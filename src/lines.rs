//! Splitting a text into lines and joining lines back into a text.
//!
//! A line keeps its terminating newline byte, so only the last line of a text
//! can lack one, and joining the lines gives back the text byte for byte.

use vstd::prelude::*;

verus! {

/// The line separator.
pub const NEWLINE: u8 = 10u8;

/// The lines of `t[start..]`, where the line being scanned began at `start` and
/// the bytes `t[start..i]` hold no newline.
pub open spec fn split_from(t: Seq<u8>, start: int, i: int) -> Seq<Seq<u8>>
    decreases t.len() - i,
{
    if i >= t.len() {
        if start < t.len() {
            seq![t.subrange(start, t.len() as int)]
        } else {
            seq![]
        }
    } else if t[i] == NEWLINE {
        seq![t.subrange(start, i + 1)] + split_from(t, i + 1, i + 1)
    } else {
        split_from(t, start, i + 1)
    }
}

/// The lines of a text, each with its newline; the empty text has no lines.
pub open spec fn lines_of(t: Seq<u8>) -> Seq<Seq<u8>> {
    split_from(t, 0, 0)
}

/// The contents of a vector of lines.
pub open spec fn lines_view(v: Seq<Vec<u8>>) -> Seq<Seq<u8>> {
    v.map_values(|l: Vec<u8>| l@)
}

/// The text made of the given lines, one after another.
pub open spec fn join(ls: Seq<Seq<u8>>) -> Seq<u8> {
    ls.flatten()
}

proof fn lemma_join_split_from(t: Seq<u8>, start: int, i: int)
    requires
        0 <= start <= i <= t.len(),
    ensures
        join(split_from(t, start, i)) == t.subrange(start, t.len() as int),
    decreases t.len() - i,
{
    if i >= t.len() {
        if start < t.len() {
            let s = t.subrange(start, t.len() as int);
            seq![s].lemma_flatten_one_element();
        } else {
            assert(t.subrange(start, t.len() as int) =~= Seq::<u8>::empty());
        }
    } else if t[i] == NEWLINE {
        lemma_join_split_from(t, i + 1, i + 1);
        let first = t.subrange(start, i + 1);
        let rest = split_from(t, i + 1, i + 1);
        assert((seq![first] + rest).drop_first() =~= rest);
        assert(t.subrange(start, t.len() as int) =~= first + t.subrange(i + 1, t.len() as int));
    } else {
        lemma_join_split_from(t, start, i + 1);
    }
}

/// Joining the lines of a text gives back the text.
pub proof fn lemma_join_lines_of(t: Seq<u8>)
    ensures
        join(lines_of(t)) == t,
{
    lemma_join_split_from(t, 0, 0);
    assert(t.subrange(0, t.len() as int) =~= t);
}

/// Splits a text into its lines, each line keeping its newline.
pub fn tokenize(text: &[u8]) -> (r: Vec<Vec<u8>>)
    ensures
        lines_view(r@) == lines_of(text@),
{
    let mut out: Vec<Vec<u8>> = Vec::new();
    let mut cur: Vec<u8> = Vec::new();
    let ghost mut start: int = 0;
    let mut i: usize = 0;
    while i < text.len()
        invariant
            0 <= start <= i <= text@.len(),
            cur@ == text@.subrange(start, i as int),
            lines_of(text@) == lines_view(out@) + split_from(text@, start, i as int),
        decreases text.len() - i,
    {
        let b = text[i];
        cur.push(b);
        if b == NEWLINE {
            let line = cur;
            cur = Vec::new();
            let ghost before = lines_view(out@);
            proof {
                assert(line@ =~= text@.subrange(start, i + 1));
                assert(before.push(line@) + split_from(text@, i + 1, i + 1)
                    =~= before + (seq![line@] + split_from(text@, i + 1, i + 1)));
                start = i + 1;
            }
            out.push(line);
            assert(lines_view(out@) =~= before.push(line@));
            assert(cur@ =~= text@.subrange(start, i + 1));
        }
        i = i + 1;
    }
    if cur.len() > 0 {
        let ghost before = lines_view(out@);
        out.push(cur);
        assert(lines_view(out@) =~= before + split_from(text@, start, i as int));
    } else {
        assert(lines_view(out@) =~= lines_view(out@) + split_from(text@, start, i as int));
    }
    out
}

/// Joins lines back into one text.
pub fn join_lines(ls: &Vec<Vec<u8>>) -> (r: Vec<u8>)
    ensures
        r@ == join(lines_view(ls@)),
{
    let mut out: Vec<u8> = Vec::new();
    let mut k: usize = 0;
    while k < ls.len()
        invariant
            k <= ls@.len(),
            out@ == join(lines_view(ls@).take(k as int)),
        decreases ls.len() - k,
    {
        let line = &ls[k];
        let ghost before = out@;
        let mut j: usize = 0;
        while j < line.len()
            invariant
                j <= line@.len(),
                line == ls@[k as int],
                out@ == before + line@.take(j as int),
            decreases line.len() - j,
        {
            out.push(line[j]);
            assert(line@.take(j + 1) =~= line@.take(j as int).push(line@[j as int]));
            j = j + 1;
        }
        proof {
            let done = lines_view(ls@).take(k as int);
            assert(lines_view(ls@).take(k + 1) =~= done.push(line@));
            done.lemma_flatten_push(line@);
            assert(line@.take(j as int) =~= line@);
        }
        k = k + 1;
    }
    assert(lines_view(ls@).take(k as int) =~= lines_view(ls@));
    out
}

} // verus!
