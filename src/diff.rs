//! Computing the patch between two texts.
//!
//! The line alignment comes from diffy. The script it hands back is checked
//! against the lines of both texts before it is used, so the patch built here
//! always turns the base into the target, whatever the alignment was.

use vstd::prelude::*;
use crate::lines::{lines_of, lines_view, tokenize};
use crate::patch::{
    copy_line, same_line,
    hunk_ops, is_script_for, lemma_sides_concat, new_side, old_side, ops_of, Hunk, Op, Patch,
};

verus! {

/// The line-by-line script that diffy computes from `old` to `new`.
pub uninterp spec fn diffy_script(old: Seq<u8>, new: Seq<u8>) -> Seq<(Op, Seq<u8>)>;

/// The contents of a vector of line operations.
pub open spec fn ops_view(v: Seq<(Op, Vec<u8>)>) -> Seq<(Op, Seq<u8>)> {
    v.map_values(|p: (Op, Vec<u8>)| (p.0, p.1@))
}

/// Relies on `diffy::DiffOptions::create_patch_bytes`, with a context as long
/// as both texts together: each hunk then reaches both ends of the texts, and
/// the lines of the patch, in order, form one script. Context lines become
/// `Equal`, deleted lines `Delete` and inserted lines `Insert`.
#[verifier::external_body]
fn diffy_lines(old: &[u8], new: &[u8]) -> (r: Vec<(Op, Vec<u8>)>)
    ensures
        ops_view(r@) == diffy_script(old@, new@),
{
    let mut options = diffy::DiffOptions::new();
    options.set_context_len(old.len() + new.len());
    let patch = options.create_patch_bytes(old, new);
    patch.hunks().iter().flat_map(|h| h.lines().iter()).map(|l| match l {
        diffy::Line::Context(t) => (Op::Equal, t.to_vec()),
        diffy::Line::Delete(t) => (Op::Delete, t.to_vec()),
        diffy::Line::Insert(t) => (Op::Insert, t.to_vec()),
    }).collect()
}

/// Every line kept.
pub open spec fn equal_script(ls: Seq<Seq<u8>>) -> Seq<(Op, Seq<u8>)> {
    ls.map_values(|l: Seq<u8>| (Op::Equal, l))
}

/// Every base line deleted, then every target line inserted.
pub open spec fn replace_script(base: Seq<Seq<u8>>, target: Seq<Seq<u8>>) -> Seq<(Op, Seq<u8>)> {
    base.map_values(|l: Seq<u8>| (Op::Delete, l)) + target.map_values(|l: Seq<u8>| (Op::Insert, l))
}

/// The script from text `a` to text `b`: all lines kept when the texts are
/// equal; else diffy's script where it reads the lines of `a` and writes those
/// of `b`; else all of `a` deleted and all of `b` inserted.
pub open spec fn script_of(a: Seq<u8>, b: Seq<u8>) -> Seq<(Op, Seq<u8>)> {
    if a == b {
        equal_script(lines_of(a))
    } else if is_script_for(diffy_script(a, b), lines_of(a), lines_of(b)) {
        diffy_script(a, b)
    } else {
        replace_script(lines_of(a), lines_of(b))
    }
}

/// Hunks are maximal runs: none is empty, and neighbours differ in operation.
pub open spec fn is_grouped(hs: Seq<(Op, Seq<Seq<u8>>)>) -> bool {
    &&& forall|k: int| 0 <= k < hs.len() ==> hs[k].1.len() > 0
    &&& forall|k: int| 0 < k < hs.len() ==> hs[k - 1].0 != #[trigger] hs[k].0
}

/// Groups a line-by-line script into maximal hunks.
fn group(ops: &Vec<(Op, Vec<u8>)>) -> (p: Patch)
    ensures
        ops_of(p@) == ops_view(ops@),
        is_grouped(p@),
{
    let ghost ov = ops_view(ops@);
    let mut hunks: Vec<Hunk> = Vec::new();
    let mut i: usize = 0;
    assert(hunks@.map_values(|h: Hunk| h@) =~= Seq::<(Op, Seq<Seq<u8>>)>::empty());
    assert(ov.take(0) =~= Seq::<(Op, Seq<u8>)>::empty());
    while i < ops.len()
        invariant
            i <= ov.len(),
            ov == ops_view(ops@),
            ops_of(hunks@.map_values(|h: Hunk| h@)) == ov.take(i as int),
            is_grouped(hunks@.map_values(|h: Hunk| h@)),
            i > 0 ==> hunks@.len() > 0 && hunks@.last().op == ov[i - 1].0,
            i == 0 ==> hunks@.len() == 0,
        decreases ops.len() - i,
    {
        let op = ops[i].0;
        let line = copy_line(&ops[i].1);
        assert((op, line@) == ov[i as int]);
        let ghost hv0 = hunks@.map_values(|h: Hunk| h@);
        assert(ov.take(i + 1) =~= ov.take(i as int).push((op, line@)));
        if hunks.len() > 0 && hunks[hunks.len() - 1].op == op {
            let mut last = hunks.pop().unwrap();
            let ghost lv0 = last@;
            let ghost hv1 = hunks@.map_values(|h: Hunk| h@);
            assert(hv1 =~= hv0.drop_last());
            last.lines.push(line);
            proof {
                assert(last@.1 =~= lv0.1.push(line@));
                assert(hunk_ops(last@) =~= hunk_ops(lv0).push((op, line@)));
            }
            hunks.push(last);
            proof {
                let hv2 = hunks@.map_values(|h: Hunk| h@);
                assert(hv2 =~= hv1.push(last@));
                assert(hv2.drop_last() =~= hv1);
                assert(hv0.drop_last() =~= hv1);
                assert(ops_of(hv2) =~= ops_of(hv0) + seq![(op, line@)]);
                assert forall|k: int| 0 < k < hv2.len() implies hv2[k - 1].0 != #[trigger] hv2[k].0 by {
                    assert(hv2[k].0 == hv0[k].0);
                    assert(hv2[k - 1].0 == hv0[k - 1].0);
                }
            }
        } else {
            let mut lines: Vec<Vec<u8>> = Vec::new();
            lines.push(line);
            let h = Hunk { op, lines };
            hunks.push(h);
            proof {
                let hv2 = hunks@.map_values(|h: Hunk| h@);
                assert(hv2 =~= hv0.push(h@));
                assert(hv2.drop_last() =~= hv0);
                assert(hunk_ops(h@) =~= seq![(op, line@)]);
                assert forall|k: int| 0 < k < hv2.len() implies hv2[k - 1].0 != #[trigger] hv2[k].0 by {
                    if k < hv0.len() {
                        assert(hv2[k].0 == hv0[k].0);
                    }
                }
            }
        }
        i = i + 1;
    }
    assert(ov.take(i as int) =~= ov);
    Patch { hunks }
}

/// The script that gives the same operation to every line.
pub open spec fn uniform(op: Op, ls: Seq<Seq<u8>>) -> Seq<(Op, Seq<u8>)> {
    ls.map_values(|l: Seq<u8>| (op, l))
}

pub(crate) proof fn lemma_uniform_sides(op: Op, ls: Seq<Seq<u8>>)
    ensures
        old_side(uniform(op, ls)) == (if op == Op::Insert { Seq::<Seq<u8>>::empty() } else { ls }),
        new_side(uniform(op, ls)) == (if op == Op::Delete { Seq::<Seq<u8>>::empty() } else { ls }),
    decreases ls.len(),
{
    if ls.len() > 0 {
        assert(uniform(op, ls).drop_last() =~= uniform(op, ls.drop_last()));
        lemma_uniform_sides(op, ls.drop_last());
        assert(ls.drop_last().push(ls.last()) =~= ls);
    } else {
        assert(uniform(op, ls) =~= Seq::<(Op, Seq<u8>)>::empty());
    }
}

/// Appends each line with the given operation.
fn push_uniform(op: Op, ls: &Vec<Vec<u8>>, out: &mut Vec<(Op, Vec<u8>)>)
    ensures
        ops_view(final(out)@) == ops_view(old(out)@) + uniform(op, lines_view(ls@)),
{
    let ghost start = ops_view(out@);
    let mut k: usize = 0;
    while k < ls.len()
        invariant
            k <= ls@.len(),
            ops_view(out@) == start + uniform(op, lines_view(ls@)).take(k as int),
        decreases ls.len() - k,
    {
        let ghost before = ops_view(out@);
        out.push((op, copy_line(&ls[k])));
        assert(ops_view(out@) =~= before.push((op, ls@[k as int]@)));
        assert(uniform(op, lines_view(ls@)).take(k + 1) =~= uniform(op, lines_view(ls@)).take(k as int).push((op, ls@[k as int]@)));
        k = k + 1;
    }
    assert(uniform(op, lines_view(ls@)).take(k as int) =~= uniform(op, lines_view(ls@)));
}

fn same_bytes(a: &[u8], b: &[u8]) -> (r: bool)
    ensures
        r == (a@ == b@),
{
    if a.len() != b.len() {
        return false;
    }
    let mut i: usize = 0;
    while i < a.len()
        invariant
            a@.len() == b@.len(),
            i <= a@.len(),
            forall|k: int| 0 <= k < i ==> a@[k] == b@[k],
        decreases a.len() - i,
    {
        if a[i] != b[i] {
            return false;
        }
        i = i + 1;
    }
    assert(a@ =~= b@);
    true
}

/// Tells whether a script reads exactly the lines `la` and writes exactly `lb`.
fn reads_and_writes(script: &Vec<(Op, Vec<u8>)>, la: &Vec<Vec<u8>>, lb: &Vec<Vec<u8>>) -> (r: bool)
    ensures
        r == is_script_for(ops_view(script@), lines_view(la@), lines_view(lb@)),
{
    let ghost sv = ops_view(script@);
    let ghost av = lines_view(la@);
    let ghost bv = lines_view(lb@);
    let mut k: usize = 0;
    let mut ia: usize = 0;
    let mut ib: usize = 0;
    assert(sv.take(0) =~= Seq::<(Op, Seq<u8>)>::empty());
    assert(av.take(0) =~= Seq::<Seq<u8>>::empty());
    assert(bv.take(0) =~= Seq::<Seq<u8>>::empty());
    while k < script.len()
        invariant
            k <= sv.len(),
            sv == ops_view(script@),
            av == lines_view(la@),
            bv == lines_view(lb@),
            ia <= av.len(),
            ib <= bv.len(),
            old_side(sv.take(k as int)) == av.take(ia as int),
            new_side(sv.take(k as int)) == bv.take(ib as int),
        decreases script.len() - k,
    {
        let op = script[k].0;
        let line = &script[k].1;
        proof {
            assert(sv.take(k + 1).drop_last() =~= sv.take(k as int));
            assert(sv =~= sv.take(k + 1) + sv.skip(k + 1));
            lemma_sides_concat(sv.take(k + 1), sv.skip(k + 1));
        }
        if op != Op::Insert {
            if ia < la.len() && same_line(&la[ia], line) {
                assert(av.take(ia + 1) =~= av.take(ia as int).push(line@));
                ia = ia + 1;
            } else {
                proof {
                    let os = old_side(sv.take(k + 1));
                    assert(os[ia as int] == line@);
                    assert(old_side(sv)[ia as int] == line@);
                }
                return false;
            }
        } else {
            assert(old_side(sv.take(k + 1)) == av.take(ia as int));
        }
        if op != Op::Delete {
            if ib < lb.len() && same_line(&lb[ib], line) {
                assert(bv.take(ib + 1) =~= bv.take(ib as int).push(line@));
                ib = ib + 1;
            } else {
                proof {
                    let ns = new_side(sv.take(k + 1));
                    assert(ns[ib as int] == line@);
                    assert(new_side(sv)[ib as int] == line@);
                }
                return false;
            }
        } else {
            assert(new_side(sv.take(k + 1)) == bv.take(ib as int));
        }
        k = k + 1;
    }
    assert(sv.take(k as int) =~= sv);
    assert(av.take(av.len() as int) =~= av);
    assert(bv.take(bv.len() as int) =~= bv);
    ia == la.len() && ib == lb.len()
}

/// Computes the patch that turns the text `base` into the text `target`.
pub fn diff(base: &[u8], target: &[u8]) -> (p: Patch)
    ensures
        ops_of(p@) == script_of(base@, target@),
        is_grouped(p@),
{
    let la = tokenize(base);
    let lb = tokenize(target);
    let mut script: Vec<(Op, Vec<u8>)> = Vec::new();
    // For equal texts diffy's patch holds no hunk at all, and so no lines:
    // every line is kept here instead.
    if same_bytes(base, target) {
        push_uniform(Op::Equal, &la, &mut script);
        assert(ops_view(script@) =~= equal_script(lines_of(base@)));
    } else {
        let found = diffy_lines(base, target);
        if reads_and_writes(&found, &la, &lb) {
            script = found;
        } else {
            push_uniform(Op::Delete, &la, &mut script);
            push_uniform(Op::Insert, &lb, &mut script);
            assert(ops_view(script@) =~= replace_script(lines_of(base@), lines_of(target@)));
        }
    }
    group(&script)
}

} // verus!
