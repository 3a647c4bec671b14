//! Edit scripts over lines, and replaying them on a base text.

use vstd::prelude::*;
use crate::lines::lines_view;

verus! {

/// What a hunk does with its lines.
#[derive(Clone, Copy, Debug, PartialEq, Eq, Structural)]
pub enum Op {
    /// Lines found in both texts, kept.
    Equal,
    /// Lines found only in the base text, dropped.
    Delete,
    /// Lines found only in the target text, added.
    Insert,
}

/// One contiguous run of lines that share an operation.
#[derive(Clone, Debug)]
pub struct Hunk {
    pub op: Op,
    pub lines: Vec<Vec<u8>>,
}

impl View for Hunk {
    type V = (Op, Seq<Seq<u8>>);

    open spec fn view(&self) -> (Op, Seq<Seq<u8>>) {
        (self.op, lines_view(self.lines@))
    }
}

/// An ordered sequence of hunks that turns a base text into a target text.
#[derive(Clone, Debug)]
pub struct Patch {
    pub hunks: Vec<Hunk>,
}

impl View for Patch {
    type V = Seq<(Op, Seq<Seq<u8>>)>;

    open spec fn view(&self) -> Seq<(Op, Seq<Seq<u8>>)> {
        self.hunks@.map_values(|h: Hunk| h@)
    }
}

/// The line-by-line operations of one hunk.
pub open spec fn hunk_ops(h: (Op, Seq<Seq<u8>>)) -> Seq<(Op, Seq<u8>)> {
    h.1.map_values(|l: Seq<u8>| (h.0, l))
}

/// The line-by-line operations of a sequence of hunks.
pub open spec fn ops_of(hs: Seq<(Op, Seq<Seq<u8>>)>) -> Seq<(Op, Seq<u8>)>
    decreases hs.len(),
{
    if hs.len() == 0 {
        seq![]
    } else {
        ops_of(hs.drop_last()) + hunk_ops(hs.last())
    }
}

/// The base lines that a script reads: those of its `Equal` and `Delete` operations.
pub open spec fn old_side(ops: Seq<(Op, Seq<u8>)>) -> Seq<Seq<u8>>
    decreases ops.len(),
{
    if ops.len() == 0 {
        seq![]
    } else if ops.last().0 == Op::Insert {
        old_side(ops.drop_last())
    } else {
        old_side(ops.drop_last()).push(ops.last().1)
    }
}

/// The target lines that a script writes: those of its `Equal` and `Insert` operations.
pub open spec fn new_side(ops: Seq<(Op, Seq<u8>)>) -> Seq<Seq<u8>>
    decreases ops.len(),
{
    if ops.len() == 0 {
        seq![]
    } else if ops.last().0 == Op::Delete {
        new_side(ops.drop_last())
    } else {
        new_side(ops.drop_last()).push(ops.last().1)
    }
}

/// A script is an edit script from `base` to `target` when it reads exactly
/// `base` and writes exactly `target`.
pub open spec fn is_script_for(ops: Seq<(Op, Seq<u8>)>, base: Seq<Seq<u8>>, target: Seq<Seq<u8>>) -> bool {
    old_side(ops) == base && new_side(ops) == target
}

/// The state of a replay: still going, with a cursor into the base and the
/// lines written so far, or stopped at a conflict.
pub ghost enum Replay {
    Running { cursor: nat, out: Seq<Seq<u8>> },
    Stopped { line: nat, expected: Seq<u8>, actual: Option<Seq<u8>> },
}

/// Replays operations on `base`, one line at a time. An `Equal` or `Delete`
/// operation stops the replay when the base line at the cursor is missing or
/// differs from the operation's line.
pub open spec fn replay(base: Seq<Seq<u8>>, ops: Seq<(Op, Seq<u8>)>) -> Replay
    decreases ops.len(),
{
    if ops.len() == 0 {
        Replay::Running { cursor: 0, out: seq![] }
    } else {
        match replay(base, ops.drop_last()) {
            Replay::Running { cursor, out } => {
                let (op, l) = ops.last();
                if op == Op::Insert {
                    Replay::Running { cursor, out: out.push(l) }
                } else if cursor < base.len() && base[cursor as int] == l {
                    Replay::Running {
                        cursor: cursor + 1,
                        out: if op == Op::Equal { out.push(l) } else { out },
                    }
                } else {
                    Replay::Stopped {
                        line: cursor,
                        expected: l,
                        actual: if cursor < base.len() { Some(base[cursor as int]) } else { None },
                    }
                }
            },
            stopped => stopped,
        }
    }
}

/// The outcome of applying operations to `base`: the lines written, followed
/// by the base lines past the cursor; or the conflict as (line, expected, actual).
pub open spec fn apply_spec(base: Seq<Seq<u8>>, ops: Seq<(Op, Seq<u8>)>) -> Result<
    Seq<Seq<u8>>,
    (nat, Seq<u8>, Option<Seq<u8>>),
> {
    match replay(base, ops) {
        Replay::Running { cursor, out } => Ok(out + base.subrange(cursor as int, base.len() as int)),
        Replay::Stopped { line, expected, actual } => Err((line, expected, actual)),
    }
}

/// The base text did not hold what the patch expected.
#[derive(Clone, Debug)]
pub struct PatchConflict {
    /// Index of the base line at which the patch stopped.
    pub line: usize,
    /// The line that the patch expected there.
    pub expected: Vec<u8>,
    /// The line found there, or `None` past the end of the base.
    pub actual: Option<Vec<u8>>,
}

impl View for PatchConflict {
    type V = (nat, Seq<u8>, Option<Seq<u8>>);

    open spec fn view(&self) -> (nat, Seq<u8>, Option<Seq<u8>>) {
        (
            self.line as nat,
            self.expected@,
            match self.actual {
                Some(a) => Some(a@),
                None => None,
            },
        )
    }
}

/// The operations of two hunk sequences one after the other.
pub proof fn lemma_ops_of_concat(a: Seq<(Op, Seq<Seq<u8>>)>, b: Seq<(Op, Seq<Seq<u8>>)>)
    ensures
        ops_of(a + b) == ops_of(a) + ops_of(b),
    decreases b.len(),
{
    if b.len() == 0 {
        assert(a + b =~= a);
        assert(ops_of(a) + ops_of(b) =~= ops_of(a));
    } else {
        assert((a + b).drop_last() =~= a + b.drop_last());
        lemma_ops_of_concat(a, b.drop_last());
        assert(ops_of(a + b) =~= ops_of(a) + ops_of(b));
    }
}

proof fn lemma_ops_of_take(hs: Seq<(Op, Seq<Seq<u8>>)>, h: int)
    requires
        0 <= h < hs.len(),
    ensures
        ops_of(hs.take(h + 1)) == ops_of(hs.take(h)) + hunk_ops(hs[h]),
{
    assert(hs.take(h + 1).drop_last() =~= hs.take(h));
}

proof fn lemma_stopped_stays(base: Seq<Seq<u8>>, a: Seq<(Op, Seq<u8>)>, b: Seq<(Op, Seq<u8>)>)
    requires
        replay(base, a) is Stopped,
    ensures
        replay(base, a + b) == replay(base, a),
    decreases b.len(),
{
    if b.len() == 0 {
        assert(a + b =~= a);
    } else {
        assert((a + b).drop_last() =~= a + b.drop_last());
        lemma_stopped_stays(base, a, b.drop_last());
    }
}

/// The base lines read and the target lines written by two scripts one after
/// the other are those of the first followed by those of the second.
pub proof fn lemma_sides_concat(a: Seq<(Op, Seq<u8>)>, b: Seq<(Op, Seq<u8>)>)
    ensures
        old_side(a + b) == old_side(a) + old_side(b),
        new_side(a + b) == new_side(a) + new_side(b),
    decreases b.len(),
{
    if b.len() == 0 {
        assert(a + b =~= a);
        assert(old_side(a) + old_side(b) =~= old_side(a));
        assert(new_side(a) + new_side(b) =~= new_side(a));
    } else {
        assert((a + b).drop_last() =~= a + b.drop_last());
        lemma_sides_concat(a, b.drop_last());
        assert(old_side(a + b) =~= old_side(a) + old_side(b));
        assert(new_side(a + b) =~= new_side(a) + new_side(b));
    }
}

/// A replay whose script reads a prefix of the base runs without conflict,
/// with its cursor past the lines read and the lines written as output.
pub proof fn lemma_replay_prefix(base: Seq<Seq<u8>>, ops: Seq<(Op, Seq<u8>)>)
    requires
        old_side(ops).len() <= base.len(),
        base.take(old_side(ops).len() as int) == old_side(ops),
    ensures
        replay(base, ops) == (Replay::Running { cursor: old_side(ops).len(), out: new_side(ops) }),
    decreases ops.len(),
{
    if ops.len() > 0 {
        let p = ops.drop_last();
        let osp = old_side(p);
        assert(base.take(osp.len() as int) =~= osp) by {
            assert forall|k: int| 0 <= k < osp.len() implies base[k] == osp[k] by {
                assert(base.take(old_side(ops).len() as int)[k] == old_side(ops)[k]);
            }
        }
        lemma_replay_prefix(base, p);
        if ops.last().0 != Op::Insert {
            assert(base.take(old_side(ops).len() as int)[osp.len() as int] == old_side(ops)[osp.len() as int]);
        }
    }
}

/// Replaying a script on a base that agrees with the lines it reads below line
/// `i`, and differs from them at line `i` (or ends there), stops at line `i`.
pub proof fn lemma_replay_conflict(base: Seq<Seq<u8>>, ops: Seq<(Op, Seq<u8>)>, i: nat)
    requires
        i < old_side(ops).len(),
        i <= base.len(),
        forall|k: int| 0 <= k < i ==> base[k] == old_side(ops)[k],
        i == base.len() || base[i as int] != old_side(ops)[i as int],
    ensures
        replay(base, ops) == (Replay::Stopped {
            line: i,
            expected: old_side(ops)[i as int],
            actual: if i < base.len() { Some(base[i as int]) } else { None },
        }),
    decreases ops.len(),
{
    let p = ops.drop_last();
    let os = old_side(ops);
    let osp = old_side(p);
    assert forall|k: int| 0 <= k < osp.len() implies os[k] == osp[k] by {}
    if osp.len() > i {
        lemma_replay_conflict(base, p, i);
    } else {
        assert(base.take(osp.len() as int) =~= osp);
        lemma_replay_prefix(base, p);
    }
}

/// An edit script from `base` to `target`, applied to `base`, gives `target`.
pub proof fn lemma_apply_script(base: Seq<Seq<u8>>, target: Seq<Seq<u8>>, ops: Seq<(Op, Seq<u8>)>)
    requires
        is_script_for(ops, base, target),
    ensures
        apply_spec(base, ops) == Ok::<_, (nat, Seq<u8>, Option<Seq<u8>>)>(target),
{
    assert(base.take(base.len() as int) =~= base);
    lemma_replay_prefix(base, ops);
    assert(target + base.subrange(base.len() as int, base.len() as int) =~= target);
}

pub(crate) fn same_line(a: &Vec<u8>, b: &Vec<u8>) -> (r: bool)
    ensures
        r == (a@ == b@),
{
    if a.len() != b.len() {
        return false;
    }
    let mut i: usize = 0;
    while i < a.len()
        invariant
            a@.len() == b@.len(),
            i <= a@.len(),
            forall|k: int| 0 <= k < i ==> a@[k] == b@[k],
        decreases a.len() - i,
    {
        if a[i] != b[i] {
            return false;
        }
        i = i + 1;
    }
    assert(a@ =~= b@);
    true
}

pub(crate) fn copy_line(a: &Vec<u8>) -> (r: Vec<u8>)
    ensures
        r@ == a@,
{
    let mut r: Vec<u8> = Vec::new();
    let mut i: usize = 0;
    while i < a.len()
        invariant
            i <= a@.len(),
            r@ == a@.take(i as int),
        decreases a.len() - i,
    {
        r.push(a[i]);
        assert(a@.take(i + 1) =~= a@.take(i as int).push(a@[i as int]));
        i = i + 1;
    }
    assert(a@.take(i as int) =~= a@);
    r
}

/// Replays a patch on `base`. Succeeds with the lines that the patch writes,
/// followed by any base lines past those it reads; fails at the first line where
/// `base` does not hold what an `Equal` or `Delete` hunk expects.
pub fn apply(base: &Vec<Vec<u8>>, patch: &Patch) -> (r: Result<Vec<Vec<u8>>, PatchConflict>)
    ensures
        match r {
            Ok(out) => apply_spec(lines_view(base@), ops_of(patch@)) == Ok::<_, (nat, Seq<u8>, Option<Seq<u8>>)>(lines_view(out@)),
            Err(c) => apply_spec(lines_view(base@), ops_of(patch@)) == Err::<Seq<Seq<u8>>, _>(c@),
        },
{
    let ghost bv = lines_view(base@);
    let ghost pv = patch@;
    let mut out: Vec<Vec<u8>> = Vec::new();
    let mut cursor: usize = 0;
    let mut h: usize = 0;
    assert(pv.take(0) =~= Seq::<(Op, Seq<Seq<u8>>)>::empty());
    assert(lines_view(out@) =~= Seq::<Seq<u8>>::empty());
    while h < patch.hunks.len()
        invariant
            h <= pv.len(),
            pv == patch@,
            bv == lines_view(base@),
            replay(bv, ops_of(pv.take(h as int))) == (Replay::Running { cursor: cursor as nat, out: lines_view(out@) }),
            cursor <= base@.len(),
        decreases patch.hunks.len() - h,
    {
        let hunk = &patch.hunks[h];
        let ghost done = ops_of(pv.take(h as int));
        let ghost hops = hunk_ops(pv[h as int]);
        assert(hops.take(0) =~= Seq::<(Op, Seq<u8>)>::empty());
        assert(done + hops.take(0) =~= done);
        let mut j: usize = 0;
        while j < hunk.lines.len()
            invariant
                h < pv.len(),
                pv == patch@,
                bv == lines_view(base@),
                hunk == &patch.hunks@[h as int],
                hops == hunk_ops(pv[h as int]),
                done == ops_of(pv.take(h as int)),
                j <= hunk.lines@.len(),
                replay(bv, done + hops.take(j as int)) == (Replay::Running { cursor: cursor as nat, out: lines_view(out@) }),
                cursor <= base@.len(),
            decreases hunk.lines.len() - j,
        {
            let line = &hunk.lines[j];
            let ghost prev = done + hops.take(j as int);
            let ghost next = done + hops.take(j + 1);
            assert(next =~= prev.push(hops[j as int]));
            assert(next.drop_last() =~= prev);
            assert(hops[j as int] == (hunk.op, line@));
            let ghost before = lines_view(out@);
            match hunk.op {
                Op::Insert => {
                    out.push(copy_line(line));
                    assert(lines_view(out@) =~= before.push(line@));
                },
                _ => {
                    if cursor < base.len() && same_line(&base[cursor], line) {
                        if hunk.op == Op::Equal {
                            out.push(copy_line(line));
                            assert(lines_view(out@) =~= before.push(line@));
                        }
                        cursor = cursor + 1;
                    } else {
                        let actual = if cursor < base.len() {
                            Some(copy_line(&base[cursor]))
                        } else {
                            None
                        };
                        let c = PatchConflict { line: cursor, expected: copy_line(line), actual };
                        proof {
                            let full = ops_of(pv);
                            assert(pv =~= pv.take(h + 1) + pv.skip(h + 1));
                            lemma_ops_of_concat(pv.take(h + 1), pv.skip(h + 1));
                            lemma_ops_of_take(pv, h as int);
                            assert(hops =~= hops.take(j + 1) + hops.skip(j + 1));
                            assert(full =~= next + (hops.skip(j + 1) + ops_of(pv.skip(h + 1))));
                            lemma_stopped_stays(bv, next, hops.skip(j + 1) + ops_of(pv.skip(h + 1)));
                        }
                        return Err(c);
                    }
                },
            }
            j = j + 1;
        }
        proof {
            lemma_ops_of_take(pv, h as int);
            assert(hops.take(j as int) =~= hops);
        }
        h = h + 1;
    }
    assert(pv.take(h as int) =~= pv);
    let ghost written = lines_view(out@);
    let mut k: usize = cursor;
    while k < base.len()
        invariant
            cursor <= k <= base@.len(),
            bv == lines_view(base@),
            bv.len() == base@.len(),
            lines_view(out@) == written + bv.subrange(cursor as int, k as int),
        decreases base.len() - k,
    {
        let ghost before = lines_view(out@);
        out.push(copy_line(&base[k]));
        assert(lines_view(out@) =~= before.push(bv[k as int]));
        assert(lines_view(out@) =~= written + bv.subrange(cursor as int, k + 1));
        k = k + 1;
    }
    Ok(out)
}

} // verus!
