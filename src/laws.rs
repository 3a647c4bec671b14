//! Properties that relate tokenizing, diffing and applying.

use vstd::prelude::*;
use crate::diff::{diffy_script, is_grouped, lemma_uniform_sides, script_of, uniform};
use crate::lines::lines_of;
use crate::patch::{
    apply_spec, hunk_ops, is_script_for, lemma_apply_script, lemma_ops_of_concat,
    lemma_replay_conflict, lemma_sides_concat, new_side, old_side, ops_of, Op,
};

verus! {

/// The script between two texts reads the lines of the first and writes the
/// lines of the second.
pub proof fn lemma_script_of_is_script(a: Seq<u8>, b: Seq<u8>)
    ensures
        is_script_for(script_of(a, b), lines_of(a), lines_of(b)),
{
    if a == b {
        lemma_uniform_sides(Op::Equal, lines_of(a));
    } else if !is_script_for(diffy_script(a, b), lines_of(a), lines_of(b)) {
        let d = uniform(Op::Delete, lines_of(a));
        let n = uniform(Op::Insert, lines_of(b));
        lemma_uniform_sides(Op::Delete, lines_of(a));
        lemma_uniform_sides(Op::Insert, lines_of(b));
        lemma_sides_concat(d, n);
        assert(old_side(d) + old_side(n) =~= lines_of(a));
        assert(new_side(d) + new_side(n) =~= lines_of(b));
    }
}

/// Applying the patch between two texts to the lines of the first gives the
/// lines of the second.
pub proof fn law_reconstruction(a: Seq<u8>, b: Seq<u8>)
    ensures
        apply_spec(lines_of(a), script_of(a, b)) == Ok::<_, (nat, Seq<u8>, Option<Seq<u8>>)>(lines_of(b)),
{
    lemma_script_of_is_script(a, b);
    lemma_apply_script(lines_of(a), lines_of(b), script_of(a, b));
}

/// The patch from a text to itself holds only `Equal` hunks, and applying it
/// gives the text's lines back.
pub proof fn law_identity(a: Seq<u8>, p: Seq<(Op, Seq<Seq<u8>>)>)
    requires
        ops_of(p) == script_of(a, a),
        is_grouped(p),
    ensures
        forall|k: int| 0 <= k < p.len() ==> #[trigger] p[k].0 == Op::Equal,
        apply_spec(lines_of(a), ops_of(p)) == Ok::<_, (nat, Seq<u8>, Option<Seq<u8>>)>(lines_of(a)),
{
    law_reconstruction(a, a);
    assert forall|k: int| 0 <= k < p.len() implies #[trigger] p[k].0 == Op::Equal by {
        assert(p =~= p.take(k) + (seq![p[k]] + p.skip(k + 1)));
        lemma_ops_of_concat(p.take(k), seq![p[k]] + p.skip(k + 1));
        lemma_ops_of_concat(seq![p[k]], p.skip(k + 1));
        assert(seq![p[k]].drop_last() =~= Seq::<(Op, Seq<Seq<u8>>)>::empty());
        let one = seq![p[k]];
        assert(one.last() == p[k]);
        assert(ops_of(one.drop_last()) =~= Seq::<(Op, Seq<u8>)>::empty());
        assert(ops_of(one) == ops_of(one.drop_last()) + hunk_ops(one.last()));
        assert(ops_of(one) =~= hunk_ops(p[k]));
        let n = ops_of(p.take(k)).len();
        assert(p[k].1.len() > 0);
        assert(ops_of(p) =~= ops_of(p.take(k)) + (hunk_ops(p[k]) + ops_of(p.skip(k + 1))));
        assert(ops_of(p)[n as int] == hunk_ops(p[k])[0]);
    }
}

/// Applying the patch between texts `a` and `b` to lines that agree with the
/// lines of `a` below line `i` and differ from them at line `i` (or end there)
/// fails at line `i`, with the line of `a` as expected and the line found as
/// actual.
pub proof fn law_conflict(a: Seq<u8>, b: Seq<u8>, other: Seq<Seq<u8>>, i: nat)
    requires
        i < lines_of(a).len(),
        i <= other.len(),
        forall|k: int| 0 <= k < i ==> other[k] == lines_of(a)[k],
        i == other.len() || other[i as int] != lines_of(a)[i as int],
    ensures
        apply_spec(other, script_of(a, b)) == Err::<Seq<Seq<u8>>, _>((
            i,
            lines_of(a)[i as int],
            if i < other.len() { Some(other[i as int]) } else { None },
        )),
{
    lemma_script_of_is_script(a, b);
    lemma_replay_conflict(other, script_of(a, b), i);
}

proof fn lemma_reads_nothing(ops: Seq<(Op, Seq<u8>)>)
    requires
        old_side(ops).len() == 0,
    ensures
        ops == uniform(Op::Insert, new_side(ops)),
    decreases ops.len(),
{
    if ops.len() > 0 {
        let d = ops.drop_last();
        assert(ops.last().0 == Op::Insert);
        lemma_reads_nothing(d);
        assert(uniform(Op::Insert, new_side(d).push(ops.last().1)) =~= uniform(Op::Insert, new_side(d)).push((Op::Insert, ops.last().1)));
        assert(d.push(ops.last()) =~= ops);
    } else {
        assert(ops =~= uniform(Op::Insert, new_side(ops)));
    }
}

proof fn lemma_writes_nothing(ops: Seq<(Op, Seq<u8>)>)
    requires
        new_side(ops).len() == 0,
    ensures
        ops == uniform(Op::Delete, old_side(ops)),
    decreases ops.len(),
{
    if ops.len() > 0 {
        let d = ops.drop_last();
        assert(ops.last().0 == Op::Delete);
        lemma_writes_nothing(d);
        assert(uniform(Op::Delete, old_side(d).push(ops.last().1)) =~= uniform(Op::Delete, old_side(d)).push((Op::Delete, ops.last().1)));
        assert(d.push(ops.last()) =~= ops);
    } else {
        assert(ops =~= uniform(Op::Delete, old_side(ops)));
    }
}

/// From the empty text, the script inserts every line of the target.
pub proof fn law_empty_base(b: Seq<u8>)
    ensures
        script_of(Seq::empty(), b) == uniform(Op::Insert, lines_of(b)),
{
    let e = Seq::<u8>::empty();
    lemma_script_of_is_script(e, b);
    assert(lines_of(e) =~= Seq::<Seq<u8>>::empty());
    lemma_reads_nothing(script_of(e, b));
}

/// To the empty text, the script deletes every line of the base.
pub proof fn law_empty_target(a: Seq<u8>)
    ensures
        script_of(a, Seq::empty()) == uniform(Op::Delete, lines_of(a)),
{
    let e = Seq::<u8>::empty();
    lemma_script_of_is_script(a, e);
    assert(lines_of(e) =~= Seq::<Seq<u8>>::empty());
    lemma_writes_nothing(script_of(a, e));
}

proof fn lemma_last_op(q: Seq<(Op, Seq<Seq<u8>>)>)
    requires
        q.len() > 0,
        q.last().1.len() > 0,
    ensures
        ops_of(q).len() > 0,
        ops_of(q).last().0 == q.last().0,
        ops_of(q).len() == ops_of(q.drop_last()).len() + q.last().1.len(),
{
}

/// Two hunk sequences in maximal runs that spell out the same operations are
/// the same; so the patch between two texts is fixed by the texts alone.
pub proof fn law_grouping_unique(p1: Seq<(Op, Seq<Seq<u8>>)>, p2: Seq<(Op, Seq<Seq<u8>>)>)
    requires
        ops_of(p1) == ops_of(p2),
        is_grouped(p1),
        is_grouped(p2),
    ensures
        p1 == p2,
    decreases p1.len() + p2.len(),
{
    if p1.len() == 0 && p2.len() == 0 {
        assert(p1 =~= p2);
    } else if p1.len() == 0 {
        lemma_last_op(p2);
    } else if p2.len() == 0 {
        lemma_last_op(p1);
    } else {
        let q1 = p1.drop_last();
        let q2 = p2.drop_last();
        let h1 = p1.last();
        let h2 = p2.last();
        let o = ops_of(p1);
        let n = o.len();
        lemma_last_op(p1);
        lemma_last_op(p2);
        let l1 = h1.1.len();
        let l2 = h2.1.len();
        assert(o.last() == hunk_ops(h1).last());
        assert(o.last() == hunk_ops(h2).last());
        assert(h1.0 == h2.0);
        if l1 < l2 {
            let j = n - l1 - 1;
            assert(o[j] == hunk_ops(h2)[j - (n - l2)]);
            assert(q1.len() > 0);
            assert(q1.last() == p1[p1.len() - 2]);
            lemma_last_op(q1);
            assert(o[j] == ops_of(q1).last());
            assert(false);
        } else if l2 < l1 {
            let j = n - l2 - 1;
            assert(o[j] == hunk_ops(h1)[j - (n - l1)]);
            assert(q2.len() > 0);
            assert(q2.last() == p2[p2.len() - 2]);
            lemma_last_op(q2);
            assert(ops_of(p2)[j] == ops_of(q2).last());
            assert(false);
        } else {
            assert(hunk_ops(h1) =~= o.subrange(n - l1, n as int));
            assert(hunk_ops(h2) =~= o.subrange(n - l1, n as int));
            assert(h1.1 =~= h2.1) by {
                assert forall|i: int| 0 <= i < l1 implies h1.1[i] == h2.1[i] by {
                    assert(hunk_ops(h1)[i] == hunk_ops(h2)[i]);
                }
            }
            assert(ops_of(q1) =~= o.subrange(0, n - l1));
            assert(ops_of(q2) =~= o.subrange(0, n - l1));
            assert(is_grouped(q1));
            assert(is_grouped(q2));
            law_grouping_unique(q1, q2);
            assert(p1 =~= q1.push(h1));
            assert(p2 =~= q2.push(h2));
        }
    }
}

/// Any two patches that meet the contract of `diff` for the same texts are
/// identical: same hunk boundaries, operations and lines.
pub proof fn law_diff_deterministic(
    a: Seq<u8>,
    b: Seq<u8>,
    p1: Seq<(Op, Seq<Seq<u8>>)>,
    p2: Seq<(Op, Seq<Seq<u8>>)>,
)
    requires
        ops_of(p1) == script_of(a, b),
        is_grouped(p1),
        ops_of(p2) == script_of(a, b),
        is_grouped(p2),
    ensures
        p1 == p2,
{
    law_grouping_unique(p1, p2);
}

} // verus!
