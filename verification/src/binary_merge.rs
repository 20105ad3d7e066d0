//! The recursive binary merge engine and the interfaces a caller implements:
//! a state giving random access to the two remaining inputs, and a merge
//! operation giving a comparator and the three callbacks.

use vstd::prelude::*;
use core::cmp::Ordering;

verus! {

/// Continue/abort token returned by the callbacks of a short-circuit merge
/// operation: `None` aborts the whole traversal, `Some(())` continues.
pub type EarlyOut = Option<()>;

/// The merge state: the remaining (unconsumed) windows over the two inputs
/// plus an accumulator that only the operation's callbacks write.  `R` is the
/// mathematical model of the accumulator.
pub trait MergeState<A, B, R> {
    /// Remaining elements of the first input.
    spec fn a(&self) -> Seq<A>;

    /// Remaining elements of the second input.
    spec fn b(&self) -> Seq<B>;

    /// Model of the accumulator the callbacks write into.
    spec fn acc(&self) -> R;

    fn a_len(&self) -> (n: usize)
        ensures
            n == self.a().len(),
    ;

    fn b_len(&self) -> (n: usize)
        ensures
            n == self.b().len(),
    ;

    fn a_at(&self, i: usize) -> (x: &A)
        requires
            i < self.a().len(),
        ensures
            *x == self.a()[i as int],
    ;

    fn b_at(&self, i: usize) -> (y: &B)
        requires
            i < self.b().len(),
        ensures
            *y == self.b()[i as int],
    ;

    /// Discard the first `n` remaining elements of the first input.
    fn advance_a(&mut self, n: usize)
        requires
            n <= old(self).a().len(),
        ensures
            final(self).a() == old(self).a().skip(n as int),
            final(self).b() == old(self).b(),
            final(self).acc() == old(self).acc(),
    ;

    /// Discard the first `n` remaining elements of the second input.
    fn advance_b(&mut self, n: usize)
        requires
            n <= old(self).b().len(),
        ensures
            final(self).a() == old(self).a(),
            final(self).b() == old(self).b().skip(n as int),
            final(self).acc() == old(self).acc(),
    ;
}

/// Three-way result of comparing key `i` against key `j`.
pub open spec fn key_order(i: int, j: int) -> Ordering {
    if i < j {
        Ordering::Less
    } else if i == j {
        Ordering::Equal
    } else {
        Ordering::Greater
    }
}

/// The comparator half of a merge operation.  Every element is given a
/// mathematical key, and the executable comparator must order elements of the
/// two inputs exactly as their keys are ordered.
pub trait MergeCompare<A, B> {
    /// Key of an element of the first input under the shared order.
    spec fn key_a(&self, x: A) -> int;

    /// Key of an element of the second input under the shared order.
    spec fn key_b(&self, y: B) -> int;

    fn cmp(&self, x: &A, y: &B) -> (r: Ordering)
        ensures
            r == key_order(self.key_a(*x), self.key_b(*y)),
    ;
}

/// `s` is strictly ascending under the keys of the first input.
pub open spec fn ascending_a<A, B, C: MergeCompare<A, B>>(c: &C, s: Seq<A>) -> bool {
    forall|i: int, j: int| 0 <= i < j < s.len() ==> c.key_a(s[i]) < c.key_a(s[j])
}

/// `s` is strictly ascending under the keys of the second input.
pub open spec fn ascending_b<A, B, C: MergeCompare<A, B>>(c: &C, s: Seq<B>) -> bool {
    forall|i: int, j: int| 0 <= i < j < s.len() ==> c.key_b(s[i]) < c.key_b(s[j])
}

/// Pure model of a full (non-aborting) merge operation: how each callback
/// transforms the accumulator model.
pub trait MergeSpec<A, B, R>: MergeCompare<A, B> + Sized {
    /// Effect of reporting one element that occurs only in the first input.
    spec fn on_a(&self, acc: R, x: A) -> R;

    /// Effect of reporting one element that occurs only in the second input.
    spec fn on_b(&self, acc: R, y: B) -> R;

    /// Effect of reporting a pair of elements with equal keys.
    spec fn on_both(&self, acc: R, x: A, y: B) -> R;
}

/// Accumulator after reporting every element of `xs` in order as coming only
/// from the first input.
pub open spec fn fold_a<A, B, R, O: MergeSpec<A, B, R>>(op: &O, acc: R, xs: Seq<A>) -> R
    decreases xs.len(),
{
    if xs.len() == 0 {
        acc
    } else {
        fold_a(op, op.on_a(acc, xs[0]), xs.skip(1))
    }
}

/// Accumulator after reporting every element of `ys` in order as coming only
/// from the second input.
pub open spec fn fold_b<A, B, R, O: MergeSpec<A, B, R>>(op: &O, acc: R, ys: Seq<B>) -> R
    decreases ys.len(),
{
    if ys.len() == 0 {
        acc
    } else {
        fold_b(op, op.on_b(acc, ys[0]), ys.skip(1))
    }
}

/// The reference semantics of a merge: a linear left-to-right walk of the two
/// sequences, applying the operation's effect for the smaller head (or for the
/// matching pair when the heads' keys are equal).  The engine is proved to
/// compute exactly this, whatever order its divide-and-conquer traversal
/// discovers the elements in.
pub open spec fn spec_merge<A, B, R, O: MergeSpec<A, B, R>>(
    op: &O,
    acc: R,
    a: Seq<A>,
    b: Seq<B>,
) -> R
    decreases a.len() + b.len(),
{
    if a.len() == 0 && b.len() == 0 {
        acc
    } else if b.len() == 0 || (a.len() > 0 && op.key_a(a[0]) < op.key_b(b[0])) {
        spec_merge(op, op.on_a(acc, a[0]), a.skip(1), b)
    } else if a.len() == 0 || op.key_b(b[0]) < op.key_a(a[0]) {
        spec_merge(op, op.on_b(acc, b[0]), a, b.skip(1))
    } else {
        spec_merge(op, op.on_both(acc, a[0], b[0]), a.skip(1), b.skip(1))
    }
}

/// A full merge operation: the executable callbacks, each tied to its effect
/// on the accumulator model.  The callbacks only write the accumulator; the
/// engine itself advances the two windows.
pub trait MergeOperation<A, B, R, M: MergeState<A, B, R>>: MergeSpec<A, B, R> {
    /// The next `n` remaining elements of the first input have no key match
    /// in the second; record them.
    fn from_a(&self, m: &mut M, n: usize)
        requires
            1 <= n <= old(m).a().len(),
        ensures
            final(m).a() == old(m).a(),
            final(m).b() == old(m).b(),
            final(m).acc() == fold_a(self, old(m).acc(), old(m).a().take(n as int)),
    ;

    /// The next `n` remaining elements of the second input have no key match
    /// in the first; record them.
    fn from_b(&self, m: &mut M, n: usize)
        requires
            1 <= n <= old(m).b().len(),
        ensures
            final(m).a() == old(m).a(),
            final(m).b() == old(m).b(),
            final(m).acc() == fold_b(self, old(m).acc(), old(m).b().take(n as int)),
    ;

    /// The heads of the two remaining windows have equal keys; record the pair.
    fn collision(&self, m: &mut M)
        requires
            old(m).a().len() >= 1,
            old(m).b().len() >= 1,
            self.key_a(old(m).a()[0]) == self.key_b(old(m).b()[0]),
        ensures
            final(m).a() == old(m).a(),
            final(m).b() == old(m).b(),
            final(m).acc() == self.on_both(old(m).acc(), old(m).a()[0], old(m).b()[0]),
    ;
}

/// Binary search for the key of `x` among the first `bn` remaining elements
/// of the second input.  `Ok(bm)` is a position with an equal key; `Err(bi)`
/// is the insertion point: everything before it has a smaller key, everything
/// from it up to `bn` a larger one.
pub fn find_in_b<A, B, R, M: MergeState<A, B, R>, C: MergeCompare<A, B>>(
    c: &C,
    m: &M,
    x: &A,
    bn: usize,
) -> (r: Result<usize, usize>)
    requires
        bn <= m.b().len(),
        ascending_b(c, m.b().take(bn as int)),
    ensures
        match r {
            Ok(bm) => bm < bn && c.key_b(m.b()[bm as int]) == c.key_a(*x),
            Err(bi) => bi <= bn && (forall|j: int|
                0 <= j < bi ==> c.key_b(m.b()[j]) < c.key_a(*x)) && (forall|j: int|
                bi <= j < bn ==> c.key_b(m.b()[j]) > c.key_a(*x)),
        },
{
    let mut lo: usize = 0;
    let mut hi: usize = bn;
    while lo < hi
        invariant
            lo <= hi <= bn <= m.b().len(),
            ascending_b(c, m.b().take(bn as int)),
            forall|j: int| 0 <= j < lo ==> c.key_b(m.b()[j]) < c.key_a(*x),
            forall|j: int| hi <= j < bn ==> c.key_b(m.b()[j]) > c.key_a(*x),
        decreases hi - lo,
    {
        let mid: usize = lo + (hi - lo) / 2;
        let y = m.b_at(mid);
        match c.cmp(x, y) {
            Ordering::Less => {
                proof {
                    assert forall|j: int| mid <= j < bn implies c.key_b(m.b()[j]) > c.key_a(
                        *x,
                    ) by {
                        if j > mid {
                            assert(m.b().take(bn as int)[mid as int] == m.b()[mid as int]);
                            assert(m.b().take(bn as int)[j] == m.b()[j]);
                        }
                    }
                }
                hi = mid;
            },
            Ordering::Greater => {
                proof {
                    assert forall|j: int| 0 <= j < mid + 1 implies c.key_b(m.b()[j]) < c.key_a(
                        *x,
                    ) by {
                        if j < mid {
                            assert(m.b().take(bn as int)[mid as int] == m.b()[mid as int]);
                            assert(m.b().take(bn as int)[j] == m.b()[j]);
                        }
                    }
                }
                lo = mid + 1;
            },
            Ordering::Equal => {
                return Ok(mid);
            },
        }
    }
    Err(lo)
}

/// Boundary law: a merge of an empty first input has exactly the effect of
/// the single `from_b` callback over the whole second input — and when both
/// inputs are empty, no effect at all (`spec_merge` is then `acc`).
pub proof fn lemma_merge_b_only<A, B, R, O: MergeSpec<A, B, R>>(
    op: &O,
    acc: R,
    a: Seq<A>,
    b: Seq<B>,
)
    requires
        a.len() == 0,
    ensures
        spec_merge(op, acc, a, b) == fold_b(op, acc, b),
    decreases b.len(),
{
    if b.len() > 0 {
        lemma_merge_b_only(op, op.on_b(acc, b[0]), a, b.skip(1));
    }
}

/// Boundary law: a merge of an empty second input has exactly the effect of
/// the single `from_a` callback over the whole first input.
pub proof fn lemma_merge_a_only<A, B, R, O: MergeSpec<A, B, R>>(
    op: &O,
    acc: R,
    a: Seq<A>,
    b: Seq<B>,
)
    requires
        b.len() == 0,
    ensures
        spec_merge(op, acc, a, b) == fold_a(op, acc, a),
    decreases a.len(),
{
    if a.len() > 0 {
        lemma_merge_a_only(op, op.on_a(acc, a[0]), a.skip(1), b);
    }
}

/// Splitting a merge: when every key in the prefixes `a.take(am)`, `b.take(bm)`
/// is below every key in the opposite suffix, the merge of the whole equals
/// the merge of the prefixes followed by the merge of the suffixes.
pub proof fn lemma_merge_split<A, B, R, O: MergeSpec<A, B, R>>(
    op: &O,
    acc: R,
    a: Seq<A>,
    b: Seq<B>,
    am: int,
    bm: int,
)
    requires
        0 <= am <= a.len(),
        0 <= bm <= b.len(),
        forall|i: int, j: int|
            0 <= i < am && bm <= j < b.len() ==> op.key_a(a[i]) < op.key_b(b[j]),
        forall|i: int, j: int|
            0 <= i < bm && am <= j < a.len() ==> op.key_b(b[i]) < op.key_a(a[j]),
    ensures
        spec_merge(op, acc, a, b) == spec_merge(
            op,
            spec_merge(op, acc, a.take(am), b.take(bm)),
            a.skip(am),
            b.skip(bm),
        ),
    decreases am + bm,
{
    if am == 0 && bm == 0 {
        assert(a.take(0).len() == 0);
        assert(b.take(0).len() == 0);
        assert(a.skip(0) =~= a);
        assert(b.skip(0) =~= b);
    } else if am > 0 && (b.len() == 0 || bm == 0 || op.key_a(a[0]) < op.key_b(b[0])) {
        // the overall merge and the prefix merge both consume a[0] first
        if bm == 0 && b.len() > 0 {
            assert(op.key_a(a[0]) < op.key_b(b[0]));  // separation, i = 0, j = 0
        }
        let acc1 = op.on_a(acc, a[0]);
        assert(a.take(am)[0] == a[0]);
        assert(spec_merge(op, acc, a.take(am), b.take(bm)) == spec_merge(
            op,
            acc1,
            a.take(am).skip(1),
            b.take(bm),
        ));
        assert(a.take(am).skip(1) =~= a.skip(1).take(am - 1));
        lemma_merge_split(op, acc1, a.skip(1), b, am - 1, bm);
        assert(a.skip(1).skip(am - 1) =~= a.skip(am));
    } else if bm > 0 && (am == 0 || op.key_b(b[0]) < op.key_a(a[0])) {
        // both consume b[0] first
        if am == 0 && a.len() > 0 {
            assert(op.key_b(b[0]) < op.key_a(a[0]));  // separation, i = 0, j = 0
        }
        let acc1 = op.on_b(acc, b[0]);
        assert(b.take(bm)[0] == b[0]);
        assert(spec_merge(op, acc, a.take(am), b.take(bm)) == spec_merge(
            op,
            acc1,
            a.take(am),
            b.take(bm).skip(1),
        ));
        assert(b.take(bm).skip(1) =~= b.skip(1).take(bm - 1));
        lemma_merge_split(op, acc1, a, b.skip(1), am, bm - 1);
        assert(b.skip(1).skip(bm - 1) =~= b.skip(bm));
    } else {
        // am > 0, bm > 0, equal head keys: both consume the pair first
        assert(am > 0 && bm > 0);
        assert(op.key_a(a[0]) == op.key_b(b[0]));
        let acc1 = op.on_both(acc, a[0], b[0]);
        assert(a.take(am)[0] == a[0]);
        assert(b.take(bm)[0] == b[0]);
        assert(spec_merge(op, acc, a.take(am), b.take(bm)) == spec_merge(
            op,
            acc1,
            a.take(am).skip(1),
            b.take(bm).skip(1),
        ));
        assert(a.take(am).skip(1) =~= a.skip(1).take(am - 1));
        assert(b.take(bm).skip(1) =~= b.skip(1).take(bm - 1));
        lemma_merge_split(op, acc1, a.skip(1), b.skip(1), am - 1, bm - 1);
        assert(a.skip(1).skip(am - 1) =~= a.skip(am));
        assert(b.skip(1).skip(bm - 1) =~= b.skip(bm));
    }
}

/// Ascending keys are inherited by any contiguous sub-window of the first
/// input.
pub proof fn lemma_ascending_a_sub<A, B, C: MergeCompare<A, B>>(
    c: &C,
    s: Seq<A>,
    t: Seq<A>,
    off: int,
)
    requires
        ascending_a(c, s),
        0 <= off,
        off + t.len() <= s.len(),
        forall|i: int| 0 <= i < t.len() ==> t[i] == s[off + i],
    ensures
        ascending_a(c, t),
{
    assert forall|i: int, j: int| 0 <= i < j < t.len() implies c.key_a(t[i]) < c.key_a(t[j]) by {
        assert(t[i] == s[off + i]);
        assert(t[j] == s[off + j]);
    }
}

/// Ascending keys are inherited by any contiguous sub-window of the second
/// input.
pub proof fn lemma_ascending_b_sub<A, B, C: MergeCompare<A, B>>(
    c: &C,
    s: Seq<B>,
    t: Seq<B>,
    off: int,
)
    requires
        ascending_b(c, s),
        0 <= off,
        off + t.len() <= s.len(),
        forall|i: int| 0 <= i < t.len() ==> t[i] == s[off + i],
    ensures
        ascending_b(c, t),
{
    assert forall|i: int, j: int| 0 <= i < j < t.len() implies c.key_b(t[i]) < c.key_b(t[j]) by {
        assert(t[i] == s[off + i]);
        assert(t[j] == s[off + j]);
    }
}

/// The recursive core of the full merge: consume the next `an` elements of
/// the first window and `bn` of the second, reporting every element (or
/// matched pair) through the operation's callbacks in ascending key order.
/// The pivot is the middle of the `an`-prefix; a binary search places it in
/// the `bn`-prefix, and the two halves are merged recursively around it.
#[verifier::rlimit(100)]
pub fn merge0<A, B, R, M: MergeState<A, B, R>, O: MergeOperation<A, B, R, M>>(
    op: &O,
    m: &mut M,
    an: usize,
    bn: usize,
)
    requires
        an <= old(m).a().len(),
        bn <= old(m).b().len(),
        ascending_a(op, old(m).a().take(an as int)),
        ascending_b(op, old(m).b().take(bn as int)),
    ensures
        final(m).a() == old(m).a().skip(an as int),
        final(m).b() == old(m).b().skip(bn as int),
        final(m).acc() == spec_merge(
            op,
            old(m).acc(),
            old(m).a().take(an as int),
            old(m).b().take(bn as int),
        ),
    decreases an,
{
    let ghost a0 = old(m).a();
    let ghost b0 = old(m).b();
    let ghost acc0 = old(m).acc();
    let ghost pa = a0.take(an as int);
    let ghost pb = b0.take(bn as int);
    if an == 0 {
        if bn > 0 {
            op.from_b(m, bn);
            m.advance_b(bn);
            proof {
                lemma_merge_b_only(op, acc0, pa, pb);
                assert(a0.skip(0) =~= a0);
            }
        } else {
            proof {
                assert(a0.skip(0) =~= a0);
                assert(b0.skip(0) =~= b0);
            }
        }
    } else if bn == 0 {
        op.from_a(m, an);
        m.advance_a(an);
        proof {
            lemma_merge_a_only(op, acc0, pa, pb);
            assert(b0.skip(0) =~= b0);
        }
    } else {
        let am: usize = an / 2;
        let x = m.a_at(am);
        let ghost k = op.key_a(a0[am as int]);
        match find_in_b(op, m, x, bn) {
            Ok(bm) => {
                proof {
                    assert(pb[bm as int] == b0[bm as int]);
                    assert(op.key_b(pb[bm as int]) == k);
                    assert forall|i: int, j: int|
                        0 <= i < am && bm <= j < pb.len() implies op.key_a(pa[i]) < op.key_b(
                        pb[j],
                    ) by {
                        assert(op.key_a(pa[i]) < op.key_a(pa[am as int]));
                        if j > bm {
                            assert(op.key_b(pb[bm as int]) < op.key_b(pb[j]));
                        }
                    }
                    assert forall|i: int, j: int|
                        0 <= i < bm && am <= j < pa.len() implies op.key_b(pb[i]) < op.key_a(
                        pa[j],
                    ) by {
                        assert(op.key_b(pb[i]) < op.key_b(pb[bm as int]));
                        if j > am {
                            assert(op.key_a(pa[am as int]) < op.key_a(pa[j]));
                        }
                    }
                    lemma_merge_split(op, acc0, pa, pb, am as int, bm as int);
                    assert(pa.take(am as int) =~= a0.take(am as int));
                    assert(pb.take(bm as int) =~= b0.take(bm as int));
                }
                merge0(op, m, am, bm);
                proof {
                    assert(m.a()[0] == a0[am as int]);
                    assert(m.b()[0] == b0[bm as int]);
                    assert(pa.skip(am as int)[0] == pa[am as int]);
                    assert(pb.skip(bm as int)[0] == pb[bm as int]);
                }
                op.collision(m);
                m.advance_a(1);
                m.advance_b(1);
                proof {
                    assert(m.a() =~= a0.skip(am + 1));
                    assert(m.b() =~= b0.skip(bm + 1));
                    assert(m.a().take(an - am - 1) =~= pa.skip(am as int).skip(1));
                    assert(m.b().take(bn - bm - 1) =~= pb.skip(bm as int).skip(1));
                    lemma_ascending_a_sub(op, pa, m.a().take(an - am - 1), am + 1);
                    lemma_ascending_b_sub(op, pb, m.b().take(bn - bm - 1), bm + 1);
                }
                merge0(op, m, an - am - 1, bn - bm - 1);
                proof {
                    assert(m.a() =~= a0.skip(an as int));
                    assert(m.b() =~= b0.skip(bn as int));
                    assert(spec_merge(op, acc0, pa, pb) == spec_merge(
                        op,
                        op.on_both(
                            spec_merge(op, acc0, pa.take(am as int), pb.take(bm as int)),
                            pa[am as int],
                            pb[bm as int],
                        ),
                        pa.skip(am as int).skip(1),
                        pb.skip(bm as int).skip(1),
                    ));
                }
            },
            Err(bi) => {
                proof {
                    assert forall|i: int, j: int|
                        0 <= i < am && bi <= j < pb.len() implies op.key_a(pa[i]) < op.key_b(
                        pb[j],
                    ) by {
                        assert(op.key_a(pa[i]) < op.key_a(pa[am as int]));
                        assert(op.key_b(b0[j]) > k);
                        assert(pb[j] == b0[j]);
                    }
                    assert forall|i: int, j: int|
                        0 <= i < bi && am <= j < pa.len() implies op.key_b(pb[i]) < op.key_a(
                        pa[j],
                    ) by {
                        assert(op.key_b(b0[i]) < k);
                        assert(pb[i] == b0[i]);
                        if j > am {
                            assert(op.key_a(pa[am as int]) < op.key_a(pa[j]));
                        }
                    }
                    lemma_merge_split(op, acc0, pa, pb, am as int, bi as int);
                    assert(pa.take(am as int) =~= a0.take(am as int));
                    assert(pb.take(bi as int) =~= b0.take(bi as int));
                }
                merge0(op, m, am, bi);
                let ghost acc1 = m.acc();
                proof {
                    assert(m.a()[0] == a0[am as int]);
                    assert(pa.skip(am as int)[0] == pa[am as int]);
                    if bi < bn {
                        assert(pb.skip(bi as int)[0] == pb[bi as int]);
                        assert(op.key_b(b0[bi as int]) > k);
                        assert(pb[bi as int] == b0[bi as int]);
                    }
                    // either way the suffix merge consumes the pivot first
                    assert(spec_merge(op, acc1, pa.skip(am as int), pb.skip(bi as int))
                        == spec_merge(
                        op,
                        op.on_a(acc1, pa[am as int]),
                        pa.skip(am as int).skip(1),
                        pb.skip(bi as int),
                    ));
                }
                op.from_a(m, 1);
                m.advance_a(1);
                proof {
                    let s1 = a0.skip(am as int).take(1);
                    assert(s1.len() == 1 && s1[0] == a0[am as int]);
                    assert(fold_a(op, acc1, s1) == fold_a(op, op.on_a(acc1, s1[0]), s1.skip(1)));
                    assert(s1.skip(1).len() == 0);
                    assert(m.a() =~= a0.skip(am + 1));
                    assert(m.a().take(an - am - 1) =~= pa.skip(am as int).skip(1));
                    assert(m.b().take(bn - bi) =~= pb.skip(bi as int));
                    lemma_ascending_a_sub(op, pa, m.a().take(an - am - 1), am + 1);
                    lemma_ascending_b_sub(op, pb, m.b().take(bn - bi), bi as int);
                }
                merge0(op, m, an - am - 1, bn - bi);
                proof {
                    assert(m.a() =~= a0.skip(an as int));
                    assert(m.b() =~= b0.skip(bn as int));
                }
            },
        }
    }
}

/// The public entry point of the full merge: consume both windows entirely.
/// On return the accumulator holds the linear merge of the two inputs.
pub fn merge<A, B, R, M: MergeState<A, B, R>, O: MergeOperation<A, B, R, M>>(op: &O, m: &mut M)
    requires
        ascending_a(op, old(m).a()),
        ascending_b(op, old(m).b()),
    ensures
        final(m).a().len() == 0,
        final(m).b().len() == 0,
        final(m).acc() == spec_merge(op, old(m).acc(), old(m).a(), old(m).b()),
{
    let an = m.a_len();
    let bn = m.b_len();
    proof {
        assert(old(m).a().take(an as int) =~= old(m).a());
        assert(old(m).b().take(bn as int) =~= old(m).b());
    }
    merge0(op, m, an, bn);
}

/// Pure model of a short-circuit merge operation: the effect of each callback
/// on the accumulator, and whether the callback lets the traversal continue
/// after seeing that element (or pair).
pub trait ShortcutMergeSpec<A, B, R>: MergeCompare<A, B> + Sized {
    /// Effect of reporting one element that occurs only in the first input.
    spec fn on_a(&self, acc: R, x: A) -> R;

    /// Effect of reporting one element that occurs only in the second input.
    spec fn on_b(&self, acc: R, y: B) -> R;

    /// Effect of reporting a pair of elements with equal keys.
    spec fn on_both(&self, acc: R, x: A, y: B) -> R;

    /// Whether the traversal continues after an element of the first input.
    spec fn keep_a(&self, acc: R, x: A) -> bool;

    /// Whether the traversal continues after an element of the second input.
    spec fn keep_b(&self, acc: R, y: B) -> bool;

    /// Whether the traversal continues after a matched pair.
    spec fn keep_both(&self, acc: R, x: A, y: B) -> bool;
}

/// Report a run of first-input elements one by one, stopping right after the
/// first element whose callback aborts.  Returns the accumulator and whether
/// the whole run completed.
pub open spec fn run_a<A, B, R, O: ShortcutMergeSpec<A, B, R>>(op: &O, acc: R, xs: Seq<A>) -> (
    R,
    bool,
)
    decreases xs.len(),
{
    if xs.len() == 0 {
        (acc, true)
    } else if !op.keep_a(acc, xs[0]) {
        (op.on_a(acc, xs[0]), false)
    } else {
        run_a(op, op.on_a(acc, xs[0]), xs.skip(1))
    }
}

/// Report a run of second-input elements one by one, stopping right after the
/// first element whose callback aborts.
pub open spec fn run_b<A, B, R, O: ShortcutMergeSpec<A, B, R>>(op: &O, acc: R, ys: Seq<B>) -> (
    R,
    bool,
)
    decreases ys.len(),
{
    if ys.len() == 0 {
        (acc, true)
    } else if !op.keep_b(acc, ys[0]) {
        (op.on_b(acc, ys[0]), false)
    } else {
        run_b(op, op.on_b(acc, ys[0]), ys.skip(1))
    }
}

/// The reference semantics of a short-circuit merge: the linear left-to-right
/// walk of `spec_merge`, stopped right after the first callback that aborts.
/// Returns the accumulator and whether the walk ran to completion.
pub open spec fn sc_merge<A, B, R, O: ShortcutMergeSpec<A, B, R>>(
    op: &O,
    acc: R,
    a: Seq<A>,
    b: Seq<B>,
) -> (R, bool)
    decreases a.len() + b.len(),
{
    if a.len() == 0 && b.len() == 0 {
        (acc, true)
    } else if b.len() == 0 || (a.len() > 0 && op.key_a(a[0]) < op.key_b(b[0])) {
        if !op.keep_a(acc, a[0]) {
            (op.on_a(acc, a[0]), false)
        } else {
            sc_merge(op, op.on_a(acc, a[0]), a.skip(1), b)
        }
    } else if a.len() == 0 || op.key_b(b[0]) < op.key_a(a[0]) {
        if !op.keep_b(acc, b[0]) {
            (op.on_b(acc, b[0]), false)
        } else {
            sc_merge(op, op.on_b(acc, b[0]), a, b.skip(1))
        }
    } else {
        if !op.keep_both(acc, a[0], b[0]) {
            (op.on_both(acc, a[0], b[0]), false)
        } else {
            sc_merge(op, op.on_both(acc, a[0], b[0]), a.skip(1), b.skip(1))
        }
    }
}

/// A short-circuit merge operation: the same callbacks as `MergeOperation`,
/// each returning the continue/abort token, which the engine must honor by
/// unwinding immediately.
pub trait ShortcutMergeOperation<A, B, R, M: MergeState<A, B, R>>: ShortcutMergeSpec<A, B, R> {
    /// Record the next `n` unmatched elements of the first input, stopping
    /// early if one of them settles the query.
    fn from_a(&self, m: &mut M, n: usize) -> (r: EarlyOut)
        requires
            1 <= n <= old(m).a().len(),
        ensures
            final(m).a() == old(m).a(),
            final(m).b() == old(m).b(),
            final(m).acc() == run_a(self, old(m).acc(), old(m).a().take(n as int)).0,
            (r is Some) == run_a(self, old(m).acc(), old(m).a().take(n as int)).1,
    ;

    /// Record the next `n` unmatched elements of the second input, stopping
    /// early if one of them settles the query.
    fn from_b(&self, m: &mut M, n: usize) -> (r: EarlyOut)
        requires
            1 <= n <= old(m).b().len(),
        ensures
            final(m).a() == old(m).a(),
            final(m).b() == old(m).b(),
            final(m).acc() == run_b(self, old(m).acc(), old(m).b().take(n as int)).0,
            (r is Some) == run_b(self, old(m).acc(), old(m).b().take(n as int)).1,
    ;

    /// Record the matched pair at the heads of the two windows.
    fn collision(&self, m: &mut M) -> (r: EarlyOut)
        requires
            old(m).a().len() >= 1,
            old(m).b().len() >= 1,
            self.key_a(old(m).a()[0]) == self.key_b(old(m).b()[0]),
        ensures
            final(m).a() == old(m).a(),
            final(m).b() == old(m).b(),
            final(m).acc() == self.on_both(old(m).acc(), old(m).a()[0], old(m).b()[0]),
            (r is Some) == self.keep_both(old(m).acc(), old(m).a()[0], old(m).b()[0]),
    ;
}

/// A short-circuit merge of an empty first input is one run over the second.
pub proof fn lemma_sc_merge_b_only<A, B, R, O: ShortcutMergeSpec<A, B, R>>(
    op: &O,
    acc: R,
    a: Seq<A>,
    b: Seq<B>,
)
    requires
        a.len() == 0,
    ensures
        sc_merge(op, acc, a, b) == run_b(op, acc, b),
    decreases b.len(),
{
    if b.len() > 0 && op.keep_b(acc, b[0]) {
        lemma_sc_merge_b_only(op, op.on_b(acc, b[0]), a, b.skip(1));
    }
}

/// A short-circuit merge of an empty second input is one run over the first.
pub proof fn lemma_sc_merge_a_only<A, B, R, O: ShortcutMergeSpec<A, B, R>>(
    op: &O,
    acc: R,
    a: Seq<A>,
    b: Seq<B>,
)
    requires
        b.len() == 0,
    ensures
        sc_merge(op, acc, a, b) == run_a(op, acc, a),
    decreases a.len(),
{
    if a.len() > 0 && op.keep_a(acc, a[0]) {
        lemma_sc_merge_a_only(op, op.on_a(acc, a[0]), a.skip(1), b);
    }
}

/// Splitting a short-circuit merge: under the same separation condition as
/// `lemma_merge_split`, the merge of the whole behaves as the merge of the
/// prefixes followed — unless that already aborted — by the merge of the
/// suffixes.
pub proof fn lemma_sc_merge_split<A, B, R, O: ShortcutMergeSpec<A, B, R>>(
    op: &O,
    acc: R,
    a: Seq<A>,
    b: Seq<B>,
    am: int,
    bm: int,
)
    requires
        0 <= am <= a.len(),
        0 <= bm <= b.len(),
        forall|i: int, j: int|
            0 <= i < am && bm <= j < b.len() ==> op.key_a(a[i]) < op.key_b(b[j]),
        forall|i: int, j: int|
            0 <= i < bm && am <= j < a.len() ==> op.key_b(b[i]) < op.key_a(a[j]),
    ensures
        ({
            let pre = sc_merge(op, acc, a.take(am), b.take(bm));
            if pre.1 {
                sc_merge(op, acc, a, b) == sc_merge(op, pre.0, a.skip(am), b.skip(bm))
            } else {
                sc_merge(op, acc, a, b) == pre
            }
        }),
    decreases am + bm,
{
    if am == 0 && bm == 0 {
        assert(a.take(0).len() == 0);
        assert(b.take(0).len() == 0);
        assert(a.skip(0) =~= a);
        assert(b.skip(0) =~= b);
    } else if am > 0 && (b.len() == 0 || bm == 0 || op.key_a(a[0]) < op.key_b(b[0])) {
        // the overall merge and the prefix merge both consume a[0] first
        if bm == 0 && b.len() > 0 {
            assert(op.key_a(a[0]) < op.key_b(b[0]));  // separation, i = 0, j = 0
        }
        assert(a.take(am)[0] == a[0]);
        if op.keep_a(acc, a[0]) {
            let acc1 = op.on_a(acc, a[0]);
            assert(sc_merge(op, acc, a.take(am), b.take(bm)) == sc_merge(
                op,
                acc1,
                a.take(am).skip(1),
                b.take(bm),
            ));
            assert(a.take(am).skip(1) =~= a.skip(1).take(am - 1));
            lemma_sc_merge_split(op, acc1, a.skip(1), b, am - 1, bm);
            assert(a.skip(1).skip(am - 1) =~= a.skip(am));
        }
    } else if bm > 0 && (am == 0 || op.key_b(b[0]) < op.key_a(a[0])) {
        // both consume b[0] first
        if am == 0 && a.len() > 0 {
            assert(op.key_b(b[0]) < op.key_a(a[0]));  // separation, i = 0, j = 0
        }
        assert(b.take(bm)[0] == b[0]);
        if op.keep_b(acc, b[0]) {
            let acc1 = op.on_b(acc, b[0]);
            assert(sc_merge(op, acc, a.take(am), b.take(bm)) == sc_merge(
                op,
                acc1,
                a.take(am),
                b.take(bm).skip(1),
            ));
            assert(b.take(bm).skip(1) =~= b.skip(1).take(bm - 1));
            lemma_sc_merge_split(op, acc1, a, b.skip(1), am, bm - 1);
            assert(b.skip(1).skip(bm - 1) =~= b.skip(bm));
        }
    } else {
        // am > 0, bm > 0, equal head keys: both consume the pair first
        assert(am > 0 && bm > 0);
        assert(op.key_a(a[0]) == op.key_b(b[0]));
        assert(a.take(am)[0] == a[0]);
        assert(b.take(bm)[0] == b[0]);
        if op.keep_both(acc, a[0], b[0]) {
            let acc1 = op.on_both(acc, a[0], b[0]);
            assert(sc_merge(op, acc, a.take(am), b.take(bm)) == sc_merge(
                op,
                acc1,
                a.take(am).skip(1),
                b.take(bm).skip(1),
            ));
            assert(a.take(am).skip(1) =~= a.skip(1).take(am - 1));
            assert(b.take(bm).skip(1) =~= b.skip(1).take(bm - 1));
            lemma_sc_merge_split(op, acc1, a.skip(1), b.skip(1), am - 1, bm - 1);
            assert(a.skip(1).skip(am - 1) =~= a.skip(am));
            assert(b.skip(1).skip(bm - 1) =~= b.skip(bm));
        }
    }
}

/// The recursive core of the short-circuit merge.  It makes the same
/// traversal as `merge0`, but checks the token after every callback and every
/// recursive sub-call: on abort it stops at once and propagates the abort up
/// without touching anything further.
#[verifier::rlimit(100)]
pub fn merge0_shortcut<A, B, R, M: MergeState<A, B, R>, O: ShortcutMergeOperation<A, B, R, M>>(
    op: &O,
    m: &mut M,
    an: usize,
    bn: usize,
) -> (r: EarlyOut)
    requires
        an <= old(m).a().len(),
        bn <= old(m).b().len(),
        ascending_a(op, old(m).a().take(an as int)),
        ascending_b(op, old(m).b().take(bn as int)),
    ensures
        final(m).acc() == sc_merge(
            op,
            old(m).acc(),
            old(m).a().take(an as int),
            old(m).b().take(bn as int),
        ).0,
        (r is Some) == sc_merge(
            op,
            old(m).acc(),
            old(m).a().take(an as int),
            old(m).b().take(bn as int),
        ).1,
        r is Some ==> final(m).a() == old(m).a().skip(an as int) && final(m).b() == old(m).b().skip(
            bn as int,
        ),
    decreases an,
{
    let ghost a0 = old(m).a();
    let ghost b0 = old(m).b();
    let ghost acc0 = old(m).acc();
    let ghost pa = a0.take(an as int);
    let ghost pb = b0.take(bn as int);
    if an == 0 {
        if bn > 0 {
            let r = op.from_b(m, bn);
            proof {
                lemma_sc_merge_b_only(op, acc0, pa, pb);
            }
            if r.is_none() {
                return None;
            }
            m.advance_b(bn);
            proof {
                assert(a0.skip(0) =~= a0);
            }
        } else {
            proof {
                assert(a0.skip(0) =~= a0);
                assert(b0.skip(0) =~= b0);
            }
        }
        Some(())
    } else if bn == 0 {
        let r = op.from_a(m, an);
        proof {
            lemma_sc_merge_a_only(op, acc0, pa, pb);
        }
        if r.is_none() {
            return None;
        }
        m.advance_a(an);
        proof {
            assert(b0.skip(0) =~= b0);
        }
        Some(())
    } else {
        let am: usize = an / 2;
        let x = m.a_at(am);
        let ghost k = op.key_a(a0[am as int]);
        match find_in_b(op, m, x, bn) {
            Ok(bm) => {
                proof {
                    assert(pb[bm as int] == b0[bm as int]);
                    assert(op.key_b(pb[bm as int]) == k);
                    assert forall|i: int, j: int|
                        0 <= i < am && bm <= j < pb.len() implies op.key_a(pa[i]) < op.key_b(
                        pb[j],
                    ) by {
                        assert(op.key_a(pa[i]) < op.key_a(pa[am as int]));
                        if j > bm {
                            assert(op.key_b(pb[bm as int]) < op.key_b(pb[j]));
                        }
                    }
                    assert forall|i: int, j: int|
                        0 <= i < bm && am <= j < pa.len() implies op.key_b(pb[i]) < op.key_a(
                        pa[j],
                    ) by {
                        assert(op.key_b(pb[i]) < op.key_b(pb[bm as int]));
                        if j > am {
                            assert(op.key_a(pa[am as int]) < op.key_a(pa[j]));
                        }
                    }
                    lemma_sc_merge_split(op, acc0, pa, pb, am as int, bm as int);
                    assert(pa.take(am as int) =~= a0.take(am as int));
                    assert(pb.take(bm as int) =~= b0.take(bm as int));
                }
                let r1 = merge0_shortcut(op, m, am, bm);
                if r1.is_none() {
                    return None;
                }
                proof {
                    assert(m.a()[0] == a0[am as int]);
                    assert(m.b()[0] == b0[bm as int]);
                    assert(pa.skip(am as int)[0] == pa[am as int]);
                    assert(pb.skip(bm as int)[0] == pb[bm as int]);
                }
                let r2 = op.collision(m);
                if r2.is_none() {
                    return None;
                }
                m.advance_a(1);
                m.advance_b(1);
                proof {
                    assert(m.a() =~= a0.skip(am + 1));
                    assert(m.b() =~= b0.skip(bm + 1));
                    assert(m.a().take(an - am - 1) =~= pa.skip(am as int).skip(1));
                    assert(m.b().take(bn - bm - 1) =~= pb.skip(bm as int).skip(1));
                    lemma_ascending_a_sub(op, pa, m.a().take(an - am - 1), am + 1);
                    lemma_ascending_b_sub(op, pb, m.b().take(bn - bm - 1), bm + 1);
                }
                let r3 = merge0_shortcut(op, m, an - am - 1, bn - bm - 1);
                if r3.is_none() {
                    return None;
                }
                proof {
                    assert(m.a() =~= a0.skip(an as int));
                    assert(m.b() =~= b0.skip(bn as int));
                }
                Some(())
            },
            Err(bi) => {
                proof {
                    assert forall|i: int, j: int|
                        0 <= i < am && bi <= j < pb.len() implies op.key_a(pa[i]) < op.key_b(
                        pb[j],
                    ) by {
                        assert(op.key_a(pa[i]) < op.key_a(pa[am as int]));
                        assert(op.key_b(b0[j]) > k);
                        assert(pb[j] == b0[j]);
                    }
                    assert forall|i: int, j: int|
                        0 <= i < bi && am <= j < pa.len() implies op.key_b(pb[i]) < op.key_a(
                        pa[j],
                    ) by {
                        assert(op.key_b(b0[i]) < k);
                        assert(pb[i] == b0[i]);
                        if j > am {
                            assert(op.key_a(pa[am as int]) < op.key_a(pa[j]));
                        }
                    }
                    lemma_sc_merge_split(op, acc0, pa, pb, am as int, bi as int);
                    assert(pa.take(am as int) =~= a0.take(am as int));
                    assert(pb.take(bi as int) =~= b0.take(bi as int));
                }
                let r1 = merge0_shortcut(op, m, am, bi);
                if r1.is_none() {
                    return None;
                }
                let ghost acc1 = m.acc();
                proof {
                    assert(m.a()[0] == a0[am as int]);
                    assert(pa.skip(am as int)[0] == pa[am as int]);
                    if bi < bn {
                        assert(pb.skip(bi as int)[0] == pb[bi as int]);
                        assert(op.key_b(b0[bi as int]) > k);
                        assert(pb[bi as int] == b0[bi as int]);
                    }
                    let s1 = a0.skip(am as int).take(1);
                    assert(s1.len() == 1 && s1[0] == a0[am as int]);
                    assert(s1.skip(1).len() == 0);
                    if op.keep_a(acc1, a0[am as int]) {
                        assert(run_a(op, acc1, s1) == run_a(op, op.on_a(acc1, s1[0]), s1.skip(1)));
                    }
                }
                let r2 = op.from_a(m, 1);
                if r2.is_none() {
                    return None;
                }
                m.advance_a(1);
                proof {
                    assert(m.a() =~= a0.skip(am + 1));
                    assert(m.a().take(an - am - 1) =~= pa.skip(am as int).skip(1));
                    assert(m.b().take(bn - bi) =~= pb.skip(bi as int));
                    lemma_ascending_a_sub(op, pa, m.a().take(an - am - 1), am + 1);
                    lemma_ascending_b_sub(op, pb, m.b().take(bn - bi), bi as int);
                }
                let r3 = merge0_shortcut(op, m, an - am - 1, bn - bi);
                if r3.is_none() {
                    return None;
                }
                proof {
                    assert(m.a() =~= a0.skip(an as int));
                    assert(m.b() =~= b0.skip(bn as int));
                }
                Some(())
            },
        }
    }
}

/// The public entry point of the short-circuit merge.  The final token is
/// discarded, as the protocol prescribes: a caller reads whatever abort flag
/// the operation wrote into the accumulator.
pub fn merge_shortcut<A, B, R, M: MergeState<A, B, R>, O: ShortcutMergeOperation<A, B, R, M>>(
    op: &O,
    m: &mut M,
)
    requires
        ascending_a(op, old(m).a()),
        ascending_b(op, old(m).b()),
    ensures
        final(m).acc() == sc_merge(op, old(m).acc(), old(m).a(), old(m).b()).0,
        sc_merge(op, old(m).acc(), old(m).a(), old(m).b()).1 ==> final(m).a().len() == 0
            && final(m).b().len() == 0,
{
    let an = m.a_len();
    let bn = m.b_len();
    proof {
        assert(old(m).a().take(an as int) =~= old(m).a());
        assert(old(m).b().take(bn as int) =~= old(m).b());
    }
    let _ = merge0_shortcut(op, m, an, bn);
}

} // verus!
