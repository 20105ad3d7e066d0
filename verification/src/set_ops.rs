//! Set-style policies over `u64` keys: union, intersection, difference and
//! symmetric difference, each a merge operation writing the selected keys
//! into a vector, together with the laws they satisfy.

use vstd::prelude::*;
use vstd::slice::slice_index_get;
use vstd::slice::slice_subrange;
use core::cmp::Ordering;
use crate::binary_merge::MergeCompare;
use crate::binary_merge::MergeOperation;
use crate::binary_merge::MergeSpec;
use crate::binary_merge::MergeState;
use crate::binary_merge::ascending_a;
use crate::binary_merge::ascending_b;
use crate::binary_merge::fold_a;
use crate::binary_merge::fold_b;
use crate::binary_merge::key_order;
use crate::binary_merge::merge;
use crate::binary_merge::spec_merge;

verus! {

/// `s` holds strictly increasing values: ascending and duplicate-free.
pub open spec fn strictly_ascending(s: Seq<u64>) -> bool {
    forall|i: int, j: int| 0 <= i < j < s.len() ==> s[i] < s[j]
}

/// A merge state over two borrowed `u64` slices, accumulating selected keys
/// into an owned vector.
pub struct VecMergeState<'a> {
    a: &'a [u64],
    b: &'a [u64],
    r: Vec<u64>,
}

impl<'a> VecMergeState<'a> {
    pub fn new(a: &'a [u64], b: &'a [u64]) -> (s: Self)
        ensures
            s.a() == a@,
            s.b() == b@,
            s.acc() == Seq::<u64>::empty(),
    {
        VecMergeState { a, b, r: Vec::new() }
    }

    /// The accumulated keys.
    pub fn into_vec(self) -> (r: Vec<u64>)
        ensures
            r@ == self.acc(),
    {
        self.r
    }

    /// Append the first `n` remaining elements of the first input to the
    /// result vector.
    fn push_a(&mut self, n: usize)
        requires
            n <= old(self).a().len(),
        ensures
            final(self).a() == old(self).a(),
            final(self).b() == old(self).b(),
            final(self).acc() == old(self).acc() + old(self).a().take(n as int),
    {
        proof {
            assert(self.r@ + self.a@.take(0) =~= self.r@);
        }
        let mut i: usize = 0;
        while i < n
            invariant
                i <= n,
                n <= self.a@.len(),
                self.a@ == old(self).a@,
                self.b@ == old(self).b@,
                self.r@ == old(self).r@ + self.a@.take(i as int),
            decreases n - i,
        {
            let x: u64 = *slice_index_get(self.a, i);
            self.r.push(x);
            proof {
                assert(self.r@ =~= old(self).r@ + self.a@.take(i as int + 1));
            }
            i = i + 1;
        }
    }

    /// Append the first `n` remaining elements of the second input to the
    /// result vector.
    fn push_b(&mut self, n: usize)
        requires
            n <= old(self).b().len(),
        ensures
            final(self).a() == old(self).a(),
            final(self).b() == old(self).b(),
            final(self).acc() == old(self).acc() + old(self).b().take(n as int),
    {
        proof {
            assert(self.r@ + self.b@.take(0) =~= self.r@);
        }
        let mut i: usize = 0;
        while i < n
            invariant
                i <= n,
                n <= self.b@.len(),
                self.a@ == old(self).a@,
                self.b@ == old(self).b@,
                self.r@ == old(self).r@ + self.b@.take(i as int),
            decreases n - i,
        {
            let y: u64 = *slice_index_get(self.b, i);
            self.r.push(y);
            proof {
                assert(self.r@ =~= old(self).r@ + self.b@.take(i as int + 1));
            }
            i = i + 1;
        }
    }
}

impl<'a> MergeState<u64, u64, Seq<u64>> for VecMergeState<'a> {
    closed spec fn a(&self) -> Seq<u64> {
        self.a@
    }

    closed spec fn b(&self) -> Seq<u64> {
        self.b@
    }

    closed spec fn acc(&self) -> Seq<u64> {
        self.r@
    }

    fn a_len(&self) -> usize {
        self.a.len()
    }

    fn b_len(&self) -> usize {
        self.b.len()
    }

    fn a_at(&self, i: usize) -> &u64 {
        slice_index_get(self.a, i)
    }

    fn b_at(&self, i: usize) -> &u64 {
        slice_index_get(self.b, i)
    }

    fn advance_a(&mut self, n: usize) {
        self.a = slice_subrange(self.a, n, self.a.len());
        proof {
            assert(self.a@ =~= old(self).a@.skip(n as int));
        }
    }

    fn advance_b(&mut self, n: usize) {
        self.b = slice_subrange(self.b, n, self.b.len());
        proof {
            assert(self.b@ =~= old(self).b@.skip(n as int));
        }
    }
}

/// `fold_a` for an operation that appends each first-input element.
proof fn lemma_fold_a_push<O: MergeSpec<u64, u64, Seq<u64>>>(op: &O, acc: Seq<u64>, xs: Seq<u64>)
    requires
        forall|acc2: Seq<u64>, x: u64| #[trigger] op.on_a(acc2, x) == acc2.push(x),
    ensures
        fold_a(op, acc, xs) == acc + xs,
    decreases xs.len(),
{
    if xs.len() == 0 {
        assert(acc + xs =~= acc);
    } else {
        lemma_fold_a_push(op, op.on_a(acc, xs[0]), xs.skip(1));
        assert(acc.push(xs[0]) + xs.skip(1) =~= acc + xs);
    }
}

/// `fold_a` for an operation that ignores first-input elements.
proof fn lemma_fold_a_id<O: MergeSpec<u64, u64, Seq<u64>>>(op: &O, acc: Seq<u64>, xs: Seq<u64>)
    requires
        forall|acc2: Seq<u64>, x: u64| #[trigger] op.on_a(acc2, x) == acc2,
    ensures
        fold_a(op, acc, xs) == acc,
    decreases xs.len(),
{
    if xs.len() > 0 {
        lemma_fold_a_id(op, op.on_a(acc, xs[0]), xs.skip(1));
    }
}

/// `fold_b` for an operation that appends each second-input element.
proof fn lemma_fold_b_push<O: MergeSpec<u64, u64, Seq<u64>>>(op: &O, acc: Seq<u64>, ys: Seq<u64>)
    requires
        forall|acc2: Seq<u64>, y: u64| #[trigger] op.on_b(acc2, y) == acc2.push(y),
    ensures
        fold_b(op, acc, ys) == acc + ys,
    decreases ys.len(),
{
    if ys.len() == 0 {
        assert(acc + ys =~= acc);
    } else {
        lemma_fold_b_push(op, op.on_b(acc, ys[0]), ys.skip(1));
        assert(acc.push(ys[0]) + ys.skip(1) =~= acc + ys);
    }
}

/// `fold_b` for an operation that ignores second-input elements.
proof fn lemma_fold_b_id<O: MergeSpec<u64, u64, Seq<u64>>>(op: &O, acc: Seq<u64>, ys: Seq<u64>)
    requires
        forall|acc2: Seq<u64>, y: u64| #[trigger] op.on_b(acc2, y) == acc2,
    ensures
        fold_b(op, acc, ys) == acc,
    decreases ys.len(),
{
    if ys.len() > 0 {
        lemma_fold_b_id(op, op.on_b(acc, ys[0]), ys.skip(1));
    }
}

/// Union policy: keep every key, one copy of each shared key.
pub struct UnionOp;

impl MergeCompare<u64, u64> for UnionOp {
    open spec fn key_a(&self, x: u64) -> int {
        x as int
    }

    open spec fn key_b(&self, y: u64) -> int {
        y as int
    }

    fn cmp(&self, x: &u64, y: &u64) -> (r: Ordering) {
        if *x < *y {
            Ordering::Less
        } else if *x == *y {
            Ordering::Equal
        } else {
            Ordering::Greater
        }
    }
}

impl MergeSpec<u64, u64, Seq<u64>> for UnionOp {
    open spec fn on_a(&self, acc: Seq<u64>, x: u64) -> Seq<u64> {
        acc.push(x)
    }

    open spec fn on_b(&self, acc: Seq<u64>, y: u64) -> Seq<u64> {
        acc.push(y)
    }

    open spec fn on_both(&self, acc: Seq<u64>, x: u64, y: u64) -> Seq<u64> {
        acc.push(x)
    }
}

impl<'a> MergeOperation<u64, u64, Seq<u64>, VecMergeState<'a>> for UnionOp {
    fn from_a(&self, m: &mut VecMergeState<'a>, n: usize) {
        m.push_a(n);
        proof {
            lemma_fold_a_push(self, old(m).acc(), old(m).a().take(n as int));
        }
    }

    fn from_b(&self, m: &mut VecMergeState<'a>, n: usize) {
        m.push_b(n);
        proof {
            lemma_fold_b_push(self, old(m).acc(), old(m).b().take(n as int));
        }
    }

    fn collision(&self, m: &mut VecMergeState<'a>) {
        m.push_a(1);
        proof {
            assert(old(m).acc() + old(m).a().take(1) =~= old(m).acc().push(old(m).a()[0]));
        }
    }
}

/// Intersection policy: keep exactly the shared keys.
pub struct IntersectionOp;

impl MergeCompare<u64, u64> for IntersectionOp {
    open spec fn key_a(&self, x: u64) -> int {
        x as int
    }

    open spec fn key_b(&self, y: u64) -> int {
        y as int
    }

    fn cmp(&self, x: &u64, y: &u64) -> (r: Ordering) {
        if *x < *y {
            Ordering::Less
        } else if *x == *y {
            Ordering::Equal
        } else {
            Ordering::Greater
        }
    }
}

impl MergeSpec<u64, u64, Seq<u64>> for IntersectionOp {
    open spec fn on_a(&self, acc: Seq<u64>, x: u64) -> Seq<u64> {
        acc
    }

    open spec fn on_b(&self, acc: Seq<u64>, y: u64) -> Seq<u64> {
        acc
    }

    open spec fn on_both(&self, acc: Seq<u64>, x: u64, y: u64) -> Seq<u64> {
        acc.push(x)
    }
}

impl<'a> MergeOperation<u64, u64, Seq<u64>, VecMergeState<'a>> for IntersectionOp {
    fn from_a(&self, m: &mut VecMergeState<'a>, n: usize) {
        proof {
            lemma_fold_a_id(self, old(m).acc(), old(m).a().take(n as int));
        }
    }

    fn from_b(&self, m: &mut VecMergeState<'a>, n: usize) {
        proof {
            lemma_fold_b_id(self, old(m).acc(), old(m).b().take(n as int));
        }
    }

    fn collision(&self, m: &mut VecMergeState<'a>) {
        m.push_a(1);
        proof {
            assert(old(m).acc() + old(m).a().take(1) =~= old(m).acc().push(old(m).a()[0]));
        }
    }
}

/// Difference policy: keep the keys of the first input that the second lacks.
pub struct DifferenceOp;

impl MergeCompare<u64, u64> for DifferenceOp {
    open spec fn key_a(&self, x: u64) -> int {
        x as int
    }

    open spec fn key_b(&self, y: u64) -> int {
        y as int
    }

    fn cmp(&self, x: &u64, y: &u64) -> (r: Ordering) {
        if *x < *y {
            Ordering::Less
        } else if *x == *y {
            Ordering::Equal
        } else {
            Ordering::Greater
        }
    }
}

impl MergeSpec<u64, u64, Seq<u64>> for DifferenceOp {
    open spec fn on_a(&self, acc: Seq<u64>, x: u64) -> Seq<u64> {
        acc.push(x)
    }

    open spec fn on_b(&self, acc: Seq<u64>, y: u64) -> Seq<u64> {
        acc
    }

    open spec fn on_both(&self, acc: Seq<u64>, x: u64, y: u64) -> Seq<u64> {
        acc
    }
}

impl<'a> MergeOperation<u64, u64, Seq<u64>, VecMergeState<'a>> for DifferenceOp {
    fn from_a(&self, m: &mut VecMergeState<'a>, n: usize) {
        m.push_a(n);
        proof {
            lemma_fold_a_push(self, old(m).acc(), old(m).a().take(n as int));
        }
    }

    fn from_b(&self, m: &mut VecMergeState<'a>, n: usize) {
        proof {
            lemma_fold_b_id(self, old(m).acc(), old(m).b().take(n as int));
        }
    }

    fn collision(&self, m: &mut VecMergeState<'a>) {
    }
}

/// Symmetric-difference policy: keep the keys present in exactly one input.
pub struct SymmetricDifferenceOp;

impl MergeCompare<u64, u64> for SymmetricDifferenceOp {
    open spec fn key_a(&self, x: u64) -> int {
        x as int
    }

    open spec fn key_b(&self, y: u64) -> int {
        y as int
    }

    fn cmp(&self, x: &u64, y: &u64) -> (r: Ordering) {
        if *x < *y {
            Ordering::Less
        } else if *x == *y {
            Ordering::Equal
        } else {
            Ordering::Greater
        }
    }
}

impl MergeSpec<u64, u64, Seq<u64>> for SymmetricDifferenceOp {
    open spec fn on_a(&self, acc: Seq<u64>, x: u64) -> Seq<u64> {
        acc.push(x)
    }

    open spec fn on_b(&self, acc: Seq<u64>, y: u64) -> Seq<u64> {
        acc.push(y)
    }

    open spec fn on_both(&self, acc: Seq<u64>, x: u64, y: u64) -> Seq<u64> {
        acc
    }
}

impl<'a> MergeOperation<u64, u64, Seq<u64>, VecMergeState<'a>> for SymmetricDifferenceOp {
    fn from_a(&self, m: &mut VecMergeState<'a>, n: usize) {
        m.push_a(n);
        proof {
            lemma_fold_a_push(self, old(m).acc(), old(m).a().take(n as int));
        }
    }

    fn from_b(&self, m: &mut VecMergeState<'a>, n: usize) {
        m.push_b(n);
        proof {
            lemma_fold_b_push(self, old(m).acc(), old(m).b().take(n as int));
        }
    }

    fn collision(&self, m: &mut VecMergeState<'a>) {
    }
}

/// The ascending union of two ascending sequences: all keys of either input,
/// one copy of each shared key.
pub open spec fn union_of(a: Seq<u64>, b: Seq<u64>) -> Seq<u64>
    decreases a.len() + b.len(),
{
    if a.len() == 0 && b.len() == 0 {
        Seq::empty()
    } else if b.len() == 0 || (a.len() > 0 && a[0] < b[0]) {
        seq![a[0]] + union_of(a.skip(1), b)
    } else if a.len() == 0 || b[0] < a[0] {
        seq![b[0]] + union_of(a, b.skip(1))
    } else {
        seq![a[0]] + union_of(a.skip(1), b.skip(1))
    }
}

/// The keys present in both inputs, in ascending order.
pub open spec fn intersection_of(a: Seq<u64>, b: Seq<u64>) -> Seq<u64>
    decreases a.len() + b.len(),
{
    if a.len() == 0 && b.len() == 0 {
        Seq::empty()
    } else if b.len() == 0 || (a.len() > 0 && a[0] < b[0]) {
        intersection_of(a.skip(1), b)
    } else if a.len() == 0 || b[0] < a[0] {
        intersection_of(a, b.skip(1))
    } else {
        seq![a[0]] + intersection_of(a.skip(1), b.skip(1))
    }
}

/// The keys of the first input that the second lacks, in original order.
pub open spec fn difference_of(a: Seq<u64>, b: Seq<u64>) -> Seq<u64>
    decreases a.len() + b.len(),
{
    if a.len() == 0 && b.len() == 0 {
        Seq::empty()
    } else if b.len() == 0 || (a.len() > 0 && a[0] < b[0]) {
        seq![a[0]] + difference_of(a.skip(1), b)
    } else if a.len() == 0 || b[0] < a[0] {
        difference_of(a, b.skip(1))
    } else {
        difference_of(a.skip(1), b.skip(1))
    }
}

/// The keys present in exactly one of the inputs, in ascending order.
pub open spec fn symmetric_difference_of(a: Seq<u64>, b: Seq<u64>) -> Seq<u64>
    decreases a.len() + b.len(),
{
    if a.len() == 0 && b.len() == 0 {
        Seq::empty()
    } else if b.len() == 0 || (a.len() > 0 && a[0] < b[0]) {
        seq![a[0]] + symmetric_difference_of(a.skip(1), b)
    } else if a.len() == 0 || b[0] < a[0] {
        seq![b[0]] + symmetric_difference_of(a, b.skip(1))
    } else {
        symmetric_difference_of(a.skip(1), b.skip(1))
    }
}

/// The union policy computes `union_of`.
pub proof fn lemma_union_merge(acc: Seq<u64>, a: Seq<u64>, b: Seq<u64>)
    ensures
        spec_merge(&UnionOp, acc, a, b) == acc + union_of(a, b),
    decreases a.len() + b.len(),
{
    if a.len() == 0 && b.len() == 0 {
        assert(acc + union_of(a, b) =~= acc);
    } else if b.len() == 0 || (a.len() > 0 && a[0] < b[0]) {
        lemma_union_merge(acc.push(a[0]), a.skip(1), b);
        assert(acc.push(a[0]) + union_of(a.skip(1), b) =~= acc + union_of(a, b));
    } else if a.len() == 0 || b[0] < a[0] {
        lemma_union_merge(acc.push(b[0]), a, b.skip(1));
        assert(acc.push(b[0]) + union_of(a, b.skip(1)) =~= acc + union_of(a, b));
    } else {
        lemma_union_merge(acc.push(a[0]), a.skip(1), b.skip(1));
        assert(acc.push(a[0]) + union_of(a.skip(1), b.skip(1)) =~= acc + union_of(a, b));
    }
}

/// The intersection policy computes `intersection_of`.
pub proof fn lemma_intersection_merge(acc: Seq<u64>, a: Seq<u64>, b: Seq<u64>)
    ensures
        spec_merge(&IntersectionOp, acc, a, b) == acc + intersection_of(a, b),
    decreases a.len() + b.len(),
{
    if a.len() == 0 && b.len() == 0 {
        assert(acc + intersection_of(a, b) =~= acc);
    } else if b.len() == 0 || (a.len() > 0 && a[0] < b[0]) {
        lemma_intersection_merge(acc, a.skip(1), b);
    } else if a.len() == 0 || b[0] < a[0] {
        lemma_intersection_merge(acc, a, b.skip(1));
    } else {
        lemma_intersection_merge(acc.push(a[0]), a.skip(1), b.skip(1));
        assert(acc.push(a[0]) + intersection_of(a.skip(1), b.skip(1)) =~= acc + intersection_of(
            a,
            b,
        ));
    }
}

/// The difference policy computes `difference_of`.
pub proof fn lemma_difference_merge(acc: Seq<u64>, a: Seq<u64>, b: Seq<u64>)
    ensures
        spec_merge(&DifferenceOp, acc, a, b) == acc + difference_of(a, b),
    decreases a.len() + b.len(),
{
    if a.len() == 0 && b.len() == 0 {
        assert(acc + difference_of(a, b) =~= acc);
    } else if b.len() == 0 || (a.len() > 0 && a[0] < b[0]) {
        lemma_difference_merge(acc.push(a[0]), a.skip(1), b);
        assert(acc.push(a[0]) + difference_of(a.skip(1), b) =~= acc + difference_of(a, b));
    } else if a.len() == 0 || b[0] < a[0] {
        lemma_difference_merge(acc, a, b.skip(1));
    } else {
        lemma_difference_merge(acc, a.skip(1), b.skip(1));
    }
}

/// The symmetric-difference policy computes `symmetric_difference_of`.
pub proof fn lemma_symmetric_difference_merge(acc: Seq<u64>, a: Seq<u64>, b: Seq<u64>)
    ensures
        spec_merge(&SymmetricDifferenceOp, acc, a, b) == acc + symmetric_difference_of(a, b),
    decreases a.len() + b.len(),
{
    if a.len() == 0 && b.len() == 0 {
        assert(acc + symmetric_difference_of(a, b) =~= acc);
    } else if b.len() == 0 || (a.len() > 0 && a[0] < b[0]) {
        lemma_symmetric_difference_merge(acc.push(a[0]), a.skip(1), b);
        assert(acc.push(a[0]) + symmetric_difference_of(a.skip(1), b) =~= acc
            + symmetric_difference_of(a, b));
    } else if a.len() == 0 || b[0] < a[0] {
        lemma_symmetric_difference_merge(acc.push(b[0]), a, b.skip(1));
        assert(acc.push(b[0]) + symmetric_difference_of(a, b.skip(1)) =~= acc
            + symmetric_difference_of(a, b));
    } else {
        lemma_symmetric_difference_merge(acc, a.skip(1), b.skip(1));
    }
}

/// Membership in a sequence with one element prepended.
proof fn lemma_contains_cons(h: u64, t: Seq<u64>, k: u64)
    ensures
        (seq![h] + t).contains(k) <==> (k == h || t.contains(k)),
{
    let s = seq![h] + t;
    if s.contains(k) {
        let i = choose|i: int| 0 <= i < s.len() && s[i] == k;
        if i > 0 {
            assert(t[i - 1] == k);
        }
    }
    if t.contains(k) {
        let i = choose|i: int| 0 <= i < t.len() && t[i] == k;
        assert(s[i + 1] == k);
    }
    if k == h {
        assert(s[0] == k);
    }
}

/// Membership split at the head of a nonempty sequence.
proof fn lemma_contains_head(s: Seq<u64>, k: u64)
    requires
        s.len() > 0,
    ensures
        s.contains(k) <==> (k == s[0] || s.skip(1).contains(k)),
{
    if s.contains(k) {
        let i = choose|i: int| 0 <= i < s.len() && s[i] == k;
        if i > 0 {
            assert(s.skip(1)[i - 1] == k);
        }
    }
    if s.skip(1).contains(k) {
        let i = choose|i: int| 0 <= i < s.skip(1).len() && s.skip(1)[i] == k;
        assert(s[i + 1] == k);
    }
    if k == s[0] {
        assert(s.contains(k));
    }
}

/// In an ascending sequence, the head bounds every member from below.
proof fn lemma_ascending_head_min(s: Seq<u64>, k: u64)
    requires
        strictly_ascending(s),
        s.contains(k),
    ensures
        s.len() > 0 && s[0] <= k,
{
    let i = choose|i: int| 0 <= i < s.len() && s[i] == k;
    if i > 0 {
        assert(s[0] < s[i]);
    }
}

/// The tail of an ascending sequence is ascending.
proof fn lemma_ascending_tail(s: Seq<u64>)
    requires
        strictly_ascending(s),
        s.len() > 0,
    ensures
        strictly_ascending(s.skip(1)),
{
    assert forall|i: int, j: int|
        0 <= i < j < s.skip(1).len() implies s.skip(1)[i] < s.skip(1)[j] by {
        assert(s.skip(1)[i] == s[i + 1]);
        assert(s.skip(1)[j] == s[j + 1]);
    }
}

/// Prepending an element below every member keeps a sequence ascending.
proof fn lemma_ascending_cons(h: u64, t: Seq<u64>)
    requires
        strictly_ascending(t),
        forall|i: int| 0 <= i < t.len() ==> h < t[i],
    ensures
        strictly_ascending(seq![h] + t),
{
    let s = seq![h] + t;
    assert forall|i: int, j: int| 0 <= i < j < s.len() implies s[i] < s[j] by {
        if i > 0 {
            assert(s[i] == t[i - 1]);
            assert(s[j] == t[j - 1]);
        } else {
            assert(s[j] == t[j - 1]);
        }
    }
}

/// Union law: over ascending, duplicate-free inputs the union holds exactly
/// the keys of either input and is itself strictly ascending — so each key
/// appears exactly once.
pub proof fn lemma_union_of_props(a: Seq<u64>, b: Seq<u64>)
    requires
        strictly_ascending(a),
        strictly_ascending(b),
    ensures
        strictly_ascending(union_of(a, b)),
        forall|k: u64| #[trigger] union_of(a, b).contains(k) <==> (a.contains(k) || b.contains(
            k,
        )),
    decreases a.len() + b.len(),
{
    let u = union_of(a, b);
    if a.len() == 0 && b.len() == 0 {
        assert forall|k: u64| #[trigger] u.contains(k) <==> (a.contains(k) || b.contains(k)) by {}
    } else if b.len() == 0 || (a.len() > 0 && a[0] < b[0]) {
        let h = a[0];
        let t = union_of(a.skip(1), b);
        lemma_ascending_tail(a);
        lemma_union_of_props(a.skip(1), b);
        assert forall|i: int| 0 <= i < t.len() implies h < t[i] by {
            assert(t.contains(t[i]));
            if a.skip(1).contains(t[i]) {
                lemma_ascending_head_min(a.skip(1), t[i]);
                assert(a.skip(1)[0] == a[1]);
            } else {
                lemma_ascending_head_min(b, t[i]);
            }
        }
        lemma_ascending_cons(h, t);
        assert forall|k: u64| #[trigger] u.contains(k) <==> (a.contains(k) || b.contains(k)) by {
            lemma_contains_cons(h, t, k);
            lemma_contains_head(a, k);
        }
    } else if a.len() == 0 || b[0] < a[0] {
        let h = b[0];
        let t = union_of(a, b.skip(1));
        lemma_ascending_tail(b);
        lemma_union_of_props(a, b.skip(1));
        assert forall|i: int| 0 <= i < t.len() implies h < t[i] by {
            assert(t.contains(t[i]));
            if b.skip(1).contains(t[i]) {
                lemma_ascending_head_min(b.skip(1), t[i]);
                assert(b.skip(1)[0] == b[1]);
            } else {
                lemma_ascending_head_min(a, t[i]);
            }
        }
        lemma_ascending_cons(h, t);
        assert forall|k: u64| #[trigger] u.contains(k) <==> (a.contains(k) || b.contains(k)) by {
            lemma_contains_cons(h, t, k);
            lemma_contains_head(b, k);
        }
    } else {
        let h = a[0];
        let t = union_of(a.skip(1), b.skip(1));
        lemma_ascending_tail(a);
        lemma_ascending_tail(b);
        lemma_union_of_props(a.skip(1), b.skip(1));
        assert forall|i: int| 0 <= i < t.len() implies h < t[i] by {
            assert(t.contains(t[i]));
            if a.skip(1).contains(t[i]) {
                lemma_ascending_head_min(a.skip(1), t[i]);
                assert(a.skip(1)[0] == a[1]);
            } else {
                lemma_ascending_head_min(b.skip(1), t[i]);
                assert(b.skip(1)[0] == b[1]);
            }
        }
        lemma_ascending_cons(h, t);
        assert forall|k: u64| #[trigger] u.contains(k) <==> (a.contains(k) || b.contains(k)) by {
            lemma_contains_cons(h, t, k);
            lemma_contains_head(a, k);
            lemma_contains_head(b, k);
        }
    }
}

/// Intersection law: the intersection holds exactly the keys present in both
/// inputs, each once, in ascending order.
pub proof fn lemma_intersection_of_props(a: Seq<u64>, b: Seq<u64>)
    requires
        strictly_ascending(a),
        strictly_ascending(b),
    ensures
        strictly_ascending(intersection_of(a, b)),
        forall|k: u64| #[trigger] intersection_of(a, b).contains(k) <==> (a.contains(k)
            && b.contains(k)),
    decreases a.len() + b.len(),
{
    let u = intersection_of(a, b);
    if a.len() == 0 && b.len() == 0 {
        assert forall|k: u64| #[trigger] u.contains(k) <==> (a.contains(k) && b.contains(k)) by {}
    } else if b.len() == 0 || (a.len() > 0 && a[0] < b[0]) {
        lemma_ascending_tail(a);
        lemma_intersection_of_props(a.skip(1), b);
        assert forall|k: u64| #[trigger] u.contains(k) <==> (a.contains(k) && b.contains(k)) by {
            lemma_contains_head(a, k);
            if k == a[0] && b.contains(k) {
                lemma_ascending_head_min(b, k);
            }
        }
    } else if a.len() == 0 || b[0] < a[0] {
        lemma_ascending_tail(b);
        lemma_intersection_of_props(a, b.skip(1));
        assert forall|k: u64| #[trigger] u.contains(k) <==> (a.contains(k) && b.contains(k)) by {
            lemma_contains_head(b, k);
            if k == b[0] && a.contains(k) {
                lemma_ascending_head_min(a, k);
            }
        }
    } else {
        let h = a[0];
        let t = intersection_of(a.skip(1), b.skip(1));
        lemma_ascending_tail(a);
        lemma_ascending_tail(b);
        lemma_intersection_of_props(a.skip(1), b.skip(1));
        assert forall|i: int| 0 <= i < t.len() implies h < t[i] by {
            assert(t.contains(t[i]));
            lemma_ascending_head_min(a.skip(1), t[i]);
            assert(a.skip(1)[0] == a[1]);
        }
        lemma_ascending_cons(h, t);
        assert forall|k: u64| #[trigger] u.contains(k) <==> (a.contains(k) && b.contains(k)) by {
            lemma_contains_cons(h, t, k);
            lemma_contains_head(a, k);
            lemma_contains_head(b, k);
        }
    }
}

/// Difference law: the difference holds exactly the keys of the first input
/// absent from the second, in their original (ascending) order.
pub proof fn lemma_difference_of_props(a: Seq<u64>, b: Seq<u64>)
    requires
        strictly_ascending(a),
        strictly_ascending(b),
    ensures
        strictly_ascending(difference_of(a, b)),
        forall|k: u64| #[trigger] difference_of(a, b).contains(k) <==> (a.contains(k)
            && !b.contains(k)),
    decreases a.len() + b.len(),
{
    let u = difference_of(a, b);
    if a.len() == 0 && b.len() == 0 {
        assert forall|k: u64| #[trigger] u.contains(k) <==> (a.contains(k) && !b.contains(k)) by {}
    } else if b.len() == 0 || (a.len() > 0 && a[0] < b[0]) {
        let h = a[0];
        let t = difference_of(a.skip(1), b);
        lemma_ascending_tail(a);
        lemma_difference_of_props(a.skip(1), b);
        assert forall|i: int| 0 <= i < t.len() implies h < t[i] by {
            assert(t.contains(t[i]));
            lemma_ascending_head_min(a.skip(1), t[i]);
            assert(a.skip(1)[0] == a[1]);
        }
        lemma_ascending_cons(h, t);
        assert forall|k: u64| #[trigger] u.contains(k) <==> (a.contains(k) && !b.contains(k)) by {
            lemma_contains_cons(h, t, k);
            lemma_contains_head(a, k);
            if b.contains(a[0]) {
                lemma_ascending_head_min(b, a[0]);
            }
        }
    } else if a.len() == 0 || b[0] < a[0] {
        lemma_ascending_tail(b);
        lemma_difference_of_props(a, b.skip(1));
        assert forall|k: u64| #[trigger] u.contains(k) <==> (a.contains(k) && !b.contains(k)) by {
            lemma_contains_head(b, k);
            if k == b[0] && a.contains(k) {
                lemma_ascending_head_min(a, k);
            }
        }
    } else {
        lemma_ascending_tail(a);
        lemma_ascending_tail(b);
        lemma_difference_of_props(a.skip(1), b.skip(1));
        assert forall|k: u64| #[trigger] u.contains(k) <==> (a.contains(k) && !b.contains(k)) by {
            lemma_contains_head(a, k);
            lemma_contains_head(b, k);
            if k == a[0] && a.skip(1).contains(k) {
                lemma_ascending_head_min(a.skip(1), k);
            }
            if k == b[0] && b.skip(1).contains(k) {
                lemma_ascending_head_min(b.skip(1), k);
            }
        }
    }
}

/// Symmetric-difference law: the symmetric difference holds exactly the keys
/// present in exactly one of the inputs, each once, in ascending order.
pub proof fn lemma_symmetric_difference_of_props(a: Seq<u64>, b: Seq<u64>)
    requires
        strictly_ascending(a),
        strictly_ascending(b),
    ensures
        strictly_ascending(symmetric_difference_of(a, b)),
        forall|k: u64| #[trigger] symmetric_difference_of(a, b).contains(k) <==> (a.contains(k)
            != b.contains(k)),
    decreases a.len() + b.len(),
{
    let u = symmetric_difference_of(a, b);
    if a.len() == 0 && b.len() == 0 {
        assert forall|k: u64| #[trigger] u.contains(k) <==> (a.contains(k) != b.contains(k)) by {}
    } else if b.len() == 0 || (a.len() > 0 && a[0] < b[0]) {
        let h = a[0];
        let t = symmetric_difference_of(a.skip(1), b);
        lemma_ascending_tail(a);
        lemma_symmetric_difference_of_props(a.skip(1), b);
        assert forall|i: int| 0 <= i < t.len() implies h < t[i] by {
            assert(t.contains(t[i]));
            if a.skip(1).contains(t[i]) {
                lemma_ascending_head_min(a.skip(1), t[i]);
                assert(a.skip(1)[0] == a[1]);
            } else {
                lemma_ascending_head_min(b, t[i]);
            }
        }
        lemma_ascending_cons(h, t);
        assert forall|k: u64| #[trigger] u.contains(k) <==> (a.contains(k) != b.contains(k)) by {
            lemma_contains_cons(h, t, k);
            lemma_contains_head(a, k);
            if b.contains(a[0]) {
                lemma_ascending_head_min(b, a[0]);
            }
        }
    } else if a.len() == 0 || b[0] < a[0] {
        let h = b[0];
        let t = symmetric_difference_of(a, b.skip(1));
        lemma_ascending_tail(b);
        lemma_symmetric_difference_of_props(a, b.skip(1));
        assert forall|i: int| 0 <= i < t.len() implies h < t[i] by {
            assert(t.contains(t[i]));
            if b.skip(1).contains(t[i]) {
                lemma_ascending_head_min(b.skip(1), t[i]);
                assert(b.skip(1)[0] == b[1]);
            } else {
                lemma_ascending_head_min(a, t[i]);
            }
        }
        lemma_ascending_cons(h, t);
        assert forall|k: u64| #[trigger] u.contains(k) <==> (a.contains(k) != b.contains(k)) by {
            lemma_contains_cons(h, t, k);
            lemma_contains_head(b, k);
            if a.contains(b[0]) {
                lemma_ascending_head_min(a, b[0]);
            }
        }
    } else {
        lemma_ascending_tail(a);
        lemma_ascending_tail(b);
        lemma_symmetric_difference_of_props(a.skip(1), b.skip(1));
        assert forall|k: u64| #[trigger] u.contains(k) <==> (a.contains(k) != b.contains(k)) by {
            lemma_contains_head(a, k);
            lemma_contains_head(b, k);
            if k == a[0] && a.skip(1).contains(k) {
                lemma_ascending_head_min(a.skip(1), k);
            }
            if k == b[0] && b.skip(1).contains(k) {
                lemma_ascending_head_min(b.skip(1), k);
            }
        }
    }
}

/// Strict ascent of the raw values gives ascent of the first input under a
/// comparator whose first-input key is the value itself.
pub(crate) proof fn lemma_ascending_a_id<C: MergeCompare<u64, u64>>(c: &C, s: Seq<u64>)
    requires
        strictly_ascending(s),
        forall|x: u64| #[trigger] c.key_a(x) == x as int,
    ensures
        ascending_a(c, s),
{
    assert forall|i: int, j: int| 0 <= i < j < s.len() implies c.key_a(s[i]) < c.key_a(s[j]) by {
        assert(c.key_a(s[i]) == s[i] as int);
        assert(c.key_a(s[j]) == s[j] as int);
    }
}

/// Strict ascent of the raw values gives ascent of the second input under a
/// comparator whose second-input key is the value itself.
pub(crate) proof fn lemma_ascending_b_id<C: MergeCompare<u64, u64>>(c: &C, s: Seq<u64>)
    requires
        strictly_ascending(s),
        forall|y: u64| #[trigger] c.key_b(y) == y as int,
    ensures
        ascending_b(c, s),
{
    assert forall|i: int, j: int| 0 <= i < j < s.len() implies c.key_b(s[i]) < c.key_b(s[j]) by {
        assert(c.key_b(s[i]) == s[i] as int);
        assert(c.key_b(s[j]) == s[j] as int);
    }
}

/// The union of two ascending, duplicate-free key sequences, by binary merge.
pub fn merge_union(a: &[u64], b: &[u64]) -> (r: Vec<u64>)
    requires
        strictly_ascending(a@),
        strictly_ascending(b@),
    ensures
        r@ == union_of(a@, b@),
{
    let mut st = VecMergeState::new(a, b);
    proof {
        assert(forall|x: u64| #[trigger] (UnionOp).key_a(x) == x as int);
        assert(forall|y: u64| #[trigger] (UnionOp).key_b(y) == y as int);
        lemma_ascending_a_id(&UnionOp, a@);
        lemma_ascending_b_id(&UnionOp, b@);
    }
    merge(&UnionOp, &mut st);
    proof {
        lemma_union_merge(Seq::<u64>::empty(), a@, b@);
        assert(Seq::<u64>::empty() + union_of(a@, b@) =~= union_of(a@, b@));
    }
    st.into_vec()
}

/// The intersection of two ascending, duplicate-free key sequences.
pub fn merge_intersection(a: &[u64], b: &[u64]) -> (r: Vec<u64>)
    requires
        strictly_ascending(a@),
        strictly_ascending(b@),
    ensures
        r@ == intersection_of(a@, b@),
{
    let mut st = VecMergeState::new(a, b);
    proof {
        assert(forall|x: u64| #[trigger] (IntersectionOp).key_a(x) == x as int);
        assert(forall|y: u64| #[trigger] (IntersectionOp).key_b(y) == y as int);
        lemma_ascending_a_id(&IntersectionOp, a@);
        lemma_ascending_b_id(&IntersectionOp, b@);
    }
    merge(&IntersectionOp, &mut st);
    proof {
        lemma_intersection_merge(Seq::<u64>::empty(), a@, b@);
        assert(Seq::<u64>::empty() + intersection_of(a@, b@) =~= intersection_of(a@, b@));
    }
    st.into_vec()
}

/// The difference (first minus second) of two ascending, duplicate-free key
/// sequences.
pub fn merge_difference(a: &[u64], b: &[u64]) -> (r: Vec<u64>)
    requires
        strictly_ascending(a@),
        strictly_ascending(b@),
    ensures
        r@ == difference_of(a@, b@),
{
    let mut st = VecMergeState::new(a, b);
    proof {
        assert(forall|x: u64| #[trigger] (DifferenceOp).key_a(x) == x as int);
        assert(forall|y: u64| #[trigger] (DifferenceOp).key_b(y) == y as int);
        lemma_ascending_a_id(&DifferenceOp, a@);
        lemma_ascending_b_id(&DifferenceOp, b@);
    }
    merge(&DifferenceOp, &mut st);
    proof {
        lemma_difference_merge(Seq::<u64>::empty(), a@, b@);
        assert(Seq::<u64>::empty() + difference_of(a@, b@) =~= difference_of(a@, b@));
    }
    st.into_vec()
}

/// The symmetric difference of two ascending, duplicate-free key sequences.
pub fn merge_symmetric_difference(a: &[u64], b: &[u64]) -> (r: Vec<u64>)
    requires
        strictly_ascending(a@),
        strictly_ascending(b@),
    ensures
        r@ == symmetric_difference_of(a@, b@),
{
    let mut st = VecMergeState::new(a, b);
    proof {
        assert(forall|x: u64| #[trigger] (SymmetricDifferenceOp).key_a(x) == x as int);
        assert(forall|y: u64| #[trigger] (SymmetricDifferenceOp).key_b(y) == y as int);
        lemma_ascending_a_id(&SymmetricDifferenceOp, a@);
        lemma_ascending_b_id(&SymmetricDifferenceOp, b@);
    }
    merge(&SymmetricDifferenceOp, &mut st);
    proof {
        lemma_symmetric_difference_merge(Seq::<u64>::empty(), a@, b@);
        assert(Seq::<u64>::empty() + symmetric_difference_of(a@, b@) =~= symmetric_difference_of(
            a@,
            b@,
        ));
    }
    st.into_vec()
}

} // verus!
