//! Event-log policies: merge operations that record, per element, which
//! callback the engine fired.  They make the engine's callback protocol
//! itself a proved artifact — the order of callbacks, the collision per
//! shared key, and the short-circuit prefix property.

use vstd::prelude::*;
use vstd::slice::slice_index_get;
use vstd::slice::slice_subrange;
use core::cmp::Ordering;
use crate::binary_merge::MergeCompare;
use crate::binary_merge::MergeOperation;
use crate::binary_merge::MergeSpec;
use crate::binary_merge::MergeState;
use crate::binary_merge::ShortcutMergeOperation;
use crate::binary_merge::ShortcutMergeSpec;
use crate::binary_merge::EarlyOut;
use crate::binary_merge::fold_a;
use crate::binary_merge::fold_b;
use crate::binary_merge::key_order;
use crate::binary_merge::merge;
use crate::binary_merge::merge_shortcut;
use crate::binary_merge::run_a;
use crate::binary_merge::run_b;
use crate::binary_merge::sc_merge;
use crate::binary_merge::spec_merge;
use crate::set_ops::intersection_of;
use crate::set_ops::lemma_ascending_a_id;
use crate::set_ops::lemma_ascending_b_id;
use crate::set_ops::strictly_ascending;

verus! {

/// One recorded element: which callback reported it, with its key.  A
/// `from_a(n)` or `from_b(n)` call records its `n` elements one by one.
#[derive(Clone, Copy, PartialEq, Eq, Structural, Debug)]
pub enum MergeEvent {
    FromA(u64),
    FromB(u64),
    Collision(u64),
}

/// One recorded callback invocation, with the requested run length.
#[derive(Clone, Copy, PartialEq, Eq, Structural, Debug)]
pub enum MergeCall {
    FromA(usize),
    FromB(usize),
    Collision,
}

/// Each element of `xs` as a first-input event.
pub open spec fn events_a(xs: Seq<u64>) -> Seq<MergeEvent> {
    xs.map_values(|x: u64| MergeEvent::FromA(x))
}

/// Each element of `ys` as a second-input event.
pub open spec fn events_b(ys: Seq<u64>) -> Seq<MergeEvent> {
    ys.map_values(|y: u64| MergeEvent::FromB(y))
}

/// Each element of `xs` as a collision event.
pub open spec fn all_collisions(xs: Seq<u64>) -> Seq<MergeEvent> {
    xs.map_values(|x: u64| MergeEvent::Collision(x))
}

/// The callback protocol of a merge, per element and in order: the linear
/// walk of the two inputs, recording for each key which callback fires.
pub open spec fn trace(a: Seq<u64>, b: Seq<u64>) -> Seq<MergeEvent>
    decreases a.len() + b.len(),
{
    if a.len() == 0 && b.len() == 0 {
        Seq::empty()
    } else if b.len() == 0 || (a.len() > 0 && a[0] < b[0]) {
        seq![MergeEvent::FromA(a[0])] + trace(a.skip(1), b)
    } else if a.len() == 0 || b[0] < a[0] {
        seq![MergeEvent::FromB(b[0])] + trace(a, b.skip(1))
    } else {
        seq![MergeEvent::Collision(a[0])] + trace(a.skip(1), b.skip(1))
    }
}

/// The keys of the collision events of `t`, in order.
pub open spec fn collision_keys(t: Seq<MergeEvent>) -> Seq<u64>
    decreases t.len(),
{
    if t.len() == 0 {
        Seq::empty()
    } else {
        match t[0] {
            MergeEvent::Collision(k) => seq![k] + collision_keys(t.skip(1)),
            _ => collision_keys(t.skip(1)),
        }
    }
}

/// The prefix of `t` a first-collision abort delivers: everything up to and
/// including the first collision event, and whether no collision occurred.
pub open spec fn stops_at_first_collision(t: Seq<MergeEvent>) -> (Seq<MergeEvent>, bool)
    decreases t.len(),
{
    if t.len() == 0 {
        (Seq::empty(), true)
    } else if t[0] is Collision {
        (seq![t[0]], false)
    } else {
        let r = stops_at_first_collision(t.skip(1));
        (seq![t[0]] + r.0, r.1)
    }
}

/// A merge state over two borrowed `u64` slices, recording the per-element
/// events and the raw callback invocations.
pub struct LogState<'a> {
    a: &'a [u64],
    b: &'a [u64],
    events: Vec<MergeEvent>,
    calls: Vec<MergeCall>,
}

impl<'a> LogState<'a> {
    pub fn new(a: &'a [u64], b: &'a [u64]) -> (s: Self)
        ensures
            s.a() == a@,
            s.b() == b@,
            s.acc() == Seq::<MergeEvent>::empty(),
    {
        LogState { a, b, events: Vec::new(), calls: Vec::new() }
    }

    /// The recorded events and callback invocations.
    pub fn into_parts(self) -> (r: (Vec<MergeEvent>, Vec<MergeCall>))
        ensures
            r.0@ == self.acc(),
    {
        (self.events, self.calls)
    }

    /// Record the first `n` remaining first-input elements as events.
    fn log_a(&mut self, n: usize)
        requires
            n <= old(self).a().len(),
        ensures
            final(self).a() == old(self).a(),
            final(self).b() == old(self).b(),
            final(self).acc() == old(self).acc() + events_a(old(self).a().take(n as int)),
    {
        proof {
            assert(self.events@ + events_a(self.a@.take(0)) =~= self.events@);
        }
        let mut i: usize = 0;
        while i < n
            invariant
                i <= n,
                n <= self.a@.len(),
                self.a@ == old(self).a@,
                self.b@ == old(self).b@,
                self.calls@ == old(self).calls@,
                self.events@ == old(self).events@ + events_a(self.a@.take(i as int)),
            decreases n - i,
        {
            let x: u64 = *slice_index_get(self.a, i);
            self.events.push(MergeEvent::FromA(x));
            proof {
                assert(self.events@ =~= old(self).events@ + events_a(self.a@.take(i as int + 1)));
            }
            i = i + 1;
        }
    }

    /// Record the first `n` remaining second-input elements as events.
    fn log_b(&mut self, n: usize)
        requires
            n <= old(self).b().len(),
        ensures
            final(self).a() == old(self).a(),
            final(self).b() == old(self).b(),
            final(self).acc() == old(self).acc() + events_b(old(self).b().take(n as int)),
    {
        proof {
            assert(self.events@ + events_b(self.b@.take(0)) =~= self.events@);
        }
        let mut i: usize = 0;
        while i < n
            invariant
                i <= n,
                n <= self.b@.len(),
                self.a@ == old(self).a@,
                self.b@ == old(self).b@,
                self.calls@ == old(self).calls@,
                self.events@ == old(self).events@ + events_b(self.b@.take(i as int)),
            decreases n - i,
        {
            let y: u64 = *slice_index_get(self.b, i);
            self.events.push(MergeEvent::FromB(y));
            proof {
                assert(self.events@ =~= old(self).events@ + events_b(self.b@.take(i as int + 1)));
            }
            i = i + 1;
        }
    }
}

impl<'a> MergeState<u64, u64, Seq<MergeEvent>> for LogState<'a> {
    closed spec fn a(&self) -> Seq<u64> {
        self.a@
    }

    closed spec fn b(&self) -> Seq<u64> {
        self.b@
    }

    closed spec fn acc(&self) -> Seq<MergeEvent> {
        self.events@
    }

    fn a_len(&self) -> usize {
        self.a.len()
    }

    fn b_len(&self) -> usize {
        self.b.len()
    }

    fn a_at(&self, i: usize) -> &u64 {
        slice_index_get(self.a, i)
    }

    fn b_at(&self, i: usize) -> &u64 {
        slice_index_get(self.b, i)
    }

    fn advance_a(&mut self, n: usize) {
        self.a = slice_subrange(self.a, n, self.a.len());
        proof {
            assert(self.a@ =~= old(self).a@.skip(n as int));
        }
    }

    fn advance_b(&mut self, n: usize) {
        self.b = slice_subrange(self.b, n, self.b.len());
        proof {
            assert(self.b@ =~= old(self).b@.skip(n as int));
        }
    }
}

/// Full policy that records every callback.
pub struct LogOp;

impl MergeCompare<u64, u64> for LogOp {
    open spec fn key_a(&self, x: u64) -> int {
        x as int
    }

    open spec fn key_b(&self, y: u64) -> int {
        y as int
    }

    fn cmp(&self, x: &u64, y: &u64) -> (r: Ordering) {
        if *x < *y {
            Ordering::Less
        } else if *x == *y {
            Ordering::Equal
        } else {
            Ordering::Greater
        }
    }
}

impl MergeSpec<u64, u64, Seq<MergeEvent>> for LogOp {
    open spec fn on_a(&self, acc: Seq<MergeEvent>, x: u64) -> Seq<MergeEvent> {
        acc.push(MergeEvent::FromA(x))
    }

    open spec fn on_b(&self, acc: Seq<MergeEvent>, y: u64) -> Seq<MergeEvent> {
        acc.push(MergeEvent::FromB(y))
    }

    open spec fn on_both(&self, acc: Seq<MergeEvent>, x: u64, y: u64) -> Seq<MergeEvent> {
        acc.push(MergeEvent::Collision(x))
    }
}

/// `fold_a` of the log policy appends the first-input events.
proof fn lemma_log_fold_a(acc: Seq<MergeEvent>, xs: Seq<u64>)
    ensures
        fold_a(&LogOp, acc, xs) == acc + events_a(xs),
    decreases xs.len(),
{
    if xs.len() == 0 {
        assert(acc + events_a(xs) =~= acc);
    } else {
        lemma_log_fold_a(acc.push(MergeEvent::FromA(xs[0])), xs.skip(1));
        assert(events_a(xs.skip(1)) =~= events_a(xs).skip(1));
        assert(acc.push(MergeEvent::FromA(xs[0])) + events_a(xs).skip(1) =~= acc + events_a(xs));
    }
}

/// `fold_b` of the log policy appends the second-input events.
proof fn lemma_log_fold_b(acc: Seq<MergeEvent>, ys: Seq<u64>)
    ensures
        fold_b(&LogOp, acc, ys) == acc + events_b(ys),
    decreases ys.len(),
{
    if ys.len() == 0 {
        assert(acc + events_b(ys) =~= acc);
    } else {
        lemma_log_fold_b(acc.push(MergeEvent::FromB(ys[0])), ys.skip(1));
        assert(events_b(ys.skip(1)) =~= events_b(ys).skip(1));
        assert(acc.push(MergeEvent::FromB(ys[0])) + events_b(ys).skip(1) =~= acc + events_b(ys));
    }
}

impl<'a> MergeOperation<u64, u64, Seq<MergeEvent>, LogState<'a>> for LogOp {
    fn from_a(&self, m: &mut LogState<'a>, n: usize) {
        m.calls.push(MergeCall::FromA(n));
        m.log_a(n);
        proof {
            lemma_log_fold_a(old(m).acc(), old(m).a().take(n as int));
        }
    }

    fn from_b(&self, m: &mut LogState<'a>, n: usize) {
        m.calls.push(MergeCall::FromB(n));
        m.log_b(n);
        proof {
            lemma_log_fold_b(old(m).acc(), old(m).b().take(n as int));
        }
    }

    fn collision(&self, m: &mut LogState<'a>) {
        m.calls.push(MergeCall::Collision);
        let x: u64 = *slice_index_get(m.a, 0);
        m.events.push(MergeEvent::Collision(x));
    }
}

/// Short-circuit policy that records every callback and aborts at the first
/// collision — the shape of a disjointness test.
pub struct AbortOnCollision;

impl MergeCompare<u64, u64> for AbortOnCollision {
    open spec fn key_a(&self, x: u64) -> int {
        x as int
    }

    open spec fn key_b(&self, y: u64) -> int {
        y as int
    }

    fn cmp(&self, x: &u64, y: &u64) -> (r: Ordering) {
        if *x < *y {
            Ordering::Less
        } else if *x == *y {
            Ordering::Equal
        } else {
            Ordering::Greater
        }
    }
}

impl ShortcutMergeSpec<u64, u64, Seq<MergeEvent>> for AbortOnCollision {
    open spec fn on_a(&self, acc: Seq<MergeEvent>, x: u64) -> Seq<MergeEvent> {
        acc.push(MergeEvent::FromA(x))
    }

    open spec fn on_b(&self, acc: Seq<MergeEvent>, y: u64) -> Seq<MergeEvent> {
        acc.push(MergeEvent::FromB(y))
    }

    open spec fn on_both(&self, acc: Seq<MergeEvent>, x: u64, y: u64) -> Seq<MergeEvent> {
        acc.push(MergeEvent::Collision(x))
    }

    open spec fn keep_a(&self, acc: Seq<MergeEvent>, x: u64) -> bool {
        true
    }

    open spec fn keep_b(&self, acc: Seq<MergeEvent>, y: u64) -> bool {
        true
    }

    open spec fn keep_both(&self, acc: Seq<MergeEvent>, x: u64, y: u64) -> bool {
        false
    }
}

/// A first-input run of the abort-on-collision policy never aborts and
/// appends the events.
proof fn lemma_abort_run_a(acc: Seq<MergeEvent>, xs: Seq<u64>)
    ensures
        run_a(&AbortOnCollision, acc, xs) == (acc + events_a(xs), true),
    decreases xs.len(),
{
    if xs.len() == 0 {
        assert(acc + events_a(xs) =~= acc);
    } else {
        lemma_abort_run_a(acc.push(MergeEvent::FromA(xs[0])), xs.skip(1));
        assert(events_a(xs.skip(1)) =~= events_a(xs).skip(1));
        assert(acc.push(MergeEvent::FromA(xs[0])) + events_a(xs).skip(1) =~= acc + events_a(xs));
    }
}

/// A second-input run of the abort-on-collision policy never aborts and
/// appends the events.
proof fn lemma_abort_run_b(acc: Seq<MergeEvent>, ys: Seq<u64>)
    ensures
        run_b(&AbortOnCollision, acc, ys) == (acc + events_b(ys), true),
    decreases ys.len(),
{
    if ys.len() == 0 {
        assert(acc + events_b(ys) =~= acc);
    } else {
        lemma_abort_run_b(acc.push(MergeEvent::FromB(ys[0])), ys.skip(1));
        assert(events_b(ys.skip(1)) =~= events_b(ys).skip(1));
        assert(acc.push(MergeEvent::FromB(ys[0])) + events_b(ys).skip(1) =~= acc + events_b(ys));
    }
}

impl<'a> ShortcutMergeOperation<u64, u64, Seq<MergeEvent>, LogState<'a>> for AbortOnCollision {
    fn from_a(&self, m: &mut LogState<'a>, n: usize) -> (r: EarlyOut) {
        m.calls.push(MergeCall::FromA(n));
        m.log_a(n);
        proof {
            lemma_abort_run_a(old(m).acc(), old(m).a().take(n as int));
        }
        Some(())
    }

    fn from_b(&self, m: &mut LogState<'a>, n: usize) -> (r: EarlyOut) {
        m.calls.push(MergeCall::FromB(n));
        m.log_b(n);
        proof {
            lemma_abort_run_b(old(m).acc(), old(m).b().take(n as int));
        }
        Some(())
    }

    fn collision(&self, m: &mut LogState<'a>) -> (r: EarlyOut) {
        m.calls.push(MergeCall::Collision);
        let x: u64 = *slice_index_get(m.a, 0);
        m.events.push(MergeEvent::Collision(x));
        None
    }
}

/// The full log policy computes exactly the callback trace.
pub proof fn lemma_log_merge(acc: Seq<MergeEvent>, a: Seq<u64>, b: Seq<u64>)
    ensures
        spec_merge(&LogOp, acc, a, b) == acc + trace(a, b),
    decreases a.len() + b.len(),
{
    if a.len() == 0 && b.len() == 0 {
        assert(acc + trace(a, b) =~= acc);
    } else if b.len() == 0 || (a.len() > 0 && a[0] < b[0]) {
        lemma_log_merge(acc.push(MergeEvent::FromA(a[0])), a.skip(1), b);
        assert(acc.push(MergeEvent::FromA(a[0])) + trace(a.skip(1), b) =~= acc + trace(a, b));
    } else if a.len() == 0 || b[0] < a[0] {
        lemma_log_merge(acc.push(MergeEvent::FromB(b[0])), a, b.skip(1));
        assert(acc.push(MergeEvent::FromB(b[0])) + trace(a, b.skip(1)) =~= acc + trace(a, b));
    } else {
        lemma_log_merge(acc.push(MergeEvent::Collision(a[0])), a.skip(1), b.skip(1));
        assert(acc.push(MergeEvent::Collision(a[0])) + trace(a.skip(1), b.skip(1)) =~= acc + trace(
            a,
            b,
        ));
    }
}

/// The collision events of the trace are exactly the intersection keys: the
/// engine fires `collision` once per key present in both inputs, in order,
/// and for no other key.
pub proof fn lemma_trace_collision_keys(a: Seq<u64>, b: Seq<u64>)
    ensures
        collision_keys(trace(a, b)) == intersection_of(a, b),
    decreases a.len() + b.len(),
{
    if a.len() == 0 && b.len() == 0 {
    } else if b.len() == 0 || (a.len() > 0 && a[0] < b[0]) {
        lemma_trace_collision_keys(a.skip(1), b);
        let s = trace(a, b);
        assert(s[0] == MergeEvent::FromA(a[0]));
        assert(s.skip(1) =~= trace(a.skip(1), b));
    } else if a.len() == 0 || b[0] < a[0] {
        lemma_trace_collision_keys(a, b.skip(1));
        let s = trace(a, b);
        assert(s[0] == MergeEvent::FromB(b[0]));
        assert(s.skip(1) =~= trace(a, b.skip(1)));
    } else {
        lemma_trace_collision_keys(a.skip(1), b.skip(1));
        let s = trace(a, b);
        assert(s[0] == MergeEvent::Collision(a[0]));
        assert(s.skip(1) =~= trace(a.skip(1), b.skip(1)));
    }
}

/// Idempotence law: merging an ascending sequence against itself fires
/// `collision` once per element, in order, and never `from_a` or `from_b` —
/// the trace holds one collision event per element and nothing else.
pub proof fn lemma_self_merge_all_collisions(a: Seq<u64>)
    requires
        strictly_ascending(a),
    ensures
        trace(a, a) == all_collisions(a),
    decreases a.len(),
{
    if a.len() == 0 {
        assert(trace(a, a) =~= all_collisions(a));
    } else {
        lemma_self_merge_all_collisions(a.skip(1));
        assert(trace(a, a) == seq![MergeEvent::Collision(a[0])] + trace(a.skip(1), a.skip(1)));
        assert(seq![MergeEvent::Collision(a[0])] + all_collisions(a.skip(1)) =~= all_collisions(
            a,
        ));
    }
}

/// Short-circuit law: a policy that aborts on the first collision delivers
/// exactly the full engine's trace up to and including that collision, and
/// nothing after it; it completes exactly when no collision exists.
pub proof fn lemma_shortcut_stops_at_first_collision(acc: Seq<MergeEvent>, a: Seq<u64>, b: Seq<
    u64,
>)
    ensures
        ({
            let p = stops_at_first_collision(trace(a, b));
            sc_merge(&AbortOnCollision, acc, a, b) == (acc + p.0, p.1)
        }),
    decreases a.len() + b.len(),
{
    let op = &AbortOnCollision;
    if a.len() == 0 && b.len() == 0 {
        assert(acc + stops_at_first_collision(trace(a, b)).0 =~= acc);
    } else if b.len() == 0 || (a.len() > 0 && a[0] < b[0]) {
        lemma_shortcut_stops_at_first_collision(acc.push(MergeEvent::FromA(a[0])), a.skip(1), b);
        let s = trace(a, b);
        assert(s[0] == MergeEvent::FromA(a[0]));
        assert(s.skip(1) =~= trace(a.skip(1), b));
        let p = stops_at_first_collision(s.skip(1));
        assert(acc.push(MergeEvent::FromA(a[0])) + p.0 =~= acc + (seq![s[0]] + p.0));
    } else if a.len() == 0 || b[0] < a[0] {
        lemma_shortcut_stops_at_first_collision(acc.push(MergeEvent::FromB(b[0])), a, b.skip(1));
        let s = trace(a, b);
        assert(s[0] == MergeEvent::FromB(b[0]));
        assert(s.skip(1) =~= trace(a, b.skip(1)));
        let p = stops_at_first_collision(s.skip(1));
        assert(acc.push(MergeEvent::FromB(b[0])) + p.0 =~= acc + (seq![s[0]] + p.0));
    } else {
        let s = trace(a, b);
        assert(s[0] == MergeEvent::Collision(a[0]));
        assert(acc.push(MergeEvent::Collision(a[0])) =~= acc + seq![s[0]]);
    }
}

/// Run the full merge with the log policy: the recorded events are exactly
/// the trace; the raw invocation list comes alongside, unconstrained.
pub fn log_merge(a: &[u64], b: &[u64]) -> (r: (Vec<MergeEvent>, Vec<MergeCall>))
    requires
        strictly_ascending(a@),
        strictly_ascending(b@),
    ensures
        r.0@ == trace(a@, b@),
{
    let mut st = LogState::new(a, b);
    proof {
        assert(forall|x: u64| #[trigger] (LogOp).key_a(x) == x as int);
        assert(forall|y: u64| #[trigger] (LogOp).key_b(y) == y as int);
        lemma_ascending_a_id(&LogOp, a@);
        lemma_ascending_b_id(&LogOp, b@);
    }
    merge(&LogOp, &mut st);
    proof {
        lemma_log_merge(Seq::<MergeEvent>::empty(), a@, b@);
        assert(Seq::<MergeEvent>::empty() + trace(a@, b@) =~= trace(a@, b@));
    }
    st.into_parts()
}

/// Run the short-circuit merge with the abort-on-collision policy: the
/// recorded events are exactly the trace prefix up to and including the
/// first collision.
pub fn shortcut_log_merge(a: &[u64], b: &[u64]) -> (r: (Vec<MergeEvent>, Vec<MergeCall>))
    requires
        strictly_ascending(a@),
        strictly_ascending(b@),
    ensures
        r.0@ == stops_at_first_collision(trace(a@, b@)).0,
{
    let mut st = LogState::new(a, b);
    proof {
        assert(forall|x: u64| #[trigger] (AbortOnCollision).key_a(x) == x as int);
        assert(forall|y: u64| #[trigger] (AbortOnCollision).key_b(y) == y as int);
        lemma_ascending_a_id(&AbortOnCollision, a@);
        lemma_ascending_b_id(&AbortOnCollision, b@);
    }
    merge_shortcut(&AbortOnCollision, &mut st);
    proof {
        lemma_shortcut_stops_at_first_collision(Seq::<MergeEvent>::empty(), a@, b@);
        assert(Seq::<MergeEvent>::empty() + stops_at_first_collision(trace(a@, b@)).0
            =~= stops_at_first_collision(trace(a@, b@)).0);
    }
    st.into_parts()
}

} // verus!
