//! Signals that tell work to stop.
//!
//! A signal can have parents: canceling a parent cancels the signal as well, with
//! the same reason. Everything that should be told about a cancellation is stored
//! in slots of the signal and told once.
use vstd::prelude::*;

verus! {

/// What is told that a signal was canceled.
#[derive(Debug, Clone, Copy, PartialEq, Eq, Structural)]
pub enum CancelWaker {
    /// A task or a callback, known by a number.
    Task(u64),
    /// A child signal that is canceled as well.
    Child(usize),
}

/// The state of one signal.
#[verifier::ext_equal]
pub struct SignalView {
    pub canceled: bool,
    /// Why the signal was canceled, empty if that was not said.
    pub reason: Seq<char>,
    pub wakers: Seq<Option<CancelWaker>>,
    /// The parents of the signal and the slots there that hold this signal.
    pub parents: Seq<(int, int)>,
}

impl SignalView {
    pub open spec fn fresh() -> SignalView {
        SignalView { canceled: false, reason: seq![], wakers: seq![], parents: seq![] }
    }

    pub open spec fn stopped(reason: Seq<char>) -> SignalView {
        SignalView { canceled: true, reason, wakers: seq![], parents: seq![] }
    }
}

/// The number of signals that are not canceled.
pub open spec fn running(signals: Seq<SignalView>) -> nat
    decreases signals.len(),
{
    if signals.len() == 0 {
        0
    } else {
        running(signals.drop_last()) + if signals.last().canceled {
            0nat
        } else {
            1nat
        }
    }
}

/// The signals after one slot was emptied. Canceled signals have no slots.
pub open spec fn released(signals: Seq<SignalView>, signal: int, slot: int) -> Seq<SignalView> {
    if 0 <= signal < signals.len() && !signals[signal].canceled && 0 <= slot
        < signals[signal].wakers.len() {
        let old = signals[signal];
        signals.update(signal, SignalView { wakers: old.wakers.update(slot, None), ..old })
    } else {
        signals
    }
}

pub open spec fn all_released(signals: Seq<SignalView>, handles: Seq<(int, int)>) -> Seq<SignalView>
    decreases handles.len(),
{
    if handles.len() == 0 {
        signals
    } else {
        let last = handles.last();
        released(all_released(signals, handles.drop_last()), last.0, last.1)
    }
}

/// The signals after one of them was canceled, before anything was told about it.
pub open spec fn stopped(signals: Seq<SignalView>, signal: int, reason: Seq<char>) -> Seq<
    SignalView,
> {
    all_released(
        signals.update(signal, SignalView::stopped(reason)),
        signals[signal].parents,
    )
}

/// Tells wakers about a cancellation, one after the other, the ones of a child
/// signal before the ones that follow that child. Gives the signals afterwards and
/// the numbers of the tasks in the order in which they were told.
pub open spec fn told(
    signals: Seq<SignalView>,
    wakers: Seq<Option<CancelWaker>>,
    reason: Seq<char>,
) -> (Seq<SignalView>, Seq<u64>)
    decreases running(signals), wakers.len(),
{
    if wakers.len() == 0 {
        (signals, seq![])
    } else {
        let rest = wakers.skip(1);
        match wakers[0] {
            None => told(signals, rest, reason),
            Some(CancelWaker::Task(task)) => {
                let after = told(signals, rest, reason);
                (after.0, seq![task] + after.1)
            },
            Some(CancelWaker::Child(child)) => if child < signals.len()
                && !signals[child as int].canceled {
                proof {
                    lemma_stopped_running(signals, child as int, reason);
                }
                told(
                    stopped(signals, child as int, reason),
                    signals[child as int].wakers + rest,
                    reason,
                )
            } else {
                told(signals, rest, reason)
            },
        }
    }
}

/// What canceling a signal does. The first cancellation decides the reason, later
/// ones do nothing.
pub open spec fn canceled(signals: Seq<SignalView>, signal: int, reason: Seq<char>) -> (
    Seq<SignalView>,
    Seq<u64>,
) {
    if signals[signal].canceled {
        (signals, seq![])
    } else {
        told(stopped(signals, signal, reason), signals[signal].wakers, reason)
    }
}

proof fn lemma_update_running(signals: Seq<SignalView>, i: int, signal: SignalView)
    requires
        0 <= i < signals.len(),
    ensures
        running(signals.update(i, signal)) == running(signals) + (if signal.canceled {
            0int
        } else {
            1int
        }) - (if signals[i].canceled {
            0int
        } else {
            1int
        }),
    decreases signals.len(),
{
    let after = signals.update(i, signal);
    if i == signals.len() - 1 {
        assert(after.drop_last() == signals.drop_last());
    } else {
        lemma_update_running(signals.drop_last(), i, signal);
        assert(after.drop_last() == signals.drop_last().update(i, signal));
        assert(after.last() == signals.last());
    }
}

/// Emptying slots changes nothing but these slots.
proof fn lemma_all_released(signals: Seq<SignalView>, handles: Seq<(int, int)>)
    ensures
        ({
            let after = all_released(signals, handles);
            &&& after.len() == signals.len()
            &&& running(after) == running(signals)
            &&& forall|i: int|
                0 <= i < signals.len() ==> {
                    &&& (#[trigger] after[i]).canceled == signals[i].canceled
                    &&& after[i].reason == signals[i].reason
                    &&& after[i].parents == signals[i].parents
                    &&& after[i].wakers.len() == signals[i].wakers.len()
                }
            &&& forall|i: int, k: int|
                #![trigger after[i].wakers[k]]
                0 <= i < signals.len() && 0 <= k < signals[i].wakers.len() ==> after[i].wakers[k]
                    == if !signals[i].canceled && handles.contains((i, k)) {
                    None
                } else {
                    signals[i].wakers[k]
                }
        }),
    decreases handles.len(),
{
    if handles.len() > 0 {
        let rest = handles.drop_last();
        let last = handles.last();
        lemma_all_released(signals, rest);
        let before = all_released(signals, rest);
        let after = all_released(signals, handles);
        if 0 <= last.0 < before.len() && !before[last.0].canceled && 0 <= last.1
            < before[last.0].wakers.len() {
            lemma_update_running(before, last.0, after[last.0]);
        }
        assert forall|i: int, k: int|
            #![trigger after[i].wakers[k]]
            0 <= i < signals.len() && 0 <= k < signals[i].wakers.len() implies after[i].wakers[k]
            == if !signals[i].canceled && handles.contains((i, k)) {
            None
        } else {
            signals[i].wakers[k]
        } by {
            let old = before[i].wakers[k];
            assert(handles.contains((i, k)) <==> rest.contains((i, k)) || last == (i, k)) by {
                if rest.contains((i, k)) {
                    let j = choose|j: int| 0 <= j < rest.len() && rest[j] == (i, k);
                    assert(handles[j] == (i, k));
                }
                if handles.contains((i, k)) && last != (i, k) {
                    let j = choose|j: int| 0 <= j < handles.len() && handles[j] == (i, k);
                    assert(rest[j] == (i, k));
                }
            }
        }
    }
}

pub proof fn lemma_stopped_running(signals: Seq<SignalView>, signal: int, reason: Seq<char>)
    requires
        0 <= signal < signals.len(),
        !signals[signal].canceled,
    ensures
        running(stopped(signals, signal, reason)) < running(signals),
{
    let first = signals.update(signal, SignalView::stopped(reason));
    lemma_update_running(signals, signal, SignalView::stopped(reason));
    lemma_all_released(first, signals[signal].parents);
}

/// A signal while some wakers have not been told yet.
pub open spec fn signal_ok(
    signals: Seq<SignalView>,
    i: int,
    pending: Seq<Option<CancelWaker>>,
) -> bool {
    let s = signals[i];
    if s.canceled {
        s.wakers.len() == 0 && s.parents.len() == 0
    } else {
        &&& s.reason.len() == 0
        &&& forall|k: int|
            0 <= k < s.parents.len() ==> {
                let p = (#[trigger] s.parents[k]).0;
                let slot = s.parents[k].1;
                &&& 0 <= p < signals.len()
                &&& if signals[p].canceled {
                    pending.contains(Some(CancelWaker::Child(i as usize)))
                } else {
                    &&& 0 <= slot < signals[p].wakers.len()
                    &&& signals[p].wakers[slot] == Some(CancelWaker::Child(i as usize))
                }
            }
        &&& forall|k: int|
            0 <= k < s.wakers.len() ==> (#[trigger] s.wakers[k] matches Some(
                CancelWaker::Child(child),
            ) ==> {
                &&& child < signals.len()
                &&& !signals[child as int].canceled
                &&& signals[child as int].parents.contains((i, k))
            })
        &&& forall|j: int, k: int|
            #![trigger s.parents[j], s.parents[k]]
            0 <= j < k < s.parents.len() ==> s.parents[j].0 != s.parents[k].0
    }
}

pub open spec fn all_ok(signals: Seq<SignalView>, pending: Seq<Option<CancelWaker>>) -> bool {
    &&& signals.len() <= usize::MAX
    &&& forall|i: int| 0 <= i < signals.len() ==> #[trigger] signal_ok(signals, i, pending)
    &&& forall|k: int|
        0 <= k < pending.len() ==> (#[trigger] pending[k] matches Some(CancelWaker::Child(child))
            ==> child < signals.len())
}

/// Whether each signal that is not canceled is known to all its parents, and none
/// of these is canceled.
pub open spec fn signals_ok(signals: Seq<SignalView>) -> bool {
    all_ok(signals, seq![])
}

/// Canceling one signal leaves everything in order but that its wakers have not
/// been told.
proof fn lemma_stopped_ok(
    signals: Seq<SignalView>,
    signal: int,
    reason: Seq<char>,
    pending: Seq<Option<CancelWaker>>,
    next: Seq<Option<CancelWaker>>,
)
    requires
        all_ok(signals, pending),
        0 <= signal < signals.len(),
        !signals[signal].canceled,
        forall|w: Option<CancelWaker>| #[trigger]
            next.contains(w) <== (pending.contains(w) && w != Some(
                CancelWaker::Child(signal as usize),
            )) || signals[signal].wakers.contains(w),
        forall|k: int|
            0 <= k < next.len() ==> (#[trigger] next[k] matches Some(CancelWaker::Child(child))
                ==> child < signals.len()),
    ensures
        all_ok(stopped(signals, signal, reason), next),
{
    let own = signals[signal];
    let first = signals.update(signal, SignalView::stopped(reason));
    let after = stopped(signals, signal, reason);
    lemma_all_released(first, own.parents);
    assert(signal_ok(signals, signal, pending));
    assert forall|i: int| 0 <= i < after.len() implies #[trigger] signal_ok(after, i, next) by {
        let s = signals[i];
        let now = after[i];
        assert(now.canceled == first[i].canceled);
        assert(signal_ok(signals, i, pending));
        if !now.canceled {
            assert(i != signal);
            assert forall|k: int| 0 <= k < now.parents.len() implies {
                let p = (#[trigger] now.parents[k]).0;
                let slot = now.parents[k].1;
                &&& 0 <= p < after.len()
                &&& if after[p].canceled {
                    next.contains(Some(CancelWaker::Child(i as usize)))
                } else {
                    &&& 0 <= slot < after[p].wakers.len()
                    &&& after[p].wakers[slot] == Some(CancelWaker::Child(i as usize))
                }
            } by {
                assert(s.parents[k] == now.parents[k]);
                let p = s.parents[k].0;
                let slot = s.parents[k].1;
                assert(after[p].canceled == first[p].canceled);
                if p == signal {
                    assert(own.wakers[slot] == Some(CancelWaker::Child(i as usize)));
                    assert(own.wakers.contains(Some(CancelWaker::Child(i as usize))));
                    assert(next.contains(Some(CancelWaker::Child(i as usize))));
                } else if signals[p].canceled {
                    assert(next.contains(Some(CancelWaker::Child(i as usize))));
                } else {
                    assert(signals[p].wakers[slot] == Some(CancelWaker::Child(i as usize)));
                    assert(first[p] == signals[p]);
                    if own.parents.contains((p, slot)) {
                        let j = choose|j: int|
                            0 <= j < own.parents.len() && own.parents[j] == (p, slot);
                        assert(own.parents[j].0 == p);
                        assert(signals[p].wakers[slot] == Some(
                            CancelWaker::Child(signal as usize),
                        ));
                        assert(false);
                    }
                    assert(after[p].wakers[slot] == signals[p].wakers[slot]);
                }
            }
            assert forall|k: int| 0 <= k < now.wakers.len() implies (
            #[trigger] now.wakers[k] matches Some(CancelWaker::Child(child)) ==> {
                &&& child < after.len()
                &&& !after[child as int].canceled
                &&& after[child as int].parents.contains((i, k))
            }) by {
                assert(first[i] == s);
                if let Some(CancelWaker::Child(child)) = now.wakers[k] {
                    assert(after[i].wakers[k] == s.wakers[k]);
                    assert(s.wakers[k] == Some(CancelWaker::Child(child)));
                    if child == signal {
                        assert(own.parents.contains((i, k)));
                        assert(after[i].wakers[k] is None);
                    } else {
                        assert(first[child as int] == signals[child as int]);
                        assert(after[child as int].parents == signals[child as int].parents);
                    }
                }
            }
        }
    }
}

/// After one waker was told the others can be told.
proof fn lemma_next_ok(
    signals: Seq<SignalView>,
    wakers: Seq<Option<CancelWaker>>,
    reason: Seq<char>,
)
    requires
        all_ok(signals, wakers),
        wakers.len() > 0,
    ensures
        match wakers[0] {
            Some(CancelWaker::Child(child)) if !signals[child as int].canceled => all_ok(
                stopped(signals, child as int, reason),
                signals[child as int].wakers + wakers.skip(1),
            ),
            _ => all_ok(signals, wakers.skip(1)),
        },
{
    let rest = wakers.skip(1);
    let done = match wakers[0] {
        Some(CancelWaker::Child(child)) => signals[child as int].canceled,
        _ => true,
    };
    if done {
        assert forall|i: int| 0 <= i < signals.len() implies #[trigger] signal_ok(
            signals,
            i,
            rest,
        ) by {
            assert(signal_ok(signals, i, wakers));
            let s = signals[i];
            if !s.canceled {
                let w = Some(CancelWaker::Child(i as usize));
                assert(wakers.contains(w) ==> rest.contains(w)) by {
                    if wakers.contains(w) {
                        let k = choose|k: int| 0 <= k < wakers.len() && wakers[k] == w;
                        assert(k != 0);
                        assert(rest[k - 1] == w);
                    }
                }
            }
        }
    } else {
        let child = wakers[0]->0->Child_0;
        let own = signals[child as int];
        let next = own.wakers + rest;
        assert(signal_ok(signals, child as int, wakers));
        assert forall|w: Option<CancelWaker>|
            (wakers.contains(w) && w != Some(CancelWaker::Child(child))) || own.wakers.contains(
                w,
            ) implies #[trigger] next.contains(w) by {
            if own.wakers.contains(w) {
                let k = choose|k: int| 0 <= k < own.wakers.len() && own.wakers[k] == w;
                assert(next[k] == w);
            } else {
                let k = choose|k: int| 0 <= k < wakers.len() && wakers[k] == w;
                assert(rest[k - 1] == w);
                assert(next[own.wakers.len() + k - 1] == w);
            }
        }
        assert forall|k: int| 0 <= k < next.len() implies (#[trigger] next[k] matches Some(
            CancelWaker::Child(c),
        ) ==> c < signals.len()) by {
            if k >= own.wakers.len() {
                assert(next[k] == wakers[k - own.wakers.len() + 1]);
            } else {
                assert(next[k] == own.wakers[k]);
            }
        }
        lemma_stopped_ok(signals, child as int, reason, wakers, next);
    }
}

proof fn lemma_told_ok(
    signals: Seq<SignalView>,
    wakers: Seq<Option<CancelWaker>>,
    reason: Seq<char>,
)
    requires
        all_ok(signals, wakers),
    ensures
        signals_ok(told(signals, wakers, reason).0),
        told(signals, wakers, reason).0.len() == signals.len(),
        forall|i: int|
            0 <= i < signals.len() && signals[i].canceled ==> (#[trigger] told(
                signals,
                wakers,
                reason,
            ).0[i]) == signals[i],
        forall|i: int|
            0 <= i < signals.len() && !signals[i].canceled && (#[trigger] told(
                signals,
                wakers,
                reason,
            ).0[i]).canceled ==> told(signals, wakers, reason).0[i] == SignalView::stopped(reason),
        forall|i: usize|
            wakers.contains(Some(CancelWaker::Child(i))) ==> #[trigger] told(
                signals,
                wakers,
                reason,
            ).0[i as int].canceled,
    decreases running(signals), wakers.len(),
{
    if wakers.len() == 0 {
        assert(wakers == Seq::<Option<CancelWaker>>::empty());
    } else {
        let rest = wakers.skip(1);
        let done = match wakers[0] {
            Some(CancelWaker::Child(child)) => signals[child as int].canceled,
            _ => true,
        };
        if done {
            lemma_next_ok(signals, wakers, reason);
            lemma_told_ok(signals, rest, reason);
            assert forall|i: usize| wakers.contains(Some(CancelWaker::Child(i))) implies (
            #[trigger] told(signals, wakers, reason).0[i as int]).canceled by {
                let w = Some(CancelWaker::Child(i));
                let k = choose|k: int| 0 <= k < wakers.len() && wakers[k] == w;
                if k == 0 {
                    assert(signals[i as int].canceled);
                    assert(told(signals, rest, reason).0[i as int] == signals[i as int]);
                } else {
                    assert(rest[k - 1] == w);
                    assert(rest.contains(w));
                    assert(told(signals, rest, reason).0[i as int].canceled);
                }
            }
        } else {
            let child = wakers[0]->0->Child_0;
            let own = signals[child as int];
            let next = own.wakers + rest;
            let middle = stopped(signals, child as int, reason);
            assert(signal_ok(signals, child as int, wakers));
            assert forall|w: Option<CancelWaker>|
                (wakers.contains(w) && w != Some(CancelWaker::Child(child))) || own.wakers.contains(
                    w,
                ) implies #[trigger] next.contains(w) by {
                if own.wakers.contains(w) {
                    let k = choose|k: int| 0 <= k < own.wakers.len() && own.wakers[k] == w;
                    assert(next[k] == w);
                } else {
                    let k = choose|k: int| 0 <= k < wakers.len() && wakers[k] == w;
                    assert(rest[k - 1] == w);
                    assert(next[own.wakers.len() + k - 1] == w);
                }
            }
            lemma_next_ok(signals, wakers, reason);
            lemma_stopped_running(signals, child as int, reason);
            lemma_told_ok(middle, next, reason);
            let first = signals.update(child as int, SignalView::stopped(reason));
            lemma_all_released(first, own.parents);
            let after = told(signals, wakers, reason).0;
            assert(after == told(middle, next, reason).0);
            assert(middle[child as int] == SignalView::stopped(reason));
            assert forall|i: int| 0 <= i < signals.len() && signals[i].canceled implies
                #[trigger] after[i] == signals[i] by {
                assert(first[i] == signals[i]);
                assert(middle[i].canceled);
                assert(signal_ok(signals, i, wakers));
                assert(middle[i] == signals[i]);
            }
            assert forall|i: int|
                0 <= i < signals.len() && !signals[i].canceled && (
                #[trigger] after[i]).canceled implies after[i] == SignalView::stopped(reason) by {
                if i != child {
                    assert(!middle[i].canceled);
                }
            }
            assert forall|i: usize| wakers.contains(Some(CancelWaker::Child(i))) implies (
            #[trigger] after[i as int]).canceled by {
                if i != child {
                    assert(next.contains(Some(CancelWaker::Child(i))));
                } else {
                    assert(middle[i as int].canceled);
                }
            }
        }
    }
}

struct SignalState {
    canceled: bool,
    reason: String,
    wakers: Vec<Option<CancelWaker>>,
    parents: Vec<(usize, usize)>,
}

impl View for SignalState {
    type V = SignalView;

    closed spec fn view(&self) -> SignalView {
        SignalView {
            canceled: self.canceled,
            reason: self.reason@,
            wakers: self.wakers@,
            parents: handle_views(self.parents@),
        }
    }
}

/// The slots that handles of parents stand for.
spec fn handle_views(handles: Seq<(usize, usize)>) -> Seq<(int, int)> {
    handles.map_values(|h: (usize, usize)| (h.0 as int, h.1 as int))
}

/// All signals of a program.
pub struct CancelSignals {
    signals: Vec<SignalState>,
}

impl View for CancelSignals {
    type V = Seq<SignalView>;

    closed spec fn view(&self) -> Seq<SignalView> {
        self.signals@.map_values(|s: SignalState| s@)
    }
}

impl CancelSignals {
    /// No signals.
    pub fn new() -> (signals: Self)
        ensures
            signals@ == Seq::<SignalView>::empty(),
            signals_ok(signals@),
    {
        let signals = CancelSignals { signals: Vec::new() };
        assert(signals@ == Seq::<SignalView>::empty());
        signals
    }

    /// Empties a slot.
    fn release(&mut self, signal: usize, slot: usize)
        ensures
            final(self)@ == released(old(self)@, signal as int, slot as int),
    {
        let ghost before = self@;
        if signal < self.signals.len() && !self.signals[signal].canceled && slot
            < self.signals[signal].wakers.len() {
            self.signals[signal].wakers[slot] = None;
        }
        assert(self@ == released(before, signal as int, slot as int));
    }

    /// Cancels a signal and forgets about its parents, gives the wakers to tell.
    fn stop(&mut self, signal: usize, reason: &str) -> (wakers: Vec<Option<CancelWaker>>)
        requires
            signal < old(self)@.len(),
        ensures
            final(self)@ == stopped(old(self)@, signal as int, reason@),
            wakers@ == old(self)@[signal as int].wakers,
    {
        let ghost before = self@;
        let mut state = SignalState {
            canceled: true,
            reason: reason.to_owned(),
            wakers: Vec::new(),
            parents: Vec::new(),
        };
        std::mem::swap(&mut self.signals[signal], &mut state);
        let ghost handles = before[signal as int].parents;
        let ghost first = self@;
        proof {
            assert(handle_views(Seq::empty()) == Seq::<(int, int)>::empty());
            assert(self@ == before.update(signal as int, SignalView::stopped(reason@)));
            assert(handles == handle_views(state.parents@));
            assert(handles.take(0) == Seq::<(int, int)>::empty());
        }
        let mut i: usize = 0;
        while i < state.parents.len()
            invariant
                i <= state.parents@.len(),
                handles == handle_views(state.parents@),
                self@ == all_released(first, handles.take(i as int)),
            decreases state.parents@.len() - i,
        {
            proof {
                assert(handles.take(i + 1).drop_last() == handles.take(i as int));
                assert(handles.take(i + 1).last() == handles[i as int]);
            }
            let (parent, slot) = state.parents[i];
            self.release(parent, slot);
            i = i + 1;
        }
        assert(handles.take(i as int) == handles);
        state.wakers
    }
}

impl CancelSignals {
    /// Tells wakers that a signal was canceled.
    #[verifier::spinoff_prover]
    fn tell(&mut self, wakers: Vec<Option<CancelWaker>>, reason: &str) -> (tasks: Vec<u64>)
        ensures
            final(self)@ == told(old(self)@, wakers@, reason@).0,
            tasks@ == told(old(self)@, wakers@, reason@).1,
    {
        let ghost all = told(self@, wakers@, reason@);
        let mut tasks: Vec<u64> = Vec::new();
        // The next waker is the last one:
        let mut stack: Vec<Option<CancelWaker>> = Vec::new();
        push_reversed(&mut stack, &wakers);
        assert(Seq::<Option<CancelWaker>>::empty().reverse() == Seq::<Option<CancelWaker>>::empty());
        assert(wakers@ + Seq::<Option<CancelWaker>>::empty() == wakers@);
        while stack.len() > 0
            invariant
                all.0 == told(self@, stack@.reverse(), reason@).0,
                all.1 == tasks@ + told(self@, stack@.reverse(), reason@).1,
            decreases running(self@), stack@.len(),
        {
            let ghost pending = stack@.reverse();
            let ghost before = self@;
            let ghost told_before = tasks@;
            let next = stack.pop();
            proof {
                assert(pending[0] == next->0);
                assert(stack@.reverse() == pending.skip(1));
            }
            if let Some(waker) = next {
                match waker {
                    None => {},
                    Some(CancelWaker::Task(task)) => {
                        tasks.push(task);
                        assert(tasks@ == told_before + seq![task]);
                        assert(told_before + (seq![task] + told(
                            before,
                            pending.skip(1),
                            reason@,
                        ).1) == tasks@ + told(before, pending.skip(1), reason@).1);
                    },
                    Some(CancelWaker::Child(child)) => {
                        if child < self.signals.len() && !self.signals[child].canceled {
                            proof {
                                lemma_stopped_running(before, child as int, reason@);
                            }
                            let inner = self.stop(child, reason);
                            push_reversed(&mut stack, &inner);
                        }
                    },
                }
            }
        }
        assert(stack@.reverse() == Seq::<Option<CancelWaker>>::empty());
        tasks
    }

    fn cancel(&mut self, signal: usize, reason: &str) -> (tasks: Vec<u64>)
        requires
            signal < old(self)@.len(),
            signals_ok(old(self)@),
        ensures
            final(self)@ == canceled(old(self)@, signal as int, reason@).0,
            tasks@ == canceled(old(self)@, signal as int, reason@).1,
            signals_ok(final(self)@),
            final(self)@.len() == old(self)@.len(),
    {
        proof {
            lemma_canceled_ok(self@, signal as int, reason@);
        }
        if self.signals[signal].canceled {
            return Vec::new();
        }
        let wakers = self.stop(signal, reason);
        self.tell(wakers, reason)
    }
}

/// Puts wakers on a stack so that the first one is taken first.
fn push_reversed(stack: &mut Vec<Option<CancelWaker>>, wakers: &Vec<Option<CancelWaker>>)
    ensures
        final(stack)@.reverse() == wakers@ + old(stack)@.reverse(),
{
    let ghost before = stack@;
    let mut i: usize = wakers.len();
    while i > 0
        invariant
            i <= wakers@.len(),
            stack@ == before + wakers@.skip(i as int).reverse(),
        decreases i,
    {
        i = i - 1;
        stack.push(wakers[i]);
        assert(stack@ == before + wakers@.skip(i as int).reverse());
    }
    assert(wakers@.skip(0) == wakers@);
    assert(stack@.reverse() == wakers@ + before.reverse());
}

proof fn lemma_canceled_ok(signals: Seq<SignalView>, signal: int, reason: Seq<char>)
    requires
        signals_ok(signals),
        0 <= signal < signals.len(),
    ensures
        ({
            let after = canceled(signals, signal, reason).0;
            &&& signals_ok(after)
            &&& after.len() == signals.len()
            &&& after[signal].canceled
            &&& forall|i: int|
                0 <= i < signals.len() && signals[i].canceled ==> #[trigger] after[i] == signals[i]
            &&& forall|i: int|
                0 <= i < signals.len() && !signals[i].canceled && (#[trigger] after[i]).canceled
                    ==> after[i] == SignalView::stopped(reason)
        }),
{
    if !signals[signal].canceled {
        let own = signals[signal];
        let middle = stopped(signals, signal, reason);
        assert(signal_ok(signals, signal, seq![]));
        lemma_stopped_ok(signals, signal, reason, seq![], own.wakers);
        lemma_told_ok(middle, own.wakers, reason);
        let first = signals.update(signal, SignalView::stopped(reason));
        lemma_all_released(first, own.parents);
        assert(middle[signal] == SignalView::stopped(reason));
        let after = canceled(signals, signal, reason).0;
        assert(after == told(middle, own.wakers, reason).0);
        assert forall|i: int| 0 <= i < signals.len() && signals[i].canceled implies
            #[trigger] after[i] == signals[i] by {
            assert(first[i] == signals[i]);
            assert(signal_ok(signals, i, seq![]));
            assert(middle[i] == signals[i]);
        }
        assert forall|i: int|
            0 <= i < signals.len() && !signals[i].canceled && (
            #[trigger] after[i]).canceled implies after[i] == SignalView::stopped(reason) by {
            if i != signal {
                assert(!middle[i].canceled);
            }
        }
    }
}

/// The first empty slot at or after `from`, or a new one.
pub open spec fn free_slot(wakers: Seq<Option<CancelWaker>>, from: int) -> int
    decreases wakers.len() - from,
{
    if from >= wakers.len() || wakers[from] is None {
        from
    } else {
        free_slot(wakers, from + 1)
    }
}

/// The wakers with one more in the given slot, which can be a new one.
pub open spec fn with_waker(
    wakers: Seq<Option<CancelWaker>>,
    slot: int,
    waker: CancelWaker,
) -> Seq<Option<CancelWaker>> {
    if slot < wakers.len() {
        wakers.update(slot, Some(waker))
    } else {
        wakers.push(Some(waker))
    }
}

/// The signals after a waker was stored in a slot.
pub open spec fn stored(
    signals: Seq<SignalView>,
    signal: int,
    slot: int,
    waker: CancelWaker,
) -> Seq<SignalView> {
    let old = signals[signal];
    signals.update(signal, SignalView { wakers: with_waker(old.wakers, slot, waker), ..old })
}

/// The slot of a parent that a new child is stored in.
pub open spec fn slot_for_child(signals: Seq<SignalView>, parent: int) -> int {
    free_slot(signals[parent].wakers, 0)
}

pub open spec fn has_parent(signal: SignalView, parent: int) -> bool {
    exists|k: int| 0 <= k < signal.parents.len() && (#[trigger] signal.parents[k]).0 == parent
}

/// What adding a parent to a signal does: a canceled parent cancels the signal,
/// another one remembers it unless it does so already.
pub open spec fn with_parent(signals: Seq<SignalView>, child: int, parent: int) -> (
    Seq<SignalView>,
    Seq<u64>,
) {
    let slot = slot_for_child(signals, parent);
    let asked = stored(signals, parent, slot, CancelWaker::Child(child as usize));
    if signals[parent].canceled {
        canceled(signals, child, signals[parent].reason)
    } else if asked[child].canceled || has_parent(asked[child], parent) {
        (released(asked, parent, slot), seq![])
    } else {
        let own = asked[child];
        (
            asked.update(child, SignalView { parents: own.parents.push((parent, slot)), ..own }),
            seq![],
        )
    }
}

proof fn lemma_free_slot(wakers: Seq<Option<CancelWaker>>, from: int)
    requires
        0 <= from <= wakers.len(),
    ensures
        from <= free_slot(wakers, from) <= wakers.len(),
        free_slot(wakers, from) < wakers.len() ==> wakers[free_slot(wakers, from)] is None,
    decreases wakers.len() - from,
{
    if from < wakers.len() && wakers[from] is Some {
        lemma_free_slot(wakers, from + 1);
    }
}

/// Storing a task keeps everything in order.
proof fn lemma_task_stored(signals: Seq<SignalView>, signal: int, slot: int, task: u64)
    requires
        signals_ok(signals),
        0 <= signal < signals.len(),
        !signals[signal].canceled,
        0 <= slot <= signals[signal].wakers.len(),
        slot < signals[signal].wakers.len() ==> !(signals[signal].wakers[slot] matches Some(
            CancelWaker::Child(_),
        )),
    ensures
        signals_ok(stored(signals, signal, slot, CancelWaker::Task(task))),
{
    let after = stored(signals, signal, slot, CancelWaker::Task(task));
    assert forall|i: int| 0 <= i < after.len() implies #[trigger] signal_ok(
        after,
        i,
        seq![],
    ) by {
        assert(signal_ok(signals, i, seq![]));
        assert(after[i].parents == signals[i].parents);
        let s = signals[i];
        if !s.canceled {
            assert forall|k: int| 0 <= k < s.parents.len() implies {
                let p = (#[trigger] s.parents[k]).0;
                let t = s.parents[k].1;
                &&& 0 <= p < after.len()
                &&& !after[p].canceled
                &&& 0 <= t < after[p].wakers.len()
                &&& after[p].wakers[t] == Some(CancelWaker::Child(i as usize))
            } by {
                let p = s.parents[k].0;
                assert(!signals[p].canceled);
            }
            assert forall|k: int| 0 <= k < after[i].wakers.len() implies (
            #[trigger] after[i].wakers[k] matches Some(CancelWaker::Child(child)) ==> {
                &&& child < after.len()
                &&& !after[child as int].canceled
                &&& after[child as int].parents.contains((i, k))
            }) by {
                if let Some(CancelWaker::Child(child)) = after[i].wakers[k] {
                    assert(s.wakers[k] == after[i].wakers[k]);
                }
            }
        }
    }
}

/// Emptying a slot that does not hold a child keeps everything in order.
proof fn lemma_task_released(signals: Seq<SignalView>, signal: int, slot: int)
    requires
        signals_ok(signals),
        0 <= signal < signals.len(),
        0 <= slot < signals[signal].wakers.len() ==> !(signals[signal].wakers[slot] matches Some(
            CancelWaker::Child(_),
        )),
    ensures
        signals_ok(released(signals, signal, slot)),
{
    let after = released(signals, signal, slot);
    assert forall|i: int| 0 <= i < after.len() implies #[trigger] signal_ok(
        after,
        i,
        seq![],
    ) by {
        assert(signal_ok(signals, i, seq![]));
        assert(after[i].parents == signals[i].parents);
        let s = signals[i];
        if !s.canceled {
            assert forall|k: int| 0 <= k < s.parents.len() implies {
                let p = (#[trigger] s.parents[k]).0;
                let t = s.parents[k].1;
                &&& 0 <= p < after.len()
                &&& !after[p].canceled
                &&& 0 <= t < after[p].wakers.len()
                &&& after[p].wakers[t] == Some(CancelWaker::Child(i as usize))
            } by {
                let p = s.parents[k].0;
                assert(!signals[p].canceled);
            }
            assert forall|k: int| 0 <= k < after[i].wakers.len() implies (
            #[trigger] after[i].wakers[k] matches Some(CancelWaker::Child(child)) ==> {
                &&& child < after.len()
                &&& !after[child as int].canceled
                &&& after[child as int].parents.contains((i, k))
            }) by {
                if let Some(CancelWaker::Child(child)) = after[i].wakers[k] {
                    assert(s.wakers[k] == after[i].wakers[k]);
                }
            }
        }
    }
}

/// Adding a parent keeps everything in order.
#[verifier::spinoff_prover]
proof fn lemma_with_parent_ok(signals: Seq<SignalView>, child: int, parent: int)
    requires
        signals_ok(signals),
        0 <= child < signals.len(),
        0 <= parent < signals.len(),
    ensures
        signals_ok(with_parent(signals, child, parent).0),
        with_parent(signals, child, parent).0.len() == signals.len(),
{
    let slot = slot_for_child(signals, parent);
    let me = CancelWaker::Child(child as usize);
    let asked = stored(signals, parent, slot, me);
    let after = with_parent(signals, child, parent).0;
    lemma_free_slot(signals[parent].wakers, 0);
    if signals[parent].canceled {
        lemma_canceled_ok(signals, child, signals[parent].reason);
    } else if asked[child].canceled || has_parent(asked[child], parent) {
        let plain = stored(signals, parent, slot, CancelWaker::Task(0));
        lemma_task_stored(signals, parent, slot, 0);
        lemma_task_released(plain, parent, slot);
        assert(after == released(plain, parent, slot)) by {
            assert(asked[parent].wakers.update(slot, None) == plain[parent].wakers.update(
                slot,
                None,
            ));
        }
    } else {
        let own = asked[child];
        assert(forall|i: int|
            0 <= i < signals.len() ==> (#[trigger] after[i]).canceled == signals[i].canceled);
        assert forall|i: int| 0 <= i < after.len() implies #[trigger] signal_ok(
            after,
            i,
            seq![],
        ) by {
            assert(signal_ok(signals, i, seq![]));
            let s = signals[i];
            let now = after[i];
            if !s.canceled {
                assert forall|k: int| 0 <= k < now.parents.len() implies {
                    let p = (#[trigger] now.parents[k]).0;
                    let t = now.parents[k].1;
                    &&& 0 <= p < after.len()
                    &&& !after[p].canceled
                    &&& 0 <= t < after[p].wakers.len()
                    &&& after[p].wakers[t] == Some(CancelWaker::Child(i as usize))
                } by {
                    if k < s.parents.len() {
                        assert(now.parents[k] == s.parents[k]);
                        let p = s.parents[k].0;
                        assert(!signals[p].canceled);
                    }
                }
                assert forall|k: int| 0 <= k < now.wakers.len() implies (
                #[trigger] now.wakers[k] matches Some(CancelWaker::Child(c)) ==> {
                    &&& c < after.len()
                    &&& !after[c as int].canceled
                    &&& after[c as int].parents.contains((i, k))
                }) by {
                    if let Some(CancelWaker::Child(c)) = now.wakers[k] {
                        if i == parent && k == slot {
                            assert(after[child].parents.last() == (parent, slot));
                        } else {
                            assert(s.wakers[k] == now.wakers[k]);
                            let old = signals[c as int].parents;
                            let j = choose|j: int| 0 <= j < old.len() && old[j] == (i, k);
                            assert(after[c as int].parents[j] == (i, k));
                        }
                    }
                }
                assert forall|j: int, k: int|
                    #![trigger now.parents[j], now.parents[k]]
                    0 <= j < k < now.parents.len() implies now.parents[j].0 != now.parents[k].0 by {
                    assert(now.parents[j] == s.parents[j]);
                    if k < s.parents.len() {
                        assert(now.parents[k] == s.parents[k]);
                    } else {
                        assert(own.parents[j].0 != parent);
                    }
                }
            }
        }
    }
}

impl CancelSignals {
    /// Stores a waker in the given slot or in a free one.
    fn store(&mut self, signal: usize, slot: Option<usize>, waker: CancelWaker) -> (used: usize)
        requires
            signal < old(self)@.len(),
            slot matches Some(slot) ==> slot <= old(self)@[signal as int].wakers.len(),
        ensures
            used == match slot {
                Some(slot) => slot as int,
                None => free_slot(old(self)@[signal as int].wakers, 0),
            },
            used <= old(self)@[signal as int].wakers.len(),
            final(self)@ == stored(old(self)@, signal as int, used as int, waker),
    {
        let ghost before = self@;
        let ghost wakers = before[signal as int].wakers;
        let used: usize = match slot {
            Some(slot) => slot,
            None => {
                let mut i: usize = 0;
                while i < self.signals[signal].wakers.len() && self.signals[signal].wakers[i].is_some()
                    invariant
                        self@ == before,
                        signal < before.len(),
                        wakers == before[signal as int].wakers,
                        i <= wakers.len(),
                        free_slot(wakers, 0) == free_slot(wakers, i as int),
                    decreases wakers.len() - i,
                {
                    i = i + 1;
                }
                i
            },
        };
        if used < self.signals[signal].wakers.len() {
            self.signals[signal].wakers[used] = Some(waker);
        } else {
            self.signals[signal].wakers.push(Some(waker));
        }
        assert(self@[signal as int].wakers == with_waker(wakers, used as int, waker));
        assert(self@ == stored(before, signal as int, used as int, waker));
        used
    }

    fn knows_parent(&self, signal: usize, parent: usize) -> (known: bool)
        requires
            signal < self@.len(),
        ensures
            known == has_parent(self@[signal as int], parent as int),
    {
        let ghost own = self@[signal as int];
        let mut i: usize = 0;
        while i < self.signals[signal].parents.len()
            invariant
                signal < self@.len(),
                own == self@[signal as int],
                i <= own.parents.len(),
                forall|k: int| 0 <= k < i ==> (#[trigger] own.parents[k]).0 != parent,
            decreases own.parents.len() - i,
        {
            let (p, _) = self.signals[signal].parents[i];
            assert(own.parents[i as int].0 == p);
            if p == parent {
                return true;
            }
            i = i + 1;
        }
        false
    }
}

/// Tells work to stop.
#[derive(Debug, Clone, Copy, PartialEq, Eq, Structural)]
pub struct CancelSignal {
    id: usize,
}

impl CancelSignal {
    /// The place of the signal among all signals.
    pub closed spec fn at(self) -> int {
        self.id as int
    }

    pub open spec fn known(self, signals: Seq<SignalView>) -> bool {
        0 <= self.at() < signals.len()
    }

    /// A signal that is not canceled.
    pub fn new(signals: &mut CancelSignals) -> (signal: Self)
        requires
            signals_ok(old(signals)@),
            old(signals)@.len() < usize::MAX,
        ensures
            signals_ok(final(signals)@),
            final(signals)@ == old(signals)@.push(SignalView::fresh()),
            signal.at() == old(signals)@.len(),
    {
        let ghost before = signals@;
        let id: usize = signals.signals.len();
        signals.signals.push(
            SignalState {
                canceled: false,
                reason: String::new(),
                wakers: Vec::new(),
                parents: Vec::new(),
            },
        );
        proof {
            assert(handle_views(Seq::empty()) == Seq::<(int, int)>::empty());
            let after = before.push(SignalView::fresh());
            assert(signals@ == after);
            assert forall|i: int| 0 <= i < after.len() implies #[trigger] signal_ok(
                after,
                i,
                seq![],
            ) by {
                if i < before.len() {
                    assert(signal_ok(before, i, seq![]));
                    assert(after[i] == before[i]);
                    let s = before[i];
                    if !s.canceled {
                        assert forall|k: int| 0 <= k < s.parents.len() implies {
                            let p = (#[trigger] s.parents[k]).0;
                            let t = s.parents[k].1;
                            &&& 0 <= p < after.len()
                            &&& !after[p].canceled
                            &&& 0 <= t < after[p].wakers.len()
                            &&& after[p].wakers[t] == Some(CancelWaker::Child(i as usize))
                        } by {
                            let p = s.parents[k].0;
                            assert(after[p] == before[p]);
                        }
                        assert forall|k: int| 0 <= k < s.wakers.len() implies (
                        #[trigger] s.wakers[k] matches Some(CancelWaker::Child(c)) ==> {
                            &&& c < after.len()
                            &&& !after[c as int].canceled
                            &&& after[c as int].parents.contains((i, k))
                        }) by {
                            if let Some(CancelWaker::Child(c)) = s.wakers[k] {
                                assert(after[c as int] == before[c as int]);
                            }
                        }
                    }
                }
            }
        }
        CancelSignal { id }
    }

    /// Wraps the signal in a type that cancels it when it is let go.
    pub fn cancel_on_drop(self) -> (guard: CancelOnDrop)
        ensures
            guard.signal() == Some(self),
    {
        CancelOnDrop::new(self)
    }

    /// Cancels the signal without saying why. Gives the tasks that have to be told
    /// about it.
    pub fn cancel(&self, signals: &mut CancelSignals) -> (tasks: Vec<u64>)
        requires
            self.known(old(signals)@),
            signals_ok(old(signals)@),
        ensures
            signals_ok(final(signals)@),
            final(signals)@ == canceled(old(signals)@, self.at(), seq![]).0,
            final(signals)@.len() == old(signals)@.len(),
            tasks@ == canceled(old(signals)@, self.at(), seq![]).1,
    {
        proof {
            reveal_strlit("");
            assert(""@ == Seq::<char>::empty());
        }
        signals.cancel(self.id, "")
    }

    /// Cancels the signal. Gives the tasks that have to be told about it.
    pub fn cancel_with_reason(&self, signals: &mut CancelSignals, reason: &str) -> (tasks: Vec<u64>)
        requires
            self.known(old(signals)@),
            signals_ok(old(signals)@),
        ensures
            signals_ok(final(signals)@),
            final(signals)@ == canceled(old(signals)@, self.at(), reason@).0,
            final(signals)@.len() == old(signals)@.len(),
            tasks@ == canceled(old(signals)@, self.at(), reason@).1,
    {
        signals.cancel(self.id, reason)
    }

    /// The reason that the signal was canceled.
    pub fn reason(&self, signals: &CancelSignals) -> (reason: Option<String>)
        requires
            self.known(signals@),
        ensures
            reason is Some <==> signals@[self.at()].reason.len() > 0,
            reason matches Some(text) ==> text@ == signals@[self.at()].reason,
    {
        let text = &signals.signals[self.id].reason;
        if text.as_str().is_empty() {
            None
        } else {
            Some(text.clone())
        }
    }

    /// Whether the signal has been canceled, that is whether work should stop.
    pub fn check(&self, signals: &CancelSignals) -> (result: bool)
        requires
            self.known(signals@),
        ensures
            result == signals@[self.at()].canceled,
    {
        signals.signals[self.id].canceled
    }

    /// An error if the signal has been canceled.
    pub fn as_error(&self, signals: &CancelSignals) -> (result: Result<(), String>)
        requires
            self.known(signals@),
        ensures
            result is Err <==> signals@[self.at()].canceled,
            result matches Err(text) ==> text@ == error_text(signals@[self.at()].reason),
    {
        if self.check(signals) {
            Err(self.error(signals))
        } else {
            Ok(())
        }
    }

    fn error(&self, signals: &CancelSignals) -> (text: String)
        requires
            self.known(signals@),
        ensures
            text@ == error_text(signals@[self.at()].reason),
    {
        match self.reason(signals) {
            Some(reason) => Self::error_with_cancel_reason(Some(reason.as_str())),
            None => Self::error_with_cancel_reason(None),
        }
    }

    /// The text of the error about a cancellation.
    pub fn error_with_cancel_reason(reason: Option<&str>) -> (text: String)
        ensures
            reason is None ==> text@ == "Operation canceled"@,
            reason matches Some(reason) ==> text@ == "Operation canceled in response to "@
                + reason@,
    {
        match reason {
            Some(reason) => {
                let mut text: String = "Operation canceled in response to ".to_owned();
                text.append(reason);
                text
            },
            None => "Operation canceled".to_owned(),
        }
    }

    /// The result of waiting on the signal for some time: an error if the signal is
    /// canceled. Waiting only takes the whole time if it is not.
    pub fn wait_timeout(&self, signals: &CancelSignals, timed_out: bool) -> (result: Result<
        (),
        String,
    >)
        requires
            self.known(signals@),
            timed_out ==> !signals@[self.at()].canceled,
        ensures
            result is Err <==> signals@[self.at()].canceled,
            result matches Err(text) ==> text@ == error_text(signals@[self.at()].reason),
    {
        if timed_out {
            Ok(())
        } else {
            self.as_error(signals)
        }
    }

    /// From now on this signal is canceled if the parent is. Gives the tasks that
    /// have to be told about a cancellation.
    pub fn add_parent_signal(&self, signals: &mut CancelSignals, parent: &CancelSignal) -> (tasks:
        Vec<u64>)
        requires
            self.known(old(signals)@),
            parent.known(old(signals)@),
            signals_ok(old(signals)@),
        ensures
            signals_ok(final(signals)@),
            final(signals)@ == with_parent(old(signals)@, self.at(), parent.at()).0,
            final(signals)@.len() == old(signals)@.len(),
            tasks@ == with_parent(old(signals)@, self.at(), parent.at()).1,
    {
        proof {
            lemma_with_parent_ok(signals@, self.at(), parent.at());
        }
        if parent.check(signals) {
            let reason = signals.signals[parent.id].reason.clone();
            return signals.cancel(self.id, reason.as_str());
        }
        let slot = signals.store(parent.id, None, CancelWaker::Child(self.id));
        let ghost asked = signals@;
        if self.check(signals) || signals.knows_parent(self.id, parent.id) {
            signals.release(parent.id, slot);
        } else {
            signals.signals[self.id].parents.push((parent.id, slot));
            proof {
                let own = asked[self.at()];
                assert(signals@[self.at()].parents == own.parents.push(
                    (parent.at(), slot as int),
                ));
                assert(signals@ == asked.update(
                    self.at(),
                    SignalView { parents: own.parents.push((parent.at(), slot as int)), ..own },
                ));
            }
        }
        Vec::new()
    }

    /// A signal that is canceled if the current one is, and that can be canceled
    /// without affecting the current one.
    pub fn new_child_signal(&self, signals: &mut CancelSignals) -> (child: CancelSignal)
        requires
            self.known(old(signals)@),
            signals_ok(old(signals)@),
            old(signals)@.len() < usize::MAX,
        ensures
            signals_ok(final(signals)@),
            child.at() == old(signals)@.len(),
            final(signals)@ == with_parent(
                old(signals)@.push(SignalView::fresh()),
                child.at(),
                self.at(),
            ).0,
            final(signals)@.len() == old(signals)@.len() + 1,
    {
        let child = CancelSignal::new(signals);
        let _tasks = child.add_parent_signal(signals, self);
        child
    }

    /// Wraps something so that it can only be used until the signal is canceled.
    pub fn wrap_io<T>(&self, io_type: T) -> (wrapped: CancelableIo<T>)
        ensures
            wrapped == CancelableIo(io_type, *self),
    {
        CancelableIo(io_type, *self)
    }

    /// Something that waits for the cancellation.
    pub fn wait_future(&self) -> (future: WaitForCancelSignalFuture)
        ensures
            future.signal() == *self,
            future.slot() is None,
    {
        WaitForCancelSignalFuture::new(*self)
    }
}

/// The text of the error about a cancellation with the given reason, which can be
/// empty.
pub open spec fn error_text(reason: Seq<char>) -> Seq<char> {
    if reason.len() == 0 {
        "Operation canceled"@
    } else {
        "Operation canceled in response to "@ + reason
    }
}

/// Something that is used only until a signal is canceled.
pub struct CancelableIo<T>(pub T, pub CancelSignal);

impl<T> CancelableIo<T> {
    /// An error if the signal was canceled, else the wrapped value.
    pub fn get(&self, signals: &CancelSignals) -> (result: Result<&T, String>)
        requires
            self.1.known(signals@),
        ensures
            result is Err <==> signals@[self.1.at()].canceled,
            result matches Ok(inner) ==> *inner == self.0,
            result matches Err(text) ==> text@ == error_text(signals@[self.1.at()].reason),
    {
        match self.1.as_error(signals) {
            Ok(()) => Ok(&self.0),
            Err(text) => Err(text),
        }
    }
}

/// Cancels a signal when it is let go, unless it was disarmed.
pub struct CancelOnDrop(Option<CancelSignal>);

impl CancelOnDrop {
    pub closed spec fn signal(self) -> Option<CancelSignal> {
        self.0
    }

    pub fn new(signal: CancelSignal) -> (guard: Self)
        ensures
            guard.signal() == Some(signal),
    {
        CancelOnDrop(Some(signal))
    }

    /// The signal, which is no longer canceled by this.
    pub fn disarm(self) -> (signal: CancelSignal)
        requires
            self.signal() is Some,
        ensures
            self.signal() == Some(signal),
    {
        self.0.unwrap()
    }

    /// Lets go of the signal. Gives the tasks that have to be told about the
    /// cancellation.
    pub fn release(self, signals: &mut CancelSignals) -> (tasks: Vec<u64>)
        requires
            self.signal() matches Some(signal) ==> signal.known(old(signals)@),
            signals_ok(old(signals)@),
        ensures
            signals_ok(final(signals)@),
            final(signals)@.len() == old(signals)@.len(),
            match self.signal() {
                Some(signal) => {
                    &&& final(signals)@ == canceled(old(signals)@, signal.at(), seq![]).0
                    &&& tasks@ == canceled(old(signals)@, signal.at(), seq![]).1
                },
                None => final(signals)@ == old(signals)@ && tasks@ == Seq::<u64>::empty(),
            },
    {
        match self.0 {
            Some(signal) => signal.cancel(signals),
            None => Vec::new(),
        }
    }
}

/// Waits for a signal to be canceled.
pub struct WaitForCancelSignalFuture {
    signal: CancelSignal,
    slot: Option<usize>,
}

impl WaitForCancelSignalFuture {
    pub closed spec fn signal(self) -> CancelSignal {
        self.signal
    }

    /// The slot of the signal that holds the task of this future.
    pub closed spec fn slot(self) -> Option<int> {
        match self.slot {
            Some(slot) => Some(slot as int),
            None => None,
        }
    }

    /// Whether the slot of the future still is its own.
    pub open spec fn ok(self, signals: Seq<SignalView>) -> bool {
        let at = self.signal().at();
        &&& self.signal().known(signals)
        &&& !signals[at].canceled ==> (self.slot() matches Some(slot) ==> {
            &&& 0 <= slot < signals[at].wakers.len()
            &&& signals[at].wakers[slot] matches Some(CancelWaker::Task(_))
        })
    }

    /// The signals after the future was let go of: its slot is empty.
    pub open spec fn let_go(self, signals: Seq<SignalView>) -> Seq<SignalView> {
        match self.slot() {
            Some(slot) => released(signals, self.signal().at(), slot),
            None => signals,
        }
    }

    pub fn new(signal: CancelSignal) -> (future: Self)
        ensures
            future.signal() == signal,
            future.slot() is None,
    {
        WaitForCancelSignalFuture { signal, slot: None }
    }

    /// Forgets about the task, which stays connected to the signal until that is
    /// canceled.
    pub fn forget(self) -> (future: Self)
        ensures
            future.signal() == self.signal(),
            future.slot() is None,
    {
        WaitForCancelSignalFuture { signal: self.signal, slot: None }
    }

    /// Like [`Self::set_waker`], with the error of the signal if it was canceled
    /// already.
    pub fn set_waker_from_closure(&mut self, signals: &mut CancelSignals, task: u64) -> (result:
        Result<(), String>)
        requires
            old(self).ok(old(signals)@),
            signals_ok(old(signals)@),
        ensures
            signals_ok(final(signals)@),
            final(self).ok(final(signals)@),
            final(self).signal() == old(self).signal(),
            result is Err <==> old(signals)@[old(self).signal().at()].canceled,
            result matches Err(text) ==> text@ == error_text(
                old(signals)@[old(self).signal().at()].reason,
            ),
            waiting(*old(self), old(signals)@, task, *final(self), final(signals)@),
    {
        let text = self.signal.error(signals);
        match self.set_waker(signals, task) {
            Ok(()) => Ok(()),
            Err(_) => Err(text),
        }
    }

    /// Sets the task that is told when the signal is canceled, in place of an
    /// earlier one. Gives the task back if the signal was canceled already.
    pub fn set_waker(&mut self, signals: &mut CancelSignals, task: u64) -> (result: Result<
        (),
        u64,
    >)
        requires
            old(self).ok(old(signals)@),
            signals_ok(old(signals)@),
        ensures
            signals_ok(final(signals)@),
            final(self).ok(final(signals)@),
            final(self).signal() == old(self).signal(),
            result == if old(signals)@[old(self).signal().at()].canceled {
                Err::<(), u64>(task)
            } else {
                Ok::<(), u64>(())
            },
            waiting(*old(self), old(signals)@, task, *final(self), final(signals)@),
    {
        if self.signal.check(signals) {
            return Err(task);
        }
        let ghost before = signals@;
        proof {
            lemma_free_slot(before[self.signal.at()].wakers, 0);
        }
        let slot = signals.store(self.signal.id, self.slot, CancelWaker::Task(task));
        proof {
            lemma_task_stored(before, self.signal.at(), slot as int, task);
        }
        self.slot = Some(slot);
        Ok(())
    }

    /// Whether the signal was canceled. If it was not then the task is told when
    /// that happens.
    pub fn poll(&mut self, signals: &mut CancelSignals, task: u64) -> (ready: bool)
        requires
            old(self).ok(old(signals)@),
            signals_ok(old(signals)@),
        ensures
            signals_ok(final(signals)@),
            final(self).ok(final(signals)@),
            final(self).signal() == old(self).signal(),
            ready == old(signals)@[old(self).signal().at()].canceled,
            waiting(*old(self), old(signals)@, task, *final(self), final(signals)@),
    {
        match self.set_waker(signals, task) {
            Ok(()) => false,
            Err(_) => true,
        }
    }

    /// Lets go of the future. Its task is no longer told about a cancellation.
    pub fn release(self, signals: &mut CancelSignals)
        requires
            self.ok(old(signals)@),
            signals_ok(old(signals)@),
        ensures
            signals_ok(final(signals)@),
            final(signals)@ == self.let_go(old(signals)@),
            final(signals)@.len() == old(signals)@.len(),
    {
        if let Some(slot) = self.slot {
            proof {
                assert(signal_ok(signals@, self.signal.at(), seq![]));
                lemma_task_released(signals@, self.signal.at(), slot as int);
            }
            signals.release(self.signal.id, slot);
        }
    }
}

/// Whether a future waits with the given task after it was told to: a canceled
/// signal is left as it was, another one holds the task in the slot of the future
/// or in a free one.
pub open spec fn waiting(
    before: WaitForCancelSignalFuture,
    signals: Seq<SignalView>,
    task: u64,
    after: WaitForCancelSignalFuture,
    changed: Seq<SignalView>,
) -> bool {
    let at = before.signal().at();
    let slot = match before.slot() {
        Some(slot) => slot,
        None => free_slot(signals[at].wakers, 0),
    };
    if signals[at].canceled {
        changed == signals && after.slot() == before.slot()
    } else {
        &&& changed == stored(signals, at, slot, CancelWaker::Task(task))
        &&& after.slot() == Some(slot)
    }
}

/// Whether canceling one signal tells another one directly.
pub open spec fn has_child(signals: Seq<SignalView>, signal: int, child: int) -> bool {
    0 <= signal < signals.len() && !signals[signal].canceled && 0 <= child < signals.len()
        && signals[signal].wakers.contains(Some(CancelWaker::Child(child as usize)))
}

/// Whether one signal is the other one or below it, with the given number of steps.
pub open spec fn is_below(signals: Seq<SignalView>, top: int, signal: int, steps: nat) -> bool
    decreases steps,
{
    if steps == 0 {
        signal == top
    } else {
        exists|parent: int| #[trigger]
            has_child(signals, parent, signal) && is_below(
                signals,
                top,
                parent,
                (steps - 1) as nat,
            )
    }
}

/// Whether signals have been changed only by canceling some of those below one.
spec fn only_below(before: Seq<SignalView>, after: Seq<SignalView>, top: int) -> bool {
    &&& after.len() == before.len()
    &&& forall|i: int|
        0 <= i < before.len() ==> {
            let now = #[trigger] after[i];
            &&& before[i].canceled ==> now == before[i]
            &&& !before[i].canceled && now.canceled ==> exists|steps: nat| #[trigger]
                is_below(before, top, i, steps)
            &&& !now.canceled ==> {
                &&& !before[i].canceled
                &&& now.parents == before[i].parents
                &&& now.wakers.len() == before[i].wakers.len()
                &&& forall|k: int|
                    0 <= k < now.wakers.len() ==> #[trigger] now.wakers[k] is None || now.wakers[k]
                        == before[i].wakers[k]
            }
        }
}

proof fn lemma_stopped_below(
    signals: Seq<SignalView>,
    now: Seq<SignalView>,
    top: int,
    signal: int,
    reason: Seq<char>,
    steps: nat,
)
    requires
        only_below(signals, now, top),
        0 <= signal < now.len(),
        !now[signal].canceled,
        is_below(signals, top, signal, steps),
    ensures
        only_below(signals, stopped(now, signal, reason), top),
{
    let first = now.update(signal, SignalView::stopped(reason));
    let after = stopped(now, signal, reason);
    lemma_all_released(first, now[signal].parents);
    assert forall|i: int| 0 <= i < signals.len() implies {
        let then = #[trigger] after[i];
        &&& signals[i].canceled ==> then == signals[i]
        &&& !signals[i].canceled && then.canceled ==> exists|n: nat| #[trigger]
            is_below(signals, top, i, n)
        &&& !then.canceled ==> {
            &&& !signals[i].canceled
            &&& then.parents == signals[i].parents
            &&& then.wakers.len() == signals[i].wakers.len()
            &&& forall|k: int|
                0 <= k < then.wakers.len() ==> #[trigger] then.wakers[k] is None || then.wakers[k]
                    == signals[i].wakers[k]
        }
    } by {
        let old = now[i];
        let then = after[i];
        assert(then.canceled == first[i].canceled);
        if i == signal {
            assert(is_below(signals, top, i, steps));
        } else {
            assert(first[i] == now[i]);
            if signals[i].canceled {
                assert(now[i] == signals[i]);
                assert(then.wakers == now[i].wakers) by {
                    assert forall|k: int| 0 <= k < then.wakers.len() implies then.wakers[k]
                        == now[i].wakers[k] by {
                        assert(after[i].wakers[k] == first[i].wakers[k]);
                    }
                }
                assert(then == now[i]);
            }
            assert forall|k: int| 0 <= k < then.wakers.len() implies #[trigger] then.wakers[k] is None
                || then.wakers[k] == first[i].wakers[k] by {
                assert(after[i].wakers[k] == then.wakers[k]);
            }
        }
    }
}

proof fn lemma_told_below(
    signals: Seq<SignalView>,
    now: Seq<SignalView>,
    wakers: Seq<Option<CancelWaker>>,
    top: int,
    reason: Seq<char>,
)
    requires
        signals_ok(signals),
        only_below(signals, now, top),
        forall|k: int|
            0 <= k < wakers.len() ==> (#[trigger] wakers[k] matches Some(CancelWaker::Child(child))
                ==> child < now.len() && exists|steps: nat| #[trigger]
                is_below(signals, top, child as int, steps)),
    ensures
        only_below(signals, told(now, wakers, reason).0, top),
    decreases running(now), wakers.len(),
{
    if wakers.len() > 0 {
        let rest = wakers.skip(1);
        assert forall|k: int| 0 <= k < rest.len() implies (#[trigger] rest[k] matches Some(
            CancelWaker::Child(child),
        ) ==> child < now.len() && exists|steps: nat| #[trigger]
            is_below(signals, top, child as int, steps)) by {
            assert(rest[k] == wakers[k + 1]);
        }
        match wakers[0] {
            Some(CancelWaker::Child(child)) if !now[child as int].canceled => {
                let steps = choose|steps: nat| #[trigger]
                    is_below(signals, top, child as int, steps);
                let own = now[child as int];
                let next = own.wakers + rest;
                lemma_stopped_below(signals, now, top, child as int, reason, steps);
                lemma_stopped_running(now, child as int, reason);
                assert forall|k: int| 0 <= k < next.len() implies (#[trigger] next[k] matches Some(
                    CancelWaker::Child(c),
                ) ==> c < now.len() && exists|n: nat| #[trigger]
                    is_below(signals, top, c as int, n)) by {
                    if k < own.wakers.len() {
                        if let Some(CancelWaker::Child(c)) = own.wakers[k] {
                            assert(signals[child as int].wakers[k] == own.wakers[k]);
                            assert(signals[child as int].wakers.contains(
                                Some(CancelWaker::Child(c)),
                            ));
                            assert(signal_ok(signals, child as int, seq![]));
                            assert(has_child(signals, child as int, c as int));
                            assert(is_below(signals, top, c as int, steps + 1));
                        }
                    } else {
                        assert(next[k] == rest[k - own.wakers.len()]);
                    }
                }
                lemma_told_below(
                    signals,
                    stopped(now, child as int, reason),
                    next,
                    top,
                    reason,
                );
            },
            _ => {
                lemma_told_below(signals, now, rest, top, reason);
            },
        }
    }
}

/// The first cancellation of a signal decides the reason: canceling it again does
/// nothing, whatever the reason.
pub proof fn law_first_reason_wins(
    signals: Seq<SignalView>,
    signal: int,
    first: Seq<char>,
    second: Seq<char>,
)
    requires
        signals_ok(signals),
        0 <= signal < signals.len(),
    ensures
        ({
            let once = canceled(signals, signal, first).0;
            &&& canceled(once, signal, second) == (once, Seq::<u64>::empty())
            &&& !signals[signal].canceled ==> once[signal].reason == first
        }),
{
    lemma_canceled_ok(signals, signal, first);
}

/// Canceling a signal cancels exactly the signals below it, all of them with the
/// same reason, and leaves those alone that were canceled already.
pub proof fn law_signals_below_are_canceled(
    signals: Seq<SignalView>,
    top: int,
    signal: int,
    reason: Seq<char>,
)
    requires
        signals_ok(signals),
        0 <= top < signals.len(),
        !signals[top].canceled,
        0 <= signal < signals.len(),
    ensures
        ({
            let after = canceled(signals, top, reason).0[signal];
            &&& signals[signal].canceled ==> after == signals[signal]
            &&& !signals[signal].canceled ==> (after.canceled <==> exists|steps: nat| #[trigger]
                is_below(signals, top, signal, steps))
            &&& !signals[signal].canceled && after.canceled ==> after.reason == reason
        }),
{
    lemma_canceled_ok(signals, top, reason);
    let after = canceled(signals, top, reason).0;
    let own = signals[top];
    assert(signal_ok(signals, top, seq![]));
    assert(is_below(signals, top, top, 0));
    assert(only_below(signals, signals, top));
    lemma_stopped_below(signals, signals, top, top, reason, 0);
    assert forall|k: int| 0 <= k < own.wakers.len() implies (#[trigger] own.wakers[k] matches Some(
        CancelWaker::Child(c),
    ) ==> c < signals.len() && exists|n: nat| #[trigger] is_below(signals, top, c as int, n)) by {
        if let Some(CancelWaker::Child(c)) = own.wakers[k] {
            assert(own.wakers.contains(Some(CancelWaker::Child(c))));
            assert(has_child(signals, top, c as int));
            assert(is_below(signals, top, c as int, 1));
        }
    }
    lemma_told_below(signals, stopped(signals, top, reason), own.wakers, top, reason);
    assert(only_below(signals, after, top));
    let then = after[signal];
    if exists|steps: nat| #[trigger] is_below(signals, top, signal, steps) {
        let steps = choose|steps: nat| #[trigger] is_below(signals, top, signal, steps);
        lemma_below_canceled(signals, after, top, signal, steps);
    }
}

/// Signals below a canceled one are canceled.
proof fn lemma_below_canceled(
    signals: Seq<SignalView>,
    after: Seq<SignalView>,
    top: int,
    signal: int,
    steps: nat,
)
    requires
        signals_ok(signals),
        signals_ok(after),
        only_below(signals, after, top),
        0 <= top < signals.len(),
        0 <= signal < signals.len(),
        after[top].canceled,
        is_below(signals, top, signal, steps),
    ensures
        after[signal].canceled,
    decreases steps,
{
    if steps > 0 {
        let parent = choose|parent: int| #[trigger]
            has_child(signals, parent, signal) && is_below(
                signals,
                top,
                parent,
                (steps - 1) as nat,
            );
        lemma_below_canceled(signals, after, top, parent, (steps - 1) as nat);
        let w = Some(CancelWaker::Child(signal as usize));
        let k = choose|k: int|
            0 <= k < signals[parent].wakers.len() && signals[parent].wakers[k] == w;
        assert(signal_ok(signals, parent, seq![]));
        assert(signals[parent].wakers[k] == w);
        assert(signals[signal].parents.contains((parent, k)));
        if !after[signal].canceled {
            assert(signal_ok(after, signal, seq![]));
            assert(after[signal].parents == signals[signal].parents);
            let j = choose|j: int|
                0 <= j < signals[signal].parents.len() && signals[signal].parents[j] == (
                    parent,
                    k,
                );
            assert(after[signal].parents[j].0 == parent);
            assert(!after[parent].canceled);
        }
    }
}

/// A new child of a signal that is not canceled is canceled together with it, and
/// canceling the child alone does not cancel its parent.
pub proof fn law_child_follows_its_parent(
    signals: Seq<SignalView>,
    parent: int,
    reason: Seq<char>,
)
    requires
        signals_ok(signals),
        signals_ok(signals.push(SignalView::fresh())),
        0 <= parent < signals.len(),
        !signals[parent].canceled,
    ensures
        ({
            let child = signals.len() as int;
            let family = with_parent(signals.push(SignalView::fresh()), child, parent).0;
            &&& canceled(family, parent, reason).0[child] == SignalView::stopped(reason)
            &&& !canceled(family, child, reason).0[parent].canceled
        }),
{
    let child = signals.len() as int;
    let fresh = signals.push(SignalView::fresh());
    let slot = slot_for_child(fresh, parent);
    let family = with_parent(fresh, child, parent).0;
    lemma_with_parent_ok(fresh, child, parent);
    lemma_free_slot(fresh[parent].wakers, 0);
    let asked = stored(fresh, parent, slot, CancelWaker::Child(child as usize));
    assert(asked[child] == SignalView::fresh());
    assert(!has_parent(asked[child], parent));
    assert(family[child].parents == seq![(parent, slot)]);
    assert(family[parent].wakers[slot] == Some(CancelWaker::Child(child as usize)));
    assert(!family[parent].canceled && !family[child].canceled);
    assert(has_child(family, parent, child));
    assert(is_below(family, parent, parent, 0));
    assert(is_below(family, parent, child, 1));
    law_signals_below_are_canceled(family, parent, child, reason);
    lemma_canceled_ok(family, parent, reason);
    law_signals_below_are_canceled(family, child, parent, reason);
    assert forall|steps: nat| !#[trigger] is_below(family, child, parent, steps) by {
        lemma_nothing_below(family, child, parent, steps);
    }
}

/// Nothing is below a signal without wakers.
proof fn lemma_nothing_below(signals: Seq<SignalView>, top: int, signal: int, steps: nat)
    requires
        0 <= top < signals.len(),
        signals[top].wakers.len() == 0,
        signal != top,
    ensures
        !is_below(signals, top, signal, steps),
    decreases steps,
{
    if is_below(signals, top, signal, steps) {
        let parent = choose|parent: int| #[trigger]
            has_child(signals, parent, signal) && is_below(
                signals,
                top,
                parent,
                (steps - 1) as nat,
            );
        if parent != top {
            lemma_nothing_below(signals, top, parent, (steps - 1) as nat);
        }
    }
}

/// How often a task stands in some slots.
pub open spec fn times_stored(wakers: Seq<Option<CancelWaker>>, task: u64) -> nat
    decreases wakers.len(),
{
    if wakers.len() == 0 {
        0
    } else {
        times_stored(wakers.drop_last(), task) + if wakers.last() == Some(CancelWaker::Task(task)) {
            1nat
        } else {
            0nat
        }
    }
}

/// How often a task stands in the slots of all signals.
pub open spec fn times_waiting(signals: Seq<SignalView>, task: u64) -> nat
    decreases signals.len(),
{
    if signals.len() == 0 {
        0
    } else {
        times_waiting(signals.drop_last(), task) + times_stored(signals.last().wakers, task)
    }
}

/// How often a task is told.
pub open spec fn times_told(tasks: Seq<u64>, task: u64) -> nat
    decreases tasks.len(),
{
    if tasks.len() == 0 {
        0
    } else {
        (if tasks[0] == task {
            1nat
        } else {
            0nat
        }) + times_told(tasks.skip(1), task)
    }
}

proof fn lemma_stored_concat(
    a: Seq<Option<CancelWaker>>,
    b: Seq<Option<CancelWaker>>,
    task: u64,
)
    ensures
        times_stored(a + b, task) == times_stored(a, task) + times_stored(b, task),
    decreases b.len(),
{
    if b.len() == 0 {
        assert(a + b == a);
    } else {
        lemma_stored_concat(a, b.drop_last(), task);
        assert((a + b).drop_last() == a + b.drop_last());
    }
}

proof fn lemma_stored_first(wakers: Seq<Option<CancelWaker>>, task: u64)
    requires
        wakers.len() > 0,
    ensures
        times_stored(wakers, task) == times_stored(wakers.skip(1), task) + if wakers[0] == Some(
            CancelWaker::Task(task),
        ) {
            1nat
        } else {
            0nat
        },
{
    let first = seq![wakers[0]];
    assert(first + wakers.skip(1) == wakers);
    lemma_stored_concat(first, wakers.skip(1), task);
    assert(first.drop_last() == Seq::<Option<CancelWaker>>::empty());
    assert(times_stored(first.drop_last(), task) == 0);
}

proof fn lemma_stored_update(
    wakers: Seq<Option<CancelWaker>>,
    slot: int,
    waker: Option<CancelWaker>,
    task: u64,
)
    requires
        0 <= slot < wakers.len(),
    ensures
        times_stored(wakers.update(slot, waker), task) + (if wakers[slot] == Some(
            CancelWaker::Task(task),
        ) {
            1int
        } else {
            0int
        }) == times_stored(wakers, task) + (if waker == Some(CancelWaker::Task(task)) {
            1int
        } else {
            0int
        }),
    decreases wakers.len(),
{
    let after = wakers.update(slot, waker);
    if slot == wakers.len() - 1 {
        assert(after.drop_last() == wakers.drop_last());
    } else {
        lemma_stored_update(wakers.drop_last(), slot, waker, task);
        assert(after.drop_last() == wakers.drop_last().update(slot, waker));
    }
}

proof fn lemma_waiting_update(signals: Seq<SignalView>, i: int, signal: SignalView, task: u64)
    requires
        0 <= i < signals.len(),
    ensures
        times_waiting(signals.update(i, signal), task) + times_stored(signals[i].wakers, task)
            == times_waiting(signals, task) + times_stored(signal.wakers, task),
    decreases signals.len(),
{
    let after = signals.update(i, signal);
    if i == signals.len() - 1 {
        assert(after.drop_last() == signals.drop_last());
    } else {
        lemma_waiting_update(signals.drop_last(), i, signal, task);
        assert(after.drop_last() == signals.drop_last().update(i, signal));
    }
}

/// Fewer tasks in one signal and not more in the others.
proof fn lemma_waiting_less(
    before: Seq<SignalView>,
    after: Seq<SignalView>,
    i: int,
    task: u64,
)
    requires
        after.len() == before.len(),
        0 <= i < before.len(),
        forall|k: int|
            0 <= k < before.len() ==> times_stored((#[trigger] after[k]).wakers, task)
                <= times_stored(before[k].wakers, task),
    ensures
        times_waiting(after, task) + times_stored(before[i].wakers, task) <= times_waiting(
            before,
            task,
        ) + times_stored(after[i].wakers, task),
    decreases before.len(),
{
    let b = before.drop_last();
    let a = after.drop_last();
    let last = before.len() - 1;
    assert(times_stored(after[last].wakers, task) <= times_stored(before[last].wakers, task));
    if i < last {
        assert forall|k: int| 0 <= k < b.len() implies times_stored((#[trigger] a[k]).wakers, task)
            <= times_stored(b[k].wakers, task) by {
            assert(a[k] == after[k]);
        }
        lemma_waiting_less(b, a, i, task);
    } else if last > 0 {
        assert forall|k: int| 0 <= k < b.len() implies times_stored((#[trigger] a[k]).wakers, task)
            <= times_stored(b[k].wakers, task) by {
            assert(a[k] == after[k]);
        }
        lemma_waiting_less(b, a, 0, task);
        assert(times_stored(a[0].wakers, task) <= times_stored(b[0].wakers, task));
    }
}

proof fn lemma_waiting_same(before: Seq<SignalView>, after: Seq<SignalView>, task: u64)
    requires
        after.len() == before.len(),
        forall|k: int|
            0 <= k < before.len() ==> times_stored((#[trigger] after[k]).wakers, task)
                == times_stored(before[k].wakers, task),
    ensures
        times_waiting(after, task) == times_waiting(before, task),
    decreases before.len(),
{
    if before.len() > 0 {
        let b = before.drop_last();
        let a = after.drop_last();
        let last = before.len() - 1;
        assert(times_stored(after[last].wakers, task) == times_stored(before[last].wakers, task));
        assert forall|k: int| 0 <= k < b.len() implies times_stored((#[trigger] a[k]).wakers, task)
            == times_stored(b[k].wakers, task) by {
            assert(a[k] == after[k]);
        }
        lemma_waiting_same(b, a, task);
    }
}

/// Emptying slots that hold no tasks forgets no task.
proof fn lemma_released_tasks(signals: Seq<SignalView>, handles: Seq<(int, int)>, task: u64)
    requires
        forall|k: int|
            0 <= k < handles.len() ==> {
                let p = (#[trigger] handles[k]).0;
                let slot = handles[k].1;
                0 <= p < signals.len() && !signals[p].canceled && 0 <= slot
                    < signals[p].wakers.len() ==> !(signals[p].wakers[slot] matches Some(
                    CancelWaker::Task(_),
                ))
            },
    ensures
        all_released(signals, handles).len() == signals.len(),
        forall|i: int|
            0 <= i < signals.len() ==> times_stored(
                (#[trigger] all_released(signals, handles)[i]).wakers,
                task,
            ) == times_stored(signals[i].wakers, task),
    decreases handles.len(),
{
    if handles.len() > 0 {
        let rest = handles.drop_last();
        let last = handles.last();
        assert forall|k: int| 0 <= k < rest.len() implies {
            let p = (#[trigger] rest[k]).0;
            let slot = rest[k].1;
            0 <= p < signals.len() && !signals[p].canceled && 0 <= slot < signals[p].wakers.len()
                ==> !(signals[p].wakers[slot] matches Some(CancelWaker::Task(_)))
        } by {
            assert(rest[k] == handles[k]);
        }
        lemma_released_tasks(signals, rest, task);
        lemma_all_released(signals, rest);
        let before = all_released(signals, rest);
        let after = all_released(signals, handles);
        assert(handles[handles.len() - 1] == last);
        if 0 <= last.0 < before.len() && !before[last.0].canceled && 0 <= last.1
            < before[last.0].wakers.len() {
            let old = before[last.0];
            assert(before[last.0].wakers[last.1] is None || before[last.0].wakers[last.1]
                == signals[last.0].wakers[last.1]);
            lemma_stored_update(old.wakers, last.1, None, task);
            assert(after[last.0].wakers == old.wakers.update(last.1, None));
        }
        assert forall|i: int| 0 <= i < signals.len() implies times_stored(
            (#[trigger] after[i]).wakers,
            task,
        ) == times_stored(signals[i].wakers, task) by {
            assert(times_stored(before[i].wakers, task) == times_stored(signals[i].wakers, task));
            if i != last.0 {
                assert(after[i] == before[i]);
            }
        }
    }
}

/// A signal that is canceled forgets its tasks, other signals keep theirs.
proof fn lemma_stopped_tasks(
    signals: Seq<SignalView>,
    signal: int,
    reason: Seq<char>,
    pending: Seq<Option<CancelWaker>>,
    task: u64,
)
    requires
        all_ok(signals, pending),
        0 <= signal < signals.len(),
        !signals[signal].canceled,
    ensures
        ({
            let after = stopped(signals, signal, reason);
            &&& after.len() == signals.len()
            &&& times_waiting(after, task) + times_stored(signals[signal].wakers, task)
                == times_waiting(signals, task)
            &&& times_stored(after[signal].wakers, task) == 0
            &&& forall|i: int|
                0 <= i < signals.len() && i != signal ==> times_stored(
                    (#[trigger] after[i]).wakers,
                    task,
                ) == times_stored(signals[i].wakers, task)
        }),
{
    let own = signals[signal];
    let first = signals.update(signal, SignalView::stopped(reason));
    assert(signal_ok(signals, signal, pending));
    lemma_waiting_update(signals, signal, SignalView::stopped(reason), task);
    assert forall|k: int| 0 <= k < own.parents.len() implies {
        let p = (#[trigger] own.parents[k]).0;
        let slot = own.parents[k].1;
        0 <= p < first.len() && !first[p].canceled && 0 <= slot < first[p].wakers.len() ==> !(
        first[p].wakers[slot] matches Some(CancelWaker::Task(_)))
    } by {
        let p = own.parents[k].0;
        if p != signal {
            assert(first[p] == signals[p]);
        }
    }
    lemma_released_tasks(first, own.parents, task);
    let after = stopped(signals, signal, reason);
    lemma_waiting_same(first, after, task);
    assert(times_stored(after[signal].wakers, task) == times_stored(first[signal].wakers, task));
    assert forall|i: int| 0 <= i < signals.len() && i != signal implies times_stored(
        (#[trigger] after[i]).wakers,
        task,
    ) == times_stored(signals[i].wakers, task) by {
        assert(first[i] == signals[i]);
    }
}

/// Telling wakers neither forgets a task nor tells it more often than it is stored.
proof fn lemma_told_tasks(
    signals: Seq<SignalView>,
    wakers: Seq<Option<CancelWaker>>,
    reason: Seq<char>,
    task: u64,
)
    requires
        all_ok(signals, wakers),
    ensures
        ({
            let (after, tasks) = told(signals, wakers, reason);
            &&& after.len() == signals.len()
            &&& times_told(tasks, task) + times_waiting(after, task) == times_waiting(
                signals,
                task,
            ) + times_stored(wakers, task)
            &&& forall|i: int|
                0 <= i < signals.len() && !(#[trigger] after[i]).canceled ==> times_stored(
                    after[i].wakers,
                    task,
                ) == times_stored(signals[i].wakers, task)
        }),
    decreases running(signals), wakers.len(),
{
    if wakers.len() > 0 {
        let rest = wakers.skip(1);
        lemma_next_ok(signals, wakers, reason);
        lemma_stored_first(wakers, task);
        match wakers[0] {
            Some(CancelWaker::Child(child)) if !signals[child as int].canceled => {
                let own = signals[child as int];
                let middle = stopped(signals, child as int, reason);
                lemma_stopped_running(signals, child as int, reason);
                lemma_stopped_tasks(signals, child as int, reason, wakers, task);
                lemma_stored_concat(own.wakers, rest, task);
                lemma_told_tasks(middle, own.wakers + rest, reason, task);
                lemma_told_ok(middle, own.wakers + rest, reason);
                let after = told(signals, wakers, reason).0;
                assert forall|i: int|
                    0 <= i < signals.len() && !(#[trigger] after[i]).canceled implies times_stored(
                    after[i].wakers,
                    task,
                ) == times_stored(signals[i].wakers, task) by {
                    let first = signals.update(child as int, SignalView::stopped(reason));
                    lemma_all_released(first, own.parents);
                    assert(middle[child as int].canceled == first[child as int].canceled);
                    if i == child {
                        assert(after[i] == middle[i]);
                    }
                    assert(times_stored(middle[i].wakers, task) == times_stored(
                        signals[i].wakers,
                        task,
                    ));
                }
            },
            Some(CancelWaker::Task(number)) => {
                lemma_told_tasks(signals, rest, reason, task);
                let later = told(signals, rest, reason).1;
                let tasks = seq![number] + later;
                assert(tasks.skip(1) == later);
            },
            _ => {
                lemma_told_tasks(signals, rest, reason, task);
            },
        }
    }
}

/// A cancellation tells each task as often as it leaves the slots: those of the
/// signals that are canceled by it are told and gone, those of all other signals stay.
/// A second cancellation tells nothing.
pub proof fn law_tasks_are_told_as_they_leave(
    signals: Seq<SignalView>,
    top: int,
    reason: Seq<char>,
    again: Seq<char>,
    task: u64,
)
    requires
        signals_ok(signals),
        0 <= top < signals.len(),
    ensures
        ({
            let (after, tasks) = canceled(signals, top, reason);
            &&& after.len() == signals.len()
            &&& times_told(tasks, task) + times_waiting(after, task) == times_waiting(
                signals,
                task,
            )
            &&& forall|i: int|
                0 <= i < signals.len() ==> times_stored(
                    (#[trigger] after[i]).wakers,
                    task,
                ) == if after[i].canceled {
                    0
                } else {
                    times_stored(signals[i].wakers, task)
                }
            &&& canceled(after, top, again).1 == Seq::<u64>::empty()
        }),
{
    let (after, tasks) = canceled(signals, top, reason);
    lemma_canceled_ok(signals, top, reason);
    if !signals[top].canceled {
        let own = signals[top];
        let middle = stopped(signals, top, reason);
        assert(signal_ok(signals, top, seq![]));
        lemma_stopped_ok(signals, top, reason, seq![], own.wakers);
        lemma_stopped_tasks(signals, top, reason, seq![], task);
        lemma_told_tasks(middle, own.wakers, reason, task);
    }
    assert forall|i: int| 0 <= i < signals.len() implies times_stored(
        (#[trigger] after[i]).wakers,
        task,
    ) == if after[i].canceled {
        0
    } else {
        times_stored(signals[i].wakers, task)
    } by {
        assert(signal_ok(after, i, seq![]));
        if !after[i].canceled && !signals[top].canceled {
            assert(i != top);
            let middle = stopped(signals, top, reason);
            assert(times_stored(middle[i].wakers, task) == times_stored(signals[i].wakers, task));
        }
    }
}

/// A task that stands in one slot of a signal and nowhere else is told once if that
/// signal, or one that it is below, is canceled. A task that stands nowhere is not
/// told.
pub proof fn law_stored_tasks_are_told_once(
    signals: Seq<SignalView>,
    top: int,
    signal: int,
    steps: nat,
    reason: Seq<char>,
    task: u64,
)
    requires
        signals_ok(signals),
        0 <= top < signals.len(),
        !signals[top].canceled,
        0 <= signal < signals.len(),
        is_below(signals, top, signal, steps),
    ensures
        ({
            let (after, tasks) = canceled(signals, top, reason);
            let stored = times_stored(signals[signal].wakers, task);
            &&& times_waiting(signals, task) == stored ==> times_told(tasks, task) == stored
                && times_waiting(after, task) == 0
            &&& times_waiting(signals, task) == 0 ==> times_told(tasks, task) == 0
        }),
{
    let (after, tasks) = canceled(signals, top, reason);
    law_tasks_are_told_as_they_leave(signals, top, reason, reason, task);
    law_signals_below_are_canceled(signals, top, signal, reason);
    lemma_canceled_ok(signals, top, reason);
    assert(times_stored(after[signal].wakers, task) == 0) by {
        assert(signal_ok(after, signal, seq![]));
    }
    lemma_waiting_less(signals, after, signal, task);
}

/// What storing a task in a slot changes.
proof fn lemma_task_counts(
    signals: Seq<SignalView>,
    at: int,
    slot: int,
    task: u64,
    other: u64,
)
    requires
        0 <= at < signals.len(),
        0 <= slot <= signals[at].wakers.len(),
    ensures
        ({
            let after = stored(signals, at, slot, CancelWaker::Task(task));
            let wakers = signals[at].wakers;
            let gone: int = if slot < wakers.len() && wakers[slot] == Some(
                CancelWaker::Task(other),
            ) {
                1
            } else {
                0
            };
            let come: int = if task == other {
                1
            } else {
                0
            };
            &&& times_waiting(after, other) + gone == times_waiting(signals, other) + come
            &&& times_stored(after[at].wakers, other) + gone == times_stored(wakers, other) + come
        }),
{
    let old = signals[at];
    let more = with_waker(old.wakers, slot, CancelWaker::Task(task));
    if slot < old.wakers.len() {
        lemma_stored_update(old.wakers, slot, Some(CancelWaker::Task(task)), other);
    } else {
        assert(more.drop_last() == old.wakers);
    }
    lemma_waiting_update(signals, at, SignalView { wakers: more, ..old }, other);
}

/// A task that is stored somewhere is counted.
proof fn lemma_counted(signals: Seq<SignalView>, i: int, slot: int, task: u64)
    requires
        0 <= i < signals.len(),
        0 <= slot < signals[i].wakers.len(),
        signals[i].wakers[slot] == Some(CancelWaker::Task(task)),
    ensures
        times_stored(signals[i].wakers, task) > 0,
        times_waiting(signals, task) > 0,
{
    lemma_stored_update(signals[i].wakers, slot, None, task);
    let emptied = SignalView { wakers: seq![], ..signals[i] };
    lemma_waiting_update(signals, i, emptied, task);
}

/// What holds after a future waits with a task that stood nowhere.
proof fn lemma_waits(
    before: WaitForCancelSignalFuture,
    signals: Seq<SignalView>,
    task: u64,
    after: WaitForCancelSignalFuture,
    changed: Seq<SignalView>,
)
    requires
        signals_ok(signals),
        before.ok(signals),
        !signals[before.signal().at()].canceled,
        waiting(before, signals, task, after, changed),
        after.signal() == before.signal(),
        times_waiting(signals, task) == 0,
    ensures
        ({
            let at = before.signal().at();
            let slot = after.slot()->0;
            &&& signals_ok(changed)
            &&& changed.len() == signals.len()
            &&& after.ok(changed)
            &&& !changed[at].canceled
            &&& after.slot() is Some
            &&& 0 <= slot < changed[at].wakers.len()
            &&& changed[at].wakers[slot] == Some(CancelWaker::Task(task))
            &&& times_waiting(changed, task) == 1
            &&& times_stored(changed[at].wakers, task) == 1
        }),
{
    let at = before.signal().at();
    let wakers = signals[at].wakers;
    lemma_free_slot(wakers, 0);
    let slot = after.slot()->0;
    lemma_task_stored(signals, at, slot, task);
    lemma_task_counts(signals, at, slot, task, task);
    if slot < wakers.len() && wakers[slot] == Some(CancelWaker::Task(task)) {
        lemma_counted(signals, at, slot, task);
    }
    let whole = SignalView { wakers: seq![], ..signals[at] };
    lemma_waiting_update(signals, at, whole, task);
}

/// A task that a future waits with is told once when the signal is canceled, and so it
/// is if the future was forgotten.
pub proof fn law_forgotten_tasks_are_told_once(
    before: WaitForCancelSignalFuture,
    signals: Seq<SignalView>,
    task: u64,
    after: WaitForCancelSignalFuture,
    changed: Seq<SignalView>,
    forgotten: WaitForCancelSignalFuture,
    reason: Seq<char>,
)
    requires
        signals_ok(signals),
        before.ok(signals),
        !signals[before.signal().at()].canceled,
        times_waiting(signals, task) == 0,
        waiting(before, signals, task, after, changed),
        after.signal() == before.signal(),
        forgotten.signal() == after.signal(),
        forgotten.slot() is None,
    ensures
        times_told(canceled(changed, after.signal().at(), reason).1, task) == 1,
        times_told(
            canceled(forgotten.let_go(changed), after.signal().at(), reason).1,
            task,
        ) == 1,
{
    let at = before.signal().at();
    lemma_waits(before, signals, task, after, changed);
    assert(is_below(changed, at, at, 0));
    law_stored_tasks_are_told_once(changed, at, at, 0, reason, task);
}

/// A task of a future that was let go of is never told.
pub proof fn law_released_tasks_are_not_told(
    before: WaitForCancelSignalFuture,
    signals: Seq<SignalView>,
    task: u64,
    after: WaitForCancelSignalFuture,
    changed: Seq<SignalView>,
    top: int,
    reason: Seq<char>,
)
    requires
        signals_ok(signals),
        before.ok(signals),
        !signals[before.signal().at()].canceled,
        times_waiting(signals, task) == 0,
        waiting(before, signals, task, after, changed),
        after.signal() == before.signal(),
        0 <= top < signals.len(),
    ensures
        times_waiting(after.let_go(changed), task) == 0,
        times_told(canceled(after.let_go(changed), top, reason).1, task) == 0,
{
    let at = before.signal().at();
    lemma_waits(before, signals, task, after, changed);
    let slot = after.slot()->0;
    let old = changed[at];
    lemma_task_released(changed, at, slot);
    lemma_stored_update(old.wakers, slot, None, task);
    lemma_waiting_update(
        changed,
        at,
        SignalView { wakers: old.wakers.update(slot, None), ..old },
        task,
    );
    law_tasks_are_told_as_they_leave(after.let_go(changed), top, reason, reason, task);
}

/// If a future waits with one task and then with another, only the second one is told,
/// once. All other slots stay as they were.
pub proof fn law_only_the_last_task_is_told(
    before: WaitForCancelSignalFuture,
    signals: Seq<SignalView>,
    first: u64,
    middle: WaitForCancelSignalFuture,
    once: Seq<SignalView>,
    second: u64,
    after: WaitForCancelSignalFuture,
    twice: Seq<SignalView>,
    reason: Seq<char>,
)
    requires
        signals_ok(signals),
        before.ok(signals),
        !signals[before.signal().at()].canceled,
        first != second,
        times_waiting(signals, first) == 0,
        times_waiting(signals, second) == 0,
        waiting(before, signals, first, middle, once),
        middle.signal() == before.signal(),
        waiting(middle, once, second, after, twice),
        after.signal() == before.signal(),
    ensures
        ({
            let at = before.signal().at();
            let tasks = canceled(twice, at, reason).1;
            &&& times_told(tasks, first) == 0
            &&& times_told(tasks, second) == 1
            &&& after.slot() is Some
            &&& forall|i: int, k: int|
                #![trigger signals[i].wakers[k]]
                0 <= i < signals.len() && 0 <= k < signals[i].wakers.len() && (i, k) != (
                    at,
                    after.slot()->0,
                ) ==> twice[i].wakers[k] == signals[i].wakers[k]
        }),
{
    let at = before.signal().at();
    lemma_waits(before, signals, first, middle, once);
    let slot = middle.slot()->0;
    lemma_free_slot(signals[at].wakers, 0);
    lemma_task_counts(signals, at, slot, first, second);
    lemma_waits(middle, once, second, after, twice);
    lemma_task_counts(once, at, slot, second, first);
    assert(is_below(twice, at, at, 0));
    law_stored_tasks_are_told_once(twice, at, at, 0, reason, second);
    law_stored_tasks_are_told_once(twice, at, at, 0, reason, first);
}

/// A signal that gets a parent that is canceled already is canceled with the same reason,
/// unless it was canceled before. The parent stays as it is.
pub proof fn law_canceled_parents_cancel(signals: Seq<SignalView>, child: int, parent: int)
    requires
        signals_ok(signals),
        0 <= child < signals.len(),
        0 <= parent < signals.len(),
        signals[parent].canceled,
    ensures
        ({
            let after = with_parent(signals, child, parent).0;
            &&& after[child].canceled
            &&& !signals[child].canceled ==> after[child].reason == signals[parent].reason
            &&& signals[child].canceled ==> after == signals
            &&& after[parent] == signals[parent]
        }),
{
    if !signals[child].canceled {
        assert(is_below(signals, child, child, 0));
        law_signals_below_are_canceled(signals, child, child, signals[parent].reason);
        law_signals_below_are_canceled(signals, child, parent, signals[parent].reason);
    }
}

/// The texts of errors about different reasons differ.
pub proof fn law_errors_tell_the_reason(a: Seq<char>, b: Seq<char>)
    requires
        error_text(a) == error_text(b),
    ensures
        a == b,
{
    reveal_strlit("Operation canceled");
    reveal_strlit("Operation canceled in response to ");
    let start = "Operation canceled in response to "@;
    assert((start + a).skip(start.len() as int) == a);
    assert((start + b).skip(start.len() as int) == b);
    if a.len() == 0 && b.len() > 0 {
        assert(error_text(b).len() == start.len() + b.len());
    }
    if b.len() == 0 && a.len() > 0 {
        assert(error_text(a).len() == start.len() + a.len());
    }
    if a.len() == 0 && b.len() == 0 {
        assert(a == b);
    }
}

} // verus!
