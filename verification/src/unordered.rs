//! The unordered dispatcher: results are released in completion order.

use vstd::prelude::*;

use crate::model::DispatchModel;
use crate::model::SnapshotModel;
use crate::model::init_model;

verus! {

/// A pull-driven dispatcher that keeps at most `max` workers in flight and
/// releases whichever in-flight result arrives first. Arrival order is an
/// input of each pull: a window position, standing for the worker whose
/// completion message is taken.
pub struct TasksUnordered<C, F> {
    items: Vec<C>,
    window: Vec<C>,
    max: usize,
    f: F,
}

/// A suspended [`TasksUnordered`]: the un-dispatched items, the window
/// capacity and the mapping function, captured while no worker was in
/// flight.
pub struct SerializedTasksUnordered<C, F> {
    items: Vec<C>,
    max: usize,
    f: F,
}

impl<C, F> View for TasksUnordered<C, F> {
    type V = DispatchModel<C, F>;

    closed spec fn view(&self) -> DispatchModel<C, F> {
        DispatchModel {
            remaining: self.items@,
            window: self.window@,
            max: self.max as nat,
            f: self.f,
        }
    }
}

impl<C, F> View for SerializedTasksUnordered<C, F> {
    type V = SnapshotModel<C, F>;

    closed spec fn view(&self) -> SnapshotModel<C, F> {
        SnapshotModel { items: self.items@, max: self.max as nat, f: self.f }
    }
}

impl<C, F> TasksUnordered<C, F> {
    /// The window capacity is positive and never exceeded.
    pub open spec fn wf(&self) -> bool {
        self@.wf()
    }

    /// Builds a dispatcher over `items` with window capacity `n`. A capacity
    /// of zero is invalid; [`TasksUnordered::try_new`] rejects it as a value.
    pub fn new(items: Vec<C>, n: usize, f: F) -> (t: Self)
        requires
            n >= 1,
        ensures
            t@ == init_model(items@, n as nat, f),
            t.wf(),
    {
        let ghost source = items@;
        let t = TasksUnordered { items, window: Vec::new(), max: n, f };
        proof {
            assert(t@ =~= init_model(source, n as nat, f));
        }
        t
    }

    /// Builds a dispatcher, rejecting a window capacity of zero.
    pub fn try_new(items: Vec<C>, n: usize, f: F) -> (r: Option<Self>)
        ensures
            (match r {
                Some(t) => n >= 1 && t@ == init_model(items@, n as nat, f) && t.wf(),
                None => n == 0,
            }),
    {
        if n == 0 {
            None
        } else {
            Some(Self::new(items, n, f))
        }
    }
}

impl<C, F> SerializedTasksUnordered<C, F> {
    /// Reconstructs a dispatcher from a snapshot: the captured items become
    /// the source, in their original order, and no worker is in flight.
    pub fn deserialize(self) -> (t: TasksUnordered<C, F>)
        ensures
            t@ == self@.restore_model(),
            self@.wf() ==> t.wf(),
    {
        let ghost s0 = self@;
        let t = TasksUnordered { items: self.items, window: Vec::new(), max: self.max, f: self.f };
        proof {
            assert(t@ =~= s0.restore_model());
        }
        t
    }
}

impl<C, F> TasksUnordered<C, F> {
    /// Suspends an idle dispatcher into a snapshot of its un-dispatched
    /// items. Suspending while a worker is in flight would lose that
    /// worker's result, so the in-flight case is excluded here;
    /// [`TasksUnordered::try_serialize`] reports it as a value instead.
    pub fn serialize(self) -> (s: SerializedTasksUnordered<C, F>)
        requires
            self@.idle(),
        ensures
            s@ == self@.snapshot_model(),
    {
        SerializedTasksUnordered { items: self.items, max: self.max, f: self.f }
    }

    /// Suspends the dispatcher if it is idle; with at least one worker in
    /// flight it refuses, handing the dispatcher back unchanged rather than
    /// dropping in-flight work.
    pub fn try_serialize(self) -> (r: Result<SerializedTasksUnordered<C, F>, Self>)
        ensures
            (match r {
                Ok(s) => self@.idle() && s@ == self@.snapshot_model(),
                Err(t) => !self@.idle() && t@ == self@,
            }),
    {
        if self.window.len() == 0 {
            Ok(self.serialize())
        } else {
            Err(self)
        }
    }
}

impl<C, M, F: Fn(C) -> M> TasksUnordered<C, F> {
    /// One pull: refill the window from the source (one worker per free
    /// slot, stopping when the source is exhausted), then take the
    /// completion message that arrives first and release its result.
    /// `pick` is the window position of the worker that completes first; a
    /// position out of range falls back to the head. Returns `None` exactly
    /// when the source is exhausted and nothing is in flight.
    pub fn next_pick(&mut self, pick: usize) -> (r: Option<M>)
        requires
            old(self).wf(),
            forall|i: int|
                0 <= i < old(self)@.remaining.len() ==> call_requires(
                    old(self)@.f,
                    (old(self)@.remaining[i],),
                ),
            forall|i: int|
                0 <= i < old(self)@.window.len() ==> call_requires(
                    old(self)@.f,
                    (old(self)@.window[i],),
                ),
        ensures
            final(self).wf(),
            final(self)@ == old(self)@.step_state(pick as int),
            (match r {
                None => old(self)@.step_emit(pick as int) is None,
                Some(m) => old(self)@.step_emit(pick as int) is Some && call_ensures(
                    old(self)@.f,
                    (old(self)@.step_emit(pick as int)->Some_0,),
                    m,
                ),
            }),
    {
        let ghost v0 = self@;
        let deficit = self.max - self.window.len();
        let mut j: usize = 0;
        while j < deficit && self.items.len() > 0
            invariant
                j <= v0.fill_count(),
                deficit == v0.deficit(),
                self@.max == v0.max,
                self@.f == v0.f,
                self@.window == v0.window + v0.remaining.take(j as int),
                self@.remaining == v0.remaining.skip(j as int),
            decreases v0.remaining.len() - j,
        {
            let c = self.items.remove(0);
            self.window.push(c);
            proof {
                assert(self@.window =~= v0.window + v0.remaining.take(j + 1 as int));
                assert(self@.remaining =~= v0.remaining.skip(j + 1 as int));
            }
            j += 1;
        }
        proof {
            assert(j == v0.fill_count());
            assert(self@ =~= v0.filled());
        }
        if self.window.len() == 0 {
            return None;
        }
        let p = if pick < self.window.len() {
            pick
        } else {
            0
        };
        let c = self.window.remove(p);
        proof {
            assert(p == v0.filled().pick_index(pick as int));
            assert(c == v0.filled().window[p as int]);
            assert(call_requires(v0.f, (c,))) by {
                if (p as int) < v0.window.len() {
                    assert(v0.filled().window[p as int] == v0.window[p as int]);
                } else {
                    let q = p - v0.window.len();
                    assert(v0.filled().window[p as int] == v0.remaining.take(
                        v0.fill_count() as int,
                    )[q]);
                    assert(v0.remaining.take(v0.fill_count() as int)[q] == v0.remaining[q]);
                }
            }
            assert(self@ =~= v0.step_state(pick as int));
        }
        let m = (self.f)(c);
        Some(m)
    }

    /// One pull that takes the head of the window: the completion order of
    /// a run driven by `next` alone is the spawn order.
    pub fn next(&mut self) -> (r: Option<M>)
        requires
            old(self).wf(),
            forall|i: int|
                0 <= i < old(self)@.remaining.len() ==> call_requires(
                    old(self)@.f,
                    (old(self)@.remaining[i],),
                ),
            forall|i: int|
                0 <= i < old(self)@.window.len() ==> call_requires(
                    old(self)@.f,
                    (old(self)@.window[i],),
                ),
        ensures
            final(self).wf(),
            final(self)@ == old(self)@.step_state(0),
            (match r {
                None => old(self)@.step_emit(0) is None,
                Some(m) => old(self)@.step_emit(0) is Some && call_ensures(
                    old(self)@.f,
                    (old(self)@.step_emit(0)->Some_0,),
                    m,
                ),
            }),
    {
        self.next_pick(0)
    }
}

} // verus!
