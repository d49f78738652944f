//! The ordered dispatcher: results are released in source order.

use vstd::prelude::*;

use crate::model::DispatchModel;
use crate::model::SnapshotModel;
use crate::model::init_model;

verus! {

/// A pull-driven dispatcher that keeps at most `max` workers in flight and
/// releases results in source order: each pull waits for the worker at the
/// head of the window, so a worker that finishes early stays buffered until
/// its turn.
pub struct TasksOrdered<C, F> {
    items: Vec<C>,
    window: Vec<C>,
    max: usize,
    f: F,
}

/// A suspended [`TasksOrdered`]: the un-dispatched items, the window
/// capacity and the mapping function, captured while no worker was in
/// flight.
pub struct SerializedTasksOrdered<C, F> {
    items: Vec<C>,
    max: usize,
    f: F,
}

impl<C, F> View for TasksOrdered<C, F> {
    type V = DispatchModel<C, F>;

    closed spec fn view(&self) -> DispatchModel<C, F> {
        DispatchModel {
            remaining: self.items@,
            window: self.window@,
            max: self.max as nat,
            f: self.f,
        }
    }
}

impl<C, F> View for SerializedTasksOrdered<C, F> {
    type V = SnapshotModel<C, F>;

    closed spec fn view(&self) -> SnapshotModel<C, F> {
        SnapshotModel { items: self.items@, max: self.max as nat, f: self.f }
    }
}

impl<C, F> TasksOrdered<C, F> {
    /// The window capacity is positive and never exceeded.
    pub open spec fn wf(&self) -> bool {
        self@.wf()
    }

    /// Builds a dispatcher over `items` with window capacity `n`. A capacity
    /// of zero is invalid; [`TasksOrdered::try_new`] rejects it as a value.
    pub fn new(items: Vec<C>, n: usize, f: F) -> (t: Self)
        requires
            n >= 1,
        ensures
            t@ == init_model(items@, n as nat, f),
            t.wf(),
    {
        let ghost source = items@;
        let t = TasksOrdered { items, window: Vec::new(), max: n, f };
        proof {
            assert(t@ =~= init_model(source, n as nat, f));
        }
        t
    }

    /// Builds a dispatcher, rejecting a window capacity of zero.
    pub fn try_new(items: Vec<C>, n: usize, f: F) -> (r: Option<Self>)
        ensures
            (match r {
                Some(t) => n >= 1 && t@ == init_model(items@, n as nat, f) && t.wf(),
                None => n == 0,
            }),
    {
        if n == 0 {
            None
        } else {
            Some(Self::new(items, n, f))
        }
    }
}

impl<C, F> SerializedTasksOrdered<C, F> {
    /// Reconstructs a dispatcher from a snapshot: the captured items become
    /// the source, in their original order, and no worker is in flight.
    pub fn deserialize(self) -> (t: TasksOrdered<C, F>)
        ensures
            t@ == self@.restore_model(),
            self@.wf() ==> t.wf(),
    {
        let ghost s0 = self@;
        let t = TasksOrdered { items: self.items, window: Vec::new(), max: self.max, f: self.f };
        proof {
            assert(t@ =~= s0.restore_model());
        }
        t
    }
}

impl<C, F> TasksOrdered<C, F> {
    /// Suspends an idle dispatcher into a snapshot of its un-dispatched
    /// items. Suspending while a worker is in flight would lose that
    /// worker's result, so the in-flight case is excluded here;
    /// [`TasksOrdered::try_serialize`] reports it as a value instead.
    pub fn serialize(self) -> (s: SerializedTasksOrdered<C, F>)
        requires
            self@.idle(),
        ensures
            s@ == self@.snapshot_model(),
    {
        SerializedTasksOrdered { items: self.items, max: self.max, f: self.f }
    }

    /// Suspends the dispatcher if it is idle; with at least one worker in
    /// flight it refuses, handing the dispatcher back unchanged rather than
    /// dropping in-flight work.
    pub fn try_serialize(self) -> (r: Result<SerializedTasksOrdered<C, F>, Self>)
        ensures
            (match r {
                Ok(s) => self@.idle() && s@ == self@.snapshot_model(),
                Err(t) => !self@.idle() && t@ == self@,
            }),
    {
        if self.window.len() == 0 {
            Ok(self.serialize())
        } else {
            Err(self)
        }
    }
}

impl<C, M, F: Fn(C) -> M> TasksOrdered<C, F> {
    /// One pull: refill the window from the source (one worker per free
    /// slot, stopping when the source is exhausted), then wait for the
    /// worker at the head of the window and release its result. Returns
    /// `None` exactly when the source is exhausted and nothing is in
    /// flight.
    pub fn next(&mut self) -> (r: Option<M>)
        requires
            old(self).wf(),
            forall|i: int|
                0 <= i < old(self)@.remaining.len() ==> call_requires(
                    old(self)@.f,
                    (old(self)@.remaining[i],),
                ),
            forall|i: int|
                0 <= i < old(self)@.window.len() ==> call_requires(
                    old(self)@.f,
                    (old(self)@.window[i],),
                ),
        ensures
            final(self).wf(),
            final(self)@ == old(self)@.step_state(0),
            (match r {
                None => old(self)@.step_emit(0) is None,
                Some(m) => old(self)@.step_emit(0) is Some && call_ensures(
                    old(self)@.f,
                    (old(self)@.step_emit(0)->Some_0,),
                    m,
                ),
            }),
    {
        let ghost v0 = self@;
        let deficit = self.max - self.window.len();
        let mut j: usize = 0;
        while j < deficit && self.items.len() > 0
            invariant
                j <= v0.fill_count(),
                deficit == v0.deficit(),
                self@.max == v0.max,
                self@.f == v0.f,
                self@.window == v0.window + v0.remaining.take(j as int),
                self@.remaining == v0.remaining.skip(j as int),
            decreases v0.remaining.len() - j,
        {
            let c = self.items.remove(0);
            self.window.push(c);
            proof {
                assert(self@.window =~= v0.window + v0.remaining.take(j + 1 as int));
                assert(self@.remaining =~= v0.remaining.skip(j + 1 as int));
            }
            j += 1;
        }
        proof {
            assert(j == v0.fill_count());
            assert(self@ =~= v0.filled());
        }
        if self.window.len() == 0 {
            return None;
        }
        let c = self.window.remove(0);
        proof {
            assert(c == v0.filled().window[0]);
            assert(call_requires(v0.f, (c,))) by {
                if v0.window.len() > 0 {
                    assert(v0.filled().window[0] == v0.window[0]);
                } else {
                    assert(v0.filled().window[0] == v0.remaining.take(
                        v0.fill_count() as int,
                    )[0]);
                    assert(v0.remaining.take(v0.fill_count() as int)[0] == v0.remaining[0]);
                }
            }
            assert(self@ =~= v0.step_state(0));
        }
        let m = (self.f)(c);
        Some(m)
    }
}

} // verus!
