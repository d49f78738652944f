//! The mathematical model of a bounded-window task dispatcher.
//!
//! A dispatcher owns a sequence of not-yet-dispatched inputs, a window of
//! captured inputs whose workers are in flight, a window capacity, and the
//! mapping function. Each pull first refills the window from the source (one
//! worker per consumed input, at most `max` outstanding), then releases
//! exactly one in-flight entry: the head of the window in ordered mode, or
//! any window position in unordered mode (the position models which worker's
//! completion message arrives first).
//!
//! The proof functions here state the engine's guarantees over this model:
//! the in-flight bound is preserved by every pull; an unordered run is a
//! permutation of the ordered one and releases the same multiset of inputs
//! under every schedule; the head-only schedule releases the source in
//! order; a capacity beyond the source length changes nothing; and an idle
//! snapshot restores the dispatcher exactly.

use vstd::prelude::*;

verus! {

/// Abstract state of a dispatcher.
///
/// `remaining` are the source items not yet dispatched, in source order;
/// `window` holds the captured inputs of the in-flight workers, in spawn
/// order; `max` is the window capacity; `f` is the mapping function carried
/// to each worker.
#[verifier::ext_equal]
#[verifier::reject_recursive_types(C)]
pub ghost struct DispatchModel<C, F> {
    pub remaining: Seq<C>,
    pub window: Seq<C>,
    pub max: nat,
    pub f: F,
}

/// Abstract content of a suspended dispatcher: the un-dispatched items in
/// source order, the window capacity, and the mapping function. There is no
/// window: a snapshot is only taken while no worker is in flight.
#[verifier::ext_equal]
#[verifier::reject_recursive_types(C)]
pub ghost struct SnapshotModel<C, F> {
    pub items: Seq<C>,
    pub max: nat,
    pub f: F,
}

/// The state of a freshly constructed dispatcher: the whole source is still
/// pending and no worker is in flight.
pub open spec fn init_model<C, F>(source: Seq<C>, n: nat, f: F) -> DispatchModel<C, F> {
    DispatchModel { remaining: source, window: Seq::empty(), max: n, f }
}

impl<C, F> DispatchModel<C, F> {
    /// A dispatcher is well formed when its capacity is positive and the
    /// number of outstanding workers never exceeds it.
    pub open spec fn wf(self) -> bool {
        &&& self.max >= 1
        &&& self.window.len() <= self.max
    }

    /// No worker is in flight.
    pub open spec fn idle(self) -> bool {
        self.window.len() == 0
    }

    /// How many window slots are free.
    pub open spec fn deficit(self) -> nat {
        if self.window.len() >= self.max {
            0
        } else {
            (self.max - self.window.len()) as nat
        }
    }

    /// How many workers one refill spawns: one per free slot, stopping early
    /// when the source runs out.
    pub open spec fn fill_count(self) -> nat {
        if self.deficit() <= self.remaining.len() {
            self.deficit()
        } else {
            self.remaining.len()
        }
    }

    /// The state after the refill phase of a pull: `fill_count` items move
    /// from the source to the end of the window, in source order.
    pub open spec fn filled(self) -> DispatchModel<C, F> {
        DispatchModel {
            remaining: self.remaining.skip(self.fill_count() as int),
            window: self.window + self.remaining.take(self.fill_count() as int),
            max: self.max,
            f: self.f,
        }
    }

    /// The window position released by a pull. `pick` models which in-flight
    /// worker's completion message is taken; a position out of range falls
    /// back to the head of the window.
    pub open spec fn pick_index(self, pick: int) -> int {
        if 0 <= pick < self.window.len() {
            pick
        } else {
            0
        }
    }

    /// The dispatcher state after one whole pull: refill, then remove the
    /// released window entry. When the refilled window is empty (source
    /// exhausted, nothing in flight) the pull releases nothing.
    pub open spec fn step_state(self, pick: int) -> DispatchModel<C, F> {
        let v = self.filled();
        if v.window.len() == 0 {
            v
        } else {
            DispatchModel {
                remaining: v.remaining,
                window: v.window.remove(v.pick_index(pick)),
                max: v.max,
                f: v.f,
            }
        }
    }

    /// The input whose worker a pull releases, or `None` when the pull
    /// signals exhaustion.
    pub open spec fn step_emit(self, pick: int) -> Option<C> {
        let v = self.filled();
        if v.window.len() == 0 {
            None
        } else {
            Some(v.window[v.pick_index(pick)])
        }
    }

    /// The snapshot a suspension takes: everything not yet dispatched, in
    /// source order, with the capacity and the mapping function.
    pub open spec fn snapshot_model(self) -> SnapshotModel<C, F> {
        SnapshotModel { items: self.remaining, max: self.max, f: self.f }
    }
}

impl<C, F> SnapshotModel<C, F> {
    /// A snapshot is well formed when its capacity is positive.
    pub open spec fn wf(self) -> bool {
        self.max >= 1
    }

    /// The dispatcher a snapshot reconstructs: the captured items become the
    /// source, and no worker is in flight.
    pub open spec fn restore_model(self) -> DispatchModel<C, F> {
        DispatchModel { remaining: self.items, window: Seq::empty(), max: self.max, f: self.f }
    }
}

/// No index occurs twice in `s`.
pub open spec fn distinct_indices(s: Seq<int>) -> bool {
    forall|i: int, j: int| 0 <= i < j < s.len() ==> s[i] != s[j]
}

/// `p` lists each index below `n` exactly once.
pub open spec fn is_index_permutation(p: Seq<int>, n: nat) -> bool {
    &&& p.len() == n
    &&& forall|i: int| 0 <= i < p.len() ==> 0 <= #[trigger] p[i] < n
    &&& forall|i: int, j: int| 0 <= i < j < p.len() ==> p[i] != p[j]
}

/// Where `a[x]` stands in `a` after the entry at `p` has been released: the
/// released entry moves to the end of the delivered part, and the entries
/// behind it close the gap.
spec fn release_pos(np: int, p: int, x: int) -> int {
    if x < np {
        x
    } else if x == np {
        np + p
    } else if x - np - 1 < p {
        x - 1
    } else {
        x
    }
}

/// Filling the window with fresh source indices keeps the delivered and
/// in-flight indices distinct: every index already present is below `base`,
/// and the refill appends `base`, `base + 1`, ...
proof fn lemma_distinct_after_fill(pidx: Seq<int>, widx: Seq<int>, base: int, fc: nat)
    requires
        distinct_indices(pidx + widx),
        forall|i: int| 0 <= i < pidx.len() ==> #[trigger] pidx[i] < base,
        forall|i: int| 0 <= i < widx.len() ==> #[trigger] widx[i] < base,
    ensures
        distinct_indices(pidx + (widx + Seq::new(fc, |i: int| base + i))),
{
    let a = pidx + (widx + Seq::new(fc, |i: int| base + i));
    let old_len = pidx.len() + widx.len();
    assert forall|i: int, j: int| 0 <= i < j < a.len() implies a[i] != a[j] by {
        if j < old_len {
            assert(a[i] == (pidx + widx)[i]);
            assert(a[j] == (pidx + widx)[j]);
        } else if i < old_len {
            assert(a[i] == (pidx + widx)[i]);
            assert(a[i] < base);
            assert(a[j] == base + (j - old_len));
        } else {
            assert(a[i] == base + (i - old_len));
            assert(a[j] == base + (j - old_len));
        }
    }
}

/// Releasing the in-flight entry at window position `p` (its index moves to
/// the end of the delivered part) keeps the delivered and in-flight indices
/// distinct.
proof fn lemma_distinct_after_release(pidx: Seq<int>, widx: Seq<int>, p: int)
    requires
        distinct_indices(pidx + widx),
        0 <= p < widx.len(),
    ensures
        distinct_indices(pidx.push(widx[p]) + widx.remove(p)),
{
    let a = pidx + widx;
    let b = pidx.push(widx[p]) + widx.remove(p);
    let np = pidx.len() as int;
    assert(b.len() == a.len());
    assert forall|x: int| 0 <= x < b.len() implies b[x] == a[release_pos(np, p, x)] by {
        if x < np {
            assert(b[x] == pidx[x]);
        } else if x == np {
            assert(b[x] == widx[p]);
            assert(a[np + p] == widx[p]);
        } else if x - np - 1 < p {
            assert(b[x] == widx.remove(p)[x - np - 1]);
            assert(widx.remove(p)[x - np - 1] == widx[x - np - 1]);
        } else {
            assert(b[x] == widx.remove(p)[x - np - 1]);
            assert(widx.remove(p)[x - np - 1] == widx[x - np]);
        }
    }
    assert forall|i: int, j: int| 0 <= i < j < b.len() implies b[i] != b[j] by {
        assert(b[i] == a[release_pos(np, p, i)]);
        assert(b[j] == a[release_pos(np, p, j)]);
        assert(release_pos(np, p, i) != release_pos(np, p, j));
    }
}

/// The delivered and in-flight source indices stay distinct across one
/// whole pull: a refill appends fresh indices to the window, and the
/// release moves one window index to the delivered part.
pub(crate) proof fn lemma_distinct_after_pull(
    pidx: Seq<int>,
    widx: Seq<int>,
    base: int,
    fc: nat,
    p: int,
)
    requires
        distinct_indices(pidx + widx),
        forall|i: int| 0 <= i < pidx.len() ==> #[trigger] pidx[i] < base,
        forall|i: int| 0 <= i < widx.len() ==> #[trigger] widx[i] < base,
        0 <= p < widx.len() + fc,
    ensures
        ({
            let filled = widx + Seq::new(fc, |i: int| base + i);
            distinct_indices(pidx.push(filled[p]) + filled.remove(p))
        }),
{
    let filled = widx + Seq::new(fc, |i: int| base + i);
    lemma_distinct_after_fill(pidx, widx, base, fc);
    lemma_distinct_after_release(pidx, filled, p);
}

/// One pull never leaves more than the capacity in flight, whatever the
/// source length: the refill stops at the capacity, and the release then
/// frees one slot. The bound holds at the pull's peak, right after the
/// refill, not only between pulls.
pub proof fn lemma_step_preserves_wf<C, F>(v: DispatchModel<C, F>, pick: int)
    requires
        v.wf(),
    ensures
        v.step_state(pick).wf(),
        v.filled().window.len() <= v.max,
{
}

/// A sequence that rearranges another through an index permutation holds
/// the same multiset of elements.
pub proof fn lemma_permuted_image_to_multiset<A>(o: Seq<A>, u: Seq<A>, p: Seq<int>)
    requires
        is_index_permutation(p, o.len()),
        u.len() == o.len(),
        forall|i: int| 0 <= i < u.len() ==> u[i] == o[#[trigger] p[i]],
    ensures
        u.to_multiset() == o.to_multiset(),
    decreases u.len(),
{
    broadcast use vstd::seq_lib::group_to_multiset_ensures;
    broadcast use vstd::multiset::group_multiset_axioms;

    if u.len() == 0 {
        assert(u =~= Seq::<A>::empty());
        assert(o =~= Seq::<A>::empty());
        assert(u.to_multiset() =~= o.to_multiset());
    } else {
        let n = u.len() as int;
        let j = p[n - 1];
        let u2 = u.drop_last();
        let o2 = o.remove(j);
        let p2 = Seq::new(
            (n - 1) as nat,
            |i: int|
                if p[i] < j {
                    p[i]
                } else {
                    p[i] - 1
                },
        );
        assert(is_index_permutation(p2, o2.len())) by {
            assert forall|i: int| 0 <= i < p2.len() implies 0 <= #[trigger] p2[i] < o2.len() by {
                assert(p[i] != p[n - 1]);
            }
            assert forall|i: int, i2: int| 0 <= i < i2 < p2.len() implies p2[i] != p2[i2] by {
                assert(p[i] != p[i2]);
                assert(p[i] != p[n - 1] && p[i2] != p[n - 1]);
            }
        }
        assert forall|i: int| 0 <= i < u2.len() implies u2[i] == o2[#[trigger] p2[i]] by {
            assert(u2[i] == u[i]);
            assert(p[i] != p[n - 1]);
            if p[i] < j {
                assert(o2[p2[i]] == o[p[i]]);
            } else {
                assert(o2[p2[i]] == o[(p[i] - 1) + 1]);
            }
        }
        lemma_permuted_image_to_multiset(o2, u2, p2);
        assert(u =~= u2.push(u.last()));
        assert(u.to_multiset() == u2.to_multiset().insert(u.last()));
        assert(o2.to_multiset() == o.to_multiset().remove(o[j]));
        assert(u.last() == o[j]);
        assert(o.to_multiset().count(o[j]) >= 1) by {
            assert(o.contains(o[j]));
        }
        assert(o.to_multiset().remove(o[j]).insert(o[j]) =~= o.to_multiset());
    }
}

/// Whatever the completion order, an unordered run yields the same multiset
/// of results as the ordered run of the same source through the same pure
/// mapping function: `ordered` pairs each source item with its result in
/// source order, `unordered` pairs them through the permutation `p`, and a
/// pure function gives each input at most one result.
pub proof fn lemma_unordered_matches_ordered<C, M, F: Fn(C) -> M>(
    f: F,
    source: Seq<C>,
    ordered: Seq<M>,
    unordered: Seq<M>,
    p: Seq<int>,
)
    requires
        forall|c: C, m1: M, m2: M|
            call_ensures(f, (c,), m1) && call_ensures(f, (c,), m2) ==> m1 == m2,
        ordered.len() == source.len(),
        forall|i: int|
            0 <= i < source.len() ==> call_ensures(f, (source[i],), #[trigger] ordered[i]),
        is_index_permutation(p, source.len()),
        unordered.len() == source.len(),
        forall|i: int|
            0 <= i < source.len() ==> call_ensures(f, (source[p[i]],), #[trigger] unordered[i]),
    ensures
        unordered.to_multiset() == ordered.to_multiset(),
{
    assert forall|i: int| 0 <= i < unordered.len() implies unordered[i] == ordered[
        #[trigger] p[i]
    ] by {
        assert(call_ensures(f, (source[p[i]],), ordered[p[i]]));
        assert(call_ensures(f, (source[p[i]],), unordered[i]));
    }
    lemma_permuted_image_to_multiset(ordered, unordered, p);
}

/// The inputs a dispatcher releases, in release order, when pulled to
/// exhaustion under the completion schedule `picks`: one window position
/// per pull, a missing or out-of-range entry falling back to the head.
pub open spec fn run_inputs<C, F>(v: DispatchModel<C, F>, picks: Seq<int>) -> Seq<C>
    decreases v.remaining.len() + v.window.len(),
{
    let pick = if picks.len() > 0 {
        picks[0]
    } else {
        0
    };
    let rest = if picks.len() > 0 {
        picks.drop_first()
    } else {
        picks
    };
    if v.step_emit(pick) is Some {
        seq![v.step_emit(pick)->Some_0] + run_inputs(v.step_state(pick), rest)
    } else {
        Seq::empty()
    }
}

/// Once the source is drained, the window capacity no longer matters: two
/// dispatchers with the same window release the same inputs under every
/// schedule.
proof fn lemma_run_inputs_drained<C, F>(
    v1: DispatchModel<C, F>,
    v2: DispatchModel<C, F>,
    picks: Seq<int>,
)
    requires
        v1.remaining.len() == 0,
        v2.remaining.len() == 0,
        v1.window == v2.window,
    ensures
        run_inputs(v1, picks) == run_inputs(v2, picks),
    decreases v1.window.len(),
{
    let pick = if picks.len() > 0 {
        picks[0]
    } else {
        0
    };
    let rest = if picks.len() > 0 {
        picks.drop_first()
    } else {
        picks
    };
    assert(v1.fill_count() == 0 && v2.fill_count() == 0);
    assert(v1.filled().window =~= v1.window);
    assert(v2.filled().window =~= v2.window);
    assert(v1.filled().remaining =~= v1.remaining);
    assert(v2.filled().remaining =~= v2.remaining);
    if v1.step_emit(pick) is Some {
        assert(v1.step_emit(pick) == v2.step_emit(pick));
        assert(v1.step_state(pick).window == v2.step_state(pick).window);
        assert(v1.step_state(pick).remaining.len() == 0);
        assert(v2.step_state(pick).remaining.len() == 0);
        lemma_run_inputs_drained(v1.step_state(pick), v2.step_state(pick), rest);
    } else {
        assert(v2.step_emit(pick) is None);
    }
}

/// A completion schedule, as the window positions taken by successive
/// pulls.
pub open spec fn schedule_picks(s: Seq<usize>) -> Seq<int> {
    Seq::new(s.len(), |i: int| s[i] as int)
}

/// Under the head-only schedule — the ordered release policy — a
/// dispatcher releases exactly its pending inputs, in their original
/// order: first the in-flight window, then the un-dispatched source.
pub proof fn lemma_run_inputs_head_schedule<C, F>(v: DispatchModel<C, F>)
    requires
        v.max >= 1,
    ensures
        run_inputs(v, Seq::empty()) == v.window + v.remaining,
    decreases v.remaining.len() + v.window.len(),
{
    let a = v.filled().window;
    let b = v.filled().remaining;
    assert(a + b =~= v.window + v.remaining);
    if v.step_emit(0) is Some {
        assert(v.filled().pick_index(0) == 0);
        lemma_run_inputs_head_schedule(v.step_state(0));
        assert(seq![a[0]] + (a.remove(0) + b) =~= a + b);
    } else {
        assert(a.len() == 0);
        assert(v.fill_count() == 0);
        assert(v.remaining.len() == 0);
        assert(v.window + v.remaining =~= Seq::<C>::empty());
    }
}

/// Every schedule releases every pending input exactly once: whatever the
/// completion order, a full run releases the same multiset of inputs — the
/// in-flight window together with the un-dispatched source.
pub proof fn lemma_run_inputs_multiset<C, F>(v: DispatchModel<C, F>, picks: Seq<int>)
    requires
        v.max >= 1,
    ensures
        run_inputs(v, picks).to_multiset() == (v.window + v.remaining).to_multiset(),
    decreases v.remaining.len() + v.window.len(),
{
    broadcast use vstd::seq_lib::group_to_multiset_ensures;
    broadcast use vstd::multiset::group_multiset_axioms;

    let pick = if picks.len() > 0 {
        picks[0]
    } else {
        0
    };
    let rest = if picks.len() > 0 {
        picks.drop_first()
    } else {
        picks
    };
    let a = v.filled().window;
    let b = v.filled().remaining;
    assert(a + b =~= v.window + v.remaining);
    if v.step_emit(pick) is Some {
        let p = v.filled().pick_index(pick);
        let tail = run_inputs(v.step_state(pick), rest);
        lemma_run_inputs_multiset(v.step_state(pick), rest);
        assert(tail.to_multiset() == (a.remove(p) + b).to_multiset());
        assert(a.remove(p) + b =~= (a + b).remove(p));
        assert((a + b)[p] == a[p]);
        assert((a + b).remove(p).to_multiset() == (a + b).to_multiset().remove(a[p]));
        assert(seq![a[p]] + tail =~= tail.insert(0, a[p]));
        assert((seq![a[p]] + tail).to_multiset() == tail.to_multiset().insert(a[p]));
        assert((a + b).to_multiset().count(a[p]) >= 1) by {
            assert((a + b).contains(a[p]));
        }
        assert((a + b).to_multiset().remove(a[p]).insert(a[p]) =~= (a + b).to_multiset());
        assert(run_inputs(v, picks) == seq![a[p]] + tail);
    } else {
        assert(a.len() == 0);
        assert(v.fill_count() == 0);
        assert(v.remaining.len() == 0);
        assert(v.window + v.remaining =~= Seq::<C>::empty());
        assert(run_inputs(v, picks).to_multiset() =~= (v.window + v.remaining).to_multiset());
    }
}

/// A window capacity larger than the source length behaves exactly like a
/// capacity equal to the source length: the same inputs are released in the
/// same order under every completion schedule.
pub proof fn lemma_oversized_window<C, F>(source: Seq<C>, n: nat, f: F, picks: Seq<int>)
    requires
        n >= source.len(),
        source.len() >= 1,
    ensures
        run_inputs(init_model(source, n, f), picks) == run_inputs(
            init_model(source, source.len(), f),
            picks,
        ),
{
    let v1 = init_model(source, n, f);
    let v2 = init_model(source, source.len(), f);
    let pick = if picks.len() > 0 {
        picks[0]
    } else {
        0
    };
    let rest = if picks.len() > 0 {
        picks.drop_first()
    } else {
        picks
    };
    assert(v1.fill_count() == source.len());
    assert(v2.fill_count() == source.len());
    assert(v1.filled().window =~= source);
    assert(v2.filled().window =~= source);
    assert(v1.filled().remaining =~= Seq::<C>::empty());
    assert(v2.filled().remaining =~= Seq::<C>::empty());
    assert(v1.step_emit(pick) is Some && v1.step_emit(pick) == v2.step_emit(pick));
    assert(v1.step_state(pick).window == v2.step_state(pick).window);
    assert(v1.step_state(pick).remaining.len() == 0);
    assert(v2.step_state(pick).remaining.len() == 0);
    lemma_run_inputs_drained(v1.step_state(pick), v2.step_state(pick), rest);
}

/// Suspending an idle dispatcher and reconstructing it restores exactly the
/// dispatcher's state: resuming yields what the original would have yielded.
pub proof fn lemma_snapshot_round_trip<C, F>(v: DispatchModel<C, F>)
    requires
        v.idle(),
    ensures
        v.snapshot_model().restore_model() == v,
{
    assert(v.snapshot_model().restore_model() =~= v);
}

} // verus!
