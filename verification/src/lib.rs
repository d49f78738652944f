//! A bounded-concurrency task-dispatch engine.
//!
//! Given a sequence of inputs and a pure mapping function, the engine keeps
//! at most `n` worker invocations in flight at a time and yields results
//! either in source order ([`TasksOrdered`]) or in completion order
//! ([`TasksUnordered`]). An idle dispatcher can be suspended into a snapshot
//! of its un-dispatched items and later reconstructed.
//!
//! Completion order is nondeterministic in a live system; here it is an
//! explicit input (a window position per pull), so every interleaving can be
//! exercised and the engine's guarantees are proved for all of them. A
//! worker's invocation of the mapping function is deferred to the pull that
//! releases its result; for the pure mapping functions the engine is meant
//! for, that is indistinguishable from running at spawn time.

use vstd::prelude::*;

pub mod model;
mod ordered;
mod unordered;

use model::distinct_indices;
use model::init_model;
use model::is_index_permutation;
use model::lemma_distinct_after_pull;
use model::run_inputs;
use model::schedule_picks;
pub use ordered::SerializedTasksOrdered;
pub use ordered::TasksOrdered;
pub use unordered::SerializedTasksUnordered;
pub use unordered::TasksUnordered;

verus! {

/// An extension for sources of task inputs: builds a dispatcher over the
/// source directly, in either release mode.
pub trait TaskExt<C, M, F>: Sized where F: Fn(C) -> M {
    /// The items this source will feed the dispatcher, in order.
    spec fn source_seq(self) -> Seq<C>;

    /// Runs tasks with at most `n` in flight, results in source order.
    fn tasks_ordered(self, n: usize, f: F) -> (t: TasksOrdered<C, F>)
        requires
            n >= 1,
        ensures
            t@ == init_model(self.source_seq(), n as nat, f),
            t.wf(),
    ;

    /// Runs tasks with at most `n` in flight, results in completion order.
    fn tasks_unordered(self, n: usize, f: F) -> (t: TasksUnordered<C, F>)
        requires
            n >= 1,
        ensures
            t@ == init_model(self.source_seq(), n as nat, f),
            t.wf(),
    ;
}

impl<C, M, F: Fn(C) -> M> TaskExt<C, M, F> for Vec<C> {
    open spec fn source_seq(self) -> Seq<C> {
        self@
    }

    fn tasks_ordered(self, n: usize, f: F) -> (t: TasksOrdered<C, F>) {
        TasksOrdered::new(self, n, f)
    }

    fn tasks_unordered(self, n: usize, f: F) -> (t: TasksUnordered<C, F>) {
        TasksUnordered::new(self, n, f)
    }
}

/// Maps `f` over `source` with at most `n` workers in flight, releasing
/// results in source order: the output is exactly the sequential map of `f`
/// over the source, whatever the window size.
pub fn run_ordered<C, M, F: Fn(C) -> M>(source: Vec<C>, n: usize, f: F) -> (r: Vec<M>)
    requires
        n >= 1,
        forall|i: int| 0 <= i < source@.len() ==> call_requires(f, (source@[i],)),
    ensures
        r@.len() == source@.len(),
        forall|i: int|
            0 <= i < source@.len() ==> call_ensures(f, (source@[i],), #[trigger] r@[i]),
{
    let ghost src = source@;
    let total = source.len();
    let mut t = TasksOrdered::new(source, n, f);
    let mut out: Vec<M> = Vec::new();
    for k in 0..total
        invariant
            t.wf(),
            t@.f == f,
            total == src.len(),
            out@.len() == k,
            k + t@.window.len() <= src.len(),
            t@.window == src.subrange(k as int, k + t@.window.len()),
            t@.remaining == src.skip(k + t@.window.len()),
            forall|i: int| 0 <= i < src.len() ==> call_requires(f, (src[i],)),
            forall|i: int| 0 <= i < k ==> call_ensures(f, (src[i],), #[trigger] out@[i]),
    {
        let ghost tv = t@;
        proof {
            assert forall|i: int| 0 <= i < tv.remaining.len() implies call_requires(
                f,
                (tv.remaining[i],),
            ) by {
                assert(tv.remaining[i] == src[k + tv.window.len() + i]);
            }
            assert forall|i: int| 0 <= i < tv.window.len() implies call_requires(
                f,
                (tv.window[i],),
            ) by {
                assert(tv.window[i] == src[k + i]);
            }
        }
        let m = t.next();
        proof {
            let fc = tv.fill_count() as int;
            let wlen = tv.window.len() as int;
            assert(tv.filled().window =~= src.subrange(k as int, k + wlen + fc));
            assert(tv.filled().window.len() > 0);
            assert(tv.step_emit(0)->Some_0 == src[k as int]);
            assert(t@.window =~= src.subrange(k + 1, k + wlen + fc));
            assert(t@.remaining =~= src.skip(k + wlen + fc));
        }
        out.push(m.unwrap());
    }
    out
}

/// Maps `f` over `source` with at most `n` workers in flight, releasing
/// each result as soon as its worker completes. `arrivals` models the
/// completion order: the `k`-th entry is the window position whose worker
/// finishes first during the `k`-th pull (out-of-range positions fall back
/// to the head, so every list is a valid schedule). Whatever the schedule,
/// the output is a permutation of the sequential map of `f` over the
/// source: some `p` rearranges the source so that each output pairs with
/// its source item. Position by position, the inputs released are exactly
/// [`run_inputs`] of the initial state under the schedule, so the laws
/// about model runs carry over to this function's output.
pub fn run_unordered<C, M, F: Fn(C) -> M>(
    source: Vec<C>,
    n: usize,
    f: F,
    arrivals: &Vec<usize>,
) -> (r: Vec<M>)
    requires
        n >= 1,
        forall|i: int| 0 <= i < source@.len() ==> call_requires(f, (source@[i],)),
    ensures
        r@.len() == source@.len(),
        exists|p: Seq<int>|
            #[trigger] is_index_permutation(p, source@.len()) && forall|i: int|
                0 <= i < p.len() ==> call_ensures(f, (source@[p[i]],), #[trigger] r@[i]),
        ({
            let released = run_inputs(
                init_model(source@, n as nat, f),
                schedule_picks(arrivals@),
            );
            released.len() == source@.len() && forall|i: int|
                0 <= i < released.len() ==> call_ensures(f, (released[i],), #[trigger] r@[i])
        }),
{
    let ghost src = source@;
    let ghost picks0 = schedule_picks(arrivals@);
    let ghost plen = picks0.len() as int;
    let total = source.len();
    let mut t = TasksUnordered::new(source, n, f);
    let ghost v0 = t@;
    let mut out: Vec<M> = Vec::new();
    let ghost mut widx: Seq<int> = Seq::empty();
    let ghost mut pidx: Seq<int> = Seq::empty();
    let ghost mut emitted: Seq<C> = Seq::empty();
    proof {
        assert(picks0.skip(0) =~= picks0);
        assert(emitted + run_inputs(t@, picks0) =~= run_inputs(t@, picks0));
    }
    for k in 0..total
        invariant
            t.wf(),
            t@.f == f,
            total == src.len(),
            out@.len() == k,
            pidx.len() == k as int,
            v0 == init_model(src, n as nat, f),
            picks0 == schedule_picks(arrivals@),
            plen == picks0.len(),
            emitted.len() == k as int,
            run_inputs(v0, picks0) == emitted + run_inputs(
                t@,
                picks0.skip(
                    if k as int <= plen {
                        k as int
                    } else {
                        plen
                    },
                ),
            ),
            forall|i: int| 0 <= i < k ==> call_ensures(f, (emitted[i],), #[trigger] out@[i]),
            widx.len() == t@.window.len(),
            k + t@.window.len() <= src.len(),
            t@.remaining == src.skip(k + t@.window.len()),
            forall|i: int|
                0 <= i < widx.len() ==> 0 <= #[trigger] widx[i] < k + t@.window.len(),
            forall|i: int| 0 <= i < widx.len() ==> t@.window[i] == src[#[trigger] widx[i]],
            forall|i: int| 0 <= i < pidx.len() ==> 0 <= #[trigger] pidx[i] < k + t@.window.len(),
            distinct_indices(pidx + widx),
            forall|i: int| 0 <= i < src.len() ==> call_requires(f, (src[i],)),
            forall|i: int|
                0 <= i < k ==> call_ensures(f, (src[pidx[i]],), #[trigger] out@[i]),
    {
        let ghost tv = t@;
        proof {
            assert forall|i: int| 0 <= i < tv.remaining.len() implies call_requires(
                f,
                (tv.remaining[i],),
            ) by {
                assert(tv.remaining[i] == src[k + tv.window.len() + i]);
            }
            assert forall|i: int| 0 <= i < tv.window.len() implies call_requires(
                f,
                (tv.window[i],),
            ) by {
                assert(tv.window[i] == src[widx[i]]);
            }
        }
        let pick = if k < arrivals.len() {
            arrivals[k]
        } else {
            0
        };
        let m = t.next_pick(pick);
        proof {
            let fc = tv.fill_count() as int;
            let wlen = tv.window.len() as int;
            let fw = tv.filled().window;
            let fwidx = widx + Seq::new(fc as nat, |i: int| k + wlen + i);
            assert(tv.remaining.take(fc) =~= src.subrange(k + wlen, k + wlen + fc));
            assert forall|i: int| 0 <= i < fw.len() implies fw[i] == src[#[trigger] fwidx[i]]
                && 0 <= fwidx[i] < k + wlen + fc by {
                if i < wlen {
                    assert(fw[i] == tv.window[i]);
                } else {
                    assert(fw[i] == tv.remaining.take(fc)[i - wlen]);
                }
            }
            assert(fw.len() == wlen + fc && fw.len() > 0);
            let p = tv.filled().pick_index(pick as int);
            assert(tv.step_emit(pick as int)->Some_0 == fw[p]);
            let old_pidx = pidx;
            let old_widx = widx;
            pidx = pidx.push(fwidx[p]);
            widx = fwidx.remove(p);
            assert(t@.window == fw.remove(p));
            assert forall|i: int|
                0 <= i < widx.len() implies t@.window[i] == src[#[trigger] widx[i]] && 0 <= widx[i]
                < (k + 1) + t@.window.len() by {
                if i < p {
                    assert(widx[i] == fwidx[i]);
                    assert(t@.window[i] == fw[i]);
                } else {
                    assert(widx[i] == fwidx[i + 1]);
                    assert(t@.window[i] == fw[i + 1]);
                }
            }
            assert(t@.remaining =~= src.skip((k + 1) + t@.window.len()));
            lemma_distinct_after_pull(old_pidx, old_widx, k + wlen, fc as nat, p);
            assert(distinct_indices(pidx + widx));
            let mk = if k as int <= plen {
                k as int
            } else {
                plen
            };
            let mk2 = if k + 1 as int <= plen {
                k + 1 as int
            } else {
                plen
            };
            let picks_k = picks0.skip(mk);
            let pick0 = if picks_k.len() > 0 {
                picks_k[0]
            } else {
                0
            };
            assert(pick0 == pick as int) by {
                if (k as int) < plen {
                    assert(picks_k[0] == picks0[k as int]);
                    assert(picks0[k as int] == arrivals@[k as int] as int);
                }
            }
            let rest = if picks_k.len() > 0 {
                picks_k.drop_first()
            } else {
                picks_k
            };
            assert(rest =~= picks0.skip(mk2));
            assert(run_inputs(tv, picks_k) == seq![fw[p]] + run_inputs(
                tv.step_state(pick as int),
                picks0.skip(mk2),
            ));
            let old_emitted = emitted;
            emitted = emitted.push(fw[p]);
            assert(old_emitted + run_inputs(tv, picks_k) =~= emitted + run_inputs(
                t@,
                picks0.skip(mk2),
            ));
        }
        out.push(m.unwrap());
    }
    proof {
        assert(is_index_permutation(pidx, src.len())) by {
            assert forall|i: int| 0 <= i < pidx.len() implies 0 <= #[trigger] pidx[i]
                < src.len() by {}
            assert forall|i: int, j: int| 0 <= i < j < pidx.len() implies pidx[i] != pidx[j] by {
                assert((pidx + widx)[i] == pidx[i]);
                assert((pidx + widx)[j] == pidx[j]);
            }
        }
        assert(forall|i: int|
            0 <= i < pidx.len() ==> call_ensures(f, (src[pidx[i]],), #[trigger] out@[i]));
        let mend = if total as int <= plen {
            total as int
        } else {
            plen
        };
        let picks_end = picks0.skip(mend);
        let pick_end = if picks_end.len() > 0 {
            picks_end[0]
        } else {
            0
        };
        assert(t@.window.len() == 0 && t@.remaining.len() == 0);
        assert(t@.fill_count() == 0);
        assert(t@.step_emit(pick_end) is None);
        assert(run_inputs(t@, picks_end) == Seq::<C>::empty());
        assert(emitted + run_inputs(t@, picks_end) =~= emitted);
        assert(run_inputs(v0, picks0) == emitted);
    }
    out
}

} // verus!
