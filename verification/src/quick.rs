//! Quicksort with an explicit frame stack, one comparison per tick.
//!
//! Each frame is a Lomuto partition in progress over `lo..=hi` with the
//! pivot value at `hi`: `pivot` is the write position for the next small
//! element, `i` the scan cursor.  A tick works on the top frame: it either
//! compares `data[i]` with the pivot value (swapping small elements into
//! place), or, when the scan is exhausted, moves the pivot value to its
//! final slot and pushes the two non-degenerate sub-ranges.  Popping an
//! empty stack finishes the run.

use vstd::prelude::*;
use crate::base::{
    Highlight, sorted_range, SortBase, SortBaseV, base_wf, lemma_seq_swap_multiset, seq_swap, spec_access,
    spec_swaps,
};

verus! {

/// One saved partition: the continuation of a recursive quicksort call.
pub struct QuickState {
    pub lo: usize,
    pub hi: usize,
    /// Where the next element not above the pivot will be swapped to.
    pub pivot: usize,
    /// The scan cursor.
    pub i: usize,
}

/// The ghost image of a [`Quick`] engine.
#[verifier::ext_equal]
pub ghost struct QuickV {
    pub base: SortBaseV,
    pub frames: Seq<QuickState>,
}

/// Quicksort as a resumable engine.
pub struct Quick {
    pub base: SortBase,
    pub pivots: Vec<QuickState>,
}

impl View for Quick {
    type V = QuickV;

    open spec fn view(&self) -> QuickV {
        QuickV { base: self.base@, frames: self.pivots@ }
    }
}

/// A frame works on a range of the array, scanned left to right.
pub open spec fn frame_wf(f: QuickState, n: int) -> bool {
    f.lo <= f.pivot <= f.i <= f.hi < n
}

/// The frame bounds that every tick preserves.
pub open spec fn inv(v: QuickV) -> bool {
    let n = v.base.data.len() as int;
    &&& base_wf(v.base)
    &&& forall|k: int| 0 <= k < v.frames.len() ==> frame_wf(#[trigger] v.frames[k], n)
}

/// One tick: what [`Quick::update`] does to the state.
pub open spec fn step(v: QuickV) -> QuickV {
    if v.base.done {
        v
    } else if v.frames.len() == 0 {
        QuickV { base: SortBaseV { done: true, ..v.base }, ..v }
    } else {
        let f = v.frames.last();
        let rest = v.frames.drop_last();
        if (f.i as int) < f.hi as int {
            let b = spec_access(v.base, 1);
            if b.data[f.i as int] <= b.data[f.hi as int] {
                let d = seq_swap(b.data, f.i as int, f.pivot as int);
                let b = spec_swaps(b, 1);
                let nf = QuickState {
                    lo: f.lo,
                    hi: f.hi,
                    pivot: (f.pivot + 1) as usize,
                    i: (f.i + 1) as usize,
                };
                QuickV {
                    base: SortBaseV { data: d, freq: d[f.pivot as int], ..b },
                    frames: rest.push(nf),
                }
            } else {
                let nf = QuickState { i: (f.i + 1) as usize, ..f };
                QuickV { base: b, frames: rest.push(nf) }
            }
        } else {
            let b = spec_swaps(v.base, 1);
            let d = seq_swap(b.data, f.hi as int, f.pivot as int);
            let upper = if f.pivot + 1 < f.hi {
                rest.push(QuickState {
                    lo: (f.pivot + 1) as usize,
                    hi: f.hi,
                    pivot: (f.pivot + 1) as usize,
                    i: (f.pivot + 1) as usize,
                })
            } else {
                rest
            };
            let lower = if f.pivot > 0 && (f.lo as int) < f.pivot - 1 {
                upper.push(QuickState {
                    lo: f.lo,
                    hi: (f.pivot - 1) as usize,
                    pivot: f.lo,
                    i: f.lo,
                })
            } else {
                upper
            };
            QuickV { base: SortBaseV { data: d, ..b }, frames: lower }
        }
    }
}

/// `v` after `k` ticks.
pub open spec fn steps(v: QuickV, k: nat) -> QuickV
    decreases k,
{
    if k == 0 {
        v
    } else {
        step(steps(v, (k - 1) as nat))
    }
}

/// A tick keeps the state well formed.
pub proof fn lemma_step_inv(v: QuickV)
    requires
        inv(v),
    ensures
        inv(step(v)),
{
    let n = v.base.data.len() as int;
    if !v.base.done && v.frames.len() > 0 {
        assert(frame_wf(v.frames.last(), n));
        assert(forall|k: int|
            0 <= k < v.frames.len() - 1 ==> frame_wf(#[trigger] v.frames.drop_last()[k], n));
    }
}

/// Every number of ticks keeps the state well formed.
pub proof fn lemma_steps_inv(v: QuickV, k: nat)
    requires
        inv(v),
    ensures
        inv(steps(v, k)),
    decreases k,
{
    if k > 0 {
        lemma_steps_inv(v, (k - 1) as nat);
        lemma_step_inv(steps(v, (k - 1) as nat));
    }
}

/// A tick keeps the multiset of bar heights: nothing is lost or duplicated.
pub proof fn lemma_step_permutation(v: QuickV)
    requires
        inv(v),
    ensures
        step(v).base.data.to_multiset() == v.base.data.to_multiset(),
{
    if !v.base.done && v.frames.len() > 0 {
        let f = v.frames.last();
        if (f.i as int) < f.hi as int {
            if v.base.data[f.i as int] <= v.base.data[f.hi as int] {
                lemma_seq_swap_multiset(v.base.data, f.i as int, f.pivot as int);
            }
        } else {
            lemma_seq_swap_multiset(v.base.data, f.hi as int, f.pivot as int);
        }
    }
}

/// After any number of ticks the bars are a permutation of the start.
pub proof fn lemma_steps_permutation(v: QuickV, k: nat)
    requires
        inv(v),
    ensures
        steps(v, k).base.data.to_multiset() == v.base.data.to_multiset(),
    decreases k,
{
    if k > 0 {
        lemma_steps_permutation(v, (k - 1) as nat);
        lemma_steps_inv(v, (k - 1) as nat);
        lemma_step_permutation(steps(v, (k - 1) as nat));
    }
}

/// Once done, further ticks change nothing at all.
pub proof fn lemma_done_stable(v: QuickV, k: nat)
    requires
        v.base.done,
    ensures
        steps(v, k) == v,
    decreases k,
{
    if k > 0 {
        lemma_done_stable(v, (k - 1) as nat);
    }
}

/// The three counters never decrease over a tick.
pub proof fn lemma_step_counters(v: QuickV)
    requires
        inv(v),
    ensures
        step(v).base.access >= v.base.access,
        step(v).base.swaps >= v.base.swaps,
        step(v).base.cmps >= v.base.cmps,
{
}

/// Running `k1` ticks and then `k2` more reaches exactly the state of
/// running `k1 + k2` ticks in one batch.
pub proof fn lemma_steps_additive(v: QuickV, k1: nat, k2: nat)
    ensures
        steps(steps(v, k1), k2) == steps(v, k1 + k2),
    decreases k2,
{
    if k2 > 0 {
        lemma_steps_additive(v, k1, (k2 - 1) as nat);
    }
}

/// `p` and `q` lie together inside one saved range, which may still
/// reorder them.
pub open spec fn co_framed(fs: Seq<QuickState>, p: int, q: int) -> bool {
    exists|k: int|
        0 <= k < fs.len() && (#[trigger] fs[k]).lo <= p && q <= fs[k].hi
}

/// The Lomuto partition in progress in frame `f`: everything scanned so
/// far sits left of the write position iff it is at most the pivot value.
pub open spec fn partition_ok(f: QuickState, d: Seq<usize>) -> bool {
    &&& (forall|j: int| f.lo <= j < f.pivot ==> #[trigger] d[j] <= d[f.hi as int])
    &&& (forall|j: int| f.pivot <= j < f.i ==> #[trigger] d[j] > d[f.hi as int])
}

/// What the run has achieved so far: the saved ranges are disjoint and
/// stacked left to right from the top down, every pair of positions not
/// inside one common range is already in order, only the top frame is
/// mid-partition, and its partition is consistent.
pub open spec fn order_inv(v: QuickV) -> bool {
    let n = v.base.data.len() as int;
    let d = v.base.data;
    let fs = v.frames;
    if v.base.done {
        sorted_range(d, 0, n)
    } else {
        &&& (forall|k1: int, k2: int|
            0 <= k1 < k2 < fs.len() ==> (#[trigger] fs[k2]).hi < (#[trigger] fs[k1]).lo)
        &&& (forall|p: int, q: int|
            0 <= p < q < n && !co_framed(fs, p, q) ==> d[p] <= d[q])
        &&& (forall|k: int|
            0 <= k < fs.len() - 1 ==> (#[trigger] fs[k]).pivot == fs[k].lo && fs[k].i == fs[k].lo)
        &&& (fs.len() > 0 ==> partition_ok(fs.last(), d))
    }
}

/// A position inside the top range is in no other frame, and a pair that
/// shares no frame keeps sharing none when one end moves within the top
/// range on the same side of the other end.
proof fn lemma_only_top(v: QuickV, x: int)
    requires
        inv(v),
        order_inv(v),
        !v.base.done,
        v.frames.len() > 0,
        v.frames.last().lo <= x <= v.frames.last().hi,
    ensures
        forall|k: int|
            0 <= k < v.frames.len() - 1 ==> !((#[trigger] v.frames[k]).lo <= x
                && x <= v.frames[k].hi),
{
    let fs = v.frames;
    let top = fs.len() - 1;
    assert forall|k: int| 0 <= k < top implies !((#[trigger] fs[k]).lo <= x && x <= fs[k].hi) by {
        assert(fs[top].hi < fs[k].lo);
    }
}

/// A tick keeps the run's achievement.
pub proof fn lemma_step_order(v: QuickV)
    requires
        inv(v),
        order_inv(v),
    ensures
        order_inv(step(v)),
{
    let n = v.base.data.len() as int;
    let d = v.base.data;
    let fs = v.frames;
    let w = step(v);
    if v.base.done {
    } else if fs.len() == 0 {
        assert forall|p: int, q: int| 0 <= p <= q < n implies d[p] <= d[q] by {
            if p < q {
                assert(!co_framed(fs, p, q));
            }
        }
    } else {
        let f = fs.last();
        let rest = fs.drop_last();
        let top = fs.len() - 1;
        let pv = d[f.hi as int];
        if (f.i as int) < f.hi as int {
            if d[f.i as int] <= pv {
                // a small element is swapped into the write position
                let e = seq_swap(d, f.i as int, f.pivot as int);
                assert(e[f.hi as int] == pv);
                assert(partition_ok(w.frames.last(), e));
                assert(forall|k: int|
                    0 <= k < w.frames.len() ==> (#[trigger] w.frames[k]).lo == fs[k].lo
                        && w.frames[k].hi == fs[k].hi);
                assert forall|p: int, q: int|
                    0 <= p < q < n && !co_framed(w.frames, p, q) implies e[p] <= e[q] by {
                    assert(!co_framed(fs, p, q)) by {
                        if co_framed(fs, p, q) {
                            let k = choose|k: int|
                                0 <= k < fs.len() && (#[trigger] fs[k]).lo <= p && q <= fs[k].hi;
                            assert(w.frames[k].lo <= p && q <= w.frames[k].hi);
                        }
                    }
                    // both ends inside the top range would be co-framed
                    assert(!(f.lo <= p && q <= f.hi));
                    let sp: int = if p == f.i { f.pivot as int } else if p == f.pivot {
                        f.i as int
                    } else {
                        p
                    };
                    let sq: int = if q == f.i { f.pivot as int } else if q == f.pivot {
                        f.i as int
                    } else {
                        q
                    };
                    assert(e[p] == d[sp] && e[q] == d[sq]);
                    if sp != p || sq != q {
                        lemma_only_top(v, f.pivot as int);
                        lemma_only_top(v, f.i as int);
                        if p != sp {
                            // p lies in the top range, q outside it
                            lemma_only_top(v, sp);
                            assert(q < f.lo || q > f.hi);
                            assert((sp < q) == (p < q));
                            assert(!co_framed(fs, sp, q));
                        } else {
                            lemma_only_top(v, sq);
                            assert(p < f.lo || p > f.hi);
                            assert(!co_framed(fs, p, sq));
                        }
                    }
                }
            } else {
                // only the scan cursor moves
                assert(partition_ok(w.frames.last(), d));
                assert(forall|k: int|
                    0 <= k < w.frames.len() ==> (#[trigger] w.frames[k]).lo == fs[k].lo
                        && w.frames[k].hi == fs[k].hi);
                assert forall|p: int, q: int|
                    0 <= p < q < n && !co_framed(w.frames, p, q) implies d[p] <= d[q] by {
                    assert(!co_framed(fs, p, q)) by {
                        if co_framed(fs, p, q) {
                            let k = choose|k: int|
                                0 <= k < fs.len() && (#[trigger] fs[k]).lo <= p && q <= fs[k].hi;
                            assert(w.frames[k].lo <= p && q <= w.frames[k].hi);
                        }
                    }
                }
            }
        } else {
            // the pivot value moves to its final slot between the two
            // sub-ranges, each pushed only if it holds at least two bars
            let e = seq_swap(d, f.hi as int, f.pivot as int);
            let pvt = f.pivot as int;
            assert(e[pvt] == pv);
            assert(forall|j: int| f.lo <= j < pvt ==> #[trigger] e[j] <= pv);
            assert forall|j: int| pvt < j <= f.hi implies #[trigger] e[j] > pv by {
                if j == f.hi {
                    assert(pvt < f.i);
                    assert(e[j] == d[pvt]);
                } else {
                    assert(e[j] == d[j]);
                }
            }
            assert forall|p: int, q: int|
                0 <= p < q < n && !co_framed(w.frames, p, q) implies e[p] <= e[q] by {
                if f.lo <= p && q <= f.hi {
                    // inside the old top range: ordered across the pivot
                    if q <= pvt {
                        if q < pvt {
                            // both in the lower sub-range: it was pushed
                            assert(f.pivot > 0 && (f.lo as int) < pvt - 1);
                            assert(w.frames.last().lo <= p && q <= w.frames.last().hi);
                            assert(false);
                        } else {
                            assert(e[p] <= pv);
                        }
                    } else if p >= pvt {
                        if p > pvt {
                            // both in the upper sub-range: it was pushed
                            assert(f.pivot + 1 < f.hi);
                            let ku = if f.pivot > 0 && (f.lo as int) < pvt - 1 {
                                w.frames.len() - 2
                            } else {
                                w.frames.len() - 1
                            };
                            assert(w.frames[ku].lo <= p && q <= w.frames[ku].hi);
                            assert(false);
                        } else {
                            assert(e[q] > pv);
                        }
                    } else {
                        assert(e[p] <= pv && e[q] > pv);
                    }
                } else {
                    // at most one end inside the old top range
                    assert(!co_framed(fs, p, q)) by {
                        if co_framed(fs, p, q) {
                            let k = choose|k: int|
                                0 <= k < fs.len() && (#[trigger] fs[k]).lo <= p && q <= fs[k].hi;
                            assert(k < fs.len() - 1);
                            assert(forall|m: int|
                                0 <= m < w.frames.len() && w.frames[m] == fs[k] ==> (
                                #[trigger] w.frames[m]).lo <= p && q <= w.frames[m].hi);
                            assert(w.frames[k] == fs[k]);
                        }
                    }
                    let sp: int = if p == f.hi { pvt } else if p == pvt { f.hi as int } else { p };
                    let sq: int = if q == f.hi { pvt } else if q == pvt { f.hi as int } else { q };
                    assert(e[p] == d[sp] && e[q] == d[sq]);
                    if sp != p || sq != q {
                        if p != sp {
                            lemma_only_top(v, sp);
                            assert(q < f.lo || q > f.hi);
                            assert(!co_framed(fs, sp, q));
                        } else {
                            lemma_only_top(v, sq);
                            assert(p < f.lo || p > f.hi);
                            assert(!co_framed(fs, p, sq));
                        }
                    }
                }
            }
            // the remaining frames are untouched and fresh; a new top is
            // fresh, so its partition holds trivially
            if w.frames.len() > 0 {
                assert(partition_ok(w.frames.last(), e));
            }
            assert(forall|k1: int, k2: int|
                0 <= k1 < k2 < w.frames.len() ==> (#[trigger] w.frames[k2]).hi < (
                #[trigger] w.frames[k1]).lo);
        }
    }
}

/// The run's achievement holds after any number of ticks.
pub proof fn lemma_steps_order(v: QuickV, k: nat)
    requires
        inv(v),
        order_inv(v),
    ensures
        order_inv(steps(v, k)),
    decreases k,
{
    if k > 0 {
        lemma_steps_order(v, (k - 1) as nat);
        lemma_steps_inv(v, (k - 1) as nat);
        lemma_step_order(steps(v, (k - 1) as nat));
    }
}

/// Whenever the engine reports done, the bars are sorted ascending and
/// still a permutation of the start: run from a fresh state, any number
/// of ticks that reaches the done flag has fully sorted the array.
pub proof fn lemma_done_sorted(v: QuickV, k: nat)
    requires
        inv(v),
        !v.base.done,
        v.frames =~= seq![
            QuickState { lo: 0, hi: (v.base.data.len() - 1) as usize, pivot: 0, i: 0 },
        ],
        steps(v, k).base.done,
    ensures
        sorted_range(steps(v, k).base.data, 0, steps(v, k).base.data.len() as int),
        steps(v, k).base.data.to_multiset() == v.base.data.to_multiset(),
{
    let n = v.base.data.len() as int;
    assert forall|p: int, q: int| 0 <= p < q < n implies co_framed(v.frames, p, q) by {
        assert(v.frames[0].lo <= p && q <= v.frames[0].hi);
    }
    assert(order_inv(v));
    lemma_steps_order(v, k);
    lemma_steps_permutation(v, k);
}

/// The work one saved range still needs: enough ticks for its own scan
/// and for every sub-range that can come out of it.
pub open spec fn frame_work(f: QuickState, n: int) -> int {
    n * (f.hi - f.lo + 1) + (f.hi - f.i) + 1
}

/// The work the whole stack still needs.
pub open spec fn stack_work(fs: Seq<QuickState>, n: int) -> int
    decreases fs.len(),
{
    if fs.len() == 0 {
        0
    } else {
        stack_work(fs.drop_last(), n) + frame_work(fs.last(), n)
    }
}

proof fn lemma_work_push(fs: Seq<QuickState>, f: QuickState, n: int)
    ensures
        stack_work(fs.push(f), n) == stack_work(fs, n) + frame_work(f, n),
{
    assert(fs.push(f).drop_last() =~= fs);
}

proof fn lemma_work_nonneg(fs: Seq<QuickState>, n: int)
    requires
        n >= 1,
        forall|k: int| 0 <= k < fs.len() ==> frame_wf(#[trigger] fs[k], n),
    ensures
        stack_work(fs, n) >= 0,
    decreases fs.len(),
{
    if fs.len() > 0 {
        assert(forall|k: int|
            0 <= k < fs.len() - 1 ==> frame_wf(#[trigger] fs.drop_last()[k], n));
        lemma_work_nonneg(fs.drop_last(), n);
        let f = fs.last();
        assert(frame_wf(f, n));
        assert(n * (f.hi - f.lo + 1) >= 0) by (nonlinear_arith)
            requires
                n >= 1,
                f.hi >= f.lo,
        ;
    }
}

/// How many ticks a live engine can still take.
pub open spec fn ticks_left(v: QuickV) -> int {
    let n = v.base.data.len() as int;
    if v.base.done {
        0
    } else {
        stack_work(v.frames, n) + 1
    }
}

/// Every tick of a live engine consumes remaining work.
#[verifier::rlimit(60)]
pub proof fn lemma_step_dec(v: QuickV)
    requires
        inv(v),
        !v.base.done,
    ensures
        0 <= ticks_left(step(v)) < ticks_left(v),
{
    let n = v.base.data.len() as int;
    let fs = v.frames;
    let w = step(v);
    lemma_step_inv(v);
    if fs.len() > 0 {
        let f = fs.last();
        let rest = fs.drop_last();
        assert(frame_wf(f, n));
        assert(forall|k: int| 0 <= k < rest.len() ==> frame_wf(#[trigger] rest[k], n));
        lemma_work_nonneg(rest, n);
        if (f.i as int) < f.hi as int {
            // the scan cursor moves one to the right
            let nf = w.frames.last();
            assert(w.frames =~= rest.push(nf));
            lemma_work_push(rest, nf, n);
            assert(frame_work(nf, n) == frame_work(f, n) - 1);
        } else {
            // the range splits off at most two strictly smaller ranges
            let pvt = f.pivot as int;
            let lsize = f.hi as int - f.lo as int + 1;
            let up = f.pivot + 1 < f.hi;
            let low = f.pivot > 0 && (f.lo as int) < pvt - 1;
            let u1 = f.hi as int - pvt;
            let u2 = pvt - f.lo as int;
            assert(u1 + u2 == lsize - 1);
            if up && low {
                let uf = w.frames[w.frames.len() - 2];
                let lf = w.frames.last();
                assert(w.frames =~= rest.push(uf).push(lf));
                lemma_work_push(rest, uf, n);
                lemma_work_push(rest.push(uf), lf, n);
                assert(frame_work(uf, n) == n * u1 + u1);
                assert(frame_work(lf, n) == n * u2 + u2);
                assert(n * u1 + u1 + (n * u2 + u2) < n * lsize + 1) by (nonlinear_arith)
                    requires
                        u1 + u2 == lsize - 1,
                        1 <= lsize <= n,
                        n >= 1,
                ;
            } else if up {
                let uf = w.frames.last();
                assert(w.frames =~= rest.push(uf));
                lemma_work_push(rest, uf, n);
                assert(frame_work(uf, n) == n * u1 + u1);
                assert(n * u1 + u1 < n * lsize + 1) by (nonlinear_arith)
                    requires
                        0 <= u1 <= lsize - 1,
                        1 <= lsize <= n,
                        n >= 1,
                ;
            } else if low {
                let lf = w.frames.last();
                assert(w.frames =~= rest.push(lf));
                lemma_work_push(rest, lf, n);
                assert(frame_work(lf, n) == n * u2 + u2);
                assert(n * u2 + u2 < n * lsize + 1) by (nonlinear_arith)
                    requires
                        0 <= u2 <= lsize - 1,
                        1 <= lsize <= n,
                        n >= 1,
                ;
            } else {
                assert(w.frames =~= rest);
                assert(n * lsize + 1 > 0) by (nonlinear_arith)
                    requires
                        lsize >= 1,
                        n >= 1,
                ;
            }
        }
        assert(forall|k: int| 0 <= k < w.frames.len() ==> frame_wf(#[trigger] w.frames[k], n));
        lemma_work_nonneg(w.frames, n);
    }
}

/// The run finishes: after `ticks_left` ticks (or any more) the engine
/// reports done.
pub proof fn lemma_terminates(v: QuickV, k: nat)
    requires
        inv(v),
        k >= ticks_left(v),
    ensures
        steps(v, k).base.done,
    decreases k,
{
    if v.base.done {
        lemma_done_stable(v, k);
    } else {
        lemma_step_dec(v);
        lemma_step_inv(v);
        assert(steps(v, 0) == v);
        assert(steps(v, 1) == step(v));
        lemma_steps_additive(v, 1, (k - 1) as nat);
        lemma_terminates(step(v), (k - 1) as nat);
    }
}

/// The ends of the range under partition bound the work; the pivot write
/// position and the scan cursor (each one behind its next move) are active.
pub open spec fn highlight_spec(v: QuickV, i: int) -> Highlight {
    let n = v.base.data.len() as int;
    let p = if v.frames.len() > 0 {
        let f = v.frames.last();
        (if f.pivot > 0 { f.pivot - 1 } else { 0 }, f.lo as int, f.hi as int, if f.i > 0 {
            f.i - 1
        } else {
            0
        })
    } else {
        (0, 0, n - 1, 0)
    };
    if !v.base.done && (i == p.2 || i == p.1) {
        Highlight::Boundary
    } else if !v.base.done && (i == p.0 || i == p.3) {
        Highlight::Active
    } else {
        Highlight::Normal
    }
}

impl Quick {
    /// Start a run over `base`, with one frame covering the whole array.
    pub fn new(base: SortBase) -> (s: Self)
        requires
            base_wf(base@),
            !base@.done,
        ensures
            s@.base == base@,
            s@.frames =~= seq![
                QuickState { lo: 0, hi: (base@.data.len() - 1) as usize, pivot: 0, i: 0 },
            ],
            inv(s@),
    {
        let hi = base.len() - 1;
        let mut pivots: Vec<QuickState> = Vec::new();
        pivots.push(QuickState { lo: 0, hi, pivot: 0, i: 0 });
        Quick { base, pivots }
    }

    /// True once the array is fully sorted.
    pub fn done(&self) -> (r: bool)
        ensures
            r == self@.base.done,
    {
        self.base.done
    }

    /// The shared state, for the renderer and the counter display.
    pub fn base(&self) -> (b: &SortBase)
        ensures
            b@ == self@.base,
    {
        &self.base
    }

    /// One tick of quicksort.
    pub fn update(&mut self)
        requires
            inv(old(self)@),
        ensures
            final(self)@ == step(old(self)@),
            inv(final(self)@),
    {
        proof {
            lemma_step_inv(self@);
        }
        if self.base.done {
            return;
        }
        match self.pivots.pop() {
            None => {
                self.base.set_done();
                assert(self@ =~= step(old(self)@));
            },
            Some(mut f) => {
                assert(frame_wf(f, self@.base.data.len() as int));
                if f.i < f.hi {
                    self.base.bump_access(1);
                    let a = self.base.data[f.i];
                    let p = self.base.data[f.hi];
                    if a <= p {
                        self.base.swap_items(f.i, f.pivot);
                        self.base.bump_swaps(1);
                        let fr = self.base.data[f.pivot];
                        self.base.set_freq(fr);
                        f.pivot = f.pivot + 1;
                        f.i = f.i + 1;
                        self.pivots.push(f);
                    } else {
                        f.i = f.i + 1;
                        self.pivots.push(f);
                    }
                } else {
                    self.base.swap_items(f.hi, f.pivot);
                    self.base.bump_swaps(1);
                    if f.pivot + 1 < f.hi {
                        self.pivots.push(QuickState {
                            lo: f.pivot + 1,
                            hi: f.hi,
                            pivot: f.pivot + 1,
                            i: f.pivot + 1,
                        });
                    }
                    if f.pivot > 0 && f.lo < f.pivot - 1 {
                        self.pivots.push(QuickState {
                            lo: f.lo,
                            hi: f.pivot - 1,
                            pivot: f.lo,
                            i: f.lo,
                        });
                    }
                }
                assert(self@ =~= step(old(self)@));
            },
        }
    }

    /// Run `ticks` ticks in one batch.
    pub fn run(&mut self, ticks: usize)
        requires
            inv(old(self)@),
        ensures
            final(self)@ == steps(old(self)@, ticks as nat),
            inv(final(self)@),
    {
        let mut t: usize = 0;
        while t < ticks
            invariant
                t <= ticks,
                inv(self@),
                self@ == steps(old(self)@, t as nat),
            decreases ticks - t,
        {
            self.update();
            t = t + 1;
        }
    }

    /// The role of bar `i` right now.
    pub fn highlight(&self, i: usize) -> (h: Highlight)
        requires
            inv(self@),
        ensures
            h == highlight_spec(self@, i as int),
    {
        let n = self.base.len();
        let mut curr_pivot: usize = 0;
        let mut curr_lo: usize = 0;
        let mut curr_hi: usize = n - 1;
        let mut curr_i: usize = 0;
        if self.pivots.len() > 0 {
            let f = &self.pivots[self.pivots.len() - 1];
            curr_pivot = if f.pivot > 0 { f.pivot - 1 } else { 0 };
            curr_lo = f.lo;
            curr_hi = f.hi;
            curr_i = if f.i > 0 { f.i - 1 } else { 0 };
        }
        if !self.base.done && (i == curr_hi || i == curr_lo) {
            Highlight::Boundary
        } else if !self.base.done && (i == curr_pivot || i == curr_i) {
            Highlight::Active
        } else {
            Highlight::Normal
        }
    }
}

} // verus!
