//! Heapsort over one shared array, one heap step per tick.
//!
//! The array serves in turn as unsorted input, max-heap storage and sorted
//! output.  The build phase pushes `data[x]` onto the heap and walks it up
//! one parent comparison per tick (`heapifying_up`).  The extract phase
//! swaps the root with the last heap element, shrinks the heap so the
//! popped value lands on the sorted tail, and walks the new root down one
//! node-triple per tick (`heapifying_down`).  Done when the heap is empty
//! after the build.

use vstd::prelude::*;
use crate::base::{
    Highlight, sorted_range, SortBase, SortBaseV, base_wf, lemma_seq_swap_multiset, seq_swap, spec_access,
    spec_cmps, spec_swaps,
};

verus! {

/// The ghost image of a [`Heap`] engine.
#[verifier::ext_equal]
pub ghost struct HeapV {
    pub base: SortBaseV,
    /// How many elements currently form the heap at the front of the array.
    pub heap_len: int,
    /// True while a pushed value is still walking up.
    pub up: bool,
    /// True while the new root is still walking down.
    pub down: bool,
    /// The build cursor: the next element to push.
    pub x: int,
    /// The node the current walk works on.
    pub y: int,
}

/// Heapsort as a resumable engine.
pub struct Heap {
    pub base: SortBase,
    pub heap_len: usize,
    pub heapifying_down: bool,
    pub heapifying_up: bool,
    pub x: usize,
    pub y: usize,
}

impl View for Heap {
    type V = HeapV;

    open spec fn view(&self) -> HeapV {
        HeapV {
            base: self.base@,
            heap_len: self.heap_len as int,
            up: self.heapifying_up,
            down: self.heapifying_down,
            x: self.x as int,
            y: self.y as int,
        }
    }
}

/// The cursor bounds that every tick preserves.
pub open spec fn inv(v: HeapV) -> bool {
    let n = v.base.data.len() as int;
    &&& base_wf(v.base)
    &&& !v.base.done ==> {
        &&& 0 <= v.heap_len <= n
        &&& 0 <= v.x <= n
        &&& (v.x < n ==> v.heap_len == v.x)
        &&& (v.up ==> 0 <= v.y < v.heap_len)
        &&& (v.down ==> 0 <= v.y < v.heap_len)
        &&& !(v.up && v.down)
    }
}

/// One walk-up step at node `i`: compare with the parent, swap while the
/// child is larger, clear the flag once in place or at the root.
pub open spec fn up_step(v: HeapV, i: int) -> HeapV {
    if i > 0 {
        let p = (i - 1) / 2;
        let b = spec_cmps(spec_access(v.base, 2), 1);
        if b.data[p] < b.data[i] {
            let d = seq_swap(b.data, p, i);
            let b = spec_swaps(b, 1);
            HeapV { base: SortBaseV { data: d, ..b }, up: true, y: p, ..v }
        } else {
            HeapV { base: b, up: false, ..v }
        }
    } else {
        HeapV { up: false, ..v }
    }
}

/// One walk-down step at node `i`: compare with both children, swap with
/// the larger qualifying child, clear the flag once no swap happens.
pub open spec fn down_step(v: HeapV, i: int) -> HeapV {
    let hl = v.heap_len;
    let l = 2 * i + 1;
    let r = 2 * i + 2;
    let b1 = spec_cmps(spec_access(v.base, 2), 1);
    let m1 = if l < hl && b1.data[l] > b1.data[i] {
        l
    } else {
        i
    };
    let b2 = spec_cmps(spec_access(b1, 2), 1);
    let m2 = if r < hl && b2.data[r] > b2.data[m1] {
        r
    } else {
        m1
    };
    if m2 != i {
        let d = seq_swap(b2.data, i, m2);
        let b3 = spec_swaps(b2, 1);
        HeapV { base: SortBaseV { data: d, ..b3 }, down: true, y: m2, ..v }
    } else {
        HeapV { base: b2, down: false, ..v }
    }
}

/// One tick: what [`Heap::update`] does to the state.
pub open spec fn step(v: HeapV) -> HeapV {
    let n = v.base.data.len() as int;
    if v.base.done {
        v
    } else if v.up {
        up_step(v, v.y)
    } else if v.down {
        down_step(v, v.y)
    } else if v.x < n {
        // push data[x] onto the heap and start walking it up
        let value = v.base.data[v.x];
        let b = spec_swaps(SortBaseV { freq: value, ..v.base }, 1);
        let d = b.data.update(v.heap_len, value);
        let v1 = HeapV { base: SortBaseV { data: d, ..b }, y: v.heap_len, ..v };
        let v2 = up_step(v1, v.heap_len);
        HeapV { heap_len: v.heap_len + 1, x: v.x + 1, ..v2 }
    } else if v.heap_len > 0 {
        // pop the max, park it on the sorted tail, start walking down
        let b = spec_swaps(spec_access(v.base, 2), 1);
        let value = b.data[0];
        let hl = v.heap_len - 1;
        let d1 = b.data.update(0, b.data[hl]);
        let v1 = HeapV { base: SortBaseV { data: d1, ..b }, heap_len: hl, y: 0, ..v };
        let v2 = down_step(v1, 0);
        let b2 = spec_swaps(SortBaseV { freq: value, ..v2.base }, 1);
        HeapV { base: SortBaseV { data: b2.data.update(hl, value), ..b2 }, ..v2 }
    } else {
        HeapV { base: SortBaseV { done: true, ..v.base }, ..v }
    }
}

/// `v` after `k` ticks.
pub open spec fn steps(v: HeapV, k: nat) -> HeapV
    decreases k,
{
    if k == 0 {
        v
    } else {
        step(steps(v, (k - 1) as nat))
    }
}

/// A tick keeps the state well formed.
pub proof fn lemma_step_inv(v: HeapV)
    requires
        inv(v),
    ensures
        inv(step(v)),
{
    let n = v.base.data.len() as int;
    if !v.base.done && !v.up && !v.down && v.x < n {
        let value = v.base.data[v.x];
        assert(value <= crate::base::MAX_ITEMS);
        let b = spec_swaps(SortBaseV { freq: value, ..v.base }, 1);
        let d = b.data.update(v.heap_len, value);
        assert(forall|j: int| 0 <= j < d.len() ==> d[j] <= crate::base::MAX_ITEMS);
    }
    if !v.base.done && !v.up && !v.down && v.x >= n && v.heap_len > 0 {
        let b = spec_swaps(spec_access(v.base, 2), 1);
        let hl = v.heap_len - 1;
        let d1 = b.data.update(0, b.data[hl]);
        assert(forall|j: int| 0 <= j < d1.len() ==> d1[j] <= crate::base::MAX_ITEMS);
        let v1 = HeapV { base: SortBaseV { data: d1, ..b }, heap_len: hl, y: 0, ..v };
        let v2 = down_step(v1, 0);
        assert(forall|j: int| 0 <= j < v2.base.data.len() ==> v2.base.data[j]
            <= crate::base::MAX_ITEMS);
        let b2 = spec_swaps(SortBaseV { freq: b.data[0], ..v2.base }, 1);
        assert(forall|j: int| 0 <= j < b2.data.update(hl, b.data[0]).len()
            ==> b2.data.update(hl, b.data[0])[j] <= crate::base::MAX_ITEMS);
    }
}

/// Every number of ticks keeps the state well formed.
pub proof fn lemma_steps_inv(v: HeapV, k: nat)
    requires
        inv(v),
    ensures
        inv(steps(v, k)),
    decreases k,
{
    if k > 0 {
        lemma_steps_inv(v, (k - 1) as nat);
        lemma_step_inv(steps(v, (k - 1) as nat));
    }
}

/// A tick keeps the multiset of bar heights: nothing is lost or duplicated.
pub proof fn lemma_step_permutation(v: HeapV)
    requires
        inv(v),
    ensures
        step(v).base.data.to_multiset() == v.base.data.to_multiset(),
{
    broadcast use vstd::seq_lib::group_to_multiset_ensures;

    let n = v.base.data.len() as int;
    if v.base.done {
    } else if v.up {
        if v.y > 0 && v.base.data[(v.y - 1) / 2] < v.base.data[v.y] {
            lemma_seq_swap_multiset(v.base.data, (v.y - 1) / 2, v.y);
        }
    } else if v.down {
        let w = down_step(v, v.y);
        if w.down {
            let m = w.y;
            lemma_seq_swap_multiset(v.base.data, v.y, m);
        }
    } else if v.x < n {
        let value = v.base.data[v.x];
        let d = v.base.data.update(v.heap_len, value);
        assert(d =~= v.base.data);
        let v1 = HeapV {
            base: SortBaseV {
                data: d,
                ..spec_swaps(SortBaseV { freq: value, ..v.base }, 1)
            },
            y: v.heap_len,
            ..v
        };
        let w = up_step(v1, v.heap_len);
        if v.heap_len > 0 && d[(v.heap_len - 1) / 2] < d[v.heap_len] {
            lemma_seq_swap_multiset(d, (v.heap_len - 1) / 2, v.heap_len);
        }
    } else if v.heap_len > 0 {
        let s0 = v.base.data;
        let value = s0[0];
        let hl = v.heap_len - 1;
        let d1 = s0.update(0, s0[hl]);
        assert(d1.to_multiset() == s0.to_multiset().insert(s0[hl]).remove(s0[0]));
        let b = spec_swaps(spec_access(v.base, 2), 1);
        let v1 = HeapV { base: SortBaseV { data: d1, ..b }, heap_len: hl, y: 0, ..v };
        let v2 = down_step(v1, 0);
        let d2 = v2.base.data;
        if v2.down {
            lemma_seq_swap_multiset(d1, 0, v2.y);
        }
        assert(d2.to_multiset() == d1.to_multiset());
        assert(d2[hl] == d1[hl]) by {
            if v2.down {
                assert(v2.y < hl);
            }
        }
        assert(d1[hl] == if hl == 0 { s0[hl] } else { s0[hl] });
        let d3 = d2.update(hl, value);
        assert(d3.to_multiset() == d2.to_multiset().insert(value).remove(d2[hl]));
        assert(d3.to_multiset() =~= s0.to_multiset());
    }
}

/// After any number of ticks the bars are a permutation of the start.
pub proof fn lemma_steps_permutation(v: HeapV, k: nat)
    requires
        inv(v),
    ensures
        steps(v, k).base.data.to_multiset() == v.base.data.to_multiset(),
    decreases k,
{
    if k > 0 {
        lemma_steps_permutation(v, (k - 1) as nat);
        lemma_steps_inv(v, (k - 1) as nat);
        lemma_step_permutation(steps(v, (k - 1) as nat));
    }
}

/// Once done, further ticks change nothing at all.
pub proof fn lemma_done_stable(v: HeapV, k: nat)
    requires
        v.base.done,
    ensures
        steps(v, k) == v,
    decreases k,
{
    if k > 0 {
        lemma_done_stable(v, (k - 1) as nat);
    }
}

/// The three counters never decrease over a tick.
pub proof fn lemma_step_counters(v: HeapV)
    requires
        inv(v),
    ensures
        step(v).base.access >= v.base.access,
        step(v).base.swaps >= v.base.swaps,
        step(v).base.cmps >= v.base.cmps,
{
}

/// Running `k1` ticks and then `k2` more reaches exactly the state of
/// running `k1 + k2` ticks in one batch.
pub proof fn lemma_steps_additive(v: HeapV, k1: nat, k2: nat)
    ensures
        steps(steps(v, k1), k2) == steps(v, k1 + k2),
    decreases k2,
{
    if k2 > 0 {
        lemma_steps_additive(v, k1, (k2 - 1) as nat);
    }
}

/// The max-heap property on the first `hl` bars, except that the edge
/// from `ex` up to its parent need not hold (no edge is exempt at zero,
/// the root having no parent).
pub open spec fn heap_except(d: Seq<usize>, hl: int, ex: int) -> bool {
    forall|c: int| 1 <= c < hl && c != ex ==> d[(c - 1) / 2] >= #[trigger] d[c]
}

/// The max-heap property on the first `hl` bars, except that the edges
/// from the children of `y` up to `y` need not hold.
pub open spec fn heap_except_kids(d: Seq<usize>, hl: int, y: int) -> bool {
    forall|c: int| 1 <= c < hl && c != 2 * y + 1 && c != 2 * y + 2 ==> d[(c - 1) / 2]
        >= #[trigger] d[c]
}

/// The children of the walked node `y` never exceed its parent, so a
/// value moving through `y` stays under its new parent.
pub open spec fn kid_bound(d: Seq<usize>, hl: int, y: int) -> bool {
    y > 0 ==> {
        &&& (2 * y + 1 < hl ==> d[2 * y + 1] <= d[(y - 1) / 2])
        &&& (2 * y + 2 < hl ==> d[2 * y + 2] <= d[(y - 1) / 2])
    }
}

/// What the run has achieved so far: the front of the array is a max
/// heap (up to the one edge the current walk is mending), and in the
/// extract phase the tail is sorted and dominates the heap.
pub open spec fn order_inv(v: HeapV) -> bool {
    let n = v.base.data.len() as int;
    let d = v.base.data;
    let hl = v.heap_len;
    if v.base.done {
        sorted_range(d, 0, n)
    } else {
        &&& (v.up ==> heap_except(d, hl, v.y) && kid_bound(d, hl, v.y))
        &&& (v.down ==> heap_except_kids(d, hl, v.y) && kid_bound(d, hl, v.y))
        &&& (!v.up && !v.down ==> heap_except(d, hl, 0))
        &&& (v.x >= n ==> sorted_range(d, hl, n) && (forall|i: int, j: int|
            0 <= i < hl <= j < n ==> d[i] <= d[j]))
    }
}

/// In a full max heap the root tops every element.
pub proof fn lemma_root_max(d: Seq<usize>, hl: int, j: int)
    requires
        heap_except(d, hl, 0),
        0 <= j < hl,
    ensures
        d[j] <= d[0],
    decreases j,
{
    if j > 0 {
        lemma_root_max(d, hl, (j - 1) / 2);
    }
}

/// One walk-up step keeps the heap shape: either the walk goes on one
/// level up with the same guarantees, or the heap is whole again.
proof fn lemma_up_order(d: Seq<usize>, hl: int, y: int)
    requires
        0 <= y < hl <= d.len(),
        heap_except(d, hl, y),
        kid_bound(d, hl, y),
    ensures
        y > 0 && d[(y - 1) / 2] < d[y] ==> {
            let p = (y - 1) / 2;
            let e = seq_swap(d, p, y);
            &&& heap_except(e, hl, p)
            &&& kid_bound(e, hl, p)
        },
        !(y > 0 && d[(y - 1) / 2] < d[y]) ==> heap_except(d, hl, 0),
{
    if y > 0 && d[(y - 1) / 2] < d[y] {
        let p = (y - 1) / 2;
        let e = seq_swap(d, p, y);
        assert(e[p] == d[y] && e[y] == d[p]);
        assert forall|c: int| 1 <= c < hl && c != p implies e[(c - 1) / 2] >= #[trigger] e[c] by {
            let pc = (c - 1) / 2;
            if c == y {
                assert(e[pc] == e[p] == d[y]);
            } else if pc == y {
                // a child of the walked node: bounded by the old parent
                assert(e[c] == d[c] && e[pc] == d[p]);
                assert(kid_bound(d, hl, y));
                assert(c == 2 * y + 1 || c == 2 * y + 2);
            } else if pc == p {
                // the sibling of the walked node: under the old parent,
                // so under the larger value too
                assert(e[c] == d[c] && d[c] <= d[p]);
            } else {
                assert(e[c] == d[c] && e[pc] == d[pc]);
            }
        }
        if p > 0 {
            assert(kid_bound(e, hl, p)) by {
                let pp = (p - 1) / 2;
                assert(e[pp] == d[pp]);
                if 2 * p + 1 < hl {
                    assert(e[2 * p + 1] <= d[p] || 2 * p + 1 == y);
                }
                if 2 * p + 2 < hl {
                    assert(e[2 * p + 2] <= d[p] || 2 * p + 2 == y);
                }
                assert(d[p] <= d[pp]);
            }
        }
    }
}

/// One walk-down step keeps the heap shape: either the walk goes on one
/// level down with the same guarantees, or the heap is whole again.
proof fn lemma_down_order(d: Seq<usize>, hl: int, y: int)
    requires
        0 <= y,
        hl <= d.len(),
        y < hl || y == 0,
        heap_except_kids(d, hl, y),
        kid_bound(d, hl, y),
    ensures
        ({
            let l = 2 * y + 1;
            let r = 2 * y + 2;
            let m1 = if l < hl && d[l] > d[y] { l } else { y };
            let m = if r < hl && d[r] > d[m1] { r } else { m1 };
            &&& (m != y ==> heap_except_kids(seq_swap(d, y, m), hl, m) && kid_bound(
                seq_swap(d, y, m), hl, m))
            &&& (m == y ==> heap_except(d, hl, 0))
        }),
{
    let l = 2 * y + 1;
    let r = 2 * y + 2;
    let m1 = if l < hl && d[l] > d[y] { l } else { y };
    let m = if r < hl && d[r] > d[m1] { r } else { m1 };
    if m != y {
        let e = seq_swap(d, y, m);
        assert(e[y] == d[m] && e[m] == d[y]);
        assert(d[m] >= d[y]);
        assert(l < hl ==> d[m] >= d[l]);
        assert(r < hl ==> d[m] >= d[r]);
        assert forall|c: int| 1 <= c < hl && c != 2 * m + 1 && c != 2 * m + 2 implies e[(c - 1)
            / 2] >= #[trigger] e[c] by {
            let pc = (c - 1) / 2;
            if c == y {
                // the walked node was not the root here
                assert(e[pc] == d[pc]);
                assert(kid_bound(d, hl, y));
            } else if c == m {
                assert(pc == y);
                assert(e[pc] == d[m] && e[c] == d[y]);
            } else if pc == y {
                // the other child of the walked node
                assert(e[c] == d[c]);
                assert(e[pc] == d[m] && d[c] <= d[m]);
            } else if pc == m {
                assert(e[c] == d[c] && e[pc] == d[y]);
                assert(false);
            } else {
                assert(e[c] == d[c] && e[pc] == d[pc]);
            }
        }
        assert(kid_bound(e, hl, m)) by {
            if m > 0 {
                let pm = (m - 1) / 2;
                assert(pm == y);
                assert(e[y] == d[m]);
                if 2 * m + 1 < hl {
                    assert(d[2 * m + 1] <= d[m]);
                }
                if 2 * m + 2 < hl {
                    assert(d[2 * m + 2] <= d[m]);
                }
            }
        }
    } else {
        assert forall|c: int| 1 <= c < hl && c != 0 implies d[(c - 1) / 2] >= #[trigger] d[c] by {
            if c == l || c == r {
                assert((c - 1) / 2 == y);
            }
        }
    }
}

/// A pop tick keeps the run's achievement: the last leaf replaces the
/// root, the root value parks on the sorted tail, and a walk down starts
/// at the root.
#[verifier::rlimit(60)]
proof fn lemma_pop_order(v: HeapV)
    requires
        inv(v),
        order_inv(v),
        !v.base.done,
        !v.up,
        !v.down,
        v.x >= v.base.data.len(),
        v.heap_len > 0,
    ensures
        order_inv(step(v)),
{
    let n = v.base.data.len() as int;
    let d = v.base.data;
    let hl = v.heap_len;
    {
        let hl2 = hl - 1;
        let value = d[0];
        let d1 = d.update(0, d[hl2]);
        assert(heap_except_kids(d1, hl2, 0)) by {
            assert forall|c: int| 1 <= c < hl2 && c != 1 && c != 2 implies d1[(c - 1) / 2]
                >= #[trigger] d1[c] by {
                assert((c - 1) / 2 >= 1);
                assert(d1[c] == d[c] && d1[(c - 1) / 2] == d[(c - 1) / 2]);
            }
        }
        lemma_down_order(d1, hl2, 0);
        let l = 1int;
        let r = 2int;
        let m1 = if l < hl2 && d1[l] > d1[0] { l } else { 0int };
        let m = if r < hl2 && d1[r] > d1[m1] { r } else { m1 };
        let d2 = if m != 0 { seq_swap(d1, 0, m) } else { d1 };
        let d3 = d2.update(hl2, value);
        assert(step(v).base.data =~= d3);
        assert(step(v).heap_len == hl2);
        // every heap value is at most the old root, which now heads the tail
        assert(forall|i: int| 0 <= i < hl ==> #[trigger] d[i] <= d[0]) by {
            assert forall|i: int| 0 <= i < hl implies #[trigger] d[i] <= d[0] by {
                lemma_root_max(d, hl, i);
            }
        }
        assert(forall|i: int| 0 <= i < hl2 ==> #[trigger] d1[i] <= value);
        assert(forall|i: int| 0 <= i < hl2 ==> #[trigger] d2[i] <= value);
        assert(forall|i: int| 0 <= i < hl2 ==> #[trigger] d3[i] <= value);
        assert(d3[hl2] == value);
        // the heap part still satisfies the walk-down shape
        if m != 0 {
            assert(heap_except_kids(d3, hl2, m)) by {
                assert(forall|c: int| 0 <= c < hl2 ==> #[trigger] d3[c] == d2[c]);
                assert(forall|c: int| 1 <= c < hl2 ==> #[trigger] ((c - 1) / 2) < hl2);
            }
            assert(kid_bound(d3, hl2, m)) by {
                assert(forall|c: int| 0 <= c < hl2 ==> #[trigger] d3[c] == d2[c]);
            }
        } else {
            assert(heap_except(d3, hl2, 0)) by {
                assert(forall|c: int| 0 <= c < hl2 ==> #[trigger] d3[c] == d2[c]);
                assert(forall|c: int| 1 <= c < hl2 ==> #[trigger] ((c - 1) / 2) < hl2);
            }
        }
        // the tail grows by the old root and stays sorted and dominant
        assert(forall|j: int| hl <= j < n ==> #[trigger] d3[j] == d[j]);
        assert(forall|j: int| hl <= j < n ==> value <= #[trigger] d[j]);
        assert(sorted_range(d3, hl2, n));
        assert(forall|i: int, j: int| 0 <= i < hl2 <= j < n ==> d3[i] <= d3[j]);
    }
}

/// A push tick keeps the run's achievement: the new leaf may only break
/// its own parent edge, and one walk-up step mends or hands it on.
#[verifier::rlimit(60)]
proof fn lemma_push_order(v: HeapV)
    requires
        inv(v),
        order_inv(v),
        !v.base.done,
        !v.up,
        !v.down,
        v.x < v.base.data.len(),
    ensures
        order_inv(step(v)),
{
    let n = v.base.data.len() as int;
    let d = v.base.data;
    let hl = v.heap_len;
    let e = d.update(hl, d[v.x]);
    assert(e =~= d);
    assert(heap_except(e, hl + 1, hl));
    assert(kid_bound(e, hl + 1, hl));
    lemma_up_order(e, hl + 1, hl);
}

/// Exchanging two bars inside the heap leaves the tail sorted and still
/// dominating the heap.
proof fn lemma_swap_keeps_tail(d: Seq<usize>, a: int, b: int, hl: int, n: int)
    requires
        0 <= a < hl,
        0 <= b < hl,
        hl <= n == d.len(),
        sorted_range(d, hl, n),
        forall|i: int, j: int| 0 <= i < hl <= j < n ==> d[i] <= d[j],
    ensures
        sorted_range(seq_swap(d, a, b), hl, n),
        forall|i: int, j: int|
            0 <= i < hl <= j < n ==> seq_swap(d, a, b)[i] <= seq_swap(d, a, b)[j],
{
    let e = seq_swap(d, a, b);
    assert(forall|j: int| hl <= j < n ==> #[trigger] e[j] == d[j]);
    assert forall|i: int, j: int| 0 <= i < hl <= j < n implies e[i] <= e[j] by {
        assert(e[i] == d[a] || e[i] == d[b] || e[i] == d[i]);
    }
}

/// A walk-up tick keeps the run's achievement; the swap stays inside the
/// heap, so the tail is untouched.
#[verifier::rlimit(60)]
proof fn lemma_up_tick(v: HeapV)
    requires
        inv(v),
        order_inv(v),
        !v.base.done,
        v.up,
    ensures
        order_inv(step(v)),
{
    let n = v.base.data.len() as int;
    let d = v.base.data;
    let hl = v.heap_len;
    let w = step(v);
    lemma_up_order(d, hl, v.y);
    if v.y > 0 && d[(v.y - 1) / 2] < d[v.y] {
        let p = (v.y - 1) / 2;
        let e = seq_swap(d, p, v.y);
        assert(w.base.data =~= e);
        assert(w.up && w.y == p && w.heap_len == hl && w.x == v.x && !w.base.done);
        assert(heap_except(e, hl, p));
        assert(kid_bound(e, hl, p));
        if v.x >= n {
            lemma_swap_keeps_tail(d, p, v.y, hl, n);
        }
        assert(order_inv(w));
    } else {
        assert(w.base.data == d);
        assert(!w.up && !w.down && w.heap_len == hl && w.x == v.x && !w.base.done);
        assert(heap_except(d, hl, 0));
        assert(order_inv(w));
    }
}

/// A walk-down tick keeps the run's achievement; the swap stays inside
/// the heap, so the tail is untouched.
#[verifier::rlimit(60)]
proof fn lemma_down_tick(v: HeapV)
    requires
        inv(v),
        order_inv(v),
        !v.base.done,
        !v.up,
        v.down,
    ensures
        order_inv(step(v)),
{
    let n = v.base.data.len() as int;
    let d = v.base.data;
    let hl = v.heap_len;
    let w = step(v);
    lemma_down_order(d, hl, v.y);
    let l = 2 * v.y + 1;
    let r = 2 * v.y + 2;
    let m1 = if l < hl && d[l] > d[v.y] { l } else { v.y };
    let m = if r < hl && d[r] > d[m1] { r } else { m1 };
    if m != v.y {
        let e = seq_swap(d, v.y, m);
        assert(w.base.data =~= e);
        assert(w.down && !w.up && w.y == m && w.heap_len == hl && w.x == v.x && !w.base.done);
        assert(heap_except_kids(e, hl, m));
        assert(kid_bound(e, hl, m));
        if v.x >= n {
            lemma_swap_keeps_tail(d, v.y, m, hl, n);
        }
        assert(order_inv(w));
    } else {
        assert(w.base.data == d);
        assert(!w.up && !w.down && w.heap_len == hl && w.x == v.x && !w.base.done);
        assert(heap_except(d, hl, 0));
        assert(order_inv(w));
    }
}

/// A tick keeps the run's achievement.
pub proof fn lemma_step_order(v: HeapV)
    requires
        inv(v),
        order_inv(v),
    ensures
        order_inv(step(v)),
{
    let n = v.base.data.len() as int;
    let d = v.base.data;
    let hl = v.heap_len;
    if v.base.done {
    } else if v.up {
        lemma_up_tick(v);
    } else if v.down {
        lemma_down_tick(v);
    } else if v.x < n {
        lemma_push_order(v);
    } else if hl > 0 {
        lemma_pop_order(v);
    } else {
        // the heap is empty: the tail is the whole array
        assert(sorted_range(d, 0, n));
    }
}

/// The run's achievement holds after any number of ticks.
pub proof fn lemma_steps_order(v: HeapV, k: nat)
    requires
        inv(v),
        order_inv(v),
    ensures
        order_inv(steps(v, k)),
    decreases k,
{
    if k > 0 {
        lemma_steps_order(v, (k - 1) as nat);
        lemma_steps_inv(v, (k - 1) as nat);
        lemma_step_order(steps(v, (k - 1) as nat));
    }
}

/// Whenever the engine reports done, the bars are sorted ascending and
/// still a permutation of the start: run from a fresh state, any number
/// of ticks that reaches the done flag has fully sorted the array.
pub proof fn lemma_done_sorted(v: HeapV, k: nat)
    requires
        inv(v),
        !v.base.done,
        v.heap_len == 0 && !v.up && !v.down && v.x == 0,
        steps(v, k).base.done,
    ensures
        sorted_range(steps(v, k).base.data, 0, steps(v, k).base.data.len() as int),
        steps(v, k).base.data.to_multiset() == v.base.data.to_multiset(),
{
    assert(order_inv(v));
    lemma_steps_order(v, k);
    lemma_steps_permutation(v, k);
}

/// How many ticks a live engine can still take: pushes to go, pops to
/// go, and the walk in progress, which moves strictly toward the root or
/// a leaf.
pub open spec fn ticks_left(v: HeapV) -> int {
    let n = v.base.data.len() as int;
    if v.base.done {
        0
    } else {
        let walk: int = if v.up {
            v.y + 1
        } else if v.down {
            v.heap_len - v.y
        } else {
            0
        };
        (n - v.x) * ((n + 2) * (n + 2)) + v.heap_len * (n + 2) + walk + 1
    }
}

/// Every tick of a live engine consumes remaining work.
pub proof fn lemma_step_dec(v: HeapV)
    requires
        inv(v),
        !v.base.done,
    ensures
        0 <= ticks_left(step(v)) < ticks_left(v),
{
    let n = v.base.data.len() as int;
    let hl = v.heap_len;
    let w = step(v);
    lemma_step_inv(v);
    if !v.up && !v.down && v.x < n {
        // a push advances the build cursor, growing the heap and maybe
        // starting a short walk
        assert((n - v.x) * ((n + 2) * (n + 2)) - (n - v.x - 1) * ((n + 2) * (n + 2)) == (n + 2) * (
        n + 2)) by (nonlinear_arith);
        assert((hl + 1) * (n + 2) - hl * (n + 2) == n + 2) by (nonlinear_arith);
        assert((n + 2) * (n + 2) > (n + 2) + (n + 1)) by (nonlinear_arith)
            requires
                n >= 1,
        ;
        assert(w.up ==> w.y + 1 <= n + 1);
    }
    if !v.up && !v.down && v.x >= n && hl > 0 {
        // a pop shrinks the heap and maybe starts a short walk
        assert(hl * (n + 2) - (hl - 1) * (n + 2) == n + 2) by (nonlinear_arith);
        assert(w.down ==> w.heap_len - w.y <= n);
    }
    if !w.base.done {
        assert((n - w.x) * ((n + 2) * (n + 2)) >= 0) by (nonlinear_arith)
            requires
                w.x <= n,
                n >= 1,
        ;
        assert(w.heap_len * (n + 2) >= 0) by (nonlinear_arith)
            requires
                w.heap_len >= 0,
                n >= 1,
        ;
    }
}

/// The run finishes: after `ticks_left` ticks (or any more) the engine
/// reports done.
pub proof fn lemma_terminates(v: HeapV, k: nat)
    requires
        inv(v),
        k >= ticks_left(v),
    ensures
        steps(v, k).base.done,
    decreases k,
{
    if v.base.done {
        lemma_done_stable(v, k);
    } else {
        lemma_step_dec(v);
        lemma_step_inv(v);
        assert(steps(v, 0) == v);
        assert(steps(v, 1) == step(v));
        lemma_steps_additive(v, 1, (k - 1) as nat);
        lemma_terminates(step(v), (k - 1) as nat);
    }
}

/// The walked node is active; the bar at the heap boundary (the next
/// sorted slot) bounds the region.
pub open spec fn highlight_spec(v: HeapV, i: int) -> Highlight {
    if !v.base.done && i == v.y {
        Highlight::Active
    } else if !v.base.done && i == v.heap_len {
        Highlight::Boundary
    } else {
        Highlight::Normal
    }
}

impl Heap {
    /// Start a run over `base`, with an empty heap.
    pub fn new(base: SortBase) -> (s: Self)
        requires
            base_wf(base@),
            !base@.done,
        ensures
            s@ == (HeapV { base: base@, heap_len: 0, up: false, down: false, x: 0, y: 0 }),
            inv(s@),
    {
        Heap { base, heap_len: 0, heapifying_down: false, heapifying_up: false, x: 0, y: 0 }
    }

    /// True once the array is fully sorted.
    pub fn done(&self) -> (r: bool)
        ensures
            r == self@.base.done,
    {
        self.base.done
    }

    /// The shared state, for the renderer and the counter display.
    pub fn base(&self) -> (b: &SortBase)
        ensures
            b@ == self@.base,
    {
        &self.base
    }

    /// One walk-up step at node `i`.
    fn heap_up(&mut self, i: usize)
        requires
            base_wf(old(self)@.base),
            i < old(self)@.base.data.len(),
        ensures
            final(self)@ == up_step(old(self)@, i as int),
    {
        if i > 0 {
            let p = (i - 1) / 2;
            self.base.bump_access(2);
            self.base.bump_cmps(1);
            let a = self.base.data[p];
            let b = self.base.data[i];
            if a < b {
                self.base.swap_items(p, i);
                self.base.bump_swaps(1);
                self.heapifying_up = true;
                self.y = p;
                assert(self@ =~= up_step(old(self)@, i as int));
                return;
            }
        }
        self.heapifying_up = false;
        assert(self@ =~= up_step(old(self)@, i as int));
    }

    /// One walk-down step at node `i`.
    fn heap_down(&mut self, i: usize)
        requires
            base_wf(old(self)@.base),
            old(self)@.heap_len <= old(self)@.base.data.len(),
            i < old(self)@.base.data.len(),
        ensures
            final(self)@ == down_step(old(self)@, i as int),
    {
        self.heapifying_down = false;
        let l = 2 * i + 1;
        let r = 2 * i + 2;
        let mut largest = i;

        self.base.bump_access(2);
        self.base.bump_cmps(1);
        if l < self.heap_len && self.base.data[l] > self.base.data[largest] {
            largest = l;
        }

        self.base.bump_access(2);
        self.base.bump_cmps(1);
        if r < self.heap_len && self.base.data[r] > self.base.data[largest] {
            largest = r;
        }

        if largest != i {
            self.base.swap_items(i, largest);
            self.base.bump_swaps(1);
            self.heapifying_down = true;
            self.y = largest;
        }
        assert(self@ =~= down_step(old(self)@, i as int));
    }

    /// One tick of heapsort.
    pub fn update(&mut self)
        requires
            inv(old(self)@),
        ensures
            final(self)@ == step(old(self)@),
            inv(final(self)@),
    {
        proof {
            lemma_step_inv(self@);
        }
        if self.base.done {
            return;
        }
        if self.heapifying_up {
            let i = self.y;
            self.heap_up(i);
            assert(self@ =~= step(old(self)@));
            return;
        }
        if self.heapifying_down {
            let i = self.y;
            self.heap_down(i);
            assert(self@ =~= step(old(self)@));
            return;
        }
        let n = self.base.len();
        if self.x < n {
            let value = self.base.data[self.x];
            self.base.set_freq(value);
            self.base.bump_swaps(1);
            self.base.set_at(self.heap_len, value);
            self.y = self.heap_len;
            let i = self.heap_len;
            self.heap_up(i);
            self.heap_len = self.heap_len + 1;
            self.x = self.x + 1;
            assert(self@ =~= step(old(self)@));
            return;
        }
        if self.heap_len > 0 {
            self.base.bump_access(2);
            self.base.bump_swaps(1);
            let value = self.base.data[0];
            self.heap_len = self.heap_len - 1;
            let t = self.base.data[self.heap_len];
            self.base.set_at(0, t);
            self.y = 0;
            self.heap_down(0);
            self.base.set_freq(value);
            self.base.bump_swaps(1);
            self.base.set_at(self.heap_len, value);
            assert(self@ =~= step(old(self)@));
            return;
        }
        self.base.set_done();
        assert(self@ =~= step(old(self)@));
    }

    /// Run `ticks` ticks in one batch.
    pub fn run(&mut self, ticks: usize)
        requires
            inv(old(self)@),
        ensures
            final(self)@ == steps(old(self)@, ticks as nat),
            inv(final(self)@),
    {
        let mut t: usize = 0;
        while t < ticks
            invariant
                t <= ticks,
                inv(self@),
                self@ == steps(old(self)@, t as nat),
            decreases ticks - t,
        {
            self.update();
            t = t + 1;
        }
    }

    /// The role of bar `i` right now.
    pub fn highlight(&self, i: usize) -> (h: Highlight)
        ensures
            h == highlight_spec(self@, i as int),
    {
        if !self.base.done && i == self.y {
            Highlight::Active
        } else if !self.base.done && i == self.heap_len {
            Highlight::Boundary
        } else {
            Highlight::Normal
        }
    }
}

} // verus!
