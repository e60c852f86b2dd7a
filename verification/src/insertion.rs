//! Insertion sort, one comparison per tick, with an explicit insert-back
//! phase.
//!
//! The advance cursor `x` scans forward comparing `data[x]` with
//! `data[x - 1]`.  On an inversion the two are swapped and the engine
//! enters the insert-back phase: the out-of-place value at `y` walks left
//! one position per tick until it is in order or reaches the front, after
//! which the advance scan resumes.  Done once the advance cursor has
//! passed the end.

use vstd::prelude::*;
use crate::base::{
    Highlight, sorted_range, SortBase, SortBaseV, base_wf, lemma_seq_swap_multiset, seq_swap, spec_access,
    spec_swaps,
};

verus! {

/// The ghost image of an [`Insertion`] engine.
#[verifier::ext_equal]
pub ghost struct InsertionV {
    pub base: SortBaseV,
    /// The advance cursor: the next unvisited position.
    pub x: int,
    /// In the insert-back phase, the position of the walking value.
    pub y: int,
    /// True while a value is walking left toward its place.
    pub inserting: bool,
}

/// Insertion sort as a resumable engine.
pub struct Insertion {
    pub base: SortBase,
    pub x: usize,
    pub y: usize,
    pub inserting: bool,
}

impl View for Insertion {
    type V = InsertionV;

    open spec fn view(&self) -> InsertionV {
        InsertionV {
            base: self.base@,
            x: self.x as int,
            y: self.y as int,
            inserting: self.inserting,
        }
    }
}

/// The cursor bounds that every tick preserves.
pub open spec fn inv(v: InsertionV) -> bool {
    let n = v.base.data.len() as int;
    &&& base_wf(v.base)
    &&& !v.base.done ==> {
        &&& 1 <= v.x <= n
        &&& (v.inserting ==> 2 <= v.x && 0 <= v.y <= v.x - 2)
    }
}

/// One tick: what [`Insertion::update`] does to the state.
pub open spec fn step(v: InsertionV) -> InsertionV {
    let n = v.base.data.len() as int;
    if v.base.done {
        v
    } else if v.inserting {
        if v.y > 0 {
            let b = spec_access(v.base, 1);
            if b.data[v.y] < b.data[v.y - 1] {
                let d = seq_swap(b.data, v.y - 1, v.y);
                let b = spec_swaps(b, 1);
                InsertionV { base: SortBaseV { data: d, ..b }, y: v.y - 1, ..v }
            } else {
                InsertionV { base: b, inserting: false, ..v }
            }
        } else {
            InsertionV { inserting: false, ..v }
        }
    } else if v.x >= n {
        InsertionV { base: SortBaseV { done: true, ..v.base }, ..v }
    } else {
        let b = spec_access(v.base, 1);
        if b.data[v.x] < b.data[v.x - 1] {
            let d = seq_swap(b.data, v.x - 1, v.x);
            let b = spec_swaps(b, 1);
            InsertionV {
                base: SortBaseV { data: d, freq: d[v.x - 1], ..b },
                x: v.x + 1,
                y: v.x - 1,
                inserting: true,
            }
        } else {
            InsertionV { base: b, x: v.x + 1, ..v }
        }
    }
}

/// `v` after `k` ticks.
pub open spec fn steps(v: InsertionV, k: nat) -> InsertionV
    decreases k,
{
    if k == 0 {
        v
    } else {
        step(steps(v, (k - 1) as nat))
    }
}

/// A tick keeps the state well formed.
pub proof fn lemma_step_inv(v: InsertionV)
    requires
        inv(v),
    ensures
        inv(step(v)),
{
}

/// Every number of ticks keeps the state well formed.
pub proof fn lemma_steps_inv(v: InsertionV, k: nat)
    requires
        inv(v),
    ensures
        inv(steps(v, k)),
    decreases k,
{
    if k > 0 {
        lemma_steps_inv(v, (k - 1) as nat);
        lemma_step_inv(steps(v, (k - 1) as nat));
    }
}

/// A tick keeps the multiset of bar heights: nothing is lost or duplicated.
pub proof fn lemma_step_permutation(v: InsertionV)
    requires
        inv(v),
    ensures
        step(v).base.data.to_multiset() == v.base.data.to_multiset(),
{
    let n = v.base.data.len() as int;
    if !v.base.done {
        if v.inserting {
            if v.y > 0 && v.base.data[v.y] < v.base.data[v.y - 1] {
                lemma_seq_swap_multiset(v.base.data, v.y - 1, v.y);
            }
        } else if v.x < n {
            if v.base.data[v.x] < v.base.data[v.x - 1] {
                lemma_seq_swap_multiset(v.base.data, v.x - 1, v.x);
            }
        }
    }
}

/// After any number of ticks the bars are a permutation of the start.
pub proof fn lemma_steps_permutation(v: InsertionV, k: nat)
    requires
        inv(v),
    ensures
        steps(v, k).base.data.to_multiset() == v.base.data.to_multiset(),
    decreases k,
{
    if k > 0 {
        lemma_steps_permutation(v, (k - 1) as nat);
        lemma_steps_inv(v, (k - 1) as nat);
        lemma_step_permutation(steps(v, (k - 1) as nat));
    }
}

/// Once done, further ticks change nothing at all.
pub proof fn lemma_done_stable(v: InsertionV, k: nat)
    requires
        v.base.done,
    ensures
        steps(v, k) == v,
    decreases k,
{
    if k > 0 {
        lemma_done_stable(v, (k - 1) as nat);
    }
}

/// The three counters never decrease over a tick.
pub proof fn lemma_step_counters(v: InsertionV)
    requires
        inv(v),
    ensures
        step(v).base.access >= v.base.access,
        step(v).base.swaps >= v.base.swaps,
        step(v).base.cmps >= v.base.cmps,
{
}

/// Running `k1` ticks and then `k2` more reaches exactly the state of
/// running `k1 + k2` ticks in one batch.
pub proof fn lemma_steps_additive(v: InsertionV, k1: nat, k2: nat)
    ensures
        steps(steps(v, k1), k2) == steps(v, k1 + k2),
    decreases k2,
{
    if k2 > 0 {
        lemma_steps_additive(v, k1, (k2 - 1) as nat);
    }
}

/// What the scan has achieved so far: the bars before the advance cursor
/// are sorted, except that during the insert-back phase the walking value
/// at `y` is still below its place — everything between it and the cursor
/// is at least as large.
pub open spec fn order_inv(v: InsertionV) -> bool {
    let n = v.base.data.len() as int;
    let d = v.base.data;
    if v.base.done {
        sorted_range(d, 0, n)
    } else if v.inserting {
        &&& (forall|i: int, j: int|
            0 <= i <= j < v.x && i != v.y && j != v.y ==> #[trigger] d[i] <= #[trigger] d[j])
        &&& (forall|j: int| v.y < j < v.x ==> d[v.y] <= #[trigger] d[j])
    } else {
        sorted_range(d, 0, v.x)
    }
}

/// A tick keeps the scan's achievement.
pub proof fn lemma_step_order(v: InsertionV)
    requires
        inv(v),
        order_inv(v),
    ensures
        order_inv(step(v)),
{
    let n = v.base.data.len() as int;
    let d = v.base.data;
    if v.base.done {
    } else if v.inserting {
        if v.y > 0 && d[v.y] < d[v.y - 1] {
            let e = seq_swap(d, v.y - 1, v.y);
            assert(e[v.y - 1] == d[v.y] && e[v.y] == d[v.y - 1]);
            assert(forall|j: int| 0 <= j < n && j != v.y && j != v.y - 1 ==> #[trigger] e[j]
                == d[j]);
            assert(forall|j: int| v.y - 1 < j < v.x ==> e[v.y - 1] <= #[trigger] e[j]);
            assert(forall|i: int, j: int|
                0 <= i <= j < v.x && i != v.y - 1 && j != v.y - 1 ==> #[trigger] e[i]
                    <= #[trigger] e[j]);
        } else {
            assert(forall|i: int, j: int| 0 <= i <= j < v.x ==> d[i] <= d[j]);
        }
    } else if v.x >= n {
        assert(sorted_range(d, 0, n));
    } else {
        if d[v.x] < d[v.x - 1] {
            let e = seq_swap(d, v.x - 1, v.x);
            assert(e[v.x - 1] == d[v.x] && e[v.x] == d[v.x - 1]);
            assert(forall|j: int| 0 <= j < n && j != v.x && j != v.x - 1 ==> #[trigger] e[j]
                == d[j]);
            assert(forall|j: int| v.x - 1 < j < v.x + 1 ==> e[v.x - 1] <= #[trigger] e[j]);
            assert(forall|i: int, j: int|
                0 <= i <= j < v.x + 1 && i != v.x - 1 && j != v.x - 1 ==> #[trigger] e[i]
                    <= #[trigger] e[j]);
        } else {
            assert(forall|i: int, j: int| 0 <= i <= j < v.x + 1 ==> d[i] <= d[j]);
        }
    }
}

/// The scan's achievement holds after any number of ticks.
pub proof fn lemma_steps_order(v: InsertionV, k: nat)
    requires
        inv(v),
        order_inv(v),
    ensures
        order_inv(steps(v, k)),
    decreases k,
{
    if k > 0 {
        lemma_steps_order(v, (k - 1) as nat);
        lemma_steps_inv(v, (k - 1) as nat);
        lemma_step_order(steps(v, (k - 1) as nat));
    }
}

/// Whenever the engine reports done, the bars are sorted ascending and
/// still a permutation of the start: run from a fresh state, any number
/// of ticks that reaches the done flag has fully sorted the array.
pub proof fn lemma_done_sorted(v: InsertionV, k: nat)
    requires
        inv(v),
        !v.base.done,
        v.x == 1 && v.y == 0 && !v.inserting,
        steps(v, k).base.done,
    ensures
        sorted_range(steps(v, k).base.data, 0, steps(v, k).base.data.len() as int),
        steps(v, k).base.data.to_multiset() == v.base.data.to_multiset(),
{
    assert(order_inv(v));
    lemma_steps_order(v, k);
    lemma_steps_permutation(v, k);
}

/// How many ticks a live engine can still take: the advance scan, one
/// insert-back walk per position, and the closing tick.
pub open spec fn ticks_left(v: InsertionV) -> int {
    let n = v.base.data.len() as int;
    if v.base.done {
        0
    } else {
        (n - v.x) * (n + 2) + (if v.inserting {
            v.y + 2
        } else {
            0int
        }) + 1
    }
}

/// Every tick of a live engine consumes remaining work.
pub proof fn lemma_step_dec(v: InsertionV)
    requires
        inv(v),
        !v.base.done,
    ensures
        0 <= ticks_left(step(v)) < ticks_left(v),
{
    let n = v.base.data.len() as int;
    let w = step(v);
    if !v.inserting && v.x < n {
        assert((n - v.x) * (n + 2) - (n - v.x - 1) * (n + 2) == n + 2) by (nonlinear_arith);
    }
    if !w.base.done {
        assert((n - w.x) * (n + 2) >= 0) by (nonlinear_arith)
            requires
                w.x <= n,
                n >= 1,
        ;
    }
}

/// The run finishes: after `ticks_left` ticks (or any more) the engine
/// reports done.
pub proof fn lemma_terminates(v: InsertionV, k: nat)
    requires
        inv(v),
        k >= ticks_left(v),
    ensures
        steps(v, k).base.done,
    decreases k,
{
    if v.base.done {
        lemma_done_stable(v, k);
    } else {
        lemma_step_dec(v);
        lemma_step_inv(v);
        assert(steps(v, 0) == v);
        assert(steps(v, 1) == step(v));
        lemma_steps_additive(v, 1, (k - 1) as nat);
        lemma_terminates(step(v), (k - 1) as nat);
    }
}

/// The walking value is active; the bar just left of the advance cursor
/// bounds the sorted prefix.
pub open spec fn highlight_spec(v: InsertionV, i: int) -> Highlight {
    if !v.base.done && v.inserting && i == v.y {
        Highlight::Active
    } else if !v.base.done && i == v.x - 1 {
        Highlight::Boundary
    } else {
        Highlight::Normal
    }
}

impl Insertion {
    /// Start a run over `base`.
    pub fn new(base: SortBase) -> (s: Self)
        requires
            base_wf(base@),
            !base@.done,
        ensures
            s@ == (InsertionV { base: base@, x: 1, y: 0, inserting: false }),
            inv(s@),
    {
        Insertion { base, x: 1, y: 0, inserting: false }
    }

    /// True once the array is fully sorted.
    pub fn done(&self) -> (r: bool)
        ensures
            r == self@.base.done,
    {
        self.base.done
    }

    /// The shared state, for the renderer and the counter display.
    pub fn base(&self) -> (b: &SortBase)
        ensures
            b@ == self@.base,
    {
        &self.base
    }

    /// One tick of insertion sort.
    pub fn update(&mut self)
        requires
            inv(old(self)@),
        ensures
            final(self)@ == step(old(self)@),
            inv(final(self)@),
    {
        proof {
            lemma_step_inv(self@);
        }
        if self.base.done {
            return;
        }
        let n = self.base.len();
        if self.inserting {
            if self.y > 0 {
                self.base.bump_access(1);
                let a = self.base.data[self.y];
                let b = self.base.data[self.y - 1];
                if a < b {
                    self.base.swap_items(self.y - 1, self.y);
                    self.base.bump_swaps(1);
                    self.y = self.y - 1;
                } else {
                    self.inserting = false;
                }
            } else {
                self.inserting = false;
            }
            assert(self@ =~= step(old(self)@));
        } else if self.x >= n {
            self.base.set_done();
            assert(self@ =~= step(old(self)@));
        } else {
            self.base.bump_access(1);
            let a = self.base.data[self.x];
            let b = self.base.data[self.x - 1];
            if a < b {
                self.base.swap_items(self.x - 1, self.x);
                self.base.bump_swaps(1);
                let f = self.base.data[self.x - 1];
                self.base.set_freq(f);
                self.y = self.x - 1;
                self.x = self.x + 1;
                self.inserting = true;
            } else {
                self.x = self.x + 1;
            }
            assert(self@ =~= step(old(self)@));
        }
    }

    /// Run `ticks` ticks in one batch.
    pub fn run(&mut self, ticks: usize)
        requires
            inv(old(self)@),
        ensures
            final(self)@ == steps(old(self)@, ticks as nat),
            inv(final(self)@),
    {
        let mut t: usize = 0;
        while t < ticks
            invariant
                t <= ticks,
                inv(self@),
                self@ == steps(old(self)@, t as nat),
            decreases ticks - t,
        {
            self.update();
            t = t + 1;
        }
    }

    /// The role of bar `i` right now.
    pub fn highlight(&self, i: usize) -> (h: Highlight)
        requires
            inv(self@),
        ensures
            h == highlight_spec(self@, i as int),
    {
        if !self.base.done && self.inserting && i == self.y {
            Highlight::Active
        } else if !self.base.done && i == self.x - 1 {
            Highlight::Boundary
        } else {
            Highlight::Normal
        }
    }
}

} // verus!
