//! Bubble sort, one comparison per tick.
//!
//! The saved state is the pair of cursors `(x, y)`: `x` counts the finished
//! passes, `y` is the position compared against its right neighbour.  A tick
//! compares `data[y]` and `data[y + 1]`; on an inversion it swaps and stays
//! (the next tick re-checks the pair), otherwise it advances the cursors.
//! The run is done once `x` reaches the last position.

use vstd::prelude::*;
use crate::base::{
    Highlight, sorted_range, SortBase, SortBaseV, base_wf, lemma_seq_swap_multiset, seq_swap, spec_access,
    spec_swaps,
};

verus! {

/// The ghost image of a [`Bubble`] engine.
#[verifier::ext_equal]
pub ghost struct BubbleV {
    pub base: SortBaseV,
    /// Finished passes; positions after `len - 1 - x` hold their final values.
    pub x: int,
    /// The left element of the pair compared next.
    pub y: int,
}

/// Bubble sort as a resumable engine.
pub struct Bubble {
    pub base: SortBase,
    pub x: usize,
    pub y: usize,
}

impl View for Bubble {
    type V = BubbleV;

    open spec fn view(&self) -> BubbleV {
        BubbleV { base: self.base@, x: self.x as int, y: self.y as int }
    }
}

/// The cursor bounds that every tick preserves.
pub open spec fn inv(v: BubbleV) -> bool {
    let n = v.base.data.len() as int;
    &&& base_wf(v.base)
    &&& !v.base.done ==> {
        &&& 0 <= v.x < n
        &&& (v.x + 1 < n ==> 0 <= v.y < n - 1 - v.x)
        &&& (v.x + 1 == n ==> v.y == 0)
    }
}

/// One tick: what [`Bubble::update`] does to the state.
pub open spec fn step(v: BubbleV) -> BubbleV {
    let n = v.base.data.len() as int;
    if v.base.done {
        v
    } else if v.x + 1 >= n {
        // a single bar is already sorted
        BubbleV { base: SortBaseV { done: true, ..v.base }, ..v }
    } else {
        let b = spec_access(v.base, 1);
        if b.data[v.y] > b.data[v.y + 1] {
            let d = seq_swap(b.data, v.y, v.y + 1);
            let b = spec_swaps(b, 1);
            BubbleV { base: SortBaseV { data: d, freq: d[v.y + 1], ..b }, ..v }
        } else if v.y + 1 < n - 1 - v.x {
            BubbleV { base: b, x: v.x, y: v.y + 1 }
        } else if v.x + 1 < n - 1 {
            BubbleV { base: b, x: v.x + 1, y: 0 }
        } else {
            BubbleV { base: SortBaseV { done: true, ..b }, x: v.x + 1, y: 0 }
        }
    }
}

/// `v` after `k` ticks.
pub open spec fn steps(v: BubbleV, k: nat) -> BubbleV
    decreases k,
{
    if k == 0 {
        v
    } else {
        step(steps(v, (k - 1) as nat))
    }
}

/// A tick keeps the state well formed.
pub proof fn lemma_step_inv(v: BubbleV)
    requires
        inv(v),
    ensures
        inv(step(v)),
{
}

/// Every number of ticks keeps the state well formed.
pub proof fn lemma_steps_inv(v: BubbleV, k: nat)
    requires
        inv(v),
    ensures
        inv(steps(v, k)),
    decreases k,
{
    if k > 0 {
        lemma_steps_inv(v, (k - 1) as nat);
        lemma_step_inv(steps(v, (k - 1) as nat));
    }
}

/// A tick keeps the multiset of bar heights: nothing is lost or duplicated.
pub proof fn lemma_step_permutation(v: BubbleV)
    requires
        inv(v),
    ensures
        step(v).base.data.to_multiset() == v.base.data.to_multiset(),
{
    let n = v.base.data.len() as int;
    if !v.base.done && v.x + 1 < n {
        if v.base.data[v.y] > v.base.data[v.y + 1] {
            lemma_seq_swap_multiset(v.base.data, v.y, v.y + 1);
        }
    }
}

/// After any number of ticks the bars are a permutation of the start.
pub proof fn lemma_steps_permutation(v: BubbleV, k: nat)
    requires
        inv(v),
    ensures
        steps(v, k).base.data.to_multiset() == v.base.data.to_multiset(),
    decreases k,
{
    if k > 0 {
        lemma_steps_permutation(v, (k - 1) as nat);
        lemma_steps_inv(v, (k - 1) as nat);
        lemma_step_permutation(steps(v, (k - 1) as nat));
    }
}

/// Once done, further ticks change nothing at all.
pub proof fn lemma_done_stable(v: BubbleV, k: nat)
    requires
        v.base.done,
    ensures
        steps(v, k) == v,
    decreases k,
{
    if k > 0 {
        lemma_done_stable(v, (k - 1) as nat);
    }
}

/// The three counters never decrease over a tick.
pub proof fn lemma_step_counters(v: BubbleV)
    requires
        inv(v),
    ensures
        step(v).base.access >= v.base.access,
        step(v).base.swaps >= v.base.swaps,
        step(v).base.cmps >= v.base.cmps,
{
}

/// Running `k1` ticks and then `k2` more reaches exactly the state of
/// running `k1 + k2` ticks in one batch.
pub proof fn lemma_steps_additive(v: BubbleV, k1: nat, k2: nat)
    ensures
        steps(steps(v, k1), k2) == steps(v, k1 + k2),
    decreases k2,
{
    if k2 > 0 {
        lemma_steps_additive(v, k1, (k2 - 1) as nat);
    }
}

/// What each pass has achieved so far: the last `x` bars are sorted and
/// not below anything before them, and the largest bar of the scanned
/// prefix sits at the cursor — or, right after a swap, just right of it.
pub open spec fn order_inv(v: BubbleV) -> bool {
    let n = v.base.data.len() as int;
    let s = v.base.data;
    if v.base.done {
        sorted_range(s, 0, n)
    } else {
        &&& sorted_range(s, n - v.x, n)
        &&& (forall|i: int, j: int| 0 <= i < n - v.x <= j < n ==> s[i] <= s[j])
        &&& ((forall|j: int| 0 <= j < v.y ==> #[trigger] s[j] <= s[v.y]) || (s[v.y] <= s[v.y + 1]
            && forall|j: int| 0 <= j <= v.y ==> #[trigger] s[j] <= s[v.y + 1]))
    }
}

/// A tick keeps each pass's achievement.
pub proof fn lemma_step_order(v: BubbleV)
    requires
        inv(v),
        order_inv(v),
    ensures
        order_inv(step(v)),
{
    let n = v.base.data.len() as int;
    let s = v.base.data;
    let w = step(v);
    if v.base.done {
    } else if v.x + 1 >= n {
        assert(sorted_range(w.base.data, 0, n));
    } else if s[v.y] > s[v.y + 1] {
        let d = seq_swap(s, v.y, v.y + 1);
        assert(d[v.y] == s[v.y + 1] && d[v.y + 1] == s[v.y]);
        assert(forall|j: int| 0 <= j < n && j != v.y && j != v.y + 1 ==> #[trigger] d[j] == s[j]);
        assert(forall|j: int| 0 <= j <= v.y ==> #[trigger] d[j] <= d[v.y + 1]);
        assert(sorted_range(d, n - v.x, n));
    } else {
        let y2 = v.y + 1;
        assert(forall|j: int| 0 <= j < y2 ==> #[trigger] s[j] <= s[y2]);
        if y2 < n - 1 - v.x {
        } else {
            // the pass ends: position y + 1 == n - 1 - x tops the prefix
            assert(forall|j: int| 0 <= j < n - 1 - v.x ==> #[trigger] s[j] <= s[n - 1 - v.x]);
            assert(sorted_range(s, n - 1 - v.x, n));
            if v.x + 1 < n - 1 {
            } else {
                assert(n - 1 - v.x == 1);
                assert(sorted_range(s, 0, n));
            }
        }
    }
}

/// Each pass's achievement holds after any number of ticks.
pub proof fn lemma_steps_order(v: BubbleV, k: nat)
    requires
        inv(v),
        order_inv(v),
    ensures
        order_inv(steps(v, k)),
    decreases k,
{
    if k > 0 {
        lemma_steps_order(v, (k - 1) as nat);
        lemma_steps_inv(v, (k - 1) as nat);
        lemma_step_order(steps(v, (k - 1) as nat));
    }
}

/// A fresh engine starts with nothing achieved yet, which holds trivially.
pub proof fn lemma_order_init(v: BubbleV)
    requires
        inv(v),
        !v.base.done,
        v.x == 0,
        v.y == 0,
    ensures
        order_inv(v),
{
}

/// Whenever the engine reports done, the bars are sorted ascending and
/// still a permutation of the start: run from a fresh state, any number
/// of ticks that reaches the done flag has fully sorted the array.
pub proof fn lemma_done_sorted(v: BubbleV, k: nat)
    requires
        inv(v),
        !v.base.done,
        v.x == 0,
        v.y == 0,
        steps(v, k).base.done,
    ensures
        sorted_range(steps(v, k).base.data, 0, steps(v, k).base.data.len() as int),
        steps(v, k).base.data.to_multiset() == v.base.data.to_multiset(),
{
    lemma_order_init(v);
    lemma_steps_order(v, k);
    lemma_steps_permutation(v, k);
}

/// How many ticks a live engine can still take: two per remaining cursor
/// position (a swap never moves the cursor, but the re-check after it
/// always does), plus one for the pair under comparison if it is still
/// inverted, plus the closing tick.
pub open spec fn ticks_left(v: BubbleV) -> int {
    let n = v.base.data.len() as int;
    let d = v.base.data;
    if v.base.done {
        0
    } else {
        let rest = (n - 1 - v.x) * (n + 2) + (n - 1 - v.x - v.y);
        let inverted: int = if v.x + 1 < n && d[v.y] > d[v.y + 1] {
            1
        } else {
            0
        };
        2 * rest + inverted + 1
    }
}

/// Every tick of a live engine consumes remaining work.
pub proof fn lemma_step_dec(v: BubbleV)
    requires
        inv(v),
        !v.base.done,
    ensures
        0 <= ticks_left(step(v)) < ticks_left(v),
{
    let n = v.base.data.len() as int;
    let d = v.base.data;
    let w = step(v);
    if v.x + 1 < n && !(d[v.y] > d[v.y + 1]) && v.y + 1 >= n - 1 - v.x && v.x + 1 < n - 1 {
        assert((n - 1 - v.x) * (n + 2) - (n - 2 - v.x) * (n + 2) == n + 2) by (nonlinear_arith);
    }
    if !w.base.done {
        assert((n - 1 - w.x) * (n + 2) >= 0) by (nonlinear_arith)
            requires
                w.x <= n - 1,
                n >= 1,
        ;
    }
}

/// The run finishes: after `ticks_left` ticks (or any more) the engine
/// reports done.
pub proof fn lemma_terminates(v: BubbleV, k: nat)
    requires
        inv(v),
        k >= ticks_left(v),
    ensures
        steps(v, k).base.done,
    decreases k,
{
    if v.base.done {
        lemma_done_stable(v, k);
    } else {
        lemma_step_dec(v);
        lemma_step_inv(v);
        assert(steps(v, 0) == v);
        assert(steps(v, 1) == step(v));
        lemma_steps_additive(v, 1, (k - 1) as nat);
        lemma_terminates(step(v), (k - 1) as nat);
    }
}

/// Which bar the renderer should set off: the right element of the pair
/// under comparison.
pub open spec fn highlight_spec(v: BubbleV, i: int) -> Highlight {
    if !v.base.done && i == v.y + 1 {
        Highlight::Active
    } else {
        Highlight::Normal
    }
}

impl Bubble {
    /// Start a run over `base`.
    pub fn new(base: SortBase) -> (s: Self)
        requires
            base_wf(base@),
            !base@.done,
        ensures
            s@ == (BubbleV { base: base@, x: 0, y: 0 }),
            inv(s@),
    {
        Bubble { base, x: 0, y: 0 }
    }

    /// True once the array is fully sorted.
    pub fn done(&self) -> (r: bool)
        ensures
            r == self@.base.done,
    {
        self.base.done
    }

    /// The shared state, for the renderer and the counter display.
    pub fn base(&self) -> (b: &SortBase)
        ensures
            b@ == self@.base,
    {
        &self.base
    }

    /// One tick of bubble sort.
    pub fn update(&mut self)
        requires
            inv(old(self)@),
        ensures
            final(self)@ == step(old(self)@),
            inv(final(self)@),
    {
        proof {
            lemma_step_inv(self@);
        }
        if self.base.done {
            return;
        }
        let n = self.base.len();
        if self.x + 1 >= n {
            self.base.set_done();
            return;
        }
        self.base.bump_access(1);
        let a = self.base.data[self.y];
        let b = self.base.data[self.y + 1];
        if a > b {
            self.base.swap_items(self.y, self.y + 1);
            let f = self.base.data[self.y + 1];
            self.base.bump_swaps(1);
            self.base.set_freq(f);
            assert(self@ =~= step(old(self)@));
        } else if self.y + 1 < n - 1 - self.x {
            self.y = self.y + 1;
            assert(self@ =~= step(old(self)@));
        } else if self.x + 1 < n - 1 {
            self.x = self.x + 1;
            self.y = 0;
            assert(self@ =~= step(old(self)@));
        } else {
            self.x = self.x + 1;
            self.y = 0;
            self.base.set_done();
            assert(self@ =~= step(old(self)@));
        }
    }

    /// Run `ticks` ticks in one batch.
    pub fn run(&mut self, ticks: usize)
        requires
            inv(old(self)@),
        ensures
            final(self)@ == steps(old(self)@, ticks as nat),
            inv(final(self)@),
    {
        let mut t: usize = 0;
        while t < ticks
            invariant
                t <= ticks,
                inv(self@),
                self@ == steps(old(self)@, t as nat),
            decreases ticks - t,
        {
            self.update();
            t = t + 1;
        }
    }

    /// The role of bar `i` right now.
    pub fn highlight(&self, i: usize) -> (h: Highlight)
        requires
            inv(self@),
        ensures
            h == highlight_spec(self@, i as int),
    {
        if !self.base.done && i == self.y + 1 {
            Highlight::Active
        } else {
            Highlight::Normal
        }
    }
}

} // verus!
