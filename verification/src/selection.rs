//! Selection sort, one comparison per tick.
//!
//! `x` is the position being filled, `y` scans the tail, `s` remembers the
//! smallest value found so far.  When the scan reaches the end, one tick
//! swaps the minimum into place and opens the next scan.  A one-bar run is
//! done from the start, with no tick needed.

use vstd::prelude::*;
use crate::base::{
    Highlight, sorted_range, SortBase, SortBaseV, base_wf, lemma_seq_swap_multiset, seq_swap, spec_access,
    spec_swaps,
};

verus! {

/// The ghost image of a [`Selection`] engine.
#[verifier::ext_equal]
pub ghost struct SelectionV {
    pub base: SortBaseV,
    /// The position to fill next; everything before it is in final order.
    pub x: int,
    /// The index of the smallest value seen in the current scan.
    pub s: int,
    /// The scan cursor.
    pub y: int,
}

/// Selection sort as a resumable engine.
pub struct Selection {
    pub base: SortBase,
    pub s: usize,
    pub x: usize,
    pub y: usize,
}

impl View for Selection {
    type V = SelectionV;

    open spec fn view(&self) -> SelectionV {
        SelectionV { base: self.base@, x: self.x as int, s: self.s as int, y: self.y as int }
    }
}

/// The cursor bounds that every tick preserves.
pub open spec fn inv(v: SelectionV) -> bool {
    let n = v.base.data.len() as int;
    &&& base_wf(v.base)
    &&& !v.base.done ==> {
        &&& 0 <= v.x <= n - 1
        &&& 0 <= v.s <= n - 1
        &&& 0 <= v.y <= n
    }
}

/// One tick: what [`Selection::update`] does to the state.
pub open spec fn step(v: SelectionV) -> SelectionV {
    let n = v.base.data.len() as int;
    if v.base.done {
        v
    } else if v.x < n - 1 {
        if v.y < n {
            let b = spec_access(v.base, 1);
            if b.data[v.y] < b.data[v.s] {
                SelectionV { base: SortBaseV { freq: b.data[v.y], ..b }, s: v.y, y: v.y + 1, ..v }
            } else {
                SelectionV { base: b, y: v.y + 1, ..v }
            }
        } else {
            let b = spec_swaps(v.base, 1);
            let d = seq_swap(b.data, v.x, v.s);
            SelectionV {
                base: SortBaseV { data: d, freq: d[v.x + 1], ..b },
                x: v.x + 1,
                s: v.x + 1,
                y: v.x + 2,
            }
        }
    } else {
        SelectionV { base: SortBaseV { done: true, ..v.base }, ..v }
    }
}

/// `v` after `k` ticks.
pub open spec fn steps(v: SelectionV, k: nat) -> SelectionV
    decreases k,
{
    if k == 0 {
        v
    } else {
        step(steps(v, (k - 1) as nat))
    }
}

/// A tick keeps the state well formed.
pub proof fn lemma_step_inv(v: SelectionV)
    requires
        inv(v),
    ensures
        inv(step(v)),
{
}

/// Every number of ticks keeps the state well formed.
pub proof fn lemma_steps_inv(v: SelectionV, k: nat)
    requires
        inv(v),
    ensures
        inv(steps(v, k)),
    decreases k,
{
    if k > 0 {
        lemma_steps_inv(v, (k - 1) as nat);
        lemma_step_inv(steps(v, (k - 1) as nat));
    }
}

/// A tick keeps the multiset of bar heights: nothing is lost or duplicated.
pub proof fn lemma_step_permutation(v: SelectionV)
    requires
        inv(v),
    ensures
        step(v).base.data.to_multiset() == v.base.data.to_multiset(),
{
    let n = v.base.data.len() as int;
    if !v.base.done && v.x < n - 1 && v.y >= n {
        lemma_seq_swap_multiset(v.base.data, v.x, v.s);
    }
}

/// After any number of ticks the bars are a permutation of the start.
pub proof fn lemma_steps_permutation(v: SelectionV, k: nat)
    requires
        inv(v),
    ensures
        steps(v, k).base.data.to_multiset() == v.base.data.to_multiset(),
    decreases k,
{
    if k > 0 {
        lemma_steps_permutation(v, (k - 1) as nat);
        lemma_steps_inv(v, (k - 1) as nat);
        lemma_step_permutation(steps(v, (k - 1) as nat));
    }
}

/// Once done, further ticks change nothing at all.
pub proof fn lemma_done_stable(v: SelectionV, k: nat)
    requires
        v.base.done,
    ensures
        steps(v, k) == v,
    decreases k,
{
    if k > 0 {
        lemma_done_stable(v, (k - 1) as nat);
    }
}

/// The three counters never decrease over a tick.
pub proof fn lemma_step_counters(v: SelectionV)
    requires
        inv(v),
    ensures
        step(v).base.access >= v.base.access,
        step(v).base.swaps >= v.base.swaps,
        step(v).base.cmps >= v.base.cmps,
{
}

/// Running `k1` ticks and then `k2` more reaches exactly the state of
/// running `k1 + k2` ticks in one batch.
pub proof fn lemma_steps_additive(v: SelectionV, k1: nat, k2: nat)
    ensures
        steps(steps(v, k1), k2) == steps(v, k1 + k2),
    decreases k2,
{
    if k2 > 0 {
        lemma_steps_additive(v, k1, (k2 - 1) as nat);
    }
}

/// What each scan has achieved so far: the first `x` bars are sorted and
/// not above anything after them, and `s` points at the smallest value
/// the scan has seen.
pub open spec fn order_inv(v: SelectionV) -> bool {
    let n = v.base.data.len() as int;
    let d = v.base.data;
    if v.base.done {
        sorted_range(d, 0, n)
    } else {
        &&& sorted_range(d, 0, v.x)
        &&& (forall|i: int, j: int| 0 <= i < v.x <= j < n ==> d[i] <= d[j])
        &&& v.x <= v.s
        &&& v.x <= v.y
        &&& (forall|j: int| v.x <= j < v.y ==> d[v.s] <= #[trigger] d[j])
    }
}

/// A tick keeps each scan's achievement.
pub proof fn lemma_step_order(v: SelectionV)
    requires
        inv(v),
        order_inv(v),
    ensures
        order_inv(step(v)),
{
    let n = v.base.data.len() as int;
    let d = v.base.data;
    let w = step(v);
    if !v.base.done && v.x < n - 1 && v.y >= n {
        let e = seq_swap(d, v.x, v.s);
        assert(e[v.x] == d[v.s]);
        assert(forall|j: int| 0 <= j < n && j != v.x && j != v.s ==> #[trigger] e[j] == d[j]);
        assert(forall|j: int| v.x < j < n ==> e[v.x] <= #[trigger] e[j]);
        assert(forall|i: int, j: int| 0 <= i < v.x + 1 <= j < n ==> e[i] <= e[j]);
        assert(sorted_range(e, 0, v.x + 1));
    }
    if !v.base.done && v.x < n - 1 && v.y < n {
        if d[v.y] < d[v.s] {
            assert(forall|j: int| v.x <= j < v.y + 1 ==> d[v.y] <= #[trigger] d[j]);
        } else {
            assert(forall|j: int| v.x <= j < v.y + 1 ==> d[v.s] <= #[trigger] d[j]);
        }
    }
    if !v.base.done && v.x >= n - 1 {
        assert(sorted_range(d, 0, n));
    }
}

/// Each scan's achievement holds after any number of ticks.
pub proof fn lemma_steps_order(v: SelectionV, k: nat)
    requires
        inv(v),
        order_inv(v),
    ensures
        order_inv(steps(v, k)),
    decreases k,
{
    if k > 0 {
        lemma_steps_order(v, (k - 1) as nat);
        lemma_steps_inv(v, (k - 1) as nat);
        lemma_step_order(steps(v, (k - 1) as nat));
    }
}

/// Whenever the engine reports done, the bars are sorted ascending and
/// still a permutation of the start: run from a fresh state, any number
/// of ticks that reaches the done flag has fully sorted the array.
pub proof fn lemma_done_sorted(v: SelectionV, k: nat)
    requires
        inv(v),
        v.x == 0 && v.s == 0 && v.y == 0,
        v.base.done ==> v.base.data.len() == 1,
        steps(v, k).base.done,
    ensures
        sorted_range(steps(v, k).base.data, 0, steps(v, k).base.data.len() as int),
        steps(v, k).base.data.to_multiset() == v.base.data.to_multiset(),
{
    assert(order_inv(v));
    lemma_steps_order(v, k);
    lemma_steps_permutation(v, k);
}

/// How many ticks a live engine can still take: each scan position, each
/// swap and the closing tick, counted from the cursors.
pub open spec fn ticks_left(v: SelectionV) -> int {
    let n = v.base.data.len() as int;
    if v.base.done {
        0
    } else {
        (n - 1 - v.x) * (n + 2) + (n - v.y) + 1
    }
}

/// Every tick of a live engine consumes remaining work.
pub proof fn lemma_step_dec(v: SelectionV)
    requires
        inv(v),
        !v.base.done,
    ensures
        0 <= ticks_left(step(v)) < ticks_left(v),
{
    let n = v.base.data.len() as int;
    if v.x < n - 1 && v.y >= n {
        assert((n - 1 - v.x) * (n + 2) - (n - 2 - v.x) * (n + 2) == n + 2) by (nonlinear_arith);
    }
    if !step(v).base.done {
        let w = step(v);
        assert((n - 1 - w.x) * (n + 2) >= 0) by (nonlinear_arith)
            requires
                w.x <= n - 1,
                n >= 1,
        ;
    }
}

/// The run finishes: after `ticks_left` ticks (or any more) the engine
/// reports done.
pub proof fn lemma_terminates(v: SelectionV, k: nat)
    requires
        inv(v),
        k >= ticks_left(v),
    ensures
        steps(v, k).base.done,
    decreases k,
{
    if v.base.done {
        lemma_done_stable(v, k);
    } else {
        lemma_step_dec(v);
        lemma_step_inv(v);
        assert(steps(v, 0) == v);
        assert(steps(v, 1) == step(v));
        lemma_steps_additive(v, 1, (k - 1) as nat);
        lemma_terminates(step(v), (k - 1) as nat);
    }
}

/// The scan cursor is active; the fill position and the minimum so far
/// bound the region being worked on.
pub open spec fn highlight_spec(v: SelectionV, i: int) -> Highlight {
    if !v.base.done && i == v.y {
        Highlight::Active
    } else if !v.base.done && (i == v.x || i == v.s) {
        Highlight::Boundary
    } else {
        Highlight::Normal
    }
}

impl Selection {
    /// Start a run over `base`; a one-bar run is done at once.
    pub fn new(base: SortBase) -> (s: Self)
        requires
            base_wf(base@),
            !base@.done,
        ensures
            s@ == (SelectionV {
                base: SortBaseV { done: base@.data.len() == 1, ..base@ },
                x: 0,
                s: 0,
                y: 0,
            }),
            inv(s@),
    {
        let ghost b0 = base@;
        let mut base = base;
        if base.len() == 1 {
            base.set_done();
        }
        let r = Selection { base, s: 0, x: 0, y: 0 };
        assert(r@ =~= (SelectionV {
            base: SortBaseV { done: b0.data.len() == 1, ..b0 },
            x: 0,
            s: 0,
            y: 0,
        }));
        r
    }

    /// True once the array is fully sorted.
    pub fn done(&self) -> (r: bool)
        ensures
            r == self@.base.done,
    {
        self.base.done
    }

    /// The shared state, for the renderer and the counter display.
    pub fn base(&self) -> (b: &SortBase)
        ensures
            b@ == self@.base,
    {
        &self.base
    }

    /// One tick of selection sort.
    pub fn update(&mut self)
        requires
            inv(old(self)@),
        ensures
            final(self)@ == step(old(self)@),
            inv(final(self)@),
    {
        proof {
            lemma_step_inv(self@);
        }
        if self.base.done {
            return;
        }
        let n = self.base.len();
        if self.x < n - 1 {
            if self.y < n {
                self.base.bump_access(1);
                let a = self.base.data[self.y];
                let m = self.base.data[self.s];
                if a < m {
                    self.s = self.y;
                    self.base.set_freq(a);
                }
                self.y = self.y + 1;
                assert(self@ =~= step(old(self)@));
            } else {
                self.base.bump_swaps(1);
                self.base.swap_items(self.x, self.s);
                self.x = self.x + 1;
                self.s = self.x;
                self.y = self.x + 1;
                let f = self.base.data[self.s];
                self.base.set_freq(f);
                assert(self@ =~= step(old(self)@));
            }
        } else {
            self.base.set_done();
            assert(self@ =~= step(old(self)@));
        }
    }

    /// Run `ticks` ticks in one batch.
    pub fn run(&mut self, ticks: usize)
        requires
            inv(old(self)@),
        ensures
            final(self)@ == steps(old(self)@, ticks as nat),
            inv(final(self)@),
    {
        let mut t: usize = 0;
        while t < ticks
            invariant
                t <= ticks,
                inv(self@),
                self@ == steps(old(self)@, t as nat),
            decreases ticks - t,
        {
            self.update();
            t = t + 1;
        }
    }

    /// The role of bar `i` right now.
    pub fn highlight(&self, i: usize) -> (h: Highlight)
        ensures
            h == highlight_spec(self@, i as int),
    {
        if !self.base.done && i == self.y {
            Highlight::Active
        } else if !self.base.done && (i == self.x || i == self.s) {
            Highlight::Boundary
        } else {
            Highlight::Normal
        }
    }
}

} // verus!
