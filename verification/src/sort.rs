//! The closed set of algorithms, and one engine type that is any of them.
//!
//! The host picks an algorithm from a menu, so the choice is a sum type
//! with a `match` dispatch, and every operation of the shared engine
//! contract — tick, batch run, done, highlight — is forwarded to the
//! chosen engine.

use vstd::prelude::*;
use vstd::multiset::Multiset;
use crate::base::{Highlight, SortBase, SortBaseV, base_wf};
use crate::bubble::Bubble;
use crate::bubble::BubbleV;
use crate::counting::Counting;
use crate::counting::CountingV;
use crate::heap::Heap;
use crate::heap::HeapV;
use crate::insertion::Insertion;
use crate::insertion::InsertionV;
use crate::merge::Merge;
use crate::merge::MergeFrame;
use crate::merge::MergeV;
use crate::quick::Quick;
use crate::quick::QuickState;
use crate::quick::QuickV;
use crate::radix::Radix;
use crate::radix::RadixV;
use crate::selection::Selection;
use crate::selection::SelectionV;

verus! {

/// The algorithms on offer.
#[derive(Copy, Clone)]
pub enum Sort {
    Bubble,
    Counting,
    Heap,
    Insertion,
    Merge,
    Radix,
    Quick,
    Selection,
}

/// The ghost image of a [`Sorter`]: the chosen engine's image.
#[verifier::ext_equal]
pub ghost enum SorterV {
    Bubble(BubbleV),
    Counting(CountingV),
    Heap(HeapV),
    Insertion(InsertionV),
    Merge(MergeV),
    Radix(RadixV),
    Quick(QuickV),
    Selection(SelectionV),
}

/// One engine of any algorithm.
pub enum Sorter {
    Bubble(Bubble),
    Counting(Counting),
    Heap(Heap),
    Insertion(Insertion),
    Merge(Merge),
    Radix(Radix),
    Quick(Quick),
    Selection(Selection),
}

impl View for Sorter {
    type V = SorterV;

    open spec fn view(&self) -> SorterV {
        match self {
            Sorter::Bubble(e) => SorterV::Bubble(e@),
            Sorter::Counting(e) => SorterV::Counting(e@),
            Sorter::Heap(e) => SorterV::Heap(e@),
            Sorter::Insertion(e) => SorterV::Insertion(e@),
            Sorter::Merge(e) => SorterV::Merge(e@),
            Sorter::Radix(e) => SorterV::Radix(e@),
            Sorter::Quick(e) => SorterV::Quick(e@),
            Sorter::Selection(e) => SorterV::Selection(e@),
        }
    }
}

/// The chosen engine's state is well formed.
pub open spec fn inv(v: SorterV) -> bool {
    match v {
        SorterV::Bubble(e) => crate::bubble::inv(e),
        SorterV::Counting(e) => crate::counting::inv(e),
        SorterV::Heap(e) => crate::heap::inv(e),
        SorterV::Insertion(e) => crate::insertion::inv(e),
        SorterV::Merge(e) => crate::merge::inv(e),
        SorterV::Radix(e) => crate::radix::inv(e),
        SorterV::Quick(e) => crate::quick::inv(e),
        SorterV::Selection(e) => crate::selection::inv(e),
    }
}

/// The shared state of the chosen engine.
pub open spec fn base_of(v: SorterV) -> SortBaseV {
    match v {
        SorterV::Bubble(e) => e.base,
        SorterV::Counting(e) => e.base,
        SorterV::Heap(e) => e.base,
        SorterV::Insertion(e) => e.base,
        SorterV::Merge(e) => e.base,
        SorterV::Radix(e) => e.base,
        SorterV::Quick(e) => e.base,
        SorterV::Selection(e) => e.base,
    }
}

/// One tick of the chosen engine.
pub open spec fn step(v: SorterV) -> SorterV {
    match v {
        SorterV::Bubble(e) => SorterV::Bubble(crate::bubble::step(e)),
        SorterV::Counting(e) => SorterV::Counting(crate::counting::step(e)),
        SorterV::Heap(e) => SorterV::Heap(crate::heap::step(e)),
        SorterV::Insertion(e) => SorterV::Insertion(crate::insertion::step(e)),
        SorterV::Merge(e) => SorterV::Merge(crate::merge::step(e)),
        SorterV::Radix(e) => SorterV::Radix(crate::radix::step(e)),
        SorterV::Quick(e) => SorterV::Quick(crate::quick::step(e)),
        SorterV::Selection(e) => SorterV::Selection(crate::selection::step(e)),
    }
}

/// `v` after `k` ticks.
pub open spec fn steps(v: SorterV, k: nat) -> SorterV
    decreases k,
{
    if k == 0 {
        v
    } else {
        step(steps(v, (k - 1) as nat))
    }
}

/// The highlight the chosen engine gives bar `i`.
pub open spec fn highlight_of(v: SorterV, i: int) -> Highlight {
    match v {
        SorterV::Bubble(e) => crate::bubble::highlight_spec(e, i),
        SorterV::Counting(e) => crate::counting::highlight_spec(e, i),
        SorterV::Heap(e) => crate::heap::highlight_spec(e, i),
        SorterV::Insertion(e) => crate::insertion::highlight_spec(e, i),
        SorterV::Merge(e) => crate::merge::highlight_spec(e, i),
        SorterV::Radix(e) => crate::radix::highlight_spec(e, i),
        SorterV::Quick(e) => crate::quick::highlight_spec(e, i),
        SorterV::Selection(e) => crate::selection::highlight_spec(e, i),
    }
}

/// The algorithms that sort by exchanging elements in place: their array
/// is a permutation of the start after every single tick.  The counting,
/// merge and radix engines rebuild the array from side storage instead,
/// so mid-pass their array may briefly hold a value twice.
pub open spec fn swaps_in_place(v: SorterV) -> bool {
    match v {
        SorterV::Bubble(_) => true,
        SorterV::Counting(_) => false,
        SorterV::Heap(_) => true,
        SorterV::Insertion(_) => true,
        SorterV::Merge(_) => false,
        SorterV::Radix(_) => false,
        SorterV::Quick(_) => true,
        SorterV::Selection(_) => true,
    }
}

/// A tick keeps the state well formed.
pub proof fn lemma_step_inv(v: SorterV)
    requires
        inv(v),
    ensures
        inv(step(v)),
{
    match v {
        SorterV::Bubble(e) => crate::bubble::lemma_step_inv(e),
        SorterV::Counting(e) => crate::counting::lemma_step_inv(e),
        SorterV::Heap(e) => crate::heap::lemma_step_inv(e),
        SorterV::Insertion(e) => crate::insertion::lemma_step_inv(e),
        SorterV::Merge(e) => crate::merge::lemma_step_inv(e),
        SorterV::Radix(e) => crate::radix::lemma_step_inv(e),
        SorterV::Quick(e) => crate::quick::lemma_step_inv(e),
        SorterV::Selection(e) => crate::selection::lemma_step_inv(e),
    }
}

/// For every in-place algorithm, a tick keeps the multiset of bar
/// heights: nothing is lost or duplicated.
pub proof fn lemma_step_permutation(v: SorterV)
    requires
        inv(v),
        swaps_in_place(v),
    ensures
        step(v).base_data_multiset() == v.base_data_multiset(),
{
    match v {
        SorterV::Bubble(e) => crate::bubble::lemma_step_permutation(e),
        SorterV::Heap(e) => crate::heap::lemma_step_permutation(e),
        SorterV::Insertion(e) => crate::insertion::lemma_step_permutation(e),
        SorterV::Quick(e) => crate::quick::lemma_step_permutation(e),
        SorterV::Selection(e) => crate::selection::lemma_step_permutation(e),
        _ => (),
    }
}

/// Once done, further ticks change nothing at all.
pub proof fn lemma_done_stable(v: SorterV, k: nat)
    requires
        base_of(v).done,
    ensures
        steps(v, k) == v,
    decreases k,
{
    if k > 0 {
        lemma_done_stable(v, (k - 1) as nat);
        match v {
            SorterV::Bubble(e) => crate::bubble::lemma_done_stable(e, 1),
            SorterV::Counting(e) => crate::counting::lemma_done_stable(e, 1),
            SorterV::Heap(e) => crate::heap::lemma_done_stable(e, 1),
            SorterV::Insertion(e) => crate::insertion::lemma_done_stable(e, 1),
            SorterV::Merge(e) => crate::merge::lemma_done_stable(e, 1),
            SorterV::Radix(e) => crate::radix::lemma_done_stable(e, 1),
            SorterV::Quick(e) => crate::quick::lemma_done_stable(e, 1),
            SorterV::Selection(e) => crate::selection::lemma_done_stable(e, 1),
        }
    }
}

/// The three counters never decrease over a tick, whatever the algorithm.
pub proof fn lemma_step_counters(v: SorterV)
    requires
        inv(v),
    ensures
        base_of(step(v)).access >= base_of(v).access,
        base_of(step(v)).swaps >= base_of(v).swaps,
        base_of(step(v)).cmps >= base_of(v).cmps,
{
    match v {
        SorterV::Bubble(e) => crate::bubble::lemma_step_counters(e),
        SorterV::Counting(e) => crate::counting::lemma_step_counters(e),
        SorterV::Heap(e) => crate::heap::lemma_step_counters(e),
        SorterV::Insertion(e) => crate::insertion::lemma_step_counters(e),
        SorterV::Merge(e) => crate::merge::lemma_step_counters(e),
        SorterV::Radix(e) => crate::radix::lemma_step_counters(e),
        SorterV::Quick(e) => crate::quick::lemma_step_counters(e),
        SorterV::Selection(e) => crate::selection::lemma_step_counters(e),
    }
}

/// Running `k1` ticks and then `k2` more reaches exactly the state of
/// running `k1 + k2` ticks in one batch, whatever the algorithm.
pub proof fn lemma_steps_additive(v: SorterV, k1: nat, k2: nat)
    ensures
        steps(steps(v, k1), k2) == steps(v, k1 + k2),
    decreases k2,
{
    if k2 > 0 {
        lemma_steps_additive(v, k1, (k2 - 1) as nat);
    }
}

impl SorterV {
    /// The multiset of bar heights of the chosen engine.
    pub open spec fn base_data_multiset(self) -> Multiset<usize> {
        base_of(self).data.to_multiset()
    }
}

/// How many ticks the chosen engine can still take.
pub open spec fn ticks_left(v: SorterV) -> int {
    match v {
        SorterV::Bubble(e) => crate::bubble::ticks_left(e),
        SorterV::Counting(e) => crate::counting::ticks_left(e),
        SorterV::Heap(e) => crate::heap::ticks_left(e),
        SorterV::Insertion(e) => crate::insertion::ticks_left(e),
        SorterV::Merge(e) => crate::merge::ticks_left(e),
        SorterV::Radix(e) => crate::radix::ticks_left(e),
        SorterV::Quick(e) => crate::quick::ticks_left(e),
        SorterV::Selection(e) => crate::selection::ticks_left(e),
    }
}

/// Ticking the dispatcher is ticking the chosen engine, over any batch.
pub proof fn lemma_steps_delegate(v: SorterV, k: nat)
    ensures
        match v {
            SorterV::Bubble(e) => steps(v, k) == SorterV::Bubble(crate::bubble::steps(e, k)),
            SorterV::Counting(e) => steps(v, k) == SorterV::Counting(
                crate::counting::steps(e, k),
            ),
            SorterV::Heap(e) => steps(v, k) == SorterV::Heap(crate::heap::steps(e, k)),
            SorterV::Insertion(e) => steps(v, k) == SorterV::Insertion(
                crate::insertion::steps(e, k),
            ),
            SorterV::Merge(e) => steps(v, k) == SorterV::Merge(crate::merge::steps(e, k)),
            SorterV::Radix(e) => steps(v, k) == SorterV::Radix(crate::radix::steps(e, k)),
            SorterV::Quick(e) => steps(v, k) == SorterV::Quick(crate::quick::steps(e, k)),
            SorterV::Selection(e) => steps(v, k) == SorterV::Selection(
                crate::selection::steps(e, k),
            ),
        },
    decreases k,
{
    if k > 0 {
        lemma_steps_delegate(v, (k - 1) as nat);
    }
}

/// The run finishes, whatever the algorithm: after `ticks_left` ticks
/// (or any more) the chosen engine reports done.
pub proof fn lemma_terminates(v: SorterV, k: nat)
    requires
        inv(v),
        k >= ticks_left(v),
    ensures
        base_of(steps(v, k)).done,
{
    lemma_steps_delegate(v, k);
    match v {
        SorterV::Bubble(e) => crate::bubble::lemma_terminates(e, k),
        SorterV::Counting(e) => crate::counting::lemma_terminates(e, k),
        SorterV::Heap(e) => crate::heap::lemma_terminates(e, k),
        SorterV::Insertion(e) => crate::insertion::lemma_terminates(e, k),
        SorterV::Merge(e) => crate::merge::lemma_terminates(e, k),
        SorterV::Radix(e) => crate::radix::lemma_terminates(e, k),
        SorterV::Quick(e) => crate::quick::lemma_terminates(e, k),
        SorterV::Selection(e) => crate::selection::lemma_terminates(e, k),
    }
}

impl Sort {
    /// The display name of the algorithm.
    pub fn name_as_str(&self) -> (r: &str)
        ensures
            r@ == self.name_spec(),
    {
        match self {
            Self::Bubble => "Bubble Sort",
            Self::Counting => "Counting Sort",
            Self::Heap => "Heapsort",
            Self::Insertion => "Insertion Sort",
            Self::Merge => "Merge Sort",
            Self::Radix => "Radix Sort",
            Self::Quick => "Quicksort",
            Self::Selection => "Selection Sort",
        }
    }

    /// The display name, as a specification value.
    pub open spec fn name_spec(&self) -> Seq<char> {
        match self {
            Self::Bubble => "Bubble Sort"@,
            Self::Counting => "Counting Sort"@,
            Self::Heap => "Heapsort"@,
            Self::Insertion => "Insertion Sort"@,
            Self::Merge => "Merge Sort"@,
            Self::Radix => "Radix Sort"@,
            Self::Quick => "Quicksort"@,
            Self::Selection => "Selection Sort"@,
        }
    }

    /// The URL path of the algorithm's page.
    pub fn route_as_str(&self) -> (r: &str)
        ensures
            r@ == self.route_spec(),
    {
        match self {
            Self::Bubble => "/bubble",
            Self::Counting => "/counting",
            Self::Heap => "/heap",
            Self::Insertion => "/insertion",
            Self::Merge => "/merge",
            Self::Radix => "/radix",
            Self::Quick => "/quick",
            Self::Selection => "/selection",
        }
    }

    /// The URL path, as a specification value.
    pub open spec fn route_spec(&self) -> Seq<char> {
        match self {
            Self::Bubble => "/bubble"@,
            Self::Counting => "/counting"@,
            Self::Heap => "/heap"@,
            Self::Insertion => "/insertion"@,
            Self::Merge => "/merge"@,
            Self::Radix => "/radix"@,
            Self::Quick => "/quick"@,
            Self::Selection => "/selection"@,
        }
    }

    /// The fresh engine state that [`Sort::init`] hands out for `base`.
    pub open spec fn init_spec(&self, b: SortBaseV) -> SorterV {
        match self {
            Self::Bubble => SorterV::Bubble(BubbleV { base: b, x: 0, y: 0 }),
            Self::Counting => SorterV::Counting(CountingV {
                base: b,
                count: Seq::empty(),
                counted: false,
                max: 0,
                maxed: false,
                v: 0,
                x: 0,
                orig: b.data,
            }),
            Self::Heap => SorterV::Heap(HeapV {
                base: b,
                heap_len: 0,
                up: false,
                down: false,
                x: 0,
                y: 0,
            }),
            Self::Insertion => SorterV::Insertion(InsertionV {
                base: b,
                x: 1,
                y: 0,
                inserting: false,
            }),
            Self::Merge => SorterV::Merge(MergeV {
                base: b,
                frames: seq![
                    MergeFrame {
                        start: 0,
                        len: b.data.len() as usize,
                        l: 0,
                        r: 0,
                        s: 0,
                        sorted: false,
                    },
                ],
                left: Seq::empty(),
                right: Seq::empty(),
            }),
            Self::Radix => SorterV::Radix(RadixV {
                base: b,
                count: Seq::new(10, |d: int| 0usize),
                counted: false,
                max: 0,
                maxed: false,
                x: 0,
                y: 0,
                radix: 0,
                tmp: b.data,
            }),
            Self::Quick => SorterV::Quick(QuickV {
                base: b,
                frames: seq![
                    QuickState { lo: 0, hi: (b.data.len() - 1) as usize, pivot: 0, i: 0 },
                ],
            }),
            Self::Selection => SorterV::Selection(SelectionV {
                base: SortBaseV { done: b.data.len() == 1, ..b },
                x: 0,
                s: 0,
                y: 0,
            }),
        }
    }

    /// Start a fresh engine of this algorithm over `base`.
    pub fn init(&self, base: SortBase) -> (s: Sorter)
        requires
            base_wf(base@),
            !base@.done,
        ensures
            s@ == self.init_spec(base@),
            inv(s@),
    {
        let r = match self {
            Self::Bubble => Sorter::Bubble(Bubble::new(base)),
            Self::Counting => Sorter::Counting(Counting::new(base)),
            Self::Heap => Sorter::Heap(Heap::new(base)),
            Self::Insertion => Sorter::Insertion(Insertion::new(base)),
            Self::Merge => Sorter::Merge(Merge::new(base)),
            Self::Radix => Sorter::Radix(Radix::new(base)),
            Self::Quick => Sorter::Quick(Quick::new(base)),
            Self::Selection => Sorter::Selection(Selection::new(base)),
        };
        assert(r@ =~= self.init_spec(base@));
        r
    }
}

impl Sorter {
    /// True once the array is fully sorted.
    pub fn done(&self) -> (r: bool)
        ensures
            r == base_of(self@).done,
    {
        match self {
            Sorter::Bubble(e) => e.done(),
            Sorter::Counting(e) => e.done(),
            Sorter::Heap(e) => e.done(),
            Sorter::Insertion(e) => e.done(),
            Sorter::Merge(e) => e.done(),
            Sorter::Radix(e) => e.done(),
            Sorter::Quick(e) => e.done(),
            Sorter::Selection(e) => e.done(),
        }
    }

    /// The shared state, for the renderer and the counter display.
    pub fn base(&self) -> (b: &SortBase)
        ensures
            b@ == base_of(self@),
    {
        match self {
            Sorter::Bubble(e) => e.base(),
            Sorter::Counting(e) => e.base(),
            Sorter::Heap(e) => e.base(),
            Sorter::Insertion(e) => e.base(),
            Sorter::Merge(e) => e.base(),
            Sorter::Radix(e) => e.base(),
            Sorter::Quick(e) => e.base(),
            Sorter::Selection(e) => e.base(),
        }
    }

    /// One tick of the chosen algorithm.
    pub fn update(&mut self)
        requires
            inv(old(self)@),
        ensures
            final(self)@ == step(old(self)@),
            inv(final(self)@),
    {
        match self {
            Sorter::Bubble(e) => e.update(),
            Sorter::Counting(e) => e.update(),
            Sorter::Heap(e) => e.update(),
            Sorter::Insertion(e) => e.update(),
            Sorter::Merge(e) => e.update(),
            Sorter::Radix(e) => e.update(),
            Sorter::Quick(e) => e.update(),
            Sorter::Selection(e) => e.update(),
        }
    }

    /// Run `ticks` ticks in one batch.
    pub fn run(&mut self, ticks: usize)
        requires
            inv(old(self)@),
        ensures
            final(self)@ == steps(old(self)@, ticks as nat),
            inv(final(self)@),
    {
        let mut t: usize = 0;
        while t < ticks
            invariant
                t <= ticks,
                inv(self@),
                self@ == steps(old(self)@, t as nat),
            decreases ticks - t,
        {
            self.update();
            t = t + 1;
        }
    }

    /// The role of bar `i` right now.
    pub fn highlight(&self, i: usize) -> (h: Highlight)
        requires
            inv(self@),
        ensures
            h == highlight_of(self@, i as int),
    {
        match self {
            Sorter::Bubble(e) => e.highlight(i),
            Sorter::Counting(e) => e.highlight(i),
            Sorter::Heap(e) => e.highlight(i),
            Sorter::Insertion(e) => e.highlight(i),
            Sorter::Merge(e) => e.highlight(i),
            Sorter::Radix(e) => e.highlight(i),
            Sorter::Quick(e) => e.highlight(i),
            Sorter::Selection(e) => e.highlight(i),
        }
    }
}

} // verus!
