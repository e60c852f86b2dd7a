//! State shared by every sorting engine: the array being sorted, the done
//! flag, the instrumentation counters and the value that currently drives
//! the tone generator.

use vstd::prelude::*;
use rand::seq::SliceRandom;

verus! {

/// Largest number of items (and largest item value) an engine accepts.
///
/// The bound keeps every cursor computation (`2 * i + 2` for heap children,
/// `10^(d + 1)` for decimal digits) inside `usize` on 32-bit targets.
pub const MAX_ITEMS: usize = 100_000_000;

/// A counter bumped by `k`, stopping at the top of `u64` instead of wrapping.
pub open spec fn sat_add(c: int, k: int) -> int {
    if c + k > u64::MAX { u64::MAX as int } else { c + k }
}

/// The sequence `1, 2, ..., n`: the bar heights before shuffling.
pub open spec fn range_seq(n: nat) -> Seq<usize> {
    Seq::new(n, |i: int| (i + 1) as usize)
}

/// Every two positions of `s` between `lo` and `hi` are in ascending order.
pub open spec fn sorted_range(s: Seq<usize>, lo: int, hi: int) -> bool {
    forall|i: int, j: int| lo <= i <= j < hi ==> s[i] <= s[j]
}

/// `s` with the elements at `i` and `j` exchanged.
pub open spec fn seq_swap(s: Seq<usize>, i: int, j: int) -> Seq<usize> {
    s.update(i, s[j]).update(j, s[i])
}

/// Exchanging two elements keeps the multiset of elements.
pub proof fn lemma_seq_swap_multiset(s: Seq<usize>, i: int, j: int)
    requires
        0 <= i < s.len(),
        0 <= j < s.len(),
    ensures
        seq_swap(s, i, j).to_multiset() == s.to_multiset(),
        seq_swap(s, i, j).len() == s.len(),
{
    broadcast use vstd::seq_lib::group_to_multiset_ensures;

    let s1 = s.update(i, s[j]);
    assert(s1.to_multiset() == s.to_multiset().insert(s[j]).remove(s[i]));
    assert(s1[j] == if i == j { s[j] } else { s[j] });
    assert(seq_swap(s, i, j).to_multiset() == s1.to_multiset().insert(s[i]).remove(s1[j]));
    assert(seq_swap(s, i, j).to_multiset() =~= s.to_multiset());
}

/// Two sequences with the same multiset of elements have the same bound.
pub proof fn lemma_multiset_bound(s1: Seq<usize>, s2: Seq<usize>, b: usize)
    requires
        s1.to_multiset() == s2.to_multiset(),
        forall|i: int| 0 <= i < s1.len() ==> s1[i] <= b,
    ensures
        forall|i: int| 0 <= i < s2.len() ==> s2[i] <= b,
{
    broadcast use vstd::seq_lib::group_to_multiset_ensures;

    assert forall|i: int| 0 <= i < s2.len() implies s2[i] <= b by {
        assert(s2.to_multiset().count(s2[i]) > 0);
        assert(s1.contains(s2[i]));
        let j = choose|j: int| 0 <= j < s1.len() && s1[j] == s2[i];
        assert(s1[j] <= b);
    }
}

/// The role a bar plays at the current instant, for the renderer.
#[derive(Copy, Clone, Debug, PartialEq, Eq, Structural)]
pub enum Highlight {
    /// An ordinary bar.
    Normal,
    /// The bar the engine is touching right now.
    Active,
    /// A bar that delimits the region being worked on.
    Boundary,
}

/// The ghost image of a [`SortBase`].
#[verifier::ext_equal]
pub ghost struct SortBaseV {
    /// The bar heights, in their current order.
    pub data: Seq<usize>,
    /// True once the array is fully sorted and ticks are no-ops.
    pub done: bool,
    /// How many elements have been read.
    pub access: int,
    /// How many elements have been written.
    pub swaps: int,
    /// How many value comparisons have been made.
    pub cmps: int,
    /// The value the tone generator should currently play.
    pub freq: usize,
}

/// The array under sort together with its instrumentation.
///
/// One engine owns one `SortBase` for its whole run; the host only reads
/// the counters, the done flag and the data snapshot between ticks.
pub struct SortBase {
    pub data: Vec<usize>,
    pub done: bool,
    pub access: u64,
    pub swaps: u64,
    pub cmps: u64,
    pub freq: usize,
}

impl View for SortBase {
    type V = SortBaseV;

    open spec fn view(&self) -> SortBaseV {
        SortBaseV {
            data: self.data@,
            done: self.done,
            access: self.access as int,
            swaps: self.swaps as int,
            cmps: self.cmps as int,
            freq: self.freq,
        }
    }
}

/// The bounds every engine relies on: a non-empty array of bounded values,
/// counters inside `u64`.
pub open spec fn base_wf(v: SortBaseV) -> bool {
    &&& 1 <= v.data.len() <= MAX_ITEMS
    &&& forall|i: int| 0 <= i < v.data.len() ==> v.data[i] <= MAX_ITEMS
    &&& 0 <= v.access <= u64::MAX
    &&& 0 <= v.swaps <= u64::MAX
    &&& 0 <= v.cmps <= u64::MAX
}

/// `v` after bumping the access counter by `k`.
pub open spec fn spec_access(v: SortBaseV, k: int) -> SortBaseV {
    SortBaseV { access: sat_add(v.access, k), ..v }
}

/// `v` after bumping the write counter by `k`.
pub open spec fn spec_swaps(v: SortBaseV, k: int) -> SortBaseV {
    SortBaseV { swaps: sat_add(v.swaps, k), ..v }
}

/// `v` after bumping the comparison counter by `k`.
pub open spec fn spec_cmps(v: SortBaseV, k: int) -> SortBaseV {
    SortBaseV { cmps: sat_add(v.cmps, k), ..v }
}

/// Relies on rand's `SliceRandom::shuffle`: it reorders the elements of the
/// slice in place, neither adding, dropping nor changing any element.  The
/// order that comes out depends on the thread's generator, so nothing more
/// is stated of it.
#[verifier::external_body]
fn shuffle(data: &mut Vec<usize>)
    ensures
        final(data)@.to_multiset() == old(data)@.to_multiset(),
        final(data)@.len() == old(data)@.len(),
{
    let mut rng = rand::thread_rng();
    data.shuffle(&mut rng);
}

/// The values `1..=items`, in ascending order.
fn ascending(items: usize) -> (v: Vec<usize>)
    ensures
        v@ == range_seq(items as nat),
{
    let mut v: Vec<usize> = Vec::new();
    let mut i: usize = 0;
    while i < items
        invariant
            i <= items,
            v@ == range_seq(i as nat),
        decreases items - i,
    {
        v.push(i + 1);
        i = i + 1;
        assert(v@ =~= range_seq(i as nat));
    }
    v
}

/// A copy of `data[start..start + len]`.
pub fn copy_range(data: &Vec<usize>, start: usize, len: usize) -> (v: Vec<usize>)
    requires
        start + len <= data@.len(),
    ensures
        v@ == data@.subrange(start as int, start as int + len as int),
{
    let mut v: Vec<usize> = Vec::new();
    let mut i: usize = 0;
    let n = data.len();
    while i < len
        invariant
            i <= len,
            n == data@.len(),
            start + len <= data@.len(),
            v@ == data@.subrange(start as int, start as int + i as int),
        decreases len - i,
    {
        v.push(data[start + i]);
        i = i + 1;
        assert(v@ =~= data@.subrange(start as int, start as int + i as int));
    }
    v
}

impl SortBase {
    /// A fresh run over a random permutation of `1..=items`.
    pub fn new(items: usize) -> (s: Self)
        requires
            1 <= items <= MAX_ITEMS,
        ensures
            base_wf(s@),
            s@.data.to_multiset() == range_seq(items as nat).to_multiset(),
            s@.data.len() == items,
            !s@.done,
            s@.access == 0 && s@.swaps == 0 && s@.cmps == 0,
            s@.freq == 0,
    {
        let mut data = ascending(items);
        proof {
            assert(forall|i: int| 0 <= i < data@.len() ==> data@[i] <= MAX_ITEMS);
        }
        let ghost before = data@;
        shuffle(&mut data);
        proof {
            lemma_multiset_bound(before, data@, MAX_ITEMS);
        }
        SortBase { data, done: false, access: 0, swaps: 0, cmps: 0, freq: 0 }
    }

    /// A fresh run over the given values, for a caller that fixes the input.
    pub fn from_data(data: Vec<usize>) -> (s: Self)
        requires
            1 <= data@.len() <= MAX_ITEMS,
            forall|i: int| 0 <= i < data@.len() ==> data@[i] <= MAX_ITEMS,
        ensures
            base_wf(s@),
            s@.data == data@,
            !s@.done,
            s@.access == 0 && s@.swaps == 0 && s@.cmps == 0,
            s@.freq == 0,
    {
        SortBase { data, done: false, access: 0, swaps: 0, cmps: 0, freq: 0 }
    }

    /// How many bars there are.
    pub fn len(&self) -> (n: usize)
        ensures
            n == self@.data.len(),
    {
        self.data.len()
    }

    /// True once the array is fully sorted.
    pub fn is_done(&self) -> (r: bool)
        ensures
            r == self@.done,
    {
        self.done
    }

    /// The bar heights, for the renderer's snapshot.
    pub fn values(&self) -> (v: &Vec<usize>)
        ensures
            v@ == self@.data,
    {
        &self.data
    }

    /// The element read counter.
    pub fn accesses(&self) -> (r: u64)
        ensures
            r as int == self@.access,
    {
        self.access
    }

    /// The element write counter.
    pub fn writes(&self) -> (r: u64)
        ensures
            r as int == self@.swaps,
    {
        self.swaps
    }

    /// The comparison counter.
    pub fn comparisons(&self) -> (r: u64)
        ensures
            r as int == self@.cmps,
    {
        self.cmps
    }

    /// The value that should drive the tone generator right now.
    pub fn current_value(&self) -> (r: usize)
        ensures
            r == self@.freq,
    {
        self.freq
    }

    /// Count `k` element reads.
    pub fn bump_access(&mut self, k: u64)
        ensures
            final(self)@ == spec_access(old(self)@, k as int),
    {
        self.access = if self.access <= u64::MAX - k { self.access + k } else { u64::MAX };
        assert(self@ =~= spec_access(old(self)@, k as int));
    }

    /// Count `k` element writes.
    pub fn bump_swaps(&mut self, k: u64)
        ensures
            final(self)@ == spec_swaps(old(self)@, k as int),
    {
        self.swaps = if self.swaps <= u64::MAX - k { self.swaps + k } else { u64::MAX };
        assert(self@ =~= spec_swaps(old(self)@, k as int));
    }

    /// Count `k` value comparisons.
    pub fn bump_cmps(&mut self, k: u64)
        ensures
            final(self)@ == spec_cmps(old(self)@, k as int),
    {
        self.cmps = if self.cmps <= u64::MAX - k { self.cmps + k } else { u64::MAX };
        assert(self@ =~= spec_cmps(old(self)@, k as int));
    }

    /// Retune the tone generator to `v`.
    pub fn set_freq(&mut self, v: usize)
        ensures
            final(self)@ == (SortBaseV { freq: v, ..old(self)@ }),
    {
        self.freq = v;
        assert(self@ =~= (SortBaseV { freq: v, ..old(self)@ }));
    }

    /// Exchange the bars at `i` and `j`.
    pub fn swap_items(&mut self, i: usize, j: usize)
        requires
            i < old(self)@.data.len(),
            j < old(self)@.data.len(),
        ensures
            final(self)@ == (SortBaseV {
                data: seq_swap(old(self)@.data, i as int, j as int),
                ..old(self)@
            }),
            final(self)@.data.to_multiset() == old(self)@.data.to_multiset(),
    {
        proof {
            lemma_seq_swap_multiset(self@.data, i as int, j as int);
        }
        let a = self.data[i];
        let b = self.data[j];
        self.data.set(i, b);
        self.data.set(j, a);
        assert(self@ =~= (SortBaseV {
            data: seq_swap(old(self)@.data, i as int, j as int),
            ..old(self)@
        }));
    }

    /// Overwrite the bar at `i` with `v`.
    pub fn set_at(&mut self, i: usize, v: usize)
        requires
            i < old(self)@.data.len(),
        ensures
            final(self)@ == (SortBaseV {
                data: old(self)@.data.update(i as int, v),
                ..old(self)@
            }),
    {
        self.data.set(i, v);
        assert(self@ =~= (SortBaseV {
            data: old(self)@.data.update(i as int, v),
            ..old(self)@
        }));
    }

    /// Mark the run finished.
    pub fn set_done(&mut self)
        ensures
            final(self)@ == (SortBaseV { done: true, ..old(self)@ }),
    {
        self.done = true;
        assert(self@ =~= (SortBaseV { done: true, ..old(self)@ }));
    }
}

} // verus!
