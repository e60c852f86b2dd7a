//! Counting sort, one array index per tick.
//!
//! A first phase scans for the maximum value, one element per tick, then
//! sizes one bucket per value from `0` to the maximum.  The count phase
//! tallies each element into its value's bucket, one element per tick.
//! The rebuild phase walks the buckets from the smallest value up: each
//! tick skips empty buckets, takes one unit out of the first non-empty
//! bucket and writes its value at the rebuild cursor.  The bucket sums
//! always account for exactly the elements not yet rebuilt, so a
//! non-empty bucket is always found.  Done once every element is written
//! back.

use vstd::prelude::*;
use crate::base::{
    Highlight, sorted_range, MAX_ITEMS, SortBase, SortBaseV, base_wf, spec_access, spec_swaps,
};

verus! {

/// The sum of the first `u` buckets.
pub open spec fn seq_sum(s: Seq<usize>, u: int) -> int
    decreases u,
{
    if u <= 0 {
        0
    } else {
        seq_sum(s, u - 1) + s[u - 1]
    }
}

/// The first index at or after `i` whose bucket is not empty, or the end.
pub open spec fn next_nonzero(c: Seq<usize>, i: int) -> int
    decreases c.len() - i,
{
    if i < 0 || i >= c.len() {
        i
    } else if c[i] != 0 {
        i
    } else {
        next_nonzero(c, i + 1)
    }
}

/// Bucket sums are never negative.
pub proof fn lemma_sum_nonneg(s: Seq<usize>, u: int)
    ensures
        seq_sum(s, u) >= 0,
    decreases (if u >= 0 { u } else { 0 }),
{
    if u > 0 {
        lemma_sum_nonneg(s, u - 1);
    }
}

/// Each bucket is at most the sum over any prefix that contains it.
pub proof fn lemma_sum_elem(s: Seq<usize>, i: int, u: int)
    requires
        0 <= i < u <= s.len(),
    ensures
        s[i] <= seq_sum(s, u),
    decreases u,
{
    if u - 1 == i {
        lemma_sum_nonneg(s, i);
    } else {
        lemma_sum_elem(s, i, u - 1);
    }
}

/// Changing one bucket changes the sum by the difference.
pub proof fn lemma_sum_update(s: Seq<usize>, i: int, val: usize, u: int)
    requires
        0 <= i < s.len(),
        u <= s.len(),
    ensures
        seq_sum(s.update(i, val), u) == seq_sum(s, u) + (if i < u {
            val - s[i]
        } else {
            0int
        }),
    decreases (if u >= 0 { u } else { 0 }),
{
    if u > 0 {
        lemma_sum_update(s, i, val, u - 1);
    }
}

/// A prefix of empty buckets sums to nothing.
pub proof fn lemma_sum_zero_prefix(s: Seq<usize>, u: int)
    requires
        forall|j: int| 0 <= j < u ==> s[j] == 0,
    ensures
        seq_sum(s, u) == 0,
    decreases (if u >= 0 { u } else { 0 }),
{
    if u > 0 {
        lemma_sum_zero_prefix(s, u - 1);
    }
}

/// Where the bucket walk stops: at the end, or on a non-empty bucket,
/// with nothing but empty buckets skipped.
pub proof fn lemma_next_nonzero(c: Seq<usize>, i: int)
    requires
        0 <= i <= c.len(),
    ensures
        i <= next_nonzero(c, i) <= c.len(),
        next_nonzero(c, i) < c.len() ==> c[next_nonzero(c, i)] != 0,
        forall|j: int| i <= j < next_nonzero(c, i) ==> c[j] == 0,
    decreases c.len() - i,
{
    if i < c.len() && c[i] == 0 {
        lemma_next_nonzero(c, i + 1);
    }
}

/// How many of the first `u` elements of `s` equal `w`.
pub open spec fn cnt_val(s: Seq<usize>, w: int, u: int) -> int
    decreases (if u >= 0 { u } else { 0 }),
{
    if u <= 0 {
        0
    } else {
        cnt_val(s, w, u - 1) + if s[u - 1] as int == w {
            1int
        } else {
            0int
        }
    }
}

/// Tallying a prefix only reads that prefix.
pub proof fn lemma_cnt_val_prefix(s1: Seq<usize>, s2: Seq<usize>, w: int, u: int)
    requires
        forall|i: int| 0 <= i < u ==> s1[i] == s2[i],
    ensures
        cnt_val(s1, w, u) == cnt_val(s2, w, u),
    decreases (if u >= 0 { u } else { 0 }),
{
    if u > 0 {
        lemma_cnt_val_prefix(s1, s2, w, u - 1);
    }
}

/// A value above every element never occurs.
pub proof fn lemma_cnt_val_high(s: Seq<usize>, b: int, w: int, u: int)
    requires
        forall|i: int| 0 <= i < u ==> #[trigger] (s[i] as int) <= b,
        w > b,
    ensures
        cnt_val(s, w, u) == 0,
    decreases (if u >= 0 { u } else { 0 }),
{
    if u > 0 {
        lemma_cnt_val_high(s, b, w, u - 1);
    }
}

/// The tally of a value over the whole sequence is its multiset count.
pub proof fn lemma_cnt_val_multiset(s: Seq<usize>, w: usize)
    ensures
        s.to_multiset().count(w) == cnt_val(s, w as int, s.len() as int),
    decreases s.len(),
{
    broadcast use vstd::seq_lib::group_to_multiset_ensures;

    if s.len() > 0 {
        let t = s.drop_last();
        lemma_cnt_val_multiset(t, w);
        lemma_cnt_val_prefix(s, t, w as int, t.len() as int);
        assert(s =~= t.push(s.last()));
        assert(t.push(s.last()).to_multiset() =~= t.to_multiset().insert(s.last()));
    }
}

/// The ghost image of a [`Counting`] engine.
#[verifier::ext_equal]
pub ghost struct CountingV {
    pub base: SortBaseV,
    /// One bucket per value from `0` to `max`, sized when the max is known.
    pub count: Seq<usize>,
    /// True once every element has been tallied.
    pub counted: bool,
    /// The largest value seen so far.
    pub max: int,
    /// True once the maximum of the whole array is known.
    pub maxed: bool,
    /// The value cursor of the rebuild walk.
    pub v: int,
    /// The cursor of the current phase.
    pub x: int,
    /// The bars as they were when the run started.
    pub orig: Seq<usize>,
}

/// Counting sort as a resumable engine.
pub struct Counting {
    pub base: SortBase,
    pub count: Vec<usize>,
    pub counted: bool,
    pub max: usize,
    pub maxed: bool,
    pub v: usize,
    pub x: usize,
    pub orig: Ghost<Seq<usize>>,
}

impl View for Counting {
    type V = CountingV;

    open spec fn view(&self) -> CountingV {
        CountingV {
            base: self.base@,
            count: self.count@,
            counted: self.counted,
            max: self.max as int,
            maxed: self.maxed,
            v: self.v as int,
            x: self.x as int,
            orig: self.orig@,
        }
    }
}

/// The phase bookkeeping that every tick preserves: the buckets always
/// hold exactly the elements that are tallied but not yet rebuilt.
pub open spec fn inv(v: CountingV) -> bool {
    let n = v.base.data.len() as int;
    &&& base_wf(v.base)
    &&& 0 <= v.max <= MAX_ITEMS
    &&& !v.base.done ==> {
        &&& (!v.maxed ==> {
            &&& !v.counted
            &&& 0 <= v.x < n
            &&& v.v == 0
            &&& v.count.len() == 0
            &&& forall|i: int| 0 <= i < v.x ==> #[trigger] v.base.data[i] <= v.max
        })
        &&& (v.maxed ==> {
            &&& v.count.len() == v.max + 1
            &&& forall|i: int| 0 <= i < n ==> #[trigger] v.base.data[i] <= v.max
        })
        &&& (v.maxed && !v.counted ==> {
            &&& 0 <= v.x < n
            &&& v.v == 0
            &&& seq_sum(v.count, v.count.len() as int) == v.x
        })
        &&& (v.counted ==> {
            &&& v.maxed
            &&& 0 <= v.x <= n
            &&& 0 <= v.v <= v.count.len()
            &&& seq_sum(v.count, v.count.len() as int) == n - v.x
            &&& forall|j: int| 0 <= j < v.v ==> #[trigger] v.count[j] == 0
        })
    }
}

/// The rebuild phase: skip empty buckets, then move one unit from the
/// first non-empty bucket back into the array.
pub open spec fn phase_rebuild(v: CountingV) -> CountingV {
    let n = v.base.data.len() as int;
    if v.x < n {
        let vv = next_nonzero(v.count, v.v);
        let b = spec_access(v.base, if vv >= v.v { vv - v.v } else { 0 });
        let c2 = v.count.update(vv, (v.count[vv] - 1) as usize);
        let b2 = spec_swaps(b, 1);
        CountingV {
            base: SortBaseV {
                data: b2.data.update(v.x, vv as usize),
                freq: vv as usize,
                ..b2
            },
            count: c2,
            v: vv,
            x: v.x + 1,
            ..v
        }
    } else {
        CountingV { base: SortBaseV { done: true, ..v.base }, ..v }
    }
}

/// The count phase: tally `data[x]` into its value's bucket; after the
/// last element the rebuild phase starts at once.
pub open spec fn phase_count(v: CountingV) -> CountingV {
    if !v.counted {
        let n = v.base.data.len() as int;
        let b = spec_access(v.base, 1);
        let val = b.data[v.x];
        let c2 = v.count.update(val as int, (v.count[val as int] + 1) as usize);
        let b2 = SortBaseV { freq: val, ..b };
        if v.x + 1 < n {
            CountingV { base: b2, count: c2, x: v.x + 1, ..v }
        } else {
            phase_rebuild(CountingV { base: b2, count: c2, x: 0, counted: true, ..v })
        }
    } else {
        phase_rebuild(v)
    }
}

/// The max phase: remember the larger of `max` and `data[x]`; after the
/// last element the buckets are sized and the count phase starts at once.
pub open spec fn phase_max(v: CountingV) -> CountingV {
    if !v.maxed {
        let n = v.base.data.len() as int;
        let b = spec_access(v.base, 1);
        let val = b.data[v.x];
        let w = if val > v.max {
            CountingV { base: SortBaseV { freq: val, ..b }, max: val as int, ..v }
        } else {
            CountingV { base: b, ..v }
        };
        if v.x + 1 < n {
            CountingV { x: v.x + 1, ..w }
        } else {
            phase_count(CountingV {
                count: Seq::new((w.max + 1) as nat, |j: int| 0usize),
                x: 0,
                maxed: true,
                ..w
            })
        }
    } else {
        phase_count(v)
    }
}

/// One tick: what [`Counting::update`] does to the state.
pub open spec fn step(v: CountingV) -> CountingV {
    if v.base.done {
        v
    } else {
        phase_max(v)
    }
}

/// `v` after `k` ticks.
pub open spec fn steps(v: CountingV, k: nat) -> CountingV
    decreases k,
{
    if k == 0 {
        v
    } else {
        step(steps(v, (k - 1) as nat))
    }
}

/// In a well-formed rebuild state with work left, the bucket walk stops
/// on a non-empty bucket before the end.
pub proof fn lemma_rebuild_safe(v: CountingV)
    requires
        inv(v),
        !v.base.done,
        v.counted,
        v.x < v.base.data.len(),
    ensures
        ({
            let vv = next_nonzero(v.count, v.v);
            &&& v.v <= vv < v.count.len()
            &&& 1 <= v.count[vv]
        }),
{
    let n = v.base.data.len() as int;
    let cl = v.count.len() as int;
    lemma_next_nonzero(v.count, v.v);
    let vv = next_nonzero(v.count, v.v);
    if vv >= cl {
        assert(forall|j: int| 0 <= j < cl ==> #[trigger] v.count[j] == 0);
        lemma_sum_zero_prefix(v.count, cl);
    }
}

/// A rebuild tick preserves the bookkeeping.
pub proof fn lemma_rebuild_inv(v: CountingV)
    requires
        inv(v),
        !v.base.done,
        v.counted,
    ensures
        inv(phase_rebuild(v)),
{
    let n = v.base.data.len() as int;
    let cl = v.count.len() as int;
    if v.x < n {
        lemma_rebuild_safe(v);
        lemma_next_nonzero(v.count, v.v);
        let vv = next_nonzero(v.count, v.v);
        lemma_sum_update(v.count, vv, (v.count[vv] - 1) as usize, cl);
        let w = phase_rebuild(v);
        assert(seq_sum(w.count, cl) == n - w.x);
        assert(forall|i: int| 0 <= i < n ==> #[trigger] w.base.data[i] <= w.max);
        assert(forall|i: int| 0 <= i < n ==> #[trigger] w.base.data[i] <= MAX_ITEMS);
    }
}

/// A count tick preserves the bookkeeping.
pub proof fn lemma_count_inv(v: CountingV)
    requires
        inv(v),
        !v.base.done,
        v.maxed,
    ensures
        inv(phase_count(v)),
{
    let n = v.base.data.len() as int;
    let cl = v.count.len() as int;
    if !v.counted {
        let val = v.base.data[v.x];
        lemma_sum_elem(v.count, val as int, cl);
        lemma_sum_update(v.count, val as int, (v.count[val as int] + 1) as usize, cl);
        if v.x + 1 < n {
        } else {
            let b = spec_access(v.base, 1);
            let c2 = v.count.update(val as int, (v.count[val as int] + 1) as usize);
            let w = CountingV {
                base: SortBaseV { freq: val, ..b },
                count: c2,
                x: 0,
                counted: true,
                ..v
            };
            lemma_rebuild_inv(w);
        }
    } else {
        lemma_rebuild_inv(v);
    }
}

/// A tick keeps the state well formed.
pub proof fn lemma_step_inv(v: CountingV)
    requires
        inv(v),
    ensures
        inv(step(v)),
{
    let n = v.base.data.len() as int;
    if !v.base.done {
        if !v.maxed {
            let b = spec_access(v.base, 1);
            let val = b.data[v.x];
            let w = if val > v.max {
                CountingV { base: SortBaseV { freq: val, ..b }, max: val as int, ..v }
            } else {
                CountingV { base: b, ..v }
            };
            if v.x + 1 < n {
            } else {
                let zeroed = Seq::new((w.max + 1) as nat, |j: int| 0usize);
                let w2 = CountingV { count: zeroed, x: 0, maxed: true, ..w };
                lemma_sum_zero_prefix(zeroed, zeroed.len() as int);
                lemma_count_inv(w2);
            }
        } else {
            lemma_count_inv(v);
        }
    }
}

/// Every number of ticks keeps the state well formed.
pub proof fn lemma_steps_inv(v: CountingV, k: nat)
    requires
        inv(v),
    ensures
        inv(steps(v, k)),
    decreases k,
{
    if k > 0 {
        lemma_steps_inv(v, (k - 1) as nat);
        lemma_step_inv(steps(v, (k - 1) as nat));
    }
}

/// Once done, further ticks change nothing at all.
pub proof fn lemma_done_stable(v: CountingV, k: nat)
    requires
        v.base.done,
    ensures
        steps(v, k) == v,
    decreases k,
{
    if k > 0 {
        lemma_done_stable(v, (k - 1) as nat);
    }
}

/// The three counters never decrease over a tick.
pub proof fn lemma_step_counters(v: CountingV)
    requires
        inv(v),
    ensures
        step(v).base.access >= v.base.access,
        step(v).base.swaps >= v.base.swaps,
        step(v).base.cmps >= v.base.cmps,
{
}

/// Running `k1` ticks and then `k2` more reaches exactly the state of
/// running `k1 + k2` ticks in one batch.
pub proof fn lemma_steps_additive(v: CountingV, k1: nat, k2: nat)
    ensures
        steps(steps(v, k1), k2) == steps(v, k1 + k2),
    decreases k2,
{
    if k2 > 0 {
        lemma_steps_additive(v, k1, (k2 - 1) as nat);
    }
}

/// What the run has achieved so far: the buckets tally exactly the start
/// values not yet written back, everything written back is ascending and
/// drawn from its bucket — so a finished run holds the start values,
/// sorted.
pub open spec fn order_inv(v: CountingV) -> bool {
    let n = v.base.data.len() as int;
    let d = v.base.data;
    if v.base.done {
        &&& sorted_range(d, 0, n)
        &&& d.to_multiset() == v.orig.to_multiset()
    } else {
        &&& v.orig.len() == n
        &&& (!v.counted ==> d == v.orig)
        &&& (v.maxed ==> forall|i: int| 0 <= i < n ==> #[trigger] v.orig[i] <= v.max)
        &&& (v.maxed && !v.counted ==> forall|u: int|
            0 <= u < v.count.len() ==> #[trigger] v.count[u] == cnt_val(v.orig, u, v.x))
        &&& (v.counted ==> {
            &&& sorted_range(d, 0, v.x)
            &&& (forall|i: int| 0 <= i < v.x ==> #[trigger] d[i] <= v.v)
            &&& (forall|i: int| 0 <= i < v.x ==> #[trigger] d[i] <= v.max)
            &&& (forall|u: int|
                0 <= u < v.count.len() ==> #[trigger] v.count[u] == cnt_val(v.orig, u, n)
                    - cnt_val(d, u, v.x))
        })
    }
}

/// A rebuild tick keeps the achievement: the walk only moves up, every
/// written value comes out of its bucket, and when the buckets drain the
/// array is a sorted permutation of the start.
proof fn lemma_rebuild_order(v: CountingV)
    requires
        inv(v),
        !v.base.done,
        v.counted,
        v.orig.len() == v.base.data.len(),
        sorted_range(v.base.data, 0, v.x),
        forall|i: int| 0 <= i < v.x ==> #[trigger] v.base.data[i] <= v.v,
        forall|i: int| 0 <= i < v.x ==> #[trigger] v.base.data[i] <= v.max,
        forall|i: int| 0 <= i < v.orig.len() ==> #[trigger] v.orig[i] <= v.max,
        forall|u: int|
            0 <= u < v.count.len() ==> #[trigger] v.count[u] == cnt_val(v.orig, u,
                v.base.data.len() as int) - cnt_val(v.base.data, u, v.x),
    ensures
        order_inv(phase_rebuild(v)),
{
    let n = v.base.data.len() as int;
    let d = v.base.data;
    let cl = v.count.len() as int;
    if v.x < n {
        lemma_rebuild_safe(v);
        lemma_next_nonzero(v.count, v.v);
        let vv = next_nonzero(v.count, v.v);
        let e = d.update(v.x, vv as usize);
        assert(forall|i: int| 0 <= i < v.x ==> #[trigger] e[i] == d[i]);
        assert(sorted_range(e, 0, v.x + 1));
        assert(forall|i: int| 0 <= i < v.x + 1 ==> #[trigger] e[i] <= vv);
        assert(vv <= v.max);
        assert forall|u: int| 0 <= u < cl implies #[trigger] v.count.update(vv, (v.count[vv]
            - 1) as usize)[u] == cnt_val(v.orig, u, n) - cnt_val(e, u, v.x + 1) by {
            lemma_cnt_val_prefix(e, d, u, v.x);
            assert(cnt_val(e, u, v.x + 1) == cnt_val(e, u, v.x) + if e[v.x] as int == u {
                1int
            } else {
                0int
            });
        }
    } else {
        // the buckets are drained: the tallies of start and result agree
        // for every value, and the whole array is the sorted prefix
        assert forall|u: int| 0 <= u < cl implies #[trigger] v.count[u] == 0 by {
            lemma_sum_elem(v.count, u, cl);
        }
        assert forall|u: usize|
            v.orig.to_multiset().count(u) == d.to_multiset().count(u) by {
            lemma_cnt_val_multiset(v.orig, u);
            lemma_cnt_val_multiset(d, u);
            if (u as int) < cl {
                assert(v.count[u as int] == 0);
            } else {
                assert(cl == v.max + 1);
                lemma_cnt_val_high(v.orig, v.max, u as int, n);
                lemma_cnt_val_high(d, v.max, u as int, n);
            }
        }
        assert(d.to_multiset() =~= v.orig.to_multiset());
        assert(sorted_range(d, 0, n));
    }
}

/// A count tick keeps the achievement, opening the rebuild with full
/// buckets once the tally completes.
proof fn lemma_count_order(v: CountingV)
    requires
        inv(v),
        !v.base.done,
        v.maxed,
        !v.counted,
        v.orig.len() == v.base.data.len(),
        v.base.data == v.orig,
        forall|i: int| 0 <= i < v.orig.len() ==> #[trigger] v.orig[i] <= v.max,
        forall|u: int|
            0 <= u < v.count.len() ==> #[trigger] v.count[u] == cnt_val(v.orig, u, v.x),
    ensures
        order_inv(phase_count(v)),
{
    let n = v.base.data.len() as int;
    let d = v.base.data;
    let b = spec_access(v.base, 1);
    let val = b.data[v.x];
    let c2 = v.count.update(val as int, (v.count[val as int] + 1) as usize);
    lemma_sum_elem(v.count, val as int, v.count.len() as int);
    lemma_sum_update(v.count, val as int, (v.count[val as int] + 1) as usize,
        v.count.len() as int);
    assert forall|u: int| 0 <= u < c2.len() implies #[trigger] c2[u] == cnt_val(v.orig, u,
        v.x + 1) by {
        assert(cnt_val(v.orig, u, v.x + 1) == cnt_val(v.orig, u, v.x) + if v.orig[v.x] as int
            == u {
            1int
        } else {
            0int
        });
    }
    if v.x + 1 < n {
    } else {
        let w = CountingV { base: SortBaseV { freq: val, ..b }, count: c2, x: 0, counted: true, ..v };
        assert(inv(w));
        assert forall|u: int| 0 <= u < w.count.len() implies #[trigger] w.count[u] == cnt_val(
            w.orig, u, n) - cnt_val(w.base.data, u, 0) by {
            assert(cnt_val(w.base.data, u, 0) == 0);
        }
        lemma_rebuild_order(w);
    }
}

/// A tick keeps the run's achievement.
pub proof fn lemma_step_order(v: CountingV)
    requires
        inv(v),
        order_inv(v),
    ensures
        order_inv(step(v)),
{
    let n = v.base.data.len() as int;
    let d = v.base.data;
    if v.base.done {
    } else if v.counted {
        lemma_rebuild_order(v);
    } else if v.maxed {
        lemma_count_order(v);
    } else {
        let b = spec_access(v.base, 1);
        let val = b.data[v.x];
        let mx: int = if val > v.max {
            val as int
        } else {
            v.max
        };
        if v.x + 1 < n {
        } else {
            // the maximum is in: size the buckets and start the tally
            let zeroed = Seq::new((mx + 1) as nat, |j: int| 0usize);
            let w = CountingV {
                base: SortBaseV { freq: if val > v.max { val } else { v.base.freq }, ..b },
                count: zeroed,
                x: 0,
                maxed: true,
                max: mx,
                ..v
            };
            lemma_sum_zero_prefix(zeroed, zeroed.len() as int);
            assert(forall|i: int| 0 <= i < n ==> #[trigger] v.orig[i] <= mx);
            assert(inv(w));
            assert(forall|u: int|
                0 <= u < w.count.len() ==> #[trigger] w.count[u] == cnt_val(w.orig, u, 0));
            lemma_count_order(w);
            assert(phase_count(w) == step(v));
        }
    }
}

/// The run's achievement holds after any number of ticks.
pub proof fn lemma_steps_order(v: CountingV, k: nat)
    requires
        inv(v),
        order_inv(v),
    ensures
        order_inv(steps(v, k)),
    decreases k,
{
    if k > 0 {
        lemma_steps_order(v, (k - 1) as nat);
        lemma_steps_inv(v, (k - 1) as nat);
        lemma_step_order(steps(v, (k - 1) as nat));
    }
}

/// The starting snapshot is never touched by a tick.
pub proof fn lemma_steps_orig(v: CountingV, k: nat)
    ensures
        steps(v, k).orig == v.orig,
    decreases k,
{
    if k > 0 {
        lemma_steps_orig(v, (k - 1) as nat);
    }
}

/// Whenever the engine reports done, the bars are sorted ascending and
/// still a permutation of the start: run from a fresh state, any number
/// of ticks that reaches the done flag has fully sorted the array.
pub proof fn lemma_done_sorted(v: CountingV, k: nat)
    requires
        inv(v),
        !v.base.done,
        !v.maxed && !v.counted,
        v.orig == v.base.data,
        steps(v, k).base.done,
    ensures
        sorted_range(steps(v, k).base.data, 0, steps(v, k).base.data.len() as int),
        steps(v, k).base.data.to_multiset() == v.base.data.to_multiset(),
{
    assert(order_inv(v));
    lemma_steps_order(v, k);
    lemma_steps_orig(v, k);
}

/// How many ticks a live engine can still take: each phase walks `x`
/// across the array once, and later phases rank lower.
pub open spec fn ticks_left(v: CountingV) -> int {
    let n = v.base.data.len() as int;
    if v.base.done {
        0
    } else {
        let rank: int = if !v.maxed {
            2
        } else if !v.counted {
            1
        } else {
            0
        };
        rank * (n + 2) + (n - v.x) + 1
    }
}

/// Every tick of a live engine consumes remaining work.
pub proof fn lemma_step_dec(v: CountingV)
    requires
        inv(v),
        !v.base.done,
    ensures
        0 <= ticks_left(step(v)) < ticks_left(v),
{
}

/// The run finishes: after `ticks_left` ticks (or any more) the engine
/// reports done.
pub proof fn lemma_terminates(v: CountingV, k: nat)
    requires
        inv(v),
        k >= ticks_left(v),
    ensures
        steps(v, k).base.done,
    decreases k,
{
    if v.base.done {
        lemma_done_stable(v, k);
    } else {
        lemma_step_dec(v);
        lemma_step_inv(v);
        assert(steps(v, 0) == v);
        assert(steps(v, 1) == step(v));
        lemma_steps_additive(v, 1, (k - 1) as nat);
        lemma_terminates(step(v), (k - 1) as nat);
    }
}

/// The bar touched last is active: green once the pass is rebuilding,
/// white while it is still scanning.
pub open spec fn highlight_spec(v: CountingV, i: int) -> Highlight {
    let prev = if v.x > 0 { v.x - 1 } else { 0 };
    if !v.base.done && i == prev {
        if !v.maxed || !v.counted {
            Highlight::Active
        } else {
            Highlight::Boundary
        }
    } else {
        Highlight::Normal
    }
}

/// A walk over the buckets from `from` to the first non-empty one.
fn skip_zeros(count: &Vec<usize>, from: usize) -> (r: usize)
    requires
        from <= count@.len(),
    ensures
        r as int == next_nonzero(count@, from as int),
        from <= r <= count@.len(),
{
    proof {
        lemma_next_nonzero(count@, from as int);
    }
    let mut r = from;
    while r < count.len() && count[r] == 0
        invariant
            from <= r <= count@.len(),
            next_nonzero(count@, from as int) == next_nonzero(count@, r as int),
        decreases count@.len() - r,
    {
        r = r + 1;
    }
    r
}

impl Counting {
    /// Start a run over `base`, with the buckets still unsized.
    pub fn new(base: SortBase) -> (s: Self)
        requires
            base_wf(base@),
            !base@.done,
        ensures
            s@.base == base@,
            s@.count =~= Seq::<usize>::empty(),
            !s@.counted && !s@.maxed,
            s@.max == 0 && s@.v == 0 && s@.x == 0,
            s@.orig == base@.data,
            inv(s@),
    {
        let ghost orig = base@.data;
        Counting { base, count: Vec::new(), counted: false, max: 0, maxed: false, v: 0, x: 0, orig: Ghost(orig) }
    }

    /// True once the array is fully sorted.
    pub fn done(&self) -> (r: bool)
        ensures
            r == self@.base.done,
    {
        self.base.done
    }

    /// The shared state, for the renderer and the counter display.
    pub fn base(&self) -> (b: &SortBase)
        ensures
            b@ == self@.base,
    {
        &self.base
    }

    /// The rebuild part of a tick.
    fn tick_rebuild(&mut self)
        requires
            inv(old(self)@),
            !old(self)@.base.done,
            old(self)@.counted,
        ensures
            final(self)@ == phase_rebuild(old(self)@),
            inv(final(self)@),
    {
        proof {
            lemma_rebuild_inv(self@);
        }
        let n = self.base.len();
        if self.x < n {
            proof {
                lemma_rebuild_safe(self@);
                lemma_next_nonzero(self@.count, self@.v);
            }
            let from = self.v;
            let vv = skip_zeros(&self.count, from);
            self.base.bump_access((vv - from) as u64);
            self.v = vv;
            let cb = self.count[vv];
            self.count.set(vv, cb - 1);
            self.base.bump_swaps(1);
            self.base.set_at(self.x, vv);
            self.base.set_freq(vv);
            self.x = self.x + 1;
            assert(self@ =~= phase_rebuild(old(self)@));
        } else {
            self.base.set_done();
            assert(self@ =~= phase_rebuild(old(self)@));
        }
    }

    /// The count part of a tick, falling through into the rebuild part
    /// when the tally completes.
    fn tick_count(&mut self)
        requires
            inv(old(self)@),
            !old(self)@.base.done,
            old(self)@.maxed,
        ensures
            final(self)@ == phase_count(old(self)@),
            inv(final(self)@),
    {
        proof {
            lemma_count_inv(self@);
        }
        if self.counted {
            self.tick_rebuild();
            return;
        }
        let n = self.base.len();
        self.base.bump_access(1);
        let val = self.base.data[self.x];
        proof {
            lemma_sum_elem(self@.count, val as int, self@.count.len() as int);
        }
        let c = self.count[val];
        self.count.set(val, c + 1);
        self.base.set_freq(val);
        if self.x + 1 < n {
            self.x = self.x + 1;
            assert(self@ =~= phase_count(old(self)@));
            return;
        }
        self.x = 0;
        self.counted = true;
        proof {
            lemma_sum_update(old(self)@.count, val as int, (c + 1) as usize,
                old(self)@.count.len() as int);
        }
        self.tick_rebuild();
        assert(self@ =~= phase_count(old(self)@));
    }

    /// One tick of counting sort.
    pub fn update(&mut self)
        requires
            inv(old(self)@),
        ensures
            final(self)@ == step(old(self)@),
            inv(final(self)@),
    {
        proof {
            lemma_step_inv(self@);
        }
        if self.base.done {
            return;
        }
        if self.maxed {
            self.tick_count();
            assert(self@ =~= step(old(self)@));
            return;
        }
        let n = self.base.len();
        self.base.bump_access(1);
        let val = self.base.data[self.x];
        if val > self.max {
            self.max = val;
            self.base.set_freq(val);
        }
        if self.x + 1 < n {
            self.x = self.x + 1;
            assert(self@ =~= step(old(self)@));
            return;
        }
        self.x = 0;
        self.maxed = true;
        let mut count: Vec<usize> = Vec::new();
        count.resize(self.max + 1, 0);
        self.count = count;
        proof {
            assert(self@.count =~= Seq::new((self@.max + 1) as nat, |j: int| 0usize));
            lemma_sum_zero_prefix(self@.count, self@.count.len() as int);
            assert(inv(self@));
        }
        self.tick_count();
        assert(self@ =~= step(old(self)@));
    }

    /// Run `ticks` ticks in one batch.
    pub fn run(&mut self, ticks: usize)
        requires
            inv(old(self)@),
        ensures
            final(self)@ == steps(old(self)@, ticks as nat),
            inv(final(self)@),
    {
        let mut t: usize = 0;
        while t < ticks
            invariant
                t <= ticks,
                inv(self@),
                self@ == steps(old(self)@, t as nat),
            decreases ticks - t,
        {
            self.update();
            t = t + 1;
        }
    }

    /// The role of bar `i` right now.
    pub fn highlight(&self, i: usize) -> (h: Highlight)
        ensures
            h == highlight_spec(self@, i as int),
    {
        let prev = if self.x > 0 { self.x - 1 } else { 0 };
        if !self.base.done && i == prev {
            if !self.maxed || !self.counted {
                Highlight::Active
            } else {
                Highlight::Boundary
            }
        } else {
            Highlight::Normal
        }
    }
}

} // verus!
