//! Least-significant-digit radix sort in base 10, one array index per tick.
//!
//! Each decimal digit gets one pass of three phases.  The first pass opens
//! by scanning for the maximum value, one element per tick.  The count
//! phase tallies the current digit of each element into a ten-bucket
//! table, one element per tick; when the tally is complete the buckets are
//! converted in place to suffix counts (how many elements have this digit
//! or a higher one).  The scatter phase then walks a snapshot of the array
//! taken at the start of the pass and writes each element to its slot from
//! the back — `len - count[digit]` — decrementing its bucket, one element
//! per tick.  After a full scatter the pass is re-armed for the next digit
//! until the maximum has no higher digits, which ends the run.

use vstd::prelude::*;
use crate::base::{
    Highlight, MAX_ITEMS, SortBase, SortBaseV, base_wf, copy_range, spec_access, spec_swaps,
};

verus! {

/// `10^e`.
pub open spec fn pow10(e: nat) -> nat
    decreases e,
{
    if e == 0 {
        1
    } else {
        10 * pow10((e - 1) as nat)
    }
}

/// The decimal digit of `v` at position `r`.
pub open spec fn digit(v: nat, r: nat) -> nat {
    (v / pow10(r)) % 10
}

/// How many of the first `u` elements of `s` have digit `d` at position `r`.
pub open spec fn cnt_eq(s: Seq<usize>, r: nat, d: nat, u: int) -> int
    decreases u,
{
    if u <= 0 {
        0
    } else {
        cnt_eq(s, r, d, u - 1) + if digit(s[u - 1] as nat, r) == d {
            1int
        } else {
            0int
        }
    }
}

/// How many of the first `u` elements of `s` have digit `d` or higher at `r`.
pub open spec fn cnt_ge(s: Seq<usize>, r: nat, d: nat, u: int) -> int
    decreases u,
{
    if u <= 0 {
        0
    } else {
        cnt_ge(s, r, d, u - 1) + if digit(s[u - 1] as nat, r) >= d {
            1int
        } else {
            0int
        }
    }
}

/// Powers of ten are positive and grow with the exponent.
pub proof fn lemma_pow10_mono(e1: nat, e2: nat)
    requires
        e1 <= e2,
    ensures
        1 <= pow10(e1) <= pow10(e2),
    decreases e2,
{
    if e2 > e1 {
        lemma_pow10_mono(e1, (e2 - 1) as nat);
    } else if e1 > 0 {
        lemma_pow10_mono((e1 - 1) as nat, (e1 - 1) as nat);
    }
}

/// Both tallies lie between zero and the prefix length.
pub proof fn lemma_cnt_bounds(s: Seq<usize>, r: nat, d: nat, u: int)
    ensures
        0 <= cnt_eq(s, r, d, u) <= if u >= 0 { u } else { 0 },
        0 <= cnt_ge(s, r, d, u) <= if u >= 0 { u } else { 0 },
    decreases (if u >= 0 { u } else { 0 }),
{
    if u > 0 {
        lemma_cnt_bounds(s, r, d, u - 1);
    }
}

/// No digit reaches ten, so the tally of digits at least ten is empty.
pub proof fn lemma_cnt_ge_ten(s: Seq<usize>, r: nat, u: int)
    ensures
        cnt_ge(s, r, 10, u) == 0,
    decreases (if u >= 0 { u } else { 0 }),
{
    if u > 0 {
        lemma_cnt_ge_ten(s, r, u - 1);
    }
}

/// Digit-at-least splits into digit-equal plus digit-at-least-one-more.
pub proof fn lemma_cnt_split(s: Seq<usize>, r: nat, d: nat, u: int)
    ensures
        cnt_ge(s, r, d, u) == cnt_eq(s, r, d, u) + cnt_ge(s, r, (d + 1) as nat, u),
    decreases (if u >= 0 { u } else { 0 }),
{
    if u > 0 {
        lemma_cnt_split(s, r, d, u - 1);
    }
}

/// A longer prefix tallies at least as much.
pub proof fn lemma_cnt_eq_mono(s: Seq<usize>, r: nat, d: nat, u1: int, u2: int)
    requires
        u1 <= u2,
    ensures
        cnt_eq(s, r, d, u1) <= cnt_eq(s, r, d, u2),
    decreases (if u2 >= 0 { u2 } else { 0 }),
{
    if u2 > 0 && u1 < u2 {
        lemma_cnt_eq_mono(s, r, d, u1, u2 - 1);
    }
}

/// The equal-digit tally never exceeds the at-least tally.
pub proof fn lemma_cnt_eq_le_ge(s: Seq<usize>, r: nat, d: nat, u: int)
    ensures
        cnt_eq(s, r, d, u) <= cnt_ge(s, r, d, u),
    decreases (if u >= 0 { u } else { 0 }),
{
    if u > 0 {
        lemma_cnt_eq_le_ge(s, r, d, u - 1);
    }
}

/// The ghost image of a [`Radix`] engine.
#[verifier::ext_equal]
pub ghost struct RadixV {
    pub base: SortBaseV,
    /// The ten digit buckets.
    pub count: Seq<usize>,
    /// True once the current pass has tallied every element.
    pub counted: bool,
    /// The largest value seen so far.
    pub max: int,
    /// True once the maximum of the whole array is known.
    pub maxed: bool,
    /// The cursor of the max and count phases; in the scatter phase, the
    /// slot written last (for the highlight).
    pub x: int,
    /// The scatter cursor into the snapshot.
    pub y: int,
    /// The digit position of the current pass.
    pub radix: int,
    /// The snapshot of the array taken at the start of the pass.
    pub tmp: Seq<usize>,
}

/// Radix sort as a resumable engine.
pub struct Radix {
    pub base: SortBase,
    pub count: Vec<usize>,
    pub counted: bool,
    pub max: usize,
    pub maxed: bool,
    pub x: usize,
    pub y: usize,
    pub radix: u32,
    pub tmp_data: Vec<usize>,
}

impl View for Radix {
    type V = RadixV;

    open spec fn view(&self) -> RadixV {
        RadixV {
            base: self.base@,
            count: self.count@,
            counted: self.counted,
            max: self.max as int,
            maxed: self.maxed,
            x: self.x as int,
            y: self.y as int,
            radix: self.radix as int,
            tmp: self.tmp_data@,
        }
    }
}

/// The phase bookkeeping that every tick preserves: the buckets always
/// tally the snapshot, whose order the scatter phase consumes.
pub open spec fn inv(v: RadixV) -> bool {
    let n = v.base.data.len() as int;
    &&& base_wf(v.base)
    &&& v.count.len() == 10
    &&& v.tmp.len() == n
    &&& forall|i: int| 0 <= i < n ==> #[trigger] v.tmp[i] <= MAX_ITEMS
    &&& 0 <= v.max <= MAX_ITEMS
    &&& 0 <= v.radix <= 8
    &&& pow10(v.radix as nat) <= MAX_ITEMS
    &&& !v.base.done ==> {
        &&& (!v.maxed ==> {
            &&& !v.counted
            &&& 0 <= v.x < n
            &&& v.y == 0
            &&& v.radix == 0
            &&& v.base.data == v.tmp
            &&& forall|d: int| 0 <= d < 10 ==> #[trigger] v.count[d] == 0
        })
        &&& (v.maxed && !v.counted ==> {
            &&& 0 <= v.x < n
            &&& v.y == 0
            &&& v.base.data == v.tmp
            &&& forall|d: int|
                0 <= d < 10 ==> #[trigger] v.count[d] == cnt_eq(v.tmp, v.radix as nat, d as nat, v.x)
        })
        &&& (v.counted ==> {
            &&& v.maxed
            &&& 0 <= v.y <= n
            &&& 0 <= v.x < n
            &&& forall|d: int|
                0 <= d < 10 ==> #[trigger] v.count[d] == cnt_ge(v.tmp, v.radix as nat, d as nat, n)
                    - cnt_eq(v.tmp, v.radix as nat, d as nat, v.y)
        })
    }
}

/// The scatter phase: place `tmp[y]` at its slot from the back and use up
/// one unit of its digit's bucket; after the last element, either re-arm
/// for the next digit or finish.
pub open spec fn phase_scatter(v: RadixV) -> RadixV {
    let n = v.base.data.len() as int;
    if v.y < v.tmp.len() {
        let b = spec_access(v.base, 1);
        let val = v.tmp[v.y];
        let d = digit(val as nat, v.radix as nat) as int;
        let b2 = spec_access(b, 1);
        let i = v.tmp.len() - v.count[d];
        let c2 = v.count.update(d, (v.count[d] - 1) as usize);
        let b3 = spec_swaps(b2, 1);
        RadixV {
            base: SortBaseV { data: b3.data.update(i, val), freq: val, ..b3 },
            count: c2,
            x: i,
            y: v.y + 1,
            ..v
        }
    } else if v.max >= pow10((v.radix + 1) as nat) {
        RadixV {
            count: Seq::new(10, |d: int| 0usize),
            counted: false,
            x: 0,
            y: 0,
            radix: v.radix + 1,
            tmp: v.base.data,
            ..v
        }
    } else {
        RadixV { base: SortBaseV { done: true, ..v.base }, ..v }
    }
}

/// The end of the count phase: the buckets become suffix counts (how many
/// elements have this digit or a higher one) and the scatter phase opens.
pub open spec fn count_finish(v: RadixV) -> RadixV {
    let n = v.base.data.len() as int;
    let b = spec_access(v.base, 1);
    let cg = Seq::new(10, |d: int| cnt_ge(v.tmp, v.radix as nat, d as nat, n) as usize);
    RadixV {
        base: SortBaseV { freq: b.data[v.x], ..b },
        count: cg,
        x: 0,
        counted: true,
        ..v
    }
}

/// The count phase: tally the digit of `data[x]`; after the last element
/// the buckets become suffix counts and the scatter phase starts at once.
pub open spec fn phase_count(v: RadixV) -> RadixV {
    if !v.counted {
        let n = v.base.data.len() as int;
        let b = spec_access(v.base, 1);
        let val = b.data[v.x];
        let d = digit(val as nat, v.radix as nat) as int;
        let c2 = v.count.update(d, (v.count[d] + 1) as usize);
        let b2 = SortBaseV { freq: val, ..b };
        if v.x + 1 < n {
            RadixV { base: b2, count: c2, x: v.x + 1, ..v }
        } else {
            phase_scatter(count_finish(v))
        }
    } else {
        phase_scatter(v)
    }
}

/// The max phase: remember the larger of `max` and `data[x]`; after the
/// last element the count phase starts at once.
pub open spec fn phase_max(v: RadixV) -> RadixV {
    if !v.maxed {
        let n = v.base.data.len() as int;
        let b = spec_access(v.base, 1);
        let val = b.data[v.x];
        let w = if val > v.max {
            RadixV { base: SortBaseV { freq: val, ..b }, max: val as int, ..v }
        } else {
            RadixV { base: b, ..v }
        };
        if v.x + 1 < n {
            RadixV { x: v.x + 1, ..w }
        } else {
            phase_count(RadixV { x: 0, maxed: true, ..w })
        }
    } else {
        phase_count(v)
    }
}

/// One tick: what [`Radix::update`] does to the state.
pub open spec fn step(v: RadixV) -> RadixV {
    if v.base.done {
        v
    } else {
        phase_max(v)
    }
}

/// `v` after `k` ticks.
pub open spec fn steps(v: RadixV, k: nat) -> RadixV
    decreases k,
{
    if k == 0 {
        v
    } else {
        step(steps(v, (k - 1) as nat))
    }
}

/// In a well-formed scatter state with work left, the bucket of the next
/// element's digit is neither empty nor larger than the array.
pub proof fn lemma_scatter_safe(v: RadixV)
    requires
        inv(v),
        !v.base.done,
        v.counted,
        v.y < v.tmp.len(),
    ensures
        ({
            let d = digit(v.tmp[v.y] as nat, v.radix as nat) as int;
            1 <= v.count[d] <= v.tmp.len()
        }),
{
    let n = v.base.data.len() as int;
    let r = v.radix as nat;
    let d = digit(v.tmp[v.y] as nat, r);
    assert(cnt_eq(v.tmp, r, d, v.y + 1) == cnt_eq(v.tmp, r, d, v.y) + 1);
    lemma_cnt_eq_mono(v.tmp, r, d, v.y + 1, n);
    lemma_cnt_eq_le_ge(v.tmp, r, d, n);
    lemma_cnt_bounds(v.tmp, r, d, n);
    lemma_cnt_bounds(v.tmp, r, d, v.y);
}

/// A scatter tick preserves the bookkeeping.
pub proof fn lemma_scatter_inv(v: RadixV)
    requires
        inv(v),
        !v.base.done,
        v.counted,
    ensures
        inv(phase_scatter(v)),
{
    let n = v.base.data.len() as int;
    let r = v.radix as nat;
    let w = phase_scatter(v);
    if v.y < v.tmp.len() {
        lemma_scatter_safe(v);
        let val = v.tmp[v.y];
        let d = digit(val as nat, r);
        assert forall|e: int| 0 <= e < 10 implies #[trigger] w.count[e] == cnt_ge(w.tmp, r,
            e as nat, n) - cnt_eq(w.tmp, r, e as nat, w.y) by {
            assert(cnt_eq(v.tmp, r, e as nat, v.y + 1) == cnt_eq(v.tmp, r, e as nat, v.y)
                + if digit(v.tmp[v.y] as nat, r) == e as nat {
                    1int
                } else {
                    0int
                });
        }
        assert(forall|i: int| 0 <= i < n ==> #[trigger] w.base.data[i] <= MAX_ITEMS);
    } else if v.max >= pow10((v.radix + 1) as nat) {
        if v.radix + 1 >= 9 {
            lemma_pow10_mono(9nat, (v.radix + 1) as nat);
            lemma_pow10_value();
        }
        assert(0 <= v.radix + 1 <= 8);
        assert(forall|d: int| 0 <= d < 10 ==> #[trigger] w.count[d] == 0);
        assert(forall|d: int|
            0 <= d < 10 ==> #[trigger] w.count[d] == cnt_eq(w.tmp, (w.radix) as nat, d as nat,
                w.x));
    }
}

/// `10^8` and `10^9` written out, for bounding the digit position.
pub proof fn lemma_pow10_value()
    ensures
        pow10(8) == 100_000_000,
        pow10(9) == 1_000_000_000,
{
    reveal_with_fuel(pow10, 10);
}

/// Closing the count phase leaves a well-formed scatter state.
pub proof fn lemma_count_finish(v: RadixV)
    requires
        inv(v),
        !v.base.done,
        v.maxed,
        !v.counted,
    ensures
        inv(count_finish(v)),
{
    let n = v.base.data.len() as int;
    let r = v.radix as nat;
    let w = count_finish(v);
    assert forall|e: int| 0 <= e < 10 implies #[trigger] w.count[e] == cnt_ge(v.tmp, r, e as nat,
        n) - cnt_eq(v.tmp, r, e as nat, 0) by {
        lemma_cnt_bounds(v.tmp, r, e as nat, n);
    }
}

/// A count tick preserves the bookkeeping.
pub proof fn lemma_count_inv(v: RadixV)
    requires
        inv(v),
        !v.base.done,
        v.maxed,
    ensures
        inv(phase_count(v)),
{
    let n = v.base.data.len() as int;
    let r = v.radix as nat;
    if !v.counted {
        let val = v.base.data[v.x];
        let d = digit(val as nat, r);
        lemma_cnt_bounds(v.tmp, r, d, v.x);
        assert(cnt_eq(v.tmp, r, d, v.x + 1) == cnt_eq(v.tmp, r, d, v.x) + 1);
        let c2 = v.count.update(d as int, (v.count[d as int] + 1) as usize);
        assert forall|e: int| 0 <= e < 10 implies #[trigger] c2[e] == cnt_eq(v.tmp, r, e as nat,
            v.x + 1) by {
            assert(cnt_eq(v.tmp, r, e as nat, v.x + 1) == cnt_eq(v.tmp, r, e as nat, v.x)
                + if digit(v.tmp[v.x] as nat, r) == e as nat {
                    1int
                } else {
                    0int
                });
        }
        if v.x + 1 < n {
        } else {
            lemma_count_finish(v);
            lemma_scatter_inv(count_finish(v));
        }
    } else {
        lemma_scatter_inv(v);
    }
}

/// A tick keeps the state well formed.
pub proof fn lemma_step_inv(v: RadixV)
    requires
        inv(v),
    ensures
        inv(step(v)),
{
    let n = v.base.data.len() as int;
    let r = v.radix as nat;
    if !v.base.done {
        if !v.maxed {
            let b = spec_access(v.base, 1);
            let val = b.data[v.x];
            let w = if val > v.max {
                RadixV { base: SortBaseV { freq: val, ..b }, max: val as int, ..v }
            } else {
                RadixV { base: b, ..v }
            };
            if v.x + 1 < n {
            } else {
                let w2 = RadixV { x: 0, maxed: true, ..w };
                assert(forall|d: int|
                    0 <= d < 10 ==> #[trigger] w2.count[d] == cnt_eq(w2.tmp, r, d as nat, 0));
                lemma_count_inv(w2);
            }
        } else {
            lemma_count_inv(v);
        }
    }
}

/// Every number of ticks keeps the state well formed.
pub proof fn lemma_steps_inv(v: RadixV, k: nat)
    requires
        inv(v),
    ensures
        inv(steps(v, k)),
    decreases k,
{
    if k > 0 {
        lemma_steps_inv(v, (k - 1) as nat);
        lemma_step_inv(steps(v, (k - 1) as nat));
    }
}

/// Once done, further ticks change nothing at all.
pub proof fn lemma_done_stable(v: RadixV, k: nat)
    requires
        v.base.done,
    ensures
        steps(v, k) == v,
    decreases k,
{
    if k > 0 {
        lemma_done_stable(v, (k - 1) as nat);
    }
}

/// The three counters never decrease over a tick.
pub proof fn lemma_step_counters(v: RadixV)
    requires
        inv(v),
    ensures
        step(v).base.access >= v.base.access,
        step(v).base.swaps >= v.base.swaps,
        step(v).base.cmps >= v.base.cmps,
{
}

/// Running `k1` ticks and then `k2` more reaches exactly the state of
/// running `k1 + k2` ticks in one batch.
pub proof fn lemma_steps_additive(v: RadixV, k1: nat, k2: nat)
    ensures
        steps(steps(v, k1), k2) == steps(v, k1 + k2),
    decreases k2,
{
    if k2 > 0 {
        lemma_steps_additive(v, k1, (k2 - 1) as nat);
    }
}

/// How many ticks a live engine can still take: at most nine digit
/// passes, each walking the array twice (tally, then scatter) plus the
/// tick that closes it, and the opening maximum scan.
pub open spec fn ticks_left(v: RadixV) -> int {
    let n = v.base.data.len() as int;
    if v.base.done {
        0
    } else {
        let phase: int = if !v.maxed {
            (2 * n + 2) + (n - v.x)
        } else if !v.counted {
            (n + 1) + (n - v.x)
        } else {
            n - v.y
        };
        (8 - v.radix) * (3 * n + 4) + phase + 1
    }
}

/// Every tick of a live engine consumes remaining work.
pub proof fn lemma_step_dec(v: RadixV)
    requires
        inv(v),
        !v.base.done,
    ensures
        0 <= ticks_left(step(v)) < ticks_left(v),
{
    let n = v.base.data.len() as int;
    let w = step(v);
    lemma_step_inv(v);
    if v.maxed && v.counted && v.y >= v.tmp.len() && v.max >= pow10((v.radix + 1) as nat) {
        assert((8 - v.radix) * (3 * n + 4) - (8 - v.radix - 1) * (3 * n + 4) == 3 * n + 4)
            by (nonlinear_arith);
    }
    if !w.base.done {
        assert((8 - w.radix) * (3 * n + 4) >= 0) by (nonlinear_arith)
            requires
                w.radix <= 8,
                n >= 1,
        ;
    }
}

/// The run finishes: after `ticks_left` ticks (or any more) the engine
/// reports done.
pub proof fn lemma_terminates(v: RadixV, k: nat)
    requires
        inv(v),
        k >= ticks_left(v),
    ensures
        steps(v, k).base.done,
    decreases k,
{
    if v.base.done {
        lemma_done_stable(v, k);
    } else {
        lemma_step_dec(v);
        lemma_step_inv(v);
        assert(steps(v, 0) == v);
        assert(steps(v, 1) == step(v));
        lemma_steps_additive(v, 1, (k - 1) as nat);
        lemma_terminates(step(v), (k - 1) as nat);
    }
}

/// The bar touched last is active: green once both tallies of the pass
/// are in, white while the pass is still scanning.
pub open spec fn highlight_spec(v: RadixV, i: int) -> Highlight {
    let prev = if v.x > 0 { v.x - 1 } else { 0 };
    if !v.base.done && i == prev {
        if !v.maxed || !v.counted {
            Highlight::Active
        } else {
            Highlight::Boundary
        }
    } else {
        Highlight::Normal
    }
}

/// Ten empty buckets.
fn zero_buckets() -> (v: Vec<usize>)
    ensures
        v@ =~= Seq::new(10, |d: int| 0usize),
{
    let mut v: Vec<usize> = Vec::new();
    let mut d: usize = 0;
    while d < 10
        invariant
            d <= 10,
            v@.len() == d,
            forall|i: int| 0 <= i < d ==> v@[i] == 0,
        decreases 10 - d,
    {
        v.push(0);
        d = d + 1;
    }
    assert(v@ =~= Seq::new(10, |d: int| 0usize));
    v
}

/// Convert per-digit tallies over the whole snapshot into suffix counts,
/// from the highest digit down.
fn to_suffix_counts(count: &mut Vec<usize>, Ghost(tmp): Ghost<Seq<usize>>, Ghost(r): Ghost<nat>)
    requires
        old(count)@.len() == 10,
        tmp.len() <= MAX_ITEMS,
        forall|d: int|
            0 <= d < 10 ==> old(count)@[d] == cnt_eq(tmp, r, d as nat, tmp.len() as int),
    ensures
        final(count)@ =~= Seq::new(10, |d: int| cnt_ge(tmp, r, d as nat, tmp.len() as int)
            as usize),
{
    let ghost n = tmp.len() as int;
    proof {
        lemma_cnt_split(tmp, r, 9, n);
        lemma_cnt_ge_ten(tmp, r, n);
    }
    let mut i: usize = 9;
    while i > 0
        invariant
            i <= 9,
            count@.len() == 10,
            forall|d: int| i <= d < 10 ==> count@[d] == cnt_ge(tmp, r, d as nat, n),
            forall|d: int| 0 <= d < i ==> count@[d] == cnt_eq(tmp, r, d as nat, n),
            tmp.len() <= MAX_ITEMS,
            n == tmp.len() as int,
        decreases i,
    {
        let j = i - 1;
        proof {
            lemma_cnt_split(tmp, r, j as nat, n);
            lemma_cnt_bounds(tmp, r, j as nat, n);
            lemma_cnt_bounds(tmp, r, (j + 1) as nat, n);
        }
        let a = count[j];
        let b = count[j + 1];
        count.set(j, a + b);
        i = j;
    }
    assert(count@ =~= Seq::new(10, |d: int| cnt_ge(tmp, r, d as nat, n) as usize));
}

/// `10^e`, for digit extraction.
pub fn pow10_exec(e: u32) -> (r: usize)
    requires
        e <= 9,
    ensures
        r as nat == pow10(e as nat),
        r >= 1,
{
    proof {
        lemma_pow10_value();
    }
    let mut r: usize = 1;
    let mut j: u32 = 0;
    while j < e
        invariant
            j <= e <= 9,
            r as nat == pow10(j as nat),
        decreases e - j,
    {
        proof {
            lemma_pow10_mono(j as nat, 8);
            lemma_pow10_value();
        }
        r = r * 10;
        j = j + 1;
    }
    proof {
        lemma_pow10_mono(0, e as nat);
    }
    r
}

impl Radix {
    /// Start a run over `base`, with the pass snapshot taken at once.
    pub fn new(base: SortBase) -> (s: Self)
        requires
            base_wf(base@),
            !base@.done,
        ensures
            s@.base == base@,
            s@.count =~= Seq::new(10, |d: int| 0usize),
            !s@.counted && !s@.maxed,
            s@.max == 0 && s@.x == 0 && s@.y == 0 && s@.radix == 0,
            s@.tmp =~= base@.data,
            inv(s@),
    {
        let len = base.data.len();
        let tmp_data = copy_range(&base.data, 0, len);
        assert(tmp_data@ =~= base@.data);
        let count = zero_buckets();
        let r = Radix {
            base,
            count,
            counted: false,
            max: 0,
            maxed: false,
            x: 0,
            y: 0,
            radix: 0,
            tmp_data,
        };
        proof {
            assert(pow10(0) == 1);
        }
        r
    }

    /// True once the array is fully sorted.
    pub fn done(&self) -> (r: bool)
        ensures
            r == self@.base.done,
    {
        self.base.done
    }

    /// The shared state, for the renderer and the counter display.
    pub fn base(&self) -> (b: &SortBase)
        ensures
            b@ == self@.base,
    {
        &self.base
    }

    /// The scatter part of a tick.
    fn tick_scatter(&mut self)
        requires
            inv(old(self)@),
            !old(self)@.base.done,
            old(self)@.counted,
        ensures
            final(self)@ == phase_scatter(old(self)@),
            inv(final(self)@),
    {
        proof {
            lemma_scatter_inv(self@);
        }
        let n = self.tmp_data.len();
        if self.y < n {
            proof {
                lemma_scatter_safe(self@);
            }
            self.base.bump_access(1);
            let val = self.tmp_data[self.y];
            let p = pow10_exec(self.radix);
            let d = (val / p) % 10;
            self.base.bump_access(1);
            let cb = self.count[d];
            let i = n - cb;
            self.count.set(d, cb - 1);
            self.base.bump_swaps(1);
            self.base.set_at(i, val);
            self.base.set_freq(val);
            self.x = i;
            self.y = self.y + 1;
            assert(self@ =~= phase_scatter(old(self)@));
        } else {
            let p1 = pow10_exec(self.radix + 1);
            if self.max >= p1 {
                self.x = 0;
                self.y = 0;
                self.count = zero_buckets();
                self.counted = false;
                self.radix = self.radix + 1;
                let len = self.base.data.len();
                self.tmp_data = copy_range(&self.base.data, 0, len);
                assert(self.tmp_data@ =~= self.base@.data);
                assert(self@ =~= phase_scatter(old(self)@));
            } else {
                self.base.set_done();
                assert(self@ =~= phase_scatter(old(self)@));
            }
        }
    }

    /// The count part of a tick, falling through into the scatter part
    /// when the tally completes.
    fn tick_count(&mut self)
        requires
            inv(old(self)@),
            !old(self)@.base.done,
            old(self)@.maxed,
        ensures
            final(self)@ == phase_count(old(self)@),
            inv(final(self)@),
    {
        proof {
            lemma_count_inv(self@);
        }
        if self.counted {
            self.tick_scatter();
            return;
        }
        let n = self.base.len();
        self.base.bump_access(1);
        let val = self.base.data[self.x];
        let p = pow10_exec(self.radix);
        let d = (val / p) % 10;
        proof {
            lemma_cnt_bounds(self@.tmp, self@.radix as nat, d as nat, self@.x);
        }
        let c = self.count[d];
        self.count.set(d, c + 1);
        self.base.set_freq(val);
        if self.x + 1 < n {
            self.x = self.x + 1;
            assert(self@ =~= phase_count(old(self)@));
            return;
        }
        self.x = 0;
        self.counted = true;
        proof {
            lemma_count_finish(old(self)@);
            assert(cnt_eq(old(self)@.tmp, old(self)@.radix as nat, d as nat, old(self)@.x + 1)
                == cnt_eq(old(self)@.tmp, old(self)@.radix as nat, d as nat, old(self)@.x) + 1);
            assert forall|e: int| 0 <= e < 10 implies #[trigger] self.count@[e] == cnt_eq(
                self@.tmp, self@.radix as nat, e as nat, self@.tmp.len() as int) by {
                assert(cnt_eq(old(self)@.tmp, old(self)@.radix as nat, e as nat, old(self)@.x + 1)
                    == cnt_eq(old(self)@.tmp, old(self)@.radix as nat, e as nat, old(self)@.x)
                    + if digit(old(self)@.tmp[old(self)@.x] as nat, old(self)@.radix as nat)
                        == e as nat {
                        1int
                    } else {
                        0int
                    });
            }
        }
        let ghost tmp = self@.tmp;
        let ghost r = self@.radix as nat;
        to_suffix_counts(&mut self.count, Ghost(tmp), Ghost(r));
        assert(self@ =~= count_finish(old(self)@));
        self.tick_scatter();
        assert(self@ =~= phase_count(old(self)@));
    }

    /// One tick of radix sort.
    pub fn update(&mut self)
        requires
            inv(old(self)@),
        ensures
            final(self)@ == step(old(self)@),
            inv(final(self)@),
    {
        proof {
            lemma_step_inv(self@);
        }
        if self.base.done {
            return;
        }
        if self.maxed {
            self.tick_count();
            assert(self@ =~= step(old(self)@));
            return;
        }
        let n = self.base.len();
        self.base.bump_access(1);
        let val = self.base.data[self.x];
        if val > self.max {
            self.max = val;
            self.base.set_freq(val);
        }
        if self.x + 1 < n {
            self.x = self.x + 1;
            assert(self@ =~= step(old(self)@));
            return;
        }
        self.x = 0;
        self.maxed = true;
        proof {
            assert(forall|d: int|
                0 <= d < 10 ==> #[trigger] self@.count[d] == cnt_eq(self@.tmp,
                    self@.radix as nat, d as nat, 0));
            assert(inv(self@));
        }
        self.tick_count();
        assert(self@ =~= step(old(self)@));
    }

    /// Run `ticks` ticks in one batch.
    pub fn run(&mut self, ticks: usize)
        requires
            inv(old(self)@),
        ensures
            final(self)@ == steps(old(self)@, ticks as nat),
            inv(final(self)@),
    {
        let mut t: usize = 0;
        while t < ticks
            invariant
                t <= ticks,
                inv(self@),
                self@ == steps(old(self)@, t as nat),
            decreases ticks - t,
        {
            self.update();
            t = t + 1;
        }
    }

    /// The role of bar `i` right now.
    pub fn highlight(&self, i: usize) -> (h: Highlight)
        ensures
            h == highlight_spec(self@, i as int),
    {
        let prev = if self.x > 0 { self.x - 1 } else { 0 };
        if !self.base.done && i == prev {
            if !self.maxed || !self.counted {
                Highlight::Active
            } else {
                Highlight::Boundary
            }
        } else {
            Highlight::Normal
        }
    }
}

} // verus!
