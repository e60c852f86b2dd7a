//! Top-down merge sort made iterative, one element write per tick.
//!
//! The stack holds frames of index ranges into the main array.  Popping an
//! unsplit frame splits it: the frame is pushed back marked `sorted` with
//! its two halves on top, so the children are finished first.  A one-bar
//! frame is simply discarded.  When a frame with finished children
//! resumes, its first merge tick snapshots the two sorted halves out of
//! the array; every merge tick then copies one element — the smaller head
//! of the two halves, or the head of the one that is left — back into the
//! array at the output cursor.  Only the top frame is ever mid-merge, so
//! the engine itself owns the two snapshot buffers.  Popping an empty
//! stack finishes the run.

use vstd::prelude::*;
use crate::base::{
    Highlight, MAX_ITEMS, SortBase, SortBaseV, base_wf, copy_range, sorted_range, spec_access,
    spec_cmps, spec_swaps,
};

verus! {

/// One saved range: the continuation of a recursive merge-sort call.
#[derive(Clone, Copy)]
pub struct MergeFrame {
    /// Where the range begins in the array.
    pub start: usize,
    /// How many bars the range covers.
    pub len: usize,
    /// The read cursor into the left half.
    pub l: usize,
    /// The read cursor into the right half.
    pub r: usize,
    /// The write cursor into the range.
    pub s: usize,
    /// True once the frame has been split and waits for (or merges) its halves.
    pub sorted: bool,
}

/// The ghost image of a [`Merge`] engine.
#[verifier::ext_equal]
pub ghost struct MergeV {
    pub base: SortBaseV,
    pub frames: Seq<MergeFrame>,
    /// The snapshot of the top frame's sorted left half, empty otherwise.
    pub left: Seq<usize>,
    /// The snapshot of the top frame's sorted right half, empty otherwise.
    pub right: Seq<usize>,
}

/// Merge sort as a resumable engine.
pub struct Merge {
    pub base: SortBase,
    pub stack: Vec<MergeFrame>,
    pub left: Vec<usize>,
    pub right: Vec<usize>,
}

impl View for Merge {
    type V = MergeV;

    open spec fn view(&self) -> MergeV {
        MergeV { base: self.base@, frames: self.stack@, left: self.left@, right: self.right@ }
    }
}

/// A frame covers a range of the array; a split frame keeps its write
/// cursor equal to the sum of its read cursors.
pub open spec fn frame_ok(f: MergeFrame, n: int) -> bool {
    &&& f.start + f.len <= n
    &&& (f.sorted ==> 2 <= f.len && f.s == f.l + f.r)
    &&& (!f.sorted ==> f.l == 0 && f.r == 0 && f.s == 0)
}

/// The frame and snapshot bounds that every tick preserves.
pub open spec fn inv(v: MergeV) -> bool {
    let n = v.base.data.len() as int;
    &&& base_wf(v.base)
    &&& forall|k: int| 0 <= k < v.frames.len() ==> frame_ok(#[trigger] v.frames[k], n)
    &&& forall|k: int| 0 <= k < v.frames.len() - 1 ==> (#[trigger] v.frames[k]).s == 0
    &&& (v.frames.len() > 0 && v.frames.last().s > 0 ==> {
        &&& v.left.len() + v.right.len() == v.frames.last().len
        &&& v.frames.last().l <= v.left.len()
        &&& v.frames.last().r <= v.right.len()
    })
    &&& forall|i: int| 0 <= i < v.left.len() ==> #[trigger] v.left[i] <= MAX_ITEMS
    &&& forall|i: int| 0 <= i < v.right.len() ==> #[trigger] v.right[i] <= MAX_ITEMS
}

/// One tick: what [`Merge::update`] does to the state.
pub open spec fn step(v: MergeV) -> MergeV {
    if v.base.done {
        v
    } else if v.frames.len() == 0 {
        MergeV { base: SortBaseV { done: true, ..v.base }, ..v }
    } else {
        let f = v.frames.last();
        let rest = v.frames.drop_last();
        if f.len <= 1 {
            MergeV { frames: rest, left: Seq::empty(), right: Seq::empty(), ..v }
        } else if !f.sorted {
            let mid = f.len as int / 2;
            let parent = MergeFrame { sorted: true, ..f };
            let rightc = MergeFrame {
                start: (f.start + mid) as usize,
                len: (f.len - mid) as usize,
                l: 0,
                r: 0,
                s: 0,
                sorted: false,
            };
            let leftc = MergeFrame {
                start: f.start,
                len: mid as usize,
                l: 0,
                r: 0,
                s: 0,
                sorted: false,
            };
            MergeV { frames: rest.push(parent).push(rightc).push(leftc), ..v }
        } else if f.s >= f.len {
            MergeV { frames: rest, left: Seq::empty(), right: Seq::empty(), ..v }
        } else {
            let mid = f.len as int / 2;
            let lft = if f.s == 0 {
                v.base.data.subrange(f.start as int, f.start + mid)
            } else {
                v.left
            };
            let rgt = if f.s == 0 {
                v.base.data.subrange(f.start + mid, f.start + f.len)
            } else {
                v.right
            };
            let ll = lft.len() as int;
            let rl = rgt.len() as int;
            let m = if (f.l as int) < ll && (f.r as int) < rl {
                let b = spec_swaps(spec_cmps(spec_access(v.base, 2), 1), 1);
                if lft[f.l as int] < rgt[f.r as int] {
                    (b, lft[f.l as int], MergeFrame { l: (f.l + 1) as usize, ..f })
                } else {
                    (b, rgt[f.r as int], MergeFrame { r: (f.r + 1) as usize, ..f })
                }
            } else if (f.l as int) < ll {
                (spec_swaps(v.base, 1), lft[f.l as int], MergeFrame { l: (f.l + 1) as usize, ..f })
            } else {
                (spec_swaps(v.base, 1), rgt[f.r as int], MergeFrame { r: (f.r + 1) as usize, ..f })
            };
            let b2 = spec_swaps(spec_access(m.0, 1), 1);
            let nf = MergeFrame { s: (f.s + 1) as usize, ..m.2 };
            MergeV {
                base: SortBaseV {
                    data: b2.data.update(f.start + f.s, m.1),
                    freq: m.1,
                    ..b2
                },
                frames: rest.push(nf),
                left: lft,
                right: rgt,
            }
        }
    }
}

/// `v` after `k` ticks.
pub open spec fn steps(v: MergeV, k: nat) -> MergeV
    decreases k,
{
    if k == 0 {
        v
    } else {
        step(steps(v, (k - 1) as nat))
    }
}

/// A tick keeps the state well formed.
pub proof fn lemma_step_inv(v: MergeV)
    requires
        inv(v),
    ensures
        inv(step(v)),
{
    let n = v.base.data.len() as int;
    if !v.base.done && v.frames.len() > 0 {
        let f = v.frames.last();
        let rest = v.frames.drop_last();
        assert(frame_ok(f, n));
        assert(forall|k: int| 0 <= k < rest.len() ==> frame_ok(#[trigger] rest[k], n));
        assert(forall|k: int| 0 <= k < rest.len() ==> (#[trigger] rest[k]).s == 0);
        if f.len > 1 && f.sorted && f.s < f.len {
            let w = step(v);
            let nf = w.frames.last();
            assert(w.left.len() + w.right.len() == f.len);
            assert(nf.l <= w.left.len() && nf.r <= w.right.len());
            assert(forall|i: int| 0 <= i < w.left.len() ==> #[trigger] w.left[i] <= MAX_ITEMS);
            assert(forall|i: int| 0 <= i < w.right.len() ==> #[trigger] w.right[i] <= MAX_ITEMS);
            assert(forall|j: int| 0 <= j < w.base.data.len() ==> #[trigger] w.base.data[j]
                <= MAX_ITEMS);
        }
    }
}

/// Every number of ticks keeps the state well formed.
pub proof fn lemma_steps_inv(v: MergeV, k: nat)
    requires
        inv(v),
    ensures
        inv(steps(v, k)),
    decreases k,
{
    if k > 0 {
        lemma_steps_inv(v, (k - 1) as nat);
        lemma_step_inv(steps(v, (k - 1) as nat));
    }
}

/// A tick never changes how many bars there are.
pub proof fn lemma_step_len(v: MergeV)
    requires
        inv(v),
    ensures
        step(v).base.data.len() == v.base.data.len(),
{
}

/// Once done, further ticks change nothing at all.
pub proof fn lemma_done_stable(v: MergeV, k: nat)
    requires
        v.base.done,
    ensures
        steps(v, k) == v,
    decreases k,
{
    if k > 0 {
        lemma_done_stable(v, (k - 1) as nat);
    }
}

/// The three counters never decrease over a tick.
pub proof fn lemma_step_counters(v: MergeV)
    requires
        inv(v),
    ensures
        step(v).base.access >= v.base.access,
        step(v).base.swaps >= v.base.swaps,
        step(v).base.cmps >= v.base.cmps,
{
}

/// Running `k1` ticks and then `k2` more reaches exactly the state of
/// running `k1 + k2` ticks in one batch.
pub proof fn lemma_steps_additive(v: MergeV, k1: nat, k2: nat)
    ensures
        steps(steps(v, k1), k2) == steps(v, k1 + k2),
    decreases k2,
{
    if k2 > 0 {
        lemma_steps_additive(v, k1, (k2 - 1) as nat);
    }
}

/// The merge in progress is locally right: whenever the two snapshot
/// halves are sorted, the prefix written back so far is sorted and never
/// above the heads still to be taken.  (That the halves are indeed
/// sorted when the children finished is the recursion's business and is
/// not derived here.)
pub open spec fn merge_front_ok(v: MergeV) -> bool {
    v.frames.len() > 0 && v.frames.last().s > 0 ==> {
        let f = v.frames.last();
        let ll = v.left.len() as int;
        let rl = v.right.len() as int;
        (sorted_range(v.left, 0, ll) && sorted_range(v.right, 0, rl)) ==> {
            &&& sorted_range(v.base.data, f.start as int, f.start + f.s)
            &&& ((f.l as int) < ll ==> v.base.data[f.start + f.s - 1] <= v.left[f.l as int])
            &&& ((f.r as int) < rl ==> v.base.data[f.start + f.s - 1] <= v.right[f.r as int])
        }
    }
}

/// A tick keeps the merge in progress locally right.
pub proof fn lemma_step_merge_front(v: MergeV)
    requires
        inv(v),
        merge_front_ok(v),
    ensures
        merge_front_ok(step(v)),
{
    let n = v.base.data.len() as int;
    let w = step(v);
    if !v.base.done && v.frames.len() > 0 {
        let f = v.frames.last();
        if f.len > 1 && f.sorted && f.s < f.len {
            let g = w.frames.last();
            let ll = w.left.len() as int;
            let rl = w.right.len() as int;
            if sorted_range(w.left, 0, ll) && sorted_range(w.right, 0, rl) {
                assert(forall|j: int|
                    f.start <= j < f.start + f.s ==> #[trigger] w.base.data[j] == v.base.data[j]);
                assert(sorted_range(w.base.data, g.start as int, g.start + g.s));
            }
        }
    }
}

/// The merge stays locally right after any number of ticks.
pub proof fn lemma_steps_merge_front(v: MergeV, k: nat)
    requires
        inv(v),
        merge_front_ok(v),
    ensures
        merge_front_ok(steps(v, k)),
    decreases k,
{
    if k > 0 {
        lemma_steps_merge_front(v, (k - 1) as nat);
        lemma_steps_inv(v, (k - 1) as nat);
        lemma_step_merge_front(steps(v, (k - 1) as nat));
    }
}

/// The work one frame still needs: an unsplit range pays for its whole
/// recursion tree, a split one for its remaining writes and its discard.
pub open spec fn frame_work(f: MergeFrame) -> int {
    if !f.sorted {
        5 * f.len * f.len + 2
    } else {
        2 * (if f.s <= f.len {
            f.len - f.s
        } else {
            0int
        }) + 2
    }
}

/// The work the whole stack still needs.
pub open spec fn stack_work(fs: Seq<MergeFrame>) -> int
    decreases fs.len(),
{
    if fs.len() == 0 {
        0
    } else {
        stack_work(fs.drop_last()) + frame_work(fs.last())
    }
}

proof fn lemma_work_push(fs: Seq<MergeFrame>, f: MergeFrame)
    ensures
        stack_work(fs.push(f)) == stack_work(fs) + frame_work(f),
{
    assert(fs.push(f).drop_last() =~= fs);
}

proof fn lemma_work_nonneg(fs: Seq<MergeFrame>)
    ensures
        stack_work(fs) >= 0,
    decreases fs.len(),
{
    if fs.len() > 0 {
        lemma_work_nonneg(fs.drop_last());
        let f = fs.last();
        if !f.sorted {
            assert(5 * f.len * f.len >= 0) by (nonlinear_arith);
        }
    }
}

/// How many ticks a live engine can still take.
pub open spec fn ticks_left(v: MergeV) -> int {
    let n = v.base.data.len() as int;
    if v.base.done {
        0
    } else {
        stack_work(v.frames) + 1
    }
}

/// Every tick of a live engine consumes remaining work.
#[verifier::rlimit(60)]
pub proof fn lemma_step_dec(v: MergeV)
    requires
        inv(v),
        !v.base.done,
    ensures
        0 <= ticks_left(step(v)) < ticks_left(v),
{
    let n = v.base.data.len() as int;
    let fs = v.frames;
    let w = step(v);
    lemma_step_inv(v);
    if fs.len() > 0 {
        let f = fs.last();
        let rest = fs.drop_last();
        assert(frame_ok(f, n));
        lemma_work_nonneg(rest);
        lemma_work_nonneg(w.frames);
        if f.len <= 1 {
            if !f.sorted {
                assert(5 * f.len * f.len >= 0) by (nonlinear_arith);
            }
            assert(frame_work(f) >= 2);
        } else if !f.sorted {
            let size = f.len as int;
            let s1 = size / 2;
            let s2 = size - s1;
            let parent = w.frames[w.frames.len() - 3];
            let rightc = w.frames[w.frames.len() - 2];
            let leftc = w.frames.last();
            assert(w.frames =~= rest.push(parent).push(rightc).push(leftc));
            lemma_work_push(rest, parent);
            lemma_work_push(rest.push(parent), rightc);
            lemma_work_push(rest.push(parent).push(rightc), leftc);
            assert(frame_work(parent) == 2 * size + 2);
            assert(frame_work(leftc) == 5 * s1 * s1 + 2);
            assert(frame_work(rightc) == 5 * s2 * s2 + 2);
            assert((2 * size + 2) + (5 * s1 * s1 + 2) + (5 * s2 * s2 + 2) < 5 * size * size + 2)
                by (nonlinear_arith)
                requires
                    s1 + s2 == size,
                    1 <= s1,
                    1 <= s2,
                    2 <= size,
            ;
        } else if f.s >= f.len {
            assert(frame_work(f) >= 2);
        } else {
            let nf = w.frames.last();
            assert(w.frames =~= rest.push(nf));
            lemma_work_push(rest, nf);
            assert(frame_work(nf) == frame_work(f) - 2);
        }
    }
}

/// The run finishes: after `ticks_left` ticks (or any more) the engine
/// reports done.
pub proof fn lemma_terminates(v: MergeV, k: nat)
    requires
        inv(v),
        k >= ticks_left(v),
    ensures
        steps(v, k).base.done,
    decreases k,
{
    if v.base.done {
        lemma_done_stable(v, k);
    } else {
        lemma_step_dec(v);
        lemma_step_inv(v);
        assert(steps(v, 0) == v);
        assert(steps(v, 1) == step(v));
        lemma_steps_additive(v, 1, (k - 1) as nat);
        lemma_terminates(step(v), (k - 1) as nat);
    }
}

/// The bar just written is active; the ends of the top frame's range
/// bound the region being merged.
pub open spec fn highlight_spec(v: MergeV, i: int) -> Highlight {
    if v.frames.len() == 0 {
        Highlight::Normal
    } else {
        let f = v.frames.last();
        let wrote = if f.start + f.s > 0 { f.start + f.s - 1 } else { 0 };
        let last = f.start + (if f.len > 0 { f.len - 1 } else { 0 });
        if !v.base.done && i == wrote {
            Highlight::Active
        } else if !v.base.done && (i == f.start || i == last) {
            Highlight::Boundary
        } else {
            Highlight::Normal
        }
    }
}

impl Merge {
    /// Start a run over `base`, with one unsplit frame covering everything.
    pub fn new(base: SortBase) -> (s: Self)
        requires
            base_wf(base@),
            !base@.done,
        ensures
            s@.base == base@,
            s@.frames =~= seq![
                MergeFrame {
                    start: 0,
                    len: base@.data.len() as usize,
                    l: 0,
                    r: 0,
                    s: 0,
                    sorted: false,
                },
            ],
            s@.left =~= Seq::<usize>::empty(),
            s@.right =~= Seq::<usize>::empty(),
            inv(s@),
    {
        let len = base.len();
        let mut stack: Vec<MergeFrame> = Vec::new();
        stack.push(MergeFrame { start: 0, len, l: 0, r: 0, s: 0, sorted: false });
        Merge { base, stack, left: Vec::new(), right: Vec::new() }
    }

    /// True once the array is fully sorted.
    pub fn done(&self) -> (r: bool)
        ensures
            r == self@.base.done,
    {
        self.base.done
    }

    /// The shared state, for the renderer and the counter display.
    pub fn base(&self) -> (b: &SortBase)
        ensures
            b@ == self@.base,
    {
        &self.base
    }

    /// One tick of merge sort.
    pub fn update(&mut self)
        requires
            inv(old(self)@),
        ensures
            final(self)@ == step(old(self)@),
            inv(final(self)@),
    {
        proof {
            lemma_step_inv(self@);
        }
        if self.base.done {
            return;
        }
        match self.stack.pop() {
            None => {
                self.base.set_done();
                assert(self@ =~= step(old(self)@));
            },
            Some(mut f) => {
                if f.len <= 1 {
                    self.left = Vec::new();
                    self.right = Vec::new();
                    assert(self@ =~= step(old(self)@));
                    return;
                }
                if !f.sorted {
                    let mid = f.len / 2;
                    let start = f.start;
                    let len = f.len;
                    f.sorted = true;
                    self.stack.push(f);
                    self.stack.push(MergeFrame {
                        start: start + mid,
                        len: len - mid,
                        l: 0,
                        r: 0,
                        s: 0,
                        sorted: false,
                    });
                    self.stack.push(MergeFrame {
                        start,
                        len: mid,
                        l: 0,
                        r: 0,
                        s: 0,
                        sorted: false,
                    });
                    assert(self@ =~= step(old(self)@));
                    return;
                }
                if f.s >= f.len {
                    self.left = Vec::new();
                    self.right = Vec::new();
                    assert(self@ =~= step(old(self)@));
                    return;
                }
                if f.s == 0 {
                    let mid = f.len / 2;
                    self.left = copy_range(&self.base.data, f.start, mid);
                    self.right = copy_range(&self.base.data, f.start + mid, f.len - mid);
                }
                let out: usize;
                if f.l < self.left.len() && f.r < self.right.len() {
                    self.base.bump_access(2);
                    self.base.bump_cmps(1);
                    self.base.bump_swaps(1);
                    let a = self.left[f.l];
                    let b = self.right[f.r];
                    if a < b {
                        out = a;
                        f.l = f.l + 1;
                    } else {
                        out = b;
                        f.r = f.r + 1;
                    }
                } else if f.l < self.left.len() {
                    self.base.bump_swaps(1);
                    out = self.left[f.l];
                    f.l = f.l + 1;
                } else {
                    assert(f.r < self.right.len());
                    self.base.bump_swaps(1);
                    out = self.right[f.r];
                    f.r = f.r + 1;
                }
                self.base.bump_access(1);
                self.base.bump_swaps(1);
                self.base.set_freq(out);
                self.base.set_at(f.start + f.s, out);
                f.s = f.s + 1;
                self.stack.push(f);
                assert(self@ =~= step(old(self)@));
            },
        }
    }

    /// Run `ticks` ticks in one batch.
    pub fn run(&mut self, ticks: usize)
        requires
            inv(old(self)@),
        ensures
            final(self)@ == steps(old(self)@, ticks as nat),
            inv(final(self)@),
    {
        let mut t: usize = 0;
        while t < ticks
            invariant
                t <= ticks,
                inv(self@),
                self@ == steps(old(self)@, t as nat),
            decreases ticks - t,
        {
            self.update();
            t = t + 1;
        }
    }

    /// The role of bar `i` right now.
    pub fn highlight(&self, i: usize) -> (h: Highlight)
        requires
            inv(self@),
        ensures
            h == highlight_spec(self@, i as int),
    {
        if self.stack.len() == 0 {
            return Highlight::Normal;
        }
        let f = &self.stack[self.stack.len() - 1];
        let wrote = if f.start + f.s > 0 { f.start + f.s - 1 } else { 0 };
        let last = f.start + (if f.len > 0 { f.len - 1 } else { 0 });
        if !self.base.done && i == wrote {
            Highlight::Active
        } else if !self.base.done && (i == f.start || i == last) {
            Highlight::Boundary
        } else {
            Highlight::Normal
        }
    }
}

} // verus!
