//! The free-region list as a mathematical object.
//!
//! A manager's state is viewed as a `PoolState`: the free regions in address
//! order together with the counters that travel with them. The two
//! transitions, `after_allocate` and `release`, are plain functions on that
//! state, and the laws at the end of the file are proved of them.

use vstd::prelude::*;
use crate::memory::PAGE_SIZE;

verus! {

/// A run of bytes `[start, start + size)` in the manager's internal
/// (bias-adjusted) address space.
pub struct Region {
    pub start: int,
    pub size: int,
}

impl Region {
    /// The first address past the region.
    pub open spec fn end(self) -> int {
        self.start + self.size
    }

    /// The two regions share no byte.
    pub open spec fn apart(self, other: Region) -> bool {
        self.end() <= other.start || other.end() <= self.start
    }
}

/// A run of whole pages at a real (bias-free) address: what a handle stands for.
pub struct PageRun {
    pub base: int,
    pub pages: int,
}

impl PageRun {
    /// Length of the run in bytes.
    pub open spec fn bytes(self) -> int {
        self.pages * (PAGE_SIZE as int)
    }

    /// The region the run occupies once `bias` is added to its address.
    pub open spec fn placed(self, bias: int) -> Region {
        Region { start: self.base + bias, size: self.bytes() }
    }
}

/// The smallest multiple of the page size that is at least `bytes`.
pub open spec fn page_ceil(bytes: int) -> int {
    (bytes + (PAGE_SIZE - 1)) / (PAGE_SIZE as int) * (PAGE_SIZE as int)
}

/// Sum of the sizes of `rs`.
pub open spec fn total_size(rs: Seq<Region>) -> int
    decreases rs.len(),
{
    if rs.len() == 0 {
        0
    } else {
        total_size(rs.drop_last()) + rs.last().size
    }
}

/// Every region is non-empty, and each one ends strictly below the start of
/// every later one: ascending, disjoint, and never touching.
pub open spec fn ordered(rs: Seq<Region>) -> bool {
    &&& forall|i: int| 0 <= i < rs.len() ==> (#[trigger] rs[i]).size > 0
    &&& forall|i: int, j: int| 0 <= i < j < rs.len() ==> (#[trigger] rs[i]).end() < (#[trigger] rs[j]).start
}

/// `k` is the first position, in address order, whose region holds at least
/// `need` bytes.
pub open spec fn fits_first_at(rs: Seq<Region>, need: int, k: int) -> bool {
    &&& 0 <= k < rs.len()
    &&& rs[k].size >= need
    &&& forall|j: int| 0 <= j < k ==> (#[trigger] rs[j]).size < need
}

/// No region of `rs` holds `need` bytes.
pub open spec fn none_fits(rs: Seq<Region>, need: int) -> bool {
    forall|j: int| 0 <= j < rs.len() ==> (#[trigger] rs[j]).size < need
}

/// The position first-fit selects for `need` bytes, if any region is large enough.
pub open spec fn first_fit(rs: Seq<Region>, need: int) -> Option<int> {
    if exists|k: int| fits_first_at(rs, need, k) {
        Some(choose|k: int| fits_first_at(rs, need, k))
    } else {
        None
    }
}

/// What is left of `rs` once `need` bytes are taken from the front of region
/// `k`: the region shrinks in place, or leaves the list when nothing remains.
pub open spec fn carve(rs: Seq<Region>, k: int, need: int) -> Seq<Region> {
    if rs[k].size > need {
        rs.update(k, Region { start: rs[k].start + need, size: rs[k].size - need })
    } else {
        rs.remove(k)
    }
}

/// `p` is where a region starting at `start` belongs: after every region that
/// starts at or below `start`, before every region that starts above it.
pub open spec fn slot_for(rs: Seq<Region>, start: int, p: int) -> bool {
    &&& 0 <= p <= rs.len()
    &&& forall|i: int| 0 <= i < p ==> (#[trigger] rs[i]).start <= start
    &&& forall|i: int| p <= i < rs.len() ==> start < (#[trigger] rs[i]).start
}

/// The position at which a region starting at `start` enters `rs`.
pub open spec fn insertion_point(rs: Seq<Region>, start: int) -> int {
    choose|p: int| slot_for(rs, start, p)
}

/// `rs` with `r` entered at position `p` and joined to each neighbour it
/// touches byte-exactly. Exactly one region of the result covers `r`.
pub open spec fn coalesce(rs: Seq<Region>, p: int, r: Region) -> Seq<Region> {
    let joins_prev = p > 0 && rs[p - 1].end() == r.start;
    let joins_next = p < rs.len() && r.end() == rs[p].start;
    let lo = if joins_prev { p - 1 } else { p };
    let hi = if joins_next { p + 1 } else { p };
    let merged = Region {
        start: if joins_prev { rs[p - 1].start } else { r.start },
        size: r.size + (if joins_prev { rs[p - 1].size } else { 0 }) + (if joins_next { rs[p].size } else { 0 }),
    };
    rs.subrange(0, lo).push(merged) + rs.subrange(hi, rs.len() as int)
}

/// The abstract state of a page-memory manager.
pub struct PoolState {
    /// Free regions in ascending address order, in internal addresses.
    pub regions: Seq<Region>,
    /// Bytes currently free: the sum of the sizes of `regions`.
    pub free_bytes: int,
    /// How many regions the manager can track at once.
    pub capacity: int,
    /// Offset between real and internal addresses.
    pub bias: int,
    /// Bytes given up because no slot was left to record them.
    pub lost: int,
    /// Total registered bytes; set at construction and never updated.
    pub mem_total: int,
}

impl PoolState {
    /// The invariant of the free-region list and its counters.
    pub open spec fn valid(self) -> bool {
        &&& ordered(self.regions)
        &&& forall|i: int| 0 <= i < self.regions.len() ==> {
            &&& self.bias <= (#[trigger] self.regions[i]).start
            &&& self.regions[i].end() <= usize::MAX
            &&& self.regions[i].size % (PAGE_SIZE as int) == 0
        }
        &&& self.regions.len() <= self.capacity
        &&& self.free_bytes == total_size(self.regions)
        &&& 0 <= self.bias <= usize::MAX
        &&& 0 <= self.lost <= usize::MAX
        &&& 0 <= self.mem_total <= usize::MAX
    }

    /// Every slot is in use: the next region that needs one is lost.
    pub open spec fn full(self) -> bool {
        self.regions.len() >= self.capacity
    }

    /// The handle an allocation of `bytes` bytes returns, `None` when no
    /// region is large enough for the rounded request.
    pub open spec fn granted(self, bytes: int) -> Option<PageRun> {
        match first_fit(self.regions, page_ceil(bytes)) {
            Some(k) => Some(
                PageRun {
                    base: self.regions[k].start - self.bias,
                    pages: page_ceil(bytes) / (PAGE_SIZE as int),
                },
            ),
            None => None,
        }
    }

    /// The state an allocation of `bytes` bytes leaves behind.
    pub open spec fn after_allocate(self, bytes: int) -> PoolState {
        match first_fit(self.regions, page_ceil(bytes)) {
            Some(k) => PoolState {
                regions: carve(self.regions, k, page_ceil(bytes)),
                free_bytes: self.free_bytes - page_ceil(bytes),
                ..self
            },
            None => self,
        }
    }

    /// What a caller owes when it returns `r`: the region lies inside the
    /// address space, overlaps nothing that is already free, and, should it
    /// be lost, the lost-byte counter can take it. An empty region owes nothing.
    pub open spec fn can_release(self, r: Region) -> bool {
        r.size > 0 ==> {
            &&& r.end() <= usize::MAX
            &&& forall|i: int| 0 <= i < self.regions.len() ==> r.apart(#[trigger] self.regions[i])
            &&& self.full() ==> self.lost + r.size <= usize::MAX
        }
    }

    /// The state after `r` is returned. An empty region changes nothing; with
    /// every slot in use the bytes are counted as lost; otherwise `r` enters
    /// the list at its place and is joined to the neighbours it touches.
    pub open spec fn release(self, r: Region) -> PoolState {
        if r.size <= 0 {
            self
        } else if self.full() {
            PoolState { lost: self.lost + r.size, ..self }
        } else {
            PoolState {
                regions: coalesce(self.regions, insertion_point(self.regions, r.start), r),
                free_bytes: self.free_bytes + r.size,
                ..self
            }
        }
    }
}

/// Rounding up to whole pages gives a multiple of the page size that is at
/// least the request and less than a page beyond it.
pub proof fn lemma_page_ceil(bytes: int)
    requires
        bytes >= 0,
    ensures
        page_ceil(bytes) % (PAGE_SIZE as int) == 0,
        bytes <= page_ceil(bytes) < bytes + PAGE_SIZE,
        page_ceil(bytes) == (page_ceil(bytes) / (PAGE_SIZE as int)) * (PAGE_SIZE as int),
{
}

/// The total of two lists laid end to end is the sum of their totals.
pub proof fn lemma_total_size_concat(a: Seq<Region>, b: Seq<Region>)
    ensures
        total_size(a + b) == total_size(a) + total_size(b),
    decreases b.len(),
{
    if b.len() == 0 {
        assert(a + b =~= a);
    } else {
        assert((a + b).drop_last() =~= a + b.drop_last());
        lemma_total_size_concat(a, b.drop_last());
    }
}

/// A list of one region totals that region's size.
pub proof fn lemma_total_size_one(r: Region)
    ensures
        total_size(seq![r]) == r.size,
{
    assert(seq![r].drop_last() =~= Seq::<Region>::empty());
    assert(total_size(Seq::<Region>::empty()) == 0);
}

/// Cutting a list at two places loses nothing of its total.
pub proof fn lemma_total_size_split(rs: Seq<Region>, lo: int, hi: int)
    requires
        0 <= lo <= hi <= rs.len(),
    ensures
        total_size(rs) == total_size(rs.subrange(0, lo)) + total_size(rs.subrange(lo, hi))
            + total_size(rs.subrange(hi, rs.len() as int)),
{
    let a = rs.subrange(0, lo);
    let b = rs.subrange(lo, hi);
    let c = rs.subrange(hi, rs.len() as int);
    assert(rs =~= a + b + c);
    lemma_total_size_concat(a + b, c);
    lemma_total_size_concat(a, b);
}

/// No region of an ordered list is larger than the list's total.
pub proof fn lemma_total_size_covers(rs: Seq<Region>, k: int)
    requires
        ordered(rs),
        0 <= k < rs.len(),
    ensures
        0 < rs[k].size <= total_size(rs),
    decreases rs.len(),
{
    let front = rs.drop_last();
    assert(ordered(front));
    assert(rs.last().size > 0);
    if front.len() == 0 {
        assert(total_size(front) == 0);
    } else {
        lemma_total_size_covers(front, 0);
        if k < front.len() {
            lemma_total_size_covers(front, k);
        }
    }
}

/// An ordered list is no longer than the span it covers.
pub proof fn lemma_total_size_bound(rs: Seq<Region>)
    requires
        ordered(rs),
        rs.len() > 0,
    ensures
        total_size(rs) <= rs.last().end() - rs[0].start,
    decreases rs.len(),
{
    if rs.len() > 1 {
        let front = rs.drop_last();
        assert(ordered(front));
        lemma_total_size_bound(front);
        assert(front.last() == rs[rs.len() - 2]);
        assert(rs[rs.len() - 2].end() < rs[rs.len() - 1].start);
    } else {
        assert(rs.drop_last() =~= Seq::<Region>::empty());
        assert(total_size(Seq::<Region>::empty()) == 0);
    }
}

/// A position that satisfies `fits_first_at` is the one `first_fit` names.
pub proof fn lemma_first_fit_is(rs: Seq<Region>, need: int, k: int)
    requires
        fits_first_at(rs, need, k),
    ensures
        first_fit(rs, need) == Some(k),
{
    let c = choose|c: int| fits_first_at(rs, need, c);
    assert(fits_first_at(rs, need, c));
    if c < k {
        assert(rs[c].size < need);
    } else if k < c {
        assert(rs[k].size < need);
    }
}

/// If some region is large enough, then some region is the first that is.
proof fn lemma_least_fit(rs: Seq<Region>, need: int, j: int)
    requires
        0 <= j < rs.len(),
        rs[j].size >= need,
    ensures
        exists|k: int| fits_first_at(rs, need, k),
    decreases j,
{
    if forall|i: int| 0 <= i < j ==> (#[trigger] rs[i]).size < need {
        assert(fits_first_at(rs, need, j));
    } else {
        let i = choose|i: int| 0 <= i < j && !((#[trigger] rs[i]).size < need);
        lemma_least_fit(rs, need, i);
    }
}

/// `first_fit` names the first region that is large enough, and names none
/// only when every region is too small.
pub proof fn lemma_first_fit(rs: Seq<Region>, need: int)
    ensures
        match first_fit(rs, need) {
            Some(k) => fits_first_at(rs, need, k),
            None => none_fits(rs, need),
        },
{
    if first_fit(rs, need) is None {
        assert forall|j: int| 0 <= j < rs.len() implies (#[trigger] rs[j]).size < need by {
            if rs[j].size >= need {
                lemma_least_fit(rs, need, j);
            }
        }
    }
}

/// A position that satisfies `slot_for` is the insertion point.
pub proof fn lemma_insertion_point_is(rs: Seq<Region>, start: int, p: int)
    requires
        slot_for(rs, start, p),
    ensures
        insertion_point(rs, start) == p,
{
    let c = insertion_point(rs, start);
    assert(slot_for(rs, start, c));
    if c < p {
        assert(rs[c].start <= start);
    } else if p < c {
        assert(rs[p].start <= start);
    }
}

/// Every ordered list has an insertion point for every address.
pub proof fn lemma_insertion_point_exists(rs: Seq<Region>, start: int)
    requires
        ordered(rs),
    ensures
        slot_for(rs, start, insertion_point(rs, start)),
    decreases rs.len(),
{
    if rs.len() == 0 {
        assert(slot_for(rs, start, 0));
    } else if rs.last().start <= start {
        assert forall|i: int| 0 <= i < rs.len() implies (#[trigger] rs[i]).start <= start by {
            if i < rs.len() - 1 {
                assert(rs[i].end() < rs[rs.len() - 1].start);
            }
        }
        assert(slot_for(rs, start, rs.len() as int));
    } else {
        let front = rs.drop_last();
        assert(ordered(front));
        lemma_insertion_point_exists(front, start);
        let p = insertion_point(front, start);
        assert forall|i: int| 0 <= i < p implies (#[trigger] rs[i]).start <= start by {
            assert(front[i] == rs[i]);
        }
        assert forall|i: int| p <= i < rs.len() implies start < (#[trigger] rs[i]).start by {
            if i < rs.len() - 1 {
                assert(front[i] == rs[i]);
            }
        }
        assert(slot_for(rs, start, p));
    }
}

/// Carving `need` bytes out of region `k` keeps the list ordered and takes
/// exactly `need` bytes from its total.
pub proof fn lemma_carve(rs: Seq<Region>, k: int, need: int)
    requires
        ordered(rs),
        0 <= k < rs.len(),
        0 <= need <= rs[k].size,
    ensures
        ordered(carve(rs, k, need)),
        total_size(carve(rs, k, need)) == total_size(rs) - need,
        carve(rs, k, need).len() <= rs.len(),
{
    let out = carve(rs, k, need);
    let n = rs.len() as int;
    lemma_total_size_split(rs, k, k + 1);
    assert(rs.subrange(k, k + 1) =~= seq![rs[k]]);
    lemma_total_size_one(rs[k]);
    if rs[k].size > need {
        let left = Region { start: rs[k].start + need, size: rs[k].size - need };
        lemma_total_size_split(out, k, k + 1);
        assert(out.subrange(k, k + 1) =~= seq![left]);
        lemma_total_size_one(left);
        assert(out.subrange(0, k) =~= rs.subrange(0, k));
        assert(out.subrange(k + 1, n) =~= rs.subrange(k + 1, n));
        assert forall|i: int, j: int| 0 <= i < j < out.len() implies (#[trigger] out[i]).end() < (
        #[trigger] out[j]).start by {
            assert(rs[i].end() < rs[j].start);
        }
    } else {
        assert(out =~= rs.subrange(0, k) + rs.subrange(k + 1, n));
        lemma_total_size_concat(rs.subrange(0, k), rs.subrange(k + 1, n));
        assert forall|i: int, j: int| 0 <= i < j < out.len() implies (#[trigger] out[i]).end() < (
        #[trigger] out[j]).start by {
            let a = if i < k { i } else { i + 1 };
            let b = if j < k { j } else { j + 1 };
            assert(rs[a].end() < rs[b].start);
        }
    }
}

/// Around its insertion point a returned region clears every earlier region
/// from above and every later region from below.
proof fn lemma_neighbours_clear(rs: Seq<Region>, p: int, r: Region)
    requires
        ordered(rs),
        r.size > 0,
        slot_for(rs, r.start, p),
        forall|i: int| 0 <= i < rs.len() ==> r.apart(#[trigger] rs[i]),
    ensures
        forall|i: int| 0 <= i < p ==> (#[trigger] rs[i]).end() <= r.start,
        forall|i: int| p <= i < rs.len() ==> r.end() <= (#[trigger] rs[i]).start,
{
    assert forall|i: int| 0 <= i < p implies (#[trigger] rs[i]).end() <= r.start by {
        assert(r.apart(rs[i]));
    }
    assert forall|i: int| p <= i < rs.len() implies r.end() <= (#[trigger] rs[i]).start by {
        assert(r.apart(rs[i]));
    }
}

/// Joining a returned region to the neighbours it touches adds exactly its
/// size to the total of the list.
pub proof fn lemma_coalesce_total(rs: Seq<Region>, p: int, r: Region)
    requires
        0 <= p <= rs.len(),
    ensures
        total_size(coalesce(rs, p, r)) == total_size(rs) + r.size,
        coalesce(rs, p, r).len() <= rs.len() + 1,
{
    let n = rs.len() as int;
    let joins_prev = p > 0 && rs[p - 1].end() == r.start;
    let joins_next = p < n && r.end() == rs[p].start;
    let lo = if joins_prev { p - 1 } else { p };
    let hi = if joins_next { p + 1 } else { p };
    let out = coalesce(rs, p, r);
    let merged = out[lo];
    lemma_total_size_split(rs, lo, hi);
    lemma_total_size_split(out, lo, lo + 1);
    assert(out.subrange(0, lo) =~= rs.subrange(0, lo));
    assert(out.subrange(lo + 1, out.len() as int) =~= rs.subrange(hi, n));
    assert(out.subrange(lo, lo + 1) =~= seq![merged]);
    lemma_total_size_one(merged);
    let mid = rs.subrange(lo, hi);
    if joins_prev && joins_next {
        assert(mid =~= seq![rs[p - 1]] + seq![rs[p]]);
        lemma_total_size_concat(seq![rs[p - 1]], seq![rs[p]]);
        lemma_total_size_one(rs[p - 1]);
        lemma_total_size_one(rs[p]);
    } else if joins_prev {
        assert(mid =~= seq![rs[p - 1]]);
        lemma_total_size_one(rs[p - 1]);
    } else if joins_next {
        assert(mid =~= seq![rs[p]]);
        lemma_total_size_one(rs[p]);
    } else {
        assert(mid =~= Seq::<Region>::empty());
        assert(total_size(Seq::<Region>::empty()) == 0);
    }
}

/// `out` is `rs` with the regions from `lo` up to `hi` replaced by `merged`.
spec fn spliced(rs: Seq<Region>, out: Seq<Region>, lo: int, hi: int, merged: Region) -> bool {
    &&& 0 <= lo <= hi <= rs.len()
    &&& out.len() == lo + 1 + rs.len() - hi
    &&& forall|i: int| 0 <= i < lo ==> #[trigger] out[i] == rs[i]
    &&& out[lo] == merged
    &&& forall|i: int| lo < i < out.len() ==> #[trigger] out[i] == rs[hi + i - lo - 1]
}

/// A coalesced list is the old list with the joined regions replaced by one.
proof fn lemma_coalesce_spliced(rs: Seq<Region>, p: int, r: Region)
    requires
        0 <= p <= rs.len(),
    ensures
        ({
            let joins_prev = p > 0 && rs[p - 1].end() == r.start;
            let joins_next = p < rs.len() && r.end() == rs[p].start;
            let lo = if joins_prev { p - 1 } else { p };
            let hi = if joins_next { p + 1 } else { p };
            let out = coalesce(rs, p, r);
            &&& spliced(rs, out, lo, hi, out[lo])
            &&& out[lo].start == (if joins_prev { rs[p - 1].start } else { r.start })
            &&& out[lo].end() == (if joins_next { rs[p].end() } else { r.end() })
        }),
{
}

/// Replacing a stretch of an ordered list by one region that clears what
/// stays on either side leaves an ordered list.
proof fn lemma_spliced_ordered(
    rs: Seq<Region>,
    out: Seq<Region>,
    lo: int,
    hi: int,
    merged: Region,
)
    requires
        ordered(rs),
        spliced(rs, out, lo, hi, merged),
        merged.size > 0,
        lo > 0 ==> rs[lo - 1].end() < merged.start,
        hi < rs.len() ==> merged.end() < rs[hi].start,
    ensures
        ordered(out),
{
    assert forall|i: int| 0 <= i < out.len() implies (#[trigger] out[i]).size > 0 by {
        if i < lo {
            assert(rs[i].size > 0);
        } else if i > lo {
            assert(rs[hi + i - lo - 1].size > 0);
        }
    }
    assert forall|i: int, j: int| 0 <= i < j < out.len() implies (#[trigger] out[i]).end() < (
    #[trigger] out[j]).start by {
        let a = if i < lo { i } else { hi + i - lo - 1 };
        let b = if j < lo { j } else { hi + j - lo - 1 };
        if i != lo && j != lo {
            assert(rs[a].end() < rs[b].start);
        } else if j == lo {
            assert(rs[lo - 1].size > 0);
            if i < lo - 1 {
                assert(rs[i].end() < rs[lo - 1].start);
            }
        } else {
            assert(rs[hi].size > 0);
            if b > hi {
                assert(rs[hi].end() < rs[b].start);
            }
        }
    }
}

/// Entering a region at its insertion point and joining it to the neighbours
/// it touches keeps the list ordered.
pub proof fn lemma_coalesce_ordered(rs: Seq<Region>, p: int, r: Region)
    requires
        ordered(rs),
        r.size > 0,
        slot_for(rs, r.start, p),
        forall|i: int| 0 <= i < rs.len() ==> r.apart(#[trigger] rs[i]),
    ensures
        ordered(coalesce(rs, p, r)),
{
    let joins_prev = p > 0 && rs[p - 1].end() == r.start;
    let joins_next = p < rs.len() && r.end() == rs[p].start;
    let lo = if joins_prev { p - 1 } else { p };
    let hi = if joins_next { p + 1 } else { p };
    let out = coalesce(rs, p, r);
    lemma_neighbours_clear(rs, p, r);
    lemma_coalesce_spliced(rs, p, r);
    if p > 0 {
        assert(rs[p - 1].size > 0);
        assert(rs[p - 1].end() <= r.start);
        if joins_prev && p > 1 {
            assert(rs[p - 2].end() < rs[p - 1].start);
        }
    }
    if p < rs.len() {
        assert(rs[p].size > 0);
        assert(r.end() <= rs[p].start);
        if joins_next && p + 1 < rs.len() {
            assert(rs[p].end() < rs[p + 1].start);
        }
    }
    lemma_spliced_ordered(rs, out, lo, hi, out[lo]);
}

/// Every region of a coalesced list keeps the bounds the state asks for.
proof fn lemma_coalesce_bounds(s: PoolState, p: int, r: Region)
    requires
        s.valid(),
        r.size > 0,
        r.size % (PAGE_SIZE as int) == 0,
        s.bias <= r.start,
        r.end() <= usize::MAX,
        0 <= p <= s.regions.len(),
    ensures
        coalesce(s.regions, p, r).len() >= 1,
        forall|i: int| 0 <= i < coalesce(s.regions, p, r).len() ==> {
            &&& s.bias <= (#[trigger] coalesce(s.regions, p, r)[i]).start
            &&& coalesce(s.regions, p, r)[i].end() <= usize::MAX
            &&& coalesce(s.regions, p, r)[i].size % (PAGE_SIZE as int) == 0
        },
{
    let rs = s.regions;
    let n = rs.len() as int;
    let joins_prev = p > 0 && rs[p - 1].end() == r.start;
    let joins_next = p < n && r.end() == rs[p].start;
    let lo = if joins_prev { p - 1 } else { p };
    let hi = if joins_next { p + 1 } else { p };
    let out = coalesce(rs, p, r);
    assert forall|i: int| 0 <= i < out.len() implies {
        &&& s.bias <= (#[trigger] out[i]).start
        &&& out[i].end() <= usize::MAX
        &&& out[i].size % (PAGE_SIZE as int) == 0
    } by {
        if i < lo {
            assert(out[i] == rs[i]);
        } else if i > lo {
            assert(out[i] == rs[hi + i - lo - 1]);
        } else {
            if joins_prev {
                assert(rs[p - 1].size % (PAGE_SIZE as int) == 0);
                assert(s.bias <= rs[p - 1].start);
            }
            if joins_next {
                assert(rs[p].size % (PAGE_SIZE as int) == 0);
                assert(rs[p].end() <= usize::MAX);
            }
        }
    }
}

/// An allocation keeps the state valid, changes nothing but the region list,
/// and on success takes exactly the rounded request from the free bytes; the
/// handle it grants lies inside the region it was carved from.
pub proof fn lemma_allocate(s: PoolState, bytes: int)
    requires
        s.valid(),
        bytes >= 0,
    ensures
        s.after_allocate(bytes).valid(),
        s.granted(bytes) is None ==> s.after_allocate(bytes) == s,
        s.granted(bytes) is Some ==> {
            &&& s.after_allocate(bytes).free_bytes == s.free_bytes - page_ceil(bytes)
            &&& page_ceil(bytes) <= s.free_bytes
            &&& s.granted(bytes).unwrap().base >= 0
            &&& s.granted(bytes).unwrap().bytes() == page_ceil(bytes)
            &&& s.granted(bytes).unwrap().placed(s.bias).end() <= usize::MAX
        },
{
    let need = page_ceil(bytes);
    lemma_page_ceil(bytes);
    lemma_first_fit(s.regions, need);
    match first_fit(s.regions, need) {
        Some(k) => {
            let rs = s.regions;
            let out = carve(rs, k, need);
            lemma_carve(rs, k, need);
            assert forall|i: int| 0 <= i < out.len() implies {
                &&& s.bias <= (#[trigger] out[i]).start
                &&& out[i].end() <= usize::MAX
                &&& out[i].size % (PAGE_SIZE as int) == 0
            } by {
                if rs[k].size > need {
                    if i != k {
                        assert(out[i] == rs[i]);
                    } else {
                        assert(rs[k].size % (PAGE_SIZE as int) == 0);
                    }
                } else {
                    let a = if i < k { i } else { i + 1 };
                    assert(out[i] == rs[a]);
                }
            }
            assert(rs[k].end() <= usize::MAX);
            lemma_total_size_covers(rs, k);
        },
        None => {},
    }
}

/// Returning a region keeps the state valid. With every slot in use the
/// list and the free bytes stay as they were and the lost-byte counter grows
/// by the region's size; otherwise the free bytes grow by exactly that size
/// and nothing is lost.
pub proof fn lemma_release(s: PoolState, r: Region)
    requires
        s.valid(),
        s.can_release(r),
        s.bias <= r.start,
        r.size >= 0,
        r.size % (PAGE_SIZE as int) == 0,
    ensures
        s.release(r).valid(),
        r.size > 0 && s.full() ==> {
            &&& s.release(r).regions == s.regions
            &&& s.release(r).free_bytes == s.free_bytes
            &&& s.release(r).lost == s.lost + r.size
        },
        r.size > 0 && !s.full() ==> {
            &&& s.release(r).free_bytes == s.free_bytes + r.size
            &&& s.release(r).lost == s.lost
        },
        s.release(r).free_bytes <= usize::MAX,
{
    let rs = s.regions;
    if rs.len() > 0 {
        lemma_total_size_bound(rs);
        assert(rs[0].start >= 0);
        assert(rs.last().end() <= usize::MAX);
    }
    if r.size > 0 && !s.full() {
        lemma_insertion_point_exists(rs, r.start);
        let p = insertion_point(rs, r.start);
        lemma_coalesce_ordered(rs, p, r);
        lemma_coalesce_total(rs, p, r);
        lemma_coalesce_bounds(s, p, r);
        let out = coalesce(rs, p, r);
        lemma_total_size_bound(out);
        assert(out[0].start >= 0);
        assert(out.last().end() <= usize::MAX);
    }
}

/// Allocating and at once returning what was granted restores the state as
/// it was: the same regions with the same bounds, the same free bytes, and
/// nothing lost. The one exception is left out: a request that split a region
/// while every slot was in use, for then no slot is left to take the pages
/// back and they are lost.
pub proof fn lemma_round_trip(s: PoolState, bytes: int)
    requires
        s.valid(),
        bytes >= 0,
        s.granted(bytes) is Some,
        page_ceil(bytes) > 0 ==> !s.after_allocate(bytes).full(),
    ensures
        s.after_allocate(bytes).can_release(s.granted(bytes).unwrap().placed(s.bias)),
        s.after_allocate(bytes).release(s.granted(bytes).unwrap().placed(s.bias)) == s,
{
    let need = page_ceil(bytes);
    let rs = s.regions;
    let t = s.after_allocate(bytes);
    let r = s.granted(bytes).unwrap().placed(s.bias);
    lemma_page_ceil(bytes);
    lemma_first_fit(rs, need);
    lemma_allocate(s, bytes);
    let k = first_fit(rs, need).unwrap();
    assert(r == Region { start: rs[k].start, size: need });
    assert forall|i: int| 0 <= i < t.regions.len() implies r.apart(#[trigger] t.regions[i]) by {
        if i < k {
            assert(rs[i].end() < rs[k].start);
        } else if rs[k].size > need {
            if i > k {
                assert(rs[k].end() < rs[i].start);
            }
        } else {
            assert(rs[k].end() < rs[i + 1].start);
        }
    }
    if need == 0 {
        assert(t.regions =~= rs);
    } else {
        assert forall|i: int| 0 <= i < k implies (#[trigger] t.regions[i]).start <= r.start by {
            assert(rs[i].end() < rs[k].start);
            assert(rs[i].size > 0);
        }
        assert forall|i: int| k <= i < t.regions.len() implies r.start < (
        #[trigger] t.regions[i]).start by {
            if rs[k].size > need {
                if i > k {
                    assert(rs[k].end() < rs[i].start);
                }
            } else {
                assert(rs[k].end() < rs[i + 1].start);
            }
        }
        lemma_insertion_point_is(t.regions, r.start, k);
        if k > 0 {
            assert(t.regions[k - 1] == rs[k - 1]);
            assert(rs[k - 1].end() < rs[k].start);
        }
        if rs[k].size == need && k < t.regions.len() {
            assert(rs[k].end() < rs[k + 1].start);
        }
        assert(coalesce(t.regions, k, r) =~= rs);
    }
}

/// Two regions that touch, returned to a manager with nothing free and room
/// for two, end up as one region that spans both, whichever comes first.
pub proof fn lemma_touching_pair_coalesces(s: PoolState, a: Region, b: Region)
    requires
        s.regions.len() == 0,
        s.capacity >= 2,
        a.size > 0,
        b.size > 0,
        a.end() == b.start,
    ensures
        s.release(a).release(b).regions == seq![Region { start: a.start, size: a.size + b.size }],
        s.release(b).release(a).regions == seq![Region { start: a.start, size: a.size + b.size }],
{
    let both = seq![Region { start: a.start, size: a.size + b.size }];
    let none = Seq::<Region>::empty();
    assert(s.regions =~= none);
    lemma_insertion_point_is(none, a.start, 0);
    lemma_insertion_point_is(none, b.start, 0);
    assert(s.release(a).regions =~= seq![a]);
    assert(s.release(b).regions =~= seq![b]);
    assert(slot_for(seq![a], b.start, 1));
    lemma_insertion_point_is(seq![a], b.start, 1);
    assert(slot_for(seq![b], a.start, 0));
    lemma_insertion_point_is(seq![b], a.start, 0);
    assert(coalesce(seq![a], 1, b) =~= both);
    assert(coalesce(seq![b], 0, a) =~= both);
}

/// A region that touches none of the free regions enters the list as an
/// entry of its own and every other entry stays as it was.
pub proof fn lemma_apart_regions_stay_apart(s: PoolState, r: Region)
    requires
        s.valid(),
        !s.full(),
        r.size > 0,
        forall|i: int|
            0 <= i < s.regions.len() ==> r.end() != (#[trigger] s.regions[i]).start
                && s.regions[i].end() != r.start,
    ensures
        s.release(r).regions == s.regions.insert(insertion_point(s.regions, r.start), r),
        s.release(r).regions.len() == s.regions.len() + 1,
{
    lemma_insertion_point_exists(s.regions, r.start);
    let p = insertion_point(s.regions, r.start);
    if p > 0 {
        assert(s.regions[p - 1].end() != r.start);
    }
    if p < s.regions.len() {
        assert(r.end() != s.regions[p].start);
    }
    assert(coalesce(s.regions, p, r) =~= s.regions.insert(p, r));
}

/// With every slot in use, returned pages are not tracked as free again: the
/// list and the free bytes stay as they were, and the lost-byte counter grows
/// by exactly the size of the region.
pub proof fn lemma_full_pool_loses(s: PoolState, r: Region)
    requires
        s.full(),
        r.size > 0,
    ensures
        s.release(r).regions == s.regions,
        s.release(r).free_bytes == s.free_bytes,
        s.release(r).lost == s.lost + r.size,
{
}

/// The lost-byte counter never goes down: an allocation leaves it alone and
/// a release can only add to it.
pub proof fn lemma_lost_never_shrinks(s: PoolState, bytes: int, r: Region)
    ensures
        s.after_allocate(bytes).lost == s.lost,
        s.release(r).lost >= s.lost,
{
}

/// Whatever the bias, pages returned to a manager with nothing free are
/// granted again at the address they were returned at, address zero included.
pub proof fn lemma_bias_cancels(s: PoolState, run: PageRun)
    requires
        s.regions.len() == 0,
        s.capacity >= 1,
        run.pages > 0,
    ensures
        s.release(run.placed(s.bias)).granted(run.bytes()) == Some(run),
{
    let r = run.placed(s.bias);
    let none = Seq::<Region>::empty();
    assert(s.regions =~= none);
    lemma_insertion_point_is(none, r.start, 0);
    let after = s.release(r);
    assert(after.regions =~= seq![r]);
    assert(page_ceil(run.bytes()) == run.bytes());
    assert(fits_first_at(after.regions, run.bytes(), 0));
    lemma_first_fit_is(after.regions, run.bytes(), 0);
    assert(run.bytes() / (PAGE_SIZE as int) == run.pages);
}

} // verus!
