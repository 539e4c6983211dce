//! The page-memory manager: a first-fit allocator of whole pages whose
//! bookkeeping lives in a fixed arena of region records handed over by the
//! caller.
//!
//! The records are linked by slot index into two chains. The free-region
//! list starts at an anchor record that never describes memory and holds the
//! free regions in ascending address order; the unused chain holds the spare
//! records and always keeps one, its terminator. An arena of `n` records can
//! therefore describe `n - 2` free regions at a time.

use vstd::prelude::*;
use crate::regions::{
    carve, coalesce, first_fit, fits_first_at, lemma_allocate, lemma_first_fit, lemma_first_fit_is,
    insertion_point, lemma_insertion_point_is, lemma_release, none_fits, page_ceil, slot_for,
    total_size, PageRun, PoolState, Region,
};

verus! {

/// Allocation granularity in bytes. Every size the manager tracks is a multiple of it.
pub const PAGE_SIZE: usize = 0x1000;

/// One record of the arena: a memory range and its links within the chain
/// that currently owns the record.
#[derive(Clone, Copy, Debug)]
pub struct MemoryArea {
    start: usize,
    size: usize,
    prev: Option<usize>,
    next: Option<usize>,
}

impl MemoryArea {
    /// An empty, unlinked record.
    pub fn new() -> (area: Self)
        ensures
            area.is_blank(),
            area.region() == (Region { start: 0, size: 0 }),
    {
        MemoryArea { start: 0, size: 0, prev: None, next: None }
    }

    /// The record describes no memory and is linked to nothing.
    pub closed spec fn is_blank(&self) -> bool {
        &&& self.start == 0
        &&& self.size == 0
        &&& self.prev is None
        &&& self.next is None
    }

    /// The memory range the record holds.
    pub closed spec fn region(&self) -> Region {
        Region { start: self.start as int, size: self.size as int }
    }
}

/// A handle on a run of whole pages: a real base address and a page count.
pub struct PageMemory {
    mem: usize,
    pages: usize,
}

impl View for PageMemory {
    type V = PageRun;

    closed spec fn view(&self) -> PageRun {
        PageRun { base: self.mem as int, pages: self.pages as int }
    }
}

impl PageMemory {
    #[verifier::type_invariant]
    spec fn sized(&self) -> bool {
        self.pages * PAGE_SIZE <= usize::MAX
    }

    /// Real address of the first byte.
    pub fn memory(&self) -> (addr: usize)
        ensures
            addr == self@.base,
    {
        self.mem
    }

    /// Number of pages in the run.
    pub fn pages(&self) -> (count: usize)
        ensures
            count == self@.pages,
    {
        self.pages
    }

    /// Length of the run in bytes.
    pub fn size(&self) -> (bytes: usize)
        ensures
            bytes == self@.bytes(),
    {
        proof {
            use_type_invariant(self);
        }
        self.pages * PAGE_SIZE
    }
}

/// Describes the memory at `mem`, `size` bytes long, as a handle, rounding the
/// length up to whole pages.
pub fn memtranse(mem: usize, size: usize) -> (page: PageMemory)
    requires
        size + (PAGE_SIZE - 1) <= usize::MAX,
    ensures
        page@.base == mem,
        page@.bytes() == page_ceil(size as int),
{
    let rounded = round_to_pages(size);
    PageMemory { mem, pages: rounded / PAGE_SIZE }
}

/// `size` rounded up to the next multiple of the page size.
fn round_to_pages(size: usize) -> (rounded: usize)
    requires
        size + (PAGE_SIZE - 1) <= usize::MAX,
    ensures
        rounded == page_ceil(size as int),
{
    let padded = size + 0xfff;
    assert(padded & !0xfffusize == (padded / 0x1000) * 0x1000) by (bit_vector);
    padded & !0xfff
}

/// The physical-memory page allocator.
pub struct PageMemoryManager {
    area: Vec<MemoryArea>,
    unused_entity_list: usize,
    free_memarea_list: usize,
    free_total_size: usize,
    lost_total: usize,
    mem_total: usize,
    bias: usize,
    /// Records of the free-region list in link order, the anchor first.
    listed: Ghost<Seq<usize>>,
    /// Records of the unused chain in link order, the terminator last.
    unused: Ghost<Seq<usize>>,
}

impl View for PageMemoryManager {
    type V = PoolState;

    closed spec fn view(&self) -> PoolState {
        PoolState {
            regions: regions_of(self.area@, self.listed@),
            free_bytes: self.free_total_size as int,
            capacity: self.area@.len() - 2,
            bias: self.bias as int,
            lost: self.lost_total as int,
            mem_total: self.mem_total as int,
        }
    }
}

impl PageMemoryManager {
    /// Both chains are linked through the arena, the unused chain holds at
    /// least its terminator, and no record is on a chain twice or on both.
    spec fn chains(&self) -> bool {
        &&& self.unused@.len() >= 1
        &&& self.unused@[0] == self.unused_entity_list
        &&& chained(self.area@, self.listed@)
        &&& chained(self.area@, self.unused@)
        &&& unique(self.listed@)
        &&& unique(self.unused@)
        &&& separate(self.listed@, self.unused@)
    }

    /// The counters and the anchor of `self` are those of `other`.
    spec fn same_books(&self, other: &Self) -> bool {
        &&& self.free_memarea_list == other.free_memarea_list
        &&& self.free_total_size == other.free_total_size
        &&& self.lost_total == other.lost_total
        &&& self.mem_total == other.mem_total
        &&& self.bias == other.bias
    }

    /// The representation invariant: every record of the arena is on exactly
    /// one of the two chains, and the free-region list starts at its anchor.
    pub closed spec fn linked(&self) -> bool {
        &&& self.chains()
        &&& self.listed@.len() >= 1
        &&& self.listed@[0] == self.free_memarea_list
        &&& self.listed@.len() + self.unused@.len() == self.area@.len()
    }

    /// The records of the free-region list in link order, the anchor first.
    /// The record behind position `i` of the list describes region `i` of the
    /// view.
    pub closed spec fn chain(&self) -> Seq<usize> {
        self.listed@
    }

    /// The records of the unused chain in the order in which they are handed
    /// out; the last one is the terminator, which never is.
    pub closed spec fn spare(&self) -> Seq<usize> {
        self.unused@
    }

    /// The memory range that record `i` of the arena holds.
    pub closed spec fn record(&self, i: int) -> Region {
        self.area@[i].region()
    }

    /// The arena of `self` is that of `other`, record by record and link by
    /// link, and so are both chains.
    pub closed spec fn same_records(&self, other: &Self) -> bool {
        &&& self.area@ == other.area@
        &&& self.unused_entity_list == other.unused_entity_list
        &&& self.free_memarea_list == other.free_memarea_list
        &&& self.listed@ == other.listed@
        &&& self.unused@ == other.unused@
    }

    /// The manager is well formed: its records are linked as they should be
    /// and the state they describe is valid.
    pub open spec fn wf(&self) -> bool {
        &&& self.linked()
        &&& self@.valid()
    }

    /// Managers with the same records have the same chains, and each of their
    /// records holds the same memory range.
    pub proof fn lemma_same_records(&self, other: &Self)
        requires
            self.same_records(other),
        ensures
            self.chain() == other.chain(),
            self.spare() == other.spare(),
            forall|i: int| self.record(i) == other.record(i),
            self@.regions == other@.regions,
            self@.capacity == other@.capacity,
    {
    }

    /// In a well-formed manager every record of the arena is on exactly one of
    /// the two chains, and the records of the free-region list behind its
    /// anchor hold the regions of the view, one each and in the same order.
    pub proof fn lemma_chains(&self)
        requires
            self.wf(),
        ensures
            self.chain().len() == self@.regions.len() + 1,
            self.spare().len() >= 1,
            self.chain().len() + self.spare().len() == self@.capacity + 2,
            (self.chain() + self.spare()).no_duplicates(),
            forall|j: int|
                0 <= j < self.chain().len() ==> #[trigger] self.chain()[j] < self@.capacity + 2,
            forall|j: int|
                0 <= j < self.spare().len() ==> #[trigger] self.spare()[j] < self@.capacity + 2,
            forall|j: int|
                1 <= j < self.chain().len() ==> self.record(#[trigger] self.chain()[j] as int)
                    == self@.regions[j - 1],
    {
        let all = self.chain() + self.spare();
        assert forall|i: int, j: int| 0 <= i < all.len() && 0 <= j < all.len() && i != j implies all[i]
            != all[j] by {
            let n = self.listed@.len() as int;
            let (x, y) = if i < j { (i, j) } else { (j, i) };
            if y < n {
                assert(self.listed@[x] != self.listed@[y]);
            } else if x >= n {
                assert(self.unused@[x - n] != self.unused@[y - n]);
            } else {
                assert(self.listed@[x] != self.unused@[y - n]);
            }
        }
        assert forall|j: int| 0 <= j < self.chain().len() implies #[trigger] self.chain()[j]
            < self@.capacity + 2 by {
            assert(linked_at(self.area@, self.listed@, j));
        }
        assert forall|j: int| 0 <= j < self.spare().len() implies #[trigger] self.spare()[j]
            < self@.capacity + 2 by {
            assert(linked_at(self.area@, self.unused@, j));
        }
    }

    /// A manager over the records of `area`, with nothing free, nothing lost
    /// and no bias. Record 0 becomes the anchor of the free-region list; the
    /// others form the unused chain in index order, holding what they held,
    /// and the last of them stays behind as its terminator. So
    /// `area.len() - 2` regions can be tracked at a time.
    ///
    /// The manager takes the storage of `area` over and works in it: it never
    /// grows, shrinks or reallocates it, and allocates nothing of its own.
    pub fn new(area: Vec<MemoryArea>) -> (manager: Self)
        requires
            area.len() >= 2,
        ensures
            manager.wf(),
            manager@ == (PoolState {
                regions: Seq::empty(),
                free_bytes: 0,
                capacity: area.len() - 2,
                bias: 0,
                lost: 0,
                mem_total: 0,
            }),
            manager.chain() == seq![0usize],
            manager.spare() == Seq::new((area.len() - 1) as nat, |i: int| (i + 1) as usize),
            manager.record(0) == (Region { start: 0, size: 0 }),
            forall|i: int| 1 <= i < area.len() ==> #[trigger] manager.record(i) == area@[i].region(),
    {
        PageMemoryManager {
            area: Vec::new(),
            unused_entity_list: 0,
            free_memarea_list: 0,
            free_total_size: 0,
            lost_total: 0,
            mem_total: 0,
            bias: 0,
            listed: Ghost(Seq::empty()),
            unused: Ghost(Seq::empty()),
        }.init_instance(area)
    }

    /// Sets the offset that is added to every address before it is stored and
    /// taken off again when a handle is made. Regions already listed keep
    /// their stored addresses, so none of them may start below the new bias.
    pub fn set_addr_bias(&mut self, bias: usize)
        requires
            old(self).wf(),
            forall|i: int|
                0 <= i < old(self)@.regions.len() ==> bias <= (#[trigger] old(self)@.regions[i]).start,
        ensures
            final(self).wf(),
            final(self)@ == (PoolState { bias: bias as int, ..old(self)@ }),
            final(self).same_records(old(self)),
    {
        self.bias = bias;
    }

    /// Seats the manager on the records of `area`: links them into the unused
    /// chain in index order and takes the first as the anchor of an empty
    /// free-region list. The other records hold what they held. The counters
    /// stay as they are, so the manager must count no free byte.
    pub fn init_instance(self, area: Vec<MemoryArea>) -> (manager: Self)
        requires
            area.len() >= 2,
            self@.free_bytes == 0,
        ensures
            manager.wf(),
            manager@ == (PoolState {
                regions: Seq::empty(),
                free_bytes: 0,
                capacity: area.len() - 2,
                ..self@
            }),
            manager.chain() == seq![0usize],
            manager.spare() == Seq::new((area.len() - 1) as nat, |i: int| (i + 1) as usize),
            manager.record(0) == (Region { start: 0, size: 0 }),
            forall|i: int| 1 <= i < area.len() ==> #[trigger] manager.record(i) == area@[i].region(),
    {
        let mut manager = self;
        manager.area = area;
        manager.list_init();
        if let Some(anchor) = manager.get_entity() {
            manager.free_memarea_list = anchor;
            let ghost order = seq![anchor];
            manager.listed = Ghost(order);
            proof {
                assert(linked_at(manager.area@, manager.listed@, 0));
                assert(manager@.regions =~= Seq::<Region>::empty());
                assert(total_size(Seq::<Region>::empty()) == 0);
                assert(manager.spare() =~= Seq::new(
                    (area.len() - 1) as nat,
                    |i: int| (i + 1) as usize,
                ));
            }
        }
        manager
    }

    /// Returns the pages of `page` to the free pool. The region enters the
    /// free-region list at its place in address order and is joined to the
    /// region before it and to the region after it wherever they touch
    /// byte-exactly. If no record is left to describe it, its bytes are added
    /// to the lost-byte counter instead and the list stays as it was. A handle
    /// of no pages changes nothing.
    ///
    /// The caller answers for the handle: it must not overlap memory that is
    /// already free.
    #[verifier::rlimit(40)]
    pub fn free_frames(&mut self, page: PageMemory)
        requires
            old(self).wf(),
            old(self)@.can_release(page@.placed(old(self)@.bias)),
        ensures
            final(self).wf(),
            final(self)@ == old(self)@.release(page@.placed(old(self)@.bias)),
            page@.pages == 0 ==> *final(self) == *old(self),
            old(self)@.full() ==> final(self).same_records(old(self)),
            page@.pages > 0 && !old(self)@.full() ==> ({
                let r = page@.placed(old(self)@.bias);
                let p = insertion_point(old(self)@.regions, r.start);
                let joins_prev = touches_before(old(self)@.regions, p, r);
                let joins_next = touches_behind(old(self)@.regions, p, r);
                &&& final(self).chain() == chain_after_release(
                    old(self).chain(),
                    p,
                    old(self).spare()[0],
                    joins_prev,
                    joins_next,
                )
                &&& final(self).spare() == spare_after_release(
                    old(self).spare(),
                    old(self).chain(),
                    p,
                    joins_prev,
                    joins_next,
                )
                &&& joins_prev ==> final(self).record(old(self).chain()[p] as int) == (Region {
                    start: 0,
                    size: 0,
                })
                &&& joins_next ==> final(self).record(old(self).chain()[p + 1] as int) == (Region {
                    start: 0,
                    size: 0,
                })
            }),
    {
        proof {
            use_type_invariant(&page);
        }
        let ghost state = self@;
        let ghost regions = self@.regions;
        let ghost listed = self.listed@;
        let size = page.pages * PAGE_SIZE;
        if size == 0 {
            return;
        }
        // stored addresses carry the bias
        let free_start = page.mem + self.bias;
        let ghost r = Region { start: free_start as int, size: size as int };
        proof {
            assert(r == page@.placed(state.bias));
            assert(linked_at(self.area@, listed, 0));
        }
        // find the last region that starts at or below the returned one
        let anchor = self.free_memarea_list;
        let mut current = anchor;
        let mut list = self.area[anchor].next;
        let ghost mut p: int = 0;
        loop
            invariant
                *self == *old(self),
                self.wf(),
                regions == self@.regions,
                listed == self.listed@,
                0 <= p <= regions.len(),
                current == listed[p],
                list == after(listed, p),
                forall|j: int| 0 <= j < p ==> (#[trigger] regions[j]).start <= free_start,
            ensures
                *self == *old(self),
                0 <= p <= regions.len(),
                current == listed[p],
                list == after(listed, p),
                slot_for(regions, free_start as int, p),
            decreases regions.len() - p,
        {
            match list {
                None => {
                    break;
                },
                Some(l) => {
                    proof {
                        assert(linked_at(self.area@, listed, p + 1));
                        assert(regions[p] == self.area@[l as int].region());
                    }
                    if self.area[l].start > free_start {
                        proof {
                            assert forall|i: int| p <= i < regions.len() implies free_start < (
                            #[trigger] regions[i]).start by {
                                if i > p {
                                    assert(regions[p].size > 0);
                                    assert(regions[p].end() < regions[i].start);
                                }
                            }
                        }
                        break;
                    }
                    current = l;
                    list = self.area[l].next;
                    proof {
                        p = p + 1;
                    }
                },
            }
        }
        let next = list;
        let ghost joins_prev = p > 0 && regions[p - 1].end() == r.start;
        let ghost joins_next = p < regions.len() && r.end() == regions[p].start;
        proof {
            lemma_insertion_point_is(regions, free_start as int, p);
            lemma_elsewhere(listed, 0);
        }
        // take a record for the returned region
        let free_area = match self.get_entity() {
            Some(entity) => entity,
            None => {
                // none is left: the region cannot be described
                proof {
                    assert(state.full());
                }
                self.lost_total += size;
                proof {
                    assert(self@ == state.release(r));
                    assert(self@.valid()) by {
                        lemma_release(state, r);
                    }
                    assert(self.linked());
                }
                return;
            },
        };
        proof {
            assert(!state.full());
            assert(state.free_bytes + size <= usize::MAX) by {
                lemma_release(state, r);
            }
            lemma_view_untouched(old(self).area@, self.area@, listed, free_area);
        }
        // the free total grows by what comes back
        self.free_total_size += size;
        self.link_behind(current, free_area, free_start, size, Ghost(p));
        let ghost entered = regions_of(self.area@, self.listed@);
        proof {
            assert(self.linked());
            assert(entered == regions.insert(p, r));
            assert(linked_at(self.area@, self.listed@, p));
            assert(linked_at(self.area@, self.listed@, p + 1));
            assert(entered[p] == self.area@[free_area as int].region());
            if p > 0 {
                assert(entered[p - 1] == self.area@[current as int].region());
                assert(entered[p - 1] == regions[p - 1]);
                assert(regions[p - 1].end() <= usize::MAX);
            }
        }
        // join with the region before, if the two touch
        if current != anchor && self.area[current].start + self.area[current].size == free_start {
            self.join_before(free_area, current, Ghost(p));
            assert(self.linked());
        }
        let ghost q: int = if joins_prev { p - 1 } else { p };
        let ghost folded = regions_of(self.area@, self.listed@);
        // join with the region after, if the two touch
        if let Some(n) = next {
            proof {
                assert(self.listed@[q + 1] == free_area);
                assert(self.listed@[q + 2] == n);
                assert(linked_at(self.area@, self.listed@, q + 1));
                assert(linked_at(self.area@, self.listed@, q + 2));
                assert(folded[q] == self.area@[free_area as int].region());
                assert(folded[q + 1] == self.area@[n as int].region());
                assert(folded[q + 1] == regions[p]);
                assert(folded[q].end() == r.end());
                assert(regions[p].end() <= usize::MAX);
            }
            if self.area[free_area].start + self.area[free_area].size == self.area[n].start {
                self.join_after(free_area, n, Ghost(q + 1));
                assert(self.linked());
            }
        }
        proof {
            let done = regions_of(self.area@, self.listed@);
            assert(done == coalesce(regions, p, r)) by {
                lemma_stepwise(regions, p, r, entered, folded, done);
            }
            assert(self@ == state.release(r));
            assert(self@.valid()) by {
                lemma_release(state, r);
            }
        }
    }

    /// Tells whether `page` may be handed to `free_frames`: whether, with the
    /// bias added, it lies inside the address space and overlaps no free
    /// region, and whether the lost-byte counter can take it if no record is
    /// left. A handle of no pages always may.
    pub fn can_free(&self, page: &PageMemory) -> (ok: bool)
        requires
            self.wf(),
        ensures
            ok == self@.can_release(page@.placed(self@.bias)),
    {
        let size = page.size();
        if size == 0 {
            return true;
        }
        let ghost regions = self@.regions;
        let ghost r = page@.placed(self@.bias);
        let start = match page.mem.checked_add(self.bias) {
            Some(start) => start,
            None => {
                return false;
            },
        };
        let end = match start.checked_add(size) {
            Some(end) => end,
            None => {
                return false;
            },
        };
        proof {
            assert(linked_at(self.area@, self.listed@, 0));
        }
        let mut list = self.area[self.free_memarea_list].next;
        let ghost mut k: int = 0;
        while list.is_some()
            invariant
                self.wf(),
                regions == self@.regions,
                r == (Region { start: start as int, size: size as int }),
                r == page@.placed(self@.bias),
                size > 0,
                end == r.end(),
                0 <= k <= regions.len(),
                list == after(self.listed@, k),
                forall|j: int| 0 <= j < k ==> r.apart(#[trigger] regions[j]),
            decreases regions.len() - k,
        {
            let l = list.unwrap();
            proof {
                assert(linked_at(self.area@, self.listed@, k + 1));
                assert(regions[k] == self.area@[l as int].region());
                assert(regions[k].end() <= usize::MAX);
            }
            let low = self.area[l].start;
            let high = low + self.area[l].size;
            if !(end <= low || high <= start) {
                proof {
                    assert(!r.apart(self@.regions[k]));
                }
                return false;
            }
            list = self.area[l].next;
            proof {
                k = k + 1;
            }
        }
        proof {
            assert(linked_at(self.area@, self.unused@, 0));
        }
        match self.area[self.unused_entity_list].next {
            Some(_) => true,
            None => self.lost_total.checked_add(size).is_some(),
        }
    }

    /// Bytes currently free: the sum of the sizes of all free regions.
    pub fn get_freearea_bytes(&self) -> (bytes: usize)
        ensures
            bytes == self@.free_bytes,
    {
        self.free_total_size
    }

    /// Bytes that were returned while no record was left to describe them.
    pub fn get_lost_bytes(&self) -> (bytes: usize)
        ensures
            bytes == self@.lost,
    {
        self.lost_total
    }

    /// Grants the lowest run of whole pages that covers `require_size` bytes:
    /// the request is rounded up to whole pages and carved from the front of
    /// the first free region, in address order, that is large enough. Returns
    /// `None`, and changes nothing, when no region is.
    pub fn allocate_frames(&mut self, require_size: usize) -> (page: Option<PageMemory>)
        requires
            old(self).wf(),
        ensures
            final(self).wf(),
            final(self)@ == old(self)@.after_allocate(require_size as int),
            match page {
                Some(p) => old(self)@.granted(require_size as int) == Some(p@),
                None => old(self)@.granted(require_size as int) is None,
            },
            page is None ==> *final(self) == *old(self),
            first_fit(old(self)@.regions, page_ceil(require_size as int)) matches Some(k) ==> {
                &&& final(self).chain() == chain_after_allocate(
                    old(self).chain(),
                    k,
                    old(self)@.regions[k].size == page_ceil(require_size as int),
                )
                &&& final(self).spare() == spare_after_allocate(
                    old(self).spare(),
                    old(self).chain(),
                    k,
                    old(self)@.regions[k].size == page_ceil(require_size as int),
                )
                &&& old(self)@.regions[k].size == page_ceil(require_size as int)
                    ==> final(self).record(old(self).chain()[k + 1] as int) == (Region {
                    start: 0,
                    size: 0,
                })
            },
    {
        let ghost regions = self@.regions;
        let ghost need = page_ceil(require_size as int);
        if require_size > usize::MAX - 0xfff {
            proof {
                assert(need > usize::MAX);
                lemma_first_fit(regions, need);
                if let Some(k) = first_fit(regions, need) {
                    assert(regions[k].end() <= usize::MAX);
                    assert(self.bias <= regions[k].start);
                }
            }
            return None;
        }
        let size = round_to_pages(require_size);
        proof {
            assert(linked_at(self.area@, self.listed@, 0));
        }
        let mut list = self.area[self.free_memarea_list].next;
        let ghost mut k: int = 0;
        loop
            invariant
                *self == *old(self),
                self.wf(),
                regions == self@.regions,
                0 <= k <= regions.len(),
                list == after(self.listed@, k),
                forall|j: int| 0 <= j < k ==> (#[trigger] regions[j]).size < size,
            ensures
                *self == *old(self),
                0 <= k <= regions.len(),
                list == after(self.listed@, k),
                list is None ==> none_fits(regions, size as int),
                list is Some ==> fits_first_at(regions, size as int, k),
            decreases regions.len() - k,
        {
            match list {
                None => {
                    break;
                },
                Some(l) => {
                    proof {
                        assert(linked_at(self.area@, self.listed@, k + 1));
                        assert(regions[k] == self.area@[l as int].region());
                    }
                    if self.area[l].size >= size {
                        break;
                    }
                    list = self.area[l].next;
                    proof {
                        k = k + 1;
                    }
                },
            }
        }
        let entry = match list {
            None => {
                proof {
                    lemma_first_fit(regions, need);
                }
                return None;
            },
            Some(l) => l,
        };
        proof {
            lemma_first_fit_is(regions, need, k);
            lemma_allocate(old(self)@, require_size as int);
            assert(linked_at(self.area@, self.listed@, k + 1));
            assert(regions[k] == self.area@[entry as int].region());
            assert(self.bias <= regions[k].start);
            assert(regions[k].end() <= usize::MAX);
        }
        // the free total shrinks by what is handed out
        self.free_total_size -= size;
        // the stored address less the bias is the real address
        let page = PageMemory { mem: self.area[entry].start - self.bias, pages: size / PAGE_SIZE };
        if self.area[entry].size - size > 0 {
            self.area[entry].size -= size;
            self.area[entry].start += size;
            proof {
                assert(same_links(old(self).area@, self.area@));
                lemma_links_kept(old(self).area@, self.area@, self.listed@);
                lemma_links_kept(old(self).area@, self.area@, self.unused@);
                lemma_view_written(old(self).area@, self.area@, self.listed@, k + 1);
            }
        } else {
            // nothing is left of the region, so its record is not needed any more
            self.free_entity(entry, Ghost(Some(k + 1)));
            proof {
                lemma_view_unlinked(old(self).area@, self.area@, old(self).listed@, k + 1);
            }
        }
        Some(page)
    }

    /// Links every record of the arena into the unused chain, in index order.
    fn list_init(&mut self)
        requires
            old(self).area@.len() >= 2,
        ensures
            final(self).same_books(old(self)),
            final(self).area@.len() == old(self).area@.len(),
            final(self).listed@ == Seq::<usize>::empty(),
            final(self).unused@ == Seq::new(old(self).area@.len(), |i: int| i as usize),
            final(self).chains(),
            forall|j: int|
                0 <= j < old(self).area@.len() ==> (#[trigger] final(self).area@[j]).region() == old(
                    self,
                ).area@[j].region(),
    {
        let max = self.area.len() - 1;
        let mut i: usize = 1;
        while i < max
            invariant
                1 <= i <= max,
                max + 1 == self.area@.len(),
                self.same_books(old(self)),
                forall|j: int|
                    0 <= j < self.area@.len() ==> (#[trigger] self.area@[j]).region() == old(
                        self,
                    ).area@[j].region(),
                forall|j: int|
                    1 <= j < i ==> {
                        &&& (#[trigger] self.area@[j]).next == Some((j + 1) as usize)
                        &&& self.area@[j].prev == Some((j - 1) as usize)
                    },
            decreases max - i,
        {
            self.area[i].next = Some(i + 1);
            self.area[i].prev = Some(i - 1);
            i += 1;
        }
        self.area[1].prev = Some(0);
        self.area[0].next = Some(1);
        self.area[max].prev = Some(max - 1);
        self.area[0].prev = None;
        self.area[max].next = None;
        self.unused_entity_list = 0;
        proof {
            let order = Seq::new(self.area@.len(), |i: int| i as usize);
            self.listed = Ghost(Seq::empty());
            self.unused = Ghost(order);
            assert forall|j: int| 0 <= j < order.len() implies #[trigger] linked_at(
                self.area@,
                order,
                j,
            ) by {
                if 1 <= j < max {
                    assert(self.area@[j].next == Some((j + 1) as usize));
                }
            }
        }
    }

    /// Takes the head of the unused chain, blank and unlinked. The chain's
    /// terminator is never handed out: when only it remains, the arena is
    /// exhausted and nothing changes.
    fn get_entity(&mut self) -> (entity: Option<usize>)
        requires
            old(self).chains(),
        ensures
            final(self).chains(),
            final(self).same_books(old(self)),
            final(self).listed@ == old(self).listed@,
            match entity {
                Some(e) => {
                    &&& old(self).unused@.len() > 1
                    &&& e == old(self).unused@[0]
                    &&& final(self).unused@ == old(self).unused@.drop_first()
                    &&& final(self).unused@.len() == old(self).unused@.len() - 1
                    &&& final(self).area@.len() == old(self).area@.len()
                    &&& e < old(self).area@.len()
                    &&& final(self).area@[e as int].is_blank()
                    &&& same_regions_but(old(self).area@, final(self).area@, e)
                    &&& sits_at(final(self).area@, final(self).listed@, final(self).unused@, e, None)
                },
                None => old(self).unused@.len() == 1 && *final(self) == *old(self),
            },
    {
        let entity = self.unused_entity_list;
        assert(linked_at(self.area@, self.unused@, 0));
        match self.area[entity].next {
            Some(next) => {
                assert(linked_at(self.area@, self.unused@, 1));
                self.unused_entity_list = next;
                self.area[entity].start = 0;
                self.area[entity].size = 0;
                self.area[entity].prev = None;
                self.area[next].prev = None;
                self.area[entity].next = None;
                proof {
                    let rest = old(self).unused@.drop_first();
                    self.unused = Ghost(rest);
                    assert forall|i: int| 0 <= i < rest.len() implies #[trigger] linked_at(
                        self.area@,
                        rest,
                        i,
                    ) by {
                        assert(linked_at(old(self).area@, old(self).unused@, i + 1));
                        assert(rest[i] == old(self).unused@[i + 1]);
                    }
                    assert forall|i: int| 0 <= i < self.listed@.len() implies #[trigger] linked_at(
                        self.area@,
                        self.listed@,
                        i,
                    ) by {
                        assert(linked_at(old(self).area@, old(self).listed@, i));
                    }
                    assert forall|i: int, j: int| 0 <= i < j < rest.len() implies rest[i]
                        != rest[j] by {
                        assert(old(self).unused@[i + 1] != old(self).unused@[j + 1]);
                    }
                    assert forall|i: int, j: int|
                        0 <= i < self.listed@.len() && 0 <= j < rest.len() implies self.listed@[i]
                        != rest[j] by {
                        assert(old(self).listed@[i] != old(self).unused@[j + 1]);
                    }
                }
                Some(entity)
            },
            None => None,
        }
    }

    /// Gives the record `entity` back: detaches it from where it sits, blanks
    /// it and puts it at the head of the unused chain. The record is either at
    /// position `k` of the free-region list (`place` is `Some(k)`; the head of
    /// the list is position 0) or on no chain at all, as `get_entity` hands a
    /// record out (`place` is `None`).
    fn free_entity(&mut self, entity: usize, Ghost(place): Ghost<Option<int>>)
        requires
            old(self).chains(),
            sits_at(old(self).area@, old(self).listed@, old(self).unused@, entity, place),
        ensures
            final(self).chains(),
            final(self).same_books(old(self)),
            final(self).listed@ == without(old(self).listed@, place),
            place is Some ==> final(self).listed@.len() == old(self).listed@.len() - 1,
            place matches Some(k) && k > 0 ==> final(self).listed@[0] == old(self).listed@[0],
            final(self).unused@ == seq![entity] + old(self).unused@,
            final(self).unused@.len() == old(self).unused@.len() + 1,
            final(self).area@.len() == old(self).area@.len(),
            same_regions_but(old(self).area@, final(self).area@, entity),
            final(self).area@[entity as int].region() == (Region { start: 0, size: 0 }),
    {
        proof {
            if let Some(k) = place {
                assert(linked_at(self.area@, self.listed@, k));
                if k > 0 {
                    assert(linked_at(self.area@, self.listed@, k - 1));
                }
                if k + 1 < self.listed@.len() {
                    assert(linked_at(self.area@, self.listed@, k + 1));
                }
            }
            assert(linked_at(self.area@, self.unused@, 0));
        }
        let prev = self.area[entity].prev;
        let next = self.area[entity].next;
        match prev {
            None => {
                // the record headed its chain, or was on none
                if let Some(n) = next {
                    self.area[n].prev = None;
                }
            },
            Some(p) => {
                self.area[p].next = next;
                if let Some(n) = next {
                    self.area[n].prev = prev;
                }
            },
        }
        self.area[entity].start = 0;
        self.area[entity].size = 0;
        let head = self.unused_entity_list;
        self.area[head].prev = Some(entity);
        self.area[entity].next = Some(head);
        self.area[entity].prev = None;
        self.unused_entity_list = entity;
        proof {
            let listed = old(self).listed@;
            let unused = old(self).unused@;
            self.listed = Ghost(without(listed, place));
            self.unused = Ghost(seq![entity] + unused);
            assert(given_back(old(self).area@, self.area@, listed, unused, entity, place));
            lemma_given_back(old(self).area@, self.area@, listed, unused, entity, place);
        }
    }

    /// Links the blank record `free_area` into the free-region list behind
    /// the record `current`, to describe the `size` bytes at `start`.
    fn link_behind(
        &mut self,
        current: usize,
        free_area: usize,
        start: usize,
        size: usize,
        Ghost(p): Ghost<int>,
    )
        requires
            old(self).chains(),
            0 <= p < old(self).listed@.len(),
            old(self).listed@[p] == current,
            free_area < old(self).area@.len(),
            forall|i: int|
                0 <= i < old(self).listed@.len() ==> #[trigger] old(self).listed@[i] != free_area,
            forall|i: int|
                0 <= i < old(self).unused@.len() ==> #[trigger] old(self).unused@[i] != free_area,
        ensures
            final(self).chains(),
            final(self).same_books(old(self)),
            final(self).area@.len() == old(self).area@.len(),
            final(self).unused@ == old(self).unused@,
            final(self).listed@ == old(self).listed@.insert(p + 1, free_area),
            final(self).listed@.len() == old(self).listed@.len() + 1,
            final(self).listed@[0] == old(self).listed@[0],
            final(self).listed@[p] == current,
            final(self).listed@[p + 1] == free_area,
            p + 1 < old(self).listed@.len() ==> final(self).listed@[p + 2] == old(self).listed@[p
                + 1],
            regions_of(final(self).area@, final(self).listed@) == regions_of(
                old(self).area@,
                old(self).listed@,
            ).insert(p, Region { start: start as int, size: size as int }),
    {
        proof {
            assert(linked_at(self.area@, self.listed@, p));
            if p + 1 < self.listed@.len() {
                assert(linked_at(self.area@, self.listed@, p + 1));
            }
        }
        let next = self.area[current].next;
        self.area[free_area].start = start;
        self.area[free_area].size = size;
        self.area[current].next = Some(free_area);
        self.area[free_area].prev = Some(current);
        self.area[free_area].next = next;
        if let Some(n) = next {
            self.area[n].prev = Some(free_area);
        }
        proof {
            let listed = old(self).listed@;
            let region = Region { start: start as int, size: size as int };
            self.listed = Ghost(listed.insert(p + 1, free_area));
            lemma_elsewhere(listed, p);
            assert(entered_behind(old(self).area@, self.area@, listed, p, free_area, region));
            lemma_entered(old(self).area@, self.area@, listed, self.unused@, p, free_area, region);
            lemma_view_linked(old(self).area@, self.area@, listed, p + 1, free_area);
        }
    }

    /// Folds the region of `prev`, the record before `free_area` in the
    /// list, into that of `free_area`, and gives the record `prev` back.
    fn join_before(&mut self, free_area: usize, prev: usize, Ghost(k): Ghost<int>)
        requires
            old(self).chains(),
            1 <= k,
            k + 1 < old(self).listed@.len(),
            old(self).listed@[k] == prev,
            old(self).listed@[k + 1] == free_area,
            old(self).area@[prev as int].size + old(self).area@[free_area as int].size
                <= usize::MAX,
        ensures
            final(self).chains(),
            final(self).same_books(old(self)),
            final(self).area@.len() == old(self).area@.len(),
            final(self).unused@.len() == old(self).unused@.len() + 1,
            final(self).listed@ == old(self).listed@.remove(k),
            final(self).listed@.len() == old(self).listed@.len() - 1,
            final(self).listed@[0] == old(self).listed@[0],
            final(self).listed@[k] == free_area,
            k + 2 < old(self).listed@.len() ==> final(self).listed@[k + 1] == old(self).listed@[k
                + 2],
            final(self).unused@ == seq![prev] + old(self).unused@,
            final(self).area@[prev as int].region() == (Region { start: 0, size: 0 }),
            same_regions_but2(old(self).area@, final(self).area@, prev, free_area),
            ({
                let before = regions_of(old(self).area@, old(self).listed@);
                let joined = Region {
                    start: before[k - 1].start,
                    size: before[k].size + before[k - 1].size,
                };
                regions_of(final(self).area@, final(self).listed@) == before.update(
                    k,
                    joined,
                ).remove(k - 1)
            }),
    {
        proof {
            assert(linked_at(self.area@, self.listed@, k));
            assert(linked_at(self.area@, self.listed@, k + 1));
        }
        self.area[free_area].start = self.area[prev].start;
        self.area[free_area].size += self.area[prev].size;
        proof {
            assert(same_links(old(self).area@, self.area@));
            lemma_links_kept(old(self).area@, self.area@, self.listed@);
            lemma_links_kept(old(self).area@, self.area@, self.unused@);
            lemma_view_written(old(self).area@, self.area@, self.listed@, k + 1);
        }
        let ghost joined_area = self.area@;
        self.free_entity(prev, Ghost(Some(k)));
        proof {
            lemma_view_unlinked(joined_area, self.area@, old(self).listed@, k);
        }
    }

    /// Folds the region of `next`, the record behind `free_area` in the
    /// list, into that of `free_area`, and gives the record `next` back.
    fn join_after(&mut self, free_area: usize, next: usize, Ghost(k): Ghost<int>)
        requires
            old(self).chains(),
            1 <= k,
            k + 1 < old(self).listed@.len(),
            old(self).listed@[k] == free_area,
            old(self).listed@[k + 1] == next,
            old(self).area@[free_area as int].size + old(self).area@[next as int].size
                <= usize::MAX,
        ensures
            final(self).chains(),
            final(self).same_books(old(self)),
            final(self).area@.len() == old(self).area@.len(),
            final(self).unused@.len() == old(self).unused@.len() + 1,
            final(self).listed@ == old(self).listed@.remove(k + 1),
            final(self).listed@.len() == old(self).listed@.len() - 1,
            final(self).listed@[0] == old(self).listed@[0],
            final(self).unused@ == seq![next] + old(self).unused@,
            final(self).area@[next as int].region() == (Region { start: 0, size: 0 }),
            same_regions_but2(old(self).area@, final(self).area@, next, free_area),
            ({
                let before = regions_of(old(self).area@, old(self).listed@);
                let joined = Region {
                    start: before[k - 1].start,
                    size: before[k - 1].size + before[k].size,
                };
                regions_of(final(self).area@, final(self).listed@) == before.update(
                    k - 1,
                    joined,
                ).remove(k)
            }),
    {
        proof {
            assert(linked_at(self.area@, self.listed@, k));
            assert(linked_at(self.area@, self.listed@, k + 1));
        }
        self.area[free_area].size += self.area[next].size;
        proof {
            assert(same_links(old(self).area@, self.area@));
            lemma_links_kept(old(self).area@, self.area@, self.listed@);
            lemma_links_kept(old(self).area@, self.area@, self.unused@);
            lemma_view_written(old(self).area@, self.area@, self.listed@, k);
        }
        let ghost joined_area = self.area@;
        // take the record out of the list
        self.free_entity(next, Ghost(Some(k + 1)));
        proof {
            lemma_view_unlinked(joined_area, self.area@, old(self).listed@, k + 1);
        }
    }
}

/// The link a record at position `i` of `order` holds towards the front.
spec fn before(order: Seq<usize>, i: int) -> Option<usize> {
    if i == 0 {
        None
    } else {
        Some(order[i - 1])
    }
}

/// The link a record at position `i` of `order` holds towards the back.
spec fn after(order: Seq<usize>, i: int) -> Option<usize> {
    if i + 1 == order.len() {
        None
    } else {
        Some(order[i + 1])
    }
}

/// The record at position `i` of `order` exists and is linked to its neighbours.
spec fn linked_at(area: Seq<MemoryArea>, order: Seq<usize>, i: int) -> bool {
    &&& order[i] < area.len()
    &&& area[order[i] as int].prev == before(order, i)
    &&& area[order[i] as int].next == after(order, i)
}

/// `order` is a doubly linked chain through `area`.
spec fn chained(area: Seq<MemoryArea>, order: Seq<usize>) -> bool {
    forall|i: int| 0 <= i < order.len() ==> #[trigger] linked_at(area, order, i)
}

/// No record occurs twice in `order`.
spec fn unique(order: Seq<usize>) -> bool {
    forall|i: int, j: int| 0 <= i < j < order.len() ==> order[i] != order[j]
}

/// No record is on both chains.
spec fn separate(a: Seq<usize>, b: Seq<usize>) -> bool {
    forall|i: int, j: int| 0 <= i < a.len() && 0 <= j < b.len() ==> a[i] != b[j]
}

/// The regions described by the records of `listed` behind its anchor.
spec fn regions_of(area: Seq<MemoryArea>, listed: Seq<usize>) -> Seq<Region> {
    Seq::new((listed.len() - 1) as nat, |i: int| area[listed[i + 1] as int].region())
}

/// Every record but `e` and `f` describes the same memory in `a` and in `b`.
spec fn same_regions_but2(a: Seq<MemoryArea>, b: Seq<MemoryArea>, e: usize, f: usize) -> bool {
    &&& a.len() == b.len()
    &&& forall|j: int|
        0 <= j < a.len() && j != e && j != f ==> (#[trigger] b[j]).region() == a[j].region()
}

/// The returned region `r`, entering `rs` at position `p`, touches the region before it.
pub open spec fn touches_before(rs: Seq<Region>, p: int, r: Region) -> bool {
    p > 0 && rs[p - 1].end() == r.start
}

/// The returned region `r`, entering `rs` at position `p`, touches the region behind it.
pub open spec fn touches_behind(rs: Seq<Region>, p: int, r: Region) -> bool {
    p < rs.len() && r.end() == rs[p].start
}

/// The free-region list after a release into position `p` of the regions:
/// the record `taken` enters behind the record at position `p` of the list,
/// and each neighbour whose region was folded into the new one leaves.
pub open spec fn chain_after_release(
    chain: Seq<usize>,
    p: int,
    taken: usize,
    joins_prev: bool,
    joins_next: bool,
) -> Seq<usize> {
    let entered = chain.insert(p + 1, taken);
    let folded = if joins_prev { entered.remove(p) } else { entered };
    let at = if joins_prev { p } else { p + 1 };
    if joins_next { folded.remove(at + 1) } else { folded }
}

/// The unused chain after a release: its head was taken, and the records of
/// the folded neighbours were put before what was left, the one behind the
/// new region last and so foremost.
pub open spec fn spare_after_release(
    spare: Seq<usize>,
    chain: Seq<usize>,
    p: int,
    joins_prev: bool,
    joins_next: bool,
) -> Seq<usize> {
    let rest = spare.drop_first();
    let first = if joins_prev { seq![chain[p]] + rest } else { rest };
    if joins_next { seq![chain[p + 1]] + first } else { first }
}

/// The free-region list after an allocation from region `k`: the record of
/// the region leaves the list if the region was taken whole.
pub open spec fn chain_after_allocate(chain: Seq<usize>, k: int, whole: bool) -> Seq<usize> {
    if whole { chain.remove(k + 1) } else { chain }
}

/// The unused chain after an allocation from region `k`: the record of a
/// region taken whole is put at its head.
pub open spec fn spare_after_allocate(
    spare: Seq<usize>,
    chain: Seq<usize>,
    k: int,
    whole: bool,
) -> Seq<usize> {
    if whole { seq![chain[k + 1]] + spare } else { spare }
}

/// Every record but `e` describes the same memory in `a` and in `b`.
spec fn same_regions_but(a: Seq<MemoryArea>, b: Seq<MemoryArea>, e: usize) -> bool {
    &&& a.len() == b.len()
    &&& forall|j: int| 0 <= j < a.len() && j != e ==> (#[trigger] b[j]).region() == a[j].region()
}

/// The records of `b` hold the links of those of `a`.
spec fn same_links(a: Seq<MemoryArea>, b: Seq<MemoryArea>) -> bool {
    &&& a.len() == b.len()
    &&& forall|j: int|
        0 <= j < a.len() ==> (#[trigger] b[j]).prev == a[j].prev && b[j].next == a[j].next
}

/// `b` is `a` after the record `e`, holding `region`, was linked in behind
/// position `p` of `listed`.
spec fn entered_behind(
    a: Seq<MemoryArea>,
    b: Seq<MemoryArea>,
    listed: Seq<usize>,
    p: int,
    e: usize,
    region: Region,
) -> bool {
    &&& a.len() == b.len()
    &&& b[e as int].region() == region
    &&& b[e as int].prev == Some(listed[p])
    &&& b[e as int].next == after(listed, p)
    &&& b[listed[p] as int].next == Some(e)
    &&& b[listed[p] as int].prev == a[listed[p] as int].prev
    &&& p + 1 < listed.len() ==> {
        &&& b[listed[p + 1] as int].prev == Some(e)
        &&& b[listed[p + 1] as int].next == a[listed[p + 1] as int].next
    }
    &&& forall|j: int|
        0 <= j < a.len() && j != e ==> (#[trigger] b[j]).region() == a[j].region()
    &&& forall|j: int|
        0 <= j < a.len() && j != e && j != listed[p] && !(p + 1 < listed.len() && j == listed[p
            + 1]) ==> (#[trigger] b[j]).prev == a[j].prev && b[j].next == a[j].next
}

/// Where a record sits before it is given back: at position `k` of the
/// free-region list, or, blank of links, on neither chain.
spec fn sits_at(
    area: Seq<MemoryArea>,
    listed: Seq<usize>,
    unused: Seq<usize>,
    entity: usize,
    place: Option<int>,
) -> bool {
    match place {
        Some(k) => 0 <= k < listed.len() && listed[k] == entity,
        None => {
            &&& entity < area.len()
            &&& area[entity as int].prev is None
            &&& area[entity as int].next is None
            &&& forall|i: int| 0 <= i < listed.len() ==> #[trigger] listed[i] != entity
            &&& forall|i: int| 0 <= i < unused.len() ==> #[trigger] unused[i] != entity
        },
    }
}

/// The free-region list once the record at `place`, if it was on the list,
/// is off it.
spec fn without(listed: Seq<usize>, place: Option<int>) -> Seq<usize> {
    match place {
        Some(k) => listed.remove(k),
        None => listed,
    }
}

/// `b` is `a` after the record `entity` was detached from its neighbours,
/// blanked and linked in before the head of the unused chain.
spec fn given_back(
    a: Seq<MemoryArea>,
    b: Seq<MemoryArea>,
    listed: Seq<usize>,
    unused: Seq<usize>,
    entity: usize,
    place: Option<int>,
) -> bool {
    let before_it = match place {
        Some(k) => before(listed, k),
        None => None,
    };
    let behind_it = match place {
        Some(k) => after(listed, k),
        None => None,
    };
    &&& a.len() == b.len()
    &&& b[entity as int].region() == (Region { start: 0, size: 0 })
    &&& b[entity as int].prev is None
    &&& b[entity as int].next == Some(unused[0])
    &&& b[unused[0] as int].prev == Some(entity)
    &&& b[unused[0] as int].next == a[unused[0] as int].next
    &&& before_it matches Some(p) ==> b[p as int].next == behind_it && b[p as int].prev
        == a[p as int].prev
    &&& behind_it matches Some(n) ==> b[n as int].prev == before_it && b[n as int].next
        == a[n as int].next
    &&& forall|j: int|
        0 <= j < a.len() && j != entity ==> (#[trigger] b[j]).region() == a[j].region()
    &&& forall|j: int|
        0 <= j < a.len() && j != entity && j != unused[0] && before_it != Some(j as usize)
            && behind_it != Some(j as usize) ==> (#[trigger] b[j]).prev == a[j].prev && b[j].next
            == a[j].next
}

/// Giving a record back leaves two chains: the free-region list without the
/// record, and the unused chain with the record at its head.
proof fn lemma_given_back(
    a: Seq<MemoryArea>,
    b: Seq<MemoryArea>,
    listed: Seq<usize>,
    unused: Seq<usize>,
    entity: usize,
    place: Option<int>,
)
    requires
        unused.len() >= 1,
        chained(a, listed),
        chained(a, unused),
        unique(listed),
        unique(unused),
        separate(listed, unused),
        sits_at(a, listed, unused, entity, place),
        given_back(a, b, listed, unused, entity, place),
    ensures
        chained(b, without(listed, place)),
        chained(b, seq![entity] + unused),
        unique(without(listed, place)),
        unique(seq![entity] + unused),
        separate(without(listed, place), seq![entity] + unused),
        same_regions_but(a, b, entity),
{
    let kept = without(listed, place);
    let spare = seq![entity] + unused;
    lemma_elsewhere(unused, 0);
    assert(linked_at(a, unused, 0));
    if let Some(k) = place {
        lemma_elsewhere(listed, k);
        assert(linked_at(a, listed, k));
        if k > 0 {
            lemma_elsewhere(listed, k - 1);
        }
        if k + 1 < listed.len() {
            lemma_elsewhere(listed, k + 1);
        }
    }
    assert forall|i: int| 0 <= i < kept.len() implies #[trigger] linked_at(b, kept, i) by {
        let o = if place matches Some(k) && i >= k { i + 1 } else { i };
        assert(kept[i] == listed[o]);
        assert(linked_at(a, listed, o));
        assert(listed[o] != unused[0]);
        assert(listed[o] != entity);
    }
    assert forall|i: int| 0 <= i < spare.len() implies #[trigger] linked_at(b, spare, i) by {
        if i > 0 {
            assert(spare[i] == unused[i - 1]);
            assert(linked_at(a, unused, i - 1));
            assert(unused[i - 1] != entity);
            if let Some(k) = place {
                if k > 0 {
                    assert(listed[k - 1] != unused[i - 1]);
                }
                if k + 1 < listed.len() {
                    assert(listed[k + 1] != unused[i - 1]);
                }
            }
        }
    }
    assert forall|i: int, j: int| 0 <= i < j < kept.len() implies kept[i] != kept[j] by {
        let x = if place matches Some(k) && i >= k { i + 1 } else { i };
        let y = if place matches Some(k) && j >= k { j + 1 } else { j };
        assert(listed[x] != listed[y]);
    }
    assert forall|i: int, j: int| 0 <= i < j < spare.len() implies spare[i] != spare[j] by {
        if i == 0 {
            assert(unused[j - 1] != entity);
        } else {
            assert(unused[i - 1] != unused[j - 1]);
        }
    }
    assert forall|i: int, j: int|
        0 <= i < kept.len() && 0 <= j < spare.len() implies kept[i] != spare[j] by {
        let x = if place matches Some(k) && i >= k { i + 1 } else { i };
        assert(kept[i] == listed[x]);
        if j == 0 {
            assert(listed[x] != entity);
        } else {
            assert(listed[x] != unused[j - 1]);
        }
    }
}

/// In a chain without repeats, the record at position `k` is at no other position.
proof fn lemma_elsewhere(order: Seq<usize>, k: int)
    requires
        unique(order),
        0 <= k < order.len(),
    ensures
        forall|j: int| 0 <= j < order.len() && j != k ==> #[trigger] order[j] != order[k],
{
    assert forall|j: int| 0 <= j < order.len() && j != k implies #[trigger] order[j]
        != order[k] by {
        if j < k {
            assert(order[j] != order[k]);
        } else {
            assert(order[k] != order[j]);
        }
    }
}

/// A chain stays a chain while no link changes.
proof fn lemma_links_kept(a: Seq<MemoryArea>, b: Seq<MemoryArea>, order: Seq<usize>)
    requires
        chained(a, order),
        same_links(a, b),
    ensures
        chained(b, order),
{
    assert forall|i: int| 0 <= i < order.len() implies #[trigger] linked_at(b, order, i) by {
        assert(linked_at(a, order, i));
    }
}

/// Rewriting a record that is not on the list changes no region.
proof fn lemma_view_untouched(a: Seq<MemoryArea>, b: Seq<MemoryArea>, listed: Seq<usize>, e: usize)
    requires
        chained(a, listed),
        listed.len() >= 1,
        forall|i: int| 0 <= i < listed.len() ==> #[trigger] listed[i] != e,
        same_regions_but(a, b, e),
    ensures
        regions_of(b, listed) == regions_of(a, listed),
{
    let out = regions_of(a, listed);
    assert forall|i: int| 0 <= i < out.len() implies regions_of(b, listed)[i] == out[i] by {
        assert(linked_at(a, listed, i + 1));
    }
    assert(regions_of(b, listed) =~= out);
}

/// Rewriting the record at position `k` of the list rewrites region `k - 1`.
proof fn lemma_view_written(a: Seq<MemoryArea>, b: Seq<MemoryArea>, listed: Seq<usize>, k: int)
    requires
        chained(a, listed),
        unique(listed),
        1 <= k < listed.len(),
        same_regions_but(a, b, listed[k]),
    ensures
        regions_of(b, listed) == regions_of(a, listed).update(
            k - 1,
            b[listed[k] as int].region(),
        ),
{
    let out = regions_of(a, listed).update(k - 1, b[listed[k] as int].region());
    lemma_elsewhere(listed, k);
    assert forall|i: int| 0 <= i < out.len() implies regions_of(b, listed)[i] == out[i] by {
        assert(linked_at(a, listed, i + 1));
    }
    assert(regions_of(b, listed) =~= out);
}

/// Taking the record at position `k` off the list takes region `k - 1` away.
proof fn lemma_view_unlinked(a: Seq<MemoryArea>, b: Seq<MemoryArea>, listed: Seq<usize>, k: int)
    requires
        chained(a, listed),
        unique(listed),
        1 <= k < listed.len(),
        same_regions_but(a, b, listed[k]),
    ensures
        regions_of(b, listed.remove(k)) == regions_of(a, listed).remove(k - 1),
{
    let out = regions_of(a, listed).remove(k - 1);
    let kept = listed.remove(k);
    lemma_elsewhere(listed, k);
    assert forall|i: int| 0 <= i < out.len() implies regions_of(b, kept)[i] == out[i] by {
        let o = if i < k - 1 { i } else { i + 1 };
        assert(kept[i + 1] == listed[o + 1]);
        assert(linked_at(a, listed, o + 1));
    }
    assert(regions_of(b, kept) =~= out);
}

/// Entering a fresh record at position `pos` of the list enters its region
/// at position `pos - 1`.
proof fn lemma_view_linked(
    a: Seq<MemoryArea>,
    b: Seq<MemoryArea>,
    listed: Seq<usize>,
    pos: int,
    e: usize,
)
    requires
        chained(a, listed),
        1 <= pos <= listed.len(),
        forall|i: int| 0 <= i < listed.len() ==> #[trigger] listed[i] != e,
        same_regions_but(a, b, e),
    ensures
        regions_of(b, listed.insert(pos, e)) == regions_of(a, listed).insert(
            pos - 1,
            b[e as int].region(),
        ),
{
    let out = regions_of(a, listed).insert(pos - 1, b[e as int].region());
    let grown = listed.insert(pos, e);
    assert forall|i: int| 0 <= i < out.len() implies regions_of(b, grown)[i] == out[i] by {
        if i != pos - 1 {
            let o = if i < pos - 1 { i } else { i - 1 };
            assert(grown[i + 1] == listed[o + 1]);
            assert(linked_at(a, listed, o + 1));
        }
    }
    assert(regions_of(b, grown) =~= out);
}

/// Linking a fresh record in behind position `p` gives a chain with the
/// record at position `p + 1`, and leaves the other chain alone.
proof fn lemma_entered(
    a: Seq<MemoryArea>,
    b: Seq<MemoryArea>,
    listed: Seq<usize>,
    unused: Seq<usize>,
    p: int,
    e: usize,
    region: Region,
)
    requires
        chained(a, listed),
        chained(a, unused),
        unique(listed),
        unique(unused),
        separate(listed, unused),
        0 <= p < listed.len(),
        e < a.len(),
        forall|i: int| 0 <= i < listed.len() ==> #[trigger] listed[i] != e,
        forall|i: int| 0 <= i < unused.len() ==> #[trigger] unused[i] != e,
        entered_behind(a, b, listed, p, e, region),
    ensures
        chained(b, listed.insert(p + 1, e)),
        chained(b, unused),
        unique(listed.insert(p + 1, e)),
        separate(listed.insert(p + 1, e), unused),
        same_regions_but(a, b, e),
{
    let entered = listed.insert(p + 1, e);
    lemma_elsewhere(listed, p);
    if p + 1 < listed.len() {
        lemma_elsewhere(listed, p + 1);
    }
    assert forall|i: int| 0 <= i < entered.len() implies #[trigger] linked_at(b, entered, i) by {
        if i <= p {
            assert(entered[i] == listed[i]);
            assert(linked_at(a, listed, i));
        } else if i > p + 1 {
            assert(entered[i] == listed[i - 1]);
            assert(linked_at(a, listed, i - 1));
        }
    }
    assert forall|i: int| 0 <= i < unused.len() implies #[trigger] linked_at(b, unused, i) by {
        assert(linked_at(a, unused, i));
        assert(listed[p] != unused[i]);
        if p + 1 < listed.len() {
            assert(listed[p + 1] != unused[i]);
        }
    }
    assert forall|i: int, j: int| 0 <= i < j < entered.len() implies entered[i]
        != entered[j] by {
        let x = if i <= p { i } else { i - 1 };
        let y = if j <= p { j } else { j - 1 };
        if i != p + 1 && j != p + 1 {
            assert(listed[x] != listed[y]);
        }
    }
    assert forall|i: int, j: int|
        0 <= i < entered.len() && 0 <= j < unused.len() implies entered[i] != unused[j] by {
        let x = if i <= p { i } else { i - 1 };
        if i != p + 1 {
            assert(listed[x] != unused[j]);
        }
    }
}

/// Entering `r`, then folding the region before it into it, then the region
/// after it, each where the two touch, is coalescing.
proof fn lemma_stepwise(
    rs: Seq<Region>,
    p: int,
    r: Region,
    entered: Seq<Region>,
    folded: Seq<Region>,
    done: Seq<Region>,
)
    requires
        0 <= p <= rs.len(),
        entered == rs.insert(p, r),
        folded == (if p > 0 && rs[p - 1].end() == r.start {
            entered.update(
                p,
                Region { start: entered[p - 1].start, size: entered[p].size + entered[p - 1].size },
            ).remove(p - 1)
        } else {
            entered
        }),
        done == ({
            let q = if p > 0 && rs[p - 1].end() == r.start { p - 1 } else { p };
            if p < rs.len() && r.end() == rs[p].start {
                folded.update(
                    q,
                    Region { start: folded[q].start, size: folded[q].size + folded[q + 1].size },
                ).remove(q + 1)
            } else {
                folded
            }
        }),
    ensures
        done == coalesce(rs, p, r),
{
    assert(done =~= coalesce(rs, p, r));
}

} // verus!
