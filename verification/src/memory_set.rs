//! Address spaces: contiguous map areas sharing one policy and
//! permission set, and the `MemorySet` that composes them over one page
//! table — the kernel space or one task's user space.

use vstd::arithmetic::div_mod::lemma_fundamental_div_mod_converse;
use vstd::prelude::*;

use crate::address::{PhysPageNum, VirtAddr, VirtPageNum, PPN_LIMIT, VPN_LIMIT};
use crate::frame_allocator::{frame_alloc, frame_dealloc, FrameTracker, StackFrameAllocator};
use crate::page_table::{lemma_owned_live_mono, lemma_owned_live_preserved, lemma_owns_live, PTEFlags, PageTable, PageTableEntry};
use crate::phys_mem::PhysMemory;
use crate::KernelError;

verus! {

/// Read permission of a map area.
pub const MAP_R: u8 = 2;

/// Write permission of a map area.
pub const MAP_W: u8 = 4;

/// Execute permission of a map area.
pub const MAP_X: u8 = 8;

/// User-mode access permission of a map area.
pub const MAP_U: u8 = 16;

/// How an area's virtual pages find their physical frames.
#[derive(Clone, Copy, Debug, PartialEq, Eq, Structural)]
pub enum MapType {
    /// Virtual page equals physical page; used for kernel sections.
    Identifier,
    /// Each page is backed by a frame the area allocates and owns.
    Framed,
}

/// The permission subset `{R, W, X, U}` an area grants.
#[derive(Clone, Copy, Debug, PartialEq, Eq, Structural)]
pub struct MapPermission {
    pub bits: u8,
}

impl MapPermission {
    /// The permission set encoded by `bits`.
    pub fn from_bits(bits: u8) -> (r: MapPermission)
        ensures
            r.bits == bits,
    {
        MapPermission { bits }
    }
}

/// One contiguous range of virtual pages sharing one mapping policy and
/// one permission set; owner of its frames when `Framed`.
pub struct MapArea {
    vpn_start: u64,
    vpn_end: u64,
    data_frames: Vec<FrameTracker>,
    map_type: MapType,
    map_perm: MapPermission,
}

impl MapArea {
    /// First virtual page of the area.
    pub closed spec fn spec_start(self) -> u64 {
        self.vpn_start
    }

    /// One past the last virtual page of the area.
    pub closed spec fn spec_end(self) -> u64 {
        self.vpn_end
    }

    /// The mapping policy.
    pub closed spec fn spec_type(self) -> MapType {
        self.map_type
    }

    /// The permission set.
    pub closed spec fn spec_perm(self) -> MapPermission {
        self.map_perm
    }

    /// Number of owned backing frames.
    pub closed spec fn frame_count(self) -> int {
        self.data_frames@.len() as int
    }

    /// The backing frame of the `i`-th page of the area.
    pub closed spec fn area_frame(self, i: int) -> u64 {
        self.data_frames@[i].ppn.0
    }

    /// The owned frame trackers.
    closed spec fn frames_seq(self) -> Seq<FrameTracker> {
        self.data_frames@
    }

    /// The area owns the frame at page `q`.
    pub open spec fn owns(self, q: u64) -> bool {
        exists|i: int| 0 <= i < self.frame_count() && #[trigger] self.area_frame(i) == q
    }

    /// A sane page range within the virtual width.
    pub open spec fn range_wf(self) -> bool {
        self.spec_start() <= self.spec_end() <= VPN_LIMIT
    }

    /// The flag bits a leaf entry of this area carries: the permissions
    /// plus the valid bit.
    pub open spec fn leaf_flags(self) -> u8 {
        (2 * (self.spec_perm().bits / 2) + 1) as u8
    }

    /// The physical page the `i`-th page of the area maps to.
    pub open spec fn page_ppn(self, i: int) -> u64 {
        if self.spec_type() == MapType::Identifier {
            (self.spec_start() + i) as u64
        } else {
            self.area_frame(i)
        }
    }

    /// Every owned frame is live in `a`.
    pub open spec fn frames_live(self, a: StackFrameAllocator) -> bool {
        forall|i: int| 0 <= i < self.frame_count() ==> a.live(#[trigger] self.area_frame(i))
    }

    /// Owned frames are pairwise distinct.
    pub open spec fn frames_distinct(self) -> bool {
        forall|i: int, j: int|
            0 <= i < j < self.frame_count() ==> #[trigger] self.area_frame(i)
                != #[trigger] self.area_frame(j)
    }

    /// Builds the area covering `[floor(start_va), ceil(end_va))`, not
    /// yet mapped anywhere.
    pub fn new(start_va: VirtAddr, end_va: VirtAddr, map_type: MapType, map_perm: MapPermission)
        -> (r: MapArea)
        requires
            start_va.0 <= end_va.0,
            end_va.wf(),
        ensures
            r.spec_start() == start_va.0 / 4096,
            r.spec_end() == (end_va.0 + 4095) / 4096,
            r.spec_type() == map_type,
            r.spec_perm() == map_perm,
            r.frame_count() == 0,
            r.range_wf(),
    {
        let start_vpn = start_va.floor();
        let end_vpn = end_va.ceil();
        MapArea {
            vpn_start: start_vpn.0,
            vpn_end: end_vpn.0,
            data_frames: Vec::new(),
            map_type,
            map_perm,
        }
    }
}

/// Page `q` is among the trackers of `s`.
pub open spec fn in_prefix(s: Seq<FrameTracker>, q: u64) -> bool {
    exists|k: int| 0 <= k < s.len() && #[trigger] s[k].ppn.0 == q
}

/// The physical page the `i`-th page of `area` maps to, given the frame
/// list `frames` gathered for it.
pub open spec fn spec_page_ppn_at(area: MapArea, frames: Seq<FrameTracker>, i: int) -> u64 {
    if area.spec_type() == MapType::Identifier {
        (area.spec_start() + i) as u64
    } else {
        frames[i].ppn.0
    }
}

/// An area owns a page exactly when it is among its trackers.
proof fn lemma_owns_is_prefix(area: MapArea, q: u64)
    ensures
        area.owns(q) == in_prefix(area.frames_seq(), q),
{
    if area.owns(q) {
        let i = choose|i: int|
            0 <= i < area.frame_count() && #[trigger] area.area_frame(i) == q;
        assert(area.frames_seq()[i].ppn.0 == q);
    }
    if in_prefix(area.frames_seq(), q) {
        let k = choose|k: int|
            0 <= k < area.frames_seq().len() && #[trigger] area.frames_seq()[k].ppn.0 == q;
        assert(area.area_frame(k) == q);
    }
}

/// Frames of `mem` outside the area's ownership keep their content.
pub open spec fn mem_preserved_except(pre: PhysMemory, post: PhysMemory, area: MapArea) -> bool {
    &&& post.spec_base() == pre.spec_base()
    &&& post.spec_len() == pre.spec_len()
    &&& forall|p: u64|
        pre.in_range(p) && !area.owns(p) ==> #[trigger] post.spec_frame(p) == pre.spec_frame(p)
}

impl MapArea {
    /// Maps every page of the area into `page_table`: identity pages to
    /// their own numbers, framed pages to freshly allocated frames that
    /// the area then owns, zeroed in `mem`.  Fails on a page already
    /// mapped or when frames run out; pages mapped before the failure
    /// stay mapped and stay owned.
    pub fn map(
        &mut self,
        page_table: &mut PageTable,
        allocator: &mut StackFrameAllocator,
        mem: &mut PhysMemory,
    ) -> (r: Result<(), KernelError>)
        requires
            old(self).range_wf(),
            old(self).frame_count() == 0,
            old(page_table).wf(),
            old(allocator).wf(),
            old(page_table).owned_live(*old(allocator)),
            old(mem).wf(),
            old(allocator).spec_start() >= old(mem).spec_base(),
            old(allocator).spec_end() <= old(mem).spec_base() + old(mem).spec_len(),
        ensures
            final(self).spec_start() == old(self).spec_start(),
            final(self).spec_end() == old(self).spec_end(),
            final(self).spec_type() == old(self).spec_type(),
            final(self).spec_perm() == old(self).spec_perm(),
            final(self).range_wf(),
            final(page_table).wf(),
            final(allocator).wf(),
            final(mem).wf(),
            final(page_table).owned_live(*final(allocator)),
            final(allocator).spec_start() == old(allocator).spec_start(),
            final(allocator).spec_end() == old(allocator).spec_end(),
            final(allocator).free_count() >= old(allocator).free_count() - 3 * (old(self).spec_end()
                - old(self).spec_start()),
            final(mem).spec_base() == old(mem).spec_base(),
            final(mem).spec_len() == old(mem).spec_len(),
            forall|q: u64| old(allocator).live(q) ==> final(allocator).live(q),
            forall|q: u64|
                final(allocator).live(q) && !old(allocator).live(q) ==> final(page_table).owns(q)
                    || final(self).owns(q),
            forall|q: u64|
                final(page_table).owns(q) && !old(page_table).owns(q) ==> !old(allocator).live(q),
            forall|q: u64| old(page_table).owns(q) ==> final(page_table).owns(q),
            forall|i: int|
                0 <= i < final(self).frame_count() ==> !old(allocator).live(
                    #[trigger] final(self).area_frame(i),
                ),
            final(self).frames_live(*final(allocator)),
            final(self).frames_distinct(),
            forall|q: u64| !(final(page_table).owns(q) && final(self).owns(q)),
            mem_preserved_except(*old(mem), *final(mem), *final(self)),
            forall|i: int|
                0 <= i < final(self).frame_count() ==> final(mem).is_bytes(
                    #[trigger] final(self).area_frame(i),
                ) && final(mem).page(final(self).area_frame(i)) == Seq::new(4096, |j: int| 0u8)
                    && final(mem).in_range(final(self).area_frame(i)),
            final(self).spec_type() == MapType::Identifier ==> final(self).frame_count() == 0,
            forall|v: u64|
                !(old(self).spec_start() <= v < old(self).spec_end()) ==> #[trigger] final(page_table).walk(v) == old(page_table).walk(v),
            r is Ok ==> {
                &&& (final(self).spec_type() == MapType::Framed ==> final(self).frame_count()
                    == old(self).spec_end() - old(self).spec_start())
                &&& forall|v: u64|
                    old(self).spec_start() <= v < old(self).spec_end() ==> (#[trigger] final(page_table).walk(v)) is Some && final(page_table).walk(v)->Some_0.spec_flags() == final(self).leaf_flags() && final(page_table).walk(v)->Some_0.spec_ppn() == final(self).page_ppn(v - old(self).spec_start())
                &&& forall|v: u64|
                    old(self).spec_start() <= v < old(self).spec_end() ==> (#[trigger] old(page_table).walk(v)) is None
            },
            r matches Err(e) ==> e == KernelError::AlreadyMapped || e
                == KernelError::FrameExhausted,
            r == Err::<(), KernelError>(KernelError::AlreadyMapped) ==> exists|v: u64|
                old(self).spec_start() <= v < old(self).spec_end() && (#[trigger] old(page_table).walk(v)) is Some,
            r == Err::<(), KernelError>(KernelError::FrameExhausted) ==> final(allocator).exhausted(),
            (forall|v: u64|
                old(self).spec_start() <= v < old(self).spec_end() ==> (#[trigger] old(page_table).walk(v)) is None) && old(allocator).free_count() >= 3 * (old(self).spec_end()
                - old(self).spec_start()) ==> r is Ok,
    {
        let ghost pre_pt = *old(page_table);
        let ghost pre_a = *old(allocator);
        let ghost pre_mem = *old(mem);
        let start = self.vpn_start;
        let end = self.vpn_end;
        let count = end - start;
        let mut frames_so_far: Vec<FrameTracker> = Vec::new();
        let mut i: u64 = 0;
        while i < count
            invariant
                *self == *old(self),
                pre_pt == *old(page_table),
                pre_a == *old(allocator),
                pre_mem == *old(mem),
                self.range_wf(),
                start == self.spec_start(),
                end == self.spec_end(),
                count == end - start,
                0 <= i <= count,
                page_table.wf(),
                allocator.wf(),
                mem.wf(),
                page_table.owned_live(*allocator),
                allocator.spec_start() == pre_a.spec_start(),
                allocator.spec_end() == pre_a.spec_end(),
                allocator.spec_start() >= mem.spec_base(),
                allocator.spec_end() <= mem.spec_base() + mem.spec_len(),
                mem.spec_base() == pre_mem.spec_base(),
                mem.spec_len() == pre_mem.spec_len(),
                allocator.free_count() >= pre_a.free_count() - 3 * i,
                forall|q: u64| pre_a.live(q) ==> allocator.live(q),
                forall|q: u64|
                    allocator.live(q) && !pre_a.live(q) ==> page_table.owns(q) || in_prefix(
                        frames_so_far@,
                        q,
                    ),
                forall|q: u64| page_table.owns(q) && !pre_pt.owns(q) ==> !pre_a.live(q),
                forall|q: u64| pre_pt.owns(q) ==> page_table.owns(q),
                frames_so_far@.len() == if self.spec_type() == MapType::Framed {
                    i as int
                } else {
                    0
                },
                forall|k: int|
                    0 <= k < frames_so_far@.len() ==> allocator.live(
                        #[trigger] frames_so_far@[k].ppn.0,
                    ) && !pre_a.live(frames_so_far@[k].ppn.0) && mem.in_range(
                        frames_so_far@[k].ppn.0,
                    ) && mem.is_bytes(frames_so_far@[k].ppn.0) && mem.page(frames_so_far@[k].ppn.0)
                        == Seq::new(4096, |j: int| 0u8),
                forall|k: int, l: int|
                    0 <= k < l < frames_so_far@.len() ==> #[trigger] frames_so_far@[k].ppn.0
                        != #[trigger] frames_so_far@[l].ppn.0,
                forall|q: u64| !(page_table.owns(q) && in_prefix(frames_so_far@, q)),
                forall|p: u64|
                    pre_mem.in_range(p) && !in_prefix(frames_so_far@, p)
                        ==> #[trigger] mem.spec_frame(p) == pre_mem.spec_frame(p),
                forall|v: u64|
                    start <= v < start + i ==> (#[trigger] page_table.walk(v)) is Some
                        && page_table.walk(v)->Some_0.spec_flags() == self.leaf_flags()
                        && page_table.walk(v)->Some_0.spec_ppn() == spec_page_ppn_at(
                        *self,
                        frames_so_far@,
                        v - start,
                    ),
                forall|v: u64|
                    !(start <= v < start + i) ==> #[trigger] page_table.walk(v) == pre_pt.walk(v),
                forall|v: u64| start <= v < start + i ==> #[trigger] pre_pt.walk(v) is None,
            decreases count - i,
        {
            let vpn = VirtPageNum(start + i);
            proof {
                assert(vpn.0 < VPN_LIMIT);
            }
            let ghost a0 = *allocator;
            let ghost mem0 = *mem;
            let ghost frames_pre = frames_so_far@;
            let ppn: PhysPageNum;
            if self.map_type == MapType::Identifier {
                ppn = PhysPageNum(start + i);
            } else {
                let tracker = match frame_alloc(allocator) {
                    None => {
                        proof {
                            if (forall|v: u64|
                                start <= v < end ==> (#[trigger] pre_pt.walk(v)) is None)
                                && pre_a.free_count() >= 3 * count {
                                assert(a0.free_count() >= 3);
                                assert(false);
                            }
                        }
                        let ghost a_now = *allocator;
                        proof {
                            lemma_owned_live_preserved(*page_table, a0, a_now);
                        }
                        self.data_frames = frames_so_far;
                        proof {
                            let fs = frames_so_far@;
                            assert(self.frames_seq() == fs);
                            assert forall|q: u64| self.owns(q) == in_prefix(fs, q) by {
                                lemma_owns_is_prefix(*self, q);
                            }
                            assert forall|q: u64|
                                allocator.live(q) && !pre_a.live(q) implies page_table.owns(q)
                                || self.owns(q) by {}
                            assert forall|p: u64|
                                pre_mem.in_range(p) && !self.owns(p) implies #[trigger] mem.spec_frame(p)
                                == pre_mem.spec_frame(p) by {}
                            assert forall|i2: int|
                                0 <= i2 < self.frame_count() implies mem.is_bytes(
                                #[trigger] self.area_frame(i2),
                            ) && mem.page(self.area_frame(i2)) == Seq::new(4096, |j: int| 0u8)
                                && mem.in_range(self.area_frame(i2)) && !pre_a.live(
                                self.area_frame(i2),
                            ) && allocator.live(self.area_frame(i2)) by {
                                assert(self.area_frame(i2) == fs[i2].ppn.0);
                            }
                            assert forall|i2: int, j2: int|
                                0 <= i2 < j2 < self.frame_count() implies #[trigger] self.area_frame(
                                i2,
                            ) != #[trigger] self.area_frame(j2) by {
                                assert(self.area_frame(i2) == fs[i2].ppn.0);
                                assert(self.area_frame(j2) == fs[j2].ppn.0);
                            }
                            assert forall|q: u64|
                                !(page_table.owns(q) && self.owns(q)) by {}
                        }
                        return Err(KernelError::FrameExhausted);
                    },
                    Some(t) => t,
                };
                ppn = tracker.ppn;
                proof {
                    assert(mem.in_range(ppn.0)) by {
                        assert(allocator.spec_start() <= ppn.0 < allocator.spec_end());
                    }
                }
                mem.zero_page(ppn);
                frames_so_far.push(tracker);
                proof {
                    assert forall|k: int|
                        0 <= k < frames_so_far@.len() implies allocator.live(
                        #[trigger] frames_so_far@[k].ppn.0,
                    ) && !pre_a.live(frames_so_far@[k].ppn.0) && mem.in_range(
                        frames_so_far@[k].ppn.0,
                    ) && mem.is_bytes(frames_so_far@[k].ppn.0) && mem.page(frames_so_far@[k].ppn.0)
                        == Seq::new(4096, |j: int| 0u8) by {
                        if k < frames_pre.len() {
                            assert(a0.live(frames_pre[k].ppn.0));
                            assert(frames_pre[k].ppn.0 != ppn.0);
                            assert(mem.spec_frame(frames_pre[k].ppn.0) == mem0.spec_frame(
                                frames_pre[k].ppn.0,
                            ));
                        } else {
                            assert(frames_so_far@[k].ppn.0 == ppn.0);
                        }
                    }
                    assert forall|q: u64| !(page_table.owns(q) && in_prefix(frames_so_far@, q)) by {
                        if page_table.owns(q) && in_prefix(frames_so_far@, q) {
                            let k = choose|k: int|
                                0 <= k < frames_so_far@.len() && #[trigger] frames_so_far@[k].ppn.0
                                    == q;
                            if k < frames_pre.len() {
                                assert(in_prefix(frames_pre, q)) by {
                                    assert(frames_pre[k].ppn.0 == q);
                                }
                            } else {
                                assert(q == ppn.0);
                                lemma_owns_live(*page_table, a0, q);
                                assert(false);
                            }
                        }
                    }
                    assert forall|q: u64|
                        allocator.live(q) && !pre_a.live(q) implies page_table.owns(q) || in_prefix(
                        frames_so_far@,
                        q,
                    ) by {
                        if q == ppn.0 {
                            assert(frames_so_far@[frames_so_far@.len() - 1].ppn.0 == q);
                        } else {
                            if in_prefix(frames_pre, q) {
                                let k = choose|k: int|
                                    0 <= k < frames_pre.len() && #[trigger] frames_pre[k].ppn.0
                                        == q;
                                assert(frames_so_far@[k].ppn.0 == q);
                            }
                        }
                    }
                    assert forall|p: u64|
                        pre_mem.in_range(p) && !in_prefix(frames_so_far@, p)
                            implies #[trigger] mem.spec_frame(p) == pre_mem.spec_frame(p) by {
                        assert(p != ppn.0) by {
                            if p == ppn.0 {
                                assert(frames_so_far@[frames_so_far@.len() - 1].ppn.0 == p);
                            }
                        }
                        if in_prefix(frames_pre, p) {
                            let k = choose|k: int|
                                0 <= k < frames_pre.len() && #[trigger] frames_pre[k].ppn.0 == p;
                            assert(frames_so_far@[k].ppn.0 == p);
                        }
                    }
                }
            }
            proof {
                lemma_owned_live_preserved(*page_table, a0, *allocator);
            }
            let ghost pt_before = *page_table;
            let ghost a_before = *allocator;
            let ghost frames_cur = frames_so_far@;
            let flags = PTEFlags::from_bits(self.map_perm.bits);
            match page_table.map(allocator, vpn, ppn, flags) {
                Ok(_) => {},
                Err(e) => {
                    proof {
                        assert(pt_before.walk(vpn.0) == pre_pt.walk(vpn.0));
                        if e == KernelError::AlreadyMapped {
                            assert(pre_pt.walk(vpn.0) is Some);
                            assert(start <= vpn.0 < end);
                        }
                        if (forall|v: u64|
                            start <= v < end ==> (#[trigger] pre_pt.walk(v)) is None)
                            && pre_a.free_count() >= 3 * count {
                            assert(pre_pt.walk(vpn.0) is None);
                            assert(a_before.free_count() >= 2);
                            assert(false);
                        }
                        assert forall|v: u64|
                            !(start <= v < end) implies #[trigger] page_table.walk(v)
                            == pre_pt.walk(v) by {}
                        assert forall|q: u64| pre_pt.owns(q) implies page_table.owns(q) by {
                            assert(crate::page_table::pre_pt_owns(pt_before, q));
                            assert(crate::page_table::pre_pt_owns(*page_table, q));
                        }
                        assert forall|q: u64|
                            !(page_table.owns(q) && in_prefix(frames_cur, q)) by {
                            if page_table.owns(q) && in_prefix(frames_cur, q) {
                                if !pt_before.owns(q) {
                                    assert(!a_before.live(q));
                                    let k = choose|k: int|
                                        0 <= k < frames_cur.len() && #[trigger] frames_cur[k].ppn.0
                                            == q;
                                    assert(a_before.live(frames_cur[k].ppn.0));
                                }
                            }
                        }
                    }
                    self.data_frames = frames_so_far;
                    proof {
                            let fs = frames_so_far@;
                            assert(self.frames_seq() == fs);
                            assert forall|q: u64| self.owns(q) == in_prefix(fs, q) by {
                                lemma_owns_is_prefix(*self, q);
                            }
                            assert forall|q: u64|
                                allocator.live(q) && !pre_a.live(q) implies page_table.owns(q)
                                || self.owns(q) by {}
                            assert forall|p: u64|
                                pre_mem.in_range(p) && !self.owns(p) implies #[trigger] mem.spec_frame(p)
                                == pre_mem.spec_frame(p) by {}
                            assert forall|i2: int|
                                0 <= i2 < self.frame_count() implies mem.is_bytes(
                                #[trigger] self.area_frame(i2),
                            ) && mem.page(self.area_frame(i2)) == Seq::new(4096, |j: int| 0u8)
                                && mem.in_range(self.area_frame(i2)) && !pre_a.live(
                                self.area_frame(i2),
                            ) && allocator.live(self.area_frame(i2)) by {
                                assert(self.area_frame(i2) == fs[i2].ppn.0);
                            }
                            assert forall|i2: int, j2: int|
                                0 <= i2 < j2 < self.frame_count() implies #[trigger] self.area_frame(
                                i2,
                            ) != #[trigger] self.area_frame(j2) by {
                                assert(self.area_frame(i2) == fs[i2].ppn.0);
                                assert(self.area_frame(j2) == fs[j2].ppn.0);
                            }
                            assert forall|q: u64|
                                !(page_table.owns(q) && self.owns(q)) by {}
                        }
                    return Err(e);
                },
            }
            proof {
                assert forall|k: int|
                    0 <= k < frames_so_far@.len() implies allocator.live(
                    #[trigger] frames_so_far@[k].ppn.0,
                ) && !pre_a.live(frames_so_far@[k].ppn.0) && mem.in_range(frames_so_far@[k].ppn.0)
                    && mem.is_bytes(frames_so_far@[k].ppn.0) && mem.page(frames_so_far@[k].ppn.0)
                    == Seq::new(4096, |j: int| 0u8) by {
                    assert(a_before.live(frames_so_far@[k].ppn.0));
                }
                assert forall|q: u64| !(page_table.owns(q) && in_prefix(frames_so_far@, q)) by {
                    if page_table.owns(q) && in_prefix(frames_so_far@, q) {
                        if !pt_before.owns(q) {
                            assert(!a_before.live(q));
                            let k = choose|k: int|
                                0 <= k < frames_so_far@.len() && #[trigger] frames_so_far@[k].ppn.0
                                    == q;
                            assert(a_before.live(frames_so_far@[k].ppn.0));
                        }
                    }
                }
                assert forall|q: u64| pre_pt.owns(q) implies page_table.owns(q) by {
                    assert(crate::page_table::pre_pt_owns(pt_before, q));
                    assert(crate::page_table::pre_pt_owns(*page_table, q));
                }
                assert(pt_before.walk(vpn.0) == pre_pt.walk(vpn.0));
                assert(pre_pt.walk(vpn.0) is None);
                assert forall|v: u64|
                    start <= v < start + i + 1 implies (#[trigger] page_table.walk(v)) is Some
                    && page_table.walk(v)->Some_0.spec_flags() == self.leaf_flags()
                    && page_table.walk(v)->Some_0.spec_ppn() == spec_page_ppn_at(
                    *self,
                    frames_so_far@,
                    v - start,
                ) by {
                    if v == vpn.0 {
                        assert(page_table.walk(v)->Some_0.spec_ppn() == ppn.0);
                        if self.spec_type() == MapType::Framed {
                            assert(frames_so_far@[i as int].ppn.0 == ppn.0);
                        }
                    } else if v < start + i {
                        assert(page_table.walk(v) == pt_before.walk(v));
                    }
                }
            }
            i = i + 1;
        }
        self.data_frames = frames_so_far;
        proof {
                            let fs = frames_so_far@;
                            assert(self.frames_seq() == fs);
                            assert forall|q: u64| self.owns(q) == in_prefix(fs, q) by {
                                lemma_owns_is_prefix(*self, q);
                            }
                            assert forall|q: u64|
                                allocator.live(q) && !pre_a.live(q) implies page_table.owns(q)
                                || self.owns(q) by {}
                            assert forall|p: u64|
                                pre_mem.in_range(p) && !self.owns(p) implies #[trigger] mem.spec_frame(p)
                                == pre_mem.spec_frame(p) by {}
                            assert forall|i2: int|
                                0 <= i2 < self.frame_count() implies mem.is_bytes(
                                #[trigger] self.area_frame(i2),
                            ) && mem.page(self.area_frame(i2)) == Seq::new(4096, |j: int| 0u8)
                                && mem.in_range(self.area_frame(i2)) && !pre_a.live(
                                self.area_frame(i2),
                            ) && allocator.live(self.area_frame(i2)) by {
                                assert(self.area_frame(i2) == fs[i2].ppn.0);
                            }
                            assert forall|i2: int, j2: int|
                                0 <= i2 < j2 < self.frame_count() implies #[trigger] self.area_frame(
                                i2,
                            ) != #[trigger] self.area_frame(j2) by {
                                assert(self.area_frame(i2) == fs[i2].ppn.0);
                                assert(self.area_frame(j2) == fs[j2].ppn.0);
                            }
                            assert forall|q: u64|
                                !(page_table.owns(q) && self.owns(q)) by {}
                        }
        proof {
            assert forall|v: u64|
                start <= v < end implies (#[trigger] page_table.walk(v)) is Some
                && page_table.walk(v)->Some_0.spec_flags() == self.leaf_flags()
                && page_table.walk(v)->Some_0.spec_ppn() == self.page_ppn(v - start) by {
                assert(spec_page_ppn_at(*old(self), self.frames_seq(), v - start) == self.page_ppn(
                    v - start,
                ));
            }
            assert forall|q: u64| !(page_table.owns(q) && self.owns(q)) by {
                if self.owns(q) {
                    let k = choose|k: int|
                        0 <= k < self.frame_count() && #[trigger] self.area_frame(k) == q;
                    assert(self.data_frames@[k].ppn.0 == q);
                    assert(in_prefix(self.data_frames@, q));
                }
            }
            assert forall|p: u64|
                pre_mem.in_range(p) && !self.owns(p) implies #[trigger] final(mem).spec_frame(p)
                == pre_mem.spec_frame(p) by {
                if in_prefix(self.data_frames@, p) {
                    let k = choose|k: int|
                        0 <= k < self.data_frames@.len() && #[trigger] self.data_frames@[k].ppn.0
                            == p;
                    assert(self.area_frame(k) == p);
                }
            }
        }
        Ok(())
    }
}

impl MapArea {
    /// Copies an image segment into the area's framed pages, front to
    /// back, one page-sized chunk at a time; bytes past the segment's
    /// length keep what the pages already held.
    pub fn load_data(&self, mem: &mut PhysMemory, data: &Vec<u8>)
        requires
            self.spec_type() == MapType::Framed,
            self.range_wf(),
            self.frame_count() == self.spec_end() - self.spec_start(),
            self.frames_distinct(),
            forall|i: int|
                0 <= i < self.frame_count() ==> old(mem).is_bytes(#[trigger] self.area_frame(i)),
            old(mem).wf(),
            data@.len() <= (self.spec_end() - self.spec_start()) * 4096,
        ensures
            final(mem).wf(),
            final(mem).spec_base() == old(mem).spec_base(),
            final(mem).spec_len() == old(mem).spec_len(),
            forall|p: u64|
                old(mem).in_range(p) && !self.owns(p) ==> #[trigger] final(mem).spec_frame(p)
                    == old(mem).spec_frame(p),
            forall|k: int|
                0 <= k < self.frame_count() ==> #[trigger] final(mem).is_bytes(
                    self.area_frame(k),
                ),
            forall|k: int, j: int|
                0 <= k < self.frame_count() && 0 <= j < 4096 ==> #[trigger] final(mem).page(
                    self.area_frame(k),
                )[j] == if k * 4096 + j < data@.len() {
                    data@[k * 4096 + j]
                } else {
                    old(mem).page(self.area_frame(k))[j]
                },
    {
        let ghost pre_mem = *old(mem);
        let count = self.vpn_end - self.vpn_start;
        let mut k: u64 = 0;
        while k < count
            invariant
                pre_mem == *old(mem),
                self.spec_type() == MapType::Framed,
                self.range_wf(),
                self.frame_count() == count,
                count == self.spec_end() - self.spec_start(),
                self.frames_distinct(),
                0 <= k <= count,
                mem.wf(),
                mem.spec_base() == pre_mem.spec_base(),
                mem.spec_len() == pre_mem.spec_len(),
                data@.len() <= count * 4096,
                forall|i: int|
                    0 <= i < self.frame_count() ==> pre_mem.is_bytes(#[trigger] self.area_frame(i)),
                forall|p: u64|
                    pre_mem.in_range(p) && !self.owns(p) ==> #[trigger] mem.spec_frame(p)
                        == pre_mem.spec_frame(p),
                forall|i: int|
                    k <= i < count ==> #[trigger] mem.spec_frame(self.area_frame(i))
                        == pre_mem.spec_frame(self.area_frame(i)),
                forall|i: int| 0 <= i < k ==> #[trigger] mem.is_bytes(self.area_frame(i)),
                forall|i: int, j: int|
                    0 <= i < k && 0 <= j < 4096 ==> #[trigger] mem.page(self.area_frame(i))[j]
                        == if i * 4096 + j < data@.len() {
                        data@[i * 4096 + j]
                    } else {
                        pre_mem.page(self.area_frame(i))[j]
                    },
            decreases count - k,
        {
            proof {
                assert(k * 4096 <= count * 4096) by (nonlinear_arith)
                    requires
                        0 <= k <= count,
                ;
                assert(count * 4096 <= 0x8000000 * 4096) by (nonlinear_arith)
                    requires
                        count <= 0x8000000,
                ;
            }
            let lo: u64 = k * 4096;
            let len = data.len() as u64;
            let chunk_len: u64 = if len > lo {
                if len - lo > 4096 {
                    4096
                } else {
                    len - lo
                }
            } else {
                0
            };
            let mut chunk: Vec<u8> = Vec::new();
            let mut j: u64 = 0;
            while j < chunk_len
                invariant
                    0 <= j <= chunk_len,
                    chunk_len == 0 || lo + chunk_len <= data@.len(),
                    lo <= 0x8000000000,
                    len == data@.len(),
                    len <= usize::MAX,
                    chunk_len <= 4096,
                    chunk@.len() == j,
                    forall|t: int| 0 <= t < j ==> #[trigger] chunk@[t] == data@[lo + t],
                decreases chunk_len - j,
            {
                chunk.push(data[(lo + j) as usize]);
                j = j + 1;
            }
            let ppn = PhysPageNum(self.data_frames[k as usize].ppn.0);
            proof {
                assert(ppn.0 == self.area_frame(k as int));
                assert(mem.spec_frame(ppn.0) == pre_mem.spec_frame(ppn.0));
                assert(mem.is_bytes(ppn.0)) by {
                    assert(pre_mem.is_bytes(self.area_frame(k as int)));
                }
            }
            let ghost mem_before = *mem;
            mem.write_range(ppn, 0, &chunk);
            proof {
                assert forall|p: u64|
                    pre_mem.in_range(p) && !self.owns(p) implies #[trigger] mem.spec_frame(p)
                    == pre_mem.spec_frame(p) by {
                    assert(p != ppn.0) by {
                        if p == ppn.0 {
                            assert(self.area_frame(k as int) == p);
                        }
                    }
                }
                assert forall|i: int|
                    k + 1 <= i < count implies #[trigger] mem.spec_frame(self.area_frame(i))
                    == pre_mem.spec_frame(self.area_frame(i)) by {
                    assert(self.area_frame(i) != ppn.0);
                }
                assert(mem_before.page(ppn.0) == pre_mem.page(ppn.0));
                assert(mem.page(ppn.0) =~= chunk@ + mem_before.page(ppn.0).subrange(
                    chunk@.len() as int,
                    4096,
                )) by {
                    assert(mem.page(ppn.0) == mem_before.page(ppn.0).subrange(0, 0) + chunk@
                        + mem_before.page(ppn.0).subrange(0 + chunk@.len() as int, 4096));
                }
                assert forall|i: int| 0 <= i < k + 1 implies #[trigger] mem.is_bytes(
                    self.area_frame(i),
                ) by {
                    if i < k {
                        assert(self.area_frame(i) != ppn.0);
                        assert(mem.spec_frame(self.area_frame(i)) == mem_before.spec_frame(
                            self.area_frame(i),
                        ));
                        assert(mem_before.is_bytes(self.area_frame(i)));
                    } else {
                        assert(self.area_frame(i) == ppn.0);
                    }
                }
                assert forall|i: int, j2: int|
                    0 <= i < k + 1 && 0 <= j2 < 4096 implies #[trigger] mem.page(
                    self.area_frame(i),
                )[j2] == if i * 4096 + j2 < data@.len() {
                    data@[i * 4096 + j2]
                } else {
                    pre_mem.page(self.area_frame(i))[j2]
                } by {
                    if i < k {
                        assert(self.area_frame(i) != ppn.0);
                        assert(mem.spec_frame(self.area_frame(i)) == mem_before.spec_frame(
                            self.area_frame(i),
                        ));
                        assert(mem_before.page(self.area_frame(i))[j2] == if i * 4096 + j2
                            < data@.len() {
                            data@[i * 4096 + j2]
                        } else {
                            pre_mem.page(self.area_frame(i))[j2]
                        });
                    } else {
                        assert(self.area_frame(i) == ppn.0);
                        assert(i * 4096 + j2 == lo + j2);
                        if j2 < chunk_len {
                            assert(mem.page(ppn.0)[j2] == chunk@[j2]);
                            assert(chunk@[j2] == data@[lo + j2]);
                        } else {
                            assert(mem.page(ppn.0)[j2] == mem_before.page(ppn.0).subrange(
                                chunk@.len() as int,
                                4096,
                            )[j2 - chunk_len]);
                            assert(mem.page(ppn.0)[j2] == mem_before.page(ppn.0)[j2]);
                            assert(lo + j2 >= data@.len());
                        }
                    }
                }
            }
            k = k + 1;
        }
    }

    /// Unmaps every page of the area and hands its frames back to the
    /// allocator.  Fails on a page that is not mapped; pages unmapped
    /// before the failure stay unmapped and the frames stay owned.
    pub fn unmap(
        &mut self,
        page_table: &mut PageTable,
        allocator: &mut StackFrameAllocator,
    ) -> (r: Result<(), KernelError>)
        requires
            old(self).range_wf(),
            old(page_table).wf(),
            old(allocator).wf(),
            old(page_table).owned_live(*old(allocator)),
            old(self).frames_live(*old(allocator)),
            old(self).frames_distinct(),
            forall|q: u64| !(old(page_table).owns(q) && old(self).owns(q)),
        ensures
            final(page_table).wf(),
            final(allocator).wf(),
            final(page_table).owned_live(*final(allocator)),
            final(allocator).spec_start() == old(allocator).spec_start(),
            final(allocator).spec_end() == old(allocator).spec_end(),
            forall|v: u64|
                !(old(self).spec_start() <= v < old(self).spec_end()) ==> #[trigger] final(page_table).walk(v) == old(page_table).walk(v),
            r is Ok ==> {
                &&& forall|v: u64|
                    old(self).spec_start() <= v < old(self).spec_end() ==> #[trigger] final(page_table).walk(v) is None
                &&& final(self).frame_count() == 0
                &&& forall|q: u64|
                    final(allocator).live(q) == (old(allocator).live(q) && !old(self).owns(q))
            },
            r matches Err(e) ==> {
                &&& e == KernelError::NotMapped
                &&& exists|v: u64|
                    old(self).spec_start() <= v < old(self).spec_end() && (#[trigger] old(page_table).walk(v)) is None
                &&& StackFrameAllocator::state_eq(*old(allocator), *final(allocator))
            },
    {
        let ghost pre_pt = *old(page_table);
        let ghost pre_a = *old(allocator);
        let start = self.vpn_start;
        let end = self.vpn_end;
        let count = end - start;
        let mut i: u64 = 0;
        while i < count
            invariant
                *self == *old(self),
                pre_pt == *old(page_table),
                pre_a == *old(allocator),
                *allocator == *old(allocator),
                self.range_wf(),
                start == self.spec_start(),
                end == self.spec_end(),
                count == end - start,
                0 <= i <= count,
                page_table.wf(),
                allocator.wf(),
                page_table.owned_live(*allocator),
                forall|q: u64| #[trigger] page_table.owns(q) == pre_pt.owns(q),
                forall|v: u64| start <= v < start + i ==> #[trigger] page_table.walk(v) is None,
                forall|v: u64|
                    !(start <= v < start + i) ==> #[trigger] page_table.walk(v) == pre_pt.walk(v),
            decreases count - i,
        {
            let vpn = VirtPageNum(start + i);
            proof {
                assert(vpn.0 < VPN_LIMIT);
            }
            let ghost pt_before = *page_table;
            match page_table.unmap(vpn) {
                Ok(_) => {
                    proof {
                        assert forall|q: u64| #[trigger] page_table.owns(q) == pre_pt.owns(q) by {
                            assert(page_table.owns(q) == pt_before.owns(q));
                        }
                        assert forall|a2: StackFrameAllocator|
                            pt_before.owned_live(a2) implies page_table.owned_live(a2) by {}
                    }
                },
                Err(_) => {
                    proof {
                        assert(pt_before.walk(vpn.0) == pre_pt.walk(vpn.0));
                        assert(pre_pt.walk(vpn.0) is None);
                        assert(start <= vpn.0 < end);
                        assert forall|v: u64|
                            !(start <= v < end) implies #[trigger] page_table.walk(v)
                            == pre_pt.walk(v) by {}
                    }
                    return Err(KernelError::NotMapped);
                },
            }
            i = i + 1;
        }
        let mut frames: Vec<FrameTracker> = Vec::new();
        core::mem::swap(&mut frames, &mut self.data_frames);
        let ghost fs = frames@;
        proof {
            assert(fs == old(self).frames_seq());
            assert forall|i2: int|
                0 <= i2 < fs.len() implies allocator.live(#[trigger] fs[i2].ppn.0) by {
                assert(old(self).area_frame(i2) == fs[i2].ppn.0);
                assert(pre_a.live(old(self).area_frame(i2)));
            }
            assert forall|i2: int, j2: int|
                0 <= i2 < j2 < fs.len() implies #[trigger] fs[i2].ppn.0 != #[trigger] fs[j2].ppn.0 by {
                assert(old(self).area_frame(i2) == fs[i2].ppn.0);
                assert(old(self).area_frame(j2) == fs[j2].ppn.0);
            }
        }
        let ghost a_before_free = *allocator;
        crate::frame_allocator::free_frames(frames, allocator);
        proof {
            assert forall|q: u64|
                final(allocator).live(q) == (pre_a.live(q) && !old(self).owns(q)) by {
                assert(crate::frame_allocator::tracker_suffix_holds(fs, 0, q) == old(self).owns(
                    q,
                )) by {
                    if crate::frame_allocator::tracker_suffix_holds(fs, 0, q) {
                        let j = choose|j: int| 0 <= j < fs.len() && #[trigger] fs[j].ppn.0 == q;
                        assert(old(self).area_frame(j) == q);
                    }
                    if old(self).owns(q) {
                        let j = choose|j: int|
                            0 <= j < old(self).frame_count() && #[trigger] old(self).area_frame(j)
                                == q;
                        assert(fs[j].ppn.0 == q);
                    }
                }
            }
            assert forall|q: u64|
                page_table.owns(q) implies final(allocator).live(q) == a_before_free.live(q) by {
                assert(!old(self).owns(q));
            }
            lemma_owned_live_mono(*page_table, a_before_free, *final(allocator));
        }
        Ok(())
    }
}

/// One address space: a page table plus the ordered, non-overlapping
/// areas mapped through it.
pub struct MemorySet {
    page_table: PageTable,
    areas: Vec<MapArea>,
}

impl MemorySet {
    /// The page table of this address space.
    pub closed spec fn pt(self) -> PageTable {
        self.page_table
    }

    /// Number of areas pushed so far.
    pub closed spec fn num_areas(self) -> int {
        self.areas@.len() as int
    }

    /// The `k`-th area.
    pub closed spec fn area(self, k: int) -> MapArea {
        self.areas@[k]
    }

    /// What virtual page `v` translates to.
    pub open spec fn translate(self, v: u64) -> Option<PageTableEntry> {
        self.pt().walk(v)
    }

    /// The address space owns frame `q`, through its table or one of its
    /// areas.
    pub open spec fn owns(self, q: u64) -> bool {
        self.pt().owns(q) || exists|k: int|
            0 <= k < self.num_areas() && (#[trigger] self.area(k)).owns(q)
    }

    /// Frame accounting: the table is well-formed, every owned frame is
    /// live, and no frame is owned twice.
    pub open spec fn wf_frames(self, a: StackFrameAllocator) -> bool {
        &&& self.pt().wf()
        &&& self.pt().owned_live(a)
        &&& forall|k: int|
            0 <= k < self.num_areas() ==> (#[trigger] self.area(k)).frames_live(a)
        &&& forall|k: int|
            0 <= k < self.num_areas() ==> (#[trigger] self.area(k)).frames_distinct()
        &&& forall|k: int, q: u64|
            0 <= k < self.num_areas() ==> !(#[trigger] self.area(k).owns(q) && self.pt().owns(q))
        &&& forall|k: int, l: int, q: u64|
            0 <= k < l < self.num_areas() ==> !(#[trigger] self.area(k).owns(q)
                && #[trigger] self.area(l).owns(q))
    }

    /// Builds an empty address space over a fresh root frame.
    pub fn new_bare(allocator: &mut StackFrameAllocator) -> (r: Result<MemorySet, KernelError>)
        requires
            old(allocator).wf(),
        ensures
            final(allocator).wf(),
            final(allocator).spec_start() == old(allocator).spec_start(),
            final(allocator).spec_end() == old(allocator).spec_end(),
            r matches Err(e) ==> e == KernelError::FrameExhausted && old(allocator).exhausted()
                && StackFrameAllocator::state_eq(*old(allocator), *final(allocator)),
            r matches Ok(ms) ==> {
                &&& ms.wf_frames(*final(allocator))
                &&& final(allocator).free_count() == old(allocator).free_count() - 1
                &&& ms.num_areas() == 0
                &&& forall|v: u64| ms.translate(v) is None
                &&& forall|q: u64| #[trigger] ms.owns(q) ==> q == ms.pt().spec_root()
                &&& ms.owns(ms.pt().spec_root())
                &&& !old(allocator).live(ms.pt().spec_root())
                &&& final(allocator).live(ms.pt().spec_root())
                &&& forall|q: u64|
                    q != ms.pt().spec_root() ==> final(allocator).live(q) == old(allocator).live(
                        q,
                    )
            },
            !old(allocator).exhausted() ==> r is Ok,
    {
        match PageTable::new(allocator) {
            Err(e) => Err(e),
            Ok(pt) => {
                let ms = MemorySet { page_table: pt, areas: Vec::new() };
                proof {
                    assert forall|q: u64| #[trigger] ms.owns(q) implies q
                        == ms.pt().spec_root() by {
                        if ms.owns(q) && !ms.pt().owns(q) {
                            let k = choose|k: int|
                                0 <= k < ms.num_areas() && (#[trigger] ms.area(k)).owns(q);
                        }
                    }
                    assert(ms.pt().owns(ms.pt().spec_root()));
                    assert(ms.owns(ms.pt().spec_root()));
                }
                Ok(ms)
            },
        }
    }

    /// Borrows the page table, for read-only walks of this space.
    pub fn page_table_ref(&self) -> (r: &PageTable)
        ensures
            *r == self.pt(),
    {
        &self.page_table
    }

    /// The SV39 token that activates this address space.
    pub fn token(&self) -> (r: u64)
        requires
            self.pt().wf(),
        ensures
            r == 0x8000_0000_0000_0000u64 + self.pt().spec_root(),
    {
        self.page_table.token()
    }

    /// The leaf entry mapped for `vpn`, failing where none is mapped.
    pub fn get_pte(&self, vpn: VirtPageNum) -> (r: Result<PageTableEntry, KernelError>)
        requires
            self.pt().wf(),
            vpn.0 < VPN_LIMIT,
        ensures
            r matches Ok(e) ==> self.translate(vpn.0) == Some(e),
            r matches Err(e) ==> e == KernelError::NotMapped && self.translate(vpn.0) is None,
    {
        self.page_table.find_pte(vpn)
    }

    /// Maps `map_area` into this space and records it, copying `data`
    /// into its pages when given.  On failure the partially mapped area
    /// is still recorded, so its frames stay accounted for.
    pub fn push(
        &mut self,
        map_area: MapArea,
        data: Option<&Vec<u8>>,
        allocator: &mut StackFrameAllocator,
        mem: &mut PhysMemory,
    ) -> (r: Result<(), KernelError>)
        requires
            map_area.range_wf(),
            map_area.frame_count() == 0,
            old(self).wf_frames(*old(allocator)),
            old(allocator).wf(),
            old(mem).wf(),
            old(allocator).spec_start() >= old(mem).spec_base(),
            old(allocator).spec_end() <= old(mem).spec_base() + old(mem).spec_len(),
            data matches Some(d) ==> map_area.spec_type() == MapType::Framed && d@.len() <= (
            map_area.spec_end() - map_area.spec_start()) * 4096,
        ensures
            final(self).wf_frames(*final(allocator)),
            final(allocator).wf(),
            final(mem).wf(),
            final(allocator).spec_start() == old(allocator).spec_start(),
            final(allocator).spec_end() == old(allocator).spec_end(),
            final(allocator).free_count() >= old(allocator).free_count() - 3 * (
            map_area.spec_end() - map_area.spec_start()),
            final(mem).spec_base() == old(mem).spec_base(),
            final(mem).spec_len() == old(mem).spec_len(),
            final(self).num_areas() == old(self).num_areas() + 1,
            forall|k: int| 0 <= k < old(self).num_areas() ==> final(self).area(k) == old(self).area(k),
            final(self).area(old(self).num_areas()).spec_start() == map_area.spec_start(),
            final(self).area(old(self).num_areas()).spec_end() == map_area.spec_end(),
            final(self).area(old(self).num_areas()).spec_type() == map_area.spec_type(),
            final(self).area(old(self).num_areas()).spec_perm() == map_area.spec_perm(),
            forall|q: u64| old(allocator).live(q) ==> final(allocator).live(q),
            forall|q: u64|
                final(allocator).live(q) && !old(allocator).live(q) ==> final(self).owns(q),
            forall|q: u64| old(self).owns(q) ==> final(self).owns(q),
            forall|q: u64|
                final(self).owns(q) && !old(self).owns(q) ==> !old(allocator).live(q) && final(allocator).live(q),
            forall|p: u64|
                old(mem).in_range(p) && !final(self).area(old(self).num_areas()).owns(p)
                    ==> #[trigger] final(mem).spec_frame(p) == old(mem).spec_frame(p),
            forall|p: u64|
                old(mem).in_range(p) && old(allocator).live(p) ==> #[trigger] final(mem).spec_frame(p) == old(mem).spec_frame(p),
            forall|v: u64|
                !(map_area.spec_start() <= v < map_area.spec_end()) ==> #[trigger] final(self).translate(v)
                    == old(self).translate(v),
            r is Ok ==> {
                &&& forall|v: u64|
                    map_area.spec_start() <= v < map_area.spec_end() ==> (#[trigger] final(self).translate(v))
                        is Some && final(self).translate(v)->Some_0.spec_flags()
                        == map_area.leaf_flags() && final(self).translate(v)->Some_0.spec_ppn()
                        == final(self).area(old(self).num_areas()).page_ppn(
                        v - map_area.spec_start(),
                    )
                &&& forall|v: u64|
                    map_area.spec_start() <= v < map_area.spec_end() ==> (#[trigger] old(self).translate(v))
                        is None
                &&& map_area.spec_type() == MapType::Framed ==> {
                    &&& final(self).area(old(self).num_areas()).frame_count() == map_area.spec_end()
                        - map_area.spec_start()
                    &&& forall|i: int, j: int|
                        0 <= i < map_area.spec_end() - map_area.spec_start() && 0 <= j < 4096
                            ==> final(mem).is_bytes(
                            final(self).area(old(self).num_areas()).area_frame(i),
                        ) && #[trigger] final(mem).page(
                            final(self).area(old(self).num_areas()).area_frame(i),
                        )[j] == (match data {
                            Some(d) => if i * 4096 + j < d@.len() {
                                d@[i * 4096 + j]
                            } else {
                                0u8
                            },
                            None => 0u8,
                        })
                }
            },
            r matches Err(e) ==> e == KernelError::AlreadyMapped || e
                == KernelError::FrameExhausted,
            r == Err::<(), KernelError>(KernelError::AlreadyMapped) ==> exists|v: u64|
                map_area.spec_start() <= v < map_area.spec_end() && (#[trigger] old(self).translate(v))
                    is Some,
            r == Err::<(), KernelError>(KernelError::FrameExhausted) ==> final(allocator).exhausted(),
            (forall|v: u64|
                map_area.spec_start() <= v < map_area.spec_end() ==> (#[trigger] old(self).translate(v))
                    is None) && old(allocator).free_count() >= 3 * (map_area.spec_end()
                - map_area.spec_start()) ==> r is Ok,
    {
        let ghost pre = *old(self);
        let ghost pre_a = *old(allocator);
        let ghost pre_mem = *old(mem);
        let mut area = map_area;
        let map_result = area.map(&mut self.page_table, allocator, mem);
        let ghost mid_mem = *mem;
        let ghost area_mid = area;
        let mut load_ok = true;
        match map_result {
            Ok(_) => {
                match data {
                    Some(d) => {
                        area.load_data(mem, d);
                    },
                    None => {},
                }
            },
            Err(_) => {
                load_ok = false;
            },
        }
        let ghost new_k = self.areas@.len() as int;
        self.areas.push(area);
        proof {
            let post = *self;
            assert(pre.pt() == pre.page_table);
            assert(post.pt() == post.page_table);
            assert(post.area(new_k) == area);
            assert forall|k: int| 0 <= k < new_k implies post.area(k) == pre.area(k) by {}
            // each old area's frames are untouched in memory
            assert forall|q: u64| pre.owns(q) implies post.owns(q) by {
                if !pre.pt().owns(q) {
                    let k = choose|k: int|
                        0 <= k < pre.num_areas() && (#[trigger] pre.area(k)).owns(q);
                    assert((post.area(k)).owns(q));
                }
            }
            // frame accounting
            assert forall|k: int|
                0 <= k < post.num_areas() implies (#[trigger] post.area(k)).frames_live(
                *final(allocator),
            ) by {
                if k < new_k {
                    assert(pre.area(k).frames_live(pre_a));
                    assert forall|i: int|
                        0 <= i < post.area(k).frame_count() implies final(allocator).live(
                        #[trigger] post.area(k).area_frame(i),
                    ) by {
                        assert(pre_a.live(pre.area(k).area_frame(i)));
                    }
                }
            }
            assert forall|k: int|
                0 <= k < post.num_areas() implies (#[trigger] post.area(k)).frames_distinct() by {
                if k < new_k {
                    assert(pre.area(k).frames_distinct());
                }
            }
            assert forall|k: int, q: u64|
                0 <= k < post.num_areas() implies !(#[trigger] post.area(k).owns(q)
                && post.pt().owns(q)) by {
                if k < new_k {
                    if post.area(k).owns(q) && post.pt().owns(q) {
                        assert(pre.area(k).owns(q));
                        if pre.pt().owns(q) {
                            assert(false);
                        } else {
                            assert(!pre_a.live(q));
                            let i = choose|i: int|
                                0 <= i < pre.area(k).frame_count()
                                    && #[trigger] pre.area(k).area_frame(i) == q;
                            assert(pre_a.live(pre.area(k).area_frame(i)));
                        }
                    }
                }
            }
            assert forall|k: int, l: int, q: u64|
                0 <= k < l < post.num_areas() implies !(#[trigger] post.area(k).owns(q)
                && #[trigger] post.area(l).owns(q)) by {
                if l < new_k {
                    if post.area(k).owns(q) && post.area(l).owns(q) {
                        assert(pre.area(k).owns(q) && pre.area(l).owns(q));
                    }
                } else if l == new_k && k < new_k {
                    if post.area(k).owns(q) && post.area(l).owns(q) {
                        assert(pre.area(k).owns(q));
                        let i = choose|i: int|
                            0 <= i < area.frame_count() && #[trigger] area.area_frame(i) == q;
                        assert(!pre_a.live(area.area_frame(i)));
                        let i2 = choose|i2: int|
                            0 <= i2 < pre.area(k).frame_count()
                                && #[trigger] pre.area(k).area_frame(i2) == q;
                        assert(pre_a.live(pre.area(k).area_frame(i2)));
                    }
                }
            }
            assert forall|q: u64|
                final(allocator).live(q) && !pre_a.live(q) implies post.owns(q) by {
                if final(allocator).live(q) && !pre_a.live(q) {
                    assert(post.pt().owns(q) || area.owns(q));
                    if area.owns(q) {
                        assert(post.area(new_k).owns(q));
                    }
                }
            }
            // memory preservation for frames outside the new area
            assert forall|p: u64|
                pre_mem.in_range(p) && !post.area(new_k).owns(p) implies #[trigger] final(mem).spec_frame(p)
                == pre_mem.spec_frame(p) by {
                assert(!area.owns(p));
                assert(mid_mem.spec_frame(p) == pre_mem.spec_frame(p));
            }
            assert forall|q: u64|
                post.owns(q) && !pre.owns(q) implies !pre_a.live(q) && final(allocator).live(
                q,
            ) by {
                if post.pt().owns(q) && !pre.pt().owns(q) {
                    assert(!pre_a.live(q));
                    lemma_owns_live(post.pt(), *final(allocator), q);
                } else {
                    if post.owns(q) && !post.pt().owns(q) {
                        let k = choose|k: int|
                            0 <= k < post.num_areas() && (#[trigger] post.area(k)).owns(q);
                        if k < new_k {
                            assert(pre.area(k).owns(q));
                            assert(pre.owns(q));
                        } else {
                            assert(area.owns(q));
                            let i = choose|i: int|
                                0 <= i < area.frame_count() && #[trigger] area.area_frame(i) == q;
                            assert(!pre_a.live(area.area_frame(i)));
                            assert(final(allocator).live(area.area_frame(i)));
                        }
                    }
                }
            }
            assert forall|p: u64|
                pre_mem.in_range(p) && pre_a.live(p) implies #[trigger] final(mem).spec_frame(p)
                == pre_mem.spec_frame(p) by {
                assert(!post.area(new_k).owns(p)) by {
                    if post.area(new_k).owns(p) {
                        assert(area.owns(p));
                        let i = choose|i: int|
                            0 <= i < area.frame_count() && #[trigger] area.area_frame(i) == p;
                    }
                }
            }
        }
        match map_result {
            Ok(_) => Ok(()),
            Err(e) => {
                proof {
                    if e == KernelError::AlreadyMapped {
                        let v = choose|v: u64|
                            map_area.spec_start() <= v < map_area.spec_end() && (
                            #[trigger] pre.page_table.walk(v)) is Some;
                        assert(map_area.spec_start() <= v < map_area.spec_end() && pre.translate(
                            v,
                        ) is Some);
                    }
                    if (forall|v: u64|
                        map_area.spec_start() <= v < map_area.spec_end() ==> (#[trigger] pre.translate(v))
                            is None) && pre_a.free_count() >= 3 * (map_area.spec_end()
                        - map_area.spec_start()) {
                        assert forall|v: u64|
                            map_area.spec_start() <= v < map_area.spec_end() implies (
                            #[trigger] pre.page_table.walk(v)) is None by {
                            assert(pre.translate(v) is None);
                        }
                        assert(false);
                    }
                }
                Err(e)
            },
        }
    }
}

/// The identity-mapped sections of the kernel image, as the linker laid
/// them out, plus the end of usable physical memory.
pub struct KernelLayout {
    pub text_start: u64,
    pub text_end: u64,
    pub rodata_start: u64,
    pub rodata_end: u64,
    pub data_start: u64,
    pub data_end: u64,
    pub bss_start: u64,
    pub bss_end: u64,
    pub kernel_end: u64,
    pub memory_end: u64,
    /// Physical address of the trampoline code page, inside the text
    /// section.
    pub trampoline: u64,
}

impl KernelLayout {
    /// Page number of the first page at or above `a`.
    pub open spec fn pceil(a: u64) -> int {
        (a + 4095) / 4096
    }

    /// Page number of the page holding `a`.
    pub open spec fn pfloor(a: u64) -> int {
        a as int / 4096
    }

    /// Sections are ordered, page-disjoint and within the virtual width.
    pub open spec fn wf(self) -> bool {
        &&& self.text_start <= self.text_end
        &&& self.rodata_start <= self.rodata_end
        &&& self.data_start <= self.data_end
        &&& self.bss_start <= self.bss_end
        &&& self.kernel_end <= self.memory_end
        &&& self.memory_end < crate::address::VA_LIMIT
        &&& Self::pceil(self.text_end) <= Self::pfloor(self.rodata_start)
        &&& Self::pceil(self.rodata_end) <= Self::pfloor(self.data_start)
        &&& Self::pceil(self.data_end) <= Self::pfloor(self.bss_start)
        &&& Self::pceil(self.bss_end) <= Self::pfloor(self.kernel_end)
        &&& Self::pceil(self.memory_end) + (crate::config::MAX_APP_NUM + 1) * 0x2001
            <= VPN_LIMIT
        &&& self.text_start <= self.trampoline < self.text_end
    }
}

impl MemorySet {
    /// Adds one task's kernel stack — a framed, kernel-only,
    /// read-write area — to this (kernel) address space.
    pub fn push_kernel_stack_for_app(
        &mut self,
        start: VirtAddr,
        end: VirtAddr,
        permission: MapPermission,
        allocator: &mut StackFrameAllocator,
        mem: &mut PhysMemory,
    ) -> (r: Result<(), KernelError>)
        requires
            start.0 <= end.0,
            end.wf(),
            old(self).wf_frames(*old(allocator)),
            old(allocator).wf(),
            old(mem).wf(),
            old(allocator).spec_start() >= old(mem).spec_base(),
            old(allocator).spec_end() <= old(mem).spec_base() + old(mem).spec_len(),
        ensures
            final(self).wf_frames(*final(allocator)),
            final(allocator).wf(),
            final(mem).wf(),
            final(allocator).spec_start() == old(allocator).spec_start(),
            final(allocator).spec_end() == old(allocator).spec_end(),
            final(mem).spec_base() == old(mem).spec_base(),
            final(mem).spec_len() == old(mem).spec_len(),
            forall|q: u64| old(allocator).live(q) ==> final(allocator).live(q),
            forall|q: u64|
                final(allocator).live(q) && !old(allocator).live(q) ==> final(self).owns(q),
            forall|q: u64| old(self).owns(q) ==> final(self).owns(q),
            forall|q: u64|
                final(self).owns(q) && !old(self).owns(q) ==> !old(allocator).live(q) && final(allocator).live(q),
            forall|p: u64|
                old(mem).in_range(p) && old(allocator).live(p) ==> #[trigger] final(mem).spec_frame(p)
                    == old(mem).spec_frame(p),
            forall|v: u64|
                !(start.0 / 4096 <= v < (end.0 + 4095) / 4096) ==> #[trigger] final(self).translate(v)
                    == old(self).translate(v),
            r is Ok ==> forall|v: u64|
                start.0 / 4096 <= v < (end.0 + 4095) / 4096 ==> (#[trigger] final(self).translate(
                    v,
                )) is Some && final(self).translate(v)->Some_0.spec_flags() == 2 * (
                permission.bits / 2) + 1,
            r matches Err(e) ==> e == KernelError::AlreadyMapped || e
                == KernelError::FrameExhausted,
            forall|q: u64|
                final(self).owns(q) && !old(self).owns(q) ==> !old(allocator).live(q),
            final(allocator).free_count() >= old(allocator).free_count() - 3 * ((end.0 + 4095)
                / 4096 - start.0 / 4096),
            (forall|v: u64|
                start.0 / 4096 <= v < (end.0 + 4095) / 4096 ==> (#[trigger] old(self).translate(
                    v,
                )) is None) && old(allocator).free_count() >= 3 * ((end.0 + 4095) / 4096 - start.0
                / 4096) ==> r is Ok,
    {
        let area = MapArea::new(start, end, MapType::Framed, permission);
        self.push(area, None, allocator, mem)
    }

    /// Maps the trampoline page — the highest virtual page — onto the
    /// physical page holding the trampoline code, readable and
    /// executable, identically placed in every address space.
    pub fn map_trampoline(
        &mut self,
        strampoline: crate::address::PhysAddr,
        allocator: &mut StackFrameAllocator,
    ) -> (r: Result<(), KernelError>)
        requires
            old(self).wf_frames(*old(allocator)),
            old(allocator).wf(),
            strampoline.wf(),
        ensures
            final(self).wf_frames(*final(allocator)),
            final(allocator).wf(),
            final(allocator).spec_start() == old(allocator).spec_start(),
            final(allocator).spec_end() == old(allocator).spec_end(),
            forall|q: u64| old(allocator).live(q) ==> final(allocator).live(q),
            forall|q: u64| old(self).owns(q) ==> final(self).owns(q),
            forall|q: u64|
                final(allocator).live(q) && !old(allocator).live(q) ==> final(self).owns(q),
            forall|v: u64|
                v != VPN_LIMIT - 1 ==> #[trigger] final(self).translate(v) == old(self).translate(
                    v,
                ),
            r is Ok ==> (final(self).translate((VPN_LIMIT - 1) as u64) matches Some(e)
                && e.spec_ppn() == strampoline.0 / 4096 && e.spec_flags() == 11),
            r matches Err(e) ==> e == KernelError::AlreadyMapped || e
                == KernelError::FrameExhausted,
            r == Err::<(), KernelError>(KernelError::AlreadyMapped) <==> old(self).translate(
                (VPN_LIMIT - 1) as u64,
            ) is Some,
            forall|q: u64|
                final(self).owns(q) && !old(self).owns(q) ==> !old(allocator).live(q) && final(allocator).live(q),
            final(allocator).free_count() >= old(allocator).free_count() - 2,
            old(self).translate((VPN_LIMIT - 1) as u64) is None && old(allocator).free_count()
                >= 2 ==> r is Ok,
    {
        let ghost pre = *old(self);
        let vpn = VirtAddr::new(crate::config::TRAMPOLINE).floor();
        let ppn = strampoline.floor();
        proof {
            assert(vpn.0 == VPN_LIMIT - 1);
            vstd::arithmetic::div_mod::lemma_div_is_ordered(
                strampoline.0 as int,
                0xFF_FFFF_FFFF_FFFF,
                4096,
            );
            assert(ppn.0 < PPN_LIMIT);
        }
        let flags = PTEFlags::from_bits(crate::page_table::PTE_R + crate::page_table::PTE_X);
        let r = self.page_table.map(allocator, vpn, ppn, flags);
        proof {
            let post = *self;
            assert(pre.pt() == pre.page_table);
            assert(post.pt() == post.page_table);
            assert(post.areas@ == pre.areas@);
            assert forall|k: int| 0 <= k < post.num_areas() implies (#[trigger] post.area(
                k,
            )).frames_live(*final(allocator)) by {
                assert(pre.area(k).frames_live(*old(allocator)));
                assert forall|i: int|
                    0 <= i < post.area(k).frame_count() implies final(allocator).live(
                    #[trigger] post.area(k).area_frame(i),
                ) by {
                    assert(old(allocator).live(pre.area(k).area_frame(i)));
                }
            }
            assert forall|k: int, q: u64|
                0 <= k < post.num_areas() implies !(#[trigger] post.area(k).owns(q)
                && post.pt().owns(q)) by {
                if post.area(k).owns(q) && post.pt().owns(q) {
                    assert(pre.area(k).owns(q));
                    if !pre.pt().owns(q) {
                        assert(!old(allocator).live(q));
                        let i = choose|i: int|
                            0 <= i < pre.area(k).frame_count() && #[trigger] pre.area(
                                k,
                            ).area_frame(i) == q;
                        assert(old(allocator).live(pre.area(k).area_frame(i)));
                    }
                }
            }
            assert forall|k: int|
                0 <= k < post.num_areas() implies (#[trigger] post.area(k)).frames_distinct() by {
                assert(pre.area(k).frames_distinct());
            }
            assert forall|k: int, l: int, q: u64|
                0 <= k < l < post.num_areas() implies !(#[trigger] post.area(k).owns(q)
                && #[trigger] post.area(l).owns(q)) by {
                if post.area(k).owns(q) && post.area(l).owns(q) {
                    assert(pre.area(k).owns(q) && pre.area(l).owns(q));
                }
            }
            assert forall|q: u64|
                final(allocator).live(q) && !old(allocator).live(q) implies final(self).owns(
                q,
            ) by {
                assert(post.pt().owns(q));
            }
            assert forall|q: u64| pre.owns(q) implies post.owns(q) by {
                if !pre.pt().owns(q) {
                    let k = choose|k: int|
                        0 <= k < pre.num_areas() && (#[trigger] pre.area(k)).owns(q);
                    assert(post.area(k).owns(q));
                }
            }
            assert forall|q: u64|
                post.owns(q) && !pre.owns(q) implies !old(allocator).live(q) && final(allocator).live(q) by {
                if post.owns(q) && !post.pt().owns(q) {
                    let k = choose|k: int|
                        0 <= k < post.num_areas() && (#[trigger] post.area(k)).owns(q);
                    assert(pre.area(k).owns(q));
                    assert(pre.owns(q));
                }
                if post.pt().owns(q) {
                    lemma_owns_live(post.pt(), *final(allocator), q);
                }
            }
            if r is Ok {
                assert(post.translate((VPN_LIMIT - 1) as u64) is Some);
                assert(post.translate((VPN_LIMIT - 1) as u64)->Some_0.spec_flags() == 2 * (
                flags.bits / 2) + 1);
            }
        }
        r
    }

    /// Tears this address space down, returning every frame it owns —
    /// page-table nodes and framed pages alike — to the allocator.
    pub fn release(self, allocator: &mut StackFrameAllocator)
        requires
            self.wf_frames(*old(allocator)),
            old(allocator).wf(),
        ensures
            final(allocator).wf(),
            final(allocator).spec_start() == old(allocator).spec_start(),
            final(allocator).spec_end() == old(allocator).spec_end(),
            forall|q: u64|
                #[trigger] final(allocator).live(q) == (old(allocator).live(q) && !self.owns(
                    q,
                )),
    {
        let ghost pre = self;
        let ghost pre_a = *old(allocator);
        let ghost pt_val = self.page_table;
        let mut this = self;
        let mut page_table = PageTable::from_token(0);
        core::mem::swap(&mut page_table, &mut this.page_table);
        let mut areas: Vec<MapArea> = Vec::new();
        core::mem::swap(&mut areas, &mut this.areas);
        proof {
            assert(page_table == pt_val);
            assert(areas@ == pre.areas@);
        }
        page_table.release(allocator);
        proof {
            assert(allocator.wf());
            assert(allocator.spec_start() == pre_a.spec_start());
            assert(pre.pt() == pt_val);
            assert forall|q: u64| allocator.live(q) == (pre_a.live(q) && !pt_val.owns(
                q,
            )) by {
                assert(allocator.live(q) == (old(allocator).live(q) && !pt_val.owns(q)));
            }
        }
        let ghost total = areas@.len() as int;
        proof {
            assert forall|q: u64|
                allocator.live(q) == (pre_a.live(q) && !pre.pt().owns(q) && !areas_suffix_own(
                    pre,
                    total,
                    q,
                )) by {
                assert(allocator.live(q) == (pre_a.live(q) && !pt_val.owns(q)));
                assert(pre.pt().owns(q) == pt_val.owns(q));
                if areas_suffix_own(pre, total, q) {
                    let l = choose|l: int|
                        total <= l < pre.num_areas() && (#[trigger] pre.area(l)).owns(q);
                }
            }
        }
        loop
            invariant
                allocator.wf(),
                allocator.spec_start() == pre_a.spec_start(),
                allocator.spec_end() == pre_a.spec_end(),
                areas@.len() <= total,
                areas@ == pre.areas@.subrange(0, areas@.len() as int),
                total == pre.num_areas(),
                pre.wf_frames(pre_a),
                forall|q: u64|
                    allocator.live(q) == (pre_a.live(q) && !pre.pt().owns(q) && !areas_suffix_own(
                        pre,
                        areas@.len() as int,
                        q,
                    )),
            ensures
                allocator.wf(),
                allocator.spec_start() == pre_a.spec_start(),
                allocator.spec_end() == pre_a.spec_end(),
                forall|q: u64|
                    allocator.live(q) == (pre_a.live(q) && !pre.pt().owns(q) && !areas_suffix_own(
                        pre,
                        0,
                        q,
                    )),
            decreases areas@.len(),
        {
            let ghost k = areas@.len() as int;
            match areas.pop() {
                None => {
                    break;
                },
                Some(mut area) => {
                    proof {
                        assert(area == pre.area(k - 1));
                        assert(areas@ =~= pre.areas@.subrange(0, k - 1));
                    }
                    let mut frames: Vec<FrameTracker> = Vec::new();
                    core::mem::swap(&mut frames, &mut area.data_frames);
                    let ghost fs = frames@;
                    proof {
                        assert(fs == pre.area(k - 1).frames_seq());
                        assert(pre.area(k - 1).frames_live(pre_a));
                        assert(pre.area(k - 1).frames_distinct());
                        assert forall|i: int|
                            0 <= i < fs.len() implies allocator.live(#[trigger] fs[i].ppn.0) by {
                            assert(pre.area(k - 1).area_frame(i) == fs[i].ppn.0);
                            assert(pre.area(k - 1).owns(fs[i].ppn.0));
                            assert(pre_a.live(pre.area(k - 1).area_frame(i)));
                            assert(!pre.pt().owns(fs[i].ppn.0));
                            assert(!areas_suffix_own(pre, k, fs[i].ppn.0)) by {
                                if areas_suffix_own(pre, k, fs[i].ppn.0) {
                                    let l = choose|l: int|
                                        k <= l < pre.num_areas() && (#[trigger] pre.area(l)).owns(
                                            fs[i].ppn.0,
                                        );
                                }
                            }
                        }
                        assert forall|i: int, j: int|
                            0 <= i < j < fs.len() implies #[trigger] fs[i].ppn.0
                            != #[trigger] fs[j].ppn.0 by {
                            assert(pre.area(k - 1).area_frame(i) == fs[i].ppn.0);
                            assert(pre.area(k - 1).area_frame(j) == fs[j].ppn.0);
                        }
                    }
                    let ghost a_before = *allocator;
                    crate::frame_allocator::free_frames(frames, allocator);
                    proof {
                        assert forall|q: u64|
                            allocator.live(q) == (pre_a.live(q) && !pre.pt().owns(q)
                                && !areas_suffix_own(pre, k - 1, q)) by {
                            assert(crate::frame_allocator::tracker_suffix_holds(fs, 0, q)
                                == pre.area(k - 1).owns(q)) by {
                                if crate::frame_allocator::tracker_suffix_holds(fs, 0, q) {
                                    let j = choose|j: int|
                                        0 <= j < fs.len() && #[trigger] fs[j].ppn.0 == q;
                                    assert(pre.area(k - 1).area_frame(j) == q);
                                }
                                if pre.area(k - 1).owns(q) {
                                    let j = choose|j: int|
                                        0 <= j < pre.area(k - 1).frame_count()
                                            && #[trigger] pre.area(k - 1).area_frame(j) == q;
                                    assert(fs[j].ppn.0 == q);
                                }
                            }
                            assert(areas_suffix_own(pre, k - 1, q) == (areas_suffix_own(pre, k, q)
                                || pre.area(k - 1).owns(q))) by {
                                if areas_suffix_own(pre, k - 1, q) {
                                    let l = choose|l: int|
                                        k - 1 <= l < pre.num_areas() && (#[trigger] pre.area(
                                            l,
                                        )).owns(q);
                                    if l != k - 1 {
                                        assert(areas_suffix_own(pre, k, q));
                                    }
                                }
                                if areas_suffix_own(pre, k, q) {
                                    let l = choose|l: int|
                                        k <= l < pre.num_areas() && (#[trigger] pre.area(l)).owns(
                                            q,
                                        );
                                    assert(areas_suffix_own(pre, k - 1, q));
                                }
                            }
                        }
                    }
                },
            }
        }
        proof {
            assert forall|q: u64|
                final(allocator).live(q) == (pre_a.live(q) && !pre.owns(q)) by {
                assert(areas_suffix_own(pre, 0, q) == (exists|k: int|
                    0 <= k < pre.num_areas() && (#[trigger] pre.area(k)).owns(q)));
            }
        }
    }
}

/// Some area at or after position `k` owns page `q`.
pub open spec fn areas_suffix_own(ms: MemorySet, k: int, q: u64) -> bool {
    exists|l: int| k <= l < ms.num_areas() && (#[trigger] ms.area(l)).owns(q)
}

impl KernelLayout {
    /// Virtual page `v` falls in the kernel text section.
    pub open spec fn in_text(self, v: u64) -> bool {
        Self::pfloor(self.text_start) <= v < Self::pceil(self.text_end)
    }

    /// Virtual page `v` falls in the read-only data section.
    pub open spec fn in_rodata(self, v: u64) -> bool {
        Self::pfloor(self.rodata_start) <= v < Self::pceil(self.rodata_end)
    }

    /// Virtual page `v` falls in the writable data section.
    pub open spec fn in_data(self, v: u64) -> bool {
        Self::pfloor(self.data_start) <= v < Self::pceil(self.data_end)
    }

    /// Virtual page `v` falls in the zero-initialised section (stack
    /// included).
    pub open spec fn in_bss(self, v: u64) -> bool {
        Self::pfloor(self.bss_start) <= v < Self::pceil(self.bss_end)
    }

    /// Virtual page `v` falls in the free physical memory past the
    /// kernel image.
    pub open spec fn in_free(self, v: u64) -> bool {
        Self::pfloor(self.kernel_end) <= v < Self::pceil(self.memory_end)
    }
}

impl MemorySet {
    /// Builds the kernel's own address space: each linked section
    /// identity-mapped with the permissions its semantics call for —
    /// code executable but never writable, read-only data read-only,
    /// writable data and the zeroed section read-write — plus the
    /// remaining physical memory.
    #[verifier::rlimit(100)]
    pub fn new_kernel(
        layout: &KernelLayout,
        allocator: &mut StackFrameAllocator,
        mem: &mut PhysMemory,
    ) -> (r: Result<MemorySet, KernelError>)
        requires
            layout.wf(),
            old(allocator).wf(),
            old(mem).wf(),
            old(allocator).spec_start() >= old(mem).spec_base(),
            old(allocator).spec_end() <= old(mem).spec_base() + old(mem).spec_len(),
        ensures
            final(allocator).wf(),
            final(mem).wf(),
            final(allocator).spec_start() == old(allocator).spec_start(),
            final(allocator).spec_end() == old(allocator).spec_end(),
            final(mem).spec_base() == old(mem).spec_base(),
            final(mem).spec_len() == old(mem).spec_len(),
            forall|q: u64| old(allocator).live(q) ==> final(allocator).live(q),
            r is Err ==> forall|q: u64|
                final(allocator).live(q) == old(allocator).live(q),
            old(allocator).free_count() >= layout.page_budget() ==> r is Ok,
            r matches Ok(ms) ==> {
                &&& ms.wf_frames(*final(allocator))
                &&& final(allocator).free_count() >= old(allocator).free_count()
                    - layout.page_budget()
                &&& forall|q: u64|
                    ms.owns(q) ==> !old(allocator).live(q) && final(allocator).live(q)
                &&& forall|q: u64|
                    final(allocator).live(q) && !old(allocator).live(q) ==> ms.owns(q)
                &&& (ms.translate((VPN_LIMIT - 1) as u64) matches Some(e) && e.spec_ppn()
                    == layout.trampoline / 4096 && e.spec_flags() == 11)
                &&& forall|v: u64|
                    layout.in_text(v) ==> (#[trigger] ms.translate(v)) is Some && ms.translate(
                        v,
                    )->Some_0.spec_flags() == 11 && ms.translate(v)->Some_0.spec_ppn() == v
                &&& forall|v: u64|
                    layout.in_rodata(v) ==> (#[trigger] ms.translate(v)) is Some && ms.translate(
                        v,
                    )->Some_0.spec_flags() == 3 && ms.translate(v)->Some_0.spec_ppn() == v
                &&& forall|v: u64|
                    layout.in_data(v) ==> (#[trigger] ms.translate(v)) is Some && ms.translate(
                        v,
                    )->Some_0.spec_flags() == 7 && ms.translate(v)->Some_0.spec_ppn() == v
                &&& forall|v: u64|
                    layout.in_bss(v) ==> (#[trigger] ms.translate(v)) is Some && ms.translate(
                        v,
                    )->Some_0.spec_flags() == 7 && ms.translate(v)->Some_0.spec_ppn() == v
                &&& forall|v: u64|
                    layout.in_free(v) ==> (#[trigger] ms.translate(v)) is Some && ms.translate(
                        v,
                    )->Some_0.spec_flags() == 11 && ms.translate(v)->Some_0.spec_ppn() == v
                &&& forall|v: u64|
                    !layout.in_text(v) && !layout.in_rodata(v) && !layout.in_data(v)
                        && !layout.in_bss(v) && !layout.in_free(v) && v != VPN_LIMIT - 1 ==> (
                    #[trigger] ms.translate(v)) is None
            },
            r matches Err(e) ==> e == KernelError::AlreadyMapped || e
                == KernelError::FrameExhausted,
    {
        let ghost free0 = old(allocator).free_count();
        let mut ms = match MemorySet::new_bare(allocator) {
            Ok(ms) => ms,
            Err(e) => {
                proof {
                    if free0 >= layout.page_budget() {
                        lemma_sections_nonneg(*layout, 5);
                        assert(false);
                    }
                }
                return Err(e);
            },
        };
        proof {
            assert forall|q: u64|
                ms.owns(q) implies !old(allocator).live(q) && allocator.live(q) by {
                assert(q == ms.pt().spec_root());
                assert(!old(allocator).live(q));
                assert(allocator.live(q));
            }
            assert(sections_budget(*layout, 0) == 0);
        }
        let sections: [(u64, u64, u8); 5] = [
            (layout.text_start, layout.text_end, MAP_R + MAP_X),
            (layout.rodata_start, layout.rodata_end, MAP_R),
            (layout.data_start, layout.data_end, MAP_R + MAP_W),
            (layout.bss_start, layout.bss_end, MAP_R + MAP_W),
            (layout.kernel_end, layout.memory_end, MAP_R + MAP_X),
        ];
        let mut s: usize = 0;
        while s < 5
            invariant
                layout.wf(),
                sections[0] == (layout.text_start, layout.text_end, (MAP_R + MAP_X) as u8),
                sections[1] == (layout.rodata_start, layout.rodata_end, MAP_R as u8),
                sections[2] == (layout.data_start, layout.data_end, (MAP_R + MAP_W) as u8),
                sections[3] == (layout.bss_start, layout.bss_end, (MAP_R + MAP_W) as u8),
                sections[4] == (layout.kernel_end, layout.memory_end, (MAP_R + MAP_X) as u8),
                0 <= s <= 5,
                allocator.wf(),
                mem.wf(),
                ms.wf_frames(*allocator),
                allocator.spec_start() == old(allocator).spec_start(),
                allocator.spec_end() == old(allocator).spec_end(),
                allocator.spec_start() >= mem.spec_base(),
                allocator.spec_end() <= mem.spec_base() + mem.spec_len(),
                mem.spec_base() == old(mem).spec_base(),
                mem.spec_len() == old(mem).spec_len(),
                free0 == old(allocator).free_count(),
                allocator.free_count() >= free0 - 1 - 3 * sections_budget(*layout, s as int),
                forall|q: u64| old(allocator).live(q) ==> allocator.live(q),
                forall|q: u64| ms.owns(q) ==> !old(allocator).live(q) && allocator.live(q),
                forall|q: u64|
                    allocator.live(q) && !old(allocator).live(q) ==> ms.owns(q),
                forall|p: u64|
                    old(mem).in_range(p) && old(allocator).live(p) ==> #[trigger] mem.spec_frame(p)
                        == old(mem).spec_frame(p),
                forall|k: int, v: u64|
                    #![trigger section_first(*layout, k), ms.translate(v)]
                    0 <= k < s && section_first(*layout, k) <= v < section_end(*layout, k)
                        ==> ms.translate(v) is Some && ms.translate(v)->Some_0.spec_flags() == 2
                        * (section_perm(*layout, k) / 2) + 1 && ms.translate(
                        v,
                    )->Some_0.spec_ppn() == v,
                forall|v: u64|
                    (#[trigger] ms.translate(v)) is Some ==> exists|k: int|
                        0 <= k < s && #[trigger] section_first(*layout, k) <= v < section_end(
                            *layout,
                            k,
                        ),
            decreases 5 - s,
        {
            let (sec_start, sec_end, perm) = sections[s];
            proof {
                lemma_sections_ordered(*layout, s as int);
            }
            let area = MapArea::new(
                VirtAddr::new(sec_start),
                VirtAddr::new(sec_end),
                MapType::Identifier,
                MapPermission::from_bits(perm),
            );
            let ghost ms_before = ms;
            let ghost a_before = *allocator;
            proof {
                assert forall|v: u64|
                    area.spec_start() <= v < area.spec_end() implies (
                #[trigger] ms.translate(v)) is None by {
                    if ms.translate(v) is Some {
                        let k = choose|k: int|
                            0 <= k < s && #[trigger] section_first(*layout, k) <= v
                                < section_end(*layout, k);
                        lemma_sections_disjoint(*layout, k, s as int);
                    }
                }
            }
            match ms.push(area, None, allocator, mem) {
                Ok(_) => {},
                Err(e) => {
                    proof {
                        if free0 >= layout.page_budget() {
                            lemma_sections_budget_bound(*layout, s as int);
                            assert(false);
                        }
                        lemma_push_chars(*old(allocator), a_before, *allocator, ms_before, ms);
                    }
                    let ghost ms_val = ms;
                    let ghost a_now = *allocator;
                    ms.release(allocator);
                    proof {
                        lemma_abort_restores(*old(allocator), a_now, *allocator, ms_val);
                    }
                    return Err(e);
                },
            }
            proof {
                lemma_sections_budget_bound(*layout, s as int);
                assert forall|k: int, v: u64|
                    #![trigger section_first(*layout, k), ms.translate(v)]
                    0 <= k < s + 1 && section_first(*layout, k) <= v < section_end(*layout, k)
                        implies ms.translate(v) is Some && ms.translate(v)->Some_0.spec_flags()
                    == 2 * (section_perm(*layout, k) / 2) + 1 && ms.translate(
                    v,
                )->Some_0.spec_ppn() == v by {
                    if k < s {
                        lemma_sections_disjoint(*layout, k, s as int);
                        assert(ms.translate(v) == ms_before.translate(v));
                        assert(ms_before.translate(v) is Some);
                    } else {
                        assert(area.spec_start() <= v < area.spec_end());
                        assert(ms.translate(v)->Some_0.spec_ppn() == ms.area(
                            ms.num_areas() - 1,
                        ).page_ppn(v - area.spec_start()));
                    }
                }
                assert forall|v: u64|
                    (#[trigger] ms.translate(v)) is Some implies exists|k: int|
                    0 <= k < s + 1 && #[trigger] section_first(*layout, k) <= v < section_end(
                        *layout,
                        k,
                    ) by {
                    if !(area.spec_start() <= v < area.spec_end()) {
                        assert(ms.translate(v) == ms_before.translate(v));
                        let k = choose|k: int|
                            0 <= k < s && #[trigger] section_first(*layout, k) <= v
                                < section_end(*layout, k);
                        assert(0 <= k < s + 1 && section_first(*layout, k) <= v < section_end(
                            *layout,
                            k,
                        ));
                    } else {
                        assert(0 <= (s as int) && (s as int) < s + 1 && section_first(
                            *layout,
                            s as int,
                        ) <= v < section_end(*layout, s as int));
                    }
                }
            }
            s = s + 1;
        }
        // the trampoline page, identically placed in every address space
        let ghost ms_secs = ms;
        let ghost a_secs = *allocator;
        proof {
            assert(ms.translate((VPN_LIMIT - 1) as u64) is None) by {
                if ms.translate((VPN_LIMIT - 1) as u64) is Some {
                    let k = choose|k: int|
                        0 <= k < 5 && #[trigger] section_first(*layout, k) <= VPN_LIMIT - 1
                            < section_end(*layout, k);
                    lemma_section_end_bound(*layout, k);
                }
            }
        }
        match ms.map_trampoline(crate::address::PhysAddr::new(layout.trampoline), allocator) {
            Ok(_) => {},
            Err(e) => {
                proof {
                    if free0 >= layout.page_budget() {
                        lemma_sections_budget_bound(*layout, 5);
                        assert(false);
                    }
                    lemma_push_chars(*old(allocator), a_secs, *allocator, ms_secs, ms);
                }
                let ghost ms_val = ms;
                let ghost a_now = *allocator;
                ms.release(allocator);
                proof {
                    lemma_abort_restores(*old(allocator), a_now, *allocator, ms_val);
                }
                return Err(e);
            },
        }
        proof {
            lemma_push_chars(*old(allocator), a_secs, *allocator, ms_secs, ms);
            assert forall|v: u64|
                !layout.in_text(v) && !layout.in_rodata(v) && !layout.in_data(v) && !layout.in_bss(
                    v,
                ) && !layout.in_free(v) && v != VPN_LIMIT - 1 implies (
            #[trigger] ms.translate(v)) is None by {
                assert(ms.translate(v) == ms_secs.translate(v));
                if ms_secs.translate(v) is Some {
                    let k = choose|k: int|
                        0 <= k < 5 && #[trigger] section_first(*layout, k) <= v < section_end(
                            *layout,
                            k,
                        );
                }
            }
            assert forall|v: u64|
                layout.in_text(v) implies (#[trigger] ms.translate(v)) is Some && ms.translate(
                v,
            )->Some_0.spec_flags() == 11 && ms.translate(v)->Some_0.spec_ppn() == v by {
                lemma_section_end_bound(*layout, 0);
                assert(section_first(*layout, 0) <= v < section_end(*layout, 0));
                assert(ms_secs.translate(v) is Some);
                assert(ms.translate(v) == ms_secs.translate(v));
            }
            assert forall|v: u64|
                layout.in_rodata(v) implies (#[trigger] ms.translate(v)) is Some && ms.translate(
                v,
            )->Some_0.spec_flags() == 3 && ms.translate(v)->Some_0.spec_ppn() == v by {
                lemma_section_end_bound(*layout, 1);
                assert(section_first(*layout, 1) <= v < section_end(*layout, 1));
                assert(ms_secs.translate(v) is Some);
                assert(ms.translate(v) == ms_secs.translate(v));
            }
            assert forall|v: u64|
                layout.in_data(v) implies (#[trigger] ms.translate(v)) is Some && ms.translate(
                v,
            )->Some_0.spec_flags() == 7 && ms.translate(v)->Some_0.spec_ppn() == v by {
                lemma_section_end_bound(*layout, 2);
                assert(section_first(*layout, 2) <= v < section_end(*layout, 2));
                assert(ms_secs.translate(v) is Some);
                assert(ms.translate(v) == ms_secs.translate(v));
            }
            assert forall|v: u64|
                layout.in_bss(v) implies (#[trigger] ms.translate(v)) is Some && ms.translate(
                v,
            )->Some_0.spec_flags() == 7 && ms.translate(v)->Some_0.spec_ppn() == v by {
                lemma_section_end_bound(*layout, 3);
                assert(section_first(*layout, 3) <= v < section_end(*layout, 3));
                assert(ms_secs.translate(v) is Some);
                assert(ms.translate(v) == ms_secs.translate(v));
            }
            assert forall|v: u64|
                layout.in_free(v) implies (#[trigger] ms.translate(v)) is Some && ms.translate(
                v,
            )->Some_0.spec_flags() == 11 && ms.translate(v)->Some_0.spec_ppn() == v by {
                lemma_section_end_bound(*layout, 4);
                assert(section_first(*layout, 4) <= v < section_end(*layout, 4));
                assert(ms_secs.translate(v) is Some);
                assert(ms.translate(v) == ms_secs.translate(v));
            }
        }
        Ok(ms)
    }
}

/// Start page of numbered section `k` of the kernel layout.
pub open spec fn section_first(l: KernelLayout, k: int) -> u64 {
    if k == 0 {
        (l.text_start / 4096) as u64
    } else if k == 1 {
        (l.rodata_start / 4096) as u64
    } else if k == 2 {
        (l.data_start / 4096) as u64
    } else if k == 3 {
        (l.bss_start / 4096) as u64
    } else {
        (l.kernel_end / 4096) as u64
    }
}

/// End page of numbered section `k` of the kernel layout.
pub open spec fn section_end(l: KernelLayout, k: int) -> u64 {
    if k == 0 {
        ((l.text_end + 4095) / 4096) as u64
    } else if k == 1 {
        ((l.rodata_end + 4095) / 4096) as u64
    } else if k == 2 {
        ((l.data_end + 4095) / 4096) as u64
    } else if k == 3 {
        ((l.bss_end + 4095) / 4096) as u64
    } else {
        ((l.memory_end + 4095) / 4096) as u64
    }
}

/// Permission bits of numbered section `k` of the kernel layout.
pub open spec fn section_perm(l: KernelLayout, k: int) -> u8 {
    if k == 1 {
        MAP_R
    } else if k == 2 || k == 3 {
        (MAP_R + MAP_W) as u8
    } else {
        (MAP_R + MAP_X) as u8
    }
}

/// Pages of the first `n` numbered sections together.
pub open spec fn sections_budget(l: KernelLayout, n: int) -> int
    decreases n,
{
    if n <= 0 {
        0
    } else {
        sections_budget(l, n - 1) + (section_end(l, n - 1) - section_first(l, n - 1))
    }
}

impl KernelLayout {
    /// Frames that suffice to build the kernel space: a table root, up
    /// to three frames per identity-mapped page, and the trampoline's
    /// two table nodes.
    pub open spec fn page_budget(self) -> int {
        1 + 3 * sections_budget(self, 5) + 2
    }
}

/// Every identity-mapped kernel page lies below the end of physical
/// memory, well under the stack band at the top of the space.
pub proof fn lemma_sections_below(l: KernelLayout, v: u64)
    requires
        l.wf(),
        l.in_text(v) || l.in_rodata(v) || l.in_data(v) || l.in_bss(v) || l.in_free(v),
    ensures
        v < KernelLayout::pceil(l.memory_end),
{
    vstd::arithmetic::div_mod::lemma_div_is_ordered(l.text_end + 4095, l.memory_end + 4095, 4096);
    vstd::arithmetic::div_mod::lemma_div_is_ordered(
        l.rodata_end + 4095,
        l.memory_end + 4095,
        4096,
    );
    vstd::arithmetic::div_mod::lemma_div_is_ordered(l.data_end + 4095, l.memory_end + 4095, 4096);
    vstd::arithmetic::div_mod::lemma_div_is_ordered(l.bss_end + 4095, l.memory_end + 4095, 4096);
}

/// The kernel-space frame budget is never negative.
pub proof fn lemma_kernel_page_budget_nonneg(l: KernelLayout)
    requires
        l.wf(),
    ensures
        l.page_budget() >= 0,
{
    lemma_sections_nonneg(l, 5);
}

/// Each numbered section is ordered within itself.
proof fn lemma_sections_ordered(l: KernelLayout, k: int)
    requires
        l.wf(),
        0 <= k < 5,
    ensures
        section_first(l, k) <= section_end(l, k),
        section_end(l, k) <= VPN_LIMIT - 6,
{
    vstd::arithmetic::div_mod::lemma_div_is_ordered(
        if k == 0 {
            l.text_start as int
        } else if k == 1 {
            l.rodata_start as int
        } else if k == 2 {
            l.data_start as int
        } else if k == 3 {
            l.bss_start as int
        } else {
            l.kernel_end as int
        },
        if k == 0 {
            l.text_end + 4095
        } else if k == 1 {
            l.rodata_end + 4095
        } else if k == 2 {
            l.data_end + 4095
        } else if k == 3 {
            l.bss_end + 4095
        } else {
            l.memory_end + 4095
        },
        4096,
    );
    lemma_section_end_bound(l, k);
}

/// Every section's pages lie below the trampoline margin.
proof fn lemma_section_end_bound(l: KernelLayout, k: int)
    requires
        l.wf(),
        0 <= k < 5,
    ensures
        section_end(l, k) <= VPN_LIMIT - 6,
{
    vstd::arithmetic::div_mod::lemma_div_is_ordered(
        (if k == 0 {
            l.text_end
        } else if k == 1 {
            l.rodata_end
        } else if k == 2 {
            l.data_end
        } else if k == 3 {
            l.bss_end
        } else {
            l.memory_end
        }) + 4095,
        l.memory_end + 4095,
        4096,
    );
}

/// Distinct numbered sections cover disjoint pages.
proof fn lemma_sections_disjoint(l: KernelLayout, a: int, b: int)
    requires
        l.wf(),
        0 <= a < 5,
        0 <= b < 5,
        a != b,
    ensures
        section_end(l, a) <= section_first(l, b) || section_end(l, b) <= section_first(l, a),
{
    lemma_sections_ordered(l, a);
    lemma_sections_ordered(l, b);
}

/// A prefix of the section budget never exceeds the whole.
proof fn lemma_sections_budget_bound(l: KernelLayout, n: int)
    requires
        l.wf(),
        0 <= n <= 5,
    ensures
        sections_budget(l, n) + (if n < 5 {
            section_end(l, n) - section_first(l, n)
        } else {
            0
        }) <= sections_budget(l, 5),
        sections_budget(l, n) >= 0,
    decreases 5 - n,
{
    if n < 5 {
        lemma_sections_ordered(l, n);
        lemma_sections_budget_bound(l, n + 1);
    }
    if n > 0 {
        lemma_sections_nonneg(l, n);
    }
}

/// Section budgets are sums of page counts, never negative.
proof fn lemma_sections_nonneg(l: KernelLayout, n: int)
    requires
        l.wf(),
        0 <= n <= 5,
    ensures
        sections_budget(l, n) >= 0,
    decreases n,
{
    if n > 0 {
        lemma_sections_nonneg(l, n - 1);
        lemma_sections_ordered(l, n - 1);
    }
}


/// Leaf flag bits a loadable segment's pages carry: valid, user, plus
/// the segment's read/write/execute permissions.
pub open spec fn seg_leaf_flags(f: u64) -> u8 {
    (1 + 16 + (if f / 4 % 2 == 1 {
        2int
    } else {
        0int
    }) + (if f / 2 % 2 == 1 {
        4int
    } else {
        0int
    }) + (if f % 2 == 1 {
        8int
    } else {
        0int
    })) as u8
}

/// The byte that page `v`, offset `j`, of segment `k` must hold after
/// loading: the segment's file bytes, laid out from the first page on,
/// zero past their end.
pub open spec fn seg_byte(b: Seq<u8>, k: int, v: u64, j: int) -> u8 {
    let idx = (v - seg_first_page(b, k)) * 4096 + j;
    if idx < crate::elf::spec_seg_file_size(b, k) {
        b[crate::elf::spec_seg_offset(b, k) + idx]
    } else {
        0
    }
}


/// Loadable segments appear in ascending page order, disjoint from one
/// another — the order the format prescribes for them.
pub open spec fn segs_sorted(b: Seq<u8>) -> bool {
    forall|i: int, j: int|
        0 <= i < j < crate::elf::spec_ph_count(b) && #[trigger] crate::elf::spec_seg_type(b, i)
            == crate::elf::PT_LOAD && #[trigger] crate::elf::spec_seg_type(b, j)
            == crate::elf::PT_LOAD ==> seg_end_page(b, i) <= seg_first_page(b, j)
}

/// Pages of loadable segment `i`, zero for any other segment kind.
pub open spec fn seg_pages(b: Seq<u8>, i: int) -> int {
    if crate::elf::spec_seg_type(b, i) == crate::elf::PT_LOAD && seg_first_page(b, i)
        <= seg_end_page(b, i) {
        seg_end_page(b, i) - seg_first_page(b, i)
    } else {
        0
    }
}

/// Pages of the first `n` segments together.
pub open spec fn seg_pages_sum(b: Seq<u8>, n: int) -> int
    decreases n,
{
    if n <= 0 {
        0
    } else {
        seg_pages_sum(b, n - 1) + seg_pages(b, n - 1)
    }
}

/// Frames that suffice to load an image: a table root, the trampoline's
/// two table nodes, up to three frames per segment page, and the user
/// stack and trap-context pages with their table nodes.
pub open spec fn elf_budget(b: Seq<u8>) -> int {
    12 + 3 * seg_pages_sum(b, crate::elf::spec_ph_count(b) as int)
}

/// Segment page sums are never negative and prefixes never exceed the
/// whole.
proof fn lemma_seg_pages_sum_bound(b: Seq<u8>, n: int, total: int)
    requires
        0 <= n <= total,
    ensures
        seg_pages_sum(b, n) >= 0,
        seg_pages_sum(b, n) + (if n < total {
            seg_pages(b, n)
        } else {
            0
        }) <= seg_pages_sum(b, total),
    decreases total - n, n,
{
    if n > 0 {
        lemma_seg_pages_sum_bound(b, n - 1, n - 1);
    }
    if n < total {
        lemma_seg_pages_sum_bound(b, n + 1, total);
    }
}

/// Under a sorted, in-budget image, the next loadable segment's pages
/// are still unmapped and the allocator still holds enough frames for
/// them.
proof fn lemma_segment_ready(
    b: Seq<u8>,
    i: int,
    max_end_vpn: u64,
    free0: int,
    ms: MemorySet,
    a: StackFrameAllocator,
)
    requires
        crate::elf::elf_ok(b),
        elf_geometry_ok(b),
        segs_sorted(b),
        0 <= i < crate::elf::spec_ph_count(b),
        crate::elf::spec_seg_type(b, i) == crate::elf::PT_LOAD,
        free0 >= elf_budget(b),
        a.free_count() >= free0 - 3 - 3 * seg_pages_sum(b, i),
        forall|v: u64|
            (#[trigger] ms.translate(v)) is Some ==> v == VPN_LIMIT - 1 || v < max_end_vpn,
        max_end_vpn == 0 || exists|k: int|
            0 <= k < i && #[trigger] crate::elf::spec_seg_type(b, k) == crate::elf::PT_LOAD
                && seg_end_page(b, k) == max_end_vpn,
        max_end_vpn <= VPN_LIMIT - 6,
    ensures
        forall|v: u64|
            seg_first_page(b, i) <= v < seg_end_page(b, i) ==> #[trigger] ms.translate(v)
                is None,
        a.free_count() >= 3 * (seg_end_page(b, i) - seg_first_page(b, i)),
{
    assert(seg_geometry_ok(b, i));
    assert(max_end_vpn <= seg_first_page(b, i)) by {
        if max_end_vpn != 0 {
            let k = choose|k: int|
                0 <= k < i && #[trigger] crate::elf::spec_seg_type(b, k) == crate::elf::PT_LOAD
                    && seg_end_page(b, k) == max_end_vpn;
            assert(seg_end_page(b, k) <= seg_first_page(b, i));
        }
    }
    assert forall|v: u64|
        seg_first_page(b, i) <= v < seg_end_page(b, i) implies #[trigger] ms.translate(v)
        is None by {
        if ms.translate(v) is Some {
            assert(v == VPN_LIMIT - 1 || v < max_end_vpn);
        }
    }
    lemma_seg_pages_sum_bound(b, i, crate::elf::spec_ph_count(b) as int);
}

/// An image's frame budget is never negative.
pub proof fn lemma_elf_budget_nonneg(b: Seq<u8>)
    ensures
        elf_budget(b) >= 0,
{
    lemma_seg_pages_sum_bound(
        b,
        crate::elf::spec_ph_count(b) as int,
        crate::elf::spec_ph_count(b) as int,
    );
}

/// Loadable segment `i` fits the model: its memory span stays inside
/// the 39-bit space with room above it for the guard page, the user
/// stack, the trap-context page and the trampoline, and its file bytes
/// lie inside the image and within its memory span.
pub open spec fn seg_geometry_ok(b: Seq<u8>, i: int) -> bool {
    &&& crate::elf::spec_seg_mem_size(b, i) <= crate::address::VA_LIMIT - 4096
    &&& crate::elf::spec_seg_vaddr(b, i) <= crate::address::VA_LIMIT - 4096
        - crate::elf::spec_seg_mem_size(b, i)
    &&& crate::elf::spec_seg_file_size(b, i) <= crate::elf::spec_seg_mem_size(b, i)
    &&& crate::elf::spec_seg_offset(b, i) + crate::elf::spec_seg_file_size(b, i) <= b.len()
    &&& seg_end_page(b, i) <= VPN_LIMIT - 6
}

/// Every loadable segment of the image fits the model.
pub open spec fn elf_geometry_ok(b: Seq<u8>) -> bool {
    forall|i: int|
        0 <= i < crate::elf::spec_ph_count(b) && #[trigger] crate::elf::spec_seg_type(b, i)
            == crate::elf::PT_LOAD ==> seg_geometry_ok(b, i)
}

/// Decides whether every loadable segment's geometry fits the model.
fn check_geometry(elf_data: &Vec<u8>) -> (r: bool)
    requires
        crate::elf::elf_ok(elf_data@),
    ensures
        r == elf_geometry_ok(elf_data@),
{
    let ph_count = crate::elf::elf_ph_count(elf_data);
    let elf_len = elf_data.len() as u64;
    let mut i: u64 = 0;
    while i < ph_count
        invariant
            crate::elf::elf_ok(elf_data@),
            ph_count == crate::elf::spec_ph_count(elf_data@),
            elf_len == elf_data@.len(),
            0 <= i <= ph_count,
            forall|k: int|
                0 <= k < i && #[trigger] crate::elf::spec_seg_type(elf_data@, k)
                    == crate::elf::PT_LOAD ==> seg_geometry_ok(elf_data@, k),
        decreases ph_count - i,
    {
        let seg = crate::elf::elf_segment(elf_data, i);
        if seg.stype == crate::elf::PT_LOAD {
            if seg.mem_size > crate::address::VA_LIMIT - 4096 || seg.vaddr
                > crate::address::VA_LIMIT - 4096 - seg.mem_size {
                proof {
                    assert(!seg_geometry_ok(elf_data@, i as int));
                }
                return false;
            }
            if seg.file_size > seg.mem_size {
                proof {
                    assert(!seg_geometry_ok(elf_data@, i as int));
                }
                return false;
            }
            if seg.offset > elf_len || seg.file_size > elf_len - seg.offset {
                proof {
                    assert(!seg_geometry_ok(elf_data@, i as int));
                }
                return false;
            }
            let end_page = (seg.vaddr + seg.mem_size + 4095) / 4096;
            if end_page > VPN_LIMIT - 6 {
                proof {
                    assert(!seg_geometry_ok(elf_data@, i as int));
                }
                return false;
            }
        }
        i = i + 1;
    }
    true
}

/// A state built only from fresh frames, then torn down, restores the
/// allocator's live set exactly.
proof fn lemma_abort_restores(
    pre_a: StackFrameAllocator,
    a1: StackFrameAllocator,
    a2: StackFrameAllocator,
    ms: MemorySet,
)
    requires
        forall|q: u64| pre_a.live(q) ==> a1.live(q),
        forall|q: u64| #[trigger] ms.owns(q) ==> !pre_a.live(q) && a1.live(q),
        forall|q: u64| a1.live(q) && !pre_a.live(q) ==> ms.owns(q),
        forall|q: u64| #[trigger] a2.live(q) == (a1.live(q) && !ms.owns(q)),
    ensures
        forall|q: u64| #[trigger] a2.live(q) == pre_a.live(q),
{
    assert forall|q: u64| #[trigger] a2.live(q) == pre_a.live(q) by {
        if pre_a.live(q) {
            assert(a1.live(q));
            assert(!ms.owns(q));
        } else {
            if a2.live(q) {
                assert(a1.live(q) && !ms.owns(q));
                assert(ms.owns(q));
            }
        }
    }
}

/// Pushing into a space built only from fresh frames keeps the space's
/// frames exactly the ones that became live since `pre_a`.
proof fn lemma_push_chars(
    pre_a: StackFrameAllocator,
    a_before: StackFrameAllocator,
    a_after: StackFrameAllocator,
    ms_before: MemorySet,
    ms_after: MemorySet,
)
    requires
        forall|q: u64| pre_a.live(q) ==> a_before.live(q),
        forall|q: u64| #[trigger] ms_before.owns(q) ==> !pre_a.live(q) && a_before.live(q),
        forall|q: u64| a_before.live(q) && !pre_a.live(q) ==> ms_before.owns(q),
        forall|q: u64| a_before.live(q) ==> a_after.live(q),
        forall|q: u64| ms_before.owns(q) ==> ms_after.owns(q),
        forall|q: u64|
            #[trigger] ms_after.owns(q) && !ms_before.owns(q) ==> !a_before.live(q)
                && a_after.live(q),
        forall|q: u64| a_after.live(q) && !a_before.live(q) ==> ms_after.owns(q),
    ensures
        forall|q: u64| #[trigger] ms_after.owns(q) ==> !pre_a.live(q) && a_after.live(q),
        forall|q: u64| a_after.live(q) && !pre_a.live(q) ==> ms_after.owns(q),
{
    assert forall|q: u64| #[trigger] ms_after.owns(q) implies !pre_a.live(q) && a_after.live(
        q,
    ) by {
        if ms_before.owns(q) {
        }
    }
    assert forall|q: u64| a_after.live(q) && !pre_a.live(q) implies ms_after.owns(q) by {
        if a_before.live(q) {
            assert(ms_before.owns(q));
        }
    }
}

/// First virtual page of segment `i` of image `b`.
pub open spec fn seg_first_page(b: Seq<u8>, i: int) -> u64 {
    (crate::elf::spec_seg_vaddr(b, i) / 4096) as u64
}

/// One past the last virtual page of segment `i` of image `b`.
pub open spec fn seg_end_page(b: Seq<u8>, i: int) -> u64 {
    ((crate::elf::spec_seg_vaddr(b, i) + crate::elf::spec_seg_mem_size(b, i) + 4095) / 4096) as u64
}

impl MemorySet {
    /// Maps every loadable segment of a checked image into this space,
    /// copying its bytes; returns the highest page any segment reaches.
    /// On failure the whole space is torn down and the allocator is
    /// exactly as the load found it.
    #[verifier::rlimit(100)]
    #[verifier::spinoff_prover]
    fn map_segments(
        ms0: MemorySet,
        elf_data: &Vec<u8>,
        allocator: &mut StackFrameAllocator,
        mem: &mut PhysMemory,
        Ghost(pre_a): Ghost<StackFrameAllocator>,
        Ghost(pre_mem): Ghost<PhysMemory>,
        Ghost(tramp_ppn): Ghost<u64>,
    ) -> (r: Result<(MemorySet, u64), KernelError>)
        requires
            crate::elf::elf_ok(elf_data@),
            elf_geometry_ok(elf_data@),
            old(allocator).wf(),
            old(mem).wf(),
            ms0.wf_frames(*old(allocator)),
            old(allocator).spec_start() >= old(mem).spec_base(),
            old(allocator).spec_end() <= old(mem).spec_base() + old(mem).spec_len(),
            old(allocator).spec_start() == pre_a.spec_start(),
            old(allocator).spec_end() == pre_a.spec_end(),
            old(mem).spec_base() == pre_mem.spec_base(),
            old(mem).spec_len() == pre_mem.spec_len(),
            forall|q: u64| pre_a.live(q) ==> old(allocator).live(q),
            forall|q: u64| #[trigger] ms0.owns(q) ==> !pre_a.live(q) && old(allocator).live(q),
            forall|q: u64| old(allocator).live(q) && !pre_a.live(q) ==> ms0.owns(q),
            forall|p: u64|
                pre_mem.in_range(p) && pre_a.live(p) ==> #[trigger] old(mem).spec_frame(p)
                    == pre_mem.spec_frame(p),
            ms0.translate((VPN_LIMIT - 1) as u64) matches Some(e) && e.spec_ppn() == tramp_ppn
                && e.spec_flags() == 11,
            forall|v: u64| v != VPN_LIMIT - 1 ==> #[trigger] ms0.translate(v) is None,
            old(allocator).free_count() >= pre_a.free_count() - 3,
        ensures
            final(allocator).wf(),
            final(mem).wf(),
            final(allocator).spec_start() == pre_a.spec_start(),
            final(allocator).spec_end() == pre_a.spec_end(),
            final(mem).spec_base() == pre_mem.spec_base(),
            final(mem).spec_len() == pre_mem.spec_len(),
            forall|q: u64| pre_a.live(q) ==> final(allocator).live(q),
            forall|p: u64|
                pre_mem.in_range(p) && pre_a.live(p) ==> #[trigger] final(mem).spec_frame(p)
                    == pre_mem.spec_frame(p),
            r matches Err(e) ==> (e == KernelError::AlreadyMapped || e
                == KernelError::FrameExhausted) && forall|q: u64|
                final(allocator).live(q) == pre_a.live(q),
            segs_sorted(elf_data@) && pre_a.free_count() >= elf_budget(elf_data@)
                ==> r is Ok,
            r matches Ok(t) ==> {
                &&& t.0.wf_frames(*final(allocator))
                &&& forall|q: u64|
                    #[trigger] t.0.owns(q) ==> !pre_a.live(q) && final(allocator).live(q)
                &&& forall|q: u64|
                    final(allocator).live(q) && !pre_a.live(q) ==> t.0.owns(q)
                &&& (t.0.translate((VPN_LIMIT - 1) as u64) matches Some(e) && e.spec_ppn()
                    == tramp_ppn && e.spec_flags() == 11)
                &&& t.1 <= VPN_LIMIT - 6
                &&& forall|k: int|
                    0 <= k < crate::elf::spec_ph_count(elf_data@) && crate::elf::spec_seg_type(
                        elf_data@,
                        k,
                    ) == crate::elf::PT_LOAD ==> seg_end_page(elf_data@, k) <= t.1
                &&& forall|k: int|
                    0 <= k < crate::elf::spec_ph_count(elf_data@) && crate::elf::spec_seg_type(
                        elf_data@,
                        k,
                    ) == crate::elf::PT_LOAD ==> forall|v: u64|
                        seg_first_page(elf_data@, k) <= v < seg_end_page(elf_data@, k) ==> (
                        #[trigger] t.0.translate(v)) is Some && t.0.translate(
                            v,
                        )->Some_0.spec_flags() == seg_leaf_flags(
                            crate::elf::spec_seg_flags(elf_data@, k),
                        ) && t.0.owns(t.0.translate(v)->Some_0.spec_ppn())
                &&& forall|k: int, v: u64, j: int|
                    0 <= k < crate::elf::spec_ph_count(elf_data@) && crate::elf::spec_seg_type(
                        elf_data@,
                        k,
                    ) == crate::elf::PT_LOAD && seg_first_page(elf_data@, k) <= v < seg_end_page(
                        elf_data@,
                        k,
                    ) && 0 <= j < 4096 ==> final(mem).page(t.0.translate(v)->Some_0.spec_ppn())[j]
                        == #[trigger] seg_byte(elf_data@, k, v, j)
                &&& forall|v: u64|
                    (#[trigger] t.0.translate(v)) is Some ==> v == VPN_LIMIT - 1 || v < t.1
                &&& final(allocator).free_count() >= pre_a.free_count() - 3 - 3 * seg_pages_sum(
                    elf_data@,
                    crate::elf::spec_ph_count(elf_data@) as int,
                )
            },
    {
        let ghost free0 = pre_a.free_count();
        let ghost success_owed = crate::elf::elf_ok(elf_data@) && elf_geometry_ok(elf_data@)
            && segs_sorted(elf_data@) && free0 >= elf_budget(elf_data@);
        proof {
            if success_owed {
                lemma_seg_pages_sum_bound(
                    elf_data@,
                    crate::elf::spec_ph_count(elf_data@) as int,
                    crate::elf::spec_ph_count(elf_data@) as int,
                );
            }
        }
        let mut ms = ms0;
        let ph_count = crate::elf::elf_ph_count(elf_data);
        let mut max_end_vpn: u64 = 0;
        let mut i: u64 = 0;
        while i < ph_count
            invariant
                crate::elf::elf_ok(elf_data@),
                elf_geometry_ok(elf_data@),
                ph_count == crate::elf::spec_ph_count(elf_data@),
                0 <= i <= ph_count,
                allocator.wf(),
                mem.wf(),
                ms.wf_frames(*allocator),
                allocator.spec_start() == pre_a.spec_start(),
                allocator.spec_end() == pre_a.spec_end(),
                allocator.spec_start() >= mem.spec_base(),
                allocator.spec_end() <= mem.spec_base() + mem.spec_len(),
                mem.spec_base() == pre_mem.spec_base(),
                mem.spec_len() == pre_mem.spec_len(),
                forall|q: u64| pre_a.live(q) ==> allocator.live(q),
                forall|q: u64| ms.owns(q) ==> !pre_a.live(q) && allocator.live(q),
                forall|q: u64|
                    allocator.live(q) && !pre_a.live(q) ==> ms.owns(q),
                forall|p: u64|
                    pre_mem.in_range(p) && pre_a.live(p) ==> #[trigger] mem.spec_frame(p)
                        == pre_mem.spec_frame(p),
                ms.translate((VPN_LIMIT - 1) as u64) matches Some(e) && e.spec_ppn()
                    == tramp_ppn && e.spec_flags() == 11,
                free0 == pre_a.free_count(),
                success_owed == (crate::elf::elf_ok(elf_data@) && elf_geometry_ok(elf_data@)
                    && segs_sorted(elf_data@) && free0 >= elf_budget(elf_data@)),
                allocator.free_count() >= free0 - 3 - 3 * seg_pages_sum(elf_data@, i as int),
                forall|v: u64|
                    (#[trigger] ms.translate(v)) is Some ==> v == VPN_LIMIT - 1 || v
                        < max_end_vpn,
                max_end_vpn == 0 || exists|k: int|
                    0 <= k < i && #[trigger] crate::elf::spec_seg_type(elf_data@, k)
                        == crate::elf::PT_LOAD && seg_end_page(elf_data@, k) == max_end_vpn,
                max_end_vpn <= VPN_LIMIT - 6,
                forall|k: int|
                    0 <= k < i && crate::elf::spec_seg_type(elf_data@, k) == crate::elf::PT_LOAD
                        ==> seg_end_page(elf_data@, k) <= max_end_vpn,
                forall|k: int|
                    0 <= k < i && crate::elf::spec_seg_type(elf_data@, k) == crate::elf::PT_LOAD
                        ==> forall|v: u64|
                        seg_first_page(elf_data@, k) <= v < seg_end_page(elf_data@, k) ==> (
                        #[trigger] ms.translate(v)) is Some && ms.translate(
                            v,
                        )->Some_0.spec_flags() == seg_leaf_flags(
                            crate::elf::spec_seg_flags(elf_data@, k),
                        ) && ms.owns(ms.translate(v)->Some_0.spec_ppn()),
                forall|k: int, v: u64, j: int|
                    0 <= k < i && crate::elf::spec_seg_type(elf_data@, k) == crate::elf::PT_LOAD
                        && seg_first_page(elf_data@, k) <= v < seg_end_page(elf_data@, k) && 0
                        <= j < 4096 ==> mem.page(ms.translate(v)->Some_0.spec_ppn())[j]
                        == #[trigger] seg_byte(elf_data@, k, v, j),
            decreases ph_count - i,
        {
            let seg = crate::elf::elf_segment(elf_data, i);
            if seg.stype == crate::elf::PT_LOAD {
                proof {
                    assert(seg_geometry_ok(elf_data@, i as int));
                }
                let elf_len = elf_data.len();
                proof {
                    assert(seg.offset + seg.file_size <= elf_len);
                }
                let start_va = VirtAddr::new(seg.vaddr);
                let end_va = VirtAddr::new(seg.vaddr + seg.mem_size);
                proof {
                    assert(start_va.0 == seg.vaddr);
                    assert(end_va.0 == seg.vaddr + seg.mem_size);
                }
                let mut perm_bits: u8 = MAP_U;
                if (seg.flags / 4) % 2 == 1 {
                    perm_bits = perm_bits + MAP_R;
                }
                if (seg.flags / 2) % 2 == 1 {
                    perm_bits = perm_bits + MAP_W;
                }
                if seg.flags % 2 == 1 {
                    perm_bits = perm_bits + MAP_X;
                }
                let area = MapArea::new(
                    start_va,
                    end_va,
                    MapType::Framed,
                    MapPermission::from_bits(perm_bits),
                );
                // the segment's bytes, copied out of the image
                let mut data_seg: Vec<u8> = Vec::new();
                let mut j: u64 = 0;
                while j < seg.file_size
                    invariant
                        0 <= j <= seg.file_size,
                        seg.offset + seg.file_size <= elf_data@.len(),
                        elf_data@.len() <= usize::MAX,
                        data_seg@.len() == j,
                        forall|t: int|
                            0 <= t < j ==> #[trigger] data_seg@[t] == elf_data@[seg.offset + t],
                    decreases seg.file_size - j,
                {
                    data_seg.push(elf_data[(seg.offset + j) as usize]);
                    j = j + 1;
                }
                proof {
                    assert(area.spec_end() - area.spec_start() >= 0);
                    lemma_seg_fits(seg.vaddr, seg.mem_size, seg.file_size);
                }
                let ghost ms_before = ms;
                let ghost a_before = *allocator;
                match ms.push(area, Some(&data_seg), allocator, mem) {
                    Ok(_) => {},
                    Err(e) => {
                        proof {
                            if success_owed {
                                lemma_segment_ready(
                                    elf_data@,
                                    i as int,
                                    max_end_vpn,
                                    free0,
                                    ms_before,
                                    a_before,
                                );
                                assert(false);
                            }
                            lemma_push_chars(
                                pre_a,
                                a_before,
                                *allocator,
                                ms_before,
                                ms,
                            );
                        }
                        let ghost ms_val = ms;
                        let ghost a_now = *allocator;
                        ms.release(allocator);
                        proof {
                            lemma_abort_restores(pre_a, a_now, *allocator, ms_val);
                        }
                        return Err(e);
                    },
                }
                let end_vpn = end_va.ceil();
                if end_vpn.0 > max_end_vpn {
                    max_end_vpn = end_vpn.0;
                }
                proof {
                    lemma_seg_pages_sum_bound(
                        elf_data@,
                        i as int,
                        i as int + 1,
                    );
                    assert forall|v: u64|
                        (#[trigger] ms.translate(v)) is Some implies v == VPN_LIMIT - 1 || v
                        < max_end_vpn by {
                        if !(area.spec_start() <= v < area.spec_end()) {
                            assert(ms.translate(v) == ms_before.translate(v));
                        }
                    }
                    assert(max_end_vpn == 0 || exists|k: int|
                        0 <= k < i + 1 && #[trigger] crate::elf::spec_seg_type(elf_data@, k)
                            == crate::elf::PT_LOAD && seg_end_page(elf_data@, k)
                            == max_end_vpn) by {
                        if seg_end_page(elf_data@, i as int) == max_end_vpn {
                            assert(0 <= (i as int) && (i as int) < i + 1
                                && crate::elf::spec_seg_type(elf_data@, i as int)
                                == crate::elf::PT_LOAD);
                        } else {
                            let k = choose|k: int|
                                0 <= k < i && #[trigger] crate::elf::spec_seg_type(elf_data@, k)
                                    == crate::elf::PT_LOAD && seg_end_page(elf_data@, k)
                                    == max_end_vpn;
                        }
                    }
                    assert(seg_end_page(elf_data@, i as int) <= max_end_vpn);
                    assert forall|k: int|
                        0 <= k < i + 1 && crate::elf::spec_seg_type(elf_data@, k)
                            == crate::elf::PT_LOAD implies forall|v: u64|
                        seg_first_page(elf_data@, k) <= v < seg_end_page(elf_data@, k) ==> (
                        #[trigger] ms.translate(v)) is Some && ms.translate(
                            v,
                        )->Some_0.spec_flags() == seg_leaf_flags(
                            crate::elf::spec_seg_flags(elf_data@, k),
                        ) by {
                        if k < i {
                            assert forall|v: u64|
                                seg_first_page(elf_data@, k) <= v < seg_end_page(elf_data@, k)
                                    implies (#[trigger] ms.translate(v)) is Some && ms.translate(
                                v,
                            )->Some_0.spec_flags() == seg_leaf_flags(
                                crate::elf::spec_seg_flags(elf_data@, k),
                            ) by {
                                assert(ms_before.translate(v) is Some);
                                assert(!(area.spec_start() <= v < area.spec_end()));
                                assert(ms.translate(v) == ms_before.translate(v));
                            }
                        } else {
                            assert forall|v: u64|
                                seg_first_page(elf_data@, k) <= v < seg_end_page(elf_data@, k)
                                    implies (#[trigger] ms.translate(v)) is Some && ms.translate(
                                v,
                            )->Some_0.spec_flags() == seg_leaf_flags(
                                crate::elf::spec_seg_flags(elf_data@, k),
                            ) by {
                                assert(area.spec_start() <= v < area.spec_end());
                                assert(ms.translate(v) is Some);
                                assert(ms.translate(v)->Some_0.spec_flags() == area.leaf_flags());
                                assert(area.leaf_flags() == seg_leaf_flags(seg.flags));
                            }
                        }
                    }
                    assert(ms.translate((VPN_LIMIT - 1) as u64) == ms_before.translate(
                        (VPN_LIMIT - 1) as u64,
                    )) by {
                        assert(area.spec_end() <= VPN_LIMIT - 6);
                    }
                }
            }
            i = i + 1;
        }
        Ok((ms, max_end_vpn))
    }

    /// Appends the guard-paged user stack and the trap-context page to a
    /// space whose loadable segments are already in place, proving the
    /// stack and trap pages land above every segment and below the
    /// trampoline.  On failure the whole space is torn down and the
    /// allocator is exactly as `pre_a`.
    #[verifier::rlimit(100)]
    #[verifier::spinoff_prover]
    fn finish_user_space(
        ms0: MemorySet,
        max_end_vpn: u64,
        elf_data: &Vec<u8>,
        allocator: &mut StackFrameAllocator,
        mem: &mut PhysMemory,
        Ghost(pre_a): Ghost<StackFrameAllocator>,
        Ghost(pre_mem): Ghost<PhysMemory>,
        Ghost(tramp_ppn): Ghost<u64>,
        Ghost(success_owed): Ghost<bool>,
    ) -> (r: Result<(MemorySet, u64), KernelError>)
        requires
            crate::elf::elf_ok(elf_data@),
            old(allocator).wf(),
            old(mem).wf(),
            ms0.wf_frames(*old(allocator)),
            old(allocator).spec_start() >= old(mem).spec_base(),
            old(allocator).spec_end() <= old(mem).spec_base() + old(mem).spec_len(),
            old(allocator).spec_start() == pre_a.spec_start(),
            old(allocator).spec_end() == pre_a.spec_end(),
            old(mem).spec_base() == pre_mem.spec_base(),
            old(mem).spec_len() == pre_mem.spec_len(),
            forall|q: u64| pre_a.live(q) ==> old(allocator).live(q),
            forall|q: u64| #[trigger] ms0.owns(q) ==> !pre_a.live(q) && old(allocator).live(q),
            forall|q: u64| old(allocator).live(q) && !pre_a.live(q) ==> ms0.owns(q),
            forall|p: u64|
                pre_mem.in_range(p) && pre_a.live(p) ==> #[trigger] old(mem).spec_frame(p)
                    == pre_mem.spec_frame(p),
            ms0.translate((VPN_LIMIT - 1) as u64) matches Some(e) && e.spec_ppn() == tramp_ppn
                && e.spec_flags() == 11,
            forall|v: u64|
                (#[trigger] ms0.translate(v)) is Some ==> v == VPN_LIMIT - 1 || v < max_end_vpn,
            max_end_vpn <= VPN_LIMIT - 6,
            forall|k: int|
                0 <= k < crate::elf::spec_ph_count(elf_data@) && crate::elf::spec_seg_type(
                    elf_data@,
                    k,
                ) == crate::elf::PT_LOAD ==> seg_end_page(elf_data@, k) <= max_end_vpn,
            forall|k: int|
                0 <= k < crate::elf::spec_ph_count(elf_data@) && crate::elf::spec_seg_type(
                    elf_data@,
                    k,
                ) == crate::elf::PT_LOAD ==> forall|v: u64|
                    seg_first_page(elf_data@, k) <= v < seg_end_page(elf_data@, k) ==> (
                    #[trigger] ms0.translate(v)) is Some && ms0.translate(v)->Some_0.spec_flags()
                        == seg_leaf_flags(crate::elf::spec_seg_flags(elf_data@, k)) && ms0.owns(
                        ms0.translate(v)->Some_0.spec_ppn(),
                    ),
            forall|k: int, v: u64, j: int|
                0 <= k < crate::elf::spec_ph_count(elf_data@) && crate::elf::spec_seg_type(
                    elf_data@,
                    k,
                ) == crate::elf::PT_LOAD && seg_first_page(elf_data@, k) <= v < seg_end_page(
                    elf_data@,
                    k,
                ) && 0 <= j < 4096 ==> old(mem).page(ms0.translate(v)->Some_0.spec_ppn())[j]
                    == #[trigger] seg_byte(elf_data@, k, v, j),
            success_owed ==> old(allocator).free_count() >= 9,
        ensures
            final(allocator).wf(),
            final(mem).wf(),
            final(allocator).spec_start() == pre_a.spec_start(),
            final(allocator).spec_end() == pre_a.spec_end(),
            final(mem).spec_base() == pre_mem.spec_base(),
            final(mem).spec_len() == pre_mem.spec_len(),
            forall|q: u64| pre_a.live(q) ==> final(allocator).live(q),
            forall|p: u64|
                pre_mem.in_range(p) && pre_a.live(p) ==> #[trigger] final(mem).spec_frame(p)
                    == pre_mem.spec_frame(p),
            r matches Err(e) ==> (e == KernelError::AlreadyMapped || e
                == KernelError::FrameExhausted) && forall|q: u64|
                final(allocator).live(q) == pre_a.live(q),
            success_owed ==> r is Ok,
            r matches Ok(t) ==> {
                &&& t.0.wf_frames(*final(allocator))
                &&& final(allocator).free_count() >= old(allocator).free_count() - 9
                &&& forall|q: u64|
                    #[trigger] t.0.owns(q) ==> !pre_a.live(q) && final(allocator).live(q)
                &&& forall|q: u64|
                    final(allocator).live(q) && !pre_a.live(q) ==> t.0.owns(q)
                &&& t.0.owns(t.0.translate((VPN_LIMIT - 2) as u64)->Some_0.spec_ppn())
                &&& (t.0.translate((VPN_LIMIT - 1) as u64) matches Some(e) && e.spec_ppn()
                    == tramp_ppn && e.spec_flags() == 11)
                &&& t.0.translate((VPN_LIMIT - 2) as u64) matches Some(e) && e.spec_flags() == 7
                    && final(mem).is_bytes(e.spec_ppn()) && final(mem).in_range(e.spec_ppn())
                &&& forall|v: u64|
                    t.1 / 4096 - 2 <= v < t.1 / 4096 ==> (#[trigger] t.0.translate(v)) is Some
                        && t.0.translate(v)->Some_0.spec_flags() == 23
                &&& forall|k: int|
                    0 <= k < crate::elf::spec_ph_count(elf_data@) && crate::elf::spec_seg_type(
                        elf_data@,
                        k,
                    ) == crate::elf::PT_LOAD ==> forall|v: u64|
                        seg_first_page(elf_data@, k) <= v < seg_end_page(elf_data@, k) ==> (
                        #[trigger] t.0.translate(v)) is Some && t.0.translate(
                            v,
                        )->Some_0.spec_flags() == seg_leaf_flags(
                            crate::elf::spec_seg_flags(elf_data@, k),
                        )
                &&& forall|k: int, v: u64, j: int|
                    0 <= k < crate::elf::spec_ph_count(elf_data@) && crate::elf::spec_seg_type(
                        elf_data@,
                        k,
                    ) == crate::elf::PT_LOAD && seg_first_page(elf_data@, k) <= v < seg_end_page(
                        elf_data@,
                        k,
                    ) && 0 <= j < 4096 ==> final(mem).page(
                        t.0.translate(v)->Some_0.spec_ppn(),
                    )[j] == #[trigger] seg_byte(elf_data@, k, v, j)
            },
    {
        let mut ms = ms0;
        // guard page, then the user stack
        let user_stack_bottom = max_end_vpn * 4096 + 4096;
        let user_stack_top = user_stack_bottom + crate::config::USER_STACK_SIZE;
        proof {
            assert(max_end_vpn * 4096 <= 0x8000000 * 4096) by (nonlinear_arith)
                requires
                    max_end_vpn <= 0x8000000,
            ;
        }
        let ghost ms_segs = ms;
        let ghost a_segs = *allocator;
        match ms.push(
            MapArea::new(
                VirtAddr::new(user_stack_bottom),
                VirtAddr::new(user_stack_top),
                MapType::Framed,
                MapPermission::from_bits(MAP_R + MAP_W + MAP_U),
            ),
            None,
            allocator,
            mem,
        ) {
            Ok(_) => {},
            Err(e) => {
                proof {
                    lemma_push_chars(pre_a, a_segs, *allocator, ms_segs, ms);
                }
                let ghost ms_val = ms;
                let ghost a_now = *allocator;
                ms.release(allocator);
                proof {
                    lemma_abort_restores(pre_a, a_now, *allocator, ms_val);
                }
                return Err(e);
            },
        }
        proof {
            lemma_push_chars(pre_a, a_segs, *allocator, ms_segs, ms);
        }
        // the trap-context page, kernel-only, just below the trampoline
        let ghost ms_stack = ms;
        let ghost a_stack = *allocator;
        match ms.push(
            MapArea::new(
                VirtAddr::new(crate::config::TRAP_CONTEXT),
                VirtAddr::new(crate::config::TRAMPOLINE),
                MapType::Framed,
                MapPermission::from_bits(MAP_R + MAP_W),
            ),
            None,
            allocator,
            mem,
        ) {
            Ok(_) => {},
            Err(e) => {
                proof {
                    lemma_push_chars(pre_a, a_stack, *allocator, ms_stack, ms);
                }
                let ghost ms_val = ms;
                let ghost a_now = *allocator;
                ms.release(allocator);
                proof {
                    lemma_abort_restores(pre_a, a_now, *allocator, ms_val);
                }
                return Err(e);
            },
        }
        proof {
            lemma_push_chars(pre_a, a_stack, *allocator, ms_stack, ms);
        }
        let entry = crate::elf::elf_entry(elf_data);
        proof {
            let b0 = user_stack_bottom as int;
            let t0 = user_stack_top as int;
            let mv = max_end_vpn as int;
            lemma_fundamental_div_mod_converse(b0, 4096, mv + 1, 0);
            lemma_fundamental_div_mod_converse(t0, 4096, mv + 3, 0);
            lemma_fundamental_div_mod_converse(t0 + 4095, 4096, mv + 3, 4095);
            assert(crate::config::TRAP_CONTEXT % crate::address::VA_LIMIT == 0x7FFFFFE000u64);
            assert(crate::config::TRAMPOLINE % crate::address::VA_LIMIT == 0x7FFFFFF000u64);
            assert(mv + 3 <= VPN_LIMIT - 3);
            assert(t0 < 0x7FFFFFE000) by {
                assert(t0 == (mv + 3) * 4096);
                assert((mv + 3) * 4096 <= (VPN_LIMIT - 3) * 4096) by (nonlinear_arith)
                    requires
                        mv + 3 <= VPN_LIMIT - 3,
                ;
            }
            // the trap-context page
            let tv = (VPN_LIMIT - 2) as u64;
            let na = ms.num_areas() - 1;
            assert(ms.translate(tv) is Some);
            assert(ms.translate(tv)->Some_0.spec_flags() == 7);
            assert(ms.translate(tv)->Some_0.spec_ppn() == ms.area(na).page_ppn(0));
            assert(ms.area(na).frame_count() == 1);
            assert(mem.page(ms.area(na).area_frame(0))[0] == 0);
            assert(mem.is_bytes(ms.area(na).area_frame(0)));
            assert(mem.in_range(ms.area(na).area_frame(0)));
            // the trampoline survives the stack and trap-context pushes
            assert(ms_stack.translate((VPN_LIMIT - 1) as u64) == ms_segs.translate(
                (VPN_LIMIT - 1) as u64,
            ));
            assert(ms.translate((VPN_LIMIT - 1) as u64) == ms_stack.translate(
                (VPN_LIMIT - 1) as u64,
            ));
            // the user stack pages survive the trap-context push
            assert forall|v: u64|
                t0 / 4096 - 2 <= v < t0 / 4096 implies (#[trigger] ms.translate(v)) is Some
                && ms.translate(v)->Some_0.spec_flags() == 23 by {
                assert(v < VPN_LIMIT - 2);
                assert(ms.translate(v) == ms_stack.translate(v));
                assert(mv + 1 <= v < mv + 3);
                assert(ms_stack.translate(v) is Some);
            }
            // the segment pages survive both pushes
            assert forall|k: int|
                0 <= k < crate::elf::spec_ph_count(elf_data@) && crate::elf::spec_seg_type(
                    elf_data@,
                    k,
                ) == crate::elf::PT_LOAD implies forall|v: u64|
                seg_first_page(elf_data@, k) <= v < seg_end_page(elf_data@, k) ==> (
                #[trigger] ms.translate(v)) is Some && ms.translate(v)->Some_0.spec_flags()
                == seg_leaf_flags(crate::elf::spec_seg_flags(elf_data@, k)) by {
                assert forall|v: u64|
                    seg_first_page(elf_data@, k) <= v < seg_end_page(elf_data@, k) implies (
                    #[trigger] ms.translate(v)) is Some && ms.translate(v)->Some_0.spec_flags()
                    == seg_leaf_flags(crate::elf::spec_seg_flags(elf_data@, k)) by {
                    assert(seg_end_page(elf_data@, k) <= mv);
                    assert(v < mv + 1);
                    assert(ms_segs.translate(v) is Some);
                    assert(ms_stack.translate(v) == ms_segs.translate(v));
                    assert(ms.translate(v) == ms_stack.translate(v));
                }
            }
        }

        Ok((ms, user_stack_top))
    }

    /// Builds a task's address space from a 64-bit ELF image: the
    /// trampoline page mapped onto the one kernel trampoline frame, one
    /// framed user-accessible area per loadable segment with the
    /// segment's permissions and bytes, then a guard page, the user
    /// stack, and the trap-context page just below the trampoline.
    /// Returns the space, the initial user stack top and the image
    /// entry point.  An image without the ELF magic or class, with a
    /// malformed header, or whose segments do not fit the 39-bit space
    /// is rejected as invalid; a failed load hands every frame it took
    /// back to the allocator.
    #[verifier::rlimit(100)]
    #[verifier::spinoff_prover]
    pub fn load_elf(
        elf_data: &Vec<u8>,
        trampoline: crate::address::PhysAddr,
        allocator: &mut StackFrameAllocator,
        mem: &mut PhysMemory,
    ) -> (r: Result<(MemorySet, u64, u64), KernelError>)
        requires
            old(allocator).wf(),
            old(mem).wf(),
            old(allocator).spec_start() >= old(mem).spec_base(),
            old(allocator).spec_end() <= old(mem).spec_base() + old(mem).spec_len(),
            trampoline.wf(),
        ensures
            final(allocator).wf(),
            final(mem).wf(),
            final(allocator).spec_start() == old(allocator).spec_start(),
            final(allocator).spec_end() == old(allocator).spec_end(),
            final(mem).spec_base() == old(mem).spec_base(),
            final(mem).spec_len() == old(mem).spec_len(),
            forall|q: u64| old(allocator).live(q) ==> final(allocator).live(q),
            forall|p: u64|
                old(mem).in_range(p) && old(allocator).live(p) ==> #[trigger] final(mem).spec_frame(p)
                    == old(mem).spec_frame(p),
            r == Err::<(MemorySet, u64, u64), KernelError>(KernelError::InvalidElf) <==> !(
            crate::elf::elf_ok(elf_data@) && elf_geometry_ok(elf_data@)),
            r is Err ==> forall|q: u64|
                final(allocator).live(q) == old(allocator).live(q),
            r matches Err(e) ==> e == KernelError::InvalidElf || e == KernelError::AlreadyMapped
                || e == KernelError::FrameExhausted,
            crate::elf::elf_ok(elf_data@) && elf_geometry_ok(elf_data@) && segs_sorted(elf_data@) && old(allocator).free_count() >= elf_budget(elf_data@) ==> r is Ok,
            r matches Ok(t) ==> {
                &&& t.0.wf_frames(*final(allocator))
                &&& final(allocator).free_count() >= old(allocator).free_count() - elf_budget(
                    elf_data@,
                )
                &&& forall|q: u64|
                    t.0.owns(q) ==> !old(allocator).live(q) && final(allocator).live(q)
                &&& forall|q: u64|
                    final(allocator).live(q) && !old(allocator).live(q) ==> t.0.owns(q)
                &&& t.0.owns(t.0.translate((VPN_LIMIT - 2) as u64)->Some_0.spec_ppn())
                &&& t.2 == crate::elf::spec_entry(elf_data@)
                &&& (t.0.translate((VPN_LIMIT - 1) as u64) matches Some(e) && e.spec_ppn()
                    == trampoline.0 / 4096 && e.spec_flags() == 11)
                &&& t.0.translate((VPN_LIMIT - 2) as u64) matches Some(e) && e.spec_flags() == 7
                    && final(mem).is_bytes(e.spec_ppn()) && final(mem).in_range(e.spec_ppn())
                &&& forall|v: u64|
                    t.1 / 4096 - 2 <= v < t.1 / 4096 ==> (#[trigger] t.0.translate(v)) is Some
                        && t.0.translate(v)->Some_0.spec_flags() == 23
                &&& forall|i: int|
                    0 <= i < crate::elf::spec_ph_count(elf_data@) && crate::elf::spec_seg_type(
                        elf_data@,
                        i,
                    ) == crate::elf::PT_LOAD ==> forall|v: u64|
                        seg_first_page(elf_data@, i) <= v < seg_end_page(elf_data@, i) ==> (
                        #[trigger] t.0.translate(v)) is Some && t.0.translate(
                            v,
                        )->Some_0.spec_flags() == seg_leaf_flags(
                            crate::elf::spec_seg_flags(elf_data@, i),
                        )
                &&& forall|i: int, v: u64, j: int|
                    0 <= i < crate::elf::spec_ph_count(elf_data@) && crate::elf::spec_seg_type(
                        elf_data@,
                        i,
                    ) == crate::elf::PT_LOAD && seg_first_page(elf_data@, i) <= v < seg_end_page(
                        elf_data@,
                        i,
                    ) && 0 <= j < 4096 ==> final(mem).page(
                        t.0.translate(v)->Some_0.spec_ppn(),
                    )[j] == #[trigger] seg_byte(elf_data@, i, v, j)
            },
    {
        let ghost free0 = old(allocator).free_count();
        let ghost success_owed = crate::elf::elf_ok(elf_data@) && elf_geometry_ok(elf_data@)
            && segs_sorted(elf_data@) && free0 >= elf_budget(elf_data@);
        proof {
            if success_owed {
                lemma_seg_pages_sum_bound(
                    elf_data@,
                    crate::elf::spec_ph_count(elf_data@) as int,
                    crate::elf::spec_ph_count(elf_data@) as int,
                );
            }
        }
        if !crate::elf::check_elf64(elf_data) {
            return Err(KernelError::InvalidElf);
        }
        if !check_geometry(elf_data) {
            return Err(KernelError::InvalidElf);
        }
        let mut ms = match MemorySet::new_bare(allocator) {
            Ok(ms) => ms,
            Err(e) => {
                proof {
                    if success_owed {
                        assert(false);
                    }
                }
                return Err(e);
            },
        };
        proof {
            assert forall|q: u64|
                ms.owns(q) implies !old(allocator).live(q) && allocator.live(q) by {
                assert(q == ms.pt().spec_root());
                assert(!old(allocator).live(q));
                assert(allocator.live(q));
            }
        }
        // the trampoline page, identically placed in every address space
        let ghost ms_bare = ms;
        let ghost a_bare = *allocator;
        match ms.map_trampoline(trampoline, allocator) {
            Ok(_) => {},
            Err(e) => {
                proof {
                    if success_owed {
                        assert(ms_bare.translate((VPN_LIMIT - 1) as u64) is None);
                        assert(false);
                    }
                    lemma_push_chars(*old(allocator), a_bare, *allocator, ms_bare, ms);
                }
                let ghost ms_val = ms;
                let ghost a_now = *allocator;
                ms.release(allocator);
                proof {
                    lemma_abort_restores(*old(allocator), a_now, *allocator, ms_val);
                }
                return Err(e);
            },
        }
        proof {
            lemma_push_chars(*old(allocator), a_bare, *allocator, ms_bare, ms);
        }
        let (ms2, max_end_vpn) = match MemorySet::map_segments(
            ms,
            elf_data,
            allocator,
            mem,
            Ghost(*old(allocator)),
            Ghost(*old(mem)),
            Ghost(trampoline.0 / 4096),
        ) {
            Ok(t) => t,
            Err(e) => {
                proof {
                    if success_owed {
                        assert(false);
                    }
                }
                return Err(e);
            },
        };
        let mut ms = ms2;
        let ghost tail_budget_ok = success_owed;
        proof {
            if success_owed {
                assert(allocator.free_count() >= 9);
            }
        }
        let (ms3, user_stack_top) = match MemorySet::finish_user_space(
            ms,
            max_end_vpn,
            elf_data,
            allocator,
            mem,
            Ghost(*old(allocator)),
            Ghost(*old(mem)),
            Ghost(trampoline.0 / 4096),
            Ghost(tail_budget_ok),
        ) {
            Ok(t) => t,
            Err(e) => {
                return Err(e);
            },
        };
        let ms = ms3;
        let entry = crate::elf::elf_entry(elf_data);
        Ok((ms, user_stack_top, entry))
    }
}

/// A segment's file bytes fit its page span.
proof fn lemma_seg_fits(vaddr: u64, mem_size: u64, file_size: u64)
    requires
        file_size <= mem_size,
        vaddr + mem_size + 4096 <= crate::address::VA_LIMIT,
    ensures
        file_size <= ((vaddr + mem_size + 4095) / 4096 - vaddr / 4096) * 4096,
{
    let s = vaddr as int;
    let e = vaddr + mem_size;
    vstd::arithmetic::div_mod::lemma_div_is_ordered(s, e as int, 4096);
    assert(s / 4096 * 4096 <= s) by {
        assert(s == (s / 4096) * 4096 + s % 4096);
    }
    assert((e + 4095) / 4096 * 4096 >= e) by {
        let c = (e + 4095) as int / 4096;
        assert((e + 4095) as int == c * 4096 + (e + 4095) as int % 4096);
    }
    assert(((e + 4095) as int / 4096 - s / 4096) * 4096 == (e + 4095) as int / 4096 * 4096 - s
        / 4096 * 4096) by (nonlinear_arith);
}

impl MemorySet {
    /// An address space that maps nothing and owns nothing: the husk an
    /// exited task keeps once its real space has been torn down.
    pub fn new_empty() -> (r: MemorySet)
        ensures
            forall|q: u64| !r.owns(q),
            r.num_areas() == 0,
            forall|v: u64| r.translate(v) is None,
    {
        let r = MemorySet { page_table: PageTable::from_token(0), areas: Vec::new() };
        proof {
            assert forall|q: u64| !r.owns(q) by {
                if r.owns(q) && !r.pt().owns(q) {
                    let k = choose|k: int|
                        0 <= k < r.num_areas() && (#[trigger] r.area(k)).owns(q);
                }
            }
        }
        r
    }
}

/// Any frame a well-accounted space owns is live.
pub proof fn lemma_ms_owns_live(ms: MemorySet, a: StackFrameAllocator, q: u64)
    requires
        ms.wf_frames(a),
        ms.owns(q),
    ensures
        a.live(q),
{
    if ms.pt().owns(q) {
        lemma_owns_live(ms.pt(), a, q);
    } else {
        let k = choose|k: int| 0 <= k < ms.num_areas() && (#[trigger] ms.area(k)).owns(q);
        let i = choose|i: int|
            0 <= i < ms.area(k).frame_count() && #[trigger] ms.area(k).area_frame(i) == q;
        assert(a.live(ms.area(k).area_frame(i)));
    }
}

/// Frame accounting carries over to any allocator state that agrees
/// with the old one on the pages this space owns.
pub proof fn lemma_wf_frames_agree(
    ms: MemorySet,
    a1: StackFrameAllocator,
    a2: StackFrameAllocator,
)
    requires
        ms.wf_frames(a1),
        forall|q: u64| ms.owns(q) ==> a2.live(q) == a1.live(q),
    ensures
        ms.wf_frames(a2),
{
    assert forall|q: u64| ms.pt().owns(q) implies a2.live(q) == a1.live(q) by {
        assert(ms.owns(q));
    }
    lemma_owned_live_mono(ms.pt(), a1, a2);
    assert forall|k: int|
        0 <= k < ms.num_areas() implies (#[trigger] ms.area(k)).frames_live(a2) by {
        assert(ms.area(k).frames_live(a1));
        assert forall|i: int|
            0 <= i < ms.area(k).frame_count() implies a2.live(
            #[trigger] ms.area(k).area_frame(i),
        ) by {
            assert(a1.live(ms.area(k).area_frame(i)));
            assert(ms.area(k).owns(ms.area(k).area_frame(i)));
            assert(ms.owns(ms.area(k).area_frame(i)));
        }
    }
}

} // verus!
