//! SV39 page tables: entry bit layout, the three-level radix tree, and
//! the byte-buffer translation used when the kernel must read user
//! memory.
//!
//! An entry packs a 44-bit physical page number above ten low bits of
//! flags.  A table owns the frames of every internal node it allocates,
//! the root included, and frees none of them until the table is torn
//! down.

use vstd::arithmetic::div_mod::lemma_fundamental_div_mod_converse;
use vstd::prelude::*;

use crate::address::{PhysPageNum, VirtPageNum, PPN_LIMIT, VPN_LIMIT};
use crate::frame_allocator::{frame_alloc, frame_dealloc, FrameTracker, StackFrameAllocator};
use crate::phys_mem::PhysMemory;
use crate::KernelError;

verus! {

/// Valid bit: the entry may be followed or used at all.
pub const PTE_V: u8 = 1;

/// Read permission.
pub const PTE_R: u8 = 2;

/// Write permission.
pub const PTE_W: u8 = 4;

/// Execute permission.
pub const PTE_X: u8 = 8;

/// User-mode access permission.
pub const PTE_U: u8 = 16;

/// Global mapping.
pub const PTE_G: u8 = 32;

/// Accessed bit.
pub const PTE_A: u8 = 64;

/// Dirty bit.
pub const PTE_D: u8 = 128;

/// Whether the flag bit `flag` (a power of two) is set in `bits`.
pub open spec fn flag_set(bits: u8, flag: u8) -> bool
    recommends
        flag == PTE_V || flag == PTE_R || flag == PTE_W || flag == PTE_X || flag == PTE_U
            || flag == PTE_G || flag == PTE_A || flag == PTE_D,
{
    (bits / flag) % 2 == 1
}

/// The eight SV39 page-table-entry flag bits.
#[derive(Clone, Copy, Debug, PartialEq, Eq, Structural)]
pub struct PTEFlags {
    pub bits: u8,
}

impl PTEFlags {
    /// No flags set.
    pub fn empty() -> (r: PTEFlags)
        ensures
            r.bits == 0,
    {
        PTEFlags { bits: 0 }
    }

    /// The flag set encoded by `bits`.
    pub fn from_bits(bits: u8) -> (r: PTEFlags)
        ensures
            r.bits == bits,
    {
        PTEFlags { bits }
    }

    /// The same flags with the valid bit set.
    pub fn with_valid(self) -> (r: PTEFlags)
        ensures
            r.bits == 2 * (self.bits / 2) + 1,
            flag_set(r.bits, PTE_V),
            r.bits / 2 == self.bits / 2,
    {
        if self.bits % 2 == 1 {
            self
        } else {
            PTEFlags { bits: self.bits + 1 }
        }
    }

    /// Whether `flag` is among these flags.
    pub fn contains(self, flag: u8) -> (r: bool)
        requires
            flag > 0,
        ensures
            r == flag_set(self.bits, flag),
    {
        (self.bits / flag) % 2 == 1
    }
}

/// One SV39 page-table entry: a physical page number in bits 10..54 over
/// eight flag bits.
#[derive(Clone, Copy, Debug, PartialEq, Eq, Structural)]
pub struct PageTableEntry {
    pub bits: u64,
}

impl PageTableEntry {
    /// The physical page number this entry points at.
    pub open spec fn spec_ppn(self) -> u64 {
        ((self.bits / 1024) % PPN_LIMIT) as u64
    }

    /// The flag bits of this entry.
    pub open spec fn spec_flags(self) -> u8 {
        (self.bits % 256) as u8
    }

    /// The valid bit is set.
    pub open spec fn valid(self) -> bool {
        self.bits % 2 == 1
    }

    /// Packs a page number and flags into an entry.
    pub fn new(ppn: PhysPageNum, flags: PTEFlags) -> (r: PageTableEntry)
        requires
            ppn.0 < PPN_LIMIT,
        ensures
            r.bits == ppn.0 * 1024 + flags.bits,
            r.spec_ppn() == ppn.0,
            r.spec_flags() == flags.bits,
            r.valid() == flag_set(flags.bits, PTE_V),
    {
        let r = PageTableEntry { bits: ppn.0 * 1024 + flags.bits as u64 };
        proof {
            lemma_pte_encoding(ppn.0, flags.bits);
        }
        r
    }

    /// Clears the entry to all zero bits.
    pub fn empty(&mut self)
        ensures
            final(self).bits == 0,
            !final(self).valid(),
    {
        self.bits = 0;
    }

    /// The physical page number this entry points at.
    pub fn ppn(&self) -> (r: PhysPageNum)
        ensures
            r.0 == self.spec_ppn(),
            r.0 < PPN_LIMIT,
    {
        PhysPageNum((self.bits / 1024) % PPN_LIMIT)
    }

    /// The flag bits of this entry.
    pub fn flags(&self) -> (r: PTEFlags)
        ensures
            r.bits == self.spec_flags(),
    {
        PTEFlags { bits: (self.bits % 256) as u8 }
    }

    /// Overwrites the entry with a page number and flags.
    pub fn set_pte(&mut self, ppn: PhysPageNum, flags: PTEFlags)
        requires
            ppn.0 < PPN_LIMIT,
        ensures
            final(self).bits == ppn.0 * 1024 + flags.bits,
            final(self).spec_ppn() == ppn.0,
            final(self).spec_flags() == flags.bits,
            final(self).valid() == flag_set(flags.bits, PTE_V),
    {
        self.bits = ppn.0 * 1024 + flags.bits as u64;
        proof {
            lemma_pte_encoding(ppn.0, flags.bits);
        }
    }

    /// Clears the entry to all zero bits.
    pub fn clear(&mut self)
        ensures
            final(self).bits == 0,
            !final(self).valid(),
    {
        self.bits = 0;
    }

    /// The valid bit is set.
    pub fn is_valid(&self) -> (r: bool)
        ensures
            r == self.valid(),
            r == flag_set(self.spec_flags(), PTE_V),
    {
        proof {
            lemma_valid_is_flag_v(self.bits);
        }
        self.bits % 2 == 1
    }

    /// The read bit is set.
    pub fn readable(&self) -> (r: bool)
        ensures
            r == flag_set(self.spec_flags(), PTE_R),
    {
        let f = self.flags();
        (f.bits / PTE_R) % 2 == 1
    }

    /// The write bit is set.
    pub fn writable(&self) -> (r: bool)
        ensures
            r == flag_set(self.spec_flags(), PTE_W),
    {
        let f = self.flags();
        (f.bits / PTE_W) % 2 == 1
    }

    /// The execute bit is set.
    pub fn executable(&self) -> (r: bool)
        ensures
            r == flag_set(self.spec_flags(), PTE_X),
    {
        let f = self.flags();
        (f.bits / PTE_X) % 2 == 1
    }
}

/// Decodes the packed form: with flags below 256 and the page number
/// below its 44-bit width, packing and unpacking are inverse.
proof fn lemma_pte_encoding(ppn: u64, flags: u8)
    requires
        ppn < PPN_LIMIT,
    ensures
        (ppn * 1024 + flags) / 1024 == ppn,
        (ppn * 1024 + flags) % 256 == flags,
        ppn % PPN_LIMIT == ppn,
        (ppn * 1024 + flags) % 2 == flags % 2,
{
    let bits = ppn * 1024 + flags;
    lemma_fundamental_div_mod_converse(bits as int, 1024, ppn as int, flags as int);
    lemma_fundamental_div_mod_converse(
        bits as int,
        256,
        ppn as int * 4,
        flags as int,
    );
    lemma_fundamental_div_mod_converse(
        bits as int,
        2,
        ppn as int * 512 + flags as int / 2,
        flags as int % 2,
    );
}

/// The low bit of an entry is the low bit of its flag byte.
proof fn lemma_valid_is_flag_v(bits: u64)
    ensures
        (bits % 2 == 1) == flag_set((bits % 256) as u8, PTE_V),
{
    lemma_fundamental_div_mod_converse(
        bits as int,
        2,
        (bits as int % 256) / 2 + (bits as int / 256) * 128,
        bits as int % 256 % 2,
    );
}


/// Root-level radix index of a virtual page number.
pub open spec fn vpn_i0(v: u64) -> int {
    v as int / 262144
}

/// Middle-level radix index of a virtual page number.
pub open spec fn vpn_i1(v: u64) -> int {
    (v as int / 512) % 512
}

/// Leaf-level radix index of a virtual page number.
pub open spec fn vpn_i2(v: u64) -> int {
    v as int % 512
}

/// A well-formed virtual page number is exactly its three 9-bit indexes.
pub proof fn lemma_vpn_decompose(v: u64)
    requires
        v < VPN_LIMIT,
    ensures
        v as int == vpn_i0(v) * 262144 + vpn_i1(v) * 512 + vpn_i2(v),
        0 <= vpn_i0(v) < 512,
        0 <= vpn_i1(v) < 512,
        0 <= vpn_i2(v) < 512,
{
    let x = v as int;
    vstd::arithmetic::div_mod::lemma_div_denominator(x, 512, 512);
    assert(x == (x / 512) * 512 + x % 512);
    let y = x / 512;
    assert(y == (y / 512) * 512 + y % 512);
    assert(x / 262144 == y / 512);
    assert(x == ((y / 512) * 512 + y % 512) * 512 + x % 512);
    assert(((y / 512) * 512 + y % 512) * 512 == (y / 512) * 262144 + (y % 512) * 512)
        by (nonlinear_arith);
    assert(x / 262144 < 512) by {
        vstd::arithmetic::div_mod::lemma_div_is_ordered(x, 134217727, 262144);
    };
}

/// Two well-formed virtual page numbers with the same three indexes are
/// the same page.
pub proof fn lemma_vpn_unique(v1: u64, v2: u64)
    requires
        v1 < VPN_LIMIT,
        v2 < VPN_LIMIT,
        vpn_i0(v1) == vpn_i0(v2),
        vpn_i1(v1) == vpn_i1(v2),
        vpn_i2(v1) == vpn_i2(v2),
    ensures
        v1 == v2,
{
    lemma_vpn_decompose(v1);
    lemma_vpn_decompose(v2);
}
/// A three-level SV39 page table.
///
/// The table owns one frame per radix-tree node (`frames[i]` backs
/// `nodes[i]`; index 0 is the root).  A pointer entry at the two upper
/// levels carries exactly the valid bit and the physical page number of
/// the child node's frame; leaf entries live in the bottom-level nodes.
/// The ghost index maps record which node each tree position points at,
/// and the well-formedness invariant ties them to the entry bits, so
/// that every hardware walk of the stored bit patterns agrees with
/// `walk`.
pub struct PageTable {
    root_ppn: PhysPageNum,
    frames: Vec<FrameTracker>,
    nodes: Vec<Vec<PageTableEntry>>,
    l1_map: Ghost<Map<int, int>>,
    l2_map: Ghost<Map<(int, int), int>>,
}

impl PageTable {
    /// Physical page number of the root node's frame.
    pub closed spec fn spec_root(self) -> u64 {
        self.root_ppn.0
    }

    /// Number of owned node frames.
    pub closed spec fn num_nodes(self) -> int {
        self.nodes@.len() as int
    }

    /// The entries of node `i`.
    closed spec fn node(self, i: int) -> Seq<PageTableEntry> {
        self.nodes@[i]@
    }

    /// Physical page number of the frame backing node `i`.
    closed spec fn node_ppn(self, i: int) -> u64 {
        self.frames@[i].ppn.0
    }

    /// The table owns the frame at page `p`.
    pub closed spec fn owns(self, p: u64) -> bool {
        exists|i: int| 0 <= i < self.frames@.len() && #[trigger] self.frames@[i].ppn.0 == p
    }

    /// Every owned node frame is live in allocator `a`.
    pub closed spec fn owned_live(self, a: StackFrameAllocator) -> bool {
        forall|i: int| 0 <= i < self.frames@.len() ==> a.live(#[trigger] self.frames@[i].ppn.0)
    }

    /// The root-level ghost index.
    closed spec fn l1(self) -> Map<int, int> {
        self.l1_map@
    }

    /// The middle-level ghost index.
    closed spec fn l2(self) -> Map<(int, int), int> {
        self.l2_map@
    }

    /// Shape: one frame per node, the root at index 0, every node a full
    /// 512 entries, all frame page numbers distinct and within width.
    closed spec fn inv_basic(self) -> bool {
        &&& self.frames@.len() == self.nodes@.len()
        &&& self.nodes@.len() >= 1
        &&& self.root_ppn.0 == self.node_ppn(0)
        &&& forall|i: int| 0 <= i < self.num_nodes() ==> #[trigger] self.node_ppn(i) < PPN_LIMIT
        &&& forall|i: int| 0 <= i < self.num_nodes() ==> (#[trigger] self.node(i)).len() == 512
        &&& forall|i: int, j: int|
            0 <= i < j < self.num_nodes() ==> #[trigger] self.node_ppn(i) != #[trigger] self.node_ppn(j)
    }

    /// Root entries: a root slot is valid exactly when the ghost index
    /// knows a child for it, and then the entry holds that child's frame
    /// number with only the valid bit set.
    closed spec fn inv_l1(self) -> bool {
        &&& forall|i0: int|
            #[trigger] self.l1().dom().contains(i0) ==> 0 <= i0 < 512 && 1 <= self.l1()[i0]
                < self.num_nodes()
        &&& forall|i0: int|
            0 <= i0 < 512 ==> ((#[trigger] self.node(0)[i0]).valid() <==> self.l1().dom().contains(
                i0,
            ))
        &&& forall|i0: int|
            #[trigger] self.l1().dom().contains(i0) ==> self.node(0)[i0].spec_ppn()
                == self.node_ppn(self.l1()[i0]) && self.node(0)[i0].spec_flags() == PTE_V
    }

    /// Middle-level entries, in the same shape as the root entries.
    closed spec fn inv_l2(self) -> bool {
        &&& forall|pr: (int, int)|
            #[trigger] self.l2().dom().contains(pr) ==> self.l1().dom().contains(pr.0) && 0 <= pr.1
                < 512 && 1 <= self.l2()[pr] < self.num_nodes()
        &&& forall|i0: int, i1: int|
            self.l1().dom().contains(i0) && 0 <= i1 < 512 ==> ((#[trigger] self.node(
                self.l1()[i0],
            )[i1]).valid() <==> self.l2().dom().contains((i0, i1)))
        &&& forall|pr: (int, int)|
            #[trigger] self.l2().dom().contains(pr) ==> self.node(self.l1()[pr.0])[pr.1].spec_ppn()
                == self.node_ppn(self.l2()[pr]) && self.node(self.l1()[pr.0])[pr.1].spec_flags()
                == PTE_V
    }

    /// No node is reachable twice: distinct tree positions point at
    /// distinct nodes, and no position points at the root.
    closed spec fn inv_inj(self) -> bool {
        &&& forall|a: int, b: int|
            #[trigger] self.l1().dom().contains(a) && #[trigger] self.l1().dom().contains(b) && a
                != b ==> self.l1()[a] != self.l1()[b]
        &&& forall|pa: (int, int), pb: (int, int)|
            #[trigger] self.l2().dom().contains(pa) && #[trigger] self.l2().dom().contains(pb)
                && pa != pb ==> self.l2()[pa] != self.l2()[pb]
        &&& forall|a: int, pb: (int, int)|
            #[trigger] self.l1().dom().contains(a) && #[trigger] self.l2().dom().contains(pb)
                ==> self.l1()[a] != self.l2()[pb]
    }

    /// The table is a well-formed radix tree.
    pub closed spec fn wf(self) -> bool {
        &&& self.inv_basic()
        &&& self.inv_l1()
        &&& self.inv_l2()
        &&& self.inv_inj()
    }

    /// The three-level walk of virtual page `v`: the leaf entry reached
    /// through valid pointer entries, if it is itself valid.
    pub closed spec fn walk(self, v: u64) -> Option<PageTableEntry> {
        let i0 = vpn_i0(v);
        let i1 = vpn_i1(v);
        let i2 = vpn_i2(v);
        if self.l1().dom().contains(i0) && self.l2().dom().contains((i0, i1)) {
            let e = self.node(self.l2()[(i0, i1)])[i2];
            if e.valid() {
                Some(e)
            } else {
                None
            }
        } else {
            None
        }
    }

    /// Builds an empty table rooted at one freshly allocated frame.
    pub fn new(allocator: &mut StackFrameAllocator) -> (r: Result<PageTable, KernelError>)
        requires
            old(allocator).wf(),
        ensures
            final(allocator).wf(),
            final(allocator).spec_start() == old(allocator).spec_start(),
            final(allocator).spec_end() == old(allocator).spec_end(),
            r matches Err(e) ==> e == KernelError::FrameExhausted && old(allocator).exhausted()
                && StackFrameAllocator::state_eq(*old(allocator), *final(allocator)),
            r matches Ok(pt) ==> {
                &&& pt.wf()
                &&& final(allocator).free_count() == old(allocator).free_count() - 1
                &&& forall|v: u64| pt.walk(v) is None
                &&& !old(allocator).live(pt.spec_root())
                &&& final(allocator).live(pt.spec_root())
                &&& forall|q: u64|
                    q != pt.spec_root() ==> final(allocator).live(q) == old(allocator).live(q)
                &&& forall|q: u64| pt.owns(q) <==> q == pt.spec_root()
                &&& pt.owned_live(*final(allocator))
                &&& pt.num_nodes() == 1
            },
            !old(allocator).exhausted() ==> r is Ok,
    {
        match frame_alloc(allocator) {
            None => Err(KernelError::FrameExhausted),
            Some(tracker) => {
                let root_ppn = tracker.ppn;
                let mut frames: Vec<FrameTracker> = Vec::new();
                let mut nodes: Vec<Vec<PageTableEntry>> = Vec::new();
                frames.push(tracker);
                nodes.push(empty_node());
                let pt = PageTable {
                    root_ppn,
                    frames,
                    nodes,
                    l1_map: Ghost(Map::empty()),
                    l2_map: Ghost(Map::empty()),
                };
                proof {
                    assert forall|q: u64| pt.owns(q) implies q == pt.spec_root() by {}
                    assert(pt.owns(pt.spec_root())) by {
                        assert(pt.frames@[0].ppn.0 == pt.spec_root());
                    }
                    assert forall|v: u64| pt.walk(v) is None by {
                        assert(!pt.l1().dom().contains(vpn_i0(v)));
                    }
                }
                Ok(pt)
            },
        }
    }

    /// Looks up which owned node frame, if any, sits at page `ppn`.
    fn find_node(&self, ppn: PhysPageNum) -> (r: Option<usize>)
        ensures
            r matches Some(i) ==> i < self.frames@.len() && self.frames@[i as int].ppn.0 == ppn.0,
            r is None ==> forall|i: int|
                0 <= i < self.frames@.len() ==> #[trigger] self.frames@[i].ppn.0 != ppn.0,
    {
        let mut i: usize = 0;
        while i < self.frames.len()
            invariant
                i <= self.frames@.len(),
                forall|j: int| 0 <= j < i ==> #[trigger] self.frames@[j].ppn.0 != ppn.0,
            decreases self.frames@.len() - i,
        {
            if self.frames[i].ppn.0 == ppn.0 {
                return Some(i);
            }
            i = i + 1;
        }
        None
    }

    /// Walks the tree to the leaf entry of `vpn`, failing where any
    /// level, the leaf included, is invalid.
    pub fn find_pte(&self, vpn: VirtPageNum) -> (r: Result<PageTableEntry, KernelError>)
        requires
            self.wf(),
            vpn.0 < VPN_LIMIT,
        ensures
            r matches Ok(e) ==> self.walk(vpn.0) == Some(e),
            r matches Err(e) ==> e == KernelError::NotMapped && self.walk(vpn.0) is None,
    {
        let idx = vpn.indexes();
        let ghost i0 = idx[0] as int;
        let ghost i1 = idx[1] as int;
        let ghost i2 = idx[2] as int;
        proof {
            assert(i0 == vpn_i0(vpn.0));
            assert(i1 == vpn_i1(vpn.0));
            assert(i2 == vpn_i2(vpn.0));
        }
        proof {
            assert(self.node(0).len() == 512);
        }
        let e0 = self.nodes[0][idx[0]];
        proof {
            assert(e0 == self.node(0)[i0]);
        }
        if !e0.is_valid() {
            return Err(KernelError::NotMapped);
        }
        proof {
            assert(self.l1().dom().contains(i0));
            assert(e0.spec_ppn() == self.node_ppn(self.l1()[i0]));
        }
        let n1 = match self.find_node(e0.ppn()) {
            Some(n) => n,
            None => {
                proof {
                    assert(self.frames@[self.l1()[i0]].ppn.0 == e0.spec_ppn());
                    assert(false);
                }
                return Err(KernelError::NotMapped);
            },
        };
        proof {
            lemma_node_index_unique(*self, n1 as int, self.l1()[i0]);
            assert(self.node(n1 as int).len() == 512);
        }
        let e1 = self.nodes[n1][idx[1]];
        proof {
            assert(e1 == self.node(self.l1()[i0])[i1]);
        }
        if !e1.is_valid() {
            return Err(KernelError::NotMapped);
        }
        proof {
            assert(self.l2().dom().contains((i0, i1)));
            assert(e1.spec_ppn() == self.node_ppn(self.l2()[(i0, i1)]));
        }
        let n2 = match self.find_node(e1.ppn()) {
            Some(n) => n,
            None => {
                proof {
                    assert(self.frames@[self.l2()[(i0, i1)]].ppn.0 == e1.spec_ppn());
                    assert(false);
                }
                return Err(KernelError::NotMapped);
            },
        };
        proof {
            lemma_node_index_unique(*self, n2 as int, self.l2()[(i0, i1)]);
            assert(self.node(n2 as int).len() == 512);
        }
        let e2 = self.nodes[n2][idx[2]];
        proof {
            assert(e2 == self.node(self.l2()[(i0, i1)])[i2]);
        }
        if e2.is_valid() {
            Ok(e2)
        } else {
            Err(KernelError::NotMapped)
        }
    }

    /// The leaf entry mapped for `vpn`, failing where none is mapped.
    pub fn get_pte(&self, vpn: VirtPageNum) -> (r: Result<PageTableEntry, KernelError>)
        requires
            self.wf(),
            vpn.0 < VPN_LIMIT,
        ensures
            r matches Ok(e) ==> self.walk(vpn.0) == Some(e),
            r matches Err(e) ==> e == KernelError::NotMapped && self.walk(vpn.0) is None,
    {
        self.find_pte(vpn)
    }

    /// The architecture token activating this table: SV39 mode over the
    /// root frame number.
    pub fn token(&self) -> (r: u64)
        requires
            self.wf(),
        ensures
            r == 0x8000_0000_0000_0000u64 + self.spec_root(),
    {
        proof {
            assert(self.node_ppn(0) < PPN_LIMIT);
        }
        0x8000_0000_0000_0000u64 + self.root_ppn.0
    }

    /// Reads the root frame number out of an SV39 token.  The result
    /// owns no frames and maps nothing; walking memory built by another
    /// table goes through that table itself.
    pub fn from_token(satp: u64) -> (r: PageTable)
        ensures
            r.spec_root() == satp % 0x1000_0000_0000,
            forall|q: u64| !r.owns(q),
            forall|v: u64| r.walk(v) is None,
    {
        PageTable {
            root_ppn: PhysPageNum(satp % 0x1000_0000_0000),
            frames: Vec::new(),
            nodes: Vec::new(),
            l1_map: Ghost(Map::empty()),
            l2_map: Ghost(Map::empty()),
        }
    }
}

/// Facts inv_l2 gives about one recorded middle-level pair.
proof fn use_l2_entry(pt: PageTable, pr: (int, int))
    requires
        pt.inv_l2(),
        pt.l2().dom().contains(pr),
    ensures
        pt.l1().dom().contains(pr.0),
        0 <= pr.1 < 512,
        1 <= pt.l2()[pr] < pt.num_nodes(),
{
    let x = pt.l2()[pr];
}

/// An owned frame of a table whose frames are all live is live.
pub proof fn lemma_owns_live(pt: PageTable, a: StackFrameAllocator, q: u64)
    requires
        pt.owned_live(a),
        pt.owns(q),
    ensures
        a.live(q),
{
    let i = choose|i: int| 0 <= i < pt.frames@.len() && #[trigger] pt.frames@[i].ppn.0 == q;
    assert(a.live(pt.frames@[i].ppn.0));
}

/// Frame liveness of a table carries over to an allocator state that
/// keeps every live page live.
pub proof fn lemma_owned_live_preserved(
    pt: PageTable,
    a1: StackFrameAllocator,
    a2: StackFrameAllocator,
)
    requires
        pt.owned_live(a1),
        forall|q: u64| a1.live(q) ==> a2.live(q),
    ensures
        pt.owned_live(a2),
{
    assert forall|i: int| 0 <= i < pt.frames@.len() implies a2.live(
        #[trigger] pt.frames@[i].ppn.0,
    ) by {
        assert(a1.live(pt.frames@[i].ppn.0));
    }
}

/// Frame liveness of a table carries over to any allocator state that
/// agrees with the old one on the table's own frames.
pub proof fn lemma_owned_live_mono(
    pt: PageTable,
    a1: StackFrameAllocator,
    a2: StackFrameAllocator,
)
    requires
        pt.owned_live(a1),
        forall|q: u64| pt.owns(q) ==> a2.live(q) == a1.live(q),
    ensures
        pt.owned_live(a2),
{
    assert forall|i: int| 0 <= i < pt.frames@.len() implies a2.live(
        #[trigger] pt.frames@[i].ppn.0,
    ) by {
        assert(pt.owns(pt.frames@[i].ppn.0));
        assert(a1.live(pt.frames@[i].ppn.0));
    }
}

/// Two owned frames with one page number are one frame.
proof fn lemma_node_index_unique(pt: PageTable, i: int, j: int)
    requires
        pt.inv_basic(),
        0 <= i < pt.num_nodes(),
        0 <= j < pt.num_nodes(),
        pt.node_ppn(i) == pt.node_ppn(j),
    ensures
        i == j,
{
}

/// A fresh node: 512 cleared entries.
fn empty_node() -> (r: Vec<PageTableEntry>)
    ensures
        r@.len() == 512,
        forall|k: int| 0 <= k < 512 ==> (#[trigger] r@[k]).bits == 0 && !r@[k].valid(),
{
    let mut v: Vec<PageTableEntry> = Vec::new();
    let mut i: usize = 0;
    while i < 512
        invariant
            i <= 512,
            v@.len() == i,
            forall|k: int| 0 <= k < i ==> (#[trigger] v@[k]).bits == 0,
        decreases 512 - i,
    {
        v.push(PageTableEntry { bits: 0 });
        i = i + 1;
    }
    v
}

/// How a table and the allocator may change together while the table
/// grows: the allocator keeps its range, every live page stays live, and
/// the pages that became live are exactly the frames the table newly
/// owns.
pub open spec fn table_alloc_transition(
    pre: PageTable,
    post: PageTable,
    pre_a: StackFrameAllocator,
    post_a: StackFrameAllocator,
    spent: int,
) -> bool {
    &&& post_a.wf()
    &&& post_a.spec_start() == pre_a.spec_start()
    &&& post_a.spec_end() == pre_a.spec_end()
    &&& post_a.free_count() >= pre_a.free_count() - spent
    &&& forall|q: u64| pre_a.live(q) ==> post_a.live(q)
    &&& forall|q: u64| pre_pt_owns(pre, q) ==> pre_pt_owns(post, q)
    &&& forall|q: u64|
        post_a.live(q) && !pre_a.live(q) ==> pre_pt_owns(post, q) && !pre_pt_owns(pre, q)
    &&& forall|q: u64|
        pre_pt_owns(post, q) && !pre_pt_owns(pre, q) ==> !pre_a.live(q) && post_a.live(q)
    &&& post.spec_root() == pre.spec_root()
}

/// The table owns frame `q` (a trigger-friendly alias).
pub open spec fn pre_pt_owns(pt: PageTable, q: u64) -> bool {
    pt.owns(q)
}

impl PageTable {
    /// Makes sure the root has a child node at slot `i0`, allocating one
    /// if the slot is invalid, and returns that child's node index.
    fn child_at_root(&mut self, allocator: &mut StackFrameAllocator, i0x: usize) -> (r: Result<
        usize,
        KernelError,
    >)
        requires
            old(self).wf(),
            old(allocator).wf(),
            old(self).owned_live(*old(allocator)),
            i0x < 512,
        ensures
            final(self).wf(),
            final(self).owned_live(*final(allocator)),
            table_alloc_transition(
                *old(self),
                *final(self),
                *old(allocator),
                *final(allocator),
                1,
            ),
            forall|v: u64| final(self).walk(v) == old(self).walk(v),
            final(self).l2() == old(self).l2(),
            r matches Ok(n) ==> {
                &&& final(self).l1().dom().contains(i0x as int)
                &&& final(self).l1()[i0x as int] == n as int
                &&& n < final(self).num_nodes()
                &&& forall|j: int|
                    j != i0x as int ==> (final(self).l1().dom().contains(j) == old(
                        self,
                    ).l1().dom().contains(j)) && (old(self).l1().dom().contains(j)
                        ==> final(self).l1()[j] == old(self).l1()[j])
            },
            r matches Err(e) ==> e == KernelError::FrameExhausted && old(allocator).exhausted()
                && old(allocator).free_count() == 0 && StackFrameAllocator::state_eq(
                *old(allocator),
                *final(allocator),
            ) && final(allocator).exhausted(),
            !old(allocator).exhausted() || old(self).l1().dom().contains(i0x as int) ==> r is Ok,
    {
        let ghost i0 = i0x as int;
        let ghost pre = *self;
        let ghost pre_a = *old(allocator);
        proof {
            assert(self.node(0).len() == 512);
        }
        let e0 = self.nodes[0][i0x];
        proof {
            assert(e0 == self.node(0)[i0]);
        }
        if e0.is_valid() {
            proof {
                assert(self.l1().dom().contains(i0));
                assert(e0.spec_ppn() == self.node_ppn(self.l1()[i0]));
            }
            let n = match self.find_node(e0.ppn()) {
                Some(n) => n,
                None => {
                    proof {
                        assert(self.frames@[self.l1()[i0]].ppn.0 == e0.spec_ppn());
                        assert(false);
                    }
                    return Err(KernelError::NotMapped);
                },
            };
            proof {
                lemma_node_index_unique(*self, n as int, self.l1()[i0]);
            }
            return Ok(n);
        }
        // the slot is invalid: allocate and link a fresh node
        let tracker = match frame_alloc(allocator) {
            None => {
                proof {
                    assert(pre_a.free_count() == 0);
                }
                return Err(KernelError::FrameExhausted);
            },
            Some(t) => t,
        };
        let child = tracker.ppn;
        proof {
            assert forall|i: int| 0 <= i < self.frames@.len() implies #[trigger] self.frames@[i].ppn.0
                != child.0 by {
                assert(pre_a.live(self.frames@[i].ppn.0));
            }
        }
        let n = self.nodes.len();
        self.nodes.push(empty_node());
        self.frames.push(tracker);
        let pte = PageTableEntry::new(child, PTEFlags::from_bits(PTE_V));
        proof {
            assert(self.nodes@[0]@.len() == 512);
        }
        self.nodes[0][i0x] = pte;
        self.l1_map = Ghost(self.l1_map@.insert(i0, n as int));
        proof {
            let post = *self;
            let nn = n as int;
            assert(pre.wf());
            assert(post.l2() == pre.l2());
            assert(post.l1() == pre.l1().insert(i0, nn));
            assert(post.l2().dom() == pre.l2().dom());
            // frame bookkeeping
            assert(post.frames@.len() == pre.frames@.len() + 1);
            assert(post.nodes@.len() == pre.nodes@.len() + 1);
            assert forall|i: int| 0 <= i < pre.frames@.len() implies post.node_ppn(i)
                == pre.node_ppn(i) by {}
            assert(post.node_ppn(nn) == child.0);
            assert forall|i: int| 0 <= i < pre.nodes@.len() && i != 0 implies post.node(i)
                == pre.node(i) by {}
            assert(post.node(0) == pre.node(0).update(i0, pte));
            assert(post.node(nn).len() == 512);
            assert forall|k: int| 0 <= k < 512 implies !(#[trigger] post.node(nn)[k]).valid() by {}
            // no l2 pair sits under i0
            assert forall|j1: int| !pre.l2().dom().contains((i0, j1)) by {
                if pre.l2().dom().contains((i0, j1)) {
                    assert(1 <= pre.l2()[(i0, j1)]);
                    assert(pre.l1().dom().contains(i0));
                }
            }
            // invariants
            assert(post.inv_basic());
            assert forall|j0: int|
                post.l1().dom().contains(j0) implies 0 <= j0 < 512 && 1 <= #[trigger] post.l1()[j0]
                < post.num_nodes() by {
                if j0 == i0 {
                    assert(post.l1()[j0] == nn);
                } else {
                    assert(pre.l1().dom().contains(j0));
                    assert(post.l1()[j0] == pre.l1()[j0]);
                    assert(1 <= pre.l1()[j0] < pre.num_nodes());
                }
            }
            assert forall|j0: int|
                0 <= j0 < 512 implies ((#[trigger] post.node(0)[j0]).valid()
                <==> post.l1().dom().contains(j0)) by {
                assert(pre.node(0).len() == 512);
                if j0 == i0 {
                    assert(post.node(0)[j0] == pte);
                } else {
                    assert(post.node(0)[j0] == pre.node(0)[j0]);
                }
            }
            assert forall|j0: int|
                post.l1().dom().contains(j0) implies (#[trigger] post.node(0)[j0]).spec_ppn()
                == post.node_ppn(post.l1()[j0]) && post.node(0)[j0].spec_flags() == PTE_V by {
                if j0 != i0 {
                    assert(pre.l1().dom().contains(j0));
                    assert(post.node(0)[j0] == pre.node(0)[j0]);
                    assert(post.l1()[j0] == pre.l1()[j0]);
                }
            }
            assert(post.inv_l1());
            assert forall|pr: (int, int)|
                post.l2().dom().contains(pr) implies post.l1().dom().contains(pr.0) && 0 <= pr.1
                < 512 && 1 <= #[trigger] post.l2()[pr] < post.num_nodes() by {
                assert(pre.l2().dom().contains(pr));
                use_l2_entry(pre, pr);
            }
            assert forall|j0: int, j1: int|
                post.l1().dom().contains(j0) && 0 <= j1 < 512 implies ((#[trigger] post.node(
                post.l1()[j0],
            )[j1]).valid() <==> post.l2().dom().contains((j0, j1))) by {
                if j0 == i0 {
                    assert(post.l1()[j0] == nn);
                    assert(!post.node(nn)[j1].valid());
                } else {
                    assert(pre.l1().dom().contains(j0));
                    assert(post.l1()[j0] == pre.l1()[j0]);
                    assert(1 <= pre.l1()[j0] < pre.num_nodes());
                    assert(post.node(pre.l1()[j0]) == pre.node(pre.l1()[j0]));
                }
            }
            assert forall|pr: (int, int)|
                post.l2().dom().contains(pr) implies (#[trigger] post.node(
                post.l1()[pr.0],
            )[pr.1]).spec_ppn() == post.node_ppn(post.l2()[pr]) && post.node(
                post.l1()[pr.0],
            )[pr.1].spec_flags() == PTE_V by {
                assert(pre.l1().dom().contains(pr.0));
                assert(pr.0 != i0);
                assert(post.l1()[pr.0] == pre.l1()[pr.0]);
                assert(post.node(pre.l1()[pr.0]) == pre.node(pre.l1()[pr.0]));
                assert(post.node_ppn(post.l2()[pr]) == pre.node_ppn(pre.l2()[pr]));
            }
            assert(post.inv_l2());
            assert forall|a: int, b: int|
                post.l1().dom().contains(a) && post.l1().dom().contains(b) && a != b implies #[trigger] post.l1()[a]
                != #[trigger] post.l1()[b] by {
                if a != i0 && b != i0 {
                    assert(pre.l1().dom().contains(a) && pre.l1().dom().contains(b));
                } else if a == i0 {
                    assert(pre.l1().dom().contains(b));
                    assert(pre.l1()[b] < pre.num_nodes());
                } else {
                    assert(pre.l1().dom().contains(a));
                    assert(pre.l1()[a] < pre.num_nodes());
                }
            }
            assert forall|a: int, pb: (int, int)|
                post.l1().dom().contains(a) && post.l2().dom().contains(pb) implies #[trigger] post.l1()[a]
                != #[trigger] post.l2()[pb] by {
                assert(pre.l2().dom().contains(pb));
                assert(pre.l2()[pb] < pre.num_nodes());
                if a != i0 {
                    assert(pre.l1().dom().contains(a));
                }
            }
            assert(post.inv_inj());
            assert(post.wf());
            // walks unchanged
            assert forall|v: u64| post.walk(v) == pre.walk(v) by {
                let j0 = vpn_i0(v);
                let j1 = vpn_i1(v);
                if j0 == i0 {
                    assert(!pre.l1().dom().contains(i0));
                    assert(!pre.l2().dom().contains((i0, j1)));
                    assert(pre.walk(v) is None);
                    assert(post.walk(v) is None);
                } else {
                    assert(post.l1().dom().contains(j0) == pre.l1().dom().contains(j0));
                    if pre.l1().dom().contains(j0) && pre.l2().dom().contains((j0, j1)) {
                        let m = pre.l2()[(j0, j1)];
                        assert(1 <= m < pre.num_nodes());
                        assert(post.node(m) == pre.node(m));
                    }
                }
            }
            // ownership
            assert forall|q: u64| pre.owns(q) implies post.owns(q) by {
                let i = choose|i: int|
                    0 <= i < pre.frames@.len() && #[trigger] pre.frames@[i].ppn.0 == q;
                assert(post.frames@[i].ppn.0 == q);
            }
            assert forall|q: u64| post.owns(q) && !pre.owns(q) implies q == child.0 by {
                let i = choose|i: int|
                    0 <= i < post.frames@.len() && #[trigger] post.frames@[i].ppn.0 == q;
                if i < pre.frames@.len() {
                    assert(pre.frames@[i].ppn.0 == q);
                }
            }
            assert(post.owns(child.0)) by {
                assert(post.frames@[nn].ppn.0 == child.0);
            }
            assert forall|i: int| 0 <= i < post.frames@.len() implies final(allocator).live(
                #[trigger] post.frames@[i].ppn.0,
            ) by {
                if i < pre.frames@.len() {
                    assert(pre_a.live(pre.frames@[i].ppn.0));
                }
            }
            assert(!pre.owns(child.0)) by {
                if pre.owns(child.0) {
                    let i = choose|i: int|
                        0 <= i < pre.frames@.len() && #[trigger] pre.frames@[i].ppn.0 == child.0;
                    assert(pre_a.live(pre.frames@[i].ppn.0));
                }
            }
            assert forall|q: u64| final(allocator).live(q) && !pre_a.live(q) implies pre_pt_owns(
                post,
                q,
            ) && !pre_pt_owns(pre, q) by {
                assert(q == child.0);
            }
            assert forall|q: u64|
                pre_pt_owns(post, q) && !pre_pt_owns(pre, q) implies !pre_a.live(q)
                && final(allocator).live(q) by {
                assert(q == child.0);
            }
            assert forall|q: u64| pre_pt_owns(pre, q) implies pre_pt_owns(post, q) by {}
            assert forall|q: u64| pre_a.live(q) implies final(allocator).live(q) by {}
            assert(final(allocator).wf());
            assert(final(allocator).spec_start() == pre_a.spec_start());
            assert(final(allocator).spec_end() == pre_a.spec_end());
            assert(final(allocator).free_count() >= pre_a.free_count() - 1);
            assert(post.spec_root() == pre.spec_root());
            assert(table_alloc_transition(pre, post, pre_a, *final(allocator), 1));
        }
        Ok(n)
    }
}

impl PageTable {
    /// Makes sure node `n1x` (the child of root slot `i0`) has a child at
    /// slot `i1x`, allocating one if that slot is invalid, and returns
    /// the child's node index.
    fn child_at_l1(
        &mut self,
        allocator: &mut StackFrameAllocator,
        n1x: usize,
        i1x: usize,
        Ghost(i0): Ghost<int>,
    ) -> (r: Result<usize, KernelError>)
        requires
            old(self).wf(),
            old(allocator).wf(),
            old(self).owned_live(*old(allocator)),
            old(self).l1().dom().contains(i0),
            old(self).l1()[i0] == n1x as int,
            i1x < 512,
        ensures
            final(self).wf(),
            final(self).owned_live(*final(allocator)),
            table_alloc_transition(
                *old(self),
                *final(self),
                *old(allocator),
                *final(allocator),
                1,
            ),
            forall|v: u64| final(self).walk(v) == old(self).walk(v),
            final(self).l1() == old(self).l1(),
            r matches Ok(n) ==> {
                &&& final(self).l2().dom().contains((i0, i1x as int))
                &&& final(self).l2()[(i0, i1x as int)] == n as int
                &&& n < final(self).num_nodes()
            },
            r matches Err(e) ==> e == KernelError::FrameExhausted && old(allocator).exhausted()
                && old(allocator).free_count() == 0 && StackFrameAllocator::state_eq(
                *old(allocator),
                *final(allocator),
            ) && final(allocator).exhausted(),
            !old(allocator).exhausted() || old(self).l2().dom().contains((i0, i1x as int))
                ==> r is Ok,
    {
        let ghost i1 = i1x as int;
        let ghost pre = *self;
        let ghost pre_a = *old(allocator);
        proof {
            assert(1 <= (n1x as int) && (n1x as int) < self.num_nodes());
            assert(self.node(n1x as int).len() == 512);
        }
        let e1 = self.nodes[n1x][i1x];
        proof {
            assert(e1 == self.node(self.l1()[i0])[i1]);
        }
        if e1.is_valid() {
            proof {
                assert(self.l2().dom().contains((i0, i1)));
                use_l2_entry(*self, (i0, i1));
                assert(e1.spec_ppn() == self.node_ppn(self.l2()[(i0, i1)]));
            }
            let n = match self.find_node(e1.ppn()) {
                Some(n) => n,
                None => {
                    proof {
                        assert(self.frames@[self.l2()[(i0, i1)]].ppn.0 == e1.spec_ppn());
                        assert(false);
                    }
                    return Err(KernelError::NotMapped);
                },
            };
            proof {
                lemma_node_index_unique(*self, n as int, self.l2()[(i0, i1)]);
            }
            return Ok(n);
        }
        proof {
            assert(!self.l2().dom().contains((i0, i1)));
        }
        let tracker = match frame_alloc(allocator) {
            None => {
                proof {
                    assert(pre_a.free_count() == 0);
                }
                return Err(KernelError::FrameExhausted);
            },
            Some(t) => t,
        };
        let child = tracker.ppn;
        proof {
            assert forall|i: int| 0 <= i < self.frames@.len() implies #[trigger] self.frames@[i].ppn.0
                != child.0 by {
                assert(pre_a.live(self.frames@[i].ppn.0));
            }
        }
        let n = self.nodes.len();
        self.nodes.push(empty_node());
        self.frames.push(tracker);
        let pte = PageTableEntry::new(child, PTEFlags::from_bits(PTE_V));
        proof {
            assert(self.nodes@[n1x as int]@.len() == 512);
        }
        self.nodes[n1x][i1x] = pte;
        self.l2_map = Ghost(self.l2_map@.insert((i0, i1), n as int));
        proof {
            let post = *self;
            let nn = n as int;
            let n1 = n1x as int;
            assert(pre.wf());
            assert(post.l1() == pre.l1());
            assert(post.l2() == pre.l2().insert((i0, i1), nn));
            assert(post.frames@.len() == pre.frames@.len() + 1);
            assert(post.nodes@.len() == pre.nodes@.len() + 1);
            assert forall|i: int| 0 <= i < pre.frames@.len() implies post.node_ppn(i)
                == pre.node_ppn(i) by {}
            assert(post.node_ppn(nn) == child.0);
            assert forall|i: int| 0 <= i < pre.nodes@.len() && i != n1 implies post.node(i)
                == pre.node(i) by {}
            assert(post.node(n1) == pre.node(n1).update(i1, pte));
            assert(post.node(nn).len() == 512);
            assert forall|k: int| 0 <= k < 512 implies !(#[trigger] post.node(nn)[k]).valid() by {}
            assert(post.inv_basic());
            // inv_l1: the root node is untouched
            assert(post.node(0) == pre.node(0));
            assert forall|j0: int|
                #[trigger] post.l1().dom().contains(j0) implies 0 <= j0 < 512 && 1
                <= post.l1()[j0] < post.num_nodes() by {
                assert(pre.l1().dom().contains(j0));
            }
            assert(post.inv_l1());
            // inv_l2 clause 1
            assert forall|pr: (int, int)|
                #[trigger] post.l2().dom().contains(pr) implies post.l1().dom().contains(pr.0) && 0
                <= pr.1 < 512 && 1 <= post.l2()[pr] < post.num_nodes() by {
                if pr != (i0, i1) {
                    assert(pre.l2().dom().contains(pr));
                    use_l2_entry(pre, pr);
                }
            }
            // inv_l2 clause 2
            assert forall|j0: int, j1: int|
                post.l1().dom().contains(j0) && 0 <= j1 < 512 implies ((#[trigger] post.node(
                post.l1()[j0],
            )[j1]).valid() <==> post.l2().dom().contains((j0, j1))) by {
                assert(pre.l1().dom().contains(j0));
                assert(1 <= pre.l1()[j0] < pre.num_nodes());
                if j0 == i0 {
                    assert(post.l1()[j0] == n1);
                    if j1 == i1 {
                        assert(post.node(n1)[j1] == pte);
                    } else {
                        assert(post.node(n1)[j1] == pre.node(n1)[j1]);
                    }
                } else {
                    assert(pre.l1()[j0] != n1);
                    assert(post.node(pre.l1()[j0]) == pre.node(pre.l1()[j0]));
                }
            }
            // inv_l2 clause 3
            assert forall|pr: (int, int)|
                #[trigger] post.l2().dom().contains(pr) implies post.node(
                post.l1()[pr.0],
            )[pr.1].spec_ppn() == post.node_ppn(post.l2()[pr]) && post.node(
                post.l1()[pr.0],
            )[pr.1].spec_flags() == PTE_V by {
                if pr == (i0, i1) {
                    assert(post.l1()[pr.0] == n1);
                    assert(post.node(n1)[pr.1] == pte);
                    assert(post.l2()[pr] == nn);
                } else {
                    assert(pre.l2().dom().contains(pr));
                    use_l2_entry(pre, pr);
                    assert(post.l1()[pr.0] == pre.l1()[pr.0]);
                    if pr.0 == i0 {
                        assert(pre.l1()[pr.0] == n1);
                        assert(pr.1 != i1);
                        assert(post.node(n1)[pr.1] == pre.node(n1)[pr.1]);
                    } else {
                        assert(pre.l1()[pr.0] != n1);
                        assert(post.node(pre.l1()[pr.0]) == pre.node(pre.l1()[pr.0]));
                    }
                    assert(post.node_ppn(post.l2()[pr]) == pre.node_ppn(pre.l2()[pr]));
                }
            }
            assert(post.inv_l2());
            // injectivity
            assert forall|pa: (int, int), pb: (int, int)|
                #[trigger] post.l2().dom().contains(pa) && #[trigger] post.l2().dom().contains(pb)
                && pa != pb implies post.l2()[pa] != post.l2()[pb] by {
                if pa != (i0, i1) && pb != (i0, i1) {
                    assert(pre.l2().dom().contains(pa) && pre.l2().dom().contains(pb));
                } else if pa == (i0, i1) {
                    assert(pre.l2().dom().contains(pb));
                    use_l2_entry(pre, pb);
                } else {
                    assert(pre.l2().dom().contains(pa));
                    use_l2_entry(pre, pa);
                }
            }
            assert forall|a: int, pb: (int, int)|
                #[trigger] post.l1().dom().contains(a) && #[trigger] post.l2().dom().contains(pb)
                implies post.l1()[a] != post.l2()[pb] by {
                assert(pre.l1().dom().contains(a));
                assert(1 <= pre.l1()[a] < pre.num_nodes());
                if pb != (i0, i1) {
                    assert(pre.l2().dom().contains(pb));
                }
            }
            assert(post.inv_inj());
            assert(post.wf());
            // walks unchanged
            assert forall|v: u64| post.walk(v) == pre.walk(v) by {
                let j0 = vpn_i0(v);
                let j1 = vpn_i1(v);
                if post.l1().dom().contains(j0) {
                    assert(pre.l1().dom().contains(j0));
                    assert(1 <= pre.l1()[j0] < pre.num_nodes());
                    if j0 == i0 && j1 == i1 {
                        assert(!pre.l2().dom().contains((i0, i1)));
                        assert(pre.walk(v) is None);
                        assert(post.l2()[(i0, i1)] == nn);
                        assert(!post.node(nn)[vpn_i2(v)].valid());
                        assert(post.walk(v) is None);
                    } else {
                        if pre.l2().dom().contains((j0, j1)) {
                            let m = pre.l2()[(j0, j1)];
                            use_l2_entry(pre, (j0, j1));
                            assert(m != n1);
                            assert(post.node(m) == pre.node(m));
                        }
                    }
                }
            }
            // ownership
            assert forall|q: u64| pre.owns(q) implies post.owns(q) by {
                let i = choose|i: int|
                    0 <= i < pre.frames@.len() && #[trigger] pre.frames@[i].ppn.0 == q;
                assert(post.frames@[i].ppn.0 == q);
            }
            assert forall|q: u64| post.owns(q) && !pre.owns(q) implies q == child.0 by {
                let i = choose|i: int|
                    0 <= i < post.frames@.len() && #[trigger] post.frames@[i].ppn.0 == q;
                if i < pre.frames@.len() {
                    assert(pre.frames@[i].ppn.0 == q);
                }
            }
            assert(post.owns(child.0)) by {
                assert(post.frames@[nn].ppn.0 == child.0);
            }
            assert(!pre.owns(child.0)) by {
                if pre.owns(child.0) {
                    let i = choose|i: int|
                        0 <= i < pre.frames@.len() && #[trigger] pre.frames@[i].ppn.0 == child.0;
                    assert(pre_a.live(pre.frames@[i].ppn.0));
                }
            }
            assert forall|i: int| 0 <= i < post.frames@.len() implies final(allocator).live(
                #[trigger] post.frames@[i].ppn.0,
            ) by {
                if i < pre.frames@.len() {
                    assert(pre_a.live(pre.frames@[i].ppn.0));
                }
            }
            assert forall|q: u64| final(allocator).live(q) && !pre_a.live(q) implies pre_pt_owns(
                post,
                q,
            ) && !pre_pt_owns(pre, q) by {
                assert(q == child.0);
            }
            assert forall|q: u64|
                pre_pt_owns(post, q) && !pre_pt_owns(pre, q) implies !pre_a.live(q)
                && final(allocator).live(q) by {
                assert(q == child.0);
            }
            assert forall|q: u64| pre_pt_owns(pre, q) implies pre_pt_owns(post, q) by {}
            assert forall|q: u64| pre_a.live(q) implies final(allocator).live(q) by {}
            assert(table_alloc_transition(pre, post, pre_a, *final(allocator), 1));
        }
        Ok(n)
    }
}

/// The two tables hold the same frames (and so own the same pages).
pub open spec fn same_frames(pre: PageTable, post: PageTable) -> bool {
    post.frames_view() == pre.frames_view()
}

impl PageTable {
    /// The owned frame trackers, as their page numbers.
    pub closed spec fn frames_view(self) -> Seq<u64> {
        self.frames@.map(|i: int, t: FrameTracker| t.ppn.0)
    }

    /// Writes leaf entry `i2x` of leaf node `n2x`, which the tree reaches
    /// at `(i0, i1)`; only the one virtual page with those three indexes
    /// changes its translation.
    fn set_leaf(
        &mut self,
        n2x: usize,
        i2x: usize,
        e: PageTableEntry,
        Ghost(i0): Ghost<int>,
        Ghost(i1): Ghost<int>,
    )
        requires
            old(self).wf(),
            old(self).l2().dom().contains((i0, i1)),
            old(self).l2()[(i0, i1)] == n2x as int,
            i2x < 512,
        ensures
            final(self).wf(),
            same_frames(*old(self), *final(self)),
            forall|q: u64| final(self).owns(q) == old(self).owns(q),
            forall|a: StackFrameAllocator|
                old(self).owned_live(a) ==> final(self).owned_live(a),
            final(self).spec_root() == old(self).spec_root(),
            final(self).num_nodes() == old(self).num_nodes(),
            forall|v: u64|
                final(self).walk(v) == if vpn_i0(v) == i0 && vpn_i1(v) == i1 && vpn_i2(v)
                    == i2x as int {
                    if e.valid() {
                        Some(e)
                    } else {
                        None::<PageTableEntry>
                    }
                } else {
                    old(self).walk(v)
                },
    {
        let ghost i2 = i2x as int;
        let ghost pre = *self;
        proof {
            use_l2_entry(pre, (i0, i1));
            assert(self.node(n2x as int).len() == 512);
        }
        self.nodes[n2x][i2x] = e;
        proof {
            let post = *self;
            let n2 = n2x as int;
            assert(pre.wf());
            assert(post.l1() == pre.l1());
            assert(post.l2() == pre.l2());
            assert(post.frames@ == pre.frames@);
            assert(post.frames_view() =~= pre.frames_view());
            assert forall|i: int| 0 <= i < pre.nodes@.len() && i != n2 implies post.node(i)
                == pre.node(i) by {}
            assert(post.node(n2) == pre.node(n2).update(i2, e));
            assert forall|i: int| 0 <= i < post.num_nodes() implies (#[trigger] post.node(
                i,
            )).len() == 512 by {
                if i != n2 {
                    assert(post.node(i) == pre.node(i));
                }
            }
            assert forall|i: int| 0 <= i < post.num_nodes() implies #[trigger] post.node_ppn(i)
                == pre.node_ppn(i) by {}
            assert(post.inv_basic());
            assert(n2 != 0);
            assert(post.node(0) == pre.node(0));
            assert(post.inv_l1());
            assert forall|j0: int, j1: int|
                post.l1().dom().contains(j0) && 0 <= j1 < 512 implies ((#[trigger] post.node(
                post.l1()[j0],
            )[j1]).valid() <==> post.l2().dom().contains((j0, j1))) by {
                assert(1 <= pre.l1()[j0] < pre.num_nodes());
                assert(pre.l1()[j0] != n2);
                assert(post.node(pre.l1()[j0]) == pre.node(pre.l1()[j0]));
            }
            assert forall|pr: (int, int)|
                #[trigger] post.l2().dom().contains(pr) implies post.node(
                post.l1()[pr.0],
            )[pr.1].spec_ppn() == post.node_ppn(post.l2()[pr]) && post.node(
                post.l1()[pr.0],
            )[pr.1].spec_flags() == PTE_V by {
                use_l2_entry(pre, pr);
                assert(pre.l1()[pr.0] != n2);
                assert(post.node(pre.l1()[pr.0]) == pre.node(pre.l1()[pr.0]));
            }
            assert(post.inv_l2());
            assert(post.inv_inj());
            assert(post.wf());
            assert forall|v: u64|
                post.walk(v) == if vpn_i0(v) == i0 && vpn_i1(v) == i1 && vpn_i2(v) == i2 {
                    if e.valid() {
                        Some(e)
                    } else {
                        None::<PageTableEntry>
                    }
                } else {
                    pre.walk(v)
                } by {
                let j0 = vpn_i0(v);
                let j1 = vpn_i1(v);
                let j2 = vpn_i2(v);
                if j0 == i0 && j1 == i1 {
                    assert(post.l1().dom().contains(j0));
                    assert(post.l2().dom().contains((j0, j1)));
                    if j2 == i2 {
                        assert(post.node(n2)[j2] == e);
                    } else {
                        assert(post.node(n2)[j2] == pre.node(n2)[j2]);
                    }
                } else {
                    if pre.l1().dom().contains(j0) && pre.l2().dom().contains((j0, j1)) {
                        let m = pre.l2()[(j0, j1)];
                        use_l2_entry(pre, (j0, j1));
                        if m != n2 {
                            assert(post.node(m) == pre.node(m));
                        } else {
                            assert((j0, j1) != (i0, i1));
                            assert(pre.l2()[(i0, i1)] == n2);
                            assert(false);
                        }
                    }
                }
            }
            assert forall|q: u64| post.owns(q) == pre.owns(q) by {
                if pre.owns(q) {
                    let i = choose|i: int|
                        0 <= i < pre.frames@.len() && #[trigger] pre.frames@[i].ppn.0 == q;
                    assert(post.frames@[i].ppn.0 == q);
                }
                if post.owns(q) {
                    let i = choose|i: int|
                        0 <= i < post.frames@.len() && #[trigger] post.frames@[i].ppn.0 == q;
                    assert(pre.frames@[i].ppn.0 == q);
                }
            }
        }
    }

    /// Walks to the leaf position of `vpn`, allocating missing internal
    /// nodes on the way, and returns the leaf node's index; refuses a
    /// position whose leaf is already mapped.
    fn crete_pte(&mut self, allocator: &mut StackFrameAllocator, vpn: VirtPageNum) -> (r: Result<
        usize,
        KernelError,
    >)
        requires
            old(self).wf(),
            old(allocator).wf(),
            old(self).owned_live(*old(allocator)),
            vpn.0 < VPN_LIMIT,
        ensures
            final(self).wf(),
            final(self).owned_live(*final(allocator)),
            table_alloc_transition(
                *old(self),
                *final(self),
                *old(allocator),
                *final(allocator),
                2,
            ),
            forall|v: u64| final(self).walk(v) == old(self).walk(v),
            r matches Ok(n) ==> {
                &&& final(self).l2().dom().contains((vpn_i0(vpn.0), vpn_i1(vpn.0)))
                &&& final(self).l2()[(vpn_i0(vpn.0), vpn_i1(vpn.0))] == n as int
                &&& n < final(self).num_nodes()
                &&& old(self).walk(vpn.0) is None
            },
            r == Err::<usize, KernelError>(KernelError::AlreadyMapped) <==> old(self).walk(vpn.0)
                is Some,
            r matches Err(e) ==> e == KernelError::AlreadyMapped || (e
                == KernelError::FrameExhausted && final(allocator).exhausted()),
            old(self).walk(vpn.0) is None && old(allocator).free_count() >= 2 ==> r is Ok,
    {
        let ghost pre = *self;
        let ghost pre_a = *old(allocator);
        let idx = vpn.indexes();
        let ghost i0 = idx[0] as int;
        let ghost i1 = idx[1] as int;
        let ghost i2 = idx[2] as int;
        let n1 = match self.child_at_root(allocator, idx[0]) {
            Ok(n) => n,
            Err(e) => {
                proof {
                    assert(pre.walk(vpn.0) is None) by {
                        if pre.l1().dom().contains(i0) {
                            assert(false);
                        }
                    }
                    assert(pre_a.exhausted());
                }
                return Err(e);
            },
        };
        let ghost mid = *self;
        let ghost mid_a = *allocator;
        let n2 = match self.child_at_l1(allocator, n1, idx[1], Ghost(i0)) {
            Ok(n) => n,
            Err(e) => {
                proof {
                    assert(mid.walk(vpn.0) is None) by {
                        if mid.l2().dom().contains((i0, i1)) {
                            assert(false);
                        }
                    }
                    assert(pre.walk(vpn.0) is None);
                    if pre_a.free_count() >= 2 {
                        assert(mid_a.free_count() >= 1);
                        assert(!mid_a.exhausted());
                        assert(false);
                    }
                }
                return Err(e);
            },
        };
        proof {
            use_l2_entry(*self, (i0, i1));
            assert(self.node(n2 as int).len() == 512);
        }
        let e2 = self.nodes[n2][idx[2]];
        proof {
            assert(e2 == self.node(self.l2()[(i0, i1)])[i2]);
            assert(self.walk(vpn.0) == if e2.valid() {
                Some(e2)
            } else {
                None::<PageTableEntry>
            });
        }
        if e2.is_valid() {
            return Err(KernelError::AlreadyMapped);
        }
        Ok(n2)
    }

    /// Installs the leaf mapping `vpn -> ppn` with `flags` plus the valid
    /// bit, allocating missing internal nodes; fails on a page already
    /// mapped, or when the frame allocator runs dry underway.
    pub fn map(
        &mut self,
        allocator: &mut StackFrameAllocator,
        vpn: VirtPageNum,
        ppn: PhysPageNum,
        flags: PTEFlags,
    ) -> (r: Result<(), KernelError>)
        requires
            old(self).wf(),
            old(allocator).wf(),
            old(self).owned_live(*old(allocator)),
            vpn.0 < VPN_LIMIT,
            ppn.0 < PPN_LIMIT,
        ensures
            final(self).wf(),
            final(self).owned_live(*final(allocator)),
            table_alloc_transition(
                *old(self),
                *final(self),
                *old(allocator),
                *final(allocator),
                2,
            ),
            r == Err::<(), KernelError>(KernelError::AlreadyMapped) <==> old(self).walk(vpn.0)
                is Some,
            r matches Err(e) ==> (e == KernelError::AlreadyMapped || (e
                == KernelError::FrameExhausted && final(allocator).exhausted())) && forall|v: u64|
                final(self).walk(v) == old(self).walk(v),
            r is Ok ==> {
                &&& old(self).walk(vpn.0) is None
                &&& final(self).walk(vpn.0) matches Some(e) && e.spec_ppn() == ppn.0
                    && e.spec_flags() == 2 * (flags.bits / 2) + 1 && e.valid()
                &&& forall|v: u64| v != vpn.0 ==> final(self).walk(v) == old(self).walk(v)
            },
            old(self).walk(vpn.0) is None && old(allocator).free_count() >= 2 ==> r is Ok,
    {
        let ghost pre = *self;
        let idx = vpn.indexes();
        let ghost i0 = idx[0] as int;
        let ghost i1 = idx[1] as int;
        let n2 = match self.crete_pte(allocator, vpn) {
            Ok(n) => n,
            Err(e) => {
                return Err(e);
            },
        };
        let e = PageTableEntry::new(ppn, flags.with_valid());
        self.set_leaf(n2, idx[2], e, Ghost(i0), Ghost(i1));
        proof {
            assert(final(self).walk(vpn.0) == Some(e));
            assert forall|v: u64| v != vpn.0 implies final(self).walk(v) == pre.walk(v) by {
                if vpn_i0(v) == i0 && vpn_i1(v) == i1 && vpn_i2(v) == idx[2] as int {
                    if v < VPN_LIMIT {
                        lemma_vpn_unique(v, vpn.0);
                        assert(false);
                    } else {
                        assert(vpn_i0(v) == v as int / 262144);
                        assert(v as int >= VPN_LIMIT);
                        vstd::arithmetic::div_mod::lemma_div_is_ordered(
                            134217728,
                            v as int,
                            262144,
                        );
                        assert(vpn_i0(v) >= 512);
                        assert(vpn_i0(vpn.0) < 512) by {
                            lemma_vpn_decompose(vpn.0);
                        }
                        assert(false);
                    }
                }
            }
        }
        Ok(())
    }

    /// Clears the leaf mapping of `vpn`; fails where none is mapped.
    pub fn unmap(&mut self, vpn: VirtPageNum) -> (r: Result<(), KernelError>)
        requires
            old(self).wf(),
            vpn.0 < VPN_LIMIT,
        ensures
            final(self).wf(),
            same_frames(*old(self), *final(self)),
            forall|q: u64| final(self).owns(q) == old(self).owns(q),
            forall|a: StackFrameAllocator|
                old(self).owned_live(a) ==> final(self).owned_live(a),
            final(self).spec_root() == old(self).spec_root(),
            r == Err::<(), KernelError>(KernelError::NotMapped) <==> old(self).walk(vpn.0)
                is None,
            r matches Err(e) ==> e == KernelError::NotMapped && forall|v: u64|
                final(self).walk(v) == old(self).walk(v),
            r is Ok ==> final(self).walk(vpn.0) is None && forall|v: u64|
                v != vpn.0 ==> final(self).walk(v) == old(self).walk(v),
    {
        let ghost pre = *self;
        let idx = vpn.indexes();
        let ghost i0 = idx[0] as int;
        let ghost i1 = idx[1] as int;
        proof {
            assert(self.node(0).len() == 512);
        }
        let e0 = self.nodes[0][idx[0]];
        proof {
            assert(e0 == self.node(0)[i0]);
        }
        if !e0.is_valid() {
            proof {
                assert(pre.walk(vpn.0) is None);
                assert(pre.frames_view() =~= pre.frames_view());
            }
            return Err(KernelError::NotMapped);
        }
        proof {
            assert(self.l1().dom().contains(i0));
            assert(e0.spec_ppn() == self.node_ppn(self.l1()[i0]));
        }
        let n1 = match self.find_node(e0.ppn()) {
            Some(n) => n,
            None => {
                proof {
                    assert(self.frames@[self.l1()[i0]].ppn.0 == e0.spec_ppn());
                    assert(false);
                }
                return Err(KernelError::NotMapped);
            },
        };
        proof {
            lemma_node_index_unique(*self, n1 as int, self.l1()[i0]);
            assert(self.node(n1 as int).len() == 512);
        }
        let e1 = self.nodes[n1][idx[1]];
        proof {
            assert(e1 == self.node(self.l1()[i0])[i1]);
        }
        if !e1.is_valid() {
            proof {
                assert(pre.walk(vpn.0) is None);
                assert(pre.frames_view() =~= pre.frames_view());
            }
            return Err(KernelError::NotMapped);
        }
        proof {
            assert(self.l2().dom().contains((i0, i1)));
            use_l2_entry(*self, (i0, i1));
            assert(e1.spec_ppn() == self.node_ppn(self.l2()[(i0, i1)]));
        }
        let n2 = match self.find_node(e1.ppn()) {
            Some(n) => n,
            None => {
                proof {
                    assert(self.frames@[self.l2()[(i0, i1)]].ppn.0 == e1.spec_ppn());
                    assert(false);
                }
                return Err(KernelError::NotMapped);
            },
        };
        proof {
            lemma_node_index_unique(*self, n2 as int, self.l2()[(i0, i1)]);
            assert(self.node(n2 as int).len() == 512);
        }
        let e2 = self.nodes[n2][idx[2]];
        proof {
            assert(e2 == self.node(self.l2()[(i0, i1)])[idx[2] as int]);
            assert(pre.walk(vpn.0) == if e2.valid() {
                Some(e2)
            } else {
                None::<PageTableEntry>
            });
        }
        if !e2.is_valid() {
            proof {
                assert(pre.frames_view() =~= pre.frames_view());
            }
            return Err(KernelError::NotMapped);
        }
        self.set_leaf(n2, idx[2], PageTableEntry { bits: 0 }, Ghost(i0), Ghost(i1));
        proof {
            assert forall|v: u64| v != vpn.0 implies final(self).walk(v) == pre.walk(v) by {
                if vpn_i0(v) == i0 && vpn_i1(v) == i1 && vpn_i2(v) == idx[2] as int {
                    if v < VPN_LIMIT {
                        lemma_vpn_unique(v, vpn.0);
                        assert(false);
                    } else {
                        assert(v as int >= VPN_LIMIT);
                        vstd::arithmetic::div_mod::lemma_div_is_ordered(
                            134217728,
                            v as int,
                            262144,
                        );
                        assert(vpn_i0(v) >= 512);
                        assert(vpn_i0(vpn.0) < 512) by {
                            lemma_vpn_decompose(vpn.0);
                        }
                        assert(false);
                    }
                }
            }
        }
        Ok(())
    }
}

impl PageTable {
    /// Page `q` is among the trackers `s` at or after position `k`.
    spec fn in_suffix(s: Seq<FrameTracker>, k: int, q: u64) -> bool {
        exists|j: int| k <= j < s.len() && #[trigger] s[j].ppn.0 == q
    }

    /// Tears the table down, returning every owned node frame — the root
    /// included — to the allocator.  Exactly the owned pages stop being
    /// live; none is freed twice.
    pub fn release(self, allocator: &mut StackFrameAllocator)
        requires
            self.wf(),
            old(allocator).wf(),
            self.owned_live(*old(allocator)),
        ensures
            final(allocator).wf(),
            final(allocator).spec_start() == old(allocator).spec_start(),
            final(allocator).spec_end() == old(allocator).spec_end(),
            forall|q: u64|
                #[trigger] final(allocator).live(q) == (old(allocator).live(q) && !self.owns(
                    q,
                )),
    {
        let ghost orig = self.frames@;
        let ghost pre_a = *old(allocator);
        proof {
            assert forall|i: int, j: int|
                0 <= i < j < orig.len() implies #[trigger] orig[i].ppn.0 != #[trigger] orig[j].ppn.0 by {
                assert(self.node_ppn(i) == orig[i].ppn.0);
                assert(self.node_ppn(j) == orig[j].ppn.0);
                assert(self.node_ppn(i) != self.node_ppn(j));
            }
            assert forall|i: int| 0 <= i < orig.len() implies pre_a.live(
                #[trigger] orig[i].ppn.0,
            ) by {
                assert(pre_a.live(self.frames@[i].ppn.0));
            }
        }
        let mut frames = self.frames;
        loop
            invariant
                allocator.wf(),
                allocator.spec_start() == pre_a.spec_start(),
                allocator.spec_end() == pre_a.spec_end(),
                frames@.len() <= orig.len(),
                frames@ == orig.subrange(0, frames@.len() as int),
                forall|i: int, j: int|
                    0 <= i < j < orig.len() ==> #[trigger] orig[i].ppn.0 != #[trigger] orig[j].ppn.0,
                forall|i: int| 0 <= i < frames@.len() ==> pre_a.live(#[trigger] orig[i].ppn.0),
                forall|q: u64|
                    allocator.live(q) == (pre_a.live(q) && !PageTable::in_suffix(
                        orig,
                        frames@.len() as int,
                        q,
                    )),
            ensures
                allocator.wf(),
                allocator.spec_start() == pre_a.spec_start(),
                allocator.spec_end() == pre_a.spec_end(),
                forall|q: u64|
                    allocator.live(q) == (pre_a.live(q) && !PageTable::in_suffix(orig, 0, q)),
            decreases frames@.len(),
        {
            let ghost k = frames@.len() as int;
            match frames.pop() {
                None => {
                    break;
                },
                Some(t) => {
                    proof {
                        assert(t == orig[k - 1]);
                        assert(frames@ =~= orig.subrange(0, k - 1));
                        assert(allocator.live(t.ppn.0)) by {
                            assert(pre_a.live(orig[k - 1].ppn.0));
                            if PageTable::in_suffix(orig, k, t.ppn.0) {
                                let j = choose|j: int|
                                    k <= j < orig.len() && #[trigger] orig[j].ppn.0 == t.ppn.0;
                                assert(orig[k - 1].ppn.0 != orig[j].ppn.0);
                            }
                        }
                    }
                    let ghost a_mid = *allocator;
                    match frame_dealloc(allocator, t.ppn) {
                        Ok(_) => {
                            proof {
                                assert forall|q: u64|
                                    allocator.live(q) == (pre_a.live(q) && !PageTable::in_suffix(
                                        orig,
                                        k - 1,
                                        q,
                                    )) by {
                                    if q == t.ppn.0 {
                                        assert(PageTable::in_suffix(orig, k - 1, q)) by {
                                            assert(orig[k - 1].ppn.0 == q);
                                        }
                                    } else {
                                        assert(allocator.live(q) == a_mid.live(q));
                                        assert(PageTable::in_suffix(orig, k - 1, q)
                                            == PageTable::in_suffix(orig, k, q)) by {
                                            if PageTable::in_suffix(orig, k - 1, q) {
                                                let j = choose|j: int|
                                                    k - 1 <= j < orig.len()
                                                        && #[trigger] orig[j].ppn.0 == q;
                                                assert(j != k - 1);
                                                assert(PageTable::in_suffix(orig, k, q));
                                            }
                                            if PageTable::in_suffix(orig, k, q) {
                                                let j = choose|j: int|
                                                    k <= j < orig.len() && #[trigger] orig[j].ppn.0
                                                        == q;
                                                assert(PageTable::in_suffix(orig, k - 1, q));
                                            }
                                        }
                                    }
                                }
                            }
                        },
                        Err(_) => {
                            proof {
                                assert(false);
                            }
                        },
                    }
                },
            }
        }
        proof {
            assert forall|q: u64|
                final(allocator).live(q) == (pre_a.live(q) && !self.owns(q)) by {
                if self.owns(q) {
                    let i = choose|i: int|
                        0 <= i < self.frames@.len() && #[trigger] self.frames@[i].ppn.0 == q;
                    assert(orig[i].ppn.0 == q);
                    assert(PageTable::in_suffix(orig, 0, q));
                }
                if PageTable::in_suffix(orig, 0, q) {
                    let j = choose|j: int| 0 <= j < orig.len() && #[trigger] orig[j].ppn.0 == q;
                    assert(self.frames@[j].ppn.0 == q);
                    assert(self.owns(q));
                }
            }
        }
    }
}

/// Virtual address `va` translates, through `pt`, to a byte-holding
/// frame of `mem`.
pub open spec fn va_ok(mem: PhysMemory, pt: PageTable, va: u64) -> bool {
    &&& pt.walk(va / 4096) is Some
    &&& mem.is_bytes(pt.walk(va / 4096)->Some_0.spec_ppn())
}

/// The byte `va` reads through `pt` in `mem`.
pub open spec fn user_byte(mem: PhysMemory, pt: PageTable, va: u64) -> u8 {
    mem.page(pt.walk(va / 4096)->Some_0.spec_ppn())[va as int % 4096]
}

/// Every byte of `[ptr, ptr + len)` translates to byte-holding memory.
pub open spec fn range_ok(mem: PhysMemory, pt: PageTable, ptr: u64, len: u64) -> bool {
    forall|i: int| 0 <= i < len ==> #[trigger] va_ok(mem, pt, (ptr + i) as u64)
}

/// The chunks of a page-by-page read, in order, as one byte sequence.
pub open spec fn flatten_chunks(s: Seq<Seq<u8>>) -> Seq<u8>
    decreases s.len(),
{
    if s.len() == 0 {
        Seq::empty()
    } else {
        flatten_chunks(s.drop_last()) + s.last()
    }
}

/// Flattening one more chunk appends it.
proof fn lemma_flatten_push(s: Seq<Seq<u8>>, c: Seq<u8>)
    ensures
        flatten_chunks(s.push(c)) == flatten_chunks(s) + c,
{
    assert(s.push(c).drop_last() =~= s);
    assert(s.push(c).last() == c);
}

/// Reads the user-space bytes `[ptr, ptr + len)` of the address space of
/// `pt`, one in-page chunk per element, clipping at page boundaries.
/// Succeeds exactly when every page of the range is mapped to a frame of
/// `mem` holding plain bytes, and then returns exactly those bytes.
pub fn translated_byte_buffer(
    mem: &PhysMemory,
    page_table: &PageTable,
    ptr: u64,
    len: u64,
) -> (r: Result<Vec<Vec<u8>>, KernelError>)
    requires
        mem.wf(),
        page_table.wf(),
        ptr + len <= crate::address::VA_LIMIT,
    ensures
        r is Ok <==> range_ok(*mem, *page_table, ptr, len),
        r matches Ok(v) ==> flatten_chunks(v@.map(|i: int, c: Vec<u8>| c@)) == Seq::new(
            len as nat,
            |i: int| user_byte(*mem, *page_table, (ptr + i) as u64),
        ),
        r matches Err(e) ==> e == KernelError::NotMapped || e == KernelError::NotDataPage,
{
    let mut v: Vec<Vec<u8>> = Vec::new();
    let mut start = ptr;
    let end = ptr + len;
    while start < end
        invariant
            mem.wf(),
            page_table.wf(),
            ptr <= start <= end,
            end == ptr + len,
            end <= crate::address::VA_LIMIT,
            forall|i: int|
                0 <= i < start - ptr ==> #[trigger] va_ok(*mem, *page_table, (ptr + i) as u64),
            flatten_chunks(v@.map(|i: int, c: Vec<u8>| c@)) == Seq::new(
                (start - ptr) as nat,
                |i: int| user_byte(*mem, *page_table, (ptr + i) as u64),
            ),
        decreases end - start,
    {
        let vpn = VirtPageNum(start / 4096);
        proof {
            assert(vpn.0 < VPN_LIMIT);
        }
        let pte = match page_table.get_pte(vpn) {
            Ok(p) => p,
            Err(_) => {
                proof {
                    assert(!va_ok(*mem, *page_table, (ptr + (start - ptr) as int) as u64));
                }
                return Err(KernelError::NotMapped);
            },
        };
        let ppn = pte.ppn();
        if !mem.holds_bytes(ppn) {
            proof {
                assert(!va_ok(*mem, *page_table, (ptr + (start - ptr) as int) as u64));
            }
            return Err(KernelError::NotDataPage);
        }
        let offset = start % 4096;
        let page_end: u64 = (start / 4096) * 4096 + 4096;
        let end_va: u64 = if page_end < end {
            page_end
        } else {
            end
        };
        let chunk = mem.read_range(ppn, offset, end_va - (start / 4096) * 4096);
        let ghost old_v = v@;
        let ghost chunk_len = (end_va - start) as int;
        proof {
            assert(start == (start / 4096) * 4096 + start % 4096);
            assert(chunk@.len() == chunk_len);
            assert forall|k: int| 0 <= k < chunk_len implies chunk@[k] == user_byte(
                *mem,
                *page_table,
                (start + k) as u64,
            ) && va_ok(*mem, *page_table, (start + k) as u64) by {
                let va = (start + k) as u64;
                lemma_fundamental_div_mod_converse(
                    va as int,
                    4096,
                    start as int / 4096,
                    start as int % 4096 + k,
                );
                assert(va / 4096 == vpn.0);
                assert(va as int % 4096 == offset + k);
                assert(chunk@[k] == mem.page(ppn.0)[offset + k]);
            }
        }
        v.push(chunk);
        proof {
            assert(v@.map(|i: int, c: Vec<u8>| c@) =~= old_v.map(|i: int, c: Vec<u8>| c@).push(
                chunk@,
            ));
            lemma_flatten_push(old_v.map(|i: int, c: Vec<u8>| c@), chunk@);
            assert(flatten_chunks(v@.map(|i: int, c: Vec<u8>| c@)) =~= Seq::new(
                (end_va - ptr) as nat,
                |i: int| user_byte(*mem, *page_table, (ptr + i) as u64),
            ));
        }
        start = end_va;
    }
    proof {
        assert(start == end);
    }
    Ok(v)
}

/// Joins page-by-page chunks back into one contiguous byte vector.
pub fn concat_chunks(chunks: &Vec<Vec<u8>>) -> (r: Vec<u8>)
    ensures
        r@ == flatten_chunks(chunks@.map(|i: int, c: Vec<u8>| c@)),
{
    let mut out: Vec<u8> = Vec::new();
    let mut i: usize = 0;
    while i < chunks.len()
        invariant
            i <= chunks@.len(),
            out@ == flatten_chunks(chunks@.subrange(0, i as int).map(|k: int, c: Vec<u8>| c@)),
        decreases chunks@.len() - i,
    {
        let ghost pre_map = chunks@.subrange(0, i as int).map(|k: int, c: Vec<u8>| c@);
        let chunk = &chunks[i];
        let mut j: usize = 0;
        let ghost out_pre = out@;
        while j < chunk.len()
            invariant
                j <= chunk@.len(),
                out@ == out_pre + chunk@.subrange(0, j as int),
            decreases chunk@.len() - j,
        {
            out.push(chunk[j]);
            proof {
                assert(out@ =~= out_pre + chunk@.subrange(0, j + 1));
            }
            j = j + 1;
        }
        proof {
            assert(chunk@.subrange(0, chunk@.len() as int) =~= chunk@);
            let next_map = chunks@.subrange(0, i + 1).map(|k: int, c: Vec<u8>| c@);
            assert(next_map =~= pre_map.push(chunk@));
            lemma_flatten_push(pre_map, chunk@);
        }
        i = i + 1;
    }
    proof {
        assert(chunks@.subrange(0, chunks@.len() as int) =~= chunks@);
    }
    out
}


} // verus!
