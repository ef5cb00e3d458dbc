//! The kernel's model of allocatable physical memory: one record per
//! frame in the range the allocator manages.
//!
//! A frame holds either plain bytes or a saved trap context — the two
//! layouts the kernel ever writes to a frame it owns.  All reinterpreting
//! of physical addresses is confined here; the rest of the kernel reads
//! and writes frames only through these accessors.

use vstd::prelude::*;

use crate::address::{PhysPageNum, PPN_LIMIT};
use crate::trap::{cx_eq, TrapContext};

verus! {

/// What one physical frame currently holds.
pub enum PageFrame {
    /// 4096 plain bytes.
    Bytes(Vec<u8>),
    /// A task's saved trap context, occupying the frame.
    Trap(TrapContext),
}

/// All allocatable physical frames, indexed by physical page number.
pub struct PhysMemory {
    base: u64,
    frames: Vec<PageFrame>,
}

impl PhysMemory {
    /// First page number this memory covers.
    pub closed spec fn spec_base(self) -> u64 {
        self.base
    }

    /// Number of frames covered.
    pub closed spec fn spec_len(self) -> int {
        self.frames@.len() as int
    }

    /// The record for page `p`.
    pub closed spec fn spec_frame(self, p: u64) -> PageFrame {
        self.frames@[p - self.base]
    }

    /// Page `p` lies inside the covered range.
    pub open spec fn in_range(self, p: u64) -> bool {
        self.spec_base() <= p && p - self.spec_base() < self.spec_len()
    }

    /// Page `p` holds plain bytes.
    pub open spec fn is_bytes(self, p: u64) -> bool {
        self.in_range(p) && self.spec_frame(p) is Bytes
    }

    /// Page `p` holds a saved trap context.
    pub open spec fn is_trap(self, p: u64) -> bool {
        self.in_range(p) && self.spec_frame(p) is Trap
    }

    /// The bytes of page `p`.
    pub open spec fn page(self, p: u64) -> Seq<u8> {
        self.spec_frame(p)->Bytes_0@
    }

    /// The trap context saved in page `p`.
    pub open spec fn trap_cx(self, p: u64) -> TrapContext {
        self.spec_frame(p)->Trap_0
    }

    /// Every byte frame holds exactly one page of bytes; every context
    /// frame holds a full register file; the range stays within the
    /// physical page-number width.
    pub open spec fn wf(self) -> bool {
        &&& self.spec_base() + self.spec_len() <= PPN_LIMIT
        &&& forall|p: u64|
            self.in_range(p) ==> match #[trigger] self.spec_frame(p) {
                PageFrame::Bytes(b) => b@.len() == 4096,
                PageFrame::Trap(cx) => cx.wf(),
            }
    }

    /// Builds memory covering pages `[base, end)`, all zero bytes.
    pub fn new(base: PhysPageNum, end: PhysPageNum) -> (r: PhysMemory)
        requires
            base.0 <= end.0,
            end.0 <= PPN_LIMIT,
            end.0 - base.0 <= usize::MAX,
        ensures
            r.wf(),
            r.spec_base() == base.0,
            r.spec_len() == end.0 - base.0,
            forall|p: u64| r.in_range(p) ==> r.is_bytes(p),
            forall|p: u64, j: int|
                r.in_range(p) && 0 <= j < 4096 ==> #[trigger] r.page(p)[j] == 0,
    {
        let count = (end.0 - base.0) as usize;
        let mut frames: Vec<PageFrame> = Vec::new();
        let mut i: usize = 0;
        while i < count
            invariant
                i <= count,
                frames@.len() == i,
                forall|k: int|
                    0 <= k < i ==> #[trigger] frames@[k] is Bytes && frames@[k]->Bytes_0@
                        =~= Seq::new(4096, |j: int| 0u8),
            decreases count - i,
        {
            frames.push(PageFrame::Bytes(zero_page()));
            i = i + 1;
        }
        PhysMemory { base: base.0, frames }
    }

    /// Whether page `p` is covered and currently holds plain bytes.
    pub fn holds_bytes(&self, p: PhysPageNum) -> (r: bool)
        ensures
            r == self.is_bytes(p.0),
    {
        if p.0 < self.base {
            return false;
        }
        proof {
            lemma_frames_len(&self.frames);
        }
        if p.0 - self.base >= self.frames.len() as u64 {
            return false;
        }
        let idx = (p.0 - self.base) as usize;
        match &self.frames[idx] {
            PageFrame::Bytes(_) => true,
            PageFrame::Trap(_) => false,
        }
    }

    /// Reads bytes `[start, end)` of page `p` into a fresh vector.
    pub fn read_range(&self, p: PhysPageNum, start: u64, end: u64) -> (r: Vec<u8>)
        requires
            self.wf(),
            self.is_bytes(p.0),
            start <= end <= 4096,
        ensures
            r@ == self.page(p.0).subrange(start as int, end as int),
    {
        proof {
            lemma_frames_len(&self.frames);
        }
        let idx = (p.0 - self.base) as usize;
        let mut out: Vec<u8> = Vec::new();
        let mut j = start as usize;
        while j < end as usize
            invariant
                self.wf(),
                self.is_bytes(p.0),
                idx == p.0 - self.spec_base(),
                start <= 4096,
                end <= 4096,
                start as usize <= j <= end as usize,
                out@ == self.page(p.0).subrange(start as int, j as int),
            decreases end as usize - j,
        {
            let b = match &self.frames[idx] {
                PageFrame::Bytes(bytes) => bytes[j],
                PageFrame::Trap(_) => 0,
            };
            out.push(b);
            proof {
                assert(out@ =~= self.page(p.0).subrange(start as int, j + 1 as int));
            }
            j = j + 1;
        }
        out
    }

    /// Overwrites bytes of page `p` starting at `start` with `data`,
    /// leaving the rest of the page and every other page unchanged.
    pub fn write_range(&mut self, p: PhysPageNum, start: u64, data: &Vec<u8>)
        requires
            old(self).wf(),
            old(self).is_bytes(p.0),
            start + data@.len() <= 4096,
        ensures
            final(self).wf(),
            final(self).spec_base() == old(self).spec_base(),
            final(self).spec_len() == old(self).spec_len(),
            final(self).is_bytes(p.0),
            final(self).page(p.0) == old(self).page(p.0).subrange(0, start as int) + data@
                + old(self).page(p.0).subrange(start + data@.len(), 4096),
            forall|q: u64|
                old(self).in_range(q) && q != p.0 ==> #[trigger] final(self).spec_frame(q)
                    == old(self).spec_frame(q),
    {
        proof {
            lemma_frames_len(&self.frames);
        }
        let idx = (p.0 - self.base) as usize;
        let mut page: Vec<u8> = Vec::new();
        let ghost target = old(self).page(p.0).subrange(0, start as int) + data@ + old(
            self,
        ).page(p.0).subrange(start + data@.len(), 4096);
        let mut j: usize = 0;
        while j < 4096
            invariant
                *self == *old(self),
                old(self).wf(),
                old(self).is_bytes(p.0),
                idx == p.0 - self.spec_base(),
                start + data@.len() <= 4096,
                j <= 4096,
                page@.len() == j,
                forall|k: int| 0 <= k < j ==> #[trigger] page@[k] == target[k],
                target == old(self).page(p.0).subrange(0, start as int) + data@ + old(
                    self,
                ).page(p.0).subrange(start + data@.len(), 4096),
                target.len() == 4096,
            decreases 4096 - j,
        {
            let b: u8 = if (j as u64) < start {
                let v = match &self.frames[idx] {
                    PageFrame::Bytes(bytes) => bytes[j],
                    PageFrame::Trap(_) => 0,
                };
                proof {
                    assert(target[j as int] == old(self).page(p.0).subrange(0, start as int)[j as int]);
                    assert(v == target[j as int]);
                }
                v
            } else if (j as u64) < start + (data.len() as u64) {
                let v = data[j - start as usize];
                proof {
                    assert(target[j as int] == data@[j - start]);
                }
                v
            } else {
                let v = match &self.frames[idx] {
                    PageFrame::Bytes(bytes) => bytes[j],
                    PageFrame::Trap(_) => 0,
                };
                proof {
                    assert(target[j as int] == old(self).page(p.0).subrange(
                        start + data@.len(),
                        4096,
                    )[j - start - data@.len()]);
                    assert(v == target[j as int]);
                }
                v
            };
            page.push(b);
            j = j + 1;
        }
        let ghost pre = *self;
        self.frames[idx] = PageFrame::Bytes(page);
        proof {
            assert forall|q: u64| pre.in_range(q) && q != p.0 implies self.spec_frame(q)
                == pre.spec_frame(q) by {
                assert(q - pre.spec_base() != idx as int);
            }
            assert(final(self).page(p.0) =~= target);
            assert forall|q: u64| self.in_range(q) implies (match self.spec_frame(q) {
                PageFrame::Bytes(b) => b@.len() == 4096,
                PageFrame::Trap(c) => c.wf(),
            }) by {
                if q != p.0 {
                    assert(pre.in_range(q));
                    assert(self.spec_frame(q) == pre.spec_frame(q));
                }
            }
            assert(self.wf());
        }
    }

    /// Makes page `p` hold all zero bytes, whatever it held before.
    pub fn zero_page(&mut self, p: PhysPageNum)
        requires
            old(self).wf(),
            old(self).in_range(p.0),
        ensures
            final(self).wf(),
            final(self).spec_base() == old(self).spec_base(),
            final(self).spec_len() == old(self).spec_len(),
            final(self).is_bytes(p.0),
            final(self).page(p.0) == Seq::new(4096, |j: int| 0u8),
            forall|q: u64|
                old(self).in_range(q) && q != p.0 ==> #[trigger] final(self).spec_frame(q)
                    == old(self).spec_frame(q),
    {
        proof {
            lemma_frames_len(&self.frames);
        }
        let idx = (p.0 - self.base) as usize;
        let ghost pre = *self;
        self.frames[idx] = PageFrame::Bytes(zero_page());
        proof {
            assert forall|q: u64| pre.in_range(q) && q != p.0 implies self.spec_frame(q)
                == pre.spec_frame(q) by {
                assert(q - pre.spec_base() != idx as int);
            }
            assert forall|q: u64| self.in_range(q) implies (match self.spec_frame(q) {
                PageFrame::Bytes(b) => b@.len() == 4096,
                PageFrame::Trap(c) => c.wf(),
            }) by {
                if q != p.0 {
                    assert(pre.in_range(q));
                    assert(self.spec_frame(q) == pre.spec_frame(q));
                }
            }
            assert(self.wf());
        }
    }

    /// Stores a trap context into page `p`, whatever it held before.
    pub fn write_trap_cx(&mut self, p: PhysPageNum, cx: TrapContext)
        requires
            old(self).wf(),
            old(self).in_range(p.0),
            cx.wf(),
        ensures
            final(self).wf(),
            final(self).spec_base() == old(self).spec_base(),
            final(self).spec_len() == old(self).spec_len(),
            final(self).is_trap(p.0),
            cx_eq(final(self).trap_cx(p.0), cx),
            forall|q: u64|
                old(self).in_range(q) && q != p.0 ==> #[trigger] final(self).spec_frame(q)
                    == old(self).spec_frame(q),
    {
        proof {
            lemma_frames_len(&self.frames);
        }
        let idx = (p.0 - self.base) as usize;
        let ghost pre = *self;
        self.frames[idx] = PageFrame::Trap(cx);
        proof {
            assert forall|q: u64| pre.in_range(q) && q != p.0 implies self.spec_frame(q)
                == pre.spec_frame(q) by {
                assert(q - pre.spec_base() != idx as int);
            }
            assert forall|q: u64| self.in_range(q) implies (match self.spec_frame(q) {
                PageFrame::Bytes(b) => b@.len() == 4096,
                PageFrame::Trap(c) => c.wf(),
            }) by {
                if q != p.0 {
                    assert(pre.in_range(q));
                    assert(self.spec_frame(q) == pre.spec_frame(q));
                }
            }
            assert(self.wf());
        }
    }

    /// Reads the trap context saved in page `p`.
    pub fn read_trap_cx(&self, p: PhysPageNum) -> (r: TrapContext)
        requires
            self.wf(),
            self.is_trap(p.0),
        ensures
            cx_eq(r, self.trap_cx(p.0)),
            r.wf(),
    {
        proof {
            lemma_frames_len(&self.frames);
        }
        let idx = (p.0 - self.base) as usize;
        match &self.frames[idx] {
            PageFrame::Trap(cx) => cx.duplicate(),
            PageFrame::Bytes(_) => TrapContext::app_init_context(0, 0, 0, 0, 0),
        }
    }
}

/// A vector's length always fits the machine word.
proof fn lemma_frames_len(v: &Vec<PageFrame>)
    ensures
        v@.len() <= usize::MAX,
{
    vstd::std_specs::vec::axiom_spec_len(v);
}

/// One page of zero bytes.
fn zero_page() -> (r: Vec<u8>)
    ensures
        r@ == Seq::new(4096, |j: int| 0u8),
{
    let mut v: Vec<u8> = Vec::new();
    let mut j: usize = 0;
    while j < 4096
        invariant
            j <= 4096,
            v@.len() == j,
            forall|k: int| 0 <= k < j ==> #[trigger] v@[k] == 0,
        decreases 4096 - j,
    {
        v.push(0);
        j = j + 1;
    }
    proof {
        assert(v@ =~= Seq::new(4096, |j: int| 0u8));
    }
    v
}

} // verus!
