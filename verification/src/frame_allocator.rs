//! The physical frame allocator and the ownership handle for a single
//! frame.
//!
//! Allocation prefers the recycled free list (most recently freed first)
//! and otherwise advances a monotonic cursor through the range fixed by
//! `init`.  Handing back a frame that was never allocated, or one already
//! recycled, is a consistency violation and is refused.

use vstd::prelude::*;

use crate::address::{PhysAddr, PhysPageNum, PPN_LIMIT};
use crate::config::PAGE_SIZE;
use crate::KernelError;

verus! {

/// Stack-style physical page-frame allocator.
pub struct StackFrameAllocator {
    start: u64,
    current: u64,
    end: u64,
    recycled: Vec<u64>,
}

impl StackFrameAllocator {
    /// First page number of the allocatable range.
    pub closed spec fn spec_start(self) -> u64 {
        self.start
    }

    /// Cursor: pages in `[start, current)` have been handed out at least
    /// once.
    pub closed spec fn spec_current(self) -> u64 {
        self.current
    }

    /// One past the last allocatable page number.
    pub closed spec fn spec_end(self) -> u64 {
        self.end
    }

    /// Pages returned to the allocator and not yet handed out again,
    /// oldest first.
    pub closed spec fn spec_recycled(self) -> Seq<u64> {
        self.recycled@
    }

    /// Internal consistency: the cursor lies inside the range, and the
    /// free list holds distinct pages from the ever-allocated part.
    pub open spec fn wf(self) -> bool {
        &&& self.spec_start() <= self.spec_current() <= self.spec_end()
        &&& self.spec_end() <= PPN_LIMIT
        &&& forall|i: int|
            0 <= i < self.spec_recycled().len() ==> self.spec_start() <= #[trigger] self.spec_recycled()[i]
                < self.spec_current()
        &&& forall|i: int, j: int|
            0 <= i < j < self.spec_recycled().len() ==> #[trigger] self.spec_recycled()[i]
                != #[trigger] self.spec_recycled()[j]
    }

    /// A page is live when it has been handed out and not yet returned:
    /// exactly the pages some `FrameTracker` may rightfully hold.
    pub open spec fn live(self, p: u64) -> bool {
        &&& self.spec_start() <= p < self.spec_current()
        &&& !self.spec_recycled().contains(p)
    }

    /// Number of frames still available: the free list plus the pages
    /// the cursor has not yet reached.
    pub open spec fn free_count(self) -> int {
        self.spec_recycled().len() + (self.spec_end() - self.spec_current())
    }

    /// Both sources of frames are empty.
    pub open spec fn exhausted(self) -> bool {
        self.spec_recycled().len() == 0 && self.spec_current() == self.spec_end()
    }

    /// The page the next allocation will hand out, if any: the most
    /// recently freed page first, else the cursor.
    pub open spec fn alloc_would_give(self) -> Option<u64> {
        if self.spec_recycled().len() > 0 {
            Some(self.spec_recycled().last())
        } else if self.spec_current() < self.spec_end() {
            Some(self.spec_current())
        } else {
            None
        }
    }

    /// Observationally identical allocator states.
    pub open spec fn state_eq(pre: Self, post: Self) -> bool {
        &&& post.spec_start() == pre.spec_start()
        &&& post.spec_current() == pre.spec_current()
        &&& post.spec_end() == pre.spec_end()
        &&& post.spec_recycled() == pre.spec_recycled()
    }

    /// How a successful `dealloc` of page `p` changes the state.
    pub open spec fn dealloc_post(pre: Self, post: Self, p: u64) -> bool {
        &&& post.spec_start() == pre.spec_start()
        &&& post.spec_current() == pre.spec_current()
        &&& post.spec_end() == pre.spec_end()
        &&& post.spec_recycled() == pre.spec_recycled().push(p)
    }

    /// An allocator before `init`: empty range, nothing recorded.
    pub open spec fn is_fresh(self) -> bool {
        &&& self.spec_start() == 0
        &&& self.spec_current() == 0
        &&& self.spec_end() == 0
        &&& self.spec_recycled().len() == 0
    }

    /// Builds an allocator with an empty range; `init` fixes the range
    /// once the kernel layout is known.
    pub fn new() -> (r: StackFrameAllocator)
        ensures
            r.is_fresh(),
            r.wf(),
    {
        StackFrameAllocator { start: 0, current: 0, end: 0, recycled: Vec::new() }
    }

    /// Fixes the allocatable range `[l, r)`; called once, after boot.
    pub fn init(&mut self, l: PhysPageNum, r: PhysPageNum)
        requires
            old(self).is_fresh(),
            l.0 <= r.0,
            r.0 <= PPN_LIMIT,
        ensures
            final(self).wf(),
            final(self).spec_start() == l.0,
            final(self).spec_current() == l.0,
            final(self).spec_end() == r.0,
            final(self).spec_recycled().len() == 0,
            forall|q: u64| !final(self).live(q),
    {
        self.start = l.0;
        self.current = l.0;
        self.end = r.0;
    }

    /// Hands out a free frame: the most recently freed one if any page has
    /// been recycled, else the next page at the cursor.  Returns `None`
    /// when both sources are empty.  The returned page was not live
    /// before the call — no two live frames ever share a page number.
    pub fn alloc_frame(&mut self) -> (r: Option<PhysPageNum>)
        requires
            old(self).wf(),
        ensures
            final(self).wf(),
            final(self).spec_start() == old(self).spec_start(),
            final(self).spec_end() == old(self).spec_end(),
            r is None ==> old(self).alloc_would_give() is None && Self::state_eq(
                *old(self),
                *final(self),
            ) && old(self).exhausted(),
            r matches Some(p) ==> {
                &&& old(self).alloc_would_give() == Some(p.0)
                &&& !old(self).live(p.0)
                &&& final(self).live(p.0)
                &&& old(self).spec_start() <= p.0 < old(self).spec_end()
                &&& p.0 < PPN_LIMIT
                &&& forall|q: u64| q != p.0 ==> final(self).live(q) == old(self).live(q)
                &&& final(self).free_count() == old(self).free_count() - 1
                &&& if old(self).spec_recycled().len() > 0 {
                    final(self).spec_recycled() == old(self).spec_recycled().drop_last()
                        && final(self).spec_current() == old(self).spec_current()
                } else {
                    final(self).spec_recycled() == old(self).spec_recycled()
                        && final(self).spec_current() == old(self).spec_current() + 1
                }
            },
    {
        let ghost pre = *self;
        match self.recycled.pop() {
            Some(p) => {
                proof {
                    assert(pre.spec_recycled().contains(p)) by {
                        assert(pre.spec_recycled()[pre.spec_recycled().len() - 1] == p);
                    }
                    assert forall|q: u64| q != p implies self.live(q) == pre.live(q) by {
                        lemma_drop_last_contains(pre.spec_recycled(), q);
                    }
                    assert(!self.spec_recycled().contains(p)) by {
                        if self.spec_recycled().contains(p) {
                            let i = choose|i: int|
                                0 <= i < self.spec_recycled().len() && self.spec_recycled()[i]
                                    == p;
                            assert(pre.spec_recycled()[i] == pre.spec_recycled()[pre.spec_recycled().len()
                                - 1]);
                        }
                    }
                }
                Some(PhysPageNum(p))
            },
            None => {
                if self.current == self.end {
                    None
                } else {
                    let p = self.current;
                    self.current = self.current + 1;
                    proof {
                        assert(!pre.spec_recycled().contains(p)) by {
                            if pre.spec_recycled().contains(p) {
                                let i = choose|i: int|
                                    0 <= i < pre.spec_recycled().len()
                                        && pre.spec_recycled()[i] == p;
                            }
                        }
                    }
                    Some(PhysPageNum(p))
                }
            },
        }
    }

    /// Takes back a live frame, recording it for reuse.  Refuses a page
    /// outside the ever-allocated range and a page already in the free
    /// list (a double free).
    pub fn dealloc(&mut self, ppn: PhysPageNum) -> (r: Result<(), KernelError>)
        requires
            old(self).wf(),
        ensures
            final(self).wf(),
            r is Ok <==> old(self).live(ppn.0),
            r is Err ==> Self::state_eq(*old(self), *final(self)) && r == Err::<(), KernelError>(
                KernelError::InvalidFrame,
            ),
            r is Ok ==> {
                &&& StackFrameAllocator::dealloc_post(*old(self), *final(self), ppn.0)
                &&& !final(self).live(ppn.0)
                &&& forall|q: u64| q != ppn.0 ==> final(self).live(q) == old(self).live(q)
            },
    {
        let p = ppn.0;
        if p < self.start || p >= self.current {
            return Err(KernelError::InvalidFrame);
        }
        let mut i: usize = 0;
        while i < self.recycled.len()
            invariant
                *self == *old(self),
                old(self).wf(),
                p == ppn.0,
                old(self).spec_start() <= p < old(self).spec_current(),
                i <= self.recycled.len(),
                forall|j: int| 0 <= j < i ==> self.recycled@[j] != p,
            decreases self.recycled.len() - i,
        {
            if self.recycled[i] == p {
                proof {
                    assert(self.spec_recycled().contains(p)) by {
                        assert(self.spec_recycled()[i as int] == p);
                    }
                }
                return Err(KernelError::InvalidFrame);
            }
            i = i + 1;
        }
        proof {
            assert(!self.spec_recycled().contains(p)) by {
                if self.spec_recycled().contains(p) {
                    let j = choose|j: int|
                        0 <= j < self.spec_recycled().len() && self.spec_recycled()[j] == p;
                }
            }
        }
        let ghost pre = *self;
        self.recycled.push(p);
        proof {
            assert forall|q: u64| q != p implies self.live(q) == pre.live(q) by {
                lemma_push_contains(pre.spec_recycled(), p, q);
            }
            assert(self.spec_recycled().contains(p)) by {
                assert(self.spec_recycled()[self.spec_recycled().len() - 1] == p);
            }
        }
        Ok(())
    }
}

/// For a nonempty sequence and `q` other than its last element, dropping
/// the last element does not change whether `q` occurs.
proof fn lemma_drop_last_contains(s: Seq<u64>, q: u64)
    requires
        s.len() > 0,
        q != s.last(),
    ensures
        s.drop_last().contains(q) == s.contains(q),
{
    if s.contains(q) {
        let i = choose|i: int| 0 <= i < s.len() && s[i] == q;
        assert(i < s.len() - 1);
        assert(s.drop_last()[i] == q);
    }
    if s.drop_last().contains(q) {
        let i = choose|i: int| 0 <= i < s.drop_last().len() && s.drop_last()[i] == q;
        assert(s[i] == q);
    }
}

/// For `q` other than the pushed element, pushing does not change whether
/// `q` occurs.
proof fn lemma_push_contains(s: Seq<u64>, p: u64, q: u64)
    requires
        q != p,
    ensures
        s.push(p).contains(q) == s.contains(q),
{
    if s.contains(q) {
        let i = choose|i: int| 0 <= i < s.len() && s[i] == q;
        assert(s.push(p)[i] == q);
    }
    if s.push(p).contains(q) {
        let i = choose|i: int| 0 <= i < s.push(p).len() && s.push(p)[i] == q;
        assert(i < s.len());
        assert(s[i] == q);
    }
}

/// No allocation ever returns a page that is still live: together with
/// `alloc`'s postcondition this keeps every pair of outstanding frame
/// handles on distinct page numbers, whatever sequence of allocations and
/// deallocations produced them.
pub proof fn lemma_alloc_is_fresh(a: StackFrameAllocator, p: u64)
    requires
        a.wf(),
        a.alloc_would_give() == Some(p),
    ensures
        !a.live(p),
{
    if a.spec_recycled().len() > 0 {
        assert(a.spec_recycled().contains(p)) by {
            assert(a.spec_recycled()[a.spec_recycled().len() - 1] == p);
        }
    }
}

/// A page handed back to the allocator is available again at once: the
/// very next allocation returns it.
pub proof fn lemma_freed_page_available(a: StackFrameAllocator, b: StackFrameAllocator, p: u64)
    requires
        a.wf(),
        a.live(p),
        StackFrameAllocator::dealloc_post(a, b, p),
    ensures
        b.alloc_would_give() == Some(p),
{
    assert(b.spec_recycled().last() == p);
}

/// Ownership handle for exactly one physical frame.  Whoever holds the
/// tracker holds the frame; handing the frame back goes through
/// `frame_dealloc`, once, on every exit path.
#[derive(Debug)]
pub struct FrameTracker {
    pub ppn: PhysPageNum,
}

impl FrameTracker {
    /// Wraps a freshly allocated page in its ownership handle.
    pub fn new(ppn: PhysPageNum) -> (r: FrameTracker)
        ensures
            r.ppn == ppn,
    {
        FrameTracker { ppn }
    }
}

/// Readies the allocator over the physical pages between the end of the
/// kernel image and the end of usable memory.
pub fn init_frame_allocator(
    allocator: &mut StackFrameAllocator,
    kernel_end: PhysAddr,
    memory_end: PhysAddr,
)
    requires
        old(allocator).is_fresh(),
        kernel_end.wf(),
        memory_end.wf(),
        (kernel_end.0 + PAGE_SIZE - 1) / (PAGE_SIZE as int) <= memory_end.0 as int / (PAGE_SIZE as int),
    ensures
        final(allocator).wf(),
        final(allocator).spec_start() == (kernel_end.0 + PAGE_SIZE - 1) / (PAGE_SIZE as int),
        final(allocator).spec_current() == final(allocator).spec_start(),
        final(allocator).spec_end() == memory_end.0 as int / (PAGE_SIZE as int),
        final(allocator).spec_recycled().len() == 0,
        forall|q: u64| !final(allocator).live(q),
{
    let l = kernel_end.ceil();
    let r = memory_end.floor();
    allocator.init(l, r);
}

/// Allocates one frame and wraps it in its ownership handle.
pub fn frame_alloc(allocator: &mut StackFrameAllocator) -> (r: Option<FrameTracker>)
    requires
        old(allocator).wf(),
    ensures
        final(allocator).wf(),
        final(allocator).spec_start() == old(allocator).spec_start(),
        final(allocator).spec_end() == old(allocator).spec_end(),
        r is None ==> StackFrameAllocator::state_eq(*old(allocator), *final(allocator))
            && old(allocator).exhausted(),
        r matches Some(t) ==> {
            &&& final(allocator).free_count() == old(allocator).free_count() - 1
            &&& old(allocator).alloc_would_give() == Some(t.ppn.0)
            &&& !old(allocator).live(t.ppn.0)
            &&& final(allocator).live(t.ppn.0)
            &&& t.ppn.0 < PPN_LIMIT
            &&& forall|q: u64| q != t.ppn.0 ==> final(allocator).live(q) == old(allocator).live(q)
        },
{
    match allocator.alloc_frame() {
        Some(ppn) => Some(FrameTracker::new(ppn)),
        None => None,
    }
}

/// Returns one frame to the allocator, consuming its handle.
pub fn frame_dealloc(allocator: &mut StackFrameAllocator, ppn: PhysPageNum) -> (r: Result<
    (),
    KernelError,
>)
    requires
        old(allocator).wf(),
    ensures
        final(allocator).wf(),
        r is Ok <==> old(allocator).live(ppn.0),
        r is Err ==> StackFrameAllocator::state_eq(*old(allocator), *final(allocator)),
        r is Ok ==> {
            &&& StackFrameAllocator::dealloc_post(*old(allocator), *final(allocator), ppn.0)
            &&& !final(allocator).live(ppn.0)
            &&& forall|q: u64|
                q != ppn.0 ==> final(allocator).live(q) == old(allocator).live(q)
        },
{
    allocator.dealloc(ppn)
}

/// Page `q` is among the trackers of `s` at or after position `k`.
pub open spec fn tracker_suffix_holds(s: Seq<FrameTracker>, k: int, q: u64) -> bool {
    exists|j: int| k <= j < s.len() && #[trigger] s[j].ppn.0 == q
}

/// Returns a whole list of distinct live frames to the allocator; every
/// page of the list stops being live, everything else is untouched.
pub fn free_frames(frames: Vec<FrameTracker>, allocator: &mut StackFrameAllocator)
    requires
        old(allocator).wf(),
        forall|i: int| 0 <= i < frames@.len() ==> old(allocator).live(#[trigger] frames@[i].ppn.0),
        forall|i: int, j: int|
            0 <= i < j < frames@.len() ==> #[trigger] frames@[i].ppn.0 != #[trigger] frames@[j].ppn.0,
    ensures
        final(allocator).wf(),
        final(allocator).spec_start() == old(allocator).spec_start(),
        final(allocator).spec_end() == old(allocator).spec_end(),
        forall|q: u64|
            #[trigger] final(allocator).live(q) == (old(allocator).live(q)
                && !tracker_suffix_holds(frames@, 0, q)),
{
    let ghost orig = frames@;
    let ghost pre_a = *old(allocator);
    let mut rest = frames;
    loop
        invariant
            allocator.wf(),
            allocator.spec_start() == pre_a.spec_start(),
            allocator.spec_end() == pre_a.spec_end(),
            rest@.len() <= orig.len(),
            rest@ == orig.subrange(0, rest@.len() as int),
            forall|i: int, j: int|
                0 <= i < j < orig.len() ==> #[trigger] orig[i].ppn.0 != #[trigger] orig[j].ppn.0,
            forall|i: int| 0 <= i < orig.len() ==> pre_a.live(#[trigger] orig[i].ppn.0),
            forall|q: u64|
                allocator.live(q) == (pre_a.live(q) && !tracker_suffix_holds(
                    orig,
                    rest@.len() as int,
                    q,
                )),
        ensures
            allocator.wf(),
            allocator.spec_start() == pre_a.spec_start(),
            allocator.spec_end() == pre_a.spec_end(),
            forall|q: u64|
                #[trigger] allocator.live(q) == (pre_a.live(q) && !tracker_suffix_holds(
                    orig,
                    0,
                    q,
                )),
        decreases rest@.len(),
    {
        let ghost k = rest@.len() as int;
        match rest.pop() {
            None => {
                break;
            },
            Some(t) => {
                proof {
                    assert(t == orig[k - 1]);
                    assert(rest@ =~= orig.subrange(0, k - 1));
                    assert(allocator.live(t.ppn.0)) by {
                        assert(pre_a.live(orig[k - 1].ppn.0));
                        if tracker_suffix_holds(orig, k, t.ppn.0) {
                            let j = choose|j: int|
                                k <= j < orig.len() && #[trigger] orig[j].ppn.0 == t.ppn.0;
                            assert(orig[k - 1].ppn.0 != orig[j].ppn.0);
                        }
                    }
                }
                let ghost a_mid = *allocator;
                match frame_dealloc(allocator, t.ppn) {
                    Ok(_) => {
                        proof {
                            assert forall|q: u64|
                                allocator.live(q) == (pre_a.live(q) && !tracker_suffix_holds(
                                    orig,
                                    k - 1,
                                    q,
                                )) by {
                                if q == t.ppn.0 {
                                    assert(tracker_suffix_holds(orig, k - 1, q)) by {
                                        assert(orig[k - 1].ppn.0 == q);
                                    }
                                } else {
                                    assert(allocator.live(q) == a_mid.live(q));
                                    assert(tracker_suffix_holds(orig, k - 1, q)
                                        == tracker_suffix_holds(orig, k, q)) by {
                                        if tracker_suffix_holds(orig, k - 1, q) {
                                            let j = choose|j: int|
                                                k - 1 <= j < orig.len() && #[trigger] orig[j].ppn.0
                                                    == q;
                                            assert(j != k - 1);
                                            assert(tracker_suffix_holds(orig, k, q));
                                        }
                                        if tracker_suffix_holds(orig, k, q) {
                                            let j = choose|j: int|
                                                k <= j < orig.len() && #[trigger] orig[j].ppn.0
                                                    == q;
                                            assert(tracker_suffix_holds(orig, k - 1, q));
                                        }
                                    }
                                }
                            }
                        }
                    },
                    Err(_) => {
                        proof {
                            assert(false);
                        }
                    },
                }
            },
        }
    }
}

} // verus!
