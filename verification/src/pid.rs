//! Process identifier allocation: a bump counter with a recycling stack,
//! like the frame allocator but unbounded.

use vstd::prelude::*;

verus! {

/// A held process identifier.
#[derive(Clone, Copy, PartialEq, Eq, Structural, Debug)]
pub struct PidHandle(pub u64);

/// Allocates process identifiers.
pub struct PidAllocator {
    current: u64,
    recycled: Vec<u64>,
}

impl PidAllocator {
    /// The next never-used identifier.
    pub closed spec fn current_pid(self) -> u64 {
        self.current
    }

    /// The identifiers currently on the recycling stack.
    pub closed spec fn recycled_seq(self) -> Seq<u64> {
        self.recycled@
    }

    /// Whether `pid` is currently held.
    pub open spec fn is_live(self, pid: u64) -> bool {
        pid < self.current_pid() && !self.recycled_seq().contains(pid)
    }

    /// Recycled identifiers were handed out and are mutually distinct.
    pub open spec fn wf(self) -> bool {
        &&& forall|i: int|
            0 <= i < self.recycled_seq().len() ==> #[trigger] self.recycled_seq()[i]
                < self.current_pid()
        &&& forall|i: int, j: int|
            0 <= i < j < self.recycled_seq().len() ==> self.recycled_seq()[i]
                != self.recycled_seq()[j]
    }

    /// An allocator that has handed out nothing.
    pub fn new() -> (r: Self)
        ensures
            r.wf(),
            forall|pid: u64| !r.is_live(pid),
    {
        PidAllocator { current: 0, recycled: Vec::new() }
    }

    /// Hands out an identifier: the most recently recycled, or a fresh
    /// one.
    pub fn alloc_pid(&mut self) -> (r: PidHandle)
        requires
            old(self).wf(),
            old(self).current_pid() < 0xFFFF_FFFF_FFFF_FFFFu64,
        ensures
            final(self).wf(),
            !old(self).is_live(r.0),
            final(self).is_live(r.0),
            forall|q: u64| q != r.0 ==> final(self).is_live(q) == old(self).is_live(q),
            old(self).recycled_seq().len() > 0 ==> {
                &&& r.0 == old(self).recycled_seq().last()
                &&& final(self).recycled_seq() == old(self).recycled_seq().drop_last()
                &&& final(self).current_pid() == old(self).current_pid()
            },
            old(self).recycled_seq().len() == 0 ==> {
                &&& r.0 == old(self).current_pid()
                &&& final(self).current_pid() == old(self).current_pid() + 1
                &&& final(self).recycled_seq() == old(self).recycled_seq()
            },
    {
        match self.recycled.pop() {
            Some(pid) => {
                proof {
                    assert(old(self).recycled_seq()[old(self).recycled_seq().len() - 1]
                        == pid);
                    assert forall|q: u64| self.recycled_seq().contains(q) implies old(
                        self,
                    ).recycled_seq().contains(q) by {
                        let i = choose|i: int|
                            0 <= i < self.recycled_seq().len()
                                && #[trigger] self.recycled_seq()[i] == q;
                        assert(old(self).recycled_seq()[i] == q);
                    }
                    assert(!self.recycled_seq().contains(pid)) by {
                        if self.recycled_seq().contains(pid) {
                            let i = choose|i: int|
                                0 <= i < self.recycled_seq().len()
                                    && #[trigger] self.recycled_seq()[i] == pid;
                            assert(old(self).recycled_seq()[i] == pid);
                        }
                    }
                    assert forall|q: u64| q != pid && old(self).recycled_seq().contains(
                        q,
                    ) implies self.recycled_seq().contains(q) by {
                        let i = choose|i: int|
                            0 <= i < old(self).recycled_seq().len() && #[trigger] old(
                                self,
                            ).recycled_seq()[i] == q;
                        assert(i < old(self).recycled_seq().len() - 1);
                        assert(self.recycled_seq()[i] == q);
                    }
                }
                PidHandle(pid)
            },
            None => {
                let pid = self.current;
                self.current = self.current + 1;
                PidHandle(pid)
            },
        }
    }

    /// Takes back a held identifier.
    pub fn dealloc(&mut self, pid: u64)
        requires
            old(self).wf(),
            old(self).is_live(pid),
        ensures
            final(self).wf(),
            !final(self).is_live(pid),
            forall|q: u64| q != pid ==> final(self).is_live(q) == old(self).is_live(q),
    {
        self.recycled.push(pid);
        proof {
            assert(self.recycled_seq()[self.recycled_seq().len() - 1] == pid);
            assert forall|q: u64| q != pid implies self.recycled_seq().contains(q) == old(
                self,
            ).recycled_seq().contains(q) by {
                if old(self).recycled_seq().contains(q) {
                    let i = choose|i: int|
                        0 <= i < old(self).recycled_seq().len() && #[trigger] old(
                            self,
                        ).recycled_seq()[i] == q;
                    assert(self.recycled_seq()[i] == q);
                }
                if self.recycled_seq().contains(q) {
                    let i = choose|i: int|
                        0 <= i < self.recycled_seq().len() && #[trigger] self.recycled_seq()[i]
                            == q;
                    assert(i < old(self).recycled_seq().len());
                    assert(old(self).recycled_seq()[i] == q);
                }
            }
        }
    }
}

/// Hands out an identifier from `pa`.
pub fn pid_alloc(pa: &mut PidAllocator) -> (r: PidHandle)
    requires
        old(pa).wf(),
        old(pa).current_pid() < 0xFFFF_FFFF_FFFF_FFFFu64,
    ensures
        final(pa).wf(),
        !old(pa).is_live(r.0),
        final(pa).is_live(r.0),
{
    pa.alloc_pid()
}

} // verus!
