//! Marking the old generation while the program keeps running.
//!
//! A cycle begins in a pause that empties the nursery into the old generation
//! and hands the roots to a [`Job`]. From then on the job marks everything that
//! was reachable *at that moment* -- snapshot-at-the-beginning -- while the
//! program carries on. Allocation is black, and overwrites are logged.
//!
//! This is what a marker decides: which entries it takes, what it reads of the
//! object an entry names, what it pushes, and when it stops. The threads, the
//! locks and the clock are around it; what they answer is an argument here.

use super::object::{slots, Addr, Head, Kind, Word};
use crate::terms::desc::REF;
use vstd::prelude::*;

verus! {

/// Fields of one object read before the marker checks the time again, and
/// before it lets go of a large object to come back to it.
pub const CHUNK: usize = 4096;

/// Entries taken from the shared stack at once.
pub const BATCH: usize = 4096;

/// Where the old generation's addresses start.
pub const OLD_BASE: Addr = 0x4000_0000;

/// Where the regions' addresses start.
pub const REGION_BASE: Addr = 0x8000_0000;

/// Slots of a block.
pub const BLOCK: u32 = 8192;

/// The block an old address is in.
pub open spec fn block_of(a: int) -> int {
    (a - OLD_BASE) / (BLOCK as int)
}

/// Its slot in that block.
pub open spec fn offset_of(a: int) -> int {
    (a - OLD_BASE) % (BLOCK as int)
}

/// What is left to mark: an address, and in the high half the field to carry on
/// from, which is 0 for an object not yet looked at.
pub open spec fn entry_of(a: Addr, from: nat) -> u64 {
    (a + from * 0x1_0000_0000) as u64
}

/// An entry's address.
pub open spec fn entry_addr(e: u64) -> Addr {
    (e % 0x1_0000_0000) as Addr
}

/// The field an entry carries on from.
pub open spec fn entry_from(e: u64) -> nat {
    (e / 0x1_0000_0000) as nat
}

pub fn entry(a: Addr, from: usize) -> (e: u64)
    requires
        from <= u32::MAX,
    ensures
        e == entry_of(a, from as nat),
        entry_addr(e) == a,
        entry_from(e) == from,
{
    a as u64 + from as u64 * 0x1_0000_0000
}

/// A block of the old generation, as the cycle found it.
pub struct Block {
    /// It holds nothing.
    pub empty: bool,
    /// It is a chunk of a frame stack, whose frames were roots.
    pub stack: bool,
    /// It was chosen for evacuation, so what points into it is noted.
    pub watched: bool,
    pub words: Vec<Word>,
}

/// A block of a region.
#[derive(Debug, Clone, Copy)]
pub struct Region {
    pub base: Addr,
    pub cap: u32,
    pub region: u32,
}

/// What is left to mark, and how many markers hold some of it.
pub struct Grey {
    pub stack: Vec<u64>,
    /// Markers holding a batch taken from `stack`.
    pub working: usize,
}

/// A cycle's marking.
pub struct Job {
    pub epoch: u32,
    /// The heap's block table when the cycle began.
    pub blocks: Vec<Block>,
    /// Its region blocks then, in order, to tell which region an address is in.
    pub regions: Vec<Region>,
    pub grey: Grey,
    /// Regions reached, for the heap to keep.
    pub found: Vec<u32>,
    /// The top chunk of every detached stack segment a live object names.
    pub stacks: Vec<Addr>,
    pub marked: u64,
    pub nanos: u64,
    pub queued: bool,
    pub cancelled: bool,
}

/// What scanning an entry comes to.
pub struct Scan {
    /// How much work it was, in fields read.
    pub work: usize,
    /// Entries to mark next, the last first.
    pub local: Vec<u64>,
    /// Regions reached.
    pub found: Vec<u32>,
    /// Fields that point into a watched block, each with that block in its high
    /// half.
    pub refs: Vec<u64>,
    /// The size of an object marked for the first time, whose lines are to be
    /// stamped and counted live.
    pub live: Option<u64>,
    /// The top chunk of a detached stack segment.
    pub stack: Option<Addr>,
}

impl Job {
    /// The regions are in order of their addresses.
    pub open spec fn wf(&self) -> bool {
        &&& forall|i: int, j: int|
            0 <= i < j < self.regions@.len() ==> (#[trigger] self.regions@[i]).base < (#[trigger] self.regions@[j]).base
        &&& self.blocks@.len() <= 0x2_0000
        &&& forall|i: int| 0 <= i < self.blocks@.len() ==> (#[trigger] self.blocks@[i]).words@.len() == BLOCK
    }

    pub fn new(epoch: u32, blocks: Vec<Block>, regions: Vec<Region>) -> (j: Job)
        ensures
            j.epoch == epoch,
            j.blocks == blocks,
            j.regions == regions,
            j.grey.stack@.len() == 0 && j.grey.working == 0,
            j.found@.len() == 0 && j.stacks@.len() == 0,
            j.marked == 0 && j.nanos == 0,
            !j.queued && !j.cancelled,
    {
        Job {
            epoch,
            blocks,
            regions,
            grey: Grey { stack: Vec::new(), working: 0 },
            found: Vec::new(),
            stacks: Vec::new(),
            marked: 0,
            nanos: 0,
            queued: false,
            cancelled: false,
        }
    }

    /// Mark from these addresses too: roots, or logged overwrites.
    pub fn push(&mut self, addrs: &[Addr])
        ensures
            *final(self) == (Job { grey: final(self).grey, ..*old(self) }),
            final(self).grey.working == old(self).grey.working,
            final(self).grey.stack@ == old(self).grey.stack@ + addrs@.map_values(|a: Addr| entry_of(a, 0)),
    {
        let mut i: usize = 0;
        proof {
            assert(addrs@.take(0).map_values(|a: Addr| entry_of(a, 0)) =~= Seq::<u64>::empty());
            assert(self.grey.stack@ + Seq::<u64>::empty() =~= self.grey.stack@);
        }
        while i < addrs.len()
            invariant
                i <= addrs@.len(),
                *self == (Job { grey: self.grey, ..*old(self) }),
                self.grey.working == old(self).grey.working,
                self.grey.stack@ == old(self).grey.stack@ + addrs@.take(i as int).map_values(|a: Addr| entry_of(a, 0)),
            decreases addrs.len() - i,
        {
            self.grey.stack.push(entry(addrs[i], 0));
            proof {
                assert(addrs@.take(i + 1).map_values(|a: Addr| entry_of(a, 0)) =~= addrs@.take(i as int).map_values(
                    |a: Addr| entry_of(a, 0),
                ).push(entry_of(addrs@[i as int], 0)));
                assert(self.grey.stack@ =~= old(self).grey.stack@ + addrs@.take(i + 1).map_values(
                    |a: Addr| entry_of(a, 0),
                ));
            }
            i = i + 1;
        }
        proof {
            assert(addrs@.take(i as int) =~= addrs@);
        }
    }

    pub fn has_work(&self) -> (r: bool)
        ensures
            r == (self.grey.stack@.len() > 0),
    {
        self.grey.stack.len() > 0
    }

    /// Nothing left to mark, and no one in the middle of marking. Only the
    /// heap's own thread can add more, so this stays true until it does.
    pub fn is_done(&self) -> (r: bool)
        ensures
            r == (self.grey.stack@.len() == 0 && self.grey.working == 0),
    {
        self.grey.stack.len() == 0 && self.grey.working == 0
    }

    /// The heap is done with this job, or gone: stop working on it.
    pub fn cancel(&mut self)
        ensures
            *final(self) == (Job { cancelled: true, ..*old(self) }),
    {
        self.cancelled = true;
    }

    pub fn marked(&self) -> (r: u64)
        ensures
            r == self.marked,
    {
        self.marked
    }

    pub fn nanos(&self) -> (r: u64)
        ensures
            r == self.nanos,
    {
        self.nanos
    }

    /// The regions reached since this was last asked, each once, in order.
    pub fn found(&mut self) -> (r: Vec<u32>)
        ensures
            *final(self) == (Job { found: final(self).found, ..*old(self) }),
            final(self).found@.len() == 0,
            forall|i: int, j: int| 0 <= i < j < r@.len() ==> #[trigger] r@[i] < #[trigger] r@[j],
            forall|x: u32| #[trigger] old(self).found@.contains(x) <==> r@.contains(x),
    {
        let mut r: Vec<u32> = Vec::new();
        let ghost all = self.found@;
        while self.found.len() > 0
            invariant
                *self == (Job { found: self.found, ..*old(self) }),
                all == old(self).found@,
                forall|i: int, j: int| 0 <= i < j < r@.len() ==> #[trigger] r@[i] < #[trigger] r@[j],
                forall|x: u32| #[trigger] all.contains(x) <==> r@.contains(x) || self.found@.contains(x),
            decreases self.found@.len(),
        {
            let ghost left = self.found@;
            let ghost had = r@;
            if let Some(x) = self.found.pop() {
                insert(&mut r, x);
                proof {
                    assert forall|y: u32| #[trigger] all.contains(y) <==> r@.contains(y) || self.found@.contains(y) by {
                        if left.contains(y) {
                            let i = choose|i: int| 0 <= i < left.len() && left[i] == y;
                            if i < left.len() - 1 {
                                assert(self.found@[i] == y);
                            }
                        }
                        if self.found@.contains(y) {
                            let i = choose|i: int| 0 <= i < self.found@.len() && self.found@[i] == y;
                            assert(left[i] == y);
                        }
                        assert(left[left.len() - 1] == x);
                    }
                }
            }
        }
        r
    }

    /// The detached stack segments live objects named, by top chunk.
    pub fn stacks(&self) -> (r: &Vec<Addr>)
        ensures
            *r == self.stacks,
    {
        &self.stacks
    }

    /// Take a batch to mark: what was pushed last. Nothing, when there is none.
    pub fn take(&mut self) -> (r: Option<Vec<u64>>)
        requires
            old(self).grey.working < usize::MAX,
        ensures
            old(self).grey.stack@.len() == 0 ==> r is None && *final(self) == *old(self),
            old(self).grey.stack@.len() > 0 ==> {
                let n = old(self).grey.stack@.len();
                let keep = if n > BATCH {
                    n - BATCH
                } else {
                    0
                };
                &&& r is Some
                &&& r->0@ == old(self).grey.stack@.skip(keep)
                &&& final(self).grey.stack@ == old(self).grey.stack@.take(keep)
                &&& final(self).grey.working == old(self).grey.working + 1
                &&& *final(self) == (Job { grey: final(self).grey, ..*old(self) })
            },
    {
        let n: usize = self.grey.stack.len();
        if n == 0 {
            return None;
        }
        self.grey.working = self.grey.working + 1;
        let keep: usize = if n > BATCH {
            n - BATCH
        } else {
            0
        };
        let ghost whole = self.grey.stack@;
        let batch: Vec<u64> = self.grey.stack.split_off(keep);
        proof {
            assert(batch@ =~= whole.skip(keep as int));
        }
        Some(batch)
    }

    /// Give back what is left of a batch, and say what came of the rest.
    pub fn give_back(&mut self, local: Vec<u64>, found: Vec<u32>, marked: u64, nanos: u64)
        requires
            old(self).grey.working > 0,
            old(self).marked + marked <= u64::MAX,
            old(self).nanos + nanos <= u64::MAX,
        ensures
            final(self).grey.stack@ == old(self).grey.stack@ + local@,
            final(self).grey.working == old(self).grey.working - 1,
            final(self).found@ == old(self).found@ + found@,
            final(self).marked == old(self).marked + marked,
            final(self).nanos == old(self).nanos + nanos,
            *final(self) == (Job {
                grey: final(self).grey,
                found: final(self).found,
                marked: final(self).marked,
                nanos: final(self).nanos,
                ..*old(self)
            }),
    {
        let mut more: Vec<u32> = found;
        self.found.append(&mut more);
        self.marked = self.marked + marked;
        self.nanos = self.nanos + nanos;
        let mut left: Vec<u64> = local;
        self.grey.stack.append(&mut left);
        self.grey.working = self.grey.working - 1;
    }

    /// Region block `i` holds address `a`.
    pub open spec fn holds_region(&self, a: Addr, i: int) -> bool {
        &&& 0 <= i < self.regions@.len()
        &&& self.regions@[i].base <= a
        &&& (i + 1 < self.regions@.len() ==> a < self.regions@[i + 1].base)
        &&& a - self.regions@[i].base < self.regions@[i].cap
    }

    /// The region address `a` is in: that of the last block that starts no
    /// later, if it reaches so far.
    pub open spec fn region_at(&self, a: Addr) -> Option<u32> {
        if exists|i: int| self.holds_region(a, i) {
            Some(self.regions@[choose|i: int| self.holds_region(a, i)].region)
        } else {
            None
        }
    }

    pub fn region_of(&self, a: Addr) -> (r: Option<u32>)
        requires
            self.wf(),
        ensures
            r == self.region_at(a),
    {
        // How many blocks start no later than `a`.
        let mut lo: usize = 0;
        let mut hi: usize = self.regions.len();
        while lo < hi
            invariant
                self.wf(),
                lo <= hi <= self.regions@.len(),
                forall|i: int| 0 <= i < lo ==> (#[trigger] self.regions@[i]).base <= a,
                forall|i: int| hi <= i < self.regions@.len() ==> a < (#[trigger] self.regions@[i]).base,
            decreases hi - lo,
        {
            let mid: usize = lo + (hi - lo) / 2;
            if self.regions[mid].base <= a {
                proof {
                    assert forall|i: int| 0 <= i < mid + 1 implies (#[trigger] self.regions@[i]).base <= a by {
                        if i < mid {
                            assert(self.regions@[i].base < self.regions@[mid as int].base);
                        }
                    }
                }
                lo = mid + 1;
            } else {
                proof {
                    assert forall|i: int| mid <= i < self.regions@.len() implies a < (#[trigger] self.regions@[i]).base by {
                        if i > mid {
                            assert(self.regions@[mid as int].base < self.regions@[i].base);
                        }
                    }
                }
                hi = mid;
            }
        }
        if lo == 0 {
            proof {
                assert forall|i: int| !self.holds_region(a, i) by {
                    if 0 <= i < self.regions@.len() {
                        assert(a < self.regions@[i].base);
                    }
                }
            }
            return None;
        }
        let b: &Region = &self.regions[lo - 1];
        proof {
            assert forall|i: int| self.holds_region(a, i) implies i == lo - 1 by {
                if i < lo - 1 {
                    assert(self.regions@[i + 1].base <= a);
                } else if i > lo - 1 {
                    assert(a < self.regions@[i].base);
                }
            }
        }
        if a - b.base < b.cap {
            proof {
                assert(self.regions@[lo - 1].base <= a);
                assert(self.holds_region(a, lo - 1));
            }
            Some(b.region)
        } else {
            None
        }
    }

    /// Slot `k` of the object at `a`.
    pub open spec fn word_at(&self, a: int, k: int) -> Word {
        self.blocks@[block_of(a + k)].words@[offset_of(a + k)]
    }

    /// The header of the object at `a`.
    pub open spec fn head(&self, a: int) -> Head {
        Head::of(self.word_at(a, 0), self.word_at(a, 1))
    }

    /// There is an object at `a`, all of it in the table.
    pub open spec fn object_at(&self, a: int) -> bool {
        let h = self.head(a);
        &&& OLD_BASE <= a
        &&& (self.word_at(a, 0) as u8) < 10
        &&& block_of(a + h.slots() + h.len - 1) < self.blocks@.len()
        &&& (h.kind is Stack ==> h.slots() + h.len > 2)
        &&& a + h.slots() + h.len <= REGION_BASE
    }

    /// The words of the header of the object at `a`.
    pub open spec fn header_at(&self, a: int, h: Head) -> Seq<Word> {
        Seq::new(h.slots(), |k: int| self.word_at(a, k))
    }

    /// The address field `i` of the object at `a` holds, if it holds one.
    pub open spec fn pointer(&self, a: int, h: Head, i: int) -> Option<Addr> {
        if h.desc_of(i as nat, self.header_at(a, h)) == REF {
            Some(self.word_at(a, h.slots() + i) as Addr)
        } else {
            None
        }
    }

    /// What the fields `from..end` of the object at `a` have the marker mark.
    pub open spec fn pushes(&self, a: int, h: Head, from: int, end: int) -> Seq<u64>
        decreases end - from,
    {
        if end <= from {
            Seq::empty()
        } else {
            let before = self.pushes(a, h, from, end - 1);
            match self.pointer(a, h, end - 1) {
                Some(x) => if OLD_BASE <= x < REGION_BASE {
                    before.push(entry_of(x, 0))
                } else {
                    before
                },
                None => before,
            }
        }
    }

    /// The fields `from..end` that point into watched blocks.
    pub open spec fn watched(&self, a: int, h: Head, from: int, end: int) -> Seq<u64>
        decreases end - from,
    {
        if end <= from {
            Seq::empty()
        } else {
            let before = self.watched(a, h, from, end - 1);
            match self.pointer(a, h, end - 1) {
                Some(x) => if OLD_BASE <= x < REGION_BASE && block_of(x as int) < self.blocks@.len()
                    && self.blocks@[block_of(x as int)].watched {
                    before.push(entry_of((a + h.slots() + end - 1) as Addr, block_of(x as int) as nat))
                } else {
                    before
                },
                None => before,
            }
        }
    }

    /// The regions the fields `from..end` reach, one not noted again right after
    /// itself, when `so_far` have been found.
    pub open spec fn regions_of(&self, a: int, h: Head, from: int, end: int, so_far: Seq<u32>) -> Seq<u32>
        decreases end - from,
    {
        if end <= from {
            so_far
        } else {
            let before = self.regions_of(a, h, from, end - 1, so_far);
            match self.pointer(a, h, end - 1) {
                Some(x) => if x >= REGION_BASE && self.region_at(x) is Some && (before.len() == 0 || before.last()
                    != self.region_at(x)->0) {
                    before.push(self.region_at(x)->0)
                } else {
                    before
                },
                None => before,
            }
        }
    }

    /// An entry that names no object of the snapshot: not an old address, or one
    /// in a block made since -- all of which is black -- or a chunk of a frame
    /// stack, whose frames were roots.
    pub open spec fn skipped(&self, a: Addr) -> bool {
        ||| a < OLD_BASE
        ||| a >= REGION_BASE
        ||| block_of(a as int) >= self.blocks@.len()
        ||| self.blocks@[block_of(a as int)].empty
        ||| self.blocks@[block_of(a as int)].stack
    }

    fn word(&self, a: Addr, k: u64) -> (w: Word)
        requires
            self.wf(),
            OLD_BASE <= a,
            a + k < REGION_BASE,
            block_of(a + k) < self.blocks@.len(),
        ensures
            w == self.word_at(a as int, k as int),
    {
        let s: u64 = a as u64 + k - OLD_BASE as u64;
        let b: usize = (s / BLOCK as u64) as usize;
        let o: usize = (s % BLOCK as u64) as usize;
        self.blocks[b].words[o]
    }

    /// Does entry `e` name an object of the snapshot? One not yet looked at is
    /// to be marked before it is scanned.
    pub fn wants_scan(&self, e: u64) -> (r: bool)
        requires
            self.wf(),
        ensures
            r == !self.skipped(entry_addr(e)),
    {
        let a: Addr = (e % 0x1_0000_0000) as Addr;
        if a < OLD_BASE || a >= REGION_BASE {
            return false;
        }
        let b: usize = ((a - OLD_BASE) / BLOCK) as usize;
        b < self.blocks.len() && !self.blocks[b].empty && !self.blocks[b].stack
    }

    /// One grey entry: what its object's fields reach. `fresh` says that an
    /// object not looked at before was marked by this very scan -- one that was
    /// marked already is not scanned again -- and `so_far` are the regions this
    /// marker has found.
    pub fn scan(&self, e: u64, fresh: bool, so_far: Vec<u32>, chunk: usize) -> (r: Scan)
        requires
            self.wf(),
            !self.skipped(entry_addr(e)) && (entry_from(e) > 0 || fresh) ==> self.object_at(entry_addr(e) as int)
                && entry_from(e) <= self.head(entry_addr(e) as int).len,
        ensures
            ({
                let a = entry_addr(e);
                let from = entry_from(e);
                let h = self.head(a as int);
                if self.skipped(a) {
                    &&& r.work == 1
                    &&& r.local@.len() == 0 && r.refs@.len() == 0 && r.live is None && r.stack is None
                    &&& r.found@ == (if a >= REGION_BASE && self.region_at(a) is Some {
                        so_far@.push(self.region_at(a)->0)
                    } else {
                        so_far@
                    })
                } else if from == 0 && !fresh {
                    &&& r.work == 1
                    &&& r.local@.len() == 0 && r.refs@.len() == 0 && r.live is None && r.stack is None
                    &&& r.found@ == so_far@
                } else {
                    let most = if chunk < 1 {
                        1
                    } else {
                        chunk as int
                    };
                    let end = if from + most < h.len {
                        from + most
                    } else {
                        h.len as int
                    };
                    let known = if from == 0 && h.kind is Compact {
                        so_far@.push(h.meta)
                    } else {
                        so_far@
                    };
                    &&& r.work == 1 + end - from
                    &&& r.local@ == (if end < h.len {
                        self.pushes(a as int, h, from as int, end).push(entry_of(a, end as nat))
                    } else {
                        self.pushes(a as int, h, from as int, end)
                    })
                    &&& r.refs@ == self.watched(a as int, h, from as int, end)
                    &&& r.found@ == self.regions_of(a as int, h, from as int, end, known)
                    &&& r.live == (if from == 0 {
                        Some((h.slots() + h.len) as u64)
                    } else {
                        None::<u64>
                    })
                    &&& r.stack == (if h.kind is Stack {
                        Some(self.word_at(a as int, 2) as Addr)
                    } else {
                        None::<Addr>
                    })
                }
            }),
    {
        let a: Addr = (e % 0x1_0000_0000) as Addr;
        let from: usize = (e / 0x1_0000_0000) as usize;
        let mut found: Vec<u32> = so_far;
        if !self.wants_scan(e) {
            if a >= REGION_BASE {
                if let Some(id) = self.region_of(a) {
                    found.push(id);
                }
            }
            return Scan { work: 1, local: Vec::new(), found, refs: Vec::new(), live: None, stack: None };
        }
        if from == 0 && !fresh {
            return Scan { work: 1, local: Vec::new(), found, refs: Vec::new(), live: None, stack: None };
        }
        let head: Head = Head::read(self.word(a, 0), self.word(a, 1));
        let ghost h = self.head(a as int);
        let stack: Option<Addr> = if matches!(head.kind, Kind::Stack) {
            Some(self.word(a, 2) as Addr)
        } else {
            None
        };
        let len: usize = head.len as usize;
        let live: Option<u64> = if from == 0 {
            Some(head.size())
        } else {
            None
        };
        if from == 0 && matches!(head.kind, Kind::Compact) {
            found.push(head.meta);
        }
        let ghost known = found@;
        let most: usize = if chunk < 1 {
            1
        } else {
            chunk
        };
        let end: usize = if most < len - from {
            from + most
        } else {
            len
        };
        let before: usize = head.header();
        let mut words: Vec<Word> = Vec::new();
        while words.len() < before
            invariant
                self.wf(),
                self.object_at(a as int),
                h == self.head(a as int),
                before == h.slots(),
                words@.len() <= before,
                words@ == Seq::new(words@.len(), |k: int| self.word_at(a as int, k)),
            decreases before - words.len(),
        {
            let k: u64 = words.len() as u64;
            words.push(self.word(a, k));
            proof {
                assert(words@ =~= Seq::new(words@.len(), |k: int| self.word_at(a as int, k)));
            }
        }
        let mut local: Vec<u64> = Vec::new();
        let mut refs: Vec<u64> = Vec::new();
        let mut i: usize = from;
        while i < end
            invariant
                self.wf(),
                self.object_at(a as int),
                h == self.head(a as int),
                head == h,
                before == h.slots(),
                words@ == self.header_at(a as int, h),
                from <= i <= end <= h.len,
                local@ == self.pushes(a as int, h, from as int, i as int),
                refs@ == self.watched(a as int, h, from as int, i as int),
                found@ == self.regions_of(a as int, h, from as int, i as int, known),
            decreases end - i,
        {
            if head.desc(i, words.as_slice()) == REF {
                let x: Addr = self.word(a, (before + i) as u64) as Addr;
                assert(self.pointer(a as int, h, i as int) == Some(x));
                if x >= REGION_BASE {
                    if let Some(id) = self.region_of(x) {
                        if found.len() == 0 || found[found.len() - 1] != id {
                            found.push(id);
                        }
                    }
                } else if x >= OLD_BASE {
                    let s: Addr = a + (before + i) as Addr;
                    let xb: usize = ((x - OLD_BASE) / BLOCK) as usize;
                    if xb < self.blocks.len() && self.blocks[xb].watched {
                        refs.push(entry(s, xb));
                    }
                    local.push(entry(x, 0));
                }
            }
            i = i + 1;
        }
        if end < len {
            local.push(entry(a, end));
        }
        Scan { work: 1 + (end - from), local, found, refs, live, stack }
    }

    /// Is the job to be put in the marking threads' queue? Not twice.
    pub fn submit(&mut self) -> (r: bool)
        ensures
            r == !old(self).queued,
            *final(self) == (Job { queued: true, ..*old(self) }),
    {
        let was: bool = self.queued;
        self.queued = true;
        !was
    }

    /// After a turn: is the job to go to the back of the queue at once? If not
    /// it is let go of, and [`Job::look_again`] follows.
    pub fn after_turn(&mut self) -> (r: bool)
        ensures
            r == (!old(self).cancelled && old(self).grey.stack@.len() > 0),
            r ==> *final(self) == *old(self),
            !r ==> *final(self) == (Job { queued: false, ..*old(self) }),
    {
        if !self.cancelled && self.has_work() {
            true
        } else {
            self.queued = false;
            false
        }
    }

    /// After letting go: work pushed between the check and letting go would
    /// otherwise find the job still queued, and never run. Is it to be queued
    /// again?
    pub fn look_again(&mut self) -> (r: bool)
        ensures
            r == (!old(self).cancelled && old(self).grey.stack@.len() > 0 && !old(self).queued),
            !old(self).cancelled && old(self).grey.stack@.len() > 0 ==> *final(self) == (Job {
                queued: true,
                ..*old(self)
            }),
            !(!old(self).cancelled && old(self).grey.stack@.len() > 0) ==> *final(self) == *old(self),
    {
        if !self.cancelled && self.has_work() {
            self.submit()
        } else {
            false
        }
    }
}

/// Put `x` in its place in `v`, which is in order and keeps each once.
fn insert(v: &mut Vec<u32>, x: u32)
    requires
        forall|i: int, j: int| 0 <= i < j < old(v)@.len() ==> #[trigger] old(v)@[i] < #[trigger] old(v)@[j],
    ensures
        forall|i: int, j: int| 0 <= i < j < final(v)@.len() ==> #[trigger] final(v)@[i] < #[trigger] final(v)@[j],
        forall|y: u32| #[trigger] final(v)@.contains(y) <==> old(v)@.contains(y) || y == x,
{
    let mut i: usize = 0;
    while i < v.len() && v[i] < x
        invariant
            i <= v@.len(),
            v@ == old(v)@,
            forall|j: int| 0 <= j < i ==> #[trigger] v@[j] < x,
        decreases v.len() - i,
    {
        i = i + 1;
    }
    if i < v.len() && v[i] == x {
        return ;
    }
    let ghost was = v@;
    v.insert(i, x);
    proof {
        assert forall|y: u32| #[trigger] v@.contains(y) <==> was.contains(y) || y == x by {
            if v@.contains(y) {
                let k = choose|k: int| 0 <= k < v@.len() && v@[k] == y;
                if k < i {
                    assert(was[k] == y);
                } else if k > i {
                    assert(was[k - 1] == y);
                }
            }
            if was.contains(y) {
                let k = choose|k: int| 0 <= k < was.len() && was[k] == y;
                if k < i {
                    assert(v@[k] == y);
                } else {
                    assert(v@[k + 1] == y);
                }
            }
            assert(v@[i as int] == x);
        }
        assert forall|a: int, b: int| 0 <= a < b < v@.len() implies #[trigger] v@[a] < #[trigger] v@[b] by {
            if i < was.len() {
                assert(was[i as int] > x);
            }
        }
    }
}

/// How far a marker has got in its turn.
pub struct Turn {
    pub work: usize,
    pub total: usize,
}

/// What a marker does next.
#[derive(Debug, Clone, Copy, PartialEq, Eq, Structural)]
pub enum Next {
    /// The turn is over.
    Stop,
    /// Look at the clock, and whether the job was cancelled.
    Check,
    /// Mark on.
    Go,
}

impl Turn {
    pub fn new() -> (t: Turn)
        ensures
            t == (Turn { work: 0, total: 0 }),
    {
        Turn { work: 0, total: 0 }
    }

    /// `done` fields more were read, of a turn of at most `limit`.
    pub fn worked(&mut self, done: usize, limit: usize) -> (r: Next)
        requires
            old(self).work <= old(self).total,
            old(self).total + done <= usize::MAX,
        ensures
            final(self).total == old(self).total + done,
            final(self).work <= final(self).total,
            r == (if old(self).total + done >= limit {
                Next::Stop
            } else if old(self).work + done >= CHUNK {
                Next::Check
            } else {
                Next::Go
            }),
            final(self).work == (if r is Check {
                0
            } else {
                old(self).work + done
            }),
    {
        self.work = self.work + done;
        self.total = self.total + done;
        if self.total >= limit {
            return Next::Stop;
        }
        if self.work >= CHUNK {
            self.work = 0;
            return Next::Check;
        }
        Next::Go
    }
}

/// Should a marking thread be woken to top up or trim the spare blocks? Only if
/// they want it.
pub fn tend_spares(wanted: bool) -> (wake: bool)
    ensures
        wake == wanted,
{
    wanted
}

/// The noted fields, by the block they point into: each block once, in order,
/// with its fields in order.
pub fn by_block(refs: &Vec<u64>) -> (r: Vec<(u32, Vec<Addr>)>)
    ensures
        forall|i: int, j: int| 0 <= i < j < r@.len() ==> (#[trigger] r@[i]).0 < (#[trigger] r@[j]).0,
        forall|i: int| 0 <= i < r@.len() ==> (#[trigger] r@[i]).1@.len() > 0,
        forall|i: int, j: int, k: int|
            0 <= i < r@.len() && 0 <= j < k < r@[i].1@.len() ==> #[trigger] r@[i].1@[j] < #[trigger] r@[i].1@[k],
        forall|e: u64| #[trigger] refs@.contains(e) ==> exists|i: int|
            0 <= i < r@.len() && (#[trigger] r@[i]).0 == entry_from(e) && r@[i].1@.contains(entry_addr(e)),
        forall|i: int, j: int|
            0 <= i < r@.len() && 0 <= j < r@[i].1@.len() ==> refs@.contains(
                entry_of(#[trigger] r@[i].1@[j], r@[i].0 as nat),
            ),
{
    let mut r: Vec<(u32, Vec<Addr>)> = Vec::new();
    let mut n: usize = 0;
    while n < refs.len()
        invariant
            n <= refs@.len(),
            forall|i: int, j: int| 0 <= i < j < r@.len() ==> (#[trigger] r@[i]).0 < (#[trigger] r@[j]).0,
            forall|i: int| 0 <= i < r@.len() ==> (#[trigger] r@[i]).1@.len() > 0,
            forall|i: int, j: int, k: int|
                0 <= i < r@.len() && 0 <= j < k < r@[i].1@.len() ==> #[trigger] r@[i].1@[j] < #[trigger] r@[i].1@[k],
            forall|m: int|
                0 <= m < n ==> exists|i: int|
                    0 <= i < r@.len() && (#[trigger] r@[i]).0 == entry_from(#[trigger] refs@[m]) && r@[i].1@.contains(
                        entry_addr(refs@[m]),
                    ),
            forall|i: int, j: int|
                0 <= i < r@.len() && 0 <= j < r@[i].1@.len() ==> refs@.contains(
                    entry_of(#[trigger] r@[i].1@[j], r@[i].0 as nat),
                ),
        decreases refs.len() - n,
    {
        let e: u64 = refs[n];
        let at: Addr = (e % 0x1_0000_0000) as Addr;
        let b: u32 = (e / 0x1_0000_0000) as u32;
        proof {
            assert(entry_of(at, b as nat) == e);
            assert(refs@.contains(e));
        }
        let ghost was = r@;
        let mut i: usize = 0;
        while i < r.len() && r[i].0 < b
            invariant
                i <= r@.len(),
                r@ == was,
                forall|j: int| 0 <= j < i ==> (#[trigger] r@[j]).0 < b,
            decreases r.len() - i,
        {
            i = i + 1;
        }
        if i < r.len() && r[i].0 == b {
            let mut fields: Vec<Addr> = Vec::new();
            let (_, had) = &r[i];
            let mut k: usize = 0;
            while k < had.len()
                invariant
                    k <= had@.len(),
                    fields@ == had@.take(k as int),
                decreases had.len() - k,
            {
                fields.push(had[k]);
                proof {
                    assert(had@.take(k + 1) =~= had@.take(k as int).push(had@[k as int]));
                }
                k = k + 1;
            }
            proof {
                assert(had@.take(k as int) =~= had@);
            }
            insert(&mut fields, at);
            r.set(i, (b, fields));
        } else {
            let mut fields: Vec<Addr> = Vec::new();
            fields.push(at);
            r.insert(i, (b, fields));
        }
        proof {
            let same = i < was.len() && was[i as int].0 == b;
            // Where a block that was there is now.
            let to = |k: int|
                if same || k < i {
                    k
                } else {
                    k + 1
                };
            assert forall|k: int| 0 <= k < was.len() implies 0 <= #[trigger] to(k) < r@.len() && r@[to(k)].0 == was[k].0
                && (forall|x: Addr| was[k].1@.contains(x) ==> r@[to(k)].1@.contains(x)) by {}
            assert(r@[i as int].0 == b);
            assert(r@[i as int].1@.contains(at)) by {
                if !same {
                    assert(r@[i as int].1@[0] == at);
                }
            }
            assert forall|m: int| 0 <= m < n + 1 implies exists|i: int|
                0 <= i < r@.len() && (#[trigger] r@[i]).0 == entry_from(#[trigger] refs@[m]) && r@[i].1@.contains(
                    entry_addr(refs@[m]),
                ) by {
                if m < n {
                    let k = choose|k: int|
                        0 <= k < was.len() && (#[trigger] was[k]).0 == entry_from(refs@[m]) && was[k].1@.contains(
                            entry_addr(refs@[m]),
                        );
                    assert(r@[to(k)].0 == was[k].0);
                } else {
                    assert(r@[i as int].0 == entry_from(refs@[m]));
                }
            }
            assert forall|p: int, j: int| 0 <= p < r@.len() && 0 <= j < r@[p].1@.len() implies refs@.contains(
                entry_of(#[trigger] r@[p].1@[j], r@[p].0 as nat),
            ) by {
                if p == i {
                    let x = r@[p].1@[j];
                    assert(r@[p].1@.contains(x));
                    if same {
                        assert(was[i as int].1@.contains(x) || x == at);
                        if was[i as int].1@.contains(x) {
                            let q = choose|q: int| 0 <= q < was[i as int].1@.len() && was[i as int].1@[q] == x;
                            assert(was[i as int].1@[q] == x);
                        }
                    }
                } else {
                    let k = if same || p < i {
                        p
                    } else {
                        p - 1
                    };
                    assert(r@[p] == was[k]);
                    assert(was[k].1@[j] == r@[p].1@[j]);
                }
            }
            assert forall|p: int, q: int| 0 <= p < q < r@.len() implies (#[trigger] r@[p]).0 < (#[trigger] r@[q]).0 by {
                if !same && i < was.len() {
                    assert(was[i as int].0 > b);
                }
            }
            assert forall|p: int, j: int, k: int| 0 <= p < r@.len() && 0 <= j < k < r@[p].1@.len() implies #[trigger] r@[p].1@[j]
                < #[trigger] r@[p].1@[k] by {
                if p != i {
                    let w = if same || p < i {
                        p
                    } else {
                        p - 1
                    };
                    assert(r@[p] == was[w]);
                    assert(was[w].1@[j] < was[w].1@[k]);
                }
            }
        }
        n = n + 1;
    }
    proof {
        assert forall|e: u64| #[trigger] refs@.contains(e) implies exists|i: int|
            0 <= i < r@.len() && (#[trigger] r@[i]).0 == entry_from(e) && r@[i].1@.contains(entry_addr(e)) by {
            let m = choose|m: int| 0 <= m < refs@.len() && refs@[m] == e;
            assert(refs@[m] == e);
        }
    }
    r
}

/// A large object scanned a chunk at a time pushes what it would have at once.
pub proof fn chunks_lose_nothing(j: Job, a: int, h: Head, from: int, mid: int, end: int)
    requires
        from <= mid <= end,
    ensures
        j.pushes(a, h, from, end) == j.pushes(a, h, from, mid) + j.pushes(a, h, mid, end),
    decreases end - mid,
{
    if mid == end {
        assert(j.pushes(a, h, from, mid) + Seq::<u64>::empty() =~= j.pushes(a, h, from, mid));
    } else {
        chunks_lose_nothing(j, a, h, from, mid, end - 1);
        let p = j.pushes(a, h, from, mid);
        let q = j.pushes(a, h, mid, end - 1);
        if let Some(x) = j.pointer(a, h, end - 1) {
            assert((p + q).push(entry_of(x, 0)) =~= p + q.push(entry_of(x, 0)));
        }
    }
}

/// Every old address an object holds is pushed when it has been scanned.
pub proof fn every_pointer_is_pushed(j: Job, a: int, h: Head, i: int)
    requires
        0 <= i < h.len,
        j.pointer(a, h, i) is Some,
        OLD_BASE <= j.pointer(a, h, i)->0 < REGION_BASE,
    ensures
        j.pushes(a, h, 0, h.len as int).contains(entry_of(j.pointer(a, h, i)->0, 0)),
{
    let e = entry_of(j.pointer(a, h, i)->0, 0);
    chunks_lose_nothing(j, a, h, 0, i + 1, h.len as int);
    let p = j.pushes(a, h, 0, i + 1);
    assert(p[p.len() - 1] == e);
    let all = j.pushes(a, h, 0, h.len as int);
    assert(all[p.len() - 1] == e);
}

} // verus!
