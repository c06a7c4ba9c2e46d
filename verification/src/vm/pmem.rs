//! Physical memory as the kernel sees it: a run of page frames, each either
//! free or held by one kernel object, and the bytes stored in them.
use vstd::prelude::*;
use crate::vm::{PhysAddr, PAGE_SIZE};

verus! {

/// Number of frames in `owners` that nobody holds.
pub open spec fn count_free(owners: Seq<u64>) -> nat
    decreases owners.len(),
{
    if owners.len() == 0 {
        0
    } else {
        count_free(owners.drop_last()) + if owners.last() == 0 {
            1nat
        } else {
            0nat
        }
    }
}

/// Giving a free frame to an owner lowers the number of free frames by one.
pub proof fn lemma_count_free_take(owners: Seq<u64>, f: int, owner: u64)
    requires
        0 <= f < owners.len(),
        owners[f] == 0,
        owner != 0,
    ensures
        count_free(owners.update(f, owner)) + 1 == count_free(owners),
    decreases owners.len(),
{
    let next = owners.update(f, owner);
    if f == owners.len() - 1 {
        assert(next.drop_last() == owners.drop_last());
    } else {
        assert(next.drop_last() == owners.drop_last().update(f, owner));
        lemma_count_free_take(owners.drop_last(), f, owner);
    }
}

/// Releasing a held frame raises the number of free frames by one.
pub proof fn lemma_count_free_give(owners: Seq<u64>, f: int)
    requires
        0 <= f < owners.len(),
        owners[f] != 0,
    ensures
        count_free(owners.update(f, 0)) == count_free(owners) + 1,
    decreases owners.len(),
{
    let next = owners.update(f, 0);
    if f == owners.len() - 1 {
        assert(next.drop_last() == owners.drop_last());
    } else {
        assert(next.drop_last() == owners.drop_last().update(f, 0));
        lemma_count_free_give(owners.drop_last(), f);
    }
}

/// Where no frame below `n` is free, the first `n` frames count no free one.
pub proof fn lemma_count_free_none(owners: Seq<u64>)
    requires
        forall|g: int| 0 <= g < owners.len() ==> owners[g] != 0,
    ensures
        count_free(owners) == 0,
    decreases owners.len(),
{
    if owners.len() > 0 {
        lemma_count_free_none(owners.drop_last());
    }
}

/// A free frame makes the count positive.
pub proof fn lemma_count_free_some(owners: Seq<u64>, f: int)
    requires
        0 <= f < owners.len(),
        owners[f] == 0,
    ensures
        count_free(owners) >= 1,
    decreases owners.len(),
{
    if f < owners.len() - 1 {
        lemma_count_free_some(owners.drop_last(), f);
    }
}

/// The machine's physical memory.
///
/// Frame `f` covers the byte addresses `f * PAGE_SIZE .. (f + 1) * PAGE_SIZE`.
/// Every frame records the identifier of the object that holds it; `0` marks
/// a free frame.
pub struct PhysMemory {
    owners: Vec<u64>,
    bytes: Vec<u8>,
}

impl PhysMemory {
    /// The owner recorded for every frame.
    pub closed spec fn owners(&self) -> Seq<u64> {
        self.owners@
    }

    /// Every byte of memory, by physical address.
    pub closed spec fn bytes(&self) -> Seq<u8> {
        self.bytes@
    }

    /// The two tables agree in size.
    pub open spec fn wf(&self) -> bool {
        &&& self.bytes().len() == self.owners().len() * 4096
        &&& self.bytes().len() <= usize::MAX
    }

    /// Number of frames.
    pub open spec fn frames(&self) -> nat {
        self.owners().len()
    }

    /// Number of free frames.
    pub open spec fn free_frames(&self) -> nat {
        count_free(self.owners())
    }

    /// Whether every frame of the range of `n` frames that starts at frame
    /// `first` exists and is held by `owner`.
    pub open spec fn range_owned_by(&self, first: int, n: int, owner: u64) -> bool {
        &&& 0 <= first
        &&& 0 <= n
        &&& first + n <= self.frames()
        &&& forall|f: int| first <= f < first + n ==> self.owners()[f] == owner
    }

    /// Whether `other` differs from `self` only in frames that were free or
    /// held by `owner`, and those are still free or held by `owner`.
    pub open spec fn changed_only_for(&self, other: &PhysMemory, owner: u64) -> bool {
        &&& other.frames() == self.frames()
        &&& other.bytes().len() == self.bytes().len()
        &&& forall|f: int|
            0 <= f < self.frames() ==> #[trigger] other.owners()[f] == self.owners()[f] || ((
            self.owners()[f] == 0 || self.owners()[f] == owner) && (other.owners()[f] == 0
                || other.owners()[f] == owner))
        &&& forall|a: int|
            0 <= a < self.bytes().len() && a / 4096 < self.frames() && self.owners()[a / 4096] != 0
                && self.owners()[a / 4096] != owner ==> #[trigger] other.bytes()[a]
                == self.bytes()[a]
    }

    /// A memory of `frames` free frames filled with zeroes.
    pub fn new(frames: usize) -> (mem: Self)
        requires
            frames * 4096 <= usize::MAX,
        ensures
            mem.wf(),
            mem.frames() == frames,
            mem.free_frames() == frames,
            forall|f: int| 0 <= f < frames ==> mem.owners()[f] == 0,
            forall|a: int| 0 <= a < frames * 4096 ==> mem.bytes()[a] == 0,
    {
        let owners: Vec<u64> = vec![0u64; frames];
        let bytes: Vec<u8> = vec![0u8; frames * PAGE_SIZE];
        proof {
            lemma_count_free_all(owners@);
        }
        PhysMemory { owners, bytes }
    }

    /// Number of frames.
    pub fn frame_count(&self) -> (n: usize)
        ensures
            n == self.frames(),
    {
        self.owners.len()
    }

    /// Size of the memory in bytes.
    pub fn size(&self) -> (n: usize)
        ensures
            n == self.bytes().len(),
    {
        self.bytes.len()
    }

    /// The object that holds frame `f`, `0` for a free frame.
    pub fn owner_of(&self, f: usize) -> (o: u64)
        requires
            f < self.frames(),
        ensures
            o == self.owners()[f as int],
    {
        self.owners[f]
    }

    /// Number of free frames.
    pub fn count_free_frames(&self) -> (n: usize)
        ensures
            n == self.free_frames(),
    {
        let mut n: usize = 0;
        let mut i: usize = 0;
        while i < self.owners.len()
            invariant
                i <= self.owners.len(),
                n <= i,
                n == count_free(self.owners@.subrange(0, i as int)),
            decreases self.owners.len() - i,
        {
            proof {
                assert(self.owners@.subrange(0, i + 1).drop_last() == self.owners@.subrange(
                    0,
                    i as int,
                ));
            }
            if self.owners[i] == 0 {
                n += 1;
            }
            i += 1;
        }
        proof {
            assert(self.owners@.subrange(0, i as int) == self.owners@);
        }
        n
    }

    /// Hands the lowest free frame to `owner` and fills it with zeroes.
    ///
    /// Returns the frame's number, or `None` when no frame is free.
    pub fn frame_alloc(&mut self, owner: u64) -> (r: Option<usize>)
        requires
            old(self).wf(),
            owner != 0,
        ensures
            final(self).wf(),
            final(self).frames() == old(self).frames(),
            r is None <==> old(self).free_frames() == 0,
            r is None ==> *final(self) == *old(self),
            r matches Some(f) ==> {
                &&& f < old(self).frames()
                &&& old(self).owners()[f as int] == 0
                &&& forall|g: int| 0 <= g < f ==> old(self).owners()[g] != 0
                &&& final(self).owners() == old(self).owners().update(f as int, owner)
                &&& final(self).free_frames() + 1 == old(self).free_frames()
                &&& final(self).bytes().len() == old(self).bytes().len()
                &&& forall|a: int|
                    0 <= a < old(self).bytes().len() ==> final(self).bytes()[a] == if f * 4096 <= a
                        < f * 4096 + 4096 {
                        0u8
                    } else {
                        old(self).bytes()[a]
                    }
            },
    {
        let n: usize = self.owners.len();
        let mut f: usize = 0;
        while f < n && self.owners[f] != 0
            invariant
                n == self.owners.len(),
                self.bytes.len() == n * 4096,
                f <= n,
                forall|g: int| 0 <= g < f ==> self.owners@[g] != 0,
            decreases n - f,
        {
            f += 1;
        }
        if f == n {
            proof {
                lemma_count_free_none(self.owners@);
            }
            return None;
        }
        proof {
            lemma_count_free_some(self.owners@, f as int);
            lemma_count_free_take(self.owners@, f as int, owner);
        }
        self.owners.set(f, owner);
        let start: usize = f * PAGE_SIZE;
        let mut i: usize = 0;
        while i < PAGE_SIZE
            invariant
                i <= 4096,
                start == f * 4096,
                f < n,
                n == self.owners.len(),
                self.owners@ == old(self).owners@.update(f as int, owner),
                self.bytes@.len() == old(self).bytes@.len(),
                self.bytes.len() == n * 4096,
                forall|a: int|
                    0 <= a < self.bytes@.len() ==> self.bytes@[a] == if start <= a < start + i {
                        0u8
                    } else {
                        old(self).bytes@[a]
                    },
            decreases 4096 - i,
        {
            self.bytes.set(start + i, 0u8);
            i += 1;
        }
        Some(f)
    }

    /// Takes frame `f` back from `owner`.
    pub fn frame_dealloc(&mut self, f: usize, owner: u64)
        requires
            old(self).wf(),
            owner != 0,
            f < old(self).frames(),
            old(self).owners()[f as int] == owner,
        ensures
            final(self).wf(),
            final(self).owners() == old(self).owners().update(f as int, 0),
            final(self).bytes() == old(self).bytes(),
            final(self).free_frames() == old(self).free_frames() + 1,
    {
        proof {
            lemma_count_free_give(self.owners@, f as int);
        }
        self.owners.set(f, 0);
    }

    /// Marks the `n` frames from frame `first` on as held by `owner`, if all
    /// of them exist and are free. Says whether it did.
    pub fn claim(&mut self, first: usize, n: usize, owner: u64) -> (done: bool)
        requires
            old(self).wf(),
            owner != 0,
        ensures
            final(self).wf(),
            done <==> old(self).range_owned_by(first as int, n as int, 0),
            !done ==> *final(self) == *old(self),
            done ==> {
                &&& final(self).range_owned_by(first as int, n as int, owner)
                &&& final(self).bytes() == old(self).bytes()
                &&& final(self).frames() == old(self).frames()
                &&& forall|f: int|
                    0 <= f < old(self).frames() && !(first <= f < first + n)
                        ==> final(self).owners()[f] == old(self).owners()[f]
            },
    {
        let total: usize = self.owners.len();
        if first > total || n > total - first {
            return false;
        }
        let mut i: usize = 0;
        while i < n
            invariant
                i <= n,
                first + n <= total,
                total == self.owners.len(),
                *self == *old(self),
                self.wf(),
                forall|f: int| first <= f < first + i ==> self.owners@[f] == 0,
            decreases n - i,
        {
            if self.owners[first + i] != 0 {
                return false;
            }
            i += 1;
        }
        let mut i: usize = 0;
        while i < n
            invariant
                i <= n,
                first + n <= total,
                total == self.owners.len(),
                total == old(self).owners.len(),
                self.bytes@ == old(self).bytes@,
                forall|f: int| first <= f < first + i ==> self.owners@[f] == owner,
                forall|f: int|
                    0 <= f < total && !(first <= f < first + i) ==> self.owners@[f] == old(self).owners@[f],
            decreases n - i,
        {
            self.owners.set(first + i, owner);
            i += 1;
        }
        true
    }

    /// Frees every frame of the range of `n` frames from `first` on, which
    /// `owner` holds.
    pub fn release(&mut self, first: usize, n: usize, owner: u64)
        requires
            old(self).wf(),
            owner != 0,
            old(self).range_owned_by(first as int, n as int, owner),
        ensures
            final(self).wf(),
            final(self).range_owned_by(first as int, n as int, 0),
            final(self).bytes() == old(self).bytes(),
            final(self).frames() == old(self).frames(),
            forall|f: int|
                0 <= f < old(self).frames() && !(first <= f < first + n) ==> final(self).owners()[f]
                    == old(self).owners()[f],
            final(self).free_frames() == old(self).free_frames() + n,
    {
        let mut i: usize = 0;
        while i < n
            invariant
                i <= n,
                owner != 0,
                first + n <= self.owners.len(),
                self.owners.len() == old(self).owners.len(),
                self.bytes@ == old(self).bytes@,
                old(self).range_owned_by(first as int, n as int, owner),
                count_free(self.owners@) == count_free(old(self).owners@) + i,
                forall|f: int| first <= f < first + i ==> self.owners@[f] == 0,
                forall|f: int|
                    0 <= f < self.owners.len() && !(first <= f < first + i) ==> self.owners@[f]
                        == old(self).owners@[f],
            decreases n - i,
        {
            proof {
                assert(self.owners@[first + i] == old(self).owners@[first + i]);
                lemma_count_free_give(self.owners@, first + i);
            }
            self.owners.set(first + i, 0);
            i += 1;
        }
    }

    /// Copies `len` bytes out of memory, starting at address `paddr`.
    pub fn pmem_read(&self, paddr: PhysAddr, len: usize) -> (buf: Vec<u8>)
        requires
            paddr + len <= self.bytes().len(),
        ensures
            buf@ == self.bytes().subrange(paddr as int, paddr + len),
    {
        let mut buf: Vec<u8> = Vec::new();
        let mut i: usize = 0;
        while i < len
            invariant
                i <= len,
                paddr + len <= self.bytes.len(),
                buf@ == self.bytes@.subrange(paddr as int, paddr + i),
            decreases len - i,
        {
            buf.push(self.bytes[paddr + i]);
            i += 1;
        }
        buf
    }

    /// Copies `buf` into memory, starting at address `paddr`.
    pub fn pmem_write(&mut self, paddr: PhysAddr, buf: &[u8])
        requires
            paddr + buf@.len() <= old(self).bytes().len(),
        ensures
            final(self).owners() == old(self).owners(),
            final(self).bytes().len() == old(self).bytes().len(),
            forall|a: int|
                0 <= a < old(self).bytes().len() ==> final(self).bytes()[a] == if paddr <= a < paddr
                    + buf@.len() {
                    buf@[a - paddr]
                } else {
                    old(self).bytes()[a]
                },
    {
        let len: usize = buf.len();
        let mut i: usize = 0;
        while i < len
            invariant
                i <= len,
                len == buf@.len(),
                paddr + len <= self.bytes.len(),
                self.owners@ == old(self).owners@,
                self.bytes@.len() == old(self).bytes@.len(),
                forall|a: int|
                    0 <= a < self.bytes@.len() ==> self.bytes@[a] == if paddr <= a < paddr + i {
                        buf@[a - paddr]
                    } else {
                        old(self).bytes@[a]
                    },
            decreases len - i,
        {
            self.bytes.set(paddr + i, buf[i]);
            i += 1;
        }
    }

    /// Copies the contents of frame `src` into frame `dst`.
    pub fn copy_frame(&mut self, src: usize, dst: usize)
        requires
            old(self).wf(),
            src < old(self).frames(),
            dst < old(self).frames(),
            src != dst,
        ensures
            final(self).wf(),
            final(self).owners() == old(self).owners(),
            final(self).bytes().len() == old(self).bytes().len(),
            forall|a: int|
                0 <= a < old(self).bytes().len() ==> final(self).bytes()[a] == if dst * 4096 <= a
                    < dst * 4096 + 4096 {
                    old(self).bytes()[src * 4096 + (a - dst * 4096)]
                } else {
                    old(self).bytes()[a]
                },
    {
        let from: usize = src * PAGE_SIZE;
        let to: usize = dst * PAGE_SIZE;
        let mut i: usize = 0;
        while i < PAGE_SIZE
            invariant
                i <= 4096,
                from == src * 4096,
                to == dst * 4096,
                src != dst,
                from + 4096 <= self.bytes.len(),
                to + 4096 <= self.bytes.len(),
                self.owners@ == old(self).owners@,
                self.bytes@.len() == old(self).bytes@.len(),
                forall|a: int|
                    0 <= a < self.bytes@.len() ==> self.bytes@[a] == if to <= a < to + i {
                        old(self).bytes@[from + (a - to)]
                    } else {
                        old(self).bytes@[a]
                    },
            decreases 4096 - i,
        {
            let b: u8 = self.bytes[from + i];
            self.bytes.set(to + i, b);
            i += 1;
        }
    }

    /// The byte at address `paddr`.
    pub fn byte(&self, paddr: PhysAddr) -> (b: u8)
        requires
            paddr < self.bytes().len(),
        ensures
            b == self.bytes()[paddr as int],
    {
        self.bytes[paddr]
    }

    /// Stores `b` at address `paddr`.
    pub fn set_byte(&mut self, paddr: PhysAddr, b: u8)
        requires
            paddr < old(self).bytes().len(),
        ensures
            final(self).owners() == old(self).owners(),
            final(self).bytes() == old(self).bytes().update(paddr as int, b),
    {
        self.bytes.set(paddr, b);
    }
}

/// Where every frame is free, all of them count.
pub proof fn lemma_count_free_all(owners: Seq<u64>)
    requires
        forall|g: int| 0 <= g < owners.len() ==> owners[g] == 0,
    ensures
        count_free(owners) == owners.len(),
    decreases owners.len(),
{
    if owners.len() > 0 {
        lemma_count_free_all(owners.drop_last());
    }
}

} // verus!
