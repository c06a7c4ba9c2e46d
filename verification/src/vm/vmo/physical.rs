//! Memory objects that stand for a fixed run of physical memory.
use vstd::prelude::*;
use crate::error::{ZxError, ZxResult};
use crate::object::KoID;
use crate::vm::pmem::PhysMemory;
use crate::vm::vmo::paged::{written, VMObjectPaged};
use crate::vm::{PhysAddr, PAGE_SIZE};

verus! {

/// `Mutex` of the spin crate: a lock around a value.
#[verifier::external_type_specification]
#[verifier::external_body]
#[verifier::reject_recursive_types(T)]
pub struct ExMutex<T: ?Sized>(spin::Mutex<T>);

/// Calls `Mutex::new` of the spin crate, which makes a lock that nobody
/// holds. Nothing is claimed of the lock.
#[verifier::external_body]
fn new_lock() -> spin::Mutex<()> {
    spin::Mutex::new(())
}

/// Calls `Mutex::lock` of the spin crate, which waits until nobody holds the
/// lock and then takes it, and gives the lock back at once. Nothing is
/// claimed of the lock. The locks of this module are taken nowhere else, so
/// none is held when this is called.
#[verifier::external_body]
fn pass_lock(lock: &spin::Mutex<()>) {
    let _ = lock.lock();
}

/// VMO representing a physical range of memory.
pub struct VMObjectPhysical {
    koid: KoID,
    paddr: PhysAddr,
    pages: usize,
    /// Lock this when access physical memory.
    data_lock: spin::Mutex<()>,
}

impl VMObjectPhysical {
    /// Identifier under which the object holds its range.
    pub closed spec fn koid(&self) -> KoID {
        self.koid
    }

    /// Address of the first byte of the range.
    pub closed spec fn base(&self) -> PhysAddr {
        self.paddr
    }

    /// Number of pages in the range.
    pub closed spec fn page_count(&self) -> nat {
        self.pages as nat
    }

    /// Length in bytes.
    pub open spec fn size(&self) -> nat {
        self.page_count() * 4096
    }

    /// The range starts at a page boundary, lies in `pmem`, and each of its
    /// frames is held under the object's identifier.
    pub open spec fn wf(&self, pmem: &PhysMemory) -> bool {
        &&& self.koid() != 0
        &&& pmem.wf()
        &&& self.base() % 4096 == 0
        &&& pmem.range_owned_by(self.base() as int / 4096, self.page_count() as int, self.koid())
    }

    /// The bytes that the object holds, by offset.
    pub open spec fn content(&self, pmem: &PhysMemory) -> Seq<u8> {
        pmem.bytes().subrange(self.base() as int, self.base() + self.size())
    }

    /// What an access of `len` bytes at `offset` comes to: `INVALID_ARGS`
    /// where it would reach past the end.
    pub open spec fn access_result(&self, offset: int, len: int) -> ZxResult {
        if offset + len > self.size() {
            Err(ZxError::INVALID_ARGS)
        } else {
            Ok(())
        }
    }

    /// Takes the `pages` pages of memory from address `paddr` on for a new
    /// object held under `koid`.
    ///
    /// Fails with `INVALID_ARGS`, changing nothing, unless the whole range
    /// lies in `pmem` and all of it is free.
    pub fn new(pmem: &mut PhysMemory, koid: KoID, paddr: PhysAddr, pages: usize) -> (r: ZxResult<
        VMObjectPhysical,
    >)
        requires
            old(pmem).wf(),
            koid != 0,
            paddr % 4096 == 0,
        ensures
            final(pmem).wf(),
            old(pmem).changed_only_for(final(pmem), koid),
            final(pmem).bytes() == old(pmem).bytes(),
            r is Ok <==> old(pmem).range_owned_by(paddr as int / 4096, pages as int, 0),
            r matches Err(e) ==> e == ZxError::INVALID_ARGS && *final(pmem) == *old(pmem),
            r matches Ok(vmo) ==> {
                &&& vmo.wf(final(pmem))
                &&& vmo.koid() == koid
                &&& vmo.base() == paddr
                &&& vmo.page_count() == pages
            },
    {
        if pmem.claim(paddr / PAGE_SIZE, pages, koid) {
            Ok(VMObjectPhysical { koid, paddr, pages, data_lock: new_lock() })
        } else {
            Err(ZxError::INVALID_ARGS)
        }
    }

    /// Identifier under which the object holds its range.
    pub fn id(&self) -> (k: KoID)
        ensures
            k == self.koid(),
    {
        self.koid
    }

    /// Address of the first byte of the range.
    pub fn paddr(&self) -> (a: PhysAddr)
        ensures
            a == self.base(),
    {
        self.paddr
    }

    /// Length in bytes.
    pub fn len(&self, pmem: &PhysMemory) -> (n: usize)
        requires
            self.wf(pmem),
        ensures
            n == self.size(),
    {
        self.pages * PAGE_SIZE
    }

    /// Reads `len` bytes at `offset`.
    ///
    /// Fails with `INVALID_ARGS` when the bytes would reach past the end of
    /// the object.
    pub fn read(&self, pmem: &PhysMemory, offset: usize, len: usize) -> (r: ZxResult<Vec<u8>>)
        requires
            self.wf(pmem),
        ensures
            r is Ok <==> offset + len <= self.size(),
            r matches Err(e) ==> e == ZxError::INVALID_ARGS,
            r matches Ok(buf) ==> buf@ == self.content(pmem).subrange(offset as int, offset + len),
    {
        pass_lock(&self.data_lock);
        let size: usize = self.len(pmem);
        if offset > size || len > size - offset {
            return Err(ZxError::INVALID_ARGS);
        }
        let buf = pmem.pmem_read(self.paddr + offset, len);
        proof {
            assert(buf@ == self.content(pmem).subrange(offset as int, offset + len));
        }
        Ok(buf)
    }

    /// Stores `buf` at `offset`: the bytes of memory from `base + offset`
    /// on become those of `buf`, and no other byte of memory changes.
    ///
    /// Fails with `INVALID_ARGS`, changing nothing, when the bytes would
    /// reach past the end of the object.
    pub fn write(&self, pmem: &mut PhysMemory, offset: usize, buf: &[u8]) -> (r: ZxResult)
        requires
            self.wf(old(pmem)),
        ensures
            self.wf(final(pmem)),
            final(pmem).owners() == old(pmem).owners(),
            old(pmem).changed_only_for(final(pmem), self.koid()),
            r == self.access_result(offset as int, buf@.len() as int),
            r is Err ==> *final(pmem) == *old(pmem),
            r is Ok ==> self.content(final(pmem)) == written(
                self.content(old(pmem)),
                offset as int,
                buf@,
            ),
            final(pmem).bytes().len() == old(pmem).bytes().len(),
            r is Ok ==> forall|a: int|
                0 <= a < old(pmem).bytes().len() ==> #[trigger] final(pmem).bytes()[a] == if self.base()
                    + offset <= a < self.base() + offset + buf@.len() {
                    buf@[a - self.base() - offset]
                } else {
                    old(pmem).bytes()[a]
                },
    {
        pass_lock(&self.data_lock);
        let size: usize = self.len(pmem);
        if offset > size || buf.len() > size - offset {
            return Err(ZxError::INVALID_ARGS);
        }
        pmem.pmem_write(self.paddr + offset, buf);
        proof {
            assert(self.content(pmem) == written(self.content(old(pmem)), offset as int, buf@));
        }
        Ok(())
    }

    /// The address of page `idx`: `paddr + idx * PAGE_SIZE`.
    ///
    /// Fails with `INVALID_ARGS` for a page past the end.
    pub fn commit_page(&self, pmem: &PhysMemory, idx: usize) -> (r: ZxResult<PhysAddr>)
        requires
            self.wf(pmem),
        ensures
            r is Ok <==> idx < self.page_count(),
            r matches Err(e) ==> e == ZxError::INVALID_ARGS,
            r matches Ok(a) ==> a == self.base() + idx * 4096,
    {
        if idx >= self.pages {
            Err(ZxError::INVALID_ARGS)
        } else {
            Ok(self.paddr + idx * PAGE_SIZE)
        }
    }

    /// A physical range cannot change its length.
    pub fn set_len(&self, len: usize) -> (r: ZxResult)
        ensures
            r == Err::<(), ZxError>(ZxError::NOT_SUPPORTED),
    {
        Err(ZxError::NOT_SUPPORTED)
    }

    /// A physical range is always resident; there is nothing to commit.
    pub fn commit(&self, offset: usize, len: usize) -> (r: ZxResult)
        ensures
            r == Err::<(), ZxError>(ZxError::NOT_SUPPORTED),
    {
        Err(ZxError::NOT_SUPPORTED)
    }

    /// A physical range cannot give its memory back.
    pub fn decommit(&self, offset: usize, len: usize) -> (r: ZxResult)
        ensures
            r == Err::<(), ZxError>(ZxError::NOT_SUPPORTED),
    {
        Err(ZxError::NOT_SUPPORTED)
    }

    /// A physical range has no children.
    pub fn create_child(&self, offset: usize, len: usize) -> (r: ZxResult<VMObjectPaged>)
        ensures
            r matches Err(e) && e == ZxError::NOT_SUPPORTED,
    {
        Err(ZxError::NOT_SUPPORTED)
    }

    /// Whether frame `f` lies in the object's range.
    pub open spec fn holds_frame(&self, f: int) -> bool {
        self.base() as int / 4096 <= f < self.base() as int / 4096 + self.page_count()
    }

    /// Gives the range back; the object ends here. Each frame of the range
    /// is free afterwards, no other frame changes hands, and no byte of
    /// memory changes.
    pub fn destroy(self, pmem: &mut PhysMemory)
        requires
            self.wf(old(pmem)),
        ensures
            final(pmem).wf(),
            old(pmem).changed_only_for(final(pmem), self.koid()),
            final(pmem).bytes() == old(pmem).bytes(),
            final(pmem).frames() == old(pmem).frames(),
            forall|f: int|
                0 <= f < old(pmem).frames() ==> #[trigger] final(pmem).owners()[f]
                    == if self.holds_frame(f) {
                    0u64
                } else {
                    old(pmem).owners()[f]
                },
            final(pmem).free_frames() == old(pmem).free_frames() + self.page_count(),
    {
        pmem.release(self.paddr / PAGE_SIZE, self.pages, self.koid);
    }
}

} // verus!
