//! Virtual memory objects.
use vstd::prelude::*;
use crate::error::{ZxError, ZxResult};
use crate::object::rights::Rights;
use crate::object::{truncated_name, KObjectBase, KoID};
use crate::vm::pmem::PhysMemory;
use crate::vm::vmo::paged::{
    end_touched, first_touched, resized, written, zeroed, VMObjectPaged,
};
use crate::vm::vmo::physical::VMObjectPhysical;
use crate::vm::PhysAddr;

pub mod paged;
pub mod physical;

verus! {

/// Virtual Memory Objects: what the two kinds of memory object have in
/// common.
pub trait VMObjectTrait {
    /// Whether the object is sound, given the memory `pmem`.
    spec fn sound(&self, pmem: &PhysMemory) -> bool;

    /// Length in bytes.
    spec fn byte_len(&self) -> nat;

    /// The bytes that the object holds, by offset.
    spec fn bytes(&self, pmem: &PhysMemory) -> Seq<u8>;

    /// Read memory from VMO at `offset`. An access that reaches past the
    /// end is refused with `INVALID_ARGS`; no read changes what the object
    /// holds.
    fn read(&mut self, pmem: &mut PhysMemory, offset: usize, len: usize) -> (r: ZxResult<Vec<u8>>)
        requires
            old(self).sound(old(pmem)),
        ensures
            final(self).sound(final(pmem)),
            final(self).byte_len() == old(self).byte_len(),
            final(self).bytes(final(pmem)) == old(self).bytes(old(pmem)),
            offset + len > old(self).byte_len() ==> (r matches Err(e) && e == ZxError::INVALID_ARGS),
            r matches Ok(buf) ==> buf@ == old(self).bytes(old(pmem)).subrange(
                offset as int,
                offset + len,
            ),
    ;

    /// Write memory from `buf` to VMO at `offset`. An access that reaches
    /// past the end is refused with `INVALID_ARGS`; a refused write changes
    /// nothing that the object holds.
    fn write(&mut self, pmem: &mut PhysMemory, offset: usize, buf: &[u8]) -> (r: ZxResult)
        requires
            old(self).sound(old(pmem)),
        ensures
            final(self).sound(final(pmem)),
            final(self).byte_len() == old(self).byte_len(),
            offset + buf@.len() > old(self).byte_len() ==> r == Err::<(), ZxError>(
                ZxError::INVALID_ARGS,
            ),
            r is Err ==> final(self).bytes(final(pmem)) == old(self).bytes(old(pmem)),
            r is Ok ==> final(self).bytes(final(pmem)) == written(
                old(self).bytes(old(pmem)),
                offset as int,
                buf@,
            ),
    ;

    /// Get the length of VMO.
    fn len(&self, pmem: &PhysMemory) -> (n: usize)
        requires
            self.sound(pmem),
        ensures
            n == self.byte_len(),
    ;

    /// Commit a page: the address of the memory behind page `page_idx`.
    /// No call changes what the object holds.
    fn commit_page(&mut self, pmem: &mut PhysMemory, page_idx: usize) -> (r: ZxResult<PhysAddr>)
        requires
            old(self).sound(old(pmem)),
        ensures
            final(self).sound(final(pmem)),
            final(self).byte_len() == old(self).byte_len(),
            final(self).bytes(final(pmem)) == old(self).bytes(old(pmem)),
            page_idx * 4096 >= old(self).byte_len() ==> (r matches Err(e) && e
                == ZxError::INVALID_ARGS),
            r matches Ok(a) ==> a % 4096 == 0,
    ;
}

impl VMObjectTrait for VMObjectPaged {
    open spec fn sound(&self, pmem: &PhysMemory) -> bool {
        self.wf(pmem)
    }

    open spec fn byte_len(&self) -> nat {
        self.size()
    }

    open spec fn bytes(&self, pmem: &PhysMemory) -> Seq<u8> {
        self.content(pmem)
    }

    /// As [`VMObjectPaged::read`].
    fn read(&mut self, pmem: &mut PhysMemory, offset: usize, len: usize) -> (r: ZxResult<Vec<u8>>)
        ensures
            final(self).koid() == old(self).koid(),
            old(pmem).changed_only_for(final(pmem), old(self).koid()),
            r is Ok <==> old(self).access_result(old(pmem), offset as int, len as int) is Ok,
            r matches Err(e) ==> old(self).access_result(old(pmem), offset as int, len as int)
                == Err::<(), ZxError>(e) && *final(self) == *old(self) && *final(pmem) == *old(pmem),
            r is Ok ==> old(self).touched(final(self), offset as int, len as int),
    {
        VMObjectPaged::read(self, pmem, offset, len)
    }

    /// As [`VMObjectPaged::write`].
    fn write(&mut self, pmem: &mut PhysMemory, offset: usize, buf: &[u8]) -> (r: ZxResult)
        ensures
            final(self).koid() == old(self).koid(),
            old(pmem).changed_only_for(final(pmem), old(self).koid()),
            r == old(self).access_result(old(pmem), offset as int, buf@.len() as int),
            r is Err ==> *final(self) == *old(self) && *final(pmem) == *old(pmem),
            r is Ok ==> old(self).touched(final(self), offset as int, buf@.len() as int),
    {
        VMObjectPaged::write(self, pmem, offset, buf)
    }

    fn len(&self, pmem: &PhysMemory) -> (n: usize) {
        VMObjectPaged::len(self)
    }

    /// As [`VMObjectPaged::commit_page`].
    fn commit_page(&mut self, pmem: &mut PhysMemory, page_idx: usize) -> (r: ZxResult<PhysAddr>)
        ensures
            final(self).koid() == old(self).koid(),
            old(pmem).changed_only_for(final(pmem), old(self).koid()),
            r is Ok <==> page_idx < old(self).page_count() && (old(self).frame_table()[page_idx as int]
                is Some || old(pmem).free_frames() > 0),
            r matches Err(e) ==> e == (if page_idx >= old(self).page_count() {
                ZxError::INVALID_ARGS
            } else {
                ZxError::NO_MEMORY
            }) && *final(self) == *old(self) && *final(pmem) == *old(pmem),
            r matches Ok(paddr) ==> final(self).frame_table()[page_idx as int] matches Some(f)
                && paddr == f * 4096,
    {
        VMObjectPaged::commit_page(self, pmem, page_idx)
    }
}

impl VMObjectTrait for VMObjectPhysical {
    open spec fn sound(&self, pmem: &PhysMemory) -> bool {
        self.wf(pmem)
    }

    open spec fn byte_len(&self) -> nat {
        self.size()
    }

    open spec fn bytes(&self, pmem: &PhysMemory) -> Seq<u8> {
        self.content(pmem)
    }

    /// As [`VMObjectPhysical::read`].
    fn read(&mut self, pmem: &mut PhysMemory, offset: usize, len: usize) -> (r: ZxResult<Vec<u8>>)
        ensures
            *final(self) == *old(self),
            *final(pmem) == *old(pmem),
            r is Ok <==> offset + len <= old(self).size(),
            r matches Err(e) ==> e == ZxError::INVALID_ARGS,
    {
        VMObjectPhysical::read(self, pmem, offset, len)
    }

    /// As [`VMObjectPhysical::write`].
    fn write(&mut self, pmem: &mut PhysMemory, offset: usize, buf: &[u8]) -> (r: ZxResult)
        ensures
            *final(self) == *old(self),
            final(pmem).owners() == old(pmem).owners(),
            old(pmem).changed_only_for(final(pmem), old(self).koid()),
            r == old(self).access_result(offset as int, buf@.len() as int),
            r is Err ==> *final(pmem) == *old(pmem),
    {
        VMObjectPhysical::write(self, pmem, offset, buf)
    }

    fn len(&self, pmem: &PhysMemory) -> (n: usize) {
        VMObjectPhysical::len(self, pmem)
    }

    /// As [`VMObjectPhysical::commit_page`].
    fn commit_page(&mut self, pmem: &mut PhysMemory, page_idx: usize) -> (r: ZxResult<PhysAddr>)
        ensures
            *final(self) == *old(self),
            *final(pmem) == *old(pmem),
            r is Ok <==> page_idx < old(self).page_count(),
            r matches Err(e) ==> e == ZxError::INVALID_ARGS,
            r matches Ok(a) ==> a == old(self).base() + page_idx * 4096,
    {
        VMObjectPhysical::commit_page(self, pmem, page_idx)
    }
}

/// The two kinds of memory object.
pub enum VmoInner {
    /// Page frames taken on demand.
    Paged(VMObjectPaged),
    /// A fixed run of physical memory.
    Physical(VMObjectPhysical),
}

/// Virtual memory object: a container of bytes that can be mapped.
pub struct VmObject {
    base: KObjectBase,
    parent_koid: KoID,
    resizable: bool,
    children: Vec<KoID>,
    mappings: Vec<u64>,
    inner: VmoInner,
}

/// Flag bits of [`ZxInfoVmo`].
#[derive(Clone, Copy, Debug, PartialEq, Eq, Structural)]
pub struct VmoInfoFlags {
    /// The flag bits.
    pub bits: u32,
}

impl VmoInfoFlags {
    /// The object stands for physical memory.
    pub const TYPE_PHYSICAL: u32 = 0;

    /// The object is backed by page frames.
    pub const TYPE_PAGED: u32 = 0x1;

    /// The object's length may be changed.
    pub const RESIZABLE: u32 = 0x2;

    /// The object is a copy-on-write clone.
    pub const IS_COW_CLONE: u32 = 0x4;

    /// The information was asked for through a handle.
    pub const VIA_HANDLE: u32 = 0x8;

    /// The information was asked for through a mapping.
    pub const VIA_MAPPING: u32 = 0x10;

    /// A pager backs the object.
    pub const PAGER_BACKED: u32 = 0x20;

    /// The object's memory is physically contiguous.
    pub const CONTIGUOUS: u32 = 0x40;

    /// No flag.
    pub fn empty() -> (f: VmoInfoFlags)
        ensures
            f.bits == 0,
    {
        VmoInfoFlags { bits: 0 }
    }

    /// Whether every flag of the mask `other` is set.
    pub fn contains(&self, other: u32) -> (r: bool)
        ensures
            r == (self.bits & other == other),
    {
        self.bits & other == other
    }
}

/// Describes a VMO.
pub struct ZxInfoVmo {
    /// The koid of this VMO.
    pub koid: KoID,
    /// The name of this VMO, padded with zero bytes.
    pub name: [u8; 32],
    /// The size of this VMO; i.e., the amount of virtual address space it
    /// would consume if mapped.
    pub size: u64,
    /// If this VMO is a clone, the koid of its parent. Otherwise, zero.
    pub parent_koid: KoID,
    /// The number of clones of this VMO, if any.
    pub num_children: u64,
    /// The number of times this VMO is currently mapped into VMARs.
    pub num_mappings: u64,
    /// The number of unique address space we're mapped into.
    pub share_count: u64,
    /// Flags.
    pub flags: VmoInfoFlags,
    /// Padding.
    pub padding1: [u8; 4],
    /// The amount of memory currently allocated to this VMO; i.e., the
    /// amount of physical memory it consumes.
    pub committed_bytes: u64,
    /// The handle rights, where the information came through a handle.
    pub rights: Rights,
    /// VMO mapping cache policy.
    pub cache_policy: u32,
}

/// `records` without the first record of `x`, if there is one.
pub open spec fn without_first(records: Seq<u64>, x: u64) -> Seq<u64> {
    if records.contains(x) {
        records.remove(
            choose|k: int|
                0 <= k < records.len() && records[k] == x && forall|j: int|
                    0 <= j < k ==> records[j] != x,
        )
    } else {
        records
    }
}

/// `name` as the 32 bytes of an information record: the name's bytes, then
/// zeroes.
pub open spec fn padded_name(name: Seq<u8>) -> Seq<u8> {
    Seq::new(
        32,
        |i: int|
            if i < name.len() {
                name[i]
            } else {
                0u8
            },
    )
}

/// The flags that an information record shows for a paged object.
pub open spec fn paged_info_flags(resizable: bool) -> u32 {
    if resizable {
        0x3
    } else {
        0x1
    }
}

impl VmObject {
    /// The object's identifier.
    pub closed spec fn koid(&self) -> KoID {
        self.base.koid()
    }

    /// The object's name.
    pub closed spec fn name_spec(&self) -> Seq<u8> {
        self.base.name_spec()
    }

    /// Identifier of the object that this one was made from, `0` if none.
    pub closed spec fn parent(&self) -> KoID {
        self.parent_koid
    }

    /// Whether the length may be changed.
    pub closed spec fn is_resizable(&self) -> bool {
        self.resizable
    }

    /// Identifiers of the objects made from this one.
    pub closed spec fn children_spec(&self) -> Seq<KoID> {
        self.children@
    }

    /// Identifiers of the mappings that show this object.
    pub closed spec fn mappings_spec(&self) -> Seq<u64> {
        self.mappings@
    }

    /// The storage behind the object.
    pub closed spec fn inner(&self) -> VmoInner {
        self.inner
    }

    /// The storage is sound and held under the object's identifier.
    pub open spec fn wf(&self, pmem: &PhysMemory) -> bool {
        &&& self.name_spec().len() <= 32
        &&& match self.inner() {
            VmoInner::Paged(p) => p.wf(pmem) && p.koid() == self.koid(),
            VmoInner::Physical(p) => p.wf(pmem) && p.koid() == self.koid(),
        }
    }

    /// Length in bytes.
    pub open spec fn size(&self) -> nat {
        match self.inner() {
            VmoInner::Paged(p) => p.size(),
            VmoInner::Physical(p) => p.size(),
        }
    }

    /// The bytes that the object holds, by offset.
    pub open spec fn content(&self, pmem: &PhysMemory) -> Seq<u8> {
        match self.inner() {
            VmoInner::Paged(p) => p.content(pmem),
            VmoInner::Physical(p) => p.content(pmem),
        }
    }

    /// Number of bytes of memory that the object occupies.
    pub open spec fn committed(&self) -> nat {
        match self.inner() {
            VmoInner::Paged(p) => p.committed_pages() * 4096,
            VmoInner::Physical(p) => p.size(),
        }
    }

    /// What an access of `len` bytes at `offset` comes to.
    pub open spec fn access_result(&self, pmem: &PhysMemory, offset: int, len: int) -> ZxResult {
        match self.inner() {
            VmoInner::Paged(p) => p.access_result(pmem, offset, len),
            VmoInner::Physical(p) => p.access_result(offset, len),
        }
    }

    /// Number of frames that an access of `len` bytes at `offset` takes
    /// from memory: one for each page it touches that has none yet. A
    /// physical object takes none.
    pub open spec fn fresh_pages(&self, offset: int, len: int) -> nat {
        match self.inner() {
            VmoInner::Paged(p) => p.uncommitted_in(
                first_touched(offset, len),
                end_touched(offset, len),
            ),
            VmoInner::Physical(_) => 0,
        }
    }

    /// Whether `after` is `self` after an access of `len` bytes at `offset`
    /// as far as frames go: in a paged object every page that the access
    /// touches has a frame, and the other pages have what they had.
    pub open spec fn touched(&self, after: &VmObject, offset: int, len: int) -> bool {
        match self.inner() {
            VmoInner::Paged(p) => after.inner() matches VmoInner::Paged(q) && p.touched(
                &q,
                offset,
                len,
            ),
            VmoInner::Physical(p) => after.inner() == self.inner(),
        }
    }

    /// Whether `after` is `self` with the frames taken from the pages of the
    /// range of `len` bytes at `offset`, and the other pages as they were.
    pub open spec fn released(&self, after: &VmObject, offset: int, len: int) -> bool {
        self.inner() matches VmoInner::Paged(p) && after.inner() matches VmoInner::Paged(q) && {
            &&& q.page_count() == p.page_count()
            &&& forall|i: int|
                offset / 4096 <= i < (offset + len) / 4096 ==> q.frame_table()[i] is None
            &&& forall|i: int|
                0 <= i < p.page_count() && !(offset / 4096 <= i < (offset + len) / 4096)
                    ==> q.frame_table()[i] == p.frame_table()[i]
        }
    }

    /// What [`VmObject::commit`] comes to for the range of `len` bytes at
    /// `offset`.
    pub open spec fn commit_result(&self, pmem: &PhysMemory, offset: int, len: int) -> ZxResult {
        match self.inner() {
            VmoInner::Physical(_) => Err(ZxError::NOT_SUPPORTED),
            VmoInner::Paged(p) => if !p.page_range_ok(offset, len) {
                Err(ZxError::INVALID_ARGS)
            } else if p.uncommitted_in(offset / 4096, (offset + len) / 4096) > pmem.free_frames() {
                Err(ZxError::NO_MEMORY)
            } else {
                Ok(())
            },
        }
    }

    /// Whether page `idx` has memory behind it.
    pub open spec fn is_backed(&self, idx: int) -> bool {
        match self.inner() {
            VmoInner::Physical(p) => 0 <= idx < p.page_count(),
            VmoInner::Paged(p) => 0 <= idx < p.page_count() && p.frame_table()[idx] is Some,
        }
    }

    /// The address of the memory behind page `idx`.
    pub open spec fn backing(&self, idx: int) -> int {
        match self.inner() {
            VmoInner::Physical(p) => p.base() + idx * 4096,
            VmoInner::Paged(p) => p.frame_table()[idx]->Some_0 * 4096,
        }
    }

    /// Whether `after` is this object with nothing changed but its storage.
    pub open spec fn same_object(&self, after: &VmObject) -> bool {
        &&& after.koid() == self.koid()
        &&& after.name_spec() == self.name_spec()
        &&& after.parent() == self.parent()
        &&& after.is_resizable() == self.is_resizable()
        &&& after.children_spec() == self.children_spec()
        &&& after.mappings_spec() == self.mappings_spec()
        &&& after.inner() is Paged <==> self.inner() is Paged
    }

    /// Create a new VMO backing on physical memory allocated in pages.
    pub fn new_paged(koid: KoID, pages: usize) -> (vmo: Self)
        requires
            koid != 0,
            pages * 4096 <= usize::MAX,
        ensures
            vmo.koid() == koid,
            vmo.parent() == 0,
            vmo.is_resizable(),
            vmo.name_spec().len() == 0,
            vmo.children_spec().len() == 0,
            vmo.mappings_spec().len() == 0,
            vmo.inner() is Paged,
            vmo.size() == pages * 4096,
            vmo.committed() == 0,
            forall|pmem: &PhysMemory| pmem.wf() ==> #[trigger] vmo.wf(pmem),
            forall|pmem: &PhysMemory, o: int|
                0 <= o < pages * 4096 ==> #[trigger] vmo.content(pmem)[o] == 0,
            forall|i: int| 0 <= i < pages ==> !#[trigger] vmo.is_backed(i),
    {
        Self::new_paged_with_resizable(koid, true, pages)
    }

    /// Create a new paged VMO whose length may or may not be changed later.
    pub fn new_paged_with_resizable(koid: KoID, resizable: bool, pages: usize) -> (vmo: Self)
        requires
            koid != 0,
            pages * 4096 <= usize::MAX,
        ensures
            vmo.koid() == koid,
            vmo.parent() == 0,
            vmo.is_resizable() == resizable,
            vmo.name_spec().len() == 0,
            vmo.children_spec().len() == 0,
            vmo.mappings_spec().len() == 0,
            vmo.inner() is Paged,
            vmo.size() == pages * 4096,
            vmo.committed() == 0,
            forall|pmem: &PhysMemory| pmem.wf() ==> #[trigger] vmo.wf(pmem),
            forall|pmem: &PhysMemory, o: int|
                0 <= o < pages * 4096 ==> #[trigger] vmo.content(pmem)[o] == 0,
            forall|i: int| 0 <= i < pages ==> !#[trigger] vmo.is_backed(i),
    {
        VmObject {
            base: KObjectBase::new(koid),
            parent_koid: 0,
            resizable,
            children: Vec::new(),
            mappings: Vec::new(),
            inner: VmoInner::Paged(VMObjectPaged::new(koid, pages)),
        }
    }

    /// Create a new VMO representing a piece of contiguous physical memory:
    /// the `pages` pages from address `paddr` on.
    ///
    /// Fails with `INVALID_ARGS`, changing nothing, unless the whole range
    /// lies in `pmem` and nobody holds any of it yet.
    pub fn new_physical(pmem: &mut PhysMemory, koid: KoID, paddr: PhysAddr, pages: usize) -> (r:
        ZxResult<VmObject>)
        requires
            old(pmem).wf(),
            koid != 0,
            paddr % 4096 == 0,
        ensures
            final(pmem).wf(),
            old(pmem).changed_only_for(final(pmem), koid),
            final(pmem).bytes() == old(pmem).bytes(),
            r is Ok <==> old(pmem).range_owned_by(paddr as int / 4096, pages as int, 0),
            r matches Err(e) ==> e == ZxError::INVALID_ARGS && *final(pmem) == *old(pmem),
            r matches Ok(vmo) ==> {
                &&& vmo.wf(final(pmem))
                &&& vmo.koid() == koid
                &&& vmo.parent() == 0
                &&& vmo.is_resizable()
                &&& vmo.name_spec().len() == 0
                &&& vmo.children_spec().len() == 0
                &&& vmo.mappings_spec().len() == 0
                &&& vmo.inner() matches VmoInner::Physical(p) && p.base() == paddr
                &&& vmo.size() == pages * 4096
            },
    {
        match VMObjectPhysical::new(pmem, koid, paddr, pages) {
            Ok(inner) => Ok(
                VmObject {
                    base: KObjectBase::new(koid),
                    parent_koid: 0,
                    resizable: true,
                    children: Vec::new(),
                    mappings: Vec::new(),
                    inner: VmoInner::Physical(inner),
                },
            ),
            Err(e) => Err(e),
        }
    }

    /// The object's identifier.
    pub fn id(&self) -> (k: KoID)
        ensures
            k == self.koid(),
    {
        self.base.id()
    }

    /// The object's name.
    pub fn name(&self) -> (name: &Vec<u8>)
        ensures
            name@ == self.name_spec(),
    {
        self.base.name()
    }

    /// Renames the object; only the first 32 bytes are kept.
    pub fn set_name(&mut self, name: &[u8])
        ensures
            final(self).name_spec() == truncated_name(name@),
            final(self).koid() == old(self).koid(),
            final(self).parent() == old(self).parent(),
            final(self).is_resizable() == old(self).is_resizable(),
            final(self).children_spec() == old(self).children_spec(),
            final(self).mappings_spec() == old(self).mappings_spec(),
            final(self).inner() == old(self).inner(),
    {
        self.base.set_name(name);
    }

    /// Whether the object is backed by page frames.
    pub fn is_paged(&self) -> (r: bool)
        ensures
            r == (self.inner() is Paged),
    {
        match &self.inner {
            VmoInner::Paged(_) => true,
            VmoInner::Physical(_) => false,
        }
    }

    /// Whether the object's memory is one run of physical memory.
    pub fn is_contiguous(&self) -> (r: bool)
        ensures
            r == (self.inner() is Physical),
    {
        match &self.inner {
            VmoInner::Paged(_) => false,
            VmoInner::Physical(_) => true,
        }
    }

    /// Get the length of VMO.
    pub fn len(&self, pmem: &PhysMemory) -> (n: usize)
        requires
            self.wf(pmem),
        ensures
            n == self.size(),
    {
        match &self.inner {
            VmoInner::Paged(p) => VMObjectPaged::len(p),
            VmoInner::Physical(p) => VMObjectPhysical::len(p, pmem),
        }
    }

    /// Number of bytes of memory that the object occupies; never more than
    /// its length.
    pub fn committed_bytes(&self, pmem: &PhysMemory) -> (n: usize)
        requires
            self.wf(pmem),
        ensures
            n == self.committed(),
            n <= self.size(),
    {
        match &self.inner {
            VmoInner::Paged(p) => p.committed_bytes(),
            VmoInner::Physical(p) => VMObjectPhysical::len(p, pmem),
        }
    }

    /// Read memory from VMO at `offset`.
    ///
    /// Fails with `INVALID_ARGS` when the bytes would reach past the end of
    /// the object, and for a paged object with `NO_MEMORY` when the pages
    /// touched need more frames than are free. A failed call changes nothing
    /// and no call changes what the object holds.
    pub fn read(&mut self, pmem: &mut PhysMemory, offset: usize, len: usize) -> (r: ZxResult<
        Vec<u8>,
    >)
        requires
            old(self).wf(old(pmem)),
        ensures
            final(self).wf(final(pmem)),
            old(self).same_object(final(self)),
            final(self).size() == old(self).size(),
            old(pmem).changed_only_for(final(pmem), old(self).koid()),
            final(self).content(final(pmem)) == old(self).content(old(pmem)),
            r is Ok <==> old(self).access_result(old(pmem), offset as int, len as int) is Ok,
            r matches Err(e) ==> old(self).access_result(old(pmem), offset as int, len as int)
                == Err::<(), ZxError>(e) && *final(self) == *old(self) && *final(pmem) == *old(pmem),
            r matches Ok(buf) ==> buf@ == old(self).content(old(pmem)).subrange(
                offset as int,
                offset + len,
            ),
            r is Ok ==> final(self).access_result(final(pmem), offset as int, len as int) is Ok,
    {
        match &mut self.inner {
            VmoInner::Paged(p) => VMObjectPaged::read(p, pmem, offset, len),
            VmoInner::Physical(p) => VMObjectPhysical::read(p, pmem, offset, len),
        }
    }

    /// Write memory from `buf` to VMO at `offset`. In a paged object the
    /// pages that the bytes touch get frames where they had none, and no
    /// other page does.
    ///
    /// Fails as [`VmObject::read`] does; a failed call changes nothing.
    pub fn write(&mut self, pmem: &mut PhysMemory, offset: usize, buf: &[u8]) -> (r: ZxResult)
        requires
            old(self).wf(old(pmem)),
        ensures
            final(self).wf(final(pmem)),
            old(self).same_object(final(self)),
            final(self).size() == old(self).size(),
            old(pmem).changed_only_for(final(pmem), old(self).koid()),
            r == old(self).access_result(old(pmem), offset as int, buf@.len() as int),
            r is Err ==> *final(self) == *old(self) && *final(pmem) == *old(pmem),
            r is Ok ==> final(self).content(final(pmem)) == written(
                old(self).content(old(pmem)),
                offset as int,
                buf@,
            ),
            r is Ok ==> final(self).access_result(final(pmem), offset as int, buf@.len() as int)
                is Ok,
            r is Ok ==> old(self).touched(final(self), offset as int, buf@.len() as int),
            r is Ok ==> final(pmem).free_frames() + old(self).fresh_pages(
                offset as int,
                buf@.len() as int,
            ) == old(pmem).free_frames(),
            r is Ok ==> final(self).committed() == old(self).committed() + old(self).fresh_pages(
                offset as int,
                buf@.len() as int,
            ) * 4096,
    {
        match &mut self.inner {
            VmoInner::Paged(p) => VMObjectPaged::write(p, pmem, offset, buf),
            VmoInner::Physical(p) => VMObjectPhysical::write(p, pmem, offset, buf),
        }
    }

    /// What [`VmObject::commit`] would come to now, without doing it.
    pub fn commit_check(&self, pmem: &PhysMemory, offset: usize, len: usize) -> (r: ZxResult)
        requires
            self.wf(pmem),
        ensures
            r == self.commit_result(pmem, offset as int, len as int),
    {
        match &self.inner {
            VmoInner::Physical(_) => Err(ZxError::NOT_SUPPORTED),
            VmoInner::Paged(p) => {
                let size: usize = VMObjectPaged::len(p);
                if offset % 4096 != 0 || len % 4096 != 0 || offset > size || len > size - offset {
                    return Err(ZxError::INVALID_ARGS);
                }
                let need: usize = p.count_uncommitted(offset / 4096, (offset + len) / 4096);
                if pmem.count_free_frames() < need {
                    Err(ZxError::NO_MEMORY)
                } else {
                    Ok(())
                }
            },
        }
    }

    /// The address of the memory behind page `idx`, if the page has any.
    pub fn page_addr(&self, pmem: &PhysMemory, idx: usize) -> (r: Option<PhysAddr>)
        requires
            self.wf(pmem),
        ensures
            r is Some <==> self.is_backed(idx as int),
            r matches Some(a) ==> a == self.backing(idx as int),
    {
        match &self.inner {
            VmoInner::Physical(p) => match VMObjectPhysical::commit_page(p, pmem, idx) {
                Ok(a) => Some(a),
                Err(_) => None,
            },
            VmoInner::Paged(p) => {
                if idx >= p.pages() {
                    None
                } else {
                    match p.frame_of(idx) {
                        Some(f) => Some(f * 4096),
                        None => None,
                    }
                }
            },
        }
    }

    /// Commit a page: make sure page `page_idx` has memory behind it and
    /// return that memory's address.
    ///
    /// Fails with `INVALID_ARGS` for a page past the end, and for a paged
    /// object with `NO_MEMORY` when the page needs a frame and none is free.
    /// Committing a page again returns the same address and changes nothing.
    pub fn commit_page(&mut self, pmem: &mut PhysMemory, page_idx: usize) -> (r: ZxResult<
        PhysAddr,
    >)
        requires
            old(self).wf(old(pmem)),
        ensures
            final(self).wf(final(pmem)),
            old(self).same_object(final(self)),
            final(self).size() == old(self).size(),
            old(pmem).changed_only_for(final(pmem), old(self).koid()),
            final(self).content(final(pmem)) == old(self).content(old(pmem)),
            r is Err ==> *final(self) == *old(self) && *final(pmem) == *old(pmem),
            r matches Err(e) ==> e == if page_idx * 4096 >= old(self).size() {
                ZxError::INVALID_ARGS
            } else {
                ZxError::NO_MEMORY
            },
            r matches Ok(paddr) ==> match final(self).inner() {
                VmoInner::Paged(p) => p.frame_table()[page_idx as int] matches Some(f) && paddr == f
                    * 4096,
                VmoInner::Physical(p) => paddr == p.base() + page_idx * 4096,
            },
            old(self).inner() matches VmoInner::Paged(p) ==> (r is Ok <==> page_idx
                < p.page_count() && (p.frame_table()[page_idx as int] is Some || old(pmem).free_frames() > 0)),
            old(self).inner() is Physical ==> (r is Ok <==> page_idx * 4096 < old(self).size()),
            r matches Ok(paddr) ==> final(self).is_backed(page_idx as int) && paddr == final(self).backing(page_idx as int),
            old(self).is_backed(page_idx as int) ==> r is Ok && *final(self) == *old(self)
                && *final(pmem) == *old(pmem),
    {
        match &mut self.inner {
            VmoInner::Paged(p) => VMObjectPaged::commit_page(p, pmem, page_idx),
            VmoInner::Physical(p) => VMObjectPhysical::commit_page(p, pmem, page_idx),
        }
    }

    /// Commit allocating physical memory for the range of `len` bytes at
    /// `offset`.
    ///
    /// A physical object fails with `NOT_SUPPORTED`. A paged one fails with
    /// `INVALID_ARGS` unless both numbers are multiples of the page size and
    /// the range ends inside the object, with `NO_MEMORY` when the range
    /// lacks more frames than are free. A failed call changes nothing and no
    /// call changes what the object holds.
    pub fn commit(&mut self, pmem: &mut PhysMemory, offset: usize, len: usize) -> (r: ZxResult)
        requires
            old(self).wf(old(pmem)),
        ensures
            final(self).wf(final(pmem)),
            old(self).same_object(final(self)),
            final(self).size() == old(self).size(),
            old(pmem).changed_only_for(final(pmem), old(self).koid()),
            final(self).content(final(pmem)) == old(self).content(old(pmem)),
            r is Err ==> *final(self) == *old(self) && *final(pmem) == *old(pmem),
            r == old(self).commit_result(old(pmem), offset as int, len as int),
            r is Ok ==> (final(self).inner() matches VmoInner::Paged(p) && forall|i: int|
                offset as int / 4096 <= i < (offset + len) / 4096 ==> p.frame_table()[i] is Some),
            r is Ok ==> forall|i: int|
                offset as int / 4096 <= i < (offset + len) / 4096 ==> final(self).is_backed(i),
            r is Ok ==> (old(self).inner() matches VmoInner::Paged(p) ==> final(self).committed()
                == old(self).committed() + p.uncommitted_in(
                offset as int / 4096,
                (offset + len) / 4096,
            ) * 4096 && final(pmem).free_frames() + p.uncommitted_in(
                offset as int / 4096,
                (offset + len) / 4096,
            ) == old(pmem).free_frames()),
    {
        match &mut self.inner {
            VmoInner::Paged(p) => p.commit(pmem, offset, len),
            VmoInner::Physical(p) => p.commit(offset, len),
        }
    }

    /// Decommit allocated physical memory: the range of `len` bytes at
    /// `offset` gives up its frames and reads as zeroes from now on. The
    /// pages of the range have no frame afterwards, the frames they had are
    /// free again, and the other pages keep theirs.
    ///
    /// A physical object fails with `NOT_SUPPORTED`. A paged one fails with
    /// `INVALID_ARGS` unless both numbers are multiples of the page size and
    /// the range ends inside the object. A failed call changes nothing.
    pub fn decommit(&mut self, pmem: &mut PhysMemory, offset: usize, len: usize) -> (r: ZxResult)
        requires
            old(self).wf(old(pmem)),
        ensures
            final(self).wf(final(pmem)),
            old(self).same_object(final(self)),
            final(self).size() == old(self).size(),
            old(pmem).changed_only_for(final(pmem), old(self).koid()),
            r is Err ==> *final(self) == *old(self) && *final(pmem) == *old(pmem),
            r == match old(self).inner() {
                VmoInner::Physical(_) => Err::<(), ZxError>(ZxError::NOT_SUPPORTED),
                VmoInner::Paged(p) => if !p.page_range_ok(offset as int, len as int) {
                    Err::<(), ZxError>(ZxError::INVALID_ARGS)
                } else {
                    Ok::<(), ZxError>(())
                },
            },
            r is Ok ==> final(self).content(final(pmem)) == zeroed(
                old(self).content(old(pmem)),
                offset as int,
                len as int,
            ),
            r is Ok ==> old(self).released(final(self), offset as int, len as int),
            r is Ok ==> final(pmem).bytes() == old(pmem).bytes(),
            r is Ok ==> (old(self).inner() matches VmoInner::Paged(p) ==> final(pmem).free_frames()
                == old(pmem).free_frames() + p.committed_in(
                offset as int / 4096,
                (offset + len) / 4096,
            ) && final(self).committed() + p.committed_in(
                offset as int / 4096,
                (offset + len) / 4096,
            ) * 4096 == old(self).committed()),
    {
        match &mut self.inner {
            VmoInner::Paged(p) => p.decommit(pmem, offset, len),
            VmoInner::Physical(p) => p.decommit(offset, len),
        }
    }

    /// Set the length of VMO.
    ///
    /// Fails with `UNAVAILABLE` for an object that is not resizable, with
    /// `NOT_SUPPORTED` for a physical object, with `INVALID_ARGS` unless
    /// `len` is a multiple of the page size. A failed call changes nothing.
    /// A shorter object gives up the frames of the pages it loses; the pages
    /// that a longer one gains read as zeroes.
    pub fn set_len(&mut self, pmem: &mut PhysMemory, len: usize) -> (r: ZxResult)
        requires
            old(self).wf(old(pmem)),
        ensures
            final(self).wf(final(pmem)),
            old(self).same_object(final(self)),
            old(pmem).changed_only_for(final(pmem), old(self).koid()),
            final(pmem).bytes() == old(pmem).bytes(),
            r is Err ==> *final(self) == *old(self) && *final(pmem) == *old(pmem),
            r == if !old(self).is_resizable() {
                Err::<(), ZxError>(ZxError::UNAVAILABLE)
            } else if old(self).inner() is Physical {
                Err::<(), ZxError>(ZxError::NOT_SUPPORTED)
            } else if len % 4096 != 0 {
                Err::<(), ZxError>(ZxError::INVALID_ARGS)
            } else {
                Ok::<(), ZxError>(())
            },
            r is Ok ==> final(self).size() == len && final(self).content(final(pmem)) == resized(
                old(self).content(old(pmem)),
                len as nat,
            ),
    {
        if !self.resizable {
            return Err(ZxError::UNAVAILABLE);
        }
        match &mut self.inner {
            VmoInner::Paged(p) => p.set_len(pmem, len),
            VmoInner::Physical(p) => p.set_len(len),
        }
    }

    /// Create a child VMO, held under `koid`, that holds what the range of
    /// `len` bytes at `offset` holds at this moment. Later stores into
    /// either object do not show in the other. The child takes the parent's
    /// name and counts as one more of its children.
    ///
    /// A physical object fails with `NOT_SUPPORTED`. A paged one fails with
    /// `INVALID_ARGS` unless both numbers are multiples of the page size and
    /// the range ends inside the object, with `NO_MEMORY` when the range
    /// holds more frames than are free. A failed call changes nothing.
    pub fn create_child(
        &mut self,
        pmem: &mut PhysMemory,
        koid: KoID,
        resizable: bool,
        offset: usize,
        len: usize,
    ) -> (r: ZxResult<VmObject>)
        requires
            old(self).wf(old(pmem)),
            koid != 0,
            koid != old(self).koid(),
        ensures
            final(self).wf(final(pmem)),
            final(self).koid() == old(self).koid(),
            final(self).name_spec() == old(self).name_spec(),
            final(self).parent() == old(self).parent(),
            final(self).is_resizable() == old(self).is_resizable(),
            final(self).mappings_spec() == old(self).mappings_spec(),
            final(self).inner() == old(self).inner(),
            old(pmem).changed_only_for(final(pmem), koid),
            final(self).content(final(pmem)) == old(self).content(old(pmem)),
            r is Err ==> *final(self) == *old(self) && *final(pmem) == *old(pmem),
            r is Ok <==> (old(self).inner() matches VmoInner::Paged(p) && p.page_range_ok(
                offset as int,
                len as int,
            ) && p.committed_in(offset as int / 4096, (offset + len) / 4096) <= old(pmem).free_frames()),
            r matches Err(e) ==> e == match old(self).inner() {
                VmoInner::Physical(_) => ZxError::NOT_SUPPORTED,
                VmoInner::Paged(p) => if !p.page_range_ok(offset as int, len as int) {
                    ZxError::INVALID_ARGS
                } else {
                    ZxError::NO_MEMORY
                },
            },
            r matches Ok(child) ==> {
                &&& child.wf(final(pmem))
                &&& child.koid() == koid
                &&& child.parent() == old(self).koid()
                &&& child.is_resizable() == resizable
                &&& child.name_spec() == old(self).name_spec()
                &&& child.children_spec().len() == 0
                &&& child.mappings_spec().len() == 0
                &&& child.inner() is Paged
                &&& child.size() == len
                &&& child.content(final(pmem)) == old(self).content(old(pmem)).subrange(
                    offset as int,
                    offset + len,
                )
                &&& final(self).children_spec() == old(self).children_spec().push(koid)
            },
    {
        let made = match &self.inner {
            VmoInner::Paged(p) => p.create_child(pmem, koid, offset, len),
            VmoInner::Physical(p) => p.create_child(offset, len),
        };
        match made {
            Ok(inner) => {
                let mut base = KObjectBase::new(koid);
                base.set_name(self.base.name().as_slice());
                proof {
                    assert(truncated_name(self.base.name_spec()) == self.base.name_spec());
                }
                self.children.push(koid);
                Ok(
                    VmObject {
                        base,
                        parent_koid: self.base.id(),
                        resizable,
                        children: Vec::new(),
                        mappings: Vec::new(),
                        inner: VmoInner::Paged(inner),
                    },
                )
            },
            Err(e) => Err(e),
        }
    }

    /// Records that the mapping `mapping` shows this object.
    pub fn append_mapping(&mut self, mapping: u64)
        ensures
            final(self).mappings_spec() == old(self).mappings_spec().push(mapping),
            final(self).koid() == old(self).koid(),
            final(self).name_spec() == old(self).name_spec(),
            final(self).parent() == old(self).parent(),
            final(self).is_resizable() == old(self).is_resizable(),
            final(self).children_spec() == old(self).children_spec(),
            final(self).inner() == old(self).inner(),
    {
        self.mappings.push(mapping);
    }

    /// Forgets the first record of the mapping `mapping`, if there is one.
    /// Says whether there was.
    pub fn remove_mapping(&mut self, mapping: u64) -> (found: bool)
        ensures
            found == old(self).mappings_spec().contains(mapping),
            final(self).mappings_spec() == without_first(old(self).mappings_spec(), mapping),
            final(self).koid() == old(self).koid(),
            final(self).name_spec() == old(self).name_spec(),
            final(self).parent() == old(self).parent(),
            final(self).is_resizable() == old(self).is_resizable(),
            final(self).children_spec() == old(self).children_spec(),
            final(self).inner() == old(self).inner(),
    {
        let mut i: usize = 0;
        while i < self.mappings.len()
            invariant
                i <= self.mappings.len(),
                *self == *old(self),
                forall|j: int| 0 <= j < i ==> self.mappings@[j] != mapping,
            decreases self.mappings.len() - i,
        {
            if self.mappings[i] == mapping {
                proof {
                    let s = self.mappings@;
                    assert(s.contains(mapping));
                    let k = choose|k: int|
                        0 <= k < s.len() && s[k] == mapping && forall|j: int|
                            0 <= j < k ==> s[j] != mapping;
                    assert(0 <= i < s.len() && s[i as int] == mapping && forall|j: int|
                        0 <= j < i ==> s[j] != mapping);
                    if k < i {
                        assert(s[k] != mapping);
                    }
                    if i < k {
                        assert(s[i as int] != mapping);
                    }
                }
                self.mappings.remove(i);
                return true;
            }
            i += 1;
        }
        proof {
            assert(!old(self).mappings_spec().contains(mapping));
        }
        false
    }

    /// Number of mappings that show this object.
    pub fn num_mappings(&self) -> (n: usize)
        ensures
            n == self.mappings_spec().len(),
    {
        self.mappings.len()
    }

    /// Number of objects made from this one.
    pub fn num_children(&self) -> (n: usize)
        ensures
            n == self.children_spec().len(),
    {
        self.children.len()
    }

    /// Information about a paged object.
    pub fn get_info(&self, pmem: &PhysMemory) -> (info: ZxInfoVmo)
        requires
            self.wf(pmem),
            self.inner() is Paged,
        ensures
            info.koid == self.koid(),
            info.name@ == padded_name(self.name_spec()),
            info.size == self.size(),
            info.parent_koid == self.parent(),
            info.num_children == self.children_spec().len(),
            info.num_mappings == self.mappings_spec().len(),
            info.share_count == self.mappings_spec().len(),
            info.flags.bits == paged_info_flags(self.is_resizable()),
            info.padding1@ == seq![0u8, 0u8, 0u8, 0u8],
            info.committed_bytes == self.committed(),
            info.committed_bytes <= info.size,
            info.rights.bits == 0,
            info.cache_policy == 0,
    {
        let mut name: [u8; 32] = [0u8; 32];
        let own: &Vec<u8> = self.base.name();
        let mut i: usize = 0;
        while i < own.len()
            invariant
                i <= own@.len() <= 32,
                forall|j: int| 0 <= j < i ==> name@[j] == own@[j],
                forall|j: int| i <= j < 32 ==> name@[j] == 0,
            decreases own.len() - i,
        {
            name[i] = own[i];
            i += 1;
        }
        let flags: u32 = if self.resizable {
            VmoInfoFlags::RESIZABLE | VmoInfoFlags::TYPE_PAGED
        } else {
            VmoInfoFlags::TYPE_PAGED
        };
        proof {
            assert(0x2u32 | 0x1u32 == 0x3u32) by (bit_vector);
        }
        ZxInfoVmo {
            koid: self.base.id(),
            name,
            size: self.len(pmem) as u64,
            parent_koid: self.parent_koid,
            num_children: self.children.len() as u64,
            num_mappings: self.mappings.len() as u64,
            share_count: self.mappings.len() as u64,
            flags: VmoInfoFlags { bits: flags },
            padding1: [0u8; 4],
            committed_bytes: self.committed_bytes(pmem) as u64,
            rights: Rights::empty(),
            cache_policy: 0,
        }
    }

    /// Whether frame `f` is part of the object's memory.
    pub open spec fn holds_frame(&self, f: int) -> bool {
        match self.inner() {
            VmoInner::Paged(p) => p.holds_frame(f),
            VmoInner::Physical(p) => p.holds_frame(f),
        }
    }

    /// Gives up the object's memory; the object ends here. Each frame of
    /// the object's memory is free afterwards, no other frame changes hands,
    /// and no byte of memory changes.
    pub fn destroy(self, pmem: &mut PhysMemory)
        requires
            self.wf(old(pmem)),
        ensures
            final(pmem).wf(),
            old(pmem).changed_only_for(final(pmem), self.koid()),
            final(pmem).bytes() == old(pmem).bytes(),
            final(pmem).frames() == old(pmem).frames(),
            forall|f: int|
                0 <= f < old(pmem).frames() ==> #[trigger] final(pmem).owners()[f]
                    == if self.holds_frame(f) {
                    0u64
                } else {
                    old(pmem).owners()[f]
                },
            final(pmem).free_frames() * 4096 == old(pmem).free_frames() * 4096 + self.committed(),
    {
        match self.inner {
            VmoInner::Paged(p) => p.destroy(pmem),
            VmoInner::Physical(p) => p.destroy(pmem),
        }
    }
}

/// What was stored can be read back: the bytes at `offset` of a content
/// into which `data` was stored at `offset` are `data`.
pub proof fn lemma_write_then_read(content: Seq<u8>, offset: int, data: Seq<u8>)
    requires
        0 <= offset,
        offset + data.len() <= content.len(),
    ensures
        written(content, offset, data).subrange(offset, offset + data.len()) == data,
        written(content, offset, data).len() == content.len(),
{
}

/// A decommitted range reads as zeroes, whatever it held and whether or not
/// it was committed before.
pub proof fn lemma_decommit_then_read_zero(content: Seq<u8>, offset: int, len: int)
    requires
        0 <= offset,
        0 <= len,
        offset + len <= content.len(),
    ensures
        zeroed(content, offset, len).subrange(offset, offset + len) == Seq::new(
            len as nat,
            |i: int| 0u8,
        ),
{
}

impl VmObject {
    /// A memory object never occupies more memory than its length.
    pub proof fn lemma_committed_le_size(&self)
        ensures
            self.committed() <= self.size(),
    {
        match self.inner() {
            VmoInner::Paged(p) => {
                crate::vm::vmo::paged::lemma_count_none_bound(p.frame_table());
            },
            VmoInner::Physical(_) => {},
        }
    }

    /// After a committed range is decommitted, as [`VmObject::decommit`]
    /// says, the range counts as committed no longer, its frames are free
    /// again, and a read of the range finds the frames that it needs: it
    /// does not fail.
    pub proof fn lemma_read_after_decommit(
        &self,
        now: &VmObject,
        pmem: &PhysMemory,
        pmem_now: &PhysMemory,
        offset: int,
        len: int,
    )
        requires
            0 <= offset,
            0 <= len,
            self.inner() matches VmoInner::Paged(p) && p.page_range_ok(offset, len),
            forall|i: int|
                offset / 4096 <= i < (offset + len) / 4096 ==> #[trigger] self.is_backed(i),
            self.released(now, offset, len),
            self.inner() matches VmoInner::Paged(p) && pmem_now.free_frames()
                == pmem.free_frames() + p.committed_in(offset / 4096, (offset + len) / 4096)
                && now.committed() + p.committed_in(offset / 4096, (offset + len) / 4096) * 4096
                == self.committed(),
        ensures
            now.committed() + len == self.committed(),
            pmem_now.free_frames() == pmem.free_frames() + len / 4096,
            now.access_result(pmem_now, offset, len) is Ok,
    {
        if let VmoInner::Paged(p) = self.inner() {
            if let VmoInner::Paged(q) = now.inner() {
                let lo = offset / 4096;
                let hi = (offset + len) / 4096;
                assert(hi - lo == len / 4096);
                assert forall|i: int| 0 <= i < hi - lo implies p.frame_table().subrange(lo, hi)[i]
                    is Some by {
                    assert(self.is_backed(lo + i));
                }
                crate::vm::vmo::paged::lemma_count_none_zero(p.frame_table().subrange(lo, hi));
                assert(p.committed_in(lo, hi) == hi - lo);
                if len > 0 {
                    assert(first_touched(offset, len) == lo);
                    assert(end_touched(offset, len) == hi);
                    crate::vm::vmo::paged::lemma_count_none_bound(q.frame_table().subrange(lo, hi));
                } else {
                    assert(q.frame_table().subrange(0, 0).len() == 0);
                }
            }
        }
    }

    /// An access that ends exactly at the end of the object is in range; one
    /// that ends past it is refused with `INVALID_ARGS`.
    pub proof fn lemma_access_bounds(&self, pmem: &PhysMemory, offset: int, len: int)
        requires
            0 <= offset,
            0 <= len,
        ensures
            offset + len > self.size() ==> self.access_result(pmem, offset, len) == Err::<
                (),
                ZxError,
            >(ZxError::INVALID_ARGS),
            offset + len <= self.size() ==> self.access_result(pmem, offset, len) != Err::<
                (),
                ZxError,
            >(ZxError::INVALID_ARGS),
            offset + len <= self.size() && self.inner() is Physical ==> self.access_result(
                pmem,
                offset,
                len,
            ) is Ok,
    {
    }

    /// What one object does to memory leaves every other object sound and
    /// holding what it held.
    pub proof fn lemma_untouched_by(&self, before: &PhysMemory, after: &PhysMemory, owner: KoID)
        requires
            self.wf(before),
            before.changed_only_for(after, owner),
            after.wf(),
            owner != self.koid(),
        ensures
            self.wf(after),
            self.content(after) == self.content(before),
    {
        match self.inner() {
            VmoInner::Paged(p) => {
                assert forall|o: int| 0 <= o < p.size() implies crate::vm::vmo::paged::byte_at(
                    p.frame_table(),
                    after.bytes(),
                    o,
                ) == crate::vm::vmo::paged::byte_at(p.frame_table(), before.bytes(), o) by {
                    if let Some(f) = p.frame_table()[o / 4096] {
                        let a = f * 4096 + o % 4096;
                        assert(a / 4096 == f as int);
                        assert(after.bytes()[a] == before.bytes()[a]);
                    }
                }
                assert(p.content(after) =~= p.content(before));
            },
            VmoInner::Physical(p) => {
                assert forall|o: int| 0 <= o < p.size() implies #[trigger] after.bytes()[p.base() + o]
                    == before.bytes()[p.base() + o] by {
                    let a = p.base() + o;
                    assert(p.base() as int / 4096 <= a / 4096 < p.base() as int / 4096
                        + p.page_count());
                }
                assert(p.content(after) =~= p.content(before));
            },
        }
    }
}

} // verus!
