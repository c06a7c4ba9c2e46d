//! System calls for device drivers: IOMMUs, bus transaction initiators and
//! pinned memory.
use vstd::prelude::*;
use crate::dev::{
    encoded_addrs, Bti, BtiOptions, Iommu, IommuPerms, PinnedMemoryToken, ResourceKind,
};
use crate::error::{ZxError, ZxResult};
use crate::kernel::{has_object, is_obj, obj_kind, obj_koid, Kernel, KernelObject};
use crate::object::handle::{Handle, HandleValue, ObjectType};
use crate::object::rights::Rights;
use crate::object::{KObjectBase, KoID};
use crate::syscall::Syscall;
use crate::vm::pmem::PhysMemory;
use crate::vm::vmo::{VmObject, VmoInner};
use crate::vm::{page_aligned, DevVAddr, PAGE_SIZE};

verus! {

/// Longest descriptor that a caller may pass for a new IOMMU.
pub const IOMMU_MAX_DESC_LEN: usize = 4096;

/// Length of the descriptor of the one kind of IOMMU that exists.
pub const IOMMU_DESC_SIZE: usize = 1;

/// What a device may do with memory pinned under the options `options`
/// through a handle with `rights`, for a memory object that is contiguous
/// or not: the permissions, or why the request is refused.
pub open spec fn pin_perms(rights: Rights, options: u32, contiguous_vmo: bool) -> ZxResult<
    IommuPerms,
> {
    let o = options & 0x1f;
    if o & 0x1 == 0x1 && !rights.contains_spec(Rights::READ) {
        Err(ZxError::ACCESS_DENIED)
    } else if o & 0x2 == 0x2 && !rights.contains_spec(Rights::WRITE) {
        Err(ZxError::ACCESS_DENIED)
    } else if o & 0x4 == 0x4 && !rights.contains_spec(Rights::READ) {
        Err(ZxError::ACCESS_DENIED)
    } else if o & 0x10 == 0x10 && o & 0x8 == 0x8 {
        Err(ZxError::INVALID_ARGS)
    } else if o & 0x10 == 0x10 && !contiguous_vmo {
        Err(ZxError::INVALID_ARGS)
    } else {
        Ok(IommuPerms { bits: o & 0x7 })
    }
}

/// Decides what a device may do with memory pinned under `options`.
///
/// A device may read where the handle carries `READ`, write where it
/// carries `WRITE`, and execute where it carries `READ`: the right
/// `EXECUTE` is about the processor, not about the bus. Fails with
/// `ACCESS_DENIED` where the handle lacks the right for a permission asked
/// for; with `INVALID_ARGS` where both `COMPRESS` and `CONTIGUOUS` are
/// asked for, or `CONTIGUOUS` for a memory object that is not contiguous.
pub fn pin_check(rights: Rights, options: u32, contiguous_vmo: bool) -> (r: ZxResult<IommuPerms>)
    ensures
        r == pin_perms(rights, options, contiguous_vmo),
{
    let options = BtiOptions::from_bits_truncate(options);
    let mut perms: u32 = 0;
    if options.contains(BtiOptions::PERM_READ) {
        if !rights.contains(Rights::READ) {
            return Err(ZxError::ACCESS_DENIED);
        }
        perms = perms | IommuPerms::PERM_READ;
    }
    if options.contains(BtiOptions::PERM_WRITE) {
        if !rights.contains(Rights::WRITE) {
            return Err(ZxError::ACCESS_DENIED);
        }
        perms = perms | IommuPerms::PERM_WRITE;
    }
    if options.contains(BtiOptions::PERM_EXECUTE) {
        if !rights.contains(Rights::READ) {
            return Err(ZxError::ACCESS_DENIED);
        }
        perms = perms | IommuPerms::PERM_EXECUTE;
    }
    if options.contains(BtiOptions::CONTIGUOUS) && options.contains(BtiOptions::COMPRESS) {
        return Err(ZxError::INVALID_ARGS);
    }
    if options.contains(BtiOptions::CONTIGUOUS) && !contiguous_vmo {
        return Err(ZxError::INVALID_ARGS);
    }
    proof {
        let o = options.bits;
        assert(o & 0x7 == (if o & 0x1 == 0x1 {
            1u32
        } else {
            0u32
        }) | (if o & 0x2 == 0x2 {
            2u32
        } else {
            0u32
        }) | (if o & 0x4 == 0x4 {
            4u32
        } else {
            0u32
        })) by (bit_vector);
        assert(0u32 | 1u32 == 1u32 && 0u32 | 2u32 == 2u32 && 0u32 | 4u32 == 4u32 && 1u32 | 2u32
            == 3u32 && 1u32 | 4u32 == 5u32 && 2u32 | 4u32 == 6u32 && 3u32 | 4u32 == 7u32 && 0u32
            | 0u32 == 0u32 && 1u32 | 0u32 == 1u32 && 2u32 | 0u32 == 2u32 && 3u32 | 0u32 == 3u32)
            by (bit_vector);
    }
    Ok(IommuPerms { bits: perms })
}

/// The device address of each page of the `size` bytes at `offset` of the
/// memory object `vmo`, whose pages all have memory behind them.
pub open spec fn pinned_addrs(vmo: VmObject, offset: int, size: int) -> Seq<DevVAddr> {
    Seq::new((size / 4096) as nat, |k: int| vmo.backing(offset / 4096 + k) as usize)
}

/// Whether a pin request with `options` asks for one address for the whole
/// range.
pub open spec fn wants_contiguous(options: u32) -> bool {
    (options & 0x1f) & 0x10 == 0x10
}

/// What pinning the `size` bytes at `offset` of the memory object `vmo`
/// comes to, once the handles are found in order: the permissions of the
/// device, or why the request is refused. `full` says that identifiers or
/// handle values are used up.
pub open spec fn pin_vmo_result(
    vmo: VmObject,
    pmem: &PhysMemory,
    rights: Rights,
    options: u32,
    offset: int,
    size: int,
    addrs_count: int,
    full: bool,
) -> ZxResult<IommuPerms> {
    let perms = pin_perms(rights, options, vmo.inner() is Physical);
    if perms is Err {
        perms
    } else if size == 0 || offset + size > vmo.size() {
        Err(ZxError::INVALID_ARGS)
    } else if vmo.inner() is Paged && vmo.commit_result(pmem, offset, size) is Err {
        Err(vmo.commit_result(pmem, offset, size)->Err_0)
    } else if addrs_count != (if wants_contiguous(options) {
        1
    } else {
        size / 4096
    }) {
        Err(ZxError::INVALID_ARGS)
    } else if full {
        Err(ZxError::NO_MEMORY)
    } else {
        perms
    }
}

impl Syscall {
    /// What [`Syscall::sys_iommu_create`] comes to.
    pub open spec fn iommu_create_result(
        &self,
        resource: HandleValue,
        desc: Seq<u8>,
        desc_size: usize,
    ) -> ZxResult<HandleValue> {
        let table = self.kernel.processes@[self.proc as int].handles;
        let found = table.lookup(resource, Some(ObjectType::Resource), 0);
        if found is Err {
            Err(found->Err_0)
        } else if !self.is_root_resource(found->Ok_0.object) {
            Err(ZxError::WRONG_TYPE)
        } else if desc_size > 4096 || desc_size != 1 {
            Err(ZxError::INVALID_ARGS)
        } else if desc.len() != desc_size {
            Err(ZxError::INVALID_ARGS)
        } else if self.kernel.koids.next_koid() == u64::MAX || table.next_value() == u32::MAX {
            Err(ZxError::NO_MEMORY)
        } else {
            Ok(table.next_value())
        }
    }

    /// Whether the object `koid` is the root resource.
    pub open spec fn is_root_resource(&self, koid: KoID) -> bool {
        exists|j: int|
            0 <= j < self.kernel.objects@.len() && obj_koid(#[trigger] self.kernel.objects@[j])
                == koid && (self.kernel.objects@[j] matches KernelObject::Resource(r) && r.kind
                == ResourceKind::ROOT)
    }

    /// Whether `after` is `self` with one more object, `o`, and one more
    /// handle of the calling process, `value`, which refers to it with
    /// `rights`.
    pub open spec fn created(
        &self,
        after: &Syscall,
        o: KernelObject,
        value: HandleValue,
        rights: u32,
    ) -> bool {
        let before = self.kernel.processes@[self.proc as int];
        let proc = after.kernel.processes@[self.proc as int];
        &&& after.proc == self.proc
        &&& after.kernel.pmem == self.kernel.pmem
        &&& after.kernel.koids.next_koid() == self.kernel.koids.next_koid() + 1
        &&& obj_koid(o) == self.kernel.koids.next_koid()
        &&& after.kernel.objects@ == self.kernel.objects@.push(o)
        &&& after.kernel.processes@.len() == self.kernel.processes@.len()
        &&& forall|q: int|
            0 <= q < self.kernel.processes@.len() && q != self.proc
                ==> #[trigger] after.kernel.processes@[q] == self.kernel.processes@[q]
        &&& value != 0
        &&& !before.handles@.dom().contains(value)
        &&& proc.handles@ == before.handles@.insert(
            value,
            Handle { object: obj_koid(o), kind: obj_kind(o), rights: Rights { bits: rights } },
        )
        &&& proc.vmar == before.vmar
        &&& proc.threads == before.threads
        &&& proc.status == before.status
        &&& proc.base == before.base
    }

    /// Makes an IOMMU of the kind `type_`, described by the `desc_size`
    /// bytes `desc` that the caller passed, and gives the calling process a
    /// handle to it with the rights `DEFAULT_CHANNEL`. Returns the handle's
    /// value.
    ///
    /// Fails with `BAD_HANDLE` or `WRONG_TYPE` unless `resource` is a handle
    /// of the calling process to the root resource; with `INVALID_ARGS`
    /// unless `desc_size` is `IOMMU_DESC_SIZE` and `desc` has that many
    /// bytes; with `NO_MEMORY` when identifiers or handle values are used
    /// up. A failed call changes nothing.
    pub fn sys_iommu_create(
        &mut self,
        resource: HandleValue,
        type_: u32,
        desc: &[u8],
        desc_size: usize,
    ) -> (r: ZxResult<HandleValue>)
        requires
            old(self).wf(),
        ensures
            final(self).wf(),
            r == old(self).iommu_create_result(resource, desc@, desc_size),
            r is Err ==> old(self).kernel.unchanged(&final(self).kernel) && final(self).proc
                == old(self).proc,
            r matches Ok(value) ==> final(self).kernel.objects@.last() matches KernelObject::Iommu(
                i,
            ) && i.type_ == type_ && i.desc@ == desc@ && old(self).created(
                final(self),
                final(self).kernel.objects@.last(),
                value,
                Rights::DEFAULT_CHANNEL,
            ),
    {
        let p: usize = self.proc;
        let handle: Handle = match self.kernel.get_handle(p, resource, ObjectType::Resource, 0) {
            Ok(h) => h,
            Err(e) => {
                return Err(e);
            },
        };
        let i: usize = match self.kernel.find_object(handle.object) {
            Some(i) => i,
            None => {
                proof {
                    let j = choose|j: int| #[trigger]
                        is_obj(self.kernel.objects@, j, handle.object, ObjectType::Resource);
                    assert(obj_koid(self.kernel.objects@[j]) == handle.object);
                }
                return Err(ZxError::WRONG_TYPE);
            },
        };
        let root: bool = match &self.kernel.objects[i] {
            KernelObject::Resource(r) => r.validate(ResourceKind::ROOT).is_ok(),
            _ => false,
        };
        proof {
            if self.is_root_resource(handle.object) {
                let j = choose|j: int|
                    0 <= j < self.kernel.objects@.len() && obj_koid(
                        #[trigger] self.kernel.objects@[j],
                    ) == handle.object && (self.kernel.objects@[j] matches KernelObject::Resource(
                        r,
                    ) && r.kind == ResourceKind::ROOT);
                if j != i {
                    assert(obj_koid(self.kernel.objects@[j]) != obj_koid(
                        self.kernel.objects@[i as int],
                    ));
                }
            }
        }
        if !root {
            return Err(ZxError::WRONG_TYPE);
        }
        if desc_size > IOMMU_MAX_DESC_LEN {
            return Err(ZxError::INVALID_ARGS);
        }
        if desc_size != IOMMU_DESC_SIZE {
            return Err(ZxError::INVALID_ARGS);
        }
        if desc.len() != desc_size {
            return Err(ZxError::INVALID_ARGS);
        }
        if self.kernel.koids.peek() == u64::MAX || self.kernel.processes[p].handles.is_full() {
            return Err(ZxError::NO_MEMORY);
        }
        let mut copied: Vec<u8> = Vec::new();
        copied.push(desc[0]);
        proof {
            assert(copied@ =~= desc@);
        }
        let koid: KoID = self.kernel.koids.allocate().unwrap();
        let iommu = Iommu::create(koid, type_, copied);
        self.kernel.insert_object(KernelObject::Iommu(iommu));
        let added = self.kernel.add_handle(p, koid, Rights::from_bits(Rights::DEFAULT_CHANNEL));
        proof {
            assert(is_obj(
                self.kernel.objects@,
                self.kernel.objects@.len() - 1,
                koid,
                ObjectType::Iommu,
            ));
            assert(obj_koid(self.kernel.objects@[self.kernel.objects@.len() - 1]) == koid);
        }
        added
    }

    /// What [`Syscall::sys_bti_create`] comes to.
    pub open spec fn bti_create_result(&self, iommu: HandleValue, options: u32) -> ZxResult<
        HandleValue,
    > {
        let table = self.kernel.processes@[self.proc as int].handles;
        let found = table.lookup(iommu, Some(ObjectType::Iommu), 0);
        if options != 0 {
            Err(ZxError::INVALID_ARGS)
        } else if found is Err {
            Err(found->Err_0)
        } else if !self.unit_tells_apart(found->Ok_0.object) {
            Err(ZxError::INVALID_ARGS)
        } else if self.kernel.koids.next_koid() == u64::MAX || table.next_value() == u32::MAX {
            Err(ZxError::NO_MEMORY)
        } else {
            Ok(table.next_value())
        }
    }

    /// Whether the IOMMU known as `koid` can tell transactions apart by
    /// their initiator.
    pub open spec fn unit_tells_apart(&self, koid: KoID) -> bool {
        forall|i: int|
            0 <= i < self.kernel.objects@.len() && obj_koid(#[trigger] self.kernel.objects@[i])
                == koid ==> (self.kernel.objects@[i] matches KernelObject::Iommu(u)
                && u.valid_bus_txn_id())
    }

    /// Makes a bus transaction initiator with the number `bti_id` behind
    /// the IOMMU of the handle `iommu`, and gives the calling process a
    /// handle to it with the rights `DEFAULT_BTI`. Returns the handle's
    /// value.
    ///
    /// Fails with `INVALID_ARGS` unless `options` is zero; with `BAD_HANDLE`
    /// or `WRONG_TYPE` unless `iommu` is a handle of the calling process to
    /// an IOMMU; with `INVALID_ARGS` when that unit cannot tell transactions
    /// apart by initiator; with `NO_MEMORY` when identifiers or handle
    /// values are used up. A failed call changes nothing.
    pub fn sys_bti_create(&mut self, iommu: HandleValue, options: u32, bti_id: u64) -> (r: ZxResult<
        HandleValue,
    >)
        requires
            old(self).wf(),
        ensures
            final(self).wf(),
            r == old(self).bti_create_result(iommu, options),
            r is Err ==> old(self).kernel.unchanged(&final(self).kernel) && final(self).proc
                == old(self).proc,
            r matches Ok(value) ==> final(self).kernel.objects@.last() matches KernelObject::Bti(
                b,
            ) && b.bti_id == bti_id && b.iommu == old(self).kernel.processes@[old(self).proc as int].handles@[iommu].object && b.pmts@.len() == 0
                && old(self).created(
                final(self),
                final(self).kernel.objects@.last(),
                value,
                Rights::DEFAULT_BTI,
            ),
    {
        let p: usize = self.proc;
        if options != 0 {
            return Err(ZxError::INVALID_ARGS);
        }
        let handle: Handle = match self.kernel.get_handle(p, iommu, ObjectType::Iommu, 0) {
            Ok(h) => h,
            Err(e) => {
                return Err(e);
            },
        };
        let valid: bool = match self.kernel.find_object(handle.object) {
            Some(i) => match &self.kernel.objects[i] {
                KernelObject::Iommu(unit) => unit.is_valid_bus_txn_id(),
                _ => false,
            },
            None => false,
        };
        proof {
            let objs = self.kernel.objects@;
            let j = choose|j: int| #[trigger] is_obj(objs, j, handle.object, ObjectType::Iommu);
            assert(is_obj(objs, j, handle.object, ObjectType::Iommu));
            assert forall|i: int|
                0 <= i < objs.len() && obj_koid(#[trigger] objs[i]) == handle.object implies i
                == j by {
                if i != j {
                    assert(obj_koid(objs[i]) != obj_koid(objs[j]));
                }
            }
            assert(objs[j] is Iommu);
            assert(valid == self.unit_tells_apart(handle.object));
        }
        if !valid {
            return Err(ZxError::INVALID_ARGS);
        }
        if self.kernel.koids.peek() == u64::MAX || self.kernel.processes[p].handles.is_full() {
            return Err(ZxError::NO_MEMORY);
        }
        let koid: KoID = self.kernel.koids.allocate().unwrap();
        let bti = Bti::create(koid, handle.object, bti_id);
        self.kernel.insert_object(KernelObject::Bti(bti));
        let added = self.kernel.add_handle(p, koid, Rights::from_bits(Rights::DEFAULT_BTI));
        proof {
            assert(is_obj(
                self.kernel.objects@,
                self.kernel.objects@.len() - 1,
                koid,
                ObjectType::Bti,
            ));
            assert(obj_koid(self.kernel.objects@[self.kernel.objects@.len() - 1]) == koid);
        }
        added
    }

    /// What [`Syscall::sys_bti_pin`] comes to before it looks at the memory
    /// object: the handle of the memory object, or why the request is
    /// refused.
    pub open spec fn pin_handles(
        &self,
        bti: HandleValue,
        vmo: HandleValue,
        offset: usize,
        size: usize,
    ) -> ZxResult<Handle> {
        let table = self.kernel.processes@[self.proc as int].handles;
        let b = table.lookup(bti, Some(ObjectType::Bti), Rights::MAP);
        let v = table.lookup(vmo, Some(ObjectType::Vmo), 0);
        if b is Err {
            Err(b->Err_0)
        } else if offset % 4096 != 0 || size % 4096 != 0 {
            Err(ZxError::INVALID_ARGS)
        } else if v is Err {
            v
        } else if !v->Ok_0.rights.contains_spec(Rights::MAP) {
            Err(ZxError::ACCESS_DENIED)
        } else {
            v
        }
    }

    /// Whether identifiers or the handle values of the calling process are
    /// used up.
    pub open spec fn is_full(&self) -> bool {
        self.kernel.koids.next_koid() == u64::MAX
            || self.kernel.processes@[self.proc as int].handles.next_value() == u32::MAX
    }

    /// Whether `after` is `self` after the `size` bytes at `offset` of the
    /// memory object at position `i` were pinned through the initiator of
    /// the handle `bti` with the permissions `perms`: the pages have memory
    /// behind them, a token stands for them, the initiator knows the token,
    /// and the calling process has the handle `value` to the token, with
    /// the right `INSPECT`.
    pub open spec fn pinned(
        &self,
        after: &Syscall,
        bti: HandleValue,
        i: int,
        offset: usize,
        size: usize,
        perms: IommuPerms,
        value: HandleValue,
    ) -> bool {
        let before = self.kernel.processes@[self.proc as int];
        let proc = after.kernel.processes@[self.proc as int];
        let n = self.kernel.objects@.len() as int;
        let token = self.kernel.koids.next_koid();
        &&& after.proc == self.proc
        &&& after.kernel.koids.next_koid() == token + 1
        &&& after.kernel.objects@.len() == n + 1
        &&& forall|j: int|
            0 <= j < n ==> obj_koid(#[trigger] after.kernel.objects@[j]) == obj_koid(
                self.kernel.objects@[j],
            ) && obj_kind(after.kernel.objects@[j]) == obj_kind(self.kernel.objects@[j])
        &&& forall|j: int|
            0 <= j < n && (self.kernel.objects@[j] matches KernelObject::Vmo(w)) ==> (
            #[trigger] after.kernel.objects@[j] matches KernelObject::Vmo(w2) && w2.content(
                &after.kernel.pmem,
            ) == self.kernel.objects@[j]->Vmo_0.content(&self.kernel.pmem))
        &&& forall|k: int|
            offset as int / 4096 <= k < (offset + size) / 4096 ==> after.kernel.vmo_at(
                i,
            ).is_backed(k)
        &&& after.kernel.objects@[n] matches KernelObject::Pmt(t) && {
            &&& t.base.koid() == token
            &&& t.bti == before.handles@[bti].object
            &&& t.vmo == obj_koid(self.kernel.objects@[i])
            &&& t.offset == offset
            &&& t.size == size
            &&& t.perms == perms
            &&& t.mapped_addrs@ == pinned_addrs(after.kernel.vmo_at(i), offset as int, size as int)
        }
        &&& after.kernel.processes@.len() == self.kernel.processes@.len()
        &&& forall|q: int|
            0 <= q < self.kernel.processes@.len() && q != self.proc
                ==> #[trigger] after.kernel.processes@[q] == self.kernel.processes@[q]
        &&& value != 0
        &&& !before.handles@.dom().contains(value)
        &&& proc.handles@ == before.handles@.insert(
            value,
            Handle { object: token, kind: ObjectType::Pmt, rights: Rights { bits: Rights::INSPECT } },
        )
        &&& proc.vmar == before.vmar
        &&& proc.threads == before.threads
        &&& proc.status == before.status
        &&& proc.base == before.base
    }

    /// Pins the `size` bytes at `offset` of the memory object of the handle
    /// `vmo` for the device behind the initiator of the handle `bti`.
    /// Returns the device addresses of the pinned memory, one for the whole
    /// range where `options` hold `CONTIGUOUS` and else one for each page,
    /// and the value of a new handle of the calling process to the token
    /// that stands for the pinned memory.
    ///
    /// Fails, in this order, with `BAD_HANDLE`, `WRONG_TYPE` or
    /// `ACCESS_DENIED` unless `bti` is a handle to an initiator with the
    /// right `MAP`; with `INVALID_ARGS` unless `offset` and `size` are
    /// multiples of the page size; with `BAD_HANDLE`, `WRONG_TYPE` or
    /// `ACCESS_DENIED` unless `vmo` is a handle to a memory object with the
    /// right `MAP`; as [`pin_check`] does; with `INVALID_ARGS` where `size`
    /// is zero or the range does not lie in the memory object; with
    /// `NO_MEMORY` where the pages lack more frames than are free; with
    /// `INVALID_ARGS` unless `addrs_count` is the number of addresses to
    /// return; with `NO_MEMORY` where identifiers or handle values are used
    /// up. A failed call changes nothing.
    pub fn sys_bti_pin(
        &mut self,
        bti: HandleValue,
        options: u32,
        vmo: HandleValue,
        offset: usize,
        size: usize,
        addrs_count: usize,
    ) -> (r: ZxResult<(Vec<DevVAddr>, HandleValue)>)
        requires
            old(self).wf(),
        ensures
            final(self).wf(),
            r is Err ==> old(self).kernel.unchanged(&final(self).kernel) && final(self).proc
                == old(self).proc,
            old(self).pin_handles(bti, vmo, offset, size) matches Err(e) ==> (r matches Err(e2)
                && e2 == e),
            forall|i: int|
                old(self).pin_handles(bti, vmo, offset, size) is Ok && #[trigger] is_obj(
                    old(self).kernel.objects@,
                    i,
                    old(self).pin_handles(bti, vmo, offset, size)->Ok_0.object,
                    ObjectType::Vmo,
                ) ==> {
                    let decided = pin_vmo_result(
                        old(self).kernel.vmo_at(i),
                        &old(self).kernel.pmem,
                        old(self).pin_handles(bti, vmo, offset, size)->Ok_0.rights,
                        options,
                        offset as int,
                        size as int,
                        addrs_count as int,
                        old(self).is_full(),
                    );
                    &&& r is Ok <==> decided is Ok
                    &&& r matches Err(e) ==> decided == Err::<IommuPerms, ZxError>(e)
                    &&& r matches Ok(out) ==> out.0@ == encoded_addrs(
                        pinned_addrs(final(self).kernel.vmo_at(i), offset as int, size as int),
                        wants_contiguous(options),
                    ) && old(self).pinned(final(self), bti, i, offset, size, decided->Ok_0, out.1)
                },
    {
        let p: usize = self.proc;
        let bti_handle: Handle = match self.kernel.get_handle(
            p,
            bti,
            ObjectType::Bti,
            Rights::MAP,
        ) {
            Ok(h) => h,
            Err(e) => {
                return Err(e);
            },
        };
        if !page_aligned(offset) || !page_aligned(size) {
            return Err(ZxError::INVALID_ARGS);
        }
        let vmo_handle: Handle = match self.kernel.get_handle(p, vmo, ObjectType::Vmo, 0) {
            Ok(h) => h,
            Err(e) => {
                return Err(e);
            },
        };
        if !vmo_handle.rights.contains(Rights::MAP) {
            return Err(ZxError::ACCESS_DENIED);
        }
        let i: usize = match self.kernel.find_vmo(vmo_handle.object) {
            Some(i) => i,
            None => {
                return Err(ZxError::BAD_HANDLE);
            },
        };
        let b: usize = match self.kernel.find_object(bti_handle.object) {
            Some(b) => b,
            None => {
                proof {
                    let j = choose|j: int| #[trigger]
                        is_obj(self.kernel.objects@, j, bti_handle.object, ObjectType::Bti);
                    assert(obj_koid(self.kernel.objects@[j]) == bti_handle.object);
                }
                return Err(ZxError::BAD_HANDLE);
            },
        };
        proof {
            let j = choose|j: int| #[trigger]
                is_obj(self.kernel.objects@, j, bti_handle.object, ObjectType::Bti);
            if j != b {
                assert(obj_koid(self.kernel.objects@[j]) != obj_koid(
                    self.kernel.objects@[b as int],
                ));
            }
            assert(self.kernel.objects@[b as int] is Bti);
            assert forall|i2: int|
                is_obj(
                    self.kernel.objects@,
                    i2,
                    vmo_handle.object,
                    ObjectType::Vmo,
                ) implies i2 == i by {
                if i2 != i {
                    assert(obj_koid(self.kernel.objects@[i2]) != obj_koid(
                        self.kernel.objects@[i as int],
                    ));
                }
            }
        }
        let (contiguous_vmo, vmo_size, commit_ok): (bool, usize, ZxResult) =
            match &self.kernel.objects[i] {
            KernelObject::Vmo(v) => (
                v.is_contiguous(),
                v.len(&self.kernel.pmem),
                v.commit_check(&self.kernel.pmem, offset, size),
            ),
            _ => (false, 0, Ok(())),
        };
        let perms: IommuPerms = match pin_check(vmo_handle.rights, options, contiguous_vmo) {
            Ok(perms) => perms,
            Err(e) => {
                return Err(e);
            },
        };
        if size == 0 || offset > vmo_size || size > vmo_size - offset {
            return Err(ZxError::INVALID_ARGS);
        }
        if !contiguous_vmo {
            if let Err(e) = commit_ok {
                return Err(e);
            }
        }
        let contiguous: bool = BtiOptions::from_bits_truncate(options).contains(
            BtiOptions::CONTIGUOUS,
        );
        let pages: usize = size / PAGE_SIZE;
        let wanted: usize = if contiguous {
            1
        } else {
            pages
        };
        if addrs_count != wanted {
            return Err(ZxError::INVALID_ARGS);
        }
        if self.kernel.koids.peek() == u64::MAX || self.kernel.processes[p].handles.is_full() {
            return Err(ZxError::NO_MEMORY);
        }
        // From here on nothing fails.
        if !contiguous_vmo {
            let committed = self.kernel.vmo_commit(vmo_handle.object, offset, size);
            proof {
                assert(is_obj(old(self).kernel.objects@, i as int, vmo_handle.object, ObjectType::Vmo));
                assert(committed is Ok);
            }
        }
        let ghost mid = self.kernel;
        proof {
            assert(is_obj(mid.objects@, i as int, vmo_handle.object, ObjectType::Vmo));
            assert(is_obj(mid.objects@, b as int, bti_handle.object, ObjectType::Bti));
            assert(crate::kernel::object_ok(mid.objects@[i as int], &mid.pmem));
            assert forall|k: int|
                offset as int / 4096 <= k < (offset + size) / 4096 implies mid.vmo_at(
                i as int,
            ).is_backed(k) by {}
        }
        let mut mapped: Vec<DevVAddr> = Vec::new();
        let first: usize = offset / PAGE_SIZE;
        let mut k: usize = 0;
        while k < pages
            invariant
                k <= pages,
                pages == size / 4096,
                first == offset / 4096,
                i < self.kernel.objects@.len(),
                self.kernel == mid,
                mid.wf(),
                mid.objects@[i as int] is Vmo,
                (offset + size) / 4096 == first + pages,
                forall|j: int| first <= j < first + pages ==> mid.vmo_at(i as int).is_backed(j),
                mapped@ == Seq::new(
                    k as nat,
                    |j: int| mid.vmo_at(i as int).backing(first + j) as usize,
                ),
            decreases pages - k,
        {
            proof {
                assert(crate::kernel::object_ok(mid.objects@[i as int], &mid.pmem));
                assert(mid.vmo_at(i as int).is_backed(first + k));
            }
            let addr: usize = match &self.kernel.objects[i] {
                KernelObject::Vmo(v) => v.page_addr(&self.kernel.pmem, first + k).unwrap(),
                _ => 0,
            };
            mapped.push(addr);
            proof {
                assert(mapped@ =~= Seq::new(
                    (k + 1) as nat,
                    |j: int| mid.vmo_at(i as int).backing(first + j) as usize,
                ));
            }
            k += 1;
        }
        proof {
            assert(mapped@ =~= pinned_addrs(mid.vmo_at(i as int), offset as int, size as int));
        }
        let token: KoID = self.kernel.koids.allocate().unwrap();
        let pmt = PinnedMemoryToken {
            base: KObjectBase::new(token),
            bti: bti_handle.object,
            vmo: vmo_handle.object,
            offset,
            size,
            perms,
            mapped_addrs: mapped,
        };
        let compress: bool = BtiOptions::from_bits_truncate(options).contains(
            BtiOptions::COMPRESS,
        );
        let addrs: Vec<DevVAddr> = match pmt.encode_addrs(compress, contiguous, addrs_count) {
            Ok(a) => a,
            Err(_) => Vec::new(),
        };
        self.kernel.insert_object(KernelObject::Pmt(pmt));
        self.kernel.bti_add_pmt(b, token);
        let ghost linked = self.kernel;
        let added = self.kernel.add_handle(p, token, Rights::from_bits(Rights::INSPECT));
        proof {
            let n = old(self).kernel.objects@.len() as int;
            assert(is_obj(linked.objects@, n, token, ObjectType::Pmt));
            assert(obj_koid(linked.objects@[n]) == token);
            assert(added is Ok);
            assert(linked.objects@[i as int] == mid.objects@[i as int]);
            assert forall|j: int| 0 <= j < n implies obj_koid(
                #[trigger] self.kernel.objects@[j],
            ) == obj_koid(old(self).kernel.objects@[j]) && obj_kind(self.kernel.objects@[j])
                == obj_kind(old(self).kernel.objects@[j]) by {
                assert(obj_koid(mid.objects@[j]) == obj_koid(old(self).kernel.objects@[j]));
                if j != b {
                    assert(linked.objects@[j] == mid.objects@[j]);
                }
            }
            assert forall|j: int|
                0 <= j < n && (old(self).kernel.objects@[j] matches KernelObject::Vmo(
                    w,
                )) implies (#[trigger] self.kernel.objects@[j] matches KernelObject::Vmo(w2)
                && w2.content(&self.kernel.pmem) == old(self).kernel.objects@[j]->Vmo_0.content(
                &old(self).kernel.pmem,
            )) by {
                assert(linked.objects@[j] == mid.objects@[j]);
                if !contiguous_vmo && j != i {
                    assert(obj_koid(old(self).kernel.objects@[j]) != vmo_handle.object);
                    assert(mid.objects@[j] == old(self).kernel.objects@[j]);
                }
            }
        }
        match added {
            Ok(value) => Ok((addrs, value)),
            Err(e) => Err(e),
        }
    }
}

} // verus!
