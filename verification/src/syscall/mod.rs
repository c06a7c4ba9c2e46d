//! System calls: what a thread can ask of the kernel.
use vstd::prelude::*;
use crate::error::{ZxError, ZxResult};
use crate::kernel::{is_obj, Kernel};
use crate::object::handle::{Handle, HandleValue, ObjectType};
use crate::object::rights::Rights;
use crate::vm::vmo::paged::written;

pub mod ddk;
pub mod trampoline;

verus! {

/// The context of a system call: the kernel and the calling process.
pub struct Syscall {
    /// The kernel.
    pub kernel: Kernel,
    /// Position of the calling process among the processes.
    pub proc: usize,
}

impl Syscall {
    /// The kernel is sound and the calling process exists.
    pub open spec fn wf(&self) -> bool {
        self.kernel.wf() && self.proc < self.kernel.processes@.len()
    }

    /// The handle `handle` of the calling process, if it refers to a memory
    /// object and carries the rights of the mask `rights`; else why not.
    pub open spec fn vmo_handle(&self, handle: HandleValue, rights: u32) -> ZxResult<Handle> {
        self.kernel.processes@[self.proc as int].handles.lookup(
            handle,
            Some(ObjectType::Vmo),
            rights,
        )
    }

    /// Stores `buf` at `offset` of the memory object of the handle
    /// `handle`.
    ///
    /// Fails with `BAD_HANDLE`, `WRONG_TYPE` or `ACCESS_DENIED` unless
    /// `handle` is a handle of the calling process to a memory object with
    /// the right `WRITE`, and otherwise as the store into the memory object
    /// does. A failed call changes nothing.
    pub fn sys_vmo_write(&mut self, handle: HandleValue, offset: usize, buf: &[u8]) -> (r: ZxResult)
        requires
            old(self).wf(),
        ensures
            final(self).wf(),
            final(self).proc == old(self).proc,
            old(self).kernel.same_tasks(&final(self).kernel),
            r is Err ==> old(self).kernel.unchanged(&final(self).kernel),
            old(self).vmo_handle(handle, Rights::WRITE) matches Err(e) ==> r == Err::<(), ZxError>(e),
            forall|i: int|
                old(self).vmo_handle(handle, Rights::WRITE) is Ok && #[trigger] is_obj(
                    old(self).kernel.objects@,
                    i,
                    old(self).vmo_handle(handle, Rights::WRITE)->Ok_0.object,
                    ObjectType::Vmo,
                ) ==> {
                    &&& r == old(self).kernel.vmo_at(i).access_result(
                        &old(self).kernel.pmem,
                        offset as int,
                        buf@.len() as int,
                    )
                    &&& r is Ok ==> final(self).kernel.vmo_at(i).content(&final(self).kernel.pmem)
                        == written(
                        old(self).kernel.vmo_at(i).content(&old(self).kernel.pmem),
                        offset as int,
                        buf@,
                    )
                },
    {
        let found = self.kernel.get_handle(self.proc, handle, ObjectType::Vmo, Rights::WRITE);
        match found {
            Ok(h) => self.kernel.vmo_write(h.object, offset, buf),
            Err(e) => Err(e),
        }
    }

    /// Reads `len` bytes at `offset` of the memory object of the handle
    /// `handle`.
    ///
    /// Fails with `BAD_HANDLE`, `WRONG_TYPE` or `ACCESS_DENIED` unless
    /// `handle` is a handle of the calling process to a memory object with
    /// the right `READ`, and otherwise as the read from the memory object
    /// does. A failed call changes nothing.
    pub fn sys_vmo_read(&mut self, handle: HandleValue, offset: usize, len: usize) -> (r: ZxResult<
        Vec<u8>,
    >)
        requires
            old(self).wf(),
        ensures
            final(self).wf(),
            final(self).proc == old(self).proc,
            old(self).kernel.same_tasks(&final(self).kernel),
            r is Err ==> old(self).kernel.unchanged(&final(self).kernel),
            old(self).vmo_handle(handle, Rights::READ) matches Err(e) ==> (r matches Err(e2) && e2 == e),
            forall|i: int|
                old(self).vmo_handle(handle, Rights::READ) is Ok && #[trigger] is_obj(
                    old(self).kernel.objects@,
                    i,
                    old(self).vmo_handle(handle, Rights::READ)->Ok_0.object,
                    ObjectType::Vmo,
                ) ==> {
                    &&& r is Ok <==> old(self).kernel.vmo_at(i).access_result(
                        &old(self).kernel.pmem,
                        offset as int,
                        len as int,
                    ) is Ok
                    &&& r matches Err(e) ==> old(self).kernel.vmo_at(i).access_result(
                        &old(self).kernel.pmem,
                        offset as int,
                        len as int,
                    ) == Err::<(), ZxError>(e)
                    &&& r matches Ok(buf) ==> buf@ == old(self).kernel.vmo_at(i).content(
                        &old(self).kernel.pmem,
                    ).subrange(offset as int, offset + len)
                },
    {
        let found = self.kernel.get_handle(self.proc, handle, ObjectType::Vmo, Rights::READ);
        match found {
            Ok(h) => self.kernel.vmo_read(h.object, offset, len),
            Err(e) => Err(e),
        }
    }

    /// The context of a call by process `proc`.
    pub fn new(kernel: Kernel, proc: usize) -> (s: Syscall)
        ensures
            s.kernel == kernel,
            s.proc == proc,
    {
        Syscall { kernel, proc }
    }
}

} // verus!
