//! The kernel's state as a whole: the objects that exist, the memory they
//! live in, and the processes that refer to them.
use vstd::prelude::*;
use crate::dev::{Bti, Iommu, PinnedMemoryToken, Resource};
use crate::error::{ZxError, ZxResult};
use crate::object::handle::{Handle, HandleEntry, HandleValue, ObjectType};
use crate::object::rights::Rights;
use crate::object::{KoID, KoidAllocator};
use crate::task::{Job, Process, Status, ThreadState};
use crate::vm::pmem::PhysMemory;
use crate::vm::vmo::paged::written;
use crate::vm::vmar::VmMapping;
use crate::vm::vmo::{without_first, VmObject};
use crate::vm::{MMUFlags, PhysAddr, VirtAddr};

verus! {

/// A kernel object that handles can refer to.
pub enum KernelObject {
    /// A virtual memory object.
    Vmo(VmObject),
    /// A resource.
    Resource(Resource),
    /// An input/output memory management unit.
    Iommu(Iommu),
    /// A bus transaction initiator.
    Bti(Bti),
    /// A pinned memory token.
    Pmt(PinnedMemoryToken),
}

/// The identifier of `o`.
pub open spec fn obj_koid(o: KernelObject) -> KoID {
    match o {
        KernelObject::Vmo(v) => v.koid(),
        KernelObject::Resource(r) => r.base.koid(),
        KernelObject::Iommu(i) => i.base.koid(),
        KernelObject::Bti(b) => b.base.koid(),
        KernelObject::Pmt(t) => t.base.koid(),
    }
}

/// The class of `o`.
pub open spec fn obj_kind(o: KernelObject) -> ObjectType {
    match o {
        KernelObject::Vmo(_) => ObjectType::Vmo,
        KernelObject::Resource(_) => ObjectType::Resource,
        KernelObject::Iommu(_) => ObjectType::Iommu,
        KernelObject::Bti(_) => ObjectType::Bti,
        KernelObject::Pmt(_) => ObjectType::Pmt,
    }
}

/// Whether `objs[j]` is the object `koid` and of class `kind`.
pub open spec fn is_obj(objs: Seq<KernelObject>, j: int, koid: KoID, kind: ObjectType) -> bool {
    0 <= j < objs.len() && obj_koid(objs[j]) == koid && obj_kind(objs[j]) == kind
}

/// Whether `objs` holds the object `koid`, of class `kind`.
pub open spec fn has_object(objs: Seq<KernelObject>, koid: KoID, kind: ObjectType) -> bool {
    exists|j: int| #[trigger] is_obj(objs, j, koid, kind)
}

/// Whether `o` is sound on its own, given the memory `pmem`.
pub open spec fn object_ok(o: KernelObject, pmem: &PhysMemory) -> bool {
    match o {
        KernelObject::Vmo(v) => v.wf(pmem),
        _ => obj_koid(o) != 0,
    }
}

/// Whether the objects that `o` refers to are among `objs`.
pub open spec fn refs_ok(objs: Seq<KernelObject>, o: KernelObject) -> bool {
    match o {
        KernelObject::Bti(b) => has_object(objs, b.iommu, ObjectType::Iommu),
        KernelObject::Pmt(t) => has_object(objs, t.vmo, ObjectType::Vmo) && has_object(
            objs,
            t.bti,
            ObjectType::Bti,
        ),
        _ => true,
    }
}

/// Whether every handle in `entries` refers to an object among `objs`, of
/// the class that the handle says.
pub open spec fn handles_ok(objs: Seq<KernelObject>, entries: Seq<HandleEntry>) -> bool {
    forall|i: int|
        0 <= i < entries.len() ==> has_object(
            objs,
            (#[trigger] entries[i]).handle.object,
            entries[i].handle.kind,
        )
}

/// Whether every mapping of `p` shows a memory object among `objs`.
pub open spec fn maps_ok(objs: Seq<KernelObject>, p: Process) -> bool {
    forall|k: int|
        0 <= k < p.vmar.maps().len() ==> has_object(
            objs,
            (#[trigger] p.vmar.maps()[k]).vmo,
            ObjectType::Vmo,
        )
}

/// Whether `p` is sound and refers only to objects among `objs`.
pub open spec fn process_ok(objs: Seq<KernelObject>, p: Process) -> bool {
    &&& p.wf()
    &&& handles_ok(objs, p.handles.entries())
    &&& maps_ok(objs, p)
}

/// Whether every one of `objs` is sound, known by an identifier below
/// `next` that no other has, and refers only to objects among `objs`.
pub open spec fn objects_ok(objs: Seq<KernelObject>, pmem: &PhysMemory, next: u64) -> bool {
    &&& forall|j: int|
        0 <= j < objs.len() ==> object_ok(#[trigger] objs[j], pmem) && obj_koid(objs[j]) < next
            && refs_ok(objs, objs[j])
    &&& forall|i: int, j: int|
        0 <= i < objs.len() && 0 <= j < objs.len() && i != j ==> obj_koid(#[trigger] objs[i])
            != obj_koid(#[trigger] objs[j])
}

/// Number of handles in `entries` that refer to the object `koid`.
pub open spec fn count_handles(entries: Seq<HandleEntry>, koid: KoID) -> nat
    decreases entries.len(),
{
    if entries.len() == 0 {
        0
    } else {
        count_handles(entries.drop_last(), koid) + if entries.last().handle.object == koid {
            1nat
        } else {
            0nat
        }
    }
}

/// Number of handles in the processes `procs` that refer to the object
/// `koid`.
pub open spec fn count_refs(procs: Seq<Process>, koid: KoID) -> nat
    decreases procs.len(),
{
    if procs.len() == 0 {
        0
    } else {
        count_refs(procs.drop_last(), koid) + count_handles(procs.last().handles.entries(), koid)
    }
}

/// A handle in `entries` counts.
pub proof fn lemma_count_handles_pos(entries: Seq<HandleEntry>, i: int)
    requires
        0 <= i < entries.len(),
    ensures
        count_handles(entries, entries[i].handle.object) >= 1,
    decreases entries.len(),
{
    if i < entries.len() - 1 {
        lemma_count_handles_pos(entries.drop_last(), i);
    }
}

/// A handle of one of the processes counts.
pub proof fn lemma_count_refs_pos(procs: Seq<Process>, p: int, i: int)
    requires
        0 <= p < procs.len(),
        0 <= i < procs[p].handles.entries().len(),
    ensures
        count_refs(procs, procs[p].handles.entries()[i].handle.object) >= 1,
    decreases procs.len(),
{
    if p < procs.len() - 1 {
        lemma_count_refs_pos(procs.drop_last(), p, i);
    } else {
        lemma_count_handles_pos(procs[p].handles.entries(), i);
    }
}

/// What was among `objs` is among `objs` with one more object.
pub proof fn lemma_has_after_push(objs: Seq<KernelObject>, o: KernelObject)
    ensures
        forall|koid: KoID, kind: ObjectType| #[trigger]
            has_object(objs, koid, kind) ==> has_object(objs.push(o), koid, kind),
        has_object(objs.push(o), obj_koid(o), obj_kind(o)),
{
    assert forall|koid: KoID, kind: ObjectType| #[trigger]
        has_object(objs, koid, kind) implies has_object(objs.push(o), koid, kind) by {
        let j = choose|j: int| #[trigger] is_obj(objs, j, koid, kind);
        assert(is_obj(objs.push(o), j, koid, kind));
    }
    assert(is_obj(objs.push(o), objs.len() as int, obj_koid(o), obj_kind(o)));
}

/// What was among `objs` is among `objs` with one object replaced by one of
/// the same identifier and class.
pub proof fn lemma_has_after_update(objs: Seq<KernelObject>, i: int, o: KernelObject)
    requires
        0 <= i < objs.len(),
        obj_koid(o) == obj_koid(objs[i]),
        obj_kind(o) == obj_kind(objs[i]),
    ensures
        forall|koid: KoID, kind: ObjectType| #[trigger]
            has_object(objs, koid, kind) ==> has_object(objs.update(i, o), koid, kind),
{
    assert forall|koid: KoID, kind: ObjectType| #[trigger]
        has_object(objs, koid, kind) implies has_object(objs.update(i, o), koid, kind) by {
        let j = choose|j: int| #[trigger] is_obj(objs, j, koid, kind);
        assert(is_obj(objs.update(i, o), j, koid, kind));
    }
}

/// The objects stay sound when one memory object works on its own storage.
pub proof fn lemma_objects_after_vmo_op(
    objs: Seq<KernelObject>,
    i: int,
    o: KernelObject,
    before: &PhysMemory,
    after: &PhysMemory,
    next: u64,
)
    requires
        objects_ok(objs, before, next),
        0 <= i < objs.len(),
        objs[i] is Vmo,
        o is Vmo,
        obj_koid(o) == obj_koid(objs[i]),
        object_ok(o, after),
        after.wf(),
        before.changed_only_for(after, obj_koid(o)),
    ensures
        objects_ok(objs.update(i, o), after, next),
{
    let now = objs.update(i, o);
    lemma_has_after_update(objs, i, o);
    assert forall|j: int| 0 <= j < now.len() implies object_ok(#[trigger] now[j], after)
        && obj_koid(now[j]) < next && refs_ok(now, now[j]) by {
        if j != i {
            assert(now[j] == objs[j]);
            assert(obj_koid(objs[j]) != obj_koid(objs[i]));
            assert(refs_ok(objs, objs[j]));
            if let KernelObject::Vmo(w) = objs[j] {
                w.lemma_untouched_by(before, after, obj_koid(o));
            }
        }
    }
    assert forall|a: int, b: int|
        0 <= a < now.len() && 0 <= b < now.len() && a != b implies obj_koid(#[trigger] now[a])
        != obj_koid(#[trigger] now[b]) by {
        assert(obj_koid(now[a]) == obj_koid(objs[a]));
        assert(obj_koid(now[b]) == obj_koid(objs[b]));
    }
}

/// The objects stay sound when one memory object changes while memory
/// changes only in frames held under an identifier that no object has.
pub proof fn lemma_objects_after_child(
    objs: Seq<KernelObject>,
    i: int,
    o: KernelObject,
    before: &PhysMemory,
    after: &PhysMemory,
    next: u64,
    fresh: KoID,
)
    requires
        objects_ok(objs, before, next),
        0 <= i < objs.len(),
        objs[i] is Vmo,
        o is Vmo,
        obj_koid(o) == obj_koid(objs[i]),
        object_ok(o, after),
        after.wf(),
        before.changed_only_for(after, fresh),
        fresh >= next,
    ensures
        objects_ok(objs.update(i, o), after, next),
{
    let now = objs.update(i, o);
    lemma_has_after_update(objs, i, o);
    assert forall|j: int| 0 <= j < now.len() implies object_ok(#[trigger] now[j], after)
        && obj_koid(now[j]) < next && refs_ok(now, now[j]) by {
        if j != i {
            assert(now[j] == objs[j]);
            assert(refs_ok(objs, objs[j]));
            if let KernelObject::Vmo(w) = objs[j] {
                w.lemma_untouched_by(before, after, fresh);
            }
        }
    }
    assert forall|a: int, b: int|
        0 <= a < now.len() && 0 <= b < now.len() && a != b implies obj_koid(#[trigger] now[a])
        != obj_koid(#[trigger] now[b]) by {
        assert(obj_koid(now[a]) == obj_koid(objs[a]));
        assert(obj_koid(now[b]) == obj_koid(objs[b]));
    }
}

/// Whether `o` holds a reference to the object `koid`.
pub open spec fn refers_to(o: KernelObject, koid: KoID) -> bool {
    match o {
        KernelObject::Bti(b) => b.iommu == koid,
        KernelObject::Pmt(t) => t.vmo == koid || t.bti == koid,
        _ => false,
    }
}

/// Whether a handle of `p` refers to the object `koid`, or a mapping of `p`
/// shows it.
pub open spec fn process_refers(p: Process, koid: KoID) -> bool {
    ||| exists|i: int|
        0 <= i < p.handles.entries().len() && (#[trigger] p.handles.entries()[i]).handle.object
            == koid
    ||| exists|k: int| 0 <= k < p.vmar.maps().len() && (#[trigger] p.vmar.maps()[k]).vmo == koid
}

/// Whether a mapping of `p` shows the memory object `koid`.
pub open spec fn process_shows(p: Process, koid: KoID) -> bool {
    exists|k: int| 0 <= k < p.vmar.maps().len() && (#[trigger] p.vmar.maps()[k]).vmo == koid
}

/// What was among `objs` is among `objs` without object `i`, unless it is
/// that object.
pub proof fn lemma_has_after_remove(objs: Seq<KernelObject>, i: int)
    requires
        0 <= i < objs.len(),
    ensures
        forall|koid: KoID, kind: ObjectType|
            koid != obj_koid(objs[i]) && #[trigger] has_object(objs, koid, kind) ==> has_object(
                objs.remove(i),
                koid,
                kind,
            ),
{
    assert forall|koid: KoID, kind: ObjectType|
        koid != obj_koid(objs[i]) && #[trigger] has_object(objs, koid, kind) implies has_object(
        objs.remove(i),
        koid,
        kind,
    ) by {
        let j = choose|j: int| #[trigger] is_obj(objs, j, koid, kind);
        let j1 = if j < i {
            j
        } else {
            j - 1
        };
        assert(objs.remove(i)[j1] == objs[j]);
        assert(is_obj(objs.remove(i), j1, koid, kind));
    }
}

/// `records` of the memory object `koid` after the first `n` mappings of
/// `gone` are forgotten: for each of them that shows the object, in order,
/// the first record of its first address is taken out.
pub open spec fn forgotten(records: Seq<u64>, gone: Seq<VmMapping>, koid: KoID, n: int) -> Seq<u64>
    decreases n,
{
    if n <= 0 {
        records
    } else if gone[n - 1].vmo == koid {
        without_first(forgotten(records, gone, koid, n - 1), gone[n - 1].addr as u64)
    } else {
        forgotten(records, gone, koid, n - 1)
    }
}

/// One entry for the page table of a process: the page at `vaddr` shows
/// the memory at `paddr` and permits `flags`.
#[derive(Clone, Copy, Debug, PartialEq, Eq, Structural)]
pub struct PageEntry {
    /// Address of the page.
    pub vaddr: VirtAddr,
    /// Address of the memory behind it.
    pub paddr: PhysAddr,
    /// What the entry permits.
    pub flags: MMUFlags,
}

/// The entries for the first `n` pages of the mapping `m`, which shows the
/// memory object `vmo`: one for each page that has memory behind it, in
/// the order of the pages.
pub open spec fn entries_of(m: VmMapping, vmo: VmObject, n: int) -> Seq<PageEntry>
    decreases n,
{
    if n <= 0 {
        Seq::empty()
    } else if vmo.is_backed(m.vmo_offset as int / 4096 + n - 1) {
        entries_of(m, vmo, n - 1).push(
            PageEntry {
                vaddr: (m.addr + (n - 1) * 4096) as usize,
                paddr: vmo.backing(m.vmo_offset as int / 4096 + n - 1) as usize,
                flags: m.flags,
            },
        )
    } else {
        entries_of(m, vmo, n - 1)
    }
}

/// The state of the kernel.
pub struct Kernel {
    /// Where identifiers come from.
    pub koids: KoidAllocator,
    /// Physical memory.
    pub pmem: PhysMemory,
    /// The objects that handles and mappings refer to.
    pub objects: Vec<KernelObject>,
    /// The root of the tree of tasks.
    pub root_job: Job,
    /// The processes, all of them in the root job.
    pub processes: Vec<Process>,
    /// First address of the range that a new process gets as address space.
    pub user_base: usize,
    /// Length of that range.
    pub user_size: usize,
}

impl Kernel {
    /// Every part is sound; every object is known by its own identifier,
    /// which the allocator has emitted; every handle and every mapping
    /// refers to an object that exists.
    pub open spec fn wf(&self) -> bool {
        &&& self.koids.wf()
        &&& self.pmem.wf()
        &&& self.user_base % 4096 == 0
        &&& self.user_size % 4096 == 0
        &&& self.user_base + self.user_size <= usize::MAX
        &&& objects_ok(self.objects@, &self.pmem, self.koids.next_koid())
        &&& forall|p: int|
            0 <= p < self.processes@.len() ==> process_ok(self.objects@, #[trigger] self.processes@[p])
    }

    /// Number of handles, over all processes, that refer to the object
    /// `koid`.
    pub open spec fn refcount(&self, koid: KoID) -> nat {
        count_refs(self.processes@, koid)
    }

    /// The object behind a handle exists, and the handle counts as a
    /// reference to it.
    pub proof fn lemma_handle_refers(&self, p: int, value: HandleValue)
        requires
            self.wf(),
            0 <= p < self.processes@.len(),
            self.processes@[p].handles@.dom().contains(value),
        ensures
            self.refcount(self.processes@[p].handles@[value].object) >= 1,
            has_object(
                self.objects@,
                self.processes@[p].handles@[value].object,
                self.processes@[p].handles@[value].kind,
            ),
    {
        let proc = self.processes@[p];
        assert(process_ok(self.objects@, proc));
        let entries = proc.handles.entries();
        crate::object::handle::lemma_entries_map(entries);
        let i = choose|i: int| 0 <= i < entries.len() && (#[trigger] entries[i]).value == value;
        assert(entries[i].handle == proc.handles@[value]);
        lemma_count_refs_pos(self.processes@, p, i);
    }

    /// A kernel with `frames` frames of free memory, a root job, and no
    /// process and no object yet. New processes get the `user_size` bytes at
    /// `user_base` as their address space.
    pub fn new(frames: usize, user_base: usize, user_size: usize) -> (k: Kernel)
        requires
            frames * 4096 <= usize::MAX,
            user_base % 4096 == 0,
            user_size % 4096 == 0,
            user_base + user_size <= usize::MAX,
        ensures
            k.wf(),
            k.pmem.frames() == frames,
            k.pmem.free_frames() == frames,
            k.objects@.len() == 0,
            k.processes@.len() == 0,
            k.root_job.base.koid() == 1,
            k.koids.next_koid() == 2,
            k.user_base == user_base,
            k.user_size == user_size,
    {
        let mut koids = KoidAllocator::new();
        let root: KoID = koids.allocate().unwrap();
        Kernel {
            koids,
            pmem: PhysMemory::new(frames),
            objects: Vec::new(),
            root_job: Job::root(root),
            processes: Vec::new(),
            user_base,
            user_size,
        }
    }

    /// Position among the objects of the one known as `koid`, if it exists.
    pub fn find_object(&self, koid: KoID) -> (r: Option<usize>)
        requires
            self.wf(),
        ensures
            r is None <==> forall|j: int|
                0 <= j < self.objects@.len() ==> obj_koid(#[trigger] self.objects@[j]) != koid,
            r matches Some(i) ==> i < self.objects@.len() && obj_koid(self.objects@[i as int])
                == koid,
    {
        let mut i: usize = 0;
        while i < self.objects.len()
            invariant
                i <= self.objects.len(),
                forall|j: int| 0 <= j < i ==> obj_koid(#[trigger] self.objects@[j]) != koid,
            decreases self.objects.len() - i,
        {
            let k: KoID = match &self.objects[i] {
                KernelObject::Vmo(v) => v.id(),
                KernelObject::Resource(r) => r.base.id(),
                KernelObject::Iommu(o) => o.base.id(),
                KernelObject::Bti(b) => b.base.id(),
                KernelObject::Pmt(t) => t.base.id(),
            };
            if k == koid {
                return Some(i);
            }
            i += 1;
        }
        None
    }

    /// The class of object `i`.
    pub fn kind_of(&self, i: usize) -> (kind: ObjectType)
        requires
            i < self.objects@.len(),
        ensures
            kind == obj_kind(self.objects@[i as int]),
    {
        match &self.objects[i] {
            KernelObject::Vmo(_) => ObjectType::Vmo,
            KernelObject::Resource(_) => ObjectType::Resource,
            KernelObject::Iommu(_) => ObjectType::Iommu,
            KernelObject::Bti(_) => ObjectType::Bti,
            KernelObject::Pmt(_) => ObjectType::Pmt,
        }
    }

    /// Whether `after` is in the state of `self`.
    pub open spec fn unchanged(&self, after: &Kernel) -> bool {
        &&& after.koids == self.koids
        &&& after.pmem == self.pmem
        &&& after.objects@ == self.objects@
        &&& self.same_tasks(after)
    }

    /// Whether `after` is in the state of `self`, but that identifiers may
    /// have been used up and memory that no object holds may have changed.
    pub open spec fn unchanged_but_koids(&self, after: &Kernel) -> bool {
        &&& after.koids.next_koid() >= self.koids.next_koid()
        &&& after.objects@ == self.objects@
        &&& self.same_tasks(after)
        &&& forall|j: int|
            0 <= j < self.objects@.len() ==> (#[trigger] self.objects@[j] matches KernelObject::Vmo(
                w,
            ) ==> w.content(&after.pmem) == w.content(&self.pmem))
    }

    /// Whether `after` is `self` with nothing changed but the objects, the
    /// memory and the allocator.
    pub open spec fn same_tasks(&self, after: &Kernel) -> bool {
        &&& after.processes@ == self.processes@
        &&& after.root_job == self.root_job
        &&& after.user_base == self.user_base
        &&& after.user_size == self.user_size
    }

    /// Puts `o`, whose identifier no object has yet, among the objects.
    /// Returns its position.
    pub fn insert_object(&mut self, o: KernelObject) -> (i: usize)
        requires
            old(self).wf(),
            object_ok(o, &old(self).pmem),
            obj_koid(o) < old(self).koids.next_koid(),
            refs_ok(old(self).objects@, o),
            forall|j: int|
                0 <= j < old(self).objects@.len() ==> obj_koid(#[trigger] old(self).objects@[j])
                    != obj_koid(o),
        ensures
            final(self).wf(),
            i == old(self).objects@.len(),
            final(self).objects@ == old(self).objects@.push(o),
            final(self).koids == old(self).koids,
            final(self).pmem == old(self).pmem,
            old(self).same_tasks(final(self)),
    {
        let i: usize = self.objects.len();
        proof {
            lemma_has_after_push(self.objects@, o);
        }
        self.objects.push(o);
        proof {
            let objs = self.objects@;
            let before = old(self).objects@;
            assert forall|j: int| 0 <= j < objs.len() implies object_ok(
                #[trigger] objs[j],
                &self.pmem,
            ) && obj_koid(objs[j]) < self.koids.next_koid() && refs_ok(objs, objs[j]) by {
                if j < i {
                    assert(objs[j] == before[j]);
                    assert(refs_ok(before, before[j]));
                }
            }
            assert forall|p: int| 0 <= p < self.processes@.len() implies process_ok(
                objs,
                #[trigger] self.processes@[p],
            ) by {
                assert(process_ok(before, old(self).processes@[p]));
            }
        }
        i
    }

    /// Makes a paged memory object of `pages` pages and puts it among the
    /// objects. Returns its identifier.
    ///
    /// Fails with `INVALID_ARGS` when the length in bytes does not fit the
    /// machine word, with `NO_MEMORY` when the identifiers are used up. A
    /// failed call changes nothing.
    pub fn create_vmo(&mut self, pages: usize, resizable: bool) -> (r: ZxResult<KoID>)
        requires
            old(self).wf(),
        ensures
            final(self).wf(),
            old(self).same_tasks(final(self)),
            final(self).pmem == old(self).pmem,
            r == if pages * 4096 > usize::MAX {
                Err::<KoID, ZxError>(ZxError::INVALID_ARGS)
            } else if old(self).koids.next_koid() == u64::MAX {
                Err::<KoID, ZxError>(ZxError::NO_MEMORY)
            } else {
                Ok::<KoID, ZxError>(old(self).koids.next_koid())
            },
            r is Err ==> old(self).unchanged(final(self)),
            r matches Ok(koid) ==> {
                &&& final(self).koids.next_koid() == koid + 1
                &&& final(self).objects@.len() == old(self).objects@.len() + 1
                &&& final(self).objects@.subrange(0, old(self).objects@.len() as int) == old(self).objects@
                &&& final(self).objects@.last() matches KernelObject::Vmo(v) && {
                    &&& v.koid() == koid
                    &&& v.inner() is Paged
                    &&& v.size() == pages * 4096
                    &&& v.committed() == 0
                    &&& v.is_resizable() == resizable
                    &&& v.parent() == 0
                    &&& v.mappings_spec().len() == 0
                    &&& forall|o: int|
                        0 <= o < pages * 4096 ==> #[trigger] v.content(&final(self).pmem)[o] == 0
                    &&& forall|i: int| 0 <= i < pages ==> !#[trigger] v.is_backed(i)
                }
            },
    {
        if pages > usize::MAX / 4096 {
            return Err(ZxError::INVALID_ARGS);
        }
        let koid: KoID = match self.koids.allocate() {
            Some(k) => k,
            None => {
                return Err(ZxError::NO_MEMORY);
            },
        };
        let vmo = VmObject::new_paged_with_resizable(koid, resizable, pages);
        proof {
            assert(vmo.wf(&self.pmem));
        }
        self.insert_object(KernelObject::Vmo(vmo));
        proof {
            assert(self.objects@.subrange(0, old(self).objects@.len() as int) == old(self).objects@);
        }
        Ok(koid)
    }

    /// What [`Kernel::vmo_create_child`] comes to: the identifier of the
    /// child, or why there is none.
    pub open spec fn create_child_result(&self, parent: KoID, offset: int, len: int) -> ZxResult<
        KoID,
    > {
        let i = choose|i: int| #[trigger] is_obj(self.objects@, i, parent, ObjectType::Vmo);
        if !has_object(self.objects@, parent, ObjectType::Vmo) {
            Err(ZxError::BAD_HANDLE)
        } else if self.koids.next_koid() == u64::MAX {
            Err(ZxError::NO_MEMORY)
        } else {
            match self.vmo_at(i).inner() {
                crate::vm::vmo::VmoInner::Physical(_) => Err(ZxError::NOT_SUPPORTED),
                crate::vm::vmo::VmoInner::Paged(pg) => if !pg.page_range_ok(offset, len) {
                    Err(ZxError::INVALID_ARGS)
                } else if pg.committed_in(offset / 4096, (offset + len) / 4096)
                    > self.pmem.free_frames() {
                    Err(ZxError::NO_MEMORY)
                } else {
                    Ok(self.koids.next_koid())
                },
            }
        }
    }

    /// Makes a child of the memory object `parent`: a new memory object,
    /// known by the next identifier, that holds what the range of `len`
    /// bytes at `offset` of the parent holds at this moment; see
    /// [`VmObject::create_child`]. Returns the child's identifier.
    ///
    /// Fails with `BAD_HANDLE` when there is no such memory object, with
    /// `NO_MEMORY` when the identifiers are used up, and otherwise as
    /// [`VmObject::create_child`] does. A failed call changes nothing.
    pub fn vmo_create_child(&mut self, parent: KoID, resizable: bool, offset: usize, len: usize)
        -> (r: ZxResult<KoID>)
        requires
            old(self).wf(),
        ensures
            final(self).wf(),
            old(self).same_tasks(final(self)),
            r == old(self).create_child_result(parent, offset as int, len as int),
            r is Err ==> old(self).unchanged(final(self)),
            r matches Ok(koid) ==> {
                let n = old(self).objects@.len() as int;
                &&& koid == old(self).koids.next_koid()
                &&& final(self).koids.next_koid() == koid + 1
                &&& final(self).objects@.len() == n + 1
                &&& is_obj(final(self).objects@, n, koid, ObjectType::Vmo)
                &&& final(self).vmo_at(n).parent() == parent
                &&& final(self).vmo_at(n).is_resizable() == resizable
                &&& final(self).vmo_at(n).inner() is Paged
                &&& final(self).vmo_at(n).size() == len
                &&& final(self).vmo_at(n).mappings_spec().len() == 0
                &&& final(self).vmo_at(n).children_spec().len() == 0
                &&& forall|i: int| #[trigger]
                    is_obj(old(self).objects@, i, parent, ObjectType::Vmo) ==> {
                        &&& is_obj(final(self).objects@, i, parent, ObjectType::Vmo)
                        &&& final(self).vmo_at(n).content(&final(self).pmem) == old(self).vmo_at(
                            i,
                        ).content(&old(self).pmem).subrange(offset as int, offset + len)
                        &&& final(self).vmo_at(i).content(&final(self).pmem) == old(self).vmo_at(
                            i,
                        ).content(&old(self).pmem)
                        &&& final(self).vmo_at(i).children_spec() == old(self).vmo_at(
                            i,
                        ).children_spec().push(koid)
                    }
                &&& forall|j: int|
                    0 <= j < n && obj_koid(old(self).objects@[j]) != parent ==> #[trigger] final(self).objects@[j] == old(self).objects@[j] && (old(self).objects@[j] matches KernelObject::Vmo(w) ==> w.content(&final(self).pmem) == w.content(&old(self).pmem))
            },
    {
        let i: usize = match self.find_vmo(parent) {
            Some(i) => i,
            None => {
                return Err(ZxError::BAD_HANDLE);
            },
        };
        proof {
            assert forall|i2: int|
                is_obj(old(self).objects@, i2, parent, ObjectType::Vmo) implies i2 == i by {
                if i2 != i {
                    assert(obj_koid(old(self).objects@[i2]) != obj_koid(
                        old(self).objects@[i as int],
                    ));
                }
            }
        }
        let koid: KoID = self.koids.peek();
        if koid == u64::MAX {
            return Err(ZxError::NO_MEMORY);
        }
        let made = match &mut self.objects[i] {
            KernelObject::Vmo(v) => v.create_child(&mut self.pmem, koid, resizable, offset, len),
            _ => Err(ZxError::BAD_HANDLE),
        };
        let child: VmObject = match made {
            Ok(c) => c,
            Err(e) => {
                proof {
                    assert(self.objects@ =~= old(self).objects@);
                }
                return Err(e);
            },
        };
        let ghost mid = *self;
        proof {
            lemma_objects_after_child(
                old(self).objects@,
                i as int,
                self.objects@[i as int],
                &old(self).pmem,
                &self.pmem,
                self.koids.next_koid(),
                koid,
            );
            self.lemma_tasks_after_update(old(self), i as int);
            assert forall|j: int| 0 <= j < self.objects@.len() implies obj_koid(
                #[trigger] self.objects@[j],
            ) != koid by {
                assert(obj_koid(self.objects@[j]) == obj_koid(old(self).objects@[j]));
            }
        }
        let taken = self.koids.allocate();
        proof {
            assert(taken == Some(koid));
            assert(objects_ok(self.objects@, &self.pmem, self.koids.next_koid()));
        }
        self.insert_object(KernelObject::Vmo(child));
        proof {
            let n = old(self).objects@.len() as int;
            assert(self.objects@[n] == KernelObject::Vmo(child));
            assert forall|j: int|
                0 <= j < n && obj_koid(old(self).objects@[j]) != parent implies #[trigger] self.objects@[j]
                == old(self).objects@[j] && (old(self).objects@[j] matches KernelObject::Vmo(w)
                ==> w.content(&self.pmem) == w.content(&old(self).pmem)) by {
                assert(mid.objects@[j] == old(self).objects@[j]);
                if let KernelObject::Vmo(w) = old(self).objects@[j] {
                    w.lemma_untouched_by(&old(self).pmem, &self.pmem, koid);
                }
            }
        }
        Ok(koid)
    }

    /// The memory object at position `i`.
    pub open spec fn vmo_at(&self, i: int) -> VmObject {
        self.objects@[i]->Vmo_0
    }

    /// Position among the objects of the memory object known as `koid`, if
    /// it exists.
    pub fn find_vmo(&self, koid: KoID) -> (r: Option<usize>)
        requires
            self.wf(),
        ensures
            r is Some <==> has_object(self.objects@, koid, ObjectType::Vmo),
            r matches Some(i) ==> is_obj(self.objects@, i as int, koid, ObjectType::Vmo)
                && self.objects@[i as int] is Vmo,
    {
        match self.find_object(koid) {
            Some(i) => {
                match &self.objects[i] {
                    KernelObject::Vmo(_) => {
                        proof {
                            assert(is_obj(self.objects@, i as int, koid, ObjectType::Vmo));
                        }
                        Some(i)
                    },
                    _ => {
                        proof {
                            assert forall|j: int| !#[trigger] is_obj(
                                self.objects@,
                                j,
                                koid,
                                ObjectType::Vmo,
                            ) by {
                                if 0 <= j < self.objects@.len() && j != i {
                                    assert(obj_koid(self.objects@[j]) != obj_koid(
                                        self.objects@[i as int],
                                    ));
                                }
                            }
                        }
                        None
                    },
                }
            },
            None => None,
        }
    }

    /// Stores `buf` at `offset` of the memory object known as `koid`.
    ///
    /// Fails with `BAD_HANDLE` when there is no such memory object, and
    /// otherwise as [`VmObject::write`] does. A failed call changes nothing.
    pub fn vmo_write(&mut self, koid: KoID, offset: usize, buf: &[u8]) -> (r: ZxResult)
        requires
            old(self).wf(),
        ensures
            final(self).wf(),
            old(self).same_tasks(final(self)),
            final(self).koids == old(self).koids,
            final(self).objects@.len() == old(self).objects@.len(),
            r is Err ==> old(self).unchanged(final(self)),
            !has_object(old(self).objects@, koid, ObjectType::Vmo) ==> r == Err::<(), ZxError>(
                ZxError::BAD_HANDLE,
            ),
            forall|j: int|
                0 <= j < old(self).objects@.len() ==> obj_koid(#[trigger] final(self).objects@[j])
                    == obj_koid(old(self).objects@[j]) && obj_kind(final(self).objects@[j])
                    == obj_kind(old(self).objects@[j]),
            forall|i: int|
                is_obj(old(self).objects@, i, koid, ObjectType::Vmo) ==> {
                    &&& r == old(self).vmo_at(i).access_result(
                        &old(self).pmem,
                        offset as int,
                        buf@.len() as int,
                    )
                    &&& is_obj(final(self).objects@, i, koid, ObjectType::Vmo)
                    &&& old(self).vmo_at(i).same_object(&final(self).vmo_at(i))
                    &&& final(self).vmo_at(i).size() == old(self).vmo_at(i).size()
                    &&& r is Ok ==> final(self).vmo_at(i).content(&final(self).pmem) == written(
                        old(self).vmo_at(i).content(&old(self).pmem),
                        offset as int,
                        buf@,
                    )
                    &&& r is Ok ==> old(self).vmo_at(i).touched(
                        &final(self).vmo_at(i),
                        offset as int,
                        buf@.len() as int,
                    )
                    &&& r is Ok ==> final(self).pmem.free_frames() + old(self).vmo_at(i).fresh_pages(
                        offset as int,
                        buf@.len() as int,
                    ) == old(self).pmem.free_frames()
                    &&& forall|j: int|
                        0 <= j < old(self).objects@.len() && j != i ==> #[trigger] final(self).objects@[j] == old(self).objects@[j]
                },
            forall|j: int|
                0 <= j < old(self).objects@.len() && obj_koid(old(self).objects@[j]) != koid
                    ==> #[trigger] final(self).objects@[j] == old(self).objects@[j] && (old(self).objects@[j] matches KernelObject::Vmo(w) ==> w.content(&final(self).pmem)
                    == w.content(&old(self).pmem)),
    {
        let i: usize = match self.find_vmo(koid) {
            Some(i) => i,
            None => {
                return Err(ZxError::BAD_HANDLE);
            },
        };
        let r = match &mut self.objects[i] {
            KernelObject::Vmo(v) => v.write(&mut self.pmem, offset, buf),
            _ => Err(ZxError::BAD_HANDLE),
        };
        proof {
            if r is Err {
                assert(self.objects@ =~= old(self).objects@);
            }
            if r is Ok {
                lemma_objects_after_vmo_op(
                    old(self).objects@,
                    i as int,
                    self.objects@[i as int],
                    &old(self).pmem,
                    &self.pmem,
                    self.koids.next_koid(),
                );
                self.lemma_tasks_after_update(old(self), i as int);
            }
            assert forall|i2: int|
                is_obj(old(self).objects@, i2, koid, ObjectType::Vmo) implies i2 == i by {
                if i2 != i {
                    assert(obj_koid(old(self).objects@[i2]) != obj_koid(
                        old(self).objects@[i as int],
                    ));
                }
            }
            assert forall|j: int|
                0 <= j < old(self).objects@.len() && obj_koid(old(self).objects@[j])
                    != koid implies #[trigger] self.objects@[j] == old(self).objects@[j] && (old(self).objects@[j] matches KernelObject::Vmo(w) ==> w.content(&self.pmem) == w.content(
                &old(self).pmem,
            )) by {
                if let KernelObject::Vmo(w) = old(self).objects@[j] {
                    if r is Ok {
                        w.lemma_untouched_by(&old(self).pmem, &self.pmem, koid);
                    }
                }
            }
        }
        r
    }

    /// Reads `len` bytes at `offset` of the memory object known as `koid`.
    ///
    /// Fails with `BAD_HANDLE` when there is no such memory object, and
    /// otherwise as [`VmObject::read`] does. A failed call changes nothing.
    pub fn vmo_read(&mut self, koid: KoID, offset: usize, len: usize) -> (r: ZxResult<Vec<u8>>)
        requires
            old(self).wf(),
        ensures
            final(self).wf(),
            old(self).same_tasks(final(self)),
            final(self).koids == old(self).koids,
            final(self).objects@.len() == old(self).objects@.len(),
            r is Err ==> old(self).unchanged(final(self)),
            !has_object(old(self).objects@, koid, ObjectType::Vmo) ==> (r matches Err(e) && e
                == ZxError::BAD_HANDLE),
            forall|i: int|
                is_obj(old(self).objects@, i, koid, ObjectType::Vmo) ==> {
                    &&& r is Ok <==> old(self).vmo_at(i).access_result(
                        &old(self).pmem,
                        offset as int,
                        len as int,
                    ) is Ok
                    &&& r matches Err(e) ==> old(self).vmo_at(i).access_result(
                        &old(self).pmem,
                        offset as int,
                        len as int,
                    ) == Err::<(), ZxError>(e)
                    &&& r matches Ok(buf) ==> buf@ == old(self).vmo_at(i).content(
                        &old(self).pmem,
                    ).subrange(offset as int, offset + len)
                    &&& is_obj(final(self).objects@, i, koid, ObjectType::Vmo)
                    &&& old(self).vmo_at(i).same_object(&final(self).vmo_at(i))
                    &&& final(self).vmo_at(i).content(&final(self).pmem) == old(self).vmo_at(
                        i,
                    ).content(&old(self).pmem)
                },
            forall|j: int|
                0 <= j < old(self).objects@.len() && obj_koid(old(self).objects@[j]) != koid
                    ==> #[trigger] final(self).objects@[j] == old(self).objects@[j] && (old(self).objects@[j] matches KernelObject::Vmo(w) ==> w.content(&final(self).pmem)
                    == w.content(&old(self).pmem)),
    {
        let i: usize = match self.find_vmo(koid) {
            Some(i) => i,
            None => {
                return Err(ZxError::BAD_HANDLE);
            },
        };
        let r = match &mut self.objects[i] {
            KernelObject::Vmo(v) => v.read(&mut self.pmem, offset, len),
            _ => Err(ZxError::BAD_HANDLE),
        };
        proof {
            if r is Err {
                assert(self.objects@ =~= old(self).objects@);
            }
            if r is Ok {
                lemma_objects_after_vmo_op(
                    old(self).objects@,
                    i as int,
                    self.objects@[i as int],
                    &old(self).pmem,
                    &self.pmem,
                    self.koids.next_koid(),
                );
                self.lemma_tasks_after_update(old(self), i as int);
            }
            assert forall|i2: int|
                is_obj(old(self).objects@, i2, koid, ObjectType::Vmo) implies i2 == i by {
                if i2 != i {
                    assert(obj_koid(old(self).objects@[i2]) != obj_koid(
                        old(self).objects@[i as int],
                    ));
                }
            }
            assert forall|j: int|
                0 <= j < old(self).objects@.len() && obj_koid(old(self).objects@[j])
                    != koid implies #[trigger] self.objects@[j] == old(self).objects@[j] && (old(self).objects@[j] matches KernelObject::Vmo(w) ==> w.content(&self.pmem) == w.content(
                &old(self).pmem,
            )) by {
                if let KernelObject::Vmo(w) = old(self).objects@[j] {
                    if r is Ok {
                        w.lemma_untouched_by(&old(self).pmem, &self.pmem, koid);
                    }
                }
            }
        }
        r
    }

    /// The processes stay sound when one object is replaced by one of the
    /// same identifier and class.
    pub proof fn lemma_tasks_after_update(&self, before: &Kernel, i: int)
        requires
            before.wf(),
            0 <= i < before.objects@.len(),
            self.objects@ == before.objects@.update(i, self.objects@[i]),
            obj_koid(self.objects@[i]) == obj_koid(before.objects@[i]),
            obj_kind(self.objects@[i]) == obj_kind(before.objects@[i]),
            self.processes@ == before.processes@,
        ensures
            forall|p: int|
                0 <= p < self.processes@.len() ==> process_ok(
                    self.objects@,
                    #[trigger] self.processes@[p],
                ),
    {
        lemma_has_after_update(before.objects@, i, self.objects@[i]);
        assert forall|p: int| 0 <= p < self.processes@.len() implies process_ok(
            self.objects@,
            #[trigger] self.processes@[p],
        ) by {
            assert(process_ok(before.objects@, before.processes@[p]));
        }
    }

    /// Whether `after` is `self` with nothing changed but process `p`.
    pub open spec fn only_process_changed(&self, after: &Kernel, p: int) -> bool {
        &&& after.koids == self.koids
        &&& after.pmem == self.pmem
        &&& after.objects@ == self.objects@
        &&& after.root_job == self.root_job
        &&& after.user_base == self.user_base
        &&& after.user_size == self.user_size
        &&& after.processes@.len() == self.processes@.len()
        &&& forall|q: int|
            0 <= q < self.processes@.len() && q != p ==> #[trigger] after.processes@[q]
                == self.processes@[q]
    }

    /// Makes a process named `name` in the root job, with the whole user
    /// range as its address space, no handle and no thread. Returns its
    /// position among the processes.
    ///
    /// Fails with `NO_MEMORY`, changing nothing, when the identifiers are
    /// used up.
    pub fn create_process(&mut self, name: &[u8], linux: bool) -> (r: ZxResult<usize>)
        requires
            old(self).wf(),
        ensures
            final(self).wf(),
            final(self).pmem == old(self).pmem,
            final(self).objects@ == old(self).objects@,
            final(self).user_base == old(self).user_base,
            final(self).user_size == old(self).user_size,
            r is Ok <==> old(self).koids.next_koid() < u64::MAX,
            r matches Err(e) ==> e == ZxError::NO_MEMORY && old(self).unchanged(final(self)),
            r matches Ok(p) ==> {
                &&& p == old(self).processes@.len()
                &&& final(self).processes@.len() == p + 1
                &&& final(self).processes@.subrange(0, p as int) == old(self).processes@
                &&& final(self).koids.next_koid() == old(self).koids.next_koid() + 1
                &&& final(self).root_job.processes@ == old(self).root_job.processes@.push(
                    old(self).koids.next_koid(),
                )
                &&& final(self).root_job.base == old(self).root_job.base
                &&& final(self).processes@[p as int].base.koid() == old(self).koids.next_koid()
                &&& final(self).processes@[p as int].base.name_spec()
                    == crate::object::truncated_name(name@)
                &&& final(self).processes@[p as int].job == old(self).root_job.base.koid()
                &&& final(self).processes@[p as int].linux == linux
                &&& final(self).processes@[p as int].status == Status::Init
                &&& final(self).processes@[p as int].threads@.len() == 0
                &&& final(self).processes@[p as int].handles.entries().len() == 0
                &&& final(self).processes@[p as int].handles.next_value() == 1
                &&& final(self).processes@[p as int].vmar.maps().len() == 0
                &&& final(self).processes@[p as int].vmar.nodes().len() == 1
                &&& final(self).processes@[p as int].vmar.nodes()[0].addr == old(self).user_base
                &&& final(self).processes@[p as int].vmar.nodes()[0].size == old(self).user_size
                &&& final(self).processes@[p as int].vmar.nodes()[0].alive
                &&& final(self).processes@[p as int].vmar.nodes()[0].flags.bits == 7
            },
    {
        let koid: KoID = match self.koids.allocate() {
            Some(k) => k,
            None => {
                return Err(ZxError::NO_MEMORY);
            },
        };
        let proc = Process::create(
            koid,
            self.root_job.base.id(),
            name,
            linux,
            self.user_base,
            self.user_size,
        );
        let p: usize = self.processes.len();
        self.processes.push(proc);
        self.root_job.processes.push(koid);
        proof {
            assert(self.processes@.subrange(0, p as int) == old(self).processes@);
            assert forall|q: int| 0 <= q < self.processes@.len() implies process_ok(
                self.objects@,
                #[trigger] self.processes@[q],
            ) by {
                if q < p {
                    assert(self.processes@[q] == old(self).processes@[q]);
                    assert(process_ok(old(self).objects@, old(self).processes@[q]));
                }
            }
        }
        Ok(p)
    }

    /// Adds a thread named `name` to process `p`. Returns its position
    /// among the threads of the process.
    ///
    /// Fails with `INVALID_ARGS` when there is no process `p`, with
    /// `BAD_STATE` when the process has ended, with `NO_MEMORY` when the
    /// identifiers are used up. A failed call changes nothing.
    pub fn create_thread(&mut self, p: usize, name: &[u8], flags: u32) -> (r: ZxResult<usize>)
        requires
            old(self).wf(),
        ensures
            final(self).wf(),
            final(self).pmem == old(self).pmem,
            final(self).objects@ == old(self).objects@,
            final(self).root_job == old(self).root_job,
            final(self).user_base == old(self).user_base,
            final(self).user_size == old(self).user_size,
            r == if p >= old(self).processes@.len() {
                Err::<usize, ZxError>(ZxError::INVALID_ARGS)
            } else if old(self).processes@[p as int].status is Exited {
                Err::<usize, ZxError>(ZxError::BAD_STATE)
            } else if old(self).koids.next_koid() == u64::MAX {
                Err::<usize, ZxError>(ZxError::NO_MEMORY)
            } else {
                Ok::<usize, ZxError>(old(self).processes@[p as int].threads@.len() as usize)
            },
            r is Err ==> old(self).unchanged(final(self)),
            r matches Ok(t) ==> {
                let before = old(self).processes@[p as int];
                let after = final(self).processes@[p as int];
                &&& final(self).koids.next_koid() == old(self).koids.next_koid() + 1
                &&& final(self).processes@.len() == old(self).processes@.len()
                &&& forall|q: int|
                    0 <= q < old(self).processes@.len() && q != p ==> #[trigger] final(self).processes@[q] == old(self).processes@[q]
                &&& after.threads@.len() == t + 1
                &&& after.threads@.subrange(0, t as int) == before.threads@
                &&& after.threads@[t as int].base.koid() == old(self).koids.next_koid()
                &&& after.threads@[t as int].state == ThreadState::Initial
                &&& after.base == before.base
                &&& after.handles == before.handles
                &&& after.vmar == before.vmar
                &&& after.status == before.status
                &&& after.linux == before.linux
            },
    {
        if p >= self.processes.len() {
            return Err(ZxError::INVALID_ARGS);
        }
        if let Status::Exited(_) = self.processes[p].status {
            return Err(ZxError::BAD_STATE);
        }
        proof {
            assert(process_ok(self.objects@, self.processes@[p as int]));
        }
        let koid: KoID = match self.koids.allocate() {
            Some(k) => k,
            None => {
                return Err(ZxError::NO_MEMORY);
            },
        };
        let r = self.processes[p].create_thread(koid, name, flags);
        proof {
            assert forall|q: int| 0 <= q < self.processes@.len() implies process_ok(
                self.objects@,
                #[trigger] self.processes@[q],
            ) by {
                assert(process_ok(old(self).objects@, old(self).processes@[q]));
            }
        }
        r
    }

    /// Starts thread `t` of process `p`; see [`Process::start_thread`].
    ///
    /// Fails with `INVALID_ARGS` when there is no such process or thread,
    /// with `BAD_STATE` when the process has ended or the thread is not in
    /// the state `Initial`. A failed call changes nothing.
    pub fn start_thread(
        &mut self,
        p: usize,
        t: usize,
        entry: usize,
        sp: usize,
        arg0: usize,
        arg1: usize,
    ) -> (r: ZxResult)
        requires
            old(self).wf(),
        ensures
            final(self).wf(),
            old(self).only_process_changed(final(self), p as int),
            r == if p >= old(self).processes@.len() || t >= old(self).processes@[p as int].threads@.len() {
                Err::<(), ZxError>(ZxError::INVALID_ARGS)
            } else if old(self).processes@[p as int].status is Exited || old(self).processes@[p as int].threads@[t as int].state != ThreadState::Initial {
                Err::<(), ZxError>(ZxError::BAD_STATE)
            } else {
                Ok::<(), ZxError>(())
            },
            r is Err ==> old(self).unchanged(final(self)),
            r is Ok ==> {
                let before = old(self).processes@[p as int];
                let after = final(self).processes@[p as int];
                &&& after.base == before.base
                &&& after.handles == before.handles
                &&& after.vmar == before.vmar
                &&& after.linux == before.linux
                &&& after.status == Status::Running
                &&& after.threads@.len() == before.threads@.len()
                &&& after.threads@[t as int].state == ThreadState::Running
                &&& after.threads@[t as int].regs == (crate::task::ThreadRegs {
                    pc: entry,
                    sp,
                    arg0,
                    arg1,
                })
            },
    {
        if p >= self.processes.len() {
            return Err(ZxError::INVALID_ARGS);
        }
        proof {
            assert(process_ok(self.objects@, self.processes@[p as int]));
        }
        let r = self.processes[p].start_thread(t, entry, sp, arg0, arg1);
        proof {
            if r is Err {
                assert(self.processes@ =~= old(self).processes@);
            }
            assert forall|q: int| 0 <= q < self.processes@.len() implies process_ok(
                self.objects@,
                #[trigger] self.processes@[q],
            ) by {
                assert(process_ok(old(self).objects@, old(self).processes@[q]));
            }
        }
        r
    }

    /// Ends process `p` with the return code `retcode`; see
    /// [`Process::exit`].
    ///
    /// Fails with `INVALID_ARGS`, changing nothing, when there is no process
    /// `p`.
    pub fn exit_process(&mut self, p: usize, retcode: i64) -> (r: ZxResult)
        requires
            old(self).wf(),
        ensures
            final(self).wf(),
            old(self).only_process_changed(final(self), p as int),
            r is Ok <==> p < old(self).processes@.len(),
            r matches Err(e) ==> e == ZxError::INVALID_ARGS && old(self).unchanged(final(self)),
            r is Ok ==> {
                let before = old(self).processes@[p as int];
                let after = final(self).processes@[p as int];
                &&& after.status == Status::Exited(retcode)
                &&& after.base.signals_spec() == crate::object::signals_changed(
                    before.base.signals_spec(),
                    0,
                    crate::task::PROCESS_TERMINATED,
                )
                &&& after.handles == before.handles
                &&& after.vmar == before.vmar
                &&& after.threads@.len() == before.threads@.len()
                &&& forall|i: int|
                    0 <= i < after.threads@.len() ==> (#[trigger] after.threads@[i]).state
                        == ThreadState::Dead
            },
    {
        if p >= self.processes.len() {
            return Err(ZxError::INVALID_ARGS);
        }
        proof {
            assert(process_ok(self.objects@, self.processes@[p as int]));
        }
        self.processes[p].exit(retcode);
        proof {
            assert forall|q: int| 0 <= q < self.processes@.len() implies process_ok(
                self.objects@,
                #[trigger] self.processes@[q],
            ) by {
                assert(process_ok(old(self).objects@, old(self).processes@[q]));
            }
        }
        Ok(())
    }

    /// What [`Kernel::add_handle`] comes to.
    pub open spec fn add_handle_result(&self, p: int, koid: KoID) -> ZxResult<HandleValue> {
        if !(0 <= p < self.processes@.len()) {
            Err(ZxError::INVALID_ARGS)
        } else if forall|j: int|
            0 <= j < self.objects@.len() ==> obj_koid(#[trigger] self.objects@[j]) != koid {
            Err(ZxError::BAD_HANDLE)
        } else if self.processes@[p].handles.next_value() == u32::MAX {
            Err(ZxError::NO_MEMORY)
        } else {
            Ok(self.processes@[p].handles.next_value())
        }
    }

    /// Gives process `p` a handle with `rights` to the object known as
    /// `koid`. Returns the handle's value, which is not `0` and names no
    /// other handle of the process.
    ///
    /// Fails with `INVALID_ARGS` when there is no process `p`, with
    /// `BAD_HANDLE` when there is no such object, with `NO_MEMORY` when the
    /// process has used up its handle values. A failed call changes nothing.
    pub fn add_handle(&mut self, p: usize, koid: KoID, rights: Rights) -> (r: ZxResult<
        HandleValue,
    >)
        requires
            old(self).wf(),
        ensures
            final(self).wf(),
            old(self).only_process_changed(final(self), p as int),
            r == old(self).add_handle_result(p as int, koid),
            r is Err ==> old(self).unchanged(final(self)),
            r matches Ok(value) ==> {
                let before = old(self).processes@[p as int];
                let after = final(self).processes@[p as int];
                &&& value != 0
                &&& !before.handles@.dom().contains(value)
                &&& after.handles@.dom().contains(value)
                &&& after.handles@[value].object == koid
                &&& after.handles@[value].rights == rights
                &&& has_object(old(self).objects@, koid, after.handles@[value].kind)
                &&& after.handles@ == before.handles@.insert(value, after.handles@[value])
                &&& after.base == before.base
                &&& after.vmar == before.vmar
                &&& after.threads == before.threads
                &&& after.status == before.status
                &&& after.linux == before.linux
                &&& after.job == before.job
            },
    {
        if p >= self.processes.len() {
            return Err(ZxError::INVALID_ARGS);
        }
        let i: usize = match self.find_object(koid) {
            Some(i) => i,
            None => {
                return Err(ZxError::BAD_HANDLE);
            },
        };
        let kind: ObjectType = self.kind_of(i);
        proof {
            assert(process_ok(self.objects@, self.processes@[p as int]));
            assert(is_obj(self.objects@, i as int, koid, kind));
        }
        let handle = Handle::new(koid, kind, rights);
        let r = self.processes[p].handles.add(handle);
        proof {
            if r is Err {
                assert(self.processes@ =~= old(self).processes@);
            }
            assert forall|q: int| 0 <= q < self.processes@.len() implies process_ok(
                self.objects@,
                #[trigger] self.processes@[q],
            ) by {
                assert(process_ok(old(self).objects@, old(self).processes@[q]));
            }
        }
        r
    }

    /// The handle of process `p` with the value `value`, if its object is
    /// of class `kind` and the handle carries all rights of the mask
    /// `rights`.
    ///
    /// Fails with `INVALID_ARGS` when there is no process `p`, otherwise
    /// as [`crate::object::handle::HandleTable::get_with_rights`] does.
    pub fn get_handle(&self, p: usize, value: HandleValue, kind: ObjectType, rights: u32) -> (r:
        ZxResult<Handle>)
        requires
            self.wf(),
        ensures
            r == if p >= self.processes@.len() {
                Err::<Handle, ZxError>(ZxError::INVALID_ARGS)
            } else {
                self.processes@[p as int].handles.lookup(value, Some(kind), rights)
            },
            r matches Ok(h) ==> has_object(self.objects@, h.object, kind) && h.kind == kind,
    {
        if p >= self.processes.len() {
            return Err(ZxError::INVALID_ARGS);
        }
        proof {
            assert(process_ok(self.objects@, self.processes@[p as int]));
        }
        let r = self.processes[p].handles.get_with_rights(value, kind, rights);
        proof {
            if r is Ok {
                self.lemma_handle_refers(p as int, value);
            }
        }
        r
    }

    /// What [`Kernel::duplicate_handle`] comes to: the new handle, or why
    /// there is none.
    pub open spec fn duplicate_result(&self, p: int, value: HandleValue, rights: u32) -> ZxResult<
        Handle,
    > {
        let table = self.processes@[p].handles;
        if !(0 <= p < self.processes@.len()) {
            Err(ZxError::INVALID_ARGS)
        } else if !table@.dom().contains(value) {
            Err(ZxError::BAD_HANDLE)
        } else if !table@[value].rights.contains_spec(Rights::DUPLICATE) {
            Err(ZxError::ACCESS_DENIED)
        } else if rights != Rights::SAME_RIGHTS && !table@[value].rights.contains_spec(rights) {
            Err(ZxError::INVALID_ARGS)
        } else if table.next_value() == u32::MAX {
            Err(ZxError::NO_MEMORY)
        } else {
            Ok(
                Handle {
                    object: table@[value].object,
                    kind: table@[value].kind,
                    rights: if rights == Rights::SAME_RIGHTS {
                        table@[value].rights
                    } else {
                        Rights { bits: rights }
                    },
                },
            )
        }
    }

    /// Gives process `p` a second handle to the object of its handle
    /// `value`, with the rights of the mask `rights`, or with the same
    /// rights where `rights` is `SAME_RIGHTS`. Returns the new handle's
    /// value.
    ///
    /// Fails with `INVALID_ARGS` when there is no process `p`, with
    /// `BAD_HANDLE` when the process has no such handle, with
    /// `ACCESS_DENIED` when the handle lacks the right `DUPLICATE`, with
    /// `INVALID_ARGS` when `rights` names a right that the handle lacks,
    /// with `NO_MEMORY` when the process has used up its handle values. A
    /// failed call changes nothing.
    pub fn duplicate_handle(&mut self, p: usize, value: HandleValue, rights: u32) -> (r: ZxResult<
        HandleValue,
    >)
        requires
            old(self).wf(),
        ensures
            final(self).wf(),
            old(self).only_process_changed(final(self), p as int),
            r is Ok <==> old(self).duplicate_result(p as int, value, rights) is Ok,
            r matches Err(e) ==> old(self).duplicate_result(p as int, value, rights) == Err::<
                Handle,
                ZxError,
            >(e) && old(self).unchanged(final(self)),
            r matches Ok(new_value) ==> {
                let before = old(self).processes@[p as int];
                let after = final(self).processes@[p as int];
                &&& new_value != 0
                &&& !before.handles@.dom().contains(new_value)
                &&& after.handles@ == before.handles@.insert(
                    new_value,
                    old(self).duplicate_result(p as int, value, rights)->Ok_0,
                )
                &&& after.base == before.base
                &&& after.vmar == before.vmar
                &&& after.threads == before.threads
                &&& after.status == before.status
            },
    {
        if p >= self.processes.len() {
            return Err(ZxError::INVALID_ARGS);
        }
        proof {
            assert(process_ok(self.objects@, self.processes@[p as int]));
        }
        let source: Handle = match self.processes[p].handles.get(value) {
            Ok(h) => h,
            Err(e) => {
                return Err(e);
            },
        };
        if !source.rights.contains(Rights::DUPLICATE) {
            return Err(ZxError::ACCESS_DENIED);
        }
        let new_rights: Rights = if rights == Rights::SAME_RIGHTS {
            source.rights
        } else {
            if !source.rights.contains(rights) {
                return Err(ZxError::INVALID_ARGS);
            }
            Rights::from_bits(rights)
        };
        proof {
            self.lemma_handle_refers(p as int, value);
        }
        let r = self.processes[p].handles.add(Handle::new(source.object, source.kind, new_rights));
        proof {
            if r is Err {
                assert(self.processes@ =~= old(self).processes@);
            }
            assert forall|q: int| 0 <= q < self.processes@.len() implies process_ok(
                self.objects@,
                #[trigger] self.processes@[q],
            ) by {
                assert(process_ok(old(self).objects@, old(self).processes@[q]));
            }
        }
        r
    }

    /// Takes the handle `value` away from process `p` and returns it. The
    /// object stays, whether or not another handle refers to it.
    ///
    /// Fails with `INVALID_ARGS` when there is no process `p`, with
    /// `BAD_HANDLE` when the process has no such handle. A failed call
    /// changes nothing.
    pub fn remove_handle(&mut self, p: usize, value: HandleValue) -> (r: ZxResult<Handle>)
        requires
            old(self).wf(),
        ensures
            final(self).wf(),
            old(self).only_process_changed(final(self), p as int),
            r == if p >= old(self).processes@.len() {
                Err::<Handle, ZxError>(ZxError::INVALID_ARGS)
            } else if !old(self).processes@[p as int].handles@.dom().contains(value) {
                Err::<Handle, ZxError>(ZxError::BAD_HANDLE)
            } else {
                Ok::<Handle, ZxError>(old(self).processes@[p as int].handles@[value])
            },
            r is Err ==> old(self).unchanged(final(self)),
            r is Ok ==> {
                let before = old(self).processes@[p as int];
                let after = final(self).processes@[p as int];
                &&& after.handles@ == before.handles@.remove(value)
                &&& after.base == before.base
                &&& after.vmar == before.vmar
                &&& after.threads == before.threads
                &&& after.status == before.status
            },
    {
        if p >= self.processes.len() {
            return Err(ZxError::INVALID_ARGS);
        }
        proof {
            assert(process_ok(self.objects@, self.processes@[p as int]));
        }
        let r = self.processes[p].handles.remove(value);
        proof {
            if r is Err {
                assert(self.processes@ =~= old(self).processes@);
            }
            assert forall|q: int| 0 <= q < self.processes@.len() implies process_ok(
                self.objects@,
                #[trigger] self.processes@[q],
            ) by {
                assert(process_ok(old(self).objects@, old(self).processes@[q]));
                if q == p && r is Ok {
                    let before = old(self).processes@[p as int].handles.entries();
                    let after = self.processes@[p as int].handles.entries();
                    let i = choose|i: int|
                        0 <= i < before.len() && after == before.remove(i) && before[i].value
                            == value;
                    assert forall|k: int| 0 <= k < after.len() implies has_object(
                        self.objects@,
                        (#[trigger] after[k]).handle.object,
                        after[k].handle.kind,
                    ) by {
                        let k0 = if k < i {
                            k
                        } else {
                            k + 1
                        };
                        assert(after[k] == before[k0]);
                    }
                }
            }
        }
        r
    }

    /// Cuts a new region out of region `parent` of the address space of
    /// process `p`; see [`crate::vm::vmar::AddressSpace::create_child`],
    /// whose result this is.
    ///
    /// Fails with `INVALID_ARGS` when there is no process `p`. A failed
    /// call changes nothing.
    pub fn vmar_create_child(&mut self, p: usize, parent: usize, offset: Option<usize>, size: usize)
        -> (r: ZxResult<usize>)
        requires
            old(self).wf(),
        ensures
            final(self).wf(),
            old(self).only_process_changed(final(self), p as int),
            p >= old(self).processes@.len() ==> r == Err::<usize, ZxError>(ZxError::INVALID_ARGS),
            r is Err ==> old(self).unchanged(final(self)),
            p < old(self).processes@.len() ==> {
                let before = old(self).processes@[p as int];
                let after = final(self).processes@[p as int];
                &&& after.base == before.base
                &&& after.handles == before.handles
                &&& after.threads == before.threads
                &&& after.status == before.status
                &&& after.linux == before.linux
                &&& !before.vmar.is_live(parent as int) ==> r == Err::<usize, ZxError>(
                    ZxError::BAD_STATE,
                )
                &&& before.vmar.is_live(parent as int) && (size == 0 || size % 4096 != 0) ==> r
                    == Err::<usize, ZxError>(ZxError::INVALID_ARGS)
                &&& before.vmar.is_live(parent as int) && size != 0 && size % 4096 == 0
                    ==> match offset {
                    Some(o) => {
                        &&& r is Ok <==> o % 4096 == 0 && before.vmar.range_free(
                            parent as int,
                            before.vmar.nodes()[parent as int].addr + o,
                            size as int,
                        )
                        &&& r matches Err(e) ==> e == ZxError::INVALID_ARGS
                        &&& r is Ok ==> after.vmar.nodes().last().addr
                            == before.vmar.nodes()[parent as int].addr + o
                    },
                    None => {
                        &&& r is Ok <==> exists|a: int| #[trigger]
                            before.vmar.range_free(parent as int, a, size as int)
                        &&& r matches Err(e) ==> e == ZxError::NO_MEMORY
                        &&& r is Ok ==> forall|a: int| #[trigger]
                            before.vmar.range_free(parent as int, a, size as int)
                                ==> after.vmar.nodes().last().addr <= a
                    },
                }
                &&& r matches Ok(id) ==> {
                    &&& id == before.vmar.nodes().len()
                    &&& after.vmar.maps() == before.vmar.maps()
                    &&& after.vmar.nodes() == before.vmar.nodes().push(after.vmar.nodes().last())
                    &&& after.vmar.nodes().last().parent == Some(parent)
                    &&& after.vmar.nodes().last().size == size
                    &&& after.vmar.nodes().last().flags == before.vmar.nodes()[parent as int].flags
                    &&& after.vmar.nodes().last().alive
                    &&& before.vmar.range_free(
                        parent as int,
                        after.vmar.nodes().last().addr as int,
                        size as int,
                    )
                }
            },
    {
        if p >= self.processes.len() {
            return Err(ZxError::INVALID_ARGS);
        }
        proof {
            assert(process_ok(self.objects@, self.processes@[p as int]));
        }
        let r = self.processes[p].vmar.create_child(parent, offset, size);
        proof {
            if r is Err {
                assert(self.processes@ =~= old(self).processes@);
            }
            assert forall|q: int| 0 <= q < self.processes@.len() implies process_ok(
                self.objects@,
                #[trigger] self.processes@[q],
            ) by {
                assert(process_ok(old(self).objects@, old(self).processes@[q]));
            }
        }
        r
    }

    /// Shows part of the memory object known as `koid` in region `vmar` of
    /// the address space of process `p`; see
    /// [`crate::vm::vmar::AddressSpace::map_at`], whose result this is.
    ///
    /// Fails with `INVALID_ARGS` when there is no process `p`, with
    /// `BAD_HANDLE` when there is no such memory object. A failed call
    /// changes nothing.
    pub fn vmar_map(
        &mut self,
        p: usize,
        vmar: usize,
        vaddr_offset: usize,
        koid: KoID,
        vmo_offset: usize,
        len: usize,
        flags: MMUFlags,
    ) -> (r: ZxResult<VirtAddr>)
        requires
            old(self).wf(),
        ensures
            final(self).wf(),
            final(self).koids == old(self).koids,
            final(self).pmem == old(self).pmem,
            final(self).root_job == old(self).root_job,
            final(self).user_base == old(self).user_base,
            final(self).user_size == old(self).user_size,
            final(self).objects@.len() == old(self).objects@.len(),
            final(self).processes@.len() == old(self).processes@.len(),
            forall|q: int|
                0 <= q < old(self).processes@.len() && q != p ==> #[trigger] final(self).processes@[q] == old(self).processes@[q],
            p >= old(self).processes@.len() ==> r == Err::<VirtAddr, ZxError>(
                ZxError::INVALID_ARGS,
            ),
            p < old(self).processes@.len() && !has_object(
                old(self).objects@,
                koid,
                ObjectType::Vmo,
            ) ==> r == Err::<VirtAddr, ZxError>(ZxError::BAD_HANDLE),
            r is Err ==> old(self).unchanged(final(self)),
            forall|i: int|
                p < old(self).processes@.len() && is_obj(
                    old(self).objects@,
                    i,
                    koid,
                    ObjectType::Vmo,
                ) ==> {
                    let before = old(self).processes@[p as int];
                    let after = final(self).processes@[p as int];
                    &&& r == before.vmar.map_at_result(
                        vmar as int,
                        vaddr_offset as int,
                        old(self).vmo_at(i).size() as int,
                        vmo_offset as int,
                        len as int,
                        flags,
                    )
                    &&& after.base == before.base
                    &&& after.handles == before.handles
                    &&& after.threads == before.threads
                    &&& after.status == before.status
                    &&& after.linux == before.linux
                    &&& after.vmar.nodes() == before.vmar.nodes()
                    &&& is_obj(final(self).objects@, i, koid, ObjectType::Vmo)
                    &&& final(self).vmo_at(i).inner() == old(self).vmo_at(i).inner()
                    &&& forall|j: int|
                        0 <= j < old(self).objects@.len() && j != i ==> #[trigger] final(self).objects@[j] == old(self).objects@[j]
                    &&& r matches Ok(addr) ==> {
                        &&& after.vmar.maps() == before.vmar.maps().push(
                            VmMapping {
                                vmar,
                                addr,
                                size: len,
                                vmo: koid,
                                vmo_offset,
                                flags,
                                splittable: old(self).vmo_at(i).inner() is Paged,
                            },
                        )
                        &&& final(self).vmo_at(i).mappings_spec() == old(self).vmo_at(
                            i,
                        ).mappings_spec().push(addr as u64)
                    }
                },
    {
        if p >= self.processes.len() {
            return Err(ZxError::INVALID_ARGS);
        }
        let i: usize = match self.find_vmo(koid) {
            Some(i) => i,
            None => {
                return Err(ZxError::BAD_HANDLE);
            },
        };
        proof {
            assert(process_ok(self.objects@, self.processes@[p as int]));
            assert forall|i2: int|
                is_obj(old(self).objects@, i2, koid, ObjectType::Vmo) implies i2 == i by {
                if i2 != i {
                    assert(obj_koid(old(self).objects@[i2]) != obj_koid(
                        old(self).objects@[i as int],
                    ));
                }
            }
        }
        let r = match &mut self.objects[i] {
            KernelObject::Vmo(v) => self.processes[p].vmar.map_at(
                vmar,
                vaddr_offset,
                v,
                &self.pmem,
                vmo_offset,
                len,
                flags,
            ),
            _ => Err(ZxError::BAD_HANDLE),
        };
        proof {
            if r is Err {
                assert(self.processes@ =~= old(self).processes@);
                assert(self.objects@ =~= old(self).objects@);
            } else {
                lemma_objects_after_vmo_op(
                    old(self).objects@,
                    i as int,
                    self.objects@[i as int],
                    &old(self).pmem,
                    &self.pmem,
                    self.koids.next_koid(),
                );
                lemma_has_after_update(old(self).objects@, i as int, self.objects@[i as int]);
                assert(is_obj(self.objects@, i as int, koid, ObjectType::Vmo));
                assert forall|q: int| 0 <= q < self.processes@.len() implies process_ok(
                    self.objects@,
                    #[trigger] self.processes@[q],
                ) by {
                    assert(process_ok(old(self).objects@, old(self).processes@[q]));
                    if q == p {
                        let before = old(self).processes@[p as int].vmar.maps();
                        let after = self.processes@[p as int].vmar.maps();
                        assert forall|k: int| 0 <= k < after.len() implies has_object(
                            self.objects@,
                            (#[trigger] after[k]).vmo,
                            ObjectType::Vmo,
                        ) by {
                            if k < before.len() {
                                assert(after[k] == before[k]);
                            }
                        }
                    }
                }
            }
        }
        r
    }

    /// Ends region `vmar` of the address space of process `p` with all
    /// that is in it; see [`crate::vm::vmar::AddressSpace::destroy`]. Returns
    /// the mappings that went.
    ///
    /// Fails with `INVALID_ARGS` when there is no process `p`, with
    /// `BAD_STATE` when `vmar` is no live region. A failed call changes
    /// nothing.
    pub fn vmar_destroy(&mut self, p: usize, vmar: usize) -> (r: ZxResult<Vec<VmMapping>>)
        requires
            old(self).wf(),
        ensures
            final(self).wf(),
            old(self).only_process_changed(final(self), p as int),
            r is Ok <==> p < old(self).processes@.len() && old(self).processes@[p as int].vmar.is_live(vmar as int),
            r matches Err(e) ==> old(self).unchanged(final(self)) && e == if p >= old(self).processes@.len() {
                ZxError::INVALID_ARGS
            } else {
                ZxError::BAD_STATE
            },
            r matches Ok(gone) ==> {
                let before = old(self).processes@[p as int];
                let after = final(self).processes@[p as int];
                let marks = before.vmar.subtree_marks(vmar as int);
                &&& after.base == before.base
                &&& after.handles == before.handles
                &&& after.threads == before.threads
                &&& after.status == before.status
                &&& after.vmar.nodes() == crate::vm::vmar::killed(before.vmar.nodes(), marks)
                &&& after.vmar.maps() == crate::vm::vmar::cut_all(
                    before.vmar.maps(),
                    marks,
                    vmar as int,
                    0,
                    0,
                    before.vmar.maps().len() as int,
                )
                &&& gone@ == crate::vm::vmar::gone_all(
                    before.vmar.maps(),
                    marks,
                    vmar as int,
                    0,
                    0,
                    before.vmar.maps().len() as int,
                )
                &&& !after.vmar.is_live(vmar as int)
            },
    {
        if p >= self.processes.len() {
            return Err(ZxError::INVALID_ARGS);
        }
        proof {
            assert(process_ok(self.objects@, self.processes@[p as int]));
        }
        let r = self.processes[p].vmar.destroy(vmar);
        proof {
            if r is Err {
                assert(self.processes@ =~= old(self).processes@);
            }
            assert forall|q: int| 0 <= q < self.processes@.len() implies process_ok(
                self.objects@,
                #[trigger] self.processes@[q],
            ) by {
                assert(process_ok(old(self).objects@, old(self).processes@[q]));
                if q == p && r is Ok {
                    let before = old(self).processes@[p as int].vmar;
                    let after = self.processes@[p as int].vmar.maps();
                    let marks = before.subtree_marks(vmar as int);
                    before.lemma_maps_apart();
                    crate::vm::vmar::lemma_cut_all(
                        before.maps(),
                        marks,
                        vmar as int,
                        0,
                        0,
                        before.maps().len() as int,
                    );
                    assert forall|k: int| 0 <= k < after.len() implies has_object(
                        self.objects@,
                        (#[trigger] after[k]).vmo,
                        ObjectType::Vmo,
                    ) by {
                        assert(crate::vm::vmar::covered_by(
                            after[k],
                            before.maps(),
                            marks,
                            vmar as int,
                            0,
                            0,
                            before.maps().len() as int,
                        ));
                        let k0 = choose|k0: int|
                            0 <= k0 < before.maps().len() && !marks[before.maps()[k0].vmar as int]
                                && #[trigger] crate::vm::vmar::part_of(
                                after[k],
                                before.maps()[k0],
                                vmar as int,
                                0,
                                0,
                            );
                        assert(after[k].vmo == before.maps()[k0].vmo);
                    }
                }
            }
        }
        r
    }

    /// Where a store of `len` bytes at the address `vaddr` of process `p`
    /// goes: the memory object and the offset in it, or `None` where no
    /// mapping of the process shows all of those addresses.
    #[verifier::opaque]
    pub open spec fn resolve(&self, p: int, vaddr: int, len: int) -> Option<(KoID, int)> {
        let space = self.processes@[p].vmar;
        if exists|k: int| #[trigger] space.covers(k, vaddr) {
            let k = choose|k: int| #[trigger]
                space.covers(k, vaddr) && forall|j: int|
                    0 <= j < k ==> !#[trigger] space.covers(j, vaddr);
            let m = space.maps()[k];
            if vaddr + len <= m.addr + m.size {
                Some((m.vmo, m.vmo_offset + (vaddr - m.addr)))
            } else {
                None
            }
        } else {
            None
        }
    }

    /// Finds where `len` bytes at the address `vaddr` of process `p` lie.
    pub fn locate(&self, p: usize, vaddr: VirtAddr, len: usize) -> (r: Option<(KoID, usize)>)
        requires
            self.wf(),
            p < self.processes@.len(),
        ensures
            r is Some <==> self.resolve(p as int, vaddr as int, len as int) is Some,
            r matches Some(t) ==> self.resolve(p as int, vaddr as int, len as int) == Some(
                (t.0, t.1 as int),
            ) && has_object(self.objects@, t.0, ObjectType::Vmo) && process_shows(
                self.processes@[p as int],
                t.0,
            ),
    {
        proof {
            reveal(Kernel::resolve);
            assert(process_ok(self.objects@, self.processes@[p as int]));
        }
        let space = &self.processes[p].vmar;
        match space.find_mapping(vaddr) {
            Some(k) => {
                proof {
                    space.lemma_parts_ok();
                    assert(space.map_ok(k as int));
                    let k2 = choose|k2: int| #[trigger]
                        space.covers(k2, vaddr as int) && forall|j: int|
                            0 <= j < k2 ==> !#[trigger] space.covers(j, vaddr as int);
                    if k2 < k {
                        assert(!space.covers(k2, vaddr as int));
                    }
                    if k < k2 {
                        assert(!space.covers(k as int, vaddr as int));
                    }
                }
                let m: VmMapping = space.mapping(k);
                proof {
                    assert(space.maps()[k as int].vmo == m.vmo);
                }
                if len > m.size || vaddr - m.addr > m.size - len {
                    None
                } else {
                    Some((m.vmo, m.vmo_offset + (vaddr - m.addr)))
                }
            },
            None => None,
        }
    }

    /// Stores `buf` at the address `vaddr` of process `p`, whatever the
    /// mapping there permits.
    ///
    /// Fails with `INVALID_ARGS` when there is no process `p` or no mapping
    /// of the process shows all of the addresses, and otherwise as
    /// [`Kernel::vmo_write`] on the memory object that the mapping shows. A
    /// failed call changes nothing.
    pub fn write_memory(&mut self, p: usize, vaddr: VirtAddr, buf: &[u8]) -> (r: ZxResult)
        requires
            old(self).wf(),
        ensures
            final(self).wf(),
            old(self).same_tasks(final(self)),
            final(self).koids == old(self).koids,
            final(self).objects@.len() == old(self).objects@.len(),
            r is Err ==> old(self).unchanged(final(self)),
            p >= old(self).processes@.len() || old(self).resolve(
                p as int,
                vaddr as int,
                buf@.len() as int,
            ) is None ==> r == Err::<(), ZxError>(ZxError::INVALID_ARGS),
            forall|j: int|
                0 <= j < old(self).objects@.len() ==> obj_koid(#[trigger] final(self).objects@[j])
                    == obj_koid(old(self).objects@[j]) && obj_kind(final(self).objects@[j])
                    == obj_kind(old(self).objects@[j]),
            forall|j: int|
                0 <= j < old(self).objects@.len() && p < old(self).processes@.len()
                    && !process_shows(
                    old(self).processes@[p as int],
                    obj_koid(old(self).objects@[j]),
                ) ==> #[trigger] final(self).objects@[j] == old(self).objects@[j] && (old(self).objects@[j] matches KernelObject::Vmo(w) ==> w.content(&final(self).pmem)
                    == w.content(&old(self).pmem)),
            forall|j: int|
                0 <= j < old(self).objects@.len() && p < old(self).processes@.len() && old(self).resolve(p as int, vaddr as int, buf@.len() as int) is Some && obj_koid(
                    old(self).objects@[j],
                ) != old(self).resolve(p as int, vaddr as int, buf@.len() as int)->Some_0.0 ==> (
                #[trigger] old(self).objects@[j] matches KernelObject::Vmo(w) ==> final(self).objects@[j] is Vmo && final(self).vmo_at(j).content(&final(self).pmem)
                    == w.content(&old(self).pmem)),
            forall|i: int|
                p < old(self).processes@.len() && old(self).resolve(
                    p as int,
                    vaddr as int,
                    buf@.len() as int,
                ) is Some && #[trigger] is_obj(
                    old(self).objects@,
                    i,
                    old(self).resolve(p as int, vaddr as int, buf@.len() as int)->Some_0.0,
                    ObjectType::Vmo,
                ) ==> old(self).wrote_at(
                    final(self),
                    i,
                    old(self).resolve(p as int, vaddr as int, buf@.len() as int)->Some_0.1,
                    buf@,
                    r,
                ),
            p < old(self).processes@.len() && old(self).resolve(
                p as int,
                vaddr as int,
                buf@.len() as int,
            ) is Some ==> has_object(
                old(self).objects@,
                old(self).resolve(p as int, vaddr as int, buf@.len() as int)->Some_0.0,
                ObjectType::Vmo,
            ),
            forall|j: int|
                0 <= j < old(self).objects@.len() ==> (#[trigger] old(self).objects@[j] matches KernelObject::Vmo(w) ==> final(self).objects@[j] is Vmo && final(self).vmo_at(j).size()
                    == w.size()),
            forall|j: int|
                0 <= j < old(self).objects@.len() && p < old(self).processes@.len() && old(self).resolve(p as int, vaddr as int, buf@.len() as int) is Some && obj_koid(
                    old(self).objects@[j],
                ) != old(self).resolve(p as int, vaddr as int, buf@.len() as int)->Some_0.0
                    ==> #[trigger] final(self).objects@[j] == old(self).objects@[j],
    {
        if p >= self.processes.len() {
            return Err(ZxError::INVALID_ARGS);
        }
        match self.locate(p, vaddr, buf.len()) {
            Some((koid, offset)) => {
                let r = self.vmo_write(koid, offset, buf);
                proof {
                    let before = old(self).objects@;
                    assert forall|j: int| 0 <= j < before.len() implies (
                    #[trigger] before[j] matches KernelObject::Vmo(w) ==> self.objects@[j] is Vmo
                        && self.vmo_at(j).size() == w.size()) by {
                        if obj_koid(before[j]) != koid {
                            assert(self.objects@[j] == before[j]);
                        } else if before[j] is Vmo {
                            assert(is_obj(before, j, koid, ObjectType::Vmo));
                        }
                    }
                    assert forall|j: int|
                        0 <= j < before.len() && !process_shows(
                            old(self).processes@[p as int],
                            obj_koid(before[j]),
                        ) implies #[trigger] self.objects@[j] == before[j] && (
                    before[j] matches KernelObject::Vmo(w) ==> w.content(&self.pmem) == w.content(
                        &old(self).pmem,
                    )) by {
                        assert(obj_koid(before[j]) != koid);
                    }
                    assert forall|i: int| #[trigger]
                        is_obj(before, i, koid, ObjectType::Vmo) implies old(self).wrote_at(
                        self,
                        i,
                        offset as int,
                        buf@,
                        r,
                    ) by {}
                    assert forall|j: int|
                        0 <= j < before.len() && obj_koid(before[j]) != koid implies (
                    #[trigger] before[j] matches KernelObject::Vmo(w) ==> self.objects@[j] is Vmo
                        && self.vmo_at(j).content(&self.pmem) == w.content(&old(self).pmem)) by {
                        assert(self.objects@[j] == before[j]);
                    }
                }
                r
            },
            None => Err(ZxError::INVALID_ARGS),
        }
    }

    /// Whether `after` is `self` after the attempt, with the result `r`, to
    /// store `data` at `offset` of the memory object at position `i`.
    pub open spec fn wrote_at(&self, after: &Kernel, i: int, offset: int, data: Seq<u8>, r: ZxResult)
        -> bool {
        &&& r == self.vmo_at(i).access_result(&self.pmem, offset, data.len() as int)
        &&& obj_koid(after.objects@[i]) == obj_koid(self.objects@[i])
        &&& after.objects@[i] is Vmo
        &&& self.vmo_at(i).same_object(&after.vmo_at(i))
        &&& after.vmo_at(i).size() == self.vmo_at(i).size()
        &&& r is Ok ==> after.vmo_at(i).content(&after.pmem) == written(
            self.vmo_at(i).content(&self.pmem),
            offset,
            data,
        )
        &&& r is Ok ==> self.vmo_at(i).touched(&after.vmo_at(i), offset, data.len() as int)
        &&& r is Ok ==> after.pmem.free_frames() + self.vmo_at(i).fresh_pages(
            offset,
            data.len() as int,
        ) == self.pmem.free_frames()
    }

    /// Reads `len` bytes at the address `vaddr` of process `p`, whatever
    /// the mapping there permits.
    ///
    /// Fails with `INVALID_ARGS` when there is no process `p` or no mapping
    /// of the process shows all of the addresses, and otherwise as
    /// [`Kernel::vmo_read`] on the memory object that the mapping shows. A
    /// failed call changes nothing.
    pub fn read_memory(&mut self, p: usize, vaddr: VirtAddr, len: usize) -> (r: ZxResult<Vec<u8>>)
        requires
            old(self).wf(),
        ensures
            final(self).wf(),
            old(self).same_tasks(final(self)),
            final(self).koids == old(self).koids,
            final(self).objects@.len() == old(self).objects@.len(),
            r is Err ==> old(self).unchanged(final(self)),
            p >= old(self).processes@.len() || old(self).resolve(
                p as int,
                vaddr as int,
                len as int,
            ) is None ==> (r matches Err(e) && e == ZxError::INVALID_ARGS),
            forall|i: int|
                p < old(self).processes@.len() && old(self).resolve(
                    p as int,
                    vaddr as int,
                    len as int,
                ) is Some && #[trigger] is_obj(
                    old(self).objects@,
                    i,
                    old(self).resolve(p as int, vaddr as int, len as int)->Some_0.0,
                    ObjectType::Vmo,
                ) ==> {
                    let koid = old(self).resolve(p as int, vaddr as int, len as int)->Some_0.0;
                    let offset = old(self).resolve(p as int, vaddr as int, len as int)->Some_0.1;
                    &&& r is Ok <==> old(self).vmo_at(i).access_result(
                        &old(self).pmem,
                        offset,
                        len as int,
                    ) is Ok
                    &&& r matches Err(e) ==> old(self).vmo_at(i).access_result(
                        &old(self).pmem,
                        offset,
                        len as int,
                    ) == Err::<(), ZxError>(e)
                    &&& r matches Ok(buf) ==> buf@ == old(self).vmo_at(i).content(
                        &old(self).pmem,
                    ).subrange(offset, offset + len)
                    &&& is_obj(final(self).objects@, i, koid, ObjectType::Vmo)
                    &&& final(self).vmo_at(i).content(&final(self).pmem) == old(self).vmo_at(
                        i,
                    ).content(&old(self).pmem)
                },
    {
        if p >= self.processes.len() {
            return Err(ZxError::INVALID_ARGS);
        }
        match self.locate(p, vaddr, len) {
            Some((koid, offset)) => self.vmo_read(koid, offset, len),
            None => Err(ZxError::INVALID_ARGS),
        }
    }

    /// Whether a handle, a mapping or another object refers to the object
    /// `koid`.
    pub open spec fn referenced(&self, koid: KoID) -> bool {
        ||| exists|p: int|
            0 <= p < self.processes@.len() && process_refers(#[trigger] self.processes@[p], koid)
        ||| exists|j: int|
            0 <= j < self.objects@.len() && refers_to(#[trigger] self.objects@[j], koid)
    }

    /// Whether a handle, a mapping or another object refers to the object
    /// `koid`.
    pub fn is_referenced(&self, koid: KoID) -> (r: bool)
        requires
            self.wf(),
        ensures
            r == self.referenced(koid),
    {
        let mut p: usize = 0;
        while p < self.processes.len()
            invariant
                p <= self.processes.len(),
                forall|q: int| 0 <= q < p ==> !process_refers(#[trigger] self.processes@[q], koid),
            decreases self.processes.len() - p,
        {
            let proc = &self.processes[p];
            let mut i: usize = 0;
            while i < proc.handles.len()
                invariant
                    i <= proc.handles.entries().len(),
                    p < self.processes.len(),
                    *proc == self.processes@[p as int],
                    forall|j: int|
                        0 <= j < i ==> (#[trigger] proc.handles.entries()[j]).handle.object != koid,
                decreases proc.handles.entries().len() - i,
            {
                if proc.handles.entry(i).handle.object == koid {
                    proof {
                        assert(process_refers(self.processes@[p as int], koid));
                    }
                    return true;
                }
                i += 1;
            }
            let mut k: usize = 0;
            while k < proc.vmar.mapping_count()
                invariant
                    k <= proc.vmar.maps().len(),
                    p < self.processes.len(),
                    *proc == self.processes@[p as int],
                    forall|j: int| 0 <= j < k ==> (#[trigger] proc.vmar.maps()[j]).vmo != koid,
                decreases proc.vmar.maps().len() - k,
            {
                if proc.vmar.mapping(k).vmo == koid {
                    proof {
                        assert(process_refers(self.processes@[p as int], koid));
                    }
                    return true;
                }
                k += 1;
            }
            p += 1;
        }
        let mut j: usize = 0;
        while j < self.objects.len()
            invariant
                j <= self.objects.len(),
                forall|q: int|
                    0 <= q < self.processes@.len() ==> !process_refers(
                        #[trigger] self.processes@[q],
                        koid,
                    ),
                forall|i: int| 0 <= i < j ==> !refers_to(#[trigger] self.objects@[i], koid),
            decreases self.objects.len() - j,
        {
            let hit: bool = match &self.objects[j] {
                KernelObject::Bti(b) => b.iommu == koid,
                KernelObject::Pmt(t) => t.vmo == koid || t.bti == koid,
                _ => false,
            };
            if hit {
                return true;
            }
            j += 1;
        }
        false
    }

    /// Ends the object known as `koid` if nothing refers to it: the object
    /// is no longer among the objects, and a memory object gives up its
    /// memory. Says whether the object was ended.
    pub fn collect(&mut self, koid: KoID) -> (done: bool)
        requires
            old(self).wf(),
        ensures
            final(self).wf(),
            old(self).same_tasks(final(self)),
            final(self).koids == old(self).koids,
            done <==> !old(self).referenced(koid) && exists|j: int|
                0 <= j < old(self).objects@.len() && obj_koid(#[trigger] old(self).objects@[j])
                    == koid,
            !done ==> old(self).unchanged(final(self)),
            done ==> {
                &&& old(self).pmem.changed_only_for(&final(self).pmem, koid)
                &&& final(self).pmem.bytes() == old(self).pmem.bytes()
                &&& exists|i: int|
                    0 <= i < old(self).objects@.len() && obj_koid(#[trigger] old(self).objects@[i])
                        == koid && final(self).objects@ == old(self).objects@.remove(i)
                &&& forall|j: int|
                    0 <= j < final(self).objects@.len() ==> obj_koid(
                        #[trigger] final(self).objects@[j],
                    ) != koid
            },
    {
        let i: usize = match self.find_object(koid) {
            Some(i) => i,
            None => {
                return false;
            },
        };
        if self.is_referenced(koid) {
            return false;
        }
        let gone: KernelObject = self.objects.remove(i);
        if let KernelObject::Vmo(v) = gone {
            v.destroy(&mut self.pmem);
        }
        proof {
            let before = old(self).objects@;
            let now = self.objects@;
            assert(now == before.remove(i as int));
            lemma_has_after_remove(before, i as int);
            assert forall|j: int| 0 <= j < now.len() implies object_ok(#[trigger] now[j], &self.pmem)
                && obj_koid(now[j]) < self.koids.next_koid() && refs_ok(now, now[j]) && obj_koid(
                now[j],
            ) != koid by {
                let j0 = if j < i {
                    j
                } else {
                    j + 1
                };
                assert(now[j] == before[j0]);
                assert(obj_koid(before[j0]) != obj_koid(before[i as int]));
                assert(refs_ok(before, before[j0]));
                assert(!refers_to(before[j0], koid));
                if let KernelObject::Vmo(w) = before[j0] {
                    if before[i as int] is Vmo {
                        w.lemma_untouched_by(&old(self).pmem, &self.pmem, koid);
                    }
                }
            }
            assert forall|a: int, b: int|
                0 <= a < now.len() && 0 <= b < now.len() && a != b implies obj_koid(
                #[trigger] now[a],
            ) != obj_koid(#[trigger] now[b]) by {
                let a0 = if a < i {
                    a
                } else {
                    a + 1
                };
                let b0 = if b < i {
                    b
                } else {
                    b + 1
                };
                assert(now[a] == before[a0] && now[b] == before[b0]);
            }
            assert forall|p: int| 0 <= p < self.processes@.len() implies process_ok(
                now,
                #[trigger] self.processes@[p],
            ) by {
                let proc = self.processes@[p];
                assert(process_ok(before, old(self).processes@[p]));
                assert(!process_refers(proc, koid));
                assert forall|e: int| 0 <= e < proc.handles.entries().len() implies has_object(
                    now,
                    (#[trigger] proc.handles.entries()[e]).handle.object,
                    proc.handles.entries()[e].handle.kind,
                ) by {
                    assert(proc.handles.entries()[e].handle.object != koid);
                }
                assert forall|k: int| 0 <= k < proc.vmar.maps().len() implies has_object(
                    now,
                    (#[trigger] proc.vmar.maps()[k]).vmo,
                    ObjectType::Vmo,
                ) by {
                    assert(proc.vmar.maps()[k].vmo != koid);
                }
            }
        }
        true
    }

    /// Takes the handle `value` away from process `p`, and ends the object
    /// if nothing refers to it any more. Returns whether the object was
    /// ended.
    ///
    /// Fails with `INVALID_ARGS` when there is no process `p`, with
    /// `BAD_HANDLE` when the process has no such handle. A failed call
    /// changes nothing.
    pub fn close_handle(&mut self, p: usize, value: HandleValue) -> (r: ZxResult<bool>)
        requires
            old(self).wf(),
        ensures
            final(self).wf(),
            final(self).koids == old(self).koids,
            r is Ok <==> p < old(self).processes@.len() && old(self).processes@[p as int].handles@.dom().contains(value),
            r matches Err(e) ==> old(self).unchanged(final(self)) && e == if p >= old(self).processes@.len() {
                ZxError::INVALID_ARGS
            } else {
                ZxError::BAD_HANDLE
            },
            r matches Ok(ended) ==> {
                let before = old(self).processes@[p as int];
                let after = final(self).processes@[p as int];
                let koid = before.handles@[value].object;
                &&& final(self).processes@.len() == old(self).processes@.len()
                &&& forall|q: int|
                    0 <= q < old(self).processes@.len() && q != p ==> #[trigger] final(self).processes@[q] == old(self).processes@[q]
                &&& after.handles@ == before.handles@.remove(value)
                &&& after.vmar == before.vmar
                &&& after.threads == before.threads
                &&& after.status == before.status
                &&& after.base == before.base
                &&& ended ==> forall|j: int|
                    0 <= j < final(self).objects@.len() ==> obj_koid(
                        #[trigger] final(self).objects@[j],
                    ) != koid
                &&& !ended ==> final(self).objects@ == old(self).objects@ && final(self).pmem
                    == old(self).pmem
            },
    {
        let handle: Handle = match self.remove_handle(p, value) {
            Ok(h) => h,
            Err(e) => {
                return Err(e);
            },
        };
        Ok(self.collect(handle.object))
    }

    /// Gives memory to every page of the range of `len` bytes at `offset`
    /// of the memory object known as `koid`.
    ///
    /// Fails with `BAD_HANDLE` when there is no such memory object, and
    /// otherwise as [`VmObject::commit`] does. A failed call changes
    /// nothing, and no call changes what any memory object holds.
    pub fn vmo_commit(&mut self, koid: KoID, offset: usize, len: usize) -> (r: ZxResult)
        requires
            old(self).wf(),
        ensures
            final(self).wf(),
            old(self).same_tasks(final(self)),
            final(self).koids == old(self).koids,
            final(self).objects@.len() == old(self).objects@.len(),
            r is Err ==> old(self).unchanged(final(self)),
            !has_object(old(self).objects@, koid, ObjectType::Vmo) ==> r == Err::<(), ZxError>(
                ZxError::BAD_HANDLE,
            ),
            forall|j: int|
                0 <= j < old(self).objects@.len() ==> obj_koid(#[trigger] final(self).objects@[j])
                    == obj_koid(old(self).objects@[j]) && obj_kind(final(self).objects@[j])
                    == obj_kind(old(self).objects@[j]),
            forall|i: int| #[trigger]
                is_obj(old(self).objects@, i, koid, ObjectType::Vmo) ==> {
                    &&& r == old(self).vmo_at(i).commit_result(
                        &old(self).pmem,
                        offset as int,
                        len as int,
                    )
                    &&& old(self).vmo_at(i).same_object(&final(self).vmo_at(i))
                    &&& final(self).vmo_at(i).size() == old(self).vmo_at(i).size()
                    &&& final(self).vmo_at(i).content(&final(self).pmem) == old(self).vmo_at(
                        i,
                    ).content(&old(self).pmem)
                    &&& r is Ok ==> forall|k: int|
                        offset as int / 4096 <= k < (offset + len) / 4096 ==> final(self).vmo_at(
                            i,
                        ).is_backed(k)
                },
            forall|j: int|
                0 <= j < old(self).objects@.len() && obj_koid(old(self).objects@[j]) != koid
                    ==> #[trigger] final(self).objects@[j] == old(self).objects@[j] && (old(self).objects@[j] matches KernelObject::Vmo(w) ==> w.content(&final(self).pmem)
                    == w.content(&old(self).pmem)),
    {
        let i: usize = match self.find_vmo(koid) {
            Some(i) => i,
            None => {
                return Err(ZxError::BAD_HANDLE);
            },
        };
        let r = match &mut self.objects[i] {
            KernelObject::Vmo(v) => v.commit(&mut self.pmem, offset, len),
            _ => Err(ZxError::BAD_HANDLE),
        };
        proof {
            if r is Err {
                assert(self.objects@ =~= old(self).objects@);
            }
            if r is Ok {
                lemma_objects_after_vmo_op(
                    old(self).objects@,
                    i as int,
                    self.objects@[i as int],
                    &old(self).pmem,
                    &self.pmem,
                    self.koids.next_koid(),
                );
                self.lemma_tasks_after_update(old(self), i as int);
            }
            assert forall|i2: int|
                is_obj(old(self).objects@, i2, koid, ObjectType::Vmo) implies i2 == i by {
                if i2 != i {
                    assert(obj_koid(old(self).objects@[i2]) != obj_koid(
                        old(self).objects@[i as int],
                    ));
                }
            }
            assert forall|j: int|
                0 <= j < old(self).objects@.len() && obj_koid(old(self).objects@[j])
                    != koid implies #[trigger] self.objects@[j] == old(self).objects@[j] && (old(self).objects@[j] matches KernelObject::Vmo(w) ==> w.content(&self.pmem) == w.content(
                &old(self).pmem,
            )) by {
                assert(self.objects@[j] == old(self).objects@[j]);
                if let KernelObject::Vmo(w) = old(self).objects@[j] {
                    if r is Ok {
                        w.lemma_untouched_by(&old(self).pmem, &self.pmem, koid);
                    }
                }
            }
        }
        r
    }

    /// Records with the bus transaction initiator at position `b` that the
    /// token `pmt` stands for memory pinned through it.
    pub fn bti_add_pmt(&mut self, b: usize, pmt: KoID)
        requires
            old(self).wf(),
            b < old(self).objects@.len(),
            old(self).objects@[b as int] is Bti,
        ensures
            final(self).wf(),
            old(self).same_tasks(final(self)),
            final(self).koids == old(self).koids,
            final(self).pmem == old(self).pmem,
            final(self).objects@.len() == old(self).objects@.len(),
            forall|j: int|
                0 <= j < old(self).objects@.len() && j != b ==> #[trigger] final(self).objects@[j]
                    == old(self).objects@[j],
            final(self).objects@[b as int] matches KernelObject::Bti(after) && old(self).objects@[b as int] matches KernelObject::Bti(before) && after.base == before.base
                && after.iommu == before.iommu && after.bti_id == before.bti_id && after.pmts@
                == before.pmts@.push(pmt),
    {
        match &mut self.objects[b] {
            KernelObject::Bti(bti) => {
                bti.pmts.push(pmt);
            },
            _ => {},
        }
        proof {
            let before = old(self).objects@;
            let now = self.objects@;
            lemma_has_after_update(before, b as int, now[b as int]);
            assert forall|j: int| 0 <= j < now.len() implies object_ok(#[trigger] now[j], &self.pmem)
                && obj_koid(now[j]) < self.koids.next_koid() && refs_ok(now, now[j]) by {
                assert(object_ok(before[j], &old(self).pmem));
                assert(refs_ok(before, before[j]));
                if j != b {
                    assert(now[j] == before[j]);
                }
            }
            assert forall|x: int, y: int|
                0 <= x < now.len() && 0 <= y < now.len() && x != y implies obj_koid(
                #[trigger] now[x],
            ) != obj_koid(#[trigger] now[y]) by {
                assert(obj_koid(now[x]) == obj_koid(before[x]));
                assert(obj_koid(now[y]) == obj_koid(before[y]));
            }
            self.lemma_tasks_after_update(old(self), b as int);
        }
    }

    /// Whether `after` is `self` with nothing changed but that every memory
    /// object has forgotten the first `n` mappings of `gone`.
    pub open spec fn forgot(&self, after: &Kernel, gone: Seq<VmMapping>, n: int) -> bool {
        &&& after.wf()
        &&& self.same_tasks(after)
        &&& after.koids == self.koids
        &&& after.pmem == self.pmem
        &&& after.objects@.len() == self.objects@.len()
        &&& forall|j: int|
            0 <= j < self.objects@.len() ==> match #[trigger] self.objects@[j] {
                KernelObject::Vmo(v) => after.objects@[j] matches KernelObject::Vmo(w) && {
                    &&& w.koid() == v.koid()
                    &&& w.name_spec() == v.name_spec()
                    &&& w.parent() == v.parent()
                    &&& w.is_resizable() == v.is_resizable()
                    &&& w.children_spec() == v.children_spec()
                    &&& w.inner() == v.inner()
                    &&& w.mappings_spec() == forgotten(v.mappings_spec(), gone, v.koid(), n)
                },
                _ => after.objects@[j] == self.objects@[j],
            }
    }

    /// Tells the memory objects that the mappings `gone` are gone: each
    /// memory object forgets one record for each of them that showed it.
    pub fn forget_mappings(&mut self, gone: &Vec<VmMapping>)
        requires
            old(self).wf(),
        ensures
            old(self).forgot(final(self), gone@, gone@.len() as int),
    {
        let mut n: usize = 0;
        while n < gone.len()
            invariant
                n <= gone.len(),
                old(self).wf(),
                old(self).forgot(self, gone@, n as int),
            decreases gone.len() - n,
        {
            let g: VmMapping = gone[n];
            let ghost start = *self;
            match self.find_vmo(g.vmo) {
                Some(i) => {
                    match &mut self.objects[i] {
                        KernelObject::Vmo(v) => {
                            v.remove_mapping(g.addr as u64);
                        },
                        _ => {},
                    }
                    proof {
                        lemma_objects_after_vmo_op(
                            start.objects@,
                            i as int,
                            self.objects@[i as int],
                            &start.pmem,
                            &self.pmem,
                            self.koids.next_koid(),
                        );
                        self.lemma_tasks_after_update(&start, i as int);
                        assert forall|j: int| 0 <= j < old(self).objects@.len() implies match
                            #[trigger] old(self).objects@[j] {
                            KernelObject::Vmo(v) => self.objects@[j] matches KernelObject::Vmo(w)
                                && {
                                &&& w.koid() == v.koid()
                                &&& w.name_spec() == v.name_spec()
                                &&& w.parent() == v.parent()
                                &&& w.is_resizable() == v.is_resizable()
                                &&& w.children_spec() == v.children_spec()
                                &&& w.inner() == v.inner()
                                &&& w.mappings_spec() == forgotten(
                                    v.mappings_spec(),
                                    gone@,
                                    v.koid(),
                                    n + 1,
                                )
                            },
                            _ => self.objects@[j] == old(self).objects@[j],
                        } by {
                            if j != i {
                                assert(self.objects@[j] == start.objects@[j]);
                                assert(obj_koid(start.objects@[j]) != obj_koid(
                                    start.objects@[i as int],
                                ));
                            }
                        }
                    }
                },
                None => {
                    proof {
                        assert forall|j: int| 0 <= j < old(self).objects@.len() implies match
                            #[trigger] old(self).objects@[j] {
                            KernelObject::Vmo(v) => self.objects@[j] matches KernelObject::Vmo(w)
                                && {
                                &&& w.koid() == v.koid()
                                &&& w.name_spec() == v.name_spec()
                                &&& w.parent() == v.parent()
                                &&& w.is_resizable() == v.is_resizable()
                                &&& w.children_spec() == v.children_spec()
                                &&& w.inner() == v.inner()
                                &&& w.mappings_spec() == forgotten(
                                    v.mappings_spec(),
                                    gone@,
                                    v.koid(),
                                    n + 1,
                                )
                            },
                            _ => self.objects@[j] == old(self).objects@[j],
                        } by {
                            if let KernelObject::Vmo(v) = old(self).objects@[j] {
                                assert(self.objects@[j] is Vmo);
                                if v.koid() == g.vmo {
                                    assert(is_obj(start.objects@, j, g.vmo, ObjectType::Vmo));
                                }
                            }
                        }
                    }
                },
            }
            n += 1;
        }
    }

    /// Clears a range of region `vmar` of the address space of process `p`;
    /// see [`crate::vm::vmar::AddressSpace::unmap`], whose result this is.
    /// Returns the mappings, or parts of mappings, that went.
    ///
    /// Fails with `INVALID_ARGS` when there is no process `p`. A failed
    /// call changes nothing.
    pub fn vmar_unmap(&mut self, p: usize, vmar: usize, vaddr_offset: usize, len: usize) -> (r:
        ZxResult<Vec<VmMapping>>)
        requires
            old(self).wf(),
        ensures
            final(self).wf(),
            old(self).only_process_changed(final(self), p as int),
            p >= old(self).processes@.len() ==> (r matches Err(e) && e == ZxError::INVALID_ARGS),
            r is Err ==> old(self).unchanged(final(self)),
            p < old(self).processes@.len() ==> {
                let before = old(self).processes@[p as int];
                let after = final(self).processes@[p as int];
                let begin = before.vmar.nodes()[vmar as int].addr + vaddr_offset;
                let marks = before.vmar.swept_marks(vmar as int, begin, begin + len);
                &&& after.base == before.base
                &&& after.handles == before.handles
                &&& after.threads == before.threads
                &&& after.status == before.status
                &&& r matches Err(e) ==> before.vmar.unmap_result(
                    vmar as int,
                    vaddr_offset as int,
                    len as int,
                ) == Err::<(), ZxError>(e)
                &&& r matches Ok(gone) ==> {
                    &&& before.vmar.unmap_result(vmar as int, vaddr_offset as int, len as int) is Ok
                    &&& after.vmar.nodes() == crate::vm::vmar::killed(before.vmar.nodes(), marks)
                    &&& after.vmar.maps() == crate::vm::vmar::cut_all(
                        before.vmar.maps(),
                        marks,
                        vmar as int,
                        begin,
                        begin + len,
                        before.vmar.maps().len() as int,
                    )
                    &&& gone@ == crate::vm::vmar::gone_all(
                        before.vmar.maps(),
                        marks,
                        vmar as int,
                        begin,
                        begin + len,
                        before.vmar.maps().len() as int,
                    )
                }
            },
    {
        if p >= self.processes.len() {
            return Err(ZxError::INVALID_ARGS);
        }
        proof {
            assert(process_ok(self.objects@, self.processes@[p as int]));
        }
        let r = self.processes[p].vmar.unmap(vmar, vaddr_offset, len);
        proof {
            if r is Err {
                assert(self.processes@ =~= old(self).processes@);
            }
            assert forall|q: int| 0 <= q < self.processes@.len() implies process_ok(
                self.objects@,
                #[trigger] self.processes@[q],
            ) by {
                assert(process_ok(old(self).objects@, old(self).processes@[q]));
                if q == p && r is Ok {
                    let before = old(self).processes@[p as int].vmar;
                    let after = self.processes@[p as int].vmar.maps();
                    let begin = before.nodes()[vmar as int].addr + vaddr_offset;
                    let marks = before.swept_marks(vmar as int, begin, begin + len);
                    before.lemma_parts_ok();
                    assert(before.node_ok(vmar as int));
                    before.lemma_maps_apart();
                    crate::vm::vmar::lemma_cut_all(
                        before.maps(),
                        marks,
                        vmar as int,
                        begin,
                        begin + len,
                        before.maps().len() as int,
                    );
                    assert forall|k: int| 0 <= k < after.len() implies has_object(
                        self.objects@,
                        (#[trigger] after[k]).vmo,
                        ObjectType::Vmo,
                    ) by {
                        assert(crate::vm::vmar::covered_by(
                            after[k],
                            before.maps(),
                            marks,
                            vmar as int,
                            begin,
                            begin + len,
                            before.maps().len() as int,
                        ));
                        let k0 = choose|k0: int|
                            0 <= k0 < before.maps().len() && !marks[before.maps()[k0].vmar as int]
                                && #[trigger] crate::vm::vmar::part_of(
                                after[k],
                                before.maps()[k0],
                                vmar as int,
                                begin,
                                begin + len,
                            );
                        assert(after[k].vmo == before.maps()[k0].vmo);
                    }
                }
            }
        }
        r
    }

    /// The entries to put into the page table for mapping `k` of process
    /// `p`: one for each page of the mapping behind which the memory object
    /// has memory now. The other pages get theirs when they are first
    /// touched; see [`Kernel::page_fault`].
    pub fn resident_entries(&self, p: usize, k: usize) -> (r: Vec<PageEntry>)
        requires
            self.wf(),
            p < self.processes@.len(),
            k < self.processes@[p as int].vmar.maps().len(),
        ensures
            forall|i: int| #[trigger]
                is_obj(
                    self.objects@,
                    i,
                    self.processes@[p as int].vmar.maps()[k as int].vmo,
                    ObjectType::Vmo,
                ) ==> r@ == entries_of(
                    self.processes@[p as int].vmar.maps()[k as int],
                    self.vmo_at(i),
                    self.processes@[p as int].vmar.maps()[k as int].size as int / 4096,
                ),
    {
        proof {
            assert(process_ok(self.objects@, self.processes@[p as int]));
            self.processes@[p as int].vmar.lemma_parts_ok();
            assert(self.processes@[p as int].vmar.map_ok(k as int));
        }
        let m: VmMapping = self.processes[p].vmar.mapping(k);
        let i: usize = match self.find_vmo(m.vmo) {
            Some(i) => i,
            None => {
                return Vec::new();
            },
        };
        proof {
            assert forall|i2: int| is_obj(self.objects@, i2, m.vmo, ObjectType::Vmo) implies i2
                == i by {
                if i2 != i {
                    assert(obj_koid(self.objects@[i2]) != obj_koid(self.objects@[i as int]));
                }
            }
            assert(object_ok(self.objects@[i as int], &self.pmem));
        }
        let pages: usize = m.size / 4096;
        let first: usize = m.vmo_offset / 4096;
        let mut out: Vec<PageEntry> = Vec::new();
        let mut n: usize = 0;
        while n < pages
            invariant
                n <= pages,
                pages == m.size / 4096,
                first == m.vmo_offset / 4096,
                m.addr + m.size <= usize::MAX,
                m.vmo_offset + m.size <= usize::MAX,
                i < self.objects@.len(),
                self.objects@[i as int] is Vmo,
                self.vmo_at(i as int).wf(&self.pmem),
                out@ == entries_of(m, self.vmo_at(i as int), n as int),
            decreases pages - n,
        {
            let paddr: Option<PhysAddr> = match &self.objects[i] {
                KernelObject::Vmo(v) => v.page_addr(&self.pmem, first + n),
                _ => None,
            };
            if let Some(paddr) = paddr {
                out.push(PageEntry { vaddr: m.addr + n * 4096, paddr, flags: m.flags });
            }
            n += 1;
        }
        out
    }

    /// Whether mapping `k` of process `p` is the first that shows the
    /// address `vaddr`.
    pub open spec fn first_cover(&self, p: int, k: int, vaddr: int) -> bool {
        self.processes@[p].vmar.covers(k, vaddr) && forall|j: int|
            0 <= j < k ==> !#[trigger] self.processes@[p].vmar.covers(j, vaddr)
    }

    /// Whether `after` is `self` after the fault at `vaddr`, which the
    /// mapping `m` of the memory object at position `i` shows, was answered
    /// with the result `r`.
    pub open spec fn faulted(
        &self,
        after: &Kernel,
        m: VmMapping,
        i: int,
        vaddr: int,
        access: u32,
        r: ZxResult<PageEntry>,
    ) -> bool {
        let idx = (m.vmo_offset + (vaddr - m.addr)) / 4096;
        let decided = Kernel::fault_result(m, self.vmo_at(i), &self.pmem, vaddr, access);
        &&& r is Ok <==> decided is Ok
        &&& r matches Err(e) ==> decided == Err::<(), ZxError>(e)
        &&& r matches Ok(entry) ==> {
            &&& entry.vaddr == (vaddr / 4096) * 4096
            &&& entry.flags == m.flags
            &&& after.objects@[i] is Vmo
            &&& after.vmo_at(i).is_backed(idx)
            &&& entry.paddr == after.vmo_at(i).backing(idx)
            &&& self.vmo_at(i).is_backed(idx) ==> entry.paddr == self.vmo_at(i).backing(idx)
        }
    }

    /// What [`Kernel::page_fault`] comes to for a memory object `vmo`
    /// shown by the mapping `m`.
    pub open spec fn fault_result(
        m: VmMapping,
        vmo: VmObject,
        pmem: &PhysMemory,
        vaddr: int,
        access: u32,
    ) -> ZxResult {
        let idx = (m.vmo_offset + (vaddr - m.addr)) / 4096;
        if !m.flags.contains_spec(access) {
            Err(ZxError::ACCESS_DENIED)
        } else if idx * 4096 >= vmo.size() {
            Err(ZxError::INVALID_ARGS)
        } else if !vmo.is_backed(idx) && pmem.free_frames() == 0 {
            Err(ZxError::NO_MEMORY)
        } else {
            Ok(())
        }
    }

    /// Answers a fault of process `p` at the address `vaddr` on an access
    /// that needs the permissions of the mask `access`: makes sure the page
    /// of the memory object that the address shows has memory behind it,
    /// and returns the entry to put into the page table.
    ///
    /// Fails with `INVALID_ARGS` when there is no process `p`, no mapping
    /// of the process shows the address, or the memory object has no such
    /// page any more; with `ACCESS_DENIED` when the mapping does not permit
    /// the access; with `NO_MEMORY` when the page needs a frame and none is
    /// free. A failed call changes nothing, and no call changes what any
    /// memory object holds.
    pub fn page_fault(&mut self, p: usize, vaddr: VirtAddr, access: u32) -> (r: ZxResult<PageEntry>)
        requires
            old(self).wf(),
        ensures
            final(self).wf(),
            old(self).same_tasks(final(self)),
            final(self).koids == old(self).koids,
            final(self).objects@.len() == old(self).objects@.len(),
            r is Err ==> old(self).unchanged(final(self)),
            p >= old(self).processes@.len() || (forall|k: int|
                !#[trigger] old(self).processes@[p as int].vmar.covers(k, vaddr as int)) ==> (
            r matches Err(e) && e == ZxError::INVALID_ARGS),
            forall|k: int, i: int|
                p < old(self).processes@.len() && #[trigger] old(self).first_cover(
                    p as int,
                    k,
                    vaddr as int,
                ) && #[trigger] is_obj(
                    old(self).objects@,
                    i,
                    old(self).processes@[p as int].vmar.maps()[k].vmo,
                    ObjectType::Vmo,
                ) ==> old(self).faulted(
                    final(self),
                    old(self).processes@[p as int].vmar.maps()[k],
                    i,
                    vaddr as int,
                    access,
                    r,
                ),
            forall|j: int|
                0 <= j < old(self).objects@.len() ==> (#[trigger] old(self).objects@[j] matches KernelObject::Vmo(w) ==> final(self).objects@[j] is Vmo
                    && final(self).vmo_at(j).content(&final(self).pmem) == w.content(
                    &old(self).pmem,
                )),
    {
        if p >= self.processes.len() {
            proof {
                assert forall|j: int| 0 <= j < self.objects@.len() implies (
                #[trigger] self.objects@[j] matches KernelObject::Vmo(w) ==> self.objects@[j] is Vmo
                    && self.vmo_at(j).content(&self.pmem) == w.content(&self.pmem)) by {}
            }
            return Err(ZxError::INVALID_ARGS);
        }
        proof {
            assert(process_ok(self.objects@, self.processes@[p as int]));
            self.processes@[p as int].vmar.lemma_parts_ok();
        }
        let k: usize = match self.processes[p].vmar.find_mapping(vaddr) {
            Some(k) => k,
            None => {
                return Err(ZxError::INVALID_ARGS);
            },
        };
        let m: VmMapping = self.processes[p].vmar.mapping(k);
        proof {
            let space = self.processes@[p as int].vmar;
            assert(space.map_ok(k as int));
            assert forall|k2: int| #[trigger] self.first_cover(p as int, k2, vaddr as int) implies k2
                == k by {
                if k2 < k {
                    assert(!space.covers(k2, vaddr as int));
                }
                if k < k2 {
                    assert(space.covers(k as int, vaddr as int));
                }
            }
        }
        let i: usize = match self.find_vmo(m.vmo) {
            Some(i) => i,
            None => {
                return Err(ZxError::INVALID_ARGS);
            },
        };
        proof {
            assert forall|i2: int| is_obj(self.objects@, i2, m.vmo, ObjectType::Vmo) implies i2
                == i by {
                if i2 != i {
                    assert(obj_koid(self.objects@[i2]) != obj_koid(self.objects@[i as int]));
                }
            }
        }
        if !m.flags.contains(access) {
            return Err(ZxError::ACCESS_DENIED);
        }
        let idx: usize = (m.vmo_offset + (vaddr - m.addr)) / 4096;
        let r = match &mut self.objects[i] {
            KernelObject::Vmo(v) => v.commit_page(&mut self.pmem, idx),
            _ => Err(ZxError::INVALID_ARGS),
        };
        proof {
            if r is Err {
                assert(self.objects@ =~= old(self).objects@);
            } else {
                lemma_objects_after_vmo_op(
                    old(self).objects@,
                    i as int,
                    self.objects@[i as int],
                    &old(self).pmem,
                    &self.pmem,
                    self.koids.next_koid(),
                );
                self.lemma_tasks_after_update(old(self), i as int);
            }
            assert forall|j: int| 0 <= j < old(self).objects@.len() implies (#[trigger] old(self).objects@[j] matches KernelObject::Vmo(w) ==> self.objects@[j] is Vmo
                && self.vmo_at(j).content(&self.pmem) == w.content(&old(self).pmem)) by {
                if let KernelObject::Vmo(w) = old(self).objects@[j] {
                    if j != i {
                        assert(self.objects@[j] == old(self).objects@[j]);
                        assert(obj_koid(old(self).objects@[j]) != obj_koid(
                            old(self).objects@[i as int],
                        ));
                        if r is Ok {
                            w.lemma_untouched_by(&old(self).pmem, &self.pmem, m.vmo);
                        }
                    }
                }
            }
        }
        let out: ZxResult<PageEntry> = match r {
            Ok(paddr) => Ok(PageEntry { vaddr: vaddr / 4096 * 4096, paddr, flags: m.flags }),
            Err(e) => Err(e),
        };
        proof {
            assert(old(self).faulted(self, m, i as int, vaddr as int, access, out));
        }
        out
    }
}

} // verus!
