//! The loader: places an ELF image into the address space of a new process
//! and prepares the process's entry.
use vstd::prelude::*;
use crate::error::{ZxError, ZxResult};
use crate::kernel::{
    has_object, is_obj, obj_kind, obj_koid, process_shows, Kernel, KernelObject,
};
use crate::loader::abi::{
    le_byte, stack_image, words_bytes, AuxEntry, InitStack, ProcInitInfo, AT_BASE, AT_PAGESZ,
    AT_PHDR, AT_PHENT, AT_PHNUM,
};
use crate::loader::elf::{
    has_load, max_load_pages, ElfExt, ElfFile, LoadError, Patch, ProgramHeader, SegmentType,
};
use crate::object::handle::ObjectType;
use crate::object::KoID;
use crate::task::{Status, ThreadRegs, ThreadState};
use crate::vm::vmar::{disjoint, flags_within, VmMapping};
use crate::vm::vmo::paged::{end_touched, first_touched, written};
use crate::vm::{pages_spec, MMUFlags, PAGE_SIZE};

pub mod abi;
pub mod elf;
pub mod flags;

verus! {

/// Size of the buffer that holds the initial stack.
pub const STACK_SIZE: u64 = 0x8000;

/// The eight bytes of `w`, lowest first.
pub fn word_bytes(w: u64) -> (bytes: Vec<u8>)
    ensures
        bytes@ == words_bytes(seq![w]),
        bytes@.len() == 8,
{
    let mut bytes: Vec<u8> = Vec::new();
    let mut k: u64 = 0;
    while k < 8
        invariant
            k <= 8,
            bytes@.len() == k,
            forall|i: int| 0 <= i < k ==> #[trigger] bytes@[i] == le_byte(w, i as u64),
        decreases 8 - k,
    {
        let shifted: u64 = (w >> (8 * k)) & 0xff;
        proof {
            assert((w >> (8 * k)) & 0xff <= 0xff) by (bit_vector);
        }
        bytes.push(shifted as u8);
        k += 1;
    }
    proof {
        assert(bytes@ =~= words_bytes(seq![w]));
    }
    bytes
}

/// Offset of the segment `ph` in its first page.
pub open spec fn page_offset_of(ph: ProgramHeader) -> int {
    ph.virtual_addr as int % 4096
}

/// Number of pages that the segment `ph` takes.
pub open spec fn segment_pages(ph: ProgramHeader) -> int {
    pages_spec(ph.mem_size + page_offset_of(ph))
}

/// What the memory object of the segment `ph` holds: the segment's bytes at
/// its offset in the first page, and zeroes around them.
pub open spec fn segment_content(ph: ProgramHeader) -> Seq<u8> {
    written(
        Seq::new((segment_pages(ph) * 4096) as nat, |i: int| 0u8),
        page_offset_of(ph),
        ph.data->Some_0@,
    )
}

/// Whether a memory object can be made for the segment `ph`: the segment has
/// plain bytes, and they fit in the pages that the segment takes.
pub open spec fn segment_ok(ph: ProgramHeader) -> bool {
    &&& ph.data is Some
    &&& segment_pages(ph) * 4096 <= usize::MAX
    &&& page_offset_of(ph) + ph.data->Some_0@.len() <= segment_pages(ph) * 4096
}

/// Number of frames that the bytes of the segment `ph` take.
pub open spec fn segment_frames(ph: ProgramHeader) -> int {
    end_touched(page_offset_of(ph), ph.data->Some_0@.len() as int) - first_touched(
        page_offset_of(ph),
        ph.data->Some_0@.len() as int,
    )
}

/// Whether object `j` of `k` is a memory object whose page `page` has
/// memory behind it.
pub open spec fn backed_at(k: &Kernel, j: int, page: int) -> bool {
    k.objects@[j] is Vmo && k.vmo_at(j).is_backed(page)
}

/// Whether the bytes of the segment `ph` touch page `page` of the
/// segment's memory object.
pub open spec fn data_touched(ph: ProgramHeader, page: int) -> bool {
    first_touched(page_offset_of(ph), ph.data->Some_0@.len() as int) <= page < end_touched(
        page_offset_of(ph),
        ph.data->Some_0@.len() as int,
    )
}

/// Whether object `j` of `now` has memory behind exactly the pages that
/// the bytes of the segment `ph` touch.
pub open spec fn data_backed(now: &Kernel, j: int, ph: ProgramHeader) -> bool {
    forall|page: int| #[trigger] backed_at(now, j, page) <==> data_touched(ph, page)
}

/// Whether `after` is `before` with one more object, known as `koid`: the
/// memory object of the segment `ph`, not mapped anywhere yet, for which
/// [`segment_frames`] frames were taken from memory: one for each page that
/// the segment's bytes touch.
pub open spec fn segment_made(before: &Kernel, after: &Kernel, ph: ProgramHeader, koid: KoID)
    -> bool {
    let n = before.objects@.len() as int;
    &&& segment_ok(ph)
    &&& koid == before.koids.next_koid()
    &&& after.koids.next_koid() == koid + 1
    &&& after.objects@.len() == n + 1
    &&& is_obj(after.objects@, n, koid, ObjectType::Vmo)
    &&& after.vmo_at(n).inner() is Paged
    &&& after.vmo_at(n).size() == segment_pages(ph) * 4096
    &&& after.vmo_at(n).mappings_spec().len() == 0
    &&& after.vmo_at(n).content(&after.pmem) == segment_content(ph)
    &&& after.pmem.free_frames() + segment_frames(ph) == before.pmem.free_frames()
    &&& data_backed(after, n, ph)
    &&& forall|j: int|
        0 <= j < n ==> #[trigger] after.objects@[j] == before.objects@[j] && (
        before.objects@[j] matches KernelObject::Vmo(w) ==> w.content(&after.pmem) == w.content(
            &before.pmem,
        ))
}

/// Makes the memory object of the segment `ph`, which is to be loaded: as
/// many pages as the segment takes from the start of its first page, with
/// the segment's bytes at the segment's offset in that page. Returns the
/// object's identifier.
///
/// Fails with `INVALID_ARGS` unless [`segment_ok`], with `NO_MEMORY` when
/// identifiers or frames run out. A failed call changes nothing.
pub fn make_vmo(kernel: &mut Kernel, ph: &ProgramHeader) -> (r: ZxResult<KoID>)
    requires
        old(kernel).wf(),
        ph.type_ == SegmentType::Load,
    ensures
        final(kernel).wf(),
        old(kernel).same_tasks(final(kernel)),
        !segment_ok(*ph) ==> r == Err::<KoID, ZxError>(ZxError::INVALID_ARGS),
        r is Ok <==> segment_ok(*ph) && old(kernel).koids.next_koid() < u64::MAX && segment_frames(
            *ph,
        ) <= old(kernel).pmem.free_frames(),
        r matches Err(e) ==> old(kernel).unchanged_but_koids(final(kernel)) && e == if segment_ok(
            *ph,
        ) {
            ZxError::NO_MEMORY
        } else {
            ZxError::INVALID_ARGS
        },
        r matches Ok(koid) ==> segment_made(old(kernel), final(kernel), *ph, koid),
{
    let page_offset: usize = (ph.virtual_addr % 4096) as usize;
    let span: u128 = ph.mem_size as u128 + page_offset as u128;
    let count: u128 = (span + 4095) / 4096;
    if count > (usize::MAX / PAGE_SIZE) as u128 {
        return Err(ZxError::INVALID_ARGS);
    }
    let pages: usize = count as usize;
    let data: &Vec<u8> = match &ph.data {
        Some(d) => d,
        None => {
            return Err(ZxError::INVALID_ARGS);
        },
    };
    if data.len() > pages * PAGE_SIZE - page_offset {
        return Err(ZxError::INVALID_ARGS);
    }
    let koid: KoID = match kernel.create_vmo(pages, false) {
        Ok(k) => k,
        Err(e) => {
            return Err(e);
        },
    };
    let ghost mid = *kernel;
    let ghost n = old(kernel).objects@.len() as int;
    proof {
        assert(is_obj(mid.objects@, n, koid, ObjectType::Vmo));
        assert forall|j: int| 0 <= j < n implies mid.objects@[j] == old(kernel).objects@[j] by {
            assert(mid.objects@.subrange(0, n)[j] == old(kernel).objects@[j]);
        }
    }
    let wrote = kernel.vmo_write(koid, page_offset, data.as_slice());
    let ghost after_write = *kernel;
    proof {
        assert(is_obj(mid.objects@, n, koid, ObjectType::Vmo));
        if let crate::vm::vmo::VmoInner::Paged(pg) = mid.vmo_at(n).inner() {
            let lo = first_touched(page_offset as int, data@.len() as int);
            let hi = end_touched(page_offset as int, data@.len() as int);
            assert(0 <= lo <= hi <= pg.page_count());
            assert forall|i: int| 0 <= i < hi - lo implies pg.frame_table().subrange(lo, hi)[i]
                is None by {
                assert(!mid.vmo_at(n).is_backed(lo + i));
            }
            crate::vm::vmo::paged::lemma_count_none_all(pg.frame_table().subrange(lo, hi));
            assert(pg.uncommitted_in(lo, hi) == hi - lo);
        }
        assert forall|j: int| 0 <= j < n implies #[trigger] after_write.objects@[j] == old(kernel).objects@[j] && (old(kernel).objects@[j] matches KernelObject::Vmo(w) ==> w.content(
            &after_write.pmem,
        ) == w.content(&old(kernel).pmem)) by {
            assert(obj_koid(mid.objects@[j]) != obj_koid(mid.objects@[n]));
            assert(after_write.objects@[j] == mid.objects@[j]);
        }
    }
    match wrote {
        Ok(()) => {
            proof {
                assert(mid.vmo_at(n).content(&mid.pmem) =~= Seq::new(
                    (segment_pages(*ph) * 4096) as nat,
                    |i: int| 0u8,
                ));
                assert(after_write.vmo_at(n).content(&after_write.pmem) == segment_content(*ph));
                assert(after_write.vmo_at(n).size() == segment_pages(*ph) * 4096);
                assert(mid.vmo_at(n).touched(&after_write.vmo_at(n), page_offset as int, data@.len() as int));
                assert forall|page: int| #[trigger]
                    backed_at(&after_write, n, page) <==> data_touched(*ph, page) by {
                    if 0 <= page < pages {
                        assert(!mid.vmo_at(n).is_backed(page));
                    }
                    assert(after_write.objects@[n] is Vmo);
                    assert(first_touched(page_offset as int, data@.len() as int) >= 0);
                    assert(end_touched(page_offset as int, data@.len() as int) <= pages);
                }
                assert(data_backed(&after_write, n, *ph));
                assert(after_write.pmem.free_frames() + segment_frames(*ph) == old(kernel).pmem.free_frames());
                assert(after_write.koids.next_koid() == koid + 1);
                assert forall|j: int| 0 <= j < n implies #[trigger] final(kernel).objects@[j]
                    == old(kernel).objects@[j] && (old(kernel).objects@[j] matches KernelObject::Vmo(w) ==> w.content(&final(kernel).pmem)
                    == w.content(&old(kernel).pmem)) by {
                    assert(after_write.objects@[j] == old(kernel).objects@[j]);
                }
                assert(segment_made(old(kernel), final(kernel), *ph, koid));
            }
            Ok(koid)
        },
        Err(e) => {
            proof {
                assert(!mid.referenced(koid)) by {
                    assert forall|p: int| 0 <= p < mid.processes@.len() implies !crate::kernel::process_refers(
                        #[trigger] mid.processes@[p],
                        koid,
                    ) by {
                        lemma_fresh_unreferenced(old(kernel), p, koid);
                    }
                    assert forall|j: int| 0 <= j < mid.objects@.len() implies !crate::kernel::refers_to(
                        #[trigger] mid.objects@[j],
                        koid,
                    ) by {
                        if j < n {
                            lemma_fresh_unreferred(old(kernel), j, koid);
                        }
                    }
                }
                assert(after_write.objects@ == mid.objects@);
                assert(after_write.processes@ == mid.processes@);
            }
            let done = kernel.collect(koid);
            proof {
                assert(after_write.referenced(koid) == mid.referenced(koid));
                assert(done);
                let i = choose|i: int|
                    0 <= i < mid.objects@.len() && obj_koid(#[trigger] mid.objects@[i]) == koid
                        && final(kernel).objects@ == mid.objects@.remove(i);
                assert(i == n) by {
                    if i != n {
                        assert(obj_koid(mid.objects@[i]) != obj_koid(mid.objects@[n]));
                    }
                }
                assert(final(kernel).objects@ =~= old(kernel).objects@);
                assert forall|j: int| 0 <= j < n implies (#[trigger] old(kernel).objects@[j] matches KernelObject::Vmo(w) ==> w.content(&final(kernel).pmem)
                    == w.content(&old(kernel).pmem)) by {
                    if let KernelObject::Vmo(w) = old(kernel).objects@[j] {
                        assert(obj_koid(mid.objects@[j]) != obj_koid(mid.objects@[n]));
                        w.lemma_untouched_by(&after_write.pmem, &final(kernel).pmem, koid);
                    }
                }
            }
            Err(e)
        },
    }
}

/// No handle and no mapping of a sound kernel refers to an identifier that
/// the allocator has not emitted yet.
pub proof fn lemma_fresh_unreferenced(kernel: &Kernel, p: int, koid: KoID)
    requires
        kernel.wf(),
        0 <= p < kernel.processes@.len(),
        koid >= kernel.koids.next_koid(),
    ensures
        !crate::kernel::process_refers(kernel.processes@[p], koid),
{
    let proc = kernel.processes@[p];
    assert(crate::kernel::process_ok(kernel.objects@, proc));
    assert forall|i: int| 0 <= i < proc.handles.entries().len() implies (
    #[trigger] proc.handles.entries()[i]).handle.object != koid by {
        let e = proc.handles.entries()[i];
        let j = choose|j: int| #[trigger] is_obj(kernel.objects@, j, e.handle.object, e.handle.kind);
        assert(obj_koid(kernel.objects@[j]) < kernel.koids.next_koid());
    }
    assert forall|k: int| 0 <= k < proc.vmar.maps().len() implies (
    #[trigger] proc.vmar.maps()[k]).vmo != koid by {
        let m = proc.vmar.maps()[k];
        let j = choose|j: int| #[trigger] is_obj(kernel.objects@, j, m.vmo, ObjectType::Vmo);
        assert(obj_koid(kernel.objects@[j]) < kernel.koids.next_koid());
    }
}

/// No object of a sound kernel refers to an identifier that the allocator
/// has not emitted yet.
pub proof fn lemma_fresh_unreferred(kernel: &Kernel, j: int, koid: KoID)
    requires
        kernel.wf(),
        0 <= j < kernel.objects@.len(),
        koid >= kernel.koids.next_koid(),
    ensures
        !crate::kernel::refers_to(kernel.objects@[j], koid),
{
    let objs = kernel.objects@;
    assert(crate::kernel::refs_ok(objs, objs[j]));
    match objs[j] {
        KernelObject::Bti(b) => {
            let i = choose|i: int| #[trigger] is_obj(objs, i, b.iommu, ObjectType::Iommu);
            assert(obj_koid(objs[i]) < kernel.koids.next_koid());
        },
        KernelObject::Pmt(t) => {
            let i = choose|i: int| #[trigger] is_obj(objs, i, t.vmo, ObjectType::Vmo);
            assert(obj_koid(objs[i]) < kernel.koids.next_koid());
            let i2 = choose|i2: int| #[trigger] is_obj(objs, i2, t.bti, ObjectType::Bti);
            assert(obj_koid(objs[i2]) < kernel.koids.next_koid());
        },
        _ => {},
    }
}

/// The segments to load among the first `n` of `phs`, in their order.
pub open spec fn loads(phs: Seq<ProgramHeader>, n: int) -> Seq<ProgramHeader>
    decreases n,
{
    if n <= 0 {
        Seq::empty()
    } else if phs[n - 1].type_ == SegmentType::Load {
        loads(phs, n - 1).push(phs[n - 1])
    } else {
        loads(phs, n - 1)
    }
}

/// First address of the page in which the segment `ph` starts.
pub open spec fn page_base_of(ph: ProgramHeader) -> int {
    (ph.virtual_addr as int / 4096) * 4096
}

/// Whether the eight bytes at the address `v` of the image lie in the pages
/// that the segment `ph` takes.
pub open spec fn holds_word(ph: ProgramHeader, v: int) -> bool {
    page_base_of(ph) <= v && v + 8 <= page_base_of(ph) + segment_pages(ph) * 4096
}

/// Where the eight bytes at the address `v` of the image are kept, going by
/// the first `n` of `phs`: in the first segment to load that holds them.
/// The answer is the segment's number among the segments to load, and the
/// offset of the bytes in the segment's memory object.
pub open spec fn word_place(phs: Seq<ProgramHeader>, v: int, n: int) -> Option<(int, int)>
    decreases n,
{
    if n <= 0 {
        None
    } else {
        match word_place(phs, v, n - 1) {
            Some(at) => Some(at),
            None => if phs[n - 1].type_ == SegmentType::Load && holds_word(phs[n - 1], v) {
                Some((loads(phs, n - 1).len() as int, v - page_base_of(phs[n - 1])))
            } else {
                None
            },
        }
    }
}

/// The segments to load among the first `n` headers stay where they are
/// when more headers are looked at.
pub proof fn lemma_loads_prefix(phs: Seq<ProgramHeader>, n: int, m: int, j: int)
    requires
        0 <= n <= m <= phs.len(),
        0 <= j < loads(phs, n).len(),
    ensures
        loads(phs, n).len() <= loads(phs, m).len(),
        loads(phs, m)[j] == loads(phs, n)[j],
    decreases m - n,
{
    if n < m {
        lemma_loads_prefix(phs, n, m - 1, j);
    }
}

/// The place that [`word_place`] gives is in one of the segments to load,
/// and that segment holds the bytes.
pub proof fn lemma_word_place(phs: Seq<ProgramHeader>, v: int, n: int)
    requires
        0 <= n <= phs.len(),
        word_place(phs, v, n) is Some,
    ensures
        ({
            let at = word_place(phs, v, n)->Some_0;
            let segs = loads(phs, phs.len() as int);
            &&& 0 <= at.0 < loads(phs, n).len() <= segs.len()
            &&& holds_word(segs[at.0], v)
            &&& at.1 == v - page_base_of(segs[at.0])
            &&& 0 <= at.1
            &&& at.1 + 8 <= segment_pages(segs[at.0]) * 4096
        }),
    decreases n,
{
    if word_place(phs, v, n - 1) is Some {
        lemma_word_place(phs, v, n - 1);
        let at = word_place(phs, v, n - 1)->Some_0;
        assert(word_place(phs, v, n) == Some(at));
        lemma_loads_prefix(phs, n - 1, n, at.0);
        lemma_loads_prefix(phs, n, phs.len() as int, at.0);
    } else {
        let j = loads(phs, n - 1).len() as int;
        assert(phs[n - 1].type_ == SegmentType::Load && holds_word(phs[n - 1], v));
        assert(word_place(phs, v, n) == Some((j, v - page_base_of(phs[n - 1]))));
        assert(loads(phs, n) == loads(phs, n - 1).push(phs[n - 1]));
        assert(loads(phs, n)[j] == phs[n - 1]);
        lemma_loads_prefix(phs, n, phs.len() as int, j);
    }
}

/// Finds where the eight bytes at the address `v` of the image are kept:
/// the number, among the segments to load, of the first one that holds
/// them, and their offset in that segment's memory object.
pub fn locate_word(elf: &ElfFile, v: u64) -> (r: Option<(usize, u64)>)
    ensures
        r is Some <==> word_place(elf.program_headers@, v as int, elf.program_headers@.len() as int)
            is Some,
        r matches Some(at) ==> word_place(
            elf.program_headers@,
            v as int,
            elf.program_headers@.len() as int,
        ) == Some((at.0 as int, at.1 as int)),
{
    let ghost phs = elf.program_headers@;
    let mut count: usize = 0;
    let mut i: usize = 0;
    while i < elf.program_headers.len()
        invariant
            i <= elf.program_headers.len(),
            phs == elf.program_headers@,
            count == loads(phs, i as int).len(),
            count <= i,
            word_place(phs, v as int, i as int) is None,
        decreases elf.program_headers.len() - i,
    {
        let ph = &elf.program_headers[i];
        if ph.type_ == SegmentType::Load {
            let start: u64 = ph.virtual_addr / 4096 * 4096;
            let span: u128 = (ph.mem_size as u128 + (ph.virtual_addr % 4096) as u128 + 4095) / 4096
                * 4096;
            if start <= v && v as u128 + 8 <= start as u128 + span {
                proof {
                    assert(word_place(phs, v as int, i + 1) == Some(
                        (count as int, v as int - page_base_of(phs[i as int])),
                    ));
                    lemma_word_found(phs, v as int, i + 1, phs.len() as int);
                }
                return Some((count, v - start));
            }
            count += 1;
        }
        i += 1;
    }
    None
}

/// A place once found stays the place when more headers are looked at.
pub proof fn lemma_word_found(phs: Seq<ProgramHeader>, v: int, n: int, m: int)
    requires
        0 <= n <= m <= phs.len(),
        word_place(phs, v, n) is Some,
    ensures
        word_place(phs, v, m) == word_place(phs, v, n),
    decreases m - n,
{
    if n < m {
        lemma_word_found(phs, v, n, m - 1);
    }
}

/// The mapping of the segment `ph` in region `vmar`, which starts at
/// `region_addr`, when `koid` is the segment's memory object: all of the
/// object, at the start of the segment's first page, with the permissions
/// that the segment asks for.
pub open spec fn segment_mapping(ph: ProgramHeader, vmar: usize, region_addr: int, koid: KoID)
    -> VmMapping {
    VmMapping {
        vmar,
        addr: (region_addr + (ph.virtual_addr as int / 4096) * 4096) as usize,
        size: (segment_pages(ph) * 4096) as usize,
        vmo: koid,
        vmo_offset: 0,
        flags: MMUFlags { bits: crate::loader::flags::mmu_bits(ph.flags) },
        splittable: true,
    }
}

/// Whether object `j` of `now` is a memory object known by an identifier
/// that is not below `next`.
pub open spec fn fresh_vmo_at(now: &Kernel, j: int, next: u64) -> bool {
    now.objects@[j] is Vmo && obj_koid(now.objects@[j]) >= next
}

/// Whether the objects of `now` from position `n` on are memory objects
/// known by identifiers that are not below `next`.
pub open spec fn fresh_vmos_from(now: &Kernel, n: int, next: u64) -> bool {
    forall|j: int| n <= j < now.objects@.len() ==> #[trigger] fresh_vmo_at(now, j, next)
}

/// Whether `after` is `before` with nothing changed but that there may be
/// more objects and process `p` may have more mappings.
pub open spec fn grown(before: &Kernel, after: &Kernel, p: int) -> bool {
    &&& after.wf()
    &&& after.koids.next_koid() >= before.koids.next_koid()
    &&& after.root_job == before.root_job
    &&& after.user_base == before.user_base
    &&& after.user_size == before.user_size
    &&& after.objects@.len() >= before.objects@.len()
    &&& forall|j: int|
        0 <= j < before.objects@.len() ==> #[trigger] after.objects@[j] == before.objects@[j] && (
        before.objects@[j] matches KernelObject::Vmo(w) ==> w.content(&after.pmem) == w.content(
            &before.pmem,
        ))
    &&& after.processes@.len() == before.processes@.len()
    &&& forall|q: int|
        0 <= q < before.processes@.len() && q != p ==> #[trigger] after.processes@[q]
            == before.processes@[q]
    &&& after.processes@[p].base == before.processes@[p].base
    &&& after.processes@[p].handles == before.processes@[p].handles
    &&& after.processes@[p].threads == before.processes@[p].threads
    &&& after.processes@[p].status == before.processes@[p].status
    &&& after.processes@[p].linux == before.processes@[p].linux
    &&& after.processes@[p].vmar.nodes() == before.processes@[p].vmar.nodes()
    &&& after.processes@[p].vmar.maps().len() >= before.processes@[p].vmar.maps().len()
    &&& after.processes@[p].vmar.maps().subrange(
        0,
        before.processes@[p].vmar.maps().len() as int,
    ) == before.processes@[p].vmar.maps()
}

/// Whether `after` is `before` with the segments `segs` loaded into region
/// `vmar` of process `p`: for each segment, in order, one more memory
/// object, which holds [`segment_content`], and one more mapping,
/// [`segment_mapping`].
pub open spec fn segments_loaded(
    before: &Kernel,
    after: &Kernel,
    p: int,
    vmar: usize,
    segs: Seq<ProgramHeader>,
) -> bool {
    let n = before.objects@.len() as int;
    let m = before.processes@[p].vmar.maps().len() as int;
    let next = before.koids.next_koid();
    &&& grown(before, after, p)
    &&& after.koids.next_koid() == next + segs.len()
    &&& after.objects@.len() == n + segs.len()
    &&& after.processes@[p].vmar.maps().len() == m + segs.len()
    &&& forall|j: int|
        0 <= j < segs.len() ==> {
            &&& #[trigger] is_obj(after.objects@, n + j, (next + j) as u64, ObjectType::Vmo)
            &&& after.vmo_at(n + j).content(&after.pmem) == segment_content(segs[j])
            &&& after.processes@[p].vmar.maps()[m + j] == segment_mapping(
                segs[j],
                vmar,
                before.processes@[p].vmar.nodes()[vmar as int].addr as int,
                (next + j) as u64,
            )
        }
}

/// Whether every mapping that process `p` has in `after` and not in
/// `before` belongs to region `vmar`.
pub open spec fn new_maps_in(before: &Kernel, after: &Kernel, p: int, vmar: usize) -> bool {
    forall|k: int|
        before.processes@[p].vmar.maps().len() <= k < after.processes@[p].vmar.maps().len() ==> (
        #[trigger] after.processes@[p].vmar.maps()[k]).vmar == vmar
}

/// Whether `after` is `before` with the segments `segs` loaded as
/// [`segments_loaded`] says, but that more identifiers may be used up.
pub open spec fn segments_held(
    before: &Kernel,
    after: &Kernel,
    p: int,
    vmar: usize,
    segs: Seq<ProgramHeader>,
) -> bool {
    let n = before.objects@.len() as int;
    let m = before.processes@[p].vmar.maps().len() as int;
    let next = before.koids.next_koid();
    &&& grown(before, after, p)
    &&& after.koids.next_koid() >= next + segs.len()
    &&& after.objects@.len() == n + segs.len()
    &&& after.processes@[p].vmar.maps().len() == m + segs.len()
    &&& forall|j: int|
        0 <= j < segs.len() ==> {
            &&& #[trigger] is_obj(after.objects@, n + j, (next + j) as u64, ObjectType::Vmo)
            &&& after.vmo_at(n + j).content(&after.pmem) == segment_content(segs[j])
            &&& after.processes@[p].vmar.maps()[m + j] == segment_mapping(
                segs[j],
                vmar,
                before.processes@[p].vmar.nodes()[vmar as int].addr as int,
                (next + j) as u64,
            )
        }
}

/// Number of frames that the bytes of the segments `segs` take.
pub open spec fn frames_of(segs: Seq<ProgramHeader>) -> int
    decreases segs.len(),
{
    if segs.len() == 0 {
        0
    } else {
        frames_of(segs.drop_last()) + segment_frames(segs.last())
    }
}

/// Whether the pages of the segment `ph` and those of segment `i` of `done`
/// share an address.
pub open spec fn meets_at(done: Seq<ProgramHeader>, i: int, ph: ProgramHeader) -> bool {
    !disjoint(
        page_base_of(done[i]),
        segment_pages(done[i]) * 4096,
        page_base_of(ph),
        segment_pages(ph) * 4096,
    )
}

/// Whether the pages of the segment `ph` share an address with those of one
/// of the segments `done`.
pub open spec fn meets_any(done: Seq<ProgramHeader>, ph: ProgramHeader) -> bool {
    exists|i: int| 0 <= i < done.len() && #[trigger] meets_at(done, i, ph)
}

/// What loading the segment `ph` into region `vmar` of process `p` comes to
/// when the segments `done` have been loaded there since the state `k`:
/// `INVALID_ARGS` for a first page beyond the machine's addresses or a
/// segment that is not [`segment_ok`]; `NO_MEMORY` when the identifiers or
/// the frames are used up; then what mapping the segment's pages comes to,
/// `INVALID_ARGS` among others where the pages are not free in the region
/// or meet the pages of a segment loaded before.
pub open spec fn segment_step(
    k: &Kernel,
    p: int,
    vmar: int,
    done: Seq<ProgramHeader>,
    ph: ProgramHeader,
) -> ZxResult {
    let space = k.processes@[p].vmar;
    if page_base_of(ph) > usize::MAX || !segment_ok(ph) {
        Err(ZxError::INVALID_ARGS)
    } else if k.koids.next_koid() + done.len() >= u64::MAX || frames_of(done) + segment_frames(ph)
        > k.pmem.free_frames() {
        Err(ZxError::NO_MEMORY)
    } else if !space.is_live(vmar) {
        Err(ZxError::BAD_STATE)
    } else if segment_pages(ph) == 0 {
        Err(ZxError::INVALID_ARGS)
    } else if !space.range_free(
        vmar,
        space.nodes()[vmar].addr + page_base_of(ph),
        segment_pages(ph) * 4096,
    ) || meets_any(done, ph) {
        Err(ZxError::INVALID_ARGS)
    } else if !flags_within(
        MMUFlags { bits: crate::loader::flags::mmu_bits(ph.flags) },
        space.nodes()[vmar].flags,
    ) {
        Err(ZxError::ACCESS_DENIED)
    } else {
        Ok(())
    }
}

/// What loading the segments among the first `n` of `phs` comes to: the
/// failure of the first segment that cannot be loaded, if there is one.
pub open spec fn load_steps(k: &Kernel, p: int, vmar: int, phs: Seq<ProgramHeader>, n: int)
    -> ZxResult
    decreases n,
{
    if n <= 0 {
        Ok(())
    } else {
        match load_steps(k, p, vmar, phs, n - 1) {
            Err(e) => Err(e),
            Ok(_) => if phs[n - 1].type_ == SegmentType::Load {
                segment_step(k, p, vmar, loads(phs, n - 1), phs[n - 1])
            } else {
                Ok(())
            },
        }
    }
}

/// How many of the first `n` of `phs` are gone through before the first
/// segment that cannot be loaded: all of them where every segment can be.
pub open spec fn steps_done(k: &Kernel, p: int, vmar: int, phs: Seq<ProgramHeader>, n: int) -> int
    decreases n,
{
    if n <= 0 {
        0
    } else if load_steps(k, p, vmar, phs, n) is Ok {
        n
    } else {
        steps_done(k, p, vmar, phs, n - 1)
    }
}

/// What [`VmarExt::load_from_elf`] comes to for the headers `phs`, region
/// `vmar` and process `p` in the state `k`: the identifier of the first
/// segment's memory object, or the failure of the first segment that cannot
/// be loaded, or `INVALID_ARGS` where no segment is to be loaded.
pub open spec fn load_result(k: &Kernel, p: int, vmar: int, phs: Seq<ProgramHeader>) -> ZxResult<
    KoID,
> {
    match load_steps(k, p, vmar, phs, phs.len() as int) {
        Err(e) => Err(e),
        Ok(_) => if has_load(phs) {
            Ok(k.koids.next_koid())
        } else {
            Err(ZxError::INVALID_ARGS)
        },
    }
}

/// Whether the segment `ph` lies in region `vmar` of process `p` of `k`,
/// in addresses that are free there, and can have a memory object.
pub open spec fn segment_fits(k: &Kernel, p: int, vmar: int, ph: ProgramHeader) -> bool {
    let space = k.processes@[p].vmar;
    &&& segment_ok(ph)
    &&& space.range_free(
        vmar,
        space.nodes()[vmar].addr + page_base_of(ph),
        segment_pages(ph) * 4096,
    )
}

/// Once a segment cannot be loaded, what comes after it changes nothing.
pub proof fn lemma_steps_stuck(
    k: &Kernel,
    p: int,
    vmar: int,
    phs: Seq<ProgramHeader>,
    n: int,
    m: int,
)
    requires
        0 <= n <= m,
        load_steps(k, p, vmar, phs, n) is Ok,
        load_steps(k, p, vmar, phs, n + 1) is Err,
    ensures
        m > n ==> load_steps(k, p, vmar, phs, m) == load_steps(k, p, vmar, phs, n + 1),
        m > n ==> steps_done(k, p, vmar, phs, m) == n,
        steps_done(k, p, vmar, phs, n) == n,
    decreases m,
{
    if m > n + 1 {
        lemma_steps_stuck(k, p, vmar, phs, n, m - 1);
    } else if m == n + 1 {
        lemma_steps_all(k, p, vmar, phs, n);
    } else {
        lemma_steps_all(k, p, vmar, phs, n);
    }
}

/// Where every segment among the first `n` headers can be loaded, all `n`
/// headers are gone through.
pub proof fn lemma_steps_all(k: &Kernel, p: int, vmar: int, phs: Seq<ProgramHeader>, n: int)
    requires
        0 <= n,
        load_steps(k, p, vmar, phs, n) is Ok,
    ensures
        steps_done(k, p, vmar, phs, n) == n,
{
}

/// Where the segments among the first `m` headers can all be loaded, so
/// can those among the first `n`.
pub proof fn lemma_steps_before(
    k: &Kernel,
    p: int,
    vmar: int,
    phs: Seq<ProgramHeader>,
    n: int,
    m: int,
)
    requires
        0 <= n <= m,
        load_steps(k, p, vmar, phs, m) is Ok,
    ensures
        load_steps(k, p, vmar, phs, n) is Ok,
    decreases m - n,
{
    if n < m {
        lemma_steps_before(k, p, vmar, phs, n, m - 1);
    }
}

/// Two segments that share a page are never both loaded: the load fails.
pub proof fn lemma_shared_page_refused(
    k: &Kernel,
    p: int,
    vmar: int,
    phs: Seq<ProgramHeader>,
    a: int,
    b: int,
)
    requires
        0 <= a < b < phs.len(),
        phs[a].type_ == SegmentType::Load,
        phs[b].type_ == SegmentType::Load,
        !disjoint(
            page_base_of(phs[a]),
            segment_pages(phs[a]) * 4096,
            page_base_of(phs[b]),
            segment_pages(phs[b]) * 4096,
        ),
    ensures
        load_result(k, p, vmar, phs) is Err,
        load_steps(k, p, vmar, phs, b) is Ok && k.processes@[p].vmar.is_live(vmar) && segment_ok(
            phs[b],
        ) && page_base_of(phs[b]) <= usize::MAX && segment_step(k, p, vmar, loads(phs, b), phs[b])
            != Err::<(), ZxError>(ZxError::NO_MEMORY) ==> load_result(k, p, vmar, phs) == Err::<
            KoID,
            ZxError,
        >(ZxError::INVALID_ARGS),
{
    let ia = loads(phs, a).len() as int;
    assert(loads(phs, a + 1) == loads(phs, a).push(phs[a]));
    lemma_loads_prefix(phs, a + 1, b, ia);
    assert(loads(phs, b)[ia] == phs[a]);
    assert(meets_at(loads(phs, b), ia, phs[b]));
    assert(meets_any(loads(phs, b), phs[b]));
    assert(segment_step(k, p, vmar, loads(phs, b), phs[b]) is Err);
    if load_steps(k, p, vmar, phs, phs.len() as int) is Ok {
        lemma_steps_before(k, p, vmar, phs, b + 1, phs.len() as int);
        lemma_steps_before(k, p, vmar, phs, b, b + 1);
    }
    if load_steps(k, p, vmar, phs, b) is Ok {
        lemma_steps_stuck(k, p, vmar, phs, b, phs.len() as int);
    }
}

/// Where the segments among the first `n` headers can all be loaded, each
/// can have a memory object.
pub proof fn lemma_steps_segments_ok(
    k: &Kernel,
    p: int,
    vmar: int,
    phs: Seq<ProgramHeader>,
    n: int,
)
    requires
        0 <= n <= phs.len(),
        load_steps(k, p, vmar, phs, n) is Ok,
    ensures
        forall|j: int| 0 <= j < loads(phs, n).len() ==> segment_ok(#[trigger] loads(phs, n)[j]),
    decreases n,
{
    if n > 0 {
        lemma_steps_segments_ok(k, p, vmar, phs, n - 1);
    }
}

/// After a load, every byte of the mapping of each segment lies in the
/// segment's memory object: the mapping starts at the object's first byte
/// and is as long as the object, which has the length of the segment's
/// pages.
pub proof fn lemma_loaded_within(
    before: &Kernel,
    after: &Kernel,
    p: int,
    vmar: usize,
    phs: Seq<ProgramHeader>,
    j: int,
)
    requires
        load_result(before, p, vmar as int, phs) is Ok,
        segments_loaded(before, after, p, vmar, loads(phs, phs.len() as int)),
        segment_objects(after, before.objects@.len() as int, loads(phs, phs.len() as int)),
        0 <= j < loads(phs, phs.len() as int).len(),
    ensures
        ({
            let m = after.processes@[p].vmar.maps()[before.processes@[p].vmar.maps().len() + j];
            let v = after.vmo_at(before.objects@.len() + j);
            &&& m.vmar == vmar
            &&& m.vmo == v.koid()
            &&& m.vmo_offset == 0
            &&& m.size == v.size()
            &&& v.size() == segment_pages(loads(phs, phs.len() as int)[j]) * 4096
            &&& v.inner() is Paged
        }),
{
    let segs = loads(phs, phs.len() as int);
    let n = before.objects@.len() as int;
    let next = before.koids.next_koid();
    lemma_steps_segments_ok(before, p, vmar as int, phs, phs.len() as int);
    assert(segment_ok(segs[j]));
    assert(is_obj(after.objects@, n + j, (next + j) as u64, ObjectType::Vmo));
    assert(after.objects@[n + j] is Vmo);
}

/// The frames of one more segment add to those of the segments before it.
pub proof fn lemma_frames_push(segs: Seq<ProgramHeader>, ph: ProgramHeader)
    ensures
        frames_of(segs.push(ph)) == frames_of(segs) + segment_frames(ph),
{
    assert(segs.push(ph).drop_last() == segs);
}

/// The pages of a segment are free in a region into which segments have
/// been loaded exactly when they were free before and meet none of those
/// segments.
pub proof fn lemma_room_after(
    before: &Kernel,
    now: &Kernel,
    p: int,
    vmar: usize,
    segs: Seq<ProgramHeader>,
    ph: ProgramHeader,
)
    requires
        before.wf(),
        0 <= p < before.processes@.len(),
        before.processes@[p].vmar.is_live(vmar as int),
        segments_loaded(before, now, p, vmar, segs),
        forall|j: int| 0 <= j < segs.len() ==> segment_fits(before, p, vmar as int, #[trigger] segs[j]),
        segment_ok(ph),
    ensures
        now.processes@[p].vmar.range_free(
            vmar as int,
            now.processes@[p].vmar.nodes()[vmar as int].addr + page_base_of(ph),
            segment_pages(ph) * 4096,
        ) <==> before.processes@[p].vmar.range_free(
            vmar as int,
            before.processes@[p].vmar.nodes()[vmar as int].addr + page_base_of(ph),
            segment_pages(ph) * 4096,
        ) && !meets_any(segs, ph),
{
    reveal(crate::vm::vmar::AddressSpace::range_free);
    let was = before.processes@[p].vmar;
    let space = now.processes@[p].vmar;
    let v = vmar as int;
    let a = was.nodes()[v].addr as int;
    let m = was.maps().len() as int;
    let next = before.koids.next_koid();
    let n = before.objects@.len() as int;
    let start = a + page_base_of(ph);
    let size = segment_pages(ph) * 4096;
    assert(crate::kernel::process_ok(before.objects@, before.processes@[p]));
    was.lemma_parts_ok();
    assert(was.node_ok(v));
    assert forall|j: int| 0 <= j < segs.len() implies {
        &&& (#[trigger] space.maps()[m + j]).vmar == vmar
        &&& space.maps()[m + j].addr == a + page_base_of(segs[j])
        &&& space.maps()[m + j].size == segment_pages(segs[j]) * 4096
    } by {
        assert(segment_fits(before, p, v, segs[j]));
        assert(is_obj(now.objects@, n + j, (next + j) as u64, ObjectType::Vmo));
    }
    assert forall|k: int| 0 <= k < m implies space.maps()[k] == was.maps()[k] by {
        assert(space.maps().subrange(0, m)[k] == was.maps()[k]);
    }
    if space.range_free(v, start, size) {
        assert forall|k: int| #[trigger] was.is_map_of(k, v) implies disjoint(
            start,
            size,
            was.maps()[k].addr as int,
            was.maps()[k].size as int,
        ) by {
            assert(space.is_map_of(k, v));
        }
        assert forall|i: int| #[trigger] was.is_child(i, v) implies disjoint(
            start,
            size,
            was.nodes()[i].addr as int,
            was.nodes()[i].size as int,
        ) by {
            assert(space.is_child(i, v));
        }
        assert(was.range_free(v, start, size));
        if meets_any(segs, ph) {
            let i = choose|i: int| 0 <= i < segs.len() && #[trigger] meets_at(segs, i, ph);
            assert(space.is_map_of(m + i, v));
            assert(space.maps()[m + i].vmar == vmar);
        }
    }
    if was.range_free(v, start, size) && !meets_any(segs, ph) {
        assert forall|k: int| #[trigger] space.is_map_of(k, v) implies disjoint(
            start,
            size,
            space.maps()[k].addr as int,
            space.maps()[k].size as int,
        ) by {
            if k < m {
                assert(was.is_map_of(k, v));
            } else {
                assert(!meets_at(segs, k - m, ph));
                assert(space.maps()[m + (k - m)].vmar == vmar);
            }
        }
        assert forall|i: int| #[trigger] space.is_child(i, v) implies disjoint(
            start,
            size,
            space.nodes()[i].addr as int,
            space.nodes()[i].size as int,
        ) by {
            assert(was.is_child(i, v));
        }
        assert(space.range_free(v, start, size));
    }
}

/// A load that stops keeps the segments that were loaded before.
pub proof fn lemma_held_after_failure(
    first: &Kernel,
    start: &Kernel,
    now: &Kernel,
    p: int,
    vmar: usize,
    segs: Seq<ProgramHeader>,
)
    requires
        first.wf(),
        0 <= p < first.processes@.len(),
        segments_loaded(first, start, p, vmar, segs),
        now.wf(),
        start.unchanged_but_koids(now),
    ensures
        segments_held(first, now, p, vmar, segs),
{
    lemma_grown_after_failed_make(first, start, now, p);
    let n = first.objects@.len() as int;
    let next = first.koids.next_koid();
    assert(now.objects@ == start.objects@);
    assert(now.processes@ == start.processes@);
    assert forall|j: int| 0 <= j < segs.len() implies {
        &&& #[trigger] is_obj(now.objects@, n + j, (next + j) as u64, ObjectType::Vmo)
        &&& now.vmo_at(n + j).content(&now.pmem) == segment_content(segs[j])
    } by {
        assert(is_obj(start.objects@, n + j, (next + j) as u64, ObjectType::Vmo));
    }
}

/// Ends the memory object `koid` of the segment `ph`, which was made last
/// and is not mapped: the objects are those of `start` again and hold what
/// they held.
fn discard_segment(
    kernel: &mut Kernel,
    koid: KoID,
    Ghost(start): Ghost<Kernel>,
    Ghost(ph): Ghost<ProgramHeader>,
)
    requires
        start.wf(),
        old(kernel).wf(),
        start.same_tasks(old(kernel)),
        segment_made(&start, old(kernel), ph, koid),
    ensures
        final(kernel).wf(),
        start.unchanged_but_koids(final(kernel)),
{
    let ghost made = *kernel;
    let ghost n = start.objects@.len() as int;
    proof {
        assert(is_obj(made.objects@, n, koid, ObjectType::Vmo));
        assert(!made.referenced(koid)) by {
            assert forall|q: int| 0 <= q < made.processes@.len() implies !crate::kernel::process_refers(
                #[trigger] made.processes@[q],
                koid,
            ) by {
                lemma_fresh_unreferenced(&start, q, koid);
            }
            assert forall|j: int| 0 <= j < made.objects@.len() implies !crate::kernel::refers_to(
                #[trigger] made.objects@[j],
                koid,
            ) by {
                if j < n {
                    lemma_fresh_unreferred(&start, j, koid);
                }
            }
        }
    }
    let done = kernel.collect(koid);
    proof {
        assert(done);
        let i = choose|i: int|
            0 <= i < made.objects@.len() && obj_koid(#[trigger] made.objects@[i]) == koid
                && kernel.objects@ == made.objects@.remove(i);
        assert(i == n) by {
            if i != n {
                assert(obj_koid(made.objects@[i]) != obj_koid(made.objects@[n]));
            }
        }
        assert(kernel.objects@ =~= start.objects@);
        assert forall|j: int| 0 <= j < n implies (#[trigger] start.objects@[j] matches KernelObject::Vmo(
            w,
        ) ==> w.content(&kernel.pmem) == w.content(&start.pmem)) by {
            if let KernelObject::Vmo(w) = start.objects@[j] {
                assert(made.objects@[j] == start.objects@[j]);
                assert(obj_koid(made.objects@[j]) != obj_koid(made.objects@[n]));
                assert(crate::kernel::object_ok(made.objects@[j], &made.pmem));
                w.lemma_untouched_by(&made.pmem, &kernel.pmem, koid);
            }
        }
    }
}

/// Whether the memory object of each segment of `segs`, object `n + j` of
/// `now` for segment `j`, has memory behind exactly the pages that the
/// segment's bytes touch.
pub open spec fn all_data_backed(now: &Kernel, n: int, segs: Seq<ProgramHeader>) -> bool {
    forall|j: int| 0 <= j < segs.len() ==> #[trigger] data_backed(now, n + j, segs[j])
}

/// The memory objects of the segments keep their frames when one more
/// segment is loaded.
pub proof fn lemma_data_backed_step(
    start: &Kernel,
    made: &Kernel,
    now: &Kernel,
    n: int,
    segs: Seq<ProgramHeader>,
    ph: ProgramHeader,
)
    requires
        0 <= n,
        all_data_backed(start, n, segs),
        start.objects@.len() == n + segs.len(),
        made.objects@.len() == start.objects@.len() + 1,
        now.objects@.len() == made.objects@.len(),
        data_backed(made, n + segs.len(), ph),
        forall|j: int| 0 <= j < start.objects@.len() ==> #[trigger] made.objects@[j] == start.objects@[j],
        forall|j: int|
            0 <= j < made.objects@.len() && j != n + segs.len() ==> #[trigger] now.objects@[j]
                == made.objects@[j],
        made.objects@[n + segs.len()] is Vmo,
        now.objects@[n + segs.len()] is Vmo,
        now.vmo_at(n + segs.len()).inner() == made.vmo_at(n + segs.len()).inner(),
    ensures
        all_data_backed(now, n, segs.push(ph)),
{
    let all = segs.push(ph);
    assert forall|j: int| 0 <= j < all.len() implies #[trigger] data_backed(now, n + j, all[j]) by {
        if j < segs.len() {
            assert(data_backed(start, n + j, segs[j]));
            assert(made.objects@[n + j] == start.objects@[n + j]);
            assert(now.objects@[n + j] == made.objects@[n + j]);
            assert forall|page: int| #[trigger]
                backed_at(now, n + j, page) <==> data_touched(all[j], page) by {
                assert(backed_at(start, n + j, page) <==> data_touched(segs[j], page));
            }
        } else {
            assert forall|page: int| #[trigger]
                backed_at(now, n + j, page) <==> data_touched(all[j], page) by {
                assert(backed_at(made, n + j, page) <==> data_touched(ph, page));
            }
        }
    }
}

/// Whether the memory object of each segment of `segs`, object `n + j` of
/// `now` for segment `j`, is a paged one of the length of the segment's
/// pages.
pub open spec fn segment_objects(now: &Kernel, n: int, segs: Seq<ProgramHeader>) -> bool {
    forall|j: int|
        0 <= j < segs.len() ==> (#[trigger] now.objects@[n + j]) is Vmo && now.vmo_at(
            n + j,
        ).inner() is Paged && now.vmo_at(n + j).size() == segment_pages(segs[j]) * 4096
}

/// The memory objects of the segments stay what they are when one more
/// segment is loaded.
pub proof fn lemma_segment_objects_step(
    start: &Kernel,
    made: &Kernel,
    now: &Kernel,
    n: int,
    segs: Seq<ProgramHeader>,
    ph: ProgramHeader,
)
    requires
        0 <= n,
        segment_objects(start, n, segs),
        start.objects@.len() == n + segs.len(),
        made.objects@.len() == start.objects@.len() + 1,
        now.objects@.len() == made.objects@.len(),
        forall|j: int| 0 <= j < start.objects@.len() ==> #[trigger] made.objects@[j] == start.objects@[j],
        forall|j: int|
            0 <= j < made.objects@.len() && j != n + segs.len() ==> #[trigger] now.objects@[j]
                == made.objects@[j],
        made.objects@[n + segs.len()] is Vmo,
        made.vmo_at(n + segs.len()).inner() is Paged,
        made.vmo_at(n + segs.len()).size() == segment_pages(ph) * 4096,
        now.objects@[n + segs.len()] is Vmo,
        now.vmo_at(n + segs.len()).inner() == made.vmo_at(n + segs.len()).inner(),
    ensures
        segment_objects(now, n, segs.push(ph)),
{
    let all = segs.push(ph);
    assert forall|j: int| 0 <= j < all.len() implies (#[trigger] now.objects@[n + j]) is Vmo
        && now.vmo_at(n + j).inner() is Paged && now.vmo_at(n + j).size() == segment_pages(all[j])
        * 4096 by {
        if j < segs.len() {
            assert(start.objects@[n + j] is Vmo);
            assert(made.objects@[n + j] == start.objects@[n + j]);
            assert(now.objects@[n + j] == made.objects@[n + j]);
        }
    }
}

/// Loading the segments of an image into an address region.
pub trait VmarExt {
    /// Whether the segments of an image can be loaded into a region of
    /// process `p`.
    spec fn can_load(&self, p: usize) -> bool;

    /// Create `VMObject` from all LOAD segments of `elf` and map them to
    /// region `vmar` of process `p`. Return the first `VMObject`.
    fn load_from_elf(&mut self, p: usize, vmar: usize, elf: &ElfFile) -> (r: ZxResult<KoID>)
        requires
            old(self).can_load(p),
    ;
}

impl VmarExt for Kernel {
    open spec fn can_load(&self, p: usize) -> bool {
        self.wf() && p < self.processes@.len()
    }

    /// Create a memory object from each segment of `elf` that is to be
    /// loaded and map them into region `vmar` of process `p`, each at the
    /// start of the segment's first page. Each object is a paged one of the
    /// length of its segment's pages, and its mapping shows all of it.
    /// Returns the identifier of the first object.
    ///
    /// Comes to [`load_result`]: it fails with the failure of the first
    /// segment that cannot be loaded, as [`segment_step`] says, and with
    /// `INVALID_ARGS` when `elf` has no segment to load. After a failure
    /// the segments before the failing one are loaded, and nothing of the
    /// failing one is left.
    fn load_from_elf(&mut self, p: usize, vmar: usize, elf: &ElfFile) -> (r: ZxResult<KoID>)
        ensures
            r == load_result(old(self), p as int, vmar as int, elf.program_headers@),
            grown(old(self), final(self), p as int),
            new_maps_in(old(self), final(self), p as int, vmar),
            fresh_vmos_from(
                final(self),
                old(self).objects@.len() as int,
                old(self).koids.next_koid(),
            ),
            r matches Ok(first) ==> {
                &&& has_load(elf.program_headers@)
                &&& first == old(self).koids.next_koid()
                &&& segments_loaded(
                    old(self),
                    final(self),
                    p as int,
                    vmar,
                    loads(elf.program_headers@, elf.program_headers@.len() as int),
                )
                &&& final(self).pmem.free_frames() + frames_of(
                    loads(elf.program_headers@, elf.program_headers@.len() as int),
                ) == old(self).pmem.free_frames()
                &&& all_data_backed(
                    final(self),
                    old(self).objects@.len() as int,
                    loads(elf.program_headers@, elf.program_headers@.len() as int),
                )
                &&& segment_objects(
                    final(self),
                    old(self).objects@.len() as int,
                    loads(elf.program_headers@, elf.program_headers@.len() as int),
                )
            },
            r is Err ==> segments_held(
                old(self),
                final(self),
                p as int,
                vmar,
                loads(
                    elf.program_headers@,
                    steps_done(
                        old(self),
                        p as int,
                        vmar as int,
                        elf.program_headers@,
                        elf.program_headers@.len() as int,
                    ),
                ),
            ),
            !has_load(elf.program_headers@) ==> r == Err::<KoID, ZxError>(ZxError::INVALID_ARGS),
    {
        let ghost phs = elf.program_headers@;
        let mut first: Option<KoID> = None;
        let mut i: usize = 0;
        proof {
            assert(old(self).processes@[p as int].vmar.maps().subrange(
                0,
                old(self).processes@[p as int].vmar.maps().len() as int,
            ) == old(self).processes@[p as int].vmar.maps());
        }
        while i < elf.program_headers.len()
            invariant
                i <= elf.program_headers.len(),
                phs == elf.program_headers@,
                p < old(self).processes@.len(),
                old(self).wf(),
                segments_loaded(old(self), self, p as int, vmar, loads(phs, i as int)),
                new_maps_in(old(self), self, p as int, vmar),
                fresh_vmos_from(self, old(self).objects@.len() as int, old(self).koids.next_koid()),
                first is Some <==> loads(phs, i as int).len() > 0,
                first matches Some(f) ==> f == old(self).koids.next_koid(),
                forall|j: int| 0 <= j < i && phs[j].type_ == SegmentType::Load ==> loads(
                    phs,
                    i as int,
                ).len() > 0,
                load_steps(old(self), p as int, vmar as int, phs, i as int) is Ok,
                self.pmem.free_frames() + frames_of(loads(phs, i as int)) == old(self).pmem.free_frames(),
                all_data_backed(self, old(self).objects@.len() as int, loads(phs, i as int)),
                segment_objects(self, old(self).objects@.len() as int, loads(phs, i as int)),
                forall|j: int|
                    0 <= j < loads(phs, i as int).len() ==> segment_fits(
                        old(self),
                        p as int,
                        vmar as int,
                        #[trigger] loads(phs, i as int)[j],
                    ),
            decreases elf.program_headers.len() - i,
        {
            let ph = &elf.program_headers[i];
            if ph.type_ == SegmentType::Load {
                let ghost start = *self;
                let ghost segs = loads(phs, i as int);
                proof {
                    assert(phs[i as int].type_ == SegmentType::Load);
                    assert(has_load(phs));
                    assert(load_steps(old(self), p as int, vmar as int, phs, i + 1) == segment_step(
                        old(self),
                        p as int,
                        vmar as int,
                        segs,
                        *ph,
                    ));
                }
                let offset: u64 = ph.virtual_addr / 4096 * 4096;
                if offset > usize::MAX as u64 {
                    proof {
                        lemma_steps_stuck(
                            old(self),
                            p as int,
                            vmar as int,
                            phs,
                            i as int,
                            phs.len() as int,
                        );
                        assert(start.unchanged_but_koids(self));
                        lemma_held_after_failure(old(self), &start, self, p as int, vmar, segs);
                    }
                    return Err(ZxError::INVALID_ARGS);
                }
                let koid: KoID = match make_vmo(self, ph) {
                    Ok(k) => k,
                    Err(e) => {
                        proof {
                            lemma_grown_after_failed_make(old(self), &start, self, p as int);
                            assert forall|j: int|
                                old(self).objects@.len() <= j < self.objects@.len() implies #[trigger] fresh_vmo_at(
                                self,
                                j,
                                old(self).koids.next_koid(),
                            ) by {
                                assert(fresh_vmo_at(&start, j, old(self).koids.next_koid()));
                            }
                            lemma_steps_stuck(
                                old(self),
                                p as int,
                                vmar as int,
                                phs,
                                i as int,
                                phs.len() as int,
                            );
                            lemma_held_after_failure(old(self), &start, self, p as int, vmar, segs);
                        }
                        return Err(e);
                    },
                };
                let ghost made = *self;
                proof {
                    assert(segment_made(&start, &made, *ph, koid));
                    lemma_grown_after_make(old(self), &start, &made, p as int, *ph, koid);
                    assert forall|j: int|
                        old(self).objects@.len() <= j < made.objects@.len() implies #[trigger] fresh_vmo_at(
                        &made,
                        j,
                        old(self).koids.next_koid(),
                    ) by {
                        if j < start.objects@.len() {
                            assert(fresh_vmo_at(&start, j, old(self).koids.next_koid()));
                            assert(made.objects@[j] == start.objects@[j]);
                        } else {
                            assert(is_obj(made.objects@, j, koid, ObjectType::Vmo));
                        }
                    }
                }
                let len: usize = ((ph.mem_size + ph.virtual_addr % 4096 + 4095) / 4096) as usize
                    * PAGE_SIZE;
                let flags = crate::loader::flags::to_mmu_flags(&ph.flags);
                let ghost n = start.objects@.len() as int;
                proof {
                    assert(is_obj(made.objects@, n, koid, ObjectType::Vmo));
                    if old(self).processes@[p as int].vmar.is_live(vmar as int) {
                        lemma_room_after(old(self), &start, p as int, vmar, segs, *ph);
                    }
                    assert(made.processes@[p as int] == start.processes@[p as int]);
                }
                let mapped = self.vmar_map(p, vmar, offset as usize, koid, 0, len, flags);
                proof {
                    assert(mapped.is_ok() == (segment_step(
                        old(self),
                        p as int,
                        vmar as int,
                        segs,
                        *ph,
                    ) is Ok));
                    assert(mapped matches Err(e) ==> segment_step(
                        old(self),
                        p as int,
                        vmar as int,
                        segs,
                        *ph,
                    ) == Err::<(), ZxError>(e));
                    assert forall|j: int|
                        old(self).objects@.len() <= j < self.objects@.len() implies #[trigger] fresh_vmo_at(
                        self,
                        j,
                        old(self).koids.next_koid(),
                    ) by {
                        assert(fresh_vmo_at(&made, j, old(self).koids.next_koid()));
                        if j != n {
                            assert(self.objects@[j] == made.objects@[j]);
                        } else {
                            assert(is_obj(self.objects@, n, koid, ObjectType::Vmo));
                        }
                    }
                }
                match mapped {
                    Ok(addr) => {
                        proof {
                            assert forall|k: int|
                                old(self).processes@[p as int].vmar.maps().len() <= k
                                    < self.processes@[p as int].vmar.maps().len() implies (
                            #[trigger] self.processes@[p as int].vmar.maps()[k]).vmar == vmar by {
                                let mm = made.processes@[p as int].vmar.maps();
                                if k < mm.len() {
                                    assert(self.processes@[p as int].vmar.maps()[k] == mm[k]);
                                    assert(start.processes@[p as int].vmar.maps()[k] == mm[k]);
                                }
                            }
                            lemma_segment_loaded(
                                old(self),
                                &start,
                                &made,
                                self,
                                p as int,
                                vmar,
                                segs,
                                *ph,
                                koid,
                                addr,
                            );
                            lemma_frames_push(segs, *ph);
                            assert(loads(phs, i + 1) == segs.push(*ph));
                            lemma_data_backed_step(
                                &start,
                                &made,
                                self,
                                old(self).objects@.len() as int,
                                segs,
                                *ph,
                            );
                            lemma_segment_objects_step(
                                &start,
                                &made,
                                self,
                                old(self).objects@.len() as int,
                                segs,
                                *ph,
                            );
                            assert forall|j: int|
                                0 <= j < loads(phs, i + 1).len() implies segment_fits(
                                old(self),
                                p as int,
                                vmar as int,
                                #[trigger] loads(phs, i + 1)[j],
                            ) by {
                                if j < segs.len() {
                                    assert(segment_fits(old(self), p as int, vmar as int, segs[j]));
                                }
                            }
                        }
                    },
                    Err(e) => {
                        proof {
                            assert(made.unchanged(self));
                            assert forall|page: int| #[trigger]
                                backed_at(self, n, page) <==> data_touched(*ph, page) by {
                                assert(backed_at(&made, n, page) <==> data_touched(*ph, page));
                            }
                        }
                        discard_segment(self, koid, Ghost(start), Ghost(*ph));
                        proof {
                            lemma_grown_after_failed_make(old(self), &start, self, p as int);
                            assert forall|j: int|
                                old(self).objects@.len() <= j < self.objects@.len() implies #[trigger] fresh_vmo_at(
                                self,
                                j,
                                old(self).koids.next_koid(),
                            ) by {
                                assert(fresh_vmo_at(&start, j, old(self).koids.next_koid()));
                            }
                            lemma_steps_stuck(
                                old(self),
                                p as int,
                                vmar as int,
                                phs,
                                i as int,
                                phs.len() as int,
                            );
                            lemma_held_after_failure(old(self), &start, self, p as int, vmar, segs);
                        }
                        return Err(e);
                    },
                }
                if first.is_none() {
                    first = Some(koid);
                }
            }
            i += 1;
        }
        match first {
            Some(f) => {
                proof {
                    if !has_load(phs) {
                        lemma_loads_none(phs, phs.len() as int);
                    }
                }
                Ok(f)
            },
            None => {
                proof {
                    if has_load(phs) {
                        let j = choose|j: int|
                            0 <= j < phs.len() && (#[trigger] phs[j]).type_ == SegmentType::Load;
                        assert(phs[j].type_ == SegmentType::Load);
                    }
                    lemma_steps_all(old(self), p as int, vmar as int, phs, phs.len() as int);
                    assert(self.koids.next_koid() >= old(self).koids.next_koid());
                }
                Err(ZxError::INVALID_ARGS)
            },
        }
    }
}

/// Where none of the first `n` segments is to be loaded, none is loaded.
pub proof fn lemma_loads_none(phs: Seq<ProgramHeader>, n: int)
    requires
        0 <= n <= phs.len(),
        forall|j: int| 0 <= j < n ==> (#[trigger] phs[j]).type_ != SegmentType::Load,
    ensures
        loads(phs, n).len() == 0,
    decreases n,
{
    if n > 0 {
        lemma_loads_none(phs, n - 1);
    }
}

/// A kernel that has grown stays grown when one more, unmapped object
/// comes.
pub proof fn lemma_grown_after_make(
    first: &Kernel,
    start: &Kernel,
    now: &Kernel,
    p: int,
    ph: ProgramHeader,
    koid: KoID,
)
    requires
        first.wf(),
        0 <= p < first.processes@.len(),
        grown(first, start, p),
        now.wf(),
        start.same_tasks(now),
        segment_made(start, now, ph, koid),
    ensures
        grown(first, now, p),
{
    assert forall|j: int| 0 <= j < first.objects@.len() implies #[trigger] now.objects@[j]
        == first.objects@[j] && (first.objects@[j] matches KernelObject::Vmo(w) ==> w.content(
        &now.pmem,
    ) == w.content(&first.pmem)) by {
        assert(start.objects@[j] == first.objects@[j]);
        assert(now.objects@[j] == start.objects@[j]);
    }
}

/// A kernel that has grown stays grown when making one more object fails.
pub proof fn lemma_grown_after_failed_make(first: &Kernel, start: &Kernel, now: &Kernel, p: int)
    requires
        first.wf(),
        0 <= p < first.processes@.len(),
        grown(first, start, p),
        now.wf(),
        start.unchanged_but_koids(now),
    ensures
        grown(first, now, p),
{
    assert(now.processes@ == start.processes@);
    assert(now.objects@ == start.objects@);
    assert forall|j: int| 0 <= j < first.objects@.len() implies #[trigger] now.objects@[j]
        == first.objects@[j] && (first.objects@[j] matches KernelObject::Vmo(w) ==> w.content(
        &now.pmem,
    ) == w.content(&first.pmem)) by {
        assert(start.objects@[j] == first.objects@[j]);
        assert(now.objects@[j] == start.objects@[j]);
    }
}

/// One more segment is loaded once its memory object is made and mapped.
#[verifier::spinoff_prover]
#[verifier::rlimit(60)]
pub proof fn lemma_segment_loaded(
    first: &Kernel,
    start: &Kernel,
    made: &Kernel,
    now: &Kernel,
    p: int,
    vmar: usize,
    segs: Seq<ProgramHeader>,
    ph: ProgramHeader,
    koid: KoID,
    addr: usize,
)
    requires
        first.wf(),
        0 <= p < first.processes@.len(),
        segments_loaded(first, start, p, vmar, segs),
        segment_made(start, made, ph, koid),
        made.wf(),
        start.same_tasks(made),
        now.wf(),
        now.koids == made.koids,
        now.pmem == made.pmem,
        now.root_job == made.root_job,
        now.user_base == made.user_base,
        now.user_size == made.user_size,
        now.objects@.len() == made.objects@.len(),
        now.processes@.len() == made.processes@.len(),
        forall|q: int|
            0 <= q < made.processes@.len() && q != p ==> #[trigger] now.processes@[q]
                == made.processes@[q],
        ({
            let i = start.objects@.len() as int;
            let before = made.processes@[p];
            let after = now.processes@[p];
            &&& Ok::<usize, ZxError>(addr) == before.vmar.map_at_result(
                vmar as int,
                (ph.virtual_addr as int / 4096) * 4096,
                made.vmo_at(i).size() as int,
                0,
                segment_pages(ph) * 4096,
                MMUFlags { bits: crate::loader::flags::mmu_bits(ph.flags) },
            )
            &&& after.base == before.base
            &&& after.handles == before.handles
            &&& after.threads == before.threads
            &&& after.status == before.status
            &&& after.linux == before.linux
            &&& after.vmar.nodes() == before.vmar.nodes()
            &&& is_obj(now.objects@, i, koid, ObjectType::Vmo)
            &&& now.vmo_at(i).inner() == made.vmo_at(i).inner()
            &&& forall|j: int|
                0 <= j < made.objects@.len() && j != i ==> #[trigger] now.objects@[j]
                    == made.objects@[j]
            &&& after.vmar.maps() == before.vmar.maps().push(
                VmMapping {
                    vmar,
                    addr,
                    size: (segment_pages(ph) * 4096) as usize,
                    vmo: koid,
                    vmo_offset: 0,
                    flags: MMUFlags { bits: crate::loader::flags::mmu_bits(ph.flags) },
                    splittable: made.vmo_at(i).inner() is Paged,
                },
            )
        }),
    ensures
        segments_loaded(first, now, p, vmar, segs.push(ph)),
{
    let n = first.objects@.len() as int;
    let m = first.processes@[p].vmar.maps().len() as int;
    let i = start.objects@.len() as int;
    let next = first.koids.next_koid();
    let all = segs.push(ph);
    assert(made.processes@[p] == start.processes@[p]);
    assert forall|j: int| 0 <= j < first.objects@.len() implies #[trigger] now.objects@[j]
        == first.objects@[j] && (first.objects@[j] matches KernelObject::Vmo(w) ==> w.content(
        &now.pmem,
    ) == w.content(&first.pmem)) by {
        assert(start.objects@[j] == first.objects@[j]);
        assert(made.objects@[j] == start.objects@[j]);
        assert(now.objects@[j] == made.objects@[j]);
    }
    let before_maps = first.processes@[p].vmar.maps();
    let start_maps = start.processes@[p].vmar.maps();
    let now_maps = now.processes@[p].vmar.maps();
    assert(now_maps.subrange(0, m) == before_maps) by {
        assert forall|k: int| 0 <= k < m implies now_maps.subrange(0, m)[k] == before_maps[k] by {
            assert(start_maps.subrange(0, m)[k] == before_maps[k]);
        }
        assert(now_maps.subrange(0, m) =~= before_maps);
    }
    reveal(crate::vm::vmar::AddressSpace::range_free);
    assert forall|j: int| 0 <= j < all.len() implies {
        &&& #[trigger] is_obj(now.objects@, n + j, (next + j) as u64, ObjectType::Vmo)
        &&& now.vmo_at(n + j).content(&now.pmem) == segment_content(all[j])
        &&& now_maps[m + j] == segment_mapping(
            all[j],
            vmar,
            first.processes@[p].vmar.nodes()[vmar as int].addr as int,
            (next + j) as u64,
        )
    } by {
        if j < segs.len() {
            assert(is_obj(start.objects@, n + j, (next + j) as u64, ObjectType::Vmo));
            assert(made.objects@[n + j] == start.objects@[n + j]);
            assert(now.objects@[n + j] == made.objects@[n + j]);
            assert(now_maps[m + j] == start_maps[m + j]);
        } else {
            assert(now.vmo_at(i).content(&now.pmem) == made.vmo_at(i).content(&made.pmem));
        }
    }
}

/// Whether `after` is `before` with the same tasks, the same identifiers
/// and the same objects, of which only memory objects that process `p`
/// shows may hold other bytes.
pub open spec fn patched(before: &Kernel, after: &Kernel, p: int) -> bool {
    &&& after.wf()
    &&& before.same_tasks(after)
    &&& after.koids == before.koids
    &&& after.objects@.len() == before.objects@.len()
    &&& forall|j: int|
        0 <= j < before.objects@.len() ==> obj_koid(#[trigger] after.objects@[j]) == obj_koid(
            before.objects@[j],
        ) && obj_kind(after.objects@[j]) == obj_kind(before.objects@[j])
    &&& forall|j: int|
        0 <= j < before.objects@.len() && !process_shows(
            before.processes@[p],
            obj_koid(before.objects@[j]),
        ) ==> #[trigger] after.objects@[j] == before.objects@[j] && (
        before.objects@[j] matches KernelObject::Vmo(w) ==> w.content(&after.pmem) == w.content(
            &before.pmem,
        ))
}

/// What the memory object `koid` holds after the first `n` of `patches`
/// are stored into the memory of process `p` of `k`, if it held `content`
/// before: each patch whose eight bytes the process shows in that memory
/// object is stored there, lowest byte first.
pub open spec fn patched_content(
    k: &Kernel,
    p: int,
    koid: KoID,
    content: Seq<u8>,
    patches: Seq<Patch>,
    n: int,
) -> Seq<u8>
    decreases n,
{
    if n <= 0 {
        content
    } else {
        let prev = patched_content(k, p, koid, content, patches, n - 1);
        match k.resolve(p, patches[n - 1].addr as int, 8) {
            Some(at) => if at.0 == koid {
                written(prev, at.1, words_bytes(seq![patches[n - 1].value]))
            } else {
                prev
            },
            None => prev,
        }
    }
}

/// Whether every memory object of `now` holds what it held in `start`
/// with the first `n` of `patches` stored into the memory of process `p`.
pub open spec fn patches_stored(start: &Kernel, now: &Kernel, p: int, patches: Seq<Patch>, n: int)
    -> bool {
    forall|j: int|
        0 <= j < start.objects@.len() ==> (#[trigger] start.objects@[j] matches KernelObject::Vmo(
            w,
        ) ==> now.objects@[j] is Vmo && now.vmo_at(j).content(&now.pmem) == patched_content(
            start,
            p,
            w.koid(),
            w.content(&start.pmem),
            patches,
            n,
        ))
}

/// Whether `k` has a memory object `koid` with `len` bytes at `offset`.
pub open spec fn in_object(k: &Kernel, koid: KoID, offset: int, len: int) -> bool {
    exists|i: int| #[trigger]
        is_obj(k.objects@, i, koid, ObjectType::Vmo) && 0 <= offset && offset + len
            <= k.vmo_at(i).size()
}

/// Whether the patch `patch` has a place in the memory of process `p` of
/// `k`: its address is one of the machine's, a mapping of the process
/// shows the eight bytes there, and the memory object behind the mapping
/// has them.
pub open spec fn patch_fits(k: &Kernel, p: int, patch: Patch) -> bool {
    &&& patch.addr <= usize::MAX
    &&& k.resolve(p, patch.addr as int, 8) matches Some(at) && in_object(k, at.0, at.1, 8)
}

/// Whether each of the first `n` of `patches` has a place, as
/// [`patch_fits`] says.
pub open spec fn patches_fit(k: &Kernel, p: int, patches: Seq<Patch>, n: int) -> bool {
    forall|i: int| 0 <= i < n ==> patch_fits(k, p, #[trigger] patches[i])
}

/// Whether each memory object of `before` is one in `now`, of the same
/// length.
pub open spec fn sizes_kept(before: &Kernel, now: &Kernel) -> bool {
    forall|j: int|
        0 <= j < before.objects@.len() ==> (#[trigger] before.objects@[j] matches KernelObject::Vmo(
            w,
        ) ==> now.objects@[j] is Vmo && now.vmo_at(j).size() == w.size())
}

/// Whether `now` has the objects of `before`, each known and of the class
/// as before.
pub open spec fn same_names(before: &Kernel, now: &Kernel) -> bool {
    &&& now.objects@.len() == before.objects@.len()
    &&& forall|j: int|
        0 <= j < before.objects@.len() ==> obj_koid(#[trigger] now.objects@[j]) == obj_koid(
            before.objects@[j],
        ) && obj_kind(now.objects@[j]) == obj_kind(before.objects@[j])
}

/// Lengths that are kept twice are kept.
pub proof fn lemma_sizes_kept(first: &Kernel, start: &Kernel, now: &Kernel)
    requires
        sizes_kept(first, start),
        sizes_kept(start, now),
        start.objects@.len() == first.objects@.len(),
    ensures
        sizes_kept(first, now),
{
    assert forall|j: int| 0 <= j < first.objects@.len() implies (
    #[trigger] first.objects@[j] matches KernelObject::Vmo(w) ==> now.objects@[j] is Vmo
        && now.vmo_at(j).size() == w.size()) by {
        if first.objects@[j] is Vmo {
            assert(start.objects@[j] is Vmo);
        }
    }
}

/// The offset at which an address is found in a memory object is not
/// negative.
pub proof fn lemma_resolve_offset(k: &Kernel, p: int, vaddr: int, len: int)
    requires
        k.resolve(p, vaddr, len) is Some,
    ensures
        k.resolve(p, vaddr, len)->Some_0.1 >= 0,
{
    reveal(Kernel::resolve);
    let space = k.processes@[p].vmar;
    if exists|w: int| #[trigger] space.covers(w, vaddr) {
        let w = choose|w: int| #[trigger] space.covers(w, vaddr);
        lemma_first_cover(&space, vaddr, w);
    }
}

/// Whether page `page` of the memory object `koid` of `k` has memory behind
/// it.
pub open spec fn page_backed(k: &Kernel, koid: KoID, page: int) -> bool {
    exists|j: int| #[trigger] is_obj(k.objects@, j, koid, ObjectType::Vmo) && backed_at(k, j, page)
}

/// Whether a store of eight bytes at `offset` touches page `page`.
pub open spec fn word_touches(offset: int, page: int) -> bool {
    offset / 4096 <= page <= (offset + 7) / 4096
}

/// Whether page `page` of the memory object `koid` has memory behind it
/// once the first `n` of `patches` are stored into the memory of process
/// `p`, from the state `k` on: it had in `k`, or one of those stores
/// touches it.
pub open spec fn backed_after(
    k: &Kernel,
    p: int,
    patches: Seq<Patch>,
    n: int,
    koid: KoID,
    page: int,
) -> bool
    decreases n,
{
    if n <= 0 {
        page_backed(k, koid, page)
    } else {
        backed_after(k, p, patches, n - 1, koid, page) || (patch_fits(k, p, patches[n - 1])
            && k.resolve(p, patches[n - 1].addr as int, 8)->Some_0.0 == koid && word_touches(
            k.resolve(p, patches[n - 1].addr as int, 8)->Some_0.1,
            page,
        ))
    }
}

/// Number of frames that the store of patch `i` takes from memory, after
/// the stores before it: one for each of the one or two pages that it
/// touches and that has no memory behind it yet.
pub open spec fn frames_for(k: &Kernel, p: int, patches: Seq<Patch>, i: int) -> int {
    let at = k.resolve(p, patches[i].addr as int, 8)->Some_0;
    let lo = at.1 / 4096;
    let hi = (at.1 + 7) / 4096;
    (if backed_after(k, p, patches, i, at.0, lo) {
        0int
    } else {
        1int
    }) + (if hi != lo && !backed_after(k, p, patches, i, at.0, hi) {
        1int
    } else {
        0int
    })
}

/// Number of frames that are free once the first `n` of `patches` are
/// stored.
pub open spec fn free_after(k: &Kernel, p: int, patches: Seq<Patch>, n: int) -> int
    decreases n,
{
    if n <= 0 {
        k.pmem.free_frames() as int
    } else if patch_fits(k, p, patches[n - 1]) {
        free_after(k, p, patches, n - 1) - frames_for(k, p, patches, n - 1)
    } else {
        free_after(k, p, patches, n - 1)
    }
}

/// What the store of patch `i` comes to after the stores before it:
/// `INVALID_ARGS` where the patch has no place, as [`patch_fits`] says,
/// `NO_MEMORY` where it needs more frames than are left.
pub open spec fn store_step(k: &Kernel, p: int, patches: Seq<Patch>, i: int) -> ZxResult {
    if !patch_fits(k, p, patches[i]) {
        Err(ZxError::INVALID_ARGS)
    } else if frames_for(k, p, patches, i) > free_after(k, p, patches, i) {
        Err(ZxError::NO_MEMORY)
    } else {
        Ok(())
    }
}

/// What storing the first `n` of `patches` comes to: the failure of the
/// first store that cannot be done.
pub open spec fn store_steps(k: &Kernel, p: int, patches: Seq<Patch>, n: int) -> ZxResult
    decreases n,
{
    if n <= 0 {
        Ok(())
    } else {
        match store_steps(k, p, patches, n - 1) {
            Err(e) => Err(e),
            Ok(_) => store_step(k, p, patches, n - 1),
        }
    }
}

/// Number of stores, among the first `n` of `patches`, that are done
/// before the first one that cannot be.
pub open spec fn stores_done(k: &Kernel, p: int, patches: Seq<Patch>, n: int) -> int
    decreases n,
{
    if n <= 0 {
        0
    } else if store_steps(k, p, patches, n) is Ok {
        n
    } else {
        stores_done(k, p, patches, n - 1)
    }
}

/// Whether the pages of the memory objects of `now` have memory behind
/// them as [`backed_after`] says for the first `n` of `patches`.
pub open spec fn backing_is(first: &Kernel, now: &Kernel, p: int, patches: Seq<Patch>, n: int)
    -> bool {
    forall|j: int, page: int|
        0 <= j < first.objects@.len() && first.objects@[j] is Vmo ==> (#[trigger] backed_at(
            now,
            j,
            page,
        ) <==> backed_after(first, p, patches, n, obj_koid(first.objects@[j]), page))
}

/// Once a store cannot be done, what comes after it changes nothing.
pub proof fn lemma_stores_stuck(k: &Kernel, p: int, patches: Seq<Patch>, n: int, m: int)
    requires
        0 <= n <= m,
        store_steps(k, p, patches, n) is Ok,
        m > n ==> store_steps(k, p, patches, n + 1) is Err,
    ensures
        m > n ==> store_steps(k, p, patches, m) == store_steps(k, p, patches, n + 1),
        stores_done(k, p, patches, m) == n,
    decreases m,
{
    if m > n + 1 {
        lemma_stores_stuck(k, p, patches, n, m - 1);
    } else if m == n + 1 {
        lemma_stores_stuck(k, p, patches, n, n);
    }
}

/// Every store that is done has a place, and no store takes more than two
/// frames: patches that all have a place are all stored where two frames
/// are free for each.
pub proof fn lemma_stores_bound(k: &Kernel, p: int, patches: Seq<Patch>, n: int)
    requires
        0 <= n,
    ensures
        free_after(k, p, patches, n) + 2 * n >= k.pmem.free_frames(),
        store_steps(k, p, patches, n) is Ok ==> patches_fit(k, p, patches, n),
        store_steps(k, p, patches, n) matches Err(e) ==> e == ZxError::INVALID_ARGS || e
            == ZxError::NO_MEMORY,
        store_steps(k, p, patches, n) == Err::<(), ZxError>(ZxError::INVALID_ARGS)
            ==> !patches_fit(k, p, patches, n),
        store_steps(k, p, patches, n) == Err::<(), ZxError>(ZxError::NO_MEMORY)
            ==> k.pmem.free_frames() < 2 * n,
        patches_fit(k, p, patches, n) && k.pmem.free_frames() >= 2 * n ==> store_steps(
            k,
            p,
            patches,
            n,
        ) is Ok,
    decreases n,
{
    if n > 0 {
        lemma_stores_bound(k, p, patches, n - 1);
        if store_steps(k, p, patches, n - 1) is Ok {
            assert forall|i: int| 0 <= i < n - 1 implies patch_fits(k, p, #[trigger] patches[i]) by {}
            if patch_fits(k, p, patches[n - 1]) {
                assert forall|i: int| 0 <= i < n implies patch_fits(k, p, #[trigger] patches[i]) by {
                    if i < n - 1 {
                        assert(patches_fit(k, p, patches, n - 1));
                    }
                }
            } else {
                assert(!patches_fit(k, p, patches, n));
            }
        } else {
            if patches_fit(k, p, patches, n) {
                assert forall|i: int| 0 <= i < n - 1 implies patch_fits(k, p, #[trigger] patches[i]) by {}
            }
        }
    }
}

/// A table of one or two pages lacks as many frames as it has pages
/// without one.
pub proof fn lemma_count_none_small(frames: Seq<Option<usize>>, lo: int, hi: int)
    requires
        0 <= lo <= hi < frames.len(),
        hi <= lo + 1,
    ensures
        crate::vm::vmo::paged::count_none(frames.subrange(lo, hi + 1)) == (if frames[lo] is None {
            1int
        } else {
            0int
        }) + (if hi != lo && frames[hi] is None {
            1int
        } else {
            0int
        }),
{
    let s = frames.subrange(lo, hi + 1);
    assert(s.first() == frames[lo]);
    let t = s.drop_first();
    if hi != lo {
        assert(t.len() == 1);
        assert(t.first() == frames[hi]);
        assert(t.drop_first().len() == 0);
        assert(crate::vm::vmo::paged::count_none(t.drop_first()) == 0);
        assert(crate::vm::vmo::paged::count_none(t) == if frames[hi] is None {
            1nat
        } else {
            0nat
        });
    } else {
        assert(t.len() == 0);
        assert(crate::vm::vmo::paged::count_none(t) == 0);
    }
}

/// What one store of a patch comes to, given the stores before it, and
/// what it leaves: the result is [`store_step`]; a store that is done
/// gives memory to the pages it touches and takes [`frames_for`] frames.
#[verifier::spinoff_prover]
#[verifier::rlimit(60)]
pub proof fn lemma_store_step(
    first: &Kernel,
    start: &Kernel,
    now: &Kernel,
    p: int,
    patches: Seq<Patch>,
    i: int,
    r: ZxResult,
)
    requires
        first.wf(),
        0 <= i < patches.len(),
        patches[i].addr <= usize::MAX,
        first.resolve(p, patches[i].addr as int, 8) == start.resolve(p, patches[i].addr as int, 8),
        first.resolve(p, patches[i].addr as int, 8) matches Some(at) ==> at.1 >= 0,
        same_names(first, start),
        sizes_kept(first, start),
        backing_is(first, start, p, patches, i),
        start.pmem.free_frames() == free_after(first, p, patches, i),
        start.resolve(p, patches[i].addr as int, 8) is None ==> r == Err::<(), ZxError>(
            ZxError::INVALID_ARGS,
        ),
        start.resolve(p, patches[i].addr as int, 8) is Some ==> has_object(
            start.objects@,
            start.resolve(p, patches[i].addr as int, 8)->Some_0.0,
            ObjectType::Vmo,
        ),
        forall|j: int| #[trigger]
            is_obj(
                start.objects@,
                j,
                start.resolve(p, patches[i].addr as int, 8)->Some_0.0,
                ObjectType::Vmo,
            ) && start.resolve(p, patches[i].addr as int, 8) is Some ==> start.wrote_at(
                now,
                j,
                start.resolve(p, patches[i].addr as int, 8)->Some_0.1,
                words_bytes(seq![patches[i].value]),
                r,
            ),
        forall|j: int|
            0 <= j < start.objects@.len() && start.resolve(p, patches[i].addr as int, 8) is Some
                && obj_koid(start.objects@[j]) != start.resolve(
                p,
                patches[i].addr as int,
                8,
            )->Some_0.0 ==> #[trigger] now.objects@[j] == start.objects@[j],
        now.objects@.len() == start.objects@.len(),
    ensures
        r == store_step(first, p, patches, i),
        r is Ok ==> patch_fits(first, p, patches[i]),
        r is Ok ==> backing_is(first, now, p, patches, i + 1),
        r is Ok ==> now.pmem.free_frames() == free_after(first, p, patches, i + 1),
{
    let patch = patches[i];
    let word = words_bytes(seq![patch.value]);
    assert(word.len() == 8);
    match start.resolve(p, patch.addr as int, 8) {
        Some(at) => {
            let x = choose|x: int| #[trigger] is_obj(start.objects@, x, at.0, ObjectType::Vmo);
            assert(start.wrote_at(now, x, at.1, word, r));
            assert(is_obj(first.objects@, x, at.0, ObjectType::Vmo));
            assert(first.objects@[x] is Vmo);
            assert(start.objects@[x] is Vmo);
            let v = start.vmo_at(x);
            assert(v.size() == first.vmo_at(x).size());
            assert forall|x2: int| #[trigger]
                is_obj(first.objects@, x2, at.0, ObjectType::Vmo) implies x2 == x by {
                if x2 != x {
                    assert(obj_koid(first.objects@[x2]) != obj_koid(first.objects@[x]));
                }
            }
            assert(in_object(first, at.0, at.1, 8) <==> at.1 + 8 <= v.size());
            if at.1 + 8 <= v.size() {
                let lo = at.1 / 4096;
                let hi = (at.1 + 7) / 4096;
                assert(first_touched(at.1, 8) == lo);
                assert(end_touched(at.1, 8) == hi + 1);
                assert(lo <= hi <= lo + 1);
                assert(backed_at(start, x, lo) <==> backed_after(first, p, patches, i, at.0, lo));
                assert(backed_at(start, x, hi) <==> backed_after(first, p, patches, i, at.0, hi));
                match v.inner() {
                    crate::vm::vmo::VmoInner::Paged(pg) => {
                        assert(hi < pg.page_count());
                        lemma_count_none_small(pg.frame_table(), lo, hi);
                        assert(v.fresh_pages(at.1, 8) == frames_for(first, p, patches, i));
                    },
                    crate::vm::vmo::VmoInner::Physical(ph) => {
                        assert(hi < ph.page_count());
                        assert(v.fresh_pages(at.1, 8) == frames_for(first, p, patches, i));
                    },
                }
                if r is Ok {
                    let w = now.vmo_at(x);
                    assert(v.touched(&w, at.1, 8));
                    assert forall|j: int, page: int|
                        0 <= j < first.objects@.len() && first.objects@[j] is Vmo implies (
                    #[trigger] backed_at(now, j, page) <==> backed_after(
                        first,
                        p,
                        patches,
                        i + 1,
                        obj_koid(first.objects@[j]),
                        page,
                    )) by {
                        assert(backed_at(start, j, page) <==> backed_after(
                            first,
                            p,
                            patches,
                            i,
                            obj_koid(first.objects@[j]),
                            page,
                        ));
                        if j != x {
                            assert(obj_koid(first.objects@[j]) != obj_koid(first.objects@[x]));
                            assert(obj_koid(start.objects@[j]) != at.0);
                            assert(now.objects@[j] == start.objects@[j]);
                        } else {
                            assert(w.is_backed(page) <==> v.is_backed(page) || word_touches(
                                at.1,
                                page,
                            ));
                        }
                    }
                }
            }
        },
        None => {},
    }
}

/// Stores each of `patches`, in order, into the memory of process `p`: the
/// eight bytes of the value, lowest first, at the address.
///
/// Comes to [`store_steps`]: it fails at the first store that cannot be
/// done, with `INVALID_ARGS` where the patch has no place, as
/// [`patch_fits`] says, and with `NO_MEMORY` where the pages that the store
/// touches need more frames than are left. The stores before it are done.
pub fn apply_patches(kernel: &mut Kernel, p: usize, patches: &Vec<Patch>) -> (r: ZxResult)
    requires
        old(kernel).wf(),
        p < old(kernel).processes@.len(),
    ensures
        r == store_steps(old(kernel), p as int, patches@, patches@.len() as int),
        patched(old(kernel), final(kernel), p as int),
        sizes_kept(old(kernel), final(kernel)),
        patches_stored(
            old(kernel),
            final(kernel),
            p as int,
            patches@,
            stores_done(old(kernel), p as int, patches@, patches@.len() as int),
        ),
        backing_is(
            old(kernel),
            final(kernel),
            p as int,
            patches@,
            stores_done(old(kernel), p as int, patches@, patches@.len() as int),
        ),
        final(kernel).pmem.free_frames() == free_after(
            old(kernel),
            p as int,
            patches@,
            stores_done(old(kernel), p as int, patches@, patches@.len() as int),
        ),
        r is Ok ==> stores_done(old(kernel), p as int, patches@, patches@.len() as int)
            == patches@.len(),
        r is Ok ==> patches_fit(old(kernel), p as int, patches@, patches@.len() as int),
        r is Ok ==> forall|i: int|
            0 <= i < patches@.len() ==> old(kernel).resolve(
                p as int,
                (#[trigger] patches@[i]).addr as int,
                8,
            ) is Some,
{
    let mut i: usize = 0;
    proof {
        assert forall|j: int, page: int|
            0 <= j < old(kernel).objects@.len() && old(kernel).objects@[j] is Vmo implies (
        #[trigger] backed_at(kernel, j, page) <==> backed_after(
            old(kernel),
            p as int,
            patches@,
            0,
            obj_koid(old(kernel).objects@[j]),
            page,
        )) by {
            let koid = obj_koid(old(kernel).objects@[j]);
            if backed_at(kernel, j, page) {
                assert(is_obj(old(kernel).objects@, j, koid, ObjectType::Vmo));
            }
            if page_backed(old(kernel), koid, page) {
                let j2 = choose|j2: int| #[trigger]
                    is_obj(old(kernel).objects@, j2, koid, ObjectType::Vmo) && backed_at(
                        old(kernel),
                        j2,
                        page,
                    );
                if j2 != j {
                    assert(obj_koid(old(kernel).objects@[j2]) != obj_koid(old(kernel).objects@[j]));
                }
            }
        }
    }
    while i < patches.len()
        invariant
            i <= patches.len(),
            p < old(kernel).processes@.len(),
            old(kernel).wf(),
            patched(old(kernel), kernel, p as int),
            patches_stored(old(kernel), kernel, p as int, patches@, i as int),
            patches_fit(old(kernel), p as int, patches@, i as int),
            sizes_kept(old(kernel), kernel),
            store_steps(old(kernel), p as int, patches@, i as int) is Ok,
            backing_is(old(kernel), kernel, p as int, patches@, i as int),
            kernel.pmem.free_frames() == free_after(old(kernel), p as int, patches@, i as int),
            forall|k: int|
                0 <= k < i ==> old(kernel).resolve(p as int, (#[trigger] patches@[k]).addr as int, 8)
                    is Some,
        decreases patches.len() - i,
    {
        let patch: Patch = patches[i];
        if patch.addr > usize::MAX as u64 {
            proof {
                assert(!patch_fits(old(kernel), p as int, patches@[i as int]));
                lemma_stores_stuck(
                    old(kernel),
                    p as int,
                    patches@,
                    i as int,
                    patches@.len() as int,
                );
            }
            return Err(ZxError::INVALID_ARGS);
        }
        let bytes = word_bytes(patch.value);
        let ghost start = *kernel;
        let r = kernel.write_memory(p, patch.addr as usize, bytes.as_slice());
        proof {
            lemma_patched_step(old(kernel), &start, kernel, p as int);
            assert(start.processes@ == old(kernel).processes@);
            lemma_resolve_same_maps(old(kernel), &start, p as int, patch.addr as int, 8);
            if start.resolve(p as int, patch.addr as int, 8) is Some {
                lemma_resolve_offset(&start, p as int, patch.addr as int, 8);
            }
            lemma_store_step(old(kernel), &start, kernel, p as int, patches@, i as int, r);
            lemma_sizes_kept(old(kernel), &start, kernel);
            if r is Err {
                assert(kernel.objects@ == start.objects@);
                assert(kernel.pmem == start.pmem);
                assert(patches_stored(old(kernel), kernel, p as int, patches@, i as int));
                assert forall|j: int, page: int|
                    0 <= j < old(kernel).objects@.len() && old(kernel).objects@[j] is Vmo implies (
                #[trigger] backed_at(kernel, j, page) <==> backed_after(
                    old(kernel),
                    p as int,
                    patches@,
                    i as int,
                    obj_koid(old(kernel).objects@[j]),
                    page,
                )) by {
                    assert(backed_at(&start, j, page) <==> backed_after(
                        old(kernel),
                        p as int,
                        patches@,
                        i as int,
                        obj_koid(old(kernel).objects@[j]),
                        page,
                    ));
                }
                lemma_stores_stuck(
                    old(kernel),
                    p as int,
                    patches@,
                    i as int,
                    patches@.len() as int,
                );
            }
        }
        if let Err(e) = r {
            return Err(e);
        }
        proof {
            lemma_patch_stored(old(kernel), &start, kernel, p as int, patches@, i as int);
        }
        i += 1;
    }
    proof {
        lemma_stores_stuck(
            old(kernel),
            p as int,
            patches@,
            patches@.len() as int,
            patches@.len() as int,
        );
    }
    Ok(())
}

/// One more patch is stored once the store of its bytes is done.
pub proof fn lemma_patch_stored(
    first: &Kernel,
    start: &Kernel,
    now: &Kernel,
    p: int,
    patches: Seq<Patch>,
    i: int,
)
    requires
        first.wf(),
        0 <= p < first.processes@.len(),
        0 <= i < patches.len(),
        patches[i].addr <= usize::MAX,
        patched(first, start, p),
        patched(start, now, p),
        patches_stored(first, start, p, patches, i),
        start.resolve(p, patches[i].addr as int, 8) is Some,
        forall|j: int|
            0 <= j < start.objects@.len() && obj_koid(start.objects@[j]) != start.resolve(
                p,
                patches[i].addr as int,
                8,
            )->Some_0.0 ==> (#[trigger] start.objects@[j] matches KernelObject::Vmo(w)
                ==> now.objects@[j] is Vmo && now.vmo_at(j).content(&now.pmem) == w.content(
                &start.pmem,
            )),
        forall|j: int| #[trigger]
            is_obj(
                start.objects@,
                j,
                start.resolve(p, patches[i].addr as int, 8)->Some_0.0,
                ObjectType::Vmo,
            ) ==> start.wrote_at(
                now,
                j,
                start.resolve(p, patches[i].addr as int, 8)->Some_0.1,
                words_bytes(seq![patches[i].value]),
                Ok::<(), ZxError>(()),
            ),
    ensures
        patches_stored(first, now, p, patches, i + 1),
        first.resolve(p, patches[i].addr as int, 8) is Some,
{
    assert(start.processes@ == first.processes@);
    assert(first.resolve(p, patches[i].addr as int, 8) == start.resolve(
        p,
        patches[i].addr as int,
        8,
    )) by {
        reveal(Kernel::resolve);
    }
    let at = start.resolve(p, patches[i].addr as int, 8)->Some_0;
    assert forall|j: int| 0 <= j < first.objects@.len() implies (
    #[trigger] first.objects@[j] matches KernelObject::Vmo(w) ==> now.objects@[j] is Vmo
        && now.vmo_at(j).content(&now.pmem) == patched_content(
        first,
        p,
        w.koid(),
        w.content(&first.pmem),
        patches,
        i + 1,
    )) by {
        if let KernelObject::Vmo(w) = first.objects@[j] {
            assert(obj_koid(start.objects@[j]) == obj_koid(first.objects@[j]));
            assert(obj_kind(start.objects@[j]) == obj_kind(first.objects@[j]));
            assert(start.objects@[j] is Vmo);
            assert(start.vmo_at(j).content(&start.pmem) == patched_content(
                first,
                p,
                w.koid(),
                w.content(&first.pmem),
                patches,
                i,
            ));
            if w.koid() == at.0 {
                assert(is_obj(start.objects@, j, at.0, ObjectType::Vmo));
            } else {
                assert(obj_koid(start.objects@[j]) != at.0);
            }
        }
    }
}

/// Patching after patching is patching.
pub proof fn lemma_patched_step(first: &Kernel, start: &Kernel, now: &Kernel, p: int)
    requires
        0 <= p < first.processes@.len(),
        patched(first, start, p),
        patched(start, now, p),
    ensures
        patched(first, now, p),
{
    assert forall|j: int| 0 <= j < first.objects@.len() implies obj_koid(
        #[trigger] now.objects@[j],
    ) == obj_koid(first.objects@[j]) && obj_kind(now.objects@[j]) == obj_kind(
        first.objects@[j],
    ) by {
        assert(obj_koid(start.objects@[j]) == obj_koid(first.objects@[j]));
    }
    assert forall|j: int|
        0 <= j < first.objects@.len() && !process_shows(
            first.processes@[p],
            obj_koid(first.objects@[j]),
        ) implies #[trigger] now.objects@[j] == first.objects@[j] && (
    first.objects@[j] matches KernelObject::Vmo(w) ==> w.content(&now.pmem) == w.content(
        &first.pmem,
    )) by {
        assert(start.objects@[j] == first.objects@[j]);
        assert(obj_koid(start.objects@[j]) == obj_koid(first.objects@[j]));
        assert(now.objects@[j] == start.objects@[j]);
    }
}

/// Makes a process named `proc` that makes Linux system calls, with one
/// thread named `thread`. Returns the positions of the process and of the
/// thread.
///
/// Fails with `NO_MEMORY`, changing nothing, when fewer than two
/// identifiers are left.
pub fn spawn(kernel: &mut Kernel) -> (r: ZxResult<(usize, usize)>)
    requires
        old(kernel).wf(),
    ensures
        final(kernel).wf(),
        final(kernel).pmem == old(kernel).pmem,
        final(kernel).objects@ == old(kernel).objects@,
        final(kernel).user_base == old(kernel).user_base,
        final(kernel).user_size == old(kernel).user_size,
        r is Ok <==> old(kernel).koids.next_koid() < u64::MAX - 1,
        r matches Err(e) ==> e == ZxError::NO_MEMORY && old(kernel).unchanged(final(kernel)),
        r matches Ok(pt) ==> {
            let proc = final(kernel).processes@[pt.0 as int];
            &&& pt.0 == old(kernel).processes@.len()
            &&& pt.1 == 0
            &&& final(kernel).processes@.len() == pt.0 + 1
            &&& final(kernel).processes@.subrange(0, pt.0 as int) == old(kernel).processes@
            &&& final(kernel).koids.next_koid() == old(kernel).koids.next_koid() + 2
            &&& proc.base.koid() == old(kernel).koids.next_koid()
            &&& proc.linux
            &&& proc.status == Status::Init
            &&& proc.threads@.len() == 1
            &&& proc.threads@[0].state == ThreadState::Initial
            &&& proc.threads@[0].base.koid() == old(kernel).koids.next_koid() + 1
            &&& proc.handles.entries().len() == 0
            &&& proc.handles.next_value() == 1
            &&& proc.vmar.maps().len() == 0
            &&& proc.vmar.nodes().len() == 1
            &&& proc.vmar.nodes()[0].addr == old(kernel).user_base
            &&& proc.vmar.nodes()[0].size == old(kernel).user_size
            &&& proc.vmar.nodes()[0].alive
            &&& proc.vmar.nodes()[0].flags.bits == 7
        },
{
    if kernel.koids.peek() >= u64::MAX - 1 {
        return Err(ZxError::NO_MEMORY);
    }
    let p: usize = match kernel.create_process("proc".as_bytes(), true) {
        Ok(p) => p,
        Err(e) => {
            return Err(e);
        },
    };
    let ghost mid = *kernel;
    let t: usize = match kernel.create_thread(p, "thread".as_bytes(), 0) {
        Ok(t) => t,
        Err(e) => {
            return Err(e);
        },
    };
    proof {
        assert forall|q: int| 0 <= q < p implies final(kernel).processes@.subrange(0, p as int)[q]
            == old(kernel).processes@[q] by {
            assert(mid.processes@.subrange(0, p as int)[q] == old(kernel).processes@[q]);
        }
        assert(final(kernel).processes@.subrange(0, p as int) =~= old(kernel).processes@);
    }
    Ok((p, t))
}

/// What `run` hands back: where the new process is and how it starts.
pub struct Loaded {
    /// Position of the process among the processes.
    pub proc: usize,
    /// Position of the thread among the threads of the process.
    pub thread: usize,
    /// Index of the region that holds the image.
    pub vmar: usize,
    /// Load base: first address of that region.
    pub base: usize,
    /// Address of the first instruction.
    pub entry: usize,
    /// Stack pointer at entry.
    pub sp: u64,
    /// The bytes of the initial stack, from `sp` to the top.
    pub stack: Vec<u8>,
    /// Identifier of the memory object of the first segment.
    pub first_vmo: KoID,
}

/// The auxiliary vector that the loader writes for an image loaded at
/// `base`, in push order: page size, number, size and address of the
/// program headers, load base.
pub open spec fn auxv_for(elf: &ElfFile, base: u64) -> Seq<AuxEntry> {
    seq![
        AuxEntry { key: AT_PAGESZ, value: 4096 },
        AuxEntry { key: AT_PHNUM, value: elf.ph_count as u64 },
        AuxEntry { key: AT_PHENT, value: elf.ph_entry_size as u64 },
        AuxEntry { key: AT_PHDR, value: crate::loader::elf::wrap64(base as int, elf.ph_offset as int) },
        AuxEntry { key: AT_BASE, value: base },
    ]
}

/// The top of the initial stack in a buffer at `stack_base`: the end of the
/// buffer, rounded down to a multiple of 16.
pub open spec fn stack_top_of(stack_base: u64) -> int {
    (stack_base + 0x8000) - (stack_base + 0x8000) % 16
}

/// Whether `after` is `before` with what a failed load leaves: the same
/// objects, holding what they held, and possibly one more process. That
/// process has no mapping, no handle and no live region but the root of
/// its address space, and its one thread was never started.
pub open spec fn rolled_back(before: &Kernel, after: &Kernel) -> bool {
    let p = before.processes@.len() as int;
    &&& after.wf()
    &&& after.user_base == before.user_base
    &&& after.user_size == before.user_size
    &&& after.objects@.len() == before.objects@.len()
    &&& forall|j: int|
        0 <= j < before.objects@.len() ==> #[trigger] after.objects@[j] == before.objects@[j] && (
        before.objects@[j] matches KernelObject::Vmo(w) ==> w.content(&after.pmem) == w.content(
            &before.pmem,
        ))
    &&& p <= after.processes@.len() <= p + 1
    &&& after.processes@.subrange(0, p) == before.processes@
    &&& after.processes@.len() == p + 1 ==> {
        let proc = after.processes@[p];
        &&& proc.vmar.maps().len() == 0
        &&& proc.handles.entries().len() == 0
        &&& proc.status == Status::Init
        &&& proc.threads@.len() == 1
        &&& proc.threads@[0].state == ThreadState::Initial
        &&& forall|i: int|
            1 <= i < proc.vmar.nodes().len() ==> !(#[trigger] proc.vmar.nodes()[i]).alive
    }
}

/// The value of the first symbol of `elf` with the name of the system call
/// entry.
pub open spec fn entry_symbol_value(elf: &ElfFile) -> u64 {
    elf.symbols@[choose|i: int| #[trigger] elf.is_first_named(i, "rcore_syscall_entry"@)].value
}

/// Whether one of the segments of `elf` that are to be loaded holds the
/// eight bytes at the symbol of the system call entry.
pub open spec fn has_entry_place(elf: &ElfFile) -> bool {
    word_place(
        elf.program_headers@,
        entry_symbol_value(elf) as int,
        elf.program_headers@.len() as int,
    ) is Some
}

/// The number, among the segments to load, of the segment that holds the
/// symbol of the system call entry.
pub open spec fn entry_seg_of(elf: &ElfFile) -> int {
    word_place(
        elf.program_headers@,
        entry_symbol_value(elf) as int,
        elf.program_headers@.len() as int,
    )->Some_0.0
}

/// The offset of the symbol of the system call entry in the memory object
/// of the segment that holds it.
pub open spec fn entry_off_of(elf: &ElfFile) -> int {
    word_place(
        elf.program_headers@,
        entry_symbol_value(elf) as int,
        elf.program_headers@.len() as int,
    )->Some_0.1
}

/// What the memory object of segment `j` of the segments `segs` holds
/// before relocation: the bytes of the segment, and in segment `entry_seg`
/// the address `syscall_entry` at the offset `entry_offset`.
pub open spec fn image_content(
    segs: Seq<ProgramHeader>,
    j: int,
    entry_seg: int,
    entry_offset: int,
    syscall_entry: u64,
) -> Seq<u8> {
    if j == entry_seg {
        written(segment_content(segs[j]), entry_offset, words_bytes(seq![syscall_entry]))
    } else {
        segment_content(segs[j])
    }
}

/// Whether the memory object of segment `j` of `segs`, which is object
/// `n + j` of `now`, holds the bytes of its segment, and segment `entry_seg`
/// the address `syscall_entry` at `entry_offset` if that is `entered`.
pub open spec fn image_at(
    now: &Kernel,
    n: int,
    segs: Seq<ProgramHeader>,
    j: int,
    entered: bool,
    entry_seg: int,
    entry_offset: int,
    syscall_entry: u64,
) -> bool {
    now.objects@[n + j] is Vmo && now.vmo_at(n + j).content(&now.pmem) == if entered {
        image_content(segs, j, entry_seg, entry_offset, syscall_entry)
    } else {
        segment_content(segs[j])
    }
}

/// Whether [`image_at`] holds of every segment of `segs`.
pub open spec fn holds_image(
    now: &Kernel,
    n: int,
    segs: Seq<ProgramHeader>,
    entered: bool,
    entry_seg: int,
    entry_offset: int,
    syscall_entry: u64,
) -> bool {
    forall|j: int|
        0 <= j < segs.len() ==> #[trigger] image_at(
            now,
            n,
            segs,
            j,
            entered,
            entry_seg,
            entry_offset,
            syscall_entry,
        )
}

/// Whether the memory object of segment `j` of `segs`, which is object
/// `n + j` of `now` and known as `next + j`, holds [`image_content`] with
/// the patches `patches` stored through the mappings of process `p`.
pub open spec fn patched_at(
    now: &Kernel,
    p: int,
    n: int,
    next: int,
    segs: Seq<ProgramHeader>,
    j: int,
    entry_seg: int,
    entry_offset: int,
    syscall_entry: u64,
    patches: Seq<Patch>,
) -> bool {
    now.objects@[n + j] is Vmo && now.vmo_at(n + j).content(&now.pmem) == patched_content(
        now,
        p,
        (next + j) as u64,
        image_content(segs, j, entry_seg, entry_offset, syscall_entry),
        patches,
        patches.len() as int,
    )
}

/// Whether [`patched_at`] holds of every segment of `segs`.
pub open spec fn holds_patched(
    now: &Kernel,
    p: int,
    n: int,
    next: int,
    segs: Seq<ProgramHeader>,
    entry_seg: int,
    entry_offset: int,
    syscall_entry: u64,
    patches: Seq<Patch>,
) -> bool {
    forall|j: int|
        0 <= j < segs.len() ==> #[trigger] patched_at(
            now,
            p,
            n,
            next,
            segs,
            j,
            entry_seg,
            entry_offset,
            syscall_entry,
            patches,
        )
}

/// Among the mappings that show an address, one is the first.
pub proof fn lemma_first_cover(space: &crate::vm::vmar::AddressSpace, vaddr: int, w: int)
    requires
        space.covers(w, vaddr),
    ensures
        exists|k: int| #[trigger]
            space.covers(k, vaddr) && forall|j: int|
                0 <= j < k ==> !#[trigger] space.covers(j, vaddr),
    decreases w,
{
    if exists|j: int| 0 <= j < w && #[trigger] space.covers(j, vaddr) {
        let j = choose|j: int| 0 <= j < w && #[trigger] space.covers(j, vaddr);
        lemma_first_cover(space, vaddr, j);
    } else {
        assert(space.covers(w, vaddr) && forall|j: int|
            0 <= j < w ==> !#[trigger] space.covers(j, vaddr));
    }
}

/// Where bytes of a process lie depends only on the mappings of the
/// process.
pub proof fn lemma_resolve_same_maps(a: &Kernel, b: &Kernel, p: int, vaddr: int, len: int)
    requires
        a.processes@[p].vmar.maps() == b.processes@[p].vmar.maps(),
    ensures
        a.resolve(p, vaddr, len) == b.resolve(p, vaddr, len),
{
    reveal(Kernel::resolve);
    let sa = a.processes@[p].vmar;
    let sb = b.processes@[p].vmar;
    if exists|k: int| #[trigger] sa.covers(k, vaddr) {
        let w = choose|k: int| #[trigger] sa.covers(k, vaddr);
        assert(sb.covers(w, vaddr));
        lemma_first_cover(&sa, vaddr, w);
        lemma_first_cover(&sb, vaddr, w);
        let ka = choose|k: int| #[trigger]
            sa.covers(k, vaddr) && forall|j: int| 0 <= j < k ==> !#[trigger] sa.covers(j, vaddr);
        let kb = choose|k: int| #[trigger]
            sb.covers(k, vaddr) && forall|j: int| 0 <= j < k ==> !#[trigger] sb.covers(j, vaddr);
        if ka < kb {
            assert(!sb.covers(ka, vaddr));
            assert(sa.covers(ka, vaddr));
        }
        if kb < ka {
            assert(!sa.covers(kb, vaddr));
            assert(sb.covers(kb, vaddr));
        }
        assert(ka == kb);
    } else {
        if exists|k: int| #[trigger] sb.covers(k, vaddr) {
            let w = choose|k: int| #[trigger] sb.covers(k, vaddr);
            assert(sa.covers(w, vaddr));
        }
    }
}

/// What is stored where depends only on the mappings of the process.
pub proof fn lemma_patched_content_same_space(
    a: &Kernel,
    b: &Kernel,
    p: int,
    koid: KoID,
    content: Seq<u8>,
    patches: Seq<Patch>,
    n: int,
)
    requires
        a.processes@[p].vmar.maps() == b.processes@[p].vmar.maps(),
    ensures
        patched_content(a, p, koid, content, patches, n) == patched_content(
            b,
            p,
            koid,
            content,
            patches,
            n,
        ),
    decreases n,
{
    if n > 0 {
        lemma_patched_content_same_space(a, b, p, koid, content, patches, n - 1);
        lemma_resolve_same_maps(a, b, p, patches[n - 1].addr as int, 8);
    }
}

/// Whether `after` is `before` with one more process, `l.proc`, into which
/// `elf` is loaded and which runs: its one thread is started at the image's
/// entry with the stack pointer `l.sp`; its address space has one region
/// besides the root, of the image's size at the lowest address, and in it
/// one mapping for each segment to load, each of all of a memory object of
/// its own, which has the length of the segment's pages and holds the
/// segment's bytes, the address of the system call entry and the
/// relocations; `l.stack` is the initial stack for `args` and `envs`.
pub open spec fn started(
    before: &Kernel,
    after: &Kernel,
    elf: &ElfFile,
    l: &Loaded,
    args: Seq<String>,
    envs: Seq<String>,
    syscall_entry: u64,
    stack_base: u64,
) -> bool {
    let p = before.processes@.len() as int;
    let n = before.objects@.len() as int;
    let proc = after.processes@[p];
    let phs = elf.program_headers@;
    let segs = loads(phs, phs.len() as int);
    let next = before.koids.next_koid() + 2;
    let top = stack_top_of(stack_base);
    &&& after.wf()
    &&& l.proc == p
    &&& l.thread == 0
    &&& l.vmar == 1
    &&& l.base == before.user_base
    &&& l.entry == l.base + elf.entry_point
    &&& l.first_vmo == next
    &&& after.processes@.len() == p + 1
    &&& after.processes@.subrange(0, p) == before.processes@
    &&& after.objects@.len() == n + segs.len()
    &&& after.koids.next_koid() == next + segs.len()
    &&& forall|j: int|
        0 <= j < n ==> #[trigger] after.objects@[j] == before.objects@[j] && (
        before.objects@[j] matches KernelObject::Vmo(w) ==> w.content(&after.pmem) == w.content(
            &before.pmem,
        ))
    &&& forall|j: int|
        0 <= j < segs.len() ==> #[trigger] is_obj(
            after.objects@,
            n + j,
            (next + j) as u64,
            ObjectType::Vmo,
        )
    &&& proc.linux
    &&& proc.status == Status::Running
    &&& proc.threads@.len() == 1
    &&& proc.threads@[0].state == ThreadState::Running
    &&& proc.threads@[0].regs == (ThreadRegs { pc: l.entry, sp: l.sp as usize, arg0: 0, arg1: 0 })
    &&& proc.vmar.nodes().len() == 2
    &&& proc.vmar.nodes()[1].parent == Some(0usize)
    &&& proc.vmar.nodes()[1].addr == l.base
    &&& proc.vmar.nodes()[1].size == max_load_pages(phs) * 4096
    &&& proc.vmar.nodes()[1].alive
    &&& proc.vmar.maps().len() == segs.len()
    &&& forall|j: int|
        0 <= j < segs.len() ==> #[trigger] proc.vmar.maps()[j] == segment_mapping(
            segs[j],
            1,
            l.base as int,
            (next + j) as u64,
        )
    &&& proc.vmar.nodes()[1].flags.bits == 7
    &&& l.sp % 16 == 0
    &&& stack_base <= l.sp <= top
    &&& l.stack@ == stack_image(args, envs, auxv_for(elf, l.base as u64), top)
    &&& l.stack@.len() == top - l.sp
    &&& elf.relocations(l.base as u64) is Ok
    &&& has_entry_place(elf)
    &&& segments_inside(elf)
    &&& sized(after, n, segs)
    &&& holds_patched(
        after,
        p,
        n,
        next,
        segs,
        entry_seg_of(elf),
        entry_off_of(elf),
        syscall_entry,
        elf.relocations(l.base as u64)->Ok_0,
    )
}

/// Whether object `j` is a memory object in both `one` and `other` and holds
/// the same bytes in both.
pub open spec fn same_bytes_at(one: &Kernel, other: &Kernel, j: int) -> bool {
    one.objects@[j] is Vmo && other.objects@[j] is Vmo && one.vmo_at(j).content(&one.pmem)
        == other.vmo_at(j).content(&other.pmem)
}

/// Two loads of one image with the same arguments from the same state give
/// the same load base, entry, stack pointer and stack, the same region for
/// the image and the same mappings in it, memory objects that hold the
/// same bytes, and start the thread alike.
pub proof fn lemma_load_is_determined(
    before: &Kernel,
    one: &Kernel,
    other: &Kernel,
    elf: &ElfFile,
    l1: &Loaded,
    l2: &Loaded,
    args: Seq<String>,
    envs: Seq<String>,
    syscall_entry: u64,
    stack_base: u64,
)
    requires
        started(before, one, elf, l1, args, envs, syscall_entry, stack_base),
        started(before, other, elf, l2, args, envs, syscall_entry, stack_base),
    ensures
        l1.proc == l2.proc,
        l1.base == l2.base,
        l1.entry == l2.entry,
        l1.sp == l2.sp,
        l1.stack@ == l2.stack@,
        l1.first_vmo == l2.first_vmo,
        one.processes@[l1.proc as int].vmar.nodes()[1] == other.processes@[l2.proc as int].vmar.nodes()[1],
        one.processes@[l1.proc as int].vmar.maps() == other.processes@[l2.proc as int].vmar.maps(),
        one.processes@[l1.proc as int].threads@[0].regs
            == other.processes@[l2.proc as int].threads@[0].regs,
        one.objects@.len() == other.objects@.len(),
        forall|j: int|
            before.objects@.len() <= j < one.objects@.len() ==> #[trigger] same_bytes_at(
                one,
                other,
                j,
            ),
{
    let p = before.processes@.len() as int;
    let m1 = one.processes@[p].vmar.maps();
    let m2 = other.processes@[p].vmar.maps();
    assert forall|j: int| 0 <= j < m1.len() implies m1[j] == m2[j] by {
        assert(m1[j] == m1[j]);
        assert(m2[j] == m2[j]);
    }
    assert(m1 =~= m2);
    let n1 = one.processes@[p].vmar.nodes()[1];
    let n2 = other.processes@[p].vmar.nodes()[1];
    assert(n1.flags == n2.flags);
    let n = before.objects@.len() as int;
    let phs = elf.program_headers@;
    let segs = loads(phs, phs.len() as int);
    let next = before.koids.next_koid() + 2;
    let patches = elf.relocations(l1.base as u64)->Ok_0;
    assert forall|j: int| n <= j < one.objects@.len() implies #[trigger] same_bytes_at(
        one,
        other,
        j,
    ) by {
        let i = j - n;
        assert(patched_at(
            one,
            p,
            n,
            next,
            segs,
            i,
            entry_seg_of(elf),
            entry_off_of(elf),
            syscall_entry,
            patches,
        ));
        assert(patched_at(
            other,
            p,
            n,
            next,
            segs,
            i,
            entry_seg_of(elf),
            entry_off_of(elf),
            syscall_entry,
            patches,
        ));
        lemma_patched_content_same_space(
            one,
            other,
            p,
            (next + i) as u64,
            image_content(segs, i, entry_seg_of(elf), entry_off_of(elf), syscall_entry),
            patches,
            patches.len() as int,
        );
    }
}

/// A process that was started has its image mapped.
pub proof fn lemma_started_is_mapped(
    before: &Kernel,
    after: &Kernel,
    elf: &ElfFile,
    l: &Loaded,
    args: Seq<String>,
    envs: Seq<String>,
    syscall_entry: u64,
    stack_base: u64,
)
    requires
        started(before, after, elf, l, args, envs, syscall_entry, stack_base),
    ensures
        image_mapped(before, after, elf, l.proc as int),
{
}

/// After a load, the symbol of the system call entry is found where the
/// address of the entry was stored: the eight bytes at the load base plus
/// the symbol's value lie in the memory object of the segment that holds
/// the symbol, at the offset that the address was stored at.
pub proof fn lemma_entry_word_place(
    before: &Kernel,
    after: &Kernel,
    elf: &ElfFile,
    l: &Loaded,
    args: Seq<String>,
    envs: Seq<String>,
    syscall_entry: u64,
    stack_base: u64,
)
    requires
        started(before, after, elf, l, args, envs, syscall_entry, stack_base),
    ensures
        0 <= entry_seg_of(elf) < loads(
            elf.program_headers@,
            elf.program_headers@.len() as int,
        ).len(),
        after.resolve(l.proc as int, l.base + entry_symbol_value(elf), 8) == Some(
            ((l.first_vmo + entry_seg_of(elf)) as u64, entry_off_of(elf)),
        ),
{
    lemma_started_is_mapped(before, after, elf, l, args, envs, syscall_entry, stack_base);
    lemma_word_place(
        elf.program_headers@,
        entry_symbol_value(elf) as int,
        elf.program_headers@.len() as int,
    );
    lemma_word_resolves(
        before,
        after,
        elf,
        l.proc as int,
        entry_seg_of(elf),
        entry_symbol_value(elf) as int,
    );
}

/// Where the image is mapped, eight bytes that a mapping shows lie in the
/// segment that [`word_place`] finds for them.
#[verifier::spinoff_prover]
pub proof fn lemma_resolved_place(
    before: &Kernel,
    now: &Kernel,
    elf: &ElfFile,
    p: int,
    vaddr: int,
)
    requires
        image_mapped(before, now, elf, p),
        segments_inside(elf),
        now.resolve(p, vaddr, 8) is Some,
    ensures
        word_place(
            elf.program_headers@,
            vaddr - before.user_base,
            elf.program_headers@.len() as int,
        ) matches Some(at) && 0 <= at.0 < loads(
            elf.program_headers@,
            elf.program_headers@.len() as int,
        ).len() && at.1 == vaddr - before.user_base - page_base_of(
            loads(elf.program_headers@, elf.program_headers@.len() as int)[at.0],
        ) && now.resolve(p, vaddr, 8) == Some(((before.koids.next_koid() + 2 + at.0) as u64, at.1)),
{
    let phs = elf.program_headers@;
    let segs = loads(phs, phs.len() as int);
    let base = before.user_base as int;
    let space = now.processes@[p].vmar;
    lemma_mapped_extents(before, now, elf, p);
    assert(seg_holds(phs, first_cover(now, p, vaddr), vaddr - base)) by {
        reveal(Kernel::resolve);
        let w = choose|w: int| #[trigger] space.covers(w, vaddr);
        lemma_first_cover(&space, vaddr, w);
        let k = first_cover(now, p, vaddr);
        assert(space.maps()[k].addr == base + page_base_of(segs[k]));
    }
    let k = first_cover(now, p, vaddr);
    lemma_held_is_found(phs, vaddr - base, phs.len() as int, k);
    lemma_word_place(phs, vaddr - base, phs.len() as int);
    let at = word_place(phs, vaddr - base, phs.len() as int)->Some_0;
    assert(seg_holds(phs, at.0, vaddr - base));
    lemma_word_resolves(before, now, elf, p, at.0, vaddr - base);
}

/// The first mapping of process `p` of `k` that shows the address `vaddr`.
pub open spec fn first_cover(k: &Kernel, p: int, vaddr: int) -> int {
    let space = k.processes@[p].vmar;
    choose|w: int| #[trigger]
        space.covers(w, vaddr) && forall|j: int| 0 <= j < w ==> !#[trigger] space.covers(j, vaddr)
}

/// Stores of patches that keep off the eight bytes at `offset` of the
/// memory object of segment `e` leave those bytes as they are.
pub proof fn lemma_word_survives(
    before: &Kernel,
    now: &Kernel,
    elf: &ElfFile,
    p: int,
    patches: Seq<Patch>,
    n: int,
    e: int,
    v: int,
    content: Seq<u8>,
)
    requires
        image_mapped(before, now, elf, p),
        segments_inside(elf),
        0 <= n <= patches.len(),
        seg_holds(elf.program_headers@, e, v),
        v - page_base_of(loads(elf.program_headers@, elf.program_headers@.len() as int)[e]) + 8
            <= content.len(),
        forall|i: int|
            0 <= i < n ==> (#[trigger] patches[i]).addr + 8 <= before.user_base + v
                || before.user_base + v + 8 <= patches[i].addr,
    ensures
        ({
            let off = v - page_base_of(
                loads(elf.program_headers@, elf.program_headers@.len() as int)[e],
            );
            let koid = (before.koids.next_koid() + 2 + e) as u64;
            &&& patched_content(now, p, koid, content, patches, n).len() == content.len()
            &&& patched_content(now, p, koid, content, patches, n).subrange(off, off + 8)
                == content.subrange(off, off + 8)
        }),
    decreases n,
{
    let phs = elf.program_headers@;
    let segs = loads(phs, phs.len() as int);
    let off = v - page_base_of(segs[e]);
    let koid = (before.koids.next_koid() + 2 + e) as u64;
    if n > 0 {
        lemma_word_survives(before, now, elf, p, patches, n - 1, e, v, content);
        let prev = patched_content(now, p, koid, content, patches, n - 1);
        let patch = patches[n - 1];
        let vaddr = patch.addr as int;
        if now.resolve(p, vaddr, 8) is Some {
            lemma_resolved_place(before, now, elf, p, vaddr);
            let at = word_place(phs, vaddr - before.user_base, phs.len() as int)->Some_0;
            if now.resolve(p, vaddr, 8)->Some_0.0 == koid {
                assert(at.0 == e);
                let o = at.1;
                assert(o + 8 <= off || off + 8 <= o);
                let next = written(prev, o, words_bytes(seq![patch.value]));
                assert(next.subrange(off, off + 8) =~= prev.subrange(off, off + 8));
            }
        }
    }
}

/// After a load, the eight bytes at the symbol of the system call entry
/// are the address of the entry, lowest byte first, unless a relocation of
/// the image stores into them.
pub proof fn lemma_entry_word_kept(
    before: &Kernel,
    after: &Kernel,
    elf: &ElfFile,
    l: &Loaded,
    args: Seq<String>,
    envs: Seq<String>,
    syscall_entry: u64,
    stack_base: u64,
)
    requires
        started(before, after, elf, l, args, envs, syscall_entry, stack_base),
        forall|i: int|
            0 <= i < elf.relocations(l.base as u64)->Ok_0.len() ==> (
            #[trigger] elf.relocations(l.base as u64)->Ok_0[i]).addr + 8 <= l.base
                + entry_symbol_value(elf) || l.base + entry_symbol_value(elf) + 8
                <= elf.relocations(l.base as u64)->Ok_0[i].addr,
    ensures
        after.resolve(l.proc as int, l.base + entry_symbol_value(elf), 8) == Some(
            ((l.first_vmo + entry_seg_of(elf)) as u64, entry_off_of(elf)),
        ),
        after.vmo_at(before.objects@.len() + entry_seg_of(elf)).content(&after.pmem).subrange(
            entry_off_of(elf),
            entry_off_of(elf) + 8,
        ) == words_bytes(seq![syscall_entry]),
{
    let phs = elf.program_headers@;
    let segs = loads(phs, phs.len() as int);
    let e = entry_seg_of(elf);
    let off = entry_off_of(elf);
    let v = entry_symbol_value(elf) as int;
    let n = before.objects@.len() as int;
    let next = before.koids.next_koid() + 2;
    let patches = elf.relocations(l.base as u64)->Ok_0;
    lemma_entry_word_place(before, after, elf, l, args, envs, syscall_entry, stack_base);
    lemma_started_is_mapped(before, after, elf, l, args, envs, syscall_entry, stack_base);
    lemma_word_place(phs, v, phs.len() as int);
    assert(seg_holds(phs, e, v));
    assert(segment_inside(segs[e], max_load_pages(phs) * 4096));
    let word = words_bytes(seq![syscall_entry]);
    assert(word.len() == 8);
    let start = image_content(segs, e, e, off, syscall_entry);
    assert(start.len() == segment_pages(segs[e]) * 4096);
    assert(start.subrange(off, off + 8) =~= word);
    assert(patched_at(after, l.proc as int, n, next, segs, e, e, off, syscall_entry, patches));
    lemma_word_survives(
        before,
        after,
        elf,
        l.proc as int,
        patches,
        patches.len() as int,
        e,
        v,
        start,
    );
}

/// After a load, every byte of each mapping of the image lies in the
/// region of the image and in the mapping's memory object: mapping `j`
/// starts at the first byte of the object of segment `j` and is as long as
/// that object.
pub proof fn lemma_mappings_within(
    before: &Kernel,
    after: &Kernel,
    elf: &ElfFile,
    l: &Loaded,
    args: Seq<String>,
    envs: Seq<String>,
    syscall_entry: u64,
    stack_base: u64,
    j: int,
)
    requires
        started(before, after, elf, l, args, envs, syscall_entry, stack_base),
        0 <= j < loads(elf.program_headers@, elf.program_headers@.len() as int).len(),
    ensures
        ({
            let m = after.processes@[l.proc as int].vmar.maps()[j];
            let region = after.processes@[l.proc as int].vmar.nodes()[1];
            &&& m.vmar == 1
            &&& m.vmo == l.first_vmo + j
            &&& is_obj(after.objects@, before.objects@.len() + j, m.vmo, ObjectType::Vmo)
            &&& m.vmo_offset == 0
            &&& m.size == after.vmo_at(before.objects@.len() + j).size()
            &&& crate::vm::vmar::inside(
                m.addr as int,
                m.size as int,
                region.addr as int,
                region.size as int,
            )
        }),
{
    lemma_started_is_mapped(before, after, elf, l, args, envs, syscall_entry, stack_base);
    lemma_mapped_extents(before, after, elf, l.proc as int);
    let segs = loads(elf.program_headers@, elf.program_headers@.len() as int);
    assert(segment_inside(segs[j], max_load_pages(elf.program_headers@) * 4096));
    assert(is_obj(
        after.objects@,
        before.objects@.len() + j,
        (before.koids.next_koid() + 2 + j) as u64,
        ObjectType::Vmo,
    ));
    assert(after.objects@[before.objects@.len() + j] is Vmo);
}

/// Whether object `j` of `before` is in its place in `now` and, if it is a
/// memory object, holds what it held.
pub open spec fn kept_at(before: &Kernel, now: &Kernel, j: int) -> bool {
    now.objects@[j] == before.objects@[j] && (before.objects@[j] matches KernelObject::Vmo(w)
        ==> w.content(&now.pmem) == w.content(&before.pmem))
}

/// Whether the objects of `before` are in their places in `now` and the
/// memory objects among them hold what they held.
pub open spec fn objects_kept(before: &Kernel, now: &Kernel) -> bool {
    forall|j: int| 0 <= j < before.objects@.len() ==> #[trigger] kept_at(before, now, j)
}

/// Undoes a load that failed: ends region `vmar` of process `p`, the last
/// process, with its mappings, and ends the objects known by `first` and
/// later identifiers that nothing refers to any more.
#[verifier::spinoff_prover]
#[verifier::rlimit(60)]
fn abort_load(kernel: &mut Kernel, p: usize, vmar: usize, first: KoID, Ghost(before): Ghost<Kernel>)
    requires
        before.wf(),
        loading(&before, old(kernel), p as int, vmar),
        before.koids.next_koid() == first,
    ensures
        rolled_back(&before, final(kernel)),
        final(kernel).processes@.len() == before.processes@.len() + 1,
{
    let ghost n = before.objects@.len() as int;
    let ghost start = *kernel;
    proof {
        assert(crate::kernel::process_ok(start.objects@, start.processes@[p as int]));
    }
    let gone = kernel.vmar_destroy(p, vmar);
    proof {
        let space = start.processes@[p as int].vmar;
        let marks = space.subtree_marks(vmar as int);
        space.lemma_parts_ok();
        assert forall|k: int| 0 <= k < space.maps().len() implies marks[(
        #[trigger] space.maps()[k]).vmar as int] by {
            assert(space.maps()[k].vmar == vmar);
        }
        crate::vm::vmar::lemma_cut_all_empty(
            space.maps(),
            marks,
            vmar as int,
            0,
            0,
            space.maps().len() as int,
        );
        assert forall|q: int| 0 <= q < p implies kernel.processes@.subrange(0, p as int)[q]
            == before.processes@[q] by {
            assert(start.processes@.subrange(0, p as int)[q] == before.processes@[q]);
        }
        assert(kernel.processes@.subrange(0, p as int) =~= before.processes@);
        assert forall|j: int| 0 <= j < n implies #[trigger] kept_at(&before, kernel, j) by {
            assert(start.objects@[j] == before.objects@[j]);
            assert(kernel.objects@[j] == start.objects@[j]);
        }
        assert forall|j: int| n <= j < kernel.objects@.len() implies #[trigger] fresh_vmo_at(
            kernel,
            j,
            first,
        ) by {
            assert(fresh_vmo_at(&start, j, first));
        }
    }
    let end: KoID = kernel.koids.peek();
    let mut k: KoID = first;
    while k < end
        invariant
            kernel.wf(),
            before.wf(),
            n == before.objects@.len(),
            before.koids.next_koid() <= k <= end,
            end == kernel.koids.next_koid(),
            p == before.processes@.len(),
            kernel.processes@.len() == p + 1,
            kernel.processes@.subrange(0, p as int) == before.processes@,
            kernel.processes@[p as int].vmar.maps().len() == 0,
            kernel.processes@[p as int].handles.entries().len() == 0,
            kernel.processes@[p as int].status == Status::Init,
            kernel.processes@[p as int].threads@.len() == 1,
            kernel.processes@[p as int].threads@[0].state == ThreadState::Initial,
            kernel.processes@[p as int].vmar.nodes().len() == 2,
            !kernel.processes@[p as int].vmar.nodes()[1].alive,
            kernel.user_base == before.user_base,
            kernel.user_size == before.user_size,
            kernel.objects@.len() >= n,
            objects_kept(&before, kernel),
            fresh_vmos_from(kernel, n, k),
        decreases end - k,
    {
        let ghost prev = *kernel;
        proof {
            assert forall|j: int| n <= j < prev.objects@.len() implies #[trigger] fresh_vmo_at(
                &prev,
                j,
                before.koids.next_koid(),
            ) by {
                assert(fresh_vmo_at(&prev, j, k));
            }
            lemma_not_referenced(&before, &prev, p as int, k);
        }
        let done = kernel.collect(k);
        proof {
            if done {
                let i = choose|i: int|
                    0 <= i < prev.objects@.len() && obj_koid(#[trigger] prev.objects@[i]) == k
                        && kernel.objects@ == prev.objects@.remove(i);
                assert(i >= n) by {
                    if i < n {
                        assert(kept_at(&before, &prev, i));
                        assert(obj_koid(before.objects@[i]) < before.koids.next_koid());
                    }
                }
                assert forall|j: int| 0 <= j < n implies #[trigger] kept_at(
                    &before,
                    kernel,
                    j,
                ) by {
                    assert(kept_at(&before, &prev, j));
                    assert(kernel.objects@[j] == prev.objects@[j]);
                    if let KernelObject::Vmo(w) = before.objects@[j] {
                        assert(crate::kernel::object_ok(prev.objects@[j], &prev.pmem));
                        assert(obj_koid(before.objects@[j]) < before.koids.next_koid());
                        w.lemma_untouched_by(&prev.pmem, &kernel.pmem, k);
                    }
                }
                assert forall|j: int| n <= j < kernel.objects@.len() implies #[trigger] fresh_vmo_at(
                    kernel,
                    j,
                    (k + 1) as u64,
                ) by {
                    let j0 = if j < i {
                        j
                    } else {
                        j + 1
                    };
                    assert(kernel.objects@[j] == prev.objects@[j0]);
                    assert(fresh_vmo_at(&prev, j0, k));
                    assert(obj_koid(prev.objects@[j0]) != obj_koid(prev.objects@[i]));
                }
            } else {
                assert(kernel.objects@ == prev.objects@);
                assert(kernel.pmem == prev.pmem);
                assert forall|j: int| 0 <= j < n implies #[trigger] kept_at(
                    &before,
                    kernel,
                    j,
                ) by {
                    assert(kept_at(&before, &prev, j));
                }
                assert forall|j: int| n <= j < kernel.objects@.len() implies #[trigger] fresh_vmo_at(
                    kernel,
                    j,
                    (k + 1) as u64,
                ) by {
                    assert(fresh_vmo_at(&prev, j, k));
                    assert(obj_koid(prev.objects@[j]) != k);
                }
            }
        }
        k += 1;
    }
    proof {
        assert forall|j: int| 0 <= j < before.objects@.len() implies #[trigger] kernel.objects@[j]
            == before.objects@[j] && (before.objects@[j] matches KernelObject::Vmo(w)
            ==> w.content(&kernel.pmem) == w.content(&before.pmem)) by {
            assert(kept_at(&before, kernel, j));
        }
        if kernel.objects@.len() > n {
            assert(fresh_vmo_at(kernel, n, k));
            assert(obj_koid(kernel.objects@[n]) < kernel.koids.next_koid());
        }
    }
}

/// Nothing refers to an identifier that the allocator had not emitted in
/// `before`, if `now` is `before` with one more process, which has neither
/// handles nor mappings, and with more memory objects.
pub proof fn lemma_not_referenced(before: &Kernel, now: &Kernel, p: int, k: KoID)
    requires
        before.wf(),
        p == before.processes@.len(),
        now.processes@.len() == p + 1,
        now.processes@.subrange(0, p) == before.processes@,
        now.processes@[p].vmar.maps().len() == 0,
        now.processes@[p].handles.entries().len() == 0,
        now.objects@.len() >= before.objects@.len(),
        objects_kept(before, now),
        fresh_vmos_from(now, before.objects@.len() as int, before.koids.next_koid()),
        k >= before.koids.next_koid(),
    ensures
        !now.referenced(k),
{
    assert forall|q: int| 0 <= q < now.processes@.len() implies !crate::kernel::process_refers(
        #[trigger] now.processes@[q],
        k,
    ) by {
        if q < p {
            assert(now.processes@.subrange(0, p)[q] == before.processes@[q]);
            lemma_fresh_unreferenced(before, q, k);
        }
    }
    assert forall|j: int| 0 <= j < now.objects@.len() implies !crate::kernel::refers_to(
        #[trigger] now.objects@[j],
        k,
    ) by {
        if j < before.objects@.len() {
            assert(kept_at(before, now, j));
            lemma_fresh_unreferred(before, j, k);
        } else {
            assert(fresh_vmo_at(now, j, before.koids.next_koid()));
        }
    }
}

/// What loading the segment `ph` comes to in a new region of `size` bytes
/// that holds nothing but the segments `done`, when `next` is the next
/// identifier and `free` frames were free before the first segment:
/// `INVALID_ARGS` for a first page beyond the machine's addresses, a
/// segment that is not [`segment_ok`] or takes no page, reaches past the
/// region or meets the pages of a segment loaded before; `NO_MEMORY` when
/// the identifiers or the frames are used up.
pub open spec fn image_step(
    next: int,
    free: int,
    size: int,
    done: Seq<ProgramHeader>,
    ph: ProgramHeader,
) -> ZxResult {
    if page_base_of(ph) > usize::MAX || !segment_ok(ph) {
        Err(ZxError::INVALID_ARGS)
    } else if next + done.len() >= u64::MAX || frames_of(done) + segment_frames(ph) > free {
        Err(ZxError::NO_MEMORY)
    } else if segment_pages(ph) == 0 {
        Err(ZxError::INVALID_ARGS)
    } else if page_base_of(ph) + segment_pages(ph) * 4096 > size || meets_any(done, ph) {
        Err(ZxError::INVALID_ARGS)
    } else {
        Ok(())
    }
}

/// What loading the segments among the first `n` of `phs` into a new
/// region comes to: the failure of the first segment that cannot be loaded,
/// as [`image_step`] says.
pub open spec fn image_steps(next: int, free: int, size: int, phs: Seq<ProgramHeader>, n: int)
    -> ZxResult
    decreases n,
{
    if n <= 0 {
        Ok(())
    } else {
        match image_steps(next, free, size, phs, n - 1) {
            Err(e) => Err(e),
            Ok(_) => if phs[n - 1].type_ == SegmentType::Load {
                image_step(next, free, size, loads(phs, n - 1), phs[n - 1])
            } else {
                Ok(())
            },
        }
    }
}

/// Whether segment `j` of the segments of `phs` that are to be loaded holds
/// the eight bytes at the address `v` of the image.
pub open spec fn seg_holds(phs: Seq<ProgramHeader>, j: int, v: int) -> bool {
    0 <= j < loads(phs, phs.len() as int).len() && holds_word(loads(phs, phs.len() as int)[j], v)
}

/// The stack pointer with which a program with the arguments `args` and
/// the environment `envs` is entered, for a stack buffer at `stack_base`.
pub open spec fn entry_sp_of(args: Seq<String>, envs: Seq<String>, stack_base: u64) -> int {
    let strs = crate::loader::abi::push_order(args, envs);
    crate::loader::abi::entry_sp(
        crate::loader::abi::addr_after(strs, stack_top_of(stack_base), strs.len() as int),
        (args.len() + envs.len() + 15) as int,
    )
}

/// What placing the image `elf` in a new process comes to, in the state `k`
/// and for the arguments `args`, the environment `envs` and a stack buffer
/// at `stack_base`: the first of these that fails. The size of the image;
/// the symbol of the system call entry and the segment that holds it; the
/// arguments and the stack buffer; the two identifiers of the process and
/// its thread; the region for the image in the new address space; the
/// entry address; the initial stack; then each segment in turn, as
/// [`image_step`] says.
pub open spec fn placing_result(
    k: &Kernel,
    elf: &ElfFile,
    args: Seq<String>,
    envs: Seq<String>,
    stack_base: u64,
) -> Result<(), LoadError> {
    let phs = elf.program_headers@;
    let size = max_load_pages(phs) * 4096;
    let sp = entry_sp_of(args, envs, stack_base);
    if elf.load_size() is Err {
        Err(elf.load_size()->Err_0)
    } else if !has_entry_symbol(elf) {
        Err(LoadError::EntrySymbolNotFound)
    } else if !has_entry_place(elf) {
        Err(LoadError::EntrySymbolUnmapped)
    } else if entry_off_of(elf) > usize::MAX {
        Err(LoadError::OutOfRange)
    } else if args.len() == 0 || stack_base + 0x8000 > u64::MAX {
        Err(LoadError::BadArguments)
    } else if k.koids.next_koid() >= u64::MAX - 1 {
        Err(LoadError::Kernel(ZxError::NO_MEMORY))
    } else if size == 0 {
        Err(LoadError::Kernel(ZxError::INVALID_ARGS))
    } else if size > k.user_size {
        Err(LoadError::Kernel(ZxError::NO_MEMORY))
    } else if elf.entry_point > usize::MAX - k.user_base {
        Err(LoadError::OutOfRange)
    } else if sp < stack_base {
        Err(LoadError::BadArguments)
    } else if sp > usize::MAX {
        Err(LoadError::OutOfRange)
    } else {
        match image_steps(
            k.koids.next_koid() + 2,
            k.pmem.free_frames() as int,
            size,
            phs,
            phs.len() as int,
        ) {
            Err(e) => Err(LoadError::Kernel(e)),
            Ok(_) => Ok(()),
        }
    }
}

/// Whether [`run`] gets as far as making the new process: the size of the
/// image, the symbol of the system call entry and its place, the arguments
/// and the stack buffer are in order, and two identifiers are left.
pub open spec fn process_made(
    k: &Kernel,
    elf: &ElfFile,
    args: Seq<String>,
    stack_base: u64,
) -> bool {
    &&& elf.load_size() is Ok
    &&& has_entry_symbol(elf)
    &&& has_entry_place(elf)
    &&& entry_off_of(elf) <= usize::MAX
    &&& args.len() > 0
    &&& stack_base + 0x8000 <= u64::MAX
    &&& k.koids.next_koid() < u64::MAX - 1
}

/// What [`run`] comes to: the failure of [`placing_result`]; else
/// `NO_MEMORY` where the store of the address of the system call entry
/// finds fewer frames free than [`entry_frames`]; else the failure of the
/// relocations of the image; else the failure of the first store that a
/// relocation asks for and that cannot be done, as [`image_store_steps`]
/// says.
pub open spec fn run_result(
    k: &Kernel,
    elf: &ElfFile,
    args: Seq<String>,
    envs: Seq<String>,
    stack_base: u64,
) -> Result<(), LoadError> {
    let segs = loads(elf.program_headers@, elf.program_headers@.len() as int);
    let free = k.pmem.free_frames() - frames_of(segs);
    match placing_result(k, elf, args, envs, stack_base) {
        Err(e) => Err(e),
        Ok(_) => if entry_frames(elf) > free {
            Err(LoadError::Kernel(ZxError::NO_MEMORY))
        } else {
            match elf.relocations(k.user_base as u64) {
                Err(e) => Err(e),
                Ok(patches) => match image_store_steps(
                    free - entry_frames(elf),
                    elf,
                    k.user_base as int,
                    patches,
                    patches.len() as int,
                ) {
                    Err(e) => Err(LoadError::Kernel(e)),
                    Ok(_) => Ok(()),
                },
            }
        },
    }
}

/// Where the segments among the first `m` headers can all be placed, so
/// can those among the first `n`.
pub proof fn lemma_image_steps_before(
    next: int,
    free: int,
    size: int,
    phs: Seq<ProgramHeader>,
    n: int,
    m: int,
)
    requires
        0 <= n <= m,
        image_steps(next, free, size, phs, m) is Ok,
    ensures
        image_steps(next, free, size, phs, n) is Ok,
    decreases m - n,
{
    if n < m {
        lemma_image_steps_before(next, free, size, phs, n, m - 1);
    }
}

/// An image of which two segments share a page is not run.
pub proof fn lemma_run_refuses_shared_page(
    k: &Kernel,
    elf: &ElfFile,
    args: Seq<String>,
    envs: Seq<String>,
    stack_base: u64,
    a: int,
    b: int,
)
    requires
        0 <= a < b < elf.program_headers@.len(),
        elf.program_headers@[a].type_ == SegmentType::Load,
        elf.program_headers@[b].type_ == SegmentType::Load,
        !disjoint(
            page_base_of(elf.program_headers@[a]),
            segment_pages(elf.program_headers@[a]) * 4096,
            page_base_of(elf.program_headers@[b]),
            segment_pages(elf.program_headers@[b]) * 4096,
        ),
    ensures
        run_result(k, elf, args, envs, stack_base) is Err,
{
    let phs = elf.program_headers@;
    let next = k.koids.next_koid() + 2;
    let free = k.pmem.free_frames() as int;
    let size = max_load_pages(phs) * 4096;
    let ia = loads(phs, a).len() as int;
    assert(loads(phs, a + 1) == loads(phs, a).push(phs[a]));
    lemma_loads_prefix(phs, a + 1, b, ia);
    assert(meets_at(loads(phs, b), ia, phs[b]));
    assert(meets_any(loads(phs, b), phs[b]));
    assert(image_step(next, free, size, loads(phs, b), phs[b]) is Err);
    if image_steps(next, free, size, phs, phs.len() as int) is Ok {
        lemma_image_steps_before(next, free, size, phs, b + 1, phs.len() as int);
        lemma_image_steps_before(next, free, size, phs, b, b + 1);
    }
}

/// The permissions that a segment asks for are within read, write and
/// execute.
pub proof fn lemma_bits_within(f: xmas_elf::program::Flags)
    ensures
        flags_within(MMUFlags { bits: crate::loader::flags::mmu_bits(f) }, MMUFlags { bits: 7 }),
{
    let a: u32 = if f.0 & 0x4 == 0x4 {
        1u32
    } else {
        0u32
    };
    let b: u32 = if f.0 & 0x2 == 0x2 {
        2u32
    } else {
        0u32
    };
    let c: u32 = if f.0 & 0x1 == 0x1 {
        4u32
    } else {
        0u32
    };
    assert((a | b | c) & 7 == (a | b | c)) by (bit_vector)
        requires
            a == 0 || a == 1,
            b == 0 || b == 2,
            c == 0 || c == 4,
    ;
}

/// Whether region `1` of process `p` of `k` is a new region of `size` bytes
/// cut from the root, with every permission and nothing in it.
pub open spec fn region_new(k: &Kernel, p: int, size: int) -> bool {
    let space = k.processes@[p].vmar;
    &&& k.wf()
    &&& 0 <= p < k.processes@.len()
    &&& space.nodes().len() == 2
    &&& space.nodes()[1].alive
    &&& space.nodes()[1].parent == Some(0usize)
    &&& space.nodes()[1].size == size
    &&& space.nodes()[1].flags.bits == 7
    &&& space.maps().len() == 0
}

/// In a new region, loading a segment comes to what [`image_step`] says.
pub proof fn lemma_image_step(
    k: &Kernel,
    p: int,
    size: int,
    done: Seq<ProgramHeader>,
    ph: ProgramHeader,
)
    requires
        region_new(k, p, size),
    ensures
        segment_step(k, p, 1, done, ph) == image_step(
            k.koids.next_koid() as int,
            k.pmem.free_frames() as int,
            size,
            done,
            ph,
        ),
{
    reveal(crate::vm::vmar::AddressSpace::range_free);
    let space = k.processes@[p].vmar;
    assert(crate::kernel::process_ok(k.objects@, k.processes@[p]));
    space.lemma_parts_ok();
    assert(space.node_ok(0));
    assert(space.node_ok(1));
    lemma_bits_within(ph.flags);
    assert(space.nodes()[1].flags == MMUFlags { bits: 7 });
    let start = space.nodes()[1].addr + page_base_of(ph);
    let len = segment_pages(ph) * 4096;
    assert(space.range_free(1, start, len) <==> page_base_of(ph) + len <= size) by {
        assert forall|i: int| #[trigger] space.is_child(i, 1) implies false by {
            if i == 0 {
                assert(space.nodes()[0].parent is None);
            }
        }
        assert forall|m: int| #[trigger] space.is_map_of(m, 1) implies false by {}
    }
}

/// In a new region, loading the segments comes to what [`image_steps`]
/// says.
pub proof fn lemma_image_steps(k: &Kernel, p: int, size: int, phs: Seq<ProgramHeader>, n: int)
    requires
        region_new(k, p, size),
        0 <= n <= phs.len(),
    ensures
        load_steps(k, p, 1, phs, n) == image_steps(
            k.koids.next_koid() as int,
            k.pmem.free_frames() as int,
            size,
            phs,
            n,
        ),
    decreases n,
{
    if n > 0 {
        lemma_image_steps(k, p, size, phs, n - 1);
        lemma_image_step(k, p, size, loads(phs, n - 1), phs[n - 1]);
    }
}

/// Whether the segment `ph` can have a memory object and lies, with at
/// least one page, in a region of `size` bytes.
pub open spec fn segment_inside(ph: ProgramHeader, size: int) -> bool {
    &&& segment_ok(ph)
    &&& page_base_of(ph) <= usize::MAX
    &&& segment_pages(ph) > 0
    &&& page_base_of(ph) + segment_pages(ph) * 4096 <= size
}

/// Where the segments among the first `n` headers can all be loaded into a
/// region, each lies in the region.
pub proof fn lemma_segments_inside(
    next: int,
    free: int,
    size: int,
    phs: Seq<ProgramHeader>,
    n: int,
)
    requires
        0 <= n <= phs.len(),
        image_steps(next, free, size, phs, n) is Ok,
    ensures
        forall|j: int| 0 <= j < loads(phs, n).len() ==> segment_inside(#[trigger] loads(phs, n)[j], size),
    decreases n,
{
    if n > 0 {
        lemma_segments_inside(next, free, size, phs, n - 1);
    }
}

/// Whether process `p` of `now` has the image `elf` mapped the way [`run`]
/// maps it from the state `before`: region `1` of the image's size at the
/// lowest address of the address space, and in it one mapping for each
/// segment to load, each of a memory object of its own, named in order
/// from the second identifier after those of `before`.
pub open spec fn image_mapped(before: &Kernel, now: &Kernel, elf: &ElfFile, p: int) -> bool {
    let n = before.objects@.len() as int;
    let proc = now.processes@[p];
    let phs = elf.program_headers@;
    let segs = loads(phs, phs.len() as int);
    let next = before.koids.next_koid() + 2;
    &&& now.wf()
    &&& 0 <= p < now.processes@.len()
    &&& now.objects@.len() == n + segs.len()
    &&& now.koids.next_koid() == next + segs.len()
    &&& forall|j: int|
        0 <= j < segs.len() ==> #[trigger] is_obj(
            now.objects@,
            n + j,
            (next + j) as u64,
            ObjectType::Vmo,
        )
    &&& proc.vmar.nodes().len() == 2
    &&& proc.vmar.nodes()[1].addr == before.user_base
    &&& proc.vmar.nodes()[1].size == max_load_pages(phs) * 4096
    &&& proc.vmar.maps().len() == segs.len()
    &&& forall|j: int|
        0 <= j < segs.len() ==> #[trigger] proc.vmar.maps()[j] == segment_mapping(
            segs[j],
            1,
            before.user_base as int,
            (next + j) as u64,
        )
}

/// Whether every segment of `elf` that is to be loaded lies in the region
/// that the image takes, as [`segment_inside`] says.
pub open spec fn segments_inside(elf: &ElfFile) -> bool {
    forall|j: int|
        0 <= j < loads(elf.program_headers@, elf.program_headers@.len() as int).len()
            ==> segment_inside(
            #[trigger] loads(elf.program_headers@, elf.program_headers@.len() as int)[j],
            max_load_pages(elf.program_headers@) * 4096,
        )
}

/// Where the image is mapped, the mappings stand where the segments say.
pub proof fn lemma_mapped_extents(before: &Kernel, now: &Kernel, elf: &ElfFile, p: int)
    requires
        image_mapped(before, now, elf, p),
        segments_inside(elf),
    ensures
        forall|j: int|
            0 <= j < loads(elf.program_headers@, elf.program_headers@.len() as int).len() ==> {
                &&& (#[trigger] now.processes@[p].vmar.maps()[j]).addr == before.user_base
                    + page_base_of(
                    loads(elf.program_headers@, elf.program_headers@.len() as int)[j],
                )
                &&& now.processes@[p].vmar.maps()[j].size == segment_pages(
                    loads(elf.program_headers@, elf.program_headers@.len() as int)[j],
                ) * 4096
                &&& now.processes@[p].vmar.maps()[j].vmar == 1
                &&& now.processes@[p].vmar.maps()[j].vmo == before.koids.next_koid() + 2 + j
                &&& now.processes@[p].vmar.maps()[j].vmo_offset == 0
            },
{
    let phs = elf.program_headers@;
    let segs = loads(phs, phs.len() as int);
    let n = before.objects@.len() as int;
    let next = before.koids.next_koid() + 2;
    let base = before.user_base as int;
    let space = now.processes@[p].vmar;
    let size = max_load_pages(phs) * 4096;
    assert(crate::kernel::process_ok(now.objects@, now.processes@[p]));
    space.lemma_parts_ok();
    assert(space.node_ok(1));
    assert forall|j: int| 0 <= j < segs.len() implies {
        &&& (#[trigger] space.maps()[j]).addr == base + page_base_of(segs[j])
        &&& space.maps()[j].size == segment_pages(segs[j]) * 4096
        &&& space.maps()[j].vmar == 1
        &&& space.maps()[j].vmo == next + j
        &&& space.maps()[j].vmo_offset == 0
    } by {
        assert(segment_inside(segs[j], size));
        assert(is_obj(now.objects@, n + j, (next + j) as u64, ObjectType::Vmo));
        assert(space.maps()[j] == segment_mapping(segs[j], 1, base, (next + j) as u64));
    }
}

/// Where the image is mapped, the eight bytes at the address `v` of the
/// image, which segment `j` holds, are found in the memory object of that
/// segment, at their offset from the segment's first page.
#[verifier::spinoff_prover]
pub proof fn lemma_word_resolves(
    before: &Kernel,
    now: &Kernel,
    elf: &ElfFile,
    p: int,
    j: int,
    v: int,
)
    requires
        image_mapped(before, now, elf, p),
        segments_inside(elf),
        seg_holds(elf.program_headers@, j, v),
    ensures
        now.resolve(p, before.user_base + v, 8) == Some(
            (
                (before.koids.next_koid() + 2 + j) as u64,
                v - page_base_of(loads(elf.program_headers@, elf.program_headers@.len() as int)[j]),
            ),
        ),
{
    reveal(Kernel::resolve);
    let phs = elf.program_headers@;
    let segs = loads(phs, phs.len() as int);
    let base = before.user_base as int;
    let space = now.processes@[p].vmar;
    let vaddr = base + v;
    lemma_mapped_extents(before, now, elf, p);
    assert(crate::kernel::process_ok(now.objects@, now.processes@[p]));
    space.lemma_maps_apart();
    assert(space.maps()[j].addr == base + page_base_of(segs[j]));
    assert(space.covers(j, vaddr));
    lemma_first_cover(&space, vaddr, j);
    let k = choose|k: int| #[trigger]
        space.covers(k, vaddr) && forall|i: int| 0 <= i < k ==> !#[trigger] space.covers(i, vaddr);
    if k != j {
        assert(space.maps()[k].vmar == 1);
        assert(crate::vm::vmar::same_region(space.maps(), k, j));
    }
    assert(k == j);
}

/// Whether the memory object of each segment of `segs`, object `n + j` of
/// `now` for segment `j`, has the length of the segment's pages.
pub open spec fn sized(now: &Kernel, n: int, segs: Seq<ProgramHeader>) -> bool {
    forall|j: int|
        0 <= j < segs.len() ==> (#[trigger] now.objects@[n + j]) is Vmo && now.vmo_at(n + j).size()
            == segment_pages(segs[j]) * 4096
}

/// Memory objects that hold the image have the lengths of the segments.
pub proof fn lemma_sized(
    now: &Kernel,
    n: int,
    segs: Seq<ProgramHeader>,
    entered: bool,
    entry_seg: int,
    entry_offset: int,
    syscall_entry: u64,
    size: int,
)
    requires
        now.wf(),
        0 <= n,
        n + segs.len() <= now.objects@.len(),
        holds_image(now, n, segs, entered, entry_seg, entry_offset, syscall_entry),
        forall|j: int| 0 <= j < segs.len() ==> segment_inside(#[trigger] segs[j], size),
    ensures
        sized(now, n, segs),
{
    assert forall|j: int| 0 <= j < segs.len() implies (#[trigger] now.objects@[n + j]) is Vmo
        && now.vmo_at(n + j).size() == segment_pages(segs[j]) * 4096 by {
        assert(image_at(now, n, segs, j, entered, entry_seg, entry_offset, syscall_entry));
        assert(segment_inside(segs[j], size));
        assert(crate::kernel::object_ok(now.objects@[n + j], &now.pmem));
        let v = now.vmo_at(n + j);
        assert(v.content(&now.pmem).len() == segment_pages(segs[j]) * 4096);
        assert(v.content(&now.pmem).len() == v.size());
    }
}

/// Where the store of `patch` goes in an image with the headers `phs` that
/// is loaded at `base`: the number of the segment that holds the eight
/// bytes at the patch's address, and their offset in that segment's memory
/// object; `None` where the address is none of the machine's or no segment
/// holds the bytes.
pub open spec fn image_place(phs: Seq<ProgramHeader>, base: int, patch: Patch) -> Option<
    (int, int),
> {
    if patch.addr <= usize::MAX {
        word_place(phs, patch.addr - base, phs.len() as int)
    } else {
        None
    }
}

/// Whether page `page` of the memory object of segment `j` has memory
/// behind it once the address of the system call entry is stored: the
/// bytes of the segment touch it, or the address does.
pub open spec fn entry_backed(elf: &ElfFile, j: int, page: int) -> bool {
    data_touched(loads(elf.program_headers@, elf.program_headers@.len() as int)[j], page) || (j
        == entry_seg_of(elf) && word_touches(entry_off_of(elf), page))
}

/// Number of frames that the store of the address of the system call entry
/// takes: one for each of the one or two pages that it touches and that
/// the bytes of its segment do not.
pub open spec fn entry_frames(elf: &ElfFile) -> int {
    let ph = loads(elf.program_headers@, elf.program_headers@.len() as int)[entry_seg_of(elf)];
    let lo = entry_off_of(elf) / 4096;
    let hi = (entry_off_of(elf) + 7) / 4096;
    (if data_touched(ph, lo) {
        0int
    } else {
        1int
    }) + (if hi != lo && !data_touched(ph, hi) {
        1int
    } else {
        0int
    })
}

/// Whether page `page` of the memory object of segment `j` has memory
/// behind it once the first `n` of `patches` are stored into the image
/// loaded at `base`.
pub open spec fn image_backed(
    elf: &ElfFile,
    base: int,
    patches: Seq<Patch>,
    n: int,
    j: int,
    page: int,
) -> bool
    decreases n,
{
    if n <= 0 {
        entry_backed(elf, j, page)
    } else {
        image_backed(elf, base, patches, n - 1, j, page) || (image_place(
            elf.program_headers@,
            base,
            patches[n - 1],
        ) matches Some(at) && at.0 == j && word_touches(at.1, page))
    }
}

/// Number of frames that the store of patch `i` into the image takes,
/// after the stores before it.
pub open spec fn image_frames_for(elf: &ElfFile, base: int, patches: Seq<Patch>, i: int) -> int {
    let at = image_place(elf.program_headers@, base, patches[i])->Some_0;
    let lo = at.1 / 4096;
    let hi = (at.1 + 7) / 4096;
    (if image_backed(elf, base, patches, i, at.0, lo) {
        0int
    } else {
        1int
    }) + (if hi != lo && !image_backed(elf, base, patches, i, at.0, hi) {
        1int
    } else {
        0int
    })
}

/// Number of frames that are free once the first `n` of `patches` are
/// stored into the image, of `free` before the first.
pub open spec fn image_free(free: int, elf: &ElfFile, base: int, patches: Seq<Patch>, n: int)
    -> int
    decreases n,
{
    if n <= 0 {
        free
    } else if image_place(elf.program_headers@, base, patches[n - 1]) is Some {
        image_free(free, elf, base, patches, n - 1) - image_frames_for(elf, base, patches, n - 1)
    } else {
        image_free(free, elf, base, patches, n - 1)
    }
}

/// What the store of patch `i` into the image comes to after the stores
/// before it: `INVALID_ARGS` where the patch has no place in the image, as
/// [`image_place`] says, `NO_MEMORY` where it needs more frames than are
/// left.
pub open spec fn image_store_step(
    free: int,
    elf: &ElfFile,
    base: int,
    patches: Seq<Patch>,
    i: int,
) -> ZxResult {
    if image_place(elf.program_headers@, base, patches[i]) is None {
        Err(ZxError::INVALID_ARGS)
    } else if image_frames_for(elf, base, patches, i) > image_free(free, elf, base, patches, i) {
        Err(ZxError::NO_MEMORY)
    } else {
        Ok(())
    }
}

/// What storing the first `n` of `patches` into the image comes to: the
/// failure of the first store that cannot be done.
pub open spec fn image_store_steps(
    free: int,
    elf: &ElfFile,
    base: int,
    patches: Seq<Patch>,
    n: int,
) -> ZxResult
    decreases n,
{
    if n <= 0 {
        Ok(())
    } else {
        match image_store_steps(free, elf, base, patches, n - 1) {
            Err(e) => Err(e),
            Ok(_) => image_store_step(free, elf, base, patches, n - 1),
        }
    }
}

/// A segment among those of the first `n` headers that holds eight bytes
/// makes [`word_place`] find a place for them.
pub proof fn lemma_held_is_found(phs: Seq<ProgramHeader>, v: int, n: int, j: int)
    requires
        0 <= n <= phs.len(),
        0 <= j < loads(phs, n).len(),
        holds_word(loads(phs, n)[j], v),
    ensures
        word_place(phs, v, n) is Some,
    decreases n,
{
    if n > 0 {
        if phs[n - 1].type_ == SegmentType::Load {
            assert(loads(phs, n) == loads(phs, n - 1).push(phs[n - 1]));
            if j < loads(phs, n - 1).len() {
                lemma_held_is_found(phs, v, n - 1, j);
            }
        } else {
            lemma_held_is_found(phs, v, n - 1, j);
        }
    }
}

/// A patch has a place in the memory of a process in which an image is
/// mapped exactly where it has one in the image, and it is that place.
pub proof fn lemma_place_resolves(
    before: &Kernel,
    now: &Kernel,
    elf: &ElfFile,
    p: int,
    patch: Patch,
)
    requires
        image_mapped(before, now, elf, p),
        segments_inside(elf),
        sized(
            now,
            before.objects@.len() as int,
            loads(elf.program_headers@, elf.program_headers@.len() as int),
        ),
    ensures
        patch_fits(now, p, patch) <==> image_place(
            elf.program_headers@,
            before.user_base as int,
            patch,
        ) is Some,
        image_place(elf.program_headers@, before.user_base as int, patch) matches Some(at) ==> {
            &&& 0 <= at.0 < loads(elf.program_headers@, elf.program_headers@.len() as int).len()
            &&& 0 <= at.1
            &&& now.resolve(p, patch.addr as int, 8) == Some(
                ((before.koids.next_koid() + 2 + at.0) as u64, at.1),
            )
        },
{
    let phs = elf.program_headers@;
    let segs = loads(phs, phs.len() as int);
    let base = before.user_base as int;
    let n = before.objects@.len() as int;
    let next = before.koids.next_koid() + 2;
    if patch.addr <= usize::MAX {
        let v = patch.addr - base;
        if now.resolve(p, patch.addr as int, 8) is Some {
            lemma_resolved_place(before, now, elf, p, patch.addr as int);
        }
        if word_place(phs, v, phs.len() as int) is Some {
            lemma_word_place(phs, v, phs.len() as int);
            let at = word_place(phs, v, phs.len() as int)->Some_0;
            assert(seg_holds(phs, at.0, v));
            lemma_word_resolves(before, now, elf, p, at.0, v);
            assert(is_obj(now.objects@, n + at.0, (next + at.0) as u64, ObjectType::Vmo));
            assert(now.objects@[n + at.0] is Vmo);
            assert(in_object(now, (next + at.0) as u64, at.1, 8));
        }
    }
}

/// Whether the memory objects of the segments of `elf`, from object `n` of
/// `now` on, have memory behind their pages as [`entry_backed`] says.
pub open spec fn entry_backing(now: &Kernel, n: int, elf: &ElfFile) -> bool {
    forall|j: int, page: int|
        0 <= j < loads(elf.program_headers@, elf.program_headers@.len() as int).len() ==> (
        #[trigger] backed_at(now, n + j, page) <==> entry_backed(elf, j, page))
}

/// Storing patches into the memory of a process in which an image is
/// mapped comes to what storing them into the image comes to.
#[verifier::spinoff_prover]
#[verifier::rlimit(60)]
pub proof fn lemma_image_stores(
    before: &Kernel,
    now: &Kernel,
    elf: &ElfFile,
    p: int,
    patches: Seq<Patch>,
    n: int,
)
    requires
        image_mapped(before, now, elf, p),
        segments_inside(elf),
        sized(
            now,
            before.objects@.len() as int,
            loads(elf.program_headers@, elf.program_headers@.len() as int),
        ),
        entry_backing(now, before.objects@.len() as int, elf),
        0 <= n <= patches.len(),
    ensures
        forall|j: int, page: int|
            0 <= j < loads(elf.program_headers@, elf.program_headers@.len() as int).len() ==> (
            backed_after(now, p, patches, n, (before.koids.next_koid() + 2 + j) as u64, page)
                <==> #[trigger] image_backed(elf, before.user_base as int, patches, n, j, page)),
        free_after(now, p, patches, n) == image_free(
            now.pmem.free_frames() as int,
            elf,
            before.user_base as int,
            patches,
            n,
        ),
        store_steps(now, p, patches, n) == image_store_steps(
            now.pmem.free_frames() as int,
            elf,
            before.user_base as int,
            patches,
            n,
        ),
    decreases n,
{
    let phs = elf.program_headers@;
    let segs = loads(phs, phs.len() as int);
    let n0 = before.objects@.len() as int;
    let next = before.koids.next_koid() + 2;
    let base = before.user_base as int;
    if n <= 0 {
        assert forall|j: int, page: int| 0 <= j < segs.len() implies (backed_after(
            now,
            p,
            patches,
            n,
            (next + j) as u64,
            page,
        ) <==> #[trigger] image_backed(elf, base, patches, n, j, page)) by {
            assert(is_obj(now.objects@, n0 + j, (next + j) as u64, ObjectType::Vmo));
            assert(backed_at(now, n0 + j, page) <==> entry_backed(elf, j, page));
            if page_backed(now, (next + j) as u64, page) {
                let x = choose|x: int| #[trigger]
                    is_obj(now.objects@, x, (next + j) as u64, ObjectType::Vmo) && backed_at(
                        now,
                        x,
                        page,
                    );
                if x != n0 + j {
                    assert(obj_koid(now.objects@[x]) != obj_koid(now.objects@[n0 + j]));
                }
            }
        }
    } else {
        lemma_image_stores(before, now, elf, p, patches, n - 1);
        let patch = patches[n - 1];
        lemma_place_resolves(before, now, elf, p, patch);
        assert forall|j: int, page: int| 0 <= j < segs.len() implies (backed_after(
            now,
            p,
            patches,
            n,
            (next + j) as u64,
            page,
        ) <==> #[trigger] image_backed(elf, base, patches, n, j, page)) by {
            assert(backed_after(now, p, patches, n - 1, (next + j) as u64, page) <==> image_backed(
                elf,
                base,
                patches,
                n - 1,
                j,
                page,
            ));
        }
        if image_place(phs, base, patch) is Some {
            let at = image_place(phs, base, patch)->Some_0;
            let lo = at.1 / 4096;
            let hi = (at.1 + 7) / 4096;
            assert(backed_after(now, p, patches, n - 1, (next + at.0) as u64, lo) <==> image_backed(
                elf,
                base,
                patches,
                n - 1,
                at.0,
                lo,
            ));
            assert(backed_after(now, p, patches, n - 1, (next + at.0) as u64, hi) <==> image_backed(
                elf,
                base,
                patches,
                n - 1,
                at.0,
                hi,
            ));
            assert(frames_for(now, p, patches, n - 1) == image_frames_for(
                elf,
                base,
                patches,
                n - 1,
            ));
        }
    }
}

/// What the store of the address of the system call entry comes to after
/// the segments are loaded, and what it leaves: it fails with `NO_MEMORY`
/// exactly where [`entry_frames`] frames are not free; a store that is
/// done takes that many frames and leaves memory behind the pages as
/// [`entry_backed`] says.
#[verifier::spinoff_prover]
pub proof fn lemma_entry_step(
    placed: &Kernel,
    entered: &Kernel,
    n: int,
    elf: &ElfFile,
    word: Seq<u8>,
    r: ZxResult,
)
    requires
        word.len() == 8,
        0 <= n,
        has_entry_place(elf),
        segments_inside(elf),
        n + loads(elf.program_headers@, elf.program_headers@.len() as int).len()
            == placed.objects@.len(),
        entered.objects@.len() == placed.objects@.len(),
        sized(placed, n, loads(elf.program_headers@, elf.program_headers@.len() as int)),
        all_data_backed(placed, n, loads(elf.program_headers@, elf.program_headers@.len() as int)),
        placed.wrote_at(entered, n + entry_seg_of(elf), entry_off_of(elf), word, r),
        forall|j: int|
            0 <= j < placed.objects@.len() && j != n + entry_seg_of(elf)
                ==> #[trigger] entered.objects@[j] == placed.objects@[j],
        r is Err ==> entered.pmem == placed.pmem && entered.objects@ == placed.objects@,
    ensures
        r == if entry_frames(elf) > placed.pmem.free_frames() {
            Err::<(), ZxError>(ZxError::NO_MEMORY)
        } else {
            Ok::<(), ZxError>(())
        },
        r is Ok ==> entered.pmem.free_frames() == placed.pmem.free_frames() - entry_frames(elf),
        r is Ok ==> entry_backing(entered, n, elf),
{
    let phs = elf.program_headers@;
    let segs = loads(phs, phs.len() as int);
    let e = entry_seg_of(elf);
    let off = entry_off_of(elf);
    lemma_word_place(phs, entry_symbol_value(elf) as int, phs.len() as int);
    let x = n + e;
    assert(placed.objects@[x] is Vmo);
    let v = placed.vmo_at(x);
    assert(v.size() == segment_pages(segs[e]) * 4096);
    let lo = off / 4096;
    let hi = (off + 7) / 4096;
    assert(first_touched(off, 8) == lo);
    assert(end_touched(off, 8) == hi + 1);
    assert(lo <= hi <= lo + 1);
    assert(data_backed(placed, x, segs[e]));
    assert(backed_at(placed, x, lo) <==> data_touched(segs[e], lo));
    assert(backed_at(placed, x, hi) <==> data_touched(segs[e], hi));
    match v.inner() {
        crate::vm::vmo::VmoInner::Paged(pg) => {
            assert(hi < pg.page_count());
            lemma_count_none_small(pg.frame_table(), lo, hi);
            assert(v.fresh_pages(off, 8) == entry_frames(elf));
        },
        crate::vm::vmo::VmoInner::Physical(ph) => {
            assert(hi < ph.page_count());
            assert(v.fresh_pages(off, 8) == entry_frames(elf));
        },
    }
    if r is Ok {
        let w = entered.vmo_at(x);
        assert(v.touched(&w, off, 8));
        assert forall|j: int, page: int| 0 <= j < segs.len() implies (#[trigger] backed_at(
            entered,
            n + j,
            page,
        ) <==> entry_backed(elf, j, page)) by {
            assert(data_backed(placed, n + j, segs[j]));
            assert(backed_at(placed, n + j, page) <==> data_touched(segs[j], page));
            if j != e {
                assert(entered.objects@[n + j] == placed.objects@[n + j]);
            } else {
                assert(w.is_backed(page) <==> v.is_backed(page) || word_touches(off, page));
            }
        }
    }
}

/// Memory objects that keep their lengths keep the lengths of the
/// segments.
pub proof fn lemma_sized_kept(start: &Kernel, now: &Kernel, n: int, segs: Seq<ProgramHeader>)
    requires
        0 <= n,
        n + segs.len() <= start.objects@.len(),
        sized(start, n, segs),
        sizes_kept(start, now),
    ensures
        sized(now, n, segs),
{
    assert forall|j: int| 0 <= j < segs.len() implies (#[trigger] now.objects@[n + j]) is Vmo
        && now.vmo_at(n + j).size() == segment_pages(segs[j]) * 4096 by {
        assert(start.objects@[n + j] is Vmo);
    }
}

/// A process into which an image is placed has the image mapped.
pub proof fn lemma_placed_is_mapped(before: &Kernel, now: &Kernel, elf: &ElfFile, p: int)
    requires
        placed_in(before, now, elf, p),
    ensures
        image_mapped(before, now, elf, p),
{
}

/// Where region `0` is the whole of a new address space, a range of `size`
/// bytes is free in it exactly when the space is that large.
pub proof fn lemma_root_room(space: &crate::vm::vmar::AddressSpace, size: int)
    requires
        space.wf(),
        space.nodes().len() == 1,
        space.maps().len() == 0,
        size > 0,
    ensures
        (exists|a: int| #[trigger] space.range_free(0, a, size)) <==> size <= space.nodes()[0].size,
{
    reveal(crate::vm::vmar::AddressSpace::range_free);
    if size <= space.nodes()[0].size {
        let a = space.nodes()[0].addr as int;
        assert forall|i: int| #[trigger] space.is_child(i, 0) implies false by {
            space.lemma_parts_ok();
            assert(space.node_ok(0));
        }
        assert(space.range_free(0, a, size));
    }
}

/// Loads `elf` into a new process and starts it, the way `run` does once
/// the image and the arguments are found in order.
#[verifier::spinoff_prover]
#[verifier::rlimit(80)]
fn launch(
    kernel: &mut Kernel,
    elf: &ElfFile,
    info: ProcInitInfo,
    size: usize,
    entry_seg: usize,
    entry_offset: usize,
    syscall_entry: u64,
    stack_base: u64,
) -> (r: Result<Loaded, LoadError>)
    requires
        old(kernel).wf(),
        elf.load_size() == Ok::<usize, LoadError>(size),
        has_entry_symbol(elf),
        has_entry_place(elf),
        entry_seg == entry_seg_of(elf),
        entry_offset == entry_off_of(elf),
        stack_base + 0x8000 <= u64::MAX,
        info.args@.len() > 0,
        info.auxv@.len() == 0,
    ensures
        r matches Err(e) ==> rolled_back(old(kernel), final(kernel)) && run_result(
            old(kernel),
            elf,
            info.args@,
            info.envs@,
            stack_base,
        ) == Err::<(), LoadError>(e),
        r is Err ==> (final(kernel).processes@.len() == old(kernel).processes@.len() + 1
            <==> old(kernel).koids.next_koid() < u64::MAX - 1),
        r matches Ok(l) ==> started(
            old(kernel),
            final(kernel),
            elf,
            &l,
            info.args@,
            info.envs@,
            syscall_entry,
            stack_base,
        ) && run_result(old(kernel), elf, info.args@, info.envs@, stack_base) is Ok,
{
    let ghost before = *kernel;
    let ghost args = info.args@;
    let ghost envs = info.envs@;
    let ghost phs = elf.program_headers@;
    let first_koid: KoID = kernel.koids.peek();
    let (p, t) = match spawn(kernel) {
        Ok(pt) => pt,
        Err(e) => {
            proof {
                assert(kernel.processes@.subrange(0, before.processes@.len() as int)
                    =~= before.processes@);
                assert(run_result(&before, elf, args, envs, stack_base) == Err::<(), LoadError>(
                    LoadError::Kernel(e),
                ));
            }
            return Err(LoadError::Kernel(e));
        },
    };
    let ghost spawned = *kernel;
    proof {
        assert(crate::kernel::process_ok(spawned.objects@, spawned.processes@[p as int]));
        if size > 0 {
            lemma_root_room(&spawned.processes@[p as int].vmar, size as int);
        }
    }
    let made = kernel.vmar_create_child(p, 0, None, size);
    proof {
        assert forall|q: int| 0 <= q < p implies kernel.processes@.subrange(0, p as int)[q]
            == before.processes@[q] by {
            assert(spawned.processes@.subrange(0, p as int)[q] == before.processes@[q]);
        }
        assert(kernel.processes@.subrange(0, p as int) =~= before.processes@);
    }
    let child: usize = match made {
        Ok(c) => c,
        Err(e) => {
            proof {
                assert(run_result(&before, elf, args, envs, stack_base) == Err::<(), LoadError>(
                    LoadError::Kernel(e),
                ));
            }
            return Err(LoadError::Kernel(e));
        },
    };
    let ghost reserved = *kernel;
    let base: usize = kernel.processes[p].vmar.addr(child);
    proof {
        let space = spawned.processes@[p as int].vmar;
        reveal(crate::vm::vmar::AddressSpace::range_free);
        assert(space.range_free(0, base as int, size as int));
        assert(space.range_free(0, space.nodes()[0].addr as int, size as int));
        assert(base == before.user_base);
        assert(reserved.processes@[p as int].vmar.nodes()[1]
            == reserved.processes@[p as int].vmar.nodes().last());
        assert(loading(&before, &reserved, p as int, child));
        assert(region_new(&reserved, p as int, size as int));
    }
    // The entry and the stack, which need nothing but the load base.
    let top: u64 = (stack_base + STACK_SIZE) - (stack_base + STACK_SIZE) % 16;
    let mut info = info;
    info.auxv.push(AuxEntry { key: AT_PAGESZ, value: 4096 });
    info.auxv.push(AuxEntry { key: AT_PHNUM, value: elf.ph_count as u64 });
    info.auxv.push(AuxEntry { key: AT_PHENT, value: elf.ph_entry_size as u64 });
    info.auxv.push(
        AuxEntry {
            key: AT_PHDR,
            value: crate::loader::elf::wrapping_sum(base as u64, elf.ph_offset),
        },
    );
    info.auxv.push(AuxEntry { key: AT_BASE, value: base as u64 });
    proof {
        assert(info.auxv@ =~= auxv_for(elf, base as u64));
        assert(info.entry_sp_for(top as int, stack_base as int) == if entry_sp_of(
            args,
            envs,
            stack_base,
        ) < stack_base {
            None::<int>
        } else {
            Some(entry_sp_of(args, envs, stack_base))
        });
    }
    let entry_ok: bool = elf.entry_point <= (usize::MAX - base) as u64;
    let stack: Result<InitStack, LoadError> = if entry_ok {
        info.push_at(top, stack_base)
    } else {
        Err(LoadError::OutOfRange)
    };
    let stack: InitStack = match stack {
        Ok(s) => s,
        Err(e) => {
            proof {
                assert(run_result(&before, elf, args, envs, stack_base) == Err::<(), LoadError>(e));
            }
            abort_load(kernel, p, child, first_koid, Ghost(before));
            return Err(e);
        },
    };
    if stack.sp > usize::MAX as u64 {
        proof {
            assert(run_result(&before, elf, args, envs, stack_base) == Err::<(), LoadError>(
                LoadError::OutOfRange,
            ));
        }
        abort_load(kernel, p, child, first_koid, Ghost(before));
        return Err(LoadError::OutOfRange);
    }
    let entry: usize = base + elf.entry_point as usize;
    // The segments.
    proof {
        lemma_image_steps(&reserved, p as int, size as int, phs, phs.len() as int);
    }
    let loaded = kernel.load_from_elf(p, child, elf);
    let ghost placed = *kernel;
    proof {
        lemma_loading_after_load(&before, &reserved, &placed, p as int, child);
    }
    let first: KoID = match loaded {
        Ok(f) => f,
        Err(e) => {
            proof {
                assert(run_result(&before, elf, args, envs, stack_base) == Err::<(), LoadError>(
                    LoadError::Kernel(e),
                ));
            }
            abort_load(kernel, p, child, first_koid, Ghost(before));
            return Err(LoadError::Kernel(e));
        },
    };
    let ghost n = before.objects@.len() as int;
    let ghost segs = loads(elf.program_headers@, elf.program_headers@.len() as int);
    proof {
        assert(placing_result(&before, elf, args, envs, stack_base) is Ok);
        lemma_segments_inside(
            before.koids.next_koid() + 2,
            before.pmem.free_frames() as int,
            size as int,
            phs,
            phs.len() as int,
        );
        lemma_placed(&before, &reserved, &placed, elf, p as int, size);
        assert forall|j: int| 0 <= j < segs.len() implies #[trigger] image_at(
            &placed,
            n,
            segs,
            j,
            false,
            entry_seg as int,
            entry_offset as int,
            syscall_entry,
        ) by {
            assert(is_obj(
                placed.objects@,
                n + j,
                (reserved.koids.next_koid() + j) as u64,
                ObjectType::Vmo,
            ));
        }
        lemma_sized(
            &placed,
            n,
            segs,
            false,
            entry_seg as int,
            entry_offset as int,
            syscall_entry,
            size as int,
        );
    }
    // The system call entry, then the relocations.
    proof {
        lemma_word_place(
            elf.program_headers@,
            entry_symbol_value(elf) as int,
            elf.program_headers@.len() as int,
        );
        assert(first == reserved.koids.next_koid());
        assert(placed.koids.next_koid() == first + segs.len());
    }
    let word = word_bytes(syscall_entry);
    let holder: KoID = first + entry_seg as u64;
    let wrote = kernel.vmo_write(holder, entry_offset, word.as_slice());
    let ghost entered = *kernel;
    proof {
        assert(reserved.koids == spawned.koids);
        assert(first >= before.koids.next_koid());
        assert forall|j: int|
            0 <= j < placed.objects@.len() && obj_koid(placed.objects@[j])
                != holder implies #[trigger] kept_at(&placed, &entered, j) by {
            assert(entered.objects@[j] == placed.objects@[j]);
        }
        lemma_touched_by_write(&placed, &entered, holder, before.koids.next_koid());
        lemma_still_placed(&before, &placed, &entered, elf, p as int);
        assert(is_obj(
            placed.objects@,
            n + entry_seg,
            (before.koids.next_koid() + 2 + entry_seg) as u64,
            ObjectType::Vmo,
        ));
        assert(is_obj(placed.objects@, n + entry_seg, holder, ObjectType::Vmo));
        assert(placed.objects@[n + entry_seg] is Vmo);
        assert(placed.wrote_at(&entered, n + entry_seg, entry_offset as int, word@, wrote));
        lemma_entry_step(&placed, &entered, n, elf, word@, wrote);
        if wrote is Ok {
            assert(placed.wrote_at(&entered, n + entry_seg, entry_offset as int, word@, wrote));
            lemma_entered(
                &before,
                &placed,
                &entered,
                elf,
                p as int,
                entry_seg as int,
                entry_offset as int,
                syscall_entry,
            );
            lemma_sized(
                &entered,
                n,
                segs,
                true,
                entry_seg as int,
                entry_offset as int,
                syscall_entry,
                size as int,
            );
        }
    }
    if let Err(e) = wrote {
        proof {
            assert(run_result(&before, elf, args, envs, stack_base) == Err::<(), LoadError>(
                LoadError::Kernel(e),
            ));
        }
        abort_load(kernel, p, child, first_koid, Ghost(before));
        return Err(LoadError::Kernel(e));
    }
    let patches: Vec<Patch> = match elf.relocate(base as u64) {
        Ok(v) => v,
        Err(e) => {
            proof {
                assert(run_result(&before, elf, args, envs, stack_base) == Err::<(), LoadError>(e));
            }
            abort_load(kernel, p, child, first_koid, Ghost(before));
            return Err(e);
        },
    };
    proof {
        lemma_placed_is_mapped(&before, &entered, elf, p as int);
        lemma_image_stores(&before, &entered, elf, p as int, patches@, patches@.len() as int);
    }
    let applied = apply_patches(kernel, p, &patches);
    let ghost fixed = *kernel;
    proof {
        lemma_touched_by_patch(&before, &entered, &fixed, elf, p as int);
        lemma_still_placed(&before, &entered, &fixed, elf, p as int);
        if applied is Ok {
            lemma_sized_kept(&entered, &fixed, n, segs);
            lemma_fixed(
                &before,
                &entered,
                &fixed,
                elf,
                p as int,
                entry_seg as int,
                entry_offset as int,
                syscall_entry,
                patches@,
            );
        }
    }
    if let Err(e) = applied {
        proof {
            assert(run_result(&before, elf, args, envs, stack_base) == Err::<(), LoadError>(
                LoadError::Kernel(e),
            ));
        }
        abort_load(kernel, p, child, first_koid, Ghost(before));
        return Err(LoadError::Kernel(e));
    }
    let go = kernel.start_thread(p, t, entry, stack.sp as usize, 0, 0);
    let l = Loaded {
        proc: p,
        thread: t,
        vmar: child,
        base,
        entry,
        sp: stack.sp,
        stack: stack.bytes,
        first_vmo: first,
    };
    proof {
        assert(go is Ok);
        assert(run_result(&before, elf, args, envs, stack_base) is Ok);
        lemma_started(
            &before,
            &fixed,
            kernel,
            elf,
            &l,
            args,
            envs,
            syscall_entry,
            stack_base,
            patches@,
        );
    }
    Ok(l)
}

/// A process into which an image is placed has been started once its
/// thread is started at the entry with the stack laid out.
pub proof fn lemma_started(
    before: &Kernel,
    fixed: &Kernel,
    now: &Kernel,
    elf: &ElfFile,
    l: &Loaded,
    args: Seq<String>,
    envs: Seq<String>,
    syscall_entry: u64,
    stack_base: u64,
    patches: Seq<Patch>,
)
    requires
        before.wf(),
        placed_in(before, fixed, elf, before.processes@.len() as int),
        elf.relocations(l.base as u64) == Ok::<Seq<Patch>, LoadError>(patches),
        has_entry_place(elf),
        segments_inside(elf),
        sized(
            fixed,
            before.objects@.len() as int,
            loads(elf.program_headers@, elf.program_headers@.len() as int),
        ),
        holds_patched(
            fixed,
            before.processes@.len() as int,
            before.objects@.len() as int,
            before.koids.next_koid() + 2,
            loads(elf.program_headers@, elf.program_headers@.len() as int),
            entry_seg_of(elf),
            entry_off_of(elf),
            syscall_entry,
            patches,
        ),
        now.wf(),
        fixed.only_process_changed(now, before.processes@.len() as int),
        ({
            let p = before.processes@.len() as int;
            let was = fixed.processes@[p];
            let proc = now.processes@[p];
            &&& proc.base == was.base
            &&& proc.handles == was.handles
            &&& proc.vmar == was.vmar
            &&& proc.linux == was.linux
            &&& proc.status == Status::Running
            &&& proc.threads@.len() == was.threads@.len()
            &&& proc.threads@[0].state == ThreadState::Running
            &&& proc.threads@[0].regs == (ThreadRegs {
                pc: l.entry,
                sp: l.sp as usize,
                arg0: 0,
                arg1: 0,
            })
            &&& l.proc == p
        }),
        l.thread == 0,
        l.vmar == 1,
        l.base == before.user_base,
        l.entry == l.base + elf.entry_point,
        l.first_vmo == before.koids.next_koid() + 2,
        l.sp % 16 == 0,
        stack_base <= l.sp <= stack_top_of(stack_base),
        l.stack@ == stack_image(args, envs, auxv_for(elf, l.base as u64), stack_top_of(stack_base)),
        l.stack@.len() == stack_top_of(stack_base) - l.sp,
    ensures
        started(before, now, elf, l, args, envs, syscall_entry, stack_base),
{
    let p = before.processes@.len() as int;
    let n = before.objects@.len() as int;
    let phs = elf.program_headers@;
    let segs = loads(phs, phs.len() as int);
    let next = before.koids.next_koid() + 2;
    let proc = now.processes@[p];
    assert(now.objects@ == fixed.objects@);
    assert(now.pmem == fixed.pmem);
    assert forall|j: int| 0 <= j < segs.len() implies (#[trigger] now.objects@[n + j]) is Vmo
        && now.vmo_at(n + j).size() == segment_pages(segs[j]) * 4096 by {
        assert(fixed.objects@[n + j] is Vmo);
    }
    assert forall|j: int| 0 <= j < segs.len() implies #[trigger] patched_at(
        now,
        p,
        n,
        next,
        segs,
        j,
        entry_seg_of(elf),
        entry_off_of(elf),
        syscall_entry,
        patches,
    ) by {
        assert(patched_at(
            fixed,
            p,
            n,
            next,
            segs,
            j,
            entry_seg_of(elf),
            entry_off_of(elf),
            syscall_entry,
            patches,
        ));
        lemma_patched_content_same_space(
            fixed,
            now,
            p,
            (next + j) as u64,
            image_content(segs, j, entry_seg_of(elf), entry_off_of(elf), syscall_entry),
            patches,
            patches.len() as int,
        );
    }
    assert forall|q: int| 0 <= q < p implies now.processes@.subrange(0, p)[q]
        == before.processes@[q] by {
        assert(fixed.processes@.subrange(0, p)[q] == before.processes@[q]);
        assert(now.processes@[q] == fixed.processes@[q]);
    }
    assert(now.processes@.subrange(0, p) =~= before.processes@);
    assert forall|j: int| 0 <= j < n implies #[trigger] now.objects@[j] == before.objects@[j] && (
    before.objects@[j] matches KernelObject::Vmo(w) ==> w.content(&now.pmem) == w.content(
        &before.pmem,
    )) by {
        assert(fixed.objects@[j] == before.objects@[j]);
    }
    assert forall|j: int| 0 <= j < segs.len() implies #[trigger] is_obj(
        now.objects@,
        n + j,
        (next + j) as u64,
        ObjectType::Vmo,
    ) by {
        assert(is_obj(fixed.objects@, n + j, (next + j) as u64, ObjectType::Vmo));
    }
    assert forall|j: int| 0 <= j < segs.len() implies #[trigger] proc.vmar.maps()[j]
        == segment_mapping(segs[j], 1, l.base as int, (next + j) as u64) by {
        assert(fixed.processes@[p].vmar.maps()[j] == segment_mapping(
            segs[j],
            1,
            before.user_base as int,
            (next + j) as u64,
        ));
    }
}

/// Whether `now` is `start` with the same tasks, identifiers and objects,
/// of which only those known by `next` or a later identifier may have
/// changed.
pub open spec fn touched_new(start: &Kernel, now: &Kernel, next: u64) -> bool {
    &&& now.wf()
    &&& start.same_tasks(now)
    &&& now.koids == start.koids
    &&& now.objects@.len() == start.objects@.len()
    &&& forall|j: int|
        0 <= j < start.objects@.len() ==> obj_koid(#[trigger] now.objects@[j]) == obj_koid(
            start.objects@[j],
        ) && obj_kind(now.objects@[j]) == obj_kind(start.objects@[j])
    &&& forall|j: int|
        0 <= j < start.objects@.len() && obj_koid(start.objects@[j]) < next
            ==> #[trigger] now.objects@[j] == start.objects@[j] && (
        start.objects@[j] matches KernelObject::Vmo(w) ==> w.content(&now.pmem) == w.content(
            &start.pmem,
        ))
}

/// Whether `now` is `before` with one more process, `p`, that was made by
/// `spawn` and into whose region `1` the segments of `elf` are loaded.
pub open spec fn placed_in(before: &Kernel, now: &Kernel, elf: &ElfFile, p: int) -> bool {
    let n = before.objects@.len() as int;
    let proc = now.processes@[p];
    let phs = elf.program_headers@;
    let segs = loads(phs, phs.len() as int);
    let next = before.koids.next_koid() + 2;
    &&& loading(before, now, p, 1)
    &&& now.objects@.len() == n + segs.len()
    &&& now.koids.next_koid() == next + segs.len()
    &&& forall|j: int|
        0 <= j < segs.len() ==> #[trigger] is_obj(
            now.objects@,
            n + j,
            (next + j) as u64,
            ObjectType::Vmo,
        )
    &&& proc.linux
    &&& proc.status == Status::Init
    &&& proc.threads@.len() == 1
    &&& proc.threads@[0].state == ThreadState::Initial
    &&& proc.vmar.nodes().len() == 2
    &&& proc.vmar.nodes()[1].parent == Some(0usize)
    &&& proc.vmar.nodes()[1].addr == before.user_base
    &&& proc.vmar.nodes()[1].size == max_load_pages(phs) * 4096
    &&& proc.vmar.nodes()[1].alive
    &&& proc.vmar.nodes()[1].flags.bits == 7
    &&& proc.vmar.maps().len() == segs.len()
    &&& forall|j: int|
        0 <= j < segs.len() ==> #[trigger] proc.vmar.maps()[j] == segment_mapping(
            segs[j],
            1,
            before.user_base as int,
            (next + j) as u64,
        )
}

/// After the segments are loaded into a region that was just reserved, the
/// load is still in a state that can be undone.
pub proof fn lemma_loading_after_load(
    before: &Kernel,
    reserved: &Kernel,
    placed: &Kernel,
    p: int,
    child: usize,
)
    requires
        before.wf(),
        loading(before, reserved, p, child),
        grown(reserved, placed, p),
        new_maps_in(reserved, placed, p, child),
        fresh_vmos_from(placed, reserved.objects@.len() as int, reserved.koids.next_koid()),
    ensures
        loading(before, placed, p, child),
{
    assert forall|j: int|
        before.objects@.len() <= j < placed.objects@.len() implies #[trigger] fresh_vmo_at(
        placed,
        j,
        before.koids.next_koid(),
    ) by {
        if j < reserved.objects@.len() {
            assert(fresh_vmo_at(reserved, j, before.koids.next_koid()));
            assert(placed.objects@[j] == reserved.objects@[j]);
        } else {
            assert(fresh_vmo_at(placed, j, reserved.koids.next_koid()));
        }
    }
    assert forall|q: int| 0 <= q < p implies placed.processes@.subrange(0, p)[q]
        == before.processes@[q] by {
        assert(reserved.processes@.subrange(0, p)[q] == before.processes@[q]);
    }
    assert(placed.processes@.subrange(0, p) =~= before.processes@);
    let old_maps = reserved.processes@[p].vmar.maps();
    let new_maps = placed.processes@[p].vmar.maps();
    assert forall|k: int| 0 <= k < new_maps.len() implies (#[trigger] new_maps[k]).vmar
        == child by {
        if k < old_maps.len() {
            assert(new_maps.subrange(0, old_maps.len() as int)[k] == old_maps[k]);
        }
    }
    assert forall|j: int| 0 <= j < before.objects@.len() implies #[trigger] placed.objects@[j]
        == before.objects@[j] && (before.objects@[j] matches KernelObject::Vmo(w) ==> w.content(
        &placed.pmem,
    ) == w.content(&before.pmem)) by {
        assert(reserved.objects@[j] == before.objects@[j]);
        assert(placed.objects@[j] == reserved.objects@[j]);
    }
}

/// After the segments are loaded into the first region cut from the root of
/// a process that was just made, the image is placed.
pub proof fn lemma_placed(
    before: &Kernel,
    reserved: &Kernel,
    placed: &Kernel,
    elf: &ElfFile,
    p: int,
    size: usize,
)
    requires
        before.wf(),
        loading(before, placed, p, 1),
        reserved.wf(),
        reserved.objects@ == before.objects@,
        reserved.koids.next_koid() == before.koids.next_koid() + 2,
        reserved.processes@.len() == p + 1,
        reserved.processes@[p].linux,
        reserved.processes@[p].status == Status::Init,
        reserved.processes@[p].threads@.len() == 1,
        reserved.processes@[p].threads@[0].state == ThreadState::Initial,
        reserved.processes@[p].vmar.maps().len() == 0,
        reserved.processes@[p].vmar.nodes().len() == 2,
        reserved.processes@[p].vmar.nodes()[1].parent == Some(0usize),
        reserved.processes@[p].vmar.nodes()[1].addr == before.user_base,
        reserved.processes@[p].vmar.nodes()[1].size == size,
        reserved.processes@[p].vmar.nodes()[1].alive,
        reserved.processes@[p].vmar.nodes()[1].flags.bits == 7,
        elf.load_size() == Ok::<usize, LoadError>(size),
        segments_loaded(
            reserved,
            placed,
            p,
            1,
            loads(elf.program_headers@, elf.program_headers@.len() as int),
        ),
    ensures
        placed_in(before, placed, elf, p),
{
    let n = before.objects@.len() as int;
    let phs = elf.program_headers@;
    let segs = loads(phs, phs.len() as int);
    let next = before.koids.next_koid() + 2;
    let proc = placed.processes@[p];
    assert(grown(reserved, placed, p));
    assert forall|j: int| 0 <= j < segs.len() implies #[trigger] is_obj(
        placed.objects@,
        n + j,
        (next + j) as u64,
        ObjectType::Vmo,
    ) by {}
    assert forall|j: int| 0 <= j < segs.len() implies #[trigger] proc.vmar.maps()[j]
        == segment_mapping(segs[j], 1, before.user_base as int, (next + j) as u64) by {
        assert(is_obj(placed.objects@, n + j, (next + j) as u64, ObjectType::Vmo));
    }
    assert(proc.threads@ == reserved.processes@[p].threads@);
}

/// A store into the memory object `koid` touches no object known by an
/// identifier below `next`, where `koid` is not below `next`.
pub proof fn lemma_touched_by_write(start: &Kernel, now: &Kernel, koid: KoID, next: u64)
    requires
        now.wf(),
        start.same_tasks(now),
        now.koids == start.koids,
        now.objects@.len() == start.objects@.len(),
        koid >= next,
        forall|j: int|
            0 <= j < start.objects@.len() ==> obj_koid(#[trigger] now.objects@[j]) == obj_koid(
                start.objects@[j],
            ) && obj_kind(now.objects@[j]) == obj_kind(start.objects@[j]),
        forall|j: int|
            0 <= j < start.objects@.len() && obj_koid(start.objects@[j]) != koid
                ==> #[trigger] kept_at(start, now, j),
    ensures
        touched_new(start, now, next),
{
    assert forall|j: int|
        0 <= j < start.objects@.len() && obj_koid(start.objects@[j])
            < next implies #[trigger] now.objects@[j] == start.objects@[j] && (
    start.objects@[j] matches KernelObject::Vmo(w) ==> w.content(&now.pmem) == w.content(
        &start.pmem,
    )) by {
        assert(obj_koid(start.objects@[j]) < next);
        assert(obj_koid(start.objects@[j]) != koid);
        assert(kept_at(start, now, j));
    }
}

/// Patching the memory of a process into which an image is placed touches
/// no object that was there before.
pub proof fn lemma_touched_by_patch(
    before: &Kernel,
    start: &Kernel,
    now: &Kernel,
    elf: &ElfFile,
    p: int,
)
    requires
        before.wf(),
        placed_in(before, start, elf, p),
        patched(start, now, p),
    ensures
        touched_new(start, now, before.koids.next_koid()),
{
    let proc = start.processes@[p];
    assert forall|j: int|
        0 <= j < start.objects@.len() && obj_koid(start.objects@[j])
            < before.koids.next_koid() implies #[trigger] now.objects@[j] == start.objects@[j] && (
    start.objects@[j] matches KernelObject::Vmo(w) ==> w.content(&now.pmem) == w.content(
        &start.pmem,
    )) by {
        assert forall|k: int| 0 <= k < proc.vmar.maps().len() implies (
        #[trigger] proc.vmar.maps()[k]).vmo != obj_koid(start.objects@[j]) by {
            assert(proc.vmar.maps()[k].vmo >= before.koids.next_koid());
        }
        assert(!process_shows(proc, obj_koid(start.objects@[j])));
        assert(!process_shows(start.processes@[p], obj_koid(start.objects@[j])));
        assert(now.objects@[j] == start.objects@[j]);
    }
}

/// Once the address of the system call entry is stored in the memory object
/// of the segment that holds its symbol, the memory objects hold the image.
pub proof fn lemma_entered(
    before: &Kernel,
    placed: &Kernel,
    entered: &Kernel,
    elf: &ElfFile,
    p: int,
    entry_seg: int,
    entry_offset: int,
    syscall_entry: u64,
)
    requires
        before.wf(),
        placed_in(before, placed, elf, p),
        placed_in(before, entered, elf, p),
        holds_image(
            placed,
            before.objects@.len() as int,
            loads(elf.program_headers@, elf.program_headers@.len() as int),
            false,
            entry_seg,
            entry_offset,
            syscall_entry,
        ),
        0 <= entry_seg < loads(elf.program_headers@, elf.program_headers@.len() as int).len(),
        placed.wrote_at(
            entered,
            before.objects@.len() + entry_seg,
            entry_offset,
            words_bytes(seq![syscall_entry]),
            Ok::<(), ZxError>(()),
        ),
        forall|j: int|
            0 <= j < placed.objects@.len() && obj_koid(placed.objects@[j]) != (
            before.koids.next_koid() + 2 + entry_seg) as u64 ==> #[trigger] entered.objects@[j]
                == placed.objects@[j] && (placed.objects@[j] matches KernelObject::Vmo(w)
                ==> w.content(&entered.pmem) == w.content(&placed.pmem)),
    ensures
        holds_image(
            entered,
            before.objects@.len() as int,
            loads(elf.program_headers@, elf.program_headers@.len() as int),
            true,
            entry_seg,
            entry_offset,
            syscall_entry,
        ),
{
    let n = before.objects@.len() as int;
    let segs = loads(elf.program_headers@, elf.program_headers@.len() as int);
    let next = before.koids.next_koid() + 2;
    assert forall|j: int| 0 <= j < segs.len() implies #[trigger] image_at(
        entered,
        n,
        segs,
        j,
        true,
        entry_seg,
        entry_offset,
        syscall_entry,
    ) by {
        assert(image_at(placed, n, segs, j, false, entry_seg, entry_offset, syscall_entry));
        assert(is_obj(placed.objects@, n + j, (next + j) as u64, ObjectType::Vmo));
        assert(is_obj(entered.objects@, n + j, (next + j) as u64, ObjectType::Vmo));
        if j != entry_seg {
            assert(obj_koid(placed.objects@[n + j]) != (next + entry_seg) as u64);
            assert(entered.objects@[n + j] == placed.objects@[n + j]);
        }
    }
}

/// Once the patches are stored, the memory objects hold the image with the
/// patches.
pub proof fn lemma_fixed(
    before: &Kernel,
    entered: &Kernel,
    fixed: &Kernel,
    elf: &ElfFile,
    p: int,
    entry_seg: int,
    entry_offset: int,
    syscall_entry: u64,
    patches: Seq<Patch>,
)
    requires
        before.wf(),
        placed_in(before, entered, elf, p),
        placed_in(before, fixed, elf, p),
        holds_image(
            entered,
            before.objects@.len() as int,
            loads(elf.program_headers@, elf.program_headers@.len() as int),
            true,
            entry_seg,
            entry_offset,
            syscall_entry,
        ),
        patches_stored(entered, fixed, p, patches, patches.len() as int),
        entered.processes@ == fixed.processes@,
    ensures
        holds_patched(
            fixed,
            p,
            before.objects@.len() as int,
            before.koids.next_koid() + 2,
            loads(elf.program_headers@, elf.program_headers@.len() as int),
            entry_seg,
            entry_offset,
            syscall_entry,
            patches,
        ),
{
    let n = before.objects@.len() as int;
    let segs = loads(elf.program_headers@, elf.program_headers@.len() as int);
    let next = before.koids.next_koid() + 2;
    assert forall|j: int| 0 <= j < segs.len() implies #[trigger] patched_at(
        fixed,
        p,
        n,
        next,
        segs,
        j,
        entry_seg,
        entry_offset,
        syscall_entry,
        patches,
    ) by {
        assert(image_at(entered, n, segs, j, true, entry_seg, entry_offset, syscall_entry));
        assert(is_obj(entered.objects@, n + j, (next + j) as u64, ObjectType::Vmo));
        assert(entered.objects@[n + j] is Vmo);
        lemma_patched_content_same_space(
            entered,
            fixed,
            p,
            (next + j) as u64,
            image_content(segs, j, entry_seg, entry_offset, syscall_entry),
            patches,
            patches.len() as int,
        );
    }
}

/// An image stays placed while only objects made for it change.
pub proof fn lemma_still_placed(
    before: &Kernel,
    start: &Kernel,
    now: &Kernel,
    elf: &ElfFile,
    p: int,
)
    requires
        before.wf(),
        placed_in(before, start, elf, p),
        touched_new(start, now, before.koids.next_koid()),
    ensures
        placed_in(before, now, elf, p),
{
    let n = before.objects@.len() as int;
    let phs = elf.program_headers@;
    let segs = loads(phs, phs.len() as int);
    let next = before.koids.next_koid() + 2;
    assert(now.processes@ == start.processes@);
    assert forall|j: int| n <= j < now.objects@.len() implies #[trigger] fresh_vmo_at(
        now,
        j,
        before.koids.next_koid(),
    ) by {
        assert(fresh_vmo_at(start, j, before.koids.next_koid()));
        assert(obj_koid(now.objects@[j]) == obj_koid(start.objects@[j]));
        assert(obj_kind(now.objects@[j]) == obj_kind(start.objects@[j]));
    }
    assert forall|j: int| 0 <= j < before.objects@.len() implies #[trigger] now.objects@[j]
        == before.objects@[j] && (before.objects@[j] matches KernelObject::Vmo(w) ==> w.content(
        &now.pmem,
    ) == w.content(&before.pmem)) by {
        assert(start.objects@[j] == before.objects@[j]);
        assert(obj_koid(before.objects@[j]) < before.koids.next_koid());
        assert(now.objects@[j] == start.objects@[j]);
    }
    assert forall|j: int| 0 <= j < segs.len() implies #[trigger] is_obj(
        now.objects@,
        n + j,
        (next + j) as u64,
        ObjectType::Vmo,
    ) by {
        assert(is_obj(start.objects@, n + j, (next + j) as u64, ObjectType::Vmo));
        assert(obj_koid(now.objects@[n + j]) == obj_koid(start.objects@[n + j]));
    }
}

/// Whether `now` is `before` with one more process, `p`, whose one thread
/// is not started and in whose address space region `child`, the only one
/// besides the root, is alive and holds every mapping, and with the objects
/// of `before` in their places.
pub open spec fn loading(before: &Kernel, now: &Kernel, p: int, child: usize) -> bool {
    &&& now.wf()
    &&& p == before.processes@.len()
    &&& now.processes@.len() == p + 1
    &&& now.processes@.subrange(0, p) == before.processes@
    &&& now.user_base == before.user_base
    &&& now.user_size == before.user_size
    &&& now.processes@[p].vmar.is_live(child as int)
    &&& child == 1
    &&& now.processes@[p].vmar.nodes().len() == 2
    &&& now.processes@[p].status == Status::Init
    &&& now.processes@[p].threads@.len() == 1
    &&& now.processes@[p].threads@[0].state == ThreadState::Initial
    &&& forall|k: int|
        0 <= k < now.processes@[p].vmar.maps().len() ==> (
        #[trigger] now.processes@[p].vmar.maps()[k]).vmar == child
    &&& now.processes@[p].handles.entries().len() == 0
    &&& now.koids.next_koid() >= before.koids.next_koid()
    &&& now.objects@.len() >= before.objects@.len()
    &&& fresh_vmos_from(now, before.objects@.len() as int, before.koids.next_koid())
    &&& forall|j: int|
        0 <= j < before.objects@.len() ==> #[trigger] now.objects@[j] == before.objects@[j] && (
        before.objects@[j] matches KernelObject::Vmo(w) ==> w.content(&now.pmem) == w.content(
            &before.pmem,
        ))
}

/// Name of the symbol at which the image keeps the address of the system
/// call entry.
pub const SYSCALL_ENTRY_SYMBOL: &'static str = "rcore_syscall_entry";

/// Whether `elf` defines a symbol with the name of the system call entry.
pub open spec fn has_entry_symbol(elf: &ElfFile) -> bool {
    exists|i: int|
        0 <= i < elf.symbols@.len() && (#[trigger] elf.symbols@[i]).name@
            == "rcore_syscall_entry"@
}

/// Makes a process, loads the image `elf` into it and starts it with the
/// arguments `args` and the environment `envs`.
///
/// The image goes into a new region of its size at the lowest address of
/// the process's address space, one memory object and one mapping for each
/// segment to load. The address `syscall_entry` is stored where the image
/// keeps the symbol `rcore_syscall_entry`: in the memory object of the
/// segment whose pages hold the symbol's address, at the address's offset
/// from the segment's first page. Then the relocations of the image are
/// applied. The initial stack is laid out for a buffer of `STACK_SIZE`
/// bytes at `stack_base`, and the thread starts at the image's entry with
/// the stack pointer at the argument count and both arguments zero.
///
/// Fails with the reason of the first step that fails, as [`run_result`]
/// says: the size of the image, the symbol and its place, the arguments,
/// the new process and its region, the entry and the stack, each segment,
/// the store of the address of the system call entry, the relocations and
/// their stores. After a failure the new process, which is left exactly
/// where [`process_made`], has no mapping, no live region but its root, and
/// a thread that was never started.
pub fn run(
    kernel: &mut Kernel,
    elf: &ElfFile,
    args: Vec<String>,
    envs: Vec<String>,
    syscall_entry: u64,
    stack_base: u64,
) -> (r: Result<Loaded, LoadError>)
    requires
        old(kernel).wf(),
    ensures
        r is Err ==> rolled_back(old(kernel), final(kernel)),
        r matches Ok(l) ==> started(
            old(kernel),
            final(kernel),
            elf,
            &l,
            args@,
            envs@,
            syscall_entry,
            stack_base,
        ),
        r is Ok <==> run_result(old(kernel), elf, args@, envs@, stack_base) is Ok,
        r matches Err(e) ==> run_result(old(kernel), elf, args@, envs@, stack_base) == Err::<
            (),
            LoadError,
        >(e),
        r is Err ==> (final(kernel).processes@.len() == old(kernel).processes@.len() + 1
            <==> process_made(old(kernel), elf, args@, stack_base)),
{
    proof {
        reveal_strlit("rcore_syscall_entry");
        assert(old(kernel).processes@.subrange(0, old(kernel).processes@.len() as int)
            =~= old(kernel).processes@);
    }
    let size: usize = match elf.load_segment_size() {
        Ok(s) => s,
        Err(e) => {
            return Err(e);
        },
    };
    let entry_offset: u64 = match elf.get_symbol_address(SYSCALL_ENTRY_SYMBOL) {
        Some(v) => v,
        None => {
            return Err(LoadError::EntrySymbolNotFound);
        },
    };
    proof {
        let i = choose|i: int| #[trigger]
            elf.is_first_named(i, SYSCALL_ENTRY_SYMBOL@) && elf.symbols@[i].value == entry_offset;
        assert(elf.symbols@[i].name@ == "rcore_syscall_entry"@);
        let i2 = choose|i2: int| #[trigger] elf.is_first_named(i2, "rcore_syscall_entry"@);
        assert(elf.is_first_named(i, "rcore_syscall_entry"@));
        if i2 < i {
            assert(elf.symbols@[i2].name@ != "rcore_syscall_entry"@);
        }
        if i < i2 {
            assert(elf.symbols@[i].name@ != "rcore_syscall_entry"@);
        }
        assert(entry_offset == entry_symbol_value(elf));
    }
    let (entry_seg, entry_at): (usize, u64) = match locate_word(elf, entry_offset) {
        Some(at) => at,
        None => {
            return Err(LoadError::EntrySymbolUnmapped);
        },
    };
    if entry_at > usize::MAX as u64 {
        return Err(LoadError::OutOfRange);
    }
    if args.len() == 0 || stack_base > u64::MAX - STACK_SIZE {
        return Err(LoadError::BadArguments);
    }
    let info = ProcInitInfo { args, envs, auxv: Vec::new() };
    launch(kernel, elf, info, size, entry_seg, entry_at as usize, syscall_entry, stack_base)
}

} // verus!
