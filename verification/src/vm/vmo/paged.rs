//! Memory objects backed by page frames that are taken on demand.
use vstd::prelude::*;
use crate::error::{ZxError, ZxResult};
use crate::object::KoID;
use crate::vm::pmem::PhysMemory;
use crate::vm::{PhysAddr, PAGE_SIZE};

verus! {

/// Number of pages in `frames` that have no frame.
pub open spec fn count_none(frames: Seq<Option<usize>>) -> nat
    decreases frames.len(),
{
    if frames.len() == 0 {
        0
    } else {
        count_none(frames.drop_first()) + if frames.first() is None {
            1nat
        } else {
            0nat
        }
    }
}

/// Number of pages in `frames` that have a frame.
pub open spec fn count_some(frames: Seq<Option<usize>>) -> nat {
    (frames.len() - count_none(frames)) as nat
}

/// No more pages lack a frame than there are pages.
pub proof fn lemma_count_none_bound(frames: Seq<Option<usize>>)
    ensures
        count_none(frames) <= frames.len(),
    decreases frames.len(),
{
    if frames.len() > 0 {
        lemma_count_none_bound(frames.drop_first());
    }
}

/// Where every page has a frame, none is counted.
pub proof fn lemma_count_none_zero(frames: Seq<Option<usize>>)
    requires
        forall|i: int| 0 <= i < frames.len() ==> frames[i] is Some,
    ensures
        count_none(frames) == 0,
    decreases frames.len(),
{
    if frames.len() > 0 {
        lemma_count_none_zero(frames.drop_first());
    }
}

/// Where no page has a frame, all are counted.
pub proof fn lemma_count_none_all(frames: Seq<Option<usize>>)
    requires
        forall|i: int| 0 <= i < frames.len() ==> frames[i] is None,
    ensures
        count_none(frames) == frames.len(),
    decreases frames.len(),
{
    if frames.len() > 0 {
        lemma_count_none_all(frames.drop_first());
    }
}

/// The byte that a reader finds at offset `o` of an object with the page
/// table `frames`, given the memory contents `bytes`: what the page's frame
/// holds, or zero where the page has none.
pub open spec fn byte_at(frames: Seq<Option<usize>>, bytes: Seq<u8>, o: int) -> u8 {
    match frames[o / 4096] {
        Some(f) => bytes[f * 4096 + o % 4096],
        None => 0u8,
    }
}

/// `content` after `data` was stored at `offset`.
pub open spec fn written(content: Seq<u8>, offset: int, data: Seq<u8>) -> Seq<u8> {
    Seq::new(
        content.len(),
        |o: int|
            if offset <= o < offset + data.len() {
                data[o - offset]
            } else {
                content[o]
            },
    )
}

/// `content` after the `len` bytes from `offset` on were cleared.
pub open spec fn zeroed(content: Seq<u8>, offset: int, len: int) -> Seq<u8> {
    Seq::new(
        content.len(),
        |o: int|
            if offset <= o < offset + len {
                0u8
            } else {
                content[o]
            },
    )
}

/// `content` cut or padded with zeroes to `len` bytes.
pub open spec fn resized(content: Seq<u8>, len: nat) -> Seq<u8> {
    Seq::new(
        len,
        |o: int|
            if o < content.len() {
                content[o]
            } else {
                0u8
            },
    )
}

/// First page that an access of `len` bytes at `offset` touches.
pub open spec fn first_touched(offset: int, len: int) -> int {
    if len == 0 {
        0
    } else {
        offset / 4096
    }
}

/// The page after the last one that an access of `len` bytes at `offset`
/// touches.
pub open spec fn end_touched(offset: int, len: int) -> int {
    if len == 0 {
        0
    } else {
        (offset + len - 1) / 4096 + 1
    }
}

/// The pages without a frame are those before page `k` without one and
/// those from page `k` on without one.
pub proof fn lemma_count_none_split(frames: Seq<Option<usize>>, k: int)
    requires
        0 <= k <= frames.len(),
    ensures
        count_none(frames) == count_none(frames.subrange(0, k)) + count_none(
            frames.subrange(k, frames.len() as int),
        ),
    decreases k,
{
    if k == 0 {
        assert(frames.subrange(0, frames.len() as int) == frames);
        assert(frames.subrange(0, 0).len() == 0);
    } else {
        let rest = frames.drop_first();
        lemma_count_none_split(rest, k - 1);
        assert(frames.subrange(0, k).drop_first() == rest.subrange(0, k - 1));
        assert(frames.subrange(0, k).first() == frames.first());
        assert(rest.subrange(k - 1, rest.len() as int) == frames.subrange(
            k,
            frames.len() as int,
        ));
    }
}

/// The pages without a frame of a table, counted in three parts: before
/// page `lo`, from `lo` to `hi`, and from `hi` on.
pub proof fn lemma_count_none_parts(frames: Seq<Option<usize>>, lo: int, hi: int)
    requires
        0 <= lo <= hi <= frames.len(),
    ensures
        count_none(frames) == count_none(frames.subrange(0, lo)) + count_none(
            frames.subrange(lo, hi),
        ) + count_none(frames.subrange(hi, frames.len() as int)),
{
    lemma_count_none_split(frames, lo);
    let tail = frames.subrange(lo, frames.len() as int);
    lemma_count_none_split(tail, hi - lo);
    assert(tail.subrange(0, hi - lo) == frames.subrange(lo, hi));
    assert(tail.subrange(hi - lo, tail.len() as int) == frames.subrange(hi, frames.len() as int));
}

/// When the pages `lo..hi` of a table get frames and the other pages keep
/// what they had, the table has as many more pages with a frame as those
/// pages lacked.
pub proof fn lemma_count_after_fill(
    before: Seq<Option<usize>>,
    after: Seq<Option<usize>>,
    lo: int,
    hi: int,
)
    requires
        after.len() == before.len(),
        0 <= lo <= hi <= before.len(),
        forall|i: int| lo <= i < hi ==> after[i] is Some,
        forall|i: int| 0 <= i < before.len() && !(lo <= i < hi) ==> after[i] == before[i],
    ensures
        count_some(after) == count_some(before) + count_none(before.subrange(lo, hi)),
{
    lemma_count_none_parts(before, lo, hi);
    lemma_count_none_parts(after, lo, hi);
    assert(after.subrange(0, lo) == before.subrange(0, lo));
    assert(after.subrange(hi, after.len() as int) == before.subrange(hi, before.len() as int));
    lemma_count_none_zero(after.subrange(lo, hi));
    lemma_count_none_bound(before);
    lemma_count_none_bound(after);
}

/// When the pages `lo..hi` of a table that lack a frame get one and every
/// other page keeps what it had, the table has as many more pages with a
/// frame as those pages lacked.
pub proof fn lemma_filled(
    before: Seq<Option<usize>>,
    after: Seq<Option<usize>>,
    lo: int,
    hi: int,
)
    requires
        after.len() == before.len(),
        0 <= lo <= hi <= before.len(),
        forall|i: int| lo <= i < hi ==> after[i] is Some,
        forall|i: int|
            0 <= i < before.len() && (before[i] is Some || !(lo <= i < hi)) ==> after[i]
                == before[i],
    ensures
        count_some(after) == count_some(before) + count_none(before.subrange(lo, hi)),
{
    lemma_count_after_fill(before, after, lo, hi);
}

/// When the pages `lo..hi` of a table lose their frames and the other
/// pages keep what they had, the table has as many fewer pages with a
/// frame as those pages had.
pub proof fn lemma_count_after_clear(
    before: Seq<Option<usize>>,
    after: Seq<Option<usize>>,
    lo: int,
    hi: int,
)
    requires
        after.len() == before.len(),
        0 <= lo <= hi <= before.len(),
        forall|i: int| lo <= i < hi ==> after[i] is None,
        forall|i: int| 0 <= i < before.len() && !(lo <= i < hi) ==> after[i] == before[i],
    ensures
        count_some(after) + count_some(before.subrange(lo, hi)) == count_some(before),
{
    lemma_count_none_parts(before, lo, hi);
    lemma_count_none_parts(after, lo, hi);
    assert(after.subrange(0, lo) == before.subrange(0, lo));
    assert(after.subrange(hi, after.len() as int) == before.subrange(hi, before.len() as int));
    lemma_count_none_all(after.subrange(lo, hi));
    lemma_count_none_bound(before);
    lemma_count_none_bound(after);
    lemma_count_none_bound(before.subrange(lo, hi));
}

/// Whether one of the pages `first..end` of the page table `frames` has the
/// frame `f`.
pub open spec fn held_in(frames: Seq<Option<usize>>, first: int, end: int, f: int) -> bool {
    exists|i: int| first <= i < end && #[trigger] frames[i] == Some(f as usize)
}

/// A page with a frame counts one more than the pages after it, a page
/// without one counts as many.
pub proof fn lemma_count_some_step(frames: Seq<Option<usize>>, p: int, end: int)
    requires
        0 <= p < end <= frames.len(),
    ensures
        count_some(frames.subrange(p, end)) == count_some(frames.subrange(p + 1, end)) + if frames[p]
            is Some {
            1nat
        } else {
            0nat
        },
{
    assert(frames.subrange(p, end).drop_first() == frames.subrange(p + 1, end));
    lemma_count_none_bound(frames.subrange(p + 1, end));
    lemma_count_none_bound(frames.subrange(p, end));
}

/// A memory object whose pages get their frames when first touched.
pub struct VMObjectPaged {
    koid: KoID,
    frames: Vec<Option<usize>>,
}

impl VMObjectPaged {
    /// Identifier under which the object holds its frames.
    pub closed spec fn koid(&self) -> KoID {
        self.koid
    }

    /// For every page, the number of the frame behind it, if any.
    pub closed spec fn frame_table(&self) -> Seq<Option<usize>> {
        self.frames@
    }

    /// Number of pages.
    pub open spec fn page_count(&self) -> nat {
        self.frame_table().len()
    }

    /// Length in bytes.
    pub open spec fn size(&self) -> nat {
        self.page_count() * 4096
    }

    /// Number of pages that have a frame.
    pub open spec fn committed_pages(&self) -> nat {
        count_some(self.frame_table())
    }

    /// Number of pages in `first..last` that have no frame.
    pub open spec fn uncommitted_in(&self, first: int, last: int) -> nat {
        count_none(self.frame_table().subrange(first, last))
    }

    /// The object's frames exist in `pmem`, are held under its identifier,
    /// and no two pages share one.
    pub open spec fn wf(&self, pmem: &PhysMemory) -> bool {
        &&& self.koid() != 0
        &&& pmem.wf()
        &&& self.page_count() * 4096 <= usize::MAX
        &&& forall|i: int|
            0 <= i < self.page_count() ==> (#[trigger] self.frame_table()[i] matches Some(f) ==> f
                < pmem.frames() && pmem.owners()[f as int] == self.koid())
        &&& forall|i: int, j: int|
            0 <= i < self.page_count() && 0 <= j < self.page_count() && i != j && (
            #[trigger] self.frame_table()[i]) is Some && (#[trigger] self.frame_table()[j]) is Some
                ==> self.frame_table()[i] != self.frame_table()[j]
    }

    /// The bytes that the object holds, by offset.
    pub open spec fn content(&self, pmem: &PhysMemory) -> Seq<u8> {
        Seq::new(self.size(), |o: int| byte_at(self.frame_table(), pmem.bytes(), o))
    }

    /// An object of `pages` pages, none of which has a frame yet.
    pub fn new(koid: KoID, pages: usize) -> (vmo: Self)
        requires
            koid != 0,
            pages * 4096 <= usize::MAX,
        ensures
            vmo.koid() == koid,
            vmo.page_count() == pages,
            vmo.committed_pages() == 0,
            forall|i: int| 0 <= i < pages ==> vmo.frame_table()[i] is None,
            forall|pmem: &PhysMemory| pmem.wf() ==> #[trigger] vmo.wf(pmem),
    {
        let mut frames: Vec<Option<usize>> = Vec::new();
        let mut i: usize = 0;
        while i < pages
            invariant
                i <= pages,
                frames@.len() == i,
                forall|j: int| 0 <= j < i ==> frames@[j] is None,
            decreases pages - i,
        {
            frames.push(None);
            i += 1;
        }
        proof {
            lemma_count_none_all(frames@);
        }
        VMObjectPaged { koid, frames }
    }

    /// Identifier under which the object holds its frames.
    pub fn id(&self) -> (k: KoID)
        ensures
            k == self.koid(),
    {
        self.koid
    }

    /// Number of pages.
    pub fn pages(&self) -> (n: usize)
        ensures
            n == self.page_count(),
    {
        self.frames.len()
    }

    /// Length in bytes.
    pub fn len(&self) -> (n: usize)
        requires
            self.page_count() * 4096 <= usize::MAX,
        ensures
            n == self.size(),
    {
        self.frames.len() * PAGE_SIZE
    }

    /// The frame behind page `idx`, if it has one.
    pub fn frame_of(&self, idx: usize) -> (f: Option<usize>)
        requires
            idx < self.page_count(),
        ensures
            f == self.frame_table()[idx as int],
    {
        self.frames[idx]
    }

    /// Number of pages in `first..last` that have no frame.
    pub fn count_uncommitted(&self, first: usize, last: usize) -> (n: usize)
        requires
            first <= last <= self.page_count(),
        ensures
            n == self.uncommitted_in(first as int, last as int),
            n <= last - first,
    {
        let mut n: usize = 0;
        let mut i: usize = first;
        while i < last
            invariant
                first <= i <= last <= self.frames@.len(),
                n <= i - first,
                n + count_none(self.frames@.subrange(i as int, last as int)) == count_none(
                    self.frames@.subrange(first as int, last as int),
                ),
            decreases last - i,
        {
            proof {
                assert(self.frames@.subrange(i as int, last as int).drop_first()
                    == self.frames@.subrange(i + 1, last as int));
            }
            if self.frames[i].is_none() {
                n += 1;
            }
            i += 1;
        }
        n
    }

    /// Gives every page of `first..last` a zero-filled frame, unless memory
    /// has fewer free frames than the range has pages without one; then
    /// nothing changes. Says whether the pages are committed now.
    pub fn commit_pages(&mut self, pmem: &mut PhysMemory, first: usize, last: usize) -> (done: bool)
        requires
            old(self).wf(old(pmem)),
            first <= last <= old(self).page_count(),
        ensures
            final(self).wf(final(pmem)),
            final(self).koid() == old(self).koid(),
            final(self).page_count() == old(self).page_count(),
            done <==> old(self).uncommitted_in(first as int, last as int) <= old(pmem).free_frames(),
            !done ==> *final(self) == *old(self) && *final(pmem) == *old(pmem),
            done ==> final(pmem).free_frames() + old(self).uncommitted_in(first as int, last as int)
                == old(pmem).free_frames(),
            done ==> forall|i: int| first <= i < last ==> final(self).frame_table()[i] is Some,
            forall|i: int|
                0 <= i < old(self).page_count() && (old(self).frame_table()[i] is Some || !(first
                    <= i < last)) ==> final(self).frame_table()[i] == old(self).frame_table()[i],
            final(self).content(final(pmem)) == old(self).content(old(pmem)),
            old(pmem).changed_only_for(final(pmem), old(self).koid()),
    {
        let need: usize = self.count_uncommitted(first, last);
        if pmem.count_free_frames() < need {
            return false;
        }
        let koid: KoID = self.koid;
        let mut p: usize = first;
        while p < last
            invariant
                first <= p <= last <= self.frames@.len(),
                koid == self.koid,
                koid == old(self).koid,
                self.frames@.len() == old(self).frames@.len(),
                self.wf(pmem),
                count_none(self.frames@.subrange(p as int, last as int)) <= pmem.free_frames(),
                pmem.free_frames() + need == old(pmem).free_frames() + count_none(
                    self.frames@.subrange(p as int, last as int),
                ),
                forall|i: int| first <= i < p ==> self.frames@[i] is Some,
                forall|i: int|
                    0 <= i < self.frames@.len() && (old(self).frames@[i] is Some || !(first <= i
                        < p)) ==> self.frames@[i] == old(self).frames@[i],
                forall|o: int|
                    0 <= o < self.frames@.len() * 4096 ==> byte_at(self.frames@, pmem.bytes(), o)
                        == byte_at(old(self).frames@, old(pmem).bytes(), o),
                old(pmem).changed_only_for(pmem, koid),
            decreases last - p,
        {
            proof {
                assert(self.frames@.subrange(p as int, last as int).drop_first()
                    == self.frames@.subrange(p + 1, last as int));
            }
            if self.frames[p].is_none() {
                let ghost prev_frames = self.frames@;
                let ghost prev_bytes = pmem.bytes();
                let ghost prev_owners = pmem.owners();
                let got = pmem.frame_alloc(koid);
                let f: usize = got.unwrap();
                self.frames.set(p, Some(f));
                proof {
                    assert(self.frames@.subrange(p + 1, last as int) == prev_frames.subrange(
                        p + 1,
                        last as int,
                    ));
                    assert forall|o: int| 0 <= o < self.frames@.len() * 4096 implies byte_at(
                        self.frames@,
                        pmem.bytes(),
                        o,
                    ) == byte_at(prev_frames, prev_bytes, o) by {
                        let q = o / 4096;
                        if q != p {
                            assert(self.frames@[q] == prev_frames[q]);
                            if let Some(g) = prev_frames[q] {
                                assert(prev_owners[g as int] == koid);
                                assert(g != f);
                            }
                        }
                    }
                    assert forall|a: int|
                        0 <= a < old(pmem).bytes().len() && a / 4096 < old(pmem).frames() && old(pmem).owners()[a / 4096] != 0 && old(pmem).owners()[a / 4096]
                            != koid implies #[trigger] pmem.bytes()[a] == old(pmem).bytes()[a] by {
                        assert(prev_bytes[a] == old(pmem).bytes()[a]);
                        assert(prev_owners[a / 4096] == old(pmem).owners()[a / 4096]);
                    }
                }
            }
            p += 1;
        }
        true
    }

    /// Makes sure page `idx` has a frame and returns the frame's address.
    ///
    /// A page that has one keeps it. Fails with `INVALID_ARGS` for a page
    /// past the end, with `NO_MEMORY` when a frame is needed and none is free.
    pub fn commit_page(&mut self, pmem: &mut PhysMemory, idx: usize) -> (r: ZxResult<PhysAddr>)
        requires
            old(self).wf(old(pmem)),
        ensures
            final(self).wf(final(pmem)),
            final(self).koid() == old(self).koid(),
            final(self).page_count() == old(self).page_count(),
            final(self).content(final(pmem)) == old(self).content(old(pmem)),
            old(pmem).changed_only_for(final(pmem), old(self).koid()),
            r is Ok <==> idx < old(self).page_count() && (old(self).frame_table()[idx as int]
                is Some || old(pmem).free_frames() > 0),
            r matches Err(e) ==> e == if idx >= old(self).page_count() {
                ZxError::INVALID_ARGS
            } else {
                ZxError::NO_MEMORY
            },
            r is Err ==> *final(self) == *old(self) && *final(pmem) == *old(pmem),
            r matches Ok(paddr) ==> {
                &&& idx < old(self).page_count()
                &&& final(self).frame_table()[idx as int] matches Some(f) && paddr == f * 4096
                &&& old(self).frame_table()[idx as int] is Some ==> *final(self) == *old(self)
                    && *final(pmem) == *old(pmem)
                &&& forall|i: int|
                    0 <= i < old(self).page_count() && i != idx ==> final(self).frame_table()[i]
                        == old(self).frame_table()[i]
            },
    {
        if idx >= self.frames.len() {
            return Err(ZxError::INVALID_ARGS);
        }
        proof {
            reveal_with_fuel(count_none, 2);
            let one = self.frames@.subrange(idx as int, idx + 1);
            assert(one.drop_first().len() == 0);
            assert(count_none(one) == if self.frames@[idx as int] is None {
                1nat
            } else {
                0nat
            });
        }
        match self.frames[idx] {
            Some(f) => Ok(f * PAGE_SIZE),
            None => {
                if self.commit_pages(pmem, idx, idx + 1) {
                    let f: usize = self.frames[idx].unwrap();
                    Ok(f * PAGE_SIZE)
                } else {
                    Err(ZxError::NO_MEMORY)
                }
            },
        }
    }

    /// Reads `len` bytes at `offset` as they stand, without touching any
    /// page.
    fn load_bytes(&self, pmem: &PhysMemory, offset: usize, len: usize) -> (buf: Vec<u8>)
        requires
            self.wf(pmem),
            offset + len <= self.size(),
        ensures
            buf@ == self.content(pmem).subrange(offset as int, offset + len),
    {
        let mut buf: Vec<u8> = Vec::new();
        let mut i: usize = 0;
        while i < len
            invariant
                i <= len,
                self.wf(pmem),
                offset + len <= self.frames@.len() * 4096,
                buf@.len() == i,
                forall|k: int|
                    0 <= k < i ==> buf@[k] == byte_at(self.frames@, pmem.bytes(), offset + k),
            decreases len - i,
        {
            let o: usize = offset + i;
            let b: u8 = match self.frames[o / PAGE_SIZE] {
                Some(f) => pmem.byte(f * PAGE_SIZE + o % PAGE_SIZE),
                None => 0u8,
            };
            buf.push(b);
            i += 1;
        }
        buf
    }

    /// Stores `buf` at `offset`, into pages that all have frames.
    fn store_bytes(&self, pmem: &mut PhysMemory, offset: usize, buf: &[u8])
        requires
            self.wf(old(pmem)),
            offset + buf@.len() <= self.size(),
            forall|i: int|
                first_touched(offset as int, buf@.len() as int) <= i < end_touched(
                    offset as int,
                    buf@.len() as int,
                ) ==> self.frame_table()[i] is Some,
        ensures
            self.wf(final(pmem)),
            final(pmem).owners() == old(pmem).owners(),
            self.content(final(pmem)) == written(self.content(old(pmem)), offset as int, buf@),
            old(pmem).changed_only_for(final(pmem), self.koid()),
    {
        let len: usize = buf.len();
        let mut i: usize = 0;
        while i < len
            invariant
                i <= len,
                len == buf@.len(),
                self.wf(pmem),
                offset + len <= self.frames@.len() * 4096,
                pmem.owners() == old(pmem).owners(),
                pmem.bytes().len() == old(pmem).bytes().len(),
                forall|p: int|
                    first_touched(offset as int, len as int) <= p < end_touched(
                        offset as int,
                        len as int,
                    ) ==> self.frames@[p] is Some,
                forall|o: int|
                    0 <= o < self.frames@.len() * 4096 ==> byte_at(self.frames@, pmem.bytes(), o)
                        == if offset <= o < offset + i {
                        buf@[o - offset]
                    } else {
                        byte_at(self.frames@, old(pmem).bytes(), o)
                    },
                forall|a: int|
                    0 <= a < pmem.bytes().len() && pmem.owners()[a / 4096] != self.koid
                        ==> #[trigger] pmem.bytes()[a] == old(pmem).bytes()[a],
            decreases len - i,
        {
            let o: usize = offset + i;
            let page: usize = o / PAGE_SIZE;
            let f: usize = self.frames[page].unwrap();
            let ghost prev = pmem.bytes();
            pmem.set_byte(f * PAGE_SIZE + o % PAGE_SIZE, buf[i]);
            proof {
                assert forall|q: int| 0 <= q < self.frames@.len() * 4096 implies byte_at(
                    self.frames@,
                    pmem.bytes(),
                    q,
                ) == if offset <= q < offset + i + 1 {
                    buf@[q - offset]
                } else {
                    byte_at(self.frames@, old(pmem).bytes(), q)
                } by {
                    if q != o {
                        if let Some(g) = self.frames@[q / 4096] {
                            if g == f {
                                assert(q / 4096 == page as int);
                            }
                            assert(g * 4096 + q % 4096 != f * 4096 + o % 4096);
                        }
                        assert(byte_at(self.frames@, pmem.bytes(), q) == byte_at(
                            self.frames@,
                            prev,
                            q,
                        ));
                    }
                }
                assert forall|a: int|
                    0 <= a < pmem.bytes().len() && pmem.owners()[a / 4096]
                        != self.koid implies #[trigger] pmem.bytes()[a] == old(pmem).bytes()[a] by {
                    assert(prev[a] == old(pmem).bytes()[a]);
                    assert((f * 4096 + o % 4096) / 4096 == f as int);
                }
            }
            i += 1;
        }
    }

    /// Stores `buf` at `offset`, giving frames to the pages it touches.
    ///
    /// Fails with `INVALID_ARGS` when the bytes would reach past the end of
    /// the object, with `NO_MEMORY` when the touched pages need more frames
    /// than are free. A failed call changes nothing.
    pub fn write(&mut self, pmem: &mut PhysMemory, offset: usize, buf: &[u8]) -> (r: ZxResult)
        requires
            old(self).wf(old(pmem)),
        ensures
            final(self).wf(final(pmem)),
            final(self).koid() == old(self).koid(),
            final(self).page_count() == old(self).page_count(),
            old(pmem).changed_only_for(final(pmem), old(self).koid()),
            r == old(self).access_result(old(pmem), offset as int, buf@.len() as int),
            r is Err ==> *final(self) == *old(self) && *final(pmem) == *old(pmem),
            r is Ok ==> {
                &&& final(self).content(final(pmem)) == written(
                    old(self).content(old(pmem)),
                    offset as int,
                    buf@,
                )
                &&& old(self).touched(final(self), offset as int, buf@.len() as int)
                &&& final(self).access_result(final(pmem), offset as int, buf@.len() as int) is Ok
                &&& final(pmem).free_frames() + old(self).uncommitted_in(
                    first_touched(offset as int, buf@.len() as int),
                    end_touched(offset as int, buf@.len() as int),
                ) == old(pmem).free_frames()
                &&& final(self).committed_pages() == old(self).committed_pages() + old(self).uncommitted_in(
                    first_touched(offset as int, buf@.len() as int),
                    end_touched(offset as int, buf@.len() as int),
                )
            },
    {
        let size: usize = self.len();
        let len: usize = buf.len();
        if offset > size || len > size - offset {
            return Err(ZxError::INVALID_ARGS);
        }
        let (first, end) = Self::touched_range(offset, len);
        if !self.commit_pages(pmem, first, end) {
            return Err(ZxError::NO_MEMORY);
        }
        let ghost mid = *pmem;
        self.store_bytes(pmem, offset, buf);
        proof {
            lemma_changed_only_for_trans(old(pmem), &mid, pmem, self.koid);
            self.lemma_access_ok_once_touched(pmem, offset as int, len as int);
            lemma_filled(old(self).frames@, self.frames@, first as int, end as int);
        }
        Ok(())
    }

    /// Reads `len` bytes at `offset`, giving frames to the pages it touches.
    ///
    /// Fails like [`VMObjectPaged::write`]; a failed call changes nothing.
    pub fn read(&mut self, pmem: &mut PhysMemory, offset: usize, len: usize) -> (r: ZxResult<
        Vec<u8>,
    >)
        requires
            old(self).wf(old(pmem)),
        ensures
            final(self).wf(final(pmem)),
            final(self).koid() == old(self).koid(),
            final(self).page_count() == old(self).page_count(),
            old(pmem).changed_only_for(final(pmem), old(self).koid()),
            final(self).content(final(pmem)) == old(self).content(old(pmem)),
            r is Ok <==> old(self).access_result(old(pmem), offset as int, len as int) is Ok,
            r matches Err(e) ==> old(self).access_result(old(pmem), offset as int, len as int)
                == Err::<(), ZxError>(e) && *final(self) == *old(self) && *final(pmem) == *old(pmem),
            r matches Ok(buf) ==> {
                &&& buf@ == old(self).content(old(pmem)).subrange(offset as int, offset + len)
                &&& old(self).touched(final(self), offset as int, len as int)
                &&& final(self).access_result(final(pmem), offset as int, len as int) is Ok
            },
    {
        let size: usize = self.len();
        if offset > size || len > size - offset {
            return Err(ZxError::INVALID_ARGS);
        }
        let (first, end) = Self::touched_range(offset, len);
        if !self.commit_pages(pmem, first, end) {
            return Err(ZxError::NO_MEMORY);
        }
        proof {
            self.lemma_access_ok_once_touched(pmem, offset as int, len as int);
        }
        Ok(self.load_bytes(pmem, offset, len))
    }

    /// What committing or decommitting the range of `len` bytes at `offset`
    /// is checked for: both numbers are multiples of the page size and the
    /// range ends inside the object.
    pub open spec fn page_range_ok(&self, offset: int, len: int) -> bool {
        offset % 4096 == 0 && len % 4096 == 0 && offset + len <= self.size()
    }

    /// Gives a frame to every page of the range of `len` bytes at `offset`.
    ///
    /// Fails with `INVALID_ARGS` unless [`VMObjectPaged::page_range_ok`],
    /// with `NO_MEMORY` when the range lacks more frames than are free. A
    /// failed call changes nothing; no call changes what the object holds.
    pub fn commit(&mut self, pmem: &mut PhysMemory, offset: usize, len: usize) -> (r: ZxResult)
        requires
            old(self).wf(old(pmem)),
        ensures
            final(self).wf(final(pmem)),
            final(self).koid() == old(self).koid(),
            final(self).page_count() == old(self).page_count(),
            old(pmem).changed_only_for(final(pmem), old(self).koid()),
            final(self).content(final(pmem)) == old(self).content(old(pmem)),
            r == if !old(self).page_range_ok(offset as int, len as int) {
                Err::<(), ZxError>(ZxError::INVALID_ARGS)
            } else if old(self).uncommitted_in(offset as int / 4096, (offset + len) / 4096) > old(pmem).free_frames() {
                Err::<(), ZxError>(ZxError::NO_MEMORY)
            } else {
                Ok::<(), ZxError>(())
            },
            r is Err ==> *final(self) == *old(self) && *final(pmem) == *old(pmem),
            r is Ok ==> {
                &&& forall|i: int|
                    offset as int / 4096 <= i < (offset + len) / 4096
                        ==> final(self).frame_table()[i] is Some
                &&& forall|i: int|
                    0 <= i < old(self).page_count() && (old(self).frame_table()[i] is Some || !(
                    offset as int / 4096 <= i < (offset + len) / 4096))
                        ==> final(self).frame_table()[i] == old(self).frame_table()[i]
                &&& final(self).committed_pages() == old(self).committed_pages() + old(self).uncommitted_in(offset as int / 4096, (offset + len) / 4096)
                &&& final(pmem).free_frames() + old(self).uncommitted_in(
                    offset as int / 4096,
                    (offset + len) / 4096,
                ) == old(pmem).free_frames()
            },
    {
        let size: usize = self.len();
        if offset % PAGE_SIZE != 0 || len % PAGE_SIZE != 0 || offset > size || len > size - offset {
            return Err(ZxError::INVALID_ARGS);
        }
        let first: usize = offset / PAGE_SIZE;
        let end: usize = (offset + len) / PAGE_SIZE;
        if self.commit_pages(pmem, first, end) {
            proof {
                lemma_filled(old(self).frames@, self.frames@, first as int, end as int);
            }
            Ok(())
        } else {
            Err(ZxError::NO_MEMORY)
        }
    }

    /// Takes the frames away from every page of the range of `len` bytes at
    /// `offset`, so that the range reads as zeroes.
    ///
    /// Fails with `INVALID_ARGS`, changing nothing, unless
    /// [`VMObjectPaged::page_range_ok`].
    pub fn decommit(&mut self, pmem: &mut PhysMemory, offset: usize, len: usize) -> (r: ZxResult)
        requires
            old(self).wf(old(pmem)),
        ensures
            final(self).wf(final(pmem)),
            final(self).koid() == old(self).koid(),
            final(self).page_count() == old(self).page_count(),
            old(pmem).changed_only_for(final(pmem), old(self).koid()),
            final(pmem).bytes() == old(pmem).bytes(),
            r == if old(self).page_range_ok(offset as int, len as int) {
                Ok::<(), ZxError>(())
            } else {
                Err::<(), ZxError>(ZxError::INVALID_ARGS)
            },
            r is Err ==> *final(self) == *old(self) && *final(pmem) == *old(pmem),
            r is Ok ==> {
                &&& final(self).content(final(pmem)) == zeroed(
                    old(self).content(old(pmem)),
                    offset as int,
                    len as int,
                )
                &&& forall|i: int|
                    offset as int / 4096 <= i < (offset + len) / 4096
                        ==> final(self).frame_table()[i] is None
                &&& forall|i: int|
                    0 <= i < old(self).page_count() && !(offset as int / 4096 <= i < (offset + len)
                        / 4096) ==> final(self).frame_table()[i] == old(self).frame_table()[i]
                &&& final(pmem).free_frames() == old(pmem).free_frames() + old(self).committed_in(
                    offset as int / 4096,
                    (offset + len) / 4096,
                )
                &&& final(self).committed_pages() + old(self).committed_in(
                    offset as int / 4096,
                    (offset + len) / 4096,
                ) == old(self).committed_pages()
            },
    {
        let size: usize = self.len();
        if offset % PAGE_SIZE != 0 || len % PAGE_SIZE != 0 || offset > size || len > size - offset {
            return Err(ZxError::INVALID_ARGS);
        }
        let first: usize = offset / PAGE_SIZE;
        let end: usize = (offset + len) / PAGE_SIZE;
        self.release_pages(pmem, first, end);
        proof {
            lemma_count_after_clear(old(self).frames@, self.frames@, first as int, end as int);
        }
        Ok(())
    }

    /// Takes the frames away from the pages `first..end`: each of those
    /// frames is free afterwards, and no other frame changes hands.
    fn release_pages(&mut self, pmem: &mut PhysMemory, first: usize, end: usize)
        requires
            old(self).wf(old(pmem)),
            first <= end <= old(self).page_count(),
        ensures
            final(self).wf(final(pmem)),
            final(self).koid() == old(self).koid(),
            final(self).page_count() == old(self).page_count(),
            old(pmem).changed_only_for(final(pmem), old(self).koid()),
            final(pmem).bytes() == old(pmem).bytes(),
            forall|i: int| first <= i < end ==> final(self).frame_table()[i] is None,
            forall|i: int|
                0 <= i < old(self).page_count() && !(first <= i < end) ==> final(self).frame_table()[i]
                    == old(self).frame_table()[i],
            forall|f: int|
                0 <= f < old(pmem).frames() ==> #[trigger] final(pmem).owners()[f] == if held_in(
                    old(self).frame_table(),
                    first as int,
                    end as int,
                    f,
                ) {
                    0u64
                } else {
                    old(pmem).owners()[f]
                },
            final(pmem).free_frames() == old(pmem).free_frames() + count_some(
                old(self).frame_table().subrange(first as int, end as int),
            ),
    {
        let koid: KoID = self.koid;
        let mut p: usize = first;
        while p < end
            invariant
                first <= p <= end <= self.frames@.len(),
                koid == self.koid,
                koid == old(self).koid,
                self.frames@.len() == old(self).frames@.len(),
                self.wf(pmem),
                pmem.bytes() == old(pmem).bytes(),
                pmem.frames() == old(pmem).frames(),
                old(pmem).changed_only_for(pmem, koid),
                forall|i: int| first <= i < p ==> self.frames@[i] is None,
                forall|i: int|
                    0 <= i < self.frames@.len() && !(first <= i < p) ==> self.frames@[i] == old(self).frames@[i],
                forall|f: int|
                    0 <= f < pmem.frames() ==> #[trigger] pmem.owners()[f] == if held_in(
                        old(self).frames@,
                        first as int,
                        p as int,
                        f,
                    ) {
                        0u64
                    } else {
                        old(pmem).owners()[f]
                    },
                pmem.free_frames() + count_some(old(self).frames@.subrange(p as int, end as int))
                    == old(pmem).free_frames() + count_some(
                    old(self).frames@.subrange(first as int, end as int),
                ),
            decreases end - p,
        {
            let ghost prev_owners = pmem.owners();
            let ghost before = old(self).frames@;
            proof {
                assert(self.frames@[p as int] == before[p as int]);
                lemma_count_some_step(before, p as int, end as int);
            }
            if let Some(g) = self.frames[p] {
                pmem.frame_dealloc(g, koid);
                self.frames.set(p, None);
            }
            proof {
                assert forall|f: int| 0 <= f < pmem.frames() implies #[trigger] pmem.owners()[f]
                    == if held_in(before, first as int, p + 1, f) {
                    0u64
                } else {
                    old(pmem).owners()[f]
                } by {
                    if held_in(before, first as int, p as int, f) {
                        let i = choose|i: int|
                            first <= i < p && #[trigger] before[i] == Some(f as usize);
                        assert(first <= i < p + 1 && before[i] == Some(f as usize));
                        assert(prev_owners[f] == 0);
                    } else if before[p as int] == Some(f as usize) {
                        assert(first <= p < p + 1 && before[p as int] == Some(f as usize));
                    } else {
                        if held_in(before, first as int, p + 1, f) {
                            let i = choose|i: int|
                                first <= i < p + 1 && #[trigger] before[i] == Some(f as usize);
                            if i < p {
                                assert(first <= i < p && before[i] == Some(f as usize));
                            }
                        }
                        assert(prev_owners[f] == old(pmem).owners()[f]);
                    }
                }
            }
            p += 1;
        }
    }

    /// Changes the length to `len` bytes: a shorter object gives up the
    /// frames of the pages it loses, a longer one gains pages without frames.
    ///
    /// Fails with `INVALID_ARGS`, changing nothing, unless `len` is a
    /// multiple of the page size.
    pub fn set_len(&mut self, pmem: &mut PhysMemory, len: usize) -> (r: ZxResult)
        requires
            old(self).wf(old(pmem)),
        ensures
            final(self).wf(final(pmem)),
            final(self).koid() == old(self).koid(),
            old(pmem).changed_only_for(final(pmem), old(self).koid()),
            final(pmem).bytes() == old(pmem).bytes(),
            r == if len % 4096 == 0 {
                Ok::<(), ZxError>(())
            } else {
                Err::<(), ZxError>(ZxError::INVALID_ARGS)
            },
            r is Err ==> *final(self) == *old(self) && *final(pmem) == *old(pmem),
            r is Ok ==> {
                &&& final(self).size() == len
                &&& final(self).content(final(pmem)) == resized(
                    old(self).content(old(pmem)),
                    len as nat,
                )
                &&& forall|i: int|
                    0 <= i < old(self).page_count() && i < final(self).page_count() ==> final(self).frame_table()[i] == old(self).frame_table()[i]
                &&& forall|i: int|
                    old(self).page_count() <= i < final(self).page_count() ==> final(self).frame_table()[i] is None
            },
    {
        if len % PAGE_SIZE != 0 {
            return Err(ZxError::INVALID_ARGS);
        }
        let pages: usize = len / PAGE_SIZE;
        let had: usize = self.frames.len();
        if pages <= had {
            self.release_pages(pmem, pages, had);
            self.frames.truncate(pages);
        } else {
            let mut i: usize = had;
            while i < pages
                invariant
                    had <= i <= pages,
                    pages * 4096 == len,
                    self.koid == old(self).koid,
                    self.frames@.len() == i,
                    forall|j: int| 0 <= j < had ==> self.frames@[j] == old(self).frames@[j],
                    forall|j: int| had <= j < i ==> self.frames@[j] is None,
                decreases pages - i,
            {
                self.frames.push(None);
                i += 1;
            }
        }
        Ok(())
    }

    /// Number of pages in `first..end` that have a frame.
    pub open spec fn committed_in(&self, first: int, end: int) -> nat {
        count_some(self.frame_table().subrange(first, end))
    }

    /// Makes a new object, held under `koid`, that holds what the range of
    /// `len` bytes at `offset` holds now. The two objects share no frame:
    /// storing into one never shows in the other.
    ///
    /// Fails with `INVALID_ARGS` unless [`VMObjectPaged::page_range_ok`],
    /// with `NO_MEMORY` when the range has more frames than are free. A
    /// failed call changes nothing.
    pub fn create_child(&self, pmem: &mut PhysMemory, koid: KoID, offset: usize, len: usize) -> (r:
        ZxResult<VMObjectPaged>)
        requires
            self.wf(old(pmem)),
            koid != 0,
            koid != self.koid(),
        ensures
            self.wf(final(pmem)),
            old(pmem).changed_only_for(final(pmem), koid),
            self.content(final(pmem)) == self.content(old(pmem)),
            r is Err ==> *final(pmem) == *old(pmem),
            r matches Err(e) ==> e == if !self.page_range_ok(offset as int, len as int) {
                ZxError::INVALID_ARGS
            } else {
                ZxError::NO_MEMORY
            },
            r is Ok <==> self.page_range_ok(offset as int, len as int) && self.committed_in(
                offset as int / 4096,
                (offset + len) / 4096,
            ) <= old(pmem).free_frames(),
            r matches Ok(child) ==> {
                &&& child.wf(final(pmem))
                &&& child.koid() == koid
                &&& child.size() == len
                &&& child.content(final(pmem)) == self.content(old(pmem)).subrange(
                    offset as int,
                    offset + len,
                )
                &&& forall|i: int|
                    0 <= i < child.page_count() ==> (child.frame_table()[i] is Some
                        <==> self.frame_table()[offset as int / 4096 + i] is Some)
            },
    {
        let size: usize = self.len();
        if offset % PAGE_SIZE != 0 || len % PAGE_SIZE != 0 || offset > size || len > size - offset {
            return Err(ZxError::INVALID_ARGS);
        }
        let first: usize = offset / PAGE_SIZE;
        let n: usize = len / PAGE_SIZE;
        let missing: usize = self.count_uncommitted(first, first + n);
        if pmem.count_free_frames() < n - missing {
            return Err(ZxError::NO_MEMORY);
        }
        let mut frames: Vec<Option<usize>> = Vec::new();
        let mut q: usize = 0;
        while q < n
            invariant
                q <= n,
                first + n <= self.frames@.len(),
                first == offset / 4096,
                offset % 4096 == 0,
                koid != 0,
                koid != self.koid,
                self.wf(pmem),
                frames@.len() == q,
                old(pmem).changed_only_for(pmem, koid),
                count_some(self.frames@.subrange(first + q, first + n)) <= pmem.free_frames(),
                forall|i: int|
                    0 <= i < q ==> (#[trigger] frames@[i] matches Some(g) ==> g < pmem.frames()
                        && pmem.owners()[g as int] == koid),
                forall|i: int, j: int|
                    0 <= i < q && 0 <= j < q && i != j && (#[trigger] frames@[i]) is Some && (
                    #[trigger] frames@[j]) is Some ==> frames@[i] != frames@[j],
                forall|i: int|
                    0 <= i < q ==> ((#[trigger] frames@[i]) is Some <==> self.frames@[first + i]
                        is Some),
                forall|o: int|
                    0 <= o < q * 4096 ==> byte_at(frames@, pmem.bytes(), o) == byte_at(
                        self.frames@,
                        old(pmem).bytes(),
                        offset + o,
                    ),
                forall|o: int|
                    0 <= o < self.frames@.len() * 4096 ==> byte_at(self.frames@, pmem.bytes(), o)
                        == byte_at(self.frames@, old(pmem).bytes(), o),
            decreases n - q,
        {
            proof {
                assert(self.frames@.subrange(first + q, first + n).drop_first()
                    == self.frames@.subrange(first + q + 1, first + n));
                lemma_count_none_bound(self.frames@.subrange(first + q + 1, first + n));
            }
            let ghost prev_frames = frames@;
            let ghost prev = *pmem;
            match self.frames[first + q] {
                Some(f) => {
                    let got = pmem.frame_alloc(koid);
                    let g: usize = got.unwrap();
                    let ghost mid = *pmem;
                    pmem.copy_frame(f, g);
                    frames.push(Some(g));
                    proof {
                        assert forall|o: int| 0 <= o < self.frames@.len() * 4096 implies byte_at(
                            self.frames@,
                            pmem.bytes(),
                            o,
                        ) == byte_at(self.frames@, prev.bytes(), o) by {
                            if let Some(h) = self.frames@[o / 4096] {
                                assert(prev.owners()[h as int] == self.koid);
                                assert(h != g);
                            }
                        }
                        assert forall|o: int| 0 <= o < (q + 1) * 4096 implies byte_at(
                            frames@,
                            pmem.bytes(),
                            o,
                        ) == byte_at(self.frames@, old(pmem).bytes(), offset + o) by {
                            if o < q * 4096 {
                                assert(frames@[o / 4096] == prev_frames[o / 4096]);
                                if let Some(h) = prev_frames[o / 4096] {
                                    assert(prev.owners()[h as int] == koid);
                                    assert(h != g);
                                }
                                assert(byte_at(frames@, pmem.bytes(), o) == byte_at(
                                    prev_frames,
                                    prev.bytes(),
                                    o,
                                ));
                            } else {
                                assert(o / 4096 == q);
                                assert((offset + o) / 4096 == first + q);
                                assert((offset + o) % 4096 == o % 4096);
                                assert(byte_at(self.frames@, prev.bytes(), offset + o) == byte_at(
                                    self.frames@,
                                    old(pmem).bytes(),
                                    offset + o,
                                ));
                            }
                        }
                        assert forall|a: int|
                            0 <= a < old(pmem).bytes().len() && a / 4096 < old(pmem).frames()
                                && old(pmem).owners()[a / 4096] != 0 && old(pmem).owners()[a
                                / 4096] != koid implies #[trigger] pmem.bytes()[a] == old(pmem).bytes()[a] by {
                            assert(prev.bytes()[a] == old(pmem).bytes()[a]);
                            assert(prev.owners()[a / 4096] == old(pmem).owners()[a / 4096]);
                        }
                    }
                },
                None => {
                    frames.push(None);
                    proof {
                        assert forall|o: int| 0 <= o < (q + 1) * 4096 implies byte_at(
                            frames@,
                            pmem.bytes(),
                            o,
                        ) == byte_at(self.frames@, old(pmem).bytes(), offset + o) by {
                            if o < q * 4096 {
                                assert(frames@[o / 4096] == prev_frames[o / 4096]);
                                assert(byte_at(frames@, pmem.bytes(), o) == byte_at(
                                    prev_frames,
                                    pmem.bytes(),
                                    o,
                                ));
                            } else {
                                assert(o / 4096 == q);
                                assert((offset + o) / 4096 == first + q);
                                assert(frames@[q as int] is None);
                                assert(self.frames@[first + q] is None);
                            }
                        }
                    }
                },
            }
            q += 1;
        }
        Ok(VMObjectPaged { koid, frames })
    }

    /// Whether one of the object's pages has the frame `f`.
    pub open spec fn holds_frame(&self, f: int) -> bool {
        held_in(self.frame_table(), 0, self.page_count() as int, f)
    }

    /// Gives up every frame; the object ends here. Each frame that one of
    /// the object's pages had is free afterwards, no other frame changes
    /// hands, and no byte of memory changes.
    pub fn destroy(self, pmem: &mut PhysMemory)
        requires
            self.wf(old(pmem)),
        ensures
            final(pmem).wf(),
            old(pmem).changed_only_for(final(pmem), self.koid()),
            final(pmem).bytes() == old(pmem).bytes(),
            final(pmem).frames() == old(pmem).frames(),
            forall|f: int|
                0 <= f < old(pmem).frames() ==> #[trigger] final(pmem).owners()[f]
                    == if self.holds_frame(f) {
                    0u64
                } else {
                    old(pmem).owners()[f]
                },
            final(pmem).free_frames() == old(pmem).free_frames() + self.committed_pages(),
    {
        let mut vmo = self;
        let n: usize = vmo.frames.len();
        proof {
            assert(self.frames@.subrange(0, n as int) == self.frames@);
        }
        vmo.release_pages(pmem, 0, n);
    }

    /// What an access of `len` bytes at `offset` comes to: `INVALID_ARGS`
    /// where it would reach past the end, `NO_MEMORY` where the pages it
    /// touches lack more frames than are free.
    pub open spec fn access_result(&self, pmem: &PhysMemory, offset: int, len: int) -> ZxResult {
        if offset + len > self.size() {
            Err(ZxError::INVALID_ARGS)
        } else if self.uncommitted_in(first_touched(offset, len), end_touched(offset, len))
            > pmem.free_frames() {
            Err(ZxError::NO_MEMORY)
        } else {
            Ok(())
        }
    }

    /// Whether `after` has a frame for every page that an access of `len`
    /// bytes at `offset` touches, and otherwise the frames of `self`.
    pub open spec fn touched(&self, after: &VMObjectPaged, offset: int, len: int) -> bool {
        &&& after.page_count() == self.page_count()
        &&& forall|i: int|
            first_touched(offset, len) <= i < end_touched(offset, len)
                ==> after.frame_table()[i] is Some
        &&& forall|i: int|
            0 <= i < self.page_count() && (self.frame_table()[i] is Some || !(first_touched(
                offset,
                len,
            ) <= i < end_touched(offset, len))) ==> after.frame_table()[i] == self.frame_table()[i]
    }

    /// The pages that an access of `len` bytes at `offset` touches.
    fn touched_range(offset: usize, len: usize) -> (r: (usize, usize))
        requires
            offset + len <= usize::MAX,
        ensures
            r.0 == first_touched(offset as int, len as int),
            r.1 == end_touched(offset as int, len as int),
            r.0 <= r.1,
            r.1 * 4096 < offset + len + 4096,
    {
        if len == 0 {
            (0, 0)
        } else {
            (offset / PAGE_SIZE, (offset + len - 1) / PAGE_SIZE + 1)
        }
    }

    /// Number of bytes of memory that the object occupies.
    pub fn committed_bytes(&self) -> (n: usize)
        requires
            self.page_count() * 4096 <= usize::MAX,
        ensures
            n == self.committed_pages() * 4096,
            n <= self.size(),
    {
        let total: usize = self.frames.len();
        let missing: usize = self.count_uncommitted(0, total);
        proof {
            assert(self.frames@.subrange(0, total as int) == self.frames@);
        }
        (total - missing) * PAGE_SIZE
    }
}

impl VMObjectPaged {
    /// An access to pages that all have frames needs no memory: it succeeds
    /// if it ends inside the object.
    pub proof fn lemma_access_ok_once_touched(&self, pmem: &PhysMemory, offset: int, len: int)
        requires
            0 <= offset,
            0 <= len,
            offset + len <= self.size(),
            forall|i: int|
                first_touched(offset, len) <= i < end_touched(offset, len)
                    ==> self.frame_table()[i] is Some,
        ensures
            self.access_result(pmem, offset, len) is Ok,
    {
        let lo = first_touched(offset, len);
        let hi = end_touched(offset, len);
        assert(0 <= lo <= hi <= self.page_count());
        lemma_count_none_zero(self.frame_table().subrange(lo, hi));
    }
}

/// Changes made for one owner in two steps are changes made for that owner.
pub proof fn lemma_changed_only_for_trans(
    a: &PhysMemory,
    b: &PhysMemory,
    c: &PhysMemory,
    owner: u64,
)
    requires
        a.changed_only_for(b, owner),
        b.changed_only_for(c, owner),
    ensures
        a.changed_only_for(c, owner),
{
    assert forall|f: int| 0 <= f < a.frames() implies #[trigger] c.owners()[f] == a.owners()[f] || ((
    a.owners()[f] == 0 || a.owners()[f] == owner) && (c.owners()[f] == 0 || c.owners()[f]
        == owner)) by {
        assert(b.owners()[f] == a.owners()[f] || ((a.owners()[f] == 0 || a.owners()[f] == owner)
            && (b.owners()[f] == 0 || b.owners()[f] == owner)));
    }
    assert forall|x: int|
        0 <= x < a.bytes().len() && x / 4096 < a.frames() && a.owners()[x / 4096] != 0
            && a.owners()[x / 4096] != owner implies #[trigger] c.bytes()[x] == a.bytes()[x] by {
        assert(b.owners()[x / 4096] == a.owners()[x / 4096]);
        assert(b.bytes()[x] == a.bytes()[x]);
    }
}

} // verus!
