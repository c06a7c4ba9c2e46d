//! Address regions: the tree that divides an address space into regions and
//! mappings.
use vstd::prelude::*;
use crate::error::{ZxError, ZxResult};
use crate::object::KoID;
use crate::vm::pmem::PhysMemory;
use crate::vm::vmo::VmObject;
use crate::vm::{MMUFlags, VirtAddr};

verus! {

/// Whether the ranges `a .. a + asz` and `b .. b + bsz` share no address.
pub open spec fn disjoint(a: int, asz: int, b: int, bsz: int) -> bool {
    a + asz <= b || b + bsz <= a
}

/// Whether the range `a .. a + asz` lies in `b .. b + bsz`.
pub open spec fn inside(a: int, asz: int, b: int, bsz: int) -> bool {
    b <= a && a + asz <= b + bsz
}

/// Whether the permissions `f` stay within the ceiling `c`.
pub open spec fn flags_within(f: MMUFlags, c: MMUFlags) -> bool {
    f.bits & c.bits == f.bits
}

/// One region of an address space.
#[derive(Clone, Copy)]
pub struct VmarNode {
    /// Index of the region that this one was cut from; `None` for the root.
    pub parent: Option<usize>,
    /// First address of the region.
    pub addr: VirtAddr,
    /// Length of the region in bytes.
    pub size: usize,
    /// The most that a mapping in the region may permit.
    pub flags: MMUFlags,
    /// Whether the region still exists.
    pub alive: bool,
}

/// A window that shows part of a memory object at some addresses.
#[derive(Clone, Copy)]
pub struct VmMapping {
    /// Index of the region that holds the mapping.
    pub vmar: usize,
    /// First address of the window.
    pub addr: VirtAddr,
    /// Length of the window in bytes.
    pub size: usize,
    /// Identifier of the memory object shown.
    pub vmo: KoID,
    /// Offset in the memory object of the window's first byte.
    pub vmo_offset: usize,
    /// What the mapping permits.
    pub flags: MMUFlags,
    /// Whether part of the mapping may be unmapped on its own.
    pub splittable: bool,
}

/// An address space: a root region, the regions cut from it, and their
/// mappings. Regions are known by their index; the root has index `0`.
pub struct AddressSpace {
    nodes: Vec<VmarNode>,
    maps: Vec<VmMapping>,
}

/// The greatest end of a live child of region `v` among the first `n`
/// regions that is no greater than `bound`, or `init` if that is greater.
pub open spec fn max_end_nodes(nodes: Seq<VmarNode>, v: int, bound: int, n: int, init: int) -> int
    decreases n,
{
    if n <= 0 {
        init
    } else {
        let r = max_end_nodes(nodes, v, bound, n - 1, init);
        let c = nodes[n - 1];
        if c.alive && c.parent == Some(v as usize) && c.addr + c.size <= bound && c.addr + c.size
            > r {
            c.addr + c.size
        } else {
            r
        }
    }
}

/// The greatest end of a mapping of region `v` among the first `n` mappings
/// that is no greater than `bound`, or `init` if that is greater.
pub open spec fn max_end_maps(maps: Seq<VmMapping>, v: int, bound: int, n: int, init: int) -> int
    decreases n,
{
    if n <= 0 {
        init
    } else {
        let r = max_end_maps(maps, v, bound, n - 1, init);
        let m = maps[n - 1];
        if m.vmar == v && m.addr + m.size <= bound && m.addr + m.size > r {
            m.addr + m.size
        } else {
            r
        }
    }
}

/// What [`max_end_nodes`] returns lies between `init` and `bound`, is no
/// less than any end it looked at, and is `init` or one of those ends.
pub proof fn lemma_max_end_nodes(nodes: Seq<VmarNode>, v: int, bound: int, n: int, init: int)
    requires
        0 <= n <= nodes.len(),
        init <= bound,
    ensures
        init <= max_end_nodes(nodes, v, bound, n, init) <= bound,
        forall|i: int|
            0 <= i < n && nodes[i].alive && nodes[i].parent == Some(v as usize) && nodes[i].addr
                + nodes[i].size <= bound ==> #[trigger] nodes[i].addr + nodes[i].size
                <= max_end_nodes(nodes, v, bound, n, init),
        max_end_nodes(nodes, v, bound, n, init) == init || exists|i: int|
            0 <= i < n && nodes[i].alive && nodes[i].parent == Some(v as usize)
                && #[trigger] nodes[i].addr + nodes[i].size == max_end_nodes(
                nodes,
                v,
                bound,
                n,
                init,
            ),
    decreases n,
{
    if n > 0 {
        lemma_max_end_nodes(nodes, v, bound, n - 1, init);
        let r = max_end_nodes(nodes, v, bound, n - 1, init);
        let c = nodes[n - 1];
        if !(c.alive && c.parent == Some(v as usize) && c.addr + c.size <= bound && c.addr + c.size
            > r) {
            if r != init {
                let i = choose|i: int|
                    0 <= i < n - 1 && nodes[i].alive && nodes[i].parent == Some(v as usize)
                        && #[trigger] nodes[i].addr + nodes[i].size == r;
                assert(0 <= i < n && nodes[i].addr + nodes[i].size == r);
            }
        } else {
            assert(nodes[n - 1].addr + nodes[n - 1].size == c.addr + c.size);
        }
    }
}

/// What [`max_end_maps`] returns lies between `init` and `bound`, is no
/// less than any end it looked at, and is `init` or one of those ends.
pub proof fn lemma_max_end_maps(maps: Seq<VmMapping>, v: int, bound: int, n: int, init: int)
    requires
        0 <= n <= maps.len(),
        init <= bound,
    ensures
        init <= max_end_maps(maps, v, bound, n, init) <= bound,
        forall|k: int|
            0 <= k < n && maps[k].vmar == v && maps[k].addr + maps[k].size <= bound
                ==> #[trigger] maps[k].addr + maps[k].size <= max_end_maps(
                maps,
                v,
                bound,
                n,
                init,
            ),
        max_end_maps(maps, v, bound, n, init) == init || exists|k: int|
            0 <= k < n && maps[k].vmar == v && #[trigger] maps[k].addr + maps[k].size
                == max_end_maps(maps, v, bound, n, init),
    decreases n,
{
    if n > 0 {
        lemma_max_end_maps(maps, v, bound, n - 1, init);
        let r = max_end_maps(maps, v, bound, n - 1, init);
        let m = maps[n - 1];
        if !(m.vmar == v && m.addr + m.size <= bound && m.addr + m.size > r) {
            if r != init {
                let k = choose|k: int|
                    0 <= k < n - 1 && maps[k].vmar == v && #[trigger] maps[k].addr + maps[k].size
                        == r;
                assert(0 <= k < n && maps[k].addr + maps[k].size == r);
            }
        } else {
            assert(maps[n - 1].addr + maps[n - 1].size == m.addr + m.size);
        }
    }
}

/// Whether the range `a .. a + asz` meets `b .. b + bsz` without lying in it.
pub open spec fn partial(a: int, asz: int, b: int, bsz: int) -> bool {
    !disjoint(a, asz, b, bsz) && !inside(a, asz, b, bsz)
}

/// Whether region `i` is region `c` or was cut, directly or through other
/// regions, from it.
pub open spec fn in_subtree(nodes: Seq<VmarNode>, i: int, c: int) -> bool
    decreases i,
{
    if i < 0 || i >= nodes.len() {
        false
    } else if i == c {
        true
    } else {
        match nodes[i].parent {
            Some(p) => p < i && in_subtree(nodes, p as int, c),
            None => false,
        }
    }
}

/// Whether region `i` is a live child of region `v` that lies in
/// `begin .. end`, or was cut, directly or through other regions, from one.
pub open spec fn swept(nodes: Seq<VmarNode>, i: int, v: int, begin: int, end: int) -> bool
    decreases i,
{
    if i < 0 || i >= nodes.len() {
        false
    } else {
        match nodes[i].parent {
            Some(p) => p < i && ((p == v && nodes[i].alive && inside(
                nodes[i].addr as int,
                nodes[i].size as int,
                begin,
                end - begin,
            )) || swept(nodes, p as int, v, begin, end)),
            None => false,
        }
    }
}

/// `nodes` with every region that `marks` names no longer alive.
pub open spec fn killed(nodes: Seq<VmarNode>, marks: Seq<bool>) -> Seq<VmarNode> {
    Seq::new(
        nodes.len(),
        |i: int|
            VmarNode {
                parent: nodes[i].parent,
                addr: nodes[i].addr,
                size: nodes[i].size,
                flags: nodes[i].flags,
                alive: nodes[i].alive && !marks[i],
            },
    )
}

/// The part of `m` below `begin`, if there is one.
pub open spec fn left_piece(m: VmMapping, begin: int) -> Option<VmMapping> {
    if m.addr < begin {
        Some(
            VmMapping {
                vmar: m.vmar,
                addr: m.addr,
                size: if m.addr + m.size <= begin {
                    m.size
                } else {
                    (begin - m.addr) as usize
                },
                vmo: m.vmo,
                vmo_offset: m.vmo_offset,
                flags: m.flags,
                splittable: m.splittable,
            },
        )
    } else {
        None
    }
}

/// The part of `m` from `end` on, if there is one.
pub open spec fn right_piece(m: VmMapping, end: int) -> Option<VmMapping> {
    if m.addr + m.size > end {
        if m.addr >= end {
            Some(m)
        } else {
            Some(
                VmMapping {
                    vmar: m.vmar,
                    addr: end as usize,
                    size: (m.addr + m.size - end) as usize,
                    vmo: m.vmo,
                    vmo_offset: (m.vmo_offset + (end - m.addr)) as usize,
                    flags: m.flags,
                    splittable: m.splittable,
                },
            )
        }
    } else {
        None
    }
}

/// The part of `m` in `begin .. end`, if there is one.
pub open spec fn middle_piece(m: VmMapping, begin: int, end: int) -> Option<VmMapping> {
    if m.addr < end && m.addr + m.size > begin {
        let from = if m.addr < begin {
            begin
        } else {
            m.addr as int
        };
        let to = if m.addr + m.size > end {
            end
        } else {
            m.addr + m.size
        };
        Some(
            VmMapping {
                vmar: m.vmar,
                addr: from as usize,
                size: (to - from) as usize,
                vmo: m.vmo,
                vmo_offset: (m.vmo_offset + (from - m.addr)) as usize,
                flags: m.flags,
                splittable: m.splittable,
            },
        )
    } else {
        None
    }
}

/// The sequence that holds `x` if there is one, and nothing otherwise.
pub open spec fn opt_seq(x: Option<VmMapping>) -> Seq<VmMapping> {
    match x {
        Some(m) => seq![m],
        None => Seq::empty(),
    }
}

/// What stays of mapping `m` when the regions that `marks` names go and the
/// range `begin .. end` of region `v` is cleared.
pub open spec fn kept_of(m: VmMapping, marks: Seq<bool>, v: int, begin: int, end: int) -> Seq<
    VmMapping,
> {
    if marks[m.vmar as int] {
        Seq::empty()
    } else if m.vmar != v {
        seq![m]
    } else {
        opt_seq(left_piece(m, begin)) + opt_seq(right_piece(m, end))
    }
}

/// What goes of mapping `m` in the same event.
pub open spec fn gone_of(m: VmMapping, marks: Seq<bool>, v: int, begin: int, end: int) -> Seq<
    VmMapping,
> {
    if marks[m.vmar as int] {
        seq![m]
    } else if m.vmar != v {
        Seq::empty()
    } else {
        opt_seq(middle_piece(m, begin, end))
    }
}

/// What stays of the first `n` mappings of `maps`, in their order.
pub open spec fn cut_all(
    maps: Seq<VmMapping>,
    marks: Seq<bool>,
    v: int,
    begin: int,
    end: int,
    n: int,
) -> Seq<VmMapping>
    decreases n,
{
    if n <= 0 {
        Seq::empty()
    } else {
        cut_all(maps, marks, v, begin, end, n - 1) + kept_of(maps[n - 1], marks, v, begin, end)
    }
}

/// What goes of the first `n` mappings of `maps`, in their order.
pub open spec fn gone_all(
    maps: Seq<VmMapping>,
    marks: Seq<bool>,
    v: int,
    begin: int,
    end: int,
    n: int,
) -> Seq<VmMapping>
    decreases n,
{
    if n <= 0 {
        Seq::empty()
    } else {
        gone_all(maps, marks, v, begin, end, n - 1) + gone_of(maps[n - 1], marks, v, begin, end)
    }
}

/// Whether `p` shows a part of what `m` shows, at the same addresses and
/// under the same terms, and nothing of `begin .. end` if it is in region `v`.
pub open spec fn part_of(p: VmMapping, m: VmMapping, v: int, begin: int, end: int) -> bool {
    &&& p.vmar == m.vmar
    &&& p.vmo == m.vmo
    &&& p.flags == m.flags
    &&& p.splittable == m.splittable
    &&& p.size > 0
    &&& m.addr <= p.addr
    &&& p.addr + p.size <= m.addr + m.size
    &&& p.vmo_offset == m.vmo_offset + (p.addr - m.addr)
    &&& p.addr % 4096 == 0
    &&& p.size % 4096 == 0
    &&& (m.vmar == v && begin < end ==> disjoint(p.addr as int, p.size as int, begin, end - begin))
}

/// Whether `p` is part of one of the first `n` mappings of `maps`, one of a
/// region that `marks` does not name.
pub open spec fn covered_by(
    p: VmMapping,
    maps: Seq<VmMapping>,
    marks: Seq<bool>,
    v: int,
    begin: int,
    end: int,
    n: int,
) -> bool {
    exists|k: int|
        0 <= k < n && !marks[maps[k].vmar as int] && #[trigger] part_of(p, maps[k], v, begin, end)
}

/// Whether mappings `k` and `l` belong to one region.
pub open spec fn same_region(maps: Seq<VmMapping>, k: int, l: int) -> bool {
    maps[k].vmar == maps[l].vmar
}

/// Whether mapping `k` has a sound extent.
pub open spec fn extent_ok(maps: Seq<VmMapping>, k: int) -> bool {
    &&& maps[k].size > 0
    &&& maps[k].addr + maps[k].size <= usize::MAX
    &&& maps[k].vmo_offset + maps[k].size <= usize::MAX
    &&& maps[k].addr % 4096 == 0
    &&& maps[k].size % 4096 == 0
}

/// Whether every mapping has a sound extent and the mappings of one region
/// share no address.
pub open spec fn maps_apart(maps: Seq<VmMapping>) -> bool {
    &&& forall|k: int| 0 <= k < maps.len() ==> #[trigger] extent_ok(maps, k)
    &&& forall|k: int, l: int|
        0 <= k < maps.len() && 0 <= l < maps.len() && k != l && #[trigger] same_region(maps, k, l)
            ==> disjoint(
            maps[k].addr as int,
            maps[k].size as int,
            maps[l].addr as int,
            maps[l].size as int,
        )
}

/// What [`kept_of`] keeps of a mapping is part of it, and two things that it
/// keeps share no address.
pub proof fn lemma_kept_of(m: VmMapping, marks: Seq<bool>, v: int, begin: int, end: int)
    requires
        m.size > 0,
        m.addr + m.size <= usize::MAX,
        m.vmo_offset + m.size <= usize::MAX,
        m.addr % 4096 == 0,
        m.size % 4096 == 0,
        0 <= begin <= end <= usize::MAX,
        begin % 4096 == 0,
        end % 4096 == 0,
    ensures
        kept_of(m, marks, v, begin, end).len() <= 2,
        forall|x: int|
            0 <= x < kept_of(m, marks, v, begin, end).len() ==> !marks[m.vmar as int]
                && #[trigger] part_of(kept_of(m, marks, v, begin, end)[x], m, v, begin, end),
        kept_of(m, marks, v, begin, end).len() == 2 ==> disjoint(
            kept_of(m, marks, v, begin, end)[0].addr as int,
            kept_of(m, marks, v, begin, end)[0].size as int,
            kept_of(m, marks, v, begin, end)[1].addr as int,
            kept_of(m, marks, v, begin, end)[1].size as int,
        ),
{
}

/// Every mapping that [`cut_all`] keeps is part of an earlier mapping of a
/// region that stays, and those of one region share no address.
pub proof fn lemma_cut_all(
    maps: Seq<VmMapping>,
    marks: Seq<bool>,
    v: int,
    begin: int,
    end: int,
    n: int,
)
    requires
        0 <= n <= maps.len(),
        0 <= begin <= end <= usize::MAX,
        begin % 4096 == 0,
        end % 4096 == 0,
        maps_apart(maps),
    ensures
        forall|x: int|
            0 <= x < cut_all(maps, marks, v, begin, end, n).len() ==> #[trigger] covered_by(
                cut_all(maps, marks, v, begin, end, n)[x],
                maps,
                marks,
                v,
                begin,
                end,
                n,
            ),
        forall|x: int, y: int|
            0 <= x < cut_all(maps, marks, v, begin, end, n).len() && 0 <= y < cut_all(
                maps,
                marks,
                v,
                begin,
                end,
                n,
            ).len() && x != y && #[trigger] same_region(
                cut_all(maps, marks, v, begin, end, n),
                x,
                y,
            ) ==> disjoint(
                cut_all(maps, marks, v, begin, end, n)[x].addr as int,
                cut_all(maps, marks, v, begin, end, n)[x].size as int,
                cut_all(maps, marks, v, begin, end, n)[y].addr as int,
                cut_all(maps, marks, v, begin, end, n)[y].size as int,
            ),
    decreases n,
{
    if n > 0 {
        lemma_cut_all(maps, marks, v, begin, end, n - 1);
        let before = cut_all(maps, marks, v, begin, end, n - 1);
        let m = maps[n - 1];
        let fresh = kept_of(m, marks, v, begin, end);
        let r = cut_all(maps, marks, v, begin, end, n);
        assert(r == before + fresh);
        assert(extent_ok(maps, n - 1));
        lemma_kept_of(m, marks, v, begin, end);
        assert forall|x: int| 0 <= x < r.len() implies #[trigger] covered_by(
            r[x],
            maps,
            marks,
            v,
            begin,
            end,
            n,
        ) by {
            if x < before.len() {
                assert(r[x] == before[x]);
                assert(covered_by(before[x], maps, marks, v, begin, end, n - 1));
                let k = choose|k: int|
                    0 <= k < n - 1 && !marks[maps[k].vmar as int] && #[trigger] part_of(
                        before[x],
                        maps[k],
                        v,
                        begin,
                        end,
                    );
                assert(part_of(r[x], maps[k], v, begin, end));
            } else {
                assert(r[x] == fresh[x - before.len()]);
                assert(part_of(fresh[x - before.len()], m, v, begin, end));
                assert(part_of(r[x], maps[n - 1], v, begin, end));
            }
        }
        assert forall|x: int, y: int|
            0 <= x < r.len() && 0 <= y < r.len() && x != y && #[trigger] same_region(
                r,
                x,
                y,
            ) implies disjoint(
            r[x].addr as int,
            r[x].size as int,
            r[y].addr as int,
            r[y].size as int,
        ) by {
            if x < before.len() && y < before.len() {
                assert(r[x] == before[x] && r[y] == before[y]);
                assert(same_region(before, x, y));
            } else if x < before.len() || y < before.len() {
                let (lo, hi) = if x < before.len() {
                    (x, y)
                } else {
                    (y, x)
                };
                assert(r[lo] == before[lo]);
                assert(covered_by(before[lo], maps, marks, v, begin, end, n - 1));
                let k = choose|k: int|
                    0 <= k < n - 1 && !marks[maps[k].vmar as int] && #[trigger] part_of(
                        before[lo],
                        maps[k],
                        v,
                        begin,
                        end,
                    );
                assert(r[hi] == fresh[hi - before.len()]);
                assert(part_of(fresh[hi - before.len()], m, v, begin, end));
                assert(same_region(maps, k, n - 1));
            } else {
                assert(r[x] == fresh[x - before.len()]);
                assert(r[y] == fresh[y - before.len()]);
            }
        }
    }
}

impl AddressSpace {
    /// All regions that were ever made, by index.
    pub closed spec fn nodes(&self) -> Seq<VmarNode> {
        self.nodes@
    }

    /// All mappings that exist.
    pub closed spec fn maps(&self) -> Seq<VmMapping> {
        self.maps@
    }

    /// Whether `v` is the index of a region that exists.
    pub open spec fn is_live(&self, v: int) -> bool {
        0 <= v < self.nodes().len() && self.nodes()[v].alive
    }

    /// Whether region `i` exists and was cut from region `v`.
    pub open spec fn is_child(&self, i: int, v: int) -> bool {
        0 <= i < self.nodes().len() && self.nodes()[i].alive && self.nodes()[i].parent == Some(
            v as usize,
        )
    }

    /// Whether mapping `k` belongs to region `v`.
    pub open spec fn is_map_of(&self, k: int, v: int) -> bool {
        0 <= k < self.maps().len() && self.maps()[k].vmar == v
    }

    /// Whether the range of `size` bytes at `start` lies in region `v` and
    /// meets none of its children and mappings.
    #[verifier::opaque]
    pub open spec fn range_free(&self, v: int, start: int, size: int) -> bool {
        &&& inside(start, size, self.nodes()[v].addr as int, self.nodes()[v].size as int)
        &&& forall|i: int| #[trigger]
            self.is_child(i, v) ==> disjoint(
                start,
                size,
                self.nodes()[i].addr as int,
                self.nodes()[i].size as int,
            )
        &&& forall|k: int| #[trigger]
            self.is_map_of(k, v) ==> disjoint(
                start,
                size,
                self.maps()[k].addr as int,
                self.maps()[k].size as int,
            )
    }

    /// What holds of region `i` on its own and against its parent.
    pub open spec fn node_ok(&self, i: int) -> bool {
        let n = self.nodes()[i];
        &&& n.addr % 4096 == 0
        &&& n.size % 4096 == 0
        &&& n.addr + n.size <= usize::MAX
        &&& (i == 0 <==> n.parent is None)
        &&& n.parent matches Some(p) ==> {
            &&& p < i
            &&& n.alive ==> {
                &&& self.nodes()[p as int].alive
                &&& n.size > 0
                &&& inside(
                    n.addr as int,
                    n.size as int,
                    self.nodes()[p as int].addr as int,
                    self.nodes()[p as int].size as int,
                )
                &&& flags_within(n.flags, self.nodes()[p as int].flags)
            }
        }
    }

    /// What holds of mapping `k` on its own and against its region.
    pub open spec fn map_ok(&self, k: int) -> bool {
        let m = self.maps()[k];
        &&& self.is_live(m.vmar as int)
        &&& m.addr % 4096 == 0
        &&& m.size % 4096 == 0
        &&& m.vmo_offset % 4096 == 0
        &&& m.size > 0
        &&& m.addr + m.size <= usize::MAX
        &&& m.vmo_offset + m.size <= usize::MAX
        &&& m.vmo != 0
        &&& inside(
            m.addr as int,
            m.size as int,
            self.nodes()[m.vmar as int].addr as int,
            self.nodes()[m.vmar as int].size as int,
        )
        &&& flags_within(m.flags, self.nodes()[m.vmar as int].flags)
    }

    /// The tree is sound: every live region lies in its live parent, the
    /// children and mappings of one region share no address, and every
    /// mapping lies in its live region.
    #[verifier::opaque]
    pub open spec fn wf(&self) -> bool {
        &&& self.nodes().len() >= 1
        &&& forall|i: int| 0 <= i < self.nodes().len() ==> #[trigger] self.node_ok(i)
        &&& forall|k: int| 0 <= k < self.maps().len() ==> #[trigger] self.map_ok(k)
        &&& forall|i: int, j: int, v: int|
            i != j && #[trigger] self.is_child(i, v) && #[trigger] self.is_child(j, v) ==> disjoint(
                self.nodes()[i].addr as int,
                self.nodes()[i].size as int,
                self.nodes()[j].addr as int,
                self.nodes()[j].size as int,
            )
        &&& forall|k: int, l: int, v: int|
            k != l && #[trigger] self.is_map_of(k, v) && #[trigger] self.is_map_of(l, v)
                ==> disjoint(
                self.maps()[k].addr as int,
                self.maps()[k].size as int,
                self.maps()[l].addr as int,
                self.maps()[l].size as int,
            )
        &&& forall|i: int, k: int, v: int| #[trigger]
            self.is_child(i, v) && #[trigger] self.is_map_of(k, v) ==> disjoint(
                self.nodes()[i].addr as int,
                self.nodes()[i].size as int,
                self.maps()[k].addr as int,
                self.maps()[k].size as int,
            )
    }

    /// In a sound tree every region and every mapping is sound.
    pub proof fn lemma_parts_ok(&self)
        requires
            self.wf(),
        ensures
            self.nodes().len() >= 1,
            forall|i: int| 0 <= i < self.nodes().len() ==> #[trigger] self.node_ok(i),
            forall|k: int| 0 <= k < self.maps().len() ==> #[trigger] self.map_ok(k),
    {
        reveal(AddressSpace::wf);
            reveal(AddressSpace::range_free);
    }

    /// An address space whose root region is the `size` bytes at `addr` and
    /// permits `flags` at most.
    pub fn new(addr: VirtAddr, size: usize, flags: MMUFlags) -> (space: Self)
        requires
            addr % 4096 == 0,
            size % 4096 == 0,
            addr + size <= usize::MAX,
        ensures
            space.wf(),
            space.nodes() == seq![
                VmarNode { parent: None, addr, size, flags, alive: true },
            ],
            space.maps().len() == 0,
    {
        let mut nodes: Vec<VmarNode> = Vec::new();
        nodes.push(VmarNode { parent: None, addr, size, flags, alive: true });
        let space = AddressSpace { nodes, maps: Vec::new() };
        proof {
            reveal(AddressSpace::wf);
            reveal(AddressSpace::range_free);
            assert(space.node_ok(0));
        }
        space
    }

    /// Number of regions that were ever made.
    pub fn node_count(&self) -> (n: usize)
        ensures
            n == self.nodes().len(),
    {
        self.nodes.len()
    }

    /// Number of mappings.
    pub fn mapping_count(&self) -> (n: usize)
        ensures
            n == self.maps().len(),
    {
        self.maps.len()
    }

    /// Region `v`.
    pub fn node(&self, v: usize) -> (n: VmarNode)
        requires
            v < self.nodes().len(),
        ensures
            n == self.nodes()[v as int],
    {
        self.nodes[v]
    }

    /// Mapping `k`.
    pub fn mapping(&self, k: usize) -> (m: VmMapping)
        requires
            k < self.maps().len(),
        ensures
            m == self.maps()[k as int],
    {
        self.maps[k]
    }

    /// Whether `v` is the index of a region that exists.
    pub fn live(&self, v: usize) -> (r: bool)
        ensures
            r == self.is_live(v as int),
    {
        v < self.nodes.len() && self.nodes[v].alive
    }

    /// First address of region `v`.
    pub fn addr(&self, v: usize) -> (a: VirtAddr)
        requires
            v < self.nodes().len(),
        ensures
            a == self.nodes()[v as int].addr,
    {
        self.nodes[v].addr
    }

    /// Whether region `i` exists and was cut from region `v`.
    fn child_of(&self, i: usize, v: usize) -> (r: bool)
        requires
            i < self.nodes().len(),
        ensures
            r == self.is_child(i as int, v as int),
    {
        let n = &self.nodes[i];
        match n.parent {
            Some(p) => n.alive && p == v,
            None => false,
        }
    }

    /// Whether the range of `size` bytes at `start` lies in region `v` and
    /// meets none of its children and mappings.
    pub fn check_free(&self, v: usize, start: usize, size: usize) -> (r: bool)
        requires
            self.wf(),
            v < self.nodes().len(),
        ensures
            r == self.range_free(v as int, start as int, size as int),
    {
        proof {
            reveal(AddressSpace::range_free);
        }
        let node = &self.nodes[v];
        if start < node.addr || size > node.size || start - node.addr > node.size - size {
            return false;
        }
        proof {
            reveal(AddressSpace::wf);
            reveal(AddressSpace::range_free);
        }
        proof {
            reveal(AddressSpace::wf);
            reveal(AddressSpace::range_free);
            assert(self.node_ok(v as int));
        }
        let mut i: usize = 0;
        while i < self.nodes.len()
            invariant
                i <= self.nodes.len(),
                v < self.nodes.len(),
                start + size <= usize::MAX,
                forall|j: int|
                    0 <= j < i ==> (#[trigger] self.is_child(j, v as int) ==> disjoint(
                        start as int,
                        size as int,
                        self.nodes@[j].addr as int,
                        self.nodes@[j].size as int,
                    )),
                forall|j: int| 0 <= j < self.nodes.len() ==> #[trigger] self.node_ok(j),
            decreases self.nodes.len() - i,
        {
            if self.child_of(i, v) {
                proof {
                    assert(self.node_ok(i as int));
                }
                let c = &self.nodes[i];
                if !(start + size <= c.addr || c.addr + c.size <= start) {
                    proof {
                        reveal(AddressSpace::range_free);
                        assert(self.is_child(i as int, v as int));
                    }
                    return false;
                }
            }
            i += 1;
        }
        let mut k: usize = 0;
        while k < self.maps.len()
            invariant
                k <= self.maps.len(),
                start + size <= usize::MAX,
                forall|j: int|
                    0 <= j < k ==> (#[trigger] self.is_map_of(j, v as int) ==> disjoint(
                        start as int,
                        size as int,
                        self.maps@[j].addr as int,
                        self.maps@[j].size as int,
                    )),
                forall|j: int| 0 <= j < self.maps.len() ==> #[trigger] self.map_ok(j),
            decreases self.maps.len() - k,
        {
            let m = &self.maps[k];
            if m.vmar == v {
                proof {
                    assert(self.map_ok(k as int));
                }
                if !(start + size <= m.addr || m.addr + m.size <= start) {
                    proof {
                        reveal(AddressSpace::range_free);
                        assert(self.is_map_of(k as int, v as int));
                    }
                    return false;
                }
            }
            k += 1;
        }
        true
    }

    /// The start that a search for free room in region `v` comes to when it
    /// goes down from `a`: the greatest end of a child or mapping of `v` that
    /// is no greater than `a`, or the start of `v`.
    pub open spec fn candidate_below(&self, v: int, a: int) -> int {
        max_end_maps(
            self.maps(),
            v,
            a,
            self.maps().len() as int,
            max_end_nodes(
                self.nodes(),
                v,
                a,
                self.nodes().len() as int,
                self.nodes()[v].addr as int,
            ),
        )
    }

    /// Whether `c` is the start of region `v` or the end of one of its
    /// children or mappings.
    pub open spec fn is_candidate(&self, v: int, c: int) -> bool {
        ||| c == self.nodes()[v].addr
        ||| exists|i: int| #[trigger]
            self.is_child(i, v) && c == self.nodes()[i].addr + self.nodes()[i].size
        ||| exists|k: int| #[trigger]
            self.is_map_of(k, v) && c == self.maps()[k].addr + self.maps()[k].size
    }

    /// Below every free range of a region lies a free range of the same size
    /// that starts at the region's start or where a child or mapping ends.
    pub proof fn lemma_lowest_candidate(&self, v: int, a: int, size: int)
        requires
            self.wf(),
            self.is_live(v),
            size > 0,
            self.range_free(v, a, size),
        ensures
            self.candidate_below(v, a) <= a,
            self.range_free(v, self.candidate_below(v, a), size),
            self.is_candidate(v, self.candidate_below(v, a)),
    {
        reveal(AddressSpace::wf);
            reveal(AddressSpace::range_free);
        let nodes = self.nodes();
        let maps = self.maps();
        let start = nodes[v].addr as int;
        let c1 = max_end_nodes(nodes, v, a, nodes.len() as int, start);
        let c = self.candidate_below(v, a);
        lemma_max_end_nodes(nodes, v, a, nodes.len() as int, start);
        lemma_max_end_maps(maps, v, a, maps.len() as int, c1);
        assert forall|i: int| #[trigger] self.is_child(i, v) implies disjoint(
            c,
            size,
            nodes[i].addr as int,
            nodes[i].size as int,
        ) by {
            assert(self.node_ok(i));
            if nodes[i].addr + nodes[i].size <= a {
                assert(nodes[i].addr + nodes[i].size <= c1);
            }
        }
        assert forall|k: int| #[trigger] self.is_map_of(k, v) implies disjoint(
            c,
            size,
            maps[k].addr as int,
            maps[k].size as int,
        ) by {
            assert(self.map_ok(k));
            if maps[k].addr + maps[k].size <= a {
                assert(maps[k].addr + maps[k].size <= c);
            }
        }
        if c != c1 {
            let k = choose|k: int|
                0 <= k < maps.len() && maps[k].vmar == v && #[trigger] maps[k].addr + maps[k].size
                    == c;
            assert(self.is_map_of(k, v));
        } else if c1 != start {
            let i = choose|i: int|
                0 <= i < nodes.len() && nodes[i].alive && nodes[i].parent == Some(v as usize)
                    && #[trigger] nodes[i].addr + nodes[i].size == c1;
            assert(self.is_child(i, v));
        }
    }

    /// `best`, or `c` if the range of `size` bytes at `c` is free in region
    /// `v` and `c` is lower than `best`.
    fn consider(&self, v: usize, size: usize, c: usize, best: Option<usize>) -> (r: Option<usize>)
        requires
            self.wf(),
            v < self.nodes().len(),
        ensures
            r == if self.range_free(v as int, c as int, size as int) && (best matches Some(b)
                ==> c < b) {
                Some(c)
            } else {
                best
            },
    {
        if self.check_free(v, c, size) {
            match best {
                Some(b) => if c < b {
                    Some(c)
                } else {
                    best
                },
                None => Some(c),
            }
        } else {
            best
        }
    }

    /// The lowest start of a free range of `size` bytes in region `v`, or
    /// `None` when the region has no free range of that size.
    pub fn find_lowest_free(&self, v: usize, size: usize) -> (r: Option<usize>)
        requires
            self.wf(),
            self.is_live(v as int),
            size > 0,
        ensures
            r is None <==> forall|a: int| !#[trigger] self.range_free(v as int, a, size as int),
            r matches Some(b) ==> {
                &&& b % 4096 == 0
                &&& self.range_free(v as int, b as int, size as int)
                &&& forall|a: int| #[trigger] self.range_free(v as int, a, size as int) ==> b <= a
            },
    {
        proof {
            self.lemma_parts_ok();
            assert(self.node_ok(v as int));
        }
        let mut best: Option<usize> = self.consider(v, size, self.nodes[v].addr, None);
        let mut i: usize = 0;
        while i < self.nodes.len()
            invariant
                self.wf(),
                v < self.nodes.len(),
                i <= self.nodes.len(),
                best matches Some(b) ==> b % 4096 == 0 && self.range_free(
                    v as int,
                    b as int,
                    size as int,
                ),
                self.range_free(v as int, self.nodes@[v as int].addr as int, size as int) ==> (
                best matches Some(b) && b <= self.nodes@[v as int].addr),
                forall|j: int|
                    0 <= j < i && #[trigger] self.is_child(j, v as int) && self.range_free(
                        v as int,
                        self.nodes@[j].addr + self.nodes@[j].size,
                        size as int,
                    ) ==> (best matches Some(b) && b <= self.nodes@[j].addr + self.nodes@[j].size),
            decreases self.nodes.len() - i,
        {
            if self.child_of(i, v) {
                proof {
                    self.lemma_parts_ok();
                    assert(self.node_ok(i as int));
                }
                best = self.consider(v, size, self.nodes[i].addr + self.nodes[i].size, best);
            }
            i += 1;
        }
        let mut k: usize = 0;
        while k < self.maps.len()
            invariant
                self.wf(),
                v < self.nodes.len(),
                k <= self.maps.len(),
                best matches Some(b) ==> b % 4096 == 0 && self.range_free(
                    v as int,
                    b as int,
                    size as int,
                ),
                self.range_free(v as int, self.nodes@[v as int].addr as int, size as int) ==> (
                best matches Some(b) && b <= self.nodes@[v as int].addr),
                forall|j: int| #[trigger]
                    self.is_child(j, v as int) && self.range_free(
                        v as int,
                        self.nodes@[j].addr + self.nodes@[j].size,
                        size as int,
                    ) ==> (best matches Some(b) && b <= self.nodes@[j].addr + self.nodes@[j].size),
                forall|j: int|
                    0 <= j < k && #[trigger] self.is_map_of(j, v as int) && self.range_free(
                        v as int,
                        self.maps@[j].addr + self.maps@[j].size,
                        size as int,
                    ) ==> (best matches Some(b) && b <= self.maps@[j].addr + self.maps@[j].size),
            decreases self.maps.len() - k,
        {
            if self.maps[k].vmar == v {
                proof {
                    self.lemma_parts_ok();
                    assert(self.map_ok(k as int));
                }
                best = self.consider(v, size, self.maps[k].addr + self.maps[k].size, best);
            }
            k += 1;
        }
        proof {
            assert forall|a: int| #[trigger]
                self.range_free(v as int, a, size as int) implies (best matches Some(b) && b
                <= a) by {
                self.lemma_lowest_candidate(v as int, a, size as int);
                let c = self.candidate_below(v as int, a);
                if c == self.nodes@[v as int].addr {
                } else if exists|i: int| #[trigger]
                    self.is_child(i, v as int) && c == self.nodes()[i].addr + self.nodes()[i].size {
                    let i = choose|i: int| #[trigger]
                        self.is_child(i, v as int) && c == self.nodes()[i].addr
                            + self.nodes()[i].size;
                    assert(self.is_child(i, v as int));
                } else {
                    let j = choose|j: int| #[trigger]
                        self.is_map_of(j, v as int) && c == self.maps()[j].addr
                            + self.maps()[j].size;
                    assert(self.is_map_of(j, v as int));
                }
            }
        }
        best
    }

    /// Cuts a new region of `size` bytes out of region `parent`: at `offset`
    /// bytes from the parent's start, or, with no offset given, at the lowest
    /// free place. The new region permits what its parent permits. Returns
    /// the new region's index.
    ///
    /// Fails with `BAD_STATE` when `parent` is no live region, with
    /// `INVALID_ARGS` when `size` is zero or `size` or `offset` is no
    /// multiple of the page size or the range at `offset` is not free in the
    /// parent, with `NO_MEMORY` when no offset is given and the parent has
    /// no free range of that size. A failed call changes nothing.
    pub fn create_child(&mut self, parent: usize, offset: Option<usize>, size: usize) -> (r:
        ZxResult<usize>)
        requires
            old(self).wf(),
        ensures
            final(self).wf(),
            r is Err ==> *final(self) == *old(self),
            !old(self).is_live(parent as int) ==> r == Err::<usize, ZxError>(ZxError::BAD_STATE),
            old(self).is_live(parent as int) && (size == 0 || size % 4096 != 0) ==> r == Err::<
                usize,
                ZxError,
            >(ZxError::INVALID_ARGS),
            old(self).is_live(parent as int) && size != 0 && size % 4096 == 0 ==> match offset {
                Some(o) => {
                    &&& r is Ok <==> o % 4096 == 0 && old(self).range_free(
                        parent as int,
                        old(self).nodes()[parent as int].addr + o,
                        size as int,
                    )
                    &&& r matches Err(e) ==> e == ZxError::INVALID_ARGS
                    &&& r is Ok ==> final(self).nodes().last().addr == old(self).nodes()[parent as int].addr + o
                },
                None => {
                    &&& r is Ok <==> exists|a: int| #[trigger]
                        old(self).range_free(parent as int, a, size as int)
                    &&& r matches Err(e) ==> e == ZxError::NO_MEMORY
                    &&& r is Ok ==> forall|a: int| #[trigger]
                        old(self).range_free(parent as int, a, size as int) ==> final(self).nodes().last().addr <= a
                },
            },
            r matches Ok(id) ==> {
                &&& id == old(self).nodes().len()
                &&& final(self).maps() == old(self).maps()
                &&& final(self).nodes() == old(self).nodes().push(final(self).nodes().last())
                &&& final(self).nodes().last().parent == Some(parent)
                &&& final(self).nodes().last().size == size
                &&& final(self).nodes().last().flags == old(self).nodes()[parent as int].flags
                &&& final(self).nodes().last().alive
                &&& old(self).range_free(
                    parent as int,
                    final(self).nodes().last().addr as int,
                    size as int,
                )
            },
    {
        if !self.live(parent) {
            return Err(ZxError::BAD_STATE);
        }
        if size == 0 || size % 4096 != 0 {
            return Err(ZxError::INVALID_ARGS);
        }
        proof {
            reveal(AddressSpace::wf);
            reveal(AddressSpace::range_free);
            assert(self.node_ok(parent as int));
        }
        let pnode: VmarNode = self.nodes[parent];
        let addr: usize = match offset {
            Some(o) => {
                if o % 4096 != 0 || o > pnode.size {
                    return Err(ZxError::INVALID_ARGS);
                }
                if !self.check_free(parent, pnode.addr + o, size) {
                    return Err(ZxError::INVALID_ARGS);
                }
                pnode.addr + o
            },
            None => match self.find_lowest_free(parent, size) {
                Some(a) => a,
                None => {
                    return Err(ZxError::NO_MEMORY);
                },
            },
        };
        let id: usize = self.nodes.len();
        let node = VmarNode { parent: Some(parent), addr, size, flags: pnode.flags, alive: true };
        self.nodes.push(node);
        proof {
            let before = *old(self);
            let f = pnode.flags.bits;
            assert(f & f == f) by (bit_vector);
            assert forall|i: int| 0 <= i < self.nodes().len() implies #[trigger] self.node_ok(
                i,
            ) by {
                if i < id {
                    assert(before.node_ok(i));
                }
            }
            assert forall|k: int| 0 <= k < self.maps().len() implies #[trigger] self.map_ok(k) by {
                assert(before.map_ok(k));
            }
            assert forall|i: int, j: int, v: int|
                i != j && #[trigger] self.is_child(i, v) && #[trigger] self.is_child(
                    j,
                    v,
                ) implies disjoint(
                self.nodes()[i].addr as int,
                self.nodes()[i].size as int,
                self.nodes()[j].addr as int,
                self.nodes()[j].size as int,
            ) by {
                if i < id && j < id {
                    assert(before.is_child(i, v) && before.is_child(j, v));
                } else if i < id {
                    assert(before.is_child(i, parent as int));
                } else {
                    assert(before.is_child(j, parent as int));
                }
            }
            assert forall|k: int, l: int, v: int|
                k != l && #[trigger] self.is_map_of(k, v) && #[trigger] self.is_map_of(
                    l,
                    v,
                ) implies disjoint(
                self.maps()[k].addr as int,
                self.maps()[k].size as int,
                self.maps()[l].addr as int,
                self.maps()[l].size as int,
            ) by {
                assert(before.is_map_of(k, v) && before.is_map_of(l, v));
            }
            assert forall|i: int, k: int, v: int| #[trigger]
                self.is_child(i, v) && #[trigger] self.is_map_of(k, v) implies disjoint(
                self.nodes()[i].addr as int,
                self.nodes()[i].size as int,
                self.maps()[k].addr as int,
                self.maps()[k].size as int,
            ) by {
                if i < id {
                    assert(before.is_child(i, v) && before.is_map_of(k, v));
                } else {
                    assert(before.is_map_of(k, parent as int));
                }
            }
        }
        Ok(id)
    }

    /// What [`AddressSpace::map_at`] comes to for a memory object of
    /// `vmo_size` bytes: the first address of the new mapping, or why there
    /// is none.
    pub open spec fn map_at_result(
        &self,
        vmar: int,
        vaddr_offset: int,
        vmo_size: int,
        vmo_offset: int,
        len: int,
        flags: MMUFlags,
    ) -> ZxResult<VirtAddr> {
        if !self.is_live(vmar) {
            Err(ZxError::BAD_STATE)
        } else if vaddr_offset % 4096 != 0 || vmo_offset % 4096 != 0 || len % 4096 != 0 || len
            == 0 {
            Err(ZxError::INVALID_ARGS)
        } else if vmo_offset + len > vmo_size {
            Err(ZxError::INVALID_ARGS)
        } else if !self.range_free(vmar, self.nodes()[vmar].addr + vaddr_offset, len) {
            Err(ZxError::INVALID_ARGS)
        } else if !flags_within(flags, self.nodes()[vmar].flags) {
            Err(ZxError::ACCESS_DENIED)
        } else {
            Ok((self.nodes()[vmar].addr + vaddr_offset) as usize)
        }
    }

    /// Shows the `len` bytes at `vmo_offset` of `vmo` in region `vmar`, at
    /// `vaddr_offset` bytes from the region's start, with the permissions
    /// `flags`. Returns the first address of the mapping and records the
    /// mapping with the memory object.
    ///
    /// Fails with `BAD_STATE` when `vmar` is no live region; with
    /// `INVALID_ARGS` when one of the three numbers is no multiple of the
    /// page size, `len` is zero, the bytes are not all in the memory object,
    /// or the addresses are not free in the region; with `ACCESS_DENIED`
    /// when `flags` go beyond what the region permits. A failed call changes
    /// nothing.
    pub fn map_at(
        &mut self,
        vmar: usize,
        vaddr_offset: usize,
        vmo: &mut VmObject,
        pmem: &PhysMemory,
        vmo_offset: usize,
        len: usize,
        flags: MMUFlags,
    ) -> (r: ZxResult<VirtAddr>)
        requires
            old(self).wf(),
            old(vmo).wf(pmem),
        ensures
            final(self).wf(),
            final(vmo).wf(pmem),
            r == old(self).map_at_result(
                vmar as int,
                vaddr_offset as int,
                old(vmo).size() as int,
                vmo_offset as int,
                len as int,
                flags,
            ),
            r is Err ==> *final(self) == *old(self) && *final(vmo) == *old(vmo),
            final(self).nodes() == old(self).nodes(),
            final(vmo).inner() == old(vmo).inner(),
            final(vmo).koid() == old(vmo).koid(),
            final(vmo).name_spec() == old(vmo).name_spec(),
            final(vmo).parent() == old(vmo).parent(),
            final(vmo).is_resizable() == old(vmo).is_resizable(),
            final(vmo).children_spec() == old(vmo).children_spec(),
            r matches Ok(addr) ==> {
                &&& final(self).maps() == old(self).maps().push(
                    VmMapping {
                        vmar,
                        addr,
                        size: len,
                        vmo: old(vmo).koid(),
                        vmo_offset,
                        flags,
                        splittable: old(vmo).inner() is Paged,
                    },
                )
                &&& final(vmo).mappings_spec() == old(vmo).mappings_spec().push(addr as u64)
            },
    {
        if !self.live(vmar) {
            return Err(ZxError::BAD_STATE);
        }
        if vaddr_offset % 4096 != 0 || vmo_offset % 4096 != 0 || len % 4096 != 0 || len == 0 {
            return Err(ZxError::INVALID_ARGS);
        }
        let vmo_size: usize = vmo.len(pmem);
        if vmo_offset > vmo_size || len > vmo_size - vmo_offset {
            return Err(ZxError::INVALID_ARGS);
        }
        proof {
            reveal(AddressSpace::wf);
            reveal(AddressSpace::range_free);
            assert(self.node_ok(vmar as int));
        }
        let node: VmarNode = self.nodes[vmar];
        if vaddr_offset > node.size {
            return Err(ZxError::INVALID_ARGS);
        }
        let addr: usize = node.addr + vaddr_offset;
        if !self.check_free(vmar, addr, len) {
            return Err(ZxError::INVALID_ARGS);
        }
        if flags.bits & node.flags.bits != flags.bits {
            return Err(ZxError::ACCESS_DENIED);
        }
        let mapping = VmMapping {
            vmar,
            addr,
            size: len,
            vmo: vmo.id(),
            vmo_offset,
            flags,
            splittable: vmo.is_paged(),
        };
        let id: usize = self.maps.len();
        self.maps.push(mapping);
        vmo.append_mapping(addr as u64);
        proof {
            let before = *old(self);
            assert forall|i: int| 0 <= i < self.nodes().len() implies #[trigger] self.node_ok(
                i,
            ) by {
                assert(before.node_ok(i));
            }
            assert forall|k: int| 0 <= k < self.maps().len() implies #[trigger] self.map_ok(k) by {
                if k < id {
                    assert(before.map_ok(k));
                }
            }
            assert forall|i: int, j: int, v: int|
                i != j && #[trigger] self.is_child(i, v) && #[trigger] self.is_child(
                    j,
                    v,
                ) implies disjoint(
                self.nodes()[i].addr as int,
                self.nodes()[i].size as int,
                self.nodes()[j].addr as int,
                self.nodes()[j].size as int,
            ) by {
                assert(before.is_child(i, v) && before.is_child(j, v));
            }
            assert forall|k: int, l: int, v: int|
                k != l && #[trigger] self.is_map_of(k, v) && #[trigger] self.is_map_of(
                    l,
                    v,
                ) implies disjoint(
                self.maps()[k].addr as int,
                self.maps()[k].size as int,
                self.maps()[l].addr as int,
                self.maps()[l].size as int,
            ) by {
                if k < id && l < id {
                    assert(before.is_map_of(k, v) && before.is_map_of(l, v));
                } else if k < id {
                    assert(before.is_map_of(k, vmar as int));
                } else {
                    assert(before.is_map_of(l, vmar as int));
                }
            }
            assert forall|i: int, k: int, v: int| #[trigger]
                self.is_child(i, v) && #[trigger] self.is_map_of(k, v) implies disjoint(
                self.nodes()[i].addr as int,
                self.nodes()[i].size as int,
                self.maps()[k].addr as int,
                self.maps()[k].size as int,
            ) by {
                if k < id {
                    assert(before.is_child(i, v) && before.is_map_of(k, v));
                } else {
                    assert(before.is_child(i, vmar as int));
                }
            }
        }
        Ok(addr)
    }

    /// Whether mapping `k` shows the address `vaddr`.
    pub open spec fn covers(&self, k: int, vaddr: int) -> bool {
        0 <= k < self.maps().len() && self.maps()[k].addr <= vaddr < self.maps()[k].addr
            + self.maps()[k].size
    }

    /// The first mapping that shows the address `vaddr`, if there is one.
    pub fn find_mapping(&self, vaddr: VirtAddr) -> (r: Option<usize>)
        requires
            self.wf(),
        ensures
            r is None <==> forall|k: int| !#[trigger] self.covers(k, vaddr as int),
            r matches Some(k) ==> self.covers(k as int, vaddr as int) && forall|j: int|
                0 <= j < k ==> !#[trigger] self.covers(j, vaddr as int),
    {
        let mut k: usize = 0;
        while k < self.maps.len()
            invariant
                k <= self.maps.len(),
                self.wf(),
                forall|j: int| 0 <= j < k ==> !#[trigger] self.covers(j, vaddr as int),
            decreases self.maps.len() - k,
        {
            proof {
                self.lemma_parts_ok();
                assert(self.map_ok(k as int));
            }
            let m = &self.maps[k];
            if m.addr <= vaddr && vaddr - m.addr < m.size {
                proof {
                    assert(self.covers(k as int, vaddr as int));
                }
                return Some(k);
            }
            k += 1;
        }
        None
    }

    /// For every region, whether it lies under a live child of region `v`
    /// that lies in `begin .. end`.
    fn mark_swept(&self, v: usize, begin: usize, end: usize) -> (marks: Vec<bool>)
        requires
            self.wf(),
            begin <= end,
        ensures
            marks@.len() == self.nodes().len(),
            forall|i: int|
                0 <= i < marks@.len() ==> marks@[i] == swept(
                    self.nodes(),
                    i,
                    v as int,
                    begin as int,
                    end as int,
                ),
    {
        let mut marks: Vec<bool> = Vec::new();
        let mut i: usize = 0;
        while i < self.nodes.len()
            invariant
                self.wf(),
                begin <= end,
                i <= self.nodes.len(),
                marks@.len() == i,
                forall|j: int|
                    0 <= j < i ==> marks@[j] == swept(
                        self.nodes@,
                        j,
                        v as int,
                        begin as int,
                        end as int,
                    ),
            decreases self.nodes.len() - i,
        {
            proof {
                self.lemma_parts_ok();
                assert(self.node_ok(i as int));
            }
            let node = &self.nodes[i];
            let mark: bool = match node.parent {
                Some(p) => (p == v && node.alive && begin <= node.addr && node.size <= end
                    - begin && node.addr - begin <= end - begin - node.size) || marks[p],
                None => false,
            };
            marks.push(mark);
            i += 1;
        }
        marks
    }

    /// For every region, whether it is region `v` or lies under it.
    fn mark_subtree(&self, v: usize) -> (marks: Vec<bool>)
        requires
            self.wf(),
        ensures
            marks@.len() == self.nodes().len(),
            forall|i: int|
                0 <= i < marks@.len() ==> marks@[i] == in_subtree(self.nodes(), i, v as int),
    {
        let mut marks: Vec<bool> = Vec::new();
        let mut i: usize = 0;
        while i < self.nodes.len()
            invariant
                self.wf(),
                i <= self.nodes.len(),
                marks@.len() == i,
                forall|j: int| 0 <= j < i ==> marks@[j] == in_subtree(self.nodes@, j, v as int),
            decreases self.nodes.len() - i,
        {
            proof {
                self.lemma_parts_ok();
                assert(self.node_ok(i as int));
            }
            let mark: bool = i == v || match self.nodes[i].parent {
                Some(p) => marks[p],
                None => false,
            };
            marks.push(mark);
            i += 1;
        }
        marks
    }

    /// Ends the regions that `marks` names, drops their mappings, and
    /// clears `begin .. end` of the mappings of region `v`. Returns what
    /// went of the mappings.
    fn sweep(&mut self, marks: &Vec<bool>, v: usize, begin: usize, end: usize) -> (gone: Vec<
        VmMapping,
    >)
        requires
            old(self).wf(),
            marks@.len() == old(self).nodes().len(),
            begin <= end,
            begin % 4096 == 0,
            end % 4096 == 0,
            forall|i: int|
                0 <= i < marks@.len() ==> (#[trigger] old(self).nodes()[i].parent matches Some(p)
                    ==> (marks@[p as int] ==> marks@[i])),
        ensures
            final(self).wf(),
            final(self).nodes() == killed(old(self).nodes(), marks@),
            final(self).maps() == cut_all(
                old(self).maps(),
                marks@,
                v as int,
                begin as int,
                end as int,
                old(self).maps().len() as int,
            ),
            gone@ == gone_all(
                old(self).maps(),
                marks@,
                v as int,
                begin as int,
                end as int,
                old(self).maps().len() as int,
            ),
    {
        let mut i: usize = 0;
        while i < self.nodes.len()
            invariant
                i <= self.nodes.len(),
                self.nodes.len() == marks@.len(),
                self.nodes@.len() == old(self).nodes@.len(),
                self.maps@ == old(self).maps@,
                forall|j: int|
                    0 <= j < i ==> self.nodes@[j] == killed(old(self).nodes@, marks@)[j],
                forall|j: int| i <= j < self.nodes.len() ==> self.nodes@[j] == old(self).nodes@[j],
            decreases self.nodes.len() - i,
        {
            if marks[i] {
                let mut node: VmarNode = self.nodes[i];
                node.alive = false;
                self.nodes.set(i, node);
            }
            i += 1;
        }
        proof {
            assert(self.nodes@ == killed(old(self).nodes@, marks@));
        }
        let mut kept: Vec<VmMapping> = Vec::new();
        let mut gone: Vec<VmMapping> = Vec::new();
        let mut k: usize = 0;
        while k < self.maps.len()
            invariant
                k <= self.maps.len(),
                old(self).wf(),
                self.maps@ == old(self).maps@,
                self.nodes@ == killed(old(self).nodes@, marks@),
                marks@.len() == old(self).nodes@.len(),
                begin <= end,
                kept@ == cut_all(
                    old(self).maps@,
                    marks@,
                    v as int,
                    begin as int,
                    end as int,
                    k as int,
                ),
                gone@ == gone_all(
                    old(self).maps@,
                    marks@,
                    v as int,
                    begin as int,
                    end as int,
                    k as int,
                ),
            decreases self.maps.len() - k,
        {
            proof {
                old(self).lemma_parts_ok();
                assert(old(self).map_ok(k as int));
            }
            let m: VmMapping = self.maps[k];
            let ghost kept_before = kept@;
            let ghost gone_before = gone@;
            if marks[m.vmar] {
                gone.push(m);
            } else if m.vmar != v {
                kept.push(m);
            } else {
                let m_end: usize = m.addr + m.size;
                if m.addr < begin {
                    let size: usize = if m_end <= begin {
                        m.size
                    } else {
                        begin - m.addr
                    };
                    kept.push(
                        VmMapping {
                            vmar: m.vmar,
                            addr: m.addr,
                            size,
                            vmo: m.vmo,
                            vmo_offset: m.vmo_offset,
                            flags: m.flags,
                            splittable: m.splittable,
                        },
                    );
                }
                if m_end > end {
                    if m.addr >= end {
                        kept.push(m);
                    } else {
                        kept.push(
                            VmMapping {
                                vmar: m.vmar,
                                addr: end,
                                size: m_end - end,
                                vmo: m.vmo,
                                vmo_offset: m.vmo_offset + (end - m.addr),
                                flags: m.flags,
                                splittable: m.splittable,
                            },
                        );
                    }
                }
                if m.addr < end && m_end > begin {
                    let from: usize = if m.addr < begin {
                        begin
                    } else {
                        m.addr
                    };
                    let to: usize = if m_end > end {
                        end
                    } else {
                        m_end
                    };
                    gone.push(
                        VmMapping {
                            vmar: m.vmar,
                            addr: from,
                            size: to - from,
                            vmo: m.vmo,
                            vmo_offset: m.vmo_offset + (from - m.addr),
                            flags: m.flags,
                            splittable: m.splittable,
                        },
                    );
                }
            }
            proof {
                assert(kept@ == kept_before + kept_of(
                    m,
                    marks@,
                    v as int,
                    begin as int,
                    end as int,
                ));
                assert(gone@ == gone_before + gone_of(
                    m,
                    marks@,
                    v as int,
                    begin as int,
                    end as int,
                ));
            }
            k += 1;
        }
        self.maps = kept;
        proof {
            old(self).lemma_swept_sound(self, marks@, v as int, begin as int, end as int);
        }
        gone
    }

    /// In a sound tree every mapping has a sound extent and the mappings of
    /// one region share no address.
    pub proof fn lemma_maps_apart(&self)
        requires
            self.wf(),
        ensures
            maps_apart(self.maps()),
    {
        reveal(AddressSpace::wf);
        let maps = self.maps();
        assert forall|k: int| 0 <= k < maps.len() implies #[trigger] extent_ok(maps, k) by {
            assert(self.map_ok(k));
        }
        assert forall|k: int, l: int|
            0 <= k < maps.len() && 0 <= l < maps.len() && k != l && #[trigger] same_region(
                maps,
                k,
                l,
            ) implies disjoint(
            maps[k].addr as int,
            maps[k].size as int,
            maps[l].addr as int,
            maps[l].size as int,
        ) by {
            assert(self.is_map_of(k, maps[k].vmar as int) && self.is_map_of(
                l,
                maps[k].vmar as int,
            ));
        }
    }

    /// A tree stays sound when a set of regions that holds all regions
    /// under its members goes with the mappings of those regions, and the
    /// mappings of one region are cut back to what lies outside a range.
    pub proof fn lemma_swept_sound(
        &self,
        after: &AddressSpace,
        marks: Seq<bool>,
        v: int,
        begin: int,
        end: int,
    )
        requires
            self.wf(),
            marks.len() == self.nodes().len(),
            0 <= begin <= end <= usize::MAX,
            begin % 4096 == 0,
            end % 4096 == 0,
            forall|i: int|
                0 <= i < marks.len() ==> (#[trigger] self.nodes()[i].parent matches Some(p) ==> (
                marks[p as int] ==> marks[i])),
            after.nodes() == killed(self.nodes(), marks),
            after.maps() == cut_all(self.maps(), marks, v, begin, end, self.maps().len() as int),
        ensures
            after.wf(),
    {
        reveal(AddressSpace::wf);
        let maps = self.maps();
        self.lemma_maps_apart();
        lemma_cut_all(maps, marks, v, begin, end, maps.len() as int);
        let r = after.maps();
        assert forall|i: int| 0 <= i < after.nodes().len() implies #[trigger] after.node_ok(
            i,
        ) by {
            assert(self.node_ok(i));
        }
        assert forall|x: int| 0 <= x < r.len() implies #[trigger] after.map_ok(x) by {
            assert(covered_by(r[x], maps, marks, v, begin, end, maps.len() as int));
            let k = choose|k: int|
                0 <= k < maps.len() && !marks[maps[k].vmar as int] && #[trigger] part_of(
                    r[x],
                    maps[k],
                    v,
                    begin,
                    end,
                );
            assert(self.map_ok(k));
        }
        assert forall|i: int, j: int, w: int|
            i != j && #[trigger] after.is_child(i, w) && #[trigger] after.is_child(
                j,
                w,
            ) implies disjoint(
            after.nodes()[i].addr as int,
            after.nodes()[i].size as int,
            after.nodes()[j].addr as int,
            after.nodes()[j].size as int,
        ) by {
            assert(self.is_child(i, w) && self.is_child(j, w));
        }
        assert forall|x: int, y: int, w: int|
            x != y && #[trigger] after.is_map_of(x, w) && #[trigger] after.is_map_of(
                y,
                w,
            ) implies disjoint(
            r[x].addr as int,
            r[x].size as int,
            r[y].addr as int,
            r[y].size as int,
        ) by {
            assert(same_region(r, x, y));
        }
        assert forall|i: int, x: int, w: int| #[trigger]
            after.is_child(i, w) && #[trigger] after.is_map_of(x, w) implies disjoint(
            after.nodes()[i].addr as int,
            after.nodes()[i].size as int,
            r[x].addr as int,
            r[x].size as int,
        ) by {
            assert(covered_by(r[x], maps, marks, v, begin, end, maps.len() as int));
            let k = choose|k: int|
                0 <= k < maps.len() && !marks[maps[k].vmar as int] && #[trigger] part_of(
                    r[x],
                    maps[k],
                    v,
                    begin,
                    end,
                );
            assert(self.is_child(i, w) && self.is_map_of(k, w));
        }
    }

    /// What [`AddressSpace::unmap`] comes to.
    pub open spec fn unmap_result(&self, vmar: int, vaddr_offset: int, len: int) -> ZxResult {
        let begin = self.nodes()[vmar].addr + vaddr_offset;
        if !self.is_live(vmar) {
            Err(ZxError::BAD_STATE)
        } else if vaddr_offset % 4096 != 0 || len % 4096 != 0 || len == 0 {
            Err(ZxError::INVALID_ARGS)
        } else if vaddr_offset + len > self.nodes()[vmar].size {
            Err(ZxError::INVALID_ARGS)
        } else if exists|i: int| #[trigger]
            self.is_child(i, vmar) && partial(
                self.nodes()[i].addr as int,
                self.nodes()[i].size as int,
                begin,
                len,
            ) {
            Err(ZxError::INVALID_ARGS)
        } else if exists|k: int| #[trigger]
            self.is_map_of(k, vmar) && !self.maps()[k].splittable && partial(
                self.maps()[k].addr as int,
                self.maps()[k].size as int,
                begin,
                len,
            ) {
            Err(ZxError::INVALID_ARGS)
        } else {
            Ok(())
        }
    }

    /// For every region, whether an unmap of the range `begin .. end` of
    /// region `v` ends it.
    pub open spec fn swept_marks(&self, v: int, begin: int, end: int) -> Seq<bool> {
        Seq::new(self.nodes().len(), |i: int| swept(self.nodes(), i, v, begin, end))
    }

    /// For every region, whether the destruction of region `v` ends it.
    pub open spec fn subtree_marks(&self, v: int) -> Seq<bool> {
        Seq::new(self.nodes().len(), |i: int| in_subtree(self.nodes(), i, v))
    }

    /// Clears the `len` bytes at `vaddr_offset` bytes from the start of
    /// region `vmar`: the children of the region that lie in the range end
    /// with all that is in them, and of the region's own mappings only what
    /// lies outside the range stays, a mapping that reaches over both ends
    /// as two. Returns the mappings, or parts of mappings, that went, so
    /// that the caller can take them out of the page table.
    ///
    /// Fails with `BAD_STATE` when `vmar` is no live region; with
    /// `INVALID_ARGS` when a number is no multiple of the page size, `len`
    /// is zero, the range is not all in the region, a child lies partly in
    /// the range, or a mapping that cannot be split does. A failed call
    /// changes nothing.
    pub fn unmap(&mut self, vmar: usize, vaddr_offset: usize, len: usize) -> (r: ZxResult<
        Vec<VmMapping>,
    >)
        requires
            old(self).wf(),
        ensures
            final(self).wf(),
            r is Err ==> *final(self) == *old(self),
            r matches Err(e) ==> old(self).unmap_result(
                vmar as int,
                vaddr_offset as int,
                len as int,
            ) == Err::<(), ZxError>(e),
            r matches Ok(gone) ==> {
                let begin = old(self).nodes()[vmar as int].addr + vaddr_offset;
                let marks = old(self).swept_marks(vmar as int, begin, begin + len);
                &&& old(self).unmap_result(vmar as int, vaddr_offset as int, len as int) is Ok
                &&& final(self).nodes() == killed(old(self).nodes(), marks)
                &&& final(self).maps() == cut_all(
                    old(self).maps(),
                    marks,
                    vmar as int,
                    begin,
                    begin + len,
                    old(self).maps().len() as int,
                )
                &&& gone@ == gone_all(
                    old(self).maps(),
                    marks,
                    vmar as int,
                    begin,
                    begin + len,
                    old(self).maps().len() as int,
                )
            },
    {
        if !self.live(vmar) {
            return Err(ZxError::BAD_STATE);
        }
        if vaddr_offset % 4096 != 0 || len % 4096 != 0 || len == 0 {
            return Err(ZxError::INVALID_ARGS);
        }
        proof {
            self.lemma_parts_ok();
            assert(self.node_ok(vmar as int));
        }
        let node: VmarNode = self.nodes[vmar];
        if vaddr_offset > node.size || len > node.size - vaddr_offset {
            return Err(ZxError::INVALID_ARGS);
        }
        let begin: usize = node.addr + vaddr_offset;
        let end: usize = begin + len;
        let mut i: usize = 0;
        while i < self.nodes.len()
            invariant
                self.wf(),
                *self == *old(self),
                i <= self.nodes.len(),
                begin + len == end,
                self.is_live(vmar as int),
                begin == self.nodes@[vmar as int].addr + vaddr_offset,
                vaddr_offset % 4096 == 0 && len % 4096 == 0 && len != 0,
                vaddr_offset + len <= self.nodes@[vmar as int].size,
                forall|j: int|
                    0 <= j < i ==> !(#[trigger] self.is_child(j, vmar as int) && partial(
                        self.nodes@[j].addr as int,
                        self.nodes@[j].size as int,
                        begin as int,
                        len as int,
                    )),
            decreases self.nodes.len() - i,
        {
            if self.child_of(i, vmar) {
                proof {
                    self.lemma_parts_ok();
                    assert(self.node_ok(i as int));
                }
                let c = &self.nodes[i];
                let c_end: usize = c.addr + c.size;
                let apart: bool = c_end <= begin || end <= c.addr;
                let within: bool = begin <= c.addr && c_end <= end;
                if !apart && !within {
                    proof {
                        assert(self.is_child(i as int, vmar as int));
                    }
                    return Err(ZxError::INVALID_ARGS);
                }
            }
            i += 1;
        }
        let mut k: usize = 0;
        while k < self.maps.len()
            invariant
                self.wf(),
                *self == *old(self),
                k <= self.maps.len(),
                begin + len == end,
                self.is_live(vmar as int),
                begin == self.nodes@[vmar as int].addr + vaddr_offset,
                vaddr_offset % 4096 == 0 && len % 4096 == 0 && len != 0,
                vaddr_offset + len <= self.nodes@[vmar as int].size,
                forall|j: int|
                    !(#[trigger] self.is_child(j, vmar as int) && partial(
                        self.nodes@[j].addr as int,
                        self.nodes@[j].size as int,
                        begin as int,
                        len as int,
                    )),
                forall|j: int|
                    0 <= j < k ==> !(#[trigger] self.is_map_of(j, vmar as int)
                        && !self.maps@[j].splittable && partial(
                        self.maps@[j].addr as int,
                        self.maps@[j].size as int,
                        begin as int,
                        len as int,
                    )),
            decreases self.maps.len() - k,
        {
            let m = &self.maps[k];
            if m.vmar == vmar && !m.splittable {
                proof {
                    self.lemma_parts_ok();
                    assert(self.map_ok(k as int));
                }
                let m_end: usize = m.addr + m.size;
                let apart: bool = m_end <= begin || end <= m.addr;
                let within: bool = begin <= m.addr && m_end <= end;
                if !apart && !within {
                    proof {
                        assert(self.is_map_of(k as int, vmar as int));
                    }
                    return Err(ZxError::INVALID_ARGS);
                }
            }
            k += 1;
        }
        let marks = self.mark_swept(vmar, begin, end);
        proof {
            assert(marks@ == self.swept_marks(vmar as int, begin as int, end as int));
            assert forall|i: int| 0 <= i < marks@.len() implies (
            #[trigger] self.nodes()[i].parent matches Some(p) ==> (marks@[p as int]
                ==> marks@[i])) by {
                self.lemma_parts_ok();
                assert(self.node_ok(i));
            }
        }
        Ok(self.sweep(&marks, vmar, begin, end))
    }

    /// Ends region `vmar` with every region under it and every mapping in
    /// them. Returns the mappings that went, so that the caller can take
    /// them out of the page table.
    ///
    /// Fails with `BAD_STATE`, changing nothing, when `vmar` is no live
    /// region.
    pub fn destroy(&mut self, vmar: usize) -> (r: ZxResult<Vec<VmMapping>>)
        requires
            old(self).wf(),
        ensures
            final(self).wf(),
            r is Ok <==> old(self).is_live(vmar as int),
            r matches Err(e) ==> e == ZxError::BAD_STATE && *final(self) == *old(self),
            r matches Ok(gone) ==> {
                let marks = old(self).subtree_marks(vmar as int);
                &&& final(self).nodes() == killed(old(self).nodes(), marks)
                &&& final(self).maps() == cut_all(
                    old(self).maps(),
                    marks,
                    vmar as int,
                    0,
                    0,
                    old(self).maps().len() as int,
                )
                &&& gone@ == gone_all(
                    old(self).maps(),
                    marks,
                    vmar as int,
                    0,
                    0,
                    old(self).maps().len() as int,
                )
                &&& !final(self).is_live(vmar as int)
                &&& forall|k: int|
                    0 <= k < final(self).maps().len() ==> !in_subtree(
                        old(self).nodes(),
                        (#[trigger] final(self).maps()[k]).vmar as int,
                        vmar as int,
                    )
            },
    {
        if !self.live(vmar) {
            return Err(ZxError::BAD_STATE);
        }
        let marks = self.mark_subtree(vmar);
        proof {
            assert(marks@ == self.subtree_marks(vmar as int));
            assert forall|i: int| 0 <= i < marks@.len() implies (
            #[trigger] self.nodes()[i].parent matches Some(p) ==> (marks@[p as int]
                ==> marks@[i])) by {
                self.lemma_parts_ok();
                assert(self.node_ok(i));
            }
        }
        let gone = self.sweep(&marks, vmar, 0, 0);
        proof {
            let maps = old(self).maps();
            old(self).lemma_parts_ok();
            reveal(AddressSpace::wf);
            old(self).lemma_maps_apart();
            lemma_cut_all(maps, marks@, vmar as int, 0, 0, maps.len() as int);
            assert forall|x: int| 0 <= x < self.maps().len() implies !in_subtree(
                old(self).nodes(),
                (#[trigger] self.maps()[x]).vmar as int,
                vmar as int,
            ) by {
                assert(covered_by(
                    self.maps()[x],
                    maps,
                    marks@,
                    vmar as int,
                    0,
                    0,
                    maps.len() as int,
                ));
                let k = choose|k: int|
                    0 <= k < maps.len() && !marks@[maps[k].vmar as int] && #[trigger] part_of(
                        self.maps()[x],
                        maps[k],
                        vmar as int,
                        0,
                        0,
                    );
                assert(old(self).map_ok(k));
            }
        }
        Ok(gone)
    }
}

/// Where every mapping belongs to a region that goes, no mapping stays.
pub proof fn lemma_cut_all_empty(
    maps: Seq<VmMapping>,
    marks: Seq<bool>,
    v: int,
    begin: int,
    end: int,
    n: int,
)
    requires
        0 <= n <= maps.len(),
        forall|k: int| 0 <= k < maps.len() ==> marks[(#[trigger] maps[k]).vmar as int],
    ensures
        cut_all(maps, marks, v, begin, end, n).len() == 0,
    decreases n,
{
    if n > 0 {
        lemma_cut_all_empty(maps, marks, v, begin, end, n - 1);
        assert(marks[maps[n - 1].vmar as int]);
    }
}

/// Where no live child of region `v` lies in `begin .. end`, an unmap of
/// that range ends no region.
pub proof fn lemma_none_swept(nodes: Seq<VmarNode>, i: int, v: int, begin: int, end: int)
    requires
        forall|c: int|
            0 <= c < nodes.len() && (#[trigger] nodes[c]).alive && nodes[c].parent == Some(
                v as usize,
            ) ==> !inside(nodes[c].addr as int, nodes[c].size as int, begin, end - begin),
    ensures
        !swept(nodes, i, v, begin, end),
    decreases i,
{
    if 0 <= i < nodes.len() {
        if let Some(p) = nodes[i].parent {
            if p < i {
                lemma_none_swept(nodes, p as int, v, begin, end);
            }
        }
    }
}

/// Cutting the range of a mapping that was added last out of mappings that
/// did not meet that range gives back the mappings that were there before.
pub proof fn lemma_cut_all_restores(
    maps: Seq<VmMapping>,
    m: VmMapping,
    marks: Seq<bool>,
    v: int,
    n: int,
)
    requires
        0 <= n <= maps.len(),
        m.vmar == v,
        forall|k: int|
            0 <= k < maps.len() ==> !marks[(#[trigger] maps[k]).vmar as int] && maps[k].size > 0 && (
            maps[k].vmar == v ==> disjoint(
                maps[k].addr as int,
                maps[k].size as int,
                m.addr as int,
                m.size as int,
            )),
    ensures
        cut_all(maps.push(m), marks, v, m.addr as int, m.addr + m.size, n) == maps.subrange(0, n),
        cut_all(maps.push(m), marks, v, m.addr as int, m.addr + m.size, maps.len() as int + 1) == maps,
    decreases maps.len() + 1 - n,
{
    let all = maps.push(m);
    let begin = m.addr as int;
    let end = m.addr + m.size;
    if n > 0 {
        lemma_cut_all_restores_prefix(maps, m, marks, v, n);
    } else {
        assert(cut_all(all, marks, v, begin, end, 0) == maps.subrange(0, 0));
    }
    lemma_cut_all_restores_prefix(maps, m, marks, v, maps.len() as int);
    assert(maps.subrange(0, maps.len() as int) == maps);
    assert(all[maps.len() as int] == m);
    assert(kept_of(m, marks, v, begin, end) == Seq::<VmMapping>::empty());
    assert(cut_all(all, marks, v, begin, end, maps.len() as int + 1) == cut_all(
        all,
        marks,
        v,
        begin,
        end,
        maps.len() as int,
    ) + kept_of(all[maps.len() as int], marks, v, begin, end));
}

/// The first `n` steps of [`lemma_cut_all_restores`].
pub proof fn lemma_cut_all_restores_prefix(
    maps: Seq<VmMapping>,
    m: VmMapping,
    marks: Seq<bool>,
    v: int,
    n: int,
)
    requires
        0 <= n <= maps.len(),
        m.vmar == v,
        forall|k: int|
            0 <= k < maps.len() ==> !marks[(#[trigger] maps[k]).vmar as int] && maps[k].size > 0 && (
            maps[k].vmar == v ==> disjoint(
                maps[k].addr as int,
                maps[k].size as int,
                m.addr as int,
                m.size as int,
            )),
    ensures
        cut_all(maps.push(m), marks, v, m.addr as int, m.addr + m.size, n) == maps.subrange(0, n),
    decreases n,
{
    let all = maps.push(m);
    let begin = m.addr as int;
    let end = m.addr + m.size;
    if n > 0 {
        lemma_cut_all_restores_prefix(maps, m, marks, v, n - 1);
        let x = maps[n - 1];
        assert(all[n - 1] == x);
        assert(kept_of(x, marks, v, begin, end) == seq![x]);
        assert(maps.subrange(0, n) == maps.subrange(0, n - 1) + seq![x]);
    } else {
        assert(cut_all(all, marks, v, begin, end, 0) == maps.subrange(0, 0));
    }
}

impl AddressSpace {
    /// The children of a region share no address and lie wholly in it.
    pub proof fn lemma_children_disjoint_inside(&self, v: int, i: int, j: int)
        requires
            self.wf(),
            0 <= v <= usize::MAX,
            self.is_child(i, v),
            self.is_child(j, v),
            i != j,
        ensures
            disjoint(
                self.nodes()[i].addr as int,
                self.nodes()[i].size as int,
                self.nodes()[j].addr as int,
                self.nodes()[j].size as int,
            ),
            self.is_live(v),
            inside(
                self.nodes()[i].addr as int,
                self.nodes()[i].size as int,
                self.nodes()[v].addr as int,
                self.nodes()[v].size as int,
            ),
    {
        reveal(AddressSpace::wf);
        assert(self.node_ok(i));
    }

    /// A mapping shares no address with another mapping or a child of its
    /// region, and lies wholly in its region, which is alive.
    pub proof fn lemma_mapping_inside_region(&self, k: int)
        requires
            self.wf(),
            0 <= k < self.maps().len(),
        ensures
            self.is_live(self.maps()[k].vmar as int),
            inside(
                self.maps()[k].addr as int,
                self.maps()[k].size as int,
                self.nodes()[self.maps()[k].vmar as int].addr as int,
                self.nodes()[self.maps()[k].vmar as int].size as int,
            ),
            forall|l: int|
                0 <= l < self.maps().len() && l != k && self.maps()[l].vmar == self.maps()[k].vmar
                    ==> disjoint(
                    self.maps()[k].addr as int,
                    self.maps()[k].size as int,
                    (#[trigger] self.maps()[l]).addr as int,
                    self.maps()[l].size as int,
                ),
            forall|i: int| #[trigger]
                self.is_child(i, self.maps()[k].vmar as int) ==> disjoint(
                    self.maps()[k].addr as int,
                    self.maps()[k].size as int,
                    self.nodes()[i].addr as int,
                    self.nodes()[i].size as int,
                ),
    {
        reveal(AddressSpace::wf);
        assert(self.map_ok(k));
        let v = self.maps()[k].vmar as int;
        assert(self.is_map_of(k, v));
        assert forall|l: int|
            0 <= l < self.maps().len() && l != k && self.maps()[l].vmar
                == self.maps()[k].vmar implies disjoint(
            self.maps()[k].addr as int,
            self.maps()[k].size as int,
            (#[trigger] self.maps()[l]).addr as int,
            self.maps()[l].size as int,
        ) by {
            assert(self.is_map_of(l, v));
        }
    }

    /// A mapping that `map_at` makes lies wholly in its region and shows
    /// only bytes that the memory object has.
    pub proof fn lemma_map_at_within(
        &self,
        vmar: int,
        vaddr_offset: int,
        vmo_size: int,
        vmo_offset: int,
        len: int,
        flags: MMUFlags,
    )
        requires
            self.wf(),
            0 <= vaddr_offset,
            0 <= vmo_offset,
            0 <= len,
            self.map_at_result(vmar, vaddr_offset, vmo_size, vmo_offset, len, flags) is Ok,
        ensures
            inside(
                self.nodes()[vmar].addr + vaddr_offset,
                len,
                self.nodes()[vmar].addr as int,
                self.nodes()[vmar].size as int,
            ),
            vmo_offset + len <= vmo_size,
            self.map_at_result(vmar, vaddr_offset, vmo_size, vmo_offset, len, flags)
                == Ok::<VirtAddr, ZxError>((self.nodes()[vmar].addr + vaddr_offset) as usize),
    {
        reveal(AddressSpace::range_free);
    }

    /// `map_at` on a live region refuses an offset or a length that is no
    /// multiple of the page size with `INVALID_ARGS`.
    pub proof fn lemma_map_at_unaligned(
        &self,
        vmar: int,
        vaddr_offset: int,
        vmo_size: int,
        vmo_offset: int,
        len: int,
        flags: MMUFlags,
    )
        requires
            self.is_live(vmar),
            vaddr_offset % 4096 != 0 || vmo_offset % 4096 != 0 || len % 4096 != 0,
        ensures
            self.map_at_result(vmar, vaddr_offset, vmo_size, vmo_offset, len, flags) == Err::<
                VirtAddr,
                ZxError,
            >(ZxError::INVALID_ARGS),
    {
    }

    /// After a range is mapped, unmapping the same range cannot fail.
    pub proof fn lemma_unmap_after_map(
        &self,
        mid: &AddressSpace,
        vmar: int,
        vaddr_offset: int,
        vmo_size: int,
        m: VmMapping,
    )
        requires
            self.wf(),
            0 <= vaddr_offset,
            self.map_at_result(
                vmar,
                vaddr_offset,
                vmo_size,
                m.vmo_offset as int,
                m.size as int,
                m.flags,
            ) == Ok::<VirtAddr, ZxError>(m.addr),
            m.vmar == vmar,
            mid.nodes() == self.nodes(),
            mid.maps() == self.maps().push(m),
        ensures
            mid.unmap_result(vmar, vaddr_offset, m.size as int) is Ok,
    {
        reveal(AddressSpace::wf);
        reveal(AddressSpace::range_free);
        let maps = self.maps();
        let begin = m.addr as int;
        assert(self.node_ok(vmar));
        assert forall|i: int| #[trigger] mid.is_child(i, vmar) implies !partial(
            mid.nodes()[i].addr as int,
            mid.nodes()[i].size as int,
            begin,
            m.size as int,
        ) by {
            assert(self.is_child(i, vmar));
        }
        assert forall|k: int| #[trigger] mid.is_map_of(k, vmar) implies !partial(
            mid.maps()[k].addr as int,
            mid.maps()[k].size as int,
            begin,
            m.size as int,
        ) by {
            if k < maps.len() {
                assert(self.is_map_of(k, vmar));
            }
        }
    }

    /// Mapping a range and then unmapping the same range leaves the regions
    /// and the mappings as they were. That the unmap is done, and does not
    /// fail, is [`AddressSpace::lemma_unmap_after_map`].
    pub proof fn lemma_map_then_unmap(
        &self,
        mid: &AddressSpace,
        after: &AddressSpace,
        vmar: int,
        vaddr_offset: int,
        vmo_size: int,
        m: VmMapping,
    )
        requires
            self.wf(),
            0 <= vaddr_offset,
            self.map_at_result(
                vmar,
                vaddr_offset,
                vmo_size,
                m.vmo_offset as int,
                m.size as int,
                m.flags,
            ) == Ok::<VirtAddr, ZxError>(m.addr),
            m.vmar == vmar,
            mid.nodes() == self.nodes(),
            mid.maps() == self.maps().push(m),
            after.nodes() == killed(
                mid.nodes(),
                mid.swept_marks(vmar, m.addr as int, m.addr + m.size),
            ),
            after.maps() == cut_all(
                mid.maps(),
                mid.swept_marks(vmar, m.addr as int, m.addr + m.size),
                vmar,
                m.addr as int,
                m.addr + m.size,
                mid.maps().len() as int,
            ),
        ensures
            after.nodes() == self.nodes(),
            after.maps() == self.maps(),
    {
        reveal(AddressSpace::wf);
        reveal(AddressSpace::range_free);
        let nodes = self.nodes();
        let maps = self.maps();
        let begin = m.addr as int;
        let end = m.addr + m.size;
        let marks = mid.swept_marks(vmar, begin, end);
        assert(self.node_ok(vmar));
        assert forall|c: int|
            0 <= c < nodes.len() && (#[trigger] nodes[c]).alive && nodes[c].parent == Some(
                vmar as usize,
            ) implies !inside(nodes[c].addr as int, nodes[c].size as int, begin, end - begin) by {
            assert(self.is_child(c, vmar));
            assert(self.node_ok(c));
        }
        assert forall|i: int| 0 <= i < nodes.len() implies !marks[i] by {
            lemma_none_swept(nodes, i, vmar, begin, end);
        }
        assert(after.nodes() =~= nodes);
        assert forall|k: int| 0 <= k < maps.len() implies !marks[(#[trigger] maps[k]).vmar as int]
            && maps[k].size > 0 && (maps[k].vmar == vmar ==> disjoint(
            maps[k].addr as int,
            maps[k].size as int,
            m.addr as int,
            m.size as int,
        )) by {
            assert(self.map_ok(k));
            if maps[k].vmar == vmar {
                assert(self.is_map_of(k, vmar));
            }
        }
        lemma_cut_all_restores(maps, m, marks, vmar, 0);
    }
}

} // verus!
