use zcore::error::ZxError;
use zcore::vm::pmem::PhysMemory;
use zcore::vm::vmar::AddressSpace;
use zcore::vm::vmo::VmObject;
use zcore::vm::{MMUFlags, PAGE_SIZE};

const BASE: usize = 0x10_0000;
const SIZE: usize = 0x10_0000;

fn space() -> AddressSpace {
    AddressSpace::new(BASE, SIZE, MMUFlags::from_bits(MMUFlags::READ | MMUFlags::WRITE))
}

fn rw() -> MMUFlags {
    MMUFlags::from_bits(MMUFlags::READ | MMUFlags::WRITE)
}

#[test]
fn children_take_the_lowest_free_place() {
    let mut s = space();
    let a = s.create_child(0, None, 0x3000).unwrap();
    let b = s.create_child(0, None, 0x1000).unwrap();
    assert_eq!((a, b), (1, 2));
    assert_eq!(s.addr(a), BASE);
    assert_eq!(s.addr(b), BASE + 0x3000);
    let c = s.create_child(0, Some(0x8000), 0x2000).unwrap();
    assert_eq!(s.addr(c), BASE + 0x8000);
    let d = s.create_child(0, None, 0x4000).unwrap();
    assert_eq!(s.addr(d), BASE + 0x4000);
    let e = s.create_child(0, None, 0x1000).unwrap();
    assert_eq!(s.addr(e), BASE + 0xa000);
    let inner = s.create_child(a, None, 0x1000).unwrap();
    assert_eq!(s.addr(inner), BASE);
    assert_eq!(s.node(inner).parent, Some(a));
    assert_eq!(s.node(inner).flags, s.node(0).flags);
    assert_eq!(s.node_count(), 7);
}

#[test]
fn children_are_disjoint_and_inside() {
    let mut s = space();
    for size in [0x2000usize, 0x1000, 0x5000, 0x3000] {
        s.create_child(0, None, size).unwrap();
    }
    s.create_child(0, Some(0x20000), 0x1000).unwrap();
    for i in 1..s.node_count() {
        let a = s.node(i);
        assert!(BASE <= a.addr && a.addr + a.size <= BASE + SIZE);
        for j in 1..i {
            let b = s.node(j);
            assert!(a.addr + a.size <= b.addr || b.addr + b.size <= a.addr);
        }
    }
}

#[test]
fn create_child_refuses_bad_requests() {
    let mut s = space();
    assert_eq!(s.create_child(0, None, 0), Err(ZxError::INVALID_ARGS));
    assert_eq!(s.create_child(0, None, 0x1001), Err(ZxError::INVALID_ARGS));
    assert_eq!(s.create_child(0, Some(0x10), 0x1000), Err(ZxError::INVALID_ARGS));
    assert_eq!(s.create_child(0, Some(SIZE), 0x1000), Err(ZxError::INVALID_ARGS));
    assert_eq!(s.create_child(7, None, 0x1000), Err(ZxError::BAD_STATE));
    assert_eq!(s.create_child(0, None, SIZE + 0x1000), Err(ZxError::NO_MEMORY));
    let all = s.create_child(0, None, SIZE).unwrap();
    assert_eq!(s.create_child(0, None, 0x1000), Err(ZxError::NO_MEMORY));
    assert_eq!(s.create_child(0, Some(0), 0x1000), Err(ZxError::INVALID_ARGS));
    assert_eq!(s.create_child(all, None, 0x1000), Ok(2));
    assert_eq!(s.node_count(), 3);
}

#[test]
fn map_at_registers_a_mapping() {
    let mut pmem = PhysMemory::new(8);
    let mut vmo = VmObject::new_paged(9, 4);
    let mut s = space();
    let addr = s.map_at(0, 0x2000, &mut vmo, &pmem, PAGE_SIZE, 2 * PAGE_SIZE, rw()).unwrap();
    assert_eq!(addr, BASE + 0x2000);
    assert_eq!(s.mapping_count(), 1);
    let m = s.mapping(0);
    assert_eq!((m.vmar, m.addr, m.size, m.vmo, m.vmo_offset), (0, addr, 2 * PAGE_SIZE, 9, PAGE_SIZE));
    assert_eq!(m.flags, rw());
    assert!(m.splittable);
    assert_eq!(vmo.num_mappings(), 1);
    assert_eq!(s.find_mapping(addr + 0x1fff), Some(0));
    assert_eq!(s.find_mapping(addr + 0x2000), None);
    assert_eq!(s.find_mapping(addr - 1), None);
    assert!(m.addr >= BASE && m.addr + m.size <= BASE + SIZE);
    assert!(m.vmo_offset + m.size <= vmo.len(&pmem));
    let _ = &mut pmem;
}

#[test]
fn map_at_refuses_unaligned_arguments() {
    let pmem = PhysMemory::new(8);
    let mut vmo = VmObject::new_paged(9, 4);
    let mut s = space();
    assert_eq!(s.map_at(0, 0x2001, &mut vmo, &pmem, 0, PAGE_SIZE, rw()), Err(ZxError::INVALID_ARGS));
    assert_eq!(s.map_at(0, 0x2000, &mut vmo, &pmem, 8, PAGE_SIZE, rw()), Err(ZxError::INVALID_ARGS));
    assert_eq!(s.map_at(0, 0x2000, &mut vmo, &pmem, 0, PAGE_SIZE + 1, rw()), Err(ZxError::INVALID_ARGS));
    assert_eq!(s.map_at(0, 0x2000, &mut vmo, &pmem, 0, 0, rw()), Err(ZxError::INVALID_ARGS));
    assert_eq!(s.mapping_count(), 0);
    assert_eq!(vmo.num_mappings(), 0);
}

#[test]
fn map_at_refuses_overlap_and_excess() {
    let pmem = PhysMemory::new(8);
    let mut vmo = VmObject::new_paged(9, 4);
    let mut s = space();
    let child = s.create_child(0, Some(0x4000), 0x2000).unwrap();
    s.map_at(0, 0, &mut vmo, &pmem, 0, 2 * PAGE_SIZE, rw()).unwrap();
    assert_eq!(s.map_at(0, 0x1000, &mut vmo, &pmem, 0, PAGE_SIZE, rw()), Err(ZxError::INVALID_ARGS));
    assert_eq!(s.map_at(0, 0x3000, &mut vmo, &pmem, 0, 2 * PAGE_SIZE, rw()), Err(ZxError::INVALID_ARGS));
    assert_eq!(s.map_at(0, SIZE - 0x1000, &mut vmo, &pmem, 0, 2 * PAGE_SIZE, rw()), Err(ZxError::INVALID_ARGS));
    assert_eq!(s.map_at(0, 0x8000, &mut vmo, &pmem, 3 * PAGE_SIZE, 2 * PAGE_SIZE, rw()), Err(ZxError::INVALID_ARGS));
    assert_eq!(
        s.map_at(0, 0x8000, &mut vmo, &pmem, 0, PAGE_SIZE, MMUFlags::from_bits(MMUFlags::EXECUTE)),
        Err(ZxError::ACCESS_DENIED)
    );
    assert_eq!(s.map_at(9, 0, &mut vmo, &pmem, 0, PAGE_SIZE, rw()), Err(ZxError::BAD_STATE));
    assert_eq!(s.map_at(child, 0, &mut vmo, &pmem, 0, 2 * PAGE_SIZE, rw()), Ok(BASE + 0x4000));
    assert_eq!(s.map_at(0, 0x2000, &mut vmo, &pmem, 0, 2 * PAGE_SIZE, rw()), Ok(BASE + 0x2000));
    assert_eq!(s.mapping_count(), 3);
}

#[test]
fn unmap_after_map_restores_the_region() {
    let pmem = PhysMemory::new(8);
    let mut vmo = VmObject::new_paged(9, 4);
    let mut other = VmObject::new_paged(10, 1);
    let mut s = space();
    s.create_child(0, Some(0x10000), 0x2000).unwrap();
    s.map_at(0, 0, &mut other, &pmem, 0, PAGE_SIZE, rw()).unwrap();
    s.map_at(0, 0x6000, &mut other, &pmem, 0, PAGE_SIZE, rw()).unwrap();
    let nodes: Vec<_> = (0..s.node_count()).map(|i| s.node(i)).collect();
    let maps: Vec<_> = (0..s.mapping_count()).map(|k| s.mapping(k)).collect();
    s.map_at(0, 0x2000, &mut vmo, &pmem, 0, 3 * PAGE_SIZE, rw()).unwrap();
    let gone = s.unmap(0, 0x2000, 3 * PAGE_SIZE).unwrap();
    assert_eq!(gone.len(), 1);
    assert_eq!((gone[0].addr, gone[0].size, gone[0].vmo), (BASE + 0x2000, 3 * PAGE_SIZE, 9));
    assert_eq!(s.node_count(), nodes.len());
    assert_eq!(s.mapping_count(), maps.len());
    for (i, n) in nodes.iter().enumerate() {
        let m = s.node(i);
        assert_eq!((m.parent, m.addr, m.size, m.flags, m.alive), (n.parent, n.addr, n.size, n.flags, n.alive));
    }
    for (k, n) in maps.iter().enumerate() {
        let m = s.mapping(k);
        assert_eq!((m.vmar, m.addr, m.size, m.vmo, m.vmo_offset), (n.vmar, n.addr, n.size, n.vmo, n.vmo_offset));
    }
}

#[test]
fn unmap_splits_a_mapping() {
    let pmem = PhysMemory::new(8);
    let mut vmo = VmObject::new_paged(9, 8);
    let mut s = space();
    s.map_at(0, 0x1000, &mut vmo, &pmem, PAGE_SIZE, 6 * PAGE_SIZE, rw()).unwrap();
    let gone = s.unmap(0, 0x3000, 2 * PAGE_SIZE).unwrap();
    assert_eq!(gone.len(), 1);
    assert_eq!((gone[0].addr, gone[0].size, gone[0].vmo_offset), (BASE + 0x3000, 0x2000, 3 * PAGE_SIZE));
    assert_eq!(s.mapping_count(), 2);
    let (l, r) = (s.mapping(0), s.mapping(1));
    assert_eq!((l.addr, l.size, l.vmo_offset), (BASE + 0x1000, 0x2000, PAGE_SIZE));
    assert_eq!((r.addr, r.size, r.vmo_offset), (BASE + 0x5000, 0x2000, 5 * PAGE_SIZE));
    let gone = s.unmap(0, 0, 0x2000).unwrap();
    assert_eq!((gone[0].addr, gone[0].size), (BASE + 0x1000, 0x1000));
    assert_eq!((s.mapping(0).addr, s.mapping(0).size, s.mapping(0).vmo_offset), (BASE + 0x2000, 0x1000, 2 * PAGE_SIZE));
    assert_eq!(s.unmap(0, 0x10000, 0x1000).unwrap().len(), 0);
}

#[test]
fn unmap_refuses_what_cannot_be_split() {
    let mut pmem = PhysMemory::new(8);
    let mut phys = VmObject::new_physical(&mut pmem, 9, 0, 4).unwrap();
    let mut s = space();
    s.map_at(0, 0x1000, &mut phys, &pmem, 0, 4 * PAGE_SIZE, rw()).unwrap();
    let child = s.create_child(0, Some(0x8000), 0x4000).unwrap();
    assert_eq!(s.unmap(0, 0x2000, 0x1000).err(), Some(ZxError::INVALID_ARGS));
    assert_eq!(s.unmap(0, 0x6000, 0x3000).err(), Some(ZxError::INVALID_ARGS));
    assert_eq!(s.unmap(0, 0x1001, 0x1000).err(), Some(ZxError::INVALID_ARGS));
    assert_eq!(s.unmap(0, 0x1000, 0).err(), Some(ZxError::INVALID_ARGS));
    assert_eq!(s.unmap(0, SIZE, 0x1000).err(), Some(ZxError::INVALID_ARGS));
    assert_eq!(s.unmap(5, 0, 0x1000).err(), Some(ZxError::BAD_STATE));
    assert_eq!(s.mapping_count(), 1);
    assert!(s.live(child));
    let gone = s.unmap(0, 0, 0x10000).unwrap();
    assert_eq!(gone.len(), 1);
    assert_eq!(s.mapping_count(), 0);
    assert!(!s.live(child));
}

#[test]
fn destroy_ends_the_whole_subtree() {
    let pmem = PhysMemory::new(8);
    let mut vmo = VmObject::new_paged(9, 8);
    let mut s = space();
    let a = s.create_child(0, None, 0x4000).unwrap();
    let b = s.create_child(a, None, 0x2000).unwrap();
    let c = s.create_child(0, None, 0x1000).unwrap();
    s.map_at(a, 0x2000, &mut vmo, &pmem, 0, PAGE_SIZE, rw()).unwrap();
    s.map_at(b, 0, &mut vmo, &pmem, 0, PAGE_SIZE, rw()).unwrap();
    s.map_at(c, 0, &mut vmo, &pmem, 0, PAGE_SIZE, rw()).unwrap();
    s.map_at(0, 0x8000, &mut vmo, &pmem, 0, PAGE_SIZE, rw()).unwrap();
    let gone = s.destroy(a).unwrap();
    assert_eq!(gone.len(), 2);
    assert!(!s.live(a) && !s.live(b) && s.live(c) && s.live(0));
    assert_eq!(s.mapping_count(), 2);
    assert_eq!(s.mapping(0).vmar, c);
    assert_eq!(s.mapping(1).vmar, 0);
    assert_eq!(s.destroy(a).err(), Some(ZxError::BAD_STATE));
    assert_eq!(s.create_child(a, None, 0x1000), Err(ZxError::BAD_STATE));
    assert_eq!(s.create_child(0, None, 0x4000), Ok(4));
    assert_eq!(s.addr(4), BASE);
    assert!(s.check_free(0, BASE + 0x9000, 0x1000));
    assert!(!s.check_free(0, BASE + 0x8000, 0x1000));
    assert_eq!(s.find_lowest_free(0, 0x1000), Some(BASE + 0x5000));
}
