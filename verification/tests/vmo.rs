use zcore::error::ZxError;
use zcore::vm::pmem::PhysMemory;
use zcore::vm::vmo::paged::VMObjectPaged;
use zcore::vm::vmo::physical::VMObjectPhysical;
use zcore::vm::vmo::{VMObjectTrait, VmObject, VmoInfoFlags};
use zcore::vm::PAGE_SIZE;

#[test]
fn read_write() {
    let mut pmem = PhysMemory::new(8);
    let mut vmo = VmObject::new_physical(&mut pmem, 1, 0x1000, 2).unwrap();
    vmo.write(&mut pmem, 0, &[0, 1, 2, 3]).unwrap();
    let buf = vmo.read(&mut pmem, 0, 4).unwrap();
    assert_eq!(&buf, &[0, 1, 2, 3]);
}

#[test]
fn paged_round_trip_commits_one_page() {
    let mut pmem = PhysMemory::new(8);
    let mut vmo = VmObject::new_paged(5, 2);
    assert_eq!(vmo.len(&pmem), 2 * PAGE_SIZE);
    assert_eq!(vmo.committed_bytes(&pmem), 0);
    vmo.write(&mut pmem, 0, &[0, 1, 2, 3]).unwrap();
    assert_eq!(vmo.read(&mut pmem, 0, 4).unwrap(), vec![0, 1, 2, 3]);
    assert_eq!(vmo.committed_bytes(&pmem), PAGE_SIZE);
    assert_eq!(pmem.count_free_frames(), 7);
}

#[test]
fn write_across_a_page_boundary() {
    let mut pmem = PhysMemory::new(8);
    let mut vmo = VmObject::new_paged(5, 3);
    let data: Vec<u8> = (0..=255u8).collect();
    vmo.write(&mut pmem, PAGE_SIZE - 100, &data).unwrap();
    assert_eq!(vmo.read(&mut pmem, PAGE_SIZE - 100, 256).unwrap(), data);
    assert_eq!(vmo.committed_bytes(&pmem), 2 * PAGE_SIZE);
    assert_eq!(vmo.read(&mut pmem, PAGE_SIZE - 101, 1).unwrap(), vec![0]);
    assert_eq!(vmo.read(&mut pmem, PAGE_SIZE + 156, 1).unwrap(), vec![0]);
}

#[test]
fn child_keeps_what_the_parent_held() {
    let mut pmem = PhysMemory::new(8);
    let mut parent = VmObject::new_paged(5, 2);
    parent.set_name(b"parent");
    parent.write(&mut pmem, 16, &[0xAB]).unwrap();
    let mut child = parent.create_child(&mut pmem, 6, false, 0, PAGE_SIZE).unwrap();
    assert_eq!(child.read(&mut pmem, 16, 1).unwrap(), vec![0xAB]);
    parent.write(&mut pmem, 16, &[0xCD]).unwrap();
    assert_eq!(child.read(&mut pmem, 16, 1).unwrap(), vec![0xAB]);
    assert_eq!(parent.read(&mut pmem, 16, 1).unwrap(), vec![0xCD]);
    child.write(&mut pmem, 17, &[0xEF]).unwrap();
    assert_eq!(parent.read(&mut pmem, 17, 1).unwrap(), vec![0]);
    assert_eq!(parent.num_children(), 1);
    assert_eq!(child.name().as_slice(), b"parent");
    assert_eq!(child.len(&pmem), PAGE_SIZE);
    let info = child.get_info(&pmem);
    assert_eq!(info.parent_koid, 5);
    assert_eq!(info.koid, 6);
}

#[test]
fn child_needs_aligned_range_inside_parent() {
    let mut pmem = PhysMemory::new(8);
    let mut parent = VmObject::new_paged(5, 2);
    assert_eq!(parent.create_child(&mut pmem, 6, false, 1, PAGE_SIZE).err(), Some(ZxError::INVALID_ARGS));
    assert_eq!(parent.create_child(&mut pmem, 6, false, 0, 100).err(), Some(ZxError::INVALID_ARGS));
    assert_eq!(
        parent.create_child(&mut pmem, 6, false, PAGE_SIZE, 2 * PAGE_SIZE).err(),
        Some(ZxError::INVALID_ARGS)
    );
    assert_eq!(parent.num_children(), 0);
}

#[test]
fn child_fails_without_memory() {
    let mut pmem = PhysMemory::new(1);
    let mut parent = VmObject::new_paged(5, 1);
    parent.write(&mut pmem, 0, &[1]).unwrap();
    assert_eq!(parent.create_child(&mut pmem, 6, false, 0, PAGE_SIZE).err(), Some(ZxError::NO_MEMORY));
    assert_eq!(parent.num_children(), 0);
}

#[test]
fn access_at_the_end_and_past_it() {
    let mut pmem = PhysMemory::new(8);
    let mut vmo = VmObject::new_paged(5, 2);
    let len = vmo.len(&pmem);
    assert_eq!(vmo.write(&mut pmem, len - 4, &[1, 2, 3, 4]), Ok(()));
    assert_eq!(vmo.read(&mut pmem, len - 4, 4), Ok(vec![1, 2, 3, 4]));
    assert_eq!(vmo.write(&mut pmem, len - 3, &[1, 2, 3, 4]), Err(ZxError::INVALID_ARGS));
    assert_eq!(vmo.read(&mut pmem, len - 3, 4), Err(ZxError::INVALID_ARGS));
    assert_eq!(vmo.read(&mut pmem, usize::MAX, 2), Err(ZxError::INVALID_ARGS));
    assert_eq!(vmo.read(&mut pmem, len, 0), Ok(vec![]));
    let mut phys = VmObject::new_physical(&mut pmem, 9, 4 * PAGE_SIZE, 1).unwrap();
    assert_eq!(phys.write(&mut pmem, PAGE_SIZE - 1, &[7]), Ok(()));
    assert_eq!(phys.write(&mut pmem, PAGE_SIZE, &[7]), Err(ZxError::INVALID_ARGS));
}

#[test]
fn write_fails_without_memory_and_changes_nothing() {
    let mut pmem = PhysMemory::new(1);
    let mut vmo = VmObject::new_paged(5, 2);
    assert_eq!(vmo.write(&mut pmem, PAGE_SIZE - 1, &[1, 2]), Err(ZxError::NO_MEMORY));
    assert_eq!(vmo.committed_bytes(&pmem), 0);
    assert_eq!(pmem.count_free_frames(), 1);
    assert_eq!(vmo.write(&mut pmem, 0, &[1, 2]), Ok(()));
    assert_eq!(vmo.read(&mut pmem, PAGE_SIZE, 1), Err(ZxError::NO_MEMORY));
}

#[test]
fn commit_then_decommit_reads_zero() {
    let mut pmem = PhysMemory::new(8);
    let mut vmo = VmObject::new_paged(5, 2);
    vmo.write(&mut pmem, 10, &[9, 9, 9]).unwrap();
    assert_eq!(vmo.commit(&mut pmem, 0, 2 * PAGE_SIZE), Ok(()));
    assert_eq!(vmo.committed_bytes(&pmem), 2 * PAGE_SIZE);
    assert_eq!(vmo.read(&mut pmem, 10, 3), Ok(vec![9, 9, 9]));
    assert_eq!(vmo.decommit(&mut pmem, 0, 2 * PAGE_SIZE), Ok(()));
    assert_eq!(vmo.committed_bytes(&pmem), 0);
    assert_eq!(pmem.count_free_frames(), 8);
    assert_eq!(vmo.read(&mut pmem, 0, 2 * PAGE_SIZE), Ok(vec![0u8; 2 * PAGE_SIZE]));
}

#[test]
fn commit_and_decommit_check_their_range() {
    let mut pmem = PhysMemory::new(2);
    let mut vmo = VmObject::new_paged(5, 4);
    assert_eq!(vmo.commit(&mut pmem, 1, PAGE_SIZE), Err(ZxError::INVALID_ARGS));
    assert_eq!(vmo.commit(&mut pmem, 0, PAGE_SIZE + 1), Err(ZxError::INVALID_ARGS));
    assert_eq!(vmo.commit(&mut pmem, 3 * PAGE_SIZE, 2 * PAGE_SIZE), Err(ZxError::INVALID_ARGS));
    assert_eq!(vmo.commit(&mut pmem, 0, 3 * PAGE_SIZE), Err(ZxError::NO_MEMORY));
    assert_eq!(vmo.committed_bytes(&pmem), 0);
    assert_eq!(vmo.commit(&mut pmem, 0, 2 * PAGE_SIZE), Ok(()));
    assert_eq!(vmo.decommit(&mut pmem, 8, PAGE_SIZE), Err(ZxError::INVALID_ARGS));
    assert_eq!(vmo.committed_bytes(&pmem), 2 * PAGE_SIZE);
}

#[test]
fn commit_page_twice_gives_the_same_frame() {
    let mut pmem = PhysMemory::new(4);
    let mut vmo = VmObject::new_paged(5, 2);
    let a = vmo.commit_page(&mut pmem, 1).unwrap();
    let b = vmo.commit_page(&mut pmem, 1).unwrap();
    assert_eq!(a, b);
    assert_eq!(a % PAGE_SIZE, 0);
    assert_eq!(vmo.committed_bytes(&pmem), PAGE_SIZE);
    assert_eq!(vmo.commit_page(&mut pmem, 2), Err(ZxError::INVALID_ARGS));
    let mut phys = VmObject::new_physical(&mut pmem, 9, 2 * PAGE_SIZE, 2).unwrap();
    assert_eq!(phys.commit_page(&mut pmem, 1), Ok(3 * PAGE_SIZE));
    assert_eq!(phys.commit_page(&mut pmem, 2), Err(ZxError::INVALID_ARGS));
}

#[test]
fn physical_object_supports_no_lifecycle_change() {
    let mut pmem = PhysMemory::new(8);
    let mut vmo = VmObject::new_physical(&mut pmem, 1, 0x1000, 4).unwrap();
    assert_eq!(vmo.set_len(&mut pmem, PAGE_SIZE), Err(ZxError::NOT_SUPPORTED));
    assert_eq!(vmo.commit(&mut pmem, 0, PAGE_SIZE), Err(ZxError::NOT_SUPPORTED));
    assert_eq!(vmo.decommit(&mut pmem, 0, PAGE_SIZE), Err(ZxError::NOT_SUPPORTED));
    assert_eq!(vmo.create_child(&mut pmem, 2, true, 0, PAGE_SIZE).err(), Some(ZxError::NOT_SUPPORTED));
    assert!(vmo.is_contiguous());
    assert_eq!(vmo.len(&pmem), 4 * PAGE_SIZE);
    assert_eq!(vmo.committed_bytes(&pmem), 4 * PAGE_SIZE);
}

#[test]
fn physical_range_must_be_free_memory() {
    let mut pmem = PhysMemory::new(4);
    assert!(VmObject::new_physical(&mut pmem, 1, 3 * PAGE_SIZE, 2).is_err());
    let first = VmObject::new_physical(&mut pmem, 1, PAGE_SIZE, 2).unwrap();
    assert_eq!(VmObject::new_physical(&mut pmem, 2, 2 * PAGE_SIZE, 1).err(), Some(ZxError::INVALID_ARGS));
    assert_eq!(pmem.owner_of(1), 1);
    assert_eq!(pmem.owner_of(3), 0);
    first.destroy(&mut pmem);
    assert_eq!(pmem.count_free_frames(), 4);
    assert!(VmObject::new_physical(&mut pmem, 2, 2 * PAGE_SIZE, 1).is_ok());
}

#[test]
fn set_len_grows_and_shrinks() {
    let mut pmem = PhysMemory::new(8);
    let mut vmo = VmObject::new_paged(5, 2);
    vmo.write(&mut pmem, PAGE_SIZE, &[5]).unwrap();
    assert_eq!(vmo.set_len(&mut pmem, 3 * PAGE_SIZE), Ok(()));
    assert_eq!(vmo.len(&pmem), 3 * PAGE_SIZE);
    assert_eq!(vmo.read(&mut pmem, PAGE_SIZE, 1), Ok(vec![5]));
    assert_eq!(vmo.set_len(&mut pmem, PAGE_SIZE), Ok(()));
    assert_eq!(vmo.len(&pmem), PAGE_SIZE);
    assert_eq!(vmo.committed_bytes(&pmem), 0);
    assert_eq!(pmem.count_free_frames(), 8);
    assert_eq!(vmo.set_len(&mut pmem, 2 * PAGE_SIZE), Ok(()));
    assert_eq!(vmo.read(&mut pmem, PAGE_SIZE, 1), Ok(vec![0]));
    assert_eq!(vmo.set_len(&mut pmem, 100), Err(ZxError::INVALID_ARGS));
    let mut fixed = VmObject::new_paged_with_resizable(6, false, 1);
    assert_eq!(fixed.set_len(&mut pmem, 2 * PAGE_SIZE), Err(ZxError::UNAVAILABLE));
    assert_eq!(fixed.len(&pmem), PAGE_SIZE);
}

#[test]
fn info_describes_a_paged_object() {
    let mut pmem = PhysMemory::new(8);
    let mut vmo = VmObject::new_paged(7, 3);
    vmo.set_name(b"a name that is much longer than thirty-two bytes");
    vmo.write(&mut pmem, 0, &[1]).unwrap();
    vmo.append_mapping(0x4000);
    let info = vmo.get_info(&pmem);
    assert_eq!(info.koid, 7);
    assert_eq!(&info.name, b"a name that is much longer than ");
    assert_eq!(info.size, 3 * PAGE_SIZE as u64);
    assert_eq!(info.parent_koid, 0);
    assert_eq!(info.num_children, 0);
    assert_eq!(info.num_mappings, 1);
    assert_eq!(info.committed_bytes, PAGE_SIZE as u64);
    assert_eq!(info.flags.bits, VmoInfoFlags::TYPE_PAGED | VmoInfoFlags::RESIZABLE);
    assert!(info.flags.contains(VmoInfoFlags::RESIZABLE));
    assert_eq!(info.rights.bits, 0);
    assert!(vmo.remove_mapping(0x4000));
    assert!(!vmo.remove_mapping(0x4000));
    let fixed = VmObject::new_paged_with_resizable(8, false, 1);
    let short = fixed.get_info(&pmem);
    assert_eq!(short.flags.bits, VmoInfoFlags::TYPE_PAGED);
    assert_eq!(short.name, [0u8; 32]);
}

#[test]
fn objects_do_not_disturb_each_other() {
    let mut pmem = PhysMemory::new(4);
    let mut a = VmObject::new_paged(5, 2);
    let mut b = VmObject::new_paged(6, 2);
    a.write(&mut pmem, 0, &[1, 1]).unwrap();
    b.write(&mut pmem, 0, &[2, 2]).unwrap();
    a.write(&mut pmem, PAGE_SIZE, &[3]).unwrap();
    b.decommit(&mut pmem, 0, PAGE_SIZE).unwrap();
    assert_eq!(a.read(&mut pmem, 0, 2), Ok(vec![1, 1]));
    assert_eq!(a.read(&mut pmem, PAGE_SIZE, 1), Ok(vec![3]));
    assert_eq!(b.read(&mut pmem, 0, 2), Ok(vec![0, 0]));
    b.destroy(&mut pmem);
    assert_eq!(a.read(&mut pmem, 0, 2), Ok(vec![1, 1]));
}

#[test]
fn frames_are_handed_out_lowest_first_and_zeroed() {
    let mut pmem = PhysMemory::new(3);
    pmem.pmem_write(0, &[7; 16]);
    assert_eq!(pmem.frame_alloc(4), Some(0));
    assert_eq!(pmem.pmem_read(0, 16), vec![0; 16]);
    assert_eq!(pmem.frame_alloc(4), Some(1));
    pmem.frame_dealloc(0, 4);
    assert_eq!(pmem.frame_alloc(5), Some(0));
    assert_eq!(pmem.frame_alloc(5), Some(2));
    assert_eq!(pmem.frame_alloc(5), None);
    assert_eq!(pmem.size(), 3 * PAGE_SIZE);
    assert_eq!(pmem.frame_count(), 3);
}

fn exercise<T: VMObjectTrait>(vmo: &mut T, pmem: &mut PhysMemory) {
        let len = VMObjectTrait::len(vmo, pmem);
        assert_eq!(len, 2 * PAGE_SIZE);
        assert_eq!(VMObjectTrait::write(vmo, pmem, len - 2, &[4, 5]), Ok(()));
        assert_eq!(VMObjectTrait::read(vmo, pmem, len - 3, 3), Ok(vec![0, 4, 5]));
        assert_eq!(VMObjectTrait::write(vmo, pmem, len - 1, &[4, 5]), Err(ZxError::INVALID_ARGS));
        assert_eq!(VMObjectTrait::read(vmo, pmem, len, 1), Err(ZxError::INVALID_ARGS));
        let a = VMObjectTrait::commit_page(vmo, pmem, 1).unwrap();
        assert_eq!(a % PAGE_SIZE, 0);
        assert_eq!(VMObjectTrait::commit_page(vmo, pmem, 2), Err(ZxError::INVALID_ARGS));
}

#[test]
fn both_kinds_serve_as_memory_objects() {
    let mut pmem = PhysMemory::new(8);
    let mut paged = VMObjectPaged::new(3, 2);
    exercise(&mut paged, &mut pmem);
    let mut physical = VMObjectPhysical::new(&mut pmem, 4, 4 * PAGE_SIZE, 2).unwrap();
    exercise(&mut physical, &mut pmem);
    assert_eq!(physical.paddr(), 4 * PAGE_SIZE);
    assert_eq!(physical.id(), 4);
    assert_eq!(paged.pages(), 2);
    assert_eq!(physical.set_len(PAGE_SIZE), Err(ZxError::NOT_SUPPORTED));
}

#[test]
fn destroying_a_paged_object_frees_its_frames_only() {
    let mut pmem = PhysMemory::new(5);
    let mut a = VMObjectPaged::new(7, 3);
    let mut b = VMObjectPaged::new(8, 2);
    a.write(&mut pmem, 0, &[9]).unwrap();
    b.write(&mut pmem, PAGE_SIZE, &[4, 5]).unwrap();
    a.write(&mut pmem, 2 * PAGE_SIZE, &[6]).unwrap();
    assert_eq!(
        (0..5).map(|f| pmem.owner_of(f)).collect::<Vec<u64>>(),
        vec![7, 8, 7, 0, 0]
    );
    let kept = pmem.pmem_read(0, 5 * PAGE_SIZE);
    a.destroy(&mut pmem);
    assert_eq!(
        (0..5).map(|f| pmem.owner_of(f)).collect::<Vec<u64>>(),
        vec![0, 8, 0, 0, 0]
    );
    assert_eq!(pmem.count_free_frames(), 4);
    assert_eq!(pmem.pmem_read(0, 5 * PAGE_SIZE), kept);
    assert_eq!(b.read(&mut pmem, PAGE_SIZE, 2), Ok(vec![4, 5]));
}

#[test]
fn destroying_a_physical_object_frees_its_range_only() {
    let mut pmem = PhysMemory::new(6);
    let low = VMObjectPhysical::new(&mut pmem, 3, 0, 1).unwrap();
    let high = VMObjectPhysical::new(&mut pmem, 4, 2 * PAGE_SIZE, 3).unwrap();
    high.write(&mut pmem, 0, &[1, 2, 3]).unwrap();
    assert_eq!(
        (0..6).map(|f| pmem.owner_of(f)).collect::<Vec<u64>>(),
        vec![3, 0, 4, 4, 4, 0]
    );
    high.destroy(&mut pmem);
    assert_eq!(
        (0..6).map(|f| pmem.owner_of(f)).collect::<Vec<u64>>(),
        vec![3, 0, 0, 0, 0, 0]
    );
    assert_eq!(pmem.count_free_frames(), 5);
    assert_eq!(pmem.pmem_read(2 * PAGE_SIZE, 3), vec![1, 2, 3]);
    low.destroy(&mut pmem);
    assert_eq!(pmem.count_free_frames(), 6);
}

#[test]
fn destroying_either_kind_frees_what_it_had_committed() {
    let mut pmem = PhysMemory::new(6);
    let mut paged = VmObject::new_paged(11, 4);
    let ranged = VmObject::new_physical(&mut pmem, 12, 4 * PAGE_SIZE, 2).unwrap();
    paged.write(&mut pmem, PAGE_SIZE, &[1]).unwrap();
    assert_eq!(pmem.count_free_frames(), 3);
    assert_eq!(paged.committed_bytes(&pmem), PAGE_SIZE);
    paged.destroy(&mut pmem);
    assert_eq!(pmem.count_free_frames(), 4);
    assert_eq!(pmem.owner_of(4), 12);
    ranged.destroy(&mut pmem);
    assert_eq!(pmem.count_free_frames(), 6);
    assert_eq!(pmem.owner_of(4), 0);
    assert_eq!(pmem.owner_of(5), 0);
}

#[test]
fn the_kernel_names_a_child_by_the_next_identifier() {
    let mut k = zcore::kernel::Kernel::new(8, 0x20_0000, 0x40_0000);
    let parent = k.create_vmo(2, true).unwrap();
    k.vmo_write(parent, 16, &[0xab]).unwrap();
    let child = k.vmo_create_child(parent, false, 0, PAGE_SIZE).unwrap();
    assert_eq!(child, parent + 1);
    let second = k.vmo_create_child(parent, false, PAGE_SIZE, PAGE_SIZE).unwrap();
    assert_eq!(second, child + 1);
    assert_eq!(k.vmo_read(child, 16, 1), Ok(vec![0xab]));
    k.vmo_write(parent, 16, &[0xcd]).unwrap();
    assert_eq!(k.vmo_read(child, 16, 1), Ok(vec![0xab]));
    assert_eq!(k.vmo_read(parent, 16, 1), Ok(vec![0xcd]));
    assert_eq!(k.vmo_read(second, 0, 2), Ok(vec![0, 0]));
    // Refusals change nothing, not even the next identifier.
    let objects = k.objects.len();
    assert_eq!(k.vmo_create_child(99, false, 0, PAGE_SIZE), Err(ZxError::BAD_HANDLE));
    assert_eq!(k.vmo_create_child(parent, false, 1, PAGE_SIZE), Err(ZxError::INVALID_ARGS));
    assert_eq!(k.vmo_create_child(parent, false, 0, 3 * PAGE_SIZE), Err(ZxError::INVALID_ARGS));
    assert_eq!(k.objects.len(), objects);
    assert_eq!(k.vmo_create_child(parent, true, 0, PAGE_SIZE), Ok(second + 1));
    let mut small = zcore::kernel::Kernel::new(1, 0x20_0000, 0x40_0000);
    let only = small.create_vmo(1, false).unwrap();
    small.vmo_write(only, 0, &[1]).unwrap();
    assert_eq!(small.vmo_create_child(only, false, 0, PAGE_SIZE), Err(ZxError::NO_MEMORY));
}

#[test]
fn commit_then_decommit_gives_the_frames_back_and_reads_zeroes() {
    let mut pmem = PhysMemory::new(3);
    let mut v = VmObject::new_paged(9, 3);
    v.write(&mut pmem, PAGE_SIZE + 7, &[1, 2, 3]).unwrap();
    assert_eq!(v.committed_bytes(&pmem), PAGE_SIZE);
    assert_eq!(v.commit(&mut pmem, PAGE_SIZE, 2 * PAGE_SIZE), Ok(()));
    assert_eq!(v.committed_bytes(&pmem), 2 * PAGE_SIZE);
    assert_eq!(pmem.count_free_frames(), 1);
    assert_eq!(v.decommit(&mut pmem, PAGE_SIZE, 2 * PAGE_SIZE), Ok(()));
    assert_eq!(v.committed_bytes(&pmem), 0);
    assert_eq!(pmem.count_free_frames(), 3);
    assert_eq!(v.read(&mut pmem, PAGE_SIZE, 2 * PAGE_SIZE), Ok(vec![0; 2 * PAGE_SIZE]));
    assert_eq!(v.committed_bytes(&pmem), 2 * PAGE_SIZE);
    assert_eq!(v.decommit(&mut pmem, 0, 0), Ok(()));
    assert_eq!(v.committed_bytes(&pmem), 2 * PAGE_SIZE);
}

#[test]
fn a_physical_write_changes_no_other_byte() {
    let mut pmem = PhysMemory::new(4);
    pmem.pmem_write(0, &vec![0x55; 4 * PAGE_SIZE]);
    let v = VMObjectPhysical::new(&mut pmem, 6, PAGE_SIZE, 2).unwrap();
    let before = pmem.pmem_read(0, 4 * PAGE_SIZE);
    assert_eq!(v.write(&mut pmem, 2 * PAGE_SIZE - 3, &[1, 2, 3]), Ok(()));
    let after = pmem.pmem_read(0, 4 * PAGE_SIZE);
    for a in 0..4 * PAGE_SIZE {
        let expected = if (3 * PAGE_SIZE - 3..3 * PAGE_SIZE).contains(&a) {
            (a - (3 * PAGE_SIZE - 3) + 1) as u8
        } else {
            before[a]
        };
        assert_eq!(after[a], expected);
    }
    assert_eq!(pmem.count_free_frames(), 2);
    assert_eq!(v.write(&mut pmem, 2 * PAGE_SIZE - 2, &[1, 2, 3]), Err(ZxError::INVALID_ARGS));
    assert_eq!(pmem.pmem_read(0, 4 * PAGE_SIZE), after);
}
