use zcore::error::ZxError;
use zcore::kernel::Kernel;
use zcore::object::rights::Rights;
use zcore::syscall::trampoline::{is_failure, Call, Trampoline, World};
use zcore::syscall::Syscall;
use zcore::vm::{MMUFlags, PAGE_SIZE};

fn setup() -> (Syscall, u64) {
    let mut k = Kernel::new(8, 0x20_0000, 0x40_0000);
    let p = k.create_process(b"proc", false).unwrap();
    let vmo = k.create_vmo(2, true).unwrap();
    (Syscall::new(k, p), vmo)
}

#[test]
fn read_only_handle_cannot_write_or_duplicate() {
    let (mut sys, vmo) = setup();
    let p = sys.proc;
    let h = sys.kernel.add_handle(p, vmo, Rights::from_bits(Rights::READ)).unwrap();
    assert_eq!(sys.sys_vmo_write(h, 0, &[1, 2, 3]), Err(ZxError::ACCESS_DENIED));
    assert_eq!(sys.sys_vmo_read(h, 0, 3), Ok(vec![0, 0, 0]));
    assert_eq!(sys.kernel.duplicate_handle(p, h, Rights::READ), Err(ZxError::ACCESS_DENIED));
    let w = sys.kernel.add_handle(p, vmo, Rights::from_bits(Rights::WRITE)).unwrap();
    assert_eq!(sys.sys_vmo_write(w, 0, &[1, 2, 3]), Ok(()));
    assert_eq!(sys.sys_vmo_read(w, 0, 3), Err(ZxError::ACCESS_DENIED));
    assert_eq!(sys.sys_vmo_read(h, 0, 3), Ok(vec![1, 2, 3]));
    assert_eq!(sys.sys_vmo_write(w, 2 * PAGE_SIZE - 1, &[1, 2]), Err(ZxError::INVALID_ARGS));
    assert_eq!(sys.sys_vmo_write(77, 0, &[1]), Err(ZxError::BAD_HANDLE));
    assert_eq!(sys.sys_vmo_read(0, 0, 1), Err(ZxError::BAD_HANDLE));
}

#[test]
fn unmap_through_the_kernel_keeps_records_in_step() {
    let (mut sys, vmo) = setup();
    let k = &mut sys.kernel;
    let flags = MMUFlags::from_bits(MMUFlags::READ);
    let a = k.vmar_map(0, 0, 0x1000, vmo, 0, PAGE_SIZE, flags).unwrap();
    let b = k.vmar_map(0, 0, 0x4000, vmo, 0, 2 * PAGE_SIZE, flags).unwrap();
    let i = k.find_vmo(vmo).unwrap();
    let records = |k: &Kernel| match &k.objects[i] {
        zcore::kernel::KernelObject::Vmo(v) => (v.num_mappings(), v.get_info(&k.pmem).num_mappings),
        _ => panic!("no memory object"),
    };
    assert_eq!(records(k), (2, 2));
    let gone = k.vmar_unmap(0, 0, 0x1000, PAGE_SIZE).unwrap();
    assert_eq!(gone.len(), 1);
    assert_eq!(gone[0].addr, a);
    k.forget_mappings(&gone);
    assert_eq!(records(k), (1, 1));
    assert_eq!(k.vmar_unmap(0, 0, 0x1001, PAGE_SIZE).err(), Some(ZxError::INVALID_ARGS));
    assert_eq!(k.vmar_unmap(3, 0, 0x1000, PAGE_SIZE).err(), Some(ZxError::INVALID_ARGS));
    assert_eq!(k.vmar_unmap(0, 9, 0x1000, PAGE_SIZE).err(), Some(ZxError::BAD_STATE));
    assert_eq!(k.read_memory(0, b, 1), Ok(vec![0]));
    assert_eq!(k.read_memory(0, a, 1), Err(ZxError::INVALID_ARGS));
    let gone = k.vmar_destroy(0, 0).unwrap();
    k.forget_mappings(&gone);
    assert_eq!(records(k), (0, 0));
    k.forget_mappings(&gone);
    assert_eq!(records(k), (0, 0));
    assert!(k.collect(vmo));
}

#[test]
fn one_system_call_at_a_time() {
    let call = Call { num: 63, a0: 1, a1: 2, a2: 3, a3: 4, a4: 5, a5: 6 };
    let mut t = Trampoline::new();
    assert_eq!(t.world, World::User);
    assert_eq!(t.leave(0), Err(ZxError::BAD_STATE));
    assert_eq!(t.enter(call), Ok(call));
    assert_eq!(t.world, World::Kernel);
    assert_eq!(t.enter(call), Err(ZxError::BAD_STATE));
    assert_eq!(t.world, World::Kernel);
    assert_eq!(t.leave(-22), Ok(-22));
    assert_eq!(t.world, World::User);
    assert_eq!(t.enter(call), Ok(call));
    assert_eq!(t.leave(7), Ok(7));
    assert!(is_failure(-1) && is_failure(isize::MIN));
    assert!(!is_failure(0) && !is_failure(isize::MAX));
}

#[test]
fn pages_get_their_entries_when_mapped_or_touched() {
    let (mut sys, vmo) = setup();
    let k = &mut sys.kernel;
    let flags = MMUFlags::from_bits(MMUFlags::READ | MMUFlags::WRITE);
    k.vmo_write(vmo, PAGE_SIZE + 5, &[9]).unwrap();
    let addr = k.vmar_map(0, 0, 0x4000, vmo, 0, 2 * PAGE_SIZE, flags).unwrap();
    let entries = k.resident_entries(0, 0);
    assert_eq!(entries.len(), 1);
    assert_eq!(entries[0].vaddr, addr + PAGE_SIZE);
    assert_eq!(entries[0].flags, flags);
    assert_eq!(k.pmem.pmem_read(entries[0].paddr + 5, 1), vec![9]);
    assert_eq!(k.page_fault(0, addr + 7, MMUFlags::EXECUTE).err(), Some(ZxError::ACCESS_DENIED));
    assert_eq!(k.page_fault(0, addr - 1, MMUFlags::READ).err(), Some(ZxError::INVALID_ARGS));
    assert_eq!(k.page_fault(4, addr, MMUFlags::READ).err(), Some(ZxError::INVALID_ARGS));
    let free = k.pmem.count_free_frames();
    let entry = k.page_fault(0, addr + 7, MMUFlags::WRITE).unwrap();
    assert_eq!((entry.vaddr, entry.flags), (addr, flags));
    assert_eq!(k.pmem.count_free_frames(), free - 1);
    assert_eq!(k.pmem.owner_of(entry.paddr / PAGE_SIZE), vmo);
    let again = k.page_fault(0, addr + 0xfff, MMUFlags::READ).unwrap();
    assert_eq!(again, entry);
    assert_eq!(k.pmem.count_free_frames(), free - 1);
    let other = k.page_fault(0, addr + PAGE_SIZE, MMUFlags::READ).unwrap();
    assert_eq!(other, entries[0]);
    assert_eq!(k.resident_entries(0, 0), vec![entry, other]);
    assert_eq!(k.vmo_read(vmo, PAGE_SIZE + 5, 1), Ok(vec![9]));
}

#[test]
fn page_fault_fails_without_memory() {
    let mut k = Kernel::new(1, 0x20_0000, 0x40_0000);
    let p = k.create_process(b"proc", false).unwrap();
    let vmo = k.create_vmo(2, true).unwrap();
    let addr = k.vmar_map(p, 0, 0, vmo, 0, 2 * PAGE_SIZE, MMUFlags::from_bits(1)).unwrap();
    assert!(k.page_fault(p, addr, MMUFlags::READ).is_ok());
    assert_eq!(k.page_fault(p, addr + PAGE_SIZE, MMUFlags::READ).err(), Some(ZxError::NO_MEMORY));
    let i = k.find_vmo(vmo).unwrap();
    if let zcore::kernel::KernelObject::Vmo(v) = &mut k.objects[i] {
        v.set_len(&mut k.pmem, PAGE_SIZE).unwrap();
    }
    assert_eq!(k.page_fault(p, addr + PAGE_SIZE, MMUFlags::READ).err(), Some(ZxError::INVALID_ARGS));
}
