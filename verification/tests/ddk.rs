use zcore::dev::{BtiOptions, IommuPerms, Resource, ResourceKind};
use zcore::error::ZxError;
use zcore::kernel::{Kernel, KernelObject};
use zcore::object::rights::Rights;
use zcore::syscall::ddk::pin_check;
use zcore::syscall::Syscall;
use zcore::vm::vmo::VmObject;
use zcore::vm::PAGE_SIZE;

fn kernel_with_root() -> (Syscall, u32) {
    let mut k = Kernel::new(16, 0x20_0000, 0x40_0000);
    let p = k.create_process(b"driver", false).unwrap();
    let koid = k.koids.allocate().unwrap();
    k.insert_object(KernelObject::Resource(Resource::create(koid, b"root", ResourceKind::ROOT)));
    let h = k.add_handle(p, koid, Rights::from_bits(Rights::DEFAULT_RESOURCE)).unwrap();
    (Syscall::new(k, p), h)
}

fn with_bti() -> (Syscall, u32) {
    let (mut sys, root) = kernel_with_root();
    let iommu = sys.sys_iommu_create(root, 0, &[0], 1).unwrap();
    let bti = sys.sys_bti_create(iommu, 0, 7).unwrap();
    (sys, bti)
}

#[test]
fn iommu_create_checks_resource_and_descriptor() {
    let (mut sys, root) = kernel_with_root();
    assert_eq!(sys.sys_iommu_create(99, 0, &[0], 1), Err(ZxError::BAD_HANDLE));
    assert_eq!(sys.sys_iommu_create(root, 0, &[0; 4097], 4097), Err(ZxError::INVALID_ARGS));
    assert_eq!(sys.sys_iommu_create(root, 0, &[0, 0], 2), Err(ZxError::INVALID_ARGS));
    assert_eq!(sys.sys_iommu_create(root, 0, &[], 0), Err(ZxError::INVALID_ARGS));
    assert_eq!(sys.sys_iommu_create(root, 0, &[], 1), Err(ZxError::INVALID_ARGS));
    let objects = sys.kernel.objects.len();
    let h = sys.sys_iommu_create(root, 3, &[9], 1).unwrap();
    assert_eq!(sys.kernel.objects.len(), objects + 1);
    let handle = sys.kernel.processes[sys.proc].handles.get(h).unwrap();
    assert_eq!(handle.rights.bits, Rights::DEFAULT_CHANNEL);
    match sys.kernel.objects.last().unwrap() {
        KernelObject::Iommu(i) => {
            assert_eq!(i.type_, 3);
            assert_eq!(i.desc, vec![9]);
            assert_eq!(i.base.id(), handle.object);
            assert!(i.is_valid_bus_txn_id());
            assert_eq!(i.minimum_contiguity(), PAGE_SIZE);
        }
        _ => panic!("the new object is no IOMMU"),
    }
    assert_eq!(sys.sys_iommu_create(h, 0, &[0], 1), Err(ZxError::WRONG_TYPE));
}

#[test]
fn iommu_create_needs_the_root_resource() {
    let mut k = Kernel::new(16, 0x20_0000, 0x40_0000);
    let p = k.create_process(b"driver", false).unwrap();
    let koid = k.koids.allocate().unwrap();
    k.insert_object(KernelObject::Resource(Resource::create(koid, b"irq", ResourceKind::IRQ)));
    let h = k.add_handle(p, koid, Rights::from_bits(Rights::DEFAULT_RESOURCE)).unwrap();
    let mut sys = Syscall::new(k, p);
    assert_eq!(sys.sys_iommu_create(h, 0, &[0], 1), Err(ZxError::WRONG_TYPE));
}

#[test]
fn bti_create_checks_options_and_handle() {
    let (mut sys, root) = kernel_with_root();
    let iommu = sys.sys_iommu_create(root, 0, &[0], 1).unwrap();
    assert_eq!(sys.sys_bti_create(iommu, 1, 7), Err(ZxError::INVALID_ARGS));
    assert_eq!(sys.sys_bti_create(99, 0, 7), Err(ZxError::BAD_HANDLE));
    assert_eq!(sys.sys_bti_create(root, 0, 7), Err(ZxError::WRONG_TYPE));
    let bti = sys.sys_bti_create(iommu, 0, 7).unwrap();
    let handle = sys.kernel.processes[sys.proc].handles.get(bti).unwrap();
    assert_eq!(handle.rights.bits, Rights::DEFAULT_BTI);
    match sys.kernel.objects.last().unwrap() {
        KernelObject::Bti(b) => {
            assert_eq!(b.bti_id, 7);
            assert_eq!(b.iommu, sys.kernel.processes[sys.proc].handles.get(iommu).unwrap().object);
            assert!(b.pmts.is_empty());
        }
        _ => panic!("the new object is no BTI"),
    }
}

#[test]
fn bti_pin_contiguous_physical_memory() {
    let (mut sys, bti) = with_bti();
    let koid = sys.kernel.koids.allocate().unwrap();
    let vmo = VmObject::new_physical(&mut sys.kernel.pmem, koid, 8 * PAGE_SIZE, 4).unwrap();
    sys.kernel.insert_object(KernelObject::Vmo(vmo));
    let p = sys.proc;
    let h = sys.kernel.add_handle(p, koid, Rights::from_bits(Rights::MAP | Rights::READ)).unwrap();
    let options = BtiOptions::CONTIGUOUS | BtiOptions::PERM_READ;
    assert_eq!(
        sys.sys_bti_pin(bti, BtiOptions::COMPRESS | BtiOptions::CONTIGUOUS, h, 0, 4 * PAGE_SIZE, 1),
        Err(ZxError::INVALID_ARGS)
    );
    let (addrs, pmt) = sys.sys_bti_pin(bti, options, h, 0, 4 * PAGE_SIZE, 1).unwrap();
    assert_eq!(addrs, vec![8 * PAGE_SIZE]);
    let handle = sys.kernel.processes[p].handles.get(pmt).unwrap();
    assert_eq!(handle.rights.bits, Rights::INSPECT);
    match sys.kernel.objects.last().unwrap() {
        KernelObject::Pmt(t) => {
            assert_eq!(t.base.id(), handle.object);
            assert_eq!(t.vmo, koid);
            assert_eq!((t.offset, t.size), (0, 4 * PAGE_SIZE));
            assert_eq!(t.perms, IommuPerms { bits: IommuPerms::PERM_READ });
            assert_eq!(t.mapped_addrs.len(), 4);
            assert_eq!(t.mapped_addrs[3], 11 * PAGE_SIZE);
        }
        _ => panic!("the new object is no token"),
    }
    let (each, _) = sys.sys_bti_pin(bti, BtiOptions::PERM_READ, h, PAGE_SIZE, 2 * PAGE_SIZE, 2).unwrap();
    assert_eq!(each, vec![9 * PAGE_SIZE, 10 * PAGE_SIZE]);
    assert_eq!(sys.sys_bti_pin(bti, options, h, 0, 4 * PAGE_SIZE, 4), Err(ZxError::INVALID_ARGS));
    assert_eq!(sys.sys_bti_pin(bti, BtiOptions::PERM_WRITE, h, 0, PAGE_SIZE, 1), Err(ZxError::ACCESS_DENIED));
    assert!(!sys.kernel.collect(koid));
}

#[test]
fn bti_pin_commits_paged_memory() {
    let (mut sys, bti) = with_bti();
    let p = sys.proc;
    let koid = sys.kernel.create_vmo(4, true).unwrap();
    let h = sys.kernel.add_handle(p, koid, Rights::from_bits(Rights::DEFAULT_VMO)).unwrap();
    sys.kernel.vmo_write(koid, PAGE_SIZE, &[5, 6]).unwrap();
    let free = sys.kernel.pmem.count_free_frames();
    let options = BtiOptions::PERM_READ | BtiOptions::PERM_WRITE | BtiOptions::PERM_EXECUTE;
    let (addrs, _) = sys.sys_bti_pin(bti, options, h, PAGE_SIZE, 3 * PAGE_SIZE, 3).unwrap();
    assert_eq!(addrs.len(), 3);
    assert_eq!(sys.kernel.pmem.count_free_frames(), free - 2);
    for (i, a) in addrs.iter().enumerate() {
        assert_eq!(a % PAGE_SIZE, 0);
        assert_eq!(sys.kernel.pmem.owner_of(a / PAGE_SIZE), koid);
        assert!(addrs[..i].iter().all(|b| b != a));
    }
    assert_eq!(sys.kernel.pmem.pmem_read(addrs[0], 2), vec![5, 6]);
    assert_eq!(sys.kernel.vmo_read(koid, PAGE_SIZE, 2), Ok(vec![5, 6]));
    assert_eq!(sys.sys_bti_pin(bti, BtiOptions::CONTIGUOUS, h, 0, PAGE_SIZE, 1), Err(ZxError::INVALID_ARGS));
}

#[test]
fn bti_pin_checks_in_order() {
    let (mut sys, bti) = with_bti();
    let p = sys.proc;
    let koid = sys.kernel.create_vmo(2, true).unwrap();
    let h = sys.kernel.add_handle(p, koid, Rights::from_bits(Rights::DEFAULT_VMO)).unwrap();
    let no_map = sys.kernel.add_handle(p, koid, Rights::from_bits(Rights::READ)).unwrap();
    let bti_koid = sys.kernel.processes[p].handles.get(bti).unwrap().object;
    let weak_bti = sys.kernel.add_handle(p, bti_koid, Rights::from_bits(Rights::READ)).unwrap();
    assert_eq!(sys.sys_bti_pin(99, 0, h, 1, 1, 1), Err(ZxError::BAD_HANDLE));
    assert_eq!(sys.sys_bti_pin(h, 0, h, 0, PAGE_SIZE, 1), Err(ZxError::WRONG_TYPE));
    assert_eq!(sys.sys_bti_pin(weak_bti, 0, h, 0, PAGE_SIZE, 1), Err(ZxError::ACCESS_DENIED));
    assert_eq!(sys.sys_bti_pin(bti, 0, 99, 1, PAGE_SIZE, 1), Err(ZxError::INVALID_ARGS));
    assert_eq!(sys.sys_bti_pin(bti, 0, h, 0, PAGE_SIZE + 1, 1), Err(ZxError::INVALID_ARGS));
    assert_eq!(sys.sys_bti_pin(bti, 0, 99, 0, PAGE_SIZE, 1), Err(ZxError::BAD_HANDLE));
    assert_eq!(sys.sys_bti_pin(bti, 0, bti, 0, PAGE_SIZE, 1), Err(ZxError::WRONG_TYPE));
    assert_eq!(sys.sys_bti_pin(bti, 0, no_map, 0, PAGE_SIZE, 1), Err(ZxError::ACCESS_DENIED));
    assert_eq!(sys.sys_bti_pin(bti, 0, h, 0, 0, 0), Err(ZxError::INVALID_ARGS));
    assert_eq!(sys.sys_bti_pin(bti, 0, h, PAGE_SIZE, 2 * PAGE_SIZE, 2), Err(ZxError::INVALID_ARGS));
    let objects = sys.kernel.objects.len();
    assert_eq!(sys.sys_bti_pin(bti, 0, h, 0, 2 * PAGE_SIZE, 1), Err(ZxError::INVALID_ARGS));
    assert_eq!(sys.kernel.objects.len(), objects);
    assert_eq!(sys.kernel.pmem.count_free_frames(), 16);
    assert!(sys.sys_bti_pin(bti, 0xffff_ffe0, h, 0, 2 * PAGE_SIZE, 2).is_ok());
}

#[test]
fn bti_pin_fails_without_memory() {
    let mut k = Kernel::new(1, 0x20_0000, 0x40_0000);
    let p = k.create_process(b"driver", false).unwrap();
    let koid = k.koids.allocate().unwrap();
    k.insert_object(KernelObject::Resource(Resource::create(koid, b"root", ResourceKind::ROOT)));
    let root = k.add_handle(p, koid, Rights::from_bits(Rights::DEFAULT_RESOURCE)).unwrap();
    let mut sys = Syscall::new(k, p);
    let iommu = sys.sys_iommu_create(root, 0, &[0], 1).unwrap();
    let bti = sys.sys_bti_create(iommu, 0, 7).unwrap();
    let vmo = sys.kernel.create_vmo(2, true).unwrap();
    let h = sys.kernel.add_handle(p, vmo, Rights::from_bits(Rights::DEFAULT_VMO)).unwrap();
    assert_eq!(sys.sys_bti_pin(bti, 0, h, 0, 2 * PAGE_SIZE, 2), Err(ZxError::NO_MEMORY));
    assert_eq!(sys.kernel.pmem.count_free_frames(), 1);
    assert!(sys.sys_bti_pin(bti, 0, h, 0, PAGE_SIZE, 1).is_ok());
}

#[test]
fn pin_permissions_follow_the_rights() {
    let read = Rights::from_bits(Rights::READ);
    let write = Rights::from_bits(Rights::WRITE);
    let both = Rights::from_bits(Rights::IO);
    assert_eq!(pin_check(read, 0, false), Ok(IommuPerms { bits: 0 }));
    assert_eq!(pin_check(read, BtiOptions::PERM_READ, false), Ok(IommuPerms { bits: 1 }));
    assert_eq!(pin_check(read, BtiOptions::PERM_EXECUTE, false), Ok(IommuPerms { bits: 4 }));
    assert_eq!(pin_check(write, BtiOptions::PERM_EXECUTE, false), Err(ZxError::ACCESS_DENIED));
    assert_eq!(pin_check(write, BtiOptions::PERM_READ, false), Err(ZxError::ACCESS_DENIED));
    assert_eq!(pin_check(read, BtiOptions::PERM_WRITE, false), Err(ZxError::ACCESS_DENIED));
    assert_eq!(pin_check(both, 7, false), Ok(IommuPerms { bits: 7 }));
    assert_eq!(pin_check(both, 7 | BtiOptions::COMPRESS, false), Ok(IommuPerms { bits: 7 }));
    assert_eq!(pin_check(both, BtiOptions::CONTIGUOUS, false), Err(ZxError::INVALID_ARGS));
    assert_eq!(pin_check(both, BtiOptions::CONTIGUOUS, true), Ok(IommuPerms { bits: 0 }));
    assert_eq!(
        pin_check(both, BtiOptions::CONTIGUOUS | BtiOptions::COMPRESS, true),
        Err(ZxError::INVALID_ARGS)
    );
    assert_eq!(pin_check(write, BtiOptions::PERM_READ | BtiOptions::CONTIGUOUS, false), Err(ZxError::ACCESS_DENIED));
    assert_eq!(BtiOptions::from_bits_truncate(0xffff_ffff).bits, 0x1f);
}
