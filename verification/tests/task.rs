use zcore::error::ZxError;
use zcore::kernel::Kernel;
use zcore::object::rights::Rights;
use zcore::task::{Process, Status, Thread, ThreadEvent, ThreadRegs, ThreadState, PROCESS_TERMINATED};

#[test]
fn thread_starts_only_once() {
    let mut t = Thread::create(5, 4, b"main", 0);
    assert_eq!(t.state, ThreadState::Initial);
    assert_eq!(t.start(0x1000, 0x8000, 1, 2), Ok(()));
    assert_eq!(t.state, ThreadState::Running);
    assert_eq!(t.regs, ThreadRegs { pc: 0x1000, sp: 0x8000, arg0: 1, arg1: 2 });
    assert_eq!(t.start(0x2000, 0x9000, 3, 4), Err(ZxError::BAD_STATE));
    assert_eq!(t.regs.pc, 0x1000);
}

#[test]
fn dead_thread_cannot_be_started() {
    let mut t = Thread::create(5, 4, b"main", 0);
    t.start(0, 0, 0, 0).unwrap();
    assert_eq!(t.apply(ThreadEvent::Exit), Ok(()));
    assert_eq!(t.state, ThreadState::Dying);
    assert_eq!(t.apply(ThreadEvent::Reap), Ok(()));
    assert_eq!(t.state, ThreadState::Dead);
    assert_eq!(t.start(0x1000, 0x8000, 0, 0), Err(ZxError::BAD_STATE));
    for e in [ThreadEvent::Start, ThreadEvent::Suspend, ThreadEvent::Resume, ThreadEvent::Exit, ThreadEvent::Reap] {
        assert_eq!(t.apply(e), Err(ZxError::BAD_STATE));
        assert_eq!(t.state, ThreadState::Dead);
    }
}

#[test]
fn thread_suspends_and_resumes() {
    let mut t = Thread::create(5, 4, b"main", 0);
    assert_eq!(t.apply(ThreadEvent::Suspend), Err(ZxError::BAD_STATE));
    t.start(0, 0, 0, 0).unwrap();
    assert_eq!(t.apply(ThreadEvent::Resume), Err(ZxError::BAD_STATE));
    assert_eq!(t.apply(ThreadEvent::Suspend), Ok(()));
    assert_eq!(t.state, ThreadState::Suspended);
    assert_eq!(t.apply(ThreadEvent::Exit), Err(ZxError::BAD_STATE));
    assert_eq!(t.apply(ThreadEvent::Resume), Ok(()));
    assert_eq!(t.state, ThreadState::Running);
    assert_eq!(t.apply(ThreadEvent::Reap), Err(ZxError::BAD_STATE));
}

#[test]
fn process_exit_kills_threads_and_signals() {
    let mut p = Process::create(9, 1, b"proc", false, 0x1000, 0x10000);
    assert_eq!(p.status, Status::Init);
    assert_eq!(p.job, 1);
    let a = p.create_thread(10, b"a", 0).unwrap();
    let b = p.create_thread(11, b"b", 0).unwrap();
    assert_eq!(p.start_thread(a, 0x1000, 0x2000, 0, 0), Ok(()));
    assert_eq!(p.status, Status::Running);
    assert_eq!(p.start_thread(7, 0, 0, 0, 0), Err(ZxError::INVALID_ARGS));
    assert_eq!(p.base.signal() & PROCESS_TERMINATED, 0);
    p.exit(-3);
    assert_eq!(p.status, Status::Exited(-3));
    assert_eq!(p.base.signal() & PROCESS_TERMINATED, PROCESS_TERMINATED);
    assert!(p.threads.iter().all(|t| t.state == ThreadState::Dead));
    assert_eq!(p.start_thread(b, 0x1000, 0x2000, 0, 0), Err(ZxError::BAD_STATE));
    assert_eq!(p.create_thread(12, b"c", 0), Err(ZxError::BAD_STATE));
}

#[test]
fn kernel_makes_processes_in_the_root_job() {
    let mut k = Kernel::new(8, 0x20_0000, 0x40_0000);
    assert_eq!(k.root_job.base.id(), 1);
    let p = k.create_process(b"first", false).unwrap();
    let q = k.create_process(b"second", true).unwrap();
    assert_eq!((p, q), (0, 1));
    assert_eq!(k.processes[p].job, 1);
    assert!(k.processes[q].linux);
    assert_eq!(k.processes[q].vmar.addr(0), 0x20_0000);
    assert_eq!(k.processes[q].vmar.node(0).size, 0x40_0000);
    assert_eq!(k.root_job.processes, vec![2, 3]);
    let t = k.create_thread(q, b"t", 0).unwrap();
    assert_eq!(k.create_thread(5, b"t", 0), Err(ZxError::INVALID_ARGS));
    assert_eq!(k.start_thread(q, t, 0x1000, 0x2000, 0, 0), Ok(()));
    assert_eq!(k.start_thread(q, t, 0x1000, 0x2000, 0, 0), Err(ZxError::BAD_STATE));
    assert_eq!(k.exit_process(q, 0), Ok(()));
    assert_eq!(k.exit_process(9, 0), Err(ZxError::INVALID_ARGS));
    assert_eq!(k.processes[q].threads[t].state, ThreadState::Dead);
    assert_eq!(k.create_thread(q, b"late", 0), Err(ZxError::BAD_STATE));
}

#[test]
fn handle_rights_gate_operations() {
    let mut k = Kernel::new(8, 0x20_0000, 0x40_0000);
    let p = k.create_process(b"proc", false).unwrap();
    let vmo = k.create_vmo(1, true).unwrap();
    let h = k.add_handle(p, vmo, Rights::from_bits(Rights::READ)).unwrap();
    assert!(h != 0);
    assert!(k.get_handle(p, h, zcore::object::handle::ObjectType::Vmo, Rights::READ).is_ok());
    assert_eq!(
        k.get_handle(p, h, zcore::object::handle::ObjectType::Vmo, Rights::WRITE),
        Err(ZxError::ACCESS_DENIED)
    );
    assert_eq!(
        k.get_handle(p, h, zcore::object::handle::ObjectType::Bti, Rights::READ),
        Err(ZxError::WRONG_TYPE)
    );
    assert_eq!(k.duplicate_handle(p, h, Rights::READ), Err(ZxError::ACCESS_DENIED));
    assert_eq!(k.duplicate_handle(p, h, Rights::SAME_RIGHTS), Err(ZxError::ACCESS_DENIED));
    let full = k.add_handle(p, vmo, Rights::from_bits(Rights::DEFAULT_VMO)).unwrap();
    let dup = k.duplicate_handle(p, full, Rights::READ | Rights::MAP).unwrap();
    assert_eq!(k.processes[p].handles.get(dup).unwrap().rights.bits, Rights::READ | Rights::MAP);
    let same = k.duplicate_handle(p, full, Rights::SAME_RIGHTS).unwrap();
    assert_eq!(k.processes[p].handles.get(same).unwrap().rights.bits, Rights::DEFAULT_VMO);
    assert_eq!(k.duplicate_handle(p, full, Rights::EXECUTE), Err(ZxError::INVALID_ARGS));
    assert_eq!(k.duplicate_handle(p, 999, Rights::READ), Err(ZxError::BAD_HANDLE));
    assert_eq!(k.add_handle(p, 777, Rights::empty()), Err(ZxError::BAD_HANDLE));
    assert_eq!(k.add_handle(4, vmo, Rights::empty()), Err(ZxError::INVALID_ARGS));
}

#[test]
fn object_lives_as_long_as_a_handle_refers_to_it() {
    let mut k = Kernel::new(8, 0x20_0000, 0x40_0000);
    let p = k.create_process(b"one", false).unwrap();
    let q = k.create_process(b"two", false).unwrap();
    let vmo = k.create_vmo(2, true).unwrap();
    k.vmo_write(vmo, 0, &[1, 2, 3]).unwrap();
    assert_eq!(k.pmem.count_free_frames(), 7);
    let a = k.add_handle(p, vmo, Rights::from_bits(Rights::DEFAULT_VMO)).unwrap();
    let b = k.add_handle(q, vmo, Rights::from_bits(Rights::READ)).unwrap();
    assert!(k.is_referenced(vmo));
    assert_eq!(k.close_handle(p, a), Ok(false));
    assert!(k.find_object(vmo).is_some());
    assert_eq!(k.vmo_read(vmo, 0, 3), Ok(vec![1, 2, 3]));
    assert_eq!(k.close_handle(p, a), Err(ZxError::BAD_HANDLE));
    assert_eq!(k.close_handle(q, b), Ok(true));
    assert!(k.find_object(vmo).is_none());
    assert_eq!(k.pmem.count_free_frames(), 8);
    assert_eq!(k.vmo_read(vmo, 0, 3), Err(ZxError::BAD_HANDLE));
    assert!(!k.collect(vmo));
}

#[test]
fn mapping_keeps_its_object_alive() {
    let mut k = Kernel::new(8, 0x20_0000, 0x40_0000);
    let p = k.create_process(b"one", false).unwrap();
    let vmo = k.create_vmo(2, true).unwrap();
    let h = k.add_handle(p, vmo, Rights::from_bits(Rights::DEFAULT_VMO)).unwrap();
    let flags = zcore::vm::MMUFlags::from_bits(3);
    let addr = k.vmar_map(p, 0, 0x3000, vmo, 0, 0x2000, flags).unwrap();
    assert_eq!(addr, 0x20_3000);
    assert_eq!(k.close_handle(p, h), Ok(false));
    assert_eq!(k.write_memory(p, addr + 0x1ffc, &[1, 2, 3, 4]), Ok(()));
    assert_eq!(k.read_memory(p, addr + 0x1ffc, 4), Ok(vec![1, 2, 3, 4]));
    assert_eq!(k.vmo_read(vmo, 0x1ffc, 4), Ok(vec![1, 2, 3, 4]));
    assert_eq!(k.write_memory(p, addr + 0x1ffd, &[1, 2, 3, 4]), Err(ZxError::INVALID_ARGS));
    assert_eq!(k.read_memory(p, addr - 1, 1), Err(ZxError::INVALID_ARGS));
    assert_eq!(k.locate(p, addr + 0x10, 8), Some((vmo, 0x10)));
    assert_eq!(k.vmar_map(p, 0, 0x3000, 999, 0, 0x2000, flags), Err(ZxError::BAD_HANDLE));
    assert_eq!(k.vmar_map(3, 0, 0x3000, vmo, 0, 0x2000, flags), Err(ZxError::INVALID_ARGS));
    let child = k.vmar_create_child(p, 0, None, 0x1000).unwrap();
    assert_eq!(k.processes[p].vmar.addr(child), 0x20_0000);
    assert!(!k.collect(vmo));
    let gone = k.vmar_destroy(p, 0).unwrap();
    assert_eq!(gone.len(), 1);
    assert!(k.collect(vmo));
    assert_eq!(k.pmem.count_free_frames(), 8);
}
