use zcore::error::ZxError;
use zcore::object::handle::{Handle, HandleTable, ObjectType, INVALID_HANDLE};
use zcore::object::rights::Rights;
use zcore::object::{poll_wait, wait_result, KObjectBase, KoidAllocator, WaitStatus};

#[test]
fn koids_increase_and_are_never_zero() {
    let mut koids = KoidAllocator::new();
    let mut last = 0;
    for _ in 0..1000 {
        let k = koids.allocate().unwrap();
        assert!(k != 0 && k > last);
        last = k;
    }
    assert_eq!(koids.peek(), last + 1);
}

#[test]
fn names_are_cut_to_thirty_two_bytes() {
    let mut base = KObjectBase::new(3);
    assert_eq!(base.id(), 3);
    assert!(base.name().is_empty());
    base.set_name(b"short");
    assert_eq!(base.name().as_slice(), b"short");
    base.set_name(b"0123456789012345678901234567890123456789");
    assert_eq!(base.name().as_slice(), b"01234567890123456789012345678901");
    let named = KObjectBase::with_name(4, b"exactly thirty-two bytes long!!!");
    assert_eq!(named.name().len(), 32);
}

#[test]
fn signals_are_cleared_then_set() {
    let mut base = KObjectBase::new(3);
    base.signal_set(0b0110);
    assert_eq!(base.signal(), 0b0110);
    base.signal_change(0b0100, 0b1000);
    assert_eq!(base.signal(), 0b1010);
    base.signal_change(0b1000, 0b1000);
    assert_eq!(base.signal(), 0b1010);
    base.signal_clear(0b1111);
    assert_eq!(base.signal(), 0);
}

#[test]
fn wait_times_out_only_from_the_deadline_on() {
    let mask = 0x0100_0000;
    let start: u64 = 5_000_000;
    let deadline = start + 1_000_000;
    assert_eq!(poll_wait(0x8, mask, start, deadline, false), WaitStatus::Pending);
    assert_eq!(poll_wait(0x8, mask, deadline - 1, deadline, false), WaitStatus::Pending);
    assert_eq!(poll_wait(0x8, mask, deadline, deadline, false), WaitStatus::TimedOut);
    assert_eq!(poll_wait(0x8, mask, deadline + 7, deadline, false), WaitStatus::TimedOut);
    assert_eq!(wait_result(WaitStatus::TimedOut), Some(Err(ZxError::TIMED_OUT)));
    assert_eq!(wait_result(WaitStatus::Pending), None);
}

#[test]
fn wait_ends_on_a_signal_or_a_dying_thread() {
    assert_eq!(poll_wait(0b101, 0b100, 0, 10, false), WaitStatus::Ready(0b101));
    assert_eq!(poll_wait(0b101, 0b100, 20, 10, true), WaitStatus::Ready(0b101));
    assert_eq!(poll_wait(0b001, 0b100, 0, 10, true), WaitStatus::Canceled);
    assert_eq!(wait_result(WaitStatus::Ready(5)), Some(Ok(5)));
    assert_eq!(wait_result(WaitStatus::Canceled), Some(Err(ZxError::CANCELED)));
}

#[test]
fn rights_contain_their_parts() {
    let r = Rights::from_bits(Rights::DEFAULT_VMO);
    assert!(r.contains(Rights::READ | Rights::WRITE | Rights::MAP));
    assert!(r.contains(Rights::BASIC));
    assert!(!r.contains(Rights::EXECUTE));
    assert!(Rights::empty().contains(0));
    assert_eq!(Rights::from_bits(Rights::READ).union(Rights::WRITE).bits, Rights::IO);
    assert_eq!(Rights::BASIC, Rights::TRANSFER | Rights::DUPLICATE | Rights::WAIT | Rights::INSPECT);
    assert_eq!(Rights::DEFAULT_BTI, Rights::BASIC | Rights::IO | Rights::MAP);
    assert_eq!(
        Rights::DEFAULT_CHANNEL,
        (Rights::BASIC & !Rights::DUPLICATE) | Rights::IO | Rights::SIGNAL | Rights::SIGNAL_PEER
    );
}

#[test]
fn handle_table_adds_finds_and_removes() {
    let mut table = HandleTable::new();
    let vmo = Handle::new(7, ObjectType::Vmo, Rights::from_bits(Rights::READ));
    let bti = Handle::new(8, ObjectType::Bti, Rights::from_bits(Rights::DEFAULT_BTI));
    let a = table.add(vmo).unwrap();
    let b = table.add(bti).unwrap();
    assert!(a != INVALID_HANDLE && b != INVALID_HANDLE && a != b);
    assert_eq!(table.len(), 2);
    assert_eq!(table.get(a), Ok(vmo));
    assert_eq!(table.get(b), Ok(bti));
    assert_eq!(table.get(0), Err(ZxError::BAD_HANDLE));
    assert_eq!(table.get_as(a, ObjectType::Vmo), Ok(vmo));
    assert_eq!(table.get_as(a, ObjectType::Bti), Err(ZxError::WRONG_TYPE));
    assert_eq!(table.get_with_rights(a, ObjectType::Vmo, Rights::READ), Ok(vmo));
    assert_eq!(table.get_with_rights(a, ObjectType::Vmo, Rights::WRITE), Err(ZxError::ACCESS_DENIED));
    assert_eq!(table.get_with_rights(a, ObjectType::Bti, Rights::WRITE), Err(ZxError::WRONG_TYPE));
    assert_eq!(table.get_with_rights(99, ObjectType::Vmo, Rights::READ), Err(ZxError::BAD_HANDLE));
    assert_eq!(table.remove(a), Ok(vmo));
    assert_eq!(table.remove(a), Err(ZxError::BAD_HANDLE));
    assert_eq!(table.get(a), Err(ZxError::BAD_HANDLE));
    assert_eq!(table.get(b), Ok(bti));
    let c = table.add(vmo).unwrap();
    assert!(c != a && c != b && c != 0);
    assert_eq!(table.entry(0).value, b);
}

#[test]
fn status_names() {
    assert_eq!(ZxError::BAD_HANDLE.name(), "BAD_HANDLE");
    assert_eq!(ZxError::NOT_SUPPORTED.name(), "NOT_SUPPORTED");
    assert_eq!(ZxError::TIMED_OUT.name(), "TIMED_OUT");
}
