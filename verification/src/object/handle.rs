//! Handles: a process's references to kernel objects, each with rights.
use vstd::prelude::*;
use crate::error::{ZxError, ZxResult};
use crate::object::rights::Rights;
use crate::object::KoID;

verus! {

/// The value by which a process names one of its handles.
pub type HandleValue = u32;

/// The value that names no handle.
pub const INVALID_HANDLE: HandleValue = 0;

/// The classes of kernel object that a handle can refer to.
#[derive(Clone, Copy, Debug, PartialEq, Eq, Structural)]
pub enum ObjectType {
    /// A virtual memory object.
    Vmo,
    /// An address region.
    Vmar,
    /// A job.
    Job,
    /// A process.
    Process,
    /// A thread.
    Thread,
    /// A resource.
    Resource,
    /// An input/output memory management unit.
    Iommu,
    /// A bus transaction initiator.
    Bti,
    /// A pinned memory token.
    Pmt,
}

/// A reference to a kernel object together with the rights it carries.
#[derive(Clone, Copy, Debug, PartialEq, Eq, Structural)]
pub struct Handle {
    /// Identifier of the object.
    pub object: KoID,
    /// Class of the object.
    pub kind: ObjectType,
    /// What the holder may do with the object.
    pub rights: Rights,
}

impl Handle {
    /// A handle to the object `object` of class `kind` with `rights`.
    pub fn new(object: KoID, kind: ObjectType, rights: Rights) -> (h: Handle)
        ensures
            h == (Handle { object, kind, rights }),
    {
        Handle { object, kind, rights }
    }
}

/// One line of a handle table.
#[derive(Clone, Copy)]
pub struct HandleEntry {
    /// The handle's value.
    pub value: HandleValue,
    /// The handle.
    pub handle: Handle,
}

/// The mapping from values to handles that `entries` stands for.
pub open spec fn entries_map(entries: Seq<HandleEntry>) -> Map<HandleValue, Handle>
    decreases entries.len(),
{
    if entries.len() == 0 {
        Map::empty()
    } else {
        entries_map(entries.drop_last()).insert(entries.last().value, entries.last().handle)
    }
}

/// Whether no two lines of `entries` have the same value.
pub open spec fn distinct_values(entries: Seq<HandleEntry>) -> bool {
    forall|i: int, j: int|
        0 <= i < entries.len() && 0 <= j < entries.len() && i != j ==> (#[trigger] entries[i]).value
            != (#[trigger] entries[j]).value
}

/// The mapping of `entries` has exactly the values of its lines, and gives
/// for each the handle of its line.
pub proof fn lemma_entries_map(entries: Seq<HandleEntry>)
    requires
        distinct_values(entries),
    ensures
        forall|v: HandleValue|
            entries_map(entries).dom().contains(v) <==> exists|i: int|
                0 <= i < entries.len() && (#[trigger] entries[i]).value == v,
        forall|i: int|
            0 <= i < entries.len() ==> entries_map(entries).dom().contains(
                (#[trigger] entries[i]).value,
            ) && entries_map(entries)[entries[i].value] == entries[i].handle,
    decreases entries.len(),
{
    if entries.len() > 0 {
        let front = entries.drop_last();
        lemma_entries_map(front);
        assert forall|v: HandleValue|
            entries_map(entries).dom().contains(v) implies exists|i: int|
            0 <= i < entries.len() && (#[trigger] entries[i]).value == v by {
            if v == entries.last().value {
                assert(entries[entries.len() - 1].value == v);
            } else {
                let i = choose|i: int| 0 <= i < front.len() && (#[trigger] front[i]).value == v;
                assert(entries[i].value == v);
            }
        }
        assert forall|i: int| 0 <= i < entries.len() implies entries_map(entries).dom().contains(
            (#[trigger] entries[i]).value,
        ) && entries_map(entries)[entries[i].value] == entries[i].handle by {
            if i < front.len() {
                assert(front[i] == entries[i]);
                assert(entries[i].value != entries[entries.len() - 1].value);
            }
        }
    }
}

/// Taking a line out of `entries` takes its value out of the mapping.
pub proof fn lemma_entries_map_remove(entries: Seq<HandleEntry>, i: int)
    requires
        distinct_values(entries),
        0 <= i < entries.len(),
    ensures
        distinct_values(entries.remove(i)),
        entries_map(entries.remove(i)) == entries_map(entries).remove(entries[i].value),
{
    let rest = entries.remove(i);
    assert forall|a: int, b: int|
        0 <= a < rest.len() && 0 <= b < rest.len() && a != b implies (#[trigger] rest[a]).value != (
    #[trigger] rest[b]).value by {
        let a0 = if a < i {
            a
        } else {
            a + 1
        };
        let b0 = if b < i {
            b
        } else {
            b + 1
        };
        assert(rest[a] == entries[a0] && rest[b] == entries[b0]);
    }
    lemma_entries_map(entries);
    lemma_entries_map(rest);
    let lhs = entries_map(rest);
    let rhs = entries_map(entries).remove(entries[i].value);
    assert forall|v: HandleValue| lhs.dom().contains(v) <==> rhs.dom().contains(v) by {
        if lhs.dom().contains(v) {
            let a = choose|a: int| 0 <= a < rest.len() && (#[trigger] rest[a]).value == v;
            let a0 = if a < i {
                a
            } else {
                a + 1
            };
            assert(rest[a] == entries[a0]);
            assert(entries[a0].value == v && a0 != i);
        }
        if rhs.dom().contains(v) {
            let b = choose|b: int| 0 <= b < entries.len() && (#[trigger] entries[b]).value == v;
            assert(b != i);
            let b1 = if b < i {
                b
            } else {
                b - 1
            };
            assert(rest[b1] == entries[b]);
        }
    }
    assert forall|v: HandleValue| lhs.dom().contains(v) implies lhs[v] == rhs[v] by {
        let a = choose|a: int| 0 <= a < rest.len() && (#[trigger] rest[a]).value == v;
        let a0 = if a < i {
            a
        } else {
            a + 1
        };
        assert(rest[a] == entries[a0]);
        assert(lhs[rest[a].value] == rest[a].handle);
        assert(entries_map(entries)[entries[a0].value] == entries[a0].handle);
    }
    assert(lhs =~= rhs);
}

/// The handles of one process, by value.
pub struct HandleTable {
    entries: Vec<HandleEntry>,
    next: u32,
}

impl HandleTable {
    /// The lines of the table.
    pub closed spec fn entries(&self) -> Seq<HandleEntry> {
        self.entries@
    }

    /// The value that the next new handle gets.
    pub closed spec fn next_value(&self) -> u32 {
        self.next
    }

    /// The table as a mapping from values to handles.
    pub open spec fn view(&self) -> Map<HandleValue, Handle> {
        entries_map(self.entries())
    }

    /// No value occurs twice, none is `0`, and all are below the next one.
    pub open spec fn wf(&self) -> bool {
        &&& distinct_values(self.entries())
        &&& self.next_value() != 0
        &&& forall|i: int|
            0 <= i < self.entries().len() ==> 0 < (#[trigger] self.entries()[i]).value
                < self.next_value()
    }

    /// What [`HandleTable::get_with_rights`] comes to for the value `value`,
    /// the class `kind` and the rights mask `rights`.
    pub open spec fn lookup(&self, value: HandleValue, kind: Option<ObjectType>, rights: u32)
        -> ZxResult<Handle> {
        if !self@.dom().contains(value) {
            Err(ZxError::BAD_HANDLE)
        } else if kind matches Some(k) && self@[value].kind != k {
            Err(ZxError::WRONG_TYPE)
        } else if !self@[value].rights.contains_spec(rights) {
            Err(ZxError::ACCESS_DENIED)
        } else {
            Ok(self@[value])
        }
    }

    /// A table without handles.
    pub fn new() -> (t: Self)
        ensures
            t.wf(),
            t@ == Map::<HandleValue, Handle>::empty(),
            t.entries().len() == 0,
            t.next_value() == 1,
    {
        HandleTable { entries: Vec::new(), next: 1 }
    }

    /// Whether the table has used up its values.
    pub fn is_full(&self) -> (r: bool)
        ensures
            r == (self.next_value() == u32::MAX),
    {
        self.next == u32::MAX
    }

    /// Number of handles.
    pub fn len(&self) -> (n: usize)
        ensures
            n == self.entries().len(),
    {
        self.entries.len()
    }

    /// Line `i` of the table.
    pub fn entry(&self, i: usize) -> (e: HandleEntry)
        requires
            i < self.entries().len(),
        ensures
            e == self.entries()[i as int],
    {
        self.entries[i]
    }

    /// Position of the line with the value `value`, if there is one.
    fn position(&self, value: HandleValue) -> (r: Option<usize>)
        requires
            self.wf(),
        ensures
            r is Some <==> self@.dom().contains(value),
            r matches Some(i) ==> i < self.entries().len() && self.entries()[i as int].value
                == value && self@[value] == self.entries()[i as int].handle,
    {
        proof {
            lemma_entries_map(self.entries@);
        }
        let mut i: usize = 0;
        while i < self.entries.len()
            invariant
                i <= self.entries.len(),
                self.wf(),
                forall|j: int| 0 <= j < i ==> (#[trigger] self.entries@[j]).value != value,
            decreases self.entries.len() - i,
        {
            if self.entries[i].value == value {
                proof {
                    lemma_entries_map(self.entries@);
                    assert(self.entries@[i as int].value == value);
                }
                return Some(i);
            }
            i += 1;
        }
        None
    }

    /// Puts `handle` into the table under a value that it chooses: one that
    /// is not `0` and is not in use.
    ///
    /// Fails with `NO_MEMORY`, changing nothing, when the values are used up.
    pub fn add(&mut self, handle: Handle) -> (r: ZxResult<HandleValue>)
        requires
            old(self).wf(),
        ensures
            final(self).wf(),
            r is Ok <==> old(self).next_value() < u32::MAX,
            r matches Err(e) ==> e == ZxError::NO_MEMORY && *final(self) == *old(self),
            r matches Ok(value) ==> {
                &&& value != 0
                &&& value == old(self).next_value()
                &&& !old(self)@.dom().contains(value)
                &&& final(self)@ == old(self)@.insert(value, handle)
                &&& final(self).entries() == old(self).entries().push(
                    HandleEntry { value, handle },
                )
            },
    {
        if self.next == u32::MAX {
            return Err(ZxError::NO_MEMORY);
        }
        let value: u32 = self.next;
        proof {
            lemma_entries_map(self.entries@);
        }
        self.entries.push(HandleEntry { value, handle });
        self.next = value + 1;
        proof {
            assert(self.entries@.drop_last() == old(self).entries@);
        }
        Ok(value)
    }

    /// The handle with the value `value`.
    ///
    /// Fails with `BAD_HANDLE` when the table has no such handle.
    pub fn get(&self, value: HandleValue) -> (r: ZxResult<Handle>)
        requires
            self.wf(),
        ensures
            r == if self@.dom().contains(value) {
                Ok::<Handle, ZxError>(self@[value])
            } else {
                Err::<Handle, ZxError>(ZxError::BAD_HANDLE)
            },
    {
        match self.position(value) {
            Some(i) => Ok(self.entries[i].handle),
            None => Err(ZxError::BAD_HANDLE),
        }
    }

    /// The handle with the value `value`, if its object is of class `kind`.
    ///
    /// Fails with `BAD_HANDLE` when the table has no such handle, with
    /// `WRONG_TYPE` when the object is of another class.
    pub fn get_as(&self, value: HandleValue, kind: ObjectType) -> (r: ZxResult<Handle>)
        requires
            self.wf(),
        ensures
            r == self.lookup(value, Some(kind), 0),
    {
        self.get_with_rights(value, kind, 0)
    }

    /// The handle with the value `value`, if its object is of class `kind`
    /// and it carries all rights of the mask `rights`.
    ///
    /// Fails with `BAD_HANDLE` when the table has no such handle, with
    /// `WRONG_TYPE` when the object is of another class, with
    /// `ACCESS_DENIED` when a right is missing.
    pub fn get_with_rights(&self, value: HandleValue, kind: ObjectType, rights: u32) -> (r:
        ZxResult<Handle>)
        requires
            self.wf(),
        ensures
            r == self.lookup(value, Some(kind), rights),
    {
        match self.position(value) {
            Some(i) => {
                let handle: Handle = self.entries[i].handle;
                if handle.kind != kind {
                    Err(ZxError::WRONG_TYPE)
                } else if !handle.rights.contains(rights) {
                    Err(ZxError::ACCESS_DENIED)
                } else {
                    Ok(handle)
                }
            },
            None => Err(ZxError::BAD_HANDLE),
        }
    }

    /// Takes the handle with the value `value` out of the table and returns
    /// it.
    ///
    /// Fails with `BAD_HANDLE`, changing nothing, when the table has no such
    /// handle.
    pub fn remove(&mut self, value: HandleValue) -> (r: ZxResult<Handle>)
        requires
            old(self).wf(),
        ensures
            final(self).wf(),
            final(self).next_value() == old(self).next_value(),
            r == if old(self)@.dom().contains(value) {
                Ok::<Handle, ZxError>(old(self)@[value])
            } else {
                Err::<Handle, ZxError>(ZxError::BAD_HANDLE)
            },
            r is Err ==> *final(self) == *old(self),
            r is Ok ==> final(self)@ == old(self)@.remove(value) && exists|i: int|
                0 <= i < old(self).entries().len() && final(self).entries() == old(self).entries().remove(i) && old(self).entries()[i].value == value,
    {
        match self.position(value) {
            Some(i) => {
                proof {
                    lemma_entries_map_remove(self.entries@, i as int);
                }
                let e = self.entries.remove(i);
                proof {
                    assert(final(self).entries() == old(self).entries().remove(i as int));
                }
                Ok(e.handle)
            },
            None => Err(ZxError::BAD_HANDLE),
        }
    }
}

} // verus!
