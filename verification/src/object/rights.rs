//! Rights: what a handle allows its holder to do with the object.
use vstd::prelude::*;

verus! {

/// A set of rights, one bit each.
#[derive(Clone, Copy, Debug, PartialEq, Eq, Structural)]
pub struct Rights {
    /// The bits of the rights in the set.
    pub bits: u32,
}

impl Rights {
    /// The handle may be duplicated.
    pub const DUPLICATE: u32 = 0x1;

    /// The handle may be sent to another process.
    pub const TRANSFER: u32 = 0x2;

    /// The object may be read from or mapped readable.
    pub const READ: u32 = 0x4;

    /// The object may be written to or mapped writable.
    pub const WRITE: u32 = 0x8;

    /// The object may be mapped executable.
    pub const EXECUTE: u32 = 0x10;

    /// The object may be mapped or pinned.
    pub const MAP: u32 = 0x20;

    /// Properties may be read.
    pub const GET_PROPERTY: u32 = 0x40;

    /// Properties may be changed.
    pub const SET_PROPERTY: u32 = 0x80;

    /// Signals may be raised on the object.
    pub const SIGNAL: u32 = 0x1000;

    /// Signals may be raised on the object's peer.
    pub const SIGNAL_PEER: u32 = 0x2000;

    /// The object may be waited on.
    pub const WAIT: u32 = 0x4000;

    /// The object may be inspected.
    pub const INSPECT: u32 = 0x8000;

    /// Stands for "the rights of the handle that is duplicated".
    pub const SAME_RIGHTS: u32 = 0x8000_0000;

    /// `TRANSFER`, `DUPLICATE`, `WAIT` and `INSPECT`.
    pub const BASIC: u32 = 0xC003;

    /// `READ` and `WRITE`.
    pub const IO: u32 = 0xC;

    /// What a new channel handle carries.
    pub const DEFAULT_CHANNEL: u32 = 0xF00E;

    /// What a new memory object handle carries.
    pub const DEFAULT_VMO: u32 = 0xD0EF;

    /// What a new address region handle carries.
    pub const DEFAULT_VMAR: u32 = 0xC003;

    /// What a new bus transaction initiator handle carries.
    pub const DEFAULT_BTI: u32 = 0xC02F;

    /// What a new resource handle carries.
    pub const DEFAULT_RESOURCE: u32 = 0xC00B;

    /// Whether every right in the mask `other` is in `self`.
    pub open spec fn contains_spec(&self, other: u32) -> bool {
        self.bits & other == other
    }

    /// The set without any right.
    pub fn empty() -> (r: Rights)
        ensures
            r.bits == 0,
    {
        Rights { bits: 0 }
    }

    /// The set with the given bits.
    pub fn from_bits(bits: u32) -> (r: Rights)
        ensures
            r.bits == bits,
    {
        Rights { bits }
    }

    /// Whether every right in the mask `other` is in `self`.
    pub fn contains(&self, other: u32) -> (r: bool)
        ensures
            r == self.contains_spec(other),
    {
        self.bits & other == other
    }

    /// The rights that are in `self` or in the mask `other`.
    pub fn union(&self, other: u32) -> (r: Rights)
        ensures
            r.bits == self.bits | other,
    {
        Rights { bits: self.bits | other }
    }
}

} // verus!
