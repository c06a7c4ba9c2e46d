//! Device-facing objects: resources, IOMMUs, bus transaction initiators and
//! pinned memory tokens.
use vstd::prelude::*;
use crate::error::{ZxError, ZxResult};
use crate::object::{KObjectBase, KoID};
use crate::vm::DevVAddr;

verus! {

/// What a resource gives access to.
#[derive(Clone, Copy, Debug, PartialEq, Eq, Structural)]
pub enum ResourceKind {
    /// Memory-mapped device registers.
    MMIO,
    /// Interrupts.
    IRQ,
    /// Input and output registers that are reached by number.
    IOPORT,
    /// The hypervisor.
    HYPERVISOR,
    /// Everything.
    ROOT,
    /// Making memory executable.
    VMEX,
    /// Secure monitor calls.
    SMC,
}

/// A resource: the right to use a class of privileged operations.
pub struct Resource {
    /// Identifier, name and signals.
    pub base: KObjectBase,
    /// What the resource gives access to.
    pub kind: ResourceKind,
}

impl Resource {
    /// A resource of the given kind.
    pub fn create(koid: KoID, name: &[u8], kind: ResourceKind) -> (r: Resource)
        ensures
            r.base.koid() == koid,
            r.base.wf(),
            r.kind == kind,
    {
        Resource { base: KObjectBase::with_name(koid, name), kind }
    }

    /// Whether the resource stands for the kind `kind`: it is of that kind
    /// or it is the root resource. Fails with `WRONG_TYPE` otherwise.
    pub fn validate(&self, kind: ResourceKind) -> (r: ZxResult)
        ensures
            r == if self.kind == kind || self.kind == ResourceKind::ROOT {
                Ok::<(), ZxError>(())
            } else {
                Err::<(), ZxError>(ZxError::WRONG_TYPE)
            },
    {
        if self.kind == kind || self.kind == ResourceKind::ROOT {
            Ok(())
        } else {
            Err(ZxError::WRONG_TYPE)
        }
    }
}

/// An input/output memory management unit that maps every address to
/// itself.
pub struct Iommu {
    /// Identifier, name and signals.
    pub base: KObjectBase,
    /// The kind of unit that the creator asked for.
    pub type_: u32,
    /// The descriptor that the creator passed.
    pub desc: Vec<u8>,
}

impl Iommu {
    /// A unit of the kind `type_` described by `desc`.
    pub fn create(koid: KoID, type_: u32, desc: Vec<u8>) -> (iommu: Iommu)
        ensures
            iommu.base.koid() == koid,
            iommu.base.wf(),
            iommu.type_ == type_,
            iommu.desc == desc,
    {
        Iommu { base: KObjectBase::new(koid), type_, desc }
    }

    /// Whether transactions through this unit can be told apart by
    /// initiator: always.
    pub open spec fn valid_bus_txn_id(&self) -> bool {
        true
    }

    /// Whether transactions through this unit can be told apart by
    /// initiator: always.
    pub fn is_valid_bus_txn_id(&self) -> (r: bool)
        ensures
            r == self.valid_bus_txn_id(),
            r,
    {
        true
    }

    /// The least number of bytes that the unit maps in one piece.
    pub fn minimum_contiguity(&self) -> (n: usize)
        ensures
            n == 4096,
    {
        4096
    }
}

/// A bus transaction initiator: the identity under which a device reaches
/// memory.
pub struct Bti {
    /// Identifier, name and signals.
    pub base: KObjectBase,
    /// Identifier of the unit that the initiator goes through.
    pub iommu: KoID,
    /// The initiator's number on its bus.
    pub bti_id: u64,
    /// Identifiers of the tokens for memory pinned through the initiator.
    pub pmts: Vec<KoID>,
}

impl Bti {
    /// An initiator with the number `bti_id` behind the unit `iommu`.
    pub fn create(koid: KoID, iommu: KoID, bti_id: u64) -> (bti: Bti)
        ensures
            bti.base.koid() == koid,
            bti.base.wf(),
            bti.iommu == iommu,
            bti.bti_id == bti_id,
            bti.pmts@.len() == 0,
    {
        Bti { base: KObjectBase::new(koid), iommu, bti_id, pmts: Vec::new() }
    }
}

/// Options of a pin request, one bit each.
#[derive(Clone, Copy, Debug, PartialEq, Eq, Structural)]
pub struct BtiOptions {
    /// The option bits.
    pub bits: u32,
}

impl BtiOptions {
    /// The device may read the memory.
    pub const PERM_READ: u32 = 0x1;

    /// The device may write the memory.
    pub const PERM_WRITE: u32 = 0x2;

    /// The device may execute from the memory.
    pub const PERM_EXECUTE: u32 = 0x4;

    /// The addresses are to be given one per piece of minimum contiguity.
    pub const COMPRESS: u32 = 0x8;

    /// The memory is one piece and one address is to be given.
    pub const CONTIGUOUS: u32 = 0x10;

    /// All options.
    pub const ALL: u32 = 0x1f;

    /// The options among the bits `bits`; bits that stand for no option are
    /// dropped.
    pub fn from_bits_truncate(bits: u32) -> (o: BtiOptions)
        ensures
            o.bits == bits & 0x1f,
    {
        BtiOptions { bits: bits & BtiOptions::ALL }
    }

    /// Whether every option of the mask `other` is set.
    pub open spec fn contains_spec(&self, other: u32) -> bool {
        self.bits & other == other
    }

    /// Whether every option of the mask `other` is set.
    pub fn contains(&self, other: u32) -> (r: bool)
        ensures
            r == self.contains_spec(other),
    {
        self.bits & other == other
    }
}

/// What a device may do with pinned memory, one bit each.
#[derive(Clone, Copy, Debug, PartialEq, Eq, Structural)]
pub struct IommuPerms {
    /// The permission bits.
    pub bits: u32,
}

impl IommuPerms {
    /// The device may read.
    pub const PERM_READ: u32 = 0x1;

    /// The device may write.
    pub const PERM_WRITE: u32 = 0x2;

    /// The device may execute.
    pub const PERM_EXECUTE: u32 = 0x4;
}

/// The addresses that a pin request hands to its caller, given the device
/// address of every pinned page: one address for a request marked
/// contiguous, else one per page.
pub open spec fn encoded_addrs(mapped: Seq<DevVAddr>, contiguous: bool) -> Seq<DevVAddr> {
    if contiguous {
        seq![mapped[0]]
    } else {
        mapped
    }
}

/// A pinned memory token: a range of a memory object that stays where it is
/// for a device to use.
pub struct PinnedMemoryToken {
    /// Identifier, name and signals.
    pub base: KObjectBase,
    /// Identifier of the initiator that pinned the memory.
    pub bti: KoID,
    /// Identifier of the memory object.
    pub vmo: KoID,
    /// Offset of the pinned range in the memory object.
    pub offset: usize,
    /// Length of the pinned range.
    pub size: usize,
    /// What the device may do with the memory.
    pub perms: IommuPerms,
    /// The device address of every pinned page.
    pub mapped_addrs: Vec<DevVAddr>,
}

impl PinnedMemoryToken {
    /// The addresses to hand to a caller who has room for `addrs_count` of
    /// them: see [`encoded_addrs`].
    ///
    /// Fails with `INVALID_ARGS` when `addrs_count` is not the number of
    /// addresses to hand over, or when nothing was pinned.
    pub fn encode_addrs(&self, compress_results: bool, contiguous: bool, addrs_count: usize) -> (r:
        ZxResult<Vec<DevVAddr>>)
        ensures
            r is Ok <==> self.mapped_addrs@.len() > 0 && addrs_count == encoded_addrs(
                self.mapped_addrs@,
                contiguous,
            ).len(),
            r matches Err(e) ==> e == ZxError::INVALID_ARGS,
            r matches Ok(addrs) ==> addrs@ == encoded_addrs(self.mapped_addrs@, contiguous),
    {
        if self.mapped_addrs.len() == 0 {
            return Err(ZxError::INVALID_ARGS);
        }
        if contiguous {
            if addrs_count != 1 {
                return Err(ZxError::INVALID_ARGS);
            }
            let mut one: Vec<DevVAddr> = Vec::new();
            one.push(self.mapped_addrs[0]);
            proof {
                assert(one@ == seq![self.mapped_addrs@[0]]);
            }
            Ok(one)
        } else {
            if addrs_count != self.mapped_addrs.len() {
                return Err(ZxError::INVALID_ARGS);
            }
            let mut all: Vec<DevVAddr> = Vec::new();
            let mut i: usize = 0;
            while i < self.mapped_addrs.len()
                invariant
                    i <= self.mapped_addrs.len(),
                    all@ == self.mapped_addrs@.subrange(0, i as int),
                decreases self.mapped_addrs.len() - i,
            {
                all.push(self.mapped_addrs[i]);
                i += 1;
            }
            proof {
                assert(self.mapped_addrs@.subrange(0, i as int) == self.mapped_addrs@);
            }
            Ok(all)
        }
    }
}

} // verus!
