//! The permission bits of a segment, as the ELF parser hands them out, and
//! what they come to for a mapping.
use vstd::prelude::*;
use crate::vm::MMUFlags;

verus! {

/// `Flags` of the ELF parser: one public field, the permission bits of a
/// segment as the image holds them.
#[verifier::external_type_specification]
pub struct ExFlags(xmas_elf::program::Flags);

/// `Flags::is_execute` of the ELF parser tells whether bit 0 of the flags
/// is set.
pub assume_specification[ xmas_elf::program::Flags::is_execute ](
    f: &xmas_elf::program::Flags,
) -> (r: bool)
    ensures
        r == (f.0 & 0x1 == 0x1),
;

/// `Flags::is_write` of the ELF parser tells whether bit 1 of the flags is
/// set.
pub assume_specification[ xmas_elf::program::Flags::is_write ](
    f: &xmas_elf::program::Flags,
) -> (r: bool)
    ensures
        r == (f.0 & 0x2 == 0x2),
;

/// `Flags::is_read` of the ELF parser tells whether bit 2 of the flags is
/// set.
pub assume_specification[ xmas_elf::program::Flags::is_read ](
    f: &xmas_elf::program::Flags,
) -> (r: bool)
    ensures
        r == (f.0 & 0x4 == 0x4),
;

/// The mapping permissions that a segment with the flags `f` asks for.
pub open spec fn mmu_bits(f: xmas_elf::program::Flags) -> u32 {
    (if f.0 & 0x4 == 0x4 {
        1u32
    } else {
        0u32
    }) | (if f.0 & 0x2 == 0x2 {
        2u32
    } else {
        0u32
    }) | (if f.0 & 0x1 == 0x1 {
        4u32
    } else {
        0u32
    })
}

/// The mapping permissions that a segment with the flags `flags` asks for:
/// read for read, write for write, execute for execute, and nothing else.
pub fn to_mmu_flags(flags: &xmas_elf::program::Flags) -> (r: MMUFlags)
    ensures
        r.bits == mmu_bits(*flags),
        r.contains_spec(MMUFlags::READ) == (flags.0 & 0x4 == 0x4),
        r.contains_spec(MMUFlags::WRITE) == (flags.0 & 0x2 == 0x2),
        r.contains_spec(MMUFlags::EXECUTE) == (flags.0 & 0x1 == 0x1),
        r.bits & !7u32 == 0,
{
    let mut out = MMUFlags::empty();
    if flags.is_read() {
        out.insert(MMUFlags::READ);
    }
    if flags.is_write() {
        out.insert(MMUFlags::WRITE);
    }
    if flags.is_execute() {
        out.insert(MMUFlags::EXECUTE);
    }
    proof {
        let r: u32 = if flags.0 & 0x4 == 0x4 {
            1
        } else {
            0
        };
        let w: u32 = if flags.0 & 0x2 == 0x2 {
            2
        } else {
            0
        };
        let x: u32 = if flags.0 & 0x1 == 0x1 {
            4
        } else {
            0
        };
        assert(0u32 | r == r) by (bit_vector);
        assert(0u32 | r | w == r | w) by (bit_vector);
        assert(0u32 | w == w) by (bit_vector);
        assert(0u32 | x == x) by (bit_vector);
        assert(r | 0u32 == r) by (bit_vector);
        assert((r | w) | 0u32 == r | w) by (bit_vector);
        assert((r == 0 || r == 1) && (w == 0 || w == 2) && (x == 0 || x == 4) ==> ((r | w | x) & 1
            == 1 <==> r == 1) && ((r | w | x) & 2 == 2 <==> w == 2) && ((r | w | x) & 4 == 4 <==> x
            == 4) && (r | w | x) & !7u32 == 0) by (bit_vector);
    }
    out
}

} // verus!
