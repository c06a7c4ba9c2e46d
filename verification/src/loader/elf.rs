//! What the loader reads of an ELF image, and what it works out from it.
use vstd::prelude::*;
use crate::vm::{pages_spec, PAGE_SIZE};

verus! {

/// The kinds of program header.
#[derive(Clone, Copy, Debug, PartialEq, Eq, Structural)]
pub enum SegmentType {
    /// Unused entry.
    Null,
    /// Bytes to be placed in memory.
    Load,
    /// Dynamic linking information.
    Dynamic,
    /// Path of the interpreter.
    Interp,
    /// Auxiliary notes.
    Note,
    /// Reserved.
    ShLib,
    /// The program header table itself.
    Phdr,
    /// Thread-local storage template.
    Tls,
    /// Range to make read-only after relocation.
    GnuRelro,
    /// A kind that an operating system defines.
    OsSpecific(u32),
    /// A kind that a processor defines.
    ProcessorSpecific(u32),
}

/// One program header, with the bytes that the image holds for it.
pub struct ProgramHeader {
    /// Kind of the entry.
    pub type_: SegmentType,
    /// Permissions of the segment.
    pub flags: xmas_elf::program::Flags,
    /// Offset of the segment's bytes in the image.
    pub offset: u64,
    /// Address of the segment relative to the load base.
    pub virtual_addr: u64,
    /// Number of bytes that the image holds for the segment.
    pub file_size: u64,
    /// Number of bytes that the segment takes in memory.
    pub mem_size: u64,
    /// The bytes that the image holds for the segment, where they are plain
    /// bytes.
    pub data: Option<Vec<u8>>,
}

/// One entry of a symbol table.
pub struct Symbol {
    /// Name of the symbol.
    pub name: String,
    /// Value of the symbol: its address relative to the load base.
    pub value: u64,
    /// Index of the section that defines the symbol; `0` for none.
    pub shndx: u16,
}

/// One entry of the dynamic symbol table.
pub struct DynSymbol {
    /// Name of the symbol, where the image gives one that can be read.
    pub name: Option<String>,
    /// Value of the symbol: its address relative to the load base.
    pub value: u64,
    /// Index of the section that defines the symbol; `0` for none.
    pub shndx: u16,
}

/// One relocation with addend.
#[derive(Clone, Copy, Debug, PartialEq, Eq, Structural)]
pub struct RelaEntry {
    /// Where to store, relative to the load base.
    pub offset: u64,
    /// Kind of the relocation.
    pub type_: u32,
    /// Index of the symbol that the relocation refers to.
    pub symbol_index: u32,
    /// The addend.
    pub addend: u64,
}

/// How the search for a section of the image ended.
pub enum Section<T> {
    /// The image has no section of that name.
    NotFound,
    /// The section's bytes cannot be read.
    Corrupted,
    /// The section is of another kind than its name says.
    Bad,
    /// The entries of the section.
    Entries(Vec<T>),
}

/// An ELF image as the loader sees it.
pub struct ElfFile {
    /// Entry point, relative to the load base.
    pub entry_point: u64,
    /// Offset of the program header table in the image.
    pub ph_offset: u64,
    /// Size of one program header.
    pub ph_entry_size: u16,
    /// Number of program headers.
    pub ph_count: u16,
    /// The program headers, in table order.
    pub program_headers: Vec<ProgramHeader>,
    /// The entries of all symbol tables, in section order.
    pub symbols: Vec<Symbol>,
    /// The section `.dynsym`.
    pub dynsym: Section<DynSymbol>,
    /// The section `.rela.dyn`.
    pub rela_dyn: Section<RelaEntry>,
}

/// Why an image could not be loaded.
#[derive(Clone, Copy, Debug, PartialEq, Eq, Structural)]
pub enum LoadError {
    /// The image has no segment to load.
    NoLoadSegment,
    /// A segment's address or size is beyond the machine's address range.
    OutOfRange,
    /// The image does not define the symbol of the system call entry.
    EntrySymbolNotFound,
    /// The symbol of the system call entry lies in no segment that is loaded.
    EntrySymbolUnmapped,
    /// The image has no section `.rela.dyn`.
    RelaNotFound,
    /// The section `.rela.dyn` cannot be read.
    RelaCorrupted,
    /// The section `.rela.dyn` holds no relocations with addend.
    RelaBad,
    /// The image has no section `.dynsym`.
    DynsymNotFound,
    /// The section `.dynsym` cannot be read.
    DynsymCorrupted,
    /// The section `.dynsym` holds no dynamic symbols.
    DynsymBad,
    /// The given relocation names a symbol that the table does not have.
    BadSymbolIndex(u32),
    /// The symbol with the given index is needed and not defined.
    UndefinedSymbol(u32),
    /// The relocation kind with the given number is not handled.
    UnknownRelocation(u32),
    /// The argument list is empty, or the initial stack does not fit.
    BadArguments,
    /// A kernel operation failed with the given status.
    Kernel(crate::error::ZxError),
}

impl LoadError {
    /// The kind of failure that the reason comes to: the kernel's own
    /// status where a kernel operation failed, `INTERNAL` where the tables
    /// of the image are missing or broken, `NOT_SUPPORTED` for a relocation
    /// of a kind that is not handled, and `INVALID_ARGS` for an image or
    /// arguments that cannot be loaded as they are.
    pub fn status(&self) -> (e: crate::error::ZxError)
        ensures
            e == match *self {
                LoadError::Kernel(k) => k,
                LoadError::NoLoadSegment | LoadError::OutOfRange | LoadError::BadArguments
                | LoadError::EntrySymbolNotFound
                | LoadError::EntrySymbolUnmapped => crate::error::ZxError::INVALID_ARGS,
                LoadError::UnknownRelocation(_) => crate::error::ZxError::NOT_SUPPORTED,
                _ => crate::error::ZxError::INTERNAL,
            },
    {
        match self {
            LoadError::Kernel(k) => *k,
            LoadError::NoLoadSegment => crate::error::ZxError::INVALID_ARGS,
            LoadError::OutOfRange => crate::error::ZxError::INVALID_ARGS,
            LoadError::BadArguments => crate::error::ZxError::INVALID_ARGS,
            LoadError::EntrySymbolNotFound => crate::error::ZxError::INVALID_ARGS,
            LoadError::EntrySymbolUnmapped => crate::error::ZxError::INVALID_ARGS,
            LoadError::UnknownRelocation(_) => crate::error::ZxError::NOT_SUPPORTED,
            _ => crate::error::ZxError::INTERNAL,
        }
    }

    /// The reason in words.
    pub fn message(&self) -> (s: &'static str)
        ensures
            s@ == match *self {
                LoadError::NoLoadSegment => "no segment to load"@,
                LoadError::OutOfRange => "address out of range"@,
                LoadError::EntrySymbolNotFound => "failed to locate syscall entry"@,
                LoadError::EntrySymbolUnmapped => "syscall entry outside the segments"@,
                LoadError::RelaNotFound => ".rela.dyn not found"@,
                LoadError::RelaCorrupted => "corrupted .rela.dyn"@,
                LoadError::RelaBad => "bad .rela.dyn"@,
                LoadError::DynsymNotFound => ".dynsym not found"@,
                LoadError::DynsymCorrupted => "corrupted .dynsym"@,
                LoadError::DynsymBad => "bad .dynsym"@,
                LoadError::BadSymbolIndex(_) => "symbol index out of range"@,
                LoadError::UndefinedSymbol(_) => "need to find symbol"@,
                LoadError::UnknownRelocation(_) => "unknown relocation type"@,
                LoadError::BadArguments => "bad arguments or stack too small"@,
                LoadError::Kernel(_) => "kernel operation failed"@,
            },
    {
        match self {
            LoadError::NoLoadSegment => "no segment to load",
            LoadError::OutOfRange => "address out of range",
            LoadError::EntrySymbolNotFound => "failed to locate syscall entry",
            LoadError::EntrySymbolUnmapped => "syscall entry outside the segments",
            LoadError::RelaNotFound => ".rela.dyn not found",
            LoadError::RelaCorrupted => "corrupted .rela.dyn",
            LoadError::RelaBad => "bad .rela.dyn",
            LoadError::DynsymNotFound => ".dynsym not found",
            LoadError::DynsymCorrupted => "corrupted .dynsym",
            LoadError::DynsymBad => "bad .dynsym",
            LoadError::BadSymbolIndex(_) => "symbol index out of range",
            LoadError::UndefinedSymbol(_) => "need to find symbol",
            LoadError::UnknownRelocation(_) => "unknown relocation type",
            LoadError::BadArguments => "bad arguments or stack too small",
            LoadError::Kernel(_) => "kernel operation failed",
        }
    }
}

/// Relocation kind: store the address of a symbol in the global offset
/// table.
pub const REL_GOT: u32 = 6;

/// Relocation kind: store the address of a function for lazy binding.
pub const REL_PLT: u32 = 7;

/// Relocation kind: store the load base plus the addend.
pub const REL_RELATIVE: u32 = 8;

/// One store that relocation asks for: the 8 bytes of `value`, lowest byte
/// first, at the address `addr`.
#[derive(Clone, Copy, Debug, PartialEq, Eq, Structural)]
pub struct Patch {
    /// Where to store.
    pub addr: u64,
    /// What to store.
    pub value: u64,
}

/// The sum of `a` and `b` in 64-bit arithmetic, which wraps around.
pub open spec fn wrap64(a: int, b: int) -> u64 {
    ((a + b) % 0x1_0000_0000_0000_0000) as u64
}

/// The sum of `a` and `b` in 64-bit arithmetic, which wraps around.
pub fn wrapping_sum(a: u64, b: u64) -> (r: u64)
    ensures
        r == wrap64(a as int, b as int),
{
    if a <= u64::MAX - b {
        a + b
    } else {
        a - (u64::MAX - b) - 1
    }
}

/// Number of pages that the image needs up to the end of the segment `ph`,
/// if the segment is to be loaded; `0` otherwise.
pub open spec fn load_pages(ph: ProgramHeader) -> int {
    if ph.type_ == SegmentType::Load {
        pages_spec(ph.virtual_addr + ph.mem_size)
    } else {
        0
    }
}

/// The greatest of [`load_pages`] over `phs`.
pub open spec fn max_load_pages(phs: Seq<ProgramHeader>) -> int
    decreases phs.len(),
{
    if phs.len() == 0 {
        0
    } else {
        let rest = max_load_pages(phs.drop_last());
        if load_pages(phs.last()) > rest {
            load_pages(phs.last())
        } else {
            rest
        }
    }
}

/// Whether one of `phs` is to be loaded.
pub open spec fn has_load(phs: Seq<ProgramHeader>) -> bool {
    exists|i: int| 0 <= i < phs.len() && (#[trigger] phs[i]).type_ == SegmentType::Load
}

/// The store that the relocation `entry` asks for when the image is loaded
/// at `base`, or why it cannot be done.
pub open spec fn patch_of(entry: RelaEntry, dynsym: Seq<DynSymbol>, base: u64) -> Result<
    Patch,
    LoadError,
> {
    if entry.type_ == REL_GOT || entry.type_ == REL_PLT {
        if entry.symbol_index >= dynsym.len() {
            Err(LoadError::BadSymbolIndex(entry.symbol_index))
        } else if dynsym[entry.symbol_index as int].shndx == 0 {
            Err(LoadError::UndefinedSymbol(entry.symbol_index))
        } else {
            Ok(
                Patch {
                    addr: wrap64(base as int, entry.offset as int),
                    value: wrap64(
                        wrap64(base as int, dynsym[entry.symbol_index as int].value as int) as int,
                        entry.addend as int,
                    ),
                },
            )
        }
    } else if entry.type_ == REL_RELATIVE {
        Ok(
            Patch {
                addr: wrap64(base as int, entry.offset as int),
                value: wrap64(base as int, entry.addend as int),
            },
        )
    } else {
        Err(LoadError::UnknownRelocation(entry.type_))
    }
}

/// The stores that the first `n` relocations of `entries` ask for, in
/// their order, or why the first one that cannot be done cannot.
pub open spec fn patches_of(entries: Seq<RelaEntry>, dynsym: Seq<DynSymbol>, base: u64, n: int)
    -> Result<Seq<Patch>, LoadError>
    decreases n,
{
    if n <= 0 {
        Ok(Seq::empty())
    } else {
        match patches_of(entries, dynsym, base, n - 1) {
            Err(e) => Err(e),
            Ok(done) => match patch_of(entries[n - 1], dynsym, base) {
                Err(e) => Err(e),
                Ok(p) => Ok(done.push(p)),
            },
        }
    }
}

impl ElfFile {
    /// What [`ElfExt::load_segment_size`] returns.
    pub open spec fn load_size(&self) -> Result<usize, LoadError> {
        if !has_load(self.program_headers@) {
            Err(LoadError::NoLoadSegment)
        } else if max_load_pages(self.program_headers@) * 4096 > usize::MAX {
            Err(LoadError::OutOfRange)
        } else {
            Ok((max_load_pages(self.program_headers@) * 4096) as usize)
        }
    }

    /// Whether symbol `i` is the first one with the name `name`.
    pub open spec fn is_first_named(&self, i: int, name: Seq<char>) -> bool {
        &&& 0 <= i < self.symbols@.len()
        &&& self.symbols@[i].name@ == name
        &&& forall|j: int| 0 <= j < i ==> (#[trigger] self.symbols@[j]).name@ != name
    }

    /// What [`ElfExt::relocate`] returns for the load base `base`.
    pub open spec fn relocations(&self, base: u64) -> Result<Seq<Patch>, LoadError> {
        match self.rela_dyn {
            Section::NotFound => Err(LoadError::RelaNotFound),
            Section::Corrupted => Err(LoadError::RelaCorrupted),
            Section::Bad => Err(LoadError::RelaBad),
            Section::Entries(entries) => match self.dynsym {
                Section::NotFound => Err(LoadError::DynsymNotFound),
                Section::Corrupted => Err(LoadError::DynsymCorrupted),
                Section::Bad => Err(LoadError::DynsymBad),
                Section::Entries(dynsym) => patches_of(
                    entries@,
                    dynsym@,
                    base,
                    entries@.len() as int,
                ),
            },
        }
    }
}

/// What the loader works out from an image.
pub trait ElfExt {
    /// Get total size of all LOAD segments.
    fn load_segment_size(&self) -> Result<usize, LoadError>;

    /// Get address of the given `symbol`.
    fn get_symbol_address(&self, symbol: &str) -> Option<u64>;

    /// The dynamic symbol table.
    fn dynsym(&self) -> Result<&Vec<DynSymbol>, LoadError>;

    /// The stores that relocation asks for at the load base `base`.
    fn relocate(&self, base: u64) -> Result<Vec<Patch>, LoadError>;
}

impl ElfExt for ElfFile {
    /// The size of the range that the image needs from its load base on:
    /// for each segment to load, the number of pages up to its end; of
    /// those the greatest; times the page size.
    ///
    /// Returns `NoLoadSegment` when the image has no segment to load,
    /// `OutOfRange` when the size does not fit the machine word.
    fn load_segment_size(&self) -> (r: Result<usize, LoadError>)
        ensures
            r == self.load_size(),
    {
        let mut most: u64 = 0;
        let mut found: bool = false;
        let mut i: usize = 0;
        while i < self.program_headers.len()
            invariant
                i <= self.program_headers.len(),
                found == has_load(self.program_headers@.subrange(0, i as int)),
                most == max_load_pages(self.program_headers@.subrange(0, i as int)),
                most <= 0x20_0000_0000_0000,
            decreases self.program_headers.len() - i,
        {
            let ph = &self.program_headers[i];
            let ghost before = self.program_headers@.subrange(0, i as int);
            let ghost now = self.program_headers@.subrange(0, i + 1);
            proof {
                assert(now.drop_last() == before);
                assert(now.last() == self.program_headers@[i as int]);
                if has_load(before) {
                    let j = choose|j: int|
                        0 <= j < before.len() && (#[trigger] before[j]).type_ == SegmentType::Load;
                    assert(now[j].type_ == SegmentType::Load);
                }
                if has_load(now) && ph.type_ != SegmentType::Load {
                    let j = choose|j: int|
                        0 <= j < now.len() && (#[trigger] now[j]).type_ == SegmentType::Load;
                    assert(before[j].type_ == SegmentType::Load);
                }
            }
            if ph.type_ == SegmentType::Load {
                proof {
                    assert(now[i as int].type_ == SegmentType::Load);
                }
                found = true;
                let end: u128 = ph.virtual_addr as u128 + ph.mem_size as u128;
                let count: u128 = (end + 4095) / 4096;
                if count > most as u128 {
                    most = count as u64;
                }
            }
            i += 1;
        }
        proof {
            assert(self.program_headers@.subrange(0, i as int) == self.program_headers@);
        }
        if !found {
            Err(LoadError::NoLoadSegment)
        } else if most > (usize::MAX / PAGE_SIZE) as u64 {
            Err(LoadError::OutOfRange)
        } else {
            Ok(most as usize * PAGE_SIZE)
        }
    }

    /// The value of the first symbol named `symbol` in the symbol tables.
    fn get_symbol_address(&self, symbol: &str) -> (r: Option<u64>)
        ensures
            r is None <==> forall|i: int|
                0 <= i < self.symbols@.len() ==> (#[trigger] self.symbols@[i]).name@ != symbol@,
            r matches Some(v) ==> exists|i: int| #[trigger]
                self.is_first_named(i, symbol@) && self.symbols@[i].value == v,
    {
        let wanted: String = symbol.to_owned();
        let mut i: usize = 0;
        while i < self.symbols.len()
            invariant
                i <= self.symbols.len(),
                wanted@ == symbol@,
                forall|j: int| 0 <= j < i ==> (#[trigger] self.symbols@[j]).name@ != symbol@,
            decreases self.symbols.len() - i,
        {
            if self.symbols[i].name == wanted {
                proof {
                    assert(self.is_first_named(i as int, symbol@));
                }
                return Some(self.symbols[i].value);
            }
            i += 1;
        }
        None
    }

    /// The dynamic symbol table, or why the image has none.
    fn dynsym(&self) -> (r: Result<&Vec<DynSymbol>, LoadError>)
        ensures
            match self.dynsym {
                Section::NotFound => r == Err::<&Vec<DynSymbol>, LoadError>(
                    LoadError::DynsymNotFound,
                ),
                Section::Corrupted => r == Err::<&Vec<DynSymbol>, LoadError>(
                    LoadError::DynsymCorrupted,
                ),
                Section::Bad => r == Err::<&Vec<DynSymbol>, LoadError>(LoadError::DynsymBad),
                Section::Entries(v) => r == Ok::<&Vec<DynSymbol>, LoadError>(&v),
            },
    {
        match &self.dynsym {
            Section::NotFound => Err(LoadError::DynsymNotFound),
            Section::Corrupted => Err(LoadError::DynsymCorrupted),
            Section::Bad => Err(LoadError::DynsymBad),
            Section::Entries(v) => Ok(v),
        }
    }

    /// The stores that the relocations of `.rela.dyn` ask for when the
    /// image is loaded at `base`, in the order of the section. A relative
    /// relocation stores `base + addend`; one against the global offset
    /// table or for lazy binding stores `base + value + addend` for the
    /// value of its symbol. Sums wrap around at 64 bits.
    ///
    /// Returns the reason where a section is missing or unusable, a
    /// relocation refers to a symbol that the table lacks or that no
    /// section defines, or a relocation is of another kind.
    fn relocate(&self, base: u64) -> (r: Result<Vec<Patch>, LoadError>)
        ensures
            r is Ok <==> self.relocations(base) is Ok,
            r matches Err(e) ==> self.relocations(base) == Err::<Seq<Patch>, LoadError>(e),
            r matches Ok(patches) ==> self.relocations(base) == Ok::<Seq<Patch>, LoadError>(
                patches@,
            ),
    {
        let entries: &Vec<RelaEntry> = match &self.rela_dyn {
            Section::NotFound => {
                return Err(LoadError::RelaNotFound);
            },
            Section::Corrupted => {
                return Err(LoadError::RelaCorrupted);
            },
            Section::Bad => {
                return Err(LoadError::RelaBad);
            },
            Section::Entries(v) => v,
        };
        let dynsym: &Vec<DynSymbol> = match self.dynsym() {
            Ok(v) => v,
            Err(e) => {
                return Err(e);
            },
        };
        let mut patches: Vec<Patch> = Vec::new();
        let mut i: usize = 0;
        while i < entries.len()
            invariant
                i <= entries.len(),
                self.rela_dyn is Entries,
                self.rela_dyn->Entries_0@ == entries@,
                self.dynsym is Entries,
                self.dynsym->Entries_0@ == dynsym@,
                patches_of(entries@, dynsym@, base, i as int) == Ok::<Seq<Patch>, LoadError>(
                    patches@,
                ),
            decreases entries.len() - i,
        {
            let entry: RelaEntry = entries[i];
            let patch: Patch = if entry.type_ == REL_GOT || entry.type_ == REL_PLT {
                if entry.symbol_index as usize >= dynsym.len() {
                    proof {
                        lemma_patches_fail(entries@, dynsym@, base, i as int, entries@.len() as int);
                    }
                    return Err(LoadError::BadSymbolIndex(entry.symbol_index));
                }
                let sym = &dynsym[entry.symbol_index as usize];
                if sym.shndx == 0 {
                    proof {
                        lemma_patches_fail(entries@, dynsym@, base, i as int, entries@.len() as int);
                    }
                    return Err(LoadError::UndefinedSymbol(entry.symbol_index));
                }
                Patch {
                    addr: wrapping_sum(base, entry.offset),
                    value: wrapping_sum(wrapping_sum(base, sym.value), entry.addend),
                }
            } else if entry.type_ == REL_RELATIVE {
                Patch {
                    addr: wrapping_sum(base, entry.offset),
                    value: wrapping_sum(base, entry.addend),
                }
            } else {
                proof {
                    lemma_patches_fail(entries@, dynsym@, base, i as int, entries@.len() as int);
                }
                return Err(LoadError::UnknownRelocation(entry.type_));
            };
            patches.push(patch);
            i += 1;
        }
        Ok(patches)
    }
}

/// Where relocation `i` cannot be done and those before it can, the whole
/// fails for the reason of relocation `i`.
pub proof fn lemma_patches_fail(
    entries: Seq<RelaEntry>,
    dynsym: Seq<DynSymbol>,
    base: u64,
    i: int,
    n: int,
)
    requires
        0 <= i < n <= entries.len(),
        patches_of(entries, dynsym, base, i) is Ok,
        patch_of(entries[i], dynsym, base) is Err,
    ensures
        patches_of(entries, dynsym, base, n) == Err::<Seq<Patch>, LoadError>(
            patch_of(entries[i], dynsym, base)->Err_0,
        ),
    decreases n,
{
    if n > i + 1 {
        lemma_patches_fail(entries, dynsym, base, i, n - 1);
    }
}

} // verus!
