use zcore::error::ZxError;
use zcore::kernel::Kernel;
use zcore::loader::abi::{AuxEntry, ProcInitInfo, AT_BASE, AT_PAGESZ, AT_PHDR, AT_PHENT, AT_PHNUM};
use xmas_elf::program::Flags;
use zcore::loader::elf::{
    DynSymbol, ElfExt, ElfFile, LoadError, Patch, ProgramHeader, RelaEntry, Section, SegmentType,
    Symbol, REL_GOT, REL_PLT, REL_RELATIVE,
};
use zcore::loader::flags::to_mmu_flags;
use zcore::loader::{apply_patches, locate_word, make_vmo, run, word_bytes, VmarExt, STACK_SIZE};
use zcore::task::{Status, ThreadState};
use zcore::vm::{MMUFlags, PAGE_SIZE};

const USER_BASE: usize = 0x20_0000;
const TRAMPOLINE: u64 = 0x7fff_1234_5678;
const STACK_BASE: u64 = 0x5000_0008;

fn load(vaddr: u64, mem_size: u64, flags: u32, data: Vec<u8>) -> ProgramHeader {
    ProgramHeader {
        type_: SegmentType::Load,
        flags: Flags(flags),
        offset: 0,
        virtual_addr: vaddr,
        file_size: data.len() as u64,
        mem_size,
        data: Some(data),
    }
}

fn other(type_: SegmentType) -> ProgramHeader {
    ProgramHeader {
        type_,
        flags: Flags(4),
        offset: 0,
        virtual_addr: 0x9_0000,
        file_size: 0,
        mem_size: 0x10_0000,
        data: None,
    }
}

fn image() -> ElfFile {
    let mut first = vec![0u8; 0x2100];
    first[0] = 0x7f;
    first[0x2100 - 1] = 0xee;
    ElfFile {
        entry_point: 0x1040,
        ph_offset: 64,
        ph_entry_size: 56,
        ph_count: 3,
        program_headers: vec![
            other(SegmentType::Phdr),
            load(0, 0x3000, 7, first),
            load(0x4010, 0x1ff0, 6, vec![1, 2, 3, 4]),
        ],
        symbols: vec![
            Symbol { name: "main".to_string(), value: 0x1040, shndx: 1 },
            Symbol { name: "rcore_syscall_entry".to_string(), value: 0x2008, shndx: 2 },
            Symbol { name: "rcore_syscall_entry".to_string(), value: 0x2f00, shndx: 2 },
        ],
        dynsym: Section::Entries(vec![
            DynSymbol { name: None, value: 0, shndx: 0 },
            DynSymbol { name: Some("environ".to_string()), value: 0x4100, shndx: 3 },
        ]),
        rela_dyn: Section::Entries(vec![
            RelaEntry { offset: 0x2010, type_: REL_RELATIVE, symbol_index: 0, addend: 0x1040 },
            RelaEntry { offset: 0x4020, type_: REL_GOT, symbol_index: 1, addend: 8 },
            RelaEntry { offset: 0x4ffc, type_: REL_PLT, symbol_index: 1, addend: u64::MAX },
        ]),
    }
}

fn word(bytes: &[u8], index: usize) -> u64 {
    u64::from_le_bytes(bytes[8 * index..8 * index + 8].try_into().unwrap())
}

#[test]
fn run_loads_and_starts_the_image() {
    let mut k = Kernel::new(64, USER_BASE, 0x40_0000);
    let elf = image();
    let l = run(
        &mut k,
        &elf,
        vec!["/bin/sh".to_string()],
        vec!["PATH=/bin".to_string()],
        TRAMPOLINE,
        STACK_BASE,
    )
    .unwrap();
    let base = l.base;
    assert_eq!(base, USER_BASE);
    assert_eq!(l.entry, base + 0x1040);
    assert_eq!((l.proc, l.thread, l.vmar), (0, 0, 1));
    let proc = &k.processes[l.proc];
    assert!(proc.linux);
    assert_eq!(proc.status, Status::Running);
    assert_eq!(proc.threads.len(), 1);
    assert_eq!(proc.threads[0].state, ThreadState::Running);
    assert_eq!(proc.threads[0].regs.pc, l.entry);
    assert_eq!(proc.threads[0].regs.sp as u64, l.sp);
    assert_eq!((proc.threads[0].regs.arg0, proc.threads[0].regs.arg1), (0, 0));
    // The region and the mappings.
    let child = proc.vmar.node(1);
    assert_eq!((child.parent, child.addr, child.size, child.alive), (Some(0), base, 0x6000, true));
    assert_eq!(proc.vmar.mapping_count(), 2);
    let (a, b) = (proc.vmar.mapping(0), proc.vmar.mapping(1));
    assert_eq!((a.vmar, a.addr, a.size, a.vmo_offset, a.flags.bits), (1, base, 0x3000, 0, 7));
    assert_eq!((b.vmar, b.addr, b.size, b.vmo_offset, b.flags.bits), (1, base + 0x4000, 0x2000, 0, 3));
    assert_eq!(a.vmo, l.first_vmo);
    assert_eq!(b.vmo, l.first_vmo + 1);
    // The bytes of the segments, the entry of system calls and the relocations.
    assert_eq!(k.read_memory(0, base, 1), Ok(vec![0x7f]));
    assert_eq!(k.read_memory(0, base + 0x20ff, 2), Ok(vec![0xee, 0]));
    assert_eq!(k.read_memory(0, base + 0x4010, 5), Ok(vec![1, 2, 3, 4, 0]));
    assert_eq!(k.read_memory(0, base + 0x400f, 1), Ok(vec![0]));
    assert_eq!(k.read_memory(0, base + 0x2008, 8), Ok(TRAMPOLINE.to_le_bytes().to_vec()));
    assert_eq!(k.read_memory(0, base + 0x2f00, 8), Ok(vec![0; 8]));
    assert_eq!(k.read_memory(0, base + 0x2010, 8), Ok(((base + 0x1040) as u64).to_le_bytes().to_vec()));
    assert_eq!(k.read_memory(0, base + 0x4020, 8), Ok(((base + 0x4108) as u64).to_le_bytes().to_vec()));
    assert_eq!(k.read_memory(0, base + 0x4ffc, 8), Ok(((base + 0x40ff) as u64).to_le_bytes().to_vec()));
    assert_eq!(k.read_memory(0, base + 0x3000, 1), Err(ZxError::INVALID_ARGS));
    // The stack.
    let top = (STACK_BASE + STACK_SIZE) & !0xf;
    assert_eq!(l.sp % 16, 0);
    assert!(STACK_BASE <= l.sp && l.sp <= top);
    assert_eq!(l.stack.len() as u64, top - l.sp);
    let s = &l.stack;
    assert_eq!(word(s, 0), 1);
    let argv0 = (word(s, 1) - l.sp) as usize;
    assert_eq!(&s[argv0..argv0 + 8], b"/bin/sh\0");
    assert_eq!(word(s, 2), 0);
    let env0 = (word(s, 3) - l.sp) as usize;
    assert_eq!(&s[env0..env0 + 10], b"PATH=/bin\0");
    assert_eq!(word(s, 4), 0);
    let auxv: Vec<(u64, u64)> = (0..6).map(|i| (word(s, 5 + 2 * i), word(s, 6 + 2 * i))).collect();
    assert_eq!(
        auxv,
        vec![
            (AT_BASE as u64, base as u64),
            (AT_PHDR as u64, base as u64 + 64),
            (AT_PHENT as u64, 56),
            (AT_PHNUM as u64, 3),
            (AT_PAGESZ as u64, PAGE_SIZE as u64),
            (0, 0),
        ]
    );
    assert_eq!(&s[s.len() - 8..], b"/bin/sh\0");
}

#[test]
fn run_is_deterministic() {
    let elf = image();
    let mut results = Vec::new();
    for _ in 0..2 {
        let mut k = Kernel::new(64, USER_BASE, 0x40_0000);
        let l = run(&mut k, &elf, vec!["a".to_string(), "b".to_string()], vec![], TRAMPOLINE, STACK_BASE).unwrap();
        let memory = k.pmem.pmem_read(0, k.pmem.size());
        let owners: Vec<u64> = (0..k.pmem.frame_count()).map(|f| k.pmem.owner_of(f)).collect();
        results.push((l.base, l.entry, l.sp, l.stack, memory, owners));
    }
    assert!(results[0] == results[1]);
}

#[test]
fn run_reports_what_is_wrong_with_the_image() {
    let args = || vec!["x".to_string()];
    let mut k = Kernel::new(64, USER_BASE, 0x40_0000);
    let mut elf = image();
    elf.program_headers = vec![other(SegmentType::Dynamic)];
    assert_eq!(run(&mut k, &elf, args(), vec![], 0, STACK_BASE).err(), Some(LoadError::NoLoadSegment));
    assert_eq!(k.processes.len(), 0);
    let mut elf = image();
    elf.symbols.truncate(1);
    assert_eq!(run(&mut k, &elf, args(), vec![], 0, STACK_BASE).err(), Some(LoadError::EntrySymbolNotFound));
    let elf = image();
    assert_eq!(run(&mut k, &elf, vec![], vec![], 0, STACK_BASE).err(), Some(LoadError::BadArguments));
    assert_eq!(run(&mut k, &elf, args(), vec![], 0, u64::MAX - 5).err(), Some(LoadError::BadArguments));
    assert_eq!(k.processes.len(), 0);
    assert_eq!(k.objects.len(), 0);
}

#[test]
fn failed_load_leaves_no_mapping() {
    let args = || vec!["x".to_string()];
    let cases: Vec<(Box<dyn Fn(&mut ElfFile)>, LoadError)> = vec![
        (Box::new(|e| e.rela_dyn = Section::NotFound), LoadError::RelaNotFound),
        (Box::new(|e| e.rela_dyn = Section::Corrupted), LoadError::RelaCorrupted),
        (Box::new(|e| e.rela_dyn = Section::Bad), LoadError::RelaBad),
        (Box::new(|e| e.dynsym = Section::NotFound), LoadError::DynsymNotFound),
        (Box::new(|e| e.dynsym = Section::Corrupted), LoadError::DynsymCorrupted),
        (Box::new(|e| e.dynsym = Section::Bad), LoadError::DynsymBad),
        (
            Box::new(|e| {
                e.rela_dyn = Section::Entries(vec![RelaEntry { offset: 0, type_: 1, symbol_index: 0, addend: 0 }])
            }),
            LoadError::UnknownRelocation(1),
        ),
        (
            Box::new(|e| {
                e.rela_dyn = Section::Entries(vec![RelaEntry { offset: 0, type_: REL_GOT, symbol_index: 0, addend: 0 }])
            }),
            LoadError::UndefinedSymbol(0),
        ),
        (
            Box::new(|e| {
                e.rela_dyn = Section::Entries(vec![RelaEntry { offset: 0, type_: REL_PLT, symbol_index: 2, addend: 0 }])
            }),
            LoadError::BadSymbolIndex(2),
        ),
        (
            Box::new(|e| {
                e.rela_dyn =
                    Section::Entries(vec![RelaEntry { offset: 0x3000, type_: REL_RELATIVE, symbol_index: 0, addend: 0 }])
            }),
            LoadError::Kernel(ZxError::INVALID_ARGS),
        ),
        (Box::new(|e| e.program_headers[2].virtual_addr = 0x2010), LoadError::Kernel(ZxError::INVALID_ARGS)),
        (Box::new(|e| e.program_headers[2].data = None), LoadError::Kernel(ZxError::INVALID_ARGS)),
        (Box::new(|e| e.program_headers[1].mem_size = 0x100_0000), LoadError::Kernel(ZxError::NO_MEMORY)),
        (
            Box::new(|e| {
                e.program_headers[2].mem_size = 0x50_0000;
                e.program_headers[2].data = Some(vec![1; 0x4f_0000]);
            }),
            LoadError::Kernel(ZxError::NO_MEMORY),
        ),
        (Box::new(|e| e.entry_point = u64::MAX), LoadError::OutOfRange),
    ];
    for (change, expected) in cases {
        let mut k = Kernel::new(64, USER_BASE, 0x40_0000);
        let keep = k.create_vmo(1, true).unwrap();
        k.vmo_write(keep, 0, &[42]).unwrap();
        let mut elf = image();
        change(&mut elf);
        assert_eq!(run(&mut k, &elf, args(), vec![], TRAMPOLINE, STACK_BASE).err(), Some(expected));
        assert_eq!(k.processes.len(), 1);
        assert_eq!(k.processes[0].vmar.mapping_count(), 0);
        assert!(!k.processes[0].vmar.live(1) || expected == LoadError::Kernel(ZxError::NO_MEMORY));
        assert_eq!(k.processes[0].threads[0].state, ThreadState::Initial);
        assert_eq!(k.objects.len(), 1);
        assert_eq!(k.vmo_read(keep, 0, 1), Ok(vec![42]));
        assert_eq!(k.pmem.count_free_frames(), 63);
    }
}

#[test]
fn load_segment_size_takes_the_furthest_end() {
    let mut elf = image();
    assert_eq!(elf.load_segment_size(), Ok(0x6000));
    elf.program_headers.push(load(0x7fff, 1, 4, vec![]));
    assert_eq!(elf.load_segment_size(), Ok(0x8000));
    elf.program_headers.push(load(0x7fff, 2, 4, vec![]));
    assert_eq!(elf.load_segment_size(), Ok(0x9000));
    elf.program_headers = vec![other(SegmentType::Note), other(SegmentType::OsSpecific(0x6000_0001))];
    assert_eq!(elf.load_segment_size(), Err(LoadError::NoLoadSegment));
    elf.program_headers = vec![load(u64::MAX, u64::MAX, 4, vec![])];
    assert_eq!(elf.load_segment_size(), Err(LoadError::OutOfRange));
    elf.program_headers = vec![load(0, 0, 4, vec![])];
    assert_eq!(elf.load_segment_size(), Ok(0));
}

#[test]
fn symbols_are_found_by_name() {
    let elf = image();
    assert_eq!(elf.get_symbol_address("rcore_syscall_entry"), Some(0x2008));
    assert_eq!(elf.get_symbol_address("main"), Some(0x1040));
    assert_eq!(elf.get_symbol_address("Main"), None);
    assert_eq!(elf.get_symbol_address(""), None);
    assert_eq!(elf.dynsym().map(|v| v.len()), Ok(2));
}

#[test]
fn relocations_become_patches() {
    let elf = image();
    let base = 0x7000_0000u64;
    assert_eq!(
        elf.relocate(base),
        Ok(vec![
            Patch { addr: base + 0x2010, value: base + 0x1040 },
            Patch { addr: base + 0x4020, value: base + 0x4108 },
            Patch { addr: base + 0x4ffc, value: base + 0x40ff },
        ])
    );
    assert_eq!(elf.relocate(u64::MAX).unwrap()[0], Patch { addr: 0x200f, value: 0x103f });
    let mut none = image();
    none.rela_dyn = Section::Entries(vec![]);
    none.dynsym = Section::Bad;
    assert_eq!(none.relocate(base), Err(LoadError::DynsymBad));
    none.rela_dyn = Section::NotFound;
    assert_eq!(none.relocate(base), Err(LoadError::RelaNotFound));
    assert_eq!(none.dynsym().err(), Some(LoadError::DynsymBad));
}

#[test]
fn segment_flags_project_onto_mapping_flags() {
    for bits in 0..16u32 {
        let f = to_mmu_flags(&Flags(bits));
        assert_eq!(f.contains(MMUFlags::READ), bits & 4 != 0);
        assert_eq!(f.contains(MMUFlags::WRITE), bits & 2 != 0);
        assert_eq!(f.contains(MMUFlags::EXECUTE), bits & 1 != 0);
        assert_eq!(f.bits & !7, 0);
    }
    assert_eq!(to_mmu_flags(&Flags(1)).bits, MMUFlags::EXECUTE);
    assert_eq!(to_mmu_flags(&Flags(2)).bits, MMUFlags::WRITE);
    assert_eq!(to_mmu_flags(&Flags(0xffff_fff4)).bits, MMUFlags::READ);
}

#[test]
fn make_vmo_places_the_bytes_in_the_first_page() {
    let mut k = Kernel::new(8, USER_BASE, 0x40_0000);
    let koid = make_vmo(&mut k, &load(0x2ffe, 4, 6, vec![9, 8, 7])).unwrap();
    assert_eq!(k.vmo_read(koid, 0xffd, 5), Ok(vec![0, 9, 8, 7, 0]));
    assert_eq!(k.vmo_read(koid, 0, 2 * PAGE_SIZE).map(|v| v.len()), Ok(2 * PAGE_SIZE));
    assert_eq!(k.vmo_read(koid, 0, 2 * PAGE_SIZE + 1), Err(ZxError::INVALID_ARGS));
    let objects = k.objects.len();
    assert_eq!(make_vmo(&mut k, &load(0xfff, 1, 6, vec![1, 2])), Err(ZxError::INVALID_ARGS));
    let mut none = load(0, 1, 6, vec![]);
    none.data = None;
    assert_eq!(make_vmo(&mut k, &none), Err(ZxError::INVALID_ARGS));
    assert_eq!(make_vmo(&mut k, &load(0, 0x7000, 6, vec![1; 0x7000])), Err(ZxError::NO_MEMORY));
    assert_eq!(k.objects.len(), objects);
    assert_eq!(k.pmem.count_free_frames(), 6);
}

#[test]
fn load_from_elf_maps_each_segment() {
    let mut k = Kernel::new(64, USER_BASE, 0x40_0000);
    let p = k.create_process(b"p", true).unwrap();
    let child = k.vmar_create_child(p, 0, Some(0x10000), 0x6000).unwrap();
    let elf = image();
    let first = k.load_from_elf(p, child, &elf).unwrap();
    assert_eq!(k.processes[p].vmar.mapping_count(), 2);
    assert_eq!(k.processes[p].vmar.mapping(0).vmo, first);
    assert_eq!(k.processes[p].vmar.mapping(1).addr, USER_BASE + 0x14000);
    assert_eq!(k.read_memory(p, USER_BASE + 0x14010, 4), Ok(vec![1, 2, 3, 4]));
    let mut empty = image();
    empty.program_headers.truncate(1);
    assert_eq!(k.load_from_elf(p, child, &empty), Err(ZxError::INVALID_ARGS));
    assert_eq!(k.load_from_elf(p, child, &elf), Err(ZxError::INVALID_ARGS));
    assert_eq!(k.processes[p].vmar.mapping_count(), 2);
}

#[test]
fn patches_are_stored_lowest_byte_first() {
    let mut k = Kernel::new(8, USER_BASE, 0x40_0000);
    let p = k.create_process(b"p", true).unwrap();
    let vmo = k.create_vmo(1, true).unwrap();
    k.vmar_map(p, 0, 0, vmo, 0, PAGE_SIZE, MMUFlags::from_bits(1)).unwrap();
    let patches = vec![
        Patch { addr: USER_BASE as u64 + 8, value: 0x0102_0304_0506_0708 },
        Patch { addr: USER_BASE as u64 + 12, value: 0xff },
    ];
    assert_eq!(apply_patches(&mut k, p, &patches), Ok(()));
    assert_eq!(k.vmo_read(vmo, 8, 12), Ok(vec![8, 7, 6, 5, 0xff, 0, 0, 0, 0, 0, 0, 0]));
    let beyond = vec![Patch { addr: USER_BASE as u64 + 0xffc, value: 1 }];
    assert_eq!(apply_patches(&mut k, p, &beyond), Err(ZxError::INVALID_ARGS));
    assert_eq!(word_bytes(0x1122_3344_5566_7788), vec![0x88, 0x77, 0x66, 0x55, 0x44, 0x33, 0x22, 0x11]);
}

#[test]
fn stack_layout() {
    let info = ProcInitInfo {
        args: vec!["prog".to_string(), "-x".to_string()],
        envs: vec!["A=1".to_string(), "BB=22".to_string()],
        auxv: vec![AuxEntry { key: AT_PAGESZ, value: 4096 }, AuxEntry { key: AT_BASE, value: 0x1000 }],
    };
    let top: u64 = 0x8000;
    let stack = info.push_at(top, 0x7000).unwrap();
    let s = &stack.bytes;
    assert_eq!(stack.sp % 16, 0);
    assert_eq!(s.len() as u64, top - stack.sp);
    // top-down: "prog\0", "A=1\0", "BB=22\0", "prog\0", "-x\0"
    let strings = b"-x\0prog\0BB=22\0A=1\0prog\0";
    assert_eq!(&s[s.len() - strings.len()..], strings);
    let below = top - strings.len() as u64;
    let words = 1 + 2 + 1 + 2 + 1 + 4 + 2;
    assert_eq!(stack.sp, (below - 8 * words) & !0xf);
    assert_eq!(word(s, 0), 2);
    assert_eq!(word(s, 1), below + 3);
    assert_eq!(word(s, 2), below);
    assert_eq!(word(s, 3), 0);
    assert_eq!(word(s, 4), below + 14);
    assert_eq!(word(s, 5), below + 8);
    assert_eq!(word(s, 6), 0);
    assert_eq!((word(s, 7), word(s, 8)), (AT_BASE as u64, 0x1000));
    assert_eq!((word(s, 9), word(s, 10)), (AT_PAGESZ as u64, 4096));
    assert_eq!((word(s, 11), word(s, 12)), (0, 0));
    assert!(s[8 * words as usize..s.len() - strings.len()].iter().all(|b| *b == 0));
}

#[test]
fn stack_must_fit_and_have_a_program_name() {
    let mut info = ProcInitInfo { args: vec![], envs: vec![], auxv: vec![] };
    assert_eq!(info.push_at(0x8000, 0).err(), Some(LoadError::BadArguments));
    info.args.push("a".to_string());
    // "a\0" twice, then 6 words: 52 bytes, and the stack pointer a multiple of 16
    assert_eq!(info.push_at(0x8000, 0x8000 - 64).map(|s| s.sp), Ok(0x8000 - 64));
    assert_eq!(info.push_at(0x8000, 0x8000 - 63).err(), Some(LoadError::BadArguments));
    assert_eq!(info.push_at(48, 0).err(), Some(LoadError::BadArguments));
    assert_eq!(info.push_at(64, 0).map(|s| s.sp), Ok(0));
    assert_eq!(info.push_at(64, 0).map(|s| s.bytes.len()), Ok(64));
    info.args[0] = "x".repeat(0x9000);
    assert_eq!(info.push_at(0x8000, 0).err(), Some(LoadError::BadArguments));
}

#[test]
fn reasons_have_a_status_and_words() {
    assert_eq!(LoadError::Kernel(ZxError::NO_MEMORY).status(), ZxError::NO_MEMORY);
    assert_eq!(LoadError::NoLoadSegment.status(), ZxError::INVALID_ARGS);
    assert_eq!(LoadError::BadArguments.status(), ZxError::INVALID_ARGS);
    assert_eq!(LoadError::UnknownRelocation(3).status(), ZxError::NOT_SUPPORTED);
    assert_eq!(LoadError::DynsymCorrupted.status(), ZxError::INTERNAL);
    assert_eq!(LoadError::UndefinedSymbol(1).status(), ZxError::INTERNAL);
    assert_eq!(LoadError::RelaNotFound.message(), ".rela.dyn not found");
    assert_eq!(LoadError::RelaCorrupted.message(), "corrupted .rela.dyn");
    assert_eq!(LoadError::RelaBad.message(), "bad .rela.dyn");
    assert_eq!(LoadError::DynsymNotFound.message(), ".dynsym not found");
    assert_eq!(LoadError::DynsymCorrupted.message(), "corrupted .dynsym");
    assert_eq!(LoadError::DynsymBad.message(), "bad .dynsym");
    assert_eq!(LoadError::EntrySymbolNotFound.message(), "failed to locate syscall entry");
}

#[test]
fn run_stores_the_entry_in_the_segment_that_holds_its_symbol() {
    let mut k = Kernel::new(64, USER_BASE, 0x40_0000);
    let mut elf = image();
    elf.symbols[1].value = 0x4108;
    assert_eq!(locate_word(&elf, 0x4108), Some((1, 0x108)));
    assert_eq!(locate_word(&elf, 0x2008), Some((0, 0x2008)));
    let l = run(&mut k, &elf, vec!["x".to_string()], vec![], TRAMPOLINE, STACK_BASE).unwrap();
    let base = l.base;
    assert_eq!(k.read_memory(0, base + 0x4108, 8), Ok(TRAMPOLINE.to_le_bytes().to_vec()));
    assert_eq!(k.vmo_read(l.first_vmo + 1, 0x108, 8), Ok(TRAMPOLINE.to_le_bytes().to_vec()));
    assert_eq!(k.vmo_read(l.first_vmo, 0x2008, 8), Ok(vec![0; 8]));
    assert_eq!(k.read_memory(0, base + 0x4010, 4), Ok(vec![1, 2, 3, 4]));
}

#[test]
fn run_refuses_an_entry_symbol_outside_the_segments() {
    for value in [0x3000u64, 0x3ff9, 0x5ff9, 0x6000, u64::MAX - 3] {
        let mut k = Kernel::new(64, USER_BASE, 0x40_0000);
        let mut elf = image();
        elf.symbols[1].value = value;
        assert_eq!(locate_word(&elf, value), None);
        assert_eq!(
            run(&mut k, &elf, vec!["x".to_string()], vec![], TRAMPOLINE, STACK_BASE).err(),
            Some(LoadError::EntrySymbolUnmapped)
        );
        assert_eq!(k.processes.len(), 0);
        assert_eq!(k.objects.len(), 0);
        assert_eq!(k.pmem.count_free_frames(), 64);
    }
    let mut elf = image();
    elf.symbols[1].value = 0x5ff8;
    assert_eq!(locate_word(&elf, 0x5ff8), Some((1, 0x1ff8)));
    assert_eq!(LoadError::EntrySymbolUnmapped.status(), ZxError::INVALID_ARGS);
    assert_eq!(LoadError::EntrySymbolUnmapped.message(), "syscall entry outside the segments");
}

#[test]
fn run_needs_no_more_frames_than_the_words_it_stores() {
    // The bytes of the segments take four frames; the entry and the three
    // relocations touch two pages more and share the rest.
    let elf = image();
    let mut k = Kernel::new(6, USER_BASE, 0x40_0000);
    assert!(run(&mut k, &elf, vec!["x".to_string()], vec![], TRAMPOLINE, STACK_BASE).is_ok());
    assert_eq!(k.pmem.count_free_frames(), 1);
    let mut k = Kernel::new(4, USER_BASE, 0x40_0000);
    assert_eq!(
        run(&mut k, &elf, vec!["x".to_string()], vec![], TRAMPOLINE, STACK_BASE).err(),
        Some(LoadError::Kernel(ZxError::NO_MEMORY))
    );
    assert_eq!(k.pmem.count_free_frames(), 4);
    assert_eq!(k.objects.len(), 0);
    assert_eq!(k.processes.len(), 1);
    assert_eq!(k.processes[0].threads[0].state, ThreadState::Initial);
    assert_eq!(k.processes[0].status, Status::Init);
    assert!(!k.processes[0].vmar.live(1));
    // Five frames are what the load takes, and five do.
    let mut k = Kernel::new(5, USER_BASE, 0x40_0000);
    assert!(run(&mut k, &elf, vec!["x".to_string()], vec![], TRAMPOLINE, STACK_BASE).is_ok());
    assert_eq!(k.pmem.count_free_frames(), 0);
    // Without the relocation that reaches into the second page of the second
    // segment, four frames do; an entry symbol in that page takes one more.
    let mut plain = image();
    plain.rela_dyn = Section::Entries(vec![
        RelaEntry { offset: 0x2010, type_: REL_RELATIVE, symbol_index: 0, addend: 0x1040 },
        RelaEntry { offset: 0x4020, type_: REL_GOT, symbol_index: 1, addend: 8 },
    ]);
    let mut k = Kernel::new(4, USER_BASE, 0x40_0000);
    assert!(run(&mut k, &plain, vec!["x".to_string()], vec![], TRAMPOLINE, STACK_BASE).is_ok());
    assert_eq!(k.pmem.count_free_frames(), 0);
    plain.symbols[1].value = 0x5100;
    let mut k = Kernel::new(4, USER_BASE, 0x40_0000);
    assert_eq!(
        run(&mut k, &plain, vec!["x".to_string()], vec![], TRAMPOLINE, STACK_BASE).err(),
        Some(LoadError::Kernel(ZxError::NO_MEMORY))
    );
    let mut k = Kernel::new(5, USER_BASE, 0x40_0000);
    assert!(run(&mut k, &plain, vec!["x".to_string()], vec![], TRAMPOLINE, STACK_BASE).is_ok());
    assert_eq!(k.pmem.count_free_frames(), 0);
}

#[test]
fn segments_that_share_a_page_are_refused() {
    let mut k = Kernel::new(64, USER_BASE, 0x40_0000);
    let p = k.create_process(b"p", true).unwrap();
    let child = k.vmar_create_child(p, 0, Some(0), 0x6000).unwrap();
    let mut elf = image();
    elf.program_headers[2].virtual_addr = 0x2ff0;
    assert_eq!(k.load_from_elf(p, child, &elf), Err(ZxError::INVALID_ARGS));
    // The first segment stays loaded; nothing is left of the second.
    assert_eq!(k.processes[p].vmar.mapping_count(), 1);
    assert_eq!(k.objects.len(), 1);
    assert_eq!(k.pmem.count_free_frames(), 64 - 3);
    assert_eq!(k.read_memory(p, USER_BASE, 1), Ok(vec![0x7f]));
    let mut k = Kernel::new(64, USER_BASE, 0x40_0000);
    assert_eq!(
        run(&mut k, &elf, vec!["x".to_string()], vec![], TRAMPOLINE, STACK_BASE).err(),
        Some(LoadError::Kernel(ZxError::INVALID_ARGS))
    );
    assert_eq!(k.objects.len(), 0);
    assert_eq!(k.processes[0].vmar.mapping_count(), 0);
}

#[test]
fn load_from_elf_says_which_segment_fails_and_why() {
    let fresh = || {
        let mut k = Kernel::new(4, USER_BASE, 0x40_0000);
        let p = k.create_process(b"p", true).unwrap();
        let child = k.vmar_create_child(p, 0, Some(0), 0x6000).unwrap();
        (k, p, child)
    };
    // Frames run out at the second segment: the first took three of four.
    let (mut k, p, child) = fresh();
    let mut elf = image();
    elf.program_headers[2].data = Some(vec![5; 0x1ff0]);
    assert_eq!(k.load_from_elf(p, child, &elf), Err(ZxError::NO_MEMORY));
    assert_eq!((k.processes[p].vmar.mapping_count(), k.objects.len()), (1, 1));
    // A segment beyond the region.
    let (mut k, p, child) = fresh();
    let mut elf = image();
    elf.program_headers[2].virtual_addr = 0x5010;
    assert_eq!(k.load_from_elf(p, child, &elf), Err(ZxError::INVALID_ARGS));
    assert_eq!((k.processes[p].vmar.mapping_count(), k.objects.len()), (1, 1));
    assert_eq!(k.pmem.count_free_frames(), 1);
    // A segment without pages.
    let (mut k, p, child) = fresh();
    let mut elf = image();
    elf.program_headers[1] = load(0, 0, 7, vec![]);
    assert_eq!(k.load_from_elf(p, child, &elf), Err(ZxError::INVALID_ARGS));
    assert_eq!((k.processes[p].vmar.mapping_count(), k.objects.len()), (0, 0));
    // A region that is not there.
    let (mut k, p, _) = fresh();
    assert_eq!(k.load_from_elf(p, 7, &image()), Err(ZxError::BAD_STATE));
    assert_eq!(k.objects.len(), 0);
    assert_eq!(k.pmem.count_free_frames(), 4);
}

#[test]
fn apply_patches_stops_at_the_first_patch_without_a_place() {
    let mut k = Kernel::new(8, USER_BASE, 0x40_0000);
    let p = k.create_process(b"p", true).unwrap();
    let vmo = k.create_vmo(2, true).unwrap();
    k.vmar_map(p, 0, 0, vmo, 0, 2 * PAGE_SIZE, MMUFlags::from_bits(1)).unwrap();
    let patches = vec![
        Patch { addr: USER_BASE as u64, value: 1 },
        Patch { addr: USER_BASE as u64 + 0x1ff9, value: 2 },
        Patch { addr: USER_BASE as u64 + 16, value: 3 },
    ];
    assert_eq!(apply_patches(&mut k, p, &patches), Err(ZxError::INVALID_ARGS));
    assert_eq!(k.vmo_read(vmo, 0, 8), Ok(vec![1, 0, 0, 0, 0, 0, 0, 0]));
    assert_eq!(k.vmo_read(vmo, 16, 8), Ok(vec![0; 8]));
    assert_eq!(k.pmem.count_free_frames(), 7);
    // A word across two pages takes two frames; with one left it fails.
    let mut k = Kernel::new(1, USER_BASE, 0x40_0000);
    let p = k.create_process(b"p", true).unwrap();
    let vmo = k.create_vmo(2, true).unwrap();
    k.vmar_map(p, 0, 0, vmo, 0, 2 * PAGE_SIZE, MMUFlags::from_bits(1)).unwrap();
    let across = vec![Patch { addr: USER_BASE as u64 + 0xffc, value: u64::MAX }];
    assert_eq!(apply_patches(&mut k, p, &across), Err(ZxError::NO_MEMORY));
    assert_eq!(k.pmem.count_free_frames(), 1);
    // Stores into pages that have their frames take none: two frames do
    // for any number of words in two pages.
    let mut k = Kernel::new(2, USER_BASE, 0x40_0000);
    let p = k.create_process(b"p", true).unwrap();
    let vmo = k.create_vmo(3, true).unwrap();
    k.vmar_map(p, 0, 0, vmo, 0, 3 * PAGE_SIZE, MMUFlags::from_bits(1)).unwrap();
    let many = vec![
        Patch { addr: USER_BASE as u64 + 8, value: 1 },
        Patch { addr: USER_BASE as u64 + 0xffc, value: 2 },
        Patch { addr: USER_BASE as u64 + 0x1100, value: 3 },
        Patch { addr: USER_BASE as u64 + 0x2000, value: 4 },
        Patch { addr: USER_BASE as u64 + 16, value: 5 },
    ];
    assert_eq!(apply_patches(&mut k, p, &many), Err(ZxError::NO_MEMORY));
    assert_eq!(k.pmem.count_free_frames(), 0);
    assert_eq!(k.vmo_read(vmo, 0x1100, 1), Ok(vec![3]));
    assert_eq!(k.vmo_read(vmo, 16, 1), Ok(vec![0]));
}
