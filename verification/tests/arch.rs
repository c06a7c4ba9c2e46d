use std::str::FromStr;

use zcore::xtask::arch::{
    build_args, objcopy_args, qemu_steps, rustsbi_qemu, Arch, QemuStep, BUSYBOX_LINKS,
};

#[test]
fn arch_names() {
    assert_eq!(Arch::Riscv64.as_str(), "riscv64");
    assert_eq!(Arch::X86_64.as_str(), "x86_64");
    assert_eq!(Arch::parse("riscv64"), Some(Arch::Riscv64));
    assert_eq!(Arch::parse("RiscV64"), Some(Arch::Riscv64));
    assert_eq!(Arch::parse("X86_64"), Some(Arch::X86_64));
    assert_eq!(Arch::parse("x86-64"), None);
    assert_eq!(Arch::parse(""), None);
    assert_eq!(Arch::parse("riscv64 "), None);
    assert_eq!(Arch::parse("r\u{131}scv64"), None);
    assert_eq!(Arch::from_str("RISCV64").ok(), Some(Arch::Riscv64));
    assert_eq!("x86_64".parse::<Arch>().ok(), Some(Arch::X86_64));
    let e = Arch::from_str("arm").err().unwrap();
    assert_eq!((e.enum_name, e.value.as_str()), ("Arch", "arm"));
}

#[test]
fn arch_paths() {
    assert_eq!(Arch::Riscv64.rootfs(), vec!["rootfs", "riscv64"]);
    assert_eq!(Arch::X86_64.libc_test(), vec!["rootfs", "x86_64", "libc-test"]);
    assert_eq!(Arch::X86_64.origin(), vec!["ignored", "origin", "x86_64"]);
    assert_eq!(Arch::Riscv64.target(), vec!["ignored", "target", "riscv64"]);
    assert_eq!(Arch::Riscv64.libc_so(), "lib/ld-musl-riscv64.so.1");
    assert_eq!(Arch::X86_64.libc_so(), "lib/ld-musl-x86_64.so.1");
    assert_eq!(Arch::Riscv64.prebuild_rootfs(), ("minirootfs.tar.xz", vec!["--strip-components", "1"]));
    assert_eq!(Arch::X86_64.prebuild_rootfs(), ("minirootfs.tar.gz", vec![]));
    assert_eq!(
        rustsbi_qemu(),
        vec!["ignored", "target", "riscv64", "rustsbi-qemu-release", "rustsbi-qemu.bin"]
    );
    assert_eq!(BUSYBOX_LINKS.len(), 28);
    assert_eq!(BUSYBOX_LINKS[0], "cat");
    assert_eq!(BUSYBOX_LINKS[19], "sh");
    assert_eq!(BUSYBOX_LINKS[27], "watch");
}

#[test]
fn qemu_command_line() {
    let args = Arch::Riscv64.qemu("bios.bin");
    assert_eq!(
        args,
        vec![
            "-smp", "1", "-machine", "virt", "-bios", "bios.bin", "-m", "512M", "-serial",
            "mon:stdio", "-kernel", "target/riscv64/release/zcore.bin", "-initrd",
            "zCore/riscv64.img", "-append", "\"LOG=warn\"", "-display", "none", "-no-reboot",
            "-nographic",
        ]
    );
    assert_eq!(
        objcopy_args(),
        vec![
            "--binary-architecture=riscv64",
            "target/riscv64/release/zcore",
            "--strip-all",
            "-O",
            "binary",
            "target/riscv64/release/zcore.bin",
        ]
    );
}

#[test]
fn the_emulator_comes_after_image_build_and_copy() {
    assert_eq!(
        qemu_steps(),
        vec![QemuStep::Image, QemuStep::Build, QemuStep::Binary, QemuStep::Emulate]
    );
    let programs: Vec<Option<&str>> = qemu_steps().iter().map(|s| s.program()).collect();
    assert_eq!(programs, vec![None, Some("cargo"), Some("rust-objcopy"), Some("qemu-system-riscv64")]);
    assert_eq!(
        build_args(),
        vec![
            "build",
            "--package",
            "zcore",
            "--no-default-features",
            "--features",
            "linux board-qemu",
            "--target",
            "zCore/riscv64.json",
            "-Z",
            "build-std=core,alloc",
            "-Z",
            "build-std-features=compiler-builtins-mem",
            "--release",
        ]
    );
    // What the build makes is what the copy reads, and what the copy makes
    // is what the emulator starts.
    assert_eq!(objcopy_args()[1], "target/riscv64/release/zcore");
    assert_eq!(objcopy_args()[5], Arch::Riscv64.qemu("bios")[11]);
}
