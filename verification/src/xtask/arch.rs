//! Per-architecture names, paths and command lines.
use vstd::prelude::*;
use vstd::string::StringSliceAdditionalSpecFns;

verus! {

/// The architectures that images are built for.
#[derive(Clone, Copy, Debug, PartialEq, Eq, Structural)]
pub enum Arch {
    /// 64-bit RISC-V.
    Riscv64,
    /// 64-bit x86.
    X86_64,
}

/// `b` with an upper-case ASCII letter replaced by its lower-case form.
pub open spec fn ascii_lower(b: u8) -> u8 {
    if 65 <= b <= 90 {
        (b + 32) as u8
    } else {
        b
    }
}

/// Whether `a` and `b` are equal up to the case of ASCII letters in `a`.
pub open spec fn lower_eq(a: Seq<u8>, b: Seq<u8>) -> bool {
    a.len() == b.len() && forall|i: int| 0 <= i < a.len() ==> ascii_lower(#[trigger] a[i]) == b[i]
}

/// Whether `a` and `b` are equal up to the case of ASCII letters in `a`.
fn bytes_lower_eq(a: &[u8], b: &[u8]) -> (r: bool)
    ensures
        r == lower_eq(a@, b@),
{
    if a.len() != b.len() {
        return false;
    }
    let mut i: usize = 0;
    while i < a.len()
        invariant
            i <= a.len(),
            a@.len() == b@.len(),
            forall|j: int| 0 <= j < i ==> ascii_lower(#[trigger] a@[j]) == b@[j],
        decreases a.len() - i,
    {
        let x: u8 = a[i];
        let low: u8 = if x >= 65 && x <= 90 {
            x + 32
        } else {
            x
        };
        if low != b[i] {
            return false;
        }
        i += 1;
    }
    true
}

/// Why a word names no value of an enumeration.
pub struct EnumParse {
    /// Name of the enumeration.
    pub enum_name: &'static str,
    /// The word.
    pub value: String,
}

impl core::str::FromStr for Arch {
    type Err = EnumParse;

    /// The architecture named `s`, whatever the case of the letters.
    fn from_str(s: &str) -> (r: Result<Self, Self::Err>)
        ensures
            r is Ok <==> Arch::named(s) is Some,
            r matches Ok(a) ==> Arch::named(s) == Some(a),
            r matches Err(e) ==> e.enum_name@ == "Arch"@ && e.value@ == s@,
    {
        match Arch::parse(s) {
            Some(a) => Ok(a),
            None => Err(EnumParse { enum_name: "Arch", value: s.to_owned() }),
        }
    }
}

/// The rootfs programs that are links to busybox.
pub const BUSYBOX_LINKS: [&'static str; 28] = [
    "cat", "cp", "echo", "false", "grep", "gzip", "kill", "ln", "ls", "mkdir", "mv", "pidof",
    "ping", "ping6", "printenv", "ps", "pwd", "rm", "rmdir", "sh", "sleep", "stat", "tar",
    "touch", "true", "uname", "usleep", "watch",
];

impl Arch {
    /// The name of the architecture.
    pub open spec fn name(&self) -> Seq<char> {
        match self {
            Arch::Riscv64 => "riscv64"@,
            Arch::X86_64 => "x86_64"@,
        }
    }

    /// The architecture that `s` names, whatever the case of the letters.
    pub open spec fn named(s: &str) -> Option<Arch> {
        if lower_eq(s.spec_bytes(), "riscv64".spec_bytes()) {
            Some(Arch::Riscv64)
        } else if lower_eq(s.spec_bytes(), "x86_64".spec_bytes()) {
            Some(Arch::X86_64)
        } else {
            None
        }
    }

    /// The architecture named `s`, whatever the case of the letters.
    pub fn parse(s: &str) -> (r: Option<Arch>)
        ensures
            r == Arch::named(s),
    {
        if bytes_lower_eq(s.as_bytes(), "riscv64".as_bytes()) {
            Some(Arch::Riscv64)
        } else if bytes_lower_eq(s.as_bytes(), "x86_64".as_bytes()) {
            Some(Arch::X86_64)
        } else {
            None
        }
    }

    /// The name of the architecture.
    pub fn as_str(&self) -> (s: &'static str)
        ensures
            s@ == self.name(),
    {
        match self {
            Arch::Riscv64 => "riscv64",
            Arch::X86_64 => "x86_64",
        }
    }

    /// The directory of the root file system: `rootfs/<arch>`.
    pub fn rootfs(&self) -> (path: Vec<&'static str>)
        ensures
            path@.len() == 2,
            path@[0]@ == "rootfs"@,
            path@[1]@ == self.name(),
    {
        let mut path: Vec<&'static str> = Vec::new();
        path.push("rootfs");
        path.push(self.as_str());
        path
    }

    /// The directory of the C library tests: `rootfs/<arch>/libc-test`.
    pub fn libc_test(&self) -> (path: Vec<&'static str>)
        ensures
            path@.len() == 3,
            path@[0]@ == "rootfs"@,
            path@[1]@ == self.name(),
            path@[2]@ == "libc-test"@,
    {
        let mut path = self.rootfs();
        path.push("libc-test");
        path
    }

    /// The directory of downloaded files: `ignored/origin/<arch>`.
    pub fn origin(&self) -> (path: Vec<&'static str>)
        ensures
            path@.len() == 3,
            path@[0]@ == "ignored"@,
            path@[1]@ == "origin"@,
            path@[2]@ == self.name(),
    {
        let mut path: Vec<&'static str> = Vec::new();
        path.push("ignored");
        path.push("origin");
        path.push(self.as_str());
        path
    }

    /// The directory of unpacked files: `ignored/target/<arch>`.
    pub fn target(&self) -> (path: Vec<&'static str>)
        ensures
            path@.len() == 3,
            path@[0]@ == "ignored"@,
            path@[1]@ == "target"@,
            path@[2]@ == self.name(),
    {
        let mut path: Vec<&'static str> = Vec::new();
        path.push("ignored");
        path.push("target");
        path.push(self.as_str());
        path
    }

    /// Where the dynamic linker lies in the root file system.
    pub fn libc_so(&self) -> (s: &'static str)
        ensures
            s@ == match self {
                Arch::Riscv64 => "lib/ld-musl-riscv64.so.1"@,
                Arch::X86_64 => "lib/ld-musl-x86_64.so.1"@,
            },
    {
        match self {
            Arch::Riscv64 => "lib/ld-musl-riscv64.so.1",
            Arch::X86_64 => "lib/ld-musl-x86_64.so.1",
        }
    }

    /// Name of the archive of the minimal root file system, and the options
    /// with which it is unpacked.
    pub fn prebuild_rootfs(&self) -> (r: (&'static str, Vec<&'static str>))
        ensures
            r.0@ == match self {
                Arch::Riscv64 => "minirootfs.tar.xz"@,
                Arch::X86_64 => "minirootfs.tar.gz"@,
            },
            self == Arch::Riscv64 ==> r.1@.len() == 2 && r.1@[0]@ == "--strip-components"@
                && r.1@[1]@ == "1"@,
            self == Arch::X86_64 ==> r.1@.len() == 0,
    {
        let mut options: Vec<&'static str> = Vec::new();
        match self {
            Arch::Riscv64 => {
                options.push("--strip-components");
                options.push("1");
                ("minirootfs.tar.xz", options)
            },
            Arch::X86_64 => ("minirootfs.tar.gz", options),
        }
    }

    /// The options with which the emulator is started for the kernel image
    /// of this architecture, with `bios` as the firmware. This is the last
    /// of the [`qemu_steps`]; [`build_args`] and [`objcopy_args`] give the
    /// options of the steps before it. Only 64-bit RISC-V is started this
    /// way.
    pub fn qemu<'a>(&self, bios: &'a str) -> (args: Vec<&'a str>)
        requires
            self == Arch::Riscv64,
        ensures
            args@.len() == 20,
            args@[0]@ == "-smp"@,
            args@[1]@ == "1"@,
            args@[2]@ == "-machine"@,
            args@[3]@ == "virt"@,
            args@[4]@ == "-bios"@,
            args@[5] == bios,
            args@[6]@ == "-m"@,
            args@[7]@ == "512M"@,
            args@[8]@ == "-serial"@,
            args@[9]@ == "mon:stdio"@,
            args@[10]@ == "-kernel"@,
            args@[11]@ == "target/riscv64/release/zcore.bin"@,
            args@[12]@ == "-initrd"@,
            args@[13]@ == "zCore/riscv64.img"@,
            args@[14]@ == "-append"@,
            args@[15]@ == "\"LOG=warn\""@,
            args@[16]@ == "-display"@,
            args@[17]@ == "none"@,
            args@[18]@ == "-no-reboot"@,
            args@[19]@ == "-nographic"@,
    {
        let mut args: Vec<&'a str> = Vec::new();
        args.push("-smp");
        args.push("1");
        args.push("-machine");
        args.push("virt");
        args.push("-bios");
        args.push(bios);
        args.push("-m");
        args.push("512M");
        args.push("-serial");
        args.push("mon:stdio");
        args.push("-kernel");
        args.push("target/riscv64/release/zcore.bin");
        args.push("-initrd");
        args.push("zCore/riscv64.img");
        args.push("-append");
        args.push("\"LOG=warn\"");
        args.push("-display");
        args.push("none");
        args.push("-no-reboot");
        args.push("-nographic");
        args
    }
}

/// One step of starting the kernel in the emulator.
#[derive(Clone, Copy, Debug, PartialEq, Eq, Structural)]
pub enum QemuStep {
    /// The root file system image is made.
    Image,
    /// The kernel is built.
    Build,
    /// The kernel is turned into a flat binary.
    Binary,
    /// The emulator is started on the binary and the image.
    Emulate,
}

impl QemuStep {
    /// The program that the step runs, where it runs one: `cargo` builds,
    /// `rust-objcopy` makes the binary, `qemu-system-riscv64` emulates.
    pub fn program(&self) -> (name: Option<&'static str>)
        ensures
            *self == QemuStep::Image ==> name is None,
            *self == QemuStep::Build ==> name is Some && name->Some_0@ == "cargo"@,
            *self == QemuStep::Binary ==> name is Some && name->Some_0@ == "rust-objcopy"@,
            *self == QemuStep::Emulate ==> name is Some && name->Some_0@
                == "qemu-system-riscv64"@,
    {
        match self {
            QemuStep::Image => None,
            QemuStep::Build => Some("cargo"),
            QemuStep::Binary => Some("rust-objcopy"),
            QemuStep::Emulate => Some("qemu-system-riscv64"),
        }
    }
}

/// The steps of starting the kernel in the emulator, in their order: the
/// image first, then the build, the flat binary, and the emulator last.
pub fn qemu_steps() -> (steps: Vec<QemuStep>)
    ensures
        steps@ == seq![QemuStep::Image, QemuStep::Build, QemuStep::Binary, QemuStep::Emulate],
{
    let mut steps: Vec<QemuStep> = Vec::new();
    steps.push(QemuStep::Image);
    steps.push(QemuStep::Build);
    steps.push(QemuStep::Binary);
    steps.push(QemuStep::Emulate);
    proof {
        assert(steps@ =~= seq![
            QemuStep::Image,
            QemuStep::Build,
            QemuStep::Binary,
            QemuStep::Emulate,
        ]);
    }
    steps
}

/// The options with which the kernel is built for the emulator: the
/// package `zcore` in release form, for the target `zCore/riscv64.json`,
/// with the features `linux` and `board-qemu` and a standard library built
/// along.
pub fn build_args() -> (args: Vec<&'static str>)
    ensures
        args@.len() == 13,
        args@[0]@ == "build"@,
        args@[1]@ == "--package"@,
        args@[2]@ == "zcore"@,
        args@[3]@ == "--no-default-features"@,
        args@[4]@ == "--features"@,
        args@[5]@ == "linux board-qemu"@,
        args@[6]@ == "--target"@,
        args@[7]@ == "zCore/riscv64.json"@,
        args@[8]@ == "-Z"@,
        args@[9]@ == "build-std=core,alloc"@,
        args@[10]@ == "-Z"@,
        args@[11]@ == "build-std-features=compiler-builtins-mem"@,
        args@[12]@ == "--release"@,
{
    let mut args: Vec<&'static str> = Vec::new();
    args.push("build");
    args.push("--package");
    args.push("zcore");
    args.push("--no-default-features");
    args.push("--features");
    args.push("linux board-qemu");
    args.push("--target");
    args.push("zCore/riscv64.json");
    args.push("-Z");
    args.push("build-std=core,alloc");
    args.push("-Z");
    args.push("build-std-features=compiler-builtins-mem");
    args.push("--release");
    args
}

/// The options with which the kernel is turned into a flat binary for the
/// emulator.
pub fn objcopy_args() -> (args: Vec<&'static str>)
    ensures
        args@.len() == 6,
        args@[0]@ == "--binary-architecture=riscv64"@,
        args@[1]@ == "target/riscv64/release/zcore"@,
        args@[2]@ == "--strip-all"@,
        args@[3]@ == "-O"@,
        args@[4]@ == "binary"@,
        args@[5]@ == "target/riscv64/release/zcore.bin"@,
{
    let mut args: Vec<&'static str> = Vec::new();
    args.push("--binary-architecture=riscv64");
    args.push("target/riscv64/release/zcore");
    args.push("--strip-all");
    args.push("-O");
    args.push("binary");
    args.push("target/riscv64/release/zcore.bin");
    args
}

/// Where the firmware for the emulator lies once it is unpacked:
/// `ignored/target/riscv64/rustsbi-qemu-release/rustsbi-qemu.bin`.
pub fn rustsbi_qemu() -> (path: Vec<&'static str>)
    ensures
        path@.len() == 5,
        path@[0]@ == "ignored"@,
        path@[1]@ == "target"@,
        path@[2]@ == "riscv64"@,
        path@[3]@ == "rustsbi-qemu-release"@,
        path@[4]@ == "rustsbi-qemu.bin"@,
{
    let mut path = Arch::Riscv64.target();
    path.push("rustsbi-qemu-release");
    path.push("rustsbi-qemu.bin");
    path
}

} // verus!
