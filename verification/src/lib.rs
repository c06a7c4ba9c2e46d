//! Kernel objects, handles and virtual memory of a Zircon-style microkernel,
//! together with the loader that places an ELF image into an address space.
pub mod dev;
pub mod error;
pub mod kernel;
pub mod loader;
pub mod object;
pub mod syscall;
pub mod task;
pub mod vm;
pub mod xtask;
