//! What the build helper works out before it touches the file system.
pub mod arch;
