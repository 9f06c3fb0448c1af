//! Hot-patching of running programs.
//!
//! A patch is a freshly compiled library whose functions replace functions of a running
//! program. Making one takes an object file that tells the linker where the program's own
//! symbols are in memory: [`resolve_undefined`] writes it. Applying one takes a table of
//! the replaced functions: [`run_patch`] puts it in place, and a [`HotFn`] then calls the
//! replacement.

pub mod file_laws;
pub mod hot;
pub mod incremental;
pub mod jump_table;
pub mod object_file;
pub mod object_laws;
pub mod patch;
pub mod patch_object;
pub mod process_laws;
pub mod resolve;
pub mod resolve_laws;
pub mod runtime;
pub mod stub;
pub mod symbols;
pub mod target;

pub use hot::{HotFn, HotFnPanic, HotFunction, current};
pub use jump_table::JumpTable;
pub use resolve::resolve_undefined;
pub use runtime::{changed, register_handler, run_patch};
