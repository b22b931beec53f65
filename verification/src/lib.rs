//! A deterministic, inspectable memory allocator meant as a test harness for
//! data structures that manage memory ownership.
//!
//! The allocator hands out offsets from a fixed 64-KiB arena and lets a test
//! author observe exactly what has been written, leaked, or left untouched.
//! Free space is tracked by a run-length-prefix encoding over a single linear
//! array of counters: an allocated offset carries counter `0`, and each free
//! offset carries its distance from the start of the maximal free run that
//! contains it.
//!
//! `LuosMemory` is the arena itself, created either zero-filled or filled with
//! a caller-chosen poison byte so that untouched memory is distinguishable
//! from genuinely zeroed memory.  `LuosAlloc` binds an arena to a free-space
//! tracker and offers `allocate`, `allocate_zeroed`, `deallocate` and
//! `reallocate`.
//! `LuosMustReplaceAlloc` is a fault-injection variant whose `realloc` always
//! moves the block, and `LuosGlobalAlloc` owns an allocator behind a single
//! heap indirection, released exactly once when it is dropped.

mod mem_sandbox;
pub mod runs;

pub use mem_sandbox::AllocErr;
pub use mem_sandbox::LuosAlloc;
pub use mem_sandbox::LuosGlobalAlloc;
pub use mem_sandbox::LuosMemory;
pub use mem_sandbox::LuosMustReplaceAlloc;
