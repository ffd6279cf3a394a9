//! Guest-side bridge between a sandboxed module's linear memory and the host
//! runtime that feeds it one record at a time.
//!
//! The crate is organised leaves first:
//!
//! * [`codec`]: the convention that folds an address and a length into one
//!   64-bit handle;
//! * [`memory`]: the guest's linear memory and the allocator that hands out
//!   regions of it;
//! * [`record`]: the record a host holds, and the import surface through which
//!   the guest reaches it;
//! * [`accessors`]: the per-field get/set/remove functions that transformation
//!   logic calls;
//! * [`functions`]: transformations built on the accessors alone.
pub mod accessors;
pub mod codec;
pub mod functions;
pub mod memory;
pub mod record;
