//! A minimal runtime memory manager: a bounded operand stack of roots over an
//! arena of heap objects, with a tracing mark-and-sweep collector that
//! reclaims every object unreachable from the stack and adapts its collection
//! threshold to the size of the surviving live set.

pub mod object;
pub mod vm;
