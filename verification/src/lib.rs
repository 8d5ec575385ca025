//! A named-action dispatch bridge: locates a command registered in an
//! execution context by tool name, invokes it, and records the call and its
//! outcome as a human-readable transcript line.

pub mod value;
pub mod codec;
pub mod registry;
pub mod dispatch;
pub mod decode;
