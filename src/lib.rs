//! The connection channel of a cast device-control client: it decides when a
//! session with a destination is opened or closed on a shared transport, builds
//! the control frames for that, and decodes inbound frames of its namespace.

pub mod frame;
pub mod json;
pub mod channel;
