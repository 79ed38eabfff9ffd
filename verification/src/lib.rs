//! Serial toolkit: framing, checksums, Modbus RTU, serial sessions, task
//! scripts, project snapshots and gateway connection state.

pub mod bytes;
pub mod commands;
pub mod gateway;
pub mod protocol;
pub mod serial;
pub mod store;
pub mod task;
pub mod text;
