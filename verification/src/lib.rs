//! RPC layer for a local key/value "lump" storage engine.
//!
//! The crate defines the binary wire codec for every storage operation, a
//! streaming decoder that chooses a storage strategy for a lump's payload
//! mid-decode, and the state machine of the device registry through which
//! concurrent callers address storage devices by name.

pub mod codec;
pub mod device;
pub mod dispatch;
pub mod error;
pub mod lump;
pub mod messages;
pub mod options;
pub mod payload;
pub mod registry;
pub mod responses;
pub mod rpc;
pub mod store;
pub mod wire;

pub use crate::device::DeviceId;
pub use crate::registry::DeviceRegistry;
