//! The RPC catalogue: one request/response pair per storage operation, and
//! the procedure identifiers the transport dispatches on.

use vstd::prelude::*;

use crate::device::DeviceId;
use crate::lump::{LumpData, LumpId};
use crate::options::RequestOptions;

verus! {

/// Procedure-id namespace reserved for the lump storage operations.
pub const RPC_NAMESPACE: u32 = 0x0001_0000;

/// Procedure id of the get-lump operation.
pub const RPC_ID_GET_LUMP: u32 = 0x0001_0001;

/// Procedure id of the head-lump operation.
pub const RPC_ID_HEAD_LUMP: u32 = 0x0001_0002;

/// Procedure id of the put-lump operation.
pub const RPC_ID_PUT_LUMP: u32 = 0x0001_0003;

/// Procedure id of the delete-lump operation.
pub const RPC_ID_DELETE_LUMP: u32 = 0x0001_0004;

/// Procedure id of the list-lumps operation.
pub const RPC_ID_LIST_LUMPS: u32 = 0x0001_0005;

/// Procedure id of the usage-range operation.
pub const RPC_ID_USAGE_RANGE: u32 = 0x0001_0006;

/// Procedure id of the delete-range operation.
pub const RPC_ID_DELETE_RANGE: u32 = 0x0001_0007;

/// Marker of the get-lump procedure.
#[derive(Debug)]
pub struct GetLumpRpc;

/// Marker of the head-lump procedure.
#[derive(Debug)]
pub struct HeadLumpRpc;

/// Marker of the put-lump procedure.
#[derive(Debug)]
pub struct PutLumpRpc;

/// Marker of the delete-lump procedure.
#[derive(Debug)]
pub struct DeleteLumpRpc;

/// Marker of the list-lumps procedure.
#[derive(Debug)]
pub struct ListLumpRpc;

/// Marker of the usage-range procedure.
#[derive(Debug)]
pub struct UsageRangeRpc;

/// Marker of the delete-range procedure.
#[derive(Debug)]
pub struct DeleteRangeRpc;

/// A request that names only a device: list-lumps.
#[derive(Debug, Clone, PartialEq, Eq)]
pub struct DeviceRequest {
    /// The device the operation addresses.
    pub device_id: DeviceId,
    /// Scheduling and admission options.
    pub options: RequestOptions,
}

/// A request that names a device and one lump: get, head, delete.
#[derive(Debug, Clone, PartialEq, Eq)]
pub struct LumpRequest {
    /// The device the operation addresses.
    pub device_id: DeviceId,
    /// The lump the operation addresses.
    pub lump_id: LumpId,
    /// Scheduling and admission options.
    pub options: RequestOptions,
}

/// A request that stores one lump's payload: put.
#[derive(Debug, Clone, PartialEq, Eq)]
pub struct PutLumpRequest {
    /// The device the operation addresses.
    pub device_id: DeviceId,
    /// The lump the payload is stored under.
    pub lump_id: LumpId,
    /// The payload to store.
    pub lump_data: LumpData,
    /// Scheduling and admission options.
    pub options: RequestOptions,
}

/// A request over a half-open range `[start, end)` of lump ids: usage-range
/// and delete-range.
#[derive(Debug, Clone, PartialEq, Eq)]
pub struct UsageRangeRequest {
    /// The device the operation addresses.
    pub device_id: DeviceId,
    /// Inclusive lower bound of the range.
    pub start: LumpId,
    /// Exclusive upper bound of the range.
    pub end: LumpId,
    /// Scheduling and admission options.
    pub options: RequestOptions,
}

} // verus!
