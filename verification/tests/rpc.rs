//! End-to-end tests of the server dispatch over the model registry: the full
//! lump lifecycle on one registered device, and the failure of every
//! operation against an unregistered device id.

use cannyls_rpc::device::DeviceId;
use cannyls_rpc::dispatch::{
    handle_delete_lump, handle_delete_range, handle_get_lump, handle_head_lump, handle_list_lumps,
    handle_put_lump, handle_usage_range, ModelDevice, ModelRegistry,
};
use cannyls_rpc::error::ErrorKind;
use cannyls_rpc::lump::{LumpData, LumpId, StorageUsage};
use cannyls_rpc::options::{Deadline, RequestOptions};
use cannyls_rpc::rpc::{DeviceRequest, LumpRequest, PutLumpRequest, UsageRangeRequest};
use cannyls_rpc::responses::{
    decode_bool_response, decode_get_response, decode_head_response, decode_list_response,
    decode_usage_response, encode_bool_response, encode_get_response, encode_head_response,
    encode_list_response, encode_usage_response,
};
use cannyls_rpc::error::Error;
use cannyls_rpc::lump::LumpHeader;

fn device_id() -> DeviceId {
    DeviceId::new("foo".to_string())
}

fn lump_id(n: u128) -> LumpId {
    LumpId::new(n)
}

fn options() -> RequestOptions {
    RequestOptions {
        deadline: Deadline::Infinity,
        max_queue_len: None,
    }
}

fn lump_request(device: &str, n: u128) -> LumpRequest {
    LumpRequest {
        device_id: DeviceId::new(device.to_string()),
        lump_id: lump_id(n),
        options: options(),
    }
}

fn device_request(device: &str) -> DeviceRequest {
    DeviceRequest {
        device_id: DeviceId::new(device.to_string()),
        options: options(),
    }
}

fn range_request(device: &str, start: u128, end: u128) -> UsageRangeRequest {
    UsageRangeRequest {
        device_id: DeviceId::new(device.to_string()),
        start: lump_id(start),
        end: lump_id(end),
        options: options(),
    }
}

fn registry_with_foo() -> ModelRegistry {
    let mut reg: ModelRegistry = ModelRegistry::new();
    reg.put_device(device_id(), ModelDevice::new(512)).unwrap();
    reg.drain_commands();
    reg
}

#[test]
fn basic_lump_lifecycle_works() {
    let mut reg = registry_with_foo();

    assert_eq!(handle_list_lumps(&mut reg, &device_request("foo")).unwrap(), vec![]);
    assert_eq!(handle_get_lump(&mut reg, &lump_request("foo", 0)).unwrap(), None);
    assert_eq!(
        handle_put_lump(
            &mut reg,
            PutLumpRequest {
                device_id: device_id(),
                lump_id: lump_id(0),
                lump_data: LumpData::new(Vec::from("bar")).unwrap(),
                options: options(),
            },
        )
        .unwrap(),
        true
    );
    assert_eq!(
        handle_get_lump(&mut reg, &lump_request("foo", 0))
            .unwrap()
            .map(|d| d.into_bytes()),
        Some(Vec::from("bar"))
    );
    assert_eq!(
        handle_head_lump(&mut reg, &lump_request("foo", 0))
            .unwrap()
            .map(|h| h.approximate_data_size),
        Some(3)
    );
    assert_eq!(
        handle_list_lumps(&mut reg, &device_request("foo")).unwrap(),
        vec![lump_id(0)]
    );
    assert_eq!(handle_delete_lump(&mut reg, &lump_request("foo", 0)).unwrap(), true);
    assert_eq!(handle_list_lumps(&mut reg, &device_request("foo")).unwrap(), vec![]);
}

#[test]
fn put_overwrites_and_delete_reports_absence() {
    let mut reg = registry_with_foo();
    let put = |reg: &mut ModelRegistry, n: u128, bytes: &str| {
        handle_put_lump(
            reg,
            PutLumpRequest {
                device_id: device_id(),
                lump_id: lump_id(n),
                lump_data: LumpData::new(Vec::from(bytes)).unwrap(),
                options: options(),
            },
        )
        .unwrap()
    };
    assert_eq!(put(&mut reg, 5, "one"), true);
    assert_eq!(put(&mut reg, 5, "two"), false);
    assert_eq!(
        handle_get_lump(&mut reg, &lump_request("foo", 5))
            .unwrap()
            .map(|d| d.into_bytes()),
        Some(Vec::from("two"))
    );
    assert_eq!(handle_delete_lump(&mut reg, &lump_request("foo", 5)).unwrap(), true);
    assert_eq!(handle_delete_lump(&mut reg, &lump_request("foo", 5)).unwrap(), false);
}

#[test]
fn ranges_cover_half_open_intervals() {
    let mut reg = registry_with_foo();
    for n in [1u128, 2, 3, 5] {
        handle_put_lump(
            &mut reg,
            PutLumpRequest {
                device_id: device_id(),
                lump_id: lump_id(n),
                lump_data: LumpData::new(vec![0u8; n as usize]).unwrap(),
                options: options(),
            },
        )
        .unwrap();
    }
    // Usage over [2, 5): lumps 2 and 3, of sizes 2 and 3.
    assert_eq!(
        handle_usage_range(&mut reg, &range_request("foo", 2, 5)).unwrap(),
        StorageUsage::Approximate(5)
    );
    // Delete over [2, 5): removes 2 and 3, in ascending order.
    assert_eq!(
        handle_delete_range(&mut reg, &range_request("foo", 2, 5)).unwrap(),
        vec![lump_id(2), lump_id(3)]
    );
    assert_eq!(
        handle_list_lumps(&mut reg, &device_request("foo")).unwrap(),
        vec![lump_id(1), lump_id(5)]
    );
}

#[test]
fn unknown_device_fails_every_operation_with_invalid_input() {
    let mut reg = registry_with_foo();
    assert_eq!(
        handle_get_lump(&mut reg, &lump_request("nope", 0)).unwrap_err().kind,
        ErrorKind::InvalidInput
    );
    assert_eq!(
        handle_head_lump(&mut reg, &lump_request("nope", 0)).unwrap_err().kind,
        ErrorKind::InvalidInput
    );
    assert_eq!(
        handle_put_lump(
            &mut reg,
            PutLumpRequest {
                device_id: DeviceId::new("nope".to_string()),
                lump_id: lump_id(0),
                lump_data: LumpData::new(Vec::from("x")).unwrap(),
                options: options(),
            },
        )
        .unwrap_err()
        .kind,
        ErrorKind::InvalidInput
    );
    assert_eq!(
        handle_delete_lump(&mut reg, &lump_request("nope", 0)).unwrap_err().kind,
        ErrorKind::InvalidInput
    );
    assert_eq!(
        handle_list_lumps(&mut reg, &device_request("nope")).unwrap_err().kind,
        ErrorKind::InvalidInput
    );
    assert_eq!(
        handle_usage_range(&mut reg, &range_request("nope", 0, 9)).unwrap_err().kind,
        ErrorKind::InvalidInput
    );
    assert_eq!(
        handle_delete_range(&mut reg, &range_request("nope", 0, 9)).unwrap_err().kind,
        ErrorKind::InvalidInput
    );
}

#[test]
fn responses_round_trip_over_the_wire() {
    let err = Error::new(ErrorKind::DeviceBusy, "queue over limit".to_string());

    for v in [Ok(true), Ok(false), Err(err.clone())] {
        let bytes = encode_bool_response(&v);
        assert_eq!(decode_bool_response(&bytes, 0, bytes.len()).unwrap(), v);
    }
    for v in [
        Ok(None),
        Ok(Some(LumpHeader { approximate_data_size: 3 })),
        Err(err.clone()),
    ] {
        let bytes = encode_head_response(&v);
        assert_eq!(decode_head_response(&bytes, 0, bytes.len()).unwrap(), v);
    }
    for v in [
        Ok(None),
        Ok(Some(LumpData::new(Vec::from("bar")).unwrap())),
        Err(err.clone()),
    ] {
        let bytes = encode_get_response(&v);
        assert_eq!(decode_get_response(&bytes, 0, bytes.len()).unwrap(), v);
    }
    for v in [
        Ok(vec![]),
        Ok(vec![LumpId::new(0), LumpId::new(7)]),
        Err(err.clone()),
    ] {
        let bytes = encode_list_response(&v);
        assert_eq!(decode_list_response(&bytes, 0, bytes.len()).unwrap(), v);
    }
    for v in [
        Ok(StorageUsage::Unknown),
        Ok(StorageUsage::Approximate(1024)),
        Err(err.clone()),
    ] {
        let bytes = encode_usage_response(&v);
        assert_eq!(decode_usage_response(&bytes, 0, bytes.len()).unwrap(), v);
    }
}
