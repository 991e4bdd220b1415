//! Round-trip and failure tests of the wire codec.

use cannyls_rpc::codec::{
    decode_deadline, decode_duration, decode_error, decode_lump_id, decode_request_options,
    decode_storage_usage, encode_lump_id,
};
use cannyls_rpc::device::DeviceId;
use cannyls_rpc::error::{DecodeError, Error, ErrorKind};
use cannyls_rpc::lump::{LumpId, StorageUsage};
use cannyls_rpc::messages::{
    decode_device_request, decode_lump_request, decode_usage_range_request, encode_device_request,
    encode_lump_request, encode_usage_range_request,
};
use cannyls_rpc::options::{Deadline, Duration, RequestOptions};
use cannyls_rpc::rpc::{DeviceRequest, LumpRequest, UsageRangeRequest};

fn encode_deadline_bytes(d: &Deadline) -> Vec<u8> {
    let mut out = Vec::new();
    cannyls_rpc::codec::write_deadline(&mut out, d);
    out
}

fn encode_duration_bytes(d: &Duration) -> Vec<u8> {
    let mut out = Vec::new();
    cannyls_rpc::codec::write_duration(&mut out, d);
    out
}

fn encode_storage_usage_bytes(u: &StorageUsage) -> Vec<u8> {
    let mut out = Vec::new();
    cannyls_rpc::codec::write_storage_usage(&mut out, u);
    out
}

fn encode_request_options_bytes(o: &RequestOptions) -> Vec<u8> {
    let mut out = Vec::new();
    cannyls_rpc::codec::write_request_options(&mut out, o);
    out
}

fn encode_error_bytes(e: &Error) -> Vec<u8> {
    let mut out = Vec::new();
    cannyls_rpc::codec::write_error(&mut out, e);
    out
}

fn lump_id_round_trip(id: LumpId) -> LumpId {
    let bytes = encode_lump_id(&id);
    decode_lump_id(&bytes, 0, bytes.len()).unwrap()
}

#[test]
fn lump_id_encdec_works() {
    assert_eq!(lump_id_round_trip(LumpId::new(0)), LumpId::new(0));
    assert_eq!(
        lump_id_round_trip(LumpId::new((123 << 64) | 345)),
        LumpId::new((123 << 64) | 345)
    );
}

#[test]
fn deadline_encdec_works() {
    for d in [
        Deadline::Immediate,
        Deadline::Infinity,
        Deadline::Within(Duration::from_secs(0)),
        Deadline::Within(Duration::from_millis(123)),
    ] {
        let bytes = encode_deadline_bytes(&d);
        assert_eq!(decode_deadline(&bytes, 0, bytes.len()).unwrap(), d);
    }
}

#[test]
fn request_options_encdec_works() {
    for o in [
        RequestOptions {
            deadline: Deadline::Immediate,
            max_queue_len: None,
        },
        RequestOptions {
            deadline: Deadline::Infinity,
            max_queue_len: Some(0),
        },
        RequestOptions {
            deadline: Deadline::Infinity,
            max_queue_len: Some(123),
        },
    ] {
        let bytes = encode_request_options_bytes(&o);
        assert_eq!(decode_request_options(&bytes, 0, bytes.len()).unwrap(), o);
    }
}

#[test]
fn usage_range_request_encdec_works() {
    let request = UsageRangeRequest {
        device_id: DeviceId::new("device".to_string()),
        start: LumpId::new(1),
        end: LumpId::new(3),
        options: RequestOptions {
            deadline: Deadline::Infinity,
            max_queue_len: Some(123),
        },
    };
    let bytes = encode_usage_range_request(&request);
    assert_eq!(
        decode_usage_range_request(&bytes, 0, bytes.len()).unwrap(),
        request
    );
}

#[test]
fn duration_encdec_works() {
    let d = Duration::new(7, 999_999_999);
    let bytes = encode_duration_bytes(&d);
    assert_eq!(decode_duration(&bytes, 0, bytes.len()).unwrap(), d);
}

#[test]
fn storage_usage_encdec_works() {
    for u in [StorageUsage::Unknown, StorageUsage::Approximate(0), StorageUsage::Approximate(u64::MAX)] {
        let bytes = encode_storage_usage_bytes(&u);
        assert_eq!(decode_storage_usage(&bytes, 0, bytes.len()).unwrap(), u);
    }
}

#[test]
fn error_encdec_works() {
    for kind in [
        ErrorKind::StorageFull,
        ErrorKind::StorageCorrupted,
        ErrorKind::DeviceBusy,
        ErrorKind::DeviceTerminated,
        ErrorKind::InvalidInput,
        ErrorKind::InconsistentState,
        ErrorKind::Other,
    ] {
        let e = Error::new(kind, "something went wrong".to_string());
        let bytes = encode_error_bytes(&e);
        let back = decode_error(&bytes, 0, bytes.len()).unwrap();
        assert_eq!(back.kind, kind);
        assert_eq!(back.message, "something went wrong");
    }
}

#[test]
fn unknown_error_tag_decodes_to_other() {
    // An error whose kind tag is not one of the seven known tags folds to
    // the catch-all kind: build the message by hand, field one holding the
    // tag, field two the message.
    let mut bytes = Vec::new();
    bytes.push(0x0A); // field 1, length-delimited
    bytes.push(7);
    bytes.extend_from_slice(b"Unheard");
    bytes.push(0x12); // field 2, length-delimited
    bytes.push(3);
    bytes.extend_from_slice(b"ctx");
    let back = decode_error(&bytes, 0, bytes.len()).unwrap();
    assert_eq!(back.kind, ErrorKind::Other);
    assert_eq!(back.message, "ctx");
}

#[test]
fn unknown_deadline_discriminator_is_invalid_input() {
    // field 1 varint with discriminator 3: no such deadline.  The decode
    // error carries the offending discriminator.
    let bytes = vec![0x08, 3];
    assert_eq!(
        decode_deadline(&bytes, 0, bytes.len()),
        Err(DecodeError::InvalidInput(Some(3)))
    );
}

#[test]
fn unknown_storage_usage_discriminator_is_invalid_input() {
    let bytes = vec![0x08, 9, 0x10, 0];
    assert_eq!(
        decode_storage_usage(&bytes, 0, bytes.len()),
        Err(DecodeError::InvalidInput(Some(9)))
    );
}

#[test]
fn truncated_lump_id_is_invalid_input() {
    let id = LumpId::new(42);
    let bytes = encode_lump_id(&id);
    assert_eq!(
        decode_lump_id(&bytes, 0, bytes.len() - 1),
        Err(DecodeError::InvalidInput(None))
    );
}

#[test]
fn fields_decode_in_any_order() {
    // A lump request with its fields reversed: options, lump id, device id.
    let req = LumpRequest {
        device_id: DeviceId::new("disk0".to_string()),
        lump_id: LumpId::new(9),
        options: RequestOptions {
            deadline: Deadline::Immediate,
            max_queue_len: Some(4),
        },
    };
    let mut opts = Vec::new();
    cannyls_rpc::codec::write_request_options(&mut opts, &req.options);
    let id_msg = encode_lump_id(&req.lump_id);
    let mut bytes = Vec::new();
    bytes.push(0x1A); // field 3, length-delimited
    bytes.push(opts.len() as u8);
    bytes.extend_from_slice(&opts);
    bytes.push(0x12); // field 2, length-delimited
    bytes.push(id_msg.len() as u8);
    bytes.extend_from_slice(&id_msg);
    bytes.push(0x0A); // field 1, length-delimited
    bytes.push(5);
    bytes.extend_from_slice(b"disk0");
    assert_eq!(decode_lump_request(&bytes, 0, bytes.len()).unwrap(), req);
}

#[test]
fn omitted_default_fields_decode_to_defaults() {
    // Request options whose queue-length field is omitted: no limit.
    let mut dl = Vec::new();
    cannyls_rpc::codec::write_deadline(&mut dl, &Deadline::Immediate);
    let mut bytes = Vec::new();
    bytes.push(0x0A); // field 1, length-delimited
    bytes.push(dl.len() as u8);
    bytes.extend_from_slice(&dl);
    assert_eq!(
        decode_request_options(&bytes, 0, bytes.len()).unwrap(),
        RequestOptions {
            deadline: Deadline::Immediate,
            max_queue_len: None,
        }
    );
    // Request options whose deadline field is omitted too: the empty
    // message means no urgency and no limit.
    let empty: Vec<u8> = Vec::new();
    assert_eq!(
        decode_request_options(&empty, 0, 0).unwrap(),
        RequestOptions {
            deadline: Deadline::Infinity,
            max_queue_len: None,
        }
    );
    // An empty storage usage message is "unknown".
    assert_eq!(
        decode_storage_usage(&empty, 0, 0).unwrap(),
        StorageUsage::Unknown
    );
    // A bounded deadline whose duration field is omitted is bounded by zero.
    let kind_only = vec![0x08, 1];
    assert_eq!(
        decode_deadline(&kind_only, 0, kind_only.len()).unwrap(),
        Deadline::Within(Duration::from_secs(0))
    );
}

#[test]
fn unknown_fields_are_skipped() {
    // A storage usage message with an unknown varint field 7, an unknown
    // fixed64 field 8, and an unknown length-delimited field 9 interleaved.
    let mut bytes = vec![0x38, 5]; // field 7, varint
    bytes.push(0x08); // field 1, varint: discriminator
    bytes.push(1);
    bytes.extend_from_slice(&[0x41, 1, 2, 3, 4, 5, 6, 7, 8]); // field 8, fixed64
    bytes.push(0x10); // field 2, varint: magnitude
    bytes.push(99);
    bytes.extend_from_slice(&[0x4A, 2, 0xAB, 0xCD]); // field 9, length-delimited
    assert_eq!(
        decode_storage_usage(&bytes, 0, bytes.len()).unwrap(),
        StorageUsage::Approximate(99)
    );
}

#[test]
fn later_field_occurrences_win() {
    // Two discriminator fields: the later one decides.
    let bytes = vec![0x08, 1, 0x10, 7, 0x08, 0];
    assert_eq!(
        decode_storage_usage(&bytes, 0, bytes.len()).unwrap(),
        StorageUsage::Unknown
    );
}

#[test]
fn queue_len_wire_values() {
    // No limit travels as wire value 0; a limit of zero as wire value 1.
    let none = RequestOptions {
        deadline: Deadline::Infinity,
        max_queue_len: None,
    };
    let zero = RequestOptions {
        deadline: Deadline::Infinity,
        max_queue_len: Some(0),
    };
    let nb = encode_request_options_bytes(&none);
    let zb = encode_request_options_bytes(&zero);
    // The queue-length field is the message's last varint field.
    assert_eq!(nb[nb.len() - 1], 0);
    assert_eq!(zb[zb.len() - 1], 1);
    assert_eq!(
        decode_request_options(&nb, 0, nb.len()).unwrap().max_queue_len,
        None
    );
    assert_eq!(
        decode_request_options(&zb, 0, zb.len()).unwrap().max_queue_len,
        Some(0)
    );
}

#[test]
fn lump_request_encdec_works() {
    let req = LumpRequest {
        device_id: DeviceId::new("disk0".to_string()),
        lump_id: LumpId::new(0xDEAD_BEEF),
        options: RequestOptions {
            deadline: Deadline::Within(Duration::from_millis(250)),
            max_queue_len: Some(16),
        },
    };
    let bytes = encode_lump_request(&req);
    assert_eq!(decode_lump_request(&bytes, 0, bytes.len()).unwrap(), req);
}

#[test]
fn device_request_encdec_works() {
    let req = DeviceRequest {
        device_id: DeviceId::new("disk1".to_string()),
        options: RequestOptions {
            deadline: Deadline::Infinity,
            max_queue_len: None,
        },
    };
    let bytes = encode_device_request(&req);
    assert_eq!(decode_device_request(&bytes, 0, bytes.len()).unwrap(), req);
}
