//! Tests of the streaming payload decoder: chunk-split independence,
//! storage-strategy selection, and the put-lump request codec.

use cannyls_rpc::device::DeviceId;
use cannyls_rpc::error::DecodeError;
use cannyls_rpc::lump::{LumpData, LumpDataKind, MAX_LUMP_DATA_SIZE};
use cannyls_rpc::options::{Deadline, RequestOptions};
use cannyls_rpc::payload::{
    decode_payload_chunks, DeviceDirectory, LumpDataDecoder, PutLumpRequestDecoder,
    encode_put_lump_request,
};
use cannyls_rpc::lump::LumpId;
use cannyls_rpc::rpc::PutLumpRequest;

#[test]
fn any_chunk_split_decodes_to_the_same_payload() {
    let payload: Vec<u8> = (0..=255u8).cycle().take(2000).collect();
    let splits: Vec<Vec<Vec<u8>>> = vec![
        vec![payload.clone()],
        vec![payload[..1].to_vec(), payload[1..].to_vec()],
        vec![
            payload[..700].to_vec(),
            payload[700..700].to_vec(),
            payload[700..1999].to_vec(),
            payload[1999..].to_vec(),
        ],
        payload.chunks(3).map(|c| c.to_vec()).collect(),
    ];
    for chunks in splits {
        let data = decode_payload_chunks(None, &chunks).unwrap();
        assert_eq!(data.as_bytes(), &payload[..]);
        assert_eq!(data.kind(), LumpDataKind::Heap); // 2000 > 512, no device
    }
}

#[test]
fn empty_payload_decodes_empty() {
    let data = decode_payload_chunks(None, &vec![]).unwrap();
    assert_eq!(data.as_bytes(), &[] as &[u8]);
    assert_eq!(data.kind(), LumpDataKind::Embedded); // 0 <= minimum block size
}

#[test]
fn strategy_follows_size_and_hint() {
    let small: Vec<Vec<u8>> = vec![vec![7u8; 1024]];
    let large: Vec<Vec<u8>> = vec![vec![7u8; 1025]];

    // Resolvable device with block size 1024: at most one block is embedded,
    // more goes through the device's allocator.
    let d = decode_payload_chunks(Some(1024), &small).unwrap();
    assert_eq!(d.kind(), LumpDataKind::Embedded);
    let d = decode_payload_chunks(Some(1024), &large).unwrap();
    assert_eq!(d.kind(), LumpDataKind::DeviceAllocated);

    // No resolvable device: payloads over one minimum-size block live on the
    // plain heap; smaller ones are still embedded.
    let d = decode_payload_chunks(None, &large).unwrap();
    assert_eq!(d.kind(), LumpDataKind::Heap);
    let d = decode_payload_chunks(None, &vec![vec![7u8; 512]]).unwrap();
    assert_eq!(d.kind(), LumpDataKind::Embedded);
}

#[test]
fn oversized_payload_is_rejected() {
    let chunks = vec![vec![0u8; MAX_LUMP_DATA_SIZE + 1]];
    assert!(decode_payload_chunks(None, &chunks).is_err());
}

#[test]
fn finish_before_any_chunk_is_incomplete_decoding() {
    let mut dec = LumpDataDecoder::new();
    assert_eq!(dec.finish(), Err(DecodeError::IncompleteDecoding));
}

#[test]
fn finish_before_all_bytes_is_incomplete_decoding() {
    let mut dec = LumpDataDecoder::new();
    // Two bytes in hand, three more promised.
    dec.decode_chunk(&[1, 2], 3).unwrap();
    assert_eq!(dec.finish(), Err(DecodeError::IncompleteDecoding));
}

#[test]
fn hint_is_discarded_by_finish() {
    let mut dec = LumpDataDecoder::new();
    dec.set_device_hint(Some(4096));
    dec.decode_chunk(&[1, 2, 3], 0).unwrap();
    let data = dec.finish().unwrap();
    assert_eq!(data.as_bytes(), &[1, 2, 3]);
    assert_eq!(data.kind(), LumpDataKind::Embedded);
    // The next decode on the same decoder sees no hint: a payload larger
    // than one minimum-size block now goes to the heap.
    dec.decode_chunk(&vec![9u8; 600], 0).unwrap();
    let data = dec.finish().unwrap();
    assert_eq!(data.kind(), LumpDataKind::Heap);
}

#[test]
fn put_lump_payload_before_device_id_skips_the_hint() {
    // Encode a put-lump request by hand with the payload field before the
    // device id: the hint is silently skipped, so a payload larger than one
    // minimum-size block lands on the heap even though the id resolves.
    let device_id = DeviceId::new("disk0".to_string());
    let payload = vec![5u8; 700];
    let id_msg = cannyls_rpc::codec::encode_lump_id(&LumpId::new(77));
    let mut opts = Vec::new();
    cannyls_rpc::codec::write_request_options(
        &mut opts,
        &RequestOptions {
            deadline: Deadline::Immediate,
            max_queue_len: None,
        },
    );
    let mut bytes = Vec::new();
    bytes.push(0x1A); // field 3, length-delimited: the payload first
    bytes.push(0xBC); // 700 as a two-byte varint
    bytes.push(0x05);
    bytes.extend_from_slice(&payload);
    bytes.push(0x0A); // field 1: the device id, after the payload
    bytes.push(5);
    bytes.extend_from_slice(b"disk0");
    bytes.push(0x12); // field 2: the lump id
    bytes.push(id_msg.len() as u8);
    bytes.extend_from_slice(&id_msg);
    bytes.push(0x22); // field 4: the options
    bytes.push(opts.len() as u8);
    bytes.extend_from_slice(&opts);

    let mut directory = DeviceDirectory::new();
    directory.push(device_id.clone(), 1024);
    let decoder = PutLumpRequestDecoder::new(directory);
    let back = decoder.decode(&bytes, 0, bytes.len()).unwrap();
    assert_eq!(back.device_id, device_id);
    assert_eq!(back.lump_data.as_bytes(), &payload[..]);
    // 700 exceeds the minimum block size and no hint was available yet.
    assert_eq!(back.lump_data.kind(), LumpDataKind::Heap);
}

#[test]
fn put_lump_request_decodes_with_device_strategy() {
    let device_id = DeviceId::new("disk0".to_string());
    let req = PutLumpRequest {
        device_id: device_id.clone(),
        lump_id: LumpId::new(77),
        lump_data: LumpData::new(vec![5u8; 700]).unwrap(),
        options: RequestOptions {
            deadline: Deadline::Immediate,
            max_queue_len: None,
        },
    };
    let bytes = encode_put_lump_request(&req);

    // The request's device id resolves: 700 bytes exceed the minimum block
    // but fit one 1024-byte block, so the payload is embedded.
    let mut directory = DeviceDirectory::new();
    directory.push(device_id.clone(), 1024);
    let decoder = PutLumpRequestDecoder::new(directory);
    let back = decoder.decode(&bytes, 0, bytes.len()).unwrap();
    assert_eq!(back.device_id, req.device_id);
    assert_eq!(back.lump_id, req.lump_id);
    assert_eq!(back.options, req.options);
    assert_eq!(back.lump_data.as_bytes(), req.lump_data.as_bytes());
    assert_eq!(back.lump_data.kind(), LumpDataKind::Embedded);

    // An unresolvable device id falls back to the no-hint path: 700 bytes
    // exceed the minimum block, so the payload is a plain heap buffer.
    let decoder = PutLumpRequestDecoder::new(DeviceDirectory::new());
    let back = decoder.decode(&bytes, 0, bytes.len()).unwrap();
    assert_eq!(back.lump_data.as_bytes(), req.lump_data.as_bytes());
    assert_eq!(back.lump_data.kind(), LumpDataKind::Heap);
}
