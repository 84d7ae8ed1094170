use std::io::Write;

use blf_signals::blf_reader::{parse_record_header, BlfError, BlfReader, CanMessage, RecordHeader};
use blf_signals::bytes::find_pattern;
use blf_signals::systime::systemtime_to_timestamp;

fn systemtime(fields: [u16; 8]) -> Vec<u8> {
    fields.iter().flat_map(|f| f.to_le_bytes()).collect()
}

fn file_header(start: [u16; 8]) -> Vec<u8> {
    let mut v = b"LOGG".to_vec();
    v.extend(144u32.to_le_bytes());
    v.resize(56, 0);
    v.extend(systemtime(start));
    v.resize(144, 0);
    v
}

/// A CAN_MESSAGE inner object with a nanosecond time stamp.
fn can_object(ticks: u64, channel: u16, flags: u8, id: u32, data: &[u8]) -> Vec<u8> {
    let mut v = b"LOBJ".to_vec();
    v.extend(16u16.to_le_bytes());
    v.extend(1u16.to_le_bytes());
    v.extend(48u32.to_le_bytes());
    v.extend(1u32.to_le_bytes());
    v.extend(2u32.to_le_bytes());
    v.extend(0u32.to_le_bytes());
    v.extend(ticks.to_le_bytes());
    v.extend(channel.to_le_bytes());
    v.push(flags);
    v.push(data.len() as u8);
    v.extend(id.to_le_bytes());
    let mut d = [0u8; 8];
    d[..data.len()].copy_from_slice(data);
    v.extend(d);
    v
}

fn container(payload: &[u8], method: u16, uncompressed: usize) -> Vec<u8> {
    let mut body = method.to_le_bytes().to_vec();
    body.resize(8, 0);
    body.extend((uncompressed as u32).to_le_bytes());
    body.resize(16, 0);
    body.extend_from_slice(payload);
    let size = 16 + body.len() as u32;
    let mut v = b"LOBJ".to_vec();
    v.extend(16u16.to_le_bytes());
    v.extend(1u16.to_le_bytes());
    v.extend(size.to_le_bytes());
    v.extend(10u32.to_le_bytes());
    v.extend(body);
    v.resize(v.len() + (size % 4) as usize, 0);
    v
}

fn plain(payload: &[u8]) -> Vec<u8> {
    container(payload, 0, payload.len())
}

fn zlib(payload: &[u8]) -> Vec<u8> {
    let mut enc = flate2::write::ZlibEncoder::new(Vec::new(), flate2::Compression::default());
    enc.write_all(payload).unwrap();
    container(&enc.finish().unwrap(), 2, payload.len())
}

const START: [u16; 8] = [2020, 1, 3, 1, 0, 0, 0, 0];
const START_MS: i64 = 1_577_836_800_000;

fn file(containers: &[Vec<u8>]) -> Vec<u8> {
    let mut v = file_header(START);
    for c in containers {
        v.extend_from_slice(c);
    }
    v
}

fn read_all(bytes: Vec<u8>) -> Result<Vec<CanMessage>, BlfError> {
    BlfReader::from_reader(bytes)?.read_messages()
}

fn summary(frames: &[CanMessage]) -> Vec<(i128, u32, u8, Vec<u8>, bool, bool)> {
    frames
        .iter()
        .map(|f| (f.timestamp_ns, f.arbitration_id, f.channel, f.data.clone(), f.is_extended_id, f.is_remote_frame))
        .collect()
}

#[test]
fn systemtime_epoch_and_leap_day() {
    assert_eq!(systemtime_to_timestamp(&systemtime([1970, 1, 4, 1, 0, 0, 0, 0])), 0);
    assert_eq!(systemtime_to_timestamp(&systemtime(START)), START_MS);
    // 2024-02-29 12:34:56.789 UTC
    assert_eq!(systemtime_to_timestamp(&systemtime([2024, 2, 4, 29, 12, 34, 56, 789])), 1_709_210_096_789);
    // 2000-03-01, after a leap day in a century year divisible by 400.
    assert_eq!(systemtime_to_timestamp(&systemtime([2000, 3, 3, 1, 0, 0, 0, 0])), 951_868_800_000);
    // 1900-03-01, no leap day in 1900.
    assert_eq!(systemtime_to_timestamp(&systemtime([1900, 3, 4, 1, 0, 0, 0, 0])), -2_203_891_200_000);
    assert_eq!(systemtime_to_timestamp(&[0u8; 15]), 0);
}

#[test]
fn find_pattern_first_match() {
    assert_eq!(find_pattern(b"xxLOBJLOBJ", b"LOBJ"), Some(2));
    assert_eq!(find_pattern(b"LOB", b"LOBJ"), None);
    assert_eq!(find_pattern(b"abcabc", b"c"), Some(2));
}

#[test]
fn reads_frames_of_a_plain_container() {
    let mut payload = can_object(1_000, 1, 0, 0x123, &[1, 2, 3]);
    payload.extend(can_object(2_500, 2, 0x81, 0x8000_0456, &[9; 8]));
    let frames = read_all(file(&[plain(&payload)])).unwrap();
    assert_eq!(frames.len(), 2);
    let start_ns = START_MS as i128 * 1_000_000;
    assert_eq!(frames[0].timestamp_ns, start_ns + 1_000);
    assert_eq!(frames[0].arbitration_id, 0x123);
    assert_eq!(frames[0].channel, 0);
    assert_eq!(frames[0].data, vec![1, 2, 3]);
    assert!(frames[0].is_rx && !frames[0].is_remote_frame && !frames[0].is_extended_id);
    assert_eq!(frames[1].timestamp_ns, start_ns + 2_500);
    assert_eq!(frames[1].arbitration_id, 0x456);
    assert!(frames[1].is_extended_id && frames[1].is_remote_frame && !frames[1].is_rx);
    assert_eq!(frames[1].channel, 1);
    assert_eq!(frames[1].data, vec![9; 8]);
}

#[test]
fn ten_microsecond_ticks() {
    let mut obj = can_object(7, 1, 0, 1, &[]);
    obj[16..20].copy_from_slice(&1u32.to_le_bytes());
    let frames = read_all(file(&[plain(&obj)])).unwrap();
    assert_eq!(frames[0].timestamp_ns, START_MS as i128 * 1_000_000 + 70_000);
}

#[test]
fn zlib_container_is_inflated() {
    let mut payload = can_object(5, 1, 0, 0x10, &[0xaa]);
    payload.extend(can_object(6, 1, 0, 0x11, &[0xbb]));
    let frames = read_all(file(&[zlib(&payload)])).unwrap();
    assert_eq!(frames.len(), 2);
    assert_eq!(frames[0].arbitration_id, 0x10);
    assert_eq!(frames[1].data, vec![0xbb]);
}

#[test]
fn unreadable_containers_are_skipped() {
    let good = plain(&can_object(1, 1, 0, 1, &[1]));
    let unknown = container(&can_object(2, 1, 0, 2, &[2]), 5, 48);
    let corrupt = container(&[1, 2, 3, 4, 5], 2, 5);
    let frames = read_all(file(&[unknown, corrupt, good])).unwrap();
    assert_eq!(frames.len(), 1);
    assert_eq!(frames[0].arbitration_id, 1);
}

#[test]
fn object_split_across_containers() {
    let a = can_object(10, 1, 0, 0x100, &[1, 2]);
    let b = can_object(20, 1, 0, 0x200, &[3, 4, 5]);
    let c = can_object(30, 2, 0, 0x300, &[6]);
    let whole: Vec<u8> = [a.clone(), b.clone(), c.clone()].concat();
    let merged = summary(&read_all(file(&[plain(&whole)])).unwrap());
    assert_eq!(merged.len(), 3);
    for k in 1..(whole.len() - 1) {
        let split = summary(&read_all(file(&[plain(&whole[..k]), plain(&whole[k..])])).unwrap());
        assert_eq!(split, merged, "cut at {k}");
    }
}

#[test]
fn object_split_across_compressed_containers() {
    let a = can_object(10, 1, 0, 0x100, &[1, 2]);
    let b = can_object(20, 1, 0, 0x200, &[3, 4, 5]);
    let whole: Vec<u8> = [a, b].concat();
    let merged = summary(&read_all(file(&[zlib(&whole)])).unwrap());
    let split = summary(&read_all(file(&[zlib(&whole[..70]), plain(&whole[70..])])).unwrap());
    assert_eq!(split, merged);
    assert_eq!(merged.len(), 2);
}

#[test]
fn padding_and_garbage_between_objects() {
    let mut payload = can_object(1, 1, 0, 1, &[1]);
    payload.extend([0, 0, 0]);
    payload.extend(can_object(2, 1, 0, 2, &[2]));
    payload.extend([0xee; 11]);
    payload.extend(can_object(3, 1, 0, 3, &[3]));
    let frames = read_all(file(&[plain(&payload)])).unwrap();
    assert_eq!(frames.iter().map(|f| f.arbitration_id).collect::<Vec<_>>(), vec![1, 2, 3]);
}

#[test]
fn error_frames() {
    let mut v = b"LOBJ".to_vec();
    v.extend(16u16.to_le_bytes());
    v.extend(1u16.to_le_bytes());
    v.extend(64u32.to_le_bytes());
    v.extend(73u32.to_le_bytes());
    v.extend(2u32.to_le_bytes());
    v.extend(0u32.to_le_bytes());
    v.extend(40u64.to_le_bytes());
    let mut p = vec![0u8; 32];
    p[0..2].copy_from_slice(&3u16.to_le_bytes());
    p[10] = 2;
    p[16..20].copy_from_slice(&0x7ffu32.to_le_bytes());
    p[24] = 0xde;
    p[25] = 0xad;
    v.extend(p);
    let frames = read_all(file(&[plain(&v)])).unwrap();
    assert_eq!(frames.len(), 1);
    assert!(frames[0].is_error_frame);
    assert_eq!(frames[0].arbitration_id, 0x7ff);
    assert_eq!(frames[0].channel, 2);
    assert_eq!(frames[0].data, vec![0xde, 0xad]);
}

#[test]
fn other_objects_and_versions_are_ignored() {
    let mut other = can_object(1, 1, 0, 1, &[1]);
    other[6..8].copy_from_slice(&3u16.to_le_bytes());
    let mut unknown_type = can_object(1, 1, 0, 2, &[1]);
    unknown_type[12..16].copy_from_slice(&99u32.to_le_bytes());
    let payload = [other, unknown_type, can_object(1, 1, 0, 3, &[1])].concat();
    let frames = read_all(file(&[plain(&payload)])).unwrap();
    assert_eq!(frames.len(), 1);
    assert_eq!(frames[0].arbitration_id, 3);
}

#[test]
fn bad_file_signature() {
    let mut bytes = file(&[]);
    bytes[0] = b'X';
    assert_eq!(BlfReader::from_reader(bytes).err(), Some(BlfError::BadSignature));
    assert_eq!(BlfReader::from_reader(b"LOG".to_vec()).err(), Some(BlfError::TruncatedRecord));
}

#[test]
fn bad_object_signature() {
    let mut bytes = file(&[plain(&can_object(1, 1, 0, 1, &[]))]);
    bytes[144] = b'X';
    assert_eq!(read_all(bytes).err(), Some(BlfError::BadObjectSignature));
}

#[test]
fn truncated_record() {
    let mut bytes = file(&[plain(&can_object(1, 1, 0, 1, &[]))]);
    bytes.truncate(bytes.len() - 5);
    assert_eq!(read_all(bytes).err(), Some(BlfError::TruncatedRecord));
}

#[test]
fn undersized_record() {
    let mut bytes = file(&[plain(&can_object(1, 1, 0, 1, &[]))]);
    bytes[152..156].copy_from_slice(&8u32.to_le_bytes());
    assert_eq!(read_all(bytes).err(), Some(BlfError::BadObjectSize));
}

#[test]
fn short_tail_ends_cleanly() {
    let mut bytes = file(&[plain(&can_object(1, 1, 0, 1, &[]))]);
    bytes.extend([0u8; 15]);
    assert_eq!(read_all(bytes).unwrap().len(), 1);
}

#[test]
fn lazy_reading_by_object() {
    let mut reader = BlfReader::from_reader(file(&[
        plain(&can_object(1, 1, 0, 1, &[])),
        plain(&can_object(2, 1, 0, 2, &[])),
    ]))
    .unwrap();
    assert_eq!(reader.start_timestamp(), START_MS);
    assert_eq!(reader.read_object().unwrap().unwrap().len(), 1);
    assert_eq!(reader.read_object().unwrap().unwrap()[0].arbitration_id, 2);
    assert!(reader.read_object().unwrap().is_none());
}

#[test]
fn record_headers() {
    let rec = plain(&can_object(1, 1, 0, 1, &[]));
    assert_eq!(
        parse_record_header(&rec[..16]),
        Ok(RecordHeader { obj_type: 10, body_len: 80 - 16, padding: 0 })
    );
    let mut odd = rec.clone();
    odd[8..12].copy_from_slice(&35u32.to_le_bytes());
    assert_eq!(parse_record_header(&odd[..16]), Ok(RecordHeader { obj_type: 10, body_len: 19, padding: 3 }));
    let mut bad = rec.clone();
    bad[1] = b'X';
    assert_eq!(parse_record_header(&bad[..16]), Err(BlfError::BadObjectSignature));
    bad = rec.clone();
    bad[8..12].copy_from_slice(&15u32.to_le_bytes());
    assert_eq!(parse_record_header(&bad[..16]), Err(BlfError::BadObjectSize));
}

#[test]
fn records_fed_one_at_a_time() {
    let whole: Vec<u8> = [can_object(10, 1, 0, 0x100, &[1, 2]), can_object(20, 2, 0, 0x200, &[3])].concat();
    let bytes = file(&[zlib(&whole[..50]), plain(&whole[50..]), plain(&can_object(30, 1, 0, 0x300, &[4]))]);
    let expected = summary(&read_all(bytes.clone()).unwrap());
    let mut reader = BlfReader::from_reader(bytes[..144].to_vec()).unwrap();
    assert!(reader.read_object().unwrap().is_none());
    let mut pos = 144;
    let mut got = Vec::new();
    while bytes.len() - pos >= 16 {
        let h = parse_record_header(&bytes[pos..pos + 16]).unwrap();
        let body = &bytes[pos + 16..pos + 16 + h.body_len];
        got.extend(reader.process_record(h.obj_type, body));
        pos += 16 + h.body_len + h.padding;
    }
    assert_eq!(summary(&got), expected);
    assert_eq!(expected.len(), 3);
}
