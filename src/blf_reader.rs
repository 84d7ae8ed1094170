//! Reader of Vector BLF logs: file header, top-level records, LogContainer
//! payloads (stored or zlib-compressed) and the CAN frames of their inner
//! objects, with objects that straddle two containers carried over.

use vstd::prelude::*;
use vstd::slice::{slice_subrange, slice_to_vec};
use crate::bytes::{find_pattern, has_tag_at, le16, le32, le64, read_u16_le, read_u32_le, read_u64_le};
use crate::systime::{systemtime_ms, systemtime_to_timestamp};

verus! {

pub const LOG_CONTAINER: u32 = 10;
pub const CAN_MESSAGE: u32 = 1;
pub const CAN_MESSAGE2: u32 = 86;
pub const CAN_ERROR_EXT: u32 = 73;
pub const NO_COMPRESSION: u16 = 0;
pub const ZLIB_DEFLATE: u16 = 2;
/// Extended-header flag value for timestamps counted in units of 10 µs.
pub const TIME_TEN_MICS: u32 = 1;

/// The ASCII signature "LOBJ" that opens every object record.
pub open spec fn lobj() -> Seq<u8> {
    seq![0x4cu8, 0x4fu8, 0x42u8, 0x4au8]
}

/// The ASCII signature "LOGG" that opens a BLF file.
pub open spec fn logg() -> Seq<u8> {
    seq![0x4cu8, 0x4fu8, 0x47u8, 0x47u8]
}

/// One CAN frame read from a log. `timestamp_ns` is the absolute time in
/// nanoseconds since the Unix epoch.
#[derive(Debug, Clone)]
pub struct CanMessage {
    pub timestamp_ns: i128,
    pub arbitration_id: u32,
    pub is_extended_id: bool,
    pub is_remote_frame: bool,
    pub is_rx: bool,
    pub is_fd: bool,
    pub is_error_frame: bool,
    pub dlc: u8,
    pub data: Vec<u8>,
    pub channel: u8,
    pub bitrate_switch: bool,
    pub error_state_indicator: bool,
}

/// Mathematical value of a [`CanMessage`].
pub struct FrameModel {
    pub timestamp_ns: int,
    pub arbitration_id: u32,
    pub is_extended_id: bool,
    pub is_remote_frame: bool,
    pub is_rx: bool,
    pub is_fd: bool,
    pub is_error_frame: bool,
    pub dlc: u8,
    pub data: Seq<u8>,
    pub channel: u8,
    pub bitrate_switch: bool,
    pub error_state_indicator: bool,
}

impl View for CanMessage {
    type V = FrameModel;

    open spec fn view(&self) -> FrameModel {
        FrameModel {
            timestamp_ns: self.timestamp_ns as int,
            arbitration_id: self.arbitration_id,
            is_extended_id: self.is_extended_id,
            is_remote_frame: self.is_remote_frame,
            is_rx: self.is_rx,
            is_fd: self.is_fd,
            is_error_frame: self.is_error_frame,
            dlc: self.dlc,
            data: self.data@,
            channel: self.channel,
            bitrate_switch: self.bitrate_switch,
            error_state_indicator: self.error_state_indicator,
        }
    }
}

pub open spec fn frames_view(v: Seq<CanMessage>) -> Seq<FrameModel> {
    v.map_values(|m: CanMessage| m@)
}

/// Structural errors of a BLF file.
#[derive(Debug, Clone, Copy, PartialEq, Eq, Structural)]
pub enum BlfError {
    /// The file does not start with "LOGG".
    BadSignature,
    /// A top-level record does not start with "LOBJ".
    BadObjectSignature,
    /// A top-level record declares a size smaller than its own base header.
    BadObjectSize,
    /// The file ends inside a header or a record.
    TruncatedRecord,
}

/// Zero-based bus index of a 1-based BLF channel number (channel 0 counts as 1).
pub open spec fn bus_of_channel(ch: int) -> u8 {
    (if ch > 0 { (ch - 1) % 256 } else { 0 }) as u8
}

/// Number of data bytes carried: the declared length, at most 8.
pub open spec fn data_len(dlc: u8) -> int {
    if dlc < 8 { dlc as int } else { 8 }
}

/// The frame described by the payload `p` of an inner object of type `ty`
/// stamped with `ts` nanoseconds, if the type is one that carries a frame.
pub open spec fn payload_frame(ty: int, p: Seq<u8>, ts: int) -> Option<FrameModel> {
    if ty == CAN_MESSAGE || ty == CAN_MESSAGE2 {
        if p.len() < 16 {
            None
        } else {
            let id = le32(p, 4);
            Some(FrameModel {
                timestamp_ns: ts,
                arbitration_id: (id % 0x2000_0000) as u32,
                is_extended_id: id >= 0x8000_0000,
                is_remote_frame: p[2] >= 0x80,
                is_rx: p[2] % 2 == 0,
                is_fd: false,
                is_error_frame: false,
                dlc: p[3],
                data: p.subrange(8, 8 + data_len(p[3])),
                channel: bus_of_channel(le16(p, 0)),
                bitrate_switch: false,
                error_state_indicator: false,
            })
        }
    } else if ty == CAN_ERROR_EXT {
        if p.len() < 32 {
            None
        } else {
            let id = le32(p, 16);
            Some(FrameModel {
                timestamp_ns: ts,
                arbitration_id: (id % 0x2000_0000) as u32,
                is_extended_id: id >= 0x8000_0000,
                is_remote_frame: false,
                is_rx: true,
                is_fd: false,
                is_error_frame: true,
                dlc: p[10],
                data: p.subrange(24, 24 + data_len(p[10])),
                channel: bus_of_channel(le16(p, 0)),
                bitrate_switch: false,
                error_state_indicator: false,
            })
        }
    } else {
        None
    }
}

/// Absolute time in nanoseconds of an inner object whose extended header holds
/// `flags` and `ticks`, in a log that started `start_ms` ms after the epoch.
pub open spec fn object_time_ns(flags: int, ticks: int, start_ms: int) -> int {
    ticks * (if flags == TIME_TEN_MICS { 10_000int } else { 1int }) + start_ms * 1_000_000
}

/// The frame carried by the complete inner object `obj` (base header
/// included), if any: header versions 1 and 2 carry a 16-byte extended header
/// with the time stamp; other versions are skipped.
pub open spec fn inner_frame(obj: Seq<u8>, start_ms: int) -> Option<FrameModel> {
    if obj.len() < 32 || (le16(obj, 6) != 1 && le16(obj, 6) != 2) {
        None
    } else {
        payload_frame(
            le32(obj, 12),
            obj.subrange(32, obj.len() as int),
            object_time_ns(le32(obj, 16), le64(obj, 24), start_ms),
        )
    }
}

pub open spec fn opt_frames(f: Option<FrameModel>) -> Seq<FrameModel> {
    match f {
        Some(m) => seq![m],
        None => Seq::empty(),
    }
}

/// First offset at or after `i` where `sig` occurs in `w`.
pub open spec fn first_tag_from(w: Seq<u8>, sig: Seq<u8>, i: int) -> Option<int>
    decreases w.len() + 1 - i,
{
    if i < 0 || i + sig.len() > w.len() {
        None
    } else if has_tag_at(w, i, sig) {
        Some(i)
    } else {
        first_tag_from(w, sig, i + 1)
    }
}

/// Frames of the inner objects at the front of `s`, and the bytes left over
/// for the next container. At each step the next "LOBJ" is looked for in an
/// eight-byte window (which covers padding); without one the cursor moves on
/// by one byte. An object that does not end inside `s` stops the scan, and
/// everything from the start of that step is kept.
#[verifier::opaque]
pub open spec fn scan(s: Seq<u8>, start_ms: int) -> (Seq<FrameModel>, Seq<u8>)
    decreases s.len(),
{
    if s.len() < 16 {
        (Seq::empty(), s)
    } else {
        match first_tag_from(s.subrange(0, 8), lobj(), 0) {
            None => scan(s.subrange(1, s.len() as int), start_ms),
            Some(o) => {
                if o < 0 || o + 16 > s.len() {
                    (Seq::empty(), s)
                } else {
                    let size = le32(s, o + 8);
                    if size < 16 {
                        scan(s.subrange(o + 1, s.len() as int), start_ms)
                    } else if o + size > s.len() {
                        (Seq::empty(), s)
                    } else {
                        let rest = scan(s.subrange(o + size, s.len() as int), start_ms);
                        (opt_frames(inner_frame(s.subrange(o, o + size), start_ms)) + rest.0, rest.1)
                    }
                }
            }
        }
    }
}


proof fn lemma_scan_append(a: Seq<u8>, b: Seq<u8>, start_ms: int)
    ensures
        scan(a + b, start_ms).0 == scan(a, start_ms).0 + scan(scan(a, start_ms).1 + b, start_ms).0,
        scan(a + b, start_ms).1 == scan(scan(a, start_ms).1 + b, start_ms).1,
    decreases a.len(),
{
    reveal(scan);
    let ab = a + b;
    if a.len() < 16 {
        assert(scan(a, start_ms).0 =~= Seq::<FrameModel>::empty());
        assert(scan(a, start_ms).0 + scan(ab, start_ms).0 =~= scan(ab, start_ms).0);
    } else {
        assert(ab.subrange(0, 8) =~= a.subrange(0, 8));
        match first_tag_from(a.subrange(0, 8), lobj(), 0) {
            None => {
                assert(ab.subrange(1, ab.len() as int) =~= a.subrange(1, a.len() as int) + b);
                lemma_scan_append(a.subrange(1, a.len() as int), b, start_ms);
            },
            Some(o) => {
                if o < 0 || o + 16 > a.len() {
                    assert(scan(a, start_ms).0 + scan(ab, start_ms).0 =~= scan(ab, start_ms).0);
                } else {
                    assert(le32(ab, o + 8) == le32(a, o + 8));
                    let size = le32(a, o + 8);
                    if size < 16 {
                        assert(ab.subrange(o + 1, ab.len() as int) =~= a.subrange(o + 1, a.len() as int) + b);
                        lemma_scan_append(a.subrange(o + 1, a.len() as int), b, start_ms);
                    } else if o + size > a.len() {
                        assert(scan(a, start_ms).0 + scan(ab, start_ms).0 =~= scan(ab, start_ms).0);
                    } else {
                        assert(ab.subrange(o, o + size) =~= a.subrange(o, o + size));
                        assert(ab.subrange(o + size, ab.len() as int) =~= a.subrange(o + size, a.len() as int) + b);
                        lemma_scan_append(a.subrange(o + size, a.len() as int), b, start_ms);
                        let f = opt_frames(inner_frame(a.subrange(o, o + size), start_ms));
                        let r = scan(a.subrange(o + size, a.len() as int), start_ms);
                        assert(f + (r.0 + scan(r.1 + b, start_ms).0) =~= (f + r.0) + scan(r.1 + b, start_ms).0);
                    }
                }
            },
        }
    }
}

/// Carry-over across containers: decoding the payload `p1` of one container and
/// then `p2` of the next, with the bytes left over from the first carried into
/// the second, yields the same frames, and leaves the same bytes over, as
/// decoding `p1 + p2` as the payload of a single container, whatever `tail` was
/// carried in and wherever the cut between `p1` and `p2` falls.
pub proof fn lemma_container_split(tail: Seq<u8>, p1: Seq<u8>, p2: Seq<u8>, start_ms: int)
    ensures
        ({
            let first = scan(tail + p1, start_ms);
            let second = scan(first.1 + p2, start_ms);
            let whole = scan(tail + (p1 + p2), start_ms);
            whole.0 == first.0 + second.0 && whole.1 == second.1
        }),
{
    assert(tail + (p1 + p2) =~= (tail + p1) + p2);
    lemma_scan_append(tail + p1, p2, start_ms);
}


fn bus_index(channel: u16) -> (r: u8)
    ensures
        r == bus_of_channel(channel as int),
{
    if channel > 0 {
        ((channel - 1) % 256) as u8
    } else {
        0
    }
}

/// Copies `n` data bytes, at most 8, starting at `from`.
fn frame_data(p: &[u8], from: usize, dlc: u8) -> (r: Vec<u8>)
    requires
        from + 8 <= p.len(),
    ensures
        r@ == p@.subrange(from as int, from + data_len(dlc)),
{
    let n: usize = if dlc < 8 { dlc as usize } else { 8 };
    slice_to_vec(slice_subrange(p, from, from + n))
}

/// Absolute time in nanoseconds of an inner object.
fn object_time(flags: u32, ticks: u64, start_ms: i64) -> (r: i128)
    ensures
        r == object_time_ns(flags as int, ticks as int, start_ms as int),
{
    let unit: i128 = if flags == TIME_TEN_MICS { 10_000 } else { 1 };
    ticks as i128 * unit + start_ms as i128 * 1_000_000
}

/// Bytes `from .. to` of `v`, as a new vector.
fn copy_range(v: &Vec<u8>, from: usize, to: usize) -> (r: Vec<u8>)
    requires
        from <= to <= v@.len(),
    ensures
        r@ == v@.subrange(from as int, to as int),
{
    slice_to_vec(slice_subrange(v.as_slice(), from, to))
}

/// `a` followed by `b`.
fn concat(a: &[u8], b: &[u8]) -> (r: Vec<u8>)
    ensures
        r@ == a@ + b@,
{
    let mut r: Vec<u8> = slice_to_vec(a);
    let mut i: usize = 0;
    while i < b.len()
        invariant
            i <= b@.len(),
            r@ == a@ + b@.subrange(0, i as int),
        decreases b@.len() - i,
    {
        r.push(b[i]);
        i = i + 1;
        assert(r@ =~= a@ + b@.subrange(0, i as int));
    }
    assert(b@.subrange(0, b@.len() as int) =~= b@);
    r
}

proof fn lemma_first_tag(w: Seq<u8>, sig: Seq<u8>, r: Option<usize>, k: int)
    requires
        sig.len() > 0,
        0 <= k,
        match r {
            Some(i) => has_tag_at(w, i as int, sig) && k <= i && forall|j: int|
                0 <= j < i ==> !has_tag_at(w, j, sig),
            None => forall|j: int| 0 <= j ==> !has_tag_at(w, j, sig),
        },
    ensures
        first_tag_from(w, sig, k) == (match r {
            Some(i) => Some(i as int),
            None => None::<int>,
        }),
    decreases w.len() + 1 - k,
{
    if k + sig.len() > w.len() {
        if let Some(i) = r {
            assert(false);
        }
    } else if has_tag_at(w, k, sig) {
        if let Some(i) = r {
            if k < i {
                assert(false);
            }
        }
    } else {
        lemma_first_tag(w, sig, r, k + 1);
    }
}

impl CanMessage {
    /// The frame carried by an inner object of type `obj_type` whose payload
    /// (after base and extended headers) is `data`, stamped `timestamp_ns`;
    /// `None` for types that carry no frame and for payloads too short for
    /// their type.
    pub fn parse_message_by_type(obj_type: u32, data: &[u8], timestamp_ns: i128) -> (r: Option<CanMessage>)
        ensures
            match r {
                Some(m) => payload_frame(obj_type as int, data@, timestamp_ns as int) == Some(m@),
                None => payload_frame(obj_type as int, data@, timestamp_ns as int) is None,
            },
    {
        if obj_type == CAN_MESSAGE || obj_type == CAN_MESSAGE2 {
            if data.len() < 16 {
                return None;
            }
            let channel = read_u16_le(data, 0);
            let flags = data[2];
            let dlc = data[3];
            let can_id = read_u32_le(data, 4);
            Some(CanMessage {
                timestamp_ns,
                arbitration_id: can_id % 0x2000_0000,
                is_extended_id: can_id >= 0x8000_0000,
                is_remote_frame: flags >= 0x80,
                is_rx: flags % 2 == 0,
                is_fd: false,
                is_error_frame: false,
                dlc,
                data: frame_data(data, 8, dlc),
                channel: bus_index(channel),
                bitrate_switch: false,
                error_state_indicator: false,
            })
        } else if obj_type == CAN_ERROR_EXT {
            if data.len() < 32 {
                return None;
            }
            let channel = read_u16_le(data, 0);
            let dlc = data[10];
            let can_id = read_u32_le(data, 16);
            Some(CanMessage {
                timestamp_ns,
                arbitration_id: can_id % 0x2000_0000,
                is_extended_id: can_id >= 0x8000_0000,
                is_remote_frame: false,
                is_rx: true,
                is_fd: false,
                is_error_frame: true,
                dlc,
                data: frame_data(data, 24, dlc),
                channel: bus_index(channel),
                bitrate_switch: false,
                error_state_indicator: false,
            })
        } else {
            None
        }
    }

    /// The frame carried by the complete inner object `obj`, if any.
    pub fn parse_inner_object(obj: &[u8], start_ms: i64) -> (r: Option<CanMessage>)
        ensures
            match r {
                Some(m) => inner_frame(obj@, start_ms as int) == Some(m@),
                None => inner_frame(obj@, start_ms as int) is None,
            },
    {
        if obj.len() < 32 {
            return None;
        }
        let version = read_u16_le(obj, 6);
        if version != 1 && version != 2 {
            return None;
        }
        let obj_type = read_u32_le(obj, 12);
        let flags = read_u32_le(obj, 16);
        let ticks = read_u64_le(obj, 24);
        let ts = object_time(flags, ticks, start_ms);
        Self::parse_message_by_type(obj_type, slice_subrange(obj, 32, obj.len()), ts)
    }
}

pub open spec fn opt_view(m: Option<CanMessage>) -> Option<FrameModel> {
    match m {
        Some(f) => Some(f@),
        None => None,
    }
}

/// Outcome of one step of the inner-object scan.
enum ScanStep {
    /// The scan ends here; the rest of the buffer is carried over.
    Stop,
    /// No object starts here; resume at the given position.
    Skip(usize),
    /// A complete object ends before the given position, carrying the frame if any.
    Object(usize, Option<CanMessage>),
}

fn scan_step(full: &Vec<u8>, pos: usize, start_ms: i64) -> (r: ScanStep)
    requires
        pos <= full@.len(),
    ensures
        ({
            let n = full@.len() as int;
            let rest = full@.subrange(pos as int, n);
            let st = start_ms as int;
            match r {
                ScanStep::Stop => scan(rest, st).0 == Seq::<FrameModel>::empty() && scan(rest, st).1 == rest,
                ScanStep::Skip(next) => pos < next <= n
                    && scan(rest, st) == scan(full@.subrange(next as int, n), st),
                ScanStep::Object(next, m) => pos < next <= n
                    && scan(rest, st).0 == opt_frames(opt_view(m)) + scan(full@.subrange(next as int, n), st).0
                    && scan(rest, st).1 == scan(full@.subrange(next as int, n), st).1,
            }
        }),
{
    reveal(scan);
    let n = full.len();
    let ghost rest = full@.subrange(pos as int, n as int);
    if n - pos < 16 {
        return ScanStep::Stop;
    }
    let sig: [u8; 4] = [0x4c, 0x4f, 0x42, 0x4a];
    assert(sig@ =~= lobj());
    let window = slice_subrange(full.as_slice(), pos, pos + 8);
    assert(window@ =~= rest.subrange(0, 8));
    let found = find_pattern(window, sig.as_slice());
    proof {
        lemma_first_tag(window@, lobj(), found, 0);
    }
    match found {
        None => {
            assert(full@.subrange(pos + 1, n as int) =~= rest.subrange(1, rest.len() as int));
            ScanStep::Skip(pos + 1)
        },
        Some(o) => {
            if o + 16 > n - pos {
                return ScanStep::Stop;
            }
            let at = pos + o;
            let size = read_u32_le(full.as_slice(), at + 8) as usize;
            assert(size == le32(rest, o + 8));
            if size < 16 {
                assert(full@.subrange(at + 1, n as int) =~= rest.subrange(o + 1, rest.len() as int));
                ScanStep::Skip(at + 1)
            } else if size > n - at {
                ScanStep::Stop
            } else {
                let obj = slice_subrange(full.as_slice(), at, at + size);
                assert(obj@ =~= rest.subrange(o as int, o + size));
                assert(full@.subrange(at + size, n as int) =~= rest.subrange(o + size, rest.len() as int));
                ScanStep::Object(at + size, CanMessage::parse_inner_object(obj, start_ms))
            }
        },
    }
}

/// Decodes the inner objects of the buffer `full`: the frames, and the bytes
/// from which the next container must resume.
pub fn scan_objects(full: &Vec<u8>, start_ms: i64) -> (r: (Vec<CanMessage>, Vec<u8>))
    ensures
        frames_view(r.0@) == scan(full@, start_ms as int).0,
        r.1@ == scan(full@, start_ms as int).1,
{
    let n = full.len();
    let ghost st = start_ms as int;
    let mut pos: usize = 0;
    let mut out: Vec<CanMessage> = Vec::new();
    assert(full@.subrange(0, n as int) =~= full@);
    assert(frames_view(out@) + scan(full@, st).0 =~= scan(full@, st).0);
    loop
        invariant
            n == full@.len(),
            pos <= n,
            st == start_ms as int,
            scan(full@, st).0 == frames_view(out@) + scan(full@.subrange(pos as int, n as int), st).0,
            scan(full@, st).1 == scan(full@.subrange(pos as int, n as int), st).1,
        ensures
            scan(full@.subrange(pos as int, n as int), st).0 == Seq::<FrameModel>::empty(),
            scan(full@.subrange(pos as int, n as int), st).1 == full@.subrange(pos as int, n as int),
        decreases n - pos,
    {
        let step = scan_step(full, pos, start_ms);
        match step {
            ScanStep::Stop => {
                break;
            },
            ScanStep::Skip(next) => {
                pos = next;
            },
            ScanStep::Object(next, m) => {
                let ghost before = out@;
                let ghost rest_next = scan(full@.subrange(next as int, n as int), st).0;
                match m {
                    Some(f) => {
                        out.push(f);
                    },
                    None => {},
                }
                assert(frames_view(out@) =~= frames_view(before) + opt_frames(opt_view(m)));
                assert(frames_view(before) + (opt_frames(opt_view(m)) + rest_next) =~= frames_view(out@) + rest_next);
                pos = next;
            },
        }
    }
    assert(frames_view(out@) + Seq::<FrameModel>::empty() =~= frames_view(out@));
    (out, copy_range(full, pos, n))
}

/// What zlib decompression of `data` gives: the decompressed bytes, or
/// `None` for a malformed stream.
pub uninterp spec fn zlib_decoded(data: Seq<u8>) -> Option<Seq<u8>>;

/// Relies on flate2's `read::ZlibDecoder`: reading it to the end decompresses
/// the zlib stream `data`, or fails on a malformed one; the outcome depends on
/// the bytes of `data` alone.
#[verifier::external_body]
fn inflate_zlib(data: &[u8]) -> (r: Option<Vec<u8>>)
    ensures
        zlib_decoded(data@) == (match r {
            Some(v) => Some(v@),
            None => None::<Seq<u8>>,
        }),
{
    let mut out: Vec<u8> = Vec::new();
    match std::io::Read::read_to_end(&mut flate2::read::ZlibDecoder::new(data), &mut out) {
        Ok(_) => Some(out),
        Err(_) => None,
    }
}

/// The payload of a LogContainer whose record body is `body`: after the
/// 16-byte container header, stored as is or zlib-compressed. `None` for a
/// body too short for the header, an unknown compression method, or a payload
/// that does not decompress.
pub open spec fn container_payload(body: Seq<u8>) -> Option<Seq<u8>> {
    if body.len() < 16 {
        None
    } else if le16(body, 0) == NO_COMPRESSION {
        Some(body.subrange(16, body.len() as int))
    } else if le16(body, 0) == ZLIB_DEFLATE {
        zlib_decoded(body.subrange(16, body.len() as int))
    } else {
        None
    }
}

/// A top-level record of a BLF file.
pub enum ObjectAt {
    /// Fewer than 16 bytes remain: the log ends cleanly.
    End,
    Fail(BlfError),
    /// A record of type `obj_type` with body `body`; the next record starts at `next`.
    Record { obj_type: int, body: Seq<u8>, next: int },
}

/// The top-level record at `pos` of the file `data`. A record is a 16-byte
/// base header ("LOBJ", header size, header version, object size, object
/// type), the rest of its object size as body, then `size % 4` padding bytes.
pub open spec fn object_at(data: Seq<u8>, pos: int) -> ObjectAt {
    if pos < 0 || data.len() - pos < 16 {
        ObjectAt::End
    } else if !has_tag_at(data, pos, lobj()) {
        ObjectAt::Fail(BlfError::BadObjectSignature)
    } else if le32(data, pos + 8) < 16 {
        ObjectAt::Fail(BlfError::BadObjectSize)
    } else if pos + le32(data, pos + 8) + le32(data, pos + 8) % 4 > data.len() {
        ObjectAt::Fail(BlfError::TruncatedRecord)
    } else {
        let size = le32(data, pos + 8);
        ObjectAt::Record {
            obj_type: le32(data, pos + 12),
            body: data.subrange(pos + 16, pos + size),
            next: pos + size + size % 4,
        }
    }
}

/// Frames and carried-over bytes after a record of type `obj_type` with body
/// `body`, given the bytes `tail` carried over so far. Only LogContainers
/// whose payload can be read contribute; other records leave the tail alone.
pub open spec fn record_effect(obj_type: int, body: Seq<u8>, tail: Seq<u8>, start_ms: int) -> (Seq<FrameModel>, Seq<u8>) {
    if obj_type == LOG_CONTAINER && container_payload(body) is Some {
        scan(tail + container_payload(body)->0, start_ms)
    } else {
        (Seq::empty(), tail)
    }
}

/// All frames from the record at `pos` to the end of the file, or the first
/// structural error met on the way.
pub open spec fn frames_from(data: Seq<u8>, pos: int, tail: Seq<u8>, start_ms: int) -> Result<Seq<FrameModel>, BlfError>
    decreases data.len() - pos,
{
    match object_at(data, pos) {
        ObjectAt::End => Ok(Seq::empty()),
        ObjectAt::Fail(e) => Err(e),
        ObjectAt::Record { obj_type, body, next } => {
            let eff = record_effect(obj_type, body, tail, start_ms);
            if next <= pos {
                Ok(eff.0)
            } else {
                match frames_from(data, next, eff.1, start_ms) {
                    Ok(rest) => Ok(eff.0 + rest),
                    Err(e) => Err(e),
                }
            }
        },
    }
}

/// Position of the first record and start time (ms since the epoch) of a BLF
/// file: "LOGG", a little-endian header length, and a header of that length
/// that holds the start time as a SYSTEMTIME at offset 56 (0 when the header is
/// shorter than 72 bytes).
pub open spec fn file_header(data: Seq<u8>) -> Result<(int, int), BlfError> {
    if data.len() < 8 {
        Err(BlfError::TruncatedRecord)
    } else if !has_tag_at(data, 0, logg()) {
        Err(BlfError::BadSignature)
    } else if le32(data, 4) > data.len() {
        Err(BlfError::TruncatedRecord)
    } else if le32(data, 4) >= 72 {
        Ok((le32(data, 4), systemtime_ms(data.subrange(56, 72))))
    } else {
        Ok((le32(data, 4), 0))
    }
}

/// What the 16-byte base header `h` of a top-level record announces: the
/// record type, the length of the body that follows, and the padding after it.
pub open spec fn record_header(h: Seq<u8>) -> Result<(int, int, int), BlfError> {
    if !has_tag_at(h, 0, lobj()) {
        Err(BlfError::BadObjectSignature)
    } else if le32(h, 8) < 16 {
        Err(BlfError::BadObjectSize)
    } else {
        Ok((le32(h, 12), le32(h, 8) - 16, le32(h, 8) % 4))
    }
}

/// Base header of a top-level record.
#[derive(Debug, Clone, Copy, PartialEq, Eq, Structural)]
pub struct RecordHeader {
    pub obj_type: u32,
    pub body_len: usize,
    pub padding: usize,
}

/// Decodes the base header of a top-level record.
pub fn parse_record_header(h: &[u8]) -> (r: Result<RecordHeader, BlfError>)
    requires
        h@.len() >= 16,
    ensures
        match record_header(h@) {
            Ok((t, n, p)) => r == Ok::<RecordHeader, BlfError>(
                RecordHeader { obj_type: t as u32, body_len: n as usize, padding: p as usize },
            ),
            Err(e) => r == Err::<RecordHeader, BlfError>(e),
        },
{
    let lobj_sig: [u8; 4] = [0x4c, 0x4f, 0x42, 0x4a];
    assert(lobj_sig@ =~= lobj());
    if !has_signature(h, 0, lobj_sig) {
        return Err(BlfError::BadObjectSignature);
    }
    let size = read_u32_le(h, 8);
    if size < 16 {
        return Err(BlfError::BadObjectSize);
    }
    Ok(RecordHeader { obj_type: read_u32_le(h, 12), body_len: (size - 16) as usize, padding: (size % 4) as usize })
}

/// Reader of a BLF log held in memory.
pub struct BlfReader {
    data: Vec<u8>,
    pos: usize,
    start_timestamp: i64,
    tail: Vec<u8>,
}

/// Mathematical state of a [`BlfReader`]: the file, the position of the next
/// record, the start time in ms since the epoch, and the bytes carried over
/// from the last container.
pub struct ReaderState {
    pub data: Seq<u8>,
    pub pos: int,
    pub start_ms: int,
    pub tail: Seq<u8>,
}

impl View for BlfReader {
    type V = ReaderState;

    closed spec fn view(&self) -> ReaderState {
        ReaderState {
            data: self.data@,
            pos: self.pos as int,
            start_ms: self.start_timestamp as int,
            tail: self.tail@,
        }
    }
}

fn has_signature(b: &[u8], at: usize, sig: [u8; 4]) -> (r: bool)
    requires
        at + 4 <= b@.len(),
    ensures
        r == has_tag_at(b@, at as int, sig@),
{
    let ok = b[at] == sig[0] && b[at + 1] == sig[1] && b[at + 2] == sig[2] && b[at + 3] == sig[3];
    assert(ok ==> b@.subrange(at as int, at + 4) =~= sig@);
    assert(b@.subrange(at as int, at + 4) == sig@ ==> ok) by {
        if b@.subrange(at as int, at + 4) == sig@ {
            assert(b@.subrange(at as int, at + 4)[0] == b@[at as int]);
            assert(b@.subrange(at as int, at + 4)[1] == b@[at + 1]);
            assert(b@.subrange(at as int, at + 4)[2] == b@[at + 2]);
            assert(b@.subrange(at as int, at + 4)[3] == b@[at + 3]);
        }
    }
    ok
}

impl BlfReader {
    /// Opens the log `data`: checks the file signature and reads the header.
    /// `data` may also be the header alone, records being then handed to
    /// [`BlfReader::process_record`] one at a time.
    pub fn from_reader(data: Vec<u8>) -> (r: Result<BlfReader, BlfError>)
        ensures
            match file_header(data@) {
                Ok((pos, start_ms)) => r matches Ok(rd) && rd@ == ReaderState {
                    data: data@,
                    pos,
                    start_ms,
                    tail: Seq::empty(),
                },
                Err(e) => r == Err::<BlfReader, BlfError>(e),
            },
    {
        if data.len() < 8 {
            return Err(BlfError::TruncatedRecord);
        }
        let logg_sig: [u8; 4] = [0x4c, 0x4f, 0x47, 0x47];
        assert(logg_sig@ =~= logg());
        if !has_signature(data.as_slice(), 0, logg_sig) {
            return Err(BlfError::BadSignature);
        }
        let header_size = read_u32_le(data.as_slice(), 4);
        if header_size as usize > data.len() {
            return Err(BlfError::TruncatedRecord);
        }
        let start_timestamp = if header_size >= 72 {
            systemtime_to_timestamp(slice_subrange(data.as_slice(), 56, 72))
        } else {
            0
        };
        let rd = BlfReader { data, pos: header_size as usize, start_timestamp, tail: Vec::new() };
        assert(rd@.tail =~= Seq::<u8>::empty());
        Ok(rd)
    }

    /// Start time of the log, in ms since the epoch.
    pub fn start_timestamp(&self) -> (r: i64)
        ensures
            r == self@.start_ms,
    {
        self.start_timestamp
    }

    /// Decodes a container payload `data`, preceded by the bytes carried over
    /// from the previous container, and keeps what is left over for the next.
    pub fn parse_container_data(&mut self, data: &[u8]) -> (r: Vec<CanMessage>)
        ensures
            frames_view(r@) == scan(old(self)@.tail + data@, old(self)@.start_ms).0,
            final(self)@ == (ReaderState { tail: scan(old(self)@.tail + data@, old(self)@.start_ms).1, ..old(self)@ }),
    {
        let full = concat(self.tail.as_slice(), data);
        let (frames, rest) = scan_objects(&full, self.start_timestamp);
        self.tail = rest;
        frames
    }

    /// Handles a top-level record of type `obj_type` whose body is `body`: the
    /// frames of a LogContainer, decoded after the bytes carried over so far.
    /// Other records, and containers whose payload cannot be read, give none.
    pub fn process_record(&mut self, obj_type: u32, body: &[u8]) -> (r: Vec<CanMessage>)
        ensures
            frames_view(r@) == record_effect(obj_type as int, body@, old(self)@.tail, old(self)@.start_ms).0,
            final(self)@ == (ReaderState {
                tail: record_effect(obj_type as int, body@, old(self)@.tail, old(self)@.start_ms).1,
                ..old(self)@
            }),
    {
        let mut payload: Option<Vec<u8>> = None;
        if obj_type == LOG_CONTAINER && body.len() >= 16 {
            let method = read_u16_le(body, 0);
            let stored = slice_subrange(body, 16, body.len());
            if method == NO_COMPRESSION {
                payload = Some(slice_to_vec(stored));
            } else if method == ZLIB_DEFLATE {
                payload = inflate_zlib(stored);
            }
        }
        proof {
            if obj_type == LOG_CONTAINER && container_payload(body@) is Some {
                assert(payload is Some && payload->0@ == container_payload(body@)->0);
            } else {
                assert(payload is None);
            }
        }
        match payload {
            Some(p) => self.parse_container_data(p.as_slice()),
            None => {
                let empty: Vec<CanMessage> = Vec::new();
                assert(frames_view(empty@) =~= Seq::<FrameModel>::empty());
                empty
            },
        }
    }

    /// Reads the next top-level record. `Ok(None)` at the end of the log;
    /// `Ok(Some(frames))` after a record, with the frames of a LogContainer
    /// (none for other records, and for containers whose payload cannot be
    /// read); `Err` on a structural error, which leaves the reader as it was.
    pub fn read_object(&mut self) -> (r: Result<Option<Vec<CanMessage>>, BlfError>)
        ensures
            match object_at(old(self)@.data, old(self)@.pos) {
                ObjectAt::End => r matches Ok(None) && final(self)@ == old(self)@,
                ObjectAt::Fail(e) => r == Err::<Option<Vec<CanMessage>>, BlfError>(e) && final(self)@ == old(self)@,
                ObjectAt::Record { obj_type, body, next } => {
                    let eff = record_effect(obj_type, body, old(self)@.tail, old(self)@.start_ms);
                    &&& r matches Ok(Some(v))
                    &&& frames_view(v@) == eff.0
                    &&& final(self)@ == (ReaderState { pos: next, tail: eff.1, ..old(self)@ })
                },
            },
    {
        let n = self.data.len();
        if self.pos > n || n - self.pos < 16 {
            return Ok(None);
        }
        let pos = self.pos;
        let lobj_sig: [u8; 4] = [0x4c, 0x4f, 0x42, 0x4a];
        assert(lobj_sig@ =~= lobj());
        if !has_signature(self.data.as_slice(), pos, lobj_sig) {
            return Err(BlfError::BadObjectSignature);
        }
        let obj_size = read_u32_le(self.data.as_slice(), pos + 8) as usize;
        let obj_type = read_u32_le(self.data.as_slice(), pos + 12);
        if obj_size < 16 {
            return Err(BlfError::BadObjectSize);
        }
        let padding = obj_size % 4;
        if obj_size > n - pos || padding > n - pos - obj_size {
            return Err(BlfError::TruncatedRecord);
        }
        let body = slice_subrange(self.data.as_slice(), pos + 16, pos + obj_size);
        let body_copy = slice_to_vec(body);
        let frames = self.process_record(obj_type, body_copy.as_slice());
        self.pos = pos + obj_size + padding;
        Ok(Some(frames))
    }

    /// Reads all remaining records and returns their frames in file order, or
    /// the first structural error.
    pub fn read_messages(&mut self) -> (r: Result<Vec<CanMessage>, BlfError>)
        ensures
            match frames_from(old(self)@.data, old(self)@.pos, old(self)@.tail, old(self)@.start_ms) {
                Ok(fs) => r matches Ok(v) && frames_view(v@) == fs,
                Err(e) => r == Err::<Vec<CanMessage>, BlfError>(e),
            },
    {
        let mut all: Vec<CanMessage> = Vec::new();
        let ghost d = self@.data;
        let ghost st = self@.start_ms;
        let ghost goal = frames_from(self@.data, self@.pos, self@.tail, self@.start_ms);
        loop
            invariant
                self@.data == d,
                self@.start_ms == st,
                goal == frames_from(old(self)@.data, old(self)@.pos, old(self)@.tail, old(self)@.start_ms),
                goal == (match frames_from(d, self@.pos, self@.tail, st) {
                    Ok(rest) => Ok(frames_view(all@) + rest),
                    Err(e) => Err(e),
                }),
            decreases d.len() - self@.pos,
        {
            let ghost before = self@;
            let ghost seen = all@;
            match self.read_object() {
                Ok(None) => {
                    assert(frames_view(all@) + Seq::<FrameModel>::empty() =~= frames_view(all@));
                    return Ok(all);
                },
                Ok(Some(mut frames)) => {
                    let ghost got = frames_view(frames@);
                    all.append(&mut frames);
                    assert(frames_view(all@) =~= frames_view(seen) + got);
                    proof {
                        match frames_from(d, self@.pos, self@.tail, st) {
                            Ok(rest) => {
                                assert(frames_view(seen) + (got + rest) =~= frames_view(all@) + rest);
                            },
                            Err(e) => {},
                        }
                    }
                },
                Err(e) => {
                    return Err(e);
                },
            }
        }
    }
}

/// Carry-over at the level of records: two LogContainer records whose
/// payloads (stored or compressed) are `p1` and `p2`, read one after the
/// other, give the same frames and leave the same bytes over as one
/// LogContainer record whose payload is `p1 + p2`.
pub proof fn lemma_record_split(body1: Seq<u8>, body2: Seq<u8>, body: Seq<u8>, tail: Seq<u8>, start_ms: int)
    requires
        container_payload(body1) is Some,
        container_payload(body2) is Some,
        container_payload(body) == Some(container_payload(body1)->0 + container_payload(body2)->0),
    ensures
        ({
            let first = record_effect(LOG_CONTAINER as int, body1, tail, start_ms);
            let second = record_effect(LOG_CONTAINER as int, body2, first.1, start_ms);
            let whole = record_effect(LOG_CONTAINER as int, body, tail, start_ms);
            whole.0 == first.0 + second.0 && whole.1 == second.1
        }),
{
    lemma_container_split(tail, container_payload(body1)->0, container_payload(body2)->0, start_ms);
}

proof fn lemma_object_at_shift(data: Seq<u8>, pos: int)
    requires
        0 <= pos <= data.len(),
    ensures
        ({
            let sub = data.subrange(pos, data.len() as int);
            match object_at(data, pos) {
                ObjectAt::End => object_at(sub, 0) is End,
                ObjectAt::Fail(e) => object_at(sub, 0) == ObjectAt::Fail(e),
                ObjectAt::Record { obj_type, body, next } => object_at(sub, 0) == (ObjectAt::Record {
                    obj_type,
                    body,
                    next: next - pos,
                }),
            }
        }),
{
    let sub = data.subrange(pos, data.len() as int);
    if data.len() - pos >= 16 {
        assert(data.subrange(pos, pos + 4) =~= sub.subrange(0, 4));
        assert(le32(sub, 8) == le32(data, pos + 8));
        assert(le32(sub, 12) == le32(data, pos + 12));
        let size = le32(data, pos + 8);
        if size >= 16 && pos + size + size % 4 <= data.len() {
            assert(sub.subrange(16, size) =~= data.subrange(pos + 16, pos + size));
        }
    }
}

proof fn lemma_frames_from_shift(data: Seq<u8>, pos: int, tail: Seq<u8>, start_ms: int)
    requires
        0 <= pos <= data.len(),
    ensures
        frames_from(data, pos, tail, start_ms) == frames_from(data.subrange(pos, data.len() as int), 0, tail, start_ms),
    decreases data.len() - pos,
{
    let sub = data.subrange(pos, data.len() as int);
    lemma_object_at_shift(data, pos);
    match object_at(data, pos) {
        ObjectAt::Record { obj_type, body, next } => {
            let eff = record_effect(obj_type, body, tail, start_ms);
            if next > pos {
                assert(next <= data.len());
                lemma_frames_from_shift(data, next, eff.1, start_ms);
                lemma_frames_from_shift(sub, next - pos, eff.1, start_ms);
                assert(sub.subrange(next - pos, sub.len() as int) =~= data.subrange(next, data.len() as int));
            }
        },
        _ => {},
    }
}

proof fn lemma_object_at_prefix(r: Seq<u8>, y: Seq<u8>, obj_type: int, body: Seq<u8>)
    requires
        object_at(r, 0) == (ObjectAt::Record { obj_type, body, next: r.len() as int }),
    ensures
        object_at(r + y, 0) == (ObjectAt::Record { obj_type, body, next: r.len() as int }),
{
    let ry = r + y;
    assert(ry.subrange(0, 4) =~= r.subrange(0, 4));
    assert(le32(ry, 8) == le32(r, 8));
    assert(le32(ry, 12) == le32(r, 12));
    let size = le32(r, 8);
    assert(ry.subrange(16, size) =~= r.subrange(16, size));
}

/// Whether `r` is exactly one LogContainer record, whose body is `body`.
pub open spec fn is_container_record(r: Seq<u8>, body: Seq<u8>) -> bool {
    object_at(r, 0) == (ObjectAt::Record { obj_type: LOG_CONTAINER as int, body, next: r.len() as int })
}

proof fn lemma_records_split(
    r1: Seq<u8>,
    b1: Seq<u8>,
    r2: Seq<u8>,
    b2: Seq<u8>,
    r12: Seq<u8>,
    b12: Seq<u8>,
    rest: Seq<u8>,
    tail: Seq<u8>,
    start_ms: int,
)
    requires
        is_container_record(r1, b1),
        is_container_record(r2, b2),
        is_container_record(r12, b12),
        container_payload(b1) is Some,
        container_payload(b2) is Some,
        container_payload(b12) == Some(container_payload(b1)->0 + container_payload(b2)->0),
    ensures
        frames_from(r1 + r2 + rest, 0, tail, start_ms) == frames_from(r12 + rest, 0, tail, start_ms),
{
    let d = r1 + r2 + rest;
    let d1 = r12 + rest;
    assert(d =~= r1 + (r2 + rest));
    lemma_object_at_prefix(r1, r2 + rest, LOG_CONTAINER as int, b1);
    lemma_object_at_prefix(r2, rest, LOG_CONTAINER as int, b2);
    lemma_object_at_prefix(r12, rest, LOG_CONTAINER as int, b12);
    let st = start_ms;
    let e1 = record_effect(LOG_CONTAINER as int, b1, tail, st);
    let e2 = record_effect(LOG_CONTAINER as int, b2, e1.1, st);
    let e12 = record_effect(LOG_CONTAINER as int, b12, tail, st);
    lemma_record_split(b1, b2, b12, tail, st);
    // Both records are at least a base header long, so reading moves on.
    assert(r1.len() >= 16 && r2.len() >= 16 && r12.len() >= 16);
    lemma_frames_from_shift(d, r1.len() as int, e1.1, st);
    assert(d.subrange(r1.len() as int, d.len() as int) =~= r2 + rest);
    lemma_frames_from_shift(r2 + rest, r2.len() as int, e2.1, st);
    assert((r2 + rest).subrange(r2.len() as int, (r2 + rest).len() as int) =~= rest);
    lemma_frames_from_shift(d1, r12.len() as int, e12.1, st);
    assert(d1.subrange(r12.len() as int, d1.len() as int) =~= rest);
    match frames_from(rest, 0, e2.1, st) {
        Ok(fs) => {
            assert(e1.0 + (e2.0 + fs) =~= e12.0 + fs);
        },
        Err(_) => {},
    }
}

/// Carry-over across a whole log: a reader that has reached (after the bytes
/// `pre`) two consecutive LogContainer records `r1` and `r2`, whose payloads
/// are `p1` and `p2`, reads the same frames (or meets the same error) as in the
/// same log with the single LogContainer record `r12` of payload `p1 + p2` in
/// their place, whatever comes after them.
pub proof fn lemma_log_container_split(
    pre: Seq<u8>,
    r1: Seq<u8>,
    b1: Seq<u8>,
    r2: Seq<u8>,
    b2: Seq<u8>,
    r12: Seq<u8>,
    b12: Seq<u8>,
    rest: Seq<u8>,
    tail: Seq<u8>,
    start_ms: int,
)
    requires
        is_container_record(r1, b1),
        is_container_record(r2, b2),
        is_container_record(r12, b12),
        container_payload(b1) is Some,
        container_payload(b2) is Some,
        container_payload(b12) == Some(container_payload(b1)->0 + container_payload(b2)->0),
    ensures
        frames_from(pre + r1 + r2 + rest, pre.len() as int, tail, start_ms) == frames_from(
            pre + r12 + rest,
            pre.len() as int,
            tail,
            start_ms,
        ),
{
    let d = pre + r1 + r2 + rest;
    let d1 = pre + r12 + rest;
    lemma_frames_from_shift(d, pre.len() as int, tail, start_ms);
    lemma_frames_from_shift(d1, pre.len() as int, tail, start_ms);
    assert(d.subrange(pre.len() as int, d.len() as int) =~= r1 + r2 + rest);
    assert(d1.subrange(pre.len() as int, d1.len() as int) =~= r12 + rest);
    lemma_records_split(r1, b1, r2, b2, r12, b12, rest, tail, start_ms);
}

} // verus!
