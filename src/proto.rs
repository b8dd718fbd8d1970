//! The Beepish frame codec: `"<TYPE> <msg_no> <length>\r\n"`, then `length`
//! payload bytes, then `"END\r\n"`.

use vstd::prelude::*;
use crate::json::{
    member, find_member, json_of_bytes, number_from_i64, parse_json_bytes, print_json, str_equal,
    text_of_json, depth_within, Json, JsonView, MAX_JSON_DEPTH,
};
use vstd::string::StringExecFns;
use vstd::slice::slice_subrange;
use vstd::utf8::{is_leading_byte_width_1, partial_valid_utf8, partial_valid_utf8_extend_ascii_block, valid_utf8};
use crate::decimal::{
    all_digits, decimal, decimal_u64, digits_only, digits_value, is_digit, lemma_decimal_len,
    lemma_decimal_reads_back, lemma_u64_decimal_len, pow10, read_u64, write_u64,
};

verus! {

/// The largest payload a frame may declare.
pub const MAX_PACKET_SIZE: usize = 131072;

/// The header line must end within this many bytes of the frame's start.
pub const HEADER_SCAN_LIMIT: usize = 40;

#[derive(Debug, Clone, Copy, PartialEq, Eq, Structural)]
pub enum PacketType {
    Header,
    Data,
    Eof,
    Txerr,
    Ack,
    Ping,
    Pong,
}

/// Why a buffer cannot hold a frame; fatal to the connection.
#[derive(Debug, Clone, Copy, PartialEq, Eq, Structural)]
pub enum FrameError {
    /// The header line is not UTF-8 text.
    InvalidText,
    /// The header line is not three fields separated by single spaces and
    /// closed by `"\r\n"` within the first bytes.
    MalformedHeaderLine,
    InvalidMessageNumber,
    InvalidSize,
    /// The declared length exceeds `MAX_PACKET_SIZE`.
    TooLarge,
    /// The payload is not followed by `"END\r\n"`.
    MalformedTrailer,
}

pub open spec fn kind_word(t: PacketType) -> Seq<u8> {
    match t {
        PacketType::Header => seq![72u8, 69, 65, 68, 69, 82],
        PacketType::Data => seq![68u8, 65, 84, 65],
        PacketType::Eof => seq![69u8, 79, 70],
        PacketType::Txerr => seq![84u8, 88, 69, 82, 82],
        PacketType::Ack => seq![65u8, 67, 75],
        PacketType::Ping => seq![80u8, 73, 78, 71],
        PacketType::Pong => seq![80u8, 79, 78, 71],
    }
}

/// The packet type that a TYPE field names, if it names one.
pub open spec fn type_of_name(s: Seq<u8>) -> Option<PacketType> {
    if s == kind_word(PacketType::Header) {
        Some(PacketType::Header)
    } else if s == kind_word(PacketType::Data) {
        Some(PacketType::Data)
    } else if s == kind_word(PacketType::Eof) {
        Some(PacketType::Eof)
    } else if s == kind_word(PacketType::Txerr) {
        Some(PacketType::Txerr)
    } else if s == kind_word(PacketType::Ack) {
        Some(PacketType::Ack)
    } else if s == kind_word(PacketType::Ping) {
        Some(PacketType::Ping)
    } else if s == kind_word(PacketType::Pong) {
        Some(PacketType::Pong)
    } else {
        None
    }
}

pub open spec fn trailer() -> Seq<u8> {
    seq![69u8, 78, 68, 13, 10]
}

/// The index of the first `b` in `s` at or after `from`, or `s.len()`.
pub open spec fn find_byte(s: Seq<u8>, b: u8, from: int) -> int
    decreases s.len() - from,
{
    if from < 0 || from >= s.len() {
        s.len() as int
    } else if s[from] == b {
        from
    } else {
        find_byte(s, b, from + 1)
    }
}

pub open spec fn all_ascii(s: Seq<u8>) -> bool {
    forall|i: int| 0 <= i < s.len() ==> #[trigger] s[i] < 128
}

proof fn lemma_ascii_is_utf8(s: Seq<u8>)
    requires
        all_ascii(s),
    ensures
        valid_utf8(s),
{
    assert(s.subrange(0, 0) =~= Seq::<u8>::empty());
    assert(partial_valid_utf8(s, 0));
    assert forall|i: int| 0 <= 0 <= i < s.len() <= s.len() implies #[trigger] is_leading_byte_width_1(s[i]) by {
        assert(s[i] < 128);
    }
    partial_valid_utf8_extend_ascii_block(s, 0, s.len() as int);
    assert(s.subrange(0, s.len() as int) =~= s);
}

/// What the start of a buffer holds, read as a frame.
pub enum FrameShape {
    TooShort,
    Fatal(FrameError),
    /// The header line is complete; this many more bytes are needed.
    NeedBytes(nat),
    /// A whole frame, its payload at `start..end`; the trailer follows it.
    Frame { name: Seq<u8>, msg_no: u64, start: int, end: int },
}

/// The header line fields: TYPE, msg_no and length, separated by single spaces.
pub open spec fn line_fields(body: Seq<u8>) -> Option<(Seq<u8>, Seq<u8>, Seq<u8>)> {
    let sp1 = find_byte(body, 32, 0);
    let sp2 = find_byte(body, 32, sp1 + 1);
    let sp3 = find_byte(body, 32, sp2 + 1);
    if 0 < sp1 < body.len() && sp2 < body.len() && sp3 == body.len() {
        Some((body.subrange(0, sp1), body.subrange(sp1 + 1, sp2), body.subrange(sp2 + 1, body.len() as int)))
    } else {
        None
    }
}

pub open spec fn frame_shape(buf: Seq<u8>) -> FrameShape {
    let window: int = if buf.len() < HEADER_SCAN_LIMIT { buf.len() as int } else { HEADER_SCAN_LIMIT as int };
    let cut = find_byte(buf.subrange(0, window), 10, 0);
    if cut == window {
        if buf.len() < HEADER_SCAN_LIMIT {
            FrameShape::TooShort
        } else {
            FrameShape::Fatal(FrameError::MalformedHeaderLine)
        }
    } else {
        let line = buf.subrange(0, cut);
        if !valid_utf8(line) {
            FrameShape::Fatal(FrameError::InvalidText)
        } else if line.len() == 0 || line.last() != 13 || line_fields(line.drop_last()) is None {
            FrameShape::Fatal(FrameError::MalformedHeaderLine)
        } else {
            let (name, m, l) = line_fields(line.drop_last())->0;
            if decimal_u64(m) is None {
                FrameShape::Fatal(FrameError::InvalidMessageNumber)
            } else if l.len() == 0 || !all_digits(l) {
                FrameShape::Fatal(FrameError::InvalidSize)
            } else if digits_value(l) > MAX_PACKET_SIZE {
                FrameShape::Fatal(FrameError::TooLarge)
            } else {
                let start = cut + 1;
                let end = start + digits_value(l);
                if end + 5 > buf.len() {
                    FrameShape::NeedBytes((end + 5 - buf.len()) as nat)
                } else if buf.subrange(end, end + 5) != trailer() {
                    FrameShape::Fatal(FrameError::MalformedTrailer)
                } else {
                    FrameShape::Frame { name, msg_no: decimal_u64(m)->0, start, end }
                }
            }
        }
    }
}

/// The bytes of one frame.
pub open spec fn frame_bytes(t: PacketType, msg_no: u64, payload: Seq<u8>) -> Seq<u8> {
    header_line(t, msg_no, payload.len()) + payload + trailer()
}

pub open spec fn header_line(t: PacketType, msg_no: u64, len: nat) -> Seq<u8> {
    kind_word(t) + seq![32u8] + decimal(msg_no as nat) + seq![32u8] + decimal(len) + seq![13u8, 10]
}

/// Index of the first `b` in `buf[from..to]`, or `to`.
pub fn find_byte_in(buf: &[u8], b: u8, from: usize, to: usize) -> (r: usize)
    requires
        to <= buf@.len(),
    ensures
        r as int == find_byte(buf@.subrange(0, to as int), b, from as int),
        from <= to ==> from <= r <= to,
{
    let ghost s = buf@.subrange(0, to as int);
    if from >= to {
        return to;
    }
    let mut i = from;
    while i < to
        invariant
            from <= i <= to <= buf@.len(),
            s == buf@.subrange(0, to as int),
            find_byte(s, b, from as int) == find_byte(s, b, i as int),
        decreases to - i,
    {
        if buf[i] == b {
            return i;
        }
        i = i + 1;
    }
    i
}

/// Relies on `std::str::from_utf8`, which accepts exactly the byte
/// sequences that are valid UTF-8.
#[verifier::external_body]
fn is_utf8(bytes: &[u8]) -> (r: bool)
    ensures
        r == valid_utf8(bytes@),
{
    std::str::from_utf8(bytes).is_ok()
}

fn name_matches(buf: &[u8], lo: usize, hi: usize, name: &[u8]) -> (r: bool)
    requires
        lo <= hi <= buf@.len(),
    ensures
        r == (buf@.subrange(lo as int, hi as int) == name@),
{
    if hi - lo != name.len() {
        return false;
    }
    let mut i: usize = 0;
    while i < name.len()
        invariant
            lo <= hi <= buf@.len(),
            hi - lo == name@.len(),
            i <= name@.len(),
            forall|k: int| 0 <= k < i ==> buf@[lo + k] == name@[k],
        decreases name@.len() - i,
    {
        if buf[lo + i] != name[i] {
            assert(buf@.subrange(lo as int, hi as int)[i as int] != name@[i as int]);
            return false;
        }
        i = i + 1;
    }
    assert(buf@.subrange(lo as int, hi as int) =~= name@);
    true
}

/// The packet type named by `buf[lo..hi]`.
pub fn packet_type_named(buf: &[u8], lo: usize, hi: usize) -> (r: Option<PacketType>)
    requires
        lo <= hi <= buf@.len(),
    ensures
        r == type_of_name(buf@.subrange(lo as int, hi as int)),
{
    let ghost s = buf@.subrange(lo as int, hi as int);
    let header: [u8; 6] = [72, 69, 65, 68, 69, 82];
    let data: [u8; 4] = [68, 65, 84, 65];
    let eof: [u8; 3] = [69, 79, 70];
    let txerr: [u8; 5] = [84, 88, 69, 82, 82];
    let ack: [u8; 3] = [65, 67, 75];
    let ping: [u8; 4] = [80, 73, 78, 71];
    let pong: [u8; 4] = [80, 79, 78, 71];
    assert(header@ =~= kind_word(PacketType::Header));
    assert(data@ =~= kind_word(PacketType::Data));
    assert(eof@ =~= kind_word(PacketType::Eof));
    assert(txerr@ =~= kind_word(PacketType::Txerr));
    assert(ack@ =~= kind_word(PacketType::Ack));
    assert(ping@ =~= kind_word(PacketType::Ping));
    assert(pong@ =~= kind_word(PacketType::Pong));
    if name_matches(buf, lo, hi, header.as_slice()) {
        Some(PacketType::Header)
    } else if name_matches(buf, lo, hi, data.as_slice()) {
        Some(PacketType::Data)
    } else if name_matches(buf, lo, hi, eof.as_slice()) {
        Some(PacketType::Eof)
    } else if name_matches(buf, lo, hi, txerr.as_slice()) {
        Some(PacketType::Txerr)
    } else if name_matches(buf, lo, hi, ack.as_slice()) {
        Some(PacketType::Ack)
    } else if name_matches(buf, lo, hi, ping.as_slice()) {
        Some(PacketType::Ping)
    } else if name_matches(buf, lo, hi, pong.as_slice()) {
        Some(PacketType::Pong)
    } else {
        None
    }
}

/// Where a frame stands at the start of `buf`; `name` is given as the range
/// of its TYPE field.
pub enum FrameScan {
    TooShort,
    Fatal(FrameError),
    NeedBytes(usize),
    Frame { name_start: usize, name_end: usize, msg_no: u64, start: usize, end: usize },
}

pub open spec fn scan_matches(buf: Seq<u8>, r: FrameScan) -> bool {
    match frame_shape(buf) {
        FrameShape::TooShort => r is TooShort,
        FrameShape::Fatal(e) => r == FrameScan::Fatal(e),
        FrameShape::NeedBytes(n) => r == FrameScan::NeedBytes(n as usize) && n <= usize::MAX,
        FrameShape::Frame { name, msg_no, start, end } => r matches FrameScan::Frame {
            name_start,
            name_end,
            msg_no: m,
            start: s,
            end: e,
        } && name_start <= name_end <= buf.len() && buf.subrange(name_start as int, name_end as int)
            == name && m == msg_no && s == start && e == end && end + 5 <= buf.len(),
    }
}

/// Reads the frame at the start of `buf`, without decoding its payload.
pub fn scan_frame(buf: &[u8]) -> (r: FrameScan)
    ensures
        scan_matches(buf@, r),
        buf@.len() <= usize::MAX,
{
    let window: usize = if buf.len() < HEADER_SCAN_LIMIT { buf.len() } else { HEADER_SCAN_LIMIT };
    let cut = find_byte_in(buf, 10, 0, window);
    if cut == window {
        if buf.len() < HEADER_SCAN_LIMIT {
            return FrameScan::TooShort;
        } else {
            return FrameScan::Fatal(FrameError::MalformedHeaderLine);
        }
    }
    let ghost line = buf@.subrange(0, cut as int);
    assert(buf@.subrange(0, window as int).subrange(0, cut as int) =~= line);
    if !is_utf8(slice_subrange(buf, 0, cut)) {
        return FrameScan::Fatal(FrameError::InvalidText);
    }
    if cut == 0 || buf[cut - 1] != 13 {
        return FrameScan::Fatal(FrameError::MalformedHeaderLine);
    }
    let body_end = cut - 1;
    let ghost body = line.drop_last();
    assert(body =~= buf@.subrange(0, body_end as int));
    let sp1 = find_byte_in(buf, 32, 0, body_end);
    let sp2 = find_byte_in(buf, 32, if sp1 < body_end { sp1 + 1 } else { body_end }, body_end);
    let sp3 = find_byte_in(buf, 32, if sp2 < body_end { sp2 + 1 } else { body_end }, body_end);
    proof {
        if sp1 >= body_end {
            assert(find_byte(body, 32, sp1 + 1) == body.len());
        }
        if sp2 >= body_end {
            assert(find_byte(body, 32, sp2 + 1) == body.len());
        }
    }
    if !(0 < sp1 && sp1 < body_end && sp2 < body_end && sp3 == body_end) {
        return FrameScan::Fatal(FrameError::MalformedHeaderLine);
    }
    assert(body.subrange(0, sp1 as int) =~= buf@.subrange(0, sp1 as int));
    assert(body.subrange(sp1 + 1, sp2 as int) =~= buf@.subrange(sp1 + 1, sp2 as int));
    assert(body.subrange(sp2 + 1, body.len() as int) =~= buf@.subrange(sp2 + 1, body_end as int));
    let msg_no = match read_u64(buf, sp1 + 1, sp2) {
        Some(m) => m,
        None => {
            return FrameScan::Fatal(FrameError::InvalidMessageNumber);
        },
    };
    if sp2 + 1 == body_end || !digits_only(buf, sp2 + 1, body_end) {
        return FrameScan::Fatal(FrameError::InvalidSize);
    }
    let size: usize = match read_u64(buf, sp2 + 1, body_end) {
        Some(v) => {
            if v > MAX_PACKET_SIZE as u64 {
                return FrameScan::Fatal(FrameError::TooLarge);
            }
            v as usize
        },
        None => {
            return FrameScan::Fatal(FrameError::TooLarge);
        },
    };
    let start = cut + 1;
    let end = start + size;
    if end + 5 > buf.len() {
        return FrameScan::NeedBytes(end + 5 - buf.len());
    }
    if !name_matches(buf, end, end + 5, [69u8, 78, 68, 13, 10].as_slice()) {
        assert([69u8, 78, 68, 13, 10]@ =~= trailer());
        return FrameScan::Fatal(FrameError::MalformedTrailer);
    }
    assert([69u8, 78, 68, 13, 10]@ =~= trailer());
    FrameScan::Frame { name_start: 0, name_end: sp1, msg_no, start, end }
}


/// Appends `src[lo..hi]` to `out`.
pub fn append_range(out: &mut Vec<u8>, src: &[u8], lo: usize, hi: usize)
    requires
        lo <= hi <= src@.len(),
    ensures
        final(out)@ == old(out)@ + src@.subrange(lo as int, hi as int),
{
    let mut i = lo;
    while i < hi
        invariant
            lo <= i <= hi <= src@.len(),
            out@ == old(out)@ + src@.subrange(lo as int, i as int),
        decreases hi - i,
    {
        out.push(src[i]);
        assert(src@.subrange(lo as int, i + 1) =~= src@.subrange(lo as int, i as int).push(src@[i as int]));
        i = i + 1;
    }
}

#[derive(Debug, Clone, PartialEq, Eq)]
pub enum EnvelopeFormat {
    Json,
    JsonStore,
    Other(String),
}

#[derive(Debug, Clone, Copy, PartialEq, Eq, Structural)]
pub enum MessageType {
    Request,
    Reply,
}

/// The structured header that a HEADER frame carries as a JSON object.
#[derive(Debug, Clone, PartialEq, Eq)]
pub struct PacketHeader {
    pub action: String,
    pub envelope: EnvelopeFormat,
    pub error: Option<String>,
    pub error_code: Option<String>,
    pub request_id: i64,
    pub client_id: i64,
    pub ticket: String,
    pub identifying_token: String,
    pub message_type: MessageType,
    pub version: i32,
}

pub open spec fn envelope_of_json(j: Json) -> Option<EnvelopeFormat> {
    match j {
        Json::Str(s) => if s@ == "Json"@ {
            Some(EnvelopeFormat::Json)
        } else if s@ == "JsonStore"@ {
            Some(EnvelopeFormat::JsonStore)
        } else {
            None
        },
        Json::Object(ms) => if ms@.len() == 1 && ms@[0].0@ == "Other"@ && ms@[0].1 is Str {
            Some(EnvelopeFormat::Other(ms@[0].1->Str_0))
        } else {
            None
        },
        _ => None,
    }
}

pub open spec fn message_type_of_json(j: Json) -> Option<MessageType> {
    match j {
        Json::Str(s) => if s@ == "Request"@ {
            Some(MessageType::Request)
        } else if s@ == "Reply"@ {
            Some(MessageType::Reply)
        } else {
            None
        },
        _ => None,
    }
}

pub open spec fn str_member(ms: Seq<(String, Json)>, key: Seq<char>) -> Option<String> {
    match member(ms, key) {
        Some(Json::Str(s)) => Some(s),
        _ => None,
    }
}

/// A member that may be absent or null.
pub open spec fn opt_str_member(ms: Seq<(String, Json)>, key: Seq<char>) -> Option<Option<String>> {
    match member(ms, key) {
        None => Some(None),
        Some(Json::Null) => Some(None),
        Some(Json::Str(s)) => Some(Some(s)),
        _ => None,
    }
}

pub open spec fn i64_member(ms: Seq<(String, Json)>, key: Seq<char>) -> Option<i64> {
    match member(ms, key) {
        Some(j) => j.spec_as_i64(),
        None => None,
    }
}

/// The header that a JSON value describes: an object with every field, by
/// name; `error` and `error_code` may be absent or null; other members are
/// ignored.
pub open spec fn header_of_json(j: Json) -> Option<PacketHeader> {
    match j {
        Json::Object(ms) => {
            let m = ms@;
            let envelope = match member(m, "envelope"@) {
                Some(e) => envelope_of_json(e),
                None => None,
            };
            let message_type = match member(m, "message_type"@) {
                Some(t) => message_type_of_json(t),
                None => None,
            };
            let version = i64_member(m, "version"@);
            if str_member(m, "action"@) is Some && envelope is Some && opt_str_member(m, "error"@) is Some
                && opt_str_member(m, "error_code"@) is Some && i64_member(m, "request_id"@) is Some
                && i64_member(m, "client_id"@) is Some && str_member(m, "ticket"@) is Some
                && str_member(m, "identifying_token"@) is Some && message_type is Some && version is Some
                && i32::MIN <= version->0 <= i32::MAX {
                Some(
                    PacketHeader {
                        action: str_member(m, "action"@)->0,
                        envelope: envelope->0,
                        error: opt_str_member(m, "error"@)->0,
                        error_code: opt_str_member(m, "error_code"@)->0,
                        request_id: i64_member(m, "request_id"@)->0,
                        client_id: i64_member(m, "client_id"@)->0,
                        ticket: str_member(m, "ticket"@)->0,
                        identifying_token: str_member(m, "identifying_token"@)->0,
                        message_type: message_type->0,
                        version: version->0 as i32,
                    },
                )
            } else {
                None
            }
        },
        _ => None,
    }
}

/// The header that a HEADER payload holds, if any.
pub open spec fn header_of_payload(payload: Seq<u8>) -> Option<PacketHeader> {
    match json_of_bytes(payload) {
        Some(j) => header_of_json(j),
        None => None,
    }
}

fn str_of(ms: &Vec<(String, Json)>, key: &str) -> (r: Option<String>)
    ensures
        r == str_member(ms@, key@),
{
    match find_member(ms, key) {
        Some(Json::Str(s)) => Some(s.clone()),
        _ => None,
    }
}

fn opt_str_of(ms: &Vec<(String, Json)>, key: &str) -> (r: Option<Option<String>>)
    ensures
        r == opt_str_member(ms@, key@),
{
    match find_member(ms, key) {
        None => Some(None),
        Some(Json::Null) => Some(None),
        Some(Json::Str(s)) => Some(Some(s.clone())),
        _ => None,
    }
}

fn i64_of(ms: &Vec<(String, Json)>, key: &str) -> (r: Option<i64>)
    ensures
        r == i64_member(ms@, key@),
{
    match find_member(ms, key) {
        Some(j) => j.as_i64(),
        None => None,
    }
}

fn envelope_from_json(j: &Json) -> (r: Option<EnvelopeFormat>)
    ensures
        r == envelope_of_json(*j),
{
    match j {
        Json::Str(s) => if str_equal(s.as_str(), "Json") {
            Some(EnvelopeFormat::Json)
        } else if str_equal(s.as_str(), "JsonStore") {
            Some(EnvelopeFormat::JsonStore)
        } else {
            None
        },
        Json::Object(ms) => {
            if ms.len() == 1 && str_equal(ms[0].0.as_str(), "Other") {
                match &ms[0].1 {
                    Json::Str(s) => Some(EnvelopeFormat::Other(s.clone())),
                    _ => None,
                }
            } else {
                None
            }
        },
        _ => None,
    }
}

fn message_type_from_json(j: &Json) -> (r: Option<MessageType>)
    ensures
        r == message_type_of_json(*j),
{
    match j {
        Json::Str(s) => if str_equal(s.as_str(), "Request") {
            Some(MessageType::Request)
        } else if str_equal(s.as_str(), "Reply") {
            Some(MessageType::Reply)
        } else {
            None
        },
        _ => None,
    }
}

fn key(s: &str) -> (r: String)
    ensures
        r@ == s@,
{
    String::from_str(s)
}

fn opt_str_json(v: &Option<String>) -> (r: Json)
    ensures
        v is None ==> r is Null,
        *v matches Some(s) ==> r == Json::Str(s),
{
    match v {
        Some(s) => Json::Str(s.clone()),
        None => Json::Null,
    }
}

pub open spec fn envelope_shape(e: EnvelopeFormat) -> JsonView {
    match e {
        EnvelopeFormat::Json => JsonView::Str("Json"@),
        EnvelopeFormat::JsonStore => JsonView::Str("JsonStore"@),
        EnvelopeFormat::Other(s) => JsonView::Object(seq![("Other"@, JsonView::Str(s@))]),
    }
}

pub open spec fn message_type_shape(t: MessageType) -> JsonView {
    match t {
        MessageType::Request => JsonView::Str("Request"@),
        MessageType::Reply => JsonView::Str("Reply"@),
    }
}

pub open spec fn opt_str_shape(v: Option<String>) -> JsonView {
    match v {
        Some(s) => JsonView::Str(s@),
        None => JsonView::Null,
    }
}

/// The JSON object that a HEADER carries for a header: its members by name,
/// in key order.
pub open spec fn header_shape(h: PacketHeader) -> JsonView {
    JsonView::Object(
        seq![
            ("action"@, JsonView::Str(h.action@)),
            ("client_id"@, JsonView::Int(h.client_id as int)),
            ("envelope"@, envelope_shape(h.envelope)),
            ("error"@, opt_str_shape(h.error)),
            ("error_code"@, opt_str_shape(h.error_code)),
            ("identifying_token"@, JsonView::Str(h.identifying_token@)),
            ("message_type"@, message_type_shape(h.message_type)),
            ("request_id"@, JsonView::Int(h.request_id as int)),
            ("ticket"@, JsonView::Str(h.ticket@)),
            ("version"@, JsonView::Int(h.version as int)),
        ],
    )
}

/// A header object nests no deeper than an envelope object inside it.
proof fn lemma_header_depth(h: PacketHeader)
    ensures
        depth_within(header_shape(h), MAX_JSON_DEPTH as nat),
{
    reveal_with_fuel(depth_within, 3);
    let o = header_shape(h)->Object_0;
    assert forall|i: int| 0 <= i < o.len() implies depth_within(#[trigger] o[i].1, 127) by {
        if i == 2 {
            if let EnvelopeFormat::Other(s) = h.envelope {
                let inner = seq![("Other"@, JsonView::Str(s@))];
                assert(depth_within(inner[0].1, 126));
            }
        }
    }
}

fn envelope_to_json(e: &EnvelopeFormat) -> (r: Json)
    ensures
        envelope_of_json(r) == Some(*e),
        r.shape() == envelope_shape(*e),
{
    proof {
        reveal_strlit("Json");
        reveal_strlit("JsonStore");
        reveal_strlit("Other");
    }
    match e {
        EnvelopeFormat::Json => {
            let k = key("Json");
            assert(k@ == "Json"@);
            Json::Str(k)
        },
        EnvelopeFormat::JsonStore => {
            let k = key("JsonStore");
            assert("JsonStore"@.len() == 9 && "Json"@.len() == 4);
            assert(k@ == "JsonStore"@ && k@ != "Json"@);
            Json::Str(k)
        },
        EnvelopeFormat::Other(s) => {
            let k = key("Other");
            assert(k@ == "Other"@);
            let mut o: Vec<(String, Json)> = Vec::new();
            o.push((k, Json::Str(s.clone())));
            assert(o@[0].0@ == "Other"@);
            assert(o@[0].1.shape() == JsonView::Str(s@));
            let r = Json::Object(o);
            assert(r.shape() == JsonView::Object(seq![("Other"@, JsonView::Str(s@))])) by {
                let sh = r.shape()->Object_0;
                assert(sh.len() == 1);
                assert(sh[0] == ("Other"@, JsonView::Str(s@)));
                assert(sh =~= seq![("Other"@, JsonView::Str(s@))]);
            }
            r
        },
    }
}

fn message_type_to_json(t: MessageType) -> (r: Json)
    ensures
        message_type_of_json(r) == Some(t),
        r.shape() == message_type_shape(t),
{
    proof {
        reveal_strlit("Request");
        reveal_strlit("Reply");
    }
    match t {
        MessageType::Request => {
            let k = key("Request");
            assert(k@ == "Request"@);
            Json::Str(k)
        },
        MessageType::Reply => {
            let k = key("Reply");
            assert("Reply"@.len() == 5 && "Request"@.len() == 7);
            assert(k@ == "Reply"@ && k@ != "Request"@);
            Json::Str(k)
        },
    }
}

impl PacketHeader {
    /// Reads a header from the JSON value of a HEADER payload.
    pub fn from_json(j: &Json) -> (r: Option<PacketHeader>)
        ensures
            r == header_of_json(*j),
    {
        let ms = match j {
            Json::Object(ms) => ms,
            _ => {
                return None;
            },
        };
        let action = match str_of(ms, "action") {
            Some(a) => a,
            None => {
                return None;
            },
        };
        let envelope = match find_member(ms, "envelope") {
            Some(e) => match envelope_from_json(e) {
                Some(e) => e,
                None => {
                    return None;
                },
            },
            None => {
                return None;
            },
        };
        let error = match opt_str_of(ms, "error") {
            Some(e) => e,
            None => {
                return None;
            },
        };
        let error_code = match opt_str_of(ms, "error_code") {
            Some(e) => e,
            None => {
                return None;
            },
        };
        let request_id = match i64_of(ms, "request_id") {
            Some(v) => v,
            None => {
                return None;
            },
        };
        let client_id = match i64_of(ms, "client_id") {
            Some(v) => v,
            None => {
                return None;
            },
        };
        let ticket = match str_of(ms, "ticket") {
            Some(v) => v,
            None => {
                return None;
            },
        };
        let identifying_token = match str_of(ms, "identifying_token") {
            Some(v) => v,
            None => {
                return None;
            },
        };
        let message_type = match find_member(ms, "message_type") {
            Some(t) => match message_type_from_json(t) {
                Some(t) => t,
                None => {
                    return None;
                },
            },
            None => {
                return None;
            },
        };
        let version = match i64_of(ms, "version") {
            Some(v) => v,
            None => {
                return None;
            },
        };
        if version < i32::MIN as i64 || version > i32::MAX as i64 {
            return None;
        }
        Some(
            PacketHeader {
                action,
                envelope,
                error,
                error_code,
                request_id,
                client_id,
                ticket,
                identifying_token,
                message_type,
                version: version as i32,
            },
        )
    }

    /// The JSON object of this header; it reads back as the same header.
    pub fn to_json(&self) -> (r: Json)
        ensures
            header_of_json(r) == Some(*self),
            r.shape() == header_shape(*self),
    {
        let envelope = envelope_to_json(&self.envelope);
        let message_type = message_type_to_json(self.message_type);
        let mut ms: Vec<(String, Json)> = Vec::new();
        ms.push((key("action"), Json::Str(self.action.clone())));
        ms.push((key("client_id"), Json::Number(number_from_i64(self.client_id))));
        ms.push((key("envelope"), envelope));
        ms.push((key("error"), opt_str_json(&self.error)));
        ms.push((key("error_code"), opt_str_json(&self.error_code)));
        ms.push((key("identifying_token"), Json::Str(self.identifying_token.clone())));
        ms.push((key("message_type"), message_type));
        ms.push((key("request_id"), Json::Number(number_from_i64(self.request_id))));
        ms.push((key("ticket"), Json::Str(self.ticket.clone())));
        ms.push((key("version"), Json::Number(number_from_i64(self.version as i64))));
        proof {
            reveal_strlit("action");
            reveal_strlit("client_id");
            reveal_strlit("envelope");
            reveal_strlit("error");
            reveal_strlit("error_code");
            reveal_strlit("identifying_token");
            reveal_strlit("message_type");
            reveal_strlit("request_id");
            reveal_strlit("ticket");
            reveal_strlit("version");
            reveal_with_fuel(member, 11);
            let m = ms@;
            assert("action"@.len() == 6 && "client_id"@.len() == 9 && "envelope"@.len() == 8);
            assert("error"@.len() == 5 && "error_code"@.len() == 10 && "identifying_token"@.len() == 17);
            assert("message_type"@.len() == 12 && "request_id"@.len() == 10 && "ticket"@.len() == 6);
            assert("version"@.len() == 7);
            assert("action"@[0] != "ticket"@[0] && "error_code"@[0] != "request_id"@[0]);
            assert(m[0].0@ == "action"@);
            assert(m[1].0@ == "client_id"@);
            assert(m[2].0@ == "envelope"@ && m[2].1 == envelope);
            assert(m[3].0@ == "error"@);
            assert(m[4].0@ == "error_code"@);
            assert(m[5].0@ == "identifying_token"@);
            assert(m[6].0@ == "message_type"@ && m[6].1 == message_type);
            assert(m[7].0@ == "request_id"@);
            assert(m[8].0@ == "ticket"@);
            assert(m[9].0@ == "version"@);
            assert(member(m, "action"@) == Some(Json::Str(self.action)));
            assert(str_member(m, "action"@) == Some(self.action));
            assert(member(m, "envelope"@) == Some(envelope));
            assert(opt_str_member(m, "error"@) == Some(self.error));
            assert(opt_str_member(m, "error_code"@) == Some(self.error_code));
            assert(i64_member(m, "request_id"@) == Some(self.request_id));
            assert(i64_member(m, "client_id"@) == Some(self.client_id));
            assert(str_member(m, "ticket"@) == Some(self.ticket));
            assert(str_member(m, "identifying_token"@) == Some(self.identifying_token));
            assert(member(m, "message_type"@) == Some(message_type));
            assert(i64_member(m, "version"@) == Some(self.version as i64));
            assert(m[0].1.shape() == JsonView::Str(self.action@));
            assert(m[1].1.shape() == JsonView::Int(self.client_id as int));
            assert(m[3].1.shape() == opt_str_shape(self.error));
            assert(m[4].1.shape() == opt_str_shape(self.error_code));
            assert(m[5].1.shape() == JsonView::Str(self.identifying_token@));
            assert(m[7].1.shape() == JsonView::Int(self.request_id as int));
            assert(m[8].1.shape() == JsonView::Str(self.ticket@));
            assert(m[9].1.shape() == JsonView::Int(self.version as int));
        }
        let r = Json::Object(ms);
        proof {
            let sh = r.shape()->Object_0;
            assert(sh =~= header_shape(*self)->Object_0);
        }
        r
    }
}

/// One frame: a HEADER carries its structured header and no body; every
/// other type carries raw body bytes.
#[derive(Debug)]
pub struct Packet {
    pub packet_type: PacketType,
    pub msg_no: u64,
    pub packet_header: Option<PacketHeader>,
    pub body: Vec<u8>,
}

impl Packet {
    pub open spec fn wf(&self) -> bool {
        &&& (self.packet_header is Some <==> self.packet_type == PacketType::Header)
        &&& (self.packet_type == PacketType::Header ==> self.body@.len() == 0)
    }

    /// Reads one frame from the start of `buf`.
    pub fn parse(buf: &[u8]) -> (r: ParseResult)
        ensures
            parse_matches(buf@, r),
            r matches ParseResult::Drop { bytes_used } ==> 0 < bytes_used <= buf@.len(),
            r matches ParseResult::Success { bytes_used, .. } ==> 0 < bytes_used <= buf@.len(),
    {
        match scan_frame(buf) {
            FrameScan::TooShort => ParseResult::TooShort,
            FrameScan::Fatal(e) => ParseResult::Fatal(e),
            FrameScan::NeedBytes(n) => ParseResult::NeedBytes { bytes: n },
            FrameScan::Frame { name_start, name_end, msg_no, start, end } => {
                let bytes_used = end + 5;
                match packet_type_named(buf, name_start, name_end) {
                    None => ParseResult::Drop { bytes_used },
                    Some(PacketType::Header) => {
                        let mut payload: Vec<u8> = Vec::new();
                        append_range(&mut payload, buf, start, end);
                        assert(payload@ =~= buf@.subrange(start as int, end as int));
                        let header = match parse_json_bytes(payload.as_slice()) {
                            Ok(j) => PacketHeader::from_json(&j),
                            Err(_) => None,
                        };
                        match header {
                            Some(h) => ParseResult::Success {
                                packet: Packet {
                                    packet_type: PacketType::Header,
                                    msg_no,
                                    packet_header: Some(h),
                                    body: Vec::new(),
                                },
                                bytes_used,
                            },
                            None => ParseResult::Drop { bytes_used },
                        }
                    },
                    Some(t) => {
                        let mut body: Vec<u8> = Vec::new();
                        append_range(&mut body, buf, start, end);
                        assert(body@ =~= buf@.subrange(start as int, end as int));
                        ParseResult::Success {
                            packet: Packet { packet_type: t, msg_no, packet_header: None, body },
                            bytes_used,
                        }
                    },
                }
            },
        }
    }

    /// The bytes of this packet as a frame.
    pub fn encode(&self) -> (r: Vec<u8>)
        ensures
            self.packet_header is None ==> r@ == frame_bytes(self.packet_type, self.msg_no, self.body@),
            self.packet_header matches Some(h) ==> r@ == frame_bytes(
                self.packet_type,
                self.msg_no,
                text_of_json(header_shape(h)),
            ),
    {
        let payload: Vec<u8> = match &self.packet_header {
            Some(h) => {
                let j = h.to_json();
                proof {
                    lemma_header_depth(*h);
                }
                print_json(&j)
            },
            None => {
                let mut b: Vec<u8> = Vec::new();
                append_range(&mut b, self.body.as_slice(), 0, self.body.len());
                assert(b@ =~= self.body@);
                b
            },
        };
        let out = frame_of(self.packet_type, self.msg_no, &payload);
        out
    }
}

/// The bytes of one frame around `payload`.
pub fn frame_of(t: PacketType, msg_no: u64, payload: &Vec<u8>) -> (r: Vec<u8>)
    ensures
        r@ == frame_bytes(t, msg_no, payload@),
{
    let mut out: Vec<u8> = Vec::new();
    let name = kind_bytes(t);
    append_range(&mut out, name.as_slice(), 0, name.len());
    out.push(32);
    write_u64(&mut out, msg_no);
    out.push(32);
    write_u64(&mut out, payload.len() as u64);
    out.push(13);
    out.push(10);
    append_range(&mut out, payload.as_slice(), 0, payload.len());
    let end: [u8; 5] = [69, 78, 68, 13, 10];
    append_range(&mut out, end.as_slice(), 0, 5);
    proof {
        assert(name@.subrange(0, name@.len() as int) =~= name@);
        assert(payload@.subrange(0, payload@.len() as int) =~= payload@);
        assert(end@.subrange(0, 5) =~= trailer());
        assert(out@ =~= frame_bytes(t, msg_no, payload@));
    }
    out
}

/// The TYPE word of a packet type.
pub fn kind_bytes(t: PacketType) -> (r: Vec<u8>)
    ensures
        r@ == kind_word(t),
{
    let mut out: Vec<u8> = Vec::new();
    match t {
        PacketType::Header => {
            let w: [u8; 6] = [72, 69, 65, 68, 69, 82];
            append_range(&mut out, w.as_slice(), 0, 6);
            assert(w@.subrange(0, 6) =~= kind_word(t));
        },
        PacketType::Data => {
            let w: [u8; 4] = [68, 65, 84, 65];
            append_range(&mut out, w.as_slice(), 0, 4);
            assert(w@.subrange(0, 4) =~= kind_word(t));
        },
        PacketType::Eof => {
            let w: [u8; 3] = [69, 79, 70];
            append_range(&mut out, w.as_slice(), 0, 3);
            assert(w@.subrange(0, 3) =~= kind_word(t));
        },
        PacketType::Txerr => {
            let w: [u8; 5] = [84, 88, 69, 82, 82];
            append_range(&mut out, w.as_slice(), 0, 5);
            assert(w@.subrange(0, 5) =~= kind_word(t));
        },
        PacketType::Ack => {
            let w: [u8; 3] = [65, 67, 75];
            append_range(&mut out, w.as_slice(), 0, 3);
            assert(w@.subrange(0, 3) =~= kind_word(t));
        },
        PacketType::Ping => {
            let w: [u8; 4] = [80, 73, 78, 71];
            append_range(&mut out, w.as_slice(), 0, 4);
            assert(w@.subrange(0, 4) =~= kind_word(t));
        },
        PacketType::Pong => {
            let w: [u8; 4] = [80, 79, 78, 71];
            append_range(&mut out, w.as_slice(), 0, 4);
            assert(w@.subrange(0, 4) =~= kind_word(t));
        },
    }
    assert(out@ =~= kind_word(t));
    out
}

/// The outcome of reading one frame from a buffer.
#[derive(Debug)]
pub enum ParseResult {
    /// The header line is not complete yet.
    TooShort,
    /// The header line is complete; this many more bytes are needed.
    NeedBytes { bytes: usize },
    Success { packet: Packet, bytes_used: usize },
    /// A well-framed frame of an unknown type, or a HEADER whose payload is
    /// not a header, to be skipped.
    Drop { bytes_used: usize },
    Fatal(FrameError),
}

pub open spec fn parse_matches(buf: Seq<u8>, r: ParseResult) -> bool {
    match frame_shape(buf) {
        FrameShape::TooShort => r is TooShort,
        FrameShape::Fatal(e) => r == ParseResult::Fatal(e),
        FrameShape::NeedBytes(n) => r == ParseResult::NeedBytes { bytes: n as usize } && n <= usize::MAX,
        FrameShape::Frame { name, msg_no, start, end } => {
            let payload = buf.subrange(start, end);
            match type_of_name(name) {
                None => r == ParseResult::Drop { bytes_used: (end + 5) as usize },
                Some(t) => if t == PacketType::Header {
                    match header_of_payload(payload) {
                        None => r == ParseResult::Drop { bytes_used: (end + 5) as usize },
                        Some(h) => r matches ParseResult::Success { packet, bytes_used }
                            && bytes_used == end + 5 && packet.packet_type == t
                            && packet.msg_no == msg_no && packet.packet_header == Some(h)
                            && packet.body@.len() == 0,
                    }
                } else {
                    r matches ParseResult::Success { packet, bytes_used } && bytes_used == end + 5
                        && packet.packet_type == t && packet.msg_no == msg_no
                        && packet.packet_header is None && packet.body@ == payload
                },
            }
        },
    }
}


proof fn lemma_find_byte_at(s: Seq<u8>, b: u8, from: int, k: int)
    requires
        0 <= from <= k < s.len(),
        s[k] == b,
        forall|i: int| from <= i < k ==> s[i] != b,
    ensures
        find_byte(s, b, from) == k,
    decreases k - from,
{
    if from < k {
        lemma_find_byte_at(s, b, from + 1, k);
    }
}

proof fn lemma_find_byte_none(s: Seq<u8>, b: u8, from: int)
    requires
        0 <= from <= s.len(),
        forall|i: int| from <= i < s.len() ==> s[i] != b,
    ensures
        find_byte(s, b, from) == s.len(),
    decreases s.len() - from,
{
    if from < s.len() {
        lemma_find_byte_none(s, b, from + 1);
    }
}

proof fn lemma_kind_word(t: PacketType)
    ensures
        0 < kind_word(t).len() <= 6,
        forall|i: int| 0 <= i < kind_word(t).len() ==> 65 <= #[trigger] kind_word(t)[i] <= 90,
        type_of_name(kind_word(t)) == Some(t),
{
    let w = kind_word(t);
    assert(forall|i: int| 0 <= i < w.len() ==> 65 <= #[trigger] w[i] <= 90);
}

proof fn lemma_line_fields(t: PacketType, msg_no: u64, len: nat)
    requires
        len <= MAX_PACKET_SIZE,
    ensures
        ({
            let hl = header_line(t, msg_no, len);
            let body = hl.subrange(0, hl.len() - 2);
            &&& 9 <= hl.len() <= 36
            &&& hl[hl.len() - 1] == 10
            &&& hl[hl.len() - 2] == 13
            &&& forall|i: int| 0 <= i < hl.len() - 1 ==> #[trigger] hl[i] != 10 && hl[i] < 128
            &&& line_fields(body) == Some((kind_word(t), decimal(msg_no as nat), decimal(len)))
            &&& decimal_u64(decimal(msg_no as nat)) == Some(msg_no)
            &&& decimal(len).len() > 0 && all_digits(decimal(len)) && digits_value(decimal(len)) == len
        }),
{
    let k = kind_word(t);
    let d1 = decimal(msg_no as nat);
    let d2 = decimal(len);
    let hl = header_line(t, msg_no, len);
    lemma_kind_word(t);
    lemma_decimal_reads_back(msg_no as nat);
    lemma_decimal_reads_back(len);
    lemma_u64_decimal_len(msg_no);
    reveal_with_fuel(pow10, 7);
    lemma_decimal_len(len, 6);
    let body = k + seq![32u8] + d1 + seq![32u8] + d2;
    assert(hl =~= body + seq![13u8, 10]);
    assert(hl.subrange(0, hl.len() - 2) =~= body);
    assert forall|i: int| 0 <= i < body.len() implies #[trigger] body[i] != 10 && body[i] != 13 && body[i] < 128 by {
        if i < k.len() {
        } else if i == k.len() {
        } else if i < k.len() + 1 + d1.len() {
            assert(is_digit(d1[i - k.len() - 1]));
        } else if i == k.len() + 1 + d1.len() {
        } else {
            assert(is_digit(d2[i - k.len() - 2 - d1.len()]));
        }
    }
    assert forall|i: int| 0 <= i < hl.len() - 1 implies #[trigger] hl[i] != 10 && hl[i] < 128 by {
        if i < body.len() {
            assert(hl[i] == body[i]);
        }
    }
    let sp1 = k.len() as int;
    let sp2 = sp1 + 1 + d1.len();
    assert forall|i: int| 0 <= i < sp1 implies body[i] != 32 by {
        assert(body[i] == k[i]);
    }
    lemma_find_byte_at(body, 32, 0, sp1);
    assert forall|i: int| sp1 + 1 <= i < sp2 implies body[i] != 32 by {
        assert(body[i] == d1[i - sp1 - 1]);
        assert(is_digit(d1[i - sp1 - 1]));
    }
    lemma_find_byte_at(body, 32, sp1 + 1, sp2);
    assert forall|i: int| sp2 + 1 <= i < body.len() implies body[i] != 32 by {
        assert(body[i] == d2[i - sp2 - 1]);
        assert(is_digit(d2[i - sp2 - 1]));
    }
    lemma_find_byte_none(body, 32, sp2 + 1);
    assert(body.subrange(0, sp1) =~= k);
    assert(body.subrange(sp1 + 1, sp2) =~= d1);
    assert(body.subrange(sp2 + 1, body.len() as int) =~= d2);
}

/// Reading back the bytes of a frame, whatever follows them, gives the frame's
/// type, message number and payload, and ends right after its trailer.
#[verifier::rlimit(40)]
pub proof fn lemma_frame_round_trip(t: PacketType, msg_no: u64, payload: Seq<u8>, rest: Seq<u8>)
    requires
        payload.len() <= MAX_PACKET_SIZE,
    ensures
        ({
            let hl = header_line(t, msg_no, payload.len()).len() as int;
            frame_shape(frame_bytes(t, msg_no, payload) + rest) == FrameShape::Frame {
                name: kind_word(t),
                msg_no,
                start: hl,
                end: hl + payload.len(),
            }
        }),
        type_of_name(kind_word(t)) == Some(t),
{
    let hl = header_line(t, msg_no, payload.len());
    let buf = frame_bytes(t, msg_no, payload) + rest;
    lemma_kind_word(t);
    lemma_line_fields(t, msg_no, payload.len());
    let n = hl.len() as int;
    assert(buf =~= hl + (payload + trailer() + rest));
    let window: int = if buf.len() < HEADER_SCAN_LIMIT { buf.len() as int } else { HEADER_SCAN_LIMIT as int };
    let w = buf.subrange(0, window);
    assert forall|i: int| 0 <= i < n - 1 implies #[trigger] w[i] != 10 by {
        assert(w[i] == hl[i]);
    }
    assert(w[n - 1] == hl[n - 1]);
    lemma_find_byte_at(w, 10, 0, n - 1);
    let line = buf.subrange(0, n - 1);
    assert(line =~= hl.subrange(0, n - 1));
    assert(line.drop_last() =~= hl.subrange(0, n - 2));
    lemma_ascii_is_utf8(line);
    let end = n + payload.len();
    assert(buf.subrange(end, end + 5) =~= trailer());
}

/// Encoding a packet other than a HEADER, then reading the bytes back, gives a
/// packet with the same type, number and body, and uses every byte.
pub proof fn lemma_packet_round_trip(p: Packet, r: ParseResult)
    requires
        p.wf(),
        p.packet_type != PacketType::Header,
        p.body@.len() <= MAX_PACKET_SIZE,
        parse_matches(frame_bytes(p.packet_type, p.msg_no, p.body@), r),
    ensures
        r matches ParseResult::Success { packet, bytes_used } && packet.packet_type == p.packet_type
            && packet.msg_no == p.msg_no && packet.packet_header is None && packet.body@ == p.body@
            && bytes_used == frame_bytes(p.packet_type, p.msg_no, p.body@).len(),
{
    let bytes = frame_bytes(p.packet_type, p.msg_no, p.body@);
    lemma_frame_round_trip(p.packet_type, p.msg_no, p.body@, Seq::empty());
    assert(bytes + Seq::<u8>::empty() =~= bytes);
    let hl = header_line(p.packet_type, p.msg_no, p.body@.len()).len() as int;
    assert(bytes.subrange(hl, hl + p.body@.len()) =~= p.body@);
}

/// Encoding a HEADER packet, then reading the bytes back, gives the same
/// header whenever `serde_json` reads the JSON text it wrote back as a value
/// holding that header.
pub proof fn lemma_header_packet_round_trip(p: Packet, h: PacketHeader, j: Json, r: ParseResult)
    requires
        p.wf(),
        p.packet_header == Some(h),
        text_of_json(header_shape(h)).len() <= MAX_PACKET_SIZE,
        json_of_bytes(text_of_json(header_shape(h))) == Some(j),
        header_of_json(j) == Some(h),
        parse_matches(frame_bytes(p.packet_type, p.msg_no, text_of_json(header_shape(h))), r),
    ensures
        r matches ParseResult::Success { packet, bytes_used } && packet.packet_type == p.packet_type
            && packet.msg_no == p.msg_no && packet.packet_header == p.packet_header
            && bytes_used == frame_bytes(p.packet_type, p.msg_no, text_of_json(header_shape(h))).len(),
{
    let text = text_of_json(header_shape(h));
    let bytes = frame_bytes(p.packet_type, p.msg_no, text);
    lemma_frame_round_trip(p.packet_type, p.msg_no, text, Seq::empty());
    assert(bytes + Seq::<u8>::empty() =~= bytes);
    let hl = header_line(p.packet_type, p.msg_no, text.len()).len() as int;
    assert(bytes.subrange(hl, hl + text.len()) =~= text);
}


pub struct PacketView {
    pub packet_type: PacketType,
    pub msg_no: u64,
    pub packet_header: Option<PacketHeader>,
    pub body: Seq<u8>,
}

impl View for Packet {
    type V = PacketView;

    open spec fn view(&self) -> PacketView {
        PacketView {
            packet_type: self.packet_type,
            msg_no: self.msg_no,
            packet_header: self.packet_header,
            body: self.body@,
        }
    }
}

/// What the frame at the start of a buffer means to a reader.
pub enum ReadStep {
    /// Wait for more bytes.
    Wait,
    Fatal(FrameError),
    /// Skip this many bytes.
    Skip(nat),
    /// Take this packet, which used this many bytes.
    Take(PacketView, nat),
}

pub open spec fn read_step(buf: Seq<u8>) -> ReadStep {
    match frame_shape(buf) {
        FrameShape::TooShort => ReadStep::Wait,
        FrameShape::NeedBytes(_) => ReadStep::Wait,
        FrameShape::Fatal(e) => ReadStep::Fatal(e),
        FrameShape::Frame { name, msg_no, start, end } => {
            let used = (end + 5) as nat;
            match type_of_name(name) {
                None => ReadStep::Skip(used),
                Some(t) => if t == PacketType::Header {
                    match header_of_payload(buf.subrange(start, end)) {
                        None => ReadStep::Skip(used),
                        Some(h) => ReadStep::Take(
                            PacketView { packet_type: t, msg_no, packet_header: Some(h), body: Seq::empty() },
                            used,
                        ),
                    }
                } else {
                    ReadStep::Take(PacketView { packet_type: t, msg_no, packet_header: None, body: buf.subrange(start, end) }, used)
                },
            }
        },
    }
}

/// The packets that a reader takes from the front of `buf`, the bytes it
/// keeps, and the fault that stopped it, if any.
pub open spec fn drain(buf: Seq<u8>) -> (Seq<PacketView>, Seq<u8>, Option<FrameError>)
    decreases buf.len(),
{
    match read_step(buf) {
        ReadStep::Wait => (Seq::empty(), buf, None),
        ReadStep::Fatal(e) => (Seq::empty(), buf, Some(e)),
        ReadStep::Skip(n) => if 0 < n <= buf.len() {
            drain(buf.subrange(n as int, buf.len() as int))
        } else {
            (Seq::empty(), buf, None)
        },
        ReadStep::Take(p, n) => if 0 < n <= buf.len() {
            let rest = drain(buf.subrange(n as int, buf.len() as int));
            (seq![p] + rest.0, rest.1, rest.2)
        } else {
            (Seq::empty(), buf, None)
        },
    }
}

pub open spec fn packet_views(v: Seq<Packet>) -> Seq<PacketView> {
    v.map_values(|p: Packet| p@)
}

/// Reads frames from a byte stream as it arrives.
pub struct FrameReader {
    buf: Vec<u8>,
}

impl FrameReader {
    /// The bytes received but not yet read as frames.
    pub closed spec fn pending(&self) -> Seq<u8> {
        self.buf@
    }

    pub fn new() -> (r: FrameReader)
        ensures
            r.pending() == Seq::<u8>::empty(),
    {
        FrameReader { buf: Vec::new() }
    }

    /// Takes the next bytes of the stream; returns the packets of every whole
    /// frame now at the front (skipping frames of unknown type), and the fault
    /// that stopped the reading, if one did.
    pub fn feed(&mut self, bytes: &[u8]) -> (r: (Vec<Packet>, Option<FrameError>))
        ensures
            ({
                let d = drain(old(self).pending() + bytes@);
                &&& packet_views(r.0@) == d.0
                &&& r.1 == d.2
                &&& final(self).pending() == d.1
            }),
    {
        let ghost start_buf = self.buf@;
        append_range(&mut self.buf, bytes, 0, bytes.len());
        assert(bytes@.subrange(0, bytes@.len() as int) =~= bytes@);
        let ghost whole = drain(self.buf@);
        assert(whole == drain(start_buf + bytes@));
        let mut out: Vec<Packet> = Vec::new();
        let mut at: usize = 0;
        assert(self.buf@.subrange(0, self.buf@.len() as int) =~= self.buf@);
        loop
            invariant
                at <= self.buf@.len(),
                self.buf@ == start_buf + bytes@,
                start_buf == old(self).buf@,
                whole == drain(start_buf + bytes@),
                ({
                    let d = drain(self.buf@.subrange(at as int, self.buf@.len() as int));
                    whole == (packet_views(out@) + d.0, d.1, d.2)
                }),
            decreases self.buf@.len() - at,
        {
            let ghost rest = self.buf@.subrange(at as int, self.buf@.len() as int);
            let mut tail: Vec<u8> = Vec::new();
            append_range(&mut tail, self.buf.as_slice(), at, self.buf.len());
            assert(tail@ =~= rest);
            let parsed = Packet::parse(tail.as_slice());
            proof {
                lemma_wait_step(rest, parsed);
            }
            match parsed {
                ParseResult::TooShort | ParseResult::NeedBytes { .. } => {
                    assert(packet_views(out@) + Seq::<PacketView>::empty() =~= packet_views(out@));
                    self.buf = tail;
                    return (out, None);
                },
                ParseResult::Fatal(e) => {
                    assert(packet_views(out@) + Seq::<PacketView>::empty() =~= packet_views(out@));
                    self.buf = tail;
                    return (out, Some(e));
                },
                ParseResult::Drop { bytes_used } => {
                    proof {
                        lemma_parse_step(rest, ParseResult::Drop { bytes_used });
                    }
                    assert(drain(rest) == drain(rest.subrange(bytes_used as int, rest.len() as int)));
                    assert(rest.subrange(bytes_used as int, rest.len() as int) =~= self.buf@.subrange(at + bytes_used, self.buf@.len() as int));
                    at = at + bytes_used;
                },
                ParseResult::Success { packet, bytes_used } => {
                    assert(rest.subrange(bytes_used as int, rest.len() as int) =~= self.buf@.subrange(at + bytes_used, self.buf@.len() as int));
                    let ghost pv = packet@;
                    proof {
                        lemma_take_step(rest, packet, bytes_used);
                    }
                    let ghost before = out@;
                    out.push(packet);
                    assert(packet_views(out@) =~= packet_views(before).push(pv));
                    proof {
                        let d = drain(self.buf@.subrange(at + bytes_used, self.buf@.len() as int));
                        assert(drain(rest) == (seq![pv] + d.0, d.1, d.2));
                        assert(packet_views(before) + (seq![pv] + d.0) =~= packet_views(out@) + d.0);
                    }
                    at = at + bytes_used;
                },
            }
        }
    }
}


proof fn lemma_wait_step(buf: Seq<u8>, r: ParseResult)
    requires
        parse_matches(buf, r),
    ensures
        (r is TooShort || r is NeedBytes) ==> read_step(buf) == ReadStep::Wait,
        r matches ParseResult::Fatal(e) ==> read_step(buf) == ReadStep::Fatal(e),
{
}

proof fn lemma_find_byte_bounds(s: Seq<u8>, b: u8, from: int)
    requires
        0 <= from,
    ensures
        from <= find_byte(s, b, from) || find_byte(s, b, from) == s.len(),
        find_byte(s, b, from) <= s.len() || from > s.len(),
    decreases s.len() - from,
{
    if from < s.len() && s[from] != b {
        lemma_find_byte_bounds(s, b, from + 1);
    }
}

proof fn lemma_frame_fits(buf: Seq<u8>)
    ensures
        frame_shape(buf) matches FrameShape::Frame { start, end, .. } ==> 0 <= start <= end && end + 5 <= buf.len(),
{
    let window: int = if buf.len() < HEADER_SCAN_LIMIT { buf.len() as int } else { HEADER_SCAN_LIMIT as int };
    lemma_find_byte_bounds(buf.subrange(0, window), 10, 0);
}

proof fn lemma_parse_step(buf: Seq<u8>, r: ParseResult)
    requires
        parse_matches(buf, r),
        buf.len() <= usize::MAX,
        r matches ParseResult::Drop { bytes_used } && bytes_used <= buf.len(),
    ensures
        r matches ParseResult::Drop { bytes_used } && read_step(buf) == ReadStep::Skip(bytes_used as nat),
{
    lemma_frame_fits(buf);
}

proof fn lemma_take_step(buf: Seq<u8>, packet: Packet, bytes_used: usize)
    requires
        parse_matches(buf, ParseResult::Success { packet, bytes_used }),
        bytes_used <= buf.len(),
        buf.len() <= usize::MAX,
    ensures
        read_step(buf) == ReadStep::Take(packet@, bytes_used as nat),
{
    lemma_frame_fits(buf);
    if packet.packet_type == PacketType::Header {
        assert(packet@.body =~= Seq::<u8>::empty());
    }
}


proof fn lemma_find_byte_prefix(s: Seq<u8>, t: Seq<u8>, b: u8, from: int)
    requires
        0 <= from,
        find_byte(s, b, from) < s.len(),
        s.len() <= t.len(),
        t.subrange(0, s.len() as int) == s,
    ensures
        find_byte(t, b, from) == find_byte(s, b, from),
    decreases s.len() - from,
{
    if from < s.len() {
        assert(t[from] == t.subrange(0, s.len() as int)[from]);
        if s[from] != b {
            lemma_find_byte_prefix(s, t, b, from + 1);
        }
    }
}

/// A whole frame, or a fault, at the start of a buffer stays what it is
/// whatever bytes come after.
#[verifier::rlimit(60)]
proof fn lemma_shape_stable(a: Seq<u8>, b: Seq<u8>)
    requires
        frame_shape(a) is Frame || frame_shape(a) is Fatal,
    ensures
        frame_shape(a + b) == frame_shape(a),
{
    let ab = a + b;
    let w: int = if a.len() < HEADER_SCAN_LIMIT { a.len() as int } else { HEADER_SCAN_LIMIT as int };
    let w2: int = if ab.len() < HEADER_SCAN_LIMIT { ab.len() as int } else { HEADER_SCAN_LIMIT as int };
    let sa = a.subrange(0, w);
    let sb = ab.subrange(0, w2);
    assert(sb.subrange(0, w) =~= sa);
    lemma_find_byte_bounds(sa, 10, 0);
    let cut = find_byte(sa, 10, 0);
    if cut < w {
        lemma_find_byte_prefix(sa, sb, 10, 0);
        assert(ab.subrange(0, cut) =~= a.subrange(0, cut));
        lemma_frame_fits(a);
        match frame_shape(a) {
            FrameShape::Frame { start, end, .. } => {
                assert(ab.subrange(end, end + 5) =~= a.subrange(end, end + 5));
            },
            _ => {
                let line = a.subrange(0, cut);
                if valid_utf8(line) && !(line.len() == 0 || line.last() != 13 || line_fields(line.drop_last()) is None) {
                    let (name, m, l) = line_fields(line.drop_last())->0;
                    if decimal_u64(m) is Some && l.len() > 0 && all_digits(l) && digits_value(l) <= MAX_PACKET_SIZE {
                        let end = cut + 1 + digits_value(l);
                        if end + 5 <= a.len() {
                            assert(ab.subrange(end, end + 5) =~= a.subrange(end, end + 5));
                        }
                    }
                }
            },
        }
    } else {
        assert(w == HEADER_SCAN_LIMIT);
        assert(sb =~= sa);
    }
}

proof fn lemma_step_stable(a: Seq<u8>, b: Seq<u8>)
    requires
        !(read_step(a) is Wait),
    ensures
        read_step(a + b) == read_step(a),
{
    lemma_shape_stable(a, b);
    lemma_frame_fits(a);
    if let FrameShape::Frame { start, end, .. } = frame_shape(a) {
        assert((a + b).subrange(start, end) =~= a.subrange(start, end));
    }
}

/// Reading a stream in two parts takes the same packets as reading it at
/// once: those that the first part holds, then those that what was left of
/// it holds together with the second part.
pub proof fn lemma_drain_split(a: Seq<u8>, b: Seq<u8>)
    requires
        drain(a).2 is None,
    ensures
        ({
            let first = drain(a);
            let second = drain(first.1 + b);
            drain(a + b) == (first.0 + second.0, second.1, second.2)
        }),
    decreases a.len(),
{
    lemma_frame_fits(a);
    match read_step(a) {
        ReadStep::Wait => {
            assert(Seq::<PacketView>::empty() + drain(a + b).0 =~= drain(a + b).0);
        },
        ReadStep::Fatal(_) => {},
        ReadStep::Skip(n) => {
            lemma_step_stable(a, b);
            let rest = a.subrange(n as int, a.len() as int);
            assert((a + b).subrange(n as int, (a + b).len() as int) =~= rest + b);
            lemma_drain_split(rest, b);
        },
        ReadStep::Take(p, n) => {
            lemma_step_stable(a, b);
            let rest = a.subrange(n as int, a.len() as int);
            assert((a + b).subrange(n as int, (a + b).len() as int) =~= rest + b);
            lemma_drain_split(rest, b);
            let d = drain(drain(rest).1 + b);
            assert(seq![p] + (drain(rest).0 + d.0) =~= (seq![p] + drain(rest).0) + d.0);
        },
    }
}


/// A packet that travels as its own body: any type but HEADER, with a body
/// no longer than the limit.
pub open spec fn plain(p: PacketView) -> bool {
    p.packet_type != PacketType::Header && p.packet_header is None && p.body.len() <= MAX_PACKET_SIZE
}

/// The bytes of a run of packets, frame after frame.
pub open spec fn frames_of(ps: Seq<PacketView>) -> Seq<u8>
    decreases ps.len(),
{
    if ps.len() == 0 {
        Seq::empty()
    } else {
        frame_bytes(ps[0].packet_type, ps[0].msg_no, ps[0].body) + frames_of(ps.drop_first())
    }
}

proof fn lemma_take_frame(p: PacketView, rest: Seq<u8>)
    requires
        plain(p),
    ensures
        ({
            let f = frame_bytes(p.packet_type, p.msg_no, p.body);
            &&& read_step(f + rest) == ReadStep::Take(p, f.len())
            &&& (f + rest).subrange(f.len() as int, (f + rest).len() as int) == rest
        }),
{
    let f = frame_bytes(p.packet_type, p.msg_no, p.body);
    lemma_frame_round_trip(p.packet_type, p.msg_no, p.body, rest);
    let hl = header_line(p.packet_type, p.msg_no, p.body.len()).len() as int;
    assert((f + rest).subrange(hl, hl + p.body.len()) =~= p.body);
    assert((f + rest).subrange(f.len() as int, (f + rest).len() as int) =~= rest);
}

/// A run of frames is read back as exactly its packets, with nothing left.
pub proof fn lemma_drain_frames(ps: Seq<PacketView>)
    requires
        forall|i: int| 0 <= i < ps.len() ==> #[trigger] plain(ps[i]),
    ensures
        drain(frames_of(ps)) == (ps, Seq::<u8>::empty(), None::<FrameError>),
    decreases ps.len(),
{
    if ps.len() == 0 {
        assert(frame_shape(Seq::<u8>::empty()) == FrameShape::TooShort) by {
            lemma_find_byte_bounds(Seq::<u8>::empty().subrange(0, 0), 10, 0);
        }
    } else {
        let rest = frames_of(ps.drop_first());
        assert(plain(ps[0]));
        lemma_take_frame(ps[0], rest);
        lemma_drain_frames(ps.drop_first());
        assert(seq![ps[0]] + ps.drop_first() =~= ps);
    }
}

/// Part of a frame reads as incomplete: short of its newline the header
/// line is too short, after it exactly the missing bytes are asked for.
pub proof fn lemma_frame_prefix(t: PacketType, msg_no: u64, payload: Seq<u8>, k: int)
    requires
        payload.len() <= MAX_PACKET_SIZE,
        0 <= k < frame_bytes(t, msg_no, payload).len(),
    ensures
        frame_shape(frame_bytes(t, msg_no, payload).subrange(0, k)) == if k < header_line(t, msg_no, payload.len()).len() {
            FrameShape::TooShort
        } else {
            FrameShape::NeedBytes((frame_bytes(t, msg_no, payload).len() - k) as nat)
        },
{
    let f = frame_bytes(t, msg_no, payload);
    let a = f.subrange(0, k);
    let hl = header_line(t, msg_no, payload.len());
    let n = hl.len() as int;
    lemma_line_fields(t, msg_no, payload.len());
    assert(f =~= hl + (payload + trailer()));
    let w: int = if a.len() < HEADER_SCAN_LIMIT { a.len() as int } else { HEADER_SCAN_LIMIT as int };
    let sa = a.subrange(0, w);
    if k < n {
        assert(w == k);
        assert forall|i: int| 0 <= i < sa.len() implies sa[i] != 10 by {
            assert(sa[i] == hl[i]);
        }
        lemma_find_byte_none(sa, 10, 0);
    } else {
        assert forall|i: int| 0 <= i < n - 1 implies #[trigger] sa[i] != 10 by {
            assert(sa[i] == hl[i]);
        }
        assert(sa[n - 1] == hl[n - 1]);
        lemma_find_byte_at(sa, 10, 0, n - 1);
        let line = a.subrange(0, n - 1);
        assert(line =~= hl.subrange(0, n - 1));
        assert(line.drop_last() =~= hl.subrange(0, n - 2));
        assert(all_ascii(line));
        lemma_ascii_is_utf8(line);
    }
}

proof fn lemma_frame_prefix_waits(p: PacketView, k: int)
    requires
        plain(p),
        0 <= k < frame_bytes(p.packet_type, p.msg_no, p.body).len(),
    ensures
        read_step(frame_bytes(p.packet_type, p.msg_no, p.body).subrange(0, k)) == ReadStep::Wait,
{
    lemma_frame_prefix(p.packet_type, p.msg_no, p.body, k);
}

/// Any prefix of a run of frames is read without a fault.
pub proof fn lemma_frames_prefix_no_fault(ps: Seq<PacketView>, k: int)
    requires
        forall|i: int| 0 <= i < ps.len() ==> #[trigger] plain(ps[i]),
        0 <= k <= frames_of(ps).len(),
    ensures
        drain(frames_of(ps).subrange(0, k)).2 is None,
    decreases ps.len(),
{
    if ps.len() == 0 {
        assert(frames_of(ps).subrange(0, k) =~= Seq::<u8>::empty());
        lemma_drain_frames(ps);
    } else {
        let f = frame_bytes(ps[0].packet_type, ps[0].msg_no, ps[0].body);
        let rest = frames_of(ps.drop_first());
        let a = frames_of(ps).subrange(0, k);
        assert(plain(ps[0]));
        if k < f.len() {
            assert(a =~= f.subrange(0, k));
            lemma_frame_prefix_waits(ps[0], k);
        } else {
            let r = rest.subrange(0, k - f.len());
            assert(a =~= f + r);
            lemma_take_frame(ps[0], r);
            lemma_frames_prefix_no_fault(ps.drop_first(), k - f.len());
        }
    }
}

/// A run of frames cut into two chunks anywhere is read as the same packets
/// as when it comes whole: those the first chunk completes, then those that
/// its remainder and the second chunk complete.
pub proof fn lemma_chunked_frames(ps: Seq<PacketView>, k: int)
    requires
        forall|i: int| 0 <= i < ps.len() ==> #[trigger] plain(ps[i]),
        0 <= k <= frames_of(ps).len(),
    ensures
        ({
            let s = frames_of(ps);
            let first = drain(s.subrange(0, k));
            let second = drain(first.1 + s.subrange(k, s.len() as int));
            &&& first.2 is None
            &&& first.0 + second.0 == ps
            &&& second.1 == Seq::<u8>::empty()
            &&& second.2 is None
        }),
{
    let s = frames_of(ps);
    lemma_frames_prefix_no_fault(ps, k);
    lemma_drain_split(s.subrange(0, k), s.subrange(k, s.len() as int));
    assert(s.subrange(0, k) + s.subrange(k, s.len() as int) =~= s);
    lemma_drain_frames(ps);
}


/// The chunks of a stream, joined.
pub open spec fn joined(chunks: Seq<Seq<u8>>) -> Seq<u8>
    decreases chunks.len(),
{
    if chunks.len() == 0 {
        Seq::empty()
    } else {
        chunks[0] + joined(chunks.drop_first())
    }
}

/// What a reader that holds `pending` takes from the stream when it is fed
/// `chunks` one after another, as `FrameReader::feed` does: the packets, the
/// bytes left, and the fault that stopped it, if any.
pub open spec fn drain_chunks(pending: Seq<u8>, chunks: Seq<Seq<u8>>) -> (Seq<PacketView>, Seq<u8>, Option<FrameError>)
    decreases chunks.len(),
{
    if chunks.len() == 0 {
        (Seq::empty(), pending, None)
    } else {
        let d = drain(pending + chunks[0]);
        if d.2 is Some {
            d
        } else {
            let rest = drain_chunks(d.1, chunks.drop_first());
            (d.0 + rest.0, rest.1, rest.2)
        }
    }
}

/// What a reader keeps is a buffer it would wait on.
proof fn lemma_drain_rest_waits(s: Seq<u8>)
    requires
        drain(s).2 is None,
    ensures
        drain(drain(s).1) == (Seq::<PacketView>::empty(), drain(s).1, None::<FrameError>),
    decreases s.len(),
{
    lemma_frame_fits(s);
    match read_step(s) {
        ReadStep::Skip(n) => {
            lemma_drain_rest_waits(s.subrange(n as int, s.len() as int));
        },
        ReadStep::Take(p, n) => {
            lemma_drain_rest_waits(s.subrange(n as int, s.len() as int));
        },
        _ => {},
    }
}

/// Feeding a stream chunk by chunk takes what reading it whole takes, as long
/// as no prefix of it faults.
pub proof fn lemma_drain_chunks(pending: Seq<u8>, chunks: Seq<Seq<u8>>)
    requires
        drain(pending) == (Seq::<PacketView>::empty(), pending, None::<FrameError>),
        forall|j: int| 0 <= j <= joined(chunks).len() ==> (#[trigger] drain(pending + joined(chunks).subrange(0, j))).2 is None,
    ensures
        drain_chunks(pending, chunks) == drain(pending + joined(chunks)),
    decreases chunks.len(),
{
    if chunks.len() == 0 {
        assert(pending + joined(chunks) =~= pending);
    } else {
        let c0 = chunks[0];
        let rest = joined(chunks.drop_first());
        assert(joined(chunks) == c0 + rest);
        assert(joined(chunks).subrange(0, c0.len() as int) =~= c0);
        assert(drain(pending + joined(chunks).subrange(0, c0.len() as int)).2 is None);
        let d = drain(pending + c0);
        lemma_drain_rest_waits(pending + c0);
        assert forall|j: int| 0 <= j <= rest.len() implies (#[trigger] drain(d.1 + rest.subrange(0, j))).2 is None by {
            assert(joined(chunks).subrange(0, c0.len() + j) =~= c0 + rest.subrange(0, j));
            assert(drain(pending + joined(chunks).subrange(0, c0.len() + j)).2 is None);
            assert((pending + c0) + rest.subrange(0, j) =~= pending + (c0 + rest.subrange(0, j)));
            lemma_drain_split(pending + c0, rest.subrange(0, j));
        }
        lemma_drain_chunks(d.1, chunks.drop_first());
        lemma_drain_split(pending + c0, rest);
        assert((pending + c0) + rest =~= pending + joined(chunks));
    }
}

/// A run of frames cut into any number of chunks, and fed to a reader chunk
/// by chunk, is read as exactly its packets, in order, with nothing left and
/// no fault.
pub proof fn lemma_chunked_frames_any(ps: Seq<PacketView>, chunks: Seq<Seq<u8>>)
    requires
        forall|i: int| 0 <= i < ps.len() ==> #[trigger] plain(ps[i]),
        joined(chunks) == frames_of(ps),
    ensures
        drain_chunks(Seq::empty(), chunks) == (ps, Seq::<u8>::empty(), None::<FrameError>),
{
    let e = Seq::<u8>::empty();
    lemma_drain_frames(Seq::<PacketView>::empty());
    assert(frames_of(Seq::<PacketView>::empty()) =~= e);
    assert forall|j: int| 0 <= j <= joined(chunks).len() implies (#[trigger] drain(e + joined(chunks).subrange(0, j))).2 is None by {
        assert(e + joined(chunks).subrange(0, j) =~= frames_of(ps).subrange(0, j));
        lemma_frames_prefix_no_fault(ps, j);
    }
    lemma_drain_chunks(e, chunks);
    assert(e + joined(chunks) =~= frames_of(ps));
    lemma_drain_frames(ps);
}

} // verus!
