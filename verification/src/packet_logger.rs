//! Capture records and the per-session logger that numbers and frames them.

use vstd::prelude::*;
use crate::decoder::uuid_text;
use crate::text::{push_char, push_hex};
use crate::value::{Value, ValueView};
use crate::wire::{as_signed, le_value};

verus! {

/// Which way a datagram travels: to the client, or to the upstream server.
#[derive(Clone, Copy, Debug, PartialEq, Eq, Structural)]
pub enum PacketDirection {
    Clientbound,
    Serverbound,
}

impl PacketDirection {
    /// The number that stands for the direction in a stored record.
    pub open spec fn index(self) -> u32 {
        match self {
            PacketDirection::Clientbound => 0,
            PacketDirection::Serverbound => 1,
        }
    }

    /// The direction that a number stands for in a stored record.
    pub open spec fn of_index(i: u32) -> Option<PacketDirection> {
        if i == 0 {
            Some(PacketDirection::Clientbound)
        } else if i == 1 {
            Some(PacketDirection::Serverbound)
        } else {
            None
        }
    }

    /// The number that stands for the direction in a stored record.
    pub fn to_index(&self) -> (i: u32)
        ensures
            i == self.index(),
    {
        match self {
            PacketDirection::Clientbound => 0,
            PacketDirection::Serverbound => 1,
        }
    }

    /// The direction that a number stands for in a stored record.
    pub fn from_index(i: u32) -> (r: Option<PacketDirection>)
        ensures
            r == Self::of_index(i),
    {
        if i == 0 {
            Some(PacketDirection::Clientbound)
        } else if i == 1 {
            Some(PacketDirection::Serverbound)
        } else {
            None
        }
    }

    /// The name of the direction in the store.
    pub open spec fn name_text(self) -> Seq<char> {
        match self {
            PacketDirection::Clientbound => "clientbound"@,
            PacketDirection::Serverbound => "serverbound"@,
        }
    }

    /// The name of the direction in the store.
    pub fn name(&self) -> (s: String)
        ensures
            s@ == self.name_text(),
    {
        match self {
            PacketDirection::Clientbound => String::from_str("clientbound"),
            PacketDirection::Serverbound => String::from_str("serverbound"),
        }
    }
}

/// One captured datagram.
#[derive(Debug, PartialEq)]
pub struct PacketEntry {
    /// Milliseconds since the epoch.
    pub timestamp: i64,
    pub direction: PacketDirection,
    pub data: Vec<u8>,
    pub protocol_version: Option<String>,
    /// The decoded packet, where the record came from the store. Not written
    /// to a log file.
    pub packet_json: Option<Value>,
    /// The number of the packet within its session. Not written to a log file.
    pub packet_number: Option<i64>,
}

/// The mathematical form of a `PacketEntry`.
pub struct EntryView {
    pub timestamp: i64,
    pub direction: PacketDirection,
    pub data: Seq<u8>,
    pub protocol_version: Option<Seq<char>>,
    pub packet_json: Option<ValueView>,
    pub packet_number: Option<i64>,
}

/// The text of an optional string.
pub open spec fn text_view(s: Option<String>) -> Option<Seq<char>> {
    match s {
        Some(t) => Some(t@),
        None => None,
    }
}

impl View for PacketEntry {
    type V = EntryView;

    open spec fn view(&self) -> EntryView {
        EntryView {
            timestamp: self.timestamp,
            direction: self.direction,
            data: self.data@,
            protocol_version: text_view(self.protocol_version),
            packet_json: match self.packet_json {
                Some(v) => Some(v@),
                None => None,
            },
            packet_number: self.packet_number,
        }
    }
}

/// The views of a list of entries, entry by entry.
pub open spec fn entries_list_view(entries: Seq<PacketEntry>) -> Seq<EntryView> {
    Seq::new(entries.len(), |i: int| entries[i]@)
}

/// The stored fields of a record: timestamp, direction number, payload and
/// protocol version.
pub type StoredFields = (i64, u32, Seq<u8>, Option<Seq<char>>);

/// The eight little-endian bytes of a number below 2^64.
pub open spec fn le_bytes8(v: nat) -> Seq<u8> {
    seq![
        (v % 256) as u8,
        (v / 0x100 % 256) as u8,
        (v / 0x1_0000 % 256) as u8,
        (v / 0x100_0000 % 256) as u8,
        (v / 0x1_0000_0000 % 256) as u8,
        (v / 0x100_0000_0000 % 256) as u8,
        (v / 0x1_0000_0000_0000 % 256) as u8,
        (v / 0x100_0000_0000_0000 % 256) as u8,
    ]
}

/// Eight little-endian bytes stand for the number they were made of.
pub proof fn lemma_le_bytes8(v: nat)
    requires
        v < 0x1_0000_0000_0000_0000,
    ensures
        le_bytes8(v).len() == 8,
        le_value(le_bytes8(v)) == v,
{
    let b = le_bytes8(v);
    let low = v % 0x1_0000_0000;
    let high = v / 0x1_0000_0000;
    lemma_le_bytes4(low);
    lemma_le_bytes4(high);
    lemma_le_value_concat(le_bytes4(low), le_bytes4(high));
    assert(b =~= le_bytes4(low) + le_bytes4(high)) by {
        let x = v as u64;
        assert(x % 0x1_0000_0000 / 0x100 % 256 == x / 0x100 % 256) by (bit_vector);
        assert(x % 0x1_0000_0000 / 0x1_0000 % 256 == x / 0x1_0000 % 256) by (bit_vector);
        assert(x % 0x1_0000_0000 / 0x100_0000 % 256 == x / 0x100_0000 % 256) by (bit_vector);
        assert(x % 0x1_0000_0000 % 256 == x % 256) by (bit_vector);
        assert(x / 0x1_0000_0000 / 0x100 % 256 == x / 0x100_0000_0000 % 256) by (bit_vector);
        assert(x / 0x1_0000_0000 / 0x1_0000 % 256 == x / 0x1_0000_0000_0000 % 256)
            by (bit_vector);
        assert(x / 0x1_0000_0000 / 0x100_0000 % 256 == x / 0x100_0000_0000_0000 % 256)
            by (bit_vector);
    }
}

/// The number that two byte strings stand for, one after the other, the
/// first of them four bytes long.
proof fn lemma_le_value_concat(a: Seq<u8>, b: Seq<u8>)
    requires
        a.len() == 4,
    ensures
        le_value(a + b) == le_value(a) + 0x1_0000_0000 * le_value(b),
{
    let s = a + b;
    let s1 = s.drop_first();
    let s2 = s1.drop_first();
    let s3 = s2.drop_first();
    let a1 = a.drop_first();
    let a2 = a1.drop_first();
    let a3 = a2.drop_first();
    assert(s3.drop_first() =~= b);
    assert(s[0] == a[0] && s1[0] == a[1] && s2[0] == a[2] && s3[0] == a[3]);
    assert(a1[0] == a[1] && a2[0] == a[2] && a3[0] == a[3]);
    assert(le_value(a3.drop_first()) == 0);
    assert(le_value(a3) == a[3]);
    assert(le_value(a2) == a[2] + 256 * le_value(a3));
    assert(le_value(a1) == a[1] + 256 * le_value(a2));
    assert(le_value(a) == a[0] + 256 * le_value(a1));
    assert(le_value(s3) == a[3] + 256 * le_value(b));
    assert(le_value(s2) == a[2] + 256 * le_value(s3));
    assert(le_value(s1) == a[1] + 256 * le_value(s2));
    assert(le_value(s) == a[0] + 256 * le_value(s1));
}

/// A signed 64-bit number as the unsigned number with the same bits.
pub open spec fn unsigned64(v: i64) -> nat {
    if v >= 0 {
        v as nat
    } else {
        (v + 0x1_0000_0000_0000_0000) as nat
    }
}

/// The protocol version as it stands in a stored record: one zero byte for
/// none; else a one, the length of the text in UTF-8 as 64 bits, and the
/// text in UTF-8.
pub open spec fn version_bytes(version: Option<Seq<char>>) -> Seq<u8> {
    match version {
        None => seq![0u8],
        Some(t) => seq![1u8] + le_bytes8(vstd::utf8::encode_utf8(t).len())
            + vstd::utf8::encode_utf8(t),
    }
}

/// The serialized form of the stored fields of a record, as bincode lays it
/// out in its default fixed-width little-endian encoding: the timestamp as
/// 64 bits, the direction number as 32 bits, the length of the payload as 64
/// bits and the payload, and the protocol version.
pub open spec fn entry_bytes(f: StoredFields) -> Seq<u8> {
    le_bytes8(unsigned64(f.0)) + le_bytes4(f.1 as nat) + le_bytes8(f.2.len()) + f.2
        + version_bytes(f.3)
}

/// Whether the lengths of the fields can be written as 64 bits.
pub open spec fn storable(f: StoredFields) -> bool {
    &&& f.2.len() <= u64::MAX
    &&& f.3 matches Some(t) ==> vstd::utf8::encode_utf8(t).len() <= u64::MAX
}

/// Whether `bytes` starts with the serialized form of `f`.
pub open spec fn starts_with_entry(bytes: Seq<u8>, f: StoredFields) -> bool {
    &&& storable(f)
    &&& entry_bytes(f).len() <= bytes.len()
    &&& bytes.take(entry_bytes(f).len() as int) == entry_bytes(f)
}

/// The stored fields that are read from the start of a byte string: those
/// whose serialized form the bytes start with, if there are any. What
/// follows the record does not matter.
#[verifier::opaque]
pub open spec fn entry_decoding(bytes: Seq<u8>) -> Option<StoredFields> {
    if exists|f: StoredFields| starts_with_entry(bytes, f) {
        Some(choose|f: StoredFields| starts_with_entry(bytes, f))
    } else {
        None
    }
}

/// Whether `bincode::serialize` succeeds on the stored fields of a record,
/// and with which bytes.
pub uninterp spec fn entry_encoding(
    timestamp: i64,
    direction: u32,
    data: Seq<u8>,
    version: Option<Seq<char>>,
) -> Option<Seq<u8>>;

/// Serializes the stored fields of a record by `bincode::serialize`, in its
/// default fixed-width little-endian encoding. The contract names the
/// result and claims that bytes that come out are the stated layout of the
/// fields.
#[verifier::external_body]
fn serialize_fields(timestamp: i64, direction: u32, data: &Vec<u8>, version: &Option<String>) -> (r:
    Option<Vec<u8>>)
    ensures
        match r {
            Some(bytes) => entry_encoding(timestamp, direction, data@, text_view(*version))
                == Some(bytes@) && bytes@ == entry_bytes(
                (timestamp, direction, data@, text_view(*version)),
            ),
            None => entry_encoding(timestamp, direction, data@, text_view(*version)) is None,
        },
{
    bincode::serialize(&(timestamp, direction, data, version)).ok()
}

/// Reads the stored fields of a record from the start of `bytes` by
/// `bincode::deserialize`, which accepts bytes after the record. The
/// contract claims that the call reads just the byte strings that start
/// with the stated layout of some fields, and gives those fields.
#[verifier::external_body]
fn deserialize_fields(bytes: &[u8]) -> (r: Option<(i64, u32, Vec<u8>, Option<String>)>)
    ensures
        match r {
            Some(f) => entry_decoding(bytes@) == Some((f.0, f.1, f.2@, text_view(f.3))),
            None => entry_decoding(bytes@) is None,
        },
{
    bincode::deserialize::<(i64, u32, Vec<u8>, Option<String>)>(bytes).ok()
}

/// The length of the serialized form of stored fields.
pub proof fn lemma_entry_len(f: StoredFields)
    ensures
        entry_bytes(f).len() == 21 + f.2.len() + match f.3 {
            None => 0,
            Some(t) => 8 + vstd::utf8::encode_utf8(t).len(),
        },
{
}

/// The record that a byte string starts with, read field by field.
spec fn parse_entry(bytes: Seq<u8>) -> Option<StoredFields> {
    if bytes.len() < 21 {
        None
    } else {
        let ts = as_signed(le_value(bytes.subrange(0, 8)), 8) as i64;
        let dir = le_value(bytes.subrange(8, 12)) as u32;
        let n = le_value(bytes.subrange(12, 20)) as int;
        if 21 + n > bytes.len() {
            None
        } else {
            let data = bytes.subrange(20, 20 + n);
            let tag = bytes[20 + n];
            if tag == 0 {
                Some((ts, dir, data, None))
            } else if tag == 1 && 29 + n <= bytes.len() {
                let m = le_value(bytes.subrange(21 + n, 29 + n)) as int;
                let text = bytes.subrange(29 + n, 29 + n + m);
                if 29 + n + m <= bytes.len() && vstd::utf8::valid_utf8(text) {
                    Some((ts, dir, data, Some(vstd::utf8::decode_utf8(text))))
                } else {
                    None
                }
            } else {
                None
            }
        }
    }
}

proof fn lemma_parse_prefix(bytes: Seq<u8>, f: StoredFields)
    requires
        starts_with_entry(bytes, f),
    ensures
        parse_entry(bytes) == Some(f),
{
    let e = entry_bytes(f);
    let n = f.2.len() as int;
    let a = le_bytes8(unsigned64(f.0));
    let b = le_bytes4(f.1 as nat);
    let c = le_bytes8(n as nat);
    let v = version_bytes(f.3);
    lemma_entry_len(f);
    lemma_le_bytes8(unsigned64(f.0));
    lemma_le_bytes4(f.1 as nat);
    lemma_le_bytes8(n as nat);
    assert forall|i: int| 0 <= i < e.len() implies bytes[i] == e[i] by {
        assert(bytes.take(e.len() as int)[i] == bytes[i]);
    }
    assert(bytes.subrange(0, 8) =~= a);
    assert(bytes.subrange(8, 12) =~= b);
    assert(bytes.subrange(12, 20) =~= c);
    assert(bytes.subrange(20, 20 + n) =~= f.2);
    assert(bytes[20 + n] == v[0]);
    match f.3 {
        None => {},
        Some(t) => {
            let u = vstd::utf8::encode_utf8(t);
            lemma_le_bytes8(u.len());
            vstd::utf8::encode_utf8_valid_utf8(t);
            vstd::utf8::encode_utf8_decode_utf8(t);
            assert(bytes.subrange(21 + n, 29 + n) =~= le_bytes8(u.len()));
            assert(bytes.subrange(29 + n, 29 + n + u.len()) =~= u);
        },
    }
}

/// A byte string that starts with the serialized form of some fields is
/// read as those fields, and as no others.
pub proof fn lemma_entry_decoding(bytes: Seq<u8>, f: StoredFields)
    requires
        starts_with_entry(bytes, f),
    ensures
        entry_decoding(bytes) == Some(f),
{
    reveal(entry_decoding);
    let g = choose|g: StoredFields| starts_with_entry(bytes, g);
    lemma_parse_prefix(bytes, f);
    lemma_parse_prefix(bytes, g);
}

/// Reading a serialized record gives the record back, whatever follows it.
pub proof fn lemma_decode_encoded(f: StoredFields, tail: Seq<u8>)
    requires
        storable(f),
    ensures
        entry_decoding(entry_bytes(f) + tail) == Some(f),
{
    let bytes = entry_bytes(f) + tail;
    assert(bytes.take(entry_bytes(f).len() as int) =~= entry_bytes(f));
    lemma_entry_decoding(bytes, f);
}

impl EntryView {
    /// The stored fields of the record.
    pub open spec fn fields(self) -> StoredFields {
        (self.timestamp, self.direction.index(), self.data, self.protocol_version)
    }

    /// Whether the record can be serialized, and to which bytes, by the
    /// serializer's own account.
    pub open spec fn encoding(self) -> Option<Seq<u8>> {
        entry_encoding(
            self.timestamp,
            self.direction.index(),
            self.data,
            self.protocol_version,
        )
    }

    /// The serialized form of the record.
    pub open spec fn stored_bytes(self) -> Seq<u8> {
        entry_bytes(self.fields())
    }

    /// The record as it is read back from a log file: without what is not
    /// written to it.
    pub open spec fn stored(self) -> EntryView {
        EntryView { packet_json: None, packet_number: None, ..self }
    }
}

/// The record at the start of a byte string: the stored fields, with a
/// direction number that names a direction.
pub open spec fn entry_of(bytes: Seq<u8>) -> Option<EntryView> {
    match entry_decoding(bytes) {
        Some(f) => match PacketDirection::of_index(f.1) {
            Some(direction) => Some(
                EntryView {
                    timestamp: f.0,
                    direction,
                    data: f.2,
                    protocol_version: f.3,
                    packet_json: None,
                    packet_number: None,
                },
            ),
            None => None,
        },
        None => None,
    }
}

/// A serialized record is read back as the record, whatever follows it.
pub proof fn lemma_entry_round_trip(e: EntryView, tail: Seq<u8>)
    requires
        storable(e.fields()),
    ensures
        entry_of(e.stored_bytes() + tail) == Some(e.stored()),
{
    lemma_decode_encoded(e.fields(), tail);
}

/// A record that is read from bytes is a record that the bytes start with.
pub proof fn lemma_entry_of_prefix(bytes: Seq<u8>)
    ensures
        entry_of(bytes) matches Some(e) ==> starts_with_entry(bytes, e.fields())
            && e.stored_bytes().len() <= bytes.len() && e.stored_bytes().len() >= 21,
{
    reveal(entry_decoding);
    if entry_of(bytes) is Some {
        let e = entry_of(bytes)->Some_0;
        let f = entry_decoding(bytes)->Some_0;
        assert(starts_with_entry(bytes, f));
        assert(e.fields() == f);
        lemma_entry_len(f);
    }
}

impl PacketEntry {
    /// Serializes the record for a log file.
    pub fn encode(&self) -> (r: Option<Vec<u8>>)
        ensures
            match r {
                Some(bytes) => self@.encoding() is Some && bytes@ == self@.stored_bytes(),
                None => self@.encoding() is None,
            },
    {
        serialize_fields(self.timestamp, self.direction.to_index(), &self.data, &self.protocol_version)
    }

    /// The length of the serialized record, where it can be counted.
    #[verifier::rlimit(60)]
    pub fn encoded_len(&self) -> (r: Option<usize>)
        ensures
            match r {
                Some(n) => n == self@.stored_bytes().len(),
                None => self@.stored_bytes().len() > usize::MAX,
            },
    {
        proof {
            lemma_entry_len(self@.fields());
        }
        let text: u128 = match &self.protocol_version {
            Some(t) => {
                let n = t.as_str().as_bytes().len();
                8 + n as u128
            },
            None => 0,
        };
        let data_len = self.data.len();
        let total: u128 = 21 + data_len as u128 + text;
        if total <= usize::MAX as u128 {
            Some(total as usize)
        } else {
            None
        }
    }

    /// Reads the record at the start of `bytes`.
    pub fn decode(bytes: &[u8]) -> (r: Option<PacketEntry>)
        ensures
            match r {
                Some(e) => entry_of(bytes@) == Some(e@),
                None => entry_of(bytes@) is None,
            },
    {
        match deserialize_fields(bytes) {
            None => None,
            Some(f) => match PacketDirection::from_index(f.1) {
                None => None,
                Some(direction) => Some(
                    PacketEntry {
                        timestamp: f.0,
                        direction,
                        data: f.2,
                        protocol_version: f.3,
                        packet_json: None,
                        packet_number: None,
                    },
                ),
            },
        }
    }
}

/// The longest payload that a frame may announce. A longer one is taken for
/// damage, not for a record.
pub const MAX_RECORD_LEN: usize = 10_000_000;

/// The four little-endian bytes of a number below 2^32.
pub open spec fn le_bytes4(v: nat) -> Seq<u8> {
    seq![
        (v % 256) as u8,
        (v / 0x100 % 256) as u8,
        (v / 0x1_0000 % 256) as u8,
        (v / 0x100_0000 % 256) as u8,
    ]
}

/// Four little-endian bytes stand for the number they were made of.
pub proof fn lemma_le_bytes4(v: nat)
    requires
        v < 0x1_0000_0000,
    ensures
        le_bytes4(v).len() == 4,
        le_value(le_bytes4(v)) == v,
{
    let b = le_bytes4(v);
    reveal_with_fuel(le_value, 5);
    assert(b.drop_first()[0] == b[1]);
    assert(b.drop_first().drop_first()[0] == b[2]);
    assert(b.drop_first().drop_first().drop_first()[0] == b[3]);
    assert(b.drop_first().drop_first().drop_first().drop_first().len() == 0);
}

/// Whether a payload can stand in a frame: it is not empty and no longer
/// than the ceiling.
pub open spec fn frameable(payload: Seq<u8>) -> bool {
    0 < payload.len() <= MAX_RECORD_LEN
}

/// A record as it stands in a log file: the length of the payload in four
/// little-endian bytes, then the payload.
pub open spec fn frame(payload: Seq<u8>) -> Seq<u8> {
    le_bytes4(payload.len()) + payload
}

/// Frames a payload for a log file. There is no frame for an empty
/// payload or one beyond the ceiling: no reader would take it for a record.
pub fn frame_record(payload: &[u8]) -> (r: Option<Vec<u8>>)
    ensures
        match r {
            Some(bytes) => frameable(payload@) && bytes@ == frame(payload@),
            None => !frameable(payload@),
        },
{
    if payload.len() == 0 || payload.len() > MAX_RECORD_LEN {
        return None;
    }
    let len = payload.len() as u64;
    let mut out: Vec<u8> = Vec::new();
    out.push((len % 256) as u8);
    out.push((len / 0x100 % 256) as u8);
    out.push((len / 0x1_0000 % 256) as u8);
    out.push((len / 0x100_0000 % 256) as u8);
    let ghost head = out@;
    let mut i: usize = 0;
    while i < payload.len()
        invariant
            i <= payload@.len(),
            out@ == head + payload@.take(i as int),
        decreases payload.len() - i,
    {
        out.push(payload[i]);
        i += 1;
        proof {
            assert(head + payload@.take(i as int) =~= (head + payload@.take(i - 1)).push(
                payload@[i - 1],
            ));
        }
    }
    proof {
        assert(payload@.take(payload@.len() as int) == payload@);
        assert(head =~= le_bytes4(payload@.len()));
    }
    Some(out)
}

/// Why a packet could not be logged.
#[derive(Clone, Copy, Debug, PartialEq, Eq, Structural)]
pub enum LogError {
    /// The record could not be serialized.
    Encode,
    /// The serialized record is longer than a frame may be.
    RecordTooLarge,
    /// The session has numbered as many packets as a record can count.
    CounterExhausted,
}

/// A logged packet: the record, numbered, and its frame for the log file.
#[derive(Debug, PartialEq)]
pub struct LoggedPacket {
    pub entry: PacketEntry,
    pub frame: Vec<u8>,
}

/// The state of a session's logger as plain values.
pub struct LoggerView {
    pub session_id: u128,
    pub protocol_version: Seq<char>,
    pub count: nat,
}

/// The record that the logger makes of a datagram, as the `count + 1`-th
/// packet of its session.
pub open spec fn logged_entry(
    logger: LoggerView,
    direction: PacketDirection,
    data: Seq<u8>,
    timestamp: i64,
) -> EntryView {
    EntryView {
        timestamp,
        direction,
        data,
        protocol_version: Some(logger.protocol_version),
        packet_json: None,
        packet_number: Some((logger.count + 1) as i64),
    }
}

/// What logging a datagram yields: the record and the frame of its
/// serialized form, or the error. A record whose serialized form no reader
/// would accept is not framed. The counter moves only when a record is made.
pub open spec fn log_step(
    logger: LoggerView,
    direction: PacketDirection,
    data: Seq<u8>,
    timestamp: i64,
) -> Result<(EntryView, Seq<u8>), LogError> {
    if logger.count >= i64::MAX {
        Err(LogError::CounterExhausted)
    } else {
        let entry = logged_entry(logger, direction, data, timestamp);
        if entry.encoding() is None {
            Err(LogError::Encode)
        } else if !frameable(entry.stored_bytes()) {
            Err(LogError::RecordTooLarge)
        } else {
            Ok((entry, frame(entry.stored_bytes())))
        }
    }
}

/// The logger after a step: one more packet counted where a record was made.
pub open spec fn logger_after(
    logger: LoggerView,
    direction: PacketDirection,
    data: Seq<u8>,
    timestamp: i64,
) -> LoggerView {
    if log_step(logger, direction, data, timestamp) is Ok {
        LoggerView { count: logger.count + 1, ..logger }
    } else {
        logger
    }
}

/// The logger of one capture session: it numbers the packets of the session
/// from one and frames each record for the log file.
#[derive(Debug, PartialEq)]
pub struct PacketLogger {
    session_id: u128,
    protocol_version: String,
    count: u64,
}

impl View for PacketLogger {
    type V = LoggerView;

    closed spec fn view(&self) -> LoggerView {
        LoggerView {
            session_id: self.session_id,
            protocol_version: self.protocol_version@,
            count: self.count as nat,
        }
    }
}

impl PacketLogger {
    /// A logger for the default protocol version.
    pub fn new(session_id: u128) -> (r: Self)
        ensures
            r@ == (LoggerView { session_id, protocol_version: "1.21.111"@, count: 0 }),
    {
        Self::with_protocol_version(session_id, String::from_str("1.21.111"))
    }

    /// A logger that has counted no packet yet.
    pub fn with_protocol_version(session_id: u128, protocol_version: String) -> (r: Self)
        ensures
            r@ == (LoggerView { session_id, protocol_version: protocol_version@, count: 0 }),
    {
        PacketLogger { session_id, protocol_version, count: 0 }
    }

    /// A logger that goes on numbering behind the first `count` packets of
    /// a session.
    pub fn resume(session_id: u128, protocol_version: String, count: u64) -> (r: Self)
        ensures
            r@ == (LoggerView {
                session_id,
                protocol_version: protocol_version@,
                count: count as nat,
            }),
    {
        PacketLogger { session_id, protocol_version, count }
    }

    /// Makes the record of a datagram seen at `timestamp` and frames it for
    /// the log file.
    pub fn log_packet(&mut self, direction: PacketDirection, data: Vec<u8>, timestamp: i64) -> (r:
        Result<LoggedPacket, LogError>)
        ensures
            final(self)@ == logger_after(old(self)@, direction, data@, timestamp),
            match r {
                Ok(p) => log_step(old(self)@, direction, data@, timestamp) == Ok::<
                    (EntryView, Seq<u8>),
                    LogError,
                >((p.entry@, p.frame@)),
                Err(e) => log_step(old(self)@, direction, data@, timestamp) == Err::<
                    (EntryView, Seq<u8>),
                    LogError,
                >(e),
            },
    {
        if self.count >= 0x7fff_ffff_ffff_ffff {
            return Err(LogError::CounterExhausted);
        }
        let entry = PacketEntry {
            timestamp,
            direction,
            data,
            protocol_version: Some(self.protocol_version.clone()),
            packet_json: None,
            packet_number: Some((self.count + 1) as i64),
        };
        match entry.encode() {
            None => Err(LogError::Encode),
            Some(payload) => match frame_record(payload.as_slice()) {
                None => {
                    proof {
                        lemma_entry_len(entry@.fields());
                    }
                    Err(LogError::RecordTooLarge)
                },
                Some(frame) => {
                    self.count = self.count + 1;
                    Ok(LoggedPacket { entry, frame })
                },
            },
        }
    }

    /// The id of the session.
    pub fn session_id(&self) -> (r: u128)
        ensures
            r == self@.session_id,
    {
        self.session_id
    }

    /// How many packets the logger has numbered.
    pub fn packet_count(&self) -> (r: u64)
        ensures
            r == self@.count,
    {
        self.count
    }
}

/// The sixteen bytes of a session id, most significant first.
pub open spec fn id_bytes(id: u128) -> Seq<u8> {
    Seq::new(16, |i: int| ((id as nat / pow256((15 - i) as nat)) % 256) as u8)
}

/// 256 to the power `n`.
pub open spec fn pow256(n: nat) -> nat
    decreases n,
{
    if n == 0 {
        1
    } else {
        256 * pow256((n - 1) as nat)
    }
}

/// The name of the log file of a session: the id in its canonical 8-4-4-4-12
/// rendering, then `.bin`.
pub open spec fn log_path_text(id: u128) -> Seq<char> {
    uuid_text(id_bytes(id)) + ".bin"@
}

/// The sixteen bytes of a session id, most significant first.
#[verifier::rlimit(40)]
pub fn session_id_bytes(id: u128) -> (r: Vec<u8>)
    ensures
        r@ == id_bytes(id),
{
    let mut out: Vec<u8> = Vec::new();
    let mut rest: u128 = id;
    let mut i: usize = 0;
    proof {
        assert(pow256(0) == 1);
    }
    while i < 16
        invariant
            i <= 16,
            out@.len() == i,
            rest as nat == id as nat / pow256(i as nat),
            forall|j: int| 0 <= j < i ==> out@[j] == id_bytes(id)[15 - i + 1 + j],
        decreases 16 - i,
    {
        let b = (rest % 256) as u8;
        proof {
            lemma_pow256_step(id as nat, i as nat);
        }
        out.insert(0, b);
        rest = rest / 256;
        i += 1;
    }
    proof {
        assert(out@ =~= id_bytes(id));
    }
    out
}

proof fn lemma_pow256_step(v: nat, i: nat)
    ensures
        pow256(i) > 0,
        v / pow256(i + 1) == (v / pow256(i)) / 256,
    decreases i,
{
    if i > 0 {
        lemma_pow256_step(v, (i - 1) as nat);
    }
    let p = pow256(i);
    assert(pow256(i + 1) == 256 * p);
    vstd::arithmetic::div_mod::lemma_div_denominator(v as int, p as int, 256);
    assert(256 * p == p * 256) by (nonlinear_arith);
}

impl PacketLogger {
    /// The path of the session's log file, from the log directory.
    pub fn log_path(&self) -> (r: String)
        ensures
            r@ == log_path_text(self@.session_id),
    {
        let bytes = session_id_bytes(self.session_id);
        let b = bytes.as_slice();
        let mut s = String::new();
        push_hex(&mut s, vstd::slice::slice_subrange(b, 0, 4));
        push_char(&mut s, '-');
        push_hex(&mut s, vstd::slice::slice_subrange(b, 4, 6));
        push_char(&mut s, '-');
        push_hex(&mut s, vstd::slice::slice_subrange(b, 6, 8));
        push_char(&mut s, '-');
        push_hex(&mut s, vstd::slice::slice_subrange(b, 8, 10));
        push_char(&mut s, '-');
        push_hex(&mut s, vstd::slice::slice_subrange(b, 10, 16));
        proof {
            assert(s@ =~= uuid_text(b@));
        }
        s.append(".bin");
        s
    }
}

/// The time of a packet from the start of its session, in milliseconds:
/// never below zero, and no more than a record can hold.
pub open spec fn session_time_spec(ts: i64, started_at: i64) -> i64 {
    if ts <= started_at {
        0
    } else if ts - started_at > i64::MAX {
        i64::MAX
    } else {
        (ts - started_at) as i64
    }
}

/// The time of a packet from the start of its session, in milliseconds.
pub fn session_time_ms(ts: i64, started_at: i64) -> (r: i64)
    ensures
        r == session_time_spec(ts, started_at),
{
    if ts <= started_at {
        0
    } else {
        let wide: i128 = ts as i128 - started_at as i128;
        if wide > 0x7fff_ffff_ffff_ffff {
            0x7fff_ffff_ffff_ffff
        } else {
            wide as i64
        }
    }
}

/// A datagram handed to a logger: its direction, its bytes, and the time at
/// which it was seen.
pub struct LogEvent {
    pub direction: PacketDirection,
    pub data: Seq<u8>,
    pub timestamp: i64,
}

/// The records that a logger makes of a sequence of datagrams, in the order
/// in which they were handed to it. A datagram whose record could not be
/// made leaves none.
pub open spec fn records_after(logger: LoggerView, events: Seq<LogEvent>) -> Seq<EntryView>
    decreases events.len(),
{
    if events.len() == 0 {
        Seq::empty()
    } else {
        let e = events[0];
        let rest = records_after(
            logger_after(logger, e.direction, e.data, e.timestamp),
            events.drop_first(),
        );
        match log_step(logger, e.direction, e.data, e.timestamp) {
            Ok(made) => seq![made.0] + rest,
            Err(_) => rest,
        }
    }
}

/// Whether the datagrams were seen at times that never go back.
pub open spec fn times_rise(events: Seq<LogEvent>) -> bool {
    forall|i: int, j: int|
        0 <= i <= j < events.len() ==> (#[trigger] events[i]).timestamp <= (
        #[trigger] events[j]).timestamp
}

/// The records of a session are numbered densely in the order of their
/// insertion: the record at index `i` of a logger that had counted `count`
/// packets has the number `count + i + 1`, so a fresh session numbers its
/// records 1, 2, 3 and so on. Where the clock never went back between
/// datagrams, the timestamps of the records never go back either.
#[verifier::rlimit(40)]
pub proof fn lemma_packet_numbers(logger: LoggerView, events: Seq<LogEvent>)
    ensures
        forall|i: int|
            0 <= i < records_after(logger, events).len() ==> (#[trigger] records_after(
                logger,
                events,
            )[i]).packet_number == Some((logger.count + i + 1) as i64),
        times_rise(events) ==> forall|i: int, j: int|
            0 <= i <= j < records_after(logger, events).len() ==> (#[trigger] records_after(
                logger,
                events,
            )[i]).timestamp <= (#[trigger] records_after(logger, events)[j]).timestamp,
        times_rise(events) ==> forall|i: int|
            0 <= i < records_after(logger, events).len() ==> events[0].timestamp <= (
            #[trigger] records_after(logger, events)[i]).timestamp,
    decreases events.len(),
{
    if events.len() > 0 {
        let e = events[0];
        let next = logger_after(logger, e.direction, e.data, e.timestamp);
        let tail = events.drop_first();
        let rest = records_after(next, tail);
        let all = records_after(logger, events);
        lemma_packet_numbers(next, tail);
        if times_rise(events) {
            assert forall|i: int, j: int| 0 <= i <= j < tail.len() implies (
            #[trigger] tail[i]).timestamp <= (#[trigger] tail[j]).timestamp by {
                assert(tail[i] == events[i + 1]);
                assert(tail[j] == events[j + 1]);
            }
            if tail.len() > 0 {
                assert(tail[0] == events[1]);
                assert(events[0].timestamp <= events[1].timestamp);
            }
        }
        match log_step(logger, e.direction, e.data, e.timestamp) {
            Ok(made) => {
                assert forall|i: int| 0 <= i < all.len() implies (#[trigger] all[i]).packet_number
                    == Some((logger.count + i + 1) as i64) by {
                    if i > 0 {
                        assert(all[i] == rest[i - 1]);
                    }
                }
                if times_rise(events) {
                    assert forall|i: int| 0 <= i < all.len() implies events[0].timestamp <= (
                    #[trigger] all[i]).timestamp by {
                        if i > 0 {
                            assert(all[i] == rest[i - 1]);
                        }
                    }
                    assert forall|i: int, j: int| 0 <= i <= j < all.len() implies (
                    #[trigger] all[i]).timestamp <= (#[trigger] all[j]).timestamp by {
                        if i > 0 {
                            assert(all[i] == rest[i - 1]);
                            assert(all[j] == rest[j - 1]);
                        } else if j > 0 {
                            assert(all[j] == rest[j - 1]);
                        }
                    }
                }
            },
            Err(_) => {},
        }
    }
}

} // verus!
