//! Reading a captured session back: from a log file, in its length-framed
//! form or in the older form without length prefixes, and from the records
//! of the store.

use vstd::prelude::*;
use crate::db::{DbPacket, DbPacketView};
use crate::packet_logger::{
    entries_list_view, entry_of, frame, frameable, le_bytes4, lemma_entry_len,
    lemma_entry_of_prefix, lemma_entry_round_trip, lemma_le_bytes4, storable, text_view,
    EntryView, PacketDirection, PacketEntry, MAX_RECORD_LEN,
};
use crate::session::{id_of_text, session_id_of_stem};
use crate::text::{hex_byte, push_char, push_hex_byte, str_eq};
use crate::wire::{le_value, Cursor};

verus! {

/// Whether `len` can be the length of a framed payload with `remaining`
/// bytes behind the length prefix.
pub open spec fn valid_frame_len(len: nat, remaining: nat) -> bool {
    0 < len <= MAX_RECORD_LEN && len <= remaining
}

/// The payloads of the frames at the start of `data`, as far as the framing
/// is valid.
pub open spec fn frames_of(data: Seq<u8>) -> Seq<Seq<u8>>
    decreases data.len(),
{
    if data.len() < 4 {
        Seq::empty()
    } else {
        let len = le_value(data.take(4));
        if valid_frame_len(len, (data.len() - 4) as nat) {
            seq![data.subrange(4, (4 + len) as int)] + frames_of(data.skip((4 + len) as int))
        } else {
            Seq::empty()
        }
    }
}

/// The frames of the payloads, one after the other.
pub open spec fn frames(payloads: Seq<Seq<u8>>) -> Seq<u8>
    decreases payloads.len(),
{
    if payloads.len() == 0 {
        Seq::empty()
    } else {
        frame(payloads[0]) + frames(payloads.drop_first())
    }
}

/// The records of a length-framed log: frame by frame, as far as the
/// framing is valid and the payloads are records.
pub open spec fn framed_entries(data: Seq<u8>) -> Seq<EntryView>
    decreases data.len(),
{
    if data.len() < 4 {
        Seq::empty()
    } else {
        let len = le_value(data.take(4));
        if valid_frame_len(len, (data.len() - 4) as nat) {
            match entry_of(data.subrange(4, (4 + len) as int)) {
                Some(e) => seq![e] + framed_entries(data.skip((4 + len) as int)),
                None => Seq::empty(),
            }
        } else {
            Seq::empty()
        }
    }
}

/// The records of a log without length prefixes: one record after the
/// other, each as long as its serialized form, until the data ends or the
/// rest is no record.
pub open spec fn legacy_entries(data: Seq<u8>) -> Seq<EntryView>
    decreases data.len(),
{
    if data.len() == 0 {
        Seq::empty()
    } else {
        match entry_of(data) {
            None => Seq::empty(),
            Some(e) => {
                let n = e.stored_bytes().len();
                if 0 < n < data.len() {
                    seq![e] + legacy_entries(data.skip(n as int))
                } else {
                    seq![e]
                }
            },
        }
    }
}

/// The first bytes of a file, at most `n`, in hexadecimal with a space
/// between bytes.
pub open spec fn preview_text(data: Seq<u8>, n: nat) -> Seq<char>
    decreases n,
{
    if n == 0 || data.len() == 0 {
        Seq::empty()
    } else if n == 1 || data.len() == 1 {
        hex_byte(data[0])
    } else {
        hex_byte(data[0]) + seq![' '] + preview_text(data.drop_first(), (n - 1) as nat)
    }
}

/// Why a log file could not be read.
#[derive(Debug, PartialEq)]
pub enum LogReadError {
    /// The file is empty.
    Empty,
    /// Neither the length-framed reading nor the reading without length
    /// prefixes found a record. Carries the size of the file and its first
    /// sixteen bytes in hexadecimal.
    UnrecognizedFormat { size: usize, preview: String },
}

/// The mathematical form of a `LogReadError`.
pub enum LogReadErrorView {
    Empty,
    UnrecognizedFormat { size: nat, preview: Seq<char> },
}

impl View for LogReadError {
    type V = LogReadErrorView;

    open spec fn view(&self) -> LogReadErrorView {
        match self {
            LogReadError::Empty => LogReadErrorView::Empty,
            LogReadError::UnrecognizedFormat { size, preview } => {
                LogReadErrorView::UnrecognizedFormat { size: *size as nat, preview: preview@ }
            },
        }
    }
}

/// The records of a log file. The length-framed reading is tried first; the
/// reading without length prefixes only where the first found nothing.
pub open spec fn log_entries(data: Seq<u8>) -> Seq<EntryView> {
    if framed_entries(data).len() > 0 {
        framed_entries(data)
    } else {
        legacy_entries(data)
    }
}

/// What reading a log file yields: its records, or the reason none was found.
pub open spec fn read_log_spec(data: Seq<u8>) -> Result<Seq<EntryView>, LogReadErrorView> {
    let entries = log_entries(data);
    if entries.len() > 0 {
        Ok(entries)
    } else if data.len() == 0 {
        Err(LogReadErrorView::Empty)
    } else {
        Err(
            LogReadErrorView::UnrecognizedFormat {
                size: data.len(),
                preview: preview_text(data, 16),
            },
        )
    }
}

/// Reads the records of a length-framed log.
#[verifier::rlimit(40)]
pub fn read_framed(data: &[u8]) -> (r: Vec<PacketEntry>)
    ensures
        entries_list_view(r@) == framed_entries(data@),
{
    let mut out: Vec<PacketEntry> = Vec::new();
    let mut cur = Cursor::new(data);
    proof {
        assert(entries_list_view(out@) =~= Seq::empty());
        assert(entries_list_view(out@) + framed_entries(data@) =~= framed_entries(data@));
    }
    loop
        invariant_except_break
            framed_entries(data@) == entries_list_view(out@) + framed_entries(cur.unread()),
        ensures
            entries_list_view(out@) == framed_entries(data@),
        decreases cur.unread().len(),
    {
        let ghost here = cur.unread();
        let ghost head = entries_list_view(out@);
        if cur.remaining() < 4 {
            proof {
                assert(head + Seq::<EntryView>::empty() =~= head);
            }
            break ;
        }
        let len = match cur.read_le(4) {
            Ok(v) => v,
            Err(_) => {
                break ;
            },
        };
        if len == 0 || len > MAX_RECORD_LEN as u64 || len > cur.remaining() as u64 {
            proof {
                assert(head + Seq::<EntryView>::empty() =~= head);
            }
            break ;
        }
        let payload = match cur.take(len as usize) {
            Some(p) => p,
            None => {
                break ;
            },
        };
        proof {
            assert(here.skip(4).take(len as int) == here.subrange(4, 4 + len));
            assert(here.skip(4).skip(len as int) == here.skip(4 + len));
        }
        match PacketEntry::decode(payload) {
            Some(e) => {
                out.push(e);
                proof {
                    let rest = framed_entries(here.skip(4 + len));
                    assert(entries_list_view(out@) =~= head.push(e@));
                    assert(head + (seq![e@] + rest) =~= head.push(e@) + rest);
                }
            },
            None => {
                proof {
                    assert(head + Seq::<EntryView>::empty() =~= head);
                }
                break ;
            },
        }
    }
    out
}

/// Reads the records of a log without length prefixes.
#[verifier::rlimit(40)]
pub fn read_legacy(data: &[u8]) -> (r: Vec<PacketEntry>)
    ensures
        entries_list_view(r@) == legacy_entries(data@),
{
    let mut out: Vec<PacketEntry> = Vec::new();
    let mut pos: usize = 0;
    proof {
        assert(data@.skip(0) == data@);
        assert(entries_list_view(out@) =~= Seq::empty());
        assert(entries_list_view(out@) + legacy_entries(data@) =~= legacy_entries(data@));
    }
    loop
        invariant_except_break
            pos <= data@.len(),
            legacy_entries(data@) == entries_list_view(out@) + legacy_entries(
                data@.skip(pos as int),
            ),
        ensures
            entries_list_view(out@) == legacy_entries(data@),
        decreases data.len() - pos,
    {
        let ghost here = data@.skip(pos as int);
        let ghost head = entries_list_view(out@);
        if pos >= data.len() {
            proof {
                assert(head + Seq::<EntryView>::empty() =~= head);
            }
            break ;
        }
        let rest_bytes = vstd::slice::slice_subrange(data, pos, data.len());
        let e = match PacketEntry::decode(rest_bytes) {
            Some(e) => e,
            None => {
                proof {
                    assert(head + Seq::<EntryView>::empty() =~= head);
                }
                break ;
            },
        };
        proof {
            lemma_entry_of_prefix(here);
        }
        let len = e.encoded_len();
        let ghost ev = e@;
        out.push(e);
        proof {
            assert(entries_list_view(out@) =~= head.push(ev));
            assert(head + seq![ev] =~= head.push(ev));
        }
        let n = match len {
            Some(n) => n,
            None => {
                break ;
            },
        };
        if n >= data.len() - pos {
            break ;
        }
        proof {
            let rest = legacy_entries(here.skip(n as int));
            assert(here.skip(n as int) == data@.skip(pos + n));
            assert(head + (seq![ev] + rest) =~= head.push(ev) + rest);
        }
        pos = pos + n;
    }
    out
}

/// The first bytes of a file, at most `n`, in hexadecimal with a space
/// between bytes.
#[verifier::rlimit(40)]
pub fn preview(data: &[u8], n: usize) -> (r: String)
    ensures
        r@ == preview_text(data@, n as nat),
{
    let mut s = String::new();
    let mut i: usize = 0;
    proof {
        assert(data@.skip(0) == data@);
        assert(s@ + preview_text(data@, n as nat) =~= preview_text(data@, n as nat));
    }
    while i < n && i < data.len()
        invariant
            i <= n,
            i <= data@.len(),
            preview_text(data@, n as nat) == s@ + preview_text(
                data@.skip(i as int),
                (n - i) as nat,
            ),
        decreases n - i,
    {
        let ghost head = s@;
        let ghost here = data@.skip(i as int);
        proof {
            assert(here.drop_first() == data@.skip(i + 1));
            assert(here[0] == data@[i as int]);
        }
        push_hex_byte(&mut s, data[i]);
        if i + 1 < n && i + 1 < data.len() {
            push_char(&mut s, ' ');
            proof {
                let rest = preview_text(data@.skip(i + 1), (n - i - 1) as nat);
                assert(head + (hex_byte(here[0]) + seq![' '] + rest) =~= (head + hex_byte(
                    here[0],
                )).push(' ') + rest);
            }
        } else {
            proof {
                let rest = preview_text(data@.skip(i + 1), (n - i - 1) as nat);
                assert(rest =~= Seq::empty());
                assert(head + hex_byte(here[0]) =~= head + hex_byte(here[0]) + rest);
            }
        }
        i += 1;
    }
    proof {
        assert(s@ + Seq::<char>::empty() =~= s@);
    }
    s
}

/// A session read back for inspection.
#[derive(Debug, PartialEq)]
pub struct SessionLog {
    pub packets: Vec<PacketEntry>,
    /// The timestamp of the first packet.
    pub start_time: i64,
    pub protocol_version: Option<String>,
}

/// The mathematical form of a `SessionLog`.
pub struct SessionLogView {
    pub packets: Seq<EntryView>,
    pub start_time: i64,
    pub protocol_version: Option<Seq<char>>,
}

impl View for SessionLog {
    type V = SessionLogView;

    open spec fn view(&self) -> SessionLogView {
        SessionLogView {
            packets: entries_list_view(self.packets@),
            start_time: self.start_time,
            protocol_version: text_view(self.protocol_version),
        }
    }
}

/// The protocol version of the first entry that has one.
pub open spec fn first_version(entries: Seq<EntryView>) -> Option<Seq<char>>
    decreases entries.len(),
{
    if entries.len() == 0 {
        None
    } else if entries[0].protocol_version is Some {
        entries[0].protocol_version
    } else {
        first_version(entries.drop_first())
    }
}

/// The session that the records of a log file make up. Only a length-framed
/// log tells the protocol version.
pub open spec fn session_of_file(data: Seq<u8>) -> Result<SessionLogView, LogReadErrorView> {
    match read_log_spec(data) {
        Err(e) => Err(e),
        Ok(entries) => Ok(
            SessionLogView {
                packets: entries,
                start_time: entries[0].timestamp,
                protocol_version: if framed_entries(data).len() > 0 {
                    first_version(entries)
                } else {
                    None
                },
            },
        ),
    }
}

/// The protocol version of the first entry that has one.
pub fn find_version(entries: &Vec<PacketEntry>) -> (r: Option<String>)
    ensures
        text_view(r) == first_version(entries_list_view(entries@)),
{
    let ghost all = entries_list_view(entries@);
    let mut i: usize = 0;
    proof {
        assert(all.skip(0) == all);
    }
    while i < entries.len()
        invariant
            i <= entries@.len(),
            all == entries_list_view(entries@),
            first_version(all) == first_version(all.skip(i as int)),
        decreases entries.len() - i,
    {
        proof {
            assert(all.skip(i as int).drop_first() == all.skip(i + 1));
        }
        match &entries[i].protocol_version {
            Some(v) => {
                return Some(v.clone());
            },
            None => {},
        }
        i += 1;
    }
    None
}

impl SessionLog {
    /// Reads a session from the bytes of its log file.
    pub fn load(data: &[u8]) -> (r: Result<SessionLog, LogReadError>)
        ensures
            match r {
                Ok(log) => session_of_file(data@) == Ok::<SessionLogView, LogReadErrorView>(log@),
                Err(e) => session_of_file(data@) == Err::<SessionLogView, LogReadErrorView>(e@),
            },
    {
        let framed = read_framed(data);
        if framed.len() > 0 {
            let protocol_version = find_version(&framed);
            let start_time = framed[0].timestamp;
            return Ok(SessionLog { packets: framed, start_time, protocol_version });
        }
        let legacy = read_legacy(data);
        if legacy.len() > 0 {
            let start_time = legacy[0].timestamp;
            return Ok(SessionLog { packets: legacy, start_time, protocol_version: None });
        }
        if data.len() == 0 {
            Err(LogReadError::Empty)
        } else {
            Err(LogReadError::UnrecognizedFormat { size: data.len(), preview: preview(data, 16) })
        }
    }

    /// The time of `timestamp` from the start of the session, in milliseconds.
    pub fn relative_time(&self, timestamp: i64) -> (r: i64)
        requires
            i64::MIN <= timestamp - self.start_time <= i64::MAX,
        ensures
            r == timestamp - self.start_time,
    {
        timestamp - self.start_time
    }
}

/// A session read from its log file, with the id that the file is named after.
#[derive(Debug, PartialEq)]
pub struct FileSession {
    pub session_id: u128,
    pub log: SessionLog,
}

/// Why a log file could not be loaded.
#[derive(Debug, PartialEq)]
pub enum FileLoadError {
    /// The stem of the file's name is no session id.
    InvalidName,
    /// The file holds no readable records.
    Unreadable(LogReadError),
}

impl FileSession {
    /// Loads a session from a log file, given the stem of the file's name
    /// and the bytes of the file. The name is looked at first.
    pub fn load(stem: &str, data: &[u8]) -> (r: Result<FileSession, FileLoadError>)
        ensures
            match r {
                Ok(session) => id_of_text(stem@) == Some(session.session_id) && session_of_file(
                    data@,
                ) == Ok::<SessionLogView, LogReadErrorView>(session.log@),
                Err(FileLoadError::InvalidName) => id_of_text(stem@) is None,
                Err(FileLoadError::Unreadable(e)) => id_of_text(stem@) is Some && session_of_file(
                    data@,
                ) == Err::<SessionLogView, LogReadErrorView>(e@),
            },
    {
        let session_id = match session_id_of_stem(stem) {
            Some(id) => id,
            None => {
                return Err(FileLoadError::InvalidName);
            },
        };
        match SessionLog::load(data) {
            Ok(log) => Ok(FileSession { session_id, log }),
            Err(e) => Err(FileLoadError::Unreadable(e)),
        }
    }
}

/// Why the records of the store make up no session.
#[derive(Clone, Copy, Debug, PartialEq, Eq, Structural)]
pub enum RecordError {
    /// The store holds no packet of the session.
    NoPackets,
    /// A record names a direction that is neither `clientbound` nor
    /// `serverbound`.
    InvalidDirection,
}

/// The direction that a name of the store stands for.
pub open spec fn direction_named(t: Seq<char>) -> Option<PacketDirection> {
    if t == "clientbound"@ {
        Some(PacketDirection::Clientbound)
    } else if t == "serverbound"@ {
        Some(PacketDirection::Serverbound)
    } else {
        None
    }
}

/// The entry that a record of the store stands for, with `data` as its bytes.
pub open spec fn entry_of_record(r: DbPacketView, data: Seq<u8>) -> Option<EntryView> {
    match direction_named(r.direction) {
        Some(direction) => Some(
            EntryView {
                timestamp: r.ts,
                direction,
                data,
                protocol_version: Some(r.server_version),
                packet_json: Some(r.packet),
                packet_number: Some(r.packet_number),
            },
        ),
        None => None,
    }
}

/// The bytes that go with the record at index `i`: those at the same index,
/// or none where there are fewer.
pub open spec fn data_at(data: Seq<Vec<u8>>, i: int) -> Seq<u8> {
    if 0 <= i < data.len() {
        data[i]@
    } else {
        Seq::empty()
    }
}

/// Reads the direction that a name of the store stands for.
pub fn parse_direction_name(t: &str) -> (r: Option<PacketDirection>)
    ensures
        r == direction_named(t@),
{
    if str_eq(t, "clientbound") {
        Some(PacketDirection::Clientbound)
    } else if str_eq(t, "serverbound") {
        Some(PacketDirection::Serverbound)
    } else {
        None
    }
}

impl SessionLog {
    /// Makes a session of the records of the store, in their order. `data`
    /// holds, index by index, the bytes to show for each record. The session
    /// starts at the time of the first record and has its protocol version.
    pub fn from_records(records: &[DbPacket], data: &[Vec<u8>]) -> (r: Result<
        SessionLog,
        RecordError,
    >)
        ensures
            match r {
                Err(RecordError::NoPackets) => records@.len() == 0,
                Err(RecordError::InvalidDirection) => exists|i: int|
                    0 <= i < records@.len() && direction_named(
                        (#[trigger] records@[i]).direction@,
                    ) is None,
                Ok(log) => {
                    &&& records@.len() > 0
                    &&& log.packets@.len() == records@.len()
                    &&& forall|i: int|
                        0 <= i < records@.len() ==> entry_of_record(
                            records@[i]@,
                            data_at(data@, i),
                        ) == Some((#[trigger] log.packets@[i])@)
                    &&& log.start_time == records@[0].ts
                    &&& text_view(log.protocol_version) == Some(records@[0].server_version@)
                },
            },
    {
        if records.len() == 0 {
            return Err(RecordError::NoPackets);
        }
        let mut packets: Vec<PacketEntry> = Vec::new();
        let mut i: usize = 0;
        while i < records.len()
            invariant
                i <= records@.len(),
                packets@.len() == i,
                forall|j: int|
                    0 <= j < i ==> entry_of_record(records@[j]@, data_at(data@, j)) == Some(
                        (#[trigger] packets@[j])@,
                    ),
            decreases records.len() - i,
        {
            let record = &records[i];
            let direction = match parse_direction_name(record.direction.as_str()) {
                Some(d) => d,
                None => {
                    return Err(RecordError::InvalidDirection);
                },
            };
            let bytes = if i < data.len() {
                vstd::slice::slice_to_vec(data[i].as_slice())
            } else {
                Vec::new()
            };
            packets.push(
                PacketEntry {
                    timestamp: record.ts,
                    direction,
                    data: bytes,
                    protocol_version: Some(record.server_version.clone()),
                    packet_json: Some(record.packet.clone()),
                    packet_number: Some(record.packet_number),
                },
            );
            i += 1;
        }
        Ok(
            SessionLog {
                packets,
                start_time: records[0].ts,
                protocol_version: Some(records[0].server_version.clone()),
            },
        )
    }
}

/// The payloads of a log are found again when the log is read frame by
/// frame: framing puts a sequence of payloads, none empty and none longer
/// than the ceiling, into a byte string from which reading yields the same
/// sequence.
pub proof fn lemma_frames_roundtrip(payloads: Seq<Seq<u8>>)
    requires
        forall|i: int|
            0 <= i < payloads.len() ==> frameable(#[trigger] payloads[i]),
    ensures
        frames_of(frames(payloads)) == payloads,
    decreases payloads.len(),
{
    if payloads.len() == 0 {
        assert(frames_of(frames(payloads)) =~= payloads);
    } else {
        let p = payloads[0];
        let rest = payloads.drop_first();
        let data = frames(payloads);
        lemma_le_bytes4(p.len());
        assert(data.take(4) =~= le_bytes4(p.len()));
        assert(data.subrange(4, (4 + p.len()) as int) =~= p);
        assert(data.skip((4 + p.len()) as int) =~= frames(rest));
        assert forall|i: int| 0 <= i < rest.len() implies frameable(#[trigger] rest[i]) by {
            assert(rest[i] == payloads[i + 1]);
        }
        lemma_frames_roundtrip(rest);
        assert(seq![p] + rest =~= payloads);
    }
}

/// The records that the payloads are.
pub open spec fn records_of(payloads: Seq<Seq<u8>>) -> Seq<EntryView> {
    Seq::new(payloads.len(), |i: int| entry_of(payloads[i])->Some_0)
}

/// Writing records in the length-framed form and reading them back yields
/// the same records: where every payload is the serialized form of a
/// record, none empty and none longer than the ceiling, the log made of
/// their frames reads as those records, in order.
pub proof fn lemma_log_roundtrip(payloads: Seq<Seq<u8>>)
    requires
        forall|i: int|
            0 <= i < payloads.len() ==> frameable(#[trigger] payloads[i]) && entry_of(
                payloads[i],
            ) is Some,
    ensures
        framed_entries(frames(payloads)) == records_of(payloads),
        payloads.len() > 0 ==> read_log_spec(frames(payloads)) == Ok::<
            Seq<EntryView>,
            LogReadErrorView,
        >(records_of(payloads)),
    decreases payloads.len(),
{
    if payloads.len() == 0 {
        assert(framed_entries(frames(payloads)) =~= records_of(payloads));
    } else {
        let p = payloads[0];
        let rest = payloads.drop_first();
        let data = frames(payloads);
        lemma_le_bytes4(p.len());
        assert(data.take(4) =~= le_bytes4(p.len()));
        assert(data.subrange(4, (4 + p.len()) as int) =~= p);
        assert(data.skip((4 + p.len()) as int) =~= frames(rest));
        assert forall|i: int| 0 <= i < rest.len() implies frameable(#[trigger] rest[i])
            && entry_of(rest[i]) is Some by {
            assert(rest[i] == payloads[i + 1]);
        }
        lemma_log_roundtrip(rest);
        assert(seq![entry_of(p)->Some_0] + records_of(rest) =~= records_of(payloads));
    }
}

/// The payloads one after the other, without length prefixes.
pub open spec fn concat(payloads: Seq<Seq<u8>>) -> Seq<u8>
    decreases payloads.len(),
{
    if payloads.len() == 0 {
        Seq::empty()
    } else {
        payloads[0] + concat(payloads.drop_first())
    }
}

/// That `payloads` are the serialized forms of `records`, and that each
/// record is read from the start of its payload whatever follows it.
pub open spec fn serialized_as(payloads: Seq<Seq<u8>>, records: Seq<EntryView>) -> bool {
    &&& payloads.len() == records.len()
    &&& forall|i: int|
        0 <= i < payloads.len() ==> {
            &&& 0 < (#[trigger] payloads[i]).len()
            &&& records[i].stored_bytes().len() == payloads[i].len()
            &&& entry_of(concat(payloads.skip(i))) == Some(records[i])
        }
}

#[verifier::rlimit(60)]
proof fn lemma_legacy_suffix(payloads: Seq<Seq<u8>>, records: Seq<EntryView>, i: int)
    requires
        serialized_as(payloads, records),
        0 <= i <= payloads.len(),
    ensures
        legacy_entries(concat(payloads.skip(i))) == records.skip(i),
    decreases payloads.len() - i,
{
    let rest = payloads.skip(i);
    if i == payloads.len() {
        assert(legacy_entries(concat(rest)) =~= records.skip(i));
    } else {
        lemma_legacy_suffix(payloads, records, i + 1);
        let data = concat(rest);
        assert(rest[0] == payloads[i]);
        assert(rest.drop_first() == payloads.skip(i + 1));
        assert(data.skip(payloads[i].len() as int) =~= concat(payloads.skip(i + 1)));
        assert(seq![records[i]] + records.skip(i + 1) =~= records.skip(i));
        if payloads[i].len() >= data.len() {
            assert(concat(payloads.skip(i + 1)).len() == 0);
            lemma_concat_empty(payloads, records, i + 1);
            assert(seq![records[i]] =~= records.skip(i));
        }
    }
}

proof fn lemma_concat_empty(payloads: Seq<Seq<u8>>, records: Seq<EntryView>, i: int)
    requires
        serialized_as(payloads, records),
        0 <= i <= payloads.len(),
        concat(payloads.skip(i)).len() == 0,
    ensures
        i == payloads.len(),
{
    if i < payloads.len() {
        assert(payloads.skip(i)[0] == payloads[i]);
    }
}

/// A file of records one after the other, without length prefixes, is read
/// as those records: where the length-framed reading finds nothing in the
/// file, loading yields the records in order.
pub proof fn lemma_legacy_read(payloads: Seq<Seq<u8>>, records: Seq<EntryView>)
    requires
        serialized_as(payloads, records),
        payloads.len() > 0,
        framed_entries(concat(payloads)).len() == 0,
    ensures
        read_log_spec(concat(payloads)) == Ok::<Seq<EntryView>, LogReadErrorView>(records),
{
    lemma_legacy_suffix(payloads, records, 0);
    assert(payloads.skip(0) == payloads);
    assert(records.skip(0) == records);
}

/// The serialized forms of the records, record by record.
pub open spec fn payloads_of(entries: Seq<EntryView>) -> Seq<Seq<u8>> {
    Seq::new(entries.len(), |i: int| entries[i].stored_bytes())
}

/// The records as they are read back from a log file, record by record.
pub open spec fn stored_list(entries: Seq<EntryView>) -> Seq<EntryView> {
    Seq::new(entries.len(), |i: int| entries[i].stored())
}

/// A log that was written is read back: the frames of the serialized
/// forms of records, none too long for a frame, are read as those records
/// in their order, with nothing lost and nothing added. The session starts
/// at the time of the first record.
pub proof fn lemma_written_log_reads_back(entries: Seq<EntryView>)
    requires
        entries.len() > 0,
        forall|i: int| 0 <= i < entries.len() ==> frameable((#[trigger] entries[i]).stored_bytes()),
    ensures
        read_log_spec(frames(payloads_of(entries))) == Ok::<Seq<EntryView>, LogReadErrorView>(
            stored_list(entries),
        ),
        session_of_file(frames(payloads_of(entries))) == Ok::<SessionLogView, LogReadErrorView>(
            SessionLogView {
                packets: stored_list(entries),
                start_time: entries[0].timestamp,
                protocol_version: first_version(stored_list(entries)),
            },
        ),
{
    let payloads = payloads_of(entries);
    assert forall|i: int| 0 <= i < payloads.len() implies frameable(#[trigger] payloads[i])
        && entry_of(payloads[i]) == Some(entries[i].stored()) by {
        let e = entries[i];
        assert(frameable(e.stored_bytes()));
        lemma_entry_len(e.fields());
        lemma_entry_round_trip(e, Seq::empty());
        assert(e.stored_bytes() + Seq::<u8>::empty() =~= e.stored_bytes());
    }
    lemma_log_roundtrip(payloads);
    assert(records_of(payloads) =~= stored_list(entries));
    assert(stored_list(entries)[0] == entries[0].stored());
}

/// A log without length prefixes is read as its records: the serialized
/// forms of records one after the other, where the first four bytes cannot
/// be taken for the length of a frame, are read as those records in their
/// order. The session starts at the time of the first record.
pub proof fn lemma_legacy_log_reads_back(entries: Seq<EntryView>)
    requires
        entries.len() > 0,
        forall|i: int| 0 <= i < entries.len() ==> storable((#[trigger] entries[i]).fields()),
        !valid_frame_len(
            le_value(concat(payloads_of(entries)).take(4)),
            (concat(payloads_of(entries)).len() - 4) as nat,
        ),
    ensures
        read_log_spec(concat(payloads_of(entries))) == Ok::<Seq<EntryView>, LogReadErrorView>(
            stored_list(entries),
        ),
        session_of_file(concat(payloads_of(entries))) == Ok::<SessionLogView, LogReadErrorView>(
            SessionLogView {
                packets: stored_list(entries),
                start_time: entries[0].timestamp,
                protocol_version: None,
            },
        ),
{
    let payloads = payloads_of(entries);
    let records = stored_list(entries);
    assert forall|i: int| 0 <= i < payloads.len() implies 0 < (#[trigger] payloads[i]).len()
        && records[i].stored_bytes().len() == payloads[i].len() && entry_of(
        concat(payloads.skip(i)),
    ) == Some(records[i]) by {
        let e = entries[i];
        lemma_entry_len(e.fields());
        assert(storable(e.fields()));
        let rest = payloads.skip(i);
        assert(rest[0] == payloads[i]);
        lemma_entry_round_trip(e, concat(rest.drop_first()));
        assert(records[i].stored_bytes() == e.stored_bytes());
    }
    lemma_legacy_read(payloads, records);
    assert(records[0] == entries[0].stored());
}

} // verus!
