use lazypacket::db::DbPacket;
use lazypacket::packet_logger::{frame_record, PacketDirection, PacketEntry, MAX_RECORD_LEN};
use lazypacket::session_log::{
    preview, read_framed, read_legacy, FileLoadError, FileSession, LogReadError, RecordError,
    SessionLog,
};
use lazypacket::value::Value;

fn entry(ts: i64, direction: PacketDirection, data: &[u8], version: Option<&str>) -> PacketEntry {
    PacketEntry {
        timestamp: ts,
        direction,
        data: data.to_vec(),
        protocol_version: version.map(|v| v.to_string()),
        packet_json: None,
        packet_number: None,
    }
}

fn sample_entries() -> Vec<PacketEntry> {
    vec![
        entry(1_700_000_000_000, PacketDirection::Serverbound, &[1, 2, 3], Some("1.21.111")),
        entry(1_700_000_000_000, PacketDirection::Clientbound, &[], None),
        entry(1_700_000_000_250, PacketDirection::Clientbound, &[0xff; 300], Some("")),
        entry(-5, PacketDirection::Serverbound, &[9], Some("v\u{e9}")),
    ]
}

/// The bytes that bincode makes of the stored fields of an entry.
fn bincode_of(e: &PacketEntry) -> Vec<u8> {
    let direction: u32 = match e.direction {
        PacketDirection::Clientbound => 0,
        PacketDirection::Serverbound => 1,
    };
    bincode::serialize(&(e.timestamp, direction, &e.data, &e.protocol_version)).unwrap()
}

#[test]
fn entry_encoding_is_the_bincode_of_its_stored_fields() {
    for e in sample_entries() {
        assert_eq!(e.encode(), Some(bincode_of(&e)));
        assert_eq!(e.encoded_len(), Some(bincode_of(&e).len()));
        assert_eq!(
            bincode::serialized_size(&(e.timestamp, 0u32, &e.data, &e.protocol_version)).unwrap(),
            bincode_of(&e).len() as u64
        );
    }
    let e = entry(1, PacketDirection::Serverbound, &[7], Some("v"));
    assert_eq!(
        e.encode().unwrap(),
        vec![
            1, 0, 0, 0, 0, 0, 0, 0, // timestamp
            1, 0, 0, 0, // direction
            1, 0, 0, 0, 0, 0, 0, 0, 7, // data
            1, 1, 0, 0, 0, 0, 0, 0, 0, b'v', // version
        ]
    );
}

#[test]
fn entry_decoding_reads_what_was_encoded() {
    for e in sample_entries() {
        let bytes = e.encode().unwrap();
        assert_eq!(PacketEntry::decode(&bytes), Some(entry(
            e.timestamp,
            e.direction,
            &e.data,
            e.protocol_version.as_deref()
        )));
        // Bytes behind the record are accepted.
        let mut longer = bytes.clone();
        longer.extend_from_slice(&[0xaa, 0xbb]);
        assert!(PacketEntry::decode(&longer).is_some());
        // A record cut short is none.
        assert_eq!(PacketEntry::decode(&bytes[..bytes.len() - 1]), None);
    }
    assert_eq!(PacketEntry::decode(&[]), None);
}

#[test]
fn unknown_direction_number_is_no_record() {
    let mut bytes = entry(1, PacketDirection::Serverbound, &[7], None).encode().unwrap();
    bytes[8] = 2;
    assert_eq!(PacketEntry::decode(&bytes), None);
    bytes[8] = 0;
    assert_eq!(PacketEntry::decode(&bytes).unwrap().direction, PacketDirection::Clientbound);
}

#[test]
fn frame_is_length_then_payload() {
    assert_eq!(frame_record(&[0xaa, 0xbb, 0xcc]), Some(vec![3, 0, 0, 0, 0xaa, 0xbb, 0xcc]));
    // No frame for what no reader would accept.
    assert_eq!(frame_record(&[]), None);
    assert_eq!(frame_record(&vec![0u8; MAX_RECORD_LEN + 1]), None);
    assert_eq!(frame_record(&vec![0u8; MAX_RECORD_LEN]).map(|f| f.len()), Some(MAX_RECORD_LEN + 4));
    let long = vec![7u8; 0x1_0203];
    let framed = frame_record(&long).unwrap();
    assert_eq!(&framed[..4], &[0x03, 0x02, 0x01, 0x00]);
    assert_eq!(&framed[4..], &long[..]);
}

#[test]
fn framing_round_trip() {
    let entries = sample_entries();
    let mut file = Vec::new();
    for e in &entries {
        file.extend(frame_record(&e.encode().unwrap()).unwrap());
    }
    assert_eq!(read_framed(&file), entries);
    let log = SessionLog::load(&file).unwrap();
    assert_eq!(log.packets, entries);
    assert_eq!(log.start_time, 1_700_000_000_000);
    assert_eq!(log.protocol_version, Some("1.21.111".to_string()));
}

#[test]
fn framed_reading_stops_at_damage() {
    let entries = sample_entries();
    let mut file = Vec::new();
    for e in &entries[..2] {
        file.extend(frame_record(&e.encode().unwrap()).unwrap());
    }
    let good = file.len();
    // A zero length.
    let mut zero = file.clone();
    zero.extend_from_slice(&[0, 0, 0, 0, 1, 2, 3]);
    assert_eq!(read_framed(&zero), entries[..2]);
    // A length beyond the ceiling.
    let mut huge = file.clone();
    huge.extend_from_slice(&((MAX_RECORD_LEN as u32) + 1).to_le_bytes());
    huge.extend(vec![0u8; 64]);
    assert_eq!(read_framed(&huge), entries[..2]);
    // A length beyond the end of the file.
    let mut cut = file.clone();
    cut.extend(frame_record(&entries[2].encode().unwrap()).unwrap());
    cut.truncate(cut.len() - 1);
    assert_eq!(read_framed(&cut), entries[..2]);
    // A payload that is no record.
    let mut junk = file.clone();
    junk.extend(frame_record(&[1, 2, 3]).unwrap());
    junk.extend(frame_record(&entries[3].encode().unwrap()).unwrap());
    assert_eq!(read_framed(&junk), entries[..2]);
    // Fewer than four bytes left.
    let mut tail = file.clone();
    tail.extend_from_slice(&[9, 9]);
    assert_eq!(read_framed(&tail), entries[..2]);
    assert_eq!(read_framed(&file[..good]), entries[..2]);
}

#[test]
fn legacy_log_read() {
    let records = vec![
        entry(1_600_000_000_001, PacketDirection::Serverbound, &[1, 2, 3], Some("1.16")),
        entry(1_600_000_000_002, PacketDirection::Clientbound, &[4], Some("1.16")),
        entry(1_600_000_000_003, PacketDirection::Serverbound, &[], None),
    ];
    let mut file = Vec::new();
    for e in &records {
        file.extend(e.encode().unwrap());
    }
    assert_eq!(read_framed(&file), vec![]);
    assert_eq!(read_legacy(&file), records);
    let log = SessionLog::load(&file).unwrap();
    assert_eq!(log.packets.len(), 3);
    let times: Vec<i64> = log.packets.iter().map(|p| p.timestamp).collect();
    assert_eq!(times, vec![1_600_000_000_001, 1_600_000_000_002, 1_600_000_000_003]);
    assert_eq!(log.packets, records);
    assert_eq!(log.start_time, 1_600_000_000_001);
    assert_eq!(log.protocol_version, None);
}

#[test]
fn legacy_reading_stops_at_what_is_no_record() {
    let records = sample_entries();
    let mut file = Vec::new();
    for e in &records[..2] {
        file.extend(e.encode().unwrap());
    }
    file.extend_from_slice(&[1, 2, 3]);
    assert_eq!(read_legacy(&file), records[..2]);
    assert_eq!(read_legacy(&[]), vec![]);
    assert_eq!(read_legacy(&[1, 2, 3]), vec![]);
}

#[test]
fn unreadable_files() {
    assert_eq!(SessionLog::load(&[]), Err(LogReadError::Empty));
    assert_eq!(
        SessionLog::load(&[1, 2, 3]),
        Err(LogReadError::UnrecognizedFormat { size: 3, preview: "01 02 03".to_string() })
    );
    let junk: Vec<u8> = (0u8..40).collect();
    assert_eq!(
        SessionLog::load(&junk),
        Err(LogReadError::UnrecognizedFormat {
            size: 40,
            preview: "00 01 02 03 04 05 06 07 08 09 0a 0b 0c 0d 0e 0f".to_string(),
        })
    );
    assert_eq!(
        SessionLog::load(&[0, 0, 0, 0, 0xff]),
        Err(LogReadError::UnrecognizedFormat { size: 5, preview: "00 00 00 00 ff".to_string() })
    );
}

#[test]
fn preview_of_first_bytes() {
    assert_eq!(preview(&[], 16), "");
    assert_eq!(preview(&[0xab], 16), "ab");
    assert_eq!(preview(&[1, 2, 3], 2), "01 02");
    assert_eq!(preview(&[1, 2, 3], 0), "");
}

#[test]
fn relative_time_is_from_the_first_packet() {
    let mut file = Vec::new();
    for e in sample_entries() {
        file.extend(frame_record(&e.encode().unwrap()).unwrap());
    }
    let log = SessionLog::load(&file).unwrap();
    assert_eq!(log.relative_time(1_700_000_000_250), 250);
    assert_eq!(log.relative_time(1_700_000_000_000), 0);
    assert_eq!(log.relative_time(1_699_999_999_999), -1);
}

fn record(number: i64, ts: i64, direction: &str) -> DbPacket {
    DbPacket {
        id: number as i32 + 100,
        session_id: 7,
        ts,
        session_time_ms: ts - 1000,
        packet_number: number,
        server_version: "1.21.111".to_string(),
        direction: direction.to_string(),
        packet: Value::Object(vec![("name".to_string(), Value::Str("x".to_string()))]),
    }
}

#[test]
fn session_from_the_records_of_the_store() {
    let records = vec![record(1, 1000, "serverbound"), record(2, 1005, "clientbound")];
    let data = vec![vec![1u8, 2, 3]];
    let log = SessionLog::from_records(&records, &data).unwrap();
    assert_eq!(log.start_time, 1000);
    assert_eq!(log.protocol_version, Some("1.21.111".to_string()));
    assert_eq!(
        log.packets,
        vec![
            PacketEntry {
                timestamp: 1000,
                direction: PacketDirection::Serverbound,
                data: vec![1, 2, 3],
                protocol_version: Some("1.21.111".to_string()),
                packet_json: Some(records[0].packet.clone()),
                packet_number: Some(1),
            },
            PacketEntry {
                timestamp: 1005,
                direction: PacketDirection::Clientbound,
                data: vec![],
                protocol_version: Some("1.21.111".to_string()),
                packet_json: Some(records[1].packet.clone()),
                packet_number: Some(2),
            },
        ]
    );
}

#[test]
fn records_that_make_up_no_session() {
    assert_eq!(SessionLog::from_records(&[], &[]), Err(RecordError::NoPackets));
    let records = vec![record(1, 1000, "serverbound"), record(2, 1005, "sideways")];
    assert_eq!(SessionLog::from_records(&records, &[]), Err(RecordError::InvalidDirection));
    let records = vec![record(1, 1000, "Serverbound")];
    assert_eq!(SessionLog::from_records(&records, &[]), Err(RecordError::InvalidDirection));
}

#[test]
fn log_file_is_loaded_by_name_and_content() {
    let mut file = Vec::new();
    for e in sample_entries() {
        file.extend(frame_record(&e.encode().unwrap()).unwrap());
    }
    let session = FileSession::load("00112233-4455-6677-8899-aabbccddeeff", &file).unwrap();
    assert_eq!(session.session_id, 0x0011_2233_4455_6677_8899_aabb_ccdd_eeff);
    assert_eq!(session.log, SessionLog::load(&file).unwrap());
    assert_eq!(FileSession::load("notes", &file), Err(FileLoadError::InvalidName));
    assert_eq!(FileSession::load("notes", &[]), Err(FileLoadError::InvalidName));
    assert_eq!(
        FileSession::load("00112233-4455-6677-8899-aabbccddeeff", &[]),
        Err(FileLoadError::Unreadable(LogReadError::Empty))
    );
}

#[test]
fn record_layout_is_read_back_with_anything_behind_it() {
    for e in sample_entries() {
        let bytes = e.encode().unwrap();
        for tail in [vec![], vec![0u8], vec![1, 2, 3, 4, 5, 6, 7, 8, 9], bytes.clone()] {
            let mut longer = bytes.clone();
            longer.extend_from_slice(&tail);
            let back = PacketEntry::decode(&longer).unwrap();
            assert_eq!(back, e);
            assert_eq!(back.encoded_len(), Some(bytes.len()));
        }
    }
    // A version that is no UTF-8, a tag that is neither 0 nor 1, a length beyond the end.
    let mut bad = entry(1, PacketDirection::Serverbound, &[7], Some("v")).encode().unwrap();
    let last = bad.len() - 1;
    bad[last] = 0xff;
    assert_eq!(PacketEntry::decode(&bad), None);
    let mut bad = entry(1, PacketDirection::Serverbound, &[7], None).encode().unwrap();
    let last = bad.len() - 1;
    bad[last] = 2;
    assert_eq!(PacketEntry::decode(&bad), None);
    let mut bad = entry(1, PacketDirection::Serverbound, &[7], None).encode().unwrap();
    bad[12] = 9;
    assert_eq!(PacketEntry::decode(&bad), None);
}

#[test]
fn legacy_log_of_many_records() {
    let records: Vec<PacketEntry> = (0..50)
        .map(|i| {
            entry(
                1_650_000_000_000 + i,
                if i % 3 == 0 { PacketDirection::Clientbound } else { PacketDirection::Serverbound },
                &vec![i as u8; (i * 7 % 40) as usize],
                if i % 2 == 0 { Some("1.19.\u{e9}") } else { None },
            )
        })
        .collect();
    let mut file = Vec::new();
    for e in &records {
        file.extend(e.encode().unwrap());
    }
    let log = SessionLog::load(&file).unwrap();
    assert_eq!(log.packets, records);
    assert_eq!(log.start_time, 1_650_000_000_000);
}
