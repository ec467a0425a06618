use lazypacket::packet_logger::{
    frame_record, session_id_bytes, session_time_ms, LogError, PacketDirection, PacketEntry,
    PacketLogger,
};
use lazypacket::proxy::{ProxyAction, ProxyServer, Route};
use lazypacket::session::{session_id_of_stem, Endpoint, Session};
use lazypacket::session_log::SessionLog;

fn client(n: u16) -> Endpoint {
    Endpoint::V4 { ip: 0x0a00_0001, port: 40000 + n }
}

fn upstream() -> Endpoint {
    Endpoint::V4 { ip: 0xc0a8_0164, port: 19132 }
}

fn listen() -> Endpoint {
    Endpoint::V4 { ip: 0, port: 19332 }
}

#[test]
fn packet_numbers_are_dense_from_one() {
    let mut logger = PacketLogger::new(1);
    assert_eq!(logger.packet_count(), 0);
    let mut numbers = Vec::new();
    let mut times = Vec::new();
    for (i, ts) in [100i64, 100, 105, 230, 230, 231].iter().enumerate() {
        let direction = if i % 2 == 0 {
            PacketDirection::Serverbound
        } else {
            PacketDirection::Clientbound
        };
        let logged = logger.log_packet(direction, vec![i as u8], *ts).unwrap();
        assert_eq!(logged.entry.direction, direction);
        assert_eq!(logged.entry.data, vec![i as u8]);
        assert_eq!(logged.entry.protocol_version, Some("1.21.111".to_string()));
        assert_eq!(logged.entry.packet_json, None);
        numbers.push(logged.entry.packet_number.unwrap());
        times.push(logged.entry.timestamp);
    }
    assert_eq!(numbers, vec![1, 2, 3, 4, 5, 6]);
    assert_eq!(times, vec![100, 100, 105, 230, 230, 231]);
    assert!(times.windows(2).all(|w| w[0] <= w[1]));
    assert_eq!(logger.packet_count(), 6);
}

#[test]
fn logged_frames_make_a_readable_log() {
    let mut logger = PacketLogger::with_protocol_version(9, "1.20.0".to_string());
    let mut file = Vec::new();
    for ts in [5i64, 6, 7] {
        let logged = logger.log_packet(PacketDirection::Serverbound, vec![1, 2], ts).unwrap();
        assert_eq!(Some(logged.frame.clone()), frame_record(&logged.entry.encode().unwrap()));
        file.extend(logged.frame);
    }
    let log = SessionLog::load(&file).unwrap();
    assert_eq!(log.packets.len(), 3);
    assert_eq!(log.protocol_version, Some("1.20.0".to_string()));
    assert_eq!(
        log.packets[2],
        PacketEntry {
            timestamp: 7,
            direction: PacketDirection::Serverbound,
            data: vec![1, 2],
            protocol_version: Some("1.20.0".to_string()),
            packet_json: None,
            packet_number: None,
        }
    );
}

#[test]
fn numbering_ends_where_a_record_can_count_no_further() {
    let mut logger = PacketLogger::resume(1, "v".to_string(), i64::MAX as u64 - 1);
    let last = logger.log_packet(PacketDirection::Clientbound, vec![], 1).unwrap();
    assert_eq!(last.entry.packet_number, Some(i64::MAX));
    assert_eq!(
        logger.log_packet(PacketDirection::Clientbound, vec![], 2),
        Err(LogError::CounterExhausted)
    );
    assert_eq!(logger.packet_count(), i64::MAX as u64);
    assert_ne!(LogError::Encode, LogError::CounterExhausted);
    // A record that no reader would accept is not logged, and not counted.
    let mut big = PacketLogger::new(2);
    assert_eq!(
        big.log_packet(PacketDirection::Clientbound, vec![0; 10_000_000], 1),
        Err(LogError::RecordTooLarge)
    );
    assert_eq!(big.packet_count(), 0);
    let fits = big.log_packet(PacketDirection::Clientbound, vec![0; 10_000_000 - 37], 1).unwrap();
    assert_eq!(fits.frame.len(), 10_000_004);
    assert_eq!(
        big.log_packet(PacketDirection::Clientbound, vec![0; 10_000_000 - 36], 1),
        Err(LogError::RecordTooLarge)
    );
    assert_eq!(fits.entry.packet_number, Some(1));
    let mut resumed = PacketLogger::resume(1, "v".to_string(), 41);
    assert_eq!(
        resumed.log_packet(PacketDirection::Serverbound, vec![1], 3).unwrap().entry.packet_number,
        Some(42)
    );
}

#[test]
fn log_file_is_named_after_the_session() {
    let id = 0x0011_2233_4455_6677_8899_aabb_ccdd_eeffu128;
    assert_eq!(
        session_id_bytes(id),
        vec![0x00, 0x11, 0x22, 0x33, 0x44, 0x55, 0x66, 0x77, 0x88, 0x99, 0xaa, 0xbb, 0xcc, 0xdd, 0xee, 0xff]
    );
    let logger = PacketLogger::new(id);
    assert_eq!(logger.session_id(), id);
    assert_eq!(logger.log_path(), "00112233-4455-6677-8899-aabbccddeeff.bin");
    assert_eq!(
        PacketLogger::new(1).log_path(),
        "00000000-0000-0000-0000-000000000001.bin"
    );
}

#[test]
fn session_id_from_the_file_stem() {
    let id = 0x0011_2233_4455_6677_8899_aabb_ccdd_eeffu128;
    assert_eq!(session_id_of_stem("00112233-4455-6677-8899-aabbccddeeff"), Some(id));
    assert_eq!(session_id_of_stem("00112233445566778899AABBCCDDEEFF"), Some(id));
    assert_eq!(session_id_of_stem("session"), None);
    assert_eq!(session_id_of_stem(""), None);
    let logger = PacketLogger::new(id);
    let name = logger.log_path();
    assert_eq!(session_id_of_stem(name.strip_suffix(".bin").unwrap()), Some(id));
}

#[test]
fn new_sessions_have_random_ids() {
    let a = Session::new(client(1), upstream());
    let b = Session::new(client(2), upstream());
    assert_ne!(a.id(), b.id());
    for s in [&a, &b] {
        assert_eq!((s.id() >> 76) & 0xf, 4);
        assert_eq!((s.id() >> 62) & 0x3, 2);
        assert_eq!(s.upstream_addr(), upstream());
        assert_eq!(s.logger().session_id(), s.id());
        assert_eq!(s.logger().packet_count(), 0);
    }
    assert_eq!(a.client_addr(), client(1));
}

#[test]
fn session_logs_both_directions_with_one_counter() {
    let mut s = Session::new(client(1), upstream());
    let a = s.log_serverbound(vec![1], 10).unwrap();
    let b = s.log_clientbound(vec![2], 10).unwrap();
    let c = s.log_serverbound(vec![3], 11).unwrap();
    assert_eq!(a.entry.direction, PacketDirection::Serverbound);
    assert_eq!(b.entry.direction, PacketDirection::Clientbound);
    assert_eq!(
        vec![a.entry.packet_number, b.entry.packet_number, c.entry.packet_number],
        vec![Some(1), Some(2), Some(3)]
    );
    assert_eq!(s.logger().packet_count(), 3);
}

#[test]
fn datagram_from_upstream_without_sessions_is_dropped() {
    let mut proxy = ProxyServer::new(listen(), upstream());
    assert_eq!(proxy.listen_addr(), listen());
    assert_eq!(proxy.upstream_addr(), upstream());
    assert_eq!(proxy.handle_datagram(upstream(), &[1, 2, 3], 5), ProxyAction::Drop);
    assert_eq!(proxy.session_count(), 0);
}

#[test]
fn client_datagrams_create_and_reuse_sessions() {
    let mut proxy = ProxyServer::new(listen(), upstream());
    let first = proxy.handle_datagram(client(1), &[1, 2, 3], 5);
    assert_eq!(proxy.session_count(), 1);
    let id = proxy.session(0).unwrap().id();
    match first {
        ProxyAction::Forward { to, direction, session_id, new_session, ambiguous, logged } => {
            assert_eq!(to, upstream());
            assert_eq!(direction, PacketDirection::Serverbound);
            assert_eq!(session_id, id);
            assert!(new_session);
            assert!(!ambiguous);
            let logged = logged.unwrap();
            assert_eq!(logged.entry.packet_number, Some(1));
            assert_eq!(logged.entry.data, vec![1, 2, 3]);
            assert_eq!(logged.entry.timestamp, 5);
            assert_eq!(logged.entry.direction, PacketDirection::Serverbound);
        }
        other => panic!("unexpected {:?}", other),
    }
    let second = proxy.handle_datagram(client(1), &[4], 6);
    assert_eq!(proxy.session_count(), 1);
    match second {
        ProxyAction::Forward { session_id, new_session, logged, .. } => {
            assert_eq!(session_id, id);
            assert!(!new_session);
            assert_eq!(logged.unwrap().entry.packet_number, Some(2));
        }
        other => panic!("unexpected {:?}", other),
    }
    let other = proxy.handle_datagram(client(2), &[5], 7);
    assert_eq!(proxy.session_count(), 2);
    match other {
        ProxyAction::Forward { session_id, new_session, logged, .. } => {
            assert_ne!(session_id, id);
            assert!(new_session);
            assert_eq!(logged.unwrap().entry.packet_number, Some(1));
        }
        other => panic!("unexpected {:?}", other),
    }
    assert_eq!(proxy.session(1).unwrap().client_addr(), client(2));
    assert!(proxy.session(2).is_none());
}

#[test]
fn upstream_datagrams_go_to_the_first_session() {
    let mut proxy = ProxyServer::new(listen(), upstream());
    proxy.handle_datagram(client(1), &[1], 1);
    let back = proxy.handle_datagram(upstream(), &[9, 9], 2);
    let id = proxy.session(0).unwrap().id();
    match back {
        ProxyAction::Forward { to, direction, session_id, new_session, ambiguous, logged } => {
            assert_eq!(to, client(1));
            assert_eq!(direction, PacketDirection::Clientbound);
            assert_eq!(session_id, id);
            assert!(!new_session);
            assert!(!ambiguous);
            let logged = logged.unwrap();
            assert_eq!(logged.entry.packet_number, Some(2));
            assert_eq!(logged.entry.direction, PacketDirection::Clientbound);
            assert_eq!(logged.entry.data, vec![9, 9]);
        }
        other => panic!("unexpected {:?}", other),
    }
    proxy.handle_datagram(client(2), &[1], 3);
    match proxy.handle_datagram(upstream(), &[8], 4) {
        ProxyAction::Forward { to, ambiguous, session_id, .. } => {
            assert_eq!(to, client(1));
            assert_eq!(session_id, id);
            assert!(ambiguous);
        }
        other => panic!("unexpected {:?}", other),
    }
    assert_eq!(proxy.session(0).unwrap().logger().packet_count(), 3);
    assert_eq!(proxy.session(1).unwrap().logger().packet_count(), 1);
}

#[test]
fn routes() {
    let mut proxy = ProxyServer::new(listen(), upstream());
    assert_eq!(proxy.route(upstream()), Route::NoSession);
    assert_eq!(proxy.route(client(1)), Route::ToUpstream { session: 0, created: true });
    assert_eq!(proxy.route(client(1)), Route::ToUpstream { session: 0, created: false });
    assert_eq!(proxy.route(upstream()), Route::ToClient { session: 0, ambiguous: false });
    assert_eq!(proxy.route(client(2)), Route::ToUpstream { session: 1, created: true });
    assert_eq!(proxy.route(upstream()), Route::ToClient { session: 0, ambiguous: true });
    assert_eq!(proxy.find_session(client(2)), Some(1));
    assert_eq!(proxy.find_session(client(3)), None);
    let v6 = Endpoint::V6 { ip6: 1, port: 40001, flowinfo: 0, scope_id: 0 };
    assert_eq!(proxy.route(v6), Route::ToUpstream { session: 2, created: true });
}

#[test]
fn a_client_at_the_upstream_address_stays_a_client() {
    // The upstream address is known as a client once a session has it.
    let mut proxy = ProxyServer::new(listen(), upstream());
    proxy.handle_datagram(client(1), &[1], 1);
    assert_eq!(proxy.route(upstream()), Route::ToClient { session: 0, ambiguous: false });
    assert_eq!(proxy.session_count(), 1);
}

#[test]
fn direction_names_and_numbers() {
    assert_eq!(PacketDirection::Clientbound.name(), "clientbound");
    assert_eq!(PacketDirection::Serverbound.name(), "serverbound");
    assert_eq!(PacketDirection::Clientbound.to_index(), 0);
    assert_eq!(PacketDirection::Serverbound.to_index(), 1);
    assert_eq!(PacketDirection::from_index(0), Some(PacketDirection::Clientbound));
    assert_eq!(PacketDirection::from_index(1), Some(PacketDirection::Serverbound));
    assert_eq!(PacketDirection::from_index(2), None);
}

#[test]
fn session_time_is_never_negative() {
    assert_eq!(session_time_ms(1500, 1000), 500);
    assert_eq!(session_time_ms(1000, 1000), 0);
    assert_eq!(session_time_ms(999, 1000), 0);
    assert_eq!(session_time_ms(i64::MAX, -1), i64::MAX);
    assert_eq!(session_time_ms(i64::MAX, 0), i64::MAX);
    assert_eq!(session_time_ms(i64::MIN, i64::MAX), 0);
    assert_eq!(session_time_ms(0, i64::MIN), i64::MAX);
}
