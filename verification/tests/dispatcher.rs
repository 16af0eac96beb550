use ostp::crypto::obfuscation::derive_all_secrets;
use ostp::crypto::NoiseRole;
use ostp::framing::PaddingStrategy;
use ostp::net::{socket_of, SocketAddr};
use ostp::protocol::{OstpEvent, ProtocolAction, ProtocolConfig, ProtocolMachine};
use ostp::relay::RelayMessage;
use ostp::server::dispatcher::{DispatchOutcome, Dispatcher};
use ostp::server::hub::{create_client_key, Hub, Notice, ServerAction};
use ostp::server::startup::{is_essential, key_table, parse_bind_addrs, public_endpoint, server_protocol_config, BindError};
use ostp::server::streams::{StreamAction, StreamId, Streams};
use ostp::server::users::{key_fp, UserMeta, UserStats, Users};
use ostp::time::{unix_secs, Clock, Instant};

const KEY: &str = "roaming-test-key";
const SID: u32 = 0x1234_5678;

fn base_config(role: NoiseRole) -> ProtocolConfig {
    ProtocolConfig {
        role,
        psk: [0u8; 32],
        session_id: 0,
        handshake_payload: vec![],
        max_padding: 256,
        padding_strategy: PaddingStrategy::Adaptive,
        obfuscation_key: [0u8; 8],
        max_reorder: 16384,
        max_reorder_buffer: 8192,
        ack_delay_ms: 5,
        rto_ms: 100,
        max_retries: 8,
        max_sent_history: 32768,
        handshake_pad_min: 32,
        handshake_pad_max: 128,
        mtu: 1350,
    }
}

fn addr(s: &str) -> SocketAddr {
    socket_of(s).unwrap()
}

fn first_datagram(action: ProtocolAction) -> Vec<u8> {
    match action {
        ProtocolAction::SendDatagram(d) => d,
        ProtocolAction::Multiple(list) => list
            .into_iter()
            .find_map(|a| match a {
                ProtocolAction::SendDatagram(d) => Some(d),
                _ => None,
            })
            .expect("no datagram in actions"),
        _ => panic!("expected a datagram"),
    }
}

fn users(limit: Option<u64>) -> Users {
    Users::new(key_table(vec![(KEY.to_string(), UserMeta { name: None, limit_bytes: limit })]), unix_secs())
}

fn client() -> ProtocolMachine {
    let secrets = derive_all_secrets(KEY.as_bytes());
    let mut payload = unix_secs().to_be_bytes().to_vec();
    payload.extend_from_slice(&SID.to_be_bytes());
    payload.extend_from_slice(KEY.as_bytes());
    let mut cfg = base_config(NoiseRole::Initiator);
    cfg.session_id = SID;
    cfg.psk = secrets.psk;
    cfg.obfuscation_key = secrets.obfuscation_key;
    cfg.handshake_pad_min = secrets.handshake_pad_min;
    cfg.handshake_pad_max = secrets.handshake_pad_max;
    cfg.handshake_payload = payload;
    ProtocolMachine::new(cfg).unwrap()
}

fn dispatcher() -> Dispatcher {
    let clock = Clock::start();
    Dispatcher::new(base_config(NoiseRole::Responder), clock, clock.now())
}

fn established(home: SocketAddr) -> (Dispatcher, ProtocolMachine, Users) {
    let mut users = users(None);
    let mut dispatcher = dispatcher();
    let mut client = client();
    let msg1 = first_datagram(client.on_event(OstpEvent::Start).unwrap());
    let msg2 = match dispatcher.on_datagram(home, &msg1, &mut users) {
        DispatchOutcome::Accepted { mut responses, .. } => responses.remove(0),
        _ => panic!("handshake not accepted"),
    };
    client.on_event(OstpEvent::Inbound(msg2)).unwrap();
    (dispatcher, client, users)
}

fn send(client: &mut ProtocolMachine, data: &[u8]) -> Vec<u8> {
    first_datagram(client.on_event(OstpEvent::Outbound(1, data.to_vec())).unwrap())
}

fn reply_addr(outcome: DispatchOutcome) -> SocketAddr {
    match outcome {
        DispatchOutcome::Accepted { peer_addr, .. } => peer_addr,
        _ => panic!("packet not accepted"),
    }
}

#[test]
fn replayed_packet_from_another_address_does_not_move_the_session() {
    let home = addr("198.51.100.1:40000");
    let attacker = addr("203.0.113.9:5555");
    let (mut dispatcher, mut client, mut users) = established(home);

    let d1 = send(&mut client, b"one");
    assert_eq!(reply_addr(dispatcher.on_datagram(home, &d1, &mut users)), home);

    let outcome = dispatcher.on_datagram(attacker, &d1, &mut users);
    assert_eq!(reply_addr(outcome), home, "replies must stay on the session's address");
    assert_eq!(dispatcher.session_address(SID), Some(home));
    assert_eq!(dispatcher.session_at(attacker), None);
}

#[test]
fn replay_of_a_buffered_out_of_order_packet_does_not_move_the_session() {
    let home = addr("198.51.100.1:40000");
    let attacker = addr("203.0.113.9:5555");
    let (mut dispatcher, mut client, mut users) = established(home);

    let _lost = send(&mut client, b"one");
    let d2 = send(&mut client, b"two");
    let d3 = send(&mut client, b"three");
    dispatcher.on_datagram(home, &d2, &mut users);
    dispatcher.on_datagram(home, &d3, &mut users);

    dispatcher.on_datagram(attacker, &d2, &mut users);
    assert_eq!(dispatcher.session_address(SID), Some(home));
}

#[test]
fn garbage_with_a_valid_header_does_not_move_the_session() {
    let home = addr("198.51.100.1:40000");
    let attacker = addr("203.0.113.9:5555");
    let (mut dispatcher, mut client, mut users) = established(home);

    let mut forged = send(&mut client, b"one");
    let last = forged.len() - 1;
    forged[last] ^= 0xff;
    assert!(matches!(dispatcher.on_datagram(attacker, &forged, &mut users), DispatchOutcome::Unauthorized));
    assert_eq!(dispatcher.session_address(SID), Some(home));
}

#[test]
fn a_new_packet_from_a_new_address_roams() {
    let home = addr("198.51.100.1:40000");
    let roamed = addr("192.0.2.77:61000");
    let (mut dispatcher, mut client, mut users) = established(home);

    let d1 = send(&mut client, b"one");
    dispatcher.on_datagram(home, &d1, &mut users);

    let d2 = send(&mut client, b"two");
    assert_eq!(reply_addr(dispatcher.on_datagram(roamed, &d2, &mut users)), roamed);
    assert_eq!(dispatcher.session_address(SID), Some(roamed));
    assert_eq!(dispatcher.session_at(roamed), Some(SID));
    assert_eq!(dispatcher.session_at(home), None);
}

#[test]
fn payloads_reach_the_streams() {
    let home = addr("198.51.100.1:40000");
    let (mut dispatcher, mut client, mut users) = established(home);
    let d = send(&mut client, b"payload");
    match dispatcher.on_datagram(home, &d, &mut users) {
        DispatchOutcome::Accepted { app_payloads, .. } => assert_eq!(app_payloads, vec![(SID, 1, b"payload".to_vec())]),
        _ => panic!("packet not accepted"),
    }
    assert_eq!(dispatcher.active_sessions(), 1);
    dispatcher.drop_session(SID);
    assert_eq!(dispatcher.active_sessions(), 0);
}

#[test]
fn users_over_their_limit_get_no_session() {
    let mut users = users(Some(0));
    let mut dispatcher = dispatcher();
    let mut client = client();
    let msg1 = first_datagram(client.on_event(OstpEvent::Start).unwrap());
    assert!(!matches!(
        dispatcher.on_datagram(addr("198.51.100.1:40000"), &msg1, &mut users),
        DispatchOutcome::Accepted { .. }
    ));
    assert_eq!(dispatcher.active_sessions(), 0);
}

#[test]
fn a_replayed_handshake_is_refused() {
    let home = addr("198.51.100.1:40000");
    let mut users = users(None);
    let mut dispatcher = dispatcher();
    let mut client = client();
    let msg1 = first_datagram(client.on_event(OstpEvent::Start).unwrap());
    assert!(matches!(dispatcher.on_datagram(home, &msg1, &mut users), DispatchOutcome::Accepted { .. }));
    dispatcher.drop_session(SID);
    assert!(!matches!(dispatcher.on_datagram(home, &msg1, &mut users), DispatchOutcome::Accepted { .. }));
    assert_eq!(dispatcher.active_sessions(), 0);
}

#[test]
fn strangers_are_noise() {
    let mut users = users(None);
    let mut dispatcher = dispatcher();
    let outcome = dispatcher.on_datagram(addr("203.0.113.9:5555"), &[7u8; 200], &mut users);
    assert!(matches!(outcome, DispatchOutcome::Unauthorized));
    let mut hub = Hub::new(Instant { nanos: 0 });
    let (actions, payloads) = hub.on_outcome(outcome, addr("203.0.113.9:5555"), 200, Instant { nanos: 1 });
    assert!(payloads.is_empty());
    assert!(matches!(actions[0], ServerAction::Tell(Notice::UnauthorizedProbe { bytes: 200, .. })));
}

#[test]
fn limits_count_both_directions() {
    let mut u = users(Some(100));
    let key = KEY.to_string();
    u.track_up(&key, 60, 0);
    assert!(!u.get_or_create(&key, 0).is_over_limit());
    u.track_down(&key, 40, 0);
    assert!(u.get_or_create(&key, 0).is_over_limit());
    u.set_user_limit(&key, None, 0);
    assert!(!u.get_or_create(&key, 0).is_over_limit());
    assert!(!UserStats::new(None, 0).is_over_limit());
    assert!(u.knows(&key) && !u.knows(&"other".to_string()));
}

#[test]
fn reloading_keeps_what_was_counted() {
    let mut u = users(Some(100));
    let key = KEY.to_string();
    u.track_up(&key, 60, 0);
    u.reload(vec![(KEY.to_string(), UserMeta { name: None, limit_bytes: Some(50) })], 5);
    let s = u.get_or_create(&key, 5);
    assert_eq!(s.bytes_up, 60);
    assert_eq!(s.limit_bytes, Some(50));
    u.reload(vec![], 6);
    assert!(!u.knows(&key));
}

#[test]
fn prints_of_keys_are_short_and_stable() {
    assert_eq!(key_fp(""), "e3b0c4");
    assert_eq!(key_fp(KEY).len(), 6);
    let mut u = users(None);
    let k = create_client_key(&mut u, 3);
    assert!(u.knows(&k));
    assert_eq!(k, "ostp_key_3");
}

#[test]
fn streams_are_opened_fed_and_closed() {
    let mut s = Streams::new();
    let id = StreamId { session: 1, stream: 2 };
    match s.on_message(id, RelayMessage::Connect("example.com:443".to_string()), false) {
        StreamAction::Connect(t) => assert_eq!(t, "example.com:443"),
        _ => panic!("expected a connection"),
    }
    assert!(matches!(s.on_message(id, RelayMessage::Data(vec![1]), false), StreamAction::UnknownStream));
    assert!(matches!(s.on_connected(id, Ok(())), RelayMessage::ConnectOk));
    assert!(matches!(s.on_message(id, RelayMessage::Data(vec![1, 2]), false), StreamAction::Write(ref d) if *d == vec![1, 2]));
    assert!(matches!(s.on_message(id, RelayMessage::Ping(9), false), StreamAction::Reply(RelayMessage::Pong(9))));
    assert!(matches!(s.on_message(id, RelayMessage::Close, false), StreamAction::Cancel));
    assert!(matches!(s.on_connected(id, Err("refused".to_string())), RelayMessage::Error(_)));
}

#[test]
fn servers_start_with_addresses_they_understand() {
    assert_eq!(server_protocol_config().mtu, 1350);
    assert_eq!(server_protocol_config().psk, [0u8; 32]);
    assert_eq!(server_protocol_config().obfuscation_key, [0u8; 8]);
    assert_eq!(parse_bind_addrs(&vec!["0.0.0.0:50000".to_string()]).unwrap(), vec![addr("0.0.0.0:50000")]);
    assert_eq!(parse_bind_addrs(&vec![]).unwrap_err(), BindError::Empty);
    assert_eq!(parse_bind_addrs(&vec!["1.2.3.4:5".to_string(), "x".to_string()]).unwrap_err(), BindError::Invalid(1));
    assert_eq!(public_endpoint("0.0.0.0:50000", Some("vpn.example".to_string())), ("vpn.example".to_string(), 50000));
    assert_eq!(public_endpoint("[::]:443", None), ("[::]".to_string(), 443));
    assert!(is_essential("Client 1.2.3.4 connected") && !is_essential("Something else"));
}

#[test]
fn users_are_shown_with_what_they_used() {
    let home = addr("198.51.100.1:40000");
    let (mut dispatcher, mut client, mut users) = established(home);
    let d = send(&mut client, b"one");
    dispatcher.on_datagram(home, &d, &mut users);
    let now = Instant { nanos: u64::MAX };
    let shown = dispatcher.snapshot_all_users(&users, now, 5);
    assert_eq!(shown.len(), 1);
    assert_eq!(shown[0].access_key, KEY);
    assert_eq!(shown[0].bytes_up, d.len() as u64);
    assert_eq!(shown[0].connections, 1);
    assert!(shown[0].online);
    assert_eq!(shown[0].last_seen, Some(0));
    dispatcher.drop_session(SID);
    let shown = dispatcher.snapshot_all_users(&users, now, 5);
    assert!(!shown[0].online && shown[0].last_seen.is_none());
}

#[test]
fn sessions_have_room_for_packets() {
    let (mut dispatcher, _, mut users) = established(addr("198.51.100.1:40000"));
    let room = dispatcher.snapshot_backpressure();
    assert_eq!(room.len(), 1);
    assert_eq!(room[0].0, SID);
    assert_eq!(room[0].1, 16);
    let now = Instant { nanos: u64::MAX };
    for sent in 1..=20i64 {
        dispatcher.outbound_to_session(SID, 1, vec![0u8; 1000], &mut users, now, 5).unwrap().unwrap();
        assert_eq!(dispatcher.snapshot_backpressure(), vec![(SID, 16 - sent)]);
    }
}
