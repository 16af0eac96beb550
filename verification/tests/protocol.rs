use ostp::crypto::obfuscation::obfuscate_packet_inplace;
use ostp::crypto::NoiseRole;
use ostp::framing::PaddingStrategy;
use ostp::protocol::session::GAP_RECOVERY_MAX_NANOS;
use ostp::protocol::{OstpEvent, OstpState, ProtocolAction, ProtocolConfig, ProtocolError, ProtocolMachine};
use ostp::time::{Clock, Duration, Instant};

fn make_config(role: NoiseRole) -> ProtocolConfig {
    ProtocolConfig {
        role,
        psk: [7u8; 32],
        session_id: 1,
        handshake_payload: vec![],
        max_padding: 64,
        padding_strategy: PaddingStrategy::Adaptive,
        obfuscation_key: [0u8; 8],
        max_reorder: 128,
        max_reorder_buffer: 256,
        ack_delay_ms: 5,
        rto_ms: 100,
        max_retries: 4,
        max_sent_history: 1024,
        handshake_pad_min: 8,
        handshake_pad_max: 32,
        mtu: 1400,
    }
}

fn t0() -> Instant {
    Instant { nanos: 10_000_000_000 }
}

fn do_handshake() -> (ProtocolMachine, ProtocolMachine) {
    let clock = Clock::start();
    let mut client = ProtocolMachine::new_at(make_config(NoiseRole::Initiator), clock, t0()).unwrap();
    let mut server = ProtocolMachine::new_at(make_config(NoiseRole::Responder), clock, t0()).unwrap();

    let msg1 = match client.on_event_at(OstpEvent::Start, t0()).unwrap() {
        ProtocolAction::SendDatagram(d) => d,
        _ => panic!("expected SendDatagram from client Start"),
    };
    assert_eq!(client.state(), OstpState::Handshaking);

    assert!(matches!(server.on_event_at(OstpEvent::Start, t0()).unwrap(), ProtocolAction::Noop));
    let msg2 = match server.on_event_at(OstpEvent::Inbound(msg1), t0()).unwrap() {
        ProtocolAction::Multiple(actions) => actions
            .into_iter()
            .find_map(|a| match a {
                ProtocolAction::SendDatagram(d) => Some(d),
                _ => None,
            })
            .expect("server should send datagram in handshake response"),
        ProtocolAction::SendDatagram(d) => d,
        ProtocolAction::HandshakePayload(_, Some(d)) => d,
        _ => panic!("unexpected server response"),
    };

    let _ = client.on_event_at(OstpEvent::Inbound(msg2), t0()).unwrap();
    assert_eq!(client.state(), OstpState::Established);
    assert_eq!(server.state(), OstpState::Established);
    (client, server)
}

fn count_datagrams(action: &ProtocolAction) -> usize {
    match action {
        ProtocolAction::SendDatagram(_) => 1,
        ProtocolAction::Multiple(list) => list.iter().map(count_datagrams).sum(),
        _ => 0,
    }
}

fn delivered_payloads(action: &ProtocolAction) -> Vec<Vec<u8>> {
    match action {
        ProtocolAction::DeliverApp(_, data) => vec![data.clone()],
        ProtocolAction::Multiple(list) => list.iter().flat_map(delivered_payloads).collect(),
        _ => Vec::new(),
    }
}

fn delivers(action: &ProtocolAction, stream: u16, payload: &[u8]) -> bool {
    match action {
        ProtocolAction::DeliverApp(s, d) => *s == stream && d == payload,
        ProtocolAction::Multiple(list) => list.iter().any(|a| delivers(a, stream, payload)),
        _ => false,
    }
}

fn make_data_frames(client: &mut ProtocolMachine, count: u8) -> Vec<Vec<u8>> {
    (0..count)
        .map(|i| match client.on_event_at(OstpEvent::Outbound(1, vec![i; 32]), t0()).unwrap() {
            ProtocolAction::SendDatagram(d) => d,
            _ => panic!("expected SendDatagram for frame {i}"),
        })
        .collect()
}

#[test]
fn test_full_handshake() {
    let (client, server) = do_handshake();
    assert_eq!(client.state(), OstpState::Established);
    assert_eq!(server.state(), OstpState::Established);
}

#[test]
fn test_data_exchange_client_to_server() {
    let (mut client, mut server) = do_handshake();
    let datagram = match client.on_event(OstpEvent::Outbound(1, b"hello from client".to_vec())).unwrap() {
        ProtocolAction::SendDatagram(d) => d,
        _ => panic!("expected SendDatagram"),
    };
    let action = server.on_event(OstpEvent::Inbound(datagram)).unwrap();
    assert!(delivers(&action, 1, b"hello from client"));
}

#[test]
fn test_data_exchange_server_to_client() {
    let (mut client, mut server) = do_handshake();
    let datagram = match server.on_event(OstpEvent::Outbound(2, b"hello from server".to_vec())).unwrap() {
        ProtocolAction::SendDatagram(d) => d,
        _ => panic!("expected SendDatagram"),
    };
    let action = client.on_event(OstpEvent::Inbound(datagram)).unwrap();
    assert!(delivers(&action, 2, b"hello from server"));
}

#[test]
fn test_close_sequence() {
    let (mut client, mut server) = do_handshake();
    let close_datagram = match client.on_event(OstpEvent::Close).unwrap() {
        ProtocolAction::SendDatagram(d) => d,
        _ => panic!("expected SendDatagram for Close"),
    };
    assert_eq!(client.state(), OstpState::Closing);
    let _action = server.on_event(OstpEvent::Inbound(close_datagram)).unwrap();
    assert_eq!(server.state(), OstpState::Closed);
}

#[test]
fn test_wrong_psk_handshake_fails() {
    let mut client = ProtocolMachine::new(make_config(NoiseRole::Initiator)).unwrap();
    let mut bad_psk_config = make_config(NoiseRole::Responder);
    bad_psk_config.psk = [0xFF; 32];
    let mut server = ProtocolMachine::new(bad_psk_config).unwrap();
    let msg1 = match client.on_event(OstpEvent::Start).unwrap() {
        ProtocolAction::SendDatagram(d) => d,
        _ => panic!("expected SendDatagram"),
    };
    let _ = server.on_event(OstpEvent::Start).unwrap();
    let result = server.on_event(OstpEvent::Inbound(msg1));
    assert!(result.is_err() || server.state() != OstpState::Established);
}

#[test]
fn test_congestion_controller_after_handshake() {
    let (client, _server) = do_handshake();
    let budget = client.retransmit_budget();
    assert!(budget >= 2, "initial retransmit budget should be >= 2, got {}", budget);
}

#[test]
fn test_multiple_data_frames() {
    let (mut client, mut server) = do_handshake();
    for i in 0..10u8 {
        let datagram = match client.on_event(OstpEvent::Outbound(1, vec![i; 100])).unwrap() {
            ProtocolAction::SendDatagram(d) => d,
            _ => panic!("expected SendDatagram for frame {}", i),
        };
        let action = server.on_event(OstpEvent::Inbound(datagram)).unwrap();
        let found = delivered_payloads(&action).iter().any(|d| d.len() == 100 && d[0] == i);
        assert!(found, "frame {} not delivered", i);
    }
    assert!(client.in_flight_count() > 0, "should have in-flight frames");
}

#[test]
fn test_tick_no_crash() {
    let (mut client, mut server) = do_handshake();
    let _ = client.on_event(OstpEvent::Tick).unwrap();
    let _ = server.on_event(OstpEvent::Tick).unwrap();
}

#[test]
fn test_retransmit_budget_charges_retries_only_for_frames_actually_sent() {
    let (mut client, _server) = do_handshake();
    const FRAMES: usize = 40;
    for i in 0..FRAMES {
        client.on_event_at(OstpEvent::Outbound(1, vec![i as u8; 200]), t0()).unwrap();
    }
    assert_eq!(client.in_flight_count(), FRAMES);
    assert_eq!(client.total_retries(), 0, "nothing retransmitted yet");

    let later = t0().plus(Duration::from_millis(150));
    let sent = count_datagrams(&client.on_event_at(OstpEvent::Tick, later).unwrap());

    assert!(sent > 0, "expected some retransmits after the RTO lapsed");
    assert!(sent < FRAMES, "budget should have capped this tick below the {FRAMES} due frames, got {sent}");
    assert_eq!(client.total_retries(), sent as u64);
    assert_eq!(client.in_flight_count(), FRAMES, "nothing was acked, so no frame may be evicted yet");
}

#[test]
fn test_gap_recovery_releases_permanently_stalled_frames() {
    let (mut client, mut server) = do_handshake();
    let frames = make_data_frames(&mut client, 4);

    let action = server.on_event_at(OstpEvent::Inbound(frames[0].clone()), t0()).unwrap();
    assert_eq!(delivered_payloads(&action).len(), 1, "in-order frame should deliver");

    for idx in [2usize, 3] {
        let action = server.on_event_at(OstpEvent::Inbound(frames[idx].clone()), t0()).unwrap();
        assert!(delivered_payloads(&action).is_empty(), "frame {idx} must stay buffered behind the missing frame");
    }

    let later = t0().plus(Duration::from_nanos(GAP_RECOVERY_MAX_NANOS)).plus(Duration::from_secs(1));
    let action = server.on_event_at(OstpEvent::Inbound(frames[0].clone()), later).unwrap();
    let delivered = delivered_payloads(&action);
    assert_eq!(delivered.len(), 2, "both buffered frames must be released once the gap is declared unrecoverable");
    assert_eq!(delivered[0][0], 2);
    assert_eq!(delivered[1][0], 3);
}

#[test]
fn recovery_delivers_also_behind_a_forged_packet() {
    let (mut client, mut server) = do_handshake();
    let frames = make_data_frames(&mut client, 5);
    for idx in [0usize, 2, 3] {
        server.on_event_at(OstpEvent::Inbound(frames[idx].clone()), t0()).unwrap();
    }
    let mut forged = frames[4].clone();
    let last = forged.len() - 1;
    forged[last] ^= 1;
    let later = t0().plus(Duration::from_nanos(GAP_RECOVERY_MAX_NANOS)).plus(Duration::from_secs(1));
    let action = server.on_event_at(OstpEvent::Inbound(forged.clone()), later).unwrap();
    let delivered = delivered_payloads(&action);
    assert_eq!(delivered.len(), 2, "what waited is not lost with the packet that was refused");
    assert_eq!((delivered[0][0], delivered[1][0]), (2, 3));
    assert!(matches!(server.on_event_at(OstpEvent::Inbound(forged), later), Err(ProtocolError::Crypto(_))));
    let action = server.on_event_at(OstpEvent::Inbound(frames[4].clone()), later).unwrap();
    assert_eq!(delivered_payloads(&action)[0][0], 4);
}

#[test]
fn test_gap_recovery_does_not_fire_before_timeout() {
    let (mut client, mut server) = do_handshake();
    let frames = make_data_frames(&mut client, 3);

    server.on_event_at(OstpEvent::Inbound(frames[0].clone()), t0()).unwrap();
    let action = server.on_event_at(OstpEvent::Inbound(frames[2].clone()), t0()).unwrap();
    assert!(delivered_payloads(&action).is_empty());

    let action = server.on_event_at(OstpEvent::Inbound(frames[0].clone()), t0()).unwrap();
    assert!(delivered_payloads(&action).is_empty(), "must keep waiting while retransmission is still plausible");

    let action = server.on_event_at(OstpEvent::Inbound(frames[1].clone()), t0()).unwrap();
    let delivered = delivered_payloads(&action);
    assert_eq!(delivered.len(), 2, "late frame plus the buffered one");
    assert_eq!(delivered[0][0], 1);
    assert_eq!(delivered[1][0], 2);
}

#[test]
fn a_replayed_packet_is_not_delivered() {
    let (mut client, mut server) = do_handshake();
    let frames = make_data_frames(&mut client, 1);
    let first = server.on_event_at(OstpEvent::Inbound(frames[0].clone()), t0()).unwrap();
    assert_eq!(delivered_payloads(&first).len(), 1);
    let again = server.on_event_at(OstpEvent::Inbound(frames[0].clone()), t0()).unwrap();
    assert!(delivered_payloads(&again).is_empty());
}

#[test]
fn a_forged_packet_changes_nothing() {
    let (mut client, mut server) = do_handshake();
    let frames = make_data_frames(&mut client, 1);
    let mut forged = frames[0].clone();
    let last = forged.len() - 1;
    forged[last] ^= 1;
    let before = server.highest_authenticated_recv_nonce();
    let _ = server.on_event_at(OstpEvent::Inbound(forged), t0());
    assert_eq!(server.highest_authenticated_recv_nonce(), before);
    let action = server.on_event_at(OstpEvent::Inbound(frames[0].clone()), t0()).unwrap();
    assert_eq!(delivered_payloads(&action).len(), 1);
}

#[test]
fn acknowledgements_empty_the_history() {
    let (mut client, mut server) = do_handshake();
    let frames = make_data_frames(&mut client, 3);
    assert_eq!(client.in_flight_count(), 3);
    for f in &frames {
        server.on_event_at(OstpEvent::Inbound(f.clone()), t0()).unwrap();
    }
    let later = t0().plus(Duration::from_millis(20));
    let ack = match server.on_event_at(OstpEvent::Tick, later).unwrap() {
        ProtocolAction::SendDatagram(d) => d,
        ProtocolAction::Multiple(list) => list
            .into_iter()
            .find_map(|a| match a {
                ProtocolAction::SendDatagram(d) => Some(d),
                _ => None,
            })
            .expect("an acknowledgement"),
        _ => panic!("expected an acknowledgement"),
    };
    client.on_event_at(OstpEvent::Inbound(ack), later).unwrap();
    assert_eq!(client.in_flight_count(), 0);
}

#[test]
fn a_closing_end_hears_the_rest() {
    let (mut client, mut server) = do_handshake();
    client.on_event_at(OstpEvent::Close, t0()).unwrap();
    assert_eq!(client.state(), OstpState::Closing);
    let data = match server.on_event_at(OstpEvent::Outbound(2, b"last words".to_vec()), t0()).unwrap() {
        ProtocolAction::SendDatagram(d) => d,
        _ => panic!("expected SendDatagram"),
    };
    let action = client.on_event_at(OstpEvent::Inbound(data), t0()).unwrap();
    assert!(delivers(&action, 2, b"last words"));
    assert_eq!(client.state(), OstpState::Closing);

    let close = match server.on_event_at(OstpEvent::Close, t0()).unwrap() {
        ProtocolAction::SendDatagram(d) => d,
        _ => panic!("expected SendDatagram for Close"),
    };
    client.on_event_at(OstpEvent::Inbound(close), t0()).unwrap();
    assert_eq!(client.state(), OstpState::Closed);
}

#[test]
fn refused_greetings_say_what_is_wrong() {
    let mut server = ProtocolMachine::new(make_config(NoiseRole::Responder)).unwrap();
    server.on_event(OstpEvent::Start).unwrap();
    let mut short = vec![0, 0, 0, 1, 0, 48];
    short.extend([9u8; 20]);
    obfuscate_packet_inplace(&mut short, &[0u8; 8], true);
    match server.on_event(OstpEvent::Inbound(short)) {
        Err(ProtocolError::Framing(e)) => assert_eq!(e, "handshake truncated: expected 48 noise bytes, got 20"),
        _ => panic!("expected a framing error"),
    }

    let mut forged = vec![0, 0, 0, 1, 0, 48];
    forged.extend([9u8; 50]);
    obfuscate_packet_inplace(&mut forged, &[0u8; 8], true);
    match server.on_event(OstpEvent::Inbound(forged)) {
        Err(ProtocolError::Crypto(e)) => assert_eq!(e, "noise-read: Crypto(\"noise-read\") (raw_len=56, noise_len=48)"),
        _ => panic!("expected a cryptographic error"),
    }
}

#[test]
fn requests_for_missing_packets_keep_their_distance() {
    let (mut client, mut server) = do_handshake();
    let frames = make_data_frames(&mut client, 203);
    let far = |server: &mut ProtocolMachine, i: usize, ms: u64| {
        let at = t0().plus(Duration::from_millis(ms));
        count_datagrams(&server.on_event_at(OstpEvent::Inbound(frames[i].clone()), at).unwrap())
    };
    assert_eq!(far(&mut server, 200, 0), 1);
    assert_eq!(far(&mut server, 201, 20), 0, "another request would be too soon");
    assert_eq!(far(&mut server, 202, 31), 1);
}

#[test]
fn a_tick_sends_the_oldest_again_in_order() {
    let (mut client, _) = do_handshake();
    let frames = make_data_frames(&mut client, 100);
    let budget = client.retransmit_budget();
    assert!(budget < 100);
    let later = t0().plus(Duration::from_secs(10));
    let out = match client.on_event_at(OstpEvent::Tick, later).unwrap() {
        ProtocolAction::Multiple(list) => list,
        _ => panic!("expected several packets"),
    };
    assert_eq!(out.len(), budget);
    for (a, frame) in out.iter().zip(&frames) {
        assert!(matches!(a, ProtocolAction::SendDatagram(d) if d == frame));
    }
    assert_eq!(client.total_retries(), budget as u64);
    let again = match client.on_event_at(OstpEvent::Tick, later).unwrap() {
        ProtocolAction::Multiple(list) => list,
        _ => panic!("expected several packets"),
    };
    assert!(matches!(&again[0], ProtocolAction::SendDatagram(d) if *d == frames[budget]));
}
