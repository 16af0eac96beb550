use ostp::crypto::{NoiseRole, NoiseSession};
use ostp::crypto::reality::{
    build_client_hello, client_hello_with, derive_keys, generate_session_id, generate_x25519_keypair, parse_client_hello,
    session_id_at, verify_session_id, verify_session_id_at,
};
use ostp::framing::wss::{decode_wss_frame, encode_wss_frame, WssFrameResult};
use ostp::framing::{AdaptivePadder, PaddingStrategy};
use ostp::net::{ip_of, socket_of};

#[test]
fn a_hello_is_read_as_it_was_built() {
    let (_, public) = generate_x25519_keypair();
    let sid = [9u8; 32];
    let h = build_client_hello("www.example.com", &sid, &public);
    let p = parse_client_hello(&h).unwrap();
    assert_eq!(p.sni, "www.example.com");
    assert_eq!(p.session_id, sid);
    assert_eq!(p.c_pub, public);
    assert_eq!(&h[h.len() - 6..], &[0x14, 3, 3, 0, 1, 1]);
}

#[test]
fn a_hello_has_the_bytes_of_tls() {
    let h = client_hello_with("a", &[1; 32], &[2; 32], &[3; 32]);
    assert_eq!(&h[..5], &[0x16, 3, 1, 0, 188]);
    assert_eq!(&h[5..9], &[1, 0, 0, 184]);
    assert_eq!(&h[9..11], &[3, 3]);
    assert_eq!(&h[11..43], &[3; 32]);
    assert_eq!(h[43], 32);
    assert_eq!(&h[76..84], &[0, 6, 0x13, 1, 0x13, 3, 0x13, 2]);
    assert_eq!(h.len(), 5 + 188 + 6);
}

#[test]
fn other_bytes_are_no_hello() {
    assert!(parse_client_hello(&[]).is_none());
    assert!(parse_client_hello(&[0x16, 3, 1, 0, 4, 2, 0, 0, 0]).is_none());
    assert!(parse_client_hello(&[0x16, 3, 1, 0, 4, 1, 0, 0, 0]).is_none());
    let h = client_hello_with("a", &[1; 32], &[2; 32], &[3; 32]);
    for n in 0..193 {
        assert!(parse_client_hello(&h[..n]).is_none(), "{n}");
    }
}

#[test]
fn session_ids_carry_an_identity_and_a_time() {
    let (auth, data) = derive_keys(&[7u8; 32]);
    assert_ne!(auth, data);
    let sid = *b"client01";
    let id = session_id_at(&auth, &sid, 1_700_000_000);
    assert_eq!(verify_session_id_at(&auth, &id, 1_700_000_060), Some((sid, 1_700_000_000)));
    assert_eq!(verify_session_id_at(&auth, &id, 1_700_000_061), None, "too old");
    assert_eq!(verify_session_id_at(&auth, &id, 1_699_999_939), None, "too early");
    let (other, _) = derive_keys(&[8u8; 32]);
    assert_eq!(verify_session_id_at(&other, &id, 1_700_000_000), None);
    let fresh = generate_session_id(&auth, &sid);
    assert_eq!(verify_session_id(&auth, &fresh).unwrap().0, sid);
}

#[test]
fn frames_of_a_web_socket_round_trip() {
    for masked in [false, true] {
        for len in [0, 7, 125, 126, 65535, 65536] {
            let payload = vec![0x5a; len];
            let mut f = encode_wss_frame(&payload, masked);
            let whole = f.len();
            assert!(matches!(decode_wss_frame(&f[..whole - 1]), WssFrameResult::Incomplete));
            f.push(9);
            match decode_wss_frame(&f) {
                WssFrameResult::Frame { payload: read, total_len } => {
                    assert_eq!(read, payload);
                    assert_eq!(total_len, whole);
                }
                _ => panic!("expected a whole frame"),
            }
        }
    }
    assert_eq!(encode_wss_frame(b"ab", false), vec![0x82, 2, b'a', b'b']);
}

#[test]
fn padding_fills_the_packet_at_most() {
    let p = AdaptivePadder::new(1400, 64, PaddingStrategy::Adaptive);
    for n in 0..100 {
        assert!(p.build_padding(n).len() <= 64);
    }
    assert!(p.build_padding(1400).is_empty());
    assert!(AdaptivePadder::new(1400, 64, PaddingStrategy::Off).build_padding(5).is_empty());
}

#[test]
fn addresses_are_read_and_shown() {
    for s in ["1.2.3.4", "::", "::1", "2001:db8::1", "fe80::1:0:0:1", "::ffff:1.2.3.4"] {
        assert_eq!(ip_of(s).unwrap().text(), s);
    }
    assert!(ip_of("1.2.3").is_none() && ip_of("01.2.3.4").is_none() && ip_of(":::").is_none());
    assert_eq!(socket_of("[::1]:80").unwrap().text(), "[::1]:80");
    assert!(socket_of("1.2.3.4:99999").is_none());
}

#[test]
fn a_handshake_gives_both_ends_the_same_keys() {
    let psk = [7u8; 32];
    let mut a = NoiseSession::new(NoiseRole::Initiator, &psk).unwrap();
    let mut b = NoiseSession::new(NoiseRole::Responder, &psk).unwrap();
    let mut m = [0u8; 256];
    let mut out = [0u8; 256];
    let n = a.write_handshake(b"hello", &mut m).unwrap();
    assert_eq!(n, 5 + 48);
    let k = b.read_handshake(&m[..n], &mut out).unwrap();
    assert_eq!(&out[..k], b"hello");
    let n = b.write_handshake(b"", &mut m).unwrap();
    assert_eq!(n, 48);
    assert_eq!(a.read_handshake(&m[..n], &mut out).unwrap(), 0);

    let (mut ha, mut hb) = ([0u8; 32], [0u8; 32]);
    a.handshake_hash(&mut ha).unwrap();
    b.handshake_hash(&mut hb).unwrap();
    assert_eq!(ha, hb);
    assert!(a.handshake_hash(&mut [0u8; 16]).is_err());
    let (sa, ra) = a.raw_split(NoiseRole::Initiator).unwrap();
    let (sb, rb) = b.raw_split(NoiseRole::Responder).unwrap();
    assert_eq!((sa, ra), (rb, sb));
    assert_ne!(sa, ra);
    let mut a = a.into_transport().unwrap();
    assert!(a.handshake_hash(&mut ha).is_err());
    assert!(a.raw_split(NoiseRole::Initiator).is_err());
}

#[test]
fn another_key_reads_no_handshake() {
    let mut a = NoiseSession::new(NoiseRole::Initiator, &[7u8; 32]).unwrap();
    let mut b = NoiseSession::new(NoiseRole::Responder, &[8u8; 32]).unwrap();
    let mut m = [0u8; 256];
    let n = a.write_handshake(b"hello", &mut m).unwrap();
    assert!(b.read_handshake(&m[..n], &mut [0u8; 256]).is_err());
    assert!(b.write_handshake(b"", &mut m).is_err());
    assert!(a.write_handshake(b"again", &mut m).is_err());
    let unfinished = NoiseSession::new(NoiseRole::Initiator, &[7u8; 32]).unwrap();
    assert!(unfinished.into_transport().is_err());
}

#[test]
fn padding_has_the_length_that_was_drawn() {
    let p = AdaptivePadder::new(1400, 64, PaddingStrategy::Adaptive);
    assert_eq!(p.most_padding(5), 64);
    assert_eq!(p.most_padding(1350), 10);
    assert_eq!(p.most_padding(1360), 0);
    assert_eq!(p.padding_with(5, 40).len(), 40);
    assert_eq!(p.padding_with(5, 65).len(), 64);
    assert_ne!(p.padding_with(5, 40), p.padding_with(5, 40));
    assert_eq!(AdaptivePadder::new(1400, 64, PaddingStrategy::Off).most_padding(5), 0);
}
