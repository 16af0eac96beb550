use ostp::crypto::obfuscation::{
    current_junk_window, deobfuscate_packet_inplace, derive_all_secrets, derive_junk_marker, derive_obfuscation_key, derive_psk,
    obfuscate_packet_inplace,
};

#[test]
fn test_derive_deterministic() {
    let key = b"test_access_key_12345";
    let s1 = derive_all_secrets(key);
    let s2 = derive_all_secrets(key);

    assert_eq!(s1.obfuscation_key, s2.obfuscation_key, "obf_key must be deterministic");
    assert_eq!(s1.psk, s2.psk, "psk must be deterministic");
    assert_eq!(s1.handshake_pad_min, s2.handshake_pad_min, "pad_min must be deterministic");
    assert_eq!(s1.handshake_pad_max, s2.handshake_pad_max, "pad_max must be deterministic");
}

#[test]
fn test_derive_different_keys() {
    let s1 = derive_all_secrets(b"key_alpha");
    let s2 = derive_all_secrets(b"key_beta");

    assert_ne!(s1.obfuscation_key, s2.obfuscation_key);
    assert_ne!(s1.psk, s2.psk);
}

#[test]
fn test_legacy_api_consistency() {
    let key = b"consistency_check_key";
    let secrets = derive_all_secrets(key);
    assert_eq!(secrets.obfuscation_key, derive_obfuscation_key(key));
    assert_eq!(secrets.psk, derive_psk(key));
}

#[test]
fn test_padding_range_valid() {
    for i in 0..100 {
        let key = format!("test_key_{}", i);
        let s = derive_all_secrets(key.as_bytes());
        assert!(s.handshake_pad_min >= 16, "pad_min must be >= 16, got {}", s.handshake_pad_min);
        assert!(s.handshake_pad_min < 80, "pad_min must be < 80, got {}", s.handshake_pad_min);
        assert!(s.handshake_pad_max > s.handshake_pad_min, "pad_max must be > pad_min");
        assert!(
            s.handshake_pad_max <= s.handshake_pad_min + 175,
            "pad_max out of range: {} > {} + 175",
            s.handshake_pad_max,
            s.handshake_pad_min
        );
    }
}

#[test]
fn test_handshake_obfuscation_roundtrip() {
    let access_key = b"my_real_access_key_v2";
    let secrets = derive_all_secrets(access_key);

    let session_id: u32 = 0xDEADBEEF;
    let fake_noise_payload = [0x42u8; 48];
    let noise_len = fake_noise_payload.len() as u16;

    let mut packet = Vec::new();
    packet.extend_from_slice(&session_id.to_be_bytes());
    packet.extend_from_slice(&noise_len.to_be_bytes());
    packet.extend_from_slice(&fake_noise_payload);
    packet.extend_from_slice(&[0xAA; 64]);

    obfuscate_packet_inplace(&mut packet, &secrets.obfuscation_key, true);

    let masked_sid = u32::from_be_bytes([packet[0], packet[1], packet[2], packet[3]]);
    assert_ne!(masked_sid, session_id, "session_id must be masked on wire");

    deobfuscate_packet_inplace(&mut packet, &secrets.obfuscation_key, true);

    let recovered_sid = u32::from_be_bytes([packet[0], packet[1], packet[2], packet[3]]);
    assert_eq!(recovered_sid, session_id, "session_id must be recovered after deobfuscation");

    let recovered_noise_len = u16::from_be_bytes([packet[4], packet[5]]);
    assert_eq!(recovered_noise_len, noise_len, "noise_len must be recovered");

    assert_eq!(
        &packet[6..6 + noise_len as usize],
        &fake_noise_payload,
        "noise payload must be intact after round-trip"
    );
}

#[test]
fn test_wrong_key_produces_garbage() {
    let correct_key = b"correct_key";
    let wrong_key = b"wrong_key";

    let correct_secrets = derive_all_secrets(correct_key);
    let wrong_secrets = derive_all_secrets(wrong_key);

    let session_id: u32 = 0x12345678;
    let fake_noise = [0x55u8; 48];

    let mut packet = Vec::new();
    packet.extend_from_slice(&session_id.to_be_bytes());
    packet.extend_from_slice(&(48u16).to_be_bytes());
    packet.extend_from_slice(&fake_noise);
    packet.extend_from_slice(&[0x00; 32]);

    obfuscate_packet_inplace(&mut packet, &correct_secrets.obfuscation_key, true);

    let mut wrong_trial = packet.clone();
    deobfuscate_packet_inplace(&mut wrong_trial, &wrong_secrets.obfuscation_key, true);
    let wrong_sid = u32::from_be_bytes([wrong_trial[0], wrong_trial[1], wrong_trial[2], wrong_trial[3]]);

    assert_ne!(wrong_sid, session_id, "wrong key must NOT recover session_id");

    deobfuscate_packet_inplace(&mut packet, &correct_secrets.obfuscation_key, true);
    let correct_sid = u32::from_be_bytes([packet[0], packet[1], packet[2], packet[3]]);
    assert_eq!(correct_sid, session_id, "correct key must recover session_id");
}

#[test]
fn test_data_packet_obfuscation_roundtrip() {
    let secrets = derive_all_secrets(b"data_test_key");

    let session_id: u32 = 0xCAFEBABE;
    let nonce: u64 = 42;
    let ciphertext = [0x77u8; 64];

    let mut packet = Vec::new();
    packet.extend_from_slice(&session_id.to_be_bytes());
    packet.extend_from_slice(&nonce.to_be_bytes());
    packet.extend_from_slice(&ciphertext);

    obfuscate_packet_inplace(&mut packet, &secrets.obfuscation_key, false);

    let masked_sid = u32::from_be_bytes([packet[0], packet[1], packet[2], packet[3]]);
    assert_ne!(masked_sid, session_id);

    deobfuscate_packet_inplace(&mut packet, &secrets.obfuscation_key, false);

    let recovered_sid = u32::from_be_bytes([packet[0], packet[1], packet[2], packet[3]]);
    let recovered_nonce = u64::from_be_bytes([
        packet[4], packet[5], packet[6], packet[7], packet[8], packet[9], packet[10], packet[11],
    ]);

    assert_eq!(recovered_sid, session_id);
    assert_eq!(recovered_nonce, nonce);
    assert_eq!(&packet[12..], &ciphertext);
}

#[test]
fn junk_markers_belong_to_a_key_and_a_window() {
    let w = current_junk_window();
    assert_eq!(derive_junk_marker(b"key", w), derive_junk_marker(b"key", w));
    assert_ne!(derive_junk_marker(b"key", w), derive_junk_marker(b"key", w + 1));
    assert_ne!(derive_junk_marker(b"key", w), derive_junk_marker(b"yek", w));
}

#[test]
fn short_packets_are_left_alone() {
    let secrets = derive_all_secrets(b"k");
    let mut packet = vec![1u8, 2, 3];
    obfuscate_packet_inplace(&mut packet, &secrets.obfuscation_key, true);
    deobfuscate_packet_inplace(&mut packet, &secrets.obfuscation_key, true);
    assert_eq!(packet, vec![1u8, 2, 3]);
}

#[test]
fn a_header_without_payload_comes_back() {
    let key = derive_obfuscation_key(b"key");
    let header: Vec<u8> = (0..12).collect();
    let mut packet = header.clone();
    obfuscate_packet_inplace(&mut packet, &key, false);
    assert_ne!(packet, header);
    deobfuscate_packet_inplace(&mut packet, &key, false);
    assert_eq!(packet, header);
    let mut short = vec![1u8; 11];
    obfuscate_packet_inplace(&mut short, &key, false);
    assert_eq!(short, vec![1u8; 11]);
}
