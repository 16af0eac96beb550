use hmac::{Hmac, Mac};
use ostp::resumption::{SessionTicket, TicketValidator};

#[test]
fn test_ticket_serialize_roundtrip() {
    let psk = [42u8; 32];
    let key = [1u8; 32];
    let ticket = SessionTicket::new(12345, &key, &psk);

    let bytes = ticket.to_bytes();
    let restored = SessionTicket::from_bytes(&bytes).unwrap();

    assert_eq!(ticket.ticket_id, restored.ticket_id);
    assert_eq!(ticket.session_id, restored.session_id);
    assert_eq!(ticket.cipher_key, restored.cipher_key);
    assert_eq!(ticket.issued_at, restored.issued_at);
}

#[test]
fn test_ticket_encrypt_decrypt() {
    let psk = [42u8; 32];
    let key = [1u8; 32];
    let ticket = SessionTicket::new(99, &key, &psk);

    let encrypted = ticket.encrypt(&psk);
    let decrypted = SessionTicket::decrypt(&encrypted, &psk).unwrap();

    assert_eq!(ticket.ticket_id, decrypted.ticket_id);
    assert_eq!(ticket.session_id, decrypted.session_id);
}

#[test]
fn test_ticket_wrong_psk_fails() {
    let psk = [42u8; 32];
    let wrong_psk = [99u8; 32];
    let key = [1u8; 32];
    let ticket = SessionTicket::new(1, &key, &psk);
    let encrypted = ticket.encrypt(&psk);

    let decrypted = SessionTicket::decrypt(&encrypted, &wrong_psk);
    if let Some(d) = decrypted {
        assert_ne!(d.ticket_id, ticket.ticket_id);
    }
}

#[test]
fn test_ticket_not_expired() {
    let psk = [42u8; 32];
    let key = [1u8; 32];
    let ticket = SessionTicket::new(1, &key, &psk);
    assert!(!ticket.is_expired());
}

#[test]
fn test_validator_replay_protection() {
    let psk = [42u8; 32];
    let key = [1u8; 32];
    let mut validator = TicketValidator::new(psk);

    let ticket = validator.issue_ticket(1, &key);
    let encrypted = ticket.encrypt(&psk);

    assert!(validator.validate(&encrypted).is_some());
    assert!(validator.validate(&encrypted).is_none());
}

#[test]
fn test_validator_different_tickets() {
    let psk = [42u8; 32];
    let mut validator = TicketValidator::new(psk);

    let ticket1 = validator.issue_ticket(1, &[1u8; 32]);
    let ticket2 = validator.issue_ticket(2, &[2u8; 32]);

    assert!(validator.validate(&ticket1.encrypt(&psk)).is_some());
    assert!(validator.validate(&ticket2.encrypt(&psk)).is_some());
}

#[test]
fn test_truncated_ticket_fails() {
    assert!(SessionTicket::from_bytes(&[0u8; 10]).is_none());
}

#[test]
fn old_tickets_are_refused() {
    let psk = [42u8; 32];
    let mut validator = TicketValidator::new(psk);
    let ticket = SessionTicket::new_at(1, &[1u8; 32], &psk, 1000);
    assert!(!ticket.is_expired_at(1000 + ticket.ttl));
    assert!(ticket.is_expired_at(1000 + ticket.ttl + 1));
    assert!(validator.validate_at(&ticket.encrypt(&psk), 1000 + ticket.ttl + 1).is_none());
    assert!(validator.validate_at(&ticket.encrypt(&psk), 1000).is_some());
}

#[test]
fn no_ticket_comes_back() {
    let psk = [42u8; 32];
    let mut validator = TicketValidator::new(psk);
    let first = SessionTicket::new_at(1, &[1u8; 32], &psk, 1000);
    assert!(validator.validate_at(&first.encrypt(&psk), 1000).is_some());
    for i in 0..10_001u64 {
        let other = SessionTicket::new_at(2, &[2u8; 32], &psk, 1001 + i);
        assert!(validator.validate_at(&other.encrypt(&psk), 1001 + i).is_some());
    }
    assert!(validator.validate_at(&first.encrypt(&psk), 1000).is_none());
    let mut dated = first.clone();
    dated.issued_at = 900_000;
    assert!(validator.validate_at(&dated.encrypt(&psk), 900_000).is_none());
}

#[test]
fn stored_tickets_are_masked_under_the_key() {
    let psk = [42u8; 32];
    let ticket = SessionTicket::new_at(1, &[1u8; 32], &psk, 1000);
    let mut mac = <Hmac<sha2::Sha256> as Mac>::new_from_slice(&psk).unwrap();
    mac.update(b"ostp-ticket-encryption");
    let mask = mac.finalize().into_bytes();
    let expected: Vec<u8> = ticket.to_bytes().iter().enumerate().map(|(i, b)| b ^ mask[i % 32]).collect();
    assert_eq!(ticket.encrypt(&psk), expected);
}
