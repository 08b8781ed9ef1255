use synapt::network::crypto::{
    decrypt, encrypt, from_b64, pairing_code, pairing_code_from_okm, read_frame_len, session_key, static_dh, to_b64,
    to_key32, write_frame, CryptoError, MAX_FRAME_BYTES,
};
use synapt::network::discovery::{
    newly_online, peer_from_presence, presence_status, should_broadcast, peer_is_fresh, Ipv4, PeerStatus, PresencePacket,
    PAIRING_PORT,
};
use synapt::network::manual_pair::{decode_invite, encode_invite, pairing_address, ALPHABET, CODE_LEN, DASH_AT};
use synapt::network::peer::{
    accept_reply, checked_pair_frame_len, completion_key, confirmation_key, decision_reply, paired_row, request_fields,
    responder_keys, PairMsg,
    PairingError,
};
use synapt::network::queue::{QueueEntry, QueueStatus, TransferQueue};
use synapt::network::transfer::{
    after_failed_attempt, batch_tally, checksum_feed, checksum_hex, checksum_start, completion_checksum, remember_row, history_action, HistoryAction, batch_summary, classify_batch, finish_outcome, RetryAction, is_canonical_path_allowed, resume_plan, retry_delay, start_reply,
    to_hex, transfer_error_for_code, transfer_file_name, serve_check, TransferError, TransferMsg, CHUNK_SIZE,
    RETRY_DELAYS_SECS,
};
use synapt::network::{checked_frame_len, client_session, hello_for, server_session, to_key32 as session_to_key32, ServerHello, SessionError};
use synapt::storage::TrustedPeerRow;

// ---------------------------------------------------------------------------
// Framing and encryption

#[test]
fn frame_roundtrip() {
    let payload = vec![1u8; 100];
    let frame = write_frame(&payload).unwrap();
    let len = read_frame_len(&frame[..4].try_into().unwrap());
    assert_eq!(len, 100);
    assert_eq!(&frame[4..], payload.as_slice());
}

#[test]
fn frame_too_large_returns_err() {
    let big = vec![0u8; MAX_FRAME_BYTES + 1];
    assert!(matches!(write_frame(&big), Err(CryptoError::FrameTooLarge(_))));
}

#[test]
fn frame_prefix_is_little_endian() {
    let frame = write_frame(&vec![7u8; 0x0102]).unwrap();
    assert_eq!(&frame[..4], &[0x02, 0x01, 0, 0]);
    assert_eq!(read_frame_len(&[0x78, 0x56, 0x34, 0x12]), 0x12345678);
}

#[test]
fn pairing_code_is_8_digits() {
    let code = pairing_code(&[0u8; 32]);
    assert_eq!(code.len(), 8);
    assert!(code.parse::<u32>().is_ok());
}

#[test]
fn pairing_code_is_deterministic() {
    assert_eq!(pairing_code(&[1u8; 32]), pairing_code(&[1u8; 32]));
}

#[test]
fn pairing_code_from_key_material_is_zero_padded_modulo() {
    assert_eq!(pairing_code_from_okm(&[0, 0, 7]), "00000007");
    assert_eq!(pairing_code_from_okm(&[0xff, 0xff, 0xff]), "16777215");
}

#[test]
fn encrypt_decrypt_roundtrip() {
    let key = [7u8; 32];
    let ct = encrypt(&key, b"hello synapt").unwrap();
    let pt = decrypt(&key, &ct).unwrap();
    assert_eq!(pt, b"hello synapt");
}

#[test]
fn decrypt_tampered_returns_err() {
    let key = [7u8; 32];
    let mut ct = encrypt(&key, b"data").unwrap();
    *ct.last_mut().unwrap() ^= 0xff;
    assert!(decrypt(&key, &ct).is_err());
}

#[test]
fn envelope_is_nonce_then_ciphertext_and_tag() {
    let key = [3u8; 32];
    let ct = encrypt(&key, b"abc").unwrap();
    assert_eq!(ct.len(), 12 + 3 + 16);
    assert!(matches!(decrypt(&key, &ct[..11]), Err(CryptoError::Decrypt)));
    assert!(matches!(decrypt(&[4u8; 32], &ct), Err(CryptoError::Decrypt)));
}

#[test]
fn base64_roundtrip_and_rejection() {
    let text = to_b64(&[0u8, 1, 2, 255]);
    assert_eq!(text, "AAEC/w==");
    assert_eq!(from_b64(&text).unwrap(), vec![0u8, 1, 2, 255]);
    assert!(matches!(from_b64("not-valid-base64!!!"), Err(CryptoError::KeyDecode(_))));
}

#[test]
fn session_keys_agree_between_the_two_ends() {
    let a_priv = [5u8; 32];
    let b_priv = [9u8; 32];
    let base = {
        let mut b = [0u8; 32];
        b[0] = 9;
        b
    };
    let a_pub = static_dh(&a_priv, &base);
    let b_pub = static_dh(&b_priv, &base);
    let nonce = [1u8; 32];
    let k1 = session_key(&static_dh(&a_priv, &b_pub), &nonce).unwrap();
    let k2 = session_key(&static_dh(&b_priv, &a_pub), &nonce).unwrap();
    assert_eq!(k1, k2);
    assert_ne!(k1, session_key(&static_dh(&a_priv, &b_pub), &[2u8; 32]).unwrap());
}

#[test]
fn key_copy_requires_exactly_32_bytes() {
    assert!(to_key32(&vec![1u8; 31]).is_none());
    assert_eq!(to_key32(&vec![1u8; 32]), Some([1u8; 32]));
}

// ---------------------------------------------------------------------------
// The session handshake

fn trusted(id: &str, pubkey_b64: &str) -> TrustedPeerRow {
    TrustedPeerRow {
        device_id: id.to_string(),
        device_name: format!("name-{id}"),
        pubkey_b64: pubkey_b64.to_string(),
        fingerprint: String::new(),
        paired_at: 0,
        last_seen: None,
    }
}

#[test]
fn handshake_refuses_untrusted_and_agrees_with_trusted() {
    let base = {
        let mut b = [0u8; 32];
        b[0] = 9;
        b
    };
    let server_priv = [11u8; 32];
    let client_priv = [22u8; 32];
    let server_pub = static_dh(&server_priv, &base);
    let client_pub = static_dh(&client_priv, &base);
    let peers = vec![trusted("client", &to_b64(&client_pub))];
    assert!(matches!(server_session(&peers, "stranger", &server_priv), Err(SessionError::NotTrusted)));
    let (server_key, nonce) = server_session(&peers, "client", &server_priv).unwrap();
    let hello = hello_for(&nonce);
    let client_key = client_session(&hello, &client_priv, &to_b64(&server_pub)).unwrap();
    assert_eq!(server_key, client_key);
    assert!(matches!(client_session(&ServerHello::Rejected, &client_priv, "x"), Err(SessionError::NotTrusted)));
}

#[test]
fn session_frame_and_key_checks() {
    assert!(matches!(checked_frame_len(&[0, 0, 0, 5]), Err(SessionError::Crypto(CryptoError::FrameTooLarge(_)))));
    assert_eq!(checked_frame_len(&[1, 0, 0, 0]).unwrap(), 1);
    assert!(matches!(session_to_key32(vec![0u8; 3]), Err(SessionError::Crypto(CryptoError::KeyDecode(m))) if m == "key/nonce wrong length"));
}

// ---------------------------------------------------------------------------
// Pairing

#[test]
fn pairing_replies_are_read_by_kind() {
    let (secret, _) = synapt::network::crypto::generate_ephemeral();
    assert!(matches!(accept_reply(secret, PairMsg::PairRejected), Err(PairingError::Rejected)));
    let (secret, _) = synapt::network::crypto::generate_ephemeral();
    assert!(matches!(accept_reply(secret, PairMsg::PairConfirm { longterm_pubkey_b64: "x".into() }), Err(PairingError::UnexpectedMsg(_))));
    let (secret, _) = synapt::network::crypto::generate_ephemeral();
    let (_, their_pub) = synapt::network::crypto::generate_ephemeral();
    let offer = accept_reply(
        secret,
        PairMsg::PairAccept { device_id: "d".into(), device_name: "n".into(), pubkey_b64: to_b64(&their_pub) },
    )
    .unwrap();
    assert_eq!(offer.peer_device_id, "d");
    assert_eq!(offer.verify_code, pairing_code(&offer.shared_secret));
    assert!(matches!(completion_key(PairMsg::PairComplete { longterm_pubkey_b64: "k".into() }), Ok(k) if k == "k"));
    assert!(matches!(confirmation_key(PairMsg::PairRejected), Err(PairingError::UnexpectedMsg(_))));
    assert!(matches!(request_fields(PairMsg::PairRequest { device_id: "a".into(), device_name: "b".into(), pubkey_b64: "c".into() }), Ok((a, b, c)) if a == "a" && b == "b" && c == "c"));
    let row = paired_row("a".into(), "b".into(), "c".into(), "f".into(), 7);
    assert_eq!(row.last_seen, None);
    assert_eq!(row.paired_at, 7);
}

#[test]
fn pairing_frame_limit_message() {
    assert!(matches!(checked_pair_frame_len(&[1, 0, 1, 0]), Err(PairingError::UnexpectedMsg(m)) if m == "frame too large: 65537"));
    assert_eq!(checked_pair_frame_len(&[0, 0, 1, 0]).unwrap(), 65536);
}

// ---------------------------------------------------------------------------
// Manual pairing codes

#[test]
fn encode_then_decode_roundtrips() {
    let ip = Ipv4::new(192, 168, 1, 42);
    let code = encode_invite(ip, PAIRING_PORT);
    assert_eq!(decode_invite(&code), Some((ip, PAIRING_PORT)));
}

#[test]
fn roundtrips_across_the_full_address_range() {
    for ip in [
        Ipv4::new(0, 0, 0, 1),
        Ipv4::new(10, 0, 0, 7),
        Ipv4::new(172, 16, 254, 3),
        Ipv4::new(192, 168, 255, 255),
        Ipv4::new(255, 255, 255, 255),
    ] {
        let code = encode_invite(ip, PAIRING_PORT);
        assert_eq!(decode_invite(&code), Some((ip, PAIRING_PORT)), "failed for {:?}", ip);
    }
}

#[test]
fn encoded_code_is_eleven_characters_plus_one_dash() {
    let code = encode_invite(Ipv4::new(192, 168, 1, 42), PAIRING_PORT);
    assert_eq!(code.len(), CODE_LEN + 1);
    assert_eq!(code.matches('-').count(), 1);
    assert_eq!(code.as_bytes()[DASH_AT], b'-');
}

#[test]
fn decode_rejects_a_non_alphabet_string() {
    assert_eq!(decode_invite("BBBBB-BBBBBB"), None);
    assert_eq!(decode_invite("!!!!!-!!!!!!"), None);
}

#[test]
fn decode_rejects_wrong_length() {
    assert_eq!(decode_invite(""), None);
    assert_eq!(decode_invite("ACDEF"), None);
    assert_eq!(decode_invite("ACDEF-GHJKLMN"), None);
}

#[test]
fn decode_accepts_lowercase_and_stray_separators() {
    let ip = Ipv4::new(192, 168, 1, 42);
    let code = encode_invite(ip, PAIRING_PORT);
    let mangled = format!(" {} ", code.to_lowercase().replace('-', " - "));
    assert_eq!(decode_invite(&mangled), Some((ip, PAIRING_PORT)));
}

#[test]
fn decode_rejects_a_code_carrying_the_wrong_port() {
    let code = encode_invite(Ipv4::new(192, 168, 1, 42), 1234);
    assert_eq!(decode_invite(&code), None);
}

#[test]
fn a_single_character_typo_is_overwhelmingly_rejected() {
    let code = encode_invite(Ipv4::new(192, 168, 1, 42), PAIRING_PORT);
    let bytes: Vec<u8> = code.bytes().filter(|b| *b != b'-').collect();
    let mut accepted = 0;
    let mut total = 0;
    for pos in 0..bytes.len() {
        for replacement in ALPHABET.iter() {
            if *replacement == bytes[pos] {
                continue;
            }
            let mut typo = bytes.clone();
            typo[pos] = *replacement;
            total += 1;
            let text = String::from_utf8(typo).expect("alphabet is ASCII");
            if decode_invite(&text).is_some() {
                accepted += 1;
            }
        }
    }
    assert!(total > 0);
    assert!(accepted * 100 < total, "expected typos to be rejected, {accepted} of {total} slipped through");
}

#[test]
fn alphabet_has_no_ambiguous_characters() {
    for bad in *b"BIOSZ012568" {
        assert!(!ALPHABET.contains(&bad), "ambiguous character in alphabet: {}", bad as char);
    }
    let unique: std::collections::HashSet<u8> = ALPHABET.iter().copied().collect();
    assert_eq!(unique.len(), ALPHABET.len(), "alphabet has a duplicate");
}

#[test]
fn pairing_address_skips_unspecified_and_loopback() {
    assert_eq!(pairing_address(Ipv4::unspecified()), None);
    assert_eq!(pairing_address(Ipv4::new(127, 0, 0, 1)), None);
    assert_eq!(pairing_address(Ipv4::new(10, 1, 2, 3)), Some(Ipv4::new(10, 1, 2, 3)));
}

// ---------------------------------------------------------------------------
// Discovery

fn packet(kind: &str, id: &str) -> PresencePacket {
    PresencePacket {
        packet_type: kind.to_string(),
        device_id: id.to_string(),
        device_name: "test".to_string(),
        version: "0.1.0".to_string(),
        pairing_port: 42100,
    }
}

#[test]
fn presence_packets_are_classified() {
    assert_eq!(presence_status(&packet("presence", "me"), "me", false), None);
    assert_eq!(presence_status(&packet("other", "abc"), "me", true), None);
    assert_eq!(presence_status(&packet("presence", "abc"), "me", true), Some(PeerStatus::Trusted));
    assert_eq!(presence_status(&packet("presence", "abc"), "me", false), Some(PeerStatus::Discovered));
}

#[test]
fn presence_peer_reads_a_bad_id_as_nil() {
    let p = peer_from_presence(packet("presence", "abc"), Ipv4::new(192, 168, 1, 9), PeerStatus::Discovered);
    assert_eq!(p.device_id, 0);
    let p = peer_from_presence(packet("presence", "00000000-0000-0000-0000-000000000001"), Ipv4::new(1, 2, 3, 4), PeerStatus::Trusted);
    assert_eq!(p.device_id, 1);
    assert_eq!(p.pairing_port, 42100);
}

#[test]
fn newly_online_lists_only_new_arrivals() {
    let now = vec!["a".to_string(), "b".to_string(), "c".to_string()];
    let before = vec!["b".to_string()];
    assert_eq!(newly_online(&now, &before), vec!["a".to_string(), "c".to_string()]);
}

#[test]
fn broadcast_and_expiry_timers() {
    assert!(should_broadcast(true, 0));
    assert!(should_broadcast(false, 5000));
    assert!(!should_broadcast(false, 4999));
    assert!(peer_is_fresh(19999));
    assert!(!peer_is_fresh(20000));
}

// ---------------------------------------------------------------------------
// Transfer queue

fn entry(id: &str) -> QueueEntry {
    QueueEntry {
        transfer_id: id.to_string(),
        filename: format!("{id}.bin"),
        remote_path: format!("/remote/{id}.bin"),
        peer_name: "peer".into(),
        status: QueueStatus::Queued,
        bytes_received: 0,
        total: 100,
        started_at: 0,
    }
}

#[test]
fn push_adds_entry() {
    let mut q = TransferQueue::new(10);
    q.push(entry("a"));
    assert_eq!(q.list().len(), 1);
    assert_eq!(q.list()[0].transfer_id, "a");
}

#[test]
fn update_modifies_existing_entry_by_transfer_id() {
    let mut q = TransferQueue::new(10);
    q.push(entry("a"));
    q.update("a", QueueStatus::InProgress, 42);
    let list = q.list();
    assert_eq!(list.len(), 1);
    assert_eq!(list[0].bytes_received, 42);
    assert!(matches!(list[0].status, QueueStatus::InProgress));
}

#[test]
fn list_returns_most_recent_first() {
    let mut q = TransferQueue::new(10);
    q.push(entry("a"));
    q.push(entry("b"));
    q.push(entry("c"));
    let ids: Vec<String> = q.list().into_iter().map(|e| e.transfer_id).collect();
    assert_eq!(ids, vec!["c", "b", "a"]);
}

#[test]
fn push_trims_entries_over_max_history() {
    let mut q = TransferQueue::new(2);
    q.push(entry("a"));
    q.push(entry("b"));
    q.push(entry("c"));
    let ids: Vec<String> = q.list().into_iter().map(|e| e.transfer_id).collect();
    assert_eq!(ids, vec!["c", "b"]);
}

#[test]
fn pushing_a_known_id_replaces_it_in_place() {
    let mut q = TransferQueue::new(10);
    q.push(entry("a"));
    q.push(entry("b"));
    let mut again = entry("a");
    again.total = 5;
    q.push(again);
    let list = q.list();
    assert_eq!(list.len(), 2);
    assert_eq!(list[1].transfer_id, "a");
    assert_eq!(list[1].total, 5);
}

// ---------------------------------------------------------------------------
// Transfers

#[test]
fn chunk_size_is_65536() {
    assert_eq!(CHUNK_SIZE, 65536);
}

#[test]
fn retry_delays_has_six_entries() {
    assert_eq!(RETRY_DELAYS_SECS.len(), 6);
}

#[test]
fn retry_last_delay_is_30() {
    assert_eq!(*RETRY_DELAYS_SECS.last().unwrap(), 30);
}

#[test]
fn retry_delays_strictly_increasing() {
    for w in RETRY_DELAYS_SECS.windows(2) {
        assert!(w[1] > w[0]);
    }
}

#[test]
fn retry_delay_gives_up_after_the_last_delay() {
    assert_eq!(retry_delay(0), Some(1));
    assert_eq!(retry_delay(5), Some(30));
    assert_eq!(retry_delay(6), None);
}

fn shared(p: &str) -> Vec<Option<String>> {
    vec![Some(p.to_string())]
}

#[test]
fn path_outside_shared_is_rejected() {
    let f = Some("/tmp/base/outside/secret.txt".to_string());
    assert!(!is_canonical_path_allowed(&f, &shared("/tmp/base/shared")));
}

#[test]
fn path_inside_shared_is_allowed() {
    let f = Some("/tmp/base/shared/ok.txt".to_string());
    assert!(is_canonical_path_allowed(&f, &shared("/tmp/base/shared")));
}

#[test]
fn path_that_does_not_exist_returns_false_not_panic() {
    assert!(!is_canonical_path_allowed(&None, &shared("/tmp/base/shared")));
}

#[test]
fn path_with_traversal_is_rejected() {
    // Canonicalisation resolves `shared/../outside/secret.txt` to the outside path.
    let f = Some("/tmp/base/outside/secret.txt".to_string());
    assert!(!is_canonical_path_allowed(&f, &shared("/tmp/base/shared")));
}

#[test]
fn sibling_with_a_common_prefix_is_not_inside() {
    let f = Some("/tmp/base/shared-other/x.txt".to_string());
    assert!(!is_canonical_path_allowed(&f, &shared("/tmp/base/shared")));
    assert!(!is_canonical_path_allowed(&f, &[None]));
}

#[test]
fn batch_with_empty_paths_yields_no_transfers() {
    let allowed = classify_batch(&[], &[], &[Some("/tmp".to_string())]);
    assert!(allowed.is_empty());
}

#[test]
fn batch_skips_denied_paths_and_keeps_allowed() {
    let dirs = shared("/tmp/base/shared");
    let paths = vec!["/tmp/base/shared/ok.txt".to_string(), "/tmp/base/outside/secret.txt".to_string()];
    let canonical: Vec<Option<String>> = paths.iter().map(|p| Some(p.clone())).collect();
    let classified = classify_batch(&paths, &canonical, &dirs);
    let allowed_count = classified.iter().filter(|(_, a)| *a).count();
    let denied_count = classified.iter().filter(|(_, a)| !*a).count();
    assert_eq!(allowed_count, 1);
    assert_eq!(denied_count, 1);
    assert!(matches!(batch_summary(&classified), TransferMsg::BatchComplete { total_files: 2, skipped: 1 }));
}

#[test]
fn hex_is_lowercase_two_digits_per_byte() {
    assert_eq!(to_hex(&[0x00, 0xab, 0x10]), "00ab10");
    assert_eq!(to_hex(&[]), "");
}

#[test]
fn serve_check_orders_its_refusals() {
    assert_eq!(serve_check(false, Some(10), 0), Err("access_denied".to_string()));
    assert_eq!(serve_check(true, None, 0), Err("access_denied".to_string()));
    assert_eq!(serve_check(true, Some(10), 11), Err("invalid_offset".to_string()));
    assert_eq!(serve_check(true, Some(10), 10), Ok(10));
}

#[test]
fn refusal_codes_map_to_errors() {
    assert!(matches!(transfer_error_for_code("access_denied"), TransferError::AccessDenied));
    assert!(matches!(transfer_error_for_code("invalid_offset"), TransferError::InvalidOffset));
    assert!(matches!(transfer_error_for_code("busy"), TransferError::Protocol(m) if m == "busy"));
    assert!(matches!(start_reply(TransferMsg::Error { code: "access_denied".into() }), Err(TransferError::AccessDenied)));
    assert!(matches!(start_reply(TransferMsg::PushAccept), Err(TransferError::Protocol(_))));
    assert!(matches!(start_reply(TransferMsg::TransferStart { filename: "f".into(), size: 3, resume_offset: 1 }), Ok((f, 3, 1)) if f == "f"));
}

#[test]
fn wire_names_fall_back_to_file() {
    assert_eq!(transfer_file_name("/a/b/report.pdf"), "report.pdf");
    assert_eq!(transfer_file_name("/"), "file");
    assert_eq!(transfer_file_name("x/.."), "file");
}

#[test]
fn resume_plan_continues_a_partial_transfer() {
    let (tid, hist, off) = resume_plan(Some((7, Some("t-1".to_string()), 4096)), "fresh".to_string());
    assert_eq!((tid.as_str(), hist, off), ("t-1", Some(7), 4096));
    let (tid, hist, off) = resume_plan(Some((7, None, -5)), "fresh".to_string());
    assert_eq!((tid.as_str(), hist, off), ("fresh", Some(7), 0));
    let (tid, hist, off) = resume_plan(None, "fresh".to_string());
    assert_eq!((tid.as_str(), hist, off), ("fresh", None, 0));
}

#[test]
fn finish_outcome_checks_the_checksum() {
    let ok = finish_outcome("abc", "abc", 10);
    assert_eq!(ok.history_status, "complete");
    assert_eq!(ok.bytes, 10);
    assert!(matches!(ok.queue_status, QueueStatus::Complete));
    let bad = finish_outcome("abc", "abd", 10);
    assert_eq!(bad.history_status, "failed");
    assert_eq!(bad.bytes, 0);
    assert!(matches!(bad.queue_status, QueueStatus::Failed { reason } if reason == "checksum_mismatch"));
}

#[test]
fn failed_attempts_retry_then_give_up() {
    match after_failed_attempt(0, Some(7)) {
        RetryAction::Retry { delay_secs, next_attempt, mark_partial } => {
            assert_eq!((delay_secs, next_attempt, mark_partial), (1, 1, Some(7)));
        }
        other => panic!("{other:?}"),
    }
    match after_failed_attempt(5, None) {
        RetryAction::Retry { delay_secs, next_attempt, mark_partial } => {
            assert_eq!((delay_secs, next_attempt, mark_partial), (30, 6, None));
        }
        other => panic!("{other:?}"),
    }
    assert!(matches!(after_failed_attempt(6, Some(3)), RetryAction::GiveUp { mark_failed: Some(3) }));
}

#[test]
fn unexpected_start_reply_names_the_message() {
    match start_reply(TransferMsg::PushAccept) {
        Err(TransferError::Protocol(m)) => assert_eq!(m, "unexpected PushAccept"),
        other => panic!("{other:?}"),
    }
}

#[test]
fn newly_online_announces_each_arrival_once_in_order() {
    let now = vec!["c".to_string(), "a".to_string(), "c".to_string(), "b".to_string()];
    let before = vec!["b".to_string()];
    assert_eq!(newly_online(&now, &before), vec!["c".to_string(), "a".to_string()]);
}

#[test]
fn responder_public_key_is_32_bytes() {
    let keys = responder_keys(&to_b64(&[9u8; 32])).unwrap();
    assert_eq!(from_b64(&keys.my_pubkey_b64).unwrap().len(), 32);
    assert_eq!(keys.verify_code.len(), 8);
}

#[test]
fn decision_reply_rejects_or_waits() {
    assert!(decision_reply(true).is_none());
    assert!(matches!(decision_reply(false), Some(PairMsg::PairRejected)));
}

#[test]
fn completion_and_history_steps() {
    match completion_checksum(TransferMsg::TransferComplete { checksum: "ab".to_string() }) {
        Ok(c) => assert_eq!(c, "ab"),
        Err(e) => panic!("{e:?}"),
    }
    assert!(matches!(completion_checksum(TransferMsg::PushAccept), Err(TransferError::Protocol(m)) if m.starts_with("unexpected ")));
    assert!(matches!(history_action(Some(4)), HistoryAction::Reuse(4)));
    assert!(matches!(history_action(None), HistoryAction::Insert));
}

#[test]
fn checksum_of_chunks_is_hex_sha256() {
    let mut s = checksum_start();
    checksum_feed(&mut s, b"a");
    checksum_feed(&mut s, b"bc");
    assert_eq!(checksum_hex(s), "ba7816bf8f01cfea414140de5dae2223b00361a396177a9cb410ff61f20015ad");
    assert_eq!(checksum_hex(checksum_start()), "e3b0c44298fc1c149afbf4c8996fb92427ae41e4649b934ca495991b7852b855");
}

#[test]
fn batch_tally_counts_failures() {
    assert_eq!(batch_tally(&[true, false, true, false, false]), (5, 3));
    assert_eq!(batch_tally(&[]), (0, 0));
}

#[test]
fn remember_row_keeps_inserted_row() {
    let mut h = None;
    assert_eq!(remember_row(&mut h, 12), 12);
    assert_eq!(h, Some(12));
}
