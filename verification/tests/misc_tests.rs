use synapt::commands::{
    app_icon_mime, app_icon_size_ok, data_uri, flag_setting, local_device_info, max_results_setting, needs_full_scan,
    trusted_peer_position, validate_device_name,
};
use synapt::ipc::{check_loopback, is_synaptclip_clip, trusted_online_peers, validate_clip_request, RemoteAddr};
use synapt::network::crypto::to_b64;
use synapt::network::discovery::{Ipv4, Peer, PeerStatus, PAIRING_PORT};
use synapt::notify::{notifications_enabled, peer_online_notice, transfer_complete_notice};
use synapt::paths::{path_components, path_file_name, split_name, starts_with_path};
use synapt::platform::{is_wayland_session, linux_display_server, DisplayServer};
use synapt::storage::{LocalDeviceRow, TrustedPeerRow};
use synapt::text::{decimal_string, parse_i64, parse_usize, trim};
use synapt::trust::{
    fingerprint, fresh_identity, identity_from_row, trusted_peers_from_rows, uuid_to_string, LocalIdentity, TrustError,
    TrustedPeer,
};

// ---------------------------------------------------------------------------
// Trust store

#[test]
fn fingerprint_valid_key_returns_64_char_hex() {
    let key = to_b64(&[0u8; 32]);
    let fp = fingerprint(&key).unwrap();
    assert_eq!(fp.len(), 64);
    assert!(fp.chars().all(|c| c.is_ascii_hexdigit()));
}

#[test]
fn fingerprint_invalid_base64_returns_err() {
    assert!(fingerprint("not-valid-base64!!!").is_err());
}

#[test]
fn fingerprint_is_the_sha256_of_the_key_bytes() {
    // SHA-256 of the empty string.
    assert_eq!(fingerprint("").unwrap(), "e3b0c44298fc1c149afbf4c8996fb92427ae41e4649b934ca495991b7852b855");
}

#[test]
fn identity_round_trips_through_its_row() {
    let (identity, row) = fresh_identity(Some("laptop".to_string()));
    assert_eq!(identity.device_name, "laptop");
    let again = identity_from_row(row).unwrap();
    assert_eq!(again.device_id, identity.device_id);
    assert_eq!(again.privkey_bytes, identity.privkey_bytes);
    assert_eq!(again.pubkey_b64, identity.pubkey_b64);
}

#[test]
fn fresh_identity_without_a_host_name_uses_the_id() {
    let (identity, row) = fresh_identity(None);
    let id = uuid_to_string(identity.device_id);
    assert_eq!(identity.device_name, format!("device-{}", &id[..8]));
    assert_eq!(row.device_id, id);
}

#[test]
fn identity_rows_with_bad_keys_or_ids_are_refused() {
    let row = LocalDeviceRow {
        device_id: "00000000-0000-0000-0000-000000000001".into(),
        device_name: "d".into(),
        pubkey_b64: String::new(),
        privkey_b64: to_b64(&[1u8; 31]),
    };
    assert!(matches!(identity_from_row(row), Err(TrustError::KeyDecode(m)) if m == "private key wrong length"));
    let row = LocalDeviceRow {
        device_id: "nope".into(),
        device_name: "d".into(),
        pubkey_b64: String::new(),
        privkey_b64: to_b64(&[1u8; 32]),
    };
    assert!(matches!(identity_from_row(row), Err(TrustError::KeyDecode(_))));
}

fn peer_row(id: &str, name: &str) -> TrustedPeerRow {
    TrustedPeerRow {
        device_id: id.to_string(),
        device_name: name.to_string(),
        pubkey_b64: String::new(),
        fingerprint: String::new(),
        paired_at: 1,
        last_seen: Some(2),
    }
}

#[test]
fn trusted_peers_read_back_in_order() {
    let rows = vec![
        peer_row("00000000-0000-0000-0000-000000000001", "one"),
        peer_row("00000000-0000-0000-0000-000000000002", "two"),
    ];
    let peers = trusted_peers_from_rows(rows).unwrap();
    assert_eq!(peers.len(), 2);
    assert_eq!(peers[1].device_id, 2);
    assert_eq!(peers[1].device_name, "two");
    assert!(trusted_peers_from_rows(vec![peer_row("bad", "x")]).is_err());
}

// ---------------------------------------------------------------------------
// Commands

#[test]
fn device_names_are_trimmed_and_checked() {
    assert_eq!(validate_device_name("  Office PC  "), Ok("Office PC".to_string()));
    assert_eq!(validate_device_name("   "), Err("device name must be between 1 and 64 characters".to_string()));
    assert_eq!(validate_device_name(&"x".repeat(65)), Err("device name must be between 1 and 64 characters".to_string()));
    assert!(validate_device_name(&"é".repeat(64)).is_ok());
    assert_eq!(validate_device_name("a\u{7}b"), Err("device name must not contain control characters".to_string()));
}

#[test]
fn settings_are_read_with_their_defaults() {
    assert!(flag_setting(Some("true".into())));
    assert!(!flag_setting(Some("yes".into())));
    assert!(!flag_setting(None));
    assert_eq!(max_results_setting(Some("20".into())), 20);
    assert_eq!(max_results_setting(Some("+7".into())), 7);
    assert_eq!(max_results_setting(Some("-1".into())), 50);
    assert_eq!(max_results_setting(Some("lots".into())), 50);
    assert_eq!(max_results_setting(None), 50);
    assert!(notifications_enabled(None));
    assert!(notifications_enabled(Some("true".into())));
    assert!(!notifications_enabled(Some("false".into())));
}

#[test]
fn startup_scan_runs_when_empty_or_stale() {
    assert!(needs_full_scan(0, Some("1000".into()), 1000));
    assert!(!needs_full_scan(5, Some("1000".into()), 1000 + 86399));
    assert!(needs_full_scan(5, Some("1000".into()), 1000 + 86400));
    assert!(needs_full_scan(5, None, 86400));
    assert!(needs_full_scan(5, Some("garbage".into()), 86400));
}

#[test]
fn icons_are_typed_by_extension_and_sized() {
    assert_eq!(app_icon_mime("/x/A.SVG"), Ok("image/svg+xml".to_string()));
    assert_eq!(app_icon_mime("/x/a.png"), Ok("image/png".to_string()));
    assert_eq!(app_icon_mime("/x/a.ico"), Err("unsupported icon format".to_string()));
    assert!(app_icon_size_ok(524288).is_ok());
    assert_eq!(app_icon_size_ok(524289), Err("icon file too large".to_string()));
    assert_eq!(data_uri("image/png", &[0u8, 1, 2]), "data:image/png;base64,AAEC");
}

#[test]
fn local_device_info_carries_the_fingerprint() {
    let identity = LocalIdentity { device_id: 1, device_name: "me".into(), pubkey_b64: to_b64(&[]), privkey_bytes: [0u8; 32] };
    let info = local_device_info(&identity).unwrap();
    assert_eq!(info.device_id, "00000000-0000-0000-0000-000000000001");
    assert_eq!(info.fingerprint, "e3b0c44298fc1c149afbf4c8996fb92427ae41e4649b934ca495991b7852b855");
    let bad = LocalIdentity { pubkey_b64: "!!".into(), ..identity };
    assert!(local_device_info(&bad).unwrap_err().starts_with("key decode error: "));
}

#[test]
fn trusted_peers_are_found_by_their_id_text() {
    let peers = vec![TrustedPeer {
        device_id: 2,
        device_name: "two".into(),
        pubkey_b64: String::new(),
        fingerprint: String::new(),
        paired_at: 0,
        last_seen: None,
    }];
    assert_eq!(trusted_peer_position(&peers, "00000000-0000-0000-0000-000000000002"), Some(0));
    assert_eq!(trusted_peer_position(&peers, "00000000-0000-0000-0000-000000000003"), None);
}

// ---------------------------------------------------------------------------
// Local integration server

#[test]
fn require_loopback_rejects_non_loopback() {
    assert_eq!(check_loopback(RemoteAddr::V4(Ipv4::new(192, 168, 1, 1))), Err(403));
}

#[test]
fn require_loopback_allows_loopback() {
    assert_eq!(check_loopback(RemoteAddr::V4(Ipv4::new(127, 0, 0, 1))), Ok(()));
    assert_eq!(check_loopback(RemoteAddr::V6(1)), Ok(()));
}

fn online_peer(device_id: u128) -> Peer {
    Peer {
        device_id,
        device_name: "Test Device".into(),
        ip: Ipv4::new(192, 168, 1, 42),
        pairing_port: PAIRING_PORT,
        status: PeerStatus::Discovered,
    }
}

#[test]
fn clips_send_rejects_unsupported_content_type() {
    let err = validate_clip_request("some-id", "data", "image", &[], &[]).unwrap_err();
    assert_eq!(err.status, 422);
    assert_eq!(err.error, "unsupported_content_type");
}

#[test]
fn clips_send_rejects_empty_peer_id() {
    let err = validate_clip_request("", "data", "text", &[], &[]).unwrap_err();
    assert_eq!(err.status, 422);
    assert_eq!(err.error, "missing_fields");
}

#[test]
fn clips_send_rejects_peer_not_in_map() {
    let err = validate_clip_request("00000000-0000-0000-0000-000000000000", "data", "text", &[], &[]).unwrap_err();
    assert_eq!(err.status, 404);
    assert_eq!(err.error, "peer_not_found");
}

#[test]
fn clips_send_checks_format_and_trust() {
    let peers = vec![online_peer(1)];
    let err = validate_clip_request("not-a-uuid", "data", "text", &peers, &[]).unwrap_err();
    assert_eq!(err.message, "Invalid peer_id format");
    let err = validate_clip_request("00000000-0000-0000-0000-000000000001", "data", "text", &peers, &[]).unwrap_err();
    assert_eq!(err.message, "Peer is not trusted. Pair the device first.");
    let trusted = vec!["00000000-0000-0000-0000-000000000001".to_string()];
    assert_eq!(validate_clip_request("00000000-0000-0000-0000-000000000001", "data", "text", &peers, &trusted).unwrap(), 0);
}

#[test]
fn peers_handler_keeps_only_the_trusted_peer_of_a_mixed_set() {
    let trusted = vec!["00000000-0000-0000-0000-000000000001".to_string()];
    let shown = trusted_online_peers(&[online_peer(1), online_peer(2)], &trusted);
    assert_eq!(shown, vec![0]);
    assert!(trusted_online_peers(&[online_peer(2)], &trusted).is_empty());
}

#[test]
fn is_clip_true_for_uuid_txt() {
    assert!(is_synaptclip_clip("/tmp/synapt-clips/550e8400-e29b-41d4-a716-446655440000.txt"));
}

#[test]
fn is_clip_false_for_report_txt() {
    assert!(!is_synaptclip_clip("/tmp/report.txt"));
}

#[test]
fn is_clip_false_for_uuid_without_extension() {
    assert!(!is_synaptclip_clip("/tmp/550e8400-e29b-41d4-a716-446655440000"));
}

// ---------------------------------------------------------------------------
// Notifications, platform, text and paths

#[test]
fn notices_name_the_file_and_the_peer() {
    let n = transfer_complete_notice("a.txt", "Laptop");
    assert_eq!(n.title, "Transfer complete");
    assert_eq!(n.body, "a.txt received from Laptop");
    assert_eq!(peer_online_notice("Laptop").body, "Laptop is now available");
}

#[test]
fn display_server_from_the_session() {
    assert!(is_wayland_session(&Some("wayland".into())));
    assert!(!is_wayland_session(&Some("x11".into())));
    assert_eq!(linux_display_server(false, true), DisplayServer::X11);
    assert_eq!(linux_display_server(true, true), DisplayServer::WaylandWlroots);
    assert_eq!(linux_display_server(true, false), DisplayServer::WaylandGnome);
}

#[test]
fn number_text_reads_and_writes() {
    assert_eq!(decimal_string(0), "0");
    assert_eq!(decimal_string(1234567890), "1234567890");
    assert_eq!(parse_usize("42"), Some(42));
    assert_eq!(parse_usize(""), None);
    assert_eq!(parse_usize("+"), None);
    assert_eq!(parse_i64("-9223372036854775808"), Some(i64::MIN));
    assert_eq!(parse_i64("9223372036854775808"), None);
    assert_eq!(parse_i64("-0"), Some(0));
    assert_eq!(trim("\u{3000} a b \n"), "a b");
}

#[test]
fn path_components_match_the_standard_library() {
    for (p, base) in [("/a/b/c", "/a/b"), ("/a/bc", "/a/b"), ("a/./b", "a"), ("/a//b/", "/a/b"), ("./a", "a"), ("", "")] {
        assert_eq!(
            starts_with_path(p, base),
            std::path::Path::new(p).starts_with(base),
            "starts_with({p}, {base})"
        );
    }
    for p in ["/a/b", "/a/b/", "/", "", ".", "..", "a/..", "a/.", "/x/.hidden"] {
        assert_eq!(
            path_file_name(p),
            std::path::Path::new(p).file_name().map(|s| s.to_string_lossy().to_string()),
            "file_name({p})"
        );
    }
    for n in ["a.txt", ".bashrc", "noext", "a.", "a.b.c"] {
        let (stem, ext) = split_name(n);
        let path = std::path::Path::new(n);
        assert_eq!(Some(stem.as_str()), path.file_stem().and_then(|s| s.to_str()), "stem({n})");
        assert_eq!(ext.as_deref(), path.extension().and_then(|s| s.to_str()), "ext({n})");
    }
    assert_eq!(path_components("/a//b/./c/").len(), 4);
}
