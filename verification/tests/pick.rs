use i3tailscale::pick::{
    picked_dns_name, resolve_pick, status_output, value_to_copy, PickError,
};
use i3tailscale::tailscale::{format_peer_lines, Peer, PeerMap, Status};

fn peer(host: &str, dns: &str, online: bool, ips: &[&str]) -> Peer {
    Peer {
        host_name: host.to_string(),
        dns_name: dns.to_string(),
        online,
        tailscale_ips: ips.iter().map(|s| s.to_string()).collect(),
    }
}

// A synthetic tailnet, not pulled from a real one.
fn sample(state: &str) -> Status {
    let mut peers = PeerMap::new();
    peers.insert(
        "n1".to_string(),
        peer("has-ip", "has-ip.tailnet.ts.net.", true, &["100.64.0.5", "fd7a:115c:a1e0::5"]),
    );
    peers.insert("n2".to_string(), peer("no-ip", "no-ip.tailnet.ts.net.", false, &[]));
    Status {
        backend_state: state.to_string(),
        myself: peer("self-device", "self-device.tailnet.ts.net.", true, &[]),
        peers,
    }
}

// The toggle block's `command_state` treats ANY non-empty stdout as "on",
// so printing the literal text "off" is wrong: it must print nothing.
#[test]
fn status_output_is_none_when_stopped_not_the_text_off() {
    let running = sample("Running");
    assert_eq!(status_output(&running), Some("on"));

    let stopped = sample("Stopped");
    assert_eq!(status_output(&stopped), None);
}

// Alt+Enter copies the IP address, not the host name.
#[test]
fn enter_copies_dns_name_alt_enter_copies_ip() {
    let status = sample("Running");
    let peer = status.find_peer_by_dns_name("has-ip.tailnet.ts.net.").unwrap();

    // Plain Enter (exit code 0) and anything unexpected both fall back
    // to the default: copy DNS name.
    assert_eq!(value_to_copy(peer, Some(0)).unwrap(), "has-ip.tailnet.ts.net.");
    assert_eq!(value_to_copy(peer, None).unwrap(), "has-ip.tailnet.ts.net.");

    // Alt+Enter (rofi custom-1, exit code 10) copies the IPv4 address.
    assert_eq!(value_to_copy(peer, Some(10)).unwrap(), "100.64.0.5");
}

#[test]
fn alt_enter_errors_when_peer_has_no_ip() {
    let status = sample("Running");
    let peer = status.find_peer_by_dns_name("no-ip.tailnet.ts.net.").unwrap();

    assert!(value_to_copy(peer, Some(10)).is_err());
    // Enter still works fine even though this peer has no IP.
    assert_eq!(value_to_copy(peer, Some(0)).unwrap(), "no-ip.tailnet.ts.net.");
}

#[test]
fn other_exit_codes_copy_dns_name() {
    let status = sample("Running");
    let peer = status.find_peer_by_dns_name("has-ip.tailnet.ts.net.").unwrap();
    assert_eq!(value_to_copy(peer, Some(11)).unwrap(), "has-ip.tailnet.ts.net.");
    assert_eq!(value_to_copy(peer, Some(1)).unwrap(), "has-ip.tailnet.ts.net.");
}

#[test]
fn missing_ipv4_error_names_the_host() {
    let status = sample("Running");
    let peer = status.find_peer_by_dns_name("no-ip.tailnet.ts.net.").unwrap();
    let err = value_to_copy(peer, Some(10)).unwrap_err();
    assert!(matches!(&err, PickError::NoIpv4Address { host_name } if host_name == "no-ip"));
    assert_eq!(err.message(), "peer 'no-ip' has no Tailscale IPv4 address");
}

#[test]
fn unknown_peer_error_message() {
    let err = PickError::NoSuchPeer { name: "ghost.ts.net.".to_string() };
    assert_eq!(err.message(), "no peer named 'ghost.ts.net.' in tailscale status");
}

#[test]
fn picked_line_gives_its_dns_name() {
    assert_eq!(
        picked_dns_name("has-ip\thas-ip.tailnet.ts.net.\tonline\n"),
        Some("has-ip.tailnet.ts.net.")
    );
    assert_eq!(picked_dns_name("a\tb"), Some("b"));
    assert_eq!(picked_dns_name("  typed.ts.net.  "), Some("typed.ts.net."));
    assert_eq!(picked_dns_name(""), None);
    assert_eq!(picked_dns_name(" \n\t "), None);
    assert_eq!(picked_dns_name("a\t\tc"), Some(""));
}

#[test]
fn every_rendered_line_picks_its_device() {
    let status = sample("Running");
    let lines = format_peer_lines(&status);
    for line in lines.split('\n') {
        let choice = format!("{line}\n");
        let host = line.split('\t').next().unwrap();
        let copied = resolve_pick(&status, &choice, Some(0)).unwrap().unwrap();
        let peer = status.find_peer_by_dns_name(copied).unwrap();
        assert_eq!(peer.host_name, host);
    }
}

#[test]
fn resolve_pick_outcomes() {
    let status = sample("Running");
    assert_eq!(resolve_pick(&status, "", Some(0)).unwrap(), None);
    assert_eq!(resolve_pick(&status, "  \n", Some(10)).unwrap(), None);
    assert_eq!(
        resolve_pick(&status, "has-ip\thas-ip.tailnet.ts.net.\tonline\n", Some(10)).unwrap(),
        Some("100.64.0.5")
    );
    assert_eq!(
        resolve_pick(&status, "self-device\tself-device.tailnet.ts.net.\t(this device)\n", None)
            .unwrap(),
        Some("self-device.tailnet.ts.net.")
    );
    match resolve_pick(&status, "ghost\tghost.ts.net.\toffline\n", Some(0)) {
        Err(PickError::NoSuchPeer { name }) => assert_eq!(name, "ghost.ts.net."),
        other => panic!("unexpected {other:?}"),
    }
    match resolve_pick(&status, "no-ip\tno-ip.tailnet.ts.net.\toffline\n", Some(10)) {
        Err(PickError::NoIpv4Address { host_name }) => assert_eq!(host_name, "no-ip"),
        other => panic!("unexpected {other:?}"),
    }
}

#[test]
fn picked_line_trims_unicode_white_space() {
    assert_eq!(picked_dns_name("\u{3000}box\tbox.ts.net.\tonline\u{85}\u{2028}"), Some("box.ts.net."));
    assert_eq!(picked_dns_name("\u{a0}\u{2009}"), None);
    // A character that is not White_Space is kept.
    assert_eq!(picked_dns_name("\u{200b}x"), Some("\u{200b}x"));
}
