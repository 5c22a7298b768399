use i3tailscale::ipv4::is_ipv4_address;
use i3tailscale::tailscale::{format_peer_lines, Peer, PeerMap, Status};

fn peer(host: &str, dns: &str, online: bool, ips: &[&str]) -> Peer {
    Peer {
        host_name: host.to_string(),
        dns_name: dns.to_string(),
        online,
        tailscale_ips: ips.iter().map(|s| s.to_string()).collect(),
    }
}

// A synthetic tailnet, not pulled from a real one.
fn sample(state: &str) -> Status {
    let mut peers = PeerMap::new();
    peers.insert("n1".to_string(), peer("peer-b", "peer-b.tailnet.ts.net.", false, &[]));
    peers.insert(
        "n2".to_string(),
        peer("peer-a", "peer-a.tailnet.ts.net.", true, &["100.64.0.1", "fd7a:115c:a1e0::1"]),
    );
    Status {
        backend_state: state.to_string(),
        myself: peer("self-device", "self-device.tailnet.ts.net.", true, &[]),
        peers,
    }
}

#[test]
fn running_state_detected() {
    let status = sample("Running");
    assert!(status.is_running());

    let status = sample("Stopped");
    assert!(!status.is_running());
}

#[test]
fn ipv4_picked_out_of_mixed_ip_list() {
    let status = sample("Running");
    let peer_a = status.find_peer_by_dns_name("peer-a.tailnet.ts.net.").unwrap();
    assert_eq!(peer_a.ipv4(), Some("100.64.0.1"));

    // peer-b has no TailscaleIPs in the fixture at all (defaults to empty).
    let peer_b = status.find_peer_by_dns_name("peer-b.tailnet.ts.net.").unwrap();
    assert_eq!(peer_b.ipv4(), None);
}

#[test]
fn peer_list_sorted_by_hostname_and_includes_self() {
    let status = sample("Running");
    let names: Vec<&str> = status
        .peer_list()
        .iter()
        .map(|(p, _)| p.host_name.as_str())
        .collect();
    assert_eq!(names, vec!["peer-a", "peer-b", "self-device"]);
}

#[test]
fn find_peer_by_dns_name() {
    let status = sample("Running");
    let peer = status
        .find_peer_by_dns_name("peer-a.tailnet.ts.net.")
        .expect("peer-a exists");
    assert_eq!(peer.host_name, "peer-a");
    assert_eq!(peer.dns_name, "peer-a.tailnet.ts.net.");
    assert!(status.find_peer_by_dns_name("nonexistent").is_none());
}

// HostName isn't guaranteed unique across a tailnet (unlike DNSName, which
// MagicDNS deduplicates): two peers sharing a hostname but with distinct
// DNS names must still resolve correctly when looked up by DNS name.
#[test]
fn duplicate_hostnames_resolve_correctly_by_dns_name() {
    let mut peers = PeerMap::new();
    peers.insert("n1".to_string(), peer("laptop", "laptop.tailnet.ts.net.", false, &["100.64.0.1"]));
    peers.insert("n2".to_string(), peer("laptop", "laptop-1.tailnet.ts.net.", false, &["100.64.0.2"]));
    let status = Status {
        backend_state: "Running".to_string(),
        myself: peer("self-device", "self-device.tailnet.ts.net.", false, &[]),
        peers,
    };

    let first = status.find_peer_by_dns_name("laptop.tailnet.ts.net.").unwrap();
    assert_eq!(first.ipv4(), Some("100.64.0.1"));

    let second = status.find_peer_by_dns_name("laptop-1.tailnet.ts.net.").unwrap();
    assert_eq!(second.ipv4(), Some("100.64.0.2"));
}

#[test]
fn format_peer_lines_labels_self_and_online_state() {
    let status = sample("Running");
    let out = format_peer_lines(&status);
    assert_eq!(
        out,
        "peer-a\tpeer-a.tailnet.ts.net.\tonline\n\
         peer-b\tpeer-b.tailnet.ts.net.\toffline\n\
         self-device\tself-device.tailnet.ts.net.\t(this device)"
    );
}

#[test]
fn find_reaches_this_device() {
    let status = sample("Running");
    let me = status.find_peer_by_dns_name("self-device.tailnet.ts.net.").unwrap();
    assert_eq!(me.host_name, "self-device");
}

#[test]
fn find_is_exact_not_a_prefix_match() {
    let status = sample("Running");
    assert!(status.find_peer_by_dns_name("peer-a").is_none());
    assert!(status.find_peer_by_dns_name("").is_none());
    assert!(status.find_peer_by_dns_name("peer-a.tailnet.ts.net").is_none());
}

#[test]
fn peer_list_marks_only_this_device() {
    let status = sample("Running");
    let list = status.peer_list();
    assert_eq!(list.len(), 3);
    let flags: Vec<bool> = list.iter().map(|(_, is_self)| *is_self).collect();
    assert_eq!(flags, vec![false, false, true]);
}

fn same_host_status(reversed: bool) -> Status {
    let mut entries = vec![
        ("n1", peer("box", "box-2.ts.net.", true, &[])),
        ("n2", peer("alpha", "alpha.ts.net.", true, &[])),
        ("n3", peer("box", "box-1.ts.net.", false, &[])),
    ];
    if reversed {
        entries.reverse();
    }
    let mut peers = PeerMap::new();
    for (key, p) in entries {
        peers.insert(key.to_string(), p);
    }
    Status {
        backend_state: "Running".to_string(),
        myself: peer("box", "box.ts.net.", true, &[]),
        peers,
    }
}

#[test]
fn peer_list_orders_equal_host_names_by_contents() {
    let status = same_host_status(false);
    let dns: Vec<&str> = status.peer_list().iter().map(|(p, _)| p.dns_name.as_str()).collect();
    assert_eq!(dns, vec!["alpha.ts.net.", "box-1.ts.net.", "box-2.ts.net.", "box.ts.net."]);
}

#[test]
fn peer_list_does_not_depend_on_walk_order() {
    let forward = same_host_status(false);
    let backward = same_host_status(true);
    let a: Vec<(&str, bool)> =
        forward.peer_list().iter().map(|(p, s)| (p.dns_name.as_str(), *s)).collect();
    let b: Vec<(&str, bool)> =
        backward.peer_list().iter().map(|(p, s)| (p.dns_name.as_str(), *s)).collect();
    assert_eq!(a, b);
    assert_eq!(format_peer_lines(&forward), format_peer_lines(&backward));
}

#[test]
fn this_device_follows_peers_of_its_host_name() {
    let mut peers = PeerMap::new();
    peers.insert("n1".to_string(), peer("me", "zz.ts.net.", false, &[]));
    peers.insert("n2".to_string(), peer("me", "aa.ts.net.", true, &[]));
    let status = Status {
        backend_state: "Running".to_string(),
        myself: peer("me", "me.ts.net.", true, &[]),
        peers,
    };
    let list: Vec<(&str, bool)> =
        status.peer_list().iter().map(|(p, s)| (p.dns_name.as_str(), *s)).collect();
    assert_eq!(list, vec![("aa.ts.net.", false), ("zz.ts.net.", false), ("me.ts.net.", true)]);
}

#[test]
fn equal_names_order_by_online_state_then_addresses() {
    let mut peers = PeerMap::new();
    peers.insert("n1".to_string(), peer("h", "d.", true, &["100.64.0.2"]));
    peers.insert("n2".to_string(), peer("h", "d.", true, &["100.64.0.1"]));
    peers.insert("n3".to_string(), peer("h", "d.", false, &["100.64.0.9"]));
    let status = Status {
        backend_state: "Running".to_string(),
        myself: peer("z", "z.", true, &[]),
        peers,
    };
    let ips: Vec<Option<&str>> = status.peer_list().iter().map(|(p, _)| p.ipv4()).collect();
    assert_eq!(ips, vec![Some("100.64.0.9"), Some("100.64.0.1"), Some("100.64.0.2"), None]);
}

#[test]
fn picker_text_has_one_line_per_device() {
    let status = sample("Running");
    let text = format_peer_lines(&status);
    let lines: Vec<&str> = text.split('\n').collect();
    assert_eq!(lines.len(), status.peers.len() + 1);
    assert!(lines.iter().all(|l| l.split('\t').count() == 3));
    assert_eq!(lines.iter().filter(|l| l.ends_with("\t(this device)")).count(), 1);
}

#[test]
fn peer_list_orders_by_code_point() {
    let mut peers = PeerMap::new();
    peers.insert("n1".to_string(), peer("b", "b.", true, &[]));
    peers.insert("n2".to_string(), peer("B", "B.", true, &[]));
    peers.insert("n3".to_string(), peer("ab", "ab.", true, &[]));
    peers.insert("n4".to_string(), peer("é", "e.", true, &[]));
    let status = Status {
        backend_state: "Running".to_string(),
        myself: peer("a", "a.", true, &[]),
        peers,
    };
    let names: Vec<&str> = status.peer_list().iter().map(|(p, _)| p.host_name.as_str()).collect();
    assert_eq!(names, vec!["B", "a", "ab", "b", "é"]);
}

#[test]
fn format_peer_lines_of_lone_device() {
    let status = Status {
        backend_state: "Stopped".to_string(),
        myself: peer("solo", "solo.ts.net.", false, &[]),
        peers: PeerMap::new(),
    };
    assert_eq!(format_peer_lines(&status), "solo\tsolo.ts.net.\t(this device)");
}

#[test]
fn peer_map_insert_replaces_in_place() {
    let mut peers = PeerMap::new();
    assert!(peers.insert("n1".to_string(), peer("a", "a.", true, &[])).is_none());
    assert!(peers.insert("n2".to_string(), peer("b", "b.", true, &[])).is_none());
    let old = peers.insert("n1".to_string(), peer("c", "c.", false, &[])).unwrap();
    assert_eq!(old.host_name, "a");
    assert_eq!(peers.len(), 2);
    let status = Status {
        backend_state: "Running".to_string(),
        myself: peer("z", "z.", true, &[]),
        peers,
    };
    assert!(status.find_peer_by_dns_name("a.").is_none());
    assert_eq!(status.find_peer_by_dns_name("c.").unwrap().host_name, "c");
}

#[test]
fn ipv4_skips_ipv6_listed_first() {
    let p = peer("x", "x.", true, &["fd7a:115c:a1e0::9", "100.101.102.103"]);
    assert_eq!(p.ipv4(), Some("100.101.102.103"));
}

#[test]
fn ipv4_addresses_accepted() {
    for text in ["0.0.0.0", "100.64.0.1", "255.255.255.255", "1.2.3.4", "10.0.10.200"] {
        assert!(is_ipv4_address(text), "{text}");
    }
}

#[test]
fn ipv4_addresses_refused() {
    for text in [
        "", "1.2.3", "1.2.3.4.5", "256.1.1.1", "1.2.3.256", "01.2.3.4", "1.2.3.04", "1..3.4",
        ".1.2.3", "1.2.3.", "1.2.3.4 ", " 1.2.3.4", "1.2.3.a", "1000.1.1.1", "+1.2.3.4",
        "fd7a:115c:a1e0::1", "١.2.3.4",
    ] {
        assert!(!is_ipv4_address(text), "{text}");
    }
}
