use gentleman_manager::pc_remote_discovery::{
    host_probe_step, start_host_probe, ProbeAction,
    check_remote_api_v2, check_remote_api_v3, connected_result, connection_test_hosts,
    default_remote_api_v1, discovered_from_mdns, discovered_from_reply_text,
    format_connection_failure, healthy_result, is_ipv4, merge_discovered, no_host_result,
    parse_udp_reply, remote_api_url, sort_discovered_by_name, text_lines_of, DiscoveredRemotePc,
    RemoteApiError,
};

fn pc(name: &str, hosts: &[&str], port: u16) -> DiscoveredRemotePc {
    DiscoveredRemotePc { name: name.to_string(), hosts: hosts.iter().map(|h| h.to_string()).collect(), port }
}

#[test]
fn udp_reply_is_read() {
    let data = b"GM_REMOTE_V1\r\nOK\nDesk\n38765\n 192.168.1.9 \nnot-an-ip\n10.0.0.2\n192.168.1.9\n";
    let found = parse_udp_reply(data);
    assert_eq!(found.name, "Desk");
    assert_eq!(found.port, 38765);
    assert_eq!(found.hosts, vec!["10.0.0.2".to_string(), "192.168.1.9".to_string()]);
}

#[test]
fn udp_reply_with_wrong_header_is_empty() {
    let found = parse_udp_reply(b"HELLO\nOK\nDesk\n1\n1.2.3.4\n");
    assert_eq!(found.name, "");
    assert_eq!(found.port, 0);
    assert!(found.hosts.is_empty());
    let bad = parse_udp_reply(&[0xff, 0xfe]);
    assert_eq!(bad.name, "");
    let port = discovered_from_reply_text(Some("GM_REMOTE_V1\nOK\nDesk\nx\n"));
    assert_eq!(port.port, 0);
    assert_eq!(port.name, "Desk");
}

#[test]
fn lines_like_str_lines() {
    let lines: Vec<String> = text_lines_of("a\r\nb\n\nc\r")
        .iter()
        .map(|l| l.iter().collect())
        .collect();
    assert_eq!(lines, vec!["a", "b", "", "c\r"]);
    assert!(text_lines_of("").is_empty());
    assert_eq!(text_lines_of("x\n").len(), 1);
}

#[test]
fn ipv4_text() {
    let ok = |s: &str| is_ipv4(&s.chars().collect());
    assert!(ok("192.168.0.1"));
    assert!(ok("0.0.0.0"));
    assert!(!ok("256.1.1.1"));
    assert!(!ok("01.1.1.1"));
    assert!(!ok("1.1.1"));
    assert!(!ok("1.1.1.1."));
    assert!(!ok("a.b.c.d"));
}

#[test]
fn merging_found_apps() {
    let mut found = vec![pc("A", &["10.0.0.5"], 1)];
    merge_discovered(&mut found, pc("A", &[], 1));
    assert_eq!(found.len(), 1);
    merge_discovered(&mut found, pc("A", &["10.0.0.1", "10.0.0.5"], 1));
    assert_eq!(found[0].hosts, vec!["10.0.0.1".to_string(), "10.0.0.5".to_string()]);
    merge_discovered(&mut found, pc("A", &["10.0.0.9"], 2));
    assert_eq!(found.len(), 2);
}

#[test]
fn mdns_names() {
    let hosts = vec!["10.0.0.2".to_string(), "10.0.0.1".to_string(), "10.0.0.2".to_string()];
    let found = discovered_from_mdns("Desk._gentleman-manager._tcp.local.", &hosts, 38765);
    assert_eq!(found.name, "Desk");
    assert_eq!(found.hosts, vec!["10.0.0.1".to_string(), "10.0.0.2".to_string()]);
}

#[test]
fn connection_messages() {
    let hosts = vec!["10.0.0.1".to_string(), "10.0.0.2".to_string()];
    assert_eq!(
        format_connection_failure(&hosts, 8080, "other"),
        "不能連線（已試 10.0.0.1、10.0.0.2）：other"
    );
    assert!(format_connection_failure(&hosts, 8080, "connection refused").starts_with("無法連線 10.0.0.1、10.0.0.2:8080（"));
    assert!(format_connection_failure(&hosts, 8080, "operation timed out").starts_with("連線逾時（10.0.0.1、10.0.0.2:8080）"));
    assert_eq!(connected_result("h", 2).message, "能連線（h）");
    assert_eq!(connected_result("h", 1).message, "能連線");
    assert!(!no_host_result().connected);
    assert_eq!(healthy_result("h", 1).message, "能連線（PC 程式過舊，長檔名或 [ ] 可能失敗，請更新 EXE）");
    assert_eq!(healthy_result("h", 2).connected_host.as_deref(), Some("h"));
}

#[test]
fn test_hosts_are_trimmed() {
    let hosts = vec![" 10.0.0.1 ".to_string(), "   ".to_string(), "h".to_string()];
    assert_eq!(connection_test_hosts(&hosts), vec!["10.0.0.1".to_string(), "h".to_string()]);
}

#[test]
fn remote_api_versions() {
    assert_eq!(default_remote_api_v1(), 1);
    assert_eq!(check_remote_api_v2(false, 5), Err(RemoteApiError::NotOk));
    assert_eq!(check_remote_api_v2(true, 1), Err(RemoteApiError::TooOld(1)));
    assert_eq!(check_remote_api_v2(true, 2), Ok(()));
    assert_eq!(check_remote_api_v3(2), Err(RemoteApiError::TooOld(2)));
    assert_eq!(check_remote_api_v3(3), Ok(()));
    assert_eq!(remote_api_url("h", 38765, "health"), "http://h:38765/api/v1/health");
}

#[test]
fn discovered_apps_sorted_by_name_stably() {
    let found = vec![pc("Zed", &["10.0.0.3"], 1), pc("Alpha", &["10.0.0.1"], 2), pc("Zed", &["10.0.0.4"], 3), pc("Beta", &[], 4)];
    let sorted = sort_discovered_by_name(found);
    let order: Vec<(String, u16)> = sorted.iter().map(|p| (p.name.clone(), p.port)).collect();
    assert_eq!(
        order,
        vec![("Alpha".to_string(), 2), ("Beta".to_string(), 4), ("Zed".to_string(), 1), ("Zed".to_string(), 3)]
    );
}

#[test]
fn host_probe_tries_hosts_in_turn() {
    let (p, a) = start_host_probe(&vec![" ".to_string()], 5000);
    match a {
        ProbeAction::Finish(r) => assert_eq!((r.connected, r.message.as_str()), (false, "沒有可測試的 IP")),
        _ => panic!("expected a verdict"),
    }
    assert!(p.hosts.is_empty());
    let (p, a) = start_host_probe(&vec![" 10.0.0.2 ".to_string(), "10.0.0.3".to_string()], 5000);
    match a {
        ProbeAction::Probe(h) => assert_eq!(h, "10.0.0.2"),
        _ => panic!("expected a probe"),
    }
    let (p, a) = host_probe_step(p, false, "timed out");
    match a {
        ProbeAction::Probe(h) => assert_eq!(h, "10.0.0.3"),
        _ => panic!("expected a probe"),
    }
    let (_, a) = host_probe_step(p, true, "");
    match a {
        ProbeAction::Finish(r) => {
            assert!(r.connected);
            assert_eq!(r.message, "能連線（10.0.0.3）");
            assert_eq!(r.connected_host.as_deref(), Some("10.0.0.3"));
        }
        _ => panic!("expected a verdict"),
    }
    let (p, _) = start_host_probe(&vec!["10.0.0.2".to_string()], 5000);
    let (_, a) = host_probe_step(p, false, "connection refused");
    match a {
        ProbeAction::Finish(r) => {
            assert!(!r.connected);
            assert_eq!(r.message, format_connection_failure(&["10.0.0.2".to_string()], 5000, "connection refused"));
        }
        _ => panic!("expected a verdict"),
    }
}
