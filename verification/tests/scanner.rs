use micromodem::interfaces::{
    discover_interfaces, group_addresses, interface_score, parse_route_gateway, AddressGroup,
    Interface,
};
use micromodem::ipv4::{ipv4_to_string, is_private, parse_ipv4_str, Ipv4};
use micromodem::targets::{build_targets, configured_ports, parse_candidate, parse_candidates};

#[test]
fn parses_configured_ipv4_endpoint() {
    assert_eq!(
        parse_candidate("192.168.49.1:8282"),
        Some((Ipv4::new(192, 168, 49, 1), 8282))
    );
    assert_eq!(parse_candidate("not-an-address:8282"), None);
}

#[test]
fn identifies_expected_usb_interface_names() {
    assert!(interface_score("rndis0") > interface_score("eth0"));
    assert!(interface_score("usb0") > interface_score("enp4s0"));
    assert!(interface_score("wlp2s0") > interface_score("eth0"));
}

#[test]
fn interface_scores_by_name() {
    assert_eq!(interface_score("rndis0"), 100);
    assert_eq!(interface_score("my-RNDIS-link"), 100);
    assert_eq!(interface_score("USB0"), 95);
    assert_eq!(interface_score("enx0a1b2c3d4e5f"), 80);
    assert_eq!(interface_score("wlan0"), 70);
    assert_eq!(interface_score("wlp2s0"), 70);
    assert_eq!(interface_score("phone-wifi"), 70);
    assert_eq!(interface_score("eth0"), 30);
    assert_eq!(interface_score("enp4s0"), 0);
    assert_eq!(interface_score(""), 0);
}

#[test]
fn usb_names_outrank_every_other_name() {
    for usb in ["rndis0", "usb0", "enx001122334455", "usbwifi"] {
        for other in ["wlan0", "wifi", "eth0", "enp4s0", "lo", "docker0"] {
            assert!(interface_score(usb) > interface_score(other), "{usb} vs {other}");
        }
    }
}

#[test]
fn ipv4_text_parses_and_prints() {
    assert_eq!(parse_ipv4_str("10.0.0.1"), Some(Ipv4::new(10, 0, 0, 1)));
    assert_eq!(parse_ipv4_str("255.255.255.255"), Some(Ipv4::new(255, 255, 255, 255)));
    assert_eq!(parse_ipv4_str("0.0.0.0"), Some(Ipv4::new(0, 0, 0, 0)));
    assert_eq!(parse_ipv4_str("01.2.3.4"), None);
    assert_eq!(parse_ipv4_str("256.1.1.1"), None);
    assert_eq!(parse_ipv4_str("1.2.3"), None);
    assert_eq!(parse_ipv4_str("1.2.3.4.5"), None);
    assert_eq!(parse_ipv4_str("+1.2.3.4"), None);
    assert_eq!(parse_ipv4_str("1.2.3.4 "), None);
    assert_eq!(parse_ipv4_str(""), None);
    assert_eq!(ipv4_to_string(Ipv4::new(192, 168, 42, 129)), "192.168.42.129");
    assert_eq!(ipv4_to_string(Ipv4::new(0, 10, 100, 255)), "0.10.100.255");
}

#[test]
fn printed_addresses_parse_back() {
    for ip in [
        Ipv4::new(0, 0, 0, 0),
        Ipv4::new(9, 10, 99, 100),
        Ipv4::new(192, 168, 49, 1),
        Ipv4::new(255, 254, 200, 7),
    ] {
        assert_eq!(parse_ipv4_str(&ipv4_to_string(ip)), Some(ip));
    }
}

#[test]
fn private_ranges() {
    assert!(is_private(Ipv4::new(10, 1, 2, 3)));
    assert!(is_private(Ipv4::new(172, 16, 0, 1)));
    assert!(is_private(Ipv4::new(172, 31, 255, 255)));
    assert!(!is_private(Ipv4::new(172, 32, 0, 1)));
    assert!(is_private(Ipv4::new(192, 168, 42, 129)));
    assert!(!is_private(Ipv4::new(192, 169, 0, 1)));
    assert!(is_private(Ipv4::new(100, 64, 0, 1)));
    assert!(is_private(Ipv4::new(100, 127, 255, 255)));
    assert!(!is_private(Ipv4::new(100, 128, 0, 1)));
    assert!(!is_private(Ipv4::new(8, 8, 8, 8)));
}

const IP_ADDR_OUTPUT: &str = "2: usb0    inet 192.168.42.57/24 brd 192.168.42.255 scope global dynamic usb0\\       valid_lft 3500sec preferred_lft 3500sec
3: wlan0    inet 8.8.4.4/24 scope global wlan0
4: usb0    inet 10.0.0.2/8 scope global usb0
5: eth0    inet 172.16.1.5/16 scope global eth0\r
6: broken
";

#[test]
fn groups_private_addresses_by_interface() {
    let groups = group_addresses(IP_ADDR_OUTPUT);
    assert_eq!(groups.len(), 2);
    assert_eq!(groups[0].name, "usb0");
    assert_eq!(
        groups[0].addresses,
        vec![Ipv4::new(192, 168, 42, 57), Ipv4::new(10, 0, 0, 2)]
    );
    assert_eq!(groups[1].name, "eth0");
    assert_eq!(groups[1].addresses, vec![Ipv4::new(172, 16, 1, 5)]);
    assert!(group_addresses("").is_empty());
}

#[test]
fn reads_route_gateway() {
    assert_eq!(
        parse_route_gateway("default via 192.168.42.129 dev usb0 proto dhcp\n192.168.42.0/24 dev usb0 scope link\n"),
        Some(Ipv4::new(192, 168, 42, 129))
    );
    assert_eq!(parse_route_gateway("192.168.42.0/24 dev usb0 scope link\n"), None);
    assert_eq!(
        parse_route_gateway("x via nothing via 1.2.3.4\ndefault via 10.0.0.1 dev usb0"),
        Some(Ipv4::new(10, 0, 0, 1))
    );
    assert_eq!(parse_route_gateway("default dev usb0 via"), None);
    assert_eq!(parse_route_gateway(""), None);
}

#[test]
fn keeps_interfaces_that_score() {
    let groups = vec![
        AddressGroup { name: "usb0".to_string(), addresses: vec![Ipv4::new(192, 168, 42, 57)] },
        AddressGroup { name: "docker0".to_string(), addresses: vec![Ipv4::new(172, 17, 0, 1)] },
        AddressGroup { name: "wlan0".to_string(), addresses: vec![Ipv4::new(10, 1, 1, 9)] },
    ];
    let gateways = vec![Some(Ipv4::new(192, 168, 42, 129)), None, None];
    let ifs = discover_interfaces(&groups, &gateways);
    assert_eq!(ifs.len(), 2);
    assert_eq!(ifs[0].name, "usb0");
    assert_eq!(ifs[0].score, 95);
    assert_eq!(ifs[0].gateway, Some(Ipv4::new(192, 168, 42, 129)));
    assert_eq!(ifs[1].name, "wlan0");
    assert_eq!(ifs[1].score, 70);
    assert_eq!(ifs[1].gateway, None);
}

#[test]
fn port_lists() {
    let defaults = vec![8282, 1080, 10808, 9050, 7890, 3128, 8080];
    assert_eq!(configured_ports(None), defaults);
    assert_eq!(configured_ports(Some("80, 443 ,x,+8080")), vec![80, 443, 8080]);
    assert_eq!(configured_ports(Some("x,70000,")), defaults);
    assert_eq!(configured_ports(Some("")), defaults);
}

#[test]
fn candidate_lists() {
    assert_eq!(
        parse_candidates(" 192.168.49.1:8282 ,bad,10.0.0.1:1080,1.2.3.4:99999"),
        vec![(Ipv4::new(192, 168, 49, 1), 8282), (Ipv4::new(10, 0, 0, 1), 1080)]
    );
    assert!(parse_candidates("").is_empty());
    assert_eq!(parse_candidate("1.2.3.4:5:6"), None);
    assert_eq!(parse_candidate("1.2.3.4"), None);
}

fn usb_interface() -> Interface {
    Interface {
        name: "usb0".to_string(),
        addresses: vec![Ipv4::new(192, 168, 42, 57)],
        gateway: Some(Ipv4::new(192, 168, 42, 129)),
        score: 95,
    }
}

#[test]
fn targets_for_a_given_host_and_port() {
    let t = build_targets(&[usb_interface()], Some(Ipv4::new(10, 0, 0, 9)), Some(1080), "", None);
    assert_eq!(t.len(), 1);
    assert_eq!(t[0].host, Ipv4::new(10, 0, 0, 9));
    assert_eq!(t[0].port, 1080);
    assert_eq!(t[0].source, "command line");
}

#[test]
fn targets_from_interfaces() {
    let t = build_targets(&[usb_interface()], None, Some(8282), "", Some("1,2"));
    let got: Vec<(Ipv4, u16, String)> = t.into_iter().map(|t| (t.host, t.port, t.source)).collect();
    let derived = "derived from usb0 (192.168.42.57)".to_string();
    let known = "known Android tethering address".to_string();
    assert_eq!(
        got,
        vec![
            (Ipv4::new(192, 168, 42, 129), 8282, "gateway on usb0".to_string()),
            (Ipv4::new(192, 168, 42, 1), 8282, derived.clone()),
            (Ipv4::new(192, 168, 42, 2), 8282, derived.clone()),
            (Ipv4::new(192, 168, 49, 1), 8282, known.clone()),
        ]
    );
}

#[test]
fn targets_are_unique_and_cover_every_port() {
    let t = build_targets(
        &[usb_interface()],
        None,
        None,
        "192.168.49.1:8282,192.168.49.1:5555,10.9.9.9:7",
        Some("8282,1080"),
    );
    for i in 0..t.len() {
        for j in 0..i {
            assert!(!(t[i].host == t[j].host && t[i].port == t[j].port));
        }
    }
    let has = |h: Ipv4, p: u16| t.iter().any(|t| t.host == h && t.port == p);
    for p in [8282, 1080] {
        assert!(has(Ipv4::new(192, 168, 49, 1), p));
        assert!(has(Ipv4::new(192, 168, 42, 129), p));
        assert!(has(Ipv4::new(10, 9, 9, 9), p));
    }
    assert!(has(Ipv4::new(192, 168, 49, 1), 5555));
    assert!(has(Ipv4::new(10, 9, 9, 9), 7));
    let first = t
        .iter()
        .find(|t| t.host == Ipv4::new(192, 168, 49, 1) && t.port == 8282)
        .unwrap();
    assert_eq!(first.source, "known Android tethering address");
    let explicit = t.iter().find(|t| t.host == Ipv4::new(10, 9, 9, 9) && t.port == 7).unwrap();
    assert_eq!(explicit.source, "MM_CANDIDATES");
    assert_eq!(t.len(), 12);
}
