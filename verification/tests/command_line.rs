use micromodem::cli::{has_flag, option_value, parse_invocation, Invocation, ScanOptions};
use micromodem::config::parse_config;
use micromodem::dashboard::MicroModemApp;
use micromodem::interfaces::Interface;
use micromodem::ipv4::Ipv4;
use micromodem::probe::{Finding, Kind};

fn args(v: &[&str]) -> Vec<String> {
    v.iter().map(|s| s.to_string()).collect()
}

#[test]
fn option_values() {
    let a = args(&["scan", "--port", "8282", "--host"]);
    assert_eq!(option_value(&a, "--port"), Some("8282"));
    assert_eq!(option_value(&a, "--host"), None);
    assert_eq!(option_value(&a, "--json"), None);
    assert!(has_flag(&a, "scan"));
    assert!(!has_flag(&a, "--json"));
}

#[test]
fn invocations() {
    assert!(matches!(parse_invocation(&args(&["--help"])), Invocation::Help));
    assert!(matches!(parse_invocation(&args(&["-h", "scan"])), Invocation::Help));
    assert!(matches!(parse_invocation(&args(&["gui"])), Invocation::Gui));
    match parse_invocation(&args(&["probe"])) {
        Invocation::UnknownCommand(c) => assert_eq!(c, "probe"),
        other => panic!("{other:?}"),
    }
    match parse_invocation(&args(&["--json"])) {
        Invocation::UnknownCommand(c) => assert_eq!(c, "--json"),
        other => panic!("{other:?}"),
    }
    assert!(matches!(
        parse_invocation(&args(&["scan", "--host", "phone"])),
        Invocation::InvalidHost
    ));
    match parse_invocation(&args(&[])) {
        Invocation::Scan(o) => assert_eq!(
            o,
            ScanOptions { json: false, verbose: false, timeout_ms: 700, host: None, port: None }
        ),
        other => panic!("{other:?}"),
    }
    match parse_invocation(&args(&[
        "scan", "--json", "-v", "--timeout-ms", "1500", "--host", "192.168.49.1", "--port", "x",
    ])) {
        Invocation::Scan(o) => assert_eq!(
            o,
            ScanOptions {
                json: true,
                verbose: true,
                timeout_ms: 1500,
                host: Some(Ipv4::new(192, 168, 49, 1)),
                port: None,
            }
        ),
        other => panic!("{other:?}"),
    }
    match parse_invocation(&args(&["scan", "--timeout-ms", "soon", "--port", "1080"])) {
        Invocation::Scan(o) => {
            assert_eq!(o.timeout_ms, 700);
            assert_eq!(o.port, Some(1080));
        }
        other => panic!("{other:?}"),
    }
}

#[test]
fn dashboard_starts_from_the_settings() {
    let app = MicroModemApp::new(&parse_config(Some("SOCKS5_ADDR='10.0.0.1'\nWIFI_COUNTRY=gb")));
    assert_eq!(app.socks5_addr, "10.0.0.1");
    assert_eq!(app.socks5_port, "8228");
    assert_eq!(app.mode, "wifi");
    assert_eq!(app.ssid, "MicroModem");
    assert_eq!(app.country, "gb");
    assert_eq!(app.notice, "Ready. Scan, configure, then start the gateway.");
    assert!(app.interfaces.is_empty() && app.proxies.is_empty() && app.logs.is_none());
}

#[test]
fn dashboard_save_and_actions() {
    let mut app = MicroModemApp::new(&parse_config(None));
    app.socks5_addr = " 10.0.0.1 ".to_string();
    app.downstream_if = " wlan0".to_string();
    app.passphrase = "short".to_string();
    assert_eq!(app.proxy_address(), "10.0.0.1");
    assert_eq!(app.save(parse_config(None)), None);
    assert_eq!(app.notice, "Wi-Fi password must contain 8 to 63 characters");
    app.passphrase = "long enough".to_string();
    let text = app.save(parse_config(None)).unwrap();
    let saved = parse_config(Some(&text));
    assert_eq!(saved.get("SOCKS5_ADDR").map(|s| s.as_str()), Some("10.0.0.1"));
    assert_eq!(saved.get("DOWNSTREAM_IF").map(|s| s.as_str()), Some("wlan0"));
    assert!(app.saved(Ok(())));
    assert_eq!(app.notice, "Configuration saved.");
    assert!(!app.saved(Err("disk full".to_string())));
    assert_eq!(app.notice, "Could not save config: disk full");
    assert!(MicroModemApp::action_needs_save("start"));
    assert!(!MicroModemApp::action_needs_save("stop"));
    app.action(Err("Unsupported gateway action".to_string()));
    assert_eq!(app.notice, "Unsupported gateway action");
    app.refresh(Ok("micromodem-tunnel Up 3 minutes".to_string()));
    assert!(app.gateway_running());
    app.refresh(Err("micromodem-tunnel not running".to_string()));
    assert!(!app.gateway_running());
}

#[test]
fn dashboard_scan_rows() {
    let mut app = MicroModemApp::new(&parse_config(None));
    let interfaces = vec![Interface {
        name: "usb0".to_string(),
        addresses: vec![Ipv4::new(192, 168, 42, 57), Ipv4::new(10, 0, 0, 2)],
        gateway: None,
        score: 95,
    }];
    let findings = vec![
        Finding {
            host: Ipv4::new(192, 168, 49, 1),
            port: 8282,
            kind: Kind::Socks5 { udp_associate: true },
            source: "x".to_string(),
        },
        Finding {
            host: Ipv4::new(10, 0, 0, 1),
            port: 3128,
            kind: Kind::HttpConnect,
            source: "y".to_string(),
        },
    ];
    app.scan(&interfaces, &findings);
    assert_eq!(
        app.interfaces,
        vec![("usb0".to_string(), "192.168.42.57, 10.0.0.2".to_string(), String::new())]
    );
    assert_eq!(
        app.proxies,
        vec![
            ("192.168.49.1".to_string(), "8282".to_string(), true),
            ("10.0.0.1".to_string(), "3128".to_string(), false),
        ]
    );
    assert_eq!(app.notice, "Network scan complete.");
}

#[test]
fn dashboard_refuses_a_proxy_name() {
    let mut app = MicroModemApp::new(&parse_config(None));
    app.socks5_addr = " proxy.local ".to_string();
    app.downstream_if = "wlan0".to_string();
    app.passphrase = "long enough".to_string();
    assert_eq!(app.save(parse_config(None)), None);
    assert_eq!(app.notice, "Proxy address must be an IPv4 or IPv6 address");
    app.socks5_addr = " fd00::2 ".to_string();
    let text = app.save(parse_config(None)).unwrap();
    let saved = parse_config(Some(&text));
    assert_eq!(saved.get("SOCKS5_ADDR").map(|s| s.as_str()), Some("fd00::2"));
}
