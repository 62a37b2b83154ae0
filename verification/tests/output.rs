use micromodem::interfaces::Interface;
use micromodem::ipv4::Ipv4;
use micromodem::probe::{Finding, Kind};
use micromodem::report::{esc, human_report, scan_reply, to_json};

fn sample() -> (Vec<Interface>, Vec<Finding>) {
    let interfaces = vec![
        Interface {
            name: "usb0".to_string(),
            addresses: vec![Ipv4::new(192, 168, 42, 57), Ipv4::new(10, 0, 0, 2)],
            gateway: Some(Ipv4::new(192, 168, 42, 129)),
            score: 95,
        },
        Interface {
            name: "wl\"an\\0".to_string(),
            addresses: vec![],
            gateway: None,
            score: 70,
        },
    ];
    let findings = vec![
        Finding {
            host: Ipv4::new(192, 168, 49, 1),
            port: 8282,
            kind: Kind::Socks5 { udp_associate: true },
            source: "known Android tethering address".to_string(),
        },
        Finding {
            host: Ipv4::new(10, 0, 0, 1),
            port: 3128,
            kind: Kind::HttpConnect,
            source: "MM_\"CANDIDATES".to_string(),
        },
        Finding {
            host: Ipv4::new(10, 0, 0, 1),
            port: 22,
            kind: Kind::OpenTcp,
            source: "command line".to_string(),
        },
    ];
    (interfaces, findings)
}

#[test]
fn escapes_backslashes_then_quotes() {
    assert_eq!(esc(r#"a\b"c"#), r#"a\\b\"c"#);
    assert_eq!(esc(r#"\""#), r#"\\\""#);
    assert_eq!(esc("plain"), "plain");
    assert_eq!(esc(""), "");
}

#[test]
fn json_report() {
    let (interfaces, findings) = sample();
    assert_eq!(
        to_json(&interfaces, &findings),
        [
            r#"{"interfaces":[{"name":"usb0","addresses":["192.168.42.57","10.0.0.2"],"gateway":"192.168.42.129","score":95},"#,
            r#"{"name":"wl\"an\\0","addresses":[],"gateway":null,"score":70}],"#,
            r#""proxies":[{"host":"192.168.49.1","port":8282,"kind":"socks5","udp_associate":true,"source":"known Android tethering address"},"#,
            r#"{"host":"10.0.0.1","port":3128,"kind":"http_connect","udp_associate":false,"source":"MM_\"CANDIDATES"},"#,
            r#"{"host":"10.0.0.1","port":22,"kind":"open_tcp","udp_associate":false,"source":"command line"}]}"#,
        ]
        .join("")
    );
    assert_eq!(to_json(&[], &[]), r#"{"interfaces":[],"proxies":[]}"#);
}

#[test]
fn human_report_lines() {
    let (interfaces, findings) = sample();
    assert_eq!(
        human_report(&interfaces, &findings),
        vec![
            "Interface usb0 (score 95): addresses [192.168.42.57, 10.0.0.2], gateway 192.168.42.129",
            "Interface wl\"an\\0 (score 70): addresses []",
            "192.168.49.1:8282 \u{2014} SOCKS5 (UDP ASSOCIATE accepted) [known Android tethering address]",
            "10.0.0.1:3128 \u{2014} HTTP CONNECT proxy [MM_\"CANDIDATES]",
            "10.0.0.1:22 \u{2014} open TCP (unrecognised protocol) [command line]",
        ]
    );
    assert_eq!(
        human_report(&[], &[]),
        vec![
            "No likely USB/RNDIS interface with a private IPv4 address found.",
            "No proxy detected. Try --host 192.168.49.1 --port 8282 or set MM_CANDIDATES.",
        ]
    );
}

/// Reads a JSON string body up to its closing quote, undoing `\\` and `\"`.
fn read_back(t: &str) -> Option<(String, usize)> {
    let chars: Vec<char> = t.chars().collect();
    let mut out = String::new();
    let mut i = 0;
    while i < chars.len() {
        match chars[i] {
            '"' => return Some((out, i)),
            '\\' if i + 1 < chars.len() => {
                out.push(chars[i + 1]);
                i += 2;
            }
            '\\' => return None,
            c => {
                out.push(c);
                i += 1;
            }
        }
    }
    None
}

#[test]
fn escaped_text_reads_back() {
    for s in ["", "plain", r#"a"b"#, r#"c:\dir\"#, r#"\""#, "\"\"\\\\"] {
        let e = esc(s);
        let (text, end) = read_back(&format!("{e}\",\"x\":1")).unwrap();
        assert_eq!(text, s);
        assert_eq!(end, e.chars().count());
    }
}

#[test]
fn scan_reply_is_the_report_or_an_error_object() {
    let (interfaces, findings) = sample();
    let json = to_json(&interfaces, &findings);
    assert_eq!(scan_reply(Ok((interfaces, findings))), json);
    assert_eq!(scan_reply(Ok((vec![], vec![]))), r#"{"interfaces":[],"proxies":[]}"#);
    assert_eq!(
        scan_reply(Err("task panicked".to_string())),
        r#"{"error":"scan worker failed: task panicked"}"#
    );
}
