use micromodem::config::{
    config_path, gateway_action, gateway_logs, output_text, parse_config, render_config_file,
    checked_config_text, safe_value, save_gateway_config, Config, GatewayAction, LogOutput,
};

fn get(c: &Config, k: &str) -> Option<String> {
    c.get(k).cloned()
}

#[test]
fn defaults_when_the_file_is_missing() {
    let c = parse_config(None);
    assert_eq!(get(&c, "SOCKS5_PORT").as_deref(), Some("8228"));
    assert_eq!(get(&c, "DOWNSTREAM_MODE").as_deref(), Some("wifi"));
    assert_eq!(get(&c, "DNS_SERVERS").as_deref(), Some("1.1.1.1,9.9.9.9"));
    assert_eq!(get(&c, "SOCKS5_ADDR").as_deref(), Some(""));
    assert_eq!(get(&c, "NOT_A_SETTING"), None);
}

#[test]
fn reads_settings_lines() {
    let text = "# comment\n\n  SOCKS5_ADDR = '192.168.49.1'  \nSOCKS5_PORT=\"8282\"\r\nEXTRA=a=b\nnot a setting\nWIFI_SSID='\nDOWNSTREAM_IF= usb0 ";
    let c = parse_config(Some(text));
    assert_eq!(get(&c, "SOCKS5_ADDR").as_deref(), Some("192.168.49.1"));
    assert_eq!(get(&c, "SOCKS5_PORT").as_deref(), Some("8282"));
    assert_eq!(get(&c, "EXTRA").as_deref(), Some("a=b"));
    assert_eq!(get(&c, "WIFI_SSID").as_deref(), Some("'"));
    assert_eq!(get(&c, "DOWNSTREAM_IF").as_deref(), Some("usb0"));
    assert_eq!(get(&c, "LOG_LEVEL").as_deref(), Some("info"));
}

#[test]
fn later_lines_win() {
    let c = parse_config(Some("LOG_LEVEL=debug\nLOG_LEVEL='trace'\n"));
    assert_eq!(get(&c, "LOG_LEVEL").as_deref(), Some("trace"));
}

#[test]
fn config_insert_and_get() {
    let mut c = Config::new();
    assert_eq!(get(&c, "A"), None);
    c.insert("A".to_string(), "1".to_string());
    c.insert("B".to_string(), "2".to_string());
    c.insert("A".to_string(), "3".to_string());
    assert_eq!(get(&c, "A").as_deref(), Some("3"));
    assert_eq!(get(&c, "B").as_deref(), Some("2"));
}

#[test]
fn renders_every_known_setting() {
    let text = render_config_file(&parse_config(None));
    assert_eq!(
        text,
        "SOCKS5_ADDR=''\nSOCKS5_PORT='8228'\nDOWNSTREAM_IF=''\nDOWNSTREAM_MODE='wifi'\nDOWNSTREAM_ADDR='10.77.0.1/24'\nDOWNSTREAM_SUBNET='10.77.0.0/24'\nTUN_MTU='1400'\nCLIENT_MTU='1400'\nDHCP_START='10.77.0.20'\nDHCP_END='10.77.0.200'\nDHCP_LEASE='12h'\nDNS_SERVERS='1.1.1.1,9.9.9.9'\nWIFI_SSID='MicroModem'\nWIFI_PASSPHRASE=''\nWIFI_CHANNEL='6'\nWIFI_COUNTRY='US'\nSOCKS5_UDP_MODE='udp'\nSOCKS5_USERNAME=''\nSOCKS5_PASSWORD=''\nLOG_LEVEL='info'\n"
    );
}

fn save(
    ip: bool,
    addr: &str,
    port: &str,
    dif: &str,
    mode: &str,
    ssid: &str,
    pass: &str,
    chan: &str,
    country: &str,
) -> Result<String, String> {
    checked_config_text(
        ip,
        addr.to_string(),
        port.to_string(),
        dif.to_string(),
        mode.to_string(),
        ssid.to_string(),
        pass.to_string(),
        chan.to_string(),
        country.to_string(),
        parse_config(None),
    )
}

#[test]
fn saved_settings_read_back() {
    let text = save(true, "192.168.49.1", "8282", "wlan0", "wifi", "Phone Net", "secret123", "11", "de")
        .unwrap();
    let c = parse_config(Some(&text));
    assert_eq!(get(&c, "SOCKS5_ADDR").as_deref(), Some("192.168.49.1"));
    assert_eq!(get(&c, "SOCKS5_PORT").as_deref(), Some("8282"));
    assert_eq!(get(&c, "DOWNSTREAM_IF").as_deref(), Some("wlan0"));
    assert_eq!(get(&c, "DOWNSTREAM_MODE").as_deref(), Some("wifi"));
    assert_eq!(get(&c, "WIFI_SSID").as_deref(), Some("Phone Net"));
    assert_eq!(get(&c, "WIFI_PASSPHRASE").as_deref(), Some("secret123"));
    assert_eq!(get(&c, "WIFI_CHANNEL").as_deref(), Some("11"));
    assert_eq!(get(&c, "WIFI_COUNTRY").as_deref(), Some("DE"));
    assert_eq!(get(&c, "TUN_MTU").as_deref(), Some("1400"));
}

#[test]
fn ethernet_needs_no_password() {
    assert!(save(true, "::1", "1080", "eth0", "ethernet", "", "", "6", "US").is_ok());
}

#[test]
fn each_check_has_its_message() {
    let ok = |r: Result<String, String>| r.unwrap_err();
    assert_eq!(
        ok(save(false, "nope", "8282", "wlan0", "wifi", "s", "secret123", "6", "US")),
        "Proxy address must be an IPv4 or IPv6 address"
    );
    assert_eq!(
        ok(save(true, "10.0.0.1", "65536", "wlan0", "wifi", "s", "secret123", "6", "US")),
        "Proxy port must be between 1 and 65535"
    );
    assert_eq!(
        ok(save(true, "10.0.0.1", "80", "", "wifi", "s", "secret123", "6", "US")),
        "Downstream interface is invalid"
    );
    assert_eq!(
        ok(save(true, "10.0.0.1", "80", "wl an", "wifi", "s", "secret123", "6", "US")),
        "Downstream interface is invalid"
    );
    assert_eq!(
        ok(save(true, "10.0.0.1", "80", "wlan0", "bridge", "s", "secret123", "6", "US")),
        "Downstream mode must be ethernet or wifi"
    );
    assert_eq!(
        ok(save(true, "10.0.0.1", "80", "wlan0", "wifi", "s", "short", "6", "US")),
        "Wi-Fi password must contain 8 to 63 characters"
    );
    assert_eq!(
        ok(save(true, "10.0.0.1", "80", "wlan0", "wifi", "s", &"x".repeat(64), "6", "US")),
        "Wi-Fi password must contain 8 to 63 characters"
    );
    assert!(save(true, "10.0.0.1", "80", "wlan0", "wifi", "s", &"x".repeat(63), "6", "US").is_ok());
    assert!(save(true, "10.0.0.1", "80", "wlan0", "wifi", "s", "\u{e9}\u{e9}\u{e9}\u{e9}", "6", "US").is_ok());
    assert_eq!(
        ok(save(true, "10.0.0.1", "80", "wlan0", "wifi", "s", "secret123", "0", "US")),
        "Wi-Fi channel is invalid"
    );
    assert_eq!(
        ok(save(true, "10.0.0.1", "80", "wlan0", "wifi", "s", "secret123", "197", "US")),
        "Wi-Fi channel is invalid"
    );
    assert_eq!(
        ok(save(true, "10.0.0.1", "80", "wlan0", "wifi", "s", "secret123", "x", "US")),
        "Wi-Fi channel is invalid"
    );
    assert_eq!(
        ok(save(true, "10.0.0.1", "80", "wlan0", "wifi", "s", "secret123", "6", "USA")),
        "Country must be a two-letter code"
    );
    assert_eq!(
        ok(save(true, "10.0.0.1", "80", "wlan0", "wifi", "s", "secret123", "6", "U1")),
        "Country must be a two-letter code"
    );
    assert_eq!(
        ok(save(true, "10.0.0.1", "80", "wlan0", "wifi", "it's", "secret123", "6", "US")),
        "SSID contains an unsupported character"
    );
    assert_eq!(
        ok(save(true, "10.0.0.1", "80", "wlan0", "wifi", "s", "secret\n123", "6", "US")),
        "Wi-Fi password contains an unsupported character"
    );
}

#[test]
fn unsafe_values() {
    assert!(safe_value("SSID", "home").is_ok());
    for bad in ["a\nb", "a\rb", "it's", "nul\0"] {
        assert_eq!(safe_value("SSID", bad).unwrap_err(), "SSID contains an unsupported character");
    }
}

#[test]
fn settings_file_location() {
    assert_eq!(config_path("/opt/gateway"), "/opt/gateway/.env");
    assert_eq!(config_path("/opt/gateway/"), "/opt/gateway/.env");
    assert_eq!(config_path(""), ".env");
}

#[test]
fn command_output_messages() {
    assert_eq!(output_text(" started \n", "", true), Ok("started".to_string()));
    assert_eq!(output_text("", " warn ", false), Err("warn".to_string()));
    assert_eq!(output_text("out\n", "err\n", true), Ok("out\nerr".to_string()));
    assert_eq!(output_text("  ", "\n", true), Ok("Command completed.".to_string()));
    assert_eq!(output_text("", "", false), Err("Command completed.".to_string()));
}

#[test]
fn gateway_actions() {
    assert_eq!(gateway_action("start".to_string()), Ok(GatewayAction::Start));
    assert_eq!(gateway_action("stop".to_string()), Ok(GatewayAction::Stop));
    assert_eq!(gateway_action("restart".to_string()), Ok(GatewayAction::Restart));
    assert_eq!(gateway_action("status".to_string()), Err("Unsupported gateway action".to_string()));
    assert_eq!(GatewayAction::Restart.as_str(), "restart");
}

#[test]
fn log_sections() {
    let logs = gateway_logs(&[
        LogOutput { container: "micromodem-tunnel".to_string(), stdout: "up\n".to_string(), stderr: "".to_string() },
        LogOutput { container: "micromodem-downstream".to_string(), stdout: "".to_string(), stderr: "err".to_string() },
    ]);
    assert_eq!(logs, "== micromodem-tunnel ==\nup\n\n== micromodem-downstream ==\nerr\n");
}

#[test]
fn loaded_settings_save_and_load_unchanged() {
    let first = parse_config(Some("SOCKS5_ADDR=\"fd00::1\"\nWIFI_SSID= 'My Net' \nLOG_LEVEL=debug\nOTHER=x\n"));
    let text = render_config_file(&first);
    let second = parse_config(Some(&text));
    for key in [
        "SOCKS5_ADDR", "SOCKS5_PORT", "DOWNSTREAM_IF", "DOWNSTREAM_MODE", "DOWNSTREAM_ADDR",
        "DOWNSTREAM_SUBNET", "TUN_MTU", "CLIENT_MTU", "DHCP_START", "DHCP_END", "DHCP_LEASE",
        "DNS_SERVERS", "WIFI_SSID", "WIFI_PASSPHRASE", "WIFI_CHANNEL", "WIFI_COUNTRY",
        "SOCKS5_UDP_MODE", "SOCKS5_USERNAME", "SOCKS5_PASSWORD", "LOG_LEVEL",
    ] {
        assert_eq!(get(&second, key), get(&first, key), "{key}");
    }
    assert_eq!(get(&second, "WIFI_SSID").as_deref(), Some("My Net"));
    assert_eq!(get(&second, "OTHER"), None);
}

fn save_checked(addr: &str) -> Result<String, String> {
    save_gateway_config(
        addr.to_string(),
        "8282".to_string(),
        "wlan0".to_string(),
        "wifi".to_string(),
        "Phone Net".to_string(),
        "secret123".to_string(),
        "11".to_string(),
        "de".to_string(),
        parse_config(None),
    )
}

#[test]
fn proxy_address_must_be_an_ip_address() {
    let message = "Proxy address must be an IPv4 or IPv6 address";
    assert_eq!(save_checked("not-an-ip").unwrap_err(), message);
    assert_eq!(save_checked("").unwrap_err(), message);
    assert_eq!(save_checked("192.168.1.256").unwrap_err(), message);
    assert_eq!(save_checked(" 10.0.0.1").unwrap_err(), message);
    assert_eq!(save_checked("proxy.local").unwrap_err(), message);
    let text = save_checked("192.168.49.1").unwrap();
    assert_eq!(get(&parse_config(Some(&text)), "SOCKS5_ADDR").as_deref(), Some("192.168.49.1"));
    assert!(save_checked("::1").is_ok());
    assert!(save_checked("fe80::1:2").is_ok());
    assert!(save_checked("::ffff:10.0.0.1").is_ok());
}

#[test]
fn proxy_port_zero_is_refused() {
    let port = |p: &str| {
        save_gateway_config(
            "192.168.49.1".to_string(),
            p.to_string(),
            "usb0".to_string(),
            "wifi".to_string(),
            "MicroModem".to_string(),
            "password123".to_string(),
            "6".to_string(),
            "US".to_string(),
            parse_config(None),
        )
    };
    let message = "Proxy port must be between 1 and 65535";
    assert_eq!(port("0").unwrap_err(), message);
    assert_eq!(port("00").unwrap_err(), message);
    assert_eq!(port("+0").unwrap_err(), message);
    assert_eq!(port("-1").unwrap_err(), message);
    assert!(port("1").is_ok());
    assert!(port("65535").is_ok());
    assert_eq!(port("65536").unwrap_err(), message);
}
