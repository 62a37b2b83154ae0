//! The dashboard's state and what each of its buttons does to it. The window
//! itself, and the commands and files that the buttons reach, are outside.
use vstd::prelude::*;
use vstd::string::*;
use crate::config::{
    save_gateway_config, settings_error, render_config, saved_settings, Config,
};
use crate::interfaces::{interface_views, Interface, InterfaceView};
use crate::ipv4::{ipv4_text, push_ipv4};
use crate::probe::{Finding, Kind};
use crate::report::{address_texts, finding_views, FindingView};
use crate::text::{text_eq, chars_of, contains_chars, contains_seq, decimal, join, push_decimal, string_of, trim, trimmed};

verus! {

/// The dashboard: the settings form, the last notice and gateway status,
/// and what the last scan found.
pub struct MicroModemApp {
    pub socks5_addr: String,
    pub socks5_port: String,
    pub downstream_if: String,
    pub mode: String,
    pub ssid: String,
    pub passphrase: String,
    pub channel: String,
    pub country: String,
    pub notice: String,
    pub status: String,
    /// Each interface: its name, its addresses, its gateway (or nothing).
    pub interfaces: Vec<(String, String, String)>,
    /// Each proxy: host, port, whether it accepted `UDP ASSOCIATE`.
    pub proxies: Vec<(String, String, bool)>,
    pub logs: Option<String>,
}

/// A setting, or `fallback` when it is unset.
pub open spec fn setting_or(m: Map<Seq<char>, Seq<char>>, k: Seq<char>, fallback: Seq<char>) -> Seq<char> {
    if m.contains_key(k) {
        m[k]
    } else {
        fallback
    }
}

fn setting(config: &Config, key: &str, fallback: &str) -> (s: String)
    ensures
        s@ == setting_or(config@, key@, fallback@),
{
    match config.get(key) {
        Some(v) => v.clone(),
        None => String::from_str(fallback),
    }
}

pub open spec fn result_text(r: Result<String, String>) -> Seq<char> {
    match r {
        Ok(s) => s@,
        Err(s) => s@,
    }
}

/// The row of the interface table for an interface.
pub open spec fn interface_row(i: InterfaceView) -> (Seq<char>, Seq<char>, Seq<char>) {
    (
        i.0,
        join(address_texts(i.1, false), ", "@),
        match i.2 {
            Some(g) => ipv4_text(g),
            None => Seq::empty(),
        },
    )
}

/// The row of the proxy table for a finding.
pub open spec fn proxy_row(f: FindingView) -> (Seq<char>, Seq<char>, bool) {
    (ipv4_text(f.0), decimal(f.1 as nat), f.2 == Kind::Socks5 { udp_associate: true })
}

pub open spec fn row_views(v: Seq<(String, String, String)>) -> Seq<(Seq<char>, Seq<char>, Seq<char>)> {
    v.map_values(|r: (String, String, String)| (r.0@, r.1@, r.2@))
}

pub open spec fn proxy_views(v: Seq<(String, String, bool)>) -> Seq<(Seq<char>, Seq<char>, bool)> {
    v.map_values(|r: (String, String, bool)| (r.0@, r.1@, r.2))
}

impl MicroModemApp {
    /// The dashboard with the form filled from `config` (a fallback for each
    /// unset field) and nothing scanned yet.
    pub fn new(config: &Config) -> (app: MicroModemApp)
        ensures
            app.socks5_addr@ == setting_or(config@, "SOCKS5_ADDR"@, ""@),
            app.socks5_port@ == setting_or(config@, "SOCKS5_PORT"@, "8228"@),
            app.downstream_if@ == setting_or(config@, "DOWNSTREAM_IF"@, ""@),
            app.mode@ == setting_or(config@, "DOWNSTREAM_MODE"@, "wifi"@),
            app.ssid@ == setting_or(config@, "WIFI_SSID"@, "MicroModem"@),
            app.passphrase@ == setting_or(config@, "WIFI_PASSPHRASE"@, ""@),
            app.channel@ == setting_or(config@, "WIFI_CHANNEL"@, "6"@),
            app.country@ == setting_or(config@, "WIFI_COUNTRY"@, "US"@),
            app.notice@ == "Ready. Scan, configure, then start the gateway."@,
            app.status@ == Seq::<char>::empty(),
            app.interfaces@.len() == 0,
            app.proxies@.len() == 0,
            app.logs is None,
    {
        MicroModemApp {
            socks5_addr: setting(config, "SOCKS5_ADDR", ""),
            socks5_port: setting(config, "SOCKS5_PORT", "8228"),
            downstream_if: setting(config, "DOWNSTREAM_IF", ""),
            mode: setting(config, "DOWNSTREAM_MODE", "wifi"),
            ssid: setting(config, "WIFI_SSID", "MicroModem"),
            passphrase: setting(config, "WIFI_PASSPHRASE", ""),
            channel: setting(config, "WIFI_CHANNEL", "6"),
            country: setting(config, "WIFI_COUNTRY", "US"),
            notice: String::from_str("Ready. Scan, configure, then start the gateway."),
            status: String::new(),
            interfaces: Vec::new(),
            proxies: Vec::new(),
            logs: None,
        }
    }

    /// Shows the gateway's status, or the error of asking for it.
    pub fn refresh(&mut self, status: Result<String, String>)
        ensures
            final(self).status@ == result_text(status),
            *final(self) == (MicroModemApp { status: final(self).status, ..*old(self) }),
    {
        self.status = match status {
            Ok(s) => s,
            Err(e) => e,
        };
    }

    /// The proxy address as the form will save it: trimmed.
    pub fn proxy_address(&self) -> (s: String)
        ensures
            s@ == trim(self.socks5_addr@),
    {
        string_of(trimmed(chars_of(self.socks5_addr.as_str()).as_slice()).as_slice())
    }

    /// Checks the form and gives the text of the settings file to write over
    /// `existing`; on a failed check, shows its message and gives `None`. The
    /// address, interface and country are trimmed.
    pub fn save(&mut self, existing: Config) -> (r: Option<String>)
        ensures
            ({
                let addr = trim(old(self).socks5_addr@);
                let dif = trim(old(self).downstream_if@);
                let country = trim(old(self).country@);
                match settings_error(
                    addr,
                    old(self).socks5_port@,
                    dif,
                    old(self).mode@,
                    old(self).ssid@,
                    old(self).passphrase@,
                    old(self).channel@,
                    country,
                ) {
                    Some(e) => r is None && final(self).notice@ == e && *final(self) == (MicroModemApp {
                        notice: final(self).notice,
                        ..*old(self)
                    }),
                    None => r matches Some(text) && text@ == render_config(
                        saved_settings(
                            existing@,
                            addr,
                            old(self).socks5_port@,
                            dif,
                            old(self).mode@,
                            old(self).ssid@,
                            old(self).passphrase@,
                            old(self).channel@,
                            country,
                        ),
                    ) && *final(self) == *old(self),
                }
            }),
    {
        let addr = self.proxy_address();
        let dif = string_of(trimmed(chars_of(self.downstream_if.as_str()).as_slice()).as_slice());
        let country = string_of(trimmed(chars_of(self.country.as_str()).as_slice()).as_slice());
        match save_gateway_config(
            addr,
            self.socks5_port.clone(),
            dif,
            self.mode.clone(),
            self.ssid.clone(),
            self.passphrase.clone(),
            self.channel.clone(),
            country,
            existing,
        ) {
            Ok(text) => Some(text),
            Err(e) => {
                self.notice = e;
                None
            },
        }
    }

    /// Shows how writing the settings file went, and whether it was saved.
    pub fn saved(&mut self, written: Result<(), String>) -> (ok: bool)
        ensures
            ok == written is Ok,
            *final(self) == (MicroModemApp { notice: final(self).notice, ..*old(self) }),
            match written {
                Ok(()) => final(self).notice@ == "Configuration saved."@,
                Err(e) => final(self).notice@ == "Could not save config: "@ + e@,
            },
    {
        match written {
            Ok(()) => {
                self.notice = String::from_str("Configuration saved.");
                true
            },
            Err(e) => {
                let mut m = String::from_str("Could not save config: ");
                m.append(e.as_str());
                self.notice = m;
                false
            },
        }
    }

    /// Whether a gateway action must save the form first: all but `stop`.
    pub fn action_needs_save(action: &str) -> (r: bool)
        ensures
            r == (action@ != "stop"@),
    {
        !text_eq(action, "stop")
    }

    /// Shows what a gateway action came to.
    pub fn action(&mut self, outcome: Result<String, String>)
        ensures
            final(self).notice@ == result_text(outcome),
            *final(self) == (MicroModemApp { notice: final(self).notice, ..*old(self) }),
    {
        self.notice = match outcome {
            Ok(s) => s,
            Err(e) => e,
        };
    }

    /// Shows what a scan found: a row per interface and per finding.
    pub fn scan(&mut self, interfaces: &[Interface], findings: &[Finding])
        ensures
            row_views(final(self).interfaces@) == interface_views(interfaces@).map_values(
                |i: InterfaceView| interface_row(i),
            ),
            proxy_views(final(self).proxies@) == finding_views(findings@).map_values(
                |f: FindingView| proxy_row(f),
            ),
            final(self).notice@ == "Network scan complete."@,
            *final(self) == (MicroModemApp {
                interfaces: final(self).interfaces,
                proxies: final(self).proxies,
                notice: final(self).notice,
                ..*old(self)
            }),
    {
        let mut rows: Vec<(String, String, String)> = Vec::new();
        let ghost iv = interface_views(interfaces@);
        for k in 0..interfaces.len()
            invariant
                iv == interface_views(interfaces@),
                row_views(rows@) == iv.take(k as int).map_values(|i: InterfaceView| interface_row(i)),
        {
            let i = &interfaces[k];
            let mut addrs = String::new();
            crate::report::push_join_addresses(&mut addrs, i.addresses.as_slice(), ", ", false);
            let gw = match i.gateway {
                Some(g) => {
                    let mut s = String::new();
                    push_ipv4(&mut s, g);
                    s
                },
                None => String::new(),
            };
            let ghost before = row_views(rows@);
            rows.push((i.name.clone(), addrs, gw));
            assert(row_views(rows@) =~= before.push(interface_row(iv[k as int])));
            assert(iv.take(k + 1).map_values(|i: InterfaceView| interface_row(i)) =~= iv.take(
                k as int,
            ).map_values(|i: InterfaceView| interface_row(i)).push(interface_row(iv[k as int])));
        }
        assert(iv.take(interfaces.len() as int) == iv);
        let mut proxies: Vec<(String, String, bool)> = Vec::new();
        let ghost fv = finding_views(findings@);
        for k in 0..findings.len()
            invariant
                fv == finding_views(findings@),
                proxy_views(proxies@) == fv.take(k as int).map_values(|f: FindingView| proxy_row(f)),
        {
            let f = &findings[k];
            let mut host = String::new();
            push_ipv4(&mut host, f.host);
            let mut port = String::new();
            push_decimal(&mut port, f.port as u64);
            let udp = match f.kind {
                Kind::Socks5 { udp_associate: true } => true,
                _ => false,
            };
            let ghost before = proxy_views(proxies@);
            proxies.push((host, port, udp));
            assert(proxy_views(proxies@) =~= before.push(proxy_row(fv[k as int])));
            assert(fv.take(k + 1).map_values(|f: FindingView| proxy_row(f)) =~= fv.take(
                k as int,
            ).map_values(|f: FindingView| proxy_row(f)).push(proxy_row(fv[k as int])));
        }
        assert(fv.take(findings.len() as int) == fv);
        self.interfaces = rows;
        self.proxies = proxies;
        self.notice = String::from_str("Network scan complete.");
    }

    /// Whether the status shows the tunnel container running.
    pub fn gateway_running(&self) -> (r: bool)
        ensures
            r == (contains_seq(self.status@, "micromodem-tunnel"@) && !contains_seq(
                self.status@,
                "not running"@,
            )),
    {
        let s = chars_of(self.status.as_str());
        contains_chars(s.as_slice(), chars_of("micromodem-tunnel").as_slice()) && !contains_chars(
            s.as_slice(),
            chars_of("not running").as_slice(),
        )
    }
}

} // verus!
