//! What a scan found, as JSON for programs and as lines for people.
use vstd::prelude::*;
use vstd::string::*;
use crate::interfaces::{interface_views, Interface, InterfaceView};
use crate::ipv4::{ipv4_text, push_ipv4, Ipv4};
use crate::probe::{kind_label, Finding, Kind};
use crate::text::{chars_of, decimal, join, push_decimal, push_str};

verus! {

/// A finding as values: host, port, kind, source text.
pub type FindingView = (Ipv4, u16, Kind, Seq<char>);

impl View for Finding {
    type V = FindingView;

    open spec fn view(&self) -> FindingView {
        (self.host, self.port, self.kind, self.source@)
    }
}

pub open spec fn finding_views(v: Seq<Finding>) -> Seq<FindingView> {
    v.map_values(|f: Finding| f@)
}

/// One character escaped for a JSON string: backslash and quote get a backslash.
pub open spec fn escape_char(c: char) -> Seq<char> {
    if c == '\\' {
        seq!['\\', '\\']
    } else if c == '"' {
        seq!['\\', '"']
    } else {
        seq![c]
    }
}

/// `s` with each backslash doubled and each quote escaped.
pub open spec fn escape(s: Seq<char>) -> Seq<char>
    decreases s.len(),
{
    if s.len() == 0 {
        Seq::empty()
    } else {
        escape(s.drop_last()) + escape_char(s.last())
    }
}

fn push_escaped(out: &mut String, s: &str)
    ensures
        final(out)@ == old(out)@ + escape(s@),
{
    let v = chars_of(s);
    for i in 0..v.len()
        invariant
            v@ == s@,
            out@ == old(out)@ + escape(v@.take(i as int)),
    {
        let c = v[i];
        assert(v@.take(i + 1).drop_last() == v@.take(i as int));
        assert(v@.take(i + 1).last() == c);
        if c == '\\' {
            out.push('\\');
            out.push('\\');
        } else if c == '"' {
            out.push('\\');
            out.push('"');
        } else {
            out.push(c);
        }
    }
    assert(v@.take(v.len() as int) == v@);
}

/// Reads the body of a JSON string up to its closing quote, undoing the
/// escapes `\\` and `\"`: the text read and where the closing quote stands.
pub open spec fn read_json_string(t: Seq<char>) -> Option<(Seq<char>, nat)>
    decreases t.len(),
{
    if t.len() == 0 {
        None
    } else if t[0] == '"' {
        Some((Seq::empty(), 0))
    } else if t[0] == '\\' {
        if t.len() < 2 {
            None
        } else {
            match read_json_string(t.skip(2)) {
                Some((r, n)) => Some((seq![t[1]] + r, n + 2)),
                None => None,
            }
        }
    } else {
        match read_json_string(t.skip(1)) {
            Some((r, n)) => Some((seq![t[0]] + r, n + 1)),
            None => None,
        }
    }
}

proof fn lemma_escape_prepend(c: char, s: Seq<char>)
    ensures
        escape(seq![c] + s) == escape_char(c) + escape(s),
    decreases s.len(),
{
    if s.len() == 0 {
        assert(seq![c] + s == seq![c]);
        assert(seq![c].drop_last() == Seq::<char>::empty());
        assert(escape(seq![c]) == escape(Seq::<char>::empty()) + escape_char(c));
        assert(escape_char(c) + Seq::<char>::empty() == escape_char(c));
    } else {
        lemma_escape_prepend(c, s.drop_last());
        assert((seq![c] + s).drop_last() == seq![c] + s.drop_last());
        assert((seq![c] + s).last() == s.last());
    }
}

/// Law: escaping keeps names and sources intact in the JSON output. Read
/// back as the body of a JSON string, the escaped text gives the original
/// text, and the string ends exactly at the quote written after it, whatever
/// follows.
pub proof fn lemma_escape_reads_back(s: Seq<char>, rest: Seq<char>)
    ensures
        read_json_string(escape(s) + seq!['"'] + rest) == Some((s, escape(s).len())),
    decreases s.len(),
{
    let t = escape(s) + seq!['"'] + rest;
    if s.len() == 0 {
        assert(escape(s) == Seq::<char>::empty());
        assert(t[0] == '"');
        assert(s == Seq::<char>::empty());
    } else {
        let c = s[0];
        let tail = s.skip(1);
        assert(s == seq![c] + tail);
        lemma_escape_prepend(c, tail);
        lemma_escape_reads_back(tail, rest);
        let after = escape(tail) + seq!['"'] + rest;
        if c == '\\' || c == '"' {
            assert(t == seq!['\\', c] + after);
            assert(t.skip(2) == after);
            assert(seq![c] + tail == s);
        } else {
            assert(t == seq![c] + after);
            assert(t.skip(1) == after);
            assert(seq![c] + tail == s);
        }
    }
}

/// Escapes backslashes and quotes for a JSON string.
pub fn esc(s: &str) -> (r: String)
    ensures
        r@ == escape(s@),
{
    let mut r = String::new();
    push_escaped(&mut r, s);
    r
}

/// `text` in quotes.
pub open spec fn quoted(text: Seq<char>) -> Seq<char> {
    seq!['"'] + text + seq!['"']
}

/// The JSON object of one interface.
pub open spec fn json_interface(i: InterfaceView) -> Seq<char> {
    "{\"name\":\""@ + escape(i.0) + "\",\"addresses\":["@ + join(
        i.1.map_values(|a: Ipv4| quoted(ipv4_text(a))),
        ","@,
    ) + "],\"gateway\":"@ + (match i.2 {
        Some(g) => quoted(ipv4_text(g)),
        None => "null"@,
    }) + ",\"score\":"@ + decimal(i.3 as nat) + "}"@
}

/// The JSON name of each kind.
pub open spec fn kind_name(k: Kind) -> Seq<char> {
    match k {
        Kind::Socks5 { .. } => "socks5"@,
        Kind::HttpConnect => "http_connect"@,
        Kind::OpenTcp => "open_tcp"@,
    }
}

pub open spec fn bool_text(b: bool) -> Seq<char> {
    if b {
        "true"@
    } else {
        "false"@
    }
}

/// The JSON object of one finding.
pub open spec fn json_finding(f: FindingView) -> Seq<char> {
    "{\"host\":\""@ + ipv4_text(f.0) + "\",\"port\":"@ + decimal(f.1 as nat) + ",\"kind\":\""@
        + kind_name(f.2) + "\",\"udp_associate\":"@ + bool_text(
        f.2 == Kind::Socks5 { udp_associate: true },
    ) + ",\"source\":\""@ + escape(f.3) + "\"}"@
}

/// The whole report as one JSON object.
pub open spec fn json_report(ifs: Seq<InterfaceView>, fs: Seq<FindingView>) -> Seq<char> {
    "{\"interfaces\":["@ + join(ifs.map_values(|i: InterfaceView| json_interface(i)), ","@)
        + "],\"proxies\":["@ + join(fs.map_values(|f: FindingView| json_finding(f)), ","@)
        + "]}"@
}

/// Law: the `udp_associate` field of a finding's JSON object reads `true`
/// exactly for a SOCKS5 proxy that accepted `UDP ASSOCIATE`, and `false` for
/// every other finding.
pub proof fn lemma_udp_associate_field(f: FindingView)
    ensures
        (f.2 == Kind::Socks5 { udp_associate: true }) ==> exists|a: Seq<char>, b: Seq<char>|
            json_finding(f) == a + "\",\"udp_associate\":"@ + "true"@ + ",\"source\":\""@ + b,
        (f.2 != Kind::Socks5 { udp_associate: true }) ==> exists|a: Seq<char>, b: Seq<char>|
            json_finding(f) == a + "\",\"udp_associate\":"@ + "false"@ + ",\"source\":\""@ + b,
{
    let a = "{\"host\":\""@ + ipv4_text(f.0) + "\",\"port\":"@ + decimal(f.1 as nat)
        + ",\"kind\":\""@ + kind_name(f.2);
    let b = escape(f.3) + "\"}"@;
    if f.2 == (Kind::Socks5 { udp_associate: true }) {
        assert(json_finding(f) =~= a + "\",\"udp_associate\":"@ + "true"@ + ",\"source\":\""@ + b);
    } else {
        assert(json_finding(f) =~= a + "\",\"udp_associate\":"@ + "false"@ + ",\"source\":\""@ + b);
    }
}

proof fn lemma_join_holds(parts: Seq<Seq<char>>, sep: Seq<char>, k: int)
    requires
        0 <= k < parts.len(),
    ensures
        exists|a: Seq<char>, b: Seq<char>| join(parts, sep) == a + parts[k] + b,
    decreases parts.len(),
{
    if parts.len() == 1 {
        assert(join(parts, sep) =~= Seq::<char>::empty() + parts[k] + Seq::<char>::empty());
    } else {
        let p0 = parts.drop_last();
        if k < p0.len() {
            lemma_join_holds(p0, sep, k);
            let (a, b) = choose|a: Seq<char>, b: Seq<char>| join(p0, sep) == a + p0[k] + b;
            assert(join(parts, sep) =~= a + parts[k] + (b + sep + parts.last()));
        } else {
            assert(join(parts, sep) =~= (join(p0, sep) + sep) + parts[k] + Seq::<char>::empty());
        }
    }
}

/// Law: the report holds the JSON object of every finding, each with its
/// own `udp_associate` field.
pub proof fn lemma_report_holds_findings(ifs: Seq<InterfaceView>, fs: Seq<FindingView>, k: int)
    requires
        0 <= k < fs.len(),
    ensures
        exists|a: Seq<char>, b: Seq<char>| json_report(ifs, fs) == a + json_finding(fs[k]) + b,
{
    let parts = fs.map_values(|f: FindingView| json_finding(f));
    lemma_join_holds(parts, ","@, k);
    let (a, b) = choose|a: Seq<char>, b: Seq<char>| join(parts, ","@) == a + parts[k] + b;
    let pre = "{\"interfaces\":["@ + join(ifs.map_values(|i: InterfaceView| json_interface(i)), ","@)
        + "],\"proxies\":["@;
    assert(json_report(ifs, fs) =~= (pre + a) + json_finding(fs[k]) + (b + "]}"@));
}

proof fn lemma_join_step(parts: Seq<Seq<char>>, sep: Seq<char>, i: int)
    requires
        0 <= i < parts.len(),
    ensures
        join(parts.take(i + 1), sep) == if i == 0 {
            parts[0]
        } else {
            join(parts.take(i), sep) + sep + parts[i]
        },
{
    assert(parts.take(i + 1).drop_last() == parts.take(i));
    assert(parts.take(i + 1).last() == parts[i]);
    if i == 0 {
        assert(parts.take(1)[0] == parts[0]);
    }
}

/// The texts of addresses, quoted or not.
pub open spec fn address_texts(addrs: Seq<Ipv4>, quote: bool) -> Seq<Seq<char>> {
    addrs.map_values(
        |a: Ipv4|
            if quote {
                quoted(ipv4_text(a))
            } else {
                ipv4_text(a)
            },
    )
}

pub(crate) fn push_join_addresses(out: &mut String, addrs: &[Ipv4], sep: &str, quote: bool)
    ensures
        final(out)@ == old(out)@ + join(address_texts(addrs@, quote), sep@),
{
    let ghost parts = address_texts(addrs@, quote);
    assert(parts.take(0) == Seq::<Seq<char>>::empty());
    for i in 0..addrs.len()
        invariant
            parts == address_texts(addrs@, quote),
            out@ == old(out)@ + join(parts.take(i as int), sep@),
    {
        proof {
            lemma_join_step(parts, sep@, i as int);
        }
        let ghost before = out@;
        if i > 0 {
            push_str(out, sep);
        }
        let ghost after_sep = out@;
        let ghost piece = parts[i as int];
        assert(piece == if quote {
            quoted(ipv4_text(addrs@[i as int]))
        } else {
            ipv4_text(addrs@[i as int])
        });
        if quote {
            out.push('"');
            push_ipv4(out, addrs[i]);
            out.push('"');
            assert(out@ =~= after_sep + piece);
        } else {
            push_ipv4(out, addrs[i]);
        }
        assert(out@ == after_sep + piece);
        assert(out@ == old(out)@ + join(parts.take(i + 1), sep@));
    }
    assert(parts.take(addrs.len() as int) == parts);
}

#[verifier::rlimit(30)]
fn push_json_interface(out: &mut String, i: &Interface)
    ensures
        final(out)@ == old(out)@ + json_interface(i@),
{
    let ghost o = out@;
    push_str(out, "{\"name\":\"");
    push_escaped(out, i.name.as_str());
    push_str(out, "\",\"addresses\":[");
    let ghost o2 = out@;
    assert(o2 == o + "{\"name\":\""@ + escape(i.name@) + "\",\"addresses\":["@);
    push_join_addresses(out, i.addresses.as_slice(), ",", true);
    assert(address_texts(i.addresses@, true) =~= i.addresses@.map_values(
        |a: Ipv4| quoted(ipv4_text(a)),
    ));
    let ghost addrs = join(i.addresses@.map_values(|a: Ipv4| quoted(ipv4_text(a))), ","@);
    assert(out@ == o2 + addrs);
    push_str(out, "],\"gateway\":");
    let ghost o3 = out@;
    let ghost gw = match i.gateway {
        Some(g) => quoted(ipv4_text(g)),
        None => "null"@,
    };
    match i.gateway {
        Some(g) => {
            out.push('"');
            push_ipv4(out, g);
            out.push('"');
            assert(out@ =~= o3 + quoted(ipv4_text(g)));
        },
        None => push_str(out, "null"),
    }
    assert(out@ == o3 + gw);
    push_str(out, ",\"score\":");
    push_decimal(out, i.score as u64);
    push_str(out, "}");
    assert(out@ =~= o + ("{\"name\":\""@ + escape(i.name@) + "\",\"addresses\":["@ + addrs
        + "],\"gateway\":"@ + gw + ",\"score\":"@ + decimal(i.score as nat) + "}"@));
}

#[verifier::rlimit(30)]
fn push_json_finding(out: &mut String, f: &Finding)
    ensures
        final(out)@ == old(out)@ + json_finding(f@),
{
    push_str(out, "{\"host\":\"");
    push_ipv4(out, f.host);
    push_str(out, "\",\"port\":");
    push_decimal(out, f.port as u64);
    push_str(out, ",\"kind\":\"");
    match f.kind {
        Kind::Socks5 { .. } => push_str(out, "socks5"),
        Kind::HttpConnect => push_str(out, "http_connect"),
        Kind::OpenTcp => push_str(out, "open_tcp"),
    }
    push_str(out, "\",\"udp_associate\":");
    let udp = match f.kind {
        Kind::Socks5 { udp_associate: true } => true,
        _ => false,
    };
    if udp {
        push_str(out, "true");
    } else {
        push_str(out, "false");
    }
    push_str(out, ",\"source\":\"");
    push_escaped(out, f.source.as_str());
    push_str(out, "\"}");
    assert(final(out)@ =~= old(out)@ + json_finding(f@));
}

/// The scan result as JSON: `{"interfaces":[...],"proxies":[...]}`.
pub fn to_json(interfaces: &[Interface], findings: &[Finding]) -> (r: String)
    ensures
        r@ == json_report(interface_views(interfaces@), finding_views(findings@)),
{
    let mut out = String::new();
    push_str(&mut out, "{\"interfaces\":[");
    let ghost start = out@;
    let ghost ip = interface_views(interfaces@).map_values(|i: InterfaceView| json_interface(i));
    assert(ip.take(0) == Seq::<Seq<char>>::empty());
    for k in 0..interfaces.len()
        invariant
            ip == interface_views(interfaces@).map_values(|i: InterfaceView| json_interface(i)),
            out@ == start + join(ip.take(k as int), ","@),
    {
        proof {
            lemma_join_step(ip, ","@, k as int);
        }
        if k > 0 {
            push_str(&mut out, ",");
        }
        push_json_interface(&mut out, &interfaces[k]);
        assert(ip[k as int] == json_interface(interfaces@[k as int]@));
        assert(out@ == start + join(ip.take(k + 1), ","@));
    }
    assert(ip.take(interfaces.len() as int) == ip);
    push_str(&mut out, "],\"proxies\":[");
    let ghost mid = out@;
    let ghost fp = finding_views(findings@).map_values(|f: FindingView| json_finding(f));
    assert(fp.take(0) == Seq::<Seq<char>>::empty());
    for k in 0..findings.len()
        invariant
            fp == finding_views(findings@).map_values(|f: FindingView| json_finding(f)),
            out@ == mid + join(fp.take(k as int), ","@),
    {
        proof {
            lemma_join_step(fp, ","@, k as int);
        }
        if k > 0 {
            push_str(&mut out, ",");
        }
        push_json_finding(&mut out, &findings[k]);
        assert(fp[k as int] == json_finding(findings@[k as int]@));
        assert(out@ == mid + join(fp.take(k + 1), ","@));
    }
    assert(fp.take(findings.len() as int) == fp);
    push_str(&mut out, "]}");
    assert(out@ =~= json_report(interface_views(interfaces@), finding_views(findings@)));
    out
}

/// The reply to a scan asked for by the window: the scan as JSON, or, where
/// the worker that ran it failed, `{"error":"scan worker failed: ..."}` with
/// the failure's text as it is.
pub fn scan_reply(outcome: Result<(Vec<Interface>, Vec<Finding>), String>) -> (r: String)
    ensures
        r@ == match outcome {
            Ok((interfaces, findings)) => json_report(
                interface_views(interfaces@),
                finding_views(findings@),
            ),
            Err(e) => "{\"error\":\"scan worker failed: "@ + e@ + "\"}"@,
        },
{
    match outcome {
        Ok((interfaces, findings)) => to_json(interfaces.as_slice(), findings.as_slice()),
        Err(e) => {
            let mut out = String::new();
            push_str(&mut out, "{\"error\":\"scan worker failed: ");
            push_str(&mut out, e.as_str());
            push_str(&mut out, "\"}");
            out
        },
    }
}

pub open spec fn string_views(v: Seq<String>) -> Seq<Seq<char>> {
    v.map_values(|s: String| s@)
}

pub open spec fn no_interface_text() -> Seq<char> {
    "No likely USB/RNDIS interface with a private IPv4 address found."@
}

pub open spec fn no_proxy_text() -> Seq<char> {
    "No proxy detected. Try --host 192.168.49.1 --port 8282 or set MM_CANDIDATES."@
}

/// The line that describes one interface.
pub open spec fn interface_line(i: InterfaceView) -> Seq<char> {
    "Interface "@ + i.0 + " (score "@ + decimal(i.3 as nat) + "): addresses ["@ + join(
        address_texts(i.1, false),
        ", "@,
    ) + "]"@ + (match i.2 {
        Some(g) => ", gateway "@ + ipv4_text(g),
        None => Seq::empty(),
    })
}

/// The line that describes one finding.
pub open spec fn finding_line(f: FindingView) -> Seq<char> {
    ipv4_text(f.0) + ":"@ + decimal(f.1 as nat) + " \u{2014} "@ + kind_label(f.2) + " ["@ + f.3
        + "]"@
}

/// The report for people: a line per interface, or a note that none was
/// found; then a line per finding, or a hint when none was found.
pub open spec fn human_lines(ifs: Seq<InterfaceView>, fs: Seq<FindingView>) -> Seq<Seq<char>> {
    (if ifs.len() == 0 {
        seq![no_interface_text()]
    } else {
        ifs.map_values(|i: InterfaceView| interface_line(i))
    }) + (if fs.len() == 0 {
        seq![no_proxy_text()]
    } else {
        fs.map_values(|f: FindingView| finding_line(f))
    })
}

fn interface_line_of(i: &Interface) -> (s: String)
    ensures
        s@ == interface_line(i@),
{
    let mut s = String::new();
    push_str(&mut s, "Interface ");
    push_str(&mut s, i.name.as_str());
    push_str(&mut s, " (score ");
    push_decimal(&mut s, i.score as u64);
    push_str(&mut s, "): addresses [");
    let ghost o = s@;
    push_join_addresses(&mut s, i.addresses.as_slice(), ", ", false);
    let ghost o2 = s@;
    push_str(&mut s, "]");
    let ghost o3 = s@;
    match i.gateway {
        Some(g) => {
            push_str(&mut s, ", gateway ");
            push_ipv4(&mut s, g);
        },
        None => {},
    }
    let ghost gw = match i.gateway {
        Some(g) => ", gateway "@ + ipv4_text(g),
        None => Seq::<char>::empty(),
    };
    assert(s@ =~= o3 + gw);
    assert(s@ =~= interface_line(i@));
    s
}

fn finding_line_of(f: &Finding) -> (s: String)
    ensures
        s@ == finding_line(f@),
{
    let mut s = String::new();
    push_ipv4(&mut s, f.host);
    push_str(&mut s, ":");
    push_decimal(&mut s, f.port as u64);
    push_str(&mut s, " \u{2014} ");
    let label = f.kind.label();
    push_str(&mut s, label.as_str());
    push_str(&mut s, " [");
    push_str(&mut s, f.source.as_str());
    push_str(&mut s, "]");
    assert(s@ =~= finding_line(f@));
    s
}

/// The scan result as lines for people.
pub fn human_report(interfaces: &[Interface], findings: &[Finding]) -> (lines: Vec<String>)
    ensures
        string_views(lines@) == human_lines(interface_views(interfaces@), finding_views(findings@)),
{
    let mut lines: Vec<String> = Vec::new();
    let ghost ifs = interface_views(interfaces@);
    let ghost fs = finding_views(findings@);
    if interfaces.len() == 0 {
        lines.push(String::from_str("No likely USB/RNDIS interface with a private IPv4 address found."));
        assert(string_views(lines@) =~= seq![no_interface_text()]);
    } else {
        for k in 0..interfaces.len()
            invariant
                ifs == interface_views(interfaces@),
                string_views(lines@) == ifs.take(k as int).map_values(|i: InterfaceView| interface_line(i)),
        {
            let ghost before = string_views(lines@);
            lines.push(interface_line_of(&interfaces[k]));
            assert(string_views(lines@) =~= before.push(interface_line(ifs[k as int])));
            assert(ifs.take(k + 1).map_values(|i: InterfaceView| interface_line(i)) =~= ifs.take(
                k as int,
            ).map_values(|i: InterfaceView| interface_line(i)).push(interface_line(ifs[k as int])));
        }
        assert(ifs.take(interfaces.len() as int) == ifs);
    }
    let ghost head = string_views(lines@);
    if findings.len() == 0 {
        lines.push(String::from_str("No proxy detected. Try --host 192.168.49.1 --port 8282 or set MM_CANDIDATES."));
        assert(string_views(lines@) =~= head + seq![no_proxy_text()]);
    } else {
        assert(fs.take(0).map_values(|f: FindingView| finding_line(f)) =~= Seq::<Seq<char>>::empty());
        for k in 0..findings.len()
            invariant
                fs == finding_views(findings@),
                string_views(lines@) == head + fs.take(k as int).map_values(|f: FindingView| finding_line(f)),
        {
            let ghost before = string_views(lines@);
            lines.push(finding_line_of(&findings[k]));
            assert(string_views(lines@) =~= before.push(finding_line(fs[k as int])));
            assert(fs.take(k + 1).map_values(|f: FindingView| finding_line(f)) =~= fs.take(
                k as int,
            ).map_values(|f: FindingView| finding_line(f)).push(finding_line(fs[k as int])));
        }
        assert(fs.take(findings.len() as int) == fs);
    }
    lines
}

} // verus!
