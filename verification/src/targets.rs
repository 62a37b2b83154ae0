//! The endpoints to probe: which hosts, which ports, and why each was chosen.
use vstd::prelude::*;
use vstd::string::*;
use crate::interfaces::{interface_views, Interface, InterfaceView};
use crate::ipv4::{ipv4_text, parse_ipv4, parse_ipv4_chars, push_ipv4, Ipv4};
use crate::text::{
    chars_of, parse_decimal, parse_unsigned, rsplit_once, split_char, split_on, trim, trimmed,
    is_last_index, slice_chars, views,
};

verus! {

/// The ports probed when neither `--port` nor `MM_PORTS` names any.
pub open spec fn default_ports() -> Seq<u16> {
    seq![8282u16, 1080u16, 10808u16, 9050u16, 7890u16, 3128u16, 8080u16]
}

/// Addresses that Android tethering commonly gives the phone.
pub open spec fn known_hosts() -> Seq<Ipv4> {
    seq![
        Ipv4 { a: 192, b: 168, c: 49, d: 1 },
        Ipv4 { a: 192, b: 168, c: 42, d: 129 },
        Ipv4 { a: 192, b: 168, c: 42, d: 1 },
    ]
}

/// A port number as `str::parse::<u16>` reads it.
pub open spec fn parse_port(s: Seq<char>) -> Option<u16> {
    match parse_unsigned(s, 65535) {
        Some(v) => Some(v as u16),
        None => None,
    }
}

/// The ports that `MM_PORTS` names: its comma-separated pieces, trimmed, that
/// parse as ports; the default ports when it is unset or names none.
pub open spec fn configured_ports_spec(env: Option<Seq<char>>) -> Seq<u16> {
    match env {
        None => default_ports(),
        Some(t) => {
            let ps = split_char(t, ',').filter_map(|p: Seq<char>| parse_port(trim(p)));
            if ps.len() == 0 {
                default_ports()
            } else {
                ps
            }
        },
    }
}

/// `HOST:PORT`, trimmed, split at its last colon.
pub open spec fn parse_candidate_spec(s: Seq<char>) -> Option<(Ipv4, u16)> {
    match rsplit_once(trim(s), ':') {
        Some((h, p)) => match (parse_ipv4(h), parse_port(p)) {
            (Some(ip), Some(port)) => Some((ip, port)),
            _ => None,
        },
        None => None,
    }
}

/// The endpoints that `MM_CANDIDATES` names, in order.
pub open spec fn candidates_spec(env: Seq<char>) -> Seq<(Ipv4, u16)> {
    split_char(env, ',').filter_map(|p: Seq<char>| parse_candidate_spec(p))
}

/// Law: there is always a port to probe; `MM_PORTS` that names no port
/// leaves the default ports in place.
pub proof fn lemma_ports_never_empty(specific_port: Option<u16>, ports_env: Option<Seq<char>>)
    ensures
        port_list(specific_port, ports_env).len() > 0,
{
}

/// The default ports.
pub fn default_port_list() -> (v: Vec<u16>)
    ensures
        v@ == default_ports(),
{
    vec![8282, 1080, 10808, 9050, 7890, 3128, 8080]
}

fn parse_port_chars(s: &[char]) -> (r: Option<u16>)
    ensures
        r == parse_port(s@),
{
    match parse_decimal(s, 65535) {
        Some(v) => Some(v as u16),
        None => None,
    }
}

/// The ports to probe when no `--port` is given, from the value of `MM_PORTS`.
pub fn configured_ports(env: Option<&str>) -> (ports: Vec<u16>)
    ensures
        ports@ == configured_ports_spec(
            match env {
                Some(t) => Some(t@),
                None => None,
            },
        ),
{
    let t = match env {
        None => return default_port_list(),
        Some(t) => t,
    };
    let chars = chars_of(t);
    let pieces = split_on(chars.as_slice(), ',');
    let ghost pv = views(pieces@);
    let ghost f = |p: Seq<char>| parse_port(trim(p));
    let mut ports: Vec<u16> = Vec::new();
    assert(pv.take(0).filter_map(f) == Seq::<u16>::empty());
    for i in 0..pieces.len()
        invariant
            pv == views(pieces@),
            f == (|p: Seq<char>| parse_port(trim(p))),
            ports@ == pv.take(i as int).filter_map(f),
    {
        assert(pv.take(i + 1).drop_last() == pv.take(i as int));
        assert(pv.take(i + 1).last() == pieces@[i as int]@);
        let piece = trimmed(pieces[i].as_slice());
        match parse_port_chars(piece.as_slice()) {
            Some(p) => {
                ports.push(p);
                assert(pv.take(i + 1).filter_map(f) == pv.take(i as int).filter_map(f) + seq![p]);
            },
            None => {
                assert(pv.take(i + 1).filter_map(f) == pv.take(i as int).filter_map(f));
            },
        }
    }
    assert(pv.take(pieces.len() as int) == pv);
    if ports.len() == 0 {
        default_port_list()
    } else {
        ports
    }
}

fn rsplit_once_chars(s: &[char], c: char) -> (r: Option<(Vec<char>, Vec<char>)>)
    ensures
        match r {
            Some((a, b)) => rsplit_once(s@, c) == Some((a@, b@)),
            None => rsplit_once(s@, c) is None,
        },
{
    let n = s.len();
    let mut i = n;
    while i > 0
        invariant
            i <= n == s.len(),
            forall|j: int| i <= j < n ==> s@[j] != c,
        decreases i,
    {
        if s[i - 1] == c {
            let k = i - 1;
            assert(is_last_index(s@, c, k as int));
            proof {
                let kk = choose|kk: int| is_last_index(s@, c, kk);
                if kk < k {
                    assert(s@[k as int] != c);
                } else if kk > k {
                    assert(s@[kk] != c);
                }
            }
            let a = slice_chars(s, 0, k);
            let b = slice_chars(s, k + 1, n);
            assert(a@ =~= s@.take(k as int));
            assert(b@ =~= s@.skip(k + 1));
            return Some((a, b));
        }
        i -= 1;
    }
    assert(!exists|kk: int| is_last_index(s@, c, kk)) by {
        if exists|kk: int| is_last_index(s@, c, kk) {
            let kk = choose|kk: int| is_last_index(s@, c, kk);
            assert(s@[kk] != c);
        }
    }
    None
}

fn parse_candidate_chars(s: &[char]) -> (r: Option<(Ipv4, u16)>)
    ensures
        r == parse_candidate_spec(s@),
{
    let t = trimmed(s);
    match rsplit_once_chars(t.as_slice(), ':') {
        Some((h, p)) => {
            let host = parse_ipv4_chars(h.as_slice());
            let port = parse_port_chars(p.as_slice());
            match (host, port) {
                (Some(ip), Some(port)) => Some((ip, port)),
                _ => None,
            }
        },
        None => None,
    }
}

/// Reads one `HOST:PORT` endpoint, such as an entry of `MM_CANDIDATES`.
pub fn parse_candidate(s: &str) -> (r: Option<(Ipv4, u16)>)
    ensures
        r == parse_candidate_spec(s@),
{
    let v = chars_of(s);
    parse_candidate_chars(v.as_slice())
}

/// The endpoints that the value of `MM_CANDIDATES` names.
pub fn parse_candidates(env: &str) -> (r: Vec<(Ipv4, u16)>)
    ensures
        r@ == candidates_spec(env@),
{
    let chars = chars_of(env);
    let pieces = split_on(chars.as_slice(), ',');
    let ghost pv = views(pieces@);
    let ghost f = |p: Seq<char>| parse_candidate_spec(p);
    let mut out: Vec<(Ipv4, u16)> = Vec::new();
    assert(pv.take(0).filter_map(f) == Seq::<(Ipv4, u16)>::empty());
    for i in 0..pieces.len()
        invariant
            pv == views(pieces@),
            f == (|p: Seq<char>| parse_candidate_spec(p)),
            out@ == pv.take(i as int).filter_map(f),
    {
        assert(pv.take(i + 1).drop_last() == pv.take(i as int));
        assert(pv.take(i + 1).last() == pieces@[i as int]@);
        match parse_candidate_chars(pieces[i].as_slice()) {
            Some(c) => {
                out.push(c);
                assert(pv.take(i + 1).filter_map(f) == pv.take(i as int).filter_map(f) + seq![c]);
            },
            None => {
                assert(pv.take(i + 1).filter_map(f) == pv.take(i as int).filter_map(f));
            },
        }
    }
    assert(pv.take(pieces.len() as int) == pv);
    out
}

/// One endpoint to probe, with the reason it was chosen.
#[derive(Debug)]
pub struct Target {
    pub host: Ipv4,
    pub port: u16,
    pub source: String,
}

/// A target as values: host, port, source text.
pub type TargetView = (Ipv4, u16, Seq<char>);

impl View for Target {
    type V = TargetView;

    open spec fn view(&self) -> TargetView {
        (self.host, self.port, self.source@)
    }
}

pub open spec fn target_views(v: Seq<Target>) -> Seq<TargetView> {
    v.map_values(|t: Target| t@)
}

pub open spec fn command_line_text() -> Seq<char> {
    "command line"@
}

pub open spec fn gateway_text(name: Seq<char>) -> Seq<char> {
    "gateway on "@ + name
}

pub open spec fn derived_text(name: Seq<char>, address: Ipv4) -> Seq<char> {
    "derived from "@ + name + " ("@ + ipv4_text(address) + ")"@
}

pub open spec fn known_text() -> Seq<char> {
    "known Android tethering address"@
}

pub open spec fn candidates_text() -> Seq<char> {
    "MM_CANDIDATES"@
}

/// `a` with its last octet replaced by `d`.
pub open spec fn with_last_octet(a: Ipv4, d: u8) -> Ipv4 {
    Ipv4 { a: a.a, b: a.b, c: a.c, d }
}

/// The likely peers of an interface's addresses: `.1`, `.2` and `.129` of each
/// address's /24, in address order.
pub open spec fn address_hosts(name: Seq<char>, addrs: Seq<Ipv4>) -> Seq<(Ipv4, Seq<char>)>
    decreases addrs.len(),
{
    if addrs.len() == 0 {
        Seq::empty()
    } else {
        let a = addrs.last();
        let src = derived_text(name, a);
        address_hosts(name, addrs.drop_last()) + seq![
            (with_last_octet(a, 1), src),
            (with_last_octet(a, 2), src),
            (with_last_octet(a, 129), src),
        ]
    }
}

/// The hosts that one interface suggests: its gateway, then its peers.
pub open spec fn interface_hosts(i: InterfaceView) -> Seq<(Ipv4, Seq<char>)> {
    (match i.2 {
        Some(g) => seq![(g, gateway_text(i.0))],
        None => Seq::empty(),
    }) + address_hosts(i.0, i.1)
}

/// The hosts that the interfaces suggest, interface by interface.
pub open spec fn interfaces_hosts(ifs: Seq<InterfaceView>) -> Seq<(Ipv4, Seq<char>)>
    decreases ifs.len(),
{
    if ifs.len() == 0 {
        Seq::empty()
    } else {
        interfaces_hosts(ifs.drop_last()) + interface_hosts(ifs.last())
    }
}

/// The hosts to probe on every port: the host given on the command line, or
/// else the interfaces' hosts and the known tethering addresses; then the
/// hosts of `MM_CANDIDATES`.
pub open spec fn host_list(
    ifs: Seq<InterfaceView>,
    specific_host: Option<Ipv4>,
    cands: Seq<(Ipv4, u16)>,
) -> Seq<(Ipv4, Seq<char>)> {
    (match specific_host {
        Some(h) => seq![(h, command_line_text())],
        None => interfaces_hosts(ifs) + known_hosts().map_values(|h: Ipv4| (h, known_text())),
    }) + cands.map_values(|c: (Ipv4, u16)| (c.0, candidates_text()))
}

/// One host on each port, in port order.
pub open spec fn host_row(h: (Ipv4, Seq<char>), ports: Seq<u16>) -> Seq<TargetView> {
    ports.map_values(|p: u16| (h.0, p, h.1))
}

/// Every host on every port, host by host.
pub open spec fn expand(hosts: Seq<(Ipv4, Seq<char>)>, ports: Seq<u16>) -> Seq<TargetView>
    decreases hosts.len(),
{
    if hosts.len() == 0 {
        Seq::empty()
    } else {
        expand(hosts.drop_last(), ports) + host_row(hosts.last(), ports)
    }
}

/// The endpoints of `MM_CANDIDATES` each on its own port.
pub open spec fn explicit_targets(cands: Seq<(Ipv4, u16)>) -> Seq<TargetView> {
    cands.map_values(|c: (Ipv4, u16)| (c.0, c.1, candidates_text()))
}

/// Some target in `d` is the endpoint `h:p`.
pub open spec fn has_endpoint(d: Seq<TargetView>, h: Ipv4, p: u16) -> bool {
    exists|i: int| 0 <= i < d.len() && d[i].0 == h && d[i].1 == p
}

/// The targets in order, keeping the first of each endpoint.
pub open spec fn dedup(s: Seq<TargetView>) -> Seq<TargetView>
    decreases s.len(),
{
    if s.len() == 0 {
        Seq::empty()
    } else {
        let d = dedup(s.drop_last());
        let t = s.last();
        if has_endpoint(d, t.0, t.1) {
            d
        } else {
            d.push(t)
        }
    }
}

/// The ports to probe on each host.
pub open spec fn port_list(specific_port: Option<u16>, ports_env: Option<Seq<char>>) -> Seq<u16> {
    match specific_port {
        Some(p) => seq![p],
        None => configured_ports_spec(ports_env),
    }
}

/// All targets, duplicates included, in the order they are considered.
pub open spec fn all_targets(
    ifs: Seq<InterfaceView>,
    specific_host: Option<Ipv4>,
    specific_port: Option<u16>,
    candidates_env: Seq<char>,
    ports_env: Option<Seq<char>>,
) -> Seq<TargetView> {
    let c = candidates_spec(candidates_env);
    expand(host_list(ifs, specific_host, c), port_list(specific_port, ports_env))
        + explicit_targets(c)
}

/// The targets to probe.
pub open spec fn targets_spec(
    ifs: Seq<InterfaceView>,
    specific_host: Option<Ipv4>,
    specific_port: Option<u16>,
    candidates_env: Seq<char>,
    ports_env: Option<Seq<char>>,
) -> Seq<TargetView> {
    dedup(all_targets(ifs, specific_host, specific_port, candidates_env, ports_env))
}

pub open spec fn opt_view(o: Option<&str>) -> Option<Seq<char>> {
    match o {
        Some(t) => Some(t@),
        None => None,
    }
}

/// Adds `host:port` unless some target already has that endpoint.
fn add_target(result: &mut Vec<Target>, host: Ipv4, port: u16, source: &String)
    ensures
        target_views(final(result)@) == (if has_endpoint(target_views(old(result)@), host, port) {
            target_views(old(result)@)
        } else {
            target_views(old(result)@).push((host, port, source@))
        }),
{
    let ghost d = target_views(result@);
    let mut i: usize = 0;
    while i < result.len()
        invariant
            d == target_views(result@),
            i <= result.len(),
            forall|j: int| 0 <= j < i ==> !(d[j].0 == host && d[j].1 == port),
        decreases result.len() - i,
    {
        if result[i].host == host && result[i].port == port {
            assert(d[i as int].0 == host && d[i as int].1 == port);
            return;
        }
        i += 1;
    }
    result.push(Target { host, port, source: source.clone() });
    assert(target_views(result@) =~= d.push((host, port, source@)));
}

fn with_last(a: Ipv4, d: u8) -> (r: Ipv4)
    ensures
        r == with_last_octet(a, d),
{
    Ipv4 { a: a.a, b: a.b, c: a.c, d }
}

pub open spec fn host_views(v: Seq<(Ipv4, String)>) -> Seq<(Ipv4, Seq<char>)> {
    v.map_values(|h: (Ipv4, String)| (h.0, h.1@))
}

fn derived_source(name: &String, a: Ipv4) -> (s: String)
    ensures
        s@ == derived_text(name@, a),
{
    let mut s = String::from_str("derived from ");
    s.append(name.as_str());
    s.append(" (");
    push_ipv4(&mut s, a);
    s.append(")");
    s
}

/// Appends the hosts that `iface` suggests.
fn push_interface_hosts(hosts: &mut Vec<(Ipv4, String)>, iface: &Interface)
    ensures
        host_views(final(hosts)@) == host_views(old(hosts)@) + interface_hosts(iface@),
{
    let ghost start = host_views(hosts@);
    let ghost gpart = match iface.gateway {
        Some(g) => seq![(g, gateway_text(iface.name@))],
        None => Seq::<(Ipv4, Seq<char>)>::empty(),
    };
    if let Some(g) = iface.gateway {
        let mut src = String::from_str("gateway on ");
        src.append(iface.name.as_str());
        hosts.push((g, src));
    }
    assert(host_views(hosts@) =~= start + gpart);
    let n = iface.addresses.len();
    assert(iface.addresses@.take(0) == Seq::<Ipv4>::empty());
    for i in 0..n
        invariant
            n == iface.addresses.len(),
            host_views(hosts@) == start + gpart + address_hosts(
                iface.name@,
                iface.addresses@.take(i as int),
            ),
    {
        let a = iface.addresses[i];
        assert(iface.addresses@.take(i + 1).drop_last() == iface.addresses@.take(i as int));
        assert(iface.addresses@.take(i + 1).last() == a);
        let ghost before = host_views(hosts@);
        let src = derived_source(&iface.name, a);
        hosts.push((with_last(a, 1), src.clone()));
        hosts.push((with_last(a, 2), src.clone()));
        hosts.push((with_last(a, 129), src));
        assert(host_views(hosts@) =~= before + seq![
            (with_last_octet(a, 1), derived_text(iface.name@, a)),
            (with_last_octet(a, 2), derived_text(iface.name@, a)),
            (with_last_octet(a, 129), derived_text(iface.name@, a)),
        ]);
    }
    assert(iface.addresses@.take(n as int) == iface.addresses@);
}

/// Collects the hosts to probe on every port.
fn collect_hosts(
    interfaces: &[Interface],
    specific_host: Option<Ipv4>,
    cands: &Vec<(Ipv4, u16)>,
) -> (hosts: Vec<(Ipv4, String)>)
    ensures
        host_views(hosts@) == host_list(interface_views(interfaces@), specific_host, cands@),
{
    let mut hosts: Vec<(Ipv4, String)> = Vec::new();
    let ghost ifs = interface_views(interfaces@);
    match specific_host {
        Some(h) => {
            hosts.push((h, String::from_str("command line")));
            assert(host_views(hosts@) =~= seq![(h, command_line_text())]);
        },
        None => {
            assert(ifs.take(0) == Seq::<InterfaceView>::empty());
            for i in 0..interfaces.len()
                invariant
                    ifs == interface_views(interfaces@),
                    host_views(hosts@) == interfaces_hosts(ifs.take(i as int)),
            {
                assert(ifs.take(i + 1).drop_last() == ifs.take(i as int));
                assert(ifs.take(i + 1).last() == interfaces@[i as int]@);
                push_interface_hosts(&mut hosts, &interfaces[i]);
            }
            assert(ifs.take(interfaces.len() as int) == ifs);
            let ghost before = host_views(hosts@);
            hosts.push((Ipv4 { a: 192, b: 168, c: 49, d: 1 }, String::from_str("known Android tethering address")));
            hosts.push((Ipv4 { a: 192, b: 168, c: 42, d: 129 }, String::from_str("known Android tethering address")));
            hosts.push((Ipv4 { a: 192, b: 168, c: 42, d: 1 }, String::from_str("known Android tethering address")));
            assert(host_views(hosts@) =~= before + known_hosts().map_values(|h: Ipv4| (h, known_text())));
        },
    }
    let ghost mid = host_views(hosts@);
    let ghost cmap = cands@.map_values(|c: (Ipv4, u16)| (c.0, candidates_text()));
    for k in 0..cands.len()
        invariant
            host_views(hosts@) == mid + cmap.take(k as int),
            cmap == cands@.map_values(|c: (Ipv4, u16)| (c.0, candidates_text())),
    {
        let ghost before = host_views(hosts@);
        hosts.push((cands[k].0, String::from_str("MM_CANDIDATES")));
        assert(cmap.take(k + 1) == cmap.take(k as int).push(cmap[k as int]));
        assert(host_views(hosts@) =~= before.push((cands@[k as int].0, candidates_text())));
    }
    assert(cmap.take(cands.len() as int) == cmap);
    hosts
}

/// The endpoints to probe, each once, with the reason it was first chosen:
/// every host on every port (`--host`, or the interfaces' gateways and peers
/// and the known tethering addresses; then the hosts of `MM_CANDIDATES`),
/// then each endpoint of `MM_CANDIDATES` on its own port. The ports are
/// `--port`, or else those of `MM_PORTS`, or else the defaults.
pub fn build_targets(
    interfaces: &[Interface],
    specific_host: Option<Ipv4>,
    specific_port: Option<u16>,
    candidates_env: &str,
    ports_env: Option<&str>,
) -> (r: Vec<Target>)
    ensures
        target_views(r@) == targets_spec(
            interface_views(interfaces@),
            specific_host,
            specific_port,
            candidates_env@,
            opt_view(ports_env),
        ),
{
    let ports = match specific_port {
        Some(p) => vec![p],
        None => configured_ports(ports_env),
    };
    let cands = parse_candidates(candidates_env);
    let hosts = collect_hosts(interfaces, specific_host, &cands);
    let ghost hv = host_views(hosts@);
    let ghost pv = ports@;
    let mut result: Vec<Target> = Vec::new();
    assert(hv.take(0) == Seq::<(Ipv4, Seq<char>)>::empty());
    for i in 0..hosts.len()
        invariant
            hv == host_views(hosts@),
            pv == ports@,
            target_views(result@) == dedup(expand(hv.take(i as int), pv)),
    {
        assert(hv.take(i + 1).drop_last() == hv.take(i as int));
        assert(hv.take(i + 1).last() == hv[i as int]);
        let ghost base = expand(hv.take(i as int), pv);
        let ghost h = hv[i as int];
        assert(host_row(h, pv.take(0)) == Seq::<TargetView>::empty());
        assert(base + host_row(h, pv.take(0)) == base);
        for j in 0..ports.len()
            invariant
                hv == host_views(hosts@),
                pv == ports@,
                0 <= i < hosts.len(),
                h == hv[i as int],
                target_views(result@) == dedup(base + host_row(h, pv.take(j as int))),
        {
            let ghost t = (h.0, pv[j as int], h.1);
            assert(host_row(h, pv.take(j + 1)) == host_row(h, pv.take(j as int)).push(t));
            assert((base + host_row(h, pv.take(j as int))).push(t) == base + host_row(
                h,
                pv.take(j + 1),
            ));
            assert((base + host_row(h, pv.take(j + 1))).drop_last() == base + host_row(
                h,
                pv.take(j as int),
            ));
            add_target(&mut result, hosts[i].0, ports[j], &hosts[i].1);
        }
        assert(pv.take(ports.len() as int) == pv);
        assert(expand(hv.take(i + 1), pv) == base + host_row(h, pv));
    }
    assert(hv.take(hosts.len() as int) == hv);
    let ghost base = expand(hv, pv);
    let ghost ex = explicit_targets(cands@);
    assert(base + ex.take(0) == base);
    let candidates_source = String::from_str("MM_CANDIDATES");
    for k in 0..cands.len()
        invariant
            ex == explicit_targets(cands@),
            candidates_source@ == candidates_text(),
            target_views(result@) == dedup(base + ex.take(k as int)),
    {
        assert(ex.take(k + 1) == ex.take(k as int).push(ex[k as int]));
        assert((base + ex.take(k + 1)).drop_last() == base + ex.take(k as int));
        assert((base + ex.take(k + 1)).last() == ex[k as int]);
        add_target(&mut result, cands[k].0, cands[k].1, &candidates_source);
    }
    assert(ex.take(cands.len() as int) == ex);
    assert(cands@ == candidates_spec(candidates_env@));
    assert(pv == port_list(specific_port, opt_view(ports_env)));
    assert(hv == host_list(interface_views(interfaces@), specific_host, cands@));
    result
}

proof fn lemma_dedup_distinct(s: Seq<TargetView>)
    ensures
        forall|i: int, j: int|
            0 <= i < j < dedup(s).len() ==> !(dedup(s)[i].0 == dedup(s)[j].0 && dedup(s)[i].1
                == dedup(s)[j].1),
    decreases s.len(),
{
    if s.len() > 0 {
        lemma_dedup_distinct(s.drop_last());
        let d = dedup(s.drop_last());
        let t = s.last();
        if !has_endpoint(d, t.0, t.1) {
            assert forall|i: int, j: int|
                0 <= i < j < dedup(s).len() implies !(dedup(s)[i].0 == dedup(s)[j].0 && dedup(
                s,
            )[i].1 == dedup(s)[j].1) by {
                if j == d.len() {
                    assert(dedup(s)[i] == d[i]);
                }
            }
        }
    }
}

proof fn lemma_dedup_endpoints(s: Seq<TargetView>, h: Ipv4, p: u16)
    ensures
        has_endpoint(dedup(s), h, p) <==> has_endpoint(s, h, p),
    decreases s.len(),
{
    if s.len() > 0 {
        let s0 = s.drop_last();
        lemma_dedup_endpoints(s0, h, p);
        let d = dedup(s0);
        let t = s.last();
        if has_endpoint(s0, h, p) {
            let i = choose|i: int| 0 <= i < s0.len() && s0[i].0 == h && s0[i].1 == p;
            assert(s[i] == s0[i]);
        }
        if has_endpoint(d, h, p) {
            let i = choose|i: int| 0 <= i < d.len() && d[i].0 == h && d[i].1 == p;
            assert(dedup(s)[i] == d[i]);
        }
        if has_endpoint(s, h, p) && !has_endpoint(s0, h, p) {
            let i = choose|i: int| 0 <= i < s.len() && s[i].0 == h && s[i].1 == p;
            if i < s0.len() {
                assert(s0[i] == s[i]);
            }
            assert(t.0 == h && t.1 == p);
            assert(dedup(s)[dedup(s).len() - 1] == t);
        }
        if has_endpoint(dedup(s), h, p) && !has_endpoint(d, h, p) {
            let i = choose|i: int| 0 <= i < dedup(s).len() && dedup(s)[i].0 == h && dedup(s)[i].1 == p;
            if i < d.len() {
                assert(dedup(s)[i] == d[i]);
            }
            assert(s[s.len() - 1] == t);
        }
    }
}

proof fn lemma_expand_endpoints(hosts: Seq<(Ipv4, Seq<char>)>, ports: Seq<u16>, h: Ipv4, p: u16)
    ensures
        has_endpoint(expand(hosts, ports), h, p) <==> (exists|i: int, j: int|
            0 <= i < hosts.len() && 0 <= j < ports.len() && hosts[i].0 == h && ports[j] == p),
    decreases hosts.len(),
{
    if hosts.len() > 0 {
        let h0 = hosts.drop_last();
        lemma_expand_endpoints(h0, ports, h, p);
        let e0 = expand(h0, ports);
        let row = host_row(hosts.last(), ports);
        let e = expand(hosts, ports);
        assert(e == e0 + row);
        if has_endpoint(e, h, p) {
            let k = choose|k: int| 0 <= k < e.len() && e[k].0 == h && e[k].1 == p;
            if k < e0.len() {
                assert(e[k] == e0[k]);
                let (i, j) = choose|i: int, j: int|
                    0 <= i < h0.len() && 0 <= j < ports.len() && h0[i].0 == h && ports[j] == p;
                assert(hosts[i] == h0[i]);
            } else {
                let j = k - e0.len();
                assert(e[k] == row[j]);
                assert(hosts[hosts.len() - 1].0 == h && ports[j] == p);
            }
        }
        if exists|i: int, j: int|
            0 <= i < hosts.len() && 0 <= j < ports.len() && hosts[i].0 == h && ports[j] == p {
            let (i, j) = choose|i: int, j: int|
                0 <= i < hosts.len() && 0 <= j < ports.len() && hosts[i].0 == h && ports[j] == p;
            if i < h0.len() {
                assert(h0[i] == hosts[i]);
                let k = choose|k: int| 0 <= k < e0.len() && e0[k].0 == h && e0[k].1 == p;
                assert(e[k] == e0[k]);
            } else {
                assert(e[e0.len() + j] == row[j]);
            }
        }
    }
}

/// Law: no endpoint is probed twice; the targets hold each host and port
/// pair at most once.
pub proof fn lemma_targets_distinct(
    ifs: Seq<InterfaceView>,
    specific_host: Option<Ipv4>,
    specific_port: Option<u16>,
    candidates_env: Seq<char>,
    ports_env: Option<Seq<char>>,
)
    ensures
        ({
            let t = targets_spec(ifs, specific_host, specific_port, candidates_env, ports_env);
            forall|i: int, j: int| 0 <= i < j < t.len() ==> !(t[i].0 == t[j].0 && t[i].1 == t[j].1)
        }),
{
    lemma_dedup_distinct(all_targets(ifs, specific_host, specific_port, candidates_env, ports_env));
}

/// Law: an endpoint is probed exactly when its host is one of the hosts to
/// probe and its port one of the ports, or it is an endpoint of `MM_CANDIDATES`.
pub proof fn lemma_targets_cover(
    ifs: Seq<InterfaceView>,
    specific_host: Option<Ipv4>,
    specific_port: Option<u16>,
    candidates_env: Seq<char>,
    ports_env: Option<Seq<char>>,
    h: Ipv4,
    p: u16,
)
    ensures
        ({
            let c = candidates_spec(candidates_env);
            let hosts = host_list(ifs, specific_host, c);
            let ports = port_list(specific_port, ports_env);
            has_endpoint(targets_spec(ifs, specific_host, specific_port, candidates_env, ports_env), h, p)
                <==> ((exists|i: int, j: int|
                0 <= i < hosts.len() && 0 <= j < ports.len() && hosts[i].0 == h && ports[j] == p)
                || c.contains((h, p)))
        }),
{
    let c = candidates_spec(candidates_env);
    let hosts = host_list(ifs, specific_host, c);
    let ports = port_list(specific_port, ports_env);
    let e = expand(hosts, ports);
    let x = explicit_targets(c);
    let all = all_targets(ifs, specific_host, specific_port, candidates_env, ports_env);
    assert(all == e + x);
    lemma_dedup_endpoints(all, h, p);
    lemma_expand_endpoints(hosts, ports, h, p);
    if has_endpoint(all, h, p) {
        let k = choose|k: int| 0 <= k < all.len() && all[k].0 == h && all[k].1 == p;
        if k < e.len() {
            assert(all[k] == e[k]);
        } else {
            assert(all[k] == x[k - e.len()]);
            assert(c[k - e.len()] == (h, p));
        }
    }
    if has_endpoint(e, h, p) {
        let k = choose|k: int| 0 <= k < e.len() && e[k].0 == h && e[k].1 == p;
        assert(all[k] == e[k]);
    }
    if c.contains((h, p)) {
        let k = choose|k: int| 0 <= k < c.len() && c[k] == (h, p);
        assert(all[e.len() + k] == x[k]);
    }
}

/// Law: without `--host`, each known tethering address (such as 192.168.49.1)
/// is probed on every port.
pub proof fn lemma_known_hosts_probed(
    ifs: Seq<InterfaceView>,
    specific_port: Option<u16>,
    candidates_env: Seq<char>,
    ports_env: Option<Seq<char>>,
    k: int,
    j: int,
)
    requires
        0 <= k < known_hosts().len(),
        0 <= j < port_list(specific_port, ports_env).len(),
    ensures
        has_endpoint(
            targets_spec(ifs, None, specific_port, candidates_env, ports_env),
            known_hosts()[k],
            port_list(specific_port, ports_env)[j],
        ),
{
    let c = candidates_spec(candidates_env);
    let hosts = host_list(ifs, None, c);
    let ports = port_list(specific_port, ports_env);
    let ih = interfaces_hosts(ifs);
    let kn = known_hosts().map_values(|h: Ipv4| (h, known_text()));
    let i = ih.len() + k;
    assert(hosts[i] == kn[k]);
    lemma_targets_cover(ifs, None, specific_port, candidates_env, ports_env, known_hosts()[k], ports[j]);
}

/// Law: with `--host`, that host is probed on every port.
pub proof fn lemma_command_line_host_probed(
    ifs: Seq<InterfaceView>,
    h: Ipv4,
    specific_port: Option<u16>,
    candidates_env: Seq<char>,
    ports_env: Option<Seq<char>>,
    j: int,
)
    requires
        0 <= j < port_list(specific_port, ports_env).len(),
    ensures
        has_endpoint(
            targets_spec(ifs, Some(h), specific_port, candidates_env, ports_env),
            h,
            port_list(specific_port, ports_env)[j],
        ),
{
    let c = candidates_spec(candidates_env);
    let hosts = host_list(ifs, Some(h), c);
    assert(hosts[0].0 == h);
    lemma_targets_cover(ifs, Some(h), specific_port, candidates_env, ports_env, h, port_list(specific_port, ports_env)[j]);
}

proof fn lemma_address_hosts_have_peers(name: Seq<char>, addrs: Seq<Ipv4>, k: int, d: u8)
    requires
        0 <= k < addrs.len(),
        d == 1 || d == 2 || d == 129,
    ensures
        exists|m: int|
            0 <= m < address_hosts(name, addrs).len() && address_hosts(name, addrs)[m].0 == (Ipv4 {
                a: addrs[k].a,
                b: addrs[k].b,
                c: addrs[k].c,
                d: d,
            }),
    decreases addrs.len(),
{
    let h = address_hosts(name, addrs);
    let a0 = addrs.drop_last();
    let h0 = address_hosts(name, a0);
    let peer = Ipv4 { a: addrs[k].a, b: addrs[k].b, c: addrs[k].c, d: d };
    if k < a0.len() {
        lemma_address_hosts_have_peers(name, a0, k, d);
        assert(a0[k] == addrs[k]);
        let m = choose|m: int| 0 <= m < h0.len() && h0[m].0 == peer;
        assert(h[m] == h0[m]);
    } else {
        let n: int = h0.len() as int;
        if d == 1 {
            assert(h[n].0 == peer);
        } else if d == 2 {
            assert(h[n + 1].0 == peer);
        } else {
            assert(h[n + 2].0 == peer);
        }
    }
}

proof fn lemma_interfaces_hosts_hold(ifs: Seq<InterfaceView>, i: int, k: int)
    requires
        0 <= i < ifs.len(),
        0 <= k < interface_hosts(ifs[i]).len(),
    ensures
        exists|m: int|
            0 <= m < interfaces_hosts(ifs).len() && interfaces_hosts(ifs)[m] == interface_hosts(
                ifs[i],
            )[k],
    decreases ifs.len(),
{
    let all = interfaces_hosts(ifs);
    let f0 = ifs.drop_last();
    let h0 = interfaces_hosts(f0);
    assert(all == h0 + interface_hosts(ifs.last()));
    if i < f0.len() {
        lemma_interfaces_hosts_hold(f0, i, k);
        assert(f0[i] == ifs[i]);
        let m = choose|m: int| 0 <= m < h0.len() && h0[m] == interface_hosts(f0[i])[k];
        assert(all[m] == h0[m]);
    } else {
        assert(all[h0.len() + k] == interface_hosts(ifs[i])[k]);
    }
}

proof fn lemma_interface_host_probed(
    ifs: Seq<InterfaceView>,
    specific_port: Option<u16>,
    candidates_env: Seq<char>,
    ports_env: Option<Seq<char>>,
    i: int,
    k: int,
    j: int,
)
    requires
        0 <= i < ifs.len(),
        0 <= k < interface_hosts(ifs[i]).len(),
        0 <= j < port_list(specific_port, ports_env).len(),
    ensures
        has_endpoint(
            targets_spec(ifs, None, specific_port, candidates_env, ports_env),
            interface_hosts(ifs[i])[k].0,
            port_list(specific_port, ports_env)[j],
        ),
{
    let c = candidates_spec(candidates_env);
    let hosts = host_list(ifs, None, c);
    let ih = interfaces_hosts(ifs);
    lemma_interfaces_hosts_hold(ifs, i, k);
    let m = choose|m: int| 0 <= m < ih.len() && ih[m] == interface_hosts(ifs[i])[k];
    assert(hosts[m] == ih[m]);
    lemma_targets_cover(
        ifs,
        None,
        specific_port,
        candidates_env,
        ports_env,
        interface_hosts(ifs[i])[k].0,
        port_list(specific_port, ports_env)[j],
    );
}

/// Law: without `--host`, every interface is probed on every port: its
/// gateway, and the `.1`, `.2` and `.129` of each of its addresses.
pub proof fn lemma_interface_hosts_probed(
    ifs: Seq<InterfaceView>,
    specific_port: Option<u16>,
    candidates_env: Seq<char>,
    ports_env: Option<Seq<char>>,
    i: int,
    j: int,
)
    requires
        0 <= i < ifs.len(),
        0 <= j < port_list(specific_port, ports_env).len(),
    ensures
        ({
            let t = targets_spec(ifs, None, specific_port, candidates_env, ports_env);
            let p = port_list(specific_port, ports_env)[j];
            &&& forall|g: Ipv4| ifs[i].2 == Some(g) ==> has_endpoint(t, g, p)
            &&& forall|k: int, d: u8|
                0 <= k < ifs[i].1.len() && (d == 1 || d == 2 || d == 129) ==> has_endpoint(
                    t,
                    (Ipv4 { a: ifs[i].1[k].a, b: ifs[i].1[k].b, c: ifs[i].1[k].c, d: d }),
                    p,
                )
        }),
{
    let t = targets_spec(ifs, None, specific_port, candidates_env, ports_env);
    let p = port_list(specific_port, ports_env)[j];
    let ih = interface_hosts(ifs[i]);
    let gw: Seq<(Ipv4, Seq<char>)> = match ifs[i].2 {
        Some(g) => seq![(g, gateway_text(ifs[i].0))],
        None => Seq::empty(),
    };
    let ah = address_hosts(ifs[i].0, ifs[i].1);
    assert(ih == gw + ah);
    assert forall|g: Ipv4| ifs[i].2 == Some(g) implies has_endpoint(t, g, p) by {
        assert(ih[0].0 == g);
        lemma_interface_host_probed(ifs, specific_port, candidates_env, ports_env, i, 0, j);
    }
    assert forall|k: int, d: u8|
        0 <= k < ifs[i].1.len() && (d == 1 || d == 2 || d == 129) implies has_endpoint(
        t,
        Ipv4 { a: ifs[i].1[k].a, b: ifs[i].1[k].b, c: ifs[i].1[k].c, d: d },
        p,
    ) by {
        lemma_address_hosts_have_peers(ifs[i].0, ifs[i].1, k, d);
        let peer = Ipv4 { a: ifs[i].1[k].a, b: ifs[i].1[k].b, c: ifs[i].1[k].c, d: d };
        let m = choose|m: int| 0 <= m < ah.len() && ah[m].0 == peer;
        assert(ih[gw.len() as int + m] == ah[m]);
        lemma_interface_host_probed(ifs, specific_port, candidates_env, ports_env, i, gw.len() as int + m, j);
    }
}

} // verus!
