//! Network interfaces: which names look like a tethered phone, and what the
//! output of `ip -o -4 addr show` and `ip route show dev NAME` says about them.
use vstd::prelude::*;
use crate::ipv4::{parse_ipv4, parse_ipv4_chars, spec_is_private, Ipv4, is_private};
use crate::text::{
    chars_eq, chars_of, contains_chars, contains_seq, lines, lines_of, lower, split_char, split_on,
    starts_with, starts_with_chars, string_of, to_lower, views, words, words_of,
};

verus! {

/// A candidate interface: its name, private IPv4 addresses, route gateway, and
/// how strongly its name suggests a tethered phone.
#[derive(Debug)]
pub struct Interface {
    pub name: String,
    pub addresses: Vec<Ipv4>,
    pub gateway: Option<Ipv4>,
    pub score: u8,
}

/// The private addresses that one interface holds, in the order listed.
#[derive(Debug)]
pub struct AddressGroup {
    pub name: String,
    pub addresses: Vec<Ipv4>,
}

/// An interface as values: name, addresses, gateway, score.
pub type InterfaceView = (Seq<char>, Seq<Ipv4>, Option<Ipv4>, u8);

/// An address group as values: name and addresses.
pub type GroupView = (Seq<char>, Seq<Ipv4>);

impl View for Interface {
    type V = InterfaceView;

    open spec fn view(&self) -> InterfaceView {
        (self.name@, self.addresses@, self.gateway, self.score)
    }
}

impl View for AddressGroup {
    type V = GroupView;

    open spec fn view(&self) -> GroupView {
        (self.name@, self.addresses@)
    }
}

pub open spec fn interface_views(v: Seq<Interface>) -> Seq<InterfaceView> {
    v.map_values(|i: Interface| i@)
}

pub open spec fn group_views(v: Seq<AddressGroup>) -> Seq<GroupView> {
    v.map_values(|g: AddressGroup| g@)
}

pub open spec fn rndis() -> Seq<char> {
    seq!['r', 'n', 'd', 'i', 's']
}

pub open spec fn usb() -> Seq<char> {
    seq!['u', 's', 'b']
}

pub open spec fn enx() -> Seq<char> {
    seq!['e', 'n', 'x']
}

pub open spec fn wl() -> Seq<char> {
    seq!['w', 'l']
}

pub open spec fn wifi() -> Seq<char> {
    seq!['w', 'i', 'f', 'i']
}

pub open spec fn wlan() -> Seq<char> {
    seq!['w', 'l', 'a', 'n']
}

pub open spec fn eth() -> Seq<char> {
    seq!['e', 't', 'h']
}

/// How strongly an interface name suggests a phone link, judged on its ASCII
/// lower case: RNDIS 100, `usb*` 95, `enx*` 80, Wi-Fi 70, `eth*` 30, else 0.
pub open spec fn spec_interface_score(name: Seq<char>) -> u8 {
    let n = lower(name);
    if contains_seq(n, rndis()) {
        100
    } else if starts_with(n, usb()) {
        95
    } else if starts_with(n, enx()) {
        80
    } else if starts_with(n, wl()) || contains_seq(n, wifi()) || contains_seq(n, wlan()) {
        70
    } else if starts_with(n, eth()) {
        30
    } else {
        0
    }
}

/// A name that the scorer treats as a USB/RNDIS link.
pub open spec fn is_usb_name(name: Seq<char>) -> bool {
    let n = lower(name);
    contains_seq(n, rndis()) || starts_with(n, usb()) || starts_with(n, enx())
}

/// Law: USB is preferred. Every name that looks like a USB/RNDIS link scores
/// above every name that does not.
pub proof fn lemma_usb_preferred(usb_name: Seq<char>, other: Seq<char>)
    requires
        is_usb_name(usb_name),
        !is_usb_name(other),
    ensures
        spec_interface_score(usb_name) > spec_interface_score(other),
{
}

/// Scores an interface name.
pub fn interface_score(name: &str) -> (r: u8)
    ensures
        r == spec_interface_score(name@),
{
    let raw = chars_of(name);
    let n = to_lower(raw.as_slice());
    let n = n.as_slice();
    if contains_chars(n, vec!['r', 'n', 'd', 'i', 's'].as_slice()) {
        100
    } else if starts_with_chars(n, vec!['u', 's', 'b'].as_slice()) {
        95
    } else if starts_with_chars(n, vec!['e', 'n', 'x'].as_slice()) {
        80
    } else if starts_with_chars(n, vec!['w', 'l'].as_slice()) || contains_chars(
        n,
        vec!['w', 'i', 'f', 'i'].as_slice(),
    ) || contains_chars(n, vec!['w', 'l', 'a', 'n'].as_slice()) {
        70
    } else if starts_with_chars(n, vec!['e', 't', 'h'].as_slice()) {
        30
    } else {
        0
    }
}

/// What one line of `ip -o -4 addr show` contributes: the interface name (the
/// second field) and the address before the `/` of the fourth field, when
/// that address parses and is private.
pub open spec fn address_entry(line: Seq<char>) -> Option<(Seq<char>, Ipv4)> {
    let f = words(line);
    if f.len() >= 4 {
        match parse_ipv4(split_char(f[3], '/')[0]) {
            Some(ip) => if spec_is_private(ip) {
                Some((f[1], ip))
            } else {
                None
            },
            None => None,
        }
    } else {
        None
    }
}

/// The (name, address) entries of a sequence of lines, in order.
pub open spec fn entries_of(ls: Seq<Seq<char>>) -> Seq<(Seq<char>, Ipv4)> {
    ls.filter_map(|l: Seq<char>| address_entry(l))
}

/// The (name, address) entries of the whole output, in order.
pub open spec fn address_entries(text: Seq<char>) -> Seq<(Seq<char>, Ipv4)> {
    entries_of(lines(text))
}

/// No name occurs in two groups.
pub open spec fn names_distinct(g: Seq<GroupView>) -> bool {
    forall|i: int, j: int| 0 <= i < g.len() && 0 <= j < g.len() && i != j ==> g[i].0 != g[j].0
}

/// Entries gathered by interface name: one group per name, in the order in
/// which names first appear, each with its addresses in order.
pub open spec fn group_entries(e: Seq<(Seq<char>, Ipv4)>) -> Seq<GroupView>
    decreases e.len(),
{
    if e.len() == 0 {
        Seq::empty()
    } else {
        let g = group_entries(e.drop_last());
        let n = e.last().0;
        let ip = e.last().1;
        if exists|k: int| 0 <= k < g.len() && g[k].0 == n {
            let k = choose|k: int| 0 <= k < g.len() && g[k].0 == n;
            g.update(k, (n, g[k].1.push(ip)))
        } else {
            g.push((n, seq![ip]))
        }
    }
}

fn copy_addresses(v: &[Ipv4]) -> (r: Vec<Ipv4>)
    ensures
        r@ == v@,
{
    let mut r: Vec<Ipv4> = Vec::new();
    for i in 0..v.len()
        invariant
            r@ == v@.take(i as int),
    {
        r.push(v[i]);
        assert(v@.take(i + 1) == v@.take(i as int).push(v@[i as int]));
    }
    assert(v@.take(v.len() as int) == v@);
    r
}

/// The entry of one line of `ip -o -4 addr show`.
fn line_entry(line: &[char]) -> (r: Option<(Vec<char>, Ipv4)>)
    ensures
        match r {
            Some((n, ip)) => address_entry(line@) == Some((n@, ip)),
            None => address_entry(line@) is None,
        },
{
    let fields = words_of(line);
    if fields.len() < 4 {
        return None;
    }
    assert(views(fields@)[3] == fields@[3]@);
    assert(views(fields@)[1] == fields@[1]@);
    let pieces = split_on(fields[3].as_slice(), '/');
    proof {
        crate::text::lemma_split_len(fields@[3]@, '/');
    }
    assert(views(pieces@)[0] == pieces@[0]@);
    match parse_ipv4_chars(pieces[0].as_slice()) {
        Some(ip) => {
            if is_private(ip) {
                let name = crate::text::slice_chars(fields[1].as_slice(), 0, fields[1].len());
                assert(name@ =~= fields@[1]@);
                Some((name, ip))
            } else {
                None
            }
        },
        None => None,
    }
}

/// Gathers the private IPv4 addresses in the output of
/// `ip -o -4 addr show scope global` by interface name.
pub fn group_addresses(ip_output: &str) -> (groups: Vec<AddressGroup>)
    ensures
        group_views(groups@) == group_entries(address_entries(ip_output@)),
        names_distinct(group_views(groups@)),
{
    let text = chars_of(ip_output);
    let ls = lines_of(text.as_slice());
    let ghost lv = lines(ip_output@);
    let mut groups: Vec<AddressGroup> = Vec::new();
    assert(entries_of(lv.take(0)) == Seq::<(Seq<char>, Ipv4)>::empty());
    for i in 0..ls.len()
        invariant
            lv == views(ls@),
            group_views(groups@) == group_entries(entries_of(lv.take(i as int))),
            names_distinct(group_views(groups@)),
    {
        assert(lv.take(i + 1).drop_last() == lv.take(i as int));
        assert(lv.take(i + 1).last() == ls@[i as int]@);
        let entry = line_entry(ls[i].as_slice());
        match entry {
            None => {
                assert(entries_of(lv.take(i + 1)) == entries_of(lv.take(i as int)));
            },
            Some((name, ip)) => {
                let ghost e = entries_of(lv.take(i as int));
                assert(entries_of(lv.take(i + 1)) == e + seq![(name@, ip)]);
                assert((e + seq![(name@, ip)]).drop_last() == e);
                let ghost g = group_views(groups@);
                let mut k: usize = 0;
                let mut found = false;
                while k < groups.len()
                    invariant
                        g == group_views(groups@),
                        k <= groups.len(),
                        !found ==> forall|j: int| 0 <= j < k ==> g[j].0 != name@,
                        found ==> k < groups.len() && g[k as int].0 == name@,
                    ensures
                        found || k == groups.len(),
                        !found ==> forall|j: int| 0 <= j < k ==> g[j].0 != name@,
                        found ==> k < groups.len() && g[k as int].0 == name@,
                    decreases groups.len() - k + (if found { 0int } else { 1int }),
                {
                    let existing = chars_of(groups[k].name.as_str());
                    if chars_eq(existing.as_slice(), name.as_slice()) {
                        found = true;
                        break;
                    }
                    k += 1;
                }
                if found {
                    let mut addrs = copy_addresses(groups[k].addresses.as_slice());
                    addrs.push(ip);
                    let nm = string_of(name.as_slice());
                    let ghost old_groups = groups@;
                    groups.set(k, AddressGroup { name: nm, addresses: addrs });
                    proof {
                        let e1 = e + seq![(name@, ip)];
                        assert(e1.last() == (name@, ip));
                        assert(group_entries(e1.drop_last()) == g);
                        assert(exists|kk: int| 0 <= kk < g.len() && g[kk].0 == name@);
                        let kk = choose|kk: int| 0 <= kk < g.len() && g[kk].0 == name@;
                        assert(kk == k as int);
                        assert(group_views(groups@) =~= g.update(k as int, (name@, g[k as int].1.push(ip))));
                        assert(group_entries(e1) == g.update(k as int, (name@, g[k as int].1.push(ip))));
                        let ng = group_views(groups@);
                        assert forall|a: int, b: int| 0 <= a < ng.len() && 0 <= b < ng.len() && a != b implies ng[a].0 != ng[b].0 by {
                            assert(ng[a].0 == g[a].0);
                            assert(ng[b].0 == g[b].0);
                        }
                    }
                } else {
                    let mut addrs: Vec<Ipv4> = Vec::new();
                    addrs.push(ip);
                    let nm = string_of(name.as_slice());
                    assert(addrs@ == seq![ip]);
                    groups.push(AddressGroup { name: nm, addresses: addrs });
                    assert(group_views(groups@) =~= g.push((name@, seq![ip])));
                    proof {
                        let e1 = e + seq![(name@, ip)];
                        assert(e1.last() == (name@, ip));
                        assert(group_entries(e1.drop_last()) == g);
                        assert(!exists|kk: int| 0 <= kk < g.len() && g[kk].0 == name@);
                        assert(group_entries(e1) == g.push((name@, seq![ip])));
                        let ng = group_views(groups@);
                        assert forall|a: int, b: int| 0 <= a < ng.len() && 0 <= b < ng.len() && a != b implies ng[a].0 != ng[b].0 by {
                            if a < g.len() && b < g.len() {
                                assert(ng[a].0 == g[a].0);
                                assert(ng[b].0 == g[b].0);
                            }
                        }
                    }
                }
            },
        }
    }
    assert(lv.take(ls.len() as int) == lv);
    groups
}

/// Every address of every group is in a private range.
pub open spec fn all_private(g: Seq<GroupView>) -> bool {
    forall|i: int, j: int|
        0 <= i < g.len() && 0 <= j < g[i].1.len() ==> spec_is_private(#[trigger] g[i].1[j])
}

proof fn lemma_entries_private(ls: Seq<Seq<char>>)
    ensures
        forall|k: int| 0 <= k < entries_of(ls).len() ==> spec_is_private(#[trigger] entries_of(ls)[k].1),
    decreases ls.len(),
{
    if ls.len() > 0 {
        lemma_entries_private(ls.drop_last());
        let e0 = entries_of(ls.drop_last());
        match address_entry(ls.last()) {
            Some(x) => {
                assert(entries_of(ls) == e0 + seq![x]);
                assert(spec_is_private(x.1));
                assert forall|k: int| 0 <= k < entries_of(ls).len() implies spec_is_private(
                    #[trigger] entries_of(ls)[k].1,
                ) by {
                    if k < e0.len() {
                        assert(entries_of(ls)[k] == e0[k]);
                    }
                }
            },
            None => {
                assert(entries_of(ls) == e0);
            },
        }
    }
}

proof fn lemma_group_private(e: Seq<(Seq<char>, Ipv4)>)
    requires
        forall|k: int| 0 <= k < e.len() ==> spec_is_private(#[trigger] e[k].1),
    ensures
        all_private(group_entries(e)),
    decreases e.len(),
{
    if e.len() > 0 {
        let e0 = e.drop_last();
        assert forall|k: int| 0 <= k < e0.len() implies spec_is_private(#[trigger] e0[k].1) by {
            assert(e0[k] == e[k]);
        }
        lemma_group_private(e0);
        assert(spec_is_private(e[e.len() - 1].1));
    }
}

/// Law: discovery keeps private addresses only; every address that
/// `group_addresses` returns is in a private range.
pub proof fn lemma_grouped_addresses_private(text: Seq<char>)
    ensures
        all_private(group_entries(address_entries(text))),
{
    lemma_entries_private(lines(text));
    lemma_group_private(address_entries(text));
}

pub open spec fn via() -> Seq<char> {
    seq!['v', 'i', 'a']
}

/// `k` is the first word `via` that has a word after it.
pub open spec fn is_first_via(w: Seq<Seq<char>>, k: int) -> bool {
    &&& 0 <= k
    &&& k + 1 < w.len()
    &&& w[k] == via()
    &&& forall|j: int| 0 <= j < k ==> w[j] != via()
}

/// The gateway that one route line names: the word after its first `via`,
/// when that word is an IPv4 address.
pub open spec fn line_gateway(line: Seq<char>) -> Option<Ipv4> {
    let w = words(line);
    if exists|k: int| is_first_via(w, k) {
        let k = choose|k: int| is_first_via(w, k);
        parse_ipv4(w[k + 1])
    } else {
        None
    }
}

/// The gateway of the first line that names one.
pub open spec fn first_gateway(ls: Seq<Seq<char>>) -> Option<Ipv4>
    decreases ls.len(),
{
    if ls.len() == 0 {
        None
    } else {
        match line_gateway(ls[0]) {
            Some(g) => Some(g),
            None => first_gateway(ls.drop_first()),
        }
    }
}

/// The gateway in the output of `ip route show dev NAME`.
pub open spec fn route_gateway(text: Seq<char>) -> Option<Ipv4> {
    first_gateway(lines(text))
}

fn line_gateway_chars(line: &[char]) -> (r: Option<Ipv4>)
    ensures
        r == line_gateway(line@),
{
    let w = words_of(line);
    let ghost wv = views(w@);
    let n = w.len();
    if n < 2 {
        assert(!exists|k: int| is_first_via(wv, k));
        return None;
    }
    let mut k: usize = 0;
    while k + 1 < n
        invariant
            n == w.len() == wv.len(),
            wv == views(w@),
            wv == words(line@),
            k + 1 <= n,
            forall|j: int| 0 <= j < k ==> wv[j] != via(),
        decreases n - k,
    {
        assert(wv[k as int] == w@[k as int]@);
        let via_word = vec!['v', 'i', 'a'];
        assert(via_word@ == via());
        if chars_eq(w[k].as_slice(), via_word.as_slice()) {
            proof {
                assert(is_first_via(wv, k as int));
                let kk = choose|kk: int| is_first_via(wv, kk);
                if kk < k {
                    assert(wv[kk] != via());
                } else if kk > k {
                    assert(wv[k as int] != via());
                }
            }
            assert(wv[k + 1] == w@[k + 1]@);
            return parse_ipv4_chars(w[k + 1].as_slice());
        }
        k += 1;
    }
    assert(!exists|kk: int| is_first_via(wv, kk)) by {
        if exists|kk: int| is_first_via(wv, kk) {
            let kk = choose|kk: int| is_first_via(wv, kk);
            assert(wv[kk] != via());
        }
    }
    None
}

/// Reads the route gateway out of the output of `ip route show dev NAME`: the
/// address after `via` on the first line that names one.
pub fn parse_route_gateway(route_output: &str) -> (r: Option<Ipv4>)
    ensures
        r == route_gateway(route_output@),
{
    let text = chars_of(route_output);
    let ls = lines_of(text.as_slice());
    let ghost lv = views(ls@);
    assert(lv.skip(0) == lv);
    for i in 0..ls.len()
        invariant
            lv == views(ls@),
            lv == lines(route_output@),
            first_gateway(lv) == first_gateway(lv.skip(i as int)),
    {
        assert(lv.skip(i as int)[0] == ls@[i as int]@);
        assert(lv.skip(i as int).drop_first() == lv.skip(i + 1));
        match line_gateway_chars(ls[i].as_slice()) {
            Some(g) => {
                return Some(g);
            },
            None => {},
        }
    }
    assert(lv.skip(ls.len() as int).len() == 0);
    None
}

/// An interface from its group and gateway.
pub open spec fn interface_of(g: GroupView, gateway: Option<Ipv4>) -> InterfaceView {
    (g.0, g.1, gateway, spec_interface_score(g.0))
}

/// The interfaces of the groups, each with its gateway, that score above zero.
pub open spec fn scored_interfaces(groups: Seq<GroupView>, gateways: Seq<Option<Ipv4>>) -> Seq<
    InterfaceView,
>
    decreases groups.len(),
{
    if groups.len() == 0 {
        Seq::empty()
    } else {
        let rest = scored_interfaces(groups.drop_last(), gateways.drop_last());
        let iv = interface_of(groups.last(), gateways.last());
        if iv.3 > 0 {
            rest.push(iv)
        } else {
            rest
        }
    }
}

/// The candidate interfaces: each group with its gateway (`gateways[i]`
/// belongs to `groups[i]`) and score, keeping those that score above zero.
pub fn discover_interfaces(groups: &[AddressGroup], gateways: &[Option<Ipv4>]) -> (r: Vec<
    Interface,
>)
    requires
        groups.len() == gateways.len(),
    ensures
        interface_views(r@) == scored_interfaces(group_views(groups@), gateways@),
{
    let mut r: Vec<Interface> = Vec::new();
    let ghost gv = group_views(groups@);
    for i in 0..groups.len()
        invariant
            groups.len() == gateways.len(),
            gv == group_views(groups@),
            interface_views(r@) == scored_interfaces(gv.take(i as int), gateways@.take(i as int)),
    {
        assert(gv.take(i + 1).drop_last() == gv.take(i as int));
        assert(gateways@.take(i + 1).drop_last() == gateways@.take(i as int));
        assert(gv.take(i + 1).last() == groups@[i as int]@);
        let name = &groups[i].name;
        let score = interface_score(name.as_str());
        if score > 0 {
            let ghost old_r = interface_views(r@);
            let iface = Interface {
                name: name.clone(),
                addresses: copy_addresses(groups[i].addresses.as_slice()),
                gateway: gateways[i],
                score,
            };
            r.push(iface);
            assert(interface_views(r@) =~= old_r.push(interface_of(groups@[i as int]@, gateways@[i as int])));
        }
    }
    assert(gv.take(groups.len() as int) == gv);
    assert(gateways@.take(groups.len() as int) == gateways@);
    r
}

/// Law: discovery keeps exactly the interfaces whose names score above zero.
/// Each group that scores above zero comes out with its name, addresses,
/// gateway (`gateways[i]` for `groups[i]`) and score; one that scores zero
/// does not; and nothing else comes out.
pub proof fn lemma_discovery_keeps_scored(groups: Seq<GroupView>, gateways: Seq<Option<Ipv4>>)
    requires
        groups.len() == gateways.len(),
    ensures
        ({
            let r = scored_interfaces(groups, gateways);
            &&& forall|i: int|
                0 <= i < groups.len() ==> (spec_interface_score(groups[i].0) > 0 <==> r.contains(
                    (groups[i].0, groups[i].1, gateways[i], spec_interface_score(groups[i].0)),
                ))
            &&& forall|k: int|
                #![trigger r[k]]
                0 <= k < r.len() ==> exists|i: int|
                    #![trigger groups[i]]
                    0 <= i < groups.len() && spec_interface_score(groups[i].0) > 0 && r[k] == (
                        groups[i].0,
                        groups[i].1,
                        gateways[i],
                        spec_interface_score(groups[i].0),
                    )
        }),
    decreases groups.len(),
{
    let r = scored_interfaces(groups, gateways);
    if groups.len() > 0 {
        let g0 = groups.drop_last();
        let w0 = gateways.drop_last();
        let r0 = scored_interfaces(g0, w0);
        lemma_discovery_keeps_scored(g0, w0);
        let n = groups.len() - 1;
        let iv = interface_of(groups.last(), gateways.last());
        assert forall|k: int| #![trigger r[k]] 0 <= k < r.len() implies exists|i: int|
            #![trigger groups[i]]
            0 <= i < groups.len() && spec_interface_score(groups[i].0) > 0 && r[k] == (
                groups[i].0,
                groups[i].1,
                gateways[i],
                spec_interface_score(groups[i].0),
            ) by {
            if k < r0.len() {
                assert(r[k] == r0[k]);
                let i = choose|i: int|
                    0 <= i < g0.len() && spec_interface_score(g0[i].0) > 0 && r0[k] == (
                        g0[i].0,
                        g0[i].1,
                        w0[i],
                        spec_interface_score(g0[i].0),
                    );
                assert(groups[i] == g0[i] && gateways[i] == w0[i]);
            } else {
                assert(r[k] == iv);
                assert(groups[n] == groups.last() && gateways[n] == gateways.last());
            }
        }
        assert forall|i: int| 0 <= i < groups.len() implies (spec_interface_score(groups[i].0) > 0
            <==> r.contains(
            (groups[i].0, groups[i].1, gateways[i], spec_interface_score(groups[i].0)),
        )) by {
            let x = (groups[i].0, groups[i].1, gateways[i], spec_interface_score(groups[i].0));
            if spec_interface_score(groups[i].0) > 0 {
                if i < n {
                    assert(groups[i] == g0[i] && gateways[i] == w0[i]);
                    assert(r0.contains(x));
                    let k = choose|k: int| 0 <= k < r0.len() && r0[k] == x;
                    assert(r[k] == r0[k]);
                } else {
                    assert(r[r0.len() as int] == iv);
                }
            } else if r.contains(x) {
                let k = choose|k: int| 0 <= k < r.len() && r[k] == x;
                let j = choose|j: int|
                    0 <= j < groups.len() && spec_interface_score(groups[j].0) > 0 && r[k] == (
                        groups[j].0,
                        groups[j].1,
                        gateways[j],
                        spec_interface_score(groups[j].0),
                    );
            }
        }
    }
}

} // verus!
