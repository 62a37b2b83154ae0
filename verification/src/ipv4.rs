//! IPv4 addresses: their dotted-decimal text, parsing, and the private ranges.
use vstd::prelude::*;
use crate::text::{
    all_digits, chars_of, decimal, digits_value, is_ascii_digit, parse_decimal, push_decimal,
    join_with, lemma_canonical_decimal, lemma_decimal, lemma_join_split, lemma_split_concat,
    lemma_split_no_sep, split_char, split_on, views,
};

verus! {

/// An IPv4 address, by its four octets, most significant first.
#[derive(Clone, Copy, Debug, PartialEq, Eq, Structural)]
pub struct Ipv4 {
    pub a: u8,
    pub b: u8,
    pub c: u8,
    pub d: u8,
}

/// The dotted-decimal text of `ip`, as `Ipv4Addr`'s `Display` writes it.
pub open spec fn ipv4_text(ip: Ipv4) -> Seq<char> {
    decimal(ip.a as nat) + seq!['.'] + decimal(ip.b as nat) + seq!['.'] + decimal(ip.c as nat)
        + seq!['.'] + decimal(ip.d as nat)
}

/// One to three digits, without a leading zero, of value at most 255.
pub open spec fn octet_text_ok(t: Seq<char>) -> bool {
    &&& 1 <= t.len() <= 3
    &&& all_digits(t)
    &&& (t.len() > 1 ==> t[0] != '0')
    &&& digits_value(t) <= 255
}

/// What `str::parse::<Ipv4Addr>` accepts: four octets separated by dots.
pub open spec fn parse_ipv4(s: Seq<char>) -> Option<Ipv4> {
    let p = split_char(s, '.');
    if p.len() == 4 && octet_text_ok(p[0]) && octet_text_ok(p[1]) && octet_text_ok(p[2])
        && octet_text_ok(p[3]) {
        Some(
            Ipv4 {
                a: digits_value(p[0]) as u8,
                b: digits_value(p[1]) as u8,
                c: digits_value(p[2]) as u8,
                d: digits_value(p[3]) as u8,
            },
        )
    } else {
        None
    }
}

/// The private ranges (10/8, 172.16/12, 192.168/16) and carrier-grade NAT (100.64/10).
pub open spec fn spec_is_private(ip: Ipv4) -> bool {
    ||| ip.a == 10
    ||| (ip.a == 172 && 16 <= ip.b <= 31)
    ||| (ip.a == 192 && ip.b == 168)
    ||| (ip.a == 100 && 64 <= ip.b < 128)
}

proof fn lemma_octet_text(n: u8)
    ensures
        octet_text_ok(decimal(n as nat)),
        digits_value(decimal(n as nat)) == n,
        !decimal(n as nat).contains('.'),
        split_char(decimal(n as nat), '.') == seq![decimal(n as nat)],
{
    lemma_decimal(n as nat);
    let t = decimal(n as nat);
    assert(!t.contains('.')) by {
        if t.contains('.') {
            let k = choose|k: int| 0 <= k < t.len() && t[k] == '.';
            assert(all_digits(t));
            assert(crate::text::is_digit(t[k]));
        }
    }
    lemma_split_no_sep(t, '.');
}

/// Law: the dotted-decimal text of an address parses back to that address,
/// and text that parses to an address is exactly that address's text.
pub proof fn lemma_ipv4_text_roundtrip(ip: Ipv4, s: Seq<char>)
    ensures
        parse_ipv4(ipv4_text(ip)) == Some(ip),
        parse_ipv4(s) == Some(ip) ==> s == ipv4_text(ip),
{
    let ta = decimal(ip.a as nat);
    let tb = decimal(ip.b as nat);
    let tc = decimal(ip.c as nat);
    let td = decimal(ip.d as nat);
    lemma_octet_text(ip.a);
    lemma_octet_text(ip.b);
    lemma_octet_text(ip.c);
    lemma_octet_text(ip.d);
    let p1 = ta;
    let p2 = p1 + seq!['.'] + tb;
    let p3 = p2 + seq!['.'] + tc;
    let p4 = p3 + seq!['.'] + td;
    assert(p4 == ipv4_text(ip));
    lemma_split_concat(p1, tb, '.');
    lemma_split_concat(p2, tc, '.');
    lemma_split_concat(p3, td, '.');
    let parts = split_char(p4, '.');
    assert(parts == seq![ta, tb, tc, td]);
    assert(parse_ipv4(ipv4_text(ip)) == Some(ip));
    if parse_ipv4(s) == Some(ip) {
        let q = split_char(s, '.');
        lemma_join_split(s, '.');
        lemma_canonical_decimal(q[0]);
        lemma_canonical_decimal(q[1]);
        lemma_canonical_decimal(q[2]);
        lemma_canonical_decimal(q[3]);
        assert(q[0] == ta);
        assert(q[1] == tb);
        assert(q[2] == tc);
        assert(q[3] == td);
        assert(q.drop_last().drop_last().drop_last() == seq![q[0]]);
        assert(join_with(q, '.') == join_with(q.drop_last(), '.') + seq!['.'] + q[3]);
        assert(join_with(q.drop_last(), '.') == join_with(q.drop_last().drop_last(), '.') + seq![
            '.',
        ] + q[2]);
        assert(join_with(q.drop_last().drop_last(), '.') == join_with(
            q.drop_last().drop_last().drop_last(),
            '.',
        ) + seq!['.'] + q[1]);
    }
}

impl Ipv4 {
    pub fn new(a: u8, b: u8, c: u8, d: u8) -> (ip: Ipv4)
        ensures
            ip == (Ipv4 { a, b, c, d }),
    {
        Ipv4 { a, b, c, d }
    }
}

/// Whether `ip` is in a private or carrier-grade NAT range.
pub fn is_private(ip: Ipv4) -> (r: bool)
    ensures
        r == spec_is_private(ip),
{
    ip.a == 10 || (ip.a == 172 && 16 <= ip.b && ip.b <= 31) || (ip.a == 192 && ip.b == 168) || (
    ip.a == 100 && 64 <= ip.b && ip.b < 128)
}

/// The value of an octet's text, when the text is a valid octet.
fn parse_octet(t: &[char]) -> (r: Option<u8>)
    ensures
        match r {
            Some(v) => octet_text_ok(t@) && v as nat == digits_value(t@),
            None => !octet_text_ok(t@),
        },
{
    let n = t.len();
    if n < 1 || n > 3 {
        return None;
    }
    if !is_ascii_digit(t[0]) {
        return None;
    }
    if n > 1 && t[0] == '0' {
        return None;
    }
    match parse_decimal(t, 255) {
        Some(v) => Some(v as u8),
        None => None,
    }
}

/// Parses dotted-decimal IPv4 text.
pub fn parse_ipv4_chars(s: &[char]) -> (r: Option<Ipv4>)
    ensures
        r == parse_ipv4(s@),
{
    let parts = split_on(s, '.');
    if parts.len() != 4 {
        return None;
    }
    assert(views(parts@)[0] == parts@[0]@);
    assert(views(parts@)[1] == parts@[1]@);
    assert(views(parts@)[2] == parts@[2]@);
    assert(views(parts@)[3] == parts@[3]@);
    let a = match parse_octet(parts[0].as_slice()) {
        Some(v) => v,
        None => return None,
    };
    let b = match parse_octet(parts[1].as_slice()) {
        Some(v) => v,
        None => return None,
    };
    let c = match parse_octet(parts[2].as_slice()) {
        Some(v) => v,
        None => return None,
    };
    let d = match parse_octet(parts[3].as_slice()) {
        Some(v) => v,
        None => return None,
    };
    Some(Ipv4 { a, b, c, d })
}

/// Parses dotted-decimal IPv4 text.
pub fn parse_ipv4_str(s: &str) -> (r: Option<Ipv4>)
    ensures
        r == parse_ipv4(s@),
{
    let v = chars_of(s);
    parse_ipv4_chars(v.as_slice())
}

/// Appends the dotted-decimal text of `ip` to `out`.
pub fn push_ipv4(out: &mut String, ip: Ipv4)
    ensures
        final(out)@ == old(out)@ + ipv4_text(ip),
{
    push_decimal(out, ip.a as u64);
    out.push('.');
    push_decimal(out, ip.b as u64);
    out.push('.');
    push_decimal(out, ip.c as u64);
    out.push('.');
    push_decimal(out, ip.d as u64);
    assert(final(out)@ == old(out)@ + ipv4_text(ip));
}

/// The dotted-decimal text of `ip`.
pub fn ipv4_to_string(ip: Ipv4) -> (s: String)
    ensures
        s@ == ipv4_text(ip),
{
    let mut s = String::new();
    push_ipv4(&mut s, ip);
    assert(s@ == ipv4_text(ip));
    s
}

} // verus!
