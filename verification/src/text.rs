//! Character-level text handling: the parts of `str` that the rest of the
//! library reads text with, each stated over `Seq<char>`.
use vstd::prelude::*;

verus! {

/// `String::push` appends one character (std documents it as exactly that).
pub assume_specification[ String::push ](s: &mut String, ch: char)
    ensures
        final(s)@ == old(s)@.push(ch),
;

/// The views of a sequence of character vectors.
pub open spec fn views(v: Seq<Vec<char>>) -> Seq<Seq<char>> {
    v.map_values(|x: Vec<char>| x@)
}

/// Unicode `White_Space`, the property that `char::is_whitespace` and `str::trim` use.
pub open spec fn is_ws(c: char) -> bool {
    ||| c == ' '
    ||| ('\t' <= c && c <= '\r')
    ||| c == '\u{85}'
    ||| c == '\u{a0}'
    ||| c == '\u{1680}'
    ||| ('\u{2000}' <= c && c <= '\u{200a}')
    ||| c == '\u{2028}'
    ||| c == '\u{2029}'
    ||| c == '\u{202f}'
    ||| c == '\u{205f}'
    ||| c == '\u{3000}'
}

/// `s` without its leading whitespace.
pub open spec fn trim_start(s: Seq<char>) -> Seq<char>
    decreases s.len(),
{
    if s.len() > 0 && is_ws(s[0]) {
        trim_start(s.drop_first())
    } else {
        s
    }
}

/// `s` without its trailing whitespace.
pub open spec fn trim_end(s: Seq<char>) -> Seq<char>
    decreases s.len(),
{
    if s.len() > 0 && is_ws(s.last()) {
        trim_end(s.drop_last())
    } else {
        s
    }
}

/// `s` without leading and trailing whitespace, as `str::trim` gives it.
pub open spec fn trim(s: Seq<char>) -> Seq<char> {
    trim_end(trim_start(s))
}

/// The pieces of `s` between occurrences of `sep`, as `str::split(sep)` gives them.
pub open spec fn split_char(s: Seq<char>, sep: char) -> Seq<Seq<char>>
    decreases s.len(),
{
    if s.len() == 0 {
        seq![Seq::empty()]
    } else {
        let p = split_char(s.drop_last(), sep);
        if s.last() == sep {
            p.push(Seq::empty())
        } else {
            p.update(p.len() - 1, p.last().push(s.last()))
        }
    }
}

/// `i` is the first position of `c` in `s`.
pub open spec fn is_first_index(s: Seq<char>, c: char, i: int) -> bool {
    &&& 0 <= i < s.len()
    &&& s[i] == c
    &&& forall|j: int| 0 <= j < i ==> s[j] != c
}

/// `i` is the last position of `c` in `s`.
pub open spec fn is_last_index(s: Seq<char>, c: char, i: int) -> bool {
    &&& 0 <= i < s.len()
    &&& s[i] == c
    &&& forall|j: int| i < j < s.len() ==> s[j] != c
}

/// `str::split_once(c)`: the text before and after the first `c`.
pub open spec fn split_once(s: Seq<char>, c: char) -> Option<(Seq<char>, Seq<char>)> {
    if exists|i: int| is_first_index(s, c, i) {
        let i = choose|i: int| is_first_index(s, c, i);
        Some((s.take(i), s.skip(i + 1)))
    } else {
        None
    }
}

/// `str::rsplit_once(c)`: the text before and after the last `c`.
pub open spec fn rsplit_once(s: Seq<char>, c: char) -> Option<(Seq<char>, Seq<char>)> {
    if exists|i: int| is_last_index(s, c, i) {
        let i = choose|i: int| is_last_index(s, c, i);
        Some((s.take(i), s.skip(i + 1)))
    } else {
        None
    }
}

/// An ASCII decimal digit.
pub open spec fn is_digit(c: char) -> bool {
    '0' <= c && c <= '9'
}

pub open spec fn all_digits(s: Seq<char>) -> bool {
    forall|i: int| 0 <= i < s.len() ==> is_digit(#[trigger] s[i])
}

/// The value of a digit character.
pub open spec fn digit_value(c: char) -> nat {
    (c as int - '0' as int) as nat
}

/// The value of a string of decimal digits, most significant first.
pub open spec fn digits_value(s: Seq<char>) -> nat
    decreases s.len(),
{
    if s.len() == 0 {
        0
    } else {
        digits_value(s.drop_last()) * 10 + digit_value(s.last())
    }
}

/// What `str::parse` gives for an unsigned integer type whose largest value
/// is `max`: an optional `+`, then one or more ASCII digits, of value at most `max`.
pub open spec fn parse_unsigned(s: Seq<char>, max: nat) -> Option<nat> {
    let d = if s.len() > 0 && s[0] == '+' {
        s.drop_first()
    } else {
        s
    };
    if d.len() > 0 && all_digits(d) && digits_value(d) <= max {
        Some(digits_value(d))
    } else {
        None
    }
}

/// The digit character for `d < 10`.
pub open spec fn digit_char(d: nat) -> char {
    (d + 48) as char
}

/// The decimal text of `n`, without leading zeros.
pub open spec fn decimal(n: nat) -> Seq<char>
    decreases n,
{
    if n < 10 {
        seq![digit_char(n)]
    } else {
        decimal(n / 10).push(digit_char(n % 10))
    }
}

/// The whitespace-separated words of `s`, as `str::split_whitespace` gives them.
pub open spec fn words(s: Seq<char>) -> Seq<Seq<char>>
    decreases s.len(),
{
    if s.len() == 0 {
        Seq::empty()
    } else {
        let w = words(s.drop_last());
        let c = s.last();
        if is_ws(c) {
            w
        } else if s.len() >= 2 && !is_ws(s[s.len() - 2]) {
            w.update(w.len() - 1, w.last().push(c))
        } else {
            w.push(seq![c])
        }
    }
}

/// A line without the carriage return that ended it.
pub open spec fn strip_cr(l: Seq<char>) -> Seq<char> {
    if l.len() > 0 && l.last() == '\r' {
        l.drop_last()
    } else {
        l
    }
}

/// The lines of `s`, as `str::lines` gives them: split at `\n`, a `\r` before
/// the `\n` dropped, and no empty last line after a final `\n`.
pub open spec fn lines(s: Seq<char>) -> Seq<Seq<char>> {
    let p = split_char(s, '\n');
    let n = p.len() - 1;
    Seq::new(n as nat, |i: int| strip_cr(p[i])) + (if p.last().len() > 0 {
        seq![p.last()]
    } else {
        Seq::empty()
    })
}

/// `s` begins with `t`.
pub open spec fn starts_with(s: Seq<char>, t: Seq<char>) -> bool {
    t.len() <= s.len() && s.take(t.len() as int) == t
}

/// `t` occurs in `s` at position `i`.
pub open spec fn occurs_at(s: Seq<char>, t: Seq<char>, i: int) -> bool {
    0 <= i && i + t.len() <= s.len() && s.subrange(i, i + t.len()) == t
}

/// `t` occurs somewhere in `s`.
pub open spec fn contains_seq(s: Seq<char>, t: Seq<char>) -> bool {
    exists|i: int| occurs_at(s, t, i)
}

/// ASCII lower case of one character; other characters stay.
pub open spec fn ascii_lower(c: char) -> char {
    if 'A' <= c && c <= 'Z' {
        ((c as int) + 32) as char
    } else {
        c
    }
}

/// ASCII upper case of one character; other characters stay.
pub open spec fn ascii_upper(c: char) -> char {
    if 'a' <= c && c <= 'z' {
        ((c as int) - 32) as char
    } else {
        c
    }
}

/// `str::to_ascii_lowercase`.
pub open spec fn lower(s: Seq<char>) -> Seq<char> {
    s.map_values(|c: char| ascii_lower(c))
}

/// `str::to_ascii_uppercase`.
pub open spec fn upper(s: Seq<char>) -> Seq<char> {
    s.map_values(|c: char| ascii_upper(c))
}

/// `parts` joined with the text `sep` between neighbours.
pub open spec fn join(parts: Seq<Seq<char>>, sep: Seq<char>) -> Seq<char>
    decreases parts.len(),
{
    if parts.len() == 0 {
        Seq::empty()
    } else if parts.len() == 1 {
        parts[0]
    } else {
        join(parts.drop_last(), sep) + sep + parts.last()
    }
}

/// `parts` joined with `sep` between neighbours.
pub open spec fn join_with(parts: Seq<Seq<char>>, sep: char) -> Seq<char>
    decreases parts.len(),
{
    if parts.len() == 0 {
        Seq::empty()
    } else if parts.len() == 1 {
        parts[0]
    } else {
        join_with(parts.drop_last(), sep) + seq![sep] + parts.last()
    }
}

pub proof fn lemma_split_len(s: Seq<char>, sep: char)
    ensures
        split_char(s, sep).len() >= 1,
    decreases s.len(),
{
    if s.len() > 0 {
        lemma_split_len(s.drop_last(), sep);
    }
}

/// Text without the separator is one piece.
pub proof fn lemma_split_no_sep(x: Seq<char>, sep: char)
    requires
        !x.contains(sep),
    ensures
        split_char(x, sep) == seq![x],
    decreases x.len(),
{
    if x.len() > 0 {
        assert(!x.drop_last().contains(sep)) by {
            if x.drop_last().contains(sep) {
                let k = choose|k: int| 0 <= k < x.drop_last().len() && x.drop_last()[k] == sep;
                assert(x[k] == sep);
            }
        }
        lemma_split_no_sep(x.drop_last(), sep);
        assert(x.last() != sep) by {
            assert(x[x.len() - 1] == x.last());
        }
        assert(x.drop_last().push(x.last()) == x);
    } else {
        assert(x == Seq::<char>::empty());
    }
}

/// Splitting text that holds a separator splits each side.
pub proof fn lemma_split_concat(p: Seq<char>, y: Seq<char>, sep: char)
    ensures
        split_char(p + seq![sep] + y, sep) == split_char(p, sep) + split_char(y, sep),
    decreases y.len(),
{
    lemma_split_len(p, sep);
    if y.len() == 0 {
        assert(p + seq![sep] + y == p.push(sep));
        assert((p + seq![sep] + y).drop_last() == p);
        assert(split_char(y, sep) == seq![Seq::<char>::empty()]);
    } else {
        let y0 = y.drop_last();
        let c = y.last();
        lemma_split_concat(p, y0, sep);
        lemma_split_len(y0, sep);
        assert((p + seq![sep] + y).drop_last() == p + seq![sep] + y0);
        assert((p + seq![sep] + y).last() == c);
        let a = split_char(p, sep);
        let b = split_char(y0, sep);
        if c == sep {
            assert((a + b).push(Seq::<char>::empty()) == a + b.push(Seq::<char>::empty()));
        } else {
            assert((a + b).update((a + b).len() - 1, (a + b).last().push(c)) == a + b.update(
                b.len() - 1,
                b.last().push(c),
            ));
        }
    }
}

/// Joining the pieces with the separator gives back the text.
pub proof fn lemma_join_split(s: Seq<char>, sep: char)
    ensures
        join_with(split_char(s, sep), sep) == s,
    decreases s.len(),
{
    if s.len() > 0 {
        let s0 = s.drop_last();
        lemma_join_split(s0, sep);
        lemma_split_len(s0, sep);
        let p = split_char(s0, sep);
        if s.last() == sep {
            assert(p.push(Seq::<char>::empty()).drop_last() == p);
            assert(s0 + seq![sep] + Seq::<char>::empty() == s);
        } else {
            let q = p.update(p.len() - 1, p.last().push(s.last()));
            if p.len() == 1 {
                assert(s0 == p[0]);
                assert(s == s0.push(s.last()));
            } else {
                assert(q.drop_last() == p.drop_last());
                assert(join_with(p, sep) == join_with(p.drop_last(), sep) + seq![sep] + p.last());
                assert(join_with(q, sep) == join_with(p.drop_last(), sep) + seq![sep] + p.last().push(
                    s.last(),
                ));
                assert(s == s0.push(s.last()));
            }
        }
    } else {
        assert(s == Seq::<char>::empty());
    }
}

/// Text whose pieces hold no separator splits back into those pieces.
pub proof fn lemma_split_join(parts: Seq<Seq<char>>, sep: char)
    requires
        parts.len() >= 1,
        forall|i: int| 0 <= i < parts.len() ==> !(#[trigger] parts[i]).contains(sep),
    ensures
        split_char(join(parts, seq![sep]), sep) == parts,
    decreases parts.len(),
{
    if parts.len() == 1 {
        lemma_split_no_sep(parts[0], sep);
        assert(parts == seq![parts[0]]);
    } else {
        let p0 = parts.drop_last();
        assert forall|i: int| 0 <= i < p0.len() implies !(#[trigger] p0[i]).contains(sep) by {
            assert(p0[i] == parts[i]);
        }
        lemma_split_join(p0, sep);
        assert(!parts[parts.len() - 1].contains(sep));
        lemma_split_no_sep(parts.last(), sep);
        lemma_split_concat(join(p0, seq![sep]), parts.last(), sep);
        assert(p0 + seq![parts.last()] == parts);
    }
}

/// A piece of text cut out of text without `c` holds no `c`.
pub proof fn lemma_subrange_free(s: Seq<char>, c: char, a: int, b: int)
    requires
        !s.contains(c),
        0 <= a <= b <= s.len(),
    ensures
        !s.subrange(a, b).contains(c),
{
    if s.subrange(a, b).contains(c) {
        let k = choose|k: int| 0 <= k < b - a && s.subrange(a, b)[k] == c;
        assert(s[a + k] == c);
    }
}

/// Trimming takes away only the ends.
pub proof fn lemma_trim_subrange(s: Seq<char>)
    ensures
        exists|a: int, b: int| 0 <= a <= b <= s.len() && trim(s) == s.subrange(a, b),
{
    lemma_trim_start_subrange(s);
    let t = trim_start(s);
    let a = choose|a: int| 0 <= a <= s.len() && t == s.subrange(a, s.len() as int);
    lemma_trim_end_subrange(t);
    let b = choose|b: int| 0 <= b <= t.len() && trim_end(t) == t.subrange(0, b);
    assert(trim(s) == s.subrange(a, a + b));
}

proof fn lemma_trim_start_subrange(s: Seq<char>)
    ensures
        exists|a: int| 0 <= a <= s.len() && trim_start(s) == s.subrange(a, s.len() as int),
    decreases s.len(),
{
    if s.len() > 0 && is_ws(s[0]) {
        lemma_trim_start_subrange(s.drop_first());
        let a = choose|a: int|
            0 <= a <= s.drop_first().len() && trim_start(s.drop_first()) == s.drop_first().subrange(
                a,
                s.drop_first().len() as int,
            );
        assert(trim_start(s) == s.subrange(a + 1, s.len() as int));
    } else {
        assert(trim_start(s) == s.subrange(0, s.len() as int));
    }
}

proof fn lemma_trim_end_subrange(s: Seq<char>)
    ensures
        exists|b: int| 0 <= b <= s.len() && trim_end(s) == s.subrange(0, b),
    decreases s.len(),
{
    if s.len() > 0 && is_ws(s.last()) {
        lemma_trim_end_subrange(s.drop_last());
        let b = choose|b: int|
            0 <= b <= s.drop_last().len() && trim_end(s.drop_last()) == s.drop_last().subrange(0, b);
        assert(trim_end(s) == s.subrange(0, b));
    } else {
        assert(trim_end(s) == s.subrange(0, s.len() as int));
    }
}

/// Text that begins and ends with other than whitespace is its own trim.
pub proof fn lemma_trim_noop(s: Seq<char>)
    requires
        s.len() > 0,
        !is_ws(s[0]),
        !is_ws(s.last()),
    ensures
        trim(s) == s,
{
}

/// The pieces of text split at `sep` hold no `sep`.
pub proof fn lemma_split_pieces_free(s: Seq<char>, sep: char)
    ensures
        forall|i: int|
            0 <= i < split_char(s, sep).len() ==> !(#[trigger] split_char(s, sep)[i]).contains(sep),
    decreases s.len(),
{
    lemma_split_len(s, sep);
    if s.len() > 0 {
        let s0 = s.drop_last();
        lemma_split_pieces_free(s0, sep);
        lemma_split_len(s0, sep);
        let p = split_char(s0, sep);
        if s.last() != sep {
            let q = p.last().push(s.last());
            assert(!q.contains(sep)) by {
                if q.contains(sep) {
                    let k = choose|k: int| 0 <= k < q.len() && q[k] == sep;
                    if k < p.last().len() {
                        assert(p[p.len() - 1][k] == sep);
                    }
                }
            }
            assert forall|i: int| 0 <= i < split_char(s, sep).len() implies !(#[trigger] split_char(
                s,
                sep,
            )[i]).contains(sep) by {
                if i < p.len() - 1 {
                    assert(split_char(s, sep)[i] == p[i]);
                }
            }
        } else {
            assert forall|i: int| 0 <= i < split_char(s, sep).len() implies !(#[trigger] split_char(
                s,
                sep,
            )[i]).contains(sep) by {
                if i < p.len() {
                    assert(split_char(s, sep)[i] == p[i]);
                } else {
                    assert(split_char(s, sep)[i] == Seq::<char>::empty());
                }
            }
        }
    }
}

/// The lines of text hold no line feed.
pub proof fn lemma_lines_free(s: Seq<char>)
    ensures
        forall|i: int| 0 <= i < lines(s).len() ==> !(#[trigger] lines(s)[i]).contains('\n'),
{
    let p = split_char(s, '\n');
    lemma_split_pieces_free(s, '\n');
    lemma_split_len(s, '\n');
    assert forall|i: int| 0 <= i < lines(s).len() implies !(#[trigger] lines(s)[i]).contains('\n') by {
        if i < p.len() - 1 {
            assert(lines(s)[i] == strip_cr(p[i]));
            assert(!p[i].contains('\n'));
            if p[i].len() > 0 && p[i].last() == '\r' {
                lemma_subrange_free(p[i], '\n', 0, p[i].len() - 1);
                assert(p[i].drop_last() == p[i].subrange(0, p[i].len() - 1));
            }
        } else {
            assert(lines(s)[i] == p.last());
            assert(p.last() == p[p.len() - 1]);
        }
    }
}

proof fn lemma_digit_char(n: nat)
    requires
        n < 10,
    ensures
        is_digit(digit_char(n)),
        digit_value(digit_char(n)) == n,
        digit_char(n) == '0' <==> n == 0,
{
}

/// The decimal text of `n` is digits without a leading zero, and reads back as `n`.
pub proof fn lemma_decimal(n: nat)
    ensures
        all_digits(decimal(n)),
        decimal(n).len() >= 1,
        decimal(n).len() > 1 ==> decimal(n)[0] != '0',
        digits_value(decimal(n)) == n,
        n < 10 ==> decimal(n).len() == 1,
        n < 100 ==> decimal(n).len() <= 2,
        n < 1000 ==> decimal(n).len() <= 3,
    decreases n,
{
    if n < 10 {
        lemma_digit_char(n);
        let t = seq![digit_char(n)];
        assert(t.drop_last() == Seq::<char>::empty());
        assert(digits_value(Seq::<char>::empty()) == 0);
        assert(t.last() == digit_char(n));
        assert(digits_value(t) == digits_value(t.drop_last()) * 10 + digit_value(t.last()));
    } else {
        let q = n / 10;
        let r = n % 10;
        lemma_decimal(q);
        lemma_digit_char(r);
        let t = decimal(q).push(digit_char(r));
        assert(t.drop_last() == decimal(q));
        assert(n == q * 10 + r);
        assert(t[0] == decimal(q)[0]);
        if decimal(q).len() == 1 {
            assert(q < 10) by {
                if q >= 10 {
                    lemma_decimal(q / 10);
                }
            }
            assert(decimal(q) == seq![digit_char(q)]);
            lemma_digit_char(q);
        }
    }
}

proof fn lemma_digits_value_positive(t: Seq<char>)
    requires
        all_digits(t),
        t.len() >= 1,
        t[0] != '0',
    ensures
        digits_value(t) >= 1,
    decreases t.len(),
{
    if t.len() > 1 {
        assert(t.drop_last()[0] == t[0]);
        lemma_digits_value_positive(t.drop_last());
    }
}

/// Digits without a leading zero are the decimal text of their value.
pub proof fn lemma_canonical_decimal(t: Seq<char>)
    requires
        all_digits(t),
        t.len() >= 1,
        t.len() > 1 ==> t[0] != '0',
    ensures
        decimal(digits_value(t)) == t,
    decreases t.len(),
{
    let v = digits_value(t);
    if t.len() == 1 {
        assert(t.drop_last() == Seq::<char>::empty());
        assert(digits_value(Seq::<char>::empty()) == 0);
        assert(t.last() == t[0]);
        assert(is_digit(t[0]));
        assert(v == digit_value(t[0]));
        assert(digit_char(v) == t[0]);
        assert(t == seq![t[0]]);
    } else {
        let t0 = t.drop_last();
        assert(t0[0] == t[0]);
        lemma_canonical_decimal(t0);
        lemma_digits_value_positive(t0);
        let w = digits_value(t0);
        let d = digit_value(t.last());
        assert(is_digit(t[t.len() - 1]));
        assert(d < 10);
        assert(v == w * 10 + d);
        assert(v / 10 == w && v % 10 == d) by (nonlinear_arith)
            requires
                v == w * 10 + d,
                d < 10,
        ;
        assert(digit_char(d) == t.last());
        assert(t0.push(t.last()) == t);
    }
}

/// The characters of `s`, in order.
pub fn chars_of(s: &str) -> (v: Vec<char>)
    ensures
        v@ == s@,
{
    broadcast use vstd::string::group_string_axioms;

    let mut v: Vec<char> = Vec::new();
    for c in it: s.chars()
        invariant
            v@ == it.seq().take(it.index() as int),
            it.seq() == s@,
    {
        v.push(c);
        assert(it.seq().take(it.index() + 1) == it.seq().take(it.index() as int).push(c));
    }
    v
}

/// The string made of the characters of `v`.
pub fn string_of(v: &[char]) -> (s: String)
    ensures
        s@ == v@,
{
    let mut s = String::new();
    for i in 0..v.len()
        invariant
            s@ == v@.take(i as int),
    {
        s.push(v[i]);
        assert(v@.take(i + 1) == v@.take(i as int).push(v@[i as int]));
    }
    assert(v@.take(v.len() as int) == v@);
    s
}

/// Appends the characters of `v` to `out`.
pub fn push_chars(out: &mut String, v: &[char])
    ensures
        final(out)@ == old(out)@ + v@,
{
    for i in 0..v.len()
        invariant
            out@ == old(out)@ + v@.take(i as int),
    {
        out.push(v[i]);
        assert(v@.take(i + 1) == v@.take(i as int).push(v@[i as int]));
    }
    assert(v@.take(v.len() as int) == v@);
}

/// Appends `s` to `out`.
pub fn push_str(out: &mut String, s: &str)
    ensures
        final(out)@ == old(out)@ + s@,
{
    let v = chars_of(s);
    push_chars(out, v.as_slice());
}

/// The characters of `s` from `a` up to `b`.
pub fn slice_chars(s: &[char], a: usize, b: usize) -> (v: Vec<char>)
    requires
        a <= b <= s.len(),
    ensures
        v@ == s@.subrange(a as int, b as int),
{
    let mut v: Vec<char> = Vec::new();
    let mut i = a;
    while i < b
        invariant
            a <= i <= b <= s.len(),
            v@ == s@.subrange(a as int, i as int),
        decreases b - i,
    {
        v.push(s[i]);
        assert(s@.subrange(a as int, i + 1) == s@.subrange(a as int, i as int).push(s@[i as int]));
        i += 1;
    }
    v
}

/// Whether `c` is Unicode whitespace.
pub fn is_whitespace(c: char) -> (r: bool)
    ensures
        r == is_ws(c),
{
    c == ' ' || ('\t' <= c && c <= '\r') || c == '\u{85}' || c == '\u{a0}' || c == '\u{1680}'
        || ('\u{2000}' <= c && c <= '\u{200a}') || c == '\u{2028}' || c == '\u{2029}' || c
        == '\u{202f}' || c == '\u{205f}' || c == '\u{3000}'
}

/// `s` without leading and trailing whitespace.
pub fn trimmed(s: &[char]) -> (v: Vec<char>)
    ensures
        v@ == trim(s@),
{
    let n = s.len();
    let mut i: usize = 0;
    assert(s@.skip(0) == s@);
    while i < n && is_whitespace(s[i])
        invariant
            i <= n == s.len(),
            trim_start(s@) == trim_start(s@.skip(i as int)),
        decreases n - i,
    {
        assert(s@.skip(i as int).drop_first() == s@.skip(i + 1));
        i += 1;
    }
    assert(trim_start(s@) == s@.subrange(i as int, n as int)) by {
        assert(s@.skip(i as int) == s@.subrange(i as int, n as int));
    }
    let mut j: usize = n;
    while j > i && is_whitespace(s[j - 1])
        invariant
            i <= j <= n == s.len(),
            trim(s@) == trim_end(s@.subrange(i as int, j as int)),
        decreases j,
    {
        assert(s@.subrange(i as int, j as int).drop_last() == s@.subrange(i as int, j - 1));
        j -= 1;
    }
    slice_chars(s, i, j)
}

/// `s` split at every `sep`.
pub fn split_on(s: &[char], sep: char) -> (parts: Vec<Vec<char>>)
    ensures
        views(parts@) == split_char(s@, sep),
{
    let mut done: Vec<Vec<char>> = Vec::new();
    let mut cur: Vec<char> = Vec::new();
    assert(s@.take(0) == Seq::<char>::empty());
    assert(views(done@).push(cur@) == seq![Seq::<char>::empty()]);
    for i in 0..s.len()
        invariant
            split_char(s@.take(i as int), sep) == views(done@).push(cur@),
    {
        let c = s[i];
        assert(s@.take(i + 1).drop_last() == s@.take(i as int));
        if c == sep {
            let ghost old_done = done@;
            let ghost old_cur = cur@;
            done.push(cur);
            cur = Vec::new();
            assert(views(done@) == views(old_done).push(old_cur));
        } else {
            let ghost old_cur = cur@;
            cur.push(c);
            assert(views(done@).push(cur@) == views(done@).push(old_cur).update(
                done@.len() as int,
                old_cur.push(c),
            ));
        }
    }
    assert(s@.take(s.len() as int) == s@);
    let ghost old_done = done@;
    done.push(cur);
    assert(views(done@) == views(old_done).push(cur@));
    done
}

/// The whitespace-separated words of `s`.
pub fn words_of(s: &[char]) -> (w: Vec<Vec<char>>)
    ensures
        views(w@) == words(s@),
{
    let mut done: Vec<Vec<char>> = Vec::new();
    let mut cur: Vec<char> = Vec::new();
    assert(s@.take(0) == Seq::<char>::empty());
    for i in 0..s.len()
        invariant
            words(s@.take(i as int)) == views(done@) + (if cur@.len() > 0 {
                seq![cur@]
            } else {
                Seq::<Seq<char>>::empty()
            }),
            cur@.len() > 0 <==> (i > 0 && !is_ws(s@[i - 1])),
    {
        let c = s[i];
        let ghost t = s@.take(i + 1);
        assert(t.drop_last() == s@.take(i as int));
        assert(t.last() == c);
        if is_whitespace(c) {
            if cur.len() > 0 {
                let ghost old_done = done@;
                done.push(cur);
                assert(views(done@) == views(old_done).push(views(done@).last()));
                cur = Vec::new();
                assert(views(done@) + Seq::<Seq<char>>::empty() == views(done@));
            }
        } else {
            let ghost old_cur = cur@;
            let had_word = cur.len() > 0;
            cur.push(c);
            if had_word {
                assert(i >= 1 && t[t.len() - 2] == s@[i - 1]);
                assert(views(done@) + seq![cur@] == (views(done@) + seq![old_cur]).update(
                    views(done@).len() as int,
                    old_cur.push(c),
                ));
            } else {
                assert(i >= 1 ==> t[t.len() - 2] == s@[i - 1]);
                assert(cur@ == seq![c]);
                assert(views(done@) + seq![cur@] == (views(done@) + Seq::<Seq<char>>::empty()).push(
                    seq![c],
                ));
            }
        }
    }
    assert(s@.take(s.len() as int) == s@);
    if cur.len() > 0 {
        let ghost old_done = done@;
        done.push(cur);
        assert(views(done@) == views(old_done) + seq![views(done@).last()]);
    } else {
        assert(views(done@) + Seq::<Seq<char>>::empty() == views(done@));
    }
    done
}

/// `l` without the carriage return that ends it.
fn strip_cr_chars(l: &[char]) -> (v: Vec<char>)
    ensures
        v@ == strip_cr(l@),
{
    let n = l.len();
    if n > 0 && l[n - 1] == '\r' {
        slice_chars(l, 0, n - 1)
    } else {
        slice_chars(l, 0, n)
    }
}

/// The lines of `s`.
pub fn lines_of(s: &[char]) -> (ls: Vec<Vec<char>>)
    ensures
        views(ls@) == lines(s@),
{
    let parts = split_on(s, '\n');
    proof {
        lemma_split_len(s@, '\n');
    }
    let n = parts.len() - 1;
    let ghost p = split_char(s@, '\n');
    let mut out: Vec<Vec<char>> = Vec::new();
    for i in 0..n
        invariant
            n == parts.len() - 1,
            p == views(parts@),
            views(out@) == Seq::new(i as nat, |k: int| strip_cr(p[k])),
    {
        assert(p[i as int] == parts@[i as int]@);
        let l = strip_cr_chars(parts[i].as_slice());
        let ghost old_out = views(out@);
        out.push(l);
        assert(views(out@) =~= old_out.push(strip_cr(p[i as int])));
        assert(views(out@) =~= Seq::new((i + 1) as nat, |k: int| strip_cr(p[k])));
    }
    assert(p.len() == parts.len());
    assert(parts@[n as int]@ == p.last());
    if parts[n].len() > 0 {
        let l = slice_chars(parts[n].as_slice(), 0, parts[n].len());
        assert(l@ =~= p.last());
        let ghost old_out = views(out@);
        out.push(l);
        assert(views(out@) =~= old_out + seq![p.last()]);
    } else {
        assert(views(out@) == views(out@) + Seq::<Seq<char>>::empty());
    }
    out
}

/// Whether `s` begins with `t`.
pub fn starts_with_chars(s: &[char], t: &[char]) -> (r: bool)
    ensures
        r == starts_with(s@, t@),
{
    if t.len() > s.len() {
        return false;
    }
    for i in 0..t.len()
        invariant
            t.len() <= s.len(),
            s@.take(i as int) == t@.take(i as int),
    {
        if s[i] != t[i] {
            assert(s@.take(t.len() as int)[i as int] != t@[i as int]);
            return false;
        }
        assert(s@.take(i + 1) == s@.take(i as int).push(s@[i as int]));
        assert(t@.take(i + 1) == t@.take(i as int).push(t@[i as int]));
    }
    assert(t@.take(t.len() as int) == t@);
    true
}

/// Whether `t` occurs at position `i` of `s`.
fn occurs_at_chars(s: &[char], t: &[char], i: usize) -> (r: bool)
    ensures
        r == occurs_at(s@, t@, i as int),
{
    if i > s.len() || t.len() > s.len() - i {
        return false;
    }
    for k in 0..t.len()
        invariant
            i + t.len() <= s.len(),
            s@.subrange(i as int, i + k) == t@.take(k as int),
    {
        if s[i + k] != t[k] {
            assert(s@.subrange(i as int, i + t.len())[k as int] != t@[k as int]);
            return false;
        }
        assert(s@.subrange(i as int, i + k + 1) == s@.subrange(i as int, i + k).push(s@[i + k]));
        assert(t@.take(k + 1) == t@.take(k as int).push(t@[k as int]));
    }
    assert(t@.take(t.len() as int) == t@);
    true
}

/// Whether `t` occurs in `s`.
pub fn contains_chars(s: &[char], t: &[char]) -> (r: bool)
    ensures
        r == contains_seq(s@, t@),
{
    if t.len() > s.len() {
        return false;
    }
    let last = s.len() - t.len();
    let mut i: usize = 0;
    while i <= last
        invariant
            last == s.len() - t.len(),
            forall|j: int| 0 <= j < i ==> !occurs_at(s@, t@, j),
        decreases last + 1 - i,
    {
        if occurs_at_chars(s, t, i) {
            return true;
        }
        if i == last {
            return false;
        }
        i += 1;
    }
    false
}

/// `s` in ASCII lower case.
pub fn to_lower(s: &[char]) -> (v: Vec<char>)
    ensures
        v@ == lower(s@),
{
    let mut v: Vec<char> = Vec::new();
    for i in 0..s.len()
        invariant
            v@ == lower(s@.take(i as int)),
    {
        let c = s[i];
        let l = if 'A' <= c && c <= 'Z' {
            ((c as u8) + 32) as char
        } else {
            c
        };
        v.push(l);
        assert(lower(s@.take(i + 1)) == lower(s@.take(i as int)).push(ascii_lower(c)));
    }
    assert(s@.take(s.len() as int) == s@);
    v
}

/// `s` in ASCII upper case.
pub fn to_upper(s: &[char]) -> (v: Vec<char>)
    ensures
        v@ == upper(s@),
{
    let mut v: Vec<char> = Vec::new();
    for i in 0..s.len()
        invariant
            v@ == upper(s@.take(i as int)),
    {
        let c = s[i];
        let u = if 'a' <= c && c <= 'z' {
            ((c as u8) - 32) as char
        } else {
            c
        };
        v.push(u);
        assert(upper(s@.take(i + 1)) == upper(s@.take(i as int)).push(ascii_upper(c)));
    }
    assert(s@.take(s.len() as int) == s@);
    v
}

/// Whether two runs of characters are equal.
pub fn chars_eq(a: &[char], b: &[char]) -> (r: bool)
    ensures
        r == (a@ == b@),
{
    if a.len() != b.len() {
        return false;
    }
    for i in 0..a.len()
        invariant
            a.len() == b.len(),
            forall|k: int| 0 <= k < i ==> a@[k] == b@[k],
    {
        if a[i] != b[i] {
            return false;
        }
    }
    assert(a@ =~= b@);
    true
}

/// Whether two texts are equal.
pub fn text_eq(a: &str, b: &str) -> (r: bool)
    ensures
        r == (a@ == b@),
{
    let x = chars_of(a);
    let y = chars_of(b);
    chars_eq(x.as_slice(), y.as_slice())
}

/// Whether `c` is an ASCII digit.
pub fn is_ascii_digit(c: char) -> (r: bool)
    ensures
        r == is_digit(c),
{
    '0' <= c && c <= '9'
}

proof fn lemma_digits_value_prefix(s: Seq<char>, k: int)
    requires
        0 <= k <= s.len(),
        all_digits(s),
    ensures
        digits_value(s.take(k)) <= digits_value(s),
    decreases s.len(),
{
    if k < s.len() {
        assert(s.drop_last().take(k) == s.take(k));
        lemma_digits_value_prefix(s.drop_last(), k);
    } else {
        assert(s.take(k) == s);
    }
}

/// Parses an unsigned decimal number no greater than `max`, as `str::parse`
/// does for the unsigned type whose largest value is `max`.
pub fn parse_decimal(s: &[char], max: u64) -> (r: Option<u64>)
    ensures
        match r {
            Some(v) => parse_unsigned(s@, max as nat) == Some(v as nat),
            None => parse_unsigned(s@, max as nat) is None,
        },
{
    let n = s.len();
    let start: usize = if n > 0 && s[0] == '+' {
        1
    } else {
        0
    };
    let ghost d = if s@.len() > 0 && s@[0] == '+' {
        s@.drop_first()
    } else {
        s@
    };
    assert(d == s@.skip(start as int));
    if start == n {
        return None;
    }
    let mut acc: u128 = 0;
    let mut i = start;
    while i < n
        invariant
            start <= i <= n == s.len(),
            d == s@.skip(start as int),
            d == (if s@.len() > 0 && s@[0] == '+' {
                s@.drop_first()
            } else {
                s@
            }),
            all_digits(d.take(i - start)),
            acc == digits_value(d.take(i - start)),
            acc <= max,
        decreases n - i,
    {
        let c = s[i];
        if !is_ascii_digit(c) {
            assert(d[i - start] == c);
            assert(!all_digits(d));
            return None;
        }
        assert(d.take(i - start + 1).drop_last() == d.take(i - start));
        acc = acc * 10 + (c as u128 - 48);
        if acc > max as u128 {
            proof {
                if all_digits(d) {
                    lemma_digits_value_prefix(d, i - start + 1);
                    assert(digits_value(d) > max);
                }
            }
            return None;
        }
        i += 1;
    }
    assert(d.take(n - start) == d);
    Some(acc as u64)
}

/// Appends the decimal text of `n` to `out`.
pub fn push_decimal(out: &mut String, n: u64)
    ensures
        final(out)@ == old(out)@ + decimal(n as nat),
    decreases n,
{
    if n >= 10 {
        push_decimal(out, n / 10);
    }
    let d = (n % 10) as u8;
    let c = (48u8 + d) as char;
    out.push(c);
    proof {
        if n < 10 {
            assert(decimal(n as nat) == seq![digit_char(n as nat)]);
        }
    }
}

} // verus!
