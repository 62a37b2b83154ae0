//! The gateway's settings file: `KEY=value` lines over a fixed set of
//! defaults, and the checks that a new configuration must pass.
use vstd::prelude::*;
use vstd::string::*;
use crate::text::{
    chars_of, is_first_index, join, lines, lines_of, parse_decimal, parse_unsigned, push_str,
    slice_chars, split_once, string_of, to_upper, trim, trimmed, upper, views, split_char,
    strip_cr, text_eq, lemma_split_join, lemma_split_concat, lemma_trim_noop,
};

verus! {

/// Settings by name. No name occurs twice.
pub struct Config {
    entries: Vec<(String, String)>,
}

pub open spec fn entry_views(e: Seq<(String, String)>) -> Seq<(Seq<char>, Seq<char>)> {
    e.map_values(|p: (String, String)| (p.0@, p.1@))
}

pub open spec fn keys_distinct(e: Seq<(Seq<char>, Seq<char>)>) -> bool {
    forall|i: int, j: int| 0 <= i < e.len() && 0 <= j < e.len() && i != j ==> e[i].0 != e[j].0
}

/// The map that distinct-keyed entries stand for.
pub open spec fn entries_map(e: Seq<(Seq<char>, Seq<char>)>) -> Map<Seq<char>, Seq<char>> {
    Map::new(
        |k: Seq<char>| exists|i: int| 0 <= i < e.len() && e[i].0 == k,
        |k: Seq<char>| e[choose|i: int| 0 <= i < e.len() && e[i].0 == k].1,
    )
}

impl Config {
    #[verifier::type_invariant]
    spec fn inv(self) -> bool {
        keys_distinct(entry_views(self.entries@))
    }

    pub closed spec fn spec_map(self) -> Map<Seq<char>, Seq<char>> {
        entries_map(entry_views(self.entries@))
    }
}

impl View for Config {
    type V = Map<Seq<char>, Seq<char>>;

    open spec fn view(&self) -> Map<Seq<char>, Seq<char>> {
        self.spec_map()
    }
}

impl Config {
    /// A configuration with no settings.
    pub fn new() -> (c: Config)
        ensures
            c@ == Map::<Seq<char>, Seq<char>>::empty(),
    {
        let c = Config { entries: Vec::new() };
        assert(c@ =~= Map::<Seq<char>, Seq<char>>::empty());
        c
    }

    fn position(&self, key: &str) -> (r: Option<usize>)
        ensures
            match r {
                Some(i) => i < self.entries@.len() && self.entries@[i as int].0@ == key@,
                None => !self@.contains_key(key@),
            },
    {
        proof {
            use_type_invariant(self);
        }
        let ghost ev = entry_views(self.entries@);
        for i in 0..self.entries.len()
            invariant
                ev == entry_views(self.entries@),
                forall|j: int| 0 <= j < i ==> ev[j].0 != key@,
        {
            if text_eq(self.entries[i].0.as_str(), key) {
                return Some(i);
            }
        }
        assert(!self@.contains_key(key@)) by {
            if exists|i: int| 0 <= i < ev.len() && ev[i].0 == key@ {
                let i = choose|i: int| 0 <= i < ev.len() && ev[i].0 == key@;
                assert(ev[i].0 != key@);
            }
        }
        None
    }

    /// The value of `key`, when it is set.
    pub fn get(&self, key: &str) -> (r: Option<&String>)
        ensures
            match r {
                Some(v) => self@.contains_key(key@) && v@ == self@[key@],
                None => !self@.contains_key(key@),
            },
    {
        proof {
            use_type_invariant(self);
        }
        match self.position(key) {
            Some(i) => {
                let ghost ev = entry_views(self.entries@);
                proof {
                    assert(ev[i as int].0 == key@);
                    let j = choose|j: int| 0 <= j < ev.len() && ev[j].0 == key@;
                    assert(j == i as int);
                }
                Some(&self.entries[i].1)
            },
            None => None,
        }
    }

    /// Sets `key` to `value`.
    pub fn insert(&mut self, key: String, value: String)
        ensures
            final(self)@ == old(self)@.insert(key@, value@),
    {
        proof {
            use_type_invariant(&*self);
        }
        let ghost old_map = self@;
        let ghost ev = entry_views(self.entries@);
        match self.position(key.as_str()) {
            Some(i) => {
                let mut entries = Vec::new();
                std::mem::swap(&mut entries, &mut self.entries);
                entries.set(i, (key, value));
                let ghost nv = entry_views(entries@);
                assert(nv =~= ev.update(i as int, (ev[i as int].0, value@)));
                assert(keys_distinct(nv)) by {
                    assert forall|a: int, b: int| 0 <= a < nv.len() && 0 <= b < nv.len() && a != b implies nv[a].0 != nv[b].0 by {
                        assert(nv[a].0 == ev[a].0);
                        assert(nv[b].0 == ev[b].0);
                    }
                }
                self.entries = entries;
                assert(self@ =~= old_map.insert(key@, value@)) by {
                    assert forall|k: Seq<char>| #![auto] self@.contains_key(k) == old_map.insert(key@, value@).contains_key(k) by {
                        if exists|j: int| 0 <= j < nv.len() && nv[j].0 == k {
                            let j = choose|j: int| 0 <= j < nv.len() && nv[j].0 == k;
                            assert(ev[j].0 == k);
                        }
                        if exists|j: int| 0 <= j < ev.len() && ev[j].0 == k {
                            let j = choose|j: int| 0 <= j < ev.len() && ev[j].0 == k;
                            assert(nv[j].0 == k);
                        }
                    }
                    assert forall|k: Seq<char>| #![auto] self@.contains_key(k) implies self@[k] == old_map.insert(key@, value@)[k] by {
                        let j = choose|j: int| 0 <= j < nv.len() && nv[j].0 == k;
                        if k == key@ {
                            assert(j == i as int);
                        } else {
                            let jo = choose|jo: int| 0 <= jo < ev.len() && ev[jo].0 == k;
                            assert(ev[j].0 == k);
                            assert(jo == j);
                        }
                    }
                }
            },
            None => {
                let ghost kv = key@;
                let ghost vv = value@;
                let mut entries = Vec::new();
                std::mem::swap(&mut entries, &mut self.entries);
                entries.push((key, value));
                let ghost nv = entry_views(entries@);
                assert(nv =~= ev.push((kv, vv)));
                assert(!exists|j: int| 0 <= j < ev.len() && ev[j].0 == kv);
                assert(keys_distinct(nv)) by {
                    assert forall|a: int, b: int| 0 <= a < nv.len() && 0 <= b < nv.len() && a != b implies nv[a].0 != nv[b].0 by {
                        if a < ev.len() && b < ev.len() {
                            assert(nv[a].0 == ev[a].0);
                            assert(nv[b].0 == ev[b].0);
                        } else if a < ev.len() {
                            assert(nv[a].0 == ev[a].0);
                        } else {
                            assert(nv[b].0 == ev[b].0);
                        }
                    }
                }
                self.entries = entries;
                assert(!exists|j: int| 0 <= j < ev.len() && ev[j].0 == kv);
                assert(self@ =~= old_map.insert(kv, vv)) by {
                    assert forall|k: Seq<char>| #![auto] self@.contains_key(k) == old_map.insert(kv, vv).contains_key(k) by {
                        if exists|j: int| 0 <= j < ev.len() && ev[j].0 == k {
                            let j = choose|j: int| 0 <= j < ev.len() && ev[j].0 == k;
                            assert(nv[j].0 == k);
                        }
                        if k == kv {
                            assert(nv[ev.len() as int].0 == k);
                        }
                    }
                    assert forall|k: Seq<char>| #![auto] self@.contains_key(k) implies self@[k] == old_map.insert(kv, vv)[k] by {
                        let j = choose|j: int| 0 <= j < nv.len() && nv[j].0 == k;
                        if k == kv {
                            assert(j == ev.len() as int);
                        } else {
                            let jo = choose|jo: int| 0 <= jo < ev.len() && ev[jo].0 == k;
                            assert(j < ev.len());
                            assert(jo == j);
                        }
                    }
                }
            },
        }
    }
}

/// The settings that the gateway knows, in file order, with their defaults.
pub open spec fn default_entries() -> Seq<(Seq<char>, Seq<char>)> {
    seq![
        ("SOCKS5_ADDR"@, ""@),
        ("SOCKS5_PORT"@, "8228"@),
        ("DOWNSTREAM_IF"@, ""@),
        ("DOWNSTREAM_MODE"@, "wifi"@),
        ("DOWNSTREAM_ADDR"@, "10.77.0.1/24"@),
        ("DOWNSTREAM_SUBNET"@, "10.77.0.0/24"@),
        ("TUN_MTU"@, "1400"@),
        ("CLIENT_MTU"@, "1400"@),
        ("DHCP_START"@, "10.77.0.20"@),
        ("DHCP_END"@, "10.77.0.200"@),
        ("DHCP_LEASE"@, "12h"@),
        ("DNS_SERVERS"@, "1.1.1.1,9.9.9.9"@),
        ("WIFI_SSID"@, "MicroModem"@),
        ("WIFI_PASSPHRASE"@, ""@),
        ("WIFI_CHANNEL"@, "6"@),
        ("WIFI_COUNTRY"@, "US"@),
        ("SOCKS5_UDP_MODE"@, "udp"@),
        ("SOCKS5_USERNAME"@, ""@),
        ("SOCKS5_PASSWORD"@, ""@),
        ("LOG_LEVEL"@, "info"@),
    ]
}

/// The setting names, in file order.
pub open spec fn default_keys() -> Seq<Seq<char>> {
    default_entries().map_values(|p: (Seq<char>, Seq<char>)| p.0)
}

/// `m` with the entries set in order.
pub open spec fn insert_all(
    m: Map<Seq<char>, Seq<char>>,
    e: Seq<(Seq<char>, Seq<char>)>,
) -> Map<Seq<char>, Seq<char>>
    decreases e.len(),
{
    if e.len() == 0 {
        m
    } else {
        insert_all(m, e.drop_last()).insert(e.last().0, e.last().1)
    }
}

/// Every setting at its default.
pub open spec fn default_config() -> Map<Seq<char>, Seq<char>> {
    insert_all(Map::empty(), default_entries())
}

/// The default settings as text pairs.
pub fn default_entry_list() -> (v: Vec<(&'static str, &'static str)>)
    ensures
        v@.map_values(|p: (&str, &str)| (p.0@, p.1@)) == default_entries(),
{
    let v = vec![
        ("SOCKS5_ADDR", ""),
        ("SOCKS5_PORT", "8228"),
        ("DOWNSTREAM_IF", ""),
        ("DOWNSTREAM_MODE", "wifi"),
        ("DOWNSTREAM_ADDR", "10.77.0.1/24"),
        ("DOWNSTREAM_SUBNET", "10.77.0.0/24"),
        ("TUN_MTU", "1400"),
        ("CLIENT_MTU", "1400"),
        ("DHCP_START", "10.77.0.20"),
        ("DHCP_END", "10.77.0.200"),
        ("DHCP_LEASE", "12h"),
        ("DNS_SERVERS", "1.1.1.1,9.9.9.9"),
        ("WIFI_SSID", "MicroModem"),
        ("WIFI_PASSPHRASE", ""),
        ("WIFI_CHANNEL", "6"),
        ("WIFI_COUNTRY", "US"),
        ("SOCKS5_UDP_MODE", "udp"),
        ("SOCKS5_USERNAME", ""),
        ("SOCKS5_PASSWORD", ""),
        ("LOG_LEVEL", "info"),
    ];
    assert(v@.map_values(|p: (&str, &str)| (p.0@, p.1@)) =~= default_entries());
    v
}

impl Config {
    /// Every setting at its default.
    pub fn defaults() -> (c: Config)
        ensures
            c@ == default_config(),
    {
        let list = default_entry_list();
        let ghost lv = list@.map_values(|p: (&str, &str)| (p.0@, p.1@));
        let mut c = Config::new();
        assert(lv.take(0) == Seq::<(Seq<char>, Seq<char>)>::empty());
        for i in 0..list.len()
            invariant
                lv == list@.map_values(|p: (&str, &str)| (p.0@, p.1@)),
                c@ == insert_all(Map::empty(), lv.take(i as int)),
        {
            assert(lv.take(i + 1).drop_last() == lv.take(i as int));
            assert(lv.take(i + 1).last() == lv[i as int]);
            let (k, v) = list[i];
            c.insert(String::from_str(k), String::from_str(v));
        }
        assert(lv.take(list.len() as int) == lv);
        c
    }
}

/// A value without one pair of matching single or double quotes around it.
pub open spec fn unquote(v: Seq<char>) -> Seq<char> {
    if v.len() >= 2 && ((v[0] == '\'' && v.last() == '\'') || (v[0] == '"' && v.last() == '"')) {
        v.subrange(1, v.len() - 1)
    } else {
        v
    }
}

/// What one line of the settings file does: blank lines and `#` comments
/// nothing; `KEY=value` sets the trimmed key to the trimmed, unquoted value.
pub open spec fn apply_line(m: Map<Seq<char>, Seq<char>>, line: Seq<char>) -> Map<
    Seq<char>,
    Seq<char>,
> {
    let t = trim(line);
    if t.len() == 0 || t[0] == '#' {
        m
    } else {
        match split_once(t, '=') {
            Some((k, v)) => m.insert(trim(k), unquote(trim(v))),
            None => m,
        }
    }
}

/// The lines applied in order.
pub open spec fn apply_lines(m: Map<Seq<char>, Seq<char>>, ls: Seq<Seq<char>>) -> Map<
    Seq<char>,
    Seq<char>,
>
    decreases ls.len(),
{
    if ls.len() == 0 {
        m
    } else {
        apply_line(apply_lines(m, ls.drop_last()), ls.last())
    }
}

/// The settings: the defaults, overridden by the file's lines when the file
/// could be read.
pub open spec fn parse_config_spec(contents: Option<Seq<char>>) -> Map<Seq<char>, Seq<char>> {
    match contents {
        None => default_config(),
        Some(c) => apply_lines(default_config(), lines(c)),
    }
}

fn split_once_chars(s: &[char], c: char) -> (r: Option<(Vec<char>, Vec<char>)>)
    ensures
        match r {
            Some((a, b)) => split_once(s@, c) == Some((a@, b@)),
            None => split_once(s@, c) is None,
        },
{
    let n = s.len();
    for i in 0..n
        invariant
            n == s.len(),
            forall|j: int| 0 <= j < i ==> s@[j] != c,
    {
        if s[i] == c {
            assert(is_first_index(s@, c, i as int));
            proof {
                let kk = choose|kk: int| is_first_index(s@, c, kk);
                if kk < i {
                    assert(s@[kk] != c);
                } else if kk > i {
                    assert(s@[i as int] != c);
                }
            }
            let a = slice_chars(s, 0, i);
            let b = slice_chars(s, i + 1, n);
            assert(a@ =~= s@.take(i as int));
            assert(b@ =~= s@.skip(i + 1));
            return Some((a, b));
        }
    }
    assert(!exists|kk: int| is_first_index(s@, c, kk)) by {
        if exists|kk: int| is_first_index(s@, c, kk) {
            let kk = choose|kk: int| is_first_index(s@, c, kk);
            assert(s@[kk] != c);
        }
    }
    None
}

fn unquote_chars(v: &[char]) -> (r: Vec<char>)
    ensures
        r@ == unquote(v@),
{
    let n = v.len();
    if n >= 2 && ((v[0] == '\'' && v[n - 1] == '\'') || (v[0] == '"' && v[n - 1] == '"')) {
        slice_chars(v, 1, n - 1)
    } else {
        let r = slice_chars(v, 0, n);
        assert(r@ =~= v@);
        r
    }
}

fn apply_line_exec(values: &mut Config, line: &[char])
    ensures
        final(values)@ == apply_line(old(values)@, line@),
{
    let t = trimmed(line);
    if t.len() == 0 || t[0] == '#' {
        return;
    }
    match split_once_chars(t.as_slice(), '=') {
        Some((k, v)) => {
            let key = trimmed(k.as_slice());
            let val = unquote_chars(trimmed(v.as_slice()).as_slice());
            values.insert(crate::text::string_of(key.as_slice()), crate::text::string_of(val.as_slice()));
        },
        None => {},
    }
}

pub open spec fn opt_text(o: Option<&str>) -> Option<Seq<char>> {
    match o {
        Some(t) => Some(t@),
        None => None,
    }
}

/// The settings from the text of the settings file, or the defaults when it
/// could not be read (`None`).
pub fn parse_config(contents: Option<&str>) -> (c: Config)
    ensures
        c@ == parse_config_spec(opt_text(contents)),
{
    let mut values = Config::defaults();
    if let Some(text) = contents {
        let chars = chars_of(text);
        let ls = lines_of(chars.as_slice());
        let ghost lv = views(ls@);
        assert(lv.take(0) == Seq::<Seq<char>>::empty());
        for i in 0..ls.len()
            invariant
                lv == views(ls@),
                values@ == apply_lines(default_config(), lv.take(i as int)),
        {
            assert(lv.take(i + 1).drop_last() == lv.take(i as int));
            assert(lv.take(i + 1).last() == ls@[i as int]@);
            apply_line_exec(&mut values, ls[i].as_slice());
        }
        assert(lv.take(ls.len() as int) == lv);
    }
    values
}

/// `PathBuf::join(".env")` on the gateway directory: a `/` is put between
/// unless the directory is empty or already ends with one.
pub open spec fn config_path_spec(dir: Seq<char>) -> Seq<char> {
    if dir.len() == 0 || dir.last() == '/' {
        dir + seq!['.', 'e', 'n', 'v']
    } else {
        dir + seq!['/', '.', 'e', 'n', 'v']
    }
}

/// Where the settings file is, given the gateway directory.
pub fn config_path(gateway_dir: &str) -> (p: String)
    ensures
        p@ == config_path_spec(gateway_dir@),
{
    let d = chars_of(gateway_dir);
    let mut p = crate::text::string_of(d.as_slice());
    if !(d.len() == 0 || d[d.len() - 1] == '/') {
        p.push('/');
    }
    p.push('.');
    p.push('e');
    p.push('n');
    p.push('v');
    p
}

/// A character that a setting written in single quotes cannot hold safely.
pub open spec fn is_unsafe_char(c: char) -> bool {
    c == '\n' || c == '\r' || c == '\'' || c == '\0'
}

pub open spec fn has_unsafe_char(v: Seq<char>) -> bool {
    exists|i: int| 0 <= i < v.len() && is_unsafe_char(v[i])
}

/// Rejects a value that holds a line break, a quote or a NUL.
pub fn safe_value(name: &str, value: &str) -> (r: Result<(), String>)
    ensures
        match r {
            Ok(()) => !has_unsafe_char(value@),
            Err(e) => has_unsafe_char(value@) && e@ == name@ + " contains an unsupported character"@,
        },
{
    let v = chars_of(value);
    for i in 0..v.len()
        invariant
            v@ == value@,
            forall|j: int| 0 <= j < i ==> !is_unsafe_char(v@[j]),
    {
        let c = v[i];
        if c == '\n' || c == '\r' || c == '\'' || c == '\0' {
            let mut e = String::from_str(name);
            e.append(" contains an unsupported character");
            return Err(e);
        }
    }
    Ok(())
}

/// What a command's output comes to: its trimmed standard output and
/// standard error, on two lines when both have text, or a note when neither
/// has; `Ok` when the command succeeded.
pub open spec fn output_text_spec(stdout: Seq<char>, stderr: Seq<char>, success: bool) -> Result<
    Seq<char>,
    Seq<char>,
> {
    let o = trim(stdout);
    let e = trim(stderr);
    let message = if o.len() > 0 && e.len() > 0 {
        o + seq!['\n'] + e
    } else if o.len() > 0 {
        o
    } else if e.len() > 0 {
        e
    } else {
        "Command completed."@
    };
    if success {
        Ok(message)
    } else {
        Err(message)
    }
}

/// The message of a finished command, from its output read as text.
pub fn output_text(stdout: &str, stderr: &str, success: bool) -> (r: Result<String, String>)
    ensures
        match (r, output_text_spec(stdout@, stderr@, success)) {
            (Ok(a), Ok(b)) => a@ == b,
            (Err(a), Err(b)) => a@ == b,
            _ => false,
        },
{
    let o = trimmed(chars_of(stdout).as_slice());
    let e = trimmed(chars_of(stderr).as_slice());
    let message = if o.len() > 0 && e.len() > 0 {
        let mut m = string_of(o.as_slice());
        m.push('\n');
        crate::text::push_chars(&mut m, e.as_slice());
        m
    } else if o.len() > 0 {
        string_of(o.as_slice())
    } else if e.len() > 0 {
        string_of(e.as_slice())
    } else {
        String::from_str("Command completed.")
    };
    if success {
        Ok(message)
    } else {
        Err(message)
    }
}

/// What the gateway script can be asked to do.
#[derive(Clone, Copy, Debug, PartialEq, Eq, Structural)]
pub enum GatewayAction {
    Start,
    Stop,
    Restart,
}

pub open spec fn action_name(a: GatewayAction) -> Seq<char> {
    match a {
        GatewayAction::Start => "start"@,
        GatewayAction::Stop => "stop"@,
        GatewayAction::Restart => "restart"@,
    }
}

impl GatewayAction {
    /// The word the gateway script takes.
    pub fn as_str(&self) -> (s: &'static str)
        ensures
            s@ == action_name(*self),
    {
        match self {
            GatewayAction::Start => "start",
            GatewayAction::Stop => "stop",
            GatewayAction::Restart => "restart",
        }
    }
}

/// Reads a gateway action: `start`, `stop` or `restart`.
pub fn gateway_action(action: String) -> (r: Result<GatewayAction, String>)
    ensures
        match r {
            Ok(a) => action@ == action_name(a),
            Err(e) => action@ != "start"@ && action@ != "stop"@ && action@ != "restart"@ && e@
                == "Unsupported gateway action"@,
        },
{
    if text_eq(action.as_str(), "start") {
        Ok(GatewayAction::Start)
    } else if text_eq(action.as_str(), "stop") {
        Ok(GatewayAction::Stop)
    } else if text_eq(action.as_str(), "restart") {
        Ok(GatewayAction::Restart)
    } else {
        Err(String::from_str("Unsupported gateway action"))
    }
}

/// What `docker logs` printed for one container.
pub struct LogOutput {
    pub container: String,
    pub stdout: String,
    pub stderr: String,
}

/// The containers whose logs the dashboard shows, in order.
pub open spec fn log_container_names() -> Seq<Seq<char>> {
    seq!["micromodem-tunnel"@, "micromodem-downstream"@]
}

pub fn log_containers() -> (v: Vec<&'static str>)
    ensures
        v@.map_values(|s: &str| s@) == log_container_names(),
{
    let v = vec!["micromodem-tunnel", "micromodem-downstream"];
    assert(v@.map_values(|s: &str| s@) =~= log_container_names());
    v
}

/// One container's section of the logs: a header, then its standard output
/// and standard error, then a line break.
pub open spec fn log_section(o: (Seq<char>, Seq<char>, Seq<char>)) -> Seq<char> {
    "== "@ + o.0 + " ==\n"@ + o.1 + o.2 + seq!['\n']
}

pub open spec fn log_sections(v: Seq<(Seq<char>, Seq<char>, Seq<char>)>) -> Seq<char>
    decreases v.len(),
{
    if v.len() == 0 {
        Seq::empty()
    } else {
        log_sections(v.drop_last()) + log_section(v.last())
    }
}

pub open spec fn log_views(v: Seq<LogOutput>) -> Seq<(Seq<char>, Seq<char>, Seq<char>)> {
    v.map_values(|o: LogOutput| (o.container@, o.stdout@, o.stderr@))
}

/// The logs of the containers, section by section.
pub fn gateway_logs(outputs: &[LogOutput]) -> (r: String)
    ensures
        r@ == log_sections(log_views(outputs@)),
{
    let mut r = String::new();
    let ghost lv = log_views(outputs@);
    assert(lv.take(0) == Seq::<(Seq<char>, Seq<char>, Seq<char>)>::empty());
    for i in 0..outputs.len()
        invariant
            lv == log_views(outputs@),
            r@ == log_sections(lv.take(i as int)),
    {
        assert(lv.take(i + 1).drop_last() == lv.take(i as int));
        assert(lv.take(i + 1).last() == lv[i as int]);
        let ghost before = r@;
        push_str(&mut r, "== ");
        push_str(&mut r, outputs[i].container.as_str());
        push_str(&mut r, " ==\n");
        push_str(&mut r, outputs[i].stdout.as_str());
        push_str(&mut r, outputs[i].stderr.as_str());
        r.push('\n');
        assert(r@ =~= before + log_section(lv[i as int]));
    }
    assert(lv.take(outputs.len() as int) == lv);
    r
}

/// The value of a setting, or nothing when it is unset.
pub open spec fn get_or_empty(m: Map<Seq<char>, Seq<char>>, k: Seq<char>) -> Seq<char> {
    if m.contains_key(k) {
        m[k]
    } else {
        Seq::empty()
    }
}

/// The line that writes one setting: `KEY='value'`.
pub open spec fn config_line(m: Map<Seq<char>, Seq<char>>, k: Seq<char>) -> Seq<char> {
    k + seq!['=', '\''] + get_or_empty(m, k) + seq!['\'']
}

/// The settings file: a line for each known setting, in order.
pub open spec fn render_config(m: Map<Seq<char>, Seq<char>>) -> Seq<char> {
    join(default_keys().map_values(|k: Seq<char>| config_line(m, k)), seq!['\n']) + seq!['\n']
}

/// The text of the settings file for `values`.
pub fn render_config_file(values: &Config) -> (r: String)
    ensures
        r@ == render_config(values@),
{
    let list = default_entry_list();
    let ghost keys = default_keys();
    let ghost ls = keys.map_values(|k: Seq<char>| config_line(values@, k));
    let mut r = String::new();
    assert(ls.take(0) == Seq::<Seq<char>>::empty());
    for i in 0..list.len()
        invariant
            list@.map_values(|p: (&str, &str)| (p.0@, p.1@)) == default_entries(),
            keys == default_keys(),
            ls == keys.map_values(|k: Seq<char>| config_line(values@, k)),
            r@ == join(ls.take(i as int), seq!['\n']),
    {
        let key = list[i].0;
        assert(key@ == keys[i as int]);
        assert(ls.take(i + 1).drop_last() == ls.take(i as int));
        assert(ls.take(i + 1).last() == ls[i as int]);
        let ghost before = r@;
        if i > 0 {
            r.push('\n');
        }
        let ghost after_sep = r@;
        push_str(&mut r, key);
        r.push('=');
        r.push('\'');
        match values.get(key) {
            Some(v) => push_str(&mut r, v.as_str()),
            None => {},
        }
        r.push('\'');
        assert(r@ =~= after_sep + config_line(values@, key@));
        if i == 0 {
            assert(ls.take(1)[0] == ls[0]);
        }
    }
    assert(ls.take(list.len() as int) == ls);
    r.push('\n');
    r
}

/// The number of bytes that `c` takes in UTF-8.
pub open spec fn utf8_width(c: char) -> nat {
    if (c as u32) < 0x80 {
        1
    } else if (c as u32) < 0x800 {
        2
    } else if (c as u32) < 0x10000 {
        3
    } else {
        4
    }
}

/// The length in bytes of `s` in UTF-8, as `str::len` counts.
pub open spec fn utf8_len(s: Seq<char>) -> nat
    decreases s.len(),
{
    if s.len() == 0 {
        0
    } else {
        utf8_len(s.drop_last()) + utf8_width(s.last())
    }
}

proof fn lemma_utf8_len_prefix(s: Seq<char>, k: int)
    requires
        0 <= k <= s.len(),
    ensures
        utf8_len(s.take(k)) <= utf8_len(s),
    decreases s.len(),
{
    if k < s.len() {
        assert(s.drop_last().take(k) == s.take(k));
        lemma_utf8_len_prefix(s.drop_last(), k);
    } else {
        assert(s.take(k) == s);
    }
}

/// The UTF-8 length of `s`, or any value above `cap` when it exceeds `cap`.
fn utf8_len_capped(s: &str, cap: u64) -> (r: u64)
    requires
        cap < 0x1_0000_0000,
    ensures
        r <= cap ==> r == utf8_len(s@),
        r > cap ==> utf8_len(s@) > cap,
{
    let v = chars_of(s);
    let mut total: u64 = 0;
    for i in 0..v.len()
        invariant
            v@ == s@,
            cap < 0x1_0000_0000,
            total <= cap,
            total == utf8_len(v@.take(i as int)),
    {
        let c = v[i];
        let w: u64 = if (c as u32) < 0x80 {
            1
        } else if (c as u32) < 0x800 {
            2
        } else if (c as u32) < 0x10000 {
            3
        } else {
            4
        };
        assert(v@.take(i + 1).drop_last() == v@.take(i as int));
        total = total + w;
        if total > cap {
            proof {
                lemma_utf8_len_prefix(v@, i + 1);
            }
            return total;
        }
    }
    assert(v@.take(v.len() as int) == v@);
    total
}

/// A character allowed in an interface name.
pub open spec fn is_interface_char(c: char) -> bool {
    ||| ('a' <= c && c <= 'z')
    ||| ('A' <= c && c <= 'Z')
    ||| ('0' <= c && c <= '9')
    ||| c == '_'
    ||| c == '.'
    ||| c == ':'
    ||| c == '-'
}

pub open spec fn is_ascii_alpha(c: char) -> bool {
    ('a' <= c && c <= 'z') || ('A' <= c && c <= 'Z')
}

pub open spec fn all_chars(s: Seq<char>, p: spec_fn(char) -> bool) -> bool {
    forall|i: int| 0 <= i < s.len() ==> p(s[i])
}

/// Whether std's `IpAddr` parser reads `s` as an IPv4 or IPv6 address.
pub uninterp spec fn ip_addr_text(s: Seq<char>) -> bool;

/// `<core::net::IpAddr as FromStr>::from_str`, as `str::parse` calls it: the
/// result tells whether it succeeded, which depends on the text alone. What
/// text it accepts (IPv4 dotted decimal, IPv6 with `::` and an embedded IPv4
/// tail) is left to that name.
#[verifier::external_body]
fn parses_as_ip_addr(s: &str) -> (r: bool)
    ensures
        r == ip_addr_text(s@),
{
    s.parse::<core::net::IpAddr>().is_ok()
}

/// The first check that the new settings fail, with its message.
pub open spec fn settings_error(
    socks5_addr: Seq<char>,
    socks5_port: Seq<char>,
    downstream_if: Seq<char>,
    downstream_mode: Seq<char>,
    wifi_ssid: Seq<char>,
    wifi_passphrase: Seq<char>,
    wifi_channel: Seq<char>,
    wifi_country: Seq<char>,
) -> Option<Seq<char>> {
    settings_check(
        ip_addr_text(socks5_addr),
        socks5_addr,
        socks5_port,
        downstream_if,
        downstream_mode,
        wifi_ssid,
        wifi_passphrase,
        wifi_channel,
        wifi_country,
    )
}

/// The first check that the new settings fail, with its message, where
/// `address_is_ip` tells whether the proxy address reads as an IP address.
pub open spec fn settings_check(
    address_is_ip: bool,
    socks5_addr: Seq<char>,
    socks5_port: Seq<char>,
    downstream_if: Seq<char>,
    downstream_mode: Seq<char>,
    wifi_ssid: Seq<char>,
    wifi_passphrase: Seq<char>,
    wifi_channel: Seq<char>,
    wifi_country: Seq<char>,
) -> Option<Seq<char>> {
    if !address_is_ip {
        Some("Proxy address must be an IPv4 or IPv6 address"@)
    } else if (match parse_unsigned(socks5_port, 65535) {
        Some(p) => p == 0,
        None => true,
    }) {
        Some("Proxy port must be between 1 and 65535"@)
    } else if downstream_if.len() == 0 || !all_chars(downstream_if, |c: char| is_interface_char(c)) {
        Some("Downstream interface is invalid"@)
    } else if downstream_mode != "ethernet"@ && downstream_mode != "wifi"@ {
        Some("Downstream mode must be ethernet or wifi"@)
    } else if downstream_mode == "wifi"@ && !(8 <= utf8_len(wifi_passphrase) <= 63) {
        Some("Wi-Fi password must contain 8 to 63 characters"@)
    } else if (match parse_unsigned(wifi_channel, 255) {
        Some(c) => c == 0 || c > 196,
        None => true,
    }) {
        Some("Wi-Fi channel is invalid"@)
    } else if utf8_len(wifi_country) != 2 || !all_chars(wifi_country, |c: char| is_ascii_alpha(c)) {
        Some("Country must be a two-letter code"@)
    } else if has_unsafe_char(socks5_addr) {
        Some("proxy address"@ + " contains an unsupported character"@)
    } else if has_unsafe_char(downstream_if) {
        Some("interface"@ + " contains an unsupported character"@)
    } else if has_unsafe_char(wifi_ssid) {
        Some("SSID"@ + " contains an unsupported character"@)
    } else if has_unsafe_char(wifi_passphrase) {
        Some("Wi-Fi password"@ + " contains an unsupported character"@)
    } else {
        None
    }
}

/// Law: the Wi-Fi channel check accepts exactly the channels 1 to 196, the
/// 2.4 GHz and 5 GHz channels alike. Any two such channels fare the same
/// with every other setting held fixed; any other text (one that does not
/// read as a number up to 255, or reads as 0 or above 196) fails the
/// settings, and fails them on the channel where the rest would pass.
pub proof fn lemma_channel_range(
    address_is_ip: bool,
    socks5_addr: Seq<char>,
    socks5_port: Seq<char>,
    downstream_if: Seq<char>,
    downstream_mode: Seq<char>,
    wifi_ssid: Seq<char>,
    wifi_passphrase: Seq<char>,
    good_channel: Seq<char>,
    other_channel: Seq<char>,
    wifi_country: Seq<char>,
)
    requires
        (parse_unsigned(good_channel, 255) matches Some(c) && 1 <= c <= 196),
    ensures
        ({
            let check = |ch: Seq<char>|
                settings_check(
                    address_is_ip,
                    socks5_addr,
                    socks5_port,
                    downstream_if,
                    downstream_mode,
                    wifi_ssid,
                    wifi_passphrase,
                    ch,
                    wifi_country,
                );
            let other_ok = (parse_unsigned(other_channel, 255) matches Some(c) && 1 <= c <= 196);
            &&& other_ok ==> check(other_channel) == check(good_channel)
            &&& !other_ok ==> check(other_channel) is Some
            &&& (!other_ok && check(good_channel) is None) ==> check(other_channel) == Some(
                "Wi-Fi channel is invalid"@,
            )
        }),
{
}

/// The settings with the new values in place (the country in upper case).
pub open spec fn saved_settings(
    existing: Map<Seq<char>, Seq<char>>,
    socks5_addr: Seq<char>,
    socks5_port: Seq<char>,
    downstream_if: Seq<char>,
    downstream_mode: Seq<char>,
    wifi_ssid: Seq<char>,
    wifi_passphrase: Seq<char>,
    wifi_channel: Seq<char>,
    wifi_country: Seq<char>,
) -> Map<Seq<char>, Seq<char>> {
    existing.insert("SOCKS5_ADDR"@, socks5_addr).insert("SOCKS5_PORT"@, socks5_port).insert(
        "DOWNSTREAM_IF"@,
        downstream_if,
    ).insert("DOWNSTREAM_MODE"@, downstream_mode).insert("WIFI_SSID"@, wifi_ssid).insert(
        "WIFI_PASSPHRASE"@,
        wifi_passphrase,
    ).insert("WIFI_CHANNEL"@, wifi_channel).insert("WIFI_COUNTRY"@, upper(wifi_country))
}

fn all_interface_chars(s: &str) -> (r: bool)
    ensures
        r == all_chars(s@, |c: char| is_interface_char(c)),
{
    let v = chars_of(s);
    for i in 0..v.len()
        invariant
            v@ == s@,
            forall|j: int| 0 <= j < i ==> is_interface_char(v@[j]),
    {
        let c = v[i];
        if !(('a' <= c && c <= 'z') || ('A' <= c && c <= 'Z') || ('0' <= c && c <= '9') || c == '_'
            || c == '.' || c == ':' || c == '-') {
            return false;
        }
    }
    true
}

fn all_alpha_chars(s: &str) -> (r: bool)
    ensures
        r == all_chars(s@, |c: char| is_ascii_alpha(c)),
{
    let v = chars_of(s);
    for i in 0..v.len()
        invariant
            v@ == s@,
            forall|j: int| 0 <= j < i ==> is_ascii_alpha(v@[j]),
    {
        let c = v[i];
        if !(('a' <= c && c <= 'z') || ('A' <= c && c <= 'Z')) {
            return false;
        }
    }
    true
}

/// Checks new gateway settings and gives the text of the settings file with
/// them in place of `existing`'s, or the message of the first check they
/// fail. The proxy address must read as an IPv4 or IPv6 address.
pub fn save_gateway_config(
    socks5_addr: String,
    socks5_port: String,
    downstream_if: String,
    downstream_mode: String,
    wifi_ssid: String,
    wifi_passphrase: String,
    wifi_channel: String,
    wifi_country: String,
    existing: Config,
) -> (r: Result<String, String>)
    ensures
        match settings_error(
            socks5_addr@,
            socks5_port@,
            downstream_if@,
            downstream_mode@,
            wifi_ssid@,
            wifi_passphrase@,
            wifi_channel@,
            wifi_country@,
        ) {
            Some(e) => r matches Err(m) && m@ == e,
            None => r matches Ok(text) && text@ == render_config(
                saved_settings(
                    existing@,
                    socks5_addr@,
                    socks5_port@,
                    downstream_if@,
                    downstream_mode@,
                    wifi_ssid@,
                    wifi_passphrase@,
                    wifi_channel@,
                    wifi_country@,
                ),
            ),
        },
{
    let address_is_ip = parses_as_ip_addr(socks5_addr.as_str());
    checked_config_text(
        address_is_ip,
        socks5_addr,
        socks5_port,
        downstream_if,
        downstream_mode,
        wifi_ssid,
        wifi_passphrase,
        wifi_channel,
        wifi_country,
        existing,
    )
}

/// Checks new gateway settings, `address_is_ip` telling whether the proxy
/// address reads as an IPv4 or IPv6 address, and gives the text of the
/// settings file with them in place of `existing`'s, or the message of the
/// first check they fail.
pub fn checked_config_text(
    address_is_ip: bool,
    socks5_addr: String,
    socks5_port: String,
    downstream_if: String,
    downstream_mode: String,
    wifi_ssid: String,
    wifi_passphrase: String,
    wifi_channel: String,
    wifi_country: String,
    existing: Config,
) -> (r: Result<String, String>)
    ensures
        match settings_check(
            address_is_ip,
            socks5_addr@,
            socks5_port@,
            downstream_if@,
            downstream_mode@,
            wifi_ssid@,
            wifi_passphrase@,
            wifi_channel@,
            wifi_country@,
        ) {
            Some(e) => r matches Err(m) && m@ == e,
            None => r matches Ok(text) && text@ == render_config(
                saved_settings(
                    existing@,
                    socks5_addr@,
                    socks5_port@,
                    downstream_if@,
                    downstream_mode@,
                    wifi_ssid@,
                    wifi_passphrase@,
                    wifi_channel@,
                    wifi_country@,
                ),
            ),
        },
{
    if !address_is_ip {
        return Err(String::from_str("Proxy address must be an IPv4 or IPv6 address"));
    }
    match parse_decimal(chars_of(socks5_port.as_str()).as_slice(), 65535) {
        Some(p) => {
            if p == 0 {
                return Err(String::from_str("Proxy port must be between 1 and 65535"));
            }
        },
        None => {
            return Err(String::from_str("Proxy port must be between 1 and 65535"));
        },
    }
    if downstream_if.as_str().is_empty() || !all_interface_chars(downstream_if.as_str()) {
        return Err(String::from_str("Downstream interface is invalid"));
    }
    let is_ethernet = text_eq(downstream_mode.as_str(), "ethernet");
    let is_wifi = text_eq(downstream_mode.as_str(), "wifi");
    if !is_ethernet && !is_wifi {
        return Err(String::from_str("Downstream mode must be ethernet or wifi"));
    }
    if is_wifi {
        let n = utf8_len_capped(wifi_passphrase.as_str(), 64);
        if !(8 <= n && n <= 63) {
            return Err(String::from_str("Wi-Fi password must contain 8 to 63 characters"));
        }
    }
    match parse_decimal(chars_of(wifi_channel.as_str()).as_slice(), 255) {
        Some(c) => {
            if c == 0 || c > 196 {
                return Err(String::from_str("Wi-Fi channel is invalid"));
            }
        },
        None => {
            return Err(String::from_str("Wi-Fi channel is invalid"));
        },
    }
    if utf8_len_capped(wifi_country.as_str(), 3) != 2 || !all_alpha_chars(wifi_country.as_str()) {
        return Err(String::from_str("Country must be a two-letter code"));
    }
    safe_value("proxy address", socks5_addr.as_str())?;
    safe_value("interface", downstream_if.as_str())?;
    safe_value("SSID", wifi_ssid.as_str())?;
    safe_value("Wi-Fi password", wifi_passphrase.as_str())?;
    let country = string_of(to_upper(chars_of(wifi_country.as_str()).as_slice()).as_slice());
    let mut values = existing;
    values.insert(String::from_str("SOCKS5_ADDR"), socks5_addr);
    values.insert(String::from_str("SOCKS5_PORT"), socks5_port);
    values.insert(String::from_str("DOWNSTREAM_IF"), downstream_if);
    values.insert(String::from_str("DOWNSTREAM_MODE"), downstream_mode);
    values.insert(String::from_str("WIFI_SSID"), wifi_ssid);
    values.insert(String::from_str("WIFI_PASSPHRASE"), wifi_passphrase);
    values.insert(String::from_str("WIFI_CHANNEL"), wifi_channel);
    values.insert(String::from_str("WIFI_COUNTRY"), country);
    Ok(render_config_file(&values))
}

/// A setting name: upper-case ASCII letters, digits and underscores.
pub open spec fn is_key_text(k: Seq<char>) -> bool {
    &&& k.len() > 0
    &&& forall|i: int|
        0 <= i < k.len() ==> (('A' <= #[trigger] k[i] && k[i] <= 'Z') || k[i] == '_' || ('0' <= k[i]
            && k[i] <= '9'))
}

/// Text without a line feed.
pub open spec fn single_line(v: Seq<char>) -> bool {
    !v.contains('\n')
}

proof fn lemma_default_keys_plain()
    ensures
        default_keys().len() == 20,
        forall|i: int| 0 <= i < default_keys().len() ==> is_key_text(#[trigger] default_keys()[i]),
{
    reveal_strlit("SOCKS5_ADDR");
    reveal_strlit("SOCKS5_PORT");
    reveal_strlit("DOWNSTREAM_IF");
    reveal_strlit("DOWNSTREAM_MODE");
    reveal_strlit("DOWNSTREAM_ADDR");
    reveal_strlit("DOWNSTREAM_SUBNET");
    reveal_strlit("TUN_MTU");
    reveal_strlit("CLIENT_MTU");
    reveal_strlit("DHCP_START");
    reveal_strlit("DHCP_END");
    reveal_strlit("DHCP_LEASE");
    reveal_strlit("DNS_SERVERS");
    reveal_strlit("WIFI_SSID");
    reveal_strlit("WIFI_PASSPHRASE");
    reveal_strlit("WIFI_CHANNEL");
    reveal_strlit("WIFI_COUNTRY");
    reveal_strlit("SOCKS5_UDP_MODE");
    reveal_strlit("SOCKS5_USERNAME");
    reveal_strlit("SOCKS5_PASSWORD");
    reveal_strlit("LOG_LEVEL");
    let keys = default_keys();
    assert forall|i: int| 0 <= i < keys.len() implies is_key_text(#[trigger] keys[i]) by {
        assert(keys[i] == default_entries()[i].0);
    }
}

proof fn lemma_key_text_ends(k: Seq<char>)
    requires
        is_key_text(k),
    ensures
        !crate::text::is_ws(k[0]),
        !crate::text::is_ws(k.last()),
        k[0] != '#',
        !k.contains('='),
        !k.contains('\n'),
        trim(k) == k,
{
    assert(k.last() == k[k.len() - 1]);
    if k.contains('=') {
        let i = choose|i: int| 0 <= i < k.len() && k[i] == '=';
        assert(('A' <= k[i] && k[i] <= 'Z') || k[i] == '_' || ('0' <= k[i] && k[i] <= '9'));
    }
    if k.contains('\n') {
        let i = choose|i: int| 0 <= i < k.len() && k[i] == '\n';
        assert(('A' <= k[i] && k[i] <= 'Z') || k[i] == '_' || ('0' <= k[i] && k[i] <= '9'));
    }
    lemma_trim_noop(k);
}

/// The line that writes a setting reads back as that setting.
proof fn lemma_config_line_reads_back(
    mm: Map<Seq<char>, Seq<char>>,
    m: Map<Seq<char>, Seq<char>>,
    k: Seq<char>,
)
    requires
        is_key_text(k),
        single_line(get_or_empty(m, k)),
    ensures
        apply_line(mm, config_line(m, k)) == mm.insert(k, get_or_empty(m, k)),
        single_line(config_line(m, k)),
        strip_cr(config_line(m, k)) == config_line(m, k),
{
    let v = get_or_empty(m, k);
    let l = config_line(m, k);
    let q = seq!['\''] + v + seq!['\''];
    lemma_key_text_ends(k);
    assert(l == k + seq!['='] + q);
    assert(l[0] == k[0]);
    assert(l.last() == '\'');
    lemma_trim_noop(l);
    assert(crate::text::is_first_index(l, '=', k.len() as int)) by {
        assert forall|j: int| 0 <= j < k.len() implies l[j] != '=' by {
            assert(l[j] == k[j]);
            if k[j] == '=' {
                assert(k.contains('='));
            }
        }
    }
    let i = choose|i: int| crate::text::is_first_index(l, '=', i);
    if i < k.len() {
        assert(l[i] == k[i]);
        assert(k.contains('='));
    } else if i > k.len() {
        assert(l[k.len() as int] == '=');
    }
    assert(l.take(k.len() as int) == k);
    assert(l.skip(k.len() as int + 1) == q);
    assert(q[0] == '\'' && q.last() == '\'');
    lemma_trim_noop(q);
    assert(q.subrange(1, q.len() - 1) == v);
    assert(!l.contains('\n')) by {
        if l.contains('\n') {
            let j = choose|j: int| 0 <= j < l.len() && l[j] == '\n';
            if j < k.len() {
                assert(k[j] == '\n');
                assert(k.contains('\n'));
            } else if k.len() + 2 <= j < k.len() + 2 + v.len() {
                assert(v[j - k.len() - 2] == '\n');
                assert(v.contains('\n'));
            } else {
                assert(l[j] == '=' || l[j] == '\'');
            }
        }
    }
}

/// The known settings, each with its value in `m` (nothing when unset).
pub open spec fn key_map(keys: Seq<Seq<char>>, m: Map<Seq<char>, Seq<char>>) -> Map<Seq<char>, Seq<char>> {
    Map::new(|k: Seq<char>| keys.contains(k), |k: Seq<char>| get_or_empty(m, k))
}

proof fn lemma_apply_config_lines(d: Map<Seq<char>, Seq<char>>, m: Map<Seq<char>, Seq<char>>, keys: Seq<Seq<char>>)
    requires
        forall|i: int| 0 <= i < keys.len() ==> is_key_text(#[trigger] keys[i]),
        forall|i: int| 0 <= i < keys.len() ==> single_line(get_or_empty(m, #[trigger] keys[i])),
    ensures
        apply_lines(d, keys.map_values(|k: Seq<char>| config_line(m, k))) == d.union_prefer_right(
            key_map(keys, m),
        ),
    decreases keys.len(),
{
    let ls = keys.map_values(|k: Seq<char>| config_line(m, k));
    if keys.len() == 0 {
        assert(d.union_prefer_right(key_map(keys, m)) =~= d);
    } else {
        let k0 = keys.drop_last();
        assert forall|i: int| 0 <= i < k0.len() implies is_key_text(#[trigger] k0[i]) by {
            assert(k0[i] == keys[i]);
        }
        assert forall|i: int| 0 <= i < k0.len() implies single_line(get_or_empty(m, #[trigger] k0[i])) by {
            assert(k0[i] == keys[i]);
        }
        lemma_apply_config_lines(d, m, k0);
        assert(ls.drop_last() == k0.map_values(|k: Seq<char>| config_line(m, k)));
        let k = keys.last();
        assert(keys[keys.len() - 1] == k);
        assert(ls.last() == config_line(m, k));
        lemma_config_line_reads_back(apply_lines(d, ls.drop_last()), m, k);
        assert(d.union_prefer_right(key_map(k0, m)).insert(k, get_or_empty(m, k)) =~= d.union_prefer_right(
            key_map(keys, m),
        )) by {
            assert forall|x: Seq<char>| keys.contains(x) <==> (k0.contains(x) || x == k) by {
                if keys.contains(x) {
                    let j = choose|j: int| 0 <= j < keys.len() && keys[j] == x;
                    if j < k0.len() {
                        assert(k0[j] == x);
                    }
                }
                if k0.contains(x) {
                    let j = choose|j: int| 0 <= j < k0.len() && k0[j] == x;
                    assert(keys[j] == x);
                }
            }
        }
    }
}

proof fn lemma_insert_all_dom(mm: Map<Seq<char>, Seq<char>>, e: Seq<(Seq<char>, Seq<char>)>, k: Seq<char>)
    ensures
        insert_all(mm, e).contains_key(k) <==> (mm.contains_key(k) || exists|i: int| 0 <= i < e.len() && e[i].0 == k),
    decreases e.len(),
{
    if e.len() > 0 {
        lemma_insert_all_dom(mm, e.drop_last(), k);
        if exists|i: int| 0 <= i < e.drop_last().len() && e.drop_last()[i].0 == k {
            let i = choose|i: int| 0 <= i < e.drop_last().len() && e.drop_last()[i].0 == k;
            assert(e[i].0 == k);
        }
        if exists|i: int| 0 <= i < e.len() && e[i].0 == k {
            let i = choose|i: int| 0 <= i < e.len() && e[i].0 == k;
            if i < e.len() - 1 {
                assert(e.drop_last()[i].0 == k);
            }
        }
    }
}

/// Law: what a saved settings file reads back. The file that `render_config`
/// writes, read by `parse_config`, gives every known setting the value it
/// was saved with (nothing when it was unset), as long as no value holds a
/// line feed, and sets nothing else.
pub proof fn lemma_saved_config_reads_back(m: Map<Seq<char>, Seq<char>>)
    requires
        forall|i: int| 0 <= i < default_keys().len() ==> single_line(get_or_empty(m, #[trigger] default_keys()[i])),
    ensures
        parse_config_spec(Some(render_config(m))) == key_map(default_keys(), m),
{
    lemma_default_keys_plain();
    let keys = default_keys();
    let ls = keys.map_values(|k: Seq<char>| config_line(m, k));
    assert forall|i: int| 0 <= i < ls.len() implies !(#[trigger] ls[i]).contains('\n') && strip_cr(ls[i]) == ls[i] by {
        lemma_config_line_reads_back(Map::empty(), m, keys[i]);
    }
    lemma_split_join(ls, '\n');
    let j = join(ls, seq!['\n']);
    lemma_split_concat(j, Seq::empty(), '\n');
    assert(j + seq!['\n'] + Seq::<char>::empty() == render_config(m));
    assert(split_char(Seq::<char>::empty(), '\n') == seq![Seq::<char>::empty()]);
    let p = split_char(render_config(m), '\n');
    assert(p == ls + seq![Seq::<char>::empty()]);
    assert(lines(render_config(m)) =~= ls) by {
        assert(p.len() - 1 == ls.len());
        assert forall|i: int| 0 <= i < ls.len() implies lines(render_config(m))[i] == ls[i] by {
            assert(p[i] == ls[i]);
        }
    }
    lemma_apply_config_lines(default_config(), m, keys);
    assert(default_config().union_prefer_right(key_map(keys, m)) =~= key_map(keys, m)) by {
        assert forall|k: Seq<char>| default_config().contains_key(k) implies keys.contains(k) by {
            lemma_insert_all_dom(Map::empty(), default_entries(), k);
            let i = choose|i: int| 0 <= i < default_entries().len() && default_entries()[i].0 == k;
            assert(keys[i] == k);
        }
    }
}

/// Every value of the settings is one line.
pub open spec fn values_single_line(m: Map<Seq<char>, Seq<char>>) -> bool {
    forall|k: Seq<char>| m.contains_key(k) ==> single_line(#[trigger] m[k])
}

proof fn lemma_default_values_single_line()
    ensures
        values_single_line(default_config()),
{
    reveal_strlit("");
    reveal_strlit("8228");
    reveal_strlit("wifi");
    reveal_strlit("10.77.0.1/24");
    reveal_strlit("10.77.0.0/24");
    reveal_strlit("1400");
    reveal_strlit("10.77.0.20");
    reveal_strlit("10.77.0.200");
    reveal_strlit("12h");
    reveal_strlit("1.1.1.1,9.9.9.9");
    reveal_strlit("MicroModem");
    reveal_strlit("6");
    reveal_strlit("US");
    reveal_strlit("udp");
    reveal_strlit("info");
    let e = default_entries();
    assert forall|i: int| 0 <= i < e.len() implies single_line(#[trigger] e[i].1) by {}
    lemma_insert_all_single_line(Map::empty(), e);
}

proof fn lemma_insert_all_single_line(mm: Map<Seq<char>, Seq<char>>, e: Seq<(Seq<char>, Seq<char>)>)
    requires
        values_single_line(mm),
        forall|i: int| 0 <= i < e.len() ==> single_line(#[trigger] e[i].1),
    ensures
        values_single_line(insert_all(mm, e)),
    decreases e.len(),
{
    if e.len() > 0 {
        let e0 = e.drop_last();
        assert forall|i: int| 0 <= i < e0.len() implies single_line(#[trigger] e0[i].1) by {
            assert(e0[i] == e[i]);
        }
        lemma_insert_all_single_line(mm, e0);
        assert(single_line(e[e.len() - 1].1));
    }
}

proof fn lemma_apply_lines_single_line(mm: Map<Seq<char>, Seq<char>>, ls: Seq<Seq<char>>)
    requires
        values_single_line(mm),
        forall|i: int| 0 <= i < ls.len() ==> single_line(#[trigger] ls[i]),
    ensures
        values_single_line(apply_lines(mm, ls)),
    decreases ls.len(),
{
    if ls.len() > 0 {
        let l0 = ls.drop_last();
        assert forall|i: int| 0 <= i < l0.len() implies single_line(#[trigger] l0[i]) by {
            assert(l0[i] == ls[i]);
        }
        lemma_apply_lines_single_line(mm, l0);
        let line = ls.last();
        assert(single_line(ls[ls.len() - 1]));
        let t = trim(line);
        crate::text::lemma_trim_subrange(line);
        let (a, b) = choose|a: int, b: int| 0 <= a <= b <= line.len() && trim(line) == line.subrange(a, b);
        crate::text::lemma_subrange_free(line, '\n', a, b);
        if !(t.len() == 0 || t[0] == '#') {
            if let Some((k, v)) = split_once(t, '=') {
                let i = choose|i: int| crate::text::is_first_index(t, '=', i);
                assert(v == t.subrange(i + 1, t.len() as int));
                crate::text::lemma_subrange_free(t, '\n', i + 1, t.len() as int);
                crate::text::lemma_trim_subrange(v);
                let (c, d) = choose|c: int, d: int| 0 <= c <= d <= v.len() && trim(v) == v.subrange(c, d);
                crate::text::lemma_subrange_free(v, '\n', c, d);
                let w = trim(v);
                if w.len() >= 2 && ((w[0] == '\'' && w.last() == '\'') || (w[0] == '"' && w.last() == '"')) {
                    crate::text::lemma_subrange_free(w, '\n', 1, w.len() - 1);
                }
            }
        }
    }
}

/// Law: every value that `parse_config` gives is a single line, so that the
/// settings it reads can be written back line by line.
pub proof fn lemma_parsed_values_single_line(contents: Option<Seq<char>>)
    ensures
        values_single_line(parse_config_spec(contents)),
{
    lemma_default_values_single_line();
    if let Some(c) = contents {
        crate::text::lemma_lines_free(c);
        lemma_apply_lines_single_line(default_config(), lines(c));
    }
}

proof fn lemma_digits_single_line(s: Seq<char>, max: nat)
    requires
        parse_unsigned(s, max) is Some,
    ensures
        single_line(s),
{
    if s.contains('\n') {
        let i = choose|i: int| 0 <= i < s.len() && s[i] == '\n';
        if s.len() > 0 && s[0] == '+' {
            assert(i > 0);
            assert(s.drop_first()[i - 1] == '\n');
            assert(crate::text::is_digit(s.drop_first()[i - 1]));
        } else {
            assert(crate::text::is_digit(s[i]));
        }
    }
}

/// Law: saving and loading give back what was saved. When the new settings
/// pass every check and the settings they are saved over hold single-line
/// values (as any that `parse_config` read do), the file that
/// `save_gateway_config` writes reads back as those settings with the new
/// values in place: the proxy address, port, interface, mode, SSID,
/// password and channel as given, and the country in upper case.
pub proof fn lemma_saved_settings_read_back(
    socks5_addr: Seq<char>,
    socks5_port: Seq<char>,
    downstream_if: Seq<char>,
    downstream_mode: Seq<char>,
    wifi_ssid: Seq<char>,
    wifi_passphrase: Seq<char>,
    wifi_channel: Seq<char>,
    wifi_country: Seq<char>,
    existing: Map<Seq<char>, Seq<char>>,
)
    requires
        settings_error(
            socks5_addr,
            socks5_port,
            downstream_if,
            downstream_mode,
            wifi_ssid,
            wifi_passphrase,
            wifi_channel,
            wifi_country,
        ) is None,
        values_single_line(existing),
    ensures
        ({
            let saved = saved_settings(
                existing,
                socks5_addr,
                socks5_port,
                downstream_if,
                downstream_mode,
                wifi_ssid,
                wifi_passphrase,
                wifi_channel,
                wifi_country,
            );
            parse_config_spec(Some(render_config(saved))) == key_map(default_keys(), saved)
        }),
{
    let saved = saved_settings(
        existing,
        socks5_addr,
        socks5_port,
        downstream_if,
        downstream_mode,
        wifi_ssid,
        wifi_passphrase,
        wifi_channel,
        wifi_country,
    );
    reveal_strlit("ethernet");
    reveal_strlit("wifi");
    lemma_digits_single_line(socks5_port, 65535);
    lemma_digits_single_line(wifi_channel, 255);
    assert(single_line(upper(wifi_country))) by {
        if upper(wifi_country).contains('\n') {
            let i = choose|i: int| 0 <= i < upper(wifi_country).len() && upper(wifi_country)[i] == '\n';
            assert(is_ascii_alpha(wifi_country[i]));
        }
    }
    assert(single_line(socks5_addr)) by {
        if socks5_addr.contains('\n') {
            let i = choose|i: int| 0 <= i < socks5_addr.len() && socks5_addr[i] == '\n';
            assert(is_unsafe_char(socks5_addr[i]));
        }
    }
    assert(single_line(downstream_if)) by {
        if downstream_if.contains('\n') {
            let i = choose|i: int| 0 <= i < downstream_if.len() && downstream_if[i] == '\n';
            assert(is_unsafe_char(downstream_if[i]));
        }
    }
    assert(single_line(wifi_ssid)) by {
        if wifi_ssid.contains('\n') {
            let i = choose|i: int| 0 <= i < wifi_ssid.len() && wifi_ssid[i] == '\n';
            assert(is_unsafe_char(wifi_ssid[i]));
        }
    }
    assert(single_line(wifi_passphrase)) by {
        if wifi_passphrase.contains('\n') {
            let i = choose|i: int| 0 <= i < wifi_passphrase.len() && wifi_passphrase[i] == '\n';
            assert(is_unsafe_char(wifi_passphrase[i]));
        }
    }
    assert(single_line(downstream_mode));
    assert(values_single_line(saved));
    assert forall|i: int| 0 <= i < default_keys().len() implies single_line(get_or_empty(saved, #[trigger] default_keys()[i])) by {
        if saved.contains_key(default_keys()[i]) {
            assert(single_line(saved[default_keys()[i]]));
        } else {
            assert(get_or_empty(saved, default_keys()[i]) == Seq::<char>::empty());
        }
    }
    lemma_saved_config_reads_back(saved);
}

} // verus!
