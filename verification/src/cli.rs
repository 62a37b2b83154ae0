//! The command line: which command to run, and the scan's options.
use vstd::prelude::*;
use vstd::string::*;
use crate::ipv4::{parse_ipv4, parse_ipv4_str, Ipv4};
use crate::targets::parse_port;
use crate::text::{chars_of, parse_decimal, parse_unsigned, text_eq};

verus! {

pub open spec fn arg_views(args: Seq<String>) -> Seq<Seq<char>> {
    args.map_values(|a: String| a@)
}

/// `i` is the first position of `option` among the arguments.
pub open spec fn is_first_arg(args: Seq<Seq<char>>, option: Seq<char>, i: int) -> bool {
    &&& 0 <= i < args.len()
    &&& args[i] == option
    &&& forall|j: int| 0 <= j < i ==> args[j] != option
}

/// The argument after the first `option`, when there is one.
pub open spec fn option_value_spec(args: Seq<Seq<char>>, option: Seq<char>) -> Option<Seq<char>> {
    if exists|i: int| is_first_arg(args, option, i) {
        let i = choose|i: int| is_first_arg(args, option, i);
        if i + 1 < args.len() {
            Some(args[i + 1])
        } else {
            None
        }
    } else {
        None
    }
}

/// The value given to `option`: the argument that follows its first occurrence.
pub fn option_value<'a>(args: &'a [String], option: &str) -> (r: Option<&'a str>)
    ensures
        match r {
            Some(v) => option_value_spec(arg_views(args@), option@) == Some(v@),
            None => option_value_spec(arg_views(args@), option@) is None,
        },
{
    let ghost av = arg_views(args@);
    for i in 0..args.len()
        invariant
            av == arg_views(args@),
            forall|j: int| 0 <= j < i ==> av[j] != option@,
    {
        if text_eq(args[i].as_str(), option) {
            assert(is_first_arg(av, option@, i as int));
            proof {
                let k = choose|k: int| is_first_arg(av, option@, k);
                if k < i {
                    assert(av[k] != option@);
                } else if k > i {
                    assert(av[i as int] != option@);
                }
            }
            if i + 1 < args.len() {
                return Some(args[i + 1].as_str());
            } else {
                return None;
            }
        }
    }
    assert(!exists|k: int| is_first_arg(av, option@, k)) by {
        if exists|k: int| is_first_arg(av, option@, k) {
            let k = choose|k: int| is_first_arg(av, option@, k);
            assert(av[k] != option@);
        }
    }
    None
}

/// Whether some argument is `flag`.
pub fn has_flag(args: &[String], flag: &str) -> (r: bool)
    ensures
        r == arg_views(args@).contains(flag@),
{
    let ghost av = arg_views(args@);
    for i in 0..args.len()
        invariant
            av == arg_views(args@),
            forall|j: int| 0 <= j < i ==> av[j] != flag@,
    {
        if text_eq(args[i].as_str(), flag) {
            assert(av[i as int] == flag@);
            return true;
        }
    }
    false
}

/// How to scan.
#[derive(Debug, PartialEq, Eq, Structural)]
pub struct ScanOptions {
    pub json: bool,
    pub verbose: bool,
    pub timeout_ms: u64,
    pub host: Option<Ipv4>,
    pub port: Option<u16>,
}

/// What the command line asks for.
#[derive(Debug)]
pub enum Invocation {
    /// Print the usage.
    Help,
    /// Open the dashboard.
    Gui,
    /// Scan with these options.
    Scan(ScanOptions),
    /// A command other than `scan` or `gui`.
    UnknownCommand(String),
    /// `--host` was given something other than an IPv4 address.
    InvalidHost,
}

/// The scan timeout in milliseconds when `--timeout-ms` gives none.
pub open spec fn default_timeout_ms() -> u64 {
    700
}

/// The options that the arguments give a scan: `--json`, `--verbose` or
/// `-v`, `--timeout-ms N` (700 when missing or not a number), `--host IPV4`
/// and `--port PORT` (ignored when not a port).
pub open spec fn scan_options_spec(args: Seq<Seq<char>>) -> ScanOptions {
    ScanOptions {
        json: args.contains("--json"@),
        verbose: args.contains("--verbose"@) || args.contains("-v"@),
        timeout_ms: match option_value_spec(args, "--timeout-ms"@) {
            Some(v) => match parse_unsigned(v, u64::MAX as nat) {
                Some(n) => n as u64,
                None => default_timeout_ms(),
            },
            None => default_timeout_ms(),
        },
        host: match option_value_spec(args, "--host"@) {
            Some(v) => parse_ipv4(v),
            None => None,
        },
        port: match option_value_spec(args, "--port"@) {
            Some(v) => parse_port(v),
            None => None,
        },
    }
}

/// The arguments after the program name, read: `--help`/`-h` first asks for
/// help; the command is the first argument (`scan` when there is none);
/// `gui` opens the dashboard; a scan with a `--host` that is not an IPv4
/// address is refused.
pub open spec fn invocation_matches(args: Seq<Seq<char>>, r: Invocation) -> bool {
    if args.len() > 0 && (args[0] == "--help"@ || args[0] == "-h"@) {
        r is Help
    } else if args.len() > 0 && args[0] == "gui"@ {
        r is Gui
    } else if args.len() > 0 && args[0] != "scan"@ {
        r matches Invocation::UnknownCommand(c) && c@ == args[0]
    } else if option_value_spec(args, "--host"@) is Some && scan_options_spec(args).host is None {
        r is InvalidHost
    } else {
        r matches Invocation::Scan(o) && o == scan_options_spec(args)
    }
}

/// Reads the command line (without the program name).
pub fn parse_invocation(args: &[String]) -> (r: Invocation)
    ensures
        invocation_matches(arg_views(args@), r),
{
    let ghost av = arg_views(args@);
    if args.len() > 0 {
        assert(av[0] == args@[0]@);
        let first = args[0].as_str();
        if text_eq(first, "--help") || text_eq(first, "-h") {
            return Invocation::Help;
        }
        if text_eq(first, "gui") {
            return Invocation::Gui;
        }
        if !text_eq(first, "scan") {
            return Invocation::UnknownCommand(args[0].clone());
        }
    }
    let json = has_flag(args, "--json");
    let verbose = has_flag(args, "--verbose") || has_flag(args, "-v");
    let timeout_ms = match option_value(args, "--timeout-ms") {
        Some(v) => match parse_decimal(chars_of(v).as_slice(), u64::MAX) {
            Some(n) => n,
            None => 700,
        },
        None => 700,
    };
    let host_arg = option_value(args, "--host");
    let host = match host_arg {
        Some(v) => parse_ipv4_str(v),
        None => None,
    };
    let port = match option_value(args, "--port") {
        Some(v) => match parse_decimal(chars_of(v).as_slice(), 65535) {
            Some(p) => Some(p as u16),
            None => None,
        },
        None => None,
    };
    if host_arg.is_some() && host.is_none() {
        return Invocation::InvalidHost;
    }
    Invocation::Scan(ScanOptions { json, verbose, timeout_ms, host, port })
}

} // verus!
