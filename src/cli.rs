//! The server's command line: `[--port N] [--host H] [DIRECTORY]`.
use vstd::prelude::*;
use vstd::string::*;

use crate::text::{chars_of, string_of_range};

verus! {

/// The settings that the command line gives.
#[derive(Debug)]
pub struct Args {
    /// Port number (default: 8080).
    pub port: u16,
    /// Host to listen on (default: `0.0.0.0`).
    pub host: String,
    /// Directory to serve (default: `.`).
    pub directory: String,
}

/// Why a command line was refused.
#[derive(PartialEq, Eq, Structural, Clone, Copy, Debug)]
pub enum ArgsError {
    /// `-h` or `--help`: the caller shows the usage instead.
    Help,
    /// An option that the server does not know.
    UnknownOption,
    /// An option given twice.
    Repeated,
    /// An option at the end of the line, without its value.
    MissingValue,
    /// A port that is not a decimal number up to 65535.
    InvalidPort,
    /// A second directory.
    UnexpectedArgument,
}

/// What the tokens read so far have set.
pub struct Parsed {
    pub port: Option<u16>,
    pub host: Option<Seq<char>>,
    pub directory: Option<Seq<char>>,
    pub only_positional: bool,
}

pub open spec fn digit_value(c: char) -> int {
    c as int - '0' as int
}

pub open spec fn is_digit(c: char) -> bool {
    '0' <= c && c <= '9'
}

/// The value of a string of decimal digits.
pub open spec fn decimal(s: Seq<char>) -> int
    decreases s.len(),
{
    if s.len() == 0 {
        0
    } else {
        decimal(s.drop_last()) * 10 + digit_value(s.last())
    }
}

/// A port: one or more decimal digits whose value is at most 65535.
pub open spec fn port_of(s: Seq<char>) -> Option<u16> {
    if s.len() > 0 && (forall|i: int| 0 <= i < s.len() ==> is_digit(#[trigger] s[i])) && decimal(s) <= 65535 {
        Some(decimal(s) as u16)
    } else {
        None
    }
}

pub open spec fn lit_port() -> Seq<char> {
    seq!['-', '-', 'p', 'o', 'r', 't']
}

pub open spec fn lit_host() -> Seq<char> {
    seq!['-', '-', 'h', 'o', 's', 't']
}

pub open spec fn starts_with(s: Seq<char>, p: Seq<char>) -> bool {
    s.len() >= p.len() && s.take(p.len() as int) == p
}

pub open spec fn set_port(st: Parsed, v: Seq<char>) -> Result<Parsed, ArgsError> {
    if st.port is Some {
        Err(ArgsError::Repeated)
    } else {
        match port_of(v) {
            Some(p) => Ok(Parsed { port: Some(p), ..st }),
            None => Err(ArgsError::InvalidPort),
        }
    }
}

pub open spec fn set_host(st: Parsed, v: Seq<char>) -> Result<Parsed, ArgsError> {
    if st.host is Some {
        Err(ArgsError::Repeated)
    } else {
        Ok(Parsed { host: Some(v), ..st })
    }
}

pub open spec fn set_directory(st: Parsed, v: Seq<char>) -> Result<Parsed, ArgsError> {
    if st.directory is Some {
        Err(ArgsError::UnexpectedArgument)
    } else {
        Ok(Parsed { directory: Some(v), ..st })
    }
}

/// Reads the tokens in order: `--port V` or `--port=V`, `--host V` or
/// `--host=V`, `--` (all that follows is positional), `-h` or `--help`, and
/// at most one positional directory; any other token that starts with `-`
/// (but `-` alone) is an unknown option.
pub open spec fn run(st: Parsed, toks: Seq<Seq<char>>) -> Result<Parsed, ArgsError>
    decreases toks.len(),
{
    if toks.len() == 0 {
        Ok(st)
    } else {
        let t = toks[0];
        let rest = toks.skip(1);
        if st.only_positional || t.len() == 0 || t[0] != '-' || t == seq!['-'] {
            match set_directory(st, t) {
                Ok(s2) => run(s2, rest),
                Err(e) => Err(e),
            }
        } else if t == seq!['-', '-'] {
            run(Parsed { only_positional: true, ..st }, rest)
        } else if t == seq!['-', 'h'] || t == seq!['-', '-', 'h', 'e', 'l', 'p'] {
            Err(ArgsError::Help)
        } else if t == lit_port() || t == lit_host() {
            if rest.len() == 0 {
                Err(ArgsError::MissingValue)
            } else {
                let r = if t == lit_port() { set_port(st, rest[0]) } else { set_host(st, rest[0]) };
                match r {
                    Ok(s2) => run(s2, rest.skip(1)),
                    Err(e) => Err(e),
                }
            }
        } else if starts_with(t, lit_port().push('=')) {
            match set_port(st, t.skip(7)) {
                Ok(s2) => run(s2, rest),
                Err(e) => Err(e),
            }
        } else if starts_with(t, lit_host().push('=')) {
            match set_host(st, t.skip(7)) {
                Ok(s2) => run(s2, rest),
                Err(e) => Err(e),
            }
        } else {
            Err(ArgsError::UnknownOption)
        }
    }
}

pub open spec fn start() -> Parsed {
    Parsed { port: None, host: None, directory: None, only_positional: false }
}

/// The tokens after the program name.
pub open spec fn after_name(argv: Seq<Seq<char>>) -> Seq<Seq<char>> {
    if argv.len() == 0 {
        argv
    } else {
        argv.skip(1)
    }
}

/// The settings of a command line whose first token is the program name.
pub open spec fn args_of(argv: Seq<Seq<char>>) -> Result<(u16, Seq<char>, Seq<char>), ArgsError> {
    match run(start(), after_name(argv)) {
        Ok(st) => Ok((
            match st.port { Some(p) => p, None => 8080u16 },
            match st.host { Some(h) => h, None => seq!['0', '.', '0', '.', '0', '.', '0'] },
            match st.directory { Some(d) => d, None => seq!['.'] },
        )),
        Err(e) => Err(e),
    }
}

pub open spec fn opt_view(o: Option<String>) -> Option<Seq<char>> {
    match o {
        Some(s) => Some(s@),
        None => None,
    }
}

fn chars_equal(a: &Vec<char>, b: &Vec<char>) -> (r: bool)
    ensures
        r == (a@ == b@),
{
    if a.len() != b.len() {
        return false;
    }
    let mut i: usize = 0;
    while i < a.len()
        invariant
            a@.len() == b@.len(),
            i <= a@.len(),
            a@.take(i as int) == b@.take(i as int),
        decreases a@.len() - i,
    {
        if a[i] != b[i] {
            return false;
        }
        i = i + 1;
        assert(a@.take(i as int) =~= b@.take(i as int));
    }
    assert(a@ =~= a@.take(i as int));
    assert(b@ =~= b@.take(i as int));
    true
}

fn has_prefix(a: &Vec<char>, p: &Vec<char>) -> (r: bool)
    ensures
        r == starts_with(a@, p@),
{
    if a.len() < p.len() {
        return false;
    }
    let mut i: usize = 0;
    while i < p.len()
        invariant
            a@.len() >= p@.len(),
            i <= p@.len(),
            a@.take(i as int) == p@.take(i as int),
        decreases p@.len() - i,
    {
        if a[i] != p[i] {
            assert(a@.take(p@.len() as int)[i as int] != p@[i as int]);
            return false;
        }
        i = i + 1;
        assert(a@.take(i as int) =~= p@.take(i as int));
    }
    assert(p@ =~= p@.take(i as int));
    true
}

/// Parses `cs[lo..]` as a port.
fn parse_port(cs: &Vec<char>, lo: usize) -> (r: Option<u16>)
    requires
        lo <= cs@.len(),
    ensures
        r == port_of(cs@.skip(lo as int)),
{
    let ghost s = cs@.skip(lo as int);
    let mut acc: u32 = 0;
    let mut i: usize = lo;
    while i < cs.len()
        invariant
            lo <= i <= cs@.len(),
            s == cs@.skip(lo as int),
            forall|k: int| 0 <= k < i - lo ==> is_digit(#[trigger] s[k]),
            acc as int == if decimal(s.take(i - lo)) < 65536 { decimal(s.take(i - lo)) } else { 65536 },
            decimal(s.take(i - lo)) >= 0,
        decreases cs@.len() - i,
    {
        let c = cs[i];
        if !('0' <= c && c <= '9') {
            assert(!is_digit(s[i - lo]));
            return None;
        }
        let d = (c as u32) - ('0' as u32);
        let ghost prev = decimal(s.take(i - lo));
        assert(s.take(i + 1 - lo).drop_last() =~= s.take(i - lo));
        assert(decimal(s.take(i + 1 - lo)) == prev * 10 + d);
        if acc >= 65536 {
            assert(prev >= 65536);
            assert(prev * 10 + d >= 65536) by (nonlinear_arith)
                requires prev >= 65536, d >= 0;
        } else {
            acc = acc * 10 + d;
            if acc > 65536 {
                acc = 65536;
            }
        }
        i = i + 1;
    }
    assert(s.take(i - lo) =~= s);
    if i == lo || acc > 65535 {
        None
    } else {
        Some(acc as u16)
    }
}

fn lit(cs: &[char]) -> (r: Vec<char>)
    ensures
        r@ == cs@,
{
    let mut v: Vec<char> = Vec::new();
    let mut i: usize = 0;
    while i < cs.len()
        invariant
            i <= cs@.len(),
            v@ == cs@.take(i as int),
        decreases cs@.len() - i,
    {
        v.push(cs[i]);
        i = i + 1;
        assert(v@ =~= cs@.take(i as int));
    }
    assert(cs@.take(i as int) =~= cs@);
    v
}

impl Args {
    /// Reads the command line `argv`, whose first token is the program name.
    pub fn try_parse_from(argv: &[&str]) -> (r: Result<Args, ArgsError>)
        ensures
            match args_of(argv@.map_values(|t: &str| t@)) {
                Ok((p, h, d)) => r matches Ok(a) && a.port == p && a.host@ == h && a.directory@ == d,
                Err(e) => r == Err::<Args, ArgsError>(e),
            },
    {
        let ghost toks = argv@.map_values(|t: &str| t@);
        let p_lit = lit(&['-', '-', 'p', 'o', 'r', 't']);
        let h_lit = lit(&['-', '-', 'h', 'o', 's', 't']);
        let pe_lit = lit(&['-', '-', 'p', 'o', 'r', 't', '=']);
        let he_lit = lit(&['-', '-', 'h', 'o', 's', 't', '=']);
        let help_lit = lit(&['-', '-', 'h', 'e', 'l', 'p']);
        proof {
            assert(p_lit@ =~= lit_port());
            assert(h_lit@ =~= lit_host());
            assert(pe_lit@ =~= lit_port().push('='));
            assert(he_lit@ =~= lit_host().push('='));
        }
        let mut port: Option<u16> = None;
        let mut host: Option<String> = None;
        let mut dir: Option<String> = None;
        let mut only_pos = false;
        let mut i: usize = if argv.len() > 0 { 1 } else { 0 };
        assert(after_name(toks) =~= toks.skip(i as int));
        while i < argv.len()
            invariant
                toks == argv@.map_values(|t: &str| t@),
                0 < i <= argv@.len() || argv@.len() == 0,
                i <= argv@.len(),
                p_lit@ == lit_port(),
                h_lit@ == lit_host(),
                pe_lit@ == lit_port().push('='),
                he_lit@ == lit_host().push('='),
                help_lit@ == seq!['-', '-', 'h', 'e', 'l', 'p'],
                run(start(), after_name(toks)) == run(
                    Parsed {
                        port,
                        host: opt_view(host),
                        directory: opt_view(dir),
                        only_positional: only_pos,
                    },
                    toks.skip(i as int),
                ),
            decreases argv@.len() - i,
        {
            let ghost st = Parsed {
                port,
                host: opt_view(host),
                directory: opt_view(dir),
                only_positional: only_pos,
            };
            let ghost rest = toks.skip(i as int);
            let t = chars_of(argv[i]);
            assert(rest[0] == t@);
            assert(rest.skip(1) =~= toks.skip(i + 1));
            if only_pos || t.len() == 0 || t[0] != '-' || t.len() == 1 {
                proof {
                    if t@.len() == 1 && t@[0] == '-' {
                        assert(t@ =~= seq!['-']);
                    }
                    if t@ == seq!['-'] {
                        assert(t@.len() == 1);
                    }
                }
                if dir.is_some() {
                    return Err(ArgsError::UnexpectedArgument);
                }
                dir = Some(String::from_str(argv[i]));
                i = i + 1;
            } else if t.len() == 2 && t[1] == '-' {
                assert(t@ =~= seq!['-', '-']);
                only_pos = true;
                i = i + 1;
            } else if (t.len() == 2 && t[1] == 'h') || chars_equal(&t, &help_lit) {
                proof {
                    if t@.len() == 2 && t@[1] == 'h' {
                        assert(t@ =~= seq!['-', 'h']);
                    }
                }
                return Err(ArgsError::Help);
            } else {
                proof {
                    if t@.len() == 2 {
                        assert(t@ != seq!['-', '-']);
                        assert(t@ != seq!['-', 'h']);
                    }
                    assert(t@ != seq!['-']);
                }
                let is_port = chars_equal(&t, &p_lit);
                let is_host = chars_equal(&t, &h_lit);
                if is_port || is_host {
                    if i + 1 >= argv.len() {
                        return Err(ArgsError::MissingValue);
                    }
                    let v = chars_of(argv[i + 1]);
                    assert(rest[1] == v@);
                    assert(rest.skip(1)[0] == v@);
                    assert(rest.skip(1).skip(1) =~= toks.skip(i + 2));
                    if is_port {
                        if port.is_some() {
                            return Err(ArgsError::Repeated);
                        }
                        assert(v@.skip(0) =~= v@);
                        match parse_port(&v, 0) {
                            Some(n) => port = Some(n),
                            None => return Err(ArgsError::InvalidPort),
                        }
                    } else {
                        if host.is_some() {
                            return Err(ArgsError::Repeated);
                        }
                        host = Some(String::from_str(argv[i + 1]));
                    }
                    i = i + 2;
                } else if has_prefix(&t, &pe_lit) {
                    if port.is_some() {
                        return Err(ArgsError::Repeated);
                    }
                    match parse_port(&t, 7) {
                        Some(n) => port = Some(n),
                        None => return Err(ArgsError::InvalidPort),
                    }
                    i = i + 1;
                } else if has_prefix(&t, &he_lit) {
                    if host.is_some() {
                        return Err(ArgsError::Repeated);
                    }
                    host = Some(string_of_range(&t, 7, t.len()));
                    assert(t@.subrange(7, t@.len() as int) =~= t@.skip(7));
                    i = i + 1;
                } else {
                    return Err(ArgsError::UnknownOption);
                }
            }
        }
        assert(toks.skip(i as int) =~= Seq::<Seq<char>>::empty());
        let port = match port {
            Some(p) => p,
            None => 8080,
        };
        let host = match host {
            Some(h) => h,
            None => {
                let h = String::from_str("0.0.0.0");
                proof { reveal_strlit("0.0.0.0"); }
                assert(h@ =~= seq!['0', '.', '0', '.', '0', '.', '0']);
                h
            },
        };
        let directory = match dir {
            Some(d) => d,
            None => {
                let d = String::from_str(".");
                proof { reveal_strlit("."); }
                assert(d@ =~= seq!['.']);
                d
            },
        };
        Ok(Args { port, host, directory })
    }
}

} // verus!
