//! The command line of the `panda` program:
//!
//! ```text
//! panda start [--listen-addr <ADDR>] [--pg-addr <ADDR>] --join <ADDR>[,<ADDR>...]...
//! panda start-single-node [--listen-addr <ADDR>] [--pg-addr <ADDR>]
//! panda shell
//! ```
//!
//! An option's value follows it as the next argument or after `=`. The node
//! addresses of `--join` are split at commas; without a comma, `--join` goes
//! on taking the arguments that follow until one looks like an option or holds
//! a comma. `--listen-addr` defaults to `DEFAULT_LISTEN_ADDR` and `--pg-addr`
//! to `DEFAULT_PG_ADDR`. `--join` may be given more than once, and its
//! values add up; `--listen-addr` and `--pg-addr` may be given once. `-h` and
//! `--help` ask for help.
//!
//! The `panda` program reads its command line by this grammar. Where it
//! refuses the line, or help is asked for, the program hands the line to clap,
//! declared with the same options, which prints the message.
use vstd::prelude::*;
use vstd::string::{StrSliceExecFns, StringExecFns};
use crate::{DEFAULT_LISTEN_ADDR, DEFAULT_PG_ADDR};

verus! {

/// The parsed command line.
#[derive(Debug, PartialEq)]
pub struct Opts {
    pub cmd: Cmd,
}

/// What to run.
#[derive(Debug, PartialEq)]
pub enum Cmd {
    Start(CmdStart),
    StartSingleNode(CmdStartSingleNode),
    Shell,
}

/// Start a node that joins the given nodes.
#[derive(Debug, PartialEq)]
pub struct CmdStart {
    pub conn: ConnConfig,
    /// Comma separated list of node addresses to connect to
    pub join: Vec<String>,
}

/// The addresses a node listens on.
#[derive(Debug, PartialEq)]
pub struct ConnConfig {
    pub listen_addr: String,
    pub pg_addr: String,
}

/// Start a node on its own.
#[derive(Debug, PartialEq)]
pub struct CmdStartSingleNode {
    pub conn: ConnConfig,
}

/// A command line as values.
pub enum CmdLine {
    Start { listen_addr: Seq<char>, pg_addr: Seq<char>, join: Seq<Seq<char>> },
    StartSingleNode { listen_addr: Seq<char>, pg_addr: Seq<char> },
    Shell,
}

/// The characters of each string.
pub open spec fn strings_view(v: Seq<String>) -> Seq<Seq<char>> {
    Seq::new(v.len(), |i: int| v[i]@)
}

impl View for Opts {
    type V = CmdLine;

    open spec fn view(&self) -> CmdLine {
        match self.cmd {
            Cmd::Start(s) => CmdLine::Start {
                listen_addr: s.conn.listen_addr@,
                pg_addr: s.conn.pg_addr@,
                join: strings_view(s.join@),
            },
            Cmd::StartSingleNode(s) => CmdLine::StartSingleNode {
                listen_addr: s.conn.listen_addr@,
                pg_addr: s.conn.pg_addr@,
            },
            Cmd::Shell => CmdLine::Shell,
        }
    }
}

/// Why a command line was refused.
#[derive(Debug, PartialEq, Eq, Clone, Copy, Structural)]
pub enum ErrorKind {
    /// No subcommand given.
    MissingSubcommand,
    /// The first argument names no subcommand.
    InvalidSubcommand,
    /// An option that the subcommand does not have.
    UnknownArgument,
    /// An argument that is neither an option nor an option's value.
    UnexpectedArgument,
    /// An option given without a value.
    EmptyValue,
    /// A value given to an option that takes none.
    TooManyValues,
    /// An option given more than once.
    UnexpectedMultipleUsage,
    /// A required option not given.
    MissingRequiredArgument,
    /// Help was asked for.
    DisplayHelp,
}

/// A refused command line: the reason and the argument it concerns (empty
/// when none does).
#[derive(Debug, PartialEq)]
pub struct CliError {
    pub kind: ErrorKind,
    pub arg: String,
}

/// The options a subcommand can take.
#[derive(Debug, PartialEq, Eq, Clone, Copy, Structural)]
pub enum OptName {
    ListenAddr,
    PgAddr,
    Join,
}

/// Where a scan of a subcommand's arguments stands.
pub struct ScanState {
    /// How often each option was given.
    pub listen_uses: nat,
    pub pg_uses: nat,
    pub join_uses: nat,
    /// The values each option received.
    pub listen: Seq<Seq<char>>,
    pub pg: Seq<Seq<char>>,
    pub join: Seq<Seq<char>>,
    /// The option that takes the next argument as its value, if any.
    pub pending: Option<OptName>,
    /// Whether `--` was seen.
    pub trailing: bool,
}

pub open spec fn scan_start() -> ScanState {
    ScanState {
        listen_uses: 0,
        pg_uses: 0,
        join_uses: 0,
        listen: seq![],
        pg: seq![],
        join: seq![],
        pending: None,
        trailing: false,
    }
}

/// Looks like an option: a dash and at least one more character.
pub open spec fn is_flag(a: Seq<char>) -> bool {
    a.len() >= 2 && a[0] == '-'
}

/// Looks like a long option: two dashes.
pub open spec fn is_long(a: Seq<char>) -> bool {
    a.len() >= 2 && a[0] == '-' && a[1] == '-'
}

/// Index of the first `c` in `s`, or `s.len()` when there is none.
pub open spec fn first_index(s: Seq<char>, c: char) -> int
    decreases s.len(),
{
    if s.len() == 0 {
        0
    } else if s[0] == c {
        0
    } else {
        1 + first_index(s.drop_first(), c)
    }
}

/// The pieces of `s` between the occurrences of `d`, as `str::split` gives them.
pub open spec fn split_at_delim(s: Seq<char>, d: char) -> Seq<Seq<char>>
    decreases s.len(),
{
    let i = first_index(s, d);
    if !(0 <= i < s.len()) {
        seq![s]
    } else {
        seq![s.take(i)] + split_at_delim(s.skip(i + 1), d)
    }
}

/// The option name of a long option (between `--` and the first `=`).
pub open spec fn long_name(a: Seq<char>) -> Seq<char> {
    let body = a.skip(2);
    body.take(first_index(body, '='))
}

/// The value attached to a long option after `=`, if any.
pub open spec fn long_value(a: Seq<char>) -> Option<Seq<char>> {
    let body = a.skip(2);
    let i = first_index(body, '=');
    if 0 <= i < body.len() {
        Some(body.skip(i + 1))
    } else {
        None
    }
}

/// The values one argument gives to an option.
pub open spec fn values_of(o: OptName, v: Seq<char>) -> Seq<Seq<char>> {
    if o == OptName::Join {
        split_at_delim(v, ',')
    } else {
        seq![v]
    }
}

pub open spec fn add_values(st: ScanState, o: OptName, vs: Seq<Seq<char>>) -> ScanState {
    match o {
        OptName::ListenAddr => ScanState { listen: st.listen + vs, ..st },
        OptName::PgAddr => ScanState { pg: st.pg + vs, ..st },
        OptName::Join => ScanState { join: st.join + vs, ..st },
    }
}

pub open spec fn add_use(st: ScanState, o: OptName) -> ScanState {
    match o {
        OptName::ListenAddr => ScanState { listen_uses: st.listen_uses + 1, ..st },
        OptName::PgAddr => ScanState { pg_uses: st.pg_uses + 1, ..st },
        OptName::Join => ScanState { join_uses: st.join_uses + 1, ..st },
    }
}

/// An option given on the command line, with its attached value if any.
pub open spec fn use_option(st: ScanState, o: OptName, value: Option<Seq<char>>) -> ScanState {
    let st1 = add_use(st, o);
    match value {
        None => ScanState { pending: Some(o), ..st1 },
        Some(v) => ScanState { pending: None, ..add_values(st1, o, values_of(o, v)) },
    }
}

/// The option a long option names, among those the subcommand takes.
pub open spec fn option_named(name: Seq<char>, takes_join: bool) -> Option<OptName> {
    if name == "listen-addr"@ {
        Some(OptName::ListenAddr)
    } else if name == "pg-addr"@ {
        Some(OptName::PgAddr)
    } else if takes_join && name == "join"@ {
        Some(OptName::Join)
    } else {
        None
    }
}

/// One argument of a subcommand that takes the options `--listen-addr` and
/// `--pg-addr` (with `takes_options`), and `--join` too (with `takes_join`).
pub open spec fn scan_arg(
    st: ScanState,
    a: Seq<char>,
    takes_options: bool,
    takes_join: bool,
) -> Result<ScanState, (ErrorKind, Seq<char>)> {
    if st.trailing {
        Err((ErrorKind::UnexpectedArgument, a))
    } else if a == "--"@ {
        Ok(ScanState { pending: None, trailing: true, ..st })
    } else if is_flag(a) {
        let st1 = ScanState { pending: None, ..st };
        if is_long(a) {
            let name = long_name(a);
            if name == "help"@ {
                if long_value(a) is Some {
                    Err((ErrorKind::TooManyValues, "--help"@))
                } else {
                    Err((ErrorKind::DisplayHelp, seq![]))
                }
            } else {
                match option_named(name, takes_join) {
                    Some(o) if takes_options => Ok(use_option(st1, o, long_value(a))),
                    _ => Err((ErrorKind::UnknownArgument, "--"@ + name)),
                }
            }
        } else if a[1] == 'h' {
            Err((ErrorKind::DisplayHelp, seq![]))
        } else {
            Err((ErrorKind::UnknownArgument, a.take(2)))
        }
    } else {
        match st.pending {
            None => Err((ErrorKind::UnexpectedArgument, a)),
            Some(o) => {
                let more = o == OptName::Join && !a.contains(',');
                let st1 = add_values(st, o, values_of(o, a));
                Ok(ScanState { pending: if more { Some(o) } else { None }, ..st1 })
            },
        }
    }
}

/// Scans the arguments of a subcommand in order; the first refused argument
/// ends the scan.
pub open spec fn scan_args(
    st: ScanState,
    args: Seq<Seq<char>>,
    takes_options: bool,
    takes_join: bool,
) -> Result<ScanState, (ErrorKind, Seq<char>)>
    decreases args.len(),
{
    if args.len() == 0 {
        Ok(st)
    } else {
        match scan_arg(st, args[0], takes_options, takes_join) {
            Ok(st1) => scan_args(st1, args.drop_first(), takes_options, takes_join),
            Err(e) => Err(e),
        }
    }
}

/// The checks made once all arguments are read: `--listen-addr` or
/// `--pg-addr` given twice, then an option given without a value, then a
/// missing `--join` (when required). `--join` may be given more than once;
/// its values add up.
pub open spec fn finish_check(st: ScanState, join_required: bool) -> Option<
    (ErrorKind, Seq<char>),
> {
    if st.listen_uses > 1 {
        Some((ErrorKind::UnexpectedMultipleUsage, "--listen-addr"@))
    } else if st.pg_uses > 1 {
        Some((ErrorKind::UnexpectedMultipleUsage, "--pg-addr"@))
    } else if st.listen_uses == 1 && st.listen.len() == 0 {
        Some((ErrorKind::EmptyValue, "--listen-addr"@))
    } else if st.pg_uses == 1 && st.pg.len() == 0 {
        Some((ErrorKind::EmptyValue, "--pg-addr"@))
    } else if st.join_uses == 1 && st.join.len() == 0 {
        Some((ErrorKind::EmptyValue, "--join"@))
    } else if join_required && st.join_uses == 0 {
        Some((ErrorKind::MissingRequiredArgument, "--join"@))
    } else {
        None
    }
}

/// The value of an option, or its default when it was not given.
pub open spec fn value_or(vs: Seq<Seq<char>>, default: Seq<char>) -> Seq<char> {
    if vs.len() == 0 {
        default
    } else {
        vs[0]
    }
}

/// What a command line (the program name first) comes to.
pub open spec fn parse_spec(args: Seq<Seq<char>>) -> Result<CmdLine, (ErrorKind, Seq<char>)> {
    if args.len() < 2 {
        Err((ErrorKind::MissingSubcommand, seq![]))
    } else {
        let sub = args[1];
        let rest = args.skip(2);
        if sub == "start"@ || sub == "start-single-node"@ || sub == "shell"@ {
            let takes_options = sub != "shell"@;
            let takes_join = sub == "start"@;
            match scan_args(scan_start(), rest, takes_options, takes_join) {
                Err(e) => Err(e),
                Ok(st) => match finish_check(st, takes_join) {
                    Some(e) => Err(e),
                    None => {
                        let listen_addr = value_or(st.listen, DEFAULT_LISTEN_ADDR@);
                        let pg_addr = value_or(st.pg, DEFAULT_PG_ADDR@);
                        if sub == "start"@ {
                            Ok(CmdLine::Start { listen_addr, pg_addr, join: st.join })
                        } else if sub == "shell"@ {
                            Ok(CmdLine::Shell)
                        } else {
                            Ok(CmdLine::StartSingleNode { listen_addr, pg_addr })
                        }
                    },
                },
            }
        } else if sub == "help"@ || sub == "--help"@ || (is_flag(sub) && !is_long(sub) && sub[1]
            == 'h') {
            Err((ErrorKind::DisplayHelp, seq![]))
        } else if is_flag(sub) {
            Err((ErrorKind::UnknownArgument, sub))
        } else {
            Err((ErrorKind::InvalidSubcommand, sub))
        }
    }
}

// ---------------------------------------------------------------------------
// Parsing
// ---------------------------------------------------------------------------

pub proof fn lemma_first_index(s: Seq<char>, c: char)
    ensures
        0 <= first_index(s, c) <= s.len(),
        first_index(s, c) < s.len() ==> s[first_index(s, c)] == c,
        forall|j: int| 0 <= j < first_index(s, c) ==> s[j] != c,
        (first_index(s, c) < s.len()) == s.contains(c),
    decreases s.len(),
{
    if s.len() != 0 && s[0] != c {
        lemma_first_index(s.drop_first(), c);
        assert forall|j: int| 0 <= j < first_index(s, c) implies s[j] != c by {
            if j > 0 {
                assert(s[j] == s.drop_first()[j - 1]);
            }
        }
        if s.drop_first().contains(c) {
            let k = choose|k: int| 0 <= k < s.drop_first().len() && s.drop_first()[k] == c;
            assert(s[k + 1] == c);
        }
        if s.contains(c) {
            let k = choose|k: int| 0 <= k < s.len() && s[k] == c;
            assert(s.drop_first()[k - 1] == c);
        }
    } else if s.len() != 0 {
        assert(s[0] == c);
    }
}

fn str_eq(a: &str, b: &str) -> (r: bool)
    ensures
        r == (a@ == b@),
{
    let n = a.unicode_len();
    if n != b.unicode_len() {
        return false;
    }
    let mut i: usize = 0;
    while i < n
        invariant
            n == a@.len() == b@.len(),
            0 <= i <= n,
            forall|j: int| 0 <= j < i ==> a@[j] == b@[j],
        decreases n - i,
    {
        if a.get_char(i) != b.get_char(i) {
            return false;
        }
        i = i + 1;
    }
    assert(a@ =~= b@);
    true
}

pub proof fn lemma_first_index_at(s: Seq<char>, c: char, i: int)
    requires
        0 <= i <= s.len(),
        i < s.len() ==> s[i] == c,
        forall|j: int| 0 <= j < i ==> s[j] != c,
    ensures
        first_index(s, c) == i,
    decreases s.len(),
{
    if s.len() != 0 && s[0] != c {
        assert forall|j: int| 0 <= j < i - 1 implies s.drop_first()[j] != c by {
            assert(s.drop_first()[j] == s[j + 1]);
        }
        lemma_first_index_at(s.drop_first(), c, i - 1);
    }
}

fn index_of(s: &str, c: char) -> (r: usize)
    ensures
        r == first_index(s@, c),
{
    let n = s.unicode_len();
    let mut i: usize = 0;
    while i < n
        invariant
            n == s@.len(),
            0 <= i <= n,
            forall|j: int| 0 <= j < i ==> s@[j] != c,
        decreases n - i,
    {
        if s.get_char(i) == c {
            proof {
                lemma_first_index_at(s@, c, i as int);
            }
            return i;
        }
        i = i + 1;
    }
    proof {
        lemma_first_index_at(s@, c, i as int);
    }
    i
}

fn split_commas(s: &str) -> (v: Vec<String>)
    ensures
        strings_view(v@) == split_at_delim(s@, ','),
{
    let mut out: Vec<String> = Vec::new();
    let mut rest: &str = s;
    assert(strings_view(out@) + split_at_delim(rest@, ',') =~= split_at_delim(s@, ','));
    loop
        invariant
            strings_view(out@) + split_at_delim(rest@, ',') == split_at_delim(s@, ','),
        decreases rest@.len(),
    {
        let n = rest.unicode_len();
        let i = index_of(rest, ',');
        proof {
            lemma_first_index(rest@, ',');
        }
        if i >= n {
            let ghost before = strings_view(out@);
            out.push(String::from_str(rest));
            assert(strings_view(out@) =~= before + seq![rest@]);
            return out;
        }
        let ghost before = strings_view(out@);
        let ghost r0 = rest@;
        let piece = rest.substring_char(0, i);
        out.push(String::from_str(piece));
        rest = rest.substring_char(i + 1, n);
        assert(strings_view(out@) =~= before + seq![r0.take(i as int)]);
        assert(rest@ =~= r0.skip(i + 1));
        assert(split_at_delim(r0, ',') == seq![r0.take(i as int)] + split_at_delim(rest@, ','));
        assert(before + (seq![r0.take(i as int)] + split_at_delim(rest@, ',')) =~= (before
            + seq![r0.take(i as int)]) + split_at_delim(rest@, ','));
    }
}

fn err(kind: ErrorKind, arg: String) -> (e: CliError)
    ensures
        e.kind == kind,
        e.arg@ == arg@,
{
    CliError { kind, arg }
}

/// The reason and the argument of a refusal, as values.
pub open spec fn error_view(e: CliError) -> (ErrorKind, Seq<char>) {
    (e.kind, e.arg@)
}

struct Scan {
    listen_uses: usize,
    pg_uses: usize,
    join_uses: usize,
    listen: Vec<String>,
    pg: Vec<String>,
    join: Vec<String>,
    pending: Option<OptName>,
    trailing: bool,
}

impl Scan {
    spec fn view(&self) -> ScanState {
        ScanState {
            listen_uses: self.listen_uses as nat,
            pg_uses: self.pg_uses as nat,
            join_uses: self.join_uses as nat,
            listen: strings_view(self.listen@),
            pg: strings_view(self.pg@),
            join: strings_view(self.join@),
            pending: self.pending,
            trailing: self.trailing,
        }
    }

    spec fn bounded(&self, n: nat) -> bool {
        self.listen_uses <= n && self.pg_uses <= n && self.join_uses <= n
    }

    fn add_values(&mut self, o: OptName, v: &str)
        ensures
            final(self).view() == add_values(old(self).view(), o, values_of(o, v@)),
            final(self).listen_uses == old(self).listen_uses,
            final(self).pg_uses == old(self).pg_uses,
            final(self).join_uses == old(self).join_uses,
    {
        match o {
            OptName::ListenAddr => {
                let ghost before = strings_view(self.listen@);
                self.listen.push(String::from_str(v));
                assert(strings_view(self.listen@) =~= before + seq![v@]);
            },
            OptName::PgAddr => {
                let ghost before = strings_view(self.pg@);
                self.pg.push(String::from_str(v));
                assert(strings_view(self.pg@) =~= before + seq![v@]);
            },
            OptName::Join => {
                let ghost before = strings_view(self.join@);
                let mut pieces = split_commas(v);
                let ghost ps = strings_view(pieces@);
                self.join.append(&mut pieces);
                assert(strings_view(self.join@) =~= before + ps);
            },
        }
    }

    fn scan_arg(&mut self, a: &String, takes_options: bool, takes_join: bool) -> (r: Result<
        (),
        CliError,
    >)
        requires
            old(self).bounded((usize::MAX - 1) as nat),
        ensures
            match scan_arg(old(self).view(), a@, takes_options, takes_join) {
                Ok(st) => r is Ok && final(self).view() == st,
                Err(e) => r is Err && error_view(r->Err_0) == e,
            },
            final(self).listen_uses <= old(self).listen_uses + 1,
            final(self).pg_uses <= old(self).pg_uses + 1,
            final(self).join_uses <= old(self).join_uses + 1,
    {
        let s = a.as_str();
        let n = s.unicode_len();
        if self.trailing {
            return Err(err(ErrorKind::UnexpectedArgument, a.clone()));
        }
        if str_eq(s, "--") {
            self.pending = None;
            self.trailing = true;
            return Ok(());
        }
        if n >= 2 && s.get_char(0) == '-' {
            self.pending = None;
            if s.get_char(1) == '-' {
                let body = s.substring_char(2, n);
                let bn = body.unicode_len();
                let i = index_of(body, '=');
                proof {
                    lemma_first_index(body@, '=');
                }
                let name = body.substring_char(0, i);
                assert(name@ =~= long_name(a@));
                let value: Option<&str> = if i < bn {
                    Some(body.substring_char(i + 1, bn))
                } else {
                    None
                };
                assert(value matches Some(v) ==> v@ =~= long_value(a@)->Some_0);
                if str_eq(name, "help") {
                    if value.is_some() {
                        return Err(err(ErrorKind::TooManyValues, String::from_str("--help")));
                    }
                    return Err(err(ErrorKind::DisplayHelp, String::new()));
                }
                let o: Option<OptName> = if str_eq(name, "listen-addr") {
                    Some(OptName::ListenAddr)
                } else if str_eq(name, "pg-addr") {
                    Some(OptName::PgAddr)
                } else if takes_join && str_eq(name, "join") {
                    Some(OptName::Join)
                } else {
                    None
                };
                match o {
                    Some(o) => {
                        if !takes_options {
                            return Err(
                                err(ErrorKind::UnknownArgument, String::from_str("--").concat(name)),
                            );
                        }
                        match o {
                            OptName::ListenAddr => {
                                self.listen_uses = self.listen_uses + 1;
                            },
                            OptName::PgAddr => {
                                self.pg_uses = self.pg_uses + 1;
                            },
                            OptName::Join => {
                                self.join_uses = self.join_uses + 1;
                            },
                        }
                        match value {
                            None => {
                                self.pending = Some(o);
                            },
                            Some(v) => {
                                self.add_values(o, v);
                                self.pending = None;
                            },
                        }
                        Ok(())
                    },
                    None => Err(err(ErrorKind::UnknownArgument, String::from_str("--").concat(name))),
                }
            } else if s.get_char(1) == 'h' {
                Err(err(ErrorKind::DisplayHelp, String::new()))
            } else {
                Err(err(ErrorKind::UnknownArgument, String::from_str(s.substring_char(0, 2))))
            }
        } else {
            match self.pending {
                None => Err(err(ErrorKind::UnexpectedArgument, a.clone())),
                Some(o) => {
                    let has_comma = index_of(s, ',') < n;
                    proof {
                        lemma_first_index(s@, ',');
                    }
                    let more = o == OptName::Join && !has_comma;
                    self.add_values(o, s);
                    self.pending = if more {
                        Some(o)
                    } else {
                        None
                    };
                    Ok(())
                },
            }
        }
    }

    fn finish_check(&self, join_required: bool) -> (r: Option<CliError>)
        ensures
            match finish_check(self.view(), join_required) {
                Some(e) => r is Some && error_view(r->Some_0) == e,
                None => r is None,
            },
    {
        if self.listen_uses > 1 {
            Some(err(ErrorKind::UnexpectedMultipleUsage, String::from_str("--listen-addr")))
        } else if self.pg_uses > 1 {
            Some(err(ErrorKind::UnexpectedMultipleUsage, String::from_str("--pg-addr")))
        } else if self.listen_uses == 1 && self.listen.len() == 0 {
            Some(err(ErrorKind::EmptyValue, String::from_str("--listen-addr")))
        } else if self.pg_uses == 1 && self.pg.len() == 0 {
            Some(err(ErrorKind::EmptyValue, String::from_str("--pg-addr")))
        } else if self.join_uses == 1 && self.join.len() == 0 {
            Some(err(ErrorKind::EmptyValue, String::from_str("--join")))
        } else if join_required && self.join_uses == 0 {
            Some(err(ErrorKind::MissingRequiredArgument, String::from_str("--join")))
        } else {
            None
        }
    }
}

fn first_or(v: &Vec<String>, default: &str) -> (r: String)
    ensures
        r@ == value_or(strings_view(v@), default@),
{
    if v.len() == 0 {
        String::from_str(default)
    } else {
        v[0].clone()
    }
}

impl Opts {
    /// Parses a command line; the first argument is the program's name.
    pub fn try_parse_from(args: Vec<String>) -> (r: Result<Opts, CliError>)
        ensures
            match parse_spec(strings_view(args@)) {
                Ok(c) => r is Ok && r->Ok_0@ == c,
                Err(e) => r is Err && error_view(r->Err_0) == e,
            },
    {
        let ghost argv = strings_view(args@);
        let n = args.len();
        if n < 2 {
            return Err(err(ErrorKind::MissingSubcommand, String::new()));
        }
        let sub = args[1].as_str();
        assert(sub@ == argv[1]);
        let is_start = str_eq(sub, "start");
        let is_single = str_eq(sub, "start-single-node");
        let is_shell = str_eq(sub, "shell");
        if is_start || is_single || is_shell {
            let takes_options = !is_shell;
            let takes_join = is_start;
            let mut st = Scan {
                listen_uses: 0,
                pg_uses: 0,
                join_uses: 0,
                listen: Vec::new(),
                pg: Vec::new(),
                join: Vec::new(),
                pending: None,
                trailing: false,
            };
            assert(strings_view(st.listen@) =~= Seq::<Seq<char>>::empty());
            assert(strings_view(st.pg@) =~= Seq::<Seq<char>>::empty());
            assert(strings_view(st.join@) =~= Seq::<Seq<char>>::empty());
            assert(st.view() == scan_start());
            let mut i: usize = 2;
            assert(argv.skip(2) =~= argv.skip(i as int));
            while i < n
                invariant
                    n == args@.len(),
                    argv == strings_view(args@),
                    2 <= i <= n,
                    st.bounded(i as nat),
                    is_start == (argv[1] == "start"@),
                    is_single == (argv[1] == "start-single-node"@),
                    is_shell == (argv[1] == "shell"@),
                    is_start || is_single || is_shell,
                    takes_options == !is_shell,
                    takes_join == is_start,
                    scan_args(scan_start(), argv.skip(2), takes_options, takes_join) == scan_args(
                        st.view(),
                        argv.skip(i as int),
                        takes_options,
                        takes_join,
                    ),
                decreases n - i,
            {
                let ghost rest = argv.skip(i as int);
                assert(rest[0] == args@[i as int]@);
                assert(rest.drop_first() =~= argv.skip(i + 1));
                match st.scan_arg(&args[i], takes_options, takes_join) {
                    Ok(()) => {},
                    Err(e) => {
                        return Err(e);
                    },
                }
                i = i + 1;
            }
            assert(argv.skip(i as int) =~= Seq::<Seq<char>>::empty());
            match st.finish_check(takes_join) {
                Some(e) => {
                    return Err(e);
                },
                None => {},
            }
            let listen_addr = first_or(&st.listen, DEFAULT_LISTEN_ADDR);
            let pg_addr = first_or(&st.pg, DEFAULT_PG_ADDR);
            let conn = ConnConfig { listen_addr, pg_addr };
            let cmd = if is_start {
                Cmd::Start(CmdStart { conn, join: st.join })
            } else if is_shell {
                Cmd::Shell
            } else {
                Cmd::StartSingleNode(CmdStartSingleNode { conn })
            };
            Ok(Opts { cmd })
        } else {
            let m = sub.unicode_len();
            if str_eq(sub, "help") || str_eq(sub, "--help") || (m >= 2 && sub.get_char(0) == '-'
                && sub.get_char(1) == 'h') {
                Err(err(ErrorKind::DisplayHelp, String::new()))
            } else if m >= 2 && sub.get_char(0) == '-' {
                Err(err(ErrorKind::UnknownArgument, args[1].clone()))
            } else {
                Err(err(ErrorKind::InvalidSubcommand, args[1].clone()))
            }
        }
    }
}

// ---------------------------------------------------------------------------
// Laws
// ---------------------------------------------------------------------------

/// The pieces joined with `d` between them.
pub open spec fn join_with(pieces: Seq<Seq<char>>, d: char) -> Seq<char>
    decreases pieces.len(),
{
    if pieces.len() <= 1 {
        if pieces.len() == 1 {
            pieces[0]
        } else {
            seq![]
        }
    } else {
        pieces[0].push(d) + join_with(pieces.drop_first(), d)
    }
}

/// Splitting at `d` undoes joining with `d` when no piece holds `d`.
pub proof fn lemma_split_join(pieces: Seq<Seq<char>>, d: char)
    requires
        pieces.len() > 0,
        forall|i: int| 0 <= i < pieces.len() ==> !(#[trigger] pieces[i]).contains(d),
    ensures
        split_at_delim(join_with(pieces, d), d) == pieces,
    decreases pieces.len(),
{
    let first = pieces[0];
    lemma_first_index(first, d);
    if pieces.len() == 1 {
        assert(first_index(first, d) == first.len());
        assert(seq![first] =~= pieces);
    } else {
        let rest = pieces.drop_first();
        let s = join_with(pieces, d);
        assert forall|i: int| 0 <= i < rest.len() implies !(#[trigger] rest[i]).contains(d) by {
            assert(rest[i] == pieces[i + 1]);
        }
        lemma_split_join(rest, d);
        assert forall|j: int| 0 <= j < first.len() implies s[j] != d by {
            assert(s[j] == first[j]);
            if first[j] == d {
                assert(first.contains(d));
            }
        }
        assert(s[first.len() as int] == d);
        lemma_first_index_at(s, d, first.len() as int);
        assert(s.take(first.len() as int) =~= first);
        assert(s.skip(first.len() + 1int) =~= join_with(rest, d));
        assert(seq![first] + rest =~= pieces);
    }
}

/// A long option written as `--name=value`.
pub open spec fn long_arg(name: Seq<char>, value: Seq<char>) -> Seq<char> {
    "--"@ + name + "="@ + value
}

proof fn lemma_long_arg(name: Seq<char>, value: Seq<char>)
    requires
        name.len() > 0,
        !name.contains('='),
    ensures
        is_flag(long_arg(name, value)),
        is_long(long_arg(name, value)),
        long_arg(name, value) != "--"@,
        long_name(long_arg(name, value)) == name,
        long_value(long_arg(name, value)) == Some(value),
{
    reveal_strlit("--");
    reveal_strlit("=");
    let a = long_arg(name, value);
    let body = a.skip(2);
    assert(body =~= name + "="@ + value);
    assert forall|j: int| 0 <= j < name.len() implies body[j] != '=' by {
        assert(body[j] == name[j]);
        if name[j] == '=' {
            assert(name.contains('='));
        }
    }
    assert(body[name.len() as int] == '=');
    lemma_first_index_at(body, '=', name.len() as int);
    assert(body.take(name.len() as int) =~= name);
    assert(body.skip(name.len() + 1int) =~= value);
    assert(a.len() != 2);
}

proof fn lemma_subcommand_names()
    ensures
        "start"@ != "shell"@,
        "start"@ != "start-single-node"@,
        "start-single-node"@ != "shell"@,
        "listen-addr"@.len() > 0,
        !"listen-addr"@.contains('='),
        "pg-addr"@.len() > 0,
        !"pg-addr"@.contains('='),
        "join"@.len() > 0,
        !"join"@.contains('='),
        "listen-addr"@ != "help"@,
        "pg-addr"@ != "help"@,
        "join"@ != "help"@,
        "pg-addr"@ != "listen-addr"@,
        "join"@ != "listen-addr"@,
        "join"@ != "pg-addr"@,
{
    reveal_strlit("start");
    reveal_strlit("shell");
    reveal_strlit("start-single-node");
    reveal_strlit("listen-addr");
    reveal_strlit("pg-addr");
    reveal_strlit("join");
    reveal_strlit("help");
    assert("start"@.len() != "shell"@.len() || "start"@[1] != "shell"@[1]);
    assert("start"@.len() != "start-single-node"@.len());
    assert("start-single-node"@.len() != "shell"@.len());
    assert(!"listen-addr"@.contains('=')) by {
        assert forall|i: int| 0 <= i < "listen-addr"@.len() implies "listen-addr"@[i] != '=' by {}
    }
    assert(!"pg-addr"@.contains('=')) by {
        assert forall|i: int| 0 <= i < "pg-addr"@.len() implies "pg-addr"@[i] != '=' by {}
    }
    assert(!"join"@.contains('=')) by {
        assert forall|i: int| 0 <= i < "join"@.len() implies "join"@[i] != '=' by {}
    }
    assert("listen-addr"@.len() != "help"@.len());
    assert("pg-addr"@.len() != "help"@.len());
    assert("join"@[0] != "help"@[0]);
    assert("pg-addr"@.len() != "listen-addr"@.len());
    assert("join"@.len() != "listen-addr"@.len());
    assert("join"@.len() != "pg-addr"@.len());
}

proof fn lemma_scan_long_option(
    st: ScanState,
    name: Seq<char>,
    o: OptName,
    value: Seq<char>,
    takes_join: bool,
)
    requires
        !st.trailing,
        st.pending is None,
        name.len() > 0,
        !name.contains('='),
        name != "help"@,
        option_named(name, takes_join) == Some(o),
    ensures
        scan_arg(st, long_arg(name, value), true, takes_join) == Ok::<
            ScanState,
            (ErrorKind, Seq<char>),
        >(use_option(st, o, Some(value))),
{
    lemma_long_arg(name, value);
    assert(ScanState { pending: None, ..st } == st);
}

proof fn lemma_scan_start_options(listen_addr: Seq<char>, pg_addr: Seq<char>, joined: Seq<char>)
    ensures
        scan_args(
            scan_start(),
            seq![
                long_arg("listen-addr"@, listen_addr),
                long_arg("pg-addr"@, pg_addr),
                long_arg("join"@, joined),
            ],
            true,
            true,
        ) == Ok::<ScanState, (ErrorKind, Seq<char>)>(
            use_option(
                use_option(
                    use_option(scan_start(), OptName::ListenAddr, Some(listen_addr)),
                    OptName::PgAddr,
                    Some(pg_addr),
                ),
                OptName::Join,
                Some(joined),
            ),
        ),
{
    lemma_subcommand_names();
    let rest = seq![
        long_arg("listen-addr"@, listen_addr),
        long_arg("pg-addr"@, pg_addr),
        long_arg("join"@, joined),
    ];
    let st0 = scan_start();
    let st1 = use_option(st0, OptName::ListenAddr, Some(listen_addr));
    let st2 = use_option(st1, OptName::PgAddr, Some(pg_addr));
    let st3 = use_option(st2, OptName::Join, Some(joined));
    lemma_scan_long_option(st0, "listen-addr"@, OptName::ListenAddr, listen_addr, true);
    lemma_scan_long_option(st1, "pg-addr"@, OptName::PgAddr, pg_addr, true);
    lemma_scan_long_option(st2, "join"@, OptName::Join, joined, true);
    let r1 = rest.drop_first();
    let r2 = r1.drop_first();
    let r3 = r2.drop_first();
    assert(r3 =~= Seq::<Seq<char>>::empty());
    assert(r1[0] == rest[1]);
    assert(r2[0] == rest[2]);
    assert(scan_args(st3, r3, true, true) == Ok::<ScanState, (ErrorKind, Seq<char>)>(st3));
    assert(scan_args(st2, r2, true, true) == Ok::<ScanState, (ErrorKind, Seq<char>)>(st3));
    assert(scan_args(st1, r1, true, true) == Ok::<ScanState, (ErrorKind, Seq<char>)>(st3));
}

/// A `start` command line written in full reads back as the command it
/// states: its addresses, and the nodes to join, given as one comma-separated
/// list of addresses that hold no comma.
pub proof fn lemma_start_roundtrip(
    program: Seq<char>,
    listen_addr: Seq<char>,
    pg_addr: Seq<char>,
    join: Seq<Seq<char>>,
)
    requires
        join.len() > 0,
        forall|i: int| 0 <= i < join.len() ==> !(#[trigger] join[i]).contains(','),
    ensures
        parse_spec(
            seq![
                program,
                "start"@,
                long_arg("listen-addr"@, listen_addr),
                long_arg("pg-addr"@, pg_addr),
                long_arg("join"@, join_with(join, ',')),
            ],
        ) == Ok::<CmdLine, (ErrorKind, Seq<char>)>(CmdLine::Start { listen_addr, pg_addr, join }),
{
    lemma_subcommand_names();
    lemma_split_join(join, ',');
    let joined = join_with(join, ',');
    let args = seq![
        program,
        "start"@,
        long_arg("listen-addr"@, listen_addr),
        long_arg("pg-addr"@, pg_addr),
        long_arg("join"@, joined),
    ];
    assert(args.skip(2) =~= seq![
        long_arg("listen-addr"@, listen_addr),
        long_arg("pg-addr"@, pg_addr),
        long_arg("join"@, joined),
    ]);
    lemma_scan_start_options(listen_addr, pg_addr, joined);
    let st3 = use_option(
        use_option(
            use_option(scan_start(), OptName::ListenAddr, Some(listen_addr)),
            OptName::PgAddr,
            Some(pg_addr),
        ),
        OptName::Join,
        Some(joined),
    );
    assert(st3.listen =~= seq![listen_addr]);
    assert(st3.pg =~= seq![pg_addr]);
    assert(st3.join =~= join);
    assert(finish_check(st3, true) is None);
    assert(args[1] == "start"@);
}

/// `start` without `--join` is refused for the missing option.
pub proof fn lemma_start_requires_join(program: Seq<char>, listen_addr: Seq<char>)
    ensures
        parse_spec(seq![program, "start"@, long_arg("listen-addr"@, listen_addr)]) == Err::<
            CmdLine,
            (ErrorKind, Seq<char>),
        >((ErrorKind::MissingRequiredArgument, "--join"@)),
{
    lemma_subcommand_names();
    let args = seq![program, "start"@, long_arg("listen-addr"@, listen_addr)];
    let rest = args.skip(2);
    let st1 = use_option(scan_start(), OptName::ListenAddr, Some(listen_addr));
    lemma_scan_long_option(scan_start(), "listen-addr"@, OptName::ListenAddr, listen_addr, true);
    assert(rest.drop_first() =~= Seq::<Seq<char>>::empty());
    assert(scan_args(st1, rest.drop_first(), true, true) == Ok::<ScanState, (ErrorKind, Seq<char>)>(
        st1,
    ));
    assert(scan_args(scan_start(), rest, true, true) == Ok::<ScanState, (ErrorKind, Seq<char>)>(
        st1,
    ));
    assert(st1.listen =~= seq![listen_addr]);
    assert(args[1] == "start"@);
}

/// `start-single-node` alone listens on the default addresses.
pub proof fn lemma_single_node_defaults(program: Seq<char>)
    ensures
        parse_spec(seq![program, "start-single-node"@]) == Ok::<CmdLine, (ErrorKind, Seq<char>)>(
            CmdLine::StartSingleNode {
                listen_addr: DEFAULT_LISTEN_ADDR@,
                pg_addr: DEFAULT_PG_ADDR@,
            },
        ),
{
    lemma_subcommand_names();
    let args = seq![program, "start-single-node"@];
    assert(args.skip(2) =~= Seq::<Seq<char>>::empty());
}

/// `start-single-node` with both addresses given listens on exactly those
/// addresses: a default stands only for an option that is absent.
pub proof fn lemma_single_node_addresses(program: Seq<char>, listen_addr: Seq<char>, pg_addr: Seq<char>)
    ensures
        parse_spec(
            seq![
                program,
                "start-single-node"@,
                long_arg("listen-addr"@, listen_addr),
                long_arg("pg-addr"@, pg_addr),
            ],
        ) == Ok::<CmdLine, (ErrorKind, Seq<char>)>(
            CmdLine::StartSingleNode { listen_addr, pg_addr },
        ),
{
    lemma_subcommand_names();
    let args = seq![
        program,
        "start-single-node"@,
        long_arg("listen-addr"@, listen_addr),
        long_arg("pg-addr"@, pg_addr),
    ];
    let rest = args.skip(2);
    assert(rest =~= seq![long_arg("listen-addr"@, listen_addr), long_arg("pg-addr"@, pg_addr)]);
    let st0 = scan_start();
    let st1 = use_option(st0, OptName::ListenAddr, Some(listen_addr));
    let st2 = use_option(st1, OptName::PgAddr, Some(pg_addr));
    lemma_scan_long_option(st0, "listen-addr"@, OptName::ListenAddr, listen_addr, false);
    lemma_scan_long_option(st1, "pg-addr"@, OptName::PgAddr, pg_addr, false);
    let r1 = rest.drop_first();
    let r2 = r1.drop_first();
    assert(r2 =~= Seq::<Seq<char>>::empty());
    assert(r1[0] == rest[1]);
    assert(scan_args(st2, r2, true, false) == Ok::<ScanState, (ErrorKind, Seq<char>)>(st2));
    assert(scan_args(st1, r1, true, false) == Ok::<ScanState, (ErrorKind, Seq<char>)>(st2));
    assert(scan_args(st0, rest, true, false) == Ok::<ScanState, (ErrorKind, Seq<char>)>(st2));
    assert(st2.listen =~= seq![listen_addr]);
    assert(st2.pg =~= seq![pg_addr]);
    assert(finish_check(st2, false) is None);
    assert(args[1] == "start-single-node"@);
}

/// `start-single-node` with only `--listen-addr` given listens on that
/// address, and serves PostgreSQL on the default one.
pub proof fn lemma_single_node_listen_addr(program: Seq<char>, listen_addr: Seq<char>)
    ensures
        parse_spec(seq![program, "start-single-node"@, long_arg("listen-addr"@, listen_addr)])
            == Ok::<CmdLine, (ErrorKind, Seq<char>)>(
            CmdLine::StartSingleNode { listen_addr, pg_addr: DEFAULT_PG_ADDR@ },
        ),
{
    lemma_subcommand_names();
    let args = seq![program, "start-single-node"@, long_arg("listen-addr"@, listen_addr)];
    let rest = args.skip(2);
    assert(rest =~= seq![long_arg("listen-addr"@, listen_addr)]);
    let st0 = scan_start();
    let st1 = use_option(st0, OptName::ListenAddr, Some(listen_addr));
    lemma_scan_long_option(st0, "listen-addr"@, OptName::ListenAddr, listen_addr, false);
    assert(rest.drop_first() =~= Seq::<Seq<char>>::empty());
    assert(scan_args(st1, rest.drop_first(), true, false) == Ok::<ScanState, (ErrorKind, Seq<char>)>(
        st1,
    ));
    assert(scan_args(st0, rest, true, false) == Ok::<ScanState, (ErrorKind, Seq<char>)>(st1));
    assert(st1.listen =~= seq![listen_addr]);
    assert(st1.pg.len() == 0);
    assert(finish_check(st1, false) is None);
    assert(args[1] == "start-single-node"@);
}

/// `start-single-node` with only `--pg-addr` given serves PostgreSQL on that
/// address, and listens on the default one.
pub proof fn lemma_single_node_pg_addr(program: Seq<char>, pg_addr: Seq<char>)
    ensures
        parse_spec(seq![program, "start-single-node"@, long_arg("pg-addr"@, pg_addr)])
            == Ok::<CmdLine, (ErrorKind, Seq<char>)>(
            CmdLine::StartSingleNode { listen_addr: DEFAULT_LISTEN_ADDR@, pg_addr },
        ),
{
    lemma_subcommand_names();
    let args = seq![program, "start-single-node"@, long_arg("pg-addr"@, pg_addr)];
    let rest = args.skip(2);
    assert(rest =~= seq![long_arg("pg-addr"@, pg_addr)]);
    let st0 = scan_start();
    let st1 = use_option(st0, OptName::PgAddr, Some(pg_addr));
    lemma_scan_long_option(st0, "pg-addr"@, OptName::PgAddr, pg_addr, false);
    assert(rest.drop_first() =~= Seq::<Seq<char>>::empty());
    assert(scan_args(st1, rest.drop_first(), true, false) == Ok::<ScanState, (ErrorKind, Seq<char>)>(
        st1,
    ));
    assert(scan_args(st0, rest, true, false) == Ok::<ScanState, (ErrorKind, Seq<char>)>(st1));
    assert(st1.pg =~= seq![pg_addr]);
    assert(st1.listen.len() == 0);
    assert(finish_check(st1, false) is None);
    assert(args[1] == "start-single-node"@);
}

/// An option's value may also follow it as the next argument:
/// `start-single-node --listen-addr <L> --pg-addr <P>` listens on `L` and
/// serves PostgreSQL on `P`, for any `L` and `P` that do not look like
/// options.
pub proof fn lemma_single_node_separate_values(
    program: Seq<char>,
    listen_addr: Seq<char>,
    pg_addr: Seq<char>,
)
    requires
        !is_flag(listen_addr),
        !is_flag(pg_addr),
    ensures
        parse_spec(
            seq![
                program,
                "start-single-node"@,
                "--listen-addr"@,
                listen_addr,
                "--pg-addr"@,
                pg_addr,
            ],
        ) == Ok::<CmdLine, (ErrorKind, Seq<char>)>(
            CmdLine::StartSingleNode { listen_addr, pg_addr },
        ),
{
    lemma_subcommand_names();
    reveal_strlit("--listen-addr");
    reveal_strlit("--pg-addr");
    reveal_strlit("listen-addr");
    reveal_strlit("pg-addr");
    reveal_strlit("--");
    reveal_strlit("help");
    let args = seq![
        program,
        "start-single-node"@,
        "--listen-addr"@,
        listen_addr,
        "--pg-addr"@,
        pg_addr,
    ];
    let rest = args.skip(2);
    assert(rest =~= seq!["--listen-addr"@, listen_addr, "--pg-addr"@, pg_addr]);
    // `--listen-addr` alone: the option waits for its value.
    let a0 = "--listen-addr"@;
    assert(a0.skip(2) =~= "listen-addr"@);
    lemma_first_index_at("listen-addr"@, '=', "listen-addr"@.len() as int);
    assert(long_name(a0) =~= "listen-addr"@);
    assert(long_value(a0) is None);
    assert(a0 != "--"@);
    let st0 = scan_start();
    let st1 = use_option(st0, OptName::ListenAddr, None);
    assert(ScanState { pending: None, ..st0 } == st0);
    assert(scan_arg(st0, a0, true, false) == Ok::<ScanState, (ErrorKind, Seq<char>)>(st1));
    // its value
    let st2 = ScanState { pending: None, ..add_values(st1, OptName::ListenAddr, seq![listen_addr]) };
    assert(listen_addr != "--"@);
    assert(scan_arg(st1, listen_addr, true, false) == Ok::<ScanState, (ErrorKind, Seq<char>)>(st2));
    // `--pg-addr` alone
    let a2 = "--pg-addr"@;
    assert(a2.skip(2) =~= "pg-addr"@);
    lemma_first_index_at("pg-addr"@, '=', "pg-addr"@.len() as int);
    assert(long_name(a2) =~= "pg-addr"@);
    assert(long_value(a2) is None);
    assert(a2 != "--"@);
    let st3 = use_option(st2, OptName::PgAddr, None);
    assert(ScanState { pending: None, ..st2 } == st2);
    assert(scan_arg(st2, a2, true, false) == Ok::<ScanState, (ErrorKind, Seq<char>)>(st3));
    let st4 = ScanState { pending: None, ..add_values(st3, OptName::PgAddr, seq![pg_addr]) };
    assert(pg_addr != "--"@);
    assert(scan_arg(st3, pg_addr, true, false) == Ok::<ScanState, (ErrorKind, Seq<char>)>(st4));
    let r1 = rest.drop_first();
    let r2 = r1.drop_first();
    let r3 = r2.drop_first();
    let r4 = r3.drop_first();
    assert(r4 =~= Seq::<Seq<char>>::empty());
    assert(r1[0] == listen_addr);
    assert(r2[0] == a2);
    assert(r3[0] == pg_addr);
    assert(scan_args(st4, r4, true, false) == Ok::<ScanState, (ErrorKind, Seq<char>)>(st4));
    assert(scan_args(st3, r3, true, false) == Ok::<ScanState, (ErrorKind, Seq<char>)>(st4));
    assert(scan_args(st2, r2, true, false) == Ok::<ScanState, (ErrorKind, Seq<char>)>(st4));
    assert(scan_args(st1, r1, true, false) == Ok::<ScanState, (ErrorKind, Seq<char>)>(st4));
    assert(scan_args(st0, rest, true, false) == Ok::<ScanState, (ErrorKind, Seq<char>)>(st4));
    assert(st4.listen =~= seq![listen_addr]);
    assert(st4.pg =~= seq![pg_addr]);
    assert(finish_check(st4, false) is None);
    assert(args[1] == "start-single-node"@);
}

} // verus!
