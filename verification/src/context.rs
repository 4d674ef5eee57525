//! Parsing a command line against a parser.
use vstd::prelude::*;
use crate::action::{Action, ParseResult, ParseResultV, Value, ValueV, copy_values, view_values};
use crate::parser::{ArgumentKind, ArgumentParser, ParserV, lookup_long, lookup_short, map_get, spec_kind};
use crate::text::{concat, owned, push_char, show_names, show_names_exec, view_strings};
use crate::help::{concat_all, error_text, help_text, lemma_concat_all_step};
use vstd::string::*;

verus! {

/// The state of a parse.
pub struct Context {
    /// Which variables something on the command line or in the environment has set.
    pub set_vars: Vec<bool>,
    /// The arguments collected so far for each list option, in the order the
    /// options first occurred.
    pub list_options: Vec<(usize, Vec<String>)>,
    /// The arguments collected so far for the catch-all argument.
    pub list_arguments: Vec<String>,
    /// The positional arguments, in order.
    pub arguments: Vec<String>,
    /// The position of the next command-line word.
    pub pos: usize,
    /// The values of the variables.
    pub values: Vec<Value>,
    /// The warnings to print.
    pub warnings: Vec<String>,
}

#[verifier::ext_equal]
pub struct CtxV {
    pub set_vars: Seq<bool>,
    pub list_options: Seq<(usize, Seq<Seq<char>>)>,
    pub list_arguments: Seq<Seq<char>>,
    pub arguments: Seq<Seq<char>>,
    pub pos: nat,
    pub values: Seq<ValueV>,
    pub warnings: Seq<Seq<char>>,
}

pub open spec fn view_lists(l: Seq<(usize, Vec<String>)>) -> Seq<(usize, Seq<Seq<char>>)> {
    l.map_values(|e: (usize, Vec<String>)| (e.0, view_strings(e.1@)))
}

impl View for Context {
    type V = CtxV;

    open spec fn view(&self) -> CtxV {
        CtxV {
            set_vars: self.set_vars@,
            list_options: view_lists(self.list_options@),
            list_arguments: view_strings(self.list_arguments@),
            arguments: view_strings(self.arguments@),
            pos: self.pos as nat,
            values: view_values(self.values@),
            warnings: view_strings(self.warnings@),
        }
    }
}

/// The position of the entry of option `k` in the list table, or -1.
pub open spec fn list_index(l: Seq<(usize, Seq<Seq<char>>)>, k: usize) -> int
    decreases l.len(),
{
    if l.len() == 0 {
        -1
    } else if l.last().0 == k {
        l.len() - 1
    } else {
        list_index(l.drop_last(), k)
    }
}

pub proof fn lemma_list_index_range(l: Seq<(usize, Seq<Seq<char>>)>, k: usize)
    ensures
        -1 <= list_index(l, k) < l.len(),
        list_index(l, k) >= 0 ==> l[list_index(l, k)].0 == k,
    decreases l.len(),
{
    if l.len() > 0 && l.last().0 != k {
        lemma_list_index_range(l.drop_last(), k);
    }
}

/// Appends `vs` to the arguments collected for option `k`.
pub open spec fn extend_list(
    l: Seq<(usize, Seq<Seq<char>>)>,
    k: usize,
    vs: Seq<Seq<char>>,
) -> Seq<(usize, Seq<Seq<char>>)> {
    let i = list_index(l, k);
    if i >= 0 {
        l.update(i, (k, l[i].1 + vs))
    } else {
        l.push((k, vs))
    }
}

impl CtxV {
    /// Records that variable `v` (if any) was set.
    pub open spec fn mark(self, v: Option<usize>) -> CtxV {
        match v {
            Some(i) => CtxV { set_vars: self.set_vars.update(i as int, true), ..self },
            None => self,
        }
    }

    pub open spec fn with_values(self, values: Seq<ValueV>) -> CtxV {
        CtxV { values, ..self }
    }

    pub open spec fn advance(self, n: nat) -> CtxV {
        CtxV { pos: self.pos + n, ..self }
    }

    pub open spec fn postpone(self, a: Seq<char>) -> CtxV {
        CtxV { arguments: self.arguments.push(a), ..self }
    }

    /// All words from the current position on become positional arguments.
    pub open spec fn postpone_rest(self, args: Seq<Seq<char>>) -> CtxV {
        CtxV {
            arguments: self.arguments + args.subrange(self.pos as int, args.len() as int),
            pos: args.len(),
            ..self
        }
    }

    pub open spec fn extend(self, k: usize, vs: Seq<Seq<char>>) -> CtxV {
        CtxV { list_options: extend_list(self.list_options, k, vs), ..self }
    }

    /// The state a parse starts from: nothing set, the initial values.
    pub open spec fn initial(p: ParserV) -> CtxV {
        CtxV {
            set_vars: Seq::new(p.vars.len(), |i: int| false),
            list_options: Seq::empty(),
            list_arguments: Seq::empty(),
            arguments: Seq::empty(),
            pos: 0,
            values: p.values,
            warnings: Seq::empty(),
        }
    }
}

/// The word starts with `-`.
pub open spec fn starts_with_dash(a: Seq<char>) -> bool {
    a.len() >= 1 && a[0] == '-'
}

/// How many words from `pos` on do not start with `-`.
pub open spec fn greedy_count(args: Seq<Seq<char>>, pos: int) -> nat
    decreases args.len() - pos,
{
    if pos < 0 || pos >= args.len() || starts_with_dash(args[pos]) {
        0
    } else {
        1 + greedy_count(args, pos + 1)
    }
}

/// The position of the first `c` in `a`, or -1.
pub open spec fn char_index(a: Seq<char>, c: char) -> int
    decreases a.len(),
{
    if a.len() == 0 {
        -1
    } else if a[0] == c {
        0
    } else {
        let r = char_index(a.drop_first(), c);
        if r < 0 {
            -1
        } else {
            r + 1
        }
    }
}

/// A long option word split at its first `=` into name and value.
pub open spec fn split_at_eq(a: Seq<char>) -> (Seq<char>, Option<Seq<char>>) {
    let i = char_index(a, '=');
    if i >= 0 {
        (a.take(i), Some(a.skip(i + 1)))
    } else {
        (a, None)
    }
}

pub open spec fn requires_argument_msg(names: Seq<Seq<char>>) -> Seq<char> {
    "Option "@ + show_names(names) + " requires an argument"@
}

pub open spec fn no_argument_msg(name: Seq<char>) -> Seq<char> {
    "Option "@ + name + " does not accept an argument"@
}

pub open spec fn unknown_option_msg(arg: Seq<char>) -> Seq<char> {
    "Unknown option "@ + arg
}

pub open spec fn unknown_short_msg(c: char) -> Seq<char> {
    "Unknown short option \""@ + seq![c] + "\""@
}

pub open spec fn unexpected_argument_msg(arg: Seq<char>) -> Seq<char> {
    "Unexpected argument "@ + arg
}

pub open spec fn env_warning(name: Seq<char>, err: Seq<char>) -> Seq<char> {
    "WARNING: Environment variable "@ + name + ": "@ + err + "\n"@
}

/// An option that takes arguments is given `optarg` (from `--name=value` or
/// `-xvalue`) or else takes the next word.  A `Many` option goes on taking
/// the words that follow, up to one that starts with `-`.
pub open spec fn spec_parse_option(
    p: ParserV,
    args: Seq<Seq<char>>,
    s: CtxV,
    oi: usize,
    optarg: Option<Seq<char>>,
) -> (CtxV, ParseResultV) {
    let opt = p.options[oi as int];
    let (value, s1) = match optarg {
        Some(v) => (Some(v), s),
        None => if s.pos < args.len() {
            (Some(args[s.pos as int]), s.advance(1))
        } else {
            (None, s)
        },
    };
    match value {
        None => (
            s1,
            if opt.action is Many {
                ParseResultV::Parsed
            } else {
                ParseResultV::Error(requires_argument_msg(opt.names))
            },
        ),
        Some(v) => {
            let s2 = s1.mark(opt.varid);
            match opt.action {
                Action::Single(a) => {
                    let (vals, r) = a.spec_parse_arg(v, s2.values);
                    (s2.with_values(vals), r)
                },
                Action::Push(_) => (s2.extend(oi, seq![v]), ParseResultV::Parsed),
                Action::Many(_) => {
                    let s3 = s2.extend(oi, seq![v]);
                    if optarg is Some {
                        (s3, ParseResultV::Parsed)
                    } else {
                        let n = greedy_count(args, s3.pos as int);
                        (
                            s3.extend(oi, args.subrange(s3.pos as int, (s3.pos + n) as int)).advance(n),
                            ParseResultV::Parsed,
                        )
                    }
                },
                Action::Flag(_) => (s2, ParseResultV::Parsed),
            }
        },
    }
}

/// `--name` or `--name=value`.
pub open spec fn spec_parse_long_option(p: ParserV, args: Seq<Seq<char>>, s: CtxV, arg: Seq<char>) -> (
    CtxV,
    ParseResultV,
) {
    let (name, value) = split_at_eq(arg);
    match map_get(p.long_options, name) {
        None => (s, ParseResultV::Error(unknown_option_msg(arg))),
        Some(oi) => {
            let opt = p.options[oi as int];
            match opt.action {
                Action::Flag(f) => match value {
                    Some(_) => (s, ParseResultV::Error(no_argument_msg(name))),
                    None => {
                        let s1 = s.mark(opt.varid);
                        let (vals, r) = f.spec_parse_flag(s1.values);
                        (s1.with_values(vals), r)
                    },
                },
                _ => spec_parse_option(p, args, s, oi, value),
            }
        },
    }
}

/// The characters of `-abc` from position `k` on: flags are applied in
/// turn; the first option that takes an argument takes the rest of the
/// word, if any, as its argument.
pub open spec fn spec_parse_short_from(
    p: ParserV,
    args: Seq<Seq<char>>,
    s: CtxV,
    arg: Seq<char>,
    k: nat,
) -> (CtxV, ParseResultV)
    decreases arg.len() - k,
{
    if k >= arg.len() {
        (s, ParseResultV::Parsed)
    } else {
        let c = arg[k as int];
        match map_get(p.short_options, c) {
            None => (s, ParseResultV::Error(unknown_short_msg(c))),
            Some(oi) => {
                let opt = p.options[oi as int];
                match opt.action {
                    Action::Flag(f) => {
                        let s1 = s.mark(opt.varid);
                        let (vals, r) = f.spec_parse_flag(s1.values);
                        let s2 = s1.with_values(vals);
                        if r is Parsed {
                            spec_parse_short_from(p, args, s2, arg, k + 1)
                        } else {
                            (s2, r)
                        }
                    },
                    _ => {
                        let value = if k + 1 < arg.len() {
                            Some(arg.subrange((k + 1) as int, arg.len() as int))
                        } else {
                            None
                        };
                        spec_parse_option(p, args, s, oi, value)
                    },
                }
            },
        }
    }
}

pub proof fn lemma_parse_option_pos(
    p: ParserV,
    args: Seq<Seq<char>>,
    s: CtxV,
    oi: usize,
    optarg: Option<Seq<char>>,
)
    requires
        s.pos <= args.len(),
    ensures
        s.pos <= spec_parse_option(p, args, s, oi, optarg).0.pos <= args.len(),
{
    let opt = p.options[oi as int];
    if optarg is None && s.pos < args.len() && opt.action is Many {
        lemma_greedy_count_bound(args, (s.pos + 1) as int);
    }
}

pub proof fn lemma_greedy_count_bound(args: Seq<Seq<char>>, pos: int)
    requires
        0 <= pos <= args.len(),
    ensures
        pos + greedy_count(args, pos) <= args.len(),
    decreases args.len() - pos,
{
    if pos < args.len() && !starts_with_dash(args[pos]) {
        lemma_greedy_count_bound(args, pos + 1);
    }
}

pub proof fn lemma_short_pos(p: ParserV, args: Seq<Seq<char>>, s: CtxV, arg: Seq<char>, k: nat)
    requires
        s.pos <= args.len(),
    ensures
        s.pos <= spec_parse_short_from(p, args, s, arg, k).0.pos <= args.len(),
    decreases arg.len() - k,
{
    if k < arg.len() {
        let c = arg[k as int];
        if let Some(oi) = map_get(p.short_options, c) {
            let opt = p.options[oi as int];
            match opt.action {
                Action::Flag(f) => {
                    let s1 = s.mark(opt.varid);
                    let (vals, r) = f.spec_parse_flag(s1.values);
                    lemma_short_pos(p, args, s1.with_values(vals), arg, k + 1);
                },
                _ => {
                    let value = if k + 1 < arg.len() {
                        Some(arg.subrange((k + 1) as int, arg.len() as int))
                    } else {
                        None
                    };
                    lemma_parse_option_pos(p, args, s, oi, value);
                },
            }
        }
    }
}

pub proof fn lemma_long_pos(p: ParserV, args: Seq<Seq<char>>, s: CtxV, arg: Seq<char>)
    requires
        s.pos <= args.len(),
    ensures
        s.pos <= spec_parse_long_option(p, args, s, arg).0.pos <= args.len(),
{
    let (name, value) = split_at_eq(arg);
    if let Some(oi) = map_get(p.long_options, name) {
        lemma_parse_option_pos(p, args, s, oi, value);
    }
}

/// The loop over the command-line words, from the current position on.
pub open spec fn spec_options_loop(p: ParserV, args: Seq<Seq<char>>, s: CtxV) -> (
    CtxV,
    ParseResultV,
)
    decreases args.len() - s.pos,
{
    if s.pos >= args.len() {
        (s, ParseResultV::Parsed)
    } else {
        let arg = args[s.pos as int];
        let s1 = s.advance(1);
        match spec_kind(arg) {
            ArgumentKind::Positional => {
                let s2 = s1.postpone(arg);
                if p.stop_on_first_argument {
                    (s2.postpone_rest(args), ParseResultV::Parsed)
                } else {
                    spec_options_loop(p, args, s2)
                }
            },
            ArgumentKind::LongOption => {
                proof {
                    lemma_long_pos(p, args, s1, arg);
                }
                let (s2, r) = spec_parse_long_option(p, args, s1, arg);
                if r is Parsed {
                    spec_options_loop(p, args, s2)
                } else {
                    (s2, r)
                }
            },
            ArgumentKind::ShortOption => {
                proof {
                    lemma_short_pos(p, args, s1, arg, 1);
                }
                let (s2, r) = spec_parse_short_from(p, args, s1, arg, 1);
                if r is Parsed {
                    spec_options_loop(p, args, s2)
                } else {
                    (s2, r)
                }
            },
            ArgumentKind::Delimiter => (s1.postpone_rest(args), ParseResultV::Parsed),
        }
    }
}

/// The options phase: the first word (the command name) is skipped, options
/// are applied and positional arguments put aside, in order.
pub open spec fn spec_parse_options(p: ParserV, args: Seq<Seq<char>>, s: CtxV) -> (
    CtxV,
    ParseResultV,
) {
    let s0 = if s.pos < args.len() {
        s.advance(1)
    } else {
        s
    };
    spec_options_loop(p, args, s0)
}

/// The first positional argument from `j` on whose variable is not set yet,
/// or the number of positional arguments.
pub open spec fn next_free(p: ParserV, set_vars: Seq<bool>, j: nat) -> nat
    decreases p.arguments.len() - j,
{
    if j >= p.arguments.len() {
        j
    } else if set_vars[p.arguments[j as int].varid as int] {
        next_free(p, set_vars, j + 1)
    } else {
        j
    }
}

/// The positional phase, from the `i`-th word put aside and the `j`-th
/// positional argument on.  Each word goes to the next positional argument
/// whose variable is not set yet (positional arguments are never gone back
/// to), and once they are used up to the catch-all argument.
pub open spec fn spec_arguments_loop(p: ParserV, s: CtxV, i: nat, j: nat) -> (CtxV, ParseResultV)
    decreases s.arguments.len() - i,
{
    if i >= s.arguments.len() {
        (s, ParseResultV::Parsed)
    } else {
        let arg = s.arguments[i as int];
        let j2 = next_free(p, s.set_vars, j);
        if j2 < p.arguments.len() {
            let a = p.arguments[j2 as int];
            let s1 = s.mark(Some(a.varid));
            match a.action {
                Action::Single(act) => {
                    let (vals, r) = act.spec_parse_arg(arg, s1.values);
                    let s2 = s1.with_values(vals);
                    if r is Parsed {
                        spec_arguments_loop(p, s2, i + 1, j2 + 1)
                    } else {
                        (s2, r)
                    }
                },
                _ => spec_arguments_loop(p, s1, i + 1, j2 + 1),
            }
        } else {
            match p.catchall_argument {
                Some(_) => spec_arguments_loop(
                    p,
                    CtxV { list_arguments: s.list_arguments.push(arg), ..s },
                    i + 1,
                    j2,
                ),
                None => (s, ParseResultV::Error(unexpected_argument_msg(arg))),
            }
        }
    }
}

/// The arguments collected for the catch-all argument are parsed.
pub open spec fn spec_catchall_list(p: ParserV, s: CtxV) -> (CtxV, ParseResultV) {
    if s.list_arguments.len() > 0 {
        match p.catchall_argument {
            Some(c) => match c.action {
                Action::Push(l) => {
                    let (vals, r) = l.spec_parse_args(s.list_arguments, s.values);
                    (s.with_values(vals), r)
                },
                Action::Many(l) => {
                    let (vals, r) = l.spec_parse_args(s.list_arguments, s.values);
                    (s.with_values(vals), r)
                },
                _ => (s, ParseResultV::Parsed),
            },
            None => (s, ParseResultV::Parsed),
        }
    } else {
        (s, ParseResultV::Parsed)
    }
}

/// The list phase, from the `i`-th list option on: each list option parses
/// what it collected, then the catch-all argument does.
pub open spec fn spec_list_loop(p: ParserV, s: CtxV, i: nat) -> (CtxV, ParseResultV)
    decreases s.list_options.len() - i,
{
    if i >= s.list_options.len() {
        spec_catchall_list(p, s)
    } else {
        let (oi, lst) = s.list_options[i as int];
        match p.options[oi as int].action {
            Action::Push(l) => {
                let (vals, r) = l.spec_parse_args(lst, s.values);
                let s2 = s.with_values(vals);
                if r is Parsed {
                    spec_list_loop(p, s2, i + 1)
                } else {
                    (s2, r)
                }
            },
            Action::Many(l) => {
                let (vals, r) = l.spec_parse_args(lst, s.values);
                let s2 = s.with_values(vals);
                if r is Parsed {
                    spec_list_loop(p, s2, i + 1)
                } else {
                    (s2, r)
                }
            },
            _ => spec_list_loop(p, s, i + 1),
        }
    }
}

/// The environment phase, from the `i`-th environment variable on: a
/// variable that is present is parsed into its variable and marks it set;
/// one that does not parse gives a warning.
pub open spec fn spec_env_loop(p: ParserV, env: Seq<Option<Seq<char>>>, s: CtxV, i: nat) -> CtxV
    decreases p.env_vars.len() - i,
{
    if i >= p.env_vars.len() {
        s
    } else {
        let e = p.env_vars[i as int];
        match env[i as int] {
            None => spec_env_loop(p, env, s, i + 1),
            Some(val) => {
                let (vals, r) = e.action.spec_parse_arg(val, s.values);
                match r {
                    ParseResultV::Error(m) => spec_env_loop(
                        p,
                        env,
                        CtxV { warnings: s.warnings.push(env_warning(e.name, m)), ..s },
                        i + 1,
                    ),
                    _ => spec_env_loop(p, env, s.with_values(vals).mark(Some(e.varid)), i + 1),
                }
            },
        }
    }
}

/// The first positional argument from `j` on that writes variable `v`.
pub open spec fn first_argument_for(p: ParserV, v: usize, j: nat) -> Option<nat>
    decreases p.arguments.len() - j,
{
    if j >= p.arguments.len() {
        None
    } else if p.arguments[j as int].varid == v {
        Some(j)
    } else {
        first_argument_for(p, v, j + 1)
    }
}

/// The first option from `j` on that writes variable `v`.
pub open spec fn first_option_for(p: ParserV, v: usize, j: nat) -> Option<nat>
    decreases p.options.len() - j,
{
    if j >= p.options.len() {
        None
    } else if p.options[j as int].varid == Some(v) {
        Some(j)
    } else {
        first_option_for(p, v, j + 1)
    }
}

/// The first environment variable from `j` on that writes variable `v`.
pub open spec fn first_env_for(p: ParserV, v: usize, j: nat) -> Option<nat>
    decreases p.env_vars.len() - j,
{
    if j >= p.env_vars.len() {
        None
    } else if p.env_vars[j as int].varid == v {
        Some(j)
    } else {
        first_env_for(p, v, j + 1)
    }
}

/// The error for a required variable that nothing set, if something could
/// have set it: a positional argument, else an option, else an environment
/// variable.
pub open spec fn missing_msg(p: ParserV, v: usize) -> Option<Seq<char>> {
    match first_argument_for(p, v, 0) {
        Some(j) => Some("Argument "@ + p.arguments[j as int].name + " is required"@),
        None => match first_option_for(p, v, 0) {
            Some(j) => Some("Option "@ + show_names(p.options[j as int].names) + " is required"@),
            None => match first_env_for(p, v, 0) {
                Some(j) => Some("Environment var "@ + p.env_vars[j as int].name + " is required"@),
                None => None,
            },
        },
    }
}

/// The check of required variables, from the `i`-th variable on.
pub open spec fn spec_check_required(p: ParserV, set_vars: Seq<bool>, i: nat) -> ParseResultV
    decreases p.vars.len() - i,
{
    if i >= p.vars.len() {
        ParseResultV::Parsed
    } else {
        let var = p.vars[i as int];
        if var.required && !set_vars[var.id as int] {
            match missing_msg(p, var.id) {
                Some(m) => ParseResultV::Error(m),
                None => spec_check_required(p, set_vars, i + 1),
            }
        } else {
            spec_check_required(p, set_vars, i + 1)
        }
    }
}

/// A whole parse: environment variables, options, positional arguments,
/// lists, required variables, in this order; the first phase that does not
/// end in `Parsed` ends the parse.
pub open spec fn spec_parse(p: ParserV, args: Seq<Seq<char>>, env: Seq<Option<Seq<char>>>) -> (
    CtxV,
    ParseResultV,
) {
    let s1 = spec_env_loop(p, env, CtxV::initial(p), 0);
    let (s2, r2) = spec_parse_options(p, args, s1);
    if !(r2 is Parsed) {
        (s2, r2)
    } else {
        let (s3, r3) = spec_arguments_loop(p, s2, 0, 0);
        if !(r3 is Parsed) {
            (s3, r3)
        } else {
            let (s4, r4) = spec_list_loop(p, s3, 0);
            if !(r4 is Parsed) {
                (s4, r4)
            } else {
                (s4, spec_check_required(p, s4.set_vars, 0))
            }
        }
    }
}

impl CtxV {
    /// The bookkeeping a parse keeps: one flag and one value per variable,
    /// list entries only for options of the parser, a position within the
    /// command line.
    pub open spec fn inv(self, p: ParserV, nargs: nat) -> bool {
        &&& self.set_vars.len() == p.vars.len()
        &&& self.values.len() == p.vars.len()
        &&& self.pos <= nargs
        &&& forall|i: int|
            0 <= i < self.list_options.len() ==> (#[trigger] self.list_options[i]).0
                < p.options.len()
    }
}

pub open spec fn view_env(e: Seq<Option<String>>) -> Seq<Option<Seq<char>>> {
    e.map_values(|o: Option<String>| view_opt_string(o))
}

pub open spec fn view_opt_string(o: Option<String>) -> Option<Seq<char>> {
    match o {
        Some(s) => Some(s@),
        None => None,
    }
}

pub proof fn lemma_list_index_update(l: Seq<(usize, Seq<Seq<char>>)>, k: usize, x: Seq<Seq<char>>)
    requires
        list_index(l, k) >= 0,
    ensures
        list_index(l.update(list_index(l, k), (k, x)), k) == list_index(l, k),
    decreases l.len(),
{
    lemma_list_index_range(l, k);
    let i = list_index(l, k);
    let l2 = l.update(i, (k, x));
    if l.last().0 != k {
        lemma_list_index_range(l.drop_last(), k);
        lemma_list_index_update(l.drop_last(), k, x);
        assert(l2.drop_last() =~= l.drop_last().update(i, (k, x)));
        assert(l2.last() == l.last());
    }
}

pub proof fn lemma_extend_has(l: Seq<(usize, Seq<Seq<char>>)>, k: usize, a: Seq<Seq<char>>)
    ensures
        list_index(extend_list(l, k, a), k) >= 0,
{
    lemma_list_index_range(l, k);
    let i = list_index(l, k);
    if i >= 0 {
        lemma_list_index_update(l, k, l[i].1 + a);
    } else {
        assert(l.push((k, a)).drop_last() == l);
    }
}

pub proof fn lemma_extend_twice(
    l: Seq<(usize, Seq<Seq<char>>)>,
    k: usize,
    a: Seq<Seq<char>>,
    b: Seq<Seq<char>>,
)
    ensures
        extend_list(extend_list(l, k, a), k, b) == extend_list(l, k, a + b),
{
    lemma_list_index_range(l, k);
    let i = list_index(l, k);
    if i >= 0 {
        lemma_list_index_update(l, k, l[i].1 + a);
        assert(l[i].1 + a + b == l[i].1 + (a + b));
        assert(extend_list(extend_list(l, k, a), k, b) =~= extend_list(l, k, a + b));
    } else {
        let l1 = l.push((k, a));
        assert(l1.drop_last() == l);
        assert(list_index(l1, k) == l.len());
        assert(extend_list(extend_list(l, k, a), k, b) =~= extend_list(l, k, a + b));
    }
}

pub proof fn lemma_extend_keys(l: Seq<(usize, Seq<Seq<char>>)>, k: usize, a: Seq<Seq<char>>, n: nat)
    requires
        k < n,
        forall|i: int| 0 <= i < l.len() ==> (#[trigger] l[i]).0 < n,
    ensures
        forall|i: int|
            0 <= i < extend_list(l, k, a).len() ==> (#[trigger] extend_list(l, k, a)[i]).0 < n,
{
    lemma_list_index_range(l, k);
}

fn starts_with_dash_exec(a: &str) -> (r: bool)
    ensures
        r == starts_with_dash(a@),
{
    a.unicode_len() >= 1 && a.get_char(0) == '-'
}

fn concat3(a: &str, b: &str, c: &str) -> (r: String)
    ensures
        r@ == a@ + b@ + c@,
{
    let mut r = concat(a, b);
    r.append(c);
    r
}

pub proof fn lemma_char_index(a: Seq<char>, c: char, i: int)
    requires
        0 <= i <= a.len(),
        forall|j: int| 0 <= j < i ==> a[j] != c,
    ensures
        i < a.len() && a[i] == c ==> char_index(a, c) == i,
        i == a.len() ==> char_index(a, c) == -1,
    decreases i,
{
    if i > 0 {
        lemma_char_index(a.drop_first(), c, i - 1);
    } else if a.len() > 0 {
    }
}

/// Splits a word at its first `=`.
fn split_at_eq_exec(arg: &str) -> (r: (String, Option<String>))
    ensures
        (r.0@, view_opt_string(r.1)) == split_at_eq(arg@),
{
    let n = arg.unicode_len();
    let mut i: usize = 0;
    while i < n && arg.get_char(i) != '='
        invariant
            n == arg@.len(),
            i <= n,
            forall|j: int| 0 <= j < i ==> arg@[j] != '=',
        decreases n - i,
    {
        i = i + 1;
    }
    proof {
        lemma_char_index(arg@, '=', i as int);
    }
    if i < n {
        (owned(arg.substring_char(0, i)), Some(owned(arg.substring_char(i + 1, n))))
    } else {
        proof {
            assert(arg@.subrange(0, n as int) == arg@);
        }
        (owned(arg), None)
    }
}

fn first_argument_for_exec(p: &ArgumentParser, v: usize) -> (r: Option<usize>)
    ensures
        r matches Some(j) ==> first_argument_for(p@, v, 0) == Some(j as nat) && j
            < p@.arguments.len(),
        r is None ==> first_argument_for(p@, v, 0) is None,
{
    let mut j: usize = 0;
    while j < p.arguments.len()
        invariant
            j <= p.arguments.len(),
            first_argument_for(p@, v, j as nat) == first_argument_for(p@, v, 0),
        decreases p.arguments.len() - j,
    {
        assert(p@.arguments[j as int].varid == p.arguments@[j as int].varid);
        if p.arguments[j].varid == v {
            return Some(j);
        }
        j = j + 1;
    }
    None
}

fn first_option_for_exec(p: &ArgumentParser, v: usize) -> (r: Option<usize>)
    ensures
        r matches Some(j) ==> first_option_for(p@, v, 0) == Some(j as nat) && j
            < p@.options.len(),
        r is None ==> first_option_for(p@, v, 0) is None,
{
    let mut j: usize = 0;
    while j < p.options.len()
        invariant
            j <= p.options.len(),
            first_option_for(p@, v, j as nat) == first_option_for(p@, v, 0),
        decreases p.options.len() - j,
    {
        assert(p@.options[j as int].varid == p.options@[j as int].varid);
        match p.options[j].varid {
            Some(w) => {
                if w == v {
                    return Some(j);
                }
            },
            None => {},
        }
        j = j + 1;
    }
    None
}

fn first_env_for_exec(p: &ArgumentParser, v: usize) -> (r: Option<usize>)
    ensures
        r matches Some(j) ==> first_env_for(p@, v, 0) == Some(j as nat) && j
            < p@.env_vars.len(),
        r is None ==> first_env_for(p@, v, 0) is None,
{
    let mut j: usize = 0;
    while j < p.env_vars.len()
        invariant
            j <= p.env_vars.len(),
            first_env_for(p@, v, j as nat) == first_env_for(p@, v, 0),
        decreases p.env_vars.len() - j,
    {
        assert(p@.env_vars[j as int].varid == p.env_vars@[j as int].varid);
        if p.env_vars[j].varid == v {
            return Some(j);
        }
        j = j + 1;
    }
    None
}

/// The error for a required variable that nothing set.
fn missing_msg_exec(p: &ArgumentParser, v: usize) -> (r: Option<String>)
    ensures
        view_opt_string(r) == missing_msg(p@, v),
{
    match first_argument_for_exec(p, v) {
        Some(j) => {
            assert(p@.arguments[j as int].name == p.arguments@[j as int].name@);
            Some(concat3("Argument ", p.arguments[j].name.as_str(), " is required"))
        },
        None => match first_option_for_exec(p, v) {
            Some(j) => {
                assert(p@.options[j as int].names == view_strings(p.options@[j as int].names@));
                let names = show_names_exec(&p.options[j].names);
                Some(concat3("Option ", names.as_str(), " is required"))
            },
            None => match first_env_for_exec(p, v) {
                Some(j) => {
                    assert(p@.env_vars[j as int].name == p.env_vars@[j as int].name@);
                    Some(concat3("Environment var ", p.env_vars[j].name.as_str(), " is required"))
                },
                None => None,
            },
        },
    }
}

impl Context {
    /// The state a parse starts from.
    pub fn new(p: &ArgumentParser) -> (r: Context)
        requires
            p@.wf(),
        ensures
            r@ == CtxV::initial(p@),
    {
        let mut set_vars: Vec<bool> = Vec::new();
        let mut i: usize = 0;
        while i < p.vars.len()
            invariant
                i <= p.vars.len(),
                set_vars@ == Seq::new(i as nat, |k: int| false),
            decreases p.vars.len() - i,
        {
            set_vars.push(false);
            assert(set_vars@ =~= Seq::new((i + 1) as nat, |k: int| false));
            i = i + 1;
        }
        let r = Context {
            set_vars,
            list_options: Vec::new(),
            list_arguments: Vec::new(),
            arguments: Vec::new(),
            pos: 0,
            values: copy_values(&p.values),
            warnings: Vec::new(),
        };
        assert(r@ =~= CtxV::initial(p@));
        r
    }

    /// The environment phase; `env` holds the value of each environment
    /// variable of the parser, in order, where it is set.
    fn parse_env_vars(&mut self, p: &ArgumentParser, env: &Vec<Option<String>>) -> (r: ParseResult)
        requires
            p@.wf(),
            old(self)@.inv(p@, 0),
            env.len() == p@.env_vars.len(),
        ensures
            final(self)@ == spec_env_loop(p@, view_env(env@), old(self)@, 0),
            final(self)@.inv(p@, 0),
            r@ == ParseResultV::Parsed,
    {
        let ghost target = spec_env_loop(p@, view_env(env@), old(self)@, 0);
        let mut i: usize = 0;
        while i < p.env_vars.len()
            invariant
                i <= p.env_vars.len(),
                env.len() == p@.env_vars.len(),
                p@.wf(),
                self@.inv(p@, 0),
                spec_env_loop(p@, view_env(env@), self@, i as nat) == target,
            decreases p.env_vars.len() - i,
        {
            let e = &p.env_vars[i];
            assert(p@.env_vars[i as int] == e@);
            assert(view_env(env@)[i as int] == view_opt_string(env@[i as int]));
            match &env[i] {
                None => {},
                Some(val) => {
                    let r = e.action.parse_arg(val.as_str(), &mut self.values);
                    match r {
                        ParseResult::Error(m) => {
                            let mut w = concat3("WARNING: Environment variable ", e.name.as_str(), ": ");
                            w.append(m.as_str());
                            w.append("\n");
                            let ghost wv = w@;
                            let ghost ws = self.warnings@;
                            self.warnings.push(w);
                            assert(view_strings(self.warnings@) =~= view_strings(ws).push(wv));
                        },
                        _ => {
                            self.mark(Some(e.varid));
                        },
                    }
                },
            }
            i = i + 1;
        }
        ParseResult::Parsed
    }

    /// The positional phase.
    fn parse_arguments(&mut self, p: &ArgumentParser) -> (r: ParseResult)
        requires
            p@.wf(),
            old(self)@.inv(p@, old(self).pos as nat),
        ensures
            (final(self)@, r@) == spec_arguments_loop(p@, old(self)@, 0, 0),
            final(self)@.inv(p@, old(self).pos as nat),
            final(self).pos == old(self).pos,
    {
        let ghost target = spec_arguments_loop(p@, old(self)@, 0, 0);
        let ghost npos = old(self).pos as nat;
        let mut i: usize = 0;
        let mut j: usize = 0;
        while i < self.arguments.len()
            invariant
                p@.wf(),
                self@.inv(p@, npos),
                self.pos == npos,
                npos == old(self).pos,
                j <= p@.arguments.len(),
                self@.arguments == old(self)@.arguments,
                spec_arguments_loop(p@, self@, i as nat, j as nat) == target,
                target == spec_arguments_loop(p@, old(self)@, 0, 0),
            decreases self.arguments.len() - i,
        {
            let ghost j0 = j;
            while j < p.arguments.len() && self.set_vars[p.arguments[j].varid]
                invariant
                    p@.wf(),
                    self@.inv(p@, npos),
                    j0 <= j <= p@.arguments.len(),
                    next_free(p@, self@.set_vars, j as nat) == next_free(p@, self@.set_vars, j0 as nat),
                decreases p.arguments.len() - j,
            {
                assert(p@.arguments[j as int].wf(p@.vars.len()));
                j = j + 1;
            }
            assert(self@.arguments[i as int] == self.arguments@[i as int]@);
            if j < p.arguments.len() {
                let a = &p.arguments[j];
                assert(p@.arguments[j as int] == a@);
                assert(a@.wf(p@.vars.len()));
                self.mark(Some(a.varid));
                match &a.action {
                    Action::Single(act) => {
                        let r = act.parse_arg(self.arguments[i].as_str(), &mut self.values);
                        if !r.is_parsed() {
                            return r;
                        }
                    },
                    _ => {},
                }
                j = j + 1;
            } else {
                match &p.catchall_argument {
                    Some(_) => {
                        let v = self.arguments[i].clone();
                        let ghost la = self.list_arguments@;
                        self.list_arguments.push(v);
                        assert(view_strings(self.list_arguments@) =~= view_strings(la).push(v@));
                    },
                    None => {
                        return ParseResult::Error(
                            concat("Unexpected argument ", self.arguments[i].as_str()),
                        );
                    },
                }
            }
            i = i + 1;
        }
        ParseResult::Parsed
    }

    /// The list phase.
    fn parse_list_vars(&mut self, p: &ArgumentParser) -> (r: ParseResult)
        requires
            p@.wf(),
            old(self)@.inv(p@, old(self).pos as nat),
        ensures
            (final(self)@, r@) == spec_list_loop(p@, old(self)@, 0),
            final(self)@.inv(p@, old(self).pos as nat),
            final(self).pos == old(self).pos,
    {
        let ghost target = spec_list_loop(p@, old(self)@, 0);
        let ghost npos = old(self).pos as nat;
        let mut i: usize = 0;
        while i < self.list_options.len()
            invariant
                p@.wf(),
                self@.inv(p@, npos),
                self.pos == npos,
                npos == old(self).pos,
                self@.list_options == old(self)@.list_options,
                self@.list_arguments == old(self)@.list_arguments,
                spec_list_loop(p@, self@, i as nat) == target,
                target == spec_list_loop(p@, old(self)@, 0),
            decreases self.list_options.len() - i,
        {
            let oi = self.list_options[i].0;
            assert(self@.list_options[i as int].0 == oi);
            assert(self@.list_options[i as int].1 == view_strings(self.list_options@[i as int].1@));
            let opt = &p.options[oi];
            assert(p@.options[oi as int] == opt@);
            assert(opt@.wf(oi as int, p@.vars.len()));
            match &opt.action {
                Action::Push(l) => {
                    let r = l.parse_args(&self.list_options[i].1, &mut self.values);
                    if !r.is_parsed() {
                        return r;
                    }
                },
                Action::Many(l) => {
                    let r = l.parse_args(&self.list_options[i].1, &mut self.values);
                    if !r.is_parsed() {
                        return r;
                    }
                },
                _ => {},
            }
            i = i + 1;
        }
        if self.list_arguments.len() > 0 {
            match &p.catchall_argument {
                Some(c) => {
                    assert(p@.catchall_argument == Some(c@));
                    match &c.action {
                        Action::Push(l) => {
                            return l.parse_args(&self.list_arguments, &mut self.values);
                        },
                        Action::Many(l) => {
                            return l.parse_args(&self.list_arguments, &mut self.values);
                        },
                        _ => {},
                    }
                },
                None => {},
            }
        }
        ParseResult::Parsed
    }

    /// The check that every required variable was set.
    fn check_required(&self, p: &ArgumentParser) -> (r: ParseResult)
        requires
            p@.wf(),
            self@.inv(p@, self.pos as nat),
        ensures
            r@ == spec_check_required(p@, self@.set_vars, 0),
    {
        let mut i: usize = 0;
        while i < p.vars.len()
            invariant
                p@.wf(),
                self@.inv(p@, self.pos as nat),
                spec_check_required(p@, self@.set_vars, i as nat) == spec_check_required(
                    p@,
                    self@.set_vars,
                    0,
                ),
            decreases p.vars.len() - i,
        {
            let var = &p.vars[i];
            assert(p@.vars[i as int] == var@);
            if var.required && !self.set_vars[var.id] {
                match missing_msg_exec(p, var.id) {
                    Some(m) => {
                        return ParseResult::Error(m);
                    },
                    None => {},
                }
            }
            i = i + 1;
        }
        ParseResult::Parsed
    }

    /// Parses the command line `args` (whose first word is the command
    /// name), with `env` holding the value of each environment variable of
    /// the parser where it is set.  Gives the outcome and the final state:
    /// the values of the variables and the warnings.
    pub fn parse(p: &ArgumentParser, args: &Vec<String>, env: &Vec<Option<String>>) -> (r: (
        ParseResult,
        Context,
    ))
        requires
            p@.wf(),
            env.len() == p@.env_vars.len(),
        ensures
            (r.1@, r.0@) == spec_parse(p@, view_strings(args@), view_env(env@)),
            r.1@.values.len() == p@.vars.len(),
    {
        let mut ctx = Context::new(p);
        ctx.parse_env_vars(p, env);
        let r = ctx.parse_options(p, args);
        if !r.is_parsed() {
            return (r, ctx);
        }
        let r = ctx.parse_arguments(p);
        if !r.is_parsed() {
            return (r, ctx);
        }
        let r = ctx.parse_list_vars(p);
        if !r.is_parsed() {
            return (r, ctx);
        }
        let r = ctx.check_required(p);
        (r, ctx)
    }

    /// A long option: `--name` or `--name=value`.
    fn parse_long_option(&mut self, p: &ArgumentParser, args: &Vec<String>, arg: &str) -> (r:
        ParseResult)
        requires
            p@.wf(),
            old(self)@.inv(p@, args@.len()),
        ensures
            (final(self)@, r@) == spec_parse_long_option(
                p@,
                view_strings(args@),
                old(self)@,
                arg@,
            ),
            final(self)@.inv(p@, args@.len()),
    {
        let (name, value) = split_at_eq_exec(arg);
        match lookup_long(&p.long_options, &name) {
            None => ParseResult::Error(concat("Unknown option ", arg)),
            Some(oi) => {
                proof {
                    crate::parser::lemma_key_index_range(p@.long_options, name@);
                }
                let opt = &p.options[oi];
                assert(p@.options[oi as int].wf(oi as int, p@.vars.len()));
                match &opt.action {
                    Action::Flag(f) => match value {
                        Some(_) => ParseResult::Error(
                            concat3("Option ", name.as_str(), " does not accept an argument"),
                        ),
                        None => {
                            self.mark(opt.varid);
                            f.parse_flag(&mut self.values)
                        },
                    },
                    _ => self.parse_option(p, args, oi, value),
                }
            },
        }
    }

    /// A word of short options: `-abc`, `-ovalue`.
    fn parse_short_options(&mut self, p: &ArgumentParser, args: &Vec<String>, arg: &str) -> (r:
        ParseResult)
        requires
            p@.wf(),
            old(self)@.inv(p@, args@.len()),
        ensures
            (final(self)@, r@) == spec_parse_short_from(
                p@,
                view_strings(args@),
                old(self)@,
                arg@,
                1,
            ),
            final(self)@.inv(p@, args@.len()),
    {
        let ghost sargs = view_strings(args@);
        let n = arg.unicode_len();
        let mut k: usize = 1;
        while k < n
            invariant
                n == arg@.len(),
                1 <= k,
                sargs == view_strings(args@),
                p@.wf(),
                self@.inv(p@, args@.len()),
                spec_parse_short_from(p@, sargs, self@, arg@, k as nat) == spec_parse_short_from(
                    p@,
                    sargs,
                    old(self)@,
                    arg@,
                    1,
                ),
            decreases n - k,
        {
            let c = arg.get_char(k);
            match lookup_short(&p.short_options, c) {
                None => {
                    let mut m = owned("Unknown short option \"");
                    push_char(&mut m, c);
                    assert("Unknown short option \""@.push(c) =~= "Unknown short option \""@ + seq![c]);
                    m.append("\"");
                    return ParseResult::Error(m);
                },
                Some(oi) => {
                    proof {
                        crate::parser::lemma_key_index_range(p@.short_options, c);
                    }
                    let opt = &p.options[oi];
                    assert(p@.options[oi as int].wf(oi as int, p@.vars.len()));
                    match &opt.action {
                        Action::Flag(f) => {
                            self.mark(opt.varid);
                            let r = f.parse_flag(&mut self.values);
                            if !r.is_parsed() {
                                return r;
                            }
                        },
                        _ => {
                            let value = if k + 1 < n {
                                Some(owned(arg.substring_char(k + 1, n)))
                            } else {
                                None
                            };
                            return self.parse_option(p, args, oi, value);
                        },
                    }
                },
            }
            k = k + 1;
        }
        ParseResult::Parsed
    }

    fn postpone_argument(&mut self, arg: &str)
        ensures
            final(self)@ == old(self)@.postpone(arg@),
    {
        let a = owned(arg);
        let ghost av = a@;
        self.arguments.push(a);
        assert(view_strings(self.arguments@) =~= view_strings(old(self).arguments@).push(av));
    }

    /// Puts all words from the current position on aside as positional arguments.
    fn postpone_rest(&mut self, args: &Vec<String>)
        requires
            old(self).pos <= args.len(),
        ensures
            final(self)@ == old(self)@.postpone_rest(view_strings(args@)),
    {
        let ghost sargs = view_strings(args@);
        let ghost target = old(self)@.postpone_rest(sargs);
        while self.pos < args.len()
            invariant
                self.pos <= args.len(),
                sargs == view_strings(args@),
                self@.postpone_rest(sargs) == target,
            decreases args.len() - self.pos,
        {
            let ghost before = self@;
            self.postpone_argument(args[self.pos].as_str());
            self.pos = self.pos + 1;
            proof {
                assert(before.arguments + sargs.subrange(before.pos as int, sargs.len() as int)
                    =~= before.arguments.push(sargs[before.pos as int]) + sargs.subrange(
                    (before.pos + 1) as int,
                    sargs.len() as int,
                ));
                assert(self@.postpone_rest(sargs) =~= target);
            }
        }
        assert(self@.postpone_rest(sargs) =~= self@);
    }

    /// The options phase.
    fn parse_options(&mut self, p: &ArgumentParser, args: &Vec<String>) -> (r: ParseResult)
        requires
            p@.wf(),
            old(self)@.inv(p@, args@.len()),
        ensures
            (final(self)@, r@) == spec_parse_options(p@, view_strings(args@), old(self)@),
            final(self)@.inv(p@, args@.len()),
    {
        let ghost sargs = view_strings(args@);
        if self.pos < args.len() {
            self.pos = self.pos + 1;  // the command name
        }
        let ghost target = spec_options_loop(p@, sargs, self@);
        let mut stop = false;
        while !stop && self.pos < args.len()
            invariant
                sargs == view_strings(args@),
                p@.wf(),
                self@.inv(p@, args@.len()),
                target == spec_parse_options(p@, sargs, old(self)@),
                !stop ==> spec_options_loop(p@, sargs, self@) == target,
                stop ==> target == (self@.postpone_rest(sargs), ParseResultV::Parsed),
            decreases args.len() - self.pos,
        {
            let arg = args[self.pos].as_str();
            assert(arg@ == sargs[self.pos as int]);
            let ghost before = self@;
            self.pos = self.pos + 1;
            assert(self@ == before.advance(1));
            match ArgumentKind::check(arg) {
                ArgumentKind::Positional => {
                    self.postpone_argument(arg);
                    if p.stop_on_first_argument {
                        stop = true;
                    }
                },
                ArgumentKind::LongOption => {
                    proof {
                        lemma_long_pos(p@, sargs, before.advance(1), arg@);
                    }
                    let r = self.parse_long_option(p, args, arg);
                    if !r.is_parsed() {
                        return r;
                    }
                },
                ArgumentKind::ShortOption => {
                    proof {
                        lemma_short_pos(p@, sargs, before.advance(1), arg@, 1);
                    }
                    let r = self.parse_short_options(p, args, arg);
                    if !r.is_parsed() {
                        return r;
                    }
                },
                ArgumentKind::Delimiter => {
                    stop = true;
                },
            }
        }
        proof {
            if !stop {
                assert(self@.postpone_rest(sargs) =~= self@);
            }
        }
        self.postpone_rest(args);
        ParseResult::Parsed
    }

    /// Records that variable `v` (if any) was set.
    fn mark(&mut self, v: Option<usize>)
        requires
            v matches Some(i) ==> i < old(self).set_vars.len(),
        ensures
            final(self)@ == old(self)@.mark(v),
    {
        match v {
            Some(i) => {
                self.set_vars.set(i, true);
            },
            None => {},
        }
    }

    /// An option that takes arguments.
    fn parse_option(
        &mut self,
        p: &ArgumentParser,
        args: &Vec<String>,
        oi: usize,
        optarg: Option<String>,
    ) -> (r: ParseResult)
        requires
            p@.wf(),
            old(self)@.inv(p@, args@.len()),
            oi < p@.options.len(),
        ensures
            (final(self)@, r@) == spec_parse_option(
                p@,
                view_strings(args@),
                old(self)@,
                oi,
                view_opt_string(optarg),
            ),
            final(self)@.inv(p@, args@.len()),
    {
        let ghost sargs = view_strings(args@);
        let opt = &p.options[oi];
        assert(p@.options[oi as int].wf(oi as int, p@.vars.len()));
        let had_optarg = optarg.is_some();
        let value: String;
        match optarg {
            Some(v) => {
                value = v;
            },
            None => {
                if self.pos < args.len() {
                    value = args[self.pos].clone();
                    self.pos = self.pos + 1;
                } else {
                    match &opt.action {
                        Action::Many(_) => {
                            return ParseResult::Parsed;
                        },
                        _ => {
                            let names = show_names_exec(&opt.names);
                            return ParseResult::Error(
                                concat3("Option ", names.as_str(), " requires an argument"),
                            );
                        },
                    }
                }
            },
        }
        self.mark(opt.varid);
        match &opt.action {
            Action::Single(a) => a.parse_arg(value.as_str(), &mut self.values),
            Action::Push(_) => {
                proof {
                    lemma_extend_keys(self@.list_options, oi, seq![value@], p@.options.len());
                }
                self.push_list(oi, value);
                ParseResult::Parsed
            },
            Action::Many(_) => {
                proof {
                    lemma_extend_keys(self@.list_options, oi, seq![value@], p@.options.len());
                    lemma_extend_has(self@.list_options, oi, seq![value@]);
                }
                self.push_list(oi, value);
                if had_optarg {
                    return ParseResult::Parsed;
                }
                let ghost s3 = self@;
                let ghost start = self.pos as int;
                let ghost n = greedy_count(sargs, start);
                proof {
                    lemma_greedy_count_bound(sargs, start);
                    assert(sargs.subrange(start, start) =~= Seq::<Seq<char>>::empty());
                    lemma_extend_twice(s3.list_options, oi, Seq::empty(), Seq::empty());
                    assert(s3.list_options == extend_list(s3.list_options, oi, Seq::empty())) by {
                        lemma_list_index_range(s3.list_options, oi);
                        let i = list_index(s3.list_options, oi);
                        assert(s3.list_options[i].1 + Seq::<Seq<char>>::empty() == s3.list_options[i].1);
                        assert(s3.list_options.update(i, (oi, s3.list_options[i].1)) =~= s3.list_options);
                    }
                }
                while self.pos < args.len() && !starts_with_dash_exec(args[self.pos].as_str())
                    invariant
                        sargs == view_strings(args@),
                        start <= self.pos <= start + n,
                        start + n <= args@.len(),
                        greedy_count(sargs, self.pos as int) == start + n - self.pos,
                        list_index(s3.list_options, oi) >= 0,
                        self@ == s3.extend(oi, sargs.subrange(start, self.pos as int)).advance(
                            (self.pos - start) as nat,
                        ),
                        p@.wf(),
                        oi < p@.options.len(),
                        self@.inv(p@, args@.len()),
                    decreases args.len() - self.pos,
                {
                    let a = args[self.pos].clone();
                    proof {
                        assert(a@ == sargs[self.pos as int]);
                        lemma_extend_twice(
                            s3.list_options,
                            oi,
                            sargs.subrange(start, self.pos as int),
                            seq![a@],
                        );
                        assert(sargs.subrange(start, self.pos as int) + seq![a@] =~= sargs.subrange(
                            start,
                            self.pos + 1,
                        ));
                        lemma_extend_keys(self@.list_options, oi, seq![a@], p@.options.len());
                    }
                    self.push_list(oi, a);
                    self.pos = self.pos + 1;
                }
                ParseResult::Parsed
            },
            Action::Flag(_) => ParseResult::Parsed,
        }
    }

    fn find_list(&self, k: usize) -> (r: Option<usize>)
        ensures
            r matches Some(j) ==> list_index(self@.list_options, k) == j,
            r is None ==> list_index(self@.list_options, k) == -1,
    {
        let ghost l = self@.list_options;
        let mut i = self.list_options.len();
        assert(l.take(i as int) == l);
        while i > 0
            invariant
                i <= self.list_options.len(),
                l == self@.list_options,
                list_index(l, k) == list_index(l.take(i as int), k),
            decreases i,
        {
            assert(l.take(i as int).last() == l[i - 1]);
            if self.list_options[i - 1].0 == k {
                return Some(i - 1);
            }
            assert(l.take(i as int).drop_last() == l.take(i - 1));
            i = i - 1;
        }
        None
    }

    /// Appends `v` to the arguments collected for option `k`.
    fn push_list(&mut self, k: usize, v: String)
        ensures
            final(self)@ == (CtxV {
                list_options: extend_list(old(self)@.list_options, k, seq![v@]),
                ..old(self)@
            }),
    {
        proof {
            lemma_list_index_range(self@.list_options, k);
        }
        let ghost vv = v@;
        match self.find_list(k) {
            Some(j) => {
                let ghost old_inner = self.list_options@[j as int].1@;
                self.list_options[j].1.push(v);
                proof {
                    assert(view_strings(old_inner.push(v)) =~= view_strings(old_inner) + seq![vv]);
                    assert(view_lists(self.list_options@) =~= extend_list(
                        view_lists(old(self).list_options@),
                        k,
                        seq![vv],
                    ));
                }
            },
            None => {
                let mut inner = Vec::new();
                inner.push(v);
                self.list_options.push((k, inner));
                proof {
                    assert(view_strings(inner@) =~= seq![vv]);
                    assert(view_lists(self.list_options@) =~= extend_list(
                        view_lists(old(self).list_options@),
                        k,
                        seq![vv],
                    ));
                }
            },
        }
    }
}

/// What a parse of a command line gives: the exit status (`Ok` to go on,
/// `Err(code)` to exit with that code), what to print on standard output
/// and on standard error, and the final values of the variables.
pub struct ParseReport {
    pub status: Result<(), i32>,
    pub stdout: String,
    pub stderr: String,
    pub values: Vec<Value>,
}

/// What a parse prints and returns, for a parse that ends in state `s` with
/// result `r`: warnings go to standard error first; the help text goes to
/// standard output; an error is shown with the usage line on standard error.
pub open spec fn spec_report(
    p: ParserV,
    args: Seq<Seq<char>>,
    s: CtxV,
    r: ParseResultV,
) -> (Result<(), i32>, Seq<char>, Seq<char>) {
    let warnings = concat_all(s.warnings);
    match r {
        ParseResultV::Parsed => (Ok(()), Seq::empty(), warnings),
        ParseResultV::Exit => (Err(0), Seq::empty(), warnings),
        ParseResultV::Help => (Err(0), help_text(p, args[0]), warnings),
        ParseResultV::Error(m) => (Err(2), Seq::empty(), warnings + error_text(p, args[0], m)),
    }
}

/// The parse ends without naming the command: no help text, no error.
pub open spec fn needs_no_command_name(r: ParseResultV) -> bool {
    !(r is Help || r is Error)
}

fn concat_strings(v: &Vec<String>) -> (r: String)
    ensures
        r@ == concat_all(view_strings(v@)),
{
    let ghost sv = view_strings(v@);
    let mut r = String::new();
    let mut i: usize = 0;
    assert(sv.take(0) =~= Seq::<Seq<char>>::empty());
    while i < v.len()
        invariant
            i <= v.len(),
            sv == view_strings(v@),
            r@ == concat_all(sv.take(i as int)),
        decreases v.len() - i,
    {
        r.append(v[i].as_str());
        proof {
            lemma_concat_all_step(sv, i as int);
        }
        i = i + 1;
    }
    assert(sv.take(i as int) == sv);
    r
}

impl ArgumentParser {
    /// Parses the command line `args` (whose first word is the command
    /// name), with `env` holding, for each environment variable of the
    /// parser in order, its value where it is set.  The help and error texts
    /// name the command, so a parse that ends in one needs a command name.
    pub fn parse(&self, args: &Vec<String>, env: &Vec<Option<String>>) -> (r: ParseReport)
        requires
            self@.wf(),
            env.len() == self@.env_vars.len(),
            args.len() >= 1 || needs_no_command_name(
                spec_parse(self@, view_strings(args@), view_env(env@)).1,
            ),
        ensures
            ({
                let (s, res) = spec_parse(self@, view_strings(args@), view_env(env@));
                &&& view_values(r.values@) == s.values
                &&& (r.status, r.stdout@, r.stderr@) == spec_report(
                    self@,
                    view_strings(args@),
                    s,
                    res,
                )
            }),
    {
        let (res, ctx) = Context::parse(self, args, env);
        let warnings = concat_strings(&ctx.warnings);
        let ghost sargs = view_strings(args@);
        match res {
            ParseResult::Parsed => ParseReport {
                status: Ok(()),
                stdout: String::new(),
                stderr: warnings,
                values: ctx.values,
            },
            ParseResult::Exit => ParseReport {
                status: Err(0),
                stdout: String::new(),
                stderr: warnings,
                values: ctx.values,
            },
            ParseResult::Help => {
                assert(sargs[0] == args@[0]@);
                ParseReport {
                    status: Err(0),
                    stdout: self.print_help(args[0].as_str()),
                    stderr: warnings,
                    values: ctx.values,
                }
            },
            ParseResult::Error(message) => {
                assert(sargs[0] == args@[0]@);
                let mut err = warnings;
                let e = self.error(args[0].as_str(), message.as_str());
                err.append(e.as_str());
                ParseReport { status: Err(2), stdout: String::new(), stderr: err, values: ctx.values }
            },
        }
    }
}

impl ArgumentParser {
    /// `parse`, for any command line: `None` when the command line is empty
    /// and the parse ends in the help text or an error, which name the
    /// command.
    pub fn try_parse(&self, args: &Vec<String>, env: &Vec<Option<String>>) -> (r: Option<
        ParseReport,
    >)
        requires
            self@.wf(),
            env.len() == self@.env_vars.len(),
        ensures
            ({
                let (s, res) = spec_parse(self@, view_strings(args@), view_env(env@));
                match r {
                    None => args.len() == 0 && !needs_no_command_name(res),
                    Some(rep) => {
                        &&& view_values(rep.values@) == s.values
                        &&& (rep.status, rep.stdout@, rep.stderr@) == spec_report(
                            self@,
                            view_strings(args@),
                            s,
                            res,
                        )
                    },
                }
            }),
    {
        if args.len() == 0 {
            let (res, _ctx) = Context::parse(self, args, env);
            match res {
                ParseResult::Help => {
                    return None;
                },
                ParseResult::Error(_) => {
                    return None;
                },
                _ => {},
            }
        }
        Some(self.parse(args, env))
    }
}

} // verus!
