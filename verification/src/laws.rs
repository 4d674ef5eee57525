//! Properties of parsing that hold for every parser.
use vstd::prelude::*;
use crate::action::{
    Action, ArgAction, FlagAction, ParseResultV, ScalarType, ValueV, spec_parse_scalar,
};
use crate::generic::{ListAction, StoreAction, StoreConstAction};
use crate::context::{
    CtxV, spec_arguments_loop, spec_catchall_list, spec_check_required, spec_env_loop,
    spec_list_loop, spec_options_loop, spec_parse, spec_parse_options, spec_parse_long_option,
    spec_parse_option, spec_parse_short_from,
    split_at_eq, missing_msg, unknown_option_msg, env_warning, char_index, lemma_char_index,
};
use crate::parser::{ArgumentKind, OptionV, ParserV, map_get, spec_kind};
use crate::help::{OPTION_WIDTH, TOTAL_WIDTH, names_width, option_metavar, option_metavar_width, option_text, pad};
use crate::text::{join, wrap_text};

verus! {

proof fn lemma_env_none(p: ParserV, env: Seq<Option<Seq<char>>>, s: CtxV, i: nat)
    requires
        forall|k: int| 0 <= k < env.len() ==> env[k] is None,
        env.len() == p.env_vars.len(),
    ensures
        spec_env_loop(p, env, s, i) == s,
    decreases p.env_vars.len() - i,
{
    if i < p.env_vars.len() {
        lemma_env_none(p, env, s, i + 1);
    }
}

proof fn lemma_parse_scalar_type(t: ScalarType, a: Seq<char>)
    ensures
        spec_parse_scalar(t, a) matches Some(x) ==> x.scalar_type() == t,
{
}

/// The environment phase changes only values, set flags and warnings, and
/// keeps the element type of every variable.
proof fn lemma_env_shape(p: ParserV, env: Seq<Option<Seq<char>>>, s: CtxV, i: nat)
    requires
        p.wf(),
        s.values.len() == p.vars.len(),
    ensures
        ({
            let r = spec_env_loop(p, env, s, i);
            &&& r.pos == s.pos
            &&& r.arguments == s.arguments
            &&& r.list_options == s.list_options
            &&& r.list_arguments == s.list_arguments
            &&& r.values.len() == s.values.len()
            &&& forall|v: int|
                0 <= v < s.values.len() ==> (#[trigger] r.values[v]).scalar_type()
                    == s.values[v].scalar_type()
        }),
    decreases p.env_vars.len() - i,
{
    if i < p.env_vars.len() {
        let e = p.env_vars[i as int];
        match env[i as int] {
            None => lemma_env_shape(p, env, s, i + 1),
            Some(val) => {
                let (vals, r) = e.action.spec_parse_arg(val, s.values);
                match r {
                    ParseResultV::Error(m) => lemma_env_shape(
                        p,
                        env,
                        CtxV { warnings: s.warnings.push(env_warning(e.name, m)), ..s },
                        i + 1,
                    ),
                    _ => {
                        let w = e.action.varid;
                        lemma_parse_scalar_type(s.values[w as int].scalar_type(), val);
                        let s2 = s.with_values(vals).mark(Some(e.varid));
                        lemma_env_shape(p, env, s2, i + 1);
                        assert forall|v: int| 0 <= v < s.values.len() implies (
                        #[trigger] s2.values[v]).scalar_type() == s.values[v].scalar_type() by {
                            if v == w {
                            }
                        }
                    },
                }
            },
        }
    }
}

/// A command line that holds only the command name, with no environment
/// variable set, leaves every variable at its initial value; the parse
/// succeeds unless a required variable has something that could set it.
pub proof fn law_nothing_given_changes_nothing(
    p: ParserV,
    cmd: Seq<char>,
    env: Seq<Option<Seq<char>>>,
)
    requires
        p.wf(),
        env.len() == p.env_vars.len(),
        forall|k: int| 0 <= k < env.len() ==> env[k] is None,
    ensures
        spec_parse(p, seq![cmd], env).0.values == p.values,
        spec_parse(p, seq![cmd], env).1 == spec_check_required(
            p,
            Seq::new(p.vars.len(), |i: int| false),
            0,
        ),
{
    let args = seq![cmd];
    let s0 = CtxV::initial(p);
    lemma_env_none(p, env, s0, 0);
    let s1 = s0.advance(1);
    assert(spec_parse_options(p, args, s0) == (s1, ParseResultV::Parsed));
    assert(spec_arguments_loop(p, s1, 0, 0) == (s1, ParseResultV::Parsed));
    assert(spec_catchall_list(p, s1) == (s1, ParseResultV::Parsed));
    assert(spec_list_loop(p, s1, 0) == (s1, ParseResultV::Parsed));
}

/// `-h` asks for the help text in every parser where it names the help
/// option, whatever the environment holds and whatever follows it.
pub proof fn law_short_help(
    p: ParserV,
    cmd: Seq<char>,
    rest: Seq<Seq<char>>,
    env: Seq<Option<Seq<char>>>,
)
    requires
        p.wf(),
        map_get(p.short_options, 'h') matches Some(i) && p.options[i as int].action == Action::Flag(
            FlagAction::Help,
        ),
    ensures
        spec_parse(p, seq![cmd, "-h"@] + rest, env).1 == ParseResultV::Help,
{
    reveal_strlit("-h");
    let args = seq![cmd, "-h"@] + rest;
    let s1 = spec_env_loop(p, env, CtxV::initial(p), 0);
    lemma_env_shape(p, env, CtxV::initial(p), 0);
    assert(args[1] == "-h"@);
    assert(spec_kind(args[1]) == ArgumentKind::ShortOption);
    let s2 = s1.advance(1);
    assert(spec_parse_options(p, args, s1) == spec_options_loop(p, args, s2));
    assert(spec_options_loop(p, args, s2).1 == ParseResultV::Help);
}

/// `--help` asks for the help text in every parser where it names the help
/// option, whatever the environment holds and whatever follows it.
pub proof fn law_long_help(
    p: ParserV,
    cmd: Seq<char>,
    rest: Seq<Seq<char>>,
    env: Seq<Option<Seq<char>>>,
)
    requires
        p.wf(),
        map_get(p.long_options, "--help"@) matches Some(i) && p.options[i as int].action
            == Action::Flag(FlagAction::Help),
    ensures
        spec_parse(p, seq![cmd, "--help"@] + rest, env).1 == ParseResultV::Help,
{
    reveal_strlit("--help");
    let args = seq![cmd, "--help"@] + rest;
    let s1 = spec_env_loop(p, env, CtxV::initial(p), 0);
    lemma_env_shape(p, env, CtxV::initial(p), 0);
    assert(args[1] == "--help"@);
    assert(spec_kind(args[1]) == ArgumentKind::LongOption);
    let (name, value) = split_at_eq("--help"@);
    crate::context::lemma_char_index("--help"@, '=', 6);
    assert(name == "--help"@);
    let s2 = s1.advance(1);
    assert(spec_parse_options(p, args, s1) == spec_options_loop(p, args, s2));
    assert(spec_options_loop(p, args, s2).1 == ParseResultV::Help);
}

/// A long option that the parser does not know is an error that names the
/// whole word, as the first word after the command name.
pub proof fn law_unknown_long_option(
    p: ParserV,
    cmd: Seq<char>,
    a: Seq<char>,
    rest: Seq<Seq<char>>,
    env: Seq<Option<Seq<char>>>,
)
    requires
        p.wf(),
        spec_kind(a) == ArgumentKind::LongOption,
        map_get(p.long_options, split_at_eq(a).0) is None,
    ensures
        spec_parse(p, seq![cmd, a] + rest, env).1 == ParseResultV::Error(unknown_option_msg(a)),
{
    let args = seq![cmd, a] + rest;
    let s1 = spec_env_loop(p, env, CtxV::initial(p), 0);
    lemma_env_shape(p, env, CtxV::initial(p), 0);
    assert(args[1] == a);
    let s2 = s1.advance(1);
    assert(spec_parse_options(p, args, s1) == spec_options_loop(p, args, s2));
    assert(spec_parse_long_option(p, args, s2.advance(1), a).1 == ParseResultV::Error(
        unknown_option_msg(a),
    ));
}

/// After `--`, every word is a positional argument: when `--` follows the
/// command name, the options phase succeeds and puts all later words aside,
/// in order.
pub proof fn law_delimiter(p: ParserV, s: CtxV, cmd: Seq<char>, rest: Seq<Seq<char>>)
    requires
        s.pos == 0,
    ensures
        spec_parse_options(p, seq![cmd, "--"@] + rest, s) == ((
            CtxV { arguments: s.arguments + rest, pos: (rest.len() + 2) as nat, ..s },
            ParseResultV::Parsed,
        )),
{
    reveal_strlit("--");
    let args = seq![cmd, "--"@] + rest;
    assert(args[1] == "--"@);
    assert(spec_kind(args[1]) == ArgumentKind::Delimiter);
    assert(args.subrange(2, args.len() as int) =~= rest);
    let s2 = s.advance(1);
    assert(spec_options_loop(p, args, s2) == (s2.advance(1).postpone_rest(args), ParseResultV::Parsed));
    assert(s2.advance(1).postpone_rest(args) =~= CtxV {
        arguments: s.arguments + rest,
        pos: (rest.len() + 2) as nat,
        ..s
    });
}

proof fn lemma_check_required(p: ParserV, sv: Seq<bool>, i: nat)
    requires
        p.wf(),
        spec_check_required(p, sv, i) == ParseResultV::Parsed,
    ensures
        forall|j: int|
            i <= j < p.vars.len() && p.vars[j].required && missing_msg(p, j as usize) is Some ==> sv[j],
    decreases p.vars.len() - i,
{
    if i < p.vars.len() {
        lemma_check_required(p, sv, i + 1);
        assert(p.vars[i as int].id == i);
    }
}

/// A parse that succeeds has set every required variable that an argument,
/// an option or an environment variable could set.
pub proof fn law_success_sets_required(
    p: ParserV,
    args: Seq<Seq<char>>,
    env: Seq<Option<Seq<char>>>,
)
    requires
        p.wf(),
        spec_parse(p, args, env).1 == ParseResultV::Parsed,
    ensures
        forall|v: int|
            0 <= v < p.vars.len() && p.vars[v].required && missing_msg(p, v as usize) is Some
                ==> spec_parse(p, args, env).0.set_vars[v],
{
    let s1 = spec_env_loop(p, env, CtxV::initial(p), 0);
    let (s2, r2) = spec_parse_options(p, args, s1);
    let (s3, r3) = spec_arguments_loop(p, s2, 0, 0);
    let (s4, r4) = spec_list_loop(p, s3, 0);
    lemma_check_required(p, s4.set_vars, 0);
}

/// The command line overrides the environment: `--name=value` for a `Store`
/// option sets its variable to the parsed value, whatever the environment
/// variables did to it before.
pub proof fn law_command_line_overrides_environment(
    p: ParserV,
    cmd: Seq<char>,
    name: Seq<char>,
    value: Seq<char>,
    env: Seq<Option<Seq<char>>>,
    v: usize,
)
    requires
        p.wf(),
        spec_kind(name) == ArgumentKind::LongOption,
        char_index(name, '=') == -1,
        map_get(p.long_options, name) matches Some(i) && p.options[i as int].action
            == Action::Single(ArgAction::Store(StoreAction { varid: v })),
        spec_parse_scalar(p.values[v as int].scalar_type(), value) is Some,
    ensures
        spec_parse(p, seq![cmd, name + "="@ + value], env).0.values[v as int] == ValueV::One(
            spec_parse_scalar(p.values[v as int].scalar_type(), value)->0,
        ),
{
    reveal_strlit("=");
    let word = name + "="@ + value;
    let args = seq![cmd, word];
    let oi = map_get(p.long_options, name)->0;
    crate::parser::lemma_key_index_range(p.long_options, name);
    assert(p.options[oi as int].wf(oi as int, p.vars.len()));
    let s0 = CtxV::initial(p);
    let s1 = spec_env_loop(p, env, s0, 0);
    lemma_env_shape(p, env, s0, 0);
    // the word splits into the name and the value
    assert(word.len() >= 3 && word[0] == name[0] && word[1] == name[1]);
    assert(spec_kind(word) == ArgumentKind::LongOption);
    assert forall|j: int| 0 <= j < name.len() implies word[j] != '=' by {
        assert(word[j] == name[j]);
        if name[j] == '=' {
            lemma_char_index_found(name, '=', j);
        }
    }
    lemma_char_index(word, '=', name.len() as int);
    assert(word.take(name.len() as int) =~= name);
    assert(word.skip((name.len() + 1) as int) =~= value);
    assert(split_at_eq(word) == (name, Some(value)));
    // the options phase stores the value
    let s2 = s1.advance(1);
    assert(args[1] == word);
    assert(spec_parse_options(p, args, s1) == spec_options_loop(p, args, s2));
    let t = s1.values[v as int].scalar_type();
    assert(t == p.values[v as int].scalar_type());
    let x = spec_parse_scalar(t, value)->0;
    let s3 = s2.advance(1).mark(Some(v)).with_values(s1.values.update(v as int, ValueV::One(x)));
    assert(spec_parse_long_option(p, args, s2.advance(1), word) == (s3, ParseResultV::Parsed));
    assert(spec_options_loop(p, args, s3) == (s3, ParseResultV::Parsed));
    // nothing was put aside, nothing collected
    assert(s3.arguments.len() == 0);
    assert(spec_arguments_loop(p, s3, 0, 0) == (s3, ParseResultV::Parsed));
    assert(spec_list_loop(p, s3, 0) == spec_catchall_list(p, s3));
    assert(spec_catchall_list(p, s3) == (s3, ParseResultV::Parsed));
}

proof fn lemma_char_index_found(a: Seq<char>, c: char, j: int)
    requires
        0 <= j < a.len(),
        a[j] == c,
    ensures
        char_index(a, c) >= 0,
    decreases j,
{
    if j > 0 && a[0] != c {
        lemma_char_index_found(a.drop_first(), c, j - 1);
    }
}

/// No option, argument or environment variable of the parser writes
/// variable `v`.
pub open spec fn untouched(p: ParserV, v: int) -> bool {
    &&& forall|i: int| 0 <= i < p.options.len() ==> (#[trigger] p.options[i]).varid != Some(v as usize)
    &&& forall|i: int| 0 <= i < p.arguments.len() ==> (#[trigger] p.arguments[i]).varid != v
    &&& (p.catchall_argument matches Some(a) ==> a.varid != v)
    &&& forall|i: int| 0 <= i < p.env_vars.len() ==> (#[trigger] p.env_vars[i]).varid != v
}

/// The values keep their number, and value `v` is kept.
pub open spec fn keeps(vals: Seq<ValueV>, vals2: Seq<ValueV>, v: int) -> bool {
    vals2.len() == vals.len() && vals2[v] == vals[v]
}

proof fn lemma_arg_frame(a: ArgAction, arg: Seq<char>, vals: Seq<ValueV>, v: int)
    requires
        0 <= v < vals.len(),
        a.varid() < vals.len(),
        a.varid() != v,
    ensures
        keeps(vals, a.spec_parse_arg(arg, vals).0, v),
{
}

proof fn lemma_flag_frame(f: FlagAction, vals: Seq<ValueV>, v: int)
    requires
        0 <= v < vals.len(),
        f.varid() matches Some(w) ==> w < vals.len() && w != v,
    ensures
        keeps(vals, f.spec_parse_flag(vals).0, v),
{
}

proof fn lemma_list_frame(l: ListAction, args: Seq<Seq<char>>, vals: Seq<ValueV>, v: int)
    requires
        0 <= v < vals.len(),
        l.varid < vals.len(),
        l.varid != v,
    ensures
        keeps(vals, l.spec_parse_args(args, vals).0, v),
{
}

/// The sizes a parse state keeps: one value and one flag per variable, list
/// entries for options of the parser.
pub open spec fn shape_ok(p: ParserV, s: CtxV) -> bool {
    &&& s.values.len() == p.vars.len()
    &&& s.set_vars.len() == p.vars.len()
    &&& forall|k: int|
        0 <= k < s.list_options.len() ==> (#[trigger] s.list_options[k]).0 < p.options.len()
}

proof fn lemma_option_frame(
    p: ParserV,
    args: Seq<Seq<char>>,
    s: CtxV,
    oi: usize,
    optarg: Option<Seq<char>>,
    v: int,
)
    requires
        p.wf(),
        untouched(p, v),
        oi < p.options.len(),
        0 <= v < p.vars.len(),
        shape_ok(p, s),
    ensures
        keeps(s.values, spec_parse_option(p, args, s, oi, optarg).0.values, v),
        shape_ok(p, spec_parse_option(p, args, s, oi, optarg).0),
{
    let opt = p.options[oi as int];
    assert(opt.wf(oi as int, p.vars.len()));
    let (value, s1) = match optarg {
        Some(x) => (Some(x), s),
        None => if s.pos < args.len() {
            (Some(args[s.pos as int]), s.advance(1))
        } else {
            (None, s)
        },
    };
    if let Some(x) = value {
        let s2 = s1.mark(opt.varid);
        match opt.action {
            Action::Single(a) => {
                lemma_arg_frame(a, x, s2.values, v);
            },
            Action::Push(_) => {
                crate::context::lemma_extend_keys(s2.list_options, oi, seq![x], p.options.len());
            },
            Action::Many(_) => {
                let s3 = s2.extend(oi, seq![x]);
                crate::context::lemma_extend_keys(s2.list_options, oi, seq![x], p.options.len());
                if optarg is None {
                    let n = crate::context::greedy_count(args, s3.pos as int);
                    crate::context::lemma_extend_keys(
                        s3.list_options,
                        oi,
                        args.subrange(s3.pos as int, (s3.pos + n) as int),
                        p.options.len(),
                    );
                }
            },
            _ => {},
        }
    }
}

proof fn lemma_long_frame(p: ParserV, args: Seq<Seq<char>>, s: CtxV, arg: Seq<char>, v: int)
    requires
        p.wf(),
        untouched(p, v),
        0 <= v < p.vars.len(),
        shape_ok(p, s),
    ensures
        keeps(s.values, spec_parse_long_option(p, args, s, arg).0.values, v),
        shape_ok(p, spec_parse_long_option(p, args, s, arg).0),
{
    let (name, value) = split_at_eq(arg);
    if let Some(oi) = map_get(p.long_options, name) {
        crate::parser::lemma_key_index_range(p.long_options, name);
        let opt = p.options[oi as int];
        assert(opt.wf(oi as int, p.vars.len()));
        match opt.action {
            Action::Flag(f) => {
                lemma_flag_frame(f, s.mark(opt.varid).values, v);
            },
            _ => {
                lemma_option_frame(p, args, s, oi, value, v);
            },
        }
    }
}

proof fn lemma_short_frame(p: ParserV, args: Seq<Seq<char>>, s: CtxV, arg: Seq<char>, k: nat, v: int)
    requires
        p.wf(),
        untouched(p, v),
        0 <= v < p.vars.len(),
        shape_ok(p, s),
    ensures
        keeps(s.values, spec_parse_short_from(p, args, s, arg, k).0.values, v),
        shape_ok(p, spec_parse_short_from(p, args, s, arg, k).0),
    decreases arg.len() - k,
{
    if k < arg.len() {
        let c = arg[k as int];
        if let Some(oi) = map_get(p.short_options, c) {
            crate::parser::lemma_key_index_range(p.short_options, c);
            let opt = p.options[oi as int];
            assert(opt.wf(oi as int, p.vars.len()));
            match opt.action {
                Action::Flag(f) => {
                    let s1 = s.mark(opt.varid);
                    lemma_flag_frame(f, s1.values, v);
                    let (vals, r) = f.spec_parse_flag(s1.values);
                    lemma_short_frame(p, args, s1.with_values(vals), arg, k + 1, v);
                },
                _ => {
                    let value = if k + 1 < arg.len() {
                        Some(arg.subrange((k + 1) as int, arg.len() as int))
                    } else {
                        None
                    };
                    lemma_option_frame(p, args, s, oi, value, v);
                },
            }
        }
    }
}

proof fn lemma_options_loop_frame(p: ParserV, args: Seq<Seq<char>>, s: CtxV, v: int)
    requires
        p.wf(),
        untouched(p, v),
        0 <= v < p.vars.len(),
        shape_ok(p, s),
        s.pos <= args.len(),
    ensures
        keeps(s.values, spec_options_loop(p, args, s).0.values, v),
        shape_ok(p, spec_options_loop(p, args, s).0),
    decreases args.len() - s.pos,
{
    if s.pos < args.len() {
        let arg = args[s.pos as int];
        let s1 = s.advance(1);
        match spec_kind(arg) {
            ArgumentKind::Positional => {
                if !p.stop_on_first_argument {
                    lemma_options_loop_frame(p, args, s1.postpone(arg), v);
                }
            },
            ArgumentKind::LongOption => {
                crate::context::lemma_long_pos(p, args, s1, arg);
                lemma_long_frame(p, args, s1, arg, v);
                let (s2, r) = spec_parse_long_option(p, args, s1, arg);
                if r is Parsed {
                    lemma_options_loop_frame(p, args, s2, v);
                }
            },
            ArgumentKind::ShortOption => {
                crate::context::lemma_short_pos(p, args, s1, arg, 1);
                lemma_short_frame(p, args, s1, arg, 1, v);
                let (s2, r) = spec_parse_short_from(p, args, s1, arg, 1);
                if r is Parsed {
                    lemma_options_loop_frame(p, args, s2, v);
                }
            },
            ArgumentKind::Delimiter => {},
        }
    }
}

proof fn lemma_arguments_frame(p: ParserV, s: CtxV, i: nat, j: nat, v: int)
    requires
        p.wf(),
        untouched(p, v),
        0 <= v < p.vars.len(),
        shape_ok(p, s),
    ensures
        keeps(s.values, spec_arguments_loop(p, s, i, j).0.values, v),
        shape_ok(p, spec_arguments_loop(p, s, i, j).0),
    decreases s.arguments.len() - i,
{
    if i < s.arguments.len() {
        let arg = s.arguments[i as int];
        let j2 = crate::context::next_free(p, s.set_vars, j);
        if j2 < p.arguments.len() {
            let a = p.arguments[j2 as int];
            assert(a.wf(p.vars.len()));
            let s1 = s.mark(Some(a.varid));
            match a.action {
                Action::Single(act) => {
                    lemma_arg_frame(act, arg, s1.values, v);
                    let (vals, r) = act.spec_parse_arg(arg, s1.values);
                    if r is Parsed {
                        lemma_arguments_frame(p, s1.with_values(vals), i + 1, j2 + 1, v);
                    }
                },
                _ => {
                    lemma_arguments_frame(p, s1, i + 1, j2 + 1, v);
                },
            }
        } else if p.catchall_argument is Some {
            lemma_arguments_frame(
                p,
                CtxV { list_arguments: s.list_arguments.push(arg), ..s },
                i + 1,
                j2,
                v,
            );
        }
    }
}

proof fn lemma_list_loop_frame(p: ParserV, s: CtxV, i: nat, v: int)
    requires
        p.wf(),
        untouched(p, v),
        0 <= v < p.vars.len(),
        shape_ok(p, s),
    ensures
        keeps(s.values, spec_list_loop(p, s, i).0.values, v),
    decreases s.list_options.len() - i,
{
    if i < s.list_options.len() {
        let (oi, lst) = s.list_options[i as int];
        let opt = p.options[oi as int];
        assert(opt.wf(oi as int, p.vars.len()));
        match opt.action {
            Action::Push(l) => {
                lemma_list_frame(l, lst, s.values, v);
                let (vals, r) = l.spec_parse_args(lst, s.values);
                if r is Parsed {
                    lemma_list_loop_frame(p, s.with_values(vals), i + 1, v);
                }
            },
            Action::Many(l) => {
                lemma_list_frame(l, lst, s.values, v);
                let (vals, r) = l.spec_parse_args(lst, s.values);
                if r is Parsed {
                    lemma_list_loop_frame(p, s.with_values(vals), i + 1, v);
                }
            },
            _ => {
                lemma_list_loop_frame(p, s, i + 1, v);
            },
        }
    } else if s.list_arguments.len() > 0 {
        if let Some(c) = p.catchall_argument {
            match c.action {
                Action::Push(l) => lemma_list_frame(l, s.list_arguments, s.values, v),
                Action::Many(l) => lemma_list_frame(l, s.list_arguments, s.values, v),
                _ => {},
            }
        }
    }
}

proof fn lemma_env_frame(p: ParserV, env: Seq<Option<Seq<char>>>, s: CtxV, i: nat, v: int)
    requires
        p.wf(),
        untouched(p, v),
        0 <= v < p.vars.len(),
        shape_ok(p, s),
    ensures
        keeps(s.values, spec_env_loop(p, env, s, i).values, v),
        shape_ok(p, spec_env_loop(p, env, s, i)),
    decreases p.env_vars.len() - i,
{
    if i < p.env_vars.len() {
        let e = p.env_vars[i as int];
        match env[i as int] {
            None => lemma_env_frame(p, env, s, i + 1, v),
            Some(val) => {
                lemma_arg_frame(ArgAction::Store(e.action), val, s.values, v);
                let (vals, r) = e.action.spec_parse_arg(val, s.values);
                match r {
                    ParseResultV::Error(m) => lemma_env_frame(
                        p,
                        env,
                        CtxV { warnings: s.warnings.push(env_warning(e.name, m)), ..s },
                        i + 1,
                        v,
                    ),
                    _ => lemma_env_frame(p, env, s.with_values(vals).mark(Some(e.varid)), i + 1, v),
                }
            },
        }
    }
}

/// A variable that no option, argument or environment variable writes keeps
/// its initial value, whatever the command line and the environment.
pub proof fn law_untouched_variables_keep_their_value(
    p: ParserV,
    args: Seq<Seq<char>>,
    env: Seq<Option<Seq<char>>>,
    v: int,
)
    requires
        p.wf(),
        0 <= v < p.vars.len(),
        untouched(p, v),
    ensures
        spec_parse(p, args, env).0.values[v] == p.values[v],
{
    let s0 = CtxV::initial(p);
    lemma_env_frame(p, env, s0, 0, v);
    lemma_env_shape(p, env, s0, 0);
    let s1 = spec_env_loop(p, env, s0, 0);
    let s1b = if s1.pos < args.len() {
        s1.advance(1)
    } else {
        s1
    };
    lemma_options_loop_frame(p, args, s1b, v);
    let (s2, r2) = spec_parse_options(p, args, s1);
    if r2 is Parsed {
        lemma_arguments_frame(p, s2, 0, 0, v);
        let (s3, r3) = spec_arguments_loop(p, s2, 0, 0);
        if r3 is Parsed {
            lemma_list_loop_frame(p, s3, 0, v);
        }
    }
}

/// A parser fresh from `ArgumentParser::new` has the help option under
/// `-h` and `--help`, so the help laws above hold of it.
pub proof fn law_fresh_parser_has_help(p: ParserV)
    requires
        p == ParserV::empty().spec_add_option(
            None,
            seq!["-h"@, "--help"@],
            Action::Flag(FlagAction::Help),
            "show this help message and exit"@,
        ),
    ensures
        map_get(p.short_options, 'h') == Some(0usize),
        map_get(p.long_options, "--help"@) == Some(0usize),
        p.options[0].action == Action::Flag(FlagAction::Help),
{
    reveal_strlit("-h");
    reveal_strlit("--help");
    let names = seq!["-h"@, "--help"@];
    assert(names.drop_last() =~= seq!["-h"@]);
    assert(seq!["-h"@].drop_last() =~= Seq::<Seq<char>>::empty());
    assert(spec_kind("-h"@) == ArgumentKind::ShortOption);
    assert(spec_kind("--help"@) == ArgumentKind::LongOption);
    let e1 = Seq::<(char, usize)>::empty();
    let e2 = Seq::<(Seq<char>, usize)>::empty();
    assert(ParserV::register_names(e1, e2, Seq::empty(), 0) == (e1, e2));
    assert("-h"@[1] == 'h');
    assert(crate::parser::key_index(e1, 'h') == -1);
    let (s1, l1) = ParserV::register_names(e1, e2, seq!["-h"@], 0);
    assert(s1 =~= seq![('h', 0usize)]);
    assert(l1 =~= Seq::<(Seq<char>, usize)>::empty());
    assert(s1.drop_last() =~= Seq::<(char, usize)>::empty());
    let l2 = seq![("--help"@, 0usize)];
    assert(l2.drop_last() =~= Seq::<(Seq<char>, usize)>::empty());
}

/// A word given to a positional argument that does not parse as its
/// variable's type ends the whole parse in the error `Bad value <word>`:
/// here for the first positional argument, given the only word of the
/// command line, with no environment variable set.
pub proof fn law_positional_bad_value_is_an_error(
    p: ParserV,
    cmd: Seq<char>,
    w: Seq<char>,
    env: Seq<Option<Seq<char>>>,
)
    requires
        p.wf(),
        p.arguments.len() > 0,
        env.len() == p.env_vars.len(),
        forall|k: int| 0 <= k < env.len() ==> env[k] is None,
        spec_kind(w) == ArgumentKind::Positional,
        spec_parse_scalar(p.values[p.arguments[0].varid as int].scalar_type(), w) is None,
    ensures
        spec_parse(p, seq![cmd, w], env).1 == ParseResultV::Error("Bad value "@ + w),
{
    let args = seq![cmd, w];
    let s0 = CtxV::initial(p);
    lemma_env_none(p, env, s0, 0);
    let s2 = s0.advance(1).advance(1).postpone(w);
    assert(args[1] == w);
    if p.stop_on_first_argument {
        assert(args.subrange(2, 2) =~= Seq::<Seq<char>>::empty());
        assert(s2.postpone_rest(args) =~= s2);
    }
    assert(spec_options_loop(p, args, s2) == (s2, ParseResultV::Parsed));
    assert(spec_parse_options(p, args, s0) == (s2, ParseResultV::Parsed));
    let a = p.arguments[0];
    assert(a.wf(p.vars.len()));
    assert(s2.arguments =~= seq![w]);
    assert(!s2.set_vars[a.varid as int]);
    assert(crate::context::next_free(p, s2.set_vars, 0) == 0);
    let s3 = s2.mark(Some(a.varid));
    assert(s3.values == p.values);
    if let Action::Single(act) = a.action {
        assert(act.spec_parse_arg(w, s3.values).1 == ParseResultV::Error("Bad value "@ + w));
    }
    assert(spec_arguments_loop(p, s2, 0, 0).1 == ParseResultV::Error("Bad value "@ + w));
}

/// The `StoreConst` flag that short option `c` names, if it names one.
pub open spec fn short_flag(p: ParserV, c: char) -> Option<StoreConstAction> {
    match map_get(p.short_options, c) {
        Some(o) => match p.options[o as int].action {
            Action::Flag(FlagAction::StoreConst(a)) => Some(a),
            _ => None,
        },
        None => None,
    }
}

#[verifier::rlimit(40)]
proof fn lemma_flags_from(p: ParserV, args: Seq<Seq<char>>, s: CtxV, word: Seq<char>, m: nat)
    requires
        p.wf(),
        s.values.len() == p.vars.len(),
        s.set_vars.len() == p.vars.len(),
        1 <= m <= word.len(),
        forall|j: int| m <= j < word.len() ==> short_flag(p, #[trigger] word[j]) is Some,
    ensures
        ({
            let r = spec_parse_short_from(p, args, s, word, m);
            &&& r.1 == ParseResultV::Parsed
            &&& r.0.pos == s.pos
            &&& r.0.arguments == s.arguments
            &&& r.0.list_options == s.list_options
            &&& r.0.list_arguments == s.list_arguments
            &&& r.0.values.len() == s.values.len()
            &&& r.0.set_vars.len() == s.set_vars.len()
            &&& forall|w: int|
                0 <= w < s.values.len() && (forall|j: int|
                    m <= j < word.len() ==> (short_flag(p, #[trigger] word[j])->0.varid != w))
                    ==> r.0.values[w] == s.values[w]
            &&& forall|k: int|
                m <= k < word.len() && (forall|j: int|
                    k < j < word.len() ==> short_flag(p, #[trigger] word[j])->0.varid != short_flag(
                        p,
                        word[k],
                    )->0.varid) ==> r.0.values[short_flag(p, word[k])->0.varid as int]
                    == ValueV::One(short_flag(p, word[k])->0.value@)
        }),
    decreases word.len() - m,
{
    if m < word.len() {
        let c = word[m as int];
        assert(short_flag(p, c) is Some);
        let oi = map_get(p.short_options, c)->0;
        crate::parser::lemma_key_index_range(p.short_options, c);
        let opt = p.options[oi as int];
        assert(opt.wf(oi as int, p.vars.len()));
        let a = short_flag(p, c)->0;
        let f = FlagAction::StoreConst(a);
        let s1 = s.mark(opt.varid);
        let (vals, r) = f.spec_parse_flag(s1.values);
        let s2 = s1.with_values(vals);
        assert(vals == s.values.update(a.varid as int, ValueV::One(a.value@)));
        lemma_flags_from(p, args, s2, word, m + 1);
        let res = spec_parse_short_from(p, args, s2, word, m + 1);
        assert(spec_parse_short_from(p, args, s, word, m) == res);
        assert forall|w: int|
            0 <= w < s.values.len() && (forall|j: int|
                m <= j < word.len() ==> (short_flag(p, #[trigger] word[j])->0.varid != w)) implies res.0.values[w] == s.values[w] by {
            assert(short_flag(p, word[m as int])->0.varid != w);
            assert forall|j: int| m + 1 <= j < word.len() implies (short_flag(
                p,
                #[trigger] word[j],
            )->0.varid != w) by {}
            assert(s2.values[w] == s.values[w]);
            assert(res.0.values[w] == s2.values[w]);
        }
        assert forall|k: int|
            m <= k < word.len() && (forall|j: int|
                k < j < word.len() ==> short_flag(p, #[trigger] word[j])->0.varid != short_flag(
                    p,
                    word[k],
                )->0.varid) implies res.0.values[short_flag(p, word[k])->0.varid as int]
            == ValueV::One(short_flag(p, word[k])->0.value@) by {
            if k == m {
                let w = a.varid as int;
                assert forall|j: int| m + 1 <= j < word.len() implies (short_flag(
                    p,
                    #[trigger] word[j],
                )->0.varid != w) by {}
                assert(s2.values[w] == ValueV::One(a.value@));
                assert(res.0.values[w] == s2.values[w]);
            } else {
                assert(forall|j: int|
                    k < j < word.len() ==> short_flag(p, #[trigger] word[j])->0.varid != short_flag(
                        p,
                        word[k],
                    )->0.varid);
                assert(m + 1 <= k);
            }
        }
    }
}

/// A word of combined short flags `-c1c2...cn` applies every flag in turn:
/// each flag's variable ends holding its constant, unless a later flag of
/// the word writes the same variable.  Here the word is the whole command
/// line after the command name; the environment may hold anything.
pub proof fn law_combined_short_flags(
    p: ParserV,
    cmd: Seq<char>,
    cs: Seq<char>,
    env: Seq<Option<Seq<char>>>,
    k: int,
)
    requires
        p.wf(),
        cs.len() >= 1,
        cs[0] != '-',
        forall|j: int| 0 <= j < cs.len() ==> short_flag(p, #[trigger] cs[j]) is Some,
        0 <= k < cs.len(),
        forall|j: int|
            k < j < cs.len() ==> short_flag(p, #[trigger] cs[j])->0.varid != short_flag(
                p,
                cs[k],
            )->0.varid,
    ensures
        spec_parse(p, seq![cmd, seq!['-'] + cs], env).0.values[short_flag(
            p,
            cs[k],
        )->0.varid as int] == ValueV::One(short_flag(p, cs[k])->0.value@),
{
    let word = seq!['-'] + cs;
    let args = seq![cmd, word];
    assert(args[1] == word);
    assert forall|j: int| 1 <= j < word.len() implies short_flag(p, #[trigger] word[j]) is Some by {
        assert(word[j] == cs[j - 1]);
    }
    assert(word[k + 1] == cs[k]);
    assert forall|j: int|
        k + 1 < j < word.len() implies short_flag(p, #[trigger] word[j])->0.varid != short_flag(
            p,
            word[k + 1],
        )->0.varid by {
        assert(word[j] == cs[j - 1]);
    }
    assert(spec_kind(word) == ArgumentKind::ShortOption);
    let s0 = CtxV::initial(p);
    lemma_env_shape(p, env, s0, 0);
    let s1 = spec_env_loop(p, env, s0, 0);
    lemma_env_frame_len(p, env, s0, 0);
    let sa = s1.advance(1).advance(1);
    lemma_flags_from(p, args, sa, word, 1);
    let (s2, r2) = spec_parse_short_from(p, args, sa, word, 1);
    assert(spec_options_loop(p, args, s2) == (s2, ParseResultV::Parsed));
    assert(spec_parse_options(p, args, s1) == (s2, ParseResultV::Parsed));
    assert(spec_arguments_loop(p, s2, 0, 0) == (s2, ParseResultV::Parsed));
    assert(spec_list_loop(p, s2, 0) == spec_catchall_list(p, s2));
    assert(spec_catchall_list(p, s2) == (s2, ParseResultV::Parsed));
}

/// The environment phase keeps the number of flags.
proof fn lemma_env_frame_len(p: ParserV, env: Seq<Option<Seq<char>>>, s: CtxV, i: nat)
    requires
        p.wf(),
        s.values.len() == p.vars.len(),
        s.set_vars.len() == p.vars.len(),
    ensures
        spec_env_loop(p, env, s, i).set_vars.len() == p.vars.len(),
        spec_env_loop(p, env, s, i).warnings.len() >= 0,
    decreases p.env_vars.len() - i,
{
    if i < p.env_vars.len() {
        let e = p.env_vars[i as int];
        match env[i as int] {
            None => lemma_env_frame_len(p, env, s, i + 1),
            Some(val) => {
                let (vals, r) = e.action.spec_parse_arg(val, s.values);
                match r {
                    ParseResultV::Error(m) => lemma_env_frame_len(
                        p,
                        env,
                        CtxV { warnings: s.warnings.push(env_warning(e.name, m)), ..s },
                        i + 1,
                    ),
                    _ => lemma_env_frame_len(p, env, s.with_values(vals).mark(Some(e.varid)), i + 1),
                }
            },
        }
    }
}

/// `name=value` splits into `name` and `value`, and is a long option word,
/// for a long option name without `=`.
proof fn lemma_named_word(name: Seq<char>, value: Seq<char>)
    requires
        spec_kind(name) == ArgumentKind::LongOption,
        char_index(name, '=') == -1,
    ensures
        split_at_eq(name + "="@ + value) == (name, Some(value)),
        spec_kind(name + "="@ + value) == ArgumentKind::LongOption,
{
    reveal_strlit("=");
    let word = name + "="@ + value;
    assert(word.len() >= 3 && word[0] == name[0] && word[1] == name[1]);
    assert forall|j: int| 0 <= j < name.len() implies word[j] != '=' by {
        assert(word[j] == name[j]);
        if name[j] == '=' {
            lemma_char_index_found(name, '=', j);
        }
    }
    lemma_char_index(word, '=', name.len() as int);
    assert(word.take(name.len() as int) =~= name);
    assert(word.skip((name.len() + 1) as int) =~= value);
}

/// `name=value` for a list option appends the value to the option's list
/// and marks its variable set.
proof fn lemma_list_word(
    p: ParserV,
    args: Seq<Seq<char>>,
    s: CtxV,
    name: Seq<char>,
    value: Seq<char>,
    i: usize,
)
    requires
        p.wf(),
        spec_kind(name) == ArgumentKind::LongOption,
        char_index(name, '=') == -1,
        map_get(p.long_options, name) == Some(i),
        p.options[i as int].action is Push || p.options[i as int].action is Many,
    ensures
        spec_parse_long_option(p, args, s, name + "="@ + value) == (
            s.mark(p.options[i as int].varid).extend(i, seq![value]),
            ParseResultV::Parsed,
        ),
{
    lemma_named_word(name, value);
}

proof fn lemma_list_phase_start(p: ParserV, s: CtxV)
    requires
        s.list_options.len() == 0,
        s.list_arguments.len() == 0,
    ensures
        spec_list_loop(p, s, 0) == (s, ParseResultV::Parsed),
{
    assert(spec_catchall_list(p, s) == (s, ParseResultV::Parsed));
}

/// A list option (`List` or `Collect`) given twice gathers the values of
/// both occurrences, in command-line order, into its variable: the earlier
/// occurrence's value is not lost.  The environment may hold anything.
pub proof fn law_list_option_gathers_all_occurrences(
    p: ParserV,
    cmd: Seq<char>,
    name: Seq<char>,
    a: Seq<char>,
    b: Seq<char>,
    env: Seq<Option<Seq<char>>>,
    i: usize,
)
    requires
        p.wf(),
        spec_kind(name) == ArgumentKind::LongOption,
        char_index(name, '=') == -1,
        map_get(p.long_options, name) == Some(i),
        p.options[i as int].action is Push || p.options[i as int].action is Many,
        spec_parse_scalar(p.values[p.options[i as int].varid->0 as int].scalar_type(), a) is Some,
        spec_parse_scalar(p.values[p.options[i as int].varid->0 as int].scalar_type(), b) is Some,
    ensures
        ({
            let v = p.options[i as int].varid->0;
            let t = p.values[v as int].scalar_type();
            spec_parse(p, seq![cmd, name + "="@ + a, name + "="@ + b], env).0.values[v as int]
                == ValueV::Many(
                t,
                seq![spec_parse_scalar(t, a)->0, spec_parse_scalar(t, b)->0],
            )
        }),
{
    crate::parser::lemma_key_index_range(p.long_options, name);
    let opt = p.options[i as int];
    assert(opt.wf(i as int, p.vars.len()));
    let v = opt.varid->0;
    let t = p.values[v as int].scalar_type();
    let w1 = name + "="@ + a;
    let w2 = name + "="@ + b;
    let args = seq![cmd, w1, w2];
    assert(args[1] == w1 && args[2] == w2);
    lemma_named_word(name, a);
    lemma_named_word(name, b);
    let s0 = CtxV::initial(p);
    lemma_env_shape(p, env, s0, 0);
    lemma_env_frame_len(p, env, s0, 0);
    let s1 = spec_env_loop(p, env, s0, 0);
    let sa = s1.advance(1).advance(1);
    lemma_list_word(p, args, sa, name, a, i);
    let sb = sa.mark(opt.varid).extend(i, seq![a]);
    let sc = sb.advance(1);
    lemma_list_word(p, args, sc, name, b, i);
    let sd = sc.mark(opt.varid).extend(i, seq![b]);
    assert(spec_options_loop(p, args, sd) == (sd, ParseResultV::Parsed));
    assert(spec_options_loop(p, args, sb) == (sd, ParseResultV::Parsed));
    assert(spec_options_loop(p, args, s1.advance(1)) == (sd, ParseResultV::Parsed));
    assert(spec_parse_options(p, args, s1) == (sd, ParseResultV::Parsed));
    assert(spec_arguments_loop(p, sd, 0, 0) == (sd, ParseResultV::Parsed));
    crate::context::lemma_extend_twice(s1.list_options, i, seq![a], seq![b]);
    assert(s1.list_options.len() == 0);
    assert(seq![a] + seq![b] =~= seq![a, b]);
    assert(crate::context::list_index(Seq::empty(), i) == -1);
    assert(sd.list_options =~= seq![(i, seq![a, b])]);
    assert(sd.values == s1.values);
    assert(s1.values[v as int].scalar_type() == t);
    let l = match opt.action {
        Action::Push(l) => l,
        Action::Many(l) => l,
        _ => arbitrary(),
    };
    assert(l.varid == v);
    let xa = spec_parse_scalar(t, a)->0;
    let xb = spec_parse_scalar(t, b)->0;
    let ab = seq![a, b];
    assert(ab.drop_first() =~= seq![b]);
    assert(seq![b].drop_first() =~= Seq::<Seq<char>>::empty());
    assert(seq![b][0] == b);
    assert(ab[0] == a);
    assert(crate::generic::parse_all(t, Seq::<Seq<char>>::empty()) == Ok::<Seq<crate::action::ScalarV>, Seq<char>>(Seq::empty()));
    assert(crate::generic::parse_all(t, seq![b]) == Ok::<Seq<crate::action::ScalarV>, Seq<char>>(seq![xb] + Seq::empty()));
    assert(seq![xb] + Seq::<crate::action::ScalarV>::empty() =~= seq![xb]);
    assert(seq![xa] + seq![xb] =~= seq![xa, xb]);
    assert(crate::generic::parse_all(t, ab) == Ok::<Seq<crate::action::ScalarV>, Seq<char>>(seq![xa, xb]));
    let se = sd.with_values(sd.values.update(v as int, ValueV::Many(t, seq![xa, xb])));
    assert(spec_list_loop(p, sd, 0) == spec_list_loop(p, se, 1));
    assert(spec_list_loop(p, se, 1) == spec_catchall_list(p, se));
    assert(sd.list_arguments.len() == 0);
    assert(spec_catchall_list(p, se) == (se, ParseResultV::Parsed));
}

/// An option that receives a value marks its variable set whatever its
/// action, list options included; so when the variable of a list option is
/// the only required one, giving the option a value that parses makes the
/// parse succeed.
pub proof fn law_list_option_sets_its_variable(
    p: ParserV,
    cmd: Seq<char>,
    name: Seq<char>,
    a: Seq<char>,
    env: Seq<Option<Seq<char>>>,
    i: usize,
)
    requires
        p.wf(),
        spec_kind(name) == ArgumentKind::LongOption,
        char_index(name, '=') == -1,
        map_get(p.long_options, name) == Some(i),
        p.options[i as int].action is Push || p.options[i as int].action is Many,
    ensures
        spec_parse(p, seq![cmd, name + "="@ + a], env).0.set_vars[p.options[i as int].varid->0 as int],
        (forall|w: int| 0 <= w < p.vars.len() && w != p.options[i as int].varid->0 ==> !(
        #[trigger] p.vars[w]).required) && spec_parse_scalar(
            p.values[p.options[i as int].varid->0 as int].scalar_type(),
            a,
        ) is Some ==> spec_parse(p, seq![cmd, name + "="@ + a], env).1 == ParseResultV::Parsed,
{
    crate::parser::lemma_key_index_range(p.long_options, name);
    let opt = p.options[i as int];
    assert(opt.wf(i as int, p.vars.len()));
    let v = opt.varid->0;
    let t = p.values[v as int].scalar_type();
    let w1 = name + "="@ + a;
    let args = seq![cmd, w1];
    assert(args[1] == w1);
    lemma_named_word(name, a);
    let s0 = CtxV::initial(p);
    lemma_env_shape(p, env, s0, 0);
    lemma_env_frame_len(p, env, s0, 0);
    let s1 = spec_env_loop(p, env, s0, 0);
    let sa = s1.advance(1).advance(1);
    lemma_list_word(p, args, sa, name, a, i);
    let sd = sa.mark(opt.varid).extend(i, seq![a]);
    assert(spec_options_loop(p, args, sd) == (sd, ParseResultV::Parsed));
    assert(spec_parse_options(p, args, s1) == (sd, ParseResultV::Parsed));
    assert(spec_arguments_loop(p, sd, 0, 0) == (sd, ParseResultV::Parsed));
    assert(crate::context::list_index(Seq::empty(), i) == -1);
    assert(sd.list_options =~= seq![(i, seq![a])]);
    assert(sd.set_vars[v as int]);
    let l = match opt.action {
        Action::Push(l) => l,
        Action::Many(l) => l,
        _ => arbitrary(),
    };
    assert(l.varid == v);
    let (vals, r) = l.spec_parse_args(seq![a], sd.values);
    let se = sd.with_values(vals);
    if r is Parsed {
        assert(spec_list_loop(p, sd, 0) == spec_list_loop(p, se, 1));
        assert(spec_list_loop(p, se, 1) == spec_catchall_list(p, se));
        assert(spec_catchall_list(p, se) == (se, ParseResultV::Parsed));
        assert(se.set_vars == sd.set_vars);
        if (forall|w: int| 0 <= w < p.vars.len() && w != v ==> !(#[trigger] p.vars[w]).required) {
            lemma_required_only(p, se.set_vars, 0, v as int);
        }
    } else {
        assert(spec_list_loop(p, sd, 0) == (se, r));
    }
    if spec_parse_scalar(t, a) is Some {
        assert(sd.values[v as int].scalar_type() == t);
        assert(seq![a].drop_first() =~= Seq::<Seq<char>>::empty());
        assert(seq![a][0] == a);
        assert(crate::generic::parse_all(t, Seq::<Seq<char>>::empty()) is Ok);
        assert(crate::generic::parse_all(t, seq![a]) is Ok);
        assert(r is Parsed);
    }
}

proof fn lemma_required_only(p: ParserV, sv: Seq<bool>, k: nat, v: int)
    requires
        p.wf(),
        0 <= v < sv.len(),
        sv[v],
        sv.len() == p.vars.len(),
        forall|w: int| 0 <= w < p.vars.len() && w != v ==> !(#[trigger] p.vars[w]).required,
    ensures
        spec_check_required(p, sv, k) == ParseResultV::Parsed,
    decreases p.vars.len() - k,
{
    if k < p.vars.len() {
        assert(p.vars[k as int].id == k);
        lemma_required_only(p, sv, k + 1, v);
    }
}

/// The help line of every option that takes a value (`Single`, `Push` or
/// `Many`) shows, after its names, a space and the metavariable of its
/// variable; a flag's line shows its names and then the padding.
pub proof fn law_value_options_show_their_metavar(p: ParserV, o: OptionV)
    ensures
        !(o.action is Flag) ==> {
            let head = "  "@ + join(o.names, ","@) + " "@ + p.vars[o.varid->0 as int].metavar;
            option_text(p, o).take(head.len() as int) == head
        },
        o.action is Flag ==> {
            let head = "  "@ + join(o.names, ","@);
            option_text(p, o).take(head.len() as int) == head && option_text(p, o).skip(
                head.len() as int,
            ).take(1) == pad(2 + names_width(o.names)).take(1)
        },
{
    let names = "  "@ + join(o.names, ","@);
    if o.action is Flag {
        assert(option_text(p, o) == names + (pad(2 + names_width(o.names)) + wrap_text(
            o.help,
            TOTAL_WIDTH as int,
            OPTION_WIDTH as nat,
        ) + "\n"@)) by {
            assert(option_metavar(p, o) =~= Seq::<char>::empty());
            assert(names + option_metavar(p, o) =~= names);
        }
        let rest = pad(2 + names_width(o.names)) + wrap_text(o.help, TOTAL_WIDTH as int, OPTION_WIDTH as nat) + "\n"@;
        assert((names + rest).take(names.len() as int) =~= names);
        assert((names + rest).skip(names.len() as int) =~= rest);
        assert(pad(2 + names_width(o.names)).len() >= 1) by {
            reveal_strlit("\n");
        }
        assert(rest.take(1) =~= pad(2 + names_width(o.names)).take(1));
    } else {
        let head = names + " "@ + p.vars[o.varid->0 as int].metavar;
        let rest = pad(2 + names_width(o.names) + option_metavar_width(p, o)) + wrap_text(
            o.help,
            TOTAL_WIDTH as int,
            OPTION_WIDTH as nat,
        ) + "\n"@;
        assert(option_text(p, o) =~= head + rest);
        assert((head + rest).take(head.len() as int) =~= head);
    }
}

/// `-cVALUE` gives a `Store` short option `-c` the rest of the word as its
/// value: the variable ends holding the parsed value.  The environment may
/// hold anything.
pub proof fn law_short_option_attached_value(
    p: ParserV,
    cmd: Seq<char>,
    c: char,
    value: Seq<char>,
    env: Seq<Option<Seq<char>>>,
    v: usize,
)
    requires
        p.wf(),
        c != '-',
        value.len() >= 1,
        map_get(p.short_options, c) matches Some(i) && p.options[i as int].action
            == Action::Single(ArgAction::Store(StoreAction { varid: v })),
        spec_parse_scalar(p.values[v as int].scalar_type(), value) is Some,
    ensures
        spec_parse(p, seq![cmd, seq!['-', c] + value], env).0.values[v as int] == ValueV::One(
            spec_parse_scalar(p.values[v as int].scalar_type(), value)->0,
        ),
{
    let word = seq!['-', c] + value;
    let args = seq![cmd, word];
    assert(args[1] == word);
    let i = map_get(p.short_options, c)->0;
    crate::parser::lemma_key_index_range(p.short_options, c);
    assert(p.options[i as int].wf(i as int, p.vars.len()));
    assert(word[0] == '-' && word[1] == c);
    assert(spec_kind(word) == ArgumentKind::ShortOption);
    assert(word.subrange(2, word.len() as int) =~= value);
    let s0 = CtxV::initial(p);
    lemma_env_shape(p, env, s0, 0);
    lemma_env_frame_len(p, env, s0, 0);
    let s1 = spec_env_loop(p, env, s0, 0);
    let sa = s1.advance(1).advance(1);
    let t = p.values[v as int].scalar_type();
    assert(sa.values[v as int].scalar_type() == t);
    let x = spec_parse_scalar(t, value)->0;
    let sd = sa.mark(Some(v)).with_values(sa.values.update(v as int, ValueV::One(x)));
    assert(spec_parse_short_from(p, args, sa, word, 1) == (sd, ParseResultV::Parsed));
    assert(spec_options_loop(p, args, sd) == (sd, ParseResultV::Parsed));
    assert(spec_parse_options(p, args, s1) == (sd, ParseResultV::Parsed));
    assert(spec_arguments_loop(p, sd, 0, 0) == (sd, ParseResultV::Parsed));
    lemma_list_phase_start(p, sd);
}

proof fn lemma_greedy_all(args: Seq<Seq<char>>, pos: int)
    requires
        0 <= pos <= args.len(),
        forall|j: int| pos <= j < args.len() ==> !crate::context::starts_with_dash(#[trigger] args[j]),
    ensures
        crate::context::greedy_count(args, pos) == args.len() - pos,
    decreases args.len() - pos,
{
    if pos < args.len() {
        lemma_greedy_all(args, pos + 1);
    }
}

/// A `List` option takes every following word that does not start with
/// `-`: `--name w1 ... wn` stores all of `w1 ... wn`, parsed, in order.  The
/// environment may hold anything.
pub proof fn law_list_option_takes_following_words(
    p: ParserV,
    cmd: Seq<char>,
    name: Seq<char>,
    ws: Seq<Seq<char>>,
    env: Seq<Option<Seq<char>>>,
    v: usize,
)
    requires
        p.wf(),
        ws.len() >= 1,
        forall|j: int| 0 <= j < ws.len() ==> !crate::context::starts_with_dash(#[trigger] ws[j]),
        spec_kind(name) == ArgumentKind::LongOption,
        char_index(name, '=') == -1,
        map_get(p.long_options, name) matches Some(i) && p.options[i as int].action
            == Action::Many(ListAction { varid: v }),
        crate::generic::parse_all(p.values[v as int].scalar_type(), ws) is Ok,
    ensures
        spec_parse(p, seq![cmd, name] + ws, env).0.values[v as int] == ValueV::Many(
            p.values[v as int].scalar_type(),
            crate::generic::parse_all(p.values[v as int].scalar_type(), ws)->Ok_0,
        ),
{
    let args = seq![cmd, name] + ws;
    assert(args[1] == name);
    let i = map_get(p.long_options, name)->0;
    crate::parser::lemma_key_index_range(p.long_options, name);
    assert(p.options[i as int].wf(i as int, p.vars.len()));
    assert(split_at_eq(name) == (name, None::<Seq<char>>));
    let s0 = CtxV::initial(p);
    lemma_env_shape(p, env, s0, 0);
    lemma_env_frame_len(p, env, s0, 0);
    let s1 = spec_env_loop(p, env, s0, 0);
    let sa = s1.advance(1).advance(1);
    assert(args[2] == ws[0]);
    let s2 = sa.advance(1).mark(Some(v));
    let s3 = s2.extend(i, seq![ws[0]]);
    assert forall|j: int| 3 <= j < args.len() implies !crate::context::starts_with_dash(
        #[trigger] args[j],
    ) by {
        assert(args[j] == ws[j - 2]);
    }
    lemma_greedy_all(args, 3);
    let n = crate::context::greedy_count(args, 3);
    assert(s3.pos == 3);
    let rest = args.subrange(3, args.len() as int);
    let sd = s3.extend(i, rest).advance(n);
    assert(spec_parse_option(p, args, sa, i, None) == (sd, ParseResultV::Parsed));
    assert(spec_parse_long_option(p, args, sa, name) == (sd, ParseResultV::Parsed));
    assert(sd.pos == args.len());
    assert(spec_options_loop(p, args, sd) == (sd, ParseResultV::Parsed));
    assert(spec_parse_options(p, args, s1) == (sd, ParseResultV::Parsed));
    assert(spec_arguments_loop(p, sd, 0, 0) == (sd, ParseResultV::Parsed));
    crate::context::lemma_extend_twice(s2.list_options, i, seq![ws[0]], rest);
    assert(seq![ws[0]] + rest =~= ws);
    assert(crate::context::list_index(Seq::empty(), i) == -1);
    assert(sd.list_options =~= seq![(i, ws)]);
    let t = p.values[v as int].scalar_type();
    assert(sd.values[v as int].scalar_type() == t);
    let xs = crate::generic::parse_all(t, ws)->Ok_0;
    let se = sd.with_values(sd.values.update(v as int, ValueV::Many(t, xs)));
    assert(spec_list_loop(p, sd, 0) == spec_list_loop(p, se, 1));
    lemma_list_phase_end(p, se);
}

proof fn lemma_list_phase_end(p: ParserV, s: CtxV)
    requires
        s.list_arguments.len() == 0,
    ensures
        spec_list_loop(p, s, s.list_options.len()) == (s, ParseResultV::Parsed),
{
    assert(spec_catchall_list(p, s) == (s, ParseResultV::Parsed));
}

proof fn lemma_all_positional(p: ParserV, args: Seq<Seq<char>>, s: CtxV)
    requires
        s.pos <= args.len(),
        forall|j: int| s.pos <= j < args.len() ==> spec_kind(#[trigger] args[j]) == ArgumentKind::Positional,
    ensures
        spec_options_loop(p, args, s) == (
            CtxV {
                arguments: s.arguments + args.subrange(s.pos as int, args.len() as int),
                pos: args.len(),
                ..s
            },
            ParseResultV::Parsed,
        ),
    decreases args.len() - s.pos,
{
    let target = CtxV {
        arguments: s.arguments + args.subrange(s.pos as int, args.len() as int),
        pos: args.len(),
        ..s
    };
    if s.pos < args.len() {
        let arg = args[s.pos as int];
        let s2 = s.advance(1).postpone(arg);
        assert(s.arguments + args.subrange(s.pos as int, args.len() as int) =~= s2.arguments
            + args.subrange(s2.pos as int, args.len() as int));
        if p.stop_on_first_argument {
            assert(s2.postpone_rest(args) =~= target);
        } else {
            lemma_all_positional(p, args, s2);
            assert(spec_options_loop(p, args, s2).0 =~= target);
        }
    } else {
        assert(target =~= s);
    }
}

/// The argument `j` of the parser is a `Store` argument whose value parses
/// `w`.
pub open spec fn stores(p: ParserV, j: int, w: Seq<char>) -> bool {
    &&& p.arguments[j].action == Action::Single(ArgAction::Store(StoreAction { varid: p.arguments[j].varid }))
    &&& spec_parse_scalar(p.values[p.arguments[j].varid as int].scalar_type(), w) is Some
}

#[verifier::rlimit(40)]
proof fn lemma_positional_in_order(p: ParserV, s: CtxV, i: nat)
    requires
        p.wf(),
        s.values.len() == p.vars.len(),
        s.set_vars.len() == p.vars.len(),
        i <= s.arguments.len() <= p.arguments.len(),
        forall|j: int, k: int|
            0 <= j < k < s.arguments.len() ==> p.arguments[j].varid != p.arguments[k].varid,
        forall|j: int| i <= j < s.arguments.len() ==> !s.set_vars[(#[trigger] p.arguments[j]).varid as int],
        forall|j: int| i <= j < s.arguments.len() ==> stores(p, j, #[trigger] s.arguments[j]),
        forall|j: int| i <= j < s.arguments.len() ==> (#[trigger] s.values[p.arguments[j].varid as int]).scalar_type()
            == p.values[p.arguments[j].varid as int].scalar_type(),
    ensures
        ({
            let r = spec_arguments_loop(p, s, i, i);
            &&& r.1 == ParseResultV::Parsed
            &&& r.0.values.len() == s.values.len()
            &&& r.0.list_options == s.list_options
            &&& r.0.list_arguments == s.list_arguments
            &&& forall|w: int|
                0 <= w < s.values.len() && (forall|j: int|
                    i <= j < s.arguments.len() ==> (#[trigger] p.arguments[j]).varid != w)
                    ==> r.0.values[w] == s.values[w]
            &&& forall|j: int|
                i <= j < s.arguments.len() ==> r.0.values[(#[trigger] p.arguments[j]).varid as int]
                    == ValueV::One(
                    spec_parse_scalar(
                        p.values[p.arguments[j].varid as int].scalar_type(),
                        s.arguments[j],
                    )->0,
                )
        }),
    decreases s.arguments.len() - i,
{
    if i < s.arguments.len() {
        let a = p.arguments[i as int];
        assert(a.wf(p.vars.len()));
        assert(!s.set_vars[a.varid as int]);
        assert(stores(p, i as int, s.arguments[i as int]));
        assert(crate::context::next_free(p, s.set_vars, i) == i);
        let w = s.arguments[i as int];
        let t = p.values[a.varid as int].scalar_type();
        assert(s.values[a.varid as int].scalar_type() == t);
        let x = spec_parse_scalar(t, w)->0;
        let s2 = s.mark(Some(a.varid)).with_values(s.values.update(a.varid as int, ValueV::One(x)));
        assert(spec_arguments_loop(p, s, i, i) == spec_arguments_loop(p, s2, i + 1, i + 1));
        assert forall|j: int| i + 1 <= j < s2.arguments.len() implies !s2.set_vars[(
        #[trigger] p.arguments[j]).varid as int] by {
            assert(p.arguments[i as int].varid != p.arguments[j].varid);
        }
        assert forall|j: int| i + 1 <= j < s2.arguments.len() implies (#[trigger] s2.values[p.arguments[j].varid as int]).scalar_type()
            == p.values[p.arguments[j].varid as int].scalar_type() by {
            assert(p.arguments[i as int].varid != p.arguments[j].varid);
            assert(s.values[p.arguments[j].varid as int].scalar_type() == p.values[p.arguments[j].varid as int].scalar_type());
        }
        assert forall|j: int| i + 1 <= j < s2.arguments.len() implies stores(p, j, #[trigger] s2.arguments[j]) by {
            assert(stores(p, j, s.arguments[j]));
        }
        lemma_positional_in_order(p, s2, i + 1);
        let res = spec_arguments_loop(p, s2, i + 1, i + 1);
        assert forall|v: int|
            0 <= v < s.values.len() && (forall|j: int|
                i <= j < s.arguments.len() ==> (#[trigger] p.arguments[j]).varid != v)
                implies res.0.values[v] == s.values[v] by {
            assert(p.arguments[i as int].varid != v);
            assert forall|j: int| i + 1 <= j < s2.arguments.len() implies (#[trigger] p.arguments[j]).varid != v by {}
            assert(res.0.values[v] == s2.values[v]);
        }
        assert forall|j: int|
            i <= j < s.arguments.len() implies res.0.values[(#[trigger] p.arguments[j]).varid as int]
                == ValueV::One(
                spec_parse_scalar(
                    p.values[p.arguments[j].varid as int].scalar_type(),
                    s.arguments[j],
                )->0,
            ) by {
            if j == i {
                let v = a.varid as int;
                assert forall|k: int| i + 1 <= k < s2.arguments.len() implies (#[trigger] p.arguments[k]).varid != v by {
                    assert(p.arguments[i as int].varid != p.arguments[k].varid);
                }
                assert(res.0.values[v] == s2.values[v]);
            }
        }
    }
}

/// Positional words are given, in order, to the positional arguments: the
/// `j`-th word after the command name is parsed into the variable of the
/// `j`-th positional argument (for `Store` arguments of distinct variables,
/// with no environment variable set).
pub proof fn law_positional_words_in_order(
    p: ParserV,
    cmd: Seq<char>,
    ws: Seq<Seq<char>>,
    env: Seq<Option<Seq<char>>>,
    j: int,
)
    requires
        p.wf(),
        env.len() == p.env_vars.len(),
        forall|k: int| 0 <= k < env.len() ==> env[k] is None,
        ws.len() <= p.arguments.len(),
        forall|k: int| 0 <= k < ws.len() ==> spec_kind(#[trigger] ws[k]) == ArgumentKind::Positional,
        forall|k: int, l: int| 0 <= k < l < ws.len() ==> p.arguments[k].varid != p.arguments[l].varid,
        forall|k: int| 0 <= k < ws.len() ==> stores(p, k, #[trigger] ws[k]),
        0 <= j < ws.len(),
    ensures
        spec_parse(p, seq![cmd] + ws, env).0.values[p.arguments[j].varid as int] == ValueV::One(
            spec_parse_scalar(p.values[p.arguments[j].varid as int].scalar_type(), ws[j])->0,
        ),
{
    let args = seq![cmd] + ws;
    let s0 = CtxV::initial(p);
    lemma_env_none(p, env, s0, 0);
    let sa = s0.advance(1);
    assert forall|k: int| 1 <= k < args.len() implies spec_kind(#[trigger] args[k]) == ArgumentKind::Positional by {
        assert(args[k] == ws[k - 1]);
    }
    lemma_all_positional(p, args, sa);
    assert(args.subrange(1, args.len() as int) =~= ws);
    let s2 = CtxV { arguments: ws, pos: args.len(), ..sa };
    assert(s2.arguments =~= Seq::<Seq<char>>::empty() + ws);
    assert(spec_parse_options(p, args, s0) == (s2, ParseResultV::Parsed));
    assert forall|k: int| 0 <= k < s2.arguments.len() implies !s2.set_vars[(#[trigger] p.arguments[k]).varid as int] by {
        assert(p.arguments[k].wf(p.vars.len()));
    }
    assert forall|k: int| 0 <= k < s2.arguments.len() implies (#[trigger] s2.values[p.arguments[k].varid as int]).scalar_type()
        == p.values[p.arguments[k].varid as int].scalar_type() by {}
    lemma_positional_in_order(p, s2, 0);
    let (s3, r3) = spec_arguments_loop(p, s2, 0, 0);
    assert(s3.list_options.len() == 0);
    lemma_list_phase_start(p, s3);
    assert(s3.values[p.arguments[j].varid as int] == ValueV::One(
        spec_parse_scalar(p.values[p.arguments[j].varid as int].scalar_type(), s2.arguments[j])->0,
    ));
}

} // verus!
