//! The parser's description of the command line: variables, options,
//! positional arguments and environment variables, and the operations that
//! build it up.
use vstd::prelude::*;
use vstd::string::*;
use crate::action::{Action, FlagAction, TypedAction, Value, ValueV, view_values};
use crate::generic::StoreAction;
use crate::text::{blen, owned, push_char, upper_char, view_strings};

verus! {

/// How a command-line word is read.
pub enum ArgumentKind {
    /// A positional argument (anything that does not start with `-`, and `-` itself).
    Positional,
    /// `-x...`: one or more short options.
    ShortOption,
    /// `--name...`: a long option.
    LongOption,
    /// Exactly `--`: the end of the options.
    Delimiter,
}

/// The kind of a command-line word, from its first three characters.
pub open spec fn spec_kind(name: Seq<char>) -> ArgumentKind {
    if name.len() >= 1 && name[0] == '-' {
        if name.len() >= 2 {
            if name[1] == '-' {
                if name.len() >= 3 {
                    ArgumentKind::LongOption
                } else {
                    ArgumentKind::Delimiter
                }
            } else {
                ArgumentKind::ShortOption
            }
        } else {
            ArgumentKind::Positional
        }
    } else {
        ArgumentKind::Positional
    }
}

impl ArgumentKind {
    pub fn check(name: &str) -> (r: ArgumentKind)
        ensures
            r == spec_kind(name@),
    {
        let n = name.unicode_len();
        if n >= 1 && name.get_char(0) == '-' {
            if n >= 2 {
                if name.get_char(1) == '-' {
                    if n >= 3 {
                        ArgumentKind::LongOption
                    } else {
                        ArgumentKind::Delimiter
                    }
                } else {
                    ArgumentKind::ShortOption
                }
            } else {
                ArgumentKind::Positional
            }
        } else {
            ArgumentKind::Positional
        }
    }
}

/// A name an option can be registered under: a long option `--name`, or a
/// short option `-x` whose UTF-8 encoding takes two bytes (so `x` is ASCII).
pub open spec fn valid_option_name(name: Seq<char>) -> bool {
    spec_kind(name) == ArgumentKind::LongOption || (spec_kind(name) == ArgumentKind::ShortOption
        && name.len() == 2 && (name[1] as u32) < 128)
}

/// The position of the last entry with key `k` in an association list, or -1.
pub open spec fn key_index<K>(m: Seq<(K, usize)>, k: K) -> int
    decreases m.len(),
{
    if m.len() == 0 {
        -1
    } else if m.last().0 == k {
        m.len() - 1
    } else {
        key_index(m.drop_last(), k)
    }
}

pub proof fn lemma_key_index_range<K>(m: Seq<(K, usize)>, k: K)
    ensures
        -1 <= key_index(m, k) < m.len(),
        key_index(m, k) >= 0 ==> m[key_index(m, k)].0 == k,
        key_index(m, k) == -1 ==> forall|i: int| 0 <= i < m.len() ==> m[i].0 != k,
    decreases m.len(),
{
    if m.len() > 0 && m.last().0 != k {
        lemma_key_index_range(m.drop_last(), k);
        assert forall|i: int| 0 <= i < m.len() && key_index(m, k) == -1 implies m[i].0 != k by {
            if i < m.len() - 1 {
                assert(m.drop_last()[i] == m[i]);
            }
        }
    }
}

/// The value a map (an association list built by `map_insert`) holds for `k`.
pub open spec fn map_get<K>(m: Seq<(K, usize)>, k: K) -> Option<usize> {
    let i = key_index(m, k);
    if i >= 0 {
        Some(m[i].1)
    } else {
        None
    }
}

/// A map insertion: the entry for `k` is overwritten, or a new one added.
pub open spec fn map_insert<K>(m: Seq<(K, usize)>, k: K, v: usize) -> Seq<(K, usize)> {
    let i = key_index(m, k);
    if i >= 0 {
        m.update(i, (k, v))
    } else {
        m.push((k, v))
    }
}

/// A variable of the parser.
pub struct Var {
    pub id: usize,
    pub metavar: String,
    pub required: bool,
}

#[verifier::ext_equal]
pub struct VarV {
    pub id: usize,
    pub metavar: Seq<char>,
    pub required: bool,
}

impl View for Var {
    type V = VarV;

    open spec fn view(&self) -> VarV {
        VarV { id: self.id, metavar: self.metavar@, required: self.required }
    }
}

/// A positional argument.
pub struct GenericArgument {
    pub id: usize,
    pub varid: usize,
    pub name: String,
    pub help: String,
    pub action: Action,
}

#[verifier::ext_equal]
pub struct ArgumentV {
    pub id: usize,
    pub varid: usize,
    pub name: Seq<char>,
    pub help: Seq<char>,
    pub action: Action,
}

impl View for GenericArgument {
    type V = ArgumentV;

    open spec fn view(&self) -> ArgumentV {
        ArgumentV {
            id: self.id,
            varid: self.varid,
            name: self.name@,
            help: self.help@,
            action: self.action,
        }
    }
}

/// An option, under all of its names.
pub struct GenericOption {
    pub id: usize,
    pub varid: Option<usize>,
    pub names: Vec<String>,
    pub help: String,
    pub action: Action,
}

#[verifier::ext_equal]
pub struct OptionV {
    pub id: usize,
    pub varid: Option<usize>,
    pub names: Seq<Seq<char>>,
    pub help: Seq<char>,
    pub action: Action,
}

impl View for GenericOption {
    type V = OptionV;

    open spec fn view(&self) -> OptionV {
        OptionV {
            id: self.id,
            varid: self.varid,
            names: view_strings(self.names@),
            help: self.help@,
            action: self.action,
        }
    }
}

/// An environment variable that presets a variable.
pub struct EnvVar {
    pub varid: usize,
    pub name: String,
    pub action: StoreAction,
}

#[verifier::ext_equal]
pub struct EnvVarV {
    pub varid: usize,
    pub name: Seq<char>,
    pub action: StoreAction,
}

impl View for EnvVar {
    type V = EnvVarV;

    open spec fn view(&self) -> EnvVarV {
        EnvVarV { varid: self.varid, name: self.name@, action: self.action }
    }
}

/// The command-line parser.
pub struct ArgumentParser {
    pub description: String,
    pub vars: Vec<Var>,
    pub values: Vec<Value>,
    pub options: Vec<GenericOption>,
    pub arguments: Vec<GenericArgument>,
    pub env_vars: Vec<EnvVar>,
    pub catchall_argument: Option<GenericArgument>,
    pub short_options: Vec<(char, usize)>,
    pub long_options: Vec<(String, usize)>,
    pub stop_on_first_argument: bool,
}

/// The model of the parser.  `values` are the values the variables start
/// with; `short_options` and `long_options` map each option name to the
/// index of its option in `options`.
#[verifier::ext_equal]
pub struct ParserV {
    pub description: Seq<char>,
    pub vars: Seq<VarV>,
    pub values: Seq<ValueV>,
    pub options: Seq<OptionV>,
    pub arguments: Seq<ArgumentV>,
    pub env_vars: Seq<EnvVarV>,
    pub catchall_argument: Option<ArgumentV>,
    pub short_options: Seq<(char, usize)>,
    pub long_options: Seq<(Seq<char>, usize)>,
    pub stop_on_first_argument: bool,
}

pub open spec fn view_vars(v: Seq<Var>) -> Seq<VarV> {
    v.map_values(|x: Var| x@)
}

pub open spec fn view_options(v: Seq<GenericOption>) -> Seq<OptionV> {
    v.map_values(|x: GenericOption| x@)
}

pub open spec fn view_arguments(v: Seq<GenericArgument>) -> Seq<ArgumentV> {
    v.map_values(|x: GenericArgument| x@)
}

pub open spec fn view_env_vars(v: Seq<EnvVar>) -> Seq<EnvVarV> {
    v.map_values(|x: EnvVar| x@)
}

pub open spec fn view_long(v: Seq<(String, usize)>) -> Seq<(Seq<char>, usize)> {
    v.map_values(|x: (String, usize)| (x.0@, x.1))
}

impl View for ArgumentParser {
    type V = ParserV;

    open spec fn view(&self) -> ParserV {
        ParserV {
            description: self.description@,
            vars: view_vars(self.vars@),
            values: view_values(self.values@),
            options: view_options(self.options@),
            arguments: view_arguments(self.arguments@),
            env_vars: view_env_vars(self.env_vars@),
            catchall_argument: match self.catchall_argument {
                Some(a) => Some(a@),
                None => None,
            },
            short_options: self.short_options@,
            long_options: view_long(self.long_options@),
            stop_on_first_argument: self.stop_on_first_argument,
        }
    }
}

impl OptionV {
    pub open spec fn wf(self, id: int, nvars: nat) -> bool {
        &&& self.id == id
        &&& self.names.len() >= 1
        &&& forall|j: int| 0 <= j < self.names.len() ==> valid_option_name(#[trigger] self.names[j])
        &&& self.action.varid() == self.varid
        &&& self.varid matches Some(v) ==> v < nvars
    }
}

impl ArgumentV {
    pub open spec fn wf(self, nvars: nat) -> bool {
        &&& self.varid < nvars
        &&& self.action.varid() == Some(self.varid)
    }
}

impl ParserV {
    /// What the parser's operations keep: every index points into its table,
    /// options have valid names, positional arguments take one argument each,
    /// the catch-all argument takes a list.
    pub open spec fn wf(self) -> bool {
        &&& self.vars.len() == self.values.len()
        &&& forall|i: int| 0 <= i < self.vars.len() ==> (#[trigger] self.vars[i]).id == i
        &&& forall|i: int|
            0 <= i < self.options.len() ==> (#[trigger] self.options[i]).wf(i, self.vars.len())
        &&& forall|i: int|
            0 <= i < self.arguments.len() ==> {
                &&& (#[trigger] self.arguments[i]).wf(self.vars.len())
                &&& self.arguments[i].action is Single
            }
        &&& self.catchall_argument matches Some(a) ==> {
            &&& a.wf(self.vars.len())
            &&& (a.action is Push || a.action is Many)
        }
        &&& forall|i: int|
            0 <= i < self.env_vars.len() ==> {
                &&& (#[trigger] self.env_vars[i]).varid < self.vars.len()
                &&& self.env_vars[i].action.varid == self.env_vars[i].varid
            }
        &&& forall|i: int|
            0 <= i < self.short_options.len() ==> (#[trigger] self.short_options[i]).1
                < self.options.len()
        &&& forall|i: int|
            0 <= i < self.long_options.len() ==> (#[trigger] self.long_options[i]).1
                < self.options.len()
    }

    /// Registers every name of option `idx` in the short or long map.
    pub open spec fn register_names(
        short: Seq<(char, usize)>,
        long: Seq<(Seq<char>, usize)>,
        names: Seq<Seq<char>>,
        idx: usize,
    ) -> (Seq<(char, usize)>, Seq<(Seq<char>, usize)>)
        decreases names.len(),
    {
        if names.len() == 0 {
            (short, long)
        } else {
            let (s, l) = ParserV::register_names(short, long, names.drop_last(), idx);
            let n = names.last();
            if spec_kind(n) == ArgumentKind::LongOption {
                (s, map_insert(l, n, idx))
            } else {
                (map_insert(s, n[1], idx), l)
            }
        }
    }

    /// The parser after an option with these names, help and action is added.
    pub open spec fn spec_add_option(
        self,
        var: Option<usize>,
        names: Seq<Seq<char>>,
        action: Action,
        help: Seq<char>,
    ) -> ParserV {
        let idx = self.options.len() as usize;
        let (s, l) = ParserV::register_names(self.short_options, self.long_options, names, idx);
        ParserV {
            options: self.options.push(OptionV { id: idx, varid: var, names, help, action }),
            short_options: s,
            long_options: l,
            ..self
        }
    }
}

pub open spec fn view_strs(v: Seq<&str>) -> Seq<Seq<char>> {
    v.map_values(|s: &str| s@)
}

fn find_short(m: &Vec<(char, usize)>, k: char) -> (r: Option<usize>)
    ensures
        r matches Some(j) ==> key_index(m@, k) == j,
        r is None ==> key_index(m@, k) == -1,
{
    let mut i = m.len();
    assert(m@.take(i as int) == m@);
    while i > 0
        invariant
            i <= m.len(),
            key_index(m@, k) == key_index(m@.take(i as int), k),
        decreases i,
    {
        assert(m@.take(i as int).last() == m@[i - 1]);
        if m[i - 1].0 == k {
            return Some(i - 1);
        }
        assert(m@.take(i as int).drop_last() == m@.take(i - 1));
        i = i - 1;
    }
    None
}

fn find_long(m: &Vec<(String, usize)>, k: &String) -> (r: Option<usize>)
    ensures
        r matches Some(j) ==> key_index(view_long(m@), k@) == j,
        r is None ==> key_index(view_long(m@), k@) == -1,
{
    let mut i = m.len();
    assert(view_long(m@).take(i as int) == view_long(m@));
    while i > 0
        invariant
            i <= m.len(),
            key_index(view_long(m@), k@) == key_index(view_long(m@).take(i as int), k@),
        decreases i,
    {
        assert(view_long(m@).take(i as int).last() == (m@[i - 1].0@, m@[i - 1].1));
        if m[i - 1].0 == *k {
            return Some(i - 1);
        }
        assert(view_long(m@).take(i as int).drop_last() == view_long(m@).take(i - 1));
        i = i - 1;
    }
    None
}

/// Looks up a short option name.
pub fn lookup_short(m: &Vec<(char, usize)>, k: char) -> (r: Option<usize>)
    ensures
        r == map_get(m@, k),
{
    proof {
        lemma_key_index_range(m@, k);
    }
    match find_short(m, k) {
        Some(j) => Some(m[j].1),
        None => None,
    }
}

/// Looks up a long option name.
pub fn lookup_long(m: &Vec<(String, usize)>, k: &String) -> (r: Option<usize>)
    ensures
        r == map_get(view_long(m@), k@),
{
    proof {
        lemma_key_index_range(view_long(m@), k@);
    }
    match find_long(m, k) {
        Some(j) => Some(m[j].1),
        None => None,
    }
}

fn insert_short(m: &mut Vec<(char, usize)>, k: char, v: usize)
    ensures
        final(m)@ == map_insert(old(m)@, k, v),
{
    proof {
        lemma_key_index_range(m@, k);
    }
    match find_short(m, k) {
        Some(j) => {
            m.set(j, (k, v));
        },
        None => {
            m.push((k, v));
        },
    }
}

fn insert_long(m: &mut Vec<(String, usize)>, k: String, v: usize)
    ensures
        view_long(final(m)@) == map_insert(view_long(old(m)@), k@, v),
{
    proof {
        lemma_key_index_range(view_long(m@), k@);
    }
    let ghost km = k@;
    match find_long(m, &k) {
        Some(j) => {
            m.set(j, (k, v));
            assert(view_long(m@) =~= view_long(old(m)@).update(j as int, (km, v)));
        },
        None => {
            m.push((k, v));
            assert(view_long(m@) =~= view_long(old(m)@).push((km, v)));
        },
    }
}

fn strs_to_strings(names: &[&str]) -> (r: Vec<String>)
    ensures
        view_strings(r@) == view_strs(names@),
{
    let mut r: Vec<String> = Vec::new();
    let mut i: usize = 0;
    while i < names.len()
        invariant
            i <= names.len(),
            view_strings(r@) == view_strs(names@).take(i as int),
        decreases names.len() - i,
    {
        let s = owned(names[i]);
        assert(s@ == view_strs(names@)[i as int]);
        let ghost old_r = r@;
        r.push(s);
        assert(old_r.len() == view_strings(old_r).len());
        assert(view_strings(r@) =~= view_strs(names@).take(i + 1));
        i = i + 1;
    }
    assert(view_strs(names@).take(i as int) == view_strs(names@));
    r
}

pub proof fn lemma_register_bounds(
    short: Seq<(char, usize)>,
    long: Seq<(Seq<char>, usize)>,
    names: Seq<Seq<char>>,
    idx: usize,
    bound: nat,
)
    requires
        idx < bound,
        forall|i: int| 0 <= i < short.len() ==> (#[trigger] short[i]).1 < bound,
        forall|i: int| 0 <= i < long.len() ==> (#[trigger] long[i]).1 < bound,
    ensures
        ({
            let (s, l) = ParserV::register_names(short, long, names, idx);
            &&& forall|i: int| 0 <= i < s.len() ==> (#[trigger] s[i]).1 < bound
            &&& forall|i: int| 0 <= i < l.len() ==> (#[trigger] l[i]).1 < bound
        }),
    decreases names.len(),
{
    if names.len() > 0 {
        lemma_register_bounds(short, long, names.drop_last(), idx, bound);
        let (s, l) = ParserV::register_names(short, long, names.drop_last(), idx);
        lemma_key_index_range(s, names.last()[1]);
        lemma_key_index_range(l, names.last());
    }
}

fn register_names_exec(
    short: &mut Vec<(char, usize)>,
    long: &mut Vec<(String, usize)>,
    names: &[&str],
    idx: usize,
)
    requires
        forall|j: int| 0 <= j < names@.len() ==> valid_option_name(#[trigger] names@[j]@),
    ensures
        (final(short)@, view_long(final(long)@)) == ParserV::register_names(
            old(short)@,
            view_long(old(long)@),
            view_strs(names@),
            idx,
        ),
{
    let mut i: usize = 0;
    assert(view_strs(names@).take(0) =~= Seq::<Seq<char>>::empty());
    while i < names.len()
        invariant
            i <= names@.len(),
            forall|j: int| 0 <= j < names@.len() ==> valid_option_name(#[trigger] names@[j]@),
            (short@, view_long(long@)) == ParserV::register_names(
                old(short)@,
                view_long(old(long)@),
                view_strs(names@).take(i as int),
                idx,
            ),
        decreases names@.len() - i,
    {
        let name = names[i];
        let ghost pre = view_strs(names@).take(i as int);
        assert(view_strs(names@).take(i + 1).drop_last() == pre);
        assert(view_strs(names@).take(i + 1).last() == name@);
        assert(valid_option_name(names@[i as int]@));
        match ArgumentKind::check(name) {
            ArgumentKind::LongOption => {
                insert_long(long, owned(name), idx);
            },
            _ => {
                let c = name.get_char(1);
                insert_short(short, c, idx);
            },
        }
        i = i + 1;
    }
    assert(view_strs(names@).take(i as int) == view_strs(names@));
}

/// The longest of the names, in bytes; the first of several equally long.
pub open spec fn longest(names: Seq<Seq<char>>) -> Seq<char>
    decreases names.len(),
{
    if names.len() <= 1 {
        names[0]
    } else {
        let l = longest(names.drop_last());
        if blen(names.last()) > blen(l) {
            names.last()
        } else {
            l
        }
    }
}

pub proof fn lemma_longest_in(names: Seq<Seq<char>>)
    requires
        names.len() >= 1,
    ensures
        exists|j: int| 0 <= j < names.len() && names[j] == longest(names),
    decreases names.len(),
{
    if names.len() > 1 {
        lemma_longest_in(names.drop_last());
        let j = choose|j: int|
            0 <= j < names.drop_last().len() && names.drop_last()[j] == longest(names.drop_last());
        assert(names[j] == names.drop_last()[j]);
        assert(names[names.len() - 1] == names.last());
    } else {
        assert(names[0] == longest(names));
    }
}

/// The character of a metavariable for a character of an option name:
/// upper case, with `-` turned into `_`.
pub open spec fn metavar_char(c: char) -> char {
    if c == '-' {
        '_'
    } else {
        upper_char(c)
    }
}

/// The metavariable derived from a long option name: the name without its
/// leading `--`, upper-cased, with `-` turned into `_`.
pub open spec fn metavar_of(name: Seq<char>) -> Seq<char> {
    name.skip(2).map_values(|c: char| metavar_char(c))
}

fn metavar_char_exec(c: char) -> (r: char)
    ensures
        r == metavar_char(c),
{
    if c == '-' {
        '_'
    } else if 'a' <= c && c <= 'z' {
        ((c as u8) - 32) as char
    } else {
        c
    }
}

fn metavar_from_name(name: &str) -> (r: String)
    requires
        name@.len() >= 2,
    ensures
        r@ == metavar_of(name@),
{
    let n = name.unicode_len();
    let mut r = String::new();
    let mut i: usize = 2;
    while i < n
        invariant
            n == name@.len(),
            2 <= i <= n,
            r@ == name@.skip(2).take(i - 2).map_values(|c: char| metavar_char(c)),
        decreases n - i,
    {
        let c = name.get_char(i);
        push_char(&mut r, metavar_char_exec(c));
        assert(name@.skip(2).take(i + 1 - 2) == name@.skip(2).take(i - 2).push(c));
        i = i + 1;
    }
    assert(name@.skip(2).take(n - 2) == name@.skip(2));
    r
}

fn longest_name<'a>(names: &[&'a str]) -> (r: &'a str)
    requires
        names@.len() >= 1,
    ensures
        r@ == longest(view_strs(names@)),
{
    let mut best = names[0];
    let mut blen_best = best.len();
    let mut i: usize = 1;
    assert(view_strs(names@).take(1) =~= seq![names@[0]@]);
    while i < names.len()
        invariant
            1 <= i <= names@.len(),
            best@ == longest(view_strs(names@).take(i as int)),
            blen_best == blen(best@),
        decreases names@.len() - i,
    {
        let name = names[i];
        assert(view_strs(names@).take(i + 1).drop_last() == view_strs(names@).take(i as int));
        assert(view_strs(names@).take(i + 1).last() == name@);
        if name.len() > blen_best {
            best = name;
            blen_best = name.len();
        }
        i = i + 1;
    }
    assert(view_strs(names@).take(i as int) == view_strs(names@));
    best
}

impl ParserV {
    /// A parser with nothing registered.
    pub open spec fn empty() -> ParserV {
        ParserV {
            description: Seq::empty(),
            vars: Seq::empty(),
            values: Seq::empty(),
            options: Seq::empty(),
            arguments: Seq::empty(),
            env_vars: Seq::empty(),
            catchall_argument: None,
            short_options: Seq::empty(),
            long_options: Seq::empty(),
            stop_on_first_argument: false,
        }
    }

    /// The parser after a variable with initial value `v` is added.
    pub open spec fn spec_refer(self, v: ValueV) -> ParserV {
        ParserV {
            vars: self.vars.push(VarV { id: self.vars.len() as usize, metavar: Seq::empty(), required: false }),
            values: self.values.push(v),
            ..self
        }
    }

    pub open spec fn set_var(self, varid: usize, v: VarV) -> ParserV {
        ParserV { vars: self.vars.update(varid as int, v), ..self }
    }

    /// The metavariable an option gives its variable: derived from the
    /// longest name if the variable has none yet and that name is longer
    /// than two bytes.
    pub open spec fn spec_option_metavar(self, varid: usize, names: Seq<Seq<char>>) -> ParserV {
        let var = self.vars[varid as int];
        let l = longest(names);
        if var.metavar.len() == 0 && blen(l) > 2 {
            self.set_var(varid, VarV { metavar: metavar_of(l), ..var })
        } else {
            self
        }
    }

    /// The parser after a positional argument is added.
    pub open spec fn spec_add_argument(
        self,
        varid: usize,
        name: Seq<char>,
        action: Action,
        help: Seq<char>,
    ) -> ParserV {
        let arg = ArgumentV { id: self.arguments.len() as usize, varid, name, help, action };
        let p = if action is Single {
            ParserV { arguments: self.arguments.push(arg), ..self }
        } else {
            ParserV { catchall_argument: Some(arg), ..self }
        };
        let var = p.vars[varid as int];
        if var.metavar.len() == 0 {
            p.set_var(varid, VarV { metavar: name, ..var })
        } else {
            p
        }
    }
}

impl ArgumentParser {
    /// A parser with only the help option, `-h`/`--help`.
    pub fn new() -> (ap: ArgumentParser)
        ensures
            ap@.wf(),
            ap@ == ParserV::empty().spec_add_option(
                None,
                seq!["-h"@, "--help"@],
                Action::Flag(FlagAction::Help),
                "show this help message and exit"@,
            ),
    {
        let mut ap = ArgumentParser {
            description: String::new(),
            vars: Vec::new(),
            values: Vec::new(),
            env_vars: Vec::new(),
            arguments: Vec::new(),
            catchall_argument: None,
            options: Vec::new(),
            short_options: Vec::new(),
            long_options: Vec::new(),
            stop_on_first_argument: false,
        };
        proof {
            assert(ap@ =~= ParserV::empty());
            reveal_strlit("-h");
            reveal_strlit("--help");
        }
        let names: [&str; 2] = ["-h", "--help"];
        assert(view_strs(names@) =~= seq!["-h"@, "--help"@]);
        ap.add_option_for(None, names.as_slice(), Action::Flag(FlagAction::Help),
            "show this help message and exit");
        ap
    }

    /// Adds a variable with its initial value; the returned `Ref` binds
    /// options and arguments to it.
    pub fn refer<'a>(&'a mut self, initial: Value) -> (r: Ref<'a>)
        requires
            old(self)@.wf(),
        ensures
            r.varid == old(self)@.vars.len(),
            r.parser@ == old(self)@.spec_refer(initial@),
            r.wf(),
            *final(self) == *final(r.parser),
    {
        let id = self.vars.len();
        self.vars.push(Var { id, metavar: String::new(), required: false });
        let ghost v = initial@;
        self.values.push(initial);
        proof {
            assert(view_vars(self.vars@) =~= view_vars(old(self).vars@).push(
                VarV { id, metavar: Seq::empty(), required: false },
            ));
            assert(view_values(self.values@) =~= view_values(old(self).values@).push(v));
            assert(self@ =~= old(self)@.spec_refer(v));
        }
        Ref { varid: id, parser: self }
    }

    /// Sets the description shown in the help text.
    pub fn set_description(&mut self, descr: &str)
        ensures
            final(self)@ == (ParserV { description: descr@, ..old(self)@ }),
            old(self)@.wf() ==> final(self)@.wf(),
    {
        self.description = owned(descr);
    }

    /// Makes the first positional argument end the options: it and all
    /// words after it are positional arguments.
    pub fn stop_on_first_argument(&mut self, want_stop: bool)
        ensures
            final(self)@ == (ParserV { stop_on_first_argument: want_stop, ..old(self)@ }),
            old(self)@.wf() ==> final(self)@.wf(),
    {
        self.stop_on_first_argument = want_stop;
    }

    /// Adds an option under the given names.
    pub fn add_option_for(&mut self, var: Option<usize>, names: &[&str], action: Action, help: &str)
        requires
            old(self)@.wf(),
            names@.len() >= 1,
            forall|j: int| 0 <= j < names@.len() ==> valid_option_name(#[trigger] names@[j]@),
            action.varid() == var,
            var matches Some(v) ==> v < old(self)@.vars.len(),
        ensures
            final(self)@ == old(self)@.spec_add_option(var, view_strs(names@), action, help@),
            final(self)@.wf(),
    {
        let idx = self.options.len();
        register_names_exec(&mut self.short_options, &mut self.long_options, names, idx);
        let opt = GenericOption {
            id: idx,
            varid: var,
            names: strs_to_strings(names),
            help: owned(help),
            action,
        };
        let ghost ov = opt@;
        self.options.push(opt);
        proof {
            assert(view_options(self.options@) =~= view_options(old(self).options@).push(ov));
            assert(self@ =~= old(self)@.spec_add_option(var, view_strs(names@), action, help@));
            lemma_register_bounds(
                old(self)@.short_options,
                old(self)@.long_options,
                view_strs(names@),
                idx,
                self.options@.len(),
            );
            assert forall|j: int| 0 <= j < ov.names.len() implies valid_option_name(
                #[trigger] ov.names[j],
            ) by {
                assert(ov.names[j] == names@[j]@);
            }
            assert(self@.options[idx as int] == ov);
        }
    }
}

/// A variable of the parser, to bind options and arguments to.
pub struct Ref<'p> {
    pub varid: usize,
    pub parser: &'p mut ArgumentParser,
}

impl<'p> Ref<'p> {
    pub open spec fn wf(&self) -> bool {
        &&& self.parser@.wf()
        &&& self.varid < self.parser@.vars.len()
    }

    /// Replaces the metavariable of the variable.
    fn set_metavar(&mut self, m: String)
        requires
            old(self).wf(),
        ensures
            final(self).varid == old(self).varid,
            final(self).parser@ == old(self).parser@.set_var(
                old(self).varid,
                VarV { metavar: m@, ..old(self).parser@.vars[old(self).varid as int] },
            ),
            final(self).wf(),
            *final(final(self).parser) == *final(old(self).parser),
    {
        let varid = self.varid;
        let required = self.parser.vars[varid].required;
        let ghost nv = VarV { metavar: m@, ..self.parser@.vars[varid as int] };
        self.parser.vars.set(varid, Var { id: varid, metavar: m, required });
        proof {
            assert(view_vars(self.parser.vars@) =~= view_vars(old(self).parser.vars@).update(
                varid as int,
                nv,
            ));
            assert(self.parser@ =~= old(self).parser@.set_var(varid, nv));
        }
    }

    /// Binds the variable to an option with the given names.  If the
    /// variable has no metavariable yet, the longest name gives it one.
    pub fn add_option<A: TypedAction>(&mut self, names: &[&str], action: A, help: &str) -> (r:
        &mut Self)
        requires
            old(self).wf(),
            names@.len() >= 1,
            forall|j: int| 0 <= j < names@.len() ==> valid_option_name(#[trigger] names@[j]@),
        ensures
            r.varid == old(self).varid,
            r.parser@ == old(self).parser@.spec_option_metavar(
                old(self).varid,
                view_strs(names@),
            ).spec_add_option(
                Some(old(self).varid),
                view_strs(names@),
                action.spec_bind(old(self).varid),
                help@,
            ),
            r.wf(),
            *final(self) == *final(r),
            *final(r.parser) == *final(old(self).parser),
    {
        let varid = self.varid;
        if self.parser.vars[varid].metavar.as_str().is_empty() {
            let longest = longest_name(names);
            if longest.len() > 2 {
                proof {
                    lemma_longest_in(view_strs(names@));
                }
                let m = metavar_from_name(longest);
                self.set_metavar(m);
            }
        }
        let act = action.bind(varid);
        self.parser.add_option_for(Some(varid), names, act, help);
        self
    }

    /// Binds the variable to a positional argument.  An argument that takes
    /// a list becomes the catch-all argument, of which there is one.  If the
    /// variable has no metavariable yet, the argument's name becomes it.
    pub fn add_argument<A: TypedAction>(&mut self, name: &str, action: A, help: &str) -> (r:
        &mut Self)
        requires
            old(self).wf(),
            !(action.spec_bind(old(self).varid) is Flag),
            !(action.spec_bind(old(self).varid) is Single) ==> old(
                self,
            ).parser@.catchall_argument is None,
        ensures
            r.varid == old(self).varid,
            r.parser@ == old(self).parser@.spec_add_argument(
                old(self).varid,
                name@,
                action.spec_bind(old(self).varid),
                help@,
            ),
            r.wf(),
            *final(self) == *final(r),
            *final(r.parser) == *final(old(self).parser),
    {
        let varid = self.varid;
        let act = action.bind(varid);
        let is_single = match &act {
            Action::Single(_) => true,
            _ => false,
        };
        let id = self.parser.arguments.len();
        let arg = GenericArgument { id, varid, name: owned(name), help: owned(help), action: act };
        let ghost av = arg@;
        let ghost p0 = self.parser@;
        if is_single {
            self.parser.arguments.push(arg);
            proof {
                assert(view_arguments(self.parser.arguments@) =~= view_arguments(
                    old(self).parser.arguments@,
                ).push(av));
                assert(self.parser@ =~= (ParserV { arguments: p0.arguments.push(av), ..p0 }));
            }
        } else {
            self.parser.catchall_argument = Some(arg);
            assert(self.parser@ =~= (ParserV { catchall_argument: Some(av), ..p0 }));
        }
        if self.parser.vars[varid].metavar.as_str().is_empty() {
            self.set_metavar(owned(name));
        }
        self
    }

    /// Sets the metavariable of the variable, its name in the help text.
    pub fn metavar(&mut self, name: &str) -> (r: &mut Self)
        requires
            old(self).wf(),
        ensures
            r.varid == old(self).varid,
            r.parser@ == old(self).parser@.set_var(
                old(self).varid,
                VarV { metavar: name@, ..old(self).parser@.vars[old(self).varid as int] },
            ),
            r.wf(),
            *final(self) == *final(r),
            *final(r.parser) == *final(old(self).parser),
    {
        self.set_metavar(owned(name));
        self
    }

    /// Makes the variable required: parsing fails when nothing sets it.
    pub fn required(&mut self) -> (r: &mut Self)
        requires
            old(self).wf(),
        ensures
            r.varid == old(self).varid,
            r.parser@ == old(self).parser@.set_var(
                old(self).varid,
                VarV { required: true, ..old(self).parser@.vars[old(self).varid as int] },
            ),
            r.wf(),
            *final(self) == *final(r),
            *final(r.parser) == *final(old(self).parser),
    {
        let varid = self.varid;
        let m = self.parser.vars[varid].metavar.clone();
        let ghost nv = VarV { required: true, ..self.parser@.vars[varid as int] };
        self.parser.vars.set(varid, Var { id: varid, metavar: m, required: true });
        proof {
            assert(view_vars(self.parser.vars@) =~= view_vars(old(self).parser.vars@).update(
                varid as int,
                nv,
            ));
            assert(self.parser@ =~= old(self).parser@.set_var(varid, nv));
        }
        self
    }

    /// Lets the environment variable `varname` preset the variable; its
    /// value is parsed as `Store` parses an argument.
    pub fn envvar(&mut self, varname: &str) -> (r: &mut Self)
        requires
            old(self).wf(),
        ensures
            r.varid == old(self).varid,
            r.parser@ == (ParserV {
                env_vars: old(self).parser@.env_vars.push(
                    EnvVarV {
                        varid: old(self).varid,
                        name: varname@,
                        action: StoreAction { varid: old(self).varid },
                    },
                ),
                ..old(self).parser@
            }),
            r.wf(),
            *final(self) == *final(r),
            *final(r.parser) == *final(old(self).parser),
    {
        let varid = self.varid;
        let e = EnvVar { varid, name: owned(varname), action: StoreAction { varid } };
        let ghost ev = e@;
        self.parser.env_vars.push(e);
        proof {
            assert(view_env_vars(self.parser.env_vars@) =~= view_env_vars(
                old(self).parser.env_vars@,
            ).push(ev));
        }
        self
    }
}

} // verus!
