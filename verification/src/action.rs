//! Values of the parser's variables, the result of one parsing step, and the
//! actions that options and arguments perform on a variable.
use vstd::prelude::*;
use crate::generic::{ListAction, StoreAction, StoreConstAction, StoreOptionAction};

verus! {

/// The type a variable's elements are parsed as.
#[derive(Clone, Copy, Debug, PartialEq, Eq)]
pub enum ScalarType {
    Bool,
    Int,
    Str,
}

/// One parsed value.
#[derive(Debug, PartialEq, Eq)]
pub enum Scalar {
    Bool(bool),
    Int(i64),
    Str(String),
}

/// The mathematical model of a `Scalar`: strings as character sequences.
pub enum ScalarV {
    Bool(bool),
    Int(i64),
    Str(Seq<char>),
}

impl ScalarV {
    pub open spec fn scalar_type(self) -> ScalarType {
        match self {
            ScalarV::Bool(_) => ScalarType::Bool,
            ScalarV::Int(_) => ScalarType::Int,
            ScalarV::Str(_) => ScalarType::Str,
        }
    }
}

impl View for Scalar {
    type V = ScalarV;

    open spec fn view(&self) -> ScalarV {
        match self {
            Scalar::Bool(b) => ScalarV::Bool(*b),
            Scalar::Int(i) => ScalarV::Int(*i),
            Scalar::Str(s) => ScalarV::Str(s@),
        }
    }
}

impl Clone for Scalar {
    fn clone(&self) -> (r: Self)
        ensures
            r == *self,
    {
        match self {
            Scalar::Bool(b) => Scalar::Bool(*b),
            Scalar::Int(i) => Scalar::Int(*i),
            Scalar::Str(s) => Scalar::Str(s.clone()),
        }
    }
}

impl Scalar {
    /// The type of this value.
    pub fn scalar_type(&self) -> (t: ScalarType)
        ensures
            t == self@.scalar_type(),
    {
        match self {
            Scalar::Bool(_) => ScalarType::Bool,
            Scalar::Int(_) => ScalarType::Int,
            Scalar::Str(_) => ScalarType::Str,
        }
    }
}

/// The value of one variable of the parser: a single value (what `Store` and
/// `StoreConst` write), an optional value (`StoreOption`), or a list (`List`,
/// `Collect`).  The optional and list forms record their element type.
#[derive(Debug, PartialEq, Eq)]
pub enum Value {
    One(Scalar),
    Optional(ScalarType, Option<Scalar>),
    Many(ScalarType, Vec<Scalar>),
}

/// The mathematical model of a `Value`.
pub enum ValueV {
    One(ScalarV),
    Optional(ScalarType, Option<ScalarV>),
    Many(ScalarType, Seq<ScalarV>),
}

impl ValueV {
    /// The element type of a variable: the type an argument is parsed as.
    pub open spec fn scalar_type(self) -> ScalarType {
        match self {
            ValueV::One(s) => s.scalar_type(),
            ValueV::Optional(t, _) => t,
            ValueV::Many(t, _) => t,
        }
    }
}

pub open spec fn view_scalars(v: Seq<Scalar>) -> Seq<ScalarV> {
    v.map_values(|x: Scalar| x@)
}

impl View for Value {
    type V = ValueV;

    open spec fn view(&self) -> ValueV {
        match self {
            Value::One(s) => ValueV::One(s@),
            Value::Optional(t, o) => ValueV::Optional(
                *t,
                match o {
                    Some(s) => Some(s@),
                    None => None,
                },
            ),
            Value::Many(t, v) => ValueV::Many(*t, view_scalars(v@)),
        }
    }
}

impl Value {
    /// The element type of this variable.
    pub fn scalar_type(&self) -> (t: ScalarType)
        ensures
            t == self@.scalar_type(),
    {
        match self {
            Value::One(s) => s.scalar_type(),
            Value::Optional(t, _) => *t,
            Value::Many(t, _) => *t,
        }
    }
}

impl Clone for Value {
    fn clone(&self) -> (r: Self)
        ensures
            r@ == self@,
    {
        match self {
            Value::One(s) => Value::One(s.clone()),
            Value::Optional(t, o) => Value::Optional(
                *t,
                match o {
                    Some(s) => Some(s.clone()),
                    None => None,
                },
            ),
            Value::Many(t, v) => {
                let mut r: Vec<Scalar> = Vec::new();
                let mut i: usize = 0;
                while i < v.len()
                    invariant
                        i <= v.len(),
                        r@ == v@.take(i as int),
                    decreases v.len() - i,
                {
                    r.push(v[i].clone());
                    assert(r@ =~= v@.take(i + 1));
                    i = i + 1;
                }
                assert(v@.take(i as int) == v@);
                Value::Many(*t, r)
            },
        }
    }
}

/// Copies a list of values.
pub fn copy_values(v: &Vec<Value>) -> (r: Vec<Value>)
    ensures
        view_values(r@) == view_values(v@),
{
    let mut r: Vec<Value> = Vec::new();
    let mut i: usize = 0;
    while i < v.len()
        invariant
            i <= v.len(),
            view_values(r@) == view_values(v@).take(i as int),
        decreases v.len() - i,
    {
        let x = v[i].clone();
        let ghost old_r = r@;
        r.push(x);
        assert(old_r.len() == view_values(old_r).len());
        assert(view_values(r@) =~= view_values(v@).take(i + 1));
        i = i + 1;
    }
    assert(view_values(v@).take(i as int) == view_values(v@));
    r
}

/// The models of a sequence of variable values.
pub open spec fn view_values(v: Seq<Value>) -> Seq<ValueV> {
    v.map_values(|x: Value| x@)
}

pub proof fn lemma_view_values_update(v: Seq<Value>, i: int, x: Value)
    requires
        0 <= i < v.len(),
    ensures
        view_values(v.update(i, x)) == view_values(v).update(i, x@),
{
    assert(view_values(v.update(i, x)) =~= view_values(v).update(i, x@));
}

/// `bool::from_str`: exactly `true` and `false` are accepted.
pub open spec fn spec_parse_bool(s: Seq<char>) -> Option<bool> {
    if s == seq!['t', 'r', 'u', 'e'] {
        Some(true)
    } else if s == seq!['f', 'a', 'l', 's', 'e'] {
        Some(false)
    } else {
        None
    }
}

pub open spec fn is_digit(c: char) -> bool {
    '0' <= c && c <= '9'
}

/// The value of a string of decimal digits.
pub open spec fn digits_value(s: Seq<char>) -> int
    decreases s.len(),
{
    if s.len() == 0 {
        0
    } else {
        digits_value(s.drop_last()) * 10 + (s.last() as int - '0' as int)
    }
}

/// The string starts with a sign.
pub open spec fn is_signed(s: Seq<char>) -> bool {
    s.len() > 0 && (s[0] == '+' || s[0] == '-')
}

/// The string without its sign.
pub open spec fn digits_part(s: Seq<char>) -> Seq<char> {
    if is_signed(s) {
        s.drop_first()
    } else {
        s
    }
}

pub open spec fn all_digits(ds: Seq<char>) -> bool {
    forall|i: int| 0 <= i < ds.len() ==> is_digit(#[trigger] ds[i])
}

/// `i64::from_str`: an optional `+` or `-`, then one or more decimal digits,
/// whose value lies within the range of `i64`.
pub open spec fn spec_parse_i64(s: Seq<char>) -> Option<i64> {
    let ds = digits_part(s);
    let v = if is_signed(s) && s[0] == '-' {
        -digits_value(ds)
    } else {
        digits_value(ds)
    };
    if ds.len() > 0 && all_digits(ds) && i64::MIN <= v <= i64::MAX {
        Some(v as i64)
    } else {
        None
    }
}

fn parse_i64(s: &str) -> (r: Option<i64>)
    ensures
        r == spec_parse_i64(s@),
{
    let n = s.unicode_len();
    let mut i: usize = 0;
    let mut neg = false;
    if n > 0 && (s.get_char(0) == '+' || s.get_char(0) == '-') {
        neg = s.get_char(0) == '-';
        i = 1;
    }
    let ghost signed = i == 1;
    let ghost off: int = if signed { 1 } else { 0 };
    let ghost ds = digits_part(s@);
    if i >= n {
        return None;
    }
    // the magnitude, while it is at most 2^63
    let mut acc: u64 = 0;
    let bound: u64 = 0x8000_0000_0000_0000;
    while i < n
        invariant
            n == s@.len(),
            signed ==> ds == s@.drop_first(),
            !signed ==> ds == s@,
            signed <==> (s@.len() > 0 && (s@[0] == '+' || s@[0] == '-')),
            neg <==> (signed && s@[0] == '-'),
            off == (if signed { 1int } else { 0int }),
            off <= i <= n,
            forall|k: int| 0 <= k < i - off ==> is_digit(#[trigger] ds[k]),
            acc == digits_value(ds.take(i - off)),
            acc <= bound,
            bound == 0x8000_0000_0000_0000u64,
        decreases n - i,
    {
        let c = s.get_char(i);
        let ghost j = i - off;
        assert(ds[j] == c);
        if c < '0' || c > '9' {
            assert(!is_digit(ds[j]));
            assert(!all_digits(ds));
            return None;
        }
        let d = (c as u32 - '0' as u32) as u64;
        assert(ds.take(j + 1).drop_last() == ds.take(j));
        assert(ds.take(j + 1).last() == c);
        if acc > (bound - d) / 10 {
            // the value is already beyond the range of i64, and only grows
            proof {
                assert(acc * 10 + d > bound) by (nonlinear_arith)
                    requires
                        acc > (bound - d) / 10,
                        d <= 9,
                        bound == 0x8000_0000_0000_0000u64,
                ;
                lemma_digits_grow(ds, j + 1);
            }
            return None;
        }
        assert(acc * 10 + d <= bound) by (nonlinear_arith)
            requires
                acc <= (bound - d) / 10,
                d <= 9,
                bound == 0x8000_0000_0000_0000u64,
        ;
        acc = acc * 10 + d;
        i = i + 1;
    }
    assert(ds.take(i - off) == ds);
    if neg {
        if acc == bound {
            Some(i64::MIN)
        } else {
            Some(-(acc as i64))
        }
    } else {
        if acc == bound {
            None
        } else {
            Some(acc as i64)
        }
    }
}

/// Digits that follow can only make the value larger: once a prefix is
/// beyond the range of `i64`, so is the whole string, when it is all digits.
proof fn lemma_digits_grow(ds: Seq<char>, k: int)
    requires
        0 <= k <= ds.len(),
        forall|i: int| 0 <= i < k ==> is_digit(#[trigger] ds[i]),
        digits_value(ds.take(k)) > 0x8000_0000_0000_0000,
    ensures
        all_digits(ds) ==> digits_value(ds) > 0x8000_0000_0000_0000,
    decreases ds.len() - k,
{
    if k < ds.len() {
        if all_digits(ds) {
            assert(ds.take(k + 1).drop_last() == ds.take(k));
            assert(is_digit(ds[k]));
            assert(ds.take(k + 1).last() == ds[k]);
            let v = digits_value(ds.take(k));
            assert(v * 10 >= v) by (nonlinear_arith)
                requires
                    v > 0,
            ;
            lemma_digits_grow(ds, k + 1);
        }
    } else {
        assert(ds.take(k) == ds);
    }
}

fn parse_bool(s: &str) -> (r: Option<bool>)
    ensures
        r == spec_parse_bool(s@),
{
    let n = s.unicode_len();
    if n == 4 && s.get_char(0) == 't' && s.get_char(1) == 'r' && s.get_char(2) == 'u'
        && s.get_char(3) == 'e' {
        assert(s@ =~= seq!['t', 'r', 'u', 'e']);
        Some(true)
    } else if n == 5 && s.get_char(0) == 'f' && s.get_char(1) == 'a' && s.get_char(2) == 'l'
        && s.get_char(3) == 's' && s.get_char(4) == 'e' {
        assert(s@ =~= seq!['f', 'a', 'l', 's', 'e']);
        Some(false)
    } else {
        proof {
            if s@ == seq!['t', 'r', 'u', 'e'] {
                assert(s@[0] == 't' && s@[1] == 'r' && s@[2] == 'u' && s@[3] == 'e');
            }
            if s@ == seq!['f', 'a', 'l', 's', 'e'] {
                assert(s@[0] == 'f' && s@[1] == 'a' && s@[2] == 'l' && s@[3] == 's' && s@[4]
                    == 'e');
            }
        }
        None
    }
}

/// Parsing a command-line string as a value of type `t`, as `FromStr` does:
/// booleans are `true`/`false`, integers go through `i64::from_str`, and a
/// string is taken as it is.
pub open spec fn spec_parse_scalar(t: ScalarType, s: Seq<char>) -> Option<ScalarV> {
    match t {
        ScalarType::Bool => match spec_parse_bool(s) {
            Some(b) => Some(ScalarV::Bool(b)),
            None => None,
        },
        ScalarType::Int => match spec_parse_i64(s) {
            Some(i) => Some(ScalarV::Int(i)),
            None => None,
        },
        ScalarType::Str => Some(ScalarV::Str(s)),
    }
}

pub open spec fn view_opt_scalar(o: Option<Scalar>) -> Option<ScalarV> {
    match o {
        Some(s) => Some(s@),
        None => None,
    }
}

/// Parses `s` as a value of type `t`.
pub fn parse_scalar(t: &ScalarType, s: &str) -> (r: Option<Scalar>)
    ensures
        view_opt_scalar(r) == spec_parse_scalar(*t, s@),
{
    match t {
        ScalarType::Bool => match parse_bool(s) {
            Some(b) => Some(Scalar::Bool(b)),
            None => None,
        },
        ScalarType::Int => match parse_i64(s) {
            Some(i) => Some(Scalar::Int(i)),
            None => None,
        },
        ScalarType::Str => Some(Scalar::Str(s.to_owned())),
    }
}

/// The outcome of a parsing step.
#[derive(Debug, PartialEq, Eq)]
pub enum ParseResult {
    Parsed,
    Help,
    Exit,
    Error(String),
}

/// The model of a `ParseResult`.
pub enum ParseResultV {
    Parsed,
    Help,
    Exit,
    Error(Seq<char>),
}

impl View for ParseResult {
    type V = ParseResultV;

    open spec fn view(&self) -> ParseResultV {
        match self {
            ParseResult::Parsed => ParseResultV::Parsed,
            ParseResult::Help => ParseResultV::Help,
            ParseResult::Exit => ParseResultV::Exit,
            ParseResult::Error(m) => ParseResultV::Error(m@),
        }
    }
}

impl ParseResult {
    pub fn is_parsed(&self) -> (b: bool)
        ensures
            b == (self@ is Parsed),
    {
        match self {
            ParseResult::Parsed => true,
            _ => false,
        }
    }
}

/// An action that takes no argument.
pub enum FlagAction {
    StoreConst(StoreConstAction),
    /// Asks for the help text.
    Help,
}

/// An action that takes one argument.
pub enum ArgAction {
    Store(StoreAction),
    StoreOption(StoreOptionAction),
}

/// What an option or a positional argument does with what it is given.
pub enum Action {
    /// Takes no argument.
    Flag(FlagAction),
    /// Takes one argument.
    Single(ArgAction),
    /// Takes one argument per occurrence; the arguments of all occurrences
    /// are parsed together at the end.
    Push(ListAction),
    /// Takes all arguments that follow, up to the next one that starts
    /// with `-`; parsed together at the end.
    Many(ListAction),
}

impl FlagAction {
    /// The variable this action writes, if any.
    pub open spec fn varid(self) -> Option<usize> {
        match self {
            FlagAction::StoreConst(a) => Some(a.varid),
            FlagAction::Help => None,
        }
    }

    /// The values of the variables and the result after the flag is given.
    pub open spec fn spec_parse_flag(self, vals: Seq<ValueV>) -> (Seq<ValueV>, ParseResultV) {
        match self {
            FlagAction::StoreConst(a) => (a.spec_parse_flag(vals), ParseResultV::Parsed),
            FlagAction::Help => (vals, ParseResultV::Help),
        }
    }

    pub fn parse_flag(&self, values: &mut Vec<Value>) -> (r: ParseResult)
        requires
            self.varid() matches Some(v) ==> v < old(values).len(),
        ensures
            (view_values(final(values)@), r@) == self.spec_parse_flag(view_values(old(values)@)),
    {
        match self {
            FlagAction::StoreConst(a) => {
                a.parse_flag(values);
                ParseResult::Parsed
            },
            FlagAction::Help => ParseResult::Help,
        }
    }
}

impl ArgAction {
    /// The variable this action writes.
    pub open spec fn varid(self) -> usize {
        match self {
            ArgAction::Store(a) => a.varid,
            ArgAction::StoreOption(a) => a.varid,
        }
    }

    /// The values of the variables and the result after the action is given
    /// the argument `arg`.
    pub open spec fn spec_parse_arg(self, arg: Seq<char>, vals: Seq<ValueV>) -> (
        Seq<ValueV>,
        ParseResultV,
    ) {
        match self {
            ArgAction::Store(a) => a.spec_parse_arg(arg, vals),
            ArgAction::StoreOption(a) => a.spec_parse_arg(arg, vals),
        }
    }

    pub fn parse_arg(&self, arg: &str, values: &mut Vec<Value>) -> (r: ParseResult)
        requires
            self.varid() < old(values).len(),
        ensures
            (view_values(final(values)@), r@) == self.spec_parse_arg(
                arg@,
                view_values(old(values)@),
            ),
    {
        match self {
            ArgAction::Store(a) => a.parse_arg(arg, values),
            ArgAction::StoreOption(a) => a.parse_arg(arg, values),
        }
    }
}

impl Action {
    /// The variable this action writes, if any.
    pub open spec fn varid(self) -> Option<usize> {
        match self {
            Action::Flag(f) => f.varid(),
            Action::Single(a) => Some(a.varid()),
            Action::Push(l) => Some(l.varid),
            Action::Many(l) => Some(l.varid),
        }
    }
}

/// What a kind of action (`Store`, `StoreConst`, ...) becomes when it is bound
/// to a variable of the parser.  Implement it to add new kinds of actions.
pub trait TypedAction {
    spec fn spec_bind(&self, varid: usize) -> Action;

    fn bind(&self, varid: usize) -> (a: Action)
        ensures
            a == self.spec_bind(varid),
            a.varid() == Some(varid),
    ;
}

} // verus!
