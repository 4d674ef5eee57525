//! The kinds of actions a variable can be bound with, and the actions they
//! become once bound.
use vstd::prelude::*;
use crate::action::{
    Action, ArgAction, FlagAction, ParseResult, ParseResultV, Scalar, ScalarType, ScalarV,
    TypedAction, Value, ValueV, lemma_view_values_update, parse_scalar, spec_parse_scalar,
    view_scalars, view_values,
};
use crate::text::{concat, view_strings};

verus! {

/// Stores a constant when the flag is given.
pub struct StoreConst(pub Scalar);

/// Stores the parsed argument.
pub struct Store;

/// Stores the parsed argument as a present optional value.
pub struct StoreOption;

/// Stores the list of parsed arguments that follow the option.
pub struct List;

/// Stores the list of the parsed arguments of all occurrences of the option.
pub struct Collect;

/// `StoreConst` bound to a variable.
pub struct StoreConstAction {
    pub value: Scalar,
    pub varid: usize,
}

/// `Store` bound to a variable.
pub struct StoreAction {
    pub varid: usize,
}

/// `StoreOption` bound to a variable.
pub struct StoreOptionAction {
    pub varid: usize,
}

/// `List` or `Collect` bound to a variable.
pub struct ListAction {
    pub varid: usize,
}

impl TypedAction for StoreConst {
    open spec fn spec_bind(&self, varid: usize) -> Action {
        Action::Flag(FlagAction::StoreConst(StoreConstAction { value: self.0, varid }))
    }

    fn bind(&self, varid: usize) -> (a: Action) {
        Action::Flag(FlagAction::StoreConst(StoreConstAction { value: self.0.clone(), varid }))
    }
}

impl TypedAction for Store {
    open spec fn spec_bind(&self, varid: usize) -> Action {
        Action::Single(ArgAction::Store(StoreAction { varid }))
    }

    fn bind(&self, varid: usize) -> (a: Action) {
        Action::Single(ArgAction::Store(StoreAction { varid }))
    }
}

impl TypedAction for StoreOption {
    open spec fn spec_bind(&self, varid: usize) -> Action {
        Action::Single(ArgAction::StoreOption(StoreOptionAction { varid }))
    }

    fn bind(&self, varid: usize) -> (a: Action) {
        Action::Single(ArgAction::StoreOption(StoreOptionAction { varid }))
    }
}

impl TypedAction for List {
    open spec fn spec_bind(&self, varid: usize) -> Action {
        Action::Many(ListAction { varid })
    }

    fn bind(&self, varid: usize) -> (a: Action) {
        Action::Many(ListAction { varid })
    }
}

impl TypedAction for Collect {
    open spec fn spec_bind(&self, varid: usize) -> Action {
        Action::Push(ListAction { varid })
    }

    fn bind(&self, varid: usize) -> (a: Action) {
        Action::Push(ListAction { varid })
    }
}

/// The message for an argument that does not parse.
pub open spec fn bad_value(arg: Seq<char>) -> Seq<char> {
    "Bad value "@ + arg
}

fn bad_value_error(arg: &str) -> (r: ParseResult)
    ensures
        r@ == ParseResultV::Error(bad_value(arg@)),
{
    ParseResult::Error(concat("Bad value ", arg))
}

impl StoreConstAction {
    pub open spec fn spec_parse_flag(self, vals: Seq<ValueV>) -> Seq<ValueV> {
        vals.update(self.varid as int, ValueV::One(self.value@))
    }

    /// Writes the constant into the variable.
    pub fn parse_flag(&self, values: &mut Vec<Value>) -> (r: ParseResult)
        requires
            self.varid < old(values).len(),
        ensures
            view_values(final(values)@) == self.spec_parse_flag(view_values(old(values)@)),
            r@ == ParseResultV::Parsed,
    {
        proof {
            lemma_view_values_update(values@, self.varid as int, Value::One(self.value));
        }
        values.set(self.varid, Value::One(self.value.clone()));
        ParseResult::Parsed
    }
}

impl StoreAction {
    /// The argument is parsed as the variable's element type and stored as a
    /// single value; an argument that does not parse is an error and leaves
    /// the variables unchanged.
    pub open spec fn spec_parse_arg(self, arg: Seq<char>, vals: Seq<ValueV>) -> (
        Seq<ValueV>,
        ParseResultV,
    ) {
        match spec_parse_scalar(vals[self.varid as int].scalar_type(), arg) {
            Some(x) => (vals.update(self.varid as int, ValueV::One(x)), ParseResultV::Parsed),
            None => (vals, ParseResultV::Error(bad_value(arg))),
        }
    }

    /// Parses `arg` and stores it into the variable.
    pub fn parse_arg(&self, arg: &str, values: &mut Vec<Value>) -> (r: ParseResult)
        requires
            self.varid < old(values).len(),
        ensures
            (view_values(final(values)@), r@) == self.spec_parse_arg(
                arg@,
                view_values(old(values)@),
            ),
    {
        let t = values[self.varid].scalar_type();
        match parse_scalar(&t, arg) {
            Some(x) => {
                proof {
                    lemma_view_values_update(values@, self.varid as int, Value::One(x));
                }
                values.set(self.varid, Value::One(x));
                ParseResult::Parsed
            },
            None => bad_value_error(arg),
        }
    }
}

impl StoreOptionAction {
    /// The argument is parsed as the variable's element type and stored as a
    /// present optional value.
    pub open spec fn spec_parse_arg(self, arg: Seq<char>, vals: Seq<ValueV>) -> (
        Seq<ValueV>,
        ParseResultV,
    ) {
        let t = vals[self.varid as int].scalar_type();
        match spec_parse_scalar(t, arg) {
            Some(x) => (
                vals.update(self.varid as int, ValueV::Optional(t, Some(x))),
                ParseResultV::Parsed,
            ),
            None => (vals, ParseResultV::Error(bad_value(arg))),
        }
    }

    /// Parses `arg` and stores it into the variable.
    pub fn parse_arg(&self, arg: &str, values: &mut Vec<Value>) -> (r: ParseResult)
        requires
            self.varid < old(values).len(),
        ensures
            (view_values(final(values)@), r@) == self.spec_parse_arg(
                arg@,
                view_values(old(values)@),
            ),
    {
        let t = values[self.varid].scalar_type();
        match parse_scalar(&t, arg) {
            Some(x) => {
                let v = Value::Optional(t, Some(x));
                proof {
                    lemma_view_values_update(values@, self.varid as int, v);
                }
                values.set(self.varid, v);
                ParseResult::Parsed
            },
            None => bad_value_error(arg),
        }
    }
}

/// Parses every argument as type `t`: all parsed values, or the first
/// argument that does not parse.
pub open spec fn parse_all(t: ScalarType, args: Seq<Seq<char>>) -> Result<Seq<ScalarV>, Seq<char>>
    decreases args.len(),
{
    if args.len() == 0 {
        Ok(seq![])
    } else {
        match spec_parse_scalar(t, args[0]) {
            None => Err(args[0]),
            Some(x) => match parse_all(t, args.drop_first()) {
                Ok(xs) => Ok(seq![x] + xs),
                Err(b) => Err(b),
            },
        }
    }
}

pub open spec fn prepend_ok(
    xs: Seq<ScalarV>,
    r: Result<Seq<ScalarV>, Seq<char>>,
) -> Result<Seq<ScalarV>, Seq<char>> {
    match r {
        Ok(ys) => Ok(xs + ys),
        Err(b) => Err(b),
    }
}

impl ListAction {
    /// All arguments are parsed as the variable's element type and stored as
    /// a list; the first argument that does not parse is an error and leaves
    /// the variables unchanged.
    pub open spec fn spec_parse_args(self, args: Seq<Seq<char>>, vals: Seq<ValueV>) -> (
        Seq<ValueV>,
        ParseResultV,
    ) {
        let t = vals[self.varid as int].scalar_type();
        match parse_all(t, args) {
            Ok(xs) => (vals.update(self.varid as int, ValueV::Many(t, xs)), ParseResultV::Parsed),
            Err(b) => (vals, ParseResultV::Error(bad_value(b))),
        }
    }

    /// Parses all `args` and stores them as a list into the variable.
    pub fn parse_args(&self, args: &Vec<String>, values: &mut Vec<Value>) -> (r: ParseResult)
        requires
            self.varid < old(values).len(),
        ensures
            (view_values(final(values)@), r@) == self.spec_parse_args(
                view_strings(args@),
                view_values(old(values)@),
            ),
    {
        let t = values[self.varid].scalar_type();
        assert(view_values(values@)[self.varid as int] == values@[self.varid as int]@);
        let ghost sargs = view_strings(args@);
        let mut result: Vec<Scalar> = Vec::new();
        let mut i: usize = 0;
        assert(sargs.skip(0) == sargs);
        while i < args.len()
            invariant
                i <= args.len(),
                sargs == view_strings(args@),
                values@ == old(values)@,
                self.varid < values.len(),
                t == view_values(values@)[self.varid as int].scalar_type(),
                parse_all(t, sargs) == prepend_ok(view_scalars(result@), parse_all(t, sargs.skip(i as int))),
            decreases args.len() - i,
        {
            let ghost rest = sargs.skip(i as int);
            assert(rest[0] == args@[i as int]@);
            assert(rest.drop_first() == sargs.skip(i + 1));
            match parse_scalar(&t, args[i].as_str()) {
                Some(x) => {
                    proof {
                        assert(view_scalars(result@.push(x)) == view_scalars(result@) + seq![x@]);
                        match parse_all(t, sargs.skip(i + 1)) {
                            Ok(ys) => {
                                assert(view_scalars(result@) + (seq![x@] + ys)
                                    == view_scalars(result@) + seq![x@] + ys);
                            },
                            Err(_) => {},
                        }
                    }
                    result.push(x);
                },
                None => {
                    assert(parse_all(t, rest) == Err::<Seq<ScalarV>, Seq<char>>(rest[0]));
                    return bad_value_error(args[i].as_str());
                },
            }
            i = i + 1;
        }
        assert(sargs.skip(i as int).len() == 0);
        assert(view_scalars(result@) + seq![] == view_scalars(result@));
        let v = Value::Many(t, result);
        proof {
            lemma_view_values_update(values@, self.varid as int, v);
        }
        values.set(self.varid, v);
        ParseResult::Parsed
    }
}

} // verus!
