//! The usage line and the help text of a parser.
use vstd::prelude::*;
use vstd::string::*;
use crate::action::Action;
use crate::parser::{ArgumentParser, ArgumentV, GenericArgument, GenericOption, OptionV, ParserV};
use crate::text::{
    blen, join, push_char, push_spaces, spaces, to_ascii_upper, upper, view_strings,
    wrap_text, wrap_text_exec,
};

verus! {

/// The column where help texts of options and arguments start.
pub const OPTION_WIDTH: usize = 24;

/// The width help texts are filled to.
pub const TOTAL_WIDTH: usize = 79;

/// What follows a name of width `num` (with its indentation): spaces up to
/// the help column, or a new line and the indentation of the help column
/// when the name reaches it.
pub open spec fn pad(num: int) -> Seq<char> {
    if num >= OPTION_WIDTH {
        seq!['\n'] + spaces(OPTION_WIDTH as nat)
    } else {
        spaces((OPTION_WIDTH - num) as nat)
    }
}

/// A help line: the head, padding to the help column, the filled help, a
/// new line.
pub open spec fn help_line(head: Seq<char>, width: int, help: Seq<char>) -> Seq<char> {
    head + pad(width) + wrap_text(help, TOTAL_WIDTH as int, OPTION_WIDTH as nat) + "\n"@
}

/// The help line of a positional argument.
pub open spec fn argument_text(a: ArgumentV) -> Seq<char> {
    help_line("  "@ + a.name, 2 + blen(a.name), a.help)
}

/// The width of a list of names written with `,` between them, as the sum
/// of the byte lengths.
pub open spec fn names_width(names: Seq<Seq<char>>) -> int
    decreases names.len(),
{
    if names.len() == 0 {
        0
    } else if names.len() == 1 {
        blen(names[0]) as int
    } else {
        names_width(names.drop_last()) + 1 + blen(names.last())
    }
}

/// The metavariable part of an option's help line: none for a flag, else a
/// space and the metavariable of its variable.
pub open spec fn option_metavar(p: ParserV, o: OptionV) -> Seq<char> {
    if o.action is Flag {
        Seq::empty()
    } else {
        " "@ + p.vars[o.varid->0 as int].metavar
    }
}

pub open spec fn option_metavar_width(p: ParserV, o: OptionV) -> int {
    if o.action is Flag {
        0
    } else {
        blen(p.vars[o.varid->0 as int].metavar) + 1
    }
}

/// The help line of an option.
pub open spec fn option_text(p: ParserV, o: OptionV) -> Seq<char> {
    help_line(
        "  "@ + join(o.names, ","@) + option_metavar(p, o),
        2 + names_width(o.names) + option_metavar_width(p, o),
        o.help,
    )
}

/// All the texts, one after the other.
pub open spec fn concat_all(s: Seq<Seq<char>>) -> Seq<char>
    decreases s.len(),
{
    if s.len() == 0 {
        Seq::empty()
    } else {
        concat_all(s.drop_last()) + s.last()
    }
}

/// A positional argument in the usage line: its name in upper case, in
/// brackets unless its variable is required.
pub open spec fn argument_usage(p: ParserV, a: ArgumentV) -> Seq<char> {
    if p.vars[a.varid as int].required {
        " "@ + upper(a.name)
    } else {
        " ["@ + upper(a.name) + "]"@
    }
}

/// The catch-all argument in the usage line.
pub open spec fn catchall_usage(p: ParserV) -> Seq<char> {
    match p.catchall_argument {
        Some(a) => if p.vars[a.varid as int].required {
            " "@ + upper(a.name) + " [...]"@
        } else {
            " ["@ + upper(a.name) + " ...]"@
        },
        None => Seq::empty(),
    }
}

pub open spec fn arguments_usage(p: ParserV) -> Seq<Seq<char>> {
    p.arguments.map_values(|a: ArgumentV| argument_usage(p, a))
}

pub open spec fn arguments_texts(p: ParserV) -> Seq<Seq<char>> {
    p.arguments.map_values(|a: ArgumentV| argument_text(a))
}

pub open spec fn options_texts(p: ParserV) -> Seq<Seq<char>> {
    p.options.map_values(|o: OptionV| option_text(p, o))
}

pub proof fn lemma_concat_all_step(s: Seq<Seq<char>>, i: int)
    requires
        0 <= i < s.len(),
    ensures
        concat_all(s.take(i + 1)) == concat_all(s.take(i)) + s[i],
{
    assert(s.take(i + 1).drop_last() == s.take(i));
}

/// `[OPTIONS]` stands in the usage line when there is more than one short
/// or more than one long option name.
pub open spec fn options_flag(p: ParserV) -> Seq<char> {
    if p.short_options.len() > 1 || p.long_options.len() > 1 {
        " [OPTIONS]"@
    } else {
        Seq::empty()
    }
}

/// What the usage line holds after the command name.
pub open spec fn usage_arguments(p: ParserV) -> Seq<char> {
    if p.options.len() != 0 {
        options_flag(p) + concat_all(arguments_usage(p)) + catchall_usage(p)
    } else {
        Seq::empty()
    }
}

/// The usage line for the command `name`.
pub open spec fn usage_text(p: ParserV, name: Seq<char>) -> Seq<char> {
    "Usage:\n    "@ + name + usage_arguments(p) + "\n"@
}

/// The description, filled, in the help text.
pub open spec fn description_part(p: ParserV) -> Seq<char> {
    if p.description.len() > 0 {
        wrap_text(p.description, TOTAL_WIDTH as int, 0) + "\n"@
    } else {
        Seq::empty()
    }
}

/// The positional arguments in the help text.
pub open spec fn positional_part(p: ParserV) -> Seq<char> {
    if p.arguments.len() > 0 || p.catchall_argument is Some {
        "\npositional arguments:\n"@ + concat_all(arguments_texts(p)) + match p.catchall_argument {
            Some(a) => argument_text(a),
            None => Seq::empty(),
        }
    } else {
        Seq::empty()
    }
}

/// The options in the help text.
pub open spec fn optional_part(p: ParserV) -> Seq<char> {
    if p.short_options.len() > 0 || p.long_options.len() > 0 {
        "\noptional arguments:\n"@ + concat_all(options_texts(p))
    } else {
        Seq::empty()
    }
}

/// The help text for the command `name`: the usage line, the description,
/// the positional arguments, the options.
pub open spec fn help_text(p: ParserV, name: Seq<char>) -> Seq<char> {
    usage_text(p, name) + "\n"@ + description_part(p) + positional_part(p) + optional_part(p)
}

/// `min(a + b, OPTION_WIDTH)`.
fn add_width(a: usize, b: usize) -> (r: usize)
    requires
        a <= OPTION_WIDTH,
    ensures
        r as int == if a + b < OPTION_WIDTH { a + b } else { OPTION_WIDTH as int },
{
    if b >= OPTION_WIDTH - a {
        OPTION_WIDTH
    } else {
        a + b
    }
}

/// Writes the help text of a parser.
pub struct HelpFormatter<'a> {
    pub name: &'a str,
    pub parser: &'a ArgumentParser,
    pub buf: String,
}

impl<'a> HelpFormatter<'a> {
    /// The usage line of `parser` for the command `name`.
    pub fn print_usage(parser: &ArgumentParser, name: &str) -> (r: String)
        requires
            parser@.wf(),
        ensures
            r@ == usage_text(parser@, name@),
    {
        let mut f = HelpFormatter { parser, name, buf: String::new() };
        f.write_usage();
        f.buf
    }

    /// The help text of `parser` for the command `name`.
    pub fn print_help(parser: &ArgumentParser, name: &str) -> (r: String)
        requires
            parser@.wf(),
        ensures
            r@ == help_text(parser@, name@),
    {
        let mut f = HelpFormatter { parser, name, buf: String::new() };
        f.write_help();
        f.buf
    }

    /// Pads a name of width `num` (capped at the help column) to the help column.
    fn write_pad(&mut self, num: usize)
        requires
            num <= OPTION_WIDTH,
        ensures
            final(self).buf@ == old(self).buf@ + pad(num as int),
            final(self).name == old(self).name,
            final(self).parser == old(self).parser,
    {
        if num >= OPTION_WIDTH {
            push_char(&mut self.buf, '\n');
            let ghost b = self.buf@;
            push_spaces(&mut self.buf, OPTION_WIDTH);
            assert(self.buf@ =~= old(self).buf@ + pad(num as int));
        } else {
            push_spaces(&mut self.buf, OPTION_WIDTH - num);
        }
    }

    /// Writes the help line of a positional argument.
    pub fn print_argument(&mut self, arg: &GenericArgument)
        ensures
            final(self).buf@ == old(self).buf@ + argument_text(arg@),
            final(self).name == old(self).name,
            final(self).parser == old(self).parser,
    {
        self.buf.append("  ");
        self.buf.append(arg.name.as_str());
        let num = add_width(2, arg.name.as_str().len());
        self.write_pad(num);
        wrap_text_exec(&mut self.buf, arg.help.as_str(), TOTAL_WIDTH, OPTION_WIDTH);
        self.buf.append("\n");
        assert(self.buf@ =~= old(self).buf@ + argument_text(arg@));
    }

    /// Writes the help line of an option.
    pub fn print_option(&mut self, opt: &GenericOption)
        requires
            opt@.names.len() >= 1,
            !(opt@.action is Flag) ==> (opt@.varid matches Some(v) && v < old(self).parser@.vars.len()),
        ensures
            final(self).buf@ == old(self).buf@ + option_text(old(self).parser@, opt@),
            final(self).name == old(self).name,
            final(self).parser == old(self).parser,
    {
        let ghost names = opt@.names;
        self.buf.append("  ");
        self.buf.append(opt.names[0].as_str());
        let mut num = add_width(2, opt.names[0].as_str().len());
        assert(names.take(1) =~= seq![names[0]]);
        let mut i: usize = 1;
        while i < opt.names.len()
            invariant
                1 <= i <= opt.names.len(),
                names == view_strings(opt.names@),
                self.buf@ == old(self).buf@ + "  "@ + join(names.take(i as int), ","@),
                num as int == if 2 + names_width(names.take(i as int)) < OPTION_WIDTH {
                    2 + names_width(names.take(i as int))
                } else {
                    OPTION_WIDTH as int
                },
                self.name == old(self).name,
                self.parser == old(self).parser,
            decreases opt.names.len() - i,
        {
            assert(names.take(i + 1).drop_last() == names.take(i as int));
            assert(names.take(i + 1).last() == opt.names@[i as int]@);
            self.buf.append(",");
            self.buf.append(opt.names[i].as_str());
            num = add_width(num, 1);
            num = add_width(num, opt.names[i].as_str().len());
            i = i + 1;
        }
        assert(names.take(i as int) == names);
        let ghost head = self.buf@;
        match &opt.action {
            Action::Flag(_) => {},
            _ => {
                let v = opt.varid.unwrap();
                let var = &self.parser.vars[v];
                assert(self.parser@.vars[v as int] == var@);
                self.buf.append(" ");
                self.buf.append(var.metavar.as_str());
                num = add_width(num, var.metavar.as_str().len());
                num = add_width(num, 1);
            },
        }
        self.write_pad(num);
        wrap_text_exec(&mut self.buf, opt.help.as_str(), TOTAL_WIDTH, OPTION_WIDTH);
        self.buf.append("\n");
        assert(self.buf@ =~= old(self).buf@ + option_text(old(self).parser@, opt@));
    }

    /// Writes a positional argument in the usage line.
    fn write_argument_usage(&mut self, a: &GenericArgument, upper_name: &str)
        requires
            a@.varid < old(self).parser@.vars.len(),
            upper_name@ == upper(a@.name),
        ensures
            final(self).buf@ == old(self).buf@ + argument_usage(old(self).parser@, a@),
            final(self).name == old(self).name,
            final(self).parser == old(self).parser,
    {
        let var = &self.parser.vars[a.varid];
        assert(self.parser@.vars[a.varid as int] == var@);
        if var.required {
            self.buf.append(" ");
            self.buf.append(upper_name);
        } else {
            self.buf.append(" [");
            self.buf.append(upper_name);
            self.buf.append("]");
        }
        assert(self.buf@ =~= old(self).buf@ + argument_usage(old(self).parser@, a@));
    }

    fn write_usage_arguments(&mut self)
        requires
            old(self).parser@.wf(),
        ensures
            final(self).buf@ == old(self).buf@ + usage_arguments(old(self).parser@),
            final(self).name == old(self).name,
            final(self).parser == old(self).parser,
    {
        let ghost p = self.parser@;
        if self.parser.options.len() != 0 {
            if self.parser.short_options.len() > 1 || self.parser.long_options.len() > 1 {
                self.buf.append(" [OPTIONS]");
            }
            let ghost mid = self.buf@;
            assert(mid == old(self).buf@ + options_flag(p));
            let ghost us = arguments_usage(p);
            let mut i: usize = 0;
            assert(us.take(0) =~= Seq::<Seq<char>>::empty());
            while i < self.parser.arguments.len()
                invariant
                    i <= self.parser.arguments.len(),
                    p == self.parser@,
                    p.wf(),
                    us == arguments_usage(p),
                    self.buf@ == mid + concat_all(us.take(i as int)),
                    self.name == old(self).name,
                    self.parser == old(self).parser,
                decreases self.parser.arguments.len() - i,
            {
                let a = &self.parser.arguments[i];
                assert(p.arguments[i as int] == a@);
                assert(a@.wf(p.vars.len()));
                let u = to_ascii_upper(a.name.as_str());
                self.write_argument_usage(a, u.as_str());
                proof {
                    lemma_concat_all_step(us, i as int);
                }
                i = i + 1;
            }
            assert(us.take(i as int) == us);
            let ghost mid2 = self.buf@;
            match &self.parser.catchall_argument {
                Some(a) => {
                    assert(p.catchall_argument == Some(a@));
                    let var = &self.parser.vars[a.varid];
                    assert(p.vars[a.varid as int] == var@);
                    let u = to_ascii_upper(a.name.as_str());
                    if var.required {
                        self.buf.append(" ");
                        self.buf.append(u.as_str());
                        self.buf.append(" [...]");
                    } else {
                        self.buf.append(" [");
                        self.buf.append(u.as_str());
                        self.buf.append(" ...]");
                    }
                    assert(self.buf@ =~= mid2 + catchall_usage(p));
                },
                None => {
                    assert(self.buf@ =~= mid2 + catchall_usage(p));
                },
            }
            assert(self.buf@ =~= old(self).buf@ + usage_arguments(p));
        } else {
            assert(self.buf@ =~= old(self).buf@ + usage_arguments(p));
        }
    }

    fn write_usage(&mut self)
        requires
            old(self).parser@.wf(),
        ensures
            final(self).buf@ == old(self).buf@ + usage_text(old(self).parser@, old(self).name@),
            final(self).name == old(self).name,
            final(self).parser == old(self).parser,
    {
        let ghost p = self.parser@;
        self.buf.append("Usage:\n    ");
        self.buf.append(self.name);
        self.write_usage_arguments();
        self.buf.append("\n");
        let ghost ua = usage_arguments(p);
        assert(self.buf@ =~= old(self).buf@ + ("Usage:\n    "@ + self.name@ + ua + "\n"@));
    }

    fn write_positional(&mut self)
        requires
            old(self).parser@.wf(),
        ensures
            final(self).buf@ == old(self).buf@ + positional_part(old(self).parser@),
            final(self).name == old(self).name,
            final(self).parser == old(self).parser,
    {
        let ghost p = self.parser@;
        if self.parser.arguments.len() > 0 || self.parser.catchall_argument.is_some() {
            self.buf.append("\npositional arguments:\n");
            let ghost mid = self.buf@;
            let ghost ts = arguments_texts(p);
            let mut i: usize = 0;
            assert(ts.take(0) =~= Seq::<Seq<char>>::empty());
            while i < self.parser.arguments.len()
                invariant
                    i <= self.parser.arguments.len(),
                    p == self.parser@,
                    ts == arguments_texts(p),
                    self.buf@ == mid + concat_all(ts.take(i as int)),
                    self.name == old(self).name,
                    self.parser == old(self).parser,
                decreases self.parser.arguments.len() - i,
            {
                let a = &self.parser.arguments[i];
                assert(p.arguments[i as int] == a@);
                self.print_argument(a);
                proof {
                    lemma_concat_all_step(ts, i as int);
                }
                i = i + 1;
            }
            assert(ts.take(i as int) == ts);
            let ghost mid2 = self.buf@;
            let ghost tail = match p.catchall_argument {
                Some(a) => argument_text(a),
                None => Seq::<char>::empty(),
            };
            match &self.parser.catchall_argument {
                Some(a) => {
                    assert(p.catchall_argument == Some(a@));
                    self.print_argument(a);
                },
                None => {
                    assert(self.buf@ =~= mid2 + tail);
                },
            }
            assert(self.buf@ =~= old(self).buf@ + ("\npositional arguments:\n"@ + concat_all(ts) + tail));
        } else {
            assert(self.buf@ =~= old(self).buf@ + positional_part(p));
        }
    }

    fn write_optional(&mut self)
        requires
            old(self).parser@.wf(),
        ensures
            final(self).buf@ == old(self).buf@ + optional_part(old(self).parser@),
            final(self).name == old(self).name,
            final(self).parser == old(self).parser,
    {
        let ghost p = self.parser@;
        if self.parser.short_options.len() > 0 || self.parser.long_options.len() > 0 {
            self.buf.append("\noptional arguments:\n");
            let ghost mid = self.buf@;
            let ghost ts = options_texts(p);
            let mut i: usize = 0;
            assert(ts.take(0) =~= Seq::<Seq<char>>::empty());
            while i < self.parser.options.len()
                invariant
                    i <= self.parser.options.len(),
                    p == self.parser@,
                    p.wf(),
                    ts == options_texts(p),
                    self.buf@ == mid + concat_all(ts.take(i as int)),
                    self.name == old(self).name,
                    self.parser == old(self).parser,
                decreases self.parser.options.len() - i,
            {
                let o = &self.parser.options[i];
                assert(p.options[i as int] == o@);
                assert(o@.wf(i as int, p.vars.len()));
                self.print_option(o);
                proof {
                    lemma_concat_all_step(ts, i as int);
                }
                i = i + 1;
            }
            assert(ts.take(i as int) == ts);
            assert(self.buf@ =~= old(self).buf@ + ("\noptional arguments:\n"@ + concat_all(ts)));
        } else {
            assert(self.buf@ =~= old(self).buf@ + optional_part(p));
        }
    }

    fn write_description(&mut self)
        ensures
            final(self).buf@ == old(self).buf@ + description_part(old(self).parser@),
            final(self).name == old(self).name,
            final(self).parser == old(self).parser,
    {
        let ghost p = self.parser@;
        if !self.parser.description.as_str().is_empty() {
            wrap_text_exec(&mut self.buf, self.parser.description.as_str(), TOTAL_WIDTH, 0);
            self.buf.append("\n");
            assert(self.buf@ =~= old(self).buf@ + description_part(p));
        } else {
            assert(self.buf@ =~= old(self).buf@ + description_part(p));
        }
    }

    fn write_help(&mut self)
        requires
            old(self).parser@.wf(),
        ensures
            final(self).buf@ == old(self).buf@ + help_text(old(self).parser@, old(self).name@),
            final(self).name == old(self).name,
            final(self).parser == old(self).parser,
    {
        let ghost p = self.parser@;
        self.write_usage();
        self.buf.append("\n");
        self.write_description();
        self.write_positional();
        self.write_optional();
        let ghost u = usage_text(p, self.name@);
        let ghost d = description_part(p);
        let ghost q = positional_part(p);
        let ghost o = optional_part(p);
        assert(self.buf@ =~= old(self).buf@ + (u + "\n"@ + d + q + o));
    }
}

impl ArgumentParser {
    /// The help text for the command `name`.
    pub fn print_help(&self, name: &str) -> (r: String)
        requires
            self@.wf(),
        ensures
            r@ == help_text(self@, name@),
    {
        HelpFormatter::print_help(self, name)
    }

    /// The usage line for the command `name`.
    pub fn print_usage(&self, name: &str) -> (r: String)
        requires
            self@.wf(),
        ensures
            r@ == usage_text(self@, name@),
    {
        HelpFormatter::print_usage(self, name)
    }

    /// What is printed for an error: the usage line, then
    /// `command: message`.
    pub fn error(&self, command: &str, message: &str) -> (r: String)
        requires
            self@.wf(),
        ensures
            r@ == error_text(self@, command@, message@),
    {
        let mut r = self.print_usage(command);
        r.append(command);
        r.append(": ");
        r.append(message);
        r.append("\n");
        r
    }
}

/// The error text for `command`: the usage line, then `command: message`.
pub open spec fn error_text(p: ParserV, command: Seq<char>, message: Seq<char>) -> Seq<char> {
    usage_text(p, command) + command + ": "@ + message + "\n"@
}

} // verus!
