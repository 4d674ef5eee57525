use argparse::{
    ArgumentKind, ArgumentParser, Collect, List, ParseResult, Scalar, ScalarType, Store,
    StoreConst, StoreOption, Value,
};

fn args(words: &[&str]) -> Vec<String> {
    words.iter().map(|w| w.to_string()).collect()
}

fn pad(n: usize) -> String {
    " ".repeat(n)
}

fn str_value(s: &str) -> Value {
    Value::One(Scalar::Str(s.to_string()))
}

/// A parser with `-v/--verbose` (flag) and `--name` (string).
fn greeter() -> ArgumentParser {
    let mut ap = ArgumentParser::new();
    ap.set_description("Greet somebody.");
    {
        let mut r = ap.refer(Value::One(Scalar::Bool(false)));
        r.add_option(&["-v", "--verbose"], StoreConst(Scalar::Bool(true)), "Be verbose");
    }
    {
        let mut r = ap.refer(str_value("World"));
        r.add_option(&["--name"], Store, "Name for the greeting");
    }
    ap
}

#[test]
fn kind_of_words() {
    assert!(matches!(ArgumentKind::check("-v"), ArgumentKind::ShortOption));
    assert!(matches!(ArgumentKind::check("-abc"), ArgumentKind::ShortOption));
    assert!(matches!(ArgumentKind::check("--verbose"), ArgumentKind::LongOption));
    assert!(matches!(ArgumentKind::check("--"), ArgumentKind::Delimiter));
    assert!(matches!(ArgumentKind::check("-"), ArgumentKind::Positional));
    assert!(matches!(ArgumentKind::check("file"), ArgumentKind::Positional));
    assert!(matches!(ArgumentKind::check(""), ArgumentKind::Positional));
}

#[test]
fn no_arguments_keep_initial_values() {
    let ap = greeter();
    let r = ap.parse(&args(&["greet"]), &vec![]);
    assert_eq!(r.status, Ok(()));
    assert_eq!(r.stdout, "");
    assert_eq!(r.stderr, "");
    assert_eq!(r.values[0], Value::One(Scalar::Bool(false)));
    assert_eq!(r.values[1], str_value("World"));
}

#[test]
fn flag_and_store() {
    let ap = greeter();
    let r = ap.parse(&args(&["greet", "-v", "--name", "Bob"]), &vec![]);
    assert_eq!(r.status, Ok(()));
    assert_eq!(r.values[0], Value::One(Scalar::Bool(true)));
    assert_eq!(r.values[1], str_value("Bob"));
}

#[test]
fn long_option_with_equals() {
    let ap = greeter();
    let r = ap.parse(&args(&["greet", "--name=Alice=Bob"]), &vec![]);
    assert_eq!(r.status, Ok(()));
    assert_eq!(r.values[1], str_value("Alice=Bob"));
}

#[test]
fn last_store_wins() {
    let ap = greeter();
    let r = ap.parse(&args(&["greet", "--name", "a", "--name=b"]), &vec![]);
    assert_eq!(r.values[1], str_value("b"));
}

#[test]
fn usage_line() {
    let ap = greeter();
    assert_eq!(ap.print_usage("greet"), "Usage:\n    greet [OPTIONS]\n");
    let bare = ArgumentParser::new();
    assert_eq!(bare.print_usage("prog"), "Usage:\n    prog\n");
}

#[test]
fn help_text() {
    let ap = greeter();
    let expected = format!(
        "Usage:\n    greet [OPTIONS]\n\nGreet somebody.\n\noptional arguments:\n{}{}{}\n{}{}{}\n{}{}{}\n",
        "  -h,--help",
        pad(13),
        "show this help message and exit",
        "  -v,--verbose",
        pad(10),
        "Be verbose",
        "  --name NAME",
        pad(11),
        "Name for the greeting",
    );
    assert_eq!(ap.print_help("greet"), expected);
}

#[test]
fn help_option_prints_help() {
    let ap = greeter();
    for word in ["-h", "--help"] {
        let r = ap.parse(&args(&["greet", word, "--name", "x"]), &vec![]);
        assert_eq!(r.status, Err(0));
        assert_eq!(r.stdout, ap.print_help("greet"));
        assert_eq!(r.stderr, "");
        // the options after the help option are not applied
        assert_eq!(r.values[1], str_value("World"));
    }
}

#[test]
fn unknown_long_option() {
    let ap = greeter();
    let r = ap.parse(&args(&["greet", "--nme=x"]), &vec![]);
    assert_eq!(r.status, Err(2));
    assert_eq!(r.stdout, "");
    assert_eq!(r.stderr, "Usage:\n    greet [OPTIONS]\ngreet: Unknown option --nme=x\n");
}

#[test]
fn unknown_short_option() {
    let ap = greeter();
    let r = ap.parse(&args(&["greet", "-vz"]), &vec![]);
    assert_eq!(r.status, Err(2));
    assert_eq!(r.stderr, "Usage:\n    greet [OPTIONS]\ngreet: Unknown short option \"z\"\n");
    // the flag before the unknown one was applied
    assert_eq!(r.values[0], Value::One(Scalar::Bool(true)));
}

#[test]
fn flag_with_value_is_an_error() {
    let ap = greeter();
    let r = ap.parse(&args(&["greet", "--verbose=yes"]), &vec![]);
    assert_eq!(r.status, Err(2));
    assert!(r.stderr.ends_with("greet: Option --verbose does not accept an argument\n"));
}

#[test]
fn missing_option_argument() {
    let ap = greeter();
    let r = ap.parse(&args(&["greet", "--name"]), &vec![]);
    assert_eq!(r.status, Err(2));
    assert!(r.stderr.ends_with("greet: Option [--name] requires an argument\n"));
}

#[test]
fn error_text_has_usage_then_message() {
    let ap = greeter();
    assert_eq!(
        ap.error("greet", "something went wrong"),
        "Usage:\n    greet [OPTIONS]\ngreet: something went wrong\n"
    );
}

/// A parser with an integer option, a required positional argument and a
/// catch-all list.
fn copier() -> ArgumentParser {
    let mut ap = ArgumentParser::new();
    {
        let mut r = ap.refer(Value::One(Scalar::Int(1)));
        r.add_option(&["-n", "--max-count"], Store, "How many");
    }
    {
        let mut r = ap.refer(str_value(""));
        r.add_argument("source", Store, "Where to copy from");
        r.required();
    }
    {
        let mut r = ap.refer(Value::Many(ScalarType::Str, vec![]));
        r.add_argument("dest", List, "Where to copy to");
    }
    ap
}

#[test]
fn integer_option_and_positionals() {
    let ap = copier();
    let r = ap.parse(&args(&["cp", "a", "-n", "12", "b", "c"]), &vec![]);
    assert_eq!(r.status, Ok(()));
    assert_eq!(r.values[0], Value::One(Scalar::Int(12)));
    assert_eq!(r.values[1], str_value("a"));
    assert_eq!(
        r.values[2],
        Value::Many(
            ScalarType::Str,
            vec![Scalar::Str("b".to_string()), Scalar::Str("c".to_string())]
        )
    );
}

#[test]
fn short_option_with_attached_value() {
    let ap = copier();
    let r = ap.parse(&args(&["cp", "-n-3", "a"]), &vec![]);
    assert_eq!(r.status, Ok(()));
    assert_eq!(r.values[0], Value::One(Scalar::Int(-3)));
}

#[test]
fn bad_integer() {
    let ap = copier();
    let r = ap.parse(&args(&["cp", "--max-count", "many", "a"]), &vec![]);
    assert_eq!(r.status, Err(2));
    assert!(r.stderr.ends_with("cp: Bad value many\n"));
    assert_eq!(r.values[0], Value::One(Scalar::Int(1)));
}

#[test]
fn required_argument_missing() {
    let ap = copier();
    let r = ap.parse(&args(&["cp", "-n", "3"]), &vec![]);
    assert_eq!(r.status, Err(2));
    assert_eq!(
        r.stderr,
        "Usage:\n    cp [OPTIONS] SOURCE [DEST ...]\ncp: Argument source is required\n"
    );
}

#[test]
fn copier_help() {
    let ap = copier();
    let expected = format!(
        "Usage:\n    cp [OPTIONS] SOURCE [DEST ...]\n\n\npositional arguments:\n{}{}{}\n{}{}{}\n\noptional arguments:\n{}{}{}\n{}{}{}\n",
        "  source",
        pad(16),
        "Where to copy from",
        "  dest",
        pad(18),
        "Where to copy to",
        "  -h,--help",
        pad(13),
        "show this help message and exit",
        "  -n,--max-count MAX_COUNT",
        "\n".to_string() + &pad(24),
        "How many",
    );
    assert_eq!(ap.print_help("cp"), expected);
}

#[test]
fn delimiter_makes_the_rest_positional() {
    let ap = copier();
    let r = ap.parse(&args(&["cp", "--", "-n", "x"]), &vec![]);
    assert_eq!(r.status, Ok(()));
    assert_eq!(r.values[0], Value::One(Scalar::Int(1)));
    assert_eq!(r.values[1], str_value("-n"));
    assert_eq!(r.values[2], Value::Many(ScalarType::Str, vec![Scalar::Str("x".to_string())]));
}

#[test]
fn unexpected_argument() {
    let mut ap = ArgumentParser::new();
    {
        let mut r = ap.refer(str_value(""));
        r.add_argument("file", Store, "A file");
    }
    let r = ap.parse(&args(&["p", "one", "two"]), &vec![]);
    assert_eq!(r.status, Err(2));
    assert!(r.stderr.ends_with("p: Unexpected argument two\n"));
    assert_eq!(r.values[0], str_value("one"));
}

#[test]
fn stop_on_first_argument() {
    let mut ap = ArgumentParser::new();
    {
        let mut r = ap.refer(Value::One(Scalar::Bool(false)));
        r.add_option(&["-v"], StoreConst(Scalar::Bool(true)), "Verbose");
    }
    {
        let mut r = ap.refer(str_value(""));
        r.add_argument("command", Store, "The command");
    }
    {
        let mut r = ap.refer(Value::Many(ScalarType::Str, vec![]));
        r.add_argument("args", List, "Its arguments");
    }
    ap.stop_on_first_argument(true);
    let r = ap.parse(&args(&["run", "ls", "-v", "x"]), &vec![]);
    assert_eq!(r.status, Ok(()));
    assert_eq!(r.values[0], Value::One(Scalar::Bool(false)));
    assert_eq!(r.values[1], str_value("ls"));
    assert_eq!(
        r.values[2],
        Value::Many(
            ScalarType::Str,
            vec![Scalar::Str("-v".to_string()), Scalar::Str("x".to_string())]
        )
    );
}

#[test]
fn list_option_takes_words_up_to_the_next_option() {
    let mut ap = ArgumentParser::new();
    {
        let mut r = ap.refer(Value::Many(ScalarType::Int, vec![]));
        r.add_option(&["--nums"], List, "Numbers");
    }
    {
        let mut r = ap.refer(Value::One(Scalar::Bool(false)));
        r.add_option(&["-q"], StoreConst(Scalar::Bool(true)), "Quiet");
    }
    let r = ap.parse(&args(&["p", "--nums", "1", "2", "-q", "3"]), &vec![]);
    // "3" is a positional argument, and the parser has none
    assert_eq!(r.status, Err(2));
    assert!(r.stderr.ends_with("p: Unexpected argument 3\n"));
    let r = ap.parse(&args(&["p", "--nums", "1", "2", "-q"]), &vec![]);
    assert_eq!(r.status, Ok(()));
    assert_eq!(r.values[0], Value::Many(ScalarType::Int, vec![Scalar::Int(1), Scalar::Int(2)]));
    assert_eq!(r.values[1], Value::One(Scalar::Bool(true)));
    // given nothing, a list option is not an error
    let r = ap.parse(&args(&["p", "--nums"]), &vec![]);
    assert_eq!(r.status, Ok(()));
    assert_eq!(r.values[0], Value::Many(ScalarType::Int, vec![]));
}

#[test]
fn collect_gathers_every_occurrence() {
    let mut ap = ArgumentParser::new();
    {
        let mut r = ap.refer(Value::Many(ScalarType::Str, vec![]));
        r.add_option(&["-I", "--include"], Collect, "Include directory");
    }
    let r = ap.parse(&args(&["cc", "-Ia", "--include", "b", "-I", "c"]), &vec![]);
    assert_eq!(r.status, Ok(()));
    assert_eq!(
        r.values[0],
        Value::Many(
            ScalarType::Str,
            vec![
                Scalar::Str("a".to_string()),
                Scalar::Str("b".to_string()),
                Scalar::Str("c".to_string())
            ]
        )
    );
}

#[test]
fn list_with_a_bad_value() {
    let mut ap = ArgumentParser::new();
    {
        let mut r = ap.refer(Value::Many(ScalarType::Bool, vec![]));
        r.add_option(&["--flags"], List, "Booleans");
    }
    let r = ap.parse(&args(&["p", "--flags", "true", "maybe", "false"]), &vec![]);
    assert_eq!(r.status, Err(2));
    assert!(r.stderr.ends_with("p: Bad value maybe\n"));
    let r = ap.parse(&args(&["p", "--flags", "true", "false"]), &vec![]);
    assert_eq!(
        r.values[0],
        Value::Many(ScalarType::Bool, vec![Scalar::Bool(true), Scalar::Bool(false)])
    );
}

#[test]
fn store_option() {
    let mut ap = ArgumentParser::new();
    {
        let mut r = ap.refer(Value::Optional(ScalarType::Int, None));
        r.add_option(&["--level"], StoreOption, "Level");
    }
    let r = ap.parse(&args(&["p"]), &vec![]);
    assert_eq!(r.values[0], Value::Optional(ScalarType::Int, None));
    let r = ap.parse(&args(&["p", "--level", "5"]), &vec![]);
    assert_eq!(r.values[0], Value::Optional(ScalarType::Int, Some(Scalar::Int(5))));
}

#[test]
fn required_option_missing() {
    let mut ap = ArgumentParser::new();
    {
        let mut r = ap.refer(str_value(""));
        r.add_option(&["-o", "--output"], Store, "Output file").required();
    }
    let r = ap.parse(&args(&["p"]), &vec![]);
    assert_eq!(r.status, Err(2));
    assert!(r.stderr.ends_with("p: Option [-o, --output] is required\n"));
    let r = ap.parse(&args(&["p", "-oout.txt"]), &vec![]);
    assert_eq!(r.status, Ok(()));
    assert_eq!(r.values[0], str_value("out.txt"));
}

#[test]
fn environment_variables() {
    let mut ap = ArgumentParser::new();
    {
        let mut r = ap.refer(Value::One(Scalar::Int(0)));
        r.add_option(&["--jobs"], Store, "Jobs").envvar("JOBS");
    }
    {
        let mut r = ap.refer(str_value(""));
        r.envvar("USER").required();
    }
    // the environment presets, the command line overrides
    let env = vec![Some("4".to_string()), Some("bob".to_string())];
    let r = ap.parse(&args(&["make"]), &env);
    assert_eq!(r.status, Ok(()));
    assert_eq!(r.values[0], Value::One(Scalar::Int(4)));
    assert_eq!(r.values[1], str_value("bob"));
    let r = ap.parse(&args(&["make", "--jobs", "8"]), &env);
    assert_eq!(r.values[0], Value::One(Scalar::Int(8)));
    // a value that does not parse is a warning only
    let env = vec![Some("four".to_string()), Some("bob".to_string())];
    let r = ap.parse(&args(&["make"]), &env);
    assert_eq!(r.status, Ok(()));
    assert_eq!(r.stderr, "WARNING: Environment variable JOBS: Bad value four\n");
    assert_eq!(r.values[0], Value::One(Scalar::Int(0)));
    // a required variable that only the environment can set
    let env = vec![None, None];
    let r = ap.parse(&args(&["make"]), &env);
    assert_eq!(r.status, Err(2));
    assert!(r.stderr.ends_with("make: Environment var USER is required\n"));
}

#[test]
fn metavar_can_be_set() {
    let mut ap = ArgumentParser::new();
    {
        let mut r = ap.refer(str_value(""));
        r.add_option(&["--output-file"], Store, "Where").metavar("FILE");
    }
    let help = ap.print_help("p");
    assert!(help.contains("  --output-file FILE    Where\n"));
}

#[test]
fn long_help_is_wrapped() {
    let mut ap = ArgumentParser::new();
    {
        let mut r = ap.refer(Value::One(Scalar::Bool(false)));
        r.add_option(
            &["-x"],
            StoreConst(Scalar::Bool(true)),
            "one two three four five six seven eight nine ten eleven twelve thirteen",
        );
    }
    let help = ap.print_help("p");
    let line1 = format!("  -x{}one two three four five six seven eight nine ten eleven", pad(20));
    let line2 = format!("{}twelve thirteen\n", pad(24));
    assert!(help.ends_with(&format!("{}\n{}", line1, line2)));
}

#[test]
fn parse_result_view() {
    assert!(ParseResult::Parsed.is_parsed());
    assert!(!ParseResult::Help.is_parsed());
    assert!(!ParseResult::Error("x".to_string()).is_parsed());
}

#[test]
fn empty_command_line() {
    let ap = greeter();
    let r = ap.try_parse(&vec![], &vec![]).unwrap();
    assert_eq!(r.status, Ok(()));
    let mut ap = ArgumentParser::new();
    {
        let mut r = ap.refer(str_value(""));
        r.add_argument("file", Store, "A file").required();
    }
    assert!(ap.try_parse(&vec![], &vec![]).is_none());
    assert!(ap.try_parse(&args(&["p", "f"]), &vec![]).is_some());
}

#[test]
fn integer_syntax() {
    let mut ap = ArgumentParser::new();
    {
        let mut r = ap.refer(Value::One(Scalar::Int(0)));
        r.add_option(&["--n"], Store, "A number");
    }
    let cases: [(&str, Option<i64>); 11] = [
        ("42", Some(42)),
        ("+7", Some(7)),
        ("-0", Some(0)),
        ("007", Some(7)),
        ("-9223372036854775808", Some(i64::MIN)),
        ("9223372036854775807", Some(i64::MAX)),
        ("9223372036854775808", None),
        ("-9223372036854775809", None),
        ("", None),
        ("-", None),
        ("1a", None),
    ];
    for (word, expected) in cases {
        let r = ap.parse(&args(&["p", &format!("--n={}", word)]), &vec![]);
        match expected {
            Some(v) => {
                assert_eq!(r.status, Ok(()), "{}", word);
                assert_eq!(r.values[0], Value::One(Scalar::Int(v)));
            }
            None => {
                assert_eq!(r.status, Err(2), "{}", word);
                assert!(r.stderr.ends_with(&format!("p: Bad value {}\n", word)));
            }
        }
    }
}

#[test]
fn variable_without_bindings_keeps_its_value() {
    let mut ap = ArgumentParser::new();
    {
        let _r = ap.refer(str_value("kept"));
    }
    {
        let mut r = ap.refer(Value::One(Scalar::Bool(false)));
        r.add_option(&["-f"], StoreConst(Scalar::Bool(true)), "Flag");
    }
    let r = ap.parse(&args(&["p", "-f"]), &vec![]);
    assert_eq!(r.status, Ok(()));
    assert_eq!(r.values[0], str_value("kept"));
    assert_eq!(r.values[1], Value::One(Scalar::Bool(true)));
}

#[test]
fn positional_skips_variables_set_by_options() {
    let mut ap = ArgumentParser::new();
    {
        let mut r = ap.refer(str_value(""));
        r.add_option(&["--src"], Store, "Source").add_argument("src", Store, "Source");
    }
    {
        let mut r = ap.refer(str_value(""));
        r.add_argument("dst", Store, "Destination");
    }
    let r = ap.parse(&args(&["p", "--src", "a", "b"]), &vec![]);
    assert_eq!(r.status, Ok(()));
    assert_eq!(r.values[0], str_value("a"));
    assert_eq!(r.values[1], str_value("b"));
    let r = ap.parse(&args(&["p", "a", "b"]), &vec![]);
    assert_eq!(r.values[0], str_value("a"));
    assert_eq!(r.values[1], str_value("b"));
    // the metavariable comes from the first binding
    assert!(ap.print_help("p").contains("  --src SRC"));
}
