use kwargs::utils::arg_parser::{Argument, ArgumentError, Parser, Value};

type Conv = fn(String) -> Result<usize, String>;

fn parse_usize(s: String) -> Result<usize, String> {
    match s.parse::<usize>() {
        Ok(n) => Ok(n),
        Err(_) => Err(format!("not a non-negative integer: {}", s)),
    }
}

fn token_length(s: String) -> Result<usize, String> {
    Ok(s.len())
}

fn table() -> Parser<usize, String, Conv> {
    let mut p: Parser<usize, String, Conv> = Parser::build("test options");
    p.arg("add", "a", "add the given value", parse_usize);
    p.flag("test", "t", "test flag", false);
    p
}

fn tokens(items: &[&str]) -> Vec<String> {
    items.iter().map(|s| s.to_string()).collect()
}

#[test]
fn single_flag_long_name_resolves() {
    let p = table();
    let r = p.parse(&tokens(&["--test"])).unwrap();
    assert_eq!(r.len(), 1);
    assert!(matches!(r.get("test"), Some(Value::Flag(true))));
}

#[test]
fn single_flag_short_name_resolves() {
    let p = table();
    let r = p.parse(&tokens(&["-t"])).unwrap();
    assert_eq!(r.len(), 1);
    assert!(matches!(r.get("test"), Some(Value::Flag(true))));
}

#[test]
fn valued_pair_resolves() {
    let p = table();
    let r = p.parse(&tokens(&["--add", "5"])).unwrap();
    assert_eq!(r.len(), 1);
    assert!(matches!(r.get("add"), Some(Value::Value(5))));
}

#[test]
fn valued_pair_short_name_resolves() {
    let p = table();
    let r = p.parse(&tokens(&["-a", "17"])).unwrap();
    assert_eq!(r.len(), 1);
    assert!(matches!(r.get("add"), Some(Value::Value(17))));
}

#[test]
fn empty_input_is_unrecognized_empty_token() {
    let p = table();
    match p.parse(&Vec::new()) {
        Err(ArgumentError::UnrecognizedArgument(u)) => assert_eq!(u, ""),
        other => panic!("expected UnrecognizedArgument, got {:?}", other),
    }
}

#[test]
fn unknown_single_token_is_unrecognized() {
    let p = table();
    match p.parse(&tokens(&["--unknown"])) {
        Err(ArgumentError::UnrecognizedArgument(u)) => assert_eq!(u, "--unknown"),
        other => panic!("expected UnrecognizedArgument, got {:?}", other),
    }
}

#[test]
fn unknown_first_token_stops_the_scan() {
    let p = table();
    match p.parse(&tokens(&["--bogus", "-t"])) {
        Err(ArgumentError::UnrecognizedArgument(u)) => assert_eq!(u, "--bogus"),
        other => panic!("expected UnrecognizedArgument, got {:?}", other),
    }
}

#[test]
fn converter_error_is_acceptance_error() {
    let p = table();
    match p.parse(&tokens(&["--add", "x"])) {
        Err(ArgumentError::AcceptanceError(e)) => {
            assert_eq!(e, "not a non-negative integer: x")
        },
        other => panic!("expected AcceptanceError, got {:?}", other),
    }
}

#[test]
fn converter_error_discards_earlier_matches() {
    let p = table();
    match p.parse(&tokens(&["-t", "--add", "x"])) {
        Err(ArgumentError::AcceptanceError(e)) => {
            assert_eq!(e, "not a non-negative integer: x")
        },
        other => panic!("expected AcceptanceError, got {:?}", other),
    }
}

#[test]
fn parse_twice_yields_identical_results() {
    let p = table();
    let input = tokens(&["--add", "5", "-t"]);
    let r1 = p.parse(&input).unwrap();
    let r2 = p.parse(&input).unwrap();
    assert_eq!(r1.len(), r2.len());
    assert!(matches!(r1.get("add"), Some(Value::Value(5))));
    assert!(matches!(r2.get("add"), Some(Value::Value(5))));
    assert!(matches!(r1.get("test"), Some(Value::Flag(true))));
    assert!(matches!(r2.get("test"), Some(Value::Flag(true))));
}

#[test]
fn help_flag_is_built_in() {
    let p = table();
    let r = p.parse(&tokens(&["--help"])).unwrap();
    assert_eq!(r.len(), 1);
    assert!(matches!(r.get("help"), Some(Value::Flag(true))));
    let r = p.parse(&tokens(&["-h"])).unwrap();
    assert!(matches!(r.get("help"), Some(Value::Flag(true))));
}

#[test]
fn single_valued_token_fails_the_flag_lookup() {
    let p = table();
    match p.parse(&tokens(&["--add"])) {
        Err(ArgumentError::UnrecognizedArgument(u)) => assert_eq!(u, "--add"),
        other => panic!("expected UnrecognizedArgument, got {:?}", other),
    }
}

#[test]
fn trailing_valued_option_converts_the_sentinel() {
    let p = table();
    match p.parse(&tokens(&["-t", "--add"])) {
        Err(ArgumentError::AcceptanceError(e)) => {
            assert_eq!(e, "not a non-negative integer: ")
        },
        other => panic!("expected AcceptanceError, got {:?}", other),
    }
}

#[test]
fn trailing_valued_option_sentinel_can_succeed() {
    let mut p: Parser<usize, String, Conv> = Parser::build("lengths");
    p.arg("len", "l", "length of the following token", token_length);
    p.flag("test", "t", "test flag", false);
    let r = p.parse(&tokens(&["-t", "--len"])).unwrap();
    assert_eq!(r.len(), 2);
    assert!(matches!(r.get("test"), Some(Value::Flag(true))));
    assert!(matches!(r.get("len"), Some(Value::Value(0))));
}

#[test]
fn flag_does_not_consume_the_following_token() {
    let p = table();
    let r = p.parse(&tokens(&["-t", "--add", "7"])).unwrap();
    assert_eq!(r.len(), 2);
    assert!(matches!(r.get("test"), Some(Value::Flag(true))));
    assert!(matches!(r.get("add"), Some(Value::Value(7))));
}

#[test]
fn later_match_overwrites_earlier_one() {
    let p = table();
    let r = p.parse(&tokens(&["--add", "1", "--add", "2"])).unwrap();
    assert_eq!(r.len(), 1);
    assert!(matches!(r.get("add"), Some(Value::Value(2))));
}

#[test]
fn duplicate_names_resolve_by_path() {
    // one name declared both valued and as a flag: the general scan takes
    // the first declaration in table order, the bare-flag lookup the first
    // flag declaration
    let mut p: Parser<usize, String, Conv> = Parser::build("duplicates");
    p.arg("x", "x", "valued x", parse_usize);
    p.flag("x", "x", "flag x", false);
    let r = p.parse(&tokens(&["-x"])).unwrap();
    assert!(matches!(r.get("x"), Some(Value::Flag(true))));
    let r = p.parse(&tokens(&["-x", "5"])).unwrap();
    assert!(matches!(r.get("x"), Some(Value::Value(5))));
}

#[test]
fn defaults_are_recorded_but_never_inserted() {
    // registered defaults only feed help rendering: an option absent from
    // the input stays absent from the mapping
    let mut p: Parser<usize, String, Conv> = Parser::build("defaults");
    p.arg_default("count", "c", "a count", 42, parse_usize);
    p.flag("test", "t", "test flag", true);
    let r = p.parse(&tokens(&["--test", "-t"])).unwrap();
    assert_eq!(r.len(), 1);
    assert!(r.get("count").is_none());
    let decls = p.declarations();
    assert!(matches!(decls[1].default, Some(Value::Value(42))));
    assert!(matches!(decls[2].default, Some(Value::Flag(true))));
}

#[test]
fn argument_pairs_identifier_with_outcome() {
    let a: Argument<usize, String> = Argument { key: "add".to_string(), value: Ok(Value::Value(5)) };
    assert_eq!(a.key, "add");
    assert!(matches!(a.value, Ok(Value::Value(5))));
    let b: Argument<usize, String> = Argument { key: "add".to_string(), value: Err("bad".to_string()) };
    assert!(matches!(b.value, Err(ref e) if e == "bad"));
}

#[test]
fn names_carry_the_fixed_prefixes() {
    let p = table();
    let decls = p.declarations();
    assert_eq!(decls[0].id, "help");
    assert_eq!(decls[0].names.long, "--help");
    assert_eq!(decls[0].names.short, "-h");
    assert_eq!(decls[1].id, "add");
    assert_eq!(decls[1].names.long, "--add");
    assert_eq!(decls[1].names.short, "-a");
    assert_eq!(decls[2].names.long, "--test");
    assert_eq!(decls[2].names.short, "-t");
    assert_eq!(p.description(), "test options");
}
