use mal_reader::mal_env::Env;
use mal_reader::mal_types::MalType;
use mal_reader::printer::pr_str;
use mal_reader::reader::read_str;

#[test]
fn test_pr_str_atoms() {
    assert_eq!(pr_str(&MalType::Nil), "nil");
    assert_eq!(pr_str(&MalType::Bool(true)), "true");
    assert_eq!(pr_str(&MalType::Bool(false)), "false");
    assert_eq!(pr_str(&MalType::Number(0)), "0");
    assert_eq!(pr_str(&MalType::Number(-42)), "-42");
    assert_eq!(pr_str(&MalType::Number(i64::MIN)), "-9223372036854775808");
    assert_eq!(pr_str(&MalType::Symbol("foo".to_string())), "foo");
    assert_eq!(pr_str(&MalType::Keyword("foo".to_string())), ":foo");
    assert_eq!(pr_str(&MalType::Str("str".to_string())), "\"str\"");
}

#[test]
fn test_pr_str_collections() {
    let ast = read_str("(+ 1 (* 2 3))").unwrap();
    assert_eq!(pr_str(&ast), "(+ 1 (* 2 3))");
    let ast = read_str("[1 :foo nil]").unwrap();
    assert_eq!(pr_str(&ast), "[1 :foo nil]");
    assert_eq!(pr_str(&MalType::MalList(vec![])), "()");
    assert_eq!(pr_str(&MalType::Vector(vec![])), "[]");
}

#[test]
fn test_pr_str_escapes_string_text() {
    assert_eq!(pr_str(&MalType::Str("a\"b".to_string())), "\"a\\\"b\"");
    assert_eq!(pr_str(&MalType::Str("a\\b".to_string())), "\"a\\\\b\"");
    assert_eq!(pr_str(&MalType::Str("a\nb".to_string())), "\"a\\nb\"");
}

#[test]
fn test_round_trip_of_strings_with_escapes() {
    let sources = ["\"a\\\"b\"", "\"a\\\\b\"", "\"a\\nb\""];
    for source in sources {
        let ast = read_str(source).unwrap();
        let printed = pr_str(&ast);
        assert_eq!(printed, *source);
        assert_eq!(read_str(&printed).unwrap(), ast);
    }
}

#[test]
fn test_print_then_read_round_trip() {
    let sources = [
        "(+ 1 (* 2 3))",
        "[1 :foo nil]",
        "(nil true false :foo \"string\" (+ 2 (* 3 4)))",
        "()",
        "[]",
        "-42",
        "\"str\"",
        "(a (b (c [d :e 5])))",
    ];
    for source in sources {
        let ast = read_str(source).unwrap();
        let printed = pr_str(&ast);
        let reread = read_str(&printed).unwrap();
        assert_eq!(reread, ast);
    }
}

#[test]
fn test_is_list() {
    assert!(read_str("(1)").unwrap().is_list());
    assert!(!read_str("[1]").unwrap().is_list());
    assert!(!read_str("nil").unwrap().is_list());
}

#[test]
fn test_env_new() {
    let outer = Env::new(None);
    assert!(outer.0.outer.is_none());
    let inner = Env::new(Some(outer));
    assert!(inner.0.outer.is_some());
}
