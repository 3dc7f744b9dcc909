use mal_reader::mal_types::ErrorKind;
use mal_reader::mal_types::MalError;
use mal_reader::mal_types::MalType;
use mal_reader::reader::read_str;
use mal_reader::reader::tokenizer;

#[test]
fn test_tokenizer() {
    let code = "(+ 2 (* 3 4))";
    let tokens = tokenizer(code).unwrap();
    assert_eq!(
        tokens,
        vec![
            "(".to_string(),
            "+".to_string(),
            "2".to_string(),
            "(".to_string(),
            "*".to_string(),
            "3".to_string(),
            "4".to_string(),
            ")".to_string(),
            ")".to_string(),
        ]
    );
}

#[test]
fn test_read_str() {
    let code = "(nil true false :foo \"string\" (+ 2 (* 3 4)))";
    let ast = read_str(code).unwrap();
    assert_eq!(
        ast,
        MalType::MalList(vec![
            MalType::Nil,
            MalType::Bool(true),
            MalType::Bool(false),
            MalType::Keyword("foo".to_string()),
            MalType::Str("string".to_string()),
            MalType::MalList(vec![
                MalType::Symbol("+".to_string()),
                MalType::Number(2),
                MalType::MalList(vec![
                    MalType::Symbol("*".to_string()),
                    MalType::Number(3),
                    MalType::Number(4),
                ]),
            ]),
        ])
    );
}

#[test]
fn test_read_vector() {
    let code = "[1 :foo nil]";
    let ast = read_str(code).unwrap();
    assert_eq!(
        ast,
        MalType::Vector(vec![
            MalType::Number(1),
            MalType::Keyword("foo".to_string()),
            MalType::Nil,
        ])
    );
}

#[test]
fn test_unclosed_string() {
    let code = "\"abc";
    let err = read_str(code).unwrap_err();
    assert_eq!(err, MalError(ErrorKind::UnterminatedString));
}

#[test]
fn test_comment() {
    let code = "; comment";
    let err = read_str(code).unwrap_err();
    assert_eq!(err, MalError(ErrorKind::UnexpectedEndOfInput));
    let code = "[1] ; comment";
    let ast = read_str(code).unwrap();
    assert_eq!(ast, MalType::Vector(vec![MalType::Number(1)]));
    let code = "\"str\" ; comment";
    let ast = read_str(code).unwrap();
    assert_eq!(ast, MalType::Str("str".to_string()));
}

#[test]
fn test_empty_list_and_vector() {
    assert_eq!(read_str("()").unwrap(), MalType::MalList(vec![]));
    assert_eq!(read_str("[]").unwrap(), MalType::Vector(vec![]));
}

#[test]
fn test_list_of_numbers() {
    assert_eq!(
        read_str("(1 2 3)").unwrap(),
        MalType::MalList(vec![
            MalType::Number(1),
            MalType::Number(2),
            MalType::Number(3),
        ])
    );
}

#[test]
fn test_list_of_literals() {
    assert_eq!(
        read_str("(nil true false)").unwrap(),
        MalType::MalList(vec![
            MalType::Nil,
            MalType::Bool(true),
            MalType::Bool(false),
        ])
    );
}

#[test]
fn test_escaped_newline_in_string() {
    let ast = read_str("\"a\\nb\"").unwrap();
    assert_eq!(ast, MalType::Str("a\nb".to_string()));
}

#[test]
fn test_other_escapes_are_verbatim() {
    let ast = read_str("\"a\\\"b\\\\c\"").unwrap();
    assert_eq!(ast, MalType::Str("a\"b\\c".to_string()));
}

#[test]
fn test_nested_arithmetic_form() {
    assert_eq!(
        read_str("(+ 1 (* 2 3))").unwrap(),
        MalType::MalList(vec![
            MalType::Symbol("+".to_string()),
            MalType::Number(1),
            MalType::MalList(vec![
                MalType::Symbol("*".to_string()),
                MalType::Number(2),
                MalType::Number(3),
            ]),
        ])
    );
}

#[test]
fn test_trailing_comment_is_invisible() {
    assert_eq!(read_str("[1]"), read_str("[1] ; trailing comment"));
}

#[test]
fn test_bare_quote_marker() {
    assert_eq!(
        read_str("'").unwrap_err(),
        MalError(ErrorKind::UnexpectedEndOfInput)
    );
}

#[test]
fn test_quote_markers_expand() {
    assert_eq!(
        read_str("'foo").unwrap(),
        MalType::MalList(vec![
            MalType::Symbol("quote".to_string()),
            MalType::Symbol("foo".to_string()),
        ])
    );
    assert_eq!(
        read_str("~foo").unwrap(),
        MalType::MalList(vec![
            MalType::Symbol("unquote".to_string()),
            MalType::Symbol("foo".to_string()),
        ])
    );
    assert_eq!(
        read_str("~@foo").unwrap(),
        MalType::MalList(vec![
            MalType::Symbol("splice-unquote".to_string()),
            MalType::Symbol("foo".to_string()),
        ])
    );
    assert_eq!(
        read_str("`foo").unwrap(),
        MalType::MalList(vec![
            MalType::Symbol("quasiquote".to_string()),
            MalType::Symbol("foo".to_string()),
        ])
    );
    assert_eq!(
        read_str("@foo").unwrap(),
        MalType::MalList(vec![
            MalType::Symbol("deref".to_string()),
            MalType::Symbol("foo".to_string()),
        ])
    );
}

#[test]
fn test_unterminated_collections() {
    assert_eq!(
        read_str("(1 2").unwrap_err(),
        MalError(ErrorKind::UnterminatedCollection)
    );
    assert_eq!(
        read_str("[1").unwrap_err(),
        MalError(ErrorKind::UnterminatedCollection)
    );
    assert_eq!(
        read_str("((1 2)").unwrap_err(),
        MalError(ErrorKind::UnterminatedCollection)
    );
}

#[test]
fn test_mismatched_close_delimiter() {
    assert_eq!(
        read_str("(1 [2 3)").unwrap_err(),
        MalError(ErrorKind::IllegalCharacter)
    );
}

#[test]
fn test_raw_newline_in_string() {
    assert_eq!(
        read_str("\"ab\ncd\"").unwrap_err(),
        MalError(ErrorKind::UnterminatedString)
    );
}

#[test]
fn test_illegal_characters() {
    assert_eq!(
        read_str(")").unwrap_err(),
        MalError(ErrorKind::IllegalCharacter)
    );
    assert_eq!(
        read_str("]").unwrap_err(),
        MalError(ErrorKind::IllegalCharacter)
    );
    assert_eq!(
        read_str("^").unwrap_err(),
        MalError(ErrorKind::IllegalCharacter)
    );
    assert_eq!(
        read_str("{").unwrap_err(),
        MalError(ErrorKind::IllegalCharacter)
    );
}

#[test]
fn test_malformed_numbers() {
    assert_eq!(
        read_str("1.5").unwrap_err(),
        MalError(ErrorKind::MalformedNumber)
    );
    assert_eq!(
        read_str(".").unwrap_err(),
        MalError(ErrorKind::MalformedNumber)
    );
    assert_eq!(
        read_str("12345678901234567890").unwrap_err(),
        MalError(ErrorKind::MalformedNumber)
    );
    assert_eq!(
        read_str("-9223372036854775809").unwrap_err(),
        MalError(ErrorKind::MalformedNumber)
    );
}

#[test]
fn test_number_limits_and_signs() {
    assert_eq!(read_str("-5").unwrap(), MalType::Number(-5));
    assert_eq!(
        read_str("9223372036854775807").unwrap(),
        MalType::Number(i64::MAX)
    );
    assert_eq!(
        read_str("-9223372036854775808").unwrap(),
        MalType::Number(i64::MIN)
    );
    assert_eq!(read_str("-").unwrap(), MalType::Symbol("-".to_string()));
    assert_eq!(read_str("007").unwrap(), MalType::Number(7));
}

#[test]
fn test_bare_keyword_marker() {
    assert_eq!(read_str(":").unwrap(), MalType::Keyword("".to_string()));
}

#[test]
fn test_empty_input() {
    assert_eq!(
        read_str("").unwrap_err(),
        MalError(ErrorKind::UnexpectedEndOfInput)
    );
    assert_eq!(
        read_str("   ,,, \t\n").unwrap_err(),
        MalError(ErrorKind::UnexpectedEndOfInput)
    );
}

#[test]
fn test_commas_are_whitespace() {
    assert_eq!(
        read_str("(1,2,3)").unwrap(),
        MalType::MalList(vec![
            MalType::Number(1),
            MalType::Number(2),
            MalType::Number(3),
        ])
    );
}

#[test]
fn test_deeply_nested_input_is_bounded() {
    let mut code = String::new();
    for _ in 0..10000 {
        code.push('(');
    }
    assert_eq!(
        read_str(&code).unwrap_err(),
        MalError(ErrorKind::DepthLimitExceeded)
    );
    let mut balanced = String::new();
    for _ in 0..10000 {
        balanced.push('(');
    }
    for _ in 0..10000 {
        balanced.push(')');
    }
    assert_eq!(
        read_str(&balanced).unwrap_err(),
        MalError(ErrorKind::DepthLimitExceeded)
    );
}

#[test]
fn test_moderate_nesting_parses() {
    let mut code = String::new();
    for _ in 0..400 {
        code.push('(');
    }
    for _ in 0..400 {
        code.push(')');
    }
    let mut expected = MalType::MalList(vec![]);
    for _ in 0..399 {
        expected = MalType::MalList(vec![expected]);
    }
    assert_eq!(read_str(&code).unwrap(), expected);
}

#[test]
fn test_trailing_tokens_are_left_for_the_caller() {
    assert_eq!(read_str("1 2 3").unwrap(), MalType::Number(1));
}

#[test]
fn test_tokenizer_unterminated_string() {
    assert_eq!(
        tokenizer("\"abc").unwrap_err(),
        MalError(ErrorKind::UnterminatedString)
    );
}

#[test]
fn test_non_ascii_symbol_characters() {
    assert_eq!(
        read_str("\u{3bb}x").unwrap(),
        MalType::Symbol("\u{3bb}x".to_string())
    );
}

#[test]
fn test_comment_inside_collection() {
    assert_eq!(
        read_str("[1 ; c\n 2]").unwrap(),
        MalType::Vector(vec![MalType::Number(1), MalType::Number(2)])
    );
}

#[test]
fn test_bare_unquote_marker() {
    assert_eq!(
        read_str("~").unwrap_err(),
        MalError(ErrorKind::UnexpectedEndOfInput)
    );
}

#[test]
fn test_escape_at_end_of_input() {
    assert_eq!(
        read_str("\"ab\\").unwrap_err(),
        MalError(ErrorKind::UnterminatedString)
    );
}

#[test]
fn test_symbol_with_embedded_marker_characters() {
    assert_eq!(
        read_str("a~b@c").unwrap(),
        MalType::Symbol("a~b@c".to_string())
    );
}
