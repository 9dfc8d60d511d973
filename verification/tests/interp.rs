use toy_pascal::ast::TreeNode;
use toy_pascal::error::InterpError;
use toy_pascal::eval::{interpret, Visit};
use toy_pascal::lexer::Interpreter;
use toy_pascal::token::{Token, TokenKind};

fn run(src: &str) -> Result<Visit, InterpError> {
    interpret(&src.to_string())
}

fn value_of(v: &Visit, name: &str) -> Option<i64> {
    v.get(&name.to_string())
}

#[test]
fn precedence_multiplication_binds_tighter() {
    let v = run("BEGIN x := 2 + 3 * 4 END.").unwrap();
    assert_eq!(value_of(&v, "x"), Some(14));
}

#[test]
fn parentheses_override_precedence() {
    let v = run("BEGIN x := (2 + 3) * 4 END.").unwrap();
    assert_eq!(value_of(&v, "x"), Some(20));
}

#[test]
fn subtraction_is_left_associative() {
    let v = run("BEGIN x := 10 - 2 - 3 END.").unwrap();
    assert_eq!(value_of(&v, "x"), Some(5));
}

#[test]
fn division_is_left_associative_and_truncates() {
    let v = run("BEGIN x := 100 / 5 / 2; y := 7 / 2 END.").unwrap();
    assert_eq!(value_of(&v, "x"), Some(10));
    assert_eq!(value_of(&v, "y"), Some(3));
}

#[test]
fn negative_division_truncates_toward_zero() {
    let v = run("BEGIN x := (0 - 7) / 2; y := 7 / (0 - 2) END.").unwrap();
    assert_eq!(value_of(&v, "x"), Some(-3));
    assert_eq!(value_of(&v, "y"), Some(-3));
}

#[test]
fn unary_minus_chains() {
    let v = run("BEGIN x := - - 5 END.").unwrap();
    assert_eq!(value_of(&v, "x"), Some(5));
    let w = run("BEGIN x := -5 END.").unwrap();
    assert_eq!(value_of(&w, "x"), Some(-5));
}

#[test]
fn unary_plus_is_identity() {
    let v = run("BEGIN x := +7; y := - + 7 END.").unwrap();
    assert_eq!(value_of(&v, "x"), Some(7));
    assert_eq!(value_of(&v, "y"), Some(-7));
}

#[test]
fn nested_blocks_share_the_global_store() {
    let v = run("BEGIN BEGIN y := 1 END; z := y + 1 END.").unwrap();
    assert_eq!(value_of(&v, "y"), Some(1));
    assert_eq!(value_of(&v, "z"), Some(2));
}

#[test]
fn assignment_overwrites() {
    let v = run("BEGIN a := 1; a := a + 1; a := a * 10 END.").unwrap();
    assert_eq!(value_of(&v, "a"), Some(20));
}

#[test]
fn undefined_variable_fails() {
    let e = run("BEGIN x := y + 1 END.").unwrap_err();
    match e {
        InterpError::RuntimeUndefined { name } => assert_eq!(name, "y"),
        other => panic!("expected an undefined-variable failure, got {:?}", other),
    }
}

#[test]
fn division_by_zero_fails() {
    let e = run("BEGIN x := 1 / 0 END.").unwrap_err();
    assert!(matches!(e, InterpError::RuntimeDivZero));
}

#[test]
fn colon_without_equals_fails_at_its_position() {
    let e = run("BEGIN x : 1 END.").unwrap_err();
    match e {
        InterpError::LexBadAssign { pos } => assert_eq!(pos, 8),
        other => panic!("expected a malformed-assignment failure, got {:?}", other),
    }
}

#[test]
fn unrecognized_character_fails_at_its_position() {
    let e = run("BEGIN x := 1 ? END.").unwrap_err();
    match e {
        InterpError::LexBadChar { ch, pos } => {
            assert_eq!(ch, '?');
            assert_eq!(pos, 13);
        },
        other => panic!("expected an unrecognized-character failure, got {:?}", other),
    }
}

#[test]
fn trailing_tokens_after_the_dot_fail() {
    let e = run("BEGIN x := 1 END. extra").unwrap_err();
    assert!(matches!(e, InterpError::SyntaxTrailing { found: TokenKind::Id }));
}

#[test]
fn missing_end_fails_with_expected_versus_found() {
    let e = run("BEGIN x := 1").unwrap_err();
    assert!(matches!(
        e,
        InterpError::SyntaxUnexpected { expected: TokenKind::End, found: TokenKind::Eof }
    ));
}

#[test]
fn statements_without_separator_fail() {
    let e = run("BEGIN x := 1 y := 2 END.").unwrap_err();
    assert!(matches!(e, InterpError::SyntaxUnseparated));
}

#[test]
fn no_factor_starts_with_a_separator() {
    let e = run("BEGIN x := ; END.").unwrap_err();
    assert!(matches!(e, InterpError::SyntaxBadFactor { found: TokenKind::Semi }));
}

#[test]
fn empty_program_leaves_an_empty_store() {
    let v = run("BEGIN END.").unwrap();
    assert_eq!(value_of(&v, "x"), None);
}

#[test]
fn empty_statements_between_separators_are_allowed() {
    let v = run("BEGIN x := 1; ; y := 2; END.").unwrap();
    assert_eq!(value_of(&v, "x"), Some(1));
    assert_eq!(value_of(&v, "y"), Some(2));
}

#[test]
fn keywords_are_case_sensitive() {
    let v = run("BEGIN begin := 1; end := begin + 1 END.").unwrap();
    assert_eq!(value_of(&v, "begin"), Some(1));
    assert_eq!(value_of(&v, "end"), Some(2));
}

#[test]
fn identifiers_may_hold_digits() {
    let v = run("BEGIN x1 := 5; x2 := x1 * x1 END.").unwrap();
    assert_eq!(value_of(&v, "x2"), Some(25));
}

#[test]
fn whitespace_and_newlines_are_skipped() {
    let v = run("BEGIN\n  x := 1 +\n       2\nEND.").unwrap();
    assert_eq!(value_of(&v, "x"), Some(3));
}

#[test]
fn lexer_produces_tokens_on_demand() {
    let mut it = Interpreter::from(&"12 + begin".to_string()).unwrap();
    assert!(matches!(it.current_token, Token::Integer(12)));
    let t = it.get_next_token().unwrap();
    assert!(matches!(t, Token::Op1('+')));
    let t = it.get_next_token().unwrap();
    match t {
        Token::Id(name) => assert_eq!(name, "begin"),
        other => panic!("expected an identifier, got {:?}", other),
    }
    let t = it.get_next_token().unwrap();
    assert!(matches!(t, Token::Eof));
}

#[test]
fn lexer_from_reports_an_immediate_failure() {
    let e = Interpreter::from(&"@".to_string()).unwrap_err();
    assert!(matches!(e, InterpError::LexBadChar { ch: '@', pos: 0 }));
}

#[test]
fn get_digits_scans_a_maximal_run() {
    let mut it = Interpreter {
        text: "1234x".to_string(),
        current_token: Token::Eof,
        idx: 0,
    };
    assert_eq!(it.get_digits(), 1234);
    assert_eq!(it.idx, 4);
}

#[test]
fn parse_is_deterministic_for_one_source() {
    let src = "BEGIN a := 1 + 2 * 3; BEGIN b := a - 4 END END.".to_string();
    let t1 = Interpreter::from(&src).unwrap().parse().unwrap();
    let t2 = Interpreter::from(&src).unwrap().parse().unwrap();
    assert_eq!(t1.render(), t2.render());
}

#[test]
fn render_shows_levels_with_child_counts() {
    let src = "BEGIN x := 5 END.".to_string();
    let tree = Interpreter::from(&src).unwrap().parse().unwrap();
    let expected = "  |Other(1)|  \n  |Other(1)|  \n  |ASSIGN(2)|  \n  |variable: x(0)|    |INTEGER: 5(0)|  \n";
    assert_eq!(tree.render(), expected);
}

#[test]
fn render_shows_operators_and_unary_markers() {
    let src = "BEGIN x := -1 + 2 END.".to_string();
    let tree = Interpreter::from(&src).unwrap().parse().unwrap();
    let expected = "  |Other(1)|  \n  |Other(1)|  \n  |ASSIGN(2)|  \n  |variable: x(0)|    |operation: +(2)|  \n  |UNARY: -(1)|    |INTEGER: 2(0)|  \n  |INTEGER: 1(0)|  \n";
    assert_eq!(tree.render(), expected);
}

#[test]
fn vist_var_resolves_identifier_leaves_only() {
    let mut v = Visit::new();
    let idn = TreeNode { node: Token::Id("a".to_string()), sub_nodes: vec![] };
    assert_eq!(v.vist_Var(&idn).unwrap(), "a");
    let dot = TreeNode { node: Token::Dot, sub_nodes: vec![] };
    assert!(matches!(v.vist_Var(&dot).unwrap_err(), InterpError::RuntimeBadNode));
}

#[test]
fn visiting_a_malformed_tree_fails() {
    let mut v = Visit::new();
    let bad = TreeNode { node: Token::Semi, sub_nodes: vec![] };
    assert!(matches!(v.visit(&bad).unwrap_err(), InterpError::RuntimeBadNode));
}

#[test]
fn arithmetic_wraps_at_the_signed_boundary() {
    let v = run("BEGIN x := 9223372036854775807 + 1 END.").unwrap();
    assert_eq!(value_of(&v, "x"), Some(i64::MIN));
}
