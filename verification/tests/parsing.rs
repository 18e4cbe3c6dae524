use lambda_eval::Expr;
use lambda_eval::parse::ParseError;
use lambda_eval::parse::Token;
use lambda_eval::parse;

fn parse_ok(s: &str) -> Expr {
    parse::parse(s).expect("an expression").expect("no error")
}

fn parse_err(s: &str) -> ParseError {
    parse::parse(s).expect("an expression").expect_err("an error")
}

#[test]
fn identity_abstraction() {
    let e = parse_ok("\\x.x");
    assert_eq!(e, Expr::lam("x", Expr::var("x")));
    assert_eq!(e.render(), "\u{03bb}x.x");
}

#[test]
fn lambda_glyph_accepted() {
    assert_eq!(parse_ok("\u{03bb}x.x"), Expr::lam("x", Expr::var("x")));
}

#[test]
fn application_is_left_associative() {
    let e = parse_ok("a b c");
    assert_eq!(
        e,
        Expr::app(Expr::app(Expr::var("a"), Expr::var("b")), Expr::var("c"))
    );
}

#[test]
fn parentheses_group_the_argument() {
    let e = parse_ok("a (b c)");
    assert_eq!(
        e,
        Expr::app(Expr::var("a"), Expr::app(Expr::var("b"), Expr::var("c")))
    );
}

#[test]
fn let_form() {
    let e = parse_ok("let x = y in x");
    assert_eq!(e, Expr::let_("x", Expr::var("y"), Expr::var("x")));
    assert_eq!(e.render(), "let x = y in x");
}

#[test]
fn lambda_body_extends_right() {
    // the body of an abstraction takes the whole application chain
    let e = parse_ok("\\f.f f");
    assert_eq!(
        e,
        Expr::lam("f", Expr::app(Expr::var("f"), Expr::var("f")))
    );
}

#[test]
fn primes_belong_to_the_name() {
    let e = parse_ok("x' y''");
    assert_eq!(e, Expr::app(Expr::var("x'"), Expr::var("y''")));
}

#[test]
fn underscores_continue_a_name() {
    assert_eq!(parse_ok("a_b"), Expr::var("a_b"));
}

#[test]
fn comment_runs_to_end_of_line() {
    assert_eq!(parse_ok("x -- the rest is ignored"), Expr::var("x"));
}

#[test]
fn blank_input_is_no_input() {
    assert!(parse::parse("").is_none());
    assert!(parse::parse("   \t  \n").is_none());
    assert!(parse::parse(" -- only a comment").is_none());
}

#[test]
fn open_paren_at_end_reports_end_of_input() {
    let e = parse_err("x (");
    assert!(matches!(e, ParseError::UnexpectedToken(Token::Eof)));
}

#[test]
fn stray_close_paren_is_trailing_input() {
    assert!(matches!(parse_err("x )"), ParseError::TrailingInput));
}

#[test]
fn unexpected_character_is_reported() {
    assert!(matches!(parse_err("?"), ParseError::UnexpectedChar('?')));
}

#[test]
fn lone_dash_is_masked_as_trailing_input() {
    // the lexer rejects a lone dash; the final end-of-input probe hits it
    // again, so the reported error is the generic trailing-input one
    assert!(matches!(parse_err("x - y"), ParseError::TrailingInput));
}

#[test]
fn missing_dot_is_reported_with_both_tokens() {
    let e = parse_err("\\x = ");
    assert!(matches!(e, ParseError::ExpectedToken(Token::Dot, Token::Equal)));
}

#[test]
fn lambda_without_name_is_reported() {
    let e = parse_err("\\.");
    assert!(matches!(e, ParseError::ExpectedName(Token::Dot)));
}

#[test]
fn lambda_cannot_stand_as_argument() {
    let e = parse_err("x \\");
    assert!(matches!(e, ParseError::UnexpectedToken(Token::Lam)));
}

#[test]
fn roundtrip_concrete_expressions() {
    let samples = [
        "x",
        "\\x.x",
        "a b c",
        "a (b c)",
        "let x = \\y.y in x x",
        "(\\f.(\\x.f (x x)) (\\x.f (x x))) g",
        "\\x'.x' z''",
    ];
    for s in samples {
        let e = parse_ok(s);
        let printed = e.render();
        let back = parse_ok(printed.as_str());
        assert_eq!(back, e);
    }
}

#[test]
fn render_parenthesizes_non_variables() {
    let e = Expr::app(
        Expr::app(Expr::var("a"), Expr::var("b")),
        Expr::lam("x", Expr::var("x")),
    );
    assert_eq!(e.render(), "(a b) (\u{03bb}x.x)");
}

#[test]
fn keywords_are_not_names() {
    // `in` ends the bound value, so `let x = in x` has no value expression
    let e = parse_err("let x = in");
    assert!(matches!(e, ParseError::UnexpectedToken(Token::KwIn)));
}
