use spaced_expr::lexer::{LexError, Token, Tokens};
use spaced_expr::parser::{parse, ParseError, Precedence};
use std::cmp::Ordering;

fn render(input: &str) -> String {
    parse(input).unwrap().render()
}

#[test]
fn test() {
    fn assert_eq(input: &str, expected: &str) {
        let output = render(input);
        assert_eq!(output, expected);
    }

    assert_eq("1.2 + 3.4", "(1.2 + 3.4)");
    assert_eq("1 * 2+3", "(1 * (2 + 3))");
    assert_eq("1* 2+ 3", "(1 * (2 + 3))");

    assert_eq("1*    3+4   -   5/6", "(1 * ((3 + 4) - (5 / 6)))");
    assert_eq("1*    3+4    -   5/6", "((1 * (3 + 4)) - (5 / 6))");

    assert_eq("sqrt 1", "(sqrt 1)");
    assert_eq("sqrt sqrt 1 + 1", "((sqrt (sqrt 1)) + 1)");
    assert_eq("sqrt sqrt  1 + 1", "(sqrt (sqrt (1 + 1)))");
    assert_eq("sqrt   sqrt 1 + 1", "(sqrt ((sqrt 1) + 1))");
}

#[test]
fn multiplication_binds_tighter_on_equal_spacing() {
    assert_eq!(render("1 + 2 * 3"), "(1 + (2 * 3))");
    assert_eq!(render("1 * 2 + 3"), "((1 * 2) + 3)");
    assert_eq!(render("1*2+3"), "((1 * 2) + 3)");
    assert_eq!(render("1+2*3"), "(1 + (2 * 3))");
}

#[test]
fn spacing_overrides_algebraic_class() {
    assert_eq!(render("1+2 * 3"), "((1 + 2) * 3)");
    assert_eq!(render("1 - 2 - 3"), "((1 - 2) - 3)");
    assert_eq!(render("8 / 4/2"), "(8 / (4 / 2))");
}

#[test]
fn equal_spacing_variants_agree() {
    assert_eq!(render("1 * 2+3"), render("1* 2+ 3"));
    assert_eq!(render("1*2 + 3"), render("1 *2  +  3"));
}

#[test]
fn unary_minus() {
    assert_eq!(render("-1"), "(- 1)");
    assert_eq!(render("- 1 + 2"), "((- 1) + 2)");
    assert_eq!(render("-  1 + 2"), "(- (1 + 2))");
    assert_eq!(render("1 - -2"), "(1 - (- 2))");
}

#[test]
fn trailing_tokens_are_rejected() {
    assert_eq!(parse("1 + 2 )").err(), Some(ParseError::Syntax));
    assert_eq!(parse("1 2").err(), Some(ParseError::Syntax));
    assert_eq!(parse("sqrt 1 x").err(), Some(ParseError::Syntax));
}

#[test]
fn empty_and_garbage_input_fails() {
    assert_eq!(parse("").err(), Some(ParseError::Syntax));
    assert_eq!(parse("   \t ").err(), Some(ParseError::Syntax));
    assert_eq!(parse(")").err(), Some(ParseError::Syntax));
    assert_eq!(parse(") 1").err(), Some(ParseError::Syntax));
    assert_eq!(parse("cos 1").err(), Some(ParseError::Syntax));
    assert_eq!(parse("1 +").err(), Some(ParseError::Syntax));
    assert_eq!(parse("sqrt").err(), Some(ParseError::Syntax));
}

#[test]
fn malformed_numerals_are_lexical_errors() {
    assert_eq!(
        parse("1.2.3").err(),
        Some(ParseError::Lexical(LexError { start: 0, end: 5 }))
    );
    assert_eq!(
        parse("1 + .").err(),
        Some(ParseError::Lexical(LexError { start: 4, end: 5 }))
    );
    assert_eq!(
        parse("1 ..").err(),
        Some(ParseError::Lexical(LexError { start: 2, end: 4 }))
    );
}

#[test]
fn deterministic() {
    let input = "sqrt 1*  2 - 3 /4";
    assert_eq!(render(input), render(input));
}

#[test]
fn numerals_render_in_shortest_form() {
    assert_eq!(render("1.50"), "1.5");
    assert_eq!(render("007"), "7");
    assert_eq!(render(".5"), "0.5");
    assert_eq!(render("3."), "3");
    assert_eq!(render("0.0"), "0");
    assert_eq!(render("10.01"), "10.01");
}

#[test]
fn numeral_lexes_to_one_number() {
    let mut tokens = Tokens::new("12.05");
    match tokens.next() {
        Ok(Some(Token::Number(n, 0))) => {
            assert_eq!(n.whole_digits(), vec![1, 2]);
            assert_eq!(n.fraction_digits(), vec![0, 5]);
        }
        _ => panic!("expected a number"),
    }
    assert!(matches!(tokens.next(), Ok(None)));
}

#[test]
fn tokens_record_spacing() {
    let mut tokens = Tokens::new("  ab_c\t+ 3");
    match tokens.peek() {
        Ok(Some(Token::Word(w, 2))) => assert_eq!(w, vec!['a', 'b', '_', 'c']),
        _ => panic!("expected a word"),
    }
    match tokens.next() {
        Ok(Some(t)) => assert_eq!(t.spacing(), 2),
        _ => panic!("expected a token"),
    }
    assert!(matches!(tokens.next(), Ok(Some(Token::Symbol('+', 1)))));
    match tokens.next() {
        Ok(Some(t)) => assert_eq!(t.spacing(), 1),
        _ => panic!("expected a token"),
    }
    assert!(matches!(tokens.peek(), Ok(None)));
}

#[test]
fn precedence_comparison() {
    let tight = Precedence { spacing: 0, algebraic: 2 };
    let loose = Precedence { spacing: 1, algebraic: 1 };
    assert_eq!(tight.compare(&loose), Ordering::Greater);
    assert_eq!(loose.compare(&tight), Ordering::Less);
    let mul = Precedence { spacing: 1, algebraic: 1 };
    let add = Precedence { spacing: 1, algebraic: 2 };
    assert_eq!(mul.compare(&add), Ordering::Greater);
    assert_eq!(add.compare(&add), Ordering::Equal);
}

#[test]
fn unicode_letters_and_spaces() {
    let mut tokens = Tokens::new("\u{3000}\u{a0}αβ_");
    match tokens.next() {
        Ok(Some(Token::Word(w, 2))) => assert_eq!(w, vec!['α', 'β', '_']),
        _ => panic!("expected a word after two spaces"),
    }
    assert!(matches!(tokens.next(), Ok(None)));
    assert_eq!(render("1\u{2003}*\u{2003}2+3"), "(1 * (2 + 3))");
    assert_eq!(parse("é").err(), Some(ParseError::Syntax));
}

#[test]
fn equal_spacing_same_class_groups_left() {
    assert_eq!(render("9 - 4 + 1"), "((9 - 4) + 1)");
    assert_eq!(render("9/3*2"), "((9 / 3) * 2)");
    assert_eq!(render("1  -  2  *  3"), "(1 - (2 * 3))");
}
