use sexpr::expr::{Atom, Exp, List};
use sexpr::parser::{classify, parse, read_from_tokens, to_atom, ParsingError, Token};
use sexpr::token::{is_whitespace, tokenize};
use std::collections::VecDeque;

fn read_number(s: &String) -> Option<u64> {
    s.parse::<f64>().ok().map(f64::to_bits)
}

fn num(x: f64) -> Exp {
    Exp::Atom(Atom::Number(x.to_bits()))
}

fn sym(s: &str) -> Exp {
    Exp::Atom(Atom::Symbol(s.to_string()))
}

fn list(items: Vec<Exp>) -> Exp {
    Exp::List(List(items))
}

fn words(input: &str) -> Vec<String> {
    tokenize(input.to_string()).into_iter().collect()
}

#[test]
fn tokenize_sets_parentheses_apart() {
    assert_eq!(words("(+ 1 2)"), vec!["(", "+", "1", "2", ")"]);
}

#[test]
fn tokenize_nested() {
    assert_eq!(
        words("(+ 1 (* 2 3))"),
        vec!["(", "+", "1", "(", "*", "2", "3", ")", ")"]
    );
}

#[test]
fn tokenize_parenthesis_inside_a_word() {
    assert_eq!(words("a(b)c"), vec!["a", "(", "b", ")", "c"]);
}

#[test]
fn tokenize_drops_runs_of_whitespace() {
    assert_eq!(words("  (  a \t\n b )  "), vec!["(", "a", "b", ")"]);
}

#[test]
fn tokenize_empty_and_blank() {
    assert!(words("").is_empty());
    assert!(words(" \t \n").is_empty());
}

#[test]
fn tokenize_unicode_whitespace() {
    assert_eq!(words("a\u{a0}b\u{3000}c\u{2003}d"), vec!["a", "b", "c", "d"]);
    assert_eq!(words("a\u{200b}b"), vec!["a\u{200b}b"]);
}

#[test]
fn whitespace_agrees_with_char() {
    let mut n: u32 = 0;
    while n < 0x3100 {
        if let Some(c) = char::from_u32(n) {
            assert_eq!(is_whitespace(c), c.is_whitespace());
        }
        n += 1;
    }
}

#[test]
fn to_atom_number_and_symbol() {
    assert_eq!(
        to_atom("1.5".to_string(), Some(1.5f64.to_bits())),
        Atom::Number(1.5f64.to_bits())
    );
    assert_eq!(to_atom("abc".to_string(), None), Atom::Symbol("abc".to_string()));
}

#[test]
fn classify_tells_tokens_apart() {
    let tokens: Vec<Token> = classify(tokenize("(x 2)".to_string()), &read_number)
        .into_iter()
        .collect();
    assert_eq!(
        tokens,
        vec![
            Token::Open,
            Token::Atom(Atom::Symbol("x".to_string())),
            Token::Atom(Atom::Number(2.0f64.to_bits())),
            Token::Close,
        ]
    );
}

#[test]
fn parse_application() {
    let got = parse("(+ 1 2)".to_string(), &read_number);
    assert_eq!(got, Ok(list(vec![sym("+"), num(1.0), num(2.0)])));
}

#[test]
fn parse_nested() {
    let got = parse("(+ 1 (* 2 3))".to_string(), &read_number);
    assert_eq!(
        got,
        Ok(list(vec![
            sym("+"),
            num(1.0),
            list(vec![sym("*"), num(2.0), num(3.0)]),
        ]))
    );
}

#[test]
fn parse_atom() {
    assert_eq!(parse("42".to_string(), &read_number), Ok(num(42.0)));
    assert_eq!(parse("-1e3".to_string(), &read_number), Ok(num(-1000.0)));
    assert_eq!(parse("abc".to_string(), &read_number), Ok(sym("abc")));
}

#[test]
fn parse_empty_list() {
    assert_eq!(parse("()".to_string(), &read_number), Ok(list(vec![])));
}

#[test]
fn parse_missing_close() {
    assert_eq!(
        parse("(+ 1 2".to_string(), &read_number),
        Err(ParsingError::UnexpectedEOF)
    );
    assert_eq!(
        parse("(+ 1 (* 2 3)".to_string(), &read_number),
        Err(ParsingError::UnexpectedEOF)
    );
    assert_eq!(parse("(".to_string(), &read_number), Err(ParsingError::UnexpectedEOF));
}

#[test]
fn parse_empty_input() {
    assert_eq!(parse("".to_string(), &read_number), Err(ParsingError::UnexpectedEOF));
    assert_eq!(parse("   ".to_string(), &read_number), Err(ParsingError::UnexpectedEOF));
}

#[test]
fn parse_stray_close() {
    assert_eq!(parse(")".to_string(), &read_number), Err(ParsingError::UnexpectedEOF));
    assert_eq!(parse(") 1".to_string(), &read_number), Err(ParsingError::UnexpectedEOF));
}

#[test]
fn parse_ignores_what_follows() {
    assert_eq!(parse("1 2 3".to_string(), &read_number), Ok(num(1.0)));
    assert_eq!(parse("(a) )".to_string(), &read_number), Ok(list(vec![sym("a")])));
}

#[test]
fn read_from_tokens_leaves_the_rest() {
    let mut tokens = classify(tokenize("(a) b )".to_string()), &read_number);
    assert_eq!(read_from_tokens(&mut tokens), Ok(list(vec![sym("a")])));
    assert_eq!(tokens.len(), 2);
    assert_eq!(read_from_tokens(&mut tokens), Ok(sym("b")));
    assert_eq!(read_from_tokens(&mut tokens), Err(ParsingError::UnexpectedEOF));
    assert_eq!(tokens.len(), 0);
    assert_eq!(read_from_tokens(&mut tokens), Err(ParsingError::UnexpectedEOF));
}

#[test]
fn read_from_tokens_on_an_empty_queue() {
    let mut tokens: VecDeque<Token> = VecDeque::new();
    assert_eq!(read_from_tokens(&mut tokens), Err(ParsingError::UnexpectedEOF));
}

#[test]
fn errors_differ() {
    assert_ne!(ParsingError::SyntaxError, ParsingError::UnexpectedEOF);
}
