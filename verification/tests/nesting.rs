use sexpr::env::new_context;
use sexpr::eval::eval;
use sexpr::expr::{Atom, Exp, List, Prim};
use sexpr::parser::parse;
use sexpr::token::tokenize;

fn read_number(s: &String) -> Option<u64> {
    s.parse::<f64>().ok().map(f64::to_bits)
}

fn show_number(n: u64) -> String {
    format!("{:?}", f64::from_bits(n))
}

fn add_only(_op: Prim, x: u64, y: u64) -> u64 {
    (f64::from_bits(x) + f64::from_bits(y)).to_bits()
}

fn first_only(_op: Prim, x: u64, _y: u64) -> u64 {
    x
}

fn sym(s: &str) -> Exp {
    Exp::Atom(Atom::Symbol(s.to_string()))
}

fn nesting(e: &Exp) -> String {
    match e {
        Exp::List(List(items)) => {
            let mut out = String::from("(");
            for item in items {
                out.push_str(&nesting(item));
            }
            out.push(')');
            out
        }
        _ => String::new(),
    }
}

fn parens(text: &str) -> String {
    text.chars().filter(|c| *c == '(' || *c == ')').collect()
}

#[test]
fn tokens_keep_the_parentheses() {
    for text in ["", "(", ")(", "a(b)c", "((a) (b c)) )", " ( ( ) ) ", "x y z"] {
        let among: String = tokenize(text.to_string())
            .into_iter()
            .filter(|t| t == "(" || t == ")")
            .collect();
        assert_eq!(among, parens(text));
    }
}

#[test]
fn tokens_are_words() {
    for text in ["a(b)c", "  (+ 1\t(* 2 3))\n", "((()))", "a\u{2003}b"] {
        for token in tokenize(text.to_string()) {
            assert!(!token.is_empty());
            assert!(!token.chars().any(char::is_whitespace));
            assert!(token == "(" || token == ")" || parens(&token).is_empty());
        }
    }
}

#[test]
fn render_then_parse_keeps_the_nesting() {
    for text in [
        "()",
        "(+ 1 2)",
        "(+ 1 (* 2 3))",
        "((a) b)",
        "(((x)) () (y (z 1.5)))",
        "(a (b (c (d))))",
    ] {
        let tree = parse(text.to_string(), &read_number).unwrap();
        let shown = tree.render(&show_number);
        let back = parse(shown.clone(), &read_number).unwrap();
        assert_eq!(nesting(&back), nesting(&tree));
        assert_eq!(parens(&shown), nesting(&tree));
    }
}

#[test]
fn render_then_parse_changes_the_atoms() {
    let tree = parse("((a) 2)".to_string(), &read_number).unwrap();
    let shown = tree.render(&show_number);
    assert_eq!(shown, "((\"a\"), 2.0)");
    let back = parse(shown, &read_number).unwrap();
    assert_eq!(
        back,
        Exp::List(List(vec![
            Exp::List(List(vec![sym("\"a\"")])),
            sym(","),
            Exp::Atom(Atom::Number(2.0f64.to_bits())),
        ]))
    );
}

#[test]
fn failure_does_not_depend_on_the_arithmetic() {
    let ctx = new_context();
    for text in ["(+ 1)", "(foo)", "(1 2)", "()", "(+ 1 *)", "+", "(* 1 (+ 2 x))"] {
        let tree = parse(text.to_string(), &read_number).unwrap();
        assert_eq!(eval(&tree, &ctx, &add_only), eval(&tree, &ctx, &first_only));
    }
    let tree = parse("(* 2 (/ 8 4))".to_string(), &read_number).unwrap();
    assert_eq!(
        eval(&tree, &ctx, &add_only),
        Ok(Exp::Atom(Atom::Number(14.0f64.to_bits())))
    );
    assert_eq!(
        eval(&tree, &ctx, &first_only),
        Ok(Exp::Atom(Atom::Number(2.0f64.to_bits())))
    );
}

#[test]
fn evaluation_is_repeatable() {
    let ctx = new_context();
    let tree = parse("(+ (* 2 3) (/ 1 3))".to_string(), &read_number).unwrap();
    assert_eq!(eval(&tree, &ctx, &add_only), eval(&tree, &ctx, &add_only));
}
