use sexpr::env::new_context;
use sexpr::eval::{apply, eval, EvalError};
use sexpr::expr::{Atom, Exp, List, Prim};
use sexpr::parser::{parse, ParsingError};

fn read_number(s: &String) -> Option<u64> {
    s.parse::<f64>().ok().map(f64::to_bits)
}

fn arith(op: Prim, x: u64, y: u64) -> u64 {
    let (a, b) = (f64::from_bits(x), f64::from_bits(y));
    let z = match op {
        Prim::Add => a + b,
        Prim::Mul => a * b,
        Prim::Div => a / b,
    };
    z.to_bits()
}

fn show_number(n: u64) -> String {
    format!("{:?}", f64::from_bits(n))
}

fn num(x: f64) -> Exp {
    Exp::Atom(Atom::Number(x.to_bits()))
}

fn sym(s: &str) -> Exp {
    Exp::Atom(Atom::Symbol(s.to_string()))
}

fn run(input: &str) -> Result<Exp, EvalError> {
    let exp = parse(input.to_string(), &read_number).unwrap();
    eval(&exp, &new_context(), &arith)
}

#[test]
fn eval_addition() {
    assert_eq!(run("(+ 1 2)"), Ok(num(3.0)));
}

#[test]
fn eval_multiplication() {
    assert_eq!(run("(* 2 3)"), Ok(num(6.0)));
}

#[test]
fn eval_nested() {
    assert_eq!(run("(+ 1 (* 2 3))"), Ok(num(7.0)));
    assert_eq!(run("(/ (+ 1 2) (* 2 3))"), Ok(num(0.5)));
}

#[test]
fn eval_division() {
    assert_eq!(run("(/ 4 2)"), Ok(num(2.0)));
    assert_eq!(run("(/ 1 0)"), Ok(num(f64::INFINITY)));
}

#[test]
fn eval_division_is_not_commutative() {
    assert_eq!(run("(/ 1 4)"), Ok(num(0.25)));
    assert_eq!(run("(/ 4 1)"), Ok(num(4.0)));
}

#[test]
fn eval_unbound_symbol() {
    assert_eq!(run("(foo 1 2)"), Err(EvalError::UnboundSymbol));
    assert_eq!(run("foo"), Err(EvalError::UnboundSymbol));
    assert_eq!(run("(+ 1 x)"), Err(EvalError::UnboundSymbol));
}

#[test]
fn eval_not_callable() {
    assert_eq!(run("(1 2 3)"), Err(EvalError::NotCallable));
    assert_eq!(run("((+ 1 2) 3)"), Err(EvalError::NotCallable));
}

#[test]
fn eval_empty_list() {
    assert_eq!(run("()"), Err(EvalError::EmptyList));
    assert_eq!(run("(+ 1 ())"), Err(EvalError::EmptyList));
}

#[test]
fn eval_wrong_arity() {
    assert_eq!(run("(+)"), Err(EvalError::WrongArity));
    assert_eq!(run("(+ 1)"), Err(EvalError::WrongArity));
    assert_eq!(run("(+ 1 2 3)"), Err(EvalError::WrongArity));
}

#[test]
fn eval_wrong_type() {
    assert_eq!(run("(+ 1 *)"), Err(EvalError::WrongType));
    assert_eq!(run("(+ / 1)"), Err(EvalError::WrongType));
}

#[test]
fn eval_children_before_the_call() {
    assert_eq!(run("(1 2 foo)"), Err(EvalError::UnboundSymbol));
    assert_eq!(run("(+ foo ())"), Err(EvalError::UnboundSymbol));
    assert_eq!(run("(+ () foo)"), Err(EvalError::EmptyList));
    assert_eq!(run("(+ 1 2 foo)"), Err(EvalError::UnboundSymbol));
}

#[test]
fn eval_atoms_and_procedures() {
    let ctx = new_context();
    assert_eq!(eval(&num(1.5), &ctx, &arith), Ok(num(1.5)));
    assert_eq!(eval(&sym("+"), &ctx, &arith), Ok(Exp::Proc(Prim::Add)));
    assert_eq!(eval(&sym("*"), &ctx, &arith), Ok(Exp::Proc(Prim::Mul)));
    assert_eq!(eval(&sym("/"), &ctx, &arith), Ok(Exp::Proc(Prim::Div)));
    assert_eq!(eval(&Exp::Proc(Prim::Div), &ctx, &arith), Ok(Exp::Proc(Prim::Div)));
}

#[test]
fn eval_procedure_as_head() {
    let exp = Exp::List(List(vec![Exp::Proc(Prim::Mul), num(4.0), num(0.5)]));
    assert_eq!(eval(&exp, &new_context(), &arith), Ok(num(2.0)));
}

#[test]
fn eval_reads_the_environment() {
    let mut ctx = new_context();
    ctx.insert("x".to_string(), num(10.0));
    let exp = parse("(* x x)".to_string(), &read_number).unwrap();
    assert_eq!(eval(&exp, &ctx, &arith), Ok(num(100.0)));
    assert_eq!(ctx.len(), 4);
}

#[test]
fn base_context_holds_three_procedures() {
    let ctx = new_context();
    assert_eq!(ctx.len(), 3);
    assert_eq!(ctx.get("+"), Some(&Exp::Proc(Prim::Add)));
    assert_eq!(ctx.get("*"), Some(&Exp::Proc(Prim::Mul)));
    assert_eq!(ctx.get("/"), Some(&Exp::Proc(Prim::Div)));
    assert_eq!(ctx.get("-"), None);
}

#[test]
fn apply_checks_its_arguments() {
    assert_eq!(apply(Prim::Add, &[num(1.0), num(2.0)], &arith), Ok(num(3.0)));
    assert_eq!(apply(Prim::Add, &[num(1.0)], &arith), Err(EvalError::WrongArity));
    assert_eq!(apply(Prim::Add, &[], &arith), Err(EvalError::WrongArity));
    assert_eq!(
        apply(Prim::Add, &[num(1.0), sym("a")], &arith),
        Err(EvalError::WrongType)
    );
    assert_eq!(
        apply(Prim::Add, &[Exp::List(List(vec![])), num(1.0)], &arith),
        Err(EvalError::WrongType)
    );
}

#[test]
fn clone_keeps_the_tree() {
    let exp = parse("(+ 1 (* a 3) ())".to_string(), &read_number).unwrap();
    assert_eq!(exp.clone(), exp);
}

#[test]
fn render_parsed_tree() {
    let exp = parse("(+ 1 2)".to_string(), &read_number).unwrap();
    assert_eq!(exp.render(&show_number), "(\"+\", 1.0, 2.0)");
}

#[test]
fn render_value() {
    assert_eq!(run("(+ 1 2)").unwrap().render(&show_number), "3.0");
    assert_eq!(run("(/ 1 0)").unwrap().render(&show_number), "inf");
}

#[test]
fn render_nested_and_empty() {
    let exp = parse("(a (b 2.5) ())".to_string(), &read_number).unwrap();
    assert_eq!(exp.render(&show_number), "(\"a\", (\"b\", 2.5), ())");
}

#[test]
fn render_procedure() {
    assert_eq!(Exp::Proc(Prim::Add).render(&show_number), "proc");
    assert_eq!(run("+").unwrap().render(&show_number), "proc");
}

#[test]
fn render_symbol_is_quoted_and_escaped() {
    assert_eq!(sym("a\"b").render(&show_number), "\"a\\\"b\"");
    assert_eq!(Atom::Symbol("x".to_string()).render(&show_number), "\"x\"");
}

#[test]
fn render_parsing_error() {
    assert_eq!(ParsingError::UnexpectedEOF.render(), "ParsingError");
    assert_eq!(ParsingError::SyntaxError.render(), "ParsingError");
}
