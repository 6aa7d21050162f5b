//! The tree-walking evaluator.
//!
//! Arithmetic on numbers is done by a function that the caller supplies.
//! It need not be a function in the mathematical sense, so the contracts
//! here are relations: they say which results an evaluation may have, given
//! the relation between the arguments and the results of the arithmetic.
use crate::env::{env_view, Context};
use crate::expr::{lemma_list_view, views, Atom, Exp, ExpView, List, Prim};
use vstd::prelude::*;
use vstd::slice::*;
use vstd::string::*;

verus! {

/// Why an expression has no value.
#[derive(Clone, Copy, Debug, PartialEq, Eq, Structural)]
pub enum EvalError {
    /// A symbol is not bound in the environment.
    UnboundSymbol,
    /// The head of a list did not evaluate to a procedure.
    NotCallable,
    /// A list without children was evaluated.
    EmptyList,
    /// A built-in procedure was given other than two arguments.
    WrongArity,
    /// A built-in procedure was given an argument that is no number.
    WrongType,
}

/// The model of an evaluation's result.
pub open spec fn value_view(r: Result<Exp, EvalError>) -> Result<ExpView, EvalError> {
    match r {
        Ok(e) => Ok(e@),
        Err(e) => Err(e),
    }
}

/// The arithmetic that `f` does, as a relation: whether `f`, called with
/// `op`, `x` and `y`, may return `z`.
pub open spec fn arith_of<F: Fn(Prim, u64, u64) -> u64>(f: &F) -> spec_fn(
    Prim,
    u64,
    u64,
    u64,
) -> bool {
    |op: Prim, x: u64, y: u64, z: u64| call_ensures(f, (op, x, y), z)
}

/// Whether the arithmetic may give `z` for `op`, `x` and `y`.
pub open spec fn gives(
    arith: spec_fn(Prim, u64, u64, u64) -> bool,
    op: Prim,
    x: u64,
    y: u64,
    z: u64,
) -> bool {
    arith(op, x, y, z)
}

/// Whether applying the built-in procedure `op` to `args` may give `r`.
pub open spec fn applies(
    arith: spec_fn(Prim, u64, u64, u64) -> bool,
    op: Prim,
    args: Seq<ExpView>,
    r: Result<ExpView, EvalError>,
) -> bool {
    if args.len() != 2 {
        r == Err::<ExpView, EvalError>(EvalError::WrongArity)
    } else if args[0] is Number && args[1] is Number {
        exists|z: u64|
            #[trigger] gives(arith, op, args[0]->Number_0, args[1]->Number_0, z) && r == Ok::<
                ExpView,
                EvalError,
            >(ExpView::Number(z))
    } else {
        r == Err::<ExpView, EvalError>(EvalError::WrongType)
    }
}

/// Whether a list whose children have the values `vals`, head first, may
/// evaluate to `r`.
pub open spec fn calls(
    arith: spec_fn(Prim, u64, u64, u64) -> bool,
    vals: Seq<ExpView>,
    r: Result<ExpView, EvalError>,
) -> bool
    recommends
        vals.len() > 0,
{
    match vals[0] {
        ExpView::Proc(op) => applies(arith, op, vals.subrange(1, vals.len() as int), r),
        _ => r == Err::<ExpView, EvalError>(EvalError::NotCallable),
    }
}

/// Whether `e` may evaluate to `r` in `env`.
///
/// A symbol has the value bound to it; a number and a procedure are their
/// own values.  The children of a list are evaluated from left to right,
/// the head among them, up to the first that fails; if none fails, the
/// head's value is called with the values of the others.
pub open spec fn evaluates(
    arith: spec_fn(Prim, u64, u64, u64) -> bool,
    env: Map<Seq<char>, ExpView>,
    e: ExpView,
    r: Result<ExpView, EvalError>,
) -> bool
    decreases e,
{
    match e {
        ExpView::Symbol(s) => r == if env.contains_key(s) {
            Ok::<ExpView, EvalError>(env[s])
        } else {
            Err::<ExpView, EvalError>(EvalError::UnboundSymbol)
        },
        ExpView::Number(_) => r == Ok::<ExpView, EvalError>(e),
        ExpView::Proc(_) => r == Ok::<ExpView, EvalError>(e),
        ExpView::List(items) => if items.len() == 0 {
            r == Err::<ExpView, EvalError>(EvalError::EmptyList)
        } else {
            exists|vals: Seq<ExpView>|
                (#[trigger] vals.len()) <= items.len() && runs(arith, env, items, vals, r)
        },
    }
}

/// Whether evaluating the children `items` of a list may go as follows:
/// the first `vals.len()` of them have the values `vals`, and the list ends
/// in `r`, which is the failure of the next child or, where none is left,
/// the result of the call.
pub open spec fn runs(
    arith: spec_fn(Prim, u64, u64, u64) -> bool,
    env: Map<Seq<char>, ExpView>,
    items: Seq<ExpView>,
    vals: Seq<ExpView>,
    r: Result<ExpView, EvalError>,
) -> bool
    decreases items,
{
    &&& vals.len() <= items.len()
    &&& forall|i: int|
        0 <= i < vals.len() ==> evaluates(
            arith,
            env,
            #[trigger] items[i],
            Ok::<ExpView, EvalError>(vals[i]),
        )
    &&& if vals.len() < items.len() {
        r is Err && evaluates(arith, env, items[vals.len() as int], r)
    } else {
        calls(arith, vals, r)
    }
}

/// Whether two values are the same but for the bits of a number.
pub open spec fn alike(a: ExpView, b: ExpView) -> bool {
    a == b || (a is Number && b is Number)
}

/// Whether two results are the same error, or values that are alike.
pub open spec fn alike_results(
    r1: Result<ExpView, EvalError>,
    r2: Result<ExpView, EvalError>,
) -> bool {
    match (r1, r2) {
        (Ok(a), Ok(b)) => alike(a, b),
        (Err(x), Err(y)) => x == y,
        _ => false,
    }
}

/// Whether two arithmetic functions never give different results on the
/// same arguments.
pub open spec fn agree(
    f: spec_fn(Prim, u64, u64, u64) -> bool,
    g: spec_fn(Prim, u64, u64, u64) -> bool,
) -> bool {
    forall|op: Prim, x: u64, y: u64, z1: u64, z2: u64|
        #![trigger gives(f, op, x, y, z1), gives(g, op, x, y, z2)]
        gives(f, op, x, y, z1) && gives(g, op, x, y, z2) ==> z1 == z2
}

/// Two evaluations of one expression in one environment, compared: their
/// results are alike, and equal where `exact` says that the arithmetic
/// functions agree.
proof fn lemma_eval_compare(
    f: spec_fn(Prim, u64, u64, u64) -> bool,
    g: spec_fn(Prim, u64, u64, u64) -> bool,
    env: Map<Seq<char>, ExpView>,
    e: ExpView,
    r1: Result<ExpView, EvalError>,
    r2: Result<ExpView, EvalError>,
    exact: bool,
)
    requires
        evaluates(f, env, e, r1),
        evaluates(g, env, e, r2),
        exact ==> agree(f, g),
    ensures
        alike_results(r1, r2),
        exact ==> r1 == r2,
    decreases e,
{
    if let ExpView::List(items) = e {
        if items.len() > 0 {
            let v1 = choose|vals: Seq<ExpView>|
                (#[trigger] vals.len()) <= items.len() && runs(f, env, items, vals, r1);
            let v2 = choose|vals: Seq<ExpView>|
                (#[trigger] vals.len()) <= items.len() && runs(g, env, items, vals, r2);
            let n1 = v1.len() as int;
            let n2 = v2.len() as int;
            assert forall|i: int| 0 <= i < n1 && i < n2 implies alike(v1[i], v2[i]) && (exact
                ==> v1[i] == v2[i]) by {
                lemma_eval_compare(
                    f,
                    g,
                    env,
                    items[i],
                    Ok::<ExpView, EvalError>(v1[i]),
                    Ok::<ExpView, EvalError>(v2[i]),
                    exact,
                );
            }
            if n1 < n2 {
                lemma_eval_compare(
                    f,
                    g,
                    env,
                    items[n1],
                    r1,
                    Ok::<ExpView, EvalError>(v2[n1]),
                    exact,
                );
            } else if n2 < n1 {
                lemma_eval_compare(
                    f,
                    g,
                    env,
                    items[n2],
                    Ok::<ExpView, EvalError>(v1[n2]),
                    r2,
                    exact,
                );
            } else if n1 < items.len() {
                lemma_eval_compare(f, g, env, items[n1], r1, r2, exact);
            } else {
                let a1 = v1.subrange(1, n1);
                let a2 = v2.subrange(1, n2);
                assert(calls(f, v1, r1));
                assert(calls(g, v2, r2));
                assert(alike(v1[0], v2[0]));
                if v1[0] is Proc {
                    let op = v1[0]->Proc_0;
                    assert(applies(f, op, a1, r1));
                    assert(applies(g, op, a2, r2));
                    if a1.len() == 2 {
                        assert(a1[0] == v1[1] && a1[1] == v1[2]);
                        assert(a2[0] == v2[1] && a2[1] == v2[2]);
                        assert(alike(v1[1], v2[1]));
                        assert(alike(v1[2], v2[2]));
                    }
                }
            }
        }
    }
}

/// What an evaluation gives does not depend on the arithmetic but for the
/// bits of numbers: whether it fails, with which error, and every value
/// that is no number are the same for any two arithmetic functions.
pub proof fn lemma_eval_outcome(
    f: spec_fn(Prim, u64, u64, u64) -> bool,
    g: spec_fn(Prim, u64, u64, u64) -> bool,
    env: Map<Seq<char>, ExpView>,
    e: ExpView,
    r1: Result<ExpView, EvalError>,
    r2: Result<ExpView, EvalError>,
)
    requires
        evaluates(f, env, e, r1),
        evaluates(g, env, e, r2),
    ensures
        alike_results(r1, r2),
{
    lemma_eval_compare(f, g, env, e, r1, r2, false);
}

/// Evaluation has one result where the arithmetic has: two evaluations of
/// one expression in one environment, with arithmetic functions that agree,
/// give the same result.
pub proof fn lemma_eval_deterministic(
    f: spec_fn(Prim, u64, u64, u64) -> bool,
    g: spec_fn(Prim, u64, u64, u64) -> bool,
    env: Map<Seq<char>, ExpView>,
    e: ExpView,
    r1: Result<ExpView, EvalError>,
    r2: Result<ExpView, EvalError>,
)
    requires
        evaluates(f, env, e, r1),
        evaluates(g, env, e, r2),
        agree(f, g),
    ensures
        r1 == r2,
{
    lemma_eval_compare(f, g, env, e, r1, r2, true);
}

/// Applies the built-in procedure `op` to `args`: exactly two numbers, on
/// which `arith` is called once.
pub fn apply<F: Fn(Prim, u64, u64) -> u64>(op: Prim, args: &[Exp], arith: &F) -> (r: Result<
    Exp,
    EvalError,
>)
    requires
        forall|p: Prim, x: u64, y: u64| call_requires(arith, (p, x, y)),
    ensures
        applies(arith_of(arith), op, views(args@), value_view(r)),
        args@.len() != 2 ==> r == Err::<Exp, EvalError>(EvalError::WrongArity),
        args@.len() == 2 && !(args@[0]@ is Number && args@[1]@ is Number) ==> r == Err::<
            Exp,
            EvalError,
        >(EvalError::WrongType),
        args@.len() == 2 && args@[0]@ is Number && args@[1]@ is Number ==> r is Ok,
{
    if args.len() != 2 {
        return Err(EvalError::WrongArity);
    }
    match (&args[0], &args[1]) {
        (Exp::Atom(Atom::Number(x)), Exp::Atom(Atom::Number(y))) => {
            let z = arith(op, *x, *y);
            proof {
                let rel = arith_of(arith);
                let given = views(args@);
                assert(gives(rel, op, given[0]->Number_0, given[1]->Number_0, z));
            }
            Ok(Exp::Atom(Atom::Number(z)))
        },
        _ => Err(EvalError::WrongType),
    }
}

/// Evaluates `exp` in `ctx`.  The environment is only read.  The call stack
/// grows with the nesting of `exp`.
pub fn eval<F: Fn(Prim, u64, u64) -> u64>(exp: &Exp, ctx: &Context, arith: &F) -> (r: Result<
    Exp,
    EvalError,
>)
    requires
        forall|p: Prim, x: u64, y: u64| call_requires(arith, (p, x, y)),
    ensures
        evaluates(arith_of(arith), env_view(*ctx), exp@, value_view(r)),
    decreases exp,
{
    match exp {
        Exp::Atom(Atom::Symbol(s)) => match ctx.get(s.as_str()) {
            Some(v) => Ok(v.clone()),
            None => Err(EvalError::UnboundSymbol),
        },
        Exp::Atom(Atom::Number(n)) => Ok(Exp::Atom(Atom::Number(*n))),
        Exp::Proc(p) => Ok(Exp::Proc(*p)),
        Exp::List(l) => {
            proof {
                lemma_list_view(*l);
            }
            eval_list(l, ctx, arith)
        },
    }
}

/// Evaluates a list: its children from left to right, then the call.
fn eval_list<F: Fn(Prim, u64, u64) -> u64>(l: &List, ctx: &Context, arith: &F) -> (r: Result<
    Exp,
    EvalError,
>)
    requires
        forall|p: Prim, x: u64, y: u64| call_requires(arith, (p, x, y)),
    ensures
        evaluates(arith_of(arith), env_view(*ctx), ExpView::List(l@), value_view(r)),
    decreases l,
{
    proof {
        lemma_list_view(*l);
    }
    let ghost env = env_view(*ctx);
    let ghost items = l@;
    let n = l.0.len();
    if n == 0 {
        return Err(EvalError::EmptyList);
    }
    let mut vals: Vec<Exp> = Vec::new();
    let mut i: usize = 0;
    while i < n
        invariant
            forall|p: Prim, x: u64, y: u64| call_requires(arith, (p, x, y)),
            n == l.0@.len(),
            n > 0,
            items == views(l.0@),
            items == l@,
            env == env_view(*ctx),
            i <= n,
            vals@.len() == i,
            forall|j: int|
                0 <= j < i ==> evaluates(
                    arith_of(arith),
                    env,
                    #[trigger] items[j],
                    Ok::<ExpView, EvalError>(vals@[j]@),
                ),
        decreases n - i,
    {
        match eval(&l.0[i], ctx, arith) {
            Ok(v) => {
                vals.push(v);
            },
            Err(e) => {
                proof {
                    let r = Err::<ExpView, EvalError>(e);
                    assert(runs(arith_of(arith), env, items, views(vals@), r));
                }
                return Err(e);
            },
        }
        i += 1;
    }
    let r = match &vals[0] {
        Exp::Proc(op) => apply(*op, slice_subrange(vals.as_slice(), 1, n), arith),
        _ => Err(EvalError::NotCallable),
    };
    proof {
        let done = views(vals@);
        assert(done.subrange(1, n as int) =~= views(vals@.subrange(1, n as int)));
        assert(runs(arith_of(arith), env, items, done, value_view(r)));
    }
    r
}

} // verus!
