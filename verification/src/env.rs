//! The environment: names bound to values.
use crate::expr::{Exp, ExpView, Prim};
use vstd::hash_map::StringHashMap;
use vstd::prelude::*;
use vstd::string::*;

verus! {

/// A mapping from symbol names to the values bound to them.
pub type Context = StringHashMap<Exp>;

/// The model of an environment: the names it binds, each with the model of
/// its value.
pub open spec fn env_view(ctx: Context) -> Map<Seq<char>, ExpView> {
    ctx@.map_values(|e: Exp| e@)
}

/// The name under which a built-in procedure is bound.
pub open spec fn prim_name(p: Prim) -> Seq<char> {
    match p {
        Prim::Add => seq!['+'],
        Prim::Mul => seq!['*'],
        Prim::Div => seq!['/'],
    }
}

/// The base environment: each built-in procedure under its name, and
/// nothing else.
pub open spec fn base_env() -> Map<Seq<char>, ExpView> {
    Map::new(
        |name: Seq<char>| exists|p: Prim| name == #[trigger] prim_name(p),
        |name: Seq<char>|
            ExpView::Proc(
                if name == prim_name(Prim::Add) {
                    Prim::Add
                } else if name == prim_name(Prim::Mul) {
                    Prim::Mul
                } else {
                    Prim::Div
                },
            ),
    )
}

/// The name of a built-in procedure, as a string.
fn name_of(p: Prim) -> (name: String)
    ensures
        name@ == prim_name(p),
{
    let c = match p {
        Prim::Add => '+',
        Prim::Mul => '*',
        Prim::Div => '/',
    };
    let mut name = String::new();
    name.push(c);
    assert(name@ =~= seq![c]);
    name
}

/// Makes the base environment.
pub fn new_context() -> (c: Context)
    ensures
        env_view(c) == base_env(),
{
    let mut c = Context::new();
    c.insert(name_of(Prim::Add), Exp::Proc(Prim::Add));
    c.insert(name_of(Prim::Mul), Exp::Proc(Prim::Mul));
    c.insert(name_of(Prim::Div), Exp::Proc(Prim::Div));
    proof {
        assert(prim_name(Prim::Add) != prim_name(Prim::Mul)) by {
            assert(prim_name(Prim::Add)[0] != prim_name(Prim::Mul)[0]);
        }
        assert(prim_name(Prim::Add) != prim_name(Prim::Div)) by {
            assert(prim_name(Prim::Add)[0] != prim_name(Prim::Div)[0]);
        }
        assert(prim_name(Prim::Mul) != prim_name(Prim::Div)) by {
            assert(prim_name(Prim::Mul)[0] != prim_name(Prim::Div)[0]);
        }
        assert(env_view(c) =~= base_env());
    }
    c
}

} // verus!
