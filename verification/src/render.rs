//! The structural rendering of expressions as text.
use crate::expr::{lemma_list_view, views, Atom, Exp, ExpView, List};
use crate::parser::ParsingError;
use vstd::prelude::*;
use vstd::string::*;

verus! {

/// The text of a string in the debug format of `str`: the string between
/// double quotes, with the characters escaped that the format escapes.
pub uninterp spec fn quoted(s: Seq<char>) -> Seq<char>;

/// Formats a string with `{:?}`, the `Debug` format of `str`.  The result
/// depends on the string's characters alone; it is given the name `quoted`
/// and nothing more is claimed of it.
#[verifier::external_body]
fn quote(s: &String) -> (r: String)
    ensures
        r@ == quoted(s@),
{
    format!("{:?}", s)
}

/// The parts of a list's rendering with `", "` between them.
pub open spec fn joined(parts: Seq<Seq<char>>) -> Seq<char>
    decreases parts.len(),
{
    if parts.len() == 0 {
        Seq::empty()
    } else if parts.len() == 1 {
        parts[0]
    } else {
        joined(parts.drop_last()) + seq![',', ' '] + parts.last()
    }
}

/// The texts that `f` gives to numbers, as a relation: whether `f`, called
/// with `n`, may return the text `out`.
pub open spec fn texts_of<F: Fn(u64) -> String>(f: &F) -> spec_fn(u64, Seq<char>) -> bool {
    |n: u64, out: Seq<char>| exists|s: String| #[trigger] call_ensures(f, (n,), s) && out == s@
}

/// Whether `out` may be the rendering of `e` when `show_number` relates
/// numbers to their texts.
///
/// A number is rendered as `show_number` says, a symbol in quotes, a
/// procedure as `proc`, and a list as its children's renderings between
/// parentheses, with `", "` between them.
pub open spec fn renders(
    show_number: spec_fn(u64, Seq<char>) -> bool,
    e: ExpView,
    out: Seq<char>,
) -> bool
    decreases e,
{
    match e {
        ExpView::Number(n) => show_number(n, out),
        ExpView::Symbol(s) => out == quoted(s),
        ExpView::Proc(_) => out == "proc"@,
        ExpView::List(items) => exists|parts: Seq<Seq<char>>|
            {
                &&& (#[trigger] parts.len()) == items.len()
                &&& forall|i: int|
                    0 <= i < items.len() ==> renders(show_number, #[trigger] items[i], parts[i])
                &&& out == seq!['('] + joined(parts) + seq![')']
            },
    }
}

impl Atom {
    /// The text of this atom.
    pub fn render<F: Fn(u64) -> String>(&self, show_number: &F) -> (out: String)
        requires
            forall|n: u64| call_requires(show_number, (n,)),
        ensures
            renders(texts_of(show_number), self@, out@),
    {
        match self {
            Atom::Number(n) => {
                let text = show_number(*n);
                assert(call_ensures(show_number, (*n,), text));
                assert(texts_of(show_number)(*n, text@));
                text
            },
            Atom::Symbol(s) => quote(s),
        }
    }
}

impl List {
    /// The text of this list.
    pub fn render<F: Fn(u64) -> String>(&self, show_number: &F) -> (out: String)
        requires
            forall|n: u64| call_requires(show_number, (n,)),
        ensures
            renders(texts_of(show_number), ExpView::List(self@), out@),
        decreases self,
    {
        proof {
            lemma_list_view(*self);
        }
        let ghost items = self@;
        let ghost mut parts: Seq<Seq<char>> = Seq::empty();
        let mut out = String::new();
        out.push('(');
        let mut i: usize = 0;
        while i < self.0.len()
            invariant
                forall|n: u64| call_requires(show_number, (n,)),
                items == views(self.0@),
                i <= self.0@.len(),
                parts.len() == i,
                forall|j: int|
                    0 <= j < i ==> renders(texts_of(show_number), #[trigger] items[j], parts[j]),
                out@ == seq!['('] + joined(parts),
            decreases self.0@.len() - i,
        {
            if i > 0 {
                out.push(',');
                out.push(' ');
            }
            let part = self.0[i].render(show_number);
            out.append(part.as_str());
            proof {
                let before = parts;
                parts = parts.push(part@);
                assert(parts.drop_last() =~= before);
                assert(out@ =~= seq!['('] + joined(parts));
            }
            i += 1;
        }
        out.push(')');
        proof {
            assert(parts.len() == items.len());
            assert(out@ =~= seq!['('] + joined(parts) + seq![')']);
        }
        out
    }
}

impl Exp {
    /// The text of this expression.
    pub fn render<F: Fn(u64) -> String>(&self, show_number: &F) -> (out: String)
        requires
            forall|n: u64| call_requires(show_number, (n,)),
        ensures
            renders(texts_of(show_number), self@, out@),
        decreases self,
    {
        match self {
            Exp::Atom(a) => a.render(show_number),
            Exp::List(l) => {
                proof {
                    lemma_list_view(*l);
                }
                l.render(show_number)
            },
            Exp::Proc(_) => "proc".to_owned(),
        }
    }
}

impl ParsingError {
    /// The text of this error: the same for both kinds.
    pub fn render(&self) -> (out: String)
        ensures
            out@ == "ParsingError"@,
    {
        "ParsingError".to_owned()
    }
}

} // verus!
