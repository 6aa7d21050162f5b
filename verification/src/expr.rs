//! The expression tree and its mathematical model.
use vstd::prelude::*;

verus! {

/// A built-in arithmetic procedure.
#[derive(Clone, Copy, Debug, PartialEq, Eq, Structural)]
pub enum Prim {
    Add,
    Mul,
    Div,
}

/// A leaf of the tree.
#[derive(Debug, PartialEq)]
pub enum Atom {
    /// The bit pattern of a binary64 number.
    Number(u64),
    Symbol(String),
}

/// An ordered sequence of owned children.
#[derive(Debug, PartialEq)]
pub struct List(pub Vec<Exp>);

/// The universal tree and value type.
#[derive(Debug, PartialEq)]
pub enum Exp {
    Atom(Atom),
    List(List),
    Proc(Prim),
}

/// The model of an expression: what contracts speak of.
pub enum ExpView {
    Number(u64),
    Symbol(Seq<char>),
    List(Seq<ExpView>),
    Proc(Prim),
}

impl Atom {
    pub open spec fn model(&self) -> ExpView {
        match self {
            Atom::Number(n) => ExpView::Number(*n),
            Atom::Symbol(s) => ExpView::Symbol(s@),
        }
    }
}

impl View for Atom {
    type V = ExpView;

    open spec fn view(&self) -> ExpView {
        self.model()
    }
}

impl Exp {
    /// The model of this expression.
    pub open spec fn model(&self) -> ExpView
        decreases self,
    {
        match self {
            Exp::Atom(a) => a.model(),
            Exp::List(l) => ExpView::List(
                Seq::new(
                    l.0@.len(),
                    |i: int|
                        if 0 <= i < l.0@.len() {
                            l.0@[i].model()
                        } else {
                            ExpView::List(Seq::empty())
                        },
                ),
            ),
            Exp::Proc(p) => ExpView::Proc(*p),
        }
    }
}

impl View for Exp {
    type V = ExpView;

    open spec fn view(&self) -> ExpView {
        self.model()
    }
}

impl View for List {
    type V = Seq<ExpView>;

    open spec fn view(&self) -> Seq<ExpView> {
        Exp::List(*self)@->List_0
    }
}

impl Clone for Atom {
    fn clone(&self) -> (r: Self)
        ensures
            r@ == self@,
    {
        match self {
            Atom::Number(n) => Atom::Number(*n),
            Atom::Symbol(s) => Atom::Symbol(s.clone()),
        }
    }
}

impl Clone for List {
    fn clone(&self) -> (r: Self)
        ensures
            r@ == self@,
        decreases self,
    {
        let mut children: Vec<Exp> = Vec::new();
        let mut i: usize = 0;
        while i < self.0.len()
            invariant
                i <= self.0@.len(),
                children@.len() == i,
                forall|j: int| 0 <= j < i ==> children@[j]@ == self.0@[j]@,
            decreases self.0@.len() - i,
        {
            let child = self.0[i].clone();
            children.push(child);
            i += 1;
        }
        let r = List(children);
        proof {
            lemma_list_view(r);
            lemma_list_view(*self);
            assert(views(r.0@) =~= views(self.0@));
        }
        r
    }
}

impl Clone for Exp {
    fn clone(&self) -> (r: Self)
        ensures
            r@ == self@,
        decreases self,
    {
        match self {
            Exp::Atom(a) => Exp::Atom(a.clone()),
            Exp::List(l) => {
                let copy = l.clone();
                proof {
                    lemma_list_view(copy);
                    lemma_list_view(*l);
                }
                Exp::List(copy)
            },
            Exp::Proc(p) => Exp::Proc(*p),
        }
    }
}

/// The models of a sequence of expressions.
pub open spec fn views(v: Seq<Exp>) -> Seq<ExpView> {
    Seq::new(v.len(), |i: int| v[i]@)
}

/// The model of a list holds the models of its children, in order.
pub proof fn lemma_list_view(l: List)
    ensures
        l@ == views(l.0@),
        Exp::List(l)@ == ExpView::List(views(l.0@)),
{
    let children = Exp::List(l).model()->List_0;
    assert(children.len() == l.0@.len());
    assert forall|i: int| 0 <= i < children.len() implies children[i] == views(l.0@)[i] by {
        assert(children[i] == l.0@[i].model());
    }
    assert(children =~= views(l.0@));
}

} // verus!
