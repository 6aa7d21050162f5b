//! The nesting shape of token queues and of trees, and what parsing and
//! rendering do to it.
//!
//! A shape is a string of parentheses: what is left of a text, a queue of
//! tokens or a rendered tree when everything else is taken away.
use crate::expr::ExpView;
use crate::parser::{
    lemma_parse_consumes, lexes_to, parse_exp, parse_items, tells_apart, ParsingError, TokenView,
};
use crate::render::{joined, quoted, renders};
use crate::token::{
    is_paren_word, lemma_first_token, lemma_last_token, lemma_parens_add,
    lemma_parens_none, lemma_tokens_keep_parens, paren_words, parens, tokens_of,
};
use vstd::prelude::*;

verus! {

/// The parenthesis that a token stands for, if it stands for one.
pub open spec fn delimiter(t: TokenView) -> Seq<char> {
    match t {
        TokenView::Open => seq!['('],
        TokenView::Close => seq![')'],
        TokenView::Atom(_) => Seq::empty(),
    }
}

/// The shape of a queue of tokens: its parentheses, in order.
pub open spec fn delimiters(ts: Seq<TokenView>) -> Seq<char>
    decreases ts.len(),
{
    if ts.len() == 0 {
        Seq::empty()
    } else {
        delimiter(ts[0]) + delimiters(ts.drop_first())
    }
}

/// The shape of a tree: a pair of parentheses for every list, around the
/// shapes of its children.  An atom and a procedure have the empty shape.
pub open spec fn shape(e: ExpView) -> Seq<char>
    decreases e,
{
    match e {
        ExpView::List(items) => seq!['('] + shapes(items) + seq![')'],
        _ => Seq::empty(),
    }
}

/// The shapes of `items`, one after the other.
pub open spec fn shapes(items: Seq<ExpView>) -> Seq<char>
    decreases items,
{
    if items.len() == 0 {
        Seq::empty()
    } else {
        shapes(items.drop_last()) + shape(items.last())
    }
}

/// Whether a token is no atom or is an atom without a shape.
pub open spec fn is_leaf(t: TokenView) -> bool {
    t is Atom ==> shape(t->Atom_0).len() == 0
}

/// Whether every atom among the tokens is a leaf.
pub open spec fn leaves(ts: Seq<TokenView>) -> bool {
    forall|i: int| 0 <= i < ts.len() ==> is_leaf(#[trigger] ts[i])
}

/// The shape of a queue with one more token at its end.
pub proof fn lemma_delimiters_push(ts: Seq<TokenView>, t: TokenView)
    ensures
        delimiters(ts.push(t)) == delimiters(ts) + delimiter(t),
    decreases ts.len(),
{
    if ts.len() == 0 {
        let none = Seq::<TokenView>::empty();
        assert(ts.push(t).drop_first() =~= none);
        assert(delimiters(none) =~= Seq::empty());
        assert(delimiters(ts.push(t)) =~= delimiters(ts) + delimiter(t));
    } else {
        lemma_delimiters_push(ts.drop_first(), t);
        assert(ts.push(t).drop_first() =~= ts.drop_first().push(t));
        assert(delimiters(ts.push(t)) =~= delimiters(ts) + delimiter(t));
    }
}

/// The shapes of a sequence of trees begin with the shape of the first.
pub proof fn lemma_shapes_first(items: Seq<ExpView>)
    requires
        items.len() > 0,
    ensures
        shapes(items) == shape(items[0]) + shapes(items.drop_first()),
    decreases items.len(),
{
    if items.len() == 1 {
        assert(items.drop_last() =~= Seq::empty());
        assert(items.drop_first() =~= Seq::empty());
        assert(shapes(items) =~= shape(items[0]) + shapes(items.drop_first()));
    } else {
        lemma_shapes_first(items.drop_last());
        assert(items.drop_last().drop_first() =~= items.drop_first().drop_last());
        assert(shapes(items) =~= shape(items[0]) + shapes(items.drop_first()));
    }
}

/// A shape is empty or begins with an opening parenthesis.
pub proof fn lemma_shapes_begin(items: Seq<ExpView>)
    ensures
        shapes(items).len() == 0 || shapes(items)[0] == '(',
    decreases items.len(),
{
    if items.len() > 0 {
        lemma_shapes_first(items);
        lemma_shapes_begin(items.drop_first());
    }
}

/// What parsing consumes has the shape of what it returns: the shape of the
/// queue is the shape of the tree, then the shape of the tokens left.
pub proof fn lemma_parse_shape(ts: Seq<TokenView>)
    requires
        leaves(ts),
        parse_exp(ts).0 is Ok,
    ensures
        delimiters(ts) == shape(parse_exp(ts).0->Ok_0) + delimiters(parse_exp(ts).1),
        leaves(parse_exp(ts).1),
    decreases ts.len(), 0nat,
{
    let rest = ts.drop_first();
    assert(leaves(rest)) by {
        assert forall|i: int| 0 <= i < rest.len() implies is_leaf(#[trigger] rest[i]) by {
            assert(rest[i] == ts[i + 1]);
        }
    }
    match ts[0] {
        TokenView::Open => {
            lemma_parse_items_shape(rest, Seq::empty());
            let all = parse_exp(ts).0->Ok_0->List_0;
            assert(delimiters(ts) =~= shape(ExpView::List(all)) + delimiters(parse_exp(ts).1));
        },
        TokenView::Close => {},
        TokenView::Atom(a) => {
            assert(is_leaf(ts[0]));
            assert(delimiters(ts) =~= shape(a) + delimiters(rest));
        },
    }
}

/// The same for the rest of a list.
pub proof fn lemma_parse_items_shape(ts: Seq<TokenView>, children: Seq<ExpView>)
    requires
        leaves(ts),
        parse_items(ts, children).0 is Ok,
    ensures
        parse_items(ts, children).0->Ok_0 is List,
        shapes(children) + delimiters(ts) == shapes(parse_items(ts, children).0->Ok_0->List_0)
            + seq![')'] + delimiters(parse_items(ts, children).1),
        leaves(parse_items(ts, children).1),
    decreases ts.len(), 1nat,
{
    if ts[0] == TokenView::Close {
        let rest = ts.drop_first();
        assert(leaves(rest)) by {
            assert forall|i: int| 0 <= i < rest.len() implies is_leaf(#[trigger] rest[i]) by {
                assert(rest[i] == ts[i + 1]);
            }
        }
        assert(shapes(children) + delimiters(ts) =~= shapes(children) + seq![')'] + delimiters(
            rest,
        ));
    } else {
        let (child, rest) = parse_exp(ts);
        lemma_parse_consumes(ts, children);
        let c = child->Ok_0;
        lemma_parse_shape(ts);
        let next = children.push(c);
        lemma_parse_items_shape(rest, next);
        assert(next.drop_last() =~= children);
        let all = parse_items(ts, children).0->Ok_0->List_0;
        let left = parse_items(ts, children).1;
        assert(shapes(children) + delimiters(ts) =~= shapes(next) + delimiters(rest));
    }
}

/// A queue whose shape begins with the shape of a list is read as a list,
/// and the tokens left have the rest of the shape.
pub proof fn lemma_parse_balanced(e: ExpView, ts: Seq<TokenView>, tail: Seq<char>)
    requires
        e is List,
        ts.len() > 0,
        ts[0] == TokenView::Open,
        delimiters(ts) == shape(e) + tail,
    ensures
        parse_exp(ts).0 is Ok,
        delimiters(parse_exp(ts).1) == tail,
{
    let items = e->List_0;
    assert(delimiters(ts.drop_first()) =~= shapes(items) + seq![')'] + tail) by {
        assert(delimiters(ts).drop_first() =~= delimiters(ts.drop_first()));
        assert((shape(e) + tail).drop_first() =~= shapes(items) + seq![')'] + tail);
    }
    lemma_parse_items_balanced(items, ts.drop_first(), Seq::empty(), tail);
}

/// The same for the rest of a list: a queue whose shape begins with the
/// shapes of `items` and a closing parenthesis is read up to that
/// parenthesis.
pub proof fn lemma_parse_items_balanced(
    items: Seq<ExpView>,
    ts: Seq<TokenView>,
    children: Seq<ExpView>,
    tail: Seq<char>,
)
    requires
        delimiters(ts) == shapes(items) + seq![')'] + tail,
    ensures
        parse_items(ts, children).0 is Ok,
        delimiters(parse_items(ts, children).1) == tail,
    decreases items, ts.len(),
{
    broadcast use vstd::seq::axiom_seq_subrange_decreases;

    let d = delimiters(ts);
    assert(d.len() > 0);
    assert(ts.len() > 0);
    let rest = ts.drop_first();
    lemma_shapes_begin(items);
    match ts[0] {
        TokenView::Atom(a) => {
            assert(d =~= delimiters(rest));
            lemma_parse_items_balanced(items, rest, children.push(a), tail);
            assert(parse_exp(ts) == (Ok::<ExpView, ParsingError>(a), rest));
        },
        TokenView::Close => {
            assert(d[0] == ')');
            assert(shapes(items).len() == 0);
            assert(d.drop_first() =~= delimiters(rest));
            assert(d.drop_first() =~= tail);
        },
        TokenView::Open => {
            assert(d[0] == '(');
            assert(items.len() > 0);
            lemma_shapes_first(items);
            let others = items.drop_first();
            match items[0] {
                ExpView::List(inner) => {
                    let after = shapes(others) + seq![')'] + tail;
                    assert(delimiters(rest) =~= shapes(inner) + seq![')'] + after) by {
                        assert(d.drop_first() =~= delimiters(rest));
                        assert(d.drop_first() =~= shapes(inner) + seq![')'] + after);
                    }
                    lemma_parse_items_balanced(inner, rest, Seq::empty(), after);
                    let (child, left) = parse_exp(ts);
                    lemma_parse_consumes(ts, children);
                    lemma_parse_items_balanced(others, left, children.push(child->Ok_0), tail);
                    assert(parse_exp(ts) == parse_items(rest, Seq::empty()));
                },
                _ => {
                    assert(shapes(items) =~= shapes(others));
                    lemma_parse_items_balanced(others, ts, children, tail);
                },
            }
        },
    }
}

/// Whether `w` is the text of a single parenthesis.
proof fn lemma_paren_word(w: Seq<char>)
    ensures
        is_paren_word(w) <==> (w == seq!['('] || w == seq![')']),
{
    if is_paren_word(w) {
        if w[0] == '(' {
            assert(w =~= seq!['(']);
        } else {
            assert(w =~= seq![')']);
        }
    }
}

/// Telling words apart keeps their parentheses.
proof fn lemma_told_apart_shape(
    read_number: spec_fn(Seq<char>, Option<u64>) -> bool,
    words: Seq<Seq<char>>,
    tokens: Seq<TokenView>,
)
    requires
        tokens.len() == words.len(),
        forall|i: int|
            0 <= i < words.len() ==> tells_apart(read_number, words[i], #[trigger] tokens[i]),
    ensures
        delimiters(tokens) == paren_words(words),
        leaves(tokens),
    decreases words.len(),
{
    if words.len() > 0 {
        let n = words.len() - 1;
        let word = words[n];
        let token = tokens[n];
        assert forall|i: int| 0 <= i < n implies tells_apart(
            read_number,
            words.drop_last()[i],
            #[trigger] tokens.drop_last()[i],
        ) by {
            assert(tells_apart(read_number, words[i], tokens[i]));
        }
        lemma_told_apart_shape(read_number, words.drop_last(), tokens.drop_last());
        assert(tokens.drop_last().push(token) =~= tokens);
        lemma_delimiters_push(tokens.drop_last(), token);
        lemma_paren_word(word);
        assert(tells_apart(read_number, word, token));
        assert(delimiters(tokens) =~= paren_words(words));
        assert forall|i: int| 0 <= i < tokens.len() implies is_leaf(#[trigger] tokens[i]) by {
            if i < n {
                assert(tokens.drop_last()[i] == tokens[i]);
            } else {
                assert(tells_apart(read_number, words[i], tokens[i]));
            }
        }
    }
}

/// The tokens of a text have the shape of the text: its parentheses, in
/// order.  Every atom among them is a leaf.
pub proof fn lemma_lexed_shape(
    read_number: spec_fn(Seq<char>, Option<u64>) -> bool,
    source: Seq<char>,
    tokens: Seq<TokenView>,
)
    requires
        lexes_to(read_number, source, tokens),
    ensures
        delimiters(tokens) == parens(source),
        leaves(tokens),
{
    lemma_told_apart_shape(read_number, tokens_of(source), tokens);
    lemma_tokens_keep_parens(source);
}

/// A text that begins and ends with a parenthesis has tokens that begin
/// and end with it.
proof fn lemma_lexed_ends(
    read_number: spec_fn(Seq<char>, Option<u64>) -> bool,
    source: Seq<char>,
    tokens: Seq<TokenView>,
)
    requires
        lexes_to(read_number, source, tokens),
        source.len() > 0,
        source[0] == '(',
        source.last() == ')',
    ensures
        tokens.len() > 0,
        tokens[0] == TokenView::Open,
        tokens.last() == TokenView::Close,
{
    let words = tokens_of(source);
    lemma_first_token(source);
    lemma_last_token(source);
    let n = words.len() - 1;
    assert(tells_apart(read_number, words[0], tokens[0]));
    assert(tells_apart(read_number, words[n], tokens[n]));
    assert(seq![')'] != seq!['(']) by {
        assert(seq![')'][0] != seq!['('][0]);
    }
}

/// Whether every text that `show_number` gives to a number is free of
/// parentheses.
pub open spec fn plain_numbers(show_number: spec_fn(u64, Seq<char>) -> bool) -> bool {
    forall|n: u64, out: Seq<char>| #[trigger] show_number(n, out) ==> parens(out).len() == 0
}

/// Whether the quoted text of every symbol in `e` is free of parentheses.
pub open spec fn plain_symbols(e: ExpView) -> bool
    decreases e,
{
    match e {
        ExpView::Symbol(s) => parens(quoted(s)).len() == 0,
        ExpView::List(items) => forall|i: int|
            0 <= i < items.len() ==> plain_symbols(#[trigger] items[i]),
        _ => true,
    }
}

/// A rendering has the shape of the tree, where the texts of the atoms
/// hold no parentheses.
pub proof fn lemma_render_shape(
    show_number: spec_fn(u64, Seq<char>) -> bool,
    e: ExpView,
    out: Seq<char>,
)
    requires
        renders(show_number, e, out),
        plain_numbers(show_number),
        plain_symbols(e),
    ensures
        parens(out) == shape(e),
    decreases e, 0nat,
{
    match e {
        ExpView::Number(n) => {
            assert(show_number(n, out));
            assert(parens(out) =~= shape(e));
        },
        ExpView::Symbol(s) => {
            assert(parens(out) =~= shape(e));
        },
        ExpView::Proc(_) => {
            reveal_strlit("proc");
            lemma_parens_none(out);
            assert(parens(out) =~= shape(e));
        },
        ExpView::List(items) => {
            let parts = choose|parts: Seq<Seq<char>>|
                {
                    &&& (#[trigger] parts.len()) == items.len()
                    &&& forall|i: int|
                        0 <= i < items.len() ==> renders(
                            show_number,
                            #[trigger] items[i],
                            parts[i],
                        )
                    &&& out == seq!['('] + joined(parts) + seq![')']
                };
            lemma_joined_shape(show_number, items, parts, items.len());
            assert(parts.take(parts.len() as int) =~= parts);
            assert(items.take(items.len() as int) =~= items);
            lemma_parens_add(seq!['('] + joined(parts), seq![')']);
            lemma_parens_add(seq!['('], joined(parts));
            let none = Seq::<char>::empty();
            assert(parens(none) =~= none);
            assert(parens(seq!['(']) =~= seq!['(']) by {
                assert(seq!['('].drop_last() =~= none);
            }
            assert(parens(seq![')']) =~= seq![')']) by {
                assert(seq![')'].drop_last() =~= none);
            }
        },
    }
}

/// The same for the first `n` children of a list, joined.
proof fn lemma_joined_shape(
    show_number: spec_fn(u64, Seq<char>) -> bool,
    items: Seq<ExpView>,
    parts: Seq<Seq<char>>,
    n: nat,
)
    requires
        n <= items.len(),
        parts.len() == items.len(),
        forall|i: int| 0 <= i < items.len() ==> renders(show_number, #[trigger] items[i], parts[i]),
        plain_numbers(show_number),
        forall|i: int| 0 <= i < items.len() ==> plain_symbols(#[trigger] items[i]),
    ensures
        parens(joined(parts.take(n as int))) == shapes(items.take(n as int)),
    decreases items, n,
{
    let some = parts.take(n as int);
    let trees = items.take(n as int);
    if n == 0 {
        assert(parens(joined(some)) =~= shapes(trees));
    } else {
        let k = n - 1;
        lemma_joined_shape(show_number, items, parts, k as nat);
        lemma_render_shape(show_number, items[k], parts[k]);
        assert(some.drop_last() =~= parts.take(k));
        assert(trees.drop_last() =~= items.take(k));
        assert(some.last() == parts[k]);
        assert(trees.last() == items[k]);
        if n == 1 {
            assert(parens(joined(parts.take(k))).len() == 0);
            assert(parens(joined(some)) =~= shapes(trees));
        } else {
            let comma = seq![',', ' '];
            lemma_parens_none(comma);
            lemma_parens_add(joined(parts.take(k)) + comma, parts[k]);
            lemma_parens_add(joined(parts.take(k)), comma);
            assert(parens(joined(some)) =~= shapes(trees));
        }
    }
}

/// Reading the rendering of a list gives a list of the same shape.
///
/// Let `out` be a rendering of the list `e` in which the texts of numbers
/// and symbols hold no parentheses.  However the numbers among the tokens
/// of `out` are read, parsing those tokens succeeds, uses all of them, and
/// gives a tree whose parentheses nest as those of `e` do.
pub proof fn lemma_render_then_parse(
    read_number: spec_fn(Seq<char>, Option<u64>) -> bool,
    show_number: spec_fn(u64, Seq<char>) -> bool,
    e: ExpView,
    out: Seq<char>,
    tokens: Seq<TokenView>,
)
    requires
        e is List,
        renders(show_number, e, out),
        plain_numbers(show_number),
        plain_symbols(e),
        lexes_to(read_number, out, tokens),
    ensures
        parse_exp(tokens).0 is Ok,
        shape(parse_exp(tokens).0->Ok_0) == shape(e),
        parse_exp(tokens).1.len() == 0,
{
    lemma_render_shape(show_number, e, out);
    lemma_lexed_shape(read_number, out, tokens);
    assert(out.len() > 0 && out[0] == '(' && out.last() == ')') by {
        let parts = choose|parts: Seq<Seq<char>>|
            {
                &&& (#[trigger] parts.len()) == e->List_0.len()
                &&& forall|i: int|
                    0 <= i < e->List_0.len() ==> renders(
                        show_number,
                        #[trigger] e->List_0[i],
                        parts[i],
                    )
                &&& out == seq!['('] + joined(parts) + seq![')']
            };
    }
    lemma_lexed_ends(read_number, out, tokens);
    let none = Seq::<char>::empty();
    assert(shape(e) + none =~= shape(e));
    lemma_parse_balanced(e, tokens, none);
    lemma_parse_shape(tokens);
    let (tree, rest) = parse_exp(tokens);
    assert(shape(tree->Ok_0) =~= shape(e));
    lemma_parse_consumes(tokens, Seq::empty());
    if rest.len() > 0 {
        assert(rest.last() == tokens.last());
        assert(rest.drop_last().push(TokenView::Close) =~= rest);
        lemma_delimiters_push(rest.drop_last(), TokenView::Close);
    }
}

} // verus!
