//! Recursive descent over a queue of tokens.
use crate::expr::{lemma_list_view, views, Atom, Exp, ExpView, List};
use crate::token::{tokenize, tokens_of};
use std::collections::VecDeque;
use vstd::prelude::*;
use vstd::string::*;

verus! {

/// Why a queue of tokens is no expression.
#[derive(Clone, Copy, Debug, PartialEq, Eq, Structural)]
pub enum ParsingError {
    /// Kept for callers that tell errors apart; the parser never returns it.
    SyntaxError,
    /// The queue ran out before an expression was complete, or a closing
    /// parenthesis stood where an expression had to begin.
    UnexpectedEOF,
}

/// A token after it has been told apart.
#[derive(Debug, PartialEq)]
pub enum Token {
    Open,
    Close,
    Atom(Atom),
}

/// The model of a token.
pub enum TokenView {
    Open,
    Close,
    Atom(ExpView),
}

impl View for Token {
    type V = TokenView;

    open spec fn view(&self) -> TokenView {
        match self {
            Token::Open => TokenView::Open,
            Token::Close => TokenView::Close,
            Token::Atom(a) => TokenView::Atom(a@),
        }
    }
}

/// The models of a queue of tokens.
pub open spec fn token_views(q: Seq<Token>) -> Seq<TokenView> {
    Seq::new(q.len(), |i: int| q[i]@)
}

/// The atom that a token's text stands for, given what reading it as a
/// number gave: the number where there is one, else the text as a symbol.
pub open spec fn atom_of(text: Seq<char>, number: Option<u64>) -> ExpView {
    match number {
        Some(n) => ExpView::Number(n),
        None => ExpView::Symbol(text),
    }
}

/// What one text becomes as a token.  A parenthesis is read as itself;
/// `number` is looked at for every other text.
pub open spec fn token_of(text: Seq<char>, number: Option<u64>) -> TokenView {
    if text == seq!['('] {
        TokenView::Open
    } else if text == seq![')'] {
        TokenView::Close
    } else {
        TokenView::Atom(atom_of(text, number))
    }
}

/// The numbers that `f` reads, as a relation: whether `f`, called with a
/// string of the characters `text`, may return `number`.
pub open spec fn reads_of<F: Fn(&String) -> Option<u64>>(f: &F) -> spec_fn(
    Seq<char>,
    Option<u64>,
) -> bool {
    |text: Seq<char>, number: Option<u64>|
        exists|s: String| s@ == text && #[trigger] call_ensures(f, (&s,), number)
}

/// Whether reading `text` as a number may give `number`.
pub open spec fn reads(
    read_number: spec_fn(Seq<char>, Option<u64>) -> bool,
    text: Seq<char>,
    number: Option<u64>,
) -> bool {
    read_number(text, number)
}

/// Whether `token` is what `text` may become when `read_number` relates
/// texts to the numbers read from them.
pub open spec fn tells_apart(
    read_number: spec_fn(Seq<char>, Option<u64>) -> bool,
    text: Seq<char>,
    token: TokenView,
) -> bool {
    if text == seq!['('] {
        token == TokenView::Open
    } else if text == seq![')'] {
        token == TokenView::Close
    } else {
        exists|number: Option<u64>| #[trigger]
            reads(read_number, text, number) && token == token_of(text, number)
    }
}

/// The result of reading one expression from the front of `ts`, and the
/// tokens that are left.
pub open spec fn parse_exp(ts: Seq<TokenView>) -> (Result<ExpView, ParsingError>, Seq<TokenView>)
    decreases ts.len(), 0nat,
{
    if ts.len() == 0 {
        (Err(ParsingError::UnexpectedEOF), ts)
    } else {
        match ts[0] {
            TokenView::Open => parse_items(ts.drop_first(), Seq::empty()),
            TokenView::Close => (Err(ParsingError::UnexpectedEOF), ts.drop_first()),
            TokenView::Atom(a) => (Ok(a), ts.drop_first()),
        }
    }
}

/// The result of reading the rest of a list whose children so far are
/// `children`: expressions up to the closing parenthesis, which is taken too.
pub open spec fn parse_items(ts: Seq<TokenView>, children: Seq<ExpView>) -> (
    Result<ExpView, ParsingError>,
    Seq<TokenView>,
)
    decreases ts.len(), 1nat,
{
    if ts.len() == 0 {
        (Err(ParsingError::UnexpectedEOF), ts)
    } else if ts[0] == TokenView::Close {
        (Ok(ExpView::List(children)), ts.drop_first())
    } else {
        let (child, rest) = parse_exp(ts);
        match child {
            Ok(c) if rest.len() < ts.len() => parse_items(rest, children.push(c)),
            Ok(_) => (Err(ParsingError::UnexpectedEOF), rest),
            Err(e) => (Err(e), rest),
        }
    }
}

/// The model of a parser's result.
pub open spec fn result_view(r: Result<Exp, ParsingError>) -> Result<ExpView, ParsingError> {
    match r {
        Ok(e) => Ok(e@),
        Err(e) => Err(e),
    }
}

/// Whether `rest` is what is left of `ts` when tokens are taken from its
/// front.
pub open spec fn is_rest_of(rest: Seq<TokenView>, ts: Seq<TokenView>) -> bool {
    rest.len() <= ts.len() && rest == ts.subrange(ts.len() - rest.len(), ts.len() as int)
}

/// Reading takes tokens from the front only, and an expression takes at
/// least one.
pub proof fn lemma_parse_consumes(ts: Seq<TokenView>, children: Seq<ExpView>)
    ensures
        is_rest_of(parse_exp(ts).1, ts),
        parse_exp(ts).0 is Ok ==> parse_exp(ts).1.len() < ts.len(),
        is_rest_of(parse_items(ts, children).1, ts),
        parse_items(ts, children).0 is Ok ==> parse_items(ts, children).1.len() < ts.len(),
    decreases ts.len(),
{
    if ts.len() > 0 {
        let tail = ts.drop_first();
        lemma_parse_consumes(tail, Seq::empty());
        let inner = parse_items(tail, Seq::empty()).1;
        assert(is_rest_of(inner, ts)) by {
            assert(inner =~= ts.subrange(ts.len() - inner.len(), ts.len() as int));
        }
        assert(is_rest_of(tail, ts));
        assert(is_rest_of(parse_exp(ts).1, ts));
        if ts[0] != TokenView::Close {
            let (child, rest) = parse_exp(ts);
            if let Ok(c) = child {
                lemma_parse_consumes(rest, children.push(c));
                let last = parse_items(rest, children.push(c)).1;
                assert(is_rest_of(last, ts)) by {
                    assert(last =~= ts.subrange(ts.len() - last.len(), ts.len() as int));
                }
            }
        }
    } else {
        assert(ts =~= ts.subrange(0, 0));
    }
}

/// Makes the atom that a token's text stands for, given what reading the
/// text as a number gave.
pub fn to_atom(token: String, number: Option<u64>) -> (a: Atom)
    ensures
        a@ == atom_of(token@, number),
{
    match number {
        Some(n) => Atom::Number(n),
        None => Atom::Symbol(token),
    }
}

/// Whether `text` is the one character `c`.
fn is_char(text: &String, c: char) -> (r: bool)
    ensures
        r == (text@ == seq![c]),
{
    let s = text.as_str();
    if s.unicode_len() == 1 {
        let r = s.get_char(0) == c;
        assert(r ==> text@ =~= seq![c]);
        r
    } else {
        false
    }
}

/// Tells the texts of a queue apart, in order.  `read_number` is asked about
/// every text that is no parenthesis, once, from front to back.
pub fn classify<F: Fn(&String) -> Option<u64>>(texts: VecDeque<String>, read_number: &F) -> (tokens:
    VecDeque<Token>)
    requires
        forall|s: &String| call_requires(read_number, (s,)),
    ensures
        tokens@.len() == texts@.len(),
        forall|i: int|
            0 <= i < texts@.len() ==> tells_apart(
                reads_of(read_number),
                (#[trigger] texts@[i])@,
                tokens@[i]@,
            ),
{
    let mut texts = texts;
    let ghost all = texts@;
    let mut tokens: VecDeque<Token> = VecDeque::new();
    while texts.len() > 0
        invariant
            forall|s: &String| call_requires(read_number, (s,)),
            tokens@.len() + texts@.len() == all.len(),
            texts@ == all.subrange(tokens@.len() as int, all.len() as int),
            forall|i: int|
                0 <= i < tokens@.len() ==> tells_apart(
                    reads_of(read_number),
                    (#[trigger] all[i])@,
                    tokens@[i]@,
                ),
        decreases texts@.len(),
    {
        let ghost done = tokens@;
        let text = texts.pop_front().unwrap();
        assert(text == all[done.len() as int]);
        let token = if is_char(&text, '(') {
            Token::Open
        } else if is_char(&text, ')') {
            Token::Close
        } else {
            let number = read_number(&text);
            proof {
                assert(call_ensures(read_number, (&text,), number));
                assert(reads(reads_of(read_number), text@, number));
                assert(token_of(text@, number) == TokenView::Atom(atom_of(text@, number)));
            }
            Token::Atom(to_atom(text, number))
        };
        tokens.push_back(token);
        assert(texts@ =~= all.subrange(tokens@.len() as int, all.len() as int));
    }
    tokens
}

/// Reads one expression from the front of the queue and takes its tokens
/// out of the queue.  A closing parenthesis where an expression has to begin
/// is reported as the end of the input is.  The call stack grows with the
/// nesting of the lists read.
pub fn read_from_tokens(tokens: &mut VecDeque<Token>) -> (r: Result<Exp, ParsingError>)
    ensures
        (result_view(r), token_views(final(tokens)@)) == parse_exp(token_views(old(tokens)@)),
        final(tokens)@.len() <= old(tokens)@.len(),
        r is Ok ==> final(tokens)@.len() < old(tokens)@.len(),
    decreases old(tokens)@.len(),
{
    let ghost start = token_views(tokens@);
    let first = match tokens.pop_front() {
        None => {
            assert(token_views(tokens@) =~= start);
            return Err(ParsingError::UnexpectedEOF);
        },
        Some(t) => t,
    };
    assert(token_views(tokens@) =~= start.drop_first());
    match first {
        Token::Open => {
            let mut children: Vec<Exp> = Vec::new();
            proof {
                lemma_list_view(List(children));
                assert(List(children)@ =~= Seq::empty());
            }
            loop
                invariant
                    start == token_views(old(tokens)@),
                    tokens@.len() < old(tokens)@.len(),
                    parse_items(token_views(tokens@), List(children)@) == parse_exp(start),
                decreases tokens@.len(),
            {
                let ghost here = token_views(tokens@);
                let ghost so_far = List(children)@;
                if tokens.len() == 0 {
                    return Err(ParsingError::UnexpectedEOF);
                }
                if let Token::Close = tokens[0] {
                    tokens.pop_front();
                    assert(token_views(tokens@) =~= here.drop_first());
                    let list = Exp::List(List(children));
                    return Ok(list);
                }
                assert(here[0] != TokenView::Close);
                match read_from_tokens(tokens) {
                    Ok(child) => {
                        proof {
                            lemma_list_view(List(children));
                        }
                        let ghost before = children@;
                        children.push(child);
                        proof {
                            lemma_list_view(List(children));
                            assert(views(children@) =~= views(before).push(child@));
                        }
                    },
                    Err(e) => {
                        return Err(e);
                    },
                }
            }
        },
        Token::Close => Err(ParsingError::UnexpectedEOF),
        Token::Atom(a) => Ok(Exp::Atom(a)),
    }
}

/// Whether `tokens` is what the tokens of `source` may become when
/// `read_number` relates texts to the numbers read from them.
pub open spec fn lexes_to(
    read_number: spec_fn(Seq<char>, Option<u64>) -> bool,
    source: Seq<char>,
    tokens: Seq<TokenView>,
) -> bool {
    let words = tokens_of(source);
    &&& tokens.len() == words.len()
    &&& forall|i: int|
        0 <= i < words.len() ==> tells_apart(read_number, words[i], #[trigger] tokens[i])
}

/// Reads the first expression of `input`.  Tokens after it are left unread
/// and are not reported.
pub fn parse<F: Fn(&String) -> Option<u64>>(input: String, read_number: &F) -> (r: Result<
    Exp,
    ParsingError,
>)
    requires
        forall|s: &String| call_requires(read_number, (s,)),
    ensures
        exists|tokens: Seq<TokenView>|
            lexes_to(reads_of(read_number), input@, tokens) && result_view(r)
                == #[trigger] parse_exp(tokens).0,
{
    let words = tokenize(input);
    let mut tokens = classify(words, read_number);
    let ghost views = token_views(tokens@);
    proof {
        let texts = crate::token::texts(words@);
        assert forall|i: int| 0 <= i < texts.len() implies tells_apart(
            reads_of(read_number),
            texts[i],
            #[trigger] views[i],
        ) by {
            assert(texts[i] == words@[i]@);
        }
        assert(lexes_to(reads_of(read_number), input@, views));
    }
    let r = read_from_tokens(&mut tokens);
    assert(result_view(r) == parse_exp(views).0);
    r
}

} // verus!
