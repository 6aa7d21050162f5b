//! Splitting source text into tokens.
//!
//! Every parenthesis is set apart by spaces, then the text is cut at runs of
//! whitespace.  What remains are the tokens, in order.
use std::collections::VecDeque;
use vstd::prelude::*;
use vstd::string::*;

verus! {

/// `String::push` appends one character to the end of the string.
pub assume_specification[ String::push ](s: &mut String, c: char)
    ensures
        final(s)@ == old(s)@.push(c),
;

/// Whether `c` has the Unicode property White_Space.
pub open spec fn is_space(c: char) -> bool {
    let n = c as u32;
    ||| 0x09 <= n <= 0x0d
    ||| n == 0x20
    ||| n == 0x85
    ||| n == 0xa0
    ||| n == 0x1680
    ||| 0x2000 <= n <= 0x200a
    ||| n == 0x2028
    ||| n == 0x2029
    ||| n == 0x202f
    ||| n == 0x205f
    ||| n == 0x3000
}

/// Whether `c` is one of the two delimiters.
pub open spec fn is_paren(c: char) -> bool {
    c == '(' || c == ')'
}

/// What one character of the source becomes before the text is cut: a
/// parenthesis gets a space on either side, anything else stays as it is.
pub open spec fn pad(c: char) -> Seq<char> {
    if is_paren(c) {
        seq![' ', c, ' ']
    } else {
        seq![c]
    }
}

/// The source text with every parenthesis set apart by spaces.
pub open spec fn spaced(s: Seq<char>) -> Seq<char>
    decreases s.len(),
{
    if s.len() == 0 {
        Seq::empty()
    } else {
        spaced(s.drop_last()) + pad(s.last())
    }
}

/// The maximal runs of characters of `s` that hold no whitespace, in order.
pub open spec fn split(s: Seq<char>) -> Seq<Seq<char>>
    decreases s.len(),
{
    if s.len() == 0 {
        Seq::empty()
    } else {
        let before = split(s.drop_last());
        let c = s.last();
        if is_space(c) {
            before
        } else if s.len() >= 2 && !is_space(s[s.len() - 2]) {
            before.drop_last().push(before.last().push(c))
        } else {
            before.push(seq![c])
        }
    }
}

/// The tokens of a source text.
pub open spec fn tokens_of(s: Seq<char>) -> Seq<Seq<char>> {
    split(spaced(s))
}

/// The texts of a queue of strings.
pub open spec fn texts(q: Seq<String>) -> Seq<Seq<char>> {
    Seq::new(q.len(), |i: int| q[i]@)
}

/// Whether the last character of `s` is no whitespace, so that a token is
/// still open at the end of `s`.
pub open spec fn open_at_end(s: Seq<char>) -> bool {
    s.len() > 0 && !is_space(s.last())
}

proof fn lemma_split_push(s: Seq<char>, c: char)
    ensures
        is_space(c) ==> split(s.push(c)) == split(s),
        !is_space(c) && !open_at_end(s) ==> split(s.push(c)) == split(s).push(seq![c]),
        !is_space(c) && open_at_end(s) ==> split(s.push(c)) == split(s).drop_last().push(
            split(s).last().push(c),
        ),
{
    assert(s.push(c).drop_last() =~= s);
}

proof fn lemma_spaced_push(s: Seq<char>, c: char)
    ensures
        spaced(s.push(c)) == spaced(s) + pad(c),
{
    assert(s.push(c).drop_last() =~= s);
}

/// Setting a parenthesis apart closes the token before it and makes the
/// parenthesis a token of its own.
proof fn lemma_split_paren(s: Seq<char>, c: char)
    requires
        is_paren(c),
    ensures
        split(s + pad(c)) == split(s).push(seq![c]),
        !open_at_end(s + pad(c)),
{
    let a = s.push(' ');
    let b = a.push(c);
    let d = b.push(' ');
    assert(d =~= s + pad(c));
    lemma_split_push(s, ' ');
    lemma_split_push(a, c);
    lemma_split_push(b, ' ');
}

/// The parentheses of a text, in order.
pub open spec fn parens(s: Seq<char>) -> Seq<char>
    decreases s.len(),
{
    if s.len() == 0 {
        Seq::empty()
    } else if is_paren(s.last()) {
        parens(s.drop_last()).push(s.last())
    } else {
        parens(s.drop_last())
    }
}

/// Whether a word is a parenthesis and nothing else.
pub open spec fn is_paren_word(w: Seq<char>) -> bool {
    w.len() == 1 && is_paren(w[0])
}

/// Whether a word is a token as the tokenizer makes them: not empty, free
/// of whitespace, and either one parenthesis or free of parentheses.
pub open spec fn is_word(w: Seq<char>) -> bool {
    &&& w.len() > 0
    &&& forall|i: int| 0 <= i < w.len() ==> !is_space(#[trigger] w[i])
    &&& is_paren_word(w) || forall|i: int| 0 <= i < w.len() ==> !is_paren(#[trigger] w[i])
}

/// The parentheses among the words `ws`, in order: of each word that is a
/// parenthesis and nothing else, its character.
pub open spec fn paren_words(ws: Seq<Seq<char>>) -> Seq<char>
    decreases ws.len(),
{
    if ws.len() == 0 {
        Seq::empty()
    } else if is_paren_word(ws.last()) {
        paren_words(ws.drop_last()).push(ws.last()[0])
    } else {
        paren_words(ws.drop_last())
    }
}

/// What holds of the tokens of every text, as far as it has been read:
/// each is a word, the parentheses among them are those of the text, and a
/// token still open at the end holds no parenthesis.
spec fn tokens_inv(s: Seq<char>) -> bool {
    let ws = tokens_of(s);
    &&& forall|i: int| 0 <= i < ws.len() ==> is_word(#[trigger] ws[i])
    &&& paren_words(ws) == parens(s)
    &&& open_at_end(spaced(s)) ==> ws.len() > 0 && !is_paren_word(ws.last())
}

proof fn lemma_tokens_inv(s: Seq<char>)
    ensures
        tokens_inv(s),
    decreases s.len(),
{
    if s.len() > 0 {
        let head = s.drop_last();
        let c = s.last();
        let sp = spaced(head);
        let ws = split(sp);
        lemma_tokens_inv(head);
        assert(head.push(c) =~= s);
        lemma_spaced_push(head, c);
        if is_paren(c) {
            lemma_split_paren(sp, c);
            assert(ws.push(seq![c]).drop_last() =~= ws);
        } else {
            assert(sp + pad(c) =~= sp.push(c));
            lemma_split_push(sp, c);
            if is_space(c) {
            } else if open_at_end(sp) {
                let word = ws.last().push(c);
                let after = ws.drop_last().push(word);
                assert(after.drop_last() =~= ws.drop_last());
                assert(!is_paren_word(word));
                assert(is_word(ws.last()));
                assert(is_word(word)) by {
                    assert forall|i: int| 0 <= i < word.len() implies !is_paren(
                        #[trigger] word[i],
                    ) by {
                        if i < ws.last().len() {
                            assert(word[i] == ws.last()[i]);
                        }
                    }
                    assert forall|i: int| 0 <= i < word.len() implies !is_space(
                        #[trigger] word[i],
                    ) by {
                        if i < ws.last().len() {
                            assert(word[i] == ws.last()[i]);
                        }
                    }
                }
            } else {
                assert(ws.push(seq![c]).drop_last() =~= ws);
                assert(is_word(seq![c]));
            }
        }
    }
}

/// Every token is a word: not empty, free of whitespace, and either one
/// parenthesis or free of parentheses.
pub proof fn lemma_tokens_are_words(s: Seq<char>)
    ensures
        forall|i: int| 0 <= i < tokens_of(s).len() ==> is_word(#[trigger] tokens_of(s)[i]),
{
    lemma_tokens_inv(s);
}

/// Every parenthesis of a text is a token of its own: the parentheses among
/// the tokens are those of the text, in the same order.
pub proof fn lemma_tokens_keep_parens(s: Seq<char>)
    ensures
        paren_words(tokens_of(s)) == parens(s),
{
    lemma_tokens_inv(s);
}

/// The parentheses of two texts, one after the other.
pub proof fn lemma_parens_add(a: Seq<char>, b: Seq<char>)
    ensures
        parens(a + b) == parens(a) + parens(b),
    decreases b.len(),
{
    if b.len() == 0 {
        assert(a + b =~= a);
        assert(parens(a + b) =~= parens(a) + parens(b));
    } else {
        lemma_parens_add(a, b.drop_last());
        assert((a + b).drop_last() =~= a + b.drop_last());
        assert(parens(a + b) =~= parens(a) + parens(b));
    }
}

/// A text without a parenthesis has none.
pub proof fn lemma_parens_none(s: Seq<char>)
    requires
        forall|i: int| 0 <= i < s.len() ==> !is_paren(#[trigger] s[i]),
    ensures
        parens(s).len() == 0,
    decreases s.len(),
{
    if s.len() > 0 {
        lemma_parens_none(s.drop_last());
    }
}

/// A text that begins with a parenthesis has it as its first token.
pub proof fn lemma_first_token(s: Seq<char>)
    requires
        s.len() > 0,
        is_paren(s[0]),
    ensures
        tokens_of(s).len() > 0,
        tokens_of(s)[0] == seq![s[0]],
    decreases s.len(),
{
    let head = s.drop_last();
    let c = s.last();
    let sp = spaced(head);
    let ws = split(sp);
    assert(head.push(c) =~= s);
    lemma_spaced_push(head, c);
    lemma_tokens_inv(head);
    if head.len() == 0 {
        lemma_split_paren(sp, c);
    } else {
        lemma_first_token(head);
        if is_paren(c) {
            lemma_split_paren(sp, c);
        } else {
            assert(sp + pad(c) =~= sp.push(c));
            lemma_split_push(sp, c);
            if !is_space(c) && open_at_end(sp) {
                assert(is_paren_word(ws[0]));
                assert(ws.len() >= 2);
            }
        }
    }
}

/// A text that ends with a parenthesis has it as its last token.
pub proof fn lemma_last_token(s: Seq<char>)
    requires
        s.len() > 0,
        is_paren(s.last()),
    ensures
        tokens_of(s).len() > 0,
        tokens_of(s).last() == seq![s.last()],
{
    let head = s.drop_last();
    assert(head.push(s.last()) =~= s);
    lemma_spaced_push(head, s.last());
    lemma_split_paren(spaced(head), s.last());
}

/// Whether `c` has the Unicode property White_Space.
pub fn is_whitespace(c: char) -> (r: bool)
    ensures
        r == is_space(c),
{
    let n: u32 = c as u32;
    (0x09 <= n && n <= 0x0d) || n == 0x20 || n == 0x85 || n == 0xa0 || n == 0x1680 || (0x2000 <= n
        && n <= 0x200a) || n == 0x2028 || n == 0x2029 || n == 0x202f || n == 0x205f || n == 0x3000
}

/// Cuts `input` into its tokens.
pub fn tokenize(input: String) -> (tokens: VecDeque<String>)
    ensures
        texts(tokens@) == tokens_of(input@),
{
    let mut tokens: VecDeque<String> = VecDeque::new();
    let mut current = String::new();
    for c in it: input.as_str().chars()
        invariant
            it.seq() == input@,
            current@.len() == 0 ==> texts(tokens@) == split(spaced(it.seq().take(it.index()))),
            current@.len() == 0 ==> !open_at_end(spaced(it.seq().take(it.index()))),
            current@.len() > 0 ==> texts(tokens@).push(current@) == split(
                spaced(it.seq().take(it.index())),
            ),
            current@.len() > 0 ==> open_at_end(spaced(it.seq().take(it.index()))),
    {
        let ghost read = it.seq().take(it.index());
        let ghost sp = spaced(read);
        proof {
            assert(it.seq().take(it.index() + 1) =~= read.push(c));
            lemma_spaced_push(read, c);
        }
        if c == '(' || c == ')' {
            if !current.as_str().is_empty() {
                tokens.push_back(current);
                current = String::new();
                assert(texts(tokens@) =~= split(sp));
            }
            let mut paren = String::new();
            paren.push(c);
            let ghost before = texts(tokens@);
            tokens.push_back(paren);
            proof {
                lemma_split_paren(sp, c);
                assert(texts(tokens@) =~= before.push(seq![c]));
            }
        } else if is_whitespace(c) {
            proof {
                assert(sp + pad(c) =~= sp.push(c));
                lemma_split_push(sp, c);
            }
            if !current.as_str().is_empty() {
                tokens.push_back(current);
                current = String::new();
                assert(texts(tokens@) =~= split(sp));
            }
        } else {
            let ghost word = current@;
            let ghost done = texts(tokens@);
            current.push(c);
            proof {
                assert(sp + pad(c) =~= sp.push(c));
                lemma_split_push(sp, c);
                if word.len() > 0 {
                    assert(done.push(word).drop_last() =~= done);
                    assert(done.push(word).last() == word);
                } else {
                    assert(word.push(c) =~= seq![c]);
                }
            }
        }
    }
    assert(input@.take(input@.len() as int) =~= input@);
    if !current.as_str().is_empty() {
        tokens.push_back(current);
        assert(texts(tokens@) =~= split(spaced(input@)));
    }
    tokens
}

} // verus!
