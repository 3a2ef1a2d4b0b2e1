//! The tokenizer: from a command line to positional words, `key:value`
//! pairs and command boundaries.

use vstd::prelude::*;
use vstd::string::*;

verus! {

/// One lexical unit of a command line.
#[derive(Debug, Clone, PartialEq, Eq)]
pub enum Token {
    /// A plain word, matched by position.
    Positional(String),
    /// A `key:value` word, matched by argument name.
    Named(String, String),
    /// The end of one command invocation.
    Boundary,
}

/// The mathematical value of a [`Token`].
pub enum TokenView {
    Positional(Seq<char>),
    Named(Seq<char>, Seq<char>),
    Boundary,
}

impl View for Token {
    type V = TokenView;

    open spec fn view(&self) -> TokenView {
        match *self {
            Token::Positional(text) => TokenView::Positional(text@),
            Token::Named(key, value) => TokenView::Named(key@, value@),
            Token::Boundary => TokenView::Boundary,
        }
    }
}

/// The views of a run of tokens, in order.
pub open spec fn token_views(tokens: Seq<Token>) -> Seq<TokenView> {
    Seq::new(tokens.len(), |i: int| tokens[i]@)
}

/// Blank characters separate words and are otherwise ignored.
pub open spec fn is_blank(c: char) -> bool {
    c == ' ' || c == '\t' || c == '\r' || c == '\n'
}

/// The character that ends a command invocation.
pub open spec fn is_boundary(c: char) -> bool {
    c == ';'
}

/// The character between the key and the value of a named token.
pub open spec fn is_key_separator(c: char) -> bool {
    c == ':'
}

/// A word is a maximal run of characters that are neither blank nor a boundary.
pub open spec fn in_word(c: char) -> bool {
    !is_blank(c) && !is_boundary(c)
}

/// The index just past the word that starts at `i`.
pub open spec fn word_end(s: Seq<char>, i: int) -> int
    decreases s.len() - i,
{
    if 0 <= i < s.len() && in_word(s[i]) {
        word_end(s, i + 1)
    } else {
        i
    }
}

/// The index of the first key separator of `w` at or after `i`, or the
/// length of `w` if there is none.
pub open spec fn separator_index(w: Seq<char>, i: int) -> int
    decreases w.len() - i,
{
    if 0 <= i < w.len() && !is_key_separator(w[i]) {
        separator_index(w, i + 1)
    } else {
        i
    }
}

/// The token that a word stands for. A word without a key separator is
/// positional. A word with one is named: the key is what precedes the first
/// separator, the value what follows it, and both must be non-empty.
pub open spec fn word_token(w: Seq<char>) -> Option<TokenView> {
    let k = separator_index(w, 0);
    if k >= w.len() {
        Some(TokenView::Positional(w))
    } else if k == 0 || k + 1 == w.len() {
        None
    } else {
        Some(TokenView::Named(w.subrange(0, k), w.subrange(k + 1, w.len() as int)))
    }
}

/// The tokens of `s` from index `i` on, or `None` if a word there is malformed.
pub open spec fn tokens_from(s: Seq<char>, i: int) -> Option<Seq<TokenView>>
    decreases s.len() - i,
    via tokens_from_decreases
{
    if i < 0 || i >= s.len() {
        Some(Seq::empty())
    } else if is_blank(s[i]) {
        tokens_from(s, i + 1)
    } else if is_boundary(s[i]) {
        match tokens_from(s, i + 1) {
            Some(rest) => Some(seq![TokenView::Boundary] + rest),
            None => None,
        }
    } else {
        let e = word_end(s, i);
        match word_token(s.subrange(i, e)) {
            None => None,
            Some(t) => match tokens_from(s, e) {
                Some(rest) => Some(seq![t] + rest),
                None => None,
            },
        }
    }
}

#[via_fn]
proof fn tokens_from_decreases(s: Seq<char>, i: int) {
    if 0 <= i < s.len() {
        lemma_word_end_bounds(s, i);
    }
}

/// The tokens of a whole command line.
pub open spec fn tokens_of(s: Seq<char>) -> Option<Seq<TokenView>> {
    tokens_from(s, 0)
}

/// A word ends after it starts and inside the text.
pub proof fn lemma_word_end_bounds(s: Seq<char>, i: int)
    requires
        0 <= i <= s.len(),
    ensures
        i <= word_end(s, i) <= s.len(),
        i < s.len() && in_word(s[i]) ==> i < word_end(s, i),
    decreases s.len() - i,
{
    if i < s.len() && in_word(s[i]) {
        lemma_word_end_bounds(s, i + 1);
    }
}

fn classify_blank(c: char) -> (b: bool)
    ensures
        b == is_blank(c),
{
    c == ' ' || c == '\t' || c == '\r' || c == '\n'
}

fn word_char_at(input: &str, j: usize, len: usize) -> (b: bool)
    requires
        len == input@.len(),
    ensures
        b == (j < len && in_word(input@[j as int])),
{
    if j < len {
        let c = input.get_char(j);
        !classify_blank(c) && c != ';'
    } else {
        false
    }
}

fn key_char_at(word: &str, k: usize, len: usize) -> (b: bool)
    requires
        len == word@.len(),
    ensures
        b == (k < len && !is_key_separator(word@[k as int])),
{
    if k < len {
        word.get_char(k) != ':'
    } else {
        false
    }
}

/// Finds where the word starting at `start` ends.
fn scan_word(input: &str, start: usize, len: usize) -> (end: usize)
    requires
        len == input@.len(),
        start <= len,
    ensures
        end as int == word_end(input@, start as int),
        start <= end <= len,
{
    let mut j: usize = start;
    while word_char_at(input, j, len)
        invariant
            len == input@.len(),
            start <= j <= len,
            word_end(input@, start as int) == word_end(input@, j as int),
        decreases len - j,
    {
        j += 1;
    }
    j
}

/// Turns one word into its token.
fn make_token(word: &str) -> (r: Option<Token>)
    ensures
        match word_token(word@) {
            Some(t) => r matches Some(tok) && tok@ == t,
            None => r is None,
        },
{
    let len: usize = word.unicode_len();
    let mut k: usize = 0;
    while key_char_at(word, k, len)
        invariant
            len == word@.len(),
            k <= len,
            separator_index(word@, 0) == separator_index(word@, k as int),
        decreases len - k,
    {
        k += 1;
    }
    if k >= len {
        Some(Token::Positional(word.to_owned()))
    } else if k == 0 || k + 1 == len {
        None
    } else {
        let key = word.substring_char(0, k).to_owned();
        let value = word.substring_char(k + 1, len).to_owned();
        Some(Token::Named(key, value))
    }
}

/// Splits a command line into tokens.
///
/// Words are separated by blanks. A `;` ends a command invocation and is a
/// token by itself. A word holding a `:` is a named token and must have a
/// non-empty key before the first `:` and a non-empty value after it;
/// otherwise the line is rejected with [`Error::Syntax`].
pub fn tokenize(input: &str) -> (r: Result<Vec<Token>, crate::error::Error>)
    ensures
        match tokens_of(input@) {
            Some(ts) => r matches Ok(v) && token_views(v@) == ts,
            None => r == Err::<Vec<Token>, crate::error::Error>(crate::error::Error::Syntax),
        },
{
    let len: usize = input.unicode_len();
    let mut out: Vec<Token> = Vec::new();
    let mut i: usize = 0;
    while i < len
        invariant
            len == input@.len(),
            i <= len,
            tokens_of(input@) == match tokens_from(input@, i as int) {
                Some(rest) => Some(token_views(out@) + rest),
                None => None::<Seq<TokenView>>,
            },
        decreases len - i,
    {
        let c = input.get_char(i);
        let ghost before = token_views(out@);
        if classify_blank(c) {
            i += 1;
        } else if c == ';' {
            out.push(Token::Boundary);
            i += 1;
            proof {
                assert(token_views(out@) == before + seq![TokenView::Boundary]);
                assert forall|rest: Seq<TokenView>|
                    before + (seq![TokenView::Boundary] + rest) == token_views(out@)
                        + rest by {
                    assert(before + (seq![TokenView::Boundary] + rest) =~= (before
                        + seq![TokenView::Boundary]) + rest);
                }
            }
        } else {
            let end = scan_word(input, i, len);
            proof {
                lemma_word_end_bounds(input@, i as int);
            }
            let word = input.substring_char(i, end);
            match make_token(word) {
                None => {
                    return Err(crate::error::Error::Syntax);
                },
                Some(tok) => {
                    let ghost t = tok@;
                    out.push(tok);
                    proof {
                        assert(token_views(out@) == before + seq![t]);
                        assert forall|rest: Seq<TokenView>|
                            before + (seq![t] + rest) == token_views(out@) + rest by {
                            assert(before + (seq![t] + rest) =~= (before + seq![t]) + rest);
                        }
                    }
                    i = end;
                },
            }
        }
    }
    proof {
        assert(token_views(out@) + Seq::<TokenView>::empty() =~= token_views(out@));
    }
    Ok(out)
}

} // verus!
