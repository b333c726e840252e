//! Words and signs of a filter expression.

use vstd::prelude::*;
use vstd::slice::slice_subrange;

use crate::text::{is_word, lower_all};

verus! {

/// What a token is.
#[derive(Debug, Clone, Copy, PartialEq, Eq, Structural)]
pub enum Kind {
    /// An opening parenthesis.
    Open,
    /// A closing parenthesis.
    Close,
    /// A slash.
    Slash,
    /// A dash.
    Dash,
    /// A row of the characters that relational operators are made of.
    Operator,
    /// A keyword, a number or an address.
    Word,
}

/// A token, with the range of characters that it takes up.
#[derive(Debug, Clone, Copy, PartialEq, Eq, Structural)]
pub struct Token {
    pub kind: Kind,
    pub start: usize,
    pub end: usize,
}

pub open spec fn is_space(c: char) -> bool {
    c == ' ' || c == '\t' || c == '\r' || c == '\n'
}

pub open spec fn is_operator_char(c: char) -> bool {
    c == '=' || c == '!' || c == '<' || c == '>'
}

pub open spec fn is_word_char(c: char) -> bool {
    !is_space(c) && !is_operator_char(c) && c != '(' && c != ')' && c != '/' && c != '-'
}

/// Whether the character goes on with a token of the kind.
pub open spec fn goes_on_with(kind: Kind, c: char) -> bool {
    match kind {
        Kind::Operator => is_operator_char(c),
        Kind::Word => is_word_char(c),
        _ => false,
    }
}

/// Where a token ends of which the character before `i` is part.
pub open spec fn token_end(chars: Seq<char>, kind: Kind, i: int) -> int
    decreases chars.len() - i,
{
    if 0 <= i < chars.len() && goes_on_with(kind, chars[i]) {
        token_end(chars, kind, i + 1)
    } else {
        i
    }
}

/// The kind of the token that starts with the character.
pub open spec fn kind_of(c: char) -> Kind {
    if c == '(' {
        Kind::Open
    } else if c == ')' {
        Kind::Close
    } else if c == '/' {
        Kind::Slash
    } else if c == '-' {
        Kind::Dash
    } else if is_operator_char(c) {
        Kind::Operator
    } else {
        Kind::Word
    }
}

/// The first token, which starts at `i`.
pub open spec fn token_from(chars: Seq<char>, i: int) -> Token {
    let kind = kind_of(chars[i]);
    Token { kind, start: i as usize, end: token_end(chars, kind, i + 1) as usize }
}

pub proof fn lemma_token_end(chars: Seq<char>, kind: Kind, i: int)
    requires
        0 <= i <= chars.len(),
    ensures
        i <= token_end(chars, kind, i) <= chars.len(),
    decreases chars.len() - i,
{
    if i < chars.len() && goes_on_with(kind, chars[i]) {
        lemma_token_end(chars, kind, i + 1);
    }
}

/// The tokens of the text from index `i` on.
pub open spec fn tokens_from(chars: Seq<char>, i: int) -> Seq<Token>
    decreases chars.len() - i,
{
    if !(0 <= i < chars.len()) {
        Seq::<Token>::empty()
    } else if is_space(chars[i]) {
        tokens_from(chars, i + 1)
    } else {
        let end = token_end(chars, kind_of(chars[i]), i + 1);
        proof {
            lemma_token_end(chars, kind_of(chars[i]), i + 1);
        }
        seq![token_from(chars, i)] + tokens_from(chars, end)
    }
}

/// The tokens of a filter expression.
pub open spec fn tokens(chars: Seq<char>) -> Seq<Token> {
    tokens_from(chars, 0)
}

/// The characters of the token at index `i`.
pub open spec fn token_text(chars: Seq<char>, tokens: Seq<Token>, i: int) -> Seq<char> {
    chars.subrange(tokens[i].start as int, tokens[i].end as int)
}

/// Whether the token at index `i` is of the kind.
pub open spec fn is_kind(tokens: Seq<Token>, i: int, kind: Kind) -> bool {
    0 <= i < tokens.len() && tokens[i].kind == kind
}

/// Whether the token at index `i` is the keyword, in whatever case.
pub open spec fn is_keyword(
    chars: Seq<char>,
    tokens: Seq<Token>,
    i: int,
    keyword: Seq<char>,
) -> bool {
    is_kind(tokens, i, Kind::Word) && lower_all(token_text(chars, tokens, i)) == keyword
}

/// Whether every token lies in the text.
pub open spec fn tokens_in(chars: Seq<char>, tokens: Seq<Token>) -> bool {
    forall|i: int|
        0 <= i < tokens.len() ==> (#[trigger] tokens[i]).start < tokens[i].end <= chars.len()
}

fn kind_of_char(c: char) -> (kind: Kind)
    ensures
        kind == kind_of(c),
{
    if c == '(' {
        Kind::Open
    } else if c == ')' {
        Kind::Close
    } else if c == '/' {
        Kind::Slash
    } else if c == '-' {
        Kind::Dash
    } else if c == '=' || c == '!' || c == '<' || c == '>' {
        Kind::Operator
    } else {
        Kind::Word
    }
}

fn is_space_char(c: char) -> (yes: bool)
    ensures
        yes == is_space(c),
{
    c == ' ' || c == '\t' || c == '\r' || c == '\n'
}

/// Cut a filter expression into tokens.
pub fn tokenize(chars: &[char]) -> (found: Vec<Token>)
    ensures
        found@ == tokens(chars@),
        tokens_in(chars@, found@),
{
    let mut found: Vec<Token> = Vec::new();
    let mut i: usize = 0;
    while i < chars.len()
        invariant
            0 <= i <= chars@.len(),
            tokens(chars@) == found@ + tokens_from(chars@, i as int),
            tokens_in(chars@, found@),
        decreases chars@.len() - i,
    {
        let c: char = chars[i];
        if is_space_char(c) {
            i = i + 1;
        } else {
            let kind: Kind = kind_of_char(c);
            let start: usize = i;
            let ghost end = token_end(chars@, kind, start + 1);
            proof {
                lemma_token_end(chars@, kind, start + 1);
            }
            i = i + 1;
            while i < chars.len() && ((kind == Kind::Word && kind_of_char(chars[i]) == Kind::Word
                && !is_space_char(chars[i])) || (kind == Kind::Operator && kind_of_char(chars[i])
                == Kind::Operator))
                invariant
                    start < i <= chars@.len(),
                    end == token_end(chars@, kind, i as int),
                decreases chars@.len() - i,
            {
                i = i + 1;
            }
            assert(end == i);
            let ghost before = found@;
            found.push(Token { kind, start, end: i });
            assert(found@ + tokens_from(chars@, i as int) =~= before + (seq![
                token_from(chars@, start as int),
            ] + tokens_from(chars@, i as int)));
        }
    }
    found
}

/// The characters of a token.
pub fn text_of<'a>(chars: &'a [char], token: Token) -> (text: &'a [char])
    requires
        token.start <= token.end <= chars@.len(),
    ensures
        text@ == chars@.subrange(token.start as int, token.end as int),
{
    slice_subrange(chars, token.start, token.end)
}

/// Whether the token at index `i` is of the kind.
pub fn has_kind(found: &[Token], i: usize, kind: Kind) -> (yes: bool)
    ensures
        yes == is_kind(found@, i as int, kind),
{
    i < found.len() && found[i].kind == kind
}

/// Whether the token at index `i` is the keyword.
pub fn has_keyword(chars: &[char], found: &[Token], i: usize, keyword: &str) -> (yes: bool)
    requires
        tokens_in(chars@, found@),
    ensures
        yes == is_keyword(chars@, found@, i as int, keyword@),
{
    if !has_kind(found, i, Kind::Word) {
        return false;
    }
    let token: Token = found[i];
    assert(found@[i as int] == token);
    is_word(text_of(chars, token), keyword)
}

} // verus!
