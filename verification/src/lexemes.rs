//! How the words and signs of a filter are told apart.

use vstd::prelude::*;

use crate::lexer::{
    goes_on_with, is_space, kind_of, token_end, token_from, token_text, tokens, tokens_from, Kind,
    Token,
};

verus! {

/// Whether the character is a blank, a tab or a line break.
pub open spec fn is_blank(c: char) -> bool {
    c == ' ' || c == '\t' || c == '\r' || c == '\n'
}

/// Whether the character is one of those that operators are made of.
pub open spec fn is_sign(c: char) -> bool {
    c == '=' || c == '!' || c == '<' || c == '>'
}

/// Whether the character stands for itself.
pub open spec fn is_single(c: char) -> bool {
    c == '(' || c == ')' || c == '/' || c == '-'
}

/// Whether the text is one word or sign: a character that stands for itself, a row of operator
/// characters, or a row of others.
pub open spec fn is_lexeme(text: Seq<char>) -> bool {
    &&& text.len() > 0
    &&& {
        ||| text.len() == 1 && is_single(text[0])
        ||| forall|i: int| 0 <= i < text.len() ==> is_sign(#[trigger] text[i])
        ||| forall|i: int|
            0 <= i < text.len() ==> !is_blank(#[trigger] text[i]) && !is_sign(text[i]) && !is_single(
                text[i],
            )
    }
}

/// Whether a word or sign that starts with a character may follow one without a blank.
pub open spec fn may_touch(one: char, next: char) -> bool {
    is_single(one) || is_single(next) || is_sign(one) != is_sign(next)
}

/// Words and signs from index `i` on, with a gap before each of them and one at the end.
pub open spec fn spread(words: Seq<Seq<char>>, gaps: Seq<Seq<char>>, i: int) -> Seq<char>
    decreases words.len() - i,
{
    if 0 <= i < words.len() {
        gaps[i] + words[i] + spread(words, gaps, i + 1)
    } else {
        gaps[i]
    }
}

/// Whether the words are words, the gaps are blanks, and words that would run together have one
/// between them.
pub open spec fn are_spread(words: Seq<Seq<char>>, gaps: Seq<Seq<char>>) -> bool {
    &&& gaps.len() == words.len() + 1
    &&& forall|i: int| 0 <= i < words.len() ==> is_lexeme(#[trigger] words[i])
    &&& forall|i: int, j: int|
        0 <= i < gaps.len() && 0 <= j < gaps[i].len() ==> is_blank(#[trigger] gaps[i][j])
    &&& forall|i: int|
        0 < i < words.len() && (#[trigger] gaps[i]).len() == 0 ==> may_touch(
            words[i - 1][0],
            words[i][0],
        )
}

/// Whether the tokens are those of the words, one for each.
pub open spec fn lexed(chars: Seq<char>, found: Seq<Token>, words: Seq<Seq<char>>) -> bool {
    &&& found.len() == words.len()
    &&& forall|i: int|
        0 <= i < words.len() ==> words[i].len() > 0 && (#[trigger] found[i]).kind == kind_of(
            words[i][0],
        ) && token_text(chars, found, i) == words[i]
}

/// A text of words with blanks between them is cut into those words, each of the kind that its
/// characters give it.
pub proof fn law_words_are_found(words: Seq<Seq<char>>, gaps: Seq<Seq<char>>)
    requires
        are_spread(words, gaps),
        spread(words, gaps, 0).len() <= usize::MAX,
    ensures
        lexed(spread(words, gaps, 0), tokens(spread(words, gaps, 0)), words),
{
    let chars = spread(words, gaps, 0);
    assert(Seq::<char>::empty() + chars =~= chars);
    lemma_found(words, gaps, 0, Seq::empty());
    let found = tokens(chars);
    assert forall|i: int| 0 <= i < words.len() implies words[i].len() > 0 && (
    #[trigger] found[i]).kind == kind_of(words[i][0]) && token_text(chars, found, i)
        == words[i] by {
        assert(found[i - 0] == found[i]);
        assert(is_lexeme(words[i]));
    }
}

/// The kinds of words and signs.
pub proof fn law_kinds(c: char)
    ensures
        kind_of(c) == Kind::Open <==> c == '(',
        kind_of(c) == Kind::Close <==> c == ')',
        kind_of(c) == Kind::Slash <==> c == '/',
        kind_of(c) == Kind::Dash <==> c == '-',
        kind_of(c) == Kind::Operator <==> is_sign(c),
        kind_of(c) == Kind::Word <==> !is_sign(c) && !is_single(c),
{
}

proof fn lemma_found(words: Seq<Seq<char>>, gaps: Seq<Seq<char>>, i: int, front: Seq<char>)
    requires
        are_spread(words, gaps),
        0 <= i <= words.len(),
        (front + spread(words, gaps, i)).len() <= usize::MAX,
    ensures
        ({
            let chars = front + spread(words, gaps, i);
            let found = tokens_from(chars, front.len() as int);
            &&& found.len() == words.len() - i
            &&& forall|j: int|
                i <= j < words.len() ==> (#[trigger] found[j - i]).kind == kind_of(words[j][0])
                    && chars.subrange(found[j - i].start as int, found[j - i].end as int)
                    == words[j]
        }),
    decreases words.len() - i,
{
    let rest = spread(words, gaps, i);
    let chars = front + rest;
    let at = front.len() as int;
    let gap = gaps[i];
    let start = at + gap.len();
    assert forall|k: int| at <= k < start implies is_space(#[trigger] chars[k]) by {
        assert(chars[k] == gap[k - at]);
        assert(is_blank(gaps[i][k - at]));
    }
    lemma_spaces(chars, at, start);
    let found = tokens_from(chars, at);
    if i < words.len() {
        let word = words[i];
        assert(is_lexeme(word));
        let next = spread(words, gaps, i + 1);
        assert(rest == gap + word + next);
        let end = start + word.len();
        let new_front = front + gap + word;
        assert(new_front + next =~= chars);
        lemma_found(words, gaps, i + 1, new_front);
        let kind = kind_of(word[0]);
        assert(chars[start] == word[0]);
        assert(!is_space(chars[start]));
        assert forall|k: int| start < k < end implies goes_on_with(kind, #[trigger] chars[k]) by {
            assert(chars[k] == word[k - start]);
            assert(word[0] == word[0]);
        }
        assert(end < chars.len() ==> !goes_on_with(kind, chars[end])) by {
            if end < chars.len() {
                assert(chars[end] == next[0]);
                lemma_next_char(words, gaps, i);
            }
        }
        lemma_word_end(chars, kind, start + 1, end);
        let token = token_from(chars, start);
        assert(token.start == start && token.end == end);
        let tail = tokens_from(chars, end);
        assert(found == seq![token] + tail);
        assert(chars.subrange(start, end) =~= word);
        assert forall|j: int| i <= j < words.len() implies (#[trigger] found[j - i]).kind
            == kind_of(words[j][0]) && chars.subrange(
            found[j - i].start as int,
            found[j - i].end as int,
        ) == words[j] by {
            if j > i {
                assert(found[j - i] == tail[j - (i + 1)]);
            }
        }
    } else {
        assert(start == chars.len());
        assert(found =~= Seq::empty());
    }
}

/// What stands behind a word does not go on with it.
proof fn lemma_next_char(words: Seq<Seq<char>>, gaps: Seq<Seq<char>>, i: int)
    requires
        are_spread(words, gaps),
        0 <= i < words.len(),
        spread(words, gaps, i + 1).len() > 0,
    ensures
        !goes_on_with(kind_of(words[i][0]), spread(words, gaps, i + 1)[0]),
{
    let next = spread(words, gaps, i + 1);
    let gap = gaps[i + 1];
    if gap.len() > 0 {
        assert(next[0] == gap[0]);
        assert(is_blank(gaps[i + 1][0]));
    } else {
        assert(i + 1 < words.len());
        let word = words[i + 1];
        assert(is_lexeme(words[i]) && is_lexeme(word));
        assert(next[0] == word[0]);
        assert(may_touch(words[i][0], word[0]));
    }
}

proof fn lemma_spaces(chars: Seq<char>, from: int, to: int)
    requires
        0 <= from <= to <= chars.len(),
        forall|k: int| from <= k < to ==> is_space(#[trigger] chars[k]),
    ensures
        tokens_from(chars, from) == tokens_from(chars, to),
    decreases to - from,
{
    if from < to {
        assert(is_space(chars[from]));
        lemma_spaces(chars, from + 1, to);
    }
}

proof fn lemma_word_end(chars: Seq<char>, kind: Kind, from: int, to: int)
    requires
        0 <= from <= to <= chars.len(),
        forall|k: int| from <= k < to ==> goes_on_with(kind, #[trigger] chars[k]),
        to < chars.len() ==> !goes_on_with(kind, chars[to]),
    ensures
        token_end(chars, kind, from) == to,
    decreases to - from,
{
    if from < to {
        assert(goes_on_with(kind, chars[from]));
        lemma_word_end(chars, kind, from + 1, to);
    }
}

} // verus!
