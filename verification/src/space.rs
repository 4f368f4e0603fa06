//! Whitespace, and the tokens that it parts.

use crate::chars::{slice, views};
use vstd::prelude::*;

verus! {

/// The characters that separate tokens and that trimming removes: those with
/// the Unicode property `White_Space`.
pub open spec fn is_whitespace(c: char) -> bool {
    ||| '\u{9}' <= c <= '\u{D}'
    ||| c == ' '
    ||| c == '\u{85}'
    ||| c == '\u{A0}'
    ||| c == '\u{1680}'
    ||| '\u{2000}' <= c <= '\u{200A}'
    ||| c == '\u{2028}'
    ||| c == '\u{2029}'
    ||| c == '\u{202F}'
    ||| c == '\u{205F}'
    ||| c == '\u{3000}'
}

/// Whether `c` separates tokens.
pub fn whitespace(c: char) -> (white: bool)
    ensures
        white == is_whitespace(c),
{
    ('\u{9}' <= c && c <= '\u{D}') || c == ' ' || c == '\u{85}' || c == '\u{A0}' || c
        == '\u{1680}' || ('\u{2000}' <= c && c <= '\u{200A}') || c == '\u{2028}' || c
        == '\u{2029}' || c == '\u{202F}' || c == '\u{205F}' || c == '\u{3000}'
}

/// All of `text` is whitespace, as it is where `text` is empty.
pub open spec fn is_blank(text: Seq<char>) -> bool {
    forall|i: int| 0 <= i < text.len() ==> is_whitespace(#[trigger] text[i])
}

/// Whether nothing but whitespace stands in `text`.
pub fn blank(text: &Vec<char>) -> (empty: bool)
    ensures
        empty == is_blank(text@),
{
    let mut i: usize = 0;
    while i < text.len()
        invariant
            i <= text.len(),
            forall|j: int| 0 <= j < i ==> is_whitespace(#[trigger] text@[j]),
        decreases text.len() - i,
    {
        if !whitespace(text[i]) {
            return false;
        }
        i += 1;
    }
    true
}

/// The number of characters before the first whitespace of `text`.
pub open spec fn token_len(text: Seq<char>) -> int
    decreases text.len(),
{
    if text.len() == 0 || is_whitespace(text[0]) {
        0
    } else {
        1 + token_len(text.skip(1))
    }
}

/// The run before the first whitespace lies within `text` and holds no whitespace.
pub proof fn lemma_token_len_bounds(text: Seq<char>)
    ensures
        0 <= token_len(text) <= text.len(),
        text.len() > 0 && !is_whitespace(text[0]) ==> token_len(text) > 0,
        forall|j: int| 0 <= j < token_len(text) ==> !is_whitespace(#[trigger] text[j]),
    decreases text.len(),
{
    if text.len() > 0 && !is_whitespace(text[0]) {
        let rest = text.skip(1);
        lemma_token_len_bounds(rest);
        assert forall|j: int| 0 <= j < token_len(text) implies !is_whitespace(
            #[trigger] text[j],
        ) by {
            if j > 0 {
                assert(rest[j - 1] == text[j]);
            }
        }
    }
}

/// The tokens of `text`: its longest runs of characters that are not whitespace.
pub open spec fn tokens(text: Seq<char>) -> Seq<Seq<char>>
    decreases text.len(),
    via tokens_decreases
{
    if text.len() == 0 {
        Seq::empty()
    } else if is_whitespace(text[0]) {
        tokens(text.skip(1))
    } else {
        let n = token_len(text);
        seq![text.take(n)] + tokens(text.skip(n))
    }
}

/// What follows a token is shorter than the text.
#[via_fn]
proof fn tokens_decreases(text: Seq<char>) {
    lemma_token_len_bounds(text);
}

/// A token's length is that of the run up to the first whitespace.
pub proof fn lemma_token_len(text: Seq<char>, n: int)
    requires
        0 <= n <= text.len(),
        forall|j: int| 0 <= j < n ==> !is_whitespace(#[trigger] text[j]),
        n == text.len() || is_whitespace(text[n]),
    ensures
        token_len(text) == n,
    decreases n,
{
    if n > 0 {
        let rest = text.skip(1);
        assert forall|j: int| 0 <= j < n - 1 implies !is_whitespace(#[trigger] rest[j]) by {
            assert(rest[j] == text[j + 1]);
        }
        lemma_token_len(rest, n - 1);
    }
}

/// `token` is not empty and holds no whitespace.
pub open spec fn is_token(token: Seq<char>) -> bool {
    &&& token.len() > 0
    &&& forall|j: int| 0 <= j < token.len() ==> !is_whitespace(#[trigger] token[j])
}

/// No token is empty, and none holds whitespace.
pub proof fn lemma_tokens_hold_no_whitespace(text: Seq<char>)
    ensures
        forall|i: int| 0 <= i < tokens(text).len() ==> is_token(#[trigger] tokens(text)[i]),
    decreases text.len(),
{
    if text.len() == 0 {
        assert(tokens(text).len() == 0);
    } else if is_whitespace(text[0]) {
        lemma_tokens_hold_no_whitespace(text.skip(1));
        assert(tokens(text) == tokens(text.skip(1)));
    } else {
        lemma_token_len_bounds(text);
        let n = token_len(text);
        lemma_tokens_hold_no_whitespace(text.skip(n));
        let first = text.take(n);
        let rest = tokens(text.skip(n));
        assert(tokens(text) == seq![first] + rest);
        assert(is_token(first)) by {
            assert forall|j: int| 0 <= j < first.len() implies !is_whitespace(
                #[trigger] first[j],
            ) by {
                assert(first[j] == text[j]);
            }
        }
        assert forall|i: int| 0 <= i < tokens(text).len() implies is_token(
            #[trigger] tokens(text)[i],
        ) by {
            if i == 0 {
                assert(tokens(text)[0] == first);
            } else {
                assert(tokens(text)[i] == rest[i - 1]);
            }
        }
    }
}

/// Splits `text` into its tokens.
pub fn split_tokens(text: &Vec<char>) -> (found: Vec<Vec<char>>)
    ensures
        views(found@) == tokens(text@),
{
    let mut found: Vec<Vec<char>> = Vec::new();
    let mut pos: usize = 0;
    proof {
        assert(text@.skip(0) =~= text@);
        assert(views(found@) + tokens(text@) =~= tokens(text@));
    }
    while pos < text.len()
        invariant
            pos <= text.len(),
            tokens(text@) == views(found@) + tokens(text@.skip(pos as int)),
        decreases text.len() - pos,
    {
        let ghost rest = text@.skip(pos as int);
        let ghost before = views(found@);
        if whitespace(text[pos]) {
            proof {
                assert(rest.skip(1) =~= text@.skip(pos + 1));
            }
            pos += 1;
        } else {
            let mut end: usize = pos + 1;
            while end < text.len() && !whitespace(text[end])
                invariant
                    pos < end <= text.len(),
                    forall|j: int| pos <= j < end ==> !is_whitespace(#[trigger] text@[j]),
                decreases text.len() - end,
            {
                end += 1;
            }
            let token = slice(text, pos, end);
            proof {
                assert forall|j: int| 0 <= j < end - pos implies !is_whitespace(
                    #[trigger] rest[j],
                ) by {
                    assert(rest[j] == text@[pos + j]);
                }
                lemma_token_len(rest, end - pos);
                assert(rest.take(end - pos) =~= token@);
                assert(rest.skip(end - pos) =~= text@.skip(end as int));
            }
            found.push(token);
            pos = end;
            proof {
                assert(views(found@) =~= before.push(token@));
                assert(before + (seq![token@] + tokens(text@.skip(pos as int)))
                    =~= before.push(token@) + tokens(text@.skip(pos as int)));
            }
        }
    }
    proof {
        assert(text@.skip(pos as int).len() == 0);
        assert(views(found@) + tokens(text@.skip(pos as int)) =~= views(found@));
    }
    found
}

} // verus!
