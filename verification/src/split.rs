//! Parting text at a separator, joining it again, and its lines.

use crate::chars::{slice, views};
use crate::search::{
    contains, find, first_occurrence, is_first_occurrence, lemma_first_occurrence_exists,
    lemma_first_occurrence_is, lemma_occurs_in_suffix, occurs_at,
};
use vstd::prelude::*;

verus! {

/// The pieces of `text` between the occurrences of `pat`. The search goes from
/// the left and goes on behind each occurrence that it finds; empty pieces are
/// kept. An empty `pat` parts nothing.
pub open spec fn split(text: Seq<char>, pat: Seq<char>) -> Seq<Seq<char>>
    decreases text.len(),
    via split_decreases
{
    if pat.len() > 0 && contains(text, pat) {
        let i = first_occurrence(text, pat);
        seq![text.take(i)] + split(text.skip(i + pat.len()), pat)
    } else {
        seq![text]
    }
}

/// What follows an occurrence is shorter than the text.
#[via_fn]
proof fn split_decreases(text: Seq<char>, pat: Seq<char>) {
    if pat.len() > 0 && contains(text, pat) {
        let k = choose|k: int| occurs_at(text, pat, k);
        lemma_first_occurrence_exists(text, pat, k);
    }
}

/// How `split` unfolds at the leftmost occurrence of `pat`.
pub proof fn lemma_split_step(text: Seq<char>, pat: Seq<char>, i: int)
    requires
        pat.len() > 0,
        is_first_occurrence(text, pat, i),
    ensures
        split(text, pat) == seq![text.take(i)] + split(text.skip(i + pat.len()), pat),
{
    lemma_first_occurrence_is(text, pat, i);
}

/// Splits `text` at every occurrence of `pat`.
pub fn split_at_each(text: &Vec<char>, pat: &Vec<char>) -> (pieces: Vec<Vec<char>>)
    ensures
        views(pieces@) == split(text@, pat@),
{
    let mut pieces: Vec<Vec<char>> = Vec::new();
    if pat.len() == 0 {
        let whole = slice(text, 0, text.len());
        proof {
            assert(whole@ =~= text@);
        }
        pieces.push(whole);
        proof {
            assert(views(pieces@) =~= seq![text@]);
        }
        return pieces;
    }
    let mut pos: usize = 0;
    proof {
        assert(text@.skip(0) =~= text@);
        assert(views(pieces@) + split(text@, pat@) =~= split(text@, pat@));
    }
    loop
        invariant
            pat@.len() > 0,
            pos <= text.len(),
            split(text@, pat@) == views(pieces@) + split(text@.skip(pos as int), pat@),
        decreases text.len() - pos,
    {
        let ghost rest = text@.skip(pos as int);
        let ghost before = views(pieces@);
        match find(text, pat, pos) {
            Some(i) => {
                let piece = slice(text, pos, i);
                proof {
                    assert forall|j: int| 0 <= j < i - pos implies !occurs_at(rest, pat@, j) by {
                        lemma_occurs_in_suffix(text@, pat@, pos as int, j);
                    }
                    lemma_occurs_in_suffix(text@, pat@, pos as int, i - pos);
                    lemma_split_step(rest, pat@, i - pos);
                    assert(rest.take(i - pos) =~= piece@);
                    assert(rest.skip(i - pos + pat@.len()) =~= text@.skip(i + pat@.len()));
                }
                pieces.push(piece);
                pos = i + pat.len();
                proof {
                    assert(views(pieces@) =~= before.push(piece@));
                    assert(before + (seq![piece@] + split(text@.skip(pos as int), pat@))
                        =~= before.push(piece@) + split(text@.skip(pos as int), pat@));
                }
            },
            None => {
                let piece = slice(text, pos, text.len());
                proof {
                    assert forall|j: int| !occurs_at(rest, pat@, j) by {
                        if 0 <= j {
                            lemma_occurs_in_suffix(text@, pat@, pos as int, j);
                        }
                    }
                    assert(!contains(rest, pat@));
                    assert(rest =~= piece@);
                }
                pieces.push(piece);
                proof {
                    assert(views(pieces@) =~= before.push(piece@));
                    assert(before + seq![piece@] =~= before.push(piece@));
                }
                return pieces;
            },
        }
    }
}

/// `parts` in a row, with `sep` between each two of them.
pub open spec fn joined(parts: Seq<Seq<char>>, sep: Seq<char>) -> Seq<char>
    decreases parts.len(),
{
    if parts.len() == 0 {
        Seq::empty()
    } else if parts.len() == 1 {
        parts[0]
    } else {
        joined(parts.drop_last(), sep) + sep + parts.last()
    }
}

/// How `joined` goes on from its first part.
pub proof fn lemma_joined_first(first: Seq<char>, rest: Seq<Seq<char>>, sep: Seq<char>)
    requires
        rest.len() > 0,
    ensures
        joined(seq![first] + rest, sep) == first + sep + joined(rest, sep),
    decreases rest.len(),
{
    let all = seq![first] + rest;
    assert(all.last() == rest.last());
    if rest.len() == 1 {
        assert(all.drop_last() =~= seq![first]);
        assert(joined(all.drop_last(), sep) == first);
        assert(joined(rest, sep) == rest[0]);
    } else {
        lemma_joined_first(first, rest.drop_last(), sep);
        assert(all.drop_last() =~= seq![first] + rest.drop_last());
        assert(first + sep + joined(rest.drop_last(), sep) + sep + rest.last() =~= first + sep + (
        joined(rest.drop_last(), sep) + sep + rest.last()));
    }
}

/// The pieces of a text, joined by what parted them, are the text.
pub proof fn lemma_joined_split(text: Seq<char>, pat: Seq<char>)
    requires
        pat.len() > 0,
    ensures
        split(text, pat).len() > 0,
        joined(split(text, pat), pat) == text,
    decreases text.len(),
{
    if contains(text, pat) {
        let k = choose|k: int| occurs_at(text, pat, k);
        lemma_first_occurrence_exists(text, pat, k);
        let i = first_occurrence(text, pat);
        let rest = text.skip(i + pat.len());
        lemma_joined_split(rest, pat);
        lemma_joined_first(text.take(i), split(rest, pat), pat);
        assert(text.take(i) + pat + rest =~= text) by {
            assert(text.subrange(i, i + pat.len()) == pat);
        }
    }
}

/// The line feed that ends a line.
pub open spec fn line_feed() -> Seq<char> {
    seq!['\n']
}

/// `line` without one carriage return at its end, where it has one.
pub open spec fn strip_cr(line: Seq<char>) -> Seq<char> {
    if line.len() > 0 && line.last() == '\r' {
        line.drop_last()
    } else {
        line
    }
}

/// The lines of `text`. A line ends at a line feed, which is left out together
/// with a carriage return directly before it; what follows the last line feed
/// is a line as it stands, unless it is empty.
pub open spec fn lines(text: Seq<char>) -> Seq<Seq<char>>
    decreases text.len(),
    via lines_decreases
{
    if text.len() == 0 {
        Seq::empty()
    } else if contains(text, line_feed()) {
        let i = first_occurrence(text, line_feed());
        seq![strip_cr(text.take(i))] + lines(text.skip(i + 1))
    } else {
        seq![text]
    }
}

/// What follows a line feed is shorter than the text.
#[via_fn]
proof fn lines_decreases(text: Seq<char>) {
    if contains(text, line_feed()) {
        let k = choose|k: int| occurs_at(text, line_feed(), k);
        lemma_first_occurrence_exists(text, line_feed(), k);
    }
}

/// How `lines` unfolds at the first line feed.
pub proof fn lemma_lines_step(text: Seq<char>, i: int)
    requires
        is_first_occurrence(text, line_feed(), i),
    ensures
        lines(text) == seq![strip_cr(text.take(i))] + lines(text.skip(i + 1)),
{
    lemma_first_occurrence_is(text, line_feed(), i);
}

/// Splits `text` into its lines.
pub fn split_lines(text: &Vec<char>) -> (found: Vec<Vec<char>>)
    ensures
        views(found@) == lines(text@),
{
    let feed: Vec<char> = vec!['\n'];
    assert(feed@ =~= line_feed());
    let mut found: Vec<Vec<char>> = Vec::new();
    let mut pos: usize = 0;
    proof {
        assert(text@.skip(0) =~= text@);
        assert(views(found@) + lines(text@) =~= lines(text@));
    }
    while pos < text.len()
        invariant
            feed@ == line_feed(),
            pos <= text.len(),
            lines(text@) == views(found@) + lines(text@.skip(pos as int)),
        decreases text.len() - pos,
    {
        let ghost rest = text@.skip(pos as int);
        let ghost before = views(found@);
        match find(text, &feed, pos) {
            Some(i) => {
                let end: usize = if i > pos && text[i - 1] == '\r' {
                    i - 1
                } else {
                    i
                };
                let line = slice(text, pos, end);
                proof {
                    assert forall|j: int| 0 <= j < i - pos implies !occurs_at(
                        rest,
                        line_feed(),
                        j,
                    ) by {
                        lemma_occurs_in_suffix(text@, line_feed(), pos as int, j);
                    }
                    lemma_occurs_in_suffix(text@, line_feed(), pos as int, i - pos);
                    lemma_lines_step(rest, i - pos);
                    assert(strip_cr(rest.take(i - pos)) =~= line@);
                    assert(rest.skip(i - pos + 1) =~= text@.skip(i + 1));
                }
                found.push(line);
                pos = i + 1;
                proof {
                    assert(views(found@) =~= before.push(line@));
                    assert(before + (seq![line@] + lines(text@.skip(pos as int)))
                        =~= before.push(line@) + lines(text@.skip(pos as int)));
                }
            },
            None => {
                let line = slice(text, pos, text.len());
                proof {
                    assert forall|j: int| !occurs_at(rest, line_feed(), j) by {
                        if 0 <= j {
                            lemma_occurs_in_suffix(text@, line_feed(), pos as int, j);
                        }
                    }
                    assert(!contains(rest, line_feed()));
                    assert(rest =~= line@);
                }
                found.push(line);
                pos = text.len();
                proof {
                    assert(views(found@) =~= before.push(line@));
                    assert(text@.skip(pos as int).len() == 0);
                    assert(before + seq![line@] =~= before.push(line@) + lines(
                        text@.skip(pos as int),
                    ));
                }
            },
        }
    }
    proof {
        assert(text@.skip(pos as int).len() == 0);
        assert(views(found@) + lines(text@.skip(pos as int)) =~= views(found@));
    }
    found
}

/// Joins the parts from index `from` on, with `sep` between each two.
pub fn join_from(parts: &Vec<Vec<char>>, from: usize, sep: &Vec<char>) -> (text: Vec<char>)
    requires
        from <= parts.len(),
    ensures
        text@ == joined(views(parts@).skip(from as int), sep@),
{
    let mut text: Vec<char> = Vec::new();
    let mut i: usize = from;
    let ghost all = views(parts@).skip(from as int);
    while i < parts.len()
        invariant
            from <= i <= parts.len(),
            all == views(parts@).skip(from as int),
            text@ == joined(all.take(i - from), sep@),
        decreases parts.len() - i,
    {
        let ghost before = all.take(i - from);
        let ghost upto = all.take(i - from + 1);
        proof {
            assert(upto.drop_last() =~= before);
            assert(upto.last() == parts[i as int]@);
        }
        if i > from {
            let mut k: usize = 0;
            while k < sep.len()
                invariant
                    k <= sep.len(),
                    text@ == joined(before, sep@) + sep@.take(k as int),
                decreases sep.len() - k,
            {
                text.push(sep[k]);
                k += 1;
                proof {
                    assert(sep@.take(k as int) =~= sep@.take(k - 1).push(sep@[k - 1]));
                }
            }
            proof {
                assert(sep@.take(k as int) =~= sep@);
            }
        }
        let part = &parts[i];
        let ghost start = text@;
        let mut k: usize = 0;
        while k < part.len()
            invariant
                k <= part.len(),
                text@ == start + part@.take(k as int),
            decreases part.len() - k,
        {
            text.push(part[k]);
            k += 1;
            proof {
                assert(part@.take(k as int) =~= part@.take(k - 1).push(part@[k - 1]));
            }
        }
        proof {
            assert(part@.take(k as int) =~= part@);
            if i == from {
                assert(before.len() == 0);
                assert(start + part@ =~= part@);
            }
        }
        i += 1;
    }
    proof {
        assert(all.take(i - from) =~= all);
    }
    text
}

} // verus!
