//! What text shows: its characters but the whitespace.

use crate::search::{contains, first_occurrence, lemma_first_occurrence_exists, occurs_at};
use crate::space::{is_blank, is_whitespace};
use crate::split::{joined, line_feed, lines, strip_cr};
use vstd::prelude::*;

verus! {

/// The characters of `text` that are not whitespace, in their order.
pub open spec fn visible(text: Seq<char>) -> Seq<char>
    decreases text.len(),
{
    if text.len() == 0 {
        Seq::empty()
    } else if is_whitespace(text.last()) {
        visible(text.drop_last())
    } else {
        visible(text.drop_last()).push(text.last())
    }
}

/// The characters of all `parts` that are not whitespace, in their order.
pub open spec fn visible_of_all(parts: Seq<Seq<char>>) -> Seq<char>
    decreases parts.len(),
{
    if parts.len() == 0 {
        Seq::empty()
    } else {
        visible_of_all(parts.drop_last()) + visible(parts.last())
    }
}

/// What is visible of two texts in a row is what is visible of each, in a row.
pub proof fn lemma_visible_add(a: Seq<char>, b: Seq<char>)
    ensures
        visible(a + b) == visible(a) + visible(b),
    decreases b.len(),
{
    if b.len() == 0 {
        assert(a + b =~= a);
        assert(visible(a) + visible(b) =~= visible(a));
    } else {
        lemma_visible_add(a, b.drop_last());
        assert((a + b).drop_last() =~= a + b.drop_last());
        assert((a + b).last() == b.last());
        if !is_whitespace(b.last()) {
            assert(visible(a) + visible(b.drop_last()).push(b.last()) =~= (visible(a) + visible(
                b.drop_last(),
            )).push(b.last()));
        }
    }
}

/// Nothing is visible of whitespace.
pub proof fn lemma_visible_blank(text: Seq<char>)
    requires
        is_blank(text),
    ensures
        visible(text).len() == 0,
    decreases text.len(),
{
    if text.len() > 0 {
        assert(is_whitespace(text[text.len() - 1]));
        assert forall|i: int| 0 <= i < text.drop_last().len() implies is_whitespace(
            #[trigger] text.drop_last()[i],
        ) by {
            assert(text.drop_last()[i] == text[i]);
        }
        lemma_visible_blank(text.drop_last());
    }
}

/// What is visible of lists in a row is what is visible of each, in a row.
pub proof fn lemma_visible_of_all_add(a: Seq<Seq<char>>, b: Seq<Seq<char>>)
    ensures
        visible_of_all(a + b) == visible_of_all(a) + visible_of_all(b),
    decreases b.len(),
{
    if b.len() == 0 {
        assert(a + b =~= a);
        assert(visible_of_all(a) + visible_of_all(b) =~= visible_of_all(a));
    } else {
        lemma_visible_of_all_add(a, b.drop_last());
        assert((a + b).drop_last() =~= a + b.drop_last());
        assert((a + b).last() == b.last());
        assert(visible_of_all(a) + (visible_of_all(b.drop_last()) + visible(b.last()))
            =~= visible_of_all(a) + visible_of_all(b.drop_last()) + visible(b.last()));
    }
}

/// What is visible of one part is what is visible of the list that holds it alone.
pub proof fn lemma_visible_of_one(part: Seq<char>)
    ensures
        visible_of_all(seq![part]) == visible(part),
{
    let one = seq![part];
    assert(one.drop_last().len() == 0);
    assert(visible_of_all(one.drop_last()).len() == 0);
    assert(one.last() == part);
    assert(visible_of_all(one.drop_last()) + visible(part) =~= visible(part));
}

/// A separator of whitespace adds nothing visible to the parts that it joins.
pub proof fn lemma_visible_joined(parts: Seq<Seq<char>>, sep: Seq<char>)
    requires
        is_blank(sep),
    ensures
        visible(joined(parts, sep)) == visible_of_all(parts),
    decreases parts.len(),
{
    if parts.len() == 0 {
    } else if parts.len() == 1 {
        assert(parts =~= seq![parts[0]]);
        lemma_visible_of_one(parts[0]);
    } else {
        lemma_visible_joined(parts.drop_last(), sep);
        lemma_visible_blank(sep);
        lemma_visible_add(joined(parts.drop_last(), sep), sep);
        lemma_visible_add(joined(parts.drop_last(), sep) + sep, parts.last());
        assert(visible(joined(parts.drop_last(), sep)) + visible(sep) =~= visible(
            joined(parts.drop_last(), sep),
        ));
    }
}

/// Lists of parts that show the same, part by part, show the same as a whole.
pub proof fn lemma_visible_of_all_same(a: Seq<Seq<char>>, b: Seq<Seq<char>>)
    requires
        a.len() == b.len(),
        forall|i: int| 0 <= i < a.len() ==> visible(#[trigger] a[i]) == visible(b[i]),
    ensures
        visible_of_all(a) == visible_of_all(b),
    decreases a.len(),
{
    if a.len() > 0 {
        assert forall|i: int| 0 <= i < a.drop_last().len() implies visible(
            #[trigger] a.drop_last()[i],
        ) == visible(b.drop_last()[i]) by {
            assert(a.drop_last()[i] == a[i]);
            assert(b.drop_last()[i] == b[i]);
        }
        lemma_visible_of_all_same(a.drop_last(), b.drop_last());
        assert(visible(a[a.len() - 1]) == visible(b[a.len() - 1]));
    }
}

/// The lines of a text show what the text shows: only line feeds and carriage
/// returns are left out of them.
pub proof fn lemma_visible_lines(text: Seq<char>)
    ensures
        visible_of_all(lines(text)) == visible(text),
    decreases text.len(),
{
    if text.len() == 0 {
    } else if contains(text, line_feed()) {
        let k = choose|k: int| occurs_at(text, line_feed(), k);
        lemma_first_occurrence_exists(text, line_feed(), k);
        let i = first_occurrence(text, line_feed());
        let head = text.take(i);
        let rest = text.skip(i + 1);
        lemma_visible_lines(rest);
        assert(lines(text) == seq![strip_cr(head)] + lines(rest));
        lemma_visible_of_all_add(seq![strip_cr(head)], lines(rest));
        lemma_visible_of_one(strip_cr(head));
        assert(visible(strip_cr(head)) == visible(head)) by {
            if head.len() > 0 && head.last() == '\r' {
                assert(is_whitespace('\r'));
            }
        }
        assert(head + line_feed() + rest =~= text) by {
            assert(text.subrange(i, i + 1) == line_feed());
        }
        lemma_visible_add(head, line_feed());
        lemma_visible_add(head + line_feed(), rest);
        assert(is_blank(line_feed()));
        lemma_visible_blank(line_feed());
        assert(visible(head) + visible(line_feed()) =~= visible(head));
    } else {
        lemma_visible_of_one(text);
    }
}

} // verus!
