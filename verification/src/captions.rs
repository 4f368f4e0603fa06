//! Caption text: its segments, and the text that segments and new bodies make.

use crate::error::TranslateError;
use crate::chars::{string_views, to_chars, to_string, views};
use crate::search::{contains, occurs_at};
use crate::space::{blank, is_blank};
use crate::split::{
    join_from, joined, lemma_joined_first, lemma_joined_split, line_feed, lines, split,
    split_at_each, split_lines,
};
use crate::visible::{
    lemma_visible_add, lemma_visible_blank, lemma_visible_joined, lemma_visible_lines,
    lemma_visible_of_all_add, lemma_visible_of_all_same, lemma_visible_of_one, visible,
    visible_of_all,
};
use vstd::prelude::*;
use vstd::string::StringExecFns;

verus! {

/// One timed caption: the two lines that head it, and its text.
#[derive(Debug, PartialEq, Eq)]
pub struct CaptionSegment {
    /// The line that numbers the caption, and the line that times it.
    pub header: (String, String),
    /// The caption's text, its line breaks kept.
    pub body: String,
}

/// What a `CaptionSegment` holds, as plain values.
pub struct SegmentView {
    pub header: (Seq<char>, Seq<char>),
    pub body: Seq<char>,
}

impl View for CaptionSegment {
    type V = SegmentView;

    open spec fn view(&self) -> SegmentView {
        SegmentView { header: (self.header.0@, self.header.1@), body: self.body@ }
    }
}

/// The views of a list of segments.
pub open spec fn segment_views(segments: Seq<CaptionSegment>) -> Seq<SegmentView> {
    Seq::new(segments.len(), |i: int| segments[i]@)
}

/// The empty line that parts two blocks: two line feeds in a row.
pub open spec fn blank_line() -> Seq<char> {
    seq!['\n', '\n']
}

/// Those of `blocks` that hold more than whitespace, in their order.
pub open spec fn keep_filled(blocks: Seq<Seq<char>>) -> Seq<Seq<char>>
    decreases blocks.len(),
{
    if blocks.len() == 0 {
        Seq::empty()
    } else {
        let before = keep_filled(blocks.drop_last());
        if is_blank(blocks.last()) {
            before
        } else {
            before.push(blocks.last())
        }
    }
}

/// The blocks of caption text: what stands between its blank lines, without
/// the blocks that hold nothing but whitespace.
pub open spec fn blocks(text: Seq<char>) -> Seq<Seq<char>> {
    keep_filled(split(text, blank_line()))
}

/// The segment that `block` holds: its first two lines head it, the others
/// are its body, a line feed between each two. A line that the block lacks is
/// empty.
pub open spec fn block_segment(block: Seq<char>) -> SegmentView {
    let found = lines(block);
    SegmentView {
        header: (
            if found.len() > 0 {
                found[0]
            } else {
                Seq::empty()
            },
            if found.len() > 1 {
                found[1]
            } else {
                Seq::empty()
            },
        ),
        body: if found.len() > 2 {
            joined(found.skip(2), line_feed())
        } else {
            Seq::empty()
        },
    }
}

/// The segments of caption text: one for each of its blocks, in their order.
pub open spec fn segments_of(text: Seq<char>) -> Seq<SegmentView> {
    Seq::new(blocks(text).len(), |i: int| block_segment(blocks(text)[i]))
}

/// The block that `segment` makes with `body` in place of its own.
pub open spec fn segment_text(segment: SegmentView, body: Seq<char>) -> Seq<char> {
    segment.header.0 + line_feed() + segment.header.1 + line_feed() + body
}

/// The blocks that `segments` make with `bodies`, one by one.
pub open spec fn segment_texts(segments: Seq<SegmentView>, bodies: Seq<Seq<char>>) -> Seq<
    Seq<char>,
> {
    Seq::new(segments.len(), |i: int| segment_text(segments[i], bodies[i]))
}

/// The caption text that `segments` make with `bodies`: their blocks, a blank
/// line between each two.
pub open spec fn reassembled(segments: Seq<SegmentView>, bodies: Seq<Seq<char>>) -> Seq<char> {
    joined(segment_texts(segments, bodies), blank_line())
}

/// The bodies of `segments`, in their order.
pub open spec fn bodies_of(segments: Seq<SegmentView>) -> Seq<Seq<char>> {
    Seq::new(segments.len(), |i: int| segments[i].body)
}

/// Reads the segment that `block` holds.
fn parse_block(block: &Vec<char>) -> (segment: CaptionSegment)
    ensures
        segment@ == block_segment(block@),
{
    let found = split_lines(block);
    let feed: Vec<char> = vec!['\n'];
    assert(feed@ =~= line_feed());
    let first = if found.len() > 0 {
        assert(views(found@)[0] == found[0]@);
        to_string(&found[0])
    } else {
        String::new()
    };
    let second = if found.len() > 1 {
        assert(views(found@)[1] == found[1]@);
        to_string(&found[1])
    } else {
        String::new()
    };
    let body = if found.len() > 2 {
        let text = join_from(&found, 2, &feed);
        to_string(&text)
    } else {
        String::new()
    };
    CaptionSegment { header: (first, second), body }
}

/// The segments of caption text, in the order in which it holds them.
///
/// The text is parted at its blank lines into blocks; a block that holds
/// nothing but whitespace is left out. The first two lines of a block head the
/// segment, the others are its body. A block of fewer lines is taken as it is:
/// what it lacks is empty.
pub fn segments(text: &str) -> (found: Vec<CaptionSegment>)
    ensures
        segment_views(found@) == segments_of(text@),
        found.len() == blocks(text@).len(),
        forall|i: int|
            0 <= i < found.len() ==> (#[trigger] found[i])@ == block_segment(blocks(text@)[i]),
        text@.len() == 0 ==> found.len() == 0,
{
    let chars = to_chars(text);
    let delimiter: Vec<char> = vec!['\n', '\n'];
    assert(delimiter@ =~= blank_line());
    let pieces = split_at_each(&chars, &delimiter);
    let mut found: Vec<CaptionSegment> = Vec::new();
    let mut i: usize = 0;
    proof {
        assert(views(pieces@).take(0) =~= Seq::<Seq<char>>::empty());
    }
    while i < pieces.len()
        invariant
            i <= pieces.len(),
            found.len() == keep_filled(views(pieces@).take(i as int)).len(),
            forall|k: int|
                0 <= k < found.len() ==> (#[trigger] found[k])@ == block_segment(
                    keep_filled(views(pieces@).take(i as int))[k],
                ),
        decreases pieces.len() - i,
    {
        let ghost upto = views(pieces@).take(i + 1);
        proof {
            assert(upto.last() == pieces[i as int]@);
            assert(upto.drop_last() =~= views(pieces@).take(i as int));
        }
        if !blank(&pieces[i]) {
            let segment = parse_block(&pieces[i]);
            found.push(segment);
        }
        i += 1;
    }
    proof {
        assert(views(pieces@).take(i as int) =~= views(pieces@));
        assert(segment_views(found@) =~= segments_of(text@));
        if text@.len() == 0 {
            lemma_empty_text_has_no_blocks(text@);
        }
    }
    found
}

/// Empty text has no blocks.
pub proof fn lemma_empty_text_has_no_blocks(text: Seq<char>)
    requires
        text.len() == 0,
    ensures
        blocks(text).len() == 0,
        segments_of(text).len() == 0,
{
    assert(!contains(text, blank_line())) by {
        assert forall|i: int| !occurs_at(text, blank_line(), i) by {}
    }
    let pieces = split(text, blank_line());
    assert(pieces == seq![text]);
    assert(pieces.drop_last().len() == 0);
    assert(keep_filled(pieces.drop_last()).len() == 0);
    assert(is_blank(pieces.last()));
    assert(keep_filled(pieces) == keep_filled(pieces.drop_last()));
}

/// The caption text that `segments` make with `bodies` in place of their own:
/// each segment's two heading lines and its new body, a line feed between
/// them, and a blank line between each two segments.
pub fn reassemble(segments: &Vec<CaptionSegment>, bodies: &Vec<String>) -> (result: Result<
    String,
    TranslateError,
>)
    ensures
        result is Ok <==> segments.len() == bodies.len(),
        result matches Ok(text) ==> text@ == reassembled(
            segment_views(segments@),
            string_views(bodies@),
        ),
        result matches Ok(text) ==> (segments.len() == 0 ==> text@.len() == 0),
        result matches Err(error) ==> error == (TranslateError::ReassemblyLengthMismatch {
            segments: segments.len(),
            bodies: bodies.len(),
        }),
{
    if segments.len() != bodies.len() {
        return Err(
            TranslateError::ReassemblyLengthMismatch {
                segments: segments.len(),
                bodies: bodies.len(),
            },
        );
    }
    let ghost texts = segment_texts(segment_views(segments@), string_views(bodies@));
    let mut text = String::new();
    let mut i: usize = 0;
    while i < segments.len()
        invariant
            i <= segments.len(),
            segments.len() == bodies.len(),
            texts == segment_texts(segment_views(segments@), string_views(bodies@)),
            text@ == joined(texts.take(i as int), blank_line()),
        decreases segments.len() - i,
    {
        let ghost before = text@;
        let ghost upto = texts.take(i + 1);
        proof {
            assert(upto.drop_last() =~= texts.take(i as int));
            assert(upto.last() == segment_text(segments[i as int]@, bodies[i as int]@));
        }
        if i > 0 {
            text.push('\n');
            text.push('\n');
        }
        let ghost start = text@;
        text.append(segments[i].header.0.as_str());
        text.push('\n');
        text.append(segments[i].header.1.as_str());
        text.push('\n');
        text.append(bodies[i].as_str());
        proof {
            assert(text@ =~= start + segment_text(segments[i as int]@, bodies[i as int]@));
            if i > 0 {
                assert(start =~= before + blank_line());
            } else {
                assert(start.len() == 0);
                assert(text@ =~= upto.last());
            }
        }
        i += 1;
    }
    proof {
        assert(texts.take(i as int) =~= texts);
    }
    Ok(text)
}

/// The blocks that are kept show what all the blocks show.
proof fn lemma_visible_keep_filled(pieces: Seq<Seq<char>>)
    ensures
        visible_of_all(keep_filled(pieces)) == visible_of_all(pieces),
    decreases pieces.len(),
{
    if pieces.len() > 0 {
        lemma_visible_keep_filled(pieces.drop_last());
        if is_blank(pieces.last()) {
            lemma_visible_blank(pieces.last());
            assert(visible_of_all(pieces.drop_last()) + visible(pieces.last()) =~= visible_of_all(
                pieces.drop_last(),
            ));
        } else {
            let kept = keep_filled(pieces.drop_last()).push(pieces.last());
            assert(kept.drop_last() =~= keep_filled(pieces.drop_last()));
            assert(kept.last() == pieces.last());
        }
    }
}

/// The block that a block's segment makes with its own body shows what the
/// block shows.
proof fn lemma_visible_block(block: Seq<char>)
    ensures
        visible(segment_text(block_segment(block), block_segment(block).body)) == visible(block),
{
    let found = lines(block);
    let segment = block_segment(block);
    let feed = line_feed();
    lemma_visible_lines(block);
    assert(is_blank(feed));
    lemma_visible_blank(feed);
    lemma_visible_add(segment.header.0, feed);
    lemma_visible_add(segment.header.0 + feed, segment.header.1);
    lemma_visible_add(segment.header.0 + feed + segment.header.1, feed);
    lemma_visible_add(segment.header.0 + feed + segment.header.1 + feed, segment.body);
    assert(visible(segment_text(segment, segment.body)) =~= visible(segment.header.0) + visible(
        segment.header.1,
    ) + visible(segment.body));
    let none = Seq::<char>::empty();
    assert(visible(none) =~= none);
    if found.len() == 0 {
    } else if found.len() == 1 {
        assert(found =~= seq![found[0]]);
        lemma_visible_of_one(found[0]);
    } else {
        let heads = seq![found[0], found[1]];
        assert(heads.drop_last() =~= seq![found[0]]);
        lemma_visible_of_one(found[0]);
        assert(visible_of_all(heads) == visible(found[0]) + visible(found[1]));
        if found.len() == 2 {
            assert(found =~= heads);
        } else {
            let tail = found.skip(2);
            assert(found =~= heads + tail);
            lemma_visible_of_all_add(heads, tail);
            lemma_visible_joined(tail, feed);
        }
    }
}

/// Caption text keeps its content on the way through its segments and back.
/// The text that the segments of `text` make with their own bodies shows what
/// `text` shows: the two hold the same characters in the same order, but for
/// whitespace, as the line breaks between blocks and lines are set anew.
pub proof fn lemma_round_trip_keeps_content(text: Seq<char>)
    ensures
        visible(reassembled(segments_of(text), bodies_of(segments_of(text)))) == visible(text),
{
    let found = segments_of(text);
    let kept = blocks(text);
    let texts = segment_texts(found, bodies_of(found));
    assert(is_blank(blank_line()));
    lemma_visible_joined(texts, blank_line());
    assert forall|i: int| 0 <= i < texts.len() implies visible(#[trigger] texts[i]) == visible(
        kept[i],
    ) by {
        lemma_visible_block(kept[i]);
    }
    lemma_visible_of_all_same(texts, kept);
    lemma_visible_keep_filled(split(text, blank_line()));
    lemma_joined_split(text, blank_line());
    lemma_visible_joined(split(text, blank_line()), blank_line());
}

/// `block` is in plain form: it holds more than whitespace, it has both heading
/// lines and a body, and its lines end in line feeds alone, the last in none.
pub open spec fn is_plain_block(block: Seq<char>) -> bool {
    &&& !is_blank(block)
    &&& lines(block).len() >= 3
    &&& joined(lines(block), line_feed()) == block
}

/// `text` is in plain form: each of the pieces between its blank lines is.
pub open spec fn is_plain(text: Seq<char>) -> bool {
    forall|i: int|
        0 <= i < split(text, blank_line()).len() ==> is_plain_block(
            #[trigger] split(text, blank_line())[i],
        )
}

/// Where no piece is blank, every piece is kept.
proof fn lemma_keep_filled_all(pieces: Seq<Seq<char>>)
    requires
        forall|i: int| 0 <= i < pieces.len() ==> !is_blank(#[trigger] pieces[i]),
    ensures
        keep_filled(pieces) == pieces,
    decreases pieces.len(),
{
    if pieces.len() > 0 {
        assert forall|i: int| 0 <= i < pieces.drop_last().len() implies !is_blank(
            #[trigger] pieces.drop_last()[i],
        ) by {
            assert(pieces.drop_last()[i] == pieces[i]);
        }
        lemma_keep_filled_all(pieces.drop_last());
        assert(!is_blank(pieces[pieces.len() - 1]));
        assert(pieces.drop_last().push(pieces.last()) =~= pieces);
    } else {
        assert(keep_filled(pieces) =~= pieces);
    }
}

/// A block in plain form is the block that its segment makes with its own body.
proof fn lemma_plain_block(block: Seq<char>)
    requires
        is_plain_block(block),
    ensures
        segment_text(block_segment(block), block_segment(block).body) == block,
{
    let found = lines(block);
    let feed = line_feed();
    let tail = found.skip(2);
    let after_first = seq![found[1]] + tail;
    assert(found =~= seq![found[0]] + after_first);
    lemma_joined_first(found[0], after_first, feed);
    lemma_joined_first(found[1], tail, feed);
    assert(found[0] + feed + (found[1] + feed + joined(tail, feed)) =~= found[0] + feed + found[1]
        + feed + joined(tail, feed));
}

/// Caption text in plain form comes back letter for letter: the text that its
/// segments make with their own bodies is the text itself.
pub proof fn lemma_round_trip_of_plain_text(text: Seq<char>)
    requires
        is_plain(text),
    ensures
        reassembled(segments_of(text), bodies_of(segments_of(text))) == text,
{
    let pieces = split(text, blank_line());
    lemma_keep_filled_all(pieces);
    let found = segments_of(text);
    let texts = segment_texts(found, bodies_of(found));
    assert forall|i: int| 0 <= i < texts.len() implies texts[i] == pieces[i] by {
        lemma_plain_block(pieces[i]);
    }
    assert(texts =~= pieces);
    lemma_joined_split(text, blank_line());
}

} // verus!
