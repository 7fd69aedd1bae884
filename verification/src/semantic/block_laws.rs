//! What makes a block of a body, and where a long block is cut.

use vstd::prelude::*;

use super::blocks::{
    body_blocks, floor_index, flushed, is_break, last_break, lemma_floor_index, lemma_last_break,
    lemma_line_end, lemma_segment_bounds, line_end, line_is_blank, line_is_fence, line_is_heading,
    scan_from, scan_line, segment_end, segment_next, segments, Block, ChunkKind, Open, Scan,
};
use super::note::{ChunkingPolicy, NoteModel};
use super::pieces::{block_pieces, note_pieces, segment_pieces};
use super::projection::indexed_pieces;
use crate::text::{
    byte_off, first_text, is_whitespace, last_text, law_trim_takes_white_space_off,
    lemma_first_text, lemma_last_text, trim,
};

verus! {

/// Whether a line starts at a character.
pub open spec fn starts_line(s: Seq<char>, a: int) -> bool {
    0 <= a < s.len() && (a == 0 || s[a - 1] == '\n')
}

/// Whether only white space stands in a line before a character that is none.
pub open spec fn is_first_of_line(s: Seq<char>, a: int, k: int) -> bool {
    &&& a <= k < line_end(s, a)
    &&& !is_whitespace(s[k])
    &&& forall|j: int| a <= j < k ==> is_whitespace(#[trigger] s[j])
}

/// Whether the text of the line at `a` starts with three backticks or tildes.
pub open spec fn is_fence(s: Seq<char>, a: int) -> bool {
    exists|k: int| #[trigger]
        is_first_of_line(s, a, k) && k + 3 <= line_end(s, a) && (s[k] == '`' && s[k + 1] == '`'
            && s[k + 2] == '`' || s[k] == '~' && s[k + 1] == '~' && s[k + 2] == '~')
}

/// Whether the text of the line at `a` starts with a number sign.
pub open spec fn is_heading(s: Seq<char>, a: int) -> bool {
    exists|k: int| #[trigger] is_first_of_line(s, a, k) && s[k] == '#'
}

/// Whether the line at `a` is white space.
pub open spec fn is_blank(s: Seq<char>, a: int) -> bool {
    forall|k: int| a <= k < line_end(s, a) ==> is_whitespace(#[trigger] s[k])
}

proof fn lemma_line(s: Seq<char>, a: int)
    requires
        0 <= a < s.len(),
    ensures
        a < line_end(s, a) <= s.len(),
        line_is_blank(s, a, line_end(s, a)) <==> is_blank(s, a),
        line_is_fence(s, a, line_end(s, a)) <==> is_fence(s, a),
        line_is_heading(s, a, line_end(s, a)) <==> is_heading(s, a),
{
    let b = line_end(s, a);
    lemma_line_end(s, a);
    lemma_first_text(s, a, b);
    let lo = first_text(s, a, b);
    if lo < b {
        assert(is_first_of_line(s, a, lo));
        assert(!is_blank(s, a)) by {
            assert(!is_whitespace(s[lo]));
        }
    }
    if is_fence(s, a) {
        let k = choose|k: int| #[trigger]
            is_first_of_line(s, a, k) && k + 3 <= line_end(s, a) && (s[k] == '`' && s[k + 1] == '`'
                && s[k + 2] == '`' || s[k] == '~' && s[k + 1] == '~' && s[k + 2] == '~');
        lemma_first_is(s, a, k, lo);
    }
    if is_heading(s, a) {
        let k = choose|k: int| #[trigger] is_first_of_line(s, a, k) && s[k] == '#';
        lemma_first_is(s, a, k, lo);
    }
}

proof fn lemma_first_is(s: Seq<char>, a: int, k: int, lo: int)
    requires
        is_first_of_line(s, a, k),
        a <= lo <= line_end(s, a),
        lo < line_end(s, a) ==> !is_whitespace(s[lo]),
        forall|j: int| a <= j < lo ==> is_whitespace(#[trigger] s[j]),
    ensures
        k == lo,
{
    if k < lo {
        assert(is_whitespace(s[k]));
    }
    if lo < k {
        assert(is_whitespace(s[lo]));
    }
}

/// Whether the lines from `a` to before `b` are lines of a paragraph: none is white
/// space, a heading or a fence.
pub open spec fn are_plain(s: Seq<char>, a: int, b: int) -> bool {
    forall|k: int|
        #![trigger starts_line(s, k)]
        a <= k < b && starts_line(s, k) ==> !is_blank(s, k) && !is_heading(s, k) && !is_fence(s, k)
}

/// Whether no fence starts from `a` to before `b`.
pub open spec fn holds_no_fence(s: Seq<char>, a: int, b: int) -> bool {
    forall|k: int|
        #![trigger starts_line(s, k)]
        a <= k < b && starts_line(s, k) ==> !is_fence(s, k)
}

/// Whether a block is what its kind says. A heading is one line. A paragraph holds
/// plain lines. Code starts with a fence and ends behind the next one, or with the
/// body where there is none.
pub open spec fn is_right(s: Seq<char>, b: Block) -> bool {
    &&& starts_line(s, b.start)
    &&& match b.kind {
        ChunkKind::Title => false,
        ChunkKind::Heading => is_heading(s, b.start) && b.end == line_end(s, b.start),
        ChunkKind::Paragraph => are_plain(s, b.start, b.end),
        ChunkKind::Code => is_fence(s, b.start) && (b.end == s.len() && holds_no_fence(
            s,
            b.start + 1,
            s.len() as int,
        ) || exists|k: int|
            b.start < k && #[trigger] starts_line(s, k) && is_fence(s, k) && b.end == line_end(s, k)
                && holds_no_fence(s, b.start + 1, k)),
    }
}

/// Whether a scan up to `i` is right.
spec fn scan_right(s: Seq<char>, scan: Scan, i: int) -> bool {
    &&& i == s.len() || starts_line(s, i)
    &&& forall|k: int| 0 <= k < scan.blocks.len() ==> is_right(s, #[trigger] scan.blocks[k])
    &&& match scan.open {
        Open::Idle => true,
        Open::Paragraph(start) => starts_line(s, start) && start < i && are_plain(s, start, i),
        Open::Code(start) => starts_line(s, start) && start < i && is_fence(s, start)
            && holds_no_fence(s, start + 1, i),
    }
    &&& paragraphs_part(scan.blocks)
    &&& scan.blocks.len() > 0 && scan.blocks.last().kind == ChunkKind::Paragraph ==> match scan.open {
        Open::Idle => scan.blocks.last().end < i,
        Open::Paragraph(start) => scan.blocks.last().end < start,
        Open::Code(start) => true,
    }
}

/// Whether no paragraph stands right behind another.
pub open spec fn paragraphs_part(blocks: Seq<Block>) -> bool {
    forall|i: int, j: int|
        0 <= i < j < blocks.len() && j == i + 1 && (#[trigger] blocks[i]).kind
            == ChunkKind::Paragraph && (#[trigger] blocks[j]).kind == ChunkKind::Paragraph
            ==> blocks[i].end < blocks[j].start
}

proof fn lemma_next_line(s: Seq<char>, a: int)
    requires
        starts_line(s, a),
    ensures
        line_end(s, a) == s.len() || starts_line(s, line_end(s, a)),
        forall|k: int| a < k < line_end(s, a) ==> !#[trigger] starts_line(s, k),
{
    lemma_line_end(s, a);
    assert forall|k: int| a < k < line_end(s, a) implies !#[trigger] starts_line(s, k) by {
        if starts_line(s, k) {
            assert(s[k - 1] != '\n');
        }
    }
}

proof fn lemma_flushed_right(s: Seq<char>, scan: Scan, a: int)
    requires
        scan_right(s, scan, a),
        starts_line(s, a),
        scan.open !is Code,
    ensures
        ({
            let out = flushed(scan, a);
            &&& forall|k: int| 0 <= k < out.len() ==> is_right(s, #[trigger] out[k])
            &&& paragraphs_part(out)
            &&& out.len() > 0 && out.last().kind == ChunkKind::Paragraph ==> out.last().end <= a
        }),
{
    let out = flushed(scan, a);
    assert forall|k: int| 0 <= k < out.len() implies is_right(s, #[trigger] out[k]) by {
        if k < scan.blocks.len() {
            assert(out[k] == scan.blocks[k]);
        }
    }
    assert forall|i: int, j: int|
        0 <= i < j < out.len() && j == i + 1 && (#[trigger] out[i]).kind == ChunkKind::Paragraph
            && (#[trigger] out[j]).kind == ChunkKind::Paragraph implies out[i].end
        < out[j].start by {
        assert(out[i] == scan.blocks[i]);
        if j < scan.blocks.len() {
            assert(out[j] == scan.blocks[j]);
        } else {
            assert(scan.blocks.last() == scan.blocks[i]);
        }
    }
}

proof fn lemma_pushed(s: Seq<char>, blocks: Seq<Block>, b: Block)
    requires
        forall|k: int| 0 <= k < blocks.len() ==> is_right(s, #[trigger] blocks[k]),
        paragraphs_part(blocks),
        is_right(s, b),
        b.kind != ChunkKind::Paragraph,
    ensures
        forall|k: int| 0 <= k < blocks.push(b).len() ==> is_right(s, #[trigger] blocks.push(b)[k]),
        paragraphs_part(blocks.push(b)),
{
    let out = blocks.push(b);
    assert forall|k: int| 0 <= k < out.len() implies is_right(s, #[trigger] out[k]) by {
        if k < blocks.len() {
            assert(out[k] == blocks[k]);
        }
    }
    assert forall|i: int, j: int|
        0 <= i < j < out.len() && j == i + 1 && (#[trigger] out[i]).kind == ChunkKind::Paragraph
            && (#[trigger] out[j]).kind == ChunkKind::Paragraph implies out[i].end
        < out[j].start by {
        assert(out[i] == blocks[i]);
        assert(out[j] == blocks[j]);
    }
}

proof fn lemma_scan_line_right(s: Seq<char>, scan: Scan, a: int)
    requires
        scan_right(s, scan, a),
        starts_line(s, a),
    ensures
        scan_right(s, scan_line(scan, s, a, line_end(s, a)), line_end(s, a)),
{
    let b = line_end(s, a);
    let next = scan_line(scan, s, a, b);
    lemma_line(s, a);
    lemma_next_line(s, a);
    match scan.open {
        Open::Code(start) => {
            if is_fence(s, a) {
                let block = Block { kind: ChunkKind::Code, start, end: b };
                assert(starts_line(s, a) && is_fence(s, a) && block.end == line_end(s, a));
                assert(is_right(s, block));
                lemma_pushed(s, scan.blocks, block);
                assert(next.blocks.last() == block);
            } else {
                assert(holds_no_fence(s, start + 1, b));
            }
        },
        _ => {
            lemma_flushed_right(s, scan, a);
            if is_fence(s, a) {
                assert(holds_no_fence(s, a + 1, b));
            } else if is_blank(s, a) {
            } else if is_heading(s, a) {
                let block = Block { kind: ChunkKind::Heading, start: a, end: b };
                assert(is_right(s, block));
                lemma_pushed(s, flushed(scan, a), block);
                assert(next.blocks.last() == block);
            } else {
                match scan.open {
                    Open::Paragraph(start) => {
                        assert(are_plain(s, start, b));
                    },
                    _ => {
                        assert(are_plain(s, a, b));
                    },
                }
            }
        },
    }
}

proof fn lemma_scan_right(s: Seq<char>, scan: Scan, i: int)
    requires
        scan_right(s, scan, i),
        0 <= i <= s.len(),
    ensures
        scan_right(s, scan_from(scan, s, i), s.len() as int),
    decreases s.len() - i,
{
    if i < s.len() {
        lemma_line_end(s, i);
        lemma_scan_line_right(s, scan, i);
        lemma_scan_right(s, scan_line(scan, s, i, line_end(s, i)), line_end(s, i));
    }
}

/// Every block of a body is what its kind says: a heading is one line, a paragraph
/// holds lines that are neither white space nor headings nor fences, and code reaches
/// from a fence to the next. No paragraph stands right behind another: a line that is
/// none of a paragraph's parts them.
pub proof fn law_blocks_are_what_their_kinds_say(s: Seq<char>)
    ensures
        forall|k: int| 0 <= k < body_blocks(s).len() ==> is_right(s, #[trigger] body_blocks(s)[k]),
        paragraphs_part(body_blocks(s)),
{
    let start = Scan { blocks: Seq::empty(), open: Open::Idle };
    lemma_scan_right(s, start, 0);
    let scan = scan_from(start, s, 0);
    let n = s.len() as int;
    let out = body_blocks(s);
    match scan.open {
        Open::Code(at) => {
            let block = Block { kind: ChunkKind::Code, start: at, end: n };
            assert(is_right(s, block));
            lemma_pushed(s, scan.blocks, block);
        },
        Open::Paragraph(at) => {
            assert forall|k: int| 0 <= k < out.len() implies is_right(s, #[trigger] out[k]) by {
                if k < scan.blocks.len() {
                    assert(out[k] == scan.blocks[k]);
                }
            }
            assert forall|i: int, j: int|
                0 <= i < j < out.len() && j == i + 1 && (#[trigger] out[i]).kind
                    == ChunkKind::Paragraph && (#[trigger] out[j]).kind
                    == ChunkKind::Paragraph implies out[i].end < out[j].start by {
                assert(out[i] == scan.blocks[i]);
                if j < scan.blocks.len() {
                    assert(out[j] == scan.blocks[j]);
                } else {
                    assert(scan.blocks.last() == scan.blocks[i]);
                }
            }
        },
        Open::Idle => {},
    }
}

/// A segment ends behind a break where there is one among the characters that fit,
/// behind the last of them, and else as far as characters fit.
pub proof fn law_segment_ends_behind_the_last_break(
    s: Seq<char>,
    start: int,
    b: int,
    max_bytes: int,
)
    requires
        0 <= start < b <= s.len(),
        0 < max_bytes,
    ensures
        ({
            let end = segment_end(s, start, b, max_bytes);
            &&& forall|k: int|
                end <= k < b && byte_off(s, k + 1) - byte_off(s, start) <= max_bytes && end > start
                    + 1 ==> !is_break(#[trigger] s[k])
            &&& (exists|k: int|
                start <= k < b && byte_off(s, k + 1) - byte_off(s, start) <= max_bytes && is_break(
                    #[trigger] s[k],
                )) ==> is_break(s[end - 1])
            &&& !is_break(s[end - 1]) && end > start + 1 ==> end == b || byte_off(s, end + 1)
                - byte_off(s, start) > max_bytes
        }),
{
    let limit = byte_off(s, start) + max_bytes;
    let hard = floor_index(s, start, b, limit);
    lemma_floor_index(s, start, b, limit);
    lemma_last_break(s, start, hard);
    let soft = last_break(s, start, hard);
    let end = segment_end(s, start, b, max_bytes);
    assert forall|k: int|
        end <= k < b && byte_off(s, k + 1) - byte_off(s, start) <= max_bytes && end > start
            + 1 implies !is_break(#[trigger] s[k]) by {
        if k + 1 > hard {
            assert(byte_off(s, k + 1) > limit);
        }
    }
    if exists|k: int|
        start <= k < b && byte_off(s, k + 1) - byte_off(s, start) <= max_bytes && is_break(
            #[trigger] s[k],
        ) {
        let k = choose|k: int|
            start <= k < b && byte_off(s, k + 1) - byte_off(s, start) <= max_bytes && is_break(
                #[trigger] s[k],
            );
        if k + 1 > hard {
            assert(byte_off(s, k + 1) > limit);
        }
        if k >= soft {
            assert(!is_break(s[k]));
        }
    }
    if end < b && end == hard {
        assert(byte_off(s, end + 1) > limit);
    }
}

/// The next segment starts as many bytes before the end of the one before as they are
/// to overlap, at a whole character, and right behind it where that would be no later
/// than its start.
pub proof fn law_segments_overlap(s: Seq<char>, a: int, start: int, end: int, overlap: int)
    requires
        0 <= a <= start < end <= s.len(),
        0 <= overlap,
    ensures
        ({
            let next = segment_next(s, a, start, end, overlap);
            ||| next == end && forall|k: int|
                start < k <= end ==> #[trigger] byte_off(s, k) > byte_off(s, end) - overlap
            ||| start < next <= end && byte_off(s, next) <= byte_off(s, end) - overlap && (next
                == end || byte_off(s, next + 1) > byte_off(s, end) - overlap)
        }),
{
    lemma_floor_index(s, a, end, byte_off(s, end) - overlap);
}

/// The first segment of a block starts where the block does, and each next one where
/// the overlap says.
pub proof fn law_segments_follow_each_other(
    s: Seq<char>,
    a: int,
    start: int,
    b: int,
    max_bytes: int,
    overlap: int,
)
    requires
        0 <= a <= start < b <= s.len(),
        0 < max_bytes,
        0 <= overlap,
    ensures
        ({
            let all = segments(s, a, start, b, max_bytes, overlap);
            &&& all.len() > 0
            &&& all[0] == (start, segment_end(s, start, b, max_bytes))
            &&& all.len() > 1 ==> all[1].0 == segment_next(s, a, start, all[0].1, overlap)
            &&& all.len() == 1 <==> all[0].1 == b
        }),
{
    lemma_segment_bounds(s, a, start, b, max_bytes, overlap);
    let end = segment_end(s, start, b, max_bytes);
    if end < b {
        let next = segment_next(s, a, start, end, overlap);
        lemma_segment_bounds(s, a, next, b, max_bytes, overlap);
        let rest = segments(s, a, next, b, max_bytes, overlap);
        assert(rest[0].0 == next);
    }
}

/// The pieces of blocks come block after block.
pub proof fn law_pieces_come_block_after_block(
    s: Seq<char>,
    a: Seq<Block>,
    b: Seq<Block>,
    policy: ChunkingPolicy,
)
    ensures
        block_pieces(s, a + b, policy) == block_pieces(s, a, policy) + block_pieces(s, b, policy),
    decreases b.len(),
{
    if b.len() == 0 {
        assert(a + b =~= a);
        assert(block_pieces(s, a, policy) + block_pieces(s, b, policy) =~= block_pieces(
            s,
            a,
            policy,
        ));
    } else {
        assert((a + b).drop_last() =~= a + b.drop_last());
        assert((a + b).last() == b.last());
        law_pieces_come_block_after_block(s, a, b.drop_last(), policy);
        assert(block_pieces(s, a + b, policy) =~= block_pieces(s, a, policy) + block_pieces(
            s,
            b,
            policy,
        ));
    }
}

/// The pieces of segments come segment after segment. Each is the text of its segment
/// without the white space at its ends, and none where that is all of it.
pub proof fn law_segment_gives_its_trimmed_text(
    s: Seq<char>,
    kind: ChunkKind,
    segs: Seq<(int, int)>,
    a: int,
    b: int,
)
    requires
        0 <= a < b <= s.len(),
    ensures
        segment_pieces(s, kind, Seq::empty()).len() == 0,
        trim(s.subrange(a, b)).len() == 0 ==> segment_pieces(s, kind, segs.push((a, b)))
            == segment_pieces(s, kind, segs),
        trim(s.subrange(a, b)).len() > 0 ==> ({
            let all = segment_pieces(s, kind, segs.push((a, b)));
            &&& all.len() == segment_pieces(s, kind, segs).len() + 1
            &&& all.drop_last() == segment_pieces(s, kind, segs)
            &&& all.last().kind == kind
            &&& all.last().text == trim(s.subrange(a, b))
        }),
{
    let t = s.subrange(a, b);
    assert(segs.push((a, b)).drop_last() =~= segs);
    lemma_first_text(s, a, b);
    let lo = first_text(s, a, b);
    lemma_last_text(s, lo, b);
    let hi = last_text(s, lo, b);
    let before = s.subrange(a, lo);
    let mid = s.subrange(lo, hi);
    let after = s.subrange(hi, b);
    assert(before + mid + after =~= t);
    assert forall|i: int| 0 <= i < before.len() implies is_whitespace(#[trigger] before[i]) by {
        assert(before[i] == s[a + i]);
    }
    assert forall|i: int| 0 <= i < after.len() implies is_whitespace(#[trigger] after[i]) by {
        assert(after[i] == s[hi + i]);
    }
    if lo < b {
        if hi == lo {
            assert(is_whitespace(s[lo]));
        }
    }
    law_trim_takes_white_space_off(before, mid, after);
    let all = segment_pieces(s, kind, segs.push((a, b)));
    if lo < b {
        assert(all.drop_last() =~= segment_pieces(s, kind, segs));
    }
}

/// The first piece of a note is its title without the white space at its ends, unless
/// that is all of it; behind it come the pieces of the body.
pub proof fn law_title_is_the_first_piece(note: NoteModel, policy: ChunkingPolicy)
    ensures
        trim(note.title).len() > 0 ==> note_pieces(note, policy)[0].text == trim(note.title)
            && note_pieces(note, policy)[0].kind == ChunkKind::Title && note_pieces(
            note,
            policy,
        ).skip(1) == block_pieces(note.body, body_blocks(note.body), policy),
        trim(note.title).len() == 0 ==> note_pieces(note, policy) == block_pieces(
            note.body,
            body_blocks(note.body),
            policy,
        ),
{
    let body = block_pieces(note.body, body_blocks(note.body), policy);
    let all = note_pieces(note, policy);
    if trim(note.title).len() > 0 {
        assert(all.skip(1) =~= body);
    } else {
        assert(all =~= body);
    }
}

/// As many pieces as the policy allows are indexed, the first ones.
pub proof fn law_first_pieces_are_indexed(note: NoteModel, policy: ChunkingPolicy)
    ensures
        ({
            let all = note_pieces(note, policy);
            let out = indexed_pieces(note, policy);
            &&& out.len() == if policy.max_chunks_per_note < all.len() {
                policy.max_chunks_per_note as nat
            } else {
                all.len()
            }
            &&& forall|i: int| 0 <= i < out.len() ==> #[trigger] out[i] == all[i]
        }),
{
}

} // verus!
