//! Nothing of a body is lost: every line with text is in a block, and every
//! character with text is in a chunk, as far as a projection goes.

use vstd::prelude::*;

use super::blocks::{
    blocks_in_order, body_blocks, law_blocks_are_disjoint_and_ordered,
    law_segments_cover_the_block, lemma_line_end, line_end, line_is_blank, line_is_fence,
    line_is_heading, open_start, scan_from, scan_line, scan_ok, Block, ChunkKind, Open, Scan,
};
use super::laws::lemma_max_end;
use super::note::{policy_ok, ChunkingPolicy, NoteModel};
use super::pieces::{
    block_pieces, block_segments, body_piece, note_pieces, segment_pieces, title_pieces, Piece,
};
use super::projection::{indexed_pieces, omitted_from, projection_of};
use crate::text::{
    byte_off, first_text, is_whitespace, last_text, lemma_byte_off_mono, lemma_first_text,
    lemma_last_text,
};

verus! {

/// Whether a line starts at a character.
pub open spec fn is_line_start(s: Seq<char>, a: int) -> bool {
    0 <= a < s.len() && (a == 0 || s[a - 1] == '\n')
}

/// Whether a block holds the characters from `a` up to `b`.
pub open spec fn holds(block: Block, a: int, b: int) -> bool {
    block.start <= a && b <= block.end
}

/// Whether a line is in a closed block or in the open one.
spec fn is_held(scan: Scan, a: int, b: int) -> bool {
    ||| exists|i: int| 0 <= i < scan.blocks.len() && holds(#[trigger] scan.blocks[i], a, b)
    ||| scan.open !is Idle && open_start(scan.open, a) <= a
}

proof fn lemma_pushed(blocks: Seq<Block>, block: Block, a: int, b: int)
    requires
        holds(block, a, b) || exists|i: int|
            0 <= i < blocks.len() && holds(#[trigger] blocks[i], a, b),
    ensures
        exists|i: int|
            0 <= i < blocks.push(block).len() && holds(#[trigger] blocks.push(block)[i], a, b),
{
    let all = blocks.push(block);
    if holds(block, a, b) {
        assert(holds(all[blocks.len() as int], a, b));
    } else {
        let i = choose|i: int| 0 <= i < blocks.len() && holds(#[trigger] blocks[i], a, b);
        assert(holds(all[i], a, b));
    }
}

proof fn lemma_still_held(scan: Scan, s: Seq<char>, x: int, y: int, a: int, b: int)
    requires
        scan_ok(scan, x),
        0 <= x < y <= s.len(),
        a < b <= x,
        is_held(scan, a, b),
    ensures
        is_held(scan_line(scan, s, x, y), a, b),
{
    let after = scan_line(scan, s, x, y);
    match scan.open {
        Open::Code(start) => {
            let block = Block { kind: ChunkKind::Code, start, end: y };
            lemma_pushed_if(scan, block, a, b);
            if line_is_fence(s, x, y) {
                assert(after.blocks == scan.blocks.push(block));
            } else {
                assert(after == scan);
            }
        },
        Open::Paragraph(start) => {
            let closed = Block { kind: ChunkKind::Paragraph, start, end: x };
            let heading = Block { kind: ChunkKind::Heading, start: x, end: y };
            lemma_pushed_if(scan, closed, a, b);
            lemma_pushed_twice(scan, closed, heading, a, b);
            if line_is_fence(s, x, y) || line_is_blank(s, x, y) {
                assert(after.blocks == scan.blocks.push(closed));
            } else if line_is_heading(s, x, y) {
                assert(after.blocks == scan.blocks.push(closed).push(heading));
            } else {
                assert(after == scan);
            }
        },
        Open::Idle => {
            let heading = Block { kind: ChunkKind::Heading, start: x, end: y };
            lemma_pushed_if(scan, heading, a, b);
            if !line_is_fence(s, x, y) && !line_is_blank(s, x, y) && line_is_heading(s, x, y) {
                assert(after.blocks == scan.blocks.push(heading));
            } else {
                assert(after.blocks == scan.blocks);
            }
        },
    }
}

proof fn lemma_pushed_if(scan: Scan, block: Block, a: int, b: int)
    requires
        is_held(scan, a, b),
        scan.open !is Idle && open_start(scan.open, a) <= a ==> holds(block, a, b),
    ensures
        exists|i: int|
            0 <= i < scan.blocks.push(block).len() && holds(
                #[trigger] scan.blocks.push(block)[i],
                a,
                b,
            ),
{
    lemma_pushed(scan.blocks, block, a, b);
}

proof fn lemma_pushed_twice(scan: Scan, block: Block, next: Block, a: int, b: int)
    requires
        is_held(scan, a, b),
        scan.open !is Idle && open_start(scan.open, a) <= a ==> holds(block, a, b),
    ensures
        exists|i: int|
            0 <= i < scan.blocks.push(block).push(next).len() && holds(
                #[trigger] scan.blocks.push(block).push(next)[i],
                a,
                b,
            ),
{
    lemma_pushed(scan.blocks, block, a, b);
    lemma_pushed(scan.blocks.push(block), next, a, b);
}

proof fn lemma_line_is_held(scan: Scan, s: Seq<char>, x: int, y: int)
    requires
        scan_ok(scan, x),
        0 <= x < y <= s.len(),
        !line_is_blank(s, x, y),
    ensures
        is_held(scan_line(scan, s, x, y), x, y),
{
    let after = scan_line(scan, s, x, y);
    if after.blocks.len() > 0 {
        assert(after.blocks[after.blocks.len() - 1] == after.blocks.last());
    }
    lemma_first_text(s, x, y);
    match scan.open {
        Open::Code(start) => {
            let block = Block { kind: ChunkKind::Code, start, end: y };
            lemma_pushed(scan.blocks, block, x, y);
        },
        Open::Paragraph(start) => {
            let closed = Block { kind: ChunkKind::Paragraph, start, end: x };
            let block = Block { kind: ChunkKind::Heading, start: x, end: y };
            lemma_pushed(scan.blocks.push(closed), block, x, y);
        },
        Open::Idle => {
            lemma_pushed(scan.blocks, Block { kind: ChunkKind::Heading, start: x, end: y }, x, y);
        },
    }
}

proof fn lemma_scan_holds(scan: Scan, s: Seq<char>, i: int, a: int)
    requires
        scan_ok(scan, i),
        0 <= i <= s.len(),
        is_line_start(s, a),
        !line_is_blank(s, a, line_end(s, a)),
        a < i ==> line_end(s, a) <= i && is_held(scan, a, line_end(s, a)),
    ensures
        is_held(scan_from(scan, s, i), a, line_end(s, a)),
        scan_ok(scan_from(scan, s, i), s.len() as int),
    decreases s.len() - i,
{
    lemma_line_end(s, a);
    if i < s.len() {
        lemma_line_end(s, i);
        let e = line_end(s, i);
        super::blocks::lemma_scan_line_ok(scan, s, i, e);
        if a < i {
            lemma_still_held(scan, s, i, e, a, line_end(s, a));
        } else if a == i {
            lemma_line_is_held(scan, s, i, e);
        } else if e > a {
            assert(s[a - 1] != '\n');
        }
        lemma_scan_holds(scan_line(scan, s, i, e), s, e, a);
    }
}

/// Every line that is not blank lies in exactly one block of its body: one block
/// holds the whole line, and every other one ends before it or starts behind it.
pub proof fn law_every_line_is_in_one_block(s: Seq<char>, a: int)
    requires
        is_line_start(s, a),
        !line_is_blank(s, a, line_end(s, a)),
    ensures
        exists|i: int|
            0 <= i < body_blocks(s).len() && holds(
                #[trigger] body_blocks(s)[i],
                a,
                line_end(s, a),
            ) && forall|j: int|
                0 <= j < body_blocks(s).len() && j != i ==> (#[trigger] body_blocks(s)[j]).end <= a
                    || line_end(s, a) <= body_blocks(s)[j].start,
{
    let blocks = body_blocks(s);
    let i = lemma_block_of_line(s, a);
    law_blocks_are_disjoint_and_ordered(s);
    assert(holds(blocks[i], a, line_end(s, a)));
    assert forall|j: int| 0 <= j < blocks.len() && j != i implies (#[trigger] blocks[j]).end <= a
        || line_end(s, a) <= blocks[j].start by {
        if j < i {
            assert(blocks[j].end <= blocks[i].start);
        } else {
            assert(blocks[i].end <= blocks[j].start);
        }
    }
}

proof fn lemma_block_of_line(s: Seq<char>, a: int) -> (i: int)
    requires
        is_line_start(s, a),
        !line_is_blank(s, a, line_end(s, a)),
    ensures
        0 <= i < body_blocks(s).len(),
        holds(body_blocks(s)[i], a, line_end(s, a)),
{
    let start = Scan { blocks: Seq::empty(), open: Open::Idle };
    let scan = scan_from(start, s, 0);
    let b = line_end(s, a);
    lemma_line_end(s, a);
    lemma_scan_holds(start, s, 0, a);
    match scan.open {
        Open::Code(from) => {
            lemma_pushed_if(
                scan,
                Block { kind: ChunkKind::Code, start: from, end: s.len() as int },
                a,
                b,
            );
        },
        Open::Paragraph(from) => {
            lemma_pushed_if(
                scan,
                Block { kind: ChunkKind::Paragraph, start: from, end: s.len() as int },
                a,
                b,
            );
        },
        Open::Idle => {},
    }
    choose|i: int| 0 <= i < body_blocks(s).len() && holds(#[trigger] body_blocks(s)[i], a, b)
}

/// The start of the line of a character.
spec fn line_start(s: Seq<char>, k: int) -> int
    decreases k,
{
    if k <= 0 || s[k - 1] == '\n' {
        k
    } else {
        line_start(s, k - 1)
    }
}

proof fn lemma_line_start(s: Seq<char>, k: int)
    requires
        0 <= k < s.len(),
    ensures
        is_line_start(s, line_start(s, k)),
        line_start(s, k) <= k < line_end(s, line_start(s, k)),
    decreases k,
{
    let a = line_start(s, k);
    lemma_line_end(s, k);
    if k > 0 && s[k - 1] != '\n' {
        lemma_line_start(s, k - 1);
        lemma_line_end(s, a);
        if line_end(s, a) <= k {
            assert(line_end(s, a) == k);
            assert(s[k - 1] == '\n');
        }
    }
}

/// Whether a piece covers the bytes of a character.
pub open spec fn covers_char(s: Seq<char>, p: Piece, k: int) -> bool {
    p.range matches Some((lo, hi)) && lo <= byte_off(s, k) && byte_off(s, k + 1) <= hi
}

/// Whether a piece starts at the first text of its segment.
spec fn is_trimmed(s: Seq<char>, p: Piece) -> bool {
    exists|from: int, lo: int, hi: int|
        #![trigger body_piece(s, p.kind, from, lo, hi)]
        0 <= from <= lo < hi <= s.len() && p == body_piece(s, p.kind, from, lo, hi) && forall|k: int|
            from <= k < lo ==> is_whitespace(#[trigger] s[k])
}

/// Whether pieces are trimmed, lie from `start` up to `end`, and none starts
/// before one in front of it.
spec fn are_in_line(s: Seq<char>, ps: Seq<Piece>, start: int, end: int) -> bool {
    &&& forall|i: int|
        0 <= i < ps.len() ==> is_trimmed(s, #[trigger] ps[i]) && byte_off(s, start) <= ps[i].from
            <= byte_off(s, end)
    &&& forall|i: int, j: int|
        0 <= i < j < ps.len() ==> (#[trigger] ps[i]).from <= (#[trigger] ps[j]).from
}

/// Whether segments follow one another from `start` on without a gap.
spec fn are_chained(segs: Seq<(int, int)>, start: int, len: int) -> bool {
    &&& segs.len() > 0 ==> segs[0].0 == start
    &&& forall|i: int| 0 <= i < segs.len() ==> start <= (#[trigger] segs[i]).0 < segs[i].1 <= len
    &&& forall|i: int|
        #![trigger segs[i]]
        0 <= i < segs.len() - 1 ==> segs[i].0 < segs[i + 1].0 <= segs[i].1
}

proof fn lemma_segments_cover(s: Seq<char>, kind: ChunkKind, segs: Seq<(int, int)>, start: int)
    requires
        0 <= start,
        are_chained(segs, start, s.len() as int),
        segs.len() > 0,
    ensures
        are_in_line(s, segment_pieces(s, kind, segs), start, segs.last().0),
        forall|k: int|
            start <= k < segs.last().1 && !is_whitespace(#[trigger] s[k]) ==> exists|i: int|
                0 <= i < segment_pieces(s, kind, segs).len() && covers_char(
                    s,
                    #[trigger] segment_pieces(s, kind, segs)[i],
                    k,
                ),
    decreases segs.len(),
{
    let front = segs.drop_last();
    let before = segment_pieces(s, kind, front);
    let ps = segment_pieces(s, kind, segs);
    let (a, b) = segs.last();
    assert(segs[segs.len() - 1] == (a, b));
    assert(are_chained(front, start, s.len() as int)) by {
        assert forall|i: int| 0 <= i < front.len() implies start <= (#[trigger] front[i]).0
            < front[i].1 <= s.len() by {
            assert(front[i] == segs[i]);
        }
        assert forall|i: int|
            #![trigger front[i]]
            0 <= i < front.len() - 1 implies front[i].0 < front[i + 1].0 <= front[i].1 by {
            assert(front[i] == segs[i]);
            assert(front[i + 1] == segs[i + 1]);
        }
    }
    let lo = first_text(s, a, b);
    lemma_first_text(s, a, b);
    lemma_byte_off_mono(s, start, a);
    if front.len() > 0 {
        lemma_segments_cover(s, kind, front, start);
        assert(front.last() == segs[segs.len() - 2]);
        lemma_byte_off_mono(s, front.last().0, a);
    }
    if lo < b {
        lemma_last_text(s, lo, b);
        let hi = last_text(s, lo, b);
        let p = body_piece(s, kind, a, lo, hi);
        assert(p == body_piece(s, p.kind, a, lo, hi));
        assert(is_trimmed(s, p));
        assert(ps == before.push(p));
    }
    assert forall|k: int| start <= k < b && !is_whitespace(#[trigger] s[k]) implies exists|i: int|
        0 <= i < ps.len() && covers_char(s, #[trigger] ps[i], k) by {
        if k >= a {
            assert(lo <= k);
            let hi = last_text(s, lo, b);
            assert(k < hi);
            lemma_byte_off_mono(s, lo, k);
            lemma_byte_off_mono(s, k + 1, hi);
            assert(covers_char(s, ps[before.len() as int], k));
        } else {
            assert(front.len() > 0);
            let i = choose|i: int| 0 <= i < before.len() && covers_char(s, #[trigger] before[i], k);
            assert(ps[i] == before[i]);
        }
    }
}

proof fn lemma_blocks_cover(s: Seq<char>, blocks: Seq<Block>, policy: ChunkingPolicy)
    requires
        policy_ok(policy),
        blocks_in_order(blocks, s.len() as int),
    ensures
        blocks.len() > 0 ==> are_in_line(
            s,
            block_pieces(s, blocks, policy),
            0,
            blocks.last().end,
        ),
        forall|k: int, b: int|
            0 <= b < blocks.len() && (#[trigger] blocks[b]).start <= k < blocks[b].end
                && !is_whitespace(#[trigger] s[k]) ==> exists|i: int|
                0 <= i < block_pieces(s, blocks, policy).len() && covers_char(
                    s,
                    #[trigger] block_pieces(s, blocks, policy)[i],
                    k,
                ),
    decreases blocks.len(),
{
    if blocks.len() > 0 {
        let front = blocks.drop_last();
        lemma_blocks_cover(s, front, policy);
        let block = blocks.last();
        assert(block == blocks[blocks.len() - 1]);
        let segs = block_segments(s, block, policy);
        law_segments_cover_the_block(
            s,
            block.start,
            block.start,
            block.end,
            policy.max_chunk_bytes as int,
            policy.overlap_bytes as int,
        );
        lemma_segments_cover(s, block.kind, segs, block.start);
        let before = block_pieces(s, front, policy);
        let here = segment_pieces(s, block.kind, segs);
        let ps = block_pieces(s, blocks, policy);
        assert(ps == before + here);
        lemma_byte_off_mono(s, 0, block.start);
        assert(segs.last() == segs[segs.len() - 1]);
        lemma_byte_off_mono(s, segs.last().0, block.end);
        if front.len() > 0 {
            assert(front.last() == blocks[blocks.len() - 2]);
            assert(front.last().end <= block.start);
            lemma_byte_off_mono(s, front.last().end, block.start);
            lemma_byte_off_mono(s, block.start, block.end);
        } else {
            assert(before.len() == 0);
        }
        assert(are_in_line(s, ps, 0, block.end)) by {
            assert forall|i: int| 0 <= i < ps.len() implies is_trimmed(s, #[trigger] ps[i])
                && byte_off(s, 0) <= ps[i].from <= byte_off(s, block.end) by {
                if i < before.len() {
                    assert(ps[i] == before[i]);
                } else {
                    assert(ps[i] == here[i - before.len()]);
                }
            }
            assert forall|i: int, j: int| 0 <= i < j < ps.len() implies (#[trigger] ps[i]).from <= (
            #[trigger] ps[j]).from by {
                if j < before.len() {
                    assert(ps[i] == before[i] && ps[j] == before[j]);
                } else if i < before.len() {
                    assert(ps[i] == before[i] && ps[j] == here[j - before.len()]);
                } else {
                    assert(ps[i] == here[i - before.len()] && ps[j] == here[j - before.len()]);
                }
            }
        }
        assert forall|k: int, b: int|
            0 <= b < blocks.len() && (#[trigger] blocks[b]).start <= k < blocks[b].end
                && !is_whitespace(#[trigger] s[k]) implies exists|i: int|
            0 <= i < ps.len() && covers_char(s, #[trigger] ps[i], k) by {
            if b < front.len() {
                assert(front[b] == blocks[b]);
                let i = choose|i: int|
                    0 <= i < before.len() && covers_char(s, #[trigger] before[i], k);
                assert(ps[i] == before[i]);
            } else {
                let i = choose|i: int| 0 <= i < here.len() && covers_char(s, #[trigger] here[i], k);
                assert(ps[before.len() + i] == here[i]);
            }
        }
    }
}

/// A character of a body that has text is in a piece of the body.
proof fn lemma_char_is_in_a_piece(s: Seq<char>, policy: ChunkingPolicy, k: int) -> (i: int)
    requires
        policy_ok(policy),
        0 <= k < s.len(),
        !is_whitespace(s[k]),
    ensures
        0 <= i < block_pieces(s, body_blocks(s), policy).len(),
        covers_char(s, block_pieces(s, body_blocks(s), policy)[i], k),
        are_in_line(s, block_pieces(s, body_blocks(s), policy), 0, s.len() as int),
{
    let blocks = body_blocks(s);
    let a = line_start(s, k);
    let b = line_end(s, a);
    lemma_line_start(s, k);
    lemma_line_end(s, a);
    lemma_first_text(s, a, b);
    let at = lemma_block_of_line(s, a);
    law_blocks_are_disjoint_and_ordered(s);
    lemma_blocks_cover(s, blocks, policy);
    assert(blocks[at].start <= k < blocks[at].end);
    assert(blocks.last() == blocks[blocks.len() - 1]);
    lemma_byte_off_mono(s, blocks.last().end, s.len() as int);
    let ps = block_pieces(s, blocks, policy);
    choose|i: int| 0 <= i < ps.len() && covers_char(s, #[trigger] ps[i], k)
}

/// A piece starts no later than a character that it covers.
proof fn lemma_covered_from(s: Seq<char>, p: Piece, k: int)
    requires
        is_trimmed(s, p),
        covers_char(s, p, k),
    ensures
        p.from <= byte_off(s, k),
{
    let (f, lo, hi) = choose|f: int, lo: int, hi: int|
        #![trigger body_piece(s, p.kind, f, lo, hi)]
        0 <= f <= lo < hi <= s.len() && p == body_piece(s, p.kind, f, lo, hi) && forall|k: int|
            f <= k < lo ==> is_whitespace(#[trigger] s[k]);
    lemma_byte_off_mono(s, f, lo);
}

/// A piece covers every character with text from its start up to its end.
proof fn lemma_piece_covers(s: Seq<char>, x: Piece, k: int, end: nat)
    requires
        is_trimmed(s, x),
        x.range matches Some((lo, hi)) && hi == end,
        0 <= k < s.len(),
        !is_whitespace(s[k]),
        x.from <= byte_off(s, k) < end,
    ensures
        covers_char(s, x, k),
{
    let (g, p, q) = choose|g: int, p: int, q: int|
        #![trigger body_piece(s, x.kind, g, p, q)]
        0 <= g <= p < q <= s.len() && x == body_piece(s, x.kind, g, p, q) && forall|k: int|
            g <= k < p ==> is_whitespace(#[trigger] s[k]);
    if k < g {
        lemma_byte_off_mono(s, k, g);
    }
    assert(p <= k);
    if k >= q {
        lemma_byte_off_mono(s, q, k);
    }
    lemma_byte_off_mono(s, p, k);
    lemma_byte_off_mono(s, k + 1, q);
}

/// A complete projection covers every character of the body that is not white
/// space, and a partial one every such character before the byte from which on
/// it leaves the body out.
pub proof fn law_projection_covers_the_body(note: NoteModel, policy: ChunkingPolicy, k: int)
    requires
        policy_ok(policy),
        0 <= k < note.body.len(),
        !is_whitespace(note.body[k]),
        omitted_from(note, policy) matches Some(end) ==> byte_off(note.body, k) < end,
    ensures
        exists|i: int|
            0 <= i < projection_of(note, policy).chunks.len() && ((#[trigger] projection_of(
                note,
                policy,
            ).chunks[i]).body_range matches Some((lo, hi)) && lo <= byte_off(note.body, k)
                && byte_off(note.body, k + 1) <= hi),
{
    let s = note.body;
    let head = title_pieces(note.title);
    let tail = block_pieces(s, body_blocks(s), policy);
    let all = note_pieces(note, policy);
    let some = indexed_pieces(note, policy);
    let at = lemma_char_is_in_a_piece(s, policy, k);
    let j = head.len() + at;
    assert(all[j] == tail[at]);
    if j < some.len() {
        assert(some[j] == all[j]);
        assert(projection_of(note, policy).chunks[j].body_range == some[j].range);
    } else {
        let n = policy.max_chunks_per_note as int;
        let end = omitted_from(note, policy)->0;
        lemma_max_end(all, n, all[n].from);
        assert(is_trimmed(s, tail[at]));
        lemma_covered_from(s, tail[at], k);
        assert(n >= head.len());
        assert(all[n] == tail[n - head.len()]);
        assert(all[n].from <= tail[at].from);
        let m = choose|m: int|
            0 <= m < n && (#[trigger] all[m].range matches Some((p, q)) && q == end);
        if m < head.len() {
            assert(all[m] == head[m]);
        }
        let x = tail[m - head.len()];
        assert(all[m] == x);
        assert(is_trimmed(s, x));
        assert(x.from <= all[n].from);
        lemma_piece_covers(s, x, k, end);
        assert(some[m] == all[m]);
        assert(projection_of(note, policy).chunks[m].body_range == some[m].range);
    }
}

} // verus!
