//! The pieces of a note, in the order in which they become chunks.

use vstd::prelude::*;

use super::blocks::{
    are_offsets, block_views, blocks_in_order, body_blocks, law_blocks_are_disjoint_and_ordered,
    markdown_blocks, range_views, segments, split_bounded, Block, ChunkKind, LocalRange,
    MarkdownBlock,
};
use super::note::{policy_ok, ChunkingPolicy, NoteInput, NoteModel};
use crate::text::{
    byte_off, char_offsets, chars_of, first_text, last_text, lemma_first_text, lemma_last_text,
    lemma_byte_off_mono, string_of, trim, trim_range, trim_string,
};

verus! {

/// A range of bytes of a body.
#[derive(Clone, Copy, Debug, PartialEq, Eq, Structural)]
pub struct BodyByteRange {
    pub start_byte: usize,
    pub end_byte: usize,
}

pub open spec fn range_view(range: Option<BodyByteRange>) -> Option<(nat, nat)> {
    match range {
        Some(r) => Some((r.start_byte as nat, r.end_byte as nat)),
        None => None,
    }
}

/// A trimmed piece of a note that is not empty: the title, or a segment of a
/// body block with its bytes and the byte at which the segment starts.
#[verifier::ext_equal]
pub struct Piece {
    pub kind: ChunkKind,
    pub text: Seq<char>,
    pub range: Option<(nat, nat)>,
    pub from: nat,
}

/// The piece of a segment that starts at `from`, trimmed to `lo` and `hi`.
pub open spec fn body_piece(s: Seq<char>, kind: ChunkKind, from: int, lo: int, hi: int) -> Piece {
    Piece {
        kind,
        text: s.subrange(lo, hi),
        range: Some((byte_off(s, lo), byte_off(s, hi))),
        from: byte_off(s, from),
    }
}

/// The pieces of segments; one that is all white space gives none.
pub open spec fn segment_pieces(s: Seq<char>, kind: ChunkKind, segs: Seq<(int, int)>) -> Seq<Piece>
    decreases segs.len(),
{
    if segs.len() == 0 {
        Seq::empty()
    } else {
        let before = segment_pieces(s, kind, segs.drop_last());
        let (a, b) = segs.last();
        let lo = first_text(s, a, b);
        if lo < b {
            before.push(body_piece(s, kind, a, lo, last_text(s, lo, b)))
        } else {
            before
        }
    }
}

/// The segments of one block under a policy.
pub open spec fn block_segments(s: Seq<char>, block: Block, policy: ChunkingPolicy) -> Seq<
    (int, int),
> {
    segments(
        s,
        block.start,
        block.start,
        block.end,
        policy.max_chunk_bytes as int,
        policy.overlap_bytes as int,
    )
}

/// The pieces of blocks, block after block.
pub open spec fn block_pieces(s: Seq<char>, blocks: Seq<Block>, policy: ChunkingPolicy) -> Seq<
    Piece,
>
    decreases blocks.len(),
{
    if blocks.len() == 0 {
        Seq::empty()
    } else {
        block_pieces(s, blocks.drop_last(), policy) + segment_pieces(
            s,
            blocks.last().kind,
            block_segments(s, blocks.last(), policy),
        )
    }
}

/// The piece of a title, unless it is blank.
pub open spec fn title_pieces(title: Seq<char>) -> Seq<Piece> {
    if trim(title).len() == 0 {
        Seq::empty()
    } else {
        seq![Piece { kind: ChunkKind::Title, text: trim(title), range: None, from: 0 }]
    }
}

/// All pieces of a note: the title, then the body in order.
pub open spec fn note_pieces(note: NoteModel, policy: ChunkingPolicy) -> Seq<Piece> {
    title_pieces(note.title) + block_pieces(note.body, body_blocks(note.body), policy)
}

/// A piece of a note.
pub struct NotePiece {
    pub kind: ChunkKind,
    pub text: String,
    pub range: Option<BodyByteRange>,
    pub from: usize,
}

impl View for NotePiece {
    type V = Piece;

    open spec fn view(&self) -> Piece {
        Piece {
            kind: self.kind,
            text: self.text@,
            range: range_view(self.range),
            from: self.from as nat,
        }
    }
}

pub open spec fn piece_views(pieces: Seq<NotePiece>) -> Seq<Piece> {
    pieces.map_values(|p: NotePiece| p@)
}

/// What holds of every piece of a body: it is a part of the body between the
/// two bytes of its range, it is not empty, and its segment starts no later.
pub open spec fn is_body_piece(s: Seq<char>, p: Piece) -> bool {
    exists|from: int, lo: int, hi: int|
        #![trigger body_piece(s, p.kind, from, lo, hi)]
        0 <= from <= lo < hi <= s.len() && p == body_piece(s, p.kind, from, lo, hi)
}

proof fn lemma_segment_pieces(s: Seq<char>, kind: ChunkKind, segs: Seq<(int, int)>)
    requires
        forall|i: int| 0 <= i < segs.len() ==> 0 <= (#[trigger] segs[i]).0 <= segs[i].1 <= s.len(),
    ensures
        forall|i: int|
            0 <= i < segment_pieces(s, kind, segs).len() ==> is_body_piece(
                s,
                #[trigger] segment_pieces(s, kind, segs)[i],
            ) && segment_pieces(s, kind, segs)[i].kind == kind,
    decreases segs.len(),
{
    if segs.len() > 0 {
        lemma_segment_pieces(s, kind, segs.drop_last());
        let (a, b) = segs.last();
        lemma_first_text(s, a, b);
        let lo = first_text(s, a, b);
        if lo < b {
            lemma_last_text(s, lo, b);
            let hi = last_text(s, lo, b);
            let p = body_piece(s, kind, a, lo, hi);
            assert(p == body_piece(s, p.kind, a, lo, hi));
            assert(is_body_piece(s, p));
        }
    }
}

pub proof fn lemma_block_pieces(s: Seq<char>, blocks: Seq<Block>, policy: ChunkingPolicy)
    requires
        policy_ok(policy),
        blocks_in_order(blocks, s.len() as int),
    ensures
        forall|i: int|
            0 <= i < block_pieces(s, blocks, policy).len() ==> is_body_piece(
                s,
                #[trigger] block_pieces(s, blocks, policy)[i],
            ),
    decreases blocks.len(),
{
    if blocks.len() > 0 {
        lemma_block_pieces(s, blocks.drop_last(), policy);
        let block = blocks.last();
        let segs = block_segments(s, block, policy);
        super::blocks::law_segments_cover_the_block(
            s,
            block.start,
            block.start,
            block.end,
            policy.max_chunk_bytes as int,
            policy.overlap_bytes as int,
        );
        lemma_segment_pieces(s, block.kind, segs);
        let before = block_pieces(s, blocks.drop_last(), policy);
        let here = segment_pieces(s, block.kind, segs);
        let all = block_pieces(s, blocks, policy);
        assert(all == before + here);
        assert forall|i: int| 0 <= i < all.len() implies is_body_piece(s, #[trigger] all[i]) by {
            if i < before.len() {
                assert(all[i] == before[i]);
            } else {
                assert(all[i] == here[i - before.len()]);
            }
        }
    }
}

/// The kind of a piece is the kind of one of the blocks, and it lies within
/// that block.
pub proof fn lemma_piece_kinds(s: Seq<char>, blocks: Seq<Block>, policy: ChunkingPolicy)
    requires
        policy_ok(policy),
        blocks_in_order(blocks, s.len() as int),
    ensures
        forall|i: int|
            0 <= i < block_pieces(s, blocks, policy).len() ==> exists|b: int|
                0 <= b < blocks.len() && (#[trigger] block_pieces(s, blocks, policy)[i]).kind == (
                #[trigger] blocks[b]).kind,
    decreases blocks.len(),
{
    if blocks.len() > 0 {
        let front = blocks.drop_last();
        lemma_piece_kinds(s, front, policy);
        let block = blocks.last();
        let segs = block_segments(s, block, policy);
        super::blocks::law_segments_cover_the_block(
            s,
            block.start,
            block.start,
            block.end,
            policy.max_chunk_bytes as int,
            policy.overlap_bytes as int,
        );
        lemma_segment_pieces(s, block.kind, segs);
        let before = block_pieces(s, front, policy);
        let here = segment_pieces(s, block.kind, segs);
        let all = block_pieces(s, blocks, policy);
        assert forall|i: int| 0 <= i < all.len() implies exists|b: int|
            0 <= b < blocks.len() && (#[trigger] all[i]).kind == (#[trigger] blocks[b]).kind by {
            if i < before.len() {
                assert(all[i] == before[i]);
                let b = choose|b: int|
                    0 <= b < front.len() && before[i].kind == (#[trigger] front[b]).kind;
                assert(blocks[b] == front[b]);
            } else {
                assert(all[i] == here[i - before.len()]);
                assert(blocks[blocks.len() - 1] == block);
            }
        }
    }
}

/// The pieces of segments that end before `b` end before it too.
proof fn lemma_segment_ends(s: Seq<char>, kind: ChunkKind, segs: Seq<(int, int)>, b: int)
    requires
        b <= s.len(),
        forall|i: int| 0 <= i < segs.len() ==> 0 <= (#[trigger] segs[i]).0 <= segs[i].1 <= b,
    ensures
        forall|i: int|
            0 <= i < segment_pieces(s, kind, segs).len() ==> ((#[trigger] segment_pieces(
                s,
                kind,
                segs,
            )[i]).range matches Some((lo, hi)) && hi <= byte_off(s, b)),
    decreases segs.len(),
{
    if segs.len() > 0 {
        lemma_segment_ends(s, kind, segs.drop_last(), b);
        let (x, y) = segs.last();
        lemma_first_text(s, x, y);
        let lo = first_text(s, x, y);
        if lo < y {
            lemma_last_text(s, lo, y);
            lemma_byte_off_mono(s, last_text(s, lo, y), b);
        }
    }
}

/// All pieces of blocks end where the last block ends at the latest, and all
/// but the last one end before that.
pub proof fn lemma_piece_ends(s: Seq<char>, blocks: Seq<Block>, policy: ChunkingPolicy)
    requires
        policy_ok(policy),
        blocks_in_order(blocks, s.len() as int),
    ensures
        ({
            let ps = block_pieces(s, blocks, policy);
            &&& ps.len() > 0 ==> blocks.len() > 0
            &&& forall|i: int|
                0 <= i < ps.len() ==> ((#[trigger] ps[i]).range matches Some((lo, hi)) && hi
                    <= byte_off(s, blocks.last().end) && (i < ps.len() - 1 ==> hi < byte_off(
                    s,
                    blocks.last().end,
                )) && hi <= crate::text::byte_len(s) && (i < ps.len() - 1 ==> hi
                    < crate::text::byte_len(s)))
        }),
    decreases blocks.len(),
{
    if blocks.len() > 0 {
        let front = blocks.drop_last();
        lemma_piece_ends(s, front, policy);
        let block = blocks.last();
        let segs = block_segments(s, block, policy);
        super::blocks::law_segments_cover_the_block(
            s,
            block.start,
            block.start,
            block.end,
            policy.max_chunk_bytes as int,
            policy.overlap_bytes as int,
        );
        let before = block_pieces(s, front, policy);
        let here = segment_pieces(s, block.kind, segs);
        let ps = block_pieces(s, blocks, policy);
        lemma_byte_off_mono(s, block.start, block.end);
        lemma_byte_off_mono(s, block.end, s.len() as int);
        lemma_segment_ends(s, block.kind, segs, block.end);
        let firsts = segs.drop_last();
        assert forall|i: int| 0 <= i < firsts.len() implies 0 <= (#[trigger] firsts[i]).0
            <= firsts[i].1 <= block.end - 1 by {
            assert(firsts[i] == segs[i]);
        }
        lemma_segment_ends(s, block.kind, firsts, block.end - 1);
        lemma_byte_off_mono(s, block.end - 1, block.end);
        let inner = segment_pieces(s, block.kind, firsts);
        assert forall|i: int| 0 <= i < ps.len() implies ((#[trigger] ps[i]).range matches Some(
            (lo, hi),
        ) && hi <= byte_off(s, block.end) && (i < ps.len() - 1 ==> hi < byte_off(s, block.end))
            && hi <= crate::text::byte_len(s) && (i < ps.len() - 1 ==> hi
            < crate::text::byte_len(s))) by {
            if i < before.len() {
                assert(ps[i] == before[i]);
                assert(front.last() == blocks[blocks.len() - 2]);
                assert(blocks[blocks.len() - 2].end <= blocks[blocks.len() - 1].start);
                lemma_byte_off_mono(s, front.last().end, block.start);
            } else {
                let k = i - before.len();
                assert(ps[i] == here[k]);
                if i < ps.len() - 1 {
                    assert(here[k] == inner[k]);
                }
            }
        }
    }
}

/// Every piece of a body is a part of it that is not empty, and its range
/// gives the bytes of that part.
pub proof fn law_body_pieces_are_parts_of_the_body(s: Seq<char>, policy: ChunkingPolicy)
    requires
        policy_ok(policy),
    ensures
        forall|i: int|
            0 <= i < block_pieces(s, body_blocks(s), policy).len() ==> is_body_piece(
                s,
                #[trigger] block_pieces(s, body_blocks(s), policy)[i],
            ),
{
    law_blocks_are_disjoint_and_ordered(s);
    lemma_block_pieces(s, body_blocks(s), policy);
}

/// The trimmed text of a part of the body and its bytes.
fn trimmed_body_text(chars: &Vec<char>, offs: &Vec<usize>, start: usize, end: usize) -> (r: Option<
    (String, BodyByteRange),
>)
    requires
        are_offsets(chars@, offs@),
        start <= end <= chars@.len(),
    ensures
        ({
            let lo = first_text(chars@, start as int, end as int);
            let hi = last_text(chars@, lo, end as int);
            match r {
                Some((text, range)) => lo < end && text@ == chars@.subrange(lo, hi) && range_view(
                    Some(range),
                ) == Some((byte_off(chars@, lo), byte_off(chars@, hi))),
                None => lo >= end,
            }
        }),
{
    let (lo, hi) = trim_range(chars, start, end);
    if lo >= end {
        return None;
    }
    Some((string_of(chars, lo, hi), BodyByteRange { start_byte: offs[lo], end_byte: offs[hi] }))
}

/// Appends the pieces of one block.
fn push_block_pieces(
    out: &mut Vec<NotePiece>,
    chars: &Vec<char>,
    offs: &Vec<usize>,
    block: MarkdownBlock,
    policy: &ChunkingPolicy,
)
    requires
        are_offsets(chars@, offs@),
        policy_ok(*policy),
        block.start < block.end <= chars@.len(),
    ensures
        piece_views(final(out)@) == piece_views(old(out)@) + segment_pieces(
            chars@,
            block.kind,
            block_segments(chars@, block@, *policy),
        ),
{
    let ranges: Vec<LocalRange> = split_bounded(
        chars,
        offs,
        block.start,
        block.end,
        policy.max_chunk_bytes,
        policy.overlap_bytes,
    );
    let ghost segs = range_views(ranges@);
    let ghost before = piece_views(out@);
    proof {
        super::blocks::law_segments_cover_the_block(
            chars@,
            block.start as int,
            block.start as int,
            block.end as int,
            policy.max_chunk_bytes as int,
            policy.overlap_bytes as int,
        );
        assert(segs.take(0) =~= Seq::empty());
        assert(before + segment_pieces(chars@, block.kind, segs.take(0)) =~= before);
    }
    let mut i: usize = 0;
    while i < ranges.len()
        invariant
            are_offsets(chars@, offs@),
            segs == range_views(ranges@),
            i <= ranges@.len(),
            forall|k: int|
                0 <= k < segs.len() ==> 0 <= (#[trigger] segs[k]).0 < segs[k].1 <= chars@.len(),
            piece_views(out@) == before + segment_pieces(
                chars@,
                block.kind,
                segs.take(i as int),
            ),
        decreases ranges@.len() - i,
    {
        let range: LocalRange = ranges[i];
        let ghost done = piece_views(out@);
        proof {
            assert(segs[i as int] == (range.start as int, range.end as int));
            assert(segs.take(i + 1).drop_last() =~= segs.take(i as int));
            assert(segs.take(i + 1).last() == segs[i as int]);
        }
        match trimmed_body_text(chars, offs, range.start, range.end) {
            Some((text, bytes)) => {
                let piece: NotePiece = NotePiece {
                    kind: block.kind,
                    text,
                    range: Some(bytes),
                    from: offs[range.start],
                };
                let ghost model = piece@;
                out.push(piece);
                assert(piece_views(out@) =~= done.push(model));
                assert(piece_views(out@) =~= before + segment_pieces(
                    chars@,
                    block.kind,
                    segs.take(i + 1),
                ));
            },
            None => {},
        }
        i += 1;
    }
    assert(segs.take(segs.len() as int) =~= segs);
}

/// The pieces of a note: its title and the segments of its body.
pub fn pieces_of(note: &NoteInput, policy: &ChunkingPolicy) -> (r: Vec<NotePiece>)
    requires
        policy_ok(*policy),
    ensures
        piece_views(r@) == note_pieces(note@, *policy),
{
    let mut out: Vec<NotePiece> = Vec::new();
    let title: String = trim_string(note.title.as_str());
    assert(piece_views(out@) =~= Seq::empty());
    if !title.as_str().is_empty() {
        let piece: NotePiece = NotePiece { kind: ChunkKind::Title, text: title, range: None, from: 0 };
        let ghost model = piece@;
        out.push(piece);
        assert(piece_views(out@) =~= seq![model]);
    }
    let ghost head = piece_views(out@);
    assert(head =~= title_pieces(note.title@));
    let chars: Vec<char> = chars_of(note.body.as_str());
    let offs: Vec<usize> = char_offsets(note.body.as_str(), &chars);
    let blocks: Vec<MarkdownBlock> = markdown_blocks(&chars);
    let ghost views = block_views(blocks@);
    proof {
        law_blocks_are_disjoint_and_ordered(chars@);
        assert(views.take(0) =~= Seq::empty());
        assert(head + block_pieces(chars@, views.take(0), *policy) =~= head);
    }
    let mut i: usize = 0;
    while i < blocks.len()
        invariant
            are_offsets(chars@, offs@),
            policy_ok(*policy),
            views == block_views(blocks@),
            blocks_in_order(views, chars@.len() as int),
            i <= blocks@.len(),
            piece_views(out@) == head + block_pieces(chars@, views.take(i as int), *policy),
        decreases blocks@.len() - i,
    {
        let block: MarkdownBlock = blocks[i];
        assert(views[i as int] == block@);
        push_block_pieces(&mut out, &chars, &offs, block, policy);
        proof {
            assert(views.take(i + 1).drop_last() =~= views.take(i as int));
            assert(views.take(i + 1).last() == block@);
            assert(piece_views(out@) =~= head + block_pieces(
                chars@,
                views.take(i + 1),
                *policy,
            ));
        }
        i += 1;
    }
    assert(views.take(views.len() as int) =~= views);
    out
}

} // verus!
