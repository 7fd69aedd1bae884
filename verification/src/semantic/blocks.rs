//! Markdown blocks of a note body and their bounded segments.
//!
//! Positions are indices of characters; `text::byte_off` gives their bytes.

use vstd::prelude::*;

use crate::text::{
    byte_off, char_is_whitespace, first_text, is_whitespace, lemma_byte_off_mono, trim_range,
};

verus! {

#[derive(Clone, Copy, Debug, PartialEq, Eq, Structural)]
pub enum ChunkKind {
    Title,
    Heading,
    Paragraph,
    Code,
}

/// The name of a kind in a digest.
pub open spec fn kind_tag(kind: ChunkKind) -> Seq<char> {
    match kind {
        ChunkKind::Title => "title"@,
        ChunkKind::Heading => "heading"@,
        ChunkKind::Paragraph => "paragraph"@,
        ChunkKind::Code => "code"@,
    }
}

impl ChunkKind {
    pub fn tag(self) -> (r: &'static str)
        ensures
            r@ == kind_tag(self),
    {
        match self {
            ChunkKind::Title => "title",
            ChunkKind::Heading => "heading",
            ChunkKind::Paragraph => "paragraph",
            ChunkKind::Code => "code",
        }
    }
}

/// A block of a body: its kind and the characters from `start` up to `end`.
pub struct Block {
    pub kind: ChunkKind,
    pub start: int,
    pub end: int,
}

/// The block that is still open while lines are read.
pub enum Open {
    Idle,
    Paragraph(int),
    Code(int),
}

/// The blocks closed so far and the open one.
pub struct Scan {
    pub blocks: Seq<Block>,
    pub open: Open,
}

/// The end of the line that starts at `i`: behind its line feed, or the end.
pub open spec fn line_end(s: Seq<char>, i: int) -> int
    decreases s.len() - i,
{
    if i >= s.len() {
        s.len() as int
    } else if s[i] == '\n' {
        i + 1
    } else {
        line_end(s, i + 1)
    }
}

pub open spec fn line_is_blank(s: Seq<char>, a: int, b: int) -> bool {
    first_text(s, a, b) == b
}

/// A line whose text starts with three backticks or three tildes.
pub open spec fn line_is_fence(s: Seq<char>, a: int, b: int) -> bool {
    let lo = first_text(s, a, b);
    &&& lo + 3 <= b
    &&& (s[lo] == '`' && s[lo + 1] == '`' && s[lo + 2] == '`') || (s[lo] == '~' && s[lo + 1] == '~'
        && s[lo + 2] == '~')
}

/// A line whose text starts with a number sign.
pub open spec fn line_is_heading(s: Seq<char>, a: int, b: int) -> bool {
    let lo = first_text(s, a, b);
    lo < b && s[lo] == '#'
}

/// The closed blocks once an open paragraph is closed at `end`.
pub open spec fn flushed(scan: Scan, end: int) -> Seq<Block> {
    match scan.open {
        Open::Paragraph(start) => scan.blocks.push(
            Block { kind: ChunkKind::Paragraph, start, end },
        ),
        _ => scan.blocks,
    }
}

/// What the line from `a` up to `b` does to the blocks: a fence opens and
/// closes code, which holds any line; outside code a blank line ends a
/// paragraph, a heading stands alone and any other line is a paragraph's.
pub open spec fn scan_line(scan: Scan, s: Seq<char>, a: int, b: int) -> Scan {
    match scan.open {
        Open::Code(start) => if line_is_fence(s, a, b) {
            Scan {
                blocks: scan.blocks.push(Block { kind: ChunkKind::Code, start, end: b }),
                open: Open::Idle,
            }
        } else {
            scan
        },
        _ => if line_is_fence(s, a, b) {
            Scan { blocks: flushed(scan, a), open: Open::Code(a) }
        } else if line_is_blank(s, a, b) {
            Scan { blocks: flushed(scan, a), open: Open::Idle }
        } else if line_is_heading(s, a, b) {
            Scan {
                blocks: flushed(scan, a).push(Block { kind: ChunkKind::Heading, start: a, end: b }),
                open: Open::Idle,
            }
        } else {
            match scan.open {
                Open::Paragraph(_) => scan,
                _ => Scan { blocks: scan.blocks, open: Open::Paragraph(a) },
            }
        },
    }
}

pub proof fn lemma_line_end(s: Seq<char>, i: int)
    requires
        0 <= i <= s.len(),
    ensures
        i <= line_end(s, i) <= s.len(),
        i < s.len() ==> i < line_end(s, i),
        forall|k: int| i <= k < line_end(s, i) - 1 ==> s[k] != '\n',
        line_end(s, i) < s.len() ==> s[line_end(s, i) - 1] == '\n',
    decreases s.len() - i,
{
    if i < s.len() && s[i] != '\n' {
        lemma_line_end(s, i + 1);
    }
}

/// The blocks once every line from `i` on is read.
pub open spec fn scan_from(scan: Scan, s: Seq<char>, i: int) -> Scan
    decreases s.len() - i,
{
    if i < 0 || i >= s.len() {
        scan
    } else {
        proof {
            lemma_line_end(s, i);
        }
        scan_from(scan_line(scan, s, i, line_end(s, i)), s, line_end(s, i))
    }
}

/// The blocks of a body; what is open at its end is closed there.
pub open spec fn body_blocks(s: Seq<char>) -> Seq<Block> {
    let scan = scan_from(Scan { blocks: Seq::empty(), open: Open::Idle }, s, 0);
    match scan.open {
        Open::Code(start) => scan.blocks.push(
            Block { kind: ChunkKind::Code, start, end: s.len() as int },
        ),
        _ => flushed(scan, s.len() as int),
    }
}

/// A block of a body, by characters.
#[derive(Clone, Copy, Debug, PartialEq, Eq, Structural)]
pub struct MarkdownBlock {
    pub kind: ChunkKind,
    pub start: usize,
    pub end: usize,
}

impl View for MarkdownBlock {
    type V = Block;

    open spec fn view(&self) -> Block {
        Block { kind: self.kind, start: self.start as int, end: self.end as int }
    }
}

pub open spec fn block_views(blocks: Seq<MarkdownBlock>) -> Seq<Block> {
    blocks.map_values(|b: MarkdownBlock| b@)
}

/// Blocks that follow one another inside `s`, each of them not empty.
pub open spec fn blocks_in_order(blocks: Seq<Block>, limit: int) -> bool {
    &&& forall|i: int|
        0 <= i < blocks.len() ==> 0 <= (#[trigger] blocks[i]).start < blocks[i].end <= limit
    &&& forall|i: int, j: int|
        0 <= i < j < blocks.len() ==> (#[trigger] blocks[i]).end <= (#[trigger] blocks[j]).start
}

/// Where the open block starts, or `at` if none is open.
pub open spec fn open_start(open: Open, at: int) -> int {
    match open {
        Open::Idle => at,
        Open::Paragraph(start) => start,
        Open::Code(start) => start,
    }
}

pub open spec fn scan_ok(scan: Scan, at: int) -> bool {
    &&& 0 <= open_start(scan.open, at) <= at
    &&& scan.open !is Idle ==> open_start(scan.open, at) < at
    &&& blocks_in_order(scan.blocks, open_start(scan.open, at))
    &&& forall|i: int|
        0 <= i < scan.blocks.len() ==> (#[trigger] scan.blocks[i]).kind != ChunkKind::Title
}

/// Reading a line keeps blocks in order.
pub proof fn lemma_scan_line_ok(scan: Scan, s: Seq<char>, a: int, b: int)
    requires
        scan_ok(scan, a),
        0 <= a < b <= s.len(),
    ensures
        scan_ok(scan_line(scan, s, a, b), b),
{
}

proof fn lemma_scan_from_ok(scan: Scan, s: Seq<char>, i: int)
    requires
        scan_ok(scan, i),
        0 <= i <= s.len(),
    ensures
        scan_ok(scan_from(scan, s, i), s.len() as int),
    decreases s.len() - i,
{
    if i < s.len() {
        lemma_line_end(s, i);
        lemma_scan_line_ok(scan, s, i, line_end(s, i));
        lemma_scan_from_ok(scan_line(scan, s, i, line_end(s, i)), s, line_end(s, i));
    }
}

/// The blocks of a body follow one another inside it, none is empty and none
/// is a title.
pub proof fn law_blocks_are_disjoint_and_ordered(s: Seq<char>)
    ensures
        blocks_in_order(body_blocks(s), s.len() as int),
        forall|i: int|
            0 <= i < body_blocks(s).len() ==> (#[trigger] body_blocks(s)[i]).kind
                != ChunkKind::Title,
{
    lemma_scan_from_ok(Scan { blocks: Seq::empty(), open: Open::Idle }, s, 0);
}

fn find_line_end(chars: &Vec<char>, start: usize) -> (r: usize)
    requires
        start < chars@.len(),
    ensures
        r == line_end(chars@, start as int),
        start < r <= chars@.len(),
{
    let mut i: usize = start;
    while i < chars.len()
        invariant
            start <= i <= chars@.len(),
            line_end(chars@, start as int) == line_end(chars@, i as int),
        decreases chars@.len() - i,
    {
        if chars[i] == '\n' {
            return i + 1;
        }
        i += 1;
    }
    i
}

fn flush_paragraph(blocks: &mut Vec<MarkdownBlock>, start: Option<usize>, end: usize)
    ensures
        match start {
            Some(at) => block_views(final(blocks)@) == block_views(old(blocks)@).push(
                Block { kind: ChunkKind::Paragraph, start: at as int, end: end as int },
            ),
            None => final(blocks)@ == old(blocks)@,
        },
{
    if let Some(at) = start {
        blocks.push(MarkdownBlock { kind: ChunkKind::Paragraph, start: at, end });
        assert(block_views(blocks@) =~= block_views(old(blocks)@).push(
            Block { kind: ChunkKind::Paragraph, start: at as int, end: end as int },
        ));
    }
}

/// The model of the two variables that remember an open block.
spec fn open_of(paragraph: Option<usize>, code: Option<usize>) -> Open {
    match code {
        Some(c) => Open::Code(c as int),
        None => match paragraph {
            Some(p) => Open::Paragraph(p as int),
            None => Open::Idle,
        },
    }
}

/// The blocks of a body: headings, paragraphs and fenced code.
pub fn markdown_blocks(chars: &Vec<char>) -> (r: Vec<MarkdownBlock>)
    ensures
        block_views(r@) == body_blocks(chars@),
{
    let mut blocks: Vec<MarkdownBlock> = Vec::new();
    let mut paragraph: Option<usize> = None;
    let mut code: Option<usize> = None;
    let mut at: usize = 0;
    let ghost empty = Scan { blocks: Seq::empty(), open: Open::Idle };
    let ghost all = scan_from(empty, chars@, 0);
    assert(block_views(blocks@) =~= Seq::<Block>::empty());
    while at < chars.len()
        invariant
            at <= chars@.len(),
            code is Some ==> paragraph is None,
            all == scan_from(
                Scan { blocks: block_views(blocks@), open: open_of(paragraph, code) },
                chars@,
                at as int,
            ),
        decreases chars@.len() - at,
    {
        let ghost before = Scan { blocks: block_views(blocks@), open: open_of(paragraph, code) };
        let end: usize = find_line_end(chars, at);
        let (lo, _hi) = trim_range(chars, at, end);
        let fence: bool = end - lo >= 3 && ((chars[lo] == '`' && chars[lo + 1] == '`' && chars[lo
            + 2] == '`') || (chars[lo] == '~' && chars[lo + 1] == '~' && chars[lo + 2] == '~'));
        assert(fence == line_is_fence(chars@, at as int, end as int));
        if let Some(start) = code {
            if fence {
                blocks.push(MarkdownBlock { kind: ChunkKind::Code, start, end });
                assert(block_views(blocks@) =~= before.blocks.push(
                    Block { kind: ChunkKind::Code, start: start as int, end: end as int },
                ));
                code = None;
            }
        } else if fence {
            flush_paragraph(&mut blocks, paragraph, at);
            paragraph = None;
            code = Some(at);
        } else if lo == end {
            flush_paragraph(&mut blocks, paragraph, at);
            paragraph = None;
        } else if chars[lo] == '#' {
            flush_paragraph(&mut blocks, paragraph, at);
            paragraph = None;
            let ghost closed = block_views(blocks@);
            blocks.push(MarkdownBlock { kind: ChunkKind::Heading, start: at, end });
            assert(block_views(blocks@) =~= closed.push(
                Block { kind: ChunkKind::Heading, start: at as int, end: end as int },
            ));
        } else if paragraph.is_none() {
            paragraph = Some(at);
        }
        assert(scan_line(before, chars@, at as int, end as int) == (Scan {
            blocks: block_views(blocks@),
            open: open_of(paragraph, code),
        }));
        at = end;
    }
    if let Some(start) = code {
        let ghost closed = block_views(blocks@);
        blocks.push(MarkdownBlock { kind: ChunkKind::Code, start, end: chars.len() });
        assert(block_views(blocks@) =~= closed.push(
            Block { kind: ChunkKind::Code, start: start as int, end: chars@.len() as int },
        ));
    } else {
        flush_paragraph(&mut blocks, paragraph, chars.len());
    }
    blocks
}

/// The last index from `lo` up to `hi` whose offset is at most `limit`, and
/// `lo` if there is none.
pub open spec fn floor_index(s: Seq<char>, lo: int, hi: int, limit: int) -> int
    decreases hi - lo,
{
    if hi <= lo || byte_off(s, hi) <= limit {
        hi
    } else {
        floor_index(s, lo, hi - 1, limit)
    }
}

/// White space and the marks behind which a text may be broken.
pub open spec fn is_break(c: char) -> bool {
    is_whitespace(c) || c == '.' || c == ',' || c == ';' || c == ':' || c == '!' || c == '?'
}

/// The place behind the last break in `s[lo..hi]`, and `lo` if there is none.
pub open spec fn last_break(s: Seq<char>, lo: int, hi: int) -> int
    decreases hi - lo,
{
    if hi <= lo || is_break(s[hi - 1]) {
        hi
    } else {
        last_break(s, lo, hi - 1)
    }
}

/// Where the segment that starts at `start` ends: at the last break among the
/// characters that fit into `max_bytes`, or behind all of them, or behind one
/// character where none fits.
pub open spec fn segment_end(s: Seq<char>, start: int, b: int, max_bytes: int) -> int {
    let hard = floor_index(s, start, b, byte_off(s, start) + max_bytes);
    let soft = last_break(s, start, hard);
    if soft > start {
        soft
    } else if hard > start {
        hard
    } else {
        start + 1
    }
}

/// Where the next segment starts: `overlap` bytes before the end of the one
/// before, as far as that is behind its start.
pub open spec fn segment_next(s: Seq<char>, a: int, start: int, end: int, overlap: int) -> int {
    let back = floor_index(s, a, end, byte_off(s, end) - overlap);
    if back > start {
        back
    } else {
        end
    }
}

pub proof fn lemma_floor_index(s: Seq<char>, lo: int, hi: int, limit: int)
    requires
        0 <= lo <= hi,
    ensures
        lo <= floor_index(s, lo, hi, limit) <= hi,
        floor_index(s, lo, hi, limit) > lo ==> byte_off(s, floor_index(s, lo, hi, limit)) <= limit,
        forall|k: int|
            floor_index(s, lo, hi, limit) < k <= hi ==> #[trigger] byte_off(s, k) > limit,
    decreases hi - lo,
{
    if hi > lo && byte_off(s, hi) > limit {
        lemma_floor_index(s, lo, hi - 1, limit);
    }
}

pub proof fn lemma_last_break(s: Seq<char>, lo: int, hi: int)
    requires
        0 <= lo <= hi,
    ensures
        lo <= last_break(s, lo, hi) <= hi,
        last_break(s, lo, hi) > lo ==> is_break(s[last_break(s, lo, hi) - 1]),
        forall|k: int| last_break(s, lo, hi) <= k < hi ==> !is_break(#[trigger] s[k]),
    decreases hi - lo,
{
    if hi > lo && !is_break(s[hi - 1]) {
        lemma_last_break(s, lo, hi - 1);
    }
}

pub proof fn lemma_segment_bounds(
    s: Seq<char>,
    a: int,
    start: int,
    b: int,
    max_bytes: int,
    overlap: int,
)
    requires
        0 <= a <= start < b <= s.len(),
        0 < max_bytes,
        0 <= overlap,
    ensures
        start < segment_end(s, start, b, max_bytes) <= b,
        segment_end(s, start, b, max_bytes) == start + 1 || byte_off(
            s,
            segment_end(s, start, b, max_bytes),
        ) - byte_off(s, start) <= max_bytes,
        start < segment_next(s, a, start, segment_end(s, start, b, max_bytes), overlap)
            <= segment_end(s, start, b, max_bytes),
{
    let hard = floor_index(s, start, b, byte_off(s, start) + max_bytes);
    lemma_floor_index(s, start, b, byte_off(s, start) + max_bytes);
    lemma_last_break(s, start, hard);
    let end = segment_end(s, start, b, max_bytes);
    if end <= hard {
        lemma_byte_off_mono(s, end, hard);
    }
    lemma_floor_index(s, a, end, byte_off(s, end) - overlap);
}

/// The segments of the block from `a` up to `b`, from `start` on.
pub open spec fn segments(
    s: Seq<char>,
    a: int,
    start: int,
    b: int,
    max_bytes: int,
    overlap: int,
) -> Seq<(int, int)>
    decreases b - start,
    when 0 <= a <= start && b <= s.len() && 0 < max_bytes && 0 <= overlap
{
    if start >= b {
        Seq::empty()
    } else {
        let end = segment_end(s, start, b, max_bytes);
        proof {
            lemma_segment_bounds(s, a, start, b, max_bytes, overlap);
        }
        if end == b {
            seq![(start, end)]
        } else {
            seq![(start, end)] + segments(
                s,
                a,
                segment_next(s, a, start, end, overlap),
                b,
                max_bytes,
                overlap,
            )
        }
    }
}

/// Segments of `s[a..b]` that start one behind the other, none empty, each
/// starting no later than the one before it ends.
pub open spec fn segments_ok(segs: Seq<(int, int)>, start: int, b: int) -> bool {
    &&& segs.len() > 0
    &&& segs[0].0 == start
    &&& segs.last().1 == b
    &&& forall|i: int| 0 <= i < segs.len() ==> start <= (#[trigger] segs[i]).0 < segs[i].1 <= b
    &&& forall|i: int|
        #![trigger segs[i]]
        0 <= i < segs.len() - 1 ==> segs[i].0 < segs[i + 1].0 <= segs[i].1 < b
}

/// The segments of a block cover it without a gap, and each is within the
/// byte limit or a single character.
pub proof fn law_segments_cover_the_block(
    s: Seq<char>,
    a: int,
    start: int,
    b: int,
    max_bytes: int,
    overlap: int,
)
    requires
        0 <= a <= start < b <= s.len(),
        0 < max_bytes,
        0 <= overlap,
    ensures
        segments_ok(segments(s, a, start, b, max_bytes, overlap), start, b),
        forall|i: int|
            0 <= i < segments(s, a, start, b, max_bytes, overlap).len() ==> {
                let seg = #[trigger] segments(s, a, start, b, max_bytes, overlap)[i];
                seg.1 == seg.0 + 1 || byte_off(s, seg.1) - byte_off(s, seg.0) <= max_bytes
            },
    decreases b - start,
{
    lemma_segment_bounds(s, a, start, b, max_bytes, overlap);
    let end = segment_end(s, start, b, max_bytes);
    let all = segments(s, a, start, b, max_bytes, overlap);
    if end < b {
        let next = segment_next(s, a, start, end, overlap);
        law_segments_cover_the_block(s, a, next, b, max_bytes, overlap);
        let rest = segments(s, a, next, b, max_bytes, overlap);
        assert(all =~= seq![(start, end)] + rest);
        assert forall|i: int| 0 <= i < all.len() implies start <= (#[trigger] all[i]).0 < all[i].1
            <= b by {
            if i > 0 {
                assert(all[i] == rest[i - 1]);
            }
        }
        assert forall|i: int|
            #![trigger all[i]]
            0 <= i < all.len() - 1 implies all[i].0 < all[i + 1].0 <= all[i].1 < b by {
            assert(all[i + 1] == rest[i]);
            if i > 0 {
                assert(all[i] == rest[i - 1]);
            }
        }
        assert forall|i: int| 0 <= i < all.len() implies {
            let seg = #[trigger] all[i];
            seg.1 == seg.0 + 1 || byte_off(s, seg.1) - byte_off(s, seg.0) <= max_bytes
        } by {
            if i > 0 {
                assert(all[i] == rest[i - 1]);
            }
        }
        assert(all.last() == rest.last());
    }
}

/// A segment of a block, by characters.
#[derive(Clone, Copy, Debug, PartialEq, Eq, Structural)]
pub struct LocalRange {
    pub start: usize,
    pub end: usize,
}

pub open spec fn range_views(ranges: Seq<LocalRange>) -> Seq<(int, int)> {
    ranges.map_values(|r: LocalRange| (r.start as int, r.end as int))
}

/// The offsets of the characters of `s`.
pub open spec fn are_offsets(s: Seq<char>, offs: Seq<usize>) -> bool {
    &&& offs.len() == s.len() + 1
    &&& forall|i: int| 0 <= i <= s.len() ==> #[trigger] offs[i] == byte_off(s, i)
}

fn char_is_break(c: char) -> (r: bool)
    ensures
        r == is_break(c),
{
    char_is_whitespace(c) || c == '.' || c == ',' || c == ';' || c == ':' || c == '!' || c == '?'
}

/// The last index from `start` up to `b` within `max_bytes` of `start`.
fn hard_end(chars: &Vec<char>, offs: &Vec<usize>, start: usize, b: usize, max_bytes: usize) -> (r:
    usize)
    requires
        are_offsets(chars@, offs@),
        start <= b <= chars@.len(),
    ensures
        r == floor_index(chars@, start as int, b as int, byte_off(chars@, start as int) + max_bytes),
        start <= r <= b,
{
    let mut i: usize = start;
    let ghost limit = byte_off(chars@, start as int) + max_bytes;
    proof {
        assert forall|k: int| start <= k <= b implies byte_off(chars@, start as int)
            <= #[trigger] byte_off(chars@, k) by {
            lemma_byte_off_mono(chars@, start as int, k);
        }
    }
    while i < b && offs[i + 1] - offs[start] <= max_bytes
        invariant
            are_offsets(chars@, offs@),
            start <= i <= b <= chars@.len(),
            limit == byte_off(chars@, start as int) + max_bytes,
            byte_off(chars@, i as int) <= limit,
            forall|k: int| start <= k <= b ==> byte_off(chars@, start as int) <= #[trigger] byte_off(chars@, k),
        decreases b - i,
    {
        i += 1;
    }
    proof {
        lemma_floor_index(chars@, start as int, b as int, limit);
        let f = floor_index(chars@, start as int, b as int, limit);
        if f > i {
            lemma_byte_off_mono(chars@, i + 1, f);
        }
        if f < i {
            assert(byte_off(chars@, i as int) > limit);
        }
    }
    i
}

/// The place behind the last break from `start` up to `end`.
fn preferred_break(chars: &Vec<char>, start: usize, end: usize) -> (r: usize)
    requires
        start <= end <= chars@.len(),
    ensures
        r == last_break(chars@, start as int, end as int),
        start <= r <= end,
{
    let mut i: usize = end;
    while i > start && !char_is_break(chars[i - 1])
        invariant
            start <= i <= end <= chars@.len(),
            last_break(chars@, start as int, end as int) == last_break(
                chars@,
                start as int,
                i as int,
            ),
        decreases i - start,
    {
        i -= 1;
    }
    i
}

/// The last index down to `a` that is at least `overlap` bytes before `end`.
fn step_back(chars: &Vec<char>, offs: &Vec<usize>, a: usize, end: usize, overlap: usize) -> (r:
    usize)
    requires
        are_offsets(chars@, offs@),
        a <= end <= chars@.len(),
    ensures
        r == floor_index(chars@, a as int, end as int, byte_off(chars@, end as int) - overlap),
        a <= r <= end,
{
    let mut i: usize = end;
    let ghost limit = byte_off(chars@, end as int) - overlap;
    proof {
        assert forall|k: int| a <= k <= end implies #[trigger] byte_off(chars@, k) <= byte_off(
            chars@,
            end as int,
        ) by {
            lemma_byte_off_mono(chars@, k, end as int);
        }
    }
    while i > a && offs[end] - offs[i] < overlap
        invariant
            are_offsets(chars@, offs@),
            a <= i <= end <= chars@.len(),
            limit == byte_off(chars@, end as int) - overlap,
            forall|k: int| a <= k <= end ==> #[trigger] byte_off(chars@, k) <= byte_off(chars@, end as int),
            floor_index(chars@, a as int, end as int, limit) == floor_index(
                chars@,
                a as int,
                i as int,
                limit,
            ),
        decreases i - a,
    {
        i -= 1;
    }
    i
}

/// Cuts the block from `a` up to `b` into segments of at most `max_bytes`
/// bytes that overlap by about `overlap` bytes.
pub fn split_bounded(
    chars: &Vec<char>,
    offs: &Vec<usize>,
    a: usize,
    b: usize,
    max_bytes: usize,
    overlap: usize,
) -> (r: Vec<LocalRange>)
    requires
        are_offsets(chars@, offs@),
        a <= b <= chars@.len(),
        0 < max_bytes,
    ensures
        range_views(r@) == segments(
            chars@,
            a as int,
            a as int,
            b as int,
            max_bytes as int,
            overlap as int,
        ),
{
    let mut out: Vec<LocalRange> = Vec::new();
    let mut start: usize = a;
    let ghost s = chars@;
    let ghost all = segments(s, a as int, a as int, b as int, max_bytes as int, overlap as int);
    assert(range_views(out@) =~= Seq::empty());
    assert(range_views(out@) + all =~= all);
    while start < b
        invariant
            are_offsets(chars@, offs@),
            s == chars@,
            a <= start <= b <= chars@.len(),
            0 < max_bytes,
            all == segments(
                s,
                a as int,
                a as int,
                b as int,
                max_bytes as int,
                overlap as int,
            ),
            all == range_views(out@) + segments(
                s,
                a as int,
                start as int,
                b as int,
                max_bytes as int,
                overlap as int,
            ),
        decreases b - start,
    {
        proof {
            lemma_segment_bounds(
                s,
                a as int,
                start as int,
                b as int,
                max_bytes as int,
                overlap as int,
            );
        }
        let hard: usize = hard_end(chars, offs, start, b, max_bytes);
        let soft: usize = preferred_break(chars, start, hard);
        let end: usize = if soft > start {
            soft
        } else if hard > start {
            hard
        } else {
            start + 1
        };
        let ghost rest = segments(
            s,
            a as int,
            start as int,
            b as int,
            max_bytes as int,
            overlap as int,
        );
        let ghost before = range_views(out@);
        out.push(LocalRange { start, end });
        assert(range_views(out@) =~= before.push((start as int, end as int)));
        if end == b {
            assert(all =~= range_views(out@));
            return out;
        }
        let back: usize = step_back(chars, offs, a, end, overlap);
        start = if back > start {
            back
        } else {
            end
        };
        assert(all =~= range_views(out@) + segments(
            s,
            a as int,
            start as int,
            b as int,
            max_bytes as int,
            overlap as int,
        ));
    }
    assert(all =~= range_views(out@));
    out
}

} // verus!
