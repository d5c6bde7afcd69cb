//! Structure-aware chunking: one chunk per section when it fits the token
//! budget, and a token-bounded sub-split (with overlap and a breadcrumb
//! context line) for an oversized section.

use vstd::prelude::*;

use tokenizers::Tokenizer;

use crate::chars::{is_ascii_digit, is_whitespace, is_ws};
use crate::chunk::{Chunk, ContentType};
use crate::meta::{
    base_id, base_id_text, breadcrumb_prefix, breadcrumb_prefix_text, doc_meta, part_of_stem,
    part_title_text, stem_or_empty, version_of_stem, DocMeta,
};
use crate::outline::{build_outline, lemma_outline_ranges, outline, seg_views, Segment, SegmentView};
use crate::page::{concat_text, concatenate, page_number, PageMap};
use crate::text::{lemma_skip_ws, push_all, skip_ws, slice_to_vec};
use crate::tokenize::{covers, split_chunks};
use crate::text::{
    chars_of, lines, lines_of, opt_view, str_views, string_from_chars, trim, trim_bounds, views,
    word_count, lemma_word_count_bound,
};
use crate::tokenize::{encoding_len, tokenizer_encode};

verus! {

/// Target token budget for a chunk; sections larger than this are sub-split.
/// Chosen well under bge-small-en-v1.5's 512-token hard cap for sharper
/// vectors.
pub const MAX_TOKENS: usize = 256;

/// Token overlap between adjacent sub-chunks (about 15% of `MAX_TOKENS`).
pub const OVERLAP_TOKENS: usize = 38;

/// The absolute model limit; every emitted chunk stays at or below it.
pub const MODEL_TOKEN_LIMIT: usize = 512;

// ---------------------------------------------------------------------------
// Tables
// ---------------------------------------------------------------------------

/// The non-empty trimmed lines.
pub open spec fn table_rows(ls: Seq<Seq<char>>) -> Seq<Seq<char>>
    decreases ls.len(),
{
    if ls.len() == 0 {
        seq![]
    } else {
        let rest = table_rows(ls.drop_last());
        let r = trim(ls.last());
        if r.len() > 0 {
            rest.push(r)
        } else {
            rest
        }
    }
}

/// A short numeric row: it starts with an ASCII digit and has at most eight
/// words.
pub open spec fn numeric_row(r: Seq<char>) -> bool {
    r.len() > 0 && is_ascii_digit(r[0]) && word_count(r) <= 8
}

/// How many rows are short numeric rows.
pub open spec fn numeric_rows(rows: Seq<Seq<char>>) -> nat
    decreases rows.len(),
{
    if rows.len() == 0 {
        0
    } else {
        numeric_rows(rows.drop_last()) + if numeric_row(rows.last()) {
            1nat
        } else {
            0nat
        }
    }
}

/// A text dominated by short numeric rows: at least four non-empty lines,
/// more than half of them short numeric rows.
pub open spec fn is_table_text(text: Seq<char>) -> bool {
    let rows = table_rows(lines(text));
    rows.len() >= 4 && 2 * numeric_rows(rows) > rows.len()
}

proof fn lemma_numeric_rows_bound(rows: Seq<Seq<char>>)
    ensures
        numeric_rows(rows) <= rows.len(),
    decreases rows.len(),
{
    if rows.len() > 0 {
        lemma_numeric_rows_bound(rows.drop_last());
    }
}

/// The number of whitespace-separated words in `t[lo..hi]`.
pub fn count_words(t: &Vec<char>, lo: usize, hi: usize) -> (r: usize)
    requires
        lo <= hi <= t.len(),
    ensures
        r == word_count(t@.subrange(lo as int, hi as int)),
{
    let ghost s = t@.subrange(lo as int, hi as int);
    let mut n: usize = 0;
    let mut i = lo;
    while i < hi
        invariant
            lo <= i <= hi <= t.len(),
            s == t@.subrange(lo as int, hi as int),
            n == word_count(s.take(i - lo)),
            n <= i - lo,
        decreases hi - i,
    {
        let k = i - lo;
        proof {
            assert(s.take(k + 1).drop_last() =~= s.take(k as int));
            assert(s.take(k + 1).last() == t@[i as int]);
            if k >= 1 {
                assert(s.take(k + 1)[k - 1] == t@[i - 1]);
            }
            lemma_word_count_bound(s.take(k as int));
        }
        let starts = !is_whitespace(t[i]) && (i == lo || is_whitespace(t[i - 1]));
        if starts {
            n = n + 1;
        }
        i = i + 1;
    }
    assert(s.take(hi - lo) =~= s);
    n
}

/// Heuristic: a text dominated by short numeric or tabular rows.
pub fn looks_like_table(text: &str) -> (r: bool)
    ensures
        r == is_table_text(text@),
{
    let t = chars_of(text);
    let ls = lines_of(&t);
    let ghost all = lines(text@);
    let mut rows: usize = 0;
    let mut numeric: usize = 0;
    let mut i: usize = 0;
    while i < ls.len()
        invariant
            i <= ls.len(),
            views(ls@) == all,
            all == lines(text@),
            rows == table_rows(all.take(i as int)).len(),
            numeric == numeric_rows(table_rows(all.take(i as int))),
            rows <= i,
            numeric <= rows,
        decreases ls.len() - i,
    {
        let l = &ls[i];
        assert(l@ == all[i as int]);
        let (lo, hi) = trim_bounds(l, 0, l.len());
        proof {
            assert(l@.subrange(0, l@.len() as int) =~= l@);
            assert(all.take(i + 1).drop_last() =~= all.take(i as int));
            assert(all.take(i + 1).last() == all[i as int]);
        }
        if lo < hi {
            let ghost before = table_rows(all.take(i as int));
            rows = rows + 1;
            let words = count_words(l, lo, hi);
            let ghost r = l@.subrange(lo as int, hi as int);
            assert(r[0] == l@[lo as int]);
            if '0' <= l[lo] && l[lo] <= '9' && words <= 8 {
                numeric = numeric + 1;
            }
            proof {
                assert(table_rows(all.take(i + 1)) == before.push(r));
                assert(table_rows(all.take(i + 1)).drop_last() =~= before);
            }
        }
        i = i + 1;
    }
    assert(all.take(ls.len() as int) =~= all);
    rows >= 4 && numeric > rows - numeric
}

// ---------------------------------------------------------------------------
// Content types and token counts
// ---------------------------------------------------------------------------

/// A command when the segment has a header number, the preamble when it has
/// no section number, a section otherwise.
pub open spec fn base_type(seg: SegmentView) -> ContentType {
    if seg.header_number is Some {
        ContentType::Command
    } else if seg.number is None {
        ContentType::Preamble
    } else {
        ContentType::Section
    }
}

/// The content type of a segment before any table detection.
pub fn base_content_type(seg: &Segment) -> (r: ContentType)
    ensures
        r == base_type(seg@),
{
    if seg.header_number.is_some() {
        ContentType::Command
    } else if seg.number.is_none() {
        ContentType::Preamble
    } else {
        ContentType::Section
    }
}

/// The token estimate used when the tokenizer fails: four tokens for every
/// three words.
pub open spec fn estimated_tokens(text: Seq<char>) -> nat {
    word_count(text) * 4 / 3
}

/// Estimates the number of tokens of `text` from its word count.
pub fn estimate_tokens(text: &str) -> (r: usize)
    ensures
        r == estimated_tokens(text@),
{
    let t = chars_of(text);
    let words = count_words(&t, 0, t.len());
    proof {
        assert(t@.subrange(0, t@.len() as int) =~= t@);
        lemma_word_count_bound(t@);
    }
    let q = words / 3;
    let m = words % 3;
    proof {
        assert(words == 3 * q + m) by (nonlinear_arith)
            requires
                q == words / 3,
                m == words % 3,
        ;
        assert((words * 4) / 3 == 4 * q + (m * 4) / 3) by (nonlinear_arith)
            requires
                words == 3 * q + m,
                0 <= m < 3,
        ;
    }
    4 * q + (m * 4) / 3
}

/// The token count of `text` given what the tokenizer made of it: the length
/// of its encoding, or, when the tokenizer failed (`None`), the estimate from
/// the word count.
pub fn tokens_or_estimate(encoded: Option<usize>, text: &str) -> (r: usize)
    ensures
        r == match encoded {
            Some(n) => n as nat,
            None => estimated_tokens(text@),
        },
{
    match encoded {
        Some(n) => n,
        None => estimate_tokens(text),
    }
}

/// The number of tokens of `text`: the tokenizer's count (special tokens
/// included), or `estimate_tokens` when the tokenizer fails. What the
/// tokenizer counts is not stated.
pub fn count_tokens(tokenizer: &Tokenizer, text: &str) -> usize {
    let encoded = match tokenizer_encode(tokenizer, text) {
        Some(encoding) => Some(encoding_len(&encoding)),
        None => None,
    };
    tokens_or_estimate(encoded, text)
}

// ---------------------------------------------------------------------------
// Chunks
// ---------------------------------------------------------------------------

/// The mathematical content of document metadata.
pub struct MetaView {
    pub document: Seq<char>,
    pub part: u8,
    pub part_title: Seq<char>,
    pub doc_version: Seq<char>,
}

pub open spec fn meta_view(m: DocMeta) -> MetaView {
    MetaView {
        document: m.document@,
        part: m.part,
        part_title: m.part_title@,
        doc_version: m.doc_version@,
    }
}

/// The content type of a chunk with body `body`: a section whose body looks
/// like a table is a table.
pub open spec fn chunk_type(base: ContentType, body: Seq<char>) -> ContentType {
    if base == ContentType::Section && is_table_text(body) {
        ContentType::Table
    } else {
        base
    }
}

/// Every field of chunk `c` but its token count, which the tokenizer decides.
pub open spec fn chunk_fields(
    c: Chunk,
    meta: MetaView,
    seg: SegmentView,
    id: Seq<char>,
    base: ContentType,
    body: Seq<char>,
    sub_index: nat,
    sub_total: nat,
    page_start: nat,
    page_end: nat,
    index: nat,
) -> bool {
    &&& c.id@ == id + seq!['-'] + crate::number::decimal(sub_index)
    &&& c.index == index
    &&& c.document@ == meta.document
    &&& c.part == meta.part
    &&& c.part_title@ == meta.part_title
    &&& c.doc_version@ == meta.doc_version
    &&& opt_view(c.section_number) == seg.number
    &&& opt_view(c.section_title) == seg.title
    &&& str_views(c.breadcrumb@) == seg.breadcrumb
    &&& c.header_number == seg.header_number
    &&& opt_view(c.header_name) == seg.header_name
    &&& c.page_start == page_start
    &&& c.page_end == page_end
    &&& c.sub_index == sub_index
    &&& c.sub_total == sub_total
    &&& c.content_type == chunk_type(base, body)
    &&& c.char_count == body.len()
    &&& c.text@ == body
}

fn clone_string(s: &String) -> (r: String)
    ensures
        r@ == s@,
{
    string_from_chars(chars_of(s.as_str()).as_slice())
}

fn clone_opt(o: &Option<String>) -> (r: Option<String>)
    ensures
        opt_view(r) == opt_view(*o),
{
    match o {
        Some(s) => Some(clone_string(s)),
        None => None,
    }
}

fn clone_strings(v: &Vec<String>) -> (r: Vec<String>)
    ensures
        str_views(r@) == str_views(v@),
{
    let mut out: Vec<String> = Vec::new();
    let mut i: usize = 0;
    while i < v.len()
        invariant
            i <= v.len(),
            str_views(out@) == str_views(v@).take(i as int),
        decreases v.len() - i,
    {
        let s = clone_string(&v[i]);
        let ghost before = out@;
        out.push(s);
        assert(str_views(out@) =~= str_views(before).push(s@));
        assert(str_views(out@) =~= str_views(v@).take(i + 1));
        i = i + 1;
    }
    assert(str_views(v@).take(v.len() as int) =~= str_views(v@));
    out
}

/// Assembles one chunk holding `body`, classifying tables and counting its
/// characters; `token_count` is its number of tokens.
pub fn assemble_chunk(
    seg: &Segment,
    meta: &DocMeta,
    id: &str,
    base: ContentType,
    body: String,
    sub_index: usize,
    sub_total: usize,
    page_start: usize,
    page_end: usize,
    chunk_index: usize,
    token_count: usize,
) -> (r: Chunk)
    ensures
        chunk_fields(
            r,
            meta_view(*meta),
            seg@,
            id@,
            base,
            body@,
            sub_index as nat,
            sub_total as nat,
            page_start as nat,
            page_end as nat,
            chunk_index as nat,
        ),
        r.token_count == token_count,
{
    let content_type = match base {
        ContentType::Section => if looks_like_table(body.as_str()) {
            ContentType::Table
        } else {
            base
        },
        _ => base,
    };
    let mut full_id = chars_of(id);
    full_id.push('-');
    crate::number::push_decimal(&mut full_id, sub_index as u64);
    let char_count = chars_of(body.as_str()).len();
    let ghost bv = body@;
    let r = Chunk {
        id: string_from_chars(full_id.as_slice()),
        index: chunk_index,
        document: clone_string(&meta.document),
        part: meta.part,
        part_title: clone_string(&meta.part_title),
        doc_version: clone_string(&meta.doc_version),
        section_number: clone_opt(&seg.number),
        section_title: clone_opt(&seg.title),
        breadcrumb: clone_strings(&seg.breadcrumb),
        header_number: seg.header_number,
        header_name: clone_opt(&seg.header_name),
        page_start,
        page_end,
        sub_index,
        sub_total,
        content_type,
        char_count,
        token_count,
        text: body,
    };
    proof {
        assert(r.text@ == bv);
        assert(r.char_count == bv.len());
        assert(r.content_type == chunk_type(base, bv));
        assert(r.id@ == id@ + seq!['-'] + crate::number::decimal(sub_index as nat));
    }
    r
}

/// Assembles one chunk, classifying tables and computing counts; the token
/// count is the tokenizer's (see `count_tokens`).
pub fn build_chunk(
    seg: &Segment,
    meta: &DocMeta,
    tokenizer: &Tokenizer,
    id: &str,
    base: ContentType,
    body: String,
    sub_index: usize,
    sub_total: usize,
    page_start: usize,
    page_end: usize,
    chunk_index: usize,
) -> (r: Chunk)
    ensures
        chunk_fields(
            r,
            meta_view(*meta),
            seg@,
            id@,
            base,
            body@,
            sub_index as nat,
            sub_total as nat,
            page_start as nat,
            page_end as nat,
            chunk_index as nat,
        ),
{
    let token_count = count_tokens(tokenizer, body.as_str());
    assemble_chunk(seg, meta, id, base, body, sub_index, sub_total, page_start, page_end, chunk_index, token_count)
}

// ---------------------------------------------------------------------------
// Emitting the chunks of a segment
// ---------------------------------------------------------------------------

/// Errors that can occur while chunking a document.
#[derive(Debug)]
pub enum ChunkError {
    /// A PDF loading or extraction failure.
    Pdf(String),
    /// The tokenizer file could not be loaded, or the tokenizer cannot encode
    /// a piece of text.
    Tokenizer(String),
    /// Invalid splitter configuration (e.g. overlap at least the capacity).
    Config(String),
    /// An I/O failure while writing output.
    Io(String),
    /// A chunk would count more tokens than the model takes
    /// (`MODEL_TOKEN_LIMIT`): its id and its token count.
    TokenLimit(String, usize),
}

/// Every chunk counts at most `MODEL_TOKEN_LIMIT` tokens.
pub open spec fn within_limit(cs: Seq<Chunk>) -> bool {
    forall|i: int| 0 <= i < cs.len() ==> (#[trigger] cs[i]).token_count <= MODEL_TOKEN_LIMIT
}

/// The trimmed body of a segment.
pub open spec fn segment_body(t: Seq<char>, seg: SegmentView) -> Seq<char> {
    trim(t.subrange(seg.start, seg.end))
}

/// Where the trimmed body of a segment starts in the text.
pub open spec fn body_start(t: Seq<char>, seg: SegmentView) -> int {
    seg.start + skip_ws(t.subrange(seg.start, seg.end), 0)
}

/// `x.saturating_sub(1)`.
pub open spec fn dec_sat(x: int) -> int {
    if x > 0 {
        x - 1
    } else {
        0
    }
}

/// Chunk `c` is sub-chunk `j` of `n` of segment `seg` (the `ordinal`-th
/// segment), holding `piece`, the part of the segment body at offset `o`,
/// after its context line.
pub open spec fn sub_chunk(
    c: Chunk,
    t: Seq<char>,
    starts: Seq<usize>,
    meta: MetaView,
    seg: SegmentView,
    ordinal: nat,
    j: int,
    n: nat,
    first: int,
    o: int,
    piece: Seq<char>,
) -> bool {
    let body = segment_body(t, seg);
    let abs = body_start(t, seg);
    &&& 0 <= o && o + piece.len() <= body.len()
    &&& piece.len() > 0
    &&& body.subrange(o, o + piece.len()) == piece
    &&& chunk_fields(
        c,
        meta,
        seg,
        base_id_text(meta.part, seg, ordinal),
        base_type(seg),
        breadcrumb_prefix_text(meta.part, seg, j as nat, n) + seq!['\n'] + piece,
        j as nat,
        n,
        page_number(starts, abs + o),
        page_number(starts, dec_sat(abs + o + piece.len())),
        (first + j) as nat,
    )
}

/// The chunks `cs` are sub-chunks of segment `seg`, `n` in all, numbered
/// from `first`; chunk `k` holds `pieces[k]`, found at `offsets[k]` in the
/// segment body.
pub open spec fn sub_chunks_at(
    cs: Seq<Chunk>,
    t: Seq<char>,
    starts: Seq<usize>,
    meta: MetaView,
    seg: SegmentView,
    ordinal: nat,
    n: nat,
    first: int,
    offsets: Seq<int>,
    pieces: Seq<Seq<char>>,
) -> bool {
    &&& offsets.len() == cs.len()
    &&& pieces.len() == cs.len()
    &&& forall|k: int|
        0 <= k < cs.len() ==> #[trigger] sub_chunk(
            cs[k],
            t,
            starts,
            meta,
            seg,
            ordinal,
            k,
            n,
            first,
            offsets[k],
            pieces[k],
        )
}

/// The chunks `cs` are the whole trimmed body of segment `seg` (the
/// `ordinal`-th) as one chunk numbered `first`, which fits the token budget
/// `MAX_TOKENS`.
pub open spec fn whole_emission(
    t: Seq<char>,
    starts: Seq<usize>,
    meta: MetaView,
    seg: SegmentView,
    ordinal: nat,
    first: nat,
    cs: Seq<Chunk>,
) -> bool {
    let body = segment_body(t, seg);
    let abs = body_start(t, seg);
    &&& cs.len() == 1
    &&& chunk_fields(
        cs[0],
        meta,
        seg,
        base_id_text(meta.part, seg, ordinal),
        base_type(seg),
        body,
        0,
        1,
        page_number(starts, abs),
        page_number(starts, abs + body.len() - 1),
        first,
    )
    &&& cs[0].token_count <= MAX_TOKENS
}

/// The chunks `cs` are sub-chunks of segment `seg` (the `ordinal`-th), at
/// least one, numbered from `first`, each holding a non-empty piece of the
/// trimmed body after its context line, the pieces together covering every
/// non-whitespace character of the body.
pub open spec fn split_emission(
    t: Seq<char>,
    starts: Seq<usize>,
    meta: MetaView,
    seg: SegmentView,
    ordinal: nat,
    first: nat,
    cs: Seq<Chunk>,
) -> bool {
    &&& cs.len() >= 1
    &&& exists|offsets: Seq<int>, pieces: Seq<Seq<char>>|
        #[trigger] sub_chunks_at(cs, t, starts, meta, seg, ordinal, cs.len(), first as int, offsets, pieces)
            && covers(segment_body(t, seg), offsets, pieces)
}

/// The chunks `cs` are what the `ordinal`-th segment `seg` yields, numbered
/// from `first`: none for a blank segment; else either the whole trimmed body
/// as one chunk, or at least one sub-chunk of it.
pub open spec fn emission(
    t: Seq<char>,
    starts: Seq<usize>,
    meta: MetaView,
    seg: SegmentView,
    ordinal: nat,
    first: nat,
    cs: Seq<Chunk>,
) -> bool {
    if segment_body(t, seg).len() == 0 {
        cs.len() == 0
    } else {
        ||| whole_emission(t, starts, meta, seg, ordinal, first, cs)
        ||| split_emission(t, starts, meta, seg, ordinal, first, cs)
    }
}

/// What the `ordinal`-th segment `seg` yields when its trimmed body counts
/// `tokens` tokens: nothing for a blank segment, the whole body as one chunk
/// when it fits `MAX_TOKENS`, and at least one sub-chunk otherwise.
pub open spec fn counted_emission(
    t: Seq<char>,
    starts: Seq<usize>,
    meta: MetaView,
    seg: SegmentView,
    ordinal: nat,
    first: nat,
    tokens: nat,
    cs: Seq<Chunk>,
) -> bool {
    if segment_body(t, seg).len() == 0 {
        cs.len() == 0
    } else if tokens <= MAX_TOKENS {
        whole_emission(t, starts, meta, seg, ordinal, first, cs)
    } else {
        split_emission(t, starts, meta, seg, ordinal, first, cs)
    }
}

/// The offsets of splitter pieces.
pub open spec fn piece_offsets(pieces: Seq<(usize, String)>) -> Seq<int> {
    pieces.map_values(|p: (usize, String)| p.0 as int)
}

/// The texts of splitter pieces.
pub open spec fn piece_texts(pieces: Seq<(usize, String)>) -> Seq<Seq<char>> {
    pieces.map_values(|p: (usize, String)| p.1@)
}

/// Appends one sub-chunk of segment `seg` (the `ordinal`-th) per piece of its
/// trimmed body, in order and numbered on from `next_index`: piece `k`, found
/// at character offset `pieces[k].0` of the body, becomes sub-chunk `k` of
/// `pieces.len()`, after its context line. It stops with `TokenLimit` at the
/// first sub-chunk that counts more than `MODEL_TOKEN_LIMIT` tokens, leaving
/// the sub-chunks before it appended.
pub fn emit_sub_chunks(
    seg: &Segment,
    ordinal: usize,
    t: &Vec<char>,
    map: &PageMap,
    meta: &DocMeta,
    tokenizer: &Tokenizer,
    pieces: &Vec<(usize, String)>,
    next_index: &mut usize,
    out: &mut Vec<Chunk>,
) -> (r: Result<(), ChunkError>)
    requires
        seg.start <= seg.end <= t.len(),
        *old(next_index) + pieces@.len() <= usize::MAX,
        forall|i: int|
            0 <= i < pieces@.len() ==> {
                let (o, piece) = #[trigger] pieces@[i];
                &&& piece@.len() > 0
                &&& o + piece@.len() <= segment_body(t@, seg@).len()
                &&& segment_body(t@, seg@).subrange(o as int, o + piece@.len()) == piece@
            },
    ensures
        old(out)@.len() <= final(out)@.len() <= old(out)@.len() + pieces@.len(),
        *final(next_index) == *old(next_index) + (final(out)@.len() - old(out)@.len()),
        final(out)@.subrange(0, old(out)@.len() as int) == old(out)@,
        within_limit(final(out)@.subrange(old(out)@.len() as int, final(out)@.len() as int)),
        r is Ok ==> final(out)@.len() == old(out)@.len() + pieces@.len() && sub_chunks_at(
            final(out)@.subrange(old(out)@.len() as int, final(out)@.len() as int),
            t@,
            map@,
            meta_view(*meta),
            seg@,
            ordinal as nat,
            pieces@.len(),
            *old(next_index) as int,
            piece_offsets(pieces@),
            piece_texts(pieces@),
        ),
        r matches Err(e) ==> e matches ChunkError::TokenLimit(_, n) && n > MODEL_TOKEN_LIMIT,
{
    let ghost old_out = out@;
    let ghost old_len = out@.len();
    let ghost old_next = *next_index;
    let (lo, hi) = trim_bounds(t, seg.start, seg.end);
    let base = base_content_type(seg);
    let id = base_id(meta, seg, ordinal);
    let body_chars = slice_to_vec(t, lo, hi);
    let trimmed = string_from_chars(body_chars.as_slice());
    let sub_total = pieces.len();
    let ghost body = trimmed@;
    let ghost mut offs: Seq<int> = seq![];
    let ghost mut pcs: Seq<Seq<char>> = seq![];
    let mut j: usize = 0;
    while j < sub_total
        invariant
            j <= sub_total == pieces@.len(),
            lo <= hi <= t.len(),
            offs == piece_offsets(pieces@).take(j as int),
            pcs == piece_texts(pieces@).take(j as int),
            seg.start <= seg.end <= t.len(),
            body == t@.subrange(lo as int, hi as int),
            body == segment_body(t@, seg@),
            lo == body_start(t@, seg@),
            id@ == base_id_text(meta.part, seg@, ordinal as nat),
            base == base_type(seg@),
            forall|i: int|
                0 <= i < pieces@.len() ==> {
                    let (o, piece) = #[trigger] pieces@[i];
                    &&& piece@.len() > 0
                    &&& o + piece@.len() <= body.len()
                    &&& body.subrange(o as int, o + piece@.len()) == piece@
                },
            out@.len() == old_len + j,
            *next_index == old_next + j,
            old_len == old(out)@.len(),
            old_next == *old(next_index),
            old_out == old(out)@,
            old_next + sub_total <= usize::MAX,
            out@.subrange(0, old_len as int) == old_out,
            within_limit(out@.subrange(old_len as int, out@.len() as int)),
            sub_chunks_at(
                out@.subrange(old_len as int, out@.len() as int),
                t@,
                map@,
                meta_view(*meta),
                seg@,
                ordinal as nat,
                sub_total as nat,
                old_next as int,
                offs,
                pcs,
            ),
        decreases sub_total - j,
    {
        let offset = pieces[j].0;
        let piece = chars_of(pieces[j].1.as_str());
        proof {
            let (o, p) = pieces@[j as int];
            assert(o == offset && p@ == piece@);
        }
        let abs = lo + offset;
        let page_start = map.page_at(abs);
        let end = abs + piece.len();
        let page_end = map.page_at(if end > 0 {
            end - 1
        } else {
            0
        });
        let prefix = breadcrumb_prefix(meta, seg, j, sub_total);
        let mut text = chars_of(prefix.as_str());
        text.push('\n');
        push_all(&mut text, piece.as_slice());
        let c = build_chunk(
            seg,
            meta,
            tokenizer,
            id.as_str(),
            base,
            string_from_chars(text.as_slice()),
            j,
            sub_total,
            page_start,
            page_end,
            *next_index,
        );
        if c.token_count > MODEL_TOKEN_LIMIT {
            let n = c.token_count;
            return Err(ChunkError::TokenLimit(c.id, n));
        }
        let ghost before = out@;
        out.push(c);
        *next_index = *next_index + 1;
        proof {
            let cs0 = before.subrange(old_len as int, before.len() as int);
            let cs1 = out@.subrange(old_len as int, out@.len() as int);
            assert(cs1 =~= cs0.push(c));
            let bd = breadcrumb_prefix_text(meta.part, seg@, j as nat, sub_total as nat) + seq!['\n'] + piece@;
            assert(text@ =~= bd);
            assert(offset + piece@.len() <= body.len());
            assert(body.subrange(offset as int, offset + piece@.len()) == piece@);
            assert(page_start == page_number(map@, lo + offset));
            assert(page_end == page_number(map@, dec_sat(lo + offset + piece@.len())));
            assert(chunk_fields(
                c,
                meta_view(*meta),
                seg@,
                base_id_text(meta.part, seg@, ordinal as nat),
                base_type(seg@),
                bd,
                j as nat,
                sub_total as nat,
                page_number(map@, lo + offset),
                page_number(map@, dec_sat(lo + offset + piece@.len())),
                (old_next + j) as nat,
            ));
            assert(sub_chunk(
                c,
                t@,
                map@,
                meta_view(*meta),
                seg@,
                ordinal as nat,
                j as int,
                sub_total as nat,
                old_next as int,
                offset as int,
                piece@,
            ));
            let offs1 = offs.push(offset as int);
            let pcs1 = pcs.push(piece@);
            assert forall|k: int| 0 <= k < cs1.len() implies #[trigger] sub_chunk(
                cs1[k],
                t@,
                map@,
                meta_view(*meta),
                seg@,
                ordinal as nat,
                k,
                sub_total as nat,
                old_next as int,
                offs1[k],
                pcs1[k],
            ) by {
                if k < j {
                    assert(cs1[k] == cs0[k]);
                    assert(offs1[k] == offs[k]);
                    assert(pcs1[k] == pcs[k]);
                    assert(sub_chunk(
                        cs0[k],
                        t@,
                        map@,
                        meta_view(*meta),
                        seg@,
                        ordinal as nat,
                        k,
                        sub_total as nat,
                        old_next as int,
                        offs[k],
                        pcs[k],
                    ));
                } else {
                    assert(cs1[k] == c);
                }
            }
            offs = offs1;
            pcs = pcs1;
            assert(offs =~= piece_offsets(pieces@).take(j + 1));
            assert(pcs =~= piece_texts(pieces@).take(j + 1));
            assert(out@.subrange(0, old_len as int) =~= before.subrange(0, old_len as int));
        }
        j = j + 1;
    }
    proof {
        assert(piece_offsets(pieces@).take(sub_total as int) =~= piece_offsets(pieces@));
        assert(piece_texts(pieces@).take(sub_total as int) =~= piece_texts(pieces@));
    }
    Ok(())
}

/// Pieces that are non-empty, lie within `n` characters and end strictly
/// later one after another number at most `n`.
proof fn lemma_piece_count(pieces: Seq<(usize, String)>, n: int)
    requires
        n >= 0,
        forall|i: int|
            0 <= i < pieces.len() ==> #[trigger] pieces[i].1@.len() > 0 && pieces[i].0
                + pieces[i].1@.len() <= n,
        forall|i: int, j: int|
            0 <= i < j < pieces.len() ==> #[trigger] pieces[i].0 + pieces[i].1@.len()
                < #[trigger] pieces[j].0 + pieces[j].1@.len(),
    ensures
        pieces.len() <= n,
    decreases pieces.len(),
{
    if pieces.len() > 0 {
        let last = pieces.len() - 1;
        let front = pieces.drop_last();
        let m = pieces[last].0 + pieces[last].1@.len() - 1;
        assert forall|i: int| 0 <= i < front.len() implies #[trigger] front[i].1@.len() > 0
            && front[i].0 + front[i].1@.len() <= m by {
            assert(front[i] == pieces[i]);
            assert(pieces[i].0 + pieces[i].1@.len() < pieces[last].0 + pieces[last].1@.len());
        }
        assert forall|i: int, j: int| 0 <= i < j < front.len() implies #[trigger] front[i].0
            + front[i].1@.len() < #[trigger] front[j].0 + front[j].1@.len() by {
            assert(front[i] == pieces[i] && front[j] == pieces[j]);
        }
        lemma_piece_count(front, m);
    }
}

/// Builds the chunks of one segment whose trimmed body counts `tokens`
/// tokens, and appends them to `out`, numbered on from `next_index`: the
/// whole body as one chunk when it fits `MAX_TOKENS`, else one sub-chunk per
/// piece that the token-bounded splitter cuts from it, the pieces covering
/// every non-whitespace character of the body. The whole body's chunk counts
/// `tokens` tokens. A sub-split fails with `Tokenizer` when the tokenizer
/// cannot encode a candidate piece, and with `TokenLimit` at the first
/// sub-chunk over `MODEL_TOKEN_LIMIT`. The counter must have room for one
/// index per character of the segment.
pub fn emit_counted(
    seg: &Segment,
    ordinal: usize,
    t: &Vec<char>,
    map: &PageMap,
    meta: &DocMeta,
    tokenizer: &Tokenizer,
    tokens: usize,
    next_index: &mut usize,
    out: &mut Vec<Chunk>,
) -> (r: Result<(), ChunkError>)
    requires
        seg.start <= seg.end <= t.len(),
        *old(next_index) + (seg.end - seg.start) <= usize::MAX,
    ensures
        tokens <= MAX_TOKENS ==> r is Ok,
        segment_body(t@, seg@).len() > 0 && tokens <= MAX_TOKENS ==> final(out)@.len() == old(out)@.len() + 1
            && final(out)@[old(out)@.len() as int].token_count == tokens,
        old(out)@.len() <= final(out)@.len() <= old(out)@.len() + (seg.end - seg.start),
        *final(next_index) == *old(next_index) + (final(out)@.len() - old(out)@.len()),
        final(out)@.subrange(0, old(out)@.len() as int) == old(out)@,
        within_limit(final(out)@.subrange(old(out)@.len() as int, final(out)@.len() as int)),
        r matches Err(e) ==> segment_body(t@, seg@).len() > 0 && tokens > MAX_TOKENS && (e is Tokenizer
            || (e matches ChunkError::TokenLimit(_, n) && n > MODEL_TOKEN_LIMIT)),
        r is Ok ==> counted_emission(
            t@,
            map@,
            meta_view(*meta),
            seg@,
            ordinal as nat,
            *old(next_index) as nat,
            tokens as nat,
            final(out)@.subrange(old(out)@.len() as int, final(out)@.len() as int),
        ),
{
    let ghost old_out = out@;
    let ghost old_len = out@.len();
    let ghost old_next = *next_index;
    let (lo, hi) = trim_bounds(t, seg.start, seg.end);
    if lo == hi {
        assert(out@.subrange(old_len as int, out@.len() as int) =~= Seq::<Chunk>::empty());
        assert(out@.subrange(0, old_len as int) =~= old_out);
        return Ok(());
    }
    let base = base_content_type(seg);
    let id = base_id(meta, seg, ordinal);
    let body_chars = slice_to_vec(t, lo, hi);
    let trimmed = string_from_chars(body_chars.as_slice());
    if tokens <= MAX_TOKENS {
        let page_start = map.page_at(lo);
        let page_end = map.page_at(hi - 1);
        let c = assemble_chunk(seg, meta, id.as_str(), base, trimmed, 0, 1, page_start, page_end, *next_index, tokens);
        out.push(c);
        *next_index = *next_index + 1;
        proof {
            assert(out@.subrange(old_len as int, out@.len() as int) =~= seq![c]);
            assert(out@.subrange(0, old_len as int) =~= old_out);
        }
        return Ok(());
    }
    let pieces = match split_chunks(tokenizer, trimmed.as_str(), MAX_TOKENS, OVERLAP_TOKENS) {
        Ok(p) => p,
        Err(msg) => {
            assert(out@.subrange(old_len as int, out@.len() as int) =~= Seq::<Chunk>::empty());
            assert(out@.subrange(0, old_len as int) =~= old_out);
            return Err(ChunkError::Tokenizer(msg));
        },
    };
    proof {
        let sl = t@.subrange(seg.start as int, seg.end as int);
        lemma_skip_ws(sl, 0);
        assert(trimmed@[0] == t@[lo as int]);
        assert(t@[lo as int] == sl[skip_ws(sl, 0)]);
        assert(!is_ws(trimmed@[0]));
        assert(pieces@.map_values(|p: (usize, String)| p.0 as int) =~= piece_offsets(pieces@));
        assert(pieces@.map_values(|p: (usize, String)| p.1@) =~= piece_texts(pieces@));
        assert(covers(trimmed@, piece_offsets(pieces@), piece_texts(pieces@)));
        assert(pieces@.len() >= 1);
        lemma_piece_count(pieces@, trimmed@.len() as int);
    }
    match emit_sub_chunks(seg, ordinal, t, map, meta, tokenizer, &pieces, next_index, out) {
        Ok(()) => {},
        Err(e) => return Err(e),
    }
    proof {
        let cs = out@.subrange(old_len as int, out@.len() as int);
        assert(sub_chunks_at(cs, t@, map@, meta_view(*meta), seg@, ordinal as nat, cs.len(), old_next as int, piece_offsets(pieces@), piece_texts(pieces@))
            && covers(segment_body(t@, seg@), piece_offsets(pieces@), piece_texts(pieces@)));
    }
    Ok(())
}

/// Builds the chunks of one segment, sub-splitting it when its trimmed body
/// is over the token budget by the tokenizer's count, and appends them to
/// `out`, numbered on from `next_index`, failing as `emit_counted` does. The
/// counter must have room for one index per character of the segment.
pub fn emit_segment(
    seg: &Segment,
    ordinal: usize,
    t: &Vec<char>,
    map: &PageMap,
    meta: &DocMeta,
    tokenizer: &Tokenizer,
    next_index: &mut usize,
    out: &mut Vec<Chunk>,
) -> (r: Result<(), ChunkError>)
    requires
        seg.start <= seg.end <= t.len(),
        *old(next_index) + (seg.end - seg.start) <= usize::MAX,
    ensures
        old(out)@.len() <= final(out)@.len() <= old(out)@.len() + (seg.end - seg.start),
        *final(next_index) == *old(next_index) + (final(out)@.len() - old(out)@.len()),
        final(out)@.subrange(0, old(out)@.len() as int) == old(out)@,
        within_limit(final(out)@.subrange(old(out)@.len() as int, final(out)@.len() as int)),
        r matches Err(e) ==> e is Tokenizer || (e matches ChunkError::TokenLimit(_, n) && n
            > MODEL_TOKEN_LIMIT),
        r is Ok ==> emission(
            t@,
            map@,
            meta_view(*meta),
            seg@,
            ordinal as nat,
            *old(next_index) as nat,
            final(out)@.subrange(old(out)@.len() as int, final(out)@.len() as int),
        ),
{
    let (lo, hi) = trim_bounds(t, seg.start, seg.end);
    let body_chars = slice_to_vec(t, lo, hi);
    let trimmed = string_from_chars(body_chars.as_slice());
    let tokens = count_tokens(tokenizer, trimmed.as_str());
    emit_counted(seg, ordinal, t, map, meta, tokenizer, tokens, next_index, out)
}

// ---------------------------------------------------------------------------
// Chunking a document
// ---------------------------------------------------------------------------

/// The metadata that `doc_meta` derives from a path.
pub open spec fn doc_meta_of(path: Seq<char>) -> MetaView {
    let stem = stem_or_empty(path);
    let part = part_of_stem(stem);
    MetaView {
        document: stem,
        part: part,
        part_title: part_title_text(part),
        doc_version: version_of_stem(stem),
    }
}

/// The views of the page texts.
pub open spec fn page_views(pages: Seq<String>) -> Seq<Seq<char>> {
    pages.map_values(|p: String| p@)
}

/// Where each cleaned page starts in the concatenated text.
pub open spec fn page_starts(ps: Seq<Seq<char>>) -> Seq<usize> {
    Seq::new(ps.len(), |i: int| concat_text(ps.take(i)).len() as usize)
}

/// The chunks `cs` are the chunks of the segments `segs`, in order: segment
/// `i` yields `cs[bounds[i]..bounds[i + 1]]`.
pub open spec fn emitted(
    t: Seq<char>,
    starts: Seq<usize>,
    meta: MetaView,
    segs: Seq<SegmentView>,
    bounds: Seq<int>,
    cs: Seq<Chunk>,
) -> bool {
    &&& bounds.len() == segs.len() + 1
    &&& bounds[0] == 0
    &&& bounds[segs.len() as int] == cs.len()
    &&& forall|i: int| 0 <= i < segs.len() ==> #[trigger] bounds[i] <= bounds[i + 1]
    &&& forall|i: int|
        0 <= i < segs.len() ==> #[trigger] emission(
            t,
            starts,
            meta,
            segs[i],
            i as nat,
            bounds[i] as nat,
            cs.subrange(bounds[i], bounds[i + 1]),
        )
}

/// The chunks of a document with the given raw pages and path: the pages are
/// cleaned and concatenated, the outline of that text is built, and every
/// segment yields its chunks in order.
pub open spec fn document_chunks(ps: Seq<Seq<char>>, path: Seq<char>, cs: Seq<Chunk>) -> bool {
    let t = concat_text(ps);
    exists|bounds: Seq<int>| #[trigger] emitted(t, page_starts(ps), doc_meta_of(path), outline(t), bounds, cs)
}

/// Chunks within the limit followed by more chunks within the limit are
/// within the limit.
proof fn lemma_within_limit_append(before: Seq<Chunk>, after: Seq<Chunk>)
    requires
        before.len() <= after.len(),
        after.subrange(0, before.len() as int) == before,
        within_limit(before),
        within_limit(after.subrange(before.len() as int, after.len() as int)),
    ensures
        within_limit(after),
{
    assert forall|i: int| 0 <= i < after.len() implies (#[trigger] after[i]).token_count
        <= MODEL_TOKEN_LIMIT by {
        if i < before.len() {
            assert(after.subrange(0, before.len() as int)[i] == after[i]);
        } else {
            assert(after.subrange(before.len() as int, after.len() as int)[i - before.len()] == after[i]);
        }
    }
}

/// One more segment's chunks, appended after those of the segments before
/// it, extend what those segments emitted by one run.
proof fn lemma_emitted_step(
    t: Seq<char>,
    starts: Seq<usize>,
    meta: MetaView,
    segs: Seq<SegmentView>,
    bounds: Seq<int>,
    before: Seq<Chunk>,
    after: Seq<Chunk>,
    ordinal: int,
)
    requires
        0 <= ordinal < segs.len(),
        bounds.len() == ordinal + 1,
        bounds[ordinal] == before.len(),
        forall|i: int| 0 <= i < ordinal ==> #[trigger] bounds[i] <= bounds[i + 1],
        forall|i: int| 0 <= i <= ordinal ==> 0 <= #[trigger] bounds[i] <= before.len(),
        forall|i: int|
            0 <= i < ordinal ==> #[trigger] emission(
                t,
                starts,
                meta,
                segs[i],
                i as nat,
                bounds[i] as nat,
                before.subrange(bounds[i], bounds[i + 1]),
            ),
        before.len() <= after.len(),
        after.subrange(0, before.len() as int) == before,
        emission(
            t,
            starts,
            meta,
            segs[ordinal],
            ordinal as nat,
            before.len(),
            after.subrange(before.len() as int, after.len() as int),
        ),
    ensures
        ({
            let nb = bounds.push(after.len() as int);
            &&& forall|i: int| 0 <= i < ordinal + 1 ==> #[trigger] nb[i] <= nb[i + 1]
            &&& forall|i: int| 0 <= i <= ordinal + 1 ==> 0 <= #[trigger] nb[i] <= after.len()
            &&& forall|i: int|
                0 <= i < ordinal + 1 ==> #[trigger] emission(
                    t,
                    starts,
                    meta,
                    segs[i],
                    i as nat,
                    nb[i] as nat,
                    after.subrange(nb[i], nb[i + 1]),
                )
        }),
{
    let old_b = bounds;
    let nb = bounds.push(after.len() as int);
    assert forall|i: int| 0 <= i < ordinal + 1 implies #[trigger] emission(
        t,
        starts,
        meta,
        segs[i],
        i as nat,
        nb[i] as nat,
        after.subrange(nb[i], nb[i + 1]),
    ) by {
        assert(nb[i] == old_b[i]);
        if i < ordinal {
            assert(nb[i + 1] == old_b[i + 1]);
            assert(old_b[i] <= old_b[i + 1]);
            assert(0 <= old_b[i + 1] <= before.len());
            assert forall|x: int| old_b[i] <= x < old_b[i + 1] implies after[x] == before[x] by {
                assert(after.subrange(0, before.len() as int)[x] == after[x]);
            }
            assert(after.subrange(nb[i], nb[i + 1]) =~= before.subrange(old_b[i], old_b[i + 1]));
        } else {
            assert(nb[i] == before.len());
        }
    }
    assert forall|i: int| 0 <= i < ordinal + 1 implies #[trigger] nb[i] <= nb[i + 1] by {
        if i < ordinal {
            assert(nb[i] == old_b[i]);
            assert(nb[i + 1] == old_b[i + 1]);
        }
    }
    assert forall|i: int| 0 <= i <= ordinal + 1 implies 0 <= #[trigger] nb[i] <= after.len() by {
        if i <= ordinal {
            assert(nb[i] == old_b[i]);
        }
    }
}

/// Chunks a ccTalk document, given as the raw text of its pages, into
/// embedding-ready records. `chunk_index` values are assigned per document
/// starting at 0; callers processing several documents renumber them. Every
/// chunk stays at or below `MODEL_TOKEN_LIMIT` tokens: the document is
/// refused with `TokenLimit` where a sub-chunk would not, and with
/// `Tokenizer` where the tokenizer cannot encode a piece of an oversized
/// section.
pub fn chunk_document(pages: &[String], pdf_path: &str, tokenizer: &Tokenizer) -> (r: Result<Vec<Chunk>, ChunkError>)
    ensures
        r matches Ok(cs) ==> document_chunks(page_views(pages@), pdf_path@, cs@) && within_limit(cs@),
        r matches Err(e) ==> e is Tokenizer || (e matches ChunkError::TokenLimit(_, n) && n
            > MODEL_TOKEN_LIMIT),
{
    let ghost ps = page_views(pages@);
    let (text, map) = concatenate(pages);
    let meta = doc_meta(pdf_path);
    let segments = build_outline(text.as_str());
    let t = chars_of(text.as_str());
    let ghost segs = outline(t@);
    proof {
        lemma_outline_ranges(t@);
        assert(map@ =~= page_starts(ps));
        assert(meta_view(meta) == doc_meta_of(pdf_path@));
    }
    let tlen = t.len();
    let mut chunks: Vec<Chunk> = Vec::new();
    let mut index: usize = 0;
    let ghost mut bounds: Seq<int> = seq![0];
    let mut ordinal: usize = 0;
    while ordinal < segments.len()
        invariant
            ordinal <= segments.len(),
            seg_views(segments@) == segs,
            segs == outline(t@),
            forall|i: int|
                0 <= i < segs.len() ==> 0 <= #[trigger] segs[i].start <= segs[i].end <= t@.len(),
            index == chunks@.len(),
            within_limit(chunks@),
            tlen == t@.len(),
            forall|i: int|
                0 <= i < segs.len() - 1 ==> #[trigger] segs[i].end == segs[i + 1].start,
            segs.len() > 0 ==> segs[segs.len() - 1].end == t@.len(),
            chunks@.len() <= if ordinal < segs.len() {
                segs[ordinal as int].start
            } else {
                t@.len() as int
            },
            bounds.len() == ordinal + 1,
            bounds[0] == 0,
            bounds[ordinal as int] == chunks@.len(),
            forall|i: int| 0 <= i < ordinal ==> #[trigger] bounds[i] <= bounds[i + 1],
            forall|i: int| 0 <= i <= ordinal ==> 0 <= #[trigger] bounds[i] <= chunks@.len(),
            forall|i: int|
                0 <= i < ordinal ==> #[trigger] emission(
                    t@,
                    map@,
                    meta_view(meta),
                    segs[i],
                    i as nat,
                    bounds[i] as nat,
                    chunks@.subrange(bounds[i], bounds[i + 1]),
                ),
        decreases segments.len() - ordinal,
    {
        let seg = &segments[ordinal];
        proof {
            assert(seg_views(segments@)[ordinal as int] == seg@);
            assert(segs[ordinal as int] == seg@);
            assert(0 <= segs[ordinal as int].start <= segs[ordinal as int].end <= t@.len());
            if ordinal + 1 < segs.len() {
                assert(segs[ordinal as int].end == segs[ordinal + 1].start);
            }
        }
        let ghost before = chunks@;
        match emit_segment(seg, ordinal, &t, &map, &meta, tokenizer, &mut index, &mut chunks) {
            Ok(()) => {},
            Err(e) => return Err(e),
        }
        proof {
            lemma_within_limit_append(before, chunks@);
            lemma_emitted_step(t@, map@, meta_view(meta), segs, bounds, before, chunks@, ordinal as int);
            bounds = bounds.push(chunks@.len() as int);
        }
        ordinal = ordinal + 1;
    }
    proof {
        assert(text@ == t@);
        assert(emitted(concat_text(ps), page_starts(ps), doc_meta_of(pdf_path@), outline(concat_text(ps)), bounds, chunks@));
    }
    Ok(chunks)
}

} // verus!
