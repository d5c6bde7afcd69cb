//! What identifies a chunk within its document: its index and its id.

use vstd::prelude::*;

use crate::chunk::Chunk;
use crate::chunker::{
    doc_meta_of, document_chunks, emission, emitted, page_starts, split_emission, sub_chunk,
    sub_chunks_at, whole_emission, MetaView, MAX_TOKENS,
};
use crate::meta::{base_id_text, breadcrumb_prefix_text};
use crate::number::{all_ascii_digits, decimal, lemma_decimal, lemma_zero_pad, zero_pad};
use crate::outline::{outline, SegmentView};
use crate::page::{concat_text, lemma_page_number_monotone, page_number};
use crate::chunker::{body_start, dec_sat, segment_body};

verus! {

/// The id of sub-chunk `k` of the `ordinal`-th segment `seg` of a document of
/// part `part`.
pub open spec fn chunk_id(part: u8, seg: SegmentView, ordinal: nat, k: nat) -> Seq<char> {
    base_id_text(part, seg, ordinal) + seq!['-'] + decimal(k)
}

/// The largest page number: the number of pages, or 1 when there are none.
pub open spec fn last_page(starts: Seq<usize>) -> nat {
    if starts.len() == 0 {
        1
    } else {
        starts.len()
    }
}

/// The chunks a segment yields are numbered on from `first`, carry the
/// segment's base id and their own position among them, and start on a page
/// no later than the one they end on.
proof fn lemma_emission_identity(
    t: Seq<char>,
    starts: Seq<usize>,
    meta: MetaView,
    seg: SegmentView,
    ordinal: nat,
    first: nat,
    cs: Seq<Chunk>,
)
    requires
        emission(t, starts, meta, seg, ordinal, first, cs),
    ensures
        forall|k: int|
            0 <= k < cs.len() ==> (#[trigger] cs[k]).index == first + k && cs[k].id@ == chunk_id(
                meta.part,
                seg,
                ordinal,
                k as nat,
            ),
        forall|k: int|
            0 <= k < cs.len() ==> 1 <= (#[trigger] cs[k]).page_start <= cs[k].page_end <= last_page(
                starts,
            ),
{
    let body = segment_body(t, seg);
    let abs = body_start(t, seg);
    if cs.len() == 1 && cs[0].index == first && cs[0].id@ == chunk_id(meta.part, seg, ordinal, 0)
        && cs[0].page_start == page_number(starts, abs) && cs[0].page_end == page_number(
        starts,
        abs + body.len() - 1,
    ) {
        lemma_page_number_monotone(starts, abs, abs + body.len() - 1);
    } else if cs.len() > 0 {
        let (offsets, pieces) = choose|offsets: Seq<int>, pieces: Seq<Seq<char>>|
            #[trigger] sub_chunks_at(cs, t, starts, meta, seg, ordinal, cs.len(), first as int, offsets, pieces);
        assert forall|k: int| 0 <= k < cs.len() implies (#[trigger] cs[k]).index == first + k && cs[k].id@
            == chunk_id(meta.part, seg, ordinal, k as nat) by {
            assert(sub_chunk(cs[k], t, starts, meta, seg, ordinal, k, cs.len(), first as int, offsets[k], pieces[k]));
        }
        assert forall|k: int| 0 <= k < cs.len() implies 1 <= (#[trigger] cs[k]).page_start
            <= cs[k].page_end <= last_page(starts) by {
            assert(sub_chunk(cs[k], t, starts, meta, seg, ordinal, k, cs.len(), first as int, offsets[k], pieces[k]));
            lemma_page_number_monotone(starts, abs + offsets[k], dec_sat(abs + offsets[k] + pieces[k].len()));
        }
    }
}

/// Every position below the last bound lies between two consecutive bounds.
proof fn lemma_locate(bounds: Seq<int>, n: int, x: int) -> (i: int)
    requires
        0 <= n < bounds.len(),
        forall|j: int| 0 <= j < n ==> #[trigger] bounds[j] <= bounds[j + 1],
        bounds[0] <= x < bounds[n],
    ensures
        0 <= i < n,
        bounds[i] <= x < bounds[i + 1],
    decreases n,
{
    if x >= bounds[n - 1] {
        n - 1
    } else {
        lemma_locate(bounds, n - 1, x)
    }
}

/// Bounds that grow step by step grow over any distance.
proof fn lemma_bounds_grow(bounds: Seq<int>, n: int, a: int, b: int)
    requires
        0 <= a <= b <= n < bounds.len(),
        forall|j: int| 0 <= j < n ==> #[trigger] bounds[j] <= bounds[j + 1],
    ensures
        bounds[a] <= bounds[b],
    decreases b - a,
{
    if a < b {
        lemma_bounds_grow(bounds, n, a, b - 1);
        assert(bounds[b - 1] <= bounds[b]);
    }
}

/// Each chunk of a document sits in the run of chunks of one segment, at a
/// position whose index and id that segment fixes.
proof fn lemma_chunk_origin(ps: Seq<Seq<char>>, path: Seq<char>, cs: Seq<Chunk>, bounds: Seq<int>, x: int) -> (ik: (int, int))
    requires
        emitted(concat_text(ps), page_starts(ps), doc_meta_of(path), outline(concat_text(ps)), bounds, cs),
        0 <= x < cs.len(),
    ensures
        0 <= ik.0 < outline(concat_text(ps)).len(),
        0 <= ik.1,
        ik.0 + 1 < bounds.len(),
        bounds[ik.0] + ik.1 == x,
        cs[x].index == x,
        1 <= cs[x].page_start <= cs[x].page_end <= last_page(page_starts(ps)),
        cs[x].id@ == chunk_id(doc_meta_of(path).part, outline(concat_text(ps))[ik.0], ik.0 as nat, ik.1 as nat),
{
    let t = concat_text(ps);
    let segs = outline(t);
    let i = lemma_locate(bounds, segs.len() as int, x);
    lemma_bounds_grow(bounds, segs.len() as int, 0, i);
    lemma_bounds_grow(bounds, segs.len() as int, i + 1, segs.len() as int);
    let sub = cs.subrange(bounds[i], bounds[i + 1]);
    assert(emission(t, page_starts(ps), doc_meta_of(path), segs[i], i as nat, bounds[i] as nat, sub));
    lemma_emission_identity(t, page_starts(ps), doc_meta_of(path), segs[i], i as nat, bounds[i] as nat, sub);
    let k = x - bounds[i];
    assert(sub[k] == cs[x]);
    (i, k)
}

/// Chunk indices are assigned per document starting at 0: every chunk's
/// index is its position among the chunks of its document.
pub proof fn lemma_chunk_indices(ps: Seq<Seq<char>>, path: Seq<char>, cs: Seq<Chunk>)
    requires
        document_chunks(ps, path, cs),
    ensures
        forall|x: int| 0 <= x < cs.len() ==> (#[trigger] cs[x]).index == x,
{
    let t = concat_text(ps);
    let bounds = choose|bounds: Seq<int>|
        #[trigger] emitted(t, page_starts(ps), doc_meta_of(path), outline(t), bounds, cs);
    assert forall|x: int| 0 <= x < cs.len() implies (#[trigger] cs[x]).index == x by {
        lemma_chunk_origin(ps, path, cs, bounds, x);
    }
}

/// Every chunk of a document starts on a page no later than the one it ends
/// on, both between 1 and the number of pages (1 when there are none).
pub proof fn lemma_chunk_pages(ps: Seq<Seq<char>>, path: Seq<char>, cs: Seq<Chunk>)
    requires
        document_chunks(ps, path, cs),
    ensures
        forall|x: int|
            0 <= x < cs.len() ==> 1 <= (#[trigger] cs[x]).page_start <= cs[x].page_end <= if ps.len()
                == 0 {
                1
            } else {
                ps.len()
            },
{
    let t = concat_text(ps);
    let bounds = choose|bounds: Seq<int>|
        #[trigger] emitted(t, page_starts(ps), doc_meta_of(path), outline(t), bounds, cs);
    assert(page_starts(ps).len() == ps.len());
    assert forall|x: int| 0 <= x < cs.len() implies 1 <= (#[trigger] cs[x]).page_start
        <= cs[x].page_end <= if ps.len() == 0 {
        1
    } else {
        ps.len()
    } by {
        lemma_chunk_origin(ps, path, cs, bounds, x);
    }
}

/// A chunk of a segment that counts more than `MAX_TOKENS` tokens is one of
/// its sub-chunks: its text is its context line and a newline, followed by a
/// non-empty piece of the segment's trimmed body found at offset `op.0`.
proof fn lemma_emission_budget(
    t: Seq<char>,
    starts: Seq<usize>,
    meta: MetaView,
    seg: SegmentView,
    ordinal: nat,
    first: nat,
    cs: Seq<Chunk>,
    k: int,
) -> (op: (int, Seq<char>))
    requires
        emission(t, starts, meta, seg, ordinal, first, cs),
        0 <= k < cs.len(),
        cs[k].token_count > MAX_TOKENS,
    ensures
        0 <= op.0,
        op.0 + op.1.len() <= segment_body(t, seg).len(),
        op.1.len() > 0,
        segment_body(t, seg).subrange(op.0, op.0 + op.1.len()) == op.1,
        cs[k].text@ == breadcrumb_prefix_text(meta.part, seg, cs[k].sub_index as nat, cs[k].sub_total as nat)
            + seq!['\n'] + op.1,
{
    assert(!whole_emission(t, starts, meta, seg, ordinal, first, cs));
    assert(split_emission(t, starts, meta, seg, ordinal, first, cs));
    let (offsets, pieces) = choose|offsets: Seq<int>, pieces: Seq<Seq<char>>|
        #[trigger] sub_chunks_at(cs, t, starts, meta, seg, ordinal, cs.len(), first as int, offsets, pieces);
    assert(sub_chunk(cs[k], t, starts, meta, seg, ordinal, k, cs.len(), first as int, offsets[k], pieces[k]));
    (offsets[k], pieces[k])
}

/// The token budget: no chunk of a document that counts more than
/// `MAX_TOKENS` tokens holds a whole section. Such a chunk is a sub-chunk of
/// the `r.0`-th segment of the document's outline: its text is its context
/// line `[Part p | ... | k/n]` and a newline, followed by a non-empty piece of
/// that segment's trimmed body, found there at offset `r.1`.
pub proof fn lemma_over_budget_chunks_are_split(ps: Seq<Seq<char>>, path: Seq<char>, cs: Seq<Chunk>, x: int) -> (r: (
    int,
    int,
    Seq<char>,
))
    requires
        document_chunks(ps, path, cs),
        0 <= x < cs.len(),
        cs[x].token_count > MAX_TOKENS,
    ensures
        0 <= r.0 < outline(concat_text(ps)).len(),
        0 <= r.1,
        r.2.len() > 0,
        r.1 + r.2.len() <= segment_body(concat_text(ps), outline(concat_text(ps))[r.0]).len(),
        segment_body(concat_text(ps), outline(concat_text(ps))[r.0]).subrange(r.1, r.1 + r.2.len()) == r.2,
        cs[x].text@ == breadcrumb_prefix_text(
            doc_meta_of(path).part,
            outline(concat_text(ps))[r.0],
            cs[x].sub_index as nat,
            cs[x].sub_total as nat,
        ) + seq!['\n'] + r.2,
{
    let t = concat_text(ps);
    let segs = outline(t);
    let bounds = choose|bounds: Seq<int>|
        #[trigger] emitted(t, page_starts(ps), doc_meta_of(path), segs, bounds, cs);
    let i = lemma_locate(bounds, segs.len() as int, x);
    lemma_bounds_grow(bounds, segs.len() as int, 0, i);
    lemma_bounds_grow(bounds, segs.len() as int, i + 1, segs.len() as int);
    let sub = cs.subrange(bounds[i], bounds[i + 1]);
    assert(emission(t, page_starts(ps), doc_meta_of(path), segs[i], i as nat, bounds[i] as nat, sub));
    let k = x - bounds[i];
    assert(sub[k] == cs[x]);
    let (o, piece) = lemma_emission_budget(t, page_starts(ps), doc_meta_of(path), segs[i], i as nat, bounds[i] as nat, sub, k);
    (i, o, piece)
}

/// In a string that is a numeral, a `'-'` and something, the numeral is
/// fixed: the position of the first `'-'` ends it.
proof fn lemma_numeral_before_dash(d1: Seq<char>, r1: Seq<char>, d2: Seq<char>, r2: Seq<char>)
    requires
        all_ascii_digits(d1),
        all_ascii_digits(d2),
        d1 + seq!['-'] + r1 == d2 + seq!['-'] + r2,
    ensures
        d1 == d2,
        r1 == r2,
{
    let s = d1 + seq!['-'] + r1;
    let s2 = d2 + seq!['-'] + r2;
    if d1.len() < d2.len() {
        assert(s[d1.len() as int] == '-');
        assert(s2[d1.len() as int] == d2[d1.len() as int]);
    } else if d2.len() < d1.len() {
        assert(s2[d2.len() as int] == '-');
        assert(s[d2.len() as int] == d1[d2.len() as int]);
    } else {
        assert(d1 =~= s.subrange(0, d1.len() as int));
        assert(d2 =~= s2.subrange(0, d2.len() as int));
        assert(r1 =~= s.subrange(d1.len() as int + 1, s.len() as int));
        assert(r2 =~= s2.subrange(d2.len() as int + 1, s2.len() as int));
    }
}

/// In a string that is something, a `'-'` and a numeral, the numeral is
/// fixed: the position of the last `'-'` starts it.
proof fn lemma_numeral_after_dash(b1: Seq<char>, d1: Seq<char>, b2: Seq<char>, d2: Seq<char>)
    requires
        all_ascii_digits(d1),
        all_ascii_digits(d2),
        b1 + seq!['-'] + d1 == b2 + seq!['-'] + d2,
    ensures
        b1 == b2,
        d1 == d2,
{
    let s = b1 + seq!['-'] + d1;
    let s2 = b2 + seq!['-'] + d2;
    let n = s.len() as int;
    if d1.len() < d2.len() {
        let q = n - d1.len() - 1;
        assert(s[q] == '-');
        assert(s2[q] == d2[q - b2.len() - 1]);
    } else if d2.len() < d1.len() {
        let q = n - d2.len() - 1;
        assert(s2[q] == '-');
        assert(s[q] == d1[q - b1.len() - 1]);
    } else {
        assert(b1 =~= s.subrange(0, b1.len() as int));
        assert(b2 =~= s2.subrange(0, b2.len() as int));
        assert(d1 =~= s.subrange(b1.len() as int + 1, n));
        assert(d2 =~= s2.subrange(b2.len() as int + 1, n));
    }
}

/// The `(part, ordinal)` pair makes a base id unique: base ids of different
/// parts or different ordinals differ, whatever their segments.
pub proof fn lemma_base_ids_distinct(p1: u8, s1: SegmentView, o1: nat, p2: u8, s2: SegmentView, o2: nat)
    requires
        p1 != p2 || o1 != o2,
    ensures
        base_id_text(p1, s1, o1) != base_id_text(p2, s2, o2),
{
    reveal_strlit("part");
    let z1 = zero_pad(decimal(o1), 4);
    let z2 = zero_pad(decimal(o2), 4);
    lemma_decimal(o1);
    lemma_decimal(o2);
    lemma_decimal(p1 as nat);
    lemma_decimal(p2 as nat);
    lemma_zero_pad(decimal(o1), 4);
    lemma_zero_pad(decimal(o2), 4);
    let b1 = base_id_text(p1, s1, o1);
    let b2 = base_id_text(p2, s2, o2);
    let r1 = z1 + seq!['-'] + crate::meta::id_suffix(s1);
    let r2 = z2 + seq!['-'] + crate::meta::id_suffix(s2);
    let q1 = decimal(p1 as nat) + seq!['-'] + r1;
    let q2 = decimal(p2 as nat) + seq!['-'] + r2;
    assert(b1 =~= "part"@ + q1);
    assert(b2 =~= "part"@ + q2);
    if b1 == b2 {
        assert(q1 =~= b1.subrange(4, b1.len() as int));
        assert(q2 =~= b2.subrange(4, b2.len() as int));
        lemma_numeral_before_dash(decimal(p1 as nat), r1, decimal(p2 as nat), r2);
        lemma_numeral_before_dash(z1, crate::meta::id_suffix(s1), z2, crate::meta::id_suffix(s2));
    }
}

/// Chunk ids are unique within a document: the id of a chunk names its
/// segment's part and ordinal and its position among that segment's chunks.
pub proof fn lemma_chunk_ids_unique(ps: Seq<Seq<char>>, path: Seq<char>, cs: Seq<Chunk>)
    requires
        document_chunks(ps, path, cs),
    ensures
        forall|x: int, y: int| 0 <= x < y < cs.len() ==> (#[trigger] cs[x]).id@ != (#[trigger] cs[y]).id@,
{
    let t = concat_text(ps);
    let segs = outline(t);
    let part = doc_meta_of(path).part;
    let bounds = choose|bounds: Seq<int>|
        #[trigger] emitted(t, page_starts(ps), doc_meta_of(path), segs, bounds, cs);
    assert forall|x: int, y: int| 0 <= x < y < cs.len() implies (#[trigger] cs[x]).id@ != (#[trigger] cs[y]).id@ by {
        let (i, k) = lemma_chunk_origin(ps, path, cs, bounds, x);
        let (j, l) = lemma_chunk_origin(ps, path, cs, bounds, y);
        if cs[x].id@ == cs[y].id@ {
            lemma_decimal(k as nat);
            lemma_decimal(l as nat);
            lemma_numeral_after_dash(
                base_id_text(part, segs[i], i as nat),
                decimal(k as nat),
                base_id_text(part, segs[j], j as nat),
                decimal(l as nat),
            );
            if i != j {
                lemma_base_ids_distinct(part, segs[i], i as nat, part, segs[j], j as nat);
            }
            assert(i == j && k == l);
        }
    }
}

} // verus!
