//! The chunk record handed to the embedding step and stored for retrieval.

use vstd::prelude::*;

use crate::text::{
    chars_of, join, join_offset, join_strings, lemma_join_entry, lemma_join_len,
    lemma_join_offset_nonneg, lemma_join_sep, opt_view, push_all, str_views,
    string_from_chars,
};

verus! {

/// The kind of content a chunk holds, used as a retrieval filter hint.
#[derive(Debug, Clone, Copy, PartialEq, Eq, Structural)]
pub enum ContentType {
    /// A ccTalk command definition (`Header NNN - …`).
    Command,
    /// A numbered specification section.
    Section,
    /// A section dominated by tabular/numeric rows.
    Table,
    /// Front matter appearing before the first numbered section.
    Preamble,
}

/// A single embedding-ready chunk with full provenance metadata.
#[derive(Debug, Clone)]
pub struct Chunk {
    // Identity
    pub id: String,
    pub index: usize,
    // Source document
    pub document: String,
    pub part: u8,
    pub part_title: String,
    pub doc_version: String,
    // Structural location
    pub section_number: Option<String>,
    pub section_title: Option<String>,
    pub breadcrumb: Vec<String>,
    // ccTalk command
    pub header_number: Option<u16>,
    pub header_name: Option<String>,
    // Pagination (1-based)
    pub page_start: usize,
    pub page_end: usize,
    // Sub-splitting bookkeeping
    pub sub_index: usize,
    pub sub_total: usize,
    // Content
    pub content_type: ContentType,
    pub char_count: usize,
    pub token_count: usize,
    pub text: String,
}

/// The mathematical content of a chunk.
pub struct ChunkView {
    pub id: Seq<char>,
    pub index: int,
    pub document: Seq<char>,
    pub part: u8,
    pub part_title: Seq<char>,
    pub doc_version: Seq<char>,
    pub section_number: Option<Seq<char>>,
    pub section_title: Option<Seq<char>>,
    pub breadcrumb: Seq<Seq<char>>,
    pub header_number: Option<u16>,
    pub header_name: Option<Seq<char>>,
    pub page_start: int,
    pub page_end: int,
    pub sub_index: int,
    pub sub_total: int,
    pub content_type: ContentType,
    pub char_count: int,
    pub token_count: int,
    pub text: Seq<char>,
}

impl View for Chunk {
    type V = ChunkView;

    open spec fn view(&self) -> ChunkView {
        ChunkView {
            id: self.id@,
            index: self.index as int,
            document: self.document@,
            part: self.part,
            part_title: self.part_title@,
            doc_version: self.doc_version@,
            section_number: opt_view(self.section_number),
            section_title: opt_view(self.section_title),
            breadcrumb: str_views(self.breadcrumb@),
            header_number: self.header_number,
            header_name: opt_view(self.header_name),
            page_start: self.page_start as int,
            page_end: self.page_end as int,
            sub_index: self.sub_index as int,
            sub_total: self.sub_total as int,
            content_type: self.content_type,
            char_count: self.char_count as int,
            token_count: self.token_count as int,
            text: self.text@,
        }
    }
}

/// The text embedded for a passage: `"passage: "`, the breadcrumb joined with
/// spaces, a line feed, then the chunk text.
pub open spec fn passage_input(breadcrumb: Seq<Seq<char>>, text: Seq<char>) -> Seq<char> {
    "passage: "@ + join(breadcrumb, seq![' ']) + seq!['\n'] + text
}

/// The passage embedded for a chunk is `"passage: "`, then every breadcrumb
/// entry in order, at its offset, with one space between neighbours, then a
/// line feed and the chunk text, and nothing else.
pub proof fn lemma_passage_input(breadcrumb: Seq<Seq<char>>, text: Seq<char>)
    ensures
        ({
            let p = passage_input(breadcrumb, text);
            let n = breadcrumb.len();
            &&& p.subrange(0, 9) == "passage: "@
            &&& forall|i: int|
                0 <= i < n ==> p.subrange(
                    9 + join_offset(breadcrumb, 1, i),
                    9 + join_offset(breadcrumb, 1, i) + (#[trigger] breadcrumb[i]).len(),
                ) == breadcrumb[i]
            &&& forall|i: int|
                0 <= i < n - 1 ==> p.subrange(
                    9 + join_offset(breadcrumb, 1, i) + (#[trigger] breadcrumb[i]).len(),
                    9 + join_offset(breadcrumb, 1, i + 1),
                ) == seq![' ']
            &&& p.len() == 9 + (if n > 0 {
                join_offset(breadcrumb, 1, n - 1) + breadcrumb[n - 1].len()
            } else {
                0
            }) + 1 + text.len()
            &&& p.subrange(p.len() - text.len() - 1, p.len() as int) == seq!['\n'] + text
        }),
{
    reveal_strlit("passage: ");
    let sp = seq![' '];
    let j = join(breadcrumb, sp);
    let head = "passage: "@;
    let tail = seq!['\n'] + text;
    let p = passage_input(breadcrumb, text);
    assert(p =~= head + j + tail);
    assert(head.len() == 9);
    if breadcrumb.len() > 0 {
        lemma_join_len(breadcrumb, sp);
    } else {
        assert(j.len() == 0);
    }
    assert(p.subrange(0, 9) =~= head);
    assert forall|i: int| 0 <= i < breadcrumb.len() implies p.subrange(
        9 + join_offset(breadcrumb, 1, i),
        9 + join_offset(breadcrumb, 1, i) + (#[trigger] breadcrumb[i]).len(),
    ) == breadcrumb[i] by {
        lemma_join_entry(breadcrumb, sp, i);
        lemma_join_offset_nonneg(breadcrumb, 1, i);
        let o = join_offset(breadcrumb, 1, i);
        lemma_middle(head, j, tail, o, o + breadcrumb[i].len());
    }
    assert forall|i: int| 0 <= i < breadcrumb.len() - 1 implies p.subrange(
        9 + join_offset(breadcrumb, 1, i) + (#[trigger] breadcrumb[i]).len(),
        9 + join_offset(breadcrumb, 1, i + 1),
    ) == seq![' '] by {
        lemma_join_sep(breadcrumb, sp, i);
        lemma_join_entry(breadcrumb, sp, i + 1);
        lemma_join_offset_nonneg(breadcrumb, 1, i);
        let o = join_offset(breadcrumb, 1, i);
        lemma_middle(head, j, tail, o + breadcrumb[i].len(), join_offset(breadcrumb, 1, i + 1));
    }
    assert(p.subrange(p.len() - text.len() - 1, p.len() as int) =~= tail);
}

proof fn lemma_middle(h: Seq<char>, m: Seq<char>, tl: Seq<char>, a: int, b: int)
    requires
        0 <= a <= b <= m.len(),
    ensures
        (h + m + tl).subrange(h.len() + a, h.len() + b) == m.subrange(a, b),
{
    assert((h + m + tl).subrange(h.len() + a, h.len() + b) =~= m.subrange(a, b));
}

impl Chunk {
    /// The text to embed for this chunk: `"passage: "`, the breadcrumb entries
    /// separated by spaces, a line feed, then the chunk text.
    pub fn embedding_input(&self) -> (r: String)
        ensures
            r@ == passage_input(str_views(self.breadcrumb@), self.text@),
    {
        let mut out = chars_of("passage: ");
        let sep = chars_of(" ");
        proof {
            reveal_strlit(" ");
        }
        assert(sep@ =~= seq![' ']);
        let crumbs = join_strings(&self.breadcrumb, &sep);
        push_all(&mut out, crumbs.as_slice());
        out.push('\n');
        let body = chars_of(self.text.as_str());
        push_all(&mut out, body.as_slice());
        string_from_chars(out.as_slice())
    }
}

/// The text embedded for a search query: `"query: "` then the query.
pub open spec fn query_text(query: Seq<char>) -> Seq<char> {
    "query: "@ + query
}

/// The text to embed for a search query.
pub fn query_input(query: &str) -> (r: String)
    ensures
        r@ == query_text(query@),
{
    let mut out = chars_of("query: ");
    let body = chars_of(query);
    push_all(&mut out, body.as_slice());
    string_from_chars(out.as_slice())
}

} // verus!
