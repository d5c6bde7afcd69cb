//! How chunks are laid out as database rows, and read back.

use vstd::prelude::*;

use crate::chunk::{Chunk, ChunkView, ContentType};
use crate::text::{
    chars_eq, chars_of, join, join_strings, match_at, matches_at, opt_view, slice_to_vec, str_views,
    string_from_chars,
};

verus! {

/// A chunk as the columns of its database row.
#[derive(Debug)]
pub struct ChunkRow {
    pub id: String,
    pub chunk_index: i64,
    pub document: String,
    pub part: u8,
    pub part_title: String,
    pub doc_version: String,
    pub section_number: Option<String>,
    pub section_title: Option<String>,
    pub breadcrumb: String,
    pub header_number: Option<u16>,
    pub header_name: Option<String>,
    pub page_start: i64,
    pub page_end: i64,
    pub sub_index: i64,
    pub sub_total: i64,
    pub content_type: String,
    pub char_count: i64,
    pub token_count: i64,
    pub text: String,
}

/// Why a chunk cannot be written as a row, or a row read back as a chunk.
#[derive(Debug)]
pub enum StorageError {
    /// A count does not fit the `INTEGER` column (`i64`).
    TooLarge(usize),
    /// The value read from the given column is not a valid count.
    OutOfRange(usize, i64),
    /// The content type column holds an unknown label.
    UnknownContentType(String),
    /// Chunks and embeddings differ in number.
    CountMismatch(usize, usize),
    /// The embedding of the given chunk has the given number of dimensions.
    Dimensions(String, usize),
}

/// The separator between breadcrumb entries in the `breadcrumb` column.
pub open spec fn crumb_sep() -> Seq<char> {
    seq![' ', ':', ':', ' ']
}

/// The label of a content type in the `content_type` column.
pub open spec fn content_type_text(ct: ContentType) -> Seq<char> {
    match ct {
        ContentType::Command => "command"@,
        ContentType::Section => "section"@,
        ContentType::Table => "table"@,
        ContentType::Preamble => "preamble"@,
    }
}

/// The content type with the given label.
pub open spec fn content_type_of(s: Seq<char>) -> Option<ContentType> {
    if s == "command"@ {
        Some(ContentType::Command)
    } else if s == "section"@ {
        Some(ContentType::Section)
    } else if s == "table"@ {
        Some(ContentType::Table)
    } else if s == "preamble"@ {
        Some(ContentType::Preamble)
    } else {
        None
    }
}

/// The label of a content type.
pub fn content_type_label(ct: ContentType) -> (r: String)
    ensures
        r@ == content_type_text(ct),
{
    let s = match ct {
        ContentType::Command => "command",
        ContentType::Section => "section",
        ContentType::Table => "table",
        ContentType::Preamble => "preamble",
    };
    string_from_chars(chars_of(s).as_slice())
}

/// The content type with the given label, if it is one.
pub fn parse_content_type(s: &str) -> (r: Option<ContentType>)
    ensures
        r == content_type_of(s@),
{
    let v = chars_of(s);
    if chars_eq(&v, &chars_of("command")) {
        Some(ContentType::Command)
    } else if chars_eq(&v, &chars_of("section")) {
        Some(ContentType::Section)
    } else if chars_eq(&v, &chars_of("table")) {
        Some(ContentType::Table)
    } else if chars_eq(&v, &chars_of("preamble")) {
        Some(ContentType::Preamble)
    } else {
        None
    }
}

// ---------------------------------------------------------------------------
// Splitting on a separator
// ---------------------------------------------------------------------------

/// The first position at or after `p` where `sep` occurs in `s`.
pub open spec fn find_from(s: Seq<char>, sep: Seq<char>, p: int) -> Option<int>
    decreases s.len() + 1 - p,
{
    if p < 0 || p > s.len() {
        None
    } else if match_at(s, p, sep) {
        Some(p)
    } else {
        find_from(s, sep, p + 1)
    }
}

pub proof fn lemma_find_from(s: Seq<char>, sep: Seq<char>, p: int)
    requires
        0 <= p,
    ensures
        find_from(s, sep, p) matches Some(i) ==> p <= i && match_at(s, i, sep),
        find_from(s, sep, p) is None ==> forall|i: int| p <= i ==> !#[trigger] match_at(s, i, sep),
        forall|i: int|
            p <= i && match_at(s, i, sep) && (forall|k: int| p <= k < i ==> !#[trigger] match_at(s, k, sep))
                ==> #[trigger] find_from(s, sep, p) == Some(i),
    decreases s.len() + 1 - p,
{
    if p > s.len() {
        assert forall|i: int| p <= i implies !#[trigger] match_at(s, i, sep) by {}
    } else if match_at(s, p, sep) {
    } else {
        lemma_find_from(s, sep, p + 1);
        assert forall|i: int|
            p <= i && match_at(s, i, sep) && (forall|k: int| p <= k < i ==> !#[trigger] match_at(s, k, sep))
                implies #[trigger] find_from(s, sep, p) == Some(i) by {
            if i == p {
            } else {
                assert forall|k: int| p + 1 <= k < i implies !#[trigger] match_at(s, k, sep) by {}
            }
        }
    }
}

/// The pieces of `s[p..]` between occurrences of `sep`, found from left to
/// right without overlap (`str::split` with a string pattern).
pub open spec fn split_from(s: Seq<char>, sep: Seq<char>, p: int) -> Seq<Seq<char>>
    decreases s.len() + 1 - p,
{
    if sep.len() == 0 || p < 0 || p > s.len() {
        seq![]
    } else {
        match find_from(s, sep, p) {
            None => seq![s.subrange(p, s.len() as int)],
            Some(i) => {
                proof {
                    lemma_find_from(s, sep, p);
                }
                seq![s.subrange(p, i)] + split_from(s, sep, i + sep.len())
            },
        }
    }
}

/// `str::split(sep)` of `s`.
pub open spec fn split(s: Seq<char>, sep: Seq<char>) -> Seq<Seq<char>> {
    split_from(s, sep, 0)
}

/// The entries of a stored breadcrumb.
pub fn split_breadcrumb(s: &str) -> (r: Vec<String>)
    ensures
        str_views(r@) == split(s@, crumb_sep()),
{
    let t = chars_of(s);
    let mut sep: Vec<char> = Vec::new();
    sep.push(' ');
    sep.push(':');
    sep.push(':');
    sep.push(' ');
    assert(sep@ =~= crumb_sep());
    let mut out: Vec<String> = Vec::new();
    let mut p: usize = 0;
    let mut i: usize = 0;
    loop
        invariant
            p <= i <= t.len(),
            t@ == s@,
            sep@ == crumb_sep(),
            split(t@, crumb_sep()) == str_views(out@) + split_from(t@, crumb_sep(), p as int),
            find_from(t@, crumb_sep(), p as int) == find_from(t@, crumb_sep(), i as int),
        decreases t.len() + 1 - p, t.len() - i,
    {
        if matches_at(&t, i, &sep) {
            proof {
                lemma_find_from(t@, crumb_sep(), p as int);
            }
            let piece = slice_to_vec(&t, p, i);
            let ghost before = out@;
            out.push(string_from_chars(piece.as_slice()));
            proof {
                assert(str_views(out@) =~= str_views(before).push(piece@));
                assert(split_from(t@, crumb_sep(), p as int) == seq![piece@] + split_from(t@, crumb_sep(), i + 4));
                assert(str_views(before) + (seq![piece@] + split_from(t@, crumb_sep(), i + 4)) =~= str_views(out@) + split_from(t@, crumb_sep(), i + 4));
            }
            p = i + 4;
            i = i + 4;
        } else if i == t.len() {
            proof {
                lemma_find_from(t@, crumb_sep(), p as int);
                assert(find_from(t@, crumb_sep(), i + 1) is None);
            }
            let piece = slice_to_vec(&t, p, i);
            let ghost before = out@;
            out.push(string_from_chars(piece.as_slice()));
            proof {
                assert(split_from(t@, crumb_sep(), p as int) == seq![piece@]);
                assert(str_views(out@) =~= str_views(before) + seq![piece@]);
            }
            return out;
        } else {
            i = i + 1;
        }
    }
}

/// The stored form of a breadcrumb: its entries joined with `" :: "`.
pub fn join_breadcrumb(parts: &Vec<String>) -> (r: String)
    ensures
        r@ == join(str_views(parts@), crumb_sep()),
{
    let mut sep: Vec<char> = Vec::new();
    sep.push(' ');
    sep.push(':');
    sep.push(':');
    sep.push(' ');
    assert(sep@ =~= crumb_sep());
    string_from_chars(join_strings(parts, &sep).as_slice())
}

// ---------------------------------------------------------------------------
// Rows
// ---------------------------------------------------------------------------

/// The mathematical content of a row.
pub struct RowView {
    pub id: Seq<char>,
    pub chunk_index: int,
    pub document: Seq<char>,
    pub part: u8,
    pub part_title: Seq<char>,
    pub doc_version: Seq<char>,
    pub section_number: Option<Seq<char>>,
    pub section_title: Option<Seq<char>>,
    pub breadcrumb: Seq<char>,
    pub header_number: Option<u16>,
    pub header_name: Option<Seq<char>>,
    pub page_start: int,
    pub page_end: int,
    pub sub_index: int,
    pub sub_total: int,
    pub content_type: Seq<char>,
    pub char_count: int,
    pub token_count: int,
    pub text: Seq<char>,
}

impl View for ChunkRow {
    type V = RowView;

    open spec fn view(&self) -> RowView {
        RowView {
            id: self.id@,
            chunk_index: self.chunk_index as int,
            document: self.document@,
            part: self.part,
            part_title: self.part_title@,
            doc_version: self.doc_version@,
            section_number: opt_view(self.section_number),
            section_title: opt_view(self.section_title),
            breadcrumb: self.breadcrumb@,
            header_number: self.header_number,
            header_name: opt_view(self.header_name),
            page_start: self.page_start as int,
            page_end: self.page_end as int,
            sub_index: self.sub_index as int,
            sub_total: self.sub_total as int,
            content_type: self.content_type@,
            char_count: self.char_count as int,
            token_count: self.token_count as int,
            text: self.text@,
        }
    }
}

/// The counts of a chunk, in the order the row lists them.
pub open spec fn counts(c: ChunkView) -> Seq<int> {
    seq![c.index, c.page_start, c.page_end, c.sub_index, c.sub_total, c.char_count, c.token_count]
}

/// The first count of a chunk that exceeds `i64::MAX`.
pub open spec fn first_too_large(cs: Seq<int>) -> Option<int>
    decreases cs.len(),
{
    if cs.len() == 0 {
        None
    } else if cs[0] > i64::MAX {
        Some(cs[0])
    } else {
        first_too_large(cs.drop_first())
    }
}

/// The row of a chunk: its breadcrumb joined with `" :: "`, its content type
/// as a label, its counts as they are.
pub open spec fn row_of(c: ChunkView) -> RowView {
    RowView {
        id: c.id,
        chunk_index: c.index,
        document: c.document,
        part: c.part,
        part_title: c.part_title,
        doc_version: c.doc_version,
        section_number: c.section_number,
        section_title: c.section_title,
        breadcrumb: join(c.breadcrumb, crumb_sep()),
        header_number: c.header_number,
        header_name: c.header_name,
        page_start: c.page_start,
        page_end: c.page_end,
        sub_index: c.sub_index,
        sub_total: c.sub_total,
        content_type: content_type_text(c.content_type),
        char_count: c.char_count,
        token_count: c.token_count,
        text: c.text,
    }
}

fn to_i64(v: usize) -> (r: Result<i64, StorageError>)
    ensures
        match r {
            Ok(x) => v <= i64::MAX && x == v,
            Err(e) => v > i64::MAX && e == StorageError::TooLarge(v),
        },
{
    if v as u64 <= i64::MAX as u64 {
        Ok(v as i64)
    } else {
        Err(StorageError::TooLarge(v))
    }
}

/// Lays a chunk out as the columns of its row; a count larger than
/// `i64::MAX` cannot be stored.
pub fn chunk_row(chunk: &Chunk) -> (r: Result<ChunkRow, StorageError>)
    ensures
        match r {
            Ok(row) => first_too_large(counts(chunk@)) is None && row@ == row_of(chunk@),
            Err(e) => first_too_large(counts(chunk@)) matches Some(v) && e == StorageError::TooLarge(
                v as usize,
            ),
        },
        r matches Ok(row) ==> {
            &&& row.id@ == chunk.id@
            &&& row.chunk_index == chunk.index
            &&& row.document@ == chunk.document@
            &&& row.part == chunk.part
            &&& row.part_title@ == chunk.part_title@
            &&& row.doc_version@ == chunk.doc_version@
            &&& opt_view(row.section_number) == opt_view(chunk.section_number)
            &&& opt_view(row.section_title) == opt_view(chunk.section_title)
            &&& row.breadcrumb@ == join(str_views(chunk.breadcrumb@), seq![' ', ':', ':', ' '])
            &&& row.header_number == chunk.header_number
            &&& opt_view(row.header_name) == opt_view(chunk.header_name)
            &&& row.page_start == chunk.page_start
            &&& row.page_end == chunk.page_end
            &&& row.sub_index == chunk.sub_index
            &&& row.sub_total == chunk.sub_total
            &&& row.content_type@ == content_type_text(chunk.content_type)
            &&& row.char_count == chunk.char_count
            &&& row.token_count == chunk.token_count
            &&& row.text@ == chunk.text@
        },
{
    let ghost cs = counts(chunk@);
    proof {
        reveal_with_fuel(first_too_large, 8);
    }
    assert(cs.drop_first() =~= seq![cs[1], cs[2], cs[3], cs[4], cs[5], cs[6]]);
    assert(cs.drop_first().drop_first() =~= seq![cs[2], cs[3], cs[4], cs[5], cs[6]]);
    assert(cs.drop_first().drop_first().drop_first() =~= seq![cs[3], cs[4], cs[5], cs[6]]);
    assert(cs.drop_first().drop_first().drop_first().drop_first() =~= seq![cs[4], cs[5], cs[6]]);
    assert(cs.drop_first().drop_first().drop_first().drop_first().drop_first() =~= seq![cs[5], cs[6]]);
    assert(cs.drop_first().drop_first().drop_first().drop_first().drop_first().drop_first() =~= seq![cs[6]]);
    assert(seq![cs[6]].drop_first() =~= Seq::<int>::empty());
    let chunk_index = match to_i64(chunk.index) { Ok(x) => x, Err(e) => return Err(e) };
    let page_start = match to_i64(chunk.page_start) { Ok(x) => x, Err(e) => return Err(e) };
    let page_end = match to_i64(chunk.page_end) { Ok(x) => x, Err(e) => return Err(e) };
    let sub_index = match to_i64(chunk.sub_index) { Ok(x) => x, Err(e) => return Err(e) };
    let sub_total = match to_i64(chunk.sub_total) { Ok(x) => x, Err(e) => return Err(e) };
    let char_count = match to_i64(chunk.char_count) { Ok(x) => x, Err(e) => return Err(e) };
    let token_count = match to_i64(chunk.token_count) { Ok(x) => x, Err(e) => return Err(e) };
    let row = ChunkRow {
        id: string_from_chars(chars_of(chunk.id.as_str()).as_slice()),
        chunk_index,
        document: string_from_chars(chars_of(chunk.document.as_str()).as_slice()),
        part: chunk.part,
        part_title: string_from_chars(chars_of(chunk.part_title.as_str()).as_slice()),
        doc_version: string_from_chars(chars_of(chunk.doc_version.as_str()).as_slice()),
        section_number: copy_opt(&chunk.section_number),
        section_title: copy_opt(&chunk.section_title),
        breadcrumb: join_breadcrumb(&chunk.breadcrumb),
        header_number: chunk.header_number,
        header_name: copy_opt(&chunk.header_name),
        page_start,
        page_end,
        sub_index,
        sub_total,
        content_type: content_type_label(chunk.content_type),
        char_count,
        token_count,
        text: string_from_chars(chars_of(chunk.text.as_str()).as_slice()),
    };
    Ok(row)
}

fn copy_opt(o: &Option<String>) -> (r: Option<String>)
    ensures
        opt_view(r) == opt_view(*o),
{
    match o {
        Some(s) => Some(string_from_chars(chars_of(s.as_str()).as_slice())),
        None => None,
    }
}

/// The counts of a row with the columns they are read from.
pub open spec fn row_counts(r: RowView) -> Seq<(int, int)> {
    seq![
        (1, r.chunk_index),
        (11, r.page_start),
        (12, r.page_end),
        (13, r.sub_index),
        (14, r.sub_total),
        (16, r.char_count),
        (17, r.token_count),
    ]
}

/// The first count of a row that is not a valid `usize`, with its column.
pub open spec fn first_out_of_range(cs: Seq<(int, int)>) -> Option<(int, int)>
    decreases cs.len(),
{
    if cs.len() == 0 {
        None
    } else if cs[0].1 < 0 || cs[0].1 > usize::MAX {
        Some(cs[0])
    } else {
        first_out_of_range(cs.drop_first())
    }
}

/// The chunk a valid row holds: the breadcrumb split on `" :: "`, the content
/// type read from its label.
pub open spec fn chunk_of_row(r: RowView) -> ChunkView {
    ChunkView {
        id: r.id,
        index: r.chunk_index,
        document: r.document,
        part: r.part,
        part_title: r.part_title,
        doc_version: r.doc_version,
        section_number: r.section_number,
        section_title: r.section_title,
        breadcrumb: split(r.breadcrumb, crumb_sep()),
        header_number: r.header_number,
        header_name: r.header_name,
        page_start: r.page_start,
        page_end: r.page_end,
        sub_index: r.sub_index,
        sub_total: r.sub_total,
        content_type: content_type_of(r.content_type).unwrap(),
        char_count: r.char_count,
        token_count: r.token_count,
        text: r.text,
    }
}

fn to_usize(column: usize, v: i64) -> (r: Result<usize, StorageError>)
    ensures
        match r {
            Ok(x) => 0 <= v <= usize::MAX && x == v,
            Err(e) => (v < 0 || v > usize::MAX) && e == StorageError::OutOfRange(column, v),
        },
{
    if v >= 0 && (v as u64) <= (usize::MAX as u64) {
        Ok(v as usize)
    } else {
        Err(StorageError::OutOfRange(column, v))
    }
}

/// Reads a chunk back from its row. A row with an unknown content type label
/// is refused first; then the first count (in column order) that is not a
/// valid `usize` is refused with its column.
pub fn chunk_from_row(row: &ChunkRow) -> (r: Result<Chunk, StorageError>)
    ensures
        match r {
            Ok(c) => content_type_of(row@.content_type) is Some && first_out_of_range(row_counts(row@)) is None
                && c@ == chunk_of_row(row@),
            Err(e) => match content_type_of(row@.content_type) {
                None => e matches StorageError::UnknownContentType(s) && s@ == row@.content_type,
                Some(_) => first_out_of_range(row_counts(row@)) matches Some((col, v)) && e
                    == StorageError::OutOfRange(col as usize, v as i64),
            },
        },
        r matches Ok(c) ==> {
            &&& c.id@ == row.id@
            &&& c.index == row.chunk_index
            &&& c.document@ == row.document@
            &&& c.part == row.part
            &&& c.part_title@ == row.part_title@
            &&& c.doc_version@ == row.doc_version@
            &&& opt_view(c.section_number) == opt_view(row.section_number)
            &&& opt_view(c.section_title) == opt_view(row.section_title)
            &&& str_views(c.breadcrumb@) == split(row.breadcrumb@, seq![' ', ':', ':', ' '])
            &&& c.header_number == row.header_number
            &&& opt_view(c.header_name) == opt_view(row.header_name)
            &&& c.page_start == row.page_start
            &&& c.page_end == row.page_end
            &&& c.sub_index == row.sub_index
            &&& c.sub_total == row.sub_total
            &&& Some(c.content_type) == content_type_of(row.content_type@)
            &&& c.char_count == row.char_count
            &&& c.token_count == row.token_count
            &&& c.text@ == row.text@
        },
{
    let content_type = match parse_content_type(row.content_type.as_str()) {
        Some(ct) => ct,
        None => {
            return Err(StorageError::UnknownContentType(string_from_chars(chars_of(row.content_type.as_str()).as_slice())));
        },
    };
    let ghost cs = row_counts(row@);
    proof {
        reveal_with_fuel(first_out_of_range, 8);
    }
    assert(cs.drop_first() =~= seq![cs[1], cs[2], cs[3], cs[4], cs[5], cs[6]]);
    assert(cs.drop_first().drop_first() =~= seq![cs[2], cs[3], cs[4], cs[5], cs[6]]);
    assert(cs.drop_first().drop_first().drop_first() =~= seq![cs[3], cs[4], cs[5], cs[6]]);
    assert(cs.drop_first().drop_first().drop_first().drop_first() =~= seq![cs[4], cs[5], cs[6]]);
    assert(cs.drop_first().drop_first().drop_first().drop_first().drop_first() =~= seq![cs[5], cs[6]]);
    assert(cs.drop_first().drop_first().drop_first().drop_first().drop_first().drop_first() =~= seq![cs[6]]);
    assert(seq![cs[6]].drop_first() =~= Seq::<(int, int)>::empty());
    let index = match to_usize(1, row.chunk_index) { Ok(x) => x, Err(e) => return Err(e) };
    let page_start = match to_usize(11, row.page_start) { Ok(x) => x, Err(e) => return Err(e) };
    let page_end = match to_usize(12, row.page_end) { Ok(x) => x, Err(e) => return Err(e) };
    let sub_index = match to_usize(13, row.sub_index) { Ok(x) => x, Err(e) => return Err(e) };
    let sub_total = match to_usize(14, row.sub_total) { Ok(x) => x, Err(e) => return Err(e) };
    let char_count = match to_usize(16, row.char_count) { Ok(x) => x, Err(e) => return Err(e) };
    let token_count = match to_usize(17, row.token_count) { Ok(x) => x, Err(e) => return Err(e) };
    let c = Chunk {
        id: string_from_chars(chars_of(row.id.as_str()).as_slice()),
        index,
        document: string_from_chars(chars_of(row.document.as_str()).as_slice()),
        part: row.part,
        part_title: string_from_chars(chars_of(row.part_title.as_str()).as_slice()),
        doc_version: string_from_chars(chars_of(row.doc_version.as_str()).as_slice()),
        section_number: copy_opt(&row.section_number),
        section_title: copy_opt(&row.section_title),
        breadcrumb: split_breadcrumb(row.breadcrumb.as_str()),
        header_number: row.header_number,
        header_name: copy_opt(&row.header_name),
        page_start,
        page_end,
        sub_index,
        sub_total,
        content_type,
        char_count,
        token_count,
        text: string_from_chars(chars_of(row.text.as_str()).as_slice()),
    };
    Ok(c)
}

// ---------------------------------------------------------------------------
// Reading back what was written
// ---------------------------------------------------------------------------

/// A breadcrumb entry that reads back from its stored form: it holds no
/// `" :: "`, and, unless it is the last entry, it does not end with `" ::"`,
/// which would run into the separator after it.
pub open spec fn crumb_safe(x: Seq<char>, last: bool) -> bool {
    &&& forall|k: int| 0 <= k ==> !#[trigger] match_at(x, k, crumb_sep())
    &&& !last ==> !(x.len() >= 3 && x.subrange(x.len() - 3, x.len() as int) == seq![' ', ':', ':'])
}

/// Every entry of a breadcrumb reads back from its stored form.
pub open spec fn crumbs_safe(parts: Seq<Seq<char>>) -> bool {
    forall|i: int| 0 <= i < parts.len() ==> crumb_safe(#[trigger] parts[i], i == parts.len() - 1)
}

proof fn lemma_match_shift(pre: Seq<char>, rest: Seq<char>, sep: Seq<char>, q: int)
    requires
        0 <= q,
    ensures
        match_at(pre + rest, pre.len() + q, sep) == match_at(rest, q, sep),
{
    let total = pre + rest;
    let p = pre.len() + q;
    if q + sep.len() <= rest.len() {
        assert(total.subrange(p, p + sep.len()) =~= rest.subrange(q, q + sep.len()));
    }
}

proof fn lemma_find_shift(pre: Seq<char>, rest: Seq<char>, sep: Seq<char>, q: int)
    requires
        0 <= q,
    ensures
        find_from(pre + rest, sep, pre.len() + q) == match find_from(rest, sep, q) {
            Some(i) => Some(pre.len() + i),
            None => None,
        },
    decreases rest.len() + 1 - q,
{
    lemma_match_shift(pre, rest, sep, q);
    if q <= rest.len() && !match_at(rest, q, sep) {
        lemma_find_shift(pre, rest, sep, q + 1);
    }
}

proof fn lemma_split_shift(pre: Seq<char>, rest: Seq<char>, sep: Seq<char>, q: int)
    requires
        0 <= q,
        sep.len() > 0,
    ensures
        split_from(pre + rest, sep, pre.len() + q) == split_from(rest, sep, q),
    decreases rest.len() + 1 - q,
{
    let total = pre + rest;
    let p = pre.len() + q;
    lemma_find_shift(pre, rest, sep, q);
    if q <= rest.len() {
        lemma_find_from(rest, sep, q);
        match find_from(rest, sep, q) {
            None => {
                assert(total.subrange(p, total.len() as int) =~= rest.subrange(q, rest.len() as int));
            },
            Some(i) => {
                assert(total.subrange(p, pre.len() + i) =~= rest.subrange(q, i));
                lemma_split_shift(pre, rest, sep, i + sep.len());
            },
        }
    }
}

proof fn lemma_join_front(parts: Seq<Seq<char>>, sep: Seq<char>)
    requires
        parts.len() >= 2,
    ensures
        join(parts, sep) == parts[0] + sep + join(parts.drop_first(), sep),
    decreases parts.len(),
{
    if parts.len() == 2 {
        assert(parts.drop_first() =~= seq![parts[1]]);
        assert(parts.drop_last() =~= seq![parts[0]]);
        assert(join(parts.drop_first(), sep) == parts[1]);
        assert(join(parts.drop_last(), sep) == parts[0]);
        assert(join(parts, sep) == join(parts.drop_last(), sep) + sep + parts.last());
    } else {
        lemma_join_front(parts.drop_last(), sep);
        assert(parts.drop_last().drop_first() =~= parts.drop_first().drop_last());
        assert(parts.drop_first().last() == parts.last());
        assert(parts.drop_last()[0] == parts[0]);
        let j = join(parts.drop_last().drop_first(), sep);
        assert(join(parts.drop_first(), sep) == j + sep + parts.last());
        assert(join(parts, sep) == (parts[0] + sep + j) + sep + parts.last());
        assert((parts[0] + sep + j) + sep + parts.last() =~= parts[0] + sep + (j + sep + parts.last()));
    }
}

/// Joining a non-empty list of entries with `" :: "` and splitting the result
/// on `" :: "` gives the entries back, when no entry holds the separator and
/// none but the last ends with `" ::"`.
pub proof fn lemma_split_join(parts: Seq<Seq<char>>)
    requires
        parts.len() >= 1,
        crumbs_safe(parts),
    ensures
        split(join(parts, crumb_sep()), crumb_sep()) == parts,
    decreases parts.len(),
{
    let sep = crumb_sep();
    if parts.len() == 1 {
        let x = parts[0];
        assert(crumb_safe(parts[0], true));
        lemma_find_from(x, sep, 0);
        assert(x.subrange(0, x.len() as int) =~= x);
        assert(split(join(parts, sep), sep) =~= parts);
    } else {
        let a = parts[0];
        let rest = parts.drop_first();
        assert forall|i: int| 0 <= i < rest.len() implies crumb_safe(#[trigger] rest[i], i == rest.len() - 1) by {
            assert(rest[i] == parts[i + 1]);
            assert(crumb_safe(parts[i + 1], i + 1 == parts.len() - 1));
        }
        lemma_split_join(rest);
        lemma_join_front(parts, sep);
        assert(crumb_safe(parts[0], false));
        let r = join(rest, sep);
        let s = a + sep + r;
        assert forall|k: int| 0 <= k < a.len() implies !#[trigger] match_at(s, k, sep) by {
            if match_at(s, k, sep) {
                assert(s.subrange(k, k + 4) == sep);
                assert(s[k] == ' ' && s[k + 1] == ':' && s[k + 2] == ':' && s[k + 3] == ' ') by {
                    assert(s.subrange(k, k + 4)[0] == sep[0]);
                    assert(s.subrange(k, k + 4)[1] == sep[1]);
                    assert(s.subrange(k, k + 4)[2] == sep[2]);
                    assert(s.subrange(k, k + 4)[3] == sep[3]);
                }
                if k + 4 <= a.len() {
                    assert(a.subrange(k, k + 4) =~= s.subrange(k, k + 4));
                    assert(match_at(a, k, sep));
                } else if k + 3 == a.len() {
                    assert(a.subrange(a.len() - 3, a.len() as int) =~= seq![' ', ':', ':']);
                } else if k + 2 == a.len() {
                    assert(s[k + 2] == sep[0]);
                } else {
                    assert(s[k + 1] == sep[0]);
                }
            }
        }
        assert(s.subrange(a.len() as int, a.len() as int + 4) =~= sep);
        assert(match_at(s, a.len() as int, sep));
        lemma_find_from(s, sep, 0);
        assert(find_from(s, sep, 0) == Some(a.len() as int));
        assert(s.subrange(0, a.len() as int) =~= a);
        assert(s == (a + sep) + r);
        lemma_split_shift(a + sep, r, sep, 0);
        assert(split_from(s, sep, a.len() as int + 4) == split(r, sep));
        assert(seq![a] + rest =~= parts);
    }
}

/// Each column of a chunk's row holds the chunk's field of the same name:
/// the breadcrumb joined with `" :: "`, the content type as its label, every
/// other field as it is.
pub proof fn lemma_row_columns(c: ChunkView)
    ensures
        row_of(c).id == c.id,
        row_of(c).chunk_index == c.index,
        row_of(c).document == c.document,
        row_of(c).part == c.part,
        row_of(c).part_title == c.part_title,
        row_of(c).doc_version == c.doc_version,
        row_of(c).section_number == c.section_number,
        row_of(c).section_title == c.section_title,
        row_of(c).breadcrumb == join(c.breadcrumb, seq![' ', ':', ':', ' ']),
        row_of(c).header_number == c.header_number,
        row_of(c).header_name == c.header_name,
        row_of(c).page_start == c.page_start,
        row_of(c).page_end == c.page_end,
        row_of(c).sub_index == c.sub_index,
        row_of(c).sub_total == c.sub_total,
        row_of(c).content_type == content_type_text(c.content_type),
        row_of(c).char_count == c.char_count,
        row_of(c).token_count == c.token_count,
        row_of(c).text == c.text,
{
}

/// Each field of the chunk read from a row comes from the column of the same
/// name: the breadcrumb split on `" :: "`, the content type read from its
/// label, every other column as it is.
pub proof fn lemma_chunk_fields_of_row(r: RowView)
    ensures
        chunk_of_row(r).id == r.id,
        chunk_of_row(r).index == r.chunk_index,
        chunk_of_row(r).document == r.document,
        chunk_of_row(r).part == r.part,
        chunk_of_row(r).part_title == r.part_title,
        chunk_of_row(r).doc_version == r.doc_version,
        chunk_of_row(r).section_number == r.section_number,
        chunk_of_row(r).section_title == r.section_title,
        chunk_of_row(r).breadcrumb == split(r.breadcrumb, seq![' ', ':', ':', ' ']),
        chunk_of_row(r).header_number == r.header_number,
        chunk_of_row(r).header_name == r.header_name,
        chunk_of_row(r).page_start == r.page_start,
        chunk_of_row(r).page_end == r.page_end,
        chunk_of_row(r).sub_index == r.sub_index,
        chunk_of_row(r).sub_total == r.sub_total,
        content_type_of(r.content_type) is Some ==> Some(chunk_of_row(r).content_type)
            == content_type_of(r.content_type),
        chunk_of_row(r).char_count == r.char_count,
        chunk_of_row(r).token_count == r.token_count,
        chunk_of_row(r).text == r.text,
{
}

/// What a read gives back of a write: a chunk whose counts fit the row and
/// whose breadcrumb is non-empty and reads back from its stored form is read
/// back from its row unchanged.
pub proof fn lemma_row_roundtrip(chunk: Chunk)
    requires
        first_too_large(counts(chunk@)) is None,
        chunk@.breadcrumb.len() >= 1,
        crumbs_safe(chunk@.breadcrumb),
    ensures
        content_type_of(row_of(chunk@).content_type) == Some(chunk@.content_type),
        first_out_of_range(row_counts(row_of(chunk@))) is None,
        chunk_of_row(row_of(chunk@)) == chunk@,
{
    reveal_strlit("command");
    reveal_strlit("section");
    reveal_strlit("table");
    reveal_strlit("preamble");
    reveal_with_fuel(first_out_of_range, 8);
    lemma_split_join(chunk@.breadcrumb);
    let c = chunk@;
    match c.content_type {
        ContentType::Command => {},
        ContentType::Section => {
            assert("section"@[0] != "command"@[0]);
        },
        ContentType::Table => {
            assert("table"@[0] != "command"@[0]);
            assert("table"@[0] != "section"@[0]);
        },
        ContentType::Preamble => {
            assert("preamble"@[0] != "command"@[0]);
            assert("preamble"@[0] != "section"@[0]);
            assert("preamble"@[0] != "table"@[0]);
        },
    }
    assert(content_type_of(content_type_text(c.content_type)) == Some(c.content_type));
    assert(chunk_of_row(row_of(c)).breadcrumb == c.breadcrumb);
    assert(chunk_of_row(row_of(c)) == c);
}

// ---------------------------------------------------------------------------
// Embeddings
// ---------------------------------------------------------------------------

/// The number of dimensions of every stored embedding.
pub const EMBEDDING_DIMS: usize = 384;

/// Checks that as many embeddings came back as were asked for.
pub fn check_embedding_count(expected: usize, got: usize) -> (r: Result<(), StorageError>)
    ensures
        r is Ok <==> expected == got,
        r is Err ==> r == Err::<(), StorageError>(StorageError::CountMismatch(expected, got)),
{
    if expected == got {
        Ok(())
    } else {
        Err(StorageError::CountMismatch(expected, got))
    }
}

/// Checks the embeddings to be stored beside `chunks`, given the number of
/// dimensions of each: there must be one per chunk, each with
/// `EMBEDDING_DIMS` dimensions. The error names the first that has not.
pub fn validate_embeddings(chunks: &[Chunk], dims: &[usize]) -> (r: Result<(), StorageError>)
    ensures
        dims@.len() != chunks@.len() ==> r == Err::<(), StorageError>(
            StorageError::CountMismatch(chunks@.len() as usize, dims@.len() as usize),
        ),
        dims@.len() == chunks@.len() ==> (r is Ok <==> forall|i: int|
            0 <= i < dims@.len() ==> #[trigger] dims@[i] == EMBEDDING_DIMS),
        dims@.len() == chunks@.len() && r is Err ==> exists|i: int|
            0 <= i < dims@.len() && #[trigger] dims@[i] != EMBEDDING_DIMS && (forall|j: int|
                0 <= j < i ==> dims@[j] == EMBEDDING_DIMS) && (r matches Err(
                StorageError::Dimensions(id, n),
            ) && id@ == chunks@[i].id@ && n == dims@[i]),
{
    check_embedding_count(chunks.len(), dims.len())?;
    let mut i: usize = 0;
    while i < dims.len()
        invariant
            dims@.len() == chunks@.len(),
            0 <= i <= dims@.len(),
            forall|j: int| 0 <= j < i ==> dims@[j] == EMBEDDING_DIMS,
        decreases dims@.len() - i,
    {
        if dims[i] != EMBEDDING_DIMS {
            let r = Err(StorageError::Dimensions(chunks[i].id.clone(), dims[i]));
            assert(dims@[i as int] != EMBEDDING_DIMS);
            return r;
        }
        i += 1;
    }
    Ok(())
}

} // verus!
