//! Per-document metadata and the identifiers and context lines of chunks.

use vstd::prelude::*;

use crate::number::{decimal, parse_decimal, parse_decimal_at, push_decimal, push_decimal_padded, zero_pad};
use crate::outline::{Segment, SegmentView};
use crate::paths::{file_stem, path_file_stem};
use crate::text::{
    chars_of, lemma_skip_digits, match_at, matches_at, opt_view, push_all, skip_digits,
    skip_digits_at, slice_to_vec, string_from_chars,
};

verus! {

/// Per-document metadata derived from the source filename.
#[derive(Debug)]
pub struct DocMeta {
    pub document: String,
    pub part: u8,
    pub part_title: String,
    pub doc_version: String,
}

/// The title of each part of the specification.
pub open spec fn part_title_text(part: u8) -> Seq<char> {
    if part == 1 {
        "Introduction & General Description"@
    } else if part == 2 {
        "Command Specification"@
    } else if part == 3 {
        "Appendices & Command Cross-Reference"@
    } else if part == 4 {
        "FAQ & Application Notes"@
    } else {
        "ccTalk Generic Specification"@
    }
}

/// The title of a part of the specification.
pub fn part_title(part: u8) -> (r: String)
    ensures
        r@ == part_title_text(part),
{
    let s = match part {
        1 => "Introduction & General Description",
        2 => "Command Specification",
        3 => "Appendices & Command Cross-Reference",
        4 => "FAQ & Application Notes",
        _ => "ccTalk Generic Specification",
    };
    string_from_chars(chars_of(s).as_slice())
}

/// Where `part-(\d+)-v(\d+)-(\d+)` matches `s` at `i`: the bounds of the
/// part number, the major version and the minor version.
pub open spec fn filename_at(s: Seq<char>, i: int) -> Option<(int, int, int, int, int, int)> {
    let lit = "part-"@;
    let a = i + lit.len();
    let b = skip_digits(s, a);
    let c = b + "-v"@.len();
    let d = skip_digits(s, c);
    let e = d + 1;
    let f = skip_digits(s, e);
    if match_at(s, i, lit) && b > a && match_at(s, b, "-v"@) && d > c && d < s.len() && s[d]
        == '-' && f > e {
        Some((a, b, c, d, e, f))
    } else {
        None
    }
}

/// The leftmost match of `part-(\d+)-v(\d+)-(\d+)` at or after `i`.
pub open spec fn filename_match(s: Seq<char>, i: int) -> Option<(int, int, int, int, int, int)>
    decreases s.len() + 1 - i,
{
    if i < 0 || i > s.len() {
        None
    } else if filename_at(s, i) is Some {
        filename_at(s, i)
    } else {
        filename_match(s, i + 1)
    }
}

/// The part number named in a filename stem such as `cctalk-part-3-v4-7`
/// (0 when the stem does not name one, or it does not fit a `u8`).
pub open spec fn part_of_stem(s: Seq<char>) -> u8 {
    match filename_match(s, 0) {
        Some((a, b, c, d, e, f)) => match parse_decimal(s.subrange(a, b), 255) {
            Some(v) => v as u8,
            None => 0,
        },
        None => 0,
    }
}

/// The version named in a filename stem (`"4.7"` for `cctalk-part-3-v4-7`),
/// or `"unknown"`.
pub open spec fn version_of_stem(s: Seq<char>) -> Seq<char> {
    match filename_match(s, 0) {
        Some((a, b, c, d, e, f)) => s.subrange(c, d) + seq!['.'] + s.subrange(e, f),
        None => "unknown"@,
    }
}

/// The filename stem of a path, empty when the path has none.
pub open spec fn stem_or_empty(path: Seq<char>) -> Seq<char> {
    match file_stem(path) {
        Some(s) => s,
        None => seq![],
    }
}

/// A filename match lies within `s`, its parts in order.
pub proof fn lemma_filename_match(s: Seq<char>, i: int)
    ensures
        filename_match(s, i) matches Some((a, b, c, d, e, f)) ==> 0 <= a < b < c < d < e < f
            <= s.len(),
    decreases s.len() + 1 - i,
{
    reveal_strlit("part-");
    reveal_strlit("-v");
    if i < 0 || i > s.len() {
    } else if filename_at(s, i) is Some {
        let a = i + 5;
        lemma_skip_digits(s, a);
        let b = skip_digits(s, a);
        lemma_skip_digits(s, b + 2);
        let d = skip_digits(s, b + 2);
        lemma_skip_digits(s, d + 1);
    } else {
        lemma_filename_match(s, i + 1);
    }
}

fn filename_match_exec(s: &Vec<char>) -> (r: Option<(usize, usize, usize, usize, usize, usize)>)
    ensures
        match r {
            Some((a, b, c, d, e, f)) => filename_match(s@, 0) == Some(
                (a as int, b as int, c as int, d as int, e as int, f as int),
            ),
            None => filename_match(s@, 0) is None,
        },
{
    let lit = chars_of("part-");
    let dash_v = chars_of("-v");
    proof {
        reveal_strlit("part-");
        reveal_strlit("-v");
    }
    let mut i: usize = 0;
    loop
        invariant
            i <= s.len(),
            lit@ == "part-"@,
            dash_v@ == "-v"@,
            lit@.len() == 5,
            dash_v@.len() == 2,
            filename_match(s@, 0) == filename_match(s@, i as int),
        decreases s.len() - i,
    {
        if matches_at(s, i, &lit) {
            let a = i + 5;
            let b = skip_digits_at(s, a);
            if b > a && matches_at(s, b, &dash_v) {
                let c = b + 2;
                let d = skip_digits_at(s, c);
                if d > c && d < s.len() && s[d] == '-' {
                    let e = d + 1;
                    let f = skip_digits_at(s, e);
                    if f > e {
                        return Some((a, b, c, d, e, f));
                    }
                }
            }
        }
        if i == s.len() {
            assert(filename_match(s@, i + 1) is None);
            return None;
        }
        i = i + 1;
    }
}

/// Parses the part number and the version out of the filename stem of
/// `pdf_path`, such as `cctalk-part-3-v4-7`.
pub fn doc_meta(pdf_path: &str) -> (r: DocMeta)
    ensures
        r.document@ == stem_or_empty(pdf_path@),
        r.part == part_of_stem(stem_or_empty(pdf_path@)),
        r.part_title@ == part_title_text(r.part),
        r.doc_version@ == version_of_stem(stem_or_empty(pdf_path@)),
{
    let stem = match path_file_stem(pdf_path) {
        Some(s) => s,
        None => string_from_chars(Vec::<char>::new().as_slice()),
    };
    let s = chars_of(stem.as_str());
    proof {
        lemma_filename_match(s@, 0);
    }
    let (part, version) = match filename_match_exec(&s) {
        Some((a, b, c, d, e, f)) => {
            let part = match parse_decimal_at(&s, a, b, 255) {
                Some(v) => v as u8,
                None => 0,
            };
            let mut v = slice_to_vec(&s, c, d);
            v.push('.');
            let minor = slice_to_vec(&s, e, f);
            push_all(&mut v, minor.as_slice());
            (part, string_from_chars(v.as_slice()))
        },
        None => (0, string_from_chars(chars_of("unknown").as_slice())),
    };
    DocMeta { document: stem, part, part_title: part_title(part), doc_version: version }
}

// ---------------------------------------------------------------------------
// Identifiers and context lines
// ---------------------------------------------------------------------------

/// `n` with every `'.'` replaced by `'_'`.
pub open spec fn dots_to_underscores(n: Seq<char>) -> Seq<char> {
    n.map_values(|c: char| if c == '.' { '_' } else { c })
}

/// The readable suffix of a segment id: `h{header}` for a command, else
/// `s{number}` with dots as underscores, else `preamble`.
pub open spec fn id_suffix(seg: SegmentView) -> Seq<char> {
    match seg.header_number {
        Some(h) => seq!['h'] + decimal(h as nat),
        None => match seg.number {
            Some(n) => seq!['s'] + dots_to_underscores(n),
            None => "preamble"@,
        },
    }
}

/// `part{part}-{ordinal:04}-{suffix}`.
pub open spec fn base_id_text(part: u8, seg: SegmentView, ordinal: nat) -> Seq<char> {
    "part"@ + decimal(part as nat) + seq!['-'] + zero_pad(decimal(ordinal), 4) + seq!['-']
        + id_suffix(seg)
}

/// A stable, globally unique base id for a segment. The `(part, ordinal)` pair
/// makes it unique even when section numbers repeat within a document; the
/// header or section suffix keeps it readable.
pub fn base_id(meta: &DocMeta, seg: &Segment, ordinal: usize) -> (r: String)
    ensures
        r@ == base_id_text(meta.part, seg@, ordinal as nat),
{
    let mut out = chars_of("part");
    push_decimal(&mut out, meta.part as u64);
    out.push('-');
    push_decimal_padded(&mut out, ordinal as u64, 4);
    out.push('-');
    match seg.header_number {
        Some(h) => {
            out.push('h');
            push_decimal(&mut out, h as u64);
        },
        None => match &seg.number {
            Some(n) => {
                out.push('s');
                let nc = chars_of(n.as_str());
                let ghost before = out@;
                let mut k: usize = 0;
                while k < nc.len()
                    invariant
                        k <= nc.len(),
                        out@ == before + dots_to_underscores(nc@.take(k as int)),
                    decreases nc.len() - k,
                {
                    let c = nc[k];
                    out.push(if c == '.' { '_' } else { c });
                    k = k + 1;
                    assert(out@ =~= before + dots_to_underscores(nc@.take(k as int)));
                }
                assert(nc@.take(nc.len() as int) =~= nc@);
            },
            None => {
                let p = chars_of("preamble");
                push_all(&mut out, p.as_slice());
            },
        },
    }
    proof {
        assert(out@ =~= base_id_text(meta.part, seg@, ordinal as nat));
    }
    string_from_chars(out.as_slice())
}

/// The heading path shown in a sub-chunk's context line: the innermost
/// breadcrumb entry, else the title, else nothing.
pub open spec fn context_path(seg: SegmentView) -> Seq<char> {
    if seg.breadcrumb.len() > 0 {
        seg.breadcrumb.last()
    } else {
        match seg.title {
            Some(t) => t,
            None => seq![],
        }
    }
}

/// `[Part {part} | {path} | {sub_index + 1}/{sub_total}]`.
pub open spec fn breadcrumb_prefix_text(part: u8, seg: SegmentView, sub_index: nat, sub_total: nat) -> Seq<char> {
    "[Part "@ + decimal(part as nat) + " | "@ + context_path(seg) + " | "@ + decimal(sub_index + 1)
        + seq!['/'] + decimal(sub_total) + seq![']']
}

/// Compact context line prepended to every sub-chunk so it stays
/// self-describing.
pub fn breadcrumb_prefix(meta: &DocMeta, seg: &Segment, sub_index: usize, sub_total: usize) -> (r: String)
    requires
        sub_index < usize::MAX,
    ensures
        r@ == breadcrumb_prefix_text(meta.part, seg@, sub_index as nat, sub_total as nat),
{
    let mut out = chars_of("[Part ");
    push_decimal(&mut out, meta.part as u64);
    let bar = chars_of(" | ");
    push_all(&mut out, bar.as_slice());
    let n = seg.breadcrumb.len();
    if n > 0 {
        let p = chars_of(seg.breadcrumb[n - 1].as_str());
        push_all(&mut out, p.as_slice());
    } else {
        match &seg.title {
            Some(t) => {
                let p = chars_of(t.as_str());
                push_all(&mut out, p.as_slice());
            },
            None => {},
        }
    }
    push_all(&mut out, bar.as_slice());
    push_decimal(&mut out, (sub_index + 1) as u64);
    out.push('/');
    push_decimal(&mut out, sub_total as u64);
    out.push(']');
    proof {
        assert(out@ =~= breadcrumb_prefix_text(meta.part, seg@, sub_index as nat, sub_total as nat));
    }
    string_from_chars(out.as_slice())
}

} // verus!
