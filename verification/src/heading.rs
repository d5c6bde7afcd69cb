//! Section headings in the cleaned document text.
//!
//! A heading is what the multi-line pattern
//! `(?m)^\s*(\d+(?:\.\d+)+\.?|\d+\.)\s+(\S.*?)\s*$` matches: a multi-level
//! number (`3.2`, `7.8.1`, `1.1.1.`) or a single-level number with a trailing
//! period (`3.`), whitespace, then a title that runs to the end of its line.
//! The number and the title may be separated by line breaks, and leading
//! whitespace (blank lines too) belongs to the match.

use vstd::prelude::*;

use crate::chars::{is_digit, is_whitespace, is_ws, lemma_char_classes};
use crate::text::{
    lemma_rstrip, lemma_skip_digits, lemma_skip_ws, rstrip, rstrip_at, skip_digits,
    skip_digits_at, skip_ws, skip_ws_at,
};

verus! {

/// Where a heading match lies: `start` is where the match begins (a line
/// start), `t[num_start..num_end]` is the number, `t[title_start..title_end]`
/// the title, and `end` is where the match ends.
pub struct HeadingSpan {
    pub start: int,
    pub num_start: int,
    pub num_end: int,
    pub title_start: int,
    pub title_end: int,
    pub end: int,
}

/// The end of the `\.\d+` groups that follow position `r`.
pub open spec fn skip_dot_groups(t: Seq<char>, r: int) -> int
    decreases t.len() - r,
{
    if 0 <= r && r + 1 < t.len() && t[r] == '.' && is_digit(t[r + 1]) {
        proof {
            lemma_skip_digits(t, r + 1);
        }
        skip_dot_groups(t, skip_digits(t, r + 1))
    } else {
        r
    }
}

/// Where the section number `\d+(?:\.\d+)+\.?|\d+\.` that starts at `q` ends,
/// if one starts there and whitespace follows it.
pub open spec fn number_end(t: Seq<char>, q: int) -> Option<int> {
    let d0 = skip_digits(t, q);
    if d0 == q {
        None
    } else {
        let r = skip_dot_groups(t, d0);
        if r > d0 {
            if r + 1 < t.len() && t[r] == '.' && is_ws(t[r + 1]) {
                Some(r + 1)
            } else if r < t.len() && is_ws(t[r]) {
                Some(r)
            } else {
                None
            }
        } else if d0 + 1 < t.len() && t[d0] == '.' && is_ws(t[d0 + 1]) {
            Some(d0 + 1)
        } else {
            None
        }
    }
}

/// The line feed at or after `p` that ends its line, or the end of `t`.
pub open spec fn line_end(t: Seq<char>, p: int) -> int
    decreases t.len() - p,
{
    if 0 <= p < t.len() && t[p] != '\n' {
        line_end(t, p + 1)
    } else {
        p
    }
}

/// The last end-of-line position (`$` in multi-line mode: a line feed or the
/// end of `t`) at or before `p`, looking no further back than `lo`.
pub open spec fn last_line_end(t: Seq<char>, lo: int, p: int) -> int
    decreases p - lo,
{
    if p <= lo || p >= t.len() || t[p] == '\n' {
        p
    } else {
        last_line_end(t, lo, p - 1)
    }
}

/// `s` is a line start: `^` in multi-line mode matches there.
pub open spec fn is_line_start(t: Seq<char>, s: int) -> bool {
    s == 0 || (0 < s <= t.len() && t[s - 1] == '\n')
}

/// The heading match that begins at position `s`, if any.
pub open spec fn heading_at(t: Seq<char>, s: int) -> Option<HeadingSpan> {
    let q = skip_ws(t, s);
    match number_end(t, q) {
        None => None,
        Some(ne) => {
            let ts = skip_ws(t, ne);
            if ts >= t.len() {
                None
            } else {
                let te = rstrip(t, ts, line_end(t, ts));
                let m = last_line_end(t, te, skip_ws(t, te));
                Some(
                    HeadingSpan {
                        start: s,
                        num_start: q,
                        num_end: ne,
                        title_start: ts,
                        title_end: te,
                        end: m,
                    },
                )
            }
        },
    }
}

/// The leftmost heading match that begins at or after `p`.
pub open spec fn next_heading(t: Seq<char>, p: int) -> Option<HeadingSpan>
    decreases t.len() + 1 - p,
{
    if p < 0 || p > t.len() {
        None
    } else if is_line_start(t, p) && heading_at(t, p) is Some {
        heading_at(t, p)
    } else {
        next_heading(t, p + 1)
    }
}

/// The successive non-overlapping heading matches from `p` on: each search
/// resumes where the previous match ended.
pub open spec fn headings_from(t: Seq<char>, p: int) -> Seq<HeadingSpan>
    decreases t.len() + 1 - p,
{
    match next_heading(t, p) {
        None => seq![],
        Some(h) => {
            proof {
                lemma_next_heading(t, p);
            }
            seq![h] + headings_from(t, h.end)
        },
    }
}

/// A well-placed heading span.
pub open spec fn span_ok(t: Seq<char>, h: HeadingSpan) -> bool {
    &&& 0 <= h.start <= h.num_start < h.num_end < h.title_start < h.title_end <= h.end <= t.len()
    &&& is_line_start(t, h.start)
    &&& (h.end == t.len() || t[h.end] == '\n')
    &&& forall|k: int| h.title_start <= k < h.title_end ==> #[trigger] t[k] != '\n'
}

proof fn lemma_dot_groups(t: Seq<char>, r: int)
    requires
        0 <= r <= t.len(),
    ensures
        r <= skip_dot_groups(t, r) <= t.len(),
    decreases t.len() - r,
{
    if 0 <= r && r + 1 < t.len() && t[r] == '.' && is_digit(t[r + 1]) {
        lemma_skip_digits(t, r + 1);
        lemma_dot_groups(t, skip_digits(t, r + 1));
    }
}

proof fn lemma_line_end(t: Seq<char>, p: int)
    requires
        0 <= p <= t.len(),
    ensures
        p <= line_end(t, p) <= t.len(),
        line_end(t, p) < t.len() ==> t[line_end(t, p)] == '\n',
        forall|k: int| p <= k < line_end(t, p) ==> #[trigger] t[k] != '\n',
    decreases t.len() - p,
{
    if 0 <= p < t.len() && t[p] != '\n' {
        lemma_line_end(t, p + 1);
    }
}

proof fn lemma_last_line_end(t: Seq<char>, lo: int, p: int, le: int)
    requires
        0 <= lo <= le <= p <= t.len(),
        le == t.len() || t[le] == '\n',
    ensures
        le <= last_line_end(t, lo, p) <= p,
        last_line_end(t, lo, p) == t.len() || t[last_line_end(t, lo, p)] == '\n',
    decreases p - lo,
{
    if p <= lo || p >= t.len() || t[p] == '\n' {
    } else {
        lemma_last_line_end(t, lo, p - 1, le);
    }
}

/// The span that `heading_at` gives is well placed.
pub proof fn lemma_heading_at(t: Seq<char>, s: int)
    requires
        0 <= s <= t.len(),
        is_line_start(t, s),
    ensures
        heading_at(t, s) matches Some(h) ==> span_ok(t, h) && h.start == s,
{
    let q = skip_ws(t, s);
    lemma_skip_ws(t, s);
    let d0 = skip_digits(t, q);
    lemma_skip_digits(t, q);
    lemma_dot_groups(t, d0);
    if let Some(ne) = number_end(t, q) {
        let ts = skip_ws(t, ne);
        lemma_skip_ws(t, ne);
        if ts < t.len() {
            let le = line_end(t, ts);
            lemma_line_end(t, ts);
            lemma_char_classes(t[ts]);
            let te = rstrip(t, ts, le);
            lemma_rstrip(t, ts, le);
            lemma_skip_ws(t, te);
            let w = skip_ws(t, te);
            assert(le <= w) by {
                if w < le {
                    assert(t[w] != '\n');
                }
            }
            lemma_last_line_end(t, te, w, le);
        }
    }
}

/// The next heading lies at or after `p` and ends after it.
pub proof fn lemma_next_heading(t: Seq<char>, p: int)
    ensures
        next_heading(t, p) matches Some(h) ==> p <= h.start && h.end > p && span_ok(t, h),
    decreases t.len() + 1 - p,
{
    if p < 0 || p > t.len() {
    } else if is_line_start(t, p) && heading_at(t, p) is Some {
        lemma_heading_at(t, p);
    } else {
        lemma_next_heading(t, p + 1);
    }
}

/// Every heading found from `p` on is well placed, and they come in order.
pub proof fn lemma_headings_from(t: Seq<char>, p: int)
    ensures
        forall|i: int|
            0 <= i < headings_from(t, p).len() ==> span_ok(t, #[trigger] headings_from(t, p)[i])
                && p <= headings_from(t, p)[i].start,
        forall|i: int|
            0 <= i < headings_from(t, p).len() - 1 ==> #[trigger] headings_from(t, p)[i].end
                <= headings_from(t, p)[i + 1].start,
    decreases t.len() + 1 - p,
{
    lemma_next_heading(t, p);
    if let Some(h) = next_heading(t, p) {
        lemma_headings_from(t, h.end);
        let rest = headings_from(t, h.end);
        let all = headings_from(t, p);
        assert(all == seq![h] + rest);
        assert forall|i: int| 0 <= i < all.len() implies span_ok(t, #[trigger] all[i]) && p
            <= all[i].start by {
            if i > 0 {
                assert(all[i] == rest[i - 1]);
            }
        }
        assert forall|i: int| 0 <= i < all.len() - 1 implies #[trigger] all[i].end <= all[i
            + 1].start by {
            assert(all[i + 1] == rest[i]);
            if i > 0 {
                assert(all[i] == rest[i - 1]);
            }
        }
    }
}

/// A heading match in executable form.
pub struct Heading {
    pub start: usize,
    pub num_start: usize,
    pub num_end: usize,
    pub title_start: usize,
    pub title_end: usize,
    pub end: usize,
}

impl Heading {
    pub open spec fn span(&self) -> HeadingSpan {
        HeadingSpan {
            start: self.start as int,
            num_start: self.num_start as int,
            num_end: self.num_end as int,
            title_start: self.title_start as int,
            title_end: self.title_end as int,
            end: self.end as int,
        }
    }
}

fn number_end_at(t: &Vec<char>, q: usize) -> (r: Option<usize>)
    requires
        q <= t.len(),
    ensures
        match r {
            Some(e) => number_end(t@, q as int) == Some(e as int),
            None => number_end(t@, q as int) is None,
        },
{
    let d0 = skip_digits_at(t, q);
    if d0 == q {
        return None;
    }
    let mut r = d0;
    while t.len() > 0 && r < t.len() - 1 && t[r] == '.' && crate::chars::is_decimal_digit(t[r + 1])
        invariant
            d0 <= r <= t.len(),
            skip_dot_groups(t@, r as int) == skip_dot_groups(t@, d0 as int),
        decreases t.len() - r,
    {
        proof {
            lemma_skip_digits(t@, r + 1);
        }
        r = skip_digits_at(t, r + 1);
    }
    if r > d0 {
        if r < t.len() && t.len() - r > 1 && t[r] == '.' && is_whitespace(t[r + 1]) {
            Some(r + 1)
        } else if r < t.len() && is_whitespace(t[r]) {
            Some(r)
        } else {
            None
        }
    } else if d0 < t.len() && t.len() - d0 > 1 && t[d0] == '.' && is_whitespace(t[d0 + 1]) {
        Some(d0 + 1)
    } else {
        None
    }
}

/// The heading match that begins at line start `s`, if any.
pub fn heading_at_exec(t: &Vec<char>, s: usize) -> (r: Option<Heading>)
    requires
        s <= t.len(),
    ensures
        match r {
            Some(h) => heading_at(t@, s as int) == Some(h.span()),
            None => heading_at(t@, s as int) is None,
        },
{
    let q = skip_ws_at(t, s);
    let ne = match number_end_at(t, q) {
        None => return None,
        Some(ne) => ne,
    };
    proof {
        lemma_skip_digits(t@, q as int);
        lemma_dot_groups(t@, skip_digits(t@, q as int));
    }
    let ts = skip_ws_at(t, ne);
    if ts >= t.len() {
        return None;
    }
    let mut le = ts;
    while le < t.len() && t[le] != '\n'
        invariant
            ts <= le <= t.len(),
            line_end(t@, le as int) == line_end(t@, ts as int),
        decreases t.len() - le,
    {
        le = le + 1;
    }
    let te = rstrip_at(t, ts, le);
    let w = skip_ws_at(t, te);
    let mut m = w;
    while !(m <= te || m >= t.len() || t[m] == '\n')
        invariant
            te <= m <= w <= t.len(),
            last_line_end(t@, te as int, m as int) == last_line_end(t@, te as int, w as int),
        decreases m,
    {
        m = m - 1;
    }
    Some(Heading { start: s, num_start: q, num_end: ne, title_start: ts, title_end: te, end: m })
}

/// The executable spans of the headings.
pub open spec fn spans(v: Seq<Heading>) -> Seq<HeadingSpan> {
    v.map_values(|h: Heading| h.span())
}

/// Every section heading in `t`, in order: each found by scanning on from
/// where the previous one ends.
pub fn find_headings(t: &Vec<char>) -> (r: Vec<Heading>)
    ensures
        spans(r@) == headings_from(t@, 0),
{
    let mut out: Vec<Heading> = Vec::new();
    let mut p: usize = 0;
    loop
        invariant
            p <= t.len(),
            headings_from(t@, 0) == spans(out@) + headings_from(t@, p as int),
        decreases t.len() + 1 - p,
    {
        // Search the leftmost line start at or after `p` where a heading begins.
        let mut s = p;
        let mut found: Option<Heading> = None;
        loop
            invariant_except_break
                p <= s <= t.len(),
                next_heading(t@, p as int) == next_heading(t@, s as int),
                found is None,
            ensures
                found matches Some(h) ==> next_heading(t@, p as int) == Some(h.span()),
                found is None ==> next_heading(t@, p as int) is None,
            decreases t.len() - s,
        {
            if s == 0 || t[s - 1] == '\n' {
                let h = heading_at_exec(t, s);
                if h.is_some() {
                    found = h;
                    break;
                }
            }
            if s == t.len() {
                assert(next_heading(t@, s + 1) is None);
                break;
            }
            s = s + 1;
        }
        match found {
            None => {
                assert(headings_from(t@, p as int) == Seq::<HeadingSpan>::empty());
                assert(spans(out@) + headings_from(t@, p as int) =~= spans(out@));
                return out;
            },
            Some(h) => {
                proof {
                    lemma_next_heading(t@, p as int);
                }
                let ghost before = spans(out@);
                let e = h.end;
                out.push(h);
                proof {
                    assert(spans(out@) =~= before.push(h.span()));
                    assert(headings_from(t@, p as int) == seq![h.span()] + headings_from(t@, e as int));
                    assert(before + (seq![h.span()] + headings_from(t@, e as int)) =~= before.push(h.span()) + headings_from(t@, e as int));
                }
                p = e;
            },
        }
    }
}

/// Whether a section heading occurs anywhere in `text`.
pub fn has_section_heading(text: &str) -> (r: bool)
    ensures
        r == (next_heading(text@, 0) is Some),
{
    let t = crate::text::chars_of(text);
    let mut s: usize = 0;
    loop
        invariant
            s <= t.len(),
            t@ == text@,
            next_heading(t@, 0) == next_heading(t@, s as int),
        decreases t.len() - s,
    {
        if s == 0 || t[s - 1] == '\n' {
            if heading_at_exec(&t, s).is_some() {
                return true;
            }
        }
        if s == t.len() {
            assert(next_heading(t@, s + 1) is None);
            return false;
        }
        s = s + 1;
    }
}

} // verus!
