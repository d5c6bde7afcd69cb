//! The document outline: an optional preamble and every numbered section,
//! with breadcrumb heading paths and the text range each one covers.

use vstd::prelude::*;

use crate::chars::{is_digit, is_ws, lemma_char_classes};
use crate::heading::{
    find_headings, headings_from, lemma_headings_from, span_ok, spans, Heading, HeadingSpan,
};
use crate::number::{decimal, lemma_decimal, parse_decimal, parse_decimal_at};
use crate::text::{
    opt_view, str_views,
    char_utf8_len, chars_of, lemma_rstrip, lemma_rstrip_unique, lemma_skip_digits, lemma_skip_ws,
    lemma_skip_ws_unique, match_at, matches_at,
    push_all, rstrip, rstrip_at, skip_digits, skip_digits_at, skip_ws, skip_ws_at, slice_to_vec,
    string_from_chars, trim, trim_bounds, utf8_len,
};

verus! {

// ---------------------------------------------------------------------------
// Command headers: `Header NNN - Command name`
// ---------------------------------------------------------------------------

/// The last position in `p[lo..hi]` that does not hold a line feed.
pub open spec fn last_non_newline(p: Seq<char>, lo: int, hi: int) -> Option<int>
    decreases hi - lo,
{
    if hi <= lo {
        None
    } else if p[hi - 1] != '\n' {
        Some(hi - 1)
    } else {
        last_non_newline(p, lo, hi - 1)
    }
}

/// No line feed in `p[lo..hi]`.
pub open spec fn no_line_feed(p: Seq<char>, lo: int, hi: int) -> bool {
    forall|k: int| lo <= k < hi ==> #[trigger] p[k] != '\n'
}

/// Where the pattern `^Header\s+(\d{1,3})\s*[-\x{2013}]\s*(.+?)\s*$` matches
/// `p`: the bounds of the header number (1 to 3 digits) and of the command
/// name. The name runs from the first non-whitespace character after the dash
/// to the last one of `p`; when only whitespace follows the dash, the name is
/// its last character that is not a line feed.
pub open spec fn header_match(p: Seq<char>) -> Option<(int, int, int, int)> {
    let hdr = "Header"@;
    if !match_at(p, 0, hdr) {
        None
    } else {
        let a = hdr.len() as int;
        let b = skip_ws(p, a);
        let c = skip_digits(p, b);
        let d = skip_ws(p, c);
        if b == a || c == b || c - b > 3 || d >= p.len() || !(p[d] == '-' || (p[d] as u32)
            == 0x2013) {
            None
        } else {
            let e = d + 1;
            let f = skip_ws(p, e);
            if f < p.len() {
                let r = rstrip(p, f, p.len() as int);
                if no_line_feed(p, f, r) {
                    Some((b, c, f, r))
                } else {
                    None
                }
            } else {
                match last_non_newline(p, e, p.len() as int) {
                    Some(x) => Some((b, c, x, x + 1)),
                    None => None,
                }
            }
        }
    }
}

/// The command header of a section title: its number (`None` when it does
/// not parse as a `u16`) and its trimmed name; `(None, None)` for a title
/// that is not a command header.
pub open spec fn header_of(p: Seq<char>) -> (Option<u16>, Option<Seq<char>>) {
    match header_match(p) {
        None => (None, None),
        Some((b, c, x, y)) => (
            match parse_decimal(p.subrange(b, c), 0xFFFF) {
                Some(v) => Some(v as u16),
                None => None,
            },
            Some(trim(p.subrange(x, y))),
        ),
    }
}

/// The section title `Header {n} - {name}`.
pub open spec fn header_title(n: nat, name: Seq<char>) -> Seq<char> {
    "Header "@ + decimal(n) + " - "@ + name
}

proof fn lemma_decimal_short(n: nat)
    requires
        n <= 999,
    ensures
        decimal(n).len() <= 3,
{
    if n >= 10 {
        if n >= 100 {
            assert(decimal(n / 100).len() == 1);
            assert(decimal(n / 10) == decimal(n / 10 / 10) + seq![crate::number::digit_char((n / 10 % 10) as nat)]);
            assert(n / 10 / 10 == n / 100);
        } else {
            assert(decimal(n / 10).len() == 1);
        }
    }
}

/// A title written as `Header {n} - {name}`, for a header number of at most
/// three digits and a one-line name without surrounding whitespace, reads
/// back as that number and that name.
pub proof fn lemma_header_round_trip(n: u16, name: Seq<char>)
    requires
        n <= 999,
        name.len() > 0,
        forall|i: int| 0 <= i < name.len() ==> name[i] != '\n',
        !is_ws(name[0]),
        !is_ws(name[name.len() - 1]),
    ensures
        header_of(header_title(n as nat, name)) == (Some(n), Some(name)),
{
    reveal_strlit("Header ");
    reveal_strlit("Header");
    reveal_strlit(" - ");
    let dn = decimal(n as nat);
    lemma_decimal(n as nat);
    lemma_decimal_short(n as nat);
    let l = dn.len() as int;
    let p = header_title(n as nat, name);
    assert(p.len() == 10 + l + name.len());
    assert forall|i: int| 0 <= i < l implies p[7 + i] == dn[i] by {}
    assert forall|i: int| 0 <= i < name.len() implies p[10 + l + i] == name[i] by {}
    assert(p[6] == ' ' && p[7 + l] == ' ' && p[8 + l] == '-' && p[9 + l] == ' ');
    assert(p.subrange(0, 6) =~= "Header"@);
    lemma_char_classes(p[7]);
    assert(is_ws(' '));
    lemma_skip_ws_unique(p, 6, 7);
    lemma_skip_digits(p, 7);
    assert forall|i: int| 7 <= i < 7 + l implies is_digit(#[trigger] p[i]) by {
        lemma_char_classes(p[i]);
    }
    assert(!is_digit(p[7 + l])) by {
        lemma_char_classes(p[7 + l]);
    }
    let c = skip_digits(p, 7);
    if c < 7 + l {
        assert(is_digit(p[c]));
    }
    if c > 7 + l {
        assert(is_digit(p[7 + l]));
    }
    assert(c == 7 + l);
    lemma_skip_ws_unique(p, 7 + l, 8 + l);
    lemma_skip_ws_unique(p, 9 + l, 10 + l);
    assert(!is_ws(p[p.len() - 1]));
    lemma_rstrip_unique(p, 10 + l, p.len() as int, p.len() as int);
    assert(p.subrange(7, 7 + l) =~= dn);
    assert(p.subrange(10 + l, p.len() as int) =~= name);
    assert(no_line_feed(p, 10 + l, p.len() as int));
    lemma_skip_ws_unique(name, 0, 0);
    lemma_rstrip_unique(name, 0, name.len() as int, name.len() as int);
    assert(name.subrange(0, name.len() as int) =~= name);
    assert(trim(name) =~= name);
}

#[verifier::loop_isolation(false)]
fn header_chars(p: &Vec<char>) -> (r: (Option<u16>, Option<Vec<char>>))
    ensures
        r.0 == header_of(p@).0,
        match r.1 {
            Some(v) => header_of(p@).1 == Some(v@),
            None => header_of(p@).1 is None,
        },
{
    let hdr = chars_of("Header");
    if !matches_at(p, 0, &hdr) {
        return (None, None);
    }
    let a = hdr.len();
    let b = skip_ws_at(p, a);
    let c = skip_digits_at(p, b);
    let d = skip_ws_at(p, c);
    if b == a || c == b || c - b > 3 || d >= p.len() || !(p[d] == '-' || p[d] as u32 == 0x2013) {
        return (None, None);
    }
    let e = d + 1;
    let f = skip_ws_at(p, e);
    let (x, y) = if f < p.len() {
        let r = rstrip_at(p, f, p.len());
        let mut k = f;
        while k < r
            invariant
                f <= k <= r <= p.len(),
                no_line_feed(p@, f as int, k as int),
            decreases r - k,
        {
            if p[k] == '\n' {
                assert(!no_line_feed(p@, f as int, r as int));
                return (None, None);
            }
            k = k + 1;
        }
        (f, r)
    } else {
        let mut h = p.len();
        loop
            invariant
                e <= h <= p.len(),
                last_non_newline(p@, e as int, h as int) == last_non_newline(
                    p@,
                    e as int,
                    p@.len() as int,
                ),
            decreases h,
        {
            if h <= e {
                return (None, None);
            }
            if p[h - 1] != '\n' {
                break;
            }
            h = h - 1;
        }
        (h - 1, h)
    };
    let num = match parse_decimal_at(p, b, c, 0xFFFF) {
        Some(v) => Some(v as u16),
        None => None,
    };
    let (lo, hi) = trim_bounds(p, x, y);
    (num, Some(slice_to_vec(p, lo, hi)))
}

/// Extracts the ccTalk command header from a section title of the form
/// `Header NNN - Command name`: the header number and the command name.
pub fn parse_header(title: &str) -> (r: (Option<u16>, Option<String>))
    ensures
        (r.0, opt_view(r.1)) == header_of(title@),
{
    let p = chars_of(title);
    let (num, name) = header_chars(&p);
    match name {
        Some(v) => (num, Some(string_from_chars(v.as_slice()))),
        None => (num, None),
    }
}

// ---------------------------------------------------------------------------
// Segments
// ---------------------------------------------------------------------------

/// A detected section (or the preamble), spanning `[start, end)` in the
/// cleaned text.
#[derive(Debug)]
pub struct Segment {
    pub number: Option<String>,
    pub title: Option<String>,
    pub start: usize,
    pub end: usize,
    pub header_number: Option<u16>,
    pub header_name: Option<String>,
    pub breadcrumb: Vec<String>,
}

/// The mathematical content of a segment.
pub struct SegmentView {
    pub number: Option<Seq<char>>,
    pub title: Option<Seq<char>>,
    pub start: int,
    pub end: int,
    pub header_number: Option<u16>,
    pub header_name: Option<Seq<char>>,
    pub breadcrumb: Seq<Seq<char>>,
}

impl View for Segment {
    type V = SegmentView;

    open spec fn view(&self) -> SegmentView {
        SegmentView {
            number: opt_view(self.number),
            title: opt_view(self.title),
            start: self.start as int,
            end: self.end as int,
            header_number: self.header_number,
            header_name: opt_view(self.header_name),
            breadcrumb: str_views(self.breadcrumb@),
        }
    }
}

/// The views of a sequence of segments.
pub open spec fn seg_views(v: Seq<Segment>) -> Seq<SegmentView> {
    v.map_values(|s: Segment| s@)
}

/// `s` with every trailing `'.'` removed (`trim_end_matches('.')`).
pub open spec fn trim_end_dots(s: Seq<char>) -> Seq<char>
    decreases s.len(),
{
    if s.len() > 0 && s.last() == '.' {
        trim_end_dots(s.drop_last())
    } else {
        s
    }
}

/// How often `c` occurs in `s`.
pub open spec fn count_char(s: Seq<char>, c: char) -> nat
    decreases s.len(),
{
    if s.len() == 0 {
        0
    } else {
        count_char(s.drop_last(), c) + if s.last() == c {
            1nat
        } else {
            0nat
        }
    }
}

/// A section's depth in the outline: one more than the dots in its number.
pub open spec fn depth_of(number: Seq<char>) -> nat {
    count_char(number, '.') + 1
}

/// A heading's number (trailing dots removed), title and start.
pub struct HeadInfo {
    pub number: Seq<char>,
    pub title: Seq<char>,
    pub start: int,
}

pub open spec fn head_info(t: Seq<char>, h: HeadingSpan) -> HeadInfo {
    HeadInfo {
        number: trim_end_dots(t.subrange(h.num_start, h.num_end)),
        title: trim(t.subrange(h.title_start, h.title_end)),
        start: h.start,
    }
}

/// The breadcrumb label of a heading: `"{number} {title}"`.
pub open spec fn label(h: HeadInfo) -> Seq<char> {
    h.number + seq![' '] + h.title
}

/// Drops the entries at `depth` or deeper from the top of the stack.
pub open spec fn pop_deeper(stack: Seq<(nat, Seq<char>)>, depth: nat) -> Seq<(nat, Seq<char>)>
    decreases stack.len(),
{
    if stack.len() > 0 && stack.last().0 >= depth {
        pop_deeper(stack.drop_last(), depth)
    } else {
        stack
    }
}

/// The heading stack (depth and label of each open heading) after the first
/// `n` headings.
pub open spec fn crumbs(heads: Seq<HeadInfo>, n: int) -> Seq<(nat, Seq<char>)>
    decreases n,
{
    if n <= 0 {
        seq![]
    } else {
        let h = heads[n - 1];
        let d = depth_of(h.number);
        pop_deeper(crumbs(heads, n - 1), d).push((d, label(h)))
    }
}

/// The labels on a heading stack.
pub open spec fn crumb_labels(stack: Seq<(nat, Seq<char>)>) -> Seq<Seq<char>> {
    stack.map_values(|e: (nat, Seq<char>)| e.1)
}

/// The segment of the `i`-th heading.
pub open spec fn section_segment(t: Seq<char>, heads: Seq<HeadInfo>, i: int) -> SegmentView {
    let h = heads[i];
    SegmentView {
        number: Some(h.number),
        title: Some(h.title),
        start: h.start,
        end: if i + 1 < heads.len() {
            heads[i + 1].start
        } else {
            t.len() as int
        },
        header_number: header_of(h.title).0,
        header_name: header_of(h.title).1,
        breadcrumb: crumb_labels(crumbs(heads, i + 1)),
    }
}

/// Front matter before the first heading.
pub open spec fn preamble_segment(end: int) -> SegmentView {
    SegmentView {
        number: None,
        title: Some("Preamble"@),
        start: 0,
        end: end,
        header_number: None,
        header_name: None,
        breadcrumb: seq!["Preamble"@],
    }
}

/// Minimum UTF-8 length of the trimmed front matter for it to be kept.
pub const MIN_PREAMBLE_CHARS: usize = 200;

/// The headings of `t`, as number, title and start.
pub open spec fn heads_of(t: Seq<char>) -> Seq<HeadInfo> {
    headings_from(t, 0).map_values(|h: HeadingSpan| head_info(t, h))
}

/// Where the first heading starts (the end of `t` when there is none).
pub open spec fn first_start(t: Seq<char>) -> int {
    if heads_of(t).len() > 0 {
        heads_of(t)[0].start
    } else {
        t.len() as int
    }
}

/// The outline of `t`: the preamble (when its trimmed text is at least
/// `MIN_PREAMBLE_CHARS` UTF-8 bytes long), then one segment per heading, in
/// order.
pub open spec fn outline(t: Seq<char>) -> Seq<SegmentView> {
    let heads = heads_of(t);
    let first = first_start(t);
    let pre = if utf8_len(trim(t.subrange(0, first))) >= MIN_PREAMBLE_CHARS {
        seq![preamble_segment(first)]
    } else {
        seq![]
    };
    pre + Seq::new(heads.len(), |i: int| section_segment(t, heads, i))
}

/// The depths on a heading stack strictly increase from at least 1.
pub open spec fn deepening(stack: Seq<(nat, Seq<char>)>) -> bool {
    &&& forall|a: int, b: int| 0 <= a < b < stack.len() ==> stack[a].0 < stack[b].0
    &&& forall|a: int| 0 <= a < stack.len() ==> (#[trigger] stack[a]).0 >= 1
}

proof fn lemma_pop_deeper(stack: Seq<(nat, Seq<char>)>, depth: nat)
    requires
        deepening(stack),
    ensures
        deepening(pop_deeper(stack, depth)),
        pop_deeper(stack, depth).len() <= stack.len(),
        forall|a: int|
            0 <= a < pop_deeper(stack, depth).len() ==> #[trigger] pop_deeper(stack, depth)[a]
                == stack[a] && stack[a].0 < depth,
    decreases stack.len(),
{
    if stack.len() > 0 && stack.last().0 >= depth {
        lemma_pop_deeper(stack.drop_last(), depth);
    } else if stack.len() > 0 {
        assert forall|a: int| 0 <= a < stack.len() implies stack[a].0 < depth by {
            if a < stack.len() - 1 {
                assert(stack[a].0 < stack[stack.len() - 1].0);
            }
        }
    }
}

proof fn lemma_crumbs(heads: Seq<HeadInfo>, n: int)
    requires
        0 <= n <= heads.len(),
    ensures
        deepening(crumbs(heads, n)),
        n > 0 ==> crumbs(heads, n).len() > 0 && crumbs(heads, n).last() == (
            depth_of(heads[n - 1].number),
            label(heads[n - 1]),
        ),
    decreases n,
{
    if n > 0 {
        lemma_crumbs(heads, n - 1);
        let d = depth_of(heads[n - 1].number);
        lemma_pop_deeper(crumbs(heads, n - 1), d);
    }
}

proof fn lemma_deepening_len(stack: Seq<(nat, Seq<char>)>)
    requires
        deepening(stack),
        stack.len() > 0,
    ensures
        stack.len() <= stack.last().0,
    decreases stack.len(),
{
    if stack.len() > 1 {
        let front = stack.drop_last();
        assert(deepening(front));
        lemma_deepening_len(front);
        assert(front.last().0 < stack.last().0);
    }
}

/// A segment's breadcrumb ends with its own heading: the preamble's is
/// `["Preamble"]`, a section's last entry is `"{number} {title}"`, and a
/// section has at most as many entries as its depth (one more than the dots
/// in its number), one for itself and one for each enclosing heading.
pub proof fn lemma_breadcrumbs(t: Seq<char>)
    ensures
        forall|i: int|
            0 <= i < outline(t).len() ==> {
                let s = #[trigger] outline(t)[i];
                &&& s.breadcrumb.len() >= 1
                &&& s.number is None ==> s.breadcrumb == seq!["Preamble"@]
                &&& s.number matches Some(n) ==> s.title matches Some(title) && s.breadcrumb.last() == n
                    + seq![' '] + title && s.breadcrumb.len() <= depth_of(n)
            },
{
    let heads = heads_of(t);
    let first = first_start(t);
    let segs = outline(t);
    let secs = Seq::new(heads.len(), |i: int| section_segment(t, heads, i));
    let pre: Seq<SegmentView> = if utf8_len(trim(t.subrange(0, first))) >= MIN_PREAMBLE_CHARS {
        seq![preamble_segment(first)]
    } else {
        seq![]
    };
    assert(segs == pre + secs);
    assert forall|i: int| 0 <= i < segs.len() implies {
        let s = #[trigger] segs[i];
        &&& s.breadcrumb.len() >= 1
        &&& s.number is None ==> s.breadcrumb == seq!["Preamble"@]
        &&& s.number matches Some(n) ==> s.title matches Some(title) && s.breadcrumb.last() == n
            + seq![' '] + title && s.breadcrumb.len() <= depth_of(n)
    } by {
        if i >= pre.len() {
            let k = i - pre.len();
            assert(segs[i] == secs[k]);
            lemma_crumbs(heads, k + 1);
            let st = crumbs(heads, k + 1);
            lemma_deepening_len(st);
            assert(crumb_labels(st).last() == st.last().1);
        }
    }
}

/// A section's breadcrumb, its own entry left out, is the start of the
/// breadcrumb of the segment before it: the enclosing headings are those
/// still open after the previous segment.
pub proof fn lemma_parent_breadcrumbs(t: Seq<char>)
    ensures
        forall|i: int|
            0 <= i < outline(t).len() - 1 && (#[trigger] outline(t)[i + 1]).number is Some
                ==> outline(t)[i + 1].breadcrumb.drop_last().is_prefix_of(outline(t)[i].breadcrumb),
{
    let heads = heads_of(t);
    let first = first_start(t);
    let segs = outline(t);
    let secs = Seq::new(heads.len(), |i: int| section_segment(t, heads, i));
    let pre: Seq<SegmentView> = if utf8_len(trim(t.subrange(0, first))) >= MIN_PREAMBLE_CHARS {
        seq![preamble_segment(first)]
    } else {
        seq![]
    };
    assert(segs == pre + secs);
    assert forall|i: int|
        0 <= i < segs.len() - 1 && (#[trigger] segs[i + 1]).number is Some implies segs[i
            + 1].breadcrumb.drop_last().is_prefix_of(segs[i].breadcrumb) by {
        let k = i + 1 - pre.len();
        assert(segs[i + 1] == secs[k]);
        let d = depth_of(heads[k].number);
        lemma_crumbs(heads, k);
        let prev = crumbs(heads, k);
        let popped = pop_deeper(prev, d);
        lemma_pop_deeper(prev, d);
        assert(crumbs(heads, k + 1) == popped.push((d, label(heads[k]))));
        assert(crumb_labels(crumbs(heads, k + 1)).drop_last() =~= crumb_labels(popped));
        if k == 0 {
            assert(popped.len() == 0);
        } else {
            assert(segs[i] == secs[k - 1]);
            assert(segs[i].breadcrumb == crumb_labels(prev));
        }
    }
}

/// No text is lost before the first segment: an empty outline means a text
/// whose trimmed UTF-8 length is under `MIN_PREAMBLE_CHARS`; a preamble
/// comes first only, runs from the start of the text to the first heading
/// (the end of the text when there is none) and holds at least
/// `MIN_PREAMBLE_CHARS` of trimmed text; and when the first segment is a section,
/// the text before it, trimmed, is under `MIN_PREAMBLE_CHARS` long. In
/// particular a text with no heading and at least that much trimmed text is
/// one preamble segment covering all of it.
pub proof fn lemma_outline_covers(t: Seq<char>)
    ensures
        outline(t).len() == 0 ==> utf8_len(trim(t)) < MIN_PREAMBLE_CHARS,
        outline(t).len() > 0 && outline(t)[0].number is None ==> outline(t)[0].start == 0
            && outline(t)[0].breadcrumb == seq!["Preamble"@] && outline(t)[0].end == (if headings_from(
            t,
            0,
        ).len() > 0 {
            headings_from(t, 0)[0].start
        } else {
            t.len() as int
        }) && utf8_len(trim(t.subrange(0, outline(t)[0].end))) >= MIN_PREAMBLE_CHARS,
        forall|i: int| 1 <= i < outline(t).len() ==> (#[trigger] outline(t)[i]).number is Some,
        outline(t).len() > 0 && outline(t)[0].number is Some ==> utf8_len(
            trim(t.subrange(0, outline(t)[0].start)),
        ) < MIN_PREAMBLE_CHARS,
        headings_from(t, 0).len() == 0 && utf8_len(trim(t)) >= MIN_PREAMBLE_CHARS ==> outline(t).len()
            == 1 && outline(t)[0].start == 0 && outline(t)[0].end == t.len() && outline(t)[0].number
            is None,
{
    let heads = heads_of(t);
    let first = first_start(t);
    let segs = outline(t);
    let secs = Seq::new(heads.len(), |i: int| section_segment(t, heads, i));
    let pre: Seq<SegmentView> = if utf8_len(trim(t.subrange(0, first))) >= MIN_PREAMBLE_CHARS {
        seq![preamble_segment(first)]
    } else {
        seq![]
    };
    assert(segs == pre + secs);
    if heads.len() == 0 {
        assert(t.subrange(0, t.len() as int) =~= t);
    }
    if segs.len() > 0 && pre.len() == 0 {
        assert(segs[0] == secs[0]);
    }
    assert forall|i: int| 1 <= i < segs.len() implies (#[trigger] segs[i]).number is Some by {
        assert(segs[i] == secs[i - pre.len()]);
    }
}

/// The outline partitions the text from its first segment on: each segment
/// covers `[start, end)` inside the text, each one ends where the next one
/// starts, and the last one runs to the end of the text.
pub proof fn lemma_outline_ranges(t: Seq<char>)
    ensures
        forall|i: int|
            0 <= i < outline(t).len() ==> 0 <= #[trigger] outline(t)[i].start <= outline(t)[i].end
                <= t.len(),
        forall|i: int|
            0 <= i < outline(t).len() - 1 ==> #[trigger] outline(t)[i].end == outline(t)[i
                + 1].start,
        outline(t).len() > 0 ==> outline(t)[outline(t).len() - 1].end == t.len(),
{
    lemma_headings_from(t, 0);
    let hs = headings_from(t, 0);
    let heads = heads_of(t);
    let first = first_start(t);
    let segs = outline(t);
    let secs = Seq::new(heads.len(), |i: int| section_segment(t, heads, i));
    let pre: Seq<SegmentView> = if utf8_len(trim(t.subrange(0, first))) >= MIN_PREAMBLE_CHARS {
        seq![preamble_segment(first)]
    } else {
        seq![]
    };
    assert(segs == pre + secs);
    assert forall|k: int| 0 <= k < heads.len() implies heads[k].start == hs[k].start && 0
        <= #[trigger] hs[k].start < t.len() by {
        assert(span_ok(t, hs[k]));
    }
    assert forall|k: int| 0 <= k < heads.len() - 1 implies #[trigger] heads[k].start < heads[k
        + 1].start by {
        assert(span_ok(t, hs[k]));
        assert(hs[k].end <= hs[k + 1].start);
    }
    assert forall|i: int| 0 <= i < segs.len() implies 0 <= #[trigger] segs[i].start
        <= segs[i].end <= t.len() by {
        if i >= pre.len() {
            let k = i - pre.len();
            assert(segs[i] == secs[k]);
            if k + 1 < heads.len() {
                assert(heads[k].start < heads[k + 1].start);
                assert(0 <= hs[k + 1].start < t.len());
            }
            assert(0 <= hs[k].start < t.len());
        } else {
            if heads.len() > 0 {
                assert(0 <= hs[0].start < t.len());
            }
        }
    }
    assert forall|i: int| 0 <= i < segs.len() - 1 implies #[trigger] segs[i].end == segs[i
        + 1].start by {
        if i >= pre.len() {
            assert(segs[i] == secs[i - pre.len()]);
            assert(segs[i + 1] == secs[i + 1 - pre.len()]);
        } else {
            assert(segs[i + 1] == secs[0]);
        }
    }
    if segs.len() > 0 {
        if heads.len() > 0 {
            assert(segs[segs.len() - 1] == secs[heads.len() - 1]);
        }
    }
}

fn utf8_len_reaches(t: &Vec<char>, lo: usize, hi: usize, bound: usize) -> (r: bool)
    requires
        lo <= hi <= t.len(),
    ensures
        r == (utf8_len(t@.subrange(lo as int, hi as int)) >= bound),
{
    let ghost s = t@.subrange(lo as int, hi as int);
    let mut acc: u128 = 0;
    let mut i = lo;
    while i < hi
        invariant
            lo <= i <= hi <= t.len(),
            s == t@.subrange(lo as int, hi as int),
            acc == utf8_len(s.take(i - lo)),
            acc <= 4 * (i - lo),
        decreases hi - i,
    {
        let u = t[i] as u32;
        let w: u128 = if u < 0x80 {
            1
        } else if u < 0x800 {
            2
        } else if u < 0x10000 {
            3
        } else {
            4
        };
        proof {
            assert(s.take(i - lo + 1).drop_last() =~= s.take(i - lo));
            assert(s.take(i - lo + 1).last() == t@[i as int]);
        }
        acc = acc + w;
        i = i + 1;
    }
    assert(s.take(hi - lo) =~= s);
    acc >= bound as u128
}

/// The heading stack in executable form.
pub open spec fn stack_view(v: Seq<(usize, Vec<char>)>) -> Seq<(nat, Seq<char>)> {
    v.map_values(|e: (usize, Vec<char>)| (e.0 as nat, e.1@))
}

proof fn lemma_count_char_bound(s: Seq<char>, c: char)
    ensures
        count_char(s, c) <= s.len(),
    decreases s.len(),
{
    if s.len() > 0 {
        lemma_count_char_bound(s.drop_last(), c);
    }
}

proof fn lemma_trim_end_dots_len(s: Seq<char>)
    ensures
        trim_end_dots(s).len() <= s.len(),
    decreases s.len(),
{
    if s.len() > 0 && s.last() == '.' {
        lemma_trim_end_dots_len(s.drop_last());
    }
}

fn dots_in(s: &Vec<char>) -> (r: usize)
    ensures
        r == count_char(s@, '.'),
        r <= s.len(),
{
    let mut n: usize = 0;
    let mut i: usize = 0;
    while i < s.len()
        invariant
            i <= s.len(),
            n == count_char(s@.take(i as int), '.'),
            n <= i,
        decreases s.len() - i,
    {
        assert(s@.take(i + 1).drop_last() =~= s@.take(i as int));
        if s[i] == '.' {
            n = n + 1;
        }
        i = i + 1;
    }
    assert(s@.take(s.len() as int) =~= s@);
    n
}

fn number_text(t: &Vec<char>, lo: usize, hi: usize) -> (r: Vec<char>)
    requires
        lo <= hi <= t.len(),
    ensures
        r@ == trim_end_dots(t@.subrange(lo as int, hi as int)),
{
    let mut e = hi;
    while e > lo && t[e - 1] == '.'
        invariant
            lo <= e <= hi <= t.len(),
            trim_end_dots(t@.subrange(lo as int, e as int)) == trim_end_dots(
                t@.subrange(lo as int, hi as int),
            ),
        decreases e,
    {
        assert(t@.subrange(lo as int, e as int).drop_last() =~= t@.subrange(lo as int, e - 1));
        e = e - 1;
    }
    slice_to_vec(t, lo, e)
}

/// Builds the ordered list of segments (optional leading preamble, then every
/// numbered section) with breadcrumb heading paths and body ranges.
pub fn build_outline(text: &str) -> (r: Vec<Segment>)
    ensures
        seg_views(r@) == outline(text@),
{
    let t = chars_of(text);
    let hs = find_headings(&t);
    let ghost heads = heads_of(t@);
    proof {
        lemma_headings_from(t@, 0);
    }
    let n = hs.len();
    let first = if n > 0 {
        hs[0].start
    } else {
        t.len()
    };
    proof {
        if n > 0 {
            assert(spans(hs@)[0] == hs@[0].span());
        }
    }
    let mut segments: Vec<Segment> = Vec::new();
    let (plo, phi) = trim_bounds(&t, 0, first);
    if utf8_len_reaches(&t, plo, phi, MIN_PREAMBLE_CHARS) {
        let mut crumb: Vec<String> = Vec::new();
        crumb.push(string_from_chars(chars_of("Preamble").as_slice()));
        segments.push(
            Segment {
                number: None,
                title: Some(string_from_chars(chars_of("Preamble").as_slice())),
                start: 0,
                end: first,
                header_number: None,
                header_name: None,
                breadcrumb: crumb,
            },
        );
        proof {
            assert(str_views(crumb@) =~= seq!["Preamble"@]);
        }
    }
    let ghost pre = seg_views(segments@);
    let mut stack: Vec<(usize, Vec<char>)> = Vec::new();
    let mut i: usize = 0;
    while i < n
        invariant
            n == hs@.len(),
            i <= n,
            spans(hs@) == headings_from(t@, 0),
            heads == heads_of(t@),
            heads.len() == n,
            forall|k: int| 0 <= k < n ==> span_ok(t@, #[trigger] headings_from(t@, 0)[k]),
            forall|k: int|
                0 <= k < n - 1 ==> #[trigger] headings_from(t@, 0)[k].end <= headings_from(
                    t@,
                    0,
                )[k + 1].start,
            stack_view(stack@) == crumbs(heads, i as int),
            seg_views(segments@) == pre + Seq::new(
                i as nat,
                |k: int| section_segment(t@, heads, k),
            ),
        decreases n - i,
    {
        let h = &hs[i];
        let ghost sp = headings_from(t@, 0)[i as int];
        proof {
            assert(spans(hs@)[i as int] == h.span());
            assert(heads[i as int] == head_info(t@, sp));
        }
        let number = number_text(&t, h.num_start, h.num_end);
        let (tlo, thi) = trim_bounds(&t, h.title_start, h.title_end);
        let title = slice_to_vec(&t, tlo, thi);
        let dots = dots_in(&number);
        proof {
            lemma_trim_end_dots_len(t@.subrange(h.num_start as int, h.num_end as int));
            assert(span_ok(t@, sp));
        }
        let depth = dots + 1;
        let ghost old_stack = stack@;
        // Close every open heading at this depth or deeper.
        while stack.len() > 0 && stack[stack.len() - 1].0 >= depth
            invariant
                pop_deeper(stack_view(stack@), depth as nat) == pop_deeper(
                    stack_view(old_stack),
                    depth as nat,
                ),
            decreases stack.len(),
        {
            let ghost before = stack@;
            stack.pop();
            assert(stack_view(stack@) =~= stack_view(before).drop_last());
        }
        let mut lab: Vec<char> = Vec::new();
        push_all(&mut lab, number.as_slice());
        lab.push(' ');
        push_all(&mut lab, title.as_slice());
        let ghost popped = stack@;
        proof {
            assert(pop_deeper(stack_view(stack@), depth as nat) == stack_view(stack@));
            assert(stack_view(popped) == pop_deeper(crumbs(heads, i as int), depth as nat));
            assert(lab@ =~= label(heads[i as int]));
            assert(depth as nat == depth_of(heads[i as int].number));
        }
        stack.push((depth, lab));
        proof {
            assert(stack_view(stack@) =~= stack_view(popped).push((depth as nat, lab@)));
            assert(heads[i as int].number == number@);
            assert(heads[i as int].title == title@);
            assert(crumbs(heads, i + 1) == pop_deeper(crumbs(heads, i as int), depth as nat).push(
                (depth as nat, label(heads[i as int])),
            ));
        }
        // The breadcrumb: every open heading, outermost first.
        let mut breadcrumb: Vec<String> = Vec::new();
        let mut k: usize = 0;
        while k < stack.len()
            invariant
                k <= stack.len(),
                str_views(breadcrumb@) == crumb_labels(stack_view(stack@)).take(k as int),
            decreases stack.len() - k,
        {
            let s = string_from_chars(stack[k].1.as_slice());
            let ghost bb = breadcrumb@;
            breadcrumb.push(s);
            proof {
                assert(s@ == stack@[k as int].1@);
                assert(crumb_labels(stack_view(stack@))[k as int] == stack@[k as int].1@);
                assert(str_views(breadcrumb@) =~= str_views(bb).push(s@));
                assert(str_views(breadcrumb@) =~= crumb_labels(stack_view(stack@)).take(k + 1));
            }
            k = k + 1;
        }
        assert(crumb_labels(stack_view(stack@)).take(stack.len() as int) =~= crumb_labels(
            stack_view(stack@),
        ));
        let end = if i + 1 < n {
            hs[i + 1].start
        } else {
            t.len()
        };
        proof {
            if i + 1 < n {
                assert(spans(hs@)[i + 1] == hs@[i + 1].span());
                assert(heads[i + 1] == head_info(t@, headings_from(t@, 0)[i + 1]));
            }
        }
        let (header_number, header_name_chars) = header_chars(&title);
        let header_name = match header_name_chars {
            Some(v) => Some(string_from_chars(v.as_slice())),
            None => None,
        };
        let seg = Segment {
            number: Some(string_from_chars(number.as_slice())),
            title: Some(string_from_chars(title.as_slice())),
            start: h.start,
            end,
            header_number,
            header_name,
            breadcrumb,
        };
        let ghost before = seg_views(segments@);
        segments.push(seg);
        proof {
            let ss = section_segment(t@, heads, i as int);
            assert(seg@.number == ss.number);
            assert(seg@.title == ss.title);
            assert(seg@.start == ss.start);
            assert(seg@.end == ss.end);
            assert(seg@.header_number == ss.header_number);
            assert(seg@.header_name == ss.header_name);
            assert(seg@.breadcrumb == ss.breadcrumb);
            assert(seg@ == section_segment(t@, heads, i as int));
            assert(seg_views(segments@) =~= before.push(seg@));
            assert(seg_views(segments@) =~= pre + Seq::new(
                (i + 1) as nat,
                |k: int| section_segment(t@, heads, k),
            ));
        }
        i = i + 1;
    }
    proof {
        assert(first as int == first_start(t@));
    }
    segments
}

} // verus!
