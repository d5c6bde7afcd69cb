//! Cleaning of raw page text: the repeated header/footer and cover
//! boilerplate, table-of-contents entries and blank lines are dropped.

use vstd::prelude::*;

use crate::chars::{ci_char_eq, ci_eq, is_decimal_digit, is_digit, is_word_char, is_ws, unicode_word_char, lemma_char_classes};
use crate::text::{
    chars_of, join, lemma_lines_join, lemma_lines_no_newline, lemma_rstrip, lemma_rstrip_unique,
    lines, lines_of, newline_free, push_all, rstrip, rstrip_at,
    skip_digits, skip_digits_at, skip_ws, skip_ws_at, slice_to_vec, string_from_chars, trim_end,
    trim_start, views,
};

verus! {

// ---------------------------------------------------------------------------
// Case-insensitive literals
// ---------------------------------------------------------------------------

/// `t` holds the lower-case ASCII pattern `pat` at `at`, ignoring case.
pub open spec fn ci_match_at(t: Seq<char>, at: int, pat: Seq<char>) -> bool {
    0 <= at && at + pat.len() <= t.len() && forall|k: int|
        0 <= k < pat.len() ==> ci_eq(t[at + k], #[trigger] pat[k])
}

/// Whether `t` holds `pat` at `at`, ignoring case.
pub fn ci_matches_at(t: &Vec<char>, at: usize, pat: &Vec<char>) -> (r: bool)
    ensures
        r == ci_match_at(t@, at as int, pat@),
{
    if at > t.len() || pat.len() > t.len() - at {
        return false;
    }
    let mut k: usize = 0;
    while k < pat.len()
        invariant
            at + pat.len() <= t.len(),
            k <= pat.len(),
            forall|x: int| 0 <= x < k ==> ci_eq(t@[at + x], #[trigger] pat@[x]),
        decreases pat.len() - k,
    {
        if !ci_char_eq(t[at + k], pat[k]) {
            return false;
        }
        k = k + 1;
    }
    true
}

// ---------------------------------------------------------------------------
// Boilerplate lines
// ---------------------------------------------------------------------------

/// `page\s+\d+\s+of\s+\d+` (ignoring case) matches at `i`.
pub open spec fn page_of_at(p: Seq<char>, i: int) -> bool {
    ci_match_at(p, i, "page"@) && {
        let a = i + 4;
        let b = skip_ws(p, a);
        b > a && {
            let c = skip_digits(p, b);
            c > b && {
                let d = skip_ws(p, c);
                d > c && ci_match_at(p, d, "of"@) && {
                    let e = d + 2;
                    let f = skip_ws(p, e);
                    f > e && f < p.len() && is_digit(p[f])
                }
            }
        }
    }
}

/// No line feed in `p[lo..hi]`.
pub open spec fn no_newline(p: Seq<char>, lo: int, hi: int) -> bool {
    forall|k: int| lo <= k < hi ==> #[trigger] p[k] != '\n'
}

/// The page footer `cctalk generic specification\b.*page\s+\d+\s+of\s+\d+`,
/// ignoring case, at the start of `p`.
pub open spec fn is_footer(p: Seq<char>) -> bool {
    let h = "cctalk generic specification"@;
    &&& ci_match_at(p, 0, h)
    &&& (h.len() == p.len() || !unicode_word_char(p[h.len() as int]))
    &&& exists|i: int| h.len() <= i && no_newline(p, h.len() as int, i) && #[trigger] page_of_at(p, i)
}

/// `issue\s+\d+\.\d+\s*$`, ignoring case, from the start of `p` to its end.
pub open spec fn is_issue_line(p: Seq<char>) -> bool {
    ci_match_at(p, 0, "issue"@) && {
        let b = skip_ws(p, 5);
        b > 5 && {
            let c = skip_digits(p, b);
            c > b && c < p.len() && p[c] == '.' && {
                let d = skip_digits(p, c + 1);
                d > c + 1 && skip_ws(p, d) == p.len()
            }
        }
    }
}

/// Boilerplate that never enters a chunk: the case-insensitive pattern
/// `^(?:public domain document|cctalk generic specification\b.*page\s+\d+\s+of\s+\d+|while every effort has been made|accepted or implied for any errors|crane payment solutions (?:does not|shall not)|contained within this document|one issue to the next|arising out of the adherence|issue\s+\d+\.\d+\s*$)`
/// matches `p`.
pub open spec fn is_boilerplate(p: Seq<char>) -> bool {
    ||| ci_match_at(p, 0, "public domain document"@)
    ||| is_footer(p)
    ||| ci_match_at(p, 0, "while every effort has been made"@)
    ||| ci_match_at(p, 0, "accepted or implied for any errors"@)
    ||| ci_match_at(p, 0, "crane payment solutions does not"@)
    ||| ci_match_at(p, 0, "crane payment solutions shall not"@)
    ||| ci_match_at(p, 0, "contained within this document"@)
    ||| ci_match_at(p, 0, "one issue to the next"@)
    ||| ci_match_at(p, 0, "arising out of the adherence"@)
    ||| is_issue_line(p)
}

fn page_of_matches(p: &Vec<char>, i: usize, page: &Vec<char>, of: &Vec<char>) -> (r: bool)
    requires
        i <= p.len(),
        page@ == "page"@,
        of@ == "of"@,
    ensures
        r == page_of_at(p@, i as int),
{
    proof {
        reveal_strlit("page");
        reveal_strlit("of");
    }
    if !ci_matches_at(p, i, page) {
        return false;
    }
    let a = i + 4;
    let b = skip_ws_at(p, a);
    if b == a {
        return false;
    }
    let c = skip_digits_at(p, b);
    if c == b {
        return false;
    }
    let d = skip_ws_at(p, c);
    if d == c || !ci_matches_at(p, d, of) {
        return false;
    }
    let e = d + 2;
    let f = skip_ws_at(p, e);
    f > e && f < p.len() && is_decimal_digit(p[f])
}

fn footer_matches(p: &Vec<char>) -> (r: bool)
    ensures
        r == is_footer(p@),
{
    let h = chars_of("cctalk generic specification");
    if !ci_matches_at(p, 0, &h) {
        return false;
    }
    let hl = h.len();
    if hl < p.len() && is_word_char(p[hl]) {
        return false;
    }
    let page = chars_of("page");
    let of = chars_of("of");
    let mut i = hl;
    while i <= p.len()
        invariant
            hl == h@.len(),
            hl <= p.len(),
            hl <= i,
            h@ == "cctalk generic specification"@,
            ci_match_at(p@, 0, h@),
            hl == p.len() || !unicode_word_char(p@[hl as int]),
            page@ == "page"@,
            of@ == "of"@,
            no_newline(p@, hl as int, i as int),
            forall|j: int| hl <= j < i ==> !#[trigger] page_of_at(p@, j),
        decreases p.len() + 1 - i,
    {
        if page_of_matches(p, i, &page, &of) {
            proof {
                let hh = "cctalk generic specification"@;
                assert(no_newline(p@, hh.len() as int, i as int) && page_of_at(p@, i as int));
                assert(ci_match_at(p@, 0, hh));
                assert(hh.len() == p@.len() || !unicode_word_char(p@[hh.len() as int]));
            }
            return true;
        }
        if i == p.len() || p[i] == '\n' {
            proof {
                assert forall|j: int| hl <= j && no_newline(p@, hl as int, j) implies !#[trigger] page_of_at(p@, j) by {
                    if j > i {
                        if i < p.len() {
                            assert(p@[i as int] != '\n');
                        }
                    }
                }
            }
            return false;
        }
        i = i + 1;
    }
    false
}

fn issue_matches(p: &Vec<char>) -> (r: bool)
    ensures
        r == is_issue_line(p@),
{
    let issue = chars_of("issue");
    proof {
        reveal_strlit("issue");
    }
    if !ci_matches_at(p, 0, &issue) {
        return false;
    }
    let b = skip_ws_at(p, 5);
    if b == 5 {
        return false;
    }
    let c = skip_digits_at(p, b);
    if c == b || c >= p.len() || p[c] != '.' {
        return false;
    }
    let d = skip_digits_at(p, c + 1);
    d > c + 1 && skip_ws_at(p, d) == p.len()
}

/// Whether the (trimmed) line `p` is page boilerplate.
pub fn boilerplate_matches(p: &Vec<char>) -> (r: bool)
    ensures
        r == is_boilerplate(p@),
{
    ci_matches_at(p, 0, &chars_of("public domain document")) || footer_matches(p)
        || ci_matches_at(p, 0, &chars_of("while every effort has been made"))
        || ci_matches_at(p, 0, &chars_of("accepted or implied for any errors"))
        || ci_matches_at(p, 0, &chars_of("crane payment solutions does not"))
        || ci_matches_at(p, 0, &chars_of("crane payment solutions shall not"))
        || ci_matches_at(p, 0, &chars_of("contained within this document"))
        || ci_matches_at(p, 0, &chars_of("one issue to the next"))
        || ci_matches_at(p, 0, &chars_of("arising out of the adherence")) || issue_matches(p)
}

// ---------------------------------------------------------------------------
// Table-of-contents lines
// ---------------------------------------------------------------------------

/// `p[i..j]` is four or more dots, `p[j..k]` whitespace, `p[k..l]` one or
/// more digits and `p[l..]` whitespace.
pub open spec fn toc_at(p: Seq<char>, i: int, j: int, k: int, l: int) -> bool {
    &&& 0 <= i && i + 4 <= j && j <= k && k < l && l <= p.len()
    &&& forall|x: int| i <= x < j ==> #[trigger] p[x] == '.'
    &&& forall|x: int| j <= x < k ==> is_ws(#[trigger] p[x])
    &&& forall|x: int| k <= x < l ==> is_digit(#[trigger] p[x])
    &&& forall|x: int| l <= x < p.len() ==> is_ws(#[trigger] p[x])
}

/// A table-of-contents entry: at least four dots, optional whitespace, a
/// page number and optional whitespace to the end of `p`.
pub open spec fn is_toc_line(p: Seq<char>) -> bool {
    exists|i: int, j: int, k: int, l: int| #[trigger] toc_at(p, i, j, k, l)
}

/// The start of the run of digits that ends at `hi`.
pub open spec fn rskip_digits(t: Seq<char>, lo: int, hi: int) -> int
    decreases hi - lo,
{
    if lo < hi && is_digit(t[hi - 1]) {
        rskip_digits(t, lo, hi - 1)
    } else {
        hi
    }
}

proof fn lemma_rskip_digits(t: Seq<char>, lo: int, hi: int)
    requires
        0 <= lo <= hi <= t.len(),
    ensures
        lo <= rskip_digits(t, lo, hi) <= hi,
        forall|i: int| rskip_digits(t, lo, hi) <= i < hi ==> is_digit(#[trigger] t[i]),
        rskip_digits(t, lo, hi) > lo ==> !is_digit(t[rskip_digits(t, lo, hi) - 1]),
    decreases hi - lo,
{
    if lo < hi && is_digit(t[hi - 1]) {
        lemma_rskip_digits(t, lo, hi - 1);
    }
}

proof fn lemma_rskip_digits_unique(t: Seq<char>, lo: int, hi: int, e: int)
    requires
        0 <= lo <= e <= hi <= t.len(),
        forall|i: int| e <= i < hi ==> is_digit(#[trigger] t[i]),
        e > lo ==> !is_digit(t[e - 1]),
    ensures
        rskip_digits(t, lo, hi) == e,
    decreases hi - e,
{
    if e < hi {
        lemma_rskip_digits_unique(t, lo, hi - 1, e);
    }
}

/// Whether the (trimmed) line `p` is a table-of-contents entry.
pub fn toc_matches(p: &Vec<char>) -> (r: bool)
    ensures
        r == is_toc_line(p@),
{
    let n = p.len();
    let l = rstrip_at(p, 0, n);
    let mut k = l;
    while k > 0 && is_decimal_digit(p[k - 1])
        invariant
            k <= l <= n == p.len(),
            rskip_digits(p@, 0, k as int) == rskip_digits(p@, 0, l as int),
        decreases k,
    {
        k = k - 1;
    }
    let j = rstrip_at(p, 0, k);
    let r = k < l && j >= 4 && p[j - 1] == '.' && p[j - 2] == '.' && p[j - 3] == '.' && p[j - 4] == '.';
    proof {
        let t = p@;
        lemma_rstrip(t, 0, n as int);
        lemma_rskip_digits(t, 0, l as int);
        lemma_rstrip(t, 0, k as int);
        if r {
            assert(toc_at(t, j - 4, j as int, k as int, l as int));
        } else {
            assert forall|i: int, jj: int, kk: int, ll: int| !#[trigger] toc_at(t, i, jj, kk, ll) by {
                if toc_at(t, i, jj, kk, ll) {
                    lemma_char_classes(t[ll - 1]);
                    lemma_rstrip_unique(t, 0, n as int, ll);
                    assert(t[kk - 1] == '.' || is_ws(t[kk - 1]));
                    lemma_char_classes(t[kk - 1]);
                    lemma_rskip_digits_unique(t, 0, l as int, kk);
                    lemma_rstrip_unique(t, 0, k as int, jj);
                    assert(t[jj - 1] == '.');
                    assert(t[jj - 2] == '.');
                    assert(t[jj - 3] == '.');
                    assert(t[jj - 4] == '.');
                }
            }
        }
    }
    r
}

// ---------------------------------------------------------------------------
// Cleaning a page
// ---------------------------------------------------------------------------

/// A line survives cleaning unless, trimmed, it is empty, boilerplate or a
/// table-of-contents entry.
pub open spec fn keep_line(l: Seq<char>) -> bool {
    let probe = trim_start(trim_end(l));
    !(probe.len() == 0 || is_boilerplate(probe) || is_toc_line(probe))
}

/// The surviving lines, each with its trailing whitespace removed.
pub open spec fn cleaned_lines(ls: Seq<Seq<char>>) -> Seq<Seq<char>>
    decreases ls.len(),
{
    if ls.len() == 0 {
        seq![]
    } else {
        let rest = cleaned_lines(ls.drop_last());
        if keep_line(ls.last()) {
            rest.push(trim_end(ls.last()))
        } else {
            rest
        }
    }
}

/// The cleaned page: the surviving lines joined with `'\n'`.
pub open spec fn clean_page_text(raw: Seq<char>) -> Seq<char> {
    join(cleaned_lines(lines(raw)), seq!['\n'])
}

pub proof fn lemma_join_push(parts: Seq<Seq<char>>, sep: Seq<char>, x: Seq<char>)
    ensures
        join(parts.push(x), sep) == if parts.len() == 0 {
            x
        } else {
            join(parts, sep) + sep + x
        },
{
    assert(parts.push(x).drop_last() =~= parts);
}

/// Removes boilerplate, table-of-contents and blank lines from a raw page;
/// the surviving lines keep their leading indentation and lose trailing
/// whitespace.
pub fn clean_page(raw: &str) -> (r: String)
    ensures
        r@ == clean_page_text(raw@),
{
    let t = chars_of(raw);
    let ls = lines_of(&t);
    let ghost all = lines(raw@);
    let mut out: Vec<char> = Vec::new();
    let mut kept: usize = 0;
    let mut i: usize = 0;
    while i < ls.len()
        invariant
            i <= ls.len(),
            views(ls@) == all,
            all == lines(raw@),
            out@ == join(cleaned_lines(all.take(i as int)), seq!['\n']),
            kept == cleaned_lines(all.take(i as int)).len(),
            kept <= i,
        decreases ls.len() - i,
    {
        let l = &ls[i];
        assert(l@ == all[i as int]);
        let e = rstrip_at(l, 0, l.len());
        let tr = slice_to_vec(l, 0, e);
        let ps = skip_ws_at(&tr, 0);
        let probe = slice_to_vec(&tr, ps, tr.len());
        let keep = !(probe.len() == 0 || boilerplate_matches(&probe) || toc_matches(&probe));
        proof {
            assert(tr@ == trim_end(l@));
            assert(probe@ == trim_start(tr@));
            assert(all.take(i + 1).drop_last() =~= all.take(i as int));
            assert(all.take(i + 1).last() == all[i as int]);
        }
        if keep {
            let ghost before = cleaned_lines(all.take(i as int));
            if kept > 0 {
                out.push('\n');
            }
            push_all(&mut out, tr.as_slice());
            kept = kept + 1;
            proof {
                lemma_join_push(before, seq!['\n'], tr@);
                if before.len() > 0 {
                    assert(out@ =~= join(before, seq!['\n']) + seq!['\n'] + tr@);
                } else {
                    assert(out@ =~= tr@);
                }
            }
        }
        i = i + 1;
    }
    assert(all.take(ls.len() as int) =~= all);
    string_from_chars(out.as_slice())
}

proof fn lemma_trim_end_twice(l: Seq<char>)
    ensures
        trim_end(trim_end(l)) == trim_end(l),
{
    lemma_rstrip(l, 0, l.len() as int);
    let e = rstrip(l, 0, l.len() as int);
    let m = l.subrange(0, e);
    lemma_rstrip_unique(m, 0, e, e);
    assert(m.subrange(0, e) =~= m);
}

/// What cleaning makes of a line it keeps.
proof fn lemma_kept_line(l: Seq<char>)
    requires
        keep_line(l),
        newline_free(l),
    ensures
        trim_end(trim_end(l)) == trim_end(l),
        keep_line(trim_end(l)),
        trim_end(l).len() > 0,
        trim_end(l).last() != '\r',
        newline_free(trim_end(l)),
{
    lemma_trim_end_twice(l);
    lemma_rstrip(l, 0, l.len() as int);
    let k = trim_end(l);
    if k.len() == 0 {
        assert(trim_start(k) =~= k);
    } else {
        assert(k.last() == l[k.len() - 1]);
        assert(is_ws('\r'));
    }
}

proof fn lemma_cleaned_lines_shape(ls: Seq<Seq<char>>)
    requires
        forall|i: int| 0 <= i < ls.len() ==> newline_free(#[trigger] ls[i]),
    ensures
        forall|i: int|
            0 <= i < cleaned_lines(ls).len() ==> {
                let k = #[trigger] cleaned_lines(ls)[i];
                &&& newline_free(k)
                &&& k.len() > 0
                &&& k.last() != '\r'
                &&& keep_line(k)
                &&& trim_end(k) == k
            },
    decreases ls.len(),
{
    if ls.len() > 0 {
        let front = ls.drop_last();
        assert forall|i: int| 0 <= i < front.len() implies newline_free(#[trigger] front[i]) by {
            assert(front[i] == ls[i]);
        }
        lemma_cleaned_lines_shape(front);
        let rest = cleaned_lines(front);
        assert(newline_free(ls[ls.len() - 1]));
        if keep_line(ls.last()) {
            lemma_kept_line(ls.last());
            let all = rest.push(trim_end(ls.last()));
            assert(cleaned_lines(ls) == all);
            assert forall|i: int| 0 <= i < all.len() implies {
                let k = #[trigger] all[i];
                &&& newline_free(k)
                &&& k.len() > 0
                &&& k.last() != '\r'
                &&& keep_line(k)
                &&& trim_end(k) == k
            } by {
                if i < rest.len() {
                    assert(all[i] == rest[i]);
                }
            }
        } else {
            assert(cleaned_lines(ls) == rest);
        }
    }
}

proof fn lemma_cleaned_lines_fixed(ks: Seq<Seq<char>>)
    requires
        forall|i: int| 0 <= i < ks.len() ==> keep_line(#[trigger] ks[i]) && trim_end(ks[i]) == ks[i],
    ensures
        cleaned_lines(ks) == ks,
    decreases ks.len(),
{
    if ks.len() > 0 {
        let front = ks.drop_last();
        assert forall|i: int| 0 <= i < front.len() implies keep_line(#[trigger] front[i]) && trim_end(front[i]) == front[i] by {
            assert(front[i] == ks[i]);
        }
        lemma_cleaned_lines_fixed(front);
        assert(front.push(ks.last()) =~= ks);
    }
}

/// A cleaned page holds exactly the lines that cleaning keeps: no blank,
/// boilerplate or table-of-contents line is left in it, and cleaning it again
/// changes nothing.
pub proof fn lemma_clean_page(raw: Seq<char>)
    ensures
        lines(clean_page_text(raw)) == cleaned_lines(lines(raw)),
        forall|i: int|
            0 <= i < lines(clean_page_text(raw)).len() ==> keep_line(
                #[trigger] lines(clean_page_text(raw))[i],
            ),
        clean_page_text(clean_page_text(raw)) == clean_page_text(raw),
{
    let ks = cleaned_lines(lines(raw));
    lemma_lines_no_newline(raw);
    lemma_cleaned_lines_shape(lines(raw));
    lemma_lines_join(ks);
    lemma_cleaned_lines_fixed(ks);
}

/// Whether `p` starts, ignoring case, with one of the phrases of the page
/// boilerplate: the cover notices, the footer title `cctalk generic
/// specification`, the disclaimer lines, or `issue`.
pub open spec fn starts_with_listed_phrase(p: Seq<char>) -> bool {
    ||| ci_match_at(p, 0, "public domain document"@)
    ||| ci_match_at(p, 0, "cctalk generic specification"@)
    ||| ci_match_at(p, 0, "while every effort has been made"@)
    ||| ci_match_at(p, 0, "accepted or implied for any errors"@)
    ||| ci_match_at(p, 0, "crane payment solutions does not"@)
    ||| ci_match_at(p, 0, "crane payment solutions shall not"@)
    ||| ci_match_at(p, 0, "contained within this document"@)
    ||| ci_match_at(p, 0, "one issue to the next"@)
    ||| ci_match_at(p, 0, "arising out of the adherence"@)
    ||| ci_match_at(p, 0, "issue"@)
}

/// Only lines that start with one of the listed phrases are boilerplate.
pub proof fn lemma_boilerplate_phrases(p: Seq<char>)
    ensures
        is_boilerplate(p) ==> starts_with_listed_phrase(p),
{
}

proof fn lemma_kept_in_cleaned(ls: Seq<Seq<char>>, i: int)
    requires
        0 <= i < ls.len(),
        keep_line(ls[i]),
    ensures
        cleaned_lines(ls).contains(trim_end(ls[i])),
    decreases ls.len(),
{
    let front = ls.drop_last();
    if i == ls.len() - 1 {
        assert(cleaned_lines(ls) == cleaned_lines(front).push(trim_end(ls[i])));
        assert(cleaned_lines(ls)[cleaned_lines(ls).len() - 1] == trim_end(ls[i]));
    } else {
        assert(front[i] == ls[i]);
        lemma_kept_in_cleaned(front, i);
        let k = choose|k: int| 0 <= k < cleaned_lines(front).len() && cleaned_lines(front)[k] == trim_end(ls[i]);
        if keep_line(ls.last()) {
            assert(cleaned_lines(ls)[k] == cleaned_lines(front)[k]);
        }
    }
}

/// A line that is not blank, holds no run of four dots (the leader of a
/// table-of-contents entry) and does not start with one of the listed
/// boilerplate phrases survives cleaning, its trailing whitespace removed; a
/// line that is just a number, such as a table value, is such a line.
pub proof fn lemma_plain_lines_survive(raw: Seq<char>, i: int)
    requires
        0 <= i < lines(raw).len(),
        trim_start(trim_end(lines(raw)[i])).len() > 0,
        !starts_with_listed_phrase(trim_start(trim_end(lines(raw)[i]))),
        forall|k: int|
            0 <= k && k + 4 <= trim_start(trim_end(lines(raw)[i])).len() ==> !(#[trigger] trim_start(
                trim_end(lines(raw)[i]),
            )[k] == '.' && trim_start(trim_end(lines(raw)[i]))[k + 1] == '.' && trim_start(
                trim_end(lines(raw)[i]),
            )[k + 2] == '.' && trim_start(trim_end(lines(raw)[i]))[k + 3] == '.'),
    ensures
        keep_line(lines(raw)[i]),
        lines(clean_page_text(raw)).contains(trim_end(lines(raw)[i])),
{
    let l = lines(raw)[i];
    let probe = trim_start(trim_end(l));
    lemma_boilerplate_phrases(probe);
    if is_toc_line(probe) {
        let (a, b, c, d) = choose|a: int, b: int, c: int, d: int| #[trigger] toc_at(probe, a, b, c, d);
        assert(probe[a] == '.' && probe[a + 1] == '.' && probe[a + 2] == '.' && probe[a + 3] == '.');
    }
    lemma_kept_in_cleaned(lines(raw), i);
    lemma_clean_page(raw);
}

// ---------------------------------------------------------------------------
// Concatenation and page lookup
// ---------------------------------------------------------------------------

/// The cleaned pages, each followed by a `'\n'`, one after the other.
pub open spec fn concat_text(pages: Seq<Seq<char>>) -> Seq<char>
    decreases pages.len(),
{
    if pages.len() == 0 {
        seq![]
    } else {
        concat_text(pages.drop_last()) + clean_page_text(pages.last()) + seq!['\n']
    }
}

/// Offsets, strictly increasing.
pub open spec fn strictly_increasing(s: Seq<usize>) -> bool {
    forall|i: int, j: int| 0 <= i < j < s.len() ==> s[i] < s[j]
}

/// How many entries of `s` are at most `x`.
pub open spec fn count_at_most(s: Seq<usize>, x: int) -> nat
    decreases s.len(),
{
    if s.len() == 0 {
        0
    } else {
        count_at_most(s.drop_last(), x) + if s.last() <= x {
            1nat
        } else {
            0nat
        }
    }
}

/// The 1-based page that holds character offset `offset`, given the offsets at
/// which pages start: the number of pages that start at or before `offset`,
/// and page 1 for offsets before the first page.
pub open spec fn page_number(starts: Seq<usize>, offset: int) -> nat {
    let n = count_at_most(starts, offset);
    if n == 0 {
        1
    } else {
        n
    }
}

proof fn lemma_count_split(s: Seq<usize>, x: int, i: int)
    requires
        0 <= i <= s.len(),
        forall|j: int| 0 <= j < i ==> s[j] <= x,
        forall|j: int| i <= j < s.len() ==> s[j] > x,
    ensures
        count_at_most(s, x) == i,
    decreases s.len(),
{
    if s.len() > 0 {
        if i == s.len() {
            lemma_count_split(s.drop_last(), x, i - 1);
        } else {
            lemma_count_split(s.drop_last(), x, i);
        }
    }
}

/// Page lookup resolves an offset to the page whose range holds it: an
/// offset from the start of page `i + 1` up to the start of the next page
/// (or any offset from the start of the last page on) is on page `i + 1`, and
/// an offset before the first page is on page 1.
pub proof fn lemma_page_number_in_range(starts: Seq<usize>, i: int, offset: int)
    requires
        strictly_increasing(starts),
        -1 <= i < starts.len(),
        i >= 0 ==> starts[i] <= offset,
        i + 1 < starts.len() ==> offset < starts[i + 1],
    ensures
        page_number(starts, offset) == if i < 0 {
            1
        } else {
            i + 1
        },
{
    assert forall|j: int| 0 <= j < i + 1 implies starts[j] <= offset by {
        if j < i {
            assert(starts[j] < starts[i]);
        }
    }
    assert forall|j: int| i + 1 <= j < starts.len() implies starts[j] > offset by {
        if j > i + 1 {
            assert(starts[i + 1] < starts[j]);
        }
    }
    lemma_count_split(starts, offset, i + 1);
}

proof fn lemma_count_at_most(s: Seq<usize>, a: int, b: int)
    requires
        a <= b,
    ensures
        count_at_most(s, a) <= count_at_most(s, b) <= s.len(),
    decreases s.len(),
{
    if s.len() > 0 {
        lemma_count_at_most(s.drop_last(), a, b);
    }
}

/// Page lookup never goes backwards: a later offset is on the same page or a
/// later one, and every offset is on a page from 1 to the number of pages
/// (page 1 when there are none).
pub proof fn lemma_page_number_monotone(starts: Seq<usize>, a: int, b: int)
    requires
        a <= b,
    ensures
        page_number(starts, a) <= page_number(starts, b),
        1 <= page_number(starts, a),
        page_number(starts, b) <= if starts.len() == 0 {
            1
        } else {
            starts.len()
        },
{
    lemma_count_at_most(starts, a, b);
}

/// Binary search of `x` in a sorted slice: `Ok` with the index of an element
/// equal to `x`, or `Err` with the index at which `x` could be inserted
/// keeping the slice sorted.
fn binary_search_usize(s: &[usize], x: usize) -> (r: Result<usize, usize>)
    requires
        forall|i: int, j: int| 0 <= i < j < s@.len() ==> s@[i] <= s@[j],
    ensures
        match r {
            Ok(i) => i < s@.len() && s@[i as int] == x,
            Err(i) => i <= s@.len() && (forall|j: int| 0 <= j < i ==> s@[j] < x) && (forall|j: int|
                i <= j < s@.len() ==> s@[j] > x),
        },
{
    let mut lo: usize = 0;
    let mut hi: usize = s.len();
    while lo < hi
        invariant
            lo <= hi <= s@.len(),
            forall|i: int, j: int| 0 <= i < j < s@.len() ==> s@[i] <= s@[j],
            forall|j: int| 0 <= j < lo ==> s@[j] < x,
            forall|j: int| hi <= j < s@.len() ==> s@[j] > x,
        decreases hi - lo,
    {
        let mid = lo + (hi - lo) / 2;
        if s[mid] == x {
            return Ok(mid);
        } else if s[mid] < x {
            lo = mid + 1;
        } else {
            hi = mid;
        }
    }
    Err(lo)
}

/// Maps character offsets in the concatenated document text back to 1-based
/// page numbers.
pub struct PageMap {
    /// `starts[i]` is the offset at which page `i + 1` begins.
    starts: Vec<usize>,
}

impl View for PageMap {
    type V = Seq<usize>;

    closed spec fn view(&self) -> Seq<usize> {
        self.starts@
    }
}

impl PageMap {
    #[verifier::type_invariant]
    closed spec fn inv(self) -> bool {
        strictly_increasing(self.starts@)
    }

    /// A page map over the given page start offsets, which must strictly
    /// increase; `None` otherwise.
    pub fn from_starts(starts: Vec<usize>) -> (r: Option<PageMap>)
        ensures
            r is Some <==> strictly_increasing(starts@),
            r matches Some(m) ==> m@ == starts@,
    {
        let mut i: usize = 1;
        while i < starts.len()
            invariant
                1 <= i,
                forall|a: int, b: int| 0 <= a < b < i && b < starts@.len() ==> starts@[a] < starts@[b],
            decreases starts.len() - i,
        {
            if starts[i - 1] >= starts[i] {
                return None;
            }
            i = i + 1;
        }
        Some(PageMap { starts })
    }

    /// The page start offsets.
    pub fn starts(&self) -> (r: &Vec<usize>)
        ensures
            r@ == self@,
            strictly_increasing(r@),
    {
        proof {
            use_type_invariant(self);
        }
        &self.starts
    }

    /// Returns the 1-based page number containing the given offset.
    pub fn page_at(&self, offset: usize) -> (r: usize)
        ensures
            r == page_number(self@, offset as int),
    {
        proof {
            use_type_invariant(self);
        }
        let n = self.starts.len();
        let s = self.starts.as_slice();
        assert(s@.len() == n);
        match binary_search_usize(s, offset) {
            Ok(i) => {
                proof {
                    lemma_count_split(s@, offset as int, i + 1);
                }
                i + 1
            },
            Err(i) => {
                proof {
                    lemma_count_split(s@, offset as int, i as int);
                }
                if i > 1 {
                    i
                } else {
                    1
                }
            },
        }
    }
}

/// Cleans every page and concatenates them, each followed by `'\n'`,
/// recording the offset at which each page starts.
pub fn concatenate(pages: &[String]) -> (r: (String, PageMap))
    ensures
        r.0@ == concat_text(pages@.map_values(|p: String| p@)),
        r.1@.len() == pages@.len(),
        forall|i: int|
            0 <= i < pages@.len() ==> #[trigger] r.1@[i] == concat_text(
                pages@.map_values(|p: String| p@).take(i),
            ).len(),
{
    let ghost ps = pages@.map_values(|p: String| p@);
    let mut text: Vec<char> = Vec::new();
    let mut starts: Vec<usize> = Vec::new();
    let mut i: usize = 0;
    while i < pages.len()
        invariant
            i <= pages@.len(),
            ps == pages@.map_values(|p: String| p@),
            text@ == concat_text(ps.take(i as int)),
            starts@.len() == i,
            forall|k: int| 0 <= k < i ==> #[trigger] starts@[k] == concat_text(ps.take(k)).len(),
            forall|k: int| 0 <= k < i ==> #[trigger] starts@[k] < text@.len(),
            strictly_increasing(starts@),
        decreases pages.len() - i,
    {
        let ghost old_text = text@;
        starts.push(text.len());
        let cleaned = clean_page(pages[i].as_str());
        let cc = chars_of(cleaned.as_str());
        push_all(&mut text, cc.as_slice());
        text.push('\n');
        proof {
            assert(ps.take(i + 1).drop_last() =~= ps.take(i as int));
            assert(ps.take(i + 1).last() == pages@[i as int]@);
            assert(text@ =~= old_text + clean_page_text(pages@[i as int]@) + seq!['\n']);
            assert(ps.take(i as int) == ps.take(i as int));
        }
        i = i + 1;
    }
    assert(ps.take(pages@.len() as int) =~= ps);
    proof {
        assert forall|k: int| 0 <= k < pages@.len() implies #[trigger] starts@[k] == concat_text(ps.take(k)).len() by {}
    }
    (string_from_chars(text.as_slice()), PageMap { starts })
}

} // verus!
