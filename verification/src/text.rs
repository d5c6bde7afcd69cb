//! Text as sequences of characters: trimming, scanning, lines, joining and
//! word counts, with the executable helpers that compute them.

use vstd::prelude::*;

use crate::chars::{is_decimal_digit, is_digit, is_whitespace, is_ws};

verus! {

// ---------------------------------------------------------------------------
// Scanning over a character sequence
// ---------------------------------------------------------------------------

/// The first position at or after `p` that does not hold whitespace.
pub open spec fn skip_ws(t: Seq<char>, p: int) -> int
    decreases t.len() - p,
{
    if 0 <= p < t.len() && is_ws(t[p]) {
        skip_ws(t, p + 1)
    } else {
        p
    }
}

/// The end of `t[lo..hi]` once trailing whitespace is cut off.
pub open spec fn rstrip(t: Seq<char>, lo: int, hi: int) -> int
    decreases hi - lo,
{
    if lo < hi && is_ws(t[hi - 1]) {
        rstrip(t, lo, hi - 1)
    } else {
        hi
    }
}

/// `str::trim_start`.
pub open spec fn trim_start(s: Seq<char>) -> Seq<char> {
    s.subrange(skip_ws(s, 0), s.len() as int)
}

/// `str::trim_end`.
pub open spec fn trim_end(s: Seq<char>) -> Seq<char> {
    s.subrange(0, rstrip(s, 0, s.len() as int))
}

/// `str::trim`.
pub open spec fn trim(s: Seq<char>) -> Seq<char> {
    trim_end(trim_start(s))
}

pub proof fn lemma_skip_ws(t: Seq<char>, p: int)
    requires
        0 <= p <= t.len(),
    ensures
        p <= skip_ws(t, p) <= t.len(),
        forall|i: int| p <= i < skip_ws(t, p) ==> is_ws(#[trigger] t[i]),
        skip_ws(t, p) < t.len() ==> !is_ws(t[skip_ws(t, p)]),
    decreases t.len() - p,
{
    if p < t.len() && is_ws(t[p]) {
        lemma_skip_ws(t, p + 1);
    }
}

pub proof fn lemma_rstrip(t: Seq<char>, lo: int, hi: int)
    requires
        0 <= lo <= hi <= t.len(),
    ensures
        lo <= rstrip(t, lo, hi) <= hi,
        forall|i: int| rstrip(t, lo, hi) <= i < hi ==> is_ws(#[trigger] t[i]),
        rstrip(t, lo, hi) > lo ==> !is_ws(t[rstrip(t, lo, hi) - 1]),
    decreases hi - lo,
{
    if lo < hi && is_ws(t[hi - 1]) {
        lemma_rstrip(t, lo, hi - 1);
    }
}

/// Whitespace skipping is determined by the characters it passes over.
pub proof fn lemma_skip_ws_unique(t: Seq<char>, p: int, q: int)
    requires
        0 <= p <= q <= t.len(),
        forall|i: int| p <= i < q ==> is_ws(#[trigger] t[i]),
        q < t.len() ==> !is_ws(t[q]),
    ensures
        skip_ws(t, p) == q,
    decreases q - p,
{
    if p < q {
        lemma_skip_ws_unique(t, p + 1, q);
    }
}

pub proof fn lemma_rstrip_unique(t: Seq<char>, lo: int, hi: int, e: int)
    requires
        0 <= lo <= e <= hi <= t.len(),
        forall|i: int| e <= i < hi ==> is_ws(#[trigger] t[i]),
        e > lo ==> !is_ws(t[e - 1]),
    ensures
        rstrip(t, lo, hi) == e,
    decreases hi - e,
{
    if e < hi {
        lemma_rstrip_unique(t, lo, hi - 1, e);
    }
}

/// Position after the whitespace that starts at `p`.
pub fn skip_ws_at(t: &Vec<char>, p: usize) -> (r: usize)
    requires
        p <= t.len(),
    ensures
        r == skip_ws(t@, p as int),
        p <= r <= t.len(),
{
    let mut i = p;
    proof {
        lemma_skip_ws(t@, p as int);
    }
    while i < t.len() && is_whitespace(t[i])
        invariant
            p <= i <= t.len(),
            skip_ws(t@, i as int) == skip_ws(t@, p as int),
        decreases t.len() - i,
    {
        i = i + 1;
    }
    i
}

/// End of `t[lo..hi]` with trailing whitespace cut off.
pub fn rstrip_at(t: &Vec<char>, lo: usize, hi: usize) -> (r: usize)
    requires
        lo <= hi <= t.len(),
    ensures
        r == rstrip(t@, lo as int, hi as int),
        lo <= r <= hi,
{
    let mut j = hi;
    proof {
        lemma_rstrip(t@, lo as int, hi as int);
    }
    while j > lo && is_whitespace(t[j - 1])
        invariant
            lo <= j <= hi <= t.len(),
            rstrip(t@, lo as int, j as int) == rstrip(t@, lo as int, hi as int),
        decreases j,
    {
        j = j - 1;
    }
    j
}

/// `str::trim` on `t[lo..hi]`, as the bounds of the trimmed part.
pub fn trim_bounds(t: &Vec<char>, lo: usize, hi: usize) -> (r: (usize, usize))
    requires
        lo <= hi <= t.len(),
    ensures
        lo <= r.0 <= r.1 <= hi,
        t@.subrange(r.0 as int, r.1 as int) == trim(t@.subrange(lo as int, hi as int)),
        r.0 == lo + skip_ws(t@.subrange(lo as int, hi as int), 0),
{
    let ghost s = t@.subrange(lo as int, hi as int);
    let mut i = lo;
    while i < hi && is_whitespace(t[i])
        invariant
            lo <= i <= hi <= t.len(),
            s == t@.subrange(lo as int, hi as int),
            forall|k: int| lo <= k < i ==> is_ws(#[trigger] t@[k]),
        decreases hi - i,
    {
        i = i + 1;
    }
    let mut j = hi;
    while j > i && is_whitespace(t[j - 1])
        invariant
            lo <= i <= j <= hi <= t.len(),
            forall|k: int| j <= k < hi ==> is_ws(#[trigger] t@[k]),
        decreases j,
    {
        j = j - 1;
    }
    proof {
        let a = (i - lo) as int;
        assert forall|k: int| 0 <= k < a implies is_ws(#[trigger] s[k]) by {
            assert(s[k] == t@[lo + k]);
        }
        lemma_skip_ws_unique(s, 0, a);
        let u = trim_start(s);
        assert(u == t@.subrange(i as int, hi as int));
        let b = (j - i) as int;
        assert forall|k: int| b <= k < u.len() implies is_ws(#[trigger] u[k]) by {
            assert(u[k] == t@[i + k]);
        }
        if b > 0 {
            assert(u[b - 1] == t@[j - 1]);
        }
        lemma_rstrip_unique(u, 0, u.len() as int, b);
        assert(trim(s) == u.subrange(0, b));
        assert(u.subrange(0, b) =~= t@.subrange(i as int, j as int));
    }
    (i, j)
}

/// The first position at or after `p` that does not hold a decimal digit.
pub open spec fn skip_digits(t: Seq<char>, p: int) -> int
    decreases t.len() - p,
{
    if 0 <= p < t.len() && is_digit(t[p]) {
        skip_digits(t, p + 1)
    } else {
        p
    }
}

pub proof fn lemma_skip_digits(t: Seq<char>, p: int)
    requires
        0 <= p <= t.len(),
    ensures
        p <= skip_digits(t, p) <= t.len(),
        forall|i: int| p <= i < skip_digits(t, p) ==> is_digit(#[trigger] t[i]),
        skip_digits(t, p) < t.len() ==> !is_digit(t[skip_digits(t, p)]),
    decreases t.len() - p,
{
    if p < t.len() && is_digit(t[p]) {
        lemma_skip_digits(t, p + 1);
    }
}

/// Position after the decimal digits that start at `p`.
pub fn skip_digits_at(t: &Vec<char>, p: usize) -> (r: usize)
    requires
        p <= t.len(),
    ensures
        r == skip_digits(t@, p as int),
        p <= r <= t.len(),
{
    let mut i = p;
    proof {
        lemma_skip_digits(t@, p as int);
    }
    while i < t.len() && is_decimal_digit(t[i])
        invariant
            p <= i <= t.len(),
            skip_digits(t@, i as int) == skip_digits(t@, p as int),
        decreases t.len() - i,
    {
        i = i + 1;
    }
    i
}

/// `t` holds `pat` at position `at`.
pub open spec fn match_at(t: Seq<char>, at: int, pat: Seq<char>) -> bool {
    0 <= at && at + pat.len() <= t.len() && t.subrange(at, at + pat.len()) == pat
}

/// Whether `t` holds `pat` at position `at`.
pub fn matches_at(t: &Vec<char>, at: usize, pat: &Vec<char>) -> (r: bool)
    ensures
        r == match_at(t@, at as int, pat@),
{
    if at > t.len() || pat.len() > t.len() - at {
        return false;
    }
    let mut k: usize = 0;
    while k < pat.len()
        invariant
            at + pat.len() <= t.len(),
            k <= pat.len(),
            forall|x: int| 0 <= x < k ==> t@[at + x] == #[trigger] pat@[x],
        decreases pat.len() - k,
    {
        if t[at + k] != pat[k] {
            proof {
                assert(t@.subrange(at as int, at + pat.len())[k as int] != pat@[k as int]);
            }
            return false;
        }
        k = k + 1;
    }
    assert(t@.subrange(at as int, at + pat.len()) =~= pat@);
    true
}

// ---------------------------------------------------------------------------
// Lines, words and joining
// ---------------------------------------------------------------------------

/// Splits on `'\n'`: the lines finished by a `'\n'`, and what follows the
/// last `'\n'`.
pub open spec fn split_newlines(s: Seq<char>) -> (Seq<Seq<char>>, Seq<char>)
    decreases s.len(),
{
    if s.len() == 0 {
        (seq![], seq![])
    } else {
        let (done, cur) = split_newlines(s.drop_last());
        if s.last() == '\n' {
            (done.push(cur), seq![])
        } else {
            (done, cur.push(s.last()))
        }
    }
}

/// Drops one `'\r'` from the end of a line, if there is one.
pub open spec fn strip_cr(l: Seq<char>) -> Seq<char> {
    if l.len() > 0 && l.last() == '\r' {
        l.drop_last()
    } else {
        l
    }
}

/// `str::lines`: lines end at `"\n"` or `"\r\n"`, the terminators are not part
/// of the lines, and the last line need not be terminated.
pub open spec fn lines(s: Seq<char>) -> Seq<Seq<char>> {
    let (done, cur) = split_newlines(s);
    done.map_values(|l: Seq<char>| strip_cr(l)) + if cur.len() > 0 {
        seq![cur]
    } else {
        seq![]
    }
}

/// `s` holds no line feed.
pub open spec fn newline_free(s: Seq<char>) -> bool {
    forall|i: int| 0 <= i < s.len() ==> s[i] != '\n'
}

proof fn lemma_split_newlines_append(s: Seq<char>, t: Seq<char>)
    requires
        newline_free(t),
    ensures
        split_newlines(s + t) == (split_newlines(s).0, split_newlines(s).1 + t),
    decreases t.len(),
{
    if t.len() == 0 {
        assert(s + t =~= s);
        assert(split_newlines(s).1 + t =~= split_newlines(s).1);
    } else {
        lemma_split_newlines_append(s, t.drop_last());
        assert((s + t).drop_last() =~= s + t.drop_last());
        assert((s + t).last() == t.last());
        assert(split_newlines(s).1 + t.drop_last() + seq![t.last()] =~= split_newlines(s).1 + t);
    }
}

/// The pieces between line feeds hold no line feed.
pub proof fn lemma_split_newlines_pieces(s: Seq<char>)
    ensures
        forall|i: int| 0 <= i < split_newlines(s).0.len() ==> newline_free(#[trigger] split_newlines(s).0[i]),
        newline_free(split_newlines(s).1),
    decreases s.len(),
{
    if s.len() > 0 {
        lemma_split_newlines_pieces(s.drop_last());
    }
}

/// Lines hold no line feed.
pub proof fn lemma_lines_no_newline(s: Seq<char>)
    ensures
        forall|i: int| 0 <= i < lines(s).len() ==> newline_free(#[trigger] lines(s)[i]),
{
    lemma_split_newlines_pieces(s);
    let (done, cur) = split_newlines(s);
    assert forall|i: int| 0 <= i < lines(s).len() implies newline_free(#[trigger] lines(s)[i]) by {
        if i < done.len() {
            assert(lines(s)[i] == strip_cr(done[i]));
            assert(newline_free(done[i]));
        }
    }
}

proof fn lemma_split_newlines_join(parts: Seq<Seq<char>>)
    requires
        parts.len() >= 1,
        forall|i: int| 0 <= i < parts.len() ==> newline_free(#[trigger] parts[i]),
    ensures
        split_newlines(join(parts, seq!['\n'])) == (parts.drop_last(), parts.last()),
    decreases parts.len(),
{
    let nl = seq!['\n'];
    if parts.len() == 1 {
        lemma_split_newlines_append(seq![], parts[0]);
        assert(Seq::<char>::empty() + parts[0] =~= parts[0]);
        assert(split_newlines(Seq::<char>::empty()) == (Seq::<Seq<char>>::empty(), Seq::<char>::empty()));
        assert(parts.drop_last() =~= Seq::<Seq<char>>::empty());
        assert(Seq::<char>::empty() + parts[0] =~= parts[0]);
    } else {
        let front = parts.drop_last();
        assert forall|i: int| 0 <= i < front.len() implies newline_free(#[trigger] front[i]) by {
            assert(front[i] == parts[i]);
        }
        lemma_split_newlines_join(front);
        let a = join(front, nl) + nl;
        assert(a.drop_last() =~= join(front, nl));
        assert(split_newlines(a) == (front.drop_last().push(front.last()), Seq::<char>::empty()));
        assert(front.drop_last().push(front.last()) =~= front);
        lemma_split_newlines_append(a, parts.last());
        assert(Seq::<char>::empty() + parts.last() =~= parts.last());
    }
}

/// Lines joined with line feeds split back into the same lines, when none
/// is empty, holds a line feed or ends with a carriage return.
pub proof fn lemma_lines_join(parts: Seq<Seq<char>>)
    requires
        forall|i: int|
            0 <= i < parts.len() ==> newline_free(#[trigger] parts[i]) && parts[i].len() > 0
                && parts[i].last() != '\r',
    ensures
        lines(join(parts, seq!['\n'])) == parts,
{
    if parts.len() == 0 {
        assert(split_newlines(Seq::<char>::empty()) == (Seq::<Seq<char>>::empty(), Seq::<char>::empty()));
        assert(lines(Seq::<char>::empty()) =~= parts);
    } else {
        assert forall|i: int| 0 <= i < parts.len() implies newline_free(#[trigger] parts[i]) by {}
        lemma_split_newlines_join(parts);
        let done = parts.drop_last();
        assert(done.map_values(|l: Seq<char>| strip_cr(l)) =~= done);
        assert(done + seq![parts.last()] =~= parts);
    }
}

/// `parts` joined with `sep` between neighbours (`[String]::join`).
pub open spec fn join(parts: Seq<Seq<char>>, sep: Seq<char>) -> Seq<char>
    decreases parts.len(),
{
    if parts.len() == 0 {
        seq![]
    } else if parts.len() == 1 {
        parts[0]
    } else {
        join(parts.drop_last(), sep) + sep + parts.last()
    }
}

/// Where entry `i` of `parts` starts in `join(parts, sep)`: the lengths of
/// the entries before it, each followed by a separator of `sep_len`
/// characters.
pub open spec fn join_offset(parts: Seq<Seq<char>>, sep_len: int, i: int) -> int
    decreases i,
{
    if i <= 0 {
        0
    } else {
        join_offset(parts, sep_len, i - 1) + parts[i - 1].len() + sep_len
    }
}

proof fn lemma_join_offset_front(parts: Seq<Seq<char>>, sep_len: int, i: int)
    requires
        0 <= i < parts.len(),
    ensures
        join_offset(parts.drop_last(), sep_len, i) == join_offset(parts, sep_len, i),
    decreases i,
{
    if i > 0 {
        lemma_join_offset_front(parts, sep_len, i - 1);
    }
}

pub proof fn lemma_join_offset_nonneg(parts: Seq<Seq<char>>, sep_len: int, i: int)
    requires
        sep_len >= 0,
    ensures
        join_offset(parts, sep_len, i) >= 0,
    decreases i,
{
    if i > 0 {
        lemma_join_offset_nonneg(parts, sep_len, i - 1);
    }
}

pub proof fn lemma_join_len(parts: Seq<Seq<char>>, sep: Seq<char>)
    requires
        parts.len() > 0,
    ensures
        join(parts, sep).len() == join_offset(parts, sep.len() as int, parts.len() - 1) + parts[parts.len()
            - 1].len(),
    decreases parts.len(),
{
    if parts.len() > 1 {
        let front = parts.drop_last();
        let n = parts.len() - 1;
        lemma_join_len(front, sep);
        lemma_join_offset_front(parts, sep.len() as int, n - 1);
        assert(front[n - 1] == parts[n - 1]);
    }
}

pub proof fn lemma_join_entry(parts: Seq<Seq<char>>, sep: Seq<char>, i: int)
    requires
        0 <= i < parts.len(),
    ensures
        join_offset(parts, sep.len() as int, i) + parts[i].len() <= join(parts, sep).len(),
        join(parts, sep).subrange(
            join_offset(parts, sep.len() as int, i),
            join_offset(parts, sep.len() as int, i) + parts[i].len(),
        ) == parts[i],
    decreases parts.len(),
{
    let sl = sep.len() as int;
    let j = join(parts, sep);
    if parts.len() == 1 {
        assert(parts[0].subrange(0, parts[0].len() as int) =~= parts[0]);
    } else {
        let front = parts.drop_last();
        let n = parts.len() - 1;
        let jf = join(front, sep);
        assert(j == jf + sep + parts[n]);
        lemma_join_len(front, sep);
        lemma_join_offset_front(parts, sl, n - 1);
        assert(front[n - 1] == parts[n - 1]);
        if i < n {
            lemma_join_offset_nonneg(parts, sl, i);
            lemma_join_entry(front, sep, i);
            lemma_join_offset_front(parts, sl, i);
            assert(front[i] == parts[i]);
            assert(j.subrange(join_offset(parts, sl, i), join_offset(parts, sl, i) + parts[i].len())
                =~= jf.subrange(join_offset(front, sl, i), join_offset(front, sl, i) + front[i].len()));
        } else {
            assert(join_offset(parts, sl, n) == jf.len() + sl);
            assert(j.subrange(jf.len() + sl, j.len() as int) =~= parts[n]);
        }
    }
}

pub proof fn lemma_join_sep(parts: Seq<Seq<char>>, sep: Seq<char>, i: int)
    requires
        0 <= i < parts.len() - 1,
    ensures
        join(parts, sep).subrange(
            join_offset(parts, sep.len() as int, i) + parts[i].len(),
            join_offset(parts, sep.len() as int, i + 1),
        ) == sep,
    decreases parts.len(),
{
    let sl = sep.len() as int;
    let j = join(parts, sep);
    let front = parts.drop_last();
    let n = parts.len() - 1;
    let jf = join(front, sep);
    assert(j == jf + sep + parts[n]);
    lemma_join_len(front, sep);
    lemma_join_offset_front(parts, sl, i);
    assert(front[i] == parts[i]);
    lemma_join_offset_nonneg(parts, sl, i);
    if i < n - 1 {
        lemma_join_sep(front, sep, i);
        lemma_join_offset_front(parts, sl, i + 1);
        lemma_join_entry(front, sep, i + 1);
        assert(j.subrange(join_offset(parts, sl, i) + parts[i].len(), join_offset(parts, sl, i + 1))
            =~= jf.subrange(join_offset(front, sl, i) + front[i].len(), join_offset(front, sl, i + 1)));
    } else {
        assert(j.subrange(jf.len() as int, jf.len() + sl) =~= sep);
    }
}

/// Joining puts every entry, in order, at its offset, with `sep` between
/// neighbours and nothing else.
pub proof fn lemma_join_entries(parts: Seq<Seq<char>>, sep: Seq<char>)
    ensures
        parts.len() > 0 ==> join(parts, sep).len() == join_offset(parts, sep.len() as int, parts.len() - 1)
            + parts[parts.len() - 1].len(),
        forall|i: int|
            0 <= i < parts.len() ==> join_offset(parts, sep.len() as int, i) + (#[trigger] parts[i]).len()
                <= join(parts, sep).len() && join(parts, sep).subrange(
                join_offset(parts, sep.len() as int, i),
                join_offset(parts, sep.len() as int, i) + parts[i].len(),
            ) == parts[i],
        forall|i: int|
            0 <= i < parts.len() - 1 ==> join(parts, sep).subrange(
                join_offset(parts, sep.len() as int, i) + (#[trigger] parts[i]).len(),
                join_offset(parts, sep.len() as int, i + 1),
            ) == sep,
{
    if parts.len() > 0 {
        lemma_join_len(parts, sep);
    }
    assert forall|i: int| 0 <= i < parts.len() implies join_offset(parts, sep.len() as int, i) + (
    #[trigger] parts[i]).len() <= join(parts, sep).len() && join(parts, sep).subrange(
        join_offset(parts, sep.len() as int, i),
        join_offset(parts, sep.len() as int, i) + parts[i].len(),
    ) == parts[i] by {
        lemma_join_entry(parts, sep, i);
    }
    assert forall|i: int| 0 <= i < parts.len() - 1 implies join(parts, sep).subrange(
        join_offset(parts, sep.len() as int, i) + (#[trigger] parts[i]).len(),
        join_offset(parts, sep.len() as int, i + 1),
    ) == sep by {
        lemma_join_sep(parts, sep, i);
    }
}

/// The number of whitespace-separated words (`str::split_whitespace().count()`).
pub open spec fn word_count(s: Seq<char>) -> nat
    decreases s.len(),
{
    if s.len() == 0 {
        0
    } else {
        let starts_word = !is_ws(s.last()) && (s.len() == 1 || is_ws(s[s.len() - 2]));
        word_count(s.drop_last()) + if starts_word {
            1nat
        } else {
            0nat
        }
    }
}

pub proof fn lemma_word_count_bound(s: Seq<char>)
    ensures
        word_count(s) <= s.len(),
        s.len() > 0 && is_ws(s.last()) ==> 2 * word_count(s) <= s.len(),
        2 * word_count(s) <= s.len() + 1,
    decreases s.len(),
{
    if s.len() > 0 {
        lemma_word_count_bound(s.drop_last());
        if s.len() >= 2 {
            assert(s.drop_last().last() == s[s.len() - 2]);
        }
    }
}

/// The UTF-8 length of one character (`char::len_utf8`).
pub open spec fn char_utf8_len(c: char) -> nat {
    let u = c as u32;
    if u < 0x80 {
        1
    } else if u < 0x800 {
        2
    } else if u < 0x10000 {
        3
    } else {
        4
    }
}

/// The UTF-8 length of a character sequence (`str::len`).
pub open spec fn utf8_len(s: Seq<char>) -> nat
    decreases s.len(),
{
    if s.len() == 0 {
        0
    } else {
        utf8_len(s.drop_last()) + char_utf8_len(s.last())
    }
}

// ---------------------------------------------------------------------------
// Views of strings
// ---------------------------------------------------------------------------

/// The view of an optional string.
pub open spec fn opt_view(o: Option<String>) -> Option<Seq<char>> {
    match o {
        Some(s) => Some(s@),
        None => None,
    }
}

/// The views of a sequence of strings.
pub open spec fn str_views(v: Seq<String>) -> Seq<Seq<char>> {
    v.map_values(|s: String| s@)
}

// ---------------------------------------------------------------------------
// Executable helpers
// ---------------------------------------------------------------------------

/// The characters of a string slice.
pub fn chars_of(s: &str) -> (v: Vec<char>)
    ensures
        v@ == s@,
{
    let mut v: Vec<char> = Vec::new();
    for c in it: s.chars()
        invariant
            v@ == it.seq().take(it.index() as int),
            it.seq() == s@,
    {
        v.push(c);
    }
    v
}

/// The string made of the given characters, in order (`String::from_iter`).
#[verifier::external_body]
pub(crate) fn string_from_chars(v: &[char]) -> (s: String)
    ensures
        s@ == v@,
{
    String::from_iter(v.iter())
}

/// The views of a sequence of character vectors.
pub open spec fn views(v: Seq<Vec<char>>) -> Seq<Seq<char>> {
    v.map_values(|l: Vec<char>| l@)
}

/// A copy of `t[lo..hi]`.
pub fn slice_to_vec(t: &Vec<char>, lo: usize, hi: usize) -> (r: Vec<char>)
    requires
        lo <= hi <= t.len(),
    ensures
        r@ == t@.subrange(lo as int, hi as int),
{
    let mut r: Vec<char> = Vec::new();
    let mut i = lo;
    while i < hi
        invariant
            lo <= i <= hi <= t.len(),
            r@ == t@.subrange(lo as int, i as int),
        decreases hi - i,
    {
        r.push(t[i]);
        i = i + 1;
        assert(r@ =~= t@.subrange(lo as int, i as int));
    }
    r
}

/// Appends `src` to `dst`.
pub fn push_all(dst: &mut Vec<char>, src: &[char])
    ensures
        final(dst)@ == old(dst)@ + src@,
{
    let mut i: usize = 0;
    while i < src.len()
        invariant
            i <= src.len(),
            dst@ == old(dst)@ + src@.subrange(0, i as int),
        decreases src.len() - i,
    {
        dst.push(src[i]);
        i = i + 1;
        assert(dst@ =~= old(dst)@ + src@.subrange(0, i as int));
    }
    assert(src@.subrange(0, src@.len() as int) =~= src@);
}

/// Whether two character vectors are equal.
pub fn chars_eq(a: &Vec<char>, b: &Vec<char>) -> (r: bool)
    ensures
        r == (a@ == b@),
{
    if a.len() != b.len() {
        return false;
    }
    let r = matches_at(a, 0, b);
    proof {
        if r {
            assert(a@.subrange(0, b@.len() as int) =~= a@);
        } else {
            assert(a@.subrange(0, b@.len() as int) =~= a@);
        }
    }
    r
}

/// `str::lines`, as character vectors.
pub fn lines_of(t: &Vec<char>) -> (r: Vec<Vec<char>>)
    ensures
        views(r@) == lines(t@),
{
    let mut done: Vec<Vec<char>> = Vec::new();
    let mut cur: Vec<char> = Vec::new();
    let mut i: usize = 0;
    while i < t.len()
        invariant
            i <= t.len(),
            split_newlines(t@.take(i as int)).0.map_values(|l: Seq<char>| strip_cr(l)) == views(done@),
            split_newlines(t@.take(i as int)).1 == cur@,
        decreases t.len() - i,
    {
        let ghost before = t@.take(i as int);
        let c = t[i];
        i = i + 1;
        assert(t@.take(i as int).drop_last() =~= before);
        if c == '\n' {
            let n = cur.len();
            let line = if n > 0 && cur[n - 1] == '\r' {
                slice_to_vec(&cur, 0, n - 1)
            } else {
                slice_to_vec(&cur, 0, n)
            };
            proof {
                assert(cur@.subrange(0, n as int) =~= cur@);
                if n > 0 {
                    assert(cur@.subrange(0, n - 1) =~= cur@.drop_last());
                }
                assert(line@ == strip_cr(cur@));
            }
            let ghost old_done = done@;
            let ghost old_cur = cur@;
            done.push(line);
            cur = Vec::new();
            proof {
                let sp = split_newlines(t@.take(i as int));
                let sb = split_newlines(before);
                assert(sp.0 == sb.0.push(sb.1));
                assert(views(done@) =~= views(old_done).push(strip_cr(old_cur)));
                assert(sp.0.map_values(|l: Seq<char>| strip_cr(l)) =~= sb.0.map_values(
                    |l: Seq<char>| strip_cr(l),
                ).push(strip_cr(old_cur)));
                assert(sp.0.map_values(|l: Seq<char>| strip_cr(l)) =~= views(done@));
                assert(sp.1 =~= cur@);
            }
        } else {
            cur.push(c);
            proof {
                let sp = split_newlines(t@.take(i as int));
                assert(sp.0 == split_newlines(before).0);
                assert(sp.1 =~= cur@);
            }
        }
    }
    assert(t@.take(t@.len() as int) =~= t@);
    let ghost d = done@;
    if cur.len() > 0 {
        done.push(cur);
        assert(views(done@) =~= views(d) + seq![split_newlines(t@).1]);
    } else {
        assert(views(done@) =~= views(d) + seq![]);
    }
    done
}

/// `parts` joined with `sep` (`[String]::join`).
pub fn join_strings(parts: &Vec<String>, sep: &Vec<char>) -> (r: Vec<char>)
    ensures
        r@ == join(str_views(parts@), sep@),
{
    let ghost ps = str_views(parts@);
    let mut out: Vec<char> = Vec::new();
    let mut i: usize = 0;
    while i < parts.len()
        invariant
            i <= parts.len(),
            ps == str_views(parts@),
            out@ == join(ps.take(i as int), sep@),
        decreases parts.len() - i,
    {
        let ghost before = ps.take(i as int);
        if i > 0 {
            push_all(&mut out, sep.as_slice());
        }
        let c = chars_of(parts[i].as_str());
        push_all(&mut out, c.as_slice());
        proof {
            assert(ps.take(i + 1).drop_last() =~= before);
            assert(ps.take(i + 1).last() == parts@[i as int]@);
            if i > 0 {
                assert(out@ =~= join(before, sep@) + sep@ + parts@[i as int]@);
            } else {
                assert(ps.take(1) =~= seq![parts@[0]@]);
                assert(out@ =~= parts@[0]@);
            }
        }
        i = i + 1;
    }
    assert(ps.take(parts.len() as int) =~= ps);
    out
}

} // verus!
