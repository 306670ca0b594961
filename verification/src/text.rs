//! Character-level helpers shared by the parsers and the safety guard.
//!
//! Strings are modelled by their `Seq<char>` view. The functions here are the
//! small pieces of `str` behaviour the library relies on (white space, `trim`,
//! `lines`, substring search), each stated over that view.

use vstd::prelude::*;

verus! {

/// Unicode `White_Space`: the characters `char::is_whitespace`, `str::trim`
/// and the regex class `\s` treat as white space.
pub open spec fn is_ws(c: char) -> bool {
    let u = c as u32;
    ||| 0x09 <= u <= 0x0d
    ||| u == 0x20
    ||| u == 0x85
    ||| u == 0xa0
    ||| u == 0x1680
    ||| 0x2000 <= u <= 0x200a
    ||| u == 0x2028
    ||| u == 0x2029
    ||| u == 0x202f
    ||| u == 0x205f
    ||| u == 0x3000
}

/// Every character of `s` is white space (true of the empty sequence).
pub open spec fn all_ws(s: Seq<char>) -> bool {
    forall|i: int| 0 <= i < s.len() ==> #[trigger] is_ws(s[i])
}

/// Index of the first non-white-space character of `s` at or after `i`
/// (`s.len()` when there is none).
pub open spec fn skip_ws(s: Seq<char>, i: int) -> int
    decreases s.len() - i,
{
    if i < 0 || i >= s.len() || !is_ws(s[i]) {
        i
    } else {
        skip_ws(s, i + 1)
    }
}

/// End of `s[lo..j]` once trailing white space is removed.
pub open spec fn strip_ws_back(s: Seq<char>, lo: int, j: int) -> int
    decreases j - lo,
{
    if j <= lo || j > s.len() || !is_ws(s[j - 1]) {
        j
    } else {
        strip_ws_back(s, lo, j - 1)
    }
}

/// `str::trim`: `s` without its leading and trailing white space.
pub open spec fn trim(s: Seq<char>) -> Seq<char> {
    let a = skip_ws(s, 0);
    s.subrange(a, strip_ws_back(s, a, s.len() as int))
}

/// `s[a..b]` is `s` without leading and trailing white space: everything
/// before `a` and from `b` on is white space, and a non-empty `s[a..b]`
/// starts and ends with a non-white-space character.
pub open spec fn trim_bounds(s: Seq<char>, a: int, b: int) -> bool {
    &&& 0 <= a <= b <= s.len()
    &&& forall|i: int| 0 <= i < a ==> #[trigger] is_ws(s[i])
    &&& forall|i: int| b <= i < s.len() ==> #[trigger] is_ws(s[i])
    &&& a < b ==> !is_ws(s[a]) && !is_ws(s[b - 1])
}

proof fn lemma_skip_ws_facts(s: Seq<char>, i: int)
    requires
        0 <= i <= s.len(),
    ensures
        i <= skip_ws(s, i) <= s.len(),
        forall|j: int| i <= j < skip_ws(s, i) ==> #[trigger] is_ws(s[j]),
        skip_ws(s, i) < s.len() ==> !is_ws(s[skip_ws(s, i)]),
    decreases s.len() - i,
{
    if i < s.len() && is_ws(s[i]) {
        lemma_skip_ws_facts(s, i + 1);
    }
}

proof fn lemma_strip_back_facts(s: Seq<char>, lo: int, j: int)
    requires
        0 <= lo <= j <= s.len(),
    ensures
        lo <= strip_ws_back(s, lo, j) <= j,
        forall|m: int| strip_ws_back(s, lo, j) <= m < j ==> #[trigger] is_ws(s[m]),
        strip_ws_back(s, lo, j) > lo ==> !is_ws(s[strip_ws_back(s, lo, j) - 1]),
    decreases j - lo,
{
    if j > lo && is_ws(s[j - 1]) {
        lemma_strip_back_facts(s, lo, j - 1);
    }
}

/// `trim` removes exactly the leading and trailing white space: its result
/// is `s[a..b]` for bounds as `trim_bounds` describes (for an all-white
/// text, the empty slice).
pub proof fn lemma_trim_exact(s: Seq<char>)
    ensures
        exists|a: int, b: int| #[trigger] trim_bounds(s, a, b) && trim(s) == s.subrange(a, b),
{
    lemma_skip_ws_facts(s, 0);
    let a = skip_ws(s, 0);
    lemma_strip_back_facts(s, a, s.len() as int);
    let b = strip_ws_back(s, a, s.len() as int);
    if a == s.len() {
        assert(b == a);
    }
    assert(trim_bounds(s, a, b));
}

/// `needle` occurs in `haystack` as a contiguous run (the empty needle
/// occurs everywhere).
pub open spec fn contains(haystack: Seq<char>, needle: Seq<char>) -> bool {
    exists|i: int|
        0 <= i && i + needle.len() <= haystack.len() && #[trigger] haystack.subrange(
            i,
            i + needle.len(),
        ) == needle
}

/// Index of the first `'\n'` of `t` at or after `i` (`t.len()` when none).
pub open spec fn newline_at_or_after(t: Seq<char>, i: int) -> int
    decreases t.len() - i,
{
    if i < 0 || i >= t.len() || t[i] == '\n' {
        i
    } else {
        newline_at_or_after(t, i + 1)
    }
}

/// The newline search never moves backwards nor past the end.
pub proof fn lemma_newline_bounds(t: Seq<char>, i: int)
    requires
        0 <= i <= t.len(),
    ensures
        i <= newline_at_or_after(t, i) <= t.len(),
    decreases t.len() - i,
{
    if i < t.len() && t[i] != '\n' {
        lemma_newline_bounds(t, i + 1);
    }
}

/// Past the end of `t1`, searching `t1 + t2` is searching `t2`, shifted.
pub proof fn lemma_newline_shift(t1: Seq<char>, t2: Seq<char>, j: int)
    requires
        0 <= j <= t2.len(),
    ensures
        newline_at_or_after(t1 + t2, t1.len() + j) == t1.len() + newline_at_or_after(t2, j),
    decreases t2.len() - j,
{
    if j < t2.len() {
        assert((t1 + t2)[t1.len() + j] == t2[j]);
        if t2[j] != '\n' {
            lemma_newline_shift(t1, t2, j + 1);
        }
    }
}

/// Inside a `t1` that ends with a newline, searching `t1 + t2` is searching
/// `t1`, and the newline found lies in `t1`.
pub proof fn lemma_newline_prefix(t1: Seq<char>, t2: Seq<char>, i: int)
    requires
        0 <= i < t1.len(),
        t1.last() == '\n',
    ensures
        newline_at_or_after(t1 + t2, i) == newline_at_or_after(t1, i),
        newline_at_or_after(t1, i) < t1.len(),
    decreases t1.len() - i,
{
    assert((t1 + t2)[i] == t1[i]);
    if t1[i] != '\n' {
        lemma_newline_prefix(t1, t2, i + 1);
    }
}

/// The line that starts at `start` and ends before the newline at `end`
/// (or at the end of the text), without a `'\r'` that precedes the newline.
pub open spec fn line_between(t: Seq<char>, start: int, end: int) -> Seq<char> {
    if end < t.len() && end > start && t[end - 1] == '\r' {
        t.subrange(start, end - 1)
    } else {
        t.subrange(start, end)
    }
}

/// `str::lines`, from position `start` on: the text is cut after each
/// `'\n'`, the final line ending is optional, and each line loses its
/// `"\n"` or `"\r\n"` ending.
pub open spec fn lines_from(t: Seq<char>, start: int) -> Seq<Seq<char>>
    decreases t.len() + 1 - start,
{
    if start < 0 || start >= t.len() {
        Seq::empty()
    } else {
        let end = newline_at_or_after(t, start);
        proof {
            lemma_newline_bounds(t, start);
        }
        seq![line_between(t, start, end)] + lines_from(t, end + 1)
    }
}

/// `str::lines` of the whole text.
pub open spec fn lines(t: Seq<char>) -> Seq<Seq<char>> {
    lines_from(t, 0)
}

/// Past the end of `t1`, the lines of `t1 + t2` are those of `t2`.
pub proof fn lemma_lines_shift(t1: Seq<char>, t2: Seq<char>, j: int)
    requires
        0 <= j <= t2.len(),
    ensures
        lines_from(t1 + t2, t1.len() + j) == lines_from(t2, j),
    decreases t2.len() - j,
{
    let t = t1 + t2;
    if j < t2.len() {
        lemma_newline_shift(t1, t2, j);
        lemma_newline_bounds(t2, j);
        let e = newline_at_or_after(t2, j);
        assert(line_between(t, t1.len() + j, t1.len() + e) =~= line_between(t2, j, e)) by {
            if e > j {
                assert(t[t1.len() + e - 1] == t2[e - 1]);
            }
            assert(t.subrange(t1.len() + j, t1.len() + e) =~= t2.subrange(j, e));
            if e > j {
                assert(t.subrange(t1.len() + j, t1.len() + e - 1) =~= t2.subrange(j, e - 1));
            }
        }
        if e < t2.len() {
            lemma_lines_shift(t1, t2, e + 1);
        }
    }
}

/// Inside a `t1` that ends with a newline, the lines of `t1 + t2` are those
/// of `t1` followed by the lines after `t1`.
pub proof fn lemma_lines_prefix(t1: Seq<char>, t2: Seq<char>, s: int)
    requires
        0 <= s <= t1.len(),
        t1.len() == 0 || t1.last() == '\n',
    ensures
        lines_from(t1 + t2, s) == lines_from(t1, s) + lines_from(t1 + t2, t1.len() as int),
    decreases t1.len() - s,
{
    let t = t1 + t2;
    if s < t1.len() {
        lemma_newline_prefix(t1, t2, s);
        lemma_newline_bounds(t1, s);
        let e = newline_at_or_after(t1, s);
        assert(line_between(t, s, e) =~= line_between(t1, s, e)) by {
            if e > s {
                assert(t[e - 1] == t1[e - 1]);
            }
            assert(t.subrange(s, e) =~= t1.subrange(s, e));
            if e > s {
                assert(t.subrange(s, e - 1) =~= t1.subrange(s, e - 1));
            }
        }
        lemma_lines_prefix(t1, t2, e + 1);
        assert(lines_from(t, s) =~= seq![line_between(t1, s, e)] + lines_from(t, e + 1));
        assert(lines_from(t1, s) =~= seq![line_between(t1, s, e)] + lines_from(t1, e + 1));
    } else {
        assert(lines_from(t1, s) =~= Seq::<Seq<char>>::empty());
    }
}

/// The lines of a text joined at a line break are the lines of its parts.
pub proof fn lemma_lines_concat(t1: Seq<char>, t2: Seq<char>)
    requires
        t1.len() == 0 || t1.last() == '\n',
    ensures
        lines(t1 + t2) == lines(t1) + lines(t2),
{
    lemma_lines_prefix(t1, t2, 0);
    lemma_lines_shift(t1, t2, 0);
}

/// The views of a vector of character vectors.
pub open spec fn char_rows(v: Seq<Vec<char>>) -> Seq<Seq<char>> {
    v.map_values(|r: Vec<char>| r@)
}

/// The views of a vector of strings.
pub open spec fn string_views(v: Seq<String>) -> Seq<Seq<char>> {
    v.map_values(|s: String| s@)
}

/// An ASCII character.
pub open spec fn is_ascii_char(c: char) -> bool {
    (c as u32) < 128
}

/// Every character of `s` is ASCII.
pub open spec fn all_ascii(s: Seq<char>) -> bool {
    forall|i: int| 0 <= i < s.len() ==> #[trigger] is_ascii_char(s[i])
}

/// `char::to_ascii_lowercase`: `'A'..='Z'` to `'a'..='z'`, other
/// characters unchanged.
pub open spec fn ascii_lower(c: char) -> char {
    if 0x41 <= (c as u32) <= 0x5a {
        ((c as u32) + 32) as char
    } else {
        c
    }
}

/// `str::to_ascii_lowercase`, character by character.
pub open spec fn ascii_lowercase(s: Seq<char>) -> Seq<char> {
    s.map_values(|c: char| ascii_lower(c))
}

/// What `str::to_lowercase` returns for a string: its Unicode lowercase
/// mapping, which depends on the string alone.
pub uninterp spec fn spec_to_lowercase(s: Seq<char>) -> Seq<char>;

/// Calls `str::to_lowercase`. The contract claims that the result is a
/// function of the input characters (named `spec_to_lowercase`) and that,
/// on ASCII text, it maps `'A'..='Z'` to `'a'..='z'` and keeps every other
/// character; the Unicode case tables beyond ASCII are left unsaid.
#[verifier::external_body]
pub(crate) fn to_lowercase(s: &str) -> (r: String)
    ensures
        r@ == spec_to_lowercase(s@),
        all_ascii(s@) ==> r@ == ascii_lowercase(s@),
{
    s.to_lowercase()
}

/// Calls `String::push`, which appends one character.
#[verifier::external_body]
fn string_push(s: &mut String, c: char)
    ensures
        final(s)@ == old(s)@.push(c),
{
    s.push(c);
}

/// Whether `c` is white space (`char::is_whitespace`).
pub fn char_is_ws(c: char) -> (r: bool)
    ensures
        r == is_ws(c),
{
    let u = c as u32;
    (0x09 <= u && u <= 0x0d) || u == 0x20 || u == 0x85 || u == 0xa0 || u == 0x1680 || (0x2000
        <= u && u <= 0x200a) || u == 0x2028 || u == 0x2029 || u == 0x202f || u == 0x205f || u
        == 0x3000
}

/// The characters of `s`, in order.
pub fn chars_of(s: &str) -> (v: Vec<char>)
    ensures
        v@ == s@,
{
    broadcast use vstd::string::group_string_axioms;

    let mut v: Vec<char> = Vec::new();
    for c in it: s.chars()
        invariant
            it.seq() == s@,
            v@ == it.seq().take(it.index() as int),
    {
        v.push(c);
    }
    v
}

/// A string made of the characters `v[lo..hi]`.
pub fn string_of_range(v: &Vec<char>, lo: usize, hi: usize) -> (s: String)
    requires
        lo <= hi <= v.len(),
    ensures
        s@ == v@.subrange(lo as int, hi as int),
{
    let mut s = String::new();
    let mut i = lo;
    while i < hi
        invariant
            lo <= i <= hi <= v.len(),
            s@ == v@.subrange(lo as int, i as int),
        decreases hi - i,
    {
        string_push(&mut s, v[i]);
        i += 1;
    }
    s
}

/// A string made of all the characters of `v`.
pub fn string_of(v: &Vec<char>) -> (s: String)
    ensures
        s@ == v@,
{
    let s = string_of_range(v, 0, v.len());
    assert(v@.subrange(0, v@.len() as int) == v@);
    s
}

/// `a` followed by `b`, as a new string.
pub fn concat(a: &str, b: &str) -> (s: String)
    ensures
        s@ == a@ + b@,
{
    let mut v = chars_of(a);
    let w = chars_of(b);
    let mut i: usize = 0;
    while i < w.len()
        invariant
            i <= w.len(),
            w@ == b@,
            v@ == a@ + b@.take(i as int),
        decreases w.len() - i,
    {
        v.push(w[i]);
        i += 1;
        assert(v@ == a@ + b@.take(i as int));
    }
    assert(b@.take(b@.len() as int) == b@);
    string_of(&v)
}

/// Whether two strings hold the same characters.
pub fn str_eq(a: &str, b: &str) -> (r: bool)
    ensures
        r == (a@ == b@),
{
    let x = chars_of(a);
    let y = chars_of(b);
    if x.len() != y.len() {
        return false;
    }
    let mut i: usize = 0;
    while i < x.len()
        invariant
            i <= x.len() == y.len(),
            x@ == a@,
            y@ == b@,
            forall|k: int| 0 <= k < i ==> x@[k] == y@[k],
        decreases x.len() - i,
    {
        if x[i] != y[i] {
            return false;
        }
        i += 1;
    }
    assert(x@ =~= y@);
    true
}

/// Whether every character of `v` is white space (`s.trim().is_empty()`).
pub fn is_blank(v: &Vec<char>) -> (r: bool)
    ensures
        r == all_ws(v@),
{
    let mut i: usize = 0;
    while i < v.len()
        invariant
            i <= v.len(),
            forall|k: int| 0 <= k < i ==> #[trigger] is_ws(v@[k]),
        decreases v.len() - i,
    {
        if !char_is_ws(v[i]) {
            return false;
        }
        i += 1;
    }
    true
}

/// Index of the first non-white-space character of `v` at or after `i`.
pub fn skip_ws_exec(v: &Vec<char>, i: usize) -> (r: usize)
    requires
        i <= v.len(),
    ensures
        r as int == skip_ws(v@, i as int),
        i <= r <= v.len(),
        r < v.len() ==> !is_ws(v@[r as int]),
{
    let mut j = i;
    while j < v.len() && char_is_ws(v[j])
        invariant
            i <= j <= v.len(),
            skip_ws(v@, i as int) == skip_ws(v@, j as int),
        decreases v.len() - j,
    {
        j += 1;
    }
    j
}

/// End of `v[lo..j]` once trailing white space is removed.
pub fn strip_ws_back_exec(v: &Vec<char>, lo: usize, j: usize) -> (r: usize)
    requires
        lo <= j <= v.len(),
    ensures
        r as int == strip_ws_back(v@, lo as int, j as int),
        lo <= r <= j,
{
    let mut k = j;
    while k > lo && char_is_ws(v[k - 1])
        invariant
            lo <= k <= j <= v.len(),
            strip_ws_back(v@, lo as int, j as int) == strip_ws_back(v@, lo as int, k as int),
        decreases k - lo,
    {
        k -= 1;
    }
    k
}

/// `s.trim()`, as characters.
pub fn trim_chars(v: &Vec<char>) -> (r: Vec<char>)
    ensures
        r@ == trim(v@),
{
    let a = skip_ws_exec(v, 0);
    let b = strip_ws_back_exec(v, a, v.len());
    let mut r: Vec<char> = Vec::new();
    let mut i = a;
    while i < b
        invariant
            a <= i <= b <= v.len(),
            r@ == v@.subrange(a as int, i as int),
        decreases b - i,
    {
        r.push(v[i]);
        i += 1;
    }
    r
}

/// `s.trim().to_string()`.
pub fn trim_str(s: &str) -> (r: String)
    ensures
        r@ == trim(s@),
{
    let v = chars_of(s);
    let t = trim_chars(&v);
    string_of(&t)
}

/// Whether `h[at..at + n.len()]` equals `n`.
fn occurs_at(h: &Vec<char>, n: &Vec<char>, at: usize) -> (r: bool)
    requires
        at + n.len() <= h.len(),
    ensures
        r == (h@.subrange(at as int, at + n.len()) == n@),
{
    let mut k: usize = 0;
    while k < n.len()
        invariant
            k <= n.len(),
            at + n.len() <= h.len(),
            forall|m: int| 0 <= m < k ==> h@[at + m] == n@[m],
        decreases n.len() - k,
    {
        if h[at + k] != n[k] {
            assert(h@.subrange(at as int, at + n.len())[k as int] != n@[k as int]);
            return false;
        }
        k += 1;
    }
    assert(h@.subrange(at as int, at + n.len()) =~= n@);
    true
}

/// Substring search (`str::contains` with a string pattern).
pub fn contains_chars(h: &Vec<char>, n: &Vec<char>) -> (r: bool)
    ensures
        r == contains(h@, n@),
{
    if n.len() > h.len() {
        return false;
    }
    let last = h.len() - n.len();
    let mut i: usize = 0;
    while i < last
        invariant
            i <= last,
            last + n.len() == h.len(),
            forall|j: int|
                0 <= j < i ==> #[trigger] h@.subrange(j, j + n@.len()) != n@,
        decreases last - i,
    {
        if occurs_at(h, n, i) {
            return true;
        }
        i += 1;
    }
    if occurs_at(h, n, last) {
        return true;
    }
    assert forall|j: int|
        0 <= j && j + n@.len() <= h@.len() implies #[trigger] h@.subrange(j, j + n@.len())
        != n@ by {
        assert(j <= last);
    }
    false
}

/// Index of the first `'\n'` of `t` at or after `i`.
fn newline_at_or_after_exec(t: &Vec<char>, i: usize) -> (r: usize)
    requires
        i <= t.len(),
    ensures
        r as int == newline_at_or_after(t@, i as int),
        i <= r <= t.len(),
{
    let mut j = i;
    while j < t.len() && t[j] != '\n'
        invariant
            i <= j <= t.len(),
            newline_at_or_after(t@, i as int) == newline_at_or_after(t@, j as int),
        decreases t.len() - j,
    {
        j += 1;
    }
    j
}

/// `text.lines()`, each line as its characters.
pub fn split_lines(t: &Vec<char>) -> (out: Vec<Vec<char>>)
    ensures
        char_rows(out@) == lines(t@),
{
    let mut out: Vec<Vec<char>> = Vec::new();
    let mut start: usize = 0;
    while start < t.len()
        invariant
            start <= t.len(),
            char_rows(out@) + lines_from(t@, start as int) == lines(t@),
        decreases t.len() - start,
    {
        let end = newline_at_or_after_exec(t, start);
        proof {
            lemma_newline_bounds(t@, start as int);
        }
        let stop = if end < t.len() && end > start && t[end - 1] == '\r' {
            end - 1
        } else {
            end
        };
        let mut line: Vec<char> = Vec::new();
        let mut k = start;
        while k < stop
            invariant
                start <= k <= stop <= t.len(),
                line@ == t@.subrange(start as int, k as int),
            decreases stop - k,
        {
            line.push(t[k]);
            k += 1;
        }
        assert(line@ == line_between(t@, start as int, end as int));
        let ghost before = out@;
        out.push(line);
        assert(char_rows(out@) == char_rows(before).push(line@));
        assert(lines_from(t@, start as int) == seq![line@] + lines_from(t@, end + 1));
        assert(char_rows(out@) + lines_from(t@, end + 1) == char_rows(before) + lines_from(
            t@,
            start as int,
        ));
        if end < t.len() {
            start = end + 1;
        } else {
            start = end;
        }
    }
    assert(lines_from(t@, start as int) == Seq::<Seq<char>>::empty());
    assert(char_rows(out@) + Seq::<Seq<char>>::empty() == char_rows(out@));
    out
}

} // verus!
