//! Character-level helpers: whitespace, trimming, line splitting, number
//! parsing and formatting, and conversions between `str`, `String` and
//! character vectors.

use vstd::prelude::*;

verus! {

broadcast use vstd::string::group_string_axioms;

/// Unicode `White_Space`, the set used by `char::is_whitespace`, `str::trim`
/// and the `\s` class of a Unicode regular expression.
pub open spec fn is_ws(c: char) -> bool {
    ('\u{9}' <= c && c <= '\u{d}') || c == ' ' || c == '\u{85}' || c == '\u{a0}'
        || c == '\u{1680}' || ('\u{2000}' <= c && c <= '\u{200a}') || c == '\u{2028}'
        || c == '\u{2029}' || c == '\u{202f}' || c == '\u{205f}' || c == '\u{3000}'
}

pub fn is_whitespace(c: char) -> (b: bool)
    ensures
        b == is_ws(c),
{
    ('\u{9}' <= c && c <= '\u{d}') || c == ' ' || c == '\u{85}' || c == '\u{a0}'
        || c == '\u{1680}' || ('\u{2000}' <= c && c <= '\u{200a}') || c == '\u{2028}'
        || c == '\u{2029}' || c == '\u{202f}' || c == '\u{205f}' || c == '\u{3000}'
}

/// The characters of a string slice, in order.
pub fn chars_of(s: &str) -> (v: Vec<char>)
    ensures
        v@ == s@,
{
    let mut v: Vec<char> = Vec::new();
    for c in it: s.chars()
        invariant
            v@ == it.seq().take(it.index() as int),
            it.seq() == s@,
    {
        v.push(c);
    }
    assert(v@ =~= s@);
    v
}

/// `String::push`: appends one character to the end of the string.
#[verifier::external_body]
fn string_push(s: &mut String, c: char)
    ensures
        final(s)@ == old(s)@.push(c),
{
    s.push(c);
}

/// The string made of the given characters.
pub fn string_of(v: &Vec<char>) -> (s: String)
    ensures
        s@ == v@,
{
    let mut s = String::new();
    for i in 0..v.len()
        invariant
            s@ == v@.take(i as int),
    {
        string_push(&mut s, v[i]);
        assert(v@.take(i + 1) =~= v@.take(i as int).push(v@[i as int]));
    }
    assert(v@.take(v@.len() as int) =~= v@);
    s
}

/// Appends the characters of `s` to `out`.
pub fn push_str(out: &mut Vec<char>, s: &str)
    ensures
        final(out)@ == old(out)@ + s@,
{
    let ghost start = out@;
    for c in it: s.chars()
        invariant
            out@ == start + it.seq().take(it.index() as int),
            it.seq() == s@,
    {
        out.push(c);
        assert(start + it.seq().take(it.index() + 1) =~= start + it.seq().take(
            it.index() as int,
        ).push(c));
    }
    assert(out@ =~= start + s@);
}

/// Appends the characters of `v` to `out`.
pub fn push_chars(out: &mut Vec<char>, v: &Vec<char>)
    ensures
        final(out)@ == old(out)@ + v@,
{
    let ghost start = out@;
    for i in 0..v.len()
        invariant
            out@ == start + v@.take(i as int),
    {
        out.push(v[i]);
        assert(start + v@.take(i + 1) =~= start + v@.take(i as int).push(v@[i as int]));
    }
    assert(v@.take(v@.len() as int) =~= v@);
}

/// A copy of `v[lo..hi]`.
pub fn copy_range(v: &Vec<char>, lo: usize, hi: usize) -> (r: Vec<char>)
    requires
        lo <= hi <= v@.len(),
    ensures
        r@ == v@.subrange(lo as int, hi as int),
{
    let mut r: Vec<char> = Vec::new();
    let mut i: usize = lo;
    while i < hi
        invariant
            lo <= i <= hi <= v@.len(),
            r@ == v@.subrange(lo as int, i as int),
        decreases hi - i,
    {
        r.push(v[i]);
        assert(v@.subrange(lo as int, i + 1) =~= v@.subrange(lo as int, i as int).push(
            v@[i as int],
        ));
        i = i + 1;
    }
    r
}

/// Whether `w` occurs in `s` at position `i`.
pub open spec fn occurs_at(s: Seq<char>, i: int, w: Seq<char>) -> bool {
    0 <= i && i + w.len() <= s.len() && s.subrange(i, i + w.len()) == w
}

pub open spec fn starts_with(s: Seq<char>, w: Seq<char>) -> bool {
    occurs_at(s, 0, w)
}

pub fn occurs_at_exec(s: &Vec<char>, i: usize, w: &Vec<char>) -> (b: bool)
    ensures
        b == occurs_at(s@, i as int, w@),
{
    if i > s.len() || w.len() > s.len() - i {
        return false;
    }
    let mut k: usize = 0;
    while k < w.len()
        invariant
            i + w@.len() <= s@.len(),
            i + w.len() <= s.len(),
            k <= w@.len(),
            forall|j: int| 0 <= j < k ==> s@[i + j] == w@[j],
        decreases w.len() - k,
    {
        if s[i + k] != w[k] {
            assert(s@.subrange(i as int, i + w@.len())[k as int] != w@[k as int]);
            return false;
        }
        k = k + 1;
    }
    assert(s@.subrange(i as int, i + w@.len()) =~= w@);
    true
}

/// Whether `w` occurs in `s` at position `i`, for a literal `w`.
pub fn occurs_lit(s: &Vec<char>, i: usize, w: &str) -> (b: bool)
    ensures
        b == occurs_at(s@, i as int, w@),
{
    let wv = chars_of(w);
    occurs_at_exec(s, i, &wv)
}

/// Whether two character sequences are equal.
pub fn chars_eq(a: &Vec<char>, b: &Vec<char>) -> (r: bool)
    ensures
        r == (a@ == b@),
{
    if a.len() != b.len() {
        return false;
    }
    let r = occurs_at_exec(a, 0, b);
    proof {
        if r {
            assert(a@.subrange(0, b@.len() as int) =~= a@);
        } else {
            assert(a@ != b@ ==> true);
            if a@ == b@ {
                assert(a@.subrange(0, b@.len() as int) =~= a@);
            }
        }
    }
    r
}

// ---------------------------------------------------------------------
// Whitespace scanning and trimming
// ---------------------------------------------------------------------
/// Where a scan stops: at the first character of the given class.
pub enum Stop {
    Ws,
    NonWs,
    NonDigit,
    NonDecimal,
    NonAliasChar,
    Quote,
    Char(char),
}

pub open spec fn is_alias_char(c: char) -> bool {
    ('A' <= c && c <= 'Z') || ('a' <= c && c <= 'z') || ('0' <= c && c <= '9') || c == '.'
        || c == '_' || c == '-'
}

pub open spec fn stops(c: char, k: Stop) -> bool {
    match k {
        Stop::Ws => is_ws(c),
        Stop::NonWs => !is_ws(c),
        Stop::NonDigit => !('0' <= c && c <= '9'),
        Stop::NonDecimal => !(('0' <= c && c <= '9') || c == '.'),
        Stop::NonAliasChar => !is_alias_char(c),
        Stop::Quote => c == '"' || c == '\'',
        Stop::Char(x) => c == x,
    }
}

/// The first index at or after `i` whose character stops the scan, or the
/// length when there is none.
pub open spec fn scan(s: Seq<char>, i: int, k: Stop) -> int
    decreases s.len() - i,
{
    if 0 <= i < s.len() && !stops(s[i], k) {
        scan(s, i + 1, k)
    } else {
        i
    }
}

pub proof fn lemma_scan(s: Seq<char>, i: int, k: Stop)
    requires
        0 <= i <= s.len(),
    ensures
        i <= scan(s, i, k) <= s.len(),
        forall|j: int| i <= j < scan(s, i, k) ==> !stops(#[trigger] s[j], k),
        scan(s, i, k) == s.len() || stops(s[scan(s, i, k)], k),
    decreases s.len() - i,
{
    if i < s.len() && !stops(s[i], k) {
        lemma_scan(s, i + 1, k);
    }
}

/// A scan that stops at the first index past the run is the same scan from
/// any point inside the run.
pub proof fn lemma_scan_from_inside(s: Seq<char>, i: int, j: int, k: Stop)
    requires
        0 <= i <= j <= scan(s, i, k),
        i <= s.len(),
    ensures
        scan(s, j, k) == scan(s, i, k),
    decreases j - i,
{
    lemma_scan(s, i, k);
    if i < j {
        lemma_scan_from_inside(s, i + 1, j, k);
    }
}

pub fn stops_exec(c: char, k: &Stop) -> (b: bool)
    ensures
        b == stops(c, *k),
{
    match k {
        Stop::Ws => is_whitespace(c),
        Stop::NonWs => !is_whitespace(c),
        Stop::NonDigit => !('0' <= c && c <= '9'),
        Stop::NonDecimal => !(('0' <= c && c <= '9') || c == '.'),
        Stop::NonAliasChar => !(('A' <= c && c <= 'Z') || ('a' <= c && c <= 'z') || ('0' <= c
            && c <= '9') || c == '.' || c == '_' || c == '-'),
        Stop::Quote => c == '"' || c == '\'',
        Stop::Char(x) => c == *x,
    }
}

pub fn scan_exec(s: &Vec<char>, i: usize, k: &Stop) -> (r: usize)
    requires
        i <= s@.len(),
    ensures
        r == scan(s@, i as int, *k),
        i <= r <= s@.len(),
{
    proof {
        lemma_scan(s@, i as int, *k);
    }
    let mut j: usize = i;
    while j < s.len() && !stops_exec(s[j], k)
        invariant
            i <= j <= s@.len(),
            scan(s@, j as int, *k) == scan(s@, i as int, *k),
        decreases s.len() - j,
    {
        j = j + 1;
    }
    j
}

/// The first index at or after `i` that does not hold whitespace (or the
/// length when there is none).
pub open spec fn skip_ws(s: Seq<char>, i: int) -> int {
    scan(s, i, Stop::NonWs)
}

/// The end of `s[lo..j]` once its trailing whitespace is dropped.
pub open spec fn trim_end_at(s: Seq<char>, lo: int, j: int) -> int
    decreases j - lo,
{
    if lo < j <= s.len() && is_ws(s[j - 1]) {
        trim_end_at(s, lo, j - 1)
    } else {
        j
    }
}

/// `str::trim`: the sequence without its leading and trailing whitespace.
pub open spec fn trim(s: Seq<char>) -> Seq<char> {
    let lo = skip_ws(s, 0);
    s.subrange(lo, trim_end_at(s, lo, s.len() as int))
}

pub proof fn lemma_skip_ws(s: Seq<char>, i: int)
    requires
        0 <= i <= s.len(),
    ensures
        i <= skip_ws(s, i) <= s.len(),
        forall|k: int| i <= k < skip_ws(s, i) ==> is_ws(#[trigger] s[k]),
        skip_ws(s, i) == s.len() || !is_ws(s[skip_ws(s, i)]),
{
    lemma_scan(s, i, Stop::NonWs);
}

pub proof fn lemma_trim_end_at(s: Seq<char>, lo: int, j: int)
    requires
        0 <= lo <= j <= s.len(),
    ensures
        lo <= trim_end_at(s, lo, j) <= j,
        forall|k: int| trim_end_at(s, lo, j) <= k < j ==> is_ws(#[trigger] s[k]),
        trim_end_at(s, lo, j) == lo || !is_ws(s[trim_end_at(s, lo, j) - 1]),
    decreases j - lo,
{
    if lo < j && is_ws(s[j - 1]) {
        lemma_trim_end_at(s, lo, j - 1);
    }
}

pub fn skip_ws_exec(s: &Vec<char>, i: usize) -> (r: usize)
    requires
        i <= s@.len(),
    ensures
        r == skip_ws(s@, i as int),
        i <= r <= s@.len(),
{
    scan_exec(s, i, &Stop::NonWs)
}

pub fn trim_end_exec(s: &Vec<char>, lo: usize, j: usize) -> (r: usize)
    requires
        lo <= j <= s@.len(),
    ensures
        r == trim_end_at(s@, lo as int, j as int),
{
    let mut k: usize = j;
    while k > lo && is_whitespace(s[k - 1])
        invariant
            lo <= k <= j <= s@.len(),
            trim_end_at(s@, lo as int, k as int) == trim_end_at(s@, lo as int, j as int),
        decreases k - lo,
    {
        k = k - 1;
    }
    k
}

/// The bounds `(a, b)` with `s[a..b] == trim(s)`.
pub fn trim_bounds(s: &Vec<char>) -> (r: (usize, usize))
    ensures
        r.0 == skip_ws(s@, 0),
        r.1 == trim_end_at(s@, r.0 as int, s@.len() as int),
        r.0 <= r.1 <= s@.len(),
        s@.subrange(r.0 as int, r.1 as int) == trim(s@),
{
    let a = skip_ws_exec(s, 0);
    proof {
        lemma_skip_ws(s@, 0);
    }
    let b = trim_end_exec(s, a, s.len());
    proof {
        lemma_trim_end_at(s@, a as int, s@.len() as int);
    }
    (a, b)
}

pub fn trimmed(s: &Vec<char>) -> (t: Vec<char>)
    ensures
        t@ == trim(s@),
{
    let (a, b) = trim_bounds(s);
    copy_range(s, a, b)
}

// ---------------------------------------------------------------------
// Lines
// ---------------------------------------------------------------------
/// The first index at or after `i` that holds a newline (or the length).
pub open spec fn next_nl(s: Seq<char>, i: int) -> int {
    scan(s, i, Stop::Char('\n'))
}

pub proof fn lemma_next_nl(s: Seq<char>, i: int)
    requires
        0 <= i <= s.len(),
    ensures
        i <= next_nl(s, i) <= s.len(),
        forall|k: int| i <= k < next_nl(s, i) ==> #[trigger] s[k] != '\n',
        next_nl(s, i) == s.len() || s[next_nl(s, i)] == '\n',
{
    lemma_scan(s, i, Stop::Char('\n'));
}

/// A line without the carriage return that ends it, if any.
pub open spec fn strip_cr(l: Seq<char>) -> Seq<char> {
    if l.len() > 0 && l.last() == '\r' {
        l.drop_last()
    } else {
        l
    }
}

/// The lines of `s[i..]`, as `str::lines` yields them: split at each `\n`,
/// a `\r` before the `\n` dropped, and no empty last line after a final
/// newline.
pub open spec fn lines_from(s: Seq<char>, i: int) -> Seq<Seq<char>>
    decreases s.len() - i,
{
    if 0 <= i < s.len() {
        let k = next_nl(s, i);
        proof {
            lemma_next_nl(s, i);
        }
        if k < s.len() {
            seq![strip_cr(s.subrange(i, k))] + lines_from(s, k + 1)
        } else {
            seq![s.subrange(i, s.len() as int)]
        }
    } else {
        seq![]
    }
}

/// `str::lines`.
pub open spec fn lines(s: Seq<char>) -> Seq<Seq<char>> {
    lines_from(s, 0)
}

/// The character sequences held by a vector of character vectors.
pub open spec fn views(v: Seq<Vec<char>>) -> Seq<Seq<char>> {
    v.map_values(|l: Vec<char>| l@)
}

pub fn next_nl_exec(s: &Vec<char>, i: usize) -> (r: usize)
    requires
        i <= s@.len(),
    ensures
        r == next_nl(s@, i as int),
{
    scan_exec(s, i, &Stop::Char('\n'))
}

/// The total length of a list of lines.
pub open spec fn sum_lens(ls: Seq<Seq<char>>) -> int
    decreases ls.len(),
{
    if ls.len() == 0 {
        0
    } else {
        sum_lens(ls.drop_last()) + ls.last().len()
    }
}

pub proof fn lemma_sum_lens_push(ls: Seq<Seq<char>>, l: Seq<char>)
    ensures
        sum_lens(ls.push(l)) == sum_lens(ls) + l.len(),
{
    assert(ls.push(l).drop_last() =~= ls);
}

pub proof fn lemma_sum_lens_concat(a: Seq<Seq<char>>, b: Seq<Seq<char>>)
    ensures
        sum_lens(a + b) == sum_lens(a) + sum_lens(b),
    decreases b.len(),
{
    if b.len() == 0 {
        assert(a + b =~= a);
    } else {
        lemma_sum_lens_concat(a, b.drop_last());
        assert((a + b).drop_last() =~= a + b.drop_last());
    }
}

pub proof fn lemma_sum_lens_nonneg(ls: Seq<Seq<char>>)
    ensures
        sum_lens(ls) >= 0,
    decreases ls.len(),
{
    if ls.len() > 0 {
        lemma_sum_lens_nonneg(ls.drop_last());
    }
}

/// The lines of `s[i..]` hold at most its characters.
pub proof fn lemma_lines_from_len(s: Seq<char>, i: int)
    requires
        0 <= i <= s.len(),
    ensures
        sum_lens(lines_from(s, i)) <= s.len() - i,
    decreases s.len() - i,
{
    if i < s.len() {
        let k = next_nl(s, i);
        lemma_next_nl(s, i);
        if k < s.len() {
            let l = strip_cr(s.subrange(i, k));
            lemma_lines_from_len(s, k + 1);
            lemma_sum_lens_concat(seq![l], lines_from(s, k + 1));
            assert(seq![l].drop_last() =~= Seq::<Seq<char>>::empty());
            assert(sum_lens(Seq::<Seq<char>>::empty()) == 0);
            assert(sum_lens(seq![l]) == l.len());
            assert(l.len() <= k - i);
            assert(lines_from(s, i) == seq![l] + lines_from(s, k + 1));
        } else {
            let l = s.subrange(i, s.len() as int);
            assert(seq![l].drop_last() =~= Seq::<Seq<char>>::empty());
            assert(sum_lens(Seq::<Seq<char>>::empty()) == 0);
            assert(sum_lens(seq![l]) == l.len());
            assert(lines_from(s, i) == seq![l]);
        }
    }
}

/// The lines of `s`, as `str::lines` yields them.
pub fn lines_of(s: &Vec<char>) -> (ls: Vec<Vec<char>>)
    ensures
        views(ls@) == lines(s@),
{
    let mut ls: Vec<Vec<char>> = Vec::new();
    let mut pos: usize = 0;
    while pos < s.len()
        invariant
            pos <= s@.len(),
            lines(s@) == views(ls@) + lines_from(s@, pos as int),
        decreases s.len() - pos,
    {
        let k = next_nl_exec(s, pos);
        proof {
            lemma_next_nl(s@, pos as int);
        }
        let ghost old_ls = ls@;
        if k < s.len() {
            let end = if k > pos && s[k - 1] == '\r' {
                k - 1
            } else {
                k
            };
            let line = copy_range(s, pos, end);
            assert(line@ == strip_cr(s@.subrange(pos as int, k as int))) by {
                if k > pos && s@[k - 1] == '\r' {
                    assert(s@.subrange(pos as int, k as int).drop_last() =~= s@.subrange(
                        pos as int,
                        k - 1,
                    ));
                }
            }
            ls.push(line);
            assert(views(ls@) =~= views(old_ls).push(line@));
            assert(lines_from(s@, pos as int) == seq![line@] + lines_from(s@, k + 1));
            assert(lines(s@) =~= views(ls@) + lines_from(s@, k + 1));
            pos = k + 1;
        } else {
            let line = copy_range(s, pos, s.len());
            ls.push(line);
            assert(views(ls@) =~= views(old_ls).push(line@));
            assert(lines_from(s@, pos as int) == seq![line@]);
            assert(lines_from(s@, s@.len() as int) == Seq::<Seq<char>>::empty());
            assert(lines(s@) =~= views(ls@) + lines_from(s@, s@.len() as int));
            pos = s.len();
        }
    }
    assert(lines_from(s@, pos as int) == Seq::<Seq<char>>::empty());
    assert(lines(s@) =~= views(ls@));
    ls
}

// ---------------------------------------------------------------------
// Numbers
// ---------------------------------------------------------------------
pub open spec fn is_digit(c: char) -> bool {
    '0' <= c && c <= '9'
}

pub open spec fn digit_val(c: char) -> int {
    c as int - '0' as int
}

pub open spec fn all_digits(s: Seq<char>) -> bool {
    forall|i: int| 0 <= i < s.len() ==> is_digit(#[trigger] s[i])
}

/// The value of a sequence of decimal digits.
pub open spec fn digits_value(s: Seq<char>) -> int
    decreases s.len(),
{
    if s.len() == 0 {
        0
    } else {
        digits_value(s.drop_last()) * 10 + digit_val(s.last())
    }
}

/// What `u32::from_str` yields on a non-empty run of ASCII digits: its value
/// when it fits in a `u32`.
pub open spec fn digits_u32(s: Seq<char>) -> Option<u32> {
    if s.len() > 0 && all_digits(s) && digits_value(s) <= u32::MAX {
        Some(digits_value(s) as u32)
    } else {
        None
    }
}

/// `i32::from_str`: an optional sign and at least one ASCII digit, with a
/// value in range.
pub open spec fn parse_i32(s: Seq<char>) -> Option<i32> {
    let signed = s.len() > 0 && (s[0] == '-' || s[0] == '+');
    let d = if signed {
        s.drop_first()
    } else {
        s
    };
    let v = if signed && s[0] == '-' {
        -digits_value(d)
    } else {
        digits_value(d)
    };
    if d.len() > 0 && all_digits(d) && i32::MIN <= v <= i32::MAX {
        Some(v as i32)
    } else {
        None
    }
}

pub proof fn lemma_digits_value_nonneg(s: Seq<char>)
    requires
        all_digits(s),
    ensures
        digits_value(s) >= 0,
    decreases s.len(),
{
    if s.len() > 0 {
        lemma_digits_value_nonneg(s.drop_last());
    }
}

pub proof fn lemma_digits_value_prefix(s: Seq<char>, k: int)
    requires
        all_digits(s),
        0 <= k <= s.len(),
    ensures
        0 <= digits_value(s.take(k)) <= digits_value(s),
    decreases s.len() - k,
{
    if k == s.len() {
        assert(s.take(k) =~= s);
        lemma_digits_value_nonneg(s);
    } else {
        lemma_digits_value_prefix(s, k + 1);
        assert(s.take(k + 1).drop_last() =~= s.take(k));
        lemma_digits_value_nonneg(s.take(k));
    }
}

/// The value of the digits `s[lo..hi]` when they are all digits and the
/// value is at most `cap`.
pub fn digits_capped(s: &Vec<char>, lo: usize, hi: usize, cap: u64) -> (r: Option<u64>)
    requires
        lo <= hi <= s@.len(),
    ensures
        match r {
            Some(v) => all_digits(s@.subrange(lo as int, hi as int)) && v == digits_value(
                s@.subrange(lo as int, hi as int),
            ) && v <= cap,
            None => !all_digits(s@.subrange(lo as int, hi as int)) || digits_value(
                s@.subrange(lo as int, hi as int),
            ) > cap,
        },
{
    let ghost whole = s@.subrange(lo as int, hi as int);
    let mut acc: u64 = 0;
    let mut i: usize = lo;
    while i < hi
        invariant
            lo <= i <= hi <= s@.len(),
            whole == s@.subrange(lo as int, hi as int),
            all_digits(s@.subrange(lo as int, i as int)),
            acc == digits_value(s@.subrange(lo as int, i as int)),
            acc <= cap,
        decreases hi - i,
    {
        let c = s[i];
        assert(whole.take(i - lo + 1) =~= s@.subrange(lo as int, i + 1));
        assert(s@.subrange(lo as int, i + 1).drop_last() =~= s@.subrange(lo as int, i as int));
        if !('0' <= c && c <= '9') {
            assert(!is_digit(whole[i - lo]));
            return None;
        }
        let d = (c as u32 - '0' as u32) as u64;
        let nv: u128 = acc as u128 * 10 + d as u128;
        if nv > cap as u128 {
            proof {
                if all_digits(whole) {
                    lemma_digits_value_prefix(whole, i - lo + 1);
                }
            }
            return None;
        }
        acc = nv as u64;
        i = i + 1;
    }
    Some(acc)
}

pub fn digits_u32_exec(s: &Vec<char>) -> (r: Option<u32>)
    ensures
        r == digits_u32(s@),
{
    if s.len() == 0 {
        return None;
    }
    let r = digits_capped(s, 0, s.len(), 0xffff_ffff);
    assert(s@.subrange(0, s@.len() as int) =~= s@);
    match r {
        Some(v) => Some(v as u32),
        None => None,
    }
}

pub fn parse_i32_exec(s: &Vec<char>) -> (r: Option<i32>)
    ensures
        r == parse_i32(s@),
{
    let signed = s.len() > 0 && (s[0] == '-' || s[0] == '+');
    let neg = signed && s[0] == '-';
    let lo: usize = if signed {
        1
    } else {
        0
    };
    assert(s@.subrange(lo as int, s@.len() as int) =~= (if signed {
        s@.drop_first()
    } else {
        s@
    }));
    if lo == s.len() {
        return None;
    }
    let cap: u64 = if neg {
        0x8000_0000
    } else {
        0x7fff_ffff
    };
    match digits_capped(s, lo, s.len(), cap) {
        Some(v) => {
            if neg {
                Some((0 - (v as i64)) as i32)
            } else {
                Some(v as i32)
            }
        },
        None => None,
    }
}

/// Index of the first `.` at or after `i`, or the length.
pub open spec fn next_dot(s: Seq<char>, i: int) -> int {
    scan(s, i, Stop::Char('.'))
}

pub proof fn lemma_next_dot(s: Seq<char>, i: int)
    requires
        0 <= i <= s.len(),
    ensures
        i <= next_dot(s, i) <= s.len(),
        forall|k: int| i <= k < next_dot(s, i) ==> #[trigger] s[k] != '.',
        next_dot(s, i) == s.len() || s[next_dot(s, i)] == '.',
{
    lemma_scan(s, i, Stop::Char('.'));
}

/// Thousandths contributed by the digits after the decimal point, rounded
/// half up.
pub open spec fn frac_milli(f: Seq<char>) -> int {
    let head = if f.len() >= 3 {
        digits_value(f.take(3))
    } else if f.len() == 2 {
        digits_value(f) * 10
    } else if f.len() == 1 {
        digits_value(f) * 100
    } else {
        0
    };
    head + if f.len() > 3 && f[3] >= '5' {
        1int
    } else {
        0int
    }
}

/// A decimal number written with the characters `[0-9.]`, as `f64::from_str`
/// accepts it (at most one point, at least one digit), in thousandths rounded
/// half up; `None` when the text is not such a number or the value does not
/// fit in an `i64`.
pub open spec fn decimal_milli(s: Seq<char>) -> Option<i64> {
    let p = next_dot(s, 0);
    let ip = s.take(p);
    let fp = if p < s.len() {
        s.skip(p + 1)
    } else {
        Seq::<char>::empty()
    };
    let v = digits_value(ip) * 1000 + frac_milli(fp);
    if all_digits(ip) && all_digits(fp) && ip.len() + fp.len() > 0 && v <= i64::MAX {
        Some(v as i64)
    } else {
        None
    }
}

pub fn next_dot_exec(s: &Vec<char>) -> (r: usize)
    ensures
        r == next_dot(s@, 0),
{
    scan_exec(s, 0, &Stop::Char('.'))
}

/// Whether `s[lo..hi]` holds only ASCII digits.
pub fn all_digits_exec(s: &Vec<char>, lo: usize, hi: usize) -> (b: bool)
    requires
        lo <= hi <= s@.len(),
    ensures
        b == all_digits(s@.subrange(lo as int, hi as int)),
{
    let mut k: usize = lo;
    while k < hi
        invariant
            lo <= k <= hi <= s@.len(),
            all_digits(s@.subrange(lo as int, k as int)),
        decreases hi - k,
    {
        if !('0' <= s[k] && s[k] <= '9') {
            assert(!is_digit(s@.subrange(lo as int, hi as int)[k - lo]));
            return false;
        }
        assert(forall|j: int|
            0 <= j < k - lo ==> s@.subrange(lo as int, k + 1)[j] == s@.subrange(
                lo as int,
                k as int,
            )[j]);
        k = k + 1;
    }
    true
}

pub fn decimal_milli_exec(s: &Vec<char>) -> (r: Option<i64>)
    ensures
        r == decimal_milli(s@),
{
    let p = next_dot_exec(s);
    proof {
        lemma_next_dot(s@, 0);
    }
    let ghost ip = s@.take(p as int);
    let ghost fp = if p < s@.len() {
        s@.skip(p + 1)
    } else {
        Seq::<char>::empty()
    };
    let flo: usize = if p < s.len() {
        p + 1
    } else {
        s.len()
    };
    let n = s.len() - flo;
    assert(fp =~= s@.subrange(flo as int, s@.len() as int));
    assert(ip =~= s@.subrange(0, p as int));
    if p + n == 0 {
        return None;
    }
    if !all_digits_exec(s, flo, s.len()) {
        return None;
    }
    let head: u64 = if n >= 3 {
        match digits_capped(s, flo, flo + 3, 999) {
            Some(v) => v,
            None => 0,
        }
    } else if n == 2 {
        match digits_capped(s, flo, flo + 2, 99) {
            Some(v) => v * 10,
            None => 0,
        }
    } else if n == 1 {
        match digits_capped(s, flo, flo + 1, 9) {
            Some(v) => v * 100,
            None => 0,
        }
    } else {
        0
    };
    proof {
        if n >= 3 {
            assert(fp.take(3) =~= s@.subrange(flo as int, flo + 3));
            lemma_digits_value_prefix(fp, 3);
            lemma_digits_value_bound(fp.take(3));
        } else if n == 2 {
            assert(fp =~= s@.subrange(flo as int, flo + 2));
            lemma_digits_value_bound(fp);
        } else if n == 1 {
            assert(fp =~= s@.subrange(flo as int, flo + 1));
            lemma_digits_value_bound(fp);
        }
    }
    let round: u64 = if n > 3 && s[flo + 3] >= '5' {
        1
    } else {
        0
    };
    assert(frac_milli(fp) == head + round);
    match digits_capped(s, 0, p, 9_223_372_036_854_775) {
        None => {
            None
        },
        Some(iv) => {
            let total: u128 = iv as u128 * 1000 + head as u128 + round as u128;
            if total > 0x7fff_ffff_ffff_ffff {
                None
            } else {
                Some(total as i64)
            }
        },
    }
}

/// The value of `k` digits is below `10^k`, for `k <= 3`.
pub proof fn lemma_digits_value_bound(s: Seq<char>)
    requires
        all_digits(s),
        s.len() <= 3,
    ensures
        0 <= digits_value(s),
        s.len() == 1 ==> digits_value(s) <= 9,
        s.len() == 2 ==> digits_value(s) <= 99,
        s.len() == 3 ==> digits_value(s) <= 999,
    decreases s.len(),
{
    if s.len() > 0 {
        lemma_digits_value_bound(s.drop_last());
    }
}

// ---------------------------------------------------------------------
// Formatting numbers
// ---------------------------------------------------------------------
/// The ASCII digit for `d` in `0..10`.
pub open spec fn digit_char(d: int) -> char {
    (('0' as int) + d) as char
}

/// The decimal representation of a natural number, as `Display` writes it.
pub open spec fn fmt_nat(n: nat) -> Seq<char>
    decreases n,
{
    if n < 10 {
        seq![digit_char(n as int)]
    } else {
        fmt_nat(n / 10).push(digit_char((n % 10) as int))
    }
}

/// The decimal representation of an integer, as `Display` writes it.
pub open spec fn fmt_int(i: int) -> Seq<char> {
    if i < 0 {
        seq!['-'] + fmt_nat((-i) as nat)
    } else {
        fmt_nat(i as nat)
    }
}

/// The one to three digits of `f` thousandths (`0 < f < 1000`), trailing
/// zeros dropped.
pub open spec fn frac_digits(f: int) -> Seq<char> {
    let d1 = f / 100;
    let d2 = (f / 10) % 10;
    let d3 = f % 10;
    if d3 != 0 {
        seq![digit_char(d1), digit_char(d2), digit_char(d3)]
    } else if d2 != 0 {
        seq![digit_char(d1), digit_char(d2)]
    } else {
        seq![digit_char(d1)]
    }
}

/// A number given in thousandths, written with three decimals and then
/// stripped of trailing zeros and of a trailing point: the text that
/// `format!("{:.3}")` followed by `trim_end_matches('0')` and
/// `trim_end_matches('.')` gives for that number.
pub open spec fn fmt_milli(m: int) -> Seq<char> {
    let a = if m < 0 {
        -m
    } else {
        m
    };
    let sign = if m < 0 {
        seq!['-']
    } else {
        Seq::<char>::empty()
    };
    if a % 1000 == 0 {
        sign + fmt_nat((a / 1000) as nat)
    } else {
        sign + fmt_nat((a / 1000) as nat) + seq!['.'] + frac_digits(a % 1000)
    }
}

pub fn digit_char_exec(d: u64) -> (c: char)
    requires
        d < 10,
    ensures
        c == digit_char(d as int),
{
    ((d as u8) + 48u8) as char
}

/// Appends the decimal representation of `n`.
pub fn push_nat(out: &mut Vec<char>, n: u64)
    ensures
        final(out)@ == old(out)@ + fmt_nat(n as nat),
    decreases n,
{
    if n < 10 {
        let ghost before = out@;
        out.push(digit_char_exec(n));
        assert(out@ =~= before + fmt_nat(n as nat));
    } else {
        let ghost before = out@;
        push_nat(out, n / 10);
        out.push(digit_char_exec(n % 10));
        assert(out@ =~= before + fmt_nat(n as nat));
    }
}

/// Appends the decimal representation of `n`.
pub fn push_nat128(out: &mut Vec<char>, n: u128)
    ensures
        final(out)@ == old(out)@ + fmt_nat(n as nat),
    decreases n,
{
    let ghost before = out@;
    if n < 10 {
        out.push(digit_char_exec(n as u64));
        assert(out@ =~= before + fmt_nat(n as nat));
    } else {
        push_nat128(out, n / 10);
        out.push(digit_char_exec((n % 10) as u64));
        assert(out@ =~= before + fmt_nat(n as nat));
    }
}

/// Appends the decimal representation of `i`.
pub fn push_int(out: &mut Vec<char>, i: i64)
    ensures
        final(out)@ == old(out)@ + fmt_int(i as int),
{
    let ghost before = out@;
    if i < 0 {
        out.push('-');
        let a: u64 = (0 - (i as i128)) as u64;
        push_nat(out, a);
        assert(out@ =~= before + fmt_int(i as int));
    } else {
        push_nat(out, i as u64);
    }
}

/// Appends the one to three digits of `f` thousandths, trailing zeros
/// dropped.
fn push_frac_digits(out: &mut Vec<char>, f: u64)
    requires
        0 < f < 1000,
    ensures
        final(out)@ == old(out)@ + frac_digits(f as int),
{
    let ghost before = out@;
    let d1 = f / 100;
    let d2 = (f / 10) % 10;
    let d3 = f % 10;
    out.push(digit_char_exec(d1));
    if d3 != 0 {
        out.push(digit_char_exec(d2));
        out.push(digit_char_exec(d3));
    } else if d2 != 0 {
        out.push(digit_char_exec(d2));
    }
    assert(out@ =~= before + frac_digits(f as int));
}

/// Appends a number given in thousandths, written as `fmt_milli` says.
pub fn push_milli(out: &mut Vec<char>, m: i64)
    ensures
        final(out)@ == old(out)@ + fmt_milli(m as int),
{
    let ghost before = out@;
    let a: u64 = if m < 0 {
        out.push('-');
        (0 - (m as i128)) as u64
    } else {
        m as u64
    };
    let ghost signed = out@;
    push_nat(out, a / 1000);
    if a % 1000 != 0 {
        out.push('.');
        push_frac_digits(out, a % 1000);
    }
    assert(out@ =~= before + fmt_milli(m as int));
}

/// Appends a non-negative number given in thousandths, written as
/// `fmt_milli` says.
pub fn push_milli128(out: &mut Vec<char>, m: u128)
    ensures
        final(out)@ == old(out)@ + fmt_milli(m as int),
{
    let ghost before = out@;
    push_nat128(out, m / 1000);
    if m % 1000 != 0 {
        out.push('.');
        push_frac_digits(out, (m % 1000) as u64);
    }
    assert(out@ =~= before + fmt_milli(m as int));
}

// ---------------------------------------------------------------------
// Byte offsets in UTF-8
// ---------------------------------------------------------------------
/// The number of bytes of the UTF-8 encoding of the first `i` characters of
/// `s`: the byte offset of character `i`.
pub open spec fn byte_offset(s: Seq<char>, i: int) -> int {
    vstd::utf8::encode_utf8(s.take(i)).len() as int
}

/// The number of bytes that UTF-8 takes for `c`.
pub open spec fn char_width(c: char) -> int {
    if (c as u32) <= 0x7F {
        1
    } else if (c as u32) <= 0x7FF {
        2
    } else if (c as u32) <= 0xFFFF {
        3
    } else {
        4
    }
}

proof fn lemma_encode_concat(a: Seq<char>, b: Seq<char>)
    ensures
        vstd::utf8::encode_utf8(a + b) == vstd::utf8::encode_utf8(a) + vstd::utf8::encode_utf8(b),
    decreases a.len(),
{
    if a.len() == 0 {
        assert(a + b =~= b);
        assert(vstd::utf8::encode_utf8(a) =~= Seq::<u8>::empty());
        assert(vstd::utf8::encode_utf8(a) + vstd::utf8::encode_utf8(b) =~= vstd::utf8::encode_utf8(b));
    } else {
        lemma_encode_concat(a.drop_first(), b);
        assert((a + b).drop_first() =~= a.drop_first() + b);
        assert((a + b)[0] == a[0]);
        assert(vstd::utf8::encode_utf8(a + b) =~= vstd::utf8::encode_utf8(a) + vstd::utf8::encode_utf8(b));
    }
}

proof fn lemma_encode_one(c: char)
    ensures
        vstd::utf8::encode_utf8(seq![c]).len() == char_width(c),
{
    assert(seq![c].drop_first() =~= Seq::<char>::empty());
    assert(vstd::utf8::encode_utf8(Seq::<char>::empty()) =~= Seq::<u8>::empty());
    assert(seq![c][0] == c);
}

/// Each character adds its width to the byte offset.
pub proof fn lemma_byte_offset_step(s: Seq<char>, i: int)
    requires
        0 <= i < s.len(),
    ensures
        byte_offset(s, i + 1) == byte_offset(s, i) + char_width(s[i]),
        1 <= char_width(s[i]) <= 4,
{
    assert(s.take(i + 1) =~= s.take(i) + seq![s[i]]);
    lemma_encode_concat(s.take(i), seq![s[i]]);
    lemma_encode_one(s[i]);
}

/// Byte offsets grow with the character index, by one to four bytes a
/// character.
pub proof fn lemma_byte_offset_mono(s: Seq<char>, i: int, j: int)
    requires
        0 <= i <= j <= s.len(),
    ensures
        byte_offset(s, i) + (j - i) <= byte_offset(s, j) <= byte_offset(s, i) + 4 * (j - i),
        byte_offset(s, 0) == 0,
    decreases j - i,
{
    assert(s.take(0) =~= Seq::<char>::empty());
    assert(vstd::utf8::encode_utf8(Seq::<char>::empty()) =~= Seq::<u8>::empty());
    if i < j {
        lemma_byte_offset_mono(s, i, j - 1);
        lemma_byte_offset_step(s, j - 1);
    }
}

/// The index of the first character from `i` on whose byte offset reaches
/// `b`; the length when none does.
pub open spec fn char_index_from(s: Seq<char>, b: int, i: int) -> int
    decreases s.len() - i,
{
    if i < 0 || i >= s.len() || byte_offset(s, i) >= b {
        i
    } else {
        char_index_from(s, b, i + 1)
    }
}

/// The index of the character at byte offset `b` (the first one at or past
/// it).
pub open spec fn char_index(s: Seq<char>, b: int) -> int {
    char_index_from(s, b, 0)
}

pub proof fn lemma_char_index_from(s: Seq<char>, b: int, c: int, i: int)
    requires
        0 <= i <= s.len(),
        b <= c,
    ensures
        i <= char_index_from(s, b, i) <= char_index_from(s, c, i) <= s.len(),
    decreases s.len() - i,
{
    if i < s.len() && byte_offset(s, i) < b {
        lemma_char_index_from(s, b, c, i + 1);
    } else if i < s.len() && byte_offset(s, i) < c {
        lemma_char_index_from(s, c, c, i + 1);
    }
}

/// Character indices and byte offsets convert back and forth, and the
/// conversion keeps the order.
pub proof fn lemma_char_index(s: Seq<char>, b: int, c: int)
    requires
        b <= c,
    ensures
        0 <= char_index(s, b) <= char_index(s, c) <= s.len(),
{
    lemma_char_index_from(s, b, c, 0);
}

pub proof fn lemma_char_index_of_offset(s: Seq<char>, j: int)
    requires
        0 <= j <= s.len(),
    ensures
        char_index(s, byte_offset(s, j)) == j,
{
    lemma_char_index_up_to(s, j, 0);
}

proof fn lemma_char_index_up_to(s: Seq<char>, j: int, i: int)
    requires
        0 <= i <= j <= s.len(),
    ensures
        char_index_from(s, byte_offset(s, j), i) == j,
    decreases j - i,
{
    if i < j {
        lemma_byte_offset_mono(s, i + 1, j);
        lemma_byte_offset_step(s, i);
        lemma_char_index_up_to(s, j, i + 1);
    }
}

/// The number of bytes UTF-8 takes for `c` (see `char_width`).
pub fn char_width_exec(c: char) -> (w: usize)
    ensures
        w == char_width(c),
{
    let v = c as u32;
    if v <= 0x7F {
        1
    } else if v <= 0x7FF {
        2
    } else if v <= 0xFFFF {
        3
    } else {
        4
    }
}

/// The byte offset of character `i` (see `byte_offset`).
pub fn byte_offset_exec(s: &Vec<char>, i: usize) -> (r: usize)
    requires
        i <= s@.len(),
        byte_offset(s@, s@.len() as int) <= usize::MAX,
    ensures
        r == byte_offset(s@, i as int),
{
    let mut acc: usize = 0;
    let mut k: usize = 0;
    proof {
        lemma_byte_offset_mono(s@, 0, 0);
    }
    while k < i
        invariant
            k <= i <= s@.len(),
            byte_offset(s@, s@.len() as int) <= usize::MAX,
            acc == byte_offset(s@, k as int),
        decreases i - k,
    {
        proof {
            lemma_byte_offset_step(s@, k as int);
            lemma_byte_offset_mono(s@, k + 1, s@.len() as int);
        }
        acc = acc + char_width_exec(s[k]);
        k = k + 1;
    }
    acc
}

/// The index of the character at byte offset `b` (see `char_index`).
pub fn char_index_exec(s: &Vec<char>, b: usize) -> (r: usize)
    requires
        byte_offset(s@, s@.len() as int) <= usize::MAX,
    ensures
        r == char_index(s@, b as int),
        r <= s@.len(),
{
    let mut acc: usize = 0;
    let mut k: usize = 0;
    proof {
        lemma_byte_offset_mono(s@, 0, 0);
        lemma_char_index_from(s@, b as int, b as int, 0);
    }
    while k < s.len() && acc < b
        invariant
            k <= s@.len(),
            byte_offset(s@, s@.len() as int) <= usize::MAX,
            acc == byte_offset(s@, k as int),
            char_index(s@, b as int) == char_index_from(s@, b as int, k as int),
        decreases s@.len() - k,
    {
        proof {
            lemma_byte_offset_step(s@, k as int);
            lemma_byte_offset_mono(s@, k + 1, s@.len() as int);
        }
        acc = acc + char_width_exec(s[k]);
        k = k + 1;
    }
    proof {
        lemma_char_index_from(s@, b as int, b as int, k as int);
    }
    k
}

} // verus!
