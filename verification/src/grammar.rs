//! The line grammar of kanshi configuration files: output declarations
//! (inline and block style), aliases, profile headers, mirror comments, mode
//! strings and positions. Each rule is a spec function over the characters
//! of a line that yields the spans it captures, with an executable matcher
//! proved to agree with it.

use vstd::prelude::*;

use crate::text::{self, Stop, is_ws, occurs_at, scan, skip_ws};

verus! {

/// A range `lo..hi` of character positions.
#[derive(Clone, Copy, Debug, PartialEq, Eq, Structural)]
pub struct Span {
    pub lo: usize,
    pub hi: usize,
}

pub open spec fn span(lo: int, hi: int) -> Span {
    Span { lo: lo as usize, hi: hi as usize }
}

/// The characters that a span covers.
pub open spec fn text_of(s: Seq<char>, sp: Span) -> Seq<char> {
    s.subrange(sp.lo as int, sp.hi as int)
}

/// An optional index, as a mathematical integer.
pub open spec fn oi(o: Option<usize>) -> Option<int> {
    match o {
        Some(e) => Some(e as int),
        None => None,
    }
}

// ---------------------------------------------------------------------
// Primitives
// ---------------------------------------------------------------------
/// One or more whitespace characters at `p`: the index after them (`\s+`).
pub open spec fn ws1(s: Seq<char>, p: int) -> Option<int> {
    if 0 <= p < s.len() && is_ws(s[p]) {
        Some(skip_ws(s, p))
    } else {
        None
    }
}

/// The word `w` at `p`: the index after it.
pub open spec fn kw(s: Seq<char>, p: int, w: Seq<char>) -> Option<int> {
    if occurs_at(s, p, w) {
        Some(p + w.len())
    } else {
        None
    }
}

/// A non-empty run at `p` of characters that do not stop `k`: its end.
pub open spec fn run1(s: Seq<char>, p: int, k: Stop) -> Option<int> {
    if 0 <= p <= s.len() && scan(s, p, k) > p {
        Some(scan(s, p, k))
    } else {
        None
    }
}

/// A token quoted with `q` at `p` (`q`, one or more other characters, `q`):
/// the index after the closing quote.
pub open spec fn quoted(s: Seq<char>, p: int, q: char) -> Option<int> {
    if 0 <= p < s.len() && s[p] == q {
        let e = scan(s, p + 1, Stop::Char(q));
        if e < s.len() && e >= p + 2 {
            Some(e + 1)
        } else {
            None
        }
    } else {
        None
    }
}

/// The single character `c` at `p`: the index after it.
pub open spec fn ch(s: Seq<char>, p: int, c: char) -> Option<int> {
    if 0 <= p < s.len() && s[p] == c {
        Some(p + 1)
    } else {
        None
    }
}

pub fn ws1_exec(s: &Vec<char>, p: usize) -> (r: Option<usize>)
    requires
        p <= s@.len(),
    ensures
        oi(r) == ws1(s@, p as int),
        r matches Some(e) ==> p < e <= s@.len(),
{
    if p < s.len() && text::is_whitespace(s[p]) {
        let e = text::skip_ws_exec(s, p);
        proof {
            text::lemma_scan(s@, p as int, Stop::NonWs);
            text::lemma_scan(s@, p + 1, Stop::NonWs);
        }
        Some(e)
    } else {
        None
    }
}

pub fn kw_exec(s: &Vec<char>, p: usize, w: &str) -> (r: Option<usize>)
    requires
        p <= s@.len(),
    ensures
        oi(r) == kw(s@, p as int, w@),
        r matches Some(e) ==> p <= e <= s@.len(),
{
    let wv = text::chars_of(w);
    let n = s.len();
    if text::occurs_at_exec(s, p, &wv) {
        assert(p + wv@.len() <= s@.len());
        Some(p + wv.len())
    } else {
        None
    }
}

pub fn run1_exec(s: &Vec<char>, p: usize, k: &Stop) -> (r: Option<usize>)
    requires
        p <= s@.len(),
    ensures
        oi(r) == run1(s@, p as int, *k),
        r matches Some(e) ==> p < e <= s@.len(),
{
    let e = text::scan_exec(s, p, k);
    if e > p {
        Some(e)
    } else {
        None
    }
}

pub fn quoted_exec(s: &Vec<char>, p: usize, q: char) -> (r: Option<usize>)
    requires
        p <= s@.len(),
    ensures
        oi(r) == quoted(s@, p as int, q),
        r matches Some(e) ==> p + 3 <= e <= s@.len(),
{
    if p < s.len() && s[p] == q {
        let e = text::scan_exec(s, p + 1, &Stop::Char(q));
        if e < s.len() && e >= p + 2 {
            Some(e + 1)
        } else {
            None
        }
    } else {
        None
    }
}

pub fn ch_exec(s: &Vec<char>, p: usize, c: char) -> (r: Option<usize>)
    requires
        p <= s@.len(),
    ensures
        oi(r) == ch(s@, p as int, c),
        r matches Some(e) ==> e == p + 1 <= s@.len(),
{
    if p < s.len() && s[p] == c {
        Some(p + 1)
    } else {
        None
    }
}

// ---------------------------------------------------------------------
// Inline output declarations:
//   output TOKEN (enable|disable) [mode WxH[@RATEHz]] [position X,Y] [scale S]
// ---------------------------------------------------------------------
/// The spans of a mode: width, height, optional refresh rate, and the index
/// after the mode.
#[derive(Clone, Copy, Debug)]
pub struct ModeSpan {
    pub width: Span,
    pub height: Span,
    pub refresh: Option<Span>,
    pub end: usize,
}

/// The captures of an inline output declaration.
#[derive(Clone, Copy, Debug)]
pub struct InlineMatch {
    pub token: Span,
    pub enabled: bool,
    pub mode: Option<ModeSpan>,
    pub position: Option<(Span, Span)>,
    pub scale: Option<Span>,
}

pub open spec fn span_ok(sp: Span, n: int) -> bool {
    sp.lo <= sp.hi <= n
}

/// The spans of an inline declaration lie within a line of length `n`.
pub open spec fn inline_spans_ok(m: InlineMatch, n: int) -> bool {
    &&& span_ok(m.token, n)
    &&& m.mode matches Some(ms) ==> span_ok(ms.width, n) && span_ok(ms.height, n) && (
    ms.refresh matches Some(r) ==> span_ok(r, n))
    &&& m.position matches Some((a, b)) ==> span_ok(a, n) && span_ok(b, n)
    &&& m.scale matches Some(sc) ==> span_ok(sc, n)
}

/// `@RATEHz` at `e`: the span of the rate and the index after `Hz`; no span
/// and `e` itself when the text there is not of that form.
pub open spec fn refresh_part(s: Seq<char>, e: int) -> (Option<Span>, int) {
    match ch(s, e, '@') {
        Some(a) => match run1(s, a, Stop::NonDecimal) {
            Some(f) => match kw(s, f, "Hz"@) {
                Some(g) => (Some(span(a, f)), g),
                None => (None, e),
            },
            None => (None, e),
        },
        None => (None, e),
    }
}

/// ` mode WIDTHxHEIGHT[@RATEHz]` at `p`.
pub open spec fn mode_group(s: Seq<char>, p: int) -> Option<ModeSpan> {
    match ws1(s, p) {
        None => None,
        Some(a) => match kw(s, a, "mode"@) {
            None => None,
            Some(b) => match ws1(s, b) {
                None => None,
                Some(c) => match run1(s, c, Stop::NonDigit) {
                    None => None,
                    Some(d) => match ch(s, d, 'x') {
                        None => None,
                        Some(e) => match run1(s, e, Stop::NonDigit) {
                            None => None,
                            Some(f) => Some(
                                ModeSpan {
                                    width: span(c, d),
                                    height: span(e, f),
                                    refresh: refresh_part(s, f).0,
                                    end: refresh_part(s, f).1 as usize,
                                },
                            ),
                        },
                    },
                },
            },
        },
    }
}

/// `-?` followed by one or more digits at `p`: the index after them.
pub open spec fn signed_digits(s: Seq<char>, p: int) -> Option<int> {
    match ch(s, p, '-') {
        Some(q) => run1(s, q, Stop::NonDigit),
        None => run1(s, p, Stop::NonDigit),
    }
}

/// ` position X,Y` at `p`: the spans of the coordinates and the index after.
pub open spec fn position_group(s: Seq<char>, p: int) -> Option<(Span, Span, int)> {
    match ws1(s, p) {
        None => None,
        Some(a) => match kw(s, a, "position"@) {
            None => None,
            Some(b) => match ws1(s, b) {
                None => None,
                Some(c) => match signed_digits(s, c) {
                    None => None,
                    Some(d) => match ch(s, d, ',') {
                        None => None,
                        Some(e) => match signed_digits(s, e) {
                            None => None,
                            Some(f) => Some((span(c, d), span(e, f), f)),
                        },
                    },
                },
            },
        },
    }
}

/// ` scale S` at `p`, `S` made of digits and points.
pub open spec fn scale_group(s: Seq<char>, p: int) -> Option<(Span, int)> {
    match ws1(s, p) {
        None => None,
        Some(a) => match kw(s, a, "scale"@) {
            None => None,
            Some(b) => match ws1(s, b) {
                None => None,
                Some(c) => match run1(s, c, Stop::NonDecimal) {
                    None => None,
                    Some(d) => Some((span(c, d), d)),
                },
            },
        },
    }
}

/// ` enable` or ` disable` at `p`.
pub open spec fn state_word(s: Seq<char>, p: int) -> Option<(bool, int)> {
    match ws1(s, p) {
        None => None,
        Some(a) => match kw(s, a, "enable"@) {
            Some(b) => Some((true, b)),
            None => match kw(s, a, "disable"@) {
                Some(b) => Some((false, b)),
                None => None,
            },
        },
    }
}

/// What follows the output token `s[t..e]` of an inline declaration: the
/// state, then the mode, position and scale groups, each optional, then only
/// whitespace.
pub open spec fn inline_tail(s: Seq<char>, t: int, e: int) -> Option<InlineMatch> {
    match state_word(s, e) {
        None => None,
        Some((enabled, b)) => {
            let m = mode_group(s, b);
            let c = match m {
                Some(ms) => ms.end as int,
                None => b,
            };
            let pg = position_group(s, c);
            let d = match pg {
                Some((_, _, f)) => f,
                None => c,
            };
            let sg = scale_group(s, d);
            let g = match sg {
                Some((_, f)) => f,
                None => d,
            };
            if skip_ws(s, g) == s.len() {
                Some(
                    InlineMatch {
                        token: span(t, e),
                        enabled,
                        mode: m,
                        position: match pg {
                            Some((x, y, _)) => Some((x, y)),
                            None => None,
                        },
                        scale: match sg {
                            Some((sc, _)) => Some(sc),
                            None => None,
                        },
                    },
                )
            } else {
                None
            }
        },
    }
}

/// `output` and whitespace at the start of a line: where the token starts.
pub open spec fn output_head(s: Seq<char>) -> Option<int> {
    match kw(s, skip_ws(s, 0), "output"@) {
        Some(b) => ws1(s, b),
        None => None,
    }
}

/// An inline output declaration. The token is tried as a single-quoted
/// string, then as a double-quoted one, then as a run of non-whitespace
/// characters; the first reading after which the rest of the line matches is
/// taken.
pub open spec fn inline_line(s: Seq<char>) -> Option<InlineMatch> {
    match output_head(s) {
        None => None,
        Some(t) => {
            let a1 = match quoted(s, t, '\'') {
                Some(e) => inline_tail(s, t, e),
                None => None,
            };
            let a2 = match quoted(s, t, '"') {
                Some(e) => inline_tail(s, t, e),
                None => None,
            };
            let a3 = match run1(s, t, Stop::Ws) {
                Some(e) => inline_tail(s, t, e),
                None => None,
            };
            if a1 is Some {
                a1
            } else if a2 is Some {
                a2
            } else {
                a3
            }
        },
    }
}

pub fn refresh_part_exec(s: &Vec<char>, e: usize) -> (r: (Option<Span>, usize))
    requires
        e <= s@.len(),
    ensures
        r.0 == refresh_part(s@, e as int).0,
        r.1 as int == refresh_part(s@, e as int).1,
        e <= r.1 <= s@.len(),
        r.0 matches Some(sp) ==> span_ok(sp, s@.len() as int),
{
    match ch_exec(s, e, '@') {
        Some(a) => match run1_exec(s, a, &Stop::NonDecimal) {
            Some(f) => match kw_exec(s, f, "Hz") {
                Some(g) => (Some(Span { lo: a, hi: f }), g),
                None => (None, e),
            },
            None => (None, e),
        },
        None => (None, e),
    }
}

pub fn mode_group_exec(s: &Vec<char>, p: usize) -> (r: Option<ModeSpan>)
    requires
        p <= s@.len(),
    ensures
        r == mode_group(s@, p as int),
        r matches Some(m) ==> p <= m.end <= s@.len() && span_ok(m.width, s@.len() as int)
            && span_ok(m.height, s@.len() as int) && (m.refresh matches Some(sp) ==> span_ok(
            sp,
            s@.len() as int,
        )),
{
    let a = match ws1_exec(s, p) {
        Some(a) => a,
        None => return None,
    };
    let b = match kw_exec(s, a, "mode") {
        Some(b) => b,
        None => return None,
    };
    let c = match ws1_exec(s, b) {
        Some(c) => c,
        None => return None,
    };
    let d = match run1_exec(s, c, &Stop::NonDigit) {
        Some(d) => d,
        None => return None,
    };
    let e = match ch_exec(s, d, 'x') {
        Some(e) => e,
        None => return None,
    };
    let f = match run1_exec(s, e, &Stop::NonDigit) {
        Some(f) => f,
        None => return None,
    };
    let (r, g) = refresh_part_exec(s, f);
    Some(ModeSpan { width: Span { lo: c, hi: d }, height: Span { lo: e, hi: f }, refresh: r, end: g })
}

pub fn signed_digits_exec(s: &Vec<char>, p: usize) -> (r: Option<usize>)
    requires
        p <= s@.len(),
    ensures
        oi(r) == signed_digits(s@, p as int),
        r matches Some(e) ==> p < e <= s@.len(),
{
    match ch_exec(s, p, '-') {
        Some(q) => run1_exec(s, q, &Stop::NonDigit),
        None => run1_exec(s, p, &Stop::NonDigit),
    }
}

pub fn position_group_exec(s: &Vec<char>, p: usize) -> (r: Option<(Span, Span, usize)>)
    requires
        p <= s@.len(),
    ensures
        r matches Some((x, y, f)) ==> position_group(s@, p as int) == Some((x, y, f as int)) && p
            <= f <= s@.len() && span_ok(x, s@.len() as int) && span_ok(y, s@.len() as int),
        r is None ==> position_group(s@, p as int) is None,
{
    let a = match ws1_exec(s, p) {
        Some(a) => a,
        None => return None,
    };
    let b = match kw_exec(s, a, "position") {
        Some(b) => b,
        None => return None,
    };
    let c = match ws1_exec(s, b) {
        Some(c) => c,
        None => return None,
    };
    let d = match signed_digits_exec(s, c) {
        Some(d) => d,
        None => return None,
    };
    let e = match ch_exec(s, d, ',') {
        Some(e) => e,
        None => return None,
    };
    let f = match signed_digits_exec(s, e) {
        Some(f) => f,
        None => return None,
    };
    Some((Span { lo: c, hi: d }, Span { lo: e, hi: f }, f))
}

pub fn scale_group_exec(s: &Vec<char>, p: usize) -> (r: Option<(Span, usize)>)
    requires
        p <= s@.len(),
    ensures
        r matches Some((x, f)) ==> scale_group(s@, p as int) == Some((x, f as int)) && p <= f
            <= s@.len() && span_ok(x, s@.len() as int),
        r is None ==> scale_group(s@, p as int) is None,
{
    let a = match ws1_exec(s, p) {
        Some(a) => a,
        None => return None,
    };
    let b = match kw_exec(s, a, "scale") {
        Some(b) => b,
        None => return None,
    };
    let c = match ws1_exec(s, b) {
        Some(c) => c,
        None => return None,
    };
    let d = match run1_exec(s, c, &Stop::NonDecimal) {
        Some(d) => d,
        None => return None,
    };
    Some((Span { lo: c, hi: d }, d))
}

pub fn state_word_exec(s: &Vec<char>, p: usize) -> (r: Option<(bool, usize)>)
    requires
        p <= s@.len(),
    ensures
        r matches Some((en, b)) ==> state_word(s@, p as int) == Some((en, b as int)) && p <= b
            <= s@.len(),
        r is None ==> state_word(s@, p as int) is None,
{
    let a = match ws1_exec(s, p) {
        Some(a) => a,
        None => return None,
    };
    match kw_exec(s, a, "enable") {
        Some(b) => Some((true, b)),
        None => match kw_exec(s, a, "disable") {
            Some(b) => Some((false, b)),
            None => None,
        },
    }
}

pub fn inline_tail_exec(s: &Vec<char>, t: usize, e: usize) -> (r: Option<InlineMatch>)
    requires
        t <= e <= s@.len(),
    ensures
        r == inline_tail(s@, t as int, e as int),
        r matches Some(m) ==> inline_spans_ok(m, s@.len() as int),
{
    let (enabled, b) = match state_word_exec(s, e) {
        Some(x) => x,
        None => return None,
    };
    let m = mode_group_exec(s, b);
    let c = match m {
        Some(ms) => ms.end,
        None => b,
    };
    let pg = position_group_exec(s, c);
    let d = match pg {
        Some((_, _, f)) => f,
        None => c,
    };
    let sg = scale_group_exec(s, d);
    let g = match sg {
        Some((_, f)) => f,
        None => d,
    };
    if text::skip_ws_exec(s, g) == s.len() {
        Some(
            InlineMatch {
                token: Span { lo: t, hi: e },
                enabled,
                mode: m,
                position: match pg {
                    Some((x, y, _)) => Some((x, y)),
                    None => None,
                },
                scale: match sg {
                    Some((sc, _)) => Some(sc),
                    None => None,
                },
            },
        )
    } else {
        None
    }
}

pub fn output_head_exec(s: &Vec<char>) -> (r: Option<usize>)
    ensures
        oi(r) == output_head(s@),
        r matches Some(t) ==> t <= s@.len(),
{
    let a = text::skip_ws_exec(s, 0);
    match kw_exec(s, a, "output") {
        Some(b) => ws1_exec(s, b),
        None => None,
    }
}

/// Matches an inline output declaration (see `inline_line`).
pub fn inline_line_exec(s: &Vec<char>) -> (r: Option<InlineMatch>)
    ensures
        r == inline_line(s@),
        r matches Some(m) ==> inline_spans_ok(m, s@.len() as int),
{
    let t = match output_head_exec(s) {
        Some(t) => t,
        None => return None,
    };
    let a1 = match quoted_exec(s, t, '\'') {
        Some(e) => inline_tail_exec(s, t, e),
        None => None,
    };
    if a1.is_some() {
        return a1;
    }
    let a2 = match quoted_exec(s, t, '"') {
        Some(e) => inline_tail_exec(s, t, e),
        None => None,
    };
    if a2.is_some() {
        return a2;
    }
    match run1_exec(s, t, &Stop::Ws) {
        Some(e) => inline_tail_exec(s, t, e),
        None => None,
    }
}

// ---------------------------------------------------------------------
// Quotes
// ---------------------------------------------------------------------
/// A token without its enclosing quotes: the trimmed text, less its first
/// and last characters when both are `"` or both are `'`. `None` for a lone
/// quote character, which has no inside to take (slicing its inside would
/// start past its end).
pub open spec fn unquote(s: Seq<char>) -> Option<Seq<char>> {
    let t = text::trim(s);
    if t.len() > 0 && ((t[0] == '"' && t.last() == '"') || (t[0] == '\'' && t.last() == '\'')) {
        if t.len() >= 2 {
            Some(t.subrange(1, t.len() - 1))
        } else {
            None
        }
    } else {
        Some(t)
    }
}

pub fn unquote_exec(s: &Vec<char>) -> (r: Option<Vec<char>>)
    ensures
        match r {
            Some(v) => unquote(s@) == Some(v@),
            None => unquote(s@) is None,
        },
{
    let t = text::trimmed(s);
    let n = t.len();
    if n > 0 && ((t[0] == '"' && t[n - 1] == '"') || (t[0] == '\'' && t[n - 1] == '\'')) {
        if n >= 2 {
            Some(text::copy_range(&t, 1, n - 1))
        } else {
            None
        }
    } else {
        Some(t)
    }
}

// ---------------------------------------------------------------------
// Block-style output declarations
// ---------------------------------------------------------------------
/// `s` without the characters `c` at its end.
pub open spec fn strip_trailing(s: Seq<char>, c: char) -> Seq<char>
    decreases s.len(),
{
    if s.len() > 0 && s.last() == c {
        strip_trailing(s.drop_last(), c)
    } else {
        s
    }
}

/// The output criteria of a block header `output CRITERIA {`: the trailing
/// braces dropped, the text trimmed, the word `output` dropped, the rest
/// trimmed.
pub open spec fn block_token(line: Seq<char>) -> Seq<char> {
    let t = text::trim(strip_trailing(line, '{'));
    if text::starts_with(t, "output"@) {
        text::trim(t.skip("output"@.len() as int))
    } else {
        Seq::empty()
    }
}

pub fn block_token_exec(line: &Vec<char>) -> (r: Vec<char>)
    ensures
        r@ == block_token(line@),
{
    let mut e: usize = line.len();
    assert(line@.take(e as int) =~= line@);
    while e > 0 && line[e - 1] == '{'
        invariant
            e <= line@.len(),
            strip_trailing(line@.take(e as int), '{') == strip_trailing(line@, '{'),
        decreases e,
    {
        assert(line@.take(e as int).drop_last() =~= line@.take(e - 1));
        e = e - 1;
    }
    let stripped = text::copy_range(line, 0, e);
    assert(stripped@ =~= line@.take(e as int));
    let t = text::trimmed(&stripped);
    let head = text::chars_of("output");
    if text::occurs_at_exec(&t, 0, &head) {
        let rest = text::copy_range(&t, head.len(), t.len());
        assert(rest@ =~= t@.skip("output"@.len() as int));
        text::trimmed(&rest)
    } else {
        Vec::new()
    }
}

/// The mode string of a block-style `mode` line: `WIDTHxHEIGHT` with an
/// optional `@RATEHz`, after trimming. `None` when the text is not of that
/// form or a dimension does not fit a `u32`; a rate that does not read as a
/// number gives 60 Hz.
pub open spec fn parse_mode_string(s: Seq<char>) -> Option<crate::model::OutputMode> {
    let t = text::trim(s);
    match run1(t, 0, Stop::NonDigit) {
        None => None,
        Some(d) => match ch(t, d, 'x') {
            None => None,
            Some(e) => match run1(t, e, Stop::NonDigit) {
                None => None,
                Some(f) => {
                    let (r, g) = refresh_part(t, f);
                    if g != t.len() {
                        None
                    } else {
                        match (
                            text::digits_u32(t.subrange(0, d)),
                            text::digits_u32(t.subrange(e, f)),
                        ) {
                            (Some(w), Some(h)) => Some(
                                crate::model::OutputMode {
                                    width: w,
                                    height: h,
                                    refresh_mhz: refresh_or_default(t, r),
                                },
                            ),
                            _ => None,
                        }
                    }
                },
            },
        },
    }
}

/// The refresh rate in a span, or 60 Hz when there is none or it does not
/// read as a number.
pub open spec fn refresh_or_default(t: Seq<char>, r: Option<Span>) -> i64 {
    match r {
        Some(sp) => match text::decimal_milli(text_of(t, sp)) {
            Some(v) => v,
            None => 60_000,
        },
        None => 60_000,
    }
}

pub fn refresh_or_default_exec(t: &Vec<char>, r: Option<Span>) -> (v: i64)
    requires
        r matches Some(sp) ==> sp.lo <= sp.hi <= t@.len(),
    ensures
        v == refresh_or_default(t@, r),
{
    match r {
        Some(sp) => match text::decimal_milli_exec(&text::copy_range(t, sp.lo, sp.hi)) {
            Some(v) => v,
            None => 60_000,
        },
        None => 60_000,
    }
}

pub fn parse_mode_string_exec(s: &Vec<char>) -> (r: Option<crate::model::OutputMode>)
    ensures
        r == parse_mode_string(s@),
{
    let t = text::trimmed(s);
    let d = match run1_exec(&t, 0, &Stop::NonDigit) {
        Some(d) => d,
        None => return None,
    };
    let e = match ch_exec(&t, d, 'x') {
        Some(e) => e,
        None => return None,
    };
    let f = match run1_exec(&t, e, &Stop::NonDigit) {
        Some(f) => f,
        None => return None,
    };
    let (r, g) = refresh_part_exec(&t, f);
    if g != t.len() {
        return None;
    }
    let w = text::digits_u32_exec(&text::copy_range(&t, 0, d));
    let h = text::digits_u32_exec(&text::copy_range(&t, e, f));
    match (w, h) {
        (Some(w), Some(h)) => Some(
            crate::model::OutputMode {
                width: w,
                height: h,
                refresh_mhz: refresh_or_default_exec(&t, r),
            },
        ),
        _ => None,
    }
}

/// `X,Y`: the text before the first comma and the text between it and the
/// next comma (or the end), each trimmed and read as an `i32`.
pub open spec fn parse_position(s: Seq<char>) -> Option<(i32, i32)> {
    let k1 = scan(s, 0, Stop::Char(','));
    if k1 >= s.len() {
        None
    } else {
        let k2 = scan(s, k1 + 1, Stop::Char(','));
        match (
            text::parse_i32(text::trim(s.subrange(0, k1))),
            text::parse_i32(text::trim(s.subrange(k1 + 1, k2))),
        ) {
            (Some(x), Some(y)) => Some((x, y)),
            _ => None,
        }
    }
}

pub fn parse_position_exec(s: &Vec<char>) -> (r: Option<(i32, i32)>)
    ensures
        r == parse_position(s@),
{
    let k1 = text::scan_exec(s, 0, &Stop::Char(','));
    if k1 >= s.len() {
        return None;
    }
    let k2 = text::scan_exec(s, k1 + 1, &Stop::Char(','));
    let x = text::parse_i32_exec(&text::trimmed(&text::copy_range(s, 0, k1)));
    let y = text::parse_i32_exec(&text::trimmed(&text::copy_range(s, k1 + 1, k2)));
    match (x, y) {
        (Some(x), Some(y)) => Some((x, y)),
        _ => None,
    }
}

/// `X Y`: the first two whitespace-separated words, each read as an `i32`.
pub open spec fn parse_space_position(s: Seq<char>) -> Option<(i32, i32)> {
    let a = skip_ws(s, 0);
    let b = scan(s, a, Stop::Ws);
    let c = skip_ws(s, b);
    let d = scan(s, c, Stop::Ws);
    if a >= s.len() || c >= s.len() {
        None
    } else {
        match (text::parse_i32(s.subrange(a, b)), text::parse_i32(s.subrange(c, d))) {
            (Some(x), Some(y)) => Some((x, y)),
            _ => None,
        }
    }
}

pub fn parse_space_position_exec(s: &Vec<char>) -> (r: Option<(i32, i32)>)
    ensures
        r == parse_space_position(s@),
{
    let a = text::skip_ws_exec(s, 0);
    let b = text::scan_exec(s, a, &Stop::Ws);
    let c = text::skip_ws_exec(s, b);
    let d = text::scan_exec(s, c, &Stop::Ws);
    if a >= s.len() || c >= s.len() {
        return None;
    }
    let x = text::parse_i32_exec(&text::copy_range(s, a, b));
    let y = text::parse_i32_exec(&text::copy_range(s, c, d));
    match (x, y) {
        (Some(x), Some(y)) => Some((x, y)),
        _ => None,
    }
}

// ---------------------------------------------------------------------
// Mirror metadata comments:  # kanshiui: mirror id='ID' target='TARGET'
// ---------------------------------------------------------------------
/// The spans of the id and the target of a mirror comment.
pub open spec fn mirror_comment(s: Seq<char>) -> Option<(Span, Span)> {
    match ch(s, skip_ws(s, 0), '#') {
        None => None,
        Some(a) => match kw(s, skip_ws(s, a), "kanshiui:"@) {
            None => None,
            Some(b) => match kw(s, skip_ws(s, b), "mirror"@) {
                None => None,
                Some(c) => match ws1(s, c) {
                    None => None,
                    Some(d) => match kw(s, d, "id='"@) {
                        None => None,
                        Some(e) => match run1(s, e, Stop::Char('\'')) {
                            None => None,
                            Some(f) => match ch(s, f, '\'') {
                                None => None,
                                Some(g) => match ws1(s, g) {
                                    None => None,
                                    Some(h) => match kw(s, h, "target='"@) {
                                        None => None,
                                        Some(i) => match run1(s, i, Stop::Char('\'')) {
                                            None => None,
                                            Some(j) => match ch(s, j, '\'') {
                                                None => None,
                                                Some(k) => if skip_ws(s, k) == s.len() {
                                                    Some((span(e, f), span(i, j)))
                                                } else {
                                                    None
                                                },
                                            },
                                        },
                                    },
                                },
                            },
                        },
                    },
                },
            },
        },
    }
}

pub fn mirror_comment_exec(s: &Vec<char>) -> (r: Option<(Span, Span)>)
    ensures
        r == mirror_comment(s@),
        r matches Some((x, y)) ==> x.lo <= x.hi <= s@.len() && y.lo <= y.hi <= s@.len(),
{
    let a = match ch_exec(s, text::skip_ws_exec(s, 0), '#') {
        Some(v) => v,
        None => return None,
    };
    let b = match kw_exec(s, text::skip_ws_exec(s, a), "kanshiui:") {
        Some(v) => v,
        None => return None,
    };
    let c = match kw_exec(s, text::skip_ws_exec(s, b), "mirror") {
        Some(v) => v,
        None => return None,
    };
    let d = match ws1_exec(s, c) {
        Some(v) => v,
        None => return None,
    };
    let e = match kw_exec(s, d, "id='") {
        Some(v) => v,
        None => return None,
    };
    let f = match run1_exec(s, e, &Stop::Char('\'')) {
        Some(v) => v,
        None => return None,
    };
    let g = match ch_exec(s, f, '\'') {
        Some(v) => v,
        None => return None,
    };
    let h = match ws1_exec(s, g) {
        Some(v) => v,
        None => return None,
    };
    let i = match kw_exec(s, h, "target='") {
        Some(v) => v,
        None => return None,
    };
    let j = match run1_exec(s, i, &Stop::Char('\'')) {
        Some(v) => v,
        None => return None,
    };
    let k = match ch_exec(s, j, '\'') {
        Some(v) => v,
        None => return None,
    };
    if text::skip_ws_exec(s, k) == s.len() {
        Some((Span { lo: e, hi: f }, Span { lo: i, hi: j }))
    } else {
        None
    }
}

// ---------------------------------------------------------------------
// Aliases outside profiles
// ---------------------------------------------------------------------
/// `alias $NAME` alone on a line: the span of `$NAME`.
pub open spec fn alias_line(s: Seq<char>) -> Option<Span> {
    match kw(s, skip_ws(s, 0), "alias"@) {
        None => None,
        Some(a) => match ws1(s, a) {
            None => None,
            Some(b) => match ch(s, b, '$') {
                None => None,
                Some(c) => match run1(s, c, Stop::NonAliasChar) {
                    None => None,
                    Some(d) => if skip_ws(s, d) == s.len() {
                        Some(span(b, d))
                    } else {
                        None
                    },
                },
            },
        },
    }
}

pub fn alias_line_exec(s: &Vec<char>) -> (r: Option<Span>)
    ensures
        r == alias_line(s@),
        r matches Some(x) ==> x.lo <= x.hi <= s@.len(),
{
    let a = match kw_exec(s, text::skip_ws_exec(s, 0), "alias") {
        Some(v) => v,
        None => return None,
    };
    let b = match ws1_exec(s, a) {
        Some(v) => v,
        None => return None,
    };
    let c = match ch_exec(s, b, '$') {
        Some(v) => v,
        None => return None,
    };
    let d = match run1_exec(s, c, &Stop::NonAliasChar) {
        Some(v) => v,
        None => return None,
    };
    if text::skip_ws_exec(s, d) == s.len() {
        Some(Span { lo: b, hi: d })
    } else {
        None
    }
}

/// After the criteria of a block header: optional whitespace, `{`, and only
/// whitespace after it.
pub open spec fn block_tail(s: Seq<char>, e: int) -> bool {
    match ch(s, skip_ws(s, e), '{') {
        Some(v) => skip_ws(s, v) == s.len(),
        None => false,
    }
}

/// The longest end in `t+1..=e` after which a block header's tail follows.
pub open spec fn bare_block_end(s: Seq<char>, t: int, e: int) -> Option<int>
    decreases e - t,
{
    if e <= t {
        None
    } else if block_tail(s, e) {
        Some(e)
    } else {
        bare_block_end(s, t, e - 1)
    }
}

/// A block-style output header `output CRITERIA {`: the span of the
/// criteria token (single-quoted, double-quoted, or else the longest run of
/// non-whitespace characters that leaves the `{` after it).
pub open spec fn output_block(s: Seq<char>) -> Option<Span> {
    match output_head(s) {
        None => None,
        Some(t) => {
            let a1 = match quoted(s, t, '\'') {
                Some(e) => if block_tail(s, e) {
                    Some(span(t, e))
                } else {
                    None
                },
                None => None,
            };
            let a2 = match quoted(s, t, '"') {
                Some(e) => if block_tail(s, e) {
                    Some(span(t, e))
                } else {
                    None
                },
                None => None,
            };
            let a3 = match run1(s, t, Stop::Ws) {
                Some(r) => match bare_block_end(s, t, r) {
                    Some(e) => Some(span(t, e)),
                    None => None,
                },
                None => None,
            };
            if a1 is Some {
                a1
            } else if a2 is Some {
                a2
            } else {
                a3
            }
        },
    }
}

pub fn block_tail_exec(s: &Vec<char>, e: usize) -> (b: bool)
    requires
        e <= s@.len(),
    ensures
        b == block_tail(s@, e as int),
{
    let a = text::skip_ws_exec(s, e);
    match ch_exec(s, a, '{') {
        Some(v) => text::skip_ws_exec(s, v) == s.len(),
        None => false,
    }
}

pub fn output_block_exec(s: &Vec<char>) -> (r: Option<Span>)
    ensures
        r == output_block(s@),
        r matches Some(x) ==> x.lo <= x.hi <= s@.len(),
{
    let t = match output_head_exec(s) {
        Some(t) => t,
        None => return None,
    };
    if let Some(e) = quoted_exec(s, t, '\'') {
        if block_tail_exec(s, e) {
            return Some(Span { lo: t, hi: e });
        }
    }
    if let Some(e) = quoted_exec(s, t, '"') {
        if block_tail_exec(s, e) {
            return Some(Span { lo: t, hi: e });
        }
    }
    let r = match run1_exec(s, t, &Stop::Ws) {
        Some(r) => r,
        None => return None,
    };
    let ghost expected = output_block(s@);
    assert(expected == match bare_block_end(s@, t as int, r as int) {
        Some(e) => Some(span(t as int, e)),
        None => None,
    });
    let mut e: usize = r;
    while e > t
        invariant
            t <= e <= r <= s@.len(),
            bare_block_end(s@, t as int, r as int) == bare_block_end(s@, t as int, e as int),
            expected == output_block(s@),
            expected == match bare_block_end(s@, t as int, r as int) {
                Some(e) => Some(span(t as int, e)),
                None => None,
            },
        decreases e - t,
    {
        if block_tail_exec(s, e) {
            return Some(Span { lo: t, hi: e });
        }
        e = e - 1;
    }
    None
}

/// An alias declaration at `w`: whitespace, `alias`, whitespace, `$NAME`
/// and then whitespace or the end. The span of `$NAME`.
pub open spec fn alias_at(s: Seq<char>, w: int) -> Option<Span> {
    if 0 <= w < s.len() && is_ws(s[w]) {
        match kw(s, w + 1, "alias"@) {
            None => None,
            Some(a) => match ws1(s, a) {
                None => None,
                Some(b) => match ch(s, b, '$') {
                    None => None,
                    Some(c) => match run1(s, c, Stop::NonAliasChar) {
                        None => None,
                        Some(d) => if d == s.len() || is_ws(s[d]) {
                            Some(span(b, d))
                        } else {
                            None
                        },
                    },
                },
            },
        }
    } else {
        None
    }
}

/// The alias declaration that starts last among those starting in `e..=w`.
pub open spec fn last_alias(s: Seq<char>, e: int, w: int) -> Option<Span>
    decreases w - e + 1,
{
    if w < e {
        None
    } else {
        match alias_at(s, w) {
            Some(x) => Some(x),
            None => last_alias(s, e, w - 1),
        }
    }
}

/// The longest end in `t+1..=e` after which an alias declaration follows,
/// with that declaration.
pub open spec fn bare_alias_end(s: Seq<char>, t: int, e: int) -> Option<(int, Span)>
    decreases e - t,
{
    if e <= t {
        None
    } else {
        match last_alias(s, e, s.len() - 1) {
            Some(x) => Some((e, x)),
            None => bare_alias_end(s, t, e - 1),
        }
    }
}

/// An output declaration outside profiles that names an alias:
/// `output CRITERIA ... alias $NAME ...`. The spans of the criteria token and
/// of the last alias name on the line.
pub open spec fn inline_alias(s: Seq<char>) -> Option<(Span, Span)> {
    match output_head(s) {
        None => None,
        Some(t) => {
            let a1 = match quoted(s, t, '\'') {
                Some(e) => match last_alias(s, e, s.len() - 1) {
                    Some(x) => Some((span(t, e), x)),
                    None => None,
                },
                None => None,
            };
            let a2 = match quoted(s, t, '"') {
                Some(e) => match last_alias(s, e, s.len() - 1) {
                    Some(x) => Some((span(t, e), x)),
                    None => None,
                },
                None => None,
            };
            let a3 = match run1(s, t, Stop::Ws) {
                Some(r) => match bare_alias_end(s, t, r) {
                    Some((e, x)) => Some((span(t, e), x)),
                    None => None,
                },
                None => None,
            };
            if a1 is Some {
                a1
            } else if a2 is Some {
                a2
            } else {
                a3
            }
        },
    }
}

pub fn alias_at_exec(s: &Vec<char>, w: usize) -> (r: Option<Span>)
    requires
        w < s@.len(),
    ensures
        r == alias_at(s@, w as int),
        r matches Some(x) ==> x.lo <= x.hi <= s@.len(),
{
    if !text::is_whitespace(s[w]) {
        return None;
    }
    let n = s.len();
    assert(w + 1 <= n);
    let a = match kw_exec(s, w + 1, "alias") {
        Some(v) => v,
        None => return None,
    };
    let b = match ws1_exec(s, a) {
        Some(v) => v,
        None => return None,
    };
    let c = match ch_exec(s, b, '$') {
        Some(v) => v,
        None => return None,
    };
    let d = match run1_exec(s, c, &Stop::NonAliasChar) {
        Some(v) => v,
        None => return None,
    };
    if d == s.len() || text::is_whitespace(s[d]) {
        Some(Span { lo: b, hi: d })
    } else {
        None
    }
}

pub fn last_alias_exec(s: &Vec<char>, e: usize) -> (r: Option<Span>)
    requires
        e <= s@.len(),
    ensures
        r == last_alias(s@, e as int, s@.len() - 1),
        r matches Some(x) ==> x.lo <= x.hi <= s@.len(),
{
    let mut w: usize = s.len();
    while w > e
        invariant
            e <= w <= s@.len(),
            last_alias(s@, e as int, s@.len() - 1) == last_alias(s@, e as int, w - 1),
        decreases w - e,
    {
        if let Some(x) = alias_at_exec(s, w - 1) {
            return Some(x);
        }
        w = w - 1;
    }
    None
}

pub fn inline_alias_exec(s: &Vec<char>) -> (r: Option<(Span, Span)>)
    ensures
        r == inline_alias(s@),
        r matches Some((x, y)) ==> x.lo <= x.hi <= s@.len() && y.lo <= y.hi <= s@.len(),
{
    let t = match output_head_exec(s) {
        Some(t) => t,
        None => return None,
    };
    if let Some(e) = quoted_exec(s, t, '\'') {
        if let Some(x) = last_alias_exec(s, e) {
            return Some((Span { lo: t, hi: e }, x));
        }
    }
    if let Some(e) = quoted_exec(s, t, '"') {
        if let Some(x) = last_alias_exec(s, e) {
            return Some((Span { lo: t, hi: e }, x));
        }
    }
    let r = match run1_exec(s, t, &Stop::Ws) {
        Some(r) => r,
        None => return None,
    };
    let ghost expected = inline_alias(s@);
    assert(expected == match bare_alias_end(s@, t as int, r as int) {
        Some((e, x)) => Some((span(t as int, e), x)),
        None => None,
    });
    let mut e: usize = r;
    while e > t
        invariant
            t <= e <= r <= s@.len(),
            bare_alias_end(s@, t as int, r as int) == bare_alias_end(s@, t as int, e as int),
            expected == inline_alias(s@),
            expected == match bare_alias_end(s@, t as int, r as int) {
                Some((e, x)) => Some((span(t as int, e), x)),
                None => None,
            },
        decreases e - t,
    {
        if let Some(x) = last_alias_exec(s, e) {
            return Some((Span { lo: t, hi: e }, x));
        }
        e = e - 1;
    }
    None
}

// ---------------------------------------------------------------------
// Profile headers
// ---------------------------------------------------------------------
/// A profile name token at `c`: an opening quote (`"` or `'`), one or more
/// characters that are not quotes, a closing quote. The index after it.
pub open spec fn profile_name_at(s: Seq<char>, c: int) -> Option<int> {
    if 0 <= c < s.len() && (s[c] == '"' || s[c] == '\'') {
        let u = scan(s, c + 1, Stop::Quote);
        if u < s.len() && u >= c + 2 {
            Some(u + 1)
        } else {
            None
        }
    } else {
        None
    }
}

/// A line that opens a profile, with or without a name: `profile {` or
/// `profile "NAME" {`, anything after the brace.
pub open spec fn profile_start(s: Seq<char>) -> bool {
    match kw(s, skip_ws(s, 0), "profile"@) {
        None => false,
        Some(b) => {
            let named = match ws1(s, b) {
                Some(c) => match profile_name_at(s, c) {
                    Some(e) => ch(s, skip_ws(s, e), '{') is Some,
                    None => false,
                },
                None => false,
            };
            named || ch(s, skip_ws(s, b), '{') is Some
        },
    }
}

/// A named profile header starting at `p`: whitespace (newlines included),
/// `profile`, whitespace, a name token, whitespace, `{`. The span of the
/// name token and the index of the brace.
pub open spec fn header_at(s: Seq<char>, p: int) -> Option<(Span, int)> {
    match kw(s, skip_ws(s, p), "profile"@) {
        None => None,
        Some(b) => match ws1(s, b) {
            None => None,
            Some(c) => match profile_name_at(s, c) {
                None => None,
                Some(e) => match ch(s, skip_ws(s, e), '{') {
                    None => None,
                    Some(v) => Some((span(c, e), v - 1)),
                },
            },
        },
    }
}

pub fn profile_name_at_exec(s: &Vec<char>, c: usize) -> (r: Option<usize>)
    requires
        c <= s@.len(),
    ensures
        oi(r) == profile_name_at(s@, c as int),
        r matches Some(e) ==> c + 3 <= e <= s@.len(),
{
    if c < s.len() && (s[c] == '"' || s[c] == '\'') {
        let u = text::scan_exec(s, c + 1, &Stop::Quote);
        if u < s.len() && u >= c + 2 {
            Some(u + 1)
        } else {
            None
        }
    } else {
        None
    }
}

pub fn profile_start_exec(s: &Vec<char>) -> (b: bool)
    ensures
        b == profile_start(s@),
{
    let b = match kw_exec(s, text::skip_ws_exec(s, 0), "profile") {
        Some(b) => b,
        None => return false,
    };
    let named = match ws1_exec(s, b) {
        Some(c) => match profile_name_at_exec(s, c) {
            Some(e) => ch_exec(s, text::skip_ws_exec(s, e), '{').is_some(),
            None => false,
        },
        None => false,
    };
    named || ch_exec(s, text::skip_ws_exec(s, b), '{').is_some()
}

pub fn header_at_exec(s: &Vec<char>, p: usize) -> (r: Option<(Span, usize)>)
    requires
        p <= s@.len(),
    ensures
        r matches Some((x, v)) ==> header_at(s@, p as int) == Some((x, v as int)) && p <= x.lo
            && x.lo + 3 <= x.hi <= v < s@.len() && s@[v as int] == '{',
        r is None ==> header_at(s@, p as int) is None,
{
    let q = text::skip_ws_exec(s, p);
    let b = match kw_exec(s, q, "profile") {
        Some(v) => v,
        None => return None,
    };
    let c = match ws1_exec(s, b) {
        Some(v) => v,
        None => return None,
    };
    let e = match profile_name_at_exec(s, c) {
        Some(v) => v,
        None => return None,
    };
    let w = text::skip_ws_exec(s, e);
    match ch_exec(s, w, '{') {
        Some(v) => Some((Span { lo: c, hi: e }, v - 1)),
        None => None,
    }
}

} // verus!



