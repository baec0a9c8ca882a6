//! The block that the configuration writes for a profile reads back as that
//! profile: the grammar, taken step by step over the text the generator
//! writes, finds its header, its braces and each of its output lines, and
//! reads every value back as itself. A configuration made of such blocks
//! reads back as their profiles, and writing a profile into it gives such a
//! configuration again.

use vstd::prelude::*;

use crate::grammar::{self, span, text_of, InlineMatch, Span};
use crate::generate;
use crate::laws;
use crate::model::{self, OutputMode, ProfileView, ScreenView};
use crate::parse;
use crate::text::{self, fmt_int, fmt_milli, fmt_nat, is_ws, scan, skip_ws, Stop};

verus! {

// ---------------------------------------------------------------------
// Reading a text piece by piece
// ---------------------------------------------------------------------
/// The rest of `s` from `p` is `w` followed by `rest`.
pub open spec fn at(s: Seq<char>, p: int, w: Seq<char>, rest: Seq<char>) -> bool {
    0 <= p <= s.len() <= usize::MAX && s.skip(p) == w + rest
}

#[verifier::spinoff_prover]
pub proof fn lemma_at_next(s: Seq<char>, p: int, w: Seq<char>, rest: Seq<char>)
    requires
        at(s, p, w, rest),
    ensures
        p + w.len() <= s.len(),
        s.skip(p + w.len()) == rest,
        forall|i: int| 0 <= i < w.len() ==> #[trigger] s[p + i] == w[i],
        text_of(s, span(p, p + w.len())) == w,
        s.len() == p + w.len() + rest.len(),
{
    assert((w + rest).len() == s.len() - p);
    assert(s.skip(p + w.len()) =~= (w + rest).skip(w.len() as int));
    assert((w + rest).skip(w.len() as int) =~= rest);
    assert forall|i: int| 0 <= i < w.len() implies #[trigger] s[p + i] == w[i] by {
        assert(s.skip(p)[i] == (w + rest)[i]);
    }
    assert(text_of(s, span(p, p + w.len())) =~= w);
}

/// Moving past a piece.
#[verifier::spinoff_prover]
pub proof fn lemma_at_step(s: Seq<char>, p: int, w: Seq<char>, rest: Seq<char>)
    requires
        at(s, p, w, rest),
    ensures
        p + w.len() <= s.len(),
        s.skip(p + w.len()) == rest,
{
    assert((w + rest).len() == s.len() - p);
    assert(s.skip(p + w.len()) =~= (w + rest).skip(w.len() as int));
    assert((w + rest).skip(w.len() as int) =~= rest);
}

#[verifier::spinoff_prover]
pub proof fn lemma_kw_at(s: Seq<char>, p: int, w: Seq<char>, rest: Seq<char>)
    requires
        at(s, p, w, rest),
    ensures
        grammar::kw(s, p, w) == Some(p + w.len()),
{
    lemma_at_next(s, p, w, rest);
    assert(s.subrange(p, p + w.len()) =~= w);
}

#[verifier::spinoff_prover]
pub proof fn lemma_kw_not_at(s: Seq<char>, p: int, w: Seq<char>)
    requires
        0 <= p < s.len(),
        w.len() > 0,
        s[p] != w[0],
    ensures
        grammar::kw(s, p, w) is None,
{
    if text::occurs_at(s, p, w) {
        assert(s.subrange(p, p + w.len())[0] == s[p]);
    }
}

#[verifier::spinoff_prover]
pub proof fn lemma_ch_at(s: Seq<char>, p: int, c: char, rest: Seq<char>)
    requires
        at(s, p, seq![c], rest),
    ensures
        grammar::ch(s, p, c) == Some(p + 1),
{
    lemma_at_next(s, p, seq![c], rest);
    assert(s[p + 0] == c);
}

/// A scan from `p` over a piece whose characters do not stop it, followed
/// by one that does (or by nothing), ends at the end of the piece.
#[verifier::spinoff_prover]
pub proof fn lemma_scan_at(s: Seq<char>, p: int, w: Seq<char>, rest: Seq<char>, k: Stop)
    requires
        at(s, p, w, rest),
        forall|i: int| 0 <= i < w.len() ==> !text::stops(#[trigger] w[i], k),
        rest.len() == 0 || text::stops(rest[0], k),
    ensures
        scan(s, p, k) == p + w.len(),
{
    lemma_at_next(s, p, w, rest);
    if rest.len() > 0 {
        assert(s.skip(p + w.len())[0] == rest[0]);
        assert(s[p + w.len()] == rest[0]);
    }
    assert forall|m: int| p <= m < p + w.len() implies !text::stops(#[trigger] s[m], k) by {
        assert(s[p + (m - p)] == w[m - p]);
    }
    lemma_scan_to(s, p, p + w.len(), k);
}

#[verifier::spinoff_prover]
pub proof fn lemma_scan_to(s: Seq<char>, i: int, j: int, k: Stop)
    requires
        0 <= i <= j <= s.len(),
        forall|m: int| i <= m < j ==> !text::stops(#[trigger] s[m], k),
        j == s.len() || text::stops(s[j], k),
    ensures
        scan(s, i, k) == j,
    decreases j - i,
{
    if i < j {
        lemma_scan_to(s, i + 1, j, k);
    }
}

/// A single space followed by a character that is not whitespace.
#[verifier::spinoff_prover]
pub proof fn lemma_ws1_at(s: Seq<char>, p: int, rest: Seq<char>)
    requires
        at(s, p, seq![' '], rest),
        rest.len() > 0,
        !is_ws(rest[0]),
    ensures
        grammar::ws1(s, p) == Some(p + 1),
{
    lemma_at_next(s, p, seq![' '], rest);
    assert(s[p + 0] == ' ');
    lemma_scan_at(s, p, seq![' '], rest, Stop::NonWs);
}

#[verifier::spinoff_prover]
pub proof fn lemma_run1_at(s: Seq<char>, p: int, w: Seq<char>, rest: Seq<char>, k: Stop)
    requires
        at(s, p, w, rest),
        w.len() > 0,
        forall|i: int| 0 <= i < w.len() ==> !text::stops(#[trigger] w[i], k),
        rest.len() == 0 || text::stops(rest[0], k),
    ensures
        grammar::run1(s, p, k) == Some(p + w.len()),
{
    lemma_scan_at(s, p, w, rest, k);
}

// ---------------------------------------------------------------------
// Trimming
// ---------------------------------------------------------------------
#[verifier::spinoff_prover]
proof fn lemma_trim_end_to(s: Seq<char>, lo: int, hi: int, j: int)
    requires
        0 <= lo < hi <= j <= s.len(),
        !is_ws(s[hi - 1]),
        forall|k: int| hi <= k < s.len() ==> is_ws(#[trigger] s[k]),
    ensures
        text::trim_end_at(s, lo, j) == hi,
    decreases j - hi,
{
    if j > hi {
        lemma_trim_end_to(s, lo, hi, j - 1);
    }
}

/// `s` trimmed is `s[lo..hi]` when the characters before `lo` and from `hi`
/// on are whitespace and those at `lo` and `hi - 1` are not.
#[verifier::spinoff_prover]
pub proof fn lemma_trim_exact(s: Seq<char>, lo: int, hi: int)
    requires
        0 <= lo < hi <= s.len(),
        forall|k: int| 0 <= k < lo ==> is_ws(#[trigger] s[k]),
        !is_ws(s[lo]),
        !is_ws(s[hi - 1]),
        forall|k: int| hi <= k < s.len() ==> is_ws(#[trigger] s[k]),
    ensures
        text::trim(s) == s.subrange(lo, hi),
{
    lemma_scan_to(s, 0, lo, Stop::NonWs);
    lemma_trim_end_to(s, lo, hi, s.len() as int);
}

// ---------------------------------------------------------------------
// Lines
// ---------------------------------------------------------------------
/// The lines each followed by a newline.
pub open spec fn joined(ls: Seq<Seq<char>>) -> Seq<char>
    decreases ls.len(),
{
    if ls.len() == 0 {
        Seq::empty()
    } else {
        ls[0] + seq!['\n'] + joined(ls.drop_first())
    }
}

/// A line that `str::lines` gives back as it is: no newline in it, no
/// carriage return at its end.
pub open spec fn clean_line(l: Seq<char>) -> bool {
    (forall|i: int| 0 <= i < l.len() ==> #[trigger] l[i] != '\n') && (l.len() == 0 || l.last()
        != '\r')
}

#[verifier::spinoff_prover]
pub proof fn lemma_joined_concat(a: Seq<Seq<char>>, b: Seq<Seq<char>>)
    ensures
        joined(a + b) == joined(a) + joined(b),
    decreases a.len(),
{
    if a.len() == 0 {
        assert(a + b =~= b);
        assert(joined(a) =~= Seq::<char>::empty());
        assert(joined(a) + joined(b) =~= joined(b));
    } else {
        assert((a + b).drop_first() =~= a.drop_first() + b);
        lemma_joined_concat(a.drop_first(), b);
        assert((a + b)[0] == a[0]);
        assert(joined(a + b) =~= joined(a) + joined(b));
    }
}

#[verifier::spinoff_prover]
proof fn lemma_lines_joined_from(s: Seq<char>, i: int, ls: Seq<Seq<char>>)
    requires
        0 <= i <= s.len() <= usize::MAX,
        s.skip(i) == joined(ls),
        forall|j: int| 0 <= j < ls.len() ==> clean_line(#[trigger] ls[j]),
    ensures
        text::lines_from(s, i) == ls,
    decreases ls.len(),
{
    if ls.len() == 0 {
        assert(s.skip(i).len() == 0);
        assert(text::lines_from(s, i) =~= ls);
    } else {
        let l = ls[0];
        assert(clean_line(l));
        let rest = seq!['\n'] + joined(ls.drop_first());
        assert(joined(ls) =~= l + rest);
        lemma_at_next(s, i, l, rest);
        lemma_scan_at(s, i, l, rest, Stop::Char('\n'));
        let k = i + l.len();
        assert(s[k] == '\n') by {
            assert(s.skip(k)[0] == rest[0]);
        }
        assert(s.subrange(i, k) =~= l);
        assert(s.skip(k + 1) =~= joined(ls.drop_first())) by {
            assert(s.skip(k + 1) =~= rest.skip(1));
        }
        assert forall|j: int| 0 <= j < ls.drop_first().len() implies clean_line(
            #[trigger] ls.drop_first()[j],
        ) by {
            assert(ls.drop_first()[j] == ls[j + 1]);
        }
        lemma_lines_joined_from(s, k + 1, ls.drop_first());
        assert(text::lines_from(s, i) =~= seq![l] + ls.drop_first());
    }
}

/// The lines of lines each followed by a newline are those lines.
#[verifier::spinoff_prover]
pub proof fn lemma_lines_joined(ls: Seq<Seq<char>>)
    requires
        joined(ls).len() <= usize::MAX,
        forall|j: int| 0 <= j < ls.len() ==> clean_line(#[trigger] ls[j]),
    ensures
        text::lines(joined(ls)) == ls,
{
    assert(joined(ls).skip(0) =~= joined(ls));
    lemma_lines_joined_from(joined(ls), 0, ls);
}

// ---------------------------------------------------------------------
// Output lines
// ---------------------------------------------------------------------
/// The state word of an output line.
pub open spec fn state_text(en: bool) -> Seq<char> {
    if en {
        "enable"@
    } else {
        "disable"@
    }
}

/// ` mode WIDTHxHEIGHT@RATEHz` as the generator writes it.
pub open spec fn mode_piece(m: OutputMode) -> Seq<char> {
    seq![' '] + ("mode"@ + (seq![' '] + (fmt_nat(m.width as nat) + (seq!['x'] + (fmt_nat(
        m.height as nat,
    ) + (seq!['@'] + (fmt_milli(m.refresh_mhz as int) + seq!['H', 'z'])))))))
}

/// ` position X,Y` as the generator writes it.
pub open spec fn position_piece(x: i32, y: i32) -> Seq<char> {
    seq![' '] + ("position"@ + (seq![' '] + (fmt_int(x as int) + (seq![','] + fmt_int(y as int)))))
}

/// ` scale S` as the generator writes it.
pub open spec fn scale_piece(scale: i64) -> Seq<char> {
    seq![' '] + ("scale"@ + (seq![' '] + fmt_milli(scale as int)))
}

/// The text of an output line after the identifier, as the generator
/// writes it: the state, the mode, the position and the scale.
pub open spec fn line_tail(en: bool, m: OutputMode, x: i32, y: i32, scale: i64) -> Seq<char> {
    seq![' '] + (state_text(en) + (mode_piece(m) + (position_piece(x, y) + scale_piece(scale))))
}

#[verifier::spinoff_prover]
proof fn lemma_signed_digits_at(t: Seq<char>, c: int, x: i32, rest: Seq<char>)
    requires
        at(t, c, fmt_int(x as int), rest),
        rest.len() > 0,
        !text::is_digit(rest[0]),
    ensures
        grammar::signed_digits(t, c) == Some(c + fmt_int(x as int).len()),
        text::parse_i32(text_of(t, span(c, c + fmt_int(x as int).len()))) == Some(x),
        fmt_int(x as int).len() > 0,
        !is_ws(fmt_int(x as int)[0]),
{
    lemma_at_next(t, c, fmt_int(x as int), rest);
    laws::lemma_parse_i32_round_trip(x);
    if x < 0 {
        let d = fmt_nat((-x) as nat);
        laws::lemma_fmt_nat((-x) as nat);
        assert(fmt_int(x as int) =~= seq!['-'] + d);
        assert(t.skip(c) =~= seq!['-'] + (d + rest));
        lemma_ch_at(t, c, '-', d + rest);
        lemma_at_next(t, c, seq!['-'], d + rest);
        lemma_run1_at(t, c + 1, d, rest, Stop::NonDigit);
    } else {
        let d = fmt_nat(x as nat);
        laws::lemma_fmt_nat(x as nat);
        assert(t[c + 0] == d[0]);
        assert(grammar::ch(t, c, '-') is None);
        lemma_run1_at(t, c, d, rest, Stop::NonDigit);
    }
}

#[verifier::spinoff_prover]
proof fn lemma_state_at(t: Seq<char>, e: int, en: bool, rest: Seq<char>)
    requires
        at(t, e, seq![' '] + state_text(en), rest),
    ensures
        grammar::state_word(t, e) == Some((en, e + 1 + state_text(en).len())),
        at(t, e + 1 + state_text(en).len(), Seq::empty(), rest),
{
    reveal_strlit("enable");
    reveal_strlit("disable");
    let st = state_text(en);
    assert((seq![' '] + st) + rest =~= seq![' '] + (st + rest));
    lemma_ws1_at(t, e, st + rest);
    lemma_at_next(t, e, seq![' '], st + rest);
    let a = e + 1;
    if en {
        lemma_kw_at(t, a, "enable"@, rest);
    } else {
        lemma_at_next(t, a, st, rest);
        assert(t[a + 0] == 'd');
        lemma_kw_not_at(t, a, "enable"@);
        lemma_kw_at(t, a, "disable"@, rest);
    }
    lemma_at_next(t, a, st, rest);
    assert(Seq::<char>::empty() + rest =~= rest);
}

#[verifier::spinoff_prover]
proof fn lemma_mode_at(t: Seq<char>, b: int, m: OutputMode, rest: Seq<char>)
    requires
        at(t, b, mode_piece(m), rest),
        m.refresh_mhz >= 0,
        rest.len() > 0,
        rest[0] == ' ',
    ensures
        grammar::mode_group(t, b) matches Some(ms) && ms.end == b + mode_piece(m).len()
            && text::digits_u32(text_of(t, ms.width)) == Some(m.width) && text::digits_u32(
            text_of(t, ms.height),
        ) == Some(m.height) && grammar::refresh_or_default(t, ms.refresh) == m.refresh_mhz,
        at(t, b + mode_piece(m).len(), Seq::empty(), rest),
{
    reveal_strlit("mode");
    let w = fmt_nat(m.width as nat);
    let h = fmt_nat(m.height as nat);
    let r = fmt_milli(m.refresh_mhz as int);
    laws::lemma_fmt_nat(m.width as nat);
    laws::lemma_fmt_nat(m.height as nat);
    laws::lemma_decimal_milli_round_trip(m.refresh_mhz);
    laws::lemma_digits_u32_round_trip(m.width);
    laws::lemma_digits_u32_round_trip(m.height);
    let r13 = seq!['H', 'z'] + rest;
    let r12 = r + r13;
    let r11 = seq!['@'] + r12;
    let r10 = h + r11;
    let r9 = seq!['x'] + r10;
    let r8 = w + r9;
    let r7 = seq![' '] + r8;
    let r6 = "mode"@ + r7;
    assert(mode_piece(m) + rest =~= seq![' '] + r6);
    lemma_ws1_at(t, b, r6);
    lemma_at_next(t, b, seq![' '], r6);
    lemma_kw_at(t, b + 1, "mode"@, r7);
    lemma_at_next(t, b + 1, "mode"@, r7);
    let c0 = b + 5;
    lemma_ws1_at(t, c0, r8);
    lemma_at_next(t, c0, seq![' '], r8);
    let c = c0 + 1;
    lemma_run1_at(t, c, w, r9, Stop::NonDigit);
    lemma_at_next(t, c, w, r9);
    let d = c + w.len();
    lemma_ch_at(t, d, 'x', r10);
    lemma_at_next(t, d, seq!['x'], r10);
    lemma_run1_at(t, d + 1, h, r11, Stop::NonDigit);
    lemma_at_next(t, d + 1, h, r11);
    let f = d + 1 + h.len();
    lemma_ch_at(t, f, '@', r12);
    lemma_at_next(t, f, seq!['@'], r12);
    lemma_run1_at(t, f + 1, r, r13, Stop::NonDecimal);
    lemma_at_next(t, f + 1, r, r13);
    let g0 = f + 1 + r.len();
    assert("Hz"@ == seq!['H', 'z']) by {
        reveal_strlit("Hz");
    }
    lemma_kw_at(t, g0, seq!['H', 'z'], rest);
    lemma_at_next(t, g0, seq!['H', 'z'], rest);
    let ce = g0 + 2;
    assert(grammar::refresh_part(t, f) == (Some(span(f + 1, g0)), ce));
    assert(ce == b + mode_piece(m).len());
    assert(Seq::<char>::empty() + rest =~= rest);
}

#[verifier::spinoff_prover]
proof fn lemma_position_at(t: Seq<char>, c: int, x: i32, y: i32, rest: Seq<char>)
    requires
        at(t, c, position_piece(x, y), rest),
        rest.len() > 0,
        rest[0] == ' ',
    ensures
        grammar::position_group(t, c) matches Some((a, b, f)) && f == c + position_piece(x, y).len()
            && text::parse_i32(text_of(t, a)) == Some(x) && text::parse_i32(text_of(t, b)) == Some(
            y,
        ),
        at(t, c + position_piece(x, y).len(), Seq::empty(), rest),
{
    reveal_strlit("position");
    let xs = fmt_int(x as int);
    let ys = fmt_int(y as int);
    let r19 = ys + rest;
    let r18 = seq![','] + r19;
    let r17 = xs + r18;
    let r16 = seq![' '] + r17;
    let r15 = "position"@ + r16;
    assert(position_piece(x, y) + rest =~= seq![' '] + r15);
    lemma_ws1_at(t, c, r15);
    lemma_at_next(t, c, seq![' '], r15);
    lemma_kw_at(t, c + 1, "position"@, r16);
    lemma_at_next(t, c + 1, "position"@, r16);
    let p0 = c + 9;
    lemma_at_next(t, p0, seq![' '], r17);
    lemma_signed_digits_at(t, p0 + 1, x, r18);
    lemma_ws1_at(t, p0, r17);
    let px = p0 + 1;
    lemma_at_next(t, px, xs, r18);
    let pd = px + xs.len();
    lemma_ch_at(t, pd, ',', r19);
    lemma_at_next(t, pd, seq![','], r19);
    lemma_signed_digits_at(t, pd + 1, y, rest);
    lemma_at_next(t, pd + 1, ys, rest);
    let pf = pd + 1 + ys.len();
    assert(grammar::position_group(t, c) == Some((span(px, pd), span(pd + 1, pf), pf)));
    assert(Seq::<char>::empty() + rest =~= rest);
}

#[verifier::spinoff_prover]
proof fn lemma_scale_at(t: Seq<char>, c: int, scale: i64)
    requires
        at(t, c, scale_piece(scale), Seq::empty()),
        scale >= 0,
    ensures
        grammar::scale_group(t, c) matches Some((sp, f)) && f == t.len()
            && text::decimal_milli(text_of(t, sp)) == Some(scale),
{
    reveal_strlit("scale");
    let ss = fmt_milli(scale as int);
    laws::lemma_decimal_milli_round_trip(scale);
    let r22 = seq![' '] + ss;
    let r21 = "scale"@ + r22;
    assert(scale_piece(scale) + Seq::<char>::empty() =~= seq![' '] + r21);
    lemma_ws1_at(t, c, r21);
    lemma_at_next(t, c, seq![' '], r21);
    lemma_kw_at(t, c + 1, "scale"@, r22);
    lemma_at_next(t, c + 1, "scale"@, r22);
    let q0 = c + 6;
    lemma_ws1_at(t, q0, ss);
    lemma_at_next(t, q0, seq![' '], ss);
    assert(ss + Seq::<char>::empty() =~= ss);
    lemma_run1_at(t, q0 + 1, ss, Seq::empty(), Stop::NonDecimal);
    lemma_at_next(t, q0 + 1, ss, Seq::empty());
    let qe = q0 + 1 + ss.len();
    assert(grammar::scale_group(t, c) == Some((span(q0 + 1, qe), qe)));
}

/// What follows an identifier in an output line reads back as its state,
/// mode, position and scale.
#[verifier::spinoff_prover]
proof fn lemma_inline_tail(t: Seq<char>, tk: int, e: int, en: bool, m: OutputMode, x: i32, y: i32, scale: i64)
    requires
        0 <= tk <= e,
        at(t, e, line_tail(en, m, x, y, scale), Seq::empty()),
        m.refresh_mhz >= 0,
        scale >= 0,
    ensures
        grammar::inline_tail(t, tk, e) matches Some(im) && im.token == span(tk, e) && im.enabled
            == en && parse::inline_mode(t, im) == m && (im.position matches Some((a, b))
            && text::parse_i32(text_of(t, a)) == Some(x) && text::parse_i32(text_of(t, b)) == Some(
            y,
        )) && (im.scale matches Some(sp) && text::decimal_milli(text_of(t, sp)) == Some(scale)),
{
    reveal_strlit("position");
    reveal_strlit("scale");
    let st = state_text(en);
    let mp = mode_piece(m);
    let pp = position_piece(x, y);
    let sp = scale_piece(scale);
    assert(line_tail(en, m, x, y, scale) + Seq::<char>::empty() =~= (seq![' '] + st) + (mp + (pp
        + sp)));
    lemma_state_at(t, e, en, mp + (pp + sp));
    let b = e + 1 + st.len();
    assert(Seq::<char>::empty() + (mp + (pp + sp)) =~= mp + (pp + sp));
    assert((pp + sp)[0] == ' ');
    lemma_mode_at(t, b, m, pp + sp);
    let c = b + mp.len();
    assert(Seq::<char>::empty() + (pp + sp) =~= pp + sp);
    assert(sp[0] == ' ');
    lemma_position_at(t, c, x, y, sp);
    let d = c + pp.len();
    assert(Seq::<char>::empty() + sp =~= sp + Seq::<char>::empty());
    lemma_scale_at(t, d, scale);
}

// ---------------------------------------------------------------------
// A whole output line
// ---------------------------------------------------------------------
/// No newline and no brace in `s`.
pub open spec fn plain(s: Seq<char>) -> bool {
    forall|i: int| 0 <= i < s.len() ==> #[trigger] s[i] != '\n' && s[i] != '{' && s[i] != '}'
}

/// An identifier that reads back from an output line: not empty, and
/// without single quote (written escaped, which the reader does not undo),
/// newline or brace.
pub open spec fn readable(id: Seq<char>) -> bool {
    id.len() > 0 && plain(id) && forall|i: int| 0 <= i < id.len() ==> #[trigger] id[i] != '\''
}

/// A profile name that reads back from a header: a readable text without
/// double quote either (written escaped, which the reader does not undo).
pub open spec fn readable_name(name: Seq<char>) -> bool {
    readable(name) && forall|i: int| 0 <= i < name.len() ==> #[trigger] name[i] != '"'
}

#[verifier::spinoff_prover]
proof fn lemma_plain_concat(a: Seq<char>, b: Seq<char>)
    requires
        plain(a),
        plain(b),
    ensures
        plain(a + b),
{
    assert forall|i: int| 0 <= i < (a + b).len() implies #[trigger] (a + b)[i] != '\n' && (a
        + b)[i] != '{' && (a + b)[i] != '}' by {
        if i < a.len() {
            assert((a + b)[i] == a[i]);
        } else {
            assert((a + b)[i] == b[i - a.len()]);
        }
    }
}

#[verifier::spinoff_prover]
proof fn lemma_plain_numbers(m: OutputMode, x: i32, y: i32, scale: i64)
    requires
        m.refresh_mhz >= 0,
        scale >= 0,
    ensures
        plain(fmt_nat(m.width as nat)),
        plain(fmt_nat(m.height as nat)),
        plain(fmt_milli(m.refresh_mhz as int)),
        plain(fmt_int(x as int)),
        plain(fmt_int(y as int)),
        plain(fmt_milli(scale as int)),
        fmt_milli(scale as int).len() > 0,
        !is_ws(fmt_milli(scale as int).last()),
        fmt_milli(scale as int).last() != '\r',
{
    laws::lemma_fmt_nat(m.width as nat);
    laws::lemma_fmt_nat(m.height as nat);
    laws::lemma_decimal_milli_round_trip(m.refresh_mhz);
    laws::lemma_decimal_milli_round_trip(scale);
    laws::lemma_parse_i32_round_trip(x);
    laws::lemma_parse_i32_round_trip(y);
    lemma_fmt_int_plain(x as int);
    lemma_fmt_int_plain(y as int);
    let ss = fmt_milli(scale as int);
    assert(text::is_digit(ss[ss.len() - 1]) || ss[ss.len() - 1] == '.');
}

#[verifier::spinoff_prover]
proof fn lemma_fmt_int_plain(x: int)
    ensures
        plain(fmt_int(x)),
{
    if x < 0 {
        laws::lemma_fmt_nat((-x) as nat);
        lemma_plain_concat(seq!['-'], fmt_nat((-x) as nat));
    } else {
        laws::lemma_fmt_nat(x as nat);
    }
}

/// An output line as the generator writes it, without its newline.
pub open spec fn out_line(sc: ScreenView) -> Seq<char> {
    seq![' ', ' '] + ("output"@ + (seq![' '] + (generate::output_id_text(sc.id) + line_tail(
        sc.enabled,
        sc.selected_mode,
        sc.pos_x,
        sc.pos_y,
        sc.scale_milli,
    ))))
}

#[verifier::spinoff_prover]
proof fn lemma_regroup_word(w: Seq<char>, z: Seq<char>, n: Seq<char>)
    ensures
        (seq![' '] + w + seq![' ']) + (z + n) == (seq![' '] + (w + (seq![' '] + z))) + n,
{
    assert((seq![' '] + w + seq![' ']) + (z + n) =~= (seq![' '] + (w + (seq![' '] + z))) + n);
}

#[verifier::spinoff_prover]
proof fn lemma_regroup_position(w: Seq<char>, x: Seq<char>, y: Seq<char>, v: Seq<char>)
    ensures
        (seq![' '] + w + seq![' ']) + (x + (seq![','] + (y + v))) == (seq![' '] + (w + (seq![' ']
            + (x + (seq![','] + y))))) + v,
{
    assert((seq![' '] + w + seq![' ']) + (x + (seq![','] + (y + v))) =~= (seq![' '] + (w + (seq![
        ' ',
    ] + (x + (seq![','] + y))))) + v);
}

#[verifier::spinoff_prover]
proof fn lemma_regroup_mode(
    w: Seq<char>,
    wd: Seq<char>,
    ht: Seq<char>,
    r: Seq<char>,
    v: Seq<char>,
)
    ensures
        (seq![' '] + w + seq![' ']) + ((wd + seq!['x'] + ht + seq!['@'] + r + seq!['H', 'z']) + v)
            == (seq![' '] + (w + (seq![' '] + (wd + (seq!['x'] + (ht + (seq!['@'] + (r + seq![
            'H',
            'z',
        ])))))))) + v,
{
    assert((seq![' '] + w + seq![' ']) + ((wd + seq!['x'] + ht + seq!['@'] + r + seq!['H', 'z'])
        + v) =~= (seq![' '] + (w + (seq![' '] + (wd + (seq!['x'] + (ht + (seq!['@'] + (r + seq![
        'H',
        'z',
    ])))))))) + v);
}

#[verifier::spinoff_prover]
proof fn lemma_regroup_tail(t: Seq<char>, mp: Seq<char>, pp: Seq<char>, sp: Seq<char>, n: Seq<char>)
    ensures
        seq![' '] + (t + (mp + (pp + (sp + n)))) == (seq![' '] + (t + (mp + (pp + sp)))) + n,
{
    assert(seq![' '] + (t + (mp + (pp + (sp + n)))) =~= (seq![' '] + (t + (mp + (pp + sp)))) + n);
}

#[verifier::spinoff_prover]
proof fn lemma_regroup_head(o: Seq<char>, i: Seq<char>, tail: Seq<char>, n: Seq<char>)
    ensures
        (seq![' ', ' '] + o + seq![' ']) + (i + (tail + n)) == (seq![' ', ' '] + (o + (seq![' ']
            + (i + tail)))) + n,
{
    assert((seq![' ', ' '] + o + seq![' ']) + (i + (tail + n)) =~= (seq![' ', ' '] + (o + (seq![
        ' ',
    ] + (i + tail)))) + n);
}

/// The output line of a screen at its own position and scale is `out_line`
/// and a newline.
#[verifier::spinoff_prover]
pub proof fn lemma_output_line_shape(sc: ScreenView)
    ensures
        generate::output_line(sc, sc.pos_x, sc.pos_y, fmt_milli(sc.scale_milli as int)) == out_line(
            sc,
        ) + seq!['\n'],
{
    let m = sc.selected_mode;
    let a0 = "  output "@;
    let i = generate::output_id_text(sc.id);
    let b = seq![' '];
    let t = state_text(sc.enabled);
    let mm = " mode "@;
    let k = model::kanshi_mode_text(m);
    let p = " position "@;
    let x = fmt_int(sc.pos_x as int);
    let c = seq![','];
    let y = fmt_int(sc.pos_y as int);
    let ss = " scale "@;
    let z = fmt_milli(sc.scale_milli as int);
    let n = seq!['\n'];
    let l1 = a0 + i;
    let l2 = l1 + b;
    let l3 = l2 + t;
    let l4 = l3 + mm;
    let l5 = l4 + k;
    let l6 = l5 + p;
    let l7 = l6 + x;
    let l8 = l7 + c;
    let l9 = l8 + y;
    let l10 = l9 + ss;
    let l11 = l10 + z;
    let r11 = z + n;
    let r10 = ss + r11;
    let r9 = y + r10;
    let r8 = c + r9;
    let r7 = x + r8;
    let r6 = p + r7;
    let r5 = k + r6;
    let r4 = mm + r5;
    let r3 = t + r4;
    let r2 = b + r3;
    let r1 = i + r2;
    assert(generate::output_line(sc, sc.pos_x, sc.pos_y, z) == l11 + n);
    vstd::seq_lib::lemma_concat_associative(l10, z, n);
    vstd::seq_lib::lemma_concat_associative(l9, ss, r11);
    vstd::seq_lib::lemma_concat_associative(l8, y, r10);
    vstd::seq_lib::lemma_concat_associative(l7, c, r9);
    vstd::seq_lib::lemma_concat_associative(l6, x, r8);
    vstd::seq_lib::lemma_concat_associative(l5, p, r7);
    vstd::seq_lib::lemma_concat_associative(l4, k, r6);
    vstd::seq_lib::lemma_concat_associative(l3, mm, r5);
    vstd::seq_lib::lemma_concat_associative(l2, t, r4);
    vstd::seq_lib::lemma_concat_associative(l1, b, r3);
    vstd::seq_lib::lemma_concat_associative(a0, i, r2);
    assert(l11 + n == a0 + r1);
    let sp = scale_piece(sc.scale_milli);
    let pp = position_piece(sc.pos_x, sc.pos_y);
    let mp = mode_piece(m);
    let tail = line_tail(sc.enabled, m, sc.pos_x, sc.pos_y, sc.scale_milli);
    assert(ss == seq![' '] + "scale"@ + seq![' ']) by {
        reveal_strlit(" scale ");
        reveal_strlit("scale");
        assert(ss =~= seq![' '] + "scale"@ + seq![' ']);
    }
    lemma_regroup_word("scale"@, z, n);
    assert(r10 == sp + n);
    assert(p == seq![' '] + "position"@ + seq![' ']) by {
        reveal_strlit(" position ");
        reveal_strlit("position");
        assert(p =~= seq![' '] + "position"@ + seq![' ']);
    }
    lemma_regroup_position("position"@, x, y, sp + n);
    assert(r6 == pp + (sp + n));
    assert(mm == seq![' '] + "mode"@ + seq![' ']) by {
        reveal_strlit(" mode ");
        reveal_strlit("mode");
        assert(mm =~= seq![' '] + "mode"@ + seq![' ']);
    }
    lemma_regroup_mode(
        "mode"@,
        fmt_nat(m.width as nat),
        fmt_nat(m.height as nat),
        fmt_milli(m.refresh_mhz as int),
        pp + (sp + n),
    );
    assert(r4 == mp + (pp + (sp + n)));
    lemma_regroup_tail(t, mp, pp, sp, n);
    assert(r2 == tail + n);
    assert(a0 == seq![' ', ' '] + "output"@ + seq![' ']) by {
        reveal_strlit("  output ");
        reveal_strlit("output");
        assert(a0 =~= seq![' ', ' '] + "output"@ + seq![' ']);
    }
    lemma_regroup_head("output"@, i, tail, n);
}

#[verifier::spinoff_prover]
proof fn lemma_replace_absent(s: Seq<char>, c: char, with: Seq<char>)
    requires
        forall|i: int| 0 <= i < s.len() ==> #[trigger] s[i] != c,
    ensures
        generate::replace_char(s, c, with) == s,
    decreases s.len(),
{
    if s.len() > 0 {
        lemma_replace_absent(s.drop_last(), c, with);
        assert(s.drop_last().push(s.last()) =~= s);
        assert(s.last() == s[s.len() - 1]);
    }
}

/// An identifier, written as an output line writes it, reads back as
/// itself.
#[verifier::spinoff_prover]
pub proof fn lemma_unquote_output_id(id: Seq<char>)
    requires
        readable(id),
    ensures
        grammar::unquote(generate::output_id_text(id)) == Some(id),
{
    if generate::connector_like(id) {
        assert(!is_ws(id[0]) && id[0] != '"' && id[0] != '\'');
        let l = id[id.len() - 1];
        assert(!is_ws(l));
        lemma_trim_exact(id, 0, id.len() as int);
        assert(id.subrange(0, id.len() as int) =~= id);
    } else {
        lemma_replace_absent(id, '\'', seq!['\\', '\'']);
        let q = seq!['\''] + id + seq!['\''];
        lemma_trim_exact(q, 0, q.len() as int);
        assert(q.subrange(0, q.len() as int) =~= q);
        assert(q.subrange(1, q.len() - 1) =~= id);
    }
}

#[verifier::spinoff_prover]
proof fn lemma_count_char_absent(s: Seq<char>, c: char)
    requires
        forall|i: int| 0 <= i < s.len() ==> #[trigger] s[i] != c,
    ensures
        parse::count_char(s, c) == 0,
    decreases s.len(),
{
    if s.len() > 0 {
        lemma_count_char_absent(s.drop_last(), c);
        assert(s.last() == s[s.len() - 1]);
    }
}

#[verifier::spinoff_prover]
proof fn lemma_plain_tail(en: bool, m0: OutputMode, x: i32, y: i32, scale: i64)
    requires
        m0.refresh_mhz >= 0,
        scale >= 0,
    ensures
        plain(line_tail(en, m0, x, y, scale)),
{
    reveal_strlit("enable");
    reveal_strlit("disable");
    reveal_strlit("mode");
    reveal_strlit("position");
    reveal_strlit("scale");
    lemma_plain_numbers(m0, x, y, scale);
    let m = m0;
    lemma_plain_concat(fmt_milli(m.refresh_mhz as int), seq!['H', 'z']);
    lemma_plain_concat(seq!['@'], fmt_milli(m.refresh_mhz as int) + seq!['H', 'z']);
    lemma_plain_concat(fmt_nat(m.height as nat), seq!['@'] + (fmt_milli(m.refresh_mhz as int)
        + seq!['H', 'z']));
    let mh = fmt_nat(m.height as nat) + (seq!['@'] + (fmt_milli(m.refresh_mhz as int) + seq![
        'H',
        'z',
    ]));
    lemma_plain_concat(seq!['x'], mh);
    lemma_plain_concat(fmt_nat(m.width as nat), seq!['x'] + mh);
    lemma_plain_concat(seq![' '], fmt_nat(m.width as nat) + (seq!['x'] + mh));
    lemma_plain_concat("mode"@, seq![' '] + (fmt_nat(m.width as nat) + (seq!['x'] + mh)));
    lemma_plain_concat(seq![' '], "mode"@ + (seq![' '] + (fmt_nat(m.width as nat) + (seq!['x']
        + mh))));
    let ys = fmt_int(y as int);
    let xs = fmt_int(x as int);
    lemma_plain_concat(seq![','], ys);
    lemma_plain_concat(xs, seq![','] + ys);
    lemma_plain_concat(seq![' '], xs + (seq![','] + ys));
    lemma_plain_concat("position"@, seq![' '] + (xs + (seq![','] + ys)));
    lemma_plain_concat(seq![' '], "position"@ + (seq![' '] + (xs + (seq![','] + ys))));
    let ss = fmt_milli(scale as int);
    lemma_plain_concat(seq![' '], ss);
    lemma_plain_concat("scale"@, seq![' '] + ss);
    lemma_plain_concat(seq![' '], "scale"@ + (seq![' '] + ss));
    let pp = position_piece(x, y);
    let sp = scale_piece(scale);
    let mp = mode_piece(m);
    lemma_plain_concat(pp, sp);
    lemma_plain_concat(mp, pp + sp);
    let st = state_text(en);
    lemma_plain_concat(st, mp + (pp + sp));
    lemma_plain_concat(seq![' '], st + (mp + (pp + sp)));
}

/// The token of an output line: read as a run for a connector-like
/// identifier, as a single-quoted string otherwise; either way the line is
/// read from what follows it, and the token unquotes to the identifier.
#[verifier::spinoff_prover]
proof fn lemma_token(core: Seq<char>, id: Seq<char>, tail: Seq<char>)
    requires
        readable(id),
        at(core, 7, generate::output_id_text(id), tail),
        grammar::output_head(core) == Some(7int),
        tail.len() > 0,
        tail[0] == ' ',
    ensures
        grammar::inline_tail(core, 7, 7 + generate::output_id_text(id).len() as int) is Some
            ==> grammar::inline_line(core) == grammar::inline_tail(
            core,
            7,
            7 + generate::output_id_text(id).len() as int,
        ),
        grammar::unquote(text_of(core, span(7, 7 + generate::output_id_text(id).len() as int))) == Some(id),
{
    let idt = generate::output_id_text(id);
    let e: int = 7 + idt.len() as int;
    lemma_at_next(core, 7, idt, tail);
    lemma_unquote_output_id(id);
    if generate::connector_like(id) {
        assert(core[7] == id[0]) by {
            assert(core[7 + 0int] == idt[0]);
        }
        assert(grammar::quoted(core, 7, '\'') is None);
        assert(grammar::quoted(core, 7, '"') is None);
        assert forall|i: int| 0 <= i < idt.len() implies !text::stops(#[trigger] idt[i], Stop::Ws) by {}
        lemma_run1_at(core, 7, idt, tail, Stop::Ws);
    } else {
        lemma_replace_absent(id, '\'', seq!['\\', '\'']);
        assert(idt =~= seq!['\''] + id + seq!['\'']);
        let rest = id + (seq!['\''] + tail);
        assert(idt + tail =~= seq!['\''] + rest);
        lemma_at_next(core, 7, seq!['\''], rest);
        lemma_scan_at(core, 8, id, seq!['\''] + tail, Stop::Char('\''));
        lemma_at_next(core, 8, id, seq!['\''] + tail);
        assert(core[8 + id.len() as int] == '\'') by {
            assert(core.skip(8 + id.len() as int)[0] == '\'');
        }
        assert(grammar::quoted(core, 7, '\'') == Some(e));
    }
}

/// The trimmed output line of a screen: `output`, a space, the id as
/// written, then the rest of the line.
#[verifier::spinoff_prover]
#[verifier::rlimit(50)]
proof fn lemma_core_shape(sc: ScreenView)
    requires
        readable(sc.id),
        out_line(sc).len() <= usize::MAX,
    ensures
        ({
            let core = out_line(sc).skip(2);
            let idt = generate::output_id_text(sc.id);
            let tail = line_tail(sc.enabled, sc.selected_mode, sc.pos_x, sc.pos_y, sc.scale_milli);
            &&& grammar::output_head(core) == Some(7int)
            &&& at(core, 7, idt, tail)
            &&& at(core, 7 + idt.len() as int, tail, Seq::empty())
            &&& tail.len() > 0
            &&& tail[0] == ' '
        }),
{
    reveal_strlit("output");
    let idt = generate::output_id_text(sc.id);
    let tail = line_tail(sc.enabled, sc.selected_mode, sc.pos_x, sc.pos_y, sc.scale_milli);
    let core = "output"@ + (seq![' '] + (idt + tail));
    assert(out_line(sc).skip(2) =~= core);
    if generate::connector_like(sc.id) {
        assert(idt == sc.id);
    } else {
        lemma_replace_absent(sc.id, '\'', seq!['\\', '\'']);
        assert(idt =~= seq!['\''] + sc.id + seq!['\'']);
    }
    assert(idt.len() > 0 && !is_ws(idt[0]));
    assert(core.skip(0) =~= "output"@ + (seq![' '] + (idt + tail)));
    assert(core[0] == 'o');
    lemma_scan_to(core, 0, 0, Stop::NonWs);
    lemma_kw_at(core, 0, "output"@, seq![' '] + (idt + tail));
    lemma_at_next(core, 0, "output"@, seq![' '] + (idt + tail));
    lemma_ws1_at(core, 6, idt + tail);
    lemma_at_next(core, 6, seq![' '], idt + tail);
    lemma_at_next(core, 7, idt, tail);
    assert(tail + Seq::<char>::empty() =~= tail);
}

/// The trimmed output line of a screen is an inline declaration that gives
/// back the screen's id, state, mode, position and scale.
#[verifier::spinoff_prover]
#[verifier::rlimit(50)]
proof fn lemma_read_core(sc: ScreenView, mirrors: parse::Entries)
    requires
        readable(sc.id),
        sc.selected_mode.refresh_mhz >= 0,
        sc.scale_milli >= 0,
        out_line(sc).len() <= usize::MAX,
    ensures
        grammar::inline_line(out_line(sc).skip(2)) matches Some(im) && parse::inline_screen(
            out_line(sc).skip(2),
            im,
            Seq::empty(),
            mirrors,
        ) == Some(
            parse::screen_view(
                sc.id,
                sc.enabled,
                sc.selected_mode,
                sc.pos_x,
                sc.pos_y,
                sc.scale_milli,
                mirrors,
            ),
        ),
{
    let core = out_line(sc).skip(2);
    let idt = generate::output_id_text(sc.id);
    let tail = line_tail(sc.enabled, sc.selected_mode, sc.pos_x, sc.pos_y, sc.scale_milli);
    lemma_core_shape(sc);
    let e: int = 7 + idt.len() as int;
    lemma_inline_tail(core, 7, e, sc.enabled, sc.selected_mode, sc.pos_x, sc.pos_y, sc.scale_milli);
    lemma_token(core, sc.id, tail);
}

/// The output line of a screen is plain, without braces, and trims to the
/// text after its two spaces of indentation.
#[verifier::spinoff_prover]
#[verifier::rlimit(100)]
proof fn lemma_line_plain(sc: ScreenView)
    requires
        readable(sc.id),
        sc.selected_mode.refresh_mhz >= 0,
        sc.scale_milli >= 0,
        out_line(sc).len() <= usize::MAX,
    ensures
        plain(out_line(sc)),
        parse::count_char(out_line(sc), '{') == 0,
        parse::count_char(out_line(sc), '}') == 0,
        out_line(sc).len() > 2,
        out_line(sc)[0] == ' ' && out_line(sc)[1] == ' ' && out_line(sc)[2] == 'o',
        text::trim(out_line(sc)) == out_line(sc).skip(2),
{
    reveal_strlit("output");
    let idt = generate::output_id_text(sc.id);
    let tail = line_tail(sc.enabled, sc.selected_mode, sc.pos_x, sc.pos_y, sc.scale_milli);
    let core = "output"@ + (seq![' '] + (idt + tail));
    let l = out_line(sc);
    assert(l == seq![' ', ' '] + core);
    lemma_plain_numbers(sc.selected_mode, sc.pos_x, sc.pos_y, sc.scale_milli);
    if generate::connector_like(sc.id) {
        assert(idt == sc.id);
    } else {
        lemma_replace_absent(sc.id, '\'', seq!['\\', '\'']);
        assert(idt =~= seq!['\''] + sc.id + seq!['\'']);
        lemma_plain_concat(seq!['\''], sc.id);
        lemma_plain_concat(seq!['\''] + sc.id, seq!['\'']);
    }
    lemma_plain_tail(sc.enabled, sc.selected_mode, sc.pos_x, sc.pos_y, sc.scale_milli);
    lemma_plain_concat(idt, tail);
    lemma_plain_concat(seq![' '], idt + tail);
    lemma_plain_concat("output"@, seq![' '] + (idt + tail));
    lemma_plain_concat(seq![' ', ' '], core);
    lemma_count_char_absent(l, '{');
    lemma_count_char_absent(l, '}');
    let ss = fmt_milli(sc.scale_milli as int);
    assert(l.last() == ss.last()) by {
        assert(tail.last() == ss.last());
        assert(core.last() == tail.last());
    }
    assert(l[2] == 'o');
    lemma_trim_exact(l, 2, l.len() as int);
    assert(l.subrange(2, l.len() as int) =~= l.skip(2));
}

/// The output line of a screen is one clean line without braces, indented
/// by two spaces, that is neither blank nor a comment nor an `exec` line.
#[verifier::spinoff_prover]
#[verifier::rlimit(50)]
proof fn lemma_line_facts(sc: ScreenView)
    requires
        readable(sc.id),
        sc.selected_mode.refresh_mhz >= 0,
        sc.scale_milli >= 0,
        out_line(sc).len() <= usize::MAX,
    ensures
        clean_line(out_line(sc)),
        plain(out_line(sc)),
        parse::count_char(out_line(sc), '{') == 0,
        parse::count_char(out_line(sc), '}') == 0,
        out_line(sc).len() > 2,
        out_line(sc)[0] == ' ' && out_line(sc)[1] == ' ' && out_line(sc)[2] == 'o',
        grammar::mirror_comment(out_line(sc)) is None,
        text::trim(out_line(sc)) == out_line(sc).skip(2),
        text::trim(out_line(sc)).len() > 0,
        !text::starts_with(text::trim(out_line(sc)), "#"@),
        !text::starts_with(text::trim(out_line(sc)), "exec "@),
{
    reveal_strlit("#");
    reveal_strlit("exec ");
    let l = out_line(sc);
    lemma_line_plain(sc);
    let core = l.skip(2);
    assert(core[0] == 'o');
    lemma_kw_not_at(core, 0, "#"@);
    lemma_kw_not_at(core, 0, "exec "@);
    assert(l.skip(0) =~= seq![' ', ' '] + core);
    lemma_scan_at(l, 0, seq![' ', ' '], core, Stop::NonWs);
    assert(grammar::mirror_comment(l) is None);
}

/// What the reading of a profile body needs of the output line of a screen
/// that mirrors none: it is one clean line, without braces, that is neither
/// blank nor a comment nor an `exec` line, whose trimmed text is an inline
/// declaration giving back the screen's id, state, mode, position and
/// scale.
#[verifier::spinoff_prover]
pub proof fn lemma_read_output_line(sc: ScreenView, mirrors: parse::Entries)
    requires
        readable(sc.id),
        sc.selected_mode.refresh_mhz >= 0,
        sc.scale_milli >= 0,
        out_line(sc).len() <= usize::MAX,
    ensures
        clean_line(out_line(sc)),
        plain(out_line(sc)),
        parse::count_char(out_line(sc), '{') == 0,
        parse::count_char(out_line(sc), '}') == 0,
        out_line(sc).len() > 2,
        out_line(sc)[0] == ' ' && out_line(sc)[1] == ' ' && out_line(sc)[2] == 'o',
        grammar::mirror_comment(out_line(sc)) is None,
        text::trim(out_line(sc)).len() > 0,
        !text::starts_with(text::trim(out_line(sc)), "#"@),
        !text::starts_with(text::trim(out_line(sc)), "exec "@),
        grammar::inline_line(text::trim(out_line(sc))) matches Some(im) && parse::inline_screen(
            text::trim(out_line(sc)),
            im,
            Seq::empty(),
            mirrors,
        ) == Some(
            parse::screen_view(
                sc.id,
                sc.enabled,
                sc.selected_mode,
                sc.pos_x,
                sc.pos_y,
                sc.scale_milli,
                mirrors,
            ),
        ),
{
    lemma_line_facts(sc);
    lemma_read_core(sc, mirrors);
}

// ---------------------------------------------------------------------
// Header and notification lines
// ---------------------------------------------------------------------

/// The header line of a profile block.
pub open spec fn header_line(name: Seq<char>) -> Seq<char> {
    "profile"@ + (seq![' '] + (seq!['"'] + (name + seq!['"', '{'])))
}

/// The notification line of a profile block.
pub open spec fn exec_line(name: Seq<char>) -> Seq<char> {
    "  exec notify-send \""@ + name + seq!['"']
}

#[verifier::spinoff_prover]
proof fn lemma_screen_text(all: Seq<ScreenView>, sc: ScreenView)
    requires
        generate::mirror_of(all, sc) is None,
    ensures
        generate::screen_text(all, sc) == out_line(sc) + seq!['\n'],
{
    lemma_output_line_shape(sc);
}

#[verifier::spinoff_prover]
proof fn lemma_joined_one(l: Seq<char>)
    ensures
        joined(seq![l]) == l + seq!['\n'],
{
    assert(seq![l].drop_first() =~= Seq::<Seq<char>>::empty());
    assert(joined(Seq::<Seq<char>>::empty()) =~= Seq::<char>::empty());
    assert(joined(seq![l]) =~= l + seq!['\n']);
}

/// The header of a profile block reads as a header with the profile's name
/// between quotes, and opens a profile.
#[verifier::spinoff_prover]
proof fn lemma_header(t: Seq<char>, o: int, name: Seq<char>, rest: Seq<char>)
    requires
        readable_name(name),
        at(t, o, header_line(name), rest),
    ensures
        grammar::header_at(t, o) == Some(
            (span(o + 8, o + 10 + name.len() as int), o + 10 + name.len() as int),
        ),
        o == 0 && rest.len() == 0 ==> grammar::profile_start(t),
        grammar::unquote(text_of(t, span(o + 8, o + 10 + name.len() as int))) == Some(name),
        t[o + 10 + name.len() as int] == '{',
        t.len() == o + 11 + name.len() + rest.len(),
        skip_ws(t, o) == o,
        parse::header_line_start(t, o) == o,
{
    reveal_strlit("profile");
    let m: int = name.len() as int;
    let r3 = seq!['"'] + (name + (seq!['"', '{'] + rest));
    let r2 = seq![' '] + r3;
    assert(header_line(name) + rest =~= "profile"@ + r2);
    assert(t[o] == 'p') by {
        lemma_at_next(t, o, header_line(name), rest);
        assert(t[o + 0] == header_line(name)[0]);
    }
    lemma_scan_to(t, o, o, Stop::NonWs);
    lemma_kw_at(t, o, "profile"@, r2);
    lemma_at_next(t, o, "profile"@, r2);
    lemma_ws1_at(t, o + 7, r3);
    lemma_at_next(t, o + 7, seq![' '], r3);
    lemma_at_next(t, o + 8, seq!['"'], name + (seq!['"', '{'] + rest));
    assert(t[o + 8] == '"') by {
        assert(t[o + 8 + 0] == '"');
    }
    assert forall|i: int| 0 <= i < name.len() implies !text::stops(#[trigger] name[i], Stop::Quote) by {}
    lemma_scan_at(t, o + 9, name, seq!['"', '{'] + rest, Stop::Quote);
    lemma_at_next(t, o + 9, name, seq!['"', '{'] + rest);
    lemma_at_next(t, o + 9 + m, seq!['"', '{'], rest);
    assert(t[o + 9 + m] == '"') by {
        assert(t[o + 9 + m + 0] == '"');
    }
    assert(t[o + 10 + m] == '{') by {
        assert(t[o + 9 + m + 1] == '{');
    }
    assert(grammar::profile_name_at(t, o + 8) == Some(o + 10 + m));
    lemma_scan_to(t, o + 10 + m, o + 10 + m, Stop::NonWs);
    assert(grammar::ch(t, o + 10 + m, '{') == Some(o + 11 + m));
    // the name token unquotes to the name
    let tok = seq!['"'] + name + seq!['"'];
    assert(text_of(t, span(o + 8, o + 10 + m)) =~= tok) by {
        assert forall|i: int| 0 <= i < tok.len() implies #[trigger] text_of(t, span(o + 8, o + 10 + m))[i]
            == tok[i] by {
            if i == 0 {
            } else if i <= m {
                assert(t[o + 9 + (i - 1)] == name[i - 1]);
            }
        }
    }
    lemma_trim_exact(tok, 0, tok.len() as int);
    assert(tok.subrange(0, tok.len() as int) =~= tok);
    assert(tok.subrange(1, tok.len() - 1) =~= name);
}

/// The header line is clean.
#[verifier::spinoff_prover]
proof fn lemma_header_line_clean(name: Seq<char>)
    requires
        readable_name(name),
    ensures
        clean_line(header_line(name)),
{
    reveal_strlit("profile");
    let h = header_line(name);
    assert(h.last() == '{');
    assert forall|i: int| 0 <= i < h.len() implies #[trigger] h[i] != '\n' by {
        if 9 <= i < 9 + name.len() {
            assert(h[i] == name[i - 9]);
        }
    }
}

#[verifier::spinoff_prover]
proof fn lemma_skip_plain(ls: Seq<Seq<char>>, i: int, k: int)
    requires
        0 <= i <= k < ls.len(),
        forall|j: int| i <= j < k ==> plain(#[trigger] ls[j]),
    ensures
        parse::skip_block(ls, i, 1) == parse::skip_block(ls, k, 1),
    decreases k - i,
{
    if i < k {
        lemma_count_char_absent(ls[i], '{');
        lemma_count_char_absent(ls[i], '}');
        lemma_skip_plain(ls, i + 1, k);
    }
}

#[verifier::spinoff_prover]
proof fn lemma_alias_first(ls: Seq<Seq<char>>)
    requires
        ls.len() > 0,
        text::trim(ls[0]).len() > 0,
        !text::starts_with(text::trim(ls[0]), "#"@),
        !text::starts_with(text::trim(ls[0]), "include "@),
        grammar::profile_start(text::trim(ls[0])),
        parse::skip_block(ls, 1, 1) == ls.len(),
    ensures
        parse::alias_scan(ls, 0) == Some(Seq::<(Seq<char>, Seq<char>)>::empty()),
{
    assert(parse::alias_scan(ls, ls.len() as int) == Some(Seq::<(Seq<char>, Seq<char>)>::empty()));
}

// ---------------------------------------------------------------------
// The body of the block
// ---------------------------------------------------------------------

/// No brace.
pub open spec fn braceless(s: Seq<char>) -> bool {
    forall|i: int| 0 <= i < s.len() ==> #[trigger] s[i] != '{' && s[i] != '}'
}

#[verifier::spinoff_prover]
proof fn lemma_joined_braceless(ls: Seq<Seq<char>>)
    requires
        forall|j: int| 0 <= j < ls.len() ==> plain(#[trigger] ls[j]),
    ensures
        braceless(joined(ls)),
    decreases ls.len(),
{
    if ls.len() > 0 {
        assert forall|j: int| 0 <= j < ls.drop_first().len() implies plain(#[trigger] ls.drop_first()[j]) by {
            assert(ls.drop_first()[j] == ls[j + 1]);
        }
        lemma_joined_braceless(ls.drop_first());
        let a = ls[0] + seq!['\n'];
        let b = joined(ls.drop_first());
        assert(plain(ls[0]));
        assert forall|i: int| 0 <= i < (a + b).len() implies #[trigger] (a + b)[i] != '{' && (a
            + b)[i] != '}' by {
            if i < a.len() {
                assert((a + b)[i] == a[i]);
                if i < ls[0].len() {
                    assert(a[i] == ls[0][i]);
                }
            } else {
                assert((a + b)[i] == b[i - a.len()]);
            }
        }
    }
}

/// The notification line: indented, then `exec `.
#[verifier::spinoff_prover]
proof fn lemma_exec_line(name: Seq<char>)
    requires
        readable_name(name),
    ensures
        clean_line(exec_line(name)),
        plain(exec_line(name)),
        text::trim(exec_line(name)) == exec_line(name).skip(2),
        text::trim(exec_line(name)).len() > 0,
        text::starts_with(text::trim(exec_line(name)), "exec "@),
        grammar::mirror_comment(exec_line(name)) is None,
        skip_ws(exec_line(name), 0) == 2,
        exec_line(name)[2] == 'e',
{
    reveal_strlit("  exec notify-send \"");
    reveal_strlit("exec ");
    let x = exec_line(name);
    assert forall|i: int| 0 <= i < x.len() implies #[trigger] x[i] != '\n' && x[i] != '{' && x[i]
        != '}' by {
        if 20 <= i < 20 + name.len() {
            assert(x[i] == name[i - 20]);
        }
    }
    assert(x.last() == '"');
    lemma_trim_exact(x, 2, x.len() as int);
    assert(x.subrange(2, x.len() as int) =~= x.skip(2));
    assert(x.skip(2).subrange(0, 5) =~= "exec "@);
    lemma_scan_to(x, 0, 2, Stop::NonWs);
}

// ---------------------------------------------------------------------
// Braces and headers
// ---------------------------------------------------------------------
#[verifier::spinoff_prover]
proof fn lemma_brace_close_run(s: Seq<char>, i: int, e: int)
    requires
        0 <= i <= e < s.len(),
        forall|k: int| i <= k < e ==> #[trigger] s[k] != '{' && s[k] != '}',
        s[e] == '}',
    ensures
        parse::brace_close(s, i, 1) == Some(e),
    decreases e - i,
{
    if i < e {
        lemma_brace_close_run(s, i + 1, e);
    }
}

/// A line that cannot start a profile header: its first character that is
/// not whitespace exists and is not `p`.
pub open spec fn quiet(l: Seq<char>) -> bool {
    clean_line(l) && skip_ws(l, 0) < l.len() && l[skip_ws(l, 0)] != 'p'
}

#[verifier::spinoff_prover]
proof fn lemma_header_from_skip(s: Seq<char>, q: int, hi: int)
    requires
        1 <= q <= hi <= s.len(),
        forall|r: int| q <= r < hi ==> #[trigger] s[r - 1] != '\n',
    ensures
        parse::header_from(s, q) == parse::header_from(s, hi),
    decreases hi - q,
{
    if q < hi {
        assert(s[q - 1] != '\n');
        lemma_header_from_skip(s, q + 1, hi);
    }
}

#[verifier::spinoff_prover]
proof fn lemma_joined_last(ls: Seq<Seq<char>>)
    requires
        ls.len() > 0,
    ensures
        joined(ls).len() > 0,
        joined(ls).last() == '\n',
    decreases ls.len(),
{
    if ls.len() > 1 {
        lemma_joined_last(ls.drop_first());
    } else {
        assert(ls.drop_first() =~= Seq::<Seq<char>>::empty());
        assert(joined(ls.drop_first()) =~= Seq::<char>::empty());
    }
}

/// No profile header starts at the start of a line from line `j` on, when
/// those lines cannot start one.
#[verifier::spinoff_prover]
proof fn lemma_no_header_from(s: Seq<char>, ls: Seq<Seq<char>>, j: int)
    requires
        s == joined(ls),
        1 <= j <= ls.len(),
        forall|k: int| j <= k < ls.len() ==> quiet(#[trigger] ls[k]),
    ensures
        parse::header_from(s, joined(ls.take(j)).len() as int) is None,
    decreases ls.len() - j,
{
    reveal_strlit("profile");
    let q = joined(ls.take(j)).len() as int;
    assert(ls =~= ls.take(j) + ls.skip(j));
    lemma_joined_concat(ls.take(j), ls.skip(j));
    if j == ls.len() {
        assert(ls.skip(j) =~= Seq::<Seq<char>>::empty());
        assert(joined(ls.skip(j)) =~= Seq::<char>::empty());
        assert(q == s.len());
        assert(grammar::header_at(s, q) is None) by {
            assert(!text::occurs_at(s, skip_ws(s, q), "profile"@)) by {
                text::lemma_skip_ws(s, q);
            }
        }
        assert(parse::header_from(s, q + 1) is None);
        assert(parse::header_from(s, q) is None);
    } else {
        let l = ls[j];
        assert(quiet(l));
        let rest = joined(ls.skip(j + 1));
        assert(ls.skip(j).drop_first() =~= ls.skip(j + 1));
        assert(joined(ls.skip(j)) =~= l + (seq!['\n'] + rest));
        assert(s.skip(q) =~= l + (seq!['\n'] + rest));
        lemma_joined_last(ls.take(j));
        assert(s[q - 1] == '\n') by {
            assert(s[q - 1] == joined(ls.take(j))[q - 1]);
        }
        // the line's first non-blank character
        let k = skip_ws(l, 0);
        text::lemma_skip_ws(l, 0);
        assert forall|i: int| 0 <= i < l.len() implies #[trigger] s[q + i] == l[i] by {
            assert(s.skip(q)[i] == l[i]);
        }
        assert forall|r: int| q <= r < q + k implies !text::stops(#[trigger] s[r], Stop::NonWs) by {
            assert(s[q + (r - q)] == l[r - q]);
        }
        assert(s[q + k] == l[k]);
        lemma_scan_to(s, q, q + k, Stop::NonWs);
        lemma_kw_not_at(s, q + k, "profile"@);
        assert(grammar::header_at(s, q) is None);
        // the rest of the line
        let q2 = q + l.len() + 1;
        assert(ls.take(j + 1) =~= ls.take(j) + seq![l]);
        lemma_joined_concat(ls.take(j), seq![l]);
        lemma_joined_one(l);
        assert(q2 == joined(ls.take(j + 1)).len());
        assert forall|r: int| q + 1 <= r < q2 implies #[trigger] s[r - 1] != '\n' by {
            assert(s[q + (r - 1 - q)] == l[r - 1 - q]);
        }
        assert(parse::line_start(s, q));
        assert(parse::header_from(s, q) == parse::header_from(s, q + 1));
        lemma_header_from_skip(s, q + 1, q2);
        lemma_no_header_from(s, ls, j + 1);
    }
}

// ---------------------------------------------------------------------
// Mirroring screens
// ---------------------------------------------------------------------
/// The mirror comment written before the output line of a screen `id` that
/// mirrors the screen `tid` (for ids without quotes, which it writes as they
/// are).
pub open spec fn comment_line(id: Seq<char>, tid: Seq<char>) -> Seq<char> {
    "  # kanshiui: mirror id='"@ + id + "' target='"@ + tid + seq!['\'']
}

/// The scale, in thousandths, that the generator writes for a screen fitted
/// into `t` (see `generate::mirror_scale_text`); the fit must be bounded.
pub open spec fn mirror_scale_milli(sc: ScreenView, t: ScreenView) -> int {
    let ts = generate::target_scale(t);
    match generate::fit(sc, t) {
        generate::Fit::Width => generate::round_half_up(
            sc.selected_mode.width as int * ts,
            t.selected_mode.width as int,
        ),
        generate::Fit::Height => generate::round_half_up(
            sc.selected_mode.height as int * ts,
            t.selected_mode.height as int,
        ),
        _ => 0,
    }
}

/// A mirroring screen as its output line writes it: at the position and
/// scale that fit it into its target.
pub open spec fn fitted(sc: ScreenView, t: ScreenView) -> ScreenView {
    ScreenView {
        pos_x: generate::mirror_x(sc, t),
        pos_y: generate::mirror_y(sc, t),
        scale_milli: mirror_scale_milli(sc, t) as i64,
        ..sc
    }
}

/// ` target='TID'` of a mirror comment.
pub open spec fn comment_target(tid: Seq<char>) -> Seq<char> {
    seq![' '] + ("target='"@ + (tid + seq!['\'']))
}

/// `id='ID'` and the target of a mirror comment.
pub open spec fn comment_ids(id: Seq<char>, tid: Seq<char>) -> Seq<char> {
    "id='"@ + (id + (seq!['\''] + comment_target(tid)))
}

/// `# kanshiui: mirror ` and the ids of a mirror comment.
pub open spec fn comment_rest(id: Seq<char>, tid: Seq<char>) -> Seq<char> {
    seq!['#'] + (seq![' '] + ("kanshiui:"@ + (seq![' '] + ("mirror"@ + (seq![' '] + comment_ids(
        id,
        tid,
    ))))))
}

#[verifier::spinoff_prover]
proof fn lemma_comment_regroup(id: Seq<char>, tid: Seq<char>)
    ensures
        comment_line(id, tid) == seq![' ', ' '] + comment_rest(id, tid),
{
    reveal_strlit("  # kanshiui: mirror id='");
    reveal_strlit("' target='");
    reveal_strlit("kanshiui:");
    reveal_strlit("mirror");
    reveal_strlit("id='");
    reveal_strlit("target='");
    let a = "  # kanshiui: mirror id='"@;
    let b = "' target='"@;
    let head = seq!['#'] + (seq![' '] + ("kanshiui:"@ + (seq![' '] + ("mirror"@ + seq![' ']))));
    assert(a =~= seq![' ', ' '] + (head + "id='"@));
    assert(b =~= seq!['\''] + (seq![' '] + "target='"@));
    let ids = comment_ids(id, tid);
    assert(comment_rest(id, tid) =~= head + ids);
    assert(comment_line(id, tid) =~= seq![' ', ' '] + (head + ids));
}

/// A mirror comment is a clean line without braces, trimmed to a comment.
#[verifier::spinoff_prover]
proof fn lemma_comment_plain(id: Seq<char>, tid: Seq<char>)
    requires
        readable_name(id),
        readable_name(tid),
    ensures
        clean_line(comment_line(id, tid)),
        plain(comment_line(id, tid)),
        comment_line(id, tid)[0] == ' ',
        comment_line(id, tid)[1] == ' ',
        comment_line(id, tid)[2] == '#',
        text::trim(comment_line(id, tid)) == comment_line(id, tid).skip(2),
        text::starts_with(text::trim(comment_line(id, tid)), "#"@),
{
    reveal_strlit("  # kanshiui: mirror id='");
    reveal_strlit("' target='");
    reveal_strlit("#");
    let c = comment_line(id, tid);
    let m = id.len() as int;
    let k = tid.len() as int;
    assert forall|i: int| 0 <= i < c.len() implies #[trigger] c[i] != '\n' && c[i] != '{' && c[i]
        != '}' by {
        if 25 <= i < 25 + m {
            assert(c[i] == id[i - 25]);
        } else if 35 + m <= i < 35 + m + k {
            assert(c[i] == tid[i - 35 - m]);
        }
    }
    assert(c[2] == '#');
    assert(c.last() == '\'');
    lemma_trim_exact(c, 2, c.len() as int);
    assert(c.subrange(2, c.len() as int) =~= c.skip(2));
    assert(c.skip(2).subrange(0, 1) =~= "#"@);
}

/// The mirror comment of a screen reads back as its id and its target's.
#[verifier::spinoff_prover]
#[verifier::rlimit(100)]
pub proof fn lemma_comment_reads_back(id: Seq<char>, tid: Seq<char>)
    requires
        readable_name(id),
        readable_name(tid),
        comment_line(id, tid).len() <= usize::MAX,
    ensures
        grammar::mirror_comment(comment_line(id, tid)) matches Some((a, b)) && text_of(
            comment_line(id, tid),
            a,
        ) == id && text_of(comment_line(id, tid), b) == tid,
{
    reveal_strlit("kanshiui:");
    reveal_strlit("mirror");
    reveal_strlit("id='");
    reveal_strlit("target='");
    reveal_strlit("#");
    let c = comment_line(id, tid);
    lemma_comment_regroup(id, tid);
    let r13 = tid + seq!['\''];
    let r12 = "target='"@ + r13;
    let r11 = seq![' '] + r12;
    assert(r11 == comment_target(tid));
    let r10 = seq!['\''] + r11;
    let r9 = id + r10;
    let r8 = "id='"@ + r9;
    assert(r8 == comment_ids(id, tid));
    let r7 = seq![' '] + r8;
    let r6 = "mirror"@ + r7;
    let r5 = seq![' '] + r6;
    let r4 = "kanshiui:"@ + r5;
    let r3 = seq![' '] + r4;
    let r2 = seq!['#'] + r3;
    assert(r2 == comment_rest(id, tid));
    assert(c.skip(0) =~= seq![' ', ' '] + r2);
    lemma_scan_at(c, 0, seq![' ', ' '], r2, Stop::NonWs);
    lemma_at_step(c, 0, seq![' ', ' '], r2);
    lemma_ch_at(c, 2, '#', r3);
    lemma_at_step(c, 2, seq!['#'], r3);
    lemma_scan_at(c, 3, seq![' '], r4, Stop::NonWs);
    lemma_at_step(c, 3, seq![' '], r4);
    lemma_kw_at(c, 4, "kanshiui:"@, r5);
    lemma_at_step(c, 4, "kanshiui:"@, r5);
    lemma_scan_at(c, 13, seq![' '], r6, Stop::NonWs);
    lemma_at_step(c, 13, seq![' '], r6);
    lemma_kw_at(c, 14, "mirror"@, r7);
    lemma_at_step(c, 14, "mirror"@, r7);
    lemma_ws1_at(c, 20, r8);
    lemma_at_step(c, 20, seq![' '], r8);
    lemma_kw_at(c, 21, "id='"@, r9);
    lemma_at_step(c, 21, "id='"@, r9);
    let m = id.len() as int;
    assert forall|i: int| 0 <= i < id.len() implies !text::stops(#[trigger] id[i], Stop::Char('\'')) by {}
    lemma_run1_at(c, 25, id, r10, Stop::Char('\''));
    lemma_at_step(c, 25, id, r10);
    lemma_ch_at(c, 25 + m, '\'', r11);
    lemma_at_step(c, 25 + m, seq!['\''], r11);
    lemma_ws1_at(c, 26 + m, r12);
    lemma_at_step(c, 26 + m, seq![' '], r12);
    lemma_kw_at(c, 27 + m, "target='"@, r13);
    lemma_at_step(c, 27 + m, "target='"@, r13);
    let k = tid.len() as int;
    assert forall|i: int| 0 <= i < tid.len() implies !text::stops(#[trigger] tid[i], Stop::Char('\'')) by {}
    lemma_run1_at(c, 35 + m, tid, seq!['\''], Stop::Char('\''));
    lemma_at_step(c, 35 + m, tid, seq!['\'']);
    assert(seq!['\''] =~= seq!['\''] + Seq::<char>::empty());
    lemma_ch_at(c, 35 + m + k, '\'', Seq::empty());
    lemma_at_step(c, 35 + m + k, seq!['\''], Seq::empty());
    assert(skip_ws(c, 36 + m + k) == c.len());
}

proof fn lemma_replace_absent_dq(s: Seq<char>)
    requires
        forall|i: int| 0 <= i < s.len() ==> #[trigger] s[i] != '"',
    ensures
        generate::dq_to_sq(s) == s,
{
    lemma_replace_absent(s, '"', seq!['\'']);
}

/// What the generator writes for a screen that mirrors another of the
/// profile, fitted with a bounded scale: its mirror comment, then its
/// output line at the fitted position and scale (a scale that is not
/// negative).
#[verifier::spinoff_prover]
pub proof fn lemma_mirror_shape(all: Seq<ScreenView>, sc: ScreenView)
    requires
        generate::mirror_of(all, sc) matches Some((tid, t)) && !(generate::fit(sc, t) is Unbounded)
            && mirror_scale_milli(sc, t) <= i64::MAX && readable_name(tid),
        readable_name(sc.id),
    ensures
        ({
            let (tid, t) = generate::mirror_of(all, sc)->0;
            &&& generate::screen_text(all, sc) == comment_line(sc.id, tid) + seq!['\n'] + out_line(
                fitted(sc, t),
            ) + seq!['\n']
            &&& 0 <= mirror_scale_milli(sc, t)
            &&& fitted(sc, t).scale_milli == mirror_scale_milli(sc, t)
        }),
{
    let (tid, t) = generate::mirror_of(all, sc)->0;
    let f = fitted(sc, t);
    let v = mirror_scale_milli(sc, t);
    assert(v >= 0) by {
        let ts = generate::target_scale(t);
        let sw = sc.selected_mode.width as int;
        let sh = sc.selected_mode.height as int;
        let tw = t.selected_mode.width as int;
        let th = t.selected_mode.height as int;
        match generate::fit(sc, t) {
            generate::Fit::Width => {
                assert(0 <= 2 * (sw * ts) + tw) by (nonlinear_arith)
                    requires
                        10 * (sw * ts) >= tw,
                        tw > 0,
                ;
                assert((2 * (sw * ts) + tw) / (2 * tw) >= 0) by (nonlinear_arith)
                    requires
                        2 * (sw * ts) + tw >= 0,
                        tw > 0,
                ;
            },
            generate::Fit::Height => {
                assert(0 <= 2 * (sh * ts) + th) by (nonlinear_arith)
                    requires
                        10 * (sh * ts) >= th,
                        th > 0,
                ;
                assert((2 * (sh * ts) + th) / (2 * th) >= 0) by (nonlinear_arith)
                    requires
                        2 * (sh * ts) + th >= 0,
                        th > 0,
                ;
            },
            _ => {},
        }
    }
    assert(generate::mirror_scale_text(sc, t) == fmt_milli(v)) by {
        if generate::fit(sc, t) is Floor {
            assert(fmt_nat(0) =~= seq!['0']);
            assert(fmt_milli(0) =~= seq!['0']);
        }
    }
    lemma_output_line_shape(f);
    assert(generate::output_line(f, f.pos_x, f.pos_y, fmt_milli(f.scale_milli as int))
        == generate::output_line(sc, generate::mirror_x(sc, t), generate::mirror_y(sc, t), fmt_milli(v)));
    lemma_replace_absent_dq(sc.id);
    lemma_replace_absent_dq(tid);
    reveal_strlit("'\n");
    assert("'\n"@ == seq!['\''] + seq!['\n']);
    assert(generate::screen_text(all, sc) =~= comment_line(sc.id, tid) + seq!['\n'] + out_line(f)
        + seq!['\n']);
}

/// A screen that mirrors another of the profile, fitted with a bounded
/// scale, is written as its mirror comment and then its output line at the
/// fitted position and scale; the comment reads back as its id and target's,
/// and the output line as the screen at that position and scale.
#[verifier::spinoff_prover]
pub proof fn lemma_mirror_reads_back(all: Seq<ScreenView>, sc: ScreenView, mirrors: parse::Entries)
    requires
        generate::mirror_of(all, sc) matches Some((tid, t)) && !(generate::fit(sc, t) is Unbounded)
            && mirror_scale_milli(sc, t) <= i64::MAX && readable_name(tid),
        readable_name(sc.id),
        sc.selected_mode.refresh_mhz >= 0,
        generate::screen_text(all, sc).len() <= usize::MAX,
    ensures
        ({
            let (tid, t) = generate::mirror_of(all, sc)->0;
            let f = fitted(sc, t);
            &&& generate::screen_text(all, sc) == comment_line(sc.id, tid) + seq!['\n'] + out_line(f)
                + seq!['\n']
            &&& grammar::mirror_comment(comment_line(sc.id, tid)) matches Some((a, b)) && text_of(
                comment_line(sc.id, tid),
                a,
            ) == sc.id && text_of(comment_line(sc.id, tid), b) == tid
            &&& grammar::inline_line(text::trim(out_line(f))) matches Some(im)
                && parse::inline_screen(text::trim(out_line(f)), im, Seq::empty(), mirrors) == Some(
                parse::screen_view(
                    sc.id,
                    sc.enabled,
                    sc.selected_mode,
                    generate::mirror_x(sc, t),
                    generate::mirror_y(sc, t),
                    mirror_scale_milli(sc, t) as i64,
                    mirrors,
                ),
            )
        }),
{
    let (tid, t) = generate::mirror_of(all, sc)->0;
    let f = fitted(sc, t);
    lemma_mirror_shape(all, sc);
    assert(comment_line(sc.id, tid).len() <= usize::MAX);
    lemma_comment_reads_back(sc.id, tid);
    assert(out_line(f).len() <= usize::MAX);
    lemma_read_output_line(f, mirrors);
}

// ---------------------------------------------------------------------
// The block of a profile reads back
// ---------------------------------------------------------------------
/// The lines the generator writes for a screen of `all`: its mirror comment
/// and its fitted output line when it mirrors another screen of the
/// profile, its output line otherwise.
pub open spec fn screen_lines(all: Seq<ScreenView>, sc: ScreenView) -> Seq<Seq<char>> {
    match generate::mirror_of(all, sc) {
        Some((tid, t)) => seq![comment_line(sc.id, tid), out_line(fitted(sc, t))],
        None => seq![out_line(sc)],
    }
}

/// The lines written for the first `k` screens.
pub open spec fn flat_lines(all: Seq<ScreenView>, k: int) -> Seq<Seq<char>>
    decreases k,
{
    if k <= 0 {
        Seq::empty()
    } else {
        flat_lines(all, k - 1) + screen_lines(all, all[k - 1])
    }
}

/// The mirror comments written for the first `k` screens: (id, target id)
/// of each screen that mirrors another, in order.
pub open spec fn mirror_list(all: Seq<ScreenView>, k: int) -> parse::Entries
    decreases k,
{
    if k <= 0 {
        Seq::empty()
    } else {
        mirror_list(all, k - 1) + match generate::mirror_of(all, all[k - 1]) {
            Some((tid, _)) => seq![(all[k - 1].id, tid)],
            None => Seq::empty(),
        }
    }
}

/// A screen as its lines read back, the mirror comments of the block being
/// `m`: at the position and scale written for it, with its id standing for
/// its connector name, its mode the only one available, and mirroring as the
/// comments say.
pub open spec fn screen_back(all: Seq<ScreenView>, sc: ScreenView, m: parse::Entries) -> ScreenView {
    match generate::mirror_of(all, sc) {
        Some((_, t)) => parse::screen_view(
            sc.id,
            sc.enabled,
            sc.selected_mode,
            generate::mirror_x(sc, t),
            generate::mirror_y(sc, t),
            mirror_scale_milli(sc, t) as i64,
            m,
        ),
        None => parse::screen_view(
            sc.id,
            sc.enabled,
            sc.selected_mode,
            sc.pos_x,
            sc.pos_y,
            sc.scale_milli,
            m,
        ),
    }
}

/// A screen of `all` whose lines read back: a readable id, a refresh rate
/// that is not negative; when it mirrors another screen of the profile, ids
/// without double quotes (the comment writes them as single ones) and a
/// bounded scale that fits in an `i64`; otherwise a scale that is not
/// negative.
pub open spec fn writable_screen(all: Seq<ScreenView>, sc: ScreenView) -> bool {
    &&& readable(sc.id)
    &&& sc.selected_mode.refresh_mhz >= 0
    &&& match generate::mirror_of(all, sc) {
        Some((tid, t)) => readable_name(sc.id) && readable_name(tid) && !(generate::fit(
            sc,
            t,
        ) is Unbounded) && mirror_scale_milli(sc, t) <= i64::MAX,
        None => sc.scale_milli >= 0,
    }
}

/// A profile whose block reads back: a readable name, and screens whose
/// lines read back.
pub open spec fn writable_profile(p: ProfileView) -> bool {
    &&& readable_name(p.name)
    &&& forall|i: int| 0 <= i < p.screens.len() ==> writable_screen(p.screens, #[trigger] p.screens[i])
}

/// The profile as its block reads back from a text of `n + 1` characters.
pub open spec fn read_back_all(p: ProfileView, n: int) -> ProfileView {
    ProfileView {
        name: p.name,
        screens: p.screens.map_values(
            |sc: ScreenView| screen_back(p.screens, sc, mirror_list(p.screens, p.screens.len() as int)),
        ),
        raw_range: Some((0usize, n as usize)),
    }
}

/// The lines of the block of a profile.
pub open spec fn all_block_lines(p: ProfileView) -> Seq<Seq<char>> {
    seq![header_line(p.name)] + flat_lines(p.screens, p.screens.len() as int) + seq![
        exec_line(p.name),
        "}"@,
    ]
}

/// The lines between the braces of the block.
pub open spec fn all_body_lines(p: ProfileView) -> Seq<Seq<char>> {
    seq![Seq::<char>::empty()] + flat_lines(p.screens, p.screens.len() as int) + seq![exec_line(p.name)]
}

#[verifier::spinoff_prover]
proof fn lemma_screen_lines_text(all: Seq<ScreenView>, sc: ScreenView)
    requires
        writable_screen(all, sc),
    ensures
        generate::screen_text(all, sc) == joined(screen_lines(all, sc)),
{
    match generate::mirror_of(all, sc) {
        Some((tid, t)) => {
            lemma_mirror_shape(all, sc);
            let l = screen_lines(all, sc);
            assert(l.drop_first() =~= seq![out_line(fitted(sc, t))]);
            lemma_joined_one(out_line(fitted(sc, t)));
            assert(joined(l) =~= comment_line(sc.id, tid) + seq!['\n'] + (out_line(fitted(sc, t))
                + seq!['\n']));
        },
        None => {
            lemma_screen_text(all, sc);
            lemma_joined_one(out_line(sc));
        },
    }
}

#[verifier::spinoff_prover]
proof fn lemma_flat_text(all: Seq<ScreenView>, k: int)
    requires
        0 <= k <= all.len(),
        forall|i: int| 0 <= i < all.len() ==> writable_screen(all, #[trigger] all[i]),
    ensures
        generate::screens_text(all, k) == joined(flat_lines(all, k)),
    decreases k,
{
    if k == 0 {
        assert(joined(Seq::<Seq<char>>::empty()) =~= Seq::<char>::empty());
    } else {
        lemma_flat_text(all, k - 1);
        lemma_screen_lines_text(all, all[k - 1]);
        lemma_joined_concat(flat_lines(all, k - 1), screen_lines(all, all[k - 1]));
    }
}

/// The block of a profile is its lines, each followed by a newline.
#[verifier::spinoff_prover]
pub proof fn lemma_all_block_text(p: ProfileView)
    requires
        writable_profile(p),
    ensures
        generate::profile_text(p) == joined(all_block_lines(p)),
        generate::profile_text(p) == header_line(p.name) + joined(all_body_lines(p)) + seq!['}', '\n'],
{
    assert forall|i: int| 0 <= i < p.screens.len() implies writable_screen(
        p.screens,
        #[trigger] p.screens[i],
    ) by {}
    lemma_flat_text(p.screens, p.screens.len() as int);
    let fl = flat_lines(p.screens, p.screens.len() as int);
    lemma_replace_absent(p.name, '"', seq!['\\', '"']);
    let h = header_line(p.name);
    let x = exec_line(p.name);
    let c = "}"@;
    lemma_joined_concat(seq![h] + fl, seq![x, c]);
    lemma_joined_concat(seq![h], fl);
    lemma_joined_one(h);
    lemma_joined_one(c);
    lemma_joined_one(x);
    assert(seq![x, c].drop_first() =~= seq![c]);
    assert(joined(seq![x, c]) =~= x + seq!['\n'] + (c + seq!['\n']));
    let e = Seq::<char>::empty();
    lemma_joined_concat(seq![e] + fl, seq![x]);
    lemma_joined_concat(seq![e], fl);
    lemma_joined_one(e);
    reveal_strlit("profile \"");
    reveal_strlit("\"{\n");
    reveal_strlit("  exec notify-send \"");
    reveal_strlit("\"\n");
    reveal_strlit("}\n");
    reveal_strlit("}");
    reveal_strlit("profile");
    assert(generate::profile_text(p) =~= joined(all_block_lines(p)));
    assert(generate::profile_text(p) =~= h + joined(all_body_lines(p)) + seq!['}', '\n']);
}

/// Where the lines of screen `k` stand among the lines of the first `n`.
#[verifier::spinoff_prover]
proof fn lemma_flat_index(all: Seq<ScreenView>, k: int, n: int)
    requires
        0 <= k < n <= all.len(),
    ensures
        flat_lines(all, k + 1) == flat_lines(all, k) + screen_lines(all, all[k]),
        flat_lines(all, k + 1).len() <= flat_lines(all, n).len(),
        forall|j: int|
            0 <= j < screen_lines(all, all[k]).len() ==> flat_lines(all, n)[flat_lines(all, k).len()
                + j] == #[trigger] screen_lines(all, all[k])[j],
    decreases n - k,
{
    if k + 1 < n {
        lemma_flat_index(all, k, n - 1);
        assert forall|j: int| 0 <= j < screen_lines(all, all[k]).len() implies flat_lines(all, n)[flat_lines(
            all,
            k,
        ).len() + j] == #[trigger] screen_lines(all, all[k])[j] by {
            assert(flat_lines(all, n) == flat_lines(all, n - 1) + screen_lines(all, all[n - 1]));
            assert(flat_lines(all, n)[flat_lines(all, k).len() + j] == flat_lines(all, n - 1)[flat_lines(
                all,
                k,
            ).len() + j]);
        }
    }
}

/// Every line written for the screens is one of the lines of a screen.
#[verifier::spinoff_prover]
proof fn lemma_flat_member(all: Seq<ScreenView>, n: int, i: int)
    requires
        0 <= n <= all.len(),
        0 <= i < flat_lines(all, n).len(),
    ensures
        exists|k: int, j: int|
            0 <= k < n && 0 <= j < screen_lines(all, all[k]).len() && flat_lines(all, n)[i]
                == #[trigger] screen_lines(all, all[k])[j],
    decreases n,
{
    if n > 0 {
        let prev = flat_lines(all, n - 1);
        let sl = screen_lines(all, all[n - 1]);
        if i < prev.len() {
            lemma_flat_member(all, n - 1, i);
            assert(flat_lines(all, n)[i] == prev[i]);
        } else {
            assert(flat_lines(all, n)[i] == sl[i - prev.len()]);
        }
    }
}

/// Each line of the text is shorter than the text.
#[verifier::spinoff_prover]
proof fn lemma_joined_line_len(ls: Seq<Seq<char>>, i: int)
    requires
        0 <= i < ls.len(),
    ensures
        ls[i].len() < joined(ls).len(),
{
    assert(ls =~= ls.take(i) + (seq![ls[i]] + ls.skip(i + 1)));
    lemma_joined_concat(ls.take(i), seq![ls[i]] + ls.skip(i + 1));
    lemma_joined_concat(seq![ls[i]], ls.skip(i + 1));
    lemma_joined_one(ls[i]);
}

/// What the reading needs of each line written for a screen: it is clean,
/// has no brace and cannot start a header; a comment line records the
/// screen's id and target's, an output line declares the screen as it
/// reads back.
pub open spec fn line_reads(l: Seq<char>) -> bool {
    &&& clean_line(l)
    &&& plain(l)
    &&& quiet(l)
    &&& text::trim(l).len() > 0
    &&& !text::starts_with(text::trim(l), "exec "@)
}

#[verifier::spinoff_prover]
proof fn lemma_out_line_reads(sc: ScreenView)
    requires
        readable(sc.id),
        sc.selected_mode.refresh_mhz >= 0,
        sc.scale_milli >= 0,
        out_line(sc).len() <= usize::MAX,
    ensures
        line_reads(out_line(sc)),
{
    lemma_line_facts(sc);
    lemma_scan_to(out_line(sc), 0, 2, Stop::NonWs);
}

#[verifier::spinoff_prover]
#[verifier::rlimit(50)]
proof fn lemma_comment_line_reads(id: Seq<char>, tid: Seq<char>)
    requires
        readable_name(id),
        readable_name(tid),
    ensures
        line_reads(comment_line(id, tid)),
        text::starts_with(text::trim(comment_line(id, tid)), "#"@),
{
    reveal_strlit("exec ");
    reveal_strlit("#");
    let c = comment_line(id, tid);
    lemma_comment_plain(id, tid);
    lemma_scan_to(c, 0, 2, Stop::NonWs);
    assert(text::trim(c)[0] == '#');
    lemma_kw_not_at(text::trim(c), 0, "exec "@);
}

#[verifier::spinoff_prover]
proof fn lemma_screen_lines_read(all: Seq<ScreenView>, sc: ScreenView, bound: int)
    requires
        writable_screen(all, sc),
        forall|j: int| 0 <= j < screen_lines(all, sc).len() ==> (#[trigger] screen_lines(all, sc)[j]).len() <= bound,
        bound <= usize::MAX,
    ensures
        forall|j: int| 0 <= j < screen_lines(all, sc).len() ==> line_reads(#[trigger] screen_lines(all, sc)[j]),
{
    match generate::mirror_of(all, sc) {
        Some((tid, t)) => {
            let f = fitted(sc, t);
            lemma_mirror_shape(all, sc);
            assert(screen_lines(all, sc)[0] == comment_line(sc.id, tid));
            assert(screen_lines(all, sc)[1] == out_line(f));
            lemma_comment_line_reads(sc.id, tid);
            lemma_out_line_reads(f);
        },
        None => {
            assert(screen_lines(all, sc)[0] == out_line(sc));
            lemma_out_line_reads(sc);
        },
    }
}

/// Each line written for the screens reads.
#[verifier::spinoff_prover]
proof fn lemma_flat_lines_read(p: ProfileView)
    requires
        writable_profile(p),
        generate::profile_text(p).len() <= usize::MAX,
    ensures
        forall|i: int|
            0 <= i < flat_lines(p.screens, p.screens.len() as int).len() ==> line_reads(
                #[trigger] flat_lines(p.screens, p.screens.len() as int)[i],
            ),
{
    let n = p.screens.len() as int;
    let fl = flat_lines(p.screens, n);
    lemma_all_block_text(p);
    let ls = all_block_lines(p);
    assert forall|i: int| 0 <= i < fl.len() implies line_reads(#[trigger] fl[i]) by {
        lemma_flat_member(p.screens, n, i);
        let (k, j) = choose|k: int, j: int|
            0 <= k < n && 0 <= j < screen_lines(p.screens, p.screens[k]).len() && fl[i]
                == #[trigger] screen_lines(p.screens, p.screens[k])[j];
        let sc = p.screens[k];
        assert(writable_screen(p.screens, sc));
        assert(ls[i + 1] == fl[i]);
        lemma_joined_line_len(ls, i + 1);
        let sl = screen_lines(p.screens, sc);
        assert forall|jj: int| 0 <= jj < sl.len() implies (#[trigger] sl[jj]).len() <= generate::profile_text(
            p,
        ).len() by {
            lemma_flat_index(p.screens, k, n);
            let ii = flat_lines(p.screens, k).len() + jj;
            assert(fl[ii] == sl[jj]);
            assert(ls[ii + 1] == fl[ii]);
            lemma_joined_line_len(ls, ii + 1);
        }
        lemma_screen_lines_read(p.screens, sc, generate::profile_text(p).len() as int);
    }
}

/// The lines of the block, seen by the reading: clean, without braces but
/// in the header and the last line, none after the header able to start a
/// header.
#[verifier::spinoff_prover]
proof fn lemma_all_block_lines(p: ProfileView)
    requires
        writable_profile(p),
        generate::profile_text(p).len() <= usize::MAX,
    ensures
        forall|j: int| 0 <= j < all_block_lines(p).len() ==> clean_line(#[trigger] all_block_lines(p)[j]),
        forall|j: int| 1 <= j < all_block_lines(p).len() - 1 ==> plain(#[trigger] all_block_lines(p)[j]),
        forall|j: int| 1 <= j < all_block_lines(p).len() ==> quiet(#[trigger] all_block_lines(p)[j]),
        text::lines(generate::profile_text(p)) == all_block_lines(p),
{
    reveal_strlit("}");
    let ls = all_block_lines(p);
    let fl = flat_lines(p.screens, p.screens.len() as int);
    lemma_flat_lines_read(p);
    lemma_header_line_clean(p.name);
    lemma_exec_line(p.name);
    assert(exec_line(p.name)[2] == 'e');
    lemma_scan_to("}"@, 0, 0, Stop::NonWs);
    assert forall|j: int| 0 <= j < ls.len() implies clean_line(#[trigger] ls[j]) && (1 <= j < ls.len()
        - 1 ==> plain(ls[j])) && (1 <= j ==> quiet(ls[j])) by {
        if 1 <= j <= fl.len() {
            assert(ls[j] == fl[j - 1]);
            assert(line_reads(fl[j - 1]));
        } else if j == fl.len() + 1 {
            assert(ls[j] == exec_line(p.name));
        } else if j == fl.len() + 2 {
            assert(ls[j] == "}"@);
        }
    }
    lemma_all_block_text(p);
    lemma_lines_joined(ls);
}

/// The block declares no alias.
#[verifier::spinoff_prover]
proof fn lemma_no_aliases_all(p: ProfileView)
    requires
        writable_profile(p),
        generate::profile_text(p).len() <= usize::MAX,
    ensures
        parse::config_aliases(generate::profile_text(p)) == Some(Seq::<(Seq<char>, Seq<char>)>::empty()),
{
    reveal_strlit("}");
    reveal_strlit("#");
    reveal_strlit("include ");
    reveal_strlit("profile");
    let ls = all_block_lines(p);
    let m = ls.len() as int;
    lemma_all_block_lines(p);
    let h = header_line(p.name);
    assert(h.skip(0) =~= h + Seq::<char>::empty());
    lemma_all_block_text(p);
    lemma_joined_line_len(ls, 0);
    lemma_header(h, 0, p.name, Seq::empty());
    assert(h[0] == 'p');
    assert(h.last() == '{');
    lemma_trim_exact(h, 0, h.len() as int);
    assert(h.subrange(0, h.len() as int) =~= h);
    lemma_kw_not_at(h, 0, "#"@);
    lemma_kw_not_at(h, 0, "include "@);
    lemma_skip_plain(ls, 1, m - 1);
    let c = "}"@;
    assert(ls[m - 1] == c);
    assert(c.drop_last() =~= Seq::<char>::empty());
    assert(parse::count_char(Seq::<char>::empty(), '{') == 0);
    assert(parse::count_char(Seq::<char>::empty(), '}') == 0);
    assert(parse::count_char(c, '{') == 0);
    assert(parse::count_char(c, '}') == 1);
    assert(parse::skip_block(ls, m, 0) == m);
    assert(parse::skip_block(ls, m - 1, 1) == m);
    lemma_alias_first(ls);
}

#[verifier::spinoff_prover]
proof fn lemma_mirror_entries_concat(a: Seq<Seq<char>>, b: Seq<Seq<char>>)
    ensures
        parse::mirror_entries(a + b) == parse::mirror_entries(a) + parse::mirror_entries(b),
    decreases b.len(),
{
    if b.len() == 0 {
        assert(a + b =~= a);
        assert(parse::mirror_entries(b) =~= Seq::<(Seq<char>, Seq<char>)>::empty());
        assert(parse::mirror_entries(a) + parse::mirror_entries(b) =~= parse::mirror_entries(a));
    } else {
        lemma_mirror_entries_concat(a, b.drop_last());
        assert((a + b).drop_last() =~= a + b.drop_last());
        assert((a + b).last() == b.last());
    }
}

#[verifier::spinoff_prover]
proof fn lemma_mirror_entries_one(l: Seq<char>)
    ensures
        parse::mirror_entries(seq![l]) == match grammar::mirror_comment(l) {
            Some((a, b)) => seq![(text_of(l, a), text_of(l, b))],
            None => Seq::<(Seq<char>, Seq<char>)>::empty(),
        },
{
    assert(seq![l].drop_last() =~= Seq::<Seq<char>>::empty());
    assert(parse::mirror_entries(Seq::<Seq<char>>::empty()) =~= Seq::<(Seq<char>, Seq<char>)>::empty());
    assert(seq![l].last() == l);
    if let Some((a, b)) = grammar::mirror_comment(l) {
        assert(Seq::<(Seq<char>, Seq<char>)>::empty().push((text_of(l, a), text_of(l, b))) =~= seq![
            (text_of(l, a), text_of(l, b)),
        ]);
    }
}

/// The mirror comments of a screen's lines record its mirroring.
#[verifier::spinoff_prover]
proof fn lemma_screen_mirror_entries(all: Seq<ScreenView>, sc: ScreenView, bound: int)
    requires
        writable_screen(all, sc),
        forall|j: int| 0 <= j < screen_lines(all, sc).len() ==> (#[trigger] screen_lines(all, sc)[j]).len() <= bound,
        bound <= usize::MAX,
    ensures
        parse::mirror_entries(screen_lines(all, sc)) == match generate::mirror_of(all, sc) {
            Some((tid, _)) => seq![(sc.id, tid)],
            None => Seq::<(Seq<char>, Seq<char>)>::empty(),
        },
{
    match generate::mirror_of(all, sc) {
        Some((tid, t)) => {
            let f = fitted(sc, t);
            let c = comment_line(sc.id, tid);
            lemma_mirror_shape(all, sc);
            assert(screen_lines(all, sc)[0] == c);
            assert(screen_lines(all, sc)[1] == out_line(f));
            assert(screen_lines(all, sc) =~= seq![c] + seq![out_line(f)]);
            lemma_mirror_entries_concat(seq![c], seq![out_line(f)]);
            lemma_comment_reads_back(sc.id, tid);
            lemma_line_facts(f);
            lemma_mirror_entries_one(c);
            lemma_mirror_entries_one(out_line(f));
            assert(seq![(sc.id, tid)] + Seq::<(Seq<char>, Seq<char>)>::empty() =~= seq![(sc.id, tid)]);
        },
        None => {
            assert(screen_lines(all, sc)[0] == out_line(sc));
            lemma_line_facts(sc);
            lemma_mirror_entries_one(out_line(sc));
        },
    }
}

/// The mirror comments of the lines of the first `k` screens record their
/// mirroring, in order.
#[verifier::spinoff_prover]
proof fn lemma_flat_mirror_entries(p: ProfileView, k: int)
    requires
        writable_profile(p),
        generate::profile_text(p).len() <= usize::MAX,
        0 <= k <= p.screens.len(),
    ensures
        parse::mirror_entries(flat_lines(p.screens, k)) == mirror_list(p.screens, k),
    decreases k,
{
    let n = p.screens.len() as int;
    if k == 0 {
        assert(parse::mirror_entries(Seq::<Seq<char>>::empty()) =~= Seq::<(Seq<char>, Seq<char>)>::empty());
    } else {
        lemma_flat_mirror_entries(p, k - 1);
        let sc = p.screens[k - 1];
        assert(writable_screen(p.screens, sc));
        lemma_mirror_entries_concat(flat_lines(p.screens, k - 1), screen_lines(p.screens, sc));
        lemma_all_block_text(p);
        let ls = all_block_lines(p);
        let fl = flat_lines(p.screens, n);
        let sl = screen_lines(p.screens, sc);
        assert forall|jj: int| 0 <= jj < sl.len() implies (#[trigger] sl[jj]).len() <= generate::profile_text(
            p,
        ).len() by {
            lemma_flat_index(p.screens, k - 1, n);
            let ii = flat_lines(p.screens, k - 1).len() + jj;
            assert(fl[ii] == sl[jj]);
            assert(ls[ii + 1] == fl[ii]);
            lemma_joined_line_len(ls, ii + 1);
        }
        lemma_screen_mirror_entries(p.screens, sc, generate::profile_text(p).len() as int);
    }
}

/// The lines between the braces and their mirror comments.
#[verifier::spinoff_prover]
proof fn lemma_all_body_lines(p: ProfileView)
    requires
        writable_profile(p),
        generate::profile_text(p).len() <= usize::MAX,
    ensures
        text::lines(joined(all_body_lines(p))) == all_body_lines(p),
        parse::mirror_entries(all_body_lines(p)) == mirror_list(p.screens, p.screens.len() as int),
{
    let bl = all_body_lines(p);
    let n = p.screens.len() as int;
    let fl = flat_lines(p.screens, n);
    lemma_all_block_text(p);
    lemma_all_block_lines(p);
    let ls = all_block_lines(p);
    lemma_exec_line(p.name);
    assert forall|j: int| 0 <= j < bl.len() implies clean_line(#[trigger] bl[j]) by {
        if 1 <= j <= fl.len() {
            assert(bl[j] == ls[j]);
        } else if j == 0 {
            assert(bl[0] == Seq::<char>::empty());
        } else {
            assert(bl[j] == exec_line(p.name));
        }
    }
    assert(joined(bl).len() <= usize::MAX);
    lemma_lines_joined(bl);
    let e = Seq::<char>::empty();
    lemma_mirror_entries_concat(seq![e] + fl, seq![exec_line(p.name)]);
    lemma_mirror_entries_concat(seq![e], fl);
    lemma_mirror_entries_one(e);
    lemma_mirror_entries_one(exec_line(p.name));
    lemma_flat_mirror_entries(p, n);
    assert(Seq::<(Seq<char>, Seq<char>)>::empty() + mirror_list(p.screens, n) + Seq::<(Seq<char>, Seq<char>)>::empty()
        =~= mirror_list(p.screens, n));
}

/// The screens as they read back, the mirror comments of the block being
/// those written.
pub open spec fn backs(p: ProfileView) -> Seq<ScreenView> {
    p.screens.map_values(
        |sc: ScreenView| screen_back(p.screens, sc, mirror_list(p.screens, p.screens.len() as int)),
    )
}

/// An output line read in the body stands for its screen.
#[verifier::spinoff_prover]
proof fn lemma_out_line_step(bl: Seq<Seq<char>>, i: int, sc: ScreenView, m: parse::Entries)
    requires
        0 <= i < bl.len(),
        bl[i] == out_line(sc),
        readable(sc.id),
        sc.selected_mode.refresh_mhz >= 0,
        sc.scale_milli >= 0,
        out_line(sc).len() <= usize::MAX,
    ensures
        parse::body_step(bl, i, Seq::empty(), m) == Some(
            (
                seq![
                    parse::screen_view(
                        sc.id,
                        sc.enabled,
                        sc.selected_mode,
                        sc.pos_x,
                        sc.pos_y,
                        sc.scale_milli,
                        m,
                    ),
                ],
                i + 1,
            ),
        ),
{
    lemma_read_output_line(sc, m);
}

/// A mirror comment read in the body stands for no screen.
#[verifier::spinoff_prover]
proof fn lemma_comment_line_step(bl: Seq<Seq<char>>, i: int, id: Seq<char>, tid: Seq<char>, m: parse::Entries)
    requires
        0 <= i < bl.len(),
        bl[i] == comment_line(id, tid),
        readable_name(id),
        readable_name(tid),
    ensures
        parse::body_step(bl, i, Seq::empty(), m) == Some((Seq::<ScreenView>::empty(), i + 1)),
{
    lemma_comment_line_reads(id, tid);
}

/// The lines of screen `k` stand in the body right after those of the
/// screens before it.
#[verifier::spinoff_prover]
proof fn lemma_screen_lines_in_body(p: ProfileView, k: int)
    requires
        writable_profile(p),
        generate::profile_text(p).len() <= usize::MAX,
        0 <= k < p.screens.len(),
    ensures
        ({
            let sl = screen_lines(p.screens, p.screens[k]);
            let i = 1 + flat_lines(p.screens, k).len();
            &&& forall|j: int|
                0 <= j < sl.len() ==> all_body_lines(p)[i + j] == #[trigger] sl[j] && sl[j].len()
                    <= usize::MAX
            &&& i + sl.len() == 1 + flat_lines(p.screens, k + 1).len()
            &&& i + sl.len() < all_body_lines(p).len()
        }),
{
    let n = p.screens.len() as int;
    let all = p.screens;
    let bl = all_body_lines(p);
    let fl = flat_lines(all, n);
    let sl = screen_lines(all, all[k]);
    let i: int = 1 + flat_lines(all, k).len() as int;
    lemma_flat_index(all, k, n);
    assert(bl.len() == fl.len() + 2);
    lemma_all_block_text(p);
    let ls = all_block_lines(p);
    assert forall|j: int| 0 <= j < sl.len() implies bl[i + j] == #[trigger] sl[j] && sl[j].len()
        <= usize::MAX by {
        assert(fl[i - 1 + j] == sl[j]);
        assert(bl[i + j] == fl[i - 1 + j]);
        assert(ls[i + j] == fl[i - 1 + j]);
        lemma_joined_line_len(ls, i + j);
    }
}

/// Reading on from an output line gives its screen first.
#[verifier::spinoff_prover]
proof fn lemma_scan_plain(bl: Seq<Seq<char>>, i: int, sc: ScreenView, m: parse::Entries)
    requires
        0 <= i < bl.len(),
        bl[i] == out_line(sc),
        readable(sc.id),
        sc.selected_mode.refresh_mhz >= 0,
        sc.scale_milli >= 0,
        out_line(sc).len() <= usize::MAX,
    ensures
        parse::body_scan(bl, i, Seq::empty(), m) == parse::prepend_opt(
            seq![
                parse::screen_view(
                    sc.id,
                    sc.enabled,
                    sc.selected_mode,
                    sc.pos_x,
                    sc.pos_y,
                    sc.scale_milli,
                    m,
                ),
            ],
            parse::body_scan(bl, i + 1, Seq::empty(), m),
        ),
{
    lemma_out_line_step(bl, i, sc, m);
}

/// Reading on from a mirror comment and the output line after it gives the
/// screen of the output line first.
#[verifier::spinoff_prover]
proof fn lemma_scan_mirrored(
    bl: Seq<Seq<char>>,
    i: int,
    id: Seq<char>,
    tid: Seq<char>,
    f: ScreenView,
    m: parse::Entries,
)
    requires
        0 <= i,
        i + 1 < bl.len(),
        bl[i] == comment_line(id, tid),
        bl[i + 1] == out_line(f),
        readable_name(id),
        readable_name(tid),
        readable(f.id),
        f.selected_mode.refresh_mhz >= 0,
        f.scale_milli >= 0,
        out_line(f).len() <= usize::MAX,
    ensures
        parse::body_scan(bl, i, Seq::empty(), m) == parse::prepend_opt(
            seq![
                parse::screen_view(
                    f.id,
                    f.enabled,
                    f.selected_mode,
                    f.pos_x,
                    f.pos_y,
                    f.scale_milli,
                    m,
                ),
            ],
            parse::body_scan(bl, i + 2, Seq::empty(), m),
        ),
{
    let here = seq![
        parse::screen_view(f.id, f.enabled, f.selected_mode, f.pos_x, f.pos_y, f.scale_milli, m),
    ];
    lemma_comment_line_step(bl, i, id, tid, m);
    lemma_scan_plain(bl, i + 1, f, m);
    assert(Seq::<ScreenView>::empty() + here =~= here);
    let rest = parse::body_scan(bl, i + 2, Seq::empty(), m);
    if let Some(r) = rest {
        assert(Seq::<ScreenView>::empty() + (here + r) =~= here + r);
    }
}

/// Reading the lines of screen `k` gives that screen, and goes on after
/// them.
#[verifier::spinoff_prover]
#[verifier::rlimit(50)]
proof fn lemma_screen_scan(p: ProfileView, k: int)
    requires
        writable_profile(p),
        generate::profile_text(p).len() <= usize::MAX,
        0 <= k < p.screens.len(),
    ensures
        parse::body_scan(
            all_body_lines(p),
            1 + flat_lines(p.screens, k).len() as int,
            Seq::empty(),
            mirror_list(p.screens, p.screens.len() as int),
        ) == parse::prepend_opt(
            seq![backs(p)[k]],
            parse::body_scan(
                all_body_lines(p),
                1 + flat_lines(p.screens, k + 1).len() as int,
                Seq::empty(),
                mirror_list(p.screens, p.screens.len() as int),
            ),
        ),
{
    let n = p.screens.len() as int;
    let all = p.screens;
    let m = mirror_list(all, n);
    let bl = all_body_lines(p);
    let sc = all[k];
    let sl = screen_lines(all, sc);
    let i: int = 1 + flat_lines(all, k).len() as int;
    assert(writable_screen(all, sc));
    lemma_screen_lines_in_body(p, k);
    assert(backs(p)[k] == screen_back(all, sc, m));
    match generate::mirror_of(all, sc) {
        Some((tid, t)) => {
            let f = fitted(sc, t);
            lemma_mirror_shape(all, sc);
            assert(bl[i] == sl[0]);
            assert(bl[i + 1] == sl[1]);
            lemma_scan_mirrored(bl, i, sc.id, tid, f, m);
        },
        None => {
            assert(bl[i] == sl[0]);
            lemma_scan_plain(bl, i, sc, m);
        },
    }
}

/// Reading the lines from those of screen `k` on gives the screens from `k`
/// on.
#[verifier::spinoff_prover]
proof fn lemma_all_body_scan(p: ProfileView, k: int)
    requires
        writable_profile(p),
        generate::profile_text(p).len() <= usize::MAX,
        0 <= k <= p.screens.len(),
    ensures
        parse::body_scan(
            all_body_lines(p),
            1 + flat_lines(p.screens, k).len() as int,
            Seq::empty(),
            mirror_list(p.screens, p.screens.len() as int),
        ) == Some(backs(p).skip(k)),
    decreases p.screens.len() - k,
{
    reveal_strlit("#");
    let n = p.screens.len() as int;
    let m = mirror_list(p.screens, n);
    let bl = all_body_lines(p);
    let fl = flat_lines(p.screens, n);
    if k == n {
        lemma_exec_line(p.name);
        let i: int = 1 + fl.len() as int;
        assert(bl[i] == exec_line(p.name));
        lemma_kw_not_at(text::trim(exec_line(p.name)), 0, "#"@);
        assert(parse::body_step(bl, i, Seq::empty(), m) == Some((Seq::<ScreenView>::empty(), i + 1)));
        assert(parse::body_scan(bl, i + 1, Seq::empty(), m) == Some(Seq::<ScreenView>::empty()));
        assert(backs(p).skip(n) =~= Seq::<ScreenView>::empty());
        assert(Seq::<ScreenView>::empty() + Seq::<ScreenView>::empty() =~= Seq::<ScreenView>::empty());
    } else {
        lemma_all_body_scan(p, k + 1);
        lemma_screen_scan(p, k);
        assert(backs(p).skip(k) =~= seq![backs(p)[k]] + backs(p).skip(k + 1));
    }
}

/// The text between the braces of the block reads back as the screens.
#[verifier::spinoff_prover]
#[verifier::rlimit(50)]
proof fn lemma_all_body_screens(p: ProfileView)
    requires
        writable_profile(p),
        generate::profile_text(p).len() <= usize::MAX,
    ensures
        parse::body_screens(joined(all_body_lines(p)), Seq::empty()) == Some(backs(p)),
{
    let bl = all_body_lines(p);
    lemma_all_body_lines(p);
    lemma_all_body_scan(p, 0);
    assert(flat_lines(p.screens, 0).len() == 0);
    assert(backs(p).skip(0) =~= backs(p));
    assert(bl[0] == Seq::<char>::empty());
    assert(text::trim(Seq::<char>::empty()) =~= Seq::<char>::empty());
    let m = mirror_list(p.screens, p.screens.len() as int);
    assert(parse::body_step(bl, 0, Seq::empty(), m) == Some((Seq::<ScreenView>::empty(), 1int)));
    assert(Seq::<ScreenView>::empty() + backs(p) =~= backs(p));
}

/// The text between the braces of the block has no brace.
#[verifier::spinoff_prover]
proof fn lemma_body_braceless(p: ProfileView)
    requires
        writable_profile(p),
        generate::profile_text(p).len() <= usize::MAX,
    ensures
        braceless(joined(all_body_lines(p))),
{
    lemma_all_block_lines(p);
    lemma_exec_line(p.name);
    let bl = all_body_lines(p);
    let ls = all_block_lines(p);
    assert forall|j: int| 0 <= j < bl.len() implies plain(#[trigger] bl[j]) by {
        if 1 <= j < bl.len() - 1 {
            assert(bl[j] == ls[j]);
        } else if j == 0 {
            assert(bl[0] == Seq::<char>::empty());
        } else {
            assert(bl[j] == exec_line(p.name));
        }
    }
    lemma_joined_braceless(bl);
}

/// The brace of the header closes at the last line of the block, around
/// the text of the lines between them.
#[verifier::spinoff_prover]
#[verifier::rlimit(100)]
proof fn lemma_block_braces_all(p: ProfileView)
    requires
        writable_profile(p),
        generate::profile_text(p).len() <= usize::MAX,
    ensures
        ({
            let s = generate::profile_text(p);
            let b = 10 + p.name.len() as int;
            let e = 11 + p.name.len() as int + joined(all_body_lines(p)).len();
            &&& parse::brace_close(s, b, 0) == Some(e)
            &&& s.subrange(b + 1, e) == joined(all_body_lines(p))
            &&& e + 1 == s.len() - 1
        }),
{
    let s = generate::profile_text(p);
    let m = p.name.len() as int;
    let h = header_line(p.name);
    let body = joined(all_body_lines(p));
    let tail = body + seq!['}', '\n'];
    lemma_all_block_text(p);
    assert(s.skip(0) =~= h + tail);
    lemma_header(s, 0, p.name, tail);
    let b = 10 + m;
    let e = 11 + m + body.len();
    lemma_body_braceless(p);
    assert forall|k: int| b + 1 <= k < e implies #[trigger] s[k] != '{' && s[k] != '}' by {
        assert(s[k] == body[k - b - 1]);
    }
    assert(s[e] == '}');
    lemma_brace_close_run(s, b + 1, e);
    assert(s.subrange(b + 1, e) =~= body);
}

/// The header of the block is found at its start, and the text between its
/// braces reads back as the profile.
#[verifier::spinoff_prover]
#[verifier::rlimit(50)]
proof fn lemma_first_profile_all(p: ProfileView)
    requires
        writable_profile(p),
        generate::profile_text(p).len() <= usize::MAX,
    ensures
        parse::header_from(generate::profile_text(p), 0) == Some(
            (0int, span(8, 10 + p.name.len() as int), 10 + p.name.len() as int),
        ),
        parse::profile_at(
            generate::profile_text(p),
            0,
            span(8, 10 + p.name.len() as int),
            10 + p.name.len() as int,
            Seq::empty(),
        ) == Some(seq![read_back_all(p, text::byte_offset(generate::profile_text(p), generate::profile_text(p).len() - 1))]),
        generate::profile_text(p)[10 + p.name.len() as int] == '{',
        parse::header_line_start(generate::profile_text(p), 0) == 0,
{
    let s = generate::profile_text(p);
    let h = header_line(p.name);
    let body = joined(all_body_lines(p));
    let tail = body + seq!['}', '\n'];
    lemma_all_block_text(p);
    assert(s.skip(0) =~= h + tail);
    lemma_header(s, 0, p.name, tail);
    assert(parse::line_start(s, 0));
    lemma_block_braces_all(p);
    lemma_all_body_screens(p);
    text::lemma_byte_offset_mono(s, 0, 0);
}

/// After the header of the block no other profile header starts a line.
#[verifier::spinoff_prover]
proof fn lemma_no_more_profiles_all(p: ProfileView)
    requires
        writable_profile(p),
        generate::profile_text(p).len() <= usize::MAX,
        generate::profile_text(p)[10 + p.name.len() as int] == '{',
    ensures
        parse::profiles_from(generate::profile_text(p), 11 + p.name.len() as int, Seq::empty())
            == Some(Seq::<ProfileView>::empty()),
{
    reveal_strlit("profile");
    let s = generate::profile_text(p);
    let m = p.name.len() as int;
    let h = header_line(p.name);
    lemma_all_block_text(p);
    lemma_all_block_lines(p);
    let ls = all_block_lines(p);
    assert(ls.take(1) =~= seq![h]);
    lemma_joined_one(h);
    lemma_no_header_from(s, ls, 1);
    assert(joined(ls.take(1)).len() == 12 + m);
    lemma_header_from_skip(s, 11 + m, 12 + m);
}

/// The block that the configuration writes for a profile reads back as that
/// profile, the only one of the text: its name; each of its screens with
/// its id, state and mode, at the position and scale written for it (its
/// own, or those fitting it into the screen it mirrors), its id standing for
/// its connector name and its mode the only one available; and the mirroring
/// that the comments record. This holds of the profiles whose name and ids
/// can be written as they are and whose mirrored scales are bounded
/// (`writable_profile`).
#[verifier::spinoff_prover]
pub proof fn lemma_block_reads_back(p: ProfileView)
    requires
        writable_profile(p),
        generate::profile_text(p).len() <= usize::MAX,
    ensures
        parse::parse_profiles_spec(generate::profile_text(p)) == Some(
            seq![read_back_all(p, text::byte_offset(generate::profile_text(p), generate::profile_text(p).len() - 1))],
        ),
{
    let s = generate::profile_text(p);
    lemma_no_aliases_all(p);
    lemma_first_profile_all(p);
    lemma_no_more_profiles_all(p);
    let here = seq![read_back_all(p, text::byte_offset(s, s.len() - 1))];
    assert(here + Seq::<ProfileView>::empty() =~= here);
}

// ---------------------------------------------------------------------
// A configuration of written blocks
// ---------------------------------------------------------------------
/// `n` blank lines.
pub open spec fn blanks(n: nat) -> Seq<Seq<char>> {
    Seq::new(n, |i: int| Seq::<char>::empty())
}

/// The lines of the blocks written for profiles, each after its number of
/// blank lines.
pub open spec fn entries_lines(qs: Seq<(nat, ProfileView)>) -> Seq<Seq<char>>
    decreases qs.len(),
{
    if qs.len() == 0 {
        Seq::empty()
    } else {
        entries_lines(qs.drop_last()) + blanks(qs.last().0) + all_block_lines(qs.last().1)
    }
}

/// A configuration made of the blocks written for profiles, each after its
/// number of blank lines, then `tail` blank lines.
#[verifier::opaque]
pub open spec fn layout_text(qs: Seq<(nat, ProfileView)>, tail: nat) -> Seq<char> {
    joined(entries_lines(qs) + blanks(tail))
}

/// Where entry `k` of such a configuration (its blank lines, then its
/// block) starts.
pub open spec fn entry_start(qs: Seq<(nat, ProfileView)>, k: int) -> int {
    joined(entries_lines(qs.take(k))).len() as int
}

/// The profiles such a configuration reads back as: each written profile as
/// its block reads back, its text running from the start of its header line
/// to the closing brace of its block.
pub open spec fn layout_back(qs: Seq<(nat, ProfileView)>, tail: nat) -> Seq<ProfileView> {
    Seq::new(
        qs.len(),
        |k: int|
            ProfileView {
                name: qs[k].1.name,
                screens: backs(qs[k].1),
                raw_range: Some(
                    (
                        text::byte_offset(layout_text(qs, tail), entry_start(qs, k) + qs[k].0) as usize,
                        text::byte_offset(layout_text(qs, tail), entry_start(qs, k + 1) - 1) as usize,
                    ),
                ),
            },
    )
}

/// Each profile of the configuration can be written as it is.
pub open spec fn layout_writable(qs: Seq<(nat, ProfileView)>) -> bool {
    forall|k: int| 0 <= k < qs.len() ==> writable_profile(#[trigger] qs[k].1)
}

#[verifier::spinoff_prover]
proof fn lemma_blanks_text(n: nat)
    ensures
        joined(blanks(n)) == Seq::new(n, |i: int| '\n'),
        forall|j: int| 0 <= j < n ==> clean_line(#[trigger] blanks(n)[j]),
    decreases n,
{
    if n > 0 {
        lemma_blanks_text((n - 1) as nat);
        assert(blanks(n).drop_first() =~= blanks((n - 1) as nat));
        assert(joined(blanks(n)) =~= Seq::new(n, |i: int| '\n'));
    } else {
        assert(joined(blanks(n)) =~= Seq::<char>::empty());
    }
}

/// The lines of the first `k` entries begin the lines of all of them.
#[verifier::spinoff_prover]
proof fn lemma_entries_prefix(qs: Seq<(nat, ProfileView)>, k: int)
    requires
        0 <= k <= qs.len(),
    ensures
        entries_lines(qs.take(k)).len() <= entries_lines(qs).len(),
        entries_lines(qs).take(entries_lines(qs.take(k)).len() as int) == entries_lines(qs.take(k)),
    decreases qs.len(),
{
    if k == qs.len() {
        assert(qs.take(k) =~= qs);
    } else {
        let d = qs.drop_last();
        lemma_entries_prefix(d, k);
        assert(d.take(k) =~= qs.take(k));
        let n = entries_lines(qs.take(k)).len() as int;
        assert(entries_lines(qs).take(n) =~= entries_lines(d).take(n));
    }
}

/// Entry `k` adds its blank lines and its block to the lines of the entries
/// before it.
#[verifier::spinoff_prover]
proof fn lemma_entries_step(qs: Seq<(nat, ProfileView)>, k: int)
    requires
        0 <= k < qs.len(),
    ensures
        entries_lines(qs.take(k + 1)) == entries_lines(qs.take(k)) + blanks(qs[k].0) + all_block_lines(
            qs[k].1,
        ),
{
    assert(qs.take(k + 1).drop_last() =~= qs.take(k));
    assert(qs.take(k + 1).last() == qs[k]);
}

/// The entries of a configuration, split after the first of them.
#[verifier::spinoff_prover]
proof fn lemma_entries_concat(a: Seq<(nat, ProfileView)>, b: Seq<(nat, ProfileView)>)
    ensures
        entries_lines(a + b) == entries_lines(a) + entries_lines(b),
    decreases b.len(),
{
    if b.len() == 0 {
        assert(a + b =~= a);
        assert(entries_lines(a) + entries_lines(b) =~= entries_lines(a));
    } else {
        lemma_entries_concat(a, b.drop_last());
        assert((a + b).drop_last() =~= a + b.drop_last());
        assert((a + b).last() == b.last());
    }
}

/// Where the lines of entry `k` stand among the lines of the configuration.
#[verifier::spinoff_prover]
proof fn lemma_entry_lines(qs: Seq<(nat, ProfileView)>, tail: nat, k: int)
    requires
        0 <= k < qs.len(),
    ensures
        ({
            let ls = entries_lines(qs) + blanks(tail);
            let i = entries_lines(qs.take(k)).len() as int;
            let g = qs[k].0 as int;
            let bl = all_block_lines(qs[k].1);
            &&& entries_lines(qs.take(k + 1)).len() == i + g + bl.len()
            &&& i + g + bl.len() <= entries_lines(qs).len()
            &&& forall|x: int| 0 <= x < g ==> #[trigger] ls[i + x] == Seq::<char>::empty()
            &&& forall|y: int| 0 <= y < bl.len() ==> #[trigger] ls[i + g + y] == bl[y]
            &&& ls.take(i) == entries_lines(qs.take(k))
            &&& ls.take(i + g + bl.len()) == entries_lines(qs.take(k + 1))
        }),
{
    let ls = entries_lines(qs) + blanks(tail);
    let i = entries_lines(qs.take(k)).len() as int;
    let g = qs[k].0 as int;
    let bl = all_block_lines(qs[k].1);
    let e = entries_lines(qs);
    lemma_entries_prefix(qs, k);
    lemma_entries_prefix(qs, k + 1);
    lemma_entries_step(qs, k);
    let e1 = entries_lines(qs.take(k + 1));
    assert forall|x: int| 0 <= x < g implies #[trigger] ls[i + x] == Seq::<char>::empty() by {
        assert(ls[i + x] == e[i + x]);
        assert(e.take(e1.len() as int)[i + x] == e1[i + x]);
        assert(e1[i + x] == blanks(qs[k].0)[x]);
    }
    assert forall|y: int| 0 <= y < bl.len() implies #[trigger] ls[i + g + y] == bl[y] by {
        assert(ls[i + g + y] == e[i + g + y]);
        assert(e.take(e1.len() as int)[i + g + y] == e1[i + g + y]);
    }
    assert(ls.take(i) =~= e.take(i));
    assert(ls.take(e1.len() as int) =~= e.take(e1.len() as int));
}

/// The text of entry `k`: its blank lines, then the block of its profile.
#[verifier::spinoff_prover]
#[verifier::rlimit(50)]
proof fn lemma_entry_text(qs: Seq<(nat, ProfileView)>, tail: nat, k: int)
    requires
        0 <= k < qs.len(),
        layout_writable(qs),
        layout_text(qs, tail).len() <= usize::MAX,
    ensures
        ({
            let s = layout_text(qs, tail);
            let es = entry_start(qs, k);
            let g = qs[k].0 as int;
            let ls = entries_lines(qs) + blanks(tail);
            let next = entries_lines(qs.take(k + 1)).len() as int;
            &&& es + g + generate::profile_text(qs[k].1).len() == entry_start(qs, k + 1)
            &&& entry_start(qs, k + 1) <= s.len()
            &&& forall|x: int| 0 <= x < g ==> #[trigger] s[es + x] == '\n'
            &&& at(s, es + g, generate::profile_text(qs[k].1), joined(ls.skip(next)))
            &&& s.skip(entry_start(qs, k + 1)) == joined(ls.skip(next))
            &&& parse::line_start(s, es)
            &&& parse::line_start(s, entry_start(qs, k + 1))
            &&& generate::profile_text(qs[k].1).len() <= usize::MAX
        }),
{
    reveal(layout_text);
    let q = qs[k].1;
    assert(writable_profile(q));
    let s = layout_text(qs, tail);
    let ls = entries_lines(qs) + blanks(tail);
    let g = qs[k].0 as int;
    let bl = all_block_lines(q);
    lemma_entry_lines(qs, tail, k);
    let i = entries_lines(qs.take(k)).len() as int;
    let next = entries_lines(qs.take(k + 1)).len() as int;
    let ek = entries_lines(qs.take(k));
    lemma_entries_step(qs, k);
    assert(ls =~= ls.take(next) + ls.skip(next));
    lemma_joined_concat(ls.take(next), ls.skip(next));
    lemma_joined_concat(ek + blanks(qs[k].0), bl);
    lemma_joined_concat(ek, blanks(qs[k].0));
    lemma_blanks_text(qs[k].0);
    lemma_all_block_text(q);
    let pt = generate::profile_text(q);
    let rest = joined(ls.skip(next));
    let es = joined(ek).len() as int;
    assert(s =~= joined(ek) + (Seq::new(qs[k].0, |x: int| '\n') + (pt + rest)));
    assert forall|x: int| 0 <= x < g implies #[trigger] s[es + x] == '\n' by {}
    assert(s.skip(es + g) =~= pt + rest);
    assert(s.skip(es + g + pt.len()) =~= rest);
    assert(entry_start(qs, k + 1) == es + g + pt.len()) by {
        lemma_joined_concat(ek + blanks(qs[k].0), bl);
    }
    if ek.len() > 0 {
        lemma_joined_last(ek);
        assert(s[es - 1] == joined(ek)[es - 1]);
    }
    lemma_joined_last(bl);
    assert(pt.len() > 0 && pt.last() == '\n');
    assert(s[es + g + pt.len() - 1] == pt[pt.len() - 1]);
}

/// Each profile's block is no longer than the configuration.
#[verifier::spinoff_prover]
proof fn lemma_layout_blocks_fit(qs: Seq<(nat, ProfileView)>, tail: nat)
    requires
        layout_writable(qs),
        layout_text(qs, tail).len() <= usize::MAX,
    ensures
        forall|k: int| 0 <= k < qs.len() ==> generate::profile_text(#[trigger] qs[k].1).len() <= usize::MAX,
{
    assert forall|k: int| 0 <= k < qs.len() implies generate::profile_text(#[trigger] qs[k].1).len()
        <= usize::MAX by {
        lemma_entry_text(qs, tail, k);
    }
}

/// The lines of written blocks are clean.
#[verifier::spinoff_prover]
proof fn lemma_entries_clean(qs: Seq<(nat, ProfileView)>)
    requires
        layout_writable(qs),
        forall|k: int| 0 <= k < qs.len() ==> generate::profile_text(#[trigger] qs[k].1).len() <= usize::MAX,
    ensures
        forall|j: int| 0 <= j < entries_lines(qs).len() ==> clean_line(#[trigger] entries_lines(qs)[j]),
    decreases qs.len(),
{
    if qs.len() > 0 {
        let d = qs.drop_last();
        assert forall|k: int| 0 <= k < d.len() implies writable_profile(#[trigger] d[k].1) && generate::profile_text(
            d[k].1,
        ).len() <= usize::MAX by {
            assert(d[k] == qs[k]);
        }
        lemma_entries_clean(d);
        let q = qs.last();
        assert(q == qs[qs.len() - 1]);
        lemma_all_block_lines(q.1);
        lemma_blanks_text(q.0);
        let a = entries_lines(d);
        let b = blanks(q.0);
        let c = all_block_lines(q.1);
        assert forall|j: int| 0 <= j < entries_lines(qs).len() implies clean_line(#[trigger] entries_lines(qs)[j]) by {
            if j < a.len() {
                assert(entries_lines(qs)[j] == a[j]);
            } else if j < a.len() + b.len() {
                assert(entries_lines(qs)[j] == b[j - a.len()]);
            } else {
                assert(entries_lines(qs)[j] == c[j - a.len() - b.len()]);
            }
        }
    }
}

/// The lines of the configuration are its blank lines and the lines of its
/// blocks.
#[verifier::spinoff_prover]
proof fn lemma_layout_lines(qs: Seq<(nat, ProfileView)>, tail: nat)
    requires
        layout_writable(qs),
        layout_text(qs, tail).len() <= usize::MAX,
    ensures
        text::lines(layout_text(qs, tail)) == entries_lines(qs) + blanks(tail),
{
    reveal(layout_text);
    let ls = entries_lines(qs) + blanks(tail);
    lemma_layout_blocks_fit(qs, tail);
    lemma_entries_clean(qs);
    lemma_blanks_text(tail);
    assert forall|j: int| 0 <= j < ls.len() implies clean_line(#[trigger] ls[j]) by {
        if j < entries_lines(qs).len() {
            assert(ls[j] == entries_lines(qs)[j]);
        } else {
            assert(ls[j] == blanks(tail)[j - entries_lines(qs).len()]);
        }
    }
    lemma_lines_joined(ls);
}

/// The header line of a block, as the reading of aliases sees it: it opens
/// a profile.
#[verifier::spinoff_prover]
proof fn lemma_header_line_reads(p: ProfileView)
    requires
        writable_profile(p),
        generate::profile_text(p).len() <= usize::MAX,
    ensures
        text::trim(header_line(p.name)) == header_line(p.name),
        text::trim(header_line(p.name)).len() > 0,
        !text::starts_with(text::trim(header_line(p.name)), "#"@),
        !text::starts_with(text::trim(header_line(p.name)), "include "@),
        grammar::profile_start(text::trim(header_line(p.name))),
{
    reveal_strlit("#");
    reveal_strlit("include ");
    reveal_strlit("profile");
    let h = header_line(p.name);
    lemma_all_block_text(p);
    lemma_joined_line_len(all_block_lines(p), 0);
    assert(all_block_lines(p)[0] == h);
    assert(h.skip(0) =~= h + Seq::<char>::empty());
    lemma_header(h, 0, p.name, Seq::empty());
    assert(h[0] == 'p');
    assert(h.last() == '{');
    lemma_trim_exact(h, 0, h.len() as int);
    assert(h.subrange(0, h.len() as int) =~= h);
    lemma_kw_not_at(h, 0, "#"@);
    lemma_kw_not_at(h, 0, "include "@);
}

/// Blank lines declare no alias.
#[verifier::spinoff_prover]
proof fn lemma_alias_blank_run(ls: Seq<Seq<char>>, i: int, j: int)
    requires
        0 <= i <= j <= ls.len(),
        forall|x: int| i <= x < j ==> #[trigger] ls[x] == Seq::<char>::empty(),
    ensures
        parse::alias_scan(ls, i) == parse::alias_scan(ls, j),
    decreases j - i,
{
    if i < j {
        assert(ls[i] == Seq::<char>::empty());
        assert(text::trim(Seq::<char>::empty()) =~= Seq::<char>::empty());
        lemma_alias_blank_run(ls, i + 1, j);
    }
}

/// Skipping the block of entry `k` from the line after its header ends
/// after its closing brace.
#[verifier::spinoff_prover]
#[verifier::rlimit(50)]
proof fn lemma_skip_entry_block(qs: Seq<(nat, ProfileView)>, tail: nat, k: int)
    requires
        0 <= k < qs.len(),
        layout_writable(qs),
        layout_text(qs, tail).len() <= usize::MAX,
    ensures
        parse::skip_block(
            entries_lines(qs) + blanks(tail),
            entries_lines(qs.take(k)).len() + qs[k].0 + 1int,
            1,
        ) == entries_lines(qs.take(k + 1)).len(),
{
    reveal_strlit("}");
    let ls = entries_lines(qs) + blanks(tail);
    let q = qs[k].1;
    assert(writable_profile(q));
    lemma_entry_lines(qs, tail, k);
    lemma_entry_text(qs, tail, k);
    let i = entries_lines(qs.take(k)).len() as int;
    let g = qs[k].0 as int;
    let bl = all_block_lines(q);
    let h = i + g;
    let c = h + bl.len() - 1;
    lemma_all_block_lines(q);
    assert(bl.len() >= 3);
    assert forall|x: int| h + 1 <= x < c implies plain(#[trigger] ls[x]) by {
        assert(ls[h + (x - h)] == bl[x - h]);
    }
    lemma_skip_plain(ls, h + 1, c);
    let cl = "}"@;
    assert(ls[h + (bl.len() - 1)] == bl[bl.len() - 1]);
    assert(ls[c] == cl);
    assert(cl.drop_last() =~= Seq::<char>::empty());
    assert(parse::count_char(Seq::<char>::empty(), '{') == 0);
    assert(parse::count_char(Seq::<char>::empty(), '}') == 0);
    assert(parse::count_char(cl, '{') == 0);
    assert(parse::count_char(cl, '}') == 1);
    assert(parse::skip_block(ls, c + 1, 0) == c + 1);
    assert(parse::skip_block(ls, c, 1) == c + 1);
}

/// The block of entry `k` declares no alias: the reading of aliases goes
/// from its blank lines on to the next entry.
#[verifier::spinoff_prover]
#[verifier::rlimit(100)]
proof fn lemma_alias_entry(qs: Seq<(nat, ProfileView)>, tail: nat, k: int)
    requires
        0 <= k < qs.len(),
        layout_writable(qs),
        layout_text(qs, tail).len() <= usize::MAX,
    ensures
        parse::alias_scan(entries_lines(qs) + blanks(tail), entries_lines(qs.take(k)).len() as int)
            == parse::alias_scan(
            entries_lines(qs) + blanks(tail),
            entries_lines(qs.take(k + 1)).len() as int,
        ),
{
    let ls = entries_lines(qs) + blanks(tail);
    let q = qs[k].1;
    assert(writable_profile(q));
    lemma_entry_lines(qs, tail, k);
    lemma_layout_blocks_fit(qs, tail);
    let i = entries_lines(qs.take(k)).len() as int;
    let g = qs[k].0 as int;
    let bl = all_block_lines(q);
    let h = i + g;
    assert forall|x: int| i <= x < h implies #[trigger] ls[x] == Seq::<char>::empty() by {
        assert(ls[i + (x - i)] == Seq::<char>::empty());
    }
    lemma_alias_blank_run(ls, i, h);
    lemma_header_line_reads(q);
    assert(ls[h + 0] == bl[0]);
    assert(bl[0] == header_line(q.name));
    lemma_skip_entry_block(qs, tail, k);
}

/// A configuration of written blocks declares no alias.
#[verifier::spinoff_prover]
proof fn lemma_layout_aliases(qs: Seq<(nat, ProfileView)>, tail: nat, k: int)
    requires
        0 <= k <= qs.len(),
        layout_writable(qs),
        layout_text(qs, tail).len() <= usize::MAX,
    ensures
        parse::alias_scan(entries_lines(qs) + blanks(tail), entries_lines(qs.take(k)).len() as int)
            == Some(Seq::<(Seq<char>, Seq<char>)>::empty()),
    decreases qs.len() - k,
{
    let ls = entries_lines(qs) + blanks(tail);
    if k == qs.len() {
        assert(qs.take(k) =~= qs);
        let i = entries_lines(qs).len() as int;
        assert forall|x: int| i <= x < ls.len() implies #[trigger] ls[x] == Seq::<char>::empty() by {
            assert(ls[x] == blanks(tail)[x - i]);
        }
        lemma_alias_blank_run(ls, i, ls.len() as int);
    } else {
        lemma_alias_entry(qs, tail, k);
        lemma_layout_aliases(qs, tail, k + 1);
    }
}

/// No profile header starts a line among lines `j` to `j2`, when those
/// lines cannot start one: the search for a header goes on past them.
#[verifier::spinoff_prover]
proof fn lemma_header_from_quiet(s: Seq<char>, ls: Seq<Seq<char>>, j: int, j2: int)
    requires
        s == joined(ls),
        1 <= j <= j2 <= ls.len(),
        forall|k: int| j <= k < j2 ==> quiet(#[trigger] ls[k]),
    ensures
        parse::header_from(s, joined(ls.take(j)).len() as int) == parse::header_from(
            s,
            joined(ls.take(j2)).len() as int,
        ),
    decreases j2 - j,
{
    reveal_strlit("profile");
    if j < j2 {
        let q = joined(ls.take(j)).len() as int;
        assert(ls =~= ls.take(j) + ls.skip(j));
        lemma_joined_concat(ls.take(j), ls.skip(j));
        let l = ls[j];
        assert(quiet(l));
        let rest = joined(ls.skip(j + 1));
        assert(ls.skip(j).drop_first() =~= ls.skip(j + 1));
        assert(joined(ls.skip(j)) =~= l + (seq!['\n'] + rest));
        assert(s.skip(q) =~= l + (seq!['\n'] + rest));
        lemma_joined_last(ls.take(j));
        assert(s[q - 1] == '\n') by {
            assert(s[q - 1] == joined(ls.take(j))[q - 1]);
        }
        let k = skip_ws(l, 0);
        text::lemma_skip_ws(l, 0);
        assert forall|i: int| 0 <= i < l.len() implies #[trigger] s[q + i] == l[i] by {
            assert(s.skip(q)[i] == l[i]);
        }
        assert forall|r: int| q <= r < q + k implies !text::stops(#[trigger] s[r], Stop::NonWs) by {
            assert(s[q + (r - q)] == l[r - q]);
        }
        assert(s[q + k] == l[k]);
        lemma_scan_to(s, q, q + k, Stop::NonWs);
        lemma_kw_not_at(s, q + k, "profile"@);
        assert(grammar::header_at(s, q) is None);
        let q2 = q + l.len() + 1;
        assert(ls.take(j + 1) =~= ls.take(j) + seq![l]);
        lemma_joined_concat(ls.take(j), seq![l]);
        lemma_joined_one(l);
        assert(q2 == joined(ls.take(j + 1)).len());
        assert forall|r: int| q + 1 <= r < q2 implies #[trigger] s[r - 1] != '\n' by {
            assert(s[q + (r - 1 - q)] == l[r - 1 - q]);
        }
        assert(parse::header_from(s, q) == parse::header_from(s, q + 1));
        lemma_header_from_skip(s, q + 1, q2);
        lemma_header_from_quiet(s, ls, j + 1, j2);
    }
}

/// Whitespace before `b` is skipped as if the search started at `b`.
#[verifier::spinoff_prover]
proof fn lemma_scan_skip(s: Seq<char>, q: int, b: int, k: Stop)
    requires
        0 <= q <= b <= s.len(),
        forall|m: int| q <= m < b ==> !text::stops(#[trigger] s[m], k),
    ensures
        scan(s, q, k) == scan(s, b, k),
    decreases b - q,
{
    if q < b {
        lemma_scan_skip(s, q + 1, b, k);
    }
}

/// A text that ends in newlines has no profile header there.
#[verifier::spinoff_prover]
proof fn lemma_tail_no_header(s: Seq<char>, q: int)
    requires
        0 <= q <= s.len(),
        forall|r: int| q <= r < s.len() ==> #[trigger] s[r] == '\n',
    ensures
        parse::header_from(s, q) is None,
    decreases s.len() - q,
{
    reveal_strlit("profile");
    lemma_scan_skip(s, q, s.len() as int, Stop::NonWs);
    assert(scan(s, s.len() as int, Stop::NonWs) == s.len());
    assert(grammar::header_at(s, q) is None);
    if q < s.len() {
        lemma_tail_no_header(s, q + 1);
    } else {
        assert(parse::header_from(s, q + 1) is None);
    }
}

/// The reading of profiles goes on the same from two places where the
/// search finds the same header.
#[verifier::spinoff_prover]
proof fn lemma_profiles_from_same(s: Seq<char>, f1: int, f2: int, al: parse::Entries)
    requires
        0 <= f1 <= s.len() <= usize::MAX,
        0 <= f2 <= s.len(),
        parse::header_from(s, f1) == parse::header_from(s, f2),
    ensures
        parse::profiles_from(s, f1, al) == parse::profiles_from(s, f2, al),
{
}

/// A block written for a profile at `bs` in a text: its header is found
/// there, and its brace closes at the end of the block, around the text
/// between its braces.
#[verifier::spinoff_prover]
#[verifier::rlimit(50)]
proof fn lemma_block_braces_at(s: Seq<char>, bs: int, q: ProfileView, r: Seq<char>)
    requires
        writable_profile(q),
        at(s, bs, generate::profile_text(q), r),
    ensures
        ({
            let b = bs + 10 + q.name.len();
            let e = bs + generate::profile_text(q).len() - 2;
            &&& grammar::header_at(s, bs) == Some((span(bs + 8, b), b))
            &&& skip_ws(s, bs) == bs
            &&& grammar::unquote(text_of(s, span(bs + 8, b))) == Some(q.name)
            &&& s[b] == '{'
            &&& b < e
            &&& parse::brace_close(s, b, 0) == Some(e)
            &&& s.subrange(b + 1, e) == joined(all_body_lines(q))
        }),
{
    let m = q.name.len() as int;
    let b = bs + 10 + m;
    let body = joined(all_body_lines(q));
    lemma_all_block_text(q);
    let pt = generate::profile_text(q);
    assert(pt + r =~= header_line(q.name) + (body + (seq!['}', '\n'] + r)));
    lemma_header(s, bs, q.name, body + (seq!['}', '\n'] + r));
    let e = b + 1 + body.len();
    lemma_body_braceless(q);
    assert(s.skip(bs) == pt + r);
    assert forall|x: int| b + 1 <= x < e implies #[trigger] s[x] != '{' && s[x] != '}' by {
        assert(s[x] == s.skip(bs)[x - bs]);
        assert(s.skip(bs)[x - bs] == body[x - b - 1]);
    }
    assert(s[e] == s.skip(bs)[e - bs]);
    assert(s[e] == '}');
    lemma_brace_close_run(s, b + 1, e);
    assert(s.subrange(b + 1, e) =~= body) by {
        assert forall|x: int| 0 <= x < body.len() implies #[trigger] s.subrange(b + 1, e)[x] == body[x] by {
            assert(s[b + 1 + x] == s.skip(bs)[b + 1 + x - bs]);
        }
    }
    assert(e + 2 == bs + pt.len());
}

/// A block written for a profile at `bs` in a text: from a header search
/// that found it at `p`, the block reads back as the profile, its text
/// running from `p` to its closing brace.
#[verifier::spinoff_prover]
#[verifier::rlimit(50)]
proof fn lemma_block_at(s: Seq<char>, p: int, bs: int, q: ProfileView, r: Seq<char>)
    requires
        writable_profile(q),
        0 <= p <= bs,
        at(s, bs, generate::profile_text(q), r),
    ensures
        ({
            let b = bs + 10 + q.name.len();
            let sp = span(bs + 8, b);
            &&& grammar::header_at(s, bs) == Some((sp, b))
            &&& skip_ws(s, bs) == bs
            &&& s[b] == '{'
            &&& b + 2 < bs + generate::profile_text(q).len()
            &&& parse::profile_at(s, p, sp, b, Seq::empty()) == Some(
                seq![
                    ProfileView {
                        name: q.name,
                        screens: backs(q),
                        raw_range: Some(
                            (
                                text::byte_offset(s, p) as usize,
                                text::byte_offset(s, bs + generate::profile_text(q).len() - 1) as usize,
                            ),
                        ),
                    },
                ],
            )
        }),
{
    lemma_block_braces_at(s, bs, q, r);
    assert(s.skip(bs).len() == generate::profile_text(q).len() + r.len());
    lemma_all_body_screens(q);
}

/// The header of entry `k` is found from the start of its blank lines, and
/// its block reads back as its profile.
#[verifier::spinoff_prover]
#[verifier::rlimit(100)]
proof fn lemma_entry_profile(qs: Seq<(nat, ProfileView)>, tail: nat, k: int)
    requires
        0 <= k < qs.len(),
        layout_writable(qs),
        layout_text(qs, tail).len() <= usize::MAX,
    ensures
        ({
            let s = layout_text(qs, tail);
            let es = entry_start(qs, k);
            let b = es + qs[k].0 + 10 + qs[k].1.name.len();
            let sp = span(es + qs[k].0 + 8, b);
            &&& parse::header_from(s, es) == Some((es, sp, b))
            &&& parse::profile_at(s, parse::header_line_start(s, es), sp, b, Seq::empty()) == Some(
                seq![layout_back(qs, tail)[k]],
            )
            &&& s[b] == '{'
            &&& b + 2 < entry_start(qs, k + 1) <= s.len()
        }),
{
    let s = layout_text(qs, tail);
    let q = qs[k].1;
    assert(writable_profile(q));
    let es = entry_start(qs, k);
    let bs = es + qs[k].0;
    let ls = entries_lines(qs) + blanks(tail);
    let next = entries_lines(qs.take(k + 1)).len() as int;
    lemma_entry_text(qs, tail, k);
    lemma_block_at(s, bs, bs, q, joined(ls.skip(next)));
    assert forall|x: int| es <= x < bs implies !text::stops(#[trigger] s[x], Stop::NonWs) by {
        assert(s[es + (x - es)] == '\n');
    }
    lemma_scan_skip(s, es, bs, Stop::NonWs);
    if bs > es {
        assert(s[bs - 1] == s[es + (qs[k].0 - 1)]);
        assert(parse::line_start(s, bs));
    }
    assert(parse::header_line_start(s, es) == bs);
    assert(grammar::header_at(s, es) == grammar::header_at(s, bs));
}

/// The line after the header of entry `k` starts right after its brace.
#[verifier::spinoff_prover]
#[verifier::rlimit(100)]
proof fn lemma_entry_header_end(qs: Seq<(nat, ProfileView)>, tail: nat, k: int)
    requires
        0 <= k < qs.len(),
    ensures
        ({
            let ls = entries_lines(qs) + blanks(tail);
            let h: int = entries_lines(qs.take(k)).len() as int + qs[k].0 as int;
            &&& joined(ls.take(h + 1)).len() == entry_start(qs, k) + qs[k].0 + 12 + qs[k].1.name.len()
            &&& joined(ls.take(entries_lines(qs.take(k + 1)).len() as int)).len() == entry_start(qs, k + 1)
        }),
{
    reveal_strlit("profile");
    let q = qs[k].1;
    let g = qs[k].0 as int;
    let ls = entries_lines(qs) + blanks(tail);
    let i = entries_lines(qs.take(k)).len() as int;
    let h = i + g;
    let next = entries_lines(qs.take(k + 1)).len() as int;
    lemma_entry_lines(qs, tail, k);
    lemma_entries_step(qs, k);
    lemma_blanks_text(qs[k].0);
    let ek = entries_lines(qs.take(k));
    assert(all_block_lines(q)[0] == header_line(q.name));
    assert(ls.take(h + 1) =~= ek + blanks(qs[k].0) + seq![header_line(q.name)]) by {
        assert(ls.take(next).take(h + 1) =~= ls.take(h + 1));
    }
    lemma_joined_concat(ek + blanks(qs[k].0), seq![header_line(q.name)]);
    lemma_joined_concat(ek, blanks(qs[k].0));
    lemma_joined_one(header_line(q.name));
}

/// After the header of entry `k`, the search for a header goes on from the
/// next entry.
#[verifier::spinoff_prover]
#[verifier::rlimit(100)]
proof fn lemma_entry_next(qs: Seq<(nat, ProfileView)>, tail: nat, k: int)
    requires
        0 <= k < qs.len(),
        layout_writable(qs),
        layout_text(qs, tail).len() <= usize::MAX,
    ensures
        parse::header_from(
            layout_text(qs, tail),
            entry_start(qs, k) + qs[k].0 + 11 + qs[k].1.name.len(),
        ) == parse::header_from(layout_text(qs, tail), entry_start(qs, k + 1)),
{
    reveal(layout_text);
    let s = layout_text(qs, tail);
    let q = qs[k].1;
    assert(writable_profile(q));
    let g = qs[k].0 as int;
    let b = entry_start(qs, k) + g + 10 + q.name.len();
    let ls = entries_lines(qs) + blanks(tail);
    let h: int = entries_lines(qs.take(k)).len() as int + g;
    let next = entries_lines(qs.take(k + 1)).len() as int;
    let bl = all_block_lines(q);
    lemma_entry_lines(qs, tail, k);
    lemma_entry_header_end(qs, tail, k);
    lemma_layout_blocks_fit(qs, tail);
    lemma_all_block_lines(q);
    lemma_entry_profile(qs, tail, k);
    lemma_header_from_skip(s, b + 1, b + 2);
    assert forall|x: int| h + 1 <= x < next implies quiet(#[trigger] ls[x]) by {
        assert(ls[h + (x - h)] == bl[x - h]);
    }
    lemma_header_from_quiet(s, ls, h + 1, next);
}

/// One step of the reading of profiles: the profile whose header is found,
/// then those read after it.
#[verifier::spinoff_prover]
proof fn lemma_profiles_step(
    s: Seq<char>,
    es: int,
    sp: Span,
    b: int,
    here: ProfileView,
    nxt: int,
    rest: Seq<ProfileView>,
)
    requires
        0 <= es <= b < s.len() <= usize::MAX,
        0 <= nxt <= s.len(),
        parse::header_from(s, es) == Some((es, sp, b)),
        parse::profile_at(s, parse::header_line_start(s, es), sp, b, Seq::empty()) == Some(seq![here]),
        parse::header_from(s, b + 1) == parse::header_from(s, nxt),
        parse::profiles_from(s, nxt, Seq::empty()) == Some(rest),
    ensures
        parse::profiles_from(s, es, Seq::empty()) == Some(seq![here] + rest),
{
    lemma_profiles_from_same(s, b + 1, nxt, Seq::empty());
}

/// From the start of entry `k` on, the configuration reads back as the
/// profiles of the entries from `k` on.
#[verifier::spinoff_prover]
#[verifier::rlimit(100)]
proof fn lemma_layout_profiles(qs: Seq<(nat, ProfileView)>, tail: nat, k: int)
    requires
        0 <= k <= qs.len(),
        layout_writable(qs),
        layout_text(qs, tail).len() <= usize::MAX,
    ensures
        parse::profiles_from(layout_text(qs, tail), entry_start(qs, k), Seq::empty()) == Some(
            layout_back(qs, tail).skip(k),
        ),
    decreases qs.len() - k,
{
    reveal(layout_text);
    let s = layout_text(qs, tail);
    if k == qs.len() {
        assert(qs.take(k) =~= qs);
        lemma_joined_concat(entries_lines(qs), blanks(tail));
        lemma_blanks_text(tail);
        let es = entry_start(qs, k);
        assert forall|r: int| es <= r < s.len() implies #[trigger] s[r] == '\n' by {}
        lemma_tail_no_header(s, es);
        assert(layout_back(qs, tail).skip(k) =~= Seq::<ProfileView>::empty());
    } else {
        let es = entry_start(qs, k);
        let b = es + qs[k].0 + 10 + qs[k].1.name.len();
        lemma_entry_profile(qs, tail, k);
        lemma_entry_next(qs, tail, k);
        lemma_entry_text(qs, tail, k);
        lemma_layout_profiles(qs, tail, k + 1);
        lemma_profiles_step(
            s,
            es,
            span(es + qs[k].0 + 8, b),
            b,
            layout_back(qs, tail)[k],
            entry_start(qs, k + 1),
            layout_back(qs, tail).skip(k + 1),
        );
        assert(layout_back(qs, tail).skip(k) =~= seq![layout_back(qs, tail)[k]] + layout_back(qs, tail).skip(k + 1));
    }
}

/// A configuration made of the blocks written for profiles, each after any
/// number of blank lines and with any number of blank lines after the last,
/// reads back as those profiles, in order: each with its name and its
/// screens as its block reads back (`lemma_block_reads_back`), its text
/// running from the start of its blank lines to its closing brace. This
/// holds where each profile can be written as it is (`writable_profile`).
#[verifier::spinoff_prover]
pub proof fn lemma_layout_reads_back(qs: Seq<(nat, ProfileView)>, tail: nat)
    requires
        layout_writable(qs),
        layout_text(qs, tail).len() <= usize::MAX,
    ensures
        parse::parse_profiles_spec(layout_text(qs, tail)) == Some(layout_back(qs, tail)),
{
    let s = layout_text(qs, tail);
    lemma_layout_lines(qs, tail);
    assert(qs.take(0) =~= Seq::<(nat, ProfileView)>::empty());
    lemma_layout_aliases(qs, tail, 0);
    assert(parse::config_aliases(s) == Some(Seq::<(Seq<char>, Seq<char>)>::empty()));
    lemma_layout_profiles(qs, tail, 0);
    assert(entry_start(qs, 0) == 0);
    assert(layout_back(qs, tail).skip(0) =~= layout_back(qs, tail));
}

// ---------------------------------------------------------------------
// Writing a profile into a configuration of written blocks
// ---------------------------------------------------------------------
/// The first entry from `i` on whose profile is named `name`.
pub open spec fn first_entry_from(qs: Seq<(nat, ProfileView)>, name: Seq<char>, i: int) -> Option<int>
    decreases qs.len() - i,
{
    if !(0 <= i < qs.len()) {
        None
    } else if qs[i].1.name == name {
        Some(i)
    } else {
        first_entry_from(qs, name, i + 1)
    }
}

/// The entries and the closing blank lines after writing profile `p` into a
/// configuration of written blocks: the first entry with `p`'s name holds
/// `p`, after the same blank lines, and the newline that ended the replaced
/// block makes one more blank line after it; when no entry has
/// that name, `p` comes last, after the blank lines that ended the
/// configuration.
pub open spec fn upsert_entries(qs: Seq<(nat, ProfileView)>, tail: nat, p: ProfileView) -> (
    Seq<(nat, ProfileView)>,
    nat,
) {
    match first_entry_from(qs, p.name, 0) {
        Some(k) => if k + 1 < qs.len() {
            (
                qs.update(k, (qs[k].0, p)).update(k + 1, ((qs[k + 1].0 + 1) as nat, qs[k + 1].1)),
                tail,
            )
        } else {
            (qs.update(k, (qs[k].0, p)), tail + 1)
        },
        None => (qs.push((tail, p)), 0nat),
    }
}

/// The first profile named `name` that such a configuration reads back as
/// is that of the first entry with that name.
#[verifier::spinoff_prover]
proof fn lemma_first_entry(qs: Seq<(nat, ProfileView)>, tail: nat, name: Seq<char>, i: int)
    requires
        0 <= i <= qs.len(),
    ensures
        first_entry_from(qs, name, i) matches Some(k) ==> i <= k < qs.len() && qs[k].1.name == name,
        generate::first_named(layout_back(qs, tail).skip(i), name) == match first_entry_from(qs, name, i) {
            Some(k) => Some(layout_back(qs, tail)[k]),
            None => None,
        },
    decreases qs.len() - i,
{
    let lb = layout_back(qs, tail);
    if i == qs.len() {
        assert(lb.skip(i) =~= Seq::<ProfileView>::empty());
    } else {
        lemma_first_entry(qs, tail, name, i + 1);
        assert(lb.skip(i)[0] == lb[i]);
        assert(lb.skip(i).drop_first() =~= lb.skip(i + 1));
    }
}

/// The entries of a configuration, split around entry `k`.
#[verifier::spinoff_prover]
proof fn lemma_entries_around(qs: Seq<(nat, ProfileView)>, k: int)
    requires
        0 <= k < qs.len(),
    ensures
        entries_lines(qs) == entries_lines(qs.take(k)) + (blanks(qs[k].0) + all_block_lines(qs[k].1))
            + entries_lines(qs.skip(k + 1)),
{
    let one = seq![qs[k]];
    let a = qs.take(k);
    let c = qs.skip(k + 1);
    assert(qs =~= a + one + c);
    lemma_entries_concat(a + one, c);
    lemma_entries_concat(a, one);
    assert(one.drop_last() =~= Seq::<(nat, ProfileView)>::empty());
    assert(one.last() == qs[k]);
    let x = blanks(qs[k].0) + all_block_lines(qs[k].1);
    assert(entries_lines(one) == entries_lines(Seq::<(nat, ProfileView)>::empty()) + blanks(qs[k].0)
        + all_block_lines(qs[k].1));
    assert(entries_lines(one) =~= x);
    assert(entries_lines(qs) =~= entries_lines(a) + x + entries_lines(c));
}

/// One blank line more before the first of some entries.
#[verifier::spinoff_prover]
proof fn lemma_entries_bump(r: Seq<(nat, ProfileView)>)
    requires
        r.len() > 0,
    ensures
        entries_lines(r.update(0, ((r[0].0 + 1) as nat, r[0].1))) == seq![Seq::<char>::empty()]
            + entries_lines(r),
{
    let r2 = r.update(0, ((r[0].0 + 1) as nat, r[0].1));
    lemma_entries_around(r, 0);
    lemma_entries_around(r2, 0);
    assert(r.take(0) =~= Seq::<(nat, ProfileView)>::empty());
    assert(r2.take(0) =~= Seq::<(nat, ProfileView)>::empty());
    assert(r2.skip(1) =~= r.skip(1));
    assert(blanks((r[0].0 + 1) as nat) =~= seq![Seq::<char>::empty()] + blanks(r[0].0));
}

/// The text of a configuration before entry `k`, and from the newline that
/// ends its block.
#[verifier::spinoff_prover]
#[verifier::rlimit(50)]
proof fn lemma_text_around(qs: Seq<(nat, ProfileView)>, tail: nat, k: int)
    requires
        0 <= k < qs.len(),
        layout_writable(qs),
        layout_text(qs, tail).len() <= usize::MAX,
    ensures
        ({
            let s = layout_text(qs, tail);
            &&& s.subrange(0, entry_start(qs, k) + qs[k].0) == joined(
                entries_lines(qs.take(k)) + blanks(qs[k].0),
            )
            &&& entry_start(qs, k) + qs[k].0 < entry_start(qs, k + 1)
            &&& s.subrange(entry_start(qs, k + 1) - 1, s.len() as int) == seq!['\n'] + joined(
                entries_lines(qs.skip(k + 1)) + blanks(tail),
            )
            &&& 0 < entry_start(qs, k + 1) <= s.len()
        }),
{
    reveal(layout_text);
    let s = layout_text(qs, tail);
    let ls = entries_lines(qs) + blanks(tail);
    let es = entry_start(qs, k);
    let es1 = entry_start(qs, k + 1);
    let ek = entries_lines(qs.take(k));
    let i = ek.len() as int;
    let next = entries_lines(qs.take(k + 1)).len() as int;
    let rest = entries_lines(qs.skip(k + 1));
    lemma_entry_lines(qs, tail, k);
    lemma_entry_text(qs, tail, k);
    lemma_entries_around(qs, k);
    lemma_entries_step(qs, k);
    assert(ls.skip(next) =~= rest + blanks(tail));
    let eb = ek + blanks(qs[k].0);
    let bl = all_block_lines(qs[k].1);
    assert(ls.take(next) =~= eb + bl);
    assert(ls =~= eb + (bl + ls.skip(next)));
    lemma_joined_concat(eb, bl + ls.skip(next));
    lemma_joined_concat(ek, blanks(qs[k].0));
    lemma_blanks_text(qs[k].0);
    assert(joined(eb).len() == es + qs[k].0);
    assert(s.subrange(0, es + qs[k].0) =~= joined(eb));
    assert(s[es1 - 1] == '\n');
    assert(s.subrange(es1 - 1, s.len() as int) =~= seq!['\n'] + s.skip(es1));
}

/// Writing a profile whose name a profile of the text has replaces the
/// text of the first such profile.
#[verifier::spinoff_prover]
proof fn lemma_upserted_replace(
    s: Seq<char>,
    p: ProfileView,
    ps: Seq<ProfileView>,
    k: int,
    lo: int,
    hi: int,
    left: Seq<char>,
    right: Seq<char>,
)
    requires
        parse::parse_profiles_spec(s) == Some(ps),
        0 <= k < ps.len(),
        generate::first_named(ps, p.name) == Some(ps[k]),
        ps[k].raw_range == Some(
            (text::byte_offset(s, lo) as usize, text::byte_offset(s, hi) as usize),
        ),
        0 <= lo <= hi <= s.len(),
        text::byte_offset(s, s.len() as int) <= usize::MAX,
        s.subrange(0, lo) == left,
        s.subrange(hi, s.len() as int) == right,
    ensures
        generate::upserted(s, p) == left + generate::profile_text(p) + right,
{
    text::lemma_byte_offset_mono(s, 0, lo);
    text::lemma_byte_offset_mono(s, lo, hi);
    text::lemma_byte_offset_mono(s, hi, s.len() as int);
    assert((text::byte_offset(s, lo) as usize) as int == text::byte_offset(s, lo));
    assert((text::byte_offset(s, hi) as usize) as int == text::byte_offset(s, hi));
    text::lemma_char_index_of_offset(s, lo);
    text::lemma_char_index_of_offset(s, hi);
}

/// The profile that writing `p` replaces is that of the first entry with
/// its name.
#[verifier::spinoff_prover]
proof fn lemma_found_profile(qs: Seq<(nat, ProfileView)>, tail: nat, p: ProfileView, k: int)
    requires
        layout_writable(qs),
        layout_text(qs, tail).len() <= usize::MAX,
        first_entry_from(qs, p.name, 0) == Some(k),
    ensures
        parse::parse_profiles_spec(layout_text(qs, tail)) == Some(layout_back(qs, tail)),
        generate::first_named(layout_back(qs, tail), p.name) == Some(layout_back(qs, tail)[k]),
        0 <= k < qs.len(),
        layout_back(qs, tail)[k].raw_range == Some(
            (
                text::byte_offset(layout_text(qs, tail), entry_start(qs, k) + qs[k].0) as usize,
                text::byte_offset(layout_text(qs, tail), entry_start(qs, k + 1) - 1) as usize,
            ),
        ),
{
    lemma_layout_reads_back(qs, tail);
    lemma_first_entry(qs, tail, p.name, 0);
    assert(layout_back(qs, tail).skip(0) =~= layout_back(qs, tail));
}

/// The profiles after writing `p` can all be written as they are.
#[verifier::spinoff_prover]
pub proof fn lemma_upsert_writable(qs: Seq<(nat, ProfileView)>, tail: nat, p: ProfileView)
    requires
        layout_writable(qs),
        writable_profile(p),
    ensures
        layout_writable(upsert_entries(qs, tail, p).0),
{
    let qs2 = upsert_entries(qs, tail, p).0;
    lemma_first_entry(qs, tail, p.name, 0);
    match first_entry_from(qs, p.name, 0) {
        Some(k) => {
            assert forall|j: int| 0 <= j < qs2.len() implies writable_profile(#[trigger] qs2[j].1) by {
                if j != k {
                    assert(qs2[j].1 == qs[j].1);
                }
            }
        },
        None => {
            assert forall|j: int| 0 <= j < qs2.len() implies writable_profile(#[trigger] qs2[j].1) by {
                if j < qs.len() {
                    assert(qs2[j] == qs[j]);
                }
            }
        },
    }
}

/// Writing a profile whose name entry `k` has first replaces the block of
/// entry `k`, blank lines before it included, and keeps the newline after
/// it.
#[verifier::spinoff_prover]
#[verifier::rlimit(50)]
proof fn lemma_upsert_found(qs: Seq<(nat, ProfileView)>, tail: nat, p: ProfileView, k: int)
    requires
        layout_writable(qs),
        layout_text(qs, tail).len() <= usize::MAX,
        text::byte_offset(layout_text(qs, tail), layout_text(qs, tail).len() as int) <= usize::MAX,
        first_entry_from(qs, p.name, 0) == Some(k),
    ensures
        0 <= k < qs.len(),
        generate::upserted(layout_text(qs, tail), p) == joined(entries_lines(qs.take(k)) + blanks(qs[k].0))
            + generate::profile_text(p) + (seq!['\n'] + joined(entries_lines(qs.skip(k + 1)) + blanks(tail))),
{
    let s = layout_text(qs, tail);
    lemma_found_profile(qs, tail, p, k);
    lemma_text_around(qs, tail, k);
    let es = entry_start(qs, k);
    let es1 = entry_start(qs, k + 1);
    lemma_entry_text(qs, tail, k);
    lemma_upserted_replace(
        s,
        p,
        layout_back(qs, tail),
        k,
        es + qs[k].0,
        es1 - 1,
        joined(entries_lines(qs.take(k)) + blanks(qs[k].0)),
        seq!['\n'] + joined(entries_lines(qs.skip(k + 1)) + blanks(tail)),
    );
}

/// The text of the configuration of the entries after replacing entry `k`.
#[verifier::spinoff_prover]
#[verifier::rlimit(100)]
proof fn lemma_replaced_layout(qs: Seq<(nat, ProfileView)>, tail: nat, p: ProfileView, k: int)
    requires
        first_entry_from(qs, p.name, 0) == Some(k),
        writable_profile(p),
    ensures
        layout_text(upsert_entries(qs, tail, p).0, upsert_entries(qs, tail, p).1) == joined(
            entries_lines(qs.take(k)) + blanks(qs[k].0),
        ) + generate::profile_text(p) + (seq!['\n'] + joined(entries_lines(qs.skip(k + 1)) + blanks(tail))),
{
    reveal(layout_text);
    lemma_first_entry(qs, tail, p.name, 0);
    let (qs2, t2) = upsert_entries(qs, tail, p);
    let ek = entries_lines(qs.take(k));
    let rest = entries_lines(qs.skip(k + 1));
    let e = Seq::<char>::empty();
    let qs1 = qs.update(k, (qs[k].0, p));
    lemma_entries_around(qs1, k);
    assert(qs1.take(k) =~= qs.take(k));
    assert(qs1.skip(k + 1) =~= qs.skip(k + 1));
    assert(blanks(0) =~= Seq::<Seq<char>>::empty());
    lemma_all_block_text(p);
    lemma_joined_one(e);
    if k + 1 < qs.len() {
        assert(qs2 =~= qs1.update(k + 1, ((qs[k + 1].0 + 1) as nat, qs[k + 1].1)));
        lemma_entries_around(qs2, k);
        assert(qs2.take(k) =~= qs.take(k));
        let r = qs.skip(k + 1);
        assert(qs2.skip(k + 1) =~= r.update(0, ((r[0].0 + 1) as nat, r[0].1)));
        lemma_entries_bump(r);
    } else {
        assert(qs.skip(k + 1) =~= Seq::<(nat, ProfileView)>::empty());
        assert(rest =~= Seq::<Seq<char>>::empty());
        assert(qs2 =~= qs1);
        assert(blanks(tail + 1) =~= seq![e] + blanks(tail));
    }
    let l2 = entries_lines(qs2) + blanks(t2);
    let eb = ek + blanks(qs[k].0);
    assert(l2 =~= eb + all_block_lines(p) + (seq![e] + (rest + blanks(tail))));
    lemma_joined_concat(eb + all_block_lines(p), seq![e] + (rest + blanks(tail)));
    lemma_joined_concat(eb, all_block_lines(p));
    lemma_joined_concat(seq![e], rest + blanks(tail));
}

/// Writing a profile that no entry names appends its block.
#[verifier::spinoff_prover]
#[verifier::rlimit(50)]
proof fn lemma_upsert_appended(qs: Seq<(nat, ProfileView)>, tail: nat, p: ProfileView)
    requires
        layout_writable(qs),
        layout_text(qs, tail).len() <= usize::MAX,
        writable_profile(p),
        first_entry_from(qs, p.name, 0) is None,
    ensures
        generate::upserted(layout_text(qs, tail), p) == layout_text(
            upsert_entries(qs, tail, p).0,
            upsert_entries(qs, tail, p).1,
        ),
{
    reveal(layout_text);
    let s = layout_text(qs, tail);
    let ls = entries_lines(qs) + blanks(tail);
    let pt = generate::profile_text(p);
    lemma_layout_reads_back(qs, tail);
    lemma_first_entry(qs, tail, p.name, 0);
    assert(layout_back(qs, tail).skip(0) =~= layout_back(qs, tail));
    assert(generate::first_named(layout_back(qs, tail), p.name) is None);
    if ls.len() > 0 {
        lemma_joined_last(ls);
    }
    assert(generate::upserted(s, p) == s + pt);
    let (qs2, t2) = upsert_entries(qs, tail, p);
    assert(qs2.drop_last() =~= qs);
    assert(qs2.last() == (tail, p));
    assert(blanks(0) =~= Seq::<Seq<char>>::empty());
    lemma_all_block_text(p);
    assert(entries_lines(qs2) + blanks(t2) =~= ls + all_block_lines(p));
    lemma_joined_concat(ls, all_block_lines(p));
}

/// Writing a profile into a configuration of written blocks gives the
/// configuration of the entries of `upsert_entries`: the block of the
/// first profile of that name, blank lines before it included, is replaced
/// and the newline after it kept; where no profile has that name, the block
/// is appended.
#[verifier::spinoff_prover]
pub proof fn lemma_upsert_layout_text(qs: Seq<(nat, ProfileView)>, tail: nat, p: ProfileView)
    requires
        layout_writable(qs),
        layout_text(qs, tail).len() <= usize::MAX,
        text::byte_offset(layout_text(qs, tail), layout_text(qs, tail).len() as int) <= usize::MAX,
        writable_profile(p),
    ensures
        generate::upserted(layout_text(qs, tail), p) == layout_text(
            upsert_entries(qs, tail, p).0,
            upsert_entries(qs, tail, p).1,
        ),
{
    match first_entry_from(qs, p.name, 0) {
        Some(k) => {
            lemma_upsert_found(qs, tail, p, k);
            lemma_replaced_layout(qs, tail, p, k);
        },
        None => {
            lemma_upsert_appended(qs, tail, p);
        },
    }
}

} // verus!
