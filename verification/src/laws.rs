//! What the library promises across its parts: numbers, modes, positions
//! and profile blocks written as the configuration writes them read back as
//! themselves; what a block-style declaration's lines and an alias
//! declaration set; where a mirroring screen is placed and how it is scaled;
//! where a screen goes when it stops mirroring; the screens made for
//! connected outputs; and what refreshing and restarting do.

use vstd::prelude::*;

use crate::editor;
use crate::generate;
use crate::matching;
use crate::model::{self, OutputView, ProfileView, ScreenView};
use crate::parse;
use crate::readback;
use crate::restart::{self, RestartAction, RestartStage};
use crate::sway;
use crate::grammar::{self, span, text_of};
use crate::text::{self, all_digits, digits_value, fmt_nat, fmt_int, fmt_milli, is_digit, is_ws, Stop};

verus! {

// ---------------------------------------------------------------------
// Numbers
// ---------------------------------------------------------------------
pub proof fn lemma_digit_char(d: int)
    requires
        0 <= d < 10,
    ensures
        is_digit(text::digit_char(d)),
        text::digit_val(text::digit_char(d)) == d,
{
}

/// The decimal text of a natural number is a non-empty run of digits whose
/// value is that number.
pub proof fn lemma_fmt_nat(n: nat)
    ensures
        fmt_nat(n).len() > 0,
        all_digits(fmt_nat(n)),
        digits_value(fmt_nat(n)) == n,
    decreases n,
{
    lemma_digit_char((n % 10) as int);
    if n < 10 {
        let s = fmt_nat(n);
        assert(s.drop_last() =~= Seq::<char>::empty());
        assert(digits_value(s.drop_last()) == 0);
        assert(s.last() == text::digit_char(n as int));
    } else {
        lemma_fmt_nat(n / 10);
        let s = fmt_nat(n);
        assert(s.drop_last() =~= fmt_nat(n / 10));
        assert(s.last() == text::digit_char((n % 10) as int));
        assert(digits_value(s) == digits_value(fmt_nat(n / 10)) * 10 + text::digit_val(s.last()));
        assert forall|i: int| 0 <= i < s.len() implies is_digit(#[trigger] s[i]) by {
            if i < s.len() - 1 {
                assert(s[i] == fmt_nat(n / 10)[i]);
            }
        }
    }
}

/// A width or height written in a mode reads back as itself.
pub proof fn lemma_digits_u32_round_trip(w: u32)
    ensures
        text::digits_u32(fmt_nat(w as nat)) == Some(w),
{
    lemma_fmt_nat(w as nat);
}

/// A position written in an output line reads back as itself.
pub proof fn lemma_parse_i32_round_trip(x: i32)
    ensures
        text::parse_i32(fmt_int(x as int)) == Some(x),
{
    if x < 0 {
        lemma_fmt_nat((-x) as nat);
        let s = fmt_int(x as int);
        assert(s.drop_first() =~= fmt_nat((-x) as nat));
    } else {
        lemma_fmt_nat(x as nat);
        assert(fmt_nat(x as nat)[0] != '-' && fmt_nat(x as nat)[0] != '+') by {
            assert(is_digit(fmt_nat(x as nat)[0]));
        }
    }
}

proof fn lemma_frac_digits(f: int)
    requires
        0 < f < 1000,
    ensures
        1 <= text::frac_digits(f).len() <= 3,
        all_digits(text::frac_digits(f)),
        text::frac_milli(text::frac_digits(f)) == f,
{
    let d = text::frac_digits(f);
    let d1 = f / 100;
    let d2 = (f / 10) % 10;
    let d3 = f % 10;
    assert(f == d1 * 100 + d2 * 10 + d3);
    lemma_digit_char(d1);
    lemma_digit_char(d2);
    lemma_digit_char(d3);
    let c1 = seq![text::digit_char(d1)];
    let c12 = seq![text::digit_char(d1), text::digit_char(d2)];
    assert(c1.drop_last() =~= Seq::<char>::empty());
    assert(digits_value(c1.drop_last()) == 0);
    assert(c1.last() == text::digit_char(d1));
    assert(digits_value(c1) == d1);
    assert(c12.drop_last() =~= c1);
    assert(c12.last() == text::digit_char(d2));
    assert(digits_value(c12) == d1 * 10 + d2);
    if d3 != 0 {
        assert(d.take(3) =~= d);
        assert(d.drop_last() =~= c12);
        assert(d.last() == text::digit_char(d3));
        assert(digits_value(d) == (d1 * 10 + d2) * 10 + d3);
    } else if d2 != 0 {
        assert(d =~= c12);
    } else {
        assert(d =~= c1);
    }
}

/// A non-negative number of thousandths written as the configuration
/// writes it (a scale, a refresh rate) reads back as itself.
pub proof fn lemma_decimal_milli_round_trip(m: i64)
    requires
        m >= 0,
    ensures
        text::decimal_milli(fmt_milli(m as int)) == Some(m),
        forall|i: int|
            0 <= i < fmt_milli(m as int).len() ==> is_digit(#[trigger] fmt_milli(m as int)[i])
                || fmt_milli(m as int)[i] == '.',
        fmt_milli(m as int).len() > 0,
{
    let s = fmt_milli(m as int);
    let q = m / 1000;
    let f = m % 1000;
    lemma_fmt_nat(q as nat);
    let ip = fmt_nat(q as nat);
    assert(s.take(ip.len() as int) =~= ip);
    if f == 0 {
        assert(s =~= ip);
        text::lemma_scan(s, 0, text::Stop::Char('.'));
        assert(text::next_dot(s, 0) == s.len()) by {
            if text::next_dot(s, 0) < s.len() {
                assert(is_digit(s[text::next_dot(s, 0)]));
            }
        }
        assert(s.take(s.len() as int) =~= s);
    } else {
        lemma_frac_digits(f as int);
        let fd = text::frac_digits(f as int);
        assert(s =~= ip + seq!['.'] + fd);
        text::lemma_scan(s, 0, text::Stop::Char('.'));
        assert(text::next_dot(s, 0) == ip.len()) by {
            let p = text::next_dot(s, 0);
            if p < ip.len() {
                assert(s[p] == ip[p]);
                assert(is_digit(ip[p]));
            }
            assert(s[ip.len() as int] == '.');
        }
        assert(s.skip(ip.len() as int + 1) =~= fd);
        assert forall|i: int| 0 <= i < s.len() implies is_digit(#[trigger] s[i]) || s[i] == '.' by {
            if i < ip.len() {
                assert(s[i] == ip[i]);
            } else if i > ip.len() {
                assert(s[i] == fd[i - ip.len() - 1]);
            }
        }
    }
}

// ---------------------------------------------------------------------
// The profile made for unmatched outputs
// ---------------------------------------------------------------------
/// The name a new profile gets is taken by no profile, and starts with the
/// name first tried.
pub proof fn lemma_unique_name(names: Seq<Seq<char>>, cand: Seq<char>, idx: nat)
    ensures
        !names.contains(editor::unique_name(names, cand, idx)),
        editor::unique_name(names, cand, idx).len() >= cand.len(),
        editor::unique_name(names, cand, idx).take(cand.len() as int) == cand,
    decreases editor::count_at_least(names, cand.len() as int),
{
    if names.contains(cand) {
        let next = cand + seq![' ', '('] + fmt_nat(idx + 1) + seq![')'];
        editor::lemma_count_at_least(names, cand, next.len() as int);
        lemma_unique_name(names, next, idx + 1);
        let r = editor::unique_name(names, cand, idx);
        assert(r.take(next.len() as int) == next);
        assert(r.take(cand.len() as int) =~= next.take(cand.len() as int));
        assert(next.take(cand.len() as int) =~= cand);
    } else {
        assert(cand.take(cand.len() as int) =~= cand);
    }
}

/// A display is known by its make, model and serial, in that order and
/// separated by single spaces (the serial left out when absent), when both
/// make and model are given; otherwise by its connector name.
pub proof fn lemma_display_id(
    make: Seq<char>,
    model_name: Seq<char>,
    serial: Seq<char>,
    connector: Seq<char>,
    other: Option<Seq<char>>,
    serial_opt: Option<Seq<char>>,
)
    requires
        make.len() > 0 && !is_ws(make[0]) && !is_ws(make.last()),
        model_name.len() > 0 && !is_ws(model_name[0]) && !is_ws(model_name.last()),
        serial.len() > 0 && !is_ws(serial[0]) && !is_ws(serial.last()),
    ensures
        model::display_id_of(Some(make), Some(model_name), Some(serial), connector) == make
            + seq![' '] + model_name + seq![' '] + serial,
        model::display_id_of(Some(make), Some(model_name), None, connector) == make + seq![' ']
            + model_name,
        model::display_id_of(None, other, serial_opt, connector) == connector,
        model::display_id_of(other, None, serial_opt, connector) == connector,
{
    assert(make.last() == make[make.len() - 1]);
    assert(model_name.last() == model_name[model_name.len() - 1]);
    assert(serial.last() == serial[serial.len() - 1]);
    readback::lemma_trim_exact(make, 0, make.len() as int);
    readback::lemma_trim_exact(model_name, 0, model_name.len() as int);
    readback::lemma_trim_exact(serial, 0, serial.len() as int);
    assert(make.subrange(0, make.len() as int) =~= make);
    assert(model_name.subrange(0, model_name.len() as int) =~= model_name);
    assert(serial.subrange(0, serial.len() as int) =~= serial);
    let p3 = model::id_part(Some(make)) + model::id_part(Some(model_name)) + model::id_part(
        Some(serial),
    );
    assert(p3 =~= seq![make, model_name, serial]);
    assert(p3.drop_last() =~= seq![make, model_name]);
    assert(p3.drop_last().drop_last() =~= seq![make]);
    let p2 = model::id_part(Some(make)) + model::id_part(Some(model_name)) + model::id_part(None);
    assert(p2 =~= seq![make, model_name]);
    assert(p2.drop_last() =~= seq![make]);
    assert(model::id_part(None).len() == 0);
    let sp = seq![' '];
    assert(model::join(seq![make], sp) == make);
    assert(model::join(seq![make, model_name], sp) == make + sp + model_name) by {
        assert(seq![make, model_name].drop_last() =~= seq![make]);
    }
    assert(model::join(seq![make, model_name, serial], sp) == make + sp + model_name + sp
        + serial) by {
        assert(seq![make, model_name, serial].drop_last() =~= seq![make, model_name]);
        assert(seq![make, model_name].drop_last() =~= seq![make]);
    }
}

/// When every connected output has a mode, the profile made for them
/// matches them: its screens are the outputs, by display id.
pub proof fn lemma_default_screens_match(outs: Seq<OutputView>)
    requires
        forall|i: int| 0 <= i < outs.len() ==> (#[trigger] outs[i]).available_modes.len() > 0,
    ensures
        matching::screen_ids(editor::default_screens(outs)) == matching::output_ids(outs),
        matching::matches_hardware(outs, editor::default_screens(outs)),
    decreases outs.len(),
{
    if outs.len() > 0 {
        let rest = outs.drop_last();
        assert forall|i: int| 0 <= i < rest.len() implies (#[trigger] rest[i]).available_modes.len() > 0 by {
            assert(rest[i] == outs[i]);
        }
        lemma_default_screens_match(rest);
        let o = outs.last();
        assert(o == outs[outs.len() - 1]);
        model::lemma_best_mode_of(o.available_modes);
        let prev = editor::default_screens(rest);
        let sc = sway::default_screen(o, (outs.len() - 1) as usize)->0;
        assert(editor::default_screens(outs) == prev.push(sc));
        assert(matching::screen_ids(prev.push(sc)) =~= matching::screen_ids(prev).push(sc.id));
        assert(matching::output_ids(outs) =~= matching::output_ids(rest).push(
            model::display_id_of(o.make, o.model, o.serial, o.connector_name),
        ));
    } else {
        assert(matching::screen_ids(editor::default_screens(outs)) =~= matching::output_ids(outs));
    }
}

/// A connected output starts as a screen exactly when it has a mode, and
/// that screen is enabled, unmirrored, at scale one and on the top edge,
/// whatever its place among the outputs; its mode is the output's best one,
/// and it stands at its index times that mode's width across.
pub proof fn lemma_default_screen_enabled(o: OutputView, index: usize)
    ensures
        sway::default_screen(o, index) is Some <==> o.available_modes.len() > 0,
        sway::default_screen(o, index) matches Some(sc) ==> {
            &&& sc.enabled
            &&& !sc.mirror
            &&& sc.mirror_target is None
            &&& sc.scale_milli == 1000
            &&& sc.pos_y == 0
            &&& o.available_modes.contains(sc.selected_mode)
            &&& forall|j: int|
                0 <= j < o.available_modes.len() ==> model::mode_le(
                    #[trigger] o.available_modes[j],
                    sc.selected_mode,
                )
            &&& (i32::MIN <= (index as i32) * (sc.selected_mode.width as i32) <= i32::MAX
                ==> sc.pos_x == (index as i32) * (sc.selected_mode.width as i32))
        },
{
    model::lemma_best_mode_of(o.available_modes);
}

/// Every screen of the profile made for the connected outputs is enabled,
/// unmirrored, at scale one and on the top edge, and there is one for each
/// output that has a mode.
pub proof fn lemma_default_screens_enabled(outs: Seq<OutputView>)
    ensures
        forall|i: int|
            0 <= i < editor::default_screens(outs).len() ==> {
                &&& (#[trigger] editor::default_screens(outs)[i]).enabled
                &&& !editor::default_screens(outs)[i].mirror
                &&& editor::default_screens(outs)[i].scale_milli == 1000
                &&& editor::default_screens(outs)[i].pos_y == 0
            },
        (forall|i: int| 0 <= i < outs.len() ==> (#[trigger] outs[i]).available_modes.len() > 0)
            ==> editor::default_screens(outs).len() == outs.len(),
    decreases outs.len(),
{
    if outs.len() > 0 {
        let rest = outs.drop_last();
        lemma_default_screens_enabled(rest);
        let o = outs.last();
        lemma_default_screen_enabled(o, (outs.len() - 1) as usize);
        let prev = editor::default_screens(rest);
        let ds = editor::default_screens(outs);
        assert forall|i: int| 0 <= i < ds.len() implies {
            &&& (#[trigger] ds[i]).enabled
            &&& !ds[i].mirror
            &&& ds[i].scale_milli == 1000
            &&& ds[i].pos_y == 0
        } by {
            if i < prev.len() {
                assert(ds[i] == prev[i]);
            }
        }
        if forall|i: int| 0 <= i < outs.len() ==> (#[trigger] outs[i]).available_modes.len() > 0 {
            assert forall|i: int| 0 <= i < rest.len() implies (#[trigger] rest[i]).available_modes.len() > 0 by {
                assert(rest[i] == outs[i]);
            }
            assert(o == outs[outs.len() - 1]);
        }
    }
}

// ---------------------------------------------------------------------
// Writing a profile into the configuration
// ---------------------------------------------------------------------
/// An empty configuration holds no profile.
pub proof fn lemma_empty_config()
    ensures
        parse::parse_profiles_spec(Seq::<char>::empty()) == Some(Seq::<ProfileView>::empty()),
{
    reveal_strlit("profile");
    let e = Seq::<char>::empty();
    assert(text::lines(e) =~= Seq::<Seq<char>>::empty());
    assert(text::skip_ws(e, 0) == 0);
    assert(parse::config_aliases(e) == Some(Seq::<(Seq<char>, Seq<char>)>::empty()));
    assert(!text::occurs_at(e, text::skip_ws(e, 0), "profile"@));
    assert(parse::header_from(e, 1) is None);
    assert(parse::header_from(e, 0) is None);
}

/// Writing a profile into an empty configuration and reading the
/// configuration back gives that profile, as its block reads back
/// (`readback::lemma_block_reads_back`).
pub proof fn lemma_new_config_reads_back(p: ProfileView)
    requires
        readback::writable_profile(p),
        generate::profile_text(p).len() <= usize::MAX,
    ensures
        parse::parse_profiles_spec(generate::upserted(Seq::empty(), p)) == Some(
            seq![readback::read_back_all(
                p,
                text::byte_offset(generate::profile_text(p), generate::profile_text(p).len() - 1),
            )],
        ),
{
    lemma_empty_config();
    assert(generate::first_named(Seq::<ProfileView>::empty(), p.name) is None);
    assert(generate::upserted(Seq::empty(), p) =~= generate::profile_text(p));
    readback::lemma_block_reads_back(p);
}

/// The output line written for a screen that mirrors no other: its own
/// position and scale.
pub open spec fn own_line(sc: ScreenView) -> Seq<char> {
    generate::output_line(sc, sc.pos_x, sc.pos_y, text::fmt_milli(sc.scale_milli as int))
}

proof fn lemma_plain_screens_text(all: Seq<ScreenView>, k: int)
    requires
        0 <= k <= all.len(),
        forall|i: int| 0 <= i < all.len() ==> generate::mirror_of(all, #[trigger] all[i]) is None,
    ensures
        generate::screens_text(all, k) == all.take(k).map_values(|sc: ScreenView| own_line(sc)).flatten_alt(),
    decreases k,
{
    let ls = all.take(k).map_values(|sc: ScreenView| own_line(sc));
    if k == 0 {
        assert(ls =~= Seq::<Seq<char>>::empty());
    } else {
        lemma_plain_screens_text(all, k - 1);
        assert(ls.drop_last() =~= all.take(k - 1).map_values(|sc: ScreenView| own_line(sc)));
        assert(generate::mirror_of(all, all[k - 1]) is None);
        assert(ls.last() == own_line(all[k - 1]));
    }
}

/// When no screen of a profile mirrors another of its screens, the block
/// written for it is the header `profile "NAME"{`, then each screen's output
/// line (id, state, mode, its own position and scale) in order, then
/// `exec notify-send "NAME"` and the closing brace, the name with each `"`
/// escaped.
pub proof fn lemma_plain_block_text(p: ProfileView)
    requires
        forall|i: int|
            0 <= i < p.screens.len() ==> generate::mirror_of(p.screens, #[trigger] p.screens[i]) is None,
    ensures
        generate::profile_text(p) == "profile \""@ + generate::escape_double_quotes(p.name) + "\"{\n"@
            + p.screens.map_values(|sc: ScreenView| own_line(sc)).flatten() + "  exec notify-send \""@
            + generate::escape_double_quotes(p.name) + "\"\n"@ + "}\n"@,
{
    let n = p.screens.len() as int;
    lemma_plain_screens_text(p.screens, n);
    assert(p.screens.take(n) =~= p.screens);
    p.screens.map_values(|sc: ScreenView| own_line(sc)).lemma_flatten_and_flatten_alt_are_equivalent();
}

/// Writing a profile into the configuration keeps the rest of the text: the
/// block of the first profile with the same name, from the start of its
/// header line to its closing brace (its byte range taken back to
/// characters), is replaced by the new block and all before and after it is
/// kept; when there is none, the text is kept whole and the block comes
/// after it.
pub proof fn lemma_upsert_keeps_rest(existing: Seq<char>, p: ProfileView)
    requires
        parse::parse_profiles_spec(existing) is Some,
        text::byte_offset(existing, existing.len() as int) <= usize::MAX,
    ensures
        ({
            let ps = parse::parse_profiles_spec(existing)->0;
            let r = generate::upserted(existing, p);
            match generate::first_named(ps, p.name) {
                Some(old) if old.raw_range is Some => {
                    let (a, b) = old.raw_range->0;
                    let ca = text::char_index(existing, a as int);
                    let cb = text::char_index(existing, b as int);
                    &&& 0 <= ca < cb <= existing.len()
                    &&& parse::line_start(existing, ca)
                    &&& existing[cb - 1] == '}'
                    &&& text::byte_offset(existing, ca) == a
                    &&& text::byte_offset(existing, cb) == b
                    &&& r == existing.take(ca) + generate::profile_text(p) + existing.skip(cb)
                },
                _ => r == existing + if existing.len() > 0 && existing.last() != '\n' {
                    seq!['\n']
                } else {
                    Seq::<char>::empty()
                } + generate::profile_text(p),
            }
        }),
{
    let ps = parse::parse_profiles_spec(existing)->0;
    let r = generate::upserted(existing, p);
    let block = generate::profile_text(p);
    match generate::first_named(ps, p.name) {
        Some(old) => {
            if let Some((a, b)) = old.raw_range {
                lemma_first_named_range(existing, ps, p.name);
                let (h, e) = choose|h: int, e: int|
                    0 <= h < e <= existing.len() && parse::line_start(existing, h) && existing[e - 1]
                        == '}' && (a, b) == (
                        #[trigger] text::byte_offset(existing, h) as usize,
                        #[trigger] text::byte_offset(existing, e) as usize,
                    );
                text::lemma_byte_offset_mono(existing, h, e);
                text::lemma_byte_offset_mono(existing, e, existing.len() as int);
                text::lemma_byte_offset_mono(existing, 0, h);
                assert(a as int == text::byte_offset(existing, h));
                assert(b as int == text::byte_offset(existing, e));
                text::lemma_char_index_of_offset(existing, h);
                text::lemma_char_index_of_offset(existing, e);
                assert(existing.subrange(0, h) =~= existing.take(h));
                assert(existing.subrange(e, existing.len() as int) =~= existing.skip(e));
            } else {
                assert(r =~= existing + if existing.len() > 0 && existing.last() != '\n' {
                    seq!['\n']
                } else {
                    Seq::<char>::empty()
                } + block);
            }
        },
        None => {
            assert(r =~= existing + if existing.len() > 0 && existing.last() != '\n' {
                seq!['\n']
            } else {
                Seq::<char>::empty()
            } + block);
        },
    }
}

proof fn lemma_first_named_range(s: Seq<char>, ps: Seq<ProfileView>, name: Seq<char>)
    requires
        parse::parse_profiles_spec(s) == Some(ps),
        text::byte_offset(s, s.len() as int) <= usize::MAX,
    ensures
        generate::first_named(ps, name) matches Some(old) ==> (old.raw_range matches Some((a, b))
            ==> a <= b <= text::byte_offset(s, s.len() as int) && range_in(s, (a, b))),
{
    if let Some(al) = parse::config_aliases(s) {
        lemma_profiles_from_ranges(s, 0, al);
    }
    lemma_first_named_in(ps, name);
}

proof fn lemma_brace_close_in(s: Seq<char>, i: int, d: int)
    requires
        0 <= i,
    ensures
        parse::brace_close(s, i, d) matches Some(e) ==> i <= e < s.len() && s[e] == '}',
    decreases s.len() - i,
{
    if 0 <= i < s.len() {
        if s[i] == '{' {
            lemma_brace_close_in(s, i + 1, d + 1);
        } else if s[i] == '}' {
            if d > 1 {
                lemma_brace_close_in(s, i + 1, d - 1);
            }
        } else {
            lemma_brace_close_in(s, i + 1, d);
        }
    }
}

/// A byte range of `s` that runs from the start of a line to just past a
/// `}`.
pub open spec fn range_in(s: Seq<char>, r: (usize, usize)) -> bool {
    exists|h: int, e: int|
        0 <= h < e <= s.len() && parse::line_start(s, h) && s[e - 1] == '}' && r == (
            #[trigger] text::byte_offset(s, h) as usize,
            #[trigger] text::byte_offset(s, e) as usize,
        )
}

/// Each profile read from a text carries a range `a..b` of the text, `a <
/// b`.
pub proof fn lemma_profiles_from_ranges(s: Seq<char>, from: int, al: parse::Entries)
    requires
        0 <= from,
        text::byte_offset(s, s.len() as int) <= usize::MAX,
    ensures
        parse::profiles_from(s, from, al) matches Some(ps) ==> forall|i: int|
            0 <= i < ps.len() ==> ((#[trigger] ps[i]).raw_range matches Some((a, b)) && a < b
                <= text::byte_offset(s, s.len() as int) && range_in(s, (a, b))),
    decreases s.len() + 1 - from,
{
    if 0 <= from <= s.len() <= usize::MAX {
        if let Some((p, sp, b)) = parse::header_from(s, from) {
            parse::lemma_header_from(s, from);
            parse::lemma_header_at(s, p);
            text::lemma_skip_ws(s, p);
            parse::lemma_line_head_from(s, p, text::skip_ws(s, p));
            lemma_brace_close_in(s, b, 0);
            if let Some(e) = parse::brace_close(s, b, 0) {
                text::lemma_byte_offset_mono(s, parse::header_line_start(s, p), e + 1);
                text::lemma_byte_offset_mono(s, e + 1, s.len() as int);
            }
            lemma_profiles_from_ranges(s, b + 1, al);
            if let Some(ps) = parse::profiles_from(s, from, al) {
                let here = parse::profile_at(s, parse::header_line_start(s, p), sp, b, al)->0;
                let more = parse::profiles_from(s, b + 1, al)->0;
                assert(ps == here + more);
                assert forall|i: int| 0 <= i < ps.len() implies ((#[trigger] ps[i]).raw_range matches Some(
                    (a, b),
                ) && a < b <= text::byte_offset(s, s.len() as int) && range_in(s, (a, b))) by {
                    if i < here.len() {
                        assert(ps[i] == here[i]);
                        let h = parse::header_line_start(s, p);
                        let e = parse::brace_close(s, b, 0)->0;
                        assert(parse::line_start(s, h));
                        assert(0 <= h < e + 1 <= s.len() && s[e + 1 - 1] == '}');
                        assert(range_in(
                            s,
                            (text::byte_offset(s, h) as usize, text::byte_offset(s, e + 1) as usize),
                        ));
                    } else {
                        assert(ps[i] == more[i - here.len()]);
                    }
                }
            }
        }
    }
}

proof fn lemma_first_named_in(ps: Seq<ProfileView>, name: Seq<char>)
    ensures
        generate::first_named(ps, name) matches Some(old) ==> ps.contains(old),
    decreases ps.len(),
{
    if ps.len() > 0 && ps[0].name != name {
        lemma_first_named_in(ps.drop_first(), name);
        if let Some(old) = generate::first_named(ps, name) {
            let k = choose|k: int| 0 <= k < ps.drop_first().len() && ps.drop_first()[k] == old;
            assert(ps[k + 1] == old);
        }
    }
}

// ---------------------------------------------------------------------
// Restarting kanshi
// ---------------------------------------------------------------------
/// How far a restart has got, as a number.
pub open spec fn stage_rank(st: RestartStage) -> int {
    match st {
        RestartStage::Begin => 0,
        RestartStage::TriedService => 1,
        RestartStage::EnsuredService => 2,
        RestartStage::TriedKanshiUnit => 3,
        RestartStage::RetriedService => 4,
        RestartStage::FellBack => 5,
        RestartStage::Done => 6,
    }
}

/// Each step of a restart moves it forward until it is done; kanshi is
/// spawned by hand only once restarting `kanshi.service`, then the unit
/// `kanshi`, then `kanshi.service` again, have all failed; and a restart
/// reports success exactly when the last thing tried succeeded.
pub proof fn lemma_restart_order(st: RestartStage, ok: bool)
    ensures
        st != RestartStage::Done ==> stage_rank(restart::restart_step(st, ok).0) > stage_rank(st),
        restart::restart_step(st, ok).1 == RestartAction::Fallback ==> st
            == RestartStage::RetriedService && !ok,
        restart::restart_step(st, ok).1 == RestartAction::EnsureUserService ==> st
            == RestartStage::TriedService && !ok,
        st != RestartStage::Begin && st != RestartStage::EnsuredService ==> (
        restart::restart_step(st, ok).1 matches RestartAction::Finish(r) ==> r == ok),
        restart::restart_step(st, ok).1 is Finish <==> restart::restart_step(st, ok).0
            == RestartStage::Done,
{
}

/// Driving a restart: from `stage`, with `ok` the outcome of the action
/// last performed and `outcomes` those of the actions still to come, in
/// order; the result reported, if the outcomes last until it is reported.
pub open spec fn drive_restart(stage: RestartStage, ok: bool, outcomes: Seq<bool>) -> Option<bool>
    decreases outcomes.len(),
{
    match restart::restart_step(stage, ok) {
        (_, RestartAction::Finish(r)) => Some(r),
        (next, _) => if outcomes.len() == 0 {
            None
        } else {
            drive_restart(next, outcomes[0], outcomes.drop_first())
        },
    }
}

/// A restart succeeds exactly when restarting `kanshi.service` (`a`),
/// restarting the unit `kanshi` (`b`), restarting `kanshi.service` again
/// (`c`) or the fallback spawn (`f`) succeeds, these tried in that order
/// until one succeeds; whether setting up the user service (`e`, done
/// between the first two) succeeded never matters.
pub proof fn lemma_restart_result(a: bool, e: bool, b: bool, c: bool, f: bool)
    ensures
        drive_restart(RestartStage::Begin, false, seq![a, e, b, c, f]) == Some(a || b || c || f),
{
    reveal_with_fuel(drive_restart, 7);
    let o = seq![a, e, b, c, f];
    assert(o.drop_first() =~= seq![e, b, c, f]);
    assert(seq![e, b, c, f].drop_first() =~= seq![b, c, f]);
    assert(seq![b, c, f].drop_first() =~= seq![c, f]);
    assert(seq![c, f].drop_first() =~= seq![f]);
    assert(seq![f].drop_first() =~= Seq::<bool>::empty());
}

/// After a refresh that had the outputs, the editor holds a profile whose
/// screens are the connected outputs, editable: the first profile of the
/// configuration that matches them (none before it does), the profiles
/// kept as read; or, when none matches, a profile made for the outputs
/// (their default screens, when each output has a mode), under a name no
/// read profile has, added after the read ones.
pub proof fn lemma_refresh_loads_matching(
    s: editor::AppStateView,
    outputs: Vec<model::RuntimeOutput>,
    loaded: Result<(String, Vec<model::Profile>), String>,
)
    requires
        forall|i: int|
            0 <= i < outputs@.len() ==> (#[trigger] outputs@[i]).available_modes@.len() > 0,
    ensures
        ({
            let r = editor::refreshed(s, Ok(outputs), loaded);
            &&& r.connected_outputs == model::output_views(outputs@)
            &&& r.current_profile matches Some(p) && matching::matches_hardware(
                r.connected_outputs,
                p.screens,
            )
            &&& !r.current_profile_read_only
            &&& r.current_profile->0.name == r.current_profile_name
            &&& match editor::match_from(r.connected_outputs, editor::loaded_profiles(loaded), 0) {
                Some(k) => {
                    &&& r.profiles == editor::loaded_profiles(loaded)
                    &&& r.current_profile == Some(editor::loaded_profiles(loaded)[k])
                    &&& forall|j: int|
                        0 <= j < k ==> !matching::matches_hardware(
                            r.connected_outputs,
                            #[trigger] editor::loaded_profiles(loaded)[j].screens,
                        )
                },
                None => {
                    &&& r.profiles == editor::loaded_profiles(loaded).push(r.current_profile->0)
                    &&& r.current_profile->0.screens == editor::default_screens(r.connected_outputs)
                    &&& r.current_profile->0.screens.len() == r.connected_outputs.len()
                    &&& forall|i: int|
                        0 <= i < r.current_profile->0.screens.len()
                            ==> (#[trigger] r.current_profile->0.screens[i]).enabled
                    &&& !editor::profile_names(editor::loaded_profiles(loaded)).contains(
                        r.current_profile->0.name,
                    )
                },
            }
        }),
{
    let outs = model::output_views(outputs@);
    let ps = editor::loaded_profiles(loaded);
    editor::lemma_match_from(outs, ps, 0);
    assert forall|i: int| 0 <= i < outs.len() implies (#[trigger] outs[i]).available_modes.len() > 0 by {
        assert(outs[i] == outputs@[i]@);
    }
    lemma_default_screens_match(outs);
    lemma_default_screens_enabled(outs);
    lemma_unique_name(editor::profile_names(ps), editor::auto_name_candidate(outs), 1);
}

/// Writing a profile into a configuration made of blocks written for
/// profiles (each after any number of blank lines) and reading the
/// configuration back gives the profiles of the configuration with the
/// profile written into it: the first profile of that name replaced by it,
/// or it added last, each profile read back as its block reads back
/// (`readback::lemma_layout_reads_back`). This holds where each profile
/// can be written as it is (`readback::writable_profile`).
pub proof fn lemma_upsert_reads_back(qs: Seq<(nat, ProfileView)>, tail: nat, p: ProfileView)
    requires
        readback::layout_writable(qs),
        readback::writable_profile(p),
        readback::layout_text(qs, tail).len() <= usize::MAX,
        text::byte_offset(readback::layout_text(qs, tail), readback::layout_text(qs, tail).len() as int)
            <= usize::MAX,
        generate::upserted(readback::layout_text(qs, tail), p).len() <= usize::MAX,
    ensures
        generate::upserted(readback::layout_text(qs, tail), p) == readback::layout_text(
            readback::upsert_entries(qs, tail, p).0,
            readback::upsert_entries(qs, tail, p).1,
        ),
        parse::parse_profiles_spec(generate::upserted(readback::layout_text(qs, tail), p)) == Some(
            readback::layout_back(readback::upsert_entries(qs, tail, p).0, readback::upsert_entries(qs, tail, p).1),
        ),
{
    readback::lemma_upsert_layout_text(qs, tail, p);
    readback::lemma_upsert_writable(qs, tail, p);
    let (qs2, t2) = readback::upsert_entries(qs, tail, p);
    readback::lemma_layout_reads_back(qs2, t2);
}


// ---------------------------------------------------------------------
// Block-style settings
// ---------------------------------------------------------------------
/// The decimal text of an integer is non-empty and made of digits and a
/// leading minus sign only: no comma and no whitespace in it.
pub proof fn lemma_fmt_int_chars(x: int)
    ensures
        fmt_int(x).len() > 0,
        forall|i: int|
            0 <= i < fmt_int(x).len() ==> #[trigger] fmt_int(x)[i] != ',' && !text::is_ws(
                fmt_int(x)[i],
            ) && (is_digit(fmt_int(x)[i]) || (i == 0 && fmt_int(x)[i] == '-')),
        is_digit(fmt_int(x).last()),
{
    if x < 0 {
        lemma_fmt_nat((-x) as nat);
        let d = fmt_nat((-x) as nat);
        let s = fmt_int(x);
        assert forall|i: int| 0 <= i < s.len() implies #[trigger] s[i] != ',' && !text::is_ws(s[i])
            && (is_digit(s[i]) || (i == 0 && s[i] == '-')) by {
            if i > 0 {
                assert(s[i] == d[i - 1]);
                assert(is_digit(d[i - 1]));
            }
        }
        assert(s.last() == d.last());
        assert(is_digit(d[d.len() - 1]));
    } else {
        lemma_fmt_nat(x as nat);
        let s = fmt_int(x);
        assert forall|i: int| 0 <= i < s.len() implies #[trigger] s[i] != ',' && !text::is_ws(s[i])
            && (is_digit(s[i]) || (i == 0 && s[i] == '-')) by {
            assert(is_digit(s[i]));
        }
        assert(is_digit(s[s.len() - 1]));
    }
}

/// `X,Y` with `X` and `Y` written in decimal reads as the position whose
/// x is `X` (the number before the comma) and whose y is `Y`.
pub proof fn lemma_position_text(x: i32, y: i32)
    ensures
        grammar::parse_position(fmt_int(x as int) + seq![','] + fmt_int(y as int)) == Some(
            (x, y),
        ),
{
    let a = fmt_int(x as int);
    let b = fmt_int(y as int);
    let s = a + seq![','] + b;
    lemma_fmt_int_chars(x as int);
    lemma_fmt_int_chars(y as int);
    assert forall|m: int| 0 <= m < a.len() implies !text::stops(#[trigger] s[m], text::Stop::Char(
        ',',
    )) by {
        assert(s[m] == a[m]);
    }
    assert(s[a.len() as int] == ',');
    readback::lemma_scan_to(s, 0, a.len() as int, text::Stop::Char(','));
    assert forall|m: int|
        a.len() + 1 <= m < s.len() implies !text::stops(#[trigger] s[m], text::Stop::Char(',')) by {
        assert(s[m] == b[m - a.len() - 1]);
    }
    readback::lemma_scan_to(s, a.len() + 1int, s.len() as int, text::Stop::Char(','));
    assert(s.subrange(0, a.len() as int) =~= a);
    assert(s.subrange(a.len() + 1int, s.len() as int) =~= b);
    assert(a.last() == a[a.len() - 1]);
    assert(b.last() == b[b.len() - 1]);
    readback::lemma_trim_exact(a, 0, a.len() as int);
    readback::lemma_trim_exact(b, 0, b.len() as int);
    assert(a.subrange(0, a.len() as int) =~= a);
    assert(b.subrange(0, b.len() as int) =~= b);
    lemma_parse_i32_round_trip(x);
    lemma_parse_i32_round_trip(y);
}

/// In a block-style output declaration, the line `position X,Y` sets the
/// screen's x position to `X` and its y position to `Y`, and changes
/// nothing else.
pub proof fn lemma_block_position(x: i32, y: i32, st: parse::BlockState)
    ensures
        parse::block_step(
            "position "@ + fmt_int(x as int) + seq![','] + fmt_int(y as int),
            st,
        ) == (parse::BlockState { pos_x: x, pos_y: y, ..st }),
{
    reveal_strlit("position ");
    reveal_strlit("enable");
    reveal_strlit("enabled yes");
    reveal_strlit("disable");
    reveal_strlit("enabled no");
    reveal_strlit("mode ");
    let rest = fmt_int(x as int) + seq![','] + fmt_int(y as int);
    let inner = "position "@ + fmt_int(x as int) + seq![','] + fmt_int(y as int);
    assert(inner[0] == 'p');
    assert(inner != "enable"@);
    assert(inner != "enabled yes"@);
    assert(inner != "disable"@);
    assert(inner != "enabled no"@);
    lemma_fmt_int_chars(x as int);
    assert(inner.len() >= 9);
    assert(!text::starts_with(inner, "mode "@)) by {
        assert(inner.subrange(0, 5)[0] == 'p');
    }
    assert(inner.subrange(0, 9) =~= "position "@);
    assert(text::starts_with(inner, "position "@));
    assert(inner.skip(9) =~= rest);
    assert("position "@.len() == 9);
    lemma_position_text(x, y);
    assert(grammar::parse_position(inner.skip("position "@.len() as int)) == Some((x, y)));
}


/// `X Y` with `X` and `Y` written in decimal reads as the position whose
/// x is `X` (the first number) and whose y is `Y`.
pub proof fn lemma_space_position_text(x: i32, y: i32)
    ensures
        grammar::parse_space_position(fmt_int(x as int) + seq![' '] + fmt_int(y as int)) == Some(
            (x, y),
        ),
{
    let a = fmt_int(x as int);
    let b = fmt_int(y as int);
    let s = a + seq![' '] + b;
    lemma_fmt_int_chars(x as int);
    lemma_fmt_int_chars(y as int);
    assert forall|m: int| 0 <= m < a.len() implies !is_ws(#[trigger] s[m]) by {
        assert(s[m] == a[m]);
    }
    assert forall|m: int| a.len() + 1int <= m < s.len() implies !is_ws(#[trigger] s[m]) by {
        assert(s[m] == b[m - a.len() - 1]);
    }
    assert(s[a.len() as int] == ' ');
    readback::lemma_scan_to(s, 0, 0, Stop::NonWs);
    readback::lemma_scan_to(s, 0, a.len() as int, Stop::Ws);
    readback::lemma_scan_to(s, a.len() as int, a.len() + 1int, Stop::NonWs);
    readback::lemma_scan_to(s, a.len() + 1int, s.len() as int, Stop::Ws);
    assert(s.subrange(0, a.len() as int) =~= a);
    assert(s.subrange(a.len() + 1int, s.len() as int) =~= b);
    lemma_parse_i32_round_trip(x);
    lemma_parse_i32_round_trip(y);
}

/// In a block-style output declaration, the line `pos X Y` sets the
/// screen's x position to `X` and its y position to `Y`, and changes
/// nothing else.
pub proof fn lemma_block_space_position(x: i32, y: i32, st: parse::BlockState)
    ensures
        parse::block_step("pos "@ + fmt_int(x as int) + seq![' '] + fmt_int(y as int), st) == (
        parse::BlockState { pos_x: x, pos_y: y, ..st }),
{
    reveal_strlit("pos ");
    reveal_strlit("position ");
    reveal_strlit("enable");
    reveal_strlit("enabled yes");
    reveal_strlit("disable");
    reveal_strlit("enabled no");
    reveal_strlit("mode ");
    let rest = fmt_int(x as int) + seq![' '] + fmt_int(y as int);
    let inner = "pos "@ + fmt_int(x as int) + seq![' '] + fmt_int(y as int);
    lemma_fmt_int_chars(x as int);
    lemma_fmt_int_chars(y as int);
    assert(inner[0] == 'p');
    assert(inner != "enable"@);
    assert(inner != "enabled yes"@);
    assert(inner != "disable"@);
    assert(inner != "enabled no"@);
    assert(!text::starts_with(inner, "mode "@)) by {
        assert(inner.subrange(0, 5)[0] == 'p');
    }
    assert(!text::starts_with(inner, "position "@)) by {
        if inner.len() >= 9 {
            assert(inner.subrange(0, 9)[3] == inner[3]);
            assert(inner[3] == ' ');
        }
    }
    assert(inner.subrange(0, 4) =~= "pos "@);
    assert(text::starts_with(inner, "pos "@));
    assert(inner.skip(4) =~= rest);
    assert("pos "@.len() == 4);
    lemma_space_position_text(x, y);
    assert(grammar::parse_space_position(inner.skip("pos "@.len() as int)) == Some((x, y)));
}

/// The pieces of a mode written as the configuration writes it, `WxH@RHz`,
/// as the mode grammar finds them.
#[verifier::spinoff_prover]
#[verifier::rlimit(40)]
proof fn lemma_mode_string_pieces(m: model::OutputMode)
    requires
        m.refresh_mhz >= 0,
        model::kanshi_mode_text(m).len() <= usize::MAX,
    ensures
        ({
            let t = model::kanshi_mode_text(m);
            let d = fmt_nat(m.width as nat).len() as int;
            let f = d + 1 + fmt_nat(m.height as nat).len();
            let g0 = f + 1 + fmt_milli(m.refresh_mhz as int).len();
            &&& text::trim(t) == t
            &&& grammar::run1(t, 0, Stop::NonDigit) == Some(d)
            &&& grammar::ch(t, d, 'x') == Some(d + 1)
            &&& grammar::run1(t, d + 1, Stop::NonDigit) == Some(f)
            &&& grammar::refresh_part(t, f) == (Some(span(f + 1, g0)), g0 + 2)
            &&& g0 + 2 == t.len()
            &&& t.subrange(0, d) == fmt_nat(m.width as nat)
            &&& t.subrange(d + 1, f) == fmt_nat(m.height as nat)
            &&& text_of(t, span(f + 1, g0)) == fmt_milli(m.refresh_mhz as int)
        }),
{
    let t = model::kanshi_mode_text(m);
    let w = fmt_nat(m.width as nat);
    let h = fmt_nat(m.height as nat);
    let r = fmt_milli(m.refresh_mhz as int);
    lemma_fmt_nat(m.width as nat);
    lemma_fmt_nat(m.height as nat);
    lemma_decimal_milli_round_trip(m.refresh_mhz);
    let e = Seq::<char>::empty();
    let r13 = seq!['H', 'z'] + e;
    let r12 = r + r13;
    let r11 = seq!['@'] + r12;
    let r10 = h + r11;
    let r9 = seq!['x'] + r10;
    assert(t =~= w + r9);
    assert(t.skip(0) =~= w + r9);
    assert(t[0] == w[0]);
    assert(t[t.len() - 1] == 'z');
    readback::lemma_trim_exact(t, 0, t.len() as int);
    assert(t.subrange(0, t.len() as int) =~= t);
    readback::lemma_run1_at(t, 0, w, r9, Stop::NonDigit);
    readback::lemma_at_next(t, 0, w, r9);
    let d = w.len() as int;
    readback::lemma_ch_at(t, d, 'x', r10);
    readback::lemma_at_next(t, d, seq!['x'], r10);
    readback::lemma_run1_at(t, d + 1, h, r11, Stop::NonDigit);
    readback::lemma_at_next(t, d + 1, h, r11);
    let f = d + 1 + h.len();
    readback::lemma_ch_at(t, f, '@', r12);
    readback::lemma_at_next(t, f, seq!['@'], r12);
    readback::lemma_run1_at(t, f + 1, r, r13, Stop::NonDecimal);
    readback::lemma_at_next(t, f + 1, r, r13);
    let g0 = f + 1 + r.len();
    assert("Hz"@ == seq!['H', 'z']) by {
        reveal_strlit("Hz");
    }
    readback::lemma_kw_at(t, g0, seq!['H', 'z'], e);
    assert(t.subrange(0, d) =~= w);
    assert(t.subrange(d + 1, f) =~= h);
}

/// A mode written as the configuration writes modes, `WxH@RHz`, reads
/// back as that mode: the number before the `x` is the width, the one after
/// it the height, and the one after the `@` the refresh rate.
#[verifier::spinoff_prover]
pub proof fn lemma_mode_string_text(m: model::OutputMode)
    requires
        m.refresh_mhz >= 0,
        model::kanshi_mode_text(m).len() <= usize::MAX,
    ensures
        grammar::parse_mode_string(model::kanshi_mode_text(m)) == Some(m),
{
    lemma_mode_string_pieces(m);
    lemma_decimal_milli_round_trip(m.refresh_mhz);
    lemma_digits_u32_round_trip(m.width);
    lemma_digits_u32_round_trip(m.height);
}

/// In a block-style output declaration, the line `mode WxH@RHz` (the mode
/// written as the configuration writes modes) sets the screen's mode to
/// that mode, and changes nothing else.
pub proof fn lemma_block_mode(m: model::OutputMode, st: parse::BlockState)
    requires
        m.refresh_mhz >= 0,
        model::kanshi_mode_text(m).len() <= usize::MAX,
    ensures
        parse::block_step("mode "@ + model::kanshi_mode_text(m), st) == (parse::BlockState {
            mode: m,
            ..st
        }),
{
    reveal_strlit("enable");
    reveal_strlit("enabled yes");
    reveal_strlit("disable");
    reveal_strlit("enabled no");
    reveal_strlit("mode ");
    let t = model::kanshi_mode_text(m);
    let inner = "mode "@ + t;
    assert(inner[0] == 'm');
    assert(inner != "enable"@ && inner != "enabled yes"@ && inner != "disable"@ && inner
        != "enabled no"@);
    assert(inner.subrange(0, 5) =~= "mode "@);
    assert(text::starts_with(inner, "mode "@));
    assert(inner.skip(5) =~= t);
    assert("mode "@.len() == 5);
    lemma_mode_string_text(m);
}

/// In a block-style output declaration, `enable` and `enabled yes` turn the
/// screen on, `disable` and `enabled no` turn it off, and `scale S` with `S`
/// written as the configuration writes scales sets its scale to `S`; each
/// changes nothing else.
pub proof fn lemma_block_switches_and_scale(v: i64, st: parse::BlockState)
    requires
        v >= 0,
    ensures
        parse::block_step("enable"@, st) == (parse::BlockState { enabled: true, ..st }),
        parse::block_step("enabled yes"@, st) == (parse::BlockState { enabled: true, ..st }),
        parse::block_step("disable"@, st) == (parse::BlockState { enabled: false, ..st }),
        parse::block_step("enabled no"@, st) == (parse::BlockState { enabled: false, ..st }),
        parse::block_step("scale "@ + fmt_milli(v as int), st) == (parse::BlockState {
            scale_milli: v,
            ..st
        }),
{
    reveal_strlit("scale ");
    reveal_strlit("pos ");
    reveal_strlit("position ");
    reveal_strlit("enable");
    reveal_strlit("enabled yes");
    reveal_strlit("disable");
    reveal_strlit("enabled no");
    reveal_strlit("mode ");
    assert("disable"@.len() != "enable"@.len() && "disable"@.len() != "enabled yes"@.len());
    assert("enabled no"@.len() != "enable"@.len() && "enabled no"@.len() != "enabled yes"@.len());
    lemma_decimal_milli_round_trip(v);
    let f = fmt_milli(v as int);
    let inner = "scale "@ + f;
    assert(inner[0] == 's');
    assert(inner != "enable"@ && inner != "enabled yes"@ && inner != "disable"@ && inner
        != "enabled no"@);
    assert(!text::starts_with(inner, "mode "@)) by {
        assert(inner.subrange(0, 5)[0] == 's');
    }
    assert(!text::starts_with(inner, "position "@)) by {
        if inner.len() >= 9 {
            assert(inner.subrange(0, 9)[0] == 's');
        }
    }
    assert(!text::starts_with(inner, "pos "@)) by {
        assert(inner.subrange(0, 4)[0] == 's');
    }
    assert(inner.subrange(0, 6) =~= "scale "@);
    assert(text::starts_with(inner, "scale "@));
    assert(inner.skip(6) =~= f);
    assert("scale "@.len() == 6);
    assert forall|k: int| 0 <= k < f.len() implies !is_ws(#[trigger] f[k]) by {
        assert(is_digit(f[k]) || f[k] == '.');
    }
    readback::lemma_trim_exact(f, 0, f.len() as int);
    assert(f.subrange(0, f.len() as int) =~= f);
}

// ---------------------------------------------------------------------
// Mirroring
// ---------------------------------------------------------------------
/// Rounding `a / b` half away from zero lands within half of one of `a / b`.
pub proof fn lemma_round_half_away(a: int, b: int)
    requires
        b > 0,
    ensures
        -b <= 2 * b * generate::round_half_away(a, b) - 2 * a <= b,
{
    let r = generate::round_half_away(a, b);
    if a >= 0 {
        let n = 2 * a + b;
        let q = n / (2 * b);
        assert(0 <= n - 2 * b * q < 2 * b) by (nonlinear_arith)
            requires
                b > 0,
                q == n / (2 * b),
        ;
        assert(r == q);
    } else {
        let n = 2 * (-a) + b;
        let q = n / (2 * b);
        assert(0 <= n - 2 * b * q < 2 * b) by (nonlinear_arith)
            requires
                b > 0,
                q == n / (2 * b),
        ;
        assert(r == -q);
        assert(2 * b * r == -(2 * b * q)) by (nonlinear_arith)
            requires
                r == -q,
        ;
    }
}

/// A value within the bounds of an `i32`, strictly, is not clamped.
proof fn lemma_unclamped(v: int)
    requires
        i32::MIN < generate::saturate_i32(v) < i32::MAX,
    ensures
        generate::saturate_i32(v) == v,
{
}

/// When the height ratio fixes the mirror scale (both target extents are
/// positive, `sh/th` is at least `sw/tw`, and the scale `sh·ts/(1000·th)` is
/// above the `0.0001` floor, `ts` being the target's scale in thousandths),
/// the mirroring screen covers `sw·th/sh` target pixels across and `th`
/// down: it is written at the target's y, and across it is centred on the
/// target to within half a pixel, `|2·(x - tx) + sw·th/sh - tw| <= 1`.
/// This holds where the centred x fits strictly inside an `i32` (beyond, the
/// written value is clamped to the bounds).
pub proof fn lemma_mirror_centred_by_height(sc: ScreenView, t: ScreenView)
    requires
        t.selected_mode.width > 0,
        t.selected_mode.height > 0,
        sc.selected_mode.height * t.selected_mode.width >= sc.selected_mode.width
            * t.selected_mode.height,
        10 * (sc.selected_mode.height * generate::target_scale(t)) >= t.selected_mode.height,
        i32::MIN < generate::mirror_x(sc, t) < i32::MAX,
    ensures
        generate::mirror_y(sc, t) == t.pos_y,
        -(sc.selected_mode.height as int) <= 2 * (generate::mirror_x(sc, t) - t.pos_x)
            * sc.selected_mode.height + sc.selected_mode.width * t.selected_mode.height
            - t.selected_mode.width * sc.selected_mode.height <= sc.selected_mode.height as int,
{
    let sw = sc.selected_mode.width as int;
    let sh = sc.selected_mode.height as int;
    let tw = t.selected_mode.width as int;
    let th = t.selected_mode.height as int;
    let tx = t.pos_x as int;
    let ty = t.pos_y as int;
    let ts = generate::target_scale(t);
    assert(sh > 0) by (nonlinear_arith)
        requires
            10 * (sh * ts) >= th,
            th > 0,
            sh >= 0,
    ;
    let x = generate::mirror_x(sc, t);
    lemma_unclamped(
        generate::mirror_pos(generate::fit(sc, t), true, tx, sw, tw, sh, th, ts),
    );
    if sw * th >= sh * tw && 10 * (sw * ts) >= tw {
        // Equal ratios: the width ratio is taken, to the same effect.
        assert(generate::fit(sc, t) == generate::Fit::Width);
        assert(sw * th == sh * tw);
        assert(x == tx);
        assert(2 * (x - tx) * sh + sw * th - tw * sh == 0) by (nonlinear_arith)
            requires
                x == tx,
                sw * th == sh * tw,
        ;
        let a = 2 * (ty * sw) + th * sw - sh * tw;
        assert(sw > 0) by (nonlinear_arith)
            requires
                10 * (sw * ts) >= tw,
                tw > 0,
                sw >= 0,
        ;
        assert(a == 2 * (ty * sw)) by (nonlinear_arith)
            requires
                a == 2 * (ty * sw) + th * sw - sh * tw,
                sw * th == sh * tw,
        ;
        let r = generate::round_half_away(a, 2 * sw);
        lemma_round_half_away(a, 2 * sw);
        assert(r == ty) by (nonlinear_arith)
            requires
                -(2 * sw) <= 2 * (2 * sw) * r - 2 * a <= 2 * sw,
                a == 2 * (ty * sw),
                sw > 0,
        ;
        assert(i32::MIN <= r <= i32::MAX);
    } else {
        assert(generate::fit(sc, t) == generate::Fit::Height);
        let a = 2 * (tx * sh) + tw * sh - sw * th;
        lemma_round_half_away(a, 2 * sh);
        assert(x == generate::round_half_away(a, 2 * sh));
        assert(-sh <= 2 * (x - tx) * sh + sw * th - tw * sh <= sh) by (nonlinear_arith)
            requires
                -(2 * sh) <= 2 * (2 * sh) * x - 2 * a <= 2 * sh,
                a == 2 * (tx * sh) + tw * sh - sw * th,
                sh > 0,
        ;
    }
}

/// When the width ratio fixes the mirror scale (both target extents are
/// positive, `sw/tw` is at least `sh/th`, and the scale `sw·ts/(1000·tw)` is
/// above the `0.0001` floor), the mirroring screen covers `tw` target pixels
/// across and `sh·tw/sw` down: it is written at the target's x, and down it
/// is centred on the target to within half a pixel,
/// `|2·(y - ty) + sh·tw/sw - th| <= 1`. This holds where the centred y fits
/// strictly inside an `i32`.
pub proof fn lemma_mirror_centred_by_width(sc: ScreenView, t: ScreenView)
    requires
        t.selected_mode.width > 0,
        t.selected_mode.height > 0,
        sc.selected_mode.width * t.selected_mode.height >= sc.selected_mode.height
            * t.selected_mode.width,
        10 * (sc.selected_mode.width * generate::target_scale(t)) >= t.selected_mode.width,
        i32::MIN < generate::mirror_y(sc, t) < i32::MAX,
    ensures
        generate::mirror_x(sc, t) == t.pos_x,
        -(sc.selected_mode.width as int) <= 2 * (generate::mirror_y(sc, t) - t.pos_y)
            * sc.selected_mode.width + sc.selected_mode.height * t.selected_mode.width
            - t.selected_mode.height * sc.selected_mode.width <= sc.selected_mode.width as int,
{
    let sw = sc.selected_mode.width as int;
    let sh = sc.selected_mode.height as int;
    let tw = t.selected_mode.width as int;
    let th = t.selected_mode.height as int;
    let ty = t.pos_y as int;
    let ts = generate::target_scale(t);
    assert(sw > 0) by (nonlinear_arith)
        requires
            10 * (sw * ts) >= tw,
            tw > 0,
            sw >= 0,
    ;
    assert(generate::fit(sc, t) == generate::Fit::Width);
    let y = generate::mirror_y(sc, t);
    let a = 2 * (ty * sw) + th * sw - sh * tw;
    lemma_unclamped(generate::round_half_away(a, 2 * sw));
    lemma_round_half_away(a, 2 * sw);
    assert(y == generate::round_half_away(a, 2 * sw));
    assert(-sw <= 2 * (y - ty) * sw + sh * tw - th * sw <= sw) by (nonlinear_arith)
        requires
            -(2 * sw) <= 2 * (2 * sw) * y - 2 * a <= 2 * sw,
            a == 2 * (ty * sw) + th * sw - sh * tw,
            sw > 0,
    ;
}


/// Rounding `a / b` half up, for `a >= 0`, lands within half of one of
/// `a / b`.
proof fn lemma_round_half_up(a: int, b: int)
    requires
        a >= 0,
        b > 0,
    ensures
        -b <= 2 * b * generate::round_half_up(a, b) - 2 * a <= b,
        generate::round_half_up(a, b) >= 0,
{
    let n = 2 * a + b;
    let q = n / (2 * b);
    assert(0 <= n - 2 * b * q < 2 * b && q >= 0) by (nonlinear_arith)
        requires
            b > 0,
            n >= 0,
            q == n / (2 * b),
    ;
}

/// When the height ratio fixes the mirror scale (as in
/// `lemma_mirror_centred_by_height`), the scale written is the ratio
/// `sh·ts/th` in thousandths (`ts` the target's scale in thousandths),
/// rounded to a whole thousandth.
pub proof fn lemma_mirror_scale_by_height(sc: ScreenView, t: ScreenView)
    requires
        t.selected_mode.width > 0,
        t.selected_mode.height > 0,
        sc.selected_mode.height * t.selected_mode.width >= sc.selected_mode.width
            * t.selected_mode.height,
        10 * (sc.selected_mode.height * generate::target_scale(t)) >= t.selected_mode.height,
    ensures
        exists|m: int|
            m >= 0 && generate::mirror_scale_text(sc, t) == fmt_milli(m) && -(
            t.selected_mode.height as int) <= 2 * m * t.selected_mode.height - 2 * (
            sc.selected_mode.height * generate::target_scale(t)) <= t.selected_mode.height as int,
{
    let sw = sc.selected_mode.width as int;
    let sh = sc.selected_mode.height as int;
    let tw = t.selected_mode.width as int;
    let th = t.selected_mode.height as int;
    let ts = generate::target_scale(t);
    assert(sh > 0 && ts > 0) by (nonlinear_arith)
        requires
            10 * (sh * ts) >= th,
            th > 0,
            sh >= 0,
    ;
    assert(sh * ts >= 0 && sw * ts >= 0) by (nonlinear_arith)
        requires
            sh > 0,
            ts > 0,
            sw >= 0,
    ;
    if sw * th >= sh * tw && 10 * (sw * ts) >= tw {
        assert(generate::fit(sc, t) == generate::Fit::Width);
        let m = generate::round_half_up(sw * ts, tw);
        lemma_round_half_up(sw * ts, tw);
        assert(sw * th == sh * tw);
        assert(-th <= 2 * m * th - 2 * (sh * ts) <= th) by (nonlinear_arith)
            requires
                -tw <= 2 * tw * m - 2 * (sw * ts) <= tw,
                sw * th == sh * tw,
                tw > 0,
                th > 0,
        ;
        assert(generate::mirror_scale_text(sc, t) == fmt_milli(m));
    } else {
        assert(generate::fit(sc, t) == generate::Fit::Height);
        let m = generate::round_half_up(sh * ts, th);
        lemma_round_half_up(sh * ts, th);
        assert(-th <= 2 * m * th - 2 * (sh * ts) <= th) by (nonlinear_arith)
            requires
                -th <= 2 * th * m - 2 * (sh * ts) <= th,
        ;
        assert(generate::mirror_scale_text(sc, t) == fmt_milli(m));
    }
}

/// When the width ratio fixes the mirror scale (as in
/// `lemma_mirror_centred_by_width`), the scale written is the ratio
/// `sw·ts/tw` in thousandths, rounded to a whole thousandth.
pub proof fn lemma_mirror_scale_by_width(sc: ScreenView, t: ScreenView)
    requires
        t.selected_mode.width > 0,
        t.selected_mode.height > 0,
        sc.selected_mode.width * t.selected_mode.height >= sc.selected_mode.height
            * t.selected_mode.width,
        10 * (sc.selected_mode.width * generate::target_scale(t)) >= t.selected_mode.width,
    ensures
        exists|m: int|
            m >= 0 && generate::mirror_scale_text(sc, t) == fmt_milli(m) && -(
            t.selected_mode.width as int) <= 2 * m * t.selected_mode.width - 2 * (
            sc.selected_mode.width * generate::target_scale(t)) <= t.selected_mode.width as int,
{
    let sw = sc.selected_mode.width as int;
    let tw = t.selected_mode.width as int;
    let ts = generate::target_scale(t);
    assert(sw > 0 && ts > 0) by (nonlinear_arith)
        requires
            10 * (sw * ts) >= tw,
            tw > 0,
            sw >= 0,
    ;
    assert(sw * ts >= 0) by (nonlinear_arith)
        requires
            sw > 0,
            ts > 0,
    ;
    assert(generate::fit(sc, t) == generate::Fit::Width);
    let m = generate::round_half_up(sw * ts, tw);
    lemma_round_half_up(sw * ts, tw);
    assert(-tw <= 2 * m * tw - 2 * (sw * ts) <= tw) by (nonlinear_arith)
        requires
            -tw <= 2 * tw * m - 2 * (sw * ts) <= tw,
    ;
    assert(generate::mirror_scale_text(sc, t) == fmt_milli(m));
}

/// When the mirror scale is unbounded (an extent of the target is zero while
/// the screen has a positive one at a positive target scale), the mirroring
/// screen shrinks to a point written at the target's centre, rounded; when
/// both ratios are below the `0.0001` floor, the scale is that floor and the
/// screen covers `10·s·ts` target pixels along each axis (`s` its extent,
/// `ts` the target's scale in thousandths), centred on the target to within
/// half a pixel. This holds where the written positions fit strictly inside
/// an `i32`.
pub proof fn lemma_mirror_centred_unbounded_or_floor(sc: ScreenView, t: ScreenView)
    requires
        generate::fit(sc, t) == generate::Fit::Unbounded || generate::fit(sc, t)
            == generate::Fit::Floor,
        i32::MIN < generate::mirror_x(sc, t) < i32::MAX,
        i32::MIN < generate::mirror_y(sc, t) < i32::MAX,
    ensures
        generate::fit(sc, t) == generate::Fit::Unbounded ==> {
            &&& -1 <= 2 * (generate::mirror_x(sc, t) - t.pos_x) - t.selected_mode.width <= 1
            &&& -1 <= 2 * (generate::mirror_y(sc, t) - t.pos_y) - t.selected_mode.height <= 1
        },
        generate::fit(sc, t) == generate::Fit::Floor ==> {
            &&& -1 <= 2 * (generate::mirror_x(sc, t) - t.pos_x) + 10 * (sc.selected_mode.width
                * generate::target_scale(t)) - t.selected_mode.width <= 1
            &&& -1 <= 2 * (generate::mirror_y(sc, t) - t.pos_y) + 10 * (sc.selected_mode.height
                * generate::target_scale(t)) - t.selected_mode.height <= 1
        },
{
    let sw = sc.selected_mode.width as int;
    let sh = sc.selected_mode.height as int;
    let tw = t.selected_mode.width as int;
    let th = t.selected_mode.height as int;
    let tx = t.pos_x as int;
    let ty = t.pos_y as int;
    let ts = generate::target_scale(t);
    let x = generate::mirror_x(sc, t);
    let y = generate::mirror_y(sc, t);
    if generate::fit(sc, t) == generate::Fit::Unbounded {
        let ax = 2 * tx + tw;
        let ay = 2 * ty + th;
        lemma_unclamped(generate::round_half_away(ax, 2));
        lemma_unclamped(generate::round_half_away(ay, 2));
        lemma_round_half_away(ax, 2);
        lemma_round_half_away(ay, 2);
    } else {
        let ax = 2 * tx + tw - 10 * (sw * ts);
        let ay = 2 * ty + th - 10 * (sh * ts);
        lemma_unclamped(generate::round_half_away(ax, 2));
        lemma_unclamped(generate::round_half_away(ay, 2));
        lemma_round_half_away(ax, 2);
        lemma_round_half_away(ay, 2);
    }
}

// ---------------------------------------------------------------------
// Aliases
// ---------------------------------------------------------------------
/// The characters of `output C alias N`, piece by piece.
proof fn lemma_alias_decl_chars(c: Seq<char>, n: Seq<char>)
    ensures
        ({
            let s = "output "@ + c + " alias "@ + n;
            let k = c.len() as int;
            &&& s.len() == 14 + k + n.len()
            &&& forall|i: int| 0 <= i < 7 ==> #[trigger] s[i] == "output "@[i]
            &&& forall|i: int| 0 <= i < k ==> #[trigger] s[7 + i] == c[i]
            &&& forall|i: int| 0 <= i < 7 ==> #[trigger] s[7 + k + i] == " alias "@[i]
            &&& forall|i: int| 0 <= i < n.len() ==> #[trigger] s[14 + k + i] == n[i]
        }),
{
    reveal_strlit("output ");
    reveal_strlit(" alias ");
    let s = "output "@ + c + " alias "@ + n;
    let k = c.len() as int;
    assert forall|i: int| 0 <= i < k implies #[trigger] s[7 + i] == c[i] by {
        assert(("output "@ + c)[7 + i] == c[i]);
    }
    assert forall|i: int| 0 <= i < 7 implies #[trigger] s[i] == "output "@[i] by {
        assert(("output "@ + c)[i] == "output "@[i]);
    }
    assert forall|i: int| 0 <= i < 7 implies #[trigger] s[7 + k + i] == " alias "@[i] by {
        assert(("output "@ + c + " alias "@)[7 + k + i] == " alias "@[i]);
    }
}

/// No alias declaration starts after the criteria of `output C alias N`
/// but at the whitespace right after them.
proof fn lemma_no_later_alias(s: Seq<char>, r: int, w: int)
    requires
        0 <= r < w < s.len(),
        r + 7 < s.len(),
        s[r + 7] == '$',
        forall|j: int| r < j < s.len() && j != r + 6 ==> !is_ws(#[trigger] s[j]),
    ensures
        grammar::last_alias(s, r, w) == grammar::last_alias(s, r, r),
    decreases w - r,
{
    if w == r + 6 {
        reveal_strlit("alias");
        readback::lemma_kw_not_at(s, w + 1, "alias"@);
    }
    assert(grammar::alias_at(s, w) is None);
    if w - 1 > r {
        lemma_no_later_alias(s, r, w - 1);
    }
}

/// No block header ends anywhere in the criteria of `output C alias N`.
proof fn lemma_no_block_end(s: Seq<char>, t: int, e: int, r: int)
    requires
        0 <= t <= e <= r,
        r + 1 < s.len(),
        forall|j: int| t < j < r ==> !is_ws(#[trigger] s[j]) && s[j] != '{',
        is_ws(s[r]),
        !is_ws(s[r + 1]),
        s[r + 1] != '{',
    ensures
        grammar::bare_block_end(s, t, e) is None,
    decreases e - t,
{
    if e > t {
        if e < r {
            readback::lemma_scan_to(s, e, e, Stop::NonWs);
        } else {
            readback::lemma_scan_to(s, e, e + 1, Stop::NonWs);
        }
        assert(!grammar::block_tail(s, e));
        lemma_no_block_end(s, t, e - 1, r);
    }
}

/// A line `alias N` in a block-style output declaration declares the alias
/// `N`, where `N` is `$` followed by one or more of the characters `A`-`Z`,
/// `a`-`z`, `0`-`9`, `.`, `_` and `-`: the name read from it is `N`.
/// (The line must fit in memory.)
pub proof fn lemma_alias_line_declared(n: Seq<char>)
    requires
        n.len() >= 2,
        n[0] == '$',
        forall|i: int|
            1 <= i < n.len() ==> ('A' <= #[trigger] n[i] && n[i] <= 'Z') || ('a' <= n[i] && n[i]
                <= 'z') || ('0' <= n[i] && n[i] <= '9') || n[i] == '.' || n[i] == '_' || n[i]
                == '-',
        6 + n.len() <= usize::MAX,
    ensures
        grammar::alias_line("alias "@ + n) matches Some(sp) && text_of("alias "@ + n, sp) == n,
{
    reveal_strlit("alias ");
    reveal_strlit("alias");
    let s = "alias "@ + n;
    let len = s.len() as int;
    assert forall|i: int| 0 <= i < n.len() implies #[trigger] s[6 + i] == n[i] by {}
    assert(s[0] == 'a');
    assert(s[5] == ' ');
    assert(s[6] == '$');
    assert forall|j: int| 7 <= j < len implies text::is_alias_char(#[trigger] s[j]) by {
        assert(s[6 + (j - 6)] == n[j - 6]);
    }
    readback::lemma_scan_to(s, 0, 0, Stop::NonWs);
    assert(s.subrange(0, 5) =~= "alias"@);
    readback::lemma_scan_to(s, 5, 6, Stop::NonWs);
    readback::lemma_scan_to(s, 7, len, Stop::NonAliasChar);
    readback::lemma_scan_to(s, len, len, Stop::NonWs);
    assert(grammar::alias_line(s) == Some(span(6, len)));
    assert(text_of(s, span(6, len)) =~= n);
}

/// A line `output C alias N` declares the alias `N` for the criteria `C`,
/// where `N` is `$` followed by one or more of the characters `A`-`Z`,
/// `a`-`z`, `0`-`9`, `.`, `_` and `-`, and `C` is a word without whitespace,
/// quotes or `{`: the aliases read from it are `(N, C)` alone, so an output
/// named `N` in a profile stands for `C`. (The line and its newline must
/// fit in memory.)
#[verifier::spinoff_prover]
#[verifier::rlimit(40)]
pub proof fn lemma_inline_alias_declared(c: Seq<char>, n: Seq<char>)
    requires
        c.len() > 0,
        forall|i: int|
            0 <= i < c.len() ==> !text::is_ws(#[trigger] c[i]) && c[i] != '"' && c[i] != '\''
                && c[i] != '{',
        n.len() >= 2,
        n[0] == '$',
        forall|i: int|
            1 <= i < n.len() ==> ('A' <= #[trigger] n[i] && n[i] <= 'Z') || ('a' <= n[i] && n[i]
                <= 'z') || ('0' <= n[i] && n[i] <= '9') || n[i] == '.' || n[i] == '_' || n[i]
                == '-',
        15 + c.len() + n.len() <= usize::MAX,
    ensures
        parse::alias_scan(seq!["output "@ + c + " alias "@ + n], 0) == Some(seq![(n, c)]),
        parse::config_aliases("output "@ + c + " alias "@ + n + seq!['\n']) == Some(seq![(n, c)]),
        parse::resolve(seq![(n, c)], n) == c,
{
    reveal_strlit("output ");
    reveal_strlit(" alias ");
    reveal_strlit("output");
    reveal_strlit("alias");
    reveal_strlit("#");
    reveal_strlit("include ");
    reveal_strlit("profile");
    let s = "output "@ + c + " alias "@ + n;
    let k = c.len() as int;
    let len = s.len() as int;
    let r = 7 + k;
    lemma_alias_decl_chars(c, n);
    assert(s[0] == 'o');
    assert(s[6] == ' ');
    assert(s[7] == c[0]);
    assert(s[r] == ' ');
    assert(s[r + 1] == 'a');
    assert(s[r + 6] == ' ');
    assert(s[r + 7] == '$') by {
        assert(s[14 + k + 0] == n[0]);
    }
    assert forall|j: int| 7 <= j < r implies !is_ws(#[trigger] s[j]) && s[j] != '{' && s[j] != '"'
        && s[j] != '\'' by {
        assert(s[7 + (j - 7)] == c[j - 7]);
    }
    assert forall|j: int| r + 7 <= j < len implies !is_ws(#[trigger] s[j]) && text::is_alias_char(
        s[j],
    ) || j == r + 7 by {
        assert(s[14 + k + (j - r - 7)] == n[j - r - 7]);
    }
    assert forall|j: int| r < j < len && j != r + 6 implies !is_ws(#[trigger] s[j]) by {
        if j < r + 7 {
            assert(s[7 + k + (j - r)] == " alias "@[j - r]);
        } else if j > r + 7 {
            assert(s[14 + k + (j - r - 7)] == n[j - r - 7]);
        }
    }
    // `output` and the whitespace after it
    readback::lemma_scan_to(s, 0, 0, Stop::NonWs);
    assert(s.subrange(0, 6) =~= "output"@);
    assert(grammar::kw(s, 0, "output"@) == Some(6int));
    readback::lemma_scan_to(s, 6, 7, Stop::NonWs);
    assert(grammar::output_head(s) == Some(7int));
    // the criteria: not quoted, a run up to the space before `alias`
    assert(grammar::quoted(s, 7, '\'') is None);
    assert(grammar::quoted(s, 7, '"') is None);
    readback::lemma_scan_to(s, 7, r, Stop::Ws);
    assert(grammar::run1(s, 7, Stop::Ws) == Some(r));
    // the alias declaration after it
    assert(s.subrange(r + 1, r + 6) =~= "alias"@);
    assert(grammar::kw(s, r + 1, "alias"@) == Some(r + 6));
    readback::lemma_scan_to(s, r + 6, r + 7, Stop::NonWs);
    assert(grammar::ws1(s, r + 6) == Some(r + 7));
    assert(grammar::ch(s, r + 7, '$') == Some(r + 8));
    readback::lemma_scan_to(s, r + 8, len, Stop::NonAliasChar);
    assert(grammar::run1(s, r + 8, Stop::NonAliasChar) == Some(len));
    assert(grammar::alias_at(s, r) == Some(span(r + 7, len)));
    lemma_no_later_alias(s, r, len - 1);
    assert(grammar::last_alias(s, r, r) == Some(span(r + 7, len)));
    assert(grammar::bare_alias_end(s, 7, r) == Some((r, span(r + 7, len))));
    assert(grammar::inline_alias(s) == Some((span(7, r), span(r + 7, len))));
    // the line is no comment, include, profile or block header
    assert(s[len - 1] == n[n.len() - 1]) by {
        assert(s[14 + k + (n.len() - 1)] == n[n.len() - 1]);
    }
    readback::lemma_trim_exact(s, 0, len);
    assert(s.subrange(0, len) =~= s);
    assert(!text::starts_with(s, "#"@)) by {
        assert(s.subrange(0, 1)[0] == s[0]);
    }
    assert(!text::starts_with(s, "include "@)) by {
        assert(s.subrange(0, 8)[0] == s[0]);
    }
    readback::lemma_kw_not_at(s, 0, "profile"@);
    assert(!grammar::profile_start(s));
    lemma_no_block_end(s, 7, r, r);
    assert(grammar::output_block(s) is None);
    // what the spans hold
    assert(text_of(s, span(7, r)) =~= c) by {
        assert forall|i: int| 0 <= i < k implies #[trigger] text_of(s, span(7, r))[i] == c[i] by {
            assert(s[7 + i] == c[i]);
        }
    }
    assert(text_of(s, span(r + 7, len)) =~= n) by {
        assert forall|i: int| 0 <= i < n.len() implies #[trigger] text_of(s, span(r + 7, len))[i]
            == n[i] by {
            assert(s[14 + k + i] == n[i]);
        }
    }
    readback::lemma_trim_exact(c, 0, k);
    assert(c.subrange(0, k) =~= c);
    assert(grammar::unquote(c) == Some(c));
    let ls = seq![s];
    assert(ls[0] == s);
    assert(parse::alias_scan(ls, 1) == Some(Seq::<(Seq<char>, Seq<char>)>::empty()));
    assert(seq![(n, c)] + Seq::<(Seq<char>, Seq<char>)>::empty() =~= seq![(n, c)]);
    // the configuration made of that line
    assert(readback::clean_line(s)) by {
        assert forall|i: int| 0 <= i < s.len() implies #[trigger] s[i] != '\n' by {
            if i < 7 {
            } else if i < r {
            } else if i < r + 7 {
                assert(s[7 + k + (i - r)] == " alias "@[i - r]);
            } else {
            }
        }
    }
    assert(readback::joined(ls) =~= s + seq!['\n']) by {
        assert(readback::joined(ls.drop_first()) =~= Seq::<char>::empty());
    }
    assert forall|j: int| 0 <= j < ls.len() implies readback::clean_line(#[trigger] ls[j]) by {}
    readback::lemma_lines_joined(ls);
    let e: parse::Entries = seq![(n, c)];
    assert(e.last() == (n, c));
}


/// The best mode of an output is one of its modes with the largest area
/// (width times height), and among the modes of that area one with the
/// highest refresh rate.
pub proof fn lemma_best_mode_largest(modes: Seq<model::OutputMode>)
    requires
        modes.len() > 0,
    ensures
        model::best_mode_of(modes) matches Some(b) && modes.contains(b) && forall|j: int|
            0 <= j < modes.len() ==> {
                &&& (#[trigger] modes[j]).width * modes[j].height <= b.width * b.height
                &&& (modes[j].width * modes[j].height == b.width * b.height ==> modes[j].refresh_mhz
                    <= b.refresh_mhz)
            },
{
    model::lemma_best_mode_of(modes);
}

/// The screens that a screen can mirror are exactly the other screens
/// (by id) that are enabled and do not mirror themselves, in their order.
pub proof fn lemma_mirror_candidates(screens: Seq<ScreenView>, me: Seq<char>, i: int)
    requires
        0 <= i <= screens.len(),
    ensures
        forall|c: Seq<char>|
            #![trigger crate::sidebar::candidates_from(screens, me, i).contains(c)]
            crate::sidebar::candidates_from(screens, me, i).contains(c) <==> exists|j: int|
                i <= j < screens.len() && (#[trigger] screens[j]).id == c && c != me
                    && screens[j].enabled && !screens[j].mirror,
    decreases screens.len() - i,
{
    if i < screens.len() {
        lemma_mirror_candidates(screens, me, i + 1);
        let rest = crate::sidebar::candidates_from(screens, me, i + 1);
        let all = crate::sidebar::candidates_from(screens, me, i);
        assert forall|c: Seq<char>| all.contains(c) <==> exists|j: int|
            i <= j < screens.len() && (#[trigger] screens[j]).id == c && c != me
                && screens[j].enabled && !screens[j].mirror by {
            if screens[i].enabled && !screens[i].mirror && screens[i].id != me {
                assert(all == seq![screens[i].id] + rest);
                if all.contains(c) {
                    let k = choose|k: int| 0 <= k < all.len() && all[k] == c;
                    if k > 0 {
                        assert(all[k] == rest[k - 1]);
                        assert(rest.contains(c));
                    }
                }
                if rest.contains(c) {
                    let k = choose|k: int| 0 <= k < rest.len() && rest[k] == c;
                    assert(all[k + 1] == rest[k]);
                }
                assert(all[0] == screens[i].id);
            } else {
                assert(all == rest);
            }
        }
    } else {
        assert(crate::sidebar::candidates_from(screens, me, i) =~= Seq::<Seq<char>>::empty());
    }
}

// ---------------------------------------------------------------------
// Leaving a mirror
// ---------------------------------------------------------------------
/// The rectangles that two screens cover, `[x, x + w)` across and
/// `[y, y + h)` down, share a point: they meet across and they meet down.
pub open spec fn rects_meet(a: ScreenView, b: ScreenView) -> bool {
    &&& a.pos_x < b.pos_x + (b.selected_mode.width as i32)
    &&& b.pos_x < a.pos_x + (a.selected_mode.width as i32)
    &&& a.pos_y < b.pos_y + (b.selected_mode.height as i32)
    &&& b.pos_y < a.pos_y + (a.selected_mode.height as i32)
}

/// A screen of the snapshot that another screen `s` can collide with: not
/// `s` itself and not mirroring.
pub open spec fn visible_other(o: ScreenView, s: ScreenView) -> bool {
    o.id != s.id && !o.mirror
}

/// The right edge of a screen.
pub open spec fn right_edge(a: ScreenView) -> int {
    a.pos_x + (a.selected_mode.width as i32)
}

proof fn lemma_unmirror_scan(snap: Seq<ScreenView>, s: ScreenView)
    ensures
        crate::sidebar::unmirror_scan(snap, s).0 <==> exists|i: int|
            0 <= i < snap.len() && visible_other(#[trigger] snap[i], s) && rects_meet(snap[i], s),
        right_edge(s) <= crate::sidebar::unmirror_scan(snap, s).1,
        forall|i: int|
            0 <= i < snap.len() && visible_other(#[trigger] snap[i], s) ==> right_edge(snap[i])
                <= crate::sidebar::unmirror_scan(snap, s).1,
        crate::sidebar::unmirror_scan(snap, s).1 == right_edge(s) || exists|i: int|
            0 <= i < snap.len() && visible_other(#[trigger] snap[i], s)
                && crate::sidebar::unmirror_scan(snap, s).1 == right_edge(snap[i]),
    decreases snap.len(),
{
    if snap.len() > 0 {
        let rest = snap.drop_last();
        lemma_unmirror_scan(rest, s);
        let o = snap.last();
        assert(o == snap[snap.len() - 1]);
        assert forall|i: int| 0 <= i < rest.len() implies #[trigger] rest[i] == snap[i] by {}
        let (ov0, mr0, _) = crate::sidebar::unmirror_scan(rest, s);
        if ov0 {
            let i = choose|i: int|
                0 <= i < rest.len() && visible_other(#[trigger] rest[i], s) && rects_meet(rest[i], s);
            assert(snap[i] == rest[i]);
        }
        if mr0 != right_edge(s) {
            let i = choose|i: int|
                0 <= i < rest.len() && visible_other(#[trigger] rest[i], s) && mr0 == right_edge(
                    rest[i],
                );
            assert(snap[i] == rest[i]);
        }
        assert forall|i: int|
            0 <= i < snap.len() && visible_other(#[trigger] snap[i], s) implies right_edge(snap[i])
                <= crate::sidebar::unmirror_scan(snap, s).1 by {
            if i < rest.len() {
                assert(rest[i] == snap[i]);
            }
        }
        if crate::sidebar::unmirror_scan(snap, s).0 {
            if !ov0 {
                assert(visible_other(snap[snap.len() - 1], s) && rects_meet(snap[snap.len() - 1], s));
            }
        } else {
            assert forall|i: int| 0 <= i < snap.len() && visible_other(#[trigger] snap[i], s) implies !rects_meet(
                snap[i],
                s,
            ) by {
                if i < rest.len() {
                    assert(rest[i] == snap[i]);
                }
            }
        }
    }
}

/// A screen that stops mirroring keeps its x position when its rectangle
/// meets that of no screen of the snapshot that is visible (neither itself
/// nor mirroring); meeting means meeting both across and down.
pub proof fn lemma_unmirror_keeps_x(snap: Seq<ScreenView>, s: ScreenView)
    requires
        forall|i: int|
            0 <= i < snap.len() && visible_other(#[trigger] snap[i], s) ==> !rects_meet(snap[i], s),
    ensures
        crate::sidebar::unmirrored_x(snap, s) == s.pos_x,
{
    lemma_unmirror_scan(snap, s);
}

/// A screen that stops mirroring, when its rectangle meets that of a
/// visible screen of the snapshot, moves to the right of the rightmost
/// right edge among itself and the visible screens, with a gap of 40
/// pixels.
pub proof fn lemma_unmirror_moves_right(snap: Seq<ScreenView>, s: ScreenView, k: int)
    requires
        0 <= k < snap.len(),
        visible_other(snap[k], s),
        rects_meet(snap[k], s),
    ensures
        crate::sidebar::unmirrored_x(snap, s) - 40 >= right_edge(s),
        forall|i: int|
            0 <= i < snap.len() && visible_other(#[trigger] snap[i], s) ==> crate::sidebar::unmirrored_x(
                snap,
                s,
            ) - 40 >= right_edge(snap[i]),
        crate::sidebar::unmirrored_x(snap, s) - 40 == right_edge(s) || exists|i: int|
            0 <= i < snap.len() && visible_other(#[trigger] snap[i], s) && crate::sidebar::unmirrored_x(
                snap,
                s,
            ) - 40 == right_edge(snap[i]),
{
    lemma_unmirror_scan(snap, s);
}

} // verus!
