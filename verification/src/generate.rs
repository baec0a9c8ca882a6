//! Writing profiles as kanshi configuration text: one inline output line per
//! screen, mirror placement computed from the mirrored target, and the
//! notification hook at the end of the block.

use vstd::prelude::*;

use crate::model::{self, OutputMode, Profile, ProfileView, ScreenConfig, ScreenView};
use crate::parse;
use crate::text;

verus! {

// ---------------------------------------------------------------------
// Escaping and quoting
// ---------------------------------------------------------------------
/// Each character `c` of `s` replaced by `with` (a sequence of characters).
pub open spec fn replace_char(s: Seq<char>, c: char, with: Seq<char>) -> Seq<char>
    decreases s.len(),
{
    if s.len() == 0 {
        Seq::empty()
    } else {
        replace_char(s.drop_last(), c, with) + if s.last() == c {
            with
        } else {
            seq![s.last()]
        }
    }
}

/// Appends `s` with each `c` replaced by `with`.
pub fn push_replaced(out: &mut Vec<char>, s: &Vec<char>, c: char, with: &Vec<char>)
    ensures
        final(out)@ == old(out)@ + replace_char(s@, c, with@),
{
    let ghost before = out@;
    for i in 0..s.len()
        invariant
            out@ == before + replace_char(s@.take(i as int), c, with@),
    {
        assert(s@.take(i + 1).drop_last() =~= s@.take(i as int));
        if s[i] == c {
            text::push_chars(out, with);
        } else {
            out.push(s[i]);
        }
        assert(out@ =~= before + replace_char(s@.take(i + 1), c, with@));
    }
    assert(s@.take(s@.len() as int) =~= s@);
}

/// `s` with each `"` written `\"`.
pub open spec fn escape_double_quotes(s: Seq<char>) -> Seq<char> {
    replace_char(s, '"', seq!['\\', '"'])
}

/// A non-empty identifier made only of ASCII letters, digits, `-` and `_`,
/// as connector names are.
pub open spec fn connector_like(id: Seq<char>) -> bool {
    id.len() > 0 && forall|i: int|
        0 <= i < id.len() ==> {
            let c = #[trigger] id[i];
            ('a' <= c && c <= 'z') || ('A' <= c && c <= 'Z') || ('0' <= c && c <= '9') || c
                == '-' || c == '_'
        }
}

/// How an output identifier is written: as it is when connector-like,
/// otherwise in single quotes with each `'` written `\'`.
pub open spec fn output_id_text(id: Seq<char>) -> Seq<char> {
    if connector_like(id) {
        id
    } else {
        seq!['\''] + replace_char(id, '\'', seq!['\\', '\'']) + seq!['\'']
    }
}

pub fn connector_like_exec(id: &Vec<char>) -> (b: bool)
    ensures
        b == connector_like(id@),
{
    if id.len() == 0 {
        return false;
    }
    for i in 0..id.len()
        invariant
            forall|j: int|
                0 <= j < i ==> {
                    let c = #[trigger] id@[j];
                    ('a' <= c && c <= 'z') || ('A' <= c && c <= 'Z') || ('0' <= c && c <= '9')
                        || c == '-' || c == '_'
                },
    {
        let c = id[i];
        if !(('a' <= c && c <= 'z') || ('A' <= c && c <= 'Z') || ('0' <= c && c <= '9') || c
            == '-' || c == '_') {
            return false;
        }
    }
    true
}

/// Appends how an output identifier is written (see `output_id_text`).
pub fn push_output_id(out: &mut Vec<char>, id: &Vec<char>)
    ensures
        final(out)@ == old(out)@ + output_id_text(id@),
{
    let ghost before = out@;
    if connector_like_exec(id) {
        text::push_chars(out, id);
    } else {
        out.push('\'');
        let mut with: Vec<char> = Vec::new();
        with.push('\\');
        with.push('\'');
        assert(with@ =~= seq!['\\', '\'']);
        push_replaced(out, id, '\'', &with);
        out.push('\'');
        assert(out@ =~= before + output_id_text(id@));
    }
}

/// Appends `s` with each `"` written `\"`.
pub fn push_escaped_dq(out: &mut Vec<char>, s: &Vec<char>)
    ensures
        final(out)@ == old(out)@ + escape_double_quotes(s@),
{
    let mut with: Vec<char> = Vec::new();
    with.push('\\');
    with.push('"');
    assert(with@ =~= seq!['\\', '"']);
    push_replaced(out, s, '"', &with);
}

// ---------------------------------------------------------------------
// Mirror placement
// ---------------------------------------------------------------------
/// How a mirroring screen is fitted into its target. The scale that fits a
/// dimension `s` of the mirroring screen into the dimension `t` of the target
/// (whose scale is `ts` thousandths) is `s·ts / (1000·t)`; the mirror scale
/// is the largest of the width ratio, the height ratio and `0.0001`, a ratio
/// with `t == 0` being unbounded when `s·ts > 0` and taking no part
/// otherwise.
pub enum Fit {
    /// a ratio is unbounded: the scale is infinite
    Unbounded,
    /// the width ratio is the largest
    Width,
    /// the height ratio is the largest
    Height,
    /// both ratios are below `0.0001`
    Floor,
}

/// The target's scale in thousandths, a scale of zero read as one.
pub open spec fn target_scale(t: ScreenView) -> int {
    if t.scale_milli == 0 {
        1000
    } else {
        t.scale_milli as int
    }
}

/// Which ratio sets the mirror scale. (With `ts > 0` the width ratio is at
/// least the height ratio exactly when `sw·th >= sh·tw`; with `ts < 0` both
/// ratios are negative and the floor wins.)
pub open spec fn fit(sc: ScreenView, t: ScreenView) -> Fit {
    let sw = sc.selected_mode.width as int;
    let sh = sc.selected_mode.height as int;
    let tw = t.selected_mode.width as int;
    let th = t.selected_mode.height as int;
    let ts = target_scale(t);
    if (tw == 0 && sw * ts > 0) || (th == 0 && sh * ts > 0) {
        Fit::Unbounded
    } else if tw > 0 && 10 * (sw * ts) >= tw && (th == 0 || sw * th >= sh * tw) {
        Fit::Width
    } else if th > 0 && 10 * (sh * ts) >= th && (tw == 0 || sh * tw >= sw * th) {
        Fit::Height
    } else {
        Fit::Floor
    }
}

/// `a / b` rounded half up, for `a >= 0` and `b > 0`.
pub open spec fn round_half_up(a: int, b: int) -> int {
    (2 * a + b) / (2 * b)
}

/// `a / b` rounded half away from zero, for `b > 0` (as `f64::round`).
pub open spec fn round_half_away(a: int, b: int) -> int {
    if a >= 0 {
        (2 * a + b) / (2 * b)
    } else {
        -((2 * (-a) + b) / (2 * b))
    }
}

/// A value cast to `i32` the way a float is: saturating at the bounds.
pub open spec fn saturate_i32(v: int) -> i32 {
    if v > i32::MAX {
        i32::MAX
    } else if v < i32::MIN {
        i32::MIN
    } else {
        v as i32
    }
}

/// The text of the mirror scale: `inf` when unbounded, otherwise the ratio
/// rounded to thousandths.
pub open spec fn mirror_scale_text(sc: ScreenView, t: ScreenView) -> Seq<char> {
    let ts = target_scale(t);
    match fit(sc, t) {
        Fit::Unbounded => seq!['i', 'n', 'f'],
        Fit::Width => text::fmt_milli(
            round_half_up(sc.selected_mode.width as int * ts, t.selected_mode.width as int),
        ),
        Fit::Height => text::fmt_milli(
            round_half_up(sc.selected_mode.height as int * ts, t.selected_mode.height as int),
        ),
        Fit::Floor => seq!['0'],
    }
}

/// The position of the mirroring screen along one axis: its extent in the
/// target's pixels is `s·ts / (1000·m)` for the mirror scale `m`, and it is
/// centred on the target (`tp` the target's position, `t` its extent; `so`
/// and `to` the extents along the other axis).
pub open spec fn mirror_pos(f: Fit, along: bool, tp: int, s: int, t: int, so: int, to: int, ts: int) -> int {
    match f {
        Fit::Unbounded => round_half_away(2 * tp + t, 2),
        Fit::Width => if along {
            tp
        } else {
            round_half_away(2 * (tp * so) + t * so - s * to, 2 * so)
        },
        Fit::Height => if along {
            round_half_away(2 * (tp * so) + t * so - s * to, 2 * so)
        } else {
            tp
        },
        Fit::Floor => round_half_away(2 * tp + t - 10 * (s * ts), 2),
    }
}

pub open spec fn mirror_x(sc: ScreenView, t: ScreenView) -> i32 {
    saturate_i32(
        mirror_pos(
            fit(sc, t),
            true,
            t.pos_x as int,
            sc.selected_mode.width as int,
            t.selected_mode.width as int,
            sc.selected_mode.height as int,
            t.selected_mode.height as int,
            target_scale(t),
        ),
    )
}

pub open spec fn mirror_y(sc: ScreenView, t: ScreenView) -> i32 {
    saturate_i32(
        mirror_pos(
            fit(sc, t),
            false,
            t.pos_y as int,
            sc.selected_mode.height as int,
            t.selected_mode.height as int,
            sc.selected_mode.width as int,
            t.selected_mode.width as int,
            target_scale(t),
        ),
    )
}

pub fn fit_exec(sc: &ScreenConfig, t: &ScreenConfig) -> (f: Fit)
    ensures
        f == fit(sc@, t@),
{
    let sw = sc.selected_mode.width as i128;
    let sh = sc.selected_mode.height as i128;
    let tw = t.selected_mode.width as i128;
    let th = t.selected_mode.height as i128;
    let ts: i128 = if t.scale_milli == 0 {
        1000
    } else {
        t.scale_milli as i128
    };
    proof {
        assert(-0x1_0000_0000_0000_0000_0000_0000 <= sw * ts <= 0x1_0000_0000_0000_0000_0000_0000) by (nonlinear_arith)
            requires
                0 <= sw <= 0xffff_ffff,
                -0x8000_0000_0000_0000 <= ts <= 0x8000_0000_0000_0000,
        ;
        assert(-0x1_0000_0000_0000_0000_0000_0000 <= sh * ts <= 0x1_0000_0000_0000_0000_0000_0000) by (nonlinear_arith)
            requires
                0 <= sh <= 0xffff_ffff,
                -0x8000_0000_0000_0000 <= ts <= 0x8000_0000_0000_0000,
        ;
        assert(0 <= sw * th <= 0xffff_ffff_ffff_ffff_ffff) by (nonlinear_arith)
            requires
                0 <= sw <= 0xffff_ffff,
                0 <= th <= 0xffff_ffff,
        ;
        assert(0 <= sh * tw <= 0xffff_ffff_ffff_ffff_ffff) by (nonlinear_arith)
            requires
                0 <= sh <= 0xffff_ffff,
                0 <= tw <= 0xffff_ffff,
        ;
    }
    let swts = sw * ts;
    let shts = sh * ts;
    if (tw == 0 && swts > 0) || (th == 0 && shts > 0) {
        Fit::Unbounded
    } else if tw > 0 && 10 * swts >= tw && (th == 0 || sw * th >= sh * tw) {
        Fit::Width
    } else if th > 0 && 10 * shts >= th && (tw == 0 || sh * tw >= sw * th) {
        Fit::Height
    } else {
        Fit::Floor
    }
}

pub fn round_half_away_exec(a: i128, b: i128) -> (r: i128)
    requires
        0 < b <= 0x1_0000_0000_0000_0000_0000,
        -0x1_0000_0000_0000_0000_0000_0000_0000 <= a <= 0x1_0000_0000_0000_0000_0000_0000_0000,
    ensures
        r == round_half_away(a as int, b as int),
{
    if a >= 0 {
        (2 * a + b) / (2 * b)
    } else {
        -((2 * (-a) + b) / (2 * b))
    }
}

pub fn saturate_i32_exec(v: i128) -> (r: i32)
    ensures
        r == saturate_i32(v as int),
{
    if v > 0x7fff_ffff {
        0x7fff_ffff
    } else if v < -0x8000_0000 {
        -0x8000_0000
    } else {
        v as i32
    }
}

/// The position of the mirroring screen along one axis (see `mirror_pos`).
pub fn mirror_pos_exec(f: &Fit, along: bool, tp: i32, s: u32, t: u32, so: u32, to: u32, ts: i64) -> (r: i32)
    requires
        ts != 0,
        *f == Fit::Width ==> (if along { true } else { so > 0 }),
        *f == Fit::Height ==> (if along { so > 0 } else { true }),
    ensures
        r == saturate_i32(mirror_pos(*f, along, tp as int, s as int, t as int, so as int, to as int, ts as int)),
{
    let tp = tp as i128;
    let s = s as i128;
    let t = t as i128;
    let so = so as i128;
    let to = to as i128;
    let ts = ts as i128;
    proof {
        assert(-0x1_0000_0000_0000_0000 <= tp * so <= 0x1_0000_0000_0000_0000) by (nonlinear_arith)
            requires
                -0x8000_0000 <= tp <= 0x8000_0000,
                0 <= so <= 0xffff_ffff,
        ;
        assert(0 <= t * so <= 0x1_0000_0000_0000_0000) by (nonlinear_arith)
            requires
                0 <= t <= 0xffff_ffff,
                0 <= so <= 0xffff_ffff,
        ;
        assert(0 <= s * to <= 0x1_0000_0000_0000_0000) by (nonlinear_arith)
            requires
                0 <= s <= 0xffff_ffff,
                0 <= to <= 0xffff_ffff,
        ;
        assert(-0x1_0000_0000_0000_0000_0000_0000 <= s * ts <= 0x1_0000_0000_0000_0000_0000_0000) by (nonlinear_arith)
            requires
                0 <= s <= 0xffff_ffff,
                -0x8000_0000_0000_0000 <= ts <= 0x8000_0000_0000_0000,
        ;
    }
    let v: i128 = match f {
        Fit::Unbounded => round_half_away_exec(2 * tp + t, 2),
        Fit::Width => if along {
            tp
        } else {
            round_half_away_exec(2 * (tp * so) + t * so - s * to, 2 * so)
        },
        Fit::Height => if along {
            round_half_away_exec(2 * (tp * so) + t * so - s * to, 2 * so)
        } else {
            tp
        },
        Fit::Floor => round_half_away_exec(2 * tp + t - 10 * (s * ts), 2),
    };
    saturate_i32_exec(v)
}

pub fn push_mirror_scale(out: &mut Vec<char>, sc: &ScreenConfig, t: &ScreenConfig)
    ensures
        final(out)@ == old(out)@ + mirror_scale_text(sc@, t@),
{
    let ghost before = out@;
    let f = fit_exec(sc, t);
    let ts: i128 = if t.scale_milli == 0 {
        1000
    } else {
        t.scale_milli as i128
    };
    match f {
        Fit::Unbounded => {
            out.push('i');
            out.push('n');
            out.push('f');
        },
        Fit::Width => {
            proof {
                let w = sc.selected_mode.width as int;
                assert(-0x1_0000_0000_0000_0000_0000_0000 <= w * ts <= 0x1_0000_0000_0000_0000_0000_0000) by (nonlinear_arith)
                    requires
                        0 <= w <= 0xffff_ffff,
                        -0x8000_0000_0000_0000 <= ts <= 0x8000_0000_0000_0000,
                ;
            }
            let a = sc.selected_mode.width as i128 * ts;
            let b = t.selected_mode.width as i128;
            proof {
                assert(0 <= a <= 0x1_0000_0000_0000_0000_0000_0000) by (nonlinear_arith)
                    requires
                        a == sc.selected_mode.width as int * ts,
                        10 * a >= b,
                        b > 0,
                        0 <= sc.selected_mode.width <= 0xffff_ffff,
                        -0x8000_0000_0000_0000 <= ts <= 0x8000_0000_0000_0000,
                ;
            }
            text::push_milli128(out, ((2 * a + b) / (2 * b)) as u128);
        },
        Fit::Height => {
            proof {
                let w = sc.selected_mode.height as int;
                assert(-0x1_0000_0000_0000_0000_0000_0000 <= w * ts <= 0x1_0000_0000_0000_0000_0000_0000) by (nonlinear_arith)
                    requires
                        0 <= w <= 0xffff_ffff,
                        -0x8000_0000_0000_0000 <= ts <= 0x8000_0000_0000_0000,
                ;
            }
            let a = sc.selected_mode.height as i128 * ts;
            let b = t.selected_mode.height as i128;
            proof {
                assert(0 <= a <= 0x1_0000_0000_0000_0000_0000_0000) by (nonlinear_arith)
                    requires
                        a == sc.selected_mode.height as int * ts,
                        10 * a >= b,
                        b > 0,
                        0 <= sc.selected_mode.height <= 0xffff_ffff,
                        -0x8000_0000_0000_0000 <= ts <= 0x8000_0000_0000_0000,
                ;
            }
            text::push_milli128(out, ((2 * a + b) / (2 * b)) as u128);
        },
        Fit::Floor => {
            out.push('0');
        },
    }
    assert(out@ =~= before + mirror_scale_text(sc@, t@));
}

// ---------------------------------------------------------------------
// Profile text
// ---------------------------------------------------------------------
/// The last screen of `all` with the id `id`.
pub open spec fn target_of(all: Seq<ScreenView>, id: Seq<char>) -> Option<ScreenView>
    decreases all.len(),
{
    if all.len() == 0 {
        None
    } else if all.last().id == id {
        Some(all.last())
    } else {
        target_of(all.drop_last(), id)
    }
}

/// The id and the screen that `sc` mirrors, when it mirrors one that is in
/// the profile.
pub open spec fn mirror_of(all: Seq<ScreenView>, sc: ScreenView) -> Option<(Seq<char>, ScreenView)> {
    if sc.mirror {
        match sc.mirror_target {
            Some(tid) => match target_of(all, tid) {
                Some(t) => Some((tid, t)),
                None => None,
            },
            None => None,
        }
    } else {
        None
    }
}

/// `s` with each `"` replaced by `'`.
pub open spec fn dq_to_sq(s: Seq<char>) -> Seq<char> {
    replace_char(s, '"', seq!['\''])
}

/// The inline output line of a screen, with the position and scale text
/// given.
pub open spec fn output_line(sc: ScreenView, x: i32, y: i32, scale: Seq<char>) -> Seq<char> {
    "  output "@ + output_id_text(sc.id) + seq![' '] + (if sc.enabled {
        "enable"@
    } else {
        "disable"@
    }) + " mode "@ + model::kanshi_mode_text(sc.selected_mode) + " position "@ + text::fmt_int(
        x as int,
    ) + seq![','] + text::fmt_int(y as int) + " scale "@ + scale + seq!['\n']
}

/// The text of one screen of a profile: its output line with its own
/// position and scale; for a screen that mirrors another screen of the
/// profile, a comment recording the mirroring and then its output line with
/// the position and scale that fit it centred into that screen.
pub open spec fn screen_text(all: Seq<ScreenView>, sc: ScreenView) -> Seq<char> {
    match mirror_of(all, sc) {
        Some((tid, t)) => "  # kanshiui: mirror id='"@ + dq_to_sq(sc.id) + "' target='"@ + dq_to_sq(
            tid,
        ) + "'\n"@ + output_line(sc, mirror_x(sc, t), mirror_y(sc, t), mirror_scale_text(sc, t)),
        None => output_line(sc, sc.pos_x, sc.pos_y, text::fmt_milli(sc.scale_milli as int)),
    }
}

/// The texts of the first `k` screens of `all`, in order.
pub open spec fn screens_text(all: Seq<ScreenView>, k: int) -> Seq<char>
    decreases k,
{
    if k <= 0 {
        Seq::empty()
    } else {
        screens_text(all, k - 1) + screen_text(all, all[k - 1])
    }
}

/// The text of a profile block: the header `profile "NAME"{`, a line per
/// screen, `exec notify-send "NAME"` and the closing brace, the name with
/// each `"` escaped.
pub open spec fn profile_text(p: ProfileView) -> Seq<char> {
    "profile \""@ + escape_double_quotes(p.name) + "\"{\n"@ + screens_text(
        p.screens,
        p.screens.len() as int,
    ) + "  exec notify-send \""@ + escape_double_quotes(p.name) + "\"\n"@ + "}\n"@
}

/// The index of the last screen with the id `id`.
pub fn target_index(all: &Vec<ScreenConfig>, id: &String) -> (r: Option<usize>)
    ensures
        match r {
            Some(i) => i < all@.len() && target_of(model::screen_views(all@), id@) == Some(
                all@[i as int]@,
            ),
            None => target_of(model::screen_views(all@), id@) is None,
        },
{
    let ghost v = model::screen_views(all@);
    let mut i: usize = all.len();
    assert(v.take(i as int) =~= v);
    while i > 0
        invariant
            i <= all@.len(),
            v == model::screen_views(all@),
            target_of(v, id@) == target_of(v.take(i as int), id@),
        decreases i,
    {
        assert(v.take(i as int).drop_last() =~= v.take(i - 1));
        if all[i - 1].id == *id {
            return Some(i - 1);
        }
        i = i - 1;
    }
    None
}

pub fn push_output_line(out: &mut Vec<char>, sc: &ScreenConfig, x: i32, y: i32, scale: &Vec<char>)
    ensures
        final(out)@ == old(out)@ + output_line(sc@, x, y, scale@),
{
    let ghost before = out@;
    text::push_str(out, "  output ");
    push_output_id(out, &text::chars_of(sc.id.as_str()));
    out.push(' ');
    if sc.enabled {
        text::push_str(out, "enable");
    } else {
        text::push_str(out, "disable");
    }
    text::push_str(out, " mode ");
    sc.selected_mode.push_kanshi_mode(out);
    text::push_str(out, " position ");
    text::push_int(out, x as i64);
    out.push(',');
    text::push_int(out, y as i64);
    text::push_str(out, " scale ");
    text::push_chars(out, scale);
    out.push('\n');
    assert(out@ =~= before + output_line(sc@, x, y, scale@));
}

pub fn push_screen_text(out: &mut Vec<char>, all: &Vec<ScreenConfig>, sc: &ScreenConfig)
    ensures
        final(out)@ == old(out)@ + screen_text(model::screen_views(all@), sc@),
{
    let ghost before = out@;
    let target = if sc.mirror {
        match &sc.mirror_target {
            Some(tid) => match target_index(all, tid) {
                Some(i) => Some((tid, i)),
                None => None,
            },
            None => None,
        }
    } else {
        None
    };
    match target {
        Some((tid, i)) => {
            let t = &all[i];
            text::push_str(out, "  # kanshiui: mirror id='");
            let mut sq: Vec<char> = Vec::new();
            sq.push('\'');
            assert(sq@ =~= seq!['\'']);
            push_replaced(out, &text::chars_of(sc.id.as_str()), '"', &sq);
            text::push_str(out, "' target='");
            push_replaced(out, &text::chars_of(tid.as_str()), '"', &sq);
            text::push_str(out, "'\n");
            let mut scale: Vec<char> = Vec::new();
            push_mirror_scale(&mut scale, sc, t);
            assert(scale@ =~= mirror_scale_text(sc@, t@));
            let f = fit_exec(sc, t);
            let ts: i64 = if t.scale_milli == 0 {
                1000
            } else {
                t.scale_milli
            };
            let x = mirror_pos_exec(
                &f,
                true,
                t.pos_x,
                sc.selected_mode.width,
                t.selected_mode.width,
                sc.selected_mode.height,
                t.selected_mode.height,
                ts,
            );
            let y = mirror_pos_exec(
                &f,
                false,
                t.pos_y,
                sc.selected_mode.height,
                t.selected_mode.height,
                sc.selected_mode.width,
                t.selected_mode.width,
                ts,
            );
            push_output_line(out, sc, x, y, &scale);
            assert(out@ =~= before + screen_text(model::screen_views(all@), sc@));
        },
        None => {
            let mut scale: Vec<char> = Vec::new();
            text::push_milli(&mut scale, sc.scale_milli);
            assert(scale@ =~= text::fmt_milli(sc.scale_milli as int));
            push_output_line(out, sc, sc.pos_x, sc.pos_y, &scale);
        },
    }
}

/// The text of a profile block (see `profile_text`).
pub fn generate_profile(profile: &Profile) -> (s: String)
    ensures
        s@ == profile_text(profile@),
{
    let ghost p = profile@;
    let mut out: Vec<char> = Vec::new();
    let name = text::chars_of(profile.name.as_str());
    text::push_str(&mut out, "profile \"");
    push_escaped_dq(&mut out, &name);
    text::push_str(&mut out, "\"{\n");
    let ghost head = out@;
    for k in 0..profile.screens.len()
        invariant
            p == profile@,
            out@ == head + screens_text(p.screens, k as int),
    {
        push_screen_text(&mut out, &profile.screens, &profile.screens[k]);
        assert(p.screens[k as int] == profile.screens@[k as int]@);
        assert(out@ =~= head + screens_text(p.screens, k + 1));
    }
    text::push_str(&mut out, "  exec notify-send \"");
    push_escaped_dq(&mut out, &name);
    text::push_str(&mut out, "\"\n");
    text::push_str(&mut out, "}\n");
    assert(out@ =~= profile_text(p));
    text::string_of(&out)
}

// ---------------------------------------------------------------------
// Inserting or replacing a profile in a configuration
// ---------------------------------------------------------------------
/// The first profile named `name`.
pub open spec fn first_named(ps: Seq<ProfileView>, name: Seq<char>) -> Option<ProfileView>
    decreases ps.len(),
{
    if ps.len() == 0 {
        None
    } else if ps[0].name == name {
        Some(ps[0])
    } else {
        first_named(ps.drop_first(), name)
    }
}

/// `block` appended to `existing`, after a newline when `existing` is not
/// empty and does not end with one.
pub open spec fn appended(existing: Seq<char>, block: Seq<char>) -> Seq<char> {
    if existing.len() > 0 && existing.last() != '\n' {
        existing.push('\n') + block
    } else {
        existing + block
    }
}

/// The configuration with the block of profile `p`: the text of the first
/// profile with the same name (its byte range taken back to characters)
/// replaced by it, or, when there is none, the block appended.
pub open spec fn upserted(existing: Seq<char>, p: ProfileView) -> Seq<char> {
    let block = profile_text(p);
    match parse::parse_profiles_spec(existing) {
        Some(ps) => match first_named(ps, p.name) {
            Some(old) => match old.raw_range {
                Some((a, b)) => existing.subrange(0, text::char_index(existing, a as int)) + block
                    + existing.subrange(text::char_index(existing, b as int), existing.len() as int),
                None => appended(existing, block),
            },
            None => appended(existing, block),
        },
        None => appended(existing, block),
    }
}

/// The index of the first profile named `name`.
pub fn first_named_index(ps: &Vec<Profile>, name: &String) -> (r: Option<usize>)
    ensures
        match r {
            Some(k) => k < ps@.len() && first_named(model::profile_views(ps@), name@) == Some(
                ps@[k as int]@,
            ),
            None => first_named(model::profile_views(ps@), name@) is None,
        },
{
    let ghost v = model::profile_views(ps@);
    let mut i: usize = 0;
    assert(v.skip(0) =~= v);
    while i < ps.len()
        invariant
            i <= ps@.len(),
            v == model::profile_views(ps@),
            first_named(v, name@) == first_named(v.skip(i as int), name@),
        decreases ps.len() - i,
    {
        assert(v.skip(i as int)[0] == ps@[i as int]@);
        assert(v.skip(i as int).drop_first() =~= v.skip(i + 1));
        if ps[i].name == *name {
            return Some(i);
        }
        i = i + 1;
    }
    assert(v.skip(i as int) =~= Seq::<ProfileView>::empty());
    None
}

/// The configuration text with profile `profile` written into it (see
/// `upserted`); `None` where the existing text cannot be read (see
/// `parse::parse_profiles`).
pub fn upserted_config(existing: &str, profile: &Profile) -> (r: Option<String>)
    ensures
        match r {
            Some(t) => parse::parse_profiles_spec(existing@) is Some && t@ == upserted(existing@, profile@),
            None => parse::parse_profiles_spec(existing@) is None,
        },
{
    let parsed = match parse::parse_profiles(existing) {
        Some(v) => v,
        None => return None,
    };
    let block = generate_profile(profile);
    let ex = text::chars_of(existing);
    let nbytes = existing.as_bytes().len();
    proof {
        assert(existing@.take(existing@.len() as int) =~= existing@);
        assert(text::byte_offset(ex@, ex@.len() as int) == nbytes);
    }
    let ghost ps = model::profile_views(parsed@);
    let found = first_named_index(&parsed, &profile.name);
    let mut out: Vec<char> = Vec::new();
    let blk = text::chars_of(block.as_str());
    match found {
        Some(k) => {
            assert(first_named(ps, profile@.name) == Some(parsed@[k as int]@));
            match parsed[k].raw_range {
                Some((a, b)) => {
                    let ca = text::char_index_exec(&ex, a);
                    let cb = text::char_index_exec(&ex, b);
                    proof {
                        text::lemma_char_index(ex@, a as int, b as int);
                    }
                    let head = text::copy_range(&ex, 0, ca);
                    let tail = text::copy_range(&ex, cb, ex.len());
                    text::push_chars(&mut out, &head);
                    text::push_chars(&mut out, &blk);
                    text::push_chars(&mut out, &tail);
                    assert(out@ =~= upserted(existing@, profile@));
                    return Some(text::string_of(&out));
                },
                None => {},
            }
        },
        None => {},
    }
    text::push_chars(&mut out, &ex);
    if ex.len() > 0 && ex[ex.len() - 1] != '\n' {
        out.push('\n');
    }
    text::push_chars(&mut out, &blk);
    assert(out@ =~= upserted(existing@, profile@));
    Some(text::string_of(&out))
}

// ---------------------------------------------------------------------
// Backups
// ---------------------------------------------------------------------
/// The name of the backup copy of the file `path` made `secs` seconds after
/// the epoch: `PATH.bak.SECS`.
pub open spec fn backup_name_text(path: Seq<char>, secs: u64) -> Seq<char> {
    path + ".bak."@ + text::fmt_nat(secs as nat)
}

/// The name of a backup copy (see `backup_name_text`).
pub fn backup_name(path: &str, secs: u64) -> (s: String)
    ensures
        s@ == backup_name_text(path@, secs),
{
    let mut out: Vec<char> = Vec::new();
    text::push_str(&mut out, path);
    text::push_str(&mut out, ".bak.");
    text::push_nat(&mut out, secs);
    text::string_of(&out)
}

} // verus!




