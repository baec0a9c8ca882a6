//! The display model: modes, runtime outputs, per-profile screen settings and
//! profiles, with the rules that derive identifiers and default modes.

use vstd::prelude::*;

use crate::text;

verus! {

/// A display mode. The refresh rate is held in thousandths of a hertz, the
/// precision with which kanshi mode strings are written.
#[derive(Clone, Copy, Debug, PartialEq, Eq, Structural)]
pub struct OutputMode {
    pub width: u32,
    pub height: u32,
    pub refresh_mhz: i64,
}

/// An output as the compositor reports it.
#[derive(Debug)]
pub struct RuntimeOutput {
    pub connector_name: String,
    pub make: Option<String>,
    pub model: Option<String>,
    pub serial: Option<String>,
    pub active: bool,
    /// The current scale, in thousandths.
    pub current_scale_milli: i64,
    pub available_modes: Vec<OutputMode>,
    pub layout_x: i32,
    pub layout_y: i32,
    pub layout_width: i32,
    pub layout_height: i32,
}

/// The settings of one screen within a profile.
#[derive(Debug)]
pub struct ScreenConfig {
    pub id: String,
    pub connector_name: String,
    pub enabled: bool,
    pub selected_mode: OutputMode,
    pub available_modes: Vec<OutputMode>,
    /// The scale, in thousandths.
    pub scale_milli: i64,
    pub pos_x: i32,
    pub pos_y: i32,
    /// When set, this screen mirrors the screen whose id is `mirror_target`.
    pub mirror: bool,
    pub mirror_target: Option<String>,
}

/// A named profile. `raw_range` is the range of byte offsets (in UTF-8) of
/// the profile block in the configuration text it was parsed from, from the
/// start of its header line to just past its closing brace.
#[derive(Debug)]
pub struct Profile {
    pub name: String,
    pub screens: Vec<ScreenConfig>,
    pub raw_range: Option<(usize, usize)>,
}

/// User settings of the editor.
#[derive(Clone, Copy, Debug, PartialEq, Eq, Structural)]
pub struct AppSettings {
    pub snap_threshold_px: i32,
}

/// The mathematical content of a `ScreenConfig`.
pub struct ScreenView {
    pub id: Seq<char>,
    pub connector_name: Seq<char>,
    pub enabled: bool,
    pub selected_mode: OutputMode,
    pub available_modes: Seq<OutputMode>,
    pub scale_milli: i64,
    pub pos_x: i32,
    pub pos_y: i32,
    pub mirror: bool,
    pub mirror_target: Option<Seq<char>>,
}

/// The mathematical content of a `Profile`.
pub struct ProfileView {
    pub name: Seq<char>,
    pub screens: Seq<ScreenView>,
    pub raw_range: Option<(usize, usize)>,
}

/// The mathematical content of a `RuntimeOutput`.
pub struct OutputView {
    pub connector_name: Seq<char>,
    pub make: Option<Seq<char>>,
    pub model: Option<Seq<char>>,
    pub serial: Option<Seq<char>>,
    pub active: bool,
    pub current_scale_milli: i64,
    pub available_modes: Seq<OutputMode>,
    pub layout_x: i32,
    pub layout_y: i32,
    pub layout_width: i32,
    pub layout_height: i32,
}

pub open spec fn opt_view(o: Option<String>) -> Option<Seq<char>> {
    match o {
        Some(s) => Some(s@),
        None => None,
    }
}

impl View for ScreenConfig {
    type V = ScreenView;

    open spec fn view(&self) -> ScreenView {
        ScreenView {
            id: self.id@,
            connector_name: self.connector_name@,
            enabled: self.enabled,
            selected_mode: self.selected_mode,
            available_modes: self.available_modes@,
            scale_milli: self.scale_milli,
            pos_x: self.pos_x,
            pos_y: self.pos_y,
            mirror: self.mirror,
            mirror_target: opt_view(self.mirror_target),
        }
    }
}

pub open spec fn screen_views(s: Seq<ScreenConfig>) -> Seq<ScreenView> {
    s.map_values(|c: ScreenConfig| c@)
}

impl View for Profile {
    type V = ProfileView;

    open spec fn view(&self) -> ProfileView {
        ProfileView { name: self.name@, screens: screen_views(self.screens@), raw_range: self.raw_range }
    }
}

pub open spec fn profile_views(s: Seq<Profile>) -> Seq<ProfileView> {
    s.map_values(|p: Profile| p@)
}

impl View for RuntimeOutput {
    type V = OutputView;

    open spec fn view(&self) -> OutputView {
        OutputView {
            connector_name: self.connector_name@,
            make: opt_view(self.make),
            model: opt_view(self.model),
            serial: opt_view(self.serial),
            active: self.active,
            current_scale_milli: self.current_scale_milli,
            available_modes: self.available_modes@,
            layout_x: self.layout_x,
            layout_y: self.layout_y,
            layout_width: self.layout_width,
            layout_height: self.layout_height,
        }
    }
}

pub open spec fn output_views(s: Seq<RuntimeOutput>) -> Seq<OutputView> {
    s.map_values(|o: RuntimeOutput| o@)
}

/// A copy of a list of modes.
pub fn copy_modes(v: &Vec<OutputMode>) -> (r: Vec<OutputMode>)
    ensures
        r@ == v@,
{
    let mut r: Vec<OutputMode> = Vec::new();
    for i in 0..v.len()
        invariant
            r@ == v@.take(i as int),
    {
        r.push(v[i]);
        assert(v@.take(i + 1) =~= v@.take(i as int).push(v@[i as int]));
    }
    assert(v@.take(v@.len() as int) =~= v@);
    r
}

pub fn copy_opt_string(o: &Option<String>) -> (r: Option<String>)
    ensures
        opt_view(r) == opt_view(*o),
{
    match o {
        Some(s) => Some(s.clone()),
        None => None,
    }
}

impl Clone for ScreenConfig {
    fn clone(&self) -> (r: Self)
        ensures
            r@ == self@,
    {
        ScreenConfig {
            id: self.id.clone(),
            connector_name: self.connector_name.clone(),
            enabled: self.enabled,
            selected_mode: self.selected_mode,
            available_modes: copy_modes(&self.available_modes),
            scale_milli: self.scale_milli,
            pos_x: self.pos_x,
            pos_y: self.pos_y,
            mirror: self.mirror,
            mirror_target: copy_opt_string(&self.mirror_target),
        }
    }
}

pub fn copy_screens(v: &Vec<ScreenConfig>) -> (r: Vec<ScreenConfig>)
    ensures
        screen_views(r@) == screen_views(v@),
{
    let mut r: Vec<ScreenConfig> = Vec::new();
    for i in 0..v.len()
        invariant
            screen_views(r@) == screen_views(v@.take(i as int)),
    {
        r.push(v[i].clone());
        assert(screen_views(v@.take(i + 1)) =~= screen_views(v@.take(i as int)).push(v@[i as int]@));
        assert(screen_views(r@) =~= screen_views(v@.take(i + 1)));
    }
    assert(v@.take(v@.len() as int) =~= v@);
    r
}

impl Clone for Profile {
    fn clone(&self) -> (r: Self)
        ensures
            r@ == self@,
    {
        Profile { name: self.name.clone(), screens: copy_screens(&self.screens), raw_range: self.raw_range }
    }
}

impl Clone for RuntimeOutput {
    fn clone(&self) -> (r: Self)
        ensures
            r@ == self@,
    {
        RuntimeOutput {
            connector_name: self.connector_name.clone(),
            make: copy_opt_string(&self.make),
            model: copy_opt_string(&self.model),
            serial: copy_opt_string(&self.serial),
            active: self.active,
            current_scale_milli: self.current_scale_milli,
            available_modes: copy_modes(&self.available_modes),
            layout_x: self.layout_x,
            layout_y: self.layout_y,
            layout_width: self.layout_width,
            layout_height: self.layout_height,
        }
    }
}

// ---------------------------------------------------------------------
// Canonical display identifiers
// ---------------------------------------------------------------------
/// The parts `sep`-joined: `join([a, b, c], s) == a + s + b + s + c`.
pub open spec fn join(parts: Seq<Seq<char>>, sep: Seq<char>) -> Seq<char>
    decreases parts.len(),
{
    if parts.len() == 0 {
        Seq::empty()
    } else if parts.len() == 1 {
        parts[0]
    } else {
        join(parts.drop_last(), sep) + sep + parts.last()
    }
}

/// The trimmed text of an optional part, when it is present and not blank.
pub open spec fn id_part(v: Option<Seq<char>>) -> Seq<Seq<char>> {
    match v {
        Some(x) => if text::trim(x).len() > 0 {
            seq![text::trim(x)]
        } else {
            Seq::empty()
        },
        None => Seq::empty(),
    }
}

/// The canonical identifier of a display: when both make and model are
/// given (not blank), make, model and serial, each trimmed, a blank serial
/// left out, joined with single spaces; otherwise the connector name.
pub open spec fn display_id_of(
    make: Option<Seq<char>>,
    model: Option<Seq<char>>,
    serial: Option<Seq<char>>,
    connector: Seq<char>,
) -> Seq<char> {
    let parts = id_part(make) + id_part(model) + id_part(serial);
    if id_part(make).len() > 0 && id_part(model).len() > 0 {
        join(parts, seq![' '])
    } else {
        connector
    }
}

pub open spec fn opt_str_view(o: Option<&str>) -> Option<Seq<char>> {
    match o {
        Some(s) => Some(s@),
        None => None,
    }
}

fn push_id_part(parts: &mut Vec<Vec<char>>, v: Option<&str>)
    ensures
        text::views(final(parts)@) == text::views(old(parts)@) + id_part(opt_str_view(v)),
{
    let ghost before = text::views(parts@);
    match v {
        Some(x) => {
            let t = text::trimmed(&text::chars_of(x));
            if t.len() > 0 {
                parts.push(t);
            }
            assert(text::views(parts@) =~= before + id_part(opt_str_view(v)));
        },
        None => {
            assert(text::views(parts@) =~= before + id_part(opt_str_view(v)));
        },
    }
}

/// Appends `parts` joined with `sep` to `out`.
pub fn push_joined(out: &mut Vec<char>, parts: &Vec<Vec<char>>, sep: &Vec<char>)
    ensures
        final(out)@ == old(out)@ + join(text::views(parts@), sep@),
{
    let ghost before = out@;
    let n = parts.len();
    let mut i: usize = 0;
    while i < n
        invariant
            i <= n == parts@.len(),
            out@ == before + join(text::views(parts@).take(i as int), sep@),
        decreases n - i,
    {
        let ghost ps = text::views(parts@);
        if i > 0 {
            text::push_chars(out, sep);
        }
        text::push_chars(out, &parts[i]);
        proof {
            assert(ps.take(i + 1).drop_last() =~= ps.take(i as int));
            if i == 0 {
                assert(join(ps.take(0), sep@) =~= Seq::<char>::empty());
                assert(out@ =~= before + join(ps.take(1), sep@));
            } else {
                assert(out@ =~= before + join(ps.take(i + 1), sep@));
            }
        }
        i = i + 1;
    }
    assert(text::views(parts@).take(n as int) =~= text::views(parts@));
}

/// The canonical identifier of a display (see `display_id_of`).
pub fn canonical_display_id(
    make: Option<&str>,
    model: Option<&str>,
    serial: Option<&str>,
    connector_name: &str,
) -> (id: String)
    ensures
        id@ == display_id_of(
            opt_str_view(make),
            opt_str_view(model),
            opt_str_view(serial),
            connector_name@,
        ),
{
    let mut parts: Vec<Vec<char>> = Vec::new();
    push_id_part(&mut parts, make);
    let with_make = parts.len();
    push_id_part(&mut parts, model);
    let with_model = parts.len();
    push_id_part(&mut parts, serial);
    assert(text::views(parts@) =~= id_part(opt_str_view(make)) + id_part(opt_str_view(model))
        + id_part(opt_str_view(serial)));
    if with_make == 0 || with_model == with_make {
        String::from_str(connector_name)
    } else {
        let mut out: Vec<char> = Vec::new();
        let sp = text::chars_of(" ");
        proof {
            reveal_strlit(" ");
            assert(sp@ =~= seq![' ']);
        }
        push_joined(&mut out, &parts, &sp);
        assert(out@ =~= join(text::views(parts@), seq![' ']));
        text::string_of(&out)
    }
}

pub fn opt_as_str(o: &Option<String>) -> (r: Option<&str>)
    ensures
        opt_str_view(r) == opt_view(*o),
{
    match o {
        Some(s) => Some(s.as_str()),
        None => None,
    }
}

impl RuntimeOutput {
    /// The canonical identifier of this output.
    pub fn display_id(&self) -> (id: String)
        ensures
            id@ == display_id_of(
                opt_view(self.make),
                opt_view(self.model),
                opt_view(self.serial),
                self.connector_name@,
            ),
    {
        canonical_display_id(
            opt_as_str(&self.make),
            opt_as_str(&self.model),
            opt_as_str(&self.serial),
            self.connector_name.as_str(),
        )
    }
}

// ---------------------------------------------------------------------
// Modes
// ---------------------------------------------------------------------
pub open spec fn area(m: OutputMode) -> int {
    m.width as int * m.height as int
}

/// `a` ranks no higher than `b`: a smaller area, or the same area and a
/// refresh rate that is not higher.
pub open spec fn mode_le(a: OutputMode, b: OutputMode) -> bool {
    area(a) < area(b) || (area(a) == area(b) && a.refresh_mhz <= b.refresh_mhz)
}

/// The best mode of a list: the one of largest area, ties broken by the
/// highest refresh rate, and among equally ranked modes the last one.
pub open spec fn best_mode_of(s: Seq<OutputMode>) -> Option<OutputMode>
    decreases s.len(),
{
    if s.len() == 0 {
        None
    } else {
        match best_mode_of(s.drop_last()) {
            None => Some(s.last()),
            Some(b) => if mode_le(b, s.last()) {
                Some(s.last())
            } else {
                Some(b)
            },
        }
    }
}

/// The best mode is one of the modes and ranks at least as high as each.
pub proof fn lemma_best_mode_of(s: Seq<OutputMode>)
    ensures
        best_mode_of(s) is None <==> s.len() == 0,
        best_mode_of(s) matches Some(b) ==> s.contains(b) && forall|j: int|
            0 <= j < s.len() ==> mode_le(#[trigger] s[j], b),
    decreases s.len(),
{
    if s.len() > 0 {
        lemma_best_mode_of(s.drop_last());
        let b = best_mode_of(s).unwrap();
        assert(s[s.len() - 1] == s.last());
        assert forall|j: int| 0 <= j < s.len() implies mode_le(#[trigger] s[j], b) by {
            if j < s.len() - 1 {
                assert(s.drop_last()[j] == s[j]);
            }
        }
        if best_mode_of(s.drop_last()) is Some && b != s.last() {
            let k = choose|k: int| 0 <= k < s.drop_last().len() && s.drop_last()[k] == b;
            assert(s[k] == b);
        }
    }
}

pub fn area_exec(m: OutputMode) -> (a: u64)
    ensures
        a == area(m),
{
    assert(m.width as int * m.height as int <= 0xffff_ffff_ffff_ffff) by (nonlinear_arith)
        requires
            m.width <= 0xffff_ffff,
            m.height <= 0xffff_ffff,
    ;
    m.width as u64 * m.height as u64
}

/// The best mode of `modes` (see `best_mode_of`); `None` for an empty list.
pub fn best_mode(modes: &[OutputMode]) -> (r: Option<OutputMode>)
    ensures
        r == best_mode_of(modes@),
        r is None <==> modes@.len() == 0,
        r matches Some(b) ==> modes@.contains(b) && forall|j: int|
            0 <= j < modes@.len() ==> mode_le(#[trigger] modes@[j], b),
{
    let mut best: Option<OutputMode> = None;
    for i in 0..modes.len()
        invariant
            best == best_mode_of(modes@.take(i as int)),
    {
        assert(modes@.take(i + 1).drop_last() =~= modes@.take(i as int));
        let m = modes[i];
        best = match best {
            None => Some(m),
            Some(b) => {
                let ab = area_exec(b);
                let am = area_exec(m);
                if ab < am || (ab == am && b.refresh_mhz <= m.refresh_mhz) {
                    Some(m)
                } else {
                    Some(b)
                }
            },
        };
    }
    assert(modes@.take(modes@.len() as int) =~= modes@);
    proof {
        lemma_best_mode_of(modes@);
    }
    best
}

/// A number given in thousandths, written with at most three decimals and
/// no trailing zeros (see `text::fmt_milli`).
pub fn trim_float(milli: i64) -> (s: String)
    ensures
        s@ == text::fmt_milli(milli as int),
{
    let mut out: Vec<char> = Vec::new();
    text::push_milli(&mut out, milli);
    text::string_of(&out)
}

/// The kanshi text of a mode: `WIDTHxHEIGHT@RATEHz`.
pub open spec fn kanshi_mode_text(m: OutputMode) -> Seq<char> {
    text::fmt_nat(m.width as nat) + seq!['x'] + text::fmt_nat(m.height as nat) + seq!['@']
        + text::fmt_milli(m.refresh_mhz as int) + seq!['H', 'z']
}

impl OutputMode {
    pub fn push_kanshi_mode(&self, out: &mut Vec<char>)
        ensures
            final(out)@ == old(out)@ + kanshi_mode_text(*self),
    {
        let ghost before = out@;
        text::push_nat(out, self.width as u64);
        out.push('x');
        text::push_nat(out, self.height as u64);
        out.push('@');
        text::push_milli(out, self.refresh_mhz);
        out.push('H');
        out.push('z');
        assert(out@ =~= before + kanshi_mode_text(*self));
    }

    /// The kanshi text of this mode (see `kanshi_mode_text`).
    pub fn as_kanshi_mode(&self) -> (s: String)
        ensures
            s@ == kanshi_mode_text(*self),
    {
        let mut out: Vec<char> = Vec::new();
        self.push_kanshi_mode(&mut out);
        assert(out@ =~= kanshi_mode_text(*self));
        text::string_of(&out)
    }
}

} // verus!


