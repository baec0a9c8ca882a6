//! The editor: the state the user works on (the connected outputs, the
//! profiles of the configuration, the profile in the editor, the status line)
//! and what each action of the user does to it. Reading the configuration,
//! asking the compositor and running processes are left to the caller, which
//! hands in what they gave.

use vstd::prelude::*;

use crate::generate;
use crate::matching;
use crate::order;
use crate::model::{
    self, AppSettings, OutputView, Profile, ProfileView, RuntimeOutput, ScreenConfig, ScreenView,
};
use crate::sway;
use crate::text;

verus! {

/// The state of the editor.
#[derive(Debug)]
pub struct AppState {
    pub connected_outputs: Vec<RuntimeOutput>,
    pub profiles: Vec<Profile>,
    pub current_profile: Option<Profile>,
    pub current_profile_name: String,
    pub current_profile_read_only: bool,
    pub status: String,
    pub settings: AppSettings,
    pub identify_enabled: bool,
    pub identify_overlay_pids: Vec<u32>,
    /// A profile was applied and waits to be confirmed or rejected.
    pub pending_confirmation: bool,
    /// The configuration text before the last save, restored when the
    /// change is rejected.
    pub previous_config_contents: Option<String>,
    /// The configuration file was empty when it was loaded.
    pub show_first_run_dialog: bool,
    /// The screen being dragged on the canvas.
    pub drag_anchor_screen: Option<usize>,
    /// Snapping is active during the current drag.
    pub drag_snap_active: bool,
}

/// The mathematical content of an `AppState`.
pub struct AppStateView {
    pub connected_outputs: Seq<OutputView>,
    pub profiles: Seq<ProfileView>,
    pub current_profile: Option<ProfileView>,
    pub current_profile_name: Seq<char>,
    pub current_profile_read_only: bool,
    pub status: Seq<char>,
    pub settings: AppSettings,
    pub identify_enabled: bool,
    pub identify_overlay_pids: Seq<u32>,
    pub pending_confirmation: bool,
    pub previous_config_contents: Option<Seq<char>>,
    pub show_first_run_dialog: bool,
    pub drag_anchor_screen: Option<usize>,
    pub drag_snap_active: bool,
}

pub open spec fn opt_profile_view(o: Option<Profile>) -> Option<ProfileView> {
    match o {
        Some(p) => Some(p@),
        None => None,
    }
}

impl View for AppState {
    type V = AppStateView;

    open spec fn view(&self) -> AppStateView {
        AppStateView {
            connected_outputs: model::output_views(self.connected_outputs@),
            profiles: model::profile_views(self.profiles@),
            current_profile: opt_profile_view(self.current_profile),
            current_profile_name: self.current_profile_name@,
            current_profile_read_only: self.current_profile_read_only,
            status: self.status@,
            settings: self.settings,
            identify_enabled: self.identify_enabled,
            identify_overlay_pids: self.identify_overlay_pids@,
            pending_confirmation: self.pending_confirmation,
            previous_config_contents: model::opt_view(self.previous_config_contents),
            show_first_run_dialog: self.show_first_run_dialog,
            drag_anchor_screen: self.drag_anchor_screen,
            drag_snap_active: self.drag_snap_active,
        }
    }
}

/// The state before anything is loaded: everything empty, off or zero.
pub open spec fn empty_state() -> AppStateView {
    AppStateView {
        connected_outputs: Seq::empty(),
        profiles: Seq::empty(),
        current_profile: None,
        current_profile_name: Seq::empty(),
        current_profile_read_only: false,
        status: Seq::empty(),
        settings: AppSettings { snap_threshold_px: 0 },
        identify_enabled: false,
        identify_overlay_pids: Seq::empty(),
        pending_confirmation: false,
        previous_config_contents: None,
        show_first_run_dialog: false,
        drag_anchor_screen: None,
        drag_snap_active: false,
    }
}

/// The default snapping threshold, in pixels.
pub const DEFAULT_SNAP_THRESHOLD_PX: i32 = 100;

/// The state with a snapping threshold of `DEFAULT_SNAP_THRESHOLD_PX` where
/// the one set is not positive.
pub open spec fn with_default_settings(s: AppStateView) -> AppStateView {
    if s.settings.snap_threshold_px <= 0 {
        AppStateView { settings: AppSettings { snap_threshold_px: DEFAULT_SNAP_THRESHOLD_PX }, ..s }
    } else {
        s
    }
}

impl Default for AppState {
    fn default() -> (r: Self)
        ensures
            r@ == empty_state(),
    {
        let r = AppState {
            connected_outputs: Vec::new(),
            profiles: Vec::new(),
            current_profile: None,
            current_profile_name: String::new(),
            current_profile_read_only: false,
            status: String::new(),
            settings: AppSettings { snap_threshold_px: 0 },
            identify_enabled: false,
            identify_overlay_pids: Vec::new(),
            pending_confirmation: false,
            previous_config_contents: None,
            show_first_run_dialog: false,
            drag_anchor_screen: None,
            drag_snap_active: false,
        };
        assert(r@.connected_outputs =~= Seq::<OutputView>::empty());
        assert(r@.profiles =~= Seq::<ProfileView>::empty());
        r
    }
}

impl AppState {
    /// Gives the settings that are not set their default values.
    pub fn init_defaults(&mut self)
        ensures
            final(self)@ == with_default_settings(old(self)@),
    {
        if self.settings.snap_threshold_px <= 0 {
            self.settings.snap_threshold_px = DEFAULT_SNAP_THRESHOLD_PX;
        }
    }
}

/// The editor, with the path of the configuration file it manages.
#[derive(Debug)]
pub struct KanshiApp {
    pub state: AppState,
    pub config_path: String,
}

/// The mathematical content of a `KanshiApp`.
pub struct KanshiAppView {
    pub state: AppStateView,
    pub config_path: Seq<char>,
}

impl View for KanshiApp {
    type V = KanshiAppView;

    open spec fn view(&self) -> KanshiAppView {
        KanshiAppView { state: self.state@, config_path: self.config_path@ }
    }
}

// ---------------------------------------------------------------------
// Matching profiles against the connected outputs
// ---------------------------------------------------------------------
/// The index of the first profile at or after `i` whose screens are the
/// connected outputs.
pub open spec fn match_from(outs: Seq<OutputView>, ps: Seq<ProfileView>, i: int) -> Option<int>
    decreases ps.len() - i,
{
    if i < 0 || i >= ps.len() {
        None
    } else if matching::matches_hardware(outs, ps[i].screens) {
        Some(i)
    } else {
        match_from(outs, ps, i + 1)
    }
}

/// The first profile whose screens are the connected outputs.
pub open spec fn first_match(outs: Seq<OutputView>, ps: Seq<ProfileView>) -> Option<ProfileView> {
    match match_from(outs, ps, 0) {
        Some(i) => Some(ps[i]),
        None => None,
    }
}

pub proof fn lemma_match_from(outs: Seq<OutputView>, ps: Seq<ProfileView>, i: int)
    requires
        0 <= i,
    ensures
        match_from(outs, ps, i) matches Some(k) ==> i <= k < ps.len() && matching::matches_hardware(
            outs,
            ps[k].screens,
        ) && forall|j: int| i <= j < k ==> !matching::matches_hardware(outs, #[trigger] ps[j].screens),
        match_from(outs, ps, i) is None ==> forall|j: int|
            i <= j < ps.len() ==> !matching::matches_hardware(outs, #[trigger] ps[j].screens),
    decreases ps.len() - i,
{
    if 0 <= i < ps.len() && !matching::matches_hardware(outs, ps[i].screens) {
        lemma_match_from(outs, ps, i + 1);
    }
}

// ---------------------------------------------------------------------
// The profile made for outputs that no profile matches
// ---------------------------------------------------------------------
/// The default screens of the connected outputs, in order; an output
/// without a mode has none. Each is placed by its index among all outputs.
pub open spec fn default_screens(outs: Seq<OutputView>) -> Seq<ScreenView>
    decreases outs.len(),
{
    if outs.len() == 0 {
        Seq::empty()
    } else {
        let prev = default_screens(outs.drop_last());
        match sway::default_screen(outs.last(), (outs.len() - 1) as usize) {
            Some(s) => prev.push(s),
            None => prev,
        }
    }
}

/// Placing the outputs side by side, each at its index times the width of
/// its best mode, stays within the range of positions.
pub open spec fn layout_fits(outs: Seq<OutputView>) -> bool {
    forall|i: int|
        0 <= i < outs.len() ==> (model::best_mode_of(#[trigger] outs[i].available_modes) matches Some(
            m,
        ) ==> i32::MIN <= (i as usize as i32) * (m.width as i32) <= i32::MAX)
}

/// The profile named `name` with the default screens of the outputs.
pub open spec fn default_profile_of(outs: Seq<OutputView>, name: Seq<char>) -> ProfileView {
    ProfileView { name, screens: default_screens(outs), raw_range: None }
}

/// Whether the default screens of `outputs` can be placed side by side (see
/// `layout_fits`).
pub fn default_layout_fits(outputs: &Vec<RuntimeOutput>) -> (b: bool)
    ensures
        b == layout_fits(model::output_views(outputs@)),
{
    let ghost outs = model::output_views(outputs@);
    let mut i: usize = 0;
    while i < outputs.len()
        invariant
            i <= outputs@.len(),
            outs == model::output_views(outputs@),
            forall|j: int|
                0 <= j < i ==> (model::best_mode_of(#[trigger] outs[j].available_modes) matches Some(
                    m,
                ) ==> i32::MIN <= (j as usize as i32) * (m.width as i32) <= i32::MAX),
        decreases outputs.len() - i,
    {
        match model::best_mode(outputs[i].available_modes.as_slice()) {
            Some(m) => {
                let a: i64 = (#[verifier::truncate] (i as i32)) as i64;
                let b: i64 = (#[verifier::truncate] (m.width as i32)) as i64;
                assert(-0x8000_0000 * 0x8000_0000 <= a * b <= 0x8000_0000 * 0x8000_0000) by (nonlinear_arith)
                    requires
                        -0x8000_0000 <= a < 0x8000_0000,
                        -0x8000_0000 <= b < 0x8000_0000,
                ;
                let p: i64 = a * b;
                assert(outs[i as int].available_modes == outputs@[i as int].available_modes@);
                if p < i32::MIN as i64 || p > i32::MAX as i64 {
                    return false;
                }
            },
            None => {
                assert(outs[i as int].available_modes == outputs@[i as int].available_modes@);
            },
        }
        i = i + 1;
    }
    true
}


// ---------------------------------------------------------------------
// Naming the profile made for outputs that no profile matches
// ---------------------------------------------------------------------
/// The names of a list of profiles.
pub open spec fn profile_names(ps: Seq<ProfileView>) -> Seq<Seq<char>> {
    ps.map_values(|p: ProfileView| p.name)
}

/// The number of texts in `names` that are at least `n` characters long.
pub open spec fn count_at_least(names: Seq<Seq<char>>, n: int) -> nat
    decreases names.len(),
{
    if names.len() == 0 {
        0
    } else {
        count_at_least(names.drop_last(), n) + if names.last().len() >= n {
            1nat
        } else {
            0nat
        }
    }
}

pub proof fn lemma_count_at_least_mono(names: Seq<Seq<char>>, m: int, n: int)
    requires
        m <= n,
    ensures
        count_at_least(names, n) <= count_at_least(names, m),
    decreases names.len(),
{
    if names.len() > 0 {
        lemma_count_at_least_mono(names.drop_last(), m, n);
    }
}

/// Fewer texts of `names` are at least `n` long than are as long as `x`,
/// a text of `names` shorter than `n`.
pub proof fn lemma_count_at_least(names: Seq<Seq<char>>, x: Seq<char>, n: int)
    requires
        names.contains(x),
        x.len() < n,
    ensures
        count_at_least(names, n) < count_at_least(names, x.len() as int),
    decreases names.len(),
{
    let rest = names.drop_last();
    if rest.contains(x) {
        lemma_count_at_least(rest, x, n);
    } else {
        let k = choose|k: int| 0 <= k < names.len() && names[k] == x;
        if k < rest.len() {
            assert(rest[k] == x);
        }
        assert(names.last() == x);
        lemma_count_at_least_mono(rest, x.len() as int, n);
    }
}

/// `cand` made unique among `names`: while it is taken, ` (k)` is appended
/// to it, with `k` counting up from `idx + 1`.
pub open spec fn unique_name(names: Seq<Seq<char>>, cand: Seq<char>, idx: nat) -> Seq<char>
    decreases count_at_least(names, cand.len() as int),
{
    if names.contains(cand) {
        let next = cand + seq![' ', '('] + text::fmt_nat(idx + 1) + seq![')'];
        proof {
            lemma_count_at_least(names, cand, next.len() as int);
        }
        unique_name(names, next, idx + 1)
    } else {
        cand
    }
}

/// The display ids of the outputs, sorted, joined with `+`.
pub open spec fn auto_base(outs: Seq<OutputView>) -> Seq<char> {
    model::join(order::sort_seq(matching::output_ids(outs)), seq!['+'])
}

/// The name first tried for the profile made for `outs`: `Auto - ` and
/// their sorted display ids, or `Profile` when those give nothing.
pub open spec fn auto_name_candidate(outs: Seq<OutputView>) -> Seq<char> {
    if auto_base(outs).len() == 0 {
        "Profile"@
    } else {
        "Auto - "@ + auto_base(outs)
    }
}

/// Whether some profile is named `cand`.
pub fn name_taken(ps: &Vec<Profile>, cand: &Vec<char>) -> (b: bool)
    ensures
        b == profile_names(model::profile_views(ps@)).contains(cand@),
{
    let ghost names = profile_names(model::profile_views(ps@));
    let mut i: usize = 0;
    while i < ps.len()
        invariant
            i <= ps@.len() == names.len(),
            names == profile_names(model::profile_views(ps@)),
            forall|j: int| 0 <= j < i ==> names[j] != cand@,
        decreases ps.len() - i,
    {
        let n = text::chars_of(ps[i].name.as_str());
        assert(names[i as int] == ps@[i as int].name@);
        if text::chars_eq(&n, cand) {
            return true;
        }
        i = i + 1;
    }
    false
}

/// `cand` made unique among the names of `ps` (see `unique_name`).
pub fn unique_profile_name(ps: &Vec<Profile>, cand: Vec<char>) -> (r: Vec<char>)
    ensures
        r@ == unique_name(profile_names(model::profile_views(ps@)), cand@, 1),
{
    let ghost names = profile_names(model::profile_views(ps@));
    let mut c = cand;
    let mut idx: u128 = 1;
    let n: usize = ps.len();
    proof {
        lemma_count_at_least_mono(names, 0, c@.len() as int);
        lemma_count_at_least_len(names, 0);
    }
    while name_taken(ps, &c)
        invariant
            names == profile_names(model::profile_views(ps@)),
            names.len() == ps@.len() == n,
            1 <= idx,
            unique_name(names, cand@, 1) == unique_name(names, c@, idx as nat),
            (idx - 1) + count_at_least(names, c@.len() as int) <= names.len(),
        decreases count_at_least(names, c@.len() as int),
    {
        let ghost prev = c@;
        proof {
            lemma_count_at_least(names, prev, prev.len() as int + 1);
        }
        idx = idx + 1;
        c.push(' ');
        c.push('(');
        text::push_nat128(&mut c, idx);
        c.push(')');
        assert(c@ =~= prev + seq![' ', '('] + text::fmt_nat(idx as nat) + seq![')']);
        proof {
            lemma_count_at_least(names, prev, c@.len() as int);
        }
    }
    c
}

proof fn lemma_count_at_least_len(names: Seq<Seq<char>>, n: int)
    ensures
        count_at_least(names, n) <= names.len(),
    decreases names.len(),
{
    if names.len() > 0 {
        lemma_count_at_least_len(names.drop_last(), n);
    }
}


// ---------------------------------------------------------------------
// Refreshing
// ---------------------------------------------------------------------
/// The profiles a read of the configuration gave: none when it failed.
pub open spec fn loaded_profiles(loaded: Result<(String, Vec<Profile>), String>) -> Seq<ProfileView> {
    match loaded {
        Ok((_, ps)) => model::profile_views(ps@),
        Err(_) => Seq::empty(),
    }
}

/// Refreshing with these results needs no position outside the range of
/// positions: when no profile matches the outputs, they can be placed side
/// by side.
pub open spec fn refresh_fits(
    outputs: Result<Vec<RuntimeOutput>, String>,
    loaded: Result<(String, Vec<Profile>), String>,
) -> bool {
    match outputs {
        Err(_) => true,
        Ok(outs) => first_match(model::output_views(outs@), loaded_profiles(loaded)) is None
            ==> layout_fits(model::output_views(outs@)),
    }
}

/// The state after a refresh, given what asking the compositor for its
/// outputs (`outputs`) and reading the configuration (`loaded`: its text and
/// profiles) gave. When the outputs cannot be had, only the status changes.
/// Otherwise the outputs and profiles are replaced (no profiles when the
/// configuration cannot be read, which the status says until it is
/// overwritten at the end); a blank configuration asks for the first-run
/// dialog. The editor gets the first profile whose screens are the outputs;
/// when there is none, a new profile with their default screens, under a
/// name that no profile has, is added and loaded.
pub open spec fn refreshed(
    s: AppStateView,
    outputs: Result<Vec<RuntimeOutput>, String>,
    loaded: Result<(String, Vec<Profile>), String>,
) -> AppStateView {
    match outputs {
        Err(e) => AppStateView { status: "Failed to scan sway outputs: "@ + e@, ..s },
        Ok(o) => {
            let outs = model::output_views(o@);
            let s1 = match loaded {
                Ok((raw, ps)) => AppStateView {
                    connected_outputs: outs,
                    profiles: model::profile_views(ps@),
                    show_first_run_dialog: s.show_first_run_dialog || text::trim(raw@).len() == 0,
                    ..s
                },
                Err(e) => AppStateView {
                    connected_outputs: outs,
                    profiles: Seq::empty(),
                    status: "Failed to load kanshi config: "@ + e@,
                    ..s
                },
            };
            let s2 = match first_match(outs, s1.profiles) {
                Some(p) => AppStateView {
                    current_profile: Some(p),
                    current_profile_name: p.name,
                    current_profile_read_only: false,
                    ..s1
                },
                None => {
                    let name = unique_name(profile_names(s1.profiles), auto_name_candidate(outs), 1);
                    let g = default_profile_of(outs, name);
                    AppStateView {
                        profiles: s1.profiles.push(g),
                        current_profile: Some(g),
                        current_profile_name: name,
                        current_profile_read_only: false,
                        ..s1
                    }
                },
            };
            AppStateView { status: "Loaded current outputs and profiles"@, ..s2 }
        },
    }
}


/// The index of the first profile of `ps` whose screens are the outputs
/// `outputs` (see `match_from`).
pub fn first_match_index(outputs: &Vec<RuntimeOutput>, ps: &Vec<Profile>) -> (r: Option<usize>)
    ensures
        r matches Some(k) ==> k < ps@.len(),
        match_from(model::output_views(outputs@), model::profile_views(ps@), 0) == match r {
            Some(k) => Some(k as int),
            None => None::<int>,
        },
{
    let ghost outs = model::output_views(outputs@);
    let ghost pv = model::profile_views(ps@);
    let mut i: usize = 0;
    while i < ps.len()
        invariant
            i <= pv.len() == ps@.len(),
            outs == model::output_views(outputs@),
            pv == model::profile_views(ps@),
            match_from(outs, pv, 0) == match_from(outs, pv, i as int),
        decreases ps.len() - i,
    {
        assert(pv[i as int] == ps@[i as int]@);
        if matching::screens_match_outputs(outputs, ps[i].screens.as_slice()) {
            return Some(i);
        }
        i = i + 1;
    }
    None
}

/// Whether refreshing with the outputs `outputs` and the profiles
/// `profiles` read from the configuration stays within the range of
/// positions (see `refresh_fits`).
pub fn can_refresh_with(outputs: &Vec<RuntimeOutput>, profiles: &Vec<Profile>) -> (b: bool)
    ensures
        b == (first_match(model::output_views(outputs@), model::profile_views(profiles@)) is None
            ==> layout_fits(model::output_views(outputs@))),
{
    match first_match_index(outputs, profiles) {
        Some(_) => true,
        None => default_layout_fits(outputs),
    }
}


// ---------------------------------------------------------------------
// Saving and applying
// ---------------------------------------------------------------------
/// The profile in the editor as it is saved, its name trimmed; or the
/// status that says why it cannot be: it is read-only, there is none, or
/// its name is blank.
pub open spec fn save_request(s: AppStateView) -> Result<ProfileView, Seq<char>> {
    if s.current_profile_read_only {
        Err("Profile is read-only because it does not match current hardware"@)
    } else {
        match s.current_profile {
            None => Err("No profile in editor"@),
            Some(p) => if text::trim(s.current_profile_name).len() == 0 {
                Err("Please provide a profile name"@)
            } else {
                Ok(ProfileView { name: text::trim(s.current_profile_name), ..p })
            },
        }
    }
}

/// The index of the first profile at or after `i` named `name`; the length
/// when there is none.
pub open spec fn named_pos(ps: Seq<ProfileView>, name: Seq<char>, i: int) -> int
    decreases ps.len() - i,
{
    if i < 0 || i >= ps.len() {
        ps.len() as int
    } else if ps[i].name == name {
        i
    } else {
        named_pos(ps, name, i + 1)
    }
}

pub proof fn lemma_named_pos(ps: Seq<ProfileView>, name: Seq<char>, i: int)
    requires
        0 <= i <= ps.len(),
    ensures
        i <= named_pos(ps, name, i) <= ps.len(),
        named_pos(ps, name, i) < ps.len() ==> ps[named_pos(ps, name, i)].name == name,
        forall|j: int| i <= j < named_pos(ps, name, i) ==> (#[trigger] ps[j]).name != name,
    decreases ps.len() - i,
{
    if i < ps.len() && ps[i].name != name {
        lemma_named_pos(ps, name, i + 1);
    }
}

/// `ps` with `p` in place of the first profile of the same name, or with
/// `p` added at the end when there is none.
pub open spec fn put_named(ps: Seq<ProfileView>, p: ProfileView) -> Seq<ProfileView> {
    let k = named_pos(ps, p.name, 0);
    if k < ps.len() {
        ps.update(k, p)
    } else {
        ps.push(p)
    }
}

/// What came of writing a profile into the configuration.
pub enum SaveOutcome {
    /// Writing failed, for the reason given.
    Failed(String),
    /// It was written over the text `previous` (absent when the file could
    /// not be read), and restarting kanshi afterwards gave `restarted`.
    Written { previous: Option<String>, restarted: Result<(), String> },
}

/// The state after the profile `saved` was written, or was not (see
/// `SaveOutcome`). When it was, the previous text is kept for a rejection,
/// the change awaits confirmation, the profile replaces the one of the same
/// name (or is added) and is loaded into the editor.
pub open spec fn saved_state(s: AppStateView, saved: ProfileView, outcome: SaveOutcome) -> AppStateView {
    match outcome {
        SaveOutcome::Failed(e) => AppStateView { status: "Save failed: "@ + e@, ..s },
        SaveOutcome::Written { previous, restarted } => AppStateView {
            previous_config_contents: model::opt_view(previous),
            pending_confirmation: true,
            status: match restarted {
                Ok(_) => "Applied profile '"@ + text::trim(s.current_profile_name)
                    + "' and restarted kanshi (confirming...)"@,
                Err(e) => "Saved profile '"@ + saved.name + "' but failed to restart kanshi: "@
                    + e@ + " (confirming...)"@,
            },
            profiles: put_named(s.profiles, saved),
            current_profile: Some(saved),
            ..s
        },
    }
}

/// The state after applying: the profile `saved` was written over the text
/// `previous` (as by `saved_state`), then kanshi was restarted once, which
/// gave `restarted`; the change awaits confirmation either way.
pub open spec fn applied_state(
    s: AppStateView,
    saved: ProfileView,
    previous: Option<String>,
    restarted: Result<(), String>,
) -> AppStateView {
    AppStateView {
        previous_config_contents: model::opt_view(previous),
        pending_confirmation: true,
        status: match restarted {
            Ok(_) => "Applied profile '"@ + text::trim(s.current_profile_name)
                + "' and restarted kanshi (confirming...)"@,
            Err(e) => "Profile saved but failed to restart kanshi: "@ + e@,
        },
        profiles: put_named(s.profiles, saved),
        current_profile: Some(saved),
        ..s
    }
}

/// The state once the user confirmed the applied profile.
pub open spec fn confirmed_state(s: AppStateView) -> AppStateView {
    AppStateView {
        pending_confirmation: false,
        previous_config_contents: None,
        status: "Profile '"@ + text::trim(s.current_profile_name) + "' confirmed"@,
        ..s
    }
}

/// The state after the previous configuration was written back (`restored`
/// is what writing it gave), on a rejection by the user or when the time to
/// confirm ran out (`timed_out`).
pub open spec fn restored_state(s: AppStateView, restored: Result<(), String>, timed_out: bool) -> AppStateView {
    AppStateView {
        status: match restored {
            Err(e) => "Failed to restore previous config: "@ + e@,
            Ok(_) => if timed_out {
                "Confirmation timeout — previous configuration restored"@
            } else {
                "Previous configuration restored"@
            },
        },
        ..s
    }
}

// ---------------------------------------------------------------------
// Identification overlays
// ---------------------------------------------------------------------
/// The state after the identification overlays were started, `pids` being
/// the processes that could be started.
pub open spec fn identify_started_state(s: AppStateView, pids: Seq<u32>) -> AppStateView {
    AppStateView {
        identify_overlay_pids: pids,
        status: if pids.len() == 0 {
            "Failed to spawn identify overlays"@
        } else {
            "Screen identification overlays enabled ("@ + text::fmt_nat(pids.len()) + " windows)"@
        },
        ..s
    }
}

/// The state after the identification overlays were stopped.
pub open spec fn identify_stopped_state(s: AppStateView) -> AppStateView {
    AppStateView {
        identify_overlay_pids: Seq::empty(),
        status: "Screen identification overlays disabled"@,
        ..s
    }
}


/// The index of the first profile named `name`; the length when there is
/// none (see `named_pos`).
pub fn named_index(ps: &Vec<Profile>, name: &String) -> (k: usize)
    ensures
        k == named_pos(model::profile_views(ps@), name@, 0),
{
    let ghost pv = model::profile_views(ps@);
    let mut i: usize = 0;
    while i < ps.len()
        invariant
            i <= pv.len() == ps@.len(),
            pv == model::profile_views(ps@),
            named_pos(pv, name@, 0) == named_pos(pv, name@, i as int),
        decreases ps.len() - i,
    {
        assert(pv[i as int] == ps@[i as int]@);
        if ps[i].name == *name {
            return i;
        }
        i = i + 1;
    }
    i
}


// ---------------------------------------------------------------------
// Aligning a profile at the origin
// ---------------------------------------------------------------------
/// The position of a screen along the x axis (`x_axis`) or the y axis.
pub open spec fn pos_on(s: ScreenView, x_axis: bool) -> int {
    if x_axis {
        s.pos_x as int
    } else {
        s.pos_y as int
    }
}

/// The least position along an axis of the enabled screens; `None` when no
/// screen is enabled.
pub open spec fn min_enabled(screens: Seq<ScreenView>, x_axis: bool) -> Option<int>
    decreases screens.len(),
{
    if screens.len() == 0 {
        None
    } else {
        let rest = min_enabled(screens.drop_last(), x_axis);
        let v = pos_on(screens.last(), x_axis);
        if !screens.last().enabled {
            rest
        } else {
            match rest {
                None => Some(v),
                Some(m) => Some(if v < m {
                    v
                } else {
                    m
                }),
            }
        }
    }
}

/// How far the screens are moved back along an axis to align them: the
/// least position of the enabled screens, or nothing when none is enabled.
pub open spec fn align_offset(screens: Seq<ScreenView>, x_axis: bool) -> int {
    match min_enabled(screens, x_axis) {
        Some(m) => m,
        None => 0,
    }
}

/// The screens moved back by `dx` along x and `dy` along y.
pub open spec fn shifted(screens: Seq<ScreenView>, dx: int, dy: int) -> Seq<ScreenView> {
    Seq::new(
        screens.len(),
        |i: int|
            ScreenView {
                pos_x: (screens[i].pos_x - dx) as i32,
                pos_y: (screens[i].pos_y - dy) as i32,
                ..screens[i]
            },
    )
}

/// The screens moved so that the least positions of the enabled ones are
/// both zero; all screens move alike, so the layout is kept.
pub open spec fn aligned(screens: Seq<ScreenView>) -> Seq<ScreenView> {
    shifted(screens, align_offset(screens, true), align_offset(screens, false))
}

/// Moving the screens back by `dx` and `dy` stays within the range of
/// positions.
pub open spec fn shift_fits(screens: Seq<ScreenView>, dx: int, dy: int) -> bool {
    forall|i: int|
        0 <= i < screens.len() ==> i32::MIN <= (#[trigger] screens[i]).pos_x - dx <= i32::MAX
            && i32::MIN <= screens[i].pos_y - dy <= i32::MAX
}

/// Aligning the screens stays within the range of positions.
pub open spec fn align_fits(screens: Seq<ScreenView>) -> bool {
    shift_fits(screens, align_offset(screens, true), align_offset(screens, false))
}

/// Moving the screens moves the least position of the enabled ones alike.
proof fn lemma_min_enabled_shifted(screens: Seq<ScreenView>, dx: int, dy: int, x_axis: bool)
    requires
        shift_fits(screens, dx, dy),
    ensures
        min_enabled(shifted(screens, dx, dy), x_axis) == match min_enabled(screens, x_axis) {
            Some(m) => Some(
                m - if x_axis {
                    dx
                } else {
                    dy
                },
            ),
            None => None,
        },
    decreases screens.len(),
{
    if screens.len() > 0 {
        let rest = screens.drop_last();
        assert(shifted(screens, dx, dy).drop_last() =~= shifted(rest, dx, dy));
        assert(shift_fits(rest, dx, dy)) by {
            assert forall|i: int| 0 <= i < rest.len() implies i32::MIN <= (#[trigger] rest[i]).pos_x
                - dx <= i32::MAX && i32::MIN <= rest[i].pos_y - dy <= i32::MAX by {
                assert(rest[i] == screens[i]);
            }
        }
        lemma_min_enabled_shifted(rest, dx, dy, x_axis);
        assert(screens.last() == screens[screens.len() - 1]);
    }
}

/// Aligning moves every screen alike: the distance between any two screens
/// is kept, along both axes.
pub proof fn lemma_align_keeps_layout(screens: Seq<ScreenView>, i: int, j: int)
    requires
        align_fits(screens),
        0 <= i < screens.len(),
        0 <= j < screens.len(),
    ensures
        aligned(screens).len() == screens.len(),
        aligned(screens)[i].pos_x - aligned(screens)[j].pos_x == screens[i].pos_x - screens[j].pos_x,
        aligned(screens)[i].pos_y - aligned(screens)[j].pos_y == screens[i].pos_y - screens[j].pos_y,
{
    assert(i32::MIN <= screens[i].pos_x - align_offset(screens, true) <= i32::MAX);
    assert(i32::MIN <= screens[j].pos_x - align_offset(screens, true) <= i32::MAX);
}

/// After aligning, the least position of the enabled screens is zero along
/// each axis (when a screen is enabled), and aligning again changes
/// nothing.
pub proof fn lemma_align_idempotent(screens: Seq<ScreenView>)
    requires
        align_fits(screens),
    ensures
        min_enabled(screens, true) is Some ==> min_enabled(aligned(screens), true) == Some(0int),
        min_enabled(screens, false) is Some ==> min_enabled(aligned(screens), false) == Some(0int),
        align_fits(aligned(screens)),
        aligned(aligned(screens)) == aligned(screens),
{
    let dx = align_offset(screens, true);
    let dy = align_offset(screens, false);
    lemma_min_enabled_shifted(screens, dx, dy, true);
    lemma_min_enabled_shifted(screens, dx, dy, false);
    let a = aligned(screens);
    assert(align_offset(a, true) == 0);
    assert(align_offset(a, false) == 0);
    assert forall|i: int| 0 <= i < a.len() implies i32::MIN <= (#[trigger] a[i]).pos_x - 0
        <= i32::MAX && i32::MIN <= a[i].pos_y - 0 <= i32::MAX by {}
    assert(shifted(a, 0, 0) =~= a);
}

/// The least position of the enabled screens is the position of one of
/// them and no enabled screen lies before it; there is none exactly when no
/// screen is enabled.
pub proof fn lemma_min_enabled(screens: Seq<ScreenView>, x_axis: bool)
    ensures
        min_enabled(screens, x_axis) is None <==> forall|i: int|
            0 <= i < screens.len() ==> !(#[trigger] screens[i]).enabled,
        min_enabled(screens, x_axis) matches Some(m) ==> {
            &&& forall|i: int|
                0 <= i < screens.len() && (#[trigger] screens[i]).enabled ==> m <= pos_on(
                    screens[i],
                    x_axis,
                )
            &&& exists|i: int|
                0 <= i < screens.len() && (#[trigger] screens[i]).enabled && pos_on(screens[i], x_axis)
                    == m
        },
    decreases screens.len(),
{
    if screens.len() > 0 {
        let rest = screens.drop_last();
        lemma_min_enabled(rest, x_axis);
        let last = screens.len() - 1;
        assert(screens.last() == screens[last]);
        assert forall|i: int| 0 <= i < rest.len() implies #[trigger] rest[i] == screens[i] by {}
        match min_enabled(rest, x_axis) {
            Some(m) => {
                let k = choose|k: int|
                    0 <= k < rest.len() && (#[trigger] rest[k]).enabled && pos_on(rest[k], x_axis) == m;
                assert(screens[k] == rest[k]);
            },
            None => {},
        }
        if min_enabled(screens, x_axis) is None {
            assert forall|i: int| 0 <= i < screens.len() implies !(#[trigger] screens[i]).enabled by {
                if i < rest.len() {
                    assert(rest[i] == screens[i]);
                }
            }
        } else {
            let m = min_enabled(screens, x_axis)->0;
            assert forall|i: int|
                0 <= i < screens.len() && (#[trigger] screens[i]).enabled implies m <= pos_on(
                    screens[i],
                    x_axis,
                ) by {
                if i < rest.len() {
                    assert(rest[i] == screens[i]);
                }
            }
            if screens[last].enabled && pos_on(screens[last], x_axis) == m {
                assert(screens[last].enabled && pos_on(screens[last], x_axis) == m);
            } else {
                let k = choose|k: int|
                    0 <= k < rest.len() && (#[trigger] rest[k]).enabled && pos_on(rest[k], x_axis) == m;
                assert(screens[k] == rest[k]);
            }
        }
    }
}

/// Aligning a profile puts its enabled screens against both axes: no
/// enabled screen lies left of x = 0 or above y = 0, one touches x = 0 and
/// one touches y = 0 (when a screen is enabled).
pub proof fn lemma_align_to_origin(screens: Seq<ScreenView>)
    requires
        align_fits(screens),
        exists|k: int| 0 <= k < screens.len() && (#[trigger] screens[k]).enabled,
    ensures
        forall|i: int|
            0 <= i < screens.len() && (#[trigger] aligned(screens)[i]).enabled ==> aligned(
                screens,
            )[i].pos_x >= 0 && aligned(screens)[i].pos_y >= 0,
        exists|i: int|
            0 <= i < screens.len() && (#[trigger] aligned(screens)[i]).enabled && aligned(
                screens,
            )[i].pos_x == 0,
        exists|i: int|
            0 <= i < screens.len() && (#[trigger] aligned(screens)[i]).enabled && aligned(
                screens,
            )[i].pos_y == 0,
{
    let k = choose|k: int| 0 <= k < screens.len() && (#[trigger] screens[k]).enabled;
    lemma_min_enabled(screens, true);
    lemma_min_enabled(screens, false);
    assert(min_enabled(screens, true) is Some);
    assert(min_enabled(screens, false) is Some);
    lemma_align_idempotent(screens);
    let a = aligned(screens);
    assert(a.len() == screens.len());
    lemma_min_enabled(a, true);
    lemma_min_enabled(a, false);
}

/// The least position along an axis of the enabled screens (see
/// `min_enabled`).
fn min_enabled_exec(screens: &Vec<ScreenConfig>, x_axis: bool) -> (r: Option<i32>)
    ensures
        match r {
            Some(v) => min_enabled(model::screen_views(screens@), x_axis) == Some(v as int),
            None => min_enabled(model::screen_views(screens@), x_axis) is None,
        },
{
    let ghost sv = model::screen_views(screens@);
    let mut m: Option<i32> = None;
    for i in 0..screens.len()
        invariant
            sv == model::screen_views(screens@),
            match m {
                Some(v) => min_enabled(sv.take(i as int), x_axis) == Some(v as int),
                None => min_enabled(sv.take(i as int), x_axis) is None,
            },
    {
        assert(sv.take(i + 1).drop_last() =~= sv.take(i as int));
        assert(sv.take(i + 1).last() == screens@[i as int]@);
        let s = &screens[i];
        if s.enabled {
            let v = if x_axis {
                s.pos_x
            } else {
                s.pos_y
            };
            m = match m {
                None => Some(v),
                Some(cur) => Some(
                    if v < cur {
                        v
                    } else {
                        cur
                    },
                ),
            };
        }
    }
    assert(sv.take(screens@.len() as int) =~= sv);
    m
}

/// Moves all screens of `profile` so that the least positions of its
/// enabled screens are zero (see `aligned`).
pub fn align_profile_positions(profile: &mut Profile)
    requires
        align_fits(old(profile)@.screens),
    ensures
        final(profile)@ == (ProfileView { screens: aligned(old(profile)@.screens), ..old(profile)@ }),
{
    let ghost sv = old(profile)@.screens;
    let min_x: i32 = match min_enabled_exec(&profile.screens, true) {
        Some(v) => v,
        None => 0,
    };
    let min_y: i32 = match min_enabled_exec(&profile.screens, false) {
        Some(v) => v,
        None => 0,
    };
    let mut out: Vec<ScreenConfig> = Vec::new();
    for i in 0..profile.screens.len()
        invariant
            sv == model::screen_views(profile.screens@),
            min_x == align_offset(sv, true),
            min_y == align_offset(sv, false),
            shift_fits(sv, min_x as int, min_y as int),
            model::screen_views(out@) == aligned(sv).take(i as int),
    {
        let mut c = profile.screens[i].clone();
        assert(sv[i as int] == profile.screens@[i as int]@);
        c.pos_x = c.pos_x - min_x;
        c.pos_y = c.pos_y - min_y;
        let ghost before = model::screen_views(out@);
        out.push(c);
        assert(model::screen_views(out@) =~= before.push(c@));
        assert(aligned(sv).take(i + 1) =~= aligned(sv).take(i as int).push(aligned(sv)[i as int]));
        assert(model::screen_views(out@) =~= aligned(sv).take(i + 1));
    }
    assert(aligned(sv).take(sv.len() as int) =~= aligned(sv));
    profile.screens = out;
}

impl KanshiApp {
    /// An editor on the configuration file `config_path`, with nothing
    /// loaded and the default settings.
    pub fn new(config_path: String) -> (r: Self)
        ensures
            r@ == (KanshiAppView {
                state: with_default_settings(empty_state()),
                config_path: config_path@,
            }),
    {
        let mut state = AppState::default();
        state.init_defaults();
        KanshiApp { state, config_path }
    }

    /// Whether the screens of `profile` are the connected outputs (see
    /// `matching::matches_hardware`).
    pub fn profile_matches_current_hardware(&self, profile: &Profile) -> (r: bool)
        ensures
            r == matching::matches_hardware(self.state@.connected_outputs, profile@.screens),
    {
        matching::screens_match_outputs(&self.state.connected_outputs, profile.screens.as_slice())
    }

    /// The first profile whose screens are the connected outputs.
    pub fn find_matching_profile(&self) -> (r: Option<Profile>)
        ensures
            opt_profile_view(r) == first_match(self.state@.connected_outputs, self.state@.profiles),
    {
        match first_match_index(&self.state.connected_outputs, &self.state.profiles) {
            Some(k) => Some(self.state.profiles[k].clone()),
            None => None,
        }
    }

    /// The profile named `name` with the default screens of the connected
    /// outputs.
    pub fn default_profile(&self, name: String) -> (p: Profile)
        requires
            layout_fits(self.state@.connected_outputs),
        ensures
            p@ == default_profile_of(self.state@.connected_outputs, name@),
    {
        let ghost outs = self.state@.connected_outputs;
        let mut screens: Vec<ScreenConfig> = Vec::new();
        let mut i: usize = 0;
        while i < self.state.connected_outputs.len()
            invariant
                i <= outs.len() == self.state.connected_outputs@.len(),
                outs == self.state@.connected_outputs,
                layout_fits(outs),
                model::screen_views(screens@) == default_screens(outs.take(i as int)),
            decreases self.state.connected_outputs.len() - i,
        {
            let ghost before = model::screen_views(screens@);
            let output = &self.state.connected_outputs[i];
            assert(outs[i as int] == output@);
            assert(outs.take(i + 1).drop_last() =~= outs.take(i as int));
            assert(outs.take(i + 1).last() == output@);
            match sway::default_screen_from_runtime(output, i) {
                Some(screen) => {
                    screens.push(screen);
                    assert(model::screen_views(screens@) =~= before.push(screens@.last()@));
                },
                None => {},
            }
            i = i + 1;
        }
        assert(outs.take(outs.len() as int) =~= outs);
        Profile { name, screens, raw_range: None }
    }


    /// The name first tried for a profile made for the connected outputs
    /// (see `auto_name_candidate`).
    pub fn auto_name_candidate(&self) -> (r: Vec<char>)
        ensures
            r@ == auto_name_candidate(self.state@.connected_outputs),
    {
        let ids = matching::output_id_list(&self.state.connected_outputs);
        let sorted = order::sorted_texts(&ids);
        let mut base: Vec<char> = Vec::new();
        let plus: Vec<char> = vec!['+'];
        assert(plus@ =~= seq!['+']);
        model::push_joined(&mut base, &sorted, &plus);
        assert(base@ =~= auto_base(self.state@.connected_outputs));
        let mut r: Vec<char> = Vec::new();
        if base.len() == 0 {
            text::push_str(&mut r, "Profile");
        } else {
            text::push_str(&mut r, "Auto - ");
            text::push_chars(&mut r, &base);
        }
        r
    }

    /// Refreshes the editor with what asking the compositor for its outputs
    /// and reading the configuration gave (see `refreshed`).
    pub fn refresh_all(
        &mut self,
        outputs: Result<Vec<RuntimeOutput>, String>,
        loaded: Result<(String, Vec<Profile>), String>,
    )
        requires
            refresh_fits(outputs, loaded),
        ensures
            final(self)@ == (KanshiAppView {
                state: refreshed(old(self).state@, outputs, loaded),
                config_path: old(self).config_path@,
            }),
    {
        let ghost outputs0 = outputs;
        let ghost loaded0 = loaded;
        match outputs {
            Err(e) => {
                let mut msg: Vec<char> = Vec::new();
                text::push_str(&mut msg, "Failed to scan sway outputs: ");
                text::push_str(&mut msg, e.as_str());
                self.state.status = text::string_of(&msg);
                return;
            },
            Ok(outs) => {
                self.state.connected_outputs = outs;
            },
        }
        match loaded {
            Ok((raw, profiles)) => {
                self.state.profiles = profiles;
                let t = text::trimmed(&text::chars_of(raw.as_str()));
                if t.len() == 0 {
                    self.state.show_first_run_dialog = true;
                }
            },
            Err(e) => {
                let mut msg: Vec<char> = Vec::new();
                text::push_str(&mut msg, "Failed to load kanshi config: ");
                text::push_str(&mut msg, e.as_str());
                self.state.status = text::string_of(&msg);
                self.state.profiles = Vec::new();
                assert(self.state@.profiles =~= Seq::<ProfileView>::empty());
            },
        }
        let ghost s1 = self.state@;
        assert(s1.profiles == loaded_profiles(loaded0));
        match self.find_matching_profile() {
            Some(p) => {
                self.state.current_profile_name = p.name.clone();
                self.state.current_profile = Some(p);
                self.state.current_profile_read_only = false;
            },
            None => {
                let cand = self.auto_name_candidate();
                let name_chars = unique_profile_name(&self.state.profiles, cand);
                let name = text::string_of(&name_chars);
                let generated = self.default_profile(name.clone());
                let copy = generated.clone();
                let ghost before = self.state.profiles@;
                self.state.profiles.push(copy);
                assert(model::profile_views(self.state.profiles@) =~= model::profile_views(before).push(
                    generated@,
                ));
                self.state.current_profile = Some(generated);
                self.state.current_profile_name = name;
                self.state.current_profile_read_only = false;
            },
        }
        self.state.status = String::from_str("Loaded current outputs and profiles");
    }


    /// The profile in the editor as it is to be saved (see `save_request`);
    /// `None`, with the status saying why, when it cannot be.
    pub fn profile_to_save(&mut self) -> (r: Option<Profile>)
        ensures
            match save_request(old(self).state@) {
                Ok(p) => r matches Some(q) && q@ == p && final(self)@ == old(self)@,
                Err(msg) => r is None && final(self)@ == (KanshiAppView {
                    state: AppStateView { status: msg, ..old(self).state@ },
                    config_path: old(self).config_path@,
                }),
            },
    {
        if self.state.current_profile_read_only {
            self.state.status = String::from_str(
                "Profile is read-only because it does not match current hardware",
            );
            return None;
        }
        let mut profile = match &self.state.current_profile {
            Some(p) => p.clone(),
            None => {
                self.state.status = String::from_str("No profile in editor");
                return None;
            },
        };
        let name = text::trimmed(&text::chars_of(self.state.current_profile_name.as_str()));
        if name.len() == 0 {
            self.state.status = String::from_str("Please provide a profile name");
            return None;
        }
        profile.name = text::string_of(&name);
        Some(profile)
    }

    /// Records what came of writing the profile `saved` (see `saved_state`).
    pub fn save_current_profile(&mut self, saved: Profile, outcome: SaveOutcome)
        ensures
            final(self)@ == (KanshiAppView {
                state: saved_state(old(self).state@, saved@, outcome),
                config_path: old(self).config_path@,
            }),
    {
        match outcome {
            SaveOutcome::Failed(e) => {
                let mut msg: Vec<char> = Vec::new();
                text::push_str(&mut msg, "Save failed: ");
                text::push_str(&mut msg, e.as_str());
                self.state.status = text::string_of(&msg);
            },
            SaveOutcome::Written { previous, restarted } => {
                self.state.previous_config_contents = previous;
                self.state.pending_confirmation = true;
                let mut msg: Vec<char> = Vec::new();
                match restarted {
                    Ok(()) => {
                        let name = text::trimmed(
                            &text::chars_of(self.state.current_profile_name.as_str()),
                        );
                        text::push_str(&mut msg, "Applied profile '");
                        text::push_chars(&mut msg, &name);
                        text::push_str(&mut msg, "' and restarted kanshi (confirming...)");
                    },
                    Err(e) => {
                        text::push_str(&mut msg, "Saved profile '");
                        text::push_str(&mut msg, saved.name.as_str());
                        text::push_str(&mut msg, "' but failed to restart kanshi: ");
                        text::push_str(&mut msg, e.as_str());
                        text::push_str(&mut msg, " (confirming...)");
                    },
                }
                self.state.status = text::string_of(&msg);
                let ghost ps = self.state@.profiles;
                let k = named_index(&self.state.profiles, &saved.name);
                proof {
                    lemma_named_pos(ps, saved@.name, 0);
                }
                if k < self.state.profiles.len() {
                    self.state.profiles.set(k, saved.clone());
                    assert(self.state@.profiles =~= ps.update(k as int, saved@));
                } else {
                    self.state.profiles.push(saved.clone());
                    assert(self.state@.profiles =~= ps.push(saved@));
                }
                self.state.current_profile = Some(saved);
            },
        }
    }

    /// Records an apply: the profile `saved` (from `profile_to_save`) was
    /// written over `previous`, and kanshi was then restarted once (see
    /// `applied_state`). Where the profile could not be written, nothing is
    /// restarted and `save_current_profile` records the failure instead.
    pub fn apply_current_profile(
        &mut self,
        saved: Profile,
        previous: Option<String>,
        restarted: Result<(), String>,
    )
        ensures
            final(self)@ == (KanshiAppView {
                state: applied_state(old(self).state@, saved@, previous, restarted),
                config_path: old(self).config_path@,
            }),
    {
        let mut msg: Vec<char> = Vec::new();
        match restarted {
            Ok(()) => {
                let name = text::trimmed(&text::chars_of(self.state.current_profile_name.as_str()));
                text::push_str(&mut msg, "Applied profile '");
                text::push_chars(&mut msg, &name);
                text::push_str(&mut msg, "' and restarted kanshi (confirming...)");
            },
            Err(e) => {
                text::push_str(&mut msg, "Profile saved but failed to restart kanshi: ");
                text::push_str(&mut msg, e.as_str());
            },
        }
        self.state.status = text::string_of(&msg);
        self.state.previous_config_contents = previous;
        self.state.pending_confirmation = true;
        let ghost ps = self.state@.profiles;
        let k = named_index(&self.state.profiles, &saved.name);
        proof {
            lemma_named_pos(ps, saved@.name, 0);
        }
        if k < self.state.profiles.len() {
            self.state.profiles.set(k, saved.clone());
            assert(self.state@.profiles =~= ps.update(k as int, saved@));
        } else {
            self.state.profiles.push(saved.clone());
            assert(self.state@.profiles =~= ps.push(saved@));
        }
        self.state.current_profile = Some(saved);
    }

    /// The user confirmed the applied profile (see `confirmed_state`).
    pub fn confirm_changes(&mut self)
        ensures
            final(self)@ == (KanshiAppView {
                state: confirmed_state(old(self).state@),
                config_path: old(self).config_path@,
            }),
    {
        self.state.pending_confirmation = false;
        self.state.previous_config_contents = None;
        let name = text::trimmed(&text::chars_of(self.state.current_profile_name.as_str()));
        let mut msg: Vec<char> = Vec::new();
        text::push_str(&mut msg, "Profile '");
        text::push_chars(&mut msg, &name);
        text::push_str(&mut msg, "' confirmed");
        self.state.status = text::string_of(&msg);
    }

    /// The user rejected the applied profile, or the time to confirm ran
    /// out: the confirmation ends, and the previous configuration text, when
    /// one was kept, is handed out to be written back.
    pub fn reject_changes(&mut self) -> (previous: Option<String>)
        ensures
            model::opt_view(previous) == old(self).state@.previous_config_contents,
            final(self)@ == (KanshiAppView {
                state: AppStateView {
                    pending_confirmation: false,
                    previous_config_contents: None,
                    ..old(self).state@
                },
                config_path: old(self).config_path@,
            }),
    {
        self.state.pending_confirmation = false;
        let previous = self.state.previous_config_contents.take();
        previous
    }

    /// Records what writing the previous configuration back gave (see
    /// `restored_state`).
    pub fn restore_finished(&mut self, restored: Result<(), String>, timed_out: bool)
        ensures
            final(self)@ == (KanshiAppView {
                state: restored_state(old(self).state@, restored, timed_out),
                config_path: old(self).config_path@,
            }),
    {
        match restored {
            Err(e) => {
                let mut msg: Vec<char> = Vec::new();
                text::push_str(&mut msg, "Failed to restore previous config: ");
                text::push_str(&mut msg, e.as_str());
                self.state.status = text::string_of(&msg);
            },
            Ok(()) => {
                if timed_out {
                    self.state.status = String::from_str(
                        "Confirmation timeout — previous configuration restored",
                    );
                } else {
                    self.state.status = String::from_str("Previous configuration restored");
                }
            },
        }
    }

    /// Switches the identification overlays on or off; returns whether they
    /// are now on (and are to be started) or off (and are to be stopped).
    pub fn identify_screens(&mut self) -> (on: bool)
        ensures
            on == !old(self).state.identify_enabled,
            final(self)@ == (KanshiAppView {
                state: AppStateView { identify_enabled: on, ..old(self).state@ },
                config_path: old(self).config_path@,
            }),
    {
        self.state.identify_enabled = !self.state.identify_enabled;
        self.state.identify_enabled
    }

    /// Records the processes of the identification overlays that were
    /// started (see `identify_started_state`).
    pub fn identify_started(&mut self, pids: Vec<u32>)
        ensures
            final(self)@ == (KanshiAppView {
                state: identify_started_state(old(self).state@, pids@),
                config_path: old(self).config_path@,
            }),
    {
        let n = pids.len();
        if n == 0 {
            self.state.status = String::from_str("Failed to spawn identify overlays");
        } else {
            let mut msg: Vec<char> = Vec::new();
            text::push_str(&mut msg, "Screen identification overlays enabled (");
            text::push_nat(&mut msg, n as u64);
            text::push_str(&mut msg, " windows)");
            self.state.status = text::string_of(&msg);
        }
        self.state.identify_overlay_pids = pids;
    }

    /// Records that the identification overlays were stopped (see
    /// `identify_stopped_state`).
    pub fn identify_stopped(&mut self)
        ensures
            final(self)@ == (KanshiAppView {
                state: identify_stopped_state(old(self).state@),
                config_path: old(self).config_path@,
            }),
    {
        self.state.identify_overlay_pids = Vec::new();
        self.state.status = String::from_str("Screen identification overlays disabled");
    }


    /// Aligns the profile in the editor at the origin (see
    /// `align_profile_positions`); an error when no profile is loaded.
    pub fn align_current_profile(&mut self) -> (r: Result<(), &'static str>)
        requires
            old(self).state@.current_profile matches Some(p) ==> align_fits(p.screens),
        ensures
            match old(self).state@.current_profile {
                Some(p) => r is Ok && final(self)@ == (KanshiAppView {
                    state: AppStateView {
                        current_profile: Some(ProfileView { screens: aligned(p.screens), ..p }),
                        ..old(self).state@
                    },
                    config_path: old(self).config_path@,
                }),
                None => r matches Err(msg) && msg@ == "No profile loaded"@ && final(self)@ == old(
                    self,
                )@,
            },
    {
        match self.state.current_profile.take() {
            Some(mut profile) => {
                align_profile_positions(&mut profile);
                self.state.current_profile = Some(profile);
                Ok(())
            },
            None => Err("No profile loaded"),
        }
    }


    /// Records that the user service of kanshi could not be set up, for the
    /// reason `err`.
    pub fn note_service_failure(&mut self, err: &str)
        ensures
            final(self)@ == (KanshiAppView {
                state: AppStateView {
                    status: "Failed to ensure kanshi user service: "@ + err@,
                    ..old(self).state@
                },
                config_path: old(self).config_path@,
            }),
    {
        let mut msg: Vec<char> = Vec::new();
        text::push_str(&mut msg, "Failed to ensure kanshi user service: ");
        text::push_str(&mut msg, err);
        self.state.status = text::string_of(&msg);
    }

    /// Loads the first profile named `profile_name` into the editor, read-only
    /// when its screens are not the connected outputs; nothing happens when
    /// there is none.
    pub fn load_profile_into_editor(&mut self, profile_name: &str)
        ensures
            final(self)@ == (KanshiAppView {
                state: loaded_into_editor(old(self).state@, profile_name@),
                config_path: old(self).config_path@,
            }),
    {
        let name = String::from_str(profile_name);
        match generate::first_named_index(&self.state.profiles, &name) {
            Some(k) => {
                let profile = self.state.profiles[k].clone();
                let read_only = !self.profile_matches_current_hardware(&profile);
                let mut msg: Vec<char> = Vec::new();
                text::push_str(&mut msg, "Loaded profile '");
                text::push_str(&mut msg, profile_name);
                if read_only {
                    text::push_str(&mut msg, "' as read-only (hardware mismatch)");
                } else {
                    text::push_str(&mut msg, "' in editor");
                }
                self.state.current_profile_name = profile.name.clone();
                self.state.current_profile = Some(profile);
                self.state.current_profile_read_only = read_only;
                self.state.status = text::string_of(&msg);
            },
            None => {},
        }
    }
}

/// The state after loading the first profile named `name` into the editor
/// (see `KanshiApp::load_profile_into_editor`).
pub open spec fn loaded_into_editor(s: AppStateView, name: Seq<char>) -> AppStateView {
    match generate::first_named(s.profiles, name) {
        None => s,
        Some(p) => {
            let read_only = !matching::matches_hardware(s.connected_outputs, p.screens);
            AppStateView {
                current_profile_name: p.name,
                current_profile: Some(p),
                current_profile_read_only: read_only,
                status: if read_only {
                    "Loaded profile '"@ + name + "' as read-only (hardware mismatch)"@
                } else {
                    "Loaded profile '"@ + name + "' in editor"@
                },
                ..s
            }
        },
    }
}

/// Whether the time to confirm an applied profile has run out: `now` has
/// reached the deadline (both counted in nanoseconds from one starting
/// point); with no deadline set, it has.
pub fn confirmation_timed_out(now_ns: u128, deadline_ns: Option<u128>) -> (out: bool)
    ensures
        out == match deadline_ns {
            Some(d) => now_ns >= d,
            None => true,
        },
{
    match deadline_ns {
        Some(d) => now_ns >= d,
        None => true,
    }
}

} // verus!
