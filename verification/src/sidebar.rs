//! The rules behind the screen cards and the canvas of the editor: which
//! screens a screen can mirror, where a screen goes when it stops mirroring,
//! which modes and connector a card shows, and which screens the canvas
//! draws.

use vstd::prelude::*;

use crate::model::{self, OutputMode, OutputView, RuntimeOutput, ScreenConfig, ScreenView};
use crate::overlay;

verus! {

// ---------------------------------------------------------------------
// Mirroring
// ---------------------------------------------------------------------
/// A screen that others can mirror: enabled and not mirroring itself.
pub open spec fn mirrorable(o: ScreenView) -> bool {
    o.enabled && !o.mirror
}

/// The ids of the screens that screen `me` can mirror: those after
/// position `i`, in order, that can be mirrored and have another id.
pub open spec fn candidates_from(screens: Seq<ScreenView>, me: Seq<char>, i: int) -> Seq<Seq<char>>
    decreases screens.len() - i,
{
    if i < 0 || i >= screens.len() {
        Seq::empty()
    } else {
        let rest = candidates_from(screens, me, i + 1);
        if mirrorable(screens[i]) && screens[i].id != me {
            seq![screens[i].id] + rest
        } else {
            rest
        }
    }
}

/// The ids, in order, of the screens that the screen at `idx` can mirror.
pub open spec fn mirror_candidates_of(screens: Seq<ScreenView>, idx: int) -> Seq<Seq<char>> {
    candidates_from(screens, screens[idx].id, 0)
}

/// The ids of the screens that the screen at `idx` can mirror (see
/// `mirror_candidates_of`).
pub fn mirror_candidates(screens: &[ScreenConfig], idx: usize) -> (r: Vec<String>)
    requires
        idx < screens@.len(),
    ensures
        overlay::string_views(r@) == mirror_candidates_of(model::screen_views(screens@), idx as int),
{
    let ghost sv = model::screen_views(screens@);
    let me = &screens[idx].id;
    let mut r: Vec<String> = Vec::new();
    let mut i: usize = screens.len();
    assert(candidates_from(sv, me@, i as int) =~= Seq::<Seq<char>>::empty());
    while i > 0
        invariant
            i <= screens@.len(),
            sv == model::screen_views(screens@),
            me@ == sv[idx as int].id,
            overlay::string_views(r@) == candidates_from(sv, me@, i as int),
        decreases i,
    {
        i = i - 1;
        let s = &screens[i];
        assert(sv[i as int] == s@);
        if s.enabled && !s.mirror && !(s.id == *me) {
            let ghost before = overlay::string_views(r@);
            r.insert(0, s.id.clone());
            assert(overlay::string_views(r@) =~= seq![s.id@] + before);
        }
    }
    r
}

/// The mirror target kept for a screen: its current one when that is still
/// one of `candidates`, none otherwise.
pub open spec fn kept_target(target: Option<Seq<char>>, candidates: Seq<Seq<char>>) -> Option<
    Seq<char>,
> {
    match target {
        Some(t) => if candidates.contains(t) {
            Some(t)
        } else {
            None
        },
        None => None,
    }
}

/// The mirror target kept for a screen (see `kept_target`).
pub fn keep_valid_target(target: Option<String>, candidates: &Vec<String>) -> (r: Option<String>)
    ensures
        model::opt_view(r) == kept_target(model::opt_view(target), overlay::string_views(candidates@)),
{
    let ghost tv = model::opt_view(target);
    match target {
        Some(t) => {
            assert(tv == Some(t@));
            let ghost cv = overlay::string_views(candidates@);
            let mut i: usize = 0;
            while i < candidates.len()
                invariant
                    i <= candidates@.len(),
                    cv == overlay::string_views(candidates@),
                    tv == Some(t@),
                    tv == model::opt_view(target),
                    forall|j: int| 0 <= j < i ==> cv[j] != t@,
                decreases candidates.len() - i,
            {
                assert(cv[i as int] == candidates@[i as int]@);
                if candidates[i] == t {
                    assert(cv[i as int] == t@);
                    assert(cv.contains(t@));
                    return Some(t);
                }
                i = i + 1;
            }
            None
        },
        None => None,
    }
}

// ---------------------------------------------------------------------
// Where a screen goes when it stops mirroring
// ---------------------------------------------------------------------
/// The right and bottom edges of a screen at its position with its mode,
/// its width and height taken as `i32`.
pub open spec fn right_of(x: i32, m: OutputMode) -> int {
    x + (m.width as i32)
}

pub open spec fn bottom_of(y: i32, m: OutputMode) -> int {
    y + (m.height as i32)
}

/// Over the snapshot of the screens as they were before the cards were
/// drawn, skipping screen `s` itself (by id) and the mirroring ones:
/// whether one of them overlaps `s`, the rightmost right edge among them and
/// `s`, and whether all edges computed stay within the range of positions.
pub open spec fn unmirror_scan(snap: Seq<ScreenView>, s: ScreenView) -> (bool, int, bool)
    decreases snap.len(),
{
    if snap.len() == 0 {
        let r = right_of(s.pos_x, s.selected_mode);
        let b = bottom_of(s.pos_y, s.selected_mode);
        (false, r, i32::MIN <= r <= i32::MAX && i32::MIN <= b <= i32::MAX)
    } else {
        let (ov, mr, fits) = unmirror_scan(snap.drop_last(), s);
        let o = snap.last();
        if o.id == s.id || o.mirror {
            (ov, mr, fits)
        } else {
            let ol = o.pos_x as int;
            let ot = o.pos_y as int;
            let or = right_of(o.pos_x, o.selected_mode);
            let ob = bottom_of(o.pos_y, o.selected_mode);
            let l = s.pos_x as int;
            let t = s.pos_y as int;
            let r = right_of(s.pos_x, s.selected_mode);
            let b = bottom_of(s.pos_y, s.selected_mode);
            let overlaps = !(r <= ol || l >= or || b <= ot || t >= ob);
            (
                ov || overlaps,
                if or > mr {
                    or
                } else {
                    mr
                },
                fits && i32::MIN <= or <= i32::MAX && i32::MIN <= ob <= i32::MAX,
            )
        }
    }
}

/// The gap left between a screen that stops mirroring and the rightmost
/// screen it would overlap, in pixels.
pub const UNMIRROR_PADDING: i32 = 40;

/// The x position of screen `s` once it stops mirroring: unchanged, or,
/// when it overlaps another visible screen, past the rightmost right edge
/// with a gap of `UNMIRROR_PADDING`.
pub open spec fn unmirrored_x(snap: Seq<ScreenView>, s: ScreenView) -> int {
    let (ov, mr, _) = unmirror_scan(snap, s);
    if ov {
        mr + UNMIRROR_PADDING
    } else {
        s.pos_x as int
    }
}

/// All positions computed for `unmirrored_x` stay within the range of
/// positions.
pub open spec fn unmirror_fits(snap: Seq<ScreenView>, s: ScreenView) -> bool {
    let (ov, mr, fits) = unmirror_scan(snap, s);
    fits && (ov ==> mr + UNMIRROR_PADDING <= i32::MAX)
}

/// The x position of `screen` once it stops mirroring (see
/// `unmirrored_x`); `None` when a position computed would leave the range
/// of positions (see `unmirror_fits`).
pub fn unmirrored_pos_x(snapshot: &[ScreenConfig], screen: &ScreenConfig) -> (r: Option<i32>)
    ensures
        match r {
            Some(x) => unmirror_fits(model::screen_views(snapshot@), screen@) && x as int
                == unmirrored_x(model::screen_views(snapshot@), screen@),
            None => !unmirror_fits(model::screen_views(snapshot@), screen@),
        },
{
    let ghost sv = model::screen_views(snapshot@);
    let ghost s = screen@;
    let left = screen.pos_x as i64;
    let top = screen.pos_y as i64;
    let right = left + (#[verifier::truncate] (screen.selected_mode.width as i32)) as i64;
    let bottom = top + (#[verifier::truncate] (screen.selected_mode.height as i32)) as i64;
    let mut fits = i32::MIN as i64 <= right && right <= i32::MAX as i64 && i32::MIN as i64 <= bottom
        && bottom <= i32::MAX as i64;
    let mut overlaps = false;
    let mut max_right = right;
    assert(sv.take(0) =~= Seq::<ScreenView>::empty());
    for k in 0..snapshot.len()
        invariant
            sv == model::screen_views(snapshot@),
            s == screen@,
            left == s.pos_x,
            top == s.pos_y,
            right == right_of(s.pos_x, s.selected_mode),
            bottom == bottom_of(s.pos_y, s.selected_mode),
            unmirror_scan(sv.take(k as int), s) == (overlaps, max_right as int, fits),
            -0x1_0000_0000 <= max_right <= 0x1_0000_0000,
            right <= max_right,
            fits ==> i32::MIN <= right <= i32::MAX,
    {
        assert(sv.take(k + 1).drop_last() =~= sv.take(k as int));
        assert(sv.take(k + 1).last() == snapshot@[k as int]@);
        let o = &snapshot[k];
        if !(o.id == screen.id) && !o.mirror {
            let oleft = o.pos_x as i64;
            let otop = o.pos_y as i64;
            let oright = oleft + (#[verifier::truncate] (o.selected_mode.width as i32)) as i64;
            let obottom = otop + (#[verifier::truncate] (o.selected_mode.height as i32)) as i64;
            if !(right <= oleft || left >= oright || bottom <= otop || top >= obottom) {
                overlaps = true;
            }
            if oright > max_right {
                max_right = oright;
            }
            fits = fits && i32::MIN as i64 <= oright && oright <= i32::MAX as i64 && i32::MIN as i64
                <= obottom && obottom <= i32::MAX as i64;
        }
    }
    assert(sv.take(snapshot@.len() as int) =~= sv);
    if !fits {
        return None;
    }
    if overlaps {
        if max_right + 40 > i32::MAX as i64 {
            return None;
        }
        Some((max_right + 40) as i32)
    } else {
        Some(screen.pos_x)
    }
}

// ---------------------------------------------------------------------
// What a card shows
// ---------------------------------------------------------------------
/// The last output whose display id or connector name is `key`.
pub open spec fn last_keyed(outs: Seq<OutputView>, key: Seq<char>) -> Option<OutputView>
    decreases outs.len(),
{
    if outs.len() == 0 {
        None
    } else {
        let o = outs.last();
        if model::display_id_of(o.make, o.model, o.serial, o.connector_name) == key
            || o.connector_name == key {
            Some(o)
        } else {
            last_keyed(outs.drop_last(), key)
        }
    }
}

/// The modes a card offers for a screen: those of the output keyed by the
/// screen's connector name, else of the one keyed by its id, else its own.
pub open spec fn card_modes_of(outs: Seq<OutputView>, s: ScreenView) -> Seq<OutputMode> {
    match last_keyed(outs, s.connector_name) {
        Some(o) => o.available_modes,
        None => match last_keyed(outs, s.id) {
            Some(o) => o.available_modes,
            None => s.available_modes,
        },
    }
}

/// The connector a card names for a screen: its own when it differs from
/// its id, else that of the output keyed by its id, else its own.
pub open spec fn card_connector_of(outs: Seq<OutputView>, s: ScreenView) -> Seq<char> {
    if s.connector_name != s.id {
        s.connector_name
    } else {
        match last_keyed(outs, s.id) {
            Some(o) => o.connector_name,
            None => s.connector_name,
        }
    }
}

/// The index of the last output keyed by `key` (see `last_keyed`).
fn last_keyed_index(outputs: &Vec<RuntimeOutput>, key: &String) -> (r: Option<usize>)
    ensures
        match r {
            Some(k) => k < outputs@.len() && last_keyed(model::output_views(outputs@), key@) == Some(
                outputs@[k as int]@,
            ),
            None => last_keyed(model::output_views(outputs@), key@) is None,
        },
{
    let ghost ov = model::output_views(outputs@);
    let mut i: usize = outputs.len();
    assert(ov.take(i as int) =~= ov);
    while i > 0
        invariant
            i <= outputs@.len(),
            ov == model::output_views(outputs@),
            last_keyed(ov, key@) == last_keyed(ov.take(i as int), key@),
        decreases i,
    {
        let o = &outputs[i - 1];
        assert(ov.take(i as int).last() == o@);
        assert(ov.take(i as int).drop_last() =~= ov.take(i - 1));
        if o.display_id() == *key || o.connector_name == *key {
            return Some(i - 1);
        }
        i = i - 1;
    }
    assert(ov.take(0) =~= Seq::<OutputView>::empty());
    None
}

/// The modes a card offers for `screen` (see `card_modes_of`).
pub fn card_modes(outputs: &Vec<RuntimeOutput>, screen: &ScreenConfig) -> (r: Vec<OutputMode>)
    ensures
        r@ == card_modes_of(model::output_views(outputs@), screen@),
{
    proof {
        assert(model::output_views(outputs@) =~= model::output_views(outputs@).take(
            outputs@.len() as int,
        ));
    }
    match last_keyed_index(outputs, &screen.connector_name) {
        Some(k) => model::copy_modes(&outputs[k].available_modes),
        None => match last_keyed_index(outputs, &screen.id) {
            Some(k) => model::copy_modes(&outputs[k].available_modes),
            None => model::copy_modes(&screen.available_modes),
        },
    }
}

/// The connector a card names for `screen` (see `card_connector_of`).
pub fn card_connector(outputs: &Vec<RuntimeOutput>, screen: &ScreenConfig) -> (r: String)
    ensures
        r@ == card_connector_of(model::output_views(outputs@), screen@),
{
    if !(screen.connector_name == screen.id) {
        screen.connector_name.clone()
    } else {
        match last_keyed_index(outputs, &screen.id) {
            Some(k) => outputs[k].connector_name.clone(),
            None => screen.connector_name.clone(),
        }
    }
}

// ---------------------------------------------------------------------
// What the canvas draws
// ---------------------------------------------------------------------
/// The canvas draws the enabled screens that do not mirror another.
pub open spec fn drawn(s: ScreenView) -> bool {
    s.enabled && !s.mirror
}

/// The indices, in order, of the screens the canvas draws (see `drawn`).
pub fn visible_screens(screens: &[ScreenConfig]) -> (r: Vec<usize>)
    ensures
        forall|k: int| 0 <= k < r@.len() ==> (#[trigger] r@[k]) < screens@.len() && drawn(
            screens@[r@[k] as int]@,
        ),
        forall|k: int, l: int| 0 <= k < l < r@.len() ==> r@[k] < r@[l],
        forall|i: int| 0 <= i < screens@.len() && drawn(#[trigger] screens@[i]@) ==> r@.contains(i as usize),
{
    let mut r: Vec<usize> = Vec::new();
    for i in 0..screens.len()
        invariant
            forall|k: int| 0 <= k < r@.len() ==> (#[trigger] r@[k]) < i && drawn(screens@[r@[k] as int]@),
            forall|k: int, l: int| 0 <= k < l < r@.len() ==> r@[k] < r@[l],
            forall|j: int| 0 <= j < i && drawn(#[trigger] screens@[j]@) ==> r@.contains(j as usize),
    {
        if screens[i].enabled && !screens[i].mirror {
            let ghost before = r@;
            r.push(i);
            assert forall|j: int| 0 <= j < i + 1 && drawn(#[trigger] screens@[j]@) implies r@.contains(
                j as usize,
            ) by {
                if j < i {
                    let k = choose|k: int| 0 <= k < before.len() && before[k] == j as usize;
                    assert(r@[k] == j as usize);
                } else {
                    assert(r@[before.len() as int] == i);
                }
            }
        }
    }
    r
}

/// Sets the screen a screen mirrors, as chosen on its card: it mirrors
/// exactly when a target is chosen. Returns whether it stopped mirroring,
/// in which case the card moves it out of the way (see `unmirrored_pos_x`).
pub fn choose_mirror_target(screen: &mut ScreenConfig, target: Option<String>) -> (stopped: bool)
    ensures
        final(screen)@ == (ScreenView {
            mirror: target is Some,
            mirror_target: model::opt_view(target),
            ..old(screen)@
        }),
        stopped == (old(screen)@.mirror && target is None),
{
    let was = screen.mirror;
    let now = target.is_some();
    screen.mirror_target = target;
    screen.mirror = now;
    was && !now
}

/// A candidate id names another screen, from position `i` on, that can be
/// mirrored.
pub proof fn lemma_candidate(screens: Seq<ScreenView>, me: Seq<char>, i: int, t: Seq<char>)
    requires
        0 <= i,
        candidates_from(screens, me, i).contains(t),
    ensures
        t != me,
        exists|j: int| i <= j < screens.len() && (#[trigger] screens[j]).id == t && mirrorable(screens[j]),
    decreases screens.len() - i,
{
    if i < screens.len() {
        let rest = candidates_from(screens, me, i + 1);
        if mirrorable(screens[i]) && screens[i].id != me {
            let k = choose|k: int| 0 <= k < candidates_from(screens, me, i).len() && candidates_from(
                screens,
                me,
                i,
            )[k] == t;
            if k == 0 {
                assert(screens[i].id == t);
            } else {
                assert(rest[k - 1] == t);
                lemma_candidate(screens, me, i + 1, t);
            }
        } else {
            lemma_candidate(screens, me, i + 1, t);
        }
    }
}

/// The mirroring the cards leave on a screen: the target picked on its
/// card, kept when it is one of the candidates of the screens as they were
/// when the cards were drawn (`snapshot`).
pub open spec fn settled(snapshot: Seq<ScreenView>, i: int, sc: ScreenView, pick: Option<Seq<char>>) -> ScreenView {
    let t = kept_target(pick, mirror_candidates_of(snapshot, i));
    ScreenView { mirror: t is Some, mirror_target: t, ..sc }
}

/// Sets the mirroring of every screen from the target picked on its card
/// (see `settled`); returns the positions of the screens that stopped
/// mirroring, which the cards then move out of the way (see
/// `unmirrored_pos_x`). Afterwards each screen mirrors exactly when it has a
/// target, and a target is the id of another screen that was enabled and
/// not mirroring when the cards were drawn.
pub fn settle_mirrors(
    screens: &mut Vec<ScreenConfig>,
    snapshot: &[ScreenConfig],
    picks: Vec<Option<String>>,
) -> (stopped: Vec<usize>)
    requires
        old(screens)@.len() == snapshot@.len(),
        picks@.len() == snapshot@.len(),
    ensures
        final(screens)@.len() == old(screens)@.len(),
        forall|i: int|
            0 <= i < final(screens)@.len() ==> (#[trigger] final(screens)@[i])@ == settled(
                model::screen_views(snapshot@),
                i,
                old(screens)@[i]@,
                model::opt_view(picks@[i]),
            ),
        forall|i: int|
            0 <= i < final(screens)@.len() ==> (#[trigger] final(screens)@[i]).mirror
                == final(screens)@[i].mirror_target is Some,
        forall|i: int|
            0 <= i < final(screens)@.len() ==> ((#[trigger] final(screens)@[i]).mirror_target matches Some(t)
                ==> t@ != snapshot@[i].id@ && exists|j: int|
                0 <= j < snapshot@.len() && (#[trigger] snapshot@[j]).id@ == t@ && snapshot@[j].enabled
                    && !snapshot@[j].mirror),
        forall|k: int|
            0 <= k < stopped@.len() ==> (#[trigger] stopped@[k]) < old(screens)@.len()
                && old(screens)@[stopped@[k] as int].mirror
                && final(screens)@[stopped@[k] as int].mirror_target is None,
{
    let ghost sv = model::screen_views(snapshot@);
    let ghost before = screens@;
    let mut stopped: Vec<usize> = Vec::new();
    let n = screens.len();
    let mut i: usize = 0;
    while i < n
        invariant
            n == screens@.len() == before.len() == snapshot@.len() == picks@.len(),
            i <= n,
            sv == model::screen_views(snapshot@),
            forall|j: int| i <= j < n ==> screens@[j] == before[j],
            forall|j: int|
                0 <= j < i ==> (#[trigger] screens@[j])@ == settled(
                    sv,
                    j,
                    before[j]@,
                    model::opt_view(picks@[j]),
                ),
            forall|k: int|
                0 <= k < stopped@.len() ==> (#[trigger] stopped@[k]) < i && before[stopped@[k] as int].mirror
                    && screens@[stopped@[k] as int].mirror_target is None,
        decreases n - i,
    {
        let cands = mirror_candidates(snapshot, i);
        let pick = match &picks[i] {
            Some(p) => Some(p.clone()),
            None => None,
        };
        assert(model::opt_view(pick) == model::opt_view(picks@[i as int]));
        let t = keep_valid_target(pick, &cands);
        let mut sc = screens[i].clone();
        let gone = choose_mirror_target(&mut sc, t);
        screens.set(i, sc);
        if gone {
            stopped.push(i);
        }
        i = i + 1;
    }
    proof {
        assert forall|j: int| 0 <= j < screens@.len() implies ((#[trigger] screens@[j]).mirror_target matches Some(t)
                ==> t@ != snapshot@[j].id@ && exists|m: int|
                0 <= m < snapshot@.len() && (#[trigger] snapshot@[m]).id@ == t@ && snapshot@[m].enabled
                    && !snapshot@[m].mirror) by {
            if let Some(t) = screens@[j].mirror_target {
                let kt = kept_target(model::opt_view(picks@[j]), mirror_candidates_of(sv, j));
                assert(screens@[j]@ == settled(sv, j, before[j]@, model::opt_view(picks@[j])));
                assert(model::opt_view(screens@[j].mirror_target) == kt);
                assert(kt == Some(t@));
                assert(sv[j] == snapshot@[j]@);
                lemma_candidate(sv, sv[j].id, 0, t@);
                let m = choose|m: int| 0 <= m < sv.len() && (#[trigger] sv[m]).id == t@ && mirrorable(sv[m]);
                assert(sv[m] == snapshot@[m]@);
            }
        }
        assert forall|j: int| 0 <= j < screens@.len() implies (#[trigger] screens@[j]).mirror
            == screens@[j].mirror_target is Some by {
            assert(screens@[j]@ == settled(sv, j, before[j]@, model::opt_view(picks@[j])));
        }
    }
    stopped
}

} // verus!
