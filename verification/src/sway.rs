//! From what the compositor reports to the display model: which outputs are
//! kept, how their modes and names are read, and the screen settings a
//! connected output starts with.

use vstd::prelude::*;

use crate::model::{self, OutputMode, OutputView, RuntimeOutput, ScreenConfig, ScreenView};
use crate::text;

verus! {

/// A name as the compositor reports it: trimmed, and absent when blank.
pub open spec fn non_empty_spec(v: Seq<char>) -> Option<Seq<char>> {
    if text::trim(v).len() == 0 {
        None
    } else {
        Some(text::trim(v))
    }
}

/// A reported name, trimmed; `None` when it is blank.
pub fn non_empty(value: String) -> (r: Option<String>)
    ensures
        model::opt_view(r) == non_empty_spec(value@),
{
    let t = text::trimmed(&text::chars_of(value.as_str()));
    if t.len() == 0 {
        None
    } else {
        Some(text::string_of(&t))
    }
}

/// A mode as the compositor reports it (dimensions in pixels, refresh rate
/// in millihertz).
pub open spec fn sway_mode(width: i32, height: i32, refresh: i32) -> OutputMode {
    OutputMode { width: width as u32, height: height as u32, refresh_mhz: refresh as i64 }
}

pub fn sway_mode_to_mode(width: i32, height: i32, refresh: i32) -> (m: OutputMode)
    ensures
        m == sway_mode(width, height, refresh),
{
    OutputMode { width: width as u32, height: height as u32, refresh_mhz: refresh as i64 }
}

/// What the compositor reports of an output.
pub struct SwayOutput {
    pub name: String,
    pub make: String,
    pub model: String,
    pub serial: String,
    pub active: bool,
    /// the scale in thousandths, when reported
    pub scale_milli: Option<i64>,
    /// `(width, height, refresh in millihertz)` of each mode
    pub modes: Vec<(i32, i32, i32)>,
    pub rect: (i32, i32, i32, i32),
}

pub open spec fn sway_modes(modes: Seq<(i32, i32, i32)>) -> Seq<OutputMode> {
    modes.map_values(|m: (i32, i32, i32)| sway_mode(m.0, m.1, m.2))
}

/// The runtime output an active reported output gives: its names trimmed
/// (blank ones absent), its modes converted, a scale of one when none is
/// reported. Inactive outputs give none.
pub open spec fn runtime_output_of(o: SwayOutput) -> Option<OutputView> {
    if !o.active {
        None
    } else {
        Some(
            OutputView {
                connector_name: o.name@,
                make: non_empty_spec(o.make@),
                model: non_empty_spec(o.model@),
                serial: non_empty_spec(o.serial@),
                active: true,
                current_scale_milli: match o.scale_milli {
                    Some(v) => v,
                    None => 1000,
                },
                available_modes: sway_modes(o.modes@),
                layout_x: o.rect.0,
                layout_y: o.rect.1,
                layout_width: o.rect.2,
                layout_height: o.rect.3,
            },
        )
    }
}

/// The runtime output an output reported by the compositor gives (see
/// `runtime_output_of`).
pub fn runtime_output_from(o: SwayOutput) -> (r: Option<RuntimeOutput>)
    ensures
        match r {
            Some(x) => runtime_output_of(o) == Some(x@),
            None => runtime_output_of(o) is None,
        },
{
    if !o.active {
        return None;
    }
    let ghost orig = o;
    let mut modes: Vec<OutputMode> = Vec::new();
    for i in 0..o.modes.len()
        invariant
            modes@ == sway_modes(o.modes@).take(i as int),
    {
        let (w, h, r) = o.modes[i];
        modes.push(sway_mode_to_mode(w, h, r));
        assert(modes@ =~= sway_modes(o.modes@).take(i + 1));
    }
    assert(sway_modes(o.modes@).take(o.modes@.len() as int) =~= sway_modes(o.modes@));
    let SwayOutput { name, make, model, serial, active, scale_milli, modes: _, rect } = o;
    Some(
        RuntimeOutput {
            connector_name: name,
            make: non_empty(make),
            model: non_empty(model),
            serial: non_empty(serial),
            active,
            current_scale_milli: match scale_milli {
                Some(v) => v,
                None => 1000,
            },
            available_modes: modes,
            layout_x: rect.0,
            layout_y: rect.1,
            layout_width: rect.2,
            layout_height: rect.3,
        },
    )
}

/// The screen settings a connected output starts with: its display id, its
/// best mode, enabled, scale one, placed at `index` times the mode's width
/// along the x axis. None when the output has no mode.
pub open spec fn default_screen(o: OutputView, index: usize) -> Option<ScreenView> {
    match model::best_mode_of(o.available_modes) {
        None => None,
        Some(m) => Some(
            ScreenView {
                id: model::display_id_of(o.make, o.model, o.serial, o.connector_name),
                connector_name: o.connector_name,
                enabled: true,
                selected_mode: m,
                available_modes: o.available_modes,
                scale_milli: 1000,
                pos_x: ((index as i32) * (m.width as i32)) as i32,
                pos_y: 0,
                mirror: false,
                mirror_target: None,
            },
        ),
    }
}

/// The default screen settings of an output (see `default_screen`).
pub fn default_screen_from_runtime(output: &RuntimeOutput, index: usize) -> (r: Option<ScreenConfig>)
    requires
        model::best_mode_of(output@.available_modes) matches Some(m) ==> i32::MIN <= (index as i32)
            * (m.width as i32) <= i32::MAX,
    ensures
        match r {
            Some(c) => default_screen(output@, index) == Some(c@),
            None => default_screen(output@, index) is None,
        },
{
    let mode = match model::best_mode(output.available_modes.as_slice()) {
        Some(m) => m,
        None => return None,
    };
    Some(
        ScreenConfig {
            id: output.display_id(),
            connector_name: output.connector_name.clone(),
            enabled: true,
            selected_mode: mode,
            available_modes: model::copy_modes(&output.available_modes),
            scale_milli: 1000,
            pos_x: (index as i32) * (mode.width as i32),
            pos_y: 0,
            mirror: false,
            mirror_target: None,
        },
    )
}

} // verus!
