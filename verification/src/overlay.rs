//! Screen identification overlays: the payload an overlay window shows, the
//! command line it is started with and read from, and which outputs get one.

use vstd::prelude::*;

use crate::model::{self, OutputView, RuntimeOutput};
use crate::text;

verus! {

/// What an identification overlay shows.
#[derive(Debug)]
pub struct OverlayPayload {
    pub connector: String,
    pub display_name: String,
    pub scale: String,
    pub mode: String,
}

/// The identification overlay window.
#[derive(Debug)]
pub struct IdentifyOverlayApp {
    pub payload: OverlayPayload,
}

impl IdentifyOverlayApp {
    pub fn new(payload: OverlayPayload) -> (r: Self)
        ensures
            r.payload == payload,
    {
        IdentifyOverlayApp { payload }
    }
}

/// The index of the first argument at or after `i` that equals `key` and
/// has an argument after it.
pub open spec fn key_index(args: Seq<Seq<char>>, key: Seq<char>, i: int) -> Option<int>
    decreases args.len() - i,
{
    if !(0 <= i && i + 1 < args.len()) {
        None
    } else if args[i] == key {
        Some(i)
    } else {
        key_index(args, key, i + 1)
    }
}

pub open spec fn string_views(v: Seq<String>) -> Seq<Seq<char>> {
    v.map_values(|s: String| s@)
}

/// The argument that follows the first occurrence of `key` (when one
/// follows it).
pub fn arg_value(args: &[String], key: &str) -> (r: Option<String>)
    ensures
        match key_index(string_views(args@), key@, 0) {
            Some(i) => r matches Some(v) && v@ == args@[i + 1]@,
            None => r is None,
        },
{
    let ghost av = string_views(args@);
    let kv = text::chars_of(key);
    let mut i: usize = 0;
    while i < args.len()
        invariant
            av == string_views(args@),
            kv@ == key@,
            i <= args@.len(),
            key_index(av, key@, 0) == key_index(av, key@, i as int),
        decreases args.len() - i,
    {
        if i + 1 >= args.len() {
            return None;
        }
        assert(av[i as int] == args@[i as int]@);
        if text::chars_eq(&text::chars_of(args[i].as_str()), &kv) {
            return Some(args[i + 1].clone());
        }
        i = i + 1;
    }
    None
}

/// The argument after `key`, or `default` when there is none.
pub open spec fn arg_or(args: Seq<Seq<char>>, key: Seq<char>, default: Seq<char>) -> Seq<char> {
    match key_index(args, key, 0) {
        Some(i) => args[i + 1],
        None => default,
    }
}

/// The payload an overlay process reads from its command line: the values
/// after `--connector`, `--display-name`, `--scale` and `--mode`, with
/// `unknown`, `Unknown Display`, `1` and `unknown mode` for those missing.
pub open spec fn payload_of(args: Seq<Seq<char>>) -> (Seq<char>, Seq<char>, Seq<char>, Seq<char>) {
    (
        arg_or(args, "--connector"@, "unknown"@),
        arg_or(args, "--display-name"@, "Unknown Display"@),
        arg_or(args, "--scale"@, "1"@),
        arg_or(args, "--mode"@, "unknown mode"@),
    )
}

proof fn lemma_key_index(args: Seq<Seq<char>>, key: Seq<char>, i: int)
    requires
        0 <= i,
    ensures
        key_index(args, key, i) matches Some(k) ==> i <= k && k + 1 < args.len(),
    decreases args.len() - i,
{
    if i + 1 < args.len() && args[i] != key {
        lemma_key_index(args, key, i + 1);
    }
}

fn arg_value_or(args: &[String], key: &str, default: &str) -> (r: String)
    ensures
        r@ == arg_or(string_views(args@), key@, default@),
{
    proof {
        lemma_key_index(string_views(args@), key@, 0);
    }
    match arg_value(args, key) {
        Some(v) => v,
        None => String::from_str(default),
    }
}

/// The payload given on the command line `args` (see `payload_of`).
pub fn payload_from_args(args: &[String]) -> (p: OverlayPayload)
    ensures
        (p.connector@, p.display_name@, p.scale@, p.mode@) == payload_of(string_views(args@)),
{
    OverlayPayload {
        connector: arg_value_or(args, "--connector", "unknown"),
        display_name: arg_value_or(args, "--display-name", "Unknown Display"),
        scale: arg_value_or(args, "--scale", "1"),
        mode: arg_value_or(args, "--mode", "unknown mode"),
    }
}

/// Whether the command line asks for an identification overlay.
pub fn wants_overlay(args: &[String]) -> (b: bool)
    ensures
        b == string_views(args@).contains("--identify-overlay"@),
{
    let ghost av = string_views(args@);
    let flag = text::chars_of("--identify-overlay");
    let mut i: usize = 0;
    while i < args.len()
        invariant
            av == string_views(args@),
            flag@ == "--identify-overlay"@,
            i <= args@.len(),
            forall|j: int| 0 <= j < i ==> av[j] != flag@,
        decreases args.len() - i,
    {
        assert(av[i as int] == args@[i as int]@);
        if text::chars_eq(&text::chars_of(args[i].as_str()), &flag) {
            return true;
        }
        i = i + 1;
    }
    false
}

/// The text of the best mode of an output, or `unknown mode` when it has
/// none.
pub open spec fn best_mode_text(o: OutputView) -> Seq<char> {
    match model::best_mode_of(o.available_modes) {
        Some(m) => model::kanshi_mode_text(m),
        None => "unknown mode"@,
    }
}

/// The command line an overlay process for output `o` is started with:
/// its connector, display id, layout position, scale and best mode.
pub open spec fn overlay_args_of(o: OutputView) -> Seq<Seq<char>> {
    seq![
        "--identify-overlay"@,
        "--connector"@,
        o.connector_name,
        "--display-name"@,
        model::display_id_of(o.make, o.model, o.serial, o.connector_name),
        "--x"@,
        text::fmt_int(o.layout_x as int),
        "--y"@,
        text::fmt_int(o.layout_y as int),
        "--scale"@,
        text::fmt_milli(o.current_scale_milli as int),
        "--mode"@,
        best_mode_text(o),
    ]
}

fn int_text(i: i32) -> (s: String)
    ensures
        s@ == text::fmt_int(i as int),
{
    let mut out: Vec<char> = Vec::new();
    text::push_int(&mut out, i as i64);
    text::string_of(&out)
}

/// The command line of the overlay process for `output` (see
/// `overlay_args_of`).
pub fn overlay_args(output: &RuntimeOutput) -> (r: Vec<String>)
    ensures
        string_views(r@) == overlay_args_of(output@),
{
    let mode = match model::best_mode(output.available_modes.as_slice()) {
        Some(m) => m.as_kanshi_mode(),
        None => String::from_str("unknown mode"),
    };
    let r = vec![
        String::from_str("--identify-overlay"),
        String::from_str("--connector"),
        output.connector_name.clone(),
        String::from_str("--display-name"),
        output.display_id(),
        String::from_str("--x"),
        int_text(output.layout_x),
        String::from_str("--y"),
        int_text(output.layout_y),
        String::from_str("--scale"),
        model::trim_float(output.current_scale_milli),
        String::from_str("--mode"),
        mode,
    ];
    assert(string_views(r@) =~= overlay_args_of(output@));
    r
}

/// The indices of the outputs that get an overlay: those laid out with a
/// positive width and height.
pub open spec fn overlay_target(o: OutputView) -> bool {
    o.layout_width > 0 && o.layout_height > 0
}

/// The indices, in order, of the outputs that get an overlay (see
/// `overlay_target`).
pub fn overlay_targets(outputs: &[RuntimeOutput]) -> (r: Vec<usize>)
    ensures
        forall|k: int| 0 <= k < r@.len() ==> (#[trigger] r@[k]) < outputs@.len() && overlay_target(
            outputs@[r@[k] as int]@,
        ),
        forall|k: int, l: int| 0 <= k < l < r@.len() ==> r@[k] < r@[l],
        forall|i: int|
            0 <= i < outputs@.len() && overlay_target(#[trigger] outputs@[i]@) ==> r@.contains(
                i as usize,
            ),
{
    let mut r: Vec<usize> = Vec::new();
    for i in 0..outputs.len()
        invariant
            forall|k: int| 0 <= k < r@.len() ==> (#[trigger] r@[k]) < i && overlay_target(
                outputs@[r@[k] as int]@,
            ),
            forall|k: int, l: int| 0 <= k < l < r@.len() ==> r@[k] < r@[l],
            forall|j: int|
                0 <= j < i && overlay_target(#[trigger] outputs@[j]@) ==> r@.contains(j as usize),
    {
        if outputs[i].layout_width > 0 && outputs[i].layout_height > 0 {
            let ghost before = r@;
            r.push(i);
            assert forall|j: int|
                0 <= j < i + 1 && overlay_target(#[trigger] outputs@[j]@) implies r@.contains(
                j as usize,
            ) by {
                if j < i {
                    let k = choose|k: int| 0 <= k < before.len() && before[k] == j as usize;
                    assert(r@[k] == j as usize);
                } else {
                    assert(r@[before.len() as int] == i);
                }
            }
        }
    }
    r
}

/// The criteria that select the window of process `pid`.
pub open spec fn pid_criteria_text(pid: u32) -> Seq<char> {
    "[pid=\""@ + text::fmt_nat(pid as nat) + "\"]"@
}

/// The criteria that select the window of process `pid` (see
/// `pid_criteria_text`).
pub fn pid_criteria(pid: u32) -> (s: String)
    ensures
        s@ == pid_criteria_text(pid),
{
    let mut out: Vec<char> = Vec::new();
    text::push_str(&mut out, "[pid=\"");
    text::push_nat(&mut out, pid as u64);
    text::push_str(&mut out, "\"]");
    text::string_of(&out)
}

/// The sway command that makes an overlay window float, stick and lose its
/// border, and moves it onto output `connector`.
pub open spec fn move_command_text(connector: Seq<char>) -> Seq<char> {
    "floating enable, sticky enable, border pixel 0, move window to output "@ + connector
        + ", move position 24 24"@
}

/// The sway command for an overlay of output `connector` (see
/// `move_command_text`).
pub fn move_command(connector: &str) -> (s: String)
    ensures
        s@ == move_command_text(connector@),
{
    let mut out: Vec<char> = Vec::new();
    text::push_str(&mut out, "floating enable, sticky enable, border pixel 0, move window to output ");
    text::push_str(&mut out, connector);
    text::push_str(&mut out, ", move position 24 24");
    text::string_of(&out)
}

} // verus!
