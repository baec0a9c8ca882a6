//! Reading profiles out of a kanshi configuration: aliases declared outside
//! profiles, profile blocks located by their headers and matching braces,
//! and the screens that inline and block-style output declarations describe.

use vstd::prelude::*;

use crate::grammar::{self, InlineMatch, Span, text_of};
use crate::model::{self, OutputMode, Profile, ProfileView, ScreenConfig, ScreenView};
use crate::text::{self, lines, skip_ws, starts_with, trim};

verus! {

/// Key-value entries in the order they were recorded.
pub type Entries = Seq<(Seq<char>, Seq<char>)>;

/// The value recorded last for `k`: later entries override earlier ones.
pub open spec fn lookup(entries: Entries, k: Seq<char>) -> Option<Seq<char>>
    decreases entries.len(),
{
    if entries.len() == 0 {
        None
    } else if entries.last().0 == k {
        Some(entries.last().1)
    } else {
        lookup(entries.drop_last(), k)
    }
}

/// The criteria an alias stands for, or the text itself when it is not an
/// alias.
pub open spec fn resolve(aliases: Entries, c: Seq<char>) -> Seq<char> {
    match lookup(aliases, c) {
        Some(v) => v,
        None => c,
    }
}

pub open spec fn prepend_opt<A>(a: Seq<A>, r: Option<Seq<A>>) -> Option<Seq<A>> {
    match r {
        Some(x) => Some(a + x),
        None => None,
    }
}

// ---------------------------------------------------------------------
// Aliases
// ---------------------------------------------------------------------
/// The number of occurrences of `c` in `s`.
pub open spec fn count_char(s: Seq<char>, c: char) -> int
    decreases s.len(),
{
    if s.len() == 0 {
        0
    } else {
        count_char(s.drop_last(), c) + if s.last() == c {
            1int
        } else {
            0int
        }
    }
}

/// The index of the first line after a profile block: from line `i`, lines
/// are consumed while the brace depth (opening minus closing braces) stays
/// positive.
pub open spec fn skip_block(ls: Seq<Seq<char>>, i: int, depth: int) -> int
    decreases ls.len() - i,
{
    if 0 <= i < ls.len() && depth > 0 {
        skip_block(ls, i + 1, depth + count_char(ls[i], '{') - count_char(ls[i], '}'))
    } else {
        i
    }
}

pub proof fn lemma_skip_block(ls: Seq<Seq<char>>, i: int, depth: int)
    requires
        0 <= i <= ls.len(),
    ensures
        i <= skip_block(ls, i, depth) <= ls.len(),
    decreases ls.len() - i,
{
    if 0 <= i < ls.len() && depth > 0 {
        lemma_skip_block(ls, i + 1, depth + count_char(ls[i], '{') - count_char(ls[i], '}'));
    }
}

/// The alias names declared by `alias $NAME` lines of an output block, from
/// line `i` to its closing `}`: the index of that line (or the number of
/// lines) and the names in order.
pub open spec fn alias_block(ls: Seq<Seq<char>>, i: int) -> (int, Seq<Seq<char>>)
    decreases ls.len() - i,
{
    if !(0 <= i < ls.len()) {
        (i, Seq::empty())
    } else {
        let inner = trim(ls[i]);
        let here = match grammar::alias_line(inner) {
            Some(sp) => seq![text_of(inner, sp)],
            None => Seq::empty(),
        };
        if inner == "}"@ {
            (i, here)
        } else {
            (alias_block(ls, i + 1).0, here + alias_block(ls, i + 1).1)
        }
    }
}

pub proof fn lemma_alias_block(ls: Seq<Seq<char>>, i: int)
    requires
        0 <= i <= ls.len(),
    ensures
        i <= alias_block(ls, i).0 <= ls.len(),
    decreases ls.len() - i,
{
    if 0 <= i < ls.len() {
        lemma_alias_block(ls, i + 1);
    }
}

/// Each name paired with the criteria it stands for.
pub open spec fn pair_with(names: Seq<Seq<char>>, crit: Seq<char>) -> Entries {
    names.map_values(|n: Seq<char>| (n, crit))
}

/// The aliases declared from line `i` on, outside profile blocks, in the
/// order they are declared: the `alias` lines of a block-style output
/// declaration, and the last `alias $NAME` of an inline one. Blank lines,
/// comments and `include` lines are passed over, and so is each profile
/// block. `None` where a criteria token is a lone quote character.
pub open spec fn alias_scan(ls: Seq<Seq<char>>, i: int) -> Option<Entries>
    decreases ls.len() + 1 - i,
{
    if !(0 <= i < ls.len()) {
        Some(Seq::empty())
    } else {
        let line = trim(ls[i]);
        if line.len() == 0 || starts_with(line, "#"@) || starts_with(line, "include "@) {
            alias_scan(ls, i + 1)
        } else if grammar::profile_start(line) {
            proof {
                lemma_skip_block(ls, i + 1, 1);
            }
            alias_scan(ls, skip_block(ls, i + 1, 1))
        } else {
            match grammar::output_block(line) {
                Some(sp) => match grammar::unquote(text_of(line, sp)) {
                    None => None,
                    Some(crit) => {
                        proof {
                            lemma_alias_block(ls, i + 1);
                        }
                        let j = alias_block(ls, i + 1).0;
                        prepend_opt(
                            pair_with(alias_block(ls, i + 1).1, crit),
                            alias_scan(ls, j + 1),
                        )
                    },
                },
                None => match grammar::inline_alias(line) {
                    Some((c, n)) => match grammar::unquote(text_of(line, c)) {
                        None => None,
                        Some(crit) => prepend_opt(
                            seq![(text_of(line, n), crit)],
                            alias_scan(ls, i + 1),
                        ),
                    },
                    None => alias_scan(ls, i + 1),
                },
            }
        }
    }
}

/// The aliases declared in a configuration (see `alias_scan`).
pub open spec fn config_aliases(s: Seq<char>) -> Option<Entries> {
    alias_scan(lines(s), 0)
}

// ---------------------------------------------------------------------
// Screens of a profile body
// ---------------------------------------------------------------------
/// The mirror comments of a profile body, in order: (screen id, target id).
pub open spec fn mirror_entries(ls: Seq<Seq<char>>) -> Entries
    decreases ls.len(),
{
    if ls.len() == 0 {
        Seq::empty()
    } else {
        let rest = mirror_entries(ls.drop_last());
        match grammar::mirror_comment(ls.last()) {
            Some((a, b)) => rest.push((text_of(ls.last(), a), text_of(ls.last(), b))),
            None => rest,
        }
    }
}

/// The settings gathered from the lines of a block-style output declaration.
#[derive(Clone, Copy)]
pub struct BlockState {
    pub enabled: bool,
    pub mode: OutputMode,
    pub pos_x: i32,
    pub pos_y: i32,
    pub scale_milli: i64,
}

/// The settings a block-style declaration starts from: enabled,
/// 1920x1080 at 60 Hz, at 0,0, scale 1.
pub open spec fn block_default() -> BlockState {
    BlockState {
        enabled: true,
        mode: OutputMode { width: 1920, height: 1080, refresh_mhz: 60_000 },
        pos_x: 0,
        pos_y: 0,
        scale_milli: 1000,
    }
}

/// One trimmed line of a block-style declaration applied to the settings.
/// A value that does not read leaves the setting as it was.
pub open spec fn block_step(inner: Seq<char>, st: BlockState) -> BlockState {
    if inner == "enable"@ || inner == "enabled yes"@ {
        BlockState { enabled: true, ..st }
    } else if inner == "disable"@ || inner == "enabled no"@ {
        BlockState { enabled: false, ..st }
    } else if starts_with(inner, "mode "@) {
        match grammar::parse_mode_string(inner.skip("mode "@.len() as int)) {
            Some(m) => BlockState { mode: m, ..st },
            None => st,
        }
    } else if starts_with(inner, "position "@) {
        match grammar::parse_position(inner.skip("position "@.len() as int)) {
            Some((x, y)) => BlockState { pos_x: x, pos_y: y, ..st },
            None => st,
        }
    } else if starts_with(inner, "pos "@) {
        match grammar::parse_space_position(inner.skip("pos "@.len() as int)) {
            Some((x, y)) => BlockState { pos_x: x, pos_y: y, ..st },
            None => st,
        }
    } else if starts_with(inner, "scale "@) {
        match text::decimal_milli(trim(inner.skip("scale "@.len() as int))) {
            Some(v) => BlockState { scale_milli: v, ..st },
            None => st,
        }
    } else {
        st
    }
}

/// The lines of a block-style declaration from line `i` up to its closing
/// `}`: the index of that line (or the number of lines) and the settings.
pub open spec fn block_scan(ls: Seq<Seq<char>>, i: int, st: BlockState) -> (int, BlockState)
    decreases ls.len() - i,
{
    if !(0 <= i < ls.len()) {
        (i, st)
    } else if trim(ls[i]) == "}"@ {
        (i, st)
    } else {
        block_scan(ls, i + 1, block_step(trim(ls[i]), st))
    }
}

pub proof fn lemma_block_scan(ls: Seq<Seq<char>>, i: int, st: BlockState)
    requires
        0 <= i <= ls.len(),
    ensures
        i <= block_scan(ls, i, st).0 <= ls.len(),
    decreases ls.len() - i,
{
    if 0 <= i < ls.len() && trim(ls[i]) != "}"@ {
        lemma_block_scan(ls, i + 1, block_step(trim(ls[i]), st));
    }
}

/// A screen with the given settings; mirroring is taken from the mirror
/// comments recorded for its id.
pub open spec fn screen_view(
    id: Seq<char>,
    enabled: bool,
    mode: OutputMode,
    x: i32,
    y: i32,
    scale: i64,
    mirrors: Entries,
) -> ScreenView {
    ScreenView {
        id: id,
        connector_name: id,
        enabled: enabled,
        selected_mode: mode,
        available_modes: seq![mode],
        scale_milli: scale,
        pos_x: x,
        pos_y: y,
        mirror: lookup(mirrors, id) is Some,
        mirror_target: lookup(mirrors, id),
    }
}

pub open spec fn u32_or(o: Option<u32>, d: u32) -> u32 {
    match o {
        Some(v) => v,
        None => d,
    }
}

pub open spec fn i32_or(o: Option<i32>, d: i32) -> i32 {
    match o {
        Some(v) => v,
        None => d,
    }
}

pub open spec fn i64_or(o: Option<i64>, d: i64) -> i64 {
    match o {
        Some(v) => v,
        None => d,
    }
}

/// The mode an inline declaration gives: the captured width, height and
/// rate, each defaulting (1920, 1080, 60 Hz) when absent or unreadable.
pub open spec fn inline_mode(line: Seq<char>, m: InlineMatch) -> OutputMode {
    match m.mode {
        Some(ms) => OutputMode {
            width: u32_or(text::digits_u32(text_of(line, ms.width)), 1920),
            height: u32_or(text::digits_u32(text_of(line, ms.height)), 1080),
            refresh_mhz: grammar::refresh_or_default(line, ms.refresh),
        },
        None => OutputMode { width: 1920, height: 1080, refresh_mhz: 60_000 },
    }
}

/// The screen an inline declaration describes; `None` where its token is a
/// lone quote character.
pub open spec fn inline_screen(
    line: Seq<char>,
    m: InlineMatch,
    aliases: Entries,
    mirrors: Entries,
) -> Option<ScreenView> {
    match grammar::unquote(text_of(line, m.token)) {
        None => None,
        Some(u) => Some(
            screen_view(
                resolve(aliases, u),
                m.enabled,
                inline_mode(line, m),
                match m.position {
                    Some((a, _)) => i32_or(text::parse_i32(text_of(line, a)), 0),
                    None => 0,
                },
                match m.position {
                    Some((_, b)) => i32_or(text::parse_i32(text_of(line, b)), 0),
                    None => 0,
                },
                match m.scale {
                    Some(sp) => i64_or(text::decimal_milli(text_of(line, sp)), 1000),
                    None => 1000,
                },
                mirrors,
            ),
        ),
    }
}

/// What line `i` of a profile body contributes: the screens it declares and
/// the index of the next line to read. Blank lines, comments and `exec` lines
/// declare nothing; an inline declaration gives one screen; a line
/// `output CRITERIA {` opens a block-style declaration that runs to its `}`
/// and gives one screen, reading resuming after that `}` (or at the end);
/// other lines declare nothing. `None` where a criteria
/// token is a lone quote character.
pub open spec fn body_step(ls: Seq<Seq<char>>, i: int, aliases: Entries, mirrors: Entries) -> Option<
    (Seq<ScreenView>, int),
> {
    let line = trim(ls[i]);
    if line.len() == 0 || starts_with(line, "#"@) || starts_with(line, "exec "@) {
        Some((Seq::empty(), i + 1))
    } else {
        match grammar::inline_line(line) {
            Some(m) => match inline_screen(line, m, aliases, mirrors) {
                None => None,
                Some(sc) => Some((seq![sc], i + 1)),
            },
            None => if starts_with(line, "output "@) && line.len() > 0 && line.last() == '{' {
                match grammar::unquote(grammar::block_token(line)) {
                    None => None,
                    Some(u) => {
                        let (j, st) = block_scan(ls, i + 1, block_default());
                        Some(
                            (
                                seq![
                                    screen_view(
                                        resolve(aliases, u),
                                        st.enabled,
                                        st.mode,
                                        st.pos_x,
                                        st.pos_y,
                                        st.scale_milli,
                                        mirrors,
                                    ),
                                ],
                                if j < ls.len() {
                                    j + 1
                                } else {
                                    j
                                },
                            ),
                        )
                    },
                }
            } else {
                Some((Seq::empty(), i + 1))
            },
        }
    }
}

pub proof fn lemma_body_step(ls: Seq<Seq<char>>, i: int, aliases: Entries, mirrors: Entries)
    requires
        0 <= i < ls.len(),
    ensures
        body_step(ls, i, aliases, mirrors) matches Some((_, j)) ==> i < j <= ls.len(),
{
    lemma_block_scan(ls, i + 1, block_default());
}

/// The screens declared in the lines of a profile body from line `i` on,
/// line after line as `body_step` reads them.
pub open spec fn body_scan(ls: Seq<Seq<char>>, i: int, aliases: Entries, mirrors: Entries) -> Option<
    Seq<ScreenView>,
>
    decreases ls.len() + 1 - i,
{
    if !(0 <= i < ls.len()) {
        Some(Seq::empty())
    } else {
        proof {
            lemma_body_step(ls, i, aliases, mirrors);
        }
        match body_step(ls, i, aliases, mirrors) {
            None => None,
            Some((here, j)) => prepend_opt(here, body_scan(ls, j, aliases, mirrors)),
        }
    }
}

/// A screen as a profile body declares it: its id stands for its connector
/// name, its mode is the only one available, and it mirrors the target the
/// last mirror comment for its id names, if any.
pub open spec fn read_shape(sc: ScreenView, mirrors: Entries) -> bool {
    &&& sc.connector_name == sc.id
    &&& sc.available_modes == seq![sc.selected_mode]
    &&& sc.mirror_target == lookup(mirrors, sc.id)
    &&& sc.mirror == (lookup(mirrors, sc.id) is Some)
}

proof fn lemma_body_step_shape(ls: Seq<Seq<char>>, i: int, aliases: Entries, mirrors: Entries)
    requires
        0 <= i < ls.len(),
    ensures
        body_step(ls, i, aliases, mirrors) matches Some((here, _)) ==> here.len() <= 1 && forall|k: int|
            0 <= k < here.len() ==> read_shape(#[trigger] here[k], mirrors),
{
}

/// Every screen read from the lines of a profile body has the shape of a
/// declared screen (see `read_shape`).
pub proof fn lemma_body_scan_shape(ls: Seq<Seq<char>>, i: int, aliases: Entries, mirrors: Entries)
    requires
        0 <= i,
    ensures
        body_scan(ls, i, aliases, mirrors) matches Some(v) ==> forall|k: int|
            0 <= k < v.len() ==> read_shape(#[trigger] v[k], mirrors),
    decreases ls.len() + 1 - i,
{
    if i < ls.len() {
        lemma_body_step(ls, i, aliases, mirrors);
        lemma_body_step_shape(ls, i, aliases, mirrors);
        if let Some((here, j)) = body_step(ls, i, aliases, mirrors) {
            lemma_body_scan_shape(ls, j, aliases, mirrors);
            if let Some(v) = body_scan(ls, i, aliases, mirrors) {
                let rest = body_scan(ls, j, aliases, mirrors)->0;
                assert(v == here + rest);
                assert forall|k: int| 0 <= k < v.len() implies read_shape(#[trigger] v[k], mirrors) by {
                    if k < here.len() {
                        assert(v[k] == here[k]);
                    } else {
                        assert(v[k] == rest[k - here.len()]);
                    }
                }
            }
        }
    }
}

/// What a line of a profile body declares, as the reading takes it: a
/// blank line, a comment or an `exec` line declares nothing; an inline
/// `output ID ...` line declares one screen, whose id (and connector name)
/// is `ID` unquoted and resolved through the aliases; an `output ID {` line
/// declares one screen the same way, its settings read from the lines up to
/// the closing brace, after which the reading goes on; any other line
/// declares nothing. Only a lone quote character as `ID` stops the reading.
pub proof fn lemma_body_line(ls: Seq<Seq<char>>, i: int, aliases: Entries, mirrors: Entries)
    requires
        0 <= i < ls.len(),
    ensures
        ({
            let line = trim(ls[i]);
            let skip = line.len() == 0 || starts_with(line, "#"@) || starts_with(line, "exec "@);
            let block = starts_with(line, "output "@) && line.len() > 0 && line.last() == '{';
            &&& skip ==> body_step(ls, i, aliases, mirrors) == Some((Seq::<ScreenView>::empty(), i + 1))
            &&& !skip ==> (grammar::inline_line(line) matches Some(m) ==> match grammar::unquote(
                text_of(line, m.token),
            ) {
                None => body_step(ls, i, aliases, mirrors) is None,
                Some(u) => body_step(ls, i, aliases, mirrors) matches Some((here, j)) && j == i + 1
                    && here.len() == 1 && here[0].id == resolve(aliases, u) && here[0].enabled
                    == m.enabled && read_shape(here[0], mirrors),
            })
            &&& !skip && grammar::inline_line(line) is None && block ==> match grammar::unquote(
                grammar::block_token(line),
            ) {
                None => body_step(ls, i, aliases, mirrors) is None,
                Some(u) => body_step(ls, i, aliases, mirrors) matches Some((here, j)) && i < j
                    && here.len() == 1 && here[0].id == resolve(aliases, u) && read_shape(
                    here[0],
                    mirrors,
                ),
            }
            &&& !skip && grammar::inline_line(line) is None && !block ==> body_step(
                ls,
                i,
                aliases,
                mirrors,
            ) == Some((Seq::<ScreenView>::empty(), i + 1))
        }),
{
    lemma_body_step(ls, i, aliases, mirrors);
}

/// The screens of a profile body come in the order of its lines: those the
/// line at `i` declares (see `lemma_body_line`), then those of the lines
/// after it; the reading fails where a line's does.
pub proof fn lemma_body_order(ls: Seq<Seq<char>>, i: int, aliases: Entries, mirrors: Entries)
    requires
        0 <= i < ls.len(),
    ensures
        match body_step(ls, i, aliases, mirrors) {
            None => body_scan(ls, i, aliases, mirrors) is None,
            Some((here, j)) => body_scan(ls, i, aliases, mirrors) == prepend_opt(
                here,
                body_scan(ls, j, aliases, mirrors),
            ),
        },
        body_scan(ls, ls.len() as int, aliases, mirrors) == Some(Seq::<ScreenView>::empty()),
{
}

/// The screens of a profile body.
pub open spec fn body_screens(body: Seq<char>, aliases: Entries) -> Option<Seq<ScreenView>> {
    body_scan(lines(body), 0, aliases, mirror_entries(lines(body)))
}

// ---------------------------------------------------------------------
// Profiles
// ---------------------------------------------------------------------
/// Position `p` starts a line.
pub open spec fn line_start(s: Seq<char>, p: int) -> bool {
    p == 0 || (0 < p <= s.len() && s[p - 1] == '\n')
}

/// The first profile header at a line start at or after `p`: its start, the
/// span of its name token and the index of its brace.
pub open spec fn header_from(s: Seq<char>, p: int) -> Option<(int, Span, int)>
    decreases s.len() + 1 - p,
{
    if !(0 <= p <= s.len()) {
        None
    } else {
        match grammar::header_at(s, p) {
            Some((sp, b)) => if line_start(s, p) {
                Some((p, sp, b))
            } else {
                header_from(s, p + 1)
            },
            None => header_from(s, p + 1),
        }
    }
}

/// The index of the `}` that closes the brace at `i`, counting nested
/// braces (`depth` of them are open before `i`).
pub open spec fn brace_close(s: Seq<char>, i: int, depth: int) -> Option<int>
    decreases s.len() - i,
{
    if !(0 <= i < s.len()) {
        None
    } else if s[i] == '{' {
        brace_close(s, i + 1, depth + 1)
    } else if s[i] == '}' {
        if depth <= 1 {
            Some(i)
        } else {
            brace_close(s, i + 1, depth - 1)
        }
    } else {
        brace_close(s, i + 1, depth)
    }
}

/// The start of the line at or before `k`, not going back past `lo`.
pub open spec fn line_head_from(s: Seq<char>, lo: int, k: int) -> int
    decreases k - lo,
{
    if k <= lo || line_start(s, k) {
        k
    } else {
        line_head_from(s, lo, k - 1)
    }
}

/// The start of the line that holds the `profile` keyword of a header found
/// from `p`: the whitespace before the keyword on earlier lines (blank
/// lines) is left out of the profile's text.
pub open spec fn header_line_start(s: Seq<char>, p: int) -> int {
    line_head_from(s, p, skip_ws(s, p))
}

pub proof fn lemma_line_head_from(s: Seq<char>, lo: int, k: int)
    requires
        lo <= k,
    ensures
        lo <= line_head_from(s, lo, k) <= k,
        line_start(s, lo) ==> line_start(s, line_head_from(s, lo, k)),
    decreases k - lo,
{
    if !(k <= lo || line_start(s, k)) {
        lemma_line_head_from(s, lo, k - 1);
    }
}

/// The start of the line that holds the keyword of the header found from
/// `p` (see `header_line_start`).
pub fn header_line_start_exec(s: &Vec<char>, p: usize) -> (r: usize)
    requires
        p <= s@.len(),
    ensures
        r == header_line_start(s@, p as int),
        p <= r <= skip_ws(s@, p as int),
{
    let k0 = text::skip_ws_exec(s, p);
    let mut k = k0;
    while k > p && s[k - 1] != '\n'
        invariant
            p <= k <= k0 <= s@.len(),
            line_head_from(s@, p as int, k as int) == line_head_from(s@, p as int, k0 as int),
        decreases k,
    {
        k = k - 1;
    }
    k
}

/// The number of `{` less the number of `}` in `s[a..b]`.
pub open spec fn brace_balance(s: Seq<char>, a: int, b: int) -> int
    decreases b - a,
{
    if b <= a {
        0
    } else {
        brace_balance(s, a, b - 1) + if s[b - 1] == '{' {
            1int
        } else if s[b - 1] == '}' {
            -1int
        } else {
            0int
        }
    }
}

/// The least `j` from `i` on, before the end of `s`, at which the braces of
/// `s[a..=j]` balance.
pub open spec fn first_balance(s: Seq<char>, a: int, i: int) -> Option<int>
    decreases s.len() - i,
{
    if !(0 <= i < s.len()) {
        None
    } else if brace_balance(s, a, i + 1) == 0 {
        Some(i)
    } else {
        first_balance(s, a, i + 1)
    }
}

proof fn lemma_brace_close_balance(s: Seq<char>, a: int, i: int)
    requires
        0 <= a < i,
        brace_balance(s, a, i) >= 1,
    ensures
        brace_close(s, i, brace_balance(s, a, i)) == first_balance(s, a, i),
    decreases s.len() - i,
{
    if i < s.len() {
        assert(brace_balance(s, a, i + 1) == brace_balance(s, a, i) + if s[i] == '{' {
            1int
        } else if s[i] == '}' {
            -1int
        } else {
            0int
        });
        if brace_balance(s, a, i + 1) != 0 {
            lemma_brace_close_balance(s, a, i + 1);
        }
    }
}

/// What `find_matching_brace` finds from a `{` at `open`: the least index
/// after it at which the braces from `open` on balance (as many `}` as
/// `{`), or none when they never do. Before that index they never balance.
pub proof fn lemma_matching_brace(s: Seq<char>, open: int)
    requires
        0 <= open < s.len(),
        s[open] == '{',
    ensures
        brace_close(s, open, 0) == first_balance(s, open, open + 1),
        brace_close(s, open, 0) matches Some(j) ==> open < j < s.len() && brace_balance(s, open, j + 1)
            == 0 && forall|k: int| open <= k < j ==> brace_balance(s, open, #[trigger] (k + 1)) != 0,
        brace_close(s, open, 0) is None ==> forall|k: int|
            open <= k < s.len() ==> brace_balance(s, open, #[trigger] (k + 1)) != 0,
{
    assert(brace_balance(s, open, open) == 0);
    assert(brace_balance(s, open, open + 1) == 1);
    lemma_brace_close_balance(s, open, open + 1);
    assert forall|k: int| open <= k < open + 1 implies brace_balance(s, open, #[trigger] (k + 1)) != 0 by {
        assert(k == open);
    }
    lemma_first_balance(s, open, open + 1);
}

proof fn lemma_first_balance(s: Seq<char>, a: int, i: int)
    requires
        0 <= a < i,
        forall|k: int| a <= k < i ==> brace_balance(s, a, #[trigger] (k + 1)) != 0,
    ensures
        first_balance(s, a, i) matches Some(j) ==> i <= j < s.len() && brace_balance(s, a, j + 1) == 0
            && forall|k: int| a <= k < j ==> brace_balance(s, a, #[trigger] (k + 1)) != 0,
        first_balance(s, a, i) is None ==> forall|k: int|
            a <= k < s.len() ==> brace_balance(s, a, #[trigger] (k + 1)) != 0,
    decreases s.len() - i,
{
    if 0 <= i < s.len() && brace_balance(s, a, i + 1) != 0 {
        assert forall|k: int| a <= k < i + 1 implies brace_balance(s, a, #[trigger] (k + 1)) != 0 by {
            if k == i {
            }
        }
        lemma_first_balance(s, a, i + 1);
    }
}

pub proof fn lemma_header_at(s: Seq<char>, p: int)
    requires
        0 <= p <= s.len() <= usize::MAX,
    ensures
        grammar::header_at(s, p) matches Some((sp, b)) ==> p <= sp.lo && sp.lo + 3 <= sp.hi <= b
            < s.len() && s[b] == '{' && skip_ws(s, p) < sp.lo,
{
    reveal_strlit("profile");
    text::lemma_skip_ws(s, p);
    if let Some(b) = grammar::kw(s, text::skip_ws(s, p), "profile"@) {
        if let Some(c) = grammar::ws1(s, b) {
            text::lemma_skip_ws(s, b);
            if c < s.len() {
                text::lemma_scan(s, c + 1, text::Stop::Quote);
            }
            if let Some(e) = grammar::profile_name_at(s, c) {
                text::lemma_skip_ws(s, e);
            }
        }
    }
}

pub proof fn lemma_header_from(s: Seq<char>, p: int)
    requires
        0 <= p <= s.len() <= usize::MAX,
    ensures
        header_from(s, p) matches Some((q, sp, b)) ==> p <= q <= sp.lo && sp.lo + 3 <= sp.hi <= b
            < s.len() && s[b] == '{' && line_start(s, q) && grammar::header_at(s, q) == Some(
            (sp, b),
        ),
    decreases s.len() + 1 - p,
{
    lemma_header_at(s, p);
    if line_start(s, p) && grammar::header_at(s, p) is Some {
    } else if p < s.len() {
        lemma_header_from(s, p + 1);
    }
}

/// The profile a header gives, with the start `p` of the header line, the
/// span of its name token and the index `b` of its brace: when the brace is
/// matched, a profile with the screens of the text between the braces and
/// the byte range (in UTF-8) from `p` to just past the closing brace;
/// nothing when it is not. `None` where a criteria token is a lone quote
/// character.
pub open spec fn profile_at(s: Seq<char>, p: int, name_sp: Span, b: int, aliases: Entries) -> Option<
    Seq<ProfileView>,
> {
    match brace_close(s, b, 0) {
        None => Some(Seq::empty()),
        Some(e) => match (
            grammar::unquote(text_of(s, name_sp)),
            body_screens(s.subrange(b + 1, e), aliases),
        ) {
            (Some(name), Some(screens)) => Some(
                seq![
                    ProfileView {
                        name,
                        screens,
                        raw_range: Some(
                            (text::byte_offset(s, p) as usize, text::byte_offset(s, e + 1) as usize),
                        ),
                    },
                ],
            ),
            _ => None,
        },
    }
}

/// The profiles whose headers start at or after `from`; the search for the
/// next header resumes after the brace of each one.
pub open spec fn profiles_from(s: Seq<char>, from: int, aliases: Entries) -> Option<
    Seq<ProfileView>,
>
    decreases s.len() + 1 - from,
{
    // (a text held in memory has fewer than `usize::MAX` characters)
    if !(0 <= from <= s.len() <= usize::MAX) {
        Some(Seq::empty())
    } else {
        match header_from(s, from) {
            None => Some(Seq::empty()),
            Some((p, name_sp, b)) => {
                proof {
                    lemma_header_from(s, from);
                }
                match profile_at(s, header_line_start(s, p), name_sp, b, aliases) {
                    None => None,
                    Some(here) => prepend_opt(here, profiles_from(s, b + 1, aliases)),
                }
            },
        }
    }
}

proof fn lemma_header_from_first(s: Seq<char>, from: int)
    requires
        0 <= from <= s.len() + 1,
    ensures
        header_from(s, from) matches Some((p, sp, b)) ==> from <= p && line_start(s, p)
            && grammar::header_at(s, p) == Some((sp, b)) && forall|q: int|
            from <= q < p ==> !(line_start(s, q) && #[trigger] grammar::header_at(s, q) is Some),
        header_from(s, from) is None ==> forall|q: int|
            from <= q <= s.len() ==> !(line_start(s, q) && #[trigger] grammar::header_at(s, q) is Some),
    decreases s.len() + 1 - from,
{
    if 0 <= from <= s.len() {
        if !(line_start(s, from) && grammar::header_at(s, from) is Some) {
            lemma_header_from_first(s, from + 1);
        }
    }
}

/// How the profiles of a text are read, from `from` on: the first profile
/// header at a line start (none before it), and when its brace is matched,
/// a profile named by its unquoted name token, with the screens of the text
/// between the braces and the byte range from the start of its header line
/// to just past the closing brace; then the profiles after its brace. A
/// header whose brace is not matched gives no profile; with no header left
/// there are no more profiles.
pub proof fn lemma_profiles_order(s: Seq<char>, from: int, al: Entries)
    requires
        0 <= from <= s.len() <= usize::MAX,
    ensures
        match header_from(s, from) {
            None => profiles_from(s, from, al) == Some(Seq::<ProfileView>::empty()) && forall|q: int|
                from <= q <= s.len() ==> !(line_start(s, q) && #[trigger] grammar::header_at(s, q) is Some),
            Some((p, sp, b)) => {
                &&& from <= p && line_start(s, p) && grammar::header_at(s, p) == Some((sp, b))
                &&& s[b] == '{'
                &&& forall|q: int|
                    from <= q < p ==> !(line_start(s, q) && #[trigger] grammar::header_at(s, q) is Some)
                &&& profiles_from(s, from, al) == match brace_close(s, b, 0) {
                    None => profiles_from(s, b + 1, al),
                    Some(e) => match (
                        grammar::unquote(text_of(s, sp)),
                        body_screens(s.subrange(b + 1, e), al),
                    ) {
                        (Some(name), Some(screens)) => prepend_opt(
                            seq![
                                ProfileView {
                                    name,
                                    screens,
                                    raw_range: Some(
                                        (
                                            text::byte_offset(s, header_line_start(s, p)) as usize,
                                            text::byte_offset(s, e + 1) as usize,
                                        ),
                                    ),
                                },
                            ],
                            profiles_from(s, b + 1, al),
                        ),
                        _ => None,
                    },
                }
            },
        },
{
    lemma_header_from_first(s, from);
    lemma_header_from(s, from);
    if let Some((p, sp, b)) = header_from(s, from) {
        if brace_close(s, b, 0) is None {
            let rest = profiles_from(s, b + 1, al);
            if let Some(x) = rest {
                assert(Seq::<ProfileView>::empty() + x =~= x);
            }
        }
    }
}

/// The profiles of a configuration text; `None` where reading it would
/// take the inside of a lone quote character.
pub open spec fn parse_profiles_spec(s: Seq<char>) -> Option<Seq<ProfileView>> {
    match config_aliases(s) {
        None => None,
        Some(al) => profiles_from(s, 0, al),
    }
}

// ---------------------------------------------------------------------
// Executable reading
// ---------------------------------------------------------------------
/// The entries held by a vector of character-vector pairs.
pub open spec fn entries_view(v: Seq<(Vec<char>, Vec<char>)>) -> Entries {
    v.map_values(|p: (Vec<char>, Vec<char>)| (p.0@, p.1@))
}

pub open spec fn opt_chars(o: Option<Vec<char>>) -> Option<Seq<char>> {
    match o {
        Some(v) => Some(v@),
        None => None,
    }
}

pub fn lookup_exec(entries: &Vec<(Vec<char>, Vec<char>)>, k: &Vec<char>) -> (r: Option<Vec<char>>)
    ensures
        opt_chars(r) == lookup(entries_view(entries@), k@),
{
    let ghost all = entries_view(entries@);
    let mut i: usize = entries.len();
    assert(all.take(i as int) =~= all);
    while i > 0
        invariant
            i <= entries@.len(),
            all == entries_view(entries@),
            lookup(all, k@) == lookup(all.take(i as int), k@),
        decreases i,
    {
        assert(all.take(i as int).drop_last() =~= all.take(i - 1));
        assert(all.take(i as int).last() == (entries@[i - 1].0@, entries@[i - 1].1@));
        if text::chars_eq(&entries[i - 1].0, k) {
            return Some(text::copy_range(&entries[i - 1].1, 0, entries[i - 1].1.len()));
        }
        i = i - 1;
    }
    assert(all.take(0) =~= Seq::<(Seq<char>, Seq<char>)>::empty());
    None
}

/// The criteria an alias stands for, or the criteria themselves where no
/// alias has that name.
pub fn resolve_alias(c: Vec<char>, aliases: &Vec<(Vec<char>, Vec<char>)>) -> (r: Vec<char>)
    ensures
        r@ == resolve(entries_view(aliases@), c@),
{
    match lookup_exec(aliases, &c) {
        Some(v) => v,
        None => c,
    }
}

pub fn count_char_exec(s: &Vec<char>, c: char) -> (n: usize)
    ensures
        n == count_char(s@, c),
        n <= s@.len(),
{
    let mut n: usize = 0;
    for i in 0..s.len()
        invariant
            n == count_char(s@.take(i as int), c),
            n <= i,
    {
        assert(s@.take(i + 1).drop_last() =~= s@.take(i as int));
        if s[i] == c {
            n = n + 1;
        }
    }
    assert(s@.take(s@.len() as int) =~= s@);
    n
}

/// The first line after the profile block whose header is the line before
/// `start` (see `skip_block`).
pub fn skip_block_exec(ls: &Vec<Vec<char>>, start: usize) -> (r: usize)
    requires
        start <= ls@.len(),
        text::sum_lens(text::views(ls@)) <= usize::MAX,
    ensures
        r == skip_block(text::views(ls@), start as int, 1),
        start <= r <= ls@.len(),
{
    let ghost lv = text::views(ls@);
    let mut depth: i128 = 1;
    let mut i: usize = start;
    proof {
        assert(lv.subrange(start as int, start as int) =~= Seq::<Seq<char>>::empty());
        assert(text::sum_lens(Seq::<Seq<char>>::empty()) == 0);
    }
    while i < ls.len() && depth > 0
        invariant
            start <= i <= ls@.len(),
            lv == text::views(ls@),
            text::sum_lens(lv) <= usize::MAX,
            skip_block(lv, start as int, 1) == skip_block(lv, i as int, depth as int),
            depth <= 1 + text::sum_lens(lv.subrange(start as int, i as int)),
            depth >= 1 - usize::MAX,
        decreases ls.len() - i,
    {
        let o = count_char_exec(&ls[i], '{');
        let c = count_char_exec(&ls[i], '}');
        proof {
            assert(lv[i as int] == ls@[i as int]@);
            text::lemma_sum_lens_push(lv.subrange(start as int, i as int), lv[i as int]);
            assert(lv.subrange(start as int, i as int).push(lv[i as int]) =~= lv.subrange(
                start as int,
                i + 1,
            ));
            text::lemma_sum_lens_concat(lv.subrange(0, start as int), lv.subrange(start as int, i + 1));
            text::lemma_sum_lens_concat(lv.subrange(0, i + 1), lv.subrange(i + 1, lv.len() as int));
            assert(lv.subrange(0, start as int) + lv.subrange(start as int, i + 1) =~= lv.subrange(0, i + 1));
            assert(lv.subrange(0, i + 1) + lv.subrange(i + 1, lv.len() as int) =~= lv);
            text::lemma_sum_lens_nonneg(lv.subrange(0, start as int));
            text::lemma_sum_lens_nonneg(lv.subrange(i + 1, lv.len() as int));
        }
        depth = depth + o as i128 - c as i128;
        i = i + 1;
    }
    proof {
        lemma_skip_block(lv, start as int, 1);
    }
    i
}

/// The alias names of an output block from line `start` on (see
/// `alias_block`).
pub fn alias_block_exec(ls: &Vec<Vec<char>>, start: usize) -> (r: (usize, Vec<Vec<char>>))
    requires
        start <= ls@.len(),
    ensures
        r.0 == alias_block(text::views(ls@), start as int).0,
        text::views(r.1@) == alias_block(text::views(ls@), start as int).1,
        start <= r.0 <= ls@.len(),
{
    let ghost lv = text::views(ls@);
    let mut names: Vec<Vec<char>> = Vec::new();
    let mut i: usize = start;
    while i < ls.len()
        invariant
            start <= i <= ls@.len(),
            lv == text::views(ls@),
            alias_block(lv, start as int) == (alias_block(lv, i as int).0, text::views(names@)
                + alias_block(lv, i as int).1),
        decreases ls.len() - i,
    {
        let inner = text::trimmed(&ls[i]);
        assert(inner@ == trim(lv[i as int]));
        let ghost before = text::views(names@);
        if let Some(sp) = grammar::alias_line_exec(&inner) {
            names.push(text::copy_range(&inner, sp.lo, sp.hi));
        }
        assert(text::views(names@) =~= before + match grammar::alias_line(inner@) {
            Some(sp) => seq![text_of(inner@, sp)],
            None => Seq::<Seq<char>>::empty(),
        });
        let close = text::chars_of("}");
        if text::chars_eq(&inner, &close) {
            assert(alias_block(lv, start as int) =~= (i as int, text::views(names@)));
            return (i, names);
        }
        assert(alias_block(lv, start as int).1 =~= text::views(names@) + alias_block(lv, i + 1).1);
        i = i + 1;
    }
    assert(alias_block(lv, start as int).1 =~= text::views(names@));
    (i, names)
}

/// Appends each name paired with `crit`.
fn push_pairs(out: &mut Vec<(Vec<char>, Vec<char>)>, names: &Vec<Vec<char>>, crit: &Vec<char>)
    ensures
        entries_view(final(out)@) == entries_view(old(out)@) + pair_with(text::views(names@), crit@),
{
    let ghost before = entries_view(out@);
    for k in 0..names.len()
        invariant
            entries_view(out@) == before + pair_with(text::views(names@).take(k as int), crit@),
    {
        let a = text::copy_range(&names[k], 0, names[k].len());
        let b = text::copy_range(crit, 0, crit.len());
        assert(a@ =~= names@[k as int]@);
        assert(b@ =~= crit@);
        let ghost prev = out@;
        out.push((a, b));
        assert(entries_view(out@) =~= entries_view(prev).push((names@[k as int]@, crit@)));
        assert(pair_with(text::views(names@).take(k + 1), crit@) =~= pair_with(
            text::views(names@).take(k as int),
            crit@,
        ).push((names@[k as int]@, crit@)));
        assert(entries_view(out@) =~= before + pair_with(text::views(names@).take(k + 1), crit@));
    }
    assert(text::views(names@).take(names@.len() as int) =~= text::views(names@));
}

/// The aliases of a configuration, from its lines (see `alias_scan`);
/// `None` where a criteria token is a lone quote character.
pub fn alias_scan_exec(ls: &Vec<Vec<char>>) -> (r: Option<Vec<(Vec<char>, Vec<char>)>>)
    requires
        text::sum_lens(text::views(ls@)) <= usize::MAX,
    ensures
        match r {
            Some(v) => alias_scan(text::views(ls@), 0) == Some(entries_view(v@)),
            None => alias_scan(text::views(ls@), 0) is None,
        },
{
    let ghost lv = text::views(ls@);
    let mut out: Vec<(Vec<char>, Vec<char>)> = Vec::new();
    let mut i: usize = 0;
    while i < ls.len()
        invariant
            i <= ls@.len(),
            lv == text::views(ls@),
            text::sum_lens(lv) <= usize::MAX,
            alias_scan(lv, 0) == prepend_opt(entries_view(out@), alias_scan(lv, i as int)),
        decreases ls.len() + 1 - i,
    {
        let line = text::trimmed(&ls[i]);
        assert(line@ == trim(lv[i as int]));
        let ghost before = entries_view(out@);
        if line.len() == 0 || text::occurs_lit(&line, 0, "#") || text::occurs_lit(&line, 0, "include ") {
            i = i + 1;
        } else if grammar::profile_start_exec(&line) {
            i = skip_block_exec(ls, i + 1);
        } else if let Some(sp) = grammar::output_block_exec(&line) {
            let tok = text::copy_range(&line, sp.lo, sp.hi);
            match grammar::unquote_exec(&tok) {
                None => {
                    return None;
                },
                Some(crit) => {
                    let (j, names) = alias_block_exec(ls, i + 1);
                    push_pairs(&mut out, &names, &crit);
                    proof {
                        let rest = alias_scan(lv, j + 1);
                        assert(alias_scan(lv, i as int) == prepend_opt(pair_with(text::views(names@), crit@), rest));
                        match rest {
                            Some(x) => {
                                assert(before + (pair_with(text::views(names@), crit@) + x) =~= entries_view(out@) + x);
                            },
                            None => {},
                        }
                    }
                    i = if j < ls.len() {
                        j + 1
                    } else {
                        ls.len()
                    };
                },
            }
        } else if let Some((c, nm)) = grammar::inline_alias_exec(&line) {
            let tok = text::copy_range(&line, c.lo, c.hi);
            match grammar::unquote_exec(&tok) {
                None => {
                    return None;
                },
                Some(crit) => {
                    let name = text::copy_range(&line, nm.lo, nm.hi);
                    out.push((name, crit));
                    proof {
                        let rest = alias_scan(lv, i + 1);
                        assert(entries_view(out@) =~= before.push((text_of(line@, nm), crit@)));
                        match rest {
                            Some(x) => {
                                assert(before + (seq![(text_of(line@, nm), crit@)] + x) =~= entries_view(out@) + x);
                            },
                            None => {},
                        }
                    }
                    i = i + 1;
                },
            }
        } else {
            i = i + 1;
        }
    }
    assert(alias_scan(lv, i as int) == Some(Seq::<(Seq<char>, Seq<char>)>::empty()));
    assert(entries_view(out@) + Seq::<(Seq<char>, Seq<char>)>::empty() =~= entries_view(out@));
    Some(out)
}

/// The mirror comments of a profile body (see `mirror_entries`).
pub fn mirror_entries_exec(ls: &Vec<Vec<char>>) -> (r: Vec<(Vec<char>, Vec<char>)>)
    ensures
        entries_view(r@) == mirror_entries(text::views(ls@)),
{
    let ghost lv = text::views(ls@);
    let mut out: Vec<(Vec<char>, Vec<char>)> = Vec::new();
    for i in 0..ls.len()
        invariant
            lv == text::views(ls@),
            entries_view(out@) == mirror_entries(lv.take(i as int)),
    {
        assert(lv.take(i + 1).drop_last() =~= lv.take(i as int));
        assert(lv.take(i + 1).last() == ls@[i as int]@);
        let ghost prev = out@;
        if let Some((a, b)) = grammar::mirror_comment_exec(&ls[i]) {
            out.push((text::copy_range(&ls[i], a.lo, a.hi), text::copy_range(&ls[i], b.lo, b.hi)));
            assert(entries_view(out@) =~= entries_view(prev).push(
                (text_of(ls@[i as int]@, a), text_of(ls@[i as int]@, b)),
            ));
        }
    }
    assert(lv.take(ls@.len() as int) =~= lv);
    out
}

pub fn block_step_exec(inner: &Vec<char>, st: BlockState) -> (r: BlockState)
    ensures
        r == block_step(inner@, st),
{
    if text::chars_eq(inner, &text::chars_of("enable")) || text::chars_eq(
        inner,
        &text::chars_of("enabled yes"),
    ) {
        BlockState { enabled: true, ..st }
    } else if text::chars_eq(inner, &text::chars_of("disable")) || text::chars_eq(
        inner,
        &text::chars_of("enabled no"),
    ) {
        BlockState { enabled: false, ..st }
    } else if text::occurs_lit(inner, 0, "mode ") {
        let n = text::chars_of("mode ").len();
        let rest = text::copy_range(inner, n, inner.len());
        assert(rest@ =~= inner@.skip("mode "@.len() as int));
        match grammar::parse_mode_string_exec(&rest) {
            Some(m) => BlockState { mode: m, ..st },
            None => st,
        }
    } else if text::occurs_lit(inner, 0, "position ") {
        let n = text::chars_of("position ").len();
        let rest = text::copy_range(inner, n, inner.len());
        assert(rest@ =~= inner@.skip("position "@.len() as int));
        match grammar::parse_position_exec(&rest) {
            Some((x, y)) => BlockState { pos_x: x, pos_y: y, ..st },
            None => st,
        }
    } else if text::occurs_lit(inner, 0, "pos ") {
        let n = text::chars_of("pos ").len();
        let rest = text::copy_range(inner, n, inner.len());
        assert(rest@ =~= inner@.skip("pos "@.len() as int));
        match grammar::parse_space_position_exec(&rest) {
            Some((x, y)) => BlockState { pos_x: x, pos_y: y, ..st },
            None => st,
        }
    } else if text::occurs_lit(inner, 0, "scale ") {
        let n = text::chars_of("scale ").len();
        let rest = text::copy_range(inner, n, inner.len());
        assert(rest@ =~= inner@.skip("scale "@.len() as int));
        match text::decimal_milli_exec(&text::trimmed(&rest)) {
            Some(v) => BlockState { scale_milli: v, ..st },
            None => st,
        }
    } else {
        st
    }
}

/// The lines of a block-style declaration from `start` to its `}` (see
/// `block_scan`).
pub fn block_scan_exec(ls: &Vec<Vec<char>>, start: usize) -> (r: (usize, BlockState))
    requires
        start <= ls@.len(),
    ensures
        r.0 == block_scan(text::views(ls@), start as int, block_default()).0,
        r.1 == block_scan(text::views(ls@), start as int, block_default()).1,
        start <= r.0 <= ls@.len(),
{
    let ghost lv = text::views(ls@);
    let mut st = BlockState {
        enabled: true,
        mode: OutputMode { width: 1920, height: 1080, refresh_mhz: 60_000 },
        pos_x: 0,
        pos_y: 0,
        scale_milli: 1000,
    };
    let mut i: usize = start;
    while i < ls.len()
        invariant
            start <= i <= ls@.len(),
            lv == text::views(ls@),
            block_scan(lv, start as int, block_default()) == block_scan(lv, i as int, st),
        decreases ls.len() - i,
    {
        let inner = text::trimmed(&ls[i]);
        assert(inner@ == trim(lv[i as int]));
        if text::chars_eq(&inner, &text::chars_of("}")) {
            return (i, st);
        }
        st = block_step_exec(&inner, st);
        i = i + 1;
    }
    (i, st)
}

pub fn opt_string(o: Option<Vec<char>>) -> (r: Option<String>)
    ensures
        model::opt_view(r) == opt_chars(o),
{
    match o {
        Some(v) => Some(text::string_of(&v)),
        None => None,
    }
}

/// A screen with the given settings (see `screen_view`).
pub fn make_screen(
    id: &Vec<char>,
    enabled: bool,
    mode: OutputMode,
    x: i32,
    y: i32,
    scale: i64,
    mirrors: &Vec<(Vec<char>, Vec<char>)>,
) -> (r: ScreenConfig)
    ensures
        r@ == screen_view(id@, enabled, mode, x, y, scale, entries_view(mirrors@)),
{
    let target = lookup_exec(mirrors, id);
    let mut modes: Vec<OutputMode> = Vec::new();
    modes.push(mode);
    let r = ScreenConfig {
        id: text::string_of(id),
        connector_name: text::string_of(id),
        enabled,
        selected_mode: mode,
        available_modes: modes,
        scale_milli: scale,
        pos_x: x,
        pos_y: y,
        mirror: target.is_some(),
        mirror_target: opt_string(target),
    };
    assert(r.available_modes@ =~= seq![mode]);
    r
}

pub fn inline_mode_exec(line: &Vec<char>, m: &InlineMatch) -> (r: OutputMode)
    requires
        grammar::inline_spans_ok(*m, line@.len() as int),
    ensures
        r == inline_mode(line@, *m),
{
    match m.mode {
        Some(ms) => {
            let w = text::digits_u32_exec(&text::copy_range(line, ms.width.lo, ms.width.hi));
            let h = text::digits_u32_exec(&text::copy_range(line, ms.height.lo, ms.height.hi));
            OutputMode {
                width: match w {
                    Some(v) => v,
                    None => 1920,
                },
                height: match h {
                    Some(v) => v,
                    None => 1080,
                },
                refresh_mhz: grammar::refresh_or_default_exec(line, ms.refresh),
            }
        },
        None => OutputMode { width: 1920, height: 1080, refresh_mhz: 60_000 },
    }
}

pub open spec fn opt_screen(o: Option<ScreenConfig>) -> Option<ScreenView> {
    match o {
        Some(c) => Some(c@),
        None => None,
    }
}

/// The screen an inline declaration describes (see `inline_screen`).
pub fn inline_screen_exec(
    line: &Vec<char>,
    m: &InlineMatch,
    aliases: &Vec<(Vec<char>, Vec<char>)>,
    mirrors: &Vec<(Vec<char>, Vec<char>)>,
) -> (r: Option<ScreenConfig>)
    requires
        grammar::inline_spans_ok(*m, line@.len() as int),
    ensures
        opt_screen(r) == inline_screen(line@, *m, entries_view(aliases@), entries_view(mirrors@)),
{
    let tok = text::copy_range(line, m.token.lo, m.token.hi);
    let u = match grammar::unquote_exec(&tok) {
        Some(u) => u,
        None => return None,
    };
    let id = resolve_alias(u, aliases);
    let mode = inline_mode_exec(line, m);
    let x: i32 = match m.position {
        Some((a, _)) => match text::parse_i32_exec(&text::copy_range(line, a.lo, a.hi)) {
            Some(v) => v,
            None => 0,
        },
        None => 0,
    };
    let y: i32 = match m.position {
        Some((_, b)) => match text::parse_i32_exec(&text::copy_range(line, b.lo, b.hi)) {
            Some(v) => v,
            None => 0,
        },
        None => 0,
    };
    let scale: i64 = match m.scale {
        Some(sp) => match text::decimal_milli_exec(&text::copy_range(line, sp.lo, sp.hi)) {
            Some(v) => v,
            None => 1000,
        },
        None => 1000,
    };
    Some(make_screen(&id, m.enabled, mode, x, y, scale, mirrors))
}

/// What line `i` of a profile body contributes (see `body_step`).
pub fn body_step_exec(
    ls: &Vec<Vec<char>>,
    i: usize,
    aliases: &Vec<(Vec<char>, Vec<char>)>,
    mirrors: &Vec<(Vec<char>, Vec<char>)>,
) -> (r: Option<(Option<ScreenConfig>, usize)>)
    requires
        i < ls@.len(),
    ensures
        match r {
            Some((sc, j)) => body_step(
                text::views(ls@),
                i as int,
                entries_view(aliases@),
                entries_view(mirrors@),
            ) == Some(
                (
                    match sc {
                        Some(c) => seq![c@],
                        None => Seq::<ScreenView>::empty(),
                    },
                    j as int,
                ),
            ) && i < j <= ls@.len(),
            None => body_step(
                text::views(ls@),
                i as int,
                entries_view(aliases@),
                entries_view(mirrors@),
            ) is None,
        },
{
    let ghost lv = text::views(ls@);
    let n = ls.len();
    assert(i + 1 <= n);
    let line = text::trimmed(&ls[i]);
    assert(line@ == trim(lv[i as int]));
    if line.len() == 0 || text::occurs_lit(&line, 0, "#") || text::occurs_lit(&line, 0, "exec ") {
        return Some((None, i + 1));
    }
    if let Some(m) = grammar::inline_line_exec(&line) {
        return match inline_screen_exec(&line, &m, aliases, mirrors) {
            None => None,
            Some(sc) => Some((Some(sc), i + 1)),
        };
    }
    if text::occurs_lit(&line, 0, "output ") && line.len() > 0 && line[line.len() - 1] == '{' {
        match grammar::unquote_exec(&grammar::block_token_exec(&line)) {
            None => None,
            Some(u) => {
                let id = resolve_alias(u, aliases);
                let (j, st) = block_scan_exec(ls, i + 1);
                let sc = make_screen(
                    &id,
                    st.enabled,
                    st.mode,
                    st.pos_x,
                    st.pos_y,
                    st.scale_milli,
                    mirrors,
                );
                let next = if j < ls.len() {
                    j + 1
                } else {
                    ls.len()
                };
                Some((Some(sc), next))
            },
        }
    } else {
        Some((None, i + 1))
    }
}

/// The screens declared in a profile body's lines (see `body_scan`).
pub fn body_scan_exec(
    ls: &Vec<Vec<char>>,
    aliases: &Vec<(Vec<char>, Vec<char>)>,
    mirrors: &Vec<(Vec<char>, Vec<char>)>,
) -> (r: Option<Vec<ScreenConfig>>)
    ensures
        match r {
            Some(v) => body_scan(text::views(ls@), 0, entries_view(aliases@), entries_view(mirrors@))
                == Some(model::screen_views(v@)),
            None => body_scan(
                text::views(ls@),
                0,
                entries_view(aliases@),
                entries_view(mirrors@),
            ) is None,
        },
{
    let ghost lv = text::views(ls@);
    let ghost al = entries_view(aliases@);
    let ghost mi = entries_view(mirrors@);
    let mut out: Vec<ScreenConfig> = Vec::new();
    let mut i: usize = 0;
    while i < ls.len()
        invariant
            i <= ls@.len(),
            lv == text::views(ls@),
            al == entries_view(aliases@),
            mi == entries_view(mirrors@),
            body_scan(lv, 0, al, mi) == prepend_opt(model::screen_views(out@), body_scan(lv, i as int, al, mi)),
        decreases ls.len() - i,
    {
        let ghost before = model::screen_views(out@);
        match body_step_exec(ls, i, aliases, mirrors) {
            None => {
                return None;
            },
            Some((sc, j)) => {
                let ghost here = match opt_screen(sc) {
                    Some(c) => seq![c],
                    None => Seq::<ScreenView>::empty(),
                };
                match sc {
                    Some(c) => {
                        out.push(c);
                    },
                    None => {},
                }
                proof {
                    assert(model::screen_views(out@) =~= before + here);
                    let rest = body_scan(lv, j as int, al, mi);
                    match rest {
                        Some(x) => {
                            assert(before + (here + x) =~= model::screen_views(out@) + x);
                        },
                        None => {},
                    }
                }
                i = j;
            },
        }
    }
    assert(body_scan(lv, i as int, al, mi) == Some(Seq::<ScreenView>::empty()));
    assert(model::screen_views(out@) + Seq::<ScreenView>::empty() =~= model::screen_views(out@));
    Some(out)
}

/// The screens that a profile body declares, aliases resolved and mirror
/// comments applied (see `body_screens`); `None` where an output token is a
/// lone quote character.
pub fn parse_profile_body(body: &Vec<char>, aliases: &Vec<(Vec<char>, Vec<char>)>) -> (r: Option<
    Vec<ScreenConfig>,
>)
    ensures
        match r {
            Some(v) => body_screens(body@, entries_view(aliases@)) == Some(model::screen_views(v@)),
            None => body_screens(body@, entries_view(aliases@)) is None,
        },
        r matches Some(v) ==> forall|k: int|
            0 <= k < v@.len() ==> read_shape(#[trigger] v@[k]@, mirror_entries(lines(body@))),
{
    let bl = text::lines_of(body);
    let mirrors = mirror_entries_exec(&bl);
    let r = body_scan_exec(&bl, aliases, &mirrors);
    proof {
        if r is Some {
            let v = r->0;
            assert forall|k: int| 0 <= k < v@.len() implies read_shape(
                #[trigger] v@[k]@,
                mirror_entries(lines(body@)),
            ) by {
                let w = model::screen_views(v@);
                assert(w.len() == v@.len());
                assert(w[k] == v@[k]@);
                lemma_body_scan_shape(
                    lines(body@),
                    0,
                    entries_view(aliases@),
                    mirror_entries(lines(body@)),
                );
                let bsc = body_scan(lines(body@), 0, entries_view(aliases@), mirror_entries(lines(body@)));
                assert(bsc->0 == w);
                assert(bsc->0[k] == w[k]);
                assert(read_shape(bsc->0[k], mirror_entries(lines(body@))));
            }
        }
    }
    r
}

/// The first profile header at a line start at or after `from` (see
/// `header_from`).
pub fn header_from_exec(s: &Vec<char>, from: usize) -> (r: Option<(usize, Span, usize)>)
    requires
        from <= s@.len(),
    ensures
        match r {
            Some((p, sp, b)) => header_from(s@, from as int) == Some((p as int, sp, b as int)),
            None => header_from(s@, from as int) is None,
        },
{
    let mut p: usize = from;
    while p <= s.len()
        invariant
            from <= p <= s@.len() + 1,
            header_from(s@, from as int) == header_from(s@, p as int),
        decreases s.len() + 1 - p,
    {
        let at_start = p == 0 || s[p - 1] == '\n';
        match grammar::header_at_exec(s, p) {
            Some((sp, b)) => {
                if at_start {
                    return Some((p, sp, b));
                }
            },
            None => {},
        }
        assert(header_from(s@, p as int) == header_from(s@, p + 1));
        if p == s.len() {
            assert(header_from(s@, p + 1) is None);
            return None;
        }
        p = p + 1;
    }
    None
}

/// The index of the `}` closing the brace at `open` (see `brace_close`).
pub fn find_matching_brace(s: &Vec<char>, open: usize) -> (r: Option<usize>)
    ensures
        open >= s@.len() ==> r is None,
        open < s@.len() && s@[open as int] == '{' ==> grammar::oi(r) == first_balance(
            s@,
            open as int,
            open + 1,
        ),
        grammar::oi(r) == brace_close(s@, open as int, 0),
        r matches Some(e) ==> open <= e < s@.len() && s@[e as int] == '}',
{
    if open >= s.len() {
        return None;
    }
    proof {
        if s@[open as int] == '{' {
            lemma_matching_brace(s@, open as int);
        }
    }
    let mut depth: usize = 0;
    let mut i: usize = open;
    while i < s.len()
        invariant
            open <= i <= s@.len(),
            depth <= i - open,
            brace_close(s@, open as int, 0) == brace_close(s@, i as int, depth as int),
            open < s@.len() && s@[open as int] == '{' ==> brace_close(s@, open as int, 0)
                == first_balance(s@, open as int, open + 1),
        decreases s.len() - i,
    {
        if s[i] == '{' {
            depth = depth + 1;
        } else if s[i] == '}' {
            if depth <= 1 {
                return Some(i);
            }
            depth = depth - 1;
        }
        i = i + 1;
    }
    None
}

/// Each profile carries a range `a..b` of the text, `a < b <= n`.
pub open spec fn ranges_ok(ps: Seq<Profile>, n: int) -> bool {
    forall|i: int|
        0 <= i < ps.len() ==> ((#[trigger] ps[i]).raw_range matches Some((a, b)) && a < b <= n)
}

/// The profile a header gives (see `profile_at`).
pub fn profile_at_exec(
    s: &Vec<char>,
    p: usize,
    sp: Span,
    b: usize,
    aliases: &Vec<(Vec<char>, Vec<char>)>,
) -> (r: Option<Option<Profile>>)
    requires
        sp.lo <= sp.hi <= b < s@.len(),
        p <= b,
        s@[b as int] == '{',
        text::byte_offset(s@, s@.len() as int) <= usize::MAX,
    ensures
        match r {
            Some(Some(pr)) => profile_at(s@, p as int, sp, b as int, entries_view(aliases@)) == Some(
                seq![pr@],
            ),
            Some(None) => profile_at(s@, p as int, sp, b as int, entries_view(aliases@)) == Some(
                Seq::<ProfileView>::empty(),
            ),
            None => profile_at(s@, p as int, sp, b as int, entries_view(aliases@)) is None,
        },
        r matches Some(Some(pr)) ==> pr.raw_range matches Some((a, c)) && a < c
            <= text::byte_offset(s@, s@.len() as int),
{
    let n = s.len();
    match find_matching_brace(s, b) {
        None => Some(None),
        Some(e) => {
            assert(e + 1 <= n);
            let name = match grammar::unquote_exec(&text::copy_range(s, sp.lo, sp.hi)) {
                Some(n) => n,
                None => return None,
            };
            let body = text::copy_range(s, b + 1, e);
            let screens = match parse_profile_body(&body, aliases) {
                Some(v) => v,
                None => return None,
            };
            proof {
                text::lemma_byte_offset_mono(s@, p as int, e + 1);
                text::lemma_byte_offset_mono(s@, e + 1, s@.len() as int);
            }
            let from = text::byte_offset_exec(s, p);
            let to = text::byte_offset_exec(s, e + 1);
            Some(Some(Profile { name: text::string_of(&name), screens, raw_range: Some((from, to)) }))
        },
    }
}

/// The profiles of the configuration `s`, the aliases already read (see
/// `profiles_from`).
pub fn profiles_exec(s: &Vec<char>, aliases: &Vec<(Vec<char>, Vec<char>)>) -> (r: Option<
    Vec<Profile>,
>)
    requires
        text::byte_offset(s@, s@.len() as int) <= usize::MAX,
    ensures
        match r {
            Some(v) => profiles_from(s@, 0, entries_view(aliases@)) == Some(
                model::profile_views(v@),
            ),
            None => profiles_from(s@, 0, entries_view(aliases@)) is None,
        },
        r matches Some(v) ==> ranges_ok(v@, text::byte_offset(s@, s@.len() as int)),
{
    let ghost al = entries_view(aliases@);
    let mut out: Vec<Profile> = Vec::new();
    let mut from: usize = 0;
    while from <= s.len()
        invariant
            from <= s@.len() + 1,
            al == entries_view(aliases@),
            profiles_from(s@, 0, al) == prepend_opt(model::profile_views(out@), profiles_from(s@, from as int, al)),
            ranges_ok(out@, text::byte_offset(s@, s@.len() as int)),
            text::byte_offset(s@, s@.len() as int) <= usize::MAX,
        decreases s.len() + 1 - from,
    {
        let ghost before = model::profile_views(out@);
        let (p, sp, b) = match header_from_exec(s, from) {
            Some(h) => h,
            None => {
                assert(profiles_from(s@, from as int, al) == Some(Seq::<ProfileView>::empty()));
                assert(before + Seq::<ProfileView>::empty() =~= before);
                return Some(out);
            },
        };
        proof {
            lemma_header_from(s@, from as int);
            lemma_header_at(s@, p as int);
        }
        let h = header_line_start_exec(s, p);
        let ghost here = profile_at(s@, h as int, sp, b as int, al);
        let ghost old_out = out@;
        match profile_at_exec(s, h, sp, b, aliases) {
            None => {
                return None;
            },
            Some(Some(pr)) => {
                out.push(pr);
                assert(forall|i: int| 0 <= i < out@.len() - 1 ==> out@[i] == old_out[i]);
                proof {
                    assert(model::profile_views(out@) =~= before + here->0);
                    let rest = profiles_from(s@, b + 1, al);
                    match rest {
                        Some(x) => {
                            assert(before + (here->0 + x) =~= model::profile_views(out@) + x);
                        },
                        None => {},
                    }
                }
            },
            Some(None) => {
                proof {
                    assert(model::profile_views(out@) =~= before + here->0);
                    let rest = profiles_from(s@, b + 1, al);
                    match rest {
                        Some(x) => {
                            assert(before + (here->0 + x) =~= model::profile_views(out@) + x);
                        },
                        None => {},
                    }
                }
            },
        }
        from = b + 1;
    }
    assert(profiles_from(s@, from as int, al) == Some(Seq::<ProfileView>::empty()));
    assert(model::profile_views(out@) + Seq::<ProfileView>::empty() =~= model::profile_views(out@));
    Some(out)
}

/// The output aliases that a configuration text defines, inline or in
/// blocks, in order (see `config_aliases`); `None` where a criteria token is
/// a lone quote character.
pub fn parse_output_aliases(content: &Vec<char>) -> (r: Option<Vec<(Vec<char>, Vec<char>)>>)
    ensures
        match r {
            Some(v) => config_aliases(content@) == Some(entries_view(v@)),
            None => config_aliases(content@) is None,
        },
{
    let n: usize = content.len();
    let ls = text::lines_of(content);
    proof {
        text::lemma_lines_from_len(content@, 0);
        assert(text::sum_lens(text::views(ls@)) <= n);
    }
    alias_scan_exec(&ls)
}

/// Reads the profiles of a kanshi configuration text: each named profile
/// block with the screens its inline and block-style output declarations
/// describe, aliases resolved (see `parse_profiles_spec`). `None` exactly
/// where the reading would take the inside of a lone quote character, which
/// has none.
pub fn parse_profiles(content: &str) -> (r: Option<Vec<Profile>>)
    ensures
        match r {
            Some(v) => parse_profiles_spec(content@) == Some(model::profile_views(v@)),
            None => parse_profiles_spec(content@) is None,
        },
        r matches Some(v) ==> ranges_ok(v@, text::byte_offset(content@, content@.len() as int)),
{
    let s = text::chars_of(content);
    let nbytes = content.as_bytes().len();
    proof {
        assert(content@.take(content@.len() as int) =~= content@);
        assert(text::byte_offset(s@, s@.len() as int) == nbytes);
    }
    let aliases = match parse_output_aliases(&s) {
        Some(a) => a,
        None => return None,
    };
    profiles_exec(&s, &aliases)
}

} // verus!





