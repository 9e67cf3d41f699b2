//! The session state of the front end: the command line being typed, the drawing state, the
//! text received from the game program and the commands queued for it. Time is a count of
//! nanoseconds from a starting instant chosen by the caller.

use vstd::prelude::*;
use vstd::string::*;

use crate::drawer::{
    command_ok, command_result, drawer_wf, initial_drawer, nearest_resized, rgba_of, upscaled, Frame,
    ImageDrawer, RenderError,
};
use crate::protocol::{
    command_group, contains_str, contains_text, find_command, is_noise, noise_line, spans_view,
    styled_spans, styled_text, SpanView, StyledSpan, Weight,
};
use crate::shell::{after_del, after_go, after_insert, max_chars, Shell};
use crate::text::chars_of;

verus! {

/// Nanoseconds in a millisecond.
pub const MILLI: u64 = 1_000_000;

/// A line of the text pane: weighted spans, and whether it echoes a command typed by the user.
pub struct StyledLine {
    pub spans: Vec<StyledSpan>,
    pub echo: bool,
}

/// The abstract value of a `StyledLine`.
pub struct LineView {
    pub spans: Seq<SpanView>,
    pub echo: bool,
}

impl View for StyledLine {
    type V = LineView;

    open spec fn view(&self) -> LineView {
        LineView { spans: spans_view(self.spans@), echo: self.echo }
    }
}

/// The abstract values of `lines`.
pub open spec fn lines_view(lines: Seq<StyledLine>) -> Seq<LineView> {
    lines.map_values(|l: StyledLine| l@)
}

/// The texts of `strings`.
pub open spec fn strings_view(strings: Seq<String>) -> Seq<Seq<char>> {
    strings.map_values(|s: String| s@)
}

/// The keys the command line reacts to.
#[derive(Clone, Copy, PartialEq, Eq, Structural, Debug)]
pub enum KeyCode {
    Enter,
    Left,
    Right,
    Backspace,
    Char(char),
    Other,
}

/// The modifier keys held with a key: none, exactly Shift, exactly Control, or any other set.
#[derive(Clone, Copy, PartialEq, Eq, Structural, Debug)]
pub enum KeyMods {
    NoModifiers,
    Shift,
    Control,
    Other,
}

/// A key press.
#[derive(Clone, Copy, PartialEq, Eq, Structural, Debug)]
pub struct KeyPress {
    pub code: KeyCode,
    pub modifiers: KeyMods,
}

/// What a key press asks of the session.
#[derive(Clone, Copy, PartialEq, Eq, Structural, Debug)]
pub enum Action {
    Idle,
    Break,
    Enter,
}

/// Terminal size in cells and in pixels.
#[derive(Clone, Copy, PartialEq, Eq, Structural, Debug)]
pub struct WinSize {
    pub rows: u16,
    pub cols: u16,
    pub xpixel: u16,
    pub ypixel: u16,
}

/// An input event; a resize carries the terminal size read when it arrived.
#[derive(Clone, Copy, PartialEq, Eq, Structural, Debug)]
pub enum InputEvent {
    Resize { cols: u16, rows: u16, window: WinSize },
    Key(KeyPress),
    Other,
}

/// The key types a character on the command line: a plain or shifted character key that is
/// not Control-C.
pub open spec fn types_char(key: KeyPress) -> bool {
    key.code is Char && (key.modifiers == KeyMods::NoModifiers || key.modifiers == KeyMods::Shift)
}

/// The command line after `key`, and the action it asks for: Enter submits, Left and Right move
/// the cursor, Backspace deletes, Control-C breaks, a plain or shifted character is typed, and
/// every other key is ignored.
pub open spec fn key_result(sv: (Seq<char>, int), key: KeyPress) -> ((Seq<char>, int), Action) {
    match key.code {
        KeyCode::Enter => (sv, Action::Enter),
        KeyCode::Left => (after_go(sv, -1), Action::Idle),
        KeyCode::Right => (after_go(sv, 1), Action::Idle),
        KeyCode::Backspace => (after_del(sv), Action::Idle),
        KeyCode::Char(c) => if c == 'c' && key.modifiers == KeyMods::Control {
            (sv, Action::Break)
        } else if key.modifiers == KeyMods::NoModifiers || key.modifiers == KeyMods::Shift {
            (after_insert(sv, c), Action::Idle)
        } else {
            (sv, Action::Idle)
        },
        KeyCode::Other => (sv, Action::Idle),
    }
}

/// Applies `key` to the command line.
pub fn handle_key(shell: &mut Shell, key: &KeyPress) -> (a: Action)
    requires
        old(shell).wf(),
        types_char(*key) ==> old(shell)@.0.len() < max_chars(),
    ensures
        final(shell).wf(),
        (final(shell)@, a) == key_result(old(shell)@, *key),
{
    let m = key.modifiers;
    match key.code {
        KeyCode::Enter => {
            return Action::Enter;
        },
        KeyCode::Left => shell.go(-1),
        KeyCode::Right => shell.go(1),
        KeyCode::Backspace => shell.del(),
        KeyCode::Char(c) => {
            if c == 'c' && m == KeyMods::Control {
                return Action::Break;
            }
            if m == KeyMods::NoModifiers || m == KeyMods::Shift {
                shell.insert(c);
            }
        },
        KeyCode::Other => {},
    }
    Action::Idle
}

/// Number of rows a line of `n` characters takes when wrapped at `width` columns; one row for an
/// empty line or a zero width.
pub open spec fn visual_rows(n: nat, width: nat) -> nat {
    if width == 0 || n == 0 {
        1
    } else {
        n / width + if n % width == 0 { 0nat } else { 1nat }
    }
}

/// Estimate the number of visual rows a line occupies when word-wrapped to
/// `width` columns. Uses character count as a close approximation.
pub fn visual_row_count(line: &str, width: usize) -> (r: usize)
    ensures
        r == visual_rows(line@.len(), width as nat),
{
    if width == 0 {
        return 1;
    }
    let chars = line.unicode_len();
    if chars == 0 {
        return 1;
    }
    let q = chars / width;
    if chars % width == 0 {
        q
    } else {
        proof {
            if width == 1 {
                assert(chars % 1 == 0);
            }
            vstd::arithmetic::div_mod::lemma_div_is_ordered_by_denominator(chars as int, 2, width as int);
        }
        q + 1
    }
}

/// Number of characters of the spans `spans`.
pub open spec fn spans_chars(spans: Seq<SpanView>) -> nat
    decreases spans.len(),
{
    if spans.len() == 0 {
        0
    } else {
        spans_chars(spans.drop_last()) + spans.last().text.len()
    }
}

/// Rows the lines `lines` take when wrapped at `width` columns.
pub open spec fn total_rows(lines: Seq<LineView>, width: nat) -> nat
    decreases lines.len(),
{
    if lines.len() == 0 {
        0
    } else {
        total_rows(lines.drop_last(), width) + visual_rows(spans_chars(lines.last().spans), width)
    }
}

/// One more line adds its wrapped row count to the total, whatever its echo flag.
pub proof fn lemma_rows_push(lines: Seq<LineView>, l: LineView, width: nat)
    ensures
        total_rows(lines.push(l), width) == total_rows(lines, width) + visual_rows(spans_chars(l.spans), width),
{
    assert(lines.push(l).drop_last() =~= lines);
}

/// Every line takes at least one row.
pub proof fn lemma_rows_at_least_lines(lines: Seq<LineView>, width: nat)
    ensures
        total_rows(lines, width) >= lines.len(),
    decreases lines.len(),
{
    if lines.len() > 0 {
        lemma_rows_at_least_lines(lines.drop_last(), width);
        let n = spans_chars(lines.last().spans);
        if width > 0 && n > 0 {
            assert(n / width + (if n % width == 0 { 0nat } else { 1nat }) >= 1) by (nonlinear_arith)
                requires
                    width > 0,
                    n > 0,
            ;
        }
    }
}

/// The echo flags play no part in the row count: the lines count the same with every flag
/// cleared.
pub proof fn lemma_rows_ignore_echo(lines: Seq<LineView>, width: nat)
    ensures
        total_rows(lines, width) == total_rows(
            lines.map_values(|l: LineView| LineView { spans: l.spans, echo: false }),
            width,
        ),
    decreases lines.len(),
{
    let f = |l: LineView| LineView { spans: l.spans, echo: false };
    if lines.len() > 0 {
        lemma_rows_ignore_echo(lines.drop_last(), width);
        assert(lines.map_values(f).drop_last() =~= lines.drop_last().map_values(f));
        assert(lines.map_values(f).last() == f(lines.last()));
    }
}

/// How many rows of a text pane `height` rows high are scrolled away so that its last row shows
/// the end of the text (at most `u16::MAX`).
pub open spec fn scroll_for(total: nat, height: nat) -> nat {
    if total <= height {
        0
    } else if total - height > u16::MAX {
        u16::MAX as nat
    } else {
        (total - height) as nat
    }
}

/// The least of `a` and `b`.
pub open spec fn min_nat(a: nat, b: nat) -> nat {
    if a <= b {
        a
    } else {
        b
    }
}

/// Capping a line's characters at `c * w` caps its rows at `c`.
proof fn lemma_rows_cap(n: nat, w: nat, c: nat)
    requires
        w > 0,
        c >= 1,
    ensures
        visual_rows(min_nat(n, c * w), w) == min_nat(visual_rows(n, w), c),
{
    let k = c * w;
    assert(k >= w) by (nonlinear_arith)
        requires
            c >= 1,
            w > 0,
            k == c * w,
    ;
    vstd::arithmetic::div_mod::lemma_div_by_multiple(c as int, w as int);
    vstd::arithmetic::div_mod::lemma_mod_multiples_basic(c as int, w as int);
    if n <= k {
        if n > 0 {
            vstd::arithmetic::div_mod::lemma_div_is_ordered(n as int, k as int, w as int);
            if n % w != 0 {
                vstd::arithmetic::div_mod::lemma_div_by_multiple_is_strongly_ordered(n as int, k as int, c as int, w as int);
            }
        }
    } else {
        vstd::arithmetic::div_mod::lemma_div_is_ordered(k as int, n as int, w as int);
    }
}

/// Characters of a line, counted up to `cap`.
fn line_chars_capped(line: &StyledLine, cap: u64) -> (n: u64)
    ensures
        n == min_nat(spans_chars(line@.spans), cap as nat),
{
    let mut n: u64 = 0;
    let mut i: usize = 0;
    while i < line.spans.len()
        invariant
            i <= line.spans@.len(),
            n == min_nat(spans_chars(spans_view(line.spans@).take(i as int)), cap as nat),
        decreases line.spans@.len() - i,
    {
        let k = line.spans[i].text.as_str().unicode_len();
        proof {
            let sv = spans_view(line.spans@);
            assert(sv.take(i + 1).drop_last() =~= sv.take(i as int));
            assert(sv[i as int] == line.spans@[i as int]@);
        }
        if k as u64 >= cap - n {
            n = cap;
        } else {
            n = n + k as u64;
        }
        i = i + 1;
    }
    proof {
        assert(spans_view(line.spans@).take(i as int) =~= spans_view(line.spans@));
    }
    n
}

/// The scroll offset of the text pane `width` by `height` showing `lines`, see `scroll_for`.
pub fn text_scroll(lines: &Vec<StyledLine>, width: u16, height: u16) -> (r: u16)
    ensures
        r == scroll_for(total_rows(lines_view(lines@), width as nat), height as nat),
{
    // Past `cap` rows the offset no longer depends on the count, so counts stop there.
    let cap: u64 = height as u64 + 0x10000;
    let w = width as u64;
    assert(cap * w <= 0x20000 * 0x10000) by (nonlinear_arith)
        requires
            cap <= 0x20000,
            w <= 0x10000,
    ;
    let char_cap: u64 = if w == 0 { 1 } else { cap * w };
    let mut total: u64 = 0;
    let mut i: usize = 0;
    while i < lines.len()
        invariant
            i <= lines@.len(),
            w == width,
            cap == height + 0x10000,
            char_cap == if w == 0 { 1 } else { cap * w },
            total == min_nat(total_rows(lines_view(lines@).take(i as int), width as nat), cap as nat),
        decreases lines@.len() - i,
    {
        let n = line_chars_capped(&lines[i], char_cap);
        let ghost full = spans_chars(lines@[i as int]@.spans);
        let rows: u64 = if w == 0 || n == 0 {
            1
        } else {
            proof {
                vstd::arithmetic::div_mod::lemma_div_is_ordered(n as int, (cap * w) as int, w as int);
                vstd::arithmetic::div_mod::lemma_div_by_multiple(cap as int, w as int);
            }
            n / w + if n % w == 0 { 0 } else { 1 }
        };
        proof {
            let lv = lines_view(lines@);
            assert(lv.take(i + 1).drop_last() =~= lv.take(i as int));
            assert(lv[i as int] == lines@[i as int]@);
            if w > 0 {
                lemma_rows_cap(full, w as nat, cap as nat);
            }
            assert(rows == min_nat(visual_rows(full, width as nat), cap as nat));
        }
        if total + rows >= cap {
            total = cap;
        } else {
            total = total + rows;
        }
        i = i + 1;
    }
    proof {
        assert(lines_view(lines@).take(i as int) =~= lines_view(lines@));
    }
    let h = height as u64;
    if total <= h {
        0
    } else if total - h > 0xFFFF {
        0xFFFF
    } else {
        (total - h) as u16
    }
}

/// The smallest scale, at least 1, at which an image `w` pixels wide spans at least 60
/// terminal cells of `cell_w` pixels.
pub open spec fn scale_for(w: nat, cell_w: nat, s: nat) -> bool {
    &&& s >= 1
    &&& w * s >= 60 * cell_w
    &&& s == 1 || w * (s - 1) < 60 * cell_w
}

/// The scale at which the canvas is shown: the least one reaching 60 terminal cells.
pub fn image_scale(w: u32, cell_w: u16) -> (s: u32)
    requires
        w > 0 || cell_w == 0,
    ensures
        scale_for(w as nat, cell_w as nat, s as nat),
{
    let target: u32 = 60 * cell_w as u32;
    let mut scale: u32 = 1;
    while w * scale < target
        invariant
            target == 60 * cell_w,
            target <= 60 * 0xFFFF,
            scale >= 1,
            w > 0 || target == 0,
            scale == 1 || (w <= target && w * scale <= 2 * target),
            scale == 1 || w * (scale - 1) < target,
        decreases target - w * (scale - 1),
    {
        proof {
            assert(w * (scale + 1) == w * scale + w) by (nonlinear_arith);
            assert(w <= w * scale) by (nonlinear_arith)
                requires
                    scale >= 1,
            ;
            assert(scale <= w * scale) by (nonlinear_arith)
                requires
                    w >= 1,
            ;
            assert(w * (scale - 1) == w * scale - w) by (nonlinear_arith);
        }
        scale = scale + 1;
    }
    scale
}

/// The front-end session.
pub struct Game {
    pub shell: Shell,
    pub drawer: ImageDrawer,
    pub prompt_active: bool,
    /// When the game program last printed, or the user last submitted a command.
    pub last_output: u64,
    /// Commands to send to the game program.
    pub output: Vec<String>,
    /// Accumulated text lines from the game program.
    pub text_lines: Vec<StyledLine>,
    /// Current image size in terminal cells (0 = no image yet).
    pub image_cols: u16,
    pub image_rows: u16,
    /// Identifier of the most recently transmitted image.
    pub image_id: Option<u32>,
    /// Set when a new image needs to be sent.
    pub image_dirty: bool,
    /// Terminal cell size in pixels.
    pub cell_w: u16,
    pub cell_h: u16,
    pub margin: u16,
}

impl Game {
    /// The session invariant: a consistent command line and drawer.
    pub open spec fn wf(&self) -> bool {
        self.shell.wf() && drawer_wf(self.drawer@)
    }

    /// The drawing command that the line `t` carries, if any.
    pub open spec fn line_command(t: Seq<char>) -> Seq<char> {
        match command_group(t) {
            Some((a, b)) => t.subrange(a, b),
            None => Seq::empty(),
        }
    }

    /// A new session in a terminal of size `window`, at time `now`. The cell size is the
    /// terminal's pixel size divided by its size in cells, 8 by 16 where that size is unknown;
    /// the last output counts as 500 ms after `now`, so the prompt shows no earlier than 600 ms
    /// after `now` (see `tick`).
    pub fn new(window: WinSize, now: u64) -> (g: Self)
        requires
            now + 500 * MILLI <= u64::MAX,
        ensures
            g.wf(),
            g.shell@ == (Seq::<char>::empty(), 0int),
            g.drawer@ == initial_drawer(),
            !g.prompt_active,
            g.last_output == now + 500 * MILLI,
            g.output@.len() == 0,
            g.text_lines@.len() == 0,
            g.image_cols == 0,
            g.image_rows == 0,
            g.image_id is None,
            !g.image_dirty,
            g.cell_w == if window.cols == 0 { 8 } else { window.xpixel / window.cols },
            g.cell_h == if window.rows == 0 { 16 } else { window.ypixel / window.rows },
            g.margin == 4,
    {
        let cell_w = if window.cols == 0 { 8 } else { window.xpixel / window.cols };
        let cell_h = if window.rows == 0 { 16 } else { window.ypixel / window.rows };
        Game {
            shell: Shell::new(),
            drawer: ImageDrawer::new(),
            prompt_active: false,
            last_output: now + 500 * MILLI,
            output: Vec::new(),
            text_lines: Vec::new(),
            image_cols: 0,
            image_rows: 0,
            image_id: None,
            image_dirty: false,
            cell_w,
            cell_h,
            margin: 4,
        }
    }

    /// At time `now`: the prompt shows once more than 100 ms have passed since the last output.
    pub fn tick(&mut self, now: u64)
        ensures
            final(self).prompt_active == (old(self).prompt_active || (now > old(self).last_output && now
                - old(self).last_output > 100 * MILLI)),
            final(self).last_output == old(self).last_output,
            final(self).shell == old(self).shell,
            final(self).drawer == old(self).drawer,
            final(self).output == old(self).output,
            final(self).text_lines == old(self).text_lines,
            final(self).image_dirty == old(self).image_dirty,
            final(self).image_cols == old(self).image_cols,
            final(self).image_rows == old(self).image_rows,
            final(self).image_id == old(self).image_id,
            final(self).cell_w == old(self).cell_w,
            final(self).cell_h == old(self).cell_h,
            final(self).margin == old(self).margin,
    {
        if !self.prompt_active && now.saturating_sub(self.last_output) > 100 * MILLI {
            self.prompt_active = true;
        }
    }

    /// Whether `handle_line` can take the line `text`: its drawing command, if it carries one,
    /// can be carried out (see `command_ok`).
    pub fn accepts_line(&self, text: &str) -> (r: bool)
        ensures
            r == (command_group(text@) is Some ==> command_ok(self.drawer@, Self::line_command(text@))),
    {
        let v = chars_of(text);
        match find_command(&v) {
            Some((a, b)) => self.drawer.accepts(text.substring_char(a, b)),
            None => true,
        }
    }

    /// Whether `handle_event` can take `ev`: a resize names a terminal with rows and columns,
    /// and a typed character still fits on the command line.
    pub fn accepts_event(&self, ev: InputEvent) -> (r: bool)
        requires
            self.wf(),
        ensures
            r == ((ev matches InputEvent::Resize { cols, rows, window } ==> (cols > 0 || window.cols > 0) && (rows
                > 0 || window.rows > 0)) && (ev matches InputEvent::Key(k) ==> (types_char(k) ==> self.shell@.0.len()
                < max_chars()))),
    {
        match ev {
            InputEvent::Resize { cols, rows, window } => (cols > 0 || window.cols > 0) && (rows > 0 || window.rows > 0),
            InputEvent::Key(k) => {
                let typed = match k.code {
                    KeyCode::Char(_) => k.modifiers == KeyMods::NoModifiers || k.modifiers == KeyMods::Shift,
                    _ => false,
                };
                !typed || self.shell.len() < (isize::MAX / 4) as usize
            },
            InputEvent::Other => true,
        }
    }

    /// Takes a line the game program printed at time `now`. A line carrying a drawing command
    /// `#[...]` runs it; the image needs sending again when the canvas changed, unless the line
    /// mentions `line` (incremental line drawing). Other lines are shown with their weight
    /// markers applied, except noise lines (see `is_noise`), which are dropped.
    pub fn handle_line(&mut self, text: &str, now: u64)
        requires
            old(self).wf(),
            command_group(text@) is Some ==> command_ok(old(self).drawer@, Self::line_command(text@)),
        ensures
            final(self).wf(),
            final(self).last_output == now,
            !final(self).prompt_active,
            final(self).shell == old(self).shell,
            final(self).output == old(self).output,
            final(self).image_cols == old(self).image_cols,
            final(self).image_rows == old(self).image_rows,
            final(self).cell_w == old(self).cell_w,
            final(self).cell_h == old(self).cell_h,
            final(self).image_id == old(self).image_id,
            final(self).margin == old(self).margin,
            command_group(text@) is Some ==> {
                let (d, changed) = command_result(old(self).drawer@, Self::line_command(text@));
                &&& final(self).drawer@ == d
                &&& lines_view(final(self).text_lines@) == lines_view(old(self).text_lines@)
                &&& final(self).image_dirty == (old(self).image_dirty || (changed && !contains_text(
                    text@,
                    "line"@,
                )))
            },
            command_group(text@) is None ==> {
                &&& final(self).drawer == old(self).drawer
                &&& final(self).image_dirty == old(self).image_dirty
                &&& lines_view(final(self).text_lines@) == if is_noise(text@) {
                    lines_view(old(self).text_lines@)
                } else {
                    lines_view(old(self).text_lines@).push(
                        LineView { spans: styled_spans(text@, 0, Weight::Inherit), echo: false },
                    )
                }
            },
    {
        self.last_output = now;
        self.prompt_active = false;
        let v = chars_of(text);
        match find_command(&v) {
            Some((a, b)) => {
                let cmd = text.substring_char(a, b);
                if !self.drawer.add_text_command(cmd) {
                    return;
                }
                if contains_str(&v, "line") {
                    return;
                }
                self.image_dirty = true;
            },
            None => {
                if !noise_line(&v) {
                    let spans = styled_text(text, &v);
                    let ghost before = self.text_lines@;
                    self.text_lines.push(StyledLine { spans, echo: false });
                    proof {
                        assert(lines_view(self.text_lines@) =~= lines_view(before).push(
                            LineView { spans: styled_spans(text@, 0, Weight::Inherit), echo: false },
                        ));
                    }
                }
            },
        }
    }

    /// Takes an input event at time `now`; returns whether the session should end.
    ///
    /// A resize recomputes the cell size from the terminal's pixel size and marks the image for
    /// sending. Keys edit the command line (see `key_result`); Enter queues the typed command,
    /// followed by a line feed, for the game program, echoes it as `> ` and the command in the
    /// text pane, and empties the command line; Control-C ends the session.
    pub fn handle_event(&mut self, ev: InputEvent, now: u64) -> (quit: bool)
        requires
            old(self).wf(),
            ev matches InputEvent::Resize { cols, rows, window } ==> (cols > 0 || window.cols > 0) && (rows > 0
                || window.rows > 0),
            ev matches InputEvent::Key(k) ==> (types_char(k) ==> old(self).shell@.0.len() < max_chars()),
        ensures
            final(self).wf(),
            final(self).drawer == old(self).drawer,
            final(self).image_cols == old(self).image_cols,
            final(self).image_rows == old(self).image_rows,
            final(self).image_id == old(self).image_id,
            final(self).margin == old(self).margin,
            match ev {
                InputEvent::Resize { cols, rows, window } => {
                    let c = if cols > 0 { cols } else { window.cols };
                    let r = if rows > 0 { rows } else { window.rows };
                    &&& !quit
                    &&& final(self).cell_w == window.xpixel / c
                    &&& final(self).cell_h == window.ypixel / r
                    &&& final(self).image_dirty
                    &&& final(self).shell == old(self).shell
                    &&& final(self).output == old(self).output
                    &&& final(self).text_lines == old(self).text_lines
                    &&& final(self).prompt_active == old(self).prompt_active
                    &&& final(self).last_output == old(self).last_output
                },
                InputEvent::Key(k) => {
                    let (sv, act) = key_result(old(self).shell@, k);
                    &&& quit == (act == Action::Break)
                    &&& final(self).cell_w == old(self).cell_w
                    &&& final(self).cell_h == old(self).cell_h
                    &&& final(self).image_dirty == old(self).image_dirty
                    &&& if act == Action::Enter {
                        let cmd = old(self).shell@.0 + "\n"@;
                        &&& final(self).shell@ == (Seq::<char>::empty(), 0int)
                        &&& strings_view(final(self).output@) == strings_view(old(self).output@).push(cmd)
                        &&& lines_view(final(self).text_lines@) == lines_view(old(self).text_lines@).push(
                            LineView {
                                spans: seq![SpanView { text: "> "@ + cmd, weight: Weight::Inherit }],
                                echo: true,
                            },
                        )
                        &&& !final(self).prompt_active
                        &&& final(self).last_output == now
                    } else {
                        &&& final(self).shell@ == sv
                        &&& final(self).output == old(self).output
                        &&& final(self).text_lines == old(self).text_lines
                        &&& final(self).prompt_active == old(self).prompt_active
                        &&& final(self).last_output == old(self).last_output
                    }
                },
                InputEvent::Other => {
                    &&& !quit
                    &&& final(self).shell == old(self).shell
                    &&& final(self).output == old(self).output
                    &&& final(self).text_lines == old(self).text_lines
                    &&& final(self).prompt_active == old(self).prompt_active
                    &&& final(self).last_output == old(self).last_output
                    &&& final(self).cell_w == old(self).cell_w
                    &&& final(self).cell_h == old(self).cell_h
                    &&& final(self).image_dirty == old(self).image_dirty
                },
            },
    {
        match ev {
            InputEvent::Resize { cols, rows, window } => {
                let c = if cols > 0 { cols } else { window.cols };
                let r = if rows > 0 { rows } else { window.rows };
                self.cell_w = window.xpixel / c;
                self.cell_h = window.ypixel / r;
                self.image_dirty = true;
                false
            },
            InputEvent::Key(key) => match handle_key(&mut self.shell, &key) {
                Action::Break => true,
                Action::Enter => {
                    let mut command = self.shell.command();
                    self.shell.clear();
                    command.append("\n");
                    let mut echo = String::from_str("> ");
                    echo.append(command.as_str());
                    let ghost lines_before = self.text_lines@;
                    let ghost out_before = self.output@;
                    let mut spans: Vec<StyledSpan> = Vec::new();
                    spans.push(StyledSpan { text: echo, weight: Weight::Inherit });
                    self.text_lines.push(StyledLine { spans, echo: true });
                    self.output.push(command);
                    self.prompt_active = false;
                    self.last_output = now;
                    proof {
                        assert(spans_view(spans@) =~= seq![SpanView { text: "> "@ + (old(self).shell@.0 + "\n"@), weight: Weight::Inherit }]);
                        assert(lines_view(self.text_lines@) =~= lines_view(lines_before).push(
                            LineView {
                                spans: seq![SpanView { text: "> "@ + (old(self).shell@.0 + "\n"@), weight: Weight::Inherit }],
                                echo: true,
                            },
                        ));
                        assert(strings_view(self.output@) =~= strings_view(out_before).push(old(self).shell@.0 + "\n"@));
                    }
                    false
                },
                Action::Idle => false,
            },
            InputEvent::Other => false,
        }
    }

    /// The canvas at the scale the terminal shows it (see `image_scale`), ready to be sent.
    /// Records the image's size in terminal cells and clears `image_dirty`.
    pub fn refresh_image(&mut self) -> (r: Result<Frame, RenderError>)
        requires
            old(self).wf(),
            old(self).cell_w > 0,
            old(self).cell_h > 0,
            old(self).drawer@.canvas.width > 0,
            forall|s: nat|
                scale_for(old(self).drawer@.canvas.width as nat, old(self).cell_w as nat, s) ==> {
                    let w = old(self).drawer@.canvas.width as int * s;
                    let h = old(self).drawer@.canvas.height as int * s;
                    w <= u32::MAX && h <= u32::MAX && w * h * 4 <= usize::MAX
                },
        ensures
            final(self).wf(),
            final(self).shell == old(self).shell,
            final(self).drawer == old(self).drawer,
            final(self).output == old(self).output,
            final(self).text_lines == old(self).text_lines,
            final(self).cell_w == old(self).cell_w,
            final(self).cell_h == old(self).cell_h,
            final(self).prompt_active == old(self).prompt_active,
            final(self).last_output == old(self).last_output,
            final(self).image_id == old(self).image_id,
            final(self).margin == old(self).margin,
            match r {
                Ok(f) => {
                    let d = old(self).drawer@;
                    &&& scale_for(d.canvas.width as nat, old(self).cell_w as nat, f.width as nat / d.canvas.width as nat)
                    &&& f.width == d.canvas.width as int * (f.width as int / d.canvas.width as int)
                    &&& f.height == d.canvas.height as int * (f.width as int / d.canvas.width as int)
                    &&& f.rgba@ == nearest_resized(rgba_of(d), d.canvas.width, d.canvas.height, f.width, f.height)
                    &&& d.canvas.height > 0 && f.height <= 0x100_0000 ==> f.rgba@ == upscaled(
                        rgba_of(d),
                        d.canvas.width as int,
                        d.canvas.height as int,
                        f.width as int / d.canvas.width as int,
                    )
                    &&& final(self).image_cols == (f.width / old(self).cell_w as u32) as u16
                    &&& final(self).image_rows == (f.height / old(self).cell_h as u32) as u16
                    &&& !final(self).image_dirty
                },
                Err(_) => false,
            },
    {
        let w = self.drawer.get_canvas_size().0;
        let scale = image_scale(w, self.cell_w);
        match self.drawer.get_scaled_image(scale) {
            Ok(f) => {
                proof {
                    vstd::arithmetic::div_mod::lemma_div_multiples_vanish(scale as int, w as int);
                    assert(w as int * scale as int == scale as int * w as int) by (nonlinear_arith);
                }
                self.set_image_size(f.width, f.height);
                self.image_dirty = false;
                Ok(f)
            },
            Err(e) => Err(e),
        }
    }

    /// Records the size in terminal cells of an image `width` by `height` pixels.
    pub fn set_image_size(&mut self, width: u32, height: u32)
        requires
            old(self).cell_w > 0,
            old(self).cell_h > 0,
        ensures
            final(self).image_cols == (width / old(self).cell_w as u32) as u16,
            final(self).image_rows == (height / old(self).cell_h as u32) as u16,
            final(self).shell == old(self).shell,
            final(self).drawer == old(self).drawer,
            final(self).output == old(self).output,
            final(self).text_lines == old(self).text_lines,
            final(self).cell_w == old(self).cell_w,
            final(self).cell_h == old(self).cell_h,
            final(self).image_dirty == old(self).image_dirty,
            final(self).prompt_active == old(self).prompt_active,
            final(self).last_output == old(self).last_output,
            final(self).image_id == old(self).image_id,
            final(self).margin == old(self).margin,
    {
        self.image_cols = (width / self.cell_w as u32) as u16;
        self.image_rows = (height / self.cell_h as u32) as u16;
    }
}

} // verus!
