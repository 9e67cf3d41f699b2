use gamemaster::game::{
    handle_key, image_scale, text_scroll, visual_row_count, Action, Game, InputEvent, KeyCode, KeyMods,
    KeyPress, StyledLine, WinSize, MILLI,
};
use gamemaster::protocol::{StyledSpan, Weight};
use gamemaster::shell::Shell;

fn key(code: KeyCode, modifiers: KeyMods) -> KeyPress {
    KeyPress { code, modifiers }
}

fn window() -> WinSize {
    WinSize { rows: 40, cols: 100, xpixel: 1000, ypixel: 800 }
}

fn line(text: &str) -> StyledLine {
    StyledLine { spans: vec![StyledSpan { text: text.to_string(), weight: Weight::Inherit }], echo: false }
}

fn texts(g: &Game) -> Vec<String> {
    g.text_lines.iter().map(|l| l.spans.iter().map(|s| s.text.as_str()).collect::<String>()).collect()
}

#[test]
fn keys_edit_the_command_line() {
    let mut s = Shell::new();
    assert_eq!(handle_key(&mut s, &key(KeyCode::Char('a'), KeyMods::NoModifiers)), Action::Idle);
    assert_eq!(handle_key(&mut s, &key(KeyCode::Char('B'), KeyMods::Shift)), Action::Idle);
    assert_eq!(s.command(), "aB");
    assert_eq!(handle_key(&mut s, &key(KeyCode::Left, KeyMods::NoModifiers)), Action::Idle);
    assert_eq!(s.xpos(), 1);
    assert_eq!(handle_key(&mut s, &key(KeyCode::Right, KeyMods::NoModifiers)), Action::Idle);
    assert_eq!(s.xpos(), 2);
    assert_eq!(handle_key(&mut s, &key(KeyCode::Backspace, KeyMods::NoModifiers)), Action::Idle);
    assert_eq!(s.command(), "a");
    assert_eq!(handle_key(&mut s, &key(KeyCode::Enter, KeyMods::NoModifiers)), Action::Enter);
    assert_eq!(s.command(), "a");
}

#[test]
fn control_keys() {
    let mut s = Shell::new();
    assert_eq!(handle_key(&mut s, &key(KeyCode::Char('c'), KeyMods::Control)), Action::Break);
    assert_eq!(handle_key(&mut s, &key(KeyCode::Char('x'), KeyMods::Control)), Action::Idle);
    assert_eq!(handle_key(&mut s, &key(KeyCode::Char('c'), KeyMods::Other)), Action::Idle);
    assert_eq!(handle_key(&mut s, &key(KeyCode::Other, KeyMods::NoModifiers)), Action::Idle);
    assert_eq!(s.command(), "");
    assert_eq!(handle_key(&mut s, &key(KeyCode::Char('c'), KeyMods::NoModifiers)), Action::Idle);
    assert_eq!(s.command(), "c");
}

#[test]
fn row_counts() {
    assert_eq!(visual_row_count("", 10), 1);
    assert_eq!(visual_row_count("abc", 0), 1);
    assert_eq!(visual_row_count("abcdefghij", 10), 1);
    assert_eq!(visual_row_count("abcdefghijk", 10), 2);
    assert_eq!(visual_row_count("ééé", 2), 2);
    assert_eq!(visual_row_count("abc", 1), 3);
}

#[test]
fn scroll_offsets() {
    let lines = vec![line("0123456789"), line("abc"), line(""), line("0123456789ABCDEFGHIJ")];
    // Rows at width 10: 1 + 1 + 1 + 2 = 5.
    assert_eq!(text_scroll(&lines, 10, 5), 0);
    assert_eq!(text_scroll(&lines, 10, 3), 2);
    assert_eq!(text_scroll(&lines, 10, 10), 0);
    // Width 0: every line is one row.
    assert_eq!(text_scroll(&lines, 0, 1), 3);
    assert_eq!(text_scroll(&Vec::new(), 10, 3), 0);
}

#[test]
fn scroll_counts_all_spans_of_a_line() {
    let l = StyledLine {
        spans: vec![
            StyledSpan { text: "abcd".to_string(), weight: Weight::Bold },
            StyledSpan { text: "efg".to_string(), weight: Weight::NotBold },
        ],
        echo: false,
    };
    assert_eq!(text_scroll(&vec![l], 3, 1), 2);
}

#[test]
fn scroll_is_capped() {
    let long = "x".repeat(70_000);
    assert_eq!(text_scroll(&vec![line(&long)], 1, 0), u16::MAX);
}

#[test]
fn scales() {
    assert_eq!(image_scale(160, 8), 3);
    assert_eq!(image_scale(160, 10), 4);
    assert_eq!(image_scale(480, 8), 1);
    assert_eq!(image_scale(100, 0), 1);
    assert_eq!(image_scale(1, 1), 60);
    assert_eq!(image_scale(0, 0), 1);
}

#[test]
fn new_session() {
    let g = Game::new(window(), 5);
    assert_eq!(g.cell_w, 10);
    assert_eq!(g.cell_h, 20);
    assert_eq!(g.margin, 4);
    assert_eq!(g.last_output, 5 + 500 * MILLI);
    assert!(!g.prompt_active);
    assert!(g.output.is_empty());
    assert!(g.text_lines.is_empty());
    assert_eq!((g.image_cols, g.image_rows), (0, 0));
    assert!(g.image_id.is_none());
    assert!(!g.image_dirty);
    assert_eq!(g.drawer.get_canvas_size(), (160, 96));
    let unknown = Game::new(WinSize { rows: 0, cols: 0, xpixel: 0, ypixel: 0 }, 0);
    assert_eq!((unknown.cell_w, unknown.cell_h), (8, 16));
}

#[test]
fn prompt_shows_after_quiet_period() {
    let mut g = Game::new(window(), 0);
    let start = g.last_output;
    g.tick(start + 100 * MILLI);
    assert!(!g.prompt_active);
    g.tick(start + 100 * MILLI + 1);
    assert!(g.prompt_active);
    g.tick(0);
    assert!(g.prompt_active);
    g.handle_line("Hello", start + 200 * MILLI);
    assert!(!g.prompt_active);
    assert_eq!(g.last_output, start + 200 * MILLI);
}

#[test]
fn text_lines_are_kept_and_noise_dropped() {
    let mut g = Game::new(window(), 0);
    g.handle_line("West of House", 1);
    g.handle_line("Loading map", 2);
    g.handle_line(">", 3);
    g.handle_line("A [b]white[/b] house.", 4);
    assert_eq!(texts(&g), vec!["West of House".to_string(), "A white house.".to_string()]);
    assert_eq!(g.text_lines[1].spans[1].weight, Weight::Bold);
    assert_eq!(g.text_lines[1].spans[2].weight, Weight::NotBold);
    assert!(!g.text_lines[0].echo);
    assert!(!g.image_dirty);
}

#[test]
fn drawing_lines_run_commands() {
    let mut g = Game::new(window(), 0);
    assert!(g.accepts_line("#[imgsize 8 8]"));
    g.handle_line("#[imgsize 8 8]", 1);
    assert_eq!(g.drawer.get_canvas_size(), (8, 8));
    assert!(g.image_dirty);
    g.image_dirty = false;
    g.handle_line("#[line 0 0 7 0 1]", 2);
    assert!(!g.image_dirty);
    assert_eq!(g.drawer.pcanvas.array[7], 1);
    g.handle_line("#[fill 0 1 2 0]", 3);
    assert!(g.image_dirty);
    assert_eq!(g.drawer.pcanvas.array[63], 2);
    assert!(g.text_lines.is_empty());
}

#[test]
fn line_word_anywhere_skips_redraw() {
    let mut g = Game::new(window(), 0);
    g.handle_line("#[clear] outline", 1);
    assert!(!g.image_dirty);
    g.handle_line("#[clear]", 2);
    assert!(g.image_dirty);
}

#[test]
fn refused_drawing_line() {
    let g = Game::new(window(), 0);
    assert!(!g.accepts_line("#[status no separator]"));
    assert!(g.accepts_line("#[status ::ok]"));
    assert!(g.accepts_line("no command here"));
}

#[test]
fn enter_sends_the_command() {
    let mut g = Game::new(window(), 0);
    for c in "go north".chars() {
        let ev = InputEvent::Key(key(KeyCode::Char(c), KeyMods::NoModifiers));
        assert!(g.accepts_event(ev));
        assert!(!g.handle_event(ev, 10));
    }
    g.prompt_active = true;
    assert!(!g.handle_event(InputEvent::Key(key(KeyCode::Enter, KeyMods::NoModifiers)), 20));
    assert_eq!(g.output, vec!["go north\n".to_string()]);
    assert_eq!(g.shell.command(), "");
    assert_eq!(texts(&g), vec!["> go north\n".to_string()]);
    assert!(g.text_lines[0].echo);
    assert!(!g.prompt_active);
    assert_eq!(g.last_output, 20);
}

#[test]
fn control_c_quits() {
    let mut g = Game::new(window(), 0);
    assert!(g.handle_event(InputEvent::Key(key(KeyCode::Char('c'), KeyMods::Control)), 1));
    assert!(!g.handle_event(InputEvent::Other, 1));
}

#[test]
fn resize_recomputes_cells() {
    let mut g = Game::new(window(), 0);
    let ev = InputEvent::Resize { cols: 50, rows: 0, window: window() };
    assert!(g.accepts_event(ev));
    assert!(!g.handle_event(ev, 1));
    assert_eq!(g.cell_w, 20);
    assert_eq!(g.cell_h, 20);
    assert!(g.image_dirty);
    let bad = InputEvent::Resize { cols: 0, rows: 0, window: WinSize { rows: 0, cols: 0, xpixel: 0, ypixel: 0 } };
    assert!(!g.accepts_event(bad));
}

#[test]
fn refresh_scales_the_canvas() {
    let mut g = Game::new(WinSize { rows: 10, cols: 10, xpixel: 80, ypixel: 160 }, 0);
    g.image_dirty = true;
    let f = g.refresh_image().expect("resize");
    // 160 pixels wide, cells 8 wide: scale 3 reaches 60 cells.
    assert_eq!((f.width, f.height), (480, 288));
    assert_eq!((g.image_cols, g.image_rows), (60, 18));
    assert!(!g.image_dirty);
}

#[test]
fn image_size_in_cells() {
    let mut g = Game::new(window(), 0);
    g.set_image_size(95, 45);
    assert_eq!((g.image_cols, g.image_rows), (9, 2));
}
