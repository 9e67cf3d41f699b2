use gamemaster::drawer::{ImageDrawer, RenderError};

fn at(d: &ImageDrawer, x: u32, y: u32) -> u8 {
    d.pcanvas.array[(y * d.pcanvas.width + x) as usize]
}

#[test]
fn draw_filled_box_and_write_png() {
    let mut d = ImageDrawer::new();

    // 32x32 canvas, palette: 0 black bg, 1 white outline, 2 red fill.
    let cmds = [
        "imgsize 32 32",
        "setcolor 0 0",
        "setcolor 1 7",
        "setcolor 2 1",
        "clear",
        "line 5 5 25 5 1",
        "line 25 5 25 25 1",
        "line 25 25 5 25 1",
        "line 5 25 5 5 1",
        "fill 15 15 2 0",
    ];
    for c in cmds {
        assert!(d.accepts(c));
        d.add_text_command(c);
    }

    // Canvas sanity: corners are outline, interior is fill, outside is bg.
    assert_eq!(at(&d, 5, 5), 1, "top-left corner should be outline");
    assert_eq!(at(&d, 25, 25), 1, "bottom-right corner should be outline");
    assert_eq!(at(&d, 15, 15), 2, "interior should be flood-filled");
    assert_eq!(at(&d, 0, 0), 0, "outside box should remain background");

    let mut bytes: Vec<u8> = Vec::new();
    d.write_png(&mut bytes).expect("png write");
    assert!(bytes.len() > 8, "png should be non-empty");
    assert_eq!(&bytes[..8], b"\x89PNG\r\n\x1a\n", "png magic bytes");
}

#[test]
fn fresh_drawer() {
    let d = ImageDrawer::new();
    assert_eq!(d.get_canvas_size(), (160, 96));
    assert_eq!(d.pcanvas.array.len(), 160 * 96);
    assert!(d.pcanvas.array.iter().all(|&p| p == 0));
    assert_eq!(d.palette, vec![0u32; 64]);
    assert_eq!(d.colors, [0x000000, 0xFF0000, 0x30E830, 0xFFFF00, 0x0000FF, 0xA06800, 0x00FFFF, 0xFFFFFF]);
    assert!(d.bitmaps.is_empty());
    assert_eq!(d.get_statusbar(), ("", ""));
    let e = ImageDrawer::default();
    assert_eq!(e.get_canvas_size(), (160, 96));
    assert_eq!(e.palette, d.palette);
}

#[test]
fn parse_int_decimal() {
    assert_eq!(ImageDrawer::parse_int("42"), Some(42));
    assert_eq!(ImageDrawer::parse_int("-7"), Some(-7));
    assert_eq!(ImageDrawer::parse_int("+5"), Some(5));
    assert_eq!(ImageDrawer::parse_int("0"), Some(0));
    assert_eq!(ImageDrawer::parse_int("-0"), Some(0));
    assert_eq!(ImageDrawer::parse_int("9223372036854775807"), Some(i64::MAX));
    assert_eq!(ImageDrawer::parse_int("-9223372036854775807"), Some(-i64::MAX));
    assert_eq!(ImageDrawer::parse_int("-9223372036854775808"), Some(i64::MIN));
    assert_eq!(ImageDrawer::parse_int("-9223372036854775809"), None);
    assert_eq!(ImageDrawer::parse_int("-0x8000000000000000"), Some(i64::MIN));
    assert_eq!(ImageDrawer::parse_int("0x8000000000000000"), None);
    assert_eq!(ImageDrawer::parse_int("99999999999999999999999999"), None);
    assert_eq!(ImageDrawer::parse_int("9223372036854775808"), None);
}

#[test]
fn parse_int_prefixes() {
    assert_eq!(ImageDrawer::parse_int("0x1F"), Some(31));
    assert_eq!(ImageDrawer::parse_int("0XfF"), Some(255));
    assert_eq!(ImageDrawer::parse_int("0o17"), Some(15));
    assert_eq!(ImageDrawer::parse_int("0O7"), Some(7));
    assert_eq!(ImageDrawer::parse_int("0b101"), Some(5));
    assert_eq!(ImageDrawer::parse_int("0B11"), Some(3));
    assert_eq!(ImageDrawer::parse_int("-0x10"), Some(-16));
    assert_eq!(ImageDrawer::parse_int("+0b1"), Some(1));
}

#[test]
fn parse_int_rejects() {
    assert_eq!(ImageDrawer::parse_int(""), None);
    assert_eq!(ImageDrawer::parse_int("-"), None);
    assert_eq!(ImageDrawer::parse_int("+"), None);
    assert_eq!(ImageDrawer::parse_int("0x"), None);
    assert_eq!(ImageDrawer::parse_int("abc"), None);
    assert_eq!(ImageDrawer::parse_int("0b102"), None);
    assert_eq!(ImageDrawer::parse_int("12a"), None);
    // Only one sign, and only in front.
    assert_eq!(ImageDrawer::parse_int("--5"), None);
    assert_eq!(ImageDrawer::parse_int("+-5"), None);
    assert_eq!(ImageDrawer::parse_int("0x-10"), None);
    assert_eq!(ImageDrawer::parse_int("0x+10"), None);
}

#[test]
fn status_command() {
    let mut d = ImageDrawer::new();
    assert!(!d.add_text_command("status ::left side::right side"));
    assert_eq!(d.get_statusbar(), ("left side", "right side"));
    assert!(!d.add_text_command("status x::only"));
    assert_eq!(d.get_statusbar(), ("only", ""));
    assert!(!d.add_text_command("status ::a::b::c"));
    assert_eq!(d.get_statusbar(), ("a", "b"));
}

#[test]
fn status_without_separator_is_refused() {
    let d = ImageDrawer::new();
    assert!(!d.accepts("status nothing here"));
    assert!(d.accepts("status ::"));
}

#[test]
fn accepts_checks_arguments() {
    let d = ImageDrawer::new();
    assert!(d.accepts(""));
    assert!(d.accepts("line 1 2 3 4 5"));
    assert!(d.accepts("imgsize 10 10"));
    assert!(d.accepts("line --9223372036854775808 1 2 3 4"));
    assert!(d.accepts("line -9223372036854775808 1 2 3 4"));
    assert!(d.accepts("unknown whatever"));
    // Coordinates whose difference leaves the `i32` range cannot be drawn.
    assert!(!d.accepts("line -2000000000 0 2000000000 0 1"));
    assert!(d.accepts("line -2000000000 0 2000000000"));
}

#[test]
fn empty_and_unknown_commands() {
    let mut d = ImageDrawer::new();
    assert!(!d.add_text_command(""));
    assert!(!d.add_text_command("   "));
    assert!(!d.add_text_command("frobnicate 1 2"));
    assert_eq!(d.get_canvas_size(), (160, 96));
}

#[test]
fn imgsize_makes_blank_canvas() {
    let mut d = ImageDrawer::new();
    d.add_text_command("clear");
    assert!(d.add_text_command("imgsize 4 3"));
    assert_eq!(d.get_canvas_size(), (4, 3));
    assert_eq!(d.pcanvas.array, vec![0u8; 12]);
    // Too few arguments: nothing happens.
    assert!(!d.add_text_command("imgsize 8"));
    assert_eq!(d.get_canvas_size(), (4, 3));
}

#[test]
fn non_numeric_arguments_are_skipped() {
    let mut d = ImageDrawer::new();
    assert!(d.add_text_command("imgsize wide 6 tall 2"));
    assert_eq!(d.get_canvas_size(), (6, 2));
}

#[test]
fn setcolor_sets_opaque_palette_entry() {
    let mut d = ImageDrawer::new();
    assert!(d.add_text_command("setcolor 3 1"));
    assert_eq!(d.palette[3], 0xFF0000FF);
    assert!(d.add_text_command("setcolor 0 7"));
    assert_eq!(d.palette[0], 0xFFFFFFFF);
    // Out of range indices change nothing but still report a change.
    assert!(d.add_text_command("setcolor 64 1"));
    assert!(d.add_text_command("setcolor 1 8"));
    assert_eq!(d.palette[1], 0);
    assert_eq!(d.palette.len(), 64);
}

#[test]
fn line_and_fill_report_change() {
    let mut d = ImageDrawer::new();
    d.add_text_command("imgsize 4 4");
    assert!(d.add_text_command("line 0 0 3 0 2"));
    assert_eq!(at(&d, 3, 0), 2);
    assert!(d.add_text_command("line 0 0 3 0 5 9"));
    assert_eq!(at(&d, 3, 0), 2);
    assert!(d.add_text_command("fill 0 1 6 0"));
    assert_eq!(at(&d, 3, 3), 6);
    assert_eq!(at(&d, 0, 0), 2);
    assert!(!d.add_text_command("line 0 0 3"));
    assert!(!d.add_text_command("fill 1 1"));
    assert!(d.add_text_command("clear"));
    assert!(d.pcanvas.array.iter().all(|&p| p == 0));
}

#[test]
fn bitmap_commands() {
    let mut d = ImageDrawer::new();
    assert!(!d.add_text_command("img 7 2 2 0"));
    assert!(!d.add_text_command("pal 7 0xFF0000 0x00FF00"));
    assert!(!d.add_text_command("pixels 7 1 0 0 1"));
    let b = d.bitmaps.get(&7).expect("bitmap stored");
    assert_eq!((b.width, b.height), (2, 2));
    assert_eq!(b.palette, vec![0xFF0000, 0x00FF00]);
    assert_eq!(b.pixels, vec![1, 0, 0, 1]);
    assert!(d.add_text_command("bitmap 7"));
    assert_eq!(d.get_canvas_size(), (2, 2));
    assert_eq!(d.pcanvas.array, vec![1, 0, 0, 1]);
    assert_eq!(d.palette, vec![0xFF0000FF, 0x00FF00FF]);
    // Unknown bitmaps are ignored.
    assert!(!d.add_text_command("bitmap 8"));
    assert!(!d.add_text_command("pal 8 1 2"));
    assert!(!d.add_text_command("pixels 8 1 2"));
    assert!(d.bitmaps.get(&8).is_none());
    // `img` wants exactly four arguments.
    assert!(!d.add_text_command("img 9 1 1"));
    assert!(d.bitmaps.get(&9).is_none());
}

#[test]
fn bitmap_with_few_pixels() {
    let mut d = ImageDrawer::new();
    d.add_text_command("img 1 3 1 0");
    d.add_text_command("pixels 1 4");
    assert!(d.add_text_command("bitmap 1"));
    assert_eq!(d.pcanvas.array, vec![4, 0, 0]);
}

#[test]
fn image_colours_through_palette() {
    let mut d = ImageDrawer::new();
    d.add_text_command("imgsize 2 1");
    d.add_text_command("setcolor 1 1");
    d.add_text_command("line 1 0 1 0 1");
    let f = d.get_image();
    assert_eq!((f.width, f.height), (2, 1));
    assert_eq!(f.rgba, vec![0, 0, 0, 0, 0xFF, 0, 0, 0xFF]);
}

#[test]
fn image_colour_missing_from_palette_is_transparent() {
    let mut d = ImageDrawer::new();
    d.add_text_command("imgsize 1 1");
    d.add_text_command("line 0 0 0 0 200");
    let f = d.get_image();
    assert_eq!(f.rgba, vec![0, 0, 0, 0]);
}

#[test]
fn scaled_image_repeats_pixels() {
    let mut d = ImageDrawer::new();
    d.add_text_command("imgsize 2 1");
    d.add_text_command("setcolor 1 7");
    d.add_text_command("line 0 0 0 0 1");
    let f = d.get_scaled_image(2).expect("resize");
    assert_eq!((f.width, f.height), (4, 2));
    assert_eq!(f.rgba.len(), 4 * 2 * 4);
    let white = [0xFF, 0xFF, 0xFF, 0xFF];
    let clear = [0, 0, 0, 0];
    for y in 0..2 {
        for x in 0..4 {
            let i = (y * 4 + x) * 4;
            let expected = if x < 2 { white } else { clear };
            assert_eq!(&f.rgba[i..i + 4], &expected, "pixel {x},{y}");
        }
    }
}

#[test]
fn scale_one_keeps_image() {
    let mut d = ImageDrawer::new();
    d.add_text_command("imgsize 3 2");
    d.add_text_command("setcolor 2 3");
    d.add_text_command("line 0 1 2 1 2");
    let f = d.get_scaled_image(1).expect("resize");
    assert_eq!(f.rgba, d.get_image().rgba);
}

#[test]
fn write_png_appends() {
    let d = ImageDrawer::new();
    let mut bytes: Vec<u8> = vec![1, 2, 3];
    assert_eq!(d.write_png(&mut bytes), Ok(()));
    assert_eq!(&bytes[..3], &[1, 2, 3]);
    assert_eq!(&bytes[3..11], b"\x89PNG\r\n\x1a\n");
}

#[test]
fn get_png_names_game_png() {
    let d = ImageDrawer::new();
    let (name, bytes) = d.get_png().expect("png");
    assert_eq!(name, "game.png");
    assert_eq!(&bytes[..8], b"\x89PNG\r\n\x1a\n");
    let mut again: Vec<u8> = Vec::new();
    d.write_png(&mut again).unwrap();
    assert_eq!(again, bytes);
    let _ = RenderError::Resize;
}

#[test]
fn unreported_commands_keep_canvas_and_palette() {
    let mut d = ImageDrawer::new();
    d.add_text_command("imgsize 3 3");
    d.add_text_command("setcolor 1 2");
    d.add_text_command("line 0 0 2 2 1");
    let canvas = d.pcanvas.array.clone();
    let palette = d.palette.clone();
    for c in ["status ::a::b", "img 1 2 2 0", "pal 1 5", "pixels 1 1 1", "bitmap 4", "nothing", ""] {
        assert!(!d.add_text_command(c), "{c}");
        assert_eq!(d.pcanvas.array, canvas, "{c}");
        assert_eq!(d.palette, palette, "{c}");
        assert_eq!(d.get_canvas_size(), (3, 3));
    }
}

#[test]
fn parse_int_python_forms() {
    // Leading zeros only for zero itself.
    assert_eq!(ImageDrawer::parse_int("010"), None);
    assert_eq!(ImageDrawer::parse_int("007"), None);
    assert_eq!(ImageDrawer::parse_int("00"), Some(0));
    assert_eq!(ImageDrawer::parse_int("0_0"), Some(0));
    assert_eq!(ImageDrawer::parse_int("0x010"), Some(16));
    // Single underscores between digits, and one after a prefix.
    assert_eq!(ImageDrawer::parse_int("1_000"), Some(1000));
    assert_eq!(ImageDrawer::parse_int("0x_ff"), Some(255));
    assert_eq!(ImageDrawer::parse_int("0b1_0_1"), Some(5));
    assert_eq!(ImageDrawer::parse_int("1__0"), None);
    assert_eq!(ImageDrawer::parse_int("_1"), None);
    assert_eq!(ImageDrawer::parse_int("1_"), None);
    assert_eq!(ImageDrawer::parse_int("0x_"), None);
    assert_eq!(ImageDrawer::parse_int("0_7"), None);
    // Surrounding white space is ignored, inner white space is not.
    assert_eq!(ImageDrawer::parse_int(" 5 "), Some(5));
    assert_eq!(ImageDrawer::parse_int("\t-7\n"), Some(-7));
    assert_eq!(ImageDrawer::parse_int("- 5"), None);
    assert_eq!(ImageDrawer::parse_int("   "), None);
    assert_eq!(ImageDrawer::parse_int("--9223372036854775808"), None);
    assert_eq!(ImageDrawer::parse_int("-+5"), None);
    assert_eq!(ImageDrawer::parse_int("0x-5"), None);
}

#[test]
fn empty_canvas_cannot_be_encoded() {
    let mut d = ImageDrawer::new();
    d.add_text_command("imgsize 0 5");
    let mut out: Vec<u8> = vec![7];
    assert_eq!(d.write_png(&mut out), Err(RenderError::PngEncoding));
    assert_eq!(out, vec![7]);
    assert_eq!(d.get_png(), Err(RenderError::PngEncoding));
    let f = d.get_scaled_image(3).expect("empty resize");
    assert_eq!((f.width, f.height), (0, 15));
    assert!(f.rgba.is_empty());
}

#[test]
fn scaled_pixels_follow_source() {
    let mut d = ImageDrawer::new();
    d.add_text_command("imgsize 3 2");
    d.add_text_command("setcolor 1 1");
    d.add_text_command("setcolor 2 4");
    d.add_text_command("line 0 0 2 0 1");
    d.add_text_command("line 1 1 1 1 2");
    let src = d.get_image();
    let s = 3u32;
    let f = d.get_scaled_image(s).unwrap();
    for y in 0..f.height {
        for x in 0..f.width {
            let i = ((y * f.width + x) * 4) as usize;
            let j = (((y / s) * src.width + x / s) * 4) as usize;
            assert_eq!(&f.rgba[i..i + 4], &src.rgba[j..j + 4], "pixel {x},{y}");
        }
    }
}

#[test]
fn parse_int_digits_of_other_scripts() {
    // Decimal digits of any script read as the ASCII digits of the same value.
    assert_eq!(ImageDrawer::parse_int("٣"), Some(3));
    assert_eq!(ImageDrawer::parse_int("-١٢"), Some(-12));
    assert_eq!(ImageDrawer::parse_int("１２"), Some(12));
    assert_eq!(ImageDrawer::parse_int("𝟗"), Some(9));
    assert_eq!(ImageDrawer::parse_int("0x١٠"), Some(16));
    assert_eq!(ImageDrawer::parse_int("٠٧"), None);
    assert_eq!(ImageDrawer::parse_int("Ⅻ"), None);
    assert_eq!(ImageDrawer::parse_int("²"), None);
}

#[test]
fn sign_in_front() {
    for s in ["12", "0x1f", "0", "٤٢", "1_0"] {
        let plus = format!("+{s}");
        let minus = format!("-{s}");
        assert_eq!(ImageDrawer::parse_int(&plus), ImageDrawer::parse_int(s), "{s}");
        assert_eq!(ImageDrawer::parse_int(&minus), ImageDrawer::parse_int(s).map(|v| -v), "{s}");
    }
    assert_eq!(ImageDrawer::parse_int("9223372036854775808"), None);
    assert_eq!(ImageDrawer::parse_int("-9223372036854775808"), Some(i64::MIN));
}
