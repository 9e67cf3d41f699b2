//! The drawing state driven by text commands: a canvas, a colour palette, stored bitmaps and
//! two status texts.

use std::collections::HashMap;

use vstd::prelude::*;

use crate::canvas::{
    cleared, drawn_line, filled, line_fits, line_in_range, new_canvas, with_pixels, CanvasView, PixelCanvas,
};
use crate::text::{
    chars_equal, chars_of, find_sep, first_sep, int_literal, literal_values, opt_int,
    split_command, split_status, status_fields, words,
};

verus! {

broadcast use vstd::std_specs::hash::group_hash_axioms;

/// A stored bitmap: its size, palette and pixels.
#[derive(Clone)]
pub struct Bitmap {
    pub width: u32,
    pub height: u32,
    pub palette: Vec<u32>,
    pub pixels: Vec<u8>,
}

/// The abstract value of a `Bitmap`.
#[verifier::ext_equal]
pub struct BitmapView {
    pub width: u32,
    pub height: u32,
    pub palette: Seq<u32>,
    pub pixels: Seq<u8>,
}

impl View for Bitmap {
    type V = BitmapView;

    open spec fn view(&self) -> BitmapView {
        BitmapView { width: self.width, height: self.height, palette: self.palette@, pixels: self.pixels@ }
    }
}

impl Default for Bitmap {
    fn default() -> (b: Self)
        ensures
            b@ == (BitmapView { width: 0, height: 0, palette: Seq::empty(), pixels: Seq::empty() }),
    {
        Bitmap { width: 0, height: 0, palette: Vec::new(), pixels: Vec::new() }
    }
}

/// The abstract state of an `ImageDrawer`.
#[verifier::ext_equal]
pub struct DrawerView {
    pub canvas: CanvasView,
    pub colors: Seq<u32>,
    pub palette: Seq<u32>,
    pub bitmaps: Map<u32, BitmapView>,
    pub left_status: Seq<char>,
    pub right_status: Seq<char>,
}

pub struct ImageDrawer {
    pub pcanvas: PixelCanvas,
    pub colors: [u32; 8],
    pub palette: Vec<u32>,
    pub bitmaps: HashMap<u32, Bitmap>,
    pub left_status: String,
    pub right_status: String,
}

impl View for ImageDrawer {
    type V = DrawerView;

    open spec fn view(&self) -> DrawerView {
        DrawerView {
            canvas: self.pcanvas@,
            colors: self.colors@,
            palette: self.palette@,
            bitmaps: self.bitmaps@.map_values(|b: Bitmap| b@),
            left_status: self.left_status@,
            right_status: self.right_status@,
        }
    }
}

/// The eight base colours, as `0xRRGGBB`.
pub open spec fn base_colors() -> Seq<u32> {
    seq![0x000000u32, 0xFF0000, 0x30E830, 0xFFFF00, 0x0000FF, 0xA06800, 0x00FFFF, 0xFFFFFF]
}

/// A palette entry `0xRRGGBBAA` made opaque from the colour `0xRRGGBB`.
pub open spec fn opaque(c: u32) -> u32 {
    (c << 8u32) | 0xFFu32
}

/// The state of a fresh drawer: a blank 160 by 96 canvas, 64 black transparent palette entries,
/// no bitmaps and empty status texts.
pub open spec fn initial_drawer() -> DrawerView {
    DrawerView {
        canvas: new_canvas(160, 96),
        colors: base_colors(),
        palette: Seq::new(64, |i: int| 0u32),
        bitmaps: Map::empty(),
        left_status: Seq::empty(),
        right_status: Seq::empty(),
    }
}

/// A drawer whose canvas buffer matches its size.
pub open spec fn drawer_wf(d: DrawerView) -> bool {
    d.canvas.wf() && d.colors.len() == 8
}

/// The command `s` can be carried out: a `status` line holds a `::`, a line can be drawn with
/// `i32` arithmetic (see `line_in_range`), and every canvas a command creates fits in memory
/// addressable by `usize`.
pub open spec fn command_ok(d: DrawerView, s: Seq<char>) -> bool {
    let ws = words(s);
    let args = literal_values(ws.drop_first());
    &&& ws.len() > 0 && ws[0] == "status"@ ==> first_sep(s) is Some
    &&& ws.len() > 0 && ws[0] == "line"@ && args.len() >= 5 ==> line_in_range(
        (args[0] as i32) as int,
        (args[1] as i32) as int,
        (args[2] as i32) as int,
        (args[3] as i32) as int,
    )
    &&& ws.len() > 0 && ws[0] == "imgsize"@ && args.len() >= 2 ==> (args[0] as u32) as int * (
        args[1] as u32) as int <= usize::MAX
    &&& ws.len() > 0 && ws[0] == "bitmap"@ && args.len() >= 1 && d.bitmaps.contains_key(args[0] as u32)
        ==> d.bitmaps[args[0] as u32].width as int * d.bitmaps[args[0] as u32].height as int
        <= usize::MAX
}

/// The drawer state after the command line `s`, and whether the visible canvas changed.
///
/// The first word names the command; the integer literals among the other words are its
/// arguments (other words are ignored). A command given too few arguments, and an unknown
/// command, change nothing.
pub open spec fn command_result(d: DrawerView, s: Seq<char>) -> (DrawerView, bool) {
    let ws = words(s);
    if ws.len() == 0 {
        (d, false)
    } else {
        let cmd = ws[0];
        let args = literal_values(ws.drop_first());
        if cmd == "status"@ {
            (DrawerView { left_status: status_fields(s).0, right_status: status_fields(s).1, ..d }, false)
        } else if cmd == "img"@ && args.len() == 4 {
            (
                DrawerView {
                    bitmaps: d.bitmaps.insert(
                        args[0] as u32,
                        BitmapView {
                            width: args[1] as u32,
                            height: args[2] as u32,
                            palette: Seq::empty(),
                            pixels: Seq::empty(),
                        },
                    ),
                    ..d
                },
                false,
            )
        } else if cmd == "pal"@ && args.len() > 0 {
            let no = args[0] as u32;
            if d.bitmaps.contains_key(no) {
                (
                    DrawerView {
                        bitmaps: d.bitmaps.insert(
                            no,
                            BitmapView {
                                palette: Seq::new((args.len() - 1) as nat, |i: int| args[i + 1] as u32),
                                ..d.bitmaps[no]
                            },
                        ),
                        ..d
                    },
                    false,
                )
            } else {
                (d, false)
            }
        } else if cmd == "pixels"@ && args.len() > 0 {
            let no = args[0] as u32;
            if d.bitmaps.contains_key(no) {
                (
                    DrawerView {
                        bitmaps: d.bitmaps.insert(
                            no,
                            BitmapView {
                                pixels: Seq::new((args.len() - 1) as nat, |i: int| args[i + 1] as u8),
                                ..d.bitmaps[no]
                            },
                        ),
                        ..d
                    },
                    false,
                )
            } else {
                (d, false)
            }
        } else if cmd == "imgsize"@ && args.len() >= 2 {
            (DrawerView { canvas: new_canvas(args[0] as u32, args[1] as u32), ..d }, true)
        } else if cmd == "line"@ && args.len() >= 5 {
            let target = if args.len() > 5 { Some(args[5] as u8) } else { None };
            (
                DrawerView {
                    canvas: drawn_line(
                        d.canvas,
                        (args[0] as i32) as int,
                        (args[1] as i32) as int,
                        (args[2] as i32) as int,
                        (args[3] as i32) as int,
                        args[4] as u8,
                        target,
                    ),
                    ..d
                },
                true,
            )
        } else if cmd == "fill"@ && args.len() >= 4 {
            (
                DrawerView {
                    canvas: filled(
                        d.canvas,
                        (args[0] as i32) as int,
                        (args[1] as i32) as int,
                        args[2] as u8,
                        args[3] as u8,
                    ),
                    ..d
                },
                true,
            )
        } else if cmd == "clear"@ {
            (DrawerView { canvas: cleared(d.canvas, 0), ..d }, true)
        } else if cmd == "setcolor"@ && args.len() >= 2 {
            let c = args[1] as usize;
            let p = args[0] as usize;
            if c < d.colors.len() && p < d.palette.len() {
                (DrawerView { palette: d.palette.update(p as int, opaque(d.colors[c as int])), ..d }, true)
            } else {
                (d, true)
            }
        } else if cmd == "bitmap"@ && args.len() > 0 {
            let no = args[0] as u32;
            if d.bitmaps.contains_key(no) {
                let b = d.bitmaps[no];
                (
                    DrawerView {
                        canvas: with_pixels(new_canvas(b.width, b.height), b.pixels),
                        palette: Seq::new(b.palette.len(), |i: int| opaque(b.palette[i])),
                        ..d
                    },
                    true,
                )
            } else {
                (d, false)
            }
        } else {
            (d, false)
        }
    }
}

/// A command that reports no change leaves the canvas and the palette as they were: whenever
/// the visible canvas state changes, the command reports it.
pub proof fn lemma_unreported_keeps_canvas(d: DrawerView, s: Seq<char>)
    requires
        !command_result(d, s).1,
    ensures
        command_result(d, s).0.canvas == d.canvas,
        command_result(d, s).0.palette == d.palette,
{
}

/// `line`, `fill` and `clear` (with enough arguments) report a change and replace the canvas
/// by the line drawn, the region filled or the canvas cleared to colour 0; the palette, the
/// colours, the bitmaps and the status texts stay as they were.
pub proof fn lemma_drawing_commands(d: DrawerView, s: Seq<char>)
    requires
        words(s).len() > 0,
    ensures
        ({
            let ws = words(s);
            let a = literal_values(ws.drop_first());
            let (e, changed) = command_result(d, s);
            &&& ws[0] == "line"@ && a.len() >= 5 ==> changed && e == DrawerView {
                canvas: drawn_line(
                    d.canvas,
                    (a[0] as i32) as int,
                    (a[1] as i32) as int,
                    (a[2] as i32) as int,
                    (a[3] as i32) as int,
                    a[4] as u8,
                    if a.len() > 5 { Some(a[5] as u8) } else { None },
                ),
                ..d
            }
            &&& ws[0] == "fill"@ && a.len() >= 4 ==> changed && e == DrawerView {
                canvas: filled(d.canvas, (a[0] as i32) as int, (a[1] as i32) as int, a[2] as u8, a[3] as u8),
                ..d
            }
            &&& ws[0] == "clear"@ ==> changed && e == DrawerView { canvas: cleared(d.canvas, 0), ..d }
        }),
{
    reveal_strlit("status");
    reveal_strlit("img");
    reveal_strlit("pal");
    reveal_strlit("pixels");
    reveal_strlit("imgsize");
    reveal_strlit("line");
    reveal_strlit("fill");
    reveal_strlit("clear");
    assert("line"@.len() == 4 && "fill"@.len() == 4 && "clear"@.len() == 5);
    assert("status"@.len() == 6 && "img"@.len() == 3 && "pal"@.len() == 3);
    assert("pixels"@.len() == 6 && "imgsize"@.len() == 7);
    assert("line"@[0] != "fill"@[0]);
}

/// `img no w h x` stores bitmap `no` as `w` pixels wide and `h` high, with no palette and no
/// pixels yet, and reports no change of the canvas.
pub proof fn lemma_img_command(d: DrawerView, s: Seq<char>)
    requires
        words(s).len() > 0,
        words(s)[0] == "img"@,
        literal_values(words(s).drop_first()).len() == 4,
    ensures
        ({
            let a = literal_values(words(s).drop_first());
            let (e, changed) = command_result(d, s);
            &&& !changed
            &&& e.bitmaps.contains_key(a[0] as u32)
            &&& e.bitmaps[a[0] as u32].width == a[1] as u32
            &&& e.bitmaps[a[0] as u32].height == a[2] as u32
            &&& e.bitmaps[a[0] as u32].palette.len() == 0
            &&& e.bitmaps[a[0] as u32].pixels.len() == 0
            &&& e.canvas == d.canvas
        }),
{
    reveal_strlit("status");
    reveal_strlit("img");
    assert("status"@.len() != "img"@.len());
}

/// `bitmap no` for a stored bitmap shows it: the canvas takes the bitmap's width and height.
pub proof fn lemma_bitmap_command(d: DrawerView, s: Seq<char>)
    requires
        words(s).len() > 0,
        words(s)[0] == "bitmap"@,
        literal_values(words(s).drop_first()).len() >= 1,
        d.bitmaps.contains_key(literal_values(words(s).drop_first())[0] as u32),
    ensures
        ({
            let b = d.bitmaps[literal_values(words(s).drop_first())[0] as u32];
            let (e, changed) = command_result(d, s);
            &&& changed
            &&& e.canvas.width == b.width
            &&& e.canvas.height == b.height
            &&& e.canvas.pixels.len() == b.width as int * b.height as int
            &&& forall|k: int|
                0 <= k < e.canvas.pixels.len() ==> #[trigger] e.canvas.pixels[k] == if k < b.pixels.len() {
                    b.pixels[k]
                } else {
                    0u8
                }
            &&& e.palette.len() == b.palette.len()
            &&& forall|k: int| 0 <= k < b.palette.len() ==> #[trigger] e.palette[k] == ((b.palette[k] << 8u32) | 0xFFu32)
        }),
{
    reveal_strlit("status");
    reveal_strlit("img");
    reveal_strlit("pal");
    reveal_strlit("pixels");
    reveal_strlit("imgsize");
    reveal_strlit("line");
    reveal_strlit("fill");
    reveal_strlit("clear");
    reveal_strlit("setcolor");
    reveal_strlit("bitmap");
    assert("bitmap"@.len() == 6 && "img"@.len() == 3 && "pal"@.len() == 3 && "imgsize"@.len() == 7);
    assert("line"@.len() == 4 && "fill"@.len() == 4 && "clear"@.len() == 5 && "setcolor"@.len() == 8);
    assert("bitmap"@[0] != "status"@[0] && "bitmap"@[0] != "pixels"@[0]);
}

/// `pixels no v...` for a stored bitmap gives it the pixels `v...`, each taken modulo 256, and
/// keeps its size and palette.
pub proof fn lemma_pixels_command(d: DrawerView, s: Seq<char>)
    requires
        words(s).len() > 0,
        words(s)[0] == "pixels"@,
        literal_values(words(s).drop_first()).len() >= 1,
        d.bitmaps.contains_key(literal_values(words(s).drop_first())[0] as u32),
    ensures
        ({
            let a = literal_values(words(s).drop_first());
            let no = a[0] as u32;
            let (e, changed) = command_result(d, s);
            &&& !changed
            &&& e.canvas == d.canvas
            &&& e.bitmaps.contains_key(no)
            &&& e.bitmaps[no].width == d.bitmaps[no].width
            &&& e.bitmaps[no].height == d.bitmaps[no].height
            &&& e.bitmaps[no].palette == d.bitmaps[no].palette
            &&& e.bitmaps[no].pixels.len() == a.len() - 1
            &&& forall|k: int| 1 <= k < a.len() ==> #[trigger] e.bitmaps[no].pixels[k - 1] == a[k] as u8
        }),
{
    reveal_strlit("status");
    reveal_strlit("img");
    reveal_strlit("pal");
    reveal_strlit("pixels");
    assert("pixels"@.len() == 6 && "img"@.len() == 3 && "pal"@.len() == 3);
    assert("pixels"@[0] != "status"@[0]);
}

/// `setcolor p c` with a base colour `c` and a palette entry `p` sets entry `p` to base colour
/// `c` shifted into the top three bytes with alpha `0xFF`: always fully opaque, black
/// included. The other entries stay, and the command reports a change.
pub proof fn lemma_setcolor_command(d: DrawerView, s: Seq<char>)
    requires
        words(s).len() > 0,
        words(s)[0] == "setcolor"@,
        literal_values(words(s).drop_first()).len() >= 2,
        (literal_values(words(s).drop_first())[1] as usize) < d.colors.len(),
        (literal_values(words(s).drop_first())[0] as usize) < d.palette.len(),
    ensures
        ({
            let a = literal_values(words(s).drop_first());
            let p = a[0] as usize as int;
            let c = a[1] as usize as int;
            let (e, changed) = command_result(d, s);
            &&& changed
            &&& e.palette.len() == d.palette.len()
            &&& e.palette[p] == ((d.colors[c] << 8u32) | 0xFFu32)
            &&& e.palette[p] & 0xFFu32 == 0xFFu32
            &&& e.palette[p] / 0x100 == d.colors[c] % 0x100_0000
            &&& forall|k: int| 0 <= k < d.palette.len() && k != p ==> e.palette[k] == d.palette[k]
        }),
{
    reveal_strlit("status");
    reveal_strlit("img");
    reveal_strlit("pal");
    reveal_strlit("pixels");
    reveal_strlit("imgsize");
    reveal_strlit("line");
    reveal_strlit("fill");
    reveal_strlit("clear");
    reveal_strlit("setcolor");
    assert("setcolor"@.len() == 8 && "status"@.len() == 6 && "img"@.len() == 3 && "pal"@.len() == 3);
    assert("pixels"@.len() == 6 && "imgsize"@.len() == 7 && "line"@.len() == 4 && "fill"@.len() == 4);
    assert("clear"@.len() == 5);
    let a = literal_values(words(s).drop_first());
    let x = d.colors[a[1] as usize as int];
    let v = (x << 8u32) | 0xFFu32;
    assert(v & 0xFFu32 == 0xFFu32) by (bit_vector)
        requires
            v == (x << 8u32) | 0xFFu32,
    ;
    assert(v / 0x100 == x % 0x100_0000) by (bit_vector)
        requires
            v == (x << 8u32) | 0xFFu32,
    ;
}

/// Every command keeps the drawer well formed.
pub proof fn lemma_command_keeps_wf(d: DrawerView, s: Seq<char>)
    requires
        drawer_wf(d),
        command_ok(d, s),
    ensures
        drawer_wf(command_result(d, s).0),
{
    let ws = words(s);
    let args = literal_values(ws.drop_first());
    if ws.len() > 0 {
        let cmd = ws[0];
        if cmd == "imgsize"@ && args.len() >= 2 {
            let w = args[0] as u32;
            let h = args[1] as u32;
            assert(new_canvas(w, h).wf());
        } else if cmd == "bitmap"@ && args.len() > 0 && d.bitmaps.contains_key(args[0] as u32) {
            let b = d.bitmaps[args[0] as u32];
            let c = with_pixels(new_canvas(b.width, b.height), b.pixels);
            let n = b.width as int * b.height as int;
            let k = if n <= b.pixels.len() { n } else { b.pixels.len() as int };
            assert(c.pixels.len() == k + (n - k));
        }
    }
}

impl Default for ImageDrawer {
    /// Same as `ImageDrawer::new`.
    fn default() -> (d: Self)
        ensures
            d@ == initial_drawer(),
    {
        ImageDrawer::new()
    }
}

impl ImageDrawer {
    /// A drawer in its initial state, see `initial_drawer`.
    pub fn new() -> (d: Self)
        ensures
            d@ == initial_drawer(),
            drawer_wf(d@),
    {
        let mut palette: Vec<u32> = Vec::new();
        let mut i: usize = 0;
        while i < 64
            invariant
                i <= 64,
                palette@ == Seq::new(i as nat, |k: int| 0u32),
            decreases 64 - i,
        {
            palette.push(0);
            i = i + 1;
        }
        let d = ImageDrawer {
            pcanvas: PixelCanvas::new(160, 96),
            colors: [0x000000, 0xFF0000, 0x30E830, 0xFFFF00, 0x0000FF, 0xA06800, 0x00FFFF, 0xFFFFFF],
            palette,
            bitmaps: HashMap::new(),
            left_status: String::new(),
            right_status: String::new(),
        };
        proof {
            assert(d.colors@ =~= base_colors());
            assert(d.bitmaps@.map_values(|b: Bitmap| b@) =~= Map::<u32, BitmapView>::empty());
            assert(d@ =~= initial_drawer());
        }
        d
    }

    /// The left and right status texts.
    pub fn get_statusbar(&self) -> (r: (&str, &str))
        ensures
            r.0@ == self@.left_status,
            r.1@ == self@.right_status,
    {
        (self.left_status.as_str(), self.right_status.as_str())
    }

    /// Canvas width and height.
    pub fn get_canvas_size(&self) -> (r: (u32, u32))
        ensures
            r == (self@.canvas.width, self@.canvas.height),
    {
        (self.pcanvas.width, self.pcanvas.height)
    }

    /// Parse an integer literal the way Python's `int(s, 0)` does: decimal, `0x`/`0o`/`0b`
    /// prefixes, and an optional leading sign; see `int_literal`. `None` for anything else and
    /// for values outside the `i64` range.
    pub fn parse_int(s: &str) -> (r: Option<i64>)
        ensures
            opt_int(r) == int_literal(s@),
    {
        let v = chars_of(s);
        proof {
            assert(v@.subrange(0, v@.len() as int) =~= v@);
        }
        crate::text::parse_literal(&v, 0, v.len())
    }

    /// Whether the command line `s` can be carried out, see `command_ok`.
    pub fn accepts(&self, s: &str) -> (r: bool)
        ensures
            r == command_ok(self@, s@),
    {
        let v = chars_of(s);
        let (cs, ce, args) = match split_command(&v) {
            None => {
                return true;
            },
            Some(t) => t,
        };
        proof {
            reveal_strlit("status");
            reveal_strlit("line");
            reveal_strlit("imgsize");
            reveal_strlit("bitmap");
        }
        if chars_equal(&v, cs, ce, "status") {
            proof {
                assert(v@.skip(0) =~= v@);
                assert("status"@.len() != "imgsize"@.len());
                assert("status"@.len() != "line"@.len());
                assert("status"@[0] != "bitmap"@[0]);
            }
            return find_sep(&v, 0).is_some();
        }
        if chars_equal(&v, cs, ce, "line") && args.len() >= 5 {
            return line_fits(args[0] as i32, args[1] as i32, args[2] as i32, args[3] as i32);
        }
        if chars_equal(&v, cs, ce, "imgsize") && args.len() >= 2 {
            let w = args[0] as u32;
            let h = args[1] as u32;
            assert((w as u128) * (h as u128) <= 0xFFFF_FFFFu128 * 0xFFFF_FFFFu128) by (nonlinear_arith)
                requires
                    w <= 0xFFFF_FFFFu32,
                    h <= 0xFFFF_FFFFu32,
            ;
            return (w as u128) * (h as u128) <= usize::MAX as u128;
        }
        if chars_equal(&v, cs, ce, "bitmap") && args.len() >= 1 {
            let no = args[0] as u32;
            return match self.bitmaps.get(&no) {
                Some(b) => {
                    assert((b.width as u128) * (b.height as u128) <= 0xFFFF_FFFFu128 * 0xFFFF_FFFFu128)
                        by (nonlinear_arith)
                        requires
                            b.width <= 0xFFFF_FFFFu32,
                            b.height <= 0xFFFF_FFFFu32,
                    ;
                    (b.width as u128) * (b.height as u128) <= usize::MAX as u128
                },
                None => true,
            };
        }
        true
    }

    /// Feed a text command line. Returns `true` if the visible canvas state
    /// changed (caller may want to re-render).
    pub fn add_text_command(&mut self, s: &str) -> (changed: bool)
        requires
            drawer_wf(old(self)@),
            command_ok(old(self)@, s@),
        ensures
            drawer_wf(final(self)@),
            (final(self)@, changed) == command_result(old(self)@, s@),
    {
        let ghost d = self@;
        let v = chars_of(s);
        let (cs, ce, args) = match split_command(&v) {
            None => {
                return false;
            },
            Some(t) => t,
        };
        let ghost ws = words(s@);
        let ghost a = literal_values(ws.drop_first());
        proof {
            assert(args@ == a);
        }
        let n = args.len();
        if chars_equal(&v, cs, ce, "status") {
            let (l, r) = split_status(s, &v);
            self.left_status = l;
            self.right_status = r;
            proof {
                assert(self@ =~= command_result(d, s@).0);
            }
            return false;
        }
        if chars_equal(&v, cs, ce, "img") && n == 4 {
            let mut b = Bitmap::default();
            b.width = args[1] as u32;
            b.height = args[2] as u32;
            let no = args[0] as u32;
            self.bitmaps.insert(no, b);
            proof {
                assert(self@.bitmaps =~= command_result(d, s@).0.bitmaps);
                assert(self@ =~= command_result(d, s@).0);
            }
            return false;
        }
        if chars_equal(&v, cs, ce, "pal") && n > 0 {
            let no = args[0] as u32;
            match self.bitmaps.remove(&no) {
                Some(b) => {
                    let mut b = b;
                    let mut pal: Vec<u32> = Vec::new();
                    let mut i: usize = 1;
                    while i < n
                        invariant
                            1 <= i <= n,
                            n == args@.len(),
                            pal@ == Seq::new((i - 1) as nat, |k: int| args@[k + 1] as u32),
                        decreases n - i,
                    {
                        pal.push(args[i] as u32);
                        i = i + 1;
                    }
                    b.palette = pal;
                    self.bitmaps.insert(no, b);
                },
                None => {},
            }
            proof {
                assert(self@.bitmaps =~= command_result(d, s@).0.bitmaps);
                assert(self@ =~= command_result(d, s@).0);
            }
            return false;
        }
        if chars_equal(&v, cs, ce, "pixels") && n > 0 {
            let no = args[0] as u32;
            match self.bitmaps.remove(&no) {
                Some(b) => {
                    let mut b = b;
                    let mut px: Vec<u8> = Vec::new();
                    let mut i: usize = 1;
                    while i < n
                        invariant
                            1 <= i <= n,
                            n == args@.len(),
                            px@ == Seq::new((i - 1) as nat, |k: int| args@[k + 1] as u8),
                        decreases n - i,
                    {
                        px.push(args[i] as u8);
                        i = i + 1;
                    }
                    b.pixels = px;
                    self.bitmaps.insert(no, b);
                },
                None => {},
            }
            proof {
                assert(self@.bitmaps =~= command_result(d, s@).0.bitmaps);
                assert(self@ =~= command_result(d, s@).0);
            }
            return false;
        }
        if chars_equal(&v, cs, ce, "imgsize") && n >= 2 {
            self.pcanvas = PixelCanvas::new(args[0] as u32, args[1] as u32);
            proof {
                assert(self@ =~= command_result(d, s@).0);
            }
            return true;
        }
        if chars_equal(&v, cs, ce, "line") && n >= 5 {
            let target = if n > 5 { Some(args[5] as u8) } else { None };
            self.pcanvas.draw_line(
                args[0] as i32,
                args[1] as i32,
                args[2] as i32,
                args[3] as i32,
                args[4] as u8,
                target,
            );
            proof {
                assert(self@ =~= command_result(d, s@).0);
            }
            return true;
        }
        if chars_equal(&v, cs, ce, "fill") && n >= 4 {
            self.pcanvas.flood_fill(args[0] as i32, args[1] as i32, args[2] as u8, args[3] as u8);
            proof {
                assert(self@ =~= command_result(d, s@).0);
            }
            return true;
        }
        if chars_equal(&v, cs, ce, "clear") {
            self.pcanvas.clear(0);
            proof {
                assert(self@ =~= command_result(d, s@).0);
            }
            return true;
        }
        if chars_equal(&v, cs, ce, "setcolor") && n >= 2 {
            let c_idx = args[1] as usize;
            let p_idx = args[0] as usize;
            if c_idx < 8 && p_idx < self.palette.len() {
                let c = (self.colors[c_idx] << 8) | 0xFF;
                self.palette.set(p_idx, c);
            }
            proof {
                assert(self@ =~= command_result(d, s@).0);
            }
            return true;
        }
        if chars_equal(&v, cs, ce, "bitmap") && n > 0 {
            let no = args[0] as u32;
            let (canvas, pal) = match self.bitmaps.get(&no) {
                None => {
                    return false;
                },
                Some(bmp) => {
                    let mut canvas = PixelCanvas::new(bmp.width, bmp.height);
                    canvas.set_pixels(bmp.pixels.as_slice());
                    let m = bmp.palette.len();
                    let mut pal: Vec<u32> = Vec::new();
                    let mut i: usize = 0;
                    while i < m
                        invariant
                            i <= m,
                            m == bmp.palette@.len(),
                            pal@ == Seq::new(i as nat, |k: int| opaque(bmp.palette@[k])),
                        decreases m - i,
                    {
                        pal.push((bmp.palette[i] << 8) | 0xFF);
                        i = i + 1;
                    }
                    (canvas, pal)
                },
            };
            self.pcanvas = canvas;
            self.palette = pal;
            proof {
                assert(self@ =~= command_result(d, s@).0);
            }
            return true;
        }
        false
    }
}

/// An RGBA image: `width * height` pixels of four bytes (red, green, blue, alpha), row-major.
pub struct Frame {
    pub width: u32,
    pub height: u32,
    pub rgba: Vec<u8>,
}

/// Why an image could not be produced.
#[derive(Debug, Clone, Copy, PartialEq, Eq)]
pub enum RenderError {
    /// The PNG encoder reported an error.
    PngEncoding,
    /// The image resizer reported an error.
    Resize,
}

/// The palette entry `0xRRGGBBAA` of canvas colour `idx`, or 0 (transparent black) when the
/// palette has no such entry.
pub open spec fn palette_color(palette: Seq<u32>, idx: u8) -> u32 {
    if (idx as int) < palette.len() {
        palette[idx as int]
    } else {
        0
    }
}

/// Byte `k` (0 = red, 1 = green, 2 = blue, 3 = alpha) of the colour `0xRRGGBBAA`.
pub open spec fn channel(p: u32, k: int) -> u8 {
    if k == 0 {
        ((p >> 24u32) & 0xFFu32) as u8
    } else if k == 1 {
        ((p >> 16u32) & 0xFFu32) as u8
    } else if k == 2 {
        ((p >> 8u32) & 0xFFu32) as u8
    } else {
        (p & 0xFFu32) as u8
    }
}

/// The RGBA bytes of the canvas of `d`, each pixel looked up in the palette.
pub open spec fn rgba_of(d: DrawerView) -> Seq<u8> {
    Seq::new(
        (4 * d.canvas.pixels.len()) as nat,
        |i: int| channel(palette_color(d.palette, d.canvas.pixels[i / 4]), i % 4),
    )
}

/// Pixel `k` of the canvas is four bytes of the RGBA image, taken from its palette entry
/// `0xRRGGBBAA` (0 when the palette has no entry for its colour) from the most significant byte
/// down: red, green, blue, alpha. Read back as a big-endian number they give the entry.
pub proof fn lemma_rgba_bytes(d: DrawerView, k: int)
    requires
        0 <= k < d.canvas.pixels.len(),
    ensures
        rgba_of(d).len() == 4 * d.canvas.pixels.len(),
        ({
            let idx = d.canvas.pixels[k];
            let p: u32 = if (idx as int) < d.palette.len() { d.palette[idx as int] } else { 0 };
            let r = rgba_of(d);
            &&& r[4 * k] == p / 0x100_0000
            &&& r[4 * k + 1] == (p / 0x1_0000) % 0x100
            &&& r[4 * k + 2] == (p / 0x100) % 0x100
            &&& r[4 * k + 3] == p % 0x100
            &&& r[4 * k] * 0x100_0000 + r[4 * k + 1] * 0x1_0000 + r[4 * k + 2] * 0x100 + r[4 * k + 3] == p
        }),
{
    let idx = d.canvas.pixels[k];
    let p: u32 = if (idx as int) < d.palette.len() { d.palette[idx as int] } else { 0 };
    assert(palette_color(d.palette, idx) == p);
    let r = rgba_of(d);
    assert((4 * k) / 4 == k && (4 * k) % 4 == 0);
    assert((4 * k + 1) / 4 == k && (4 * k + 1) % 4 == 1);
    assert((4 * k + 2) / 4 == k && (4 * k + 2) % 4 == 2);
    assert((4 * k + 3) / 4 == k && (4 * k + 3) % 4 == 3);
    let b0 = ((p >> 24u32) & 0xFFu32) as u8;
    let b1 = ((p >> 16u32) & 0xFFu32) as u8;
    let b2 = ((p >> 8u32) & 0xFFu32) as u8;
    let b3 = (p & 0xFFu32) as u8;
    assert(r[4 * k] == b0 && r[4 * k + 1] == b1 && r[4 * k + 2] == b2 && r[4 * k + 3] == b3);
    assert(b0 == p / 0x100_0000 && b1 == (p / 0x1_0000) % 0x100 && b2 == (p / 0x100) % 0x100 && b3 == p % 0x100)
        by (bit_vector)
        requires
            b0 == ((p >> 24u32) & 0xFFu32) as u8,
            b1 == ((p >> 16u32) & 0xFFu32) as u8,
            b2 == ((p >> 8u32) & 0xFFu32) as u8,
            b3 == (p & 0xFFu32) as u8,
    ;
    assert(b0 * 0x100_0000 + b1 * 0x1_0000 + b2 * 0x100 + b3 == p) by (bit_vector)
        requires
            b0 == ((p >> 24u32) & 0xFFu32) as u8,
            b1 == ((p >> 16u32) & 0xFFu32) as u8,
            b2 == ((p >> 8u32) & 0xFFu32) as u8,
            b3 == (p & 0xFFu32) as u8,
    ;
}

/// The PNG file that `image`'s `PngEncoder` writes for the given RGBA8 pixels.
pub uninterp spec fn png_encoding(rgba: Seq<u8>, width: u32, height: u32) -> Seq<u8>;

/// The eight bytes every PNG file starts with.
pub open spec fn png_signature() -> Seq<u8> {
    seq![137u8, 80, 78, 71, 13, 10, 26, 10]
}

/// The RGBA8 pixels that `fast_image_resize` produces when it resizes a `w` by `h` RGBA8
/// image to `dw` by `dh` with the nearest-neighbour algorithm.
pub uninterp spec fn nearest_resized(src: Seq<u8>, w: u32, h: u32, dw: u32, dh: u32) -> Seq<u8>;

#[verifier::external_type_specification]
#[verifier::external_body]
pub struct ExImageError(image::ImageError);

/// `image::codecs::png::PngEncoder::write_image` with colour type RGBA8, writing into memory.
/// Claimed: on success the bytes are the encoder's output for these pixels and size
/// (`png_encoding`) and start with the PNG signature, which the `png` encoder writes first,
/// followed by the header chunk; the encoding succeeds exactly when both dimensions are
/// positive (the `png` writer refuses a zero width or height, and writing into a `Vec` does
/// not fail).
#[verifier::external_body]
fn encode_png_rgba8(rgba: &[u8], width: u32, height: u32) -> (r: Result<Vec<u8>, image::ImageError>)
    requires
        rgba@.len() == width as int * height as int * 4,
    ensures
        (r is Ok) == (width > 0 && height > 0),
        r matches Ok(bytes) ==> bytes@ == png_encoding(rgba@, width, height) && bytes@.len() > 8
            && bytes@.take(8) == png_signature(),
{
    let mut out: Vec<u8> = Vec::new();
    let encoder = image::codecs::png::PngEncoder::new(&mut out);
    image::ImageEncoder::write_image(encoder, rgba, width, height, image::ExtendedColorType::Rgba8)?;
    Ok(out)
}

/// The RGBA pixels of a `w` by `h` image `src` enlarged `s` times: pixel `(x, y)` of the result
/// is pixel `(x / s, y / s)` of `src`.
pub open spec fn upscaled(src: Seq<u8>, w: int, h: int, s: int) -> Seq<u8> {
    Seq::new(
        (w * s * (h * s) * 4) as nat,
        |i: int|
            {
                let p = i / 4;
                let x = p % (w * s);
                let y = p / (w * s);
                src[4 * ((y / s) * w + x / s) + i % 4]
            },
    )
}

/// `fast_image_resize`: wraps the RGBA8 buffer in an `Image` (`Image::from_vec_u8`), resizes it
/// into a new `dw` by `dh` `Image` with `Resizer::resize` and `ResizeAlg::Nearest`, and returns
/// the destination buffer (`Image::into_vec`). Claimed: both calls succeed for a buffer of
/// `w * h * 4` bytes (they fail only on a short buffer or different pixel types); the bytes are
/// the resizer's output (`nearest_resized`), `dw * dh * 4` of them, as `Image::new` allocates.
/// For a whole-number enlargement `s` with at most 2^24 destination rows, destination pixel
/// `(x, y)` is source pixel `(x / s, y / s)`: the resizer samples source column
/// `floor((x + 0.5) / s)` and row `floor((y + 0.5) / s)` in `f64` arithmetic, whose rounding
/// error stays below the distance `0.5 / s` to the next whole number in that range. Beyond it
/// the pixels are only named.
#[verifier::external_body]
fn resize_nearest_rgba8(src: Vec<u8>, w: u32, h: u32, dw: u32, dh: u32) -> (r: Option<Vec<u8>>)
    requires
        src@.len() == w as int * h as int * 4,
        dw as int * dh as int * 4 <= usize::MAX,
    ensures
        r is Some,
        r matches Some(v) ==> v@ == nearest_resized(src@, w, h, dw, dh) && v@.len() == dw as int * dh as int
            * 4,
        r matches Some(v) ==> (w > 0 && h > 0 && dw % w == 0 && dh == h * (dw / w) && dh <= 0x100_0000
            ==> v@ == upscaled(src@, w as int, h as int, (dw / w) as int)),
{
    let pt = fast_image_resize::PixelType::U8x4;
    let src_img = fast_image_resize::images::Image::from_vec_u8(w, h, src, pt).ok()?;
    let mut dst_img = fast_image_resize::images::Image::new(dw, dh, pt);
    let opts = fast_image_resize::ResizeOptions::new().resize_alg(fast_image_resize::ResizeAlg::Nearest);
    fast_image_resize::Resizer::new().resize(&src_img, &mut dst_img, &opts).ok()?;
    Some(dst_img.into_vec())
}

impl ImageDrawer {
    /// The canvas as an RGBA image, each pixel coloured through the palette.
    pub fn get_image(&self) -> (f: Frame)
        requires
            drawer_wf(self@),
        ensures
            f.width == self@.canvas.width,
            f.height == self@.canvas.height,
            f.rgba@ == rgba_of(self@),
            f.rgba@.len() == f.width as int * f.height as int * 4,
    {
        let n = self.pcanvas.array.len();
        let mut rgba: Vec<u8> = Vec::new();
        let mut i: usize = 0;
        while i < n
            invariant
                i <= n,
                n == self.pcanvas.array@.len(),
                rgba@.len() == 4 * i,
                forall|j: int|
                    0 <= j < 4 * i ==> #[trigger] rgba@[j] == channel(
                        palette_color(self.palette@, self.pcanvas.array@[j / 4]),
                        j % 4,
                    ),
            decreases n - i,
        {
            let idx = self.pcanvas.array[i];
            let p = if (idx as usize) < self.palette.len() { self.palette[idx as usize] } else { 0 };
            let ghost before = rgba@;
            rgba.push(((p >> 24) & 0xFF) as u8);
            rgba.push(((p >> 16) & 0xFF) as u8);
            rgba.push(((p >> 8) & 0xFF) as u8);
            rgba.push((p & 0xFF) as u8);
            proof {
                assert forall|j: int|
                    0 <= j < 4 * (i + 1) implies #[trigger] rgba@[j] == channel(
                    palette_color(self.palette@, self.pcanvas.array@[j / 4]),
                    j % 4,
                ) by {
                    if j >= 4 * i {
                        assert(j / 4 == i);
                        assert(j % 4 == j - 4 * i);
                    } else {
                        assert(rgba@[j] == before[j]);
                    }
                }
            }
            i = i + 1;
        }
        proof {
            assert(rgba@ =~= rgba_of(self@));
            assert(4 * (self.pcanvas.width as int * self.pcanvas.height as int) == self.pcanvas.width as int
                * self.pcanvas.height as int * 4) by (nonlinear_arith);
        }
        Frame { width: self.pcanvas.width, height: self.pcanvas.height, rgba }
    }

    /// Encodes the canvas as a PNG file (RGBA8) and appends its bytes to `out`, which the
    /// caller stores where the file belongs. On failure `out` is left as it was.
    pub fn write_png(&self, out: &mut Vec<u8>) -> (r: Result<(), RenderError>)
        requires
            drawer_wf(self@),
        ensures
            r is Ok ==> final(out)@ == old(out)@ + png_encoding(
                rgba_of(self@),
                self@.canvas.width,
                self@.canvas.height,
            ),
            r is Ok ==> png_encoding(rgba_of(self@), self@.canvas.width, self@.canvas.height).len() > 8
                && png_encoding(rgba_of(self@), self@.canvas.width, self@.canvas.height).take(8)
                == png_signature(),
            r is Ok <==> self@.canvas.width > 0 && self@.canvas.height > 0,
            r matches Err(e) ==> e == RenderError::PngEncoding && final(out)@ == old(out)@,
    {
        let f = self.get_image();
        match encode_png_rgba8(f.rgba.as_slice(), f.width, f.height) {
            Ok(bytes) => {
                let mut bytes = bytes;
                out.append(&mut bytes);
                Ok(())
            },
            Err(_) => Err(RenderError::PngEncoding),
        }
    }

    /// The PNG file of the canvas to be written as `game.png` in the working directory: the file
    /// name and the bytes (see `write_png`). Writing the file is left to the caller.
    pub fn get_png(&self) -> (r: Result<(String, Vec<u8>), RenderError>)
        requires
            drawer_wf(self@),
        ensures
            r matches Ok((name, bytes)) ==> name@ == "game.png"@ && bytes@ == png_encoding(
                rgba_of(self@),
                self@.canvas.width,
                self@.canvas.height,
            ),
            r is Ok <==> self@.canvas.width > 0 && self@.canvas.height > 0,
            r matches Ok((name, bytes)) ==> bytes@.len() > 8 && bytes@.take(8) == png_signature(),
            r matches Err(e) ==> e == RenderError::PngEncoding,
    {
        let mut bytes: Vec<u8> = Vec::new();
        match self.write_png(&mut bytes) {
            Ok(()) => {
                proof {
                    assert(bytes@ =~= png_encoding(rgba_of(self@), self@.canvas.width, self@.canvas.height));
                }
                Ok((String::from_str("game.png"), bytes))
            },
            Err(e) => Err(e),
        }
    }

    /// The canvas as an RGBA image enlarged `scale` times with nearest-neighbour sampling.
    pub fn get_scaled_image(&self, scale: u32) -> (r: Result<Frame, RenderError>)
        requires
            drawer_wf(self@),
            self@.canvas.width as int * scale as int <= u32::MAX,
            self@.canvas.height as int * scale as int <= u32::MAX,
            (self@.canvas.width as int * scale as int) * (self@.canvas.height as int * scale as int) * 4
                <= usize::MAX,
        ensures
            r matches Ok(f) ==> {
                &&& f.width == self@.canvas.width as int * scale as int
                &&& f.height == self@.canvas.height as int * scale as int
                &&& f.rgba@ == nearest_resized(
                    rgba_of(self@),
                    self@.canvas.width,
                    self@.canvas.height,
                    f.width,
                    f.height,
                )
                &&& f.rgba@.len() == f.width as int * f.height as int * 4
                &&& self@.canvas.width > 0 && self@.canvas.height > 0 && scale >= 1 && f.height <= 0x100_0000
                    ==> f.rgba@ == upscaled(
                    rgba_of(self@),
                    self@.canvas.width as int,
                    self@.canvas.height as int,
                    scale as int,
                )
            },
            r is Ok,
    {
        let src = self.get_image();
        let sw = src.width * scale;
        let sh = src.height * scale;
        proof {
            if src.width > 0 {
                vstd::arithmetic::div_mod::lemma_mod_multiples_basic(scale as int, src.width as int);
                vstd::arithmetic::div_mod::lemma_div_by_multiple(scale as int, src.width as int);
                assert(sw == scale * src.width) by (nonlinear_arith)
                    requires
                        sw == src.width * scale,
                ;
                assert(sh == src.height * (sw / src.width));
            }
        }
        match resize_nearest_rgba8(src.rgba, src.width, src.height, sw, sh) {
            Some(rgba) => Ok(Frame { width: sw, height: sh, rgba }),
            None => Err(RenderError::Resize),
        }
    }
}

} // verus!
