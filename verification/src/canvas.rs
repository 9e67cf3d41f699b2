//! Bitmap drawing on a flat, row-major pixel buffer.
//!
//! A `PixelCanvas` holds `width * height` pixels, one byte each; the pixel at
//! column `x` and row `y` lives at index `y * width + x`.

use vstd::prelude::*;

verus! {

/// The abstract state of a canvas: its dimensions and its row-major pixels.
#[verifier::ext_equal]
pub struct CanvasView {
    pub width: u32,
    pub height: u32,
    pub pixels: Seq<u8>,
}

/// `(x, y)` names a pixel of a `w` by `h` canvas.
pub open spec fn in_canvas(w: int, h: int, x: int, y: int) -> bool {
    0 <= x < w && 0 <= y < h
}

/// Row-major position of pixel `(x, y)` in a canvas `w` pixels wide.
pub open spec fn pixel_index(w: int, x: int, y: int) -> int {
    y * w + x
}

impl CanvasView {
    /// The pixel buffer has exactly one byte per pixel.
    pub open spec fn wf(self) -> bool {
        self.pixels.len() == self.width as int * self.height as int
    }

    /// The colour of pixel `(x, y)`.
    pub open spec fn at(self, x: int, y: int) -> u8 {
        self.pixels[pixel_index(self.width as int, x, y)]
    }
}

/// A fresh `w` by `h` canvas with every pixel 0.
pub open spec fn new_canvas(w: u32, h: u32) -> CanvasView {
    CanvasView { width: w, height: h, pixels: Seq::new((w as int * h as int) as nat, |i: int| 0u8) }
}

/// `c` with every pixel set to `color`.
pub open spec fn cleared(c: CanvasView, color: u8) -> CanvasView {
    CanvasView { pixels: Seq::new(c.pixels.len(), |i: int| color), ..c }
}

/// `c` with its first pixels replaced by `src`, as far as both reach.
pub open spec fn with_pixels(c: CanvasView, src: Seq<u8>) -> CanvasView {
    let n = if c.pixels.len() <= src.len() { c.pixels.len() } else { src.len() };
    CanvasView { pixels: src.take(n as int) + c.pixels.skip(n as int), ..c }
}

/// Row-major indices stay inside the buffer and name distinct pixels.
pub proof fn lemma_pixel_index(w: int, h: int, x: int, y: int)
    requires
        in_canvas(w, h, x, y),
    ensures
        0 <= pixel_index(w, x, y) < w * h,
        pixel_index(w, x, y) % w == x,
        pixel_index(w, x, y) / w == y,
{
    assert(0 <= y * w) by (nonlinear_arith)
        requires 0 <= y, 0 <= w;
    assert(y * w + x < w * h) by (nonlinear_arith)
        requires 0 <= y < h, 0 <= x < w;
    vstd::arithmetic::div_mod::lemma_fundamental_div_mod_converse(y * w + x, w, y, x);
}

/// `p` and `q` are 4-neighbours.
pub open spec fn adjacent(p: (int, int), q: (int, int)) -> bool {
    ||| p.0 == q.0 && (p.1 == q.1 + 1 || q.1 == p.1 + 1)
    ||| p.1 == q.1 && (p.0 == q.0 + 1 || q.0 == p.0 + 1)
}

/// `path` walks through 4-neighbouring pixels of `c`, all of colour `t`.
pub open spec fn is_walk(c: CanvasView, t: u8, path: Seq<(int, int)>) -> bool {
    &&& path.len() > 0
    &&& forall|i: int|
        0 <= i < path.len() ==> in_canvas(c.width as int, c.height as int, #[trigger] path[i].0, path[i].1)
            && c.at(path[i].0, path[i].1) == t
    &&& forall|i: int| 0 <= i < path.len() - 1 ==> adjacent(#[trigger] path[i], path[i + 1])
}

/// Pixel `p` is reached from `s` by a walk through pixels of colour `t`.
pub open spec fn in_region(c: CanvasView, t: u8, s: (int, int), p: (int, int)) -> bool {
    exists|path: Seq<(int, int)>| #[trigger] is_walk(c, t, path) && path[0] == s && path.last() == p
}

/// `c` after the 4-connected region of colour `t` around `(x, y)` is painted `col`.
/// The region is empty when `(x, y)` lies outside the canvas or is not of colour `t`.
pub open spec fn filled(c: CanvasView, x: int, y: int, col: u8, t: u8) -> CanvasView {
    CanvasView {
        pixels: Seq::new(
            c.pixels.len(),
            |i: int|
                if in_region(c, t, (x, y), (i % c.width as int, i / c.width as int)) {
                    col
                } else {
                    c.pixels[i]
                },
        ),
        ..c
    }
}

/// Number of pixels of colour `v`.
pub open spec fn count_of(s: Seq<u8>, v: u8) -> nat
    decreases s.len(),
{
    if s.len() == 0 {
        0
    } else {
        count_of(s.drop_last(), v) + if s.last() == v { 1nat } else { 0nat }
    }
}

/// Overwriting one entry changes the number of entries of colour `c` by at most one.
proof fn lemma_count_update(s: Seq<u8>, k: int, v: u8, c: u8)
    requires
        0 <= k < s.len(),
        s[k] == v,
        c != v,
    ensures
        count_of(s.update(k, c), v) + 1 == count_of(s, v),
    decreases s.len(),
{
    let s2 = s.update(k, c);
    if k == s.len() - 1 {
        assert(s2.drop_last() =~= s.drop_last());
    } else {
        assert(s2.drop_last() =~= s.drop_last().update(k, c));
        lemma_count_update(s.drop_last(), k, v, c);
    }
}

/// Writing pixel `(x, y)` changes that pixel only.
proof fn lemma_at_update(c: CanvasView, x: int, y: int, v: u8)
    requires
        c.wf(),
        in_canvas(c.width as int, c.height as int, x, y),
    ensures
        ({
            let c2 = CanvasView { pixels: c.pixels.update(pixel_index(c.width as int, x, y), v), ..c };
            &&& c2.wf()
            &&& forall|x2: int, y2: int|
                in_canvas(c.width as int, c.height as int, x2, y2) ==> #[trigger] c2.at(x2, y2) == if x2
                    == x && y2 == y {
                    v
                } else {
                    c.at(x2, y2)
                }
        }),
{
    let w = c.width as int;
    let h = c.height as int;
    lemma_pixel_index(w, h, x, y);
    assert forall|x2: int, y2: int| in_canvas(w, h, x2, y2) && !(x2 == x && y2 == y) implies pixel_index(
        w,
        x2,
        y2,
    ) != pixel_index(w, x, y) by {
        lemma_pixel_index(w, h, x2, y2);
    }
    assert forall|x2: int, y2: int| in_canvas(w, h, x2, y2) implies 0 <= pixel_index(w, x2, y2) < c.pixels.len() by {
        lemma_pixel_index(w, h, x2, y2);
    }
}

/// A one-pixel walk reaches its own start.
proof fn lemma_region_start(c: CanvasView, t: u8, s: (int, int))
    requires
        in_canvas(c.width as int, c.height as int, s.0, s.1),
        c.at(s.0, s.1) == t,
    ensures
        in_region(c, t, s, s),
{
    let path = seq![s];
    assert(is_walk(c, t, path));
}

/// A region grows by any neighbouring pixel of its colour.
proof fn lemma_region_extend(c: CanvasView, t: u8, s: (int, int), p: (int, int), q: (int, int))
    requires
        in_region(c, t, s, p),
        adjacent(p, q),
        in_canvas(c.width as int, c.height as int, q.0, q.1),
        c.at(q.0, q.1) == t,
    ensures
        in_region(c, t, s, q),
{
    let path = choose|path: Seq<(int, int)>| #[trigger] is_walk(c, t, path) && path[0] == s && path.last() == p;
    let path2 = path.push(q);
    assert forall|i: int| 0 <= i < path2.len() - 1 implies adjacent(#[trigger] path2[i], path2[i + 1]) by {
        if i < path.len() - 1 {
            assert(path2[i] == path[i] && path2[i + 1] == path[i + 1]);
        }
    }
    assert forall|i: int| 0 <= i < path2.len() implies in_canvas(c.width as int, c.height as int, #[trigger] path2[i].0, path2[i].1)
        && c.at(path2[i].0, path2[i].1) == t by {
        if i < path.len() {
            assert(path2[i] == path[i]);
        }
    }
    assert(is_walk(c, t, path2));
}

/// Every pixel of row `y` between columns `x1` and `x2` (inclusive, either order) has colour `t`.
pub open spec fn run_of(a: CanvasView, t: u8, y: int, x1: int, x2: int) -> bool {
    forall|x: int|
        (if x1 <= x2 { x1 } else { x2 }) <= x <= (if x1 <= x2 { x2 } else { x1 }) ==> #[trigger] a.at(x, y)
            == t
}

/// Pixel `q` is still to be painted: a stacked seed on its row reaches it through colour `t`.
pub open spec fn pending(a: CanvasView, t: u8, stack: Seq<(usize, usize)>, q: (int, int)) -> bool {
    exists|j: int|
        0 <= j < stack.len() && stack[j].1 as int == q.1 && #[trigger] run_of(
            a,
            t,
            q.1,
            stack[j].0 as int,
            q.0,
        )
}

/// Every painted pixel whose neighbour still has colour `t` has that neighbour pending.
pub open spec fn frontier_covered(o: CanvasView, a: CanvasView, col: u8, t: u8, stack: Seq<(usize, usize)>) -> bool {
    forall|p: (int, int), q: (int, int)|
        #[trigger] adjacent(p, q) && in_canvas(a.width as int, a.height as int, p.0, p.1) && in_canvas(
            a.width as int,
            a.height as int,
            q.0,
            q.1,
        ) && o.at(p.0, p.1) == t && a.at(p.0, p.1) == col && a.at(q.0, q.1) == t ==> pending(a, t, stack, q)
}

/// Every pixel of `a` is as in `o`, or was of colour `t`, lies in the region of `s`, and is now `col`.
pub open spec fn painted_within_region(o: CanvasView, a: CanvasView, col: u8, t: u8, s: (int, int)) -> bool {
    forall|x: int, y: int|
        in_canvas(a.width as int, a.height as int, x, y) ==> #[trigger] a.at(x, y) == o.at(x, y) || (a.at(x, y)
            == col && o.at(x, y) == t && in_region(o, t, s, (x, y)))
}

/// Every stacked seed is a pixel of the region of `s`.
pub open spec fn seeds_in_region(o: CanvasView, t: u8, s: (int, int), stack: Seq<(usize, usize)>) -> bool {
    forall|j: int|
        0 <= j < stack.len() ==> in_canvas(o.width as int, o.height as int, #[trigger] stack[j].0 as int, stack[j].1 as int)
            && in_region(o, t, s, (stack[j].0 as int, stack[j].1 as int))
}

/// Row-major coordinates of buffer position `i`.
proof fn lemma_index_coords(w: int, h: int, i: int)
    requires
        0 <= w,
        0 <= h,
        0 <= i < w * h,
    ensures
        w > 0,
        in_canvas(w, h, i % w, i / w),
        pixel_index(w, i % w, i / w) == i,
{
    assert(w > 0) by (nonlinear_arith)
        requires 0 <= i < w * h, 0 <= w, 0 <= h;
    vstd::arithmetic::div_mod::lemma_fundamental_div_mod(i, w);
    vstd::arithmetic::div_mod::lemma_mod_bound(i, w);
    assert(0 <= i / w) by (nonlinear_arith)
        requires 0 <= i, w > 0;
    assert(i / w < h) by (nonlinear_arith)
        requires 0 <= i < w * h, w > 0, i == w * (i / w) + i % w, 0 <= i % w;
    assert(pixel_index(w, i % w, i / w) == (i / w) * w + i % w);
    assert((i / w) * w == w * (i / w)) by (nonlinear_arith);
}

/// The pixels of row `y` between `x1` and `x2`, all of colour `t` in `o`, are in the region of any of them.
proof fn lemma_run_in_region(o: CanvasView, t: u8, s: (int, int), y: int, x1: int, x2: int)
    requires
        in_canvas(o.width as int, o.height as int, x1, y),
        in_canvas(o.width as int, o.height as int, x2, y),
        in_region(o, t, s, (x1, y)),
        run_of(o, t, y, x1, x2),
    ensures
        in_region(o, t, s, (x2, y)),
    decreases (if x1 <= x2 { x2 - x1 } else { x1 - x2 }),
{
    if x1 < x2 {
        assert(o.at(x1 + 1, y) == t);
        lemma_region_extend(o, t, s, (x1, y), (x1 + 1, y));
        lemma_run_in_region(o, t, s, y, x1 + 1, x2);
    } else if x1 > x2 {
        assert(o.at(x1 - 1, y) == t);
        lemma_region_extend(o, t, s, (x1, y), (x1 - 1, y));
        lemma_run_in_region(o, t, s, y, x1 - 1, x2);
    }
}

/// A run of colour `t` ending at a pixel outside a freshly painted maximal run keeps colour `t`
/// and never reaches into the painted run.
proof fn lemma_run_survives(
    a: CanvasView,
    a2: CanvasView,
    t: u8,
    col: u8,
    cy: int,
    l: int,
    r: int,
    y: int,
    x1: int,
    x2: int,
)
    requires
        a.wf(),
        a2.width == a.width,
        a2.height == a.height,
        col != t,
        0 <= l <= r < a.width,
        0 <= cy < a.height,
        l == 0 || a.at(l - 1, cy) != t,
        r + 1 == a.width || a.at(r + 1, cy) != t,
        forall|x: int, yy: int|
            in_canvas(a.width as int, a.height as int, x, yy) ==> #[trigger] a2.at(x, yy) == if yy == cy && l <= x
                <= r {
                col
            } else {
                a.at(x, yy)
            },
        in_canvas(a.width as int, a.height as int, x1, y),
        in_canvas(a.width as int, a.height as int, x2, y),
        a2.at(x2, y) == t,
        run_of(a, t, y, x1, x2),
    ensures
        run_of(a2, t, y, x1, x2),
        y == cy ==> !(l <= x1 <= r),
{
    let lo = if x1 <= x2 { x1 } else { x2 };
    let hi = if x1 <= x2 { x2 } else { x1 };
    assert forall|x: int| lo <= x <= hi implies #[trigger] a2.at(x, y) == t && (y == cy ==> !(l <= x <= r)) by {
        assert(a.at(x, y) == t);
        if y == cy && l <= x <= r {
            assert(!(l <= x2 <= r));
            if x2 < l {
                assert(a.at(l - 1, cy) == t);
            } else {
                assert(a.at(r + 1, cy) == t);
            }
        }
    }
}

/// Every pixel on a walk from the seed through the region ends up painted.
proof fn lemma_walk_painted(o: CanvasView, a: CanvasView, col: u8, t: u8, s: (int, int), path: Seq<(int, int)>, k: int)
    requires
        a.width == o.width,
        a.height == o.height,
        col != t,
        is_walk(o, t, path),
        path[0] == s,
        0 <= k < path.len(),
        a.at(s.0, s.1) == col,
        painted_within_region(o, a, col, t, s),
        frontier_covered(o, a, col, t, Seq::empty()),
    ensures
        a.at(path[k].0, path[k].1) == col,
    decreases k,
{
    if k > 0 {
        lemma_walk_painted(o, a, col, t, s, path, k - 1);
        let p = path[k - 1];
        let q = path[k];
        assert(adjacent(p, q));
        assert(in_canvas(o.width as int, o.height as int, p.0, p.1) && o.at(p.0, p.1) == t);
        assert(in_canvas(o.width as int, o.height as int, q.0, q.1) && o.at(q.0, q.1) == t);
        assert(a.at(q.0, q.1) == o.at(q.0, q.1) || a.at(q.0, q.1) == col);
        if a.at(q.0, q.1) == t {
            assert(pending(a, t, Seq::empty(), q));
        }
    }
}

/// Once nothing is pending, the painted pixels are exactly the region of the seed.
proof fn lemma_fill_complete(o: CanvasView, a: CanvasView, col: u8, t: u8, s: (int, int))
    requires
        a.width == o.width,
        a.height == o.height,
        col != t,
        in_canvas(o.width as int, o.height as int, s.0, s.1),
        a.at(s.0, s.1) == col,
        painted_within_region(o, a, col, t, s),
        frontier_covered(o, a, col, t, Seq::empty()),
    ensures
        forall|x: int, y: int|
            in_canvas(o.width as int, o.height as int, x, y) ==> #[trigger] a.at(x, y) == if in_region(
                o,
                t,
                s,
                (x, y),
            ) {
                col
            } else {
                o.at(x, y)
            },
{
    assert forall|x: int, y: int| in_canvas(o.width as int, o.height as int, x, y) implies #[trigger] a.at(x, y)
        == if in_region(o, t, s, (x, y)) {
        col
    } else {
        o.at(x, y)
    } by {
        if in_region(o, t, s, (x, y)) {
            let path = choose|path: Seq<(int, int)>|
                #[trigger] is_walk(o, t, path) && path[0] == s && path.last() == (x, y);
            lemma_walk_painted(o, a, col, t, s, path, path.len() - 1);
        }
    }
}

/// A pending pixel of `a` stays pending after painting the maximal run `[l, r]` of row `cy`
/// and replacing that run's seed by the pixels pushed from it.
proof fn lemma_pending_survives(
    a: CanvasView,
    a2: CanvasView,
    t: u8,
    col: u8,
    st: Seq<(usize, usize)>,
    st2: Seq<(usize, usize)>,
    cx: int,
    cy: int,
    l: int,
    r: int,
    q: (int, int),
)
    requires
        a.wf(),
        a2.width == a.width,
        a2.height == a.height,
        col != t,
        st.len() > 0,
        st.last().0 as int == cx,
        st.last().1 as int == cy,
        0 <= l <= cx <= r < a.width,
        0 <= cy < a.height,
        l == 0 || a.at(l - 1, cy) != t,
        r + 1 == a.width || a.at(r + 1, cy) != t,
        forall|x: int, yy: int|
            in_canvas(a.width as int, a.height as int, x, yy) ==> #[trigger] a2.at(x, yy) == if yy == cy && l <= x
                <= r {
                col
            } else {
                a.at(x, yy)
            },
        forall|j: int|
            0 <= j < st.len() ==> in_canvas(a.width as int, a.height as int, #[trigger] st[j].0 as int, st[j].1 as int),
        st.len() - 1 <= st2.len(),
        st2.subrange(0, st.len() - 1) == st.drop_last(),
        in_canvas(a.width as int, a.height as int, q.0, q.1),
        a2.at(q.0, q.1) == t,
        pending(a, t, st, q),
    ensures
        pending(a2, t, st2, q),
{
    let j = choose|j: int|
        0 <= j < st.len() && st[j].1 as int == q.1 && #[trigger] run_of(a, t, q.1, st[j].0 as int, q.0);
    lemma_run_survives(a, a2, t, col, cy, l, r, q.1, st[j].0 as int, q.0);
    assert(j != st.len() - 1);
    assert(st2[j] == st2.subrange(0, st.len() - 1)[j]);
    assert(st2[j] == st[j]);
    assert(run_of(a2, t, q.1, st2[j].0 as int, q.0));
}

/// One round of the scanline fill keeps all loop invariants.
proof fn lemma_fill_step(
    o: CanvasView,
    a: CanvasView,
    a2: CanvasView,
    col: u8,
    t: u8,
    s: (int, int),
    st: Seq<(usize, usize)>,
    st2: Seq<(usize, usize)>,
    cx: int,
    cy: int,
    l: int,
    r: int,
)
    requires
        o.wf(),
        a.wf(),
        a.width == o.width,
        a.height == o.height,
        a2.width == o.width,
        a2.height == o.height,
        col != t,
        st.len() > 0,
        st.last().0 as int == cx,
        st.last().1 as int == cy,
        a.at(cx, cy) == t,
        seeds_in_region(o, t, s, st),
        painted_within_region(o, a, col, t, s),
        frontier_covered(o, a, col, t, st),
        a.at(s.0, s.1) == col || pending(a, t, st, s),
        in_canvas(o.width as int, o.height as int, s.0, s.1),
        0 <= l <= cx <= r < a.width,
        forall|x: int| l <= x <= r ==> #[trigger] a.at(x, cy) == t,
        l == 0 || a.at(l - 1, cy) != t,
        r + 1 == a.width || a.at(r + 1, cy) != t,
        forall|x: int, y: int|
            in_canvas(a.width as int, a.height as int, x, y) ==> #[trigger] a2.at(x, y) == if y == cy && l <= x
                <= r {
                col
            } else {
                a.at(x, y)
            },
        st.len() - 1 <= st2.len(),
        st2.subrange(0, st.len() - 1) == st.drop_last(),
        forall|j: int|
            st.len() - 1 <= j < st2.len() ==> {
                let e = #[trigger] st2[j];
                &&& l <= e.0 <= r
                &&& (e.1 + 1 == cy || e.1 == cy + 1)
                &&& e.1 < a.height
                &&& a2.at(e.0 as int, e.1 as int) == t
            },
        forall|x: int|
            l <= x <= r && cy > 0 && #[trigger] a2.at(x, cy - 1) == t ==> st2.contains(
                (x as usize, (cy - 1) as usize),
            ),
        forall|x: int|
            l <= x <= r && cy + 1 < a.height && #[trigger] a2.at(x, cy + 1) == t ==> st2.contains(
                (x as usize, (cy + 1) as usize),
            ),
    ensures
        seeds_in_region(o, t, s, st2),
        painted_within_region(o, a2, col, t, s),
        frontier_covered(o, a2, col, t, st2),
        a2.at(s.0, s.1) == col || pending(a2, t, st2, s),
{
    let w = o.width as int;
    let h = o.height as int;
    let n = st.len() - 1;
    // the seed and its whole run lie in the region
    assert(in_region(o, t, s, (cx, cy)) && in_canvas(w, h, cx, cy)) by {
        assert(st[n] == st.last());
    }
    assert forall|x: int| l <= x <= r implies #[trigger] o.at(x, cy) == t && in_region(o, t, s, (x, cy)) by {
        assert forall|x2: int| l <= x2 <= r implies #[trigger] o.at(x2, cy) == t by {
            assert(a.at(x2, cy) == t);
            assert(in_canvas(w, h, x2, cy));
        }
        assert(run_of(o, t, cy, cx, x));
        lemma_run_in_region(o, t, s, cy, cx, x);
    }
    // seeds
    assert forall|j: int| 0 <= j < st2.len() implies in_canvas(w, h, #[trigger] st2[j].0 as int, st2[j].1 as int)
        && in_region(o, t, s, (st2[j].0 as int, st2[j].1 as int)) by {
        if j < n {
            assert(st2[j] == st2.subrange(0, n)[j]);
            assert(st2[j] == st[j]);
        } else {
            let e = st2[j];
            let e0 = e.0 as int;
            let e1 = e.1 as int;
            assert(a2.at(e0, e1) == t);
            assert(a.at(e0, e1) == t);
            assert(o.at(e0, e1) == t);
            assert(adjacent((e0, cy), (e0, e1)));
            lemma_region_extend(o, t, s, (e0, cy), (e0, e1));
        }
    }
    // painted pixels
    assert forall|x: int, y: int| in_canvas(w, h, x, y) implies #[trigger] a2.at(x, y) == o.at(x, y) || (a2.at(
        x,
        y,
    ) == col && o.at(x, y) == t && in_region(o, t, s, (x, y))) by {
        if y == cy && l <= x <= r {
            assert(o.at(x, cy) == t);
        } else {
            assert(a.at(x, y) == o.at(x, y) || (a.at(x, y) == col && o.at(x, y) == t && in_region(o, t, s, (x, y))));
        }
    }
    assert forall|j: int| 0 <= j < st.len() implies in_canvas(w, h, #[trigger] st[j].0 as int, st[j].1 as int) by {}
    // frontier
    assert forall|p: (int, int), q: (int, int)|
        #[trigger] adjacent(p, q) && in_canvas(w, h, p.0, p.1) && in_canvas(w, h, q.0, q.1) && o.at(p.0, p.1) == t
            && a2.at(p.0, p.1) == col && a2.at(q.0, q.1) == t implies pending(a2, t, st2, q) by {
        if p.1 == cy && l <= p.0 <= r {
            if q.1 == cy {
                if q.0 == l - 1 {
                    assert(a.at(l - 1, cy) != t);
                } else {
                    assert(q.0 == r + 1 || (l <= q.0 <= r));
                }
            } else {
                assert(q.0 == p.0);
                let e = (q.0 as usize, q.1 as usize);
                if q.1 == cy - 1 {
                    assert(a2.at(q.0, cy - 1) == t);
                    assert(st2.contains(e));
                } else {
                    assert(q.1 == cy + 1);
                    assert(a2.at(q.0, cy + 1) == t);
                    assert(st2.contains(e));
                }
                let k = choose|k: int| 0 <= k < st2.len() && st2[k] == e;
                assert(run_of(a2, t, q.1, st2[k].0 as int, q.0));
            }
        } else {
            assert(a.at(p.0, p.1) == col);
            assert(a.at(q.0, q.1) == t);
            assert(pending(a, t, st, q));
            lemma_pending_survives(a, a2, t, col, st, st2, cx, cy, l, r, q);
        }
    }
    // the seed pixel itself
    if a2.at(s.0, s.1) != col {
        if a.at(s.0, s.1) == col {
            assert(false);
        }
        let j = choose|j: int|
            0 <= j < st.len() && st[j].1 as int == s.1 && #[trigger] run_of(a, t, s.1, st[j].0 as int, s.0);
        assert(a.at(s.0, s.1) == t);
        assert(a2.at(s.0, s.1) == t);
        lemma_pending_survives(a, a2, t, col, st, st2, cx, cy, l, r, s);
    }
}

/// Dropping a seed that no longer has colour `t` keeps every pending pixel pending.
proof fn lemma_skip_step(a: CanvasView, t: u8, st: Seq<(usize, usize)>, q: (int, int))
    requires
        st.len() > 0,
        a.at(st.last().0 as int, st.last().1 as int) != t,
        pending(a, t, st, q),
    ensures
        pending(a, t, st.drop_last(), q),
{
    let j = choose|j: int|
        0 <= j < st.len() && st[j].1 as int == q.1 && #[trigger] run_of(a, t, q.1, st[j].0 as int, q.0);
    if j == st.len() - 1 {
        assert(a.at(st[j].0 as int, q.1) == t);
    }
    assert(st.drop_last()[j] == st[j]);
    assert(run_of(a, t, q.1, st.drop_last()[j].0 as int, q.0));
}

/// Two canvases of the same shape that agree on every pixel are equal.
proof fn lemma_pixels_from_coords(o: CanvasView, a: CanvasView, b: CanvasView)
    requires
        o.wf(),
        a.width == o.width,
        a.height == o.height,
        a.pixels.len() == o.pixels.len(),
        b.width == o.width,
        b.height == o.height,
        b.pixels.len() == o.pixels.len(),
        forall|x: int, y: int|
            in_canvas(o.width as int, o.height as int, x, y) ==> #[trigger] a.at(x, y) == b.at(x, y),
    ensures
        a == b,
{
    let w = o.width as int;
    let h = o.height as int;
    assert forall|i: int| 0 <= i < a.pixels.len() implies a.pixels[i] == b.pixels[i] by {
        lemma_index_coords(w, h, i);
        assert(a.at(i % w, i / w) == b.at(i % w, i / w));
    }
    assert(a.pixels =~= b.pixels);
}

/// Pixel `(x, y)` of `filled(c, ...)`.
proof fn lemma_filled_at(c: CanvasView, sx: int, sy: int, col: u8, t: u8, x: int, y: int)
    requires
        c.wf(),
        in_canvas(c.width as int, c.height as int, x, y),
    ensures
        filled(c, sx, sy, col, t).at(x, y) == if in_region(c, t, (sx, sy), (x, y)) {
            col
        } else {
            c.at(x, y)
        },
{
    let w = c.width as int;
    lemma_pixel_index(w, c.height as int, x, y);
}

/// Filling changes nothing when the fill colour is the target colour, when the seed lies outside
/// the canvas, or when the seed is not of the target colour.
pub proof fn lemma_filled_identity(c: CanvasView, sx: int, sy: int, col: u8, t: u8)
    requires
        c.wf(),
        col == t || !in_canvas(c.width as int, c.height as int, sx, sy) || c.at(sx, sy) != t,
    ensures
        filled(c, sx, sy, col, t) == c,
{
    let f = filled(c, sx, sy, col, t);
    assert forall|x: int, y: int| in_canvas(c.width as int, c.height as int, x, y) implies #[trigger] f.at(x, y)
        == c.at(x, y) by {
        lemma_filled_at(c, sx, sy, col, t, x, y);
        if in_region(c, t, (sx, sy), (x, y)) {
            let path = choose|path: Seq<(int, int)>|
                #[trigger] is_walk(c, t, path) && path[0] == (sx, sy) && path.last() == (x, y);
            assert(in_canvas(c.width as int, c.height as int, path[0].0, path[0].1) && c.at(path[0].0, path[0].1)
                == t);
            let k = path.len() - 1;
            assert(c.at(path[k].0, path[k].1) == t);
        }
    }
    lemma_pixels_from_coords(c, f, c);
}

/// Absolute value.
pub open spec fn abs(v: int) -> int {
    if v < 0 {
        -v
    } else {
        v
    }
}

/// The pixels Bresenham's walk visits from `(x, y)` towards `(x1, y1)`, given the error term
/// `err`, the step sizes `dx >= 0 >= dy`, the directions `sx`, `sy`, and at most `fuel` steps.
pub open spec fn bresenham_from(
    x: int,
    y: int,
    x1: int,
    y1: int,
    err: int,
    dx: int,
    dy: int,
    sx: int,
    sy: int,
    fuel: nat,
) -> Seq<(int, int)>
    decreases fuel,
{
    if fuel == 0 || (x == x1 && y == y1) {
        seq![(x, y)]
    } else {
        let e2 = 2 * err;
        let err1 = if e2 >= dy { err + dy } else { err };
        let nx = if e2 >= dy { x + sx } else { x };
        let err2 = if e2 <= dx { err1 + dx } else { err1 };
        let ny = if e2 <= dx { y + sy } else { y };
        seq![(x, y)] + bresenham_from(nx, ny, x1, y1, err2, dx, dy, sx, sy, (fuel - 1) as nat)
    }
}

/// The pixels of the Bresenham line from `(x0, y0)` to `(x1, y1)`, in drawing order.
pub open spec fn line_points(x0: int, y0: int, x1: int, y1: int) -> Seq<(int, int)> {
    let dx = abs(x1 - x0);
    let dy = -abs(y1 - y0);
    bresenham_from(x0, y0, x1, y1, dx + dy, dx, dy, dir(x0, x1), dir(y0, y1), (dx - dy) as nat)
}

/// `v` is a value of `i32`.
pub open spec fn in_i32(v: int) -> bool {
    i32::MIN <= v <= i32::MAX
}

/// Every value that the walk of `bresenham_from` computes from this state on is an `i32`.
pub open spec fn bresenham_in_range(
    x: int,
    y: int,
    x1: int,
    y1: int,
    err: int,
    dx: int,
    dy: int,
    sx: int,
    sy: int,
    fuel: nat,
) -> bool
    decreases fuel,
{
    if fuel == 0 || (x == x1 && y == y1) {
        true
    } else {
        let e2 = 2 * err;
        let err1 = if e2 >= dy { err + dy } else { err };
        let nx = if e2 >= dy { x + sx } else { x };
        let err2 = if e2 <= dx { err1 + dx } else { err1 };
        let ny = if e2 <= dx { y + sy } else { y };
        &&& in_i32(e2)
        &&& in_i32(err1)
        &&& in_i32(err2)
        &&& in_i32(nx)
        &&& in_i32(ny)
        &&& bresenham_in_range(nx, ny, x1, y1, err2, dx, dy, sx, sy, (fuel - 1) as nat)
    }
}

/// The line from `(x0, y0)` to `(x1, y1)` can be drawn with `i32` arithmetic: the coordinate
/// differences, their absolute values and every error term of the walk are `i32` values.
pub open spec fn line_in_range(x0: int, y0: int, x1: int, y1: int) -> bool {
    let dx = abs(x1 - x0);
    let dy = -abs(y1 - y0);
    &&& in_i32(x1 - x0)
    &&& in_i32(dx)
    &&& in_i32(y1 - y0)
    &&& in_i32(-dy)
    &&& bresenham_in_range(x0, y0, x1, y1, dx + dy, dx, dy, dir(x0, x1), dir(y0, y1), (dx - dy) as nat)
}

/// A pixel whose current colour is `v` may be overwritten under the colour filter `target`.
pub open spec fn target_allows(target: Option<u8>, v: u8) -> bool {
    match target {
        None => true,
        Some(t) => t == v,
    }
}

/// `c` after drawing the line from `(x0, y0)` to `(x1, y1)` in colour `col`: every in-bounds
/// pixel of the line that the filter `target` allows becomes `col`.
pub open spec fn drawn_line(c: CanvasView, x0: int, y0: int, x1: int, y1: int, col: u8, target: Option<u8>) -> CanvasView {
    CanvasView {
        pixels: Seq::new(
            c.pixels.len(),
            |i: int|
                if line_points(x0, y0, x1, y1).contains((i % c.width as int, i / c.width as int)) && target_allows(
                    target,
                    c.pixels[i],
                ) {
                    col
                } else {
                    c.pixels[i]
                },
        ),
        ..c
    }
}

/// One Bresenham step: it moves in at least one axis and never past the end point, and the
/// error term keeps its closed form `dx * (1 + b) - dyy * (1 + a)` after `a` steps in x and `b` in y.
proof fn lemma_bresenham_step(dx: int, dyy: int, a: int, b: int, err: int)
    requires
        0 <= a <= dx,
        0 <= b <= dyy,
        !(a == dx && b == dyy),
        err == dx * (1 + b) - dyy * (1 + a),
    ensures
        2 * err >= -dyy || 2 * err <= dx,
        2 * err >= -dyy ==> a < dx,
        2 * err <= dx ==> b < dyy,
        err - dyy == dx * (1 + b) - dyy * (1 + (a + 1)),
        err + dx == dx * (1 + (b + 1)) - dyy * (1 + a),
        err - dyy + dx == dx * (1 + (b + 1)) - dyy * (1 + (a + 1)),
        -(dyy * (1 + dx)) <= err <= dx * (1 + dyy),
{
    assert(err - dyy == dx * (1 + b) - dyy * (1 + (a + 1))) by (nonlinear_arith)
        requires err == dx * (1 + b) - dyy * (1 + a);
    assert(err + dx == dx * (1 + (b + 1)) - dyy * (1 + a)) by (nonlinear_arith)
        requires err == dx * (1 + b) - dyy * (1 + a);
    assert(err - dyy + dx == dx * (1 + (b + 1)) - dyy * (1 + (a + 1))) by (nonlinear_arith)
        requires err == dx * (1 + b) - dyy * (1 + a);
    assert(-(dyy * (1 + dx)) <= err <= dx * (1 + dyy)) by (nonlinear_arith)
        requires err == dx * (1 + b) - dyy * (1 + a), 0 <= a <= dx, 0 <= b <= dyy;
    if a == dx {
        assert(err <= -dyy) by (nonlinear_arith)
            requires err == dx * (1 + b) - dyy * (1 + a), a == dx, b < dyy, 0 <= b, 0 <= dx;
    }
    if b == dyy {
        assert(err >= dx) by (nonlinear_arith)
            requires err == dx * (1 + b) - dyy * (1 + a), b == dyy, a < dx, 0 <= a, 0 <= dyy;
    }
}

/// The direction, +1 or -1, in which `v1` lies from `v0` (-1 when they agree).
pub open spec fn dir(v0: int, v1: int) -> int {
    if v0 < v1 {
        1
    } else {
        -1
    }
}

/// The coordinate `a` steps from `v0` in the direction of `v1`.
pub open spec fn toward(v0: int, v1: int, a: int) -> int {
    if v0 < v1 {
        v0 + a
    } else {
        v0 - a
    }
}

/// `v` lies between `v0` and `v1` (inclusive).
pub open spec fn between(v0: int, v1: int, v: int) -> bool {
    if v0 <= v1 {
        v0 <= v <= v1
    } else {
        v1 <= v <= v0
    }
}

/// The Bresenham walk from a state `a` steps along x and `b` along y, with enough fuel,
/// starts at its current point, ends at `(x1, y1)` and stays inside the bounding box.
proof fn lemma_bresenham_walk(
    x0: int,
    y0: int,
    x1: int,
    y1: int,
    a: int,
    b: int,
    err: int,
    fuel: nat,
)
    requires
        0 <= a <= abs(x1 - x0),
        0 <= b <= abs(y1 - y0),
        err == abs(x1 - x0) * (1 + b) - abs(y1 - y0) * (1 + a),
        fuel >= (abs(x1 - x0) - a) + (abs(y1 - y0) - b),
    ensures
        ({
            let pts = bresenham_from(
                toward(x0, x1, a),
                toward(y0, y1, b),
                x1,
                y1,
                err,
                abs(x1 - x0),
                -abs(y1 - y0),
                dir(x0, x1),
                dir(y0, y1),
                fuel,
            );
            &&& pts.len() > 0
            &&& pts[0] == (toward(x0, x1, a), toward(y0, y1, b))
            &&& pts.last() == (x1, y1)
            &&& forall|i: int|
                0 <= i < pts.len() ==> between(x0, x1, #[trigger] pts[i].0) && between(y0, y1, pts[i].1)
        }),
    decreases fuel,
{
    let dx = abs(x1 - x0);
    let dyy = abs(y1 - y0);
    let sx = dir(x0, x1);
    let sy = dir(y0, y1);
    let x = toward(x0, x1, a);
    let y = toward(y0, y1, b);
    let pts = bresenham_from(x, y, x1, y1, err, dx, -dyy, sx, sy, fuel);
    if fuel == 0 || (x == x1 && y == y1) {
        assert(pts == seq![(x, y)]);
    } else {
        lemma_bresenham_step(dx, dyy, a, b, err);
        let e2 = 2 * err;
        let na = if e2 >= -dyy { a + 1 } else { a };
        let nb = if e2 <= dx { b + 1 } else { b };
        let err2 = if e2 >= -dyy {
            if e2 <= dx { err - dyy + dx } else { err - dyy }
        } else {
            if e2 <= dx { err + dx } else { err }
        };
        lemma_bresenham_walk(x0, y0, x1, y1, na, nb, err2, (fuel - 1) as nat);
        let rest = bresenham_from(toward(x0, x1, na), toward(y0, y1, nb), x1, y1, err2, dx, -dyy, sx, sy, (fuel - 1) as nat);
        assert(pts == seq![(x, y)] + rest);
        assert forall|i: int| 0 <= i < pts.len() implies between(x0, x1, #[trigger] pts[i].0) && between(
            y0,
            y1,
            pts[i].1,
        ) by {
            if i > 0 {
                assert(pts[i] == rest[i - 1]);
            } else {
                assert(pts[i] == (x, y));
            }
        }
    }
}

/// What a sequence holds after a push.
proof fn lemma_push_contains<A>(s: Seq<A>, v: A, q: A)
    ensures
        s.push(v).contains(q) <==> (s.contains(q) || q == v),
{
    if s.contains(q) {
        let k = choose|k: int| 0 <= k < s.len() && s[k] == q;
        assert(s.push(v)[k] == q);
    }
    if q == v {
        assert(s.push(v)[s.len() as int] == q);
    }
    if s.push(v).contains(q) {
        let k = choose|k: int| 0 <= k < s.push(v).len() && s.push(v)[k] == q;
        if k < s.len() {
            assert(s[k] == q);
        }
    }
}

/// Pixel `(x, y)` of `drawn_line(c, ...)`.
proof fn lemma_drawn_at(c: CanvasView, x0: int, y0: int, x1: int, y1: int, col: u8, target: Option<u8>, x: int, y: int)
    requires
        c.wf(),
        in_canvas(c.width as int, c.height as int, x, y),
    ensures
        drawn_line(c, x0, y0, x1, y1, col, target).at(x, y) == if line_points(x0, y0, x1, y1).contains((x, y))
            && target_allows(target, c.at(x, y)) {
            col
        } else {
            c.at(x, y)
        },
{
    lemma_pixel_index(c.width as int, c.height as int, x, y);
}

/// A flood fill changes only pixels of the target colour, and each into the fill colour.
pub proof fn lemma_fill_changes_only_target(c: CanvasView, sx: int, sy: int, col: u8, t: u8, x: int, y: int)
    requires
        c.wf(),
        in_canvas(c.width as int, c.height as int, x, y),
    ensures
        filled(c, sx, sy, col, t).at(x, y) != c.at(x, y) ==> c.at(x, y) == t && filled(c, sx, sy, col, t).at(x, y)
            == col,
{
    lemma_filled_at(c, sx, sy, col, t, x, y);
    if in_region(c, t, (sx, sy), (x, y)) {
        let path = choose|path: Seq<(int, int)>|
            #[trigger] is_walk(c, t, path) && path[0] == (sx, sy) && path.last() == (x, y);
        let k = path.len() - 1;
        assert(c.at(path[k].0, path[k].1) == t);
    }
}

/// A flood fill paints its seed when the seed lies in the canvas and has the target colour.
pub proof fn lemma_fill_paints_seed(c: CanvasView, sx: int, sy: int, col: u8, t: u8)
    requires
        c.wf(),
        in_canvas(c.width as int, c.height as int, sx, sy),
        c.at(sx, sy) == t,
    ensures
        filled(c, sx, sy, col, t).at(sx, sy) == col,
{
    lemma_region_start(c, t, (sx, sy));
    lemma_filled_at(c, sx, sy, col, t, sx, sy);
}

/// Filling the same region a second time changes nothing.
pub proof fn lemma_fill_idempotent(c: CanvasView, sx: int, sy: int, col: u8, t: u8)
    requires
        c.wf(),
    ensures
        filled(filled(c, sx, sy, col, t), sx, sy, col, t) == filled(c, sx, sy, col, t),
{
    let f = filled(c, sx, sy, col, t);
    if col == t || !in_canvas(c.width as int, c.height as int, sx, sy) || c.at(sx, sy) != t {
        lemma_filled_identity(c, sx, sy, col, t);
        lemma_filled_identity(f, sx, sy, col, t);
    } else {
        lemma_fill_paints_seed(c, sx, sy, col, t);
        lemma_filled_identity(f, sx, sy, col, t);
    }
}

/// The Bresenham line starts at its first end point, ends at its second, and stays inside the
/// rectangle they span.
pub proof fn lemma_line_ends(x0: int, y0: int, x1: int, y1: int)
    ensures
        line_points(x0, y0, x1, y1).len() > 0,
        line_points(x0, y0, x1, y1)[0] == (x0, y0),
        line_points(x0, y0, x1, y1).last() == (x1, y1),
        forall|i: int|
            0 <= i < line_points(x0, y0, x1, y1).len() ==> between(x0, x1, #[trigger] line_points(
                x0,
                y0,
                x1,
                y1,
            )[i].0) && between(y0, y1, line_points(x0, y0, x1, y1)[i].1),
{
    let dx = abs(x1 - x0);
    let dyy = abs(y1 - y0);
    lemma_bresenham_walk(x0, y0, x1, y1, 0, 0, dx - dyy, (dx + dyy) as nat);
    assert(toward(x0, x1, 0) == x0);
    assert(toward(y0, y1, 0) == y0);
}

/// Drawing a line paints both of its end points where they lie in the canvas and the colour
/// filter allows it, and changes no pixel off the line.
pub proof fn lemma_line_paints(c: CanvasView, x0: int, y0: int, x1: int, y1: int, col: u8, target: Option<u8>, x: int, y: int)
    requires
        c.wf(),
        in_canvas(c.width as int, c.height as int, x, y),
    ensures
        (x, y) == (x0, y0) && target_allows(target, c.at(x, y)) ==> drawn_line(c, x0, y0, x1, y1, col, target).at(x, y)
            == col,
        (x, y) == (x1, y1) && target_allows(target, c.at(x, y)) ==> drawn_line(c, x0, y0, x1, y1, col, target).at(x, y)
            == col,
        !line_points(x0, y0, x1, y1).contains((x, y)) ==> drawn_line(c, x0, y0, x1, y1, col, target).at(x, y) == c.at(
            x,
            y,
        ),
{
    lemma_line_ends(x0, y0, x1, y1);
    lemma_drawn_at(c, x0, y0, x1, y1, col, target, x, y);
    let pts = line_points(x0, y0, x1, y1);
    assert(pts[0] == (x0, y0));
    assert(pts[pts.len() - 1] == (x1, y1));
}

/// Drawing a line through the colour filter `Some(t)` paints exactly the pixels of colour `t`
/// that drawing it unfiltered paints; every other pixel keeps its colour.
pub proof fn lemma_line_filter(c: CanvasView, x0: int, y0: int, x1: int, y1: int, col: u8, t: u8)
    ensures
        drawn_line(c, x0, y0, x1, y1, col, Some(t)).pixels.len() == c.pixels.len(),
        forall|i: int|
            0 <= i < c.pixels.len() ==> #[trigger] drawn_line(c, x0, y0, x1, y1, col, Some(t)).pixels[i] == if c.pixels[i]
                == t {
                drawn_line(c, x0, y0, x1, y1, col, None).pixels[i]
            } else {
                c.pixels[i]
            },
{
}

/// The Bresenham error term stays within one and a half steps of either axis, so the walk
/// computes only `i32` values when three times each axis length is one.
proof fn lemma_range_walk(x0: int, y0: int, x1: int, y1: int, a: int, b: int, err: int, fuel: nat)
    requires
        in_i32(x0) && in_i32(y0) && in_i32(x1) && in_i32(y1),
        3 * abs(x1 - x0) <= i32::MAX,
        3 * abs(y1 - y0) <= i32::MAX,
        0 <= a <= abs(x1 - x0),
        0 <= b <= abs(y1 - y0),
        err == abs(x1 - x0) * (1 + b) - abs(y1 - y0) * (1 + a),
        -3 * abs(y1 - y0) <= 2 * err <= 3 * abs(x1 - x0),
        fuel >= (abs(x1 - x0) - a) + (abs(y1 - y0) - b),
    ensures
        bresenham_in_range(
            toward(x0, x1, a),
            toward(y0, y1, b),
            x1,
            y1,
            err,
            abs(x1 - x0),
            -abs(y1 - y0),
            dir(x0, x1),
            dir(y0, y1),
            fuel,
        ),
    decreases fuel,
{
    let dx = abs(x1 - x0);
    let dyy = abs(y1 - y0);
    let x = toward(x0, x1, a);
    let y = toward(y0, y1, b);
    if !(fuel == 0 || (x == x1 && y == y1)) {
        lemma_bresenham_step(dx, dyy, a, b, err);
        let e2 = 2 * err;
        let na = if e2 >= -dyy { a + 1 } else { a };
        let nb = if e2 <= dx { b + 1 } else { b };
        let err1 = if e2 >= -dyy { err - dyy } else { err };
        let err2 = if e2 <= dx { err1 + dx } else { err1 };
        lemma_range_walk(x0, y0, x1, y1, na, nb, err2, (fuel - 1) as nat);
    }
}

/// A line whose end points have coordinates of magnitude at most 2^28 can be drawn with `i32`
/// arithmetic.
pub proof fn lemma_small_line_in_range(x0: int, y0: int, x1: int, y1: int)
    requires
        -0x1000_0000 <= x0 <= 0x1000_0000,
        -0x1000_0000 <= y0 <= 0x1000_0000,
        -0x1000_0000 <= x1 <= 0x1000_0000,
        -0x1000_0000 <= y1 <= 0x1000_0000,
    ensures
        line_in_range(x0, y0, x1, y1),
{
    let dx = abs(x1 - x0);
    let dyy = abs(y1 - y0);
    lemma_range_walk(x0, y0, x1, y1, 0, 0, dx - dyy, (dx + dyy) as nat);
    assert(toward(x0, x1, 0) == x0);
    assert(toward(y0, y1, 0) == y0);
}

/// Whether the line from `(x0, y0)` to `(x1, y1)` can be drawn with `i32` arithmetic, see
/// `line_in_range`.
pub fn line_fits(x0: i32, y0: i32, x1: i32, y1: i32) -> (r: bool)
    ensures
        r == line_in_range(x0 as int, y0 as int, x1 as int, y1 as int),
{
    let ddx = x1 as i64 - x0 as i64;
    let ddy = y1 as i64 - y0 as i64;
    if ddx < -0x7FFF_FFFF || ddx > 0x7FFF_FFFF || ddy < -0x7FFF_FFFF || ddy > 0x7FFF_FFFF {
        return false;
    }
    let dx: i64 = if ddx >= 0 { ddx } else { -ddx };
    let dy: i64 = if ddy >= 0 { -ddy } else { ddy };
    let sx: i64 = if x0 < x1 { 1 } else { -1 };
    let sy: i64 = if y0 < y1 { 1 } else { -1 };
    let mut err: i128 = (dx + dy) as i128;
    let mut x: i64 = x0 as i64;
    let mut y: i64 = y0 as i64;
    let ghost mut a: int = 0;
    let ghost mut b: int = 0;
    let ghost mut fuel: nat = (dx - dy) as nat;
    proof {
        assert(dx * (1 + 0) - (-dy) * (1 + 0) == dx + dy);
    }
    loop
        invariant
            dx == abs(x1 - x0),
            dy == -abs(y1 - y0),
            in_i32(dx as int),
            in_i32(-dy as int),
            sx == dir(x0 as int, x1 as int),
            sy == dir(y0 as int, y1 as int),
            0 <= a <= dx,
            0 <= b <= -dy,
            x == toward(x0 as int, x1 as int, a),
            y == toward(y0 as int, y1 as int, b),
            err == dx * (1 + b) - (-dy) * (1 + a),
            fuel >= (dx - a) + (-dy - b),
            line_in_range(x0 as int, y0 as int, x1 as int, y1 as int) == bresenham_in_range(
                x as int,
                y as int,
                x1 as int,
                y1 as int,
                err as int,
                dx as int,
                dy as int,
                sx as int,
                sy as int,
                fuel,
            ),
        decreases fuel,
    {
        if x == x1 as i64 && y == y1 as i64 {
            return true;
        }
        proof {
            lemma_bresenham_step(dx as int, -dy as int, a, b, err as int);
            assert(dx * (1 + (-dy)) <= 0x1_0000_0000 * 0x1_0000_0001) by (nonlinear_arith)
                requires
                    0 <= dx <= 0x1_0000_0000,
                    0 <= -dy <= 0x1_0000_0000,
            ;
            assert((-dy) * (1 + dx) <= 0x1_0000_0000 * 0x1_0000_0001) by (nonlinear_arith)
                requires
                    0 <= dx <= 0x1_0000_0000,
                    0 <= -dy <= 0x1_0000_0000,
            ;
            assert(fuel > 0);
        }
        let e2 = 2 * err;
        let err1 = if e2 >= dy as i128 { err + dy as i128 } else { err };
        let nx = if e2 >= dy as i128 { x + sx } else { x };
        let err2 = if e2 <= dx as i128 { err1 + dx as i128 } else { err1 };
        let ny = if e2 <= dx as i128 { y + sy } else { y };
        if e2 < -0x8000_0000 || e2 > 0x7FFF_FFFF || err1 < -0x8000_0000 || err1 > 0x7FFF_FFFF || err2
            < -0x8000_0000 || err2 > 0x7FFF_FFFF || nx < -0x8000_0000 || nx > 0x7FFF_FFFF || ny < -0x8000_0000
            || ny > 0x7FFF_FFFF {
            return false;
        }
        proof {
            if e2 >= dy as i128 {
                a = a + 1;
            }
            if e2 <= dx as i128 {
                b = b + 1;
            }
            fuel = (fuel - 1) as nat;
        }
        err = err2;
        x = nx;
        y = ny;
    }
}

pub struct PixelCanvas {
    pub array: Vec<u8>,
    pub width: u32,
    pub height: u32,
}

impl View for PixelCanvas {
    type V = CanvasView;

    open spec fn view(&self) -> CanvasView {
        CanvasView { width: self.width, height: self.height, pixels: self.array@ }
    }
}

impl PixelCanvas {
    /// A `w` by `h` canvas with every pixel 0.
    pub fn new(w: u32, h: u32) -> (c: Self)
        requires
            w as int * h as int <= usize::MAX,
        ensures
            c@ == new_canvas(w, h),
    {
        let n = (w as usize) * (h as usize);
        let mut array: Vec<u8> = Vec::with_capacity(n);
        let mut i: usize = 0;
        while i < n
            invariant
                i <= n,
                array@ == Seq::new(i as nat, |k: int| 0u8),
            decreases n - i,
        {
            array.push(0);
            i = i + 1;
        }
        PixelCanvas { array, width: w, height: h }
    }

    /// Whether `(x, y)` names a pixel of this canvas.
    pub fn in_bounds(&self, x: i32, y: i32) -> (r: bool)
        ensures
            r == in_canvas(self.width as int, self.height as int, x as int, y as int),
    {
        x >= 0 && (x as u32) < self.width && y >= 0 && (y as u32) < self.height
    }

    /// Buffer position of pixel `(x, y)`.
    pub fn index(&self, x: i32, y: i32) -> (i: usize)
        requires
            self@.wf(),
            in_canvas(self.width as int, self.height as int, x as int, y as int),
        ensures
            i == pixel_index(self.width as int, x as int, y as int),
            i < self.array@.len(),
    {
        proof {
            lemma_pixel_index(self.width as int, self.height as int, x as int, y as int);
            assert(self.array@.len() == self.array.len());
        }
        (y as usize) * (self.width as usize) + (x as usize)
    }

    /// Sets every pixel to `color`.
    pub fn clear(&mut self, color: u8)
        ensures
            final(self)@ == cleared(old(self)@, color),
    {
        let n = self.array.len();
        let mut i: usize = 0;
        while i < n
            invariant
                i <= n,
                n == self.array@.len(),
                self.width == old(self).width,
                self.height == old(self).height,
                n == old(self).array@.len(),
                forall|k: int| 0 <= k < i ==> self.array@[k] == color,
            decreases n - i,
        {
            self.array.set(i, color);
            i = i + 1;
        }
        assert(self.array@ =~= Seq::new(n as nat, |k: int| color));
    }

    /// Copies `pixels` over the start of the buffer, as far as both reach.
    pub fn set_pixels(&mut self, pixels: &[u8])
        ensures
            final(self)@ == with_pixels(old(self)@, pixels@),
    {
        let n = if self.array.len() <= pixels.len() { self.array.len() } else { pixels.len() };
        let mut i: usize = 0;
        while i < n
            invariant
                i <= n,
                n <= pixels@.len(),
                n <= old(self).array@.len(),
                n == (if old(self).array@.len() <= pixels@.len() { old(self).array@.len() } else { pixels@.len() }),
                self.width == old(self).width,
                self.height == old(self).height,
                self.array@.len() == old(self).array@.len(),
                forall|k: int| 0 <= k < i ==> self.array@[k] == pixels@[k],
                forall|k: int| i <= k < self.array@.len() ==> self.array@[k] == old(self).array@[k],
            decreases n - i,
        {
            self.array.set(i, pixels[i]);
            i = i + 1;
        }
        assert(self.array@ =~= pixels@.take(n as int) + old(self).array@.skip(n as int));
    }

    /// Paints the maximal run of colour `target` on row `cy` through column `cx`,
    /// returning its first and last column.
    fn fill_run(&mut self, cx: usize, cy: usize, col: u8, target: u8) -> (r: (usize, usize))
        requires
            old(self)@.wf(),
            cx < old(self).width,
            cy < old(self).height,
            old(self)@.at(cx as int, cy as int) == target,
            col != target,
        ensures
            final(self).width == old(self).width,
            final(self).height == old(self).height,
            final(self)@.wf(),
            r.0 <= cx <= r.1 < old(self).width,
            forall|x: int| r.0 <= x <= r.1 ==> #[trigger] old(self)@.at(x, cy as int) == target,
            r.0 == 0 || old(self)@.at(r.0 - 1, cy as int) != target,
            r.1 + 1 == old(self).width || old(self)@.at(r.1 + 1, cy as int) != target,
            forall|x: int, y: int|
                in_canvas(old(self).width as int, old(self).height as int, x, y) ==> #[trigger] final(self)@.at(x, y)
                    == if y == cy && r.0 <= x <= r.1 {
                    col
                } else {
                    old(self)@.at(x, y)
                },
            count_of(final(self).array@, target) + (r.1 - r.0 + 1) == count_of(old(self).array@, target),
    {
        let ghost o = self@;
        let ghost h = self.height as int;
        let w = self.width as usize;
        proof {
            lemma_pixel_index(w as int, h, cx as int, cy as int);
            assert(self.array@.len() == self.array.len());
            assert(cy * w <= cy * w + cx);
            assert(cy * w + w <= w * h) by (nonlinear_arith)
                requires cy < h, 0 <= w;
            lemma_at_update(self@, cx as int, cy as int, col);
            lemma_count_update(self.array@, (cy * w + cx) as int, target, col);
        }
        let row = cy * w;
        self.array.set(row + cx, col);
        let mut left = cx;
        while left > 0 && self.array[row + left - 1] == target
            invariant
                o.wf(),
                w == o.width,
                h == o.height,
                row == cy * w,
                row + w <= self.array@.len(),
                self.array@.len() <= usize::MAX,
                cx < w,
                cy < h,
                col != target,
                self.width == o.width,
                self.height == o.height,
                self.array@.len() == o.pixels.len(),
                left <= cx,
                forall|x: int| left <= x <= cx ==> #[trigger] o.at(x, cy as int) == target,
                forall|x: int, y: int|
                    in_canvas(w as int, h, x, y) ==> #[trigger] self@.at(x, y) == if y == cy && left <= x <= cx {
                        col
                    } else {
                        o.at(x, y)
                    },
                count_of(self.array@, target) + (cx - left + 1) == count_of(o.pixels, target),
            decreases left,
        {
            proof {
                lemma_pixel_index(w as int, h, left - 1, cy as int);
            }
            left = left - 1;
            proof {
                assert(self@.at(left as int, cy as int) == o.at(left as int, cy as int));
                lemma_at_update(self@, left as int, cy as int, col);
                lemma_count_update(self.array@, (row + left) as int, target, col);
            }
            self.array.set(row + left, col);
        }
        proof {
            if left > 0 {
                lemma_pixel_index(w as int, h, left - 1, cy as int);
                assert(self@.at(left - 1, cy as int) == o.at(left - 1, cy as int));
            }
        }
        let mut right = cx;
        while right + 1 < w && self.array[row + right + 1] == target
            invariant
                o.wf(),
                w == o.width,
                h == o.height,
                row == cy * w,
                row + w <= self.array@.len(),
                self.array@.len() <= usize::MAX,
                cx < w,
                cy < h,
                col != target,
                self.width == o.width,
                self.height == o.height,
                self.array@.len() == o.pixels.len(),
                left <= cx <= right < w,
                forall|x: int| left <= x <= right ==> #[trigger] o.at(x, cy as int) == target,
                forall|x: int, y: int|
                    in_canvas(w as int, h, x, y) ==> #[trigger] self@.at(x, y) == if y == cy && left <= x
                        <= right {
                        col
                    } else {
                        o.at(x, y)
                    },
                count_of(self.array@, target) + (right - left + 1) == count_of(o.pixels, target),
            decreases w - right,
        {
            proof {
                lemma_pixel_index(w as int, h, right + 1, cy as int);
            }
            right = right + 1;
            proof {
                assert(self@.at(right as int, cy as int) == o.at(right as int, cy as int));
                lemma_at_update(self@, right as int, cy as int, col);
                lemma_count_update(self.array@, (row + right) as int, target, col);
            }
            self.array.set(row + right, col);
        }
        proof {
            if right + 1 < w {
                lemma_pixel_index(w as int, h, right + 1, cy as int);
                assert(self@.at(right + 1, cy as int) == o.at(right + 1, cy as int));
            }
        }
        (left, right)
    }

    /// Pushes every pixel of colour `target` directly above or below columns `left..=right` of row `cy`.
    fn push_neighbours(&self, stack: &mut Vec<(usize, usize)>, left: usize, right: usize, cy: usize, target: u8)
        requires
            self@.wf(),
            left <= right < self.width,
            cy < self.height,
        ensures
            old(stack)@.len() <= final(stack)@.len() <= old(stack)@.len() + 2 * (right - left + 1),
            final(stack)@.subrange(0, old(stack)@.len() as int) == old(stack)@,
            forall|j: int|
                old(stack)@.len() <= j < final(stack)@.len() ==> {
                    let e = #[trigger] final(stack)@[j];
                    &&& left <= e.0 <= right
                    &&& (e.1 + 1 == cy || e.1 == cy + 1)
                    &&& e.1 < self.height
                    &&& self@.at(e.0 as int, e.1 as int) == target
                },
            forall|x: int|
                left <= x <= right && cy > 0 && #[trigger] self@.at(x, cy - 1) == target ==> final(stack)@.contains(
                    (x as usize, (cy - 1) as usize),
                ),
            forall|x: int|
                left <= x <= right && cy + 1 < self.height && #[trigger] self@.at(x, cy + 1) == target
                    ==> final(stack)@.contains((x as usize, (cy + 1) as usize)),
    {
        let w = self.width as usize;
        let h = self.height as usize;
        let ghost n0 = stack@.len();
        let mut i = left;
        proof {
            assert(self.array@.len() == self.array.len());
        }
        while i <= right
            invariant
                self@.wf(),
                w == self.width,
                h == self.height,
                left <= i <= right + 1,
                right < w,
                cy < h,
                self.array@.len() == self.array.len(),
                n0 <= stack@.len() <= n0 + 2 * (i - left),
                stack@.subrange(0, n0 as int) == old(stack)@,
                n0 == old(stack)@.len(),
                forall|j: int|
                    n0 <= j < stack@.len() ==> {
                        let e = #[trigger] stack@[j];
                        &&& left <= e.0 < i
                        &&& (e.1 + 1 == cy || e.1 == cy + 1)
                        &&& e.1 < h
                        &&& self@.at(e.0 as int, e.1 as int) == target
                    },
                forall|x: int|
                    left <= x < i && cy > 0 && #[trigger] self@.at(x, cy - 1) == target ==> stack@.contains(
                        (x as usize, (cy - 1) as usize),
                    ),
                forall|x: int|
                    left <= x < i && cy + 1 < h && #[trigger] self@.at(x, cy + 1) == target ==> stack@.contains(
                        (x as usize, (cy + 1) as usize),
                    ),
            decreases right + 1 - i,
        {
            let ghost before = stack@;
            if cy > 0 {
                proof {
                    lemma_pixel_index(w as int, h as int, i as int, cy - 1);
                }
                if self.array[(cy - 1) * w + i] == target {
                    stack.push((i, cy - 1));
                    proof {
                        assert(stack@[stack@.len() - 1] == (i, (cy - 1) as usize));
                    }
                }
            }
            let ghost mid = stack@;
            proof {
                assert forall|e: (usize, usize)| before.contains(e) implies mid.contains(e) by {
                    let k = choose|k: int| 0 <= k < before.len() && before[k] == e;
                    assert(mid[k] == e);
                }
                assert(mid.subrange(0, n0 as int) =~= old(stack)@) by {
                    assert forall|k: int| 0 <= k < n0 implies mid[k] == before[k] by {}
                }
            }
            if cy + 1 < h {
                proof {
                    lemma_pixel_index(w as int, h as int, i as int, cy + 1);
                }
                if self.array[(cy + 1) * w + i] == target {
                    stack.push((i, cy + 1));
                    proof {
                        assert(stack@[stack@.len() - 1] == (i, (cy + 1) as usize));
                    }
                }
            }
            proof {
                assert forall|e: (usize, usize)| mid.contains(e) implies stack@.contains(e) by {
                    let k = choose|k: int| 0 <= k < mid.len() && mid[k] == e;
                    assert(stack@[k] == e);
                }
                assert(stack@.subrange(0, n0 as int) =~= old(stack)@) by {
                    assert forall|k: int| 0 <= k < n0 implies stack@[k] == mid[k] by {}
                }
                assert forall|x: int|
                    left <= x < i + 1 && cy > 0 && #[trigger] self@.at(x, cy - 1) == target implies stack@.contains(
                        (x as usize, (cy - 1) as usize),
                    ) by {
                    if x < i {
                        assert(before.contains((x as usize, (cy - 1) as usize)));
                    } else {
                        assert(mid.contains((x as usize, (cy - 1) as usize))) by {
                            assert(mid[mid.len() - 1] == (x as usize, (cy - 1) as usize));
                        }
                    }
                }
            }
            i = i + 1;
        }
    }

    /// Stack-based scanline flood fill. Fills the region containing `(x, y)`
    /// with `col`, but only replaces pixels currently equal to `target_col`.
    pub fn flood_fill(&mut self, x: i32, y: i32, col: u8, target_col: u8)
        requires
            old(self)@.wf(),
        ensures
            final(self)@ == filled(old(self)@, x as int, y as int, col, target_col),
    {
        let ghost o = self@;
        let ghost s = (x as int, y as int);
        let ghost w = self.width as int;
        let ghost h = self.height as int;
        if col == target_col {
            proof {
                lemma_filled_identity(o, x as int, y as int, col, target_col);
            }
            return;
        }
        if !self.in_bounds(x, y) {
            proof {
                lemma_filled_identity(o, x as int, y as int, col, target_col);
            }
            return;
        }
        if self.array[self.index(x, y)] != target_col {
            proof {
                lemma_filled_identity(o, x as int, y as int, col, target_col);
            }
            return;
        }
        let wu = self.width as usize;
        let mut stack: Vec<(usize, usize)> = Vec::new();
        stack.push((x as usize, y as usize));
        proof {
            lemma_region_start(o, target_col, s);
            assert(stack@[0] == (x as usize, y as usize));
            assert(run_of(self@, target_col, s.1, stack@[0].0 as int, s.0));
            assert(pending(self@, target_col, stack@, s));
            assert(self.array@.len() == self.array.len());
        }
        while stack.len() > 0
            invariant
                o.wf(),
                self@.wf(),
                self.width == o.width,
                self.height == o.height,
                self.array@.len() == o.pixels.len(),
                self.array@.len() <= usize::MAX,
                wu == w,
                w == o.width,
                h == o.height,
                col != target_col,
                in_canvas(w, h, s.0, s.1),
                o.at(s.0, s.1) == target_col,
                seeds_in_region(o, target_col, s, stack@),
                painted_within_region(o, self@, col, target_col, s),
                frontier_covered(o, self@, col, target_col, stack@),
                self@.at(s.0, s.1) == col || pending(self@, target_col, stack@, s),
            decreases 3 * count_of(self.array@, target_col) + stack@.len(),
        {
            let ghost a = self@;
            let ghost st = stack@;
            let (cx, cy) = stack.pop().unwrap();
            proof {
                assert(st.last() == (cx, cy));
                assert(stack@ == st.drop_last());
                assert(in_canvas(w, h, st[st.len() - 1].0 as int, st[st.len() - 1].1 as int));
                lemma_pixel_index(w, h, cx as int, cy as int);
            }
            if self.array[cy * wu + cx] == target_col {
                let (left, right) = self.fill_run(cx, cy, col, target_col);
                let ghost a2 = self@;
                self.push_neighbours(&mut stack, left, right, cy, target_col);
                proof {
                    lemma_fill_step(
                        o,
                        a,
                        a2,
                        col,
                        target_col,
                        s,
                        st,
                        stack@,
                        cx as int,
                        cy as int,
                        left as int,
                        right as int,
                    );
                }
            } else {
                proof {
                    assert forall|p: (int, int), q: (int, int)|
                        #[trigger] adjacent(p, q) && in_canvas(w, h, p.0, p.1) && in_canvas(w, h, q.0, q.1) && o.at(
                            p.0,
                            p.1,
                        ) == target_col && a.at(p.0, p.1) == col && a.at(q.0, q.1) == target_col implies pending(
                        a,
                        target_col,
                        stack@,
                        q,
                    ) by {
                        lemma_skip_step(a, target_col, st, q);
                    }
                    if a.at(s.0, s.1) != col {
                        lemma_skip_step(a, target_col, st, s);
                    }
                    assert forall|j: int| 0 <= j < stack@.len() implies in_canvas(
                        w,
                        h,
                        #[trigger] stack@[j].0 as int,
                        stack@[j].1 as int,
                    ) && in_region(o, target_col, s, (stack@[j].0 as int, stack@[j].1 as int)) by {
                        assert(stack@[j] == st[j]);
                    }
                }
            }
        }
        proof {
            assert(stack@ =~= Seq::<(usize, usize)>::empty());
            if self@.at(s.0, s.1) != col {
                let j = choose|j: int|
                    0 <= j < stack@.len() && stack@[j].1 as int == s.1 && #[trigger] run_of(
                        self@,
                        target_col,
                        s.1,
                        stack@[j].0 as int,
                        s.0,
                    );
            }
            lemma_fill_complete(o, self@, col, target_col, s);
            let f = filled(o, x as int, y as int, col, target_col);
            assert forall|px: int, py: int| in_canvas(w, h, px, py) implies #[trigger] self@.at(px, py) == f.at(px, py) by {
                lemma_filled_at(o, x as int, y as int, col, target_col, px, py);
            }
            lemma_pixels_from_coords(o, self@, f);
        }
    }

    /// Bresenham line. If `target_color` is `Some(c)`, only overwrites pixels
    /// currently equal to `c`. Writes only to in-bounds pixels.
    pub fn draw_line(&mut self, x0: i32, y0: i32, x1: i32, y1: i32, col: u8, target_color: Option<u8>)
        requires
            old(self)@.wf(),
            line_in_range(x0 as int, y0 as int, x1 as int, y1 as int),
        ensures
            final(self)@ == drawn_line(old(self)@, x0 as int, y0 as int, x1 as int, y1 as int, col, target_color),
    {
        let ghost o = self@;
        let ghost pts = line_points(x0 as int, y0 as int, x1 as int, y1 as int);
        let ghost w = self.width as int;
        let ghost h = self.height as int;
        let dx: i64 = if x1 >= x0 { x1 as i64 - x0 as i64 } else { x0 as i64 - x1 as i64 };
        let sx: i64 = if x0 < x1 { 1 } else { -1 };
        let dy: i64 = if y1 >= y0 { y0 as i64 - y1 as i64 } else { y1 as i64 - y0 as i64 };
        let sy: i64 = if y0 < y1 { 1 } else { -1 };
        let mut err: i128 = (dx + dy) as i128;
        let mut x: i64 = x0 as i64;
        let mut y: i64 = y0 as i64;
        let ghost mut a: int = 0;
        let ghost mut b: int = 0;
        let ghost mut fuel: nat = (dx - dy) as nat;
        let ghost mut done: Seq<(int, int)> = Seq::empty();
        proof {
            assert(done + pts =~= pts);
            assert(dx * (1 + 0) - (-dy) * (1 + 0) == dx + dy);
        }
        loop
            invariant_except_break
                dx == abs(x1 - x0),
                dy == -abs(y1 - y0),
                sx == dir(x0 as int, x1 as int),
                sy == dir(y0 as int, y1 as int),
                0 <= a <= dx,
                0 <= b <= -dy,
                x == toward(x0 as int, x1 as int, a),
                y == toward(y0 as int, y1 as int, b),
                err == dx * (1 + b) - (-dy) * (1 + a),
                fuel >= (dx - a) + (-dy - b),
                done + bresenham_from(x as int, y as int, x1 as int, y1 as int, err as int, dx as int, dy as int, sx as int, sy as int, fuel) == pts,
            invariant
                o.wf(),
                w == o.width,
                h == o.height,
                self.width == o.width,
                self.height == o.height,
                self.array@.len() == o.pixels.len(),
                forall|px: int, py: int|
                    in_canvas(w, h, px, py) ==> #[trigger] self@.at(px, py) == if done.contains((px, py))
                        && target_allows(target_color, o.at(px, py)) {
                        col
                    } else {
                        o.at(px, py)
                    },
            ensures
                done == pts,
            decreases fuel,
        {
            let ghost before = self@;
            self.plot(x as i32, y as i32, col, target_color);
            proof {
                let p = (x as int, y as int);
                assert forall|px: int, py: int| in_canvas(w, h, px, py) implies #[trigger] self@.at(px, py) == if done.push(
                    p,
                ).contains((px, py)) && target_allows(target_color, o.at(px, py)) {
                    col
                } else {
                    o.at(px, py)
                } by {
                    lemma_push_contains(done, p, (px, py));
                    assert(before.at(px, py) == if done.contains((px, py)) && target_allows(target_color, o.at(px, py)) {
                        col
                    } else {
                        o.at(px, py)
                    });
                }
                done = done.push(p);
            }
            if x == x1 as i64 && y == y1 as i64 {
                proof {
                    let rest = bresenham_from(x as int, y as int, x1 as int, y1 as int, err as int, dx as int, dy as int, sx as int, sy as int, fuel);
                    assert(rest == seq![(x as int, y as int)]);
                    assert(done =~= pts);
                }
                break;
            }
            proof {
                lemma_bresenham_step(dx as int, -dy as int, a, b, err as int);
                assert(dx * (1 + (-dy)) <= 0x1_0000_0000 * 0x1_0000_0001) by (nonlinear_arith)
                    requires 0 <= dx <= 0x1_0000_0000, 0 <= -dy <= 0x1_0000_0000;
                assert((-dy) * (1 + dx) <= 0x1_0000_0000 * 0x1_0000_0001) by (nonlinear_arith)
                    requires 0 <= dx <= 0x1_0000_0000, 0 <= -dy <= 0x1_0000_0000;
                assert(-0x1_0000_0000 * 0x1_0000_0001 <= err <= 0x1_0000_0000 * 0x1_0000_0001);
                assert(fuel > 0);
                let rest = bresenham_from(x as int, y as int, x1 as int, y1 as int, err as int, dx as int, dy as int, sx as int, sy as int, fuel);
                assert(done =~= pts.take(done.len() as int));
            }
            let e2 = 2 * err;
            let ghost old_rest = bresenham_from(x as int, y as int, x1 as int, y1 as int, err as int, dx as int, dy as int, sx as int, sy as int, fuel);
            let ghost old_done = done;
            if e2 >= dy as i128 {
                err = err + dy as i128;
                x = x + sx;
                proof {
                    a = a + 1;
                }
            }
            if e2 <= dx as i128 {
                err = err + dx as i128;
                y = y + sy;
                proof {
                    b = b + 1;
                }
            }
            proof {
                fuel = (fuel - 1) as nat;
                let rest = bresenham_from(x as int, y as int, x1 as int, y1 as int, err as int, dx as int, dy as int, sx as int, sy as int, fuel);
                assert(old_rest == seq![old_rest[0]] + rest);
                assert(done + rest =~= (old_done.drop_last()) + old_rest);
            }
        }
        proof {
            let f = drawn_line(o, x0 as int, y0 as int, x1 as int, y1 as int, col, target_color);
            assert forall|px: int, py: int| in_canvas(w, h, px, py) implies #[trigger] self@.at(px, py) == f.at(px, py) by {
                lemma_drawn_at(o, x0 as int, y0 as int, x1 as int, y1 as int, col, target_color, px, py);
            }
            lemma_pixels_from_coords(o, self@, f);
        }
    }

    /// Paints pixel `(x, y)` with `col` if it lies on the canvas and the filter `target` allows its colour.
    fn plot(&mut self, x: i32, y: i32, col: u8, target: Option<u8>)
        requires
            old(self)@.wf(),
        ensures
            final(self).width == old(self).width,
            final(self).height == old(self).height,
            final(self).array@.len() == old(self).array@.len(),
            forall|px: int, py: int|
                in_canvas(old(self).width as int, old(self).height as int, px, py) ==> #[trigger] final(self)@.at(px, py)
                    == if px == x && py == y && target_allows(target, old(self)@.at(px, py)) {
                    col
                } else {
                    old(self)@.at(px, py)
                },
    {
        if self.in_bounds(x, y) {
            let i = self.index(x, y);
            let current = self.array[i];
            let allowed = match target {
                None => true,
                Some(t) => t == current,
            };
            if allowed {
                proof {
                    lemma_at_update(self@, x as int, y as int, col);
                }
                self.array.set(i, col);
            }
        }
    }
}

} // verus!
