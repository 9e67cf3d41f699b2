use gamemaster::canvas::{line_fits, PixelCanvas};

fn at(c: &PixelCanvas, x: u32, y: u32) -> u8 {
    c.array[(y * c.width + x) as usize]
}

#[test]
fn new_canvas_is_blank() {
    let c = PixelCanvas::new(5, 3);
    assert_eq!(c.width, 5);
    assert_eq!(c.height, 3);
    assert_eq!(c.array, vec![0u8; 15]);
}

#[test]
fn empty_canvas() {
    let c = PixelCanvas::new(0, 7);
    assert!(c.array.is_empty());
    assert!(!c.in_bounds(0, 0));
}

#[test]
fn bounds_and_index() {
    let c = PixelCanvas::new(4, 3);
    assert!(c.in_bounds(0, 0));
    assert!(c.in_bounds(3, 2));
    assert!(!c.in_bounds(4, 0));
    assert!(!c.in_bounds(0, 3));
    assert!(!c.in_bounds(-1, 1));
    assert!(!c.in_bounds(1, -1));
    assert_eq!(c.index(0, 0), 0);
    assert_eq!(c.index(3, 0), 3);
    assert_eq!(c.index(1, 2), 9);
}

#[test]
fn clear_sets_every_pixel() {
    let mut c = PixelCanvas::new(3, 2);
    c.clear(9);
    assert_eq!(c.array, vec![9u8; 6]);
    c.clear(0);
    assert_eq!(c.array, vec![0u8; 6]);
}

#[test]
fn set_pixels_shorter_source() {
    let mut c = PixelCanvas::new(2, 2);
    c.clear(7);
    c.set_pixels(&[1, 2]);
    assert_eq!(c.array, vec![1, 2, 7, 7]);
}

#[test]
fn set_pixels_longer_source() {
    let mut c = PixelCanvas::new(2, 1);
    c.set_pixels(&[1, 2, 3, 4]);
    assert_eq!(c.array, vec![1, 2]);
    assert_eq!(c.width, 2);
    assert_eq!(c.height, 1);
}

#[test]
fn horizontal_line() {
    let mut c = PixelCanvas::new(5, 3);
    c.draw_line(0, 1, 4, 1, 3, None);
    for x in 0..5 {
        assert_eq!(at(&c, x, 1), 3);
        assert_eq!(at(&c, x, 0), 0);
        assert_eq!(at(&c, x, 2), 0);
    }
}

#[test]
fn vertical_line_reversed() {
    let mut c = PixelCanvas::new(3, 4);
    c.draw_line(2, 3, 2, 0, 5, None);
    for y in 0..4 {
        assert_eq!(at(&c, 2, y), 5);
        assert_eq!(at(&c, 0, y), 0);
    }
}

#[test]
fn shallow_line_pixels() {
    let mut c = PixelCanvas::new(5, 3);
    c.draw_line(0, 0, 4, 2, 1, None);
    let expected: [(u32, u32); 5] = [(0, 0), (1, 1), (2, 1), (3, 2), (4, 2)];
    let mut count = 0;
    for y in 0..3 {
        for x in 0..5 {
            let on = expected.contains(&(x, y));
            assert_eq!(at(&c, x, y), if on { 1 } else { 0 }, "pixel {x},{y}");
            if on {
                count += 1;
            }
        }
    }
    assert_eq!(count, 5);
}

#[test]
fn single_point_line() {
    let mut c = PixelCanvas::new(3, 3);
    c.draw_line(1, 1, 1, 1, 4, None);
    assert_eq!(at(&c, 1, 1), 4);
    assert_eq!(c.array.iter().filter(|&&p| p != 0).count(), 1);
}

#[test]
fn line_clipped_to_canvas() {
    let mut c = PixelCanvas::new(3, 3);
    c.draw_line(-2, 1, 5, 1, 6, None);
    assert_eq!(at(&c, 0, 1), 6);
    assert_eq!(at(&c, 1, 1), 6);
    assert_eq!(at(&c, 2, 1), 6);
    assert_eq!(c.array.iter().filter(|&&p| p != 0).count(), 3);
}

#[test]
fn line_with_target_filter() {
    let mut c = PixelCanvas::new(4, 1);
    c.set_pixels(&[0, 2, 0, 2]);
    c.draw_line(0, 0, 3, 0, 9, Some(2));
    assert_eq!(c.array, vec![0, 9, 0, 9]);
}

#[test]
fn fill_enclosed_region() {
    // A 5x5 canvas with a wall of colour 1 around the centre pixel.
    let mut c = PixelCanvas::new(5, 5);
    c.draw_line(1, 1, 3, 1, 1, None);
    c.draw_line(3, 1, 3, 3, 1, None);
    c.draw_line(3, 3, 1, 3, 1, None);
    c.draw_line(1, 3, 1, 1, 1, None);
    c.flood_fill(2, 2, 2, 0);
    assert_eq!(at(&c, 2, 2), 2);
    assert_eq!(at(&c, 0, 0), 0);
    assert_eq!(at(&c, 4, 4), 0);
    assert_eq!(at(&c, 1, 1), 1);
    assert_eq!(c.array.iter().filter(|&&p| p == 2).count(), 1);
}

#[test]
fn fill_outside_region() {
    let mut c = PixelCanvas::new(5, 5);
    c.draw_line(1, 1, 3, 1, 1, None);
    c.draw_line(3, 1, 3, 3, 1, None);
    c.draw_line(3, 3, 1, 3, 1, None);
    c.draw_line(1, 3, 1, 1, 1, None);
    c.flood_fill(0, 0, 7, 0);
    assert_eq!(at(&c, 2, 2), 0);
    assert_eq!(c.array.iter().filter(|&&p| p == 7).count(), 16);
    assert_eq!(c.array.iter().filter(|&&p| p == 1).count(), 8);
}

#[test]
fn fill_same_colour_is_noop() {
    let mut c = PixelCanvas::new(3, 3);
    c.flood_fill(1, 1, 0, 0);
    assert_eq!(c.array, vec![0u8; 9]);
}

#[test]
fn fill_seed_outside_or_other_colour_is_noop() {
    let mut c = PixelCanvas::new(3, 3);
    c.flood_fill(-1, 0, 5, 0);
    c.flood_fill(3, 0, 5, 0);
    assert_eq!(c.array, vec![0u8; 9]);
    c.flood_fill(1, 1, 5, 4);
    assert_eq!(c.array, vec![0u8; 9]);
}

#[test]
fn fill_twice_changes_nothing_more() {
    let mut c = PixelCanvas::new(4, 4);
    c.draw_line(0, 2, 3, 2, 1, None);
    c.flood_fill(0, 0, 3, 0);
    let once = c.array.clone();
    c.flood_fill(0, 0, 3, 0);
    assert_eq!(c.array, once);
    assert_eq!(once.iter().filter(|&&p| p == 3).count(), 8);
}

#[test]
fn fill_follows_four_neighbours_only() {
    // Diagonal neighbours do not connect a region.
    let mut c = PixelCanvas::new(2, 2);
    c.set_pixels(&[0, 1, 1, 0]);
    c.flood_fill(0, 0, 5, 0);
    assert_eq!(c.array, vec![5, 1, 1, 0]);
}

#[test]
fn line_arithmetic_range() {
    assert!(line_fits(0, 0, 100, 50));
    assert!(line_fits(i32::MAX, 0, i32::MAX, 0));
    assert!(!line_fits(-2_000_000_000, 0, 2_000_000_000, 0));
    assert!(!line_fits(0, i32::MIN, 0, i32::MAX));
    // A long horizontal line doubles its error term past the `i32` range.
    assert!(!line_fits(0, 0, 1_500_000_000, 0));
    assert!(line_fits(0, 0, 1_000_000, 0));
}
