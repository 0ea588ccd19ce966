use text_raster::color::Rgba;
use text_raster::raster::{Cell, PixelBuffer};

fn bg() -> Rgba {
    Rgba { r: 7, g: 8, b: 9, a: 10 }
}

fn red() -> Rgba {
    Rgba { r: 255, g: 0, b: 0, a: 255 }
}

fn blue() -> Rgba {
    Rgba { r: 0, g: 0, b: 255, a: 255 }
}


#[test]
fn new_buffer_is_filled_with_the_background() {
    let buf = PixelBuffer::new(4, 3, bg());
    assert_eq!(buf.width(), 4);
    assert_eq!(buf.height(), 3);
    for y in 0..3 {
        for x in 0..4 {
            assert_eq!(buf.get(x, y), bg());
        }
    }
}

#[test]
fn fill_rect_paints_exactly_the_covered_pixels() {
    let mut buf = PixelBuffer::new(5, 4, bg());
    buf.fill_rect(Cell { x: 1, y: 1, w: 2, h: 2, color: red() });
    for y in 0..4u32 {
        for x in 0..5u32 {
            let inside = (1..3).contains(&x) && (1..3).contains(&y);
            assert_eq!(buf.get(x, y), if inside { red() } else { bg() });
        }
    }
}

#[test]
fn fill_rect_clips_a_cell_that_starts_before_the_buffer() {
    let mut buf = PixelBuffer::new(3, 3, bg());
    buf.fill_rect(Cell { x: -2, y: -1, w: 3, h: 3, color: red() });
    for y in 0..3u32 {
        for x in 0..3u32 {
            let inside = x < 1 && y < 2;
            assert_eq!(buf.get(x, y), if inside { red() } else { bg() });
        }
    }
}

#[test]
fn fill_rect_clips_a_cell_that_runs_past_the_buffer() {
    let mut buf = PixelBuffer::new(3, 3, bg());
    buf.fill_rect(Cell { x: 2, y: 2, w: 100, h: 100, color: blue() });
    for y in 0..3u32 {
        for x in 0..3u32 {
            let inside = x == 2 && y == 2;
            assert_eq!(buf.get(x, y), if inside { blue() } else { bg() });
        }
    }
}

#[test]
fn fill_rect_leaves_a_cell_wholly_outside_invisible() {
    let mut buf = PixelBuffer::new(3, 3, bg());
    buf.fill_rect(Cell { x: 10, y: 0, w: 5, h: 5, color: red() });
    buf.fill_rect(Cell { x: 0, y: -8, w: 5, h: 5, color: red() });
    buf.fill_rect(Cell { x: 1, y: 1, w: 0, h: 4, color: red() });
    for y in 0..3u32 {
        for x in 0..3u32 {
            assert_eq!(buf.get(x, y), bg());
        }
    }
}

#[test]
fn a_later_cell_paints_over_an_earlier_one() {
    let cells = vec![
        Cell { x: 0, y: 0, w: 2, h: 1, color: red() },
        Cell { x: 1, y: 0, w: 2, h: 1, color: blue() },
    ];
    let buf = text_raster::raster::render_cells(4, 1, bg(), &cells);
    assert_eq!(buf.get(0, 0), red());
    assert_eq!(buf.get(1, 0), blue());
    assert_eq!(buf.get(2, 0), blue());
    assert_eq!(buf.get(3, 0), bg());
}

#[test]
fn to_rgba_bytes_lays_pixels_out_row_major() {
    let mut buf = PixelBuffer::new(2, 1, bg());
    buf.fill_rect(Cell { x: 1, y: 0, w: 1, h: 1, color: red() });
    let bytes = buf.to_rgba_bytes();
    assert_eq!(bytes, vec![7, 8, 9, 10, 255, 0, 0, 255]);
}

#[test]
fn painting_in_two_passes_is_painting_once() {
    let green = Rgba { r: 0, g: 255, b: 0, a: 255 };
    let a = vec![
        Cell { x: 0, y: 0, w: 2, h: 2, color: red() },
        Cell { x: 1, y: 1, w: 2, h: 2, color: blue() },
    ];
    let b = vec![
        Cell { x: -1, y: 2, w: 3, h: 1, color: green },
        Cell { x: 3, y: 0, w: 1, h: 4, color: red() },
    ];
    let mut joined = a.clone();
    joined.extend(b.iter().cloned());
    let one_pass = text_raster::raster::render_cells(4, 4, bg(), &joined);
    let mut two_pass = text_raster::raster::render_cells(4, 4, bg(), &a);
    for c in &b {
        two_pass.fill_rect(*c);
    }
    for y in 0..4u32 {
        for x in 0..4u32 {
            assert_eq!(one_pass.get(x, y), two_pass.get(x, y));
        }
    }
}
