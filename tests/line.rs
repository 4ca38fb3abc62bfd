use softraster::color::Color;
use softraster::line::{draw, LineIterator};
use softraster::utils::{bgra_to_rgba_bytes, xy};

fn points(x0: u32, y0: u32, x1: u32, y1: u32) -> Vec<(u32, u32)> {
    let mut it = LineIterator::new(x0, y0, x1, y1);
    let mut out = Vec::new();
    while let Some(p) = it.next() {
        out.push(p);
    }
    out
}

#[test]
fn line_through_shallow_slope() {
    assert_eq!(points(0, 0, 3, 1), vec![(0, 0), (1, 0), (2, 1), (3, 1)]);
}

#[test]
fn line_in_reverse_direction() {
    assert_eq!(points(3, 1, 0, 0), vec![(3, 1), (2, 1), (1, 0), (0, 0)]);
}

#[test]
fn steep_line_steps_along_y() {
    assert_eq!(points(0, 0, 1, 3), vec![(0, 0), (0, 1), (1, 2), (1, 3)]);
}

#[test]
fn degenerate_line_is_one_pixel() {
    assert_eq!(points(5, 5, 5, 5), vec![(5, 5)]);
}

#[test]
fn line_is_connected_from_start_to_end() {
    let ends = [(0, 0, 17, 5), (40, 3, 2, 29), (7, 100, 7, 0), (0, 9, 30, 9), (12, 12, 0, 0)];
    for &(x0, y0, x1, y1) in ends.iter() {
        let ps = points(x0, y0, x1, y1);
        assert_eq!(ps[0], (x0, y0));
        assert_eq!(*ps.last().unwrap(), (x1, y1));
        let dx = (x1 as i64 - x0 as i64).abs();
        let dy = (y1 as i64 - y0 as i64).abs();
        assert_eq!(ps.len() as i64, dx.max(dy) + 1);
        for pair in ps.windows(2) {
            assert!((pair[0].0 as i64 - pair[1].0 as i64).abs() <= 1);
            assert!((pair[0].1 as i64 - pair[1].1 as i64).abs() <= 1);
        }
    }
}

#[test]
fn line_at_coordinate_limit() {
    let m = u32::MAX;
    assert_eq!(points(m - 1, m, m, m - 1), vec![(m - 1, m), (m, m - 1)]);
}

#[test]
fn line_draw_writes_its_pixels() {
    let mut fb: Vec<u32> = vec![0; 16];
    let red = Color::red().bgra();
    draw(0, 0, 3, 1, Color::red(), &mut fb, 4);
    let mut expected = vec![0u32; 16];
    for i in [0usize, 1, 6, 7] {
        expected[i] = red;
    }
    assert_eq!(fb, expected);
}

#[test]
fn line_draw_skips_pixels_outside_buffer() {
    let mut fb: Vec<u32> = vec![0; 8];
    let red = Color::red().bgra();
    draw(0, 0, 5, 0, Color::red(), &mut fb, 4);
    assert_eq!(fb, vec![red, red, red, red, 0, 0, 0, 0]);
    let mut small: Vec<u32> = vec![0; 4];
    draw(0, 0, 0, 9, Color::red(), &mut small, 4);
    assert_eq!(small, vec![red, 0, 0, 0]);
}

#[test]
fn bgra_packs_blue_in_lowest_byte() {
    assert_eq!(Color::red().bgra(), 0xFFFF_0000);
    assert_eq!(Color::new(0x11, 0x22, 0x33, 0x44).bgra(), 0x4411_2233);
}

#[test]
fn pixel_index_is_row_major() {
    assert_eq!(xy(3, 2, 10), 23);
    assert_eq!(xy(0, 0, 10), 0);
}

#[test]
fn framebuffer_words_become_rgba_bytes() {
    let words = vec![Color::new(0x11, 0x22, 0x33, 0x44).bgra(), Color::red().bgra()];
    assert_eq!(bgra_to_rgba_bytes(&words), vec![0x11, 0x22, 0x33, 0x44, 255, 0, 0, 255]);
    assert!(bgra_to_rgba_bytes(&Vec::new()).is_empty());
}
