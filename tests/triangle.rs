use softraster::color::Color;
use softraster::triangle::{barycentric, draw, point_in_triangle, Barycentric, ScreenPoint, TriangleIterator};

const WINDOW_WIDTH: u32 = 512;
const WINDOW_HEIGHT: u32 = 512;

fn tri(a: (u32, u32), b: (u32, u32), c: (u32, u32)) -> Vec<ScreenPoint> {
    vec![ScreenPoint::new(a.0, a.1), ScreenPoint::new(b.0, b.1), ScreenPoint::new(c.0, c.1)]
}

fn collect_rows(t: &[ScreenPoint]) -> Vec<Vec<(u32, u32)>> {
    let mut it = TriangleIterator::new(t);
    let mut rows = Vec::new();
    while let Some(row) = it.next() {
        rows.push(row);
    }
    rows
}

#[test]
fn test_point_in_triangle() {
    let mut tri: Vec<ScreenPoint> = Vec::with_capacity(3);
    tri.push(ScreenPoint::new(245, 391));
    tri.push(ScreenPoint::new(115, 200));
    tri.push(ScreenPoint::new(306, 438));

    let mut point = (234, 357);
    assert!(point_in_triangle(point, tri.as_ref()));
    point = (236, 277);
    assert!(!point_in_triangle(point, tri.as_ref()));

    tri.clear();
    tri.push(ScreenPoint::new(375, 186));
    tri.push(ScreenPoint::new(2, 257));
    tri.push(ScreenPoint::new(483, 5));

    point = (340, 110);
    assert!(point_in_triangle(point, tri.as_ref()));
    point = (288, 82);
    assert!(!point_in_triangle(point, tri.as_ref()));
    point = (375, 186);
    assert!(point_in_triangle(point, tri.as_ref()));
}

#[test]
fn vertex_is_covered_through_edge_tolerance() {
    let t = tri((245, 391), (115, 200), (306, 438));
    assert!(point_in_triangle((245, 391), &t));
    assert!(point_in_triangle((115, 200), &t));
    assert!(point_in_triangle((306, 438), &t));
}

#[test]
fn interior_point_covered_in_every_vertex_order() {
    let v = [(245, 391), (115, 200), (306, 438)];
    let orders = [[0, 1, 2], [0, 2, 1], [1, 0, 2], [1, 2, 0], [2, 0, 1], [2, 1, 0]];
    for o in orders.iter() {
        let t = tri(v[o[0]], v[o[1]], v[o[2]]);
        assert!(point_in_triangle((234, 357), &t));
        assert!(!point_in_triangle((236, 277), &t));
    }
}

#[test]
fn pixel_outside_bounding_box_is_not_covered() {
    let t = tri((10, 10), (20, 10), (10, 20));
    assert!(!point_in_triangle((9, 10), &t));
    assert!(!point_in_triangle((10, 21), &t));
    assert!(point_in_triangle((12, 12), &t));
}

#[test]
fn degenerate_triangle_covers_only_its_segment() {
    let t = tri((0, 0), (2, 2), (4, 4));
    assert!(point_in_triangle((1, 1), &t));
    assert!(point_in_triangle((4, 4), &t));
    assert!(!point_in_triangle((1, 2), &t));
    let p = tri((3, 3), (3, 3), (3, 3));
    assert!(point_in_triangle((3, 3), &p));
}

#[test]
fn barycentric_weights_are_exact_fractions() {
    let t = tri((0, 0), (4, 0), (0, 4));
    assert_eq!(barycentric((1, 1), &t), Some(Barycentric { w0: -8, w1: -4, w2: -4, denom: -16 }));
    assert_eq!(barycentric((0, 0), &t), Some(Barycentric { w0: -16, w1: 0, w2: 0, denom: -16 }));
    assert_eq!(barycentric((5, 5), &t), None);
}

#[test]
fn barycentric_of_degenerate_triangle_is_none() {
    let t = tri((0, 0), (1, 1), (2, 2));
    assert_eq!(barycentric((1, 1), &t), None);
}

#[test]
fn iterator_yields_every_row_of_bounding_box() {
    let t = tri((0, 0), (2, 0), (0, 2));
    let rows = collect_rows(&t);
    assert_eq!(
        rows,
        vec![vec![(0, 0), (1, 0), (2, 0)], vec![(0, 1), (1, 1)], vec![(0, 2)]]
    );
}

#[test]
fn iterator_is_exhausted_after_last_row() {
    let t = tri((4, 7), (6, 7), (5, 8));
    let mut it = TriangleIterator::new(&t);
    assert!(it.next().is_some());
    assert!(it.next().is_some());
    assert!(it.next().is_none());
    assert!(it.next().is_none());
}

#[test]
fn covered_pixels_stay_in_bounding_box() {
    let w = WINDOW_WIDTH;
    let h = WINDOW_HEIGHT;
    let t = tri((0, 0), (0, h), (w, h));
    let rows = collect_rows(&t);
    assert_eq!(rows.len(), (h + 1) as usize);
    let mut count = 0usize;
    for row in rows.iter() {
        for &(x, y) in row.iter() {
            assert!(x <= w && y <= h);
            count += 1;
        }
    }
    assert!(count > 0);
}

#[test]
fn eager_draw_skips_pixels_outside_buffer() {
    let w = WINDOW_WIDTH;
    let h = WINDOW_HEIGHT;
    let t = tri((0, 0), (0, h), (w, h));
    let mut fb: Vec<u32> = vec![0; (w * h) as usize];
    draw(&t, Color::red(), &mut fb, w as usize);
    let red = Color::red().bgra();
    assert_eq!(fb[0], red);
    assert_eq!(fb[((h - 1) * w) as usize], red);
    assert_eq!(fb[(w - 1) as usize], 0);
    assert_eq!(fb.len(), (w * h) as usize);
}

#[test]
fn iterator_and_eager_draw_fill_identical_framebuffers() {
    let w = WINDOW_WIDTH;
    let h = WINDOW_HEIGHT;
    let fb_width = w as usize;
    let color = Color::red();
    let t = tri((0, 0), (0, h - 1), (w - 1, h - 1));

    let mut eager: Vec<u32> = vec![0; (w * h) as usize];
    draw(&t, color, &mut eager, fb_width);

    let mut lazy: Vec<u32> = vec![0; (w * h) as usize];
    let mut it = TriangleIterator::new(&t);
    while let Some(row) = it.next() {
        for (x, y) in row {
            lazy[softraster::utils::xy(x as usize, y as usize, fb_width)] = color.bgra();
        }
    }
    assert!(eager == lazy);
    assert_eq!(eager[softraster::utils::xy(0, 0, fb_width)], color.bgra());
    assert_eq!(eager[softraster::utils::xy(1, 5, fb_width)], color.bgra());
    assert_eq!(eager[softraster::utils::xy(fb_width - 1, 0, fb_width)], 0);
    assert_eq!(eager[softraster::utils::xy(fb_width - 1, h as usize - 1, fb_width)], color.bgra());
}

#[test]
fn draw_with_zero_width_changes_nothing() {
    let t = tri((0, 0), (3, 0), (0, 3));
    let mut fb: Vec<u32> = vec![7; 16];
    draw(&t, Color::red(), &mut fb, 0);
    assert_eq!(fb, vec![7; 16]);
}
