use line_splat::edgeweb::{edge_pairs, edge_pairs_capped, edge_points, edge_web, sample_between};
use line_splat::sampling::point_from_draws;
use line_splat::imageprocessing::{angle_to_direction, gradient, non_maximum_suppression};
use line_splat::painter::Painter;
use line_splat::utility::{color_at, mix};

#[test]
fn mix_rounds_down() {
    assert_eq!(mix(10, 21), 15);
    assert_eq!(mix(255, 255), 255);
    assert_eq!(mix(0, 1), 0);
}

#[test]
fn color_at_averages_window() {
    // 3x1 image with red channel 0, 30, 90.
    let buffer = vec![0, 1, 2, 30, 4, 5, 90, 7, 8];
    assert_eq!(color_at(&buffer, 3, 1, 0, 0), (15, 2, 3));
    assert_eq!(color_at(&buffer, 3, 1, 1, 0), (40, 4, 5));
    assert_eq!(color_at(&buffer, 3, 1, 2, 0), (60, 5, 6));
}

#[test]
fn uniform_gray_line_takes_gray() {
    let gray = 128u8;
    let source = vec![gray; 4 * 4 * 3];
    let mut work = vec![0u8; 4 * 4 * 3];
    let (x1, y1, x2, y2) = (0usize, 1usize, 3usize, 2usize);
    let c1 = color_at(&source, 4, 4, x1, y1);
    let c2 = color_at(&source, 4, 4, x2, y2);
    assert_eq!(c1, (gray, gray, gray));
    assert_eq!(c2, (gray, gray, gray));
    let mut painter = Painter::new();
    painter.set_pen(mix(c1.0, c2.0), mix(c1.1, c2.1), mix(c1.2, c2.2));
    painter.line(&mut work, 4, 4, x1 as i32, y1 as i32, x2 as i32, y2 as i32);
    let painted: Vec<(usize, usize)> = Painter::line_foreach(4, 4, 0, 1, 3, 2);
    assert!(!painted.is_empty());
    for (x, y) in painted {
        let i = (y * 4 + x) * 3;
        assert_eq!(&work[i..i + 3], &[gray, gray, gray]);
    }
}

#[test]
fn edge_points_in_row_major_order() {
    assert_eq!(edge_points(&vec![0, 255, 0, 255], 2, 2), vec![(1, 0), (1, 1)]);
    assert!(edge_points(&vec![], 0, 0).is_empty());
}

#[test]
fn edge_pairs_pick_nearest_partner() {
    let points = vec![(0, 0), (3, 0), (5, 0), (0, 4)];
    assert_eq!(edge_pairs(&points, &vec![0, 0, 0, 0]), vec![(0, 3), (1, 3), (2, 3)]);
    assert_eq!(edge_pairs(&points, &vec![0, 0, 0, 1]), vec![(0, 2)]);
}

#[test]
fn edge_pairs_break_ties_by_order() {
    let points = vec![(10, 10), (14, 10), (10, 14)];
    assert_eq!(edge_pairs(&points, &vec![2, 2, 2]), vec![(0, 1), (1, 2)]);
}

#[test]
fn bright_vertical_line_gives_edge_strip() {
    let (width, height) = (10usize, 10usize);
    let mut source = vec![0u8; width * height * 3];
    for y in 0..height {
        let i = (y * width + 5) * 3;
        source[i] = 255;
        source[i + 1] = 255;
        source[i + 2] = 255;
    }
    let field = gradient(&source, 10, 10);
    let mask = non_maximum_suppression(&field, 10, 10);
    let points = edge_points(&mask, 10, 10);
    assert!(!points.is_empty());
    for &(x, y) in &points {
        assert!((4..=6).contains(&x));
        assert!((1..=8).contains(&y));
    }
    let mut rng = rand::thread_rng();
    let segments = edge_web(&mut rng, &field, 10, 10);
    assert!(!segments.is_empty());
    for s in &segments {
        assert!(points.contains(&(s.x1, s.y1)));
        assert!(points.contains(&(s.x2, s.y2)));
        let dx = s.x2 as i64 - s.x1 as i64;
        let dy = s.y2 as i64 - s.y1 as i64;
        let d2 = dx * dx + dy * dy;
        assert!((16..=2500).contains(&d2));
        let a = angle_to_direction(field[s.y1 * width + s.x1]);
        let b = angle_to_direction(field[s.y2 * width + s.x2]);
        assert_eq!(a, b);
        assert!(s.sample_x >= s.x1.min(s.x2) && s.sample_x <= s.x1.max(s.x2));
        assert!(s.sample_y >= s.y1.min(s.y2) && s.sample_y <= s.y1.max(s.y2));
    }
}

#[test]
fn random_points_lie_on_canvas() {
    let mut rng = rand::thread_rng();
    for _ in 0..200 {
        let (x, y) = line_splat::sampling::random_point(&mut rng, 3, 5);
        assert!(x < 3 && y < 5);
    }
    assert_eq!(line_splat::sampling::random_point(&mut rng, 1, 1), (0, 0));
}

#[test]
fn drawn_values_reduce_onto_canvas() {
    assert_eq!(point_from_draws(17, 23, 5, 7), (2, 2));
    assert_eq!(point_from_draws(usize::MAX, 0, 10, 3), (5, 0));
    assert_eq!(point_from_draws(4, 6, 1, 1), (0, 0));
}

#[test]
fn sample_rounds_to_nearest_pixel_along_segment() {
    assert_eq!(sample_between(2, 10, 32768), 6);
    assert_eq!(sample_between(0, 3, 32768), 2);
    assert_eq!(sample_between(10, 2, 0), 10);
    assert_eq!(sample_between(10, 2, 65536), 2);
    assert_eq!(sample_between(7, 7, 12345), 7);
}

#[test]
fn capped_pairs_take_nearest_partners_first() {
    let points = vec![(0, 0), (3, 0), (5, 0), (0, 4)];
    let directions = vec![0, 0, 0, 0];
    assert_eq!(edge_pairs_capped(&points, &directions, 2), vec![(0, 3), (0, 2), (1, 3), (2, 3)]);
    assert_eq!(edge_pairs_capped(&points, &directions, 1), edge_pairs(&points, &directions));
    assert!(edge_pairs_capped(&points, &directions, 0).is_empty());
    let ties = vec![(10, 10), (14, 10), (10, 14)];
    assert_eq!(edge_pairs_capped(&ties, &vec![2, 2, 2], 5), vec![(0, 1), (0, 2), (1, 2)]);
}
