use line_splat::painter::Painter;

#[test]
fn horizontal_line_excludes_right_end() {
    assert_eq!(Painter::line_foreach(4, 4, 0, 1, 3, 1), vec![(0, 1), (1, 1), (2, 1)]);
}

#[test]
fn vertical_line_excludes_lower_end() {
    assert_eq!(Painter::line_foreach(4, 4, 1, 3, 1, 0), vec![(1, 0), (1, 1), (1, 2)]);
}

#[test]
fn single_point_is_drawn_once() {
    assert_eq!(Painter::line_foreach(4, 4, 2, 2, 2, 2), vec![(2, 2)]);
}

#[test]
fn diagonal_repeats_pixel_at_each_step() {
    assert_eq!(
        Painter::line_foreach(4, 4, 0, 0, 3, 3),
        vec![(0, 0), (0, 0), (1, 1), (1, 1), (2, 2), (2, 2)]
    );
}

#[test]
fn shallow_line_steps_once() {
    // Rises one row over four columns: the step is taken in the column where
    // the accumulated rise first reaches one half, which is visited twice.
    assert_eq!(
        Painter::line_foreach(8, 8, 0, 0, 4, 1),
        vec![(0, 0), (1, 0), (1, 0), (2, 1), (3, 1)]
    );
}

#[test]
fn line_drawn_right_to_left_matches_left_to_right() {
    let forward = Painter::line_foreach(10, 10, 1, 2, 8, 6);
    let backward = Painter::line_foreach(10, 10, 8, 6, 1, 2);
    assert_eq!(forward, backward);
    let steep_forward = Painter::line_foreach(10, 10, 2, 9, 4, 0);
    let steep_backward = Painter::line_foreach(10, 10, 4, 0, 2, 9);
    assert_eq!(steep_forward, steep_backward);
}

#[test]
fn segment_left_of_canvas_is_empty() {
    assert!(Painter::line_foreach(10, 10, -5, 0, -5, 9).is_empty());
    assert!(Painter::line_foreach(10, 10, -5, 2, -1, 7).is_empty());
    assert!(Painter::line_foreach(10, 10, 3, 10, 7, 12).is_empty());
}

#[test]
fn empty_canvas_draws_nothing() {
    assert!(Painter::line_foreach(0, 5, 0, 0, 3, 3).is_empty());
    assert!(Painter::line_foreach(5, 0, 0, 0, 3, 3).is_empty());
}

#[test]
fn horizontal_line_is_clipped_to_canvas() {
    assert_eq!(Painter::line_foreach(4, 4, -2, 1, 5, 1), vec![(0, 1), (1, 1), (2, 1)]);
}

#[test]
fn vertical_line_is_clipped_to_canvas() {
    assert_eq!(Painter::line_foreach(4, 4, 2, -7, 2, 9), vec![(2, 0), (2, 1), (2, 2)]);
}

#[test]
fn diagonal_from_outside_is_clipped_at_both_ends() {
    assert_eq!(
        Painter::line_foreach(4, 4, -2, -2, 5, 5),
        vec![(0, 0), (0, 0), (1, 1), (1, 1), (2, 2), (2, 2)]
    );
}

#[test]
fn segment_passing_beside_canvas_is_empty() {
    // Its ends lie beyond no common side of the canvas, yet it never meets it.
    assert!(Painter::line_foreach(4, 4, -3, 2, 2, 20).is_empty());
}

#[test]
fn clipped_points_stay_on_canvas() {
    for &(x1, y1, x2, y2) in &[(-50, 3, 60, 7), (5, -40, 9, 80), (-100, -100, 100, 100), (19, 0, -1, 19)] {
        let points = Painter::line_foreach(20, 20, x1, y1, x2, y2);
        assert!(!points.is_empty());
        for &(x, y) in &points {
            assert!(x < 20 && y < 20);
        }
    }
}

#[test]
fn line_paints_pen_colour_only_on_its_pixels() {
    let mut buffer = vec![0u8; 4 * 4 * 3];
    let mut painter = Painter::new();
    painter.set_pen(10, 20, 30);
    painter.line(&mut buffer, 4, 4, 0, 0, 3, 0);
    for x in 0..4usize {
        let i = x * 3;
        if x < 3 {
            assert_eq!(&buffer[i..i + 3], &[10, 20, 30]);
        } else {
            assert_eq!(&buffer[i..i + 3], &[0, 0, 0]);
        }
    }
    assert!(buffer[12..].iter().all(|&b| b == 0));
}

#[test]
fn new_painter_draws_black() {
    let mut buffer = vec![7u8; 3 * 3 * 3];
    let painter = Painter::new();
    painter.line(&mut buffer, 3, 3, 1, 1, 1, 1);
    assert_eq!(&buffer[12..15], &[0, 0, 0]);
    assert_eq!(buffer.iter().filter(|&&b| b == 7).count(), 24);
}
