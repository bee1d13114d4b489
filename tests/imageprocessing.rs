use line_splat::imageprocessing::{angle_to_direction, gradient, non_maximum_suppression, Gradient};

fn g(horizontal: i32, vertical: i32) -> Gradient {
    Gradient { horizontal, vertical }
}

#[test]
fn uniform_image_has_zero_gradient_and_no_edges() {
    let buffer = vec![128u8; 4 * 4 * 3];
    let field = gradient(&buffer, 4, 4);
    assert_eq!(field.len(), 16);
    assert!(field.iter().all(|s| s.horizontal == 0 && s.vertical == 0));
    let mask = non_maximum_suppression(&field, 4, 4);
    assert_eq!(mask.len(), 16);
    assert!(mask.iter().all(|&m| m == 0));
}

#[test]
fn sobel_sums_of_a_step() {
    // Left column black, the rest white.
    let mut buffer = vec![255u8; 3 * 3 * 3];
    for y in 0..3 {
        let i = y * 9;
        buffer[i] = 0;
        buffer[i + 1] = 0;
        buffer[i + 2] = 0;
    }
    let field = gradient(&buffer, 3, 3);
    assert_eq!(field[4].horizontal, 1_020_000);
    assert_eq!(field[4].vertical, 0);
    // The first column reads itself on its left.
    assert_eq!(field[3].horizontal, 1_020_000);
    // The last column reads itself on its right.
    assert_eq!(field[5].horizontal, 0);
}

#[test]
fn single_pixel_image() {
    let field = gradient(&vec![1, 2, 3], 1, 1);
    assert_eq!(field.len(), 1);
    assert_eq!((field[0].horizontal, field[0].vertical), (0, 0));
    assert_eq!(non_maximum_suppression(&field, 1, 1), vec![0]);
}

#[test]
fn direction_buckets() {
    assert_eq!(angle_to_direction(g(1, 0)), 0);
    assert_eq!(angle_to_direction(g(0, 1)), 2);
    assert_eq!(angle_to_direction(g(1, 1)), 1);
    assert_eq!(angle_to_direction(g(-1, 1)), 3);
    assert_eq!(angle_to_direction(g(-1, 0)), 0);
    assert_eq!(angle_to_direction(g(0, 0)), 0);
    // Just under and just over 22.5 degrees.
    assert_eq!(angle_to_direction(g(1000, 414)), 0);
    assert_eq!(angle_to_direction(g(1000, 415)), 1);
    // Just under and just over 67.5 degrees.
    assert_eq!(angle_to_direction(g(1000, 2414)), 1);
    assert_eq!(angle_to_direction(g(1000, 2415)), 2);
}

#[test]
fn direction_is_the_same_half_a_turn_later() {
    for &(h, v) in &[(1, 0), (0, 1), (3, 7), (-5, 2), (9, -4), (1000, 414), (-7, -7), (0, -3)] {
        assert_eq!(angle_to_direction(g(h, v)), angle_to_direction(g(-h, -v)));
    }
}

#[test]
fn border_is_never_an_edge() {
    let mut buffer = vec![0u8; 6 * 6 * 3];
    for (i, b) in buffer.iter_mut().enumerate() {
        *b = ((i * 97) % 256) as u8;
    }
    let field = gradient(&buffer, 6, 6);
    let mask = non_maximum_suppression(&field, 6, 6);
    for y in 0..6 {
        for x in 0..6 {
            if x == 0 || y == 0 || x == 5 || y == 5 {
                assert_eq!(mask[y * 6 + x], 0);
            }
        }
    }
}

#[test]
fn weak_maximum_is_not_an_edge() {
    let mut field = vec![g(0, 0); 9];
    field[4] = g(50_000, 0);
    assert_eq!(non_maximum_suppression(&field, 3, 3)[4], 0);
    field[4] = g(55_000, 0);
    assert_eq!(non_maximum_suppression(&field, 3, 3)[4], 255);
    field[3] = g(56_000, 0);
    assert_eq!(non_maximum_suppression(&field, 3, 3)[4], 0);
}

#[test]
fn narrow_images_have_no_edges() {
    let mut buffer = vec![0u8; 2 * 5 * 3];
    buffer[0] = 255;
    buffer[1] = 255;
    buffer[2] = 255;
    let field = gradient(&buffer, 2, 5);
    assert_eq!(non_maximum_suppression(&field, 2, 5), vec![0; 10]);
    let field = gradient(&buffer, 5, 2);
    assert_eq!(non_maximum_suppression(&field, 5, 2), vec![0; 10]);
    assert!(non_maximum_suppression(&vec![], 0, 7).is_empty());
}

#[test]
fn vertical_step_edges_on_columns_four_and_five() {
    let mut buffer = vec![0u8; 10 * 10 * 3];
    for (i, b) in buffer.iter_mut().enumerate() {
        if (i / 3) % 10 >= 5 {
            *b = 255;
        }
    }
    let mask = non_maximum_suppression(&gradient(&buffer, 10, 10), 10, 10);
    for y in 0..10 {
        for x in 0..10 {
            let expected = if (1..=8).contains(&y) && (x == 4 || x == 5) { 255 } else { 0 };
            assert_eq!(mask[y * 10 + x], expected);
        }
    }
}
