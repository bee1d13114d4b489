use crate::painter::{lemma_div_below, lemma_pixel_in_buffer};
use vstd::prelude::*;

verus! {

/// Average of two colour channels, rounded down.
pub fn mix(lhs: u8, rhs: u8) -> (r: u8)
    ensures
        r as int == (lhs as int + rhs as int) / 2,
{
    let sum: u32 = lhs as u32 + rhs as u32;
    (sum / 2) as u8
}

/// First row or column of the 3x3 window around `c`, kept on the image.
pub open spec fn window_start(c: int) -> int {
    if c == 0 {
        0
    } else {
        c - 1
    }
}

/// One past the last row or column of the 3x3 window around `c`, kept on an
/// image `size` pixels across.
pub open spec fn window_end(c: int, size: int) -> int {
    if c == size - 1 {
        c + 1
    } else {
        c + 2
    }
}

/// Sum of channel `ch` over columns `[x0, x1)` of row `y`.
pub open spec fn row_sum(buffer: Seq<u8>, width: int, y: int, x0: int, x1: int, ch: int) -> int
    decreases x1 - x0,
{
    if x1 <= x0 {
        0
    } else {
        row_sum(buffer, width, y, x0, x1 - 1, ch) + buffer[(y * width + x1 - 1) * 3 + ch]
    }
}

/// Sum of channel `ch` over rows `[y0, y1)` and columns `[x0, x1)`.
pub open spec fn box_sum(buffer: Seq<u8>, width: int, y0: int, y1: int, x0: int, x1: int, ch: int) -> int
    decreases y1 - y0,
{
    if y1 <= y0 {
        0
    } else {
        box_sum(buffer, width, y0, y1 - 1, x0, x1, ch) + row_sum(buffer, width, y1 - 1, x0, x1, ch)
    }
}

/// Channel `ch` averaged, rounding down, over the 3x3 window around
/// `(x, y)`, cut to the image.
pub open spec fn window_average(buffer: Seq<u8>, width: int, height: int, x: int, y: int, ch: int) -> int {
    let (x0, x1) = (window_start(x), window_end(x, width));
    let (y0, y1) = (window_start(y), window_end(y, height));
    box_sum(buffer, width, y0, y1, x0, x1, ch) / ((x1 - x0) * (y1 - y0))
}

/// The average colour of the 3x3 window around `(x, y)` of a row-major RGB
/// image, cut to the image, each channel rounded down.
pub fn color_at(buffer: &Vec<u8>, width: u32, height: u32, x: usize, y: usize) -> (r: (u8, u8, u8))
    requires
        x < width,
        y < height,
        buffer.len() == width * height * 3,
    ensures
        r.0 == window_average(buffer@, width as int, height as int, x as int, y as int, 0),
        r.1 == window_average(buffer@, width as int, height as int, x as int, y as int, 1),
        r.2 == window_average(buffer@, width as int, height as int, x as int, y as int, 2),
{
    let w: usize = width as usize;
    let min_x: usize = if x == 0 {
        x
    } else {
        x - 1
    };
    let min_y: usize = if y == 0 {
        y
    } else {
        y - 1
    };
    let end_x: usize = if x == w - 1 {
        x + 1
    } else {
        x + 2
    };
    let end_y: usize = if y == height as usize - 1 {
        y + 1
    } else {
        y + 2
    };
    let ghost cols: int = end_x - min_x;
    let mut total: u32 = 0;
    let (mut red_sum, mut green_sum, mut blue_sum): (u32, u32, u32) = (0, 0, 0);
    let mut yy: usize = min_y;
    while yy < end_y
        invariant
            min_y <= yy <= end_y,
            end_y <= height,
            end_x <= width,
            min_x < end_x <= min_x + 3,
            cols == end_x - min_x,
            end_y <= min_y + 3,
            w == width,
            buffer.len() == width * height * 3,
            total == (yy - min_y) * cols,
            total <= 9,
            red_sum == box_sum(buffer@, width as int, min_y as int, yy as int, min_x as int, end_x as int, 0),
            green_sum == box_sum(buffer@, width as int, min_y as int, yy as int, min_x as int, end_x as int, 1),
            blue_sum == box_sum(buffer@, width as int, min_y as int, yy as int, min_x as int, end_x as int, 2),
            red_sum <= 255 * total,
            green_sum <= 255 * total,
            blue_sum <= 255 * total,
        decreases end_y - yy,
    {
        let ghost row_start = total;
        proof {
            assert((yy - min_y) * cols <= 6) by (nonlinear_arith)
                requires
                    0 <= yy - min_y <= 2,
                    0 <= cols <= 3,
            ;
        }
        let mut xx: usize = min_x;
        while xx < end_x
            invariant
                min_x <= xx <= end_x,
                min_y <= yy < end_y,
                end_y <= height,
                end_x <= width,
                end_x <= min_x + 3,
                end_y <= min_y + 3,
                w == width,
                buffer.len() == width * height * 3,
                row_start == (yy - min_y) * cols,
                cols == end_x - min_x,
                row_start <= 6,
                total == row_start + (xx - min_x),
                red_sum == box_sum(buffer@, width as int, min_y as int, yy as int, min_x as int, end_x as int, 0)
                    + row_sum(buffer@, width as int, yy as int, min_x as int, xx as int, 0),
                green_sum == box_sum(buffer@, width as int, min_y as int, yy as int, min_x as int, end_x as int, 1)
                    + row_sum(buffer@, width as int, yy as int, min_x as int, xx as int, 1),
                blue_sum == box_sum(buffer@, width as int, min_y as int, yy as int, min_x as int, end_x as int, 2)
                    + row_sum(buffer@, width as int, yy as int, min_x as int, xx as int, 2),
                red_sum <= 255 * total,
                green_sum <= 255 * total,
                blue_sum <= 255 * total,
            decreases end_x - xx,
        {
            proof {
                lemma_pixel_in_buffer(xx as int, yy as int, width as int, height as int);
            }
            let index: usize = (yy * w + xx) * 3;
            red_sum = red_sum + buffer[index] as u32;
            green_sum = green_sum + buffer[index + 1] as u32;
            blue_sum = blue_sum + buffer[index + 2] as u32;
            total = total + 1;
            xx = xx + 1;
        }
        proof {
            assert((yy - min_y) * cols + cols == (yy + 1 - min_y) * cols) by (nonlinear_arith);
            assert((yy + 1 - min_y) * cols <= 9) by (nonlinear_arith)
                requires
                    0 <= yy + 1 - min_y <= 3,
                    0 <= cols <= 3,
            ;
        }
        yy = yy + 1;
    }
    proof {
        assert(total > 0) by (nonlinear_arith)
            requires
                total == (end_y - min_y) * cols,
                end_y > min_y,
                cols > 0,
        ;
        assert(total == cols * (end_y - min_y)) by (nonlinear_arith)
            requires
                total == (end_y - min_y) * cols,
        ;
        lemma_div_below(red_sum as int, total as int, 256);
        lemma_div_below(green_sum as int, total as int, 256);
        lemma_div_below(blue_sum as int, total as int, 256);
    }
    ((red_sum / total) as u8, (green_sum / total) as u8, (blue_sum / total) as u8)
}

} // verus!
