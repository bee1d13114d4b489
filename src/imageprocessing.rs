use vstd::arithmetic::div_mod::lemma_fundamental_div_mod_converse;
use vstd::math::min;
use vstd::prelude::*;

verus! {

/// Gradient magnitudes below this, in thousandths of a luminance unit, never
/// count as edges (half of the usual high threshold of 110 units: edges are
/// over-detected on purpose).
pub const THRESHOLD_LOW: i128 = 55_000;

/// The Sobel sums of a pixel's luminance neighbourhood, in thousandths of a
/// luminance unit. The gradient's magnitude is the length of this vector and
/// its direction the vector's angle.
#[derive(Clone, Copy)]
pub struct Gradient {
    pub horizontal: i32,
    pub vertical: i32,
}

/// Pixel `(x, y)` of a row-major grid `width` wide sits at `y * width + x`.
pub proof fn lemma_row_major(x: int, y: int, width: int, height: int)
    requires
        0 <= x < width,
        0 <= y < height,
    ensures
        0 <= y * width + x < width * height,
        (y * width + x) % width == x,
        (y * width + x) / width == y,
{
    assert(0 <= y * width + x < width * height) by (nonlinear_arith)
        requires
            0 <= x < width,
            0 <= y < height,
    ;
    lemma_fundamental_div_mod_converse(y * width + x, width, y, x);
}

/// Luminance of pixel `(x, y)` of a row-major RGB buffer, in thousandths:
/// `0.299 R + 0.587 G + 0.114 B`.
pub open spec fn luminance(buffer: Seq<u8>, width: int, x: int, y: int) -> int {
    let i = (y * width + x) * 3;
    299 * buffer[i] + 587 * buffer[i + 1] + 114 * buffer[i + 2]
}

/// Luminance at `(x, y)`, reading the last column or row for coordinates
/// past it.
pub open spec fn sample(buffer: Seq<u8>, width: int, height: int, x: int, y: int) -> int {
    luminance(buffer, width, min(x, width - 1), min(y, height - 1))
}

/// The coordinate before `c`, or `c` itself at the first column or row.
pub open spec fn before(c: int) -> int {
    if c == 0 {
        0
    } else {
        c - 1
    }
}

/// Horizontal Sobel sum `[-1 0 1; -2 0 2; -1 0 1]` around `(x, y)`.
pub open spec fn sobel_horizontal(buffer: Seq<u8>, width: int, height: int, x: int, y: int) -> int {
    let (l, r, u, d) = (before(x), x + 1, before(y), y + 1);
    -sample(buffer, width, height, l, u) + sample(buffer, width, height, r, u) - 2 * sample(
        buffer,
        width,
        height,
        l,
        y,
    ) + 2 * sample(buffer, width, height, r, y) - sample(buffer, width, height, l, d) + sample(
        buffer,
        width,
        height,
        r,
        d,
    )
}

/// Vertical Sobel sum `[-1 -2 -1; 0 0 0; 1 2 1]` around `(x, y)`.
pub open spec fn sobel_vertical(buffer: Seq<u8>, width: int, height: int, x: int, y: int) -> int {
    let (l, r, u, d) = (before(x), x + 1, before(y), y + 1);
    -sample(buffer, width, height, l, u) - 2 * sample(buffer, width, height, x, u) - sample(
        buffer,
        width,
        height,
        r,
        u,
    ) + sample(buffer, width, height, l, d) + 2 * sample(buffer, width, height, x, d) + sample(
        buffer,
        width,
        height,
        r,
        d,
    )
}

/// Whether `g` holds the Sobel sums of pixel `(x, y)`.
pub open spec fn is_sobel(g: Gradient, buffer: Seq<u8>, width: int, height: int, x: int, y: int) -> bool {
    g.horizontal == sobel_horizontal(buffer, width, height, x, y) && g.vertical == sobel_vertical(
        buffer,
        width,
        height,
        x,
        y,
    )
}

/// Luminance at `(x, y)`, clamped to the image.
fn value_at(buffer: &Vec<u8>, width: u32, height: u32, x: u32, y: u32) -> (r: i32)
    requires
        width > 0,
        height > 0,
        buffer.len() == width * height * 3,
    ensures
        r == sample(buffer@, width as int, height as int, x as int, y as int),
        0 <= r <= 255_000,
{
    let cx: u32 = if x <= width - 1 {
        x
    } else {
        width - 1
    };
    let cy: u32 = if y <= height - 1 {
        y
    } else {
        height - 1
    };
    proof {
        lemma_row_major(cx as int, cy as int, width as int, height as int);
    }
    let index: usize = (cy as usize * width as usize + cx as usize) * 3;
    299 * buffer[index] as i32 + 587 * buffer[index + 1] as i32 + 114 * buffer[index + 2] as i32
}

/// The Sobel sums of every pixel of a row-major RGB image, in row-major order.
pub fn gradient(buffer: &Vec<u8>, width: u32, height: u32) -> (r: Vec<Gradient>)
    requires
        buffer.len() == width * height * 3,
    ensures
        r.len() == width * height,
        forall|i: int|
            0 <= i < r.len() ==> is_sobel(
                #[trigger] r@[i],
                buffer@,
                width as int,
                height as int,
                i % width as int,
                i / width as int,
            ),
{
    let mut result: Vec<Gradient> = Vec::new();
    let mut y: u32 = 0;
    while y < height
        invariant
            y <= height,
            buffer.len() == width * height * 3,
            result.len() == y * width,
            forall|i: int|
                0 <= i < result.len() ==> is_sobel(
                    #[trigger] result@[i],
                    buffer@,
                    width as int,
                    height as int,
                    i % width as int,
                    i / width as int,
                ),
        decreases height - y,
    {
        let mut x: u32 = 0;
        while x < width
            invariant
                x <= width,
                y < height,
                buffer.len() == width * height * 3,
                result.len() == y * width + x,
                forall|i: int|
                    0 <= i < result.len() ==> is_sobel(
                        #[trigger] result@[i],
                        buffer@,
                        width as int,
                        height as int,
                        i % width as int,
                        i / width as int,
                    ),
            decreases width - x,
        {
            proof {
                lemma_row_major(x as int, y as int, width as int, height as int);
            }
            let l: u32 = if x == 0 {
                0
            } else {
                x - 1
            };
            let u: u32 = if y == 0 {
                0
            } else {
                y - 1
            };
            let a = value_at(buffer, width, height, l, u);
            let b = value_at(buffer, width, height, x, u);
            let c = value_at(buffer, width, height, x + 1, u);
            let d = value_at(buffer, width, height, l, y);
            let f = value_at(buffer, width, height, x + 1, y);
            let g = value_at(buffer, width, height, l, y + 1);
            let h = value_at(buffer, width, height, x, y + 1);
            let i = value_at(buffer, width, height, x + 1, y + 1);
            let hsum: i32 = -a + c - 2 * d + 2 * f - g + i;
            let vsum: i32 = -a - 2 * b - c + g + 2 * h + i;
            result.push(Gradient { horizontal: hsum, vertical: vsum });
            x = x + 1;
        }
        proof {
            assert(y * width + width == (y + 1) * width) by (nonlinear_arith);
        }
        y = y + 1;
    }
    proof {
        assert(height * width == width * height) by (nonlinear_arith);
    }
    result
}

/// Squared gradient magnitude.
pub open spec fn magnitude_squared(g: Gradient) -> int {
    g.horizontal * g.horizontal + g.vertical * g.vertical
}

/// The direction of the vector `(h, v)` (rows grow downwards), folded onto a
/// half-turn and rounded to the nearest eighth of a turn: 0 for horizontal,
/// 1 for the diagonal of rising `x` and `y`, 2 for vertical, 3 for the other
/// diagonal. Rounding at odd sixteenths of a turn compares with
/// `tan(pi / 8) = sqrt 2 - 1` by squaring; those boundaries, being
/// irrational, are never met by integer vectors. The zero vector is
/// horizontal.
pub open spec fn direction_bucket(h: int, v: int) -> int {
    let (a, b) = if v < 0 {
        (-h, -v)
    } else {
        (h, v)
    };
    let m = if a < 0 {
        -a
    } else {
        a
    };
    if a == 0 && b == 0 {
        0
    } else if (b + m) * (b + m) < 2 * m * m {
        0
    } else if 2 * b * b < (m + b) * (m + b) {
        if a > 0 {
            1
        } else {
            3
        }
    } else {
        2
    }
}

/// The direction of a gradient, rounded to the nearest eighth of a turn and
/// folded onto a half-turn (see `direction_bucket`).
pub fn angle_to_direction(g: Gradient) -> (r: u32)
    ensures
        r == direction_bucket(g.horizontal as int, g.vertical as int),
        r < 4,
{
    let (a, b): (i128, i128) = if g.vertical < 0 {
        (-(g.horizontal as i128), -(g.vertical as i128))
    } else {
        (g.horizontal as i128, g.vertical as i128)
    };
    let m: i128 = if a < 0 {
        -a
    } else {
        a
    };
    proof {
        assert(0 <= (b + m) * (b + m) <= 0x4_0000_0000_0000_0000) by (nonlinear_arith)
            requires
                0 <= b <= 0x8000_0000,
                0 <= m <= 0x8000_0000,
        ;
        assert(0 <= 2 * m * m <= 0x4_0000_0000_0000_0000) by (nonlinear_arith)
            requires
                0 <= m <= 0x8000_0000,
        ;
        assert(0 <= 2 * b * b <= 0x4_0000_0000_0000_0000) by (nonlinear_arith)
            requires
                0 <= b <= 0x8000_0000,
        ;
    }
    if a == 0 && b == 0 {
        0
    } else if (b + m) * (b + m) < 2 * m * m {
        0
    } else if 2 * b * b < (m + b) * (m + b) {
        if a > 0 {
            1
        } else {
            3
        }
    } else {
        2
    }
}

/// A direction bucket is the same for a vector and its opposite: it only
/// depends on the direction up to a half-turn.
pub proof fn lemma_direction_half_turn(h: int, v: int)
    ensures
        direction_bucket(h, v) == direction_bucket(-h, -v),
{
    if v == 0 && h != 0 {
        let m = if h < 0 {
            -h
        } else {
            h
        };
        assert((0 + m) * (0 + m) < 2 * m * m) by (nonlinear_arith)
            requires
                m > 0,
        ;
    }
}

/// Index of the first neighbour that a pixel's magnitude is compared with,
/// along its gradient direction.
pub open spec fn first_neighbour(i: int, width: int, direction: int) -> int {
    if direction == 0 {
        i - 1
    } else if direction == 1 {
        i - width - 1
    } else if direction == 2 {
        i - width
    } else {
        i - width + 1
    }
}

/// Index of the second neighbour, opposite the first.
pub open spec fn second_neighbour(i: int, width: int, direction: int) -> int {
    if direction == 0 {
        i + 1
    } else if direction == 1 {
        i + width + 1
    } else if direction == 2 {
        i + width
    } else {
        i + width - 1
    }
}

/// Whether pixel `(x, y)` is an edge: it lies off the image's border, its
/// magnitude reaches the low threshold, and neither neighbour along its
/// gradient direction has a larger magnitude.
pub open spec fn is_edge(gradient: Seq<Gradient>, width: int, height: int, x: int, y: int) -> bool {
    let i = y * width + x;
    let g = gradient[i];
    let direction = direction_bucket(g.horizontal as int, g.vertical as int);
    &&& 1 <= x < width - 1
    &&& 1 <= y < height - 1
    &&& magnitude_squared(g) >= THRESHOLD_LOW * THRESHOLD_LOW
    &&& magnitude_squared(g) >= magnitude_squared(gradient[first_neighbour(i, width, direction)])
    &&& magnitude_squared(g) >= magnitude_squared(gradient[second_neighbour(i, width, direction)])
}

/// Squared magnitude of a gradient.
fn magnitude_squared_of(g: Gradient) -> (r: i128)
    ensures
        r == magnitude_squared(g),
{
    proof {
        assert(0 <= g.horizontal * g.horizontal <= 0x4000_0000_0000_0000) by (nonlinear_arith)
            requires
                -0x8000_0000 <= g.horizontal <= 0x8000_0000,
        ;
        assert(0 <= g.vertical * g.vertical <= 0x4000_0000_0000_0000) by (nonlinear_arith)
            requires
                -0x8000_0000 <= g.vertical <= 0x8000_0000,
        ;
    }
    let h = g.horizontal as i128;
    let v = g.vertical as i128;
    h * h + v * v
}

/// Thins a gradient image to one-pixel-wide ridges: 255 where a pixel is an
/// edge (see `is_edge`), 0 elsewhere, in row-major order.
pub fn non_maximum_suppression(gradient: &Vec<Gradient>, width: u32, height: u32) -> (r: Vec<u8>)
    requires
        gradient.len() == width * height,
    ensures
        r.len() == width * height,
        forall|i: int|
            0 <= i < r.len() ==> #[trigger] r@[i] == if is_edge(
                gradient@,
                width as int,
                height as int,
                i % width as int,
                i / width as int,
            ) {
                255u8
            } else {
                0u8
            },
{
    let mut result: Vec<u8> = Vec::new();
    let w: usize = width as usize;
    let mut y: u32 = 0;
    while y < height
        invariant
            y <= height,
            w == width,
            gradient.len() == width * height,
            result.len() == y * width,
            forall|i: int|
                0 <= i < result.len() ==> #[trigger] result@[i] == if is_edge(
                    gradient@,
                    width as int,
                    height as int,
                    i % width as int,
                    i / width as int,
                ) {
                    255u8
                } else {
                    0u8
                },
        decreases height - y,
    {
        let mut x: u32 = 0;
        while x < width
            invariant
                x <= width,
                y < height,
                w == width,
                gradient.len() == width * height,
                result.len() == y * width + x,
                forall|i: int|
                    0 <= i < result.len() ==> #[trigger] result@[i] == if is_edge(
                        gradient@,
                        width as int,
                        height as int,
                        i % width as int,
                        i / width as int,
                    ) {
                        255u8
                    } else {
                        0u8
                    },
            decreases width - x,
        {
            proof {
                lemma_row_major(x as int, y as int, width as int, height as int);
            }
            let mut edge = false;
            if 1 <= x && x + 1 < width && 1 <= y && y + 1 < height {
                let i: usize = y as usize * w + x as usize;
                proof {
                    lemma_row_major(x as int + 1, y as int + 1, width as int, height as int);
                    lemma_row_major(x as int - 1, y as int - 1, width as int, height as int);
                    lemma_row_major(x as int + 1, y as int - 1, width as int, height as int);
                    lemma_row_major(x as int - 1, y as int + 1, width as int, height as int);
                    assert((y + 1) * width == y * width + width) by (nonlinear_arith);
                    assert((y - 1) * width == y * width - width) by (nonlinear_arith);
                }
                let g = gradient[i];
                let magnitude = magnitude_squared_of(g);
                let direction = angle_to_direction(g);
                let (first, second): (usize, usize) = if direction == 0 {
                    (i - 1, i + 1)
                } else if direction == 1 {
                    (i - w - 1, i + w + 1)
                } else if direction == 2 {
                    (i - w, i + w)
                } else {
                    (i - w + 1, i + w - 1)
                };
                let suppress = magnitude < magnitude_squared_of(gradient[first]) || magnitude
                    < magnitude_squared_of(gradient[second]);
                edge = !suppress && magnitude >= THRESHOLD_LOW * THRESHOLD_LOW;
            }
            result.push(
                if edge {
                    255
                } else {
                    0
                },
            );
            x = x + 1;
        }
        proof {
            assert(y * width + width == (y + 1) * width) by (nonlinear_arith);
        }
        y = y + 1;
    }
    proof {
        assert(height * width == width * height) by (nonlinear_arith);
    }
    result
}

/// Border pixels are never edges.
pub proof fn lemma_border_is_not_edge(gradient: Seq<Gradient>, width: int, height: int, x: int, y: int)
    requires
        x == 0 || y == 0 || x == width - 1 || y == height - 1,
    ensures
        !is_edge(gradient, width, height, x, y),
{
}

/// Whether every pixel of a row-major RGB buffer has the colour of the first.
pub open spec fn is_uniform(buffer: Seq<u8>, width: int, height: int) -> bool {
    forall|i: int| 0 <= i < width * height * 3 ==> #[trigger] buffer[i] == buffer[i % 3]
}

/// On a uniform image every sample has the first pixel's luminance.
proof fn lemma_uniform_sample(buffer: Seq<u8>, width: int, height: int, x: int, y: int)
    requires
        width > 0,
        height > 0,
        0 <= x,
        0 <= y,
        is_uniform(buffer, width, height),
    ensures
        sample(buffer, width, height, x, y) == 299 * buffer[0] + 587 * buffer[1] + 114 * buffer[2],
{
    let cx = min(x, width - 1);
    let cy = min(y, height - 1);
    lemma_row_major(cx, cy, width, height);
    let p = cy * width + cx;
    assert(p * 3 + 2 < width * height * 3) by (nonlinear_arith)
        requires
            0 <= p < width * height,
    ;
    lemma_fundamental_div_mod_converse(p * 3, 3, p, 0);
    lemma_fundamental_div_mod_converse(p * 3 + 1, 3, p, 1);
    lemma_fundamental_div_mod_converse(p * 3 + 2, 3, p, 2);
    assert(buffer[p * 3] == buffer[0]);
    assert(buffer[p * 3 + 1] == buffer[1]);
    assert(buffer[p * 3 + 2] == buffer[2]);
}

/// A uniformly coloured image has a zero gradient everywhere, and so no
/// edges.
pub proof fn lemma_uniform_image_has_no_edges(
    buffer: Seq<u8>,
    gradient: Seq<Gradient>,
    width: int,
    height: int,
    x: int,
    y: int,
)
    requires
        is_uniform(buffer, width, height),
        gradient.len() == width * height,
        forall|i: int|
            0 <= i < width * height ==> is_sobel(
                #[trigger] gradient[i],
                buffer,
                width,
                height,
                i % width,
                i / width,
            ),
        0 <= x < width,
        0 <= y < height,
    ensures
        gradient[y * width + x].horizontal == 0,
        gradient[y * width + x].vertical == 0,
        !is_edge(gradient, width, height, x, y),
{
    lemma_row_major(x, y, width, height);
    assert(is_sobel(gradient[y * width + x], buffer, width, height, x, y));
    let (l, r, u, d) = (before(x), x + 1, before(y), y + 1);
    lemma_uniform_sample(buffer, width, height, l, u);
    lemma_uniform_sample(buffer, width, height, x, u);
    lemma_uniform_sample(buffer, width, height, r, u);
    lemma_uniform_sample(buffer, width, height, l, y);
    lemma_uniform_sample(buffer, width, height, r, y);
    lemma_uniform_sample(buffer, width, height, l, d);
    lemma_uniform_sample(buffer, width, height, x, d);
    lemma_uniform_sample(buffer, width, height, r, d);
}

/// Whether a 10 by 10 RGB buffer is black left of column 5 and white from
/// column 5 on: one bright vertical edge.
pub open spec fn is_vertical_step(buffer: Seq<u8>) -> bool {
    &&& buffer.len() == 300
    &&& forall|i: int|
        0 <= i < 300 ==> #[trigger] buffer[i] == if (i / 3) % 10 >= 5 {
            255u8
        } else {
            0u8
        }
}

/// On the vertical step, a sample has the luminance of its column.
proof fn lemma_step_sample(buffer: Seq<u8>, x: int, y: int)
    requires
        is_vertical_step(buffer),
        0 <= x,
        0 <= y,
    ensures
        sample(buffer, 10, 10, x, y) == if min(x, 9) >= 5 {
            255_000int
        } else {
            0
        },
{
    let cx = min(x, 9);
    let cy = min(y, 9);
    lemma_row_major(cx, cy, 10, 10);
    let p = cy * 10 + cx;
    lemma_fundamental_div_mod_converse(p * 3, 3, p, 0);
    lemma_fundamental_div_mod_converse(p * 3 + 1, 3, p, 1);
    lemma_fundamental_div_mod_converse(p * 3 + 2, 3, p, 2);
    assert(buffer[p * 3] == buffer[(cy * 10 + cx) * 3]);
}

/// On the vertical step, only columns 4 and 5 have a gradient, pointing
/// right.
proof fn lemma_step_sobel(buffer: Seq<u8>, gradient: Seq<Gradient>, x: int, y: int)
    requires
        is_vertical_step(buffer),
        gradient.len() == 100,
        forall|i: int|
            0 <= i < 100 ==> is_sobel(#[trigger] gradient[i], buffer, 10, 10, i % 10, i / 10),
        0 <= x < 10,
        0 <= y < 10,
    ensures
        gradient[y * 10 + x].horizontal == if x == 4 || x == 5 {
            1_020_000int
        } else {
            0
        },
        gradient[y * 10 + x].vertical == 0,
{
    lemma_row_major(x, y, 10, 10);
    assert(is_sobel(gradient[y * 10 + x], buffer, 10, 10, x, y));
    let (l, r, u, d) = (before(x), x + 1, before(y), y + 1);
    lemma_step_sample(buffer, l, u);
    lemma_step_sample(buffer, x, u);
    lemma_step_sample(buffer, r, u);
    lemma_step_sample(buffer, l, y);
    lemma_step_sample(buffer, r, y);
    lemma_step_sample(buffer, l, d);
    lemma_step_sample(buffer, x, d);
    lemma_step_sample(buffer, r, d);
}

/// A 10 by 10 image with one bright vertical edge at column 5 has its edges
/// exactly on columns 4 and 5, off the top and bottom rows.
pub proof fn lemma_vertical_step_edges(buffer: Seq<u8>, gradient: Seq<Gradient>, x: int, y: int)
    requires
        is_vertical_step(buffer),
        gradient.len() == 100,
        forall|i: int|
            0 <= i < 100 ==> is_sobel(#[trigger] gradient[i], buffer, 10, 10, i % 10, i / 10),
        0 <= x < 10,
        0 <= y < 10,
    ensures
        is_edge(gradient, 10, 10, x, y) <==> (1 <= y <= 8 && (x == 4 || x == 5)),
{
    lemma_step_sobel(buffer, gradient, x, y);
    if 1 <= x <= 8 && 1 <= y <= 8 {
        lemma_step_sobel(buffer, gradient, x - 1, y);
        lemma_step_sobel(buffer, gradient, x + 1, y);
        let g = gradient[y * 10 + x];
        assert(direction_bucket(g.horizontal as int, g.vertical as int) == 0) by (nonlinear_arith)
            requires
                g.vertical == 0,
                g.horizontal == 0 || g.horizontal == 1_020_000,
        ;
        assert(magnitude_squared(g) == g.horizontal * g.horizontal) by (nonlinear_arith)
            requires
                g.vertical == 0,
        ;
        assert(1_020_000int * 1_020_000 >= THRESHOLD_LOW * THRESHOLD_LOW);
        assert(y * 10 + x - 1 == y * 10 + (x - 1));
        assert(y * 10 + x + 1 == y * 10 + (x + 1));
    }
}

} // verus!
