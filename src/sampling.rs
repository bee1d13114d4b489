use rand::Rng;
use vstd::prelude::*;

verus! {

/// rand's thread-local generator, carried through unopened.
#[verifier::external_type_specification]
#[verifier::external_body]
pub struct ExThreadRng(rand::ThreadRng);

/// Relies on rand's `Rng::gen_range(low, high)`, which returns a value in
/// `[low, high)` (and panics when `low >= high`).
#[verifier::external_body]
pub(crate) fn draw_below(rng: &mut rand::ThreadRng, bound: u32) -> (r: u32)
    requires
        bound > 0,
    ensures
        r < bound,
{
    rng.gen_range(0, bound)
}

/// Relies on rand's `Rng::gen::<usize>()`: any `usize` may come back.
#[verifier::external_body]
fn draw_any(rng: &mut rand::ThreadRng) -> usize {
    rng.gen::<usize>()
}

/// The pixel that two drawn values select on a `width` by `height` canvas:
/// each value reduced onto its axis.
pub fn point_from_draws(a: usize, b: usize, width: u32, height: u32) -> (r: (usize, usize))
    requires
        width > 0,
        height > 0,
    ensures
        r.0 == a % (width as usize),
        r.1 == b % (height as usize),
        r.0 < width,
        r.1 < height,
{
    (a % width as usize, b % height as usize)
}

/// A pixel of a `width` by `height` canvas, drawn at random: two draws
/// reduced by `point_from_draws`.
pub fn random_point(rng: &mut rand::ThreadRng, width: u32, height: u32) -> (r: (usize, usize))
    requires
        width > 0,
        height > 0,
    ensures
        r.0 < width,
        r.1 < height,
{
    let a = draw_any(rng);
    let b = draw_any(rng);
    point_from_draws(a, b, width, height)
}

} // verus!
