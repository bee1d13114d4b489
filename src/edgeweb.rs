use crate::imageprocessing::{
    angle_to_direction, direction_bucket, is_edge, lemma_row_major, non_maximum_suppression, Gradient,
};
use crate::painter::{lemma_div_below, lemma_round_between, round_div};
use crate::sampling::draw_below;
use vstd::arithmetic::div_mod::{lemma_fundamental_div_mod, lemma_mod_bound};
use vstd::math::{max, min};
use vstd::prelude::*;

verus! {

/// Positions along a segment at which its colour is sampled are drawn in
/// steps of `1 / SAMPLE_STEPS` of its length.
pub const SAMPLE_STEPS: u32 = 65536;

/// Row-major index of a pixel of a grid `width` wide.
pub open spec fn pixel_of(p: (usize, usize), width: int) -> int {
    p.1 * width + p.0
}

/// The pixels marked 255 in a row-major mask, as `(x, y)` in row-major order.
pub fn edge_points(mask: &Vec<u8>, width: u32, height: u32) -> (r: Vec<(usize, usize)>)
    requires
        mask.len() == width * height,
    ensures
        forall|k: int|
            #![trigger r@[k]]
            0 <= k < r.len() ==> r@[k].0 < width && r@[k].1 < height && mask@[pixel_of(
                r@[k],
                width as int,
            )] == 255,
        forall|k1: int, k2: int|
            #![trigger r@[k1], r@[k2]]
            0 <= k1 < k2 < r.len() ==> pixel_of(r@[k1], width as int) < pixel_of(r@[k2], width as int),
        forall|i: int|
            #![trigger mask@[i]]
            0 <= i < mask.len() && mask@[i] == 255 ==> exists|k: int|
                0 <= k < r.len() && #[trigger] pixel_of(r@[k], width as int) == i,
{
    let mut points: Vec<(usize, usize)> = Vec::new();
    let w: usize = width as usize;
    let mut i: usize = 0;
    while i < mask.len()
        invariant
            i <= mask.len(),
            mask.len() == width * height,
            w == width,
            forall|k: int|
                #![trigger points@[k]]
                0 <= k < points.len() ==> points@[k].0 < width && points@[k].1 < height
                    && mask@[pixel_of(points@[k], width as int)] == 255 && pixel_of(
                    points@[k],
                    width as int,
                ) < i,
            forall|k1: int, k2: int|
                #![trigger points@[k1], points@[k2]]
                0 <= k1 < k2 < points.len() ==> pixel_of(points@[k1], width as int) < pixel_of(
                    points@[k2],
                    width as int,
                ),
            forall|j: int|
                #![trigger mask@[j]]
                0 <= j < i && mask@[j] == 255 ==> exists|k: int|
                    0 <= k < points.len() && #[trigger] pixel_of(points@[k], width as int) == j,
        decreases mask.len() - i,
    {
        let ghost before = points@;
        if mask[i] == 255 {
            proof {
                assert(w > 0) by (nonlinear_arith)
                    requires
                        i < width * height,
                        w == width,
                ;
                lemma_fundamental_div_mod(i as int, w as int);
                lemma_mod_bound(i as int, w as int);
                assert((i as int) < height * width) by (nonlinear_arith)
                    requires
                        i < width * height,
                ;
                lemma_div_below(i as int, w as int, height as int);
                assert(w * (i / w) == (i / w) * w) by (nonlinear_arith);
            }
            points.push((i % w, i / w));
            proof {
                assert(pixel_of(points@[points.len() - 1], width as int) == i);
            }
        }
        proof {
            assert forall|j: int|
                #![trigger mask@[j]]
                0 <= j < i + 1 && mask@[j] == 255 implies exists|k: int|
                0 <= k < points.len() && #[trigger] pixel_of(points@[k], width as int) == j by {
                if j < i {
                    let k = choose|k: int| 0 <= k < before.len() && #[trigger] pixel_of(before[k], width as int) == j;
                    assert(points@[k] == before[k]);
                } else {
                    assert(pixel_of(points@[points.len() - 1], width as int) == j);
                }
            }
        }
        i = i + 1;
    }
    points
}

/// The direction bucket of the gradient at each of `points`.
pub fn point_directions(points: &Vec<(usize, usize)>, gradient: &Vec<Gradient>, width: u32, height: u32) -> (r:
    Vec<u32>)
    requires
        gradient.len() == width * height,
        forall|k: int| #![trigger points@[k]] 0 <= k < points.len() ==> points@[k].0 < width && points@[k].1 < height,
    ensures
        r.len() == points.len(),
        forall|k: int|
            0 <= k < r.len() ==> #[trigger] r@[k] == direction_bucket(
                gradient@[pixel_of(points@[k], width as int)].horizontal as int,
                gradient@[pixel_of(points@[k], width as int)].vertical as int,
            ),
{
    let mut directions: Vec<u32> = Vec::new();
    let mut k: usize = 0;
    while k < points.len()
        invariant
            k <= points.len(),
            directions.len() == k,
            gradient.len() == width * height,
            forall|j: int| #![trigger points@[j]] 0 <= j < points.len() ==> points@[j].0 < width && points@[j].1 < height,
            forall|j: int|
                0 <= j < k ==> #[trigger] directions@[j] == direction_bucket(
                    gradient@[pixel_of(points@[j], width as int)].horizontal as int,
                    gradient@[pixel_of(points@[j], width as int)].vertical as int,
                ),
        decreases points.len() - k,
    {
        let (x, y) = points[k];
        proof {
            lemma_row_major(x as int, y as int, width as int, height as int);
        }
        directions.push(angle_to_direction(gradient[y * width as usize + x]));
        k = k + 1;
    }
    directions
}

/// Squared distance between two pixels.
pub open spec fn distance_squared(p: (usize, usize), q: (usize, usize)) -> int {
    (q.0 - p.0) * (q.0 - p.0) + (q.1 - p.1) * (q.1 - p.1)
}

/// Whether two pixels are between 4 and 50 pixels apart.
pub open spec fn linkable(p: (usize, usize), q: (usize, usize)) -> bool {
    16 <= distance_squared(p, q) <= 2500
}

/// Whether point `j` may be joined to an earlier point `i`: same direction,
/// and between 4 and 50 pixels apart.
pub open spec fn partners(points: Seq<(usize, usize)>, directions: Seq<u32>, i: int, j: int) -> bool {
    &&& 0 <= i < j < points.len()
    &&& directions[i] == directions[j]
    &&& linkable(points[i], points[j])
}

/// Whether `j` is the partner of `i` nearest to it, the earliest one among
/// equally near partners.
pub open spec fn nearest_partner(points: Seq<(usize, usize)>, directions: Seq<u32>, i: int, j: int) -> bool {
    &&& partners(points, directions, i, j)
    &&& forall|k: int|
        #[trigger] partners(points, directions, i, k) ==> distance_squared(points[i], points[j])
            < distance_squared(points[i], points[k]) || (distance_squared(points[i], points[j])
            == distance_squared(points[i], points[k]) && j <= k)
}

/// The squared distance between two pixels when they are linkable.
fn link_distance(p: (usize, usize), q: (usize, usize)) -> (r: Option<u64>)
    ensures
        r == (if linkable(p, q) {
            Some(distance_squared(p, q) as u64)
        } else {
            None
        }),
{
    let dx: usize = if p.0 < q.0 {
        q.0 - p.0
    } else {
        p.0 - q.0
    };
    let dy: usize = if p.1 < q.1 {
        q.1 - p.1
    } else {
        p.1 - q.1
    };
    proof {
        assert((q.0 - p.0) * (q.0 - p.0) == dx * dx) by (nonlinear_arith)
            requires
                dx == q.0 - p.0 || dx == p.0 - q.0,
        ;
        assert((q.1 - p.1) * (q.1 - p.1) == dy * dy) by (nonlinear_arith)
            requires
                dy == q.1 - p.1 || dy == p.1 - q.1,
        ;
        assert(dx * dx >= 0 && dy * dy >= 0) by (nonlinear_arith);
    }
    if dx > 50 || dy > 50 {
        proof {
            assert(dx * dx > 2500 || dy * dy > 2500) by (nonlinear_arith)
                requires
                    dx > 50 || dy > 50,
            ;
        }
        return None;
    }
    proof {
        assert(dx * dx <= 2500 && dy * dy <= 2500) by (nonlinear_arith)
            requires
                dx <= 50,
                dy <= 50,
        ;
    }
    let d: u64 = (dx * dx + dy * dy) as u64;
    if 16 <= d && d <= 2500 {
        Some(d)
    } else {
        None
    }
}

/// For each point, in order, its nearest partner among the later points (see
/// `nearest_partner`), as index pairs; points without a partner are left out.
pub fn edge_pairs(points: &Vec<(usize, usize)>, directions: &Vec<u32>) -> (r: Vec<(usize, usize)>)
    requires
        directions.len() == points.len(),
    ensures
        forall|k: int|
            #![trigger r@[k]]
            0 <= k < r.len() ==> nearest_partner(points@, directions@, r@[k].0 as int, r@[k].1 as int),
        forall|k1: int, k2: int| #![trigger r@[k1], r@[k2]] 0 <= k1 < k2 < r.len() ==> r@[k1].0 < r@[k2].0,
        forall|i: int, j: int|
            #[trigger] partners(points@, directions@, i, j) ==> exists|k: int|
                0 <= k < r.len() && #[trigger] r@[k].0 == i,
{
    let n = points.len();
    let mut pairs: Vec<(usize, usize)> = Vec::new();
    let mut i: usize = 0;
    while i < n
        invariant
            i <= n,
            n == points.len(),
            directions.len() == n,
            forall|k: int|
                #![trigger pairs@[k]]
                0 <= k < pairs.len() ==> nearest_partner(points@, directions@, pairs@[k].0 as int, pairs@[k].1 as int)
                    && pairs@[k].0 < i,
            forall|k1: int, k2: int|
                #![trigger pairs@[k1], pairs@[k2]]
                0 <= k1 < k2 < pairs.len() ==> pairs@[k1].0 < pairs@[k2].0,
            forall|i2: int, j: int|
                #[trigger] partners(points@, directions@, i2, j) && i2 < i ==> exists|k: int|
                    0 <= k < pairs.len() && #[trigger] pairs@[k].0 == i2,
        decreases n - i,
    {
        let mut best: Option<(usize, u64)> = None;
        let mut j: usize = i + 1;
        while j < n
            invariant
                i < n,
                i + 1 <= j <= n,
                n == points.len(),
                directions.len() == n,
                match best {
                    None => forall|k: int| #[trigger] partners(points@, directions@, i as int, k) ==> k >= j,
                    Some((b, d)) => {
                        &&& i < b < j
                        &&& partners(points@, directions@, i as int, b as int)
                        &&& d == distance_squared(points@[i as int], points@[b as int])
                        &&& forall|k: int|
                            #[trigger] partners(points@, directions@, i as int, k) && k < j ==> d
                                < distance_squared(points@[i as int], points@[k]) || (d
                                == distance_squared(points@[i as int], points@[k]) && b <= k)
                    },
                },
            decreases n - j,
        {
            if directions[i] == directions[j] {
                match link_distance(points[i], points[j]) {
                    Some(d) => {
                        let closer = match best {
                            None => true,
                            Some((_, best_distance)) => d < best_distance,
                        };
                        if closer {
                            best = Some((j, d));
                        }
                    },
                    None => {},
                }
            }
            j = j + 1;
        }
        let ghost before = pairs@;
        match best {
            Some((b, _)) => {
                pairs.push((i, b));
            },
            None => {},
        }
        proof {
            assert forall|i2: int, j2: int|
                #[trigger] partners(points@, directions@, i2, j2) && i2 < i + 1 implies exists|k: int|
                0 <= k < pairs.len() && #[trigger] pairs@[k].0 == i2 by {
                if i2 < i {
                    let k = choose|k: int| 0 <= k < before.len() && #[trigger] before[k].0 == i2;
                    assert(pairs@[k] == before[k]);
                } else {
                    assert(pairs@[pairs.len() - 1].0 == i2);
                }
            }
        }
        i = i + 1;
    }
    pairs
}

/// Whether partner `j` of point `i` comes after partner `p` in order of
/// distance from `i`, ties broken by index. Every partner comes after `None`.
pub open spec fn ranks_after(points: Seq<(usize, usize)>, i: int, p: Option<int>, j: int) -> bool {
    match p {
        None => true,
        Some(p) => distance_squared(points[i], points[p]) < distance_squared(points[i], points[j]) || (
        distance_squared(points[i], points[p]) == distance_squared(points[i], points[j]) && p < j),
    }
}

/// Whether `j` is the partner of `i` that comes next after `p`: the nearest
/// of those after it, the earliest one among equally near partners.
pub open spec fn next_partner(
    points: Seq<(usize, usize)>,
    directions: Seq<u32>,
    i: int,
    p: Option<int>,
    j: int,
) -> bool {
    &&& partners(points, directions, i, j)
    &&& ranks_after(points, i, p, j)
    &&& forall|k: int|
        #[trigger] partners(points, directions, i, k) && ranks_after(points, i, p, k) ==> distance_squared(
            points[i],
            points[j],
        ) < distance_squared(points[i], points[k]) || (distance_squared(points[i], points[j])
            == distance_squared(points[i], points[k]) && j <= k)
}

/// Whether point `i` has a partner after `p`.
pub open spec fn has_partner_after(points: Seq<(usize, usize)>, directions: Seq<u32>, i: int, p: Option<int>) -> bool {
    exists|k: int| #[trigger] partners(points, directions, i, k) && ranks_after(points, i, p, k)
}

/// The partner of point `i` that comes next after `prev` (see `next_partner`),
/// if any is left.
fn find_next_partner(points: &Vec<(usize, usize)>, directions: &Vec<u32>, i: usize, prev: Option<usize>) -> (r:
    Option<usize>)
    requires
        directions.len() == points.len(),
        i < points.len(),
        match prev {
            Some(p) => partners(points@, directions@, i as int, p as int),
            None => true,
        },
    ensures
        match r {
            Some(j) => next_partner(
                points@,
                directions@,
                i as int,
                match prev {
                    Some(p) => Some(p as int),
                    None => None,
                },
                j as int,
            ),
            None => !has_partner_after(
                points@,
                directions@,
                i as int,
                match prev {
                    Some(p) => Some(p as int),
                    None => None,
                },
            ),
        },
{
    let ghost gp: Option<int> = match prev {
        Some(p) => Some(p as int),
        None => None,
    };
    let n = points.len();
    let floor: Option<(usize, u64)> = match prev {
        Some(p) => match link_distance(points[i], points[p]) {
            Some(d) => Some((p, d)),
            None => None,
        },
        None => None,
    };
    proof {
        match prev {
            Some(p) => {
                assert(floor == Some((p, distance_squared(points@[i as int], points@[p as int]) as u64)));
            },
            None => {},
        }
    }
    let mut best: Option<(usize, u64)> = None;
    let mut j: usize = i + 1;
    while j < n
        invariant
            i < n,
            i + 1 <= j <= n,
            n == points.len(),
            directions.len() == n,
            gp == (match prev {
                Some(p) => Some(p as int),
                None => None::<int>,
            }),
            match prev {
                Some(p) => floor == Some((p, distance_squared(points@[i as int], points@[p as int]) as u64))
                    && 0 <= distance_squared(points@[i as int], points@[p as int]) <= 2500,
                None => floor.is_none(),
            },
            match best {
                None => forall|k: int|
                    #[trigger] partners(points@, directions@, i as int, k) && ranks_after(points@, i as int, gp, k)
                        ==> k >= j,
                Some((b, d)) => {
                    &&& i < b < j
                    &&& partners(points@, directions@, i as int, b as int)
                    &&& ranks_after(points@, i as int, gp, b as int)
                    &&& d == distance_squared(points@[i as int], points@[b as int])
                    &&& forall|k: int|
                        #[trigger] partners(points@, directions@, i as int, k) && ranks_after(
                            points@,
                            i as int,
                            gp,
                            k,
                        ) && k < j ==> d < distance_squared(points@[i as int], points@[k]) || (d
                            == distance_squared(points@[i as int], points@[k]) && b <= k)
                },
            },
        decreases n - j,
    {
        if directions[i] == directions[j] {
            match link_distance(points[i], points[j]) {
                Some(d) => {
                    let later = match floor {
                        None => true,
                        Some((p, fd)) => fd < d || (fd == d && p < j),
                    };
                    let closer = match best {
                        None => true,
                        Some((_, best_distance)) => d < best_distance,
                    };
                    if later && closer {
                        best = Some((j, d));
                    }
                },
                None => {},
            }
        }
        j = j + 1;
    }
    match best {
        Some((b, _)) => Some(b),
        None => None,
    }
}

/// For each point, in order, up to `cap` of its partners among the later
/// points, nearest first (each the `next_partner` after the one before), as
/// index pairs. A point gets fewer than `cap` only when it has no more.
pub fn edge_pairs_capped(points: &Vec<(usize, usize)>, directions: &Vec<u32>, cap: usize) -> (r: Vec<(usize, usize)>)
    requires
        directions.len() == points.len(),
    ensures
        forall|k: int|
            #![trigger r@[k]]
            0 <= k < r.len() ==> next_partner(
                points@,
                directions@,
                r@[k].0 as int,
                if k > 0 && r@[k - 1].0 == r@[k].0 {
                    Some(r@[k - 1].1 as int)
                } else {
                    None
                },
                r@[k].1 as int,
            ),
        forall|k1: int, k2: int| #![trigger r@[k1], r@[k2]] 0 <= k1 < k2 < r.len() ==> r@[k1].0 <= r@[k2].0,
        forall|k: int| #![trigger r@[k]] cap <= k < r.len() ==> r@[k - cap].0 < r@[k].0,
        forall|k: int|
            #![trigger r@[k]]
            0 <= k < r.len() && (k + 1 == r.len() || r@[k + 1].0 != r@[k].0) ==> (cap <= k + 1 && r@[k + 1
                - cap].0 == r@[k].0) || !has_partner_after(points@, directions@, r@[k].0 as int, Some(r@[k].1 as int)),
        forall|i: int, j: int|
            #[trigger] partners(points@, directions@, i, j) && cap > 0 ==> exists|k: int|
                0 <= k < r.len() && #[trigger] r@[k].0 == i,
{
    let n = points.len();
    let mut pairs: Vec<(usize, usize)> = Vec::new();
    let mut i: usize = 0;
    while i < n
        invariant
            i <= n,
            n == points.len(),
            directions.len() == n,
            forall|k: int|
                #![trigger pairs@[k]]
                0 <= k < pairs.len() ==> pairs@[k].0 < i && next_partner(
                    points@,
                    directions@,
                    pairs@[k].0 as int,
                    if k > 0 && pairs@[k - 1].0 == pairs@[k].0 {
                        Some(pairs@[k - 1].1 as int)
                    } else {
                        None
                    },
                    pairs@[k].1 as int,
                ),
            forall|k1: int, k2: int|
                #![trigger pairs@[k1], pairs@[k2]]
                0 <= k1 < k2 < pairs.len() ==> pairs@[k1].0 <= pairs@[k2].0,
            forall|k: int| #![trigger pairs@[k]] cap <= k < pairs.len() ==> pairs@[k - cap].0 < pairs@[k].0,
            forall|k: int|
                #![trigger pairs@[k]]
                0 <= k < pairs.len() && (k + 1 == pairs.len() || pairs@[k + 1].0 != pairs@[k].0) ==> (cap <= k + 1
                    && pairs@[k + 1 - cap].0 == pairs@[k].0) || !has_partner_after(
                    points@,
                    directions@,
                    pairs@[k].0 as int,
                    Some(pairs@[k].1 as int),
                ),
            forall|i2: int, j: int|
                #[trigger] partners(points@, directions@, i2, j) && cap > 0 && i2 < i ==> exists|k: int|
                    0 <= k < pairs.len() && #[trigger] pairs@[k].0 == i2,
        decreases n - i,
    {
        let ghost base = pairs.len() as int;
        let ghost before = pairs@;
        let mut prev: Option<usize> = None;
        let mut taken: usize = 0;
        let mut done = false;
        while taken < cap && !done
            invariant
                i < n,
                n == points.len(),
                directions.len() == n,
                taken <= cap,
                pairs.len() == base + taken,
                base == before.len(),
                forall|k: int| 0 <= k < base ==> #[trigger] pairs@[k] == before[k],
                forall|k: int| #![trigger before[k]] 0 <= k < base ==> before[k].0 < i,
                taken == 0 <==> prev.is_none(),
                match prev {
                    Some(p) => pairs@[pairs.len() - 1] == (i, p) && partners(
                        points@,
                        directions@,
                        i as int,
                        p as int,
                    ),
                    None => true,
                },
                done ==> !has_partner_after(
                    points@,
                    directions@,
                    i as int,
                    match prev {
                        Some(p) => Some(p as int),
                        None => None,
                    },
                ),
                forall|k: int| #![trigger pairs@[k]] base <= k < pairs.len() ==> pairs@[k].0 == i,
                forall|k: int|
                    #![trigger pairs@[k]]
                    0 <= k < pairs.len() ==> next_partner(
                        points@,
                        directions@,
                        pairs@[k].0 as int,
                        if k > 0 && pairs@[k - 1].0 == pairs@[k].0 {
                            Some(pairs@[k - 1].1 as int)
                        } else {
                            None
                        },
                        pairs@[k].1 as int,
                    ),
            decreases cap - taken + if done {
                0int
            } else {
                1int
            },
        {
            let found = find_next_partner(points, directions, i, prev);
            match found {
                Some(j) => {
                    pairs.push((i, j));
                    prev = Some(j);
                    taken = taken + 1;
                },
                None => {
                    done = true;
                },
            }
        }
        proof {
            assert forall|k1: int, k2: int|
                #![trigger pairs@[k1], pairs@[k2]]
                0 <= k1 < k2 < pairs.len() implies pairs@[k1].0 <= pairs@[k2].0 by {
                if k2 < base {
                    assert(before[k1].0 <= before[k2].0);
                }
            }
            assert forall|k: int| #![trigger pairs@[k]] cap <= k < pairs.len() implies pairs@[k - cap].0
                < pairs@[k].0 by {
                if k < base {
                    assert(before[k - cap].0 < before[k].0);
                } else {
                    assert(before[k - cap].0 < i);
                }
            }
            assert forall|k: int|
                #![trigger pairs@[k]]
                0 <= k < pairs.len() && (k + 1 == pairs.len() || pairs@[k + 1].0 != pairs@[k].0) implies (cap
                    <= k + 1 && pairs@[k + 1 - cap].0 == pairs@[k].0) || !has_partner_after(
                    points@,
                    directions@,
                    pairs@[k].0 as int,
                    Some(pairs@[k].1 as int),
                ) by {
                if k < base {
                    assert(before[k].0 < i);
                    if k + 1 < base {
                        assert(before[k + 1].0 != before[k].0);
                    }
                    assert(k + 1 == before.len() || before[k + 1].0 != before[k].0);
                    if cap <= k + 1 {
                        assert(pairs@[k + 1 - cap] == before[k + 1 - cap]);
                    }
                } else {
                    assert(k + 1 == pairs.len());
                    if !done {
                        assert(taken == cap);
                        assert(pairs@[k + 1 - cap].0 == i);
                    }
                }
            }
            assert forall|i2: int, j: int|
                #[trigger] partners(points@, directions@, i2, j) && cap > 0 && i2 < i + 1 implies exists|k: int|
                0 <= k < pairs.len() && #[trigger] pairs@[k].0 == i2 by {
                if i2 < i {
                    let k = choose|k: int| 0 <= k < before.len() && #[trigger] before[k].0 == i2;
                    assert(pairs@[k] == before[k]);
                } else {
                    if taken == 0 {
                        assert(done);
                        assert(partners(points@, directions@, i as int, j) && ranks_after(points@, i as int, None, j));
                    } else {
                        assert(pairs@[base].0 == i2);
                    }
                }
            }
        }
        i = i + 1;
    }
    pairs
}

/// A segment of the edge web, with the pixel whose colour it takes.
#[derive(Clone, Copy)]
pub struct WebSegment {
    pub x1: usize,
    pub y1: usize,
    pub x2: usize,
    pub y2: usize,
    pub sample_x: usize,
    pub sample_y: usize,
}

/// Whether `(x1, y1)` and `(x2, y2)` may be joined in the edge web: both are
/// edges of the same direction, between 4 and 50 pixels apart.
pub open spec fn web_link(gradient: Seq<Gradient>, width: int, height: int, x1: int, y1: int, x2: int, y2: int) -> bool {
    let g1 = gradient[y1 * width + x1];
    let g2 = gradient[y2 * width + x2];
    &&& is_edge(gradient, width, height, x1, y1)
    &&& is_edge(gradient, width, height, x2, y2)
    &&& direction_bucket(g1.horizontal as int, g1.vertical as int) == direction_bucket(
        g2.horizontal as int,
        g2.vertical as int,
    )
    &&& 16 <= (x2 - x1) * (x2 - x1) + (y2 - y1) * (y2 - y1) <= 2500
}

/// Row-major index of a pixel given as integers.
pub open spec fn index_of(p: (int, int), width: int) -> int {
    p.1 * width + p.0
}

/// Whether pixel `b`, later than `a` in row-major order, may be joined to `a`
/// in the edge web.
pub open spec fn web_partner(gradient: Seq<Gradient>, width: int, height: int, a: (int, int), b: (int, int)) -> bool {
    &&& 0 <= a.0 < width && 0 <= a.1 < height
    &&& 0 <= b.0 < width && 0 <= b.1 < height
    &&& index_of(a, width) < index_of(b, width)
    &&& web_link(gradient, width, height, a.0, a.1, b.0, b.1)
}

/// Squared distance between two pixels given as integers.
pub open spec fn gap(a: (int, int), b: (int, int)) -> int {
    (b.0 - a.0) * (b.0 - a.0) + (b.1 - a.1) * (b.1 - a.1)
}

/// Whether `b` is the web partner of `a` nearest to it, the first one in
/// row-major order among equally near partners.
pub open spec fn web_nearest(gradient: Seq<Gradient>, width: int, height: int, a: (int, int), b: (int, int)) -> bool {
    &&& web_partner(gradient, width, height, a, b)
    &&& forall|c: (int, int)|
        #[trigger] web_partner(gradient, width, height, a, c) ==> gap(a, b) < gap(a, c) || (gap(a, b)
            == gap(a, c) && index_of(b, width) <= index_of(c, width))
}

/// The first end of a segment.
pub open spec fn start_of(s: WebSegment) -> (int, int) {
    (s.x1 as int, s.y1 as int)
}

/// The second end of a segment.
pub open spec fn end_of(s: WebSegment) -> (int, int) {
    (s.x2 as int, s.y2 as int)
}

/// A usize pixel as integers.
pub open spec fn as_ints(p: (usize, usize)) -> (int, int) {
    (p.0 as int, p.1 as int)
}

/// What the edge mask and the list of its points state together.
pub open spec fn listed_edges(
    gradient: Seq<Gradient>,
    width: int,
    height: int,
    mask: Seq<u8>,
    points: Seq<(usize, usize)>,
) -> bool {
    &&& width > 0
    &&& mask.len() == width * height
    &&& forall|i: int|
        0 <= i < mask.len() ==> #[trigger] mask[i] == if is_edge(gradient, width, height, i % width, i / width) {
            255u8
        } else {
            0u8
        }
    &&& forall|k: int|
        #![trigger points[k]]
        0 <= k < points.len() ==> points[k].0 < width && points[k].1 < height && mask[pixel_of(points[k], width)] == 255
    &&& forall|k1: int, k2: int|
        #![trigger points[k1], points[k2]]
        0 <= k1 < k2 < points.len() ==> pixel_of(points[k1], width) < pixel_of(points[k2], width)
    &&& forall|i: int|
        #![trigger mask[i]]
        0 <= i < mask.len() && mask[i] == 255 ==> exists|k: int|
            0 <= k < points.len() && #[trigger] pixel_of(points[k], width) == i
}

/// Listed points are edges.
proof fn lemma_listed_point_is_edge(
    gradient: Seq<Gradient>,
    width: int,
    height: int,
    mask: Seq<u8>,
    points: Seq<(usize, usize)>,
    k: int,
)
    requires
        listed_edges(gradient, width, height, mask, points),
        0 <= k < points.len(),
    ensures
        0 <= points[k].0 < width,
        0 <= points[k].1 < height,
        is_edge(gradient, width, height, points[k].0 as int, points[k].1 as int),
{
    let p = points[k];
    lemma_row_major(p.0 as int, p.1 as int, width, height);
    assert(mask[pixel_of(p, width)] == 255);
}

/// Every edge is listed, at the position its row-major index gives.
proof fn lemma_edge_is_listed(
    gradient: Seq<Gradient>,
    width: int,
    height: int,
    mask: Seq<u8>,
    points: Seq<(usize, usize)>,
    c: (int, int),
) -> (k: int)
    requires
        listed_edges(gradient, width, height, mask, points),
        0 <= c.0 < width,
        0 <= c.1 < height,
        is_edge(gradient, width, height, c.0, c.1),
    ensures
        0 <= k < points.len(),
        as_ints(points[k]) == c,
{
    let i = index_of(c, width);
    lemma_row_major(c.0, c.1, width, height);
    assert(mask[i] == 255);
    let k = choose|k: int| 0 <= k < points.len() && #[trigger] pixel_of(points[k], width) == i;
    let p = points[k];
    lemma_row_major(p.0 as int, p.1 as int, width, height);
    k
}

/// Listed points are in row-major order: an earlier index means an earlier
/// position.
proof fn lemma_listed_order(points: Seq<(usize, usize)>, width: int, k1: int, k2: int)
    requires
        forall|a: int, b: int|
            #![trigger points[a], points[b]]
            0 <= a < b < points.len() ==> pixel_of(points[a], width) < pixel_of(points[b], width),
        0 <= k1 < points.len(),
        0 <= k2 < points.len(),
    ensures
        k1 < k2 <==> pixel_of(points[k1], width) < pixel_of(points[k2], width),
        k1 == k2 <==> pixel_of(points[k1], width) == pixel_of(points[k2], width),
{
    if k1 < k2 {
        assert(pixel_of(points[k1], width) < pixel_of(points[k2], width));
    } else if k2 < k1 {
        assert(pixel_of(points[k2], width) < pixel_of(points[k1], width));
    }
}

/// Segments joining each listed point to its nearest partner are exactly the
/// edge web: each joins an edge to its nearest web partner, each edge with a
/// web partner starts one, and they come in row-major order of their start.
proof fn lemma_web_from_pairs(
    gradient: Seq<Gradient>,
    width: int,
    height: int,
    mask: Seq<u8>,
    points: Seq<(usize, usize)>,
    directions: Seq<u32>,
    pairs: Seq<(usize, usize)>,
    segments: Seq<WebSegment>,
)
    requires
        listed_edges(gradient, width, height, mask, points),
        directions.len() == points.len(),
        forall|k: int|
            0 <= k < directions.len() ==> #[trigger] directions[k] == direction_bucket(
                gradient[pixel_of(points[k], width)].horizontal as int,
                gradient[pixel_of(points[k], width)].vertical as int,
            ),
        forall|k: int|
            #![trigger pairs[k]]
            0 <= k < pairs.len() ==> nearest_partner(points, directions, pairs[k].0 as int, pairs[k].1 as int),
        forall|k1: int, k2: int| #![trigger pairs[k1], pairs[k2]] 0 <= k1 < k2 < pairs.len() ==> pairs[k1].0 < pairs[k2].0,
        forall|i: int, j: int|
            #[trigger] partners(points, directions, i, j) ==> exists|k: int|
                0 <= k < pairs.len() && #[trigger] pairs[k].0 == i,
        segments.len() == pairs.len(),
        forall|k: int|
            #![trigger segments[k]]
            0 <= k < segments.len() ==> start_of(segments[k]) == as_ints(points[pairs[k].0 as int])
                && end_of(segments[k]) == as_ints(points[pairs[k].1 as int]),
    ensures
        forall|k: int|
            #![trigger segments[k]]
            0 <= k < segments.len() ==> web_nearest(gradient, width, height, start_of(segments[k]), end_of(segments[k])),
        forall|k1: int, k2: int|
            #![trigger segments[k1], segments[k2]]
            0 <= k1 < k2 < segments.len() ==> index_of(start_of(segments[k1]), width) < index_of(
                start_of(segments[k2]),
                width,
            ),
        forall|a: (int, int), c: (int, int)|
            #[trigger] web_partner(gradient, width, height, a, c) ==> exists|k: int|
                0 <= k < segments.len() && #[trigger] start_of(segments[k]) == a,
{
    assert forall|k: int|
        #![trigger segments[k]]
        0 <= k < segments.len() implies web_nearest(gradient, width, height, start_of(segments[k]), end_of(segments[k])) by {
        let i = pairs[k].0 as int;
        let j = pairs[k].1 as int;
        assert(nearest_partner(points, directions, i, j));
        let a = as_ints(points[i]);
        let b = as_ints(points[j]);
        lemma_listed_point_is_edge(gradient, width, height, mask, points, i);
        lemma_listed_point_is_edge(gradient, width, height, mask, points, j);
        lemma_listed_order(points, width, i, j);
        assert(directions[i] == directions[j]);
        assert(web_partner(gradient, width, height, a, b));
        assert forall|c: (int, int)| #[trigger] web_partner(gradient, width, height, a, c) implies gap(a, b) < gap(
            a,
            c,
        ) || (gap(a, b) == gap(a, c) && index_of(b, width) <= index_of(c, width)) by {
            let m = lemma_edge_is_listed(gradient, width, height, mask, points, c);
            lemma_listed_order(points, width, i, m);
            lemma_listed_order(points, width, j, m);
            assert(directions[m] == directions[i]);
            assert(partners(points, directions, i, m));
        }
    }
    assert forall|k1: int, k2: int|
        #![trigger segments[k1], segments[k2]]
        0 <= k1 < k2 < segments.len() implies index_of(start_of(segments[k1]), width) < index_of(
            start_of(segments[k2]),
            width,
        ) by {
        assert(pairs[k1].0 < pairs[k2].0);
        assert(nearest_partner(points, directions, pairs[k1].0 as int, pairs[k1].1 as int));
        assert(nearest_partner(points, directions, pairs[k2].0 as int, pairs[k2].1 as int));
        lemma_listed_order(points, width, pairs[k1].0 as int, pairs[k2].0 as int);
    }
    assert forall|a: (int, int), c: (int, int)| #[trigger] web_partner(gradient, width, height, a, c) implies exists|k: int|
        0 <= k < segments.len() && #[trigger] start_of(segments[k]) == a by {
        let i = lemma_edge_is_listed(gradient, width, height, mask, points, a);
        let m = lemma_edge_is_listed(gradient, width, height, mask, points, c);
        lemma_listed_order(points, width, i, m);
        assert(directions[m] == directions[i]);
        assert(partners(points, directions, i, m));
        let k = choose|k: int| 0 <= k < pairs.len() && #[trigger] pairs[k].0 == i;
        assert(start_of(segments[k]) == a);
    }
}

/// The pixel nearest to position `step / SAMPLE_STEPS` of the way from `a`
/// to `b`.
pub fn sample_between(a: usize, b: usize, step: u32) -> (r: usize)
    requires
        a <= u32::MAX,
        b <= u32::MAX,
        step <= SAMPLE_STEPS,
    ensures
        r == round_div(a * SAMPLE_STEPS + step * (b - a), SAMPLE_STEPS as int),
        min(a as int, b as int) <= r <= max(a as int, b as int),
{
    let s: i64 = SAMPLE_STEPS as i64;
    let ghost t: int = a * SAMPLE_STEPS + step * (b - a);
    proof {
        assert(min(a as int, b as int) * SAMPLE_STEPS <= t <= max(a as int, b as int) * SAMPLE_STEPS
            && -0x10_0000_0000_0000 <= step * (b - a) <= 0x10_0000_0000_0000) by (nonlinear_arith)
            requires
                t == a * SAMPLE_STEPS + step * (b - a),
                0 <= step <= SAMPLE_STEPS,
                SAMPLE_STEPS == 65536,
                0 <= a <= u32::MAX,
                0 <= b <= u32::MAX,
        ;
        lemma_round_between(t, SAMPLE_STEPS as int, min(a as int, b as int), max(a as int, b as int));
    }
    let total: i64 = a as i64 * s + step as i64 * (b as i64 - a as i64);
    ((2 * total + s) as u64 / (2 * s) as u64) as usize
}

/// The segments of the edge web of a gradient image, in row-major order of
/// their first end: each edge pixel that has a web partner is joined to the
/// nearest one (see `web_nearest`), and takes the colour of a pixel drawn
/// uniformly along the segment.
pub fn edge_web(rng: &mut rand::ThreadRng, gradient: &Vec<Gradient>, width: u32, height: u32) -> (r: Vec<
    WebSegment,
>)
    requires
        gradient.len() == width * height,
    ensures
        forall|k: int|
            #![trigger r@[k]]
            0 <= k < r.len() ==> web_nearest(gradient@, width as int, height as int, start_of(r@[k]), end_of(r@[k])),
        forall|k1: int, k2: int|
            #![trigger r@[k1], r@[k2]]
            0 <= k1 < k2 < r.len() ==> index_of(start_of(r@[k1]), width as int) < index_of(
                start_of(r@[k2]),
                width as int,
            ),
        forall|a: (int, int), c: (int, int)|
            #[trigger] web_partner(gradient@, width as int, height as int, a, c) ==> exists|k: int|
                0 <= k < r.len() && #[trigger] start_of(r@[k]) == a,
        forall|k: int|
            #![trigger r@[k]]
            0 <= k < r.len() ==> min(r@[k].x1 as int, r@[k].x2 as int) <= r@[k].sample_x <= max(
                r@[k].x1 as int,
                r@[k].x2 as int,
            ) && min(r@[k].y1 as int, r@[k].y2 as int) <= r@[k].sample_y <= max(
                r@[k].y1 as int,
                r@[k].y2 as int,
            ),
{
    let mask = non_maximum_suppression(gradient, width, height);
    let points = edge_points(&mask, width, height);
    let directions = point_directions(&points, gradient, width, height);
    let pairs = edge_pairs(&points, &directions);
    let mut segments: Vec<WebSegment> = Vec::new();
    let mut k: usize = 0;
    while k < pairs.len()
        invariant
            k <= pairs.len(),
            segments.len() == k,
            directions.len() == points.len(),
            forall|j: int|
                #![trigger points@[j]]
                0 <= j < points.len() ==> points@[j].0 < width && points@[j].1 < height,
            forall|j: int|
                #![trigger pairs@[j]]
                0 <= j < pairs.len() ==> nearest_partner(points@, directions@, pairs@[j].0 as int, pairs@[j].1 as int),
            forall|j: int|
                #![trigger segments@[j]]
                0 <= j < segments.len() ==> start_of(segments@[j]) == as_ints(points@[pairs@[j].0 as int])
                    && end_of(segments@[j]) == as_ints(points@[pairs@[j].1 as int]),
            forall|j: int|
                #![trigger segments@[j]]
                0 <= j < segments.len() ==> min(segments@[j].x1 as int, segments@[j].x2 as int)
                    <= segments@[j].sample_x <= max(segments@[j].x1 as int, segments@[j].x2 as int) && min(
                    segments@[j].y1 as int,
                    segments@[j].y2 as int,
                ) <= segments@[j].sample_y <= max(segments@[j].y1 as int, segments@[j].y2 as int),
        decreases pairs.len() - k,
    {
        let (a, b) = pairs[k];
        proof {
            assert(nearest_partner(points@, directions@, a as int, b as int));
        }
        let p = points[a];
        let q = points[b];
        let step = draw_below(rng, SAMPLE_STEPS + 1);
        let sample_x = sample_between(p.0, q.0, step);
        let sample_y = sample_between(p.1, q.1, step);
        segments.push(WebSegment { x1: p.0, y1: p.1, x2: q.0, y2: q.1, sample_x, sample_y });
        k = k + 1;
    }
    proof {
        if mask.len() > 0 {
            assert(width > 0) by (nonlinear_arith)
                requires
                    mask.len() == width * height,
                    mask.len() > 0,
            ;
            lemma_web_from_pairs(
                gradient@,
                width as int,
                height as int,
                mask@,
                points@,
                directions@,
                pairs@,
                segments@,
            );
        } else {
            if points.len() > 0 {
                let p = points@[0];
                assert(p.0 < width && p.1 < height);
                assert(width * height > 0) by (nonlinear_arith)
                    requires
                        p.0 < width,
                        p.1 < height,
                ;
            }
            if pairs.len() > 0 {
                assert(nearest_partner(points@, directions@, pairs@[0].0 as int, pairs@[0].1 as int));
            }
            assert(segments.len() == 0);
            assert forall|a: (int, int), c: (int, int)|
                #[trigger] web_partner(gradient@, width as int, height as int, a, c) implies exists|k: int|
                0 <= k < segments.len() && #[trigger] start_of(segments@[k]) == a by {
                lemma_row_major(a.0, a.1, width as int, height as int);
            }
        }
    }
    segments
}

} // verus!
