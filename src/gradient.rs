use vstd::prelude::*;
use vstd::arithmetic::div_mod::lemma_mod_multiples_basic;

verus! {

/// The largest value that `sobel` returns: `6 · 255` from the vertical kernel
/// plus `4 · 255` from the horizontal one.
pub const MAX_ENERGY: u64 = 2550;

/// Whether linear index `i` of a `width × height` raster has all eight neighbours:
/// it is neither in the first or last row nor in the first or last column.
pub open spec fn is_interior(i: int, width: int, height: int) -> bool {
    &&& width > 0
    &&& i >= width + 1
    &&& i + width + 1 <= width * height
    &&& i % width != 0
    &&& (i + 1) % width != 0
}

pub open spec fn sample(d: Seq<u8>, i: int) -> int {
    d[i] as int
}

/// The vertical kernel: rows above weigh `-1, -4, -1`, rows below `1, 4, 1`.
pub open spec fn gradient_y(d: Seq<u8>, pos: int, width: int) -> int {
    -sample(d, pos - width - 1) - 4 * sample(d, pos - width) - sample(d, pos - width + 1)
        + sample(d, pos + width - 1) + 4 * sample(d, pos + width) + sample(d, pos + width + 1)
}

/// The horizontal kernel: the left column weighs `1, 2, 1`, the right `-1, -2, -1`.
pub open spec fn gradient_x(d: Seq<u8>, pos: int, width: int) -> int {
    sample(d, pos - width - 1) - sample(d, pos - width + 1) + 2 * sample(d, pos - 1) - 2
        * sample(d, pos + 1) + sample(d, pos + width - 1) - sample(d, pos + width + 1)
}

pub open spec fn abs(x: int) -> int {
    if x < 0 {
        -x
    } else {
        x
    }
}

/// `|Gy| + |Gx|` at `pos`: the gradient magnitude is its square root.
pub open spec fn energy(d: Seq<u8>, pos: int, width: int) -> int {
    abs(gradient_y(d, pos, width)) + abs(gradient_x(d, pos, width))
}

/// The least and greatest energy over the interior indices below `n`, or `None`
/// where there is none.
pub open spec fn energy_range(d: Seq<u8>, width: int, height: int, n: int) -> Option<(int, int)>
    decreases n,
{
    if n <= 0 {
        None
    } else {
        let prev = energy_range(d, width, height, n - 1);
        if is_interior(n - 1, width, height) {
            let e = energy(d, n - 1, width);
            match prev {
                None => Some((e, e)),
                Some((lo, hi)) => Some(
                    (if e < lo {
                        e
                    } else {
                        lo
                    }, if e > hi {
                        e
                    } else {
                        hi
                    }),
                ),
            }
        } else {
            prev
        }
    }
}

/// An interior index has its lower-right neighbour inside the raster.
pub proof fn lemma_interior_neighbours(i: int, width: int, height: int)
    requires
        is_interior(i, width, height),
    ensures
        i + width + 1 < width * height,
{
    if i + width + 1 == width * height {
        assert(i + 1 == (height - 1) * width) by (nonlinear_arith)
            requires
                i + width + 1 == width * height,
        ;
        assert(height >= 1) by (nonlinear_arith)
            requires
                i + width + 1 == width * height,
                width > 0,
                i >= 0,
        ;
        lemma_mod_multiples_basic(height - 1, width);
    }
}

/// The range is the least and greatest energy of the interior indices below `n`,
/// each taken at one of them; `None` exactly where there is no interior index.
pub proof fn lemma_range_bounds(d: Seq<u8>, width: int, height: int, n: int)
    ensures
        match energy_range(d, width, height, n) {
            None => forall|i: int| 0 <= i < n ==> !is_interior(i, width, height),
            Some((lo, hi)) => {
                &&& lo <= hi
                &&& forall|i: int|
                    0 <= i < n && is_interior(i, width, height) ==> lo <= energy(d, i, width)
                        <= hi
                &&& exists|i: int|
                    0 <= i < n && is_interior(i, width, height) && energy(d, i, width) == lo
                &&& exists|i: int|
                    0 <= i < n && is_interior(i, width, height) && energy(d, i, width) == hi
            },
        },
    decreases n,
{
    if n > 0 {
        lemma_range_bounds(d, width, height, n - 1);
        let k = n - 1;
        if is_interior(k, width, height) {
            match energy_range(d, width, height, n - 1) {
                None => {
                    assert(0 <= k < n && is_interior(k, width, height));
                },
                Some((lo, hi)) => {
                    let i_lo = choose|i: int|
                        0 <= i < k && is_interior(i, width, height) && energy(d, i, width) == lo;
                    let i_hi = choose|i: int|
                        0 <= i < k && is_interior(i, width, height) && energy(d, i, width) == hi;
                    assert(0 <= k < n && is_interior(k, width, height));
                    assert(0 <= i_lo < n && is_interior(i_lo, width, height));
                    assert(0 <= i_hi < n && is_interior(i_hi, width, height));
                },
            }
        }
    }
}

/// The vertical gradient at `pos`.
pub fn sobel_y(data: &[u8], pos: usize, width: usize) -> (r: i64)
    requires
        pos >= width + 1,
        pos + width + 1 < data@.len(),
    ensures
        r == gradient_y(data@, pos as int, width as int),
        -1530 <= r <= 1530,
{
    let nw = data[pos - width - 1] as i64;
    let n = data[pos - width] as i64;
    let ne = data[pos - width + 1] as i64;
    let sw = data[pos + width - 1] as i64;
    let s = data[pos + width] as i64;
    let se = data[pos + width + 1] as i64;
    -nw - 4 * n - ne + sw + 4 * s + se
}

/// The horizontal gradient at `pos`.
pub fn sobel_x(data: &[u8], pos: usize, width: usize) -> (r: i64)
    requires
        pos >= width + 1,
        pos + width + 1 < data@.len(),
    ensures
        r == gradient_x(data@, pos as int, width as int),
        -1020 <= r <= 1020,
{
    let nw = data[pos - width - 1] as i64;
    let ne = data[pos - width + 1] as i64;
    let w = data[pos - 1] as i64;
    let e = data[pos + 1] as i64;
    let sw = data[pos + width - 1] as i64;
    let se = data[pos + width + 1] as i64;
    nw - ne + 2 * w - 2 * e + sw - se
}

/// `|Gy| + |Gx|` at `pos`, the square of the gradient magnitude there.
pub fn sobel(data: &[u8], pos: usize, width: usize) -> (r: u64)
    requires
        pos >= width + 1,
        pos + width + 1 < data@.len(),
    ensures
        r == energy(data@, pos as int, width as int),
        r <= MAX_ENERGY,
{
    let y = sobel_y(data, pos, width);
    let x = sobel_x(data, pos, width);
    let ay: u64 = if y < 0 {
        (-y) as u64
    } else {
        y as u64
    };
    let ax: u64 = if x < 0 {
        (-x) as u64
    } else {
        x as u64
    };
    ay + ax
}

/// Whether index `i` of a `width × height` raster is interior.
pub fn interior(i: usize, width: usize, height: usize) -> (r: bool)
    requires
        i < width * height <= usize::MAX,
    ensures
        r == is_interior(i as int, width as int, height as int),
{
    let n = width * height;
    width > 0 && i > width && n - i > width && i % width != 0 && (i + 1) % width != 0
}

/// The least and greatest `sobel` value over the interior of a `width × height`
/// raster, or `None` where it has no interior. Both bounds are tested at every
/// index, so a value that lowers the least is also weighed against the greatest.
pub fn get_min_max(data: &[u8], width: usize, height: usize) -> (r: Option<(u64, u64)>)
    requires
        width * height <= data@.len(),
    ensures
        energy_range(data@, width as int, height as int, width * height) == match r {
            Some((lo, hi)) => Some((lo as int, hi as int)),
            None => None,
        },
        r matches Some((lo, hi)) ==> lo <= hi <= MAX_ENERGY,
{
    let len = data.len();
    assert(width * height <= len);
    let n = width * height;
    let mut range: Option<(u64, u64)> = None;
    let mut i: usize = 0;
    while i < n
        invariant
            i <= n,
            n == width * height,
            n <= data@.len(),
            energy_range(data@, width as int, height as int, i as int) == match range {
                Some((lo, hi)) => Some((lo as int, hi as int)),
                None => None,
            },
            range matches Some((lo, hi)) ==> lo <= hi <= MAX_ENERGY,
        decreases n - i,
    {
        if interior(i, width, height) {
            proof {
                lemma_interior_neighbours(i as int, width as int, height as int);
            }
            let e = sobel(data, i, width);
            range = match range {
                None => Some((e, e)),
                Some((lo, hi)) => Some(
                    (if e < lo {
                        e
                    } else {
                        lo
                    }, if e > hi {
                        e
                    } else {
                        hi
                    }),
                ),
            };
        }
        i = i + 1;
    }
    range
}

} // verus!
