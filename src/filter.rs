use vstd::prelude::*;
use crate::gradient::{
    energy, energy_range, get_min_max, interior, is_interior, lemma_interior_neighbours,
    lemma_range_bounds, sample, sobel, MAX_ENERGY,
};
use crate::header::{parse_pgm, pgm_header, HeaderError};
use crate::rescale::{lemma_scaled_bounds, scale, scaled};

verus! {

/// Why an image could not be filtered.
#[derive(Debug, PartialEq, Eq)]
pub enum FilterError {
    /// The header could not be read.
    MalformedHeader(HeaderError),
    /// The header declares a depth outside `1..=255`: only one byte per sample is read.
    UnsupportedDepth(usize),
    /// Fewer pixel bytes follow the header than width times height.
    ShortPixelData,
}

/// The output sample at index `i` of the pixel data `d` of a `width × height`
/// raster of depth `depth`. Each interior sample is the gradient magnitude
/// mapped from the least and greatest interior magnitude onto `[0, depth]`;
/// where all interior magnitudes are equal, or there is no interior, and on
/// the border, it is 0.
pub open spec fn output_pixel(d: Seq<u8>, width: int, height: int, depth: int, i: int) -> int {
    if is_interior(i, width, height) {
        match energy_range(d, width, height, width * height) {
            Some((lo, hi)) => if lo < hi {
                scaled(energy(d, i, width), lo, hi, depth)
            } else {
                0
            },
            None => 0,
        }
    } else {
        0
    }
}

/// The scaled value of every energy in `[lo, hi]`, at index `energy - lo`.
fn scale_table(lo: u64, hi: u64, depth: u8) -> (t: Vec<u8>)
    requires
        lo < hi <= MAX_ENERGY,
    ensures
        t@.len() == hi - lo + 1,
        forall|k: int|
            0 <= k < t@.len() ==> t@[k] as int == scaled(lo + k, lo as int, hi as int, depth as int),
{
    let mut t: Vec<u8> = Vec::new();
    let mut e: u64 = lo;
    while e <= hi
        invariant
            lo <= e <= hi + 1,
            lo < hi <= MAX_ENERGY,
            t@.len() == e - lo,
            forall|k: int|
                0 <= k < t@.len() ==> t@[k] as int == scaled(
                    lo + k,
                    lo as int,
                    hi as int,
                    depth as int,
                ),
        decreases hi + 1 - e,
    {
        t.push(scale(e, lo, hi, depth as u64) as u8);
        e = e + 1;
    }
    t
}

/// The edge map of the pixel data of a `width × height` raster: a buffer as long
/// as `data` that holds `output_pixel` at each index.
pub fn edge_pixels(data: &[u8], width: usize, height: usize, depth: u8) -> (out: Vec<u8>)
    requires
        width * height <= data@.len(),
    ensures
        out@.len() == data@.len(),
        forall|i: int|
            0 <= i < data@.len() ==> out@[i] as int == output_pixel(
                data@,
                width as int,
                height as int,
                depth as int,
                i,
            ),
{
    let len = data.len();
    let n = width * height;
    let range = get_min_max(data, width, height);
    proof {
        lemma_range_bounds(data@, width as int, height as int, n as int);
    }
    let table: Vec<u8> = match range {
        Some((lo, hi)) => if lo < hi {
            scale_table(lo, hi, depth)
        } else {
            Vec::new()
        },
        None => Vec::new(),
    };
    let mut out: Vec<u8> = Vec::new();
    let mut i: usize = 0;
    while i < len
        invariant
            i <= len == data@.len(),
            n == width * height <= len,
            out@.len() == i,
            energy_range(data@, width as int, height as int, n as int) == match range {
                Some((lo, hi)) => Some((lo as int, hi as int)),
                None => None,
            },
            range matches Some((lo, hi)) ==> lo <= hi <= MAX_ENERGY,
            range matches Some((lo, hi)) ==> (lo < hi ==> table@.len() == hi - lo + 1),
            range matches Some((lo, hi)) ==> (lo < hi ==> forall|k: int|
                0 <= k < table@.len() ==> table@[k] as int == scaled(
                    lo + k,
                    lo as int,
                    hi as int,
                    depth as int,
                )),
            range matches Some((lo, hi)) ==> forall|j: int|
                0 <= j < n && is_interior(j, width as int, height as int) ==> lo <= energy(
                    data@,
                    j,
                    width as int,
                ) <= hi,
            forall|j: int|
                0 <= j < i ==> out@[j] as int == output_pixel(
                    data@,
                    width as int,
                    height as int,
                    depth as int,
                    j,
                ),
        decreases len - i,
    {
        let mut px: u8 = 0;
        if i < n && interior(i, width, height) {
            if let Some((lo, hi)) = range {
                if lo < hi {
                    proof {
                        lemma_interior_neighbours(i as int, width as int, height as int);
                    }
                    let e = sobel(data, i, width);
                    px = table[(e - lo) as usize];
                }
            }
        }
        out.push(px);
        i = i + 1;
    }
    out
}

/// Filters a whole image: the header bytes unchanged, then the edge map of the
/// pixel data in place of it.
pub fn sobel_filter(input: &[u8]) -> (r: Result<Vec<u8>, FilterError>)
    ensures
        match pgm_header(input@) {
            Err(f) => r matches Err(FilterError::MalformedHeader(g)) && g@ == f,
            Ok((start, depth, width, height)) => if !(1 <= depth <= 255) {
                r == Err::<Vec<u8>, FilterError>(FilterError::UnsupportedDepth(depth as usize))
            } else if width * height > input@.len() - start {
                r == Err::<Vec<u8>, FilterError>(FilterError::ShortPixelData)
            } else {
                r matches Ok(out) && out@.len() == input@.len() && out@.subrange(0, start)
                    == input@.subrange(0, start) && forall|i: int|
                    0 <= i < input@.len() - start ==> out@[start + i] as int == output_pixel(
                        input@.subrange(start, input@.len() as int),
                        width,
                        height,
                        depth,
                        i,
                    )
            },
        },
{
    let (start, depth, width, height) = match parse_pgm(input) {
        Ok(t) => t,
        Err(e) => return Err(FilterError::MalformedHeader(e)),
    };
    if depth < 1 || depth > 255 {
        return Err(FilterError::UnsupportedDepth(depth));
    }
    let available = input.len() - start;
    match width.checked_mul(height) {
        Some(n) => {
            if n > available {
                return Err(FilterError::ShortPixelData);
            }
        },
        None => return Err(FilterError::ShortPixelData),
    }
    let pixels = &input[start..input.len()];
    let body = edge_pixels(pixels, width, height, depth as u8);
    let mut out: Vec<u8> = Vec::new();
    let mut i: usize = 0;
    while i < start
        invariant
            i <= start <= input@.len(),
            out@ == input@.subrange(0, i as int),
        decreases start - i,
    {
        out.push(input[i]);
        i = i + 1;
        assert(out@ =~= input@.subrange(0, i as int));
    }
    let mut j: usize = 0;
    while j < body.len()
        invariant
            j <= body@.len() == input@.len() - start,
            out@.len() == start + j,
            out@.subrange(0, start as int) == input@.subrange(0, start as int),
            forall|k: int| 0 <= k < j ==> out@[start + k] == body@[k],
        decreases body@.len() - j,
    {
        out.push(body[j]);
        j = j + 1;
        assert(out@.subrange(0, start as int) =~= input@.subrange(0, start as int));
    }
    assert forall|k: int| 0 <= k < input@.len() - start implies out@[start + k] as int
        == output_pixel(
        input@.subrange(start as int, input@.len() as int),
        width as int,
        height as int,
        depth as int,
        k,
    ) by {
        assert(out@[start + k] == body@[k]);
    }
    Ok(out)
}

/// Every sample of the first and last row and of the first and last column
/// comes out 0.
pub proof fn lemma_border_pixels_zero(
    d: Seq<u8>,
    width: int,
    height: int,
    depth: int,
    row: int,
    col: int,
)
    requires
        width >= 3,
        height >= 3,
        0 <= row < height,
        0 <= col < width,
        row == 0 || row == height - 1 || col == 0 || col == width - 1,
    ensures
        output_pixel(d, width, height, depth, row * width + col) == 0,
{
    let i = row * width + col;
    vstd::arithmetic::div_mod::lemma_fundamental_div_mod_converse(i, width, row, col);
    if col == width - 1 {
        assert(i + 1 == (row + 1) * width + 0) by (nonlinear_arith)
            requires
                i == row * width + col,
                col == width - 1,
        ;
        vstd::arithmetic::div_mod::lemma_fundamental_div_mod_converse(i + 1, width, row + 1, 0);
    }
    if row == height - 1 {
        assert(i + width + 1 > width * height) by (nonlinear_arith)
            requires
                i == row * width + col,
                row == height - 1,
                col >= 0,
        ;
    }
    assert(!is_interior(i, width, height));
}

/// Every output sample lies in `[0, depth]`.
pub proof fn lemma_output_within_depth(d: Seq<u8>, width: int, height: int, depth: int, i: int)
    requires
        depth >= 0,
    ensures
        0 <= output_pixel(d, width, height, depth, i) <= depth,
{
    if is_interior(i, width, height) {
        if let Some((lo, hi)) = energy_range(d, width, height, width * height) {
            lemma_scaled_bounds(energy(d, i, width), lo, hi, depth);
        }
    }
}

/// An image whose samples are all equal has no gradient anywhere, and comes out
/// all 0.
pub proof fn lemma_uniform_image_is_black(d: Seq<u8>, width: int, height: int, depth: int, i: int)
    requires
        width * height <= d.len(),
        forall|j: int| 0 <= j < d.len() ==> #[trigger] d[j] == d[0],
    ensures
        output_pixel(d, width, height, depth, i) == 0,
{
    let n = width * height;
    assert forall|j: int| 0 <= j < n && is_interior(j, width, height) implies energy(
        d,
        j,
        width,
    ) == 0 by {
        lemma_interior_neighbours(j, width, height);
        assert(sample(d, j - width - 1) == sample(d, 0));
        assert(sample(d, j - width) == sample(d, 0));
        assert(sample(d, j - width + 1) == sample(d, 0));
        assert(sample(d, j - 1) == sample(d, 0));
        assert(sample(d, j + 1) == sample(d, 0));
        assert(sample(d, j + width - 1) == sample(d, 0));
        assert(sample(d, j + width) == sample(d, 0));
        assert(sample(d, j + width + 1) == sample(d, 0));
    }
    lemma_range_bounds(d, width, height, n);
}

} // verus!
