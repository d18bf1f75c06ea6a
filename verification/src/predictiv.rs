//! The predictive image coder: per-pixel predictors over the west, north and
//! north-west neighbours, error-matrix computation and reconstruction,
//! histograms, and the fixed 256-by-256 bitmap assembly.

use vstd::prelude::*;

use crate::bit_io::BitReader;
use crate::bit_io::value_of_bits;
use crate::huffman::clip_u32;

verus! {

/// A grid of pixels as mathematical sequences.
pub open spec fn grid(data: Seq<Vec<i32>>) -> Seq<Seq<i32>> {
    Seq::new(data.len(), |i: int| data[i]@)
}

/// A grayscale image held as plain rows of pixel values.
pub struct MyCustomImage {
    pub height: usize,
    pub width: usize,
    pub data: Vec<Vec<i32>>,
}

impl MyCustomImage {
    /// The stated dimensions match the rows, and every pixel value is small
    /// enough for the predictors' arithmetic.
    pub open spec fn wf(self) -> bool {
        &&& self.data@.len() == self.height
        &&& forall|y: int| 0 <= y < self.height ==> (#[trigger] self.data@[y])@.len() == self.width
        &&& forall|y: int, x: int|
            0 <= y < self.height && 0 <= x < self.width ==> -32768 <= (#[trigger] self.data@[y]@[x])
                <= 32767
    }
}

/// One prediction rule: what a pixel is guessed to be from its west (`a`),
/// north (`b`) and north-west (`c`) neighbours.
pub enum Predictor {
    Flat,
    West,
    North,
    NorthWest,
    Gradient,
    WestSlope,
    NorthSlope,
    Average,
    Paeth,
    RootEnergy,
}

/// Truncating halving, as integer division rounds toward zero.
pub open spec fn div2_trunc(x: int) -> int {
    if x >= 0 {
        x / 2
    } else {
        -((-x) / 2)
    }
}

/// The nearest integer to the square root of a non-negative value.
pub open spec fn spec_rsqrt(d: int) -> int {
    choose|r: int|
        r >= 0 && (r == 0 || #[trigger] ((2 * r - 1) * (2 * r - 1)) <= 4 * d) && 4 * d < (2 * r
            + 1) * (2 * r + 1)
}

/// What each predictor yields. The root-energy rule takes the rounded square
/// root of the absolute difference of the squared neighbours.
pub open spec fn spec_predict(p: Predictor, a: int, b: int, c: int) -> int {
    match p {
        Predictor::Flat => 128,
        Predictor::West => a,
        Predictor::North => b,
        Predictor::NorthWest => c,
        Predictor::Gradient => a + b - c,
        Predictor::WestSlope => div2_trunc(a + (b - c)),
        Predictor::NorthSlope => div2_trunc(b + (c - a)),
        Predictor::Average => div2_trunc(a + b),
        Predictor::Paeth => {
            let pa = abs_int(b - c);
            let pb = abs_int(a - c);
            let pc = abs_int(a + b - c - c);
            if pc <= pa && pc <= pb {
                c
            } else if pb <= pa {
                b
            } else {
                a
            }
        },
        Predictor::RootEnergy => spec_rsqrt(abs_int(a * a - b * b - c * c)),
    }
}

pub open spec fn abs_int(x: int) -> int {
    if x >= 0 {
        x
    } else {
        -x
    }
}

/// The square-root characterization pins one value.
proof fn lemma_rsqrt_unique(d: int, r: int)
    requires
        d >= 0,
        r >= 0,
        r == 0 || (2 * r - 1) * (2 * r - 1) <= 4 * d,
        4 * d < (2 * r + 1) * (2 * r + 1),
    ensures
        spec_rsqrt(d) == r,
{
    let w = choose|w: int|
        w >= 0 && (w == 0 || #[trigger] ((2 * w - 1) * (2 * w - 1)) <= 4 * d) && 4 * d < (2 * w
            + 1) * (2 * w + 1);
    assert(w >= 0 && (w == 0 || (2 * w - 1) * (2 * w - 1) <= 4 * d) && 4 * d < (2 * w + 1) * (2 * w
        + 1));
    assert(w == r) by (nonlinear_arith)
        requires
            r >= 0,
            w >= 0,
            d >= 0,
            r == 0 || (2 * r - 1) * (2 * r - 1) <= 4 * d,
            4 * d < (2 * r + 1) * (2 * r + 1),
            w == 0 || (2 * w - 1) * (2 * w - 1) <= 4 * d,
            4 * d < (2 * w + 1) * (2 * w + 1),
    ;
}

/// The selected prediction rule for a prediction type; unknown types fall
/// back to the gradient rule.
pub fn get_predictor(prediction_type: usize) -> (r: Predictor)
    ensures
        r == spec_predictor_of(prediction_type as int),
{
    if prediction_type == 0 {
        Predictor::Flat
    } else if prediction_type == 1 {
        Predictor::West
    } else if prediction_type == 2 {
        Predictor::North
    } else if prediction_type == 3 {
        Predictor::NorthWest
    } else if prediction_type == 4 {
        Predictor::Gradient
    } else if prediction_type == 5 {
        Predictor::WestSlope
    } else if prediction_type == 6 {
        Predictor::NorthSlope
    } else if prediction_type == 7 {
        Predictor::Average
    } else if prediction_type == 8 {
        Predictor::Paeth
    } else if prediction_type == 9 {
        Predictor::RootEnergy
    } else {
        Predictor::Gradient
    }
}

/// The rule each prediction type selects.
pub open spec fn spec_predictor_of(t: int) -> Predictor {
    if t == 0 {
        Predictor::Flat
    } else if t == 1 {
        Predictor::West
    } else if t == 2 {
        Predictor::North
    } else if t == 3 {
        Predictor::NorthWest
    } else if t == 5 {
        Predictor::WestSlope
    } else if t == 6 {
        Predictor::NorthSlope
    } else if t == 7 {
        Predictor::Average
    } else if t == 8 {
        Predictor::Paeth
    } else if t == 9 {
        Predictor::RootEnergy
    } else {
        Predictor::Gradient
    }
}

impl Predictor {
    /// Applies the rule to the three neighbours.
    pub fn apply(&self, a: i32, b: i32, c: i32) -> (r: i32)
        requires
            -32768 <= a <= 32767,
            -32768 <= b <= 32767,
            -32768 <= c <= 32767,
        ensures
            r == spec_predict(*self, a as int, b as int, c as int),
            -131072 <= r <= 131072,
    {
        match self {
            Predictor::Flat => 128,
            Predictor::West => a,
            Predictor::North => b,
            Predictor::NorthWest => c,
            Predictor::Gradient => a + b - c,
            Predictor::WestSlope => half_trunc(a + (b - c)),
            Predictor::NorthSlope => half_trunc(b + (c - a)),
            Predictor::Average => half_trunc(a + b),
            Predictor::Paeth => {
                let p: i32 = a + b - c;
                let pa: i32 = abs_i32(p - a);
                let pb: i32 = abs_i32(p - b);
                let pc: i32 = abs_i32(p - c);
                if pc <= pa && pc <= pb {
                    c
                } else if pb <= pa {
                    b
                } else {
                    a
                }
            },
            Predictor::RootEnergy => {
                proof {
                    assert(0 <= (a as int) * (a as int) <= 32768 * 32768 && 0 <= (b as int) * (
                    b as int) <= 32768 * 32768 && 0 <= (c as int) * (c as int) <= 32768 * 32768)
                        by (nonlinear_arith)
                        requires
                            -32768 <= a as int <= 32767,
                            -32768 <= b as int <= 32767,
                            -32768 <= c as int <= 32767,
                    ;
                }
                let aa: i64 = (a as i64) * (a as i64);
                let bb: i64 = (b as i64) * (b as i64);
                let cc: i64 = (c as i64) * (c as i64);
                let diff: i64 = aa - bb - cc;
                let d: i64 = if diff >= 0 {
                    diff
                } else {
                    -diff
                };
                let r: i32 = isqrt_round(d);
                r
            },
        }
    }
}

/// Truncating halving of a bounded value.
fn half_trunc(x: i32) -> (r: i32)
    requires
        -1000000 <= x <= 1000000,
    ensures
        r == div2_trunc(x as int),
{
    if x >= 0 {
        ((x as u32) / 2) as i32
    } else {
        -((((-x) as u32) / 2) as i32)
    }
}

/// The absolute value of a bounded difference.
fn abs_i32(x: i32) -> (r: i32)
    requires
        x != i32::MIN,
    ensures
        r == abs_int(x as int),
{
    if x >= 0 {
        x
    } else {
        -x
    }
}

/// The integer nearest to the square root of `d`, by a rising scan.
fn isqrt_round(d: i64) -> (r: i32)
    requires
        0 <= d <= 0x3_0000_0000i64,
    ensures
        r as int == spec_rsqrt(d as int),
        0 <= r <= 131072,
{
    let mut r: i64 = 0;
    loop
        invariant
            0 <= d <= 0x3_0000_0000i64,
            0 <= r,
            r == 0 || (2 * r - 1) * (2 * r - 1) <= 4 * d,
            r <= 120000,
        ensures
            0 <= r <= 120000,
            r == 0 || (2 * r - 1) * (2 * r - 1) <= 4 * d,
            4 * d < (2 * r + 1) * (2 * r + 1),
        decreases 120001 - r,
    {
        let t: i64 = 2 * r + 1;
        proof {
            assert(t * t <= 0x1_0000_0000_0000i64) by (nonlinear_arith)
                requires
                    1 <= t <= 240001,
            ;
        }
        if t * t > 4 * d {
            break ;
        }
        proof {
            assert(r < 120000) by (nonlinear_arith)
                requires
                    0 <= r,
                    d <= 0x3_0000_0000i64,
                    (2 * r + 1) * (2 * r + 1) <= 4 * (d as int),
            ;
        }
        r = r + 1;
    }
    proof {
        lemma_rsqrt_unique(d as int, r as int);
    }
    r as i32
}

/// The failures of the decoding pipeline: the stream ended before the fixed
/// header, the prediction type, or the error matrix was complete.
#[derive(Clone, Copy, Debug, PartialEq, Eq, Structural)]
pub enum PredictivError {
    TruncatedInput,
}

/// Clamping into the value range the reconstruction keeps its pixels in.
pub open spec fn clamp_i16(x: int) -> int {
    if x < -32768 {
        -32768
    } else if x > 32767 {
        32767
    } else {
        x
    }
}

/// The histogram bucket of a pixel: error values are shifted by 128; either
/// way the bucket index is clamped to a byte.
pub open spec fn hist_index(v: int, is_error: bool) -> int {
    let shifted = if is_error {
        v + 128
    } else {
        v
    };
    if shifted < 0 {
        0
    } else if shifted > 255 {
        255
    } else {
        shifted
    }
}

/// How many cells of the first `k` of a row fall in bucket `idx`.
pub open spec fn count_row(row: Seq<i32>, is_error: bool, idx: int, k: int) -> int
    decreases k,
{
    if k <= 0 {
        0
    } else {
        count_row(row, is_error, idx, k - 1) + if hist_index(row[k - 1] as int, is_error) == idx {
            1int
        } else {
            0int
        }
    }
}

/// How many cells of the first `y` whole rows fall in bucket `idx`.
pub open spec fn count_grid(g: Seq<Seq<i32>>, is_error: bool, idx: int, y: int) -> int
    decreases y,
{
    if y <= 0 {
        0
    } else {
        count_grid(g, is_error, idx, y - 1) + count_row(
            g[y - 1],
            is_error,
            idx,
            g[y - 1].len() as int,
        )
    }
}

/// Counts how many pixels fall in each of the 256 buckets, shifting error
/// values by 128 first; counters saturate at their width.
pub fn compute_histogram(data: &Vec<Vec<i32>>, is_error: bool) -> (r: [u32; 256])
    requires
        forall|y: int|
            0 <= y < data@.len() ==> forall|x: int|
                0 <= x < (#[trigger] data@[y])@.len() ==> (#[trigger] data@[y]@[x])
                    <= i32::MAX - 128,
    ensures
        forall|idx: int|
            0 <= idx < 256 ==> #[trigger] r@[idx] as int == clip_u32(
                count_grid(grid(data@), is_error, idx, data@.len() as int),
            ),
{
    let mut histogram: [u32; 256] = [0u32; 256];
    let ghost g = grid(data@);
    let mut y: usize = 0;
    while y < data.len()
        invariant
            g == grid(data@),
            y <= data@.len(),
            forall|yy: int|
                0 <= yy < data@.len() ==> forall|x: int|
                    0 <= x < (#[trigger] data@[yy])@.len() ==> (#[trigger] data@[yy]@[x])
                        <= i32::MAX - 128,
            forall|idx: int|
                0 <= idx < 256 ==> #[trigger] histogram@[idx] as int == clip_u32(
                    count_grid(g, is_error, idx, y as int),
                ),
        decreases data@.len() - y,
    {
        let row = &data[y];
        let mut x: usize = 0;
        while x < row.len()
            invariant
                g == grid(data@),
                y < data@.len(),
                row@ == data@[y as int]@,
                x <= row@.len(),
                forall|xx: int|
                    0 <= xx < row@.len() ==> #[trigger] row@[xx] <= i32::MAX - 128,
                forall|idx: int|
                    0 <= idx < 256 ==> #[trigger] histogram@[idx] as int == clip_u32(
                        count_grid(g, is_error, idx, y as int) + count_row(
                            g[y as int],
                            is_error,
                            idx,
                            x as int,
                        ),
                    ),
            decreases row@.len() - x,
        {
            let val: i32 = row[x];
            let index: usize = if is_error {
                let shifted: i32 = val + 128;
                if shifted < 0 {
                    0
                } else if shifted > 255 {
                    255
                } else {
                    shifted as usize
                }
            } else {
                if val < 0 {
                    0
                } else if val > 255 {
                    255
                } else {
                    val as usize
                }
            };
            proof {
                assert(index as int == hist_index(row@[x as int] as int, is_error));
            }
            let c: u32 = histogram[index];
            if c < u32::MAX {
                histogram[index] = c + 1;
            }
            x = x + 1;
        }
        y = y + 1;
    }
    histogram
}

/// The shared prediction-matrix pass: the top-left cell is the flat guess,
/// the first row looks west, the first column looks north, and every interior
/// cell applies the selected rule to its three neighbours.
fn prediction_matrix_core(data: &Vec<Vec<i32>>, height: usize, width: usize, prediction_type: usize) -> (r: Vec<
    Vec<i32>,
>)
    requires
        data@.len() == height,
        height >= 1,
        width >= 1,
        forall|y: int| 0 <= y < height ==> (#[trigger] data@[y])@.len() == width,
        forall|y: int, x: int|
            0 <= y < height && 0 <= x < width ==> -32768 <= (#[trigger] data@[y]@[x]) <= 32767,
    ensures
        r@.len() == height,
        forall|y: int| 0 <= y < height ==> (#[trigger] r@[y])@.len() == width,
        r@[0]@[0] == 128,
        forall|y: int| 1 <= y < height ==> (#[trigger] r@[y])@[0] == data@[y - 1]@[0],
        forall|x: int| 1 <= x < width ==> #[trigger] r@[0]@[x] == data@[0]@[x - 1],
        forall|y: int, x: int|
            1 <= y < height && 1 <= x < width ==> (#[trigger] r@[y]@[x]) == spec_predict(
                spec_predictor_of(prediction_type as int),
                data@[y]@[x - 1] as int,
                data@[y - 1]@[x] as int,
                data@[y - 1]@[x - 1] as int,
            ),
        forall|y: int, x: int|
            0 <= y < height && 0 <= x < width ==> -131072 <= (#[trigger] r@[y]@[x]) <= 131072,
{
    let predictor = get_predictor(prediction_type);
    let mut rows: Vec<Vec<i32>> = Vec::new();

    let mut first_row: Vec<i32> = Vec::new();
    first_row.push(128);
    let mut x: usize = 1;
    while x < width
        invariant
            1 <= x <= width,
            data@.len() == height,
            height >= 1,
            (data@[0])@.len() == width,
            forall|xx: int| 0 <= xx < width ==> -32768 <= (#[trigger] data@[0]@[xx]) <= 32767,
            first_row@.len() == x,
            first_row@[0] == 128,
            forall|xx: int| 1 <= xx < x ==> #[trigger] first_row@[xx] == data@[0]@[xx - 1],
        decreases width - x,
    {
        first_row.push(data[0][x - 1]);
        x = x + 1;
    }
    rows.push(first_row);

    let mut y: usize = 1;
    while y < height
        invariant
            1 <= y <= height,
            data@.len() == height,
            forall|yy: int| 0 <= yy < height ==> (#[trigger] data@[yy])@.len() == width,
            forall|yy: int, xx: int|
                0 <= yy < height && 0 <= xx < width ==> -32768 <= (#[trigger] data@[yy]@[xx])
                    <= 32767,
            width >= 1,
            predictor == spec_predictor_of(prediction_type as int),
            rows@.len() == y,
            forall|yy: int| 0 <= yy < y ==> (#[trigger] rows@[yy])@.len() == width,
            rows@[0]@[0] == 128,
            forall|yy: int| 1 <= yy < y ==> (#[trigger] rows@[yy])@[0] == data@[yy - 1]@[0],
            forall|xx: int| 1 <= xx < width ==> #[trigger] rows@[0]@[xx] == data@[0]@[xx - 1],
            forall|yy: int, xx: int|
                1 <= yy < y && 1 <= xx < width ==> (#[trigger] rows@[yy]@[xx]) == spec_predict(
                    spec_predictor_of(prediction_type as int),
                    data@[yy]@[xx - 1] as int,
                    data@[yy - 1]@[xx] as int,
                    data@[yy - 1]@[xx - 1] as int,
                ),
            forall|yy: int, xx: int|
                0 <= yy < y && 0 <= xx < width ==> -131072 <= (#[trigger] rows@[yy]@[xx])
                    <= 131072,
        decreases height - y,
    {
        let mut row: Vec<i32> = Vec::new();
        row.push(data[y - 1][0]);
        let mut x: usize = 1;
        while x < width
            invariant
                1 <= y < height,
                1 <= x <= width,
                data@.len() == height,
                forall|yy: int| 0 <= yy < height ==> (#[trigger] data@[yy])@.len() == width,
                forall|yy: int, xx: int|
                    0 <= yy < height && 0 <= xx < width ==> -32768 <= (#[trigger] data@[yy]@[xx])
                        <= 32767,
                predictor == spec_predictor_of(prediction_type as int),
                row@.len() == x,
                row@[0] == data@[y - 1]@[0],
                forall|xx: int|
                    1 <= xx < x ==> (#[trigger] row@[xx]) == spec_predict(
                        spec_predictor_of(prediction_type as int),
                        data@[y as int]@[xx - 1] as int,
                        data@[y - 1]@[xx] as int,
                        data@[y - 1]@[xx - 1] as int,
                    ),
                forall|xx: int| 0 <= xx < x ==> -131072 <= (#[trigger] row@[xx]) <= 131072,
            decreases width - x,
        {
            let a: i32 = data[y][x - 1];
            let b: i32 = data[y - 1][x];
            let c: i32 = data[y - 1][x - 1];
            row.push(predictor.apply(a, b, c));
            x = x + 1;
        }
        rows.push(row);
        y = y + 1;
    }
    rows
}

impl MyCustomImage {
    /// The error image of a run: each pixel less its prediction.
    pub fn predict(&self, prediction_type: usize) -> (r: MyCustomImage)
        requires
            self.wf(),
            self.height >= 1,
            self.width >= 1,
        ensures
            r.height == self.height,
            r.width == self.width,
            r.data@.len() == self.height,
            forall|y: int| 0 <= y < self.height ==> (#[trigger] r.data@[y])@.len() == self.width,
            forall|y: int, x: int|
                0 <= y < self.height && 0 <= x < self.width ==> (#[trigger] r.data@[y]@[x]) as int
                    == self.data@[y]@[x] - prediction_of(self.data@, self.height as int, self.width as int, prediction_type as int, y, x),
    {
        let predict_matrix = prediction_matrix_core(
            &self.data,
            self.height,
            self.width,
            prediction_type,
        );
        subtract_grids(&self.data, &predict_matrix, self.height, self.width)
    }
}

/// What the prediction matrix holds at one cell.
pub open spec fn prediction_of(
    data: Seq<Vec<i32>>,
    height: int,
    width: int,
    prediction_type: int,
    y: int,
    x: int,
) -> int {
    if y == 0 && x == 0 {
        128
    } else if x == 0 {
        data[y - 1]@[0] as int
    } else if y == 0 {
        data[0]@[x - 1] as int
    } else {
        spec_predict(
            spec_predictor_of(prediction_type),
            data[y]@[x - 1] as int,
            data[y - 1]@[x] as int,
            data[y - 1]@[x - 1] as int,
        )
    }
}

/// Pointwise difference of two matrices of the same shape.
fn subtract_grids(data: &Vec<Vec<i32>>, pred: &Vec<Vec<i32>>, height: usize, width: usize) -> (r:
    MyCustomImage)
    requires
        data@.len() == height,
        pred@.len() == height,
        forall|y: int| 0 <= y < height ==> (#[trigger] data@[y])@.len() == width,
        forall|y: int| 0 <= y < height ==> (#[trigger] pred@[y])@.len() == width,
        forall|y: int, x: int|
            0 <= y < height && 0 <= x < width ==> -32768 <= (#[trigger] data@[y]@[x]) <= 32767,
        forall|y: int, x: int|
            0 <= y < height && 0 <= x < width ==> -131072 <= (#[trigger] pred@[y]@[x]) <= 131072,
    ensures
        r.height == height,
        r.width == width,
        r.data@.len() == height,
        forall|y: int| 0 <= y < height ==> (#[trigger] r.data@[y])@.len() == width,
        forall|y: int, x: int|
            0 <= y < height && 0 <= x < width ==> (#[trigger] r.data@[y]@[x]) as int
                == data@[y]@[x] - pred@[y]@[x],
{
    let mut rows: Vec<Vec<i32>> = Vec::new();
    let mut y: usize = 0;
    while y < height
        invariant
            y <= height,
            data@.len() == height,
            pred@.len() == height,
            forall|yy: int| 0 <= yy < height ==> (#[trigger] data@[yy])@.len() == width,
            forall|yy: int| 0 <= yy < height ==> (#[trigger] pred@[yy])@.len() == width,
            forall|yy: int, xx: int|
                0 <= yy < height && 0 <= xx < width ==> -32768 <= (#[trigger] data@[yy]@[xx])
                    <= 32767,
            forall|yy: int, xx: int|
                0 <= yy < height && 0 <= xx < width ==> -131072 <= (#[trigger] pred@[yy]@[xx])
                    <= 131072,
            rows@.len() == y,
            forall|yy: int| 0 <= yy < y ==> (#[trigger] rows@[yy])@.len() == width,
            forall|yy: int, xx: int|
                0 <= yy < y && 0 <= xx < width ==> (#[trigger] rows@[yy]@[xx]) as int
                    == data@[yy]@[xx] - pred@[yy]@[xx],
        decreases height - y,
    {
        let mut row: Vec<i32> = Vec::new();
        let mut x: usize = 0;
        while x < width
            invariant
                y < height,
                x <= width,
                data@.len() == height,
                pred@.len() == height,
                (data@[y as int])@.len() == width,
                (pred@[y as int])@.len() == width,
                forall|xx: int|
                    0 <= xx < width ==> -32768 <= (#[trigger] data@[y as int]@[xx]) <= 32767,
                forall|xx: int|
                    0 <= xx < width ==> -131072 <= (#[trigger] pred@[y as int]@[xx]) <= 131072,
                row@.len() == x,
                forall|xx: int|
                    0 <= xx < x ==> (#[trigger] row@[xx]) as int == data@[y as int]@[xx]
                        - pred@[y as int]@[xx],
            decreases width - x,
        {
            row.push(data[y][x] - pred[y][x]);
            x = x + 1;
        }
        rows.push(row);
        y = y + 1;
    }
    MyCustomImage { height, width, data: rows }
}

/// The free-function counterpart of the prediction-matrix pass, over a plain
/// image value.
pub fn get_prediction_matrix(image: &MyCustomImage, prediction_type: usize) -> (r: Vec<Vec<i32>>)
    requires
        image.wf(),
        image.height >= 1,
        image.width >= 1,
    ensures
        r@.len() == image.height,
        forall|y: int| 0 <= y < image.height ==> (#[trigger] r@[y])@.len() == image.width,
        forall|y: int, x: int|
            0 <= y < image.height && 0 <= x < image.width ==> (#[trigger] r@[y]@[x]) as int
                == prediction_of(image.data@, image.height as int, image.width as int, prediction_type as int, y, x),
        forall|y: int, x: int|
            0 <= y < image.height && 0 <= x < image.width ==> -131072 <= (#[trigger] r@[y]@[x])
                <= 131072,
{
    prediction_matrix_core(&image.data, image.height, image.width, prediction_type)
}

/// The free-function counterpart of the error-image pass.
pub fn predict(image: &MyCustomImage, prediction_type: usize) -> (r: MyCustomImage)
    requires
        image.wf(),
        image.height >= 1,
        image.width >= 1,
    ensures
        r.height == image.height,
        r.width == image.width,
        r.data@.len() == image.height,
        forall|y: int| 0 <= y < image.height ==> (#[trigger] r.data@[y])@.len() == image.width,
        forall|y: int, x: int|
            0 <= y < image.height && 0 <= x < image.width ==> (#[trigger] r.data@[y]@[x]) as int
                == image.data@[y]@[x] - prediction_of(image.data@, image.height as int, image.width as int, prediction_type as int, y, x),
{
    image.predict(prediction_type)
}

/// Reads the fixed bitmap header the encoder copied through: 1078 whole
/// bytes, or a truncation error.
pub fn get_header_data(reader: &mut BitReader) -> (r: Result<Vec<u8>, PredictivError>)
    requires
        old(reader).inv(),
    ensures
        final(reader).inv(),
        final(reader).bits() == old(reader).bits(),
        match r {
            Ok(header) => {
                &&& old(reader).pos() + 1078 * 8 <= old(reader).bits().len()
                &&& header@.len() == 1078
                &&& final(reader).pos() == old(reader).pos() + 1078 * 8
                &&& forall|i: int|
                    0 <= i < 1078 ==> (#[trigger] header@[i]) as int == value_of_bits(
                        old(reader).bits().subrange(
                            old(reader).pos() + 8 * i,
                            old(reader).pos() + 8 * i + 8,
                        ),
                    )
            },
            Err(e) => {
                &&& e == PredictivError::TruncatedInput
                &&& old(reader).pos() + 1078 * 8 > old(reader).bits().len()
            },
        },
{
    proof {
        reader.lemma_pos_bounds();
    }
    let ghost start = old(reader).pos();
    let mut header: Vec<u8> = Vec::new();
    let mut i: usize = 0;
    while i < 1078
        invariant
            reader.inv(),
            reader.bits() == old(reader).bits(),
            i <= 1078,
            header@.len() == i,
            0 <= start,
            start == old(reader).pos(),
            reader.pos() == start + 8 * i,
            start + 8 * i <= reader.bits().len(),
            forall|j: int|
                0 <= j < i ==> (#[trigger] header@[j]) as int == value_of_bits(
                    reader.bits().subrange(start + 8 * j, start + 8 * j + 8),
                ),
        decreases 1078 - i,
    {
        let byte_bits_val: u32 = match reader.read_n_bits(8) {
            Some(v) => v,
            None => {
                return Err(PredictivError::TruncatedInput);
            },
        };
        proof {
            assert(start + 8 * i + 8 <= reader.bits().len());
            assert(reader.bits().subrange(start + 8 * i, start + 8 * i + 8).len() == 8);
            crate::bit_io::lemma_value_of_bits_bound(
                reader.bits().subrange(start + 8 * i, start + 8 * i + 8),
            );
            assert((1u64 << 8u32) == 256) by (bit_vector);
        }
        header.push(byte_bits_val as u8);
        i = i + 1;
    }
    Ok(header)
}

/// Reads the four-bit prediction type, or a truncation error.
pub fn get_prediction_type(reader: &mut BitReader) -> (r: Result<usize, PredictivError>)
    requires
        old(reader).inv(),
    ensures
        final(reader).inv(),
        final(reader).bits() == old(reader).bits(),
        match r {
            Ok(t) => {
                &&& old(reader).pos() + 4 <= old(reader).bits().len()
                &&& final(reader).pos() == old(reader).pos() + 4
                &&& t as int == value_of_bits(
                    old(reader).bits().subrange(old(reader).pos(), old(reader).pos() + 4),
                )
                &&& t < 16
            },
            Err(e) => {
                &&& e == PredictivError::TruncatedInput
                &&& old(reader).pos() + 4 > old(reader).bits().len()
            },
        },
{
    proof {
        reader.lemma_pos_bounds();
    }
    let ghost start = old(reader).pos();
    let v: u32 = match reader.read_n_bits(4) {
        Some(v) => v,
        None => {
            return Err(PredictivError::TruncatedInput);
        },
    };
    proof {
        assert(start + 4 <= reader.bits().len());
        assert(reader.bits().subrange(start, start + 4).len() == 4);
        crate::bit_io::lemma_value_of_bits_bound(reader.bits().subrange(start, start + 4));
        assert((1u64 << 4u32) == 16) by (bit_vector);
    }
    Ok(v as usize)
}

/// The signed byte value a raw byte carries.
pub open spec fn as_signed_byte(b: int) -> int {
    if b < 128 {
        b
    } else {
        b - 256
    }
}

/// Reads the 256-by-256 error matrix, one signed byte per cell, or a
/// truncation error.
pub fn get_error_data(reader: &mut BitReader) -> (r: Result<Vec<Vec<i32>>, PredictivError>)
    requires
        old(reader).inv(),
    ensures
        final(reader).inv(),
        final(reader).bits() == old(reader).bits(),
        match r {
            Ok(m) => {
                &&& m@.len() == 256
                &&& forall|y: int| 0 <= y < 256 ==> (#[trigger] m@[y])@.len() == 256
                &&& forall|y: int, x: int|
                    0 <= y < 256 && 0 <= x < 256 ==> -128 <= (#[trigger] m@[y]@[x]) <= 127
                &&& final(reader).pos() == old(reader).pos() + 256 * 256 * 8
                &&& forall|y: int, x: int|
                    0 <= y < 256 && 0 <= x < 256 ==> (#[trigger] m@[y]@[x]) as int
                        == as_signed_byte(
                        value_of_bits(
                            old(reader).bits().subrange(
                                old(reader).pos() + (y * 256 + x) * 8,
                                old(reader).pos() + (y * 256 + x) * 8 + 8,
                            ),
                        ),
                    )
            },
            Err(e) => e == PredictivError::TruncatedInput,
        },
{
    proof {
        reader.lemma_pos_bounds();
    }
    let ghost start = old(reader).pos();
    let mut error_data: Vec<Vec<i32>> = Vec::new();
    let mut y: usize = 0;
    while y < 256
        invariant
            reader.inv(),
            reader.bits() == old(reader).bits(),
            y <= 256,
            error_data@.len() == y,
            0 <= start,
            start == old(reader).pos(),
            reader.pos() == start + (y as int) * 256 * 8,
            forall|yy: int| 0 <= yy < y ==> (#[trigger] error_data@[yy])@.len() == 256,
            forall|yy: int, xx: int|
                0 <= yy < y && 0 <= xx < 256 ==> -128 <= (#[trigger] error_data@[yy]@[xx]) <= 127,
            forall|yy: int, xx: int|
                0 <= yy < y && 0 <= xx < 256 ==> (#[trigger] error_data@[yy]@[xx]) as int
                    == as_signed_byte(
                    value_of_bits(
                        reader.bits().subrange(
                            start + (yy * 256 + xx) * 8,
                            start + (yy * 256 + xx) * 8 + 8,
                        ),
                    ),
                ),
        decreases 256 - y,
    {
        let mut row: Vec<i32> = Vec::new();
        let mut x: usize = 0;
        while x < 256
            invariant
                reader.inv(),
                reader.bits() == old(reader).bits(),
                y < 256,
                x <= 256,
                row@.len() == x,
                0 <= start,
                start == old(reader).pos(),
                reader.pos() == start + ((y as int) * 256 + x as int) * 8,
                forall|xx: int| 0 <= xx < x ==> -128 <= (#[trigger] row@[xx]) <= 127,
                forall|xx: int|
                    0 <= xx < x ==> (#[trigger] row@[xx]) as int == as_signed_byte(
                        value_of_bits(
                            reader.bits().subrange(
                                start + ((y as int) * 256 + xx) * 8,
                                start + ((y as int) * 256 + xx) * 8 + 8,
                            ),
                        ),
                    ),
            decreases 256 - x,
        {
            let v: u32 = match reader.read_n_bits(8) {
                Some(v) => v,
                None => {
                    return Err(PredictivError::TruncatedInput);
                },
            };
            proof {
                assert(start + ((y as int) * 256 + x as int) * 8 + 8 <= reader.bits().len());
                assert(reader.bits().subrange(
                    start + ((y as int) * 256 + x as int) * 8,
                    start + ((y as int) * 256 + x as int) * 8 + 8,
                ).len() == 8);
                crate::bit_io::lemma_value_of_bits_bound(
                    reader.bits().subrange(
                        start + ((y as int) * 256 + x as int) * 8,
                        start + ((y as int) * 256 + x as int) * 8 + 8,
                    ),
                );
                assert((1u64 << 8u32) == 256) by (bit_vector);
            }
            let err_byte: u8 = v as u8;
            let err_i32: i32 = if err_byte < 128 {
                err_byte as i32
            } else {
                (err_byte as i32) - 256
            };
            row.push(err_i32);
            x = x + 1;
        }
        error_data.push(row);
        y = y + 1;
    }
    proof {
        assert(reader.pos() == start + 256 * 256 * 8);
    }
    Ok(error_data)
}

/// Rebuilds the 256-by-256 image from its error matrix: the top-left cell
/// offsets the flat guess, the first row and column accumulate westward and
/// northward, and each interior cell adds its error to the prediction from
/// its already reconstructed neighbours. Any residual values are accepted;
/// every stored value is clamped to the range the predictors accept, and the
/// signed-byte residuals of this coder's own streams never reach the clamp.
pub fn reconstruct_image(error_data: &Vec<Vec<i32>>, prediction_type: usize) -> (r: Result<
    Vec<Vec<i32>>,
    PredictivError,
>)
    requires
        error_data@.len() == 256,
        forall|y: int| 0 <= y < 256 ==> (#[trigger] error_data@[y])@.len() == 256,
    ensures
        r matches Ok(m) && ({
            let g = m@;
            &&& g.len() == 256
            &&& (forall|y: int| 0 <= y < 256 ==> (#[trigger] g[y])@.len() == 256)
            &&& (forall|y: int, x: int|
                0 <= y < 256 && 0 <= x < 256 ==> -32768 <= (#[trigger] g[y]@[x]) <= 32767)
            &&& g[0]@[0] == clamp_i16(128 + error_data@[0]@[0])
            &&& (forall|x: int|
                1 <= x < 256 ==> (#[trigger] g[0]@[x]) as int == clamp_i16(
                    g[0]@[x - 1] + error_data@[0]@[x],
                ))
            &&& (forall|y: int|
                1 <= y < 256 ==> (#[trigger] g[y])@[0] as int == clamp_i16(
                    g[y - 1]@[0] + error_data@[y]@[0],
                ))
            &&& (forall|y: int, x: int|
                1 <= y < 256 && 1 <= x < 256 ==> (#[trigger] g[y]@[x]) as int == clamp_i16(
                    spec_predict(
                        spec_predictor_of(prediction_type as int),
                        g[y]@[x - 1] as int,
                        g[y - 1]@[x] as int,
                        g[y - 1]@[x - 1] as int,
                    ) + error_data@[y]@[x],
                ))
        }),
{
    let predictor = get_predictor(prediction_type);
    let mut rows: Vec<Vec<i32>> = Vec::new();

    let mut first_row: Vec<i32> = Vec::new();
    first_row.push(clamp_sum(128, error_data[0][0]));
    let mut x: usize = 1;
    while x < 256
        invariant
            1 <= x <= 256,
            error_data@.len() == 256,
            forall|y: int| 0 <= y < 256 ==> (#[trigger] error_data@[y])@.len() == 256,
            first_row@.len() == x,
            forall|xx: int| 0 <= xx < x ==> -32768 <= (#[trigger] first_row@[xx]) <= 32767,
            first_row@[0] == clamp_i16(128 + error_data@[0]@[0]),
            forall|xx: int|
                1 <= xx < x ==> (#[trigger] first_row@[xx]) as int == clamp_i16(
                    first_row@[xx - 1] + error_data@[0]@[xx],
                ),
        decreases 256 - x,
    {
        let prev: i32 = first_row[x - 1];
        first_row.push(clamp_sum(prev, error_data[0][x]));
        x = x + 1;
    }
    rows.push(first_row);

    let mut y: usize = 1;
    while y < 256
        invariant
            1 <= y <= 256,
            error_data@.len() == 256,
            forall|yy: int| 0 <= yy < 256 ==> (#[trigger] error_data@[yy])@.len() == 256,
            predictor == spec_predictor_of(prediction_type as int),
            rows@.len() == y,
            forall|yy: int| 0 <= yy < y ==> (#[trigger] rows@[yy])@.len() == 256,
            forall|yy: int, xx: int|
                0 <= yy < y && 0 <= xx < 256 ==> -32768 <= (#[trigger] rows@[yy]@[xx]) <= 32767,
            rows@[0]@[0] == clamp_i16(128 + error_data@[0]@[0]),
            forall|xx: int|
                1 <= xx < 256 ==> (#[trigger] rows@[0]@[xx]) as int == clamp_i16(
                    rows@[0]@[xx - 1] + error_data@[0]@[xx],
                ),
            forall|yy: int|
                1 <= yy < y ==> (#[trigger] rows@[yy])@[0] as int == clamp_i16(
                    rows@[yy - 1]@[0] + error_data@[yy]@[0],
                ),
            forall|yy: int, xx: int|
                1 <= yy < y && 1 <= xx < 256 ==> (#[trigger] rows@[yy]@[xx]) as int == clamp_i16(
                    spec_predict(
                        spec_predictor_of(prediction_type as int),
                        rows@[yy]@[xx - 1] as int,
                        rows@[yy - 1]@[xx] as int,
                        rows@[yy - 1]@[xx - 1] as int,
                    ) + error_data@[yy]@[xx],
                ),
        decreases 256 - y,
    {
        let mut row: Vec<i32> = Vec::new();
        let prev_row_first: i32 = rows[y - 1][0];
        row.push(clamp_sum(prev_row_first, error_data[y][0]));
        let mut x: usize = 1;
        while x < 256
            invariant
                1 <= y < 256,
                1 <= x <= 256,
                error_data@.len() == 256,
                forall|yy: int| 0 <= yy < 256 ==> (#[trigger] error_data@[yy])@.len() == 256,
                predictor == spec_predictor_of(prediction_type as int),
                rows@.len() == y,
                (rows@[y - 1])@.len() == 256,
                forall|xx: int|
                    0 <= xx < 256 ==> -32768 <= (#[trigger] rows@[y - 1]@[xx]) <= 32767,
                row@.len() == x,
                forall|xx: int| 0 <= xx < x ==> -32768 <= (#[trigger] row@[xx]) <= 32767,
                row@[0] as int == clamp_i16(rows@[y - 1]@[0] + error_data@[y as int]@[0]),
                forall|xx: int|
                    1 <= xx < x ==> (#[trigger] row@[xx]) as int == clamp_i16(
                        spec_predict(
                            spec_predictor_of(prediction_type as int),
                            row@[xx - 1] as int,
                            rows@[y - 1]@[xx] as int,
                            rows@[y - 1]@[xx - 1] as int,
                        ) + error_data@[y as int]@[xx],
                    ),
            decreases 256 - x,
        {
            let a: i32 = row[x - 1];
            let b: i32 = rows[y - 1][x];
            let c: i32 = rows[y - 1][x - 1];
            let pred: i32 = predictor.apply(a, b, c);
            row.push(clamp_sum(pred, error_data[y][x]));
            x = x + 1;
        }
        rows.push(row);
        y = y + 1;
    }
    Ok(rows)
}

/// Clamps the sum of a prediction and a residual into the predictors'
/// accepted range; the sum is formed at a width no residual can overflow.
fn clamp_sum(pred: i32, err: i32) -> (r: i32)
    ensures
        r as int == clamp_i16(pred + err),
{
    let v: i64 = (pred as i64) + (err as i64);
    if v < -32768 {
        -32768
    } else if v > 32767 {
        32767
    } else {
        v as i32
    }
}

/// One bitmap sample byte: the pixel clamped to a byte.
pub open spec fn bmp_pixel(v: int) -> u8 {
    if v < 0 {
        0u8
    } else if v > 255 {
        255u8
    } else {
        v as u8
    }
}

/// One bitmap row: the first `k` pixels, each written three times.
pub open spec fn bmp_row(row: Seq<i32>, k: int) -> Seq<u8>
    decreases k,
{
    if k <= 0 {
        Seq::empty()
    } else {
        bmp_row(row, k - 1) + seq![
            bmp_pixel(row[k - 1] as int),
            bmp_pixel(row[k - 1] as int),
            bmp_pixel(row[k - 1] as int),
        ]
    }
}

/// The first `k` bitmap rows, written bottom-up from row 255.
pub open spec fn bmp_rows(g: Seq<Vec<i32>>, k: int) -> Seq<u8>
    decreases k,
{
    if k <= 0 {
        Seq::empty()
    } else {
        bmp_rows(g, k - 1) + bmp_row(g[256 - k]@, 256)
    }
}

/// Assembles the output bitmap: the stored header verbatim, then the
/// 256-by-256 image bottom-up, each grayscale pixel tripled into its three
/// channels. Row size is already a multiple of four, so no padding follows.
pub fn build_bmp(header: &[u8], decoded: &[Vec<i32>]) -> (r: Vec<u8>)
    requires
        decoded@.len() == 256,
        forall|y: int| 0 <= y < 256 ==> (#[trigger] decoded@[y])@.len() == 256,
    ensures
        r@ == header@ + bmp_rows(decoded@, 256),
{
    let mut decoded_bmp: Vec<u8> = Vec::new();
    let mut i: usize = 0;
    while i < header.len()
        invariant
            i <= header@.len(),
            decoded_bmp@ == header@.take(i as int),
        decreases header@.len() - i,
    {
        decoded_bmp.push(header[i]);
        proof {
            assert(decoded_bmp@ =~= header@.take(i as int + 1));
        }
        i = i + 1;
    }
    proof {
        assert(header@.take(header@.len() as int) =~= header@);
    }

    let mut k: usize = 0;
    while k < 256
        invariant
            k <= 256,
            decoded@.len() == 256,
            forall|y: int| 0 <= y < 256 ==> (#[trigger] decoded@[y])@.len() == 256,
            decoded_bmp@ == header@ + bmp_rows(decoded@, k as int),
        decreases 256 - k,
    {
        let y: usize = 255 - k;
        let mut x: usize = 0;
        while x < 256
            invariant
                k < 256,
                y == 255 - k,
                x <= 256,
                decoded@.len() == 256,
                forall|yy: int| 0 <= yy < 256 ==> (#[trigger] decoded@[yy])@.len() == 256,
                decoded_bmp@ == header@ + bmp_rows(decoded@, k as int) + bmp_row(
                    decoded@[y as int]@,
                    x as int,
                ),
            decreases 256 - x,
        {
            let v: i32 = decoded[y][x];
            let val: u8 = if v < 0 {
                0
            } else if v > 255 {
                255
            } else {
                v as u8
            };
            decoded_bmp.push(val);
            decoded_bmp.push(val);
            decoded_bmp.push(val);
            proof {
                assert(decoded_bmp@ =~= header@ + bmp_rows(decoded@, k as int) + bmp_row(
                    decoded@[y as int]@,
                    x as int + 1,
                ));
            }
            x = x + 1;
        }
        proof {
            assert(decoded_bmp@ =~= header@ + bmp_rows(decoded@, k as int + 1));
        }
        k = k + 1;
    }
    decoded_bmp
}

/// The predictive coder state: one image's dimensions and pixel rows.
pub struct Predictiv {
    pub height: usize,
    pub width: usize,
    pub data: Vec<Vec<i32>>,
}

impl Predictiv {
    /// The stated dimensions match the rows, and every pixel value is small
    /// enough for the predictors' arithmetic.
    pub open spec fn wf(self) -> bool {
        &&& self.data@.len() == self.height
        &&& forall|y: int| 0 <= y < self.height ==> (#[trigger] self.data@[y])@.len() == self.width
        &&& forall|y: int, x: int|
            0 <= y < self.height && 0 <= x < self.width ==> -32768 <= (#[trigger] self.data@[y]@[x])
                <= 32767
    }

    /// The prediction matrix of this image under the selected rule.
    fn get_prediction_matrix(&self, prediction: usize) -> (r: Vec<Vec<i32>>)
        requires
            self.wf(),
            self.height >= 1,
            self.width >= 1,
        ensures
            r@.len() == self.height,
            forall|y: int| 0 <= y < self.height ==> (#[trigger] r@[y])@.len() == self.width,
            forall|y: int, x: int|
                0 <= y < self.height && 0 <= x < self.width ==> (#[trigger] r@[y]@[x]) as int
                    == prediction_of(self.data@, self.height as int, self.width as int, prediction as int, y, x),
            forall|y: int, x: int|
                0 <= y < self.height && 0 <= x < self.width ==> -131072 <= (#[trigger] r@[y]@[x])
                    <= 131072,
    {
        prediction_matrix_core(&self.data, self.height, self.width, prediction)
    }

    /// The error image: each pixel less its prediction.
    pub fn predict(&self, prediction_number: usize) -> (r: Self)
        requires
            self.wf(),
            self.height >= 1,
            self.width >= 1,
        ensures
            r.height == self.height,
            r.width == self.width,
            r.data@.len() == self.height,
            forall|y: int| 0 <= y < self.height ==> (#[trigger] r.data@[y])@.len() == self.width,
            forall|y: int, x: int|
                0 <= y < self.height && 0 <= x < self.width ==> (#[trigger] r.data@[y]@[x]) as int
                    == self.data@[y]@[x] - prediction_of(self.data@, self.height as int, self.width as int, prediction_number as int, y, x),
    {
        let predict_matrix = self.get_prediction_matrix(prediction_number);
        let img = subtract_grids(&self.data, &predict_matrix, self.height, self.width);
        Self { height: img.height, width: img.width, data: img.data }
    }
}

/// A 256-bucket pixel histogram.
#[derive(Debug)]
pub struct Histogram(pub [u32; 256]);

/// An upload asking an image to be decoded.
pub struct DecodeRequest {
    pub file_name: String,
    pub file_data: Vec<u8>,
}

/// The decoded image, its prediction type, and the rebuilt bitmap.
pub struct DecodeResponse {
    pub decoded_filename: String,
    pub decoded_image: Vec<Vec<i32>>,
    pub predicted_type: u8,
    pub decoded_bmp_data: Vec<u8>,
}

/// An upload asking an image to be encoded under one prediction rule.
pub struct EncodeRequest {
    pub file_name: String,
    pub file_data: Vec<u8>,
    pub prediction_number: u8,
}

/// The encoded image with its error matrix and both histograms.
pub struct EncodeResponse {
    pub encoded_filename: String,
    pub original_image: Vec<Vec<i32>>,
    pub error_matrix: Vec<Vec<i32>>,
    pub prediction_type: u8,
    pub encoded_data: Vec<u8>,
    pub original_histogram: Histogram,
    pub error_histogram: Histogram,
}

} // verus!
