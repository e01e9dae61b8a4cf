//! Rendering an image: the colour of a pixel from its samples, a column
//! of pixels as one unit of work, and the assembly of columns that arrive
//! in any order into the image.

use vstd::prelude::*;
use crate::color::byte_of;
use crate::color::Color;
use crate::math::Math;
use crate::scalar::Scalar;
use crate::scalar::ZERO_BITS;
use crate::vector::Vector4;
use crate::world::traced;
use crate::world::World;

verus! {

/// The jitter of sample `k` of a pixel: none where a pixel has one sample,
/// else the `k`-th pair of draws.
pub open spec fn jitter_of(samples_per_pixel: u16, draws: Seq<(Scalar, Scalar)>, k: int) -> Option<
    (Scalar, Scalar),
> {
    if samples_per_pixel == 1 {
        None
    } else {
        Some(draws[k])
    }
}

/// The channel-wise sum of the colours of the first `n` samples of a pixel,
/// starting from zero and not saturated.
pub open spec fn sample_sum<
    P: Fn(Scalar, Scalar) -> Scalar,
    C: Fn(Scalar) -> Scalar,
    A: Fn(Scalar, Scalar) -> Scalar,
>(
    world: World,
    x: u32,
    y: u32,
    samples_per_pixel: u16,
    max_ray_bounces: u16,
    draws: Seq<(Scalar, Scalar)>,
    n: nat,
    math: Math<P, C, A>,
) -> Vector4
    decreases n,
{
    if n == 0 {
        Vector4 {
            x: Scalar { bits: ZERO_BITS },
            y: Scalar { bits: ZERO_BITS },
            z: Scalar { bits: ZERO_BITS },
            w: Scalar { bits: ZERO_BITS },
        }
    } else {
        sample_sum(
            world,
            x,
            y,
            samples_per_pixel,
            max_ray_bounces,
            draws,
            (n - 1) as nat,
            math,
        ).sum(
            traced(
                world,
                world.camera.ray_through(x, y, jitter_of(samples_per_pixel, draws, n - 1)),
                max_ray_bounces as nat,
                math,
            ).channels(),
        )
    }
}

/// The colour of a pixel: the mean of the colours of its samples, channel
/// by channel, saturated.
pub open spec fn pixel_color<
    P: Fn(Scalar, Scalar) -> Scalar,
    C: Fn(Scalar) -> Scalar,
    A: Fn(Scalar, Scalar) -> Scalar,
>(
    world: World,
    x: u32,
    y: u32,
    samples_per_pixel: u16,
    max_ray_bounces: u16,
    draws: Seq<(Scalar, Scalar)>,
    math: Math<P, C, A>,
) -> Color {
    let sum = sample_sum(
        world,
        x,
        y,
        samples_per_pixel,
        max_ray_bounces,
        draws,
        samples_per_pixel as nat,
        math,
    );
    let n = Scalar::of_count(samples_per_pixel as u32);
    Color::of(sum.x.over(n), sum.y.over(n), sum.z.over(n), sum.w.over(n))
}

/// Whether there is a pair of draws for every sample of a pixel that
/// needs one.
pub open spec fn enough_draws(samples_per_pixel: u16, draws: Seq<(Scalar, Scalar)>) -> bool {
    samples_per_pixel == 1 || draws.len() >= samples_per_pixel
}

/// Whether there are draws for every sample of every pixel of a column.
pub open spec fn enough_column_draws(
    height: u32,
    samples_per_pixel: u16,
    draws: Seq<Vec<(Scalar, Scalar)>>,
) -> bool {
    &&& draws.len() == height
    &&& forall|y: int| 0 <= y < height ==> enough_draws(samples_per_pixel, (#[trigger] draws[y])@)
}

/// Whether `colors` is column `x` of the image of the world.
pub open spec fn is_column<
    P: Fn(Scalar, Scalar) -> Scalar,
    C: Fn(Scalar) -> Scalar,
    A: Fn(Scalar, Scalar) -> Scalar,
>(
    colors: Seq<Color>,
    world: World,
    x: u32,
    samples_per_pixel: u16,
    max_ray_bounces: u16,
    draws: Seq<Vec<(Scalar, Scalar)>>,
    math: Math<P, C, A>,
) -> bool {
    &&& colors.len() == world.camera.height
    &&& forall|y: int|
        0 <= y < world.camera.height ==> #[trigger] colors[y] == pixel_color(
            world,
            x,
            y as u32,
            samples_per_pixel,
            max_ray_bounces,
            draws[y]@,
            math,
        )
}

/// The colour of the pixel at column `x` and row `y`. `draws` holds two
/// numbers from `[0, 1)` for each sample; it is not read where a pixel has
/// a single sample.
pub fn render_pixel<
    P: Fn(Scalar, Scalar) -> Scalar,
    C: Fn(Scalar) -> Scalar,
    A: Fn(Scalar, Scalar) -> Scalar,
>(
    world: &World,
    x: u32,
    y: u32,
    samples_per_pixel: u16,
    max_ray_bounces: u16,
    draws: &Vec<(Scalar, Scalar)>,
    math: &Math<P, C, A>,
) -> (c: Color)
    requires
        samples_per_pixel != 0,
        enough_draws(samples_per_pixel, draws@),
        math.functional(),
    ensures
        c == pixel_color(
            *world,
            x,
            y,
            samples_per_pixel,
            max_ray_bounces,
            draws@,
            *math,
        ),
{
    let zero = Scalar::zero();
    let mut rgb_sum = Vector4::new(zero, zero, zero, zero);
    let mut k: u16 = 0;
    while k < samples_per_pixel
        invariant
            0 <= k <= samples_per_pixel,
            enough_draws(samples_per_pixel, draws@),
            math.functional(),
            rgb_sum == sample_sum(
                *world,
                x,
                y,
                samples_per_pixel,
                max_ray_bounces,
                draws@,
                k as nat,
                *math,
            ),
        decreases samples_per_pixel - k,
    {
        let jitter = if samples_per_pixel == 1 {
            None
        } else {
            Some(draws[k as usize])
        };
        let ray = world.camera.generate_ray(x, y, jitter);
        let color = world.trace_ray(&ray, max_ray_bounces, math);
        rgb_sum = rgb_sum.add(color.to_vec());
        k = k + 1;
    }
    let n = Scalar::from_u32(samples_per_pixel as u32);
    Color::rgba(rgb_sum.x.div(n), rgb_sum.y.div(n), rgb_sum.z.div(n), rgb_sum.w.div(n))
}

/// One unit of work: the colours of column `x` of the image, from the top
/// row down. `draws` holds the draws of each row.
pub fn render_column<
    P: Fn(Scalar, Scalar) -> Scalar,
    C: Fn(Scalar) -> Scalar,
    A: Fn(Scalar, Scalar) -> Scalar,
>(
    world: &World,
    x: u32,
    samples_per_pixel: u16,
    max_ray_bounces: u16,
    draws: &Vec<Vec<(Scalar, Scalar)>>,
    math: &Math<P, C, A>,
) -> (colors: Vec<Color>)
    requires
        samples_per_pixel != 0,
        enough_column_draws(world.camera.height, samples_per_pixel, draws@),
        math.functional(),
    ensures
        is_column(
            colors@,
            *world,
            x,
            samples_per_pixel,
            max_ray_bounces,
            draws@,
            *math,
        ),
{
    let height = world.camera.height;
    let mut colors: Vec<Color> = Vec::new();
    let mut y: u32 = 0;
    while y < height
        invariant
            0 <= y <= height,
            height == world.camera.height,
            samples_per_pixel != 0,
            enough_column_draws(height, samples_per_pixel, draws@),
            math.functional(),
            colors.len() == y,
            forall|r: int|
                0 <= r < y ==> #[trigger] colors[r] == pixel_color(
                    *world,
                    x,
                    r as u32,
                    samples_per_pixel,
                    max_ray_bounces,
                    draws[r]@,
                    *math,
                ),
        decreases height - y,
    {
        let color = render_pixel(
            world,
            x,
            y,
            samples_per_pixel,
            max_ray_bounces,
            &draws[y as usize],
            math,
        );
        colors.push(color);
        y = y + 1;
    }
    colors
}

/// Whether there are draws for every sample of every pixel of the image.
pub open spec fn enough_image_draws(
    width: u32,
    height: u32,
    samples_per_pixel: u16,
    draws: Seq<Vec<Vec<(Scalar, Scalar)>>>,
) -> bool {
    &&& draws.len() == width
    &&& forall|x: int|
        0 <= x < width ==> enough_column_draws(height, samples_per_pixel, (#[trigger] draws[x])@)
}

/// The image of the world, column by column from the left, each column
/// from the top row down. `draws` holds the draws of each column.
pub fn render<
    P: Fn(Scalar, Scalar) -> Scalar,
    C: Fn(Scalar) -> Scalar,
    A: Fn(Scalar, Scalar) -> Scalar,
>(
    world: &World,
    samples_per_pixel: u16,
    max_ray_bounces: u16,
    draws: &Vec<Vec<Vec<(Scalar, Scalar)>>>,
    math: &Math<P, C, A>,
) -> (pixels: Vec<Vec<Color>>)
    requires
        samples_per_pixel != 0,
        enough_image_draws(world.camera.width, world.camera.height, samples_per_pixel, draws@),
        math.functional(),
    ensures
        pixels.len() == world.camera.width,
        forall|x: int|
            0 <= x < world.camera.width ==> is_column(
                (#[trigger] pixels[x])@,
                *world,
                x as u32,
                samples_per_pixel,
                max_ray_bounces,
                draws[x]@,
                *math,
            ),
{
    let width = world.camera.width;
    let mut pixels: Vec<Vec<Color>> = Vec::new();
    let mut x: u32 = 0;
    while x < width
        invariant
            0 <= x <= width,
            width == world.camera.width,
            samples_per_pixel != 0,
            enough_image_draws(width, world.camera.height, samples_per_pixel, draws@),
            math.functional(),
            pixels.len() == x,
            forall|c: int|
                0 <= c < x ==> is_column(
                    (#[trigger] pixels[c])@,
                    *world,
                    c as u32,
                    samples_per_pixel,
                    max_ray_bounces,
                    draws[c]@,
                    *math,
                ),
        decreases width - x,
    {
        let colors = render_column(
            world,
            x,
            samples_per_pixel,
            max_ray_bounces,
            &draws[x as usize],
            math,
        );
        pixels.push(colors);
        x = x + 1;
    }
    pixels
}

/// Why the columns that arrived do not make an image.
#[derive(Clone, Copy, Debug, PartialEq, Eq, Structural)]
pub enum RenderError {
    /// A column arrived under a number that the image does not have.
    UnknownColumn(u32),
    /// The column with this number arrived with a number of rows other
    /// than the height of the image.
    WrongHeight(u32),
    /// The column with this number arrived a second time.
    DuplicateColumn(u32),
    /// Not every column of the image arrived, or more than there are; the
    /// number of columns that did.
    Incomplete(usize),
}

/// Whether the column that arrived at place `k` had arrived before.
pub open spec fn arrived_before(completions: Seq<(u32, Vec<Color>)>, k: int) -> bool {
    exists|j: int| 0 <= j < k && (#[trigger] completions[j]).0 == completions[k].0
}

/// Whether column `x` is among those that arrived.
pub open spec fn arrived(completions: Seq<(u32, Vec<Color>)>, x: u32) -> bool {
    exists|k: int| 0 <= k < completions.len() && (#[trigger] completions[k]).0 == x
}

/// What is wrong with the column that arrived at place `k`, if anything:
/// its number is not one of the image, or else its height is not that of
/// the image, or else it had arrived before.
pub open spec fn fault_at(width: u32, height: u32, completions: Seq<(u32, Vec<Color>)>, k: int)
    -> Option<RenderError> {
    let (x, colors) = completions[k];
    if x >= width {
        Some(RenderError::UnknownColumn(x))
    } else if colors.len() != height {
        Some(RenderError::WrongHeight(x))
    } else if arrived_before(completions, k) {
        Some(RenderError::DuplicateColumn(x))
    } else {
        None
    }
}

/// The first thing wrong among the first `n` columns that arrived.
pub open spec fn first_fault(
    width: u32,
    height: u32,
    completions: Seq<(u32, Vec<Color>)>,
    n: int,
) -> Option<RenderError>
    decreases n,
{
    if n <= 0 {
        None
    } else {
        match first_fault(width, height, completions, n - 1) {
            Some(e) => Some(e),
            None => fault_at(width, height, completions, n - 1),
        }
    }
}

/// Why the columns that arrived do not make an image, if they do not: the
/// first thing wrong with one of them in the order of arrival, or else
/// that their number is not the width of the image or a column is
/// missing.
pub open spec fn fault(width: u32, height: u32, completions: Seq<(u32, Vec<Color>)>) -> Option<
    RenderError,
> {
    match first_fault(width, height, completions, completions.len() as int) {
        Some(e) => Some(e),
        None => if completions.len() != width || exists|x: u32|
            x < width && !#[trigger] arrived(completions, x) {
            Some(RenderError::Incomplete(completions.len() as usize))
        } else {
            None
        },
    }
}

/// The rows of column `x` as they arrived.
pub open spec fn column_of(completions: Seq<(u32, Vec<Color>)>, x: u32) -> Seq<Color> {
    completions[choose|k: int| 0 <= k < completions.len() && (#[trigger] completions[k]).0 == x].1@
}

/// Among columns without a fault up to place `n`, no two have the same
/// number, and each has a number and the height of the image.
pub proof fn lemma_no_fault(
    width: u32,
    height: u32,
    completions: Seq<(u32, Vec<Color>)>,
    n: int,
)
    requires
        0 <= n <= completions.len(),
        first_fault(width, height, completions, n) is None,
    ensures
        forall|k: int|
            0 <= k < n ==> (#[trigger] completions[k]).0 < width && completions[k].1.len()
                == height,
        forall|j: int, k: int|
            0 <= j < k < n ==> (#[trigger] completions[j]).0 != (#[trigger] completions[k]).0,
    decreases n,
{
    if n > 0 {
        lemma_no_fault(width, height, completions, n - 1);
        assert(fault_at(width, height, completions, n - 1) is None);
        assert(!arrived_before(completions, n - 1));
    }
}

/// Among columns without a fault, the rows of column `x` are those of the
/// one completion that bears its number.
pub proof fn lemma_column_of(
    width: u32,
    height: u32,
    completions: Seq<(u32, Vec<Color>)>,
    k: int,
)
    requires
        0 <= k < completions.len(),
        first_fault(width, height, completions, completions.len() as int) is None,
    ensures
        column_of(completions, completions[k].0) == completions[k].1@,
{
    lemma_no_fault(width, height, completions, completions.len() as int);
    let x = completions[k].0;
    let c = choose|c: int| 0 <= c < completions.len() && (#[trigger] completions[c]).0 == x;
    if c < k {
        assert(completions[c].0 != completions[k].0);
    } else if k < c {
        assert(completions[k].0 != completions[c].0);
    }
}

/// The first fault stays the first fault, whatever arrives after it.
pub proof fn lemma_first_fault_stays(
    width: u32,
    height: u32,
    completions: Seq<(u32, Vec<Color>)>,
    m: int,
    n: int,
)
    requires
        0 <= m <= n,
        first_fault(width, height, completions, m) is Some,
    ensures
        first_fault(width, height, completions, n) == first_fault(width, height, completions, m),
    decreases n - m,
{
    if m < n {
        lemma_first_fault_stays(width, height, completions, m, n - 1);
    }
}

/// A copy of a column.
fn copy_colors(colors: &Vec<Color>) -> (r: Vec<Color>)
    ensures
        r@ == colors@,
{
    let mut r: Vec<Color> = Vec::new();
    let mut y: usize = 0;
    while y < colors.len()
        invariant
            0 <= y <= colors.len(),
            r@ == colors@.take(y as int),
        decreases colors.len() - y,
    {
        r.push(colors[y]);
        assert(r@ =~= colors@.take(y + 1));
        y = y + 1;
    }
    assert(colors@.take(colors.len() as int) == colors@);
    r
}

/// Puts the columns that arrived, each under its number, into an image of
/// `width` columns of `height` rows. The order of arrival does not
/// matter. Anything but every column arriving once is an error.
pub fn assemble(width: u32, height: u32, completions: &Vec<(u32, Vec<Color>)>) -> (r: Result<
    Vec<Vec<Color>>,
    RenderError,
>)
    ensures
        match r {
            Ok(pixels) => {
                &&& fault(width, height, completions@) is None
                &&& pixels.len() == width
                &&& forall|x: u32|
                    x < width ==> (#[trigger] pixels[x as int])@ == column_of(completions@, x)
            },
            Err(e) => fault(width, height, completions@) == Some(e),
        },
{
    let mut pixels: Vec<Vec<Color>> = Vec::new();
    let mut filled: Vec<bool> = Vec::new();
    let mut x: u32 = 0;
    while x < width
        invariant
            0 <= x <= width,
            pixels.len() == x,
            filled.len() == x,
            forall|i: int| 0 <= i < x ==> !filled[i],
        decreases width - x,
    {
        pixels.push(Vec::new());
        filled.push(false);
        x = x + 1;
    }
    let mut k: usize = 0;
    while k < completions.len()
        invariant
            0 <= k <= completions.len(),
            pixels.len() == width,
            filled.len() == width,
            first_fault(width, height, completions@, k as int) is None,
            forall|i: int|
                0 <= i < width ==> (#[trigger] filled[i] <==> exists|j: int|
                    0 <= j < k && (#[trigger] completions[j]).0 == i),
            forall|j: int|
                0 <= j < k ==> pixels[(#[trigger] completions[j]).0 as int]@ == completions[j].1@,
        decreases completions.len() - k,
    {
        let column = completions[k].0;
        proof {
            lemma_no_fault(width, height, completions@, k as int);
            if fault_at(width, height, completions@, k as int) is Some {
                lemma_first_fault_stays(
                    width,
                    height,
                    completions@,
                    k + 1,
                    completions.len() as int,
                );
            }
        }
        if column >= width {
            return Err(RenderError::UnknownColumn(column));
        }
        if completions[k].1.len() != height as usize {
            return Err(RenderError::WrongHeight(column));
        }
        if filled[column as usize] {
            assert(arrived_before(completions@, k as int));
            return Err(RenderError::DuplicateColumn(column));
        }
        assert(!arrived_before(completions@, k as int)) by {
            if arrived_before(completions@, k as int) {
                let j = choose|j: int|
                    0 <= j < k && (#[trigger] completions[j]).0 == completions[k as int].0;
                assert(filled[column as int]);
            }
        }
        let colors = copy_colors(&completions[k].1);
        pixels.set(column as usize, colors);
        filled.set(column as usize, true);
        assert forall|i: int| 0 <= i < width implies (#[trigger] filled[i] <==> exists|j: int|
            0 <= j < k + 1 && (#[trigger] completions[j]).0 == i) by {
            if i == column {
                assert(completions[k as int].0 == i);
            } else if filled[i] {
                let j = choose|j: int| 0 <= j < k && (#[trigger] completions[j]).0 == i;
                assert(0 <= j < k + 1 && completions[j].0 == i);
            } else {
                if exists|j: int| 0 <= j < k + 1 && (#[trigger] completions[j]).0 == i {
                    let j = choose|j: int| 0 <= j < k + 1 && (#[trigger] completions[j]).0 == i;
                    assert(j < k);
                }
            }
        }
        assert forall|j: int| 0 <= j < k + 1 implies pixels[(
        #[trigger] completions[j]).0 as int]@ == completions[j].1@ by {
            if j < k {
                assert(completions[j].0 != column) by {
                    if completions[j].0 == column {
                        assert(arrived_before(completions@, k as int));
                    }
                }
            }
        }
        k = k + 1;
    }
    let ghost done = completions@;
    if completions.len() != width as usize {
        return Err(RenderError::Incomplete(completions.len()));
    }
    let mut x: u32 = 0;
    while x < width
        invariant
            0 <= x <= width,
            filled.len() == width,
            done == completions@,
            first_fault(width, height, done, done.len() as int) is None,
            forall|i: int|
                0 <= i < width ==> (#[trigger] filled[i] <==> exists|j: int|
                    0 <= j < done.len() && (#[trigger] done[j]).0 == i),
            forall|i: u32| i < x ==> #[trigger] arrived(done, i),
        decreases width - x,
    {
        if !filled[x as usize] {
            assert(!arrived(done, x)) by {
                if arrived(done, x) {
                    let j = choose|j: int| 0 <= j < done.len() && (#[trigger] done[j]).0 == x;
                    assert(filled[x as int]);
                }
            }
            return Err(RenderError::Incomplete(completions.len()));
        }
        assert(arrived(done, x)) by {
            let j = choose|j: int| 0 <= j < done.len() && (#[trigger] done[j]).0 == x as int;
            assert(done[j].0 == x);
        }
        x = x + 1;
    }
    assert forall|i: u32| i < width implies (#[trigger] pixels[i as int])@ == column_of(
        done,
        i,
    ) by {
        assert(arrived(done, i));
        let j = choose|j: int| 0 <= j < done.len() && (#[trigger] done[j]).0 == i;
        lemma_column_of(width, height, done, j);
        assert(pixels[done[j].0 as int]@ == done[j].1@);
    }
    Ok(pixels)
}

/// Whether `b` holds the completions of `a` in another order: `b[k]` is
/// `a[perm[k]]`, and `inv` undoes `perm`.
pub open spec fn reordered(
    a: Seq<(u32, Vec<Color>)>,
    b: Seq<(u32, Vec<Color>)>,
    perm: Seq<int>,
    inv: Seq<int>,
) -> bool {
    &&& a.len() == b.len()
    &&& perm.len() == a.len()
    &&& inv.len() == a.len()
    &&& forall|k: int|
        0 <= k < a.len() ==> 0 <= (#[trigger] perm[k]) < a.len() && b[k] == a[perm[k]]
            && inv[perm[k]] == k
    &&& forall|i: int|
        0 <= i < a.len() ==> 0 <= (#[trigger] inv[i]) < a.len() && perm[inv[i]] == i
}

/// The image does not depend on the order in which the columns arrive:
/// where the completions make an image in one order, they make one in any
/// other, and every column of it has the same rows.
pub proof fn lemma_arrival_order_is_irrelevant(
    width: u32,
    height: u32,
    a: Seq<(u32, Vec<Color>)>,
    b: Seq<(u32, Vec<Color>)>,
    perm: Seq<int>,
    inv: Seq<int>,
)
    requires
        reordered(a, b, perm, inv),
        fault(width, height, a) is None,
    ensures
        fault(width, height, b) is None,
        forall|x: u32| x < width ==> #[trigger] column_of(b, x) == column_of(a, x),
{
    lemma_no_fault(width, height, a, a.len() as int);
    lemma_reordered_no_fault(width, height, a, b, perm, inv, b.len() as int);
    assert forall|x: u32| x < width implies #[trigger] arrived(b, x) by {
        assert(arrived(a, x));
        let i = choose|i: int| 0 <= i < a.len() && (#[trigger] a[i]).0 == x;
        assert(b[inv[i]] == a[perm[inv[i]]]);
    }
    assert forall|x: u32| x < width implies #[trigger] column_of(b, x) == column_of(a, x) by {
        assert(arrived(a, x));
        let i = choose|i: int| 0 <= i < a.len() && (#[trigger] a[i]).0 == x;
        assert(b[inv[i]] == a[perm[inv[i]]]);
        lemma_column_of(width, height, a, i);
        lemma_column_of(width, height, b, inv[i]);
    }
}

/// Completions without a fault have none in another order.
proof fn lemma_reordered_no_fault(
    width: u32,
    height: u32,
    a: Seq<(u32, Vec<Color>)>,
    b: Seq<(u32, Vec<Color>)>,
    perm: Seq<int>,
    inv: Seq<int>,
    n: int,
)
    requires
        reordered(a, b, perm, inv),
        first_fault(width, height, a, a.len() as int) is None,
        0 <= n <= b.len(),
    ensures
        first_fault(width, height, b, n) is None,
    decreases n,
{
    if n > 0 {
        lemma_reordered_no_fault(width, height, a, b, perm, inv, n - 1);
        lemma_no_fault(width, height, a, a.len() as int);
        let k = n - 1;
        assert(b[k] == a[perm[k]]);
        if arrived_before(b, k) {
            let j = choose|j: int| 0 <= j < k && (#[trigger] b[j]).0 == b[k].0;
            assert(b[j] == a[perm[j]]);
            if perm[j] < perm[k] {
                assert(a[perm[j]].0 != a[perm[k]].0);
            } else if perm[k] < perm[j] {
                assert(a[perm[k]].0 != a[perm[j]].0);
            } else {
                assert(inv[perm[j]] == j && inv[perm[k]] == k);
            }
        }
    }
}

/// The assembled image is the image that rendering the columns one after
/// the other gives: where every completion holds the rows of the column
/// whose number it bears, every column of the image holds its own rows.
pub proof fn lemma_image_is_sequential<
    P: Fn(Scalar, Scalar) -> Scalar,
    C: Fn(Scalar) -> Scalar,
    A: Fn(Scalar, Scalar) -> Scalar,
>(
    completions: Seq<(u32, Vec<Color>)>,
    world: World,
    samples_per_pixel: u16,
    max_ray_bounces: u16,
    draws: Seq<Seq<Vec<(Scalar, Scalar)>>>,
    math: Math<P, C, A>,
)
    requires
        fault(world.camera.width, world.camera.height, completions) is None,
        draws.len() == world.camera.width,
        forall|k: int|
            0 <= k < completions.len() ==> is_column(
                (#[trigger] completions[k]).1@,
                world,
                completions[k].0,
                samples_per_pixel,
                max_ray_bounces,
                draws[completions[k].0 as int],
                math,
            ),
    ensures
        forall|x: u32|
            x < world.camera.width ==> is_column(
                #[trigger] column_of(completions, x),
                world,
                x,
                samples_per_pixel,
                max_ray_bounces,
                draws[x as int],
                math,
            ),
{
    let width = world.camera.width;
    let height = world.camera.height;
    assert forall|x: u32| x < width implies is_column(
        #[trigger] column_of(completions, x),
        world,
        x,
        samples_per_pixel,
        max_ray_bounces,
        draws[x as int],
        math,
    ) by {
        assert(arrived(completions, x));
        let k = choose|k: int| 0 <= k < completions.len() && (#[trigger] completions[k]).0 == x;
        lemma_column_of(width, height, completions, k);
    }
}

/// Whether `pixels` is an image of `width` columns of `height` rows.
pub open spec fn is_grid(pixels: Seq<Vec<Color>>, width: u32, height: u32) -> bool {
    &&& pixels.len() == width
    &&& forall|x: int| 0 <= x < width ==> (#[trigger] pixels[x]).len() == height
}

/// The byte of channel `c` (0 is red, 1 green, 2 blue) of a colour.
pub open spec fn channel_byte(color: Color, c: int) -> int {
    if c == 0 {
        byte_of(color.channels().x)
    } else if c == 1 {
        byte_of(color.channels().y)
    } else {
        byte_of(color.channels().z)
    }
}

/// The byte at place `k` of the image as bytes: the pixels stand row by
/// row from the top, each row from the left, each with its red, green and
/// blue byte.
pub open spec fn byte_at(pixels: Seq<Vec<Color>>, width: u32, k: int) -> int {
    channel_byte(pixels[(k / 3) % (width as int)][(k / 3) / (width as int)], k % 3)
}

/// The byte of channel `c` of the pixel in column `x` of row `y` stands
/// at the place `3 * (y * width + x) + c`.
pub proof fn lemma_byte_place(pixels: Seq<Vec<Color>>, width: u32, x: int, y: int, c: int)
    requires
        0 <= x < width,
        0 <= y,
        0 <= c < 3,
    ensures
        byte_at(pixels, width, 3 * (y * width + x) + c) == channel_byte(pixels[x][y], c),
{
    let k = 3 * (y * width + x) + c;
    assert(k / 3 == y * width + x);
    assert(k % 3 == c);
    vstd::arithmetic::div_mod::lemma_fundamental_div_mod_converse(
        y * width + x,
        width as int,
        y,
        x,
    );
}

/// The image as bytes: red, green and blue of each pixel, row by row from
/// the top, each row from the left.
pub fn to_rgb_bytes(width: u32, height: u32, pixels: &Vec<Vec<Color>>) -> (bytes: Vec<u8>)
    requires
        is_grid(pixels@, width, height),
        3 * width * height <= usize::MAX,
    ensures
        bytes.len() == 3 * width * height,
        forall|k: int| 0 <= k < bytes.len() ==> #[trigger] bytes[k] == byte_at(pixels@, width, k),
{
    let mut bytes: Vec<u8> = Vec::new();
    let mut y: u32 = 0;
    while y < height
        invariant
            0 <= y <= height,
            is_grid(pixels@, width, height),
            3 * width * height <= usize::MAX,
            bytes.len() == 3 * (y * width),
            forall|k: int|
                0 <= k < bytes.len() ==> #[trigger] bytes[k] == byte_at(pixels@, width, k),
        decreases height - y,
    {
        let mut x: u32 = 0;
        while x < width
            invariant
                0 <= x <= width,
                0 <= y < height,
                is_grid(pixels@, width, height),
                3 * width * height <= usize::MAX,
                bytes.len() == 3 * (y * width + x),
                forall|k: int|
                    0 <= k < bytes.len() ==> #[trigger] bytes[k] == byte_at(pixels@, width, k),
            decreases width - x,
        {
            let ghost before = bytes@;
            proof {
                assert(3 * (y * width + x) + 3 <= 3 * width * height) by (nonlinear_arith)
                    requires
                        0 <= x < width,
                        0 <= y < height,
                ;
                lemma_byte_place(pixels@, width, x as int, y as int, 0);
                lemma_byte_place(pixels@, width, x as int, y as int, 1);
                lemma_byte_place(pixels@, width, x as int, y as int, 2);
            }
            let (r, g, b) = pixels[x as usize][y as usize].get_rgb();
            bytes.push(r);
            bytes.push(g);
            bytes.push(b);
            proof {
                assert(bytes@ =~= before.push(r).push(g).push(b));
                assert forall|k: int| 0 <= k < bytes.len() implies #[trigger] bytes[k] == byte_at(
                    pixels@,
                    width,
                    k,
                ) by {
                    if k < before.len() {
                        assert(bytes[k] == before[k]);
                    }
                }
            }
            x = x + 1;
        }
        proof {
            assert(3 * (y * width + width) == 3 * ((y + 1) * width)) by (nonlinear_arith);
        }
        y = y + 1;
    }
    proof {
        assert(3 * (height * width) == 3 * width * height) by (nonlinear_arith);
    }
    bytes
}

} // verus!
