//! The order in which a render draws its samples.
//!
//! A render casts `samples_per_pixel` rays through every pixel, row after
//! row from the top and pixel after pixel from the left, and jitters each
//! ray inside its pixel. All jitter comes from one generator, whose state is
//! threaded through the whole image and never set back.

use crate::camera::{one, Camera, FOCAL_LENGTH_BITS, VIEWPORT_HEIGHT_BITS};
use crate::color::Color;
use crate::image::Image;
use crate::sampler::{
    is_sample_of,
    jitter_spec,
    lemma_xorshift_iter_add,
    sample_square,
    xorshift_iter,
};
use crate::scalar::Scalar;
use crate::shade::{ray_color, ray_color_spec};
use crate::vec::Vec3;
use crate::world::World;
use vstd::arithmetic::div_mod::{
    lemma_div_denominator,
    lemma_fundamental_div_mod,
    lemma_fundamental_div_mod_converse,
};
use vstd::prelude::*;

verus! {

/// One ray to cast: through the pixel in row `row` and column `col`, as the
/// sample number `index` of that pixel, displaced inside the pixel by
/// `jitter`, a point of the unit square.
#[derive(Clone, Copy, Debug)]
pub struct Sample {
    pub row: usize,
    pub col: usize,
    pub index: u32,
    pub jitter: [Scalar; 2],
}

/// The samples of a render that are still to be drawn.
#[derive(Clone, Copy, Debug)]
pub struct Schedule {
    width: usize,
    height: usize,
    samples_per_pixel: u32,
    first_seed: u32,
    seed: u32,
    row: usize,
    col: usize,
    index: u32,
}

impl Schedule {
    /// The number of columns of the image.
    pub closed spec fn width(&self) -> nat {
        self.width as nat
    }

    /// The number of rows of the image.
    pub closed spec fn height(&self) -> nat {
        self.height as nat
    }

    /// The number of samples that each pixel gets.
    pub closed spec fn samples_per_pixel(&self) -> nat {
        self.samples_per_pixel as nat
    }

    /// The seed that the render started from.
    pub closed spec fn first_seed(&self) -> u32 {
        self.first_seed
    }

    /// The state of the generator now.
    pub closed spec fn seed(&self) -> u32 {
        self.seed
    }

    /// The number of samples of the whole render.
    pub open spec fn total(&self) -> nat {
        self.height() * self.width() * self.samples_per_pixel()
    }

    /// The number of samples drawn so far.
    pub closed spec fn drawn(&self) -> nat {
        ((self.row * self.width + self.col) * self.samples_per_pixel + self.index) as nat
    }

    /// Whether every sample has been drawn.
    pub open spec fn done(&self) -> bool {
        self.drawn() >= self.total()
    }

    spec fn at_end(&self) -> bool {
        self.row >= self.height || self.width == 0 || self.samples_per_pixel == 0
    }

    /// The position is one that drawing in order arrives at, and the
    /// generator has made two steps for each sample drawn.
    pub closed spec fn wf(&self) -> bool {
        &&& self.seed == xorshift_iter(self.first_seed, 2 * self.drawn())
        &&& if self.width == 0 || self.samples_per_pixel == 0 {
            self.row == 0 && self.col == 0 && self.index == 0
        } else if self.row >= self.height {
            self.row == self.height && self.col == 0 && self.index == 0
        } else {
            self.col < self.width && self.index < self.samples_per_pixel
        }
    }

    /// The schedule of a render of `width` by `height` pixels from `seed`,
    /// before its first sample.
    pub fn new(width: usize, height: usize, samples_per_pixel: u32, seed: u32) -> (s: Schedule)
        ensures
            s.wf(),
            s.width() == width,
            s.height() == height,
            s.samples_per_pixel() == samples_per_pixel,
            s.first_seed() == seed,
            s.seed() == seed,
            s.drawn() == 0,
    {
        let s = Schedule {
            width,
            height,
            samples_per_pixel,
            first_seed: seed,
            seed,
            row: 0,
            col: 0,
            index: 0,
        };
        assert(s.drawn() == 0) by (nonlinear_arith)
            requires
                s.drawn() == ((0 * width + 0) * samples_per_pixel + 0) as nat,
        ;
        s
    }

    /// Whether every sample has been drawn.
    pub fn is_done(&self) -> (r: bool)
        requires
            self.wf(),
        ensures
            r == self.done(),
    {
        proof {
            self.lemma_progress();
        }
        self.row >= self.height || self.width == 0 || self.samples_per_pixel == 0
    }

    /// Draws the next sample: the samples of a pixel follow each other, then
    /// comes the pixel to the right, then the row below. Each sample takes
    /// two steps of the generator, from the state that the sample before it
    /// left. After the last sample there is none.
    pub fn next(&mut self) -> (res: Option<Sample>)
        requires
            old(self).wf(),
        ensures
            final(self).wf(),
            final(self).width() == old(self).width(),
            final(self).height() == old(self).height(),
            final(self).samples_per_pixel() == old(self).samples_per_pixel(),
            final(self).first_seed() == old(self).first_seed(),
            old(self).drawn() <= old(self).total(),
            final(self).drawn() <= final(self).total(),
            res is None <==> old(self).done(),
            res is None ==> *final(self) == *old(self),
            res matches Some(s) ==> {
                &&& final(self).drawn() == old(self).drawn() + 1
                &&& old(self).drawn() < old(self).total()
                &&& s.row < old(self).height()
                &&& s.col < old(self).width()
                &&& s.index < old(self).samples_per_pixel()
                &&& s.row == old(self).drawn() / (old(self).width() * old(
                    self,
                ).samples_per_pixel())
                &&& s.col == (old(self).drawn() / old(self).samples_per_pixel()) % old(
                    self,
                ).width()
                &&& s.index == old(self).drawn() % old(self).samples_per_pixel()
                &&& is_sample_of((final(self).seed(), s.jitter), old(self).seed())
                &&& old(self).seed() == xorshift_iter(old(self).first_seed(), 2 * old(self).drawn())
                &&& s.jitter == jitter_spec(old(self).seed())
                &&& final(self).seed() == xorshift_iter(
                    old(self).first_seed(),
                    2 * (old(self).drawn() + 1),
                )
            },
    {
        proof {
            self.lemma_progress();
        }
        if self.row >= self.height || self.width == 0 || self.samples_per_pixel == 0 {
            return None;
        }
        proof {
            self.lemma_position();
            lemma_xorshift_iter_add(self.first_seed, 2 * self.drawn(), 2);
        }
        let ghost before = *self;
        let (seed, jitter) = sample_square(self.seed);
        let sample = Sample { row: self.row, col: self.col, index: self.index, jitter };
        self.seed = seed;
        if self.index + 1 < self.samples_per_pixel {
            self.index = self.index + 1;
        } else {
            self.index = 0;
            if self.col + 1 < self.width {
                self.col = self.col + 1;
            } else {
                self.col = 0;
                self.row = self.row + 1;
            }
        }
        proof {
            let w = before.width as int;
            let n = before.samples_per_pixel as int;
            let r = before.row as int;
            let c = before.col as int;
            let i = before.index as int;
            assert(self.drawn() == before.drawn() + 1) by (nonlinear_arith)
                requires
                    before.drawn() == (r * w + c) * n + i,
                    self.drawn() == (self.row * w + self.col) * n + self.index,
                    0 <= r,
                    0 <= c < w,
                    0 <= i < n,
                    if i + 1 < n {
                        self.index == i + 1 && self.col == c && self.row == r
                    } else if c + 1 < w {
                        self.index == 0 && self.col == c + 1 && self.row == r
                    } else {
                        self.index == 0 && self.col == 0 && self.row == r + 1
                    },
            ;
        }
        proof {
            self.lemma_progress();
        }
        Some(sample)
    }

    /// As long as samples are left, fewer than all have been drawn; at the
    /// end all have.
    proof fn lemma_progress(&self)
        requires
            self.wf(),
        ensures
            self.at_end() <==> self.drawn() == self.total(),
            self.drawn() <= self.total(),
    {
        let w = self.width as int;
        let h = self.height as int;
        let n = self.samples_per_pixel as int;
        let r = self.row as int;
        let c = self.col as int;
        let i = self.index as int;
        if w == 0 || n == 0 {
            assert((0 * w + 0) * n + 0 == 0) by (nonlinear_arith);
            assert(h * w * n == 0) by (nonlinear_arith)
                requires
                    w == 0 || n == 0,
            ;
        } else if r >= h {
            assert((h * w + 0) * n + 0 == h * w * n) by (nonlinear_arith);
        } else {
            assert((r * w + c) * n + i < h * w * n) by (nonlinear_arith)
                requires
                    0 <= r < h,
                    0 <= c < w,
                    0 <= i < n,
            ;
        }
    }

    /// The number of samples drawn so far tells the place of the next one:
    /// rows are the slowest to change and the samples of a pixel the
    /// fastest.
    proof fn lemma_position(&self)
        requires
            self.wf(),
            !self.at_end(),
        ensures
            self.row == self.drawn() / (self.width() * self.samples_per_pixel()),
            self.col == (self.drawn() / self.samples_per_pixel()) % self.width(),
            self.index == self.drawn() % self.samples_per_pixel(),
    {
        let w = self.width as int;
        let n = self.samples_per_pixel as int;
        let r = self.row as int;
        let c = self.col as int;
        let i = self.index as int;
        let k = self.drawn() as int;
        assert(k == (r * w + c) * n + i);
        lemma_fundamental_div_mod_converse(k, n, r * w + c, i);
        lemma_fundamental_div_mod_converse(r * w + c, w, r, c);
        assert(k == r * (w * n) + (c * n + i)) by (nonlinear_arith)
            requires
                k == (r * w + c) * n + i,
        ;
        assert(0 <= c * n + i < w * n) by (nonlinear_arith)
            requires
                0 <= c < w,
                0 <= i < n,
        ;
        lemma_fundamental_div_mod_converse(k, w * n, r, c * n + i);
    }
}

/// The width of an image of a full render.
pub const IMG_WIDTH: usize = 600;

/// The height of an image of a full render.
pub const IMG_HEIGHT: usize = 400;

/// The number of samples that a full render takes of each pixel.
pub const SAMPLES_PER_PIXEL: u32 = 100;

/// The seed of a full render.
pub const SEED: u32 = 0xDEAD_BEEF;

/// The camera of a render of the given size.
pub open spec fn camera_spec(width: usize, height: usize) -> Camera {
    Camera::new_spec(
        width,
        height,
        Scalar { bits: VIEWPORT_HEIGHT_BITS },
        Scalar { bits: FOCAL_LENGTH_BITS },
    )
}

/// The share of one sample in the colour of its pixel: one over the number
/// of samples.
pub open spec fn share_spec(samples_per_pixel: u32) -> Scalar {
    one().div_spec(Scalar::from_usize_spec(samples_per_pixel as usize))
}

/// What sample number `i` of the pixel in row `row` and column `col`
/// contributes: the colour of its ray times the share of a sample. The ray
/// is jittered by the draw that follows the draws of all samples before it.
pub open spec fn contribution(
    world: World,
    width: usize,
    height: usize,
    samples_per_pixel: u32,
    seed: u32,
    row: usize,
    col: usize,
    i: nat,
) -> Vec3 {
    let k = (row * width + col) * samples_per_pixel + i;
    let jitter = jitter_spec(xorshift_iter(seed, (2 * k) as nat));
    ray_color_spec(camera_spec(width, height).ray_spec(row, col, jitter), world).to_vec3_spec().mul_scalar_spec(
    share_spec(samples_per_pixel))
}

/// In a scene without spheres every sample contributes the colour of the
/// sky in the direction of its ray, and nothing else.
pub proof fn lemma_empty_world_contribution(
    world: World,
    width: usize,
    height: usize,
    samples_per_pixel: u32,
    seed: u32,
    row: usize,
    col: usize,
    i: nat,
)
    requires
        world.spheres@.len() == 0,
    ensures
        ({
            let k = (row * width + col) * samples_per_pixel + i;
            let jitter = jitter_spec(xorshift_iter(seed, (2 * k) as nat));
            contribution(world, width, height, samples_per_pixel, seed, row, col, i)
                == crate::shade::sky_spec(
                camera_spec(width, height).ray_spec(row, col, jitter),
            ).to_vec3_spec().mul_scalar_spec(share_spec(samples_per_pixel))
        }),
{
    let k = (row * width + col) * samples_per_pixel + i;
    let jitter = jitter_spec(xorshift_iter(seed, (2 * k) as nat));
    crate::shade::lemma_empty_world_is_sky(
        camera_spec(width, height).ray_spec(row, col, jitter),
        world,
    );
}

/// The colour of a pixel after `n` of its samples: black before the first,
/// and with every sample its contribution more, added in order.
pub open spec fn accumulated(
    world: World,
    width: usize,
    height: usize,
    samples_per_pixel: u32,
    seed: u32,
    row: usize,
    col: usize,
    n: nat,
) -> Color
    decreases n,
{
    if n == 0 {
        Color::black()
    } else {
        Color::from_vec3_spec(
            accumulated(
                world,
                width,
                height,
                samples_per_pixel,
                seed,
                row,
                col,
                (n - 1) as nat,
            ).to_vec3_spec().add_spec(
                contribution(
                    world,
                    width,
                    height,
                    samples_per_pixel,
                    seed,
                    row,
                    col,
                    (n - 1) as nat,
                ),
            ),
        )
    }
}

/// How many samples pixel number `j` has got when `drawn` samples of the
/// image have been drawn.
pub open spec fn samples_of(j: int, samples_per_pixel: int, drawn: int) -> nat {
    if drawn <= j * samples_per_pixel {
        0
    } else if drawn >= (j + 1) * samples_per_pixel {
        samples_per_pixel as nat
    } else {
        (drawn - j * samples_per_pixel) as nat
    }
}

/// The colour of pixel number `j`, counted row by row, when `drawn` samples
/// of the image have been drawn.
#[verifier::opaque]
pub open spec fn pixel_after(
    world: World,
    width: usize,
    height: usize,
    samples_per_pixel: u32,
    seed: u32,
    j: int,
    drawn: int,
) -> Color {
    accumulated(
        world,
        width,
        height,
        samples_per_pixel,
        seed,
        (j / width as int) as usize,
        (j % width as int) as usize,
        samples_of(j, samples_per_pixel as int, drawn),
    )
}

/// The pixel of the sample that is drawn next, and how the counts of all
/// pixels change when it is drawn.
proof fn lemma_next_pixel(width: int, height: int, n: int, k: int, row: int, col: int, index: int)
    requires
        0 < width,
        0 < n,
        0 <= k < height * width * n,
        row == k / (width * n),
        col == (k / n) % width,
        index == k % n,
    ensures
        0 <= row < height,
        0 <= col < width,
        0 <= index < n,
        row * width + col == k / n,
        (row * width + col) / width == row,
        (row * width + col) % width == col,
        samples_of(row * width + col, n, k) == index,
        samples_of(row * width + col, n, k + 1) == index + 1,
        forall|j: int|
            0 <= j && j != row * width + col ==> #[trigger] samples_of(j, n, k + 1) == samples_of(
                j,
                n,
                k,
            ),
{
    let p = k / n;
    lemma_fundamental_div_mod(k, n);
    lemma_fundamental_div_mod(p, width);
    assert(0 <= k / n) by {
        vstd::arithmetic::div_mod::lemma_div_pos_is_pos(k, n);
    }
    lemma_div_denominator(k, n, width);
    assert(n * width == width * n) by (nonlinear_arith);
    assert(row == p / width);
    assert(row * width + col == p) by (nonlinear_arith)
        requires
            p == width * (p / width) + p % width,
            row == p / width,
            col == p % width,
    ;
    let pn = p * n;
    assert(pn + index == k && (p + 1) * n == pn + n) by (nonlinear_arith)
        requires
            k == n * p + index,
            pn == p * n,
    ;
    assert(row < height) by (nonlinear_arith)
        requires
            row * width + col == p,
            p * n <= k,
            k < height * width * n,
            0 <= col,
            0 < n,
            0 < width,
    ;
    assert(0 <= row) by (nonlinear_arith)
        requires
            row * width + col == p,
            0 <= p,
            col < width,
            0 < width,
    ;
    assert forall|j: int| 0 <= j && j != row * width + col implies #[trigger] samples_of(
        j,
        n,
        k + 1,
    ) == samples_of(j, n, k) by {
        let jn = j * n;
        assert((j + 1) * n == jn + n) by (nonlinear_arith)
            requires
                jn == j * n,
        ;
        if j < p {
            assert(jn + n <= pn) by (nonlinear_arith)
                requires
                    j + 1 <= p,
                    0 < n,
                    jn == j * n,
                    pn == p * n,
            ;
        } else {
            assert(jn >= pn + n) by (nonlinear_arith)
                requires
                    j >= p + 1,
                    0 < n,
                    jn == j * n,
                    pn == p * n,
            ;
        }
    }
}

/// Drawing one sample brings the image from what it is after `k` samples
/// to what it is after `k + 1`.
proof fn lemma_render_step(
    world: World,
    width: usize,
    height: usize,
    samples_per_pixel: u32,
    seed: u32,
    k: int,
    sample: Sample,
    before: Seq<Color>,
    after: Seq<Color>,
)
    requires
        0 <= k < height * width * samples_per_pixel,
        sample.row == k / (width * samples_per_pixel),
        sample.col == (k / samples_per_pixel as int) % (width as int),
        sample.index == k % (samples_per_pixel as int),
        sample.jitter == jitter_spec(xorshift_iter(seed, (2 * k) as nat)),
        before.len() == width * height,
        forall|j: int|
            0 <= j < before.len() ==> #[trigger] before[j] == pixel_after(
                world,
                width,
                height,
                samples_per_pixel,
                seed,
                j,
                k,
            ),
        after == before.update(
            sample.row * width + sample.col,
            Color::from_vec3_spec(
                before[sample.row * width + sample.col].to_vec3_spec().add_spec(
                    ray_color_spec(
                        camera_spec(width, height).ray_spec(sample.row, sample.col, sample.jitter),
                        world,
                    ).to_vec3_spec().mul_scalar_spec(share_spec(samples_per_pixel)),
                ),
            ),
        ),
    ensures
        forall|j: int|
            0 <= j < after.len() ==> #[trigger] after[j] == pixel_after(
                world,
                width,
                height,
                samples_per_pixel,
                seed,
                j,
                k + 1,
            ),
{
    reveal(pixel_after);
    assert(width > 0 && samples_per_pixel > 0) by (nonlinear_arith)
        requires
            0 <= k < height * width * samples_per_pixel,
    ;
    lemma_next_pixel(
        width as int,
        height as int,
        samples_per_pixel as int,
        k,
        sample.row as int,
        sample.col as int,
        sample.index as int,
    );
    let p = sample.row * width + sample.col;
    assert(0 <= p < width * height) by (nonlinear_arith)
        requires
            p == sample.row * width + sample.col,
            0 <= sample.row < height,
            0 <= sample.col < width,
    ;
    assert(k == p * samples_per_pixel + sample.index) by {
        lemma_fundamental_div_mod(k, samples_per_pixel as int);
        assert(samples_per_pixel * p == p * samples_per_pixel) by (nonlinear_arith);
    }
    assert forall|j: int| 0 <= j < after.len() implies #[trigger] after[j] == pixel_after(
        world,
        width,
        height,
        samples_per_pixel,
        seed,
        j,
        k + 1,
    ) by {
        if j == p {
            let done = accumulated(
                world,
                width,
                height,
                samples_per_pixel,
                seed,
                sample.row,
                sample.col,
                sample.index as nat,
            );
            assert(before[p] == done);
            assert(contribution(
                world,
                width,
                height,
                samples_per_pixel,
                seed,
                sample.row,
                sample.col,
                sample.index as nat,
            ) == ray_color_spec(
                camera_spec(width, height).ray_spec(sample.row, sample.col, sample.jitter),
                world,
            ).to_vec3_spec().mul_scalar_spec(share_spec(samples_per_pixel)));
            assert(after[p] == accumulated(
                world,
                width,
                height,
                samples_per_pixel,
                seed,
                sample.row,
                sample.col,
                (sample.index + 1) as nat,
            ));
        } else {
            assert(after[j] == before[j]);
        }
    }
}

/// Before the first sample every pixel is black.
proof fn lemma_render_start(
    world: World,
    width: usize,
    height: usize,
    samples_per_pixel: u32,
    seed: u32,
    j: int,
)
    requires
        0 <= j,
    ensures
        pixel_after(world, width, height, samples_per_pixel, seed, j, 0) == Color::black(),
{
    reveal(pixel_after);
    assert(0 <= j * samples_per_pixel) by (nonlinear_arith)
        requires
            0 <= j,
            0 <= samples_per_pixel,
    ;
}

/// When all samples are drawn every pixel has all of its own.
proof fn lemma_render_done(
    world: World,
    width: usize,
    height: usize,
    samples_per_pixel: u32,
    seed: u32,
    row: int,
    col: int,
)
    requires
        0 <= row < height,
        0 <= col < width,
    ensures
        0 <= row * width + col < width * height,
        pixel_after(
            world,
            width,
            height,
            samples_per_pixel,
            seed,
            row * width + col,
            height * width * samples_per_pixel,
        ) == accumulated(
            world,
            width,
            height,
            samples_per_pixel,
            seed,
            row as usize,
            col as usize,
            samples_per_pixel as nat,
        ),
{
    reveal(pixel_after);
    let n = samples_per_pixel as int;
    let j = row * width + col;
    let jn = j * n;
    assert(0 <= j < width * height && jn + n <= height * width * n && 0 <= jn && (j + 1) * n == jn
        + n) by (nonlinear_arith)
        requires
            0 <= row < height,
            0 <= col < width,
            j == row * width + col,
            0 <= n,
            jn == j * n,
    ;
    lemma_fundamental_div_mod_converse(j, width as int, row, col);
}

/// Renders the scene into an image of `width` by `height` pixels. Every
/// pixel gets `samples_per_pixel` rays, each jittered inside the pixel and
/// shaded, and its colour is their average, summed up sample by sample.
/// The generator starts from `seed` and runs through the whole image.
/// Returns `None` where the image cannot be laid out in memory.
pub fn render(world: &World, width: usize, height: usize, samples_per_pixel: u32, seed: u32) -> (res:
    Option<Image>)
    ensures
        res is Some <==> 6 * width * height <= usize::MAX,
        res matches Some(img) ==> {
            &&& img.wf()
            &&& img.width_spec() == width
            &&& img.height_spec() == height
            &&& forall|row: int, col: int|
                0 <= row < height && 0 <= col < width ==> #[trigger] img.pixel(row, col)
                    == accumulated(
                    *world,
                    width,
                    height,
                    samples_per_pixel,
                    seed,
                    row as usize,
                    col as usize,
                    samples_per_pixel as nat,
                )
        },
{
    let mut img = match Image::new(width, height) {
        Some(img) => img,
        None => {
            return None;
        },
    };
    let camera = Camera::new(
        width,
        height,
        Scalar { bits: VIEWPORT_HEIGHT_BITS },
        Scalar { bits: FOCAL_LENGTH_BITS },
    );
    let share = Scalar::one().div(Scalar::from_usize(samples_per_pixel as usize));
    let mut schedule = Schedule::new(width, height, samples_per_pixel, seed);
    proof {
        img.lemma_wf();
        assert forall|j: int| 0 <= j < img.pixels().len() implies #[trigger] img.pixels()[j]
            == pixel_after(*world, width, height, samples_per_pixel, seed, j, 0) by {
            lemma_render_start(*world, width, height, samples_per_pixel, seed, j);
        }
    }
    while !schedule.is_done()
        invariant
            schedule.wf(),
            schedule.width() == width,
            schedule.height() == height,
            schedule.samples_per_pixel() == samples_per_pixel,
            schedule.first_seed() == seed,
            schedule.drawn() <= schedule.total(),
            img.wf(),
            img.width_spec() == width,
            img.height_spec() == height,
            img.pixels().len() == width * height,
            camera == camera_spec(width, height),
            share == share_spec(samples_per_pixel),
            forall|j: int|
                0 <= j < img.pixels().len() ==> #[trigger] img.pixels()[j] == pixel_after(
                    *world,
                    width,
                    height,
                    samples_per_pixel,
                    seed,
                    j,
                    schedule.drawn() as int,
                ),
        decreases schedule.total() - schedule.drawn(),
    {
        let ghost k = schedule.drawn() as int;
        let ghost before = img.pixels();
        if let Some(sample) = schedule.next() {
            let ray = camera.ray(sample.row, sample.col, sample.jitter);
            let part = ray_color(&ray, world).to_vec3().mul_scalar(share);
            let so_far = img.get(sample.row, sample.col);
            img.set(sample.row, sample.col, Color::from_vec3(so_far.to_vec3().add(part)));
            proof {
                img.lemma_wf();
                lemma_render_step(
                    *world,
                    width,
                    height,
                    samples_per_pixel,
                    seed,
                    k,
                    sample,
                    before,
                    img.pixels(),
                );
            }
        }
    }
    proof {
        assert forall|row: int, col: int|
            0 <= row < height && 0 <= col < width implies #[trigger] img.pixel(row, col)
            == accumulated(
            *world,
            width,
            height,
            samples_per_pixel,
            seed,
            row as usize,
            col as usize,
            samples_per_pixel as nat,
        ) by {
            lemma_render_done(*world, width, height, samples_per_pixel, seed, row, col);
        }
    }
    Some(img)
}

/// The colour of a pixel that is sampled once, without jitter: the colour
/// of the ray through its centre.
pub open spec fn centre_color(world: World, width: usize, height: usize, row: usize, col: usize) -> Color {
    ray_color_spec(
        camera_spec(width, height).ray_spec(row, col, [Scalar { bits: 0 }, Scalar { bits: 0 }]),
        world,
    )
}

/// The colour of pixel number `j`, counted row by row, that is sampled once
/// through its centre.
#[verifier::opaque]
pub open spec fn centre_color_at(world: World, width: usize, height: usize, j: int) -> Color {
    centre_color(world, width, height, (j / width as int) as usize, (j % width as int) as usize)
}

/// Renders the scene with one ray for every pixel, through the centre of
/// the pixel. Returns `None` where the image cannot be laid out in memory.
pub fn render_single(world: &World, width: usize, height: usize) -> (res: Option<Image>)
    ensures
        res is Some <==> 6 * width * height <= usize::MAX,
        res matches Some(img) ==> {
            &&& img.wf()
            &&& img.width_spec() == width
            &&& img.height_spec() == height
            &&& forall|row: int, col: int|
                0 <= row < height && 0 <= col < width ==> #[trigger] img.pixel(row, col)
                    == centre_color(*world, width, height, row as usize, col as usize)
        },
{
    let mut img = match Image::new(width, height) {
        Some(img) => img,
        None => {
            return None;
        },
    };
    let camera = Camera::new(
        width,
        height,
        Scalar { bits: VIEWPORT_HEIGHT_BITS },
        Scalar { bits: FOCAL_LENGTH_BITS },
    );
    proof {
        img.lemma_wf();
        assert(width * height <= 6 * width * height) by (nonlinear_arith)
            requires
                0 <= width,
                0 <= height,
        ;
    }
    let count = width * height;
    let mut j: usize = 0;
    while j < count
        invariant
            j <= count,
            count == width * height,
            img.wf(),
            img.width_spec() == width,
            img.height_spec() == height,
            img.pixels().len() == count,
            camera == camera_spec(width, height),
            forall|i: int|
                0 <= i < j ==> #[trigger] img.pixels()[i] == centre_color_at(
                    *world,
                    width,
                    height,
                    i,
                ),
        decreases count - j,
    {
        proof {
            assert(width > 0) by (nonlinear_arith)
                requires
                    j < width * height,
            ;
            lemma_cell_of(j as int, width as int, height as int);
        }
        let row = j / width;
        let col = j % width;
        let ghost before = img.pixels();
        let jitter = [Scalar::zero(), Scalar::zero()];
        assert(jitter =~= [Scalar { bits: 0 }, Scalar { bits: 0 }]);
        let ray = camera.ray(row, col, jitter);
        img.set(row, col, ray_color(&ray, world));
        proof {
            reveal(centre_color_at);
            img.lemma_wf();
            assert forall|i: int| 0 <= i < j + 1 implies #[trigger] img.pixels()[i]
                == centre_color_at(*world, width, height, i) by {
                if i != j {
                    assert(img.pixels()[i] == before[i]);
                }
            }
        }
        j = j + 1;
    }
    proof {
        reveal(centre_color_at);
        assert forall|row: int, col: int|
            0 <= row < height && 0 <= col < width implies #[trigger] img.pixel(row, col)
            == centre_color(*world, width, height, row as usize, col as usize) by {
            let i = row * width + col;
            assert(0 <= i < width * height) by (nonlinear_arith)
                requires
                    0 <= row < height,
                    0 <= col < width,
                    i == row * width + col,
            ;
            lemma_fundamental_div_mod_converse(i, width as int, row, col);
        }
    }
    Some(img)
}

/// The row and the column of a place in a grid, and the place of that row
/// and column.
proof fn lemma_cell_of(j: int, width: int, height: int)
    requires
        0 < width,
        0 <= j < width * height,
    ensures
        0 <= j / width < height,
        0 <= j % width < width,
        (j / width) * width + j % width == j,
{
    lemma_fundamental_div_mod(j, width);
    vstd::arithmetic::div_mod::lemma_mod_bound(j, width);
    vstd::arithmetic::div_mod::lemma_div_pos_is_pos(j, width);
    assert(j / width < height) by (nonlinear_arith)
        requires
            j == width * (j / width) + j % width,
            0 <= j % width,
            j < width * height,
            0 < width,
    ;
    assert((j / width) * width == width * (j / width)) by (nonlinear_arith);
}

} // verus!
