//! The raster that a render fills, and what is handed to the encoder.

use crate::color::Color;
use crate::encode::{encode_rgb16, encoded, EncodeError};
use vstd::prelude::*;

verus! {

/// The bytes that one pixel takes at sixteen bits a channel.
pub const PIXEL_BYTES: usize = 6;

/// A grid of colours, stored row by row from the top.
#[derive(Debug)]
pub struct Image {
    width: usize,
    height: usize,
    pixels: Vec<Color>,
}

/// The byte stream of a row-major sequence of pixels, at sixteen bits a
/// channel: pixel after pixel, six bytes each.
pub open spec fn rgb16_stream(pixels: Seq<Color>) -> Seq<u8> {
    Seq::new(6 * pixels.len(), |j: int| pixels[j / 6].rgb16_spec()[j % 6])
}

impl Image {
    /// The number of columns.
    pub closed spec fn width_spec(&self) -> nat {
        self.width as nat
    }

    /// The number of rows.
    pub closed spec fn height_spec(&self) -> nat {
        self.height as nat
    }

    /// The pixels, row after row.
    pub closed spec fn pixels(&self) -> Seq<Color> {
        self.pixels@
    }

    /// The grid is complete, and its byte stream fits in memory.
    pub closed spec fn wf(&self) -> bool {
        &&& self.pixels@.len() == self.width * self.height
        &&& PIXEL_BYTES * self.width * self.height <= usize::MAX
    }

    /// The pixel in row `row` and column `col`.
    pub open spec fn pixel(&self, row: int, col: int) -> Color {
        self.pixels()[row * self.width_spec() + col]
    }

    /// What `wf` says, in terms of the public view.
    pub proof fn lemma_wf(&self)
        requires
            self.wf(),
        ensures
            self.pixels().len() == self.width_spec() * self.height_spec(),
            6 * self.width_spec() * self.height_spec() <= usize::MAX,
    {
    }

    /// A black image of `width` columns and `height` rows, unless its byte
    /// stream would not fit in memory.
    pub fn new(width: usize, height: usize) -> (res: Option<Image>)
        ensures
            res is Some <==> 6 * width * height <= usize::MAX,
            res matches Some(img) ==> {
                &&& img.wf()
                &&& img.width_spec() == width
                &&& img.height_spec() == height
                &&& img.pixels().len() == width * height
                &&& forall|i: int|
                    0 <= i < img.pixels().len() ==> #[trigger] img.pixels()[i] == Color::black()
            },
    {
        let count = match width.checked_mul(height) {
            Some(count) => count,
            None => {
                proof {
                    assert(6 * width * height >= width * height) by (nonlinear_arith);
                }
                return None;
            },
        };
        if count > usize::MAX / PIXEL_BYTES {
            proof {
                assert(6 * width * height == 6 * (width * height)) by (nonlinear_arith);
            }
            return None;
        }
        proof {
            assert(6 * width * height == 6 * (width * height)) by (nonlinear_arith);
        }
        let mut pixels: Vec<Color> = Vec::new();
        let mut i: usize = 0;
        while i < count
            invariant
                i <= count,
                pixels@.len() == i,
                forall|k: int| 0 <= k < i ==> #[trigger] pixels@[k] == Color::black(),
            decreases count - i,
        {
            pixels.push(Color::new());
            i = i + 1;
        }
        Some(Image { width, height, pixels })
    }

    /// The number of columns.
    pub fn width(&self) -> (w: usize)
        ensures
            w == self.width_spec(),
    {
        self.width
    }

    /// The number of rows.
    pub fn height(&self) -> (h: usize)
        ensures
            h == self.height_spec(),
    {
        self.height
    }

    /// The colour of one pixel.
    pub fn get(&self, row: usize, col: usize) -> (c: Color)
        requires
            self.wf(),
            row < self.height_spec(),
            col < self.width_spec(),
        ensures
            c == self.pixel(row as int, col as int),
    {
        proof {
            lemma_index_in_grid(row as int, col as int, self.width as int, self.height as int);
        }
        self.pixels[row * self.width + col]
    }

    /// Gives one pixel a colour and leaves the others as they are.
    pub fn set(&mut self, row: usize, col: usize, color: Color)
        requires
            old(self).wf(),
            row < old(self).height_spec(),
            col < old(self).width_spec(),
        ensures
            final(self).wf(),
            final(self).width_spec() == old(self).width_spec(),
            final(self).height_spec() == old(self).height_spec(),
            final(self).pixels() == old(self).pixels().update(
                row * old(self).width_spec() + col,
                color,
            ),
            final(self).pixel(row as int, col as int) == color,
    {
        proof {
            lemma_index_in_grid(row as int, col as int, self.width as int, self.height as int);
        }
        let index = row * self.width + col;
        self.pixels[index] = color;
    }

    /// The image as the encoder takes it: row after row, pixel after pixel,
    /// red, green and blue, each as two bytes with the more significant one
    /// first.
    pub fn to_rgb16(&self) -> (bytes: Vec<u8>)
        requires
            self.wf(),
        ensures
            bytes@ == rgb16_stream(self.pixels()),
            bytes@.len() == 6 * self.width_spec() * self.height_spec(),
    {
        let n = self.pixels.len();
        let mut bytes: Vec<u8> = Vec::new();
        let mut i: usize = 0;
        proof {
            assert(6 * self.width * self.height == 6 * (self.width * self.height))
                by (nonlinear_arith);
        }
        while i < n
            invariant
                n == self.pixels@.len(),
                6 * n <= usize::MAX,
                i <= n,
                bytes@ =~= rgb16_stream(self.pixels@.take(i as int)),
            decreases n - i,
        {
            let px = self.pixels[i].to_rgb16();
            let ghost before = bytes@;
            bytes.push(px[0]);
            bytes.push(px[1]);
            bytes.push(px[2]);
            bytes.push(px[3]);
            bytes.push(px[4]);
            bytes.push(px[5]);
            proof {
                let done = self.pixels@.take(i as int);
                let next = self.pixels@.take(i + 1);
                assert(bytes@.len() == 6 * (i + 1));
                assert forall|j: int| 0 <= j < 6 * (i + 1) implies bytes@[j] == rgb16_stream(
                    next,
                )[j] by {
                    if j < 6 * i {
                        assert(bytes@[j] == before[j]);
                        assert(done[j / 6] == next[j / 6]);
                    } else {
                        assert(j / 6 == i as int);
                        assert(next[i as int] == self.pixels@[i as int]);
                    }
                }
            }
            i = i + 1;
        }
        proof {
            assert(self.pixels@.take(n as int) =~= self.pixels@);
        }
        bytes
    }

    /// The image as a PNG file, at sixteen bits a channel.
    pub fn to_png(&self) -> (res: Result<Vec<u8>, EncodeError>)
        requires
            self.wf(),
        ensures
            match res {
                Ok(file) => encoded(
                    self.width_spec(),
                    self.height_spec(),
                    rgb16_stream(self.pixels()),
                ) == Ok::<Seq<u8>, EncodeError>(file@),
                Err(e) => encoded(
                    self.width_spec(),
                    self.height_spec(),
                    rgb16_stream(self.pixels()),
                ) == Err::<Seq<u8>, EncodeError>(e),
            },
            res != Err::<Vec<u8>, EncodeError>(EncodeError::BufferSize),
    {
        let data = self.to_rgb16();
        encode_rgb16(self.width, self.height, &data)
    }
}

/// A cell of the grid has its place in the row-major sequence.
proof fn lemma_index_in_grid(row: int, col: int, width: int, height: int)
    requires
        0 <= row < height,
        0 <= col < width,
    ensures
        0 <= row * width + col < width * height,
        0 <= row * width,
        width * height <= 6 * width * height,
{
    assert(width * height <= 6 * width * height) by (nonlinear_arith)
        requires
            0 < width,
            0 < height,
    ;
    assert(row * width + col < width * height) by (nonlinear_arith)
        requires
            0 <= row < height,
            0 <= col < width,
    ;
    assert(0 <= row * width) by (nonlinear_arith)
        requires
            0 <= row,
            0 <= width,
    ;
}

} // verus!
