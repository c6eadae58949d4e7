//! Images as rows of pixels, and making them smaller.
//!
//! A pixel is four bytes: red, green, blue and opacity. The rows of an image
//! follow one another from the top, each from the left.

use crate::textures::resized;
use vstd::prelude::*;

verus! {

/// Number of bytes of a pixel.
pub const CHANNELS: usize = 4;

/// An image.
#[derive(Clone, Debug, PartialEq, Eq)]
pub struct RgbaImage {
    pub width: u32,
    pub height: u32,
    pub pixels: Vec<u8>,
}

/// An `RgbaImage` as a mathematical value.
pub struct RgbaImageView {
    pub width: u32,
    pub height: u32,
    pub pixels: Seq<u8>,
}

impl View for RgbaImage {
    type V = RgbaImageView;

    open spec fn view(&self) -> RgbaImageView {
        RgbaImageView { width: self.width, height: self.height, pixels: self.pixels@ }
    }
}

impl RgbaImageView {
    /// The image has as many bytes as its size asks for.
    pub open spec fn wf(self) -> bool {
        self.pixels.len() == CHANNELS * self.width * self.height
    }

    /// The place of channel `c` of the pixel in column `x` of row `y`.
    pub open spec fn index(self, x: int, y: int, c: int) -> int {
        CHANNELS * (y * self.width + x) + c
    }

    /// Channel `c` of the pixel in column `x` of row `y`.
    pub open spec fn channel(self, x: int, y: int, c: int) -> u8 {
        self.pixels[self.index(x, y, c)]
    }

    /// Channel `c` of the pixel in column `x` of row `y` of the image at half
    /// the size: the mean, rounded down, over the four pixels that it
    /// stands for.
    pub open spec fn mean(self, x: int, y: int, c: int) -> u8 {
        ((self.channel(2 * x, 2 * y, c) + self.channel(2 * x + 1, 2 * y, c) + self.channel(
            2 * x,
            2 * y + 1,
            c,
        ) + self.channel(2 * x + 1, 2 * y + 1, c)) / 4) as u8
    }

    /// The image at half the size, sides rounded down.
    pub open spec fn halved(self) -> RgbaImageView {
        let width = self.width / 2;
        let height = self.height / 2;
        RgbaImageView {
            width,
            height,
            pixels: Seq::new(
                (CHANNELS * width * height) as nat,
                |i: int| self.mean((i / 4) % (width as int), (i / 4) / (width as int), i % 4),
            ),
        }
    }

    /// The image halved, again and again, until neither side is longer than
    /// `max_size`.
    pub open spec fn resized(self, max_size: u32) -> RgbaImageView
        decreases self.width + self.height,
    {
        if self.width > max_size || self.height > max_size {
            self.halved().resized(max_size)
        } else {
            self
        }
    }
}

/// The bytes of a pixel lie within the image.
proof fn lemma_index_in_bounds(width: int, height: int, x: int, y: int, c: int)
    requires
        0 <= x < width,
        0 <= y < height,
        0 <= c < 4,
    ensures
        0 <= y * width,
        0 <= 4 * (y * width + x) + c < 4 * width * height,
        y * width + x < width * height,
{
    assert(0 <= y * width) by (nonlinear_arith)
        requires
            0 <= y,
            0 <= width,
    ;
    assert(y * width + width <= height * width) by (nonlinear_arith)
        requires
            y + 1 <= height,
            0 <= width,
    ;
    assert(height * width == width * height) by (nonlinear_arith);
    assert(4 * width * height == 4 * (width * height)) by (nonlinear_arith);
}

/// A place in the rows of an image is that of one pixel.
proof fn lemma_place(count: int, width: int, x: int, y: int)
    requires
        0 <= x < width,
        0 <= y,
        count == y * width + x,
    ensures
        count % width == x,
        count / width == y,
{
    assert(count % width == x && count / width == y) by (nonlinear_arith)
        requires
            0 <= x < width,
            0 <= y,
            count == y * width + x,
    ;
}

impl RgbaImage {
    /// Channel `c` of the pixel in column `x` of row `y`.
    fn get(&self, x: u32, y: u32, c: usize) -> (value: u8)
        requires
            self@.wf(),
            x < self.width,
            y < self.height,
            c < CHANNELS,
        ensures
            value == self@.channel(x as int, y as int, c as int),
    {
        let len = self.pixels.len();
        proof {
            lemma_index_in_bounds(self.width as int, self.height as int, x as int, y as int, c as int);
            assert(4 * self.width * self.height == len);
            assert(y * self.width + x < len);
            assert(y * self.width <= y * self.width + x);
        }
        let place: usize = y as usize * self.width as usize + x as usize;
        self.pixels[CHANNELS * place + c]
    }

    /// Whether the image has as many bytes as its size asks for.
    pub fn is_whole(&self) -> (whole: bool)
        ensures
            whole == self@.wf(),
    {
        let width = self.width as u128;
        let height = self.height as u128;
        assert(width * height <= 0xFFFF_FFFF * 0xFFFF_FFFF) by (nonlinear_arith)
            requires
                0 <= width <= 0xFFFF_FFFF,
                0 <= height <= 0xFFFF_FFFF,
        ;
        assert(4 * self.width * self.height == 4 * (width * height)) by (nonlinear_arith)
            requires
                width == self.width,
                height == self.height,
        ;
        self.pixels.len() as u128 == 4 * (width * height)
    }
}

/// The image at half the size: each pixel is the mean of the four pixels
/// that it stands for. A last odd column or row is left out.
pub fn half_image(img: &RgbaImage) -> (half: RgbaImage)
    requires
        img@.wf(),
    ensures
        half@ == img@.halved(),
        half@.wf(),
{
    let width = img.width / 2;
    let height = img.height / 2;
    let ghost w = width as int;
    let ghost h = height as int;
    let mut pixels: Vec<u8> = Vec::new();
    let mut y: u32 = 0;
    proof {
        assert(0 * w == 0) by (nonlinear_arith);
    }
    while y < height
        invariant
            y <= height,
            img@.wf(),
            width == img.width / 2,
            height == img.height / 2,
            w == width,
            h == height,
            pixels@.len() == 4 * (y * w),
            forall|i: int| 0 <= i < pixels@.len() ==> pixels@[i] == img@.halved().pixels[i],
            4 * w * h == img@.halved().pixels.len(),
        decreases height - y,
    {
        let mut x: u32 = 0;
        while x < width
            invariant
                x <= width,
                y < height,
                img@.wf(),
                width == img.width / 2,
                height == img.height / 2,
                w == width,
                h == height,
                pixels@.len() == 4 * (y * w + x),
                forall|i: int| 0 <= i < pixels@.len() ==> pixels@[i] == img@.halved().pixels[i],
                4 * w * h == img@.halved().pixels.len(),
            decreases width - x,
        {
            let mut c: usize = 0;
            while c < CHANNELS
                invariant
                    c <= CHANNELS,
                    x < width,
                    y < height,
                    img@.wf(),
                    width == img.width / 2,
                    height == img.height / 2,
                    w == width,
                    h == height,
                    pixels@.len() == 4 * (y * w + x) + c,
                    forall|i: int|
                        0 <= i < pixels@.len() ==> pixels@[i] == img@.halved().pixels[i],
                    4 * w * h == img@.halved().pixels.len(),
                decreases CHANNELS - c,
            {
                let sum: u32 = img.get(2 * x, 2 * y, c) as u32 + img.get(2 * x + 1, 2 * y, c) as u32
                    + img.get(2 * x, 2 * y + 1, c) as u32 + img.get(2 * x + 1, 2 * y + 1, c) as u32;
                proof {
                    let i = pixels@.len() as int;
                    lemma_index_in_bounds(w, h, x as int, y as int, c as int);
                    lemma_place(y * w + x, w, x as int, y as int);
                    assert(i / 4 == y * w + x);
                    assert(i % 4 == c);
                    assert(img@.halved().pixels[i] == img@.mean(x as int, y as int, c as int));
                }
                pixels.push((sum / 4) as u8);
                c = c + 1;
            }
            x = x + 1;
        }
        proof {
            assert(4 * (y * w + w) == 4 * ((y + 1) * w)) by (nonlinear_arith);
        }
        y = y + 1;
    }
    proof {
        assert(4 * (h * w) == 4 * w * h) by (nonlinear_arith);
    }
    let half = RgbaImage { width, height, pixels };
    assert(half@.pixels =~= img@.halved().pixels);
    half
}

/// The image halved, again and again, until neither side is longer than
/// `max_size`.
pub fn resize_image(img: RgbaImage, max_size: u32) -> (small: RgbaImage)
    requires
        img@.wf(),
    ensures
        small@ == img@.resized(max_size),
        small@.wf(),
        (small.width, small.height) == resized(img.width, img.height, max_size),
        small.width <= max_size,
        small.height <= max_size,
{
    let mut img = img;
    let ghost start = img@;
    while img.width > max_size || img.height > max_size
        invariant
            img@.wf(),
            img@.resized(max_size) == start.resized(max_size),
            resized(img.width, img.height, max_size) == resized(start.width, start.height, max_size),
        decreases img.width + img.height,
    {
        img = half_image(&img);
    }
    img
}

impl RgbaImageView {
    /// The image turned by a quarter to the right: its rows become its
    /// columns, the top row the rightmost column.
    pub open spec fn turned(self) -> RgbaImageView {
        let width = self.height;
        let height = self.width;
        RgbaImageView {
            width,
            height,
            pixels: Seq::new(
                (CHANNELS * width * height) as nat,
                |i: int|
                    self.channel(
                        (i / 4) / (width as int),
                        self.height - 1 - (i / 4) % (width as int),
                        i % 4,
                    ),
            ),
        }
    }
}

/// The image turned by a quarter to the right.
pub fn turn_image(img: &RgbaImage) -> (turned: RgbaImage)
    requires
        img@.wf(),
    ensures
        turned@ == img@.turned(),
        turned@.wf(),
{
    let width = img.height;
    let height = img.width;
    let ghost w = width as int;
    let ghost h = height as int;
    let mut pixels: Vec<u8> = Vec::new();
    let mut y: u32 = 0;
    proof {
        assert(0 * w == 0) by (nonlinear_arith);
    }
    while y < height
        invariant
            y <= height,
            img@.wf(),
            width == img.height,
            height == img.width,
            w == width,
            h == height,
            pixels@.len() == 4 * (y * w),
            forall|i: int| 0 <= i < pixels@.len() ==> pixels@[i] == img@.turned().pixels[i],
            4 * w * h == img@.turned().pixels.len(),
        decreases height - y,
    {
        let mut x: u32 = 0;
        while x < width
            invariant
                x <= width,
                y < height,
                img@.wf(),
                width == img.height,
                height == img.width,
                w == width,
                h == height,
                pixels@.len() == 4 * (y * w + x),
                forall|i: int| 0 <= i < pixels@.len() ==> pixels@[i] == img@.turned().pixels[i],
                4 * w * h == img@.turned().pixels.len(),
            decreases width - x,
        {
            let mut c: usize = 0;
            while c < CHANNELS
                invariant
                    c <= CHANNELS,
                    x < width,
                    y < height,
                    img@.wf(),
                    width == img.height,
                    height == img.width,
                    w == width,
                    h == height,
                    pixels@.len() == 4 * (y * w + x) + c,
                    forall|i: int|
                        0 <= i < pixels@.len() ==> pixels@[i] == img@.turned().pixels[i],
                    4 * w * h == img@.turned().pixels.len(),
                decreases CHANNELS - c,
            {
                let value = img.get(y, img.height - 1 - x, c);
                proof {
                    let i = pixels@.len() as int;
                    lemma_index_in_bounds(w, h, x as int, y as int, c as int);
                    lemma_place(y * w + x, w, x as int, y as int);
                    assert(i / 4 == y * w + x);
                    assert(i % 4 == c);
                }
                pixels.push(value);
                c = c + 1;
            }
            x = x + 1;
        }
        proof {
            assert(4 * (y * w + w) == 4 * ((y + 1) * w)) by (nonlinear_arith);
        }
        y = y + 1;
    }
    proof {
        assert(4 * (h * w) == 4 * w * h) by (nonlinear_arith);
    }
    let turned = RgbaImage { width, height, pixels };
    assert(turned@.pixels =~= img@.turned().pixels);
    turned
}

/// Reads the bytes of a file as an image.
///
/// This calls `image::ImageReader::with_guessed_format` and `decode`, and
/// `DynamicImage::to_rgba8` on what comes of it. Nothing is promised of what
/// comes back, not even that the same bytes are read as the same image: the
/// formats that are looked for and the decoders that read them can be
/// registered anew while the process runs, and a decoder may take the path
/// that suits the machine.
#[verifier::external_body]
pub(crate) fn decode_image(data: &[u8]) -> (image: Option<RgbaImage>) {
    let reader = image::ImageReader::new(std::io::Cursor::new(data)).with_guessed_format().ok()?;
    let pixels = reader.decode().ok()?.to_rgba8();
    Some(RgbaImage { width: pixels.width(), height: pixels.height(), pixels: pixels.into_raw() })
}

/// What was read, or not, as a mathematical value.
pub open spec fn image_view(image: Option<RgbaImage>) -> Option<RgbaImageView> {
    match image {
        Some(read) => Some(read@),
        None => None,
    }
}

/// The texture that is made of what the bytes of a file were read as: the
/// image, if there is one and it has all its pixels, made small enough for a
/// texture.
pub open spec fn texture_of(decoded: Option<RgbaImageView>, max_size: u32) -> Option<RgbaImageView> {
    match decoded {
        Some(image) => if image.wf() {
            Some(image.resized(max_size))
        } else {
            None
        },
        None => None,
    }
}

/// Makes a texture of what the bytes of a file were read as; see
/// `texture_of`.
pub fn texture_from(decoded: Option<RgbaImage>, max_size: u32) -> (image: Option<RgbaImage>)
    ensures
        image_view(image) == texture_of(image_view(decoded), max_size),
        image matches Some(read) ==> read@.wf() && read.width <= max_size && read.height
            <= max_size,
{
    match decoded {
        Some(image) => {
            if image.is_whole() {
                Some(resize_image(image, max_size))
            } else {
                None
            }
        },
        None => None,
    }
}

} // verus!
