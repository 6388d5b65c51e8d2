//! The image codec: source bytes in any format that the `image` crate reads are
//! decoded, brought to the requested extent, and written as an uncompressed
//! bitmap.

use image::{DynamicImage, GenericImageView, ImageError, ImageFormat};
use std::io::Cursor;
use vstd::prelude::*;
use crate::error::Error;

verus! {

#[verifier::external_type_specification]
#[verifier::external_body]
pub struct ExDynamicImage(image::DynamicImage);

#[verifier::external_type_specification]
#[verifier::external_body]
pub struct ExImageError(image::ImageError);

/// The image that `image::load_from_memory` reads from `raw`, or `None` where it
/// reports an error.
pub uninterp spec fn decoded(raw: Seq<u8>) -> Option<DynamicImage>;

/// Width and height of an image, in pixels, as `GenericImageView::dimensions`
/// gives them.
pub uninterp spec fn extent_of(pixels: DynamicImage) -> (u32, u32);

/// The image that `DynamicImage::thumbnail_exact` makes of `pixels` for the
/// extent `width` by `height`.
pub uninterp spec fn thumbnail_of(pixels: DynamicImage, width: u32, height: u32) -> DynamicImage;

/// The bytes that `DynamicImage::write_to` writes for `pixels` in the format
/// `ImageFormat::Bmp`, or `None` where it reports an error.
pub uninterp spec fn bitmap_of(pixels: DynamicImage) -> Option<Seq<u8>>;

/// What `DynamicImage::color` says of how an image holds a pixel: the number of
/// channels that `ColorType::channel_count` gives, and the number of bytes that
/// `ColorType::bytes_per_pixel` gives.
pub uninterp spec fn layout_of(pixels: DynamicImage) -> (u8, u8);

/// The bytes that a pixel of this layout takes in memory: what the layout says,
/// and the most that any image takes, sixteen, where it says none.
pub open spec fn pixel_bytes(layout: (u8, u8)) -> int {
    if layout.1 == 0 {
        16
    } else {
        layout.1 as int
    }
}

/// Whether the codec can allocate an image of this layout and extent: its bytes
/// must be countable in an `isize`, which is the most that a vector holds.
pub open spec fn resizable(layout: (u8, u8), width: u32, height: u32) -> bool {
    pixel_bytes(layout) * width * height <= isize::MAX
}

/// The largest value of a sample that the codec adds up in 32 bits when it
/// averages: 255 where a channel takes one byte, 65535 where it takes two, and
/// 0 where it takes four, which are floating-point samples that are added up in
/// floating point. A layout that is none of these counts as the worst, 65535.
pub open spec fn largest_sample(layout: (u8, u8)) -> int {
    if layout.0 > 0 && layout.1 == layout.0 {
        255
    } else if layout.0 > 0 && layout.1 == 4 * layout.0 {
        0
    } else {
        65535
    }
}

/// The most source pixels, along one side, that the codec averages into one
/// pixel when it brings a side of `source` pixels to `target` pixels. The
/// codec finds the two edges of a block in 32-bit floating point, one step of
/// `source / target` apart, and rounds each up: they are then at most
/// `source / target + 2` pixels apart, as long as `source` is a number that such
/// arithmetic holds exactly, one up to 2^24. A block is never more than the
/// whole side.
pub open spec fn block_side(source: u32, target: u32) -> int {
    if target == 0 || source > 0x100_0000 || source / target + 2 > source {
        source as int
    } else {
        source / target + 2
    }
}

/// Whether the codec can average an image of this layout and of the extent
/// `source` down or up to `width` by `height`. It adds the samples of a block up
/// in 32 bits, and one half of their count to round, and it counts the block in
/// 32 bits: both must fit. Nothing is added up where either extent is empty.
pub open spec fn averageable(
    layout: (u8, u8),
    source: (u32, u32),
    width: u32,
    height: u32,
) -> bool {
    let block = block_side(source.0, width) * block_side(source.1, height);
    width == 0 || height == 0 || source.0 == 0 || source.1 == 0 || (block <= u32::MAX && block
        * largest_sample(layout) + block / 2 <= u32::MAX)
}

/// How the bitmap writer lays out the rows of an image of one byte a channel:
/// the bytes that it writes for a pixel, the bytes that a pixel takes in the
/// image, and the bytes of its headers and palette. Gray is written as one byte
/// a pixel after a palette of 256 colours, with or without alpha in the image;
/// colour as three bytes, and colour with alpha as four after a longer header.
pub open spec fn bitmap_rows(channels: u8) -> Option<(int, int, int)> {
    if channels == 1 {
        Some((1, 1, 1078))
    } else if channels == 2 {
        Some((1, 2, 1078))
    } else if channels == 3 {
        Some((3, 3, 54))
    } else if channels == 4 {
        Some((4, 4, 122))
    } else {
        None
    }
}

/// The bytes that fill a row of `row` bytes up to a multiple of four.
pub open spec fn row_padding(row: int) -> int {
    (4 - row % 4) % 4
}

/// Whether the bitmap writer can work on an image of this layout and extent
/// without a number leaving 32 bits. An image of more than one byte a channel
/// is refused by the writer before it computes anything. For the others, the
/// bytes written for a row must fit. Where the bytes written for all rows fit,
/// so must the padding of all rows; where the whole file fits as well, the
/// writer goes through the image, and the place of the last pixel in it must
/// fit. Where one of these sizes does not fit, the writer reports an error:
/// that is no overflow.
pub open spec fn encodable(layout: (u8, u8), extent: (u32, u32)) -> bool {
    if layout.1 != layout.0 {
        true
    } else {
        match bitmap_rows(layout.0) {
            None => false,
            Some((written, stride, headers)) => {
                let row = written * extent.0;
                let body = row * extent.1;
                let padding = extent.1 * row_padding(row);
                &&& row <= u32::MAX
                &&& body <= u32::MAX ==> padding <= u32::MAX
                &&& body <= u32::MAX && headers + body + padding <= u32::MAX ==> stride * extent.0
                    <= u32::MAX && (extent.0 == 0 || extent.1 == 0 || stride * extent.0 * extent.1
                    - stride <= u32::MAX)
            },
        }
    }
}

/// `pixels` brought to `width` by `height`: itself where it has that extent
/// already, else its thumbnail of exactly that extent, where the codec can
/// allocate and average it.
pub open spec fn fitted(pixels: DynamicImage, width: u32, height: u32) -> Result<
    DynamicImage,
    Error,
> {
    if extent_of(pixels) == (width, height) {
        Ok(pixels)
    } else if !resizable(layout_of(pixels), width, height) || !averageable(
        layout_of(pixels),
        extent_of(pixels),
        width,
        height,
    ) {
        Err(Error::TooLarge)
    } else {
        Ok(thumbnail_of(pixels, width, height))
    }
}

/// `pixels` as an uncompressed bitmap.
pub open spec fn encoded(pixels: DynamicImage) -> Result<Seq<u8>, Error> {
    if !encodable(layout_of(pixels), extent_of(pixels)) {
        Err(Error::TooLarge)
    } else {
        match bitmap_of(pixels) {
            Some(bytes) => Ok(bytes),
            None => Err(Error::Encode),
        }
    }
}

/// What `decode_resize_encode` returns for `raw`, `width` and `height`.
pub open spec fn transcoded(raw: Seq<u8>, width: u32, height: u32) -> Result<Seq<u8>, Error> {
    match decoded(raw) {
        None => Err(Error::Decode),
        Some(pixels) => match fitted(pixels, width, height) {
            Err(e) => Err(e),
            Ok(sized) => encoded(sized),
        },
    }
}

/// `image::load_from_memory`: guesses the format from the first bytes of `raw`
/// and decodes it. The result is the image named `decoded(raw)`; an error of the
/// crate means that there is none.
#[verifier::external_body]
fn load_from_memory(raw: &[u8]) -> (loaded: Result<DynamicImage, ImageError>)
    ensures
        match loaded {
            Ok(pixels) => decoded(raw@) == Some(pixels),
            Err(_) => decoded(raw@) is None,
        },
{
    image::load_from_memory(raw)
}

/// `GenericImageView::dimensions` of a `DynamicImage`: its width and height.
#[verifier::external_body]
fn dimensions(pixels: &DynamicImage) -> (extent: (u32, u32))
    ensures
        extent == extent_of(*pixels),
{
    pixels.dimensions()
}

/// `DynamicImage::color`: the colour type of the image, handed out as the two
/// numbers that `ColorType::channel_count` and `ColorType::bytes_per_pixel`
/// give for it. Nothing is claimed of the numbers but that they are those.
#[verifier::external_body]
fn color_layout(pixels: &DynamicImage) -> (layout: (u8, u8))
    ensures
        layout == layout_of(*pixels),
{
    let color = pixels.color();
    (color.channel_count(), color.bytes_per_pixel())
}

/// `DynamicImage::thumbnail_exact`: a new image of exactly `width` by `height`,
/// whatever the aspect of `pixels`. It allocates a vector for `width * height`
/// pixels and panics where their bytes are more than a vector holds. It averages
/// blocks of source pixels with sums of 32 bits for samples of one and two
/// bytes, and counts a block in 32 bits, and panics where a sum or a count
/// overflows in a build that checks arithmetic. `requires` leaves both out.
#[verifier::external_body]
fn thumbnail_exact(pixels: &DynamicImage, width: u32, height: u32) -> (scaled: DynamicImage)
    requires
        resizable(layout_of(*pixels), width, height),
        averageable(layout_of(*pixels), extent_of(*pixels), width, height),
    ensures
        scaled == thumbnail_of(*pixels, width, height),
        extent_of(scaled) == (width, height),
{
    pixels.thumbnail_exact(width, height)
}

/// `DynamicImage::write_to` with `ImageFormat::Bmp`, into a buffer in memory.
/// The result holds the bytes named `bitmap_of(pixels)`; an error of the crate
/// means that there are none. The writer computes the bytes of a row, the
/// padding of all rows and the place of each pixel in 32 bits, and panics where
/// one overflows in a build that checks arithmetic: `requires` leaves out the
/// layouts and extents for which that happens.
#[verifier::external_body]
fn write_bitmap(pixels: &DynamicImage) -> (written: Result<Vec<u8>, ImageError>)
    requires
        encodable(layout_of(*pixels), extent_of(*pixels)),
    ensures
        match written {
            Ok(bytes) => bitmap_of(*pixels) == Some(bytes@),
            Err(_) => bitmap_of(*pixels) is None,
        },
{
    let mut out = Cursor::new(Vec::new());
    pixels.write_to(&mut out, ImageFormat::Bmp)?;
    Ok(out.into_inner())
}

/// Whether an image of extent `actual` has to be resized to be `width` by
/// `height`.
pub fn needs_resize(actual: (u32, u32), width: u32, height: u32) -> (needed: bool)
    ensures
        needed == (actual != (width, height)),
{
    actual.0 != width || actual.1 != height
}

/// Whether the codec can allocate an image of this layout, `width` by `height`.
pub fn can_resize_to(layout: (u8, u8), width: u32, height: u32) -> (possible: bool)
    ensures
        possible == resizable(layout, width, height),
{
    let bytes: u128 = if layout.1 == 0 {
        16
    } else {
        layout.1 as u128
    };
    let wide: u128 = width as u128;
    let high: u128 = height as u128;
    assert(bytes * wide <= 255 * 0xffff_ffff && bytes * wide * high <= 255 * 0xffff_ffff
        * 0xffff_ffff) by (nonlinear_arith)
        requires
            0 <= bytes <= 255,
            0 <= wide <= 0xffff_ffff,
            0 <= high <= 0xffff_ffff,
    ;
    assert(bytes * wide * high == pixel_bytes(layout) * width * height) by (nonlinear_arith)
        requires
            bytes == pixel_bytes(layout),
            wide == width,
            high == height,
    ;
    bytes * wide * high <= isize::MAX as u128
}

/// The most source pixels, along one side, that are averaged into one pixel.
fn block_of(source: u32, target: u32) -> (side: u32)
    ensures
        side == block_side(source, target),
        side <= source,
{
    if target == 0 || source > 0x100_0000 || source / target + 2 > source {
        source
    } else {
        source / target + 2
    }
}

/// Whether the codec can average an image of this layout and of the extent
/// `source` to `width` by `height`.
pub fn can_average(layout: (u8, u8), source: (u32, u32), width: u32, height: u32) -> (possible:
    bool)
    ensures
        possible == averageable(layout, source, width, height),
{
    if width == 0 || height == 0 || source.0 == 0 || source.1 == 0 {
        return true;
    }
    let largest: u128 = if layout.0 > 0 && layout.1 == layout.0 {
        255
    } else if layout.0 > 0 && layout.1 as u32 == 4 * (layout.0 as u32) {
        0
    } else {
        65535
    };
    let across: u128 = block_of(source.0, width) as u128;
    let down: u128 = block_of(source.1, height) as u128;
    assert(across * down <= 0xffff_ffff * 0xffff_ffff) by (nonlinear_arith)
        requires
            0 <= across <= 0xffff_ffff,
            0 <= down <= 0xffff_ffff,
    ;
    let block: u128 = across * down;
    assert(block * largest <= 0xffff_ffff * 0xffff_ffff * 65535) by (nonlinear_arith)
        requires
            0 <= block <= 0xffff_ffff * 0xffff_ffff,
            0 <= largest <= 65535,
    ;
    block <= 0xffff_ffff && block * largest + block / 2 <= 0xffff_ffff
}

/// Whether the bitmap writer can work on an image of this layout and extent.
pub fn can_encode(layout: (u8, u8), extent: (u32, u32)) -> (possible: bool)
    ensures
        possible == encodable(layout, extent),
{
    if layout.1 != layout.0 {
        return true;
    }
    if layout.0 == 0 || layout.0 > 4 {
        return false;
    }
    let written: u128 = if layout.0 <= 2 {
        1
    } else {
        layout.0 as u128
    };
    let stride: u128 = layout.0 as u128;
    let headers: u128 = if layout.0 <= 2 {
        1078
    } else if layout.0 == 3 {
        54
    } else {
        122
    };
    assert(bitmap_rows(layout.0) == Some((written as int, stride as int, headers as int)));
    let wide: u128 = extent.0 as u128;
    let high: u128 = extent.1 as u128;
    assert(written * wide <= 4 * 0xffff_ffff && written * wide * high <= 4 * 0xffff_ffff
        * 0xffff_ffff && stride * wide <= 4 * 0xffff_ffff && stride * wide * high <= 4
        * 0xffff_ffff * 0xffff_ffff) by (nonlinear_arith)
        requires
            0 <= written <= 4,
            0 <= stride <= 4,
            0 <= wide <= 0xffff_ffff,
            0 <= high <= 0xffff_ffff,
    ;
    let row: u128 = written * wide;
    let body: u128 = row * high;
    let fill: u128 = (4 - row % 4) % 4;
    assert(fill == row_padding(row as int));
    assert(high * fill <= 3 * 0xffff_ffff) by (nonlinear_arith)
        requires
            0 <= fill <= 3,
            0 <= high <= 0xffff_ffff,
    ;
    let padding: u128 = high * fill;
    if row > 0xffff_ffff {
        return false;
    }
    if body > 0xffff_ffff {
        return true;
    }
    if padding > 0xffff_ffff {
        return false;
    }
    if headers + body + padding > 0xffff_ffff {
        return true;
    }
    let last: u128 = stride * wide * high;
    assert(wide > 0 && high > 0 ==> last >= stride) by (nonlinear_arith)
        requires
            last == stride * wide * high,
            0 <= stride,
            0 <= wide,
            0 <= high,
    ;
    stride * wide <= 0xffff_ffff && (wide == 0 || high == 0 || last - stride <= 0xffff_ffff)
}

/// A decoded image.
pub struct Picture {
    pixels: DynamicImage,
}

impl Picture {
    /// The image inside.
    pub closed spec fn pixels(&self) -> DynamicImage {
        self.pixels
    }

    /// Width and height, in pixels.
    pub open spec fn spec_extent(&self) -> (u32, u32) {
        extent_of(self.pixels())
    }

    /// Decodes `raw`, guessing its format from its content. Fails with `Decode`
    /// exactly when the codec reads no image from `raw`.
    pub fn decode(raw: &[u8]) -> (picture: Result<Picture, Error>)
        ensures
            match picture {
                Ok(p) => decoded(raw@) == Some(p.pixels()),
                Err(e) => e == Error::Decode && decoded(raw@) is None,
            },
    {
        match load_from_memory(raw) {
            Ok(pixels) => Ok(Picture { pixels }),
            Err(_) => Err(Error::Decode),
        }
    }

    /// Width and height, in pixels.
    #[verifier::when_used_as_spec(spec_extent)]
    pub fn extent(&self) -> (extent: (u32, u32))
        ensures
            extent == self.spec_extent(),
    {
        dimensions(&self.pixels)
    }

    /// The channels of a pixel, and the bytes that a pixel takes.
    pub open spec fn spec_layout(&self) -> (u8, u8) {
        layout_of(self.pixels())
    }

    /// The channels of a pixel, and the bytes that a pixel takes.
    #[verifier::when_used_as_spec(spec_layout)]
    pub fn layout(&self) -> (layout: (u8, u8))
        ensures
            layout == self.spec_layout(),
    {
        color_layout(&self.pixels)
    }

    /// Brings the picture to exactly `width` by `height`. A picture of that
    /// extent is returned as it is; any other is resized without regard to its
    /// aspect. Fails with `TooLarge` exactly when a resize is needed and the
    /// codec cannot allocate that extent, or cannot average the picture to it
    /// within 32 bits. Whatever the picture was, the one returned has the
    /// extent asked for.
    pub fn fit(self, width: u32, height: u32) -> (sized: Result<Picture, Error>)
        ensures
            match sized {
                Ok(p) => fitted(self.pixels(), width, height) == Ok::<DynamicImage, Error>(
                    p.pixels(),
                ) && p.spec_extent() == (width, height),
                Err(e) => fitted(self.pixels(), width, height) == Err::<DynamicImage, Error>(e),
            },
    {
        let actual: (u32, u32) = self.extent();
        if !needs_resize(actual, width, height) {
            return Ok(self);
        }
        let layout: (u8, u8) = self.layout();
        if !can_resize_to(layout, width, height) || !can_average(layout, actual, width, height) {
            Err(Error::TooLarge)
        } else {
            Ok(Picture { pixels: thumbnail_exact(&self.pixels, width, height) })
        }
    }

    /// Writes the picture as an uncompressed bitmap. Fails with `TooLarge`
    /// exactly when the writer cannot lay the picture out within 32 bits, and
    /// with `Encode` exactly when the writer then reports an error.
    pub fn encode(&self) -> (bytes: Result<Vec<u8>, Error>)
        ensures
            match bytes {
                Ok(b) => encoded(self.pixels()) == Ok::<Seq<u8>, Error>(b@),
                Err(e) => encoded(self.pixels()) == Err::<Seq<u8>, Error>(e),
            },
    {
        if !can_encode(self.layout(), self.extent()) {
            return Err(Error::TooLarge);
        }
        match write_bitmap(&self.pixels) {
            Ok(bytes) => Ok(bytes),
            Err(_) => Err(Error::Encode),
        }
    }
}

/// Decodes `raw`, resizes the image to `width` by `height` unless it has that
/// extent already, and returns it as an uncompressed bitmap. A bitmap that is
/// returned is that of an image of exactly the extent asked for.
pub fn decode_resize_encode(raw: &[u8], width: u32, height: u32) -> (bytes: Result<Vec<u8>, Error>)
    ensures
        match bytes {
            Ok(b) => transcoded(raw@, width, height) == Ok::<Seq<u8>, Error>(b@),
            Err(e) => transcoded(raw@, width, height) == Err::<Seq<u8>, Error>(e),
        },
        bytes matches Ok(b) ==> exists|sized: DynamicImage|
            extent_of(sized) == (width, height) && #[trigger] encoded(sized) == Ok::<
                Seq<u8>,
                Error,
            >(b@),
{
    let picture: Picture = match Picture::decode(raw) {
        Ok(p) => p,
        Err(e) => {
            return Err(e);
        },
    };
    let sized: Picture = match picture.fit(width, height) {
        Ok(p) => p,
        Err(e) => {
            return Err(e);
        },
    };
    let bytes = sized.encode();
    proof {
        if bytes is Ok {
            assert(extent_of(sized.pixels()) == (width, height));
            assert(encoded(sized.pixels()) == Ok::<Seq<u8>, Error>(bytes->Ok_0@));
        }
    }
    bytes
}

} // verus!
