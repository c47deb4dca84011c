//! Images of the `image` crate, as far as the library handles them.

use crate::version::OcrTask;
use vstd::prelude::*;

verus! {

/// A decoded image.
#[verifier::external_type_specification]
#[verifier::external_body]
pub struct ExDynamicImage(image::DynamicImage);

/// Width and height of an image, in pixels.
pub uninterp spec fn image_size(img: image::DynamicImage) -> (u32, u32);

/// Red, green and blue bytes of an image, row by row.
pub uninterp spec fn image_rgb(img: image::DynamicImage) -> Seq<u8>;

/// `image::DynamicImage::width`: the width of the pixel buffer.
pub assume_specification[ image::DynamicImage::width ](img: &image::DynamicImage) -> (width: u32)
    ensures
        width == image_size(*img).0,
;

/// `image::DynamicImage::height`: the height of the pixel buffer.
pub assume_specification[ image::DynamicImage::height ](img: &image::DynamicImage) -> (height: u32)
    ensures
        height == image_size(*img).1,
;

pub open spec fn less(a: int, b: int) -> int {
    if a <= b {
        a
    } else {
        b
    }
}

/// Extent of a crop of `extent` pixels from `start` on, within `whole` pixels.
pub open spec fn crop_extent(start: u32, extent: u32, whole: u32) -> int {
    less(extent as int, whole - less(start as int, whole as int))
}

/// Index of a color sample in a buffer of rows of `width` pixels.
pub open spec fn sample_index(x: int, y: int, channel: int, width: int) -> int {
    (y * width + x) * 3 + channel
}

/// `image::DynamicImage::crop_imm`: the part of the image from `(x, y)` on, cut
/// at the borders; every pixel of the result is the pixel at the same place.
pub assume_specification[ image::DynamicImage::crop_imm ](
    img: &image::DynamicImage,
    x: u32,
    y: u32,
    width: u32,
    height: u32,
) -> (part: image::DynamicImage)
    ensures
        image_size(part).0 == crop_extent(x, width, image_size(*img).0),
        image_size(part).1 == crop_extent(y, height, image_size(*img).1),
        forall|i: int, j: int, c: int|
            0 <= i < image_size(part).0 && 0 <= j < image_size(part).1 && 0 <= c < 3
                ==> #[trigger] image_rgb(part)[sample_index(i, j, c, image_size(part).0 as int)]
                == image_rgb(*img)[sample_index(x + i, y + j, c, image_size(*img).0 as int)],
;

/// `image::DynamicImage::to_rgb8`: the color bytes of the image, at least three
/// for every pixel.
#[verifier::external_body]
pub(crate) fn rgb_bytes(img: &image::DynamicImage) -> (rgb: Vec<u8>)
    ensures
        rgb@ == image_rgb(*img),
        rgb@.len() >= image_size(*img).0 * image_size(*img).1 * 3,
{
    img.to_rgb8().into_raw()
}

/// `scaled` is an image that resizing `img` with the Lanczos filter may give. The
/// filter is evaluated with the sine of the machine, so there may be several.
pub uninterp spec fn may_become(
    img: image::DynamicImage,
    width: u32,
    height: u32,
    scaled: image::DynamicImage,
) -> bool;

/// `image::DynamicImage::resize_exact` with the Lanczos filter: an image of the
/// given size that comes of resizing this one. Nothing is said of the pixels.
#[verifier::external_body]
fn resize_lanczos3(img: &image::DynamicImage, width: u32, height: u32) -> (scaled:
    image::DynamicImage)
    requires
        width <= 0x1000,
        height <= 0x1000,
        image_size(*img).0 <= 0x1000,
        image_size(*img).1 <= 0x1000,
    ensures
        image_size(scaled) == (width, height),
        may_become(*img, width, height, scaled),
{
    img.resize_exact(width, height, image::imageops::FilterType::Lanczos3)
}

/// Sides up to this length are resampled. A position along a side is a quotient and a
/// product in single precision, off by less than two parts in 2^24 of the side: less
/// than seven sixteenths of a pixel here. From half a pixel on, the kernel may be zero
/// for every pixel at an edge, and the weights have no sum to be divided by.
pub const LONGEST_SIDE: u32 = 0x38_0000;

/// A buffer of red, green and blue bytes, its size, and the size it is to take.
#[derive(Debug)]
pub struct Resampling {
    pub rgb: Vec<u8>,
    pub width: u32,
    pub height: u32,
    pub new_width: u32,
    pub new_height: u32,
}

impl Resampling {
    /// The buffer holds the pixels, and the sides can be resampled.
    pub open spec fn wf(self) -> bool {
        &&& self.rgb@.len() >= self.width * self.height * 3
        &&& self.width <= LONGEST_SIDE && self.height <= LONGEST_SIDE
        &&& self.new_width <= LONGEST_SIDE && self.new_height <= LONGEST_SIDE
        &&& self.new_width * self.new_height * 3 <= isize::MAX
        &&& self.width * self.new_height * 16 <= isize::MAX
    }
}

/// `scaled` is a buffer that resampling `rgb` with the Catmull-Rom filter may give.
/// The filter is evaluated in floating point whose last bits are the machine's, so
/// there may be several.
pub uninterp spec fn may_resample(
    rgb: Seq<u8>,
    width: u32,
    height: u32,
    new_width: u32,
    new_height: u32,
    scaled: Seq<u8>,
) -> bool;

/// `image::imageops::resize` with the Catmull-Rom filter on an RGB buffer: a buffer
/// that comes of resampling this one, with three bytes for every pixel of the new
/// size, and a copy where the size stays. Nothing more is said of the bytes. On
/// longer sides a position may be off by half a pixel, and a pixel of the result
/// without weights.
#[verifier::external_body]
pub(crate) fn resize_catmull_rom(from: &Resampling) -> (scaled: Vec<u8>)
    requires
        from.wf(),
    ensures
        scaled@.len() == from.new_width * from.new_height * 3,
        may_resample(
            from.rgb@,
            from.width,
            from.height,
            from.new_width,
            from.new_height,
            scaled@,
        ),
        from.new_width == from.width && from.new_height == from.height ==> scaled@
            == from.rgb@.take(from.width * from.height * 3),
{
    let source = image::RgbImage::from_raw(from.width, from.height, from.rgb.clone()).unwrap();
    let filter = image::imageops::FilterType::CatmullRom;
    image::imageops::resize(&source, from.new_width, from.new_height, filter).into_vec()
}

/// Sides below this length are doubled before text is spotted.
pub const SPOTTING_UPSCALE_THRESHOLD: u32 = 1_500;

/// Whether an image is doubled before the task.
pub open spec fn upscaled_for(size: (u32, u32), task: OcrTask) -> bool {
    task == OcrTask::Spotting && size.0 < SPOTTING_UPSCALE_THRESHOLD && size.1
        < SPOTTING_UPSCALE_THRESHOLD
}

/// Doubles a small image for text spotting and leaves every other one as it is.
pub fn prepare_image_for_task(img: image::DynamicImage, task: OcrTask) -> (prepared:
    image::DynamicImage)
    ensures
        upscaled_for(image_size(img), task) ==> image_size(prepared) == (
            (2 * image_size(img).0) as u32,
            (2 * image_size(img).1) as u32,
        ) && may_become(
            img,
            (2 * image_size(img).0) as u32,
            (2 * image_size(img).1) as u32,
            prepared,
        ),
        !upscaled_for(image_size(img), task) ==> prepared == img,
{
    let width: u32 = img.width();
    let height: u32 = img.height();
    if task.is_spotting() && width < SPOTTING_UPSCALE_THRESHOLD && height
        < SPOTTING_UPSCALE_THRESHOLD {
        return resize_lanczos3(&img, width * 2, height * 2);
    }
    img
}

} // verus!
