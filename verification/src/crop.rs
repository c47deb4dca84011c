//! Cutting blocks out of a page, and block corners in whole pixels.

use crate::float::F32;
use crate::picture;
use crate::precision::{denom, numer};
use crate::rounding;
use crate::rounding::SINGLE;
use vstd::prelude::*;

verus! {

/// Corners that bound no pixel.
#[derive(Clone, Copy, Debug)]
pub struct CropError {
    pub bbox: [F32; 4],
}

/// `n` rounded to single precision.
pub open spec fn single(n: u32) -> u64 {
    rounding::capped(rounding::floor(rounding::nearest(n as nat, 1, 24)))
}

fn single_of(n: u32) -> (x: u64)
    ensures
        x == single(n),
{
    rounding::floor_of(rounding::from_integer(n as u64, SINGLE))
}

/// The 32-bit number nearest to `n`.
pub open spec fn saturated(n: u64) -> u32 {
    if n <= u32::MAX {
        n as u32
    } else {
        u32::MAX
    }
}

fn saturate(n: u64) -> (x: u32)
    ensures
        x == saturated(n),
{
    if n <= u32::MAX as u64 {
        n as u32
    } else {
        u32::MAX
    }
}

pub open spec fn at_most(a: u64, b: u64) -> u64 {
    if a <= b {
        a
    } else {
        b
    }
}

/// First pixel of a block whose edge is at `x`, on a side of `extent` pixels. The
/// last pixel of the side is taken in single precision.
pub open spec fn first_pixel(x: F32, extent: u32) -> u32 {
    let last = if extent == 0 {
        0u32
    } else {
        (extent - 1) as u32
    };
    saturated(at_most(rounding::capped(x.floor()), single(last)))
}

/// The pixel behind a block that starts at `first` and whose edge is at `x`; 0
/// where `x` is not a number.
pub open spec fn end_pixel(x: F32, first: u32, extent: u32) -> u32 {
    if !x.is_number() {
        0
    } else {
        let least = single((first + 1) as u32);
        let end = rounding::capped(x.ceiling());
        saturated(
            if end < least {
                least
            } else {
                at_most(end, single(extent))
            },
        )
    }
}

/// Whether a side of `extent` pixels has a pixel behind the first pixel of a
/// block, all in single precision.
pub open spec fn side_fits(x: F32, extent: u32) -> bool {
    &&& first_pixel(x, extent) < u32::MAX
    &&& single((first_pixel(x, extent) + 1) as u32) <= single(extent)
}

/// Whether a block can be placed on a page of the given size. On a page without
/// pixels none can.
pub open spec fn crop_fits(size: (u32, u32), bbox: [F32; 4]) -> bool {
    side_fits(bbox@[0], size.0) && side_fits(bbox@[1], size.1)
}

/// Left, top, right and bottom of the pixels of a block.
pub open spec fn crop_edges(size: (u32, u32), bbox: [F32; 4]) -> (u32, u32, u32, u32) {
    let left = first_pixel(bbox@[0], size.0);
    let top = first_pixel(bbox@[1], size.1);
    (left, top, end_pixel(bbox@[2], left, size.0), end_pixel(bbox@[3], top, size.1))
}

/// Whether the pixels of a block are none.
pub open spec fn is_void(edges: (u32, u32, u32, u32)) -> bool {
    edges.2 <= edges.0 || edges.3 <= edges.1
}

/// `part` shows the pixels of `img` within `edges`.
pub open spec fn shows(
    part: image::DynamicImage,
    img: image::DynamicImage,
    edges: (u32, u32, u32, u32),
) -> bool {
    &&& picture::image_size(part).0 == picture::crop_extent(
        edges.0,
        (edges.2 - edges.0) as u32,
        picture::image_size(img).0,
    )
    &&& picture::image_size(part).1 == picture::crop_extent(
        edges.1,
        (edges.3 - edges.1) as u32,
        picture::image_size(img).1,
    )
    &&& forall|i: int, j: int, c: int|
        0 <= i < picture::image_size(part).0 && 0 <= j < picture::image_size(part).1 && 0 <= c < 3
            ==> #[trigger] picture::image_rgb(part)[picture::sample_index(
            i,
            j,
            c,
            picture::image_size(part).0 as int,
        )] == picture::image_rgb(img)[picture::sample_index(
            edges.0 + i,
            edges.1 + j,
            c,
            picture::image_size(img).0 as int,
        )]
}

fn first_pixel_of(x: F32, extent: u32) -> (first: u32)
    ensures
        first == first_pixel(x, extent),
{
    let last: u32 = if extent == 0 {
        0
    } else {
        extent - 1
    };
    let floor: u64 = x.floor_of();
    let bound: u64 = single_of(last);
    if floor <= bound {
        saturate(floor)
    } else {
        saturate(bound)
    }
}

fn end_pixel_of(x: F32, first: u32, extent: u32) -> (end: u32)
    requires
        first < u32::MAX,
    ensures
        end == end_pixel(x, first, extent),
{
    if !x.number() {
        return 0;
    }
    let least: u64 = single_of(first + 1);
    let end: u64 = x.ceiling_of();
    let bound: u64 = single_of(extent);
    if end < least {
        saturate(least)
    } else if end <= bound {
        saturate(end)
    } else {
        saturate(bound)
    }
}

fn side_can_fit(x: F32, extent: u32) -> (fits: bool)
    ensures
        fits == side_fits(x, extent),
{
    let first: u32 = first_pixel_of(x, extent);
    first < u32::MAX && single_of(first + 1) <= single_of(extent)
}

/// Whether `crop_bbox` can place a block on a page of the given size.
pub fn can_crop(width: u32, height: u32, bbox: &[F32; 4]) -> (fits: bool)
    ensures
        fits == crop_fits((width, height), *bbox),
{
    side_can_fit(bbox[0], width) && side_can_fit(bbox[1], height)
}

/// Cuts a block out of a page.
pub fn crop_bbox(image: &image::DynamicImage, bbox: [F32; 4]) -> (part: Result<
    image::DynamicImage,
    CropError,
>)
    requires
        crop_fits(picture::image_size(*image), bbox),
    ensures
        part is Err <==> is_void(crop_edges(picture::image_size(*image), bbox)),
        part is Err ==> part->Err_0 == (CropError { bbox }),
        part is Ok ==> shows(
            part->Ok_0,
            *image,
            crop_edges(picture::image_size(*image), bbox),
        ),
{
    let width: u32 = image.width();
    let height: u32 = image.height();
    let left: u32 = first_pixel_of(bbox[0], width);
    let top: u32 = first_pixel_of(bbox[1], height);
    let right: u32 = end_pixel_of(bbox[2], left, width);
    let bottom: u32 = end_pixel_of(bbox[3], top, height);
    if right <= left || bottom <= top {
        return Err(CropError { bbox });
    }
    Ok(image.crop_imm(left, top, right - left, bottom - top))
}

/// Cuts a block out of a page; nothing where the page has no place for it.
pub fn checked_crop_bbox(image: &image::DynamicImage, bbox: [F32; 4]) -> (part: Option<
    Result<image::DynamicImage, CropError>,
>)
    ensures
        part is Some <==> crop_fits(picture::image_size(*image), bbox),
        part is Some ==> {
            let edges = crop_edges(picture::image_size(*image), bbox);
            &&& part->0 is Err <==> is_void(edges)
            &&& part->0 is Err ==> part->0->Err_0 == (CropError { bbox })
            &&& part->0 is Ok ==> shows(part->0->Ok_0, *image, edges)
        },
{
    if can_crop(image.width(), image.height(), &bbox) {
        Some(crop_bbox(image, bbox))
    } else {
        None
    }
}

/// Corner positions in whole pixels: nearest integers, halves up, and 0 for what
/// is negative or not a number.
pub open spec fn whole_pixels(bbox: [F32; 4]) -> Seq<u32> {
    bbox@.map_values(|x: F32| saturated(rounding::capped(x.nearest_integer())))
}

pub fn bbox_to_u32(bbox: [F32; 4]) -> (pixels: [u32; 4])
    ensures
        pixels@ == whole_pixels(bbox),
{
    let pixels: [u32; 4] = [
        saturate(bbox[0].nearest_of()),
        saturate(bbox[1].nearest_of()),
        saturate(bbox[2].nearest_of()),
        saturate(bbox[3].nearest_of()),
    ];
    assert(pixels@ == whole_pixels(bbox));
    pixels
}

/// A block that is not void lies on the page: on pages up to `2^24` pixels wide
/// and high, where every pixel position is a single-precision number, a block is
/// cut whole.
pub proof fn law_small_pages_fit(size: (u32, u32), bbox: [F32; 4])
    requires
        0 < size.0 <= 0x100_0000,
        0 < size.1 <= 0x100_0000,
    ensures
        crop_fits(size, bbox),
        ({
            let edges = crop_edges(size, bbox);
            &&& edges.0 < size.0
            &&& edges.1 < size.1
            &&& bbox@[2].is_number() ==> edges.0 < edges.2 <= size.0
            &&& bbox@[3].is_number() ==> edges.1 < edges.3 <= size.1
        }),
{
    lemma_side(bbox@[0], bbox@[2], size.0);
    lemma_side(bbox@[1], bbox@[3], size.1);
}

proof fn lemma_side(x: F32, y: F32, extent: u32)
    requires
        0 < extent <= 0x100_0000,
    ensures
        side_fits(x, extent),
        first_pixel(x, extent) < extent,
        y.is_number() ==> first_pixel(x, extent) < end_pixel(y, first_pixel(x, extent), extent)
            <= extent,
{
    rounding::lemma_small_integer_exact((extent - 1) as nat);
    rounding::lemma_small_integer_exact(extent as nat);
    rounding::lemma_small_integer_exact((first_pixel(x, extent) + 1) as nat);
}

/// On pages up to `2^24` pixels wide and high, a block is cut from the pixel that its
/// left and upper edges lie in to the one behind its right and lower edges, all on the
/// page, and of at least one pixel. An edge before the page is at its first pixel.
pub proof fn law_crops_reach_from_edge_to_edge(size: (u32, u32), bbox: [F32; 4])
    requires
        0 < size.0 <= 0x100_0000,
        0 < size.1 <= 0x100_0000,
        bbox@[2].is_number(),
        bbox@[3].is_number(),
    ensures
        ({
            let (left, top, right, bottom) = crop_edges(size, bbox);
            &&& bbox@[0].floor() < size.0 ==> left == bbox@[0].floor()
            &&& bbox@[0].floor() >= size.0 ==> left == size.0 - 1
            &&& bbox@[1].floor() < size.1 ==> top == bbox@[1].floor()
            &&& bbox@[1].floor() >= size.1 ==> top == size.1 - 1
            &&& left < bbox@[2].ceiling() <= size.0 ==> right == bbox@[2].ceiling()
            &&& bbox@[2].ceiling() <= left ==> right == left + 1
            &&& bbox@[2].ceiling() > size.0 ==> right == size.0
            &&& top < bbox@[3].ceiling() <= size.1 ==> bottom == bbox@[3].ceiling()
            &&& bbox@[3].ceiling() <= top ==> bottom == top + 1
            &&& bbox@[3].ceiling() > size.1 ==> bottom == size.1
        }),
{
    lemma_side(bbox@[0], bbox@[2], size.0);
    lemma_side(bbox@[1], bbox@[3], size.1);
    rounding::lemma_small_integer_exact((size.0 - 1) as nat);
    rounding::lemma_small_integer_exact(size.0 as nat);
    rounding::lemma_small_integer_exact((first_pixel(bbox@[0], size.0) + 1) as nat);
    rounding::lemma_small_integer_exact((size.1 - 1) as nat);
    rounding::lemma_small_integer_exact(size.1 as nat);
    rounding::lemma_small_integer_exact((first_pixel(bbox@[1], size.1) + 1) as nat);
}

/// A crop shows as many pixels as lie between its edges, each as it is on the page.
pub proof fn law_crops_show_the_pixels_of_the_page(
    part: image::DynamicImage,
    img: image::DynamicImage,
    edges: (u32, u32, u32, u32),
    x: int,
    y: int,
    channel: int,
)
    requires
        shows(part, img, edges),
        edges.0 < edges.2 <= picture::image_size(img).0,
        edges.1 < edges.3 <= picture::image_size(img).1,
        0 <= x < edges.2 - edges.0,
        0 <= y < edges.3 - edges.1,
        0 <= channel < 3,
    ensures
        picture::image_size(part).0 == edges.2 - edges.0,
        picture::image_size(part).1 == edges.3 - edges.1,
        picture::image_rgb(part)[(y * (edges.2 - edges.0) + x) * 3 + channel] == picture::image_rgb(
            img,
        )[((edges.1 + y) * picture::image_size(img).0 + edges.0 + x) * 3 + channel],
{
    let w = picture::image_size(part).0 as int;
    assert(picture::image_rgb(part)[picture::sample_index(x, y, channel, w)] == picture::image_rgb(
        img,
    )[picture::sample_index(
        edges.0 + x,
        edges.1 + y,
        channel,
        picture::image_size(img).0 as int,
    )]);
}

/// A block whose right or lower edge is no number shows nothing, and one whose edges are
/// numbers shows something, on pages up to `2^24` pixels wide and high.
pub proof fn law_blocks_with_edges_show_something(size: (u32, u32), bbox: [F32; 4])
    requires
        0 < size.0 <= 0x100_0000,
        0 < size.1 <= 0x100_0000,
    ensures
        is_void(crop_edges(size, bbox)) <==> !bbox@[2].is_number() || !bbox@[3].is_number(),
{
    law_small_pages_fit(size, bbox);
}

/// A corner that is not negative is at the pixel nearest to it, the greater one of two,
/// as far as 32 bits hold it, and any other corner is at the first pixel.
pub proof fn law_corners_are_at_the_nearest_pixel(bbox: [F32; 4], i: int)
    requires
        0 <= i < 4,
    ensures
        whole_pixels(bbox).len() == 4,
        !bbox@[i].is_number() || bbox@[i].is_negative() ==> whole_pixels(bbox)[i] == 0,
        bbox@[i].is_number() && !bbox@[i].is_negative() && whole_pixels(bbox)[i] < u32::MAX ==> (2
            * whole_pixels(bbox)[i] - 1) * denom(bbox@[i].size()) <= 2 * numer(bbox@[i].size())
            < (2 * whole_pixels(bbox)[i] + 1) * denom(bbox@[i].size()),
{
    if bbox@[i].is_number() && !bbox@[i].is_negative() {
        bbox@[i].law_numbers_lie_between_integers();
        assert(whole_pixels(bbox)[i] == saturated(rounding::capped(bbox@[i].nearest_integer())));
    }
}

} // verus!
