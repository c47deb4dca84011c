//! Cutting a resized image into the patches that the vision encoder reads.

use crate::config::PaddleOcrCfg;
use crate::picture;
use crate::picture::Resampling;
use crate::resize;
use crate::resize::ResizeError;
use vstd::arithmetic::div_mod::*;
use vstd::prelude::*;

verus! {

/// Why an image cannot be cut into patches.
#[derive(Clone, Copy, Debug, PartialEq, Eq, Structural)]
pub enum PreprocessError {
    /// Only one frame per patch is supported.
    TemporalPatchSize,
    /// The sides of the image are too unequal.
    Aspect(ResizeError),
}

/// Patches of an image: `image_grid_hw[0]` rows of `image_grid_hw[1]` patches,
/// each of three channels of `patch_size` rows of `patch_size` bytes.
#[derive(Debug)]
pub struct ImageOutput {
    pub patches: Vec<u8>,
    pub image_grid_hw: [usize; 2],
}

/// Index of the color byte that becomes byte `i` of the patches of an image with
/// `columns` patches in a row.
pub open spec fn patch_source(i: int, columns: int, size: int) -> int {
    let x = i % size;
    let y = i / size % size;
    let channel = i / size / size % 3;
    let patch = i / size / size / 3;
    let column = patch % columns;
    let row = patch / columns;
    picture::sample_index(column * size + x, row * size + y, channel, columns * size)
}

/// Number of bytes in all patches.
pub open spec fn patch_bytes(rows: int, columns: int, size: int) -> int {
    rows * columns * 3 * size * size
}

/// The bytes of an image in the order of its patches.
pub open spec fn in_patches(rgb: Seq<u8>, rows: int, columns: int, size: int) -> Seq<u8> {
    Seq::new(
        patch_bytes(rows, columns, size) as nat,
        |i: int| rgb[patch_source(i, columns, size)],
    )
}

proof fn lemma_div_bound(i: int, a: int, b: int)
    requires
        0 <= i < a * b,
        b > 0,
    ensures
        0 <= i / b < a,
        0 <= i % b < b,
{
    lemma_fundamental_div_mod(i, b);
    let q = i / b;
    let r = i % b;
    assert(0 <= r < b && q >= 0) by (nonlinear_arith)
        requires
            i >= 0,
            b > 0,
            q == i / b,
            r == i % b,
    ;
    assert(q < a) by (nonlinear_arith)
        requires
            b * q + r < a * b,
            r >= 0,
            b > 0,
    ;
}

proof fn lemma_patch_source(i: int, rows: int, columns: int, size: int)
    requires
        0 <= i < patch_bytes(rows, columns, size),
        rows >= 0,
        columns >= 0,
        size >= 0,
    ensures
        size > 0,
        columns > 0,
        rows > 0,
        0 <= patch_source(i, columns, size) < rows * size * (columns * size) * 3,
{
    assert(size > 0 && columns > 0 && rows > 0) by (nonlinear_arith)
        requires
            0 < rows * columns * 3 * size * size,
            rows >= 0,
            columns >= 0,
            size >= 0,
    ;
    lemma_div_bound(i, rows * columns * 3 * size, size);
    let i1 = i / size;
    lemma_div_bound(i1, rows * columns * 3, size);
    let i2 = i1 / size;
    lemma_div_bound(i2, rows * columns, 3);
    let patch = i2 / 3;
    lemma_div_bound(patch, rows, columns);
    let column = patch % columns;
    let row = patch / columns;
    let x = i % size;
    let y = i1 % size;
    let c = i2 % 3;
    lemma_mod_bound(i2, 3);
    let px = column * size + x;
    let py = row * size + y;
    let width = columns * size;
    let height = rows * size;
    assert(0 <= px < width) by (nonlinear_arith)
        requires
            px == column * size + x,
            width == columns * size,
            0 <= column < columns,
            0 <= x < size,
    ;
    assert(0 <= py < height) by (nonlinear_arith)
        requires
            py == row * size + y,
            height == rows * size,
            0 <= row < rows,
            0 <= y < size,
    ;
    assert(0 <= (py * width + px) * 3 + c < height * width * 3) by (nonlinear_arith)
        requires
            0 <= px < width,
            0 <= py < height,
            0 <= c < 3,
    ;
}

/// Orders the bytes of an image of `rows * columns` patches by patch, channel,
/// row and column.
pub fn cut_patches(rgb: &Vec<u8>, rows: usize, columns: usize, size: usize) -> (patches: Vec<u8>)
    requires
        rgb@.len() >= rows * size * (columns * size) * 3,
    ensures
        patches@ == in_patches(rgb@, rows as int, columns as int, size as int),
{
    let mut patches: Vec<u8> = Vec::new();
    let ghost all = in_patches(rgb@, rows as int, columns as int, size as int);
    if rows == 0 || columns == 0 || size == 0 {
        proof {
            assert(rows * columns * 3 * size * size == 0) by (nonlinear_arith)
                requires
                    rows == 0 || columns == 0 || size == 0,
            ;
            assert(all == patches@);
        }
        return patches;
    }
    let available: usize = rgb.len();
    proof {
        let n = patch_bytes(rows as int, columns as int, size as int);
        assert(n == rows * size * (columns * size) * 3) by (nonlinear_arith)
            requires
                n == rows * columns * 3 * size * size,
        ;
        lemma_factor_bounds(rows as int, columns as int, size as int, n);
    }
    let width: usize = columns * size;
    let in_row: usize = columns * 3 * size * size;
    let total: usize = rows * in_row;
    proof {
        assert(total == patch_bytes(rows as int, columns as int, size as int)) by (nonlinear_arith)
            requires
                total == rows * in_row,
                in_row == columns * 3 * size * size,
        ;
    }
    let mut i: usize = 0;
    assert(all.take(0) == patches@);
    while i < total
        invariant
            i <= total,
            total == patch_bytes(rows as int, columns as int, size as int),
            rows > 0,
            columns > 0,
            size > 0,
            width == columns * size,
            available == rgb@.len(),
            rgb@.len() >= rows * size * (columns * size) * 3,
            all == in_patches(rgb@, rows as int, columns as int, size as int),
            patches@ == all.take(i as int),
        decreases total - i,
    {
        proof {
            lemma_patch_source(i as int, rows as int, columns as int, size as int);
            lemma_source_parts(i as int, rows as int, columns as int, size as int);
        }
        let x: usize = i % size;
        let rest1: usize = i / size;
        let y: usize = rest1 % size;
        let rest2: usize = rest1 / size;
        let channel: usize = rest2 % 3;
        let patch: usize = rest2 / 3;
        let column: usize = patch % columns;
        let row: usize = patch / columns;
        let px: usize = column * size + x;
        let py: usize = row * size + y;
        let source: usize = (py * width + px) * 3 + channel;
        assert(source == patch_source(i as int, columns as int, size as int));
        patches.push(rgb[source]);
        i = i + 1;
        assert(patches@ == all.take(i as int));
    }
    assert(all.take(total as int) == all);
    patches
}

/// No factor of a positive product exceeds it.
proof fn lemma_factor_bounds(rows: int, columns: int, size: int, n: int)
    requires
        rows > 0,
        columns > 0,
        size > 0,
        n == rows * columns * 3 * size * size,
    ensures
        columns * size <= n,
        0 < columns * 3 <= n,
        0 < columns * 3 * size <= n,
        0 < columns * 3 * size * size <= n,
        n == rows * (columns * 3 * size * size),
{
    let a = columns * 3;
    let b = a * size;
    let c = b * size;
    assert(a >= 3) by (nonlinear_arith)
        requires
            a == columns * 3,
            columns > 0,
    ;
    assert(b >= a && b >= columns * size) by (nonlinear_arith)
        requires
            b == a * size,
            a == columns * 3,
            size > 0,
            columns > 0,
    ;
    assert(c >= b) by (nonlinear_arith)
        requires
            c == b * size,
            size > 0,
            b > 0,
    ;
    assert(n == rows * c) by (nonlinear_arith)
        requires
            n == rows * columns * 3 * size * size,
            c == columns * 3 * size * size,
    ;
    assert(rows * c >= c) by (nonlinear_arith)
        requires
            rows > 0,
            c > 0,
    ;
}

/// Every step of the source index stays below the end of the buffer.
proof fn lemma_source_parts(i: int, rows: int, columns: int, size: int)
    requires
        0 <= i < patch_bytes(rows, columns, size),
        rows > 0,
        columns > 0,
        size > 0,
    ensures
        ({
            let patch = i / size / size / 3;
            let column = patch % columns;
            let row = patch / columns;
            let px = column * size + i % size;
            let py = row * size + i / size % size;
            let width = columns * size;
            let bound = rows * size * (columns * size) * 3;
            &&& 0 <= column * size <= bound
            &&& 0 <= px <= bound
            &&& 0 <= row * size <= bound
            &&& 0 <= py <= bound
            &&& 0 <= py * width <= bound
            &&& 0 <= py * width + px <= bound
            &&& 0 <= (py * width + px) * 3 <= bound
        }),
{
    lemma_patch_source(i, rows, columns, size);
    lemma_div_bound(i, rows * columns * 3 * size, size);
    lemma_div_bound(i / size, rows * columns * 3, size);
    lemma_div_bound(i / size / size, rows * columns, 3);
    let patch = i / size / size / 3;
    lemma_div_bound(patch, rows, columns);
    let column = patch % columns;
    let row = patch / columns;
    let x = i % size;
    let y = i / size % size;
    let cs = column * size;
    let rs = row * size;
    let px = cs + x;
    let py = rs + y;
    let width = columns * size;
    let bound = rows * size * (columns * size) * 3;
    assert(cs >= 0 && rs >= 0) by (nonlinear_arith)
        requires
            cs == column * size,
            rs == row * size,
            column >= 0,
            row >= 0,
            size > 0,
    ;
    assert(width >= 1) by (nonlinear_arith)
        requires
            width == columns * size,
            columns > 0,
            size > 0,
    ;
    let z = py * width;
    assert(z >= py) by (nonlinear_arith)
        requires
            z == py * width,
            py >= 0,
            width >= 1,
    ;
}

/// Height and width of an image once resized, where the machine holds every
/// number on the way.
pub open spec fn target_size(size: (u32, u32), cfg: PaddleOcrCfg) -> Option<
    Result<(int, int), ResizeError>,
> {
    let width = size.0 as usize;
    let height = size.1 as usize;
    let factor = (cfg.patch_size * cfg.merge_size) as usize;
    if width == 0 || height == 0 || cfg.patch_size == 0 || cfg.merge_size == 0
        || cfg.patch_size * cfg.merge_size > usize::MAX || !resize::resize_fits(
        height,
        width,
        factor,
        cfg.min_pixels,
        cfg.max_pixels,
    ) {
        None
    } else {
        match resize::resized(height, width, factor, cfg.min_pixels, cfg.max_pixels) {
            Err(e) => Some(Err(e)),
            Ok((h, w)) => if width <= picture::LONGEST_SIDE && height <= picture::LONGEST_SIDE && h
                <= picture::LONGEST_SIDE && w <= picture::LONGEST_SIDE && w * h * 3 <= isize::MAX
                && width * h * 16 <= isize::MAX {
                Some(Ok((h, w)))
            } else {
                None
            },
        }
    }
}

/// `rgb` is a buffer that resampling the image may give: the image itself where it
/// keeps its size.
pub open spec fn is_resized(rgb: Seq<u8>, img: image::DynamicImage, height: int, width: int) -> bool {
    &&& rgb.len() == width * height * 3
    &&& picture::may_resample(
        picture::image_rgb(img),
        picture::image_size(img).0,
        picture::image_size(img).1,
        width as u32,
        height as u32,
        rgb,
    )
    &&& picture::image_size(img).0 == width && picture::image_size(img).1 == height ==> rgb
        == picture::image_rgb(img).take(width * height * 3)
}

/// `output` holds the patches of the resized image.
pub open spec fn holds_patches(
    output: ImageOutput,
    img: image::DynamicImage,
    height: int,
    width: int,
    size: usize,
) -> bool {
    let rows = height / size as int;
    let columns = width / size as int;
    &&& output.image_grid_hw[0] == rows
    &&& output.image_grid_hw[1] == columns
    &&& exists|rgb: Seq<u8>|
        #![trigger in_patches(rgb, rows, columns, size as int)]
        is_resized(rgb, img, height, width) && output.patches@ == in_patches(
            rgb,
            rows,
            columns,
            size as int,
        )
}

proof fn lemma_whole_patches(side: int, size: int, merge: int)
    requires
        size > 0,
        merge > 0,
        side >= 0,
        side % (size * merge) == 0,
    ensures
        side / size * size == side,
        side / size >= 0,
{
    let factor = size * merge;
    assert(factor > 0) by (nonlinear_arith)
        requires
            factor == size * merge,
            size > 0,
            merge > 0,
    ;
    lemma_fundamental_div_mod(side, factor);
    let k = side / factor;
    assert(side == size * (merge * k)) by (nonlinear_arith)
        requires
            side == size * merge * k,
    ;
    lemma_fundamental_div_mod_converse(side, size, merge * k, 0);
    assert(k >= 0) by (nonlinear_arith)
        requires
            side >= 0,
            k == side / factor,
            factor > 0,
    ;
    assert(merge * k * size == side && merge * k >= 0) by (nonlinear_arith)
        requires
            side == size * (merge * k),
            k >= 0,
            merge > 0,
    ;
}

/// Whether the machine holds every number on the way to the patches of an image
/// of the given size.
pub open spec fn patches_fit(size: (u32, u32), cfg: PaddleOcrCfg) -> bool {
    cfg.temporal_patch_size == 1 ==> target_size(size, cfg) is Some
}

/// `output` is what becomes of an image: its patches, or why there are none.
pub open spec fn is_preprocessed(
    output: Result<ImageOutput, PreprocessError>,
    img: image::DynamicImage,
    cfg: PaddleOcrCfg,
) -> bool {
    match (cfg.temporal_patch_size == 1, target_size(picture::image_size(img), cfg)) {
        (false, _) => output == Err::<ImageOutput, PreprocessError>(
            PreprocessError::TemporalPatchSize,
        ),
        (true, Some(Err(e))) => output == Err::<ImageOutput, PreprocessError>(
            PreprocessError::Aspect(e),
        ),
        (true, Some(Ok((h, w)))) => output is Ok && holds_patches(
            output->Ok_0,
            img,
            h,
            w,
            cfg.patch_size,
        ),
        (true, None) => false,
    }
}

/// Resizes an image to whole patches within the pixel limits and orders its
/// color bytes by patch.
pub fn preprocess_image(img: &image::DynamicImage, cfg: &PaddleOcrCfg) -> (output: Result<
    ImageOutput,
    PreprocessError,
>)
    requires
        patches_fit(picture::image_size(*img), *cfg),
    ensures
        is_preprocessed(output, *img, *cfg),
{
    match checked_preprocess_image(img, cfg) {
        Some(output) => output,
        None => Err(PreprocessError::TemporalPatchSize),
    }
}

/// Height and width of an image once resized, where the machine holds every
/// number on the way.
fn fit_size(size: (u32, u32), cfg: &PaddleOcrCfg) -> (target: Option<
    Result<(usize, usize), ResizeError>,
>)
    ensures
        match (target, target_size(size, *cfg)) {
            (None, None) => true,
            (Some(Err(e)), Some(Err(f))) => e == f,
            (Some(Ok((h, w))), Some(Ok((high, wide)))) => h == high && w == wide,
            _ => false,
        },
{
    let (width, height) = size;
    if width == 0 || height == 0 || cfg.patch_size == 0 || cfg.merge_size == 0 {
        return None;
    }
    let factor: usize = match cfg.patch_size.checked_mul(cfg.merge_size) {
        Some(n) => n,
        None => {
            return None;
        },
    };
    assert(factor > 0) by (nonlinear_arith)
        requires
            factor == cfg.patch_size * cfg.merge_size,
            cfg.patch_size > 0,
            cfg.merge_size > 0,
    ;
    let sizes = match resize::checked_smart_resize(
        height as usize,
        width as usize,
        factor,
        cfg.min_pixels,
        cfg.max_pixels,
    ) {
        Some(sizes) => sizes,
        None => {
            return None;
        },
    };
    let (h, w) = match sizes {
        Ok(sides) => sides,
        Err(e) => {
            return Some(Err(e));
        },
    };
    let wide: u128 = w as u128;
    let high: u128 = h as u128;
    let most: u128 = picture::LONGEST_SIDE as u128;
    if high > most || wide > most || width > picture::LONGEST_SIDE || height
        > picture::LONGEST_SIDE {
        return None;
    }
    assert(wide * high * 3 <= 0x300000000_00000000 && (width as u128) * high * 16
        <= 0x1000000000_00000000) by (nonlinear_arith)
        requires
            0 <= wide <= 0xffffffff,
            0 <= high <= 0xffffffff,
            width <= 0xffffffff,
    ;
    assert(wide * high <= 0x100000000_00000000 && (width as u128) * high <= 0x100000000_00000000)
        by (nonlinear_arith)
        requires
            0 <= wide <= 0xffffffff,
            0 <= high <= 0xffffffff,
            width <= 0xffffffff,
    ;
    if wide * high * 3 > isize::MAX as u128 || (width as u128) * high * 16 > isize::MAX as u128 {
        return None;
    }
    Some(Ok((h, w)))
}

/// Whether the machine holds every number on the way to the patches of an image
/// of the given size.
pub fn can_preprocess(size: (u32, u32), cfg: &PaddleOcrCfg) -> (fits: bool)
    ensures
        fits == patches_fit(size, *cfg),
{
    cfg.temporal_patch_size != 1 || fit_size(size, cfg).is_some()
}

/// The patches of an image can be counted.
pub proof fn lemma_patch_count(output: ImageOutput, img: image::DynamicImage, cfg: PaddleOcrCfg)
    requires
        is_preprocessed(Ok(output), img, cfg),
    ensures
        cfg.merge_size > 0,
        output.image_grid_hw[0] * output.image_grid_hw[1] <= usize::MAX,
{
    let (h, w) = target_size(picture::image_size(img), cfg)->0->Ok_0;
    let size = cfg.patch_size as int;
    let factor = (cfg.patch_size * cfg.merge_size) as usize;
    assert(factor > 0) by (nonlinear_arith)
        requires
            factor == cfg.patch_size * cfg.merge_size,
            cfg.patch_size > 0,
            cfg.merge_size > 0,
    ;
    resize::law_sides_are_multiples(
        picture::image_size(img).1 as usize,
        picture::image_size(img).0 as usize,
        factor,
        cfg.min_pixels,
        cfg.max_pixels,
    );
    lemma_whole_patches(h, size, cfg.merge_size as int);
    lemma_whole_patches(w, size, cfg.merge_size as int);
    assert(h / size <= h && w / size <= w) by (nonlinear_arith)
        requires
            h / size * size == h,
            w / size * size == w,
            size >= 1,
            h / size >= 0,
            w / size >= 0,
    ;
    assert((h / size) * (w / size) <= w * h * 3) by (nonlinear_arith)
        requires
            0 <= h / size <= h,
            0 <= w / size <= w,
    ;
}

/// What an image is resampled from and to, where the machine holds every number on
/// the way: its own bytes and size, and the size of whole patches.
pub fn resampling(img: &image::DynamicImage, cfg: &PaddleOcrCfg) -> (job: Option<
    Result<Resampling, PreprocessError>,
>)
    ensures
        match (job, target_size(picture::image_size(*img), *cfg)) {
            (None, None) => true,
            (Some(Err(e)), Some(Err(f))) => e == PreprocessError::Aspect(f),
            (Some(Ok(from)), Some(Ok((h, w)))) => {
                &&& from.wf()
                &&& from.rgb@ == picture::image_rgb(*img)
                &&& from.width == picture::image_size(*img).0
                &&& from.height == picture::image_size(*img).1
                &&& from.new_width == w
                &&& from.new_height == h
            },
            _ => false,
        },
{
    let width: u32 = img.width();
    let height: u32 = img.height();
    match fit_size((width, height), cfg) {
        Some(Ok((h, w))) => Some(
            Ok(
                Resampling {
                    rgb: picture::rgb_bytes(img),
                    width,
                    height,
                    new_width: w as u32,
                    new_height: h as u32,
                },
            ),
        ),
        Some(Err(e)) => Some(Err(PreprocessError::Aspect(e))),
        None => None,
    }
}

/// Resizes an image to whole patches, where the machine holds every number on the
/// way.
pub fn checked_preprocess_image(img: &image::DynamicImage, cfg: &PaddleOcrCfg) -> (output: Option<
    Result<ImageOutput, PreprocessError>,
>)
    ensures
        output is Some <==> patches_fit(picture::image_size(*img), *cfg),
        output is Some ==> is_preprocessed(output->0, *img, *cfg),
{
    if cfg.temporal_patch_size != 1 {
        return Some(Err(PreprocessError::TemporalPatchSize));
    }
    let job = match resampling(img, cfg) {
        Some(Ok(job)) => job,
        Some(Err(e)) => {
            return Some(Err(e));
        },
        None => {
            return None;
        },
    };
    let h: usize = job.new_height as usize;
    let w: usize = job.new_width as usize;
    let ghost factor = (cfg.patch_size * cfg.merge_size) as usize;
    assert(factor > 0) by (nonlinear_arith)
        requires
            factor == cfg.patch_size * cfg.merge_size,
            cfg.patch_size > 0,
            cfg.merge_size > 0,
    ;
    let scaled = picture::resize_catmull_rom(&job);
    let rows: usize = h / cfg.patch_size;
    let columns: usize = w / cfg.patch_size;
    proof {
        resize::law_sides_are_multiples(
            job.height as usize,
            job.width as usize,
            factor,
            cfg.min_pixels,
            cfg.max_pixels,
        );
        lemma_whole_patches(h as int, cfg.patch_size as int, cfg.merge_size as int);
        lemma_whole_patches(w as int, cfg.patch_size as int, cfg.merge_size as int);
        assert(h * w * 3 == w * h * 3) by (nonlinear_arith);
    }
    let patches = cut_patches(&scaled, rows, columns, cfg.patch_size);
    let output = ImageOutput { patches, image_grid_hw: [rows, columns] };
    proof {
        assert(is_resized(scaled@, *img, h as int, w as int)) by {
            assert(job.width * job.height * 3 == w * h * 3 || job.width != w || job.height != h)
                by (nonlinear_arith);
        }
        assert(output.patches@ == in_patches(
            scaled@,
            rows as int,
            columns as int,
            cfg.patch_size as int,
        ));
    }
    Some(Ok(output))
}

/// Patch by patch, channel by channel and row by row: byte `(x, y)` of a channel of the
/// patch in row `row` and column `column` is that channel of the pixel that many patches
/// and pixels down and across.
pub proof fn law_patches_hold_their_own_pixels(
    rgb: Seq<u8>,
    rows: int,
    columns: int,
    size: int,
    row: int,
    column: int,
    channel: int,
    y: int,
    x: int,
)
    requires
        0 <= row < rows,
        0 <= column < columns,
        0 <= channel < 3,
        0 <= y < size,
        0 <= x < size,
    ensures
        in_patches(rgb, rows, columns, size).len() == rows * columns * 3 * size * size,
        in_patches(rgb, rows, columns, size)[(((row * columns + column) * 3 + channel) * size + y)
            * size + x] == rgb[((row * size + y) * (columns * size) + column * size + x) * 3
            + channel],
{
    let patch = row * columns + column;
    let plane = patch * 3 + channel;
    let line = plane * size + y;
    let i = line * size + x;
    lemma_fundamental_div_mod_converse(i, size, line, x);
    lemma_fundamental_div_mod_converse(line, size, plane, y);
    lemma_fundamental_div_mod_converse(plane, 3, patch, channel);
    lemma_fundamental_div_mod_converse(patch, columns, row, column);
    assert(0 <= patch < rows * columns) by (nonlinear_arith)
        requires
            patch == row * columns + column,
            0 <= row,
            row + 1 <= rows,
            0 <= column < columns,
    ;
    assert(0 <= line < rows * columns * 3 * size) by (nonlinear_arith)
        requires
            line == plane * size + y,
            plane == patch * 3 + channel,
            0 <= patch,
            patch + 1 <= rows * columns,
            0 <= channel < 3,
            0 <= y < size,
    ;
    assert(0 <= i < rows * columns * 3 * size * size) by (nonlinear_arith)
        requires
            i == line * size + x,
            0 <= line,
            line + 1 <= rows * columns * 3 * size,
            0 <= x < size,
    ;
}

/// An image that is cut has as many patches along a side as the resized side has room
/// for, and as many bytes as they have colors.
pub proof fn law_patches_cover_the_image(
    output: ImageOutput,
    img: image::DynamicImage,
    height: int,
    width: int,
    size: usize,
)
    requires
        holds_patches(output, img, height, width, size),
        0 <= height,
        0 <= width,
        0 < size,
        height % size as int == 0,
        width % size as int == 0,
    ensures
        output.image_grid_hw[0] * size == height,
        output.image_grid_hw[1] * size == width,
        output.patches@.len() == height * width * 3,
{
    let s = size as int;
    let rows = height / s;
    let columns = width / s;
    lemma_fundamental_div_mod(height, s);
    lemma_fundamental_div_mod(width, s);
    lemma_div_pos_is_pos(height, s);
    lemma_div_pos_is_pos(width, s);
    assert(rows * columns * 3 * s * s == height * width * 3) by (nonlinear_arith)
        requires
            height == s * rows,
            width == s * columns,
    ;
    assert(rows * s == height && columns * s == width) by (nonlinear_arith)
        requires
            height == s * rows,
            width == s * columns,
    ;
    assert(height * width * 3 >= 0) by (nonlinear_arith)
        requires
            height >= 0,
            width >= 0,
    ;
}

/// An image within the limits goes to the size that is nearest to its own, in whole blocks
/// of merged patches: its height to as many rows of them, its width to as many columns.
pub proof fn law_images_go_to_whole_blocks(size: (u32, u32), cfg: PaddleOcrCfg, n: int, m: int)
    requires
        cfg.patch_size > 0,
        cfg.merge_size > 0,
        cfg.patch_size * cfg.merge_size <= size.0 <= 0x38_0000,
        cfg.patch_size * cfg.merge_size <= size.1 <= 0x38_0000,
        size.0 <= 200 * size.1,
        size.1 <= 200 * size.0,
        n >= 0,
        m >= 0,
        ({
            let f = cfg.patch_size * cfg.merge_size;
            &&& -f < 2 * (n * f - size.1) < f
            &&& -f < 2 * (m * f - size.0) < f
            &&& cfg.min_pixels <= (n * f) * (m * f) <= cfg.max_pixels
            &&& n * f <= 0x38_0000
            &&& m * f <= 0x38_0000
            &&& (m * f) * (n * f) * 3 <= isize::MAX
            &&& size.0 * (n * f) * 16 <= isize::MAX
        }),
    ensures
        ({
            let f = cfg.patch_size * cfg.merge_size;
            target_size(size, cfg) == Some(Ok::<(int, int), ResizeError>((n * f, m * f)))
        }),
{
    let f = cfg.patch_size * cfg.merge_size;
    assert(f > 0) by (nonlinear_arith)
        requires
            f == cfg.patch_size * cfg.merge_size,
            cfg.patch_size > 0,
            cfg.merge_size > 0,
    ;
    assert(f as usize == f);
    resize::law_sides_go_to_the_nearest_multiples(
        size.1 as usize,
        size.0 as usize,
        f as usize,
        cfg.min_pixels,
        cfg.max_pixels,
        n,
        m,
    );
}

/// An image without pixels has no target, and neither has one without patches.
pub proof fn law_empty_images_have_no_target(size: (u32, u32), cfg: PaddleOcrCfg)
    requires
        size.0 == 0 || size.1 == 0 || cfg.patch_size == 0 || cfg.merge_size == 0,
    ensures
        target_size(size, cfg) is None,
{
}

/// An image is refused for patches of several frames before anything else, then for its
/// shape; every other one is cut into patches of its target size.
pub proof fn law_images_are_cut_or_refused(
    output: Result<ImageOutput, PreprocessError>,
    img: image::DynamicImage,
    cfg: PaddleOcrCfg,
)
    requires
        is_preprocessed(output, img, cfg),
        patches_fit(picture::image_size(img), cfg),
    ensures
        cfg.temporal_patch_size != 1 <==> output == Err::<ImageOutput, PreprocessError>(
            PreprocessError::TemporalPatchSize,
        ),
        cfg.temporal_patch_size == 1 ==> match target_size(picture::image_size(img), cfg) {
            Some(Err(error)) => output == Err::<ImageOutput, PreprocessError>(
                PreprocessError::Aspect(error),
            ),
            Some(Ok((height, width))) => {
                &&& output is Ok
                &&& output->Ok_0.image_grid_hw[0] == height / cfg.patch_size as int
                &&& output->Ok_0.image_grid_hw[1] == width / cfg.patch_size as int
            },
            None => false,
        },
{
}

} // verus!
