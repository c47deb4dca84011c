//! Outlines of detected regions, from the masks of the detector.

use crate::contour;
use crate::contour::Edge;
use crate::float::F32;
use crate::precision;
use crate::rounding;
use crate::rounding::SINGLE;
use vstd::arithmetic::div_mod::*;
use vstd::prelude::*;

verus! {

/// The corners of a block, clockwise from the upper left one.
pub open spec fn is_box_polygon(points: Seq<[F32; 2]>, bbox: [F32; 4]) -> bool {
    &&& points.len() == 4
    &&& points[0]@ == seq![bbox@[0], bbox@[1]]
    &&& points[1]@ == seq![bbox@[2], bbox@[1]]
    &&& points[2]@ == seq![bbox@[2], bbox@[3]]
    &&& points[3]@ == seq![bbox@[0], bbox@[3]]
}

pub fn rectangle_polygon(bbox: [F32; 4]) -> (points: Vec<[F32; 2]>)
    ensures
        is_box_polygon(points@, bbox),
{
    let mut points: Vec<[F32; 2]> = Vec::new();
    points.push([bbox[0], bbox[1]]);
    points.push([bbox[2], bbox[1]]);
    points.push([bbox[2], bbox[3]]);
    points.push([bbox[0], bbox[3]]);
    assert(is_box_polygon(points@, bbox));
    points
}

/// A position on a page of `target` pixels as one on a mask of `side` pixels,
/// computed in single precision and rounded, halves up, within the mask.
pub open spec fn mask_position(position: i32, side: usize, target: usize) -> int {
    if position <= 0 || side == 0 {
        0
    } else if target == 0 {
        side as int
    } else {
        let scale = rounding::quotient(
            rounding::nearest(side as nat, 1, 24),
            rounding::nearest(target as nat, 1, 24),
            24,
        );
        let there = rounding::half_up(
            rounding::product(rounding::nearest(position as nat, 1, 24), scale, 24),
        );
        if there <= side {
            there as int
        } else {
            side as int
        }
    }
}

fn mask_position_of(position: i32, side: usize, target: usize) -> (there: usize)
    ensures
        there == mask_position(position, side, target),
{
    if position <= 0 || side == 0 {
        return 0;
    }
    if target == 0 {
        return side;
    }
    let scale = rounding::divide(
        rounding::from_integer(side as u64, SINGLE),
        rounding::from_integer(target as u64, SINGLE),
        SINGLE,
    );
    let there: u64 = rounding::half_up_of(
        rounding::multiply(rounding::from_integer(position as u64, SINGLE), scale, SINGLE),
    );
    if there <= side as u64 {
        there as usize
    } else {
        side
    }
}

/// Part of a mask, and the box of page pixels that it stands for.
pub struct Window {
    pub left: int,
    pub top: int,
    pub width: int,
    pub height: int,
    pub box_width: int,
    pub box_height: int,
}

/// Width and height of a box in whole pixels.
pub open spec fn box_size(bbox: [F32; 4]) -> (int, int) {
    (
        bbox@[2].truncated() - bbox@[0].truncated(),
        bbox@[3].truncated() - bbox@[1].truncated(),
    )
}

/// The part of a mask under a box, if both have pixels.
pub open spec fn window_of(
    bbox: [F32; 4],
    mask_height: usize,
    mask_width: usize,
    target_height: usize,
    target_width: usize,
) -> Option<Window> {
    let left = mask_position(bbox@[0].truncated(), mask_width, target_width);
    let right = mask_position(bbox@[2].truncated(), mask_width, target_width);
    let top = mask_position(bbox@[1].truncated(), mask_height, target_height);
    let bottom = mask_position(bbox@[3].truncated(), mask_height, target_height);
    let (box_width, box_height) = box_size(bbox);
    if box_width <= 0 || box_height <= 0 || left >= right || top >= bottom {
        None
    } else {
        Some(
            Window {
                left,
                top,
                width: right - left,
                height: bottom - top,
                box_width,
                box_height,
            },
        )
    }
}

/// Index of the mask value that stands for pixel `i` of a box: the nearest one
/// towards the upper left.
pub open spec fn mask_index(window: Window, mask_width: int, i: int) -> int {
    let x = i % window.box_width;
    let y = i / window.box_width;
    (window.top + y * window.height / window.box_height) * mask_width + window.left + x
        * window.width / window.box_width
}

/// The bitmap of a box: the pixels whose mask value is above the threshold.
pub open spec fn bitmap(
    values: Seq<F32>,
    base: int,
    mask_width: int,
    window: Window,
    threshold: F32,
) -> Seq<u8> {
    Seq::new(
        (window.box_width * window.box_height) as nat,
        |i: int|
            if threshold.below(values[base + mask_index(window, mask_width, i)]) {
                1u8
            } else {
                0u8
            },
    )
}

/// `line` with clockwise points, moved into a box of the given size.
pub open spec fn oriented(line: Seq<(int, int)>, width: int, height: int) -> Seq<(int, int)> {
    let turned = if contour::doubled_area(line) > 0 {
        line.reverse()
    } else {
        line
    };
    turned.map_values(|p: (int, int)| (within(p.0, width - 1), within(p.1, height - 1)))
}

pub open spec fn within(n: int, last: int) -> int {
    if n < 0 {
        0
    } else if n > last {
        last
    } else {
        n
    }
}

/// Whether the machine holds every number on the way to an outline.
pub open spec fn outline_fits(
    values: int,
    base: usize,
    mask_height: usize,
    mask_width: usize,
    bbox: [F32; 4],
) -> bool {
    let (box_width, box_height) = box_size(bbox);
    &&& mask_height <= i32::MAX
    &&& mask_width <= i32::MAX
    &&& base + mask_height * mask_width <= values
    &&& i32::MIN <= box_width <= i32::MAX
    &&& i32::MIN <= box_height <= i32::MAX
    &&& box_width > 0 && box_height > 0 ==> {
        &&& box_width * box_height <= isize::MAX
        &&& box_width * mask_width <= usize::MAX
        &&& box_height * mask_height <= usize::MAX
    }
}

/// Whether `mask_contour` can be asked for an outline.
pub fn can_outline(
    values: usize,
    base: usize,
    mask_height: usize,
    mask_width: usize,
    bbox: &[F32; 4],
) -> (fits: bool)
    ensures
        fits == outline_fits(values as int, base, mask_height, mask_width, *bbox),
{
    if mask_height as u128 > 0x7fff_ffff || mask_width as u128 > 0x7fff_ffff {
        return false;
    }
    let wide: i64 = bbox[2].truncate() as i64 - bbox[0].truncate() as i64;
    let high: i64 = bbox[3].truncate() as i64 - bbox[1].truncate() as i64;
    if wide > i32::MAX as i64 || wide < i32::MIN as i64 || high > i32::MAX as i64 || high
        < i32::MIN as i64 {
        return false;
    }
    let mh: u128 = mask_height as u128;
    let mw: u128 = mask_width as u128;
    assert(mh * mw <= 0x7fff_ffff * 0x7fff_ffff) by (nonlinear_arith)
        requires
            0 <= mh <= 0x7fff_ffff,
            0 <= mw <= 0x7fff_ffff,
    ;
    if base as u128 + mh * mw > values as u128 {
        return false;
    }
    if wide > 0 && high > 0 {
        let bw: u128 = wide as u128;
        let bh: u128 = high as u128;
        assert(bw * bh <= 0x7fff_ffff * 0x7fff_ffff && bw * mw <= 0x7fff_ffff * 0x7fff_ffff && bh
            * mh <= 0x7fff_ffff * 0x7fff_ffff) by (nonlinear_arith)
            requires
                0 <= bw <= 0x7fff_ffff,
                0 <= bh <= 0x7fff_ffff,
                0 <= mh <= 0x7fff_ffff,
                0 <= mw <= 0x7fff_ffff,
        ;
        bw * bh <= isize::MAX as u128 && bw * mw <= usize::MAX as u128 && bh * mh
            <= usize::MAX as u128
    } else {
        true
    }
}

proof fn lemma_scaled_place(i: int, part: int, whole: int)
    requires
        0 <= i < whole,
        0 < part,
    ensures
        0 <= i * part / whole < part,
{
    assert(0 <= i * part < part * whole) by (nonlinear_arith)
        requires
            0 <= i < whole,
            0 < part,
    ;
    lemma_div_is_ordered(0, i * part, whole);
    assert(part * whole == whole * part) by (nonlinear_arith);
    lemma_multiply_divide_lt(i * part, whole, part);
}

proof fn lemma_mask_index(
    window: Window,
    mask_width: int,
    mask_height: int,
    x: int,
    y: int,
)
    requires
        0 <= x < window.box_width,
        0 <= y < window.box_height,
        0 < window.width,
        0 < window.height,
        0 <= window.left,
        0 <= window.top,
        window.left + window.width <= mask_width,
        window.top + window.height <= mask_height,
    ensures
        0 <= y * window.box_width + x < window.box_width * window.box_height,
        mask_index(window, mask_width, y * window.box_width + x) == (window.top + y * window.height
            / window.box_height) * mask_width + window.left + x * window.width
            / window.box_width,
        0 <= mask_index(window, mask_width, y * window.box_width + x) < mask_height * mask_width,
        0 <= (window.top + y * window.height / window.box_height) * mask_width,
        window.top + y * window.height / window.box_height < mask_height,
{
    lemma_fundamental_div_mod_converse(y * window.box_width + x, window.box_width, y, x);
    lemma_scaled_place(x, window.width, window.box_width);
    lemma_scaled_place(y, window.height, window.box_height);
    let row = window.top + y * window.height / window.box_height;
    let column = window.left + x * window.width / window.box_width;
    assert(0 <= row * mask_width + column < mask_height * mask_width && 0 <= row * mask_width)
        by (nonlinear_arith)
        requires
            0 <= row < mask_height,
            0 <= column < mask_width,
    ;
    assert(0 <= y * window.box_width + x < window.box_width * window.box_height)
        by (nonlinear_arith)
        requires
            0 <= x < window.box_width,
            0 <= y < window.box_height,
    ;
}

/// Samples the mask under a box and keeps what is above the threshold.
fn sample_bitmap(
    values: &Vec<F32>,
    base: usize,
    mask_height: usize,
    mask_width: usize,
    left: usize,
    top: usize,
    width: usize,
    height: usize,
    box_width: usize,
    box_height: usize,
    threshold: F32,
) -> (map: Vec<u8>)
    requires
        base + mask_height * mask_width <= values@.len(),
        0 < width,
        0 < height,
        left + width <= mask_width,
        top + height <= mask_height,
        0 < box_width,
        0 < box_height,
        box_width * mask_width <= usize::MAX,
        box_height * mask_height <= usize::MAX,
    ensures
        map@ == bitmap(
            values@,
            base as int,
            mask_width as int,
            (Window {
                left: left as int,
                top: top as int,
                width: width as int,
                height: height as int,
                box_width: box_width as int,
                box_height: box_height as int,
            }),
            threshold,
        ),
{
    let ghost window = Window {
        left: left as int,
        top: top as int,
        width: width as int,
        height: height as int,
        box_width: box_width as int,
        box_height: box_height as int,
    };
    let ghost all = bitmap(values@, base as int, mask_width as int, window, threshold);
    let total: usize = values.len();
    let mut map: Vec<u8> = Vec::new();
    let mut y: usize = 0;
    proof {
        assert(0 <= window.box_width * window.box_height) by (nonlinear_arith)
            requires
                0 < window.box_width,
                0 < window.box_height,
        ;
    }
    while y < box_height
        invariant
            total == values@.len(),
            base + mask_height * mask_width <= values@.len(),
            0 < width,
            0 < height,
            left + width <= mask_width,
            top + height <= mask_height,
            0 < box_width,
            0 < box_height,
            box_width * mask_width <= usize::MAX,
            box_height * mask_height <= usize::MAX,
            window == (Window {
                left: left as int,
                top: top as int,
                width: width as int,
                height: height as int,
                box_width: box_width as int,
                box_height: box_height as int,
            }),
            all == bitmap(values@, base as int, mask_width as int, window, threshold),
            all.len() == box_width * box_height,
            y <= box_height,
            map@.len() == y * box_width,
            map@.len() <= all.len(),
            map@ == all.take(map@.len() as int),
        decreases box_height - y,
    {
        assert(y * height <= box_height * mask_height) by (nonlinear_arith)
            requires
                y <= box_height,
                height <= mask_height,
        ;
        proof {
            lemma_scaled_place(y as int, height as int, box_height as int);
            lemma_mask_index(window, mask_width as int, mask_height as int, 0, y as int);
        }
        let row: usize = top + y * height / box_height;
        let mut x: usize = 0;
        while x < box_width
            invariant
                total == values@.len(),
                base + mask_height * mask_width <= values@.len(),
                0 < width,
                0 < height,
                left + width <= mask_width,
                top + height <= mask_height,
                0 < box_width,
                0 < box_height,
                box_width * mask_width <= usize::MAX,
                window == (Window {
                    left: left as int,
                    top: top as int,
                    width: width as int,
                    height: height as int,
                    box_width: box_width as int,
                    box_height: box_height as int,
                }),
                all == bitmap(values@, base as int, mask_width as int, window, threshold),
                all.len() == box_width * box_height,
                y < box_height,
                row == window.top + y * window.height / window.box_height,
                x <= box_width,
                map@.len() == y * box_width + x,
                map@.len() <= all.len(),
                map@ == all.take(map@.len() as int),
            decreases box_width - x,
        {
            proof {
                lemma_mask_index(window, mask_width as int, mask_height as int, x as int, y as int);
                lemma_scaled_place(x as int, width as int, box_width as int);
                assert(x * width <= box_width * mask_width) by (nonlinear_arith)
                    requires
                        x <= box_width,
                        width <= mask_width,
                ;
            }
            let column: usize = left + x * width / box_width;
            let value: F32 = values[base + (row * mask_width + column)];
            let above: u8 = if threshold.is_below(value) {
                1
            } else {
                0
            };
            let ghost before = map@;
            map.push(above);
            x = x + 1;
            assert(map@ == all.take(before.len() as int + 1));
        }
        y = y + 1;
        assert((y - 1) * box_width + box_width == y * box_width) by (nonlinear_arith);
    }
    assert(box_height * box_width == box_width * box_height) by (nonlinear_arith);
    assert(all.take(all.len() as int) == all);
    map
}

/// Turns an outline clockwise and moves its points into a box.
fn orient(line: Vec<(i32, i32)>, width: i32, height: i32) -> (turned: Vec<(i32, i32)>)
    requires
        width > 0,
        height > 0,
    ensures
        contour::places(turned@) == oriented(
            contour::places(line@),
            width as int,
            height as int,
        ),
{
    let backwards: bool = contour::signed_area_i32(&line) > 0;
    let n: usize = line.len();
    let ghost expected = oriented(contour::places(line@), width as int, height as int);
    let mut turned: Vec<(i32, i32)> = Vec::new();
    let mut i: usize = 0;
    while i < n
        invariant
            i <= n == line@.len(),
            width > 0,
            height > 0,
            backwards == (contour::doubled_area(contour::places(line@)) > 0),
            expected == oriented(contour::places(line@), width as int, height as int),
            expected.len() == n,
            contour::places(turned@) == expected.take(i as int),
        decreases n - i,
    {
        let (x, y) = if backwards {
            line[n - 1 - i]
        } else {
            line[i]
        };
        let a: i32 = if x < 0 {
            0
        } else if x > width - 1 {
            width - 1
        } else {
            x
        };
        let b: i32 = if y < 0 {
            0
        } else if y > height - 1 {
            height - 1
        } else {
            y
        };
        let ghost before = turned@;
        turned.push((a, b));
        i = i + 1;
        proof {
            assert(contour::places(turned@) == contour::places(before).push((a as int, b as int)));
            assert(expected[i - 1] == (a as int, b as int));
            assert(contour::places(turned@) == expected.take(i as int));
        }
    }
    assert(expected.take(n as int) == expected);
    turned
}

/// `outline` is the largest outline of a bitmap, oriented, or nothing where no pixel
/// is set.
pub open spec fn is_mask_contour(
    outline: Option<Vec<(i32, i32)>>,
    map: Seq<u8>,
    window: Window,
) -> bool {
    &&& outline is None <==> forall|i: int| 0 <= i < map.len() ==> #[trigger] map[i] == 0
    &&& outline is Some ==> exists|loops: Seq<Seq<Edge>>, line: Seq<(int, int)>|
        #![trigger contour::edges_of(loops), oriented(line, window.box_width, window.box_height)]
        contour::is_outline(loops, map, window.box_width, window.box_height)
            && contour::is_largest(Some(line), loops) && contour::places(outline->0@) == oriented(
            line,
            window.box_width,
            window.box_height,
        )
}

/// The outline of a region in pixels of its box, from the mask of the region; nothing
/// where box or mask have no pixels, or the mask is nowhere above the threshold.
pub fn mask_contour(
    values: &Vec<F32>,
    base: usize,
    mask_height: usize,
    mask_width: usize,
    target_height: usize,
    target_width: usize,
    threshold: F32,
    bbox: [F32; 4],
) -> (outline: Option<Vec<(i32, i32)>>)
    requires
        outline_fits(values@.len() as int, base, mask_height, mask_width, bbox),
    ensures
        match window_of(bbox, mask_height, mask_width, target_height, target_width) {
            None => outline is None,
            Some(window) => is_mask_contour(
                outline,
                bitmap(values@, base as int, mask_width as int, window, threshold),
                window,
            ),
        },
{
    let x_min: i32 = bbox[0].truncate();
    let y_min: i32 = bbox[1].truncate();
    let x_max: i32 = bbox[2].truncate();
    let y_max: i32 = bbox[3].truncate();
    let box_width: i32 = x_max - x_min;
    let box_height: i32 = y_max - y_min;
    if box_width <= 0 || box_height <= 0 {
        return None;
    }
    let left: usize = mask_position_of(x_min, mask_width, target_width);
    let right: usize = mask_position_of(x_max, mask_width, target_width);
    let top: usize = mask_position_of(y_min, mask_height, target_height);
    let bottom: usize = mask_position_of(y_max, mask_height, target_height);
    if left >= right || top >= bottom {
        return None;
    }
    let ghost window = Window {
        left: left as int,
        top: top as int,
        width: right - left,
        height: bottom - top,
        box_width: box_width as int,
        box_height: box_height as int,
    };
    let map = sample_bitmap(
        values,
        base,
        mask_height,
        mask_width,
        left,
        top,
        right - left,
        bottom - top,
        box_width as usize,
        box_height as usize,
        threshold,
    );
    assert(map@ == bitmap(values@, base as int, mask_width as int, window, threshold));
    assert(map@.len() == box_width * box_height);
    match contour::largest_external_contour(&map, box_width as usize, box_height as usize) {
        None => None,
        Some(line) => {
            let ghost points = contour::places(line@);
            let turned = orient(line, box_width, box_height);
            let outline = Some(turned);
            proof {
                let loops = choose|loops: Seq<Seq<Edge>>|
                    #![trigger contour::edges_of(loops)]
                    contour::is_outline(loops, map@, box_width as int, box_height as int)
                        && contour::is_largest(Some(points), loops);
                assert(contour::edges_of(loops) == contour::edges_of(loops));
                assert(contour::places(outline->0@) == oriented(
                    points,
                    window.box_width,
                    window.box_height,
                ));
                assert(is_mask_contour(outline, map@, window));
            }
            outline
        },
    }
}

/// The mask value that stands for pixel `(x, y)` of a box.
pub open spec fn sampled(
    values: Seq<F32>,
    base: int,
    mask_width: int,
    window: Window,
    x: int,
    y: int,
) -> F32 {
    values[base + (window.top + y * window.height / window.box_height) * mask_width + window.left
        + x * window.width / window.box_width]
}

/// A pixel of a box is set where the mask value that stands for it is above the
/// threshold, and nowhere else.
pub proof fn law_pixels_above_the_threshold_are_set(
    values: Seq<F32>,
    base: int,
    mask_width: int,
    window: Window,
    threshold: F32,
    x: int,
    y: int,
)
    requires
        0 <= x < window.box_width,
        0 <= y < window.box_height,
    ensures
        bitmap(values, base, mask_width, window, threshold).len() == window.box_width
            * window.box_height,
        0 <= y * window.box_width + x < window.box_width * window.box_height,
        bitmap(values, base, mask_width, window, threshold)[y * window.box_width + x] != 0
            <==> threshold.below(sampled(values, base, mask_width, window, x, y)),
{
    lemma_fundamental_div_mod_converse(y * window.box_width + x, window.box_width, y, x);
    assert(0 <= y * window.box_width + x < window.box_width * window.box_height)
        by (nonlinear_arith)
        requires
            0 <= x < window.box_width,
            0 <= y < window.box_height,
    ;
}

/// A box has an outline exactly where a mask value that stands for one of its pixels is
/// above the threshold.
pub proof fn law_regions_have_an_outline(
    outline: Option<Vec<(i32, i32)>>,
    values: Seq<F32>,
    base: int,
    mask_width: int,
    window: Window,
    threshold: F32,
)
    requires
        0 < window.box_width,
        0 < window.box_height,
        is_mask_contour(
            outline,
            bitmap(values, base, mask_width, window, threshold),
            window,
        ),
    ensures
        outline is Some <==> exists|x: int, y: int|
            0 <= x < window.box_width && 0 <= y < window.box_height && threshold.below(
                #[trigger] sampled(values, base, mask_width, window, x, y),
            ),
{
    let map = bitmap(values, base, mask_width, window, threshold);
    let w = window.box_width;
    let h = window.box_height;
    if outline is Some {
        let i = choose|i: int| 0 <= i < map.len() && #[trigger] map[i] != 0;
        assert(0 <= w * h) by (nonlinear_arith)
            requires
                0 < w,
                0 < h,
        ;
        let x = i % w;
        let y = i / w;
        lemma_fundamental_div_mod(i, w);
        lemma_mod_bound(i, w);
        assert(0 <= y < h) by (nonlinear_arith)
            requires
                i == w * y + x,
                0 <= i < w * h,
                0 <= x < w,
        ;
        assert(w * y == y * w) by (nonlinear_arith);
        law_pixels_above_the_threshold_are_set(values, base, mask_width, window, threshold, x, y);
        assert(threshold.below(sampled(values, base, mask_width, window, x, y)));
    }
    if exists|x: int, y: int|
        0 <= x < w && 0 <= y < h && threshold.below(
            #[trigger] sampled(values, base, mask_width, window, x, y),
        ) {
        let (x, y) = choose|x: int, y: int|
            0 <= x < w && 0 <= y < h && threshold.below(
                #[trigger] sampled(values, base, mask_width, window, x, y),
            );
        law_pixels_above_the_threshold_are_set(values, base, mask_width, window, threshold, x, y);
        assert(map[y * w + x] != 0);
    }
}

proof fn lemma_oriented(line: Seq<(int, int)>, width: int, height: int)
    ensures
        oriented(line, width, height).len() == line.len(),
        forall|i: int|
            0 <= i < line.len() ==> oriented(line, width, height).contains(
                (within((#[trigger] line[i]).0, width - 1), within(line[i].1, height - 1)),
            ),
        forall|i: int|
            0 <= i < line.len() ==> exists|j: int|
                0 <= j < line.len() && #[trigger] oriented(line, width, height)[i] == (
                    within((#[trigger] line[j]).0, width - 1),
                    within(line[j].1, height - 1),
                ),
{
    let turned = oriented(line, width, height);
    let back = contour::doubled_area(line) > 0;
    assert forall|i: int| 0 <= i < line.len() implies turned.contains(
        (within((#[trigger] line[i]).0, width - 1), within(line[i].1, height - 1)),
    ) by {
        let j = if back {
            line.len() - 1 - i
        } else {
            i
        };
        assert(turned[j] == (within(line[i].0, width - 1), within(line[i].1, height - 1)));
    }
    assert forall|i: int| 0 <= i < line.len() implies exists|j: int|
        0 <= j < line.len() && #[trigger] turned[i] == (
            within((#[trigger] line[j]).0, width - 1),
            within(line[j].1, height - 1),
        ) by {
        let j = if back {
            line.len() - 1 - i
        } else {
            i
        };
        assert(turned[i] == (within(line[j].0, width - 1), within(line[j].1, height - 1)));
    }
}

/// Where the values above the threshold stand for a rectangle of pixels, the outline is
/// the four corners of that rectangle, those on the far sides of the box moved onto its
/// last pixels; a region that fills its box is outlined by the corners of the box.
#[verifier::rlimit(60)]
pub proof fn law_rectangular_regions_are_outlined_by_their_corners(
    outline: Option<Vec<(i32, i32)>>,
    values: Seq<F32>,
    base: int,
    mask_width: int,
    window: Window,
    threshold: F32,
    left: int,
    top: int,
    right: int,
    bottom: int,
)
    requires
        0 <= left < right <= window.box_width,
        0 <= top < bottom <= window.box_height,
        is_mask_contour(
            outline,
            bitmap(values, base, mask_width, window, threshold),
            window,
        ),
        forall|x: int, y: int|
            0 <= x < window.box_width && 0 <= y < window.box_height ==> threshold.below(
                #[trigger] sampled(values, base, mask_width, window, x, y),
            ) == (left <= x < right && top <= y < bottom),
    ensures
        outline is Some,
        outline->0@.len() == 4,
        ({
            let points = contour::places(outline->0@);
            let x = if right < window.box_width {
                right
            } else {
                window.box_width - 1
            };
            let y = if bottom < window.box_height {
                bottom
            } else {
                window.box_height - 1
            };
            &&& points.contains((left, top))
            &&& points.contains((x, top))
            &&& points.contains((x, y))
            &&& points.contains((left, y))
            &&& forall|i: int|
                0 <= i < 4 ==> ((#[trigger] points[i]).0 == left || points[i].0 == x) && (
                points[i].1 == top || points[i].1 == y)
        }),
{
    let map = bitmap(values, base, mask_width, window, threshold);
    let w = window.box_width;
    let h = window.box_height;
    assert forall|x: int, y: int| 0 <= x < w && 0 <= y < h implies (#[trigger] map[y * w + x] != 0)
        == (left <= x < right && top <= y < bottom) by {
        law_pixels_above_the_threshold_are_set(values, base, mask_width, window, threshold, x, y);
    }
    law_regions_have_an_outline(outline, values, base, mask_width, window, threshold);
    assert(threshold.below(sampled(values, base, mask_width, window, left, top)));
    let (loops, line) = choose|loops: Seq<Seq<Edge>>, line: Seq<(int, int)>|
        #![trigger contour::edges_of(loops), oriented(line, w, h)]
        contour::is_outline(loops, map, w, h) && contour::is_largest(Some(line), loops)
            && contour::places(outline->0@) == oriented(line, w, h);
    assert(contour::is_block(map, w, h, left, top, right, bottom));
    contour::law_rectangles_are_outlined_by_their_corners(
        map,
        w,
        h,
        left,
        top,
        right,
        bottom,
        loops,
        line,
    );
    lemma_corners_in_the_box(line, left, top, right, bottom, w, h);
    assert(contour::places(outline->0@).len() == outline->0@.len());
}

proof fn lemma_corners_in_the_box(
    line: Seq<(int, int)>,
    left: int,
    top: int,
    right: int,
    bottom: int,
    w: int,
    h: int,
)
    requires
        0 <= left < right <= w,
        0 <= top < bottom <= h,
        line.len() == 4,
        line.no_duplicates(),
        line.contains((left, top)),
        line.contains((right, top)),
        line.contains((right, bottom)),
        line.contains((left, bottom)),
    ensures
        oriented(line, w, h).len() == 4,
        oriented(line, w, h).contains((left, top)),
        oriented(line, w, h).contains((within(right, w - 1), top)),
        oriented(line, w, h).contains((within(right, w - 1), within(bottom, h - 1))),
        oriented(line, w, h).contains((left, within(bottom, h - 1))),
        forall|i: int|
            0 <= i < 4 ==> ((#[trigger] oriented(line, w, h)[i]).0 == left || oriented(
                line,
                w,
                h,
            )[i].0 == within(right, w - 1)) && (oriented(line, w, h)[i].1 == top || oriented(
                line,
                w,
                h,
            )[i].1 == within(bottom, h - 1)),
{
    lemma_oriented(line, w, h);
    let points = oriented(line, w, h);
    let a = line.index_of((left, top));
    let b = line.index_of((right, top));
    let c = line.index_of((right, bottom));
    let d = line.index_of((left, bottom));
    assert(line[a] == (left, top) && line[b] == (right, top));
    assert(line[c] == (right, bottom) && line[d] == (left, bottom));
    assert forall|i: int| 0 <= i < 4 implies ((#[trigger] points[i]).0 == left || points[i].0
        == within(right, w - 1)) && (points[i].1 == top || points[i].1 == within(bottom, h - 1)) by {
        let j = choose|j: int|
            0 <= j < line.len() && #[trigger] points[i] == (
                within((#[trigger] line[j]).0, w - 1),
                within(line[j].1, h - 1),
            );
        assert(j == a || j == b || j == c || j == d);
    }
}

/// Every point of an outline is next to a pixel that the mask is above the threshold
/// for.
pub proof fn law_outlines_stay_at_their_region(
    outline: Option<Vec<(i32, i32)>>,
    values: Seq<F32>,
    base: int,
    mask_width: int,
    window: Window,
    threshold: F32,
    i: int,
)
    requires
        0 < window.box_width,
        0 < window.box_height,
        is_mask_contour(
            outline,
            bitmap(values, base, mask_width, window, threshold),
            window,
        ),
        outline is Some,
        0 <= i < outline->0@.len(),
    ensures
        exists|x: int, y: int|
            0 <= x < window.box_width && 0 <= y < window.box_height && outline->0@[i].0 - 1 <= x
                <= outline->0@[i].0 && outline->0@[i].1 - 1 <= y <= outline->0@[i].1
                && threshold.below(#[trigger] sampled(values, base, mask_width, window, x, y)),
{
    let map = bitmap(values, base, mask_width, window, threshold);
    let w = window.box_width;
    let h = window.box_height;
    let (loops, line) = choose|loops: Seq<Seq<Edge>>, line: Seq<(int, int)>|
        #![trigger contour::edges_of(loops), oriented(line, w, h)]
        contour::is_outline(loops, map, w, h) && contour::is_largest(Some(line), loops)
            && contour::places(outline->0@) == oriented(line, w, h);
    lemma_oriented(line, w, h);
    let points = contour::places(outline->0@);
    assert(points[i] == (outline->0@[i].0 as int, outline->0@[i].1 as int));
    let j = choose|j: int|
        0 <= j < line.len() && #[trigger] points[i] == (
            within((#[trigger] line[j]).0, w - 1),
            within(line[j].1, h - 1),
        );
    contour::law_outlines_touch_the_region(map, w, h, loops, line, j);
    let (x, y) = choose|x: int, y: int|
        0 <= x < w && 0 <= y < h && line[j].0 - 1 <= x <= line[j].0 && line[j].1 - 1 <= y
            <= line[j].1 && #[trigger] map[y * w + x] != 0;
    law_pixels_above_the_threshold_are_set(values, base, mask_width, window, threshold, x, y);
    assert(threshold.below(sampled(values, base, mask_width, window, x, y)));
}

/// Whether a point comes before another: further left or, where neither is further
/// left, further up. What is not a number is nowhere further.
pub open spec fn is_before(a: [F32; 2], b: [F32; 2]) -> bool {
    a@[0].below(b@[0]) || (!b@[0].below(a@[0]) && a@[1].below(b@[1]))
}

/// The point that is left of the first `n` points once each in turn takes the place
/// of one that it comes before.
pub open spec fn first_point(points: Seq<[F32; 2]>, n: int) -> int
    decreases n,
{
    if n <= 1 {
        0
    } else {
        let at = first_point(points, n - 1);
        if is_before(points[n - 1], points[at]) {
            n - 1
        } else {
            at
        }
    }
}

/// The points of a polygon from its first point on, and then those before it.
pub open spec fn from_first(points: Seq<[F32; 2]>) -> Seq<[F32; 2]> {
    let at = first_point(points, points.len() as int);
    points.skip(at) + points.take(at)
}

/// Where all coordinates are numbers, a polygon starts from the first of its
/// leftmost, uppermost points.
pub proof fn law_polygons_start_left_and_up(points: Seq<[F32; 2]>, n: int)
    requires
        0 < n <= points.len(),
        forall|i: int|
            0 <= i < points.len() ==> (#[trigger] points[i])@[0].is_number()
                && points[i]@[1].is_number(),
    ensures
        0 <= first_point(points, n) < n,
        forall|i: int|
            0 <= i < n ==> !is_before(#[trigger] points[i], points[first_point(points, n)]),
        forall|i: int|
            0 <= i < first_point(points, n) ==> is_before(
                points[first_point(points, n)],
                #[trigger] points[i],
            ),
    decreases n,
{
    if n > 1 {
        law_polygons_start_left_and_up(points, n - 1);
    }
}

/// Starts a polygon from its leftmost, uppermost point.
pub fn rotate_polygon_to_leftmost_top(polygon: Vec<[F32; 2]>) -> (rotated: Vec<[F32; 2]>)
    ensures
        polygon@.len() <= 1 ==> rotated@ == polygon@,
        polygon@.len() > 1 ==> rotated@ == from_first(polygon@),
{
    let n: usize = polygon.len();
    if n <= 1 {
        return polygon;
    }
    let mut at: usize = 0;
    let mut i: usize = 1;
    while i < n
        invariant
            n == polygon@.len(),
            at < i <= n,
            at == first_point(polygon@, i as int),
        decreases n - i,
    {
        let p = polygon[i];
        let q = polygon[at];
        if p[0].is_below(q[0]) || (!q[0].is_below(p[0]) && p[1].is_below(q[1])) {
            at = i;
        }
        i = i + 1;
    }
    let mut rotated: Vec<[F32; 2]> = Vec::new();
    let mut k: usize = at;
    while k < n
        invariant
            n == polygon@.len(),
            at <= k <= n,
            rotated@ == polygon@.subrange(at as int, k as int),
        decreases n - k,
    {
        rotated.push(polygon[k]);
        k = k + 1;
        assert(rotated@ == polygon@.subrange(at as int, k as int));
    }
    assert(polygon@.subrange(at as int, n as int) == polygon@.skip(at as int));
    let mut j: usize = 0;
    while j < at
        invariant
            n == polygon@.len(),
            j <= at <= n,
            rotated@ == polygon@.skip(at as int) + polygon@.take(j as int),
        decreases at - j,
    {
        rotated.push(polygon[j]);
        j = j + 1;
        assert(rotated@ == polygon@.skip(at as int) + polygon@.take(j as int));
    }
    rotated
}

/// The polygon of a region from its simplified outline: the corners of its box where
/// fewer than four points are left.
pub fn finish_polygon(simplified: Vec<[F32; 2]>, bbox: [F32; 4]) -> (polygon: Vec<[F32; 2]>)
    ensures
        simplified@.len() < 4 ==> is_box_polygon(polygon@, bbox),
        simplified@.len() >= 4 ==> polygon@ == from_first(simplified@),
{
    if simplified.len() < 4 {
        return rectangle_polygon(bbox);
    }
    rotate_polygon_to_leftmost_top(simplified)
}

/// A position on a page is the same part of the mask as it is of the page: the nearest
/// one in whole pixels, but for one part in two million of it, and none outside the mask.
pub proof fn law_positions_keep_their_part_of_the_side(position: i32, side: usize, target: usize)
    requires
        target > 0,
    ensures
        0 <= mask_position(position, side, target) <= side,
        position <= 0 ==> mask_position(position, side, target) == 0,
        position > 0 && mask_position(position, side, target) < side ==> 0x1f_ffff * (2 * side
            * position) < 0x20_0000 * ((2 * mask_position(position, side, target) + 1) * target),
        position > 0 && side > 0 ==> 0x20_0000 * ((2 * mask_position(position, side, target) - 1)
            * target) <= 0x20_0001 * (2 * side * position),
{
    if position > 0 && side > 0 {
        let v = side as int;
        let c = target as int;
        let e = position as int;
        let scale = rounding::quotient(
            rounding::nearest(side as nat, 1, 24),
            rounding::nearest(target as nat, 1, 24),
            24,
        );
        let place = rounding::nearest(position as nat, 1, 24);
        let z = rounding::product(scale, place, 24);
        assert(scale.m * place.m == place.m * scale.m) by (nonlinear_arith);
        assert(z == rounding::product(place, scale, 24));
        precision::lemma_single_fraction(side as nat, target as nat, position as nat);
        rounding::law_halves_go_up(z);
        let n = precision::numer(z);
        let d = precision::denom(z);
        let p = rounding::half_up(z) as int;
        assert((2 * p - 1) * d <= 2 * n < (2 * p + 1) * d);
        assert(0x1f_ffff * (v * e * d) <= 0x20_0000 * (c * n));
        assert(0x20_0000 * (c * n) <= 0x20_0001 * (v * e * d));
        assert(0x1f_ffff * (2 * v * e) < 0x20_0000 * ((2 * p + 1) * c)) by (nonlinear_arith)
            requires
                2 * n < (2 * p + 1) * d,
                0x1f_ffff * (v * e * d) <= 0x20_0000 * (c * n),
                d > 0,
                c > 0,
        ;
        assert(0x20_0000 * ((2 * p - 1) * c) <= 0x20_0001 * (2 * v * e)) by (nonlinear_arith)
            requires
                (2 * p - 1) * d <= 2 * n,
                0x20_0000 * (c * n) <= 0x20_0001 * (v * e * d),
                d > 0,
                c > 0,
        ;
        let q = mask_position(position, side, target);
        assert(q <= p && (q < side ==> q == p));
        assert((2 * q - 1) * c <= (2 * p - 1) * c) by (nonlinear_arith)
            requires
                q <= p,
                c > 0,
        ;
    }
}

/// The part of a mask under a box lies between the positions of the edges of the box, and
/// stands for as many pixels as the box has; there is none where either has no pixel.
pub proof fn law_windows_lie_under_their_boxes(
    bbox: [F32; 4],
    mask_height: usize,
    mask_width: usize,
    target_height: usize,
    target_width: usize,
)
    ensures
        ({
            let left = mask_position(bbox@[0].truncated(), mask_width, target_width);
            let right = mask_position(bbox@[2].truncated(), mask_width, target_width);
            let top = mask_position(bbox@[1].truncated(), mask_height, target_height);
            let bottom = mask_position(bbox@[3].truncated(), mask_height, target_height);
            let window = window_of(bbox, mask_height, mask_width, target_height, target_width);
            &&& window is Some <==> left < right && top < bottom && bbox@[0].truncated()
                < bbox@[2].truncated() && bbox@[1].truncated() < bbox@[3].truncated()
            &&& window matches Some(w) ==> {
                &&& w.left == left && w.left + w.width == right
                &&& w.top == top && w.top + w.height == bottom
                &&& w.box_width == bbox@[2].truncated() - bbox@[0].truncated()
                &&& w.box_height == bbox@[3].truncated() - bbox@[1].truncated()
            }
        }),
{
}

/// A polygon that starts from its first point keeps its points and their order around.
pub proof fn law_polygons_are_turned_around(points: Seq<[F32; 2]>, k: int)
    requires
        0 <= k < points.len(),
        forall|i: int|
            0 <= i < points.len() ==> (#[trigger] points[i])@[0].is_number()
                && points[i]@[1].is_number(),
    ensures
        from_first(points).len() == points.len(),
        exists|at: int|
            0 <= at < points.len() && from_first(points)[0] == #[trigger] points[at]
                && from_first(points)[k] == points[if at + k < points.len() {
                at + k
            } else {
                at + k - points.len()
            }],
        forall|i: int|
            0 <= i < points.len() ==> !is_before(#[trigger] points[i], from_first(points)[0]),
{
    let at = first_point(points, points.len() as int);
    law_polygons_start_left_and_up(points, points.len() as int);
    let i = if at + k < points.len() {
        at + k
    } else {
        at + k - points.len()
    };
    assert(from_first(points)[k] == points[i]);
    assert(from_first(points)[0] == points[at]);
}

/// Of two points the one further left comes first, and of two as far left the one
/// further up.
pub proof fn law_the_leftmost_point_comes_first(a: [F32; 2], b: [F32; 2])
    requires
        a@[0].is_number(),
        a@[1].is_number(),
        b@[0].is_number(),
        b@[1].is_number(),
    ensures
        is_before(a, b) <==> a@[0].rank() < b@[0].rank() || (a@[0].rank() == b@[0].rank()
            && a@[1].rank() < b@[1].rank()),
{
}

/// A block without an outline has the corners of its box: the upper left one, then the
/// others clockwise.
pub proof fn law_boxes_have_four_corners(points: Seq<[F32; 2]>, bbox: [F32; 4])
    requires
        is_box_polygon(points, bbox),
    ensures
        points.len() == 4,
        points[0]@[0] == bbox@[0] && points[3]@[0] == bbox@[0],
        points[1]@[0] == bbox@[2] && points[2]@[0] == bbox@[2],
        points[0]@[1] == bbox@[1] && points[1]@[1] == bbox@[1],
        points[2]@[1] == bbox@[3] && points[3]@[1] == bbox@[3],
{
}

/// Outlines go round the same way, whichever way the line went: the signed area of one
/// that lies in its box is not above zero, and its size is that of the line.
pub proof fn law_outlines_go_round_one_way(line: Seq<(int, int)>, width: int, height: int)
    requires
        forall|i: int|
            0 <= i < line.len() ==> 0 <= (#[trigger] line[i]).0 < width && 0 <= line[i].1 < height,
    ensures
        contour::doubled_area(oriented(line, width, height)) <= 0,
        contour::doubled_area(oriented(line, width, height)) == contour::doubled_area(line)
            || contour::doubled_area(oriented(line, width, height)) == -contour::doubled_area(
            line,
        ),
        oriented(line, width, height) == line || oriented(line, width, height) == line.reverse(),
{
    contour::law_turning_around_negates_the_area(line);
    if contour::doubled_area(line) > 0 {
        assert(oriented(line, width, height) == line.reverse());
    } else {
        assert(oriented(line, width, height) == line);
    }
}

} // verus!
