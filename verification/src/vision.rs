//! How the patches of images are laid out for the vision model.

use crate::queries;
use vstd::arithmetic::div_mod::*;
use vstd::prelude::*;

verus! {

/// Rows of one image, from the first to behind the last.
#[derive(Clone, Copy, Debug, PartialEq, Eq, Structural)]
pub struct Span {
    pub start: usize,
    pub end: usize,
}

proof fn lemma_positions_step(grids: Seq<(usize, usize)>, i: int)
    requires
        0 <= i < grids.len(),
    ensures
        queries::positions(grids, i + 1) == queries::positions(grids, i) + grids[i].0 * grids[i].1,
        0 <= grids[i].0 * grids[i].1,
{
    let (h, w) = grids[i];
    assert(h * w >= 0) by (nonlinear_arith)
        requires
            h >= 0,
            w >= 0,
    ;
}

/// Divides `tokens` rows among images with `(height, width)` patches, in order. There is
/// no division where the images do not take all rows.
pub fn image_spans(grids: &Vec<(usize, usize)>, tokens: usize) -> (spans: Option<Vec<Span>>)
    ensures
        spans is Some <==> queries::positions(grids@, grids@.len() as int) == tokens,
        spans matches Some(s) ==> {
            &&& s@.len() == grids@.len()
            &&& forall|i: int|
                0 <= i < grids@.len() ==> (#[trigger] s@[i]).start == queries::positions(grids@, i)
                    && s@[i].end == queries::positions(grids@, i + 1)
        },
{
    let mut spans: Vec<Span> = Vec::new();
    let mut start: usize = 0;
    let mut i: usize = 0;
    while i < grids.len()
        invariant
            i <= grids@.len(),
            start == queries::positions(grids@, i as int),
            start <= tokens,
            spans@.len() == i,
            forall|k: int|
                0 <= k < i ==> (#[trigger] spans@[k]).start == queries::positions(grids@, k)
                    && spans@[k].end == queries::positions(grids@, k + 1),
        decreases grids.len() - i,
    {
        let (height, width) = grids[i];
        proof {
            lemma_positions_step(grids@, i as int);
            queries::lemma_positions_grow(grids@, i + 1, grids@.len() as int);
        }
        let patches: usize = match height.checked_mul(width) {
            Some(patches) => patches,
            None => return None,
        };
        if patches > tokens - start {
            return None;
        }
        let end: usize = start + patches;
        spans.push(Span { start, end });
        start = end;
        i = i + 1;
    }
    if start == tokens {
        Some(spans)
    } else {
        None
    }
}

/// Row and column of every patch, and the longest side of an image.
#[derive(Debug)]
pub struct PatchPositions {
    pub rows: Vec<i64>,
    pub columns: Vec<i64>,
    pub longest: usize,
}

/// Whether the patches of the first `images` images have their rows and columns.
pub open spec fn are_patch_positions(
    rows: Seq<i64>,
    columns: Seq<i64>,
    grids: Seq<(usize, usize)>,
    images: int,
) -> bool {
    &&& rows.len() == queries::positions(grids, images)
    &&& columns.len() == rows.len()
    &&& forall|i: int, row: int, column: int|
        #![trigger rows[queries::positions(grids, i) + row * grids[i].1 + column]]
        0 <= i < images && 0 <= row < grids[i].0 && 0 <= column < grids[i].1 ==> {
            let at = queries::positions(grids, i) + row * grids[i].1 + column;
            rows[at] == row && columns[at] == column
        }
}

/// Whether a number is the longest side of images.
pub open spec fn is_longest(longest: usize, grids: Seq<(usize, usize)>) -> bool {
    &&& forall|i: int|
        0 <= i < grids.len() ==> (#[trigger] grids[i]).0 <= longest && grids[i].1 <= longest
    &&& grids.len() > 0 ==> exists|i: int|
        0 <= i < grids.len() && ((#[trigger] grids[i]).0 == longest || grids[i].1 == longest)
    &&& grids.len() == 0 ==> longest == 0
}

proof fn lemma_patch_place(row: int, column: int, height: int, width: int)
    requires
        0 <= row < height,
        0 <= column < width,
    ensures
        0 <= row * width + column < height * width,
{
    assert(0 <= row * width + column < height * width) by (nonlinear_arith)
        requires
            0 <= row < height,
            0 <= column < width,
    ;
}

/// Numbers the rows and columns of the patches of images, image by image and row by row.
pub fn patch_positions(grids: &Vec<(usize, usize)>) -> (at: PatchPositions)
    requires
        forall|i: int|
            0 <= i < grids@.len() ==> (#[trigger] grids@[i]).0 <= i64::MAX && grids@[i].1
                <= i64::MAX,
    ensures
        are_patch_positions(at.rows@, at.columns@, grids@, grids@.len() as int),
        is_longest(at.longest, grids@),
{
    let mut rows: Vec<i64> = Vec::new();
    let mut columns: Vec<i64> = Vec::new();
    let mut longest: usize = 0;
    let mut i: usize = 0;
    while i < grids.len()
        invariant
            i <= grids@.len(),
            forall|k: int|
                0 <= k < grids@.len() ==> (#[trigger] grids@[k]).0 <= i64::MAX && grids@[k].1
                    <= i64::MAX,
            are_patch_positions(rows@, columns@, grids@, i as int),
            is_longest(longest, grids@.take(i as int)),
        decreases grids.len() - i,
    {
        let (height, width) = grids[i];
        let ghost base = rows@;
        let ghost base_columns = columns@;
        let ghost w = width as int;
        proof {
            lemma_positions_step(grids@, i as int);
            assert(0 * w == 0) by (nonlinear_arith);
        }
        let mut row: usize = 0;
        while row < height
            invariant
                row <= height <= i64::MAX,
                w == width <= i64::MAX,
                rows@.len() == base.len() + row * w,
                columns@.len() == rows@.len(),
                base.len() == base_columns.len(),
                forall|k: int| 0 <= k < base.len() ==> #[trigger] rows@[k] == base[k],
                forall|k: int|
                    0 <= k < base.len() ==> #[trigger] columns@[k] == base_columns[k],
                forall|r: int, c: int|
                    #![trigger rows@[base.len() + r * w + c]]
                    0 <= r < row && 0 <= c < w ==> rows@[base.len() + r * w + c] == r
                        && columns@[base.len() + r * w + c] == c,
            decreases height - row,
        {
            let ghost before = rows@;
            let ghost before_columns = columns@;
            let mut column: usize = 0;
            while column < width
                invariant
                    column <= width <= i64::MAX,
                    row < height <= i64::MAX,
                    rows@.len() == before.len() + column,
                    columns@.len() == rows@.len(),
                    before.len() == before_columns.len(),
                    forall|k: int| 0 <= k < before.len() ==> #[trigger] rows@[k] == before[k],
                    forall|k: int|
                        0 <= k < before.len() ==> #[trigger] columns@[k] == before_columns[k],
                    forall|k: int|
                        before.len() <= k < rows@.len() ==> #[trigger] rows@[k] == row,
                    forall|k: int|
                        before.len() <= k < rows@.len() ==> #[trigger] columns@[k] == k
                            - before.len(),
                decreases width - column,
            {
                rows.push(row as i64);
                columns.push(column as i64);
                column = column + 1;
            }
            proof {
                assert((row + 1) * w == row * w + w) by (nonlinear_arith);
                assert forall|k: int| 0 <= k < base.len() implies #[trigger] rows@[k] == base[k] by {
                    assert(row * w >= 0) by (nonlinear_arith)
                        requires
                            row >= 0,
                            w >= 0,
                    ;
                    assert(before[k] == base[k]);
                }
                assert forall|k: int| 0 <= k < base.len() implies #[trigger] columns@[k]
                    == base_columns[k] by {
                    assert(row * w >= 0) by (nonlinear_arith)
                        requires
                            row >= 0,
                            w >= 0,
                    ;
                    assert(before_columns[k] == base_columns[k]);
                }
                assert forall|r: int, c: int|
                    #![trigger rows@[base.len() + r * w + c]]
                    0 <= r < row + 1 && 0 <= c < w implies rows@[base.len() + r * w + c] == r
                    && columns@[base.len() + r * w + c] == c by {
                    if r < row {
                        lemma_patch_place(r, c, row as int, w);
                        assert(before[base.len() + r * w + c] == r);
                    }
                }
            }
            row = row + 1;
        }
        proof {
            let start = queries::positions(grids@, i as int);
            assert forall|k: int, r: int, c: int|
                #![trigger rows@[queries::positions(grids@, k) + r * grids@[k].1 + c]]
                0 <= k < i + 1 && 0 <= r < grids@[k].0 && 0 <= c < grids@[k].1 implies {
                let at = queries::positions(grids@, k) + r * grids@[k].1 + c;
                rows@[at] == r && columns@[at] == c
            } by {
                if k < i {
                    lemma_patch_place(r, c, grids@[k].0 as int, grids@[k].1 as int);
                    lemma_positions_step(grids@, k);
                    queries::lemma_positions_grow(grids@, k, k);
                    queries::lemma_positions_grow(grids@, k + 1, i as int);
                    let at = queries::positions(grids@, k) + r * grids@[k].1 + c;
                    assert(base[at] == r);
                } else {
                    assert(rows@[base.len() + r * w + c] == r);
                }
            }
        }
        let ghost seen = grids@.take(i as int);
        let ghost next = grids@.take(i + 1);
        let side: usize = if height > width {
            height
        } else {
            width
        };
        let ghost earlier = longest;
        if side > longest {
            longest = side;
        }
        proof {
            assert(next == seen.push(grids@[i as int]));
            assert forall|k: int| 0 <= k < next.len() implies (#[trigger] next[k]).0 <= longest
                && next[k].1 <= longest by {
                if k < i {
                    assert(seen[k].0 <= earlier);
                }
            }
            if side > earlier || seen.len() == 0 {
                assert(next[i as int].0 == longest || next[i as int].1 == longest);
            } else {
                let k = choose|k: int|
                    0 <= k < seen.len() && ((#[trigger] seen[k]).0 == earlier || seen[k].1
                        == earlier);
                assert(next[k].0 == longest || next[k].1 == longest);
            }
        }
        i = i + 1;
    }
    assert(grids@.take(i as int) == grids@);
    PatchPositions { rows, columns, longest }
}

/// Blocks of `merge` by `merge` patches of an image. There are none where a side is not
/// made of whole blocks.
pub fn merged_blocks(height: usize, width: usize, merge: usize) -> (blocks: Option<(usize, usize)>)
    requires
        merge > 0,
    ensures
        blocks is Some <==> height as int % merge as int == 0 && width as int % merge as int == 0,
        blocks matches Some((rows, columns)) ==> rows == height / merge && columns == width
            / merge,
{
    if height % merge != 0 || width % merge != 0 {
        None
    } else {
        Some((height / merge, width / merge))
    }
}

/// An image has one block for every `merge * merge` patches.
pub proof fn law_blocks_share_the_patches(height: int, width: int, merge: int)
    requires
        height >= 0,
        width >= 0,
        merge > 0,
        height % merge == 0,
        width % merge == 0,
    ensures
        (height / merge) * (width / merge) == height * width / (merge * merge),
{
    let r = height / merge;
    let c = width / merge;
    lemma_fundamental_div_mod(height, merge);
    lemma_fundamental_div_mod(width, merge);
    assert(height * width == (r * c) * (merge * merge)) by (nonlinear_arith)
        requires
            height == merge * r,
            width == merge * c,
    ;
    assert(merge * merge > 0) by (nonlinear_arith)
        requires
            merge > 0,
    ;
    lemma_div_multiples_vanish(r * c, merge * merge);
    assert((merge * merge) * (r * c) == (r * c) * (merge * merge)) by (nonlinear_arith);
}

/// Frequencies that turn by the time, by the row and by the column of a token. There is no
/// division where they are not one for every two numbers of a head.
pub fn rotary_sections(sections: [usize; 3], head_dim: usize) -> (spans: Option<[Span; 3]>)
    ensures
        spans is Some <==> sections@[0] + sections@[1] + sections@[2] == head_dim / 2,
        spans matches Some(s) ==> {
            &&& s@[0].start == 0
            &&& s@[0].end == sections@[0]
            &&& s@[1].start == s@[0].end
            &&& s@[1].end == sections@[0] + sections@[1]
            &&& s@[2].start == s@[1].end
            &&& s@[2].end == head_dim / 2
        },
{
    let half: usize = head_dim / 2;
    let time: usize = sections[0];
    if time > half || sections[1] > half - time {
        return None;
    }
    let rows: usize = time + sections[1];
    if sections[2] != half - rows {
        return None;
    }
    Some(
        [
            Span { start: 0, end: time },
            Span { start: time, end: rows },
            Span { start: rows, end: half },
        ],
    )
}

/// The patches of an image are numbered row by row behind those of the images before it.
pub proof fn law_patches_are_numbered_by_row(
    rows: Seq<i64>,
    columns: Seq<i64>,
    grids: Seq<(usize, usize)>,
    i: int,
    row: int,
    column: int,
)
    requires
        are_patch_positions(rows, columns, grids, grids.len() as int),
        0 <= i < grids.len(),
        0 <= row < grids[i].0,
        0 <= column < grids[i].1,
    ensures
        ({
            let at = queries::positions(grids, i) + row * grids[i].1 + column;
            rows[at] == row && columns[at] == column
        }),
        rows.len() == queries::positions(grids, grids.len() as int),
        columns.len() == rows.len(),
{
    let at = queries::positions(grids, i) + row * grids[i].1 + column;
    assert(rows[queries::positions(grids, i) + row * grids[i].1 + column] == row);
}

/// No side of an image is longer than the longest one, and one is as long.
pub proof fn law_the_longest_side_is_a_side(longest: usize, grids: Seq<(usize, usize)>, i: int)
    requires
        is_longest(longest, grids),
        0 <= i < grids.len(),
    ensures
        grids[i].0 <= longest,
        grids[i].1 <= longest,
        exists|j: int|
            0 <= j < grids.len() && (longest == (#[trigger] grids[j]).0 || longest == grids[j].1),
{
}

} // verus!
