//! Multimodal rotary position indices: every token gets a temporal, a height
//! and a width position.

use vstd::arithmetic::div_mod::*;
use vstd::prelude::*;

verus! {

/// Positions of all tokens on the three axes.
pub struct RopeIndex {
    pub temporal: Vec<i64>,
    pub height: Vec<i64>,
    pub width: Vec<i64>,
    /// Greatest position plus one, minus the number of tokens: the offset of
    /// the positions of generated tokens.
    pub rope_deltas: i64,
}

/// Frames, rows and columns of an image after the vision encoder.
pub type Grid = (usize, usize, usize);

/// 1 for every image token, 0 for every other token.
pub open spec fn token_types(ids: Seq<u32>, image_token_id: u32) -> Seq<u8> {
    ids.map_values(
        |id: u32|
            if id == image_token_id {
                1u8
            } else {
                0u8
            },
    )
}

/// Marks the image tokens of a prompt.
pub fn build_mm_token_type_ids(input_ids: &[u32], image_token_id: u32) -> (types: Vec<u8>)
    ensures
        types@ == token_types(input_ids@, image_token_id),
{
    let mut types: Vec<u8> = Vec::new();
    let mut i: usize = 0;
    while i < input_ids.len()
        invariant
            i <= input_ids@.len(),
            types@ == token_types(input_ids@, image_token_id).take(i as int),
        decreases input_ids.len() - i,
    {
        if input_ids[i] == image_token_id {
            types.push(1);
        } else {
            types.push(0);
        }
        assert(types@ == token_types(input_ids@, image_token_id).take(i as int + 1));
        i = i + 1;
    }
    types
}

/// Number of image tokens that directly follow an image-start token.
pub open spec fn image_count(ids: Seq<u32>, start_token: u32, image_token: u32) -> nat
    decreases ids.len(),
{
    if ids.len() < 2 {
        0
    } else {
        image_count(ids.drop_last(), start_token, image_token) + if ids[ids.len() - 2]
            == start_token && ids.last() == image_token {
            1nat
        } else {
            0nat
        }
    }
}

/// First index from `from` on that holds `token`; the length where none does.
pub open spec fn first_from(ids: Seq<u32>, token: u32, from: int) -> int
    decreases ids.len() - from,
{
    if from >= ids.len() || ids[from] == token {
        from
    } else {
        first_from(ids, token, from + 1)
    }
}

pub open spec fn merged(side: usize, merge: usize) -> int {
    side as int / merge as int
}

/// Number of tokens of an image once patches are merged.
pub open spec fn vision_tokens(grid: Grid, merge: usize) -> int {
    grid.0 * merged(grid.1, merge) * merged(grid.2, merge)
}

pub open spec fn larger(a: int, b: int) -> int {
    if a >= b {
        a
    } else {
        b
    }
}

/// Index of the first token after the first `k` images.
pub open spec fn tokens_before(
    ids: Seq<u32>,
    grids: Seq<Grid>,
    image_token: u32,
    merge: usize,
    k: int,
) -> int
    decreases k,
{
    if k <= 0 {
        0
    } else {
        first_from(ids, image_token, tokens_before(ids, grids, image_token, merge, k - 1))
            + vision_tokens(grids[k - 1], merge)
    }
}

/// Index of the first token of image `k`.
pub open spec fn image_index(
    ids: Seq<u32>,
    grids: Seq<Grid>,
    image_token: u32,
    merge: usize,
    k: int,
) -> int {
    first_from(ids, image_token, tokens_before(ids, grids, image_token, merge, k))
}

/// Position of the first token after the first `k` images: one past the
/// positions of image `k - 1`, and zero behind an image without tokens.
pub open spec fn position_before(
    ids: Seq<u32>,
    grids: Seq<Grid>,
    image_token: u32,
    merge: usize,
    k: int,
) -> int
    decreases k, 0int,
{
    if k <= 0 {
        0
    } else if vision_tokens(grids[k - 1], merge) == 0 {
        0
    } else {
        image_position(ids, grids, image_token, merge, k - 1) + larger(
            merged(grids[k - 1].1, merge),
            merged(grids[k - 1].2, merge),
        )
    }
}

/// Position that the rows and columns of image `k` count from.
pub open spec fn image_position(
    ids: Seq<u32>,
    grids: Seq<Grid>,
    image_token: u32,
    merge: usize,
    k: int,
) -> int
    decreases k, 1int,
{
    position_before(ids, grids, image_token, merge, k) + image_index(
        ids,
        grids,
        image_token,
        merge,
        k,
    ) - tokens_before(ids, grids, image_token, merge, k)
}

pub enum Axis {
    Temporal,
    Height,
    Width,
}

/// `count` consecutive positions from `first` on.
pub open spec fn text_run(first: int, count: int) -> Seq<int> {
    Seq::new(count as nat, |i: int| first + i)
}

/// Positions of the tokens of one image: all frames share `offset` on the
/// temporal axis, rows and columns count up from it.
pub open spec fn image_run(axis: Axis, grid: Grid, merge: usize, offset: int) -> Seq<int> {
    let rows = merged(grid.1, merge);
    let columns = merged(grid.2, merge);
    Seq::new(
        vision_tokens(grid, merge) as nat,
        |i: int|
            match axis {
                Axis::Temporal => offset,
                Axis::Height => offset + (i / columns) % rows,
                Axis::Width => offset + i % columns,
            },
    )
}

/// Positions on one axis of the tokens up to the end of the first `k` images.
pub open spec fn positions_before(
    axis: Axis,
    ids: Seq<u32>,
    grids: Seq<Grid>,
    image_token: u32,
    merge: usize,
    k: int,
) -> Seq<int>
    decreases k,
{
    if k <= 0 {
        Seq::empty()
    } else {
        positions_before(axis, ids, grids, image_token, merge, k - 1) + text_run(
            position_before(ids, grids, image_token, merge, k - 1),
            image_index(ids, grids, image_token, merge, k - 1) - tokens_before(
                ids,
                grids,
                image_token,
                merge,
                k - 1,
            ),
        ) + image_run(
            axis,
            grids[k - 1],
            merge,
            image_position(ids, grids, image_token, merge, k - 1),
        )
    }
}

/// Positions of all tokens on one axis.
pub open spec fn axis_positions(
    axis: Axis,
    ids: Seq<u32>,
    grids: Seq<Grid>,
    image_token: u32,
    merge: usize,
) -> Seq<int> {
    let n = grids.len() as int;
    positions_before(axis, ids, grids, image_token, merge, n) + text_run(
        position_before(ids, grids, image_token, merge, n),
        ids.len() - tokens_before(ids, grids, image_token, merge, n),
    )
}

/// The prompt holds one image for each grid, with room for all its tokens.
pub open spec fn grids_fit(
    ids: Seq<u32>,
    grids: Seq<Grid>,
    image_token: u32,
    start_token: u32,
    merge: usize,
) -> bool {
    grids.len() == 0 || {
        &&& merge > 0
        &&& image_count(ids, start_token, image_token) == grids.len()
        &&& forall|k: int|
            0 <= k < grids.len() ==> #[trigger] image_index(ids, grids, image_token, merge, k)
                < ids.len() && grids[k].0 * merged(grids[k].1, merge) <= usize::MAX
        &&& tokens_before(ids, grids, image_token, merge, grids.len() as int) <= ids.len()
    }
}

pub open spec fn as_ints(s: Seq<i64>) -> Seq<int> {
    s.map_values(|p: i64| p as int)
}

/// Greatest element, and -1 for an empty sequence of non-negative ones.
pub open spec fn greatest(s: Seq<int>) -> int
    decreases s.len(),
{
    if s.len() == 0 {
        -1
    } else {
        larger(greatest(s.drop_last()), s.last())
    }
}

pub open spec fn count_of(ids: Seq<u32>, token: u32) -> nat
    decreases ids.len(),
{
    if ids.len() == 0 {
        0
    } else {
        count_of(ids.drop_last(), token) + if ids.last() == token {
            1nat
        } else {
            0nat
        }
    }
}

proof fn lemma_first_from(ids: Seq<u32>, token: u32, from: int)
    requires
        0 <= from <= ids.len(),
    ensures
        from <= first_from(ids, token, from) <= ids.len(),
    decreases ids.len() - from,
{
    if from < ids.len() && ids[from] != token {
        lemma_first_from(ids, token, from + 1);
    }
}

/// First index from `from` on that holds `token`; the length where none does.
fn find_from(ids: &[u32], token: u32, from: usize) -> (at: usize)
    requires
        from <= ids@.len(),
    ensures
        at == first_from(ids@, token, from as int),
        from <= at <= ids@.len(),
{
    let mut at: usize = from;
    while at < ids.len() && ids[at] != token
        invariant
            from <= at <= ids@.len(),
            first_from(ids@, token, from as int) == first_from(ids@, token, at as int),
        decreases ids.len() - at,
    {
        at = at + 1;
    }
    at
}

fn count_images(ids: &[u32], start_token: u32, image_token: u32) -> (count: usize)
    ensures
        count == image_count(ids@, start_token, image_token),
{
    let mut count: usize = 0;
    let mut i: usize = 1;
    if ids.len() < 2 {
        return 0;
    }
    assert(image_count(ids@.take(1), start_token, image_token) == 0);
    while i < ids.len()
        invariant
            1 <= i <= ids@.len(),
            count == image_count(ids@.take(i as int), start_token, image_token),
            count < i,
        decreases ids.len() - i,
    {
        assert(ids@.take(i as int + 1).drop_last() == ids@.take(i as int));
        if ids[i - 1] == start_token && ids[i] == image_token {
            count = count + 1;
        }
        i = i + 1;
    }
    assert(ids@.take(ids@.len() as int) == ids@);
    count
}

/// Appends `count` consecutive positions from `first` on.
fn push_text_run(out: &mut Vec<i64>, first: i64, count: usize)
    requires
        first >= 0,
        first + count <= i64::MAX,
    ensures
        as_ints(final(out)@) == as_ints(old(out)@) + text_run(first as int, count as int),
{
    let ghost before = as_ints(out@);
    let mut i: usize = 0;
    assert(as_ints(out@) == before + text_run(first as int, 0));
    while i < count
        invariant
            first >= 0,
            first + count <= i64::MAX,
            i <= count,
            as_ints(out@) == before + text_run(first as int, i as int),
        decreases count - i,
    {
        let ghost prev = out@;
        out.push(first + i as i64);
        assert(as_ints(out@) == as_ints(prev).push(first + i));
        assert(as_ints(out@) == before + text_run(first as int, i as int + 1));
        i = i + 1;
    }
}

proof fn lemma_counter_step(i: int, n: int)
    requires
        i >= 0,
        n > 0,
    ensures
        i % n + 1 < n ==> (i + 1) / n == i / n && (i + 1) % n == i % n + 1,
        i % n + 1 == n ==> (i + 1) / n == i / n + 1 && (i + 1) % n == 0,
        0 <= i % n < n,
        0 <= i / n,
{
    let q = i / n;
    let r = i % n;
    lemma_fundamental_div_mod(i, n);
    assert(0 <= r < n && q >= 0) by (nonlinear_arith)
        requires
            i >= 0,
            n > 0,
            q == i / n,
            r == i % n,
    ;
    if r + 1 < n {
        lemma_fundamental_div_mod_converse(i + 1, n, q, r + 1);
    } else {
        assert(i + 1 == n * (q + 1) + 0) by (nonlinear_arith)
            requires
                i == n * q + r,
                r + 1 == n,
        ;
        lemma_fundamental_div_mod_converse(i + 1, n, q + 1, 0);
    }
}

/// Appends the positions of the tokens of one image.
fn push_image_run(index: &mut RopeIndex, grid: Grid, merge: usize, offset: i64)
    requires
        merge > 0,
        offset >= 0,
        grid.0 * merged(grid.1, merge) <= usize::MAX,
        vision_tokens(grid, merge) <= usize::MAX,
        vision_tokens(grid, merge) > 0 ==> offset + merged(grid.1, merge) <= i64::MAX && offset
            + merged(grid.2, merge) <= i64::MAX,
    ensures
        as_ints(final(index).temporal@) == as_ints(old(index).temporal@) + image_run(
            Axis::Temporal,
            grid,
            merge,
            offset as int,
        ),
        as_ints(final(index).height@) == as_ints(old(index).height@) + image_run(
            Axis::Height,
            grid,
            merge,
            offset as int,
        ),
        as_ints(final(index).width@) == as_ints(old(index).width@) + image_run(
            Axis::Width,
            grid,
            merge,
            offset as int,
        ),
        final(index).rope_deltas == old(index).rope_deltas,
{
    let rows: usize = grid.1 / merge;
    let columns: usize = grid.2 / merge;
    let per_frame: usize = grid.0 * rows;
    let count: usize = per_frame * columns;
    let ghost t0 = as_ints(index.temporal@);
    let ghost h0 = as_ints(index.height@);
    let ghost w0 = as_ints(index.width@);
    let ghost deltas = index.rope_deltas;
    let ghost run_t = image_run(Axis::Temporal, grid, merge, offset as int);
    let ghost run_h = image_run(Axis::Height, grid, merge, offset as int);
    let ghost run_w = image_run(Axis::Width, grid, merge, offset as int);
    let mut i: usize = 0;
    let mut row: usize = 0;
    let mut column: usize = 0;
    proof {
        assert(run_t.len() == count && run_h.len() == count && run_w.len() == count);
        assert(t0 + run_t.take(0) == t0);
        assert(h0 + run_h.take(0) == h0);
        assert(w0 + run_w.take(0) == w0);
        if count > 0 {
            assert(rows > 0 && columns > 0) by (nonlinear_arith)
                requires
                    count == per_frame * columns,
                    per_frame == grid.0 * rows,
                    count > 0,
                    rows >= 0,
                    columns >= 0,
            ;
            lemma_small_mod(0, columns as nat);
            lemma_small_mod(0, rows as nat);
            lemma_basic_div(0, columns as int);
        }
    }
    while i < count
        invariant
            i <= count,
            rows == merged(grid.1, merge),
            columns == merged(grid.2, merge),
            offset >= 0,
            count > 0 ==> rows > 0 && columns > 0,
            count > 0 ==> row == (i as int / columns as int) % (rows as int) && row < rows,
            count > 0 ==> column == i as int % columns as int && column < columns,
            count > 0 ==> offset + rows <= i64::MAX && offset + columns <= i64::MAX,
            run_t == image_run(Axis::Temporal, grid, merge, offset as int),
            run_h == image_run(Axis::Height, grid, merge, offset as int),
            run_w == image_run(Axis::Width, grid, merge, offset as int),
            run_t.len() == count,
            run_h.len() == count,
            run_w.len() == count,
            as_ints(index.temporal@) == t0 + run_t.take(i as int),
            as_ints(index.height@) == h0 + run_h.take(i as int),
            as_ints(index.width@) == w0 + run_w.take(i as int),
            index.rope_deltas == deltas,
        decreases count - i,
    {
        let ghost t1 = index.temporal@;
        let ghost h1 = index.height@;
        let ghost w1 = index.width@;
        index.temporal.push(offset);
        index.height.push(offset + row as i64);
        index.width.push(offset + column as i64);
        proof {
            assert(as_ints(index.temporal@) == as_ints(t1).push(offset as int));
            assert(as_ints(index.height@) == as_ints(h1).push(offset + row));
            assert(as_ints(index.width@) == as_ints(w1).push(offset + column));
            assert(run_t.take(i as int + 1) == run_t.take(i as int).push(offset as int));
            assert(run_h.take(i as int + 1) == run_h.take(i as int).push(offset + row));
            assert(run_w.take(i as int + 1) == run_w.take(i as int).push(offset + column));
            assert(as_ints(index.temporal@) == t0 + run_t.take(i as int + 1));
            assert(as_ints(index.height@) == h0 + run_h.take(i as int + 1));
            assert(as_ints(index.width@) == w0 + run_w.take(i as int + 1));
            lemma_counter_step(i as int, columns as int);
            lemma_counter_step(i as int / columns as int, rows as int);
        }
        i = i + 1;
        column = column + 1;
        if column == columns {
            column = 0;
            row = row + 1;
            if row == rows {
                row = 0;
            }
        }
    }
    assert(run_t.take(count as int) == run_t);
    assert(run_h.take(count as int) == run_h);
    assert(run_w.take(count as int) == run_w);
}

proof fn lemma_tokens_before_nonneg(
    ids: Seq<u32>,
    grids: Seq<Grid>,
    image_token: u32,
    merge: usize,
    k: int,
)
    requires
        merge > 0,
        0 <= k <= grids.len(),
    ensures
        tokens_before(ids, grids, image_token, merge, k) >= 0,
    decreases k,
{
    if k > 0 {
        lemma_tokens_before_nonneg(ids, grids, image_token, merge, k - 1);
        lemma_first_from_grows(
            ids,
            image_token,
            tokens_before(ids, grids, image_token, merge, k - 1),
        );
        lemma_vision_tokens(grids[k - 1], merge);
    }
}

proof fn lemma_first_from_grows(ids: Seq<u32>, token: u32, from: int)
    ensures
        from <= first_from(ids, token, from),
    decreases ids.len() - from,
{
    if from < ids.len() && ids[from] != token {
        lemma_first_from_grows(ids, token, from + 1);
    }
}

/// An image with tokens has at least as many as it has rows or columns.
proof fn lemma_vision_tokens(grid: Grid, merge: usize)
    requires
        merge > 0,
    ensures
        vision_tokens(grid, merge) >= 0,
        merged(grid.1, merge) >= 0,
        merged(grid.2, merge) >= 0,
        vision_tokens(grid, merge) > 0 ==> merged(grid.1, merge) <= vision_tokens(grid, merge)
            && merged(grid.2, merge) <= vision_tokens(grid, merge),
{
    let t = grid.0 as int;
    let h = merged(grid.1, merge);
    let w = merged(grid.2, merge);
    lemma_div_pos_is_pos(grid.1 as int, merge as int);
    lemma_div_pos_is_pos(grid.2 as int, merge as int);
    assert(t * h * w >= 0) by (nonlinear_arith)
        requires
            t >= 0,
            h >= 0,
            w >= 0,
    ;
    assert(t * h * w > 0 ==> h <= t * h * w && w <= t * h * w) by (nonlinear_arith)
        requires
            t >= 0,
            h >= 0,
            w >= 0,
    ;
}

/// The tokens before an image never need a position beyond their number.
pub proof fn lemma_positions_within_tokens(
    ids: Seq<u32>,
    grids: Seq<Grid>,
    image_token: u32,
    merge: usize,
    k: int,
)
    requires
        merge > 0,
        0 <= k <= grids.len(),
    ensures
        0 <= position_before(ids, grids, image_token, merge, k) <= tokens_before(
            ids,
            grids,
            image_token,
            merge,
            k,
        ),
    decreases k,
{
    lemma_tokens_before_nonneg(ids, grids, image_token, merge, k);
    if k > 0 {
        lemma_positions_within_tokens(ids, grids, image_token, merge, k - 1);
        lemma_first_from_grows(
            ids,
            image_token,
            tokens_before(ids, grids, image_token, merge, k - 1),
        );
        lemma_vision_tokens(grids[k - 1], merge);
    }
}

/// The tokens of the first images fit where the tokens of all images do.
proof fn lemma_tokens_before_mono(
    ids: Seq<u32>,
    grids: Seq<Grid>,
    image_token: u32,
    merge: usize,
    k: int,
    n: int,
)
    requires
        merge > 0,
        0 <= k <= n <= grids.len(),
    ensures
        tokens_before(ids, grids, image_token, merge, k) <= tokens_before(
            ids,
            grids,
            image_token,
            merge,
            n,
        ),
    decreases n - k,
{
    if k < n {
        lemma_tokens_before_mono(ids, grids, image_token, merge, k, n - 1);
        lemma_first_from_grows(
            ids,
            image_token,
            tokens_before(ids, grids, image_token, merge, n - 1),
        );
        lemma_vision_tokens(grids[n - 1], merge);
    }
}

/// Every position of the first `k` images and the text before them is
/// non-negative and below the number of those tokens.
pub proof fn lemma_positions_bounded(
    axis: Axis,
    ids: Seq<u32>,
    grids: Seq<Grid>,
    image_token: u32,
    merge: usize,
    k: int,
)
    requires
        merge > 0,
        0 <= k <= grids.len(),
    ensures
        positions_before(axis, ids, grids, image_token, merge, k).len() == tokens_before(
            ids,
            grids,
            image_token,
            merge,
            k,
        ),
        forall|i: int|
            0 <= i < positions_before(axis, ids, grids, image_token, merge, k).len() ==> 0
                <= #[trigger] positions_before(axis, ids, grids, image_token, merge, k)[i]
                < tokens_before(ids, grids, image_token, merge, k),
    decreases k,
{
    lemma_tokens_before_nonneg(ids, grids, image_token, merge, k);
    if k > 0 {
        let grid = grids[k - 1];
        let offset = image_position(ids, grids, image_token, merge, k - 1);
        let rows = merged(grid.1, merge);
        let columns = merged(grid.2, merge);
        let run = image_run(axis, grid, merge, offset);
        lemma_positions_bounded(axis, ids, grids, image_token, merge, k - 1);
        lemma_positions_within_tokens(ids, grids, image_token, merge, k - 1);
        lemma_positions_within_tokens(ids, grids, image_token, merge, k);
        lemma_first_from_grows(
            ids,
            image_token,
            tokens_before(ids, grids, image_token, merge, k - 1),
        );
        lemma_vision_tokens(grid, merge);
        assert forall|i: int| 0 <= i < run.len() implies 0 <= #[trigger] run[i] < tokens_before(
            ids,
            grids,
            image_token,
            merge,
            k,
        ) by {
            lemma_counter_bounds(i, grid.0 as int, rows, columns);
        }
    }
}

proof fn lemma_counter_bounds(i: int, frames: int, rows: int, columns: int)
    requires
        0 <= i < frames * rows * columns,
        frames >= 0,
        rows >= 0,
        columns >= 0,
    ensures
        rows > 0,
        columns > 0,
        0 <= i % columns < columns,
        0 <= (i / columns) % rows < rows,
{
    assert(rows > 0 && columns > 0) by (nonlinear_arith)
        requires
            0 < frames * rows * columns,
            rows >= 0,
            columns >= 0,
    ;
    lemma_mod_bound(i, columns);
    lemma_mod_bound(i / columns, rows);
}

proof fn lemma_greatest_below(s: Seq<int>, bound: int)
    requires
        bound >= 0,
        forall|i: int| 0 <= i < s.len() ==> #[trigger] s[i] < bound,
    ensures
        -1 <= greatest(s) < bound || s.len() == 0 && greatest(s) == -1,
    decreases s.len(),
{
    if s.len() > 0 {
        lemma_greatest_below(s.drop_last(), bound);
    }
}

/// Greatest of a list of positions, and -1 for an empty list.
fn greatest_position(positions: &Vec<i64>) -> (top: i64)
    ensures
        top == greatest(as_ints(positions@)),
{
    let mut top: i64 = -1;
    let mut i: usize = 0;
    assert(as_ints(positions@.take(0)) == Seq::<int>::empty());
    while i < positions.len()
        invariant
            i <= positions@.len(),
            top == greatest(as_ints(positions@.take(i as int))),
        decreases positions.len() - i,
    {
        proof {
            let next = as_ints(positions@.take(i as int + 1));
            assert(next.drop_last() == as_ints(positions@.take(i as int)));
            assert(next.last() == positions@[i as int]);
        }
        if positions[i] > top {
            top = positions[i];
        }
        i = i + 1;
    }
    assert(positions@.take(positions@.len() as int) == positions@);
    top
}

/// Positions of all tokens on one axis are non-negative and below their number.
pub proof fn lemma_axis_positions_bounded(
    axis: Axis,
    ids: Seq<u32>,
    grids: Seq<Grid>,
    image_token: u32,
    start_token: u32,
    merge: usize,
)
    requires
        grids_fit(ids, grids, image_token, start_token, merge),
    ensures
        axis_positions(axis, ids, grids, image_token, merge).len() == ids.len(),
        forall|i: int|
            0 <= i < ids.len() ==> 0 <= #[trigger] axis_positions(
                axis,
                ids,
                grids,
                image_token,
                merge,
            )[i] < ids.len(),
{
    if grids.len() > 0 {
        lemma_positions_bounded(axis, ids, grids, image_token, merge, grids.len() as int);
        lemma_positions_within_tokens(ids, grids, image_token, merge, grids.len() as int);
    }
}

/// Positions of the tokens of a prompt. Text counts up by one on all axes; the
/// tokens of an image share their temporal position and spread over rows and
/// columns; the text behind an image continues past its positions.
pub fn get_rope_index(
    input_ids: &[u32],
    image_grid_thw: &[Grid],
    image_token_id: u32,
    vision_start_token_id: u32,
    spatial_merge_size: usize,
) -> (index: RopeIndex)
    requires
        input_ids@.len() <= i64::MAX,
        grids_fit(
            input_ids@,
            image_grid_thw@,
            image_token_id,
            vision_start_token_id,
            spatial_merge_size,
        ),
    ensures
        as_ints(index.temporal@) == axis_positions(
            Axis::Temporal,
            input_ids@,
            image_grid_thw@,
            image_token_id,
            spatial_merge_size,
        ),
        as_ints(index.height@) == axis_positions(
            Axis::Height,
            input_ids@,
            image_grid_thw@,
            image_token_id,
            spatial_merge_size,
        ),
        as_ints(index.width@) == axis_positions(
            Axis::Width,
            input_ids@,
            image_grid_thw@,
            image_token_id,
            spatial_merge_size,
        ),
        index.temporal@.len() == input_ids@.len(),
        index.height@.len() == input_ids@.len(),
        index.width@.len() == input_ids@.len(),
        index.rope_deltas == delta(
            input_ids@,
            image_grid_thw@,
            image_token_id,
            spatial_merge_size,
        ),
        index.rope_deltas <= 0,
{
    let seq_len: usize = input_ids.len();
    let ghost ids = input_ids@;
    let ghost grids = image_grid_thw@;
    let merge: usize = spatial_merge_size;
    let mut index = RopeIndex {
        temporal: Vec::new(),
        height: Vec::new(),
        width: Vec::new(),
        rope_deltas: 0,
    };
    let mut st: usize = 0;
    let mut st_idx: i64 = 0;
    let mut k: usize = 0;
    assert(as_ints(index.temporal@) == Seq::<int>::empty());
    while k < image_grid_thw.len()
        invariant
            ids == input_ids@,
            grids == image_grid_thw@,
            merge == spatial_merge_size,
            seq_len == ids.len(),
            ids.len() <= i64::MAX,
            grids_fit(ids, grids, image_token_id, vision_start_token_id, merge),
            k <= grids.len(),
            st == tokens_before(ids, grids, image_token_id, merge, k as int),
            st <= ids.len(),
            st_idx == position_before(ids, grids, image_token_id, merge, k as int),
            0 <= st_idx <= st,
            as_ints(index.temporal@) == positions_before(
                Axis::Temporal,
                ids,
                grids,
                image_token_id,
                merge,
                k as int,
            ),
            as_ints(index.height@) == positions_before(
                Axis::Height,
                ids,
                grids,
                image_token_id,
                merge,
                k as int,
            ),
            as_ints(index.width@) == positions_before(
                Axis::Width,
                ids,
                grids,
                image_token_id,
                merge,
                k as int,
            ),
            index.temporal@.len() == st,
            index.height@.len() == st,
            index.width@.len() == st,
            index.rope_deltas == 0,
        decreases image_grid_thw.len() - k,
    {
        let grid: Grid = image_grid_thw[k];
        let ed: usize = find_from(input_ids, image_token_id, st);
        let text_len: usize = ed - st;
        let offset: i64 = st_idx + text_len as i64;
        proof {
            assert(image_index(ids, grids, image_token_id, merge, k as int) == ed);
            assert(image_position(ids, grids, image_token_id, merge, k as int) == offset);
            lemma_vision_tokens(grid, merge);
            lemma_tokens_before_mono(
                ids,
                grids,
                image_token_id,
                merge,
                k as int + 1,
                grids.len() as int,
            );
            lemma_positions_within_tokens(ids, grids, image_token_id, merge, k as int + 1);
            assert(ed + vision_tokens(grid, merge) <= ids.len());
        }
        push_text_run(&mut index.temporal, st_idx, text_len);
        push_text_run(&mut index.height, st_idx, text_len);
        push_text_run(&mut index.width, st_idx, text_len);
        push_image_run(&mut index, grid, merge, offset);
        let rows: usize = grid.1 / merge;
        let columns: usize = grid.2 / merge;
        let per_frame: usize = grid.0 * rows;
        let tokens: usize = per_frame * columns;
        st = ed + tokens;
        if tokens == 0 {
            st_idx = 0;
        } else if rows >= columns {
            st_idx = offset + rows as i64;
        } else {
            st_idx = offset + columns as i64;
        }
        k = k + 1;
        proof {
            assert(as_ints(index.temporal@).len() == index.temporal@.len());
            assert(as_ints(index.height@).len() == index.height@.len());
            assert(as_ints(index.width@).len() == index.width@.len());
        }
    }
    let rest: usize = seq_len - st;
    push_text_run(&mut index.temporal, st_idx, rest);
    push_text_run(&mut index.height, st_idx, rest);
    push_text_run(&mut index.width, st_idx, rest);
    let top_t: i64 = greatest_position(&index.temporal);
    let top_h: i64 = greatest_position(&index.height);
    let top_w: i64 = greatest_position(&index.width);
    proof {
        let start = vision_start_token_id;
        lemma_axis_positions_bounded(Axis::Temporal, ids, grids, image_token_id, start, merge);
        lemma_axis_positions_bounded(Axis::Height, ids, grids, image_token_id, start, merge);
        lemma_axis_positions_bounded(Axis::Width, ids, grids, image_token_id, start, merge);
        lemma_greatest_below(as_ints(index.temporal@), ids.len() as int);
        lemma_greatest_below(as_ints(index.height@), ids.len() as int);
        lemma_greatest_below(as_ints(index.width@), ids.len() as int);
        assert(as_ints(index.temporal@).len() == index.temporal@.len());
        assert(as_ints(index.height@).len() == index.height@.len());
        assert(as_ints(index.width@).len() == index.width@.len());
    }
    let top_th: i64 = if top_t >= top_h {
        top_t
    } else {
        top_h
    };
    let top: i64 = if top_th >= top_w {
        top_th
    } else {
        top_w
    };
    index.rope_deltas = top + 1 - seq_len as i64;
    index
}

/// Whether a prompt holds one image for each grid, with room for all its
/// tokens.
pub fn prompt_holds_grids(
    input_ids: &[u32],
    image_grid_thw: &[Grid],
    image_token_id: u32,
    vision_start_token_id: u32,
    spatial_merge_size: usize,
) -> (fits: bool)
    ensures
        fits == grids_fit(
            input_ids@,
            image_grid_thw@,
            image_token_id,
            vision_start_token_id,
            spatial_merge_size,
        ),
{
    let ghost ids = input_ids@;
    let ghost grids = image_grid_thw@;
    let seq_len: usize = input_ids.len();
    let merge: usize = spatial_merge_size;
    if image_grid_thw.len() == 0 {
        return true;
    }
    if merge == 0 || count_images(input_ids, vision_start_token_id, image_token_id)
        != image_grid_thw.len() {
        return false;
    }
    let mut st: usize = 0;
    let mut k: usize = 0;
    while k < image_grid_thw.len()
        invariant
            ids == input_ids@,
            grids == image_grid_thw@,
            seq_len == ids.len(),
            merge == spatial_merge_size,
            merge > 0,
            grids.len() > 0,
            k <= grids.len(),
            st == tokens_before(ids, grids, image_token_id, merge, k as int),
            st <= ids.len(),
            forall|j: int|
                0 <= j < k ==> #[trigger] image_index(ids, grids, image_token_id, merge, j)
                    < ids.len() && grids[j].0 * merged(grids[j].1, merge) <= usize::MAX,
        decreases image_grid_thw.len() - k,
    {
        let grid: Grid = image_grid_thw[k];
        let ed: usize = find_from(input_ids, image_token_id, st);
        assert(image_index(ids, grids, image_token_id, merge, k as int) == ed);
        if ed >= seq_len {
            return false;
        }
        let rows: usize = grid.1 / merge;
        let columns: usize = grid.2 / merge;
        let room: usize = seq_len - ed;
        match grid.0.checked_mul(rows) {
            Some(per_frame) => {
                let tokens: Option<usize> = per_frame.checked_mul(columns);
                let fits: bool = match tokens {
                    Some(count) => count <= room,
                    None => false,
                };
                if !fits {
                    proof {
                        let n = grids.len() as int;
                        assert(tokens_before(ids, grids, image_token_id, merge, k as int + 1)
                            > ids.len());
                        lemma_tokens_before_mono(
                            ids,
                            grids,
                            image_token_id,
                            merge,
                            k as int + 1,
                            n,
                        );
                    }
                    return false;
                }
                st = ed + per_frame * columns;
            },
            None => {
                return false;
            },
        }
        k = k + 1;
    }
    true
}

/// Without images every axis counts the tokens.
pub proof fn law_text_only_positions(axis: Axis, ids: Seq<u32>, image_token: u32, merge: usize)
    ensures
        axis_positions(axis, ids, Seq::empty(), image_token, merge) == text_run(
            0,
            ids.len() as int,
        ),
{
}

proof fn lemma_positions_prefix(
    axis: Axis,
    ids: Seq<u32>,
    grids: Seq<Grid>,
    image_token: u32,
    merge: usize,
    k: int,
    n: int,
)
    requires
        merge > 0,
        0 <= k <= n <= grids.len(),
    ensures
        positions_before(axis, ids, grids, image_token, merge, k).len() == tokens_before(
            ids,
            grids,
            image_token,
            merge,
            k,
        ),
        positions_before(axis, ids, grids, image_token, merge, n).len() == tokens_before(
            ids,
            grids,
            image_token,
            merge,
            n,
        ),
        tokens_before(ids, grids, image_token, merge, k) <= tokens_before(
            ids,
            grids,
            image_token,
            merge,
            n,
        ),
        forall|i: int|
            0 <= i < tokens_before(ids, grids, image_token, merge, k)
                ==> #[trigger] positions_before(axis, ids, grids, image_token, merge, n)[i]
                == positions_before(axis, ids, grids, image_token, merge, k)[i],
    decreases n - k,
{
    lemma_positions_bounded(axis, ids, grids, image_token, merge, k);
    lemma_positions_bounded(axis, ids, grids, image_token, merge, n);
    lemma_tokens_before_mono(ids, grids, image_token, merge, k, n);
    if k < n {
        lemma_positions_prefix(axis, ids, grids, image_token, merge, k, n - 1);
    }
}

/// The text before image `k` has the same positions on all axes, counting up
/// by one.
pub proof fn law_text_positions(
    axis: Axis,
    ids: Seq<u32>,
    grids: Seq<Grid>,
    image_token: u32,
    start_token: u32,
    merge: usize,
    k: int,
    i: int,
)
    requires
        grids_fit(ids, grids, image_token, start_token, merge),
        0 <= k < grids.len(),
        tokens_before(ids, grids, image_token, merge, k) <= i < image_index(
            ids,
            grids,
            image_token,
            merge,
            k,
        ),
    ensures
        axis_positions(axis, ids, grids, image_token, merge)[i] == position_before(
            ids,
            grids,
            image_token,
            merge,
            k,
        ) + i - tokens_before(ids, grids, image_token, merge, k),
{
    lemma_tokens_before_nonneg(ids, grids, image_token, merge, k);
    lemma_vision_tokens(grids[k], merge);
    lemma_positions_prefix(axis, ids, grids, image_token, merge, k, k + 1);
    lemma_positions_prefix(axis, ids, grids, image_token, merge, k + 1, grids.len() as int);
}

/// The tokens of image `k` take the positions of its rows and columns.
pub proof fn law_image_positions(
    axis: Axis,
    ids: Seq<u32>,
    grids: Seq<Grid>,
    image_token: u32,
    start_token: u32,
    merge: usize,
    k: int,
    j: int,
)
    requires
        grids_fit(ids, grids, image_token, start_token, merge),
        0 <= k < grids.len(),
        0 <= j < vision_tokens(grids[k], merge),
    ensures
        axis_positions(axis, ids, grids, image_token, merge)[image_index(
            ids,
            grids,
            image_token,
            merge,
            k,
        ) + j] == image_run(
            axis,
            grids[k],
            merge,
            image_position(ids, grids, image_token, merge, k),
        )[j],
{
    lemma_tokens_before_nonneg(ids, grids, image_token, merge, k);
    lemma_first_from_grows(ids, image_token, tokens_before(ids, grids, image_token, merge, k));
    lemma_positions_prefix(axis, ids, grids, image_token, merge, k, k + 1);
    lemma_positions_prefix(axis, ids, grids, image_token, merge, k + 1, grids.len() as int);
}

/// Where every image has tokens, the text behind an image continues past all
/// positions before it.
pub proof fn law_text_continues_past_images(
    axis: Axis,
    ids: Seq<u32>,
    grids: Seq<Grid>,
    image_token: u32,
    merge: usize,
    k: int,
    i: int,
)
    requires
        merge > 0,
        0 <= k <= grids.len(),
        forall|m: int| 0 <= m < k ==> vision_tokens(#[trigger] grids[m], merge) > 0,
        0 <= i < tokens_before(ids, grids, image_token, merge, k),
    ensures
        positions_before(axis, ids, grids, image_token, merge, k)[i] < position_before(
            ids,
            grids,
            image_token,
            merge,
            k,
        ),
    decreases k,
{
    if k > 0 {
        let st = tokens_before(ids, grids, image_token, merge, k - 1);
        let ed = image_index(ids, grids, image_token, merge, k - 1);
        let grid = grids[k - 1];
        lemma_positions_bounded(axis, ids, grids, image_token, merge, k - 1);
        lemma_positions_bounded(axis, ids, grids, image_token, merge, k);
        lemma_first_from_grows(ids, image_token, st);
        lemma_vision_tokens(grid, merge);
        lemma_positions_within_tokens(ids, grids, image_token, merge, k - 1);
        assert(vision_tokens(grid, merge) > 0);
        lemma_counter_bounds(0, grid.0 as int, merged(grid.1, merge), merged(grid.2, merge));
        if i < st {
            law_text_continues_past_images(axis, ids, grids, image_token, merge, k - 1, i);
        } else if i >= ed {
            lemma_counter_bounds(
                i - ed,
                grid.0 as int,
                merged(grid.1, merge),
                merged(grid.2, merge),
            );
        }
    }
}

/// Every position moved on by `by`.
pub open spec fn moved(s: Seq<int>, by: int) -> Seq<int> {
    s.map_values(|p: int| p + by)
}

/// Offset of the positions of generated tokens: one past the greatest position of a
/// prompt, minus the number of its tokens.
pub open spec fn delta(ids: Seq<u32>, grids: Seq<Grid>, image_token: u32, merge: usize) -> int {
    larger(
        larger(
            greatest(axis_positions(Axis::Temporal, ids, grids, image_token, merge)),
            greatest(axis_positions(Axis::Height, ids, grids, image_token, merge)),
        ),
        greatest(axis_positions(Axis::Width, ids, grids, image_token, merge)),
    ) + 1 - ids.len()
}

/// `prefix` is text that may stand in front of a prompt: it holds no image token, and
/// no image starts between it and the prompt.
pub open spec fn is_text_before(
    prefix: Seq<u32>,
    ids: Seq<u32>,
    image_token: u32,
    start_token: u32,
) -> bool {
    &&& forall|i: int| 0 <= i < prefix.len() ==> #[trigger] prefix[i] != image_token
    &&& !(prefix.len() > 0 && ids.len() > 0 && prefix.last() == start_token && ids[0]
        == image_token)
}

proof fn lemma_first_behind(prefix: Seq<u32>, ids: Seq<u32>, token: u32, from: int)
    requires
        0 <= from,
    ensures
        first_from(prefix + ids, token, prefix.len() + from) == prefix.len() + first_from(
            ids,
            token,
            from,
        ),
    decreases ids.len() - from,
{
    if from < ids.len() {
        assert((prefix + ids)[prefix.len() + from] == ids[from]);
        if ids[from] != token {
            lemma_first_behind(prefix, ids, token, from + 1);
        }
    }
}

proof fn lemma_first_through(prefix: Seq<u32>, ids: Seq<u32>, token: u32, from: int)
    requires
        0 <= from <= prefix.len(),
        forall|i: int| 0 <= i < prefix.len() ==> #[trigger] prefix[i] != token,
    ensures
        first_from(prefix + ids, token, from) == prefix.len() + first_from(ids, token, 0),
    decreases prefix.len() - from,
{
    if from < prefix.len() {
        assert((prefix + ids)[from] == prefix[from]);
        lemma_first_through(prefix, ids, token, from + 1);
    } else {
        lemma_first_behind(prefix, ids, token, 0);
    }
}

proof fn lemma_no_images_in_text(prefix: Seq<u32>, start_token: u32, image_token: u32)
    requires
        forall|i: int| 0 <= i < prefix.len() ==> #[trigger] prefix[i] != image_token,
    ensures
        image_count(prefix, start_token, image_token) == 0,
    decreases prefix.len(),
{
    if prefix.len() >= 2 {
        assert forall|i: int| 0 <= i < prefix.drop_last().len() implies #[trigger] prefix.drop_last()[i]
            != image_token by {
            assert(prefix.drop_last()[i] == prefix[i]);
        }
        lemma_no_images_in_text(prefix.drop_last(), start_token, image_token);
        assert(prefix[prefix.len() - 1] != image_token);
    }
}

proof fn lemma_images_behind_text(
    prefix: Seq<u32>,
    ids: Seq<u32>,
    image_token: u32,
    start_token: u32,
)
    requires
        is_text_before(prefix, ids, image_token, start_token),
    ensures
        image_count(prefix + ids, start_token, image_token) == image_count(
            ids,
            start_token,
            image_token,
        ),
    decreases ids.len(),
{
    let all = prefix + ids;
    if ids.len() == 0 {
        assert(all == prefix);
        lemma_no_images_in_text(prefix, start_token, image_token);
    } else {
        assert(all.drop_last() == prefix + ids.drop_last());
        if ids.len() == 1 {
            assert(prefix + ids.drop_last() == prefix);
            lemma_no_images_in_text(prefix, start_token, image_token);
            if prefix.len() > 0 {
                assert(all[all.len() - 2] == prefix.last());
            }
        } else {
            assert(ids.drop_last()[0] == ids[0]);
            lemma_images_behind_text(prefix, ids.drop_last(), image_token, start_token);
            assert(all[all.len() - 2] == ids[ids.len() - 2]);
        }
    }
}

proof fn lemma_places_move(
    prefix: Seq<u32>,
    ids: Seq<u32>,
    grids: Seq<Grid>,
    image_token: u32,
    merge: usize,
    k: int,
)
    requires
        merge > 0,
        0 <= k <= grids.len(),
        forall|i: int| 0 <= i < prefix.len() ==> #[trigger] prefix[i] != image_token,
        forall|m: int| 0 <= m < grids.len() ==> vision_tokens(#[trigger] grids[m], merge) > 0,
    ensures
        k > 0 ==> tokens_before(prefix + ids, grids, image_token, merge, k) == prefix.len()
            + tokens_before(ids, grids, image_token, merge, k),
        k > 0 ==> position_before(prefix + ids, grids, image_token, merge, k) == prefix.len()
            + position_before(ids, grids, image_token, merge, k),
        image_index(prefix + ids, grids, image_token, merge, k) == prefix.len() + image_index(
            ids,
            grids,
            image_token,
            merge,
            k,
        ),
        image_position(prefix + ids, grids, image_token, merge, k) == prefix.len()
            + image_position(ids, grids, image_token, merge, k),
    decreases k,
{
    if k == 0 {
        lemma_first_through(prefix, ids, image_token, 0);
    } else {
        lemma_places_move(prefix, ids, grids, image_token, merge, k - 1);
        assert(vision_tokens(grids[k - 1], merge) > 0);
        lemma_tokens_before_nonneg(ids, grids, image_token, merge, k);
        lemma_first_behind(
            prefix,
            ids,
            image_token,
            tokens_before(ids, grids, image_token, merge, k),
        );
    }
}

proof fn lemma_positions_move(
    axis: Axis,
    prefix: Seq<u32>,
    ids: Seq<u32>,
    grids: Seq<Grid>,
    image_token: u32,
    merge: usize,
    k: int,
)
    requires
        merge > 0,
        0 < k <= grids.len(),
        forall|i: int| 0 <= i < prefix.len() ==> #[trigger] prefix[i] != image_token,
        forall|m: int| 0 <= m < grids.len() ==> vision_tokens(#[trigger] grids[m], merge) > 0,
    ensures
        positions_before(axis, prefix + ids, grids, image_token, merge, k) == text_run(
            0,
            prefix.len() as int,
        ) + moved(
            positions_before(axis, ids, grids, image_token, merge, k),
            prefix.len() as int,
        ),
    decreases k,
{
    let by = prefix.len() as int;
    let before = positions_before(axis, ids, grids, image_token, merge, k - 1);
    let start = position_before(ids, grids, image_token, merge, k - 1);
    let count = image_index(ids, grids, image_token, merge, k - 1) - tokens_before(
        ids,
        grids,
        image_token,
        merge,
        k - 1,
    );
    let at = image_position(ids, grids, image_token, merge, k - 1);
    let grid = grids[k - 1];
    lemma_places_move(prefix, ids, grids, image_token, merge, k - 1);
    lemma_tokens_before_nonneg(ids, grids, image_token, merge, k - 1);
    lemma_first_from_grows(
        ids,
        image_token,
        tokens_before(ids, grids, image_token, merge, k - 1),
    );
    assert(image_run(axis, grid, merge, at + by) == moved(image_run(axis, grid, merge, at), by));
    let run = image_run(axis, grid, merge, at);
    let whole = positions_before(axis, ids, grids, image_token, merge, k);
    assert(whole == before + text_run(start, count) + run);
    assert(moved(whole, by) == moved(before, by) + moved(text_run(start, count), by) + moved(
        run,
        by,
    ));
    assert(moved(text_run(start, count), by) == text_run(start + by, count));
    if k == 1 {
        assert(moved(before, by) == Seq::<int>::empty());
        assert(text_run(0, by + count) == text_run(0, by) + text_run(by, count));
        assert(positions_before(axis, prefix + ids, grids, image_token, merge, 0) == Seq::<
            int,
        >::empty());
        assert(tokens_before(prefix + ids, grids, image_token, merge, 0) == 0);
        assert(position_before(prefix + ids, grids, image_token, merge, 0) == 0);
        assert(positions_before(axis, prefix + ids, grids, image_token, merge, k) == Seq::<
            int,
        >::empty() + text_run(0, by + count) + image_run(axis, grid, merge, at + by));
        assert(Seq::<int>::empty() + text_run(0, by + count) == text_run(0, by + count));
        assert(text_run(0, by) + text_run(by, count) + moved(run, by) == text_run(0, by) + (Seq::<
            int,
        >::empty() + text_run(by, count) + moved(run, by)));
    } else {
        lemma_positions_move(axis, prefix, ids, grids, image_token, merge, k - 1);
        assert((text_run(0, by) + moved(before, by)) + text_run(start + by, count) + moved(run, by)
            == text_run(0, by) + (moved(before, by) + text_run(start + by, count) + moved(
            run,
            by,
        )));
    }
}

proof fn lemma_all_positions_move(
    axis: Axis,
    prefix: Seq<u32>,
    ids: Seq<u32>,
    grids: Seq<Grid>,
    image_token: u32,
    start_token: u32,
    merge: usize,
)
    requires
        grids_fit(ids, grids, image_token, start_token, merge),
        forall|m: int| 0 <= m < grids.len() ==> vision_tokens(#[trigger] grids[m], merge) > 0,
        is_text_before(prefix, ids, image_token, start_token),
    ensures
        axis_positions(axis, prefix + ids, grids, image_token, merge) == text_run(
            0,
            prefix.len() as int,
        ) + moved(axis_positions(axis, ids, grids, image_token, merge), prefix.len() as int),
{
    let by = prefix.len() as int;
    let n = grids.len() as int;
    if n == 0 {
        assert(text_run(0, by + ids.len()) == text_run(0, by) + moved(
            text_run(0, ids.len() as int),
            by,
        ));
        assert(axis_positions(axis, prefix + ids, grids, image_token, merge) == text_run(
            0,
            by + ids.len(),
        ));
        assert(axis_positions(axis, ids, grids, image_token, merge) == text_run(
            0,
            ids.len() as int,
        ));
    } else {
        lemma_positions_move(axis, prefix, ids, grids, image_token, merge, n);
        lemma_places_move(prefix, ids, grids, image_token, merge, n);
        let before = positions_before(axis, ids, grids, image_token, merge, n);
        let start = position_before(ids, grids, image_token, merge, n);
        let count = ids.len() - tokens_before(ids, grids, image_token, merge, n);
        assert(moved(before + text_run(start, count), by) == moved(before, by) + text_run(
            start + by,
            count,
        ));
        assert((text_run(0, by) + moved(before, by)) + text_run(start + by, count) == text_run(
            0,
            by,
        ) + (moved(before, by) + text_run(start + by, count)));
    }
}

proof fn lemma_greatest_of_run(count: nat)
    ensures
        greatest(text_run(0, count as int)) == count - 1,
    decreases count,
{
    if count > 0 {
        lemma_greatest_of_run((count - 1) as nat);
        assert(text_run(0, count as int).drop_last() == text_run(0, count - 1));
    }
}

proof fn lemma_greatest_moves(s: Seq<int>, by: nat)
    ensures
        greatest(text_run(0, by as int) + moved(s, by as int)) == greatest(s) + by,
    decreases s.len(),
{
    let all = text_run(0, by as int) + moved(s, by as int);
    if s.len() == 0 {
        assert(all == text_run(0, by as int));
        lemma_greatest_of_run(by);
    } else {
        lemma_greatest_moves(s.drop_last(), by);
        assert(all.drop_last() == text_run(0, by as int) + moved(s.drop_last(), by as int));
        assert(all.last() == s.last() + by);
    }
}

/// Text in front of a prompt whose images all have tokens counts up from zero, moves
/// every position of the prompt on by the number of its tokens, and leaves the offset
/// of generated tokens.
pub proof fn law_text_in_front_moves_positions(
    prefix: Seq<u32>,
    ids: Seq<u32>,
    grids: Seq<Grid>,
    image_token: u32,
    start_token: u32,
    merge: usize,
)
    requires
        grids_fit(ids, grids, image_token, start_token, merge),
        forall|m: int| 0 <= m < grids.len() ==> vision_tokens(#[trigger] grids[m], merge) > 0,
        is_text_before(prefix, ids, image_token, start_token),
    ensures
        grids_fit(prefix + ids, grids, image_token, start_token, merge),
        forall|axis: Axis|
            #[trigger] axis_positions(axis, prefix + ids, grids, image_token, merge) == text_run(
                0,
                prefix.len() as int,
            ) + moved(axis_positions(axis, ids, grids, image_token, merge), prefix.len() as int),
        delta(prefix + ids, grids, image_token, merge) == delta(ids, grids, image_token, merge),
{
    let all = prefix + ids;
    if grids.len() > 0 {
        lemma_images_behind_text(prefix, ids, image_token, start_token);
        assert forall|k: int| 0 <= k < grids.len() implies #[trigger] image_index(
            all,
            grids,
            image_token,
            merge,
            k,
        ) < all.len() && grids[k].0 * merged(grids[k].1, merge) <= usize::MAX by {
            lemma_places_move(prefix, ids, grids, image_token, merge, k);
            assert(image_index(ids, grids, image_token, merge, k) < ids.len());
        }
        lemma_places_move(prefix, ids, grids, image_token, merge, grids.len() as int);
    }
    assert forall|axis: Axis|
        #[trigger] axis_positions(axis, all, grids, image_token, merge) == text_run(
            0,
            prefix.len() as int,
        ) + moved(axis_positions(axis, ids, grids, image_token, merge), prefix.len() as int) by {
        lemma_all_positions_move(axis, prefix, ids, grids, image_token, start_token, merge);
    }
    lemma_greatest_moves(
        axis_positions(Axis::Temporal, ids, grids, image_token, merge),
        prefix.len(),
    );
    lemma_greatest_moves(
        axis_positions(Axis::Height, ids, grids, image_token, merge),
        prefix.len(),
    );
    lemma_greatest_moves(
        axis_positions(Axis::Width, ids, grids, image_token, merge),
        prefix.len(),
    );
}

/// The first index of a token holds it, and none before it does.
pub proof fn law_first_tokens_come_first(ids: Seq<u32>, token: u32, from: int)
    requires
        0 <= from,
        first_from(ids, token, from) < ids.len(),
    ensures
        ids[first_from(ids, token, from)] == token,
        forall|i: int| from <= i < first_from(ids, token, from) ==> #[trigger] ids[i] != token,
    decreases ids.len() - from,
{
    if from < ids.len() && ids[from] != token {
        law_first_tokens_come_first(ids, token, from + 1);
    }
}

/// The tokens of an image start at an image token that no other comes before, from the
/// end of the image before it on. All of them share one temporal position; each stands
/// as many rows down and columns across from it as in the image, frame by frame.
pub proof fn law_image_tokens_spread_over_rows_and_columns(
    ids: Seq<u32>,
    grids: Seq<Grid>,
    image_token: u32,
    start_token: u32,
    merge: usize,
    k: int,
    frame: int,
    row: int,
    column: int,
)
    requires
        grids_fit(ids, grids, image_token, start_token, merge),
        0 <= k < grids.len(),
        0 <= frame < grids[k].0,
        0 <= row < grids[k].1 as int / merge as int,
        0 <= column < grids[k].2 as int / merge as int,
    ensures
        ({
            let first = image_index(ids, grids, image_token, merge, k);
            let rows = grids[k].1 as int / merge as int;
            let columns = grids[k].2 as int / merge as int;
            let at = first + (frame * rows + row) * columns + column;
            let time = axis_positions(Axis::Temporal, ids, grids, image_token, merge);
            let height = axis_positions(Axis::Height, ids, grids, image_token, merge);
            let width = axis_positions(Axis::Width, ids, grids, image_token, merge);
            &&& ids[first] == image_token
            &&& forall|i: int|
                tokens_before(ids, grids, image_token, merge, k) <= i < first ==> #[trigger] ids[i]
                    != image_token
            &&& time[at] == time[first]
            &&& height[at] == time[first] + row
            &&& width[at] == time[first] + column
        }),
{
    let first = image_index(ids, grids, image_token, merge, k);
    let rows = merged(grids[k].1, merge);
    let columns = merged(grids[k].2, merge);
    let frames = grids[k].0 as int;
    let q = frame * rows + row;
    let j = q * columns + column;
    lemma_tokens_before_nonneg(ids, grids, image_token, merge, k);
    law_first_tokens_come_first(ids, image_token, tokens_before(ids, grids, image_token, merge, k));
    assert(q + 1 <= frames * rows && 0 <= q) by (nonlinear_arith)
        requires
            q == frame * rows + row,
            0 <= frame,
            frame + 1 <= frames,
            0 <= row < rows,
    ;
    assert(0 <= j < frames * rows * columns) by (nonlinear_arith)
        requires
            j == q * columns + column,
            0 <= q,
            q + 1 <= frames * rows,
            0 <= column < columns,
    ;
    assert(0 < frames * rows * columns);
    lemma_fundamental_div_mod_converse(j, columns, q, column);
    lemma_fundamental_div_mod_converse(q, rows, frame, row);
    law_image_positions(Axis::Temporal, ids, grids, image_token, start_token, merge, k, j);
    law_image_positions(Axis::Temporal, ids, grids, image_token, start_token, merge, k, 0);
    law_image_positions(Axis::Height, ids, grids, image_token, start_token, merge, k, j);
    law_image_positions(Axis::Width, ids, grids, image_token, start_token, merge, k, j);
}

/// Positions of the text behind all images.
proof fn lemma_last_text(
    axis: Axis,
    ids: Seq<u32>,
    grids: Seq<Grid>,
    image_token: u32,
    start_token: u32,
    merge: usize,
    i: int,
)
    requires
        grids_fit(ids, grids, image_token, start_token, merge),
        tokens_before(ids, grids, image_token, merge, grids.len() as int) <= i < ids.len(),
    ensures
        axis_positions(axis, ids, grids, image_token, merge)[i] == position_before(
            ids,
            grids,
            image_token,
            merge,
            grids.len() as int,
        ) + i - tokens_before(ids, grids, image_token, merge, grids.len() as int),
{
    if grids.len() > 0 {
        lemma_positions_bounded(axis, ids, grids, image_token, merge, grids.len() as int);
    }
}

/// Text counts up: the first token of a prompt that is text stands at zero, and of two
/// neighbours with no image token among them the second stands one behind the first, on
/// every axis.
pub proof fn law_text_counts_up(
    axis: Axis,
    ids: Seq<u32>,
    grids: Seq<Grid>,
    image_token: u32,
    start_token: u32,
    merge: usize,
    k: int,
    i: int,
)
    requires
        grids_fit(ids, grids, image_token, start_token, merge),
        0 <= k <= grids.len(),
        tokens_before(ids, grids, image_token, merge, k) <= i < ids.len(),
        k < grids.len() ==> i < image_index(ids, grids, image_token, merge, k),
    ensures
        i == 0 ==> axis_positions(axis, ids, grids, image_token, merge)[i] == 0,
        i + 1 < ids.len() && (k < grids.len() ==> i + 1 < image_index(
            ids,
            grids,
            image_token,
            merge,
            k,
        )) ==> axis_positions(axis, ids, grids, image_token, merge)[i + 1] == axis_positions(
            axis,
            ids,
            grids,
            image_token,
            merge,
        )[i] + 1,
        k < grids.len() && i + 1 == image_index(ids, grids, image_token, merge, k)
            && vision_tokens(grids[k], merge) > 0 ==> axis_positions(
            axis,
            ids,
            grids,
            image_token,
            merge,
        )[i + 1] == axis_positions(axis, ids, grids, image_token, merge)[i] + 1,
{
    if grids.len() > 0 {
        lemma_positions_within_tokens(ids, grids, image_token, merge, k);
    }
    if k < grids.len() {
        law_text_positions(axis, ids, grids, image_token, start_token, merge, k, i);
        if i + 1 < image_index(ids, grids, image_token, merge, k) {
            law_text_positions(axis, ids, grids, image_token, start_token, merge, k, i + 1);
        } else if vision_tokens(grids[k], merge) > 0 {
            let grid = grids[k];
            law_image_positions(axis, ids, grids, image_token, start_token, merge, k, 0);
            lemma_counter_bounds(
                0,
                grid.0 as int,
                merged(grid.1, merge),
                merged(grid.2, merge),
            );
            lemma_small_mod(0, merged(grid.2, merge) as nat);
            lemma_basic_div(0, merged(grid.2, merge));
            lemma_small_mod(0, merged(grid.1, merge) as nat);
        }
    } else {
        lemma_last_text(axis, ids, grids, image_token, start_token, merge, i);
        if i + 1 < ids.len() {
            lemma_last_text(axis, ids, grids, image_token, start_token, merge, i + 1);
        }
    }
}

/// The token behind an image stands as far behind the first token of the image as the
/// image is high or wide, whichever is more, on every axis.
pub proof fn law_an_image_takes_its_longer_side(
    axis: Axis,
    ids: Seq<u32>,
    grids: Seq<Grid>,
    image_token: u32,
    start_token: u32,
    merge: usize,
    k: int,
)
    requires
        grids_fit(ids, grids, image_token, start_token, merge),
        0 <= k < grids.len(),
        vision_tokens(grids[k], merge) > 0,
        k + 1 < grids.len() ==> vision_tokens(grids[k + 1], merge) > 0,
    ensures
        ({
            let first = image_index(ids, grids, image_token, merge, k);
            let rows = grids[k].1 as int / merge as int;
            let columns = grids[k].2 as int / merge as int;
            let next = first + grids[k].0 * rows * columns;
            let all = axis_positions(axis, ids, grids, image_token, merge);
            next < ids.len() ==> all[next] == all[first] + if rows >= columns {
                rows
            } else {
                columns
            }
        }),
{
    let first = image_index(ids, grids, image_token, merge, k);
    let next = tokens_before(ids, grids, image_token, merge, k + 1);
    let grid = grids[k];
    assert(next == first + vision_tokens(grid, merge));
    law_image_positions(axis, ids, grids, image_token, start_token, merge, k, 0);
    lemma_counter_bounds(0, grid.0 as int, merged(grid.1, merge), merged(grid.2, merge));
    lemma_small_mod(0, merged(grid.2, merge) as nat);
    lemma_basic_div(0, merged(grid.2, merge));
    lemma_small_mod(0, merged(grid.1, merge) as nat);
    lemma_tokens_before_nonneg(ids, grids, image_token, merge, k + 1);
    if next < ids.len() {
        if k + 1 == grids.len() {
            lemma_last_text(axis, ids, grids, image_token, start_token, merge, next);
        } else {
            lemma_first_from_grows(ids, image_token, next);
            let other = grids[k + 1];
            if image_index(ids, grids, image_token, merge, k + 1) > next {
                law_text_positions(axis, ids, grids, image_token, start_token, merge, k + 1, next);
            } else {
                law_image_positions(axis, ids, grids, image_token, start_token, merge, k + 1, 0);
                lemma_counter_bounds(
                    0,
                    other.0 as int,
                    merged(other.1, merge),
                    merged(other.2, merge),
                );
                lemma_small_mod(0, merged(other.2, merge) as nat);
                lemma_basic_div(0, merged(other.2, merge));
                lemma_small_mod(0, merged(other.1, merge) as nat);
            }
        }
    }
}

proof fn lemma_greatest_is_one(s: Seq<int>)
    requires
        s.len() > 0,
        forall|i: int| 0 <= i < s.len() ==> #[trigger] s[i] >= 0,
    ensures
        exists|i: int| 0 <= i < s.len() && #[trigger] s[i] == greatest(s),
        forall|i: int| 0 <= i < s.len() ==> #[trigger] s[i] <= greatest(s),
    decreases s.len(),
{
    let rest = s.drop_last();
    let last = s.len() - 1;
    if rest.len() > 0 {
        assert forall|i: int| 0 <= i < rest.len() implies #[trigger] rest[i] >= 0 by {
            assert(rest[i] == s[i]);
        }
        lemma_greatest_is_one(rest);
        let i = choose|i: int| 0 <= i < rest.len() && #[trigger] rest[i] == greatest(rest);
        assert(s[i] == rest[i]);
        assert forall|j: int| 0 <= j < s.len() implies #[trigger] s[j] <= greatest(s) by {
            if j < last {
                assert(rest[j] == s[j]);
            }
        }
        assert(s[i] == greatest(s) || s[last] == greatest(s));
    } else {
        assert(s[last] >= 0);
        assert(greatest(rest) == -1);
        assert(s[last] == greatest(s));
    }
}

/// Generated tokens count on from right behind the prompt: the offset, added to the
/// number of its tokens, is past every position of the prompt and one past some.
pub proof fn law_generated_tokens_follow_the_prompt(
    ids: Seq<u32>,
    grids: Seq<Grid>,
    image_token: u32,
    start_token: u32,
    merge: usize,
)
    requires
        grids_fit(ids, grids, image_token, start_token, merge),
        ids.len() > 0,
    ensures
        forall|axis: Axis, i: int|
            0 <= i < ids.len() ==> #[trigger] axis_positions(
                axis,
                ids,
                grids,
                image_token,
                merge,
            )[i] < delta(ids, grids, image_token, merge) + ids.len(),
        exists|axis: Axis, i: int|
            0 <= i < ids.len() && #[trigger] axis_positions(
                axis,
                ids,
                grids,
                image_token,
                merge,
            )[i] + 1 == delta(ids, grids, image_token, merge) + ids.len(),
{
    let t = axis_positions(Axis::Temporal, ids, grids, image_token, merge);
    let h = axis_positions(Axis::Height, ids, grids, image_token, merge);
    let w = axis_positions(Axis::Width, ids, grids, image_token, merge);
    lemma_axis_positions_bounded(Axis::Temporal, ids, grids, image_token, start_token, merge);
    lemma_axis_positions_bounded(Axis::Height, ids, grids, image_token, start_token, merge);
    lemma_axis_positions_bounded(Axis::Width, ids, grids, image_token, start_token, merge);
    lemma_greatest_is_one(t);
    lemma_greatest_is_one(h);
    lemma_greatest_is_one(w);
    let end = delta(ids, grids, image_token, merge) + ids.len();
    assert forall|axis: Axis, i: int| 0 <= i < ids.len() implies #[trigger] axis_positions(
        axis,
        ids,
        grids,
        image_token,
        merge,
    )[i] < end by {
        match axis {
            Axis::Temporal => {
                assert(t[i] <= greatest(t));
            },
            Axis::Height => {
                assert(h[i] <= greatest(h));
            },
            Axis::Width => {
                assert(w[i] <= greatest(w));
            },
        }
    }
    if greatest(t) + 1 == end {
        let i = choose|i: int| 0 <= i < t.len() && #[trigger] t[i] == greatest(t);
        assert(axis_positions(Axis::Temporal, ids, grids, image_token, merge)[i] + 1 == end);
    } else if greatest(h) + 1 == end {
        let i = choose|i: int| 0 <= i < h.len() && #[trigger] h[i] == greatest(h);
        assert(axis_positions(Axis::Height, ids, grids, image_token, merge)[i] + 1 == end);
    } else {
        let i = choose|i: int| 0 <= i < w.len() && #[trigger] w[i] == greatest(w);
        assert(axis_positions(Axis::Width, ids, grids, image_token, merge)[i] + 1 == end);
    }
}

/// Tokens of a kind are counted as often as they occur.
pub proof fn law_tokens_are_counted(ids: Seq<u32>, token: u32)
    ensures
        count_of(ids, token) == ids.to_multiset().count(token),
    decreases ids.len(),
{
    broadcast use vstd::seq_lib::group_to_multiset_ensures;

    if ids.len() > 0 {
        law_tokens_are_counted(ids.drop_last(), token);
        assert(ids == ids.drop_last().push(ids.last()));
    }
}

/// Every image token is marked, and no other one.
pub proof fn law_image_tokens_are_marked(ids: Seq<u32>, image_token_id: u32, i: int)
    requires
        0 <= i < ids.len(),
    ensures
        token_types(ids, image_token_id).len() == ids.len(),
        ids[i] == image_token_id ==> token_types(ids, image_token_id)[i] == 1,
        ids[i] != image_token_id ==> token_types(ids, image_token_id)[i] == 0,
{
}

} // verus!
