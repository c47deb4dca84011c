//! Choice of the detection queries, and what the reading-order model is given.

use crate::detection;
use crate::dtype::DType;
use crate::float::F32;
use crate::ordering;
use crate::precision::{denom, numer};
use crate::rounding;
use vstd::arithmetic::div_mod::*;
use vstd::arithmetic::power2::lemma2_to64;
use vstd::prelude::*;

verus! {

/// Positions of the feature maps before map `level`.
pub open spec fn positions(shapes: Seq<(usize, usize)>, level: int) -> int
    decreases level,
{
    if level <= 0 {
        0
    } else {
        positions(shapes, level - 1) + shapes[level - 1].0 * shapes[level - 1].1
    }
}

/// Maps that come later start later.
pub proof fn lemma_positions_grow(shapes: Seq<(usize, usize)>, a: int, b: int)
    requires
        0 <= a <= b <= shapes.len(),
    ensures
        0 <= positions(shapes, a) <= positions(shapes, b),
    decreases b,
{
    if b > a {
        lemma_positions_grow(shapes, a, b - 1);
        let (h, w) = shapes[b - 1];
        assert(h * w >= 0) by (nonlinear_arith)
            requires
                h >= 0,
                w >= 0,
        ;
    } else if b > 0 {
        lemma_positions_grow(shapes, a - 1, b - 1);
        let (h, w) = shapes[b - 1];
        assert(h * w >= 0) by (nonlinear_arith)
            requires
                h >= 0,
                w >= 0,
        ;
    }
}

/// Where every feature map starts once all maps, of `(height, width)`, are laid out one
/// behind the other.
pub fn level_starts(shapes: &Vec<(usize, usize)>) -> (starts: Vec<usize>)
    requires
        positions(shapes@, shapes@.len() as int) <= usize::MAX,
    ensures
        starts@.len() == shapes@.len(),
        forall|level: int|
            0 <= level < shapes@.len() ==> #[trigger] starts@[level] == positions(shapes@, level),
{
    let mut starts: Vec<usize> = Vec::new();
    let mut offset: usize = 0;
    let mut level: usize = 0;
    while level < shapes.len()
        invariant
            level <= shapes@.len(),
            positions(shapes@, shapes@.len() as int) <= usize::MAX,
            offset == positions(shapes@, level as int),
            starts@.len() == level,
            forall|l: int| 0 <= l < level ==> #[trigger] starts@[l] == positions(shapes@, l),
        decreases shapes.len() - level,
    {
        let (height, width) = shapes[level];
        proof {
            lemma_positions_grow(shapes@, level as int, level as int);
            lemma_positions_grow(shapes@, level + 1, shapes@.len() as int);
            assert(height * width <= positions(shapes@, level + 1));
        }
        starts.push(offset);
        offset = offset + height * width;
        level = level + 1;
    }
    starts
}

/// The entries of one page where every page has `width` of them.
pub open spec fn row<T>(values: Seq<T>, page: int, width: int) -> Seq<T> {
    values.subrange(page * width, page * width + width)
}

proof fn lemma_row_fits(page: int, pages: int, width: int)
    requires
        0 <= page < pages,
        0 <= width,
    ensures
        0 <= page * width,
        page * width + width <= pages * width,
        page * width + width == (page + 1) * width,
{
    assert(0 <= page * width && page * width + width <= pages * width && page * width + width == (
    page + 1) * width) by (nonlinear_arith)
        requires
            0 <= page < pages,
            0 <= width,
    ;
}

/// The best positions of every page, best first.
pub open spec fn are_top_queries(
    chosen: Seq<i32>,
    scores: Seq<F32>,
    pages: int,
    total: int,
    num_queries: int,
) -> bool {
    &&& chosen.len() == pages * num_queries
    &&& forall|page: int|
        #![trigger row(chosen, page, num_queries)]
        0 <= page < pages ==> row(chosen, page, num_queries) == ordering::ordered(
            detection::score_keys(row(scores, page, total)),
        ).take(num_queries).map_values(|at: usize| at as i32)
}

fn page_keys(scores: &Vec<F32>, from: usize, total: usize) -> (keys: Vec<i128>)
    requires
        from + total <= scores@.len(),
    ensures
        keys@ == detection::score_keys(scores@.subrange(from as int, from + total)),
{
    let entries: usize = scores.len();
    let ghost all = detection::score_keys(scores@.subrange(from as int, from + total));
    let mut keys: Vec<i128> = Vec::new();
    let mut i: usize = 0;
    while i < total
        invariant
            i <= total,
            from + total <= entries == scores@.len(),
            all == detection::score_keys(scores@.subrange(from as int, from + total)),
            keys@ == all.take(i as int),
        decreases total - i,
    {
        let rank: i64 = scores[from + i].rank_of();
        keys.push(-(rank as i128));
        i = i + 1;
        assert(keys@ == all.take(i as int));
    }
    assert(all.take(i as int) == all);
    keys
}

/// Chooses the `num_queries` positions of every page with the best scores. Equal scores
/// stay in the order of their positions.
pub fn top_queries(scores: &Vec<F32>, pages: usize, total: usize, num_queries: usize) -> (chosen:
    Vec<i32>)
    requires
        scores@.len() == pages * total,
        num_queries <= total <= i32::MAX,
        forall|i: int| 0 <= i < scores@.len() ==> (#[trigger] scores@[i]).is_number(),
    ensures
        are_top_queries(
            chosen@,
            scores@,
            pages as int,
            total as int,
            num_queries as int,
        ),
{
    let entries: usize = scores.len();
    let mut chosen: Vec<i32> = Vec::new();
    let mut page: usize = 0;
    assert(0 * num_queries == 0) by (nonlinear_arith);
    while page < pages
        invariant
            page <= pages,
            entries == scores@.len() == pages * total,
            num_queries <= total <= i32::MAX,
            are_top_queries(
                chosen@,
                scores@,
                page as int,
                total as int,
                num_queries as int,
            ),
        decreases pages - page,
    {
        proof {
            lemma_row_fits(page as int, pages as int, total as int);
        }
        let from: usize = page * total;
        let keys = page_keys(scores, from, total);
        let order = ordering::stable_order(&keys);
        let ghost best = order@.take(num_queries as int).map_values(|at: usize| at as i32);
        let ghost before = chosen@;
        let mut q: usize = 0;
        while q < num_queries
            invariant
                q <= num_queries <= order@.len(),
                total <= i32::MAX,
                best == order@.take(num_queries as int).map_values(|at: usize| at as i32),
                chosen@ == before + best.take(q as int),
            decreases num_queries - q,
        {
            chosen.push(order[q] as i32);
            q = q + 1;
            assert(chosen@ == before + best.take(q as int));
        }
        assert(best.take(q as int) == best);
        proof {
            let n = num_queries as int;
            lemma_row_fits(page as int, page + 1, n);
            assert forall|p: int| #![trigger row(chosen@, p, n)] 0 <= p < page + 1 implies row(
                chosen@,
                p,
                n,
            ) == ordering::ordered(detection::score_keys(row(scores@, p, total as int))).take(
                n,
            ).map_values(|at: usize| at as i32) by {
                if p < page {
                    lemma_row_fits(p, page as int, n);
                    assert(row(chosen@, p, n) == row(before, p, n));
                } else {
                    assert(row(chosen@, p, n) == best);
                }
            }
        }
        page = page + 1;
    }
    chosen
}

/// Bits of a half, the confidence asked of classes without a threshold of their own.
pub const HALF: u32 = 0x3f00_0000;

/// Confidence that is asked of a class.
pub open spec fn threshold_of(class_id: i32, thresholds: Seq<F32>) -> F32 {
    if 0 <= class_id < thresholds.len() {
        thresholds[class_id as int]
    } else {
        F32 { bits: HALF }
    }
}

/// Whether a probability reaches the threshold of its class.
pub open spec fn is_confident(prob: F32, class_id: i32, thresholds: Seq<F32>) -> bool {
    let threshold = threshold_of(class_id, thresholds);
    prob.is_number() && threshold.is_number() && !prob.below(threshold)
}

/// 1 for confident queries, 0 for the others.
pub open spec fn confidence(
    probs: Seq<F32>,
    class_ids: Seq<i32>,
    thresholds: Seq<F32>,
) -> Seq<i32> {
    Seq::new(
        probs.len(),
        |i: int|
            if is_confident(probs[i], class_ids[i], thresholds) {
                1i32
            } else {
                0i32
            },
    )
}

fn reaches_threshold(prob: F32, class_id: i32, thresholds: &Vec<F32>) -> (reached: bool)
    ensures
        reached == is_confident(prob, class_id, thresholds@),
{
    let count: usize = thresholds.len();
    let threshold: F32 = if class_id >= 0 && (class_id as usize) < count {
        thresholds[class_id as usize]
    } else {
        F32 { bits: HALF }
    };
    prob.number() && threshold.number() && !prob.is_below(threshold)
}

/// Keys that put marked queries first.
pub open spec fn mark_keys(marks: Seq<i32>) -> Seq<i128> {
    marks.map_values(|mark: i32| (-mark) as i128)
}

/// The queries of a page, confident ones first.
pub open spec fn arranged(marks: Seq<i32>) -> Seq<usize> {
    ordering::ordered(mark_keys(marks))
}

/// Label of a query for the reading-order model: none where the query is not confident
/// or its class has no place in the order.
pub open spec fn reading_label(class_id: i32, mark: i32, class_order: Seq<usize>) -> i32 {
    if mark != 0 && 0 <= class_id < class_order.len() {
        class_order[class_id as int] as i32
    } else {
        0
    }
}

/// The queries of all pages, confident ones first on every page.
#[derive(Debug)]
pub struct Arrangement {
    /// Query at every place.
    pub order: Vec<i32>,
    /// Class of the query at every place.
    pub class_ids: Vec<i32>,
    /// 1 where the query at a place is confident, 0 elsewhere.
    pub mask: Vec<i32>,
    /// Label of the query at every place.
    pub labels: Vec<i32>,
}

/// One place of a page is filled as [`arranged`] says.
pub open spec fn is_place(
    at: Arrangement,
    i: int,
    query: int,
    class_ids: Seq<i32>,
    marks: Seq<i32>,
    class_order: Seq<usize>,
) -> bool {
    &&& at.order@[i] == query
    &&& at.class_ids@[i] == class_ids[query]
    &&& at.mask@[i] == marks[query]
    &&& at.labels@[i] == reading_label(class_ids[query], marks[query], class_order)
}

pub open spec fn is_arrangement(
    at: Arrangement,
    probs: Seq<F32>,
    class_ids: Seq<i32>,
    pages: int,
    num_queries: int,
    thresholds: Seq<F32>,
    class_order: Seq<usize>,
) -> bool {
    let n = pages * num_queries;
    &&& at.order@.len() == n
    &&& at.class_ids@.len() == n
    &&& at.mask@.len() == n
    &&& at.labels@.len() == n
    &&& forall|page: int, q: int|
        #![trigger at.order@[page * num_queries + q]]
        0 <= page < pages && 0 <= q < num_queries ==> {
            let marks = row(confidence(probs, class_ids, thresholds), page, num_queries);
            is_place(
                at,
                page * num_queries + q,
                arranged(marks)[q] as int,
                row(class_ids, page, num_queries),
                marks,
                class_order,
            )
        }
}

fn page_marks(
    probs: &Vec<F32>,
    class_ids: &Vec<i32>,
    from: usize,
    num_queries: usize,
    thresholds: &Vec<F32>,
) -> (marks: Vec<i32>)
    requires
        probs@.len() == class_ids@.len(),
        from + num_queries <= probs@.len(),
    ensures
        marks@ == confidence(probs@, class_ids@, thresholds@).subrange(
            from as int,
            from + num_queries,
        ),
{
    let entries: usize = probs.len();
    let ghost all = confidence(probs@, class_ids@, thresholds@).subrange(
        from as int,
        from + num_queries,
    );
    let mut marks: Vec<i32> = Vec::new();
    let mut q: usize = 0;
    while q < num_queries
        invariant
            q <= num_queries,
            probs@.len() == class_ids@.len(),
            from + num_queries <= entries == probs@.len(),
            all == confidence(probs@, class_ids@, thresholds@).subrange(
                from as int,
                from + num_queries,
            ),
            marks@ == all.take(q as int),
        decreases num_queries - q,
    {
        if reaches_threshold(probs[from + q], class_ids[from + q], thresholds) {
            marks.push(1);
        } else {
            marks.push(0);
        }
        q = q + 1;
        assert(marks@ == all.take(q as int));
    }
    assert(all.take(q as int) == all);
    marks
}

fn mark_order(marks: &Vec<i32>) -> (order: Vec<usize>)
    requires
        forall|i: int| 0 <= i < marks@.len() ==> 0 <= #[trigger] marks@[i] <= 1,
    ensures
        order@ == arranged(marks@),
        ordering::is_order(order@, mark_keys(marks@), marks@.len() as int),
{
    let mut keys: Vec<i128> = Vec::new();
    let mut q: usize = 0;
    while q < marks.len()
        invariant
            q <= marks@.len(),
            forall|i: int| 0 <= i < marks@.len() ==> 0 <= #[trigger] marks@[i] <= 1,
            keys@ == mark_keys(marks@).take(q as int),
        decreases marks.len() - q,
    {
        let mark: i32 = marks[q];
        keys.push(-(mark as i128));
        q = q + 1;
        assert(keys@ == mark_keys(marks@).take(q as int));
    }
    assert(keys@ == mark_keys(marks@));
    ordering::stable_order(&keys)
}

fn label_of(class_id: i32, mark: i32, class_order: &Vec<usize>) -> (label: i32)
    requires
        forall|i: int| 0 <= i < class_order@.len() ==> #[trigger] class_order@[i] <= i32::MAX,
    ensures
        label == reading_label(class_id, mark, class_order@),
{
    let classes: usize = class_order.len();
    if mark != 0 && class_id >= 0 && (class_id as usize) < classes {
        class_order[class_id as usize] as i32
    } else {
        0
    }
}

/// Puts the confident queries of every page first and labels them for the reading-order
/// model.
pub fn arrange_queries(
    probs: &Vec<F32>,
    class_ids: &Vec<i32>,
    pages: usize,
    num_queries: usize,
    thresholds: &Vec<F32>,
    class_order: &Vec<usize>,
) -> (at: Arrangement)
    requires
        probs@.len() == pages * num_queries,
        class_ids@.len() == pages * num_queries,
        num_queries <= i32::MAX,
        forall|i: int| 0 <= i < class_order@.len() ==> #[trigger] class_order@[i] <= i32::MAX,
    ensures
        is_arrangement(
            at,
            probs@,
            class_ids@,
            pages as int,
            num_queries as int,
            thresholds@,
            class_order@,
        ),
{
    let ghost n = num_queries as int;
    let ghost all = confidence(probs@, class_ids@, thresholds@);
    let entries: usize = probs.len();
    let mut at = Arrangement {
        order: Vec::new(),
        class_ids: Vec::new(),
        mask: Vec::new(),
        labels: Vec::new(),
    };
    let mut page: usize = 0;
    assert(0 * n == 0) by (nonlinear_arith);
    while page < pages
        invariant
            page <= pages,
            n == num_queries,
            num_queries <= i32::MAX,
            entries == probs@.len() == pages * n,
            class_ids@.len() == pages * n,
            all == confidence(probs@, class_ids@, thresholds@),
            forall|i: int| 0 <= i < class_order@.len() ==> #[trigger] class_order@[i] <= i32::MAX,
            is_arrangement(
                at,
                probs@,
                class_ids@,
                page as int,
                n,
                thresholds@,
                class_order@,
            ),
        decreases pages - page,
    {
        proof {
            lemma_row_fits(page as int, pages as int, n);
        }
        let from: usize = page * num_queries;
        let marks = page_marks(probs, class_ids, from, num_queries, thresholds);
        assert(marks@ == row(all, page as int, n));
        let ghost classes = row(class_ids@, page as int, n);
        let order = mark_order(&marks);
        let ghost before = at;
        let mut q: usize = 0;
        while q < num_queries
            invariant
                q <= num_queries == n,
                num_queries <= i32::MAX,
                from == page * n,
                from + n <= class_ids@.len() <= usize::MAX,
                classes == row(class_ids@, page as int, n),
                ordering::is_order(order@, mark_keys(marks@), n),
                marks@.len() == n,
                forall|i: int|
                    0 <= i < class_order@.len() ==> #[trigger] class_order@[i] <= i32::MAX,
                before.order@.len() == from,
                at.order@.len() == from + q,
                at.class_ids@.len() == from + q,
                at.mask@.len() == from + q,
                at.labels@.len() == from + q,
                forall|i: int|
                    0 <= i < from ==> {
                        &&& #[trigger] at.order@[i] == before.order@[i]
                        &&& at.class_ids@[i] == before.class_ids@[i]
                        &&& at.mask@[i] == before.mask@[i]
                        &&& at.labels@[i] == before.labels@[i]
                    },
                forall|k: int|
                    0 <= k < q ==> is_place(
                        at,
                        from + k,
                        #[trigger] order@[k] as int,
                        classes,
                        marks@,
                        class_order@,
                    ),
            decreases num_queries - q,
        {
            let query: usize = order[q];
            let class_id: i32 = class_ids[from + query];
            assert(class_id == classes[query as int]);
            let mark: i32 = marks[query];
            let ghost earlier = at;
            at.order.push(query as i32);
            at.class_ids.push(class_id);
            at.mask.push(mark);
            at.labels.push(label_of(class_id, mark, class_order));
            proof {
                assert forall|i: int| 0 <= i < from implies {
                    &&& #[trigger] at.order@[i] == before.order@[i]
                    &&& at.class_ids@[i] == before.class_ids@[i]
                    &&& at.mask@[i] == before.mask@[i]
                    &&& at.labels@[i] == before.labels@[i]
                } by {
                    assert(earlier.order@[i] == before.order@[i]);
                }
                assert forall|k: int| 0 <= k < q + 1 implies is_place(
                    at,
                    from + k,
                    #[trigger] order@[k] as int,
                    classes,
                    marks@,
                    class_order@,
                ) by {
                    if k < q {
                        assert(is_place(
                            earlier,
                            from + k,
                            order@[k] as int,
                            classes,
                            marks@,
                            class_order@,
                        ));
                    }
                }
            }
            q = q + 1;
        }
        proof {
            lemma_row_fits(page as int, page + 1, n);
            assert forall|p: int, k: int|
                #![trigger at.order@[p * n + k]]
                0 <= p < page + 1 && 0 <= k < n implies {
                let m = row(all, p, n);
                is_place(at, p * n + k, arranged(m)[k] as int, row(class_ids@, p, n), m, class_order@)
            } by {
                if p < page {
                    lemma_row_fits(p, page as int, n);
                    assert(before.order@[p * n + k] == at.order@[p * n + k]);
                } else {
                    assert(arranged(marks@)[k] == order@[k]);
                    assert(is_place(
                        at,
                        from + k,
                        order@[k] as int,
                        classes,
                        marks@,
                        class_order@,
                    ));
                }
            }
        }
        page = page + 1;
    }
    at
}

/// On every page confident queries come before the others, and queries of one kind stay
/// in their order.
pub proof fn law_confident_queries_come_first(marks: Seq<i32>, i: int, j: int)
    requires
        marks.len() <= usize::MAX,
        forall|k: int| 0 <= k < marks.len() ==> 0 <= #[trigger] marks[k] <= 1,
        0 <= i < j < marks.len(),
    ensures
        marks[arranged(marks)[j] as int] == 1 ==> marks[arranged(marks)[i] as int] == 1,
        marks[arranged(marks)[i] as int] == marks[arranged(marks)[j] as int] ==> arranged(marks)[i]
            < arranged(marks)[j],
{
    ordering::lemma_ordered(mark_keys(marks));
    let order = arranged(marks);
    assert(ordering::comes_before(mark_keys(marks), order[i] as int, order[j] as int));
}

/// Tokens of the reading-order model.
#[derive(Clone, Copy, Debug, PartialEq, Eq, Structural)]
pub struct ReadingTokens {
    pub start: i32,
    pub pad: i32,
    pub end: i32,
    pub pred: i32,
}

impl ReadingTokens {
    pub open spec fn preset() -> ReadingTokens {
        ReadingTokens { start: 0, pad: 1, end: 2, pred: 3 }
    }

    /// Token at a place of a page with `count` elements to order.
    pub open spec fn at(self, count: int, place: int) -> i32 {
        if place == 0 {
            self.start
        } else if place <= count {
            self.pred
        } else if place == count + 1 {
            self.end
        } else {
            self.pad
        }
    }

    /// Whether the padding differs from all that stands for something.
    pub open spec fn pads_apart(self) -> bool {
        self.pad != self.start && self.pad != self.end && self.pad != self.pred
    }
}

impl Default for ReadingTokens {
    fn default() -> (tokens: Self)
        ensures
            tokens == ReadingTokens::preset(),
    {
        ReadingTokens { start: 0, pad: 1, end: 2, pred: 3 }
    }
}

/// Marked entries before place `i`.
pub open spec fn marked(mask: Seq<i32>, i: int) -> int
    decreases i,
{
    if i <= 0 {
        0
    } else {
        marked(mask, i - 1) + mask[i - 1]
    }
}

/// Elements to order on every page: the sum of its mask.
pub fn element_counts(mask: &Vec<i32>, pages: usize, num_queries: usize) -> (counts: Vec<usize>)
    requires
        mask@.len() == pages * num_queries,
        forall|i: int| 0 <= i < mask@.len() ==> 0 <= #[trigger] mask@[i] <= 1,
    ensures
        counts@.len() == pages,
        forall|page: int|
            0 <= page < pages ==> #[trigger] counts@[page] == marked(
                row(mask@, page, num_queries as int),
                num_queries as int,
            ),
        forall|page: int| 0 <= page < pages ==> #[trigger] counts@[page] <= num_queries,
{
    let entries: usize = mask.len();
    let mut counts: Vec<usize> = Vec::new();
    let mut page: usize = 0;
    while page < pages
        invariant
            page <= pages,
            entries == mask@.len() == pages * num_queries,
            forall|i: int| 0 <= i < mask@.len() ==> 0 <= #[trigger] mask@[i] <= 1,
            counts@.len() == page,
            forall|p: int|
                0 <= p < page ==> #[trigger] counts@[p] == marked(
                    row(mask@, p, num_queries as int),
                    num_queries as int,
                ),
            forall|p: int| 0 <= p < page ==> #[trigger] counts@[p] <= num_queries,
        decreases pages - page,
    {
        proof {
            lemma_row_fits(page as int, pages as int, num_queries as int);
        }
        let from: usize = page * num_queries;
        let ghost line = row(mask@, page as int, num_queries as int);
        let mut count: usize = 0;
        let mut q: usize = 0;
        while q < num_queries
            invariant
                q <= num_queries,
                from == page * num_queries,
                from + num_queries <= entries == mask@.len(),
                line == row(mask@, page as int, num_queries as int),
                forall|i: int| 0 <= i < mask@.len() ==> 0 <= #[trigger] mask@[i] <= 1,
                count == marked(line, q as int),
                count <= q,
            decreases num_queries - q,
        {
            assert(line[q as int] == mask@[from + q]);
            count = count + mask[from + q] as usize;
            q = q + 1;
        }
        counts.push(count);
        page = page + 1;
    }
    counts
}

/// Tokens of all pages: a start, one token for every element, an end and padding.
pub open spec fn are_input_ids(
    ids: Seq<i32>,
    counts: Seq<usize>,
    num_queries: int,
    tokens: ReadingTokens,
) -> bool {
    &&& ids.len() == counts.len() * (num_queries + 2)
    &&& forall|page: int, place: int|
        #![trigger ids[page * (num_queries + 2) + place]]
        0 <= page < counts.len() && 0 <= place < num_queries + 2 ==> ids[page * (num_queries + 2)
            + place] == tokens.at(counts[page] as int, place)
}

pub fn reading_input_ids(counts: &Vec<usize>, num_queries: usize, tokens: ReadingTokens) -> (ids:
    Vec<i32>)
    requires
        num_queries + 2 <= usize::MAX,
        forall|page: int| 0 <= page < counts@.len() ==> #[trigger] counts@[page] <= num_queries,
    ensures
        are_input_ids(ids@, counts@, num_queries as int, tokens),
{
    let width: usize = num_queries + 2;
    let mut ids: Vec<i32> = Vec::new();
    let mut page: usize = 0;
    assert(0 * (num_queries + 2) == 0) by (nonlinear_arith);
    while page < counts.len()
        invariant
            page <= counts@.len(),
            width == num_queries + 2,
            forall|p: int| 0 <= p < counts@.len() ==> #[trigger] counts@[p] <= num_queries,
            are_input_ids(ids@, counts@.take(page as int), num_queries as int, tokens),
        decreases counts.len() - page,
    {
        let count: usize = counts[page];
        let ghost before = ids@;
        let mut place: usize = 0;
        while place < width
            invariant
                place <= width == num_queries + 2,
                count <= num_queries,
                ids@.len() == before.len() + place,
                forall|i: int| 0 <= i < before.len() ==> #[trigger] ids@[i] == before[i],
                forall|i: int|
                    before.len() <= i < ids@.len() ==> #[trigger] ids@[i] == tokens.at(
                        count as int,
                        i - before.len(),
                    ),
            decreases width - place,
        {
            if place == 0 {
                ids.push(tokens.start);
            } else if place <= count {
                ids.push(tokens.pred);
            } else if place == count + 1 {
                ids.push(tokens.end);
            } else {
                ids.push(tokens.pad);
            }
            place = place + 1;
        }
        proof {
            let w = width as int;
            let seen = counts@.take(page + 1);
            lemma_row_fits(page as int, page + 1, w);
            assert forall|p: int, k: int|
                #![trigger ids@[p * w + k]]
                0 <= p < seen.len() && 0 <= k < w implies ids@[p * w + k] == tokens.at(
                seen[p] as int,
                k,
            ) by {
                if p < page {
                    lemma_row_fits(p, page as int, w);
                    assert(before[p * w + k] == tokens.at(counts@.take(page as int)[p] as int, k));
                }
            }
        }
        page = page + 1;
    }
    assert(counts@.take(page as int) == counts@);
    ids
}

/// Tokens other than the padding in `ids[from..to]`.
pub open spec fn tokens_between(ids: Seq<i32>, pad: i32, from: int, to: int) -> int
    decreases to - from,
{
    if to <= from {
        0
    } else {
        tokens_between(ids, pad, from, to - 1) + if ids[to - 1] != pad {
            1int
        } else {
            0int
        }
    }
}

/// Position of a token in a row that starts at `from`: tokens other than the padding are
/// numbered behind it, and padding has its own number.
pub open spec fn position_of(ids: Seq<i32>, pad: i32, from: int, i: int) -> int {
    if ids[i] == pad {
        pad as int
    } else {
        pad + tokens_between(ids, pad, from, i + 1)
    }
}

/// Numbers the tokens of rows of `width` tokens.
pub fn position_ids(ids: &Vec<i32>, width: usize, pad: i32) -> (positions: Vec<i32>)
    requires
        0 < width <= i32::MAX,
        pad + width <= i32::MAX,
    ensures
        positions@.len() == ids@.len(),
        forall|i: int|
            0 <= i < ids@.len() ==> #[trigger] positions@[i] == position_of(
                ids@,
                pad,
                i - i % (width as int),
                i,
            ),
{
    let mut positions: Vec<i32> = Vec::new();
    let mut seen: i32 = 0;
    let mut place: usize = 0;
    let mut i: usize = 0;
    while i < ids.len()
        invariant
            i <= ids@.len(),
            0 < width <= i32::MAX,
            pad + width <= i32::MAX,
            place < width,
            place == i % width,
            seen == tokens_between(ids@, pad, i - place, i as int),
            0 <= seen <= place,
            positions@.len() == i,
            forall|k: int|
                0 <= k < i ==> #[trigger] positions@[k] == position_of(
                    ids@,
                    pad,
                    k - k % (width as int),
                    k,
                ),
        decreases ids.len() - i,
    {
        if ids[i] == pad {
            positions.push(pad);
        } else {
            seen = seen + 1;
            positions.push(pad + seen);
        }
        proof {
            lemma_fundamental_div_mod(i as int, width as int);
            let w = width as int;
            let d = i as int / w;
            if place + 1 == width {
                assert((d + 1) * w == w * d + w) by (nonlinear_arith);
                lemma_fundamental_div_mod_converse(i + 1, w, d + 1, 0);
            } else {
                assert(d * w == w * d) by (nonlinear_arith);
                lemma_fundamental_div_mod_converse(i + 1, w, d, place + 1);
            }
        }
        i = i + 1;
        place = place + 1;
        if place == width {
            place = 0;
            seen = 0;
        }
    }
    positions
}

proof fn lemma_tokens_of_page(
    ids: Seq<i32>,
    counts: Seq<usize>,
    num_queries: int,
    tokens: ReadingTokens,
    page: int,
    place: int,
)
    requires
        are_input_ids(ids, counts, num_queries, tokens),
        tokens.pads_apart(),
        0 <= page < counts.len(),
        counts[page] <= num_queries,
        0 <= place <= counts[page] + 2,
    ensures
        tokens_between(
            ids,
            tokens.pad,
            page * (num_queries + 2),
            page * (num_queries + 2) + place,
        ) == place,
    decreases place,
{
    if place > 0 {
        lemma_tokens_of_page(ids, counts, num_queries, tokens, page, place - 1);
        assert(ids[page * (num_queries + 2) + (place - 1)] != tokens.pad);
    }
}

/// The start, the elements and the end of a page are numbered one after the other
/// behind the padding, and padding keeps its own number.
pub proof fn law_positions_run_over_the_elements(
    ids: Seq<i32>,
    counts: Seq<usize>,
    num_queries: int,
    tokens: ReadingTokens,
    page: int,
    place: int,
)
    requires
        are_input_ids(ids, counts, num_queries, tokens),
        tokens.pads_apart(),
        0 <= page < counts.len(),
        counts[page] <= num_queries,
        0 <= place < num_queries + 2,
    ensures
        position_of(
            ids,
            tokens.pad,
            page * (num_queries + 2),
            page * (num_queries + 2) + place,
        ) == if place < counts[page] + 2 {
            tokens.pad + 1 + place
        } else {
            tokens.pad as int
        },
{
    assert(ids[page * (num_queries + 2) + place] == tokens.at(counts[page] as int, place));
    if place < counts[page] + 2 {
        lemma_tokens_of_page(ids, counts, num_queries, tokens, page, place + 1);
    }
}

/// Bits of -10000, which keeps attention away from a place.
pub const MASKED: u32 = 0xc61c_4000;

/// Bits of 1.
pub const ONE: u32 = 0x3f80_0000;

/// What is added to the attention on a place of a page with `count` elements.
pub open spec fn attention_at(count: int, place: int) -> F32 {
    if place < count + 2 {
        F32 { bits: 0 }
    } else {
        F32 { bits: MASKED }
    }
}

/// Keeps attention to the tokens that are no padding.
pub fn attention_mask(counts: &Vec<usize>, num_queries: usize) -> (mask: Vec<F32>)
    requires
        num_queries + 2 <= usize::MAX,
        forall|page: int| 0 <= page < counts@.len() ==> #[trigger] counts@[page] <= num_queries,
    ensures
        mask@.len() == counts@.len() * (num_queries + 2),
        forall|page: int, place: int|
            #![trigger mask@[page * (num_queries + 2) + place]]
            0 <= page < counts@.len() && 0 <= place < num_queries + 2 ==> mask@[page * (num_queries
                + 2) + place] == attention_at(counts@[page] as int, place),
{
    let width: usize = num_queries + 2;
    let mut mask: Vec<F32> = Vec::new();
    let mut page: usize = 0;
    assert(0 * (num_queries + 2) == 0) by (nonlinear_arith);
    while page < counts.len()
        invariant
            page <= counts@.len(),
            width == num_queries + 2,
            forall|p: int| 0 <= p < counts@.len() ==> #[trigger] counts@[p] <= num_queries,
            mask@.len() == page * (num_queries + 2),
            forall|p: int, place: int|
                #![trigger mask@[p * (num_queries + 2) + place]]
                0 <= p < page && 0 <= place < num_queries + 2 ==> mask@[p * (num_queries + 2)
                    + place] == attention_at(counts@[p] as int, place),
        decreases counts.len() - page,
    {
        let count: usize = counts[page];
        let ghost before = mask@;
        let mut place: usize = 0;
        while place < width
            invariant
                place <= width == num_queries + 2,
                count <= num_queries,
                mask@.len() == before.len() + place,
                forall|i: int| 0 <= i < before.len() ==> #[trigger] mask@[i] == before[i],
                forall|i: int|
                    before.len() <= i < mask@.len() ==> #[trigger] mask@[i] == attention_at(
                        count as int,
                        i - before.len(),
                    ),
            decreases width - place,
        {
            if place < count + 2 {
                mask.push(F32 { bits: 0 });
            } else {
                mask.push(F32 { bits: MASKED });
            }
            place = place + 1;
        }
        proof {
            let w = num_queries + 2;
            lemma_row_fits(page as int, page + 1, w);
            assert forall|p: int, k: int|
                #![trigger mask@[p * w + k]]
                0 <= p < page + 1 && 0 <= k < w implies mask@[p * w + k] == attention_at(
                counts@[p] as int,
                k,
            ) by {
                if p < page {
                    lemma_row_fits(p, page as int, w);
                    assert(before[p * w + k] == attention_at(counts@[p] as int, k));
                }
            }
        }
        page = page + 1;
    }
    mask
}

/// Whether a row comes at or behind a column.
pub open spec fn triangle_at(i: int, j: int) -> F32 {
    if j <= i {
        F32 { bits: ONE }
    } else {
        F32 { bits: 0 }
    }
}

/// Marks the pairs of elements of which the first does not come before the second.
pub fn lower_triangle(n: usize) -> (mask: Vec<F32>)
    requires
        n * n <= usize::MAX,
    ensures
        mask@.len() == n * n,
        forall|i: int, j: int|
            #![trigger mask@[i * n + j]]
            0 <= i < n && 0 <= j < n ==> mask@[i * n + j] == triangle_at(i, j),
{
    let mut mask: Vec<F32> = Vec::new();
    let mut i: usize = 0;
    assert(0 * n == 0) by (nonlinear_arith);
    while i < n
        invariant
            i <= n,
            mask@.len() == i * n,
            forall|p: int, j: int|
                #![trigger mask@[p * n + j]]
                0 <= p < i && 0 <= j < n ==> mask@[p * n + j] == triangle_at(p, j),
        decreases n - i,
    {
        let ghost before = mask@;
        let mut j: usize = 0;
        while j < n
            invariant
                j <= n,
                mask@.len() == before.len() + j,
                forall|k: int| 0 <= k < before.len() ==> #[trigger] mask@[k] == before[k],
                forall|k: int|
                    before.len() <= k < mask@.len() ==> #[trigger] mask@[k] == triangle_at(
                        i as int,
                        k - before.len(),
                    ),
            decreases n - j,
        {
            if j <= i {
                mask.push(F32 { bits: ONE });
            } else {
                mask.push(F32 { bits: 0 });
            }
            j = j + 1;
        }
        proof {
            lemma_row_fits(i as int, i + 1, n as int);
            assert forall|p: int, k: int|
                #![trigger mask@[p * n + k]]
                0 <= p < i + 1 && 0 <= k < n implies mask@[p * n + k] == triangle_at(p, k) by {
                if p < i {
                    lemma_row_fits(p, i as int, n as int);
                    assert(before[p * n + k] == triangle_at(p, k));
                }
            }
        }
        i = i + 1;
    }
    mask
}

/// The least rectangle around the positive samples of a mask; its last row and column
/// belong to it.
#[derive(Clone, Copy, Debug, PartialEq, Eq, Structural)]
pub struct Extent {
    pub min_x: usize,
    pub min_y: usize,
    pub max_x: usize,
    pub max_y: usize,
}

/// Whether the sample of a mask is above zero.
pub open spec fn is_positive(masks: Seq<F32>, base: int, width: int, x: int, y: int) -> bool {
    (F32 { bits: 0 }).below(masks[base + y * width + x])
}

/// Whether the extent lies closely around the positive samples.
pub open spec fn encloses(
    e: Extent,
    masks: Seq<F32>,
    base: int,
    width: int,
    height: int,
) -> bool {
    &&& e.min_x <= e.max_x < width
    &&& e.min_y <= e.max_y < height
    &&& forall|x: int, y: int|
        0 <= x < width && 0 <= y < height && #[trigger] is_positive(masks, base, width, x, y)
            ==> e.min_x <= x <= e.max_x && e.min_y <= y <= e.max_y
    &&& exists|y: int|
        0 <= y < height && #[trigger] is_positive(masks, base, width, e.min_x as int, y)
    &&& exists|y: int|
        0 <= y < height && #[trigger] is_positive(masks, base, width, e.max_x as int, y)
    &&& exists|x: int|
        0 <= x < width && #[trigger] is_positive(masks, base, width, x, e.min_y as int)
    &&& exists|x: int|
        0 <= x < width && #[trigger] is_positive(masks, base, width, x, e.max_y as int)
}

/// Samples of a mask that have been looked at, row by row.
spec fn is_seen(x: int, y: int, to_x: int, to_y: int) -> bool {
    y < to_y || (y == to_y && x < to_x)
}

/// Whether the extent lies closely around the positive samples among those seen.
spec fn encloses_seen(
    e: Extent,
    masks: Seq<F32>,
    base: int,
    width: int,
    to_x: int,
    to_y: int,
) -> bool {
    &&& e.min_x <= e.max_x < width
    &&& e.min_y <= e.max_y <= to_y
    &&& forall|x: int, y: int|
        0 <= x < width && 0 <= y && is_seen(x, y, to_x, to_y) && #[trigger] is_positive(
            masks,
            base,
            width,
            x,
            y,
        ) ==> e.min_x <= x <= e.max_x && e.min_y <= y <= e.max_y
    &&& exists|y: int|
        0 <= y && is_seen(e.min_x as int, y, to_x, to_y) && #[trigger] is_positive(
            masks,
            base,
            width,
            e.min_x as int,
            y,
        )
    &&& exists|y: int|
        0 <= y && is_seen(e.max_x as int, y, to_x, to_y) && #[trigger] is_positive(
            masks,
            base,
            width,
            e.max_x as int,
            y,
        )
    &&& exists|x: int|
        0 <= x < width && is_seen(x, e.min_y as int, to_x, to_y) && #[trigger] is_positive(
            masks,
            base,
            width,
            x,
            e.min_y as int,
        )
    &&& exists|x: int|
        0 <= x < width && is_seen(x, e.max_y as int, to_x, to_y) && #[trigger] is_positive(
            masks,
            base,
            width,
            x,
            e.max_y as int,
        )
}

/// What the samples that were seen give.
spec fn is_extent_of_seen(
    extent: Option<Extent>,
    masks: Seq<F32>,
    base: int,
    width: int,
    to_x: int,
    to_y: int,
) -> bool {
    match extent {
        Some(e) => encloses_seen(e, masks, base, width, to_x, to_y),
        None => forall|x: int, y: int|
            0 <= x < width && 0 <= y && is_seen(x, y, to_x, to_y) ==> !#[trigger] is_positive(
                masks,
                base,
                width,
                x,
                y,
            ),
    }
}

/// The next row follows the last sample of a row.
proof fn lemma_next_row(
    extent: Option<Extent>,
    masks: Seq<F32>,
    base: int,
    width: int,
    y: int,
)
    requires
        is_extent_of_seen(extent, masks, base, width, width, y),
    ensures
        is_extent_of_seen(extent, masks, base, width, 0, y + 1),
{
    if let Some(e) = extent {
        let a = choose|y1: int|
            0 <= y1 && is_seen(e.min_x as int, y1, width, y) && #[trigger] is_positive(
                masks,
                base,
                width,
                e.min_x as int,
                y1,
            );
        assert(is_seen(e.min_x as int, a, 0, y + 1));
        let b = choose|y1: int|
            0 <= y1 && is_seen(e.max_x as int, y1, width, y) && #[trigger] is_positive(
                masks,
                base,
                width,
                e.max_x as int,
                y1,
            );
        assert(is_seen(e.max_x as int, b, 0, y + 1));
    }
}

fn grown(
    extent: Option<Extent>,
    x: usize,
    y: usize,
    Ghost(masks): Ghost<Seq<F32>>,
    Ghost(base): Ghost<int>,
    Ghost(width): Ghost<int>,
) -> (next: Option<Extent>)
    requires
        x < width,
        is_positive(masks, base, width, x as int, y as int),
        is_extent_of_seen(extent, masks, base, width, x as int, y as int),
    ensures
        is_extent_of_seen(next, masks, base, width, x + 1, y as int),
{
    match extent {
        None => Some(Extent { min_x: x, min_y: y, max_x: x, max_y: y }),
        Some(e) => {
            let n = Extent {
                min_x: if x < e.min_x {
                    x
                } else {
                    e.min_x
                },
                min_y: e.min_y,
                max_x: if x > e.max_x {
                    x
                } else {
                    e.max_x
                },
                max_y: y,
            };
            proof {
                let a = choose|y1: int|
                    0 <= y1 && is_seen(e.min_x as int, y1, x as int, y as int)
                        && #[trigger] is_positive(masks, base, width, e.min_x as int, y1);
                let b = choose|y1: int|
                    0 <= y1 && is_seen(e.max_x as int, y1, x as int, y as int)
                        && #[trigger] is_positive(masks, base, width, e.max_x as int, y1);
                let c = choose|x1: int|
                    0 <= x1 < width && is_seen(x1, e.min_y as int, x as int, y as int)
                        && #[trigger] is_positive(masks, base, width, x1, e.min_y as int);
                if x < e.min_x {
                    assert(is_positive(masks, base, width, n.min_x as int, y as int));
                } else {
                    assert(is_positive(masks, base, width, n.min_x as int, a));
                }
                if x > e.max_x {
                    assert(is_positive(masks, base, width, n.max_x as int, y as int));
                } else {
                    assert(is_positive(masks, base, width, n.max_x as int, b));
                }
                assert(is_positive(masks, base, width, c, n.min_y as int));
                assert(is_positive(masks, base, width, x as int, n.max_y as int));
            }
            Some(n)
        },
    }
}

/// Finds the extent of the mask that starts at `base`; none where no sample is positive.
pub fn mask_extent(masks: &Vec<F32>, base: usize, width: usize, height: usize) -> (extent: Option<
    Extent,
>)
    requires
        base + height * width <= masks@.len(),
    ensures
        match extent {
            Some(e) => encloses(e, masks@, base as int, width as int, height as int),
            None => forall|x: int, y: int|
                0 <= x < width && 0 <= y < height ==> !#[trigger] is_positive(
                    masks@,
                    base as int,
                    width as int,
                    x,
                    y,
                ),
        },
{
    let entries: usize = masks.len();
    let mut extent: Option<Extent> = None;
    let zero = F32 { bits: 0 };
    let mut y: usize = 0;
    while y < height
        invariant
            y <= height,
            zero.bits == 0,
            base + height * width <= entries == masks@.len(),
            is_extent_of_seen(extent, masks@, base as int, width as int, 0, y as int),
        decreases height - y,
    {
        proof {
            lemma_row_fits(y as int, height as int, width as int);
        }
        let from: usize = base + y * width;
        let mut x: usize = 0;
        while x < width
            invariant
                x <= width,
                y < height,
                zero.bits == 0,
                from == base + y * width,
                from + width <= entries == masks@.len(),
                is_extent_of_seen(extent, masks@, base as int, width as int, x as int, y as int),
            decreases width - x,
        {
            if zero.is_below(masks[from + x]) {
                extent = grown(
                    extent,
                    x,
                    y,
                    Ghost(masks@),
                    Ghost(base as int),
                    Ghost(width as int),
                );
            } else {
                assert(!is_positive(masks@, base as int, width as int, x as int, y as int));
            }
            x = x + 1;
        }
        proof {
            lemma_next_row(extent, masks@, base as int, width as int, y as int);
        }
        y = y + 1;
    }
    extent
}

/// Bits of a tenth.
pub const TENTH: u32 = 0x3dcc_cccd;

/// Least side of a box in the relation of two boxes. Half-precision numbers overflow below
/// a tenth.
pub open spec fn least_side(dtype: DType, configured: F32) -> F32 {
    if dtype == DType::F16 && !(F32 { bits: TENTH }).below(configured) {
        F32 { bits: TENTH }
    } else {
        configured
    }
}

pub fn relation_box_dim_min_for_dtype(dtype: DType, configured: F32) -> (least: F32)
    ensures
        least == least_side(dtype, configured),
{
    let tenth = F32 { bits: TENTH };
    match dtype {
        DType::F16 => if tenth.is_below(configured) {
            configured
        } else {
            tenth
        },
        _ => configured,
    }
}

/// The positions chosen on a page are positions of it, each once; their scores run down,
/// and no position that is left out scores more than one that is chosen.
pub proof fn law_the_best_positions_are_chosen(
    chosen: Seq<i32>,
    scores: Seq<F32>,
    pages: int,
    total: int,
    num_queries: int,
    page: int,
    q: int,
    at: int,
)
    requires
        are_top_queries(chosen, scores, pages, total, num_queries),
        scores.len() == pages * total,
        0 <= num_queries <= total <= i32::MAX,
        0 <= page < pages,
        0 <= q < num_queries,
        0 <= at < total,
        forall|r: int| 0 <= r < q ==> chosen[#[trigger] (page * num_queries + r)] != at,
    ensures
        0 <= chosen[page * num_queries + q] < total,
        !scores[page * total + chosen[page * num_queries + q]].below(scores[page * total + at]),
        forall|r: int|
            0 <= r < q ==> chosen[#[trigger] (page * num_queries + r)] != chosen[page * num_queries
                + q],
{
    lemma_row_fits(page, pages, total);
    lemma_row_fits(page, pages, num_queries);
    let mine = row(scores, page, total);
    let keys = detection::score_keys(mine);
    let order = ordering::ordered(keys);
    ordering::lemma_ordered(keys);
    assert(row(chosen, page, num_queries) == order.take(num_queries).map_values(
        |at: usize| at as i32,
    ));
    assert forall|r: int| 0 <= r < num_queries implies #[trigger] order[r]
        == chosen[page * num_queries + r] by {
        assert(row(chosen, page, num_queries)[r] == chosen[page * num_queries + r]);
        assert(order.take(num_queries).map_values(|at: usize| at as i32)[r] == order[r] as i32);
        assert(order[r] < total);
    }
    assert(order.contains(at as usize));
    let m = order.index_of(at as usize);
    assert(m >= q) by {
        if m < q {
            assert(order[m] == chosen[page * num_queries + m]);
        }
    }
    let best = order[q] as int;
    assert(chosen[page * num_queries + q] == best);
    assert(mine[best] == scores[page * total + best]);
    assert(mine[at] == scores[page * total + at]);
    assert(keys[best] == -mine[best].rank() && keys[at] == -mine[at].rank());
    if q < m {
        ordering::law_the_least_keys_come_first(keys, q, m);
    }
    assert forall|r: int| 0 <= r < q implies chosen[#[trigger] (page * num_queries + r)]
        != chosen[page * num_queries + q] by {
        ordering::law_the_least_keys_come_first(keys, r, q);
        assert(order[r] == chosen[page * num_queries + r]);
    }
}

/// A feature map starts right behind the positions of the map before it, the first one
/// at zero.
pub proof fn law_maps_follow_each_other(shapes: Seq<(usize, usize)>, level: int)
    requires
        0 <= level < shapes.len(),
    ensures
        positions(shapes, 0) == 0,
        positions(shapes, level + 1) - positions(shapes, level) == shapes[level].0
            * shapes[level].1,
{
}

/// Marks are counted one by one.
pub proof fn law_marks_are_counted(mask: Seq<i32>, i: int)
    requires
        0 <= i < mask.len(),
    ensures
        marked(mask, 0) == 0,
        mask[i] == 1 ==> marked(mask, i + 1) == marked(mask, i) + 1,
        mask[i] == 0 ==> marked(mask, i + 1) == marked(mask, i),
{
}

/// A query is confident where its probability is at least what is asked of its class:
/// one half for a class that asks nothing of its own.
pub proof fn law_confident_queries_reach_their_threshold(
    probs: Seq<F32>,
    class_ids: Seq<i32>,
    thresholds: Seq<F32>,
    i: int,
)
    requires
        0 <= i < probs.len(),
        probs[i].is_number(),
    ensures
        0 <= class_ids[i] < thresholds.len() && thresholds[class_ids[i] as int].is_number() ==> (
        confidence(probs, class_ids, thresholds)[i] == 1 <==> thresholds[class_ids[i] as int].rank()
            <= probs[i].rank()),
        !(0 <= class_ids[i] < thresholds.len()) ==> (confidence(probs, class_ids, thresholds)[i]
            == 1 <==> (F32 { bits: 0x3f00_0000 }).rank() <= probs[i].rank()),
        confidence(probs, class_ids, thresholds)[i] == 0 || confidence(
            probs,
            class_ids,
            thresholds,
        )[i] == 1,
{
}

/// What an arrangement puts at a place belongs together: the class, the mark and the
/// label of a place are those of the query at it. Confident queries have the label of
/// their class, and all others none.
pub proof fn law_places_belong_to_their_queries(
    at: Arrangement,
    probs: Seq<F32>,
    class_ids: Seq<i32>,
    pages: int,
    num_queries: int,
    thresholds: Seq<F32>,
    class_order: Seq<usize>,
    page: int,
    q: int,
)
    requires
        is_arrangement(at, probs, class_ids, pages, num_queries, thresholds, class_order),
        probs.len() == pages * num_queries,
        class_ids.len() == pages * num_queries,
        num_queries <= i32::MAX,
        0 <= page < pages,
        0 <= q < num_queries,
        forall|k: int| 0 <= k < class_order.len() ==> #[trigger] class_order[k] <= i32::MAX,
    ensures
        ({
            let i = page * num_queries + q;
            let query = at.order@[i];
            let source = page * num_queries + query;
            let marks = confidence(probs, class_ids, thresholds);
            &&& 0 <= query < num_queries
            &&& at.class_ids@[i] == class_ids[source]
            &&& at.mask@[i] == marks[source]
            &&& marks[source] == 1 && 0 <= class_ids[source] < class_order.len() ==> at.labels@[i]
                == class_order[class_ids[source] as int]
            &&& marks[source] == 0 || !(0 <= class_ids[source] < class_order.len())
                ==> at.labels@[i] == 0
        }),
{
    lemma_row_fits(page, pages, num_queries);
    let all = confidence(probs, class_ids, thresholds);
    let marks = row(all, page, num_queries);
    ordering::lemma_ordered(mark_keys(marks));
    let query = arranged(marks)[q] as int;
    assert(at.order@[page * num_queries + q] == query);
    assert(marks[query] == all[page * num_queries + query]);
    assert(row(class_ids, page, num_queries)[query] == class_ids[page * num_queries + query]);
}

/// A mask has an extent exactly where one of its samples is above zero, and every such
/// sample lies within it.
pub proof fn law_extents_hold_the_samples_above_zero(
    extent: Option<Extent>,
    masks: Seq<F32>,
    base: int,
    width: int,
    height: int,
)
    requires
        match extent {
            Some(e) => encloses(e, masks, base, width, height),
            None => forall|x: int, y: int|
                0 <= x < width && 0 <= y < height ==> !#[trigger] is_positive(
                    masks,
                    base,
                    width,
                    x,
                    y,
                ),
        },
    ensures
        extent is Some <==> exists|x: int, y: int|
            0 <= x < width && 0 <= y < height && (F32 { bits: 0 }).below(
                #[trigger] masks[base + y * width + x],
            ),
        forall|x: int, y: int|
            0 <= x < width && 0 <= y < height && (F32 { bits: 0 }).below(
                #[trigger] masks[base + y * width + x],
            ) ==> extent->0.min_x <= x <= extent->0.max_x && extent->0.min_y <= y
                <= extent->0.max_y,
{
    assert forall|x: int, y: int|
        0 <= x < width && 0 <= y < height && (F32 { bits: 0 }).below(
            #[trigger] masks[base + y * width + x],
        ) implies extent is Some && extent->0.min_x <= x <= extent->0.max_x && extent->0.min_y <= y
        <= extent->0.max_y by {
        assert(is_positive(masks, base, width, x, y));
    }
    if extent is Some {
        let e = extent->0;
        let y = choose|y: int|
            0 <= y < height && #[trigger] is_positive(masks, base, width, e.min_x as int, y);
        assert((F32 { bits: 0 }).below(masks[base + y * width + e.min_x as int]));
    }
}

/// A page of the reading-order model starts with its start, has one place for every
/// element, ends behind them, and is filled up with padding.
pub proof fn law_pages_are_framed(tokens: ReadingTokens, count: int, place: int)
    requires
        count >= 0,
        place >= 0,
    ensures
        tokens.at(count, 0) == tokens.start,
        1 <= place <= count ==> tokens.at(count, place) == tokens.pred,
        tokens.at(count, count + 1) == tokens.end,
        place > count + 1 ==> tokens.at(count, place) == tokens.pad,
        ReadingTokens::preset().pads_apart(),
        ReadingTokens::preset().start == 0 && ReadingTokens::preset().pad == 1
            && ReadingTokens::preset().end == 2 && ReadingTokens::preset().pred == 3,
{
}

/// Nothing is added to the attention on the start, the elements and the end, and ten
/// thousand is taken off everything behind.
pub proof fn law_padding_gets_no_attention(count: int, place: int)
    ensures
        place <= count + 1 ==> attention_at(count, place).bits == 0,
        place > count + 1 ==> {
            let off = attention_at(count, place);
            &&& off.is_negative()
            &&& numer(off.size()) == 10_000 * denom(off.size())
        },
{
    lemma2_to64();
    let off = F32 { bits: 0xc61c_4000 };
    assert(off.is_negative());
    assert(off.size().m == 0x9c_4000 && off.size().e == -10);
    assert(rounding::up(-10) == 0 && rounding::down(-10) == 10);
    assert(numer(off.size()) == 0x9c_4000 && denom(off.size()) == 0x400);
}

/// A pair of elements is marked with a one where the second is the first itself or comes
/// before it, and with nothing else: of two elements exactly one pair is.
pub proof fn law_pairs_are_marked_once(i: int, j: int)
    ensures
        j <= i ==> numer(triangle_at(i, j).size()) == denom(triangle_at(i, j).size())
            && !triangle_at(i, j).is_negative(),
        j > i ==> triangle_at(i, j).bits == 0,
        i != j ==> (triangle_at(i, j).bits == 0 <==> triangle_at(j, i).bits != 0),
{
    lemma2_to64();
    let one = F32 { bits: 0x3f80_0000 };
    assert(one.size().m == 0x80_0000 && one.size().e == -23);
    assert(rounding::up(-23) == 0 && rounding::down(-23) == 23);
    assert(numer(one.size()) == 0x80_0000 && denom(one.size()) == 0x80_0000);
}

/// The least side of a box is the one that is set, and a tenth where half-precision numbers
/// are asked to go below it.
pub proof fn law_half_precision_keeps_a_tenth(dtype: DType, configured: F32)
    requires
        configured.is_number(),
    ensures
        ({
            let tenth = F32 { bits: 0x3dcc_cccd };
            &&& dtype != DType::F16 ==> least_side(dtype, configured) == configured
            &&& dtype == DType::F16 && tenth.below(configured) ==> least_side(dtype, configured)
                == configured
            &&& dtype == DType::F16 && !tenth.below(configured) ==> least_side(dtype, configured)
                == tenth
            &&& !least_side(dtype, configured).below(configured)
            &&& dtype == DType::F16 ==> !least_side(dtype, configured).below(tenth)
        }),
{
}

} // verus!
