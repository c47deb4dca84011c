//! From query scores to layout detections in reading order.

use crate::float::{F32, F64};
use crate::ordering;
use vstd::arithmetic::div_mod::*;
use vstd::prelude::*;

verus! {

/// Keys that order votes as numbers compare.
pub open spec fn vote_keys(votes: Seq<F64>) -> Seq<i128> {
    votes.map_values(|v: F64| v.rank() as i128)
}

/// `ranks` numbers the queries from 0 on by their votes, from the least; equal
/// votes by query.
pub open spec fn are_ranks(ranks: Seq<usize>, votes: Seq<F64>) -> bool {
    &&& ranks.len() == votes.len()
    &&& forall|q: int| 0 <= q < ranks.len() ==> #[trigger] ranks[q] < votes.len()
    &&& forall|p: int, q: int|
        0 <= p < ranks.len() && 0 <= q < ranks.len() ==> (#[trigger] ranks[p]
            < #[trigger] ranks[q] <==> ordering::comes_before(vote_keys(votes), p, q))
}

/// Reading-order rank of every query.
pub fn ranks_from_votes(votes: &Vec<F64>) -> (ranks: Vec<usize>)
    requires
        forall|q: int| 0 <= q < votes@.len() ==> (#[trigger] votes@[q]).is_number(),
    ensures
        are_ranks(ranks@, votes@),
{
    let mut keys: Vec<i128> = Vec::new();
    let mut i: usize = 0;
    while i < votes.len()
        invariant
            i <= votes@.len(),
            keys@ == vote_keys(votes@).take(i as int),
        decreases votes.len() - i,
    {
        keys.push(votes[i].rank_of() as i128);
        i = i + 1;
        assert(keys@ == vote_keys(votes@).take(i as int));
    }
    assert(keys@ == vote_keys(votes@));
    let pointers = ordering::stable_order(&keys);
    let mut ranks: Vec<usize> = vec![0usize; votes.len()];
    let mut rank: usize = 0;
    while rank < pointers.len()
        invariant
            rank <= pointers@.len(),
            ranks@.len() == votes@.len(),
            keys@ == vote_keys(votes@),
            ordering::is_order(pointers@, keys@, votes@.len() as int),
            forall|j: int| 0 <= j < rank ==> ranks@[#[trigger] pointers@[j] as int] == j,
        decreases pointers.len() - rank,
    {
        let pointer: usize = pointers[rank];
        let ghost before = ranks@;
        ranks.set(pointer, rank);
        assert forall|j: int| 0 <= j < rank + 1 implies ranks@[#[trigger] pointers@[j] as int]
            == j by {
            if j < rank {
                assert(ordering::comes_before(keys@, pointers@[j] as int, pointer as int));
            }
        }
        rank = rank + 1;
    }
    proof {
        assert forall|q: int| 0 <= q < ranks@.len() implies #[trigger] ranks@[q] < votes@.len()
            && pointers@[ranks@[q] as int] == q by {
            assert(pointers@.contains(q as usize));
            let j = choose|j: int| 0 <= j < pointers@.len() && pointers@[j] == q as usize;
            assert(ranks@[pointers@[j] as int] == j);
        }
        assert forall|p: int, q: int|
            0 <= p < ranks@.len() && 0 <= q < ranks@.len() implies (#[trigger] ranks@[p]
            < #[trigger] ranks@[q] <==> ordering::comes_before(vote_keys(votes@), p, q)) by {
            let i = ranks@[p] as int;
            let j = ranks@[q] as int;
            if i < j {
                assert(ordering::comes_before(keys@, pointers@[i] as int, pointers@[j] as int));
            } else if j < i {
                assert(ordering::comes_before(keys@, pointers@[j] as int, pointers@[i] as int));
            }
        }
    }
    ranks
}

/// A query that is kept, with its class and score.
#[derive(Clone, Copy, Debug, PartialEq, Eq, Structural)]
pub struct Selected {
    pub query: usize,
    pub class: usize,
    pub score: F32,
}

/// Keys that order scores from the greatest to the least.
pub open spec fn score_keys(scores: Seq<F32>) -> Seq<i128> {
    scores.map_values(|s: F32| (-s.rank()) as i128)
}

/// Number of leading entries of `order`, at most `limit`, whose score is not
/// below the threshold.
pub open spec fn kept_count(
    order: Seq<usize>,
    scores: Seq<F32>,
    threshold: F32,
    limit: int,
    from: int,
) -> int
    decreases limit - from,
{
    if from >= limit || from >= order.len() || scores[order[from] as int].below(threshold) {
        from
    } else {
        kept_count(order, scores, threshold, limit, from + 1)
    }
}

/// The best `num_queries` pairs of query and class that reach the threshold,
/// best first, as indices into the scores.
pub open spec fn best_pairs(scores: Seq<F32>, num_queries: int, threshold: F32) -> Seq<usize> {
    let order = ordering::ordered(score_keys(scores));
    order.take(kept_count(order, scores, threshold, num_queries, 0))
}

/// Query of a pair.
pub open spec fn query_of(pair: usize, num_classes: int) -> int {
    pair as int / num_classes
}

/// Keys that order pairs by the reading-order rank of their query.
pub open spec fn rank_keys(pairs: Seq<usize>, num_classes: int, ranks: Seq<usize>) -> Seq<i128> {
    pairs.map_values(|pair: usize| ranks[query_of(pair, num_classes)] as i128)
}

pub open spec fn selected(pair: usize, num_classes: int, scores: Seq<F32>) -> Selected {
    Selected {
        query: query_of(pair, num_classes) as usize,
        class: (pair as int % num_classes) as usize,
        score: scores[pair as int],
    }
}

/// The best pairs in reading order; pairs of one query stay best first.
pub open spec fn selections(
    scores: Seq<F32>,
    num_queries: int,
    num_classes: int,
    ranks: Seq<usize>,
    threshold: F32,
) -> Seq<Selected> {
    let pairs = best_pairs(scores, num_queries, threshold);
    ordering::ordered(rank_keys(pairs, num_classes, ranks)).map_values(
        |k: usize| selected(pairs[k as int], num_classes, scores),
    )
}

proof fn lemma_kept_count(
    order: Seq<usize>,
    scores: Seq<F32>,
    threshold: F32,
    limit: int,
    from: int,
)
    requires
        0 <= from <= order.len(),
    ensures
        from <= kept_count(order, scores, threshold, limit, from) <= order.len(),
    decreases limit - from,
{
    if !(from >= limit || from >= order.len() || scores[order[from] as int].below(threshold)) {
        lemma_kept_count(order, scores, threshold, limit, from + 1);
    }
}

/// Keeps the best pairs of query and class and puts them in reading order.
pub fn select_detections(
    scores: &Vec<F32>,
    num_queries: usize,
    num_classes: usize,
    ranks: &Vec<usize>,
    threshold: F32,
) -> (kept: Vec<Selected>)
    requires
        scores@.len() == num_queries * num_classes,
        forall|i: int| 0 <= i < scores@.len() ==> (#[trigger] scores@[i]).is_number(),
        ranks@.len() == num_queries,
    ensures
        kept@ == selections(
            scores@,
            num_queries as int,
            num_classes as int,
            ranks@,
            threshold,
        ),
        forall|i: int| 0 <= i < kept@.len() ==> (#[trigger] kept@[i]).query < num_queries,
{
    let mut keys: Vec<i128> = Vec::new();
    let mut i: usize = 0;
    while i < scores.len()
        invariant
            i <= scores@.len(),
            keys@ == score_keys(scores@).take(i as int),
        decreases scores.len() - i,
    {
        let rank: i64 = scores[i].rank_of();
        keys.push(-(rank as i128));
        i = i + 1;
        assert(keys@ == score_keys(scores@).take(i as int));
    }
    assert(keys@ == score_keys(scores@));
    let order = ordering::stable_order(&keys);
    let ghost pairs = best_pairs(scores@, num_queries as int, threshold);
    let mut count: usize = 0;
    while count < num_queries && count < order.len() && !scores[order[count]].is_below(threshold)
        invariant
            count <= order@.len(),
            ordering::is_order(order@, keys@, scores@.len() as int),
            kept_count(order@, scores@, threshold, num_queries as int, 0) == kept_count(
                order@,
                scores@,
                threshold,
                num_queries as int,
                count as int,
            ),
        decreases order.len() - count,
    {
        count = count + 1;
    }
    assert(pairs == order@.take(count as int));
    let mut rank_list: Vec<i128> = Vec::new();
    let mut j: usize = 0;
    proof {
        assert forall|k: int| 0 <= k < count implies num_classes > 0 && query_of(#[trigger] pairs[k], num_classes as int) < num_queries by {
            let pair = pairs[k] as int;
            assert(pair < num_queries * num_classes);
            lemma_pair_query(pair, num_queries as int, num_classes as int);
        }
    }
    while j < count
        invariant
            j <= count <= order@.len(),
            pairs == order@.take(count as int),
            ranks@.len() == num_queries,
            forall|k: int|
                0 <= k < count ==> num_classes > 0 && query_of(#[trigger] pairs[k], num_classes as int) < num_queries,
            rank_list@ == rank_keys(pairs, num_classes as int, ranks@).take(j as int),
        decreases count - j,
    {
        assert(pairs[j as int] == order@[j as int]);
        let query: usize = order[j] / num_classes;
        rank_list.push(ranks[query] as i128);
        j = j + 1;
        assert(rank_list@ == rank_keys(pairs, num_classes as int, ranks@).take(j as int));
    }
    assert(rank_list@ == rank_keys(pairs, num_classes as int, ranks@));
    let reading = ordering::stable_order(&rank_list);
    let ghost all = selections(
        scores@,
        num_queries as int,
        num_classes as int,
        ranks@,
        threshold,
    );
    let mut kept: Vec<Selected> = Vec::new();
    let mut m: usize = 0;
    while m < reading.len()
        invariant
            m <= reading@.len(),
            count <= order@.len(),
            ordering::is_order(order@, keys@, scores@.len() as int),
            ordering::is_order(reading@, rank_list@, count as int),
            pairs == order@.take(count as int),
            forall|k: int|
                0 <= k < count ==> num_classes > 0 && query_of(#[trigger] pairs[k], num_classes as int) < num_queries,
            all == reading@.map_values(
                |k: usize| selected(pairs[k as int], num_classes as int, scores@),
            ),
            kept@ == all.take(m as int),
            forall|k: int| 0 <= k < kept@.len() ==> (#[trigger] kept@[k]).query < num_queries,
        decreases reading.len() - m,
    {
        let at: usize = reading[m];
        assert(pairs[at as int] == order@[at as int]);
        let pair: usize = order[at];
        kept.push(
            Selected { query: pair / num_classes, class: pair % num_classes, score: scores[pair] },
        );
        m = m + 1;
        assert(kept@ == all.take(m as int));
    }
    assert(all.take(m as int) == all);
    kept
}

proof fn lemma_pair_query(pair: int, num_queries: int, num_classes: int)
    requires
        0 <= pair < num_queries * num_classes,
        num_queries >= 0,
        num_classes >= 0,
    ensures
        num_classes > 0,
        0 <= pair / num_classes < num_queries,
{
    assert(num_classes > 0) by (nonlinear_arith)
        requires
            0 < num_queries * num_classes,
            num_classes >= 0,
    ;
    let q = pair / num_classes;
    assert(0 <= q < num_queries) by (nonlinear_arith)
        requires
            0 <= pair < num_queries * num_classes,
            num_classes > 0,
            q == pair / num_classes,
    ;
}

/// Detections of one page, in reading order.
#[derive(Clone, Debug)]
pub struct DetectionResult {
    /// Confidence of every detection.
    pub scores: Vec<F32>,
    /// Class index of every detection.
    pub labels: Vec<usize>,
    /// Left, top, right and bottom of every detection, in pixels.
    pub boxes: Vec<[F32; 4]>,
}

/// Detections of one page with their outlines, in reading order.
#[derive(Clone, Debug)]
pub struct DetectionResultV3 {
    /// Confidence of every detection.
    pub scores: Vec<F32>,
    /// Class index of every detection.
    pub labels: Vec<usize>,
    /// Left, top, right and bottom of every detection, in pixels.
    pub boxes: Vec<[F32; 4]>,
    /// Outline of every detection, in pixels.
    pub polygon_points: Vec<Vec<[F32; 2]>>,
}

/// What the model says of one page: a score for every pair of query and class,
/// and a box and a reading-order vote for every query.
pub struct PageScores {
    pub scores: Vec<F32>,
    pub boxes: Vec<[F32; 4]>,
    pub votes: Vec<F64>,
}

impl PageScores {
    pub open spec fn wf(&self, num_classes: usize) -> bool {
        &&& self.votes@.len() == self.boxes@.len()
        &&& self.scores@.len() == self.boxes@.len() * num_classes
        &&& forall|i: int| 0 <= i < self.scores@.len() ==> (#[trigger] self.scores@[i]).is_number()
        &&& forall|i: int| 0 <= i < self.votes@.len() ==> (#[trigger] self.votes@[i]).is_number()
    }
}

/// The selections as three parallel lists.
pub open spec fn lists(
    kept: Seq<Selected>,
    boxes: Seq<[F32; 4]>,
    scores: Seq<F32>,
    labels: Seq<usize>,
    corners: Seq<[F32; 4]>,
) -> bool {
    &&& scores == kept.map_values(|s: Selected| s.score)
    &&& labels == kept.map_values(|s: Selected| s.class)
    &&& corners == kept.map_values(|s: Selected| boxes[s.query as int])
}

/// `result` holds the selections for some numbering of the queries by votes.
pub open spec fn decodes(
    result: DetectionResult,
    page: PageScores,
    num_classes: usize,
    threshold: F32,
) -> bool {
    exists|ranks: Seq<usize>|
        #![trigger are_ranks(ranks, page.votes@)]
        are_ranks(ranks, page.votes@) && lists(
            selections(
                page.scores@,
                page.boxes@.len() as int,
                num_classes as int,
                ranks,
                threshold,
            ),
            page.boxes@,
            result.scores@,
            result.labels@,
            result.boxes@,
        )
}

fn lists_of(kept: &Vec<Selected>, boxes: &Vec<[F32; 4]>) -> (result: DetectionResult)
    requires
        forall|i: int| 0 <= i < kept@.len() ==> (#[trigger] kept@[i]).query < boxes@.len(),
    ensures
        lists(kept@, boxes@, result.scores@, result.labels@, result.boxes@),
{
    let mut result = DetectionResult { scores: Vec::new(), labels: Vec::new(), boxes: Vec::new() };
    let mut i: usize = 0;
    proof {
        let none = kept@.take(0);
        assert(result.scores@ == none.map_values(|s: Selected| s.score));
        assert(result.labels@ == none.map_values(|s: Selected| s.class));
        assert(result.boxes@ == none.map_values(|s: Selected| boxes@[s.query as int]));
    }
    while i < kept.len()
        invariant
            i <= kept@.len(),
            forall|k: int| 0 <= k < kept@.len() ==> (#[trigger] kept@[k]).query < boxes@.len(),
            lists(
                kept@.take(i as int),
                boxes@,
                result.scores@,
                result.labels@,
                result.boxes@,
            ),
        decreases kept.len() - i,
    {
        let s = kept[i];
        result.scores.push(s.score);
        result.labels.push(s.class);
        result.boxes.push(boxes[s.query]);
        proof {
            let next = kept@.take(i as int + 1);
            assert(result.scores@ == next.map_values(|s: Selected| s.score));
            assert(result.labels@ == next.map_values(|s: Selected| s.class));
            assert(result.boxes@ == next.map_values(|s: Selected| boxes@[s.query as int]));
        }
        i = i + 1;
    }
    assert(kept@.take(kept@.len() as int) == kept@);
    result
}

/// Detections of one page: the best pairs of query and class, in reading order.
pub fn decode_page(page: &PageScores, num_classes: usize, threshold: F32) -> (result:
    DetectionResult)
    requires
        page.wf(num_classes),
    ensures
        decodes(result, *page, num_classes, threshold),
{
    let ranks = ranks_from_votes(&page.votes);
    let kept = select_detections(
        &page.scores,
        page.boxes.len(),
        num_classes,
        &ranks,
        threshold,
    );
    let result = lists_of(&kept, &page.boxes);
    assert(are_ranks(ranks@, page.votes@));
    result
}

/// Detections of every page.
pub fn post_process_object_detection(
    pages: &Vec<PageScores>,
    num_classes: usize,
    threshold: F32,
) -> (results: Vec<DetectionResult>)
    requires
        forall|b: int| 0 <= b < pages@.len() ==> (#[trigger] pages@[b]).wf(num_classes),
    ensures
        results@.len() == pages@.len(),
        forall|b: int|
            0 <= b < pages@.len() ==> decodes(
                #[trigger] results@[b],
                pages@[b],
                num_classes,
                threshold,
            ),
{
    let mut results: Vec<DetectionResult> = Vec::new();
    let mut b: usize = 0;
    while b < pages.len()
        invariant
            b <= pages@.len(),
            forall|k: int| 0 <= k < pages@.len() ==> (#[trigger] pages@[k]).wf(num_classes),
            results@.len() == b,
            forall|k: int|
                0 <= k < b ==> decodes(#[trigger] results@[k], pages@[k], num_classes, threshold),
        decreases pages.len() - b,
    {
        results.push(decode_page(&pages[b], num_classes, threshold));
        b = b + 1;
    }
    results
}

/// Joins the selections of a page with their outlines.
pub fn with_outlines(
    kept: &Vec<Selected>,
    boxes: &Vec<[F32; 4]>,
    outlines: Vec<Vec<[F32; 2]>>,
) -> (result: DetectionResultV3)
    requires
        forall|i: int| 0 <= i < kept@.len() ==> (#[trigger] kept@[i]).query < boxes@.len(),
    ensures
        lists(kept@, boxes@, result.scores@, result.labels@, result.boxes@),
        result.polygon_points@ == outlines@,
{
    let flat = lists_of(kept, boxes);
    DetectionResultV3 {
        scores: flat.scores,
        labels: flat.labels,
        boxes: flat.boxes,
        polygon_points: outlines,
    }
}

/// No more detections are kept than there are queries, every one reaches the
/// threshold and has a class of the model, and they stand in reading order.
pub proof fn law_selections(
    scores: Seq<F32>,
    num_queries: int,
    num_classes: int,
    ranks: Seq<usize>,
    threshold: F32,
)
    requires
        num_queries >= 0,
        num_classes >= 0,
        scores.len() == num_queries * num_classes,
        scores.len() <= usize::MAX,
        ranks.len() == num_queries,
    ensures
        ({
            let kept = selections(scores, num_queries, num_classes, ranks, threshold);
            &&& kept.len() <= num_queries
            &&& forall|i: int|
                0 <= i < kept.len() ==> {
                    &&& !(#[trigger] kept[i]).score.below(threshold)
                    &&& kept[i].query < num_queries
                    &&& kept[i].class < num_classes
                    &&& kept[i].score == scores[kept[i].query * num_classes + kept[i].class]
                }
            &&& forall|i: int, j: int|
                0 <= i < j < kept.len() ==> ranks[(#[trigger] kept[i]).query as int]
                    <= ranks[(#[trigger] kept[j]).query as int]
        }),
{
    let order = ordering::ordered(score_keys(scores));
    let pairs = best_pairs(scores, num_queries, threshold);
    let keys = rank_keys(pairs, num_classes, ranks);
    let kept = selections(scores, num_queries, num_classes, ranks, threshold);
    ordering::lemma_ordered(score_keys(scores));
    lemma_kept_count(order, scores, threshold, num_queries, 0);
    lemma_kept_bound(order, scores, threshold, num_queries, 0);
    ordering::lemma_ordered(keys);
    let reading = ordering::ordered(keys);
    assert forall|i: int| 0 <= i < kept.len() implies {
        &&& !(#[trigger] kept[i]).score.below(threshold)
        &&& kept[i].query < num_queries
        &&& kept[i].class < num_classes
        &&& kept[i].score == scores[kept[i].query * num_classes + kept[i].class]
    } by {
        let k = reading[i] as int;
        let pair = pairs[k] as int;
        assert(pairs[k] == order[k]);
        lemma_kept_reach(order, scores, threshold, num_queries, 0, k);
        lemma_pair_query(pair, num_queries, num_classes);
        lemma_fundamental_div_mod(pair, num_classes);
        lemma_mod_bound(pair, num_classes);
        assert(num_classes * (pair / num_classes) == pair / num_classes * num_classes)
            by (nonlinear_arith);
    }
    assert forall|i: int, j: int| 0 <= i < j < kept.len() implies ranks[(
    #[trigger] kept[i]).query as int] <= ranks[(#[trigger] kept[j]).query as int] by {
        assert(ordering::comes_before(keys, reading[i] as int, reading[j] as int));
        let a = pairs[reading[i] as int];
        let b = pairs[reading[j] as int];
        assert(a == order[reading[i] as int] && b == order[reading[j] as int]);
        lemma_pair_query(a as int, num_queries, num_classes);
        lemma_pair_query(b as int, num_queries, num_classes);
        assert(keys[reading[i] as int] == ranks[query_of(a, num_classes)]);
        assert(keys[reading[j] as int] == ranks[query_of(b, num_classes)]);
    }
}

proof fn lemma_kept_reach(
    order: Seq<usize>,
    scores: Seq<F32>,
    threshold: F32,
    limit: int,
    from: int,
    k: int,
)
    requires
        0 <= from <= k < kept_count(order, scores, threshold, limit, from),
        from <= order.len(),
    ensures
        !scores[order[k] as int].below(threshold),
        k < limit,
        kept_count(order, scores, threshold, limit, from) <= limit,
    decreases limit - from,
{
    if !(from >= limit || from >= order.len() || scores[order[from] as int].below(threshold)) {
        lemma_kept_bound(order, scores, threshold, limit, from + 1);
        if from < k {
            lemma_kept_reach(order, scores, threshold, limit, from + 1, k);
        }
    }
}

proof fn lemma_kept_bound(
    order: Seq<usize>,
    scores: Seq<F32>,
    threshold: F32,
    limit: int,
    from: int,
)
    requires
        from <= limit,
    ensures
        kept_count(order, scores, threshold, limit, from) <= limit,
    decreases limit - from,
{
    if !(from >= limit || from >= order.len() || scores[order[from] as int].below(threshold)) {
        lemma_kept_bound(order, scores, threshold, limit, from + 1);
    }
}

proof fn lemma_kept_stop(
    order: Seq<usize>,
    scores: Seq<F32>,
    threshold: F32,
    limit: int,
    from: int,
)
    requires
        0 <= from <= limit,
        from <= order.len(),
    ensures
        ({
            let count = kept_count(order, scores, threshold, limit, from);
            &&& from <= count <= order.len()
            &&& count < limit && count < order.len() ==> scores[order[count] as int].below(
                threshold,
            )
        }),
    decreases limit - from,
{
    if !(from >= limit || from >= order.len() || scores[order[from] as int].below(threshold)) {
        lemma_kept_stop(order, scores, threshold, limit, from + 1);
    }
}

/// Scores in order run down.
proof fn lemma_scores_run_down(scores: Seq<F32>, i: int, j: int)
    requires
        scores.len() <= usize::MAX,
        0 <= i <= j < scores.len(),
    ensures
        ordering::ordered(score_keys(scores)).len() == scores.len(),
        scores[ordering::ordered(score_keys(scores))[j] as int].rank() <= scores[ordering::ordered(
            score_keys(scores),
        )[i] as int].rank(),
{
    let keys = score_keys(scores);
    ordering::lemma_ordered(keys);
    if i < j {
        ordering::law_the_least_keys_come_first(keys, i, j);
        let order = ordering::ordered(keys);
        assert(keys[order[i] as int] == -scores[order[i] as int].rank());
        assert(keys[order[j] as int] == -scores[order[j] as int].rank());
    }
}

/// The best are kept: a pair of query and class whose score reaches the threshold is
/// among the detections, unless these are as many as the queries and none of them scores
/// less.
pub proof fn law_the_best_are_kept(
    scores: Seq<F32>,
    num_queries: int,
    num_classes: int,
    ranks: Seq<usize>,
    threshold: F32,
    query: int,
    class: int,
)
    requires
        0 <= query < num_queries,
        0 <= class < num_classes,
        scores.len() == num_queries * num_classes,
        scores.len() <= usize::MAX,
        ranks.len() == num_queries,
        threshold.is_number(),
        forall|i: int| 0 <= i < scores.len() ==> (#[trigger] scores[i]).is_number(),
        !scores[query * num_classes + class].below(threshold),
    ensures
        ({
            let kept = selections(scores, num_queries, num_classes, ranks, threshold);
            ||| exists|i: int|
                0 <= i < kept.len() && (#[trigger] kept[i]).query == query && kept[i].class == class
            ||| kept.len() == num_queries && forall|i: int|
                0 <= i < kept.len() ==> !(#[trigger] kept[i]).score.below(
                    scores[query * num_classes + class],
                )
        }),
{
    let p = query * num_classes + class;
    assert(0 <= p < num_queries * num_classes) by (nonlinear_arith)
        requires
            p == query * num_classes + class,
            0 <= query,
            query + 1 <= num_queries,
            0 <= class < num_classes,
    ;
    let order = ordering::ordered(score_keys(scores));
    let pairs = best_pairs(scores, num_queries, threshold);
    let keys = rank_keys(pairs, num_classes, ranks);
    let kept = selections(scores, num_queries, num_classes, ranks, threshold);
    ordering::lemma_ordered(score_keys(scores));
    lemma_kept_bound(order, scores, threshold, num_queries, 0);
    lemma_kept_stop(order, scores, threshold, num_queries, 0);
    let count = kept_count(order, scores, threshold, num_queries, 0);
    ordering::lemma_ordered(keys);
    let reading = ordering::ordered(keys);
    assert(order.contains(p as usize));
    let m = order.index_of(p as usize);
    if m < count {
        assert(pairs[m] == p);
        assert(reading.contains(m as usize));
        let i = reading.index_of(m as usize);
        lemma_fundamental_div_mod_converse(p, num_classes, query, class);
        assert(kept[i] == selected(pairs[m], num_classes, scores));
        assert(kept[i].query == query && kept[i].class == class);
    } else {
        if count < num_queries {
            lemma_scores_run_down(scores, count, m);
            assert(scores[order[count] as int].below(threshold));
        }
        assert forall|i: int| 0 <= i < kept.len() implies !(#[trigger] kept[i]).score.below(
            scores[p],
        ) by {
            let k = reading[i] as int;
            assert(pairs[k] == order[k]);
            lemma_scores_run_down(scores, k, m);
        }
    }
}

/// No pair of query and class is kept twice.
pub proof fn law_no_detection_comes_twice(
    scores: Seq<F32>,
    num_queries: int,
    num_classes: int,
    ranks: Seq<usize>,
    threshold: F32,
    i: int,
    j: int,
)
    requires
        num_queries >= 0,
        num_classes >= 0,
        scores.len() == num_queries * num_classes,
        scores.len() <= usize::MAX,
        ranks.len() == num_queries,
        0 <= i < j < selections(scores, num_queries, num_classes, ranks, threshold).len(),
    ensures
        ({
            let kept = selections(scores, num_queries, num_classes, ranks, threshold);
            kept[i].query != kept[j].query || kept[i].class != kept[j].class
        }),
{
    let order = ordering::ordered(score_keys(scores));
    let pairs = best_pairs(scores, num_queries, threshold);
    let keys = rank_keys(pairs, num_classes, ranks);
    let kept = selections(scores, num_queries, num_classes, ranks, threshold);
    ordering::lemma_ordered(score_keys(scores));
    lemma_kept_bound(order, scores, threshold, num_queries, 0);
    lemma_kept_stop(order, scores, threshold, num_queries, 0);
    ordering::lemma_ordered(keys);
    let reading = ordering::ordered(keys);
    ordering::law_the_least_keys_come_first(keys, i, j);
    let a = reading[i] as int;
    let b = reading[j] as int;
    assert(pairs[a] == order[a] && pairs[b] == order[b]);
    if a < b {
        ordering::law_the_least_keys_come_first(score_keys(scores), a, b);
    } else {
        ordering::law_the_least_keys_come_first(score_keys(scores), b, a);
    }
    let x = pairs[a] as int;
    let y = pairs[b] as int;
    lemma_pair_query(x, num_queries, num_classes);
    lemma_pair_query(y, num_queries, num_classes);
    lemma_fundamental_div_mod(x, num_classes);
    lemma_fundamental_div_mod(y, num_classes);
    lemma_mod_bound(x, num_classes);
    lemma_mod_bound(y, num_classes);
    assert(kept[i] == selected(pairs[a], num_classes, scores));
    assert(kept[j] == selected(pairs[b], num_classes, scores));
}

/// The query with the smaller vote is read first, and of two with the same vote the one
/// that comes first; every rank up to the number of queries is taken once.
pub proof fn law_ranks_follow_the_votes(ranks: Seq<usize>, votes: Seq<F64>, p: int, q: int)
    requires
        are_ranks(ranks, votes),
        0 <= p < votes.len(),
        0 <= q < votes.len(),
    ensures
        votes[p].rank() < votes[q].rank() ==> ranks[p] < ranks[q],
        votes[p].rank() == votes[q].rank() && p < q ==> ranks[p] < ranks[q],
        p != q ==> ranks[p] != ranks[q],
        ranks[p] < votes.len(),
{
    let keys = vote_keys(votes);
    assert(keys[p] == votes[p].rank() && keys[q] == votes[q].rank());
    assert(ranks[p] < ranks[q] <==> ordering::comes_before(keys, p, q));
    assert(ranks[q] < ranks[p] <==> ordering::comes_before(keys, q, p));
}

/// `queries` are those of the detections of a page: each has the box, the score and the
/// class of its detection, and they stand in the order of their votes.
pub open spec fn are_queries_of(
    queries: Seq<int>,
    result: DetectionResult,
    page: PageScores,
    num_classes: usize,
) -> bool {
    &&& queries.len() == result.scores@.len()
    &&& forall|i: int|
        0 <= i < queries.len() ==> {
            &&& 0 <= #[trigger] queries[i] < page.boxes@.len()
            &&& result.labels@[i] < num_classes
            &&& result.boxes@[i] == page.boxes@[queries[i]]
            &&& result.scores@[i] == page.scores@[queries[i] * num_classes + result.labels@[i]]
        }
    &&& forall|i: int, j: int|
        0 <= i < j < queries.len() ==> page.votes@[#[trigger] queries[i]].rank()
            <= page.votes@[#[trigger] queries[j]].rank()
}

/// Every detection of a page has the box of its own query, and the score that the page
/// gives this query and the class of the detection; the detections stand in the order of
/// the votes of their queries.
pub proof fn law_detections_have_their_own_boxes(
    result: DetectionResult,
    page: PageScores,
    num_classes: usize,
    threshold: F32,
)
    requires
        page.wf(num_classes),
        decodes(result, page, num_classes, threshold),
    ensures
        result.labels@.len() == result.scores@.len(),
        result.boxes@.len() == result.scores@.len(),
        exists|queries: Seq<int>| are_queries_of(queries, result, page, num_classes),
{
    let ranks = choose|ranks: Seq<usize>|
        #![trigger are_ranks(ranks, page.votes@)]
        are_ranks(ranks, page.votes@) && lists(
            selections(
                page.scores@,
                page.boxes@.len() as int,
                num_classes as int,
                ranks,
                threshold,
            ),
            page.boxes@,
            result.scores@,
            result.labels@,
            result.boxes@,
        );
    let n = page.boxes@.len() as int;
    let kept = selections(page.scores@, n, num_classes as int, ranks, threshold);
    assert(page.scores.len() == page.scores@.len());
    law_selections(page.scores@, n, num_classes as int, ranks, threshold);
    let queries = Seq::new(kept.len(), |i: int| kept[i].query as int);
    assert(result.scores@.len() == kept.len());
    assert(result.labels@.len() == kept.len());
    assert(result.boxes@.len() == kept.len());
    assert forall|i: int| 0 <= i < queries.len() implies {
        &&& 0 <= #[trigger] queries[i] < page.boxes@.len()
        &&& result.labels@[i] < num_classes
        &&& result.boxes@[i] == page.boxes@[queries[i]]
        &&& result.scores@[i] == page.scores@[queries[i] * num_classes + result.labels@[i]]
    } by {
        assert(kept[i].query < n);
        assert(result.labels@[i] == kept[i].class);
        assert(result.scores@[i] == kept[i].score);
        assert(result.boxes@[i] == page.boxes@[kept[i].query as int]);
    }
    assert forall|i: int, j: int| 0 <= i < j < queries.len() implies page.votes@[
    #[trigger] queries[i]].rank() <= page.votes@[#[trigger] queries[j]].rank() by {
        let a = kept[i];
        let b = kept[j];
        assert(ranks[a.query as int] <= ranks[b.query as int]);
        law_ranks_follow_the_votes(ranks, page.votes@, b.query as int, a.query as int);
    }
    assert(are_queries_of(queries, result, page, num_classes));
}

} // verus!
