//! Generation of an answer: where the image goes in the prompt, the positions of
//! all tokens, and the loop that feeds each new token back.

use crate::rope;
use crate::rope::{Axis, Grid, RopeIndex};
use vstd::prelude::*;

verus! {

/// The first image token of a prompt and the number of all.
pub fn image_token_span(input_ids: &[u32], image_token_id: u32) -> (span: Option<(usize, usize)>)
    ensures
        span is None <==> rope::count_of(input_ids@, image_token_id) == 0,
        span matches Some((first, count)) ==> {
            &&& first == rope::first_from(input_ids@, image_token_id, 0)
            &&& count == rope::count_of(input_ids@, image_token_id)
            &&& first + count <= input_ids@.len()
        },
{
    let ghost ids = input_ids@;
    let total: usize = input_ids.len();
    let mut first: usize = total;
    let mut count: usize = 0;
    let mut i: usize = 0;
    while i < total
        invariant
            i <= total == ids.len(),
            ids == input_ids@,
            count == rope::count_of(ids.take(i as int), image_token_id),
            count == 0 ==> first == total && rope::first_from(ids, image_token_id, 0)
                == rope::first_from(ids, image_token_id, i as int),
            count > 0 ==> first < i && first == rope::first_from(ids, image_token_id, 0) && first
                + count <= i,
        decreases total - i,
    {
        assert(ids.take(i as int + 1).drop_last() == ids.take(i as int));
        if input_ids[i] == image_token_id {
            if count == 0 {
                first = i;
            }
            count = count + 1;
        }
        i = i + 1;
    }
    assert(ids.take(total as int) == ids);
    if count == 0 {
        None
    } else {
        Some((first, count))
    }
}

/// An image is one frame.
pub open spec fn framed(grids: Seq<(usize, usize)>) -> Seq<Grid> {
    grids.map_values(|grid: (usize, usize)| (1usize, grid.0, grid.1))
}

fn with_frames(grids: &[(usize, usize)]) -> (framed_grids: Vec<Grid>)
    ensures
        framed_grids@ == framed(grids@),
{
    let mut out: Vec<Grid> = Vec::new();
    let mut i: usize = 0;
    while i < grids.len()
        invariant
            i <= grids@.len(),
            out@ == framed(grids@).take(i as int),
        decreases grids.len() - i,
    {
        out.push((1, grids[i].0, grids[i].1));
        i = i + 1;
        assert(out@ == framed(grids@).take(i as int));
    }
    assert(framed(grids@).take(i as int) == framed(grids@));
    out
}

/// Token numbers with a meaning for generation, and how many patches are merged
/// along a side.
#[derive(Clone, Copy, Debug)]
pub struct PromptTokens {
    pub image_token_id: u32,
    pub vision_start_token_id: u32,
    pub spatial_merge_size: usize,
}

/// What generation needs beside the model: the image tokens of the prompt, and
/// the positions of all tokens of prompt and answer, first along time, then along
/// height, then along width.
#[derive(Debug)]
pub struct GenerationPlan {
    pub first_image: usize,
    pub image_tokens: usize,
    pub positions: Vec<i64>,
}

/// Greatest position in a prompt.
pub open spec fn greatest_position(ids: Seq<u32>, grids: Seq<Grid>, tokens: PromptTokens) -> int {
    let t = rope::axis_positions(
        Axis::Temporal,
        ids,
        grids,
        tokens.image_token_id,
        tokens.spatial_merge_size,
    );
    let h = rope::axis_positions(
        Axis::Height,
        ids,
        grids,
        tokens.image_token_id,
        tokens.spatial_merge_size,
    );
    let w = rope::axis_positions(
        Axis::Width,
        ids,
        grids,
        tokens.image_token_id,
        tokens.spatial_merge_size,
    );
    rope::larger(rope::larger(rope::greatest(t), rope::greatest(h)), rope::greatest(w))
}

/// Positions along one axis: those of the prompt, then one position after
/// another past the greatest of the prompt.
pub open spec fn all_positions(
    axis: Axis,
    ids: Seq<u32>,
    grids: Seq<Grid>,
    tokens: PromptTokens,
    max_new_tokens: int,
) -> Seq<int> {
    rope::axis_positions(axis, ids, grids, tokens.image_token_id, tokens.spatial_merge_size)
        + rope::text_run(greatest_position(ids, grids, tokens) + 1, max_new_tokens)
}

/// A prompt that holds the images, with one image token for each of the
/// `projected` image features.
pub open spec fn prompt_fits(
    ids: Seq<u32>,
    grids: Seq<(usize, usize)>,
    projected: usize,
    tokens: PromptTokens,
    max_new_tokens: usize,
) -> bool {
    &&& rope::count_of(ids, tokens.image_token_id) == projected
    &&& projected > 0
    &&& rope::grids_fit(
        ids,
        framed(grids),
        tokens.image_token_id,
        tokens.vision_start_token_id,
        tokens.spatial_merge_size,
    )
    &&& 3 * (ids.len() + max_new_tokens) <= isize::MAX
}

/// Whether an answer can be generated for a prompt.
pub fn can_generate(
    input_ids: &[u32],
    image_grid_hw: &[(usize, usize)],
    projected: usize,
    tokens: PromptTokens,
    max_new_tokens: usize,
) -> (fits: bool)
    ensures
        fits == prompt_fits(input_ids@, image_grid_hw@, projected, tokens, max_new_tokens),
{
    let grids = with_frames(image_grid_hw);
    let count: usize = match image_token_span(input_ids, tokens.image_token_id) {
        Some((_, count)) => count,
        None => 0,
    };
    let total: u128 = input_ids.len() as u128 + max_new_tokens as u128;
    count == projected && projected > 0 && 3 * total <= isize::MAX as u128
        && rope::prompt_holds_grids(
        input_ids,
        grids.as_slice(),
        tokens.image_token_id,
        tokens.vision_start_token_id,
        tokens.spatial_merge_size,
    )
}

fn append_axis(positions: &mut Vec<i64>, axis: &Vec<i64>, next: i64, count: usize)
    requires
        0 <= next,
        next + count <= i64::MAX,
    ensures
        rope::as_ints(final(positions)@) == rope::as_ints(old(positions)@) + (rope::as_ints(axis@)
            + rope::text_run(next as int, count as int)),
{
    let ghost before = rope::as_ints(positions@);
    let ghost run = rope::text_run(next as int, count as int);
    let mut i: usize = 0;
    assert(before + rope::as_ints(axis@).take(0) == before);
    while i < axis.len()
        invariant
            i <= axis@.len(),
            rope::as_ints(positions@) == before + rope::as_ints(axis@).take(i as int),
        decreases axis.len() - i,
    {
        let ghost prev = positions@;
        positions.push(axis[i]);
        i = i + 1;
        assert(rope::as_ints(positions@) == rope::as_ints(prev).push(axis@[i as int - 1] as int));
        assert(rope::as_ints(positions@) == before + rope::as_ints(axis@).take(i as int));
    }
    assert(rope::as_ints(axis@).take(i as int) == rope::as_ints(axis@));
    let mut k: usize = 0;
    assert(rope::as_ints(positions@) == before + (rope::as_ints(axis@) + run.take(0)));
    while k < count
        invariant
            k <= count,
            0 <= next,
            next + count <= i64::MAX,
            run == rope::text_run(next as int, count as int),
            rope::as_ints(positions@) == before + (rope::as_ints(axis@) + run.take(k as int)),
        decreases count - k,
    {
        let ghost prev = positions@;
        positions.push(next + k as i64);
        k = k + 1;
        assert(rope::as_ints(positions@) == rope::as_ints(prev).push(next + k - 1));
        assert(rope::as_ints(positions@) == before + (rope::as_ints(axis@) + run.take(k as int)));
    }
    assert(run.take(k as int) == run);
}

/// Plans the generation of at most `max_new_tokens` tokens behind a prompt.
pub fn plan_generation(
    input_ids: &[u32],
    image_grid_hw: &[(usize, usize)],
    projected: usize,
    tokens: PromptTokens,
    max_new_tokens: usize,
) -> (plan: GenerationPlan)
    requires
        prompt_fits(input_ids@, image_grid_hw@, projected, tokens, max_new_tokens),
    ensures
        plan.first_image == rope::first_from(input_ids@, tokens.image_token_id, 0),
        plan.image_tokens == projected,
        plan.first_image + plan.image_tokens <= input_ids@.len(),
        rope::as_ints(plan.positions@) == all_positions(
            Axis::Temporal,
            input_ids@,
            framed(image_grid_hw@),
            tokens,
            max_new_tokens as int,
        ) + all_positions(
            Axis::Height,
            input_ids@,
            framed(image_grid_hw@),
            tokens,
            max_new_tokens as int,
        ) + all_positions(
            Axis::Width,
            input_ids@,
            framed(image_grid_hw@),
            tokens,
            max_new_tokens as int,
        ),
{
    let (first_image, image_tokens) = match image_token_span(input_ids, tokens.image_token_id) {
        Some(span) => span,
        None => (0, 0),
    };
    let grids = with_frames(image_grid_hw);
    let prefill: usize = input_ids.len();
    let index: RopeIndex = rope::get_rope_index(
        input_ids,
        grids.as_slice(),
        tokens.image_token_id,
        tokens.vision_start_token_id,
        tokens.spatial_merge_size,
    );
    let next: i64 = prefill as i64 + index.rope_deltas;
    assert(next == greatest_position(input_ids@, framed(image_grid_hw@), tokens) + 1);
    proof {
        lemma_greatest_from(rope::as_ints(index.temporal@));
    }
    let mut positions: Vec<i64> = Vec::new();
    append_axis(&mut positions, &index.temporal, next, max_new_tokens);
    append_axis(&mut positions, &index.height, next, max_new_tokens);
    append_axis(&mut positions, &index.width, next, max_new_tokens);
    proof {
        let t = all_positions(
            Axis::Temporal,
            input_ids@,
            framed(image_grid_hw@),
            tokens,
            max_new_tokens as int,
        );
        let h = all_positions(
            Axis::Height,
            input_ids@,
            framed(image_grid_hw@),
            tokens,
            max_new_tokens as int,
        );
        let w = all_positions(
            Axis::Width,
            input_ids@,
            framed(image_grid_hw@),
            tokens,
            max_new_tokens as int,
        );
        assert(rope::as_ints(positions@) == Seq::<int>::empty() + t + h + w);
        assert(Seq::<int>::empty() + t == t);
    }
    GenerationPlan { first_image, image_tokens, positions }
}

/// Every token of the answer stands past all tokens of the prompt, one position
/// behind the token before it, on every axis.
pub proof fn law_answer_continues_past_prompt(
    axis: Axis,
    ids: Seq<u32>,
    grids: Seq<Grid>,
    tokens: PromptTokens,
    max_new_tokens: int,
    i: int,
    k: int,
)
    requires
        rope::grids_fit(
            ids,
            grids,
            tokens.image_token_id,
            tokens.vision_start_token_id,
            tokens.spatial_merge_size,
        ),
        0 <= i < ids.len(),
        0 <= k < max_new_tokens,
    ensures
        all_positions(axis, ids, grids, tokens, max_new_tokens).len() == ids.len()
            + max_new_tokens,
        all_positions(axis, ids, grids, tokens, max_new_tokens)[i] < all_positions(
            axis,
            ids,
            grids,
            tokens,
            max_new_tokens,
        )[ids.len() + k],
        k > 0 ==> all_positions(axis, ids, grids, tokens, max_new_tokens)[ids.len() + k]
            == all_positions(axis, ids, grids, tokens, max_new_tokens)[ids.len() + k - 1] + 1,
{
    rope::lemma_axis_positions_bounded(
        axis,
        ids,
        grids,
        tokens.image_token_id,
        tokens.vision_start_token_id,
        tokens.spatial_merge_size,
    );
    let s = rope::axis_positions(
        axis,
        ids,
        grids,
        tokens.image_token_id,
        tokens.spatial_merge_size,
    );
    lemma_greatest(s, i);
}

proof fn lemma_greatest(s: Seq<int>, i: int)
    requires
        0 <= i < s.len(),
    ensures
        s[i] <= rope::greatest(s),
    decreases s.len(),
{
    if i < s.len() - 1 {
        lemma_greatest(s.drop_last(), i);
    }
}

proof fn lemma_greatest_from(s: Seq<int>)
    ensures
        rope::greatest(s) >= -1,
    decreases s.len(),
{
    if s.len() > 0 {
        lemma_greatest_from(s.drop_last());
    }
}

/// An answer in the making.
#[derive(Debug)]
pub struct Decoding {
    pub generated: Vec<u32>,
    pub prefill_len: usize,
    pub max_new_tokens: usize,
    pub eos_token_id: u32,
}

/// What to do with the token that the model proposes.
#[derive(Clone, Copy, Debug, PartialEq, Eq, Structural)]
pub enum DecodeStep {
    /// Keep it, and feed it back at a position index.
    Feed { token: u32, index: usize },
    /// The answer is complete.
    Stop,
}

impl Decoding {
    pub open spec fn wf(&self) -> bool {
        &&& self.generated@.len() <= self.max_new_tokens
        &&& self.prefill_len + self.max_new_tokens <= usize::MAX
    }

    /// Whether a proposed token belongs to the answer.
    pub open spec fn accepts(self, token: u32) -> bool {
        self.generated@.len() < self.max_new_tokens && token != self.eos_token_id
    }

    pub fn new(prefill_len: usize, max_new_tokens: usize, eos_token_id: u32) -> (decoding: Self)
        requires
            prefill_len + max_new_tokens <= usize::MAX,
        ensures
            decoding.wf(),
            decoding.generated@ == Seq::<u32>::empty(),
            decoding.prefill_len == prefill_len,
            decoding.max_new_tokens == max_new_tokens,
            decoding.eos_token_id == eos_token_id,
    {
        Decoding { generated: Vec::new(), prefill_len, max_new_tokens, eos_token_id }
    }

    /// Takes the token that the model proposes next.
    pub fn propose(&mut self, token: u32) -> (step: DecodeStep)
        requires
            old(self).wf(),
        ensures
            final(self).wf(),
            proposed(*old(self), token, *final(self), step),
            final(self).prefill_len == old(self).prefill_len,
            final(self).max_new_tokens == old(self).max_new_tokens,
            final(self).eos_token_id == old(self).eos_token_id,
            old(self).accepts(token) ==> {
                &&& final(self).generated@ == old(self).generated@.push(token)
                &&& step == DecodeStep::Feed {
                    token,
                    index: (old(self).prefill_len + old(self).generated@.len()) as usize,
                }
            },
            !old(self).accepts(token) ==> {
                &&& final(self).generated@ == old(self).generated@
                &&& step == DecodeStep::Stop
            },
    {
        let done: usize = self.generated.len();
        if done < self.max_new_tokens && token != self.eos_token_id {
            self.generated.push(token);
            DecodeStep::Feed { token, index: self.prefill_len + done }
        } else {
            DecodeStep::Stop
        }
    }
}

/// One proposal: a token that belongs to the answer goes to its end and is fed back
/// behind the prompt and the tokens before it; any other one ends the answer as it is.
pub open spec fn proposed(before: Decoding, token: u32, after: Decoding, step: DecodeStep) -> bool {
    &&& after.prefill_len == before.prefill_len
    &&& after.max_new_tokens == before.max_new_tokens
    &&& after.eos_token_id == before.eos_token_id
    &&& if before.accepts(token) {
        &&& after.generated@ == before.generated@.push(token)
        &&& step == DecodeStep::Feed {
            token,
            index: (before.prefill_len + before.generated@.len()) as usize,
        }
    } else {
        &&& after.generated@ == before.generated@
        &&& step == DecodeStep::Stop
    }
}

/// Proposals without an end token, no more than the limit, are the answer, and each is
/// fed back at its own place behind the prompt.
pub proof fn law_proposals_become_the_answer(
    states: Seq<Decoding>,
    steps: Seq<DecodeStep>,
    proposals: Seq<u32>,
)
    requires
        states.len() == proposals.len() + 1,
        steps.len() == proposals.len(),
        states[0].generated@ == Seq::<u32>::empty(),
        states[0].wf(),
        proposals.len() <= states[0].max_new_tokens,
        forall|i: int|
            0 <= i < proposals.len() ==> #[trigger] proposals[i] != states[0].eos_token_id,
        forall|i: int|
            0 <= i < proposals.len() ==> proposed(
                #[trigger] states[i],
                proposals[i],
                states[i + 1],
                steps[i],
            ),
    ensures
        states.last().generated@ == proposals,
        forall|i: int|
            0 <= i < proposals.len() ==> #[trigger] steps[i] == (DecodeStep::Feed {
                token: proposals[i],
                index: (states[0].prefill_len + i) as usize,
            }),
        states.last().prefill_len == states[0].prefill_len,
        states.last().max_new_tokens == states[0].max_new_tokens,
        states.last().eos_token_id == states[0].eos_token_id,
    decreases proposals.len(),
{
    if proposals.len() > 0 {
        let n = proposals.len() - 1;
        let fewer = states.drop_last();
        let before = proposals.drop_last();
        let first = steps.drop_last();
        assert forall|i: int| 0 <= i < before.len() implies proposed(
            #[trigger] fewer[i],
            before[i],
            fewer[i + 1],
            first[i],
        ) by {
            assert(proposed(states[i], proposals[i], states[i + 1], steps[i]));
        }
        assert forall|i: int| 0 <= i < before.len() implies #[trigger] before[i]
            != states[0].eos_token_id by {
            assert(before[i] == proposals[i]);
        }
        law_proposals_become_the_answer(fewer, first, before);
        assert(proposed(states[n], proposals[n], states[n + 1], steps[n]));
        assert(states[n] == fewer.last());
        assert(before.push(proposals[n]) == proposals);
        assert forall|i: int| 0 <= i < proposals.len() implies #[trigger] steps[i] == (
        DecodeStep::Feed {
            token: proposals[i],
            index: (states[0].prefill_len + i) as usize,
        }) by {
            if i < n {
                assert(first[i] == steps[i]);
            }
        }
    } else {
        assert(states.last().generated@ == proposals);
    }
}

/// The end token stops the answer, and so does any token once the limit is reached: what
/// was generated stays.
pub proof fn law_the_end_token_stops_the_answer(
    before: Decoding,
    token: u32,
    after: Decoding,
    step: DecodeStep,
)
    requires
        before.wf(),
        proposed(before, token, after, step),
        token == before.eos_token_id || before.generated@.len() == before.max_new_tokens,
    ensures
        step == DecodeStep::Stop,
        after.generated@ == before.generated@,
{
}

/// The answer that a stream of proposals makes: all before the first end token,
/// and no more than `limit`.
pub open spec fn answer(proposals: Seq<u32>, eos: u32, limit: nat) -> Seq<u32>
    decreases limit,
{
    if limit == 0 || proposals.len() == 0 || proposals[0] == eos {
        Seq::empty()
    } else {
        seq![proposals[0]] + answer(proposals.drop_first(), eos, (limit - 1) as nat)
    }
}

/// The tokens generated once proposals are taken in turn until one is not
/// accepted.
pub open spec fn taken(
    generated: Seq<u32>,
    proposals: Seq<u32>,
    eos: u32,
    limit: nat,
) -> Seq<u32>
    decreases proposals.len(),
{
    if proposals.len() == 0 || generated.len() >= limit || proposals[0] == eos {
        generated
    } else {
        taken(generated.push(proposals[0]), proposals.drop_first(), eos, limit)
    }
}

proof fn lemma_taken(generated: Seq<u32>, proposals: Seq<u32>, eos: u32, limit: nat)
    requires
        generated.len() <= limit,
    ensures
        taken(generated, proposals, eos, limit) == generated + answer(
            proposals,
            eos,
            (limit - generated.len()) as nat,
        ),
    decreases proposals.len(),
{
    if proposals.len() == 0 || generated.len() >= limit || proposals[0] == eos {
        assert(generated + Seq::<u32>::empty() == generated);
    } else {
        lemma_taken(generated.push(proposals[0]), proposals.drop_first(), eos, limit);
        let rest = answer(
            proposals.drop_first(),
            eos,
            (limit - generated.len() - 1) as nat,
        );
        assert(generated.push(proposals[0]) + rest == generated + (seq![proposals[0]] + rest));
    }
}

/// An answer is the stream of proposals up to the end token or the limit: it is
/// no longer than the limit, holds no end token, and is the beginning of the
/// stream.
pub proof fn law_answer_is_cut_at_the_end_token(proposals: Seq<u32>, eos: u32, limit: nat)
    ensures
        taken(Seq::empty(), proposals, eos, limit) == answer(proposals, eos, limit),
        answer(proposals, eos, limit).len() <= limit,
        answer(proposals, eos, limit).len() <= proposals.len(),
        forall|i: int|
            0 <= i < answer(proposals, eos, limit).len() ==> {
                &&& #[trigger] answer(proposals, eos, limit)[i] == proposals[i]
                &&& proposals[i] != eos
            },
        answer(proposals, eos, limit).len() < limit && answer(proposals, eos, limit).len()
            < proposals.len() ==> proposals[answer(proposals, eos, limit).len() as int] == eos,
    decreases limit,
{
    lemma_taken(Seq::empty(), proposals, eos, limit);
    assert(Seq::<u32>::empty() + answer(proposals, eos, limit) == answer(proposals, eos, limit));
    if !(limit == 0 || proposals.len() == 0 || proposals[0] == eos) {
        let rest = answer(proposals.drop_first(), eos, (limit - 1) as nat);
        law_answer_is_cut_at_the_end_token(proposals.drop_first(), eos, (limit - 1) as nat);
        assert forall|i: int| 0 <= i < answer(proposals, eos, limit).len() implies {
            &&& #[trigger] answer(proposals, eos, limit)[i] == proposals[i]
            &&& proposals[i] != eos
        } by {
            if i > 0 {
                assert(rest[i - 1] == proposals.drop_first()[i - 1]);
            }
        }
    }
}

/// The positions of a prompt stay as they are, and the tokens of the answer count on from
/// the offset that the prompt leaves, the same on every axis.
pub proof fn law_answer_counts_on_from_the_offset(
    axis: Axis,
    ids: Seq<u32>,
    grids: Seq<Grid>,
    tokens: PromptTokens,
    max_new_tokens: int,
    i: int,
    k: int,
)
    requires
        rope::grids_fit(
            ids,
            grids,
            tokens.image_token_id,
            tokens.vision_start_token_id,
            tokens.spatial_merge_size,
        ),
        0 <= i < ids.len(),
        0 <= k < max_new_tokens,
    ensures
        all_positions(axis, ids, grids, tokens, max_new_tokens)[i] == rope::axis_positions(
            axis,
            ids,
            grids,
            tokens.image_token_id,
            tokens.spatial_merge_size,
        )[i],
        all_positions(axis, ids, grids, tokens, max_new_tokens)[ids.len() + k] == rope::delta(
            ids,
            grids,
            tokens.image_token_id,
            tokens.spatial_merge_size,
        ) + ids.len() + k,
{
    rope::lemma_axis_positions_bounded(
        axis,
        ids,
        grids,
        tokens.image_token_id,
        tokens.vision_start_token_id,
        tokens.spatial_merge_size,
    );
}

/// An image is one frame of its rows and columns.
pub proof fn law_images_are_one_frame(grids: Seq<(usize, usize)>, i: int)
    requires
        0 <= i < grids.len(),
    ensures
        framed(grids).len() == grids.len(),
        framed(grids)[i] == (1usize, grids[i].0, grids[i].1),
{
}

} // verus!
