//! Decoding of text-spotting answers: recognized texts and the location tokens
//! that frame them.

use crate::chat;
use crate::float::F32;
use crate::text;
use vstd::prelude::*;
use vstd::utf8::*;

verus! {

/// One annotated text.
pub const ANNOT_TEXT_PATTERN: &'static str = r"(?s)<\|TEXT_START\|>(.*?)<\|TEXT_END\|>";

/// One block of location tokens.
pub const LOC_BLOCK_PATTERN: &'static str = r"(?s)<\|LOC_BEGIN\|>(.*?)<\|LOC_END\|>";

/// One location token.
pub const LOC_TOKEN_PATTERN: &'static str = r"<\|LOC_(\d+)\|>";

/// Spotted texts with the four corners of each, in pixels.
#[derive(Clone, Debug)]
pub struct SpottingResult {
    pub rec_polys: Vec<[[F32; 2]; 4]>,
    pub rec_texts: Vec<String>,
}

/// A spotted text and its eight location values.
pub struct Spotted {
    pub text: Seq<char>,
    pub locations: Seq<u32>,
}

/// Texts and, for each, the values `x0 y0 x1 y1 x2 y2 x3 y3` of its corners in
/// thousandths of the image.
pub struct Located {
    pub quads: Vec<[u32; 8]>,
    pub texts: Vec<String>,
}

impl Located {
    pub open spec fn wf(&self) -> bool {
        self.quads@.len() == self.texts@.len()
    }
}

impl View for Located {
    type V = Seq<Spotted>;

    open spec fn view(&self) -> Seq<Spotted> {
        Seq::new(
            self.texts@.len(),
            |i: int| Spotted { text: self.texts@[i]@, locations: self.quads@[i]@ },
        )
    }
}

/// Corner `k` of eight location values, in pixels.
pub open spec fn corner(locations: Seq<u32>, k: int, width: u32, height: u32) -> Seq<F32> {
    seq![
        F32::thousandths(locations[2 * k], width),
        F32::thousandths(locations[2 * k + 1], height),
    ]
}

/// Group 1 of each successive match that `regex::Regex::captures_iter` yields
/// for `pattern` in `text`.
pub uninterp spec fn regex_groups(pattern: Seq<char>, text: Seq<char>) -> Seq<Seq<char>>;

/// The stretches from `from` on that stand between `open` and the next `close`, one
/// behind the other.
pub open spec fn enclosed(
    text: Seq<char>,
    open: Seq<char>,
    close: Seq<char>,
    from: int,
) -> Seq<Seq<char>>
    decreases text.len() - from,
{
    let start = chat::first_place(text, open, from) + open.len();
    let end = chat::first_place(text, close, start);
    let next = end + close.len();
    if start > text.len() || next > text.len() || next <= from {
        Seq::empty()
    } else {
        seq![text.subrange(start, end)] + enclosed(text, open, close, next)
    }
}

/// The annotated texts of an answer.
pub open spec fn annotated(input: Seq<char>) -> Seq<Seq<char>> {
    enclosed(input, "<|TEXT_START|>"@, "<|TEXT_END|>"@, 0)
}

/// The blocks of location tokens of an answer.
pub open spec fn located(input: Seq<char>) -> Seq<Seq<char>> {
    enclosed(input, "<|LOC_BEGIN|>"@, "<|LOC_END|>"@, 0)
}

pub open spec fn is_spotting_pattern(pattern: Seq<char>) -> bool {
    ||| pattern == ANNOT_TEXT_PATTERN@
    ||| pattern == LOC_BLOCK_PATTERN@
    ||| pattern == LOC_TOKEN_PATTERN@
}

/// `regex::Regex::captures_iter`: the texts of group 1, one for each match. Of a
/// pattern of two markers with anything between them, as little as there may be, these
/// are the stretches from a marker to the next end marker; of the pattern of a token,
/// whose digits are those of every script, they are named.
#[verifier::external_body]
fn capture_groups(pattern: &str, text: &str) -> (groups: Vec<String>)
    requires
        is_spotting_pattern(pattern@),
    ensures
        pattern@ == ANNOT_TEXT_PATTERN@ ==> text::texts_of(groups@) == annotated(text@),
        pattern@ == LOC_BLOCK_PATTERN@ ==> text::texts_of(groups@) == located(text@),
        pattern@ == LOC_TOKEN_PATTERN@ ==> text::texts_of(groups@) == regex_groups(
            pattern@,
            text@,
        ),
{
    let re = regex::Regex::new(pattern).unwrap();
    re.captures_iter(text).map(|caps| caps[1].to_owned()).collect()
}

/// Start and end byte offset of each successive match that
/// `regex::Regex::find_iter` yields for `pattern` in `text`.
pub uninterp spec fn regex_spans(pattern: Seq<char>, text: Seq<char>) -> Seq<(usize, usize)>;

/// Successive, non-overlapping byte ranges of `text` that begin and end between
/// characters.
pub open spec fn are_spans(spans: Seq<(usize, usize)>, text: Seq<char>) -> bool {
    &&& forall|i: int|
        0 <= i < spans.len() ==> {
            &&& (#[trigger] spans[i]).0 <= spans[i].1 <= encode_utf8(text).len()
            &&& is_char_boundary(encode_utf8(text), spans[i].0 as int)
            &&& is_char_boundary(encode_utf8(text), spans[i].1 as int)
        }
    &&& forall|i: int, j: int| 0 <= i < j < spans.len() ==> spans[i].1 <= spans[j].0
}

/// `regex::Regex::find_iter`: the byte range of each match. The ranges follow
/// each other without overlap, and their ends are character boundaries.
#[verifier::external_body]
fn match_spans(pattern: &str, text: &str) -> (spans: Vec<(usize, usize)>)
    requires
        is_spotting_pattern(pattern@),
    ensures
        spans@ == regex_spans(pattern@, text@),
        are_spans(spans@, text@),
{
    let re = regex::Regex::new(pattern).unwrap();
    re.find_iter(text).map(|m| (m.start(), m.end())).collect()
}

/// Group 1 of the first match that `regex::Regex::captures` finds for `pattern`
/// in `text`.
pub uninterp spec fn regex_first_group(pattern: Seq<char>, text: Seq<char>) -> Option<Seq<char>>;

pub open spec fn text_of(s: Option<String>) -> Option<Seq<char>> {
    match s {
        Some(t) => Some(t@),
        None => None,
    }
}

/// `regex::Regex::captures`: the text of group 1 in the first match, if any.
#[verifier::external_body]
fn first_group(pattern: &str, text: &str) -> (group: Option<String>)
    requires
        is_spotting_pattern(pattern@),
    ensures
        text_of(group) == regex_first_group(pattern@, text@),
{
    let re = regex::Regex::new(pattern).unwrap();
    re.captures(text).map(|caps| caps[1].to_owned())
}

/// The location values that the token texts write, in order; texts that write
/// no 32-bit number are passed over.
pub open spec fn token_values(tokens: Seq<Seq<char>>) -> Seq<u32>
    decreases tokens.len(),
{
    if tokens.len() == 0 {
        Seq::empty()
    } else {
        let before = token_values(tokens.drop_last());
        match text::parsed_u32(tokens.last()) {
            Some(value) => before.push(value),
            None => before,
        }
    }
}

/// The first `n` annotated texts joined with the first `n` location blocks.
/// A block with fewer than eight values drops out with its text.
pub open spec fn paired(texts: Seq<Seq<char>>, blocks: Seq<Seq<Seq<char>>>, n: int) -> Seq<Spotted>
    decreases n,
{
    if n <= 0 {
        Seq::empty()
    } else {
        let before = paired(texts, blocks, n - 1);
        let values = token_values(blocks[n - 1]);
        if values.len() < 8 {
            before
        } else {
            before.push(Spotted { text: text::trimmed(texts[n - 1]), locations: values.take(8) })
        }
    }
}

pub open spec fn least(a: int, b: int) -> int {
    if a <= b {
        a
    } else {
        b
    }
}

/// The values of the eight tokens of group `g`.
pub open spec fn group_values(values: Seq<Option<u32>>, g: int) -> Seq<u32> {
    Seq::new(8, |k: int| values[8 * g + k]->0)
}

/// Whether every token of group `g` holds a value.
pub open spec fn group_complete(values: Seq<Option<u32>>, g: int) -> bool {
    forall|k: int| 8 * g <= k < 8 * g + 8 ==> #[trigger] values[k] is Some
}

/// Byte offset at which the text of the group after the first `g` groups begins.
pub open spec fn text_start(
    spans: Seq<(usize, usize)>,
    values: Seq<Option<u32>>,
    g: int,
) -> int
    decreases g,
{
    if g <= 0 {
        0
    } else if group_complete(values, g - 1) {
        spans[8 * g - 1].1 as int
    } else {
        text_start(spans, values, g - 1)
    }
}

/// The first `g` groups of eight location tokens, each with the text that
/// stands before it and after the last complete group.
pub open spec fn grouped(
    text: Seq<char>,
    spans: Seq<(usize, usize)>,
    values: Seq<Option<u32>>,
    g: int,
) -> Seq<Spotted>
    decreases g,
{
    if g <= 0 {
        Seq::empty()
    } else {
        let before = grouped(text, spans, values, g - 1);
        if group_complete(values, g - 1) {
            before.push(
                Spotted {
                    text: text::trimmed(
                        text::byte_slice(
                            text,
                            text_start(spans, values, g - 1),
                            spans[8 * (g - 1)].0 as int,
                        ),
                    ),
                    locations: group_values(values, g - 1),
                },
            )
        } else {
            before
        }
    }
}

/// The texts of several lists of strings.
pub open spec fn nested_texts(lists: Seq<Vec<String>>) -> Seq<Seq<Seq<char>>> {
    lists.map_values(|list: Vec<String>| text::texts_of(list@))
}

/// Reads the location values of a list of token texts.
fn read_tokens(tokens: &Vec<String>) -> (values: Vec<u32>)
    ensures
        values@ == token_values(text::texts_of(tokens@)),
{
    let mut values: Vec<u32> = Vec::new();
    let mut i: usize = 0;
    while i < tokens.len()
        invariant
            i <= tokens.len(),
            values@ == token_values(text::texts_of(tokens@.take(i as int))),
        decreases tokens.len() - i,
    {
        proof {
            let next = text::texts_of(tokens@.take(i as int + 1));
            assert(next.drop_last() == text::texts_of(tokens@.take(i as int)));
            assert(next.last() == tokens@[i as int]@);
        }
        match text::parse_u32(tokens[i].as_str()) {
            Some(value) => {
                values.push(value);
            },
            None => {},
        }
        i = i + 1;
    }
    assert(tokens@.take(tokens@.len() as int) == tokens@);
    values
}

/// Joins annotated texts with the location blocks at the same positions.
pub fn pair_blocks(
    texts: &Vec<String>,
    blocks: &Vec<Vec<String>>,
) -> (result: Located)
    ensures
        result.wf(),
        result@ == paired(
            text::texts_of(texts@),
            nested_texts(blocks@),
            least(texts@.len() as int, blocks@.len() as int),
        ),
{
    let mut result = Located { quads: Vec::new(), texts: Vec::new() };
    let mut i: usize = 0;
    assert(result@ == Seq::<Spotted>::empty());
    while i < texts.len() && i < blocks.len()
        invariant
            i <= least(texts@.len() as int, blocks@.len() as int),
            result.wf(),
            result@ == paired(text::texts_of(texts@), nested_texts(blocks@), i as int),
        decreases texts.len() - i,
    {
        let values = read_tokens(&blocks[i]);
        let ghost before = result@;
        assert(nested_texts(blocks@)[i as int] == text::texts_of(blocks@[i as int]@));
        if values.len() >= 8 {
            result.texts.push(text::trim(texts[i].as_str()));
            let quad: [u32; 8] = [
                values[0],
                values[1],
                values[2],
                values[3],
                values[4],
                values[5],
                values[6],
                values[7],
            ];
            assert(quad@ == values@.take(8));
            result.quads.push(quad);
            assert(result@ == before.push(
                Spotted { text: text::trimmed(texts@[i as int]@), locations: values@.take(8) },
            ));
        }
        i = i + 1;
    }
    result
}

/// Cuts a text without complete annotations at its location tokens: every
/// eight tokens frame the text before them.
pub fn group_tokens(
    text: &str,
    spans: &Vec<(usize, usize)>,
    values: &Vec<Option<u32>>,
) -> (result: Located)
    requires
        are_spans(spans@, text@),
        values@.len() == spans@.len(),
    ensures
        result.wf(),
        result@ == grouped(text@, spans@, values@, spans@.len() as int / 8),
{
    let mut result = Located { quads: Vec::new(), texts: Vec::new() };
    let mut last_end: usize = 0;
    let mut i: usize = 0;
    let ghost mut g: int = 0;
    assert(result@ == Seq::<Spotted>::empty());
    proof {
        encode_utf8_valid_utf8(text@);
        is_char_boundary_start_end_of_seq(encode_utf8(text@));
    }
    while spans.len() - i >= 8
        invariant
            are_spans(spans@, text@),
            values@.len() == spans@.len(),
            i == 8 * g,
            0 <= i <= spans@.len(),
            result.wf(),
            result@ == grouped(text@, spans@, values@, g),
            last_end == text_start(spans@, values@, g),
            is_char_boundary(encode_utf8(text@), last_end as int),
            forall|j: int| i <= j < spans@.len() ==> last_end <= (#[trigger] spans@[j]).0,
        decreases spans.len() - i,
    {
        let ghost before = result@;
        let mut complete: bool = true;
        let mut quad: [u32; 8] = [0, 0, 0, 0, 0, 0, 0, 0];
        let mut k: usize = 0;
        while k < 8
            invariant
                0 <= k <= 8,
                i == 8 * g,
                i + 8 <= values@.len(),
                complete == (forall|m: int| i <= m < i + k ==> #[trigger] values@[m] is Some),
                complete ==> forall|m: int| 0 <= m < k ==> quad@[m] == values@[i + m]->0,
            decreases 8 - k,
        {
            match values[i + k] {
                Some(value) => {
                    quad[k] = value;
                },
                None => {
                    assert(values@[i + k] is None);
                    complete = false;
                },
            }
            k = k + 1;
        }
        assert(complete == group_complete(values@, g));
        if complete {
            assert(quad@ == group_values(values@, g));
            let start: usize = spans[i].0;
            let piece = text::trim(text::slice_bytes(text, last_end, start));
            result.texts.push(piece);
            result.quads.push(quad);
            last_end = spans[i + 7].1;
            assert(result@ == before.push(
                Spotted {
                    text: text::trimmed(
                        text::byte_slice(text@, text_start(spans@, values@, g), start as int),
                    ),
                    locations: group_values(values@, g),
                },
            ));
        }
        i = i + 8;
        proof {
            g = g + 1;
        }
    }
    result
}

/// The values that the location tokens at `spans` hold.
pub open spec fn span_values(
    text: Seq<char>,
    spans: Seq<(usize, usize)>,
) -> Seq<Option<u32>> {
    spans.map_values(
        |span: (usize, usize)|
            match regex_first_group(
                LOC_TOKEN_PATTERN@,
                text::byte_slice(text, span.0 as int, span.1 as int),
            ) {
                Some(digits) => text::parsed_u32(digits),
                None => None,
            },
    )
}

/// The spotted texts in `input`: the annotated texts with their location
/// blocks or, where no pair is complete, the texts between runs of eight
/// location tokens.
pub open spec fn spotted_texts(input: Seq<char>) -> Seq<Spotted> {
    let texts = annotated(input);
    let blocks = located(input).map_values(
        |block: Seq<char>| regex_groups(LOC_TOKEN_PATTERN@, block),
    );
    let pairs = paired(texts, blocks, least(texts.len() as int, blocks.len() as int));
    if pairs.len() > 0 {
        pairs
    } else {
        let spans = regex_spans(LOC_TOKEN_PATTERN@, input);
        grouped(input, spans, span_values(input, spans), spans.len() as int / 8)
    }
}

/// `result` holds the spotted texts, with their locations in pixels of an image
/// of the given size.
pub open spec fn is_spotting_result(
    result: SpottingResult,
    spotted: Seq<Spotted>,
    width: u32,
    height: u32,
) -> bool {
    &&& text::texts_of(result.rec_texts@) == spotted.map_values(|s: Spotted| s.text)
    &&& result.rec_polys@.len() == spotted.len()
    &&& forall|i: int, k: int|
        0 <= i < spotted.len() && 0 <= k < 4 ==> (#[trigger] result.rec_polys@[i]@[k])@ == corner(
            spotted[i].locations,
            k,
            width,
            height,
        )
}

/// Every spotted text has its polygon, and none is left over.
pub proof fn law_every_text_has_a_polygon(
    result: SpottingResult,
    spotted: Seq<Spotted>,
    width: u32,
    height: u32,
)
    requires
        is_spotting_result(result, spotted, width, height),
    ensures
        result.rec_texts@.len() == result.rec_polys@.len(),
{
    assert(text::texts_of(result.rec_texts@).len() == spotted.map_values(
        |s: Spotted| s.text,
    ).len());
}

proof fn lemma_paired_trimmed(texts: Seq<Seq<char>>, blocks: Seq<Seq<Seq<char>>>, n: int)
    ensures
        forall|i: int|
            0 <= i < paired(texts, blocks, n).len() ==> text::is_trimmed(
                (#[trigger] paired(texts, blocks, n)[i]).text,
            ),
    decreases n,
{
    if n > 0 {
        lemma_paired_trimmed(texts, blocks, n - 1);
        text::law_trimmed_texts_are_trimmed(texts[n - 1]);
        let before = paired(texts, blocks, n - 1);
        let now = paired(texts, blocks, n);
        assert forall|i: int| 0 <= i < now.len() implies text::is_trimmed(
            (#[trigger] now[i]).text,
        ) by {
            if i < before.len() {
                assert(now[i] == before[i]);
            }
        }
    }
}

proof fn lemma_grouped_trimmed(
    input: Seq<char>,
    spans: Seq<(usize, usize)>,
    values: Seq<Option<u32>>,
    g: int,
)
    ensures
        forall|i: int|
            0 <= i < grouped(input, spans, values, g).len() ==> text::is_trimmed(
                (#[trigger] grouped(input, spans, values, g)[i]).text,
            ),
    decreases g,
{
    if g > 0 {
        lemma_grouped_trimmed(input, spans, values, g - 1);
        text::law_trimmed_texts_are_trimmed(
            text::byte_slice(
                input,
                text_start(spans, values, g - 1),
                spans[8 * (g - 1)].0 as int,
            ),
        );
        let before = grouped(input, spans, values, g - 1);
        let now = grouped(input, spans, values, g);
        assert forall|i: int| 0 <= i < now.len() implies text::is_trimmed(
            (#[trigger] now[i]).text,
        ) by {
            if i < before.len() {
                assert(now[i] == before[i]);
            }
        }
    }
}

/// No spotted text has white space at its ends.
pub proof fn law_spotted_texts_are_trimmed(input: Seq<char>)
    ensures
        forall|i: int|
            0 <= i < spotted_texts(input).len() ==> text::is_trimmed(
                (#[trigger] spotted_texts(input)[i]).text,
            ),
{
    let texts = annotated(input);
    let blocks = located(input).map_values(
        |block: Seq<char>| regex_groups(LOC_TOKEN_PATTERN@, block),
    );
    lemma_paired_trimmed(texts, blocks, least(texts.len() as int, blocks.len() as int));
    let spans = regex_spans(LOC_TOKEN_PATTERN@, input);
    lemma_grouped_trimmed(input, spans, span_values(input, spans), spans.len() as int / 8);
}

proof fn lemma_values_are_tokens(tokens: Seq<Seq<char>>)
    ensures
        token_values(tokens).len() <= tokens.len(),
    decreases tokens.len(),
{
    if tokens.len() > 0 {
        lemma_values_are_tokens(tokens.drop_last());
    }
}

proof fn lemma_short_blocks_give_nothing(
    texts: Seq<Seq<char>>,
    blocks: Seq<Seq<Seq<char>>>,
    n: int,
)
    requires
        n <= blocks.len(),
        forall|i: int| 0 <= i < blocks.len() ==> (#[trigger] blocks[i]).len() < 8,
    ensures
        paired(texts, blocks, n).len() == 0,
    decreases n,
{
    if n > 0 {
        lemma_short_blocks_give_nothing(texts, blocks, n - 1);
        lemma_values_are_tokens(blocks[n - 1]);
    }
}

/// Where fewer than eight location tokens stand in every block and in the whole
/// text, nothing is spotted: no text, no polygon, and nothing to show.
pub proof fn law_fewer_than_eight_tokens_spot_nothing(
    input: Seq<char>,
    result: SpottingResult,
    width: u32,
    height: u32,
)
    requires
        is_spotting_result(result, spotted_texts(input), width, height),
        regex_spans(LOC_TOKEN_PATTERN@, input).len() < 8,
        forall|i: int|
            0 <= i < located(input).len() ==> regex_groups(
                LOC_TOKEN_PATTERN@,
                #[trigger] located(input)[i],
            ).len() < 8,
    ensures
        spotted_texts(input).len() == 0,
        result.rec_texts@.len() == 0,
        result.rec_polys@.len() == 0,
        text::joined(text::texts_of(result.rec_texts@), "\n\n"@) == Seq::<char>::empty(),
{
    let texts = annotated(input);
    let found = located(input);
    let blocks = found.map_values(|block: Seq<char>| regex_groups(LOC_TOKEN_PATTERN@, block));
    assert forall|i: int| 0 <= i < blocks.len() implies (#[trigger] blocks[i]).len() < 8 by {
        assert(blocks[i] == regex_groups(LOC_TOKEN_PATTERN@, found[i]));
    }
    lemma_short_blocks_give_nothing(
        texts,
        blocks,
        least(texts.len() as int, blocks.len() as int),
    );
    law_every_text_has_a_polygon(result, spotted_texts(input), width, height);
}

proof fn lemma_first_values(tokens: Seq<Seq<char>>, n: int)
    requires
        0 <= n <= tokens.len(),
        forall|k: int| 0 <= k < n ==> text::parsed_u32(#[trigger] tokens[k]) is Some,
    ensures
        token_values(tokens).len() >= n,
        forall|k: int|
            0 <= k < n ==> #[trigger] token_values(tokens)[k] == text::parsed_u32(tokens[k])->0,
    decreases tokens.len(),
{
    if tokens.len() > 0 {
        let fewer = tokens.drop_last();
        if n < tokens.len() {
            lemma_first_values(fewer, n);
        } else {
            lemma_first_values(fewer, n - 1);
            lemma_values_are_tokens(fewer);
        }
    }
}

/// A block whose first eight tokens can be read gives their values to the text at its
/// own place, and a block of fewer tokens drops out with its text.
pub proof fn law_blocks_go_with_their_texts(
    texts: Seq<Seq<char>>,
    blocks: Seq<Seq<Seq<char>>>,
    n: int,
)
    requires
        0 <= n < texts.len(),
        n < blocks.len(),
        blocks[n].len() >= 8 ==> forall|k: int|
            0 <= k < 8 ==> text::parsed_u32(#[trigger] blocks[n][k]) is Some,
    ensures
        paired(texts, blocks, 0).len() == 0,
        blocks[n].len() < 8 ==> paired(texts, blocks, n + 1) == paired(texts, blocks, n),
        blocks[n].len() >= 8 ==> {
            let all = paired(texts, blocks, n + 1);
            &&& all.len() == paired(texts, blocks, n).len() + 1
            &&& all.drop_last() == paired(texts, blocks, n)
            &&& all.last().text == text::trimmed(texts[n])
            &&& all.last().locations.len() == 8
            &&& forall|k: int|
                0 <= k < 8 ==> #[trigger] all.last().locations[k] == text::parsed_u32(
                    blocks[n][k],
                )->0
        },
{
    lemma_values_are_tokens(blocks[n]);
    if blocks[n].len() >= 8 {
        lemma_first_values(blocks[n], 8);
        assert(paired(texts, blocks, n + 1).drop_last() == paired(texts, blocks, n));
    }
}

proof fn lemma_full_blocks(texts: Seq<Seq<char>>, blocks: Seq<Seq<Seq<char>>>, n: int)
    requires
        0 <= n <= texts.len(),
        n <= blocks.len(),
        forall|i: int, k: int|
            0 <= i < n && 0 <= k < 8 ==> text::parsed_u32(#[trigger] blocks[i][k]) is Some,
        forall|i: int| 0 <= i < n ==> (#[trigger] blocks[i]).len() >= 8,
    ensures
        paired(texts, blocks, n).len() == n,
        forall|i: int|
            0 <= i < n ==> (#[trigger] paired(texts, blocks, n)[i]).text == text::trimmed(texts[i]),
        forall|i: int, k: int|
            0 <= i < n && 0 <= k < 8 ==> #[trigger] paired(texts, blocks, n)[i].locations[k]
                == text::parsed_u32(blocks[i][k])->0,
    decreases n,
{
    if n > 0 {
        lemma_full_blocks(texts, blocks, n - 1);
        law_blocks_go_with_their_texts(texts, blocks, n - 1);
        let all = paired(texts, blocks, n);
        let before = paired(texts, blocks, n - 1);
        assert forall|i: int| 0 <= i < n - 1 implies all[i] == before[i] by {
            assert(all.drop_last()[i] == before[i]);
        }
        assert forall|i: int, k: int| 0 <= i < n && 0 <= k < 8 implies #[trigger] all[i].locations[k]
            == text::parsed_u32(blocks[i][k])->0 by {
            if i < n - 1 {
                assert(all[i] == before[i]);
                assert(before[i].locations[k] == text::parsed_u32(blocks[i][k])->0);
            }
        }
        assert forall|i: int| 0 <= i < n implies (#[trigger] all[i]).text == text::trimmed(
            texts[i],
        ) by {
            if i < n - 1 {
                assert(all[i] == before[i]);
            }
        }
    }
}

/// Token `k` of location block `i` of an answer.
pub open spec fn token(input: Seq<char>, i: int, k: int) -> Seq<char> {
    regex_groups(LOC_TOKEN_PATTERN@, located(input)[i])[k]
}

/// Where the first eight tokens of every location block can be read, text `i` is the
/// `i`-th annotated text without the white space around it, its corners are the values
/// of the `i`-th block in thousandths of the image, and there are as many of them as
/// there are texts that have a block.
pub proof fn law_every_text_has_its_own_block(
    input: Seq<char>,
    result: SpottingResult,
    width: u32,
    height: u32,
)
    requires
        is_spotting_result(result, spotted_texts(input), width, height),
        annotated(input).len() > 0,
        located(input).len() > 0,
        forall|i: int|
            0 <= i < located(input).len() ==> regex_groups(
                LOC_TOKEN_PATTERN@,
                #[trigger] located(input)[i],
            ).len() >= 8,
        forall|i: int, k: int|
            0 <= i < located(input).len() && 0 <= k < 8 ==> text::parsed_u32(
                #[trigger] token(input, i, k),
            ) is Some,
    ensures
        annotated(input).len() <= located(input).len() ==> result.rec_texts@.len() == annotated(
            input,
        ).len(),
        annotated(input).len() >= located(input).len() ==> result.rec_texts@.len() == located(
            input,
        ).len(),
        result.rec_polys@.len() == result.rec_texts@.len(),
        forall|i: int|
            0 <= i < result.rec_texts@.len() ==> (#[trigger] result.rec_texts@[i])@
                == text::trimmed(annotated(input)[i]),
        forall|i: int, k: int|
            0 <= i < result.rec_texts@.len() && 0 <= k < 4 ==> {
                &&& (#[trigger] result.rec_polys@[i]@[k])@[0] == F32::thousandths(
                    text::parsed_u32(token(input, i, 2 * k))->0,
                    width,
                )
                &&& result.rec_polys@[i]@[k]@[1] == F32::thousandths(
                    text::parsed_u32(token(input, i, 2 * k + 1))->0,
                    height,
                )
            },
{
    let texts = annotated(input);
    let found = located(input);
    let blocks = found.map_values(|block: Seq<char>| regex_groups(LOC_TOKEN_PATTERN@, block));
    let n = if texts.len() <= found.len() {
        texts.len() as int
    } else {
        found.len() as int
    };
    assert(n == least(texts.len() as int, blocks.len() as int));
    assert forall|i: int, k: int| 0 <= i < n && 0 <= k < 8 implies text::parsed_u32(
        #[trigger] blocks[i][k],
    ) is Some by {
        assert(blocks[i][k] == token(input, i, k));
    }
    assert forall|i: int| 0 <= i < n implies (#[trigger] blocks[i]).len() >= 8 by {
        assert(blocks[i] == regex_groups(LOC_TOKEN_PATTERN@, found[i]));
    }
    lemma_full_blocks(texts, blocks, n);
    let spotted = spotted_texts(input);
    assert(spotted == paired(texts, blocks, n));
    law_every_text_has_a_polygon(result, spotted, width, height);
    let shown = text::texts_of(result.rec_texts@);
    assert forall|i: int| 0 <= i < result.rec_texts@.len() implies (
    #[trigger] result.rec_texts@[i])@ == text::trimmed(texts[i]) by {
        assert(shown[i] == result.rec_texts@[i]@);
        assert(spotted.map_values(|s: Spotted| s.text)[i] == spotted[i].text);
    }
    assert forall|i: int, k: int| 0 <= i < result.rec_texts@.len() && 0 <= k < 4 implies {
        &&& (#[trigger] result.rec_polys@[i]@[k])@[0] == F32::thousandths(
            text::parsed_u32(token(input, i, 2 * k))->0,
            width,
        )
        &&& result.rec_polys@[i]@[k]@[1] == F32::thousandths(
            text::parsed_u32(token(input, i, 2 * k + 1))->0,
            height,
        )
    } by {
        assert(spotted[i].locations[2 * k] == text::parsed_u32(blocks[i][2 * k])->0);
        assert(spotted[i].locations[2 * k + 1] == text::parsed_u32(blocks[i][2 * k + 1])->0);
    }
}

/// Two answers whose texts are alike and whose blocks differ at one place alone spot the
/// same texts, and differ at most in the polygon of that place.
pub proof fn law_a_block_moves_its_own_text_alone(
    texts: Seq<Seq<char>>,
    blocks: Seq<Seq<Seq<char>>>,
    place: int,
    other: Seq<Seq<char>>,
    n: int,
)
    requires
        0 <= n <= texts.len(),
        n <= blocks.len(),
        0 <= place < n,
        other.len() >= 8,
        forall|k: int| 0 <= k < 8 ==> text::parsed_u32(#[trigger] other[k]) is Some,
        forall|i: int, k: int|
            0 <= i < n && 0 <= k < 8 ==> text::parsed_u32(#[trigger] blocks[i][k]) is Some,
        forall|i: int| 0 <= i < n ==> (#[trigger] blocks[i]).len() >= 8,
    ensures
        paired(texts, blocks.update(place, other), n).len() == paired(texts, blocks, n).len(),
        forall|i: int|
            0 <= i < n && i != place ==> #[trigger] paired(
                texts,
                blocks.update(place, other),
                n,
            )[i] == paired(texts, blocks, n)[i],
        paired(texts, blocks.update(place, other), n)[place].text == paired(
            texts,
            blocks,
            n,
        )[place].text,
        forall|k: int|
            0 <= k < 8 ==> #[trigger] paired(
                texts,
                blocks.update(place, other),
                n,
            )[place].locations[k] == text::parsed_u32(other[k])->0,
{
    let changed = blocks.update(place, other);
    assert forall|i: int, k: int| 0 <= i < n && 0 <= k < 8 implies text::parsed_u32(
        #[trigger] changed[i][k],
    ) is Some by {
        if i != place {
            assert(changed[i] == blocks[i]);
            assert(text::parsed_u32(blocks[i][k]) is Some);
        }
    }
    lemma_full_blocks(texts, changed, n);
    lemma_full_blocks(texts, blocks, n);
    lemma_eight_locations(texts, changed, n);
    lemma_eight_locations(texts, blocks, n);
    assert forall|i: int| 0 <= i < n && i != place implies #[trigger] paired(
        texts,
        changed,
        n,
    )[i] == paired(texts, blocks, n)[i] by {
        let a = paired(texts, changed, n)[i];
        let b = paired(texts, blocks, n)[i];
        assert forall|k: int| 0 <= k < 8 implies a.locations[k] == b.locations[k] by {
            assert(changed[i] == blocks[i]);
            assert(paired(texts, changed, n)[i].locations[k] == text::parsed_u32(
                changed[i][k],
            )->0);
            assert(paired(texts, blocks, n)[i].locations[k] == text::parsed_u32(blocks[i][k])->0);
        }
        assert(a.locations == b.locations);
        assert(a.text == b.text);
    }
    assert forall|k: int| 0 <= k < 8 implies #[trigger] paired(
        texts,
        changed,
        n,
    )[place].locations[k] == text::parsed_u32(other[k])->0 by {
        assert(changed[place][k] == other[k]);
    }
}

proof fn lemma_eight_locations(texts: Seq<Seq<char>>, blocks: Seq<Seq<Seq<char>>>, n: int)
    ensures
        forall|i: int|
            0 <= i < paired(texts, blocks, n).len() ==> (#[trigger] paired(
                texts,
                blocks,
                n,
            )[i]).locations.len() == 8,
    decreases n,
{
    if n > 0 {
        lemma_eight_locations(texts, blocks, n - 1);
        let before = paired(texts, blocks, n - 1);
        let now = paired(texts, blocks, n);
        assert forall|i: int| 0 <= i < now.len() implies (#[trigger] now[i]).locations.len() == 8 by {
            if i < before.len() {
                assert(now[i] == before[i]);
            }
        }
    }
}

/// Location tokens that can all be read frame, eight by eight, the text between the eight
/// before them and themselves, without the white space around it.
pub proof fn law_bare_tokens_frame_the_text_before_them(
    input: Seq<char>,
    spans: Seq<(usize, usize)>,
    values: Seq<Option<u32>>,
    n: int,
)
    requires
        0 <= 8 * n <= spans.len(),
        values.len() == spans.len(),
        forall|i: int| 0 <= i < values.len() ==> #[trigger] values[i] is Some,
    ensures
        grouped(input, spans, values, n).len() == n,
        forall|g: int|
            0 <= g < n ==> {
                &&& (#[trigger] grouped(input, spans, values, n)[g]).text == text::trimmed(
                    text::byte_slice(
                        input,
                        if g == 0 {
                            0
                        } else {
                            spans[8 * g - 1].1 as int
                        },
                        spans[8 * g].0 as int,
                    ),
                )
                &&& grouped(input, spans, values, n)[g].locations.len() == 8
                &&& forall|k: int|
                    0 <= k < 8 ==> #[trigger] grouped(input, spans, values, n)[g].locations[k]
                        == values[8 * g + k]->0
            },
    decreases n,
{
    if n > 0 {
        law_bare_tokens_frame_the_text_before_them(input, spans, values, n - 1);
        let before = grouped(input, spans, values, n - 1);
        let now = grouped(input, spans, values, n);
        assert(group_complete(values, n - 1));
        if n > 1 {
            assert(group_complete(values, n - 2));
            assert(text_start(spans, values, n - 1) == spans[8 * (n - 1) - 1].1);
        }
        assert(now.drop_last() == before);
        assert forall|g: int| 0 <= g < n - 1 implies now[g] == before[g] by {
            assert(now.drop_last()[g] == before[g]);
        }
    }
}

/// Twice the width doubles every horizontal coordinate and changes nothing else:
/// the texts, their number and the vertical coordinates stay.
pub proof fn law_twice_the_width_doubles_x(
    spotted: Seq<Spotted>,
    result: SpottingResult,
    wider: SpottingResult,
    width: u32,
    height: u32,
)
    requires
        2 * width <= u32::MAX,
        is_spotting_result(result, spotted, width, height),
        is_spotting_result(wider, spotted, (2 * width) as u32, height),
    ensures
        text::texts_of(wider.rec_texts@) == text::texts_of(result.rec_texts@),
        wider.rec_polys@.len() == result.rec_polys@.len(),
        forall|i: int, k: int|
            0 <= i < result.rec_polys@.len() && 0 <= k < 4 ==> {
                &&& (#[trigger] wider.rec_polys@[i]@[k])@[0].is_double_of(
                    result.rec_polys@[i]@[k]@[0],
                )
                &&& wider.rec_polys@[i]@[k]@[1] == result.rec_polys@[i]@[k]@[1]
            },
{
    assert forall|i: int, k: int| 0 <= i < result.rec_polys@.len() && 0 <= k < 4 implies {
        &&& (#[trigger] wider.rec_polys@[i]@[k])@[0].is_double_of(result.rec_polys@[i]@[k]@[0])
        &&& wider.rec_polys@[i]@[k]@[1] == result.rec_polys@[i]@[k]@[1]
    } by {
        let at = result.rec_polys@[i]@[k];
        F32::law_thousandths_double(spotted[i].locations[2 * k], width);
    }
}

/// Turns location values into pixels of an image of the given size.
pub fn in_pixels(located: Located, width: u32, height: u32) -> (result: SpottingResult)
    requires
        located.wf(),
    ensures
        is_spotting_result(result, located@, width, height),
{
    let mut polys: Vec<[[F32; 2]; 4]> = Vec::new();
    let mut i: usize = 0;
    while i < located.quads.len()
        invariant
            i <= located.quads@.len(),
            polys@.len() == i,
            forall|j: int, k: int|
                0 <= j < i && 0 <= k < 4 ==> (#[trigger] polys@[j]@[k])@ == corner(
                    located.quads@[j]@,
                    k,
                    width,
                    height,
                ),
        decreases located.quads.len() - i,
    {
        let q = located.quads[i];
        let p0: [F32; 2] = [F32::of_thousandths(q[0], width), F32::of_thousandths(q[1], height)];
        let p1: [F32; 2] = [F32::of_thousandths(q[2], width), F32::of_thousandths(q[3], height)];
        let p2: [F32; 2] = [F32::of_thousandths(q[4], width), F32::of_thousandths(q[5], height)];
        let p3: [F32; 2] = [F32::of_thousandths(q[6], width), F32::of_thousandths(q[7], height)];
        let poly: [[F32; 2]; 4] = [p0, p1, p2, p3];
        proof {
            assert(p0@ == corner(q@, 0, width, height));
            assert(p1@ == corner(q@, 1, width, height));
            assert(p2@ == corner(q@, 2, width, height));
            assert(p3@ == corner(q@, 3, width, height));
            assert forall|k: int| 0 <= k < 4 implies (#[trigger] poly@[k])@ == corner(
                q@,
                k,
                width,
                height,
            ) by {
                assert(k == 0 || k == 1 || k == 2 || k == 3);
            }
        }
        polys.push(poly);
        i = i + 1;
    }
    let result = SpottingResult { rec_polys: polys, rec_texts: located.texts };
    assert(text::texts_of(result.rec_texts@) == located@.map_values(|s: Spotted| s.text));
    result
}

/// Decodes a text-spotting answer for an image of the given size. The first
/// part is the spotted texts with an empty line between neighbours.
pub fn post_process_for_spotting(input: &str, width: u32, height: u32) -> (decoded: (
    String,
    SpottingResult,
))
    ensures
        is_spotting_result(decoded.1, spotted_texts(input@), width, height),
        decoded.0@ == text::joined(text::texts_of(decoded.1.rec_texts@), "\n\n"@),
{
    let texts = capture_groups(ANNOT_TEXT_PATTERN, input);
    let blocks = capture_groups(LOC_BLOCK_PATTERN, input);
    let mut block_tokens: Vec<Vec<String>> = Vec::new();
    let mut i: usize = 0;
    while i < blocks.len()
        invariant
            i <= blocks@.len(),
            block_tokens@.len() == i,
            forall|k: int|
                0 <= k < i ==> text::texts_of((#[trigger] block_tokens@[k])@) == regex_groups(
                    LOC_TOKEN_PATTERN@,
                    blocks@[k]@,
                ),
        decreases blocks.len() - i,
    {
        block_tokens.push(capture_groups(LOC_TOKEN_PATTERN, blocks[i].as_str()));
        i = i + 1;
    }
    assert(nested_texts(block_tokens@) == text::texts_of(blocks@).map_values(
        |block: Seq<char>| regex_groups(LOC_TOKEN_PATTERN@, block),
    ));
    let mut located = pair_blocks(&texts, &block_tokens);
    if located.quads.len() == 0 || located.texts.len() == 0 {
        assert(located@.len() == 0);
        let spans = match_spans(LOC_TOKEN_PATTERN, input);
        let mut values: Vec<Option<u32>> = Vec::new();
        let mut j: usize = 0;
        while j < spans.len()
            invariant
                j <= spans@.len(),
                are_spans(spans@, input@),
                values@ == span_values(input@, spans@).take(j as int),
            decreases spans.len() - j,
        {
            let token = text::slice_bytes(input, spans[j].0, spans[j].1);
            let value = match first_group(LOC_TOKEN_PATTERN, token) {
                Some(digits) => text::parse_u32(digits.as_str()),
                None => None,
            };
            values.push(value);
            assert(values@ == span_values(input@, spans@).take(j as int + 1));
            j = j + 1;
        }
        assert(values@ == span_values(input@, spans@));
        located = group_tokens(input, &spans, &values);
    }
    let result = in_pixels(located, width, height);
    let text = text::join(&result.rec_texts, "\n\n");
    (text, result)
}

/// Where texts or blocks are not marked, the text before every eight location tokens goes
/// with their values: as many texts are spotted as there are runs of eight tokens.
pub proof fn law_unmarked_texts_are_spotted(input: Seq<char>)
    requires
        annotated(input).len() == 0 || located(input).len() == 0,
        forall|i: int|
            0 <= i < regex_spans(LOC_TOKEN_PATTERN@, input).len() ==> #[trigger] span_values(
                input,
                regex_spans(LOC_TOKEN_PATTERN@, input),
            )[i] is Some,
    ensures
        ({
            let spans = regex_spans(LOC_TOKEN_PATTERN@, input);
            let found = spotted_texts(input);
            &&& found.len() == spans.len() / 8
            &&& forall|g: int|
                0 <= g < found.len() ==> {
                    &&& (#[trigger] found[g]).text == text::trimmed(
                        text::byte_slice(
                            input,
                            if g == 0 {
                                0
                            } else {
                                spans[8 * g - 1].1 as int
                            },
                            spans[8 * g].0 as int,
                        ),
                    )
                    &&& found[g].locations.len() == 8
                    &&& forall|k: int|
                        0 <= k < 8 ==> Some(#[trigger] found[g].locations[k]) == span_values(
                            input,
                            spans,
                        )[8 * g + k]
                }
        }),
{
    let spans = regex_spans(LOC_TOKEN_PATTERN@, input);
    let values = span_values(input, spans);
    let n = spans.len() as int / 8;
    law_bare_tokens_frame_the_text_before_them(input, spans, values, n);
    let found = spotted_texts(input);
    assert(found == grouped(input, spans, values, n));
    assert forall|g: int, k: int| 0 <= g < n && 0 <= k < 8 implies Some(
        #[trigger] found[g].locations[k],
    ) == values[8 * g + k] by {
        assert(found[g].locations[k] == values[8 * g + k]->0);
        assert(values[8 * g + k] is Some);
    }
}

} // verus!
