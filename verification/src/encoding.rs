//! Tokenizers of the `tokenizers` crate: how they are set up and the texts they split.

use crate::chat;
use crate::spotting;
use crate::text;
use crate::tokenizer;
use tokenizers::{
    ModelWrapper, NormalizerWrapper, OffsetReferential, OffsetType, PaddingStrategy,
    PostProcessorWrapper, PreTokenizerWrapper,
};
use vstd::prelude::*;
use vstd::string::*;

verus! {

/// A normalizer.
#[verifier::external_type_specification]
#[verifier::external_body]
pub struct ExNormalizerWrapper(tokenizers::NormalizerWrapper);

/// A pre-tokenizer.
#[verifier::external_type_specification]
#[verifier::external_body]
pub struct ExPreTokenizerWrapper(tokenizers::PreTokenizerWrapper);

/// A post-processor.
#[verifier::external_type_specification]
#[verifier::external_body]
pub struct ExPostProcessorWrapper(tokenizers::PostProcessorWrapper);

/// What a normalizer does.
#[derive(Clone, Copy, Debug, PartialEq, Eq, Structural)]
pub enum NormalizerKind {
    Bert,
    Strip,
    StripAccents,
    Nfc,
    Nfd,
    Nfkc,
    Nfkd,
    Sequence,
    Lowercase,
    Nmt,
    Precompiled,
    Replace,
    Prepend,
    ByteLevel,
}

/// How a text is split before it is looked up.
#[derive(Clone, Copy, Debug, PartialEq, Eq, Structural)]
pub enum PreTokenizerKind {
    Bert,
    ByteLevel,
    Delimiter,
    Metaspace,
    Whitespace,
    Sequence,
    Split,
    Punctuation,
    WhitespaceSplit,
    Digits,
    UnicodeScripts,
    /// Pieces of this many characters.
    FixedLength(usize),
}

/// What is done with the tokens of a text.
#[derive(Clone, Copy, Debug, PartialEq, Eq, Structural)]
pub enum ProcessorKind {
    Roberta,
    Bert,
    ByteLevel,
    Template,
    Sequence,
}

/// Lists in lists are opened so many times, more than a file can nest.
pub const LEVELS: usize = 128;

/// The greatest number of tokens and the overlap of the parts that a tokenizer cuts
/// long texts into, if it cuts them.
pub uninterp spec fn tokenizer_truncation(tokenizer: tokenizers::Tokenizer) -> Option<
    (usize, usize),
>;

/// `tokenizers::Tokenizer::get_truncation`: its public fields `max_length` and
/// `stride`.
#[verifier::external_body]
fn truncation_of(tokenizer: &tokenizers::Tokenizer) -> (truncation: Option<(usize, usize)>)
    ensures
        truncation == tokenizer_truncation(*tokenizer),
{
    tokenizer.get_truncation().map(|params| (params.max_length, params.stride))
}

/// The length that a tokenizer fills up to, if it is a fixed one, and the number
/// that it is made a multiple of, if there is one; nothing for one that does not
/// fill up.
pub uninterp spec fn tokenizer_padding(tokenizer: tokenizers::Tokenizer) -> Option<
    (Option<usize>, Option<usize>),
>;

/// `tokenizers::Tokenizer::get_padding`: its public fields `strategy` and
/// `pad_to_multiple_of`.
#[verifier::external_body]
fn padding_of(tokenizer: &tokenizers::Tokenizer) -> (padding: Option<
    (Option<usize>, Option<usize>),
>)
    ensures
        padding == tokenizer_padding(*tokenizer),
{
    tokenizer.get_padding().map(|params| match params.strategy {
        PaddingStrategy::BatchLongest => (None, params.pad_to_multiple_of),
        PaddingStrategy::Fixed(length) => (Some(length), params.pad_to_multiple_of),
    })
}

/// Bits of the rate at which the model leaves out merges at random, if it has one.
pub uninterp spec fn tokenizer_dropout(tokenizer: tokenizers::Tokenizer) -> Option<u32>;

/// `tokenizers::Tokenizer::get_model`: the public field `dropout` of a model of byte
/// pairs, as its bits.
#[verifier::external_body]
fn dropout_of(tokenizer: &tokenizers::Tokenizer) -> (dropout: Option<u32>)
    ensures
        dropout == tokenizer_dropout(*tokenizer),
{
    match tokenizer.get_model() {
        ModelWrapper::BPE(pairs) => pairs.dropout.map(|rate| rate.to_bits()),
        ModelWrapper::WordPiece(_) => None,
        ModelWrapper::WordLevel(_) => None,
        ModelWrapper::Unigram(_) => None,
    }
}

/// Whether an added token takes in the white space before it, and behind it, for
/// every added token of a tokenizer.
pub uninterp spec fn added_edges(tokenizer: tokenizers::Tokenizer) -> Set<(bool, bool)>;

/// `tokenizers::Tokenizer::get_added_tokens_decoder`: the public fields `lstrip` and
/// `rstrip` of the tokens, in no order.
#[verifier::external_body]
fn edges_of(tokenizer: &tokenizers::Tokenizer) -> (edges: Vec<(bool, bool)>)
    ensures
        edges@.to_set() == added_edges(*tokenizer),
{
    tokenizer.get_added_tokens_decoder().values().map(|t| (t.lstrip, t.rstrip)).collect()
}

/// Where a token takes in the white space behind it, no other one takes in only the
/// white space before it: such a one, white itself, would end before it starts.
pub open spec fn edges_meet(edges: Set<(bool, bool)>) -> bool {
    edges.contains((true, false)) ==> !edges.contains((false, true)) && !edges.contains(
        (true, true),
    )
}

/// Two characters that an empty token would stand between.
pub const PROBE: &'static str = "\u{1}\u{2}";

/// For every piece that the added tokens split a text into, whether it is a token.
pub uninterp spec fn added_pieces(tokenizer: tokenizers::Tokenizer, text: Seq<char>) -> Seq<bool>;

/// `tokenizers::AddedVocabulary::extract_and_normalize` without a normalizer, with
/// special tokens found too: the pieces, of which those that hold nothing are left out.
#[verifier::external_body]
fn pieces_of(tokenizer: &tokenizers::Tokenizer, text: &str) -> (pieces: Vec<bool>)
    requires
        text@ == PROBE@,
    ensures
        pieces@ == added_pieces(*tokenizer, text@),
{
    let mut added = tokenizer.get_added_vocabulary().clone();
    added.set_encode_special_tokens(false);
    let split = added.extract_and_normalize::<NormalizerWrapper>(None, text);
    let pieces = split.get_splits(OffsetReferential::Normalized, OffsetType::Byte);
    pieces.into_iter().map(|piece| piece.2.is_some()).collect()
}

/// The normalizer of a tokenizer, if it has one.
pub uninterp spec fn tokenizer_normalizer(tokenizer: tokenizers::Tokenizer) -> Option<
    tokenizers::NormalizerWrapper,
>;

/// `tokenizers::Tokenizer::get_normalizer`.
#[verifier::external_body]
fn normalizer_of(tokenizer: &tokenizers::Tokenizer) -> (step: Option<
    &tokenizers::NormalizerWrapper,
>)
    ensures
        match step {
            Some(step) => tokenizer_normalizer(*tokenizer) == Some(*step),
            None => tokenizer_normalizer(*tokenizer) is None,
        },
{
    tokenizer.get_normalizer()
}

/// What a normalizer does.
pub uninterp spec fn normalizer_kind(normalizer: tokenizers::NormalizerWrapper) -> NormalizerKind;

/// The variants of `tokenizers::NormalizerWrapper`.
#[verifier::external_body]
fn kind_of_normalizer(normalizer: &tokenizers::NormalizerWrapper) -> (kind: NormalizerKind)
    ensures
        kind == normalizer_kind(*normalizer),
{
    match normalizer {
        NormalizerWrapper::BertNormalizer(_) => NormalizerKind::Bert,
        NormalizerWrapper::StripNormalizer(_) => NormalizerKind::Strip,
        NormalizerWrapper::StripAccents(_) => NormalizerKind::StripAccents,
        NormalizerWrapper::NFC(_) => NormalizerKind::Nfc,
        NormalizerWrapper::NFD(_) => NormalizerKind::Nfd,
        NormalizerWrapper::NFKC(_) => NormalizerKind::Nfkc,
        NormalizerWrapper::NFKD(_) => NormalizerKind::Nfkd,
        NormalizerWrapper::Sequence(_) => NormalizerKind::Sequence,
        NormalizerWrapper::Lowercase(_) => NormalizerKind::Lowercase,
        NormalizerWrapper::Nmt(_) => NormalizerKind::Nmt,
        NormalizerWrapper::Precompiled(_) => NormalizerKind::Precompiled,
        NormalizerWrapper::Replace(_) => NormalizerKind::Replace,
        NormalizerWrapper::Prepend(_) => NormalizerKind::Prepend, NormalizerWrapper::ByteLevel(_) => NormalizerKind::ByteLevel,
    }
}

/// The normalizers of a list of normalizers; none of any other normalizer.
pub uninterp spec fn normalizer_parts(normalizer: tokenizers::NormalizerWrapper) -> Seq<
    tokenizers::NormalizerWrapper,
>;

/// `normalizers::utils::Sequence::as_ref`: a normalizer of the list.
#[verifier::external_body]
fn part_of_normalizer(normalizer: &tokenizers::NormalizerWrapper, i: usize) -> (part: Option<
    &tokenizers::NormalizerWrapper,
>)
    ensures
        match part {
            Some(part) => i < normalizer_parts(*normalizer).len() <= usize::MAX && *part
                == normalizer_parts(*normalizer)[i as int],
            None => i >= normalizer_parts(*normalizer).len(),
        },
{
    match normalizer {
        NormalizerWrapper::Sequence(list) => list.as_ref().get(i),
        _ => None,
    }
}

/// The text that a normalizer puts in, if it is one that puts one in.
pub uninterp spec fn put_in(normalizer: tokenizers::NormalizerWrapper) -> Option<Seq<char>>;

/// The public fields `content` of `normalizers::replace::Replace` and `prepend` of
/// `normalizers::prepend::Prepend`.
#[verifier::external_body]
fn text_put_in(normalizer: &tokenizers::NormalizerWrapper) -> (text: Option<String>)
    ensures
        spotting::text_of(text) == put_in(*normalizer),
{
    match normalizer {
        NormalizerWrapper::Replace(replace) => Some(replace.content.clone()),
        NormalizerWrapper::Prepend(prepend) => Some(prepend.prepend.clone()),
        _ => None,
    }
}

/// A normalizer as `Debug` shows it: one that replaces begins with what it looks for,
/// and ends with its expression.
pub uninterp spec fn shown_normalizer(normalizer: tokenizers::NormalizerWrapper) -> Seq<char>;

/// `Debug` of a `tokenizers::NormalizerWrapper`: a function of the normalizer.
#[verifier::external_body]
fn show_normalizer(normalizer: &tokenizers::NormalizerWrapper) -> (shown: String)
    ensures
        shown@ == shown_normalizer(*normalizer),
{
    format!("{:?}", normalizer)
}

/// How a normalizer is shown that replaces a text, up to the text.
pub const PLAIN_REPLACE: &'static str = "Replace(Replace { pattern: String(\"";

/// Whether a normalizer looks for a text that is not empty.
pub open spec fn looks_for_text(shown: Seq<char>) -> bool {
    &&& chat::occurs_at(shown, PLAIN_REPLACE@, 0)
    &&& PLAIN_REPLACE@.len() < shown.len()
    &&& shown[PLAIN_REPLACE@.len() as int] != '"'
}

/// Whether a normalizer may put a text in front of the first character, or put the
/// first character itself in anew: the text then starts with characters that come
/// from none.
pub open spec fn may_start_anew(normalizer: tokenizers::NormalizerWrapper) -> bool {
    match put_in(normalizer) {
        None => false,
        Some(text) => if normalizer_kind(normalizer) == NormalizerKind::Prepend {
            text.len() == 0
        } else {
            text.len() > 0 && !looks_for_text(shown_normalizer(normalizer))
        },
    }
}

/// Whether a single normalizer takes a text. One that rewrites every character needs
/// a text whose first character comes from one; a table from a file may fail on any
/// text; and an expression must not move the start of a match.
pub open spec fn normalizes(normalizer: tokenizers::NormalizerWrapper, rooted: bool) -> bool {
    match normalizer_kind(normalizer) {
        NormalizerKind::Sequence => false,
        NormalizerKind::Precompiled => false,
        NormalizerKind::Replace => !tokenizer::moves_start(shown_normalizer(normalizer), 0),
        NormalizerKind::Prepend => true,
        _ => rooted,
    }
}

/// Whether the first character of a text comes from one of the original once a
/// normalizer has run, with lists opened `levels` times; nothing where the normalizer
/// may fail.
pub open spec fn rooted_after(
    normalizer: tokenizers::NormalizerWrapper,
    rooted: bool,
    levels: nat,
) -> Option<bool>
    decreases levels, 0nat,
{
    if normalizer_kind(normalizer) == NormalizerKind::Sequence && levels > 0 {
        rooted_after_list(
            normalizer_parts(normalizer),
            normalizer_parts(normalizer).len(),
            rooted,
            (levels - 1) as nat,
        )
    } else if normalizes(normalizer, rooted) {
        Some(rooted && !may_start_anew(normalizer))
    } else {
        None
    }
}

/// The same once the first `n` normalizers of a list have run.
pub open spec fn rooted_after_list(
    list: Seq<tokenizers::NormalizerWrapper>,
    n: nat,
    rooted: bool,
    levels: nat,
) -> Option<bool>
    decreases levels, n,
{
    if n == 0 {
        Some(rooted)
    } else {
        match rooted_after_list(list, (n - 1) as nat, rooted, levels) {
            Some(rooted) => rooted_after(list[n - 1], rooted, levels),
            None => None,
        }
    }
}

/// The same once the normalizer of a tokenizer has run, if it has one.
pub open spec fn rooted_text(normalizer: Option<tokenizers::NormalizerWrapper>) -> Option<bool> {
    match normalizer {
        Some(normalizer) => rooted_after(normalizer, true, LEVELS as nat),
        None => Some(true),
    }
}

/// The pre-tokenizer of a tokenizer, if it has one.
pub uninterp spec fn tokenizer_split(tokenizer: tokenizers::Tokenizer) -> Option<
    tokenizers::PreTokenizerWrapper,
>;

/// `tokenizers::Tokenizer::get_pre_tokenizer`.
#[verifier::external_body]
fn split_of(tokenizer: &tokenizers::Tokenizer) -> (step: Option<&tokenizers::PreTokenizerWrapper>)
    ensures
        match step {
            Some(step) => tokenizer_split(*tokenizer) == Some(*step),
            None => tokenizer_split(*tokenizer) is None,
        },
{
    tokenizer.get_pre_tokenizer()
}

/// How a pre-tokenizer splits a text.
pub uninterp spec fn split_kind(step: tokenizers::PreTokenizerWrapper) -> PreTokenizerKind;

/// The variants of `tokenizers::PreTokenizerWrapper`, with the public field of
/// `pre_tokenizers::fixed_length::FixedLength`.
#[verifier::external_body]
fn kind_of_split(step: &tokenizers::PreTokenizerWrapper) -> (kind: PreTokenizerKind)
    ensures
        kind == split_kind(*step),
{
    match step {
        PreTokenizerWrapper::BertPreTokenizer(_) => PreTokenizerKind::Bert,
        PreTokenizerWrapper::ByteLevel(_) => PreTokenizerKind::ByteLevel,
        PreTokenizerWrapper::Delimiter(_) => PreTokenizerKind::Delimiter,
        PreTokenizerWrapper::Metaspace(_) => PreTokenizerKind::Metaspace,
        PreTokenizerWrapper::Whitespace(_) => PreTokenizerKind::Whitespace,
        PreTokenizerWrapper::Sequence(_) => PreTokenizerKind::Sequence,
        PreTokenizerWrapper::Split(_) => PreTokenizerKind::Split,
        PreTokenizerWrapper::Punctuation(_) => PreTokenizerKind::Punctuation,
        PreTokenizerWrapper::WhitespaceSplit(_) => PreTokenizerKind::WhitespaceSplit,
        PreTokenizerWrapper::Digits(_) => PreTokenizerKind::Digits,
        PreTokenizerWrapper::UnicodeScripts(_) => PreTokenizerKind::UnicodeScripts,
        PreTokenizerWrapper::FixedLength(f) => PreTokenizerKind::FixedLength(f.length),
    }
}

/// The pre-tokenizers of a list of pre-tokenizers; none of any other one.
pub uninterp spec fn split_parts(step: tokenizers::PreTokenizerWrapper) -> Seq<
    tokenizers::PreTokenizerWrapper,
>;

/// `pre_tokenizers::sequence::Sequence::as_ref`: a pre-tokenizer of the list.
#[verifier::external_body]
fn part_of_split(step: &tokenizers::PreTokenizerWrapper, i: usize) -> (part: Option<
    &tokenizers::PreTokenizerWrapper,
>)
    ensures
        match part {
            Some(part) => i < split_parts(*step).len() <= usize::MAX && *part == split_parts(
                *step,
            )[i as int],
            None => i >= split_parts(*step).len(),
        },
{
    match step {
        PreTokenizerWrapper::Sequence(list) => list.as_ref().get(i),
        _ => None,
    }
}

/// The expression of a pre-tokenizer that splits by one, as `Debug` shows it.
pub uninterp spec fn shown_split(step: tokenizers::PreTokenizerWrapper) -> Seq<char>;

/// `Debug` of the public field `regex` of `pre_tokenizers::split::Split`: a function
/// of the pre-tokenizer; nothing for any other one.
#[verifier::external_body]
fn show_split(step: &tokenizers::PreTokenizerWrapper) -> (shown: String)
    ensures
        shown@ == shown_split(*step),
{
    match step {
        PreTokenizerWrapper::Split(split) => format!("{:?}", split.regex),
        _ => String::new(),
    }
}

/// Whether a pre-tokenizer takes a text, with lists opened `levels` times: bytes are
/// rewritten character by character, pieces are not empty, and an expression must not
/// move the start of a match.
pub open spec fn splits(step: tokenizers::PreTokenizerWrapper, rooted: bool, levels: nat) -> bool
    decreases levels,
{
    match split_kind(step) {
        PreTokenizerKind::Sequence => levels > 0 && forall|i: int|
            0 <= i < split_parts(step).len() ==> splits(
                #[trigger] split_parts(step)[i],
                rooted,
                (levels - 1) as nat,
            ),
        PreTokenizerKind::FixedLength(length) => length > 0,
        PreTokenizerKind::ByteLevel => rooted,
        PreTokenizerKind::Split => !tokenizer::moves_start(shown_split(step), 0),
        _ => true,
    }
}

/// The post-processor of a tokenizer, if it has one.
pub uninterp spec fn tokenizer_processor(tokenizer: tokenizers::Tokenizer) -> Option<
    tokenizers::PostProcessorWrapper,
>;

/// `tokenizers::Tokenizer::get_post_processor`.
#[verifier::external_body]
fn processor_of(tokenizer: &tokenizers::Tokenizer) -> (step: Option<
    &tokenizers::PostProcessorWrapper,
>)
    ensures
        match step {
            Some(step) => tokenizer_processor(*tokenizer) == Some(*step),
            None => tokenizer_processor(*tokenizer) is None,
        },
{
    tokenizer.get_post_processor()
}

/// What a post-processor does.
pub uninterp spec fn processor_kind(step: tokenizers::PostProcessorWrapper) -> ProcessorKind;

/// The variants of `tokenizers::PostProcessorWrapper`.
#[verifier::external_body]
fn kind_of_processor(step: &tokenizers::PostProcessorWrapper) -> (kind: ProcessorKind)
    ensures
        kind == processor_kind(*step),
{
    match step {
        PostProcessorWrapper::Roberta(_) => ProcessorKind::Roberta,
        PostProcessorWrapper::Bert(_) => ProcessorKind::Bert,
        PostProcessorWrapper::ByteLevel(_) => ProcessorKind::ByteLevel,
        PostProcessorWrapper::Template(_) => ProcessorKind::Template,
        PostProcessorWrapper::Sequence(_) => ProcessorKind::Sequence,
    }
}

/// The post-processors of a list of post-processors; none of any other one.
pub uninterp spec fn processor_parts(step: tokenizers::PostProcessorWrapper) -> Seq<
    tokenizers::PostProcessorWrapper,
>;

/// `processors::sequence::Sequence::get`: a post-processor of the list.
#[verifier::external_body]
fn part_of_processor(step: &tokenizers::PostProcessorWrapper, i: usize) -> (part: Option<
    &tokenizers::PostProcessorWrapper,
>)
    ensures
        match part {
            Some(part) => i < processor_parts(*step).len() <= usize::MAX && *part
                == processor_parts(*step)[i as int],
            None => i >= processor_parts(*step).len(),
        },
{
    match step {
        PostProcessorWrapper::Sequence(list) => list.get(i),
        _ => None,
    }
}

/// The template of a post-processor for a single text, as it is shown; empty for
/// one without a template.
pub uninterp spec fn shown_template(step: tokenizers::PostProcessorWrapper) -> Seq<char>;

/// `processors::template::TemplateProcessing::get_single`: the template as `Debug`
/// shows it.
#[verifier::external_body]
fn template_of(step: &tokenizers::PostProcessorWrapper) -> (shown: String)
    ensures
        shown@ == shown_template(*step),
{
    match step {
        PostProcessorWrapper::Template(template) => template.get_single(),
        _ => String::new(),
    }
}

/// The template of a post-processor for a pair of texts, as it is shown; empty for
/// one without a template.
pub uninterp spec fn shown_pair_template(step: tokenizers::PostProcessorWrapper) -> Seq<char>;

/// `processors::template::TemplateProcessing::get_pair`: the template as `Debug`
/// shows it.
#[verifier::external_body]
fn pair_template_of(step: &tokenizers::PostProcessorWrapper) -> (shown: String)
    ensures
        shown@ == shown_pair_template(*step),
{
    match step {
        PostProcessorWrapper::Template(template) => format!("{:?}", template.get_pair()),
        _ => String::new(),
    }
}

/// What stands outside quotation marks from `from` on, where a backslash guards the
/// character behind it.
pub open spec fn unquoted(shown: Seq<char>, from: int, quoted: bool) -> Seq<char>
    decreases shown.len() + 1 - from,
{
    if from < 0 || from >= shown.len() {
        Seq::empty()
    } else if quoted && shown[from] == '\\' {
        unquoted(shown, from + 2, quoted)
    } else if shown[from] == '"' {
        unquoted(shown, from + 1, !quoted)
    } else if quoted {
        unquoted(shown, from + 1, quoted)
    } else {
        seq![shown[from]] + unquoted(shown, from + 1, quoted)
    }
}

/// Number of places of a text in another, from `from` on.
pub open spec fn count(shown: Seq<char>, needle: Seq<char>, from: int) -> int
    decreases shown.len() - from,
{
    if from < 0 || from >= shown.len() {
        0
    } else {
        count(shown, needle, from + 1) + if chat::occurs_at(shown, needle, from) {
            1int
        } else {
            0int
        }
    }
}

/// How a template shows the place of the first text.
pub const FIRST_TEXT: &'static str = "Sequence { id: A";

/// How a template shows the place of a second text.
pub const SECOND_TEXT: &'static str = "Sequence { id: B";

/// Number of places for the first text in a template.
pub open spec fn first_texts(shown: Seq<char>) -> int {
    count(unquoted(shown, 0, false), FIRST_TEXT@, 0)
}

/// Number of places for a second text in a template.
pub open spec fn second_texts(shown: Seq<char>) -> int {
    count(unquoted(shown, 0, false), SECOND_TEXT@, 0)
}

/// Number of texts that a template makes of `texts` ones: of one text, where it asks
/// for no second one, or of two.
pub open spec fn filled(step: tokenizers::PostProcessorWrapper, texts: int) -> Option<int> {
    if texts == 1 && second_texts(shown_template(step)) == 0 {
        Some(first_texts(shown_template(step)))
    } else if texts == 2 {
        Some(
            first_texts(shown_pair_template(step)) + second_texts(shown_pair_template(step)),
        )
    } else {
        None
    }
}

/// Number of texts that a post-processor makes of `texts` ones, with lists opened
/// `levels` times; nothing where it fails.
pub open spec fn processed(
    step: tokenizers::PostProcessorWrapper,
    texts: int,
    levels: nat,
) -> Option<int>
    decreases levels, 0nat,
{
    match processor_kind(step) {
        ProcessorKind::Template => filled(step, texts),
        ProcessorKind::Sequence => if levels > 0 {
            processed_by_list(
                processor_parts(step),
                processor_parts(step).len(),
                texts,
                (levels - 1) as nat,
            )
        } else {
            None
        },
        _ => Some(texts),
    }
}

/// The same of the first `n` post-processors of a list.
pub open spec fn processed_by_list(
    list: Seq<tokenizers::PostProcessorWrapper>,
    n: nat,
    texts: int,
    levels: nat,
) -> Option<int>
    decreases levels, n,
{
    if n == 0 {
        Some(texts)
    } else {
        match processed_by_list(list, (n - 1) as nat, texts, levels) {
            Some(texts) => processed(list[n - 1], texts, levels),
            None => None,
        }
    }
}

/// Parts of a cut text move on by less than their length.
pub open spec fn cuts_well(truncation: Option<(usize, usize)>) -> bool {
    match truncation {
        Some((most, overlap)) => most == 0 || overlap < most,
        None => true,
    }
}

/// A text is filled up to no more tokens than a vector holds.
pub open spec fn fills_well(padding: Option<(Option<usize>, Option<usize>)>) -> bool {
    match padding {
        Some((fixed, multiple)) => {
            &&& (fixed matches Some(length) ==> length <= isize::MAX / 96)
            &&& (multiple matches Some(length) ==> length <= isize::MAX / 96)
        },
        None => true,
    }
}

/// A tokenizer whose settings take every text.
pub open spec fn encodable(tokenizer: tokenizers::Tokenizer) -> bool {
    &&& cuts_well(tokenizer_truncation(tokenizer))
    &&& fills_well(tokenizer_padding(tokenizer))
    &&& edges_meet(added_edges(tokenizer))
    &&& added_pieces(tokenizer, PROBE@) == seq![false]
    &&& rooted_text(tokenizer_normalizer(tokenizer)) is Some
    &&& tokenizer_split(tokenizer) matches Some(step) ==> splits(
        step,
        rooted_text(tokenizer_normalizer(tokenizer))->0,
        LEVELS as nat,
    )
    &&& tokenizer_processor(tokenizer) matches Some(step) ==> processed(
        step,
        1,
        LEVELS as nat,
    ) is Some
}

/// A tokenizer that leaves nothing to chance: no rate of merges to leave out, or a
/// rate of zero.
pub open spec fn is_settled(tokenizer: tokenizers::Tokenizer) -> bool {
    match tokenizer_dropout(tokenizer) {
        Some(rate) => rate == 0 || rate == 0x8000_0000,
        None => true,
    }
}

/// The token numbers that a tokenizer splits a text into, without added special
/// tokens, or its message.
pub uninterp spec fn token_ids(tokenizer: tokenizers::Tokenizer, text: Seq<char>) -> Result<
    Seq<u32>,
    Seq<char>,
>;

/// The token numbers or the message of a tokenizer.
pub open spec fn ids_of(ids: Result<Vec<u32>, String>) -> Result<Seq<u32>, Seq<char>> {
    match ids {
        Ok(list) => Ok(list@),
        Err(message) => Err(message@),
    }
}

/// `tokenizers::Tokenizer::encode` without added special tokens: a function of the
/// tokenizer and the text, where no merges are left out at random. Of a tokenizer
/// that leaves some out, nothing is said of the outcome.
#[verifier::external_body]
pub(crate) fn encode_text(tokenizer: &tokenizers::Tokenizer, text: &str) -> (ids: Result<
    Vec<u32>,
    String,
>)
    requires
        encodable(*tokenizer),
    ensures
        is_settled(*tokenizer) ==> ids_of(ids) == token_ids(*tokenizer, text@),
{
    match tokenizer.encode(text, false) {
        Ok(encoding) => Ok(encoding.get_ids().to_vec()),
        Err(error) => Err(error.to_string()),
    }
}

proof fn lemma_failed_list_stays_failed(
    list: Seq<tokenizers::NormalizerWrapper>,
    n: nat,
    m: nat,
    rooted: bool,
    levels: nat,
)
    requires
        n <= m,
        rooted_after_list(list, n, rooted, levels) is None,
    ensures
        rooted_after_list(list, m, rooted, levels) is None,
    decreases m,
{
    if n < m {
        lemma_failed_list_stays_failed(list, n, (m - 1) as nat, rooted, levels);
    }
}

/// Whether a normalizer looks for a text that is not empty.
fn seeks_text(shown: &str) -> (seeks: bool)
    ensures
        seeks == looks_for_text(shown@),
{
    let chars = text::chars_of(shown);
    let plain = text::chars_of(PLAIN_REPLACE);
    plain.len() < chars.len() && chat::is_at(&chars, &plain, 0) && chars[plain.len()] != '"'
}

/// Whether a normalizer may put a text in front of the first character.
fn starts_anew(normalizer: &tokenizers::NormalizerWrapper) -> (anew: bool)
    ensures
        anew == may_start_anew(*normalizer),
{
    match text_put_in(normalizer) {
        None => false,
        Some(text) => {
            let length: usize = text::chars_of(text.as_str()).len();
            if kind_of_normalizer(normalizer) == NormalizerKind::Prepend {
                length == 0
            } else {
                length > 0 && !seeks_text(show_normalizer(normalizer).as_str())
            }
        },
    }
}

/// Whether a single normalizer takes a text.
fn can_normalize(normalizer: &tokenizers::NormalizerWrapper, rooted: bool) -> (can: bool)
    ensures
        can == normalizes(*normalizer, rooted),
{
    match kind_of_normalizer(normalizer) {
        NormalizerKind::Sequence => false,
        NormalizerKind::Precompiled => false,
        NormalizerKind::Replace => !tokenizer::start_moves(show_normalizer(normalizer).as_str()),
        NormalizerKind::Prepend => true,
        _ => rooted,
    }
}

/// Follows the first character of a text through a normalizer.
fn root(normalizer: &tokenizers::NormalizerWrapper, rooted: bool, levels: usize) -> (after: Option<
    bool,
>)
    ensures
        after == rooted_after(*normalizer, rooted, levels as nat),
    decreases levels,
{
    if kind_of_normalizer(normalizer) == NormalizerKind::Sequence && levels > 0 {
        let mut now: bool = rooted;
        let mut i: usize = 0;
        let ghost parts = normalizer_parts(*normalizer);
        loop
            invariant
                levels > 0,
                parts == normalizer_parts(*normalizer),
                normalizer_kind(*normalizer) == NormalizerKind::Sequence,
                i <= parts.len(),
                rooted_after_list(parts, i as nat, rooted, (levels - 1) as nat) == Some(now),
            ensures
                i == parts.len(),
            decreases parts.len() - i,
        {
            match part_of_normalizer(normalizer, i) {
                Some(part) => {
                    let next = root(part, now, levels - 1);
                    assert(next == rooted_after_list(
                        parts,
                        (i + 1) as nat,
                        rooted,
                        (levels - 1) as nat,
                    ));
                    match next {
                        Some(next) => {
                            now = next;
                        },
                        None => {
                            proof {
                                lemma_failed_list_stays_failed(
                                    parts,
                                    (i + 1) as nat,
                                    parts.len(),
                                    rooted,
                                    (levels - 1) as nat,
                                );
                            }
                            return None;
                        },
                    }
                    i = i + 1;
                },
                None => {
                    break;
                },
            }
        }
        Some(now)
    } else if can_normalize(normalizer, rooted) {
        Some(rooted && !starts_anew(normalizer))
    } else {
        None
    }
}

/// Whether a pre-tokenizer takes a text.
fn can_split(step: &tokenizers::PreTokenizerWrapper, rooted: bool, levels: usize) -> (can: bool)
    ensures
        can == splits(*step, rooted, levels as nat),
    decreases levels,
{
    match kind_of_split(step) {
        PreTokenizerKind::Sequence => {
            if levels == 0 {
                return false;
            }
            let mut i: usize = 0;
            let ghost parts = split_parts(*step);
            loop
                invariant
                    levels > 0,
                    parts == split_parts(*step),
                    split_kind(*step) == PreTokenizerKind::Sequence,
                    i <= parts.len(),
                    forall|k: int|
                        0 <= k < i ==> splits(#[trigger] parts[k], rooted, (levels - 1) as nat),
                ensures
                    i == parts.len(),
                decreases parts.len() - i,
            {
                match part_of_split(step, i) {
                    Some(part) => {
                        if !can_split(part, rooted, levels - 1) {
                            assert(!splits(split_parts(*step)[i as int], rooted, (levels
                                - 1) as nat));
                            return false;
                        }
                        i = i + 1;
                    },
                    None => {
                        break;
                    },
                }
            }
            true
        },
        PreTokenizerKind::FixedLength(length) => length > 0,
        PreTokenizerKind::ByteLevel => rooted,
        PreTokenizerKind::Split => !tokenizer::start_moves(show_split(step).as_str()),
        _ => true,
    }
}

/// What stands outside quotation marks.
fn without_quoted(shown: &str) -> (bare: Vec<char>)
    ensures
        bare@ == unquoted(shown@, 0, false),
{
    let chars = text::chars_of(shown);
    let mut bare: Vec<char> = Vec::new();
    let mut quoted: bool = false;
    let mut i: usize = 0;
    assert(bare@ + unquoted(shown@, 0, false) == unquoted(shown@, 0, false));
    while i < chars.len()
        invariant
            i <= chars@.len(),
            chars@ == shown@,
            bare@ + unquoted(shown@, i as int, quoted) == unquoted(shown@, 0, false),
        decreases chars.len() - i,
    {
        let ghost before = bare@;
        let ghost at = i as int;
        if quoted && chars[i] == '\\' {
            if chars.len() - i > 1 {
                i = i + 2;
            } else {
                i = i + 1;
                assert(unquoted(shown@, at + 2, true) == unquoted(shown@, at + 1, true));
            }
        } else if chars[i] == '"' {
            quoted = !quoted;
            i = i + 1;
        } else if quoted {
            i = i + 1;
        } else {
            bare.push(chars[i]);
            i = i + 1;
            assert(bare@ + unquoted(shown@, at + 1, false) == before + (seq![shown@[at]]
                + unquoted(shown@, at + 1, false)));
        }
    }
    assert(unquoted(shown@, i as int, quoted) == Seq::<char>::empty());
    assert(bare@ + Seq::<char>::empty() == bare@);
    bare
}

/// Counts the places of a text in another.
fn count_of(shown: &Vec<char>, needle: &str) -> (n: usize)
    ensures
        n == count(shown@, needle@, 0),
        n <= shown@.len(),
{
    let sought = text::chars_of(needle);
    let total: usize = shown.len();
    let mut n: usize = 0;
    let mut i: usize = total;
    while i > 0
        invariant
            i <= total == shown@.len(),
            sought@ == needle@,
            n == count(shown@, needle@, i as int),
            n <= shown@.len() - i,
        decreases i,
    {
        i = i - 1;
        if chat::is_at(shown, &sought, i) {
            n = n + 1;
        }
    }
    n
}

proof fn lemma_places_differ(shown: Seq<char>, from: int)
    ensures
        count(shown, FIRST_TEXT@, from) >= 0,
        count(shown, SECOND_TEXT@, from) >= 0,
        0 <= from <= shown.len() ==> count(shown, FIRST_TEXT@, from) + count(
            shown,
            SECOND_TEXT@,
            from,
        ) <= shown.len() - from,
    decreases shown.len() - from,
{
    if 0 <= from < shown.len() {
        lemma_places_differ(shown, from + 1);
        reveal_strlit("Sequence { id: A");
        reveal_strlit("Sequence { id: B");
        if chat::occurs_at(shown, FIRST_TEXT@, from) && chat::occurs_at(
            shown,
            SECOND_TEXT@,
            from,
        ) {
            assert(FIRST_TEXT@[15] == SECOND_TEXT@[15]);
        }
    }
}

/// A number, if there is one.
pub open spec fn number_of(n: Option<usize>) -> Option<int> {
    match n {
        Some(n) => Some(n as int),
        None => None,
    }
}

/// Number of texts that a template makes.
fn fill(step: &tokenizers::PostProcessorWrapper, texts: usize) -> (made: Option<usize>)
    ensures
        number_of(made) == filled(*step, texts as int),
{
    if texts == 1 {
        let single = without_quoted(template_of(step).as_str());
        if count_of(&single, SECOND_TEXT) == 0 {
            Some(count_of(&single, FIRST_TEXT))
        } else {
            None
        }
    } else if texts == 2 {
        let pair = without_quoted(pair_template_of(step).as_str());
        let first: usize = count_of(&pair, FIRST_TEXT);
        let second: usize = count_of(&pair, SECOND_TEXT);
        let length: usize = pair.len();
        proof {
            lemma_places_differ(pair@, 0);
            assert(first + second <= length);
        }
        Some(first + second)
    } else {
        None
    }
}

proof fn lemma_unfinished_list_stays_unfinished(
    list: Seq<tokenizers::PostProcessorWrapper>,
    n: nat,
    m: nat,
    texts: int,
    levels: nat,
)
    requires
        n <= m,
        processed_by_list(list, n, texts, levels) is None,
    ensures
        processed_by_list(list, m, texts, levels) is None,
    decreases m,
{
    if n < m {
        lemma_unfinished_list_stays_unfinished(list, n, (m - 1) as nat, texts, levels);
    }
}

/// Number of texts that a post-processor makes.
fn process(step: &tokenizers::PostProcessorWrapper, texts: usize, levels: usize) -> (made: Option<
    usize,
>)
    ensures
        number_of(made) == processed(*step, texts as int, levels as nat),
    decreases levels,
{
    match kind_of_processor(step) {
        ProcessorKind::Template => fill(step, texts),
        ProcessorKind::Sequence => {
            if levels == 0 {
                return None;
            }
            let mut now: usize = texts;
            let mut i: usize = 0;
            let ghost parts = processor_parts(*step);
            loop
                invariant
                    levels > 0,
                    parts == processor_parts(*step),
                    processor_kind(*step) == ProcessorKind::Sequence,
                    i <= parts.len(),
                    processed_by_list(parts, i as nat, texts as int, (levels - 1) as nat) == Some(
                        now as int,
                    ),
                ensures
                    i == parts.len(),
                decreases parts.len() - i,
            {
                match part_of_processor(step, i) {
                    Some(part) => {
                        let next = process(part, now, levels - 1);
                        assert(number_of(next) == processed_by_list(
                            parts,
                            (i + 1) as nat,
                            texts as int,
                            (levels - 1) as nat,
                        ));
                        match next {
                            Some(next) => {
                                now = next;
                            },
                            None => {
                                proof {
                                    lemma_unfinished_list_stays_unfinished(
                                        parts,
                                        (i + 1) as nat,
                                        parts.len(),
                                        texts as int,
                                        (levels - 1) as nat,
                                    );
                                }
                                return None;
                            },
                        }
                        i = i + 1;
                    },
                    None => {
                        break;
                    },
                }
            }
            Some(now)
        },
        _ => Some(texts),
    }
}

/// Whether the edges of the added tokens meet well.
fn edges_are_well(tokenizer: &tokenizers::Tokenizer) -> (well: bool)
    ensures
        well == edges_meet(added_edges(*tokenizer)),
{
    let edges = edges_of(tokenizer);
    let mut before_alone: bool = false;
    let mut behind: bool = false;
    let mut i: usize = 0;
    while i < edges.len()
        invariant
            i <= edges@.len(),
            before_alone == exists|k: int| 0 <= k < i && #[trigger] edges@[k] == (true, false),
            behind == exists|k: int| 0 <= k < i && (#[trigger] edges@[k]).1,
        decreases edges.len() - i,
    {
        let (left, right) = edges[i];
        assert(edges@[i as int] == (left, right));
        if right {
            behind = true;
        } else if left {
            before_alone = true;
        }
        i = i + 1;
    }
    proof {
        let all = edges@.to_set();
        assert(all == added_edges(*tokenizer));
        assert(before_alone == all.contains((true, false)));
        if behind {
            let k = choose|k: int| 0 <= k < i && (#[trigger] edges@[k]).1;
            assert(all.contains(edges@[k]));
            assert(edges@[k] == (true, true) || edges@[k] == (false, true));
        }
        if all.contains((true, true)) {
            let k = edges@.index_of((true, true));
            assert(edges@.contains((true, true)));
            assert(edges@[k].1);
        }
        if all.contains((false, true)) {
            let k = edges@.index_of((false, true));
            assert(edges@.contains((false, true)));
            assert(edges@[k].1);
        }
    }
    !(before_alone && behind)
}

/// Whether the settings of a tokenizer take every text.
pub fn can_encode(tokenizer: &tokenizers::Tokenizer) -> (can: bool)
    ensures
        can == encodable(*tokenizer),
{
    let most: usize = isize::MAX as usize / 96;
    let cuts: bool = match truncation_of(tokenizer) {
        Some((most, overlap)) => most == 0 || overlap < most,
        None => true,
    };
    let fills: bool = match padding_of(tokenizer) {
        Some((fixed, multiple)) => {
            (match fixed {
                Some(length) => length <= most,
                None => true,
            }) && (match multiple {
                Some(length) => length <= most,
                None => true,
            })
        },
        None => true,
    };
    if !cuts || !fills || !edges_are_well(tokenizer) {
        return false;
    }
    let pieces = pieces_of(tokenizer, PROBE);
    if pieces.len() != 1 || pieces[0] {
        assert(pieces@ != seq![false]) by {
            assert(seq![false].len() == 1 && !seq![false][0]);
        }
        return false;
    }
    assert(pieces@ == seq![false]);
    let rooted = match normalizer_of(tokenizer) {
        Some(step) => root(step, true, LEVELS),
        None => Some(true),
    };
    let rooted: bool = match rooted {
        Some(rooted) => rooted,
        None => {
            return false;
        },
    };
    let splits: bool = match split_of(tokenizer) {
        Some(step) => can_split(step, rooted, LEVELS),
        None => true,
    };
    let processes: bool = match processor_of(tokenizer) {
        Some(step) => process(step, 1, LEVELS).is_some(),
        None => true,
    };
    splits && processes
}

/// Whether a tokenizer leaves nothing to chance.
pub fn leaves_nothing_to_chance(tokenizer: &tokenizers::Tokenizer) -> (settled: bool)
    ensures
        settled == is_settled(*tokenizer),
{
    match dropout_of(tokenizer) {
        Some(rate) => rate == 0 || rate == 0x8000_0000,
        None => true,
    }
}

proof fn lemma_unquoted_behind(before: Seq<char>, shown: Seq<char>, from: int, quoted: bool)
    requires
        0 <= from,
    ensures
        unquoted(before + shown, before.len() + from, quoted) == unquoted(shown, from, quoted),
    decreases shown.len() + 1 - from,
{
    let whole = before + shown;
    if from < shown.len() {
        assert(whole[before.len() + from] == shown[from]);
        if quoted && shown[from] == '\\' {
            lemma_unquoted_behind(before, shown, from + 2, quoted);
        } else if shown[from] == '"' {
            lemma_unquoted_behind(before, shown, from + 1, !quoted);
        } else {
            lemma_unquoted_behind(before, shown, from + 1, quoted);
        }
    }
}

/// Quotation marks open and close, and between them a backslash guards the character behind
/// it; what stands outside is kept, character by character.
pub proof fn law_quoted_texts_are_left_out(c: char, shown: Seq<char>)
    ensures
        c != '"' ==> unquoted(seq![c] + shown, 0, false) == seq![c] + unquoted(shown, 0, false),
        unquoted(seq!['"'] + shown, 0, false) == unquoted(shown, 0, true),
        unquoted(seq!['"'] + shown, 0, true) == unquoted(shown, 0, false),
        c != '"' && c != '\\' ==> unquoted(seq![c] + shown, 0, true) == unquoted(shown, 0, true),
        unquoted(seq!['\\', c] + shown, 0, true) == unquoted(shown, 0, true),
        unquoted(Seq::empty(), 0, false) == Seq::<char>::empty(),
{
    assert((seq![c] + shown)[0] == c);
    assert((seq!['"'] + shown)[0] == '"');
    assert((seq!['\\', c] + shown)[0] == '\\');
    lemma_unquoted_behind(seq![c], shown, 0, false);
    lemma_unquoted_behind(seq![c], shown, 0, true);
    lemma_unquoted_behind(seq!['"'], shown, 0, false);
    lemma_unquoted_behind(seq!['"'], shown, 0, true);
    lemma_unquoted_behind(seq!['\\', c], shown, 0, true);
}

/// Every place of a text counts once.
pub proof fn law_places_are_counted(shown: Seq<char>, needle: Seq<char>, from: int)
    requires
        0 <= from <= shown.len(),
    ensures
        0 <= count(shown, needle, from) <= shown.len() - from,
        from < shown.len() && chat::occurs_at(shown, needle, from) ==> count(shown, needle, from)
            == 1 + count(shown, needle, from + 1),
        from < shown.len() && !chat::occurs_at(shown, needle, from) ==> count(shown, needle, from)
            == count(shown, needle, from + 1),
        count(shown, needle, from) == 0 <==> forall|at: int|
            from <= at < shown.len() ==> !(#[trigger] chat::occurs_at(shown, needle, at)),
    decreases shown.len() - from,
{
    if from < shown.len() {
        law_places_are_counted(shown, needle, from + 1);
        if count(shown, needle, from) == 0 {
            assert forall|at: int| from <= at < shown.len() implies !(#[trigger] chat::occurs_at(
                shown,
                needle,
                at,
            )) by {
                if at > from {
                    assert(count(shown, needle, from + 1) == 0);
                }
            }
        } else {
            if forall|at: int|
                from <= at < shown.len() ==> !(#[trigger] chat::occurs_at(shown, needle, at)) {
                assert(!chat::occurs_at(shown, needle, from));
                assert(count(shown, needle, from + 1) == 0);
            }
        }
    }
}

/// Long texts are cut into parts that overlap by less than their length, texts are filled up
/// to no more tokens than fit, and a tokenizer that does neither takes every length.
pub proof fn law_lengths_are_bounded(most: usize, overlap: usize, length: usize)
    ensures
        cuts_well(None),
        cuts_well(Some((0usize, overlap))),
        most > 0 ==> (cuts_well(Some((most, overlap))) <==> overlap < most),
        fills_well(None),
        fills_well(Some((None, None))),
        fills_well(Some((Some(length), None))) <==> length <= isize::MAX / 96,
        fills_well(Some((None, Some(length)))) <==> length <= isize::MAX / 96,
{
}

/// A tokenizer leaves nothing to chance where it has no rate of merges to leave out, or a
/// rate of zero of either sign.
pub proof fn law_chance_needs_a_rate(tokenizer: tokenizers::Tokenizer)
    ensures
        tokenizer_dropout(tokenizer) is None ==> is_settled(tokenizer),
        tokenizer_dropout(tokenizer) == Some(0u32) ==> is_settled(tokenizer),
        tokenizer_dropout(tokenizer) == Some(0x8000_0000u32) ==> is_settled(tokenizer),
        tokenizer_dropout(tokenizer) matches Some(rate) ==> rate != 0 && rate != 0x8000_0000
            ==> !is_settled(tokenizer),
{
}

} // verus!
