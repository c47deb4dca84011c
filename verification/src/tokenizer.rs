//! Tokenizers of the `tokenizers` crate: the tokens they join to a text.

use crate::spotting;
use crate::text;
use tokenizers::{Decoder, DecoderWrapper};
use vstd::prelude::*;
use vstd::string::*;

verus! {

/// A tokenizer.
#[verifier::external_type_specification]
#[verifier::external_body]
pub struct ExTokenizer(tokenizers::Tokenizer);

/// A decoder.
#[verifier::external_type_specification]
#[verifier::external_body]
pub struct ExDecoderWrapper(tokenizers::DecoderWrapper);

/// What a decoder does.
#[derive(Clone, Copy, Debug)]
pub enum DecoderKind {
    Pairs,
    ByteLevel,
    WordPiece,
    Metaspace,
    Ctc,
    Sequence,
    Replace,
    Fuse,
    /// Takes up to `start` and `stop` copies of a character off the ends of a token.
    Strip { content: char, start: usize, stop: usize },
    ByteFallback,
}

/// The decoder of a tokenizer, if it has one.
pub uninterp spec fn tokenizer_decoder(tokenizer: tokenizers::Tokenizer) -> Seq<
    tokenizers::DecoderWrapper,
>;

/// `tokenizers::Tokenizer::get_decoder`: the decoder, or none.
#[verifier::external_body]
fn decoder_of(tokenizer: &tokenizers::Tokenizer) -> (decoders: Vec<tokenizers::DecoderWrapper>)
    ensures
        decoders@ == tokenizer_decoder(*tokenizer),
{
    tokenizer.get_decoder().cloned().into_iter().collect()
}

/// What a decoder does.
pub uninterp spec fn decoder_kind(decoder: tokenizers::DecoderWrapper) -> DecoderKind;

/// The variants of `tokenizers::DecoderWrapper`, with the public fields of
/// `decoders::strip::Strip`.
#[verifier::external_body]
fn kind_of_decoder(decoder: &tokenizers::DecoderWrapper) -> (kind: DecoderKind)
    ensures
        kind == decoder_kind(*decoder),
{
    match decoder {
        DecoderWrapper::BPE(_) => DecoderKind::Pairs,
        DecoderWrapper::ByteLevel(_) => DecoderKind::ByteLevel,
        DecoderWrapper::WordPiece(_) => DecoderKind::WordPiece,
        DecoderWrapper::Metaspace(_) => DecoderKind::Metaspace,
        DecoderWrapper::CTC(_) => DecoderKind::Ctc,
        DecoderWrapper::Sequence(_) => DecoderKind::Sequence,
        DecoderWrapper::Replace(_) => DecoderKind::Replace,
        DecoderWrapper::Fuse(_) => DecoderKind::Fuse,
        DecoderWrapper::Strip(s) =>
            DecoderKind::Strip { content: s.content, start: s.start, stop: s.stop },
        DecoderWrapper::ByteFallback(_) => DecoderKind::ByteFallback,
    }
}

/// The decoders that a list of decoders runs in turn; any other decoder alone.
pub uninterp spec fn decoder_parts(decoder: tokenizers::DecoderWrapper) -> Seq<
    tokenizers::DecoderWrapper,
>;

/// `decoders::sequence::Sequence::get_decoders`: the list, and a decoder that is no
/// list as it is.
#[verifier::external_body]
fn parts_of_decoder(decoder: &tokenizers::DecoderWrapper) -> (parts: Vec<
    tokenizers::DecoderWrapper,
>)
    ensures
        parts@ == decoder_parts(*decoder),
        !(decoder_kind(*decoder) is Sequence) ==> parts@ == seq![*decoder],
{
    match decoder {
        DecoderWrapper::Sequence(list) => list.get_decoders().to_vec(),
        other => vec![other.clone()],
    }
}

/// A decoder as `Debug` shows it: one that replaces ends with its expression.
pub uninterp spec fn shown_decoder(decoder: tokenizers::DecoderWrapper) -> Seq<char>;

/// `Debug` of a `tokenizers::DecoderWrapper`: a function of the decoder.
#[verifier::external_body]
fn show_decoder(decoder: &tokenizers::DecoderWrapper) -> (shown: String)
    ensures
        shown@ == shown_decoder(*decoder),
{
    format!("{:?}", decoder)
}

/// Whether an escaped `K` stands in an expression from `from` on. It moves the start
/// of a match, and a match may then end before it starts or overlap the one before.
pub open spec fn moves_start(shown: Seq<char>, from: int) -> bool
    decreases shown.len() - from,
{
    if from < 0 || from + 1 >= shown.len() {
        false
    } else if shown[from] == '\\' {
        shown[from + 1] == 'K' || moves_start(shown, from + 2)
    } else {
        moves_start(shown, from + 1)
    }
}

/// Whether an escaped `K` stands in an expression.
pub fn start_moves(shown: &str) -> (moves: bool)
    ensures
        moves == moves_start(shown@, 0),
{
    let chars = text::chars_of(shown);
    let mut i: usize = 0;
    while i < chars.len() && chars.len() - i > 1
        invariant
            i <= chars@.len(),
            chars@ == shown@,
            moves_start(shown@, 0) == moves_start(shown@, i as int),
        decreases chars.len() - i,
    {
        if chars[i] == '\\' {
            if chars[i + 1] == 'K' {
                return true;
            }
            i = i + 2;
        } else {
            i = i + 1;
        }
    }
    false
}

/// The text of a token, if the tokenizer knows its number.
pub uninterp spec fn token_text(tokenizer: tokenizers::Tokenizer, id: u32) -> Option<Seq<char>>;

/// `tokenizers::Tokenizer::id_to_token`: a function of the tokenizer and the number.
#[verifier::external_body]
fn text_of_token(tokenizer: &tokenizers::Tokenizer, id: u32) -> (token: Option<String>)
    ensures
        spotting::text_of(token) == token_text(*tokenizer, id),
{
    tokenizer.id_to_token(id)
}

/// Whether a strip decoder finds its way through a token: in one that consists of
/// the stripped character alone, the two cuts must not meet.
pub open spec fn strips(content: char, start: usize, stop: usize, token: Seq<char>) -> bool {
    stop == 0 || start + stop <= token.len() || exists|i: int|
        0 <= i < token.len() && #[trigger] token[i] != content
}

/// Whether a single decoder takes a list of tokens: joining pairs needs a token,
/// replacing needs matches that end behind their start, and stripping needs room in
/// every token.
pub open spec fn takes(kind: DecoderKind, shown: Seq<char>, tokens: Seq<Seq<char>>) -> bool {
    match kind {
        DecoderKind::Sequence => false,
        DecoderKind::Pairs => tokens.len() > 0,
        DecoderKind::Replace => !moves_start(shown, 0),
        DecoderKind::Strip { content, start, stop } => forall|i: int|
            0 <= i < tokens.len() ==> strips(content, start, stop, #[trigger] tokens[i]),
        _ => true,
    }
}

/// The tokens that a decoder makes of a list of tokens, if it makes them.
pub uninterp spec fn decoded_tokens(
    decoder: tokenizers::DecoderWrapper,
    tokens: Seq<Seq<char>>,
) -> Option<Seq<Seq<char>>>;

/// The texts of a list, if there is one.
pub open spec fn list_of(list: Option<Vec<String>>) -> Option<Seq<Seq<char>>> {
    match list {
        Some(tokens) => Some(text::texts_of(tokens@)),
        None => None,
    }
}

/// `tokenizers::Decoder::decode_chain` of a decoder that is no list: a function of
/// the decoder and the tokens.
#[verifier::external_body]
fn run_decoder(decoder: &tokenizers::DecoderWrapper, tokens: Vec<String>) -> (next: Option<
    Vec<String>,
>)
    requires
        takes(decoder_kind(*decoder), shown_decoder(*decoder), text::texts_of(tokens@)),
    ensures
        list_of(next) == decoded_tokens(*decoder, text::texts_of(tokens@)),
{
    decoder.decode_chain(tokens).ok()
}

/// The parts of every decoder of a list, in order.
pub open spec fn opened(list: Seq<tokenizers::DecoderWrapper>) -> Seq<tokenizers::DecoderWrapper>
    decreases list.len(),
{
    if list.len() == 0 {
        Seq::empty()
    } else {
        opened(list.drop_last()) + decoder_parts(list.last())
    }
}

/// A list of decoders with the lists in it opened `n` times.
pub open spec fn flattened(list: Seq<tokenizers::DecoderWrapper>, n: nat) -> Seq<
    tokenizers::DecoderWrapper,
>
    decreases n,
{
    if n == 0 {
        list
    } else {
        opened(flattened(list, (n - 1) as nat))
    }
}

/// Lists of decoders in lists are opened so many times, more than a file can nest.
pub const LEVELS: usize = 128;

/// Whether decoders that run one after the other take a list of tokens.
pub open spec fn pass(steps: Seq<tokenizers::DecoderWrapper>, tokens: Seq<Seq<char>>) -> bool
    decreases steps.len(),
{
    steps.len() == 0 || {
        &&& takes(decoder_kind(steps[0]), shown_decoder(steps[0]), tokens)
        &&& match decoded_tokens(steps[0], tokens) {
            Some(next) => pass(steps.drop_first(), next),
            None => true,
        }
    }
}

/// The texts of the first `n` numbers that the tokenizer knows.
pub open spec fn known(tokenizer: tokenizers::Tokenizer, ids: Seq<u32>, n: int) -> Seq<Seq<char>>
    decreases n,
{
    if n <= 0 {
        Seq::empty()
    } else {
        let before = known(tokenizer, ids, n - 1);
        match token_text(tokenizer, ids[n - 1]) {
            Some(token) => before.push(token),
            None => before,
        }
    }
}

/// Whether the decoder of a tokenizer takes the tokens of these numbers.
pub open spec fn decodable(tokenizer: tokenizers::Tokenizer, ids: Seq<u32>) -> bool {
    pass(
        flattened(tokenizer_decoder(tokenizer), LEVELS as nat),
        known(tokenizer, ids, ids.len() as int),
    )
}

/// The text that a tokenizer makes of token numbers, special tokens among them,
/// if it makes one.
pub uninterp spec fn decoded_text(tokenizer: tokenizers::Tokenizer, ids: Seq<u32>) -> Option<
    Seq<char>,
>;

/// `tokenizers::Tokenizer::decode` with special tokens kept: a function of the
/// tokenizer and the token numbers. It runs the decoders on the tokens that the
/// tokenizer knows.
#[verifier::external_body]
pub(crate) fn decode_ids(tokenizer: &tokenizers::Tokenizer, ids: &Vec<u32>) -> (text: Option<
    String,
>)
    requires
        decodable(*tokenizer, ids@),
    ensures
        spotting::text_of(text) == decoded_text(*tokenizer, ids@),
{
    tokenizer.decode(ids, false).ok()
}

proof fn lemma_flat_opens_to_itself(list: Seq<tokenizers::DecoderWrapper>)
    requires
        forall|i: int| 0 <= i < list.len() ==> decoder_parts(#[trigger] list[i]) == seq![list[i]],
    ensures
        opened(list) == list,
    decreases list.len(),
{
    if list.len() > 0 {
        assert forall|i: int| 0 <= i < list.len() - 1 implies decoder_parts(
            #[trigger] list.drop_last()[i],
        ) == seq![list.drop_last()[i]] by {
            assert(list.drop_last()[i] == list[i]);
        }
        lemma_flat_opens_to_itself(list.drop_last());
        assert(decoder_parts(list[list.len() - 1]) == seq![list.last()]);
        assert(list.drop_last() + seq![list.last()] == list);
    } else {
        assert(opened(list) == list);
    }
}

proof fn lemma_flat_stays(list: Seq<tokenizers::DecoderWrapper>, n: nat, m: nat)
    requires
        n <= m,
        opened(flattened(list, n)) == flattened(list, n),
    ensures
        flattened(list, m) == flattened(list, n),
    decreases m,
{
    if n < m {
        lemma_flat_stays(list, n, (m - 1) as nat);
    }
}

/// Opens the lists in a list of decoders once.
fn open_lists(list: &Vec<tokenizers::DecoderWrapper>) -> (next: Vec<tokenizers::DecoderWrapper>)
    ensures
        next@ == opened(list@),
        forall|i: int|
            0 <= i < list@.len() && !(decoder_kind(list@[i]) is Sequence) ==> decoder_parts(
                #[trigger] list@[i],
            ) == seq![list@[i]],
{
    let mut next: Vec<tokenizers::DecoderWrapper> = Vec::new();
    let mut i: usize = 0;
    assert(list@.take(0) == Seq::<tokenizers::DecoderWrapper>::empty());
    while i < list.len()
        invariant
            i <= list@.len(),
            next@ == opened(list@.take(i as int)),
            forall|k: int|
                0 <= k < i && !(decoder_kind(list@[k]) is Sequence) ==> decoder_parts(
                    #[trigger] list@[k],
                ) == seq![list@[k]],
        decreases list.len() - i,
    {
        let mut parts = parts_of_decoder(&list[i]);
        next.append(&mut parts);
        i = i + 1;
        assert(list@.take(i as int).drop_last() == list@.take(i as int - 1));
        assert(list@.take(i as int).last() == list@[i - 1]);
    }
    assert(list@.take(i as int) == list@);
    next
}

/// Whether a list of decoders holds a list.
fn holds_list(list: &Vec<tokenizers::DecoderWrapper>) -> (holds: bool)
    ensures
        !holds ==> forall|i: int|
            0 <= i < list@.len() ==> !(decoder_kind(#[trigger] list@[i]) is Sequence),
{
    let mut i: usize = 0;
    while i < list.len()
        invariant
            i <= list@.len(),
            forall|k: int| 0 <= k < i ==> !(decoder_kind(#[trigger] list@[k]) is Sequence),
        decreases list.len() - i,
    {
        match kind_of_decoder(&list[i]) {
            DecoderKind::Sequence => {
                return true;
            },
            _ => {},
        }
        i = i + 1;
    }
    false
}

/// The decoders of a tokenizer in the order in which they run.
fn decoder_steps(tokenizer: &tokenizers::Tokenizer) -> (steps: Vec<tokenizers::DecoderWrapper>)
    ensures
        steps@ == flattened(tokenizer_decoder(*tokenizer), LEVELS as nat),
{
    let mut steps = decoder_of(tokenizer);
    let mut n: usize = 0;
    while n < LEVELS
        invariant
            n <= LEVELS,
            steps@ == flattened(tokenizer_decoder(*tokenizer), n as nat),
        decreases LEVELS - n,
    {
        let more = holds_list(&steps);
        let next = open_lists(&steps);
        if !more {
            proof {
                lemma_flat_opens_to_itself(steps@);
                lemma_flat_stays(tokenizer_decoder(*tokenizer), n as nat, LEVELS as nat);
            }
            return steps;
        }
        steps = next;
        n = n + 1;
    }
    steps
}

/// The texts of the token numbers that a tokenizer knows.
fn known_tokens(tokenizer: &tokenizers::Tokenizer, ids: &Vec<u32>) -> (tokens: Vec<String>)
    ensures
        text::texts_of(tokens@) == known(*tokenizer, ids@, ids@.len() as int),
{
    let mut tokens: Vec<String> = Vec::new();
    let mut i: usize = 0;
    assert(text::texts_of(tokens@) == Seq::<Seq<char>>::empty());
    while i < ids.len()
        invariant
            i <= ids@.len(),
            text::texts_of(tokens@) == known(*tokenizer, ids@, i as int),
        decreases ids.len() - i,
    {
        let ghost before = tokens@;
        match text_of_token(tokenizer, ids[i]) {
            Some(token) => {
                let ghost said = token@;
                tokens.push(token);
                assert(text::texts_of(tokens@) == text::texts_of(before).push(said));
            },
            None => {},
        }
        i = i + 1;
    }
    tokens
}

/// Whether a strip decoder finds its way through a token.
fn can_strip(content: char, start: usize, stop: usize, token: &str) -> (can: bool)
    ensures
        can == strips(content, start, stop, token@),
{
    let chars = text::chars_of(token);
    let length: usize = chars.len();
    if stop == 0 || (start <= length && stop <= length - start) {
        return true;
    }
    let mut i: usize = 0;
    while i < length
        invariant
            i <= length == chars@.len(),
            chars@ == token@,
            forall|k: int| 0 <= k < i ==> chars@[k] == content,
        decreases length - i,
    {
        if chars[i] != content {
            assert(token@[i as int] != content);
            return true;
        }
        i = i + 1;
    }
    false
}

/// Whether a single decoder takes a list of tokens.
fn can_take(kind: DecoderKind, shown: &str, tokens: &Vec<String>) -> (can: bool)
    ensures
        can == takes(kind, shown@, text::texts_of(tokens@)),
{
    match kind {
        DecoderKind::Sequence => false,
        DecoderKind::Pairs => tokens.len() > 0,
        DecoderKind::Replace => !start_moves(shown),
        DecoderKind::Strip { content, start, stop } => {
            let mut i: usize = 0;
            while i < tokens.len()
                invariant
                    i <= tokens@.len(),
                    kind == (DecoderKind::Strip { content, start, stop }),
                    forall|k: int|
                        0 <= k < i ==> strips(
                            content,
                            start,
                            stop,
                            #[trigger] text::texts_of(tokens@)[k],
                        ),
                decreases tokens.len() - i,
            {
                assert(text::texts_of(tokens@)[i as int] == tokens@[i as int]@);
                if !can_strip(content, start, stop, tokens[i].as_str()) {
                    assert(!strips(content, start, stop, text::texts_of(tokens@)[i as int]));
                    return false;
                }
                i = i + 1;
            }
            true
        },
        _ => true,
    }
}

/// Whether the decoder of a tokenizer takes the tokens of these numbers.
pub fn can_decode(tokenizer: &tokenizers::Tokenizer, ids: &Vec<u32>) -> (can: bool)
    ensures
        can == decodable(*tokenizer, ids@),
{
    let steps = decoder_steps(tokenizer);
    let mut tokens = known_tokens(tokenizer, ids);
    let mut i: usize = 0;
    assert(steps@.skip(0) == steps@);
    while i < steps.len()
        invariant
            i <= steps@.len(),
            steps@ == flattened(tokenizer_decoder(*tokenizer), LEVELS as nat),
            decodable(*tokenizer, ids@) == pass(steps@.skip(i as int), text::texts_of(tokens@)),
        decreases steps.len() - i,
    {
        assert(steps@.skip(i as int)[0] == steps@[i as int]);
        assert(steps@.skip(i as int).drop_first() == steps@.skip(i + 1));
        let shown = show_decoder(&steps[i]);
        if !can_take(kind_of_decoder(&steps[i]), shown.as_str(), &tokens) {
            return false;
        }
        match run_decoder(&steps[i], tokens) {
            Some(next) => {
                tokens = next;
            },
            None => {
                return true;
            },
        }
        i = i + 1;
    }
    true
}

proof fn lemma_moves_behind(before: Seq<char>, shown: Seq<char>, from: int)
    requires
        0 <= from,
    ensures
        moves_start(before + shown, before.len() + from) == moves_start(shown, from),
    decreases shown.len() - from,
{
    let whole = before + shown;
    if from + 1 < shown.len() {
        assert(whole[before.len() + from] == shown[from]);
        assert(whole[before.len() + from + 1] == shown[from + 1]);
        if shown[from] == '\\' {
            lemma_moves_behind(before, shown, from + 2);
        } else {
            lemma_moves_behind(before, shown, from + 1);
        }
    }
}

/// A backslash guards the character behind it: an expression moves the start of a match
/// where the guarded character is a `K`, and neither what stands alone nor another guarded
/// character has to do with it.
pub proof fn law_backslashes_guard_one_character(c: char, shown: Seq<char>)
    ensures
        moves_start(seq!['\\', 'K'] + shown, 0),
        c != 'K' ==> moves_start(seq!['\\', c] + shown, 0) == moves_start(shown, 0),
        c != '\\' ==> moves_start(seq![c] + shown, 0) == moves_start(shown, 0),
        !moves_start(Seq::empty(), 0),
        !moves_start(seq![c], 0),
{
    let moved = seq!['\\', 'K'] + shown;
    assert(moved[0] == '\\' && moved[1] == 'K');
    let guarded = seq!['\\', c] + shown;
    assert(guarded[0] == '\\' && guarded[1] == c);
    lemma_moves_behind(seq!['\\', c], shown, 0);
    let plain = seq![c] + shown;
    assert(plain[0] == c);
    lemma_moves_behind(seq![c], shown, 0);
    if shown.len() == 0 {
        assert(!moves_start(shown, 0));
    }
}

/// Decoders in lists run one after the other, list after list.
pub proof fn law_lists_are_opened_in_order(
    first: Seq<tokenizers::DecoderWrapper>,
    second: Seq<tokenizers::DecoderWrapper>,
    decoder: tokenizers::DecoderWrapper,
)
    ensures
        opened(Seq::empty()) == Seq::<tokenizers::DecoderWrapper>::empty(),
        opened(seq![decoder]) == decoder_parts(decoder),
        opened(first + second) == opened(first) + opened(second),
    decreases second.len(),
{
    assert(seq![decoder].drop_last() == Seq::<tokenizers::DecoderWrapper>::empty());
    reveal_with_fuel(opened, 2);
    assert(Seq::<tokenizers::DecoderWrapper>::empty() + decoder_parts(decoder) == decoder_parts(
        decoder,
    ));
    if second.len() == 0 {
        assert(first + second == first);
        assert(opened(first) + opened(second) == opened(first));
    } else {
        law_lists_are_opened_in_order(first, second.drop_last(), decoder);
        assert((first + second).drop_last() == first + second.drop_last());
        assert((first + second).last() == second.last());
        assert(opened(first) + opened(second.drop_last()) + decoder_parts(second.last()) == opened(
            first,
        ) + (opened(second.drop_last()) + decoder_parts(second.last())));
    }
}

/// Numbers that a tokenizer does not know are left out, and the texts of all others follow
/// each other.
pub proof fn law_unknown_numbers_are_left_out(
    tokenizer: tokenizers::Tokenizer,
    ids: Seq<u32>,
    id: u32,
)
    ensures
        ({
            let before = known(tokenizer, ids, ids.len() as int);
            let after = known(tokenizer, ids.push(id), ids.len() as int + 1);
            &&& known(tokenizer, Seq::empty(), 0).len() == 0
            &&& token_text(tokenizer, id) is None ==> after == before
            &&& token_text(tokenizer, id) matches Some(token) ==> after == before.push(token)
        }),
{
    lemma_known_prefix(tokenizer, ids, id, ids.len() as int);
}

proof fn lemma_known_prefix(
    tokenizer: tokenizers::Tokenizer,
    ids: Seq<u32>,
    id: u32,
    n: int,
)
    requires
        0 <= n <= ids.len(),
    ensures
        known(tokenizer, ids.push(id), n) == known(tokenizer, ids, n),
    decreases n,
{
    if n > 0 {
        lemma_known_prefix(tokenizer, ids, id, n - 1);
        assert(ids.push(id)[n - 1] == ids[n - 1]);
    }
}

/// Copies of the stripped character can be cut off where the cuts do not meet, and a token
/// with any other character in it always can be.
pub proof fn law_cuts_must_not_meet(content: char, start: usize, stop: usize, token: Seq<char>)
    ensures
        (exists|i: int| 0 <= i < token.len() && #[trigger] token[i] != content) ==> strips(
            content,
            start,
            stop,
            token,
        ),
        (forall|i: int| 0 <= i < token.len() ==> #[trigger] token[i] == content) ==> (strips(
            content,
            start,
            stop,
            token,
        ) <==> stop == 0 || start + stop <= token.len()),
{
}

/// Joining pairs needs a token, and lists are opened before they run; most decoders take
/// everything.
pub proof fn law_decoders_take_tokens(
    kind: DecoderKind,
    shown: Seq<char>,
    tokens: Seq<Seq<char>>,
    token: Seq<char>,
)
    ensures
        !takes(DecoderKind::Pairs, shown, Seq::empty()),
        takes(DecoderKind::Pairs, shown, tokens.push(token)),
        !takes(DecoderKind::Sequence, shown, tokens),
        takes(DecoderKind::Replace, shown, tokens) == !moves_start(shown, 0),
        kind is ByteLevel || kind is WordPiece || kind is Metaspace || kind is Ctc || kind is Fuse
            || kind is ByteFallback ==> takes(kind, shown, tokens),
        kind matches DecoderKind::Strip { content, start, stop } ==> (takes(
            kind,
            shown,
            tokens.push(token),
        ) <==> takes(kind, shown, tokens) && strips(content, start, stop, token)),
{
    if kind is Strip {
        let more = tokens.push(token);
        assert(more[tokens.len() as int] == token);
        assert forall|i: int| 0 <= i < tokens.len() implies #[trigger] tokens[i] == more[i] by {}
        assert forall|i: int| 0 <= i < more.len() implies #[trigger] more[i] == if i
            < tokens.len() {
            tokens[i]
        } else {
            token
        } by {}
    }
}

} // verus!
