//! The prompt of the recognizer: chat template and image placeholders.

use crate::config;
use crate::config::PaddleOcrCfg;
use crate::text;
use vstd::prelude::*;
use vstd::string::*;

verus! {

/// One piece of a message.
pub enum Content<'a> {
    Text(&'a str),
    Image(&'a image::DynamicImage),
}

/// A message of one of the roles `user`, `assistant` and `system`.
pub struct Message<'a> {
    pub role: &'a str,
    pub content: Vec<Content<'a>>,
}

pub open spec fn is_role(role: Seq<char>) -> bool {
    role == "user"@ || role == "assistant"@ || role == "system"@
}

/// What stands in the prompt for every image.
pub open spec fn image_slot() -> Seq<char> {
    config::IMAGE_START_TOKEN@ + config::IMAGE_PLACEHOLDER_TOKEN@ + config::IMAGE_END_TOKEN@
}

/// One slot for every image of a message.
pub open spec fn image_slots(content: Seq<Content>) -> Seq<char>
    decreases content.len(),
{
    if content.len() == 0 {
        Seq::empty()
    } else {
        image_slots(content.drop_last()) + match content.last() {
            Content::Image(_) => image_slot(),
            Content::Text(_) => Seq::empty(),
        }
    }
}

/// The texts of a message, each with `ending` behind it.
pub open spec fn content_texts(content: Seq<Content>, ending: Seq<char>) -> Seq<char>
    decreases content.len(),
{
    if content.len() == 0 {
        Seq::empty()
    } else {
        content_texts(content.drop_last(), ending) + match content.last() {
            Content::Image(_) => Seq::empty(),
            Content::Text(t) => t@ + ending,
        }
    }
}

/// One message: images before texts for the user, texts between the prefix and
/// the end token for the assistant, one line for each text of the system.
pub open spec fn message_text(message: Message, cfg: PaddleOcrCfg) -> Seq<char> {
    let content = message.content@;
    if message.role@ == "user"@ {
        "User: "@ + image_slots(content) + content_texts(content, Seq::empty()) + seq!['\n']
    } else if message.role@ == "assistant"@ {
        cfg.assistant_prefix@ + content_texts(content, Seq::empty()) + cfg.eos_token@
    } else {
        content_texts(content, seq!['\n'])
    }
}

pub open spec fn messages_text(messages: Seq<Message>, cfg: PaddleOcrCfg) -> Seq<char>
    decreases messages.len(),
{
    if messages.len() == 0 {
        Seq::empty()
    } else {
        messages_text(messages.drop_last(), cfg) + message_text(messages.last(), cfg)
    }
}

/// The whole prompt.
pub open spec fn chat_text(
    messages: Seq<Message>,
    add_generation_prompt: bool,
    cfg: PaddleOcrCfg,
) -> Seq<char> {
    cfg.cls_token@ + messages_text(messages, cfg) + if add_generation_prompt {
        cfg.assistant_prefix@
    } else {
        Seq::empty()
    }
}

fn push_images(out: &mut String, content: &Vec<Content>)
    ensures
        final(out)@ == old(out)@ + image_slots(content@),
{
    let ghost before = out@;
    let mut i: usize = 0;
    while i < content.len()
        invariant
            i <= content@.len(),
            out@ == before + image_slots(content@.take(i as int)),
        decreases content.len() - i,
    {
        assert(content@.take(i as int + 1).drop_last() == content@.take(i as int));
        match &content[i] {
            Content::Image(_) => {
                out.append(config::IMAGE_START_TOKEN);
                out.append(config::IMAGE_PLACEHOLDER_TOKEN);
                out.append(config::IMAGE_END_TOKEN);
            },
            Content::Text(_) => {},
        }
        i = i + 1;
    }
    assert(content@.take(content@.len() as int) == content@);
}

fn push_texts(out: &mut String, content: &Vec<Content>, ending: &str)
    ensures
        final(out)@ == old(out)@ + content_texts(content@, ending@),
{
    let ghost before = out@;
    let mut i: usize = 0;
    while i < content.len()
        invariant
            i <= content@.len(),
            out@ == before + content_texts(content@.take(i as int), ending@),
        decreases content.len() - i,
    {
        assert(content@.take(i as int + 1).drop_last() == content@.take(i as int));
        match &content[i] {
            Content::Image(_) => {},
            Content::Text(t) => {
                out.append(t);
                out.append(ending);
            },
        }
        i = i + 1;
    }
    assert(content@.take(content@.len() as int) == content@);
}

/// Writes the messages as the chat template of the model does.
pub fn render_chat(messages: &[Message], add_generation_prompt: bool, cfg: &PaddleOcrCfg) -> (out:
    String)
    requires
        forall|i: int| 0 <= i < messages@.len() ==> is_role((#[trigger] messages@[i]).role@),
    ensures
        out@ == chat_text(messages@, add_generation_prompt, *cfg),
{
    let mut out = String::new();
    out.append(cfg.cls_token);
    proof {
        reveal_strlit("");
        reveal_strlit("\n");
        assert(""@ == Seq::<char>::empty());
        assert("\n"@ == seq!['\n']);
    }
    let mut i: usize = 0;
    assert(out@ == cfg.cls_token@ + messages_text(messages@.take(0), *cfg));
    while i < messages.len()
        invariant
            i <= messages@.len(),
            forall|j: int| 0 <= j < messages@.len() ==> is_role((#[trigger] messages@[j]).role@),
            out@ == cfg.cls_token@ + messages_text(messages@.take(i as int), *cfg),
            ""@ == Seq::<char>::empty(),
            "\n"@ == seq!['\n'],
        decreases messages.len() - i,
    {
        let message = &messages[i];
        let ghost before = out@;
        assert(messages@.take(i as int + 1).drop_last() == messages@.take(i as int));
        if text::same_text(message.role, "user") {
            out.append("User: ");
            push_images(&mut out, &message.content);
            push_texts(&mut out, &message.content, "");
            out.push('\n');
        } else if text::same_text(message.role, "assistant") {
            out.append(cfg.assistant_prefix);
            push_texts(&mut out, &message.content, "");
            out.append(cfg.eos_token);
        } else {
            push_texts(&mut out, &message.content, "\n");
        }
        assert(out@ == before + message_text(*message, *cfg));
        i = i + 1;
    }
    assert(messages@.take(messages@.len() as int) == messages@);
    if add_generation_prompt {
        out.append(cfg.assistant_prefix);
    }
    assert(out@ == chat_text(messages@, add_generation_prompt, *cfg));
    out
}

/// Whether `needle` stands in `text` at `at`.
pub open spec fn occurs_at(text: Seq<char>, needle: Seq<char>, at: int) -> bool {
    0 <= at && at + needle.len() <= text.len() && text.subrange(at, at + needle.len()) == needle
}

/// First place of `needle` in `text` from `from` on; the length of the text plus
/// one where it does not occur.
pub open spec fn first_place(text: Seq<char>, needle: Seq<char>, from: int) -> int
    decreases text.len() + 1 - from,
{
    if from > text.len() || occurs_at(text, needle, from) {
        from
    } else {
        first_place(text, needle, from + 1)
    }
}

/// `n` copies of `s` in a row.
pub open spec fn repeated(s: Seq<char>, n: nat) -> Seq<char>
    decreases n,
{
    if n == 0 {
        Seq::empty()
    } else {
        repeated(s, (n - 1) as nat) + s
    }
}

/// Number of tokens that the patches of an image become.
pub open spec fn merged_tokens(grid: [usize; 2], merge: usize) -> nat {
    (grid[0] * grid[1]) as nat / (merge * merge) as nat
}

/// `text` with its first placeholder repeated once for each token of the image,
/// or nothing where it holds none.
pub open spec fn expanded_once(
    text: Seq<char>,
    grid: [usize; 2],
    cfg: PaddleOcrCfg,
) -> Option<Seq<char>> {
    let token = cfg.image_token@;
    let at = first_place(text, token, 0);
    if at > text.len() {
        None
    } else {
        Some(
            text.take(at) + repeated(token, merged_tokens(grid, cfg.merge_size)) + text.skip(
                at + token.len(),
            ),
        )
    }
}

/// `text` expanded for the first `n` images, in order.
pub open spec fn expanded(
    text: Seq<char>,
    grids: Seq<[usize; 2]>,
    n: int,
    cfg: PaddleOcrCfg,
) -> Option<Seq<char>>
    decreases n,
{
    if n <= 0 {
        Some(text)
    } else {
        match expanded(text, grids, n - 1, cfg) {
            Some(t) => expanded_once(t, grids[n - 1], cfg),
            None => None,
        }
    }
}

/// Tokens of the first `n` images.
pub open spec fn image_tokens(grids: Seq<[usize; 2]>, n: int, merge: usize) -> int
    decreases n,
{
    if n <= 0 {
        0
    } else {
        image_tokens(grids, n - 1, merge) + merged_tokens(grids[n - 1], merge)
    }
}

proof fn lemma_repeated_len(s: Seq<char>, n: nat)
    ensures
        repeated(s, n).len() == n * s.len(),
    decreases n,
{
    if n > 0 {
        lemma_repeated_len(s, (n - 1) as nat);
        assert(n * s.len() == (n - 1) * s.len() + s.len()) by (nonlinear_arith);
    } else {
        assert(0 * s.len() == 0) by (nonlinear_arith);
    }
}

proof fn lemma_first_place(text: Seq<char>, needle: Seq<char>, from: int)
    requires
        first_place(text, needle, from) <= text.len(),
    ensures
        occurs_at(text, needle, first_place(text, needle, from)),
    decreases text.len() + 1 - from,
{
    if from <= text.len() && !occurs_at(text, needle, from) {
        lemma_first_place(text, needle, from + 1);
    }
}

/// Every image takes one placeholder and gives one for each of its tokens:
/// nothing else of the text comes or goes.
pub proof fn law_images_take_the_room_of_their_tokens(
    text: Seq<char>,
    grids: Seq<[usize; 2]>,
    n: int,
    cfg: PaddleOcrCfg,
)
    requires
        0 <= n <= grids.len(),
    ensures
        expanded(text, grids, n, cfg) matches Some(t) ==> t.len() == text.len() + (image_tokens(
            grids,
            n,
            cfg.merge_size,
        ) - n) * cfg.image_token@.len(),
    decreases n,
{
    let token = cfg.image_token@;
    let size = token.len() as int;
    if n > 0 {
        law_images_take_the_room_of_their_tokens(text, grids, n - 1, cfg);
        if let Some(t) = expanded(text, grids, n - 1, cfg) {
            let at = first_place(t, token, 0);
            if at <= t.len() {
                lemma_first_place(t, token, 0);
                let count = merged_tokens(grids[n - 1], cfg.merge_size);
                lemma_repeated_len(token, count);
                let before = image_tokens(grids, n - 1, cfg.merge_size) - (n - 1);
                assert((before + count - 1) * size == before * size + count * size - size)
                    by (nonlinear_arith);
            }
        }
    } else {
        assert((0 - 0) * size == 0) by (nonlinear_arith);
    }
}

pub(crate) fn is_at(chars: &Vec<char>, needle: &Vec<char>, at: usize) -> (there: bool)
    requires
        at <= chars@.len(),
    ensures
        there == occurs_at(chars@, needle@, at as int),
{
    let total: usize = chars.len();
    if needle.len() > total - at {
        return false;
    }
    let mut i: usize = 0;
    while i < needle.len()
        invariant
            i <= needle@.len(),
            at + needle@.len() <= chars@.len(),
            chars@.len() == total,
            forall|k: int| 0 <= k < i ==> chars@[at + k] == needle@[k],
        decreases needle.len() - i,
    {
        if chars[at + i] != needle[i] {
            assert(chars@.subrange(at as int, at + needle@.len())[i as int] != needle@[i as int]);
            return false;
        }
        i = i + 1;
    }
    assert(chars@.subrange(at as int, at + needle@.len()) == needle@);
    true
}

/// First place of `needle`, if it occurs.
pub(crate) fn find_text(chars: &Vec<char>, needle: &Vec<char>) -> (at: Option<usize>)
    ensures
        match at {
            Some(place) => place == first_place(chars@, needle@, 0) && occurs_at(
                chars@,
                needle@,
                place as int,
            ),
            None => first_place(chars@, needle@, 0) > chars@.len(),
        },
{
    let mut at: usize = 0;
    loop
        invariant
            at <= chars@.len(),
            first_place(chars@, needle@, 0) == first_place(chars@, needle@, at as int),
        decreases chars.len() - at,
    {
        if is_at(chars, needle, at) {
            return Some(at);
        }
        if at == chars.len() {
            assert(first_place(chars@, needle@, at as int) == first_place(
                chars@,
                needle@,
                at + 1,
            ));
            return None;
        }
        at = at + 1;
    }
}

/// Repeats the placeholder of every image once for each of its tokens. Every
/// image takes the first placeholder that stands in the text at its turn.
pub fn expand_image_placeholders(
    text: &str,
    image_grids: &[[usize; 2]],
    cfg: &PaddleOcrCfg,
) -> (out: Result<String, String>)
    requires
        image_grids@.len() > 0 ==> cfg.merge_size > 0 && cfg.merge_size * cfg.merge_size
            <= usize::MAX,
        forall|i: int|
            0 <= i < image_grids@.len() ==> (#[trigger] image_grids@[i])[0] * image_grids@[i][1]
                <= usize::MAX,
    ensures
        match expanded(text@, image_grids@, image_grids@.len() as int, *cfg) {
            Some(t) => out is Ok && out->Ok_0@ == t,
            None => out is Err && out->Err_0@ == "image placeholder count < image count"@,
        },
{
    let token = text::chars_of(cfg.image_token);
    let mut out = text.to_owned();
    let mut i: usize = 0;
    while i < image_grids.len()
        invariant
            i <= image_grids@.len(),
            token@ == cfg.image_token@,
            image_grids@.len() > 0 ==> cfg.merge_size > 0 && cfg.merge_size * cfg.merge_size
                <= usize::MAX,
            forall|j: int|
                0 <= j < image_grids@.len() ==> (#[trigger] image_grids@[j])[0]
                    * image_grids@[j][1] <= usize::MAX,
            expanded(text@, image_grids@, i as int, *cfg) == Some(out@),
        decreases image_grids.len() - i,
    {
        let grid: [usize; 2] = image_grids[i];
        assert(grid == image_grids@[i as int]);
        assert(cfg.merge_size * cfg.merge_size > 0) by (nonlinear_arith)
            requires
                cfg.merge_size > 0,
        ;
        let n: usize = grid[0] * grid[1] / (cfg.merge_size * cfg.merge_size);
        assert(n == merged_tokens(grid, cfg.merge_size));
        let chars = text::chars_of(out.as_str());
        match find_text(&chars, &token) {
            None => {
                proof {
                    lemma_no_expansion(text@, image_grids@, i as int + 1, *cfg, image_grids@.len() as int);
                }
                return Err("image placeholder count < image count".to_owned());
            },
            Some(at) => {
                let mut next = text::string_of(&chars, 0, at);
                let mut k: usize = 0;
                while k < n
                    invariant
                        k <= n,
                        next@ == chars@.take(at as int) + repeated(cfg.image_token@, k as nat),
                    decreases n - k,
                {
                    next.append(cfg.image_token);
                    assert(next@ == chars@.take(at as int) + repeated(
                        cfg.image_token@,
                        k as nat + 1,
                    ));
                    k = k + 1;
                }
                let total: usize = chars.len();
                let rest = text::string_of(&chars, at + token.len(), total);
                next.append(rest.as_str());
                assert(next@ == chars@.take(at as int) + repeated(cfg.image_token@, n as nat)
                    + chars@.skip(at + token@.len()));
                out = next;
            },
        }
        i = i + 1;
    }
    Ok(out)
}

proof fn lemma_no_expansion(
    text: Seq<char>,
    grids: Seq<[usize; 2]>,
    n: int,
    cfg: PaddleOcrCfg,
    all: int,
)
    requires
        expanded(text, grids, n, cfg) is None,
        n <= all,
    ensures
        expanded(text, grids, all, cfg) is None,
    decreases all - n,
{
    if n < all {
        lemma_no_expansion(text, grids, n, cfg, all - 1);
    }
}

/// The first place of a text is one where it stands, and it stands at none before; where
/// it stands nowhere, the place is behind the end.
pub proof fn law_first_places_come_first(text: Seq<char>, needle: Seq<char>, from: int)
    requires
        0 <= from <= text.len(),
    ensures
        from <= first_place(text, needle, from) <= text.len() + 1,
        forall|at: int|
            from <= at < first_place(text, needle, from) ==> !(#[trigger] occurs_at(
                text,
                needle,
                at,
            )),
        first_place(text, needle, from) <= text.len() ==> text.subrange(
            first_place(text, needle, from),
            first_place(text, needle, from) + needle.len(),
        ) == needle && first_place(text, needle, from) + needle.len() <= text.len(),
    decreases text.len() + 1 - from,
{
    if !occurs_at(text, needle, from) {
        if from < text.len() {
            law_first_places_come_first(text, needle, from + 1);
        } else {
            assert(first_place(text, needle, from + 1) == from + 1);
        }
    }
}

/// Copies add up: as many as two numbers together are those of the one and those of the
/// other, one copy is the text itself, and none is nothing.
pub proof fn law_copies_add_up(s: Seq<char>, m: nat, n: nat)
    ensures
        repeated(s, 0) == Seq::<char>::empty(),
        repeated(s, 1) == s,
        repeated(s, m + n) == repeated(s, m) + repeated(s, n),
    decreases n,
{
    reveal_with_fuel(repeated, 2);
    assert(Seq::<char>::empty() + s == s);
    if n > 0 {
        law_copies_add_up(s, m, (n - 1) as nat);
        assert((repeated(s, m) + repeated(s, (n - 1) as nat)) + s == repeated(s, m) + (repeated(
            s,
            (n - 1) as nat,
        ) + s));
    } else {
        assert(repeated(s, m) + Seq::<char>::empty() == repeated(s, m));
    }
}

/// An image puts in the place of the first placeholder as many as it has patches, divided
/// by those that are merged into one; what stands before and behind stays. Without a
/// placeholder there is nothing to put it in.
pub proof fn law_images_fill_the_first_placeholder(
    before: Seq<char>,
    after: Seq<char>,
    grid: [usize; 2],
    cfg: PaddleOcrCfg,
)
    requires
        forall|at: int|
            0 <= at < before.len() ==> !(#[trigger] occurs_at(
                before + cfg.image_token@ + after,
                cfg.image_token@,
                at,
            )),
    ensures
        expanded_once(before + cfg.image_token@ + after, grid, cfg) == Some(
            before + repeated(
                cfg.image_token@,
                (grid[0] * grid[1] / (cfg.merge_size * cfg.merge_size)) as nat,
            ) + after,
        ),
{
    let token = cfg.image_token@;
    let text = before + token + after;
    let at = first_place(text, token, 0);
    law_first_places_come_first(text, token, 0);
    assert(text.subrange(before.len() as int, (before.len() + token.len()) as int) == token);
    assert(occurs_at(text, token, before.len() as int));
    assert(at == before.len()) by {
        if at < before.len() {
            assert(occurs_at(text, token, at));
        }
    }
    assert(text.take(at) == before);
    assert(text.skip(at + token.len()) == after);
    assert(grid[0] * grid[1] >= 0 && cfg.merge_size * cfg.merge_size >= 0) by (nonlinear_arith)
        requires
            grid[0] >= 0,
            grid[1] >= 0,
            cfg.merge_size >= 0,
    ;
}

/// Where a text holds no placeholder, no image can be put in.
pub proof fn law_images_need_a_placeholder(text: Seq<char>, grid: [usize; 2], cfg: PaddleOcrCfg)
    ensures
        expanded_once(text, grid, cfg) is None <==> forall|at: int|
            0 <= at <= text.len() ==> !(#[trigger] occurs_at(text, cfg.image_token@, at)),
{
    law_first_places_come_first(text, cfg.image_token@, 0);
    let at = first_place(text, cfg.image_token@, 0);
    if at <= text.len() {
        assert(occurs_at(text, cfg.image_token@, at));
    }
}

/// Every image of a message gives the marks of an image and every text itself with its
/// ending, in the order of the message.
pub proof fn law_contents_follow_each_other(
    content: Seq<Content>,
    last: Content,
    ending: Seq<char>,
)
    ensures
        image_slots(Seq::<Content>::empty()) == Seq::<char>::empty(),
        content_texts(Seq::<Content>::empty(), ending) == Seq::<char>::empty(),
        last is Image ==> image_slots(content.push(last)) == image_slots(content)
            + "<|IMAGE_START|>"@ + "<|IMAGE_PLACEHOLDER|>"@ + "<|IMAGE_END|>"@ && content_texts(
            content.push(last),
            ending,
        ) == content_texts(content, ending),
        last is Text ==> image_slots(content.push(last)) == image_slots(content) && content_texts(
            content.push(last),
            ending,
        ) == content_texts(content, ending) + last->Text_0@ + ending,
{
    assert(content.push(last).drop_last() == content);
    let slots = image_slots(content);
    let texts = content_texts(content, ending);
    assert(slots + Seq::<char>::empty() == slots);
    assert(texts + Seq::<char>::empty() == texts);
    match last {
        Content::Image(_) => {
            assert(slots + ("<|IMAGE_START|>"@ + "<|IMAGE_PLACEHOLDER|>"@ + "<|IMAGE_END|>"@)
                == slots + "<|IMAGE_START|>"@ + "<|IMAGE_PLACEHOLDER|>"@ + "<|IMAGE_END|>"@);
        },
        Content::Text(t) => {
            assert(texts + (t@ + ending) == texts + t@ + ending);
        },
    }
}

/// A prompt is the class token, every message in turn, and the prefix of the assistant
/// where an answer is asked for. The user's images come before the user's texts, an
/// answer stands between the prefix and the end token, and the system has a line for
/// every text.
pub proof fn law_messages_follow_each_other(
    messages: Seq<Message>,
    last: Message,
    cfg: PaddleOcrCfg,
)
    ensures
        chat_text(Seq::<Message>::empty(), false, cfg) == cfg.cls_token@,
        chat_text(messages, true, cfg) == chat_text(messages, false, cfg) + cfg.assistant_prefix@,
        last.role@ == "user"@ ==> chat_text(messages.push(last), false, cfg) == chat_text(
            messages,
            false,
            cfg,
        ) + "User: "@ + image_slots(last.content@) + content_texts(last.content@, Seq::empty())
            + seq!['\n'],
        last.role@ == "assistant"@ ==> chat_text(messages.push(last), false, cfg) == chat_text(
            messages,
            false,
            cfg,
        ) + cfg.assistant_prefix@ + content_texts(last.content@, Seq::empty()) + cfg.eos_token@,
        last.role@ == "system"@ ==> chat_text(messages.push(last), false, cfg) == chat_text(
            messages,
            false,
            cfg,
        ) + content_texts(last.content@, seq!['\n']),
{
    let none = Seq::<char>::empty();
    let head = cfg.cls_token@ + messages_text(messages, cfg);
    assert(messages.push(last).drop_last() == messages);
    assert(head + none == head);
    assert(cfg.cls_token@ + none + none == cfg.cls_token@);
    let content = last.content@;
    reveal_strlit("user");
    reveal_strlit("assistant");
    reveal_strlit("system");
    assert("user"@.len() == 4 && "assistant"@.len() == 9 && "system"@.len() == 6);
    let all = cfg.cls_token@ + (messages_text(messages, cfg) + message_text(last, cfg)) + none;
    assert(all == head + message_text(last, cfg));
    if last.role@ == "user"@ {
        assert(all == head + "User: "@ + image_slots(content) + content_texts(content, none)
            + seq!['\n']);
    } else if last.role@ == "assistant"@ {
        assert(all == head + cfg.assistant_prefix@ + content_texts(content, none)
            + cfg.eos_token@);
    }
}

} // verus!
