//! Recognition of one image: what goes to the model, and what its answer says.

use crate::chat;
use crate::chat::{Content, Message};
use crate::config;
use crate::config::PaddleOcrCfg;
use crate::encoding;
use crate::patches;
use crate::patches::{ImageOutput, PreprocessError};
use crate::picture;
use crate::spotting;
use crate::spotting::SpottingResult;
use crate::text;
use crate::tokenizer;
use crate::version::{OcrTask, PaddleOcrVersion};
use vstd::prelude::*;
use vstd::string::*;

verus! {

/// Why an image is not recognized.
#[derive(Debug)]
pub enum RecognitionError {
    /// Text spotting needs the later release.
    SpottingUnsupported,
    /// The image cannot be cut into patches.
    Preprocess(PreprocessError),
    /// The prompt has no place for the image.
    Placeholder(String),
    /// The prompt cannot be split into tokens.
    Tokenization(String),
}

/// Message for a release that spots no text.
pub const SPOTTING_UNSUPPORTED: &'static str =
    "spotting is only supported by the PaddleOCR-VL 1.5 recipe";

/// Message for patches of several frames.
pub const FRAMES_UNSUPPORTED: &'static str =
    "HF PaddleOCRVLImageProcessor currently errors when temporal_patch_size != 1";

/// What the model is asked about an image.
#[derive(Debug)]
pub struct Request {
    pub task: OcrTask,
    pub cfg: PaddleOcrCfg,
    pub input_size: (u32, u32),
    pub processed_size: (u32, u32),
    pub image: ImageOutput,
    pub prompt: String,
}

/// Text read from an image.
#[derive(Debug)]
pub struct RecognitionResult {
    pub task: OcrTask,
    pub text: String,
    pub spotting: Option<SpottingResult>,
    pub generated_tokens: Vec<u32>,
    pub input_size: (u32, u32),
    pub processed_size: (u32, u32),
    pub image_grid_hw: [usize; 2],
}

impl RecognitionResult {
    pub fn as_text(&self) -> (text: &str)
        ensures
            text@ == self.text@,
    {
        self.text.as_str()
    }
}

/// Size of an image once it is prepared for a task.
pub open spec fn prepared_size(size: (u32, u32), task: OcrTask) -> (u32, u32) {
    if picture::upscaled_for(size, task) {
        ((2 * size.0) as u32, (2 * size.1) as u32)
    } else {
        size
    }
}

/// The settings for a task.
pub open spec fn task_cfg(cfg: PaddleOcrCfg, task: OcrTask) -> PaddleOcrCfg {
    PaddleOcrCfg {
        max_pixels: if task == OcrTask::Spotting {
            config::SPOTTING_MAX_PIXELS
        } else {
            cfg.max_pixels
        },
        ..cfg
    }
}

/// Whether a release supports a task.
pub open spec fn supports(version: PaddleOcrVersion, task: OcrTask) -> bool {
    task != OcrTask::Spotting || version == PaddleOcrVersion::V1_5
}

/// The prompt of a task, with one placeholder for the image.
pub open spec fn task_prompt(task: OcrTask, cfg: PaddleOcrCfg) -> Seq<char> {
    cfg.cls_token@ + ("User: "@ + chat::image_slot() + task.question() + seq!['\n'])
        + cfg.assistant_prefix@
}

/// Whether the machine holds every number on the way to a request.
pub open spec fn request_fits(
    version: PaddleOcrVersion,
    cfg: PaddleOcrCfg,
    size: (u32, u32),
    task: OcrTask,
) -> bool {
    supports(version, task) ==> {
        &&& patches::patches_fit(prepared_size(size, task), task_cfg(cfg, task))
        &&& cfg.merge_size * cfg.merge_size <= usize::MAX
    }
}

/// `request` asks about an image that looks like `processed` once prepared.
pub open spec fn asks(
    request: Request,
    cfg: PaddleOcrCfg,
    img: image::DynamicImage,
    processed: image::DynamicImage,
    task: OcrTask,
) -> bool {
    &&& request.task == task
    &&& request.cfg == task_cfg(cfg, task)
    &&& request.input_size == picture::image_size(img)
    &&& request.processed_size == prepared_size(picture::image_size(img), task)
    &&& picture::image_size(processed) == request.processed_size
    &&& if picture::upscaled_for(picture::image_size(img), task) {
        picture::may_become(img, request.processed_size.0, request.processed_size.1, processed)
    } else {
        processed == img
    }
    &&& patches::is_preprocessed(Ok(request.image), processed, request.cfg)
    &&& chat::expanded_once(
        task_prompt(task, request.cfg),
        request.image.image_grid_hw,
        request.cfg,
    ) == Some(request.prompt@)
}

/// `answer` is the request for an image, or why there is none.
pub open spec fn is_requested(
    answer: Result<Request, RecognitionError>,
    version: PaddleOcrVersion,
    cfg: PaddleOcrCfg,
    img: image::DynamicImage,
    task: OcrTask,
) -> bool {
    let size = prepared_size(picture::image_size(img), task);
    let target = patches::target_size(size, task_cfg(cfg, task));
    if !supports(version, task) {
        answer is Err && answer->Err_0 is SpottingUnsupported
    } else if cfg.temporal_patch_size != 1 {
        answer is Err && answer->Err_0 == RecognitionError::Preprocess(
            PreprocessError::TemporalPatchSize,
        )
    } else if target is Some && target->0 is Err {
        answer is Err && answer->Err_0 == RecognitionError::Preprocess(
            PreprocessError::Aspect(target->0->Err_0),
        )
    } else if !has_place(task_prompt(task, task_cfg(cfg, task)), cfg.image_token@) {
        answer is Err && answer->Err_0 is Placeholder && answer->Err_0->Placeholder_0@
            == "image placeholder count < image count"@
    } else {
        answer is Ok && exists|processed: image::DynamicImage|
            #[trigger] asks(answer->Ok_0, cfg, img, processed, task)
    }
}

/// Whether `needle` occurs in `text`.
pub open spec fn has_place(text: Seq<char>, needle: Seq<char>) -> bool {
    chat::first_place(text, needle, 0) <= text.len()
}

/// Writes the prompt of a task with one placeholder for the image.
fn render_task(processed: &image::DynamicImage, task: OcrTask, cfg: &PaddleOcrCfg) -> (prompt:
    String)
    ensures
        prompt@ == task_prompt(task, *cfg),
{
    let mut content: Vec<Content> = Vec::new();
    content.push(Content::Image(processed));
    content.push(Content::Text(task.prompt()));
    let mut messages: Vec<Message> = Vec::new();
    messages.push(Message { role: "user", content });
    let prompt = chat::render_chat(messages.as_slice(), true, cfg);
    proof {
        let all = messages@;
        let parts = all[0].content@;
        assert(all.drop_last() == Seq::<Message>::empty());
        assert(chat::messages_text(all.drop_last(), *cfg) == Seq::<char>::empty());
        assert(parts.drop_last().drop_last() == Seq::<Content>::empty());
        reveal_with_fuel(chat::image_slots, 3);
        reveal_with_fuel(chat::content_texts, 3);
        assert(parts.drop_last().last() is Image);
        assert(parts.last() is Text);
        assert(chat::image_slots(parts) == chat::image_slot());
        assert(chat::content_texts(parts, Seq::empty()) == task.question());
        assert(chat::messages_text(all, *cfg) == chat::message_text(all[0], *cfg));
        assert(prompt@ == task_prompt(task, *cfg));
    }
    prompt
}

/// Prepares an image and the prompt of a task for the model.
pub fn prepare_request(
    version: PaddleOcrVersion,
    cfg: &PaddleOcrCfg,
    img: image::DynamicImage,
    task: OcrTask,
) -> (answer: Result<Request, RecognitionError>)
    requires
        request_fits(version, *cfg, picture::image_size(img), task),
    ensures
        is_requested(answer, version, *cfg, img, task),
{
    if task.is_spotting() && version != PaddleOcrVersion::V1_5 {
        return Err(RecognitionError::SpottingUnsupported);
    }
    let ghost original = img;
    let input_size: (u32, u32) = (img.width(), img.height());
    let processed = picture::prepare_image_for_task(img, task);
    let processed_size: (u32, u32) = (processed.width(), processed.height());
    let settings = cfg.with_task(task);
    let image = match patches::preprocess_image(&processed, &settings) {
        Ok(image) => image,
        Err(error) => {
            return Err(RecognitionError::Preprocess(error));
        },
    };
    let prompt = render_task(&processed, task, &settings);
    let grid: [usize; 2] = image.image_grid_hw;
    let mut grids: Vec<[usize; 2]> = Vec::new();
    grids.push(grid);
    proof {
        patches::lemma_patch_count(image, processed, settings);
        reveal_with_fuel(chat::expanded, 2);
        assert(grids@[0] == grid);
        assert(chat::expanded(prompt@, grids@, 1, settings) == chat::expanded_once(prompt@, grid, settings));
    }
    match chat::expand_image_placeholders(prompt.as_str(), grids.as_slice(), &settings) {
        Ok(expanded) => {
            let request = Request {
                task,
                cfg: settings,
                input_size,
                processed_size,
                image,
                prompt: expanded,
            };
            let answer: Result<Request, RecognitionError> = Ok(request);
            assert(asks(answer->Ok_0, *cfg, original, processed, task));
            answer
        },
        Err(message) => Err(RecognitionError::Placeholder(message)),
    }
}

/// Prepares an image and the prompt of a task, where the machine holds every
/// number on the way.
pub fn checked_prepare_request(
    version: PaddleOcrVersion,
    cfg: &PaddleOcrCfg,
    img: image::DynamicImage,
    task: OcrTask,
) -> (answer: Option<Result<Request, RecognitionError>>)
    ensures
        answer is Some <==> request_fits(version, *cfg, picture::image_size(img), task),
        answer is Some ==> is_requested(answer->0, version, *cfg, img, task),
{
    let supported: bool = !task.is_spotting() || version == PaddleOcrVersion::V1_5;
    if supported {
        if cfg.merge_size.checked_mul(cfg.merge_size).is_none() {
            return None;
        }
        let width: u32 = img.width();
        let height: u32 = img.height();
        let doubled: bool = task.is_spotting() && width < picture::SPOTTING_UPSCALE_THRESHOLD
            && height < picture::SPOTTING_UPSCALE_THRESHOLD;
        let size: (u32, u32) = if doubled {
            (2 * width, 2 * height)
        } else {
            (width, height)
        };
        if !patches::can_preprocess(size, &cfg.with_task(task)) {
            return None;
        }
    }
    Some(prepare_request(version, cfg, img, task))
}

proof fn lemma_first_place(text: Seq<char>, needle: Seq<char>, from: int, at: int)
    requires
        0 <= from <= at <= text.len(),
        chat::occurs_at(text, needle, at),
    ensures
        chat::first_place(text, needle, from) <= at,
    decreases at - from,
{
    if from < at && !chat::occurs_at(text, needle, from) {
        lemma_first_place(text, needle, from + 1, at);
    }
}

/// Under the settings of a release, the prompt of every task has a place for the
/// image: a supported request for an image that can be cut is never refused.
pub proof fn law_every_task_has_a_place_for_the_image(
    task: OcrTask,
    cfg: PaddleOcrCfg,
    version: PaddleOcrVersion,
)
    requires
        cfg.is_preset(version),
    ensures
        has_place(task_prompt(task, task_cfg(cfg, task)), cfg.image_token@),
{
    let settings = task_cfg(cfg, task);
    let token = config::IMAGE_PLACEHOLDER_TOKEN@;
    let head = settings.cls_token@ + ("User: "@ + config::IMAGE_START_TOKEN@);
    let tail = config::IMAGE_END_TOKEN@ + (task.question() + (seq!['\n']
        + settings.assistant_prefix@));
    let prompt = task_prompt(task, settings);
    assert(prompt == head + (token + tail));
    assert(prompt.subrange(head.len() as int, (head.len() + token.len()) as int) == token);
    lemma_first_place(prompt, token, 0, head.len() as int);
}

/// What a failure of the tokenizer becomes.
pub fn tokenization_failed(message: &str) -> (error: RecognitionError)
    ensures
        error is Tokenization,
        error->Tokenization_0@ == "tokenization failed: "@ + message@,
{
    let mut whole: String = "tokenization failed: ".to_owned();
    whole.append(message);
    RecognitionError::Tokenization(whole)
}

/// Splits the prompt of a request into tokens; nothing for a tokenizer whose
/// settings do not take every text. Where the tokenizer leaves out merges at random,
/// which tokens come is open, and a failure is still reported as one.
pub fn encode_prompt(request: &Request, tokenizer: &tokenizers::Tokenizer) -> (ids: Option<
    Result<Vec<u32>, RecognitionError>,
>)
    ensures
        ids is Some <==> encoding::encodable(*tokenizer),
        ids matches Some(Err(error)) ==> error is Tokenization && exists|message: Seq<char>|
            error->Tokenization_0@ == #[trigger] ("tokenization failed: "@ + message),
        encoding::is_settled(*tokenizer) ==> match (
            ids,
            encoding::token_ids(*tokenizer, request.prompt@),
        ) {
            (None, _) => true,
            (Some(Ok(list)), Ok(expected)) => list@ == expected,
            (Some(Err(error)), Err(message)) => error->Tokenization_0@ == "tokenization failed: "@
                + message,
            _ => false,
        },
{
    if !encoding::can_encode(tokenizer) {
        return None;
    }
    match encoding::encode_text(tokenizer, request.prompt.as_str()) {
        Ok(ids) => Some(Ok(ids)),
        Err(message) => Some(Err(tokenization_failed(message.as_str()))),
    }
}

/// `result` is the answer to a request whose text reads `raw`.
pub open spec fn is_result(
    result: RecognitionResult,
    request: Request,
    generated: Seq<u32>,
    raw: Seq<char>,
) -> bool {
    &&& result.task == request.task
    &&& result.generated_tokens@ == generated
    &&& result.input_size == request.input_size
    &&& result.processed_size == request.processed_size
    &&& result.image_grid_hw == request.image.image_grid_hw
    &&& if request.task == OcrTask::Spotting {
        &&& result.spotting is Some
        &&& spotting::is_spotting_result(
            result.spotting->0,
            spotting::spotted_texts(raw),
            request.processed_size.0,
            request.processed_size.1,
        )
        &&& result.text@ == text::joined(
            text::texts_of(result.spotting->0.rec_texts@),
            "\n\n"@,
        )
    } else {
        result.spotting is None && result.text@ == raw
    }
}

/// Makes the result of a request from the text that was generated: spotted texts
/// with their places, or the text as it is.
pub fn finish_request(request: &Request, generated: Vec<u32>, raw_text: String) -> (result:
    RecognitionResult)
    ensures
        is_result(result, *request, generated@, raw_text@),
{
    let (text, spotted) = if request.task.is_spotting() {
        let (text, spotted) = spotting::post_process_for_spotting(
            raw_text.as_str(),
            request.processed_size.0,
            request.processed_size.1,
        );
        (text, Some(spotted))
    } else {
        (raw_text, None)
    };
    RecognitionResult {
        task: request.task,
        text,
        spotting: spotted,
        generated_tokens: generated,
        input_size: request.input_size,
        processed_size: request.processed_size,
        image_grid_hw: request.image.image_grid_hw,
    }
}

/// Reads what was generated and makes the result of a request. Token numbers that
/// make no text leave it empty. Nothing for tokens that the decoder does not take.
pub fn decode_answer(
    request: &Request,
    tokenizer: &tokenizers::Tokenizer,
    generated: Vec<u32>,
) -> (result: Option<RecognitionResult>)
    ensures
        result is Some <==> tokenizer::decodable(*tokenizer, generated@),
        result is Some ==> is_result(
            result->0,
            *request,
            generated@,
            match tokenizer::decoded_text(*tokenizer, generated@) {
                Some(said) => said,
                None => Seq::empty(),
            },
        ),
{
    if !tokenizer::can_decode(tokenizer, &generated) {
        return None;
    }
    let raw_text = match tokenizer::decode_ids(tokenizer, &generated) {
        Some(said) => said,
        None => String::new(),
    };
    Some(finish_request(request, generated, raw_text))
}

/// Small images are doubled before text is spotted in them: those of which neither side
/// has 1500 pixels. All others, and those for every other task, keep their size.
pub proof fn law_small_images_are_doubled_for_spotting(size: (u32, u32), task: OcrTask)
    ensures
        task == OcrTask::Spotting && size.0 < 1500 && size.1 < 1500 ==> {
            &&& prepared_size(size, task).0 == size.0 + size.0
            &&& prepared_size(size, task).1 == size.1 + size.1
        },
        task != OcrTask::Spotting || size.0 >= 1500 || size.1 >= 1500 ==> prepared_size(size, task)
            == size,
{
}

/// Spotting works within 2048 squares of 28 pixels, and every other task within the
/// limits of the release; nothing else of the settings depends on the task.
pub proof fn law_tasks_change_the_limit_alone(cfg: PaddleOcrCfg, task: OcrTask)
    ensures
        task == OcrTask::Spotting ==> task_cfg(cfg, task).max_pixels == 2048 * 28 * 28,
        task != OcrTask::Spotting ==> task_cfg(cfg, task).max_pixels == cfg.max_pixels,
        task_cfg(cfg, task).min_pixels == cfg.min_pixels,
        task_cfg(cfg, task).patch_size == cfg.patch_size,
        task_cfg(cfg, task).merge_size == cfg.merge_size,
        task_cfg(cfg, task).temporal_patch_size == cfg.temporal_patch_size,
        task_cfg(cfg, task).rescale_factor == cfg.rescale_factor,
        task_cfg(cfg, task).image_mean == cfg.image_mean,
        task_cfg(cfg, task).image_std == cfg.image_std,
        task_cfg(cfg, task).image_token == cfg.image_token,
        task_cfg(cfg, task).image_token_id == cfg.image_token_id,
        task_cfg(cfg, task).cls_token == cfg.cls_token,
        task_cfg(cfg, task).eos_token == cfg.eos_token,
        task_cfg(cfg, task).assistant_prefix == cfg.assistant_prefix,
{
}

/// The first release spots no text, and both do everything else.
pub proof fn law_releases_support_their_tasks(version: PaddleOcrVersion, task: OcrTask)
    ensures
        task != OcrTask::Spotting ==> supports(version, task),
        supports(PaddleOcrVersion::V1_5, task),
        !supports(PaddleOcrVersion::V1_0, OcrTask::Spotting),
{
}

proof fn lemma_first_image_mark(text: Seq<char>, at: int)
    requires
        text.len() >= 42,
        text.take(42) == "<|begin_of_sentence|>"@ + "User: "@ + "<|IMAGE_START|>"@,
        0 <= at < 42,
    ensures
        !chat::occurs_at(text, "<|IMAGE_PLACEHOLDER|>"@, at),
{
    reveal_strlit("<|begin_of_sentence|>");
    reveal_strlit("User: ");
    reveal_strlit("<|IMAGE_START|>");
    reveal_strlit("<|IMAGE_PLACEHOLDER|>");
    let a = "<|begin_of_sentence|>"@;
    let b = "User: "@;
    let c = "<|IMAGE_START|>"@;
    let token = "<|IMAGE_PLACEHOLDER|>"@;
    let head = text.take(42);
    if chat::occurs_at(text, token, at) {
        let found = text.subrange(at, (at + token.len()) as int);
        assert(found[0] == text[at] && found[2] == text[at + 2] && found[8] == text[at + 8]);
        assert(found[0] == '<' && found[2] == 'I' && found[8] == 'P');
        assert(text[at] == head[at]);
        if at < 21 {
            assert(head[at] == a[at]);
            if at == 0 {
                assert(text[2] == head[2] && head[2] == a[2]);
            }
        } else if at < 27 {
            assert(head[at] == b[at - 21]);
        } else {
            assert(head[at] == c[at - 27]);
            if at == 27 {
                assert(text[35] == head[35] && head[35] == c[8]);
            }
        }
    }
}

/// The prompt of a request, under the settings of a release: the mark that begins a
/// sentence, the image as one token for every four of its patches between the marks of
/// an image, the question of the task, and the turn of the model.
pub proof fn law_prompts_ask_about_the_image(
    request: Request,
    cfg: PaddleOcrCfg,
    img: image::DynamicImage,
    processed: image::DynamicImage,
    task: OcrTask,
    version: PaddleOcrVersion,
)
    requires
        cfg.is_preset(version),
        asks(request, cfg, img, processed, task),
    ensures
        request.prompt@ == "<|begin_of_sentence|>"@ + "User: "@ + "<|IMAGE_START|>"@
            + chat::repeated(
            "<|IMAGE_PLACEHOLDER|>"@,
            (request.image.image_grid_hw[0] * request.image.image_grid_hw[1] / 4) as nat,
        ) + "<|IMAGE_END|>"@ + match task {
            OcrTask::Ocr => "OCR:"@,
            OcrTask::Table => "Table Recognition:"@,
            OcrTask::Chart => "Chart Recognition:"@,
            OcrTask::Formula => "Formula Recognition:"@,
            OcrTask::Spotting => "Spotting:"@,
            OcrTask::Seal => "Seal Recognition:"@,
        } + "\n"@ + match version {
            PaddleOcrVersion::V1_0 => "Assistant: "@,
            PaddleOcrVersion::V1_5 => "Assistant:\n"@,
        },
{
    let settings = task_cfg(cfg, task);
    let token = "<|IMAGE_PLACEHOLDER|>"@;
    let before = "<|begin_of_sentence|>"@ + "User: "@ + "<|IMAGE_START|>"@;
    let after = "<|IMAGE_END|>"@ + task.question() + seq!['\n'] + settings.assistant_prefix@;
    let prompt = task_prompt(task, settings);
    reveal_strlit("\n");
    reveal_strlit("<|begin_of_sentence|>");
    reveal_strlit("User: ");
    reveal_strlit("<|IMAGE_START|>");
    assert("\n"@ == seq!['\n']);
    assert(prompt == before + token + after);
    assert(prompt.take(42) == before);
    assert forall|at: int| 0 <= at < before.len() implies !(#[trigger] chat::occurs_at(
        before + token + after,
        token,
        at,
    )) by {
        lemma_first_image_mark(prompt, at);
    }
    let grid = request.image.image_grid_hw;
    chat::law_images_fill_the_first_placeholder(before, after, grid, settings);
    assert(settings.merge_size * settings.merge_size == 4);
}

/// Every task but spotting answers with the text as it was generated, and spotting with
/// the texts that stand in it, an empty line between them.
pub proof fn law_answers_keep_their_text(
    result: RecognitionResult,
    request: Request,
    generated: Seq<u32>,
    raw: Seq<char>,
)
    requires
        is_result(result, request, generated, raw),
    ensures
        result.task == request.task,
        result.generated_tokens@ == generated,
        result.input_size == request.input_size,
        result.processed_size == request.processed_size,
        result.image_grid_hw == request.image.image_grid_hw,
        request.task != OcrTask::Spotting ==> result.text@ == raw && result.spotting is None,
        request.task == OcrTask::Spotting ==> {
            let found = spotting::spotted_texts(raw);
            &&& result.spotting is Some
            &&& result.spotting->0.rec_texts@.len() == found.len()
            &&& result.spotting->0.rec_polys@.len() == found.len()
            &&& forall|i: int|
                0 <= i < found.len() ==> (#[trigger] result.spotting->0.rec_texts@[i])@
                    == found[i].text
            &&& found.len() == 0 ==> result.text@.len() == 0
            &&& found.len() == 1 ==> result.text@ == found[0].text
            &&& found.len() == 2 ==> result.text@ == found[0].text + "\n\n"@ + found[1].text
        },
{
    if request.task == OcrTask::Spotting {
        let found = spotting::spotted_texts(raw);
        let texts = result.spotting->0.rec_texts@;
        let seen = text::texts_of(texts);
        let read = found.map_values(|s: spotting::Spotted| s.text);
        assert(seen.len() == read.len());
        assert forall|i: int| 0 <= i < found.len() implies (#[trigger] texts[i])@
            == found[i].text by {
            assert(seen[i] == read[i]);
        }
        reveal_with_fuel(text::joined, 3);
        if found.len() == 1 {
            assert(seen[0] == read[0]);
            assert(result.text@ == found[0].text);
        }
        if found.len() == 2 {
            assert(seen[0] == read[0] && seen[1] == read[1]);
            assert(result.text@ == found[0].text + "\n\n"@ + found[1].text);
        }
    }
}

/// A request is refused where the release does not support its task, then where the image
/// cannot be cut, and else, under the settings of a release, it asks about the image.
pub proof fn law_requests_are_made_or_refused(
    answer: Result<Request, RecognitionError>,
    version: PaddleOcrVersion,
    cfg: PaddleOcrCfg,
    img: image::DynamicImage,
    task: OcrTask,
)
    requires
        cfg.is_preset(version),
        is_requested(answer, version, cfg, img, task),
    ensures
        task == OcrTask::Spotting && version == PaddleOcrVersion::V1_0 <==> answer is Err
            && answer->Err_0 is SpottingUnsupported,
        !(answer is Err && answer->Err_0 is Placeholder),
        !(answer is Err && answer->Err_0 is Tokenization),
        task != OcrTask::Spotting || version == PaddleOcrVersion::V1_5 ==> {
            let target = patches::target_size(
                prepared_size(picture::image_size(img), task),
                task_cfg(cfg, task),
            );
            &&& target matches Some(Err(error)) ==> answer is Err && answer->Err_0
                == RecognitionError::Preprocess(PreprocessError::Aspect(error))
            &&& target matches Some(Ok(_)) ==> answer is Ok && answer->Ok_0.task == task
                && answer->Ok_0.input_size == picture::image_size(img)
                && answer->Ok_0.processed_size == prepared_size(picture::image_size(img), task)
        },
{
    law_every_task_has_a_place_for_the_image(task, cfg, version);
}

} // verus!
