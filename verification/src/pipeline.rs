//! Page parsing: which blocks are recognized and how, in what order the work
//! goes on, and what becomes of the recognized texts.

use crate::crop;
use crate::crop::CropError;
use crate::dtype::DType;
use crate::float::F32;
use crate::layout::LayoutBlock;
use crate::picture;
use crate::text;
use crate::version::{OcrTask, PipelineVersion};
use vstd::prelude::*;
use vstd::string::*;

verus! {

/// Settings of the page pipeline.
#[derive(Debug)]
pub struct PipelineConfig {
    /// Release: the first goes with the second layout detector and the first
    /// recognizer, the later one with their successors.
    pub version: PipelineVersion,
    pub layout_model_path: String,
    pub vl_model_dir: String,
    pub dtype: DType,
    pub layout_threshold: F32,
    pub max_new_tokens: Option<usize>,
    pub use_chart_recognition: bool,
    pub use_seal_recognition: bool,
    pub use_ocr_for_image_block: bool,
    /// Labels left out of Markdown, and of nothing else.
    pub markdown_ignore_labels: Vec<String>,
}

/// Labels that Markdown leaves out unless told otherwise.
pub open spec fn usually_ignored() -> Seq<Seq<char>> {
    seq![
        "number"@,
        "footnote"@,
        "header"@,
        "header_image"@,
        "footer"@,
        "footer_image"@,
        "aside_text"@,
    ]
}

impl PipelineConfig {
    /// The settings that come with a release.
    pub open spec fn is_preset(self, version: PipelineVersion) -> bool {
        &&& self.version == version
        &&& self.layout_model_path@ == version.detector().model_path()
        &&& self.vl_model_dir@ == version.vl_model_dir()
        &&& self.dtype == DType::F32
        &&& self.layout_threshold == version.layout_threshold()
        &&& self.max_new_tokens is None
        &&& !self.use_chart_recognition
        &&& self.use_seal_recognition == (version == PipelineVersion::V1_5)
        &&& !self.use_ocr_for_image_block
        &&& text::texts_of(self.markdown_ignore_labels@) == usually_ignored()
    }

    pub fn for_version(version: PipelineVersion) -> (config: Self)
        ensures
            config.is_preset(version),
    {
        let mut labels: Vec<String> = Vec::new();
        labels.push("number".to_owned());
        labels.push("footnote".to_owned());
        labels.push("header".to_owned());
        labels.push("header_image".to_owned());
        labels.push("footer".to_owned());
        labels.push("footer_image".to_owned());
        labels.push("aside_text".to_owned());
        assert(text::texts_of(labels@) == usually_ignored());
        PipelineConfig {
            version,
            layout_model_path: version.default_layout_model_path().to_owned(),
            vl_model_dir: version.default_vl_model_dir().to_owned(),
            dtype: DType::F32,
            layout_threshold: version.default_layout_threshold(),
            max_new_tokens: None,
            use_chart_recognition: false,
            use_seal_recognition: version == PipelineVersion::V1_5,
            use_ocr_for_image_block: false,
            markdown_ignore_labels: labels,
        }
    }
}

impl Default for PipelineConfig {
    fn default() -> (config: Self)
        ensures
            config.is_preset(PipelineVersion::V1_5),
    {
        PipelineConfig::for_version(PipelineVersion::V1_5)
    }
}

/// How a block with a label is recognized, if at all. Text spotting is no part
/// of page parsing.
pub open spec fn task_of(label: Seq<char>, config: PipelineConfig) -> Option<OcrTask> {
    if label == "table"@ {
        Some(OcrTask::Table)
    } else if label == "chart"@ {
        if config.use_chart_recognition {
            Some(OcrTask::Chart)
        } else {
            None
        }
    } else if label == "formula"@ {
        Some(OcrTask::Formula)
    } else if label == "seal"@ {
        if config.use_seal_recognition {
            Some(OcrTask::Seal)
        } else {
            None
        }
    } else if label == "image"@ {
        if config.use_ocr_for_image_block {
            Some(OcrTask::Ocr)
        } else {
            None
        }
    } else {
        Some(OcrTask::Ocr)
    }
}

pub fn task_for_label(label: &str, config: &PipelineConfig) -> (task: Option<OcrTask>)
    ensures
        task == task_of(label@, *config),
{
    if text::same_text(label, "table") {
        Some(OcrTask::Table)
    } else if text::same_text(label, "chart") {
        if config.use_chart_recognition {
            Some(OcrTask::Chart)
        } else {
            None
        }
    } else if text::same_text(label, "formula") {
        Some(OcrTask::Formula)
    } else if text::same_text(label, "seal") {
        if config.use_seal_recognition {
            Some(OcrTask::Seal)
        } else {
            None
        }
    } else if text::same_text(label, "image") {
        if config.use_ocr_for_image_block {
            Some(OcrTask::Ocr)
        } else {
            None
        }
    } else {
        Some(OcrTask::Ocr)
    }
}

/// Text spotting is never asked of a block.
pub proof fn law_blocks_are_never_spotted(label: Seq<char>, config: PipelineConfig)
    ensures
        task_of(label, config) != Some(OcrTask::Spotting),
{
}

/// What a page parser tells its caller on the way.
#[derive(Debug)]
pub enum PipelineProgress {
    LayoutDetected { total_blocks: usize },
    BlockStarted { current: usize, total: usize, label: String, will_recognize: bool },
    BlockFinished { current: usize, total: usize, label: String, recognized: bool },
}

/// A progress report over mathematical values.
pub enum Report {
    LayoutDetected { total: nat },
    BlockStarted { current: int, total: nat, label: Seq<char>, will_recognize: bool },
    BlockFinished { current: int, total: nat, label: Seq<char>, recognized: bool },
}

impl View for PipelineProgress {
    type V = Report;

    open spec fn view(&self) -> Report {
        match *self {
            PipelineProgress::LayoutDetected { total_blocks } => Report::LayoutDetected {
                total: total_blocks as nat,
            },
            PipelineProgress::BlockStarted {
                current,
                total,
                label,
                will_recognize,
            } => Report::BlockStarted {
                current: current as int,
                total: total as nat,
                label: label@,
                will_recognize,
            },
            PipelineProgress::BlockFinished {
                current,
                total,
                label,
                recognized,
            } => Report::BlockFinished {
                current: current as int,
                total: total as nat,
                label: label@,
                recognized,
            },
        }
    }
}

/// The report that block `i` comes up.
pub open spec fn started(blocks: Seq<LayoutBlock>, i: int, config: PipelineConfig) -> Report {
    Report::BlockStarted {
        current: i + 1,
        total: blocks.len(),
        label: blocks[i].label@,
        will_recognize: task_of(blocks[i].label@, config) is Some,
    }
}

/// The report that block `i` is done.
pub open spec fn finished(blocks: Seq<LayoutBlock>, i: int, recognized: bool) -> Report {
    Report::BlockFinished { current: i + 1, total: blocks.len(), label: blocks[i].label@, recognized }
}

/// Where a page parser stands.
#[derive(Clone, Copy, Debug, PartialEq, Eq, Structural)]
pub enum Phase {
    /// The layout is known and not yet reported.
    Detected,
    /// The next block, if there is one, is to be reported.
    Starting,
    /// The next block is reported and to be cut out.
    Cropping,
    /// The next block is with the recognizer.
    Waiting,
    /// All is done, or something failed.
    Ended,
}

/// Why a page is not parsed.
#[derive(Debug)]
pub enum PageError {
    /// A block has no pixels.
    Crop(CropError),
    /// The recognizer failed.
    Recognition(String),
}

/// What a page parser asks of its caller.
pub enum PageAction {
    Report(PipelineProgress),
    Recognize { crop: image::DynamicImage, task: OcrTask },
    Fail(PageError),
    Finish,
}

/// A page on its way through the pipeline: its blocks in reading order, and the
/// texts of those that are done.
pub struct PageParser {
    pub blocks: Vec<LayoutBlock>,
    pub contents: Vec<Option<String>>,
    pub phase: Phase,
}

/// The state of a page parser beside its blocks.
pub struct PageState {
    pub phase: Phase,
    pub contents: Seq<Option<Seq<char>>>,
}

/// The texts of a list of optional strings.
pub open spec fn contents_of(contents: Seq<Option<String>>) -> Seq<Option<Seq<char>>> {
    contents.map_values(
        |content: Option<String>|
            match content {
                Some(s) => Some(s@),
                None => None,
            },
    )
}

impl PageParser {
    pub open spec fn wf(&self) -> bool {
        &&& self.contents@.len() <= self.blocks@.len()
        &&& self.phase == Phase::Detected ==> self.contents@.len() == 0
        &&& self.phase == Phase::Cropping || self.phase == Phase::Waiting
            ==> self.contents@.len() < self.blocks@.len()
    }
}

impl View for PageParser {
    type V = PageState;

    open spec fn view(&self) -> PageState {
        PageState { phase: self.phase, contents: contents_of(self.contents@) }
    }
}

/// What a page parser does in one step.
pub enum Step {
    Report(Report),
    Recognize(OcrTask),
    Fail,
    Finish,
}

/// The block to be cut out next can be placed on the page.
pub open spec fn next_fits(
    state: PageState,
    blocks: Seq<LayoutBlock>,
    config: PipelineConfig,
    size: (u32, u32),
) -> bool {
    let block = blocks[state.contents.len() as int];
    state.phase == Phase::Cropping && task_of(block.label@, config) is Some ==> crop::crop_fits(
        size,
        block.bbox,
    )
}

/// One step that waits for nobody, and the state after it.
pub open spec fn stepped(
    state: PageState,
    blocks: Seq<LayoutBlock>,
    config: PipelineConfig,
    size: (u32, u32),
) -> (PageState, Step) {
    let i = state.contents.len() as int;
    match state.phase {
        Phase::Detected => (
            PageState { phase: Phase::Starting, ..state },
            Step::Report(Report::LayoutDetected { total: blocks.len() }),
        ),
        Phase::Starting => if i < blocks.len() {
            (
                PageState { phase: Phase::Cropping, ..state },
                Step::Report(started(blocks, i, config)),
            )
        } else {
            (PageState { phase: Phase::Ended, ..state }, Step::Finish)
        },
        Phase::Cropping => match task_of(blocks[i].label@, config) {
            None => (
                PageState { phase: Phase::Starting, contents: state.contents.push(None) },
                Step::Report(finished(blocks, i, false)),
            ),
            Some(task) => if crop::is_void(crop::crop_edges(size, blocks[i].bbox)) {
                (PageState { phase: Phase::Ended, ..state }, Step::Fail)
            } else {
                (PageState { phase: Phase::Waiting, ..state }, Step::Recognize(task))
            },
        },
        _ => (state, Step::Finish),
    }
}

/// `action` is the step, for a page `image` and block number `i`.
pub open spec fn performs(
    action: PageAction,
    step: Step,
    image: image::DynamicImage,
    bbox: [F32; 4],
) -> bool {
    match step {
        Step::Report(report) => action is Report && action->Report_0@ == report,
        Step::Recognize(task) => action is Recognize && action->task == task && crop::shows(
            action->crop,
            image,
            crop::crop_edges(picture::image_size(image), bbox),
        ),
        Step::Fail => action == PageAction::Fail(PageError::Crop(CropError { bbox })),
        Step::Finish => action is Finish,
    }
}

/// The state after the recognizer gave a text.
pub open spec fn answered(state: PageState, content: Seq<char>) -> PageState {
    PageState { phase: Phase::Starting, contents: state.contents.push(Some(content)) }
}

impl PageParser {
    /// Takes up a page whose blocks are known.
    pub fn new(blocks: Vec<LayoutBlock>) -> (parser: Self)
        ensures
            parser.wf(),
            parser.blocks == blocks,
            parser@ == (PageState { phase: Phase::Detected, contents: Seq::empty() }),
    {
        let parser = PageParser { blocks, contents: Vec::new(), phase: Phase::Detected };
        assert(contents_of(parser.contents@) == Seq::<Option<Seq<char>>>::empty());
        parser
    }

    /// Goes on with the page: reports, hands out the next block, or ends.
    pub fn advance(&mut self, image: &image::DynamicImage, config: &PipelineConfig) -> (action:
        PageAction)
        requires
            old(self).wf(),
            old(self).phase != Phase::Waiting,
            next_fits(old(self)@, old(self).blocks@, *config, picture::image_size(*image)),
        ensures
            final(self).wf(),
            final(self).blocks == old(self).blocks,
            ({
                let next = stepped(
                    old(self)@,
                    old(self).blocks@,
                    *config,
                    picture::image_size(*image),
                );
                &&& final(self)@ == next.0
                &&& performs(
                    action,
                    next.1,
                    *image,
                    old(self).blocks@[old(self).contents@.len() as int].bbox,
                )
            }),
    {
        let total: usize = self.blocks.len();
        let i: usize = self.contents.len();
        match self.phase {
            Phase::Detected => {
                self.phase = Phase::Starting;
                PageAction::Report(PipelineProgress::LayoutDetected { total_blocks: total })
            },
            Phase::Starting => {
                if i < total {
                    self.phase = Phase::Cropping;
                    let label = self.blocks[i].label.as_str();
                    PageAction::Report(
                        PipelineProgress::BlockStarted {
                            current: i + 1,
                            total,
                            label: label.to_owned(),
                            will_recognize: task_for_label(label, config).is_some(),
                        },
                    )
                } else {
                    self.phase = Phase::Ended;
                    PageAction::Finish
                }
            },
            Phase::Cropping => {
                let ghost before = self.contents@;
                match task_for_label(self.blocks[i].label.as_str(), config) {
                    None => {
                        self.contents.push(None);
                        self.phase = Phase::Starting;
                        assert(contents_of(self.contents@) == contents_of(before).push(None));
                        PageAction::Report(
                            PipelineProgress::BlockFinished {
                                current: i + 1,
                                total,
                                label: self.blocks[i].label.as_str().to_owned(),
                                recognized: false,
                            },
                        )
                    },
                    Some(task) => {
                        match crop::crop_bbox(image, self.blocks[i].bbox) {
                            Ok(part) => {
                                self.phase = Phase::Waiting;
                                PageAction::Recognize { crop: part, task }
                            },
                            Err(error) => {
                                self.phase = Phase::Ended;
                                PageAction::Fail(PageError::Crop(error))
                            },
                        }
                    },
                }
            },
            _ => PageAction::Finish,
        }
    }

    /// Goes on with the page, unless the next block has no place on it or the
    /// recognizer has not answered.
    pub fn checked_advance(&mut self, image: &image::DynamicImage, config: &PipelineConfig) -> (
    action: Option<PageAction>)
        requires
            old(self).wf(),
        ensures
            final(self).wf(),
            final(self).blocks == old(self).blocks,
            action is Some <==> old(self).phase != Phase::Waiting && next_fits(
                old(self)@,
                old(self).blocks@,
                *config,
                picture::image_size(*image),
            ),
            action is None ==> *final(self) == *old(self),
            action is Some ==> {
                let next = stepped(
                    old(self)@,
                    old(self).blocks@,
                    *config,
                    picture::image_size(*image),
                );
                &&& final(self)@ == next.0
                &&& performs(
                    action->0,
                    next.1,
                    *image,
                    old(self).blocks@[old(self).contents@.len() as int].bbox,
                )
            },
    {
        if self.phase == Phase::Waiting {
            return None;
        }
        if self.phase == Phase::Cropping {
            let i: usize = self.contents.len();
            let recognized: bool = task_for_label(
                self.blocks[i].label.as_str(),
                config,
            ).is_some();
            if recognized && !crop::can_crop(image.width(), image.height(), &self.blocks[i].bbox) {
                return None;
            }
        }
        Some(self.advance(image, config))
    }

    /// Takes the answer of the recognizer.
    pub fn recognized(&mut self, answer: Result<String, String>) -> (action: PageAction)
        requires
            old(self).wf(),
            old(self).phase == Phase::Waiting,
        ensures
            final(self).wf(),
            final(self).blocks == old(self).blocks,
            match answer {
                Ok(content) => {
                    &&& final(self)@ == answered(old(self)@, content@)
                    &&& action is Report
                    &&& action->Report_0@ == finished(
                        old(self).blocks@,
                        old(self).contents@.len() as int,
                        true,
                    )
                },
                Err(message) => {
                    &&& final(self)@ == (PageState { phase: Phase::Ended, ..old(self)@ })
                    &&& action == PageAction::Fail(PageError::Recognition(message))
                },
            },
    {
        let total: usize = self.blocks.len();
        let i: usize = self.contents.len();
        match answer {
            Ok(content) => {
                let ghost before = self.contents@;
                let ghost said = content@;
                self.contents.push(Some(content));
                self.phase = Phase::Starting;
                assert(contents_of(self.contents@) == contents_of(before).push(Some(said)));
                PageAction::Report(
                    PipelineProgress::BlockFinished {
                        current: i + 1,
                        total,
                        label: self.blocks[i].label.as_str().to_owned(),
                        recognized: true,
                    },
                )
            },
            Err(message) => {
                self.phase = Phase::Ended;
                PageAction::Fail(PageError::Recognition(message))
            },
        }
    }
}

/// All reports of a page from a state on, and the contents at its end, when the
/// recognizer gives `replies` in turn.
pub open spec fn run(
    state: PageState,
    blocks: Seq<LayoutBlock>,
    config: PipelineConfig,
    size: (u32, u32),
    replies: Seq<Seq<char>>,
) -> (Seq<Report>, Seq<Option<Seq<char>>>)
    decreases blocks.len() - state.contents.len(), phases_left(state.phase),
{
    if state.phase == Phase::Ended || state.contents.len() > blocks.len() || (state.phase
        != Phase::Starting && state.phase != Phase::Detected && state.contents.len()
        == blocks.len()) {
        (Seq::empty(), state.contents)
    } else if state.phase == Phase::Waiting {
        if replies.len() == 0 {
            (Seq::empty(), state.contents)
        } else {
            let rest = run(
                answered(state, replies[0]),
                blocks,
                config,
                size,
                replies.drop_first(),
            );
            (seq![finished(blocks, state.contents.len() as int, true)] + rest.0, rest.1)
        }
    } else {
        let next = stepped(state, blocks, config, size);
        let rest = run(next.0, blocks, config, size, replies);
        match next.1 {
            Step::Report(report) => (seq![report] + rest.0, rest.1),
            _ => rest,
        }
    }
}

/// How many phases a block still has before it.
pub open spec fn phases_left(phase: Phase) -> nat {
    match phase {
        Phase::Detected => 4,
        Phase::Starting => 3,
        Phase::Cropping => 2,
        Phase::Waiting => 1,
        Phase::Ended => 0,
    }
}

/// Two reports for every block from `i` on.
pub open spec fn block_reports(blocks: Seq<LayoutBlock>, config: PipelineConfig, i: int) -> Seq<
    Report,
>
    decreases blocks.len() - i,
{
    if i >= blocks.len() || i < 0 {
        Seq::empty()
    } else {
        seq![
            started(blocks, i, config),
            finished(blocks, i, task_of(blocks[i].label@, config) is Some),
        ] + block_reports(blocks, config, i + 1)
    }
}

/// How many blocks from `i` on are recognized.
pub open spec fn tasks_from(blocks: Seq<LayoutBlock>, config: PipelineConfig, i: int) -> nat
    decreases blocks.len() - i,
{
    if i >= blocks.len() || i < 0 {
        0
    } else {
        tasks_from(blocks, config, i + 1) + if task_of(blocks[i].label@, config) is Some {
            1nat
        } else {
            0nat
        }
    }
}

/// Contents as the blocks and the replies demand: a reply for every block that
/// is recognized, in turn, and nothing for the others.
pub open spec fn filled(
    blocks: Seq<LayoutBlock>,
    config: PipelineConfig,
    i: int,
    replies: Seq<Seq<char>>,
) -> Seq<Option<Seq<char>>>
    decreases blocks.len() - i,
{
    if i >= blocks.len() || i < 0 {
        Seq::empty()
    } else if task_of(blocks[i].label@, config) is Some {
        seq![Some(replies[0])] + filled(blocks, config, i + 1, replies.drop_first())
    } else {
        seq![None] + filled(blocks, config, i + 1, replies)
    }
}

/// No block that is recognized is void.
pub open spec fn blocks_show(
    blocks: Seq<LayoutBlock>,
    config: PipelineConfig,
    size: (u32, u32),
) -> bool {
    forall|i: int|
        0 <= i < blocks.len() && task_of((#[trigger] blocks[i]).label@, config) is Some
            ==> !crop::is_void(crop::crop_edges(size, blocks[i].bbox))
}

proof fn lemma_run_from(
    state: PageState,
    blocks: Seq<LayoutBlock>,
    config: PipelineConfig,
    size: (u32, u32),
    replies: Seq<Seq<char>>,
)
    requires
        state.phase == Phase::Starting,
        state.contents.len() <= blocks.len(),
        blocks_show(blocks, config, size),
        replies.len() == tasks_from(blocks, config, state.contents.len() as int),
    ensures
        run(state, blocks, config, size, replies).0 == block_reports(
            blocks,
            config,
            state.contents.len() as int,
        ),
        run(state, blocks, config, size, replies).1 == state.contents + filled(
            blocks,
            config,
            state.contents.len() as int,
            replies,
        ),
    decreases blocks.len() - state.contents.len(),
{
    let i = state.contents.len() as int;
    reveal_with_fuel(run, 4);
    if i < blocks.len() {
        let cropping = PageState { phase: Phase::Cropping, ..state };
        match task_of(blocks[i].label@, config) {
            None => {
                let after = PageState { phase: Phase::Starting, contents: state.contents.push(None) };
                lemma_run_from(after, blocks, config, size, replies);
                let rest = run(after, blocks, config, size, replies);
                assert(run(cropping, blocks, config, size, replies) == (
                    seq![finished(blocks, i, false)] + rest.0,
                    rest.1,
                ));
                assert(run(state, blocks, config, size, replies).0 == seq![
                    started(blocks, i, config),
                ] + (seq![finished(blocks, i, false)] + rest.0));
                assert(run(state, blocks, config, size, replies).0 == block_reports(
                    blocks,
                    config,
                    i,
                ));
                assert(state.contents.push(None) + filled(blocks, config, i + 1, replies)
                    == state.contents + (seq![None] + filled(blocks, config, i + 1, replies)));
            },
            Some(task) => {
                let waiting = PageState { phase: Phase::Waiting, ..state };
                let after = answered(state, replies[0]);
                assert(!crop::is_void(crop::crop_edges(size, blocks[i].bbox)));
                lemma_run_from(after, blocks, config, size, replies.drop_first());
                let rest = run(after, blocks, config, size, replies.drop_first());
                assert(run(waiting, blocks, config, size, replies) == (
                    seq![finished(blocks, i, true)] + rest.0,
                    rest.1,
                ));
                assert(run(cropping, blocks, config, size, replies) == run(
                    waiting,
                    blocks,
                    config,
                    size,
                    replies,
                ));
                assert(run(state, blocks, config, size, replies).0 == seq![
                    started(blocks, i, config),
                ] + (seq![finished(blocks, i, true)] + rest.0));
                assert(run(state, blocks, config, size, replies).0 == block_reports(
                    blocks,
                    config,
                    i,
                ));
                assert(state.contents.push(Some(replies[0])) + filled(
                    blocks,
                    config,
                    i + 1,
                    replies.drop_first(),
                ) == state.contents + (seq![Some(replies[0])] + filled(
                    blocks,
                    config,
                    i + 1,
                    replies.drop_first(),
                )));
            },
        }
    } else {
        assert(state.contents + Seq::<Option<Seq<char>>>::empty() == state.contents);
    }
}

/// A page whose blocks can all be cut out is parsed to its end: the number of
/// blocks is reported first, then the start and the end of every block in turn,
/// and exactly the blocks with a task get the replies of the recognizer.
pub proof fn law_every_block_is_reported(
    blocks: Seq<LayoutBlock>,
    config: PipelineConfig,
    size: (u32, u32),
    replies: Seq<Seq<char>>,
)
    requires
        blocks_show(blocks, config, size),
        replies.len() == tasks_from(blocks, config, 0),
    ensures
        ({
            let start = PageState { phase: Phase::Detected, contents: Seq::empty() };
            let end = run(start, blocks, config, size, replies);
            &&& end.0 == seq![Report::LayoutDetected { total: blocks.len() }] + block_reports(
                blocks,
                config,
                0,
            )
            &&& end.1 == filled(blocks, config, 0, replies)
        }),
{
    let start = PageState { phase: Phase::Detected, contents: Seq::empty() };
    let next = PageState { phase: Phase::Starting, ..start };
    lemma_run_from(next, blocks, config, size, replies);
    reveal_with_fuel(run, 2);
    assert(start.contents + filled(blocks, config, 0, replies) == filled(
        blocks,
        config,
        0,
        replies,
    ));
}

/// What is asked of a block goes by its label: tables and formulas have tasks of their
/// own, charts and seals too where they are to be recognized, images are read only where
/// that is wanted, and everything else is read as text.
pub proof fn law_labels_have_their_tasks(label: Seq<char>, config: PipelineConfig)
    ensures
        label == "table"@ ==> task_of(label, config) == Some(OcrTask::Table),
        label == "formula"@ ==> task_of(label, config) == Some(OcrTask::Formula),
        label == "chart"@ ==> task_of(label, config) == if config.use_chart_recognition {
            Some(OcrTask::Chart)
        } else {
            None
        },
        label == "seal"@ ==> task_of(label, config) == if config.use_seal_recognition {
            Some(OcrTask::Seal)
        } else {
            None
        },
        label == "image"@ ==> task_of(label, config) == if config.use_ocr_for_image_block {
            Some(OcrTask::Ocr)
        } else {
            None
        },
        task_of(label, config) == Some(OcrTask::Table) ==> label == "table"@,
        task_of(label, config) == Some(OcrTask::Formula) ==> label == "formula"@,
        task_of(label, config) == Some(OcrTask::Chart) ==> label == "chart"@,
        task_of(label, config) == Some(OcrTask::Seal) ==> label == "seal"@,
        task_of(label, config) is None ==> label == "chart"@ || label == "seal"@ || label
            == "image"@,
        task_of(label, config) != Some(OcrTask::Spotting),
{
    reveal_strlit("table");
    reveal_strlit("formula");
    reveal_strlit("chart");
    reveal_strlit("seal");
    reveal_strlit("image");
    assert("table"@[0] == 't' && "formula"@[0] == 'f' && "chart"@[0] == 'c' && "seal"@[0] == 's'
        && "image"@[0] == 'i');
}

/// Releases come with their own settings: the first reads neither charts nor seals, the
/// later one seals too, and neither reads images.
pub proof fn law_releases_read_their_blocks(
    config: PipelineConfig,
    version: PipelineVersion,
    label: Seq<char>,
)
    requires
        config.is_preset(version),
    ensures
        label == "chart"@ || label == "image"@ ==> task_of(label, config) is None,
        label == "seal"@ ==> (task_of(label, config) is Some <==> version == PipelineVersion::V1_5),
        label != "chart"@ && label != "image"@ && label != "seal"@ ==> task_of(label, config)
            is Some,
{
    law_labels_have_their_tasks(label, config);
    reveal_strlit("chart");
    reveal_strlit("seal");
    reveal_strlit("image");
    assert("chart"@[0] == 'c' && "seal"@[0] == 's' && "image"@[0] == 'i');
}

proof fn lemma_block_reports(blocks: Seq<LayoutBlock>, config: PipelineConfig, i: int, k: int)
    requires
        0 <= i <= k < blocks.len(),
    ensures
        block_reports(blocks, config, i).len() == 2 * (blocks.len() - i),
        block_reports(blocks, config, i)[2 * (k - i)] == started(blocks, k, config),
        block_reports(blocks, config, i)[2 * (k - i) + 1] == finished(
            blocks,
            k,
            task_of(blocks[k].label@, config) is Some,
        ),
    decreases blocks.len() - i,
{
    reveal_with_fuel(block_reports, 2);
    if i < k {
        lemma_block_reports(blocks, config, i + 1, k);
    } else if i + 1 < blocks.len() {
        lemma_block_reports(blocks, config, i + 1, i + 1);
    }
}

/// `places` are the blocks with a task from block `i` on, from entry `p` of the list on,
/// and those before it stand before block `i`.
pub open spec fn are_places(
    places: Seq<int>,
    p: int,
    blocks: Seq<LayoutBlock>,
    config: PipelineConfig,
    i: int,
) -> bool {
    &&& 0 <= p <= places.len()
    &&& forall|k: int, m: int| 0 <= k < m < places.len() ==> #[trigger] places[k] < #[trigger] places[m]
    &&& forall|k: int| 0 <= k < p ==> #[trigger] places[k] < i
    &&& forall|k: int|
        p <= k < places.len() ==> i <= #[trigger] places[k] < blocks.len() && task_of(
            blocks[places[k]].label@,
            config,
        ) is Some
    &&& forall|j: int|
        i <= j < blocks.len() && task_of((#[trigger] blocks[j]).label@, config) is Some
            ==> places.contains(j)
}

proof fn lemma_filled_places(
    places: Seq<int>,
    p: int,
    blocks: Seq<LayoutBlock>,
    config: PipelineConfig,
    i: int,
    replies: Seq<Seq<char>>,
)
    requires
        0 <= i <= blocks.len(),
        are_places(places, p, blocks, config, i),
        replies.len() == places.len(),
    ensures
        tasks_from(blocks, config, i) == places.len() - p,
        filled(blocks, config, i, replies.skip(p)).len() == blocks.len() - i,
        forall|k: int|
            p <= k < places.len() ==> filled(blocks, config, i, replies.skip(p))[#[trigger] places[k]
                - i] == Some(replies[k]),
        forall|j: int|
            i <= j < blocks.len() && task_of((#[trigger] blocks[j]).label@, config) is None
                ==> filled(blocks, config, i, replies.skip(p))[j - i] is None,
    decreases blocks.len() - i,
{
    if i == blocks.len() {
        if p < places.len() {
            assert(places[p] < blocks.len());
        }
    } else if task_of(blocks[i].label@, config) is Some {
        assert(places.contains(i));
        let k = choose|k: int| 0 <= k < places.len() && places[k] == i;
        assert(k == p) by {
            if p < k {
                assert(places[p] < places[k]);
            }
        }
        assert(are_places(places, p + 1, blocks, config, i + 1)) by {
            assert forall|m: int| p + 1 <= m < places.len() implies i + 1 <= #[trigger] places[m]
                < blocks.len() && task_of(blocks[places[m]].label@, config) is Some by {
                assert(places[p] < places[m]);
            }
        }
        lemma_filled_places(places, p + 1, blocks, config, i + 1, replies);
        assert(replies.skip(p).drop_first() == replies.skip(p + 1));
        let rest = filled(blocks, config, i + 1, replies.skip(p + 1));
        let whole = filled(blocks, config, i, replies.skip(p));
        assert(whole == seq![Some(replies[p])] + rest);
        assert forall|m: int| p <= m < places.len() implies whole[#[trigger] places[m] - i] == Some(
            replies[m],
        ) by {
            if m > p {
                assert(places[p] < places[m]);
                assert(rest[places[m] - (i + 1)] == Some(replies[m]));
            }
        }
        assert forall|j: int|
            i <= j < blocks.len() && task_of(
                (#[trigger] blocks[j]).label@,
                config,
            ) is None implies whole[j - i] is None by {
            assert(rest[j - (i + 1)] is None);
        }
    } else {
        assert(are_places(places, p, blocks, config, i + 1)) by {
            assert forall|m: int| p <= m < places.len() implies i + 1 <= #[trigger] places[m]
                < blocks.len() && task_of(blocks[places[m]].label@, config) is Some by {
                assert(places[m] != i);
            }
        }
        lemma_filled_places(places, p, blocks, config, i + 1, replies);
        let rest = filled(blocks, config, i + 1, replies.skip(p));
        let whole = filled(blocks, config, i, replies.skip(p));
        assert(whole == seq![None] + rest);
        assert forall|m: int| p <= m < places.len() implies whole[#[trigger] places[m] - i] == Some(
            replies[m],
        ) by {
            assert(places[m] != i);
            assert(rest[places[m] - (i + 1)] == Some(replies[m]));
        }
        assert forall|j: int|
            i <= j < blocks.len() && task_of(
                (#[trigger] blocks[j]).label@,
                config,
            ) is None implies whole[j - i] is None by {
            if j > i {
                assert(rest[j - (i + 1)] is None);
            }
        }
    }
}

/// The replies go to the blocks with a task, the first to the first of them and so on,
/// and the other blocks stay without a text. The number of blocks is reported first;
/// then every block is reported twice, with its own number and label, before the next
/// one comes up.
pub proof fn law_replies_go_to_their_blocks(
    blocks: Seq<LayoutBlock>,
    config: PipelineConfig,
    size: (u32, u32),
    replies: Seq<Seq<char>>,
    places: Seq<int>,
    i: int,
)
    requires
        blocks_show(blocks, config, size),
        are_places(places, 0, blocks, config, 0),
        replies.len() == places.len(),
        0 <= i < blocks.len(),
    ensures
        ({
            let start = PageState { phase: Phase::Detected, contents: Seq::empty() };
            let end = run(start, blocks, config, size, replies);
            &&& end.1.len() == blocks.len()
            &&& forall|k: int|
                0 <= k < places.len() ==> end.1[#[trigger] places[k]] == Some(replies[k])
            &&& task_of(blocks[i].label@, config) is None ==> end.1[i] is None
            &&& end.0.len() == 2 * blocks.len() + 1
            &&& end.0[0] == (Report::LayoutDetected { total: blocks.len() })
            &&& end.0[2 * i + 1] == (Report::BlockStarted {
                current: i + 1,
                total: blocks.len(),
                label: blocks[i].label@,
                will_recognize: task_of(blocks[i].label@, config) is Some,
            })
            &&& end.0[2 * i + 2] == (Report::BlockFinished {
                current: i + 1,
                total: blocks.len(),
                label: blocks[i].label@,
                recognized: task_of(blocks[i].label@, config) is Some,
            })
        }),
{
    lemma_filled_places(places, 0, blocks, config, 0, replies);
    assert(replies.skip(0) == replies);
    law_every_block_is_reported(blocks, config, size, replies);
    lemma_block_reports(blocks, config, 0, i);
    let filled_all = filled(blocks, config, 0, replies);
    assert forall|k: int| 0 <= k < places.len() implies filled_all[#[trigger] places[k]] == Some(
        replies[k],
    ) by {
        assert(filled_all[places[k] - 0] == Some(replies[k]));
    }
    if task_of(blocks[i].label@, config) is None {
        assert(filled_all[i - 0] is None);
    }
}

/// A block that comes up is handed to the recognizer with the task of its own label, and
/// what it says is kept behind the texts of the blocks before it; a block without pixels
/// ends the page, and one without a task is passed over.
pub proof fn law_blocks_go_to_the_recognizer(
    state: PageState,
    blocks: Seq<LayoutBlock>,
    config: PipelineConfig,
    size: (u32, u32),
    content: Seq<char>,
)
    requires
        state.phase == Phase::Cropping,
        state.contents.len() < blocks.len(),
    ensures
        ({
            let i = state.contents.len() as int;
            let task = task_of(blocks[i].label@, config);
            let void = crop::is_void(crop::crop_edges(size, blocks[i].bbox));
            let next = stepped(state, blocks, config, size);
            &&& task is Some && !void ==> {
                &&& next.1 == Step::Recognize(task->0)
                &&& next.0.phase == Phase::Waiting
                &&& next.0.contents == state.contents
                &&& answered(next.0, content).contents == state.contents.push(Some(content))
                &&& answered(next.0, content).phase == Phase::Starting
            }
            &&& task is Some && void ==> next.1 is Fail && next.0.phase == Phase::Ended
            &&& task is None ==> {
                &&& next.0.contents == state.contents.push(None)
                &&& next.0.phase == Phase::Starting
                &&& next.1 == Step::Report(
                    Report::BlockFinished {
                        current: i + 1,
                        total: blocks.len(),
                        label: blocks[i].label@,
                        recognized: false,
                    },
                )
            }
        }),
{
}

/// Page numbers, footnotes, headers and footers with their images, and asides are left out
/// of Markdown unless told otherwise, and nothing else is.
pub proof fn law_marginal_labels_are_ignored(
    config: PipelineConfig,
    version: PipelineVersion,
    label: Seq<char>,
)
    requires
        config.is_preset(version),
    ensures
        text::texts_of(config.markdown_ignore_labels@).contains(label) <==> label == "number"@
            || label == "footnote"@ || label == "header"@ || label == "header_image"@ || label
            == "footer"@ || label == "footer_image"@ || label == "aside_text"@,
        config.max_new_tokens is None,
        config.dtype == DType::F32,
{
    let list = usually_ignored();
    assert(list[0] == "number"@ && list[1] == "footnote"@ && list[2] == "header"@ && list[3]
        == "header_image"@ && list[4] == "footer"@ && list[5] == "footer_image"@ && list[6]
        == "aside_text"@);
    assert(list.len() == 7);
    if list.contains(label) {
        let i = choose|i: int| 0 <= i < list.len() && list[i] == label;
        assert(i == 0 || i == 1 || i == 2 || i == 3 || i == 4 || i == 5 || i == 6);
    }
}

} // verus!
