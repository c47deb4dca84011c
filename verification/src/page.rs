//! Parsed pages and their Markdown.

use crate::crop;
use crate::crop::CropError;
use crate::float::F32;
use crate::layout;
use crate::layout::LayoutBlock;
use crate::picture;
use crate::pipeline;
use crate::pipeline::{PageParser, PipelineConfig};
use crate::precision;
use crate::rounding;
use crate::rounding::SINGLE;
use crate::text;
use vstd::prelude::*;
use vstd::string::*;

verus! {

/// Settings that a result reports.
#[derive(Clone, Debug)]
pub struct PipelineModelSettings {
    pub use_doc_preprocessor: bool,
    pub use_layout_detection: bool,
    pub use_chart_recognition: bool,
    pub use_seal_recognition: bool,
    pub use_ocr_for_image_block: bool,
    pub format_block_content: bool,
    pub merge_layout_blocks: bool,
    pub markdown_ignore_labels: Vec<String>,
    pub return_layout_polygon_points: bool,
}

fn copy_texts(texts: &Vec<String>) -> (copy: Vec<String>)
    ensures
        text::texts_of(copy@) == text::texts_of(texts@),
{
    let mut copy: Vec<String> = Vec::new();
    let mut i: usize = 0;
    while i < texts.len()
        invariant
            i <= texts@.len(),
            text::texts_of(copy@) == text::texts_of(texts@).take(i as int),
        decreases texts.len() - i,
    {
        let ghost before = copy@;
        copy.push(texts[i].as_str().to_owned());
        i = i + 1;
        assert(text::texts_of(copy@) == text::texts_of(before).push(texts@[i as int - 1]@));
        assert(text::texts_of(copy@) == text::texts_of(texts@).take(i as int));
    }
    assert(text::texts_of(texts@).take(i as int) == text::texts_of(texts@));
    copy
}

impl PipelineModelSettings {
    /// The settings of a page that was parsed under `config`.
    pub open spec fn reports(self, config: PipelineConfig) -> bool {
        &&& !self.use_doc_preprocessor
        &&& self.use_layout_detection
        &&& self.use_chart_recognition == config.use_chart_recognition
        &&& self.use_seal_recognition == config.use_seal_recognition
        &&& self.use_ocr_for_image_block == config.use_ocr_for_image_block
        &&& !self.format_block_content
        &&& self.merge_layout_blocks
        &&& text::texts_of(self.markdown_ignore_labels@) == text::texts_of(
            config.markdown_ignore_labels@,
        )
        &&& self.return_layout_polygon_points
    }

    pub fn from_config(config: &PipelineConfig) -> (settings: Self)
        ensures
            settings.reports(*config),
    {
        PipelineModelSettings {
            use_doc_preprocessor: false,
            use_layout_detection: true,
            use_chart_recognition: config.use_chart_recognition,
            use_seal_recognition: config.use_seal_recognition,
            use_ocr_for_image_block: config.use_ocr_for_image_block,
            format_block_content: false,
            merge_layout_blocks: true,
            markdown_ignore_labels: copy_texts(&config.markdown_ignore_labels),
            return_layout_polygon_points: true,
        }
    }
}

/// A block of a parsed page.
#[derive(Clone, Debug)]
pub struct ParsedBlock {
    pub label: String,
    pub content: String,
    /// Left, top, right and bottom, in whole pixels.
    pub bbox: [u32; 4],
    pub id: usize,
    /// Place among the blocks that carry text, from 1 on.
    pub order: Option<usize>,
    pub group_id: usize,
    pub block_polygon_points: Vec<[F32; 2]>,
    /// Left, top, right and bottom, as detected.
    pub source_bbox: [F32; 4],
}

/// A parsed page.
#[derive(Clone, Debug)]
pub struct PipelineResult {
    pub input_path: Option<String>,
    pub source_path: Option<String>,
    pub page_index: Option<usize>,
    pub page_count: Option<usize>,
    pub width: u32,
    pub height: u32,
    pub model_settings: PipelineModelSettings,
    pub blocks: Vec<ParsedBlock>,
}

/// Whether a text is on a list.
pub fn lists_text(list: &Vec<String>, label: &str) -> (listed: bool)
    ensures
        listed == text::texts_of(list@).contains(label@),
{
    let ghost texts = text::texts_of(list@);
    let mut i: usize = 0;
    while i < list.len()
        invariant
            i <= list@.len(),
            texts == text::texts_of(list@),
            forall|k: int| 0 <= k < i ==> #[trigger] texts[k] != label@,
        decreases list.len() - i,
    {
        assert(texts[i as int] == list@[i as int]@);
        if text::same_text(list[i].as_str(), label) {
            assert(texts.contains(label@));
            return true;
        }
        i = i + 1;
    }
    false
}

/// What a block holds when the recognizer gave `content`.
pub open spec fn content_text(content: Option<Seq<char>>) -> Seq<char> {
    match content {
        Some(said) => said,
        None => Seq::empty(),
    }
}

/// Whether a block gets a place in the order of the text.
pub open spec fn is_numbered(
    label: Seq<char>,
    content: Option<Seq<char>>,
    ignored: Seq<Seq<char>>,
) -> bool {
    &&& text::trimmed(content_text(content)).len() > 0
    &&& !ignored.contains(label)
    &&& label != "image"@
}

/// How many of the first `n` blocks have a place in the order.
pub open spec fn numbered_before(
    blocks: Seq<LayoutBlock>,
    contents: Seq<Option<Seq<char>>>,
    ignored: Seq<Seq<char>>,
    n: int,
) -> nat
    decreases n,
{
    if n <= 0 {
        0
    } else {
        numbered_before(blocks, contents, ignored, n - 1) + if is_numbered(
            blocks[n - 1].label@,
            contents[n - 1],
            ignored,
        ) {
            1nat
        } else {
            0nat
        }
    }
}

/// The place of block `i` in the order.
pub open spec fn order_of(
    blocks: Seq<LayoutBlock>,
    contents: Seq<Option<Seq<char>>>,
    ignored: Seq<Seq<char>>,
    i: int,
) -> Option<usize> {
    if is_numbered(blocks[i].label@, contents[i], ignored) {
        Some((numbered_before(blocks, contents, ignored, i) + 1) as usize)
    } else {
        None
    }
}

/// The corners of a block, in pixels, clockwise from the upper left one.
pub open spec fn is_rectangle(points: Seq<[F32; 2]>, pixels: Seq<u32>) -> bool {
    &&& points.len() == 4
    &&& points[0]@ == seq![F32::of_integer(pixels[0]), F32::of_integer(pixels[1])]
    &&& points[1]@ == seq![F32::of_integer(pixels[2]), F32::of_integer(pixels[1])]
    &&& points[2]@ == seq![F32::of_integer(pixels[2]), F32::of_integer(pixels[3])]
    &&& points[3]@ == seq![F32::of_integer(pixels[0]), F32::of_integer(pixels[3])]
}

/// Two outlines with the same points.
pub open spec fn same_points(points: Seq<[F32; 2]>, other: Seq<[F32; 2]>) -> bool {
    points.len() == other.len() && forall|k: int|
        0 <= k < points.len() ==> (#[trigger] points[k])@ == other[k]@
}

/// The outline of a block, or its corners where it has none.
pub fn polygon_points(polygon: &Option<Vec<[F32; 2]>>, bbox: [u32; 4]) -> (points: Vec<[F32; 2]>)
    ensures
        match *polygon {
            Some(outline) => points@ == outline@,
            None => is_rectangle(points@, bbox@),
        },
{
    match polygon {
        Some(outline) => layout::copy_points(outline),
        None => {
            let left = F32::from_integer(bbox[0]);
            let top = F32::from_integer(bbox[1]);
            let right = F32::from_integer(bbox[2]);
            let bottom = F32::from_integer(bbox[3]);
            let mut points: Vec<[F32; 2]> = Vec::new();
            points.push([left, top]);
            points.push([right, top]);
            points.push([right, bottom]);
            points.push([left, bottom]);
            assert(is_rectangle(points@, bbox@));
            points
        },
    }
}

/// `parsed` is block number `i` with its content.
pub open spec fn is_parsed(
    parsed: ParsedBlock,
    i: int,
    block: LayoutBlock,
    content: Option<Seq<char>>,
) -> bool {
    &&& parsed.id == i
    &&& parsed.group_id == i
    &&& parsed.label@ == block.label@
    &&& parsed.content@ == content_text(content)
    &&& parsed.bbox@ == crop::whole_pixels(block.bbox)
    &&& parsed.source_bbox == block.bbox
    &&& match block.polygon {
        Some(outline) => parsed.block_polygon_points@ == outline@,
        None => is_rectangle(parsed.block_polygon_points@, crop::whole_pixels(block.bbox)),
    }
}

/// The blocks of a page with their contents, numbered where they carry text.
pub open spec fn are_parsed(
    parsed: Seq<ParsedBlock>,
    blocks: Seq<LayoutBlock>,
    contents: Seq<Option<Seq<char>>>,
    ignored: Seq<Seq<char>>,
) -> bool {
    &&& parsed.len() == blocks.len()
    &&& forall|i: int|
        0 <= i < parsed.len() ==> is_parsed(#[trigger] parsed[i], i, blocks[i], contents[i])
    &&& forall|i: int|
        0 <= i < parsed.len() ==> (#[trigger] parsed[i]).order == order_of(
            blocks,
            contents,
            ignored,
            i,
        )
}

proof fn lemma_numbered_bound(
    blocks: Seq<LayoutBlock>,
    contents: Seq<Option<Seq<char>>>,
    ignored: Seq<Seq<char>>,
    n: int,
)
    requires
        0 <= n,
    ensures
        numbered_before(blocks, contents, ignored, n) <= n,
    decreases n,
{
    if n > 0 {
        lemma_numbered_bound(blocks, contents, ignored, n - 1);
    }
}

/// Puts the blocks of a page and the recognized texts together.
pub fn parse_blocks(
    blocks: &Vec<LayoutBlock>,
    contents: &Vec<Option<String>>,
    ignored: &Vec<String>,
) -> (parsed: Vec<ParsedBlock>)
    requires
        contents@.len() == blocks@.len(),
    ensures
        are_parsed(
            parsed@,
            blocks@,
            pipeline::contents_of(contents@),
            text::texts_of(ignored@),
        ),
{
    let ghost texts = pipeline::contents_of(contents@);
    let ghost labels = text::texts_of(ignored@);
    let mut parsed: Vec<ParsedBlock> = Vec::new();
    let mut numbered: usize = 0;
    let total: usize = blocks.len();
    let mut i: usize = 0;
    while i < total
        invariant
            i <= total == blocks@.len(),
            contents@.len() == blocks@.len(),
            texts == pipeline::contents_of(contents@),
            labels == text::texts_of(ignored@),
            parsed@.len() == i,
            numbered == numbered_before(blocks@, texts, labels, i as int),
            forall|k: int|
                0 <= k < i ==> is_parsed(#[trigger] parsed@[k], k, blocks@[k], texts[k]),
            forall|k: int|
                0 <= k < i ==> (#[trigger] parsed@[k]).order == order_of(
                    blocks@,
                    texts,
                    labels,
                    k,
                ),
        decreases total - i,
    {
        let block = &blocks[i];
        let content: String = match &contents[i] {
            Some(said) => said.as_str().to_owned(),
            None => String::new(),
        };
        assert(content@ == content_text(texts[i as int]));
        let pixels = crop::bbox_to_u32(block.bbox);
        let trimmed = text::trim(content.as_str());
        let blank: bool = text::same_text(trimmed.as_str(), "");
        proof {
            reveal_strlit("");
            assert(blank == (text::trimmed(content@).len() == 0)) by {
                if text::trimmed(content@).len() == 0 {
                    assert(text::trimmed(content@) == ""@);
                }
            }
            lemma_numbered_bound(blocks@, texts, labels, i as int);
        }
        let order: Option<usize> = if !blank && !lists_text(ignored, block.label.as_str())
            && !text::same_text(block.label.as_str(), "image") {
            numbered = numbered + 1;
            Some(numbered)
        } else {
            None
        };
        parsed.push(
            ParsedBlock {
                label: block.label.as_str().to_owned(),
                content,
                bbox: pixels,
                id: i,
                order,
                group_id: i,
                block_polygon_points: polygon_points(&block.polygon, pixels),
                source_bbox: block.bbox,
            },
        );
        i = i + 1;
    }
    parsed
}

/// The places in the order run up from 1 with the blocks.
pub proof fn law_order_runs_up(
    blocks: Seq<LayoutBlock>,
    contents: Seq<Option<Seq<char>>>,
    ignored: Seq<Seq<char>>,
    i: int,
    j: int,
)
    requires
        0 <= i < j < blocks.len() <= usize::MAX,
        order_of(blocks, contents, ignored, i) is Some,
        order_of(blocks, contents, ignored, j) is Some,
    ensures
        1 <= order_of(blocks, contents, ignored, i)->0 < order_of(
            blocks,
            contents,
            ignored,
            j,
        )->0,
    decreases j - i,
{
    lemma_numbered_bound(blocks, contents, ignored, i);
    lemma_numbered_bound(blocks, contents, ignored, j);
    lemma_numbered_grows(blocks, contents, ignored, i + 1, j);
}

proof fn lemma_numbered_grows(
    blocks: Seq<LayoutBlock>,
    contents: Seq<Option<Seq<char>>>,
    ignored: Seq<Seq<char>>,
    i: int,
    j: int,
)
    requires
        0 <= i <= j,
    ensures
        numbered_before(blocks, contents, ignored, i) <= numbered_before(
            blocks,
            contents,
            ignored,
            j,
        ),
    decreases j,
{
    if i < j {
        lemma_numbered_grows(blocks, contents, ignored, i, j - 1);
    }
}

proof fn lemma_numbered_found(
    blocks: Seq<LayoutBlock>,
    contents: Seq<Option<Seq<char>>>,
    ignored: Seq<Seq<char>>,
    n: int,
    place: int,
) -> (i: int)
    requires
        0 <= n <= blocks.len() <= usize::MAX,
        1 <= place <= numbered_before(blocks, contents, ignored, n),
    ensures
        0 <= i < n,
        order_of(blocks, contents, ignored, i) == Some(place as usize),
    decreases n,
{
    lemma_numbered_bound(blocks, contents, ignored, n);
    if place <= numbered_before(blocks, contents, ignored, n - 1) {
        lemma_numbered_found(blocks, contents, ignored, n - 1, place)
    } else {
        n - 1
    }
}

/// No place in the order is left out: every number up to the count of numbered
/// blocks is the place of a block.
pub proof fn law_order_has_no_gaps(
    blocks: Seq<LayoutBlock>,
    contents: Seq<Option<Seq<char>>>,
    ignored: Seq<Seq<char>>,
    place: int,
)
    requires
        blocks.len() <= usize::MAX,
        1 <= place <= numbered_before(blocks, contents, ignored, blocks.len() as int),
    ensures
        exists|i: int|
            0 <= i < blocks.len() && #[trigger] order_of(blocks, contents, ignored, i) == Some(
                place as usize,
            ),
{
    let i = lemma_numbered_found(blocks, contents, ignored, blocks.len() as int, place);
}

/// Labels that Markdown ignores stay in the result: under any two lists of
/// ignored labels, the blocks differ in their place in the order alone.
pub proof fn law_ignored_labels_keep_blocks(
    parsed: Seq<ParsedBlock>,
    other: Seq<ParsedBlock>,
    blocks: Seq<LayoutBlock>,
    contents: Seq<Option<Seq<char>>>,
    ignored: Seq<Seq<char>>,
    other_ignored: Seq<Seq<char>>,
)
    requires
        are_parsed(parsed, blocks, contents, ignored),
        are_parsed(other, blocks, contents, other_ignored),
    ensures
        parsed.len() == other.len(),
        forall|i: int|
            0 <= i < parsed.len() ==> {
                &&& (#[trigger] parsed[i]).label@ == other[i].label@
                &&& parsed[i].content@ == other[i].content@
                &&& parsed[i].bbox@ == other[i].bbox@
                &&& parsed[i].id == other[i].id
                &&& parsed[i].group_id == other[i].group_id
                &&& parsed[i].source_bbox == other[i].source_bbox
                &&& same_points(
                    parsed[i].block_polygon_points@,
                    other[i].block_polygon_points@,
                )
            },
{
    assert forall|i: int| 0 <= i < parsed.len() implies {
        &&& (#[trigger] parsed[i]).label@ == other[i].label@
        &&& parsed[i].content@ == other[i].content@
        &&& parsed[i].bbox@ == other[i].bbox@
        &&& parsed[i].id == other[i].id
        &&& parsed[i].group_id == other[i].group_id
        &&& parsed[i].source_bbox == other[i].source_bbox
        &&& same_points(parsed[i].block_polygon_points@, other[i].block_polygon_points@)
    } by {
        assert(is_parsed(parsed[i], i, blocks[i], contents[i]));
        assert(is_parsed(other[i], i, blocks[i], contents[i]));
        let points = parsed[i].block_polygon_points@;
        let others = other[i].block_polygon_points@;
        assert forall|k: int| 0 <= k < points.len() implies (#[trigger] points[k])@ == others[k]@ by {
            assert(blocks[i].polygon is None ==> k == 0 || k == 1 || k == 2 || k == 3);
        }
    }
}

/// Makes the result of a page that was parsed to its end.
pub fn page_result(
    parser: &PageParser,
    config: &PipelineConfig,
    width: u32,
    height: u32,
    input_path: Option<String>,
    source_path: Option<String>,
) -> (result: PipelineResult)
    requires
        parser.contents@.len() == parser.blocks@.len(),
    ensures
        result.input_path == input_path,
        result.source_path == source_path,
        result.page_index is None,
        result.page_count is None,
        result.width == width,
        result.height == height,
        result.model_settings.reports(*config),
        are_parsed(
            result.blocks@,
            parser.blocks@,
            parser@.contents,
            text::texts_of(config.markdown_ignore_labels@),
        ),
{
    PipelineResult {
        input_path,
        source_path,
        page_index: None,
        page_count: None,
        width,
        height,
        model_settings: PipelineModelSettings::from_config(config),
        blocks: parse_blocks(&parser.blocks, &parser.contents, &config.markdown_ignore_labels),
    }
}

/// File name of the crop of an image block.
pub open spec fn crop_name(bbox: Seq<u32>) -> Seq<char> {
    "img_in_image_box_"@ + text::decimal(bbox[0] as nat) + "_"@ + text::decimal(bbox[1] as nat)
        + "_"@ + text::decimal(bbox[2] as nat) + "_"@ + text::decimal(bbox[3] as nat) + ".jpg"@
}

pub fn image_block_file_name(block: &ParsedBlock) -> (name: String)
    ensures
        name@ == crop_name(block.bbox@),
{
    let mut name: String = "img_in_image_box_".to_owned();
    name.append(text::decimal_u32(block.bbox[0]).as_str());
    name.append("_");
    name.append(text::decimal_u32(block.bbox[1]).as_str());
    name.append("_");
    name.append(text::decimal_u32(block.bbox[2]).as_str());
    name.append("_");
    name.append(text::decimal_u32(block.bbox[3]).as_str());
    name.append(".jpg");
    name
}

pub open spec fn difference(a: u32, b: u32) -> nat {
    if a >= b {
        (a - b) as nat
    } else {
        0
    }
}

/// Width of an image block as a percentage of the page, from 1 to 100, computed
/// in single precision; 100 where the page has no width.
pub open spec fn width_percent(width: nat, page_width: u32) -> nat {
    if page_width == 0 {
        100
    } else if width == 0 {
        1
    } else {
        let ratio = rounding::quotient(
            rounding::nearest(width, 1, 24),
            rounding::nearest(page_width as nat, 1, 24),
            24,
        );
        let percent = rounding::half_up(
            rounding::product(ratio, rounding::nearest(100, 1, 24), 24),
        );
        if percent < 1 {
            1
        } else if percent > 100 {
            100
        } else {
            percent
        }
    }
}

fn width_percent_of(width: u32, page_width: u32) -> (percent: u32)
    ensures
        percent == width_percent(width as nat, page_width),
{
    if page_width == 0 {
        return 100;
    }
    if width == 0 {
        return 1;
    }
    let part = rounding::from_integer(width as u64, SINGLE);
    let whole = rounding::from_integer(page_width as u64, SINGLE);
    let hundred = rounding::from_integer(100, SINGLE);
    let ratio = rounding::divide(part, whole, SINGLE);
    let percent: u64 = rounding::half_up_of(rounding::multiply(ratio, hundred, SINGLE));
    if percent < 1 {
        1
    } else if percent > 100 {
        100
    } else {
        percent as u32
    }
}

/// Markdown of an image block.
pub open spec fn image_markdown(bbox: Seq<u32>, page_width: u32) -> Seq<char> {
    "<div style=\"text-align: center;\"><img src=\"imgs/"@ + crop_name(bbox)
        + "\" alt=\"Image\" width=\""@ + text::decimal(
        width_percent(difference(bbox[2], bbox[0]), page_width),
    ) + "%\" /></div>"@
}

pub fn image_block_markdown(block: &ParsedBlock, page_width: u32) -> (markdown: String)
    ensures
        markdown@ == image_markdown(block.bbox@, page_width),
{
    let width: u32 = if block.bbox[2] >= block.bbox[0] {
        block.bbox[2] - block.bbox[0]
    } else {
        0
    };
    let mut markdown: String = "<div style=\"text-align: center;\"><img src=\"imgs/".to_owned();
    markdown.append(image_block_file_name(block).as_str());
    markdown.append("\" alt=\"Image\" width=\"");
    markdown.append(text::decimal_u32(width_percent_of(width, page_width)).as_str());
    markdown.append("%\" /></div>");
    markdown
}

/// What stands before the content of a block with a label.
pub open spec fn heading(label: Seq<char>) -> Seq<char> {
    if label == "doc_title"@ {
        "# "@
    } else if label == "paragraph_title"@ || label == "figure_title"@ {
        "## "@
    } else {
        Seq::empty()
    }
}

/// Markdown of a block: an image, or its content under its heading. Blank
/// contents and ignored labels leave nothing.
pub open spec fn block_markdown(
    block: ParsedBlock,
    ignored: Seq<Seq<char>>,
    page_width: u32,
) -> Seq<char> {
    let content = text::trimmed(block.content@);
    if ignored.contains(block.label@) {
        Seq::empty()
    } else if block.label@ == "image"@ {
        image_markdown(block.bbox@, page_width) + "\n\n"@
    } else if content.len() == 0 {
        Seq::empty()
    } else {
        heading(block.label@) + content + "\n\n"@
    }
}

/// Markdown of a list of blocks.
pub open spec fn blocks_markdown(
    blocks: Seq<ParsedBlock>,
    ignored: Seq<Seq<char>>,
    page_width: u32,
) -> Seq<char>
    decreases blocks.len(),
{
    if blocks.len() == 0 {
        Seq::empty()
    } else {
        blocks_markdown(blocks.drop_last(), ignored, page_width) + block_markdown(
            blocks.last(),
            ignored,
            page_width,
        )
    }
}

impl PipelineResult {
    /// The page as Markdown.
    pub fn to_markdown(&self) -> (markdown: String)
        ensures
            markdown@ == blocks_markdown(
                self.blocks@,
                text::texts_of(self.model_settings.markdown_ignore_labels@),
                self.width,
            ),
    {
        let ghost ignored = text::texts_of(self.model_settings.markdown_ignore_labels@);
        let mut out: String = String::new();
        let mut i: usize = 0;
        while i < self.blocks.len()
            invariant
                i <= self.blocks@.len(),
                ignored == text::texts_of(self.model_settings.markdown_ignore_labels@),
                out@ == blocks_markdown(self.blocks@.take(i as int), ignored, self.width),
            decreases self.blocks.len() - i,
        {
            let block = &self.blocks[i];
            let ghost before = out@;
            proof {
                let next = self.blocks@.take(i as int + 1);
                assert(next.drop_last() == self.blocks@.take(i as int));
                assert(next.last() == *block);
                reveal_strlit("");
            }
            i = i + 1;
            let label: &str = block.label.as_str();
            if lists_text(&self.model_settings.markdown_ignore_labels, label) {
                assert(before + Seq::<char>::empty() == before);
                continue;
            }
            if text::same_text(label, "image") {
                out.append(image_block_markdown(block, self.width).as_str());
                out.append("\n\n");
                assert(out@ == before + block_markdown(*block, ignored, self.width));
                continue;
            }
            let content = text::trim(block.content.as_str());
            if text::same_text(content.as_str(), "") {
                assert(before + Seq::<char>::empty() == before);
                continue;
            }
            assert(content@.len() > 0) by {
                if content@.len() == 0 {
                    assert(content@ == ""@);
                }
            }
            if text::same_text(label, "doc_title") {
                out.append("# ");
            } else if text::same_text(label, "paragraph_title") || text::same_text(
                label,
                "figure_title",
            ) {
                out.append("## ");
            }
            assert(out@ == before + heading(label@));
            out.append(content.as_str());
            out.append("\n\n");
            assert(out@ == before + block_markdown(*block, ignored, self.width));
        }
        assert(self.blocks@.take(self.blocks@.len() as int) == self.blocks@);
        out
    }

    /// Which blocks are images.
    pub open spec fn image_indices(self, n: int) -> Seq<int>
        decreases n,
    {
        if n <= 0 {
            Seq::empty()
        } else {
            let before = self.image_indices(n - 1);
            if self.blocks@[n - 1].label@ == "image"@ {
                before.push(n - 1)
            } else {
                before
            }
        }
    }

    /// Whether Markdown needs crops of the source image.
    pub open spec fn needs_crops(self) -> bool {
        self.source_path is Some && self.image_indices(self.blocks@.len() as int).len() > 0
    }

    /// The image blocks to be cut out of the source image for Markdown: none where
    /// the source is not known.
    pub fn markdown_crops(&self) -> (indices: Vec<usize>)
        ensures
            indices@.len() > 0 <==> self.needs_crops(),
            self.needs_crops() ==> indices@.map_values(|i: usize| i as int) == self.image_indices(
                self.blocks@.len() as int,
            ),
            forall|k: int|
                0 <= k < indices@.len() ==> (#[trigger] indices@[k]) < self.blocks@.len(),
    {
        let mut indices: Vec<usize> = Vec::new();
        let mut i: usize = 0;
        assert(indices@.map_values(|i: usize| i as int) == Seq::<int>::empty());
        while i < self.blocks.len()
            invariant
                i <= self.blocks@.len(),
                indices@.map_values(|i: usize| i as int) == self.image_indices(i as int),
                forall|k: int|
                    0 <= k < indices@.len() ==> (#[trigger] indices@[k]) < self.blocks@.len(),
            decreases self.blocks.len() - i,
        {
            let ghost before = indices@;
            if text::same_text(self.blocks[i].label.as_str(), "image") {
                indices.push(i);
                assert(indices@.map_values(|i: usize| i as int) == before.map_values(
                    |i: usize| i as int,
                ).push(i as int));
            }
            i = i + 1;
        }
        assert(indices@.len() == indices@.map_values(|i: usize| i as int).len());
        if self.source_path.is_none() {
            return Vec::new();
        }
        indices
    }

    /// Cuts an image block out of the source image: its file name, and its
    /// pixels.
    pub fn markdown_crop(&self, index: usize, source: &image::DynamicImage) -> (named: (
        String,
        Result<image::DynamicImage, CropError>,
    ))
        requires
            index < self.blocks@.len(),
            crop::crop_fits(
                picture::image_size(*source),
                self.blocks@[index as int].source_bbox,
            ),
        ensures
            named.0@ == crop_name(self.blocks@[index as int].bbox@),
            ({
                let bbox = self.blocks@[index as int].source_bbox;
                let edges = crop::crop_edges(picture::image_size(*source), bbox);
                &&& named.1 is Err <==> crop::is_void(edges)
                &&& named.1 is Err ==> named.1->Err_0 == (CropError { bbox })
                &&& named.1 is Ok ==> crop::shows(named.1->Ok_0, *source, edges)
            }),
    {
        let block = &self.blocks[index];
        (image_block_file_name(block), crop::crop_bbox(source, block.source_bbox))
    }

    /// Cuts an image block out of the source image, where there is such a block
    /// and the image has a place for it.
    pub fn checked_markdown_crop(&self, index: usize, source: &image::DynamicImage) -> (named:
        Option<(String, Result<image::DynamicImage, CropError>)>)
        ensures
            named is Some <==> index < self.blocks@.len() && crop::crop_fits(
                picture::image_size(*source),
                self.blocks@[index as int].source_bbox,
            ),
            match named {
                Some((name, part)) => {
                    let bbox = self.blocks@[index as int].source_bbox;
                    let edges = crop::crop_edges(picture::image_size(*source), bbox);
                    &&& name@ == crop_name(self.blocks@[index as int].bbox@)
                    &&& part is Err <==> crop::is_void(edges)
                    &&& part is Err ==> part->Err_0 == (CropError { bbox })
                    &&& part is Ok ==> crop::shows(part->Ok_0, *source, edges)
                },
                None => true,
            },
    {
        if index < self.blocks.len() && crop::can_crop(
            source.width(),
            source.height(),
            &self.blocks[index].source_bbox,
        ) {
            Some(self.markdown_crop(index, source))
        } else {
            None
        }
    }
}

/// An ignored label leaves nothing in Markdown, whatever the block holds, and
/// the block counts for nothing else there.
pub proof fn law_ignored_blocks_leave_no_markdown(
    blocks: Seq<ParsedBlock>,
    block: ParsedBlock,
    ignored: Seq<Seq<char>>,
    page_width: u32,
)
    requires
        ignored.contains(block.label@),
    ensures
        blocks_markdown(blocks.push(block), ignored, page_width) == blocks_markdown(
            blocks,
            ignored,
            page_width,
        ),
{
    assert(blocks.push(block).drop_last() == blocks);
    assert(blocks_markdown(blocks, ignored, page_width) + Seq::<char>::empty() == blocks_markdown(
        blocks,
        ignored,
        page_width,
    ));
}

/// Markdown of a page is the Markdown of its first blocks followed by that of
/// the others.
pub proof fn law_markdown_follows_the_blocks(
    first: Seq<ParsedBlock>,
    rest: Seq<ParsedBlock>,
    ignored: Seq<Seq<char>>,
    page_width: u32,
)
    ensures
        blocks_markdown(first + rest, ignored, page_width) == blocks_markdown(
            first,
            ignored,
            page_width,
        ) + blocks_markdown(rest, ignored, page_width),
    decreases rest.len(),
{
    if rest.len() == 0 {
        assert(first + rest == first);
        assert(blocks_markdown(first, ignored, page_width) + Seq::<char>::empty()
            == blocks_markdown(first, ignored, page_width));
    } else {
        law_markdown_follows_the_blocks(first, rest.drop_last(), ignored, page_width);
        assert((first + rest).drop_last() == first + rest.drop_last());
        let last = block_markdown(rest.last(), ignored, page_width);
        let a = blocks_markdown(first, ignored, page_width);
        let b = blocks_markdown(rest.drop_last(), ignored, page_width);
        assert((a + b) + last == a + (b + last));
    }
}

/// A page without blocks has no Markdown, and every block in turn adds to it: a block
/// whose label is not ignored adds its content without the white space around it, under
/// the mark of its label, and an empty line; only blank contents add nothing.
pub proof fn law_every_content_stands_in_markdown(
    blocks: Seq<ParsedBlock>,
    block: ParsedBlock,
    ignored: Seq<Seq<char>>,
    page_width: u32,
)
    requires
        !ignored.contains(block.label@),
        block.label@ != "image"@,
    ensures
        blocks_markdown(Seq::empty(), ignored, page_width) == Seq::<char>::empty(),
        text::trimmed(block.content@).len() == 0 ==> blocks_markdown(
            blocks.push(block),
            ignored,
            page_width,
        ) == blocks_markdown(blocks, ignored, page_width),
        text::trimmed(block.content@).len() > 0 && block.label@ == "doc_title"@
            ==> blocks_markdown(blocks.push(block), ignored, page_width) == blocks_markdown(
            blocks,
            ignored,
            page_width,
        ) + "# "@ + text::trimmed(block.content@) + "\n\n"@,
        text::trimmed(block.content@).len() > 0 && (block.label@ == "paragraph_title"@
            || block.label@ == "figure_title"@) ==> blocks_markdown(
            blocks.push(block),
            ignored,
            page_width,
        ) == blocks_markdown(blocks, ignored, page_width) + "## "@ + text::trimmed(block.content@)
            + "\n\n"@,
        text::trimmed(block.content@).len() > 0 && block.label@ != "doc_title"@ && block.label@
            != "paragraph_title"@ && block.label@ != "figure_title"@ ==> blocks_markdown(
            blocks.push(block),
            ignored,
            page_width,
        ) == blocks_markdown(blocks, ignored, page_width) + text::trimmed(block.content@)
            + "\n\n"@,
{
    let before = blocks_markdown(blocks, ignored, page_width);
    let content = text::trimmed(block.content@);
    assert(blocks.push(block).drop_last() == blocks);
    assert(before + Seq::<char>::empty() == before);
    reveal_strlit("doc_title");
    reveal_strlit("paragraph_title");
    reveal_strlit("figure_title");
    if block.label@ == "doc_title"@ {
        assert("doc_title"@.len() == 9 && "paragraph_title"@.len() == 15 && "figure_title"@.len()
            == 12);
        assert(before + ("# "@ + content + "\n\n"@) == before + "# "@ + content + "\n\n"@);
    } else if block.label@ == "paragraph_title"@ || block.label@ == "figure_title"@ {
        assert(before + ("## "@ + content + "\n\n"@) == before + "## "@ + content + "\n\n"@);
    } else {
        assert(before + (Seq::<char>::empty() + content + "\n\n"@) == before + content
            + "\n\n"@);
    }
}

/// An image block whose label is not ignored adds the line of its crop and an empty
/// line: the name of the file is made of the pixels of the block, and the width is the
/// part of the page that the block takes.
pub proof fn law_every_image_stands_in_markdown(
    blocks: Seq<ParsedBlock>,
    block: ParsedBlock,
    ignored: Seq<Seq<char>>,
    page_width: u32,
)
    requires
        !ignored.contains(block.label@),
        block.label@ == "image"@,
    ensures
        blocks_markdown(blocks.push(block), ignored, page_width) == blocks_markdown(
            blocks,
            ignored,
            page_width,
        ) + "<div style=\"text-align: center;\"><img src=\"imgs/"@ + "img_in_image_box_"@
            + text::decimal(block.bbox@[0] as nat) + "_"@ + text::decimal(block.bbox@[1] as nat)
            + "_"@ + text::decimal(block.bbox@[2] as nat) + "_"@ + text::decimal(
            block.bbox@[3] as nat,
        ) + ".jpg"@ + "\" alt=\"Image\" width=\""@ + text::decimal(
            width_percent(
                if block.bbox@[2] > block.bbox@[0] {
                    (block.bbox@[2] - block.bbox@[0]) as nat
                } else {
                    0
                },
                page_width,
            ),
        ) + "%\" /></div>"@ + "\n\n"@,
{
    let before = blocks_markdown(blocks, ignored, page_width);
    assert(blocks.push(block).drop_last() == blocks);
    let width = text::decimal(
        width_percent(difference(block.bbox@[2], block.bbox@[0]), page_width),
    );
    let head = "<div style=\"text-align: center;\"><img src=\"imgs/"@;
    let a = text::decimal(block.bbox@[0] as nat);
    let b = text::decimal(block.bbox@[1] as nat);
    let c = text::decimal(block.bbox@[2] as nat);
    let d = text::decimal(block.bbox@[3] as nat);
    let name = "img_in_image_box_"@ + a + "_"@ + b + "_"@ + c + "_"@ + d + ".jpg"@;
    assert(name == crop_name(block.bbox@));
    let flat = before + head + "img_in_image_box_"@ + a + "_"@ + b + "_"@ + c + "_"@ + d
        + ".jpg"@;
    assert(before + (head + name) == flat);
    assert(before + (head + name + "\" alt=\"Image\" width=\""@ + width + "%\" /></div>"@
        + "\n\n"@) == flat + "\" alt=\"Image\" width=\""@ + width + "%\" /></div>"@ + "\n\n"@);
}

/// No content is lost: whatever a block holds whose label is not ignored and is not
/// that of an image stands in the Markdown of its page, without the white space around
/// it.
pub proof fn law_no_content_is_lost(
    blocks: Seq<ParsedBlock>,
    ignored: Seq<Seq<char>>,
    page_width: u32,
    i: int,
)
    requires
        0 <= i < blocks.len(),
        !ignored.contains(blocks[i].label@),
        blocks[i].label@ != "image"@,
    ensures
        exists|from: int|
            #![trigger blocks_markdown(blocks, ignored, page_width).skip(from)]
            0 <= from <= blocks_markdown(blocks, ignored, page_width).len() && text::trimmed(
                blocks[i].content@,
            ).is_prefix_of(blocks_markdown(blocks, ignored, page_width).skip(from)),
{
    let content = text::trimmed(blocks[i].content@);
    let all = blocks_markdown(blocks, ignored, page_width);
    if content.len() == 0 {
        assert(content.is_prefix_of(all.skip(0)));
    } else {
        let first = blocks.take(i + 1);
        let rest = blocks.skip(i + 1);
        assert(first + rest == blocks);
        law_markdown_follows_the_blocks(first, rest, ignored, page_width);
        assert(first.drop_last() == blocks.take(i));
        assert(first.drop_last().push(blocks[i]) == first);
        law_every_content_stands_in_markdown(blocks.take(i), blocks[i], ignored, page_width);
        let before = blocks_markdown(blocks.take(i), ignored, page_width);
        let after = blocks_markdown(rest, ignored, page_width);
        let mark = heading(blocks[i].label@);
        let from = (before + mark).len() as int;
        assert(all == before + (mark + content + "\n\n"@) + after);
        assert(all.skip(from) == content + ("\n\n"@ + after));
        assert(content.is_prefix_of(all.skip(from)));
    }
}

/// An image takes the part of its page, in whole hundredths, that its width is of the
/// width of the page: the nearest one, but for one part in two million of it, and none
/// below one or above a hundred.
pub proof fn law_percentages_are_parts_of_the_page(width: nat, page_width: u32)
    ensures
        1 <= width_percent(width, page_width) <= 100,
        page_width == 0 ==> width_percent(width, page_width) == 100,
        page_width > 0 && width == 0 ==> width_percent(width, page_width) == 1,
        page_width > 0 && width_percent(width, page_width) < 100 ==> 0x1f_ffff * (200 * width)
            < 0x20_0000 * ((2 * width_percent(width, page_width) + 1) * page_width),
        page_width > 0 && width_percent(width, page_width) > 1 ==> 0x20_0000 * ((2 * width_percent(
            width,
            page_width,
        ) - 1) * page_width) <= 0x20_0001 * (200 * width),
{
    if page_width > 0 && width > 0 {
        let w = width as int;
        let c = page_width as int;
        let ratio = rounding::quotient(
            rounding::nearest(width, 1, 24),
            rounding::nearest(page_width as nat, 1, 24),
            24,
        );
        let z = rounding::product(ratio, rounding::nearest(100, 1, 24), 24);
        precision::lemma_single_fraction(width, page_width as nat, 100);
        rounding::law_halves_go_up(z);
        let n = precision::numer(z);
        let d = precision::denom(z);
        let p = rounding::half_up(z) as int;
        assert((2 * p - 1) * d <= 2 * n < (2 * p + 1) * d);
        assert(0x1f_ffff * (w * 100 * d) <= 0x20_0000 * (c * n));
        assert(0x20_0000 * (c * n) <= 0x20_0001 * (w * 100 * d));
        assert(0x1f_ffff * (200 * w) < 0x20_0000 * ((2 * p + 1) * c)) by (nonlinear_arith)
            requires
                2 * n < (2 * p + 1) * d,
                0x1f_ffff * (w * 100 * d) <= 0x20_0000 * (c * n),
                d > 0,
                c > 0,
        ;
        assert(0x20_0000 * ((2 * p - 1) * c) <= 0x20_0001 * (200 * w)) by (nonlinear_arith)
            requires
                (2 * p - 1) * d <= 2 * n,
                0x20_0000 * (c * n) <= 0x20_0001 * (w * 100 * d),
                d > 0,
                c > 0,
        ;
        let q = width_percent(width, page_width) as int;
        assert(q < 100 ==> p <= q);
        assert(q > 1 ==> q <= p);
        assert(p <= q ==> (2 * p + 1) * c <= (2 * q + 1) * c) by (nonlinear_arith)
            requires
                c > 0,
        ;
        assert(q <= p ==> (2 * q - 1) * c <= (2 * p - 1) * c) by (nonlinear_arith)
            requires
                c > 0,
        ;
    } else if page_width > 0 {
        let q = width_percent(width, page_width) as int;
        assert((2 * q + 1) * page_width > 0) by (nonlinear_arith)
            requires
                q == 1,
                page_width > 0,
        ;
    }
}

/// A block has a place in the order exactly where it holds more than white space, its
/// label is not ignored, and it is no image.
pub proof fn law_blocks_with_text_are_numbered(
    parsed: Seq<ParsedBlock>,
    blocks: Seq<LayoutBlock>,
    contents: Seq<Option<Seq<char>>>,
    ignored: Seq<Seq<char>>,
    i: int,
)
    requires
        are_parsed(parsed, blocks, contents, ignored),
        0 <= i < parsed.len(),
    ensures
        parsed[i].order is Some <==> text::trimmed(parsed[i].content@).len() > 0
            && !ignored.contains(parsed[i].label@) && parsed[i].label@ != "image"@,
        contents[i] matches Some(said) ==> parsed[i].content@ == said,
        contents[i] is None ==> parsed[i].content@.len() == 0,
        parsed[i].label@ == blocks[i].label@,
        parsed[i].id == i,
{
    assert(is_parsed(parsed[i], i, blocks[i], contents[i]));
    assert(parsed[i].order == order_of(blocks, contents, ignored, i));
}

/// The blocks to be cut out for Markdown are the images, every one of them once and in
/// their order.
pub proof fn law_every_image_is_cut_out(page: PipelineResult, n: int)
    requires
        0 <= n <= page.blocks@.len(),
    ensures
        forall|i: int|
            0 <= i < n ==> (page.image_indices(n).contains(i) <==> (
            #[trigger] page.blocks@[i]).label@ == "image"@),
        forall|k: int|
            0 <= k < page.image_indices(n).len() ==> 0 <= #[trigger] page.image_indices(n)[k] < n,
        forall|k: int, m: int|
            0 <= k < m < page.image_indices(n).len() ==> #[trigger] page.image_indices(n)[k]
                < #[trigger] page.image_indices(n)[m],
    decreases n,
{
    if n > 0 {
        law_every_image_is_cut_out(page, n - 1);
        let before = page.image_indices(n - 1);
        let now = page.image_indices(n);
        if page.blocks@[n - 1].label@ == "image"@ {
            assert(now == before.push(n - 1));
            assert(now[before.len() as int] == n - 1);
            assert forall|i: int| 0 <= i < n implies (now.contains(i) <==> (
            #[trigger] page.blocks@[i]).label@ == "image"@) by {
                if i < n - 1 {
                    if before.contains(i) {
                        let k = before.index_of(i);
                        assert(now[k] == i);
                    }
                    if now.contains(i) {
                        let k = now.index_of(i);
                        assert(before[k] == i);
                    }
                }
            }
        } else {
            assert(!now.contains(n - 1)) by {
                if now.contains(n - 1) {
                    let k = now.index_of(n - 1);
                    assert(before[k] < n - 1);
                }
            }
        }
    }
}

/// A block keeps the box and the outline of the detector; where the detector gives no
/// outline, the corners of the box in whole pixels take its place, clockwise from the upper
/// left one.
pub proof fn law_blocks_keep_their_place(
    parsed: Seq<ParsedBlock>,
    blocks: Seq<LayoutBlock>,
    contents: Seq<Option<Seq<char>>>,
    ignored: Seq<Seq<char>>,
    i: int,
)
    requires
        are_parsed(parsed, blocks, contents, ignored),
        0 <= i < parsed.len(),
    ensures
        parsed.len() == blocks.len(),
        parsed[i].group_id == i,
        parsed[i].source_bbox == blocks[i].bbox,
        parsed[i].bbox@ == crop::whole_pixels(blocks[i].bbox),
        blocks[i].polygon matches Some(outline) ==> parsed[i].block_polygon_points@ == outline@,
        blocks[i].polygon is None ==> {
            let corners = parsed[i].block_polygon_points@;
            let (left, top) = (parsed[i].bbox@[0], parsed[i].bbox@[1]);
            let (right, bottom) = (parsed[i].bbox@[2], parsed[i].bbox@[3]);
            &&& corners.len() == 4
            &&& corners[0]@ == seq![F32::of_integer(left), F32::of_integer(top)]
            &&& corners[1]@ == seq![F32::of_integer(right), F32::of_integer(top)]
            &&& corners[2]@ == seq![F32::of_integer(right), F32::of_integer(bottom)]
            &&& corners[3]@ == seq![F32::of_integer(left), F32::of_integer(bottom)]
        },
{
    assert(is_parsed(parsed[i], i, blocks[i], contents[i]));
}

/// The settings of a result say under which ones it was made.
pub proof fn law_settings_are_reported(settings: PipelineModelSettings, config: PipelineConfig)
    requires
        settings.reports(config),
    ensures
        settings.use_chart_recognition == config.use_chart_recognition,
        settings.use_seal_recognition == config.use_seal_recognition,
        settings.use_ocr_for_image_block == config.use_ocr_for_image_block,
        text::texts_of(settings.markdown_ignore_labels@) == text::texts_of(
            config.markdown_ignore_labels@,
        ),
        settings.use_layout_detection && settings.merge_layout_blocks
            && settings.return_layout_polygon_points,
        !settings.use_doc_preprocessor && !settings.format_block_content,
{
}

/// Markdown needs the source image exactly where its place is known and an image stands on
/// the page.
pub proof fn law_images_need_their_source(page: PipelineResult)
    ensures
        page.needs_crops() <==> page.source_path is Some && exists|i: int|
            0 <= i < page.blocks@.len() && (#[trigger] page.blocks@[i]).label@ == "image"@,
{
    let n = page.blocks@.len() as int;
    law_every_image_is_cut_out(page, n);
    let images = page.image_indices(n);
    if images.len() > 0 {
        assert(images.contains(images[0]));
        assert(page.blocks@[images[0]].label@ == "image"@);
    }
    if exists|i: int| 0 <= i < n && (#[trigger] page.blocks@[i]).label@ == "image"@ {
        let i = choose|i: int| 0 <= i < n && (#[trigger] page.blocks@[i]).label@ == "image"@;
        assert(images.contains(i));
    }
}

} // verus!
