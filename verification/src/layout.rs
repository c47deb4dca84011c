//! Layout blocks of a page and their labels.

use crate::detection::{DetectionResult, DetectionResultV3};
use crate::float::F32;
use vstd::prelude::*;

verus! {

/// Labels of the layout classes, by class index. A label that several classes
/// share appears once for each of them.
pub const ID2LABEL: [&'static str; 25] = [
    "abstract",
    "algorithm",
    "aside_text",
    "chart",
    "content",
    "formula",
    "doc_title",
    "figure_title",
    "footer",
    "footer",
    "footnote",
    "formula_number",
    "header",
    "header",
    "image",
    "formula",
    "number",
    "paragraph_title",
    "reference",
    "reference_content",
    "seal",
    "table",
    "text",
    "text",
    "vision_footnote",
];

/// Label of a class, and `unknown` beyond the last class.
pub open spec fn label_of(id: int) -> Seq<char> {
    if 0 <= id < 25 {
        ID2LABEL[id]@
    } else {
        "unknown"@
    }
}

pub fn label_name(id: usize) -> (label: &'static str)
    ensures
        label@ == label_of(id as int),
{
    if id < 25 {
        ID2LABEL[id]
    } else {
        "unknown"
    }
}

/// A detected region of a page.
#[derive(Clone, Debug)]
pub struct LayoutBlock {
    pub id: usize,
    pub label_id: usize,
    pub label: String,
    pub score: F32,
    /// Left, top, right and bottom, in pixels.
    pub bbox: [F32; 4],
    /// Outline, in pixels, where the detector gives one.
    pub polygon: Option<Vec<[F32; 2]>>,
}

/// The regions of a page in reading order, and the size of the page in pixels.
#[derive(Clone, Debug)]
pub struct LayoutResult {
    pub width: u32,
    pub height: u32,
    pub blocks: Vec<LayoutBlock>,
}

/// `block` is number `id` of a page and stands for one detection.
pub open spec fn is_block(
    block: LayoutBlock,
    id: int,
    label_id: usize,
    score: F32,
    bbox: [F32; 4],
) -> bool {
    &&& block.id == id
    &&& block.label_id == label_id
    &&& block.label@ == label_of(label_id as int)
    &&& block.score == score
    &&& block.bbox == bbox
}

pub open spec fn least(a: nat, b: nat) -> nat {
    if a <= b {
        a
    } else {
        b
    }
}

/// The regions of a page without outlines.
pub fn blocks_from_v2(result: &DetectionResult) -> (blocks: Vec<LayoutBlock>)
    ensures
        blocks@.len() == least(
            least(result.scores@.len(), result.labels@.len()),
            result.boxes@.len(),
        ),
        forall|i: int|
            0 <= i < blocks@.len() ==> is_block(
                #[trigger] blocks@[i],
                i,
                result.labels@[i],
                result.scores@[i],
                result.boxes@[i],
            ) && blocks@[i].polygon is None,
{
    let mut blocks: Vec<LayoutBlock> = Vec::new();
    let mut i: usize = 0;
    while i < result.scores.len() && i < result.labels.len() && i < result.boxes.len()
        invariant
            i <= least(
                least(result.scores@.len(), result.labels@.len()),
                result.boxes@.len(),
            ),
            blocks@.len() == i,
            forall|k: int|
                0 <= k < i ==> is_block(
                    #[trigger] blocks@[k],
                    k,
                    result.labels@[k],
                    result.scores@[k],
                    result.boxes@[k],
                ) && blocks@[k].polygon is None,
        decreases result.scores.len() - i,
    {
        let label_id: usize = result.labels[i];
        blocks.push(
            LayoutBlock {
                id: i,
                label_id,
                label: label_name(label_id).to_owned(),
                score: result.scores[i],
                bbox: result.boxes[i],
                polygon: None,
            },
        );
        i = i + 1;
    }
    blocks
}

/// Copies an outline.
pub fn copy_points(points: &Vec<[F32; 2]>) -> (copy: Vec<[F32; 2]>)
    ensures
        copy@ == points@,
{
    let mut copy: Vec<[F32; 2]> = Vec::new();
    let mut i: usize = 0;
    while i < points.len()
        invariant
            i <= points@.len(),
            copy@ == points@.take(i as int),
        decreases points.len() - i,
    {
        copy.push(points[i]);
        i = i + 1;
        assert(copy@ == points@.take(i as int));
    }
    assert(points@.take(points@.len() as int) == points@);
    copy
}

/// The regions of a page with their outlines.
pub fn blocks_from_v3(result: &DetectionResultV3) -> (blocks: Vec<LayoutBlock>)
    ensures
        blocks@.len() == least(
            least(least(result.scores@.len(), result.labels@.len()), result.boxes@.len()),
            result.polygon_points@.len(),
        ),
        forall|i: int|
            0 <= i < blocks@.len() ==> is_block(
                #[trigger] blocks@[i],
                i,
                result.labels@[i],
                result.scores@[i],
                result.boxes@[i],
            ) && blocks@[i].polygon is Some && blocks@[i].polygon->0@
                == result.polygon_points@[i]@,
{
    let mut blocks: Vec<LayoutBlock> = Vec::new();
    let mut i: usize = 0;
    while i < result.scores.len() && i < result.labels.len() && i < result.boxes.len() && i
        < result.polygon_points.len()
        invariant
            i <= least(
                least(least(result.scores@.len(), result.labels@.len()), result.boxes@.len()),
                result.polygon_points@.len(),
            ),
            blocks@.len() == i,
            forall|k: int|
                0 <= k < i ==> is_block(
                    #[trigger] blocks@[k],
                    k,
                    result.labels@[k],
                    result.scores@[k],
                    result.boxes@[k],
                ) && blocks@[k].polygon is Some && blocks@[k].polygon->0@
                    == result.polygon_points@[k]@,
        decreases result.scores.len() - i,
    {
        let label_id: usize = result.labels[i];
        blocks.push(
            LayoutBlock {
                id: i,
                label_id,
                label: label_name(label_id).to_owned(),
                score: result.scores[i],
                bbox: result.boxes[i],
                polygon: Some(copy_points(&result.polygon_points[i])),
            },
        );
        i = i + 1;
    }
    blocks
}

/// The classes of the detector have these labels, and no class beyond them has one.
pub proof fn law_classes_have_their_labels(id: int)
    ensures
        id == 0 ==> label_of(id) == "abstract"@,
        id == 1 ==> label_of(id) == "algorithm"@,
        id == 2 ==> label_of(id) == "aside_text"@,
        id == 3 ==> label_of(id) == "chart"@,
        id == 4 ==> label_of(id) == "content"@,
        id == 5 || id == 15 ==> label_of(id) == "formula"@,
        id == 6 ==> label_of(id) == "doc_title"@,
        id == 7 ==> label_of(id) == "figure_title"@,
        id == 8 || id == 9 ==> label_of(id) == "footer"@,
        id == 10 ==> label_of(id) == "footnote"@,
        id == 11 ==> label_of(id) == "formula_number"@,
        id == 12 || id == 13 ==> label_of(id) == "header"@,
        id == 14 ==> label_of(id) == "image"@,
        id == 16 ==> label_of(id) == "number"@,
        id == 17 ==> label_of(id) == "paragraph_title"@,
        id == 18 ==> label_of(id) == "reference"@,
        id == 19 ==> label_of(id) == "reference_content"@,
        id == 20 ==> label_of(id) == "seal"@,
        id == 21 ==> label_of(id) == "table"@,
        id == 22 || id == 23 ==> label_of(id) == "text"@,
        id == 24 ==> label_of(id) == "vision_footnote"@,
        id < 0 || id >= 25 ==> label_of(id) == "unknown"@,
{
}

/// A block keeps the number, the score and the box of its detection, and the label of its
/// class.
pub proof fn law_blocks_keep_their_detection(
    block: LayoutBlock,
    id: int,
    label_id: usize,
    score: F32,
    bbox: [F32; 4],
)
    requires
        is_block(block, id, label_id, score, bbox),
    ensures
        block.id == id,
        block.label_id == label_id,
        block.score == score,
        block.bbox == bbox,
        label_id < 25 ==> block.label@ == ID2LABEL[label_id as int]@,
        label_id >= 25 ==> block.label@ == "unknown"@,
{
}

/// As many detections become blocks as every list describes, and no more.
pub proof fn law_lists_end_together(a: nat, b: nat)
    ensures
        least(a, b) <= a,
        least(a, b) <= b,
        least(a, b) == a || least(a, b) == b,
{
}

} // verus!
