//! Releases of the recognizer, the layout detector and the page pipeline, and
//! the recognition tasks.

use crate::float::F32;
use crate::precision::{denom, numer};
use crate::rounding;
use crate::text;
use std::str::FromStr;
use vstd::arithmetic::power2::lemma2_to64;
use vstd::prelude::*;
use vstd::string::*;

verus! {

/// Release of the PaddleOCR-VL recognizer.
#[derive(Clone, Copy, Debug, PartialEq, Eq, Structural)]
pub enum PaddleOcrVersion {
    V1_0,
    V1_5,
}

impl Default for PaddleOcrVersion {
    fn default() -> (version: Self)
        ensures
            version == PaddleOcrVersion::V1_0,
    {
        PaddleOcrVersion::V1_0
    }
}

/// Reads as `prefix`, the lower-cased text and `suffix`.
pub open spec fn rejection(prefix: Seq<char>, value: Seq<char>, suffix: Seq<char>) -> Seq<char> {
    prefix + text::ascii_lowered(value) + suffix
}

fn reject(prefix: &str, lower: &str, suffix: &str) -> (message: String)
    ensures
        message@ == prefix@ + lower@ + suffix@,
{
    let mut message = String::new();
    message.append(prefix);
    message.append(lower);
    message.append(suffix);
    message
}

impl PaddleOcrVersion {
    /// Directory of the model files, relative to the working directory.
    pub fn default_model_dir(self) -> (dir: &'static str)
        ensures
            dir@ == match self {
                PaddleOcrVersion::V1_0 => "./model1.0"@,
                PaddleOcrVersion::V1_5 => "./model1.5"@,
            },
    {
        match self {
            PaddleOcrVersion::V1_0 => "./model1.0",
            PaddleOcrVersion::V1_5 => "./model1.5",
        }
    }

    /// The release that a text names, in any letter case.
    pub open spec fn named(value: Seq<char>) -> Option<PaddleOcrVersion> {
        let lower = text::ascii_lowered(value);
        if lower == "1.0"@ || lower == "v1.0"@ || lower == "vl-1.0"@ {
            Some(PaddleOcrVersion::V1_0)
        } else if lower == "1.5"@ || lower == "v1.5"@ || lower == "vl-1.5"@ {
            Some(PaddleOcrVersion::V1_5)
        } else {
            None
        }
    }

    /// Reads the name of a release.
    pub fn parse(value: &str) -> (version: Result<Self, String>)
        ensures
            match Self::named(value@) {
                Some(expected) => version == Ok::<Self, String>(expected),
                None => version is Err && version->Err_0@ == rejection(
                    "unsupported model version '"@,
                    value@,
                    "', expected 1.0 or 1.5"@,
                ),
            },
    {
        let lower = text::to_ascii_lowercase(value);
        let name: &str = lower.as_str();
        if text::same_text(name, "1.0") || text::same_text(name, "v1.0") || text::same_text(
            name,
            "vl-1.0",
        ) {
            Ok(PaddleOcrVersion::V1_0)
        } else if text::same_text(name, "1.5") || text::same_text(name, "v1.5")
            || text::same_text(name, "vl-1.5") {
            Ok(PaddleOcrVersion::V1_5)
        } else {
            Err(reject("unsupported model version '", name, "', expected 1.0 or 1.5"))
        }
    }
}

impl FromStr for PaddleOcrVersion {
    type Err = String;

    fn from_str(value: &str) -> (version: Result<Self, String>)
        ensures
            match Self::named(value@) {
                Some(expected) => version == Ok::<Self, String>(expected),
                None => version is Err && version->Err_0@ == rejection(
                    "unsupported model version '"@,
                    value@,
                    "', expected 1.0 or 1.5"@,
                ),
            },
    {
        PaddleOcrVersion::parse(value)
    }
}

/// What the recognizer is asked to read from an image.
#[derive(Clone, Copy, Debug, PartialEq, Eq, Structural)]
pub enum OcrTask {
    Ocr,
    Table,
    Chart,
    Formula,
    Spotting,
    Seal,
}

impl Default for OcrTask {
    fn default() -> (task: Self)
        ensures
            task == OcrTask::Ocr,
    {
        OcrTask::Ocr
    }
}

impl OcrTask {
    /// Text of the question that a task puts to the model.
    pub open spec fn question(self) -> Seq<char> {
        match self {
            OcrTask::Ocr => "OCR:"@,
            OcrTask::Table => "Table Recognition:"@,
            OcrTask::Chart => "Chart Recognition:"@,
            OcrTask::Formula => "Formula Recognition:"@,
            OcrTask::Spotting => "Spotting:"@,
            OcrTask::Seal => "Seal Recognition:"@,
        }
    }

    pub fn prompt(self) -> (prompt: &'static str)
        ensures
            prompt@ == self.question(),
    {
        match self {
            OcrTask::Ocr => "OCR:",
            OcrTask::Table => "Table Recognition:",
            OcrTask::Chart => "Chart Recognition:",
            OcrTask::Formula => "Formula Recognition:",
            OcrTask::Spotting => "Spotting:",
            OcrTask::Seal => "Seal Recognition:",
        }
    }

    pub fn is_spotting(self) -> (spotting: bool)
        ensures
            spotting == (self == OcrTask::Spotting),
    {
        self == OcrTask::Spotting
    }

    /// The task that a text names, in any letter case.
    pub open spec fn named(value: Seq<char>) -> Option<OcrTask> {
        let lower = text::ascii_lowered(value);
        if lower == "ocr"@ {
            Some(OcrTask::Ocr)
        } else if lower == "table"@ {
            Some(OcrTask::Table)
        } else if lower == "chart"@ {
            Some(OcrTask::Chart)
        } else if lower == "formula"@ {
            Some(OcrTask::Formula)
        } else if lower == "spotting"@ {
            Some(OcrTask::Spotting)
        } else if lower == "seal"@ {
            Some(OcrTask::Seal)
        } else {
            None
        }
    }

    /// Reads the name of a task.
    pub fn parse(value: &str) -> (task: Result<Self, String>)
        ensures
            match Self::named(value@) {
                Some(expected) => task == Ok::<Self, String>(expected),
                None => task is Err && task->Err_0@ == rejection(
                    "unsupported task '"@,
                    value@,
                    "', expected one of: ocr, table, chart, formula, spotting, seal"@,
                ),
            },
    {
        let lower = text::to_ascii_lowercase(value);
        let name: &str = lower.as_str();
        if text::same_text(name, "ocr") {
            Ok(OcrTask::Ocr)
        } else if text::same_text(name, "table") {
            Ok(OcrTask::Table)
        } else if text::same_text(name, "chart") {
            Ok(OcrTask::Chart)
        } else if text::same_text(name, "formula") {
            Ok(OcrTask::Formula)
        } else if text::same_text(name, "spotting") {
            Ok(OcrTask::Spotting)
        } else if text::same_text(name, "seal") {
            Ok(OcrTask::Seal)
        } else {
            Err(
                reject(
                    "unsupported task '",
                    name,
                    "', expected one of: ocr, table, chart, formula, spotting, seal",
                ),
            )
        }
    }
}

impl FromStr for OcrTask {
    type Err = String;

    fn from_str(value: &str) -> (task: Result<Self, String>)
        ensures
            match Self::named(value@) {
                Some(expected) => task == Ok::<Self, String>(expected),
                None => task is Err && task->Err_0@ == rejection(
                    "unsupported task '"@,
                    value@,
                    "', expected one of: ocr, table, chart, formula, spotting, seal"@,
                ),
            },
    {
        OcrTask::parse(value)
    }
}

/// Release of the PP-DocLayout detector.
#[derive(Clone, Copy, Debug, PartialEq, Eq, Structural)]
pub enum DocLayoutVersion {
    V2,
    V3,
}

impl Default for DocLayoutVersion {
    fn default() -> (version: Self)
        ensures
            version == DocLayoutVersion::V2,
    {
        DocLayoutVersion::V2
    }
}

impl DocLayoutVersion {
    pub open spec fn model_path(self) -> Seq<char> {
        match self {
            DocLayoutVersion::V2 => "./model1.0/PP-DocLayoutV2/model.safetensors"@,
            DocLayoutVersion::V3 => "./model1.5/PP-DocLayoutV3/model.safetensors"@,
        }
    }

    /// Path of the model file, relative to the working directory.
    pub fn default_model_path(self) -> (path: &'static str)
        ensures
            path@ == self.model_path(),
    {
        match self {
            DocLayoutVersion::V2 => "./model1.0/PP-DocLayoutV2/model.safetensors",
            DocLayoutVersion::V3 => "./model1.5/PP-DocLayoutV3/model.safetensors",
        }
    }

    pub fn name(self) -> (name: &'static str)
        ensures
            name@ == match self {
                DocLayoutVersion::V2 => "PP-DocLayoutV2"@,
                DocLayoutVersion::V3 => "PP-DocLayoutV3"@,
            },
    {
        match self {
            DocLayoutVersion::V2 => "PP-DocLayoutV2",
            DocLayoutVersion::V3 => "PP-DocLayoutV3",
        }
    }

    /// The release that a text names, in any letter case.
    pub open spec fn named(value: Seq<char>) -> Option<DocLayoutVersion> {
        let lower = text::ascii_lowered(value);
        if lower == "2"@ || lower == "v2"@ || lower == "2.0"@ {
            Some(DocLayoutVersion::V2)
        } else if lower == "3"@ || lower == "v3"@ || lower == "3.0"@ {
            Some(DocLayoutVersion::V3)
        } else {
            None
        }
    }

    /// Reads the name of a release.
    pub fn parse(value: &str) -> (version: Result<Self, String>)
        ensures
            match Self::named(value@) {
                Some(expected) => version == Ok::<Self, String>(expected),
                None => version is Err && version->Err_0@ == rejection(
                    "unsupported DocLayout version '"@,
                    value@,
                    "', expected v2 or v3"@,
                ),
            },
    {
        let lower = text::to_ascii_lowercase(value);
        let name: &str = lower.as_str();
        if text::same_text(name, "2") || text::same_text(name, "v2") || text::same_text(
            name,
            "2.0",
        ) {
            Ok(DocLayoutVersion::V2)
        } else if text::same_text(name, "3") || text::same_text(name, "v3") || text::same_text(
            name,
            "3.0",
        ) {
            Ok(DocLayoutVersion::V3)
        } else {
            Err(reject("unsupported DocLayout version '", name, "', expected v2 or v3"))
        }
    }
}

impl FromStr for DocLayoutVersion {
    type Err = String;

    fn from_str(value: &str) -> (version: Result<Self, String>)
        ensures
            match Self::named(value@) {
                Some(expected) => version == Ok::<Self, String>(expected),
                None => version is Err && version->Err_0@ == rejection(
                    "unsupported DocLayout version '"@,
                    value@,
                    "', expected v2 or v3"@,
                ),
            },
    {
        DocLayoutVersion::parse(value)
    }
}

/// Release of the page pipeline.
#[derive(Clone, Copy, Debug, PartialEq, Eq, Structural)]
pub enum PipelineVersion {
    V1,
    V1_5,
}

impl Default for PipelineVersion {
    fn default() -> (version: Self)
        ensures
            version == PipelineVersion::V1_5,
    {
        PipelineVersion::V1_5
    }
}

impl PipelineVersion {
    pub open spec fn recognizer(self) -> PaddleOcrVersion {
        match self {
            PipelineVersion::V1 => PaddleOcrVersion::V1_0,
            PipelineVersion::V1_5 => PaddleOcrVersion::V1_5,
        }
    }

    pub open spec fn detector(self) -> DocLayoutVersion {
        match self {
            PipelineVersion::V1 => DocLayoutVersion::V2,
            PipelineVersion::V1_5 => DocLayoutVersion::V3,
        }
    }

    /// Recognizer release that the pipeline runs.
    pub fn vl_version(self) -> (version: PaddleOcrVersion)
        ensures
            version == self.recognizer(),
    {
        match self {
            PipelineVersion::V1 => PaddleOcrVersion::V1_0,
            PipelineVersion::V1_5 => PaddleOcrVersion::V1_5,
        }
    }

    /// Detector release that the pipeline runs.
    pub fn layout_version(self) -> (version: DocLayoutVersion)
        ensures
            version == self.detector(),
    {
        match self {
            PipelineVersion::V1 => DocLayoutVersion::V2,
            PipelineVersion::V1_5 => DocLayoutVersion::V3,
        }
    }

    pub fn default_layout_model_path(self) -> (path: &'static str)
        ensures
            path@ == self.detector().model_path(),
    {
        self.layout_version().default_model_path()
    }

    pub open spec fn vl_model_dir(self) -> Seq<char> {
        match self {
            PipelineVersion::V1 => "./model1.0"@,
            PipelineVersion::V1_5 => "./model1.5"@,
        }
    }

    pub fn default_vl_model_dir(self) -> (dir: &'static str)
        ensures
            dir@ == self.vl_model_dir(),
    {
        self.vl_version().default_model_dir()
    }

    /// Least confidence of a layout block: a half, or the number nearest to three
    /// tenths.
    pub open spec fn layout_threshold(self) -> F32 {
        match self {
            PipelineVersion::V1 => F32 { bits: 0x3f00_0000 },
            PipelineVersion::V1_5 => F32 { bits: 0x3e99_999a },
        }
    }

    pub fn default_layout_threshold(self) -> (threshold: F32)
        ensures
            threshold == self.layout_threshold(),
    {
        match self {
            PipelineVersion::V1 => F32 { bits: 0x3f00_0000 },
            PipelineVersion::V1_5 => F32 { bits: 0x3e99_999a },
        }
    }

    /// The release that a text names, in any letter case.
    pub open spec fn named(value: Seq<char>) -> Option<PipelineVersion> {
        let lower = text::ascii_lowered(value);
        if lower == "v1"@ || lower == "1"@ || lower == "1.0"@ {
            Some(PipelineVersion::V1)
        } else if lower == "v1.5"@ || lower == "1.5"@ {
            Some(PipelineVersion::V1_5)
        } else {
            None
        }
    }

    /// Reads the name of a release.
    pub fn parse(value: &str) -> (version: Result<Self, String>)
        ensures
            match Self::named(value@) {
                Some(expected) => version == Ok::<Self, String>(expected),
                None => version is Err && version->Err_0@ == rejection(
                    "unsupported pipeline version '"@,
                    value@,
                    "', expected v1 or v1.5"@,
                ),
            },
    {
        let lower = text::to_ascii_lowercase(value);
        let name: &str = lower.as_str();
        if text::same_text(name, "v1") || text::same_text(name, "1") || text::same_text(
            name,
            "1.0",
        ) {
            Ok(PipelineVersion::V1)
        } else if text::same_text(name, "v1.5") || text::same_text(name, "1.5") {
            Ok(PipelineVersion::V1_5)
        } else {
            Err(reject("unsupported pipeline version '", name, "', expected v1 or v1.5"))
        }
    }
}

impl FromStr for PipelineVersion {
    type Err = String;

    fn from_str(value: &str) -> (version: Result<Self, String>)
        ensures
            match Self::named(value@) {
                Some(expected) => version == Ok::<Self, String>(expected),
                None => version is Err && version->Err_0@ == rejection(
                    "unsupported pipeline version '"@,
                    value@,
                    "', expected v1 or v1.5"@,
                ),
            },
    {
        PipelineVersion::parse(value)
    }
}

/// A text names a task where it spells it in small or capital letters, and nothing else
/// does.
pub proof fn law_tasks_go_by_their_names(value: Seq<char>)
    ensures
        OcrTask::named(value) == Some(OcrTask::Ocr) <==> text::ascii_lowered(value) == "ocr"@,
        OcrTask::named(value) == Some(OcrTask::Table) <==> text::ascii_lowered(value) == "table"@,
        OcrTask::named(value) == Some(OcrTask::Chart) <==> text::ascii_lowered(value) == "chart"@,
        OcrTask::named(value) == Some(OcrTask::Formula) <==> text::ascii_lowered(value)
            == "formula"@,
        OcrTask::named(value) == Some(OcrTask::Spotting) <==> text::ascii_lowered(value)
            == "spotting"@,
        OcrTask::named(value) == Some(OcrTask::Seal) <==> text::ascii_lowered(value) == "seal"@,
{
    reveal_strlit("ocr");
    reveal_strlit("table");
    reveal_strlit("chart");
    reveal_strlit("formula");
    reveal_strlit("spotting");
    reveal_strlit("seal");
    assert("table"@[0] == 't' && "chart"@[0] == 'c');
    assert("ocr"@.len() == 3 && "seal"@.len() == 4 && "table"@.len() == 5 && "formula"@.len() == 7
        && "spotting"@.len() == 8);
}

/// A text names a release of the recognizer by its number, alone, behind a `v` or behind
/// `vl-`, and nothing else does.
pub proof fn law_recognizers_go_by_their_numbers(value: Seq<char>)
    ensures
        ({
            let lower = text::ascii_lowered(value);
            &&& PaddleOcrVersion::named(value) == Some(PaddleOcrVersion::V1_0) <==> lower
                == "1.0"@ || lower == "v"@ + "1.0"@ || lower == "vl-"@ + "1.0"@
            &&& PaddleOcrVersion::named(value) == Some(PaddleOcrVersion::V1_5) <==> lower
                == "1.5"@ || lower == "v"@ + "1.5"@ || lower == "vl-"@ + "1.5"@
        }),
{
    reveal_strlit("1.0");
    reveal_strlit("v1.0");
    reveal_strlit("vl-1.0");
    reveal_strlit("1.5");
    reveal_strlit("v1.5");
    reveal_strlit("vl-1.5");
    reveal_strlit("v");
    reveal_strlit("vl-");
    assert("v"@ + "1.0"@ == "v1.0"@);
    assert("v"@ + "1.5"@ == "v1.5"@);
    assert("vl-"@ + "1.0"@ == "vl-1.0"@);
    assert("vl-"@ + "1.5"@ == "vl-1.5"@);
    assert("1.0"@[2] == '0' && "1.5"@[2] == '5');
    assert("v1.0"@[3] == '0' && "v1.5"@[3] == '5');
    assert("vl-1.0"@[5] == '0' && "vl-1.5"@[5] == '5');
    assert("1.0"@.len() == 3 && "v1.0"@.len() == 4 && "vl-1.0"@.len() == 6);
    assert("1.5"@.len() == 3 && "v1.5"@.len() == 4 && "vl-1.5"@.len() == 6);
}

/// A text names a release of the layout detector by its number, alone, behind a `v` or
/// before `.0`, and nothing else does.
pub proof fn law_detectors_go_by_their_numbers(value: Seq<char>)
    ensures
        ({
            let lower = text::ascii_lowered(value);
            &&& DocLayoutVersion::named(value) == Some(DocLayoutVersion::V2) <==> lower == "2"@
                || lower == "v"@ + "2"@ || lower == "2"@ + ".0"@
            &&& DocLayoutVersion::named(value) == Some(DocLayoutVersion::V3) <==> lower == "3"@
                || lower == "v"@ + "3"@ || lower == "3"@ + ".0"@
        }),
{
    reveal_strlit("2");
    reveal_strlit("v2");
    reveal_strlit("2.0");
    reveal_strlit("3");
    reveal_strlit("v3");
    reveal_strlit("3.0");
    reveal_strlit("v");
    reveal_strlit(".0");
    assert("v"@ + "2"@ == "v2"@);
    assert("v"@ + "3"@ == "v3"@);
    assert("2"@ + ".0"@ == "2.0"@);
    assert("3"@ + ".0"@ == "3.0"@);
    assert("2"@[0] == '2' && "3"@[0] == '3');
    assert("v2"@[1] == '2' && "v3"@[1] == '3');
    assert("2.0"@[0] == '2' && "3.0"@[0] == '3');
    assert("2"@.len() == 1 && "v2"@.len() == 2 && "2.0"@.len() == 3);
    assert("3"@.len() == 1 && "v3"@.len() == 2 && "3.0"@.len() == 3);
}

/// A text names a release of the pipeline by its number, alone or behind a `v`, the first
/// one also as `1.0`; the recognizer that goes with it is the one of the same number.
pub proof fn law_pipelines_go_by_their_numbers(value: Seq<char>)
    ensures
        ({
            let lower = text::ascii_lowered(value);
            &&& PipelineVersion::named(value) == Some(PipelineVersion::V1) <==> lower == "1"@
                || lower == "v"@ + "1"@ || lower == "1"@ + ".0"@
            &&& PipelineVersion::named(value) == Some(PipelineVersion::V1_5) <==> lower == "1"@
                + ".5"@ || lower == "v"@ + "1.5"@
        }),
        PipelineVersion::named(value) is Some && PaddleOcrVersion::named(value) is Some
            ==> PipelineVersion::named(value)->0.recognizer() == PaddleOcrVersion::named(value)->0,
{
    reveal_strlit("1");
    reveal_strlit("v1");
    reveal_strlit("1.0");
    reveal_strlit("1.5");
    reveal_strlit("v1.5");
    reveal_strlit("v");
    reveal_strlit(".0");
    reveal_strlit(".5");
    assert("v"@ + "1"@ == "v1"@);
    assert("1"@ + ".0"@ == "1.0"@);
    assert("1"@ + ".5"@ == "1.5"@);
    assert("v"@ + "1.5"@ == "v1.5"@);
    assert("1.0"@[2] == '0' && "1.5"@[2] == '5');
    assert("1"@.len() == 1 && "v1"@.len() == 2 && "1.0"@.len() == 3 && "v1.5"@.len() == 4);
    law_recognizers_go_by_their_numbers(value);
    reveal_strlit("vl-");
    assert(("v"@ + "1.0"@)[3] == '0' && ("v"@ + "1.5"@)[3] == '5');
    assert(("v"@ + "1.0"@).len() == 4 && ("v"@ + "1.5"@).len() == 4);
    assert(("vl-"@ + "1.0"@).len() == 6 && ("vl-"@ + "1.5"@).len() == 6);
}

/// Letter case is no matter for any name.
pub proof fn law_names_are_read_in_any_letter_case(value: Seq<char>, other: Seq<char>)
    requires
        value.len() == other.len(),
        forall|i: int|
            0 <= i < value.len() ==> value[i] == other[i] || ('A' <= #[trigger] value[i] && value[i]
                <= 'Z' && other[i] as int == value[i] as int + 32),
    ensures
        OcrTask::named(value) == OcrTask::named(other),
        PaddleOcrVersion::named(value) == PaddleOcrVersion::named(other),
        DocLayoutVersion::named(value) == DocLayoutVersion::named(other),
        PipelineVersion::named(value) == PipelineVersion::named(other),
{
    assert forall|i: int| 0 <= i < value.len() implies text::ascii_lowered(value)[i]
        == text::ascii_lowered(other)[i] by {
        text::law_lowered_texts_have_no_capitals(value, i);
        text::law_lowered_texts_have_no_capitals(other, i);
        assert(value[i] == value[i]);
    }
    assert(text::ascii_lowered(value) == text::ascii_lowered(other));
}

/// The first pipeline pairs the first recognizer with the second detector, the later one
/// pairs their successors; the files of each stand below the directory of its recognizer,
/// and every block needs a confidence of one half or of three tenths.
pub proof fn law_pipelines_pair_their_models(version: PipelineVersion)
    ensures
        PipelineVersion::V1.recognizer() == PaddleOcrVersion::V1_0,
        PipelineVersion::V1.detector() == DocLayoutVersion::V2,
        PipelineVersion::V1_5.recognizer() == PaddleOcrVersion::V1_5,
        PipelineVersion::V1_5.detector() == DocLayoutVersion::V3,
        version.vl_model_dir() == match version {
            PipelineVersion::V1 => "./model1.0"@,
            PipelineVersion::V1_5 => "./model1.5"@,
        },
        version.detector().model_path() == version.vl_model_dir() + match version {
            PipelineVersion::V1 => "/PP-DocLayoutV2"@,
            PipelineVersion::V1_5 => "/PP-DocLayoutV3"@,
        } + "/model.safetensors"@,
        2 * numer(PipelineVersion::V1.layout_threshold().size()) == denom(
            PipelineVersion::V1.layout_threshold().size(),
        ),
        0xff_ffff * 3 * denom(PipelineVersion::V1_5.layout_threshold().size()) <= 0x100_0000 * 10
            * numer(PipelineVersion::V1_5.layout_threshold().size()) <= 0x100_0001 * 3 * denom(
            PipelineVersion::V1_5.layout_threshold().size(),
        ),
        !version.layout_threshold().is_negative(),
{
    reveal_strlit("./model1.0");
    reveal_strlit("./model1.5");
    reveal_strlit("/PP-DocLayoutV2");
    reveal_strlit("/PP-DocLayoutV3");
    reveal_strlit("/model.safetensors");
    reveal_strlit("./model1.0/PP-DocLayoutV2/model.safetensors");
    reveal_strlit("./model1.5/PP-DocLayoutV3/model.safetensors");
    assert("./model1.0"@ + "/PP-DocLayoutV2"@ + "/model.safetensors"@
        == "./model1.0/PP-DocLayoutV2/model.safetensors"@);
    assert("./model1.5"@ + "/PP-DocLayoutV3"@ + "/model.safetensors"@
        == "./model1.5/PP-DocLayoutV3/model.safetensors"@);
    lemma2_to64();
    let half = PipelineVersion::V1.layout_threshold().size();
    assert(half.m == 0x80_0000 && half.e == -24);
    assert(numer(half) == 0x80_0000 && denom(half) == 0x100_0000) by {
        assert(rounding::up(-24) == 0 && rounding::down(-24) == 24);
    }
    let less = PipelineVersion::V1_5.layout_threshold().size();
    assert(less.m == 0x99_999a && less.e == -25);
    assert(numer(less) == 0x99_999a && denom(less) == 0x200_0000) by {
        assert(rounding::up(-25) == 0 && rounding::down(-25) == 25);
    }
}

/// A name that is refused stands in the message, in small letters.
pub proof fn law_refused_names_are_quoted(prefix: Seq<char>, value: Seq<char>, suffix: Seq<char>)
    ensures
        ({
            let message = rejection(prefix, value, suffix);
            &&& message.len() == prefix.len() + value.len() + suffix.len()
            &&& message.take(prefix.len() as int) == prefix
            &&& message.subrange(prefix.len() as int, (prefix.len() + value.len()) as int)
                == text::ascii_lowered(value)
            &&& message.skip((prefix.len() + value.len()) as int) == suffix
        }),
{
    let message = rejection(prefix, value, suffix);
    assert(message.take(prefix.len() as int) == prefix);
    assert(message.subrange(prefix.len() as int, (prefix.len() + value.len()) as int)
        == text::ascii_lowered(value));
    assert(message.skip((prefix.len() + value.len()) as int) == suffix);
}

} // verus!
