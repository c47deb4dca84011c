//! Which files are read and where results are written.

use crate::text;
use vstd::prelude::*;
use vstd::string::*;

verus! {

/// Extensions of the image files that a directory is searched for.
pub const IMAGE_EXTENSIONS: [&'static str; 8] = [
    "png",
    "jpg",
    "jpeg",
    "bmp",
    "tiff",
    "tif",
    "webp",
    "gif",
];

/// Whether an extension, in any letter case, is one of an image file.
pub open spec fn is_image_extension(extension: Seq<char>) -> bool {
    exists|i: int| 0 <= i < 8 && #[trigger] IMAGE_EXTENSIONS[i]@ == text::ascii_lowered(extension)
}

/// Whether a file with this extension is an image file.
pub open spec fn is_image(extension: Option<String>) -> bool {
    match extension {
        Some(name) => is_image_extension(name@),
        None => false,
    }
}

/// Whether a file with this extension, as far as it has a readable one, is an image
/// file.
pub fn is_image_file(extension: &Option<String>) -> (image: bool)
    ensures
        image == is_image(*extension),
{
    let lower = match extension {
        Some(name) => text::to_ascii_lowercase(name.as_str()),
        None => {
            return false;
        },
    };
    let mut i: usize = 0;
    while i < 8
        invariant
            i <= 8,
            *extension is Some,
            lower@ == text::ascii_lowered(extension->0@),
            forall|k: int| 0 <= k < i ==> #[trigger] IMAGE_EXTENSIONS[k]@ != lower@,
        decreases 8 - i,
    {
        let known: &str = IMAGE_EXTENSIONS[i];
        assert(known@ == IMAGE_EXTENSIONS[i as int]@);
        if text::same_text(known, lower.as_str()) {
            return true;
        }
        i = i + 1;
    }
    false
}

/// A directory entry.
#[derive(Debug)]
pub struct DirectoryEntry {
    /// Bytes of the name of the entry.
    pub name: Vec<u8>,
    pub is_file: bool,
    pub extension: Option<String>,
}

impl DirectoryEntry {
    /// The entry is an image file.
    pub open spec fn shows_image(self) -> bool {
        self.is_file && is_image(self.extension)
    }
}

/// What stands at a path.
#[derive(Debug)]
pub enum Input {
    /// The entries of a directory, in any order.
    Directory(Vec<DirectoryEntry>),
    File(Option<String>),
    Missing,
}

/// Whether a name comes before another: at the first byte in which they differ it has
/// the smaller one, or it ends there.
pub open spec fn precedes(a: Seq<u8>, b: Seq<u8>) -> bool
    decreases a.len(),
{
    if b.len() == 0 {
        false
    } else if a.len() == 0 {
        true
    } else if a[0] != b[0] {
        a[0] < b[0]
    } else {
        precedes(a.drop_first(), b.drop_first())
    }
}

/// Whether entry `i` is listed before entry `j`: by their names, and those of one name
/// as they come.
pub open spec fn listed_before(entries: Seq<DirectoryEntry>, i: int, j: int) -> bool {
    precedes(entries[i].name@, entries[j].name@) || (entries[i].name@ == entries[j].name@ && i < j)
}

/// `images` are the entries that are image files, each once, in the order of their names.
pub open spec fn lists_images(images: Seq<usize>, entries: Seq<DirectoryEntry>) -> bool {
    &&& forall|k: int|
        0 <= k < images.len() ==> (#[trigger] images[k]) < entries.len()
            && entries[images[k] as int].shows_image()
    &&& forall|i: int|
        0 <= i < entries.len() && (#[trigger] entries[i]).shows_image() ==> images.contains(
            i as usize,
        )
    &&& forall|k: int, m: int|
        0 <= k < m < images.len() ==> listed_before(
            entries,
            (#[trigger] images[k]) as int,
            (#[trigger] images[m]) as int,
        )
}

proof fn lemma_precedes_transitive(a: Seq<u8>, b: Seq<u8>, c: Seq<u8>)
    requires
        precedes(a, b) || a == b,
        precedes(b, c),
    ensures
        precedes(a, c),
    decreases a.len(),
{
    if a != b && a.len() > 0 && b.len() > 0 && c.len() > 0 && a[0] == b[0] && b[0] == c[0] {
        lemma_precedes_transitive(a.drop_first(), b.drop_first(), c.drop_first());
    }
}

proof fn lemma_precedes_total(a: Seq<u8>, b: Seq<u8>)
    ensures
        precedes(a, b) || a == b || precedes(b, a),
    decreases a.len(),
{
    if a.len() > 0 && b.len() > 0 && a[0] == b[0] {
        lemma_precedes_total(a.drop_first(), b.drop_first());
        if a.drop_first() == b.drop_first() {
            assert(a == seq![a[0]] + a.drop_first());
            assert(b == seq![b[0]] + b.drop_first());
        }
    } else if a.len() == 0 && b.len() == 0 {
        assert(a == b);
    }
}

/// Whether a name comes before another.
fn is_before(a: &Vec<u8>, b: &Vec<u8>) -> (before: bool)
    ensures
        before == precedes(a@, b@),
{
    let mut i: usize = 0;
    assert(a@.skip(0) == a@ && b@.skip(0) == b@);
    while i < a.len() && i < b.len()
        invariant
            i <= a@.len(),
            i <= b@.len(),
            precedes(a@, b@) == precedes(a@.skip(i as int), b@.skip(i as int)),
        decreases a.len() - i,
    {
        let ghost x = a@.skip(i as int);
        let ghost y = b@.skip(i as int);
        assert(x[0] == a@[i as int] && y[0] == b@[i as int]);
        if a[i] != b[i] {
            return a[i] < b[i];
        }
        assert(x.drop_first() == a@.skip(i + 1) && y.drop_first() == b@.skip(i + 1));
        i = i + 1;
    }
    i < b.len()
}

/// The first `n` entries that are image files are in the list, and nothing else is.
spec fn lists_first(images: Seq<usize>, entries: Seq<DirectoryEntry>, n: int) -> bool {
    &&& forall|k: int|
        0 <= k < images.len() ==> (#[trigger] images[k]) < n
            && entries[images[k] as int].shows_image()
    &&& forall|i: int|
        0 <= i < n && (#[trigger] entries[i]).shows_image() ==> images.contains(i as usize)
    &&& forall|k: int, m: int|
        0 <= k < m < images.len() ==> listed_before(
            entries,
            (#[trigger] images[k]) as int,
            (#[trigger] images[m]) as int,
        )
}

/// Puts an entry behind all that are listed before it.
fn insert_image(images: &mut Vec<usize>, entries: &Vec<DirectoryEntry>, n: usize)
    requires
        n < entries@.len(),
        entries@[n as int].shows_image(),
        lists_first(old(images)@, entries@, n as int),
    ensures
        lists_first(final(images)@, entries@, n + 1),
{
    let ghost before = images@;
    let mut at: usize = 0;
    while at < images.len() && !is_before(&entries[n].name, &entries[images[at]].name)
        invariant
            n < entries@.len(),
            at <= images@.len(),
            images@ == before,
            lists_first(before, entries@, n as int),
            forall|k: int|
                0 <= k < at ==> !precedes(
                    entries@[n as int].name@,
                    entries@[(#[trigger] before[k]) as int].name@,
                ),
        decreases images.len() - at,
    {
        at = at + 1;
    }
    images.insert(at, n);
    let ghost after = images@;
    proof {
        let name = entries@[n as int].name@;
        assert forall|k: int| 0 <= k < after.len() implies (#[trigger] after[k]) < n + 1
            && entries@[after[k] as int].shows_image() by {
            if k < at {
                assert(after[k] == before[k]);
            } else if k > at {
                assert(after[k] == before[k - 1]);
            }
        }
        assert forall|i: int| 0 <= i < n + 1 && (#[trigger] entries@[i]).shows_image() implies
            after.contains(i as usize) by {
            if i == n {
                assert(after[at as int] == n);
            } else {
                let k = before.index_of(i as usize);
                assert(before.contains(i as usize));
                if k < at {
                    assert(after[k] == i);
                } else {
                    assert(after[k + 1] == i);
                }
            }
        }
        assert forall|k: int, m: int| 0 <= k < m < after.len() implies listed_before(
            entries@,
            (#[trigger] after[k]) as int,
            (#[trigger] after[m]) as int,
        ) by {
            if m < at {
                assert(after[k] == before[k] && after[m] == before[m]);
            } else if k > at {
                assert(after[k] == before[k - 1] && after[m] == before[m - 1]);
            } else if k < at && m > at {
                assert(after[k] == before[k] && after[m] == before[m - 1]);
            } else if m == at {
                assert(after[k] == before[k]);
                lemma_precedes_total(name, entries@[before[k] as int].name@);
            } else {
                assert(after[m] == before[m - 1]);
                let first = entries@[before[at as int] as int].name@;
                assert(precedes(name, first));
                if m - 1 > at {
                    assert(listed_before(entries@, before[at as int] as int, before[m - 1] as int));
                    let last = entries@[before[m - 1] as int].name@;
                    if first != last {
                        lemma_precedes_transitive(name, first, last);
                    }
                }
            }
        }
    }
}

/// The image files at a path shown as `shown`: the indices of the entries of a
/// directory, in the order of their names, or 0 for a file.
pub fn collect_images(input: &Input, shown: &str) -> (images: Result<Vec<usize>, String>)
    ensures
        match *input {
            Input::Directory(entries) => images is Ok && lists_images(images->Ok_0@, entries@),
            Input::File(extension) => if is_image(extension) {
                images is Ok && images->Ok_0@ == seq![0usize]
            } else {
                images is Err && images->Err_0@ == shown@ + " is not a supported image file"@
            },
            Input::Missing => images is Err && images->Err_0@ == shown@
                + " is not a valid file or directory"@,
        },
{
    match input {
        Input::Directory(entries) => {
            let mut images: Vec<usize> = Vec::new();
            let mut i: usize = 0;
            while i < entries.len()
                invariant
                    i <= entries@.len(),
                    lists_first(images@, entries@, i as int),
                decreases entries.len() - i,
            {
                if entries[i].is_file && is_image_file(&entries[i].extension) {
                    insert_image(&mut images, entries, i);
                } else {
                    assert(!entries@[i as int].shows_image());
                }
                i = i + 1;
            }
            Ok(images)
        },
        Input::File(extension) => {
            if is_image_file(extension) {
                let mut images: Vec<usize> = Vec::new();
                images.push(0);
                assert(images@ == seq![0usize]);
                Ok(images)
            } else {
                let mut message: String = shown.to_owned();
                message.append(" is not a supported image file");
                Err(message)
            }
        },
        Input::Missing => {
            let mut message: String = shown.to_owned();
            message.append(" is not a valid file or directory");
            Err(message)
        },
    }
}

/// The image files at a path, of which there must be one.
pub fn required_images(input: &Input, shown: &str) -> (images: Result<Vec<usize>, String>)
    ensures
        match *input {
            Input::Directory(entries) => if exists|i: int|
                0 <= i < entries@.len() && (#[trigger] entries@[i]).shows_image() {
                images is Ok && lists_images(images->Ok_0@, entries@)
            } else {
                images is Err && images->Err_0@ == "no image files found in "@ + shown@
            },
            Input::File(extension) => if is_image(extension) {
                images is Ok && images->Ok_0@ == seq![0usize]
            } else {
                images is Err && images->Err_0@ == shown@ + " is not a supported image file"@
            },
            Input::Missing => images is Err && images->Err_0@ == shown@
                + " is not a valid file or directory"@,
        },
{
    let images = collect_images(input, shown);
    match images {
        Ok(found) => {
            if found.len() == 0 {
                let mut message: String = "no image files found in ".to_owned();
                message.append(shown);
                Err(message)
            } else {
                assert(*input matches Input::Directory(entries) ==> entries@[found@[0] as int].shows_image());
                Ok(found)
            }
        },
        Err(message) => Err(message),
    }
}

/// Where a result goes.
#[derive(Debug)]
pub enum OutputPlace {
    /// To the path itself.
    AsGiven,
    /// To a file of this name in the directory at the path.
    Inside(String),
}

/// Name of the file that holds the result for an input with the given stem.
pub open spec fn output_name(stem: Option<Seq<char>>, extension: Seq<char>) -> Seq<char> {
    let name = match stem {
        Some(s) => s,
        None => "output"@,
    };
    if extension == "json"@ {
        name + "_res."@ + extension
    } else {
        name + "."@ + extension
    }
}

/// Decides where a result goes: a path with an extension is a file, any other one a
/// directory.
pub fn output_path(has_extension: bool, stem: Option<&str>, extension: &str) -> (place: OutputPlace)
    ensures
        has_extension ==> place is AsGiven,
        !has_extension ==> place is Inside && place->Inside_0@ == output_name(
            match stem {
                Some(s) => Some(s@),
                None => None,
            },
            extension@,
        ),
{
    if has_extension {
        return OutputPlace::AsGiven;
    }
    let mut name: String = match stem {
        Some(s) => s.to_owned(),
        None => "output".to_owned(),
    };
    if text::same_text(extension, "json") {
        name.append("_res.");
    } else {
        name.append(".");
    }
    name.append(extension);
    OutputPlace::Inside(name)
}

/// At the first byte in which two names differ, the one with the smaller byte comes
/// first; where one name begins the other, the shorter one does.
pub proof fn law_the_first_difference_decides(a: Seq<u8>, b: Seq<u8>, k: int)
    requires
        0 <= k <= a.len(),
        k < b.len(),
        a.take(k) == b.take(k),
        k == a.len() || a[k] < b[k],
    ensures
        precedes(a, b),
        !precedes(b, a),
    decreases k,
{
    if k > 0 {
        assert(a.take(k)[0] == a[0] && b.take(k)[0] == b[0]);
        assert(a.drop_first().take(k - 1) == a.take(k).drop_first());
        assert(b.drop_first().take(k - 1) == b.take(k).drop_first());
        law_the_first_difference_decides(a.drop_first(), b.drop_first(), k - 1);
    }
}

/// Names are in one order: none comes before itself, of two that differ one comes before
/// the other, and what comes before a name comes before all behind it.
pub proof fn law_names_are_in_order(a: Seq<u8>, b: Seq<u8>, c: Seq<u8>)
    ensures
        !precedes(a, a),
        a != b ==> precedes(a, b) || precedes(b, a),
        !(precedes(a, b) && precedes(b, a)),
        precedes(a, b) && precedes(b, c) ==> precedes(a, c),
    decreases a.len(),
{
    if a.len() > 0 {
        let rest = if c.len() > 0 {
            c.drop_first()
        } else {
            c
        };
        if b.len() > 0 {
            law_names_are_in_order(a.drop_first(), b.drop_first(), rest);
            if a[0] == b[0] && a.drop_first() == b.drop_first() {
                assert forall|i: int| 0 <= i < a.len() implies a[i] == b[i] by {
                    if i > 0 {
                        assert(a.drop_first()[i - 1] == b.drop_first()[i - 1]);
                    }
                }
                assert(a == b);
            }
        } else {
            law_names_are_in_order(a.drop_first(), b, rest);
        }
    } else if b.len() == 0 {
        assert(a == b);
    }
}

/// No image file is listed twice.
pub proof fn law_no_image_is_listed_twice(
    images: Seq<usize>,
    entries: Seq<DirectoryEntry>,
    k: int,
    m: int,
)
    requires
        lists_images(images, entries),
        0 <= k < m < images.len(),
    ensures
        images[k] != images[m],
        !precedes(entries[images[m] as int].name@, entries[images[k] as int].name@),
{
    let a = entries[images[k] as int].name@;
    let b = entries[images[m] as int].name@;
    assert(listed_before(entries, images[k] as int, images[m] as int));
    law_names_are_in_order(a, b, a);
    law_names_are_in_order(b, a, b);
}

/// Image files are those of eight extensions, in any letter case.
pub proof fn law_image_files_have_eight_extensions(extension: Seq<char>)
    ensures
        is_image_extension(extension) <==> {
            let lower = text::ascii_lowered(extension);
            ||| lower == "png"@
            ||| lower == "jpg"@
            ||| lower == "jpeg"@
            ||| lower == "bmp"@
            ||| lower == "tiff"@
            ||| lower == "tif"@
            ||| lower == "webp"@
            ||| lower == "gif"@
        },
{
    let lower = text::ascii_lowered(extension);
    assert(IMAGE_EXTENSIONS[0]@ == "png"@);
    assert(IMAGE_EXTENSIONS[1]@ == "jpg"@);
    assert(IMAGE_EXTENSIONS[2]@ == "jpeg"@);
    assert(IMAGE_EXTENSIONS[3]@ == "bmp"@);
    assert(IMAGE_EXTENSIONS[4]@ == "tiff"@);
    assert(IMAGE_EXTENSIONS[5]@ == "tif"@);
    assert(IMAGE_EXTENSIONS[6]@ == "webp"@);
    assert(IMAGE_EXTENSIONS[7]@ == "gif"@);
    if is_image_extension(extension) {
        let i = choose|i: int| 0 <= i < 8 && #[trigger] IMAGE_EXTENSIONS[i]@ == lower;
        assert(i == 0 || i == 1 || i == 2 || i == 3 || i == 4 || i == 5 || i == 6 || i == 7);
    }
}

/// A result goes to a file named after the input, `output` where it has no name, with the
/// extension behind a dot; JSON results have a mark before it.
pub proof fn law_results_are_named_after_their_input(name: Seq<char>, extension: Seq<char>)
    ensures
        output_name(Some(name), "json"@) == name + "_res.json"@,
        output_name(None, "json"@) == "output_res.json"@,
        extension != "json"@ ==> output_name(Some(name), extension) == name + seq!['.'] + extension,
        extension != "json"@ ==> output_name(None, extension) == "output."@ + extension,
{
    reveal_strlit("json");
    reveal_strlit("_res.");
    reveal_strlit("_res.json");
    reveal_strlit("output");
    reveal_strlit("output.");
    reveal_strlit("output_res.json");
    reveal_strlit(".");
    assert("_res."@ + "json"@ == "_res.json"@);
    assert(name + "_res."@ + "json"@ == name + ("_res."@ + "json"@));
    assert("output"@ + "_res."@ + "json"@ == "output_res.json"@);
    assert("."@ == seq!['.']);
    assert("output"@ + "."@ == "output."@);
}

} // verus!
