//! Image files: telling them by their names and decoding them.
use vstd::prelude::*;

use crate::path::{text_lossy, utf8_text, FilePath};
use crate::pixels::RgbaImage;

verus! {

/// What follows the last dot of a file name, unless that dot comes first.
pub open spec fn extension(name: Seq<char>) -> Option<Seq<char>>
    decreases name.len(),
{
    if name.len() <= 1 {
        None
    } else if name.last() == '.' {
        Some(Seq::empty())
    } else {
        match extension(name.drop_last()) {
            Some(rest) => Some(rest.push(name.last())),
            None => None,
        }
    }
}

pub open spec fn lowercase(text: Seq<char>) -> Seq<char> {
    Seq::new(
        text.len(),
        |i: int|
            if 'A' <= text[i] <= 'Z' {
                (text[i] as u32 + 32) as char
            } else {
                text[i]
            },
    )
}

/// The image format that a lower case extension stands for. Formats are called by the first of their
/// extensions.
pub open spec fn format_of(extension: Seq<char>) -> Option<Seq<char>> {
    if extension == "png"@ || extension == "apng"@ {
        Some("png"@)
    } else if extension == "jpg"@ || extension == "jpeg"@ || extension == "jfif"@ {
        Some("jpg"@)
    } else if extension == "tiff"@ || extension == "tif"@ {
        Some("tiff"@)
    } else if extension == "pbm"@ || extension == "pam"@ || extension == "ppm"@ || extension
        == "pgm"@ || extension == "pnm"@ {
        Some("pbm"@)
    } else if extension == "gif"@ || extension == "bmp"@ || extension == "webp"@ || extension
        == "tga"@ || extension == "dds"@ || extension == "ico"@ || extension == "hdr"@ || extension
        == "exr"@ || extension == "ff"@ || extension == "avif"@ || extension == "qoi"@ {
        Some(extension)
    } else {
        None
    }
}

/// A lower case extension of an image format that can be read: of any but DDS.
pub open spec fn readable_extension(extension: Seq<char>) -> bool {
    format_of(extension) is Some && extension != "dds"@
}

/// A file of this name is an image.
pub open spec fn names_image(name: Seq<char>) -> bool {
    match extension(name) {
        Some(extension) => readable_extension(lowercase(extension)),
        None => false,
    }
}

/// Calls `image::ImageFormat::from_path`, which tells the format from the extension in any case,
/// and `image::ImageFormat::reading_enabled`, which is false of DDS only, with the formats that the
/// crate is built with here.
#[verifier::external_body]
fn has_readable_format(name: &str) -> (r: bool)
    requires
        !name@.contains('/'),
    ensures
        r == names_image(name@),
{
    match image::ImageFormat::from_path(name) {
        Ok(format) => format.reading_enabled(),
        Err(_) => false,
    }
}

/// The path is that of an image: the name of the file says so.
pub open spec fn image_path(path: Seq<Seq<u8>>) -> bool {
    path.len() > 0 && names_image(file_name(path))
}

/// Whether the file at `path` is an image, going by its name.
pub fn is_image(path: &FilePath) -> (r: bool)
    requires
        path.wf(),
    ensures
        r == image_path(path@),
{
    let count: usize = path.names.len();
    if count == 0 {
        return false;
    }
    assert(path@.last() == path.names@[count - 1]@);
    let name = text_lossy(&path.names[count - 1]);
    has_readable_format(name.as_str())
}

/// What came of decoding: the size and pixels of an image, or why there is none.
pub type Outcome = Result<(u32, u32, Seq<u8>), Seq<char>>;

/// The outcome that an image or a reason stands for.
pub open spec fn outcome_of(decoded: Result<RgbaImage, String>) -> Outcome {
    match decoded {
        Ok(image) => Ok((image.width, image.height, image.pixels@)),
        Err(e) => Err(e@),
    }
}

/// The format that `image::guess_format` tells from the start of `content`, or what it says if it
/// tells none.
pub uninterp spec fn guessed_format(content: Seq<u8>) -> Result<Seq<char>, Seq<char>>;

/// Calls `image::guess_format`, and `extensions_str` for what the format is called. The result depends
/// on nothing but the content. What is left unsaid is which first bytes stand for which format.
#[verifier::external_body]
fn guess_format(content: &Vec<u8>) -> (r: Result<String, String>)
    ensures
        text_result(r) == guessed_format(content@),
        r matches Ok(format) ==> format_of(format@) is Some,
{
    match image::guess_format(content) {
        Ok(format) => Ok(format.extensions_str()[0].to_owned()),
        Err(e) => Err(e.to_string()),
    }
}

/// A format, or why there is none, as texts.
pub open spec fn text_result(r: Result<String, String>) -> Result<Seq<char>, Seq<char>> {
    match r {
        Ok(format) => Ok(format@),
        Err(e) => Err(e@),
    }
}

/// Calls `image::ImageFormat::from_extension`, which knows extensions in any case, and
/// `extensions_str` for what the format is called.
#[verifier::external_body]
fn format_named(extension: &str) -> (r: Option<String>)
    ensures
        format_of(lowercase(extension@)) == (match r {
            Some(format) => Some(format@),
            None => None,
        }),
{
    image::ImageFormat::from_extension(extension).map(|format| format.extensions_str()[0].to_owned())
}

/// What an `image::error::UnsupportedError` says about an extension that stands for no format.
pub uninterp spec fn unknown_extension(extension: Seq<char>) -> Seq<char>;

/// Calls `image::error::UnsupportedError::from` for an extension, and `to_string`.
#[verifier::external_body]
fn complain_about(extension: &str) -> (r: String)
    ensures
        r@ == unknown_extension(extension@),
{
    let hint = image::error::ImageFormatHint::PathExtension(extension.into());
    image::error::UnsupportedError::from(hint).to_string()
}

/// `outcome` is one that `image::ImageReader` can give for this content, read as this format.
pub uninterp spec fn decodes_to(format: Seq<char>, content: Seq<u8>, outcome: Outcome) -> bool;

/// Decodes the content of an image file of this format. Calls `image::ImageReader::with_format` and
/// `decode`, and converts the image to RGBA. An image that comes back has four bytes for each pixel.
/// That the same content always gives the same pixels is left unsaid: which of several
/// implementations of a decoder runs depends on the machine.
#[verifier::external_body]
fn decode(format: &str, content: &Vec<u8>) -> (r: Result<RgbaImage, String>)
    requires
        format_of(format@) is Some,
    ensures
        decodes_to(format@, content@, outcome_of(r)),
        r matches Ok(image) ==> image.wf(),
{
    let format = image::ImageFormat::from_extension(format).unwrap();
    let reader = image::ImageReader::with_format(std::io::Cursor::new(content), format);
    let rgba = reader.decode().map_err(|e| e.to_string())?.into_rgba8();
    Ok(RgbaImage { width: rgba.width(), height: rgba.height(), pixels: rgba.into_raw() })
}

/// An image without pixels counts as one that could not be decoded.
pub open spec fn without_empty(outcome: Outcome) -> Outcome {
    match outcome {
        Ok((width, height, _)) => if width == 0 || height == 0 {
            Err("image is empty"@)
        } else {
            outcome
        },
        Err(_) => outcome,
    }
}

/// Turns an image without pixels into a reason why there is none.
pub fn reject_empty(decoded: Result<RgbaImage, String>) -> (r: Result<RgbaImage, String>)
    ensures
        outcome_of(r) == without_empty(outcome_of(decoded)),
{
    match decoded {
        Ok(image) => if image.width == 0 || image.height == 0 {
            Err("image is empty".to_owned())
        } else {
            Ok(image)
        },
        Err(e) => Err(e),
    }
}

/// An image with pixels, four bytes for each.
pub open spec fn loadable(image: RgbaImage) -> bool {
    image.wf() && image.width > 0 && image.height > 0
}

/// The name of the file at `path`.
pub open spec fn file_name(path: Seq<Seq<u8>>) -> Seq<char> {
    if path.len() == 0 {
        Seq::empty()
    } else {
        crate::path::utf8_lossy(path.last())
    }
}

/// What follows the last dot of a file name, byte for byte, unless that dot comes first.
pub open spec fn extension_bytes(name: Seq<u8>) -> Option<Seq<u8>>
    decreases name.len(),
{
    if name.len() <= 1 {
        None
    } else if name.last() == DOT {
        Some(Seq::empty())
    } else {
        match extension_bytes(name.drop_last()) {
            Some(rest) => Some(rest.push(name.last())),
            None => None,
        }
    }
}

/// The byte before an extension.
pub const DOT: u8 = 0x2e;

/// The bytes from number `start` on.
fn bytes_from(bytes: &Vec<u8>, start: usize) -> (r: Vec<u8>)
    requires
        start <= bytes@.len(),
    ensures
        r@ == bytes@.skip(start as int),
{
    let mut r: Vec<u8> = Vec::new();
    let mut i: usize = start;
    while i < bytes.len()
        invariant
            start <= i <= bytes@.len(),
            r@ == bytes@.subrange(start as int, i as int),
        decreases bytes@.len() - i,
    {
        r.push(bytes[i]);
        assert(r@ =~= bytes@.subrange(start as int, i + 1));
        i = i + 1;
    }
    assert(r@ =~= bytes@.skip(start as int));
    r
}

proof fn lemma_extension_bytes(name: Seq<u8>, dot: int)
    requires
        0 <= dot < name.len(),
        dot == 0 || name[dot] == DOT,
        forall|i: int| dot < i < name.len() ==> name[i] != DOT,
    ensures
        extension_bytes(name) == if dot == 0 {
            None::<Seq<u8>>
        } else {
            Some(name.skip(dot + 1))
        },
    decreases name.len(),
{
    if name.len() > 1 {
        if dot == name.len() - 1 {
            assert(name.skip(dot + 1) =~= Seq::empty());
        } else {
            let init = name.drop_last();
            assert forall|i: int| dot < i < init.len() implies init[i] != DOT by {
                assert(name[i] != DOT);
            }
            lemma_extension_bytes(init, dot);
            assert(init.skip(dot + 1).push(name.last()) =~= name.skip(dot + 1));
        }
    }
}

fn find_extension(name: &Vec<u8>) -> (r: Option<Vec<u8>>)
    ensures
        extension_bytes(name@) == (match r {
            Some(extension) => Some(extension@),
            None => None,
        }),
{
    if name.len() == 0 {
        return None;
    }
    let mut dot: usize = name.len() - 1;
    while dot > 0 && name[dot] != DOT
        invariant
            dot < name@.len(),
            forall|i: int| dot < i < name@.len() ==> name@[i] != DOT,
        decreases dot,
    {
        dot = dot - 1;
    }
    proof {
        lemma_extension_bytes(name@, dot as int);
    }
    if dot == 0 {
        None
    } else {
        Some(bytes_from(name, dot + 1))
    }
}

/// The extension of the file at `path`, if there is one that says anything.
pub open spec fn telling_extension(path: Seq<Seq<u8>>) -> Option<Seq<u8>> {
    if path.len() == 0 {
        None
    } else {
        match extension_bytes(path.last()) {
            Some(extension) => if extension.len() == 0 {
                None
            } else {
                Some(extension)
            },
            None => None,
        }
    }
}

/// The format to read a file as, or why there is none.
pub enum Choice {
    /// This format.
    Format(String),
    /// None, for this reason.
    Unknown(String),
    /// None: the extension of the file is not text.
    NotText(Vec<u8>),
}

/// The format to read a file as, or why there is none.
pub ghost enum Chosen {
    Format(Seq<char>),
    Unknown(Seq<char>),
    NotText(Seq<u8>),
}

impl View for Choice {
    type V = Chosen;

    open spec fn view(&self) -> Chosen {
        match self {
            Choice::Format(format) => Chosen::Format(format@),
            Choice::Unknown(reason) => Chosen::Unknown(reason@),
            Choice::NotText(extension) => Chosen::NotText(extension@),
        }
    }
}

/// The format that the content of the file at `path` shows, or else the one that its extension stands
/// for. `guessed` is what the content shows.
pub open spec fn chosen(guessed: Result<Seq<char>, Seq<char>>, path: Seq<Seq<u8>>) -> Chosen {
    match guessed {
        Ok(format) => Chosen::Format(format),
        Err(reason) => match telling_extension(path) {
            None => Chosen::Unknown(reason),
            Some(extension) => if !vstd::utf8::valid_utf8(extension) {
                Chosen::NotText(extension)
            } else {
                let text = vstd::utf8::decode_utf8(extension);
                match format_of(lowercase(text)) {
                    Some(format) => Chosen::Format(format),
                    None => Chosen::Unknown(unknown_extension(text)),
                }
            },
        },
    }
}

/// Chooses the format to read the file at `path` as. `guessed` is what its content shows.
pub fn choose_format(guessed: Result<String, String>, path: &FilePath) -> (r: Choice)
    ensures
        r@ == chosen(text_result(guessed), path@),
{
    match guessed {
        Ok(format) => Choice::Format(format),
        Err(reason) => {
            let count: usize = path.names.len();
            if count == 0 {
                return Choice::Unknown(reason);
            }
            assert(path@.last() == path.names@[count - 1]@);
            match find_extension(&path.names[count - 1]) {
                None => Choice::Unknown(reason),
                Some(extension) => if extension.len() == 0 {
                    Choice::Unknown(reason)
                } else {
                    match utf8_text(&extension) {
                        None => Choice::NotText(extension),
                        Some(text) => match format_named(text.as_str()) {
                            Some(format) => Choice::Format(format),
                            None => Choice::Unknown(complain_about(text.as_str())),
                        },
                    }
                },
            }
        },
    }
}

/// Why a file could not be loaded.
pub enum LoadError {
    /// For this reason.
    Failed(String),
    /// Its content shows no format, and its extension, which is not text, is that of none.
    NotText(Vec<u8>),
}

/// A format is called by one of its extensions.
proof fn lemma_format_of_format(extension: Seq<char>)
    ensures
        format_of(extension) matches Some(format) ==> format_of(format) is Some,
{
}

/// `r` is what `outcome` of decoding leads to.
pub open spec fn is_outcome(r: Result<RgbaImage, LoadError>, outcome: Outcome) -> bool {
    match r {
        Ok(image) => outcome == outcome_of(Ok(image)),
        Err(LoadError::Failed(e)) => outcome == outcome_of(Err(e)),
        Err(LoadError::NotText(_)) => false,
    }
}

/// `r` is what comes of reading a file as this format.
pub open spec fn is_read_as(
    r: Result<RgbaImage, LoadError>,
    format: Seq<char>,
    content: Seq<u8>,
) -> bool {
    exists|outcome: Outcome| #[trigger]
        decodes_to(format, content, outcome) && is_outcome(r, without_empty(outcome))
}

/// `r` is what comes of loading a file of which this was chosen.
pub open spec fn is_loaded(r: Result<RgbaImage, LoadError>, choice: Chosen, content: Seq<u8>) -> bool {
    match choice {
        Chosen::Format(format) => is_read_as(r, format, content),
        Chosen::Unknown(reason) => r matches Err(LoadError::Failed(e)) && e@ == reason,
        Chosen::NotText(extension) => r matches Err(LoadError::NotText(e)) && e@ == extension,
    }
}

/// Decodes the `content` of the image file at `path`, or says why that is not possible.
pub fn load(path: &FilePath, content: &Vec<u8>) -> (r: Result<RgbaImage, LoadError>)
    ensures
        is_loaded(r, chosen(guessed_format(content@), path@), content@),
        r matches Ok(image) ==> loadable(image),
{
    let guessed = guess_format(content);
    proof {
        if let Some(extension) = telling_extension(path@) {
            lemma_format_of_format(lowercase(vstd::utf8::decode_utf8(extension)));
        }
    }
    match choose_format(guessed, path) {
        Choice::Format(format) => {
            let decoded = decode(format.as_str(), content);
            let ghost outcome = outcome_of(decoded);
            let r = match reject_empty(decoded) {
                Ok(image) => Ok(image),
                Err(e) => Err(LoadError::Failed(e)),
            };
            assert(decodes_to(format@, content@, outcome));
            assert(is_read_as(r, format@, content@));
            r
        },
        Choice::Unknown(reason) => Err(LoadError::Failed(reason)),
        Choice::NotText(extension) => Err(LoadError::NotText(extension)),
    }
}

/// PNG, JPEG, GIF, BMP, WebP and TIFF files are recognized by their extensions, whatever comes
/// before.
pub proof fn common_formats_are_recognized(stem: Seq<char>)
    requires
        stem.len() > 0,
    ensures
        names_image(stem + ".png"@),
        names_image(stem + ".jpg"@),
        names_image(stem + ".jpeg"@),
        names_image(stem + ".gif"@),
        names_image(stem + ".bmp"@),
        names_image(stem + ".webp"@),
        names_image(stem + ".tif"@),
        names_image(stem + ".tiff"@),
{
    reveal_strlit("dds");
    assert("dds"@[0] == 'd');
    reveal_strlit(".png");
    reveal_strlit("png");
    assert("png"@[0] == 'p');
    lemma_extension(stem, "png"@, ".png"@);
    reveal_strlit(".jpg");
    reveal_strlit("jpg");
    assert("jpg"@[0] == 'j');
    lemma_extension(stem, "jpg"@, ".jpg"@);
    reveal_strlit(".jpeg");
    reveal_strlit("jpeg");
    lemma_extension(stem, "jpeg"@, ".jpeg"@);
    reveal_strlit(".gif");
    reveal_strlit("gif");
    assert("gif"@[0] == 'g');
    lemma_extension(stem, "gif"@, ".gif"@);
    reveal_strlit(".bmp");
    reveal_strlit("bmp");
    assert("bmp"@[0] == 'b');
    lemma_extension(stem, "bmp"@, ".bmp"@);
    reveal_strlit(".webp");
    reveal_strlit("webp");
    lemma_extension(stem, "webp"@, ".webp"@);
    reveal_strlit(".tif");
    reveal_strlit("tif");
    assert("tif"@[0] == 't');
    lemma_extension(stem, "tif"@, ".tif"@);
    reveal_strlit(".tiff");
    reveal_strlit("tiff");
    lemma_extension(stem, "tiff"@, ".tiff"@);
}

/// What follows a dot in the middle of a name is its extension, if it holds no dot itself.
proof fn lemma_extension(stem: Seq<char>, ext: Seq<char>, dotted: Seq<char>)
    requires
        stem.len() > 0,
        dotted =~= seq!['.'] + ext,
        forall|i: int| 0 <= i < ext.len() ==> 'a' <= #[trigger] ext[i] <= 'z',
    ensures
        extension(stem + dotted) == Some(ext),
        lowercase(ext) == ext,
    decreases ext.len(),
{
    let name = stem + dotted;
    assert(lowercase(ext) =~= ext);
    if ext.len() == 0 {
        assert(name.last() == '.');
        assert(ext =~= Seq::empty());
    } else {
        assert(name.last() == ext.last());
        assert(ext.last() == ext[ext.len() - 1]);
        lemma_extension(stem, ext.drop_last(), dotted.drop_last());
        assert(name.drop_last() =~= stem + dotted.drop_last());
        assert(ext.drop_last().push(ext.last()) =~= ext);
    }
}

/// `text` is `word`, which is in lower case, in any case.
pub open spec fn spells(text: Seq<char>, word: Seq<char>) -> bool {
    &&& text.len() == word.len()
    &&& forall|i: int|
        0 <= i < word.len() ==> #[trigger] text[i] == word[i] || ('A' <= text[i] <= 'Z' && text[i] as u32
            + 32 == word[i] as u32)
}

/// `text` is one of the extensions of the image formats that can be read.
pub open spec fn spells_image(text: Seq<char>) -> bool {
    ||| spells(text, "png"@)
    ||| spells(text, "apng"@)
    ||| spells(text, "jpg"@)
    ||| spells(text, "jpeg"@)
    ||| spells(text, "jfif"@)
    ||| spells(text, "tiff"@)
    ||| spells(text, "tif"@)
    ||| spells(text, "pbm"@)
    ||| spells(text, "pam"@)
    ||| spells(text, "ppm"@)
    ||| spells(text, "pgm"@)
    ||| spells(text, "pnm"@)
    ||| spells(text, "gif"@)
    ||| spells(text, "bmp"@)
    ||| spells(text, "webp"@)
    ||| spells(text, "tga"@)
    ||| spells(text, "ico"@)
    ||| spells(text, "hdr"@)
    ||| spells(text, "exr"@)
    ||| spells(text, "ff"@)
    ||| spells(text, "avif"@)
    ||| spells(text, "qoi"@)
}

proof fn lemma_spells(text: Seq<char>, word: Seq<char>)
    requires
        forall|i: int| 0 <= i < word.len() ==> 'a' <= #[trigger] word[i] <= 'z',
    ensures
        spells(text, word) <==> lowercase(text) == word,
{
    let lower = lowercase(text);
    if spells(text, word) {
        assert forall|i: int| 0 <= i < word.len() implies lower[i] == word[i] by {
            assert(text[i] == word[i] || 'A' <= text[i] <= 'Z');
            assert('a' <= word[i] <= 'z');
        }
        assert(lower =~= word);
    }
    if lower == word {
        assert forall|i: int| 0 <= i < word.len() implies #[trigger] text[i] == word[i] || ('A'
            <= text[i] <= 'Z' && text[i] as u32 + 32 == word[i] as u32) by {
            assert(lower[i] == word[i]);
        }
    }
}

/// What each extension, in any case, stands for. There are no others.
pub proof fn extensions_stand_for_formats(text: Seq<char>)
    ensures
        spells(text, "png"@) ==> format_of(lowercase(text)) == Some("png"@),
        spells(text, "apng"@) ==> format_of(lowercase(text)) == Some("png"@),
        spells(text, "jpg"@) ==> format_of(lowercase(text)) == Some("jpg"@),
        spells(text, "jpeg"@) ==> format_of(lowercase(text)) == Some("jpg"@),
        spells(text, "jfif"@) ==> format_of(lowercase(text)) == Some("jpg"@),
        spells(text, "tiff"@) ==> format_of(lowercase(text)) == Some("tiff"@),
        spells(text, "tif"@) ==> format_of(lowercase(text)) == Some("tiff"@),
        spells(text, "pbm"@) ==> format_of(lowercase(text)) == Some("pbm"@),
        spells(text, "pam"@) ==> format_of(lowercase(text)) == Some("pbm"@),
        spells(text, "ppm"@) ==> format_of(lowercase(text)) == Some("pbm"@),
        spells(text, "pgm"@) ==> format_of(lowercase(text)) == Some("pbm"@),
        spells(text, "pnm"@) ==> format_of(lowercase(text)) == Some("pbm"@),
        spells(text, "gif"@) ==> format_of(lowercase(text)) == Some("gif"@),
        spells(text, "bmp"@) ==> format_of(lowercase(text)) == Some("bmp"@),
        spells(text, "webp"@) ==> format_of(lowercase(text)) == Some("webp"@),
        spells(text, "tga"@) ==> format_of(lowercase(text)) == Some("tga"@),
        spells(text, "ico"@) ==> format_of(lowercase(text)) == Some("ico"@),
        spells(text, "hdr"@) ==> format_of(lowercase(text)) == Some("hdr"@),
        spells(text, "exr"@) ==> format_of(lowercase(text)) == Some("exr"@),
        spells(text, "ff"@) ==> format_of(lowercase(text)) == Some("ff"@),
        spells(text, "avif"@) ==> format_of(lowercase(text)) == Some("avif"@),
        spells(text, "qoi"@) ==> format_of(lowercase(text)) == Some("qoi"@),
        spells(text, "dds"@) ==> format_of(lowercase(text)) == Some("dds"@),
        !spells_image(text) && !spells(text, "dds"@) ==> format_of(lowercase(text)) is None,
        readable_extension(lowercase(text)) <==> spells_image(text),
{
    reveal_strlit("png");
    assert("png"@ =~= seq!['p', 'n', 'g']);
    lemma_spells(text, "png"@);
    reveal_strlit("apng");
    assert("apng"@ =~= seq!['a', 'p', 'n', 'g']);
    lemma_spells(text, "apng"@);
    reveal_strlit("jpg");
    assert("jpg"@ =~= seq!['j', 'p', 'g']);
    lemma_spells(text, "jpg"@);
    reveal_strlit("jpeg");
    assert("jpeg"@ =~= seq!['j', 'p', 'e', 'g']);
    lemma_spells(text, "jpeg"@);
    reveal_strlit("jfif");
    assert("jfif"@ =~= seq!['j', 'f', 'i', 'f']);
    lemma_spells(text, "jfif"@);
    reveal_strlit("tiff");
    assert("tiff"@ =~= seq!['t', 'i', 'f', 'f']);
    lemma_spells(text, "tiff"@);
    reveal_strlit("tif");
    assert("tif"@ =~= seq!['t', 'i', 'f']);
    lemma_spells(text, "tif"@);
    reveal_strlit("pbm");
    assert("pbm"@ =~= seq!['p', 'b', 'm']);
    lemma_spells(text, "pbm"@);
    reveal_strlit("pam");
    assert("pam"@ =~= seq!['p', 'a', 'm']);
    lemma_spells(text, "pam"@);
    reveal_strlit("ppm");
    assert("ppm"@ =~= seq!['p', 'p', 'm']);
    lemma_spells(text, "ppm"@);
    reveal_strlit("pgm");
    assert("pgm"@ =~= seq!['p', 'g', 'm']);
    lemma_spells(text, "pgm"@);
    reveal_strlit("pnm");
    assert("pnm"@ =~= seq!['p', 'n', 'm']);
    lemma_spells(text, "pnm"@);
    reveal_strlit("gif");
    assert("gif"@ =~= seq!['g', 'i', 'f']);
    lemma_spells(text, "gif"@);
    reveal_strlit("bmp");
    assert("bmp"@ =~= seq!['b', 'm', 'p']);
    lemma_spells(text, "bmp"@);
    reveal_strlit("webp");
    assert("webp"@ =~= seq!['w', 'e', 'b', 'p']);
    lemma_spells(text, "webp"@);
    reveal_strlit("tga");
    assert("tga"@ =~= seq!['t', 'g', 'a']);
    lemma_spells(text, "tga"@);
    reveal_strlit("ico");
    assert("ico"@ =~= seq!['i', 'c', 'o']);
    lemma_spells(text, "ico"@);
    reveal_strlit("hdr");
    assert("hdr"@ =~= seq!['h', 'd', 'r']);
    lemma_spells(text, "hdr"@);
    reveal_strlit("exr");
    assert("exr"@ =~= seq!['e', 'x', 'r']);
    lemma_spells(text, "exr"@);
    reveal_strlit("ff");
    assert("ff"@ =~= seq!['f', 'f']);
    lemma_spells(text, "ff"@);
    reveal_strlit("avif");
    assert("avif"@ =~= seq!['a', 'v', 'i', 'f']);
    lemma_spells(text, "avif"@);
    reveal_strlit("qoi");
    assert("qoi"@ =~= seq!['q', 'o', 'i']);
    lemma_spells(text, "qoi"@);
    reveal_strlit("dds");
    assert("dds"@ =~= seq!['d', 'd', 's']);
    lemma_spells(text, "dds"@);
}

/// A file name that has a dot after its first character is that of an image if and only if what
/// follows the last dot is one of the extensions.
pub proof fn extensions_tell_images(stem: Seq<char>, extension: Seq<char>)
    requires
        stem.len() > 0,
        !extension.contains('.'),
    ensures
        names_image(stem + seq!['.'] + extension) <==> spells_image(extension),
{
    lemma_last_dot(stem, extension);
    extensions_stand_for_formats(extension);
}

/// A file name without a dot after its first character is not that of an image.
pub proof fn names_without_extension_tell_nothing(name: Seq<char>)
    requires
        forall|i: int| 0 < i < name.len() ==> #[trigger] name[i] != '.',
    ensures
        !names_image(name),
{
    lemma_no_dot(name);
}

proof fn lemma_no_dot(name: Seq<char>)
    requires
        forall|i: int| 0 < i < name.len() ==> #[trigger] name[i] != '.',
    ensures
        extension(name) is None,
    decreases name.len(),
{
    if name.len() > 1 {
        let init = name.drop_last();
        assert forall|i: int| 0 < i < init.len() implies #[trigger] init[i] != '.' by {
            assert(name[i] != '.');
        }
        lemma_no_dot(init);
    }
}

proof fn lemma_last_dot(stem: Seq<char>, ext: Seq<char>)
    requires
        stem.len() > 0,
        !ext.contains('.'),
    ensures
        extension(stem + seq!['.'] + ext) == Some(ext),
    decreases ext.len(),
{
    let name = stem + seq!['.'] + ext;
    if ext.len() == 0 {
        assert(name.last() == '.');
        assert(ext =~= Seq::empty());
    } else {
        let init = ext.drop_last();
        assert(!init.contains('.')) by {
            if init.contains('.') {
                let i: int = choose|i: int| 0 <= i < init.len() && init[i] == '.';
                assert(ext[i] == '.');
            }
        }
        lemma_last_dot(stem, init);
        assert(ext[ext.len() - 1] == ext.last());
        assert(name.last() == ext.last());
        assert(name.drop_last() =~= stem + seq!['.'] + init);
        assert(init.push(ext.last()) =~= ext);
    }
}

/// Whether a path is that of an image depends on the name of the file alone, and not on where it is.
pub proof fn only_the_file_name_counts(dir: Seq<Seq<u8>>, other: Seq<Seq<u8>>, name: Seq<u8>)
    ensures
        image_path(dir.push(name)) == names_image(crate::path::utf8_lossy(name)),
        image_path(dir.push(name)) == image_path(other.push(name)),
        !image_path(Seq::empty()),
{
}

/// `r` is what `outcome` of decoding means: the image with its size and pixels, if it has any, or the
/// reason why there is none.
pub open spec fn is_result(r: Result<RgbaImage, LoadError>, outcome: Outcome) -> bool {
    match outcome {
        Ok((width, height, pixels)) => if width > 0 && height > 0 {
            r matches Ok(image) && image.width == width && image.height == height && image.pixels@
                == pixels
        } else {
            r matches Err(LoadError::Failed(e)) && e@ == "image is empty"@
        },
        Err(reason) => r matches Err(LoadError::Failed(e)) && e@ == reason,
    }
}

/// The file was decoded as this format: `r` is what that led to.
pub open spec fn was_decoded(r: Result<RgbaImage, LoadError>, format: Seq<char>, content: Seq<u8>) -> bool {
    exists|outcome: Outcome| #[trigger] decodes_to(format, content, outcome) && is_result(r, outcome)
}

proof fn lemma_was_decoded(r: Result<RgbaImage, LoadError>, format: Seq<char>, content: Seq<u8>)
    requires
        is_read_as(r, format, content),
    ensures
        was_decoded(r, format, content),
{
    let outcome = choose|outcome: Outcome| #[trigger]
        decodes_to(format, content, outcome) && is_outcome(r, without_empty(outcome));
    assert(decodes_to(format, content, outcome) && is_result(r, outcome));
}

/// A file whose content shows a format, whichever it is, is decoded as that format, whatever the name
/// of the file is.
pub proof fn content_decides_the_format(
    r: Result<RgbaImage, LoadError>,
    path: Seq<Seq<u8>>,
    content: Seq<u8>,
    format: Seq<char>,
)
    requires
        is_loaded(r, chosen(guessed_format(content), path), content),
        guessed_format(content) == Ok::<Seq<char>, Seq<char>>(format),
    ensures
        was_decoded(r, format, content),
{
    lemma_was_decoded(r, format, content);
}

/// A file whose content shows no format is decoded as the one that its extension stands for. If that is
/// none, it is not decoded, and the reason says so.
pub proof fn extension_decides_otherwise(
    r: Result<RgbaImage, LoadError>,
    dir: Seq<Seq<u8>>,
    stem: Seq<u8>,
    extension: Seq<u8>,
    content: Seq<u8>,
)
    requires
        is_loaded(
            r,
            chosen(guessed_format(content), dir.push(stem + seq![0x2eu8] + extension)),
            content,
        ),
        guessed_format(content) is Err,
        stem.len() > 0,
        extension.len() > 0,
        !extension.contains(0x2e),
    ensures
        !vstd::utf8::valid_utf8(extension) ==> (r matches Err(LoadError::NotText(bytes)) && bytes@
            == extension),
        vstd::utf8::valid_utf8(extension) ==> {
            let text = vstd::utf8::decode_utf8(extension);
            match format_of(lowercase(text)) {
                Some(format) => was_decoded(r, format, content),
                None => r matches Err(LoadError::Failed(e)) && e@ == unknown_extension(text),
            }
        },
{
    let name = stem + seq![0x2eu8] + extension;
    let path = dir.push(name);
    let dot: int = stem.len() as int;
    assert forall|i: int| dot < i < name.len() implies name[i] != DOT by {
        assert(name[i] == extension[i - dot - 1]);
        assert(extension.contains(extension[i - dot - 1]));
    }
    lemma_extension_bytes(name, dot);
    assert(name.skip(dot + 1) =~= extension);
    assert(path.last() == name);
    assert(telling_extension(path) == Some(extension));
    if vstd::utf8::valid_utf8(extension) {
        if let Some(format) = format_of(lowercase(vstd::utf8::decode_utf8(extension))) {
            lemma_was_decoded(r, format, content);
        }
    }
}

/// A file whose content shows no format and whose name has no extension, or an empty one, is not
/// decoded, and the reason is the one that the content gives.
pub proof fn nothing_else_decides(
    r: Result<RgbaImage, LoadError>,
    path: Seq<Seq<u8>>,
    content: Seq<u8>,
    reason: Seq<char>,
)
    requires
        is_loaded(r, chosen(guessed_format(content), path), content),
        guessed_format(content) == Err::<Seq<char>, Seq<char>>(reason),
        path.len() == 0 || path.last().len() == 0 || path.last().last() == 0x2e || forall|i: int|
            0 < i < path.last().len() ==> #[trigger] path.last()[i] != 0x2e,
    ensures
        r matches Err(LoadError::Failed(e)) && e@ == reason,
{
    if path.len() > 0 {
        let name = path.last();
        if name.len() > 1 && name.last() == DOT {
            lemma_extension_bytes(name, name.len() - 1);
        } else if name.len() > 1 {
            lemma_extension_bytes(name, 0);
        }
    }
}

/// An image that has pixels is taken as it is, and so is a reason. One without is no image.
pub proof fn empty_images_are_none(outcome: Outcome)
    ensures
        match outcome {
            Ok((width, height, _)) => if width > 0 && height > 0 {
                without_empty(outcome) == outcome
            } else {
                without_empty(outcome) matches Err(e) && e == "image is empty"@
            },
            Err(_) => without_empty(outcome) == outcome,
        },
{
}

/// An image that can be shown has pixels, four bytes for each.
pub proof fn loadable_images_have_pixels(image: RgbaImage)
    ensures
        loadable(image) <==> image.width > 0 && image.height > 0 && image.pixels@.len() == 4
            * image.width * image.height,
{
}

/// A choice stands for what was chosen, and the result of a guess for its text.
pub proof fn choices_stand_for_what_was_chosen(choice: Choice, guessed: Result<String, String>)
    ensures
        match choice {
            Choice::Format(format) => choice@ matches Chosen::Format(text) && text == format@,
            Choice::Unknown(reason) => choice@ matches Chosen::Unknown(text) && text == reason@,
            Choice::NotText(extension) => choice@ matches Chosen::NotText(bytes) && bytes
                == extension@,
        },
        match guessed {
            Ok(format) => text_result(guessed) matches Ok(text) && text == format@,
            Err(reason) => text_result(guessed) matches Err(text) && text == reason@,
        },
{
}

} // verus!
