//! Previews of listed files: images as data URIs, text files by their
//! first lines, and a notice for every other kind of file.

use crate::lines::{first_lines, first_lines_of, join_lines, join_with_newlines};
use base64::Engine;
use vstd::prelude::*;
use vstd::string::*;
use vstd::utf8::{decode_utf8, encode_utf8_decode_utf8, valid_utf8};

verus! {

/// The number of lines that a text preview shows at most.
pub const PREVIEW_LINES: usize = 20;

/// How a file is previewed, as its extension decides.
#[derive(Debug, Clone, Copy, PartialEq, Eq, Structural)]
pub enum PreviewKind {
    Image,
    Text,
    Unsupported,
}

/// The extensions that are previewed as images.
pub open spec fn is_image_extension(extension: Seq<char>) -> bool {
    ||| extension == "png"@
    ||| extension == "jpg"@
    ||| extension == "jpeg"@
    ||| extension == "gif"@
    ||| extension == "bmp"@
    ||| extension == "webp"@
    ||| extension == "ico"@
    ||| extension == "svg"@
}

/// The extensions that are previewed as text.
pub open spec fn is_text_extension(extension: Seq<char>) -> bool {
    ||| extension == "txt"@
    ||| extension == "md"@
    ||| extension == "rs"@
    ||| extension == "js"@
    ||| extension == "ts"@
    ||| extension == "tsx"@
    ||| extension == "jsx"@
    ||| extension == "css"@
    ||| extension == "html"@
    ||| extension == "json"@
    ||| extension == "toml"@
    ||| extension == "yaml"@
    ||| extension == "yml"@
    ||| extension == "xml"@
    ||| extension == "csv"@
    ||| extension == "log"@
    ||| extension == "py"@
    ||| extension == "java"@
    ||| extension == "c"@
    ||| extension == "cpp"@
    ||| extension == "h"@
    ||| extension == "go"@
    ||| extension == "rb"@
    ||| extension == "php"@
    ||| extension == "sh"@
    ||| extension == "bat"@
    ||| extension == "ps1"@
}

/// The kind of preview for a lowercase extension.
pub open spec fn kind_of(extension: Seq<char>) -> PreviewKind {
    if is_image_extension(extension) {
        PreviewKind::Image
    } else if is_text_extension(extension) {
        PreviewKind::Text
    } else {
        PreviewKind::Unsupported
    }
}

/// Tells whether `text` reads `word`.
fn reads(text: &String, word: &str) -> (same: bool)
    ensures
        same == (text@ == word@),
{
    let wanted = String::from_str(word);
    *text == wanted
}

/// Classifies a lowercase extension.
pub fn classify_extension(extension: &str) -> (kind: PreviewKind)
    ensures
        kind == kind_of(extension@),
{
    let given = String::from_str(extension);
    if reads(&given, "png") || reads(&given, "jpg") || reads(&given, "jpeg") || reads(
        &given,
        "gif",
    ) || reads(&given, "bmp") || reads(&given, "webp") || reads(&given, "ico") || reads(
        &given,
        "svg",
    ) {
        PreviewKind::Image
    } else if reads(&given, "txt") || reads(&given, "md") || reads(&given, "rs") || reads(
        &given,
        "js",
    ) || reads(&given, "ts") || reads(&given, "tsx") || reads(&given, "jsx") || reads(
        &given,
        "css",
    ) || reads(&given, "html") || reads(&given, "json") || reads(&given, "toml") || reads(
        &given,
        "yaml",
    ) || reads(&given, "yml") || reads(&given, "xml") || reads(&given, "csv") || reads(
        &given,
        "log",
    ) || reads(&given, "py") || reads(&given, "java") || reads(&given, "c") || reads(
        &given,
        "cpp",
    ) || reads(&given, "h") || reads(&given, "go") || reads(&given, "rb") || reads(
        &given,
        "php",
    ) || reads(&given, "sh") || reads(&given, "bat") || reads(&given, "ps1") {
        PreviewKind::Text
    } else {
        PreviewKind::Unsupported
    }
}

/// The lowercase form of a text as `str::to_lowercase` gives it.
pub uninterp spec fn lowercase_of(text: Seq<char>) -> Seq<char>;

/// `str::to_lowercase`: the lowercase form of the text.
#[verifier::external_body]
fn to_lowercase(text: &str) -> (lowered: String)
    ensures
        lowered@ == lowercase_of(text@),
{
    text.to_lowercase()
}

/// `core::str::from_utf8`: the same bytes as a string slice, if they are
/// valid UTF-8, and nothing otherwise.
#[verifier::external_body]
fn utf8_text(bytes: &[u8]) -> (text: Option<&str>)
    ensures
        match text {
            Some(decoded) => valid_utf8(bytes@) && decoded.spec_bytes() == bytes@,
            None => !valid_utf8(bytes@),
        },
{
    core::str::from_utf8(bytes).ok()
}

/// The standard base64 encoding, with padding, of a byte string.
pub uninterp spec fn base64_of(data: Seq<u8>) -> Seq<char>;

/// The encoding of this many bytes has a length that fits the machine.
pub open spec fn encodable(length: nat) -> bool {
    length / 3 * 4 + 4 <= usize::MAX
}

/// `base64::Engine::encode` of the engine
/// `base64::engine::general_purpose::STANDARD`: the standard encoding with
/// padding. The call panics where the encoded length overflows.
#[verifier::external_body]
fn base64_encode(data: &[u8]) -> (encoded: String)
    requires
        encodable(data@.len()),
    ensures
        encoded@ == base64_of(data@),
{
    base64::engine::general_purpose::STANDARD.encode(data)
}

/// A preview of one file.
///
/// `preview_type` is `image`, `text` or `unsupported`. `content` is a data
/// URI for an image, the first lines for a text, and a notice otherwise.
#[derive(Debug, Clone)]
pub struct FilePreview {
    pub preview_type: String,
    pub content: String,
    pub file_path: String,
}

/// The mathematical value of a `FilePreview`.
pub ghost struct FilePreviewView {
    pub preview_type: Seq<char>,
    pub content: Seq<char>,
    pub file_path: Seq<char>,
}

impl View for FilePreview {
    type V = FilePreviewView;

    open spec fn view(&self) -> FilePreviewView {
        FilePreviewView {
            preview_type: self.preview_type@,
            content: self.content@,
            file_path: self.file_path@,
        }
    }
}

/// Why no preview could be made.
#[derive(Debug, Clone)]
pub enum PreviewError {
    /// Nothing exists at the path.
    NotFound,
    /// The image could not be read; the error carries the system's reason.
    ImageUnreadable(String),
    /// The text file could not be read; the error carries the system's
    /// reason.
    TextUnreadable(String),
    /// The text file is not valid UTF-8.
    EncodingError,
}

impl PreviewError {
    /// The message that is shown for the error.
    pub open spec fn text(&self) -> Seq<char> {
        match self {
            PreviewError::NotFound => "ファイルが存在しません"@,
            PreviewError::ImageUnreadable(reason) => "画像の読み取りに失敗: "@ + reason@,
            PreviewError::TextUnreadable(reason) => "テキストの読み取りに失敗: "@ + reason@,
            PreviewError::EncodingError => "テキストの読み取りに失敗: stream did not contain valid UTF-8"@,
        }
    }

    /// The message that is shown for the error.
    pub fn message(&self) -> (text: String)
        ensures
            text@ == self.text(),
    {
        match self {
            PreviewError::NotFound => String::from_str("ファイルが存在しません"),
            PreviewError::ImageUnreadable(reason) => String::from_str(
                "画像の読み取りに失敗: ",
            ).concat(reason.as_str()),
            PreviewError::TextUnreadable(reason) => String::from_str(
                "テキストの読み取りに失敗: ",
            ).concat(reason.as_str()),
            PreviewError::EncodingError => String::from_str(
                "テキストの読み取りに失敗: stream did not contain valid UTF-8",
            ),
        }
    }
}

/// The data URI of an image: the extension is the media subtype.
pub open spec fn data_uri(extension: Seq<char>, encoded: Seq<char>) -> Seq<char> {
    "data:image/"@ + extension + ";base64,"@ + encoded
}

/// The text that a text preview shows: the first lines, joined by line
/// feeds.
pub open spec fn shown_text(text: Seq<char>) -> Seq<char> {
    join_lines(first_lines(text, PREVIEW_LINES as nat))
}

/// The notice for a file of an extension that has no preview.
pub open spec fn unsupported_notice(extension: Seq<char>) -> Seq<char> {
    "プレビュー非対応の形式: ."@ + extension
}

/// Wraps encoded image data in a data URI.
pub fn image_data_uri(extension: &str, encoded: &str) -> (uri: String)
    ensures
        uri@ == data_uri(extension@, encoded@),
{
    let mut uri = String::from_str("data:image/");
    uri.append(extension);
    uri.append(";base64,");
    uri.append(encoded);
    uri
}

/// The preview of an image with the given content.
pub fn image_preview(file_path: &str, extension: &str, data: &[u8]) -> (preview: FilePreview)
    requires
        encodable(data@.len()),
    ensures
        preview@ == (FilePreviewView {
            preview_type: "image"@,
            content: data_uri(extension@, base64_of(data@)),
            file_path: file_path@,
        }),
{
    let encoded = base64_encode(data);
    FilePreview {
        preview_type: String::from_str("image"),
        content: image_data_uri(extension, encoded.as_str()),
        file_path: String::from_str(file_path),
    }
}

/// The preview of a text file with the given content.
pub fn text_preview(file_path: &str, content: &str) -> (preview: FilePreview)
    ensures
        preview@ == (FilePreviewView {
            preview_type: "text"@,
            content: shown_text(content@),
            file_path: file_path@,
        }),
{
    let lines = first_lines_of(content, PREVIEW_LINES);
    FilePreview {
        preview_type: String::from_str("text"),
        content: join_with_newlines(&lines),
        file_path: String::from_str(file_path),
    }
}

/// The preview of a file whose extension has no preview.
pub fn unsupported_preview(file_path: &str, extension: &str) -> (preview: FilePreview)
    ensures
        preview@ == (FilePreviewView {
            preview_type: "unsupported"@,
            content: unsupported_notice(extension@),
            file_path: file_path@,
        }),
{
    FilePreview {
        preview_type: String::from_str("unsupported"),
        content: String::from_str("プレビュー非対応の形式: .").concat(extension),
        file_path: String::from_str(file_path),
    }
}

/// What to do next for a preview.
#[derive(Debug)]
pub enum PreviewStep {
    /// Read the whole file and ask again with what the read gave.
    ReadFile,
    /// The preview is settled.
    Done(Result<FilePreview, PreviewError>),
}

/// `step` is the next step for the preview of a file with the lowercase
/// extension `extension`, where `content` is what reading the file gave,
/// if it was read.
///
/// A file that does not exist has no preview. An extension without a
/// preview gives a notice, and the file is not read. For the other kinds the
/// file is read once; a failed read fails the preview, an image is shown
/// whole, and a text must be valid UTF-8 and is shown by its first lines.
pub open spec fn is_preview_step(
    step: PreviewStep,
    file_path: Seq<char>,
    extension: Seq<char>,
    exists: bool,
    content: Option<Result<Vec<u8>, String>>,
) -> bool {
    if !exists {
        step matches PreviewStep::Done(Err(PreviewError::NotFound))
    } else {
        match (kind_of(extension), content) {
            (PreviewKind::Unsupported, _) => step matches PreviewStep::Done(Ok(preview))
                && preview@ == (FilePreviewView {
                preview_type: "unsupported"@,
                content: unsupported_notice(extension),
                file_path: file_path,
            }),
            (_, None) => step is ReadFile,
            (PreviewKind::Image, Some(Err(reason))) => step matches PreviewStep::Done(
                Err(PreviewError::ImageUnreadable(text)),
            ) && text@ == reason@,
            (PreviewKind::Text, Some(Err(reason))) => step matches PreviewStep::Done(
                Err(PreviewError::TextUnreadable(text)),
            ) && text@ == reason@,
            (PreviewKind::Image, Some(Ok(data))) => step matches PreviewStep::Done(Ok(preview))
                && preview@ == (FilePreviewView {
                preview_type: "image"@,
                content: data_uri(extension, base64_of(data@)),
                file_path: file_path,
            }),
            (PreviewKind::Text, Some(Ok(data))) => if valid_utf8(data@) {
                step matches PreviewStep::Done(Ok(preview)) && preview@ == (FilePreviewView {
                    preview_type: "text"@,
                    content: shown_text(decode_utf8(data@)),
                    file_path: file_path,
                })
            } else {
                step matches PreviewStep::Done(Err(PreviewError::EncodingError))
            },
        }
    }
}

/// Decides the next step for the preview of a file whose extension is
/// already in lowercase.
///
/// Only the content of an image has to be short enough to be encoded; a
/// text of any length is shown by its first lines.
pub fn resolve_preview(
    file_path: &str,
    extension: &str,
    exists: bool,
    content: Option<Result<Vec<u8>, String>>,
) -> (step: PreviewStep)
    requires
        kind_of(extension@) is Image ==> (content matches Some(Ok(data)) ==> encodable(
            data@.len(),
        )),
    ensures
        is_preview_step(step, file_path@, extension@, exists, content),
{
    if !exists {
        return PreviewStep::Done(Err(PreviewError::NotFound));
    }
    let kind = classify_extension(extension);
    match kind {
        PreviewKind::Unsupported => PreviewStep::Done(Ok(unsupported_preview(file_path, extension))),
        PreviewKind::Image => match &content {
            None => PreviewStep::ReadFile,
            Some(Err(reason)) => PreviewStep::Done(
                Err(PreviewError::ImageUnreadable(reason.clone())),
            ),
            Some(Ok(data)) => PreviewStep::Done(
                Ok(image_preview(file_path, extension, data.as_slice())),
            ),
        },
        PreviewKind::Text => match &content {
            None => PreviewStep::ReadFile,
            Some(Err(reason)) => PreviewStep::Done(
                Err(PreviewError::TextUnreadable(reason.clone())),
            ),
            Some(Ok(data)) => match utf8_text(data.as_slice()) {
                Some(text) => {
                    proof {
                        encode_utf8_decode_utf8(text@);
                    }
                    PreviewStep::Done(Ok(text_preview(file_path, text)))
                },
                None => PreviewStep::Done(Err(PreviewError::EncodingError)),
            },
        },
    }
}

/// Decides the next step for the preview of a file.
///
/// `extension` is the file's extension as it stands in its name; it is
/// compared in lowercase. `exists` tells whether the file exists, and
/// `content` is what reading it gave, `None` as long as it was not read.
pub fn get_preview(
    file_path: &str,
    extension: &str,
    exists: bool,
    content: Option<Result<Vec<u8>, String>>,
) -> (step: PreviewStep)
    requires
        content matches Some(Ok(data)) ==> encodable(data@.len()),
    ensures
        is_preview_step(step, file_path@, lowercase_of(extension@), exists, content),
{
    let lowered = to_lowercase(extension);
    resolve_preview(file_path, lowered.as_str(), exists, content)
}

} // verus!
