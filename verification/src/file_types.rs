//! File kinds, the folder each kind is sorted into, and how a kind is told from a file's
//! first bytes.
use vstd::prelude::*;
use crate::text::same_text;

verus! {

/// The kinds of file that sorting knows.
#[derive(Clone, Copy, PartialEq, Eq, Structural, Debug)]
pub enum FileType {
    Image,
    AnimatedImage,
    Video,
    Audio,
    Document,
    Text,
    Table,
    Archive,
    Application,
    Code,
}

/// The kind of file that a MIME type stands for, if sorting knows it.
pub open spec fn kind_of_mime(mime: Seq<char>) -> Option<FileType> {
    if mime == "image/jpeg"@ {
        Some(FileType::Image)
    } else if mime == "image/png"@ {
        Some(FileType::Image)
    } else if mime == "image/gif"@ {
        Some(FileType::AnimatedImage)
    } else if mime == "image/bmp"@ {
        Some(FileType::Image)
    } else if mime == "image/webp"@ {
        Some(FileType::Image)
    } else if mime == "image/tiff"@ {
        Some(FileType::Image)
    } else if mime == "image/svg+xml"@ {
        Some(FileType::Image)
    } else if mime == "image/x-icon"@ {
        Some(FileType::Image)
    } else if mime == "video/mp4"@ {
        Some(FileType::Video)
    } else if mime == "video/webm"@ {
        Some(FileType::Video)
    } else if mime == "video/ogg"@ {
        Some(FileType::Video)
    } else if mime == "video/quicktime"@ {
        Some(FileType::Video)
    } else if mime == "video/x-msvideo"@ {
        Some(FileType::Video)
    } else if mime == "video/x-ms-wmv"@ {
        Some(FileType::Video)
    } else if mime == "video/mpeg"@ {
        Some(FileType::Video)
    } else if mime == "audio/mpeg"@ {
        Some(FileType::Audio)
    } else if mime == "audio/opus"@ {
        Some(FileType::Audio)
    } else if mime == "application/pdf"@ {
        Some(FileType::Document)
    } else if mime == "application/msword"@ {
        Some(FileType::Document)
    } else if mime == "application/vnd.openxmlformats-officedocument.wordprocessingml.document"@ {
        Some(FileType::Document)
    } else if mime == "application/vnd.ms-powerpoint"@ {
        Some(FileType::Document)
    } else if mime == "application/vnd.openxmlformats-officedocument.presentationml.presentation"@ {
        Some(FileType::Document)
    } else if mime == "application/rtf"@ {
        Some(FileType::Document)
    } else if mime == "application/epub+zip"@ {
        Some(FileType::Document)
    } else if mime == "application/x-shockwave-flash"@ {
        Some(FileType::Document)
    } else if mime == "text/plain"@ {
        Some(FileType::Text)
    } else if mime == "text/markdown"@ {
        Some(FileType::Text)
    } else if mime == "text/csv"@ {
        Some(FileType::Table)
    } else if mime == "application/vnd.ms-excel"@ {
        Some(FileType::Table)
    } else if mime == "application/vnd.openxmlformats-officedocument.spreadsheetml.sheet"@ {
        Some(FileType::Table)
    } else if mime == "application/zip"@ {
        Some(FileType::Archive)
    } else if mime == "application/gzip"@ {
        Some(FileType::Archive)
    } else if mime == "application/x-tar"@ {
        Some(FileType::Archive)
    } else if mime == "application/x-executable"@ {
        Some(FileType::Application)
    } else if mime == "application/vnd.debian.binary-package"@ {
        Some(FileType::Application)
    } else if mime == "text/x-shellscript"@ {
        Some(FileType::Application)
    } else if mime == "text/html"@ {
        Some(FileType::Code)
    } else if mime == "text/css"@ {
        Some(FileType::Code)
    } else if mime == "text/javascript"@ {
        Some(FileType::Code)
    } else if mime == "application/json"@ {
        Some(FileType::Code)
    } else if mime == "application/xml"@ {
        Some(FileType::Code)
    } else if mime == "application/x-yaml"@ {
        Some(FileType::Code)
    } else {
        None
    }
}

/// Whether the MIME type `mime` is of the top-level type `top` (such as `image/`).
pub open spec fn under(mime: Seq<char>, top: Seq<char>) -> bool {
    mime.len() >= top.len() && mime.subrange(0, top.len() as int) == top
}

/// The characters that tell the known picture, video and audio MIME types apart.
proof fn lemma_media_type_letters()
    ensures
        "image/jpeg"@[0] == 'i',
        "image/jpeg"@[6] == 'j',
        "image/png"@[0] == 'i',
        "image/png"@[6] == 'p',
        "image/gif"@[0] == 'i',
        "image/gif"@[6] == 'g',
        "image/bmp"@[0] == 'i',
        "image/bmp"@[6] == 'b',
        "image/webp"@[0] == 'i',
        "image/webp"@[6] == 'w',
        "image/tiff"@[0] == 'i',
        "image/tiff"@[6] == 't',
        "image/svg+xml"@[0] == 'i',
        "image/svg+xml"@[6] == 's',
        "image/x-icon"@[0] == 'i',
        "image/x-icon"@[6] == 'x',
        "video/mp4"@[0] == 'v',
        "video/mp4"@[6] == 'm',
        "video/mp4"@[8] == '4',
        "video/webm"@[0] == 'v',
        "video/webm"@[6] == 'w',
        "video/ogg"@[0] == 'v',
        "video/ogg"@[6] == 'o',
        "video/quicktime"@[0] == 'v',
        "video/quicktime"@[6] == 'q',
        "video/x-msvideo"@[0] == 'v',
        "video/x-msvideo"@[6] == 'x',
        "video/x-msvideo"@[11] == 'i',
        "video/x-ms-wmv"@[0] == 'v',
        "video/x-ms-wmv"@[6] == 'x',
        "video/x-ms-wmv"@[11] == 'w',
        "video/mpeg"@[0] == 'v',
        "video/mpeg"@[6] == 'm',
        "video/mpeg"@[8] == 'e',
        "audio/mpeg"@[0] == 'a',
        "audio/mpeg"@[6] == 'm',
        "audio/opus"@[0] == 'a',
        "audio/opus"@[6] == 'o',
{
    reveal_strlit("image/jpeg");
    reveal_strlit("image/png");
    reveal_strlit("image/gif");
    reveal_strlit("image/bmp");
    reveal_strlit("image/webp");
    reveal_strlit("image/tiff");
    reveal_strlit("image/svg+xml");
    reveal_strlit("image/x-icon");
    reveal_strlit("video/mp4");
    reveal_strlit("video/webm");
    reveal_strlit("video/ogg");
    reveal_strlit("video/quicktime");
    reveal_strlit("video/x-msvideo");
    reveal_strlit("video/x-ms-wmv");
    reveal_strlit("video/mpeg");
    reveal_strlit("audio/mpeg");
    reveal_strlit("audio/opus");
}

/// The kind of a known MIME type follows its top-level type: every known `image/` type but GIF
/// is a still image and GIF an animated one, every known `video/` type a video, every known
/// `audio/` type audio; and conversely still images, animated images, videos and audio are
/// known only under those top-level types.
pub proof fn lemma_kind_follows_top_level_type(mime: Seq<char>)
    ensures
        under(mime, "image/"@) && mime != "image/gif"@ && kind_of_mime(mime) is Some ==> kind_of_mime(mime)
            == Some(FileType::Image),
        mime == "image/gif"@ ==> kind_of_mime(mime) == Some(FileType::AnimatedImage),
        under(mime, "video/"@) && kind_of_mime(mime) is Some ==> kind_of_mime(mime) == Some(FileType::Video),
        under(mime, "audio/"@) && kind_of_mime(mime) is Some ==> kind_of_mime(mime) == Some(FileType::Audio),
        kind_of_mime(mime) == Some(FileType::Image) || kind_of_mime(mime) == Some(FileType::AnimatedImage)
            ==> under(mime, "image/"@),
        kind_of_mime(mime) == Some(FileType::Video) ==> under(mime, "video/"@),
        kind_of_mime(mime) == Some(FileType::Audio) ==> under(mime, "audio/"@),
{
    lemma_media_type_letters();
    reveal_strlit("image/jpeg");
    reveal_strlit("image/png");
    reveal_strlit("image/gif");
    reveal_strlit("image/bmp");
    reveal_strlit("image/webp");
    reveal_strlit("image/tiff");
    reveal_strlit("image/svg+xml");
    reveal_strlit("image/x-icon");
    reveal_strlit("video/mp4");
    reveal_strlit("video/webm");
    reveal_strlit("video/ogg");
    reveal_strlit("video/quicktime");
    reveal_strlit("video/x-msvideo");
    reveal_strlit("video/x-ms-wmv");
    reveal_strlit("video/mpeg");
    reveal_strlit("audio/mpeg");
    reveal_strlit("audio/opus");
    reveal_strlit("application/pdf");
    reveal_strlit("application/msword");
    reveal_strlit("application/vnd.openxmlformats-officedocument.wordprocessingml.document");
    reveal_strlit("application/vnd.ms-powerpoint");
    reveal_strlit("application/vnd.openxmlformats-officedocument.presentationml.presentation");
    reveal_strlit("application/rtf");
    reveal_strlit("application/epub+zip");
    reveal_strlit("application/x-shockwave-flash");
    reveal_strlit("text/plain");
    reveal_strlit("text/markdown");
    reveal_strlit("text/csv");
    reveal_strlit("application/vnd.ms-excel");
    reveal_strlit("application/vnd.openxmlformats-officedocument.spreadsheetml.sheet");
    reveal_strlit("application/zip");
    reveal_strlit("application/gzip");
    reveal_strlit("application/x-tar");
    reveal_strlit("application/x-executable");
    reveal_strlit("application/vnd.debian.binary-package");
    reveal_strlit("text/x-shellscript");
    reveal_strlit("text/html");
    reveal_strlit("text/css");
    reveal_strlit("text/javascript");
    reveal_strlit("application/json");
    reveal_strlit("application/xml");
    reveal_strlit("application/x-yaml");
    reveal_strlit("image/");
    reveal_strlit("video/");
    reveal_strlit("audio/");
    if mime.len() >= 6 {
        assert(mime.subrange(0, 6)[0] == mime[0]);
        assert(mime.subrange(0, 6)[1] == mime[1]);
    }
    if kind_of_mime(mime) == Some(FileType::Image) || kind_of_mime(mime) == Some(FileType::AnimatedImage) {
        assert(mime.subrange(0, 6) =~= "image/"@);
    }
    if kind_of_mime(mime) == Some(FileType::Video) {
        assert(mime.subrange(0, 6) =~= "video/"@);
    }
    if kind_of_mime(mime) == Some(FileType::Audio) {
        assert(mime.subrange(0, 6) =~= "audio/"@);
    }
}

/// The picture, video and audio types that sorting knows, by kind: JPEG, PNG, BMP, WebP, TIFF,
/// SVG and icons are still images (so a `.webp` picture goes to the images folder), GIF is an
/// animated image, MP4, WebM, Ogg, QuickTime, AVI, WMV and MPEG are videos, and MPEG audio and
/// Opus are audio.
pub proof fn lemma_known_media_types(mime: Seq<char>)
    ensures
        kind_of_mime(mime) == Some(FileType::Image) <==> (mime == "image/jpeg"@ || mime == "image/png"@ || mime
            == "image/bmp"@ || mime == "image/webp"@ || mime == "image/tiff"@ || mime == "image/svg+xml"@ || mime
            == "image/x-icon"@),
        kind_of_mime(mime) == Some(FileType::AnimatedImage) <==> mime == "image/gif"@,
        kind_of_mime(mime) == Some(FileType::Video) <==> (mime == "video/mp4"@ || mime == "video/webm"@ || mime
            == "video/ogg"@ || mime == "video/quicktime"@ || mime == "video/x-msvideo"@ || mime == "video/x-ms-wmv"@
            || mime == "video/mpeg"@),
        kind_of_mime(mime) == Some(FileType::Audio) <==> (mime == "audio/mpeg"@ || mime == "audio/opus"@),
{
    lemma_media_type_letters();
}

/// The folder, relative to the sorted directory, that a kind of file goes to; archives stay.
pub open spec fn folder_of(t: FileType) -> Option<Seq<char>> {
    match t {
        FileType::Image => Some("images"@),
        FileType::AnimatedImage => Some("images/animated"@),
        FileType::Video => Some("videos"@),
        FileType::Audio => Some("audios"@),
        FileType::Document => Some("documents"@),
        FileType::Text => Some("texts"@),
        FileType::Table => Some("tables"@),
        FileType::Application => Some("applications"@),
        FileType::Code => Some("code"@),
        FileType::Archive => None,
    }
}

/// The folder that files of kind `t` are moved to, relative to the sorted directory.
pub fn type_dir(t: &FileType) -> (dir: Option<&'static str>)
    ensures
        match dir {
            Some(d) => folder_of(*t) == Some(d@),
            None => folder_of(*t) is None,
        },
{
    return match t {
        FileType::Image => Some("images"),
        FileType::AnimatedImage => Some("images/animated"),
        FileType::Video => Some("videos"),
        FileType::Audio => Some("audios"),
        FileType::Document => Some("documents"),
        FileType::Text => Some("texts"),
        FileType::Table => Some("tables"),
        FileType::Application => Some("applications"),
        FileType::Code => Some("code"),
        _ => None,
    };
}

/// The kind of file with MIME type `mime` and extension `ext`; the extension does not change
/// the outcome.
pub fn calculate_file_type(mime: &str, ext: &str) -> (t: Option<FileType>)
    ensures
        t == kind_of_mime(mime@),
{
    if same_text(mime, "image/jpeg") {
        Some(FileType::Image)
    } else if same_text(mime, "image/png") {
        Some(FileType::Image)
    } else if same_text(mime, "image/gif") {
        Some(FileType::AnimatedImage)
    } else if same_text(mime, "image/bmp") {
        Some(FileType::Image)
    } else if same_text(mime, "image/webp") {
        Some(FileType::Image)
    } else if same_text(mime, "image/tiff") {
        Some(FileType::Image)
    } else if same_text(mime, "image/svg+xml") {
        Some(FileType::Image)
    } else if same_text(mime, "image/x-icon") {
        Some(FileType::Image)
    } else if same_text(mime, "video/mp4") {
        Some(FileType::Video)
    } else if same_text(mime, "video/webm") {
        Some(FileType::Video)
    } else if same_text(mime, "video/ogg") {
        Some(FileType::Video)
    } else if same_text(mime, "video/quicktime") {
        Some(FileType::Video)
    } else if same_text(mime, "video/x-msvideo") {
        Some(FileType::Video)
    } else if same_text(mime, "video/x-ms-wmv") {
        Some(FileType::Video)
    } else if same_text(mime, "video/mpeg") {
        Some(FileType::Video)
    } else if same_text(mime, "audio/mpeg") {
        Some(FileType::Audio)
    } else if same_text(mime, "audio/opus") {
        Some(FileType::Audio)
    } else if same_text(mime, "application/pdf") {
        Some(FileType::Document)
    } else if same_text(mime, "application/msword") {
        Some(FileType::Document)
    } else if same_text(mime, "application/vnd.openxmlformats-officedocument.wordprocessingml.document") {
        Some(FileType::Document)
    } else if same_text(mime, "application/vnd.ms-powerpoint") {
        Some(FileType::Document)
    } else if same_text(mime, "application/vnd.openxmlformats-officedocument.presentationml.presentation") {
        Some(FileType::Document)
    } else if same_text(mime, "application/rtf") {
        Some(FileType::Document)
    } else if same_text(mime, "application/epub+zip") {
        Some(FileType::Document)
    } else if same_text(mime, "application/x-shockwave-flash") {
        Some(FileType::Document)
    } else if same_text(mime, "text/plain") {
        Some(FileType::Text)
    } else if same_text(mime, "text/markdown") {
        Some(FileType::Text)
    } else if same_text(mime, "text/csv") {
        Some(FileType::Table)
    } else if same_text(mime, "application/vnd.ms-excel") {
        Some(FileType::Table)
    } else if same_text(mime, "application/vnd.openxmlformats-officedocument.spreadsheetml.sheet") {
        Some(FileType::Table)
    } else if same_text(mime, "application/zip") {
        Some(FileType::Archive)
    } else if same_text(mime, "application/gzip") {
        Some(FileType::Archive)
    } else if same_text(mime, "application/x-tar") {
        Some(FileType::Archive)
    } else if same_text(mime, "application/x-executable") {
        Some(FileType::Application)
    } else if same_text(mime, "application/vnd.debian.binary-package") {
        Some(FileType::Application)
    } else if same_text(mime, "text/x-shellscript") {
        Some(FileType::Application)
    } else if same_text(mime, "text/html") {
        Some(FileType::Code)
    } else if same_text(mime, "text/css") {
        Some(FileType::Code)
    } else if same_text(mime, "text/javascript") {
        Some(FileType::Code)
    } else if same_text(mime, "application/json") {
        Some(FileType::Code)
    } else if same_text(mime, "application/xml") {
        Some(FileType::Code)
    } else if same_text(mime, "application/x-yaml") {
        Some(FileType::Code)
    } else {
        None
    }
}

/// What `infer::get` reports for a file that starts with `header`: its MIME type and its
/// usual extension, or nothing when it recognises no format.
pub uninterp spec fn inferred_kind(header: Seq<u8>) -> Option<(Seq<char>, Seq<char>)>;

/// Calls `infer::get`. Claims only that the MIME type and extension it returns are those that
/// `inferred_kind` names for the same bytes.
#[verifier::external_body]
fn infer_kind(header: &[u8]) -> (res: Option<(&'static str, &'static str)>)
    ensures
        match res {
            Some(k) => inferred_kind(header@) == Some((k.0@, k.1@)),
            None => inferred_kind(header@) is None,
        },
{
    match infer::get(header) {
        Some(kind) => Some((kind.mime_type(), kind.extension())),
        None => None,
    }
}

/// The kind of a file whose content starts with `header`, as the detected MIME type tells it.
pub fn file_type_of_header(header: &[u8]) -> (t: Option<FileType>)
    ensures
        t == match inferred_kind(header@) {
            Some(k) => kind_of_mime(k.0),
            None => None,
        },
{
    match infer_kind(header) {
        Some((mime, ext)) => calculate_file_type(mime, ext),
        None => None,
    }
}

} // verus!
