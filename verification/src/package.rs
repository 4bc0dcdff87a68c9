//! The package around the main document: media types and folders of
//! added files, the `[Content_Types].xml` and relationship parts, fresh
//! identifiers, and the XML of inserted drawings and embedded objects.

use vstd::prelude::*;
use vstd::string::StringExecFns;
use crate::error::AppError;
use crate::edit::{
    find_sub, find_sub_exec, first_sub_from, lemma_find_sub_occurs, lemma_first_sub_occurs, occurs,
    occurs_at,
};
use crate::diff::lines_view;
use crate::save::{split_chars, split_on};
use crate::text::{
    chars_of, dec, digits_value, has_prefix, is_digit, lemma_dec_injective, push_char, push_dec,
    push_str, same_text, starts_with, string_of, string_of_range,
};

verus! {

// ---------------------------------------------------------------------
// Extensions and media types
// ---------------------------------------------------------------------

/// ASCII lower case of one character.
pub open spec fn lower_ascii_char(c: char) -> char {
    if 'A' <= c && c <= 'Z' {
        ((c as u32) + 32) as char
    } else {
        c
    }
}

/// ASCII lower case of a string (std's `str::to_ascii_lowercase`).
pub open spec fn ascii_lower(s: Seq<char>) -> Seq<char> {
    s.map_values(|c: char| lower_ascii_char(c))
}

fn lower_ascii_char_exec(c: char) -> (r: char)
    ensures
        r == lower_ascii_char(c),
{
    if 'A' <= c && c <= 'Z' {
        let b: u8 = c as u8;
        assert(b as u32 == c as u32);
        (b + 32) as char
    } else {
        c
    }
}

/// The ASCII lower case of `s`.
pub fn to_ascii_lowercase(s: &str) -> (r: String)
    ensures
        r@ == ascii_lower(s@),
{
    let v = chars_of(s);
    let mut r = String::new();
    let mut i: usize = 0;
    while i < v.len()
        invariant
            v@ == s@,
            i <= v@.len(),
            r@ == ascii_lower(v@.take(i as int)),
        decreases v@.len() - i,
    {
        let c = lower_ascii_char_exec(v[i]);
        push_char(&mut r, c);
        i += 1;
        assert(ascii_lower(v@.take(i as int)) =~= ascii_lower(v@.take(i - 1)).push(c));
    }
    assert(v@.take(v@.len() as int) == v@);
    r
}

/// The media type of a file by its (lower-case) extension.
pub open spec fn content_type(e: Seq<char>) -> Seq<char> {
    if e == "png"@ {
        "image/png"@
    } else if e == "jpg"@ || e == "jpeg"@ {
        "image/jpeg"@
    } else if e == "gif"@ {
        "image/gif"@
    } else if e == "bmp"@ {
        "image/bmp"@
    } else if e == "webp"@ {
        "image/webp"@
    } else if e == "tif"@ || e == "tiff"@ {
        "image/tiff"@
    } else if e == "svg"@ {
        "image/svg+xml"@
    } else if e == "xlsx"@ {
        "application/vnd.openxmlformats-officedocument.spreadsheetml.sheet"@
    } else if e == "xlsm"@ {
        "application/vnd.ms-excel.sheet.macroEnabled.12"@
    } else if e == "xls"@ {
        "application/vnd.ms-excel"@
    } else if e == "ods"@ {
        "application/vnd.oasis.opendocument.spreadsheet"@
    } else if e == "csv"@ {
        "text/csv"@
    } else if e == "tsv"@ {
        "text/tab-separated-values"@
    } else if e == "docx"@ {
        "application/vnd.openxmlformats-officedocument.wordprocessingml.document"@
    } else if e == "doc"@ {
        "application/msword"@
    } else if e == "odt"@ {
        "application/vnd.oasis.opendocument.text"@
    } else if e == "rtf"@ {
        "application/rtf"@
    } else if e == "pdf"@ {
        "application/pdf"@
    } else if e == "txt"@ {
        "text/plain"@
    } else if e == "md"@ {
        "text/markdown"@
    } else if e == "json"@ {
        "application/json"@
    } else if e == "xml"@ {
        "application/xml"@
    } else if e == "html"@ || e == "htm"@ {
        "text/html"@
    } else if e == "css"@ {
        "text/css"@
    } else if e == "js"@ || e == "mjs"@ || e == "cjs"@ {
        "text/javascript"@
    } else if e == "yaml"@ || e == "yml"@ {
        "text/yaml"@
    } else if e == "log"@ || e == "ini"@ || e == "cfg"@ || e == "conf"@ || e == "toml"@ ||
        e == "env"@ || e == "properties"@ {
        "text/plain"@
    } else if e == "py"@ || e == "rb"@ || e == "rs"@ || e == "go"@ || e == "c"@ || e == "h"@ ||
        e == "cpp"@ || e == "cc"@ || e == "java"@ || e == "sh"@ || e == "lua"@ || e == "sql"@ ||
        e == "vim"@ || e == "ts"@ || e == "tsx"@ || e == "jsx"@ || e == "php"@ || e == "pl"@ {
        "text/plain"@
    } else if e == "mp3"@ {
        "audio/mpeg"@
    } else if e == "wav"@ {
        "audio/wav"@
    } else if e == "ogg"@ {
        "audio/ogg"@
    } else if e == "flac"@ {
        "audio/flac"@
    } else if e == "m4a"@ {
        "audio/mp4"@
    } else if e == "aac"@ {
        "audio/aac"@
    } else if e == "mp4"@ {
        "video/mp4"@
    } else if e == "mov"@ {
        "video/quicktime"@
    } else if e == "avi"@ {
        "video/x-msvideo"@
    } else if e == "mkv"@ {
        "video/x-matroska"@
    } else if e == "webm"@ {
        "video/webm"@
    } else if e == "wmv"@ {
        "video/x-ms-wmv"@
    } else if e == "zip"@ {
        "application/zip"@
    } else if e == "rar"@ {
        "application/vnd.rar"@
    } else if e == "7z"@ {
        "application/x-7z-compressed"@
    } else if e == "gz"@ {
        "application/gzip"@
    } else if e == "tar"@ {
        "application/x-tar"@
    } else {
        "application/octet-stream"@
    }
}

/// The media type of a file by its extension, in any ASCII case.
pub fn guess_content_type(ext: &str) -> (r: &'static str)
    ensures
        r@ == content_type(ascii_lower(ext@)),
{
    let lower = to_ascii_lowercase(ext);
    let e = lower.as_str();
    if same_text(e, "png") {
        "image/png"
    } else if same_text(e, "jpg") || same_text(e, "jpeg") {
        "image/jpeg"
    } else if same_text(e, "gif") {
        "image/gif"
    } else if same_text(e, "bmp") {
        "image/bmp"
    } else if same_text(e, "webp") {
        "image/webp"
    } else if same_text(e, "tif") || same_text(e, "tiff") {
        "image/tiff"
    } else if same_text(e, "svg") {
        "image/svg+xml"
    } else if same_text(e, "xlsx") {
        "application/vnd.openxmlformats-officedocument.spreadsheetml.sheet"
    } else if same_text(e, "xlsm") {
        "application/vnd.ms-excel.sheet.macroEnabled.12"
    } else if same_text(e, "xls") {
        "application/vnd.ms-excel"
    } else if same_text(e, "ods") {
        "application/vnd.oasis.opendocument.spreadsheet"
    } else if same_text(e, "csv") {
        "text/csv"
    } else if same_text(e, "tsv") {
        "text/tab-separated-values"
    } else if same_text(e, "docx") {
        "application/vnd.openxmlformats-officedocument.wordprocessingml.document"
    } else if same_text(e, "doc") {
        "application/msword"
    } else if same_text(e, "odt") {
        "application/vnd.oasis.opendocument.text"
    } else if same_text(e, "rtf") {
        "application/rtf"
    } else if same_text(e, "pdf") {
        "application/pdf"
    } else if same_text(e, "txt") {
        "text/plain"
    } else if same_text(e, "md") {
        "text/markdown"
    } else if same_text(e, "json") {
        "application/json"
    } else if same_text(e, "xml") {
        "application/xml"
    } else if same_text(e, "html") || same_text(e, "htm") {
        "text/html"
    } else if same_text(e, "css") {
        "text/css"
    } else if same_text(e, "js") || same_text(e, "mjs") || same_text(e, "cjs") {
        "text/javascript"
    } else if same_text(e, "yaml") || same_text(e, "yml") {
        "text/yaml"
    } else if same_text(e, "log") || same_text(e, "ini") || same_text(e, "cfg") ||
        same_text(e, "conf") || same_text(e, "toml") || same_text(e, "env") ||
        same_text(e, "properties") {
        "text/plain"
    } else if same_text(e, "py") || same_text(e, "rb") || same_text(e, "rs") || same_text(e, "go") ||
        same_text(e, "c") || same_text(e, "h") || same_text(e, "cpp") || same_text(e, "cc") ||
        same_text(e, "java") || same_text(e, "sh") || same_text(e, "lua") ||
        same_text(e, "sql") || same_text(e, "vim") || same_text(e, "ts") ||
        same_text(e, "tsx") || same_text(e, "jsx") || same_text(e, "php") || same_text(e, "pl") {
        "text/plain"
    } else if same_text(e, "mp3") {
        "audio/mpeg"
    } else if same_text(e, "wav") {
        "audio/wav"
    } else if same_text(e, "ogg") {
        "audio/ogg"
    } else if same_text(e, "flac") {
        "audio/flac"
    } else if same_text(e, "m4a") {
        "audio/mp4"
    } else if same_text(e, "aac") {
        "audio/aac"
    } else if same_text(e, "mp4") {
        "video/mp4"
    } else if same_text(e, "mov") {
        "video/quicktime"
    } else if same_text(e, "avi") {
        "video/x-msvideo"
    } else if same_text(e, "mkv") {
        "video/x-matroska"
    } else if same_text(e, "webm") {
        "video/webm"
    } else if same_text(e, "wmv") {
        "video/x-ms-wmv"
    } else if same_text(e, "zip") {
        "application/zip"
    } else if same_text(e, "rar") {
        "application/vnd.rar"
    } else if same_text(e, "7z") {
        "application/x-7z-compressed"
    } else if same_text(e, "gz") {
        "application/gzip"
    } else if same_text(e, "tar") {
        "application/x-tar"
    } else {
        "application/octet-stream"
    }
}

/// The (lower-case) extension is that of an image.
pub open spec fn is_image_ext(e: Seq<char>) -> bool {
    e == "png"@ || e == "jpg"@ || e == "jpeg"@ || e == "gif"@ || e == "bmp"@ || e == "webp"@ ||
    e == "tif"@ || e == "tiff"@ || e == "svg"@
}

fn is_image_ext_exec(e: &str) -> (b: bool)
    ensures
        b == is_image_ext(e@),
{
    same_text(e, "png") || same_text(e, "jpg") || same_text(e, "jpeg") || same_text(e, "gif") ||
    same_text(e, "bmp") || same_text(e, "webp") || same_text(e, "tif") ||
    same_text(e, "tiff") || same_text(e, "svg")
}

/// The (lower-case) extension is that of a spreadsheet.
pub open spec fn is_spreadsheet_ext(e: Seq<char>) -> bool {
    e == "xlsx"@ || e == "xlsm"@ || e == "xls"@ || e == "ods"@ || e == "csv"@ || e == "tsv"@
}

fn is_spreadsheet_ext_exec(e: &str) -> (b: bool)
    ensures
        b == is_spreadsheet_ext(e@),
{
    same_text(e, "xlsx") || same_text(e, "xlsm") || same_text(e, "xls") ||
    same_text(e, "ods") || same_text(e, "csv") || same_text(e, "tsv")
}

/// The (lower-case) extension is that of a document.
pub open spec fn is_document_ext(e: Seq<char>) -> bool {
    e == "docx"@ || e == "doc"@ || e == "odt"@ || e == "rtf"@ || e == "pdf"@ || e == "txt"@ ||
    e == "md"@
}

fn is_document_ext_exec(e: &str) -> (b: bool)
    ensures
        b == is_document_ext(e@),
{
    same_text(e, "docx") || same_text(e, "doc") || same_text(e, "odt") || same_text(e, "rtf") ||
    same_text(e, "pdf") || same_text(e, "txt") || same_text(e, "md")
}

/// The (lower-case) extension is that of a sound.
pub open spec fn is_audio_ext(e: Seq<char>) -> bool {
    e == "mp3"@ || e == "wav"@ || e == "ogg"@ || e == "flac"@ || e == "m4a"@ || e == "aac"@
}

fn is_audio_ext_exec(e: &str) -> (b: bool)
    ensures
        b == is_audio_ext(e@),
{
    same_text(e, "mp3") || same_text(e, "wav") || same_text(e, "ogg") || same_text(e, "flac") ||
    same_text(e, "m4a") || same_text(e, "aac")
}

/// The (lower-case) extension is that of a video.
pub open spec fn is_video_ext(e: Seq<char>) -> bool {
    e == "mp4"@ || e == "mov"@ || e == "avi"@ || e == "mkv"@ || e == "webm"@ || e == "wmv"@
}

fn is_video_ext_exec(e: &str) -> (b: bool)
    ensures
        b == is_video_ext(e@),
{
    same_text(e, "mp4") || same_text(e, "mov") || same_text(e, "avi") || same_text(e, "mkv") ||
    same_text(e, "webm") || same_text(e, "wmv")
}

/// The (lower-case) extension is that of an archive.
pub open spec fn is_archive_ext(e: Seq<char>) -> bool {
    e == "zip"@ || e == "rar"@ || e == "7z"@ || e == "gz"@ || e == "tar"@
}

fn is_archive_ext_exec(e: &str) -> (b: bool)
    ensures
        b == is_archive_ext(e@),
{
    same_text(e, "zip") || same_text(e, "rar") || same_text(e, "7z") || same_text(e, "gz") ||
    same_text(e, "tar")
}

/// The (lower-case) extension is that of text or source code.
pub open spec fn is_text_ext(e: Seq<char>) -> bool {
    e == "log"@ || e == "json"@ || e == "yaml"@ || e == "yml"@ || e == "toml"@ || e == "ini"@ ||
    e == "cfg"@ || e == "conf"@ || e == "xml"@ || e == "html"@ || e == "htm"@ || e == "css"@ ||
    e == "scss"@ || e == "less"@ || e == "js"@ || e == "jsx"@ || e == "ts"@ || e == "tsx"@ ||
    e == "mjs"@ || e == "cjs"@ || e == "py"@ || e == "rb"@ || e == "rs"@ || e == "go"@ ||
    e == "c"@ || e == "h"@ || e == "cpp"@ || e == "cc"@ || e == "cxx"@ || e == "hpp"@ ||
    e == "hh"@ || e == "java"@ || e == "kt"@ || e == "kts"@ || e == "swift"@ || e == "mm"@ ||
    e == "php"@ || e == "pl"@ || e == "pm"@ || e == "sh"@ || e == "bash"@ || e == "zsh"@ ||
    e == "fish"@ || e == "vim"@ || e == "lua"@ || e == "sql"@ || e == "r"@ || e == "jl"@ ||
    e == "dart"@ || e == "scala"@ || e == "clj"@ || e == "ex"@ || e == "exs"@ || e == "erl"@ ||
    e == "hs"@ || e == "ml"@ || e == "mli"@ || e == "fs"@ || e == "vb"@ || e == "cs"@ ||
    e == "gradle"@ || e == "properties"@ || e == "env"@ || e == "tex"@ || e == "rst"@ ||
    e == "adoc"@ || e == "org"@ || e == "bat"@ || e == "ps1"@ || e == "ipynb"@ ||
    e == "diff"@ || e == "patch"@
}

fn is_text_ext_exec(e: &str) -> (b: bool)
    ensures
        b == is_text_ext(e@),
{
    same_text(e, "log") || same_text(e, "json") || same_text(e, "yaml") ||
    same_text(e, "yml") || same_text(e, "toml") || same_text(e, "ini") || same_text(e, "cfg") ||
    same_text(e, "conf") || same_text(e, "xml") || same_text(e, "html") ||
    same_text(e, "htm") || same_text(e, "css") || same_text(e, "scss") ||
    same_text(e, "less") || same_text(e, "js") || same_text(e, "jsx") || same_text(e, "ts") ||
    same_text(e, "tsx") || same_text(e, "mjs") || same_text(e, "cjs") || same_text(e, "py") ||
    same_text(e, "rb") || same_text(e, "rs") || same_text(e, "go") || same_text(e, "c") ||
    same_text(e, "h") || same_text(e, "cpp") || same_text(e, "cc") || same_text(e, "cxx") ||
    same_text(e, "hpp") || same_text(e, "hh") || same_text(e, "java") || same_text(e, "kt") ||
    same_text(e, "kts") || same_text(e, "swift") || same_text(e, "mm") || same_text(e, "php") ||
    same_text(e, "pl") || same_text(e, "pm") || same_text(e, "sh") || same_text(e, "bash") ||
    same_text(e, "zsh") || same_text(e, "fish") || same_text(e, "vim") || same_text(e, "lua") ||
    same_text(e, "sql") || same_text(e, "r") || same_text(e, "jl") || same_text(e, "dart") ||
    same_text(e, "scala") || same_text(e, "clj") || same_text(e, "ex") || same_text(e, "exs") ||
    same_text(e, "erl") || same_text(e, "hs") || same_text(e, "ml") || same_text(e, "mli") ||
    same_text(e, "fs") || same_text(e, "vb") || same_text(e, "cs") || same_text(e, "gradle") ||
    same_text(e, "properties") || same_text(e, "env") || same_text(e, "tex") ||
    same_text(e, "rst") || same_text(e, "adoc") || same_text(e, "org") || same_text(e, "bat") ||
    same_text(e, "ps1") || same_text(e, "ipynb") || same_text(e, "diff") ||
    same_text(e, "patch")
}

/// The folder of the package that an added file goes to, by its
/// (lower-case) extension: images to `word/media`, spreadsheets,
/// documents, sound, video, archives and text to `word/embeddings`; other
/// files are not taken.
pub open spec fn upload_dir(e: Seq<char>) -> Option<Seq<char>> {
    if is_image_ext(e) {
        Some("word/media"@)
    } else if is_spreadsheet_ext(e) || is_document_ext(e) || is_audio_ext(e) || is_video_ext(e)
        || is_archive_ext(e) || is_text_ext(e) {
        Some("word/embeddings"@)
    } else {
        None
    }
}

/// The folder an added file goes to, by its extension in any ASCII case.
pub fn classify_upload_ext(ext: &str) -> (r: Option<&'static str>)
    ensures
        match r {
            Some(d) => upload_dir(ascii_lower(ext@)) == Some(d@),
            None => upload_dir(ascii_lower(ext@)) is None,
        },
{
    let lower = to_ascii_lowercase(ext);
    let e = lower.as_str();
    if is_image_ext_exec(e) {
        Some("word/media")
    } else if is_spreadsheet_ext_exec(e) || is_document_ext_exec(e) || is_audio_ext_exec(e)
        || is_video_ext_exec(e) || is_archive_ext_exec(e) || is_text_ext_exec(e) {
        Some("word/embeddings")
    } else {
        None
    }
}

/// The OLE program identifier of an embeddable Office file by its
/// (lower-case) extension.
pub open spec fn progid(e: Seq<char>) -> Option<Seq<char>> {
    if e == "xlsx"@ {
        Some("Excel.Sheet.12"@)
    } else if e == "xlsm"@ {
        Some("Excel.SheetMacroEnabled.12"@)
    } else if e == "docx"@ {
        Some("Word.Document.12"@)
    } else {
        None
    }
}

/// The OLE program identifier for an extension in any ASCII case.
pub fn ole_progid(ext: &str) -> (r: Option<&'static str>)
    ensures
        match r {
            Some(p) => progid(ascii_lower(ext@)) == Some(p@),
            None => progid(ascii_lower(ext@)) is None,
        },
{
    let lower = to_ascii_lowercase(ext);
    let e = lower.as_str();
    if same_text(e, "xlsx") {
        Some("Excel.Sheet.12")
    } else if same_text(e, "xlsm") {
        Some("Excel.SheetMacroEnabled.12")
    } else if same_text(e, "docx") {
        Some("Word.Document.12")
    } else {
        None
    }
}

// ---------------------------------------------------------------------
// Searching and splicing text
// ---------------------------------------------------------------------

/// The last position below `n` where `needle` occurs in `hay`.
pub open spec fn last_sub_below(hay: Seq<char>, needle: Seq<char>, n: nat) -> Option<nat>
    decreases n,
{
    if n == 0 {
        None
    } else if occurs(hay, needle, n - 1) {
        Some((n - 1) as nat)
    } else {
        last_sub_below(hay, needle, (n - 1) as nat)
    }
}

/// Position of the last occurrence of `needle` in `hay` (std's `str::rfind`).
pub open spec fn rfind(hay: Seq<char>, needle: Seq<char>) -> Option<nat> {
    last_sub_below(hay, needle, hay.len() + 1)
}

/// The last position of `needle` in `hay`.
pub fn rfind_exec(hay: &Vec<char>, needle: &Vec<char>) -> (r: Option<usize>)
    ensures
        match r {
            Some(i) => rfind(hay@, needle@) == Some(i as nat),
            None => rfind(hay@, needle@) is None,
        },
{
    if needle.len() > hay.len() {
        assert forall|k: nat| k <= hay@.len() + 1 implies #[trigger] last_sub_below(hay@, needle@, k) is None by {
            lemma_none_below(hay@, needle@, k);
        }
        return None;
    }
    if needle.len() == 0 {
        assert(hay@.subrange(hay@.len() as int, hay@.len() as int) =~= needle@);
        assert(occurs(hay@, needle@, hay@.len() as int));
        return Some(hay.len());
    }
    let mut n: usize = hay.len() - needle.len() + 1;
    assert forall|k: nat| n <= k <= hay@.len() + 1 implies #[trigger] last_sub_below(hay@, needle@, k)
        == last_sub_below(hay@, needle@, n as nat) by {
        lemma_skip_tail(hay@, needle@, n as nat, k);
    }
    while n > 0
        invariant
            needle@.len() <= hay@.len(),
            n <= hay@.len() - needle@.len() + 1,
            rfind(hay@, needle@) == last_sub_below(hay@, needle@, n as nat),
        decreases n,
    {
        if occurs_at(hay, needle, n - 1) {
            return Some(n - 1);
        }
        n -= 1;
    }
    None
}

/// Below a position where the needle cannot fit, nothing is found there.
proof fn lemma_none_below(hay: Seq<char>, needle: Seq<char>, k: nat)
    requires
        needle.len() > hay.len(),
    ensures
        last_sub_below(hay, needle, k) is None,
    decreases k,
{
    if k > 0 {
        lemma_none_below(hay, needle, (k - 1) as nat);
    }
}

/// Positions where the needle no longer fits are passed over.
proof fn lemma_skip_tail(hay: Seq<char>, needle: Seq<char>, n: nat, k: nat)
    requires
        needle.len() <= hay.len(),
        n == hay.len() - needle.len() + 1,
        n <= k,
    ensures
        last_sub_below(hay, needle, k) == last_sub_below(hay, needle, n),
    decreases k,
{
    if k > n {
        lemma_skip_tail(hay, needle, n, (k - 1) as nat);
    }
}

/// `s` with `add` put before the last occurrence of `marker`; nothing
/// when `marker` does not occur.
pub open spec fn insert_before_last(s: Seq<char>, marker: Seq<char>, add: Seq<char>) -> Option<Seq<char>> {
    match rfind(s, marker) {
        Some(i) => Some(s.take(i as int) + add + s.skip(i as int)),
        None => None,
    }
}

/// Puts `add` before the last occurrence of `marker` in `s`.
pub fn insert_before_last_exec(s: &str, marker: &str, add: &str) -> (r: Option<String>)
    ensures
        match r {
            Some(t) => insert_before_last(s@, marker@, add@) == Some(t@),
            None => insert_before_last(s@, marker@, add@) is None,
        },
{
    let v = chars_of(s);
    let m = chars_of(marker);
    match rfind_exec(&v, &m) {
        Some(i) => {
            proof {
                assert(occurs(v@, m@, i as int)) by {
                    lemma_last_found(v@, m@, (v@.len() + 1) as nat);
                }
            }
            let mut t = string_of_range(v.as_slice(), 0, i);
            push_str(&mut t, add);
            let tail = string_of_range(v.as_slice(), i, v.len());
            push_str(&mut t, tail.as_str());
            assert(t@ =~= s@.take(i as int) + add@ + s@.skip(i as int));
            Some(t)
        },
        None => None,
    }
}

/// What the backward search finds is an occurrence.
pub proof fn lemma_last_found(hay: Seq<char>, needle: Seq<char>, n: nat)
    ensures
        last_sub_below(hay, needle, n) matches Some(i) ==> i < n && occurs(hay, needle, i as int),
    decreases n,
{
    if n > 0 && !occurs(hay, needle, n - 1) {
        lemma_last_found(hay, needle, (n - 1) as nat);
    }
}

/// `needle` occurs in `hay` (std's `str::contains`).
pub open spec fn contains(hay: Seq<char>, needle: Seq<char>) -> bool {
    exists|i: int| occurs(hay, needle, i)
}

/// Whether `needle` occurs in `hay`.
pub fn contains_exec(hay: &str, needle: &str) -> (b: bool)
    ensures
        b == contains(hay@, needle@),
{
    let h = chars_of(hay);
    let n = chars_of(needle);
    find_sub_exec(&h, &n).is_some()
}

// ---------------------------------------------------------------------
// [Content_Types].xml
// ---------------------------------------------------------------------

/// The `<Default>` entry that declares the media type of an extension.
pub open spec fn default_entry(ext: Seq<char>) -> Seq<char> {
    "<Default Extension=\""@ + ext + "\" ContentType=\""@ + content_type(ascii_lower(ext)) + "\"/>"@
}

/// The content types part with a `<Default>` entry for `ext` added before
/// its closing `</Types>`; nothing when the extension is declared already
/// (some `Extension="ext"` occurs) or the part has no closing tag.
pub open spec fn with_default_type(types: Seq<char>, ext: Seq<char>) -> Option<Seq<char>> {
    if contains(types, "Extension=\""@ + ext + "\""@) {
        None
    } else {
        insert_before_last(types, "</Types>"@, default_entry(ext))
    }
}

/// Declares the media type of `ext` in the content types part `types`
/// (see [`with_default_type`]).
pub fn add_default_type(types: &str, ext: &str) -> (r: Option<String>)
    ensures
        match r {
            Some(t) => with_default_type(types@, ext@) == Some(t@),
            None => with_default_type(types@, ext@) is None,
        },
{
    let mut needle = String::from_str("Extension=\"");
    push_str(&mut needle, ext);
    push_str(&mut needle, "\"");
    if contains_exec(types, needle.as_str()) {
        return None;
    }
    let mut entry = String::from_str("<Default Extension=\"");
    push_str(&mut entry, ext);
    push_str(&mut entry, "\" ContentType=\"");
    push_str(&mut entry, guess_content_type(ext));
    push_str(&mut entry, "\"/>");
    insert_before_last_exec(types, "</Types>", entry.as_str())
}

/// The content types part after declaring each extension of `exts` in
/// turn, where it is not declared yet.
pub open spec fn with_default_types(types: Seq<char>, exts: Seq<Seq<char>>) -> Seq<char>
    decreases exts.len(),
{
    if exts.len() == 0 {
        types
    } else {
        let next = match with_default_type(types, exts[0]) {
            Some(t) => t,
            None => types,
        };
        with_default_types(next, exts.drop_first())
    }
}

// ---------------------------------------------------------------------
// Fresh numbers
// ---------------------------------------------------------------------

/// The decimal digits at the start of `s`.
pub open spec fn lead_digits(s: Seq<char>) -> Seq<char>
    decreases s.len(),
{
    if s.len() > 0 && is_digit(s[0]) {
        seq![s[0]] + lead_digits(s.drop_first())
    } else {
        Seq::empty()
    }
}

/// The largest number, at least `m`, that follows an occurrence of
/// `needle` in `s` as a forward scan reads them: after each occurrence it
/// reads the digits that follow (a number too large for 32 bits is
/// passed over) and goes on after them, or after one character when there
/// are none. `None` when a character that is not ASCII directly follows
/// an occurrence the scan reaches with more text after it: the scan steps
/// over one byte there, which is no character boundary.
pub open spec fn scan_max(s: Seq<char>, needle: Seq<char>, m: u32) -> Option<u32>
    decreases s.len(),
{
    match find_sub(s, needle) {
        None => Some(m),
        Some(pos) => {
            let rest = s.skip((pos + needle.len()) as int);
            let num = lead_digits(rest);
            let m2: u32 = if digits_value(num) <= u32::MAX && num.len() > 0 && digits_value(num) > m {
                digits_value(num) as u32
            } else {
                m
            };
            let adv: nat = if num.len() == 0 { 1 } else { num.len() };
            if num.len() == 0 && rest.len() > 0 && rest[0] as u32 >= 0x80 {
                None
            } else if adv >= rest.len() {
                Some(m2)
            } else if pos + needle.len() + adv <= s.len() {
                scan_max(rest.skip(adv as int), needle, m2)
            } else {
                Some(m2)
            }
        },
    }
}

/// The first position at or after `from` where `needle` occurs in `hay`.
pub(crate) fn find_from(hay: &Vec<char>, needle: &Vec<char>, from: usize) -> (r: Option<usize>)
    requires
        from <= hay@.len(),
    ensures
        match r {
            Some(p) => from <= p && find_sub(hay@.skip(from as int), needle@) == Some((p - from) as nat)
                && occurs(hay@, needle@, p as int),
            None => find_sub(hay@.skip(from as int), needle@) is None,
        },
{
    let ghost t = hay@.skip(from as int);
    if needle.len() > hay.len() - from {
        assert forall|q: int| !#[trigger] occurs(t, needle@, q) by {}
        return None;
    }
    if needle.len() == 0 {
        assert(t.subrange(0, 0) =~= needle@);
        assert(occurs(t, needle@, 0));
        assert(hay@.subrange(from as int, from as int) =~= needle@);
        return Some(from);
    }
    let last = hay.len() - needle.len();
    assert(last < usize::MAX);
    let mut i: usize = from;
    assert forall|q: int| 0 <= q && q + needle@.len() <= t.len() implies
        #[trigger] occurs(t, needle@, q) == occurs(hay@, needle@, q + from) by {
        assert(t.subrange(q, q + needle@.len()) =~= hay@.subrange(q + from, q + from + needle@.len()));
    }
    while i <= last
        invariant
            last + needle@.len() == hay@.len(),
            needle@.len() > 0,
            last < usize::MAX,
            from <= i <= last + 1,
            t == hay@.skip(from as int),
            forall|q: int| 0 <= q && q + needle@.len() <= t.len() ==>
                #[trigger] occurs(t, needle@, q) == occurs(hay@, needle@, q + from),
            forall|q: int| 0 <= q < i - from ==> !#[trigger] occurs(t, needle@, q),
            first_sub_from(t, needle@, 0) == first_sub_from(t, needle@, (i - from) as nat),
        decreases last + 1 - i,
    {
        if occurs_at(hay, needle, i) {
            assert(occurs(hay@, needle@, i as int));
            assert(occurs(t, needle@, i - from));
            assert(t.subrange(i - from, i - from + needle@.len()) == needle@);
            return Some(i);
        }
        assert(!occurs(t, needle@, i - from));
        assert(t.subrange(i - from, i - from + needle@.len()) != needle@);
        i += 1;
    }
    assert forall|q: int| !#[trigger] occurs(t, needle@, q) by {
        if 0 <= q < i - from {
        }
    }
    None
}

/// The digits at the start of `t` are those of `t.take(k)` when `k`
/// digits are followed by the end or a non-digit.
pub proof fn lemma_lead_digits(t: Seq<char>, k: nat)
    requires
        k <= t.len(),
        forall|i: int| 0 <= i < k ==> is_digit(#[trigger] t[i]),
        k == t.len() || !is_digit(t[k as int]),
    ensures
        lead_digits(t) == t.take(k as int),
    decreases k,
{
    if k > 0 {
        let u = t.drop_first();
        assert forall|i: int| 0 <= i < k - 1 implies is_digit(#[trigger] u[i]) by {
            assert(u[i] == t[i + 1]);
        }
        if k < t.len() {
            assert(u[k - 1] == t[k as int]);
        }
        lemma_lead_digits(u, (k - 1) as nat);
        assert(t.take(k as int) =~= seq![t[0]] + u.take(k - 1));
    } else {
        assert(t.take(0) =~= Seq::<char>::empty());
    }
}

/// The digits at the start of `t` are a prefix of it, all digits, and
/// followed by the end or a non-digit.
proof fn lemma_lead_digits_shape(t: Seq<char>)
    ensures
        lead_digits(t).len() <= t.len(),
        lead_digits(t) == t.take(lead_digits(t).len() as int),
        forall|i: int| 0 <= i < lead_digits(t).len() ==> is_digit(#[trigger] t[i]),
        lead_digits(t).len() < t.len() ==> !is_digit(t[lead_digits(t).len() as int]),
    decreases t.len(),
{
    if t.len() > 0 && is_digit(t[0]) {
        let u = t.drop_first();
        lemma_lead_digits_shape(u);
        let k: int = lead_digits(u).len() as int;
        assert(lead_digits(t) =~= seq![t[0]] + lead_digits(u));
        assert(t.take(k + 1) =~= seq![t[0]] + u.take(k));
        assert forall|i: int| 0 <= i < k + 1 implies is_digit(#[trigger] t[i]) by {
            if i > 0 {
                assert(t[i] == u[i - 1]);
            }
        }
        if k + 1 < t.len() {
            assert(t[k + 1] == u[k]);
        }
    } else {
        assert(t.take(0) =~= Seq::<char>::empty());
    }
}

/// The number of at most 32 bits written directly after the occurrence of
/// `needle` at `p` in `s`, if there is one.
pub open spec fn number_after(s: Seq<char>, needle: Seq<char>, p: int) -> Option<nat> {
    let d = lead_digits(s.skip(p + needle.len()));
    if d.len() > 0 && digits_value(d) <= u32::MAX {
        Some(digits_value(d))
    } else {
        None
    }
}

/// The occurrences of `needle` in `s` start more than its length apart:
/// none overlaps another or follows it directly.
pub open spec fn occurrences_spaced(s: Seq<char>, needle: Seq<char>) -> bool {
    forall|p: int, q: int|
        #![trigger occurs(s, needle, p), occurs(s, needle, q)]
        occurs(s, needle, p) && occurs(s, needle, q) && p < q ==> q - p > needle.len()
}

/// How far the scan moves on over `rest`, the text after an occurrence:
/// over the digits there, or over one character when there are none.
spec fn scan_advance(rest: Seq<char>) -> nat {
    if lead_digits(rest).len() == 0 {
        1
    } else {
        lead_digits(rest).len()
    }
}

/// After the first occurrence of `needle`, and the characters that the
/// scan passes over behind it, the next occurrence starts no earlier than
/// where the scan goes on.
proof fn lemma_next_occurrence(s: Seq<char>, needle: Seq<char>, pos: nat)
    requires
        needle.len() > 0,
        forall|i: int| 0 <= i < needle.len() ==> !is_digit(#[trigger] needle[i]),
        occurrences_spaced(s, needle),
        find_sub(s, needle) == Some(pos),
    ensures
        occurs(s, needle, pos as int),
        forall|q: int|
            #[trigger] occurs(s, needle, q) && q != pos ==> q >= pos + needle.len() + scan_advance(
                s.skip((pos + needle.len()) as int),
            ),
{
    let len = needle.len();
    lemma_find_sub_occurs(s, needle);
    let rest = s.skip((pos + len) as int);
    let num = lead_digits(rest);
    lemma_lead_digits_shape(rest);
    let adv: nat = if num.len() == 0 { 1 } else { num.len() };
    assert forall|q: int| #[trigger] occurs(s, needle, q) && q != pos implies q >= pos + len + adv by {
        lemma_first_sub_occurs(s, needle, 0, q);
        assert(occurs(s, needle, pos as int) && occurs(s, needle, q));
        if q < pos + len + adv {
            assert(s.subrange(q, q + len)[0] == s[q]);
            assert(rest[q - pos - len] == s[q]);
        }
    }
}

/// The occurrences of `needle` in a suffix of `s` are those in `s` from
/// where the suffix starts, with the same numbers after them.
proof fn lemma_suffix_occurrences(s: Seq<char>, needle: Seq<char>, off: int)
    requires
        0 <= off <= s.len(),
    ensures
        forall|q: int| #[trigger] occurs(s.skip(off), needle, q) ==> occurs(s, needle, q + off),
        forall|q: int|
            #[trigger] occurs(s, needle, q) && q >= off ==> occurs(s.skip(off), needle, q - off)
                && number_after(s.skip(off), needle, q - off) == number_after(s, needle, q),
{
    let t = s.skip(off);
    let len = needle.len();
    assert forall|q: int| #[trigger] occurs(t, needle, q) implies occurs(s, needle, q + off) by {
        assert(s.subrange(q + off, q + off + len) =~= t.subrange(q, q + len));
    }
    assert forall|q: int| #[trigger] occurs(s, needle, q) && q >= off implies occurs(t, needle, q - off)
        && number_after(t, needle, q - off) == number_after(s, needle, q) by {
        assert(t.subrange(q - off, q - off + len) =~= s.subrange(q, q + len));
        assert(t.skip(q - off + len) =~= s.skip(q + len));
    }
}

/// Where the occurrences of a needle without digits are spaced, the scan
/// reads the number after each of them: its result is at least `m` and
/// at least each of those numbers, and it is `m` or one of them.
pub proof fn lemma_scan_max_covers(s: Seq<char>, needle: Seq<char>, m: u32)
    requires
        needle.len() > 0,
        forall|i: int| 0 <= i < needle.len() ==> !is_digit(#[trigger] needle[i]),
        occurrences_spaced(s, needle),
        scan_max(s, needle, m) is Some,
    ensures
        m <= scan_max(s, needle, m)->0,
        forall|p: int|
            #[trigger] occurs(s, needle, p) && number_after(s, needle, p) is Some ==> number_after(s, needle, p)->0
                <= scan_max(s, needle, m)->0,
        scan_max(s, needle, m)->0 == m || exists|p: int|
            #[trigger] occurs(s, needle, p) && number_after(s, needle, p) == Some(scan_max(s, needle, m)->0 as nat),
    decreases s.len(),
{
    let len = needle.len();
    match find_sub(s, needle) {
        None => {
            assert forall|p: int| !#[trigger] occurs(s, needle, p) by {}
        },
        Some(pos) => {
            lemma_next_occurrence(s, needle, pos);
            let rest = s.skip((pos + len) as int);
            let num = lead_digits(rest);
            let m2: u32 = if digits_value(num) <= u32::MAX && num.len() > 0 && digits_value(num) > m {
                digits_value(num) as u32
            } else {
                m
            };
            let adv: nat = if num.len() == 0 { 1 } else { num.len() };
            let off = pos + len + adv;
            assert(number_after(s, needle, pos as int) is Some ==> number_after(s, needle, pos as int)->0 <= m2);
            assert(m2 == m || number_after(s, needle, pos as int) == Some(m2 as nat));
            if adv >= rest.len() {
                assert(scan_max(s, needle, m) == Some(m2));
                assert forall|q: int| #[trigger] occurs(s, needle, q) implies q == pos by {}
            } else {
                let t = rest.skip(adv as int);
                assert(t =~= s.skip(off as int));
                assert(scan_max(s, needle, m) == scan_max(t, needle, m2));
                lemma_suffix_occurrences(s, needle, off as int);
                assert forall|p: int, q: int|
                    #![trigger occurs(t, needle, p), occurs(t, needle, q)]
                    occurs(t, needle, p) && occurs(t, needle, q) && p < q implies q - p > len by {
                    assert(occurs(s, needle, p + off) && occurs(s, needle, q + off));
                }
                lemma_scan_max_covers(t, needle, m2);
                let r = scan_max(t, needle, m2)->0;
                assert forall|p: int|
                    #[trigger] occurs(s, needle, p) && number_after(s, needle, p) is Some implies number_after(
                        s,
                        needle,
                        p,
                    )->0 <= r by {
                    if p != pos {
                        assert(occurs(t, needle, p - off));
                    }
                }
                if r != m2 {
                    let q = choose|q: int| #[trigger] occurs(t, needle, q) && number_after(t, needle, q) == Some(r as nat);
                    assert(occurs(s, needle, q + off));
                    assert(number_after(s, needle, q + off) == Some(r as nat));
                }
            }
        },
    }
}

/// Where the occurrences of a needle without digits are spaced, and the
/// largest 32-bit number and 0 do not both follow one of them, the
/// number after the largest that the scan reads (wrapping around) follows
/// none of them.
pub proof fn lemma_scan_next_unused(s: Seq<char>, needle: Seq<char>)
    requires
        needle.len() > 0,
        forall|i: int| 0 <= i < needle.len() ==> !is_digit(#[trigger] needle[i]),
        occurrences_spaced(s, needle),
        scan_max(s, needle, 0) is Some,
        forall|p: int, q: int|
            #![trigger occurs(s, needle, p), occurs(s, needle, q)]
            occurs(s, needle, p) && occurs(s, needle, q) && number_after(s, needle, p) == Some(u32::MAX as nat)
                ==> number_after(s, needle, q) != Some(0nat),
    ensures
        forall|p: int|
            #[trigger] occurs(s, needle, p) && lead_digits(s.skip(p + needle.len())).len() > 0 ==> digits_value(
                lead_digits(s.skip(p + needle.len())),
            ) != scan_max(s, needle, 0)->0.wrapping_add(1) as nat,
{
    lemma_scan_max_covers(s, needle, 0);
    let r = scan_max(s, needle, 0)->0;
    if r == u32::MAX {
        let p0 = choose|p: int| #[trigger] occurs(s, needle, p) && number_after(s, needle, p) == Some(r as nat);
        assert forall|p: int|
            #[trigger] occurs(s, needle, p) && lead_digits(s.skip(p + needle.len())).len() > 0 implies digits_value(
                lead_digits(s.skip(p + needle.len())),
            ) != 0 by {
            assert(occurs(s, needle, p0) && occurs(s, needle, p));
        }
    }
}

/// Value of the decimal digits `v[lo..hi]`, capped at 2^32.
fn digits_capped(v: &Vec<char>, lo: usize, hi: usize) -> (r: u64)
    requires
        lo <= hi <= v@.len(),
        forall|i: int| lo <= i < hi ==> is_digit(#[trigger] v@[i]),
    ensures
        r == (if digits_value(v@.subrange(lo as int, hi as int)) < 0x1_0000_0000 {
            digits_value(v@.subrange(lo as int, hi as int))
        } else {
            0x1_0000_0000
        }),
{
    let cap: u64 = 0x1_0000_0000;
    let mut acc: u64 = 0;
    let mut i: usize = lo;
    assert(v@.subrange(lo as int, lo as int) =~= Seq::<char>::empty());
    while i < hi
        invariant
            cap == 0x1_0000_0000,
            lo <= i <= hi <= v@.len(),
            forall|k: int| lo <= k < hi ==> is_digit(#[trigger] v@[k]),
            acc == (if digits_value(v@.subrange(lo as int, i as int)) < cap {
                digits_value(v@.subrange(lo as int, i as int))
            } else {
                cap as nat
            }),
        decreases hi - i,
    {
        let c = v[i];
        assert(is_digit(v@[i as int]));
        let d: u64 = ((c as u32) - 48) as u64;
        assert(v@.subrange(lo as int, i + 1).drop_last() == v@.subrange(lo as int, i as int));
        assert(v@.subrange(lo as int, i + 1).last() == c);
        if acc < cap {
            let next = acc * 10 + d;
            acc = if next < cap { next } else { cap };
        }
        i += 1;
    }
    acc
}

/// The largest number that follows `needle` in `s` as [`scan_max`] reads
/// them, from 0.
pub fn scan_max_exec(s: &Vec<char>, needle: &Vec<char>) -> (r: Option<u32>)
    ensures
        r == scan_max(s@, needle@, 0),
{
    let mut m: u32 = 0;
    let mut start: usize = 0;
    let n: usize = s.len();
    assert(s@.skip(0) == s@);
    loop
        invariant
            n == s@.len(),
            start <= s@.len(),
            scan_max(s@, needle@, 0) == scan_max(s@.skip(start as int), needle@, m),
        decreases s@.len() - start,
    {
        let ghost t = s@.skip(start as int);
        match find_from(s, needle, start) {
            None => {
                return Some(m);
            },
            Some(p) => {
                assert(occurs(s@, needle@, p as int));
                let q = p + needle.len();
                let ghost pos = (p - start) as nat;
                let ghost rest = t.skip((pos + needle@.len()) as int);
                assert(rest =~= s@.skip(q as int));
                let mut e: usize = q;
                while e < s.len() && '0' <= s[e] && s[e] <= '9'
                    invariant
                        q <= e <= s@.len(),
                        forall|i: int| q <= i < e ==> is_digit(#[trigger] s@[i]),
                    decreases s@.len() - e,
                {
                    e += 1;
                }
                proof {
                    assert forall|i: int| 0 <= i < e - q implies is_digit(#[trigger] rest[i]) by {
                        assert(rest[i] == s@[q + i]);
                    }
                    if e < s@.len() {
                        assert(rest[e - q] == s@[e as int]);
                    }
                    lemma_lead_digits(rest, (e - q) as nat);
                    assert(rest.take(e - q) =~= s@.subrange(q as int, e as int));
                }
                let val = digits_capped(s, q, e);
                if e > q && val <= 0xFFFF_FFFF && val as u32 > m {
                    m = val as u32;
                }
                proof {
                    if q < s@.len() {
                        vstd::utf8::char_is_scalar(s@[q as int]);
                    }
                }
                if e == q && q < s.len() && s[q] as u32 >= 0x80 {
                    assert(rest[0] == s@[q as int]);
                    return None;
                }
                let adv: usize = if e == q { 1 } else { e - q };
                if adv >= s.len() - q {
                    return Some(m);
                }
                assert(rest.skip(adv as int) =~= s@.skip((q + adv) as int));
                start = q + adv;
            },
        }
    }
}

// ---------------------------------------------------------------------
// File names
// ---------------------------------------------------------------------

/// The last part of a `/`-separated path that names a file: empty parts
/// and `.` are skipped, and a path ending in `..` names none (std's
/// `Path::file_name`).
pub open spec fn last_named(parts: Seq<Seq<char>>) -> Option<Seq<char>>
    decreases parts.len(),
{
    if parts.len() == 0 {
        None
    } else {
        let l = parts.last();
        if l.len() == 0 || l == "."@ {
            last_named(parts.drop_last())
        } else if l == ".."@ {
            None
        } else {
            Some(l)
        }
    }
}

/// The file name of a path.
pub open spec fn file_name(p: Seq<char>) -> Option<Seq<char>> {
    last_named(split_on(p, '/'))
}

/// The extension of a path: what follows the last `.` of its file name,
/// when that `.` is not the name's first character (std's
/// `Path::extension`).
pub open spec fn path_extension(p: Seq<char>) -> Option<Seq<char>> {
    match file_name(p) {
        None => None,
        Some(n) => match rfind(n, "."@) {
            Some(i) => if i == 0 { None } else { Some(n.skip(i + 1int)) },
            None => None,
        },
    }
}

/// The stem of a path: its file name without the extension (std's
/// `Path::file_stem`).
pub open spec fn path_stem(p: Seq<char>) -> Option<Seq<char>> {
    match file_name(p) {
        None => None,
        Some(n) => match rfind(n, "."@) {
            Some(i) => if i == 0 { Some(n) } else { Some(n.take(i as int)) },
            None => Some(n),
        },
    }
}

/// The file name of a path, if it has one.
fn file_name_exec(p: &str) -> (r: Option<Vec<char>>)
    ensures
        match r {
            Some(n) => file_name(p@) == Some(n@),
            None => file_name(p@) is None,
        },
{
    let v = chars_of(p);
    let parts = split_chars(&v, '/');
    let ghost all = lines_view(parts@);
    let mut k: usize = parts.len();
    assert(all.take(all.len() as int) == all);
    while k > 0
        invariant
            all == lines_view(parts@),
            all == split_on(p@, '/'),
            k <= parts@.len(),
            last_named(all) == last_named(all.take(k as int)),
        decreases k,
    {
        let ghost t = all.take(k as int);
        assert(t.last() == parts@[k - 1]@);
        assert(t.drop_last() == all.take(k - 1));
        let l = &parts[k - 1];
        let ls = string_of(l.as_slice());
        if !(l.len() == 0 || same_text(ls.as_str(), ".")) {
            if same_text(ls.as_str(), "..") {
                return None;
            }
            return Some(chars_of(ls.as_str()));
        }
        k -= 1;
    }
    None
}

/// The extension of a path (see [`path_extension`]).
pub fn path_extension_exec(p: &str) -> (r: Option<String>)
    ensures
        match r {
            Some(e) => path_extension(p@) == Some(e@),
            None => path_extension(p@) is None,
        },
{
    match file_name_exec(p) {
        None => None,
        Some(n) => {
            let dot = chars_of(".");
            match rfind_exec(&n, &dot) {
                Some(i) => {
                    if i == 0 {
                        None
                    } else {
                        proof {
                            reveal_strlit(".");
                            lemma_last_found(n@, dot@, (n@.len() + 1) as nat);
                        }
                        let len = n.len();
                        Some(string_of_range(n.as_slice(), i + 1, len))
                    }
                },
                None => None,
            }
        },
    }
}

/// The stem of a path (see [`path_stem`]).
pub fn path_stem_exec(p: &str) -> (r: Option<String>)
    ensures
        match r {
            Some(e) => path_stem(p@) == Some(e@),
            None => path_stem(p@) is None,
        },
{
    match file_name_exec(p) {
        None => None,
        Some(n) => {
            let dot = chars_of(".");
            match rfind_exec(&n, &dot) {
                Some(i) => {
                    proof {
                        lemma_last_found(n@, dot@, (n@.len() + 1) as nat);
                    }
                    if i == 0 {
                        Some(string_of(n.as_slice()))
                    } else {
                        Some(string_of_range(n.as_slice(), 0, i))
                    }
                },
                None => Some(string_of(n.as_slice())),
            }
        },
    }
}

/// The `k`-th name tried for a new entry in folder `dir`: `stem.ext`,
/// then `stem_k.ext`.
pub open spec fn entry_candidate(dir: Seq<char>, stem: Seq<char>, ext: Seq<char>, k: nat) -> Seq<char> {
    if k == 0 {
        dir + "/"@ + stem + "."@ + ext
    } else {
        dir + "/"@ + stem + "_"@ + dec(k) + "."@ + ext
    }
}

/// `name` is the first candidate for a new entry that is not taken.
pub open spec fn is_free_entry(taken: Set<Seq<char>>, dir: Seq<char>, stem: Seq<char>, ext: Seq<char>, name: Seq<char>) -> bool {
    exists|k: nat| #![trigger entry_candidate(dir, stem, ext, k)]
        name == entry_candidate(dir, stem, ext, k) && !taken.contains(name)
            && forall|j: nat| j < k ==> taken.contains(#[trigger] entry_candidate(dir, stem, ext, j))
}

/// Different candidates differ.
proof fn lemma_candidates_differ(dir: Seq<char>, stem: Seq<char>, ext: Seq<char>, a: nat, b: nat)
    requires
        entry_candidate(dir, stem, ext, a) == entry_candidate(dir, stem, ext, b),
    ensures
        a == b,
{
    if a == 0 || b == 0 {
        if a != b {
            reveal_strlit("/");
            reveal_strlit("_");
            reveal_strlit(".");
            let k: nat = if a == 0 { b } else { a };
            assert(dec(k).len() >= 1);
            assert("/"@.len() == 1 && "_"@.len() == 1 && "."@.len() == 1);
            assert(entry_candidate(dir, stem, ext, 0).len() == dir.len() + stem.len() + ext.len() + 2);
            assert(entry_candidate(dir, stem, ext, k).len() == dir.len() + stem.len() + ext.len() + 3 + dec(k).len());
            assert(entry_candidate(dir, stem, ext, a).len() != entry_candidate(dir, stem, ext, b).len());
        }
        return;
    }
    let pre = dir + "/"@ + stem + "_"@;
    let suf = "."@ + ext;
    let ca = entry_candidate(dir, stem, ext, a);
    assert(ca =~= pre + dec(a) + suf);
    assert(entry_candidate(dir, stem, ext, b) =~= pre + dec(b) + suf);
    assert(dec(a).len() == dec(b).len());
    assert(dec(a) =~= ca.subrange(pre.len() as int, (pre.len() + dec(a).len()) as int));
    assert(dec(b) =~= ca.subrange(pre.len() as int, (pre.len() + dec(b).len()) as int));
    lemma_dec_injective(a, b);
}

/// The text of a list of names.
pub open spec fn names_view(v: Seq<String>) -> Seq<Seq<char>> {
    v.map_values(|s: String| s@)
}

/// Whether `name` is one of `names`.
pub(crate) fn is_taken(names: &Vec<String>, name: &str) -> (b: bool)
    ensures
        b == names_view(names@).contains(name@),
{
    let mut i: usize = 0;
    while i < names.len()
        invariant
            i <= names@.len(),
            forall|k: int| 0 <= k < i ==> names@[k]@ != name@,
        decreases names@.len() - i,
    {
        if same_text(names[i].as_str(), name) {
            assert(names_view(names@)[i as int] == name@);
            return true;
        }
        i += 1;
    }
    assert forall|k: int| 0 <= k < names_view(names@).len() implies names_view(names@)[k] != name@ by {
        assert(names_view(names@)[k] == names@[k]@);
    }
    false
}

/// A name for a new entry of folder `dir` that none of `taken` has: the
/// first of `dir/stem.ext`, `dir/stem_1.ext`, `dir/stem_2.ext`, ... that
/// is free.
pub fn unique_entry_name(taken: &Vec<String>, dir: &str, stem: &str, ext: &str) -> (r: String)
    requires
        taken@.len() < u32::MAX,
    ensures
        is_free_entry(names_view(taken@).to_set(), dir@, stem@, ext@, r@),
{
    let ghost ts = names_view(taken@).to_set();
    let mut name = String::from_str(dir);
    push_str(&mut name, "/");
    push_str(&mut name, stem);
    push_str(&mut name, ".");
    push_str(&mut name, ext);
    assert(name@ =~= entry_candidate(dir@, stem@, ext@, 0));
    let mut counter: u32 = 1;
    let ghost mut tried: Set<Seq<char>> = Set::empty();
    proof {
        broadcast use vstd::seq_lib::seq_to_set_is_finite;
        names_view(taken@).lemma_cardinality_of_set();
    }
    while is_taken(taken, name.as_str())
        invariant
            ts == names_view(taken@).to_set(),
            ts.finite(),
            ts.len() <= taken@.len() < u32::MAX,
            1 <= counter <= taken@.len() + 1,
            name@ == entry_candidate(dir@, stem@, ext@, (counter - 1) as nat),
            forall|j: nat| j < counter - 1 ==> ts.contains(#[trigger] entry_candidate(dir@, stem@, ext@, j)),
            tried.finite(),
            tried.len() == counter - 1,
            tried.subset_of(ts),
            forall|x: Seq<char>| #[trigger] tried.contains(x) ==> exists|j: nat|
                j < counter - 1 && x == #[trigger] entry_candidate(dir@, stem@, ext@, j),
        decreases taken@.len() + 1 - counter,
    {
        assert(names_view(taken@).contains(name@));
        assert(ts.contains(name@));
        proof {
            if tried.contains(name@) {
                let j = choose|j: nat| j < counter - 1 && name@ == #[trigger] entry_candidate(dir@, stem@, ext@, j);
                lemma_candidates_differ(dir@, stem@, ext@, j, (counter - 1) as nat);
                assert(false);
            }
            let t2 = tried.insert(name@);
            assert(t2.len() == counter);
            vstd::set_lib::lemma_len_subset(t2, ts);
            assert forall|x: Seq<char>| #[trigger] t2.contains(x) implies exists|j: nat|
                j < counter && x == #[trigger] entry_candidate(dir@, stem@, ext@, j) by {
                if x != name@ {
                    assert(tried.contains(x));
                } else {
                    assert(x == entry_candidate(dir@, stem@, ext@, (counter - 1) as nat));
                }
            }
            tried = t2;
        }
        let ghost c = counter;
        name = String::from_str(dir);
        push_str(&mut name, "/");
        push_str(&mut name, stem);
        push_str(&mut name, "_");
        push_dec(&mut name, counter as u64);
        push_str(&mut name, ".");
        push_str(&mut name, ext);
        assert(name@ =~= entry_candidate(dir@, stem@, ext@, c as nat));
        counter = counter + 1;
    }
    assert(!ts.contains(name@)) by {
        assert(!names_view(taken@).contains(name@));
    }
    name
}

// ---------------------------------------------------------------------
// Deleting attached files
// ---------------------------------------------------------------------

/// Only files of the media and embeddings folders may be deleted.
pub open spec fn deletable(entry: Seq<char>) -> bool {
    has_prefix(entry, "word/media/"@) || has_prefix(entry, "word/embeddings/"@)
}

/// Refuses to delete a part outside the media and embeddings folders.
pub fn check_deletable(entry: &str) -> (r: Result<(), AppError>)
    ensures
        r is Ok <==> deletable(entry@),
        r matches Err(e) ==> e.0@ == "Refusing to delete non-media file: "@ + entry@,
{
    if starts_with(entry, "word/media/") || starts_with(entry, "word/embeddings/") {
        Ok(())
    } else {
        let mut m = String::from_str("Refusing to delete non-media file: ");
        push_str(&mut m, entry);
        Err(AppError(m))
    }
}

/// Some relationship (the entry that counts for its identifier) points at
/// the part `entry`: its target is the part's path inside `word/`, or
/// ends with it or with the file name.
pub open spec fn referenced_by_rel(entry: Seq<char>, rels: Seq<(Seq<char>, Seq<char>)>) -> bool {
    let base = crate::rels::last_segment(entry);
    let target = crate::attach::word_relative(entry);
    exists|i: int| 0 <= i < rels.len() && crate::rels::is_final_entry(rels, i) && (#[trigger] rels[i].1 == target
        || crate::rels::has_suffix(rels[i].1, target) || crate::rels::has_suffix(rels[i].1, base))
}

/// The document text holds the marker of the attached file.
pub open spec fn referenced_by_marker(entry: Seq<char>, doc_text: Seq<char>) -> bool {
    contains(doc_text, "\u{1F4CE} "@ + crate::rels::last_segment(entry))
}

/// The message that refuses to delete a file still in use.
pub open spec fn in_use_message(entry: Seq<char>) -> Seq<char> {
    "Cannot delete '"@ + crate::rels::last_segment(entry)
        + "': file is still attached/referenced in the document. Remove the image/attachment from the text first."@
}

/// Refuses to delete a file that a relationship or a marker in the
/// document text still refers to.
pub fn check_unreferenced(entry: &str, rels: &Vec<(String, String)>, doc_text: &str) -> (r: Result<(), AppError>)
    ensures
        r is Ok <==> !(referenced_by_rel(entry@, crate::rels::rels_view(rels@)) || referenced_by_marker(entry@, doc_text@)),
        r matches Err(e) ==> e.0@ == in_use_message(entry@),
{
    let ghost rv = crate::rels::rels_view(rels@);
    let base = crate::rels::last_segment_exec(entry);
    let target = crate::attach::word_relative_exec(entry);
    let mut by_rel = false;
    let mut i: usize = 0;
    while i < rels.len()
        invariant
            rv == crate::rels::rels_view(rels@),
            base@ == crate::rels::last_segment(entry@),
            target@ == crate::attach::word_relative(entry@),
            i <= rels@.len(),
            by_rel == exists|k: int| 0 <= k < i && crate::rels::is_final_entry(rv, k) && (#[trigger] rv[k].1 == target@
                || crate::rels::has_suffix(rv[k].1, target@) || crate::rels::has_suffix(rv[k].1, base@)),
        decreases rels@.len() - i,
    {
        let t = rels[i].1.as_str();
        assert(rv[i as int].1 == t@);
        if crate::rels::is_final_entry_pub(rels, i) && (same_text(t, target.as_str()) || crate::rels::ends_with(t, target.as_str())
            || crate::rels::ends_with(t, base.as_str())) {
            by_rel = true;
        }
        i += 1;
    }
    let mut needle = String::from_str("\u{1F4CE} ");
    push_str(&mut needle, base.as_str());
    let by_marker = contains_exec(doc_text, needle.as_str());
    if by_rel || by_marker {
        let mut m = String::from_str("Cannot delete '");
        push_str(&mut m, base.as_str());
        push_str(&mut m, "': file is still attached/referenced in the document. Remove the image/attachment from the text first.");
        return Err(AppError(m));
    }
    Ok(())
}

// ---------------------------------------------------------------------
// A new, empty document
// ---------------------------------------------------------------------

/// The parts of a new document: content types, package relationships and
/// a main document part with one empty paragraph, each with its name.
pub open spec fn blank_parts() -> Seq<(Seq<char>, Seq<char>)> {
    seq![
        ("[Content_Types].xml"@, "<?xml version=\"1.0\" encoding=\"UTF-8\" standalone=\"yes\"?>\n<Types xmlns=\"http://schemas.openxmlformats.org/package/2006/content-types\">\n<Default Extension=\"xml\" ContentType=\"application/xml\"/>\n<Default Extension=\"rels\" ContentType=\"application/vnd.openxmlformats-package.relationships+xml\"/>\n<Override PartName=\"/word/document.xml\" ContentType=\"application/vnd.openxmlformats-officedocument.wordprocessingml.document.main+xml\"/>\n</Types>"@),
        ("_rels/.rels"@, "<?xml version=\"1.0\" encoding=\"UTF-8\" standalone=\"yes\"?>\n<Relationships xmlns=\"http://schemas.openxmlformats.org/package/2006/relationships\">\n<Relationship Id=\"rId1\" Type=\"http://schemas.openxmlformats.org/officeDocument/2006/relationships/officeDocument\" Target=\"word/document.xml\"/>\n</Relationships>"@),
        ("word/document.xml"@, "<?xml version=\"1.0\" encoding=\"UTF-8\" standalone=\"yes\"?>\n<w:document xmlns:w=\"http://schemas.openxmlformats.org/wordprocessingml/2006/main\">\n<w:body>\n<w:p/>\n<w:sectPr/>\n</w:body>\n</w:document>"@),
    ]
}

/// The parts of a new document (see [`blank_parts`]), in the order they
/// are written.
pub fn blank_document_parts() -> (r: Vec<(&'static str, &'static str)>)
    ensures
        r@.map_values(|e: (&'static str, &'static str)| (e.0@, e.1@)) == blank_parts(),
{
    let v: Vec<(&'static str, &'static str)> = vec![
        ("[Content_Types].xml", "<?xml version=\"1.0\" encoding=\"UTF-8\" standalone=\"yes\"?>\n<Types xmlns=\"http://schemas.openxmlformats.org/package/2006/content-types\">\n<Default Extension=\"xml\" ContentType=\"application/xml\"/>\n<Default Extension=\"rels\" ContentType=\"application/vnd.openxmlformats-package.relationships+xml\"/>\n<Override PartName=\"/word/document.xml\" ContentType=\"application/vnd.openxmlformats-officedocument.wordprocessingml.document.main+xml\"/>\n</Types>"),
        ("_rels/.rels", "<?xml version=\"1.0\" encoding=\"UTF-8\" standalone=\"yes\"?>\n<Relationships xmlns=\"http://schemas.openxmlformats.org/package/2006/relationships\">\n<Relationship Id=\"rId1\" Type=\"http://schemas.openxmlformats.org/officeDocument/2006/relationships/officeDocument\" Target=\"word/document.xml\"/>\n</Relationships>"),
        ("word/document.xml", "<?xml version=\"1.0\" encoding=\"UTF-8\" standalone=\"yes\"?>\n<w:document xmlns:w=\"http://schemas.openxmlformats.org/wordprocessingml/2006/main\">\n<w:body>\n<w:p/>\n<w:sectPr/>\n</w:body>\n</w:document>"),
    ];
    assert(v@.map_values(|e: (&'static str, &'static str)| (e.0@, e.1@)) =~= blank_parts());
    v
}

/// An empty relationship part, for a document that has none yet.
pub open spec fn empty_rels() -> Seq<char> {
    "<?xml version=\"1.0\" encoding=\"UTF-8\" standalone=\"yes\"?><Relationships xmlns=\"http://schemas.openxmlformats.org/package/2006/relationships\"></Relationships>"@
}

/// An empty relationship part (see [`empty_rels`]).
pub fn empty_rels_part() -> (r: &'static str)
    ensures
        r@ == empty_rels(),
{
    "<?xml version=\"1.0\" encoding=\"UTF-8\" standalone=\"yes\"?><Relationships xmlns=\"http://schemas.openxmlformats.org/package/2006/relationships\"></Relationships>"
}

/// The content types part after declaring each of `exts` in turn (see
/// [`with_default_types`]).
pub fn add_default_types(types: &str, exts: &Vec<String>) -> (r: String)
    ensures
        r@ == with_default_types(types@, names_view(exts@)),
{
    let mut cur = String::from_str(types);
    let mut i: usize = 0;
    assert(names_view(exts@).skip(0) == names_view(exts@));
    while i < exts.len()
        invariant
            i <= exts@.len(),
            with_default_types(types@, names_view(exts@)) == with_default_types(cur@, names_view(exts@).skip(i as int)),
        decreases exts@.len() - i,
    {
        assert(names_view(exts@).skip(i as int)[0] == exts@[i as int]@);
        assert(names_view(exts@).skip(i as int).drop_first() == names_view(exts@).skip(i + 1));
        match add_default_type(cur.as_str(), exts[i].as_str()) {
            Some(t) => {
                cur = t;
            },
            None => {},
        }
        i += 1;
    }
    cur
}


// ---------------------------------------------------------------------
// Rewriting the package
// ---------------------------------------------------------------------

/// The positions, in increasing order, of the entries named `names` that a
/// rewrite of the package copies as they are: those neither replaced nor
/// deleted.
pub open spec fn kept_indices(names: Seq<Seq<char>>, replaced: Seq<Seq<char>>, deleted: Seq<Seq<char>>) -> Seq<usize>
    decreases names.len(),
{
    if names.len() == 0 {
        Seq::empty()
    } else {
        let rest = kept_indices(names.drop_last(), replaced, deleted);
        if replaced.contains(names.last()) || deleted.contains(names.last()) {
            rest
        } else {
            rest.push((names.len() - 1) as usize)
        }
    }
}

/// The entries that a rewrite of the package copies as they are, by
/// position: every entry whose name is neither among `replaced` nor among
/// `deleted`, in the order of the package.
pub fn entries_kept(names: &Vec<String>, replaced: &Vec<String>, deleted: &Vec<String>) -> (keep: Vec<usize>)
    ensures
        keep@ == kept_indices(names_view(names@), names_view(replaced@), names_view(deleted@)),
{
    let ghost all = names_view(names@);
    let ghost rv = names_view(replaced@);
    let ghost dv = names_view(deleted@);
    let mut keep: Vec<usize> = Vec::new();
    let mut k: usize = 0;
    assert(all.take(0) =~= Seq::<Seq<char>>::empty());
    while k < names.len()
        invariant
            k <= names@.len(),
            all == names_view(names@),
            rv == names_view(replaced@),
            dv == names_view(deleted@),
            keep@ == kept_indices(all.take(k as int), rv, dv),
        decreases names@.len() - k,
    {
        let name = names[k].as_str();
        assert(all.take(k + 1).drop_last() =~= all.take(k as int));
        assert(all.take(k + 1).last() == name@);
        if !is_taken(replaced, name) && !is_taken(deleted, name) {
            keep.push(k);
        }
        k += 1;
    }
    assert(all.take(names@.len() as int) =~= all);
    keep
}

/// The content types part with each of `exts` declared (see
/// [`with_default_types`]), when that changes it; `None` when all are
/// declared already or the part has no closing tag.
pub fn content_types_update(types: &str, exts: &Vec<String>) -> (r: Option<String>)
    ensures
        match r {
            Some(t) => t@ == with_default_types(types@, names_view(exts@)) && t@ != types@,
            None => with_default_types(types@, names_view(exts@)) == types@,
        },
{
    let t = add_default_types(types, exts);
    if same_text(t.as_str(), types) {
        None
    } else {
        Some(t)
    }
}

/// A rewrite keeps exactly the entries that are neither replaced nor
/// deleted, each once and in the order of the package.
pub proof fn lemma_kept_indices(names: Seq<Seq<char>>, replaced: Seq<Seq<char>>, deleted: Seq<Seq<char>>)
    requires
        names.len() <= usize::MAX + 1,
    ensures
        forall|k: int|
            0 <= k < names.len() ==> (kept_indices(names, replaced, deleted).contains(k as usize) <==> !replaced.contains(
                #[trigger] names[k],
            ) && !deleted.contains(names[k])),
        forall|i: int| 0 <= i < kept_indices(names, replaced, deleted).len() ==> (#[trigger] kept_indices(names, replaced, deleted)[i]) < names.len(),
        forall|i: int, j: int|
            0 <= i < j < kept_indices(names, replaced, deleted).len() ==> (#[trigger] kept_indices(names, replaced, deleted)[i])
                < (#[trigger] kept_indices(names, replaced, deleted)[j]),
    decreases names.len(),
{
    if names.len() > 0 {
        let init = names.drop_last();
        lemma_kept_indices(init, replaced, deleted);
        let rest = kept_indices(init, replaced, deleted);
        let r = kept_indices(names, replaced, deleted);
        let last = (names.len() - 1) as usize;
        assert forall|k: int| 0 <= k < names.len() implies (r.contains(k as usize) <==> !replaced.contains(
            #[trigger] names[k],
        ) && !deleted.contains(names[k])) by {
            if k < names.len() - 1 {
                assert(names[k] == init[k]);
                if r.contains(k as usize) {
                    let m = choose|m: int| 0 <= m < r.len() && r[m] == k as usize;
                    if m < rest.len() {
                        assert(rest[m] == r[m]);
                    }
                }
                if rest.contains(k as usize) {
                    let m = choose|m: int| 0 <= m < rest.len() && rest[m] == k as usize;
                    assert(r[m] == rest[m]);
                }
            } else {
                if r.contains(k as usize) {
                    let m = choose|m: int| 0 <= m < r.len() && r[m] == k as usize;
                    if m < rest.len() {
                        assert(rest[m] == r[m]);
                    }
                }
                if !replaced.contains(names.last()) && !deleted.contains(names.last()) {
                    assert(r[rest.len() as int] == last);
                }
            }
        }
    }
}
} // verus!
