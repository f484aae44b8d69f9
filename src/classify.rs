use vstd::prelude::*;
use vstd::string::*;
use vstd::utf8::encode_utf8;

use crate::format::{
    decimal, decimal_string, format_size, human_size, padded, padded_decimal, signed_decimal,
    signed_decimal_string,
};
use crate::kind::ContentType;
use crate::text::{chars_of, fold_case, lower_of};

verus! {

/// Text longer than this many bytes is not captured.
pub const MAX_TEXT_BYTES: usize = 250000;

/// A calendar date as plain numbers.
pub struct CivilDate {
    pub year: u32,
    pub month: u32,
    pub day: u32,
}

/// A file named on the clipboard, with its size when it could be read.
pub struct FileRef {
    pub path: String,
    pub size: Option<u64>,
}

/// What the clipboard held at one sampling.
pub enum Snapshot {
    Files(Vec<FileRef>),
    Image { width: u32, height: u32, bytes: Vec<u8> },
    Text(String),
}

/// The raw content that travels with a captured item.
pub enum Payload {
    Absent,
    Bytes(Vec<u8>),
    Path(String),
}

/// A classified clipboard item, not yet persisted.
pub struct PasteboardContent {
    pub display_text: String,
    pub kind: ContentType,
    pub payload: Payload,
    pub fingerprint: u64,
    pub captured_at: i64,
    /// Where the item's blob lives: the file itself, the side-car file of an
    /// image, or empty for text.
    pub path: String,
}

/// The characters with the Unicode `White_Space` property, which is what
/// `char::is_whitespace` tests.
pub open spec fn white_space(c: char) -> bool {
    let u = c as u32;
    ||| 0x9 <= u <= 0xD
    ||| u == 0x20
    ||| u == 0x85
    ||| u == 0xA0
    ||| u == 0x1680
    ||| 0x2000 <= u <= 0x200A
    ||| u == 0x2028
    ||| u == 0x2029
    ||| u == 0x202F
    ||| u == 0x205F
    ||| u == 0x3000
}

/// Whether a character is white space.
pub fn is_white(c: char) -> (r: bool)
    ensures
        r == white_space(c),
{
    let u = c as u32;
    (0x9 <= u && u <= 0xD) || u == 0x20 || u == 0x85 || u == 0xA0 || u == 0x1680 || (0x2000 <= u
        && u <= 0x200A) || u == 0x2028 || u == 0x2029 || u == 0x202F || u == 0x205F || u == 0x3000
}

/// Relies on ahash's `AHasher` with its default keys, which are drawn once per
/// process: nothing is claimed of the value.
#[verifier::external_body]
pub(crate) fn hash_str(input: &str) -> u64 {
    let mut hasher = ahash::AHasher::default();
    std::hash::Hash::hash(input, &mut hasher);
    std::hash::Hasher::finish(&hasher)
}

/// Relies on ahash's `AHasher` with its default keys, which are drawn once per
/// process: nothing is claimed of the value.
#[verifier::external_body]
pub(crate) fn hash_vec(input: &[u8]) -> u64 {
    let mut hasher = ahash::AHasher::default();
    std::hash::Hash::hash(input, &mut hasher);
    std::hash::Hasher::finish(&hasher)
}

/// The UTF-8 length of a text, as `str::len` reports it.
pub open spec fn byte_len(s: Seq<char>) -> usize {
    encode_utf8(s).len() as usize
}

pub open spec fn blank(s: Seq<char>) -> bool {
    forall|i: int| 0 <= i < s.len() ==> white_space(#[trigger] s[i])
}

/// The part of a path after its last dot; the whole path when it has none.
pub open spec fn extension(p: Seq<char>) -> Seq<char>
    decreases p.len(),
{
    if p.len() == 0 {
        p
    } else if p.last() == '.' {
        Seq::empty()
    } else {
        extension(p.drop_last()).push(p.last())
    }
}

pub open spec fn is_image_extension(e: Seq<char>) -> bool {
    e == "png"@ || e == "jpg"@ || e == "jpeg"@ || e == "bmp"@ || e == "gif"@
}

/// The kind of a file on the clipboard: an image when its extension, folded to
/// lower case, is one of png, jpg, jpeg, bmp, gif.
pub open spec fn file_kind_of(path: Seq<char>) -> ContentType {
    if is_image_extension(lower_of(extension(path))) {
        ContentType::Image
    } else {
        ContentType::File
    }
}

pub open spec fn size_text(size: Option<u64>) -> Seq<char> {
    match size {
        Some(b) => human_size(b as nat),
        None => "?"@,
    }
}

/// `item` is what a file on the clipboard becomes, its fingerprint aside.
pub open spec fn describes_file(item: PasteboardContent, f: FileRef, captured_at: i64) -> bool {
    let kind = file_kind_of(f.path@);
    &&& item.kind == kind
    &&& item.display_text@ == kind.name() + ": "@ + f.path@ + " ("@ + size_text(f.size) + ")"@
    &&& (item.payload matches Payload::Path(p) && p@ == f.path@)
    &&& item.path@ == f.path@
    &&& item.captured_at == captured_at
}

/// `item` is what an image copied as pixels becomes, its fingerprint aside.
pub open spec fn describes_image(
    item: PasteboardContent,
    width: u32,
    height: u32,
    bytes: Seq<u8>,
    captured_at: i64,
    sidecar: Seq<char>,
) -> bool {
    &&& item.kind == ContentType::Image
    &&& item.display_text@ == "Image: "@ + decimal(width as nat) + "x"@ + decimal(height as nat)
        + " ("@ + human_size(bytes.len()) + ")"@
    &&& (item.payload matches Payload::Bytes(b) && b@ == bytes)
    &&& item.path@ == sidecar
    &&& item.captured_at == captured_at
}

/// Text is captured when it is not empty, not only white space, and no
/// longer than the byte limit.
pub open spec fn text_captured(text: Seq<char>) -> bool {
    text.len() > 0 && !blank(text) && byte_len(text) <= MAX_TEXT_BYTES
}

/// `item` is what captured text becomes, its fingerprint aside.
pub open spec fn describes_text(item: PasteboardContent, text: Seq<char>, captured_at: i64) -> bool {
    &&& item.kind == ContentType::Text
    &&& item.display_text@ == text
    &&& item.payload is Absent
    &&& item.path@ == Seq::<char>::empty()
    &&& item.captured_at == captured_at
}

/// Where the side-car file of a captured image goes:
/// `{files_root}/{YYYYMMDD}/{timestamp}.{ext}`.
pub open spec fn sidecar_of(files_root: Seq<char>, date: CivilDate, timestamp: i64, ext: Seq<char>) -> Seq<char> {
    files_root + "/"@ + padded(decimal(date.year as nat), 4) + padded(decimal(date.month as nat), 2)
        + padded(decimal(date.day as nat), 2) + "/"@ + signed_decimal(timestamp as int) + "."@ + ext
}

/// Whether a text is over the byte limit for capture.
pub fn string_is_large(input: &String) -> (r: bool)
    ensures
        r == (byte_len(input@) > MAX_TEXT_BYTES),
{
    input.as_str().len() > MAX_TEXT_BYTES
}

/// Whether every character of `text` is white space (true of empty text).
pub fn is_blank(text: &str) -> (r: bool)
    ensures
        r == blank(text@),
{
    let cs = chars_of(text);
    let mut i: usize = 0;
    while i < cs.len()
        invariant
            i <= cs@.len(),
            cs@ == text@,
            forall|j: int| 0 <= j < i ==> white_space(#[trigger] cs@[j]),
        decreases cs@.len() - i,
    {
        if !is_white(cs[i]) {
            return false;
        }
        i += 1;
    }
    true
}

/// Whether two texts hold the same characters.
fn same_text(a: &str, b: &str) -> (r: bool)
    ensures
        r == (a@ == b@),
{
    let x = chars_of(a);
    let y = chars_of(b);
    if x.len() != y.len() {
        return false;
    }
    let mut i: usize = 0;
    while i < x.len()
        invariant
            i <= x@.len(),
            x@.len() == y@.len(),
            x@ == a@,
            y@ == b@,
            forall|j: int| 0 <= j < i ==> x@[j] == y@[j],
        decreases x@.len() - i,
    {
        if x[i] != y[i] {
            return false;
        }
        i += 1;
    }
    assert(x@ =~= y@);
    true
}

/// The kind of a file on the clipboard, from its extension.
pub fn file_kind(path: &str) -> (r: ContentType)
    ensures
        r == file_kind_of(path@),
{
    let cs = chars_of(path);
    let n = cs.len();
    let mut k: usize = n;
    assert(path@.take(n as int) =~= path@);
    assert(path@.subrange(n as int, n as int) =~= Seq::<char>::empty());
    assert(extension(path@) =~= extension(path@.take(n as int)) + path@.subrange(n as int, n as int));
    while k > 0 && cs[k - 1] != '.'
        invariant
            k <= n,
            n == cs@.len(),
            cs@ == path@,
            extension(path@) == extension(path@.take(k as int)) + path@.subrange(k as int, n as int),
        decreases k,
    {
        proof {
            let p = path@.take(k as int);
            assert(p.drop_last() =~= path@.take(k - 1));
            assert(p.last() == path@[k - 1]);
            assert(path@.subrange(k - 1, n as int) =~= seq![path@[k - 1]] + path@.subrange(k as int, n as int));
            assert(extension(p) =~= extension(path@.take(k - 1)).push(path@[k - 1]));
            assert(extension(path@.take(k - 1)) + path@.subrange(k - 1, n as int) =~= extension(p) + path@.subrange(k as int, n as int));
        }
        k -= 1;
    }
    proof {
        let p = path@.take(k as int);
        if k == 0 {
            assert(p =~= Seq::<char>::empty());
        } else {
            assert(p.last() == '.');
        }
        assert(extension(path@) =~= path@.subrange(k as int, n as int));
    }
    let ext = path.substring_char(k, n);
    let folded = fold_case(ext);
    let f = folded.as_str();
    if same_text(f, "png") || same_text(f, "jpg") || same_text(f, "jpeg") || same_text(f, "bmp")
        || same_text(f, "gif") {
        ContentType::Image
    } else {
        ContentType::File
    }
}

/// `"{size}"` in base-1024 units, or `"?"` when the size is unknown.
pub fn size_label(size: Option<u64>) -> (r: String)
    ensures
        r@ == size_text(size),
{
    match size {
        Some(b) => format_size(b),
        None => String::from_str("?"),
    }
}

/// Classifies a file named on the clipboard.
pub fn classify_file(f: &FileRef, fingerprint: u64, captured_at: i64) -> (r: PasteboardContent)
    ensures
        describes_file(r, *f, captured_at),
        r.fingerprint == fingerprint,
{
    let kind = file_kind(f.path.as_str());
    let mut text = kind.to_string();
    text.append(": ");
    text.append(f.path.as_str());
    text.append(" (");
    let size = size_label(f.size);
    text.append(size.as_str());
    text.append(")");
    PasteboardContent {
        display_text: text,
        kind,
        payload: Payload::Path(f.path.clone()),
        fingerprint,
        captured_at,
        path: f.path.clone(),
    }
}

/// Classifies an image copied as pixels, stored at `sidecar`.
pub fn classify_image(
    width: u32,
    height: u32,
    bytes: Vec<u8>,
    fingerprint: u64,
    captured_at: i64,
    sidecar: String,
) -> (r: PasteboardContent)
    ensures
        describes_image(r, width, height, bytes@, captured_at, sidecar@),
        r.fingerprint == fingerprint,
{
    let mut text = String::from_str("Image: ");
    let w = decimal_string(width as u64);
    text.append(w.as_str());
    text.append("x");
    let h = decimal_string(height as u64);
    text.append(h.as_str());
    text.append(" (");
    let size = format_size(bytes.len() as u64);
    text.append(size.as_str());
    text.append(")");
    PasteboardContent {
        display_text: text,
        kind: ContentType::Image,
        payload: Payload::Bytes(bytes),
        fingerprint,
        captured_at,
        path: sidecar,
    }
}

/// Classifies copied text: none when it is empty, only white space, or over
/// the byte limit.
pub fn classify_text(text: String, fingerprint: u64, captured_at: i64) -> (r: Option<PasteboardContent>)
    ensures
        r.is_some() <==> text_captured(text@),
        r matches Some(item) ==> describes_text(item, text@, captured_at) && item.fingerprint
            == fingerprint,
{
    if text.as_str().is_empty() || is_blank(text.as_str()) || string_is_large(&text) {
        None
    } else {
        Some(
            PasteboardContent {
                display_text: text,
                kind: ContentType::Text,
                payload: Payload::Absent,
                fingerprint,
                captured_at,
                path: String::new(),
            },
        )
    }
}

/// Where the side-car file of a captured image goes.
pub fn sidecar_path(files_root: &str, date: &CivilDate, timestamp: i64, ext: &str) -> (r: String)
    ensures
        r@ == sidecar_of(files_root@, *date, timestamp, ext@),
{
    let mut s = String::from_str(files_root);
    s.append("/");
    let y = padded_decimal(date.year as u64, 4);
    s.append(y.as_str());
    let m = padded_decimal(date.month as u64, 2);
    s.append(m.as_str());
    let d = padded_decimal(date.day as u64, 2);
    s.append(d.as_str());
    s.append("/");
    let t = signed_decimal_string(timestamp);
    s.append(t.as_str());
    s.append(".");
    s.append(ext);
    s
}

/// Classifies a clipboard snapshot: each file on it in order, an image copied
/// as pixels (stored as a PNG side-car file), or text. Fingerprints hash the
/// path, the image bytes or the text.
pub fn classify(snapshot: Snapshot, captured_at: i64, date: &CivilDate, files_root: &str) -> (r: Vec<PasteboardContent>)
    ensures
        match snapshot {
            Snapshot::Files(fs) => r@.len() == fs@.len() && forall|i: int|
                0 <= i < r@.len() ==> describes_file(#[trigger] r@[i], fs@[i], captured_at),
            Snapshot::Image { width, height, bytes } => r@.len() == 1 && describes_image(
                r@[0],
                width,
                height,
                bytes@,
                captured_at,
                sidecar_of(files_root@, *date, captured_at, "png"@),
            ),
            Snapshot::Text(t) => r@.len() == (if text_captured(t@) {
                1int
            } else {
                0int
            }) && (r@.len() == 1 ==> describes_text(r@[0], t@, captured_at)),
        },
{
    let mut out: Vec<PasteboardContent> = Vec::new();
    match snapshot {
        Snapshot::Files(fs) => {
            let mut i: usize = 0;
            while i < fs.len()
                invariant
                    i <= fs@.len(),
                    out@.len() == i,
                    forall|j: int| 0 <= j < i ==> describes_file(#[trigger] out@[j], fs@[j], captured_at),
                decreases fs@.len() - i,
            {
                let f = &fs[i];
                let fp = hash_str(f.path.as_str());
                let item = classify_file(f, fp, captured_at);
                out.push(item);
                i += 1;
            }
        },
        Snapshot::Image { width, height, bytes } => {
            let fp = hash_vec(bytes.as_slice());
            let sidecar = sidecar_path(files_root, date, captured_at, "png");
            out.push(classify_image(width, height, bytes, fp, captured_at, sidecar));
        },
        Snapshot::Text(t) => {
            let fp = hash_str(t.as_str());
            match classify_text(t, fp, captured_at) {
                Some(item) => out.push(item),
                None => {},
            }
        },
    }
    out
}

} // verus!
