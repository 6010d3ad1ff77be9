//! What a file is, where its thumbnails live, and what its EXIF dates mean.
//!
//! Everything derived lands under `.gpp/thumbs` and can be deleted at any
//! time; the originals are only ever read.

use vstd::prelude::*;

use crate::encoding::{base64_len, base64_standard, base64_text};
use crate::model::PhotoKind;
use crate::paths::{extension, extension_of, push_onto, push_path};
use crate::text::{
    chars_of, extend, index_of, is, lemma_find, lowercase, lowercased,
    one_of, slice_of, split, split_on, split_once, str_views, string_of, trim, trimmed, views,
};

verus! {

/// Extensions the built-in decoder opens end to end (HEIF through the HEVC
/// path). Compared lowercase, so `.JPG` off a camera card matches.
pub const IMAGE_EXTENSIONS: [&'static str; 9] = ["jpg", "jpeg", "png", "gif", "webp", "tif", "tiff", "heic", "heif"];

/// Camera RAW extensions. Catalogued and previewed, never published.
pub const RAW_EXTENSIONS: [&'static str; 17] = [
    "cr2", "cr3", "nef", "nrw", "arw", "srf", "sr2", "raf", "orf", "rw2", "dng", "pef", "srw",
    "raw", "3fr", "iiq", "x3f",
];

/// Video extensions. These ride along into a published album untouched.
pub const VIDEO_EXTENSIONS: [&'static str; 6] = ["mp4", "webm", "mov", "avi", "mkv", "m4v"];

/// Thumbnail sizes: a name and the longest edge, in pixels.
pub const THUMB_SIZES: [(&'static str, u32); 3] = [("small", 400), ("medium", 1200), ("large", 1920)];

/// Longest edge of the blur-up placeholder.
pub const LQIP_SIZE: u32 = 20;

/// JPEG quality for grid thumbnails — lower than a delivered frame on
/// purpose, because nobody is ever sent one.
pub const THUMBNAIL_JPEG_QUALITY: u8 = 75;

/// HEIF-family extensions, which take the HEVC decode path.
pub const HEIF_EXTENSIONS: [&'static str; 2] = ["heic", "heif"];

/// The kind an extension (already lowercased) makes a file.
pub open spec fn kind_for_extension(e: Seq<char>) -> Option<PhotoKind> {
    if str_views(IMAGE_EXTENSIONS@).contains(e) {
        Some(PhotoKind::Photo)
    } else if str_views(RAW_EXTENSIONS@).contains(e) {
        Some(PhotoKind::Raw)
    } else if str_views(VIDEO_EXTENSIONS@).contains(e) {
        Some(PhotoKind::Video)
    } else {
        None
    }
}

/// How a path is classified: by its extension, lowercased, and nothing else.
pub open spec fn classified(p: Seq<char>) -> Option<PhotoKind> {
    match extension(p) {
        None => None,
        Some(e) => kind_for_extension(lowercase(e)),
    }
}

/// Classify a file by extension. A file with no extension, or one that is
/// not in any of the three lists, is not imported at all.
pub fn classify(path: &str) -> (r: Option<PhotoKind>)
    ensures
        r == classified(path@),
{
    let p = chars_of(path);
    let e = match extension_of(&p) {
        Some(e) => e,
        None => return None,
    };
    let l = lowercased(&e);
    let image = IMAGE_EXTENSIONS;
    let raw = RAW_EXTENSIONS;
    let video = VIDEO_EXTENSIONS;
    if one_of(&l, &image) {
        Some(PhotoKind::Photo)
    } else if one_of(&l, &raw) {
        Some(PhotoKind::Raw)
    } else if one_of(&l, &video) {
        Some(PhotoKind::Video)
    } else {
        None
    }
}

/// Whether a path takes the HEIF decode path: its lowercased extension is
/// `heic` or `heif`.
pub open spec fn heif(p: Seq<char>) -> bool {
    match extension(p) {
        None => false,
        Some(e) => str_views(HEIF_EXTENSIONS@).contains(lowercase(e)),
    }
}

/// Whether this file takes the HEVC decode path.
pub fn is_heif(path: &[char]) -> (r: bool)
    ensures
        r == heif(path@),
{
    match extension_of(path) {
        Some(e) => {
            let l = lowercased(&e);
            let list = HEIF_EXTENSIONS;
            one_of(&l, &list)
        },
        None => false,
    }
}

// ------------------------------------------------------------------ dates

/// An EXIF date (`2026:06:14 10:30:00`) as ISO-8601 (`2026-06-14T10:30:00`):
/// the date part must have exactly three `:`-separated fields, and the
/// all-zero year some cameras write as a placeholder is refused.
pub open spec fn exif_iso(raw: Seq<char>) -> Option<Seq<char>> {
    match split_once(trim(raw), ' ') {
        None => None,
        Some((date, time)) => {
            let parts = split(date, ':');
            if parts.len() != 3 {
                None
            } else if parts[0] == "0000"@ {
                None
            } else {
                Some(parts[0] + seq!['-'] + parts[1] + seq!['-'] + parts[2] + seq!['T'] + time)
            }
        },
    }
}

/// `"2026:06:14 10:30:00"` → `"2026-06-14T10:30:00"`.
pub fn normalize_exif_datetime(raw: &str) -> (r: Option<String>)
    ensures
        match r {
            Some(s) => exif_iso(raw@) == Some(s@),
            None => exif_iso(raw@) is None,
        },
{
    let v = chars_of(raw);
    let t = trimmed(&v);
    let tl = t.len();
    let sp = match index_of(&t, ' ') {
        Some(i) => i,
        None => return None,
    };
    proof {
        lemma_find(t@, ' ');
        assert(sp < tl);
    }
    let date = slice_of(&t, 0, sp);
    let time = slice_of(&t, sp + 1, tl);
    assert(date@ =~= t@.take(sp as int));
    assert(time@ =~= t@.skip(sp + 1));
    let parts = split_on(&date, ':');
    if parts.len() != 3 {
        return None;
    }
    if is(&parts[0], "0000") {
        return None;
    }
    let mut out: Vec<char> = Vec::new();
    extend(&mut out, &parts[0]);
    out.push('-');
    extend(&mut out, &parts[1]);
    out.push('-');
    extend(&mut out, &parts[2]);
    out.push('T');
    extend(&mut out, &time);
    proof {
        assert(views(parts@)[0] == parts@[0]@);
        assert(views(parts@)[1] == parts@[1]@);
        assert(views(parts@)[2] == parts@[2]@);
        let p = split(date@, ':');
        assert(out@ =~= p[0] + seq!['-'] + p[1] + seq!['-'] + p[2] + seq!['T'] + time@);
    }
    Some(string_of(&out))
}

// ------------------------------------------------------------ orientation

/// Whether an EXIF orientation (absent reads as 1) turns the frame a quarter
/// turn — 5 to 8 do.
pub open spec fn turns_sideways(orientation: Option<u16>) -> bool {
    let o = match orientation {
        Some(o) => o,
        None => 1u16,
    };
    5 <= o <= 8
}

/// What applying the orientation would do to a size, without decoding
/// anything: orientations 5–8 swap width and height.
pub fn swap_for_orientation(w: u32, h: u32, orientation: Option<u16>) -> (r: (u32, u32))
    ensures
        r == (if turns_sideways(orientation) {
            (h, w)
        } else {
            (w, h)
        }),
{
    let o = match orientation {
        Some(o) => o,
        None => 1,
    };
    if 5 <= o && o <= 8 {
        (h, w)
    } else {
        (w, h)
    }
}

// ------------------------------------------------------------- thumbnails

/// How many bytes UTF-8 spends on `c`.
pub open spec fn char_width(c: char) -> nat {
    let u = c as u32;
    if u < 0x80 {
        1
    } else if u < 0x800 {
        2
    } else if u < 0x10000 {
        3
    } else {
        4
    }
}

/// Whether the first two bytes of `h` (or all of it, when shorter) end on a
/// character boundary — what taking them as a string slice needs.
pub open spec fn shard_ok(h: Seq<char>) -> bool {
    if h.len() == 0 {
        true
    } else if char_width(h[0]) >= 2 {
        char_width(h[0]) == 2
    } else if h.len() == 1 {
        true
    } else {
        char_width(h[1]) == 1
    }
}

/// The characters in the first two bytes of `h` (all of it, when shorter).
pub open spec fn shard(h: Seq<char>) -> Seq<char> {
    if h.len() == 0 {
        h
    } else if char_width(h[0]) >= 2 {
        h.take(1)
    } else if h.len() == 1 {
        h
    } else {
        h.take(2)
    }
}

/// `<thumbs>/<hash[0:2]>/<hash>_<size>.jpg`, with the meaning `Path::join`
/// gives each step.
pub open spec fn thumb_location(root: Seq<char>, hash: Seq<char>, size: Seq<char>) -> Seq<char> {
    push_path(push_path(root, shard(hash)), hash + seq!['_'] + size + ".jpg"@)
}

/// Content-addressed thumbnail location: `<thumbs>/<hash[0:2]>/<hash>_<size>.jpg`.
///
/// Addressing by content rather than path means moving or renaming a file
/// costs nothing, and re-importing an identical file reuses existing work.
pub fn thumb_path(thumb_root: &str, content_hash: &str, size_name: &str) -> (r: String)
    requires
        shard_ok(content_hash@),
    ensures
        r@ == thumb_location(thumb_root@, content_hash@, size_name@),
{
    let root = chars_of(thumb_root);
    let h = chars_of(content_hash);
    let n = h.len();
    let take: usize = if n == 0 {
        0
    } else if (h[0] as u32) >= 0x80 {
        1
    } else if n == 1 {
        1
    } else {
        2
    };
    let s = slice_of(&h, 0, take);
    proof {
        if n > 0 && (h@[0] as u32) >= 0x80 {
            assert(char_width(h@[0]) >= 2);
        }
        if n == 0 {
            assert(s@ =~= h@);
        }
        if n == 1 {
            assert(s@ =~= h@);
        }
        assert(s@ == shard(h@));
    }
    let mut name = slice_of(&h, 0, n);
    name.push('_');
    extend(&mut name, &chars_of(size_name));
    extend(&mut name, &chars_of(".jpg"));
    let mut out = root;
    push_onto(&mut out, &s);
    push_onto(&mut out, &name);
    proof {
        assert(name@ =~= h@ + seq!['_'] + size_name@ + ".jpg"@);
    }
    string_of(&out)
}

/// Result of generating derived images for one file.
#[derive(Debug, Clone, Default)]
pub struct Derived {
    /// Dimensions of the photograph as displayed — decoded and turned upright.
    pub width: u32,
    /// See [`width`](Self::width).
    pub height: u32,
    /// base64 data URI of the tiny blur placeholder.
    pub lqip: Option<String>,
}

/// Pluggable RAW support, supplied by the shell so the core never links a
/// RAW library directly. Nothing is promised of an implementation beyond its
/// signature.
pub trait RawDecoder: Send + Sync {
    /// Whether this decoder handles a given lowercase extension, with no dot.
    fn supports(&self, ext: &str) -> bool;

    /// The embedded JPEG most RAW files carry — enough to show a grid.
    fn embedded_preview(&self, path: &str) -> Result<Option<Vec<u8>>, crate::error::Error>;
}

/// The stand-in RAW decoder: knows nothing, decodes nothing.
pub struct NullRawDecoder;

impl RawDecoder for NullRawDecoder {
    /// Never: no format is handled.
    fn supports(&self, ext: &str) -> (r: bool)
        ensures
            !r,
    {
        false
    }

    /// This decoder never has a preview.
    fn embedded_preview(&self, path: &str) -> (r: Result<Option<Vec<u8>>, crate::error::Error>)
        ensures
            r matches Ok(p) && p is None,
    {
        Ok(None)
    }
}

/// The prefix of a JPEG data URI.
pub open spec fn jpeg_uri_prefix() -> Seq<char> {
    "data:image/jpeg;base64,"@
}

/// The blur-up placeholder as the web grid embeds it: a JPEG data URI, the
/// bytes in standard padded base64.
pub fn lqip_data_uri(jpeg: &[u8]) -> (r: String)
    requires
        base64_len(jpeg@.len(), true) <= usize::MAX,
    ensures
        r@ == jpeg_uri_prefix() + base64_text(jpeg@, false, true),
{
    let mut out = chars_of("data:image/jpeg;base64,");
    let b = base64_standard(jpeg);
    extend(&mut out, &chars_of(b.as_str()));
    string_of(&out)
}


/// Classification is blind to the case of the extension: two paths whose
/// extensions lowercase alike are classified alike — `DSC_0001.NEF` as
/// `dsc_0001.nef`, `MVI_0001.MOV` as `mvi_0001.mov`.
pub proof fn lemma_classify_ignores_case(p: Seq<char>, q: Seq<char>, e1: Seq<char>, e2: Seq<char>)
    requires
        extension(p) == Some(e1),
        extension(q) == Some(e2),
        lowercase(e1) == lowercase(e2),
    ensures
        classified(p) == classified(q),
{
}

/// A path is classified by the kind its lowercased extension is listed
/// under, and a path with no extension is not imported at all.
pub proof fn lemma_classify_by_lowercased_extension(p: Seq<char>)
    ensures
        extension(p) is None ==> classified(p) is None,
        extension(p) matches Some(e) ==> classified(p) == kind_for_extension(lowercase(e)),
        (extension(p) matches Some(e) && str_views(RAW_EXTENSIONS@).contains(lowercase(e))
            && !str_views(IMAGE_EXTENSIONS@).contains(lowercase(e))) ==> classified(p) == Some(PhotoKind::Raw),
        (extension(p) matches Some(e) && str_views(VIDEO_EXTENSIONS@).contains(lowercase(e))
            && !str_views(IMAGE_EXTENSIONS@).contains(lowercase(e))
            && !str_views(RAW_EXTENSIONS@).contains(lowercase(e))) ==> classified(p) == Some(PhotoKind::Video),
        (extension(p) matches Some(e) && str_views(IMAGE_EXTENSIONS@).contains(lowercase(e))) ==> classified(p)
            == Some(PhotoKind::Photo),
{
}

} // verus!
