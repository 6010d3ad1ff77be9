//! Domain types shared across the core and exposed to the shell.

use vstd::prelude::*;

use crate::text::{chars_of, extend, is, last_index_of, lemma_rfind, rfind, string_of, trim, trimmed};

verus! {

/// What kind of media a catalog entry is.
///
/// Decided from the file extension alone (see `media::classify`), at import
/// time — nothing sniffs the bytes.
#[derive(Debug, Clone, Copy, PartialEq, Eq, Structural)]
pub enum PhotoKind {
    /// A still the built-in decoder can open end to end.
    Photo,
    /// A camera negative: catalogued, previewed where a decoder allows, never
    /// developed or published.
    Raw,
    /// A clip, carried through albums and publish as a file.
    Video,
}

/// The string stored in the catalog's `kind` column for each kind.
pub open spec fn kind_name(k: PhotoKind) -> Seq<char> {
    match k {
        PhotoKind::Photo => "photo"@,
        PhotoKind::Raw => "raw"@,
        PhotoKind::Video => "video"@,
    }
}

/// The kind a stored string names; anything unknown reads as `Photo`.
pub open spec fn kind_of(s: Seq<char>) -> PhotoKind {
    if s == "raw"@ {
        PhotoKind::Raw
    } else if s == "video"@ {
        PhotoKind::Video
    } else {
        PhotoKind::Photo
    }
}

impl PhotoKind {
    /// The lowercase string stored in the catalog and sent to the shell.
    /// These strings live in catalogs on disk, so they are written out.
    pub fn as_str(self) -> (r: &'static str)
        ensures
            r@ == kind_name(self),
    {
        match self {
            PhotoKind::Photo => "photo",
            PhotoKind::Raw => "raw",
            PhotoKind::Video => "video",
        }
    }

    /// Parse from the stored string form (infallible; unknown values fall back
    /// to `Photo`).
    pub fn parse(s: &str) -> (r: Self)
        ensures
            r == kind_of(s@),
    {
        let v = chars_of(s);
        if is(&v, "raw") {
            PhotoKind::Raw
        } else if is(&v, "video") {
            PhotoKind::Video
        } else {
            PhotoKind::Photo
        }
    }
}

/// Every kind reads back as itself from the string it is stored as.
pub proof fn lemma_kind_round_trip(k: PhotoKind)
    ensures
        kind_of(kind_name(k)) == k,
{
    reveal_strlit("photo");
    reveal_strlit("raw");
    reveal_strlit("video");
    assert("photo"@ != "raw"@ && "photo"@ != "video"@ && "raw"@ != "video"@) by {
        assert("photo"@.len() != "raw"@.len());
        assert("photo"@[0] != "video"@[0]);
        assert("raw"@.len() != "video"@.len());
    }
}

/// Pick / reject flag, the triage primitive. A flag never destroys anything;
/// publishing skips rejected photos by default.
#[derive(Debug, Clone, Copy, PartialEq, Eq, Structural)]
pub enum Flag {
    /// Not yet triaged — stored as `"none"`.
    Unflagged,
    Pick,
    Reject,
}

/// The string stored in the catalog's `flag` column for each flag.
pub open spec fn flag_name(f: Flag) -> Seq<char> {
    match f {
        Flag::Unflagged => "none"@,
        Flag::Pick => "pick"@,
        Flag::Reject => "reject"@,
    }
}

/// The flag a stored string names; anything unknown reads as `Unflagged`.
pub open spec fn flag_of(s: Seq<char>) -> Flag {
    if s == "pick"@ {
        Flag::Pick
    } else if s == "reject"@ {
        Flag::Reject
    } else {
        Flag::Unflagged
    }
}

impl Flag {
    /// The lowercase string stored in the catalog's `flag` column.
    pub fn as_str(self) -> (r: &'static str)
        ensures
            r@ == flag_name(self),
    {
        match self {
            Flag::Unflagged => "none",
            Flag::Pick => "pick",
            Flag::Reject => "reject",
        }
    }

    /// Parse from the stored string form (infallible; unknown values fall back
    /// to `Unflagged`).
    pub fn parse(s: &str) -> (r: Self)
        ensures
            r == flag_of(s@),
    {
        let v = chars_of(s);
        if is(&v, "pick") {
            Flag::Pick
        } else if is(&v, "reject") {
            Flag::Reject
        } else {
            Flag::Unflagged
        }
    }
}

/// Every flag reads back as itself from the string it is stored as.
pub proof fn lemma_flag_round_trip(f: Flag)
    ensures
        flag_of(flag_name(f)) == f,
{
    reveal_strlit("none");
    reveal_strlit("pick");
    reveal_strlit("reject");
    assert("none"@ != "pick"@ && "none"@ != "reject"@ && "pick"@ != "reject"@) by {
        assert("none"@[0] != "pick"@[0]);
        assert("none"@.len() != "reject"@.len());
        assert("pick"@.len() != "reject"@.len());
    }
}

/// Grid ordering, as the sort dropdown offers it. Every variant breaks its own
/// ties on filename ascending.
#[derive(Debug, Clone, Copy, PartialEq, Eq, Structural)]
pub enum PhotoSort {
    /// Oldest first, undated frames last — the default.
    CapturedAsc,
    /// Newest first, undated frames still last.
    CapturedDesc,
    NameAsc,
    NameDesc,
    /// Five stars first.
    RatingDesc,
    /// Position within an album; only meaningful with an album path set.
    AlbumOrder,
}

impl Default for PhotoSort {
    fn default() -> (r: Self)
        ensures
            r == PhotoSort::CapturedAsc,
    {
        PhotoSort::CapturedAsc
    }
}

/// Query filter for the photo grid. All conditions are ANDed; `None` means
/// "don't constrain on this".
#[derive(Debug, Clone)]
pub struct PhotoFilter {
    /// Minimum star rating (inclusive).
    pub min_rating: Option<u8>,
    /// Exact flag match, `Flag::Unflagged` included.
    pub flag: Option<Flag>,
    /// Exact colour label, case included.
    pub color_label: Option<String>,
    pub kind: Option<PhotoKind>,
    /// Exact camera model.
    pub camera_model: Option<String>,
    /// Free text over filename and camera: case-insensitive substring, every
    /// character taken as itself.
    pub text: Option<String>,
    /// Restrict to direct members of this album path.
    pub album_path: Option<String>,
    /// Restrict to photos carrying this tag, exactly as stored.
    pub tag: Option<String>,
    /// ISO date lower bound on the capture time (inclusive).
    pub captured_from: Option<String>,
    /// ISO date upper bound, widened to the end of that day.
    pub captured_to: Option<String>,
    /// Row cap; `None` returns everything.
    pub limit: Option<u32>,
    /// Rows to skip — ignored unless `limit` is also set.
    pub offset: Option<u32>,
    /// Defaulted: omitting a sort means the usual one.
    pub sort: PhotoSort,
}

impl Default for PhotoFilter {
    fn default() -> (r: Self)
        ensures
            r.min_rating is None,
            r.flag is None,
            r.color_label is None,
            r.kind is None,
            r.camera_model is None,
            r.text is None,
            r.album_path is None,
            r.tag is None,
            r.captured_from is None,
            r.captured_to is None,
            r.limit is None,
            r.offset is None,
            r.sort == PhotoSort::CapturedAsc,
    {
        PhotoFilter {
            min_rating: None,
            flag: None,
            color_label: None,
            kind: None,
            camera_model: None,
            text: None,
            album_path: None,
            tag: None,
            captured_from: None,
            captured_to: None,
            limit: None,
            offset: None,
            sort: PhotoSort::CapturedAsc,
        }
    }
}

/// Album settings — mirrors the frontmatter schema the gallery reads.
#[derive(Debug, Clone)]
pub struct Album {
    pub id: i64,
    /// e.g. "2026/weddings/ana-ivan" — the identity of the album and its
    /// folder on disk.
    pub path: String,
    /// `path` minus its last segment; `None` for a top-level album.
    pub parent_path: Option<String>,
    /// Display name, published as `title`.
    pub title: String,
    pub description: Option<String>,
    /// ISO date (yyyy-mm-dd) of the shoot.
    pub date: Option<String>,
    /// Internal id stored in the site's access cookie. Grants nothing alone.
    pub token: String,
    /// Plaintext, published as plaintext — the gallery's own scheme.
    pub password: Option<String>,
    /// Random secret enabling the "secret link" access mode.
    pub share_token: Option<String>,
    /// Photo order the site applies, e.g. `"date-desc"` or `"custom"`.
    pub sort: String,
    /// Layout the site renders, e.g. `"single-column"`.
    pub style: String,
    /// Cover photo's filename.
    pub cover_filename: Option<String>,
    /// A folder of albums rather than a folder of photos.
    pub is_collection: bool,
    /// Kept out of listings; still reachable by URL.
    pub hidden: bool,
    /// Offer the ZIP download of the whole album.
    pub allow_download: bool,
    /// Client proofing.
    pub proofing: bool,
    /// Manual position among siblings, published as `order`.
    pub sort_order: Option<i64>,
    /// Album tags.
    pub tags: Vec<String>,
    /// Markdown prose, published beside the frontmatter as `body.md`.
    pub body: Option<String>,
}

/// The last `/`-separated segment of a path — the whole path when it has no
/// separator.
pub open spec fn last_segment(p: Seq<char>) -> Seq<char> {
    match rfind(p, '/') {
        Some(i) => p.skip(i + 1),
        None => p,
    }
}

impl Album {
    /// An album is "locked" when it has a password and/or a share token —
    /// the same rule the web gallery applies.
    pub fn is_locked(&self) -> (r: bool)
        ensures
            r == (self.password is Some || self.share_token is Some),
    {
        self.password.is_some() || self.share_token.is_some()
    }

    /// Last path segment, used as the folder name.
    pub fn slug(&self) -> (r: &str)
        ensures
            r@ == last_segment(self.path@),
    {
        let v = chars_of(self.path.as_str());
        let n = v.len();
        match last_index_of(&v, '/') {
            Some(i) => {
                proof {
                    lemma_rfind(v@, '/');
                }
                let r = self.path.as_str().substring_char(i + 1, n);
                assert(r@ =~= self.path@.skip(i + 1));
                r
            },
            None => self.path.as_str(),
        }
    }
}

/// Camera make and model as one display string — the make, a space, the
/// model, each only when known — trimmed, and absent when nothing is left.
pub open spec fn camera_text(make: Option<Seq<char>>, model: Option<Seq<char>>) -> Option<Seq<char>> {
    let combined = match (make, model) {
        (Some(a), Some(b)) => a + seq![' '] + b,
        (Some(a), None) => a,
        (None, Some(b)) => b,
        (None, None) => Seq::<char>::empty(),
    };
    if trim(combined).len() > 0 {
        Some(trim(combined))
    } else {
        None
    }
}

/// Camera make + model as one display string, matching what the web
/// gallery's search indexes.
pub fn camera_label(make: Option<&str>, model: Option<&str>) -> (r: Option<String>)
    ensures
        match r {
            Some(s) => camera_text(opt_chars(make), opt_chars(model)) == Some(s@),
            None => camera_text(opt_chars(make), opt_chars(model)) is None,
        },
{
    let mut combined: Vec<char> = Vec::new();
    match (make, model) {
        (Some(a), Some(b)) => {
            extend(&mut combined, &chars_of(a));
            combined.push(' ');
            extend(&mut combined, &chars_of(b));
            assert(combined@ =~= a@ + seq![' '] + b@);
        },
        (Some(a), None) => {
            extend(&mut combined, &chars_of(a));
            assert(combined@ =~= a@);
        },
        (None, Some(b)) => {
            extend(&mut combined, &chars_of(b));
            assert(combined@ =~= b@);
        },
        (None, None) => {
            assert(combined@ =~= Seq::<char>::empty());
        },
    }
    let t = trimmed(&combined);
    if t.len() > 0 {
        Some(string_of(&t))
    } else {
        None
    }
}

/// The characters of an optional string slice.
pub open spec fn opt_chars(o: Option<&str>) -> Option<Seq<char>> {
    match o {
        Some(s) => Some(s@),
        None => None,
    }
}

/// Progress callback payload for long-running imports.
#[derive(Debug, Clone)]
pub struct ImportProgress {
    pub processed: usize,
    /// Files in this pass.
    pub total: usize,
    /// The file this tick is about. For display only.
    pub current: String,
}

/// Summary returned by an import run. The counts overlap: only `imported`,
/// `updated`, `skipped` and `failed` are disjoint.
#[derive(Debug, Clone, Default)]
pub struct ImportSummary {
    /// New catalog rows.
    pub imported: usize,
    /// Files already in the catalog with the same content hash.
    pub duplicates: usize,
    /// Files whose content changed since last import.
    pub updated: usize,
    /// Unchanged since the last run.
    pub skipped: usize,
    /// `(library-relative path, message)` for each file that failed.
    pub failed: Vec<(String, String)>,
    /// Files copied into the library because they came from outside it.
    pub copied_in: usize,
    /// Where those copies landed, relative to the library root.
    pub copied_into: Option<String>,
    /// Catalogued, but no decoder could read the pixels.
    pub undecodable: Vec<String>,
    /// The run stopped on request before reaching the end.
    pub cancelled: bool,
}

} // verus!
