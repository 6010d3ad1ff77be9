//! Album tree paths, titles and ordering.
//!
//! Albums mirror the folder structure the web gallery publishes:
//! `2026/weddings/ana-ivan`. The path is the identity: the published folder,
//! the URL a client was sent and the sync subscription all name an album by
//! it.

use vstd::prelude::*;

use crate::encoding::{
    base64_text, base64_url_safe, hex_of, hex_text, is_lower_hex, is_url_safe, lemma_base64_url,
    lemma_hex_text, random_bytes,
};
use crate::error::Error;
use crate::model::{last_segment, Album};
use crate::order::{
    compare_text, int_order, is_order, lemma_lex_total, lemma_text_order, lex, text_order,
};
use crate::text::{
    chars_of, contains, extend, is, same, starts_with, join, join_with, lemma_rfind, lemma_split_len, last_index_of,
    lowercase, lowercased, rsplit_once, slice_of, split, split_on, string_of, trim, trimmed,
    uppercase, uppercased, views,
};

verus! {

/// Fields settable when creating an album. Everything else takes a default.
#[derive(Debug, Clone, Default)]
pub struct NewAlbum {
    /// Slash-separated, run through [`normalize_path`] before use.
    pub path: String,
    /// Absent or blank derives one from the last path segment.
    pub title: Option<String>,
    pub description: Option<String>,
    /// The shoot date shown in the gallery, as free text.
    pub date: Option<String>,
    /// A folder of albums rather than an album of photographs.
    pub is_collection: bool,
}

/// Partial update. `None` leaves a field untouched; `Some(None)` clears it.
/// A partial form can therefore never wipe a field it doesn't know about.
#[derive(Debug, Clone, Default)]
pub struct AlbumUpdate {
    pub title: Option<String>,
    /// Internal album id — only set when adopting an album from another
    /// machine, so that the access cookie keeps working.
    pub token: Option<String>,
    pub description: Option<Option<String>>,
    pub date: Option<Option<String>>,
    /// The gallery's password, stored and published in plain text.
    pub password: Option<Option<String>>,
    /// The secret in a share link.
    pub share_token: Option<Option<String>>,
    /// How the gallery orders the photos.
    pub sort: Option<String>,
    /// The gallery layout.
    pub style: Option<String>,
    /// The cover photo, by catalog id.
    pub cover_photo_id: Option<Option<i64>>,
    pub is_collection: Option<bool>,
    pub hidden: Option<bool>,
    pub allow_download: Option<bool>,
    pub proofing: Option<bool>,
    /// Rank among siblings, published as the gallery's `order`.
    pub sort_order: Option<Option<i64>>,
    /// Prose shown under the album; clearing it deletes `body.md`.
    pub body: Option<Option<String>>,
    /// The album's complete tag set, not additions.
    pub tags: Option<Vec<String>>,
}

// ------------------------------------------------------------- normalise

/// The kept, lowercased segments of a path, or `None` when one of them is
/// refused: each segment is trimmed; empty and `.` segments are dropped;
/// `..` or a NUL refuses the whole path.
pub open spec fn norm_parts(segs: Seq<Seq<char>>) -> Option<Seq<Seq<char>>>
    decreases segs.len(),
{
    if segs.len() == 0 {
        Some(Seq::<Seq<char>>::empty())
    } else {
        match norm_parts(segs.drop_last()) {
            None => None,
            Some(kept) => {
                let t = trim(segs.last());
                if t.len() == 0 || t == seq!['.'] {
                    Some(kept)
                } else if t == seq!['.', '.'] || t.contains('\0') {
                    None
                } else {
                    Some(kept.push(lowercase(t)))
                }
            },
        }
    }
}

/// A normalised album path: the kept segments joined with `/`, or `None` when
/// a segment is refused or nothing is left.
pub open spec fn normalized(input: Seq<char>) -> Option<Seq<char>> {
    match norm_parts(split(input, '/')) {
        None => None,
        Some(kept) => if kept.len() == 0 {
            None
        } else {
            Some(join(kept, seq!['/']))
        },
    }
}

proof fn lemma_norm_none_extends(segs: Seq<Seq<char>>, i: int)
    requires
        0 <= i <= segs.len(),
        norm_parts(segs.take(i)) is None,
    ensures
        norm_parts(segs) is None,
    decreases segs.len() - i,
{
    if i < segs.len() {
        assert(segs.take(i + 1).drop_last() =~= segs.take(i));
        lemma_norm_none_extends(segs, i + 1);
    } else {
        assert(segs.take(i) =~= segs);
    }
}

/// Whether a segment is already in the form [`normalize_path`] keeps: not
/// blank, trimmed, in lower case, and neither `.`, `..` nor holding a NUL.
pub open spec fn normal_segment(t: Seq<char>) -> bool {
    &&& t.len() > 0
    &&& trim(t) == t
    &&& lowercase(t) == t
    &&& t != seq!['.']
    &&& t != seq!['.', '.']
    &&& !t.contains('\0')
}

proof fn lemma_norm_keeps_normal(segs: Seq<Seq<char>>)
    requires
        forall|n: int| 0 <= n < segs.len() ==> normal_segment(#[trigger] segs[n]),
    ensures
        norm_parts(segs) == Some(segs),
    decreases segs.len(),
{
    if segs.len() > 0 {
        let d = segs.drop_last();
        assert forall|n: int| 0 <= n < d.len() implies normal_segment(#[trigger] d[n]) by {
            assert(d[n] == segs[n]);
        }
        lemma_norm_keeps_normal(d);
        assert(normal_segment(segs[segs.len() - 1]));
        assert(d.push(segs.last()) =~= segs);
    }
}

/// A path already in normal form comes back unchanged: normalising is the
/// identity on the paths it produces from well-formed segments.
pub proof fn lemma_normal_path_unchanged(p: Seq<char>)
    requires
        forall|n: int| 0 <= n < split(p, '/').len() ==> normal_segment(#[trigger] split(p, '/')[n]),
    ensures
        normalized(p) == Some(p),
{
    lemma_norm_keeps_normal(split(p, '/'));
    lemma_split_len(p, '/');
    crate::text::lemma_join_split(p, '/');
}

/// Normalising what normalising gave changes nothing, wherever lower-casing
/// leaves each kept segment as it found it — in normal form, and without a
/// `/` of its own. (Case mapping is Unicode's; the segments it produces are
/// the only thing this rests on.)
pub proof fn lemma_normalize_fixed_point(input: Seq<char>)
    requires
        norm_parts(split(input, '/')) matches Some(kept) && forall|i: int|
            0 <= i < kept.len() ==> normal_segment(#[trigger] kept[i]) && !kept[i].contains('/'),
    ensures
        normalized(input) matches Some(p) ==> normalized(p) == Some(p),
{
    if let Some(kept) = norm_parts(split(input, '/')) {
        if kept.len() > 0 {
            let p = join(kept, seq!['/']);
            assert forall|i: int| 0 <= i < kept.len() implies !(#[trigger] kept[i]).contains('/') by {}
            crate::text::lemma_split_of_join(kept, '/');
            lemma_normal_path_unchanged(p);
        }
    }
}

/// Normalise a user-supplied album path: lowercase, no leading/trailing
/// slashes, no traversal. Matches the web side's folder rules.
pub fn normalize_path(input: &str) -> (r: Result<String, Error>)
    ensures
        match r {
            Ok(p) => normalized(input@) == Some(p@),
            Err(e) => normalized(input@) is None && (e matches Error::InvalidPath(m) && m@
                == input@),
        },
{
    let v = chars_of(input);
    let segs = split_on(&v, '/');
    let mut kept: Vec<Vec<char>> = Vec::new();
    let mut i: usize = 0;
    assert(views(segs@).take(0) =~= Seq::<Seq<char>>::empty());
    assert(views(kept@) =~= Seq::<Seq<char>>::empty());
    while i < segs.len()
        invariant
            i <= segs@.len(),
            views(segs@) == split(v@, '/'),
            v@ == input@,
            norm_parts(views(segs@).take(i as int)) == Some(views(kept@)),
        decreases segs@.len() - i,
    {
        let t = trimmed(&segs[i]);
        proof {
            assert(views(segs@).take(i + 1).drop_last() =~= views(segs@).take(i as int));
            assert(views(segs@).take(i + 1).last() == segs@[i as int]@);
        }
        if t.len() == 0 || is(&t, ".") {
            proof {
                reveal_strlit(".");
                assert(t@ == seq!['.'] || t@.len() == 0);
            }
        } else if is(&t, "..") || contains(&t, '\0') {
            proof {
                reveal_strlit("..");
                reveal_strlit(".");
                if t@ == ".."@ {
                    assert(t@ =~= seq!['.', '.']);
                }
                assert(t@ != seq!['.']) by {
                    if t@ == seq!['.'] {
                        assert(t@ == "."@);
                    }
                }
                lemma_norm_none_extends(views(segs@), i + 1);
            }
            return Err(Error::InvalidPath(string_of(&v)));
        } else {
            proof {
                reveal_strlit("..");
                reveal_strlit(".");
                assert(t@ != seq!['.']) by {
                    if t@ == seq!['.'] {
                        assert(t@ =~= "."@);
                    }
                }
                assert(t@ != seq!['.', '.']) by {
                    if t@ == seq!['.', '.'] {
                        assert(t@ =~= ".."@);
                    }
                }
            }
            let low = lowercased(&t);
            let ghost before = kept@;
            kept.push(low);
            proof {
                assert(views(kept@) =~= views(before).push(lowercase(t@)));
            }
        }
        i = i + 1;
    }
    proof {
        assert(views(segs@).take(segs@.len() as int) =~= views(segs@));
    }
    if kept.len() == 0 {
        return Err(Error::InvalidPath(string_of(&v)));
    }
    let mut slash: Vec<char> = Vec::new();
    slash.push('/');
    assert(slash@ =~= seq!['/']);
    let joined = join_with(&kept, &slash);
    Ok(string_of(&joined))
}

/// The path above `p`, or `None` at the top level.
pub open spec fn parent_path_of(p: Seq<char>) -> Option<Seq<char>> {
    match rsplit_once(p, '/') {
        Some((before, _)) => Some(before),
        None => None,
    }
}

/// `path` minus its last segment; `None` for a top-level path.
pub fn parent_of(path: &str) -> (r: Option<String>)
    ensures
        match r {
            Some(p) => parent_path_of(path@) == Some(p@),
            None => parent_path_of(path@) is None,
        },
{
    let v = chars_of(path);
    match last_index_of(&v, '/') {
        Some(i) => {
            proof {
                lemma_rfind(v@, '/');
            }
            let before = slice_of(&v, 0, i);
            assert(before@ =~= v@.take(i as int));
            Some(string_of(&before))
        },
        None => None,
    }
}

/// Dashes and underscores read as spaces.
pub open spec fn spaced(s: Seq<char>) -> Seq<char> {
    s.map_values(
        |c: char|
            if c == '-' || c == '_' {
                ' '
            } else {
                c
            },
    )
}

/// A title derived from a path: its last segment, dashes and underscores as
/// spaces, the first character uppercased.
pub open spec fn title_for(p: Seq<char>) -> Seq<char> {
    let cleaned = spaced(last_segment(p));
    if cleaned.len() == 0 {
        cleaned
    } else {
        uppercase(cleaned[0]) + cleaned.drop_first()
    }
}

/// The placeholder title an album gets when created without one:
/// `ana-i-ivan` → "Ana i ivan".
pub fn title_from_path(path: &str) -> (r: String)
    ensures
        r@ == title_for(path@),
{
    let v = chars_of(path);
    let n = v.len();
    let start: usize = match last_index_of(&v, '/') {
        Some(i) => {
            proof {
                lemma_rfind(v@, '/');
                assert(i < n);
            }
            i + 1
        },
        None => 0,
    };
    let ghost slug = last_segment(v@);
    assert(slug =~= v@.skip(start as int));
    let mut cleaned: Vec<char> = Vec::new();
    let mut k: usize = start;
    while k < v.len()
        invariant
            start <= k <= v@.len(),
            slug == v@.skip(start as int),
            cleaned@ =~= spaced(slug.take(k - start)),
        decreases v@.len() - k,
    {
        let c = v[k];
        let d = if c == '-' || c == '_' {
            ' '
        } else {
            c
        };
        cleaned.push(d);
        proof {
            assert(slug.take(k + 1 - start) =~= slug.take(k - start).push(c));
            assert(spaced(slug.take(k + 1 - start)) =~= spaced(slug.take(k - start)).push(d));
        }
        k = k + 1;
    }
    assert(slug.take(v@.len() - start) =~= slug);
    if cleaned.len() == 0 {
        return string_of(&cleaned);
    }
    let mut out = uppercased(cleaned[0]);
    let rest = slice_of(&cleaned, 1, cleaned.len());
    crate::text::extend(&mut out, &rest);
    proof {
        assert(rest@ =~= cleaned@.drop_first());
    }
    string_of(&out)
}


// ------------------------------------------------------------------ order

/// One level of an album's place in the tree: the sibling order (albums
/// without a manual position last), the lowercased title, the lowercased
/// path segment.
pub type TreeEntry = (i64, Seq<char>, Seq<char>);

/// Where an album sorts: its tree key, then its path.
pub type Place = (Seq<TreeEntry>, Seq<char>);

/// Two entries compared field by field, as tuples compare.
pub open spec fn entry_order(x: TreeEntry, y: TreeEntry) -> int {
    if x.0 != y.0 {
        int_order(x.0 as int, y.0 as int)
    } else if text_order(x.1, y.1) != 0 {
        text_order(x.1, y.1)
    } else {
        text_order(x.2, y.2)
    }
}

/// Two tree keys compared lexicographically, a parent's key (a proper
/// prefix) before its children's.
pub open spec fn key_lex(a: Seq<TreeEntry>, b: Seq<TreeEntry>) -> int {
    lex(a, b, |x: TreeEntry, y: TreeEntry| entry_order(x, y))
}

/// An album's place: its tree key, then its path.
pub open spec fn place_order(x: (Seq<TreeEntry>, Seq<char>), y: (Seq<TreeEntry>, Seq<char>)) -> int {
    if key_lex(x.0, y.0) != 0 {
        key_lex(x.0, y.0)
    } else {
        text_order(x.1, y.1)
    }
}

/// The last album in `all` at `path` — the one a map collected from `all`
/// keeps.
pub open spec fn last_at(all: Seq<Album>, path: Seq<char>) -> Option<Album>
    decreases all.len(),
{
    if all.len() == 0 {
        None
    } else if all.last().path@ == path {
        Some(all.last())
    } else {
        last_at(all.drop_last(), path)
    }
}

/// The sibling key of the album at `prefix`: its manual position (unset sorts
/// last) and lowercased title; a gap in the chain — a folder with no album of
/// its own — sorts last, under its own segment.
pub open spec fn sibling_key(all: Seq<Album>, prefix: Seq<char>, segment: Seq<char>) -> (i64, Seq<char>) {
    match last_at(all, prefix) {
        Some(a) => (
            match a.sort_order {
                Some(o) => o,
                None => i64::MAX,
            },
            lowercase(a.title@),
        ),
        None => (i64::MAX, lowercase(segment)),
    }
}

/// `segment` appended to a path, with a separator unless the path is empty.
pub open spec fn grow(prefix: Seq<char>, segment: Seq<char>) -> Seq<char> {
    if prefix.len() == 0 {
        segment
    } else {
        prefix + seq!['/'] + segment
    }
}

/// The path the segments spell, built one segment at a time.
pub open spec fn prefix_of(segs: Seq<Seq<char>>) -> Seq<char>
    decreases segs.len(),
{
    if segs.len() == 0 {
        Seq::<char>::empty()
    } else {
        grow(prefix_of(segs.drop_last()), segs.last())
    }
}

/// The tree key of a path given as segments: one entry per ancestor, then its
/// own.
pub open spec fn tree_key(all: Seq<Album>, segs: Seq<Seq<char>>) -> Seq<TreeEntry>
    decreases segs.len(),
{
    if segs.len() == 0 {
        Seq::<TreeEntry>::empty()
    } else {
        let k = sibling_key(all, prefix_of(segs), segs.last());
        tree_key(all, segs.drop_last()).push((k.0, k.1, lowercase(segs.last())))
    }
}

/// Where an album of `all` sorts: its tree key and its path.
pub open spec fn tree_place(all: Seq<Album>, a: Album) -> (Seq<TreeEntry>, Seq<char>) {
    (tree_key(all, split(a.path@, '/')), a.path@)
}

/// Whether an album is at path `p`.
pub open spec fn path_is(p: Seq<char>) -> spec_fn(Album) -> bool {
    |a: Album| a.path@ == p
}

/// The albums of `s` at path `p`, in order.
pub open spec fn at_path(s: Seq<Album>, p: Seq<char>) -> Seq<Album> {
    s.filter(path_is(p))
}

proof fn lemma_at_path_push(s: Seq<Album>, x: Album, p: Seq<char>)
    ensures
        at_path(s.push(x), p) == if x.path@ == p {
            at_path(s, p).push(x)
        } else {
            at_path(s, p)
        },
{
    s.lemma_filter_push(x, path_is(p));
}

proof fn lemma_at_path_add(a: Seq<Album>, b: Seq<Album>, p: Seq<char>)
    ensures
        at_path(a + b, p) == at_path(a, p) + at_path(b, p),
{
    Seq::filter_distributes_over_add(a, b, path_is(p));
}

proof fn lemma_at_path_none(s: Seq<Album>, p: Seq<char>)
    requires
        forall|k: int| 0 <= k < s.len() ==> (#[trigger] s[k]).path@ != p,
    ensures
        at_path(s, p) == Seq::<Album>::empty(),
    decreases s.len(),
{
    if s.len() > 0 {
        let d = s.drop_last();
        assert forall|k: int| 0 <= k < d.len() implies (#[trigger] d[k]).path@ != p by {
            assert(d[k] == s[k]);
        }
        lemma_at_path_none(d, p);
        lemma_at_path_push(d, s.last(), p);
        assert(d.push(s.last()) =~= s);
    } else {
        assert(s =~= Seq::<Album>::empty());
        Seq::<Album>::empty().lemma_filter_len(path_is(p));
    }
}

/// Entry order is a strict total order.
pub proof fn lemma_entry_order()
    ensures
        is_order(|x: TreeEntry, y: TreeEntry| entry_order(x, y)),
{
    lemma_text_order();
    let t = |a: Seq<char>, b: Seq<char>| text_order(a, b);
    assert forall|x: TreeEntry, y: TreeEntry| -1 <= #[trigger] entry_order(x, y) <= 1 by {
        assert(-1 <= t(x.1, y.1) <= 1);
        assert(-1 <= t(x.2, y.2) <= 1);
    }
    assert forall|x: TreeEntry, y: TreeEntry| (#[trigger] entry_order(x, y) == 0) == (x == y) by {
        assert((t(x.1, y.1) == 0) == (x.1 == y.1));
        assert((t(x.2, y.2) == 0) == (x.2 == y.2));
    }
    assert forall|x: TreeEntry, y: TreeEntry| #[trigger] entry_order(y, x) == -entry_order(x, y) by {
        assert(t(y.1, x.1) == -t(x.1, y.1));
        assert(t(y.2, x.2) == -t(x.2, y.2));
    }
    assert forall|x: TreeEntry, y: TreeEntry, z: TreeEntry|
        #[trigger] entry_order(x, y) < 0 && #[trigger] entry_order(y, z) < 0 implies entry_order(
        x,
        z,
    ) < 0 by {
        assert((t(x.1, y.1) == 0) == (x.1 == y.1));
        assert((t(y.1, z.1) == 0) == (y.1 == z.1));
        assert(t(x.1, y.1) < 0 && t(y.1, z.1) < 0 ==> t(x.1, z.1) < 0);
        assert(t(x.2, y.2) < 0 && t(y.2, z.2) < 0 ==> t(x.2, z.2) < 0);
    }
}

/// Tree-key order is a strict total order.
pub proof fn lemma_key_lex()
    ensures
        is_order(|a: Seq<TreeEntry>, b: Seq<TreeEntry>| key_lex(a, b)),
{
    lemma_entry_order();
    lemma_lex_total(|x: TreeEntry, y: TreeEntry| entry_order(x, y));
    let l = |a: Seq<TreeEntry>, b: Seq<TreeEntry>| lex(a, b, |x: TreeEntry, y: TreeEntry| entry_order(x, y));
    let k = |a: Seq<TreeEntry>, b: Seq<TreeEntry>| key_lex(a, b);
    assert(k =~= l);
}

/// Place order is a strict total order.
pub proof fn lemma_place_order()
    ensures
        is_order(|x: Place, y: Place| place_order(x, y)),
{
    lemma_key_lex();
    lemma_text_order();
    let k = |a: Seq<TreeEntry>, b: Seq<TreeEntry>| key_lex(a, b);
    let t = |a: Seq<char>, b: Seq<char>| text_order(a, b);
    assert forall|x: Place, y: Place| -1 <= #[trigger] place_order(x, y) <= 1 by {
        assert(-1 <= k(x.0, y.0) <= 1);
        assert(-1 <= t(x.1, y.1) <= 1);
    }
    assert forall|x: Place, y: Place| (#[trigger] place_order(x, y) == 0) == (x == y) by {
        assert((k(x.0, y.0) == 0) == (x.0 == y.0));
        assert((t(x.1, y.1) == 0) == (x.1 == y.1));
    }
    assert forall|x: Place, y: Place| #[trigger] place_order(y, x) == -place_order(x, y) by {
        assert(k(y.0, x.0) == -k(x.0, y.0));
        assert(t(y.1, x.1) == -t(x.1, y.1));
    }
    assert forall|x: Place, y: Place, z: Place|
        #[trigger] place_order(x, y) < 0 && #[trigger] place_order(y, z) < 0 implies place_order(
        x,
        z,
    ) < 0 by {
        assert((k(x.0, y.0) == 0) == (x.0 == y.0));
        assert((k(y.0, z.0) == 0) == (y.0 == z.0));
        assert(k(x.0, y.0) < 0 && k(y.0, z.0) < 0 ==> k(x.0, z.0) < 0);
        assert(t(x.1, y.1) < 0 && t(y.1, z.1) < 0 ==> t(x.1, z.1) < 0);
    }
}

/// The characters of each entry.
pub open spec fn entries_view(v: Seq<(i64, Vec<char>, Vec<char>)>) -> Seq<TreeEntry> {
    v.map_values(|e: (i64, Vec<char>, Vec<char>)| (e.0, e.1@, e.2@))
}

fn compare_entry(x: &(i64, Vec<char>, Vec<char>), y: &(i64, Vec<char>, Vec<char>)) -> (r: i8)
    ensures
        r as int == entry_order((x.0, x.1@, x.2@), (y.0, y.1@, y.2@)),
{
    if x.0 < y.0 {
        return -1;
    }
    if x.0 > y.0 {
        return 1;
    }
    let t = compare_text(&x.1, &y.1);
    if t != 0 {
        return t;
    }
    compare_text(&x.2, &y.2)
}

fn compare_key(a: &Vec<(i64, Vec<char>, Vec<char>)>, b: &Vec<(i64, Vec<char>, Vec<char>)>) -> (r: i8)
    ensures
        r as int == key_lex(entries_view(a@), entries_view(b@)),
{
    let ghost ea = entries_view(a@);
    let ghost eb = entries_view(b@);
    let mut i: usize = 0;
    assert(ea.skip(0) =~= ea);
    assert(eb.skip(0) =~= eb);
    while i < a.len() && i < b.len()
        invariant
            i <= a@.len(),
            i <= b@.len(),
            ea == entries_view(a@),
            eb == entries_view(b@),
            key_lex(ea, eb) == key_lex(ea.skip(i as int), eb.skip(i as int)),
        decreases a@.len() - i,
    {
        let c = compare_entry(&a[i], &b[i]);
        proof {
            assert(ea.skip(i as int)[0] == (a@[i as int].0, a@[i as int].1@, a@[i as int].2@));
            assert(eb.skip(i as int)[0] == (b@[i as int].0, b@[i as int].1@, b@[i as int].2@));
            assert(ea.skip(i as int).drop_first() =~= ea.skip(i + 1));
            assert(eb.skip(i as int).drop_first() =~= eb.skip(i + 1));
        }
        if c != 0 {
            return c;
        }
        i = i + 1;
    }
    if i < b.len() {
        -1
    } else if i < a.len() {
        1
    } else {
        0
    }
}

/// A path and its tree key, as characters.
type Placed = (Vec<(i64, Vec<char>, Vec<char>)>, Vec<char>);

spec fn placed_view(p: Placed) -> (Seq<TreeEntry>, Seq<char>) {
    (entries_view(p.0@), p.1@)
}

fn compare_placed(x: &Placed, y: &Placed) -> (r: i8)
    ensures
        r as int == place_order(placed_view(*x), placed_view(*y)),
{
    let k = compare_key(&x.0, &y.0);
    if k != 0 {
        return k;
    }
    compare_text(&x.1, &y.1)
}

/// The last album of `all` at `prefix`, and its sibling key.
fn sibling_of(all: &Vec<Album>, prefix: &[char], segment: &[char]) -> (r: (i64, Vec<char>))
    ensures
        (r.0, r.1@) == sibling_key(all@, prefix@, segment@),
{
    let mut j: usize = all.len();
    assert(all@.take(j as int) =~= all@);
    while j > 0
        invariant
            j <= all@.len(),
            last_at(all@, prefix@) == last_at(all@.take(j as int), prefix@),
        decreases j,
    {
        let p = chars_of(all[j - 1].path.as_str());
        proof {
            assert(all@.take(j as int).last() == all@[j - 1]);
            assert(all@.take(j as int).drop_last() =~= all@.take(j - 1));
        }
        if same(&p, prefix) {
            let o: i64 = match all[j - 1].sort_order {
                Some(o) => o,
                None => i64::MAX,
            };
            let t = chars_of(all[j - 1].title.as_str());
            return (o, lowercased(&t));
        }
        j = j - 1;
    }
    (i64::MAX, lowercased(segment))
}

/// The tree key of `path` among `all`.
fn tree_key_of(all: &Vec<Album>, path: &str) -> (r: Vec<(i64, Vec<char>, Vec<char>)>)
    ensures
        entries_view(r@) == tree_key(all@, split(path@, '/')),
{
    let v = chars_of(path);
    let segs = split_on(&v, '/');
    let ghost sv = views(segs@);
    let mut prefix: Vec<char> = Vec::new();
    let mut out: Vec<(i64, Vec<char>, Vec<char>)> = Vec::new();
    let mut k: usize = 0;
    assert(sv.take(0) =~= Seq::<Seq<char>>::empty());
    while k < segs.len()
        invariant
            k <= segs@.len(),
            sv == views(segs@),
            out@.len() == k,
            prefix@ == prefix_of(sv.take(k as int)),
            entries_view(out@) == tree_key(all@, sv.take(k as int)),
        decreases segs@.len() - k,
    {
        let seg = &segs[k];
        let ghost before = prefix@;
        if prefix.len() > 0 {
            prefix.push('/');
        }
        extend(&mut prefix, seg);
        let ghost t = sv.take(k + 1);
        proof {
            assert(t.drop_last() =~= sv.take(k as int));
            assert(t.last() == seg@);
            assert(prefix@ =~= prefix_of(t));
        }
        let (o, title) = sibling_of(all, &prefix, seg);
        let low = lowercased(seg);
        let ghost o0 = out@;
        out.push((o, title, low));
        proof {
            assert(entries_view(out@) =~= entries_view(o0).push((o, title@, low@)));
            assert(entries_view(out@) =~= tree_key(all@, t));
        }
        k = k + 1;
    }
    assert(sv.take(segs@.len() as int) =~= sv);
    out
}

/// Order albums so that every parent comes immediately before its children.
///
/// The key for one album is the sibling key of each ancestor followed by its
/// own. Because a parent's key is a prefix of its children's, and a shorter
/// key sorts before a longer one that starts the same way, the result is a
/// depth-first walk of the tree with siblings in gallery order. The sort is
/// stable: albums that share a path keep the order they came in.
pub fn sort_as_tree(albums: &mut Vec<Album>)
    ensures
        final(albums)@.len() == old(albums)@.len(),
        forall|i: int, j: int|
            0 <= i < j < final(albums)@.len() ==> place_order(
                tree_place(old(albums)@, #[trigger] final(albums)@[i]),
                tree_place(old(albums)@, #[trigger] final(albums)@[j]),
            ) <= 0,
        forall|p: Seq<char>| #[trigger] at_path(final(albums)@, p) == at_path(old(albums)@, p),
{
    let ghost orig = albums@;
    let n = albums.len();
    let mut keys: Vec<Placed> = Vec::new();
    let mut i: usize = 0;
    while i < n
        invariant
            i <= n == albums@.len(),
            albums@ == orig,
            keys@.len() == i,
            forall|k: int| 0 <= k < i ==> placed_view(#[trigger] keys@[k]) == tree_place(orig, orig[k]),
        decreases n - i,
    {
        let key = tree_key_of(albums, albums[i].path.as_str());
        let path = chars_of(albums[i].path.as_str());
        keys.push((key, path));
        i = i + 1;
    }
    proof {
        lemma_place_order();
    }
    let ghost po = |x: Place, y: Place| place_order(x, y);
    let mut out: Vec<Album> = Vec::new();
    let mut out_keys: Vec<Placed> = Vec::new();
    let mut done: usize = 0;
    assert(orig.take(0) =~= Seq::<Album>::empty());
    assert(orig.skip(0) =~= orig);
    while albums.len() > 0
        invariant
            done <= n == orig.len(),
            po == (|x: Place, y: Place| place_order(x, y)),
            is_order(po),
            albums@ == orig.skip(done as int),
            keys@.len() == albums@.len(),
            forall|k: int|
                0 <= k < keys@.len() ==> placed_view(#[trigger] keys@[k]) == tree_place(orig, albums@[k]),
            out@.len() == done,
            out_keys@.len() == done,
            forall|k: int|
                0 <= k < done ==> placed_view(#[trigger] out_keys@[k]) == tree_place(orig, out@[k]),
            forall|a: int, b: int|
                0 <= a < b < done ==> place_order(
                    tree_place(orig, #[trigger] out@[a]),
                    tree_place(orig, #[trigger] out@[b]),
                ) <= 0,
            forall|p: Seq<char>| #[trigger] at_path(out@, p) == at_path(orig.take(done as int), p),
        decreases albums@.len(),
    {
        let ghost out0 = out@;
        let ghost rest0 = albums@;
        let ghost keys0 = keys@;
        let x = albums.remove(0);
        let kx = keys.remove(0);
        proof {
            assert(rest0[0] == x);
            assert(albums@ =~= orig.skip(done + 1));
            assert forall|k: int| 0 <= k < keys@.len() implies placed_view(#[trigger] keys@[k])
                == tree_place(orig, albums@[k]) by {
                assert(keys@[k] == keys0[k + 1]);
                assert(albums@[k] == rest0[k + 1]);
            }
        }
        let ghost px = tree_place(orig, x);
        let mut q: usize = 0;
        let mut searching = true;
        while searching && q < out.len()
            invariant
                q <= out@.len() == out_keys@.len() == done,
                placed_view(kx) == px,
                px == tree_place(orig, x),
                out@ == out0,
                forall|k: int|
                    0 <= k < done ==> placed_view(#[trigger] out_keys@[k]) == tree_place(orig, out@[k]),
                forall|k: int|
                    0 <= k < q ==> place_order(px, tree_place(orig, #[trigger] out@[k])) >= 0,
                !searching ==> q < done && place_order(px, tree_place(orig, out0[q as int])) < 0,
            decreases out@.len() - q + (if searching { 1int } else { 0int }),
        {
            let c = compare_placed(&kx, &out_keys[q]);
            if c < 0 {
                searching = false;
            } else {
                q = q + 1;
            }
        }
        let ghost keys_out0 = out_keys@;
        out.insert(q, x);
        out_keys.insert(q, kx);
        proof {
            let nw = out@;
            assert(nw =~= out0.insert(q as int, x));
            out0.insert_ensures(q as int, x);
            keys_out0.insert_ensures(q as int, kx);
            assert(q < done ==> po(px, tree_place(orig, out0[q as int])) < 0);
            assert forall|a: int, b: int| 0 <= a < b < done implies po(
                tree_place(orig, #[trigger] out0[a]),
                tree_place(orig, #[trigger] out0[b]),
            ) <= 0 by {}
            assert forall|k: int| 0 <= k < done + 1 implies placed_view(#[trigger] out_keys@[k])
                == tree_place(orig, out@[k]) by {
                if k < q {
                    assert(out_keys@[k] == keys_out0[k]);
                } else if k > q {
                    assert(out_keys@[k] == keys_out0[k - 1]);
                    assert(out@[k] == out0[k - 1]);
                }
            }
            // everything from q on sorts strictly after x
            assert forall|k: int| q <= k < done implies po(px, tree_place(orig, #[trigger] out0[k])) < 0 by {
                let pq = tree_place(orig, out0[q as int]);
                let pk = tree_place(orig, out0[k]);
                if k > q {
                    assert(po(pq, pk) <= 0);
                    if po(pq, pk) == 0 {
                        assert(pq == pk);
                    } else {
                        assert(po(px, pq) < 0 && po(pq, pk) < 0);
                    }
                }
            }
            assert forall|a: int, b: int| 0 <= a < b < done + 1 implies po(
                tree_place(orig, #[trigger] nw[a]),
                tree_place(orig, #[trigger] nw[b]),
            ) <= 0 by {
                if b < q {
                    assert(nw[a] == out0[a] && nw[b] == out0[b]);
                } else if b == q {
                    assert(nw[a] == out0[a]);
                    let pa = tree_place(orig, out0[a]);
                    assert(po(px, pa) >= 0);
                    assert(po(pa, px) == -po(px, pa));
                } else if a == q {
                    assert(nw[b] == out0[b - 1]);
                    assert(po(px, tree_place(orig, out0[b - 1])) < 0);
                } else if a < q {
                    assert(nw[a] == out0[a] && nw[b] == out0[b - 1]);
                    assert(po(tree_place(orig, out0[a]), tree_place(orig, out0[b - 1])) <= 0);
                } else {
                    assert(nw[a] == out0[a - 1] && nw[b] == out0[b - 1]);
                    assert(po(tree_place(orig, out0[a - 1]), tree_place(orig, out0[b - 1])) <= 0);
                }
            }
            // the albums at one path keep the order they came in
            assert(orig.take(done + 1) =~= orig.take(done as int).push(x));
            assert(out0 =~= out0.take(q as int) + out0.skip(q as int));
            assert(nw =~= out0.take(q as int).push(x) + out0.skip(q as int));
            assert forall|p: Seq<char>| #[trigger] at_path(nw, p) == at_path(
                orig.take(done + 1),
                p,
            ) by {
                lemma_at_path_push(orig.take(done as int), x, p);
                lemma_at_path_add(out0.take(q as int).push(x), out0.skip(q as int), p);
                lemma_at_path_add(out0.take(q as int), out0.skip(q as int), p);
                lemma_at_path_push(out0.take(q as int), x, p);
                if x.path@ == p {
                    let rest = out0.skip(q as int);
                    assert forall|k: int| 0 <= k < rest.len() implies (#[trigger] rest[k]).path@ != p by {
                        assert(rest[k] == out0[q + k]);
                        assert(po(px, tree_place(orig, out0[q + k])) < 0);
                        if rest[k].path@ == p {
                            assert(tree_place(orig, out0[q + k]) == px);
                        }
                    }
                    lemma_at_path_none(rest, p);
                    assert(at_path(out0.take(q as int), p) + Seq::<Album>::empty() =~= at_path(out0.take(q as int), p));
                    assert(at_path(out0.take(q as int), p).push(x) + Seq::<Album>::empty() =~= at_path(out0.take(q as int), p).push(x));
                }
            }
        }
        done = done + 1;
    }
    proof {
        assert(orig.take(n as int) =~= orig);
    }
    *albums = out;
}


/// A tree key has one entry per segment.
pub proof fn lemma_tree_key_len(all: Seq<Album>, segs: Seq<Seq<char>>)
    ensures
        tree_key(all, segs).len() == segs.len(),
    decreases segs.len(),
{
    if segs.len() > 0 {
        lemma_tree_key_len(all, segs.drop_last());
    }
}

/// The key of a path's first `k` segments is the first `k` entries of its
/// key: an ancestor's key is a prefix of its descendants'.
pub proof fn lemma_tree_key_prefix(all: Seq<Album>, segs: Seq<Seq<char>>, k: int)
    requires
        0 <= k <= segs.len(),
    ensures
        tree_key(all, segs).take(k) == tree_key(all, segs.take(k)),
    decreases segs.len(),
{
    lemma_tree_key_len(all, segs);
    if k == segs.len() {
        assert(segs.take(k) =~= segs);
        assert(tree_key(all, segs).take(k) =~= tree_key(all, segs));
    } else {
        lemma_tree_key_prefix(all, segs.drop_last(), k);
        assert(segs.drop_last().take(k) =~= segs.take(k));
        lemma_tree_key_len(all, segs.drop_last());
        assert(tree_key(all, segs).take(k) =~= tree_key(all, segs.drop_last()).take(k));
    }
}

/// In albums ordered as a tree, an album comes before every album under it:
/// a collection is always listed ahead of its contents.
pub proof fn lemma_parent_before_child(all: Seq<Album>, s: Seq<Album>, i: int, j: int)
    requires
        forall|a: int, b: int|
            0 <= a < b < s.len() ==> place_order(
                tree_place(all, #[trigger] s[a]),
                tree_place(all, #[trigger] s[b]),
            ) <= 0,
        0 <= i < s.len(),
        0 <= j < s.len(),
        starts_with(s[j].path@, s[i].path@ + seq!['/']),
    ensures
        i < j,
{
    let p = s[i].path@;
    let c = s[j].path@;
    let pre = p + seq!['/'];
    let rest = c.skip(pre.len() as int);
    assert(c =~= p + seq!['/'] + rest);
    crate::text::lemma_split_add(p, rest, '/');
    lemma_split_len(rest, '/');
    lemma_split_len(p, '/');
    let sp = split(p, '/');
    let sc = split(c, '/');
    assert(sc.take(sp.len() as int) =~= sp);
    lemma_tree_key_prefix(all, sc, sp.len() as int);
    lemma_tree_key_len(all, sc);
    lemma_tree_key_len(all, sp);
    lemma_entry_order();
    crate::order::lemma_lex_prefix(
        tree_key(all, sp),
        tree_key(all, sc),
        |x: TreeEntry, y: TreeEntry| entry_order(x, y),
    );
    assert(key_lex(tree_key(all, sp), tree_key(all, sc)) == -1);
    lemma_place_order();
    let po = |x: Place, y: Place| place_order(x, y);
    assert(po(tree_place(all, s[i]), tree_place(all, s[j])) == -1);
    assert(po(tree_place(all, s[j]), tree_place(all, s[i])) == 1);
    if j < i {
        assert(place_order(tree_place(all, s[j]), tree_place(all, s[i])) <= 0);
    }
}

/// Each entry of a tree key ends with its segment, lowercased.
proof fn lemma_tree_key_segment(all: Seq<Album>, segs: Seq<Seq<char>>, m: int)
    requires
        0 <= m < segs.len(),
    ensures
        tree_key(all, segs)[m].2 == lowercase(segs[m]),
    decreases segs.len(),
{
    lemma_tree_key_len(all, segs.drop_last());
    if m < segs.len() - 1 {
        lemma_tree_key_segment(all, segs.drop_last(), m);
    }
}

/// Whether every segment of a path is already in lower case, as
/// [`normalize_path`] leaves album paths.
pub open spec fn lower_segments(p: Seq<char>) -> bool {
    forall|n: int|
        0 <= n < split(p, '/').len() ==> lowercase(#[trigger] split(p, '/')[n]) == split(p, '/')[n]
}

/// In albums ordered as a tree, every branch is kept together: whatever
/// comes between an album and one under it lies under that album too (or
/// shares its path). The walk is depth-first.
pub proof fn lemma_branch_together(all: Seq<Album>, s: Seq<Album>, i: int, k: int, j: int)
    requires
        forall|a: int, b: int|
            0 <= a < b < s.len() ==> place_order(
                tree_place(all, #[trigger] s[a]),
                tree_place(all, #[trigger] s[b]),
            ) <= 0,
        forall|a: int| 0 <= a < s.len() ==> lower_segments(#[trigger] s[a].path@),
        0 <= i < k < j < s.len(),
        starts_with(s[j].path@, s[i].path@ + seq!['/']),
    ensures
        s[k].path@ == s[i].path@ || starts_with(s[k].path@, s[i].path@ + seq!['/']),
{
    let p = s[i].path@;
    let c = s[j].path@;
    let q = s[k].path@;
    let pre = p + seq!['/'];
    let rest = c.skip(pre.len() as int);
    assert(c =~= p + seq!['/'] + rest);
    crate::text::lemma_split_add(p, rest, '/');
    lemma_split_len(rest, '/');
    lemma_split_len(p, '/');
    let sp = split(p, '/');
    let sc = split(c, '/');
    let sq = split(q, '/');
    let n = sp.len() as int;
    assert(sc.take(n) =~= sp);
    lemma_tree_key_prefix(all, sc, n);
    lemma_tree_key_len(all, sc);
    lemma_tree_key_len(all, sp);
    lemma_tree_key_len(all, sq);
    let kp = tree_key(all, sp);
    let kc = tree_key(all, sc);
    let kq = tree_key(all, sq);
    lemma_entry_order();
    lemma_place_order();
    assert(place_order(tree_place(all, s[i]), tree_place(all, s[k])) <= 0);
    assert(place_order(tree_place(all, s[k]), tree_place(all, s[j])) <= 0);
    assert(key_lex(kp, kq) <= 0);
    assert(key_lex(kq, kc) <= 0);
    crate::order::lemma_lex_between(kp, kq, kc, |x: TreeEntry, y: TreeEntry| entry_order(x, y));
    assert(n <= sq.len());
    lemma_tree_key_prefix(all, sq, n);
    assert forall|m: int| 0 <= m < n implies #[trigger] sq.take(n)[m] == sp[m] by {
        lemma_tree_key_segment(all, sq, m);
        lemma_tree_key_segment(all, sp, m);
        assert(kq.take(n)[m] == kp[m]);
        assert(lower_segments(q));
        assert(lower_segments(p));
        assert(lowercase(sq[m]) == sq[m]);
        assert(lowercase(sp[m]) == sp[m]);
    }
    assert(sq.take(n) =~= sp);
    crate::text::lemma_split_extends(q, p, '/');
}

// ----------------------------------------------------------------- tokens

/// Internal album id used by the site's access cookie: six random bytes as
/// twelve lowercase hex digits. Grants nothing alone.
pub fn generate_token() -> (r: String)
    ensures
        exists|b: Seq<u8>| b.len() == 6 && r@ == hex_text(b),
        r@.len() == 12,
        forall|k: int| 0 <= k < r@.len() ==> is_lower_hex(#[trigger] r@[k]),
{
    let bytes = random_bytes(6);
    let r = hex_of(&bytes);
    proof {
        lemma_hex_text(bytes@);
    }
    r
}

/// A random secret for link-sharing. This *is* a credential: sixteen bytes
/// from a cryptographically secure generator, as URL-safe base64 without
/// padding — the web gallery's `shareToken`.
pub fn generate_share_token() -> (r: String)
    ensures
        exists|b: Seq<u8>| b.len() == 16 && r@ == base64_text(b, true, false),
        r@.len() == 22,
        forall|k: int| 0 <= k < r@.len() ==> is_url_safe(#[trigger] r@[k]),
{
    let bytes = random_bytes(16);
    let r = base64_url_safe(&bytes);
    proof {
        lemma_base64_url(bytes@);
    }
    r
}


/// The sibling key of a catalogued album is its own: its manual position,
/// or last when it has none, then its title lowercased — never its path
/// segment, which only names a folder that has no album.
pub proof fn lemma_sibling_key_is_the_albums(all: Seq<Album>, prefix: Seq<char>, segment: Seq<char>, a: Album)
    requires
        last_at(all, prefix) == Some(a),
    ensures
        sibling_key(all, prefix, segment).1 == lowercase(a.title@),
        sibling_key(all, prefix, segment).0 == match a.sort_order {
            Some(o) => o,
            None => i64::MAX,
        },
{
}

/// Two keys that agree up to their last entry compare as their last entries
/// do.
proof fn lemma_lex_last(a: Seq<TreeEntry>, x: TreeEntry, y: TreeEntry)
    requires
        entry_order(x, y) != 0,
    ensures
        key_lex(a.push(x), a.push(y)) == entry_order(x, y),
    decreases a.len(),
{
    if a.len() == 0 {
        let el = |p: TreeEntry, q: TreeEntry| entry_order(p, q);
        assert(a.push(x)[0] == x && a.push(y)[0] == y);
        assert(el(x, y) == entry_order(x, y));
    } else {
        lemma_entry_order();
        let el = |p: TreeEntry, q: TreeEntry| entry_order(p, q);
        assert(a.push(x)[0] == a[0] && a.push(y)[0] == a[0]);
        assert(el(a[0], a[0]) == 0);
        assert(a.push(x).drop_first() =~= a.drop_first().push(x));
        assert(a.push(y).drop_first() =~= a.drop_first().push(y));
        lemma_lex_last(a.drop_first(), x, y);
    }
}

/// The first piece of a path that does not start with `/` is not empty.
proof fn lemma_first_piece(p: Seq<char>)
    requires
        p.len() > 0,
        p[0] != '/',
    ensures
        split(p, '/')[0].len() > 0,
    decreases p.len(),
{
    if p.len() == 1 {
        assert(p.drop_last() =~= Seq::<char>::empty());
        assert(p.last() == p[0]);
    } else {
        let d = p.drop_last();
        assert(d[0] == p[0]);
        lemma_first_piece(d);
        lemma_split_len(d, '/');
    }
}

/// Built one segment at a time, the segments spell their join, when the
/// first is not empty.
proof fn lemma_prefix_of_join(segs: Seq<Seq<char>>)
    requires
        segs.len() >= 1,
        segs[0].len() > 0,
    ensures
        prefix_of(segs) == join(segs, seq!['/']),
        join(segs, seq!['/']).len() > 0,
    decreases segs.len(),
{
    if segs.len() == 1 {
        assert(segs.drop_last() =~= Seq::<Seq<char>>::empty());
        assert(prefix_of(segs.drop_last()) == Seq::<char>::empty());
        assert(segs.last() == segs[0]);
    } else {
        let d = segs.drop_last();
        assert(d[0] == segs[0]);
        lemma_prefix_of_join(d);
        assert(prefix_of(segs) == grow(prefix_of(d), segs.last()));
    }
}

/// The prefix built from a path's pieces is the path, for a path that does
/// not start with `/`.
proof fn lemma_prefix_of_split(p: Seq<char>)
    requires
        p.len() > 0,
        p[0] != '/',
    ensures
        prefix_of(split(p, '/')) == p,
{
    lemma_first_piece(p);
    lemma_split_len(p, '/');
    lemma_prefix_of_join(split(p, '/'));
    crate::text::lemma_join_split(p, '/');
}

/// Siblings are listed in gallery order: of two albums with one parent, the
/// one with the lower manual position comes first, albums without a position
/// come after every one with one, and where the positions agree — both unset
/// above all — the one whose lowercased title sorts first comes first,
/// whatever their path segments say.
pub proof fn lemma_siblings_by_position_then_title(
    all: Seq<Album>,
    s: Seq<Album>,
    i: int,
    j: int,
    parent: Seq<char>,
    sx: Seq<char>,
    sy: Seq<char>,
)
    requires
        forall|a: int, b: int|
            0 <= a < b < s.len() ==> place_order(
                tree_place(all, #[trigger] s[a]),
                tree_place(all, #[trigger] s[b]),
            ) <= 0,
        0 <= i < s.len(),
        0 <= j < s.len(),
        parent.len() > 0,
        parent[0] != '/',
        !sx.contains('/'),
        !sy.contains('/'),
        s[i].path@ == parent + seq!['/'] + sx,
        s[j].path@ == parent + seq!['/'] + sy,
        last_at(all, s[i].path@) == Some(s[i]),
        last_at(all, s[j].path@) == Some(s[j]),
        ({
            let oi = match s[i].sort_order {
                Some(o) => o,
                None => i64::MAX,
            };
            let oj = match s[j].sort_order {
                Some(o) => o,
                None => i64::MAX,
            };
            oi < oj || (oi == oj && text_order(lowercase(s[i].title@), lowercase(s[j].title@)) < 0)
        }),
    ensures
        i < j,
{
    let pi = s[i].path@;
    let pj = s[j].path@;
    crate::text::lemma_split_add(parent, sx, '/');
    crate::text::lemma_split_add(parent, sy, '/');
    crate::publish::lemma_split_whole(sx, '/');
    crate::publish::lemma_split_whole(sy, '/');
    let sp = split(parent, '/');
    let si = split(pi, '/');
    let sj = split(pj, '/');
    assert(si == sp + seq![sx]);
    assert(sj == sp + seq![sy]);
    assert(si.drop_last() =~= sp);
    assert(sj.drop_last() =~= sp);
    assert(si.last() == sx);
    assert(sj.last() == sy);
    lemma_tree_key_len(all, sp);
    let ki = tree_key(all, si);
    let kj = tree_key(all, sj);
    let kp = tree_key(all, sp);
    let oi = match s[i].sort_order {
        Some(o) => o,
        None => i64::MAX,
    };
    let oj = match s[j].sort_order {
        Some(o) => o,
        None => i64::MAX,
    };
    let ei = (oi, lowercase(s[i].title@), lowercase(sx));
    let ej = (oj, lowercase(s[j].title@), lowercase(sy));
    assert(pi[0] == parent[0]);
    assert(pj[0] == parent[0]);
    lemma_prefix_of_split(pi);
    lemma_prefix_of_split(pj);
    assert(sibling_key(all, prefix_of(si), si.last()) == (oi, lowercase(s[i].title@)));
    assert(sibling_key(all, prefix_of(sj), sj.last()) == (oj, lowercase(s[j].title@)));
    assert(ki == kp.push(ei));
    assert(kj == kp.push(ej));
    lemma_text_order();
    let t = |a: Seq<char>, b: Seq<char>| text_order(a, b);
    if oi == oj {
        assert(t(lowercase(s[i].title@), lowercase(s[j].title@)) < 0);
    }
    assert(entry_order(ei, ej) == -1);
    lemma_lex_last(kp, ei, ej);
    assert(key_lex(ki, kj) == -1);
    assert(place_order(tree_place(all, s[i]), tree_place(all, s[j])) == -1);
    lemma_place_order();
    let po = |x: Place, y: Place| place_order(x, y);
    assert(po(tree_place(all, s[j]), tree_place(all, s[i])) == 1);
    if j < i {
        assert(place_order(tree_place(all, s[j]), tree_place(all, s[i])) <= 0);
    }
    if i == j {
        assert(place_order(tree_place(all, s[i]), tree_place(all, s[i])) == 0);
    }
}


/// Top-level albums are listed in gallery order too: by manual position,
/// unset last, then by lowercased title.
pub proof fn lemma_top_level_by_position_then_title(all: Seq<Album>, s: Seq<Album>, i: int, j: int)
    requires
        forall|a: int, b: int|
            0 <= a < b < s.len() ==> place_order(
                tree_place(all, #[trigger] s[a]),
                tree_place(all, #[trigger] s[b]),
            ) <= 0,
        0 <= i < s.len(),
        0 <= j < s.len(),
        s[i].path@.len() > 0,
        s[j].path@.len() > 0,
        !s[i].path@.contains('/'),
        !s[j].path@.contains('/'),
        last_at(all, s[i].path@) == Some(s[i]),
        last_at(all, s[j].path@) == Some(s[j]),
        ({
            let oi = match s[i].sort_order {
                Some(o) => o,
                None => i64::MAX,
            };
            let oj = match s[j].sort_order {
                Some(o) => o,
                None => i64::MAX,
            };
            oi < oj || (oi == oj && text_order(lowercase(s[i].title@), lowercase(s[j].title@)) < 0)
        }),
    ensures
        i < j,
{
    let pi = s[i].path@;
    let pj = s[j].path@;
    crate::publish::lemma_split_whole(pi, '/');
    crate::publish::lemma_split_whole(pj, '/');
    let si = split(pi, '/');
    let sj = split(pj, '/');
    assert(si.drop_last() =~= Seq::<Seq<char>>::empty());
    assert(sj.drop_last() =~= Seq::<Seq<char>>::empty());
    assert(prefix_of(si.drop_last()) == Seq::<char>::empty());
    assert(prefix_of(sj.drop_last()) == Seq::<char>::empty());
    assert(prefix_of(si) == pi);
    assert(prefix_of(sj) == pj);
    let oi = match s[i].sort_order {
        Some(o) => o,
        None => i64::MAX,
    };
    let oj = match s[j].sort_order {
        Some(o) => o,
        None => i64::MAX,
    };
    let ei = (oi, lowercase(s[i].title@), lowercase(pi));
    let ej = (oj, lowercase(s[j].title@), lowercase(pj));
    let e = Seq::<TreeEntry>::empty();
    assert(si.last() == pi);
    assert(sj.last() == pj);
    assert(tree_key(all, si.drop_last()) == e);
    assert(tree_key(all, sj.drop_last()) == e);
    assert(sibling_key(all, prefix_of(si), si.last()) == (oi, lowercase(s[i].title@)));
    assert(sibling_key(all, prefix_of(sj), sj.last()) == (oj, lowercase(s[j].title@)));
    assert(tree_key(all, si) =~= e.push(ei));
    assert(tree_key(all, sj) =~= e.push(ej));
    lemma_text_order();
    let t = |a: Seq<char>, b: Seq<char>| text_order(a, b);
    if oi == oj {
        assert(t(lowercase(s[i].title@), lowercase(s[j].title@)) < 0);
    }
    assert(entry_order(ei, ej) == -1);
    lemma_lex_last(e, ei, ej);
    assert(place_order(tree_place(all, s[i]), tree_place(all, s[j])) == -1);
    lemma_place_order();
    let po = |x: Place, y: Place| place_order(x, y);
    assert(po(tree_place(all, s[j]), tree_place(all, s[i])) == 1);
    if j < i {
        assert(place_order(tree_place(all, s[j]), tree_place(all, s[i])) <= 0);
    }
    if i == j {
        assert(place_order(tree_place(all, s[i]), tree_place(all, s[i])) == 0);
    }
}

} // verus!

