//! Full-scope sync: originals and metadata, beside the published tree.
//!
//! A web-scope sync moves the *published* tree. Full scope moves, in
//! addition, what makes the main remote usable as library sync between
//! devices:
//!
//! ```text
//! __gpp_full__/<album-path>/<filename>        every catalogued original
//! __gpp_full__/<album-path>/album.gpp.json    album fields, membership order,
//!                                             per-photo metadata
//! ```
//!
//! The prefix is reserved: only a leading segment counts, so a gallery album
//! can never be mistaken for it. Pulled metadata is applied with import-style
//! caution: still-default fields are filled, and a field both sides changed is
//! reported, never resolved by guessing ([`merge_photo_metadata`]).

use vstd::prelude::*;

use crate::model::{flag_of, Flag};
use crate::publish::list_view;
use crate::text::{
    begins, chars_of, contains, extend, last_index_of, lemma_rfind, rsplit_once, same, slice_of,
    starts_with, string_of,
};

verus! {

/// The reserved namespace. Nothing under a gallery's real album tree may ever
/// carry it.
pub const FULL_PREFIX: &'static str = "__gpp_full__";

/// Filename of the per-album metadata document.
pub const METADATA_FILENAME: &'static str = "album.gpp.json";

/// Whether a manifest key sits inside the full-scope namespace: it is the
/// prefix, or starts with the prefix and a `/`.
pub open spec fn in_full_scope(key: Seq<char>) -> bool {
    key == FULL_PREFIX@ || starts_with(key, FULL_PREFIX@ + seq!['/'])
}

/// `__gpp_full__/<album>/<file>`.
pub open spec fn full_key_of(album_path: Seq<char>, filename: Seq<char>) -> Seq<char> {
    FULL_PREFIX@ + seq!['/'] + album_path + seq!['/'] + filename
}

/// `__gpp_full__/<album>/<file>` split at its last `/` into album and file,
/// when the key is in the namespace and neither part is empty.
pub open spec fn full_key_parts(key: Seq<char>) -> Option<(Seq<char>, Seq<char>)> {
    let p = FULL_PREFIX@ + seq!['/'];
    if !starts_with(key, p) {
        None
    } else {
        match rsplit_once(key.skip(p.len() as int), '/') {
            Some((album, filename)) => if album.len() > 0 && filename.len() > 0 {
                Some((album, filename))
            } else {
                None
            },
            None => None,
        }
    }
}

/// Whether `rel_path` names a file directly inside `album_path`: the album,
/// a `/`, and a name with no further `/`.
pub open spec fn direct_child(album_path: Seq<char>, rel_path: Seq<char>) -> bool {
    &&& starts_with(rel_path, album_path)
    &&& rel_path.len() > album_path.len()
    &&& rel_path[album_path.len() as int] == '/'
    &&& !rel_path.skip(album_path.len() as int + 1).contains('/')
}

fn prefix_slash() -> (r: Vec<char>)
    ensures
        r@ == FULL_PREFIX@ + seq!['/'],
{
    let mut p = chars_of(FULL_PREFIX);
    p.push('/');
    p
}

/// Whether a manifest key sits inside the full-scope namespace.
pub fn is_full_key(key: &str) -> (r: bool)
    ensures
        r == in_full_scope(key@),
{
    let k = chars_of(key);
    let p = chars_of(FULL_PREFIX);
    if same(&k, &p) {
        return true;
    }
    let ps = prefix_slash();
    begins(&k, &ps)
}

/// The key an album's file takes inside the namespace.
pub fn full_key(album_path: &str, filename: &str) -> (r: String)
    ensures
        r@ == full_key_of(album_path@, filename@),
{
    let mut out = prefix_slash();
    extend(&mut out, &chars_of(album_path));
    out.push('/');
    extend(&mut out, &chars_of(filename));
    proof {
        assert(out@ =~= full_key_of(album_path@, filename@));
    }
    string_of(&out)
}

/// `__gpp_full__/<album>/<file>` → `(<album>, <file>)`. `None` for the bare
/// prefix, a key with no filename, or one outside the namespace.
pub fn split_full_key(key: &str) -> (r: Option<(String, String)>)
    ensures
        match r {
            Some((a, f)) => full_key_parts(key@) == Some((a@, f@)),
            None => full_key_parts(key@) is None,
        },
{
    let k = chars_of(key);
    let p = prefix_slash();
    if !begins(&k, &p) {
        return None;
    }
    let n = k.len();
    let rest = slice_of(&k, p.len(), n);
    assert(rest@ =~= key@.skip(p@.len() as int));
    let rn = rest.len();
    match last_index_of(&rest, '/') {
        Some(i) => {
            proof {
                lemma_rfind(rest@, '/');
            }
            if i == 0 || i + 1 == rn {
                return None;
            }
            let album = slice_of(&rest, 0, i);
            let file = slice_of(&rest, i + 1, rn);
            assert(album@ =~= rest@.take(i as int));
            assert(file@ =~= rest@.skip(i + 1));
            Some((string_of(&album), string_of(&file)))
        },
        None => None,
    }
}

/// Whether `rel_path` names a file directly inside `album_path`.
pub fn is_direct_child_of(album_path: &str, rel_path: &str) -> (r: bool)
    ensures
        r == direct_child(album_path@, rel_path@),
{
    let a = chars_of(album_path);
    let p = chars_of(rel_path);
    if !begins(&p, &a) {
        return false;
    }
    let n = p.len();
    let m = a.len();
    if n <= m || p[m] != '/' {
        return false;
    }
    let name = slice_of(&p, m + 1, n);
    assert(name@ =~= rel_path@.skip(m + 1));
    !contains(&name, '/')
}

/// Splitting a full key gives back the album and the file it was made from,
/// whenever both are non-empty and the file name holds no `/`.
pub proof fn lemma_split_full_key(album_path: Seq<char>, filename: Seq<char>)
    requires
        album_path.len() > 0,
        filename.len() > 0,
        !filename.contains('/'),
    ensures
        full_key_parts(full_key_of(album_path, filename)) == Some((album_path, filename)),
        in_full_scope(full_key_of(album_path, filename)),
{
    let p = FULL_PREFIX@ + seq!['/'];
    let k = full_key_of(album_path, filename);
    assert(k =~= p + (album_path + seq!['/'] + filename));
    assert(k.take(p.len() as int) =~= p);
    let rest = k.skip(p.len() as int);
    assert(rest =~= album_path + seq!['/'] + filename);
    let i = album_path.len() as int;
    crate::text::lemma_rfind(rest, '/');
    assert(rest[i] == '/');
    assert forall|j: int| i < j < rest.len() implies rest[j] != '/' by {
        assert(rest[j] == filename[j - i - 1]);
    }
    match crate::text::rfind(rest, '/') {
        Some(at) => {
            assert(at == i);
        },
        None => {
            assert(false);
        },
    }
    assert(rest.take(i) =~= album_path);
    assert(rest.skip(i + 1) =~= filename);
}

// ------------------------------------------------------------- metadata

/// Album fields as the catalog holds them, carried in the metadata document
/// for reconstruction on another machine.
#[derive(Debug, Clone, Default)]
pub struct FullAlbumFields {
    pub title: String,
    pub description: Option<String>,
    pub date: Option<String>,
    pub sort: String,
    pub style: String,
    pub is_collection: bool,
    pub tags: Vec<String>,
}

/// A photo's metadata as this library holds it.
#[derive(Debug, Clone)]
pub struct LocalPhotoMeta {
    pub rating: u8,
    pub flag: Flag,
    pub color_label: Option<String>,
    pub tags: Vec<String>,
    /// The photo carries a develop stack.
    pub has_edits: bool,
}

/// The develop stack a pulled document carries, already read and compared.
#[derive(Debug, Clone, Copy)]
pub struct PulledEdits {
    /// The stack holds no ops.
    pub is_empty: bool,
    /// The stack equals the local one.
    pub same_as_local: bool,
}

/// What a pulled metadata document says of one photo.
#[derive(Debug, Clone)]
pub struct PulledPhotoMeta {
    pub rating: u8,
    /// The flag as stored (`"pick"`, `"reject"`, anything else is none).
    pub flag: String,
    pub color_label: Option<String>,
    pub tags: Vec<String>,
    pub edits: Option<PulledEdits>,
}

/// What applying a pulled document does to one local photo: the fields to
/// fill, and the fields both sides changed, as messages.
#[derive(Debug, Clone)]
pub struct MetadataMerge {
    pub set_rating: Option<u8>,
    pub set_flag: Option<Flag>,
    pub set_color_label: Option<String>,
    pub set_tags: Option<Vec<String>>,
    /// Store the pulled develop stack.
    pub set_edits: bool,
    pub conflicts: Vec<String>,
}

/// `<rel>: <what> differs on both sides`.
pub open spec fn conflict_text(rel: Seq<char>, what: Seq<char>) -> Seq<char> {
    rel + seq![':', ' '] + what + " differs on both sides"@
}

/// The rating fills an unrated photo; two different ratings conflict.
pub open spec fn rating_fill(l: LocalPhotoMeta, r: PulledPhotoMeta) -> Option<u8> {
    if r.rating > 0 && l.rating == 0 {
        Some(r.rating)
    } else {
        None
    }
}

pub open spec fn rating_clash(l: LocalPhotoMeta, r: PulledPhotoMeta) -> bool {
    r.rating > 0 && l.rating != 0 && l.rating != r.rating
}

/// The flag fills an untriaged photo; two different flags conflict.
pub open spec fn flag_fill(l: LocalPhotoMeta, r: PulledPhotoMeta) -> Option<Flag> {
    let f = flag_of(r.flag@);
    if f != Flag::Unflagged && l.flag == Flag::Unflagged {
        Some(f)
    } else {
        None
    }
}

pub open spec fn flag_clash(l: LocalPhotoMeta, r: PulledPhotoMeta) -> bool {
    let f = flag_of(r.flag@);
    f != Flag::Unflagged && l.flag != Flag::Unflagged && l.flag != f
}

/// The colour label fills an unlabelled photo; two different labels
/// conflict.
pub open spec fn label_fill(l: LocalPhotoMeta, r: PulledPhotoMeta) -> Option<Seq<char>> {
    match (r.color_label, l.color_label) {
        (Some(lab), None) => Some(lab@),
        _ => None,
    }
}

pub open spec fn label_clash(l: LocalPhotoMeta, r: PulledPhotoMeta) -> bool {
    match (r.color_label, l.color_label) {
        (Some(lab), Some(loc)) => loc@ != lab@,
        _ => false,
    }
}

/// The tags fill an untagged photo; two different tag lists conflict.
pub open spec fn tags_fill(l: LocalPhotoMeta, r: PulledPhotoMeta) -> Option<Seq<Seq<char>>> {
    if r.tags@.len() > 0 && l.tags@.len() == 0 {
        Some(list_view(r.tags@))
    } else {
        None
    }
}

pub open spec fn tags_clash(l: LocalPhotoMeta, r: PulledPhotoMeta) -> bool {
    r.tags@.len() > 0 && l.tags@.len() > 0 && list_view(l.tags@) != list_view(r.tags@)
}

/// A pulled stack lands only where there is none locally, and only when it
/// holds something; two different stacks conflict.
pub open spec fn edits_fill(l: LocalPhotoMeta, r: PulledPhotoMeta) -> bool {
    match r.edits {
        Some(e) => !l.has_edits && !e.is_empty,
        None => false,
    }
}

pub open spec fn edits_clash(l: LocalPhotoMeta, r: PulledPhotoMeta) -> bool {
    match r.edits {
        Some(e) => l.has_edits && !e.same_as_local,
        None => false,
    }
}

/// A pulled document never overwrites what this library holds: a field
/// with a value of its own here is left alone, and where the two sides
/// disagree the field is reported rather than changed.
pub proof fn lemma_pull_never_overwrites(l: LocalPhotoMeta, r: PulledPhotoMeta)
    ensures
        l.rating != 0 ==> rating_fill(l, r) is None,
        l.flag != Flag::Unflagged ==> flag_fill(l, r) is None,
        l.color_label is Some ==> label_fill(l, r) is None,
        l.tags@.len() > 0 ==> tags_fill(l, r) is None,
        l.has_edits ==> !edits_fill(l, r),
        rating_clash(l, r) ==> rating_fill(l, r) is None,
        flag_clash(l, r) ==> flag_fill(l, r) is None,
        label_clash(l, r) ==> label_fill(l, r) is None,
        tags_clash(l, r) ==> tags_fill(l, r) is None,
        edits_clash(l, r) ==> !edits_fill(l, r),
{
}

/// `s` pushed when `b` holds.
pub open spec fn push_if(s: Seq<Seq<char>>, b: bool, x: Seq<char>) -> Seq<Seq<char>> {
    if b {
        s.push(x)
    } else {
        s
    }
}

/// The conflicts, in field order: rating, flag, colour label, tags, develop
/// stack.
pub open spec fn clashes(rel: Seq<char>, l: LocalPhotoMeta, r: PulledPhotoMeta) -> Seq<Seq<char>> {
    let s0 = Seq::<Seq<char>>::empty();
    let s1 = push_if(s0, rating_clash(l, r), conflict_text(rel, "rating"@));
    let s2 = push_if(s1, flag_clash(l, r), conflict_text(rel, "flag"@));
    let s3 = push_if(s2, label_clash(l, r), conflict_text(rel, "color label"@));
    let s4 = push_if(s3, tags_clash(l, r), conflict_text(rel, "tags"@));
    push_if(s4, edits_clash(l, r), conflict_text(rel, "develop stack"@))
}

fn copy_string(s: &String) -> (r: String)
    ensures
        r@ == s@,
{
    string_of(&chars_of(s.as_str()))
}

fn copy_strings(v: &Vec<String>) -> (r: Vec<String>)
    ensures
        list_view(r@) == list_view(v@),
{
    let mut r: Vec<String> = Vec::new();
    let mut i: usize = 0;
    while i < v.len()
        invariant
            i <= v@.len(),
            r@.len() == i,
            forall|k: int| 0 <= k < i ==> (#[trigger] r@[k])@ == v@[k]@,
        decreases v@.len() - i,
    {
        r.push(copy_string(&v[i]));
        i = i + 1;
    }
    assert(list_view(r@) =~= list_view(v@));
    r
}

/// Whether two lists of strings read the same.
fn same_strings(a: &Vec<String>, b: &Vec<String>) -> (r: bool)
    ensures
        r == (list_view(a@) == list_view(b@)),
{
    if a.len() != b.len() {
        assert(list_view(a@).len() != list_view(b@).len());
        return false;
    }
    let mut i: usize = 0;
    while i < a.len()
        invariant
            i <= a@.len() == b@.len(),
            forall|k: int| 0 <= k < i ==> a@[k]@ == b@[k]@,
        decreases a@.len() - i,
    {
        if !same(&chars_of(a[i].as_str()), &chars_of(b[i].as_str())) {
            assert(list_view(a@)[i as int] != list_view(b@)[i as int]);
            return false;
        }
        i = i + 1;
    }
    assert(list_view(a@) =~= list_view(b@));
    true
}

fn push_conflict(out: &mut Vec<String>, rel: &str, what: &str)
    ensures
        list_view(final(out)@) == list_view(old(out)@).push(conflict_text(rel@, what@)),
{
    let mut t = chars_of(rel);
    t.push(':');
    t.push(' ');
    extend(&mut t, &chars_of(what));
    extend(&mut t, &chars_of(" differs on both sides"));
    assert(t@ =~= conflict_text(rel@, what@));
    out.push(string_of(&t));
    assert(list_view(final(out)@) =~= list_view(old(out)@).push(conflict_text(rel@, what@)));
}

/// Apply a pulled photo's metadata with import-style caution.
///
/// A field still at the default an import leaves (rating 0, no flag, no
/// label, no tags, no stack) takes the pulled value; a field both sides set,
/// to different values, is named in `conflicts` — `<rel>: <field> differs on
/// both sides` — and left exactly as it is.
pub fn merge_photo_metadata(rel: &str, local: &LocalPhotoMeta, pulled: &PulledPhotoMeta) -> (r: MetadataMerge)
    ensures
        r.set_rating == rating_fill(*local, *pulled),
        r.set_flag == flag_fill(*local, *pulled),
        match r.set_color_label {
            Some(s) => label_fill(*local, *pulled) == Some(s@),
            None => label_fill(*local, *pulled) is None,
        },
        match r.set_tags {
            Some(t) => tags_fill(*local, *pulled) == Some(list_view(t@)),
            None => tags_fill(*local, *pulled) is None,
        },
        r.set_edits == edits_fill(*local, *pulled),
        list_view(r.conflicts@) == clashes(rel@, *local, *pulled),
{
    let mut conflicts: Vec<String> = Vec::new();
    let ghost s0 = list_view(conflicts@);
    assert(s0 =~= Seq::<Seq<char>>::empty());
    let mut set_rating: Option<u8> = None;
    if pulled.rating > 0 {
        if local.rating == 0 {
            set_rating = Some(pulled.rating);
        } else if local.rating != pulled.rating {
            push_conflict(&mut conflicts, rel, "rating");
        }
    }
    let ghost s1 = list_view(conflicts@);
    let flag = Flag::parse(pulled.flag.as_str());
    let mut set_flag: Option<Flag> = None;
    if flag != Flag::Unflagged {
        if local.flag == Flag::Unflagged {
            set_flag = Some(flag);
        } else if local.flag != flag {
            push_conflict(&mut conflicts, rel, "flag");
        }
    }
    let ghost s2 = list_view(conflicts@);
    let mut set_color_label: Option<String> = None;
    match &pulled.color_label {
        Some(label) => match &local.color_label {
            None => {
                set_color_label = Some(copy_string(label));
            },
            Some(mine) => {
                if !same(&chars_of(mine.as_str()), &chars_of(label.as_str())) {
                    push_conflict(&mut conflicts, rel, "color label");
                }
            },
        },
        None => {},
    }
    let ghost s3 = list_view(conflicts@);
    let mut set_tags: Option<Vec<String>> = None;
    if pulled.tags.len() > 0 {
        if local.tags.len() == 0 {
            set_tags = Some(copy_strings(&pulled.tags));
        } else if !same_strings(&local.tags, &pulled.tags) {
            push_conflict(&mut conflicts, rel, "tags");
        }
    }
    let ghost s4 = list_view(conflicts@);
    let mut set_edits = false;
    match pulled.edits {
        Some(e) => {
            if !local.has_edits {
                set_edits = !e.is_empty;
            } else if !e.same_as_local {
                push_conflict(&mut conflicts, rel, "develop stack");
            }
        },
        None => {},
    }
    proof {
        let (l, p) = (*local, *pulled);
        assert(s1 == push_if(s0, rating_clash(l, p), conflict_text(rel@, "rating"@)));
        assert(s2 == push_if(s1, flag_clash(l, p), conflict_text(rel@, "flag"@)));
        assert(s3 == push_if(s2, label_clash(l, p), conflict_text(rel@, "color label"@)));
        assert(s4 == push_if(s3, tags_clash(l, p), conflict_text(rel@, "tags"@)));
    }
    MetadataMerge { set_rating, set_flag, set_color_label, set_tags, set_edits, conflicts }
}

// ------------------------------------------------------------- originals

/// Why a photo is left out of the namespace because of its name.
pub open spec fn reserved_reason() -> Seq<char> {
    "'"@ + METADATA_FILENAME@ + "' is reserved for the metadata document"@
}

/// Why a photo is left out because another one already took its key.
pub open spec fn taken_reason(key: Seq<char>) -> Seq<char> {
    "another photo already publishes "@ + key + " in full scope"@
}

/// Whether a key is among the first components of `entries`.
pub open spec fn has_key(entries: Seq<(Seq<char>, Seq<char>, Seq<char>)>, key: Seq<char>) -> bool {
    exists|j: int| 0 <= j < entries.len() && (#[trigger] entries[j]).0 == key
}

/// The originals a set of albums publishes in full scope, from their photos
/// in membership order as `(album, rel_path, filename, content_hash)`:
/// `(key, content_hash, rel_path)` for each photo that takes a key, and
/// `(rel_path, reason)` for each that is left out. The first photo keeps a
/// filename; later ones with the same name in the same album are left out,
/// and so is a photo named like the metadata document.
pub open spec fn originals(items: Seq<(String, String, String, String)>) -> (
    Seq<(Seq<char>, Seq<char>, Seq<char>)>,
    Seq<(Seq<char>, Seq<char>)>,
)
    decreases items.len(),
{
    if items.len() == 0 {
        (Seq::empty(), Seq::empty())
    } else {
        let (e, d) = originals(items.drop_last());
        let it = items.last();
        let key = full_key_of(it.0@, it.2@);
        if it.2@ == METADATA_FILENAME@ {
            (e, d.push((it.1@, reserved_reason())))
        } else if has_key(e, key) {
            (e, d.push((it.1@, taken_reason(key))))
        } else {
            (e.push((key, it.3@, it.1@)), d)
        }
    }
}

/// The characters of each string in a list of triples.
pub open spec fn triples_view(v: Seq<(String, String, String)>) -> Seq<(Seq<char>, Seq<char>, Seq<char>)> {
    v.map_values(|t: (String, String, String)| (t.0@, t.1@, t.2@))
}

/// The characters of each string in a list of pairs.
pub open spec fn pairs_view(v: Seq<(String, String)>) -> Seq<(Seq<char>, Seq<char>)> {
    v.map_values(|t: (String, String)| (t.0@, t.1@))
}

/// What full scope publishes of a set of albums' originals.
pub struct FullOriginals {
    /// `(key, content_hash, rel_path)` per published original.
    pub entries: Vec<(String, String, String)>,
    /// `(rel_path, reason)` per photo left out.
    pub duplicates: Vec<(String, String)>,
}

fn key_taken(entries: &Vec<(String, String, String)>, key: &[char]) -> (r: bool)
    ensures
        r == has_key(triples_view(entries@), key@),
{
    let ghost tv = triples_view(entries@);
    let mut j: usize = 0;
    while j < entries.len()
        invariant
            j <= entries@.len(),
            tv == triples_view(entries@),
            forall|k: int| 0 <= k < j ==> tv[k].0 != key@,
        decreases entries@.len() - j,
    {
        let k = chars_of(entries[j].0.as_str());
        if same(&k, key) {
            assert(tv[j as int].0 == key@);
            return true;
        }
        j = j + 1;
    }
    false
}

/// The originals a set of albums publishes in full scope — see
/// [`originals`]; `members` is `(album, rel_path, filename, content_hash)`
/// for each album's photos in membership order, album after album.
pub fn full_originals(members: &[(String, String, String, String)]) -> (r: FullOriginals)
    ensures
        (triples_view(r.entries@), pairs_view(r.duplicates@)) == originals(members@),
{
    let mut entries: Vec<(String, String, String)> = Vec::new();
    let mut duplicates: Vec<(String, String)> = Vec::new();
    let mut i: usize = 0;
    assert(members@.take(0) =~= Seq::<(String, String, String, String)>::empty());
    while i < members.len()
        invariant
            i <= members@.len(),
            (triples_view(entries@), pairs_view(duplicates@)) == originals(members@.take(i as int)),
        decreases members@.len() - i,
    {
        let ghost e0 = triples_view(entries@);
        let ghost d0 = pairs_view(duplicates@);
        let album = &members[i].0;
        let rel = &members[i].1;
        let filename = &members[i].2;
        let hash = &members[i].3;
        let key = full_key(album.as_str(), filename.as_str());
        let kv = chars_of(key.as_str());
        let fv = chars_of(filename.as_str());
        let reserved = chars_of(METADATA_FILENAME);
        proof {
            assert(members@.take(i + 1).drop_last() =~= members@.take(i as int));
            assert(members@.take(i + 1).last() == members@[i as int]);
        }
        if same(&fv, &reserved) {
            let mut why = chars_of("'");
            extend(&mut why, &reserved);
            extend(&mut why, &chars_of("' is reserved for the metadata document"));
            let pair = (rel.clone(), string_of(&why));
            duplicates.push(pair);
            proof {
                assert(pairs_view(duplicates@) =~= d0.push((rel@, reserved_reason())));
            }
        } else if key_taken(&entries, &kv) {
            let mut why = chars_of("another photo already publishes ");
            extend(&mut why, &kv);
            extend(&mut why, &chars_of(" in full scope"));
            let pair = (rel.clone(), string_of(&why));
            duplicates.push(pair);
            proof {
                assert(pairs_view(duplicates@) =~= d0.push((rel@, taken_reason(key@))));
            }
        } else {
            let entry = (key, hash.clone(), rel.clone());
            entries.push(entry);
            proof {
                assert(triples_view(entries@) =~= e0.push((key@, hash@, rel@)));
            }
        }
        i = i + 1;
    }
    assert(members@.take(members@.len() as int) =~= members@);
    FullOriginals { entries, duplicates }
}

/// No two originals publish under one key, and every photo either takes a
/// key or is named among those left out.
pub proof fn lemma_originals_keys_distinct(items: Seq<(String, String, String, String)>)
    ensures
        ({
            let (e, d) = originals(items);
            &&& forall|a: int, b: int| 0 <= a < b < e.len() ==> e[a].0 != e[b].0
            &&& e.len() + d.len() == items.len()
        }),
    decreases items.len(),
{
    if items.len() > 0 {
        lemma_originals_keys_distinct(items.drop_last());
        let (e0, d0) = originals(items.drop_last());
        let it = items.last();
        let key = full_key_of(it.0@, it.2@);
        if it.2@ != METADATA_FILENAME@ && !has_key(e0, key) {
            let e = e0.push((key, it.3@, it.1@));
            assert forall|a: int, b: int| 0 <= a < b < e.len() implies e[a].0 != e[b].0 by {
                if b == e0.len() {
                    assert(e[a] == e0[a]);
                    if e0[a].0 == key {
                        assert(has_key(e0, key));
                    }
                } else {
                    assert(e[a] == e0[a] && e[b] == e0[b]);
                }
            }
        }
    }
}


/// A photo still unflagged here takes the flag pulled from the other device,
/// whichever flag that is — a reject as much as a pick — and a flag set here
/// is never replaced.
pub proof fn lemma_unflagged_takes_pulled_flag(l: LocalPhotoMeta, r: PulledPhotoMeta)
    ensures
        flag_of(r.flag@) != Flag::Unflagged && l.flag == Flag::Unflagged ==> flag_fill(l, r) == Some(
            flag_of(r.flag@),
        ),
        r.flag@ == "reject"@ && l.flag == Flag::Unflagged ==> flag_fill(l, r) == Some(Flag::Reject),
        r.flag@ == "pick"@ && l.flag == Flag::Unflagged ==> flag_fill(l, r) == Some(Flag::Pick),
        l.flag != Flag::Unflagged ==> flag_fill(l, r) is None,
        flag_of(r.flag@) == Flag::Unflagged ==> flag_fill(l, r) is None,
{
    reveal_strlit("reject");
    reveal_strlit("pick");
    assert("reject"@ != "pick"@) by {
        assert("reject"@[0] != "pick"@[0]);
    }
}


/// Every field still at its default here takes the value pulled from the
/// other device: a rating for an unrated photo, a label for an unlabelled
/// one, the tags for an untagged one, a non-empty stack for an undeveloped
/// one. Where both sides hold different values, the field is a conflict.
pub proof fn lemma_defaults_take_pulled_values(l: LocalPhotoMeta, r: PulledPhotoMeta)
    ensures
        r.rating > 0 && l.rating == 0 ==> rating_fill(l, r) == Some(r.rating),
        r.rating == 0 ==> rating_fill(l, r) is None && !rating_clash(l, r),
        r.color_label matches Some(lab) ==> (l.color_label is None ==> label_fill(l, r) == Some(lab@)),
        r.tags@.len() > 0 && l.tags@.len() == 0 ==> tags_fill(l, r) == Some(list_view(r.tags@)),
        (r.edits matches Some(e) && !e.is_empty && !l.has_edits) ==> edits_fill(l, r),
        (r.rating > 0 && l.rating > 0 && l.rating != r.rating) ==> rating_clash(l, r),
        (flag_of(r.flag@) != Flag::Unflagged && l.flag != Flag::Unflagged && l.flag != flag_of(r.flag@))
            ==> flag_clash(l, r),
        (r.color_label matches Some(lab) && l.color_label matches Some(loc) && loc@ != lab@) ==> label_clash(l, r),
        (r.tags@.len() > 0 && l.tags@.len() > 0 && list_view(l.tags@) != list_view(r.tags@)) ==> tags_clash(l, r),
        (r.edits matches Some(e) && l.has_edits && !e.same_as_local) ==> edits_clash(l, r),
{
}

} // verus!

