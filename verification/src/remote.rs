//! Album-level operations against a remote: which albums a path reaches, in
//! which order they are visited, and what a transfer reports.
//!
//! A path is worked on whole — the folders above it, the album or collection
//! itself, and everything under it — because an album without its folders is
//! unreachable in the gallery. Parents always go first ([`shallowest_first`]):
//! a child album created before its parent collection would leave the gallery
//! unable to navigate to it.
//!
//! A pull only ever adds: the file under the library root is the negative,
//! and there is no second copy of it anywhere.

use vstd::prelude::*;

use crate::full::{direct_child, is_direct_child_of};
use crate::order::{int_order, is_order, lemma_text_order, text_order, compare_text};
use crate::albums::{AlbumUpdate, NewAlbum};
use crate::model::Album;
use crate::publish::{list_view, published_filename, published_name, ParsedFrontmatter};
use crate::sync::{Action, SyncDirection, SyncScopeKind};
use crate::text::{
    begins, chars_of, count, count_of, extend, join, lemma_count_add, same, split, split_on, starts_with,
    string_of, views,
};

verus! {

/// One album seen from this machine: where it exists, and how it syncs.
#[derive(Debug, Clone)]
pub struct RemoteAlbum {
    /// Gallery path, e.g. `2026/weddings/ana-ivan`. Identical on both sides —
    /// the only thing that identifies a local album and a remote one as the
    /// same album.
    pub path: String,
    /// Read out of the remote `index.md`; `None` when that could not be read.
    pub title: Option<String>,
    /// Files under this album on the server (0 when it is local-only).
    pub file_count: usize,
    /// Whether this machine already has the album in its catalog.
    pub local: bool,
    /// Whether the server holds this album at all.
    pub remote: bool,
    /// Whether this machine syncs it, and in which direction.
    pub tracking: Option<SyncDirection>,
    /// A folder that holds sub-albums rather than photos.
    pub is_collection: bool,
    /// How deep the path sits, for indentation.
    pub depth: usize,
}

/// What a pull produced.
#[derive(Debug, Clone, Default)]
pub struct PullOutcome {
    /// The path that was asked for; `albums` is everything it touched.
    pub album_path: String,
    /// Files taken from the server.
    pub files_pulled: usize,
    /// Photos the catalog took in, new plus re-hashed.
    pub photos_imported: usize,
    /// Paths with nothing to move.
    pub skipped_unchanged: usize,
    /// Photos that moved on both sides since the baseline; left as they are.
    pub conflicts: Vec<String>,
    /// Photos the server had a different version of, where this library
    /// already holds an original. The original was left exactly as it was.
    pub kept_originals: Vec<String>,
    /// Paths the server offered that this machine would not write.
    pub rejected: Vec<String>,
    /// Metadata fields a full-scope pull found changed on both sides.
    pub metadata_conflicts: Vec<String>,
    /// Work this pull could not do, named with the reason.
    pub failed: Vec<(String, String)>,
    /// Every album this operation touched, shallowest first.
    pub albums: Vec<String>,
}

/// What a push produced.
#[derive(Debug, Clone, Default)]
pub struct PushOutcome {
    /// The path that was asked for. `albums` names everything it reached.
    pub album_path: String,
    /// Files that reached the server.
    pub files_pushed: usize,
    /// Files removed from the server — only with `allow_deletes`.
    pub deleted_remote: usize,
    /// Server files this push left in place because deletions weren't allowed.
    pub withheld_deletes: Vec<String>,
    /// Paths that diverged. Nothing was uploaded for them.
    pub conflicts: Vec<String>,
    /// Changes the push direction excluded.
    pub skipped: usize,
    /// Files that never reached the server, with the reason.
    pub failed: Vec<(String, String)>,
    /// Every album this operation touched, shallowest first.
    pub albums: Vec<String>,
    /// Parent folders the server already had, configured differently.
    pub folders_left_alone: Vec<String>,
}

/// What a push into another library's tree produced.
#[derive(Debug, Clone, Default)]
pub struct ForeignPushOutcome {
    /// Files written.
    pub files_pushed: usize,
    /// Paths that diverged and were left alone.
    pub conflicts: Vec<String>,
    /// Files that could not be written, with the reason.
    pub failed: Vec<(String, String)>,
    /// Every album the push reached, shallowest first.
    pub albums: Vec<String>,
}

// -------------------------------------------------------------- ancestry

/// The non-empty pieces, in order.
pub open spec fn kept_segments(parts: Seq<Seq<char>>) -> Seq<Seq<char>>
    decreases parts.len(),
{
    if parts.len() == 0 {
        Seq::<Seq<char>>::empty()
    } else {
        let k = kept_segments(parts.drop_last());
        if parts.last().len() > 0 {
            k.push(parts.last())
        } else {
            k
        }
    }
}

/// The folder paths above `path`, shallowest first: the first `d` non-empty
/// segments joined by `/`, for each `d` short of all of them.
pub open spec fn ancestors(path: Seq<char>) -> Seq<Seq<char>> {
    let segs = kept_segments(split(path, '/'));
    Seq::new(
        if segs.len() > 0 {
            (segs.len() - 1) as nat
        } else {
            0nat
        },
        |d: int| join(segs.take(d + 1), seq!['/']),
    )
}

/// Folder paths above `path`, shallowest first. `2026/weddings/ana` yields
/// `["2026", "2026/weddings"]`.
pub fn ancestors_of(path: &str) -> (r: Vec<String>)
    ensures
        list_view(r@) == ancestors(path@),
{
    let v = chars_of(path);
    let pieces = split_on(&v, '/');
    let ghost pv = views(pieces@);
    let mut segs: Vec<Vec<char>> = Vec::new();
    let mut i: usize = 0;
    assert(pv.take(0) =~= Seq::<Seq<char>>::empty());
    while i < pieces.len()
        invariant
            i <= pieces@.len(),
            pv == views(pieces@),
            views(segs@) == kept_segments(pv.take(i as int)),
        decreases pieces@.len() - i,
    {
        let ghost s0 = segs@;
        proof {
            let t = pv.take(i + 1);
            assert(t.drop_last() =~= pv.take(i as int));
            assert(t.last() == pieces@[i as int]@);
        }
        if pieces[i].len() > 0 {
            let p = crate::text::slice_of(&pieces[i], 0, pieces[i].len());
            segs.push(p);
            proof {
                assert(p@ =~= pieces@[i as int]@);
                assert(views(segs@) =~= views(s0).push(p@));
            }
        }
        i = i + 1;
    }
    assert(pv.take(pieces@.len() as int) =~= pv);
    let ghost sv = views(segs@);
    let mut out: Vec<String> = Vec::new();
    if segs.len() == 0 {
        assert(list_view(out@) =~= ancestors(path@));
        return out;
    }
    let mut prefix = crate::text::slice_of(&segs[0], 0, segs[0].len());
    let mut d: usize = 1;
    proof {
        assert(sv.take(1) =~= seq![sv[0]]);
        assert(prefix@ =~= join(sv.take(1), seq!['/']));
    }
    while d < segs.len()
        invariant
            1 <= d <= segs@.len(),
            sv == views(segs@),
            prefix@ == join(sv.take(d as int), seq!['/']),
            out@.len() == d - 1,
            forall|k: int| 0 <= k < d - 1 ==> (#[trigger] out@[k])@ == join(sv.take(k + 1), seq!['/']),
        decreases segs@.len() - d,
    {
        out.push(string_of(&prefix));
        prefix.push('/');
        extend(&mut prefix, &segs[d]);
        proof {
            let t = sv.take(d + 1);
            assert(t.drop_last() =~= sv.take(d as int));
            assert(t.last() == segs@[d as int]@);
            assert(prefix@ =~= join(t, seq!['/']));
        }
        d = d + 1;
    }
    assert(list_view(out@) =~= ancestors(path@));
    out
}

/// `candidate` is `path` itself or lives under it.
pub open spec fn under(path: Seq<char>, candidate: Seq<char>) -> bool {
    candidate == path || starts_with(candidate, path + seq!['/'])
}

/// True when `candidate` is `path` itself or lives under it.
pub fn at_or_under(path: &str, candidate: &str) -> (r: bool)
    ensures
        r == under(path@, candidate@),
{
    let p = chars_of(path);
    let c = chars_of(candidate);
    if same(&c, &p) {
        return true;
    }
    let mut ps = chars_of(path);
    ps.push('/');
    assert(ps@ =~= path@ + seq!['/']);
    begins(&c, &ps)
}

/// Whether a pull of `album_path` may make the published bytes this
/// library's copy of a photo it does not hold: only a web-scope pass, and only
/// where no full-scope subscription covers the album — its own or an
/// ancestor's. Decided from the subscriptions, not from the pass order, so no
/// ordering of passes can let the gallery's developed pixels stand in for an
/// original.
pub fn may_adopt_media(scope: SyncScopeKind, full_roots: &[String], album_path: &str) -> (r: bool)
    ensures
        r == (scope == SyncScopeKind::Web && !exists|k: int|
            0 <= k < full_roots@.len() && under(#[trigger] full_roots@[k]@, album_path@)),
{
    if scope != SyncScopeKind::Web {
        return false;
    }
    let mut i: usize = 0;
    while i < full_roots.len()
        invariant
            i <= full_roots@.len(),
            forall|k: int| 0 <= k < i ==> !under(#[trigger] full_roots@[k]@, album_path@),
        decreases full_roots@.len() - i,
    {
        if at_or_under(full_roots[i].as_str(), album_path) {
            return false;
        }
        i = i + 1;
    }
    true
}

/// File conflicts and metadata conflicts, one list for the outcome shape
/// that only has one: the file conflicts first.
pub fn merged_conflicts(conflicts: Vec<String>, metadata: Vec<String>) -> (r: Vec<String>)
    ensures
        r@ == conflicts@ + metadata@,
{
    let mut out = conflicts;
    let mut extra = metadata;
    out.append(&mut extra);
    out
}

/// True when `file` sits directly inside `album_path`, not in a sub-album.
pub fn is_direct_child(album_path: &str, file: &str) -> (r: bool)
    ensures
        r == direct_child(album_path@, file@),
{
    is_direct_child_of(album_path, file)
}

// ------------------------------------------------------------------ order

/// How deep a path sits: the number of `/` in it.
pub open spec fn depth(p: Seq<char>) -> int {
    count(p, '/') as int
}

/// Shallower paths first; paths of one depth by text.
pub open spec fn depth_order(a: Seq<char>, b: Seq<char>) -> int {
    if depth(a) != depth(b) {
        int_order(depth(a), depth(b))
    } else {
        text_order(a, b)
    }
}

/// Depth order is a strict total order.
pub proof fn lemma_depth_order()
    ensures
        is_order(|a: Seq<char>, b: Seq<char>| depth_order(a, b)),
{
    lemma_text_order();
    let t = |a: Seq<char>, b: Seq<char>| text_order(a, b);
    assert forall|a: Seq<char>, b: Seq<char>| -1 <= #[trigger] depth_order(a, b) <= 1 by {
        assert(-1 <= t(a, b) <= 1);
    }
    assert forall|a: Seq<char>, b: Seq<char>| (#[trigger] depth_order(a, b) == 0) == (a == b) by {
        assert((t(a, b) == 0) == (a == b));
    }
    assert forall|a: Seq<char>, b: Seq<char>| #[trigger] depth_order(b, a) == -depth_order(a, b) by {
        assert(t(b, a) == -t(a, b));
    }
    assert forall|a: Seq<char>, b: Seq<char>, c: Seq<char>|
        #[trigger] depth_order(a, b) < 0 && #[trigger] depth_order(b, c) < 0 implies depth_order(
        a,
        c,
    ) < 0 by {
        assert(t(a, b) < 0 && t(b, c) < 0 ==> t(a, c) < 0);
    }
}

fn compare_depth(a: &[char], da: usize, b: &[char], db: usize) -> (r: i8)
    requires
        da == depth(a@),
        db == depth(b@),
    ensures
        r as int == depth_order(a@, b@),
{
    if da < db {
        -1
    } else if da > db {
        1
    } else {
        compare_text(a, b)
    }
}

/// Sort album paths so a parent always comes before its children: by the
/// number of `/`, then by text.
pub fn shallowest_first(paths: &mut Vec<String>)
    ensures
        final(paths)@.to_multiset() == old(paths)@.to_multiset(),
        forall|i: int, j: int|
            0 <= i < j < final(paths)@.len() ==> depth_order(
                (#[trigger] final(paths)@[i])@,
                (#[trigger] final(paths)@[j])@,
            ) <= 0,
{
    broadcast use vstd::seq_lib::group_to_multiset_ensures;

    proof {
        lemma_depth_order();
    }
    let ghost orig = paths@;
    let ghost po = |a: Seq<char>, b: Seq<char>| depth_order(a, b);
    let mut out: Vec<String> = Vec::new();
    let mut keys: Vec<(Vec<char>, usize)> = Vec::new();
    while paths.len() > 0
        invariant
            po == (|a: Seq<char>, b: Seq<char>| depth_order(a, b)),
            is_order(po),
            out@.to_multiset().add(paths@.to_multiset()) == orig.to_multiset(),
            keys@.len() == out@.len(),
            forall|k: int|
                0 <= k < out@.len() ==> (#[trigger] keys@[k]).0@ == out@[k]@ && keys@[k].1
                    == depth(out@[k]@),
            forall|a: int, b: int|
                0 <= a < b < out@.len() ==> depth_order(
                    (#[trigger] out@[a])@,
                    (#[trigger] out@[b])@,
                ) <= 0,
        decreases paths@.len(),
    {
        let ghost rest0 = paths@;
        let ghost out0 = out@;
        let ghost keys0 = keys@;
        let x = paths.remove(0);
        proof {
            assert(rest0[0] == x);
            vstd::seq_lib::to_multiset_remove(rest0, 0);
        }
        let xc = chars_of(x.as_str());
        let xd = count_of(&xc, '/');
        let mut q: usize = 0;
        let mut searching = true;
        while searching && q < out.len()
            invariant
                q <= out@.len() == keys@.len(),
                out@ == out0,
                keys@ == keys0,
                xc@ == x@,
                xd == depth(x@),
                forall|k: int|
                    0 <= k < out@.len() ==> (#[trigger] keys@[k]).0@ == out@[k]@ && keys@[k].1
                        == depth(out@[k]@),
                forall|k: int| 0 <= k < q ==> depth_order(x@, (#[trigger] out@[k])@) >= 0,
                !searching ==> q < out@.len() && depth_order(x@, out0[q as int]@) < 0,
            decreases out@.len() - q + (if searching {
                1int
            } else {
                0int
            }),
        {
            let c = compare_depth(&xc, xd, &keys[q].0, keys[q].1);
            if c < 0 {
                searching = false;
            } else {
                q = q + 1;
            }
        }
        out.insert(q, x);
        keys.insert(q, (xc, xd));
        proof {
            let nw = out@;
            assert(nw =~= out0.insert(q as int, x));
            out0.insert_ensures(q as int, x);
            keys0.insert_ensures(q as int, (xc, xd));
            vstd::seq_lib::to_multiset_insert(out0, q as int, x);
            assert(rest0.contains(x));
            vstd::seq_lib::to_multiset_contains(rest0, x);
            assert(rest0.to_multiset().count(x) > 0);
            assert(out@.to_multiset() == out0.to_multiset().insert(x));
            assert(paths@.to_multiset() == rest0.to_multiset().remove(x));
            assert(out@.to_multiset().add(paths@.to_multiset()) =~= orig.to_multiset()) by {
                broadcast use vstd::multiset::group_multiset_axioms;
            }
            assert forall|k: int| 0 <= k < nw.len() implies (#[trigger] keys@[k]).0@ == nw[k]@
                && keys@[k].1 == depth(nw[k]@) by {
                if k < q {
                    assert(keys@[k] == keys0[k]);
                } else if k > q {
                    assert(keys@[k] == keys0[k - 1]);
                    assert(nw[k] == out0[k - 1]);
                }
            }
            assert forall|k: int| q <= k < out0.len() implies po(x@, (#[trigger] out0[k])@) < 0 by {
                if k > q {
                    assert(po(out0[q as int]@, out0[k]@) <= 0);
                    if po(out0[q as int]@, out0[k]@) == 0 {
                        assert(out0[q as int]@ == out0[k]@);
                    } else {
                        assert(po(x@, out0[q as int]@) < 0 && po(out0[q as int]@, out0[k]@) < 0);
                    }
                }
            }
            assert forall|a: int, b: int| 0 <= a < b < nw.len() implies po(
                (#[trigger] nw[a])@,
                (#[trigger] nw[b])@,
            ) <= 0 by {
                if b < q {
                    assert(nw[a] == out0[a] && nw[b] == out0[b]);
                    assert(po(out0[a]@, out0[b]@) <= 0);
                } else if b == q {
                    assert(nw[a] == out0[a]);
                    assert(po(x@, out0[a]@) >= 0);
                    assert(po(out0[a]@, x@) == -po(x@, out0[a]@));
                } else if a == q {
                    assert(nw[b] == out0[b - 1]);
                    assert(po(x@, out0[b - 1]@) < 0);
                } else if a < q {
                    assert(nw[a] == out0[a] && nw[b] == out0[b - 1]);
                    assert(po(out0[a]@, out0[b - 1]@) <= 0);
                } else {
                    assert(nw[a] == out0[a - 1] && nw[b] == out0[b - 1]);
                    assert(po(out0[a - 1]@, out0[b - 1]@) <= 0);
                }
            }
        }
    }
    proof {
        assert(paths@ =~= Seq::<String>::empty());
        assert(out@.to_multiset().add(paths@.to_multiset()) =~= out@.to_multiset());
    }
    *paths = out;
}

/// In a list ordered shallowest first, a path comes before every path under
/// it — the order in which a pull creates albums, so that no child exists
/// before its collection.
pub proof fn lemma_parent_before_child(paths: Seq<String>, i: int, j: int)
    requires
        forall|a: int, b: int|
            0 <= a < b < paths.len() ==> depth_order(
                (#[trigger] paths[a])@,
                (#[trigger] paths[b])@,
            ) <= 0,
        0 <= i < paths.len(),
        0 <= j < paths.len(),
        starts_with(paths[j]@, paths[i]@ + seq!['/']),
    ensures
        i < j,
{
    let p = paths[i]@;
    let q = paths[j]@;
    let pre = p + seq!['/'];
    let rest = q.skip(pre.len() as int);
    assert(q =~= pre + rest);
    lemma_count_add(pre, rest, '/');
    lemma_count_add(p, seq!['/'], '/');
    assert(count(seq!['/'], '/') == 1) by {
        let one = seq!['/'];
        assert(one.drop_last() =~= Seq::<char>::empty());
        assert(one.last() == '/');
        assert(count(Seq::<char>::empty(), '/') == 0);
        assert(count(one, '/') == count(one.drop_last(), '/') + 1);
    }
    assert(depth(q) > depth(p));
    if j < i {
        assert(depth_order(paths[j]@, paths[i]@) <= 0);
    }
}

// ------------------------------------------------------------ adopting

/// The album a pull creates when the library has none at `album_path`: the
/// server's title, description, date and kind where its frontmatter was read,
/// defaults where it was not.
pub fn adopted_album(album_path: &str, parsed: Option<&ParsedFrontmatter>) -> (r: NewAlbum)
    ensures
        r.path@ == album_path@,
        match parsed {
            Some(p) => r.title == p.title && r.description == p.description && r.date == p.date
                && r.is_collection == p.is_collection,
            None => r.title is None && r.description is None && r.date is None && !r.is_collection,
        },
{
    match parsed {
        Some(p) => NewAlbum {
            path: album_path.to_string(),
            title: p.title.clone(),
            description: p.description.clone(),
            date: p.date.clone(),
            is_collection: p.is_collection,
        },
        None => NewAlbum {
            path: album_path.to_string(),
            title: None,
            description: None,
            date: None,
            is_collection: false,
        },
    }
}

/// The update a pull applies from the server's frontmatter: every setting the
/// gallery publishes is adopted, the server's own album id included, since
/// that is what a client's access cookie names. Optional settings the
/// frontmatter lacks are cleared rather than kept; a title, token, sort or
/// style it lacks keeps the local one. The cover and the prose are left
/// alone.
pub fn adopted_update(parsed: &ParsedFrontmatter) -> (r: AlbumUpdate)
    ensures
        r.title == parsed.title,
        r.token == parsed.token,
        r.description == Some(parsed.description),
        r.date == Some(parsed.date),
        r.password == Some(parsed.password),
        r.share_token == Some(parsed.share_token),
        r.sort == parsed.sort,
        r.style == parsed.style,
        r.cover_photo_id is None,
        r.is_collection == Some(parsed.is_collection),
        r.hidden == Some(parsed.hidden),
        r.allow_download == Some(parsed.allow_download),
        r.proofing == Some(parsed.proofing),
        r.sort_order == Some(parsed.order),
        r.body is None,
        r.tags matches Some(t) && t@ == parsed.tags@,
{
    AlbumUpdate {
        title: parsed.title.clone(),
        token: parsed.token.clone(),
        description: Some(parsed.description.clone()),
        date: Some(parsed.date.clone()),
        password: Some(parsed.password.clone()),
        share_token: Some(parsed.share_token.clone()),
        sort: parsed.sort.clone(),
        style: parsed.style.clone(),
        cover_photo_id: None,
        is_collection: Some(parsed.is_collection),
        hidden: Some(parsed.hidden),
        allow_download: Some(parsed.allow_download),
        proofing: Some(parsed.proofing),
        sort_order: Some(parsed.order),
        body: None,
        tags: Some(copy_names(&parsed.tags)),
    }
}

fn copy_names(v: &Vec<String>) -> (r: Vec<String>)
    ensures
        r@ == v@,
{
    let mut r: Vec<String> = Vec::new();
    let mut i: usize = 0;
    while i < v.len()
        invariant
            i <= v@.len(),
            r@ == v@.take(i as int),
        decreases v@.len() - i,
    {
        r.push(v[i].clone());
        assert(v@.take(i as int).push(v@[i as int]) =~= v@.take(i + 1));
        i = i + 1;
    }
    assert(v@.take(v@.len() as int) =~= v@);
    r
}

/// The first of an album's own photos — `(id, filename)` — that a name from
/// the server's `photoOrder` stands for: by the name it is published under,
/// or by its own filename for orders written before HEIC frames were renamed.
pub open spec fn named_photo(own: Seq<(i64, String)>, name: Seq<char>) -> Option<i64>
    decreases own.len(),
{
    if own.len() == 0 {
        None
    } else if published_name(own[0].1@) == name || own[0].1@ == name {
        Some(own[0].0)
    } else {
        named_photo(own.drop_first(), name)
    }
}

/// The ids a server's `photoOrder` puts first, in its order; names that
/// match no photo of the album are passed over.
pub open spec fn ordered_ids(own: Seq<(i64, String)>, names: Seq<Seq<char>>) -> Seq<i64> {
    names.filter_map(|n: Seq<char>| named_photo(own, n))
}

fn find_named(own: &[(i64, String)], name: &String) -> (r: Option<i64>)
    ensures
        r == named_photo(own@, name@),
{
    let n = chars_of(name.as_str());
    let mut i: usize = 0;
    assert(own@.skip(0) =~= own@);
    while i < own.len()
        invariant
            i <= own@.len(),
            n@ == name@,
            named_photo(own@.skip(i as int), name@) == named_photo(own@, name@),
        decreases own@.len() - i,
    {
        let published = published_filename(own[i].1.as_str());
        let p = chars_of(published.as_str());
        let f = chars_of(own[i].1.as_str());
        proof {
            assert(own@.skip(i as int)[0] == own@[i as int]);
            assert(own@.skip(i as int).drop_first() =~= own@.skip(i + 1));
        }
        if same(&p, &n) || same(&f, &n) {
            return Some(own[i].0);
        }
        i = i + 1;
    }
    None
}

/// The photo ids a pull orders an album by, from the server's `photoOrder`
/// and the album's own photos as `(id, filename)`.
pub fn photo_order_ids(own: &[(i64, String)], names: &[String]) -> (r: Vec<i64>)
    ensures
        r@ == ordered_ids(own@, list_view(names@)),
{
    let ghost pick = |n: Seq<char>| named_photo(own@, n);
    let mut r: Vec<i64> = Vec::new();
    let mut i: usize = 0;
    assert(list_view(names@).take(0).filter_map(pick) =~= Seq::<i64>::empty());
    while i < names.len()
        invariant
            i <= names@.len(),
            pick == (|n: Seq<char>| named_photo(own@, n)),
            r@ == list_view(names@).take(i as int).filter_map(pick),
        decreases names@.len() - i,
    {
        let found = find_named(own, &names[i]);
        proof {
            assert(list_view(names@).take(i + 1).drop_last() =~= list_view(names@).take(i as int));
            assert(list_view(names@).take(i + 1).last() == names@[i as int]@);
        }
        if let Some(id) = found {
            r.push(id);
        }
        i = i + 1;
    }
    assert(list_view(names@).take(names@.len() as int) =~= list_view(names@));
    r
}

// ---------------------------------------------------------------- listing

/// The direction this machine syncs `path` in, from its subscriptions as
/// `(album_path, direction)` — the first that names the path.
pub open spec fn tracking_in(subs: Seq<(String, SyncDirection)>, path: Seq<char>) -> Option<SyncDirection>
    decreases subs.len(),
{
    if subs.len() == 0 {
        None
    } else if subs[0].0@ == path {
        Some(subs[0].1)
    } else {
        tracking_in(subs.drop_first(), path)
    }
}

/// How this machine syncs `path`, if it does.
pub fn tracking_of(subs: &[(String, SyncDirection)], path: &str) -> (r: Option<SyncDirection>)
    ensures
        r == tracking_in(subs@, path@),
{
    let p = chars_of(path);
    let mut i: usize = 0;
    assert(subs@.skip(0) =~= subs@);
    while i < subs.len()
        invariant
            i <= subs@.len(),
            p@ == path@,
            tracking_in(subs@.skip(i as int), path@) == tracking_in(subs@, path@),
        decreases subs@.len() - i,
    {
        let s = chars_of(subs[i].0.as_str());
        proof {
            assert(subs@.skip(i as int)[0] == subs@[i as int]);
            assert(subs@.skip(i as int).drop_first() =~= subs@.skip(i + 1));
        }
        if same(&s, &p) {
            return Some(subs[i].1);
        }
        i = i + 1;
    }
    None
}

/// An album the server holds, as the picker lists it: its title and kind as
/// the server's `index.md` gives them (`None` when that could not be read).
pub fn server_entry(
    path: &str,
    file_count: usize,
    parsed: Option<&ParsedFrontmatter>,
    local: bool,
    tracking: Option<SyncDirection>,
) -> (r: RemoteAlbum)
    ensures
        r.path@ == path@,
        r.title == match parsed {
            Some(p) => p.title,
            None => None,
        },
        r.file_count == file_count,
        r.local == local,
        r.remote,
        r.tracking == tracking,
        r.is_collection == (parsed matches Some(p) && p.is_collection),
        r.depth == depth(path@),
{
    let v = chars_of(path);
    let d = count_of(&v, '/');
    RemoteAlbum {
        path: path.to_string(),
        title: match parsed {
            Some(p) => p.title.clone(),
            None => None,
        },
        file_count,
        local,
        remote: true,
        tracking,
        is_collection: match parsed {
            Some(p) => p.is_collection,
            None => false,
        },
        depth: d,
    }
}

/// An album only this machine has, as the picker lists it.
pub fn local_entry(album: &Album, tracking: Option<SyncDirection>) -> (r: RemoteAlbum)
    ensures
        r.path == album.path,
        r.title == Some(album.title),
        r.file_count == 0,
        r.local,
        !r.remote,
        r.tracking == tracking,
        r.is_collection == album.is_collection,
        r.depth == depth(album.path@),
{
    let v = chars_of(album.path.as_str());
    let d = count_of(&v, '/');
    RemoteAlbum {
        path: album.path.clone(),
        title: Some(album.title.clone()),
        file_count: 0,
        local: true,
        remote: false,
        tracking,
        is_collection: album.is_collection,
        depth: d,
    }
}

/// Sorted by path, as text.
pub open spec fn by_path(v: Seq<RemoteAlbum>) -> bool {
    forall|i: int, j: int|
        0 <= i < j < v.len() ==> text_order((#[trigger] v[i]).path@, (#[trigger] v[j]).path@) <= 0
}

/// Whether some entry of `v` has this path.
pub open spec fn lists_path(v: Seq<RemoteAlbum>, path: Seq<char>) -> bool {
    exists|i: int| 0 <= i < v.len() && (#[trigger] v[i]).path@ == path
}

fn path_listed(v: &Vec<RemoteAlbum>, path: &[char]) -> (r: bool)
    ensures
        r == lists_path(v@, path@),
{
    let mut i: usize = 0;
    while i < v.len()
        invariant
            i <= v@.len(),
            forall|k: int| 0 <= k < i ==> v@[k].path@ != path@,
        decreases v@.len() - i,
    {
        let p = chars_of(v[i].path.as_str());
        if same(&p, path) {
            return true;
        }
        i = i + 1;
    }
    false
}

/// Insert `x` into `out`, kept sorted by path, after every entry whose path
/// is not above it.
fn insert_by_path(out: &mut Vec<RemoteAlbum>, x: RemoteAlbum)
    requires
        by_path(old(out)@),
    ensures
        by_path(final(out)@),
        final(out)@.to_multiset() == old(out)@.to_multiset().insert(x),
{
    broadcast use vstd::seq_lib::group_to_multiset_ensures;

    proof {
        lemma_text_order();
    }
    let ghost t = |a: Seq<char>, b: Seq<char>| text_order(a, b);
    let ghost out0 = out@;
    let xc = chars_of(x.path.as_str());
    let mut q: usize = 0;
    let mut searching = true;
    while searching && q < out.len()
        invariant
            q <= out@.len(),
            out@ == out0,
            xc@ == x.path@,
            forall|k: int| 0 <= k < q ==> text_order(x.path@, (#[trigger] out@[k]).path@) >= 0,
            !searching ==> q < out@.len() && text_order(x.path@, out0[q as int].path@) < 0,
        decreases out@.len() - q + (if searching {
            1int
        } else {
            0int
        }),
    {
        let pc = chars_of(out[q].path.as_str());
        if compare_text(&xc, &pc) < 0 {
            searching = false;
        } else {
            q = q + 1;
        }
    }
    out.insert(q, x);
    proof {
        let nw = out@;
        assert(nw =~= out0.insert(q as int, x));
        out0.insert_ensures(q as int, x);
        vstd::seq_lib::to_multiset_insert(out0, q as int, x);
        assert forall|k: int| q <= k < out0.len() implies t(x.path@, (#[trigger] out0[k]).path@) < 0 by {
            if k > q {
                assert(t(out0[q as int].path@, out0[k].path@) <= 0);
                if t(out0[q as int].path@, out0[k].path@) == 0 {
                    assert(out0[q as int].path@ == out0[k].path@);
                } else {
                    assert(t(x.path@, out0[q as int].path@) < 0 && t(
                        out0[q as int].path@,
                        out0[k].path@,
                    ) < 0);
                }
            }
        }
        assert forall|a: int, b: int| 0 <= a < b < nw.len() implies t(
            (#[trigger] nw[a]).path@,
            (#[trigger] nw[b]).path@,
        ) <= 0 by {
            if b < q {
                assert(nw[a] == out0[a] && nw[b] == out0[b]);
                assert(t(out0[a].path@, out0[b].path@) <= 0);
            } else if b == q {
                assert(nw[a] == out0[a]);
                assert(t(x.path@, out0[a].path@) >= 0);
                assert(t(out0[a].path@, x.path@) == -t(x.path@, out0[a].path@));
            } else if a == q {
                assert(nw[b] == out0[b - 1]);
                assert(t(x.path@, out0[b - 1].path@) < 0);
            } else if a < q {
                assert(nw[a] == out0[a] && nw[b] == out0[b - 1]);
                assert(t(out0[a].path@, out0[b - 1].path@) <= 0);
            } else {
                assert(nw[a] == out0[a - 1] && nw[b] == out0[b - 1]);
                assert(t(out0[a - 1].path@, out0[b - 1].path@) <= 0);
            }
        }
    }
}

/// The albums a local-only entry adds: those whose path the server list does
/// not hold.
pub open spec fn local_only(server: Seq<RemoteAlbum>, local: Seq<RemoteAlbum>) -> Seq<RemoteAlbum> {
    local.filter(|a: RemoteAlbum| !lists_path(server, a.path@))
}

/// Every album this machine could sync, from either side, sorted by path: the
/// server's albums, and those of this machine's albums the server does not
/// hold. An album on both sides appears once, as the server lists it.
pub fn album_listing(server: Vec<RemoteAlbum>, local: Vec<RemoteAlbum>) -> (r: Vec<RemoteAlbum>)
    ensures
        by_path(r@),
        r@.to_multiset() == (server@ + local_only(server@, local@)).to_multiset(),
{
    broadcast use vstd::seq_lib::group_to_multiset_ensures;

    let ghost srv = server@;
    let ghost keep = |a: RemoteAlbum| !lists_path(srv, a.path@);
    let mut wanted: Vec<RemoteAlbum> = Vec::new();
    let mut i: usize = 0;
    assert(local@.take(0).filter(keep) =~= Seq::<RemoteAlbum>::empty()) by {
        reveal(Seq::filter);
    }
    while i < local.len()
        invariant
            i <= local@.len(),
            srv == server@,
            keep == (|a: RemoteAlbum| !lists_path(srv, a.path@)),
            wanted@ == local@.take(i as int).filter(keep),
        decreases local@.len() - i,
    {
        let pc = chars_of(local[i].path.as_str());
        let present = path_listed(&server, &pc);
        proof {
            reveal(Seq::filter);
            assert(local@.take(i + 1).drop_last() =~= local@.take(i as int));
            assert(local@.take(i + 1).last() == local@[i as int]);
        }
        if !present {
            wanted.push(copy_entry(&local[i]));
        }
        i = i + 1;
    }
    assert(local@.take(local@.len() as int) =~= local@);
    let mut out: Vec<RemoteAlbum> = Vec::new();
    let mut k: usize = 0;
    assert(server@.take(0) =~= Seq::<RemoteAlbum>::empty());
    while k < server.len()
        invariant
            k <= server@.len(),
            by_path(out@),
            out@.to_multiset() == server@.take(k as int).to_multiset(),
        decreases server@.len() - k,
    {
        let x = copy_entry(&server[k]);
        assert(server@.take(k + 1) =~= server@.take(k as int).push(x));
        proof {
            vstd::seq_lib::to_multiset_build(server@.take(k as int), x);
        }
        insert_by_path(&mut out, x);
        k = k + 1;
    }
    assert(server@.take(server@.len() as int) =~= server@);
    let mut j: usize = 0;
    assert(wanted@.take(0) =~= Seq::<RemoteAlbum>::empty());
    assert(server@ + wanted@.take(0) =~= server@);
    while j < wanted.len()
        invariant
            j <= wanted@.len(),
            by_path(out@),
            out@.to_multiset() == (server@ + wanted@.take(j as int)).to_multiset(),
        decreases wanted@.len() - j,
    {
        let x = copy_entry(&wanted[j]);
        assert(server@ + wanted@.take(j + 1) =~= (server@ + wanted@.take(j as int)).push(x));
        proof {
            vstd::seq_lib::to_multiset_build(server@ + wanted@.take(j as int), x);
        }
        insert_by_path(&mut out, x);
        j = j + 1;
    }
    assert(wanted@.take(wanted@.len() as int) =~= wanted@);
    out
}

fn copy_entry(a: &RemoteAlbum) -> (r: RemoteAlbum)
    ensures
        r == *a,
{
    RemoteAlbum {
        path: a.path.clone(),
        title: a.title.clone(),
        file_count: a.file_count,
        local: a.local,
        remote: a.remote,
        tracking: a.tracking,
        is_collection: a.is_collection,
        depth: a.depth,
    }
}

/// No two entries share a path.
pub open spec fn distinct_paths(v: Seq<RemoteAlbum>) -> bool {
    forall|i: int, j: int| 0 <= i < j < v.len() ==> (#[trigger] v[i]).path@ != (#[trigger] v[j]).path@
}

proof fn lemma_filter_distinct(s: Seq<RemoteAlbum>, keep: spec_fn(RemoteAlbum) -> bool)
    requires
        distinct_paths(s),
    ensures
        distinct_paths(s.filter(keep)),
    decreases s.len(),
{
    reveal(Seq::filter);
    if s.len() > 0 {
        let d = s.drop_last();
        assert(distinct_paths(d)) by {
            assert forall|i: int, j: int| 0 <= i < j < d.len() implies (#[trigger] d[i]).path@ != (
            #[trigger] d[j]).path@ by {
                assert(d[i] == s[i] && d[j] == s[j]);
            }
        }
        lemma_filter_distinct(d, keep);
        let f = d.filter(keep);
        if keep(s.last()) {
            let g = f.push(s.last());
            assert forall|i: int, j: int| 0 <= i < j < g.len() implies (#[trigger] g[i]).path@ != (
            #[trigger] g[j]).path@ by {
                if j == f.len() {
                    assert(g[i] == f[i]);
                    assert(f.contains(f[i]));
                    d.lemma_filter_contains_rev(keep, f[i]);
                    let k = choose|k: int| 0 <= k < d.len() && d[k] == f[i];
                    assert(s[k] == d[k]);
                    assert(s[k].path@ != s[s.len() - 1].path@);
                } else {
                    assert(g[i] == f[i] && g[j] == f[j]);
                }
            }
        }
    }
}

/// An album on both sides is listed once: when neither side names a path
/// twice, the listing names none twice either.
pub proof fn lemma_listed_once(server: Seq<RemoteAlbum>, local: Seq<RemoteAlbum>)
    requires
        distinct_paths(server),
        distinct_paths(local),
    ensures
        distinct_paths(server + local_only(server, local)),
{
    let keep = |a: RemoteAlbum| !lists_path(server, a.path@);
    let lo = local.filter(keep);
    assert(local_only(server, local) == lo);
    lemma_filter_distinct(local, keep);
    let all = server + lo;
    assert forall|i: int, j: int| 0 <= i < j < all.len() implies (#[trigger] all[i]).path@ != (
    #[trigger] all[j]).path@ by {
        if j < server.len() {
            assert(all[i] == server[i] && all[j] == server[j]);
        } else if i >= server.len() {
            assert(all[i] == lo[i - server.len()] && all[j] == lo[j - server.len()]);
        } else {
            assert(all[i] == server[i]);
            assert(all[j] == lo[j - server.len()]);
            local.lemma_filter_pred(keep, j - server.len());
            if all[i].path@ == all[j].path@ {
                assert(lists_path(server, all[j].path@));
            }
        }
    }
}


// ------------------------------------------------------------ file pass

/// What a pull does with one path of the plan.
#[derive(Debug, Clone, Copy, PartialEq, Eq, Structural)]
pub enum PullStep {
    /// Not this album's own file: a sub-album's turn comes separately.
    Ignore,
    /// A path the server offered that this machine will not write.
    Reject,
    /// Fetch the server's bytes. `library`: write them as the library's
    /// original; `published`: write them into the published tree;
    /// `keep_original`: the library already holds an original, left exactly
    /// as it is and named; `metadata_doc`: a full-scope metadata document,
    /// applied once every file has landed.
    Fetch { library: bool, published: bool, keep_original: bool, metadata_doc: bool },
    /// The library's original stays; the server's version is not fetched,
    /// and the path is named among the kept originals.
    KeepOriginal,
    /// Changed on both sides; reported and left.
    Conflict,
    /// Nothing to fetch, but the baseline is brought up to date.
    Settle,
    /// Nothing to do.
    Unchanged,
}

/// Whether a pulled file is metadata: `index.md` or `body.md` in the web
/// tree, the album document in the full-scope namespace.
pub open spec fn metadata_name(full: bool, filename: Seq<char>) -> bool {
    if full {
        filename == "album.gpp.json"@
    } else {
        filename == "index.md"@ || filename == "body.md"@
    }
}

/// Whether a pulled file is metadata.
pub fn is_metadata_file(full: bool, filename: &str) -> (r: bool)
    ensures
        r == metadata_name(full, filename@),
{
    let f = chars_of(filename);
    proof {
        reveal_strlit("album.gpp.json");
        reveal_strlit("index.md");
        reveal_strlit("body.md");
    }
    if full {
        same(&f, &chars_of("album.gpp.json"))
    } else {
        same(&f, &chars_of("index.md")) || same(&f, &chars_of("body.md"))
    }
}

/// The decision for one path of a pull plan. `full` is a full-scope pull
/// (the originals' namespace); `accepted` whether the path passes the rules
/// for what a server may ask this machine to write; `direct` whether it is
/// this album's own file (under full scope: whether the key names an album
/// and a file); `adopt_media` whether, under web scope, the gallery's media
/// may stand in for an original the library lacks; `library_file_exists`
/// whether the library already holds a file at the path it would be written
/// to.
///
/// Metadata in conflict is pulled: it is derived from the catalog the pull
/// has just updated. Under full scope any other conflict keeps the original.
/// A library file is only ever added, never overwritten.
pub open spec fn pull_step_spec(
    full: bool,
    accepted: bool,
    direct: bool,
    is_metadata: bool,
    action: Action,
    adopt_media: bool,
    library_file_exists: bool,
) -> PullStep {
    if !direct {
        if full {
            PullStep::Reject
        } else {
            PullStep::Ignore
        }
    } else if !accepted {
        PullStep::Reject
    } else if action == Action::Conflict && !is_metadata && full {
        PullStep::KeepOriginal
    } else {
        let act = if action == Action::Conflict && is_metadata {
            Action::Pull
        } else {
            action
        };
        match act {
            Action::Pull => if full {
                if is_metadata {
                    PullStep::Fetch { library: false, published: false, keep_original: false, metadata_doc: true }
                } else if library_file_exists {
                    PullStep::KeepOriginal
                } else {
                    PullStep::Fetch { library: true, published: false, keep_original: false, metadata_doc: false }
                }
            } else {
                let media = !is_metadata && adopt_media;
                PullStep::Fetch {
                    library: media && !library_file_exists,
                    published: true,
                    keep_original: media && library_file_exists,
                    metadata_doc: false,
                }
            },
            Action::Conflict => PullStep::Conflict,
            Action::ForgetState => PullStep::Settle,
            _ => PullStep::Unchanged,
        }
    }
}

/// Decide what a pull does with one path of its plan.
pub fn pull_step(
    full: bool,
    accepted: bool,
    direct: bool,
    is_metadata: bool,
    action: Action,
    adopt_media: bool,
    library_file_exists: bool,
) -> (r: PullStep)
    ensures
        r == pull_step_spec(full, accepted, direct, is_metadata, action, adopt_media, library_file_exists),
        library_file_exists ==> !(r matches PullStep::Fetch { library: true, .. }),
        is_metadata ==> !(r matches PullStep::Fetch { library: true, .. }),
{
    if !direct {
        return if full {
            PullStep::Reject
        } else {
            PullStep::Ignore
        };
    }
    if !accepted {
        return PullStep::Reject;
    }
    if action == Action::Conflict && !is_metadata && full {
        return PullStep::KeepOriginal;
    }
    let act = if action == Action::Conflict && is_metadata {
        Action::Pull
    } else {
        action
    };
    match act {
        Action::Pull => if full {
            if is_metadata {
                PullStep::Fetch { library: false, published: false, keep_original: false, metadata_doc: true }
            } else if library_file_exists {
                PullStep::KeepOriginal
            } else {
                PullStep::Fetch { library: true, published: false, keep_original: false, metadata_doc: false }
            }
        } else {
            let media = !is_metadata && adopt_media;
            PullStep::Fetch {
                library: media && !library_file_exists,
                published: true,
                keep_original: media && library_file_exists,
                metadata_doc: false,
            }
        },
        Action::Conflict => PullStep::Conflict,
        Action::ForgetState => PullStep::Settle,
        _ => PullStep::Unchanged,
    }
}

/// A pull only ever adds: it writes a file into the library only where none
/// is, never metadata, and never for a path it would not accept; and a media
/// file the server has in another version, where the library holds an
/// original, is named among the kept originals whenever the pull would have
/// put it into the library.
pub proof fn lemma_pull_only_adds(
    full: bool,
    accepted: bool,
    direct: bool,
    is_metadata: bool,
    action: Action,
    adopt_media: bool,
    library_file_exists: bool,
)
    ensures
        ({
            let r = pull_step_spec(full, accepted, direct, is_metadata, action, adopt_media, library_file_exists);
            &&& r matches PullStep::Fetch { library: true, .. } ==> !library_file_exists && !is_metadata
                && accepted && direct
            &&& (accepted && direct && !is_metadata && library_file_exists && (full || adopt_media)
                && (action == Action::Pull || (full && action == Action::Conflict))) ==> (
                r == PullStep::KeepOriginal || r matches PullStep::Fetch { keep_original: true, .. })
        }),
{
}

/// Count one decided path into a pull's outcome: a rejection, a kept
/// original, a conflict or a pulled file is named or counted; a settled or
/// unchanged path counts as unchanged. A full-scope metadata document is
/// counted when it is applied, not here.
pub fn record_pull(out: &mut PullOutcome, path: &str, s: PullStep)
    requires
        old(out).files_pulled < usize::MAX,
        old(out).skipped_unchanged < usize::MAX,
    ensures
        final(out).files_pulled == old(out).files_pulled + if (s matches PullStep::Fetch {
            metadata_doc: false,
            ..
        }) {
            1int
        } else {
            0int
        },
        final(out).skipped_unchanged == old(out).skipped_unchanged + if s is Settle || s is Unchanged {
            1int
        } else {
            0int
        },
        list_view(final(out).rejected@) == if s is Reject {
            list_view(old(out).rejected@).push(path@)
        } else {
            list_view(old(out).rejected@)
        },
        list_view(final(out).kept_originals@) == if s is KeepOriginal || (s matches PullStep::Fetch {
            keep_original: true,
            ..
        }) {
            list_view(old(out).kept_originals@).push(path@)
        } else {
            list_view(old(out).kept_originals@)
        },
        list_view(final(out).conflicts@) == if s is Conflict {
            list_view(old(out).conflicts@).push(path@)
        } else {
            list_view(old(out).conflicts@)
        },
        final(out).album_path@ == old(out).album_path@,
        final(out).photos_imported == old(out).photos_imported,
        final(out).metadata_conflicts@ == old(out).metadata_conflicts@,
        final(out).failed@ == old(out).failed@,
        final(out).albums@ == old(out).albums@,
{
    let ghost r0 = list_view(out.rejected@);
    let ghost k0 = list_view(out.kept_originals@);
    let ghost c0 = list_view(out.conflicts@);
    match s {
        PullStep::Ignore => {},
        PullStep::Reject => {
            out.rejected.push(path.to_string());
        },
        PullStep::Fetch { keep_original, metadata_doc, .. } => {
            if keep_original {
                out.kept_originals.push(path.to_string());
            }
            if !metadata_doc {
                out.files_pulled = out.files_pulled + 1;
            }
        },
        PullStep::KeepOriginal => {
            out.kept_originals.push(path.to_string());
        },
        PullStep::Conflict => {
            out.conflicts.push(path.to_string());
        },
        PullStep::Settle | PullStep::Unchanged => {
            out.skipped_unchanged = out.skipped_unchanged + 1;
        },
    }
    proof {
        assert(list_view(out.rejected@) =~= if s is Reject { r0.push(path@) } else { r0 });
        assert(list_view(out.kept_originals@) =~= if s is KeepOriginal || (s matches PullStep::Fetch {
            keep_original: true,
            ..
        }) {
            k0.push(path@)
        } else {
            k0
        });
        assert(list_view(out.conflicts@) =~= if s is Conflict { c0.push(path@) } else { c0 });
    }
}

} // verus!
