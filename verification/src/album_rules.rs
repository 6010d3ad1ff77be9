//! The rules the catalog applies when albums are moved, reordered, retagged
//! or updated — stated here over plain values, so that what a database write
//! does to an album can be checked apart from the database.

use vstd::prelude::*;

use crate::albums::{normalize_path, normalized, title_for, title_from_path, AlbumUpdate};
use crate::remote::{ancestors, ancestors_of};
use crate::error::Error;
use crate::model::Album;
use crate::order::{compare_text, lemma_text_order, text_order};
use crate::publish::list_view;
use crate::text::{
    begins, chars_of, extend, same, slice_of, starts_with, string_of, trim, trimmed, views,
};

verus! {

// ------------------------------------------------------------------ moving

/// Where moving the album at `from` to `to` puts the album at `old`: `to`
/// for `from` itself, `to/rest` for a descendant `from/rest`, and nowhere for
/// any album outside the moved branch.
pub open spec fn moved(from: Seq<char>, to: Seq<char>, old: Seq<char>) -> Option<Seq<char>> {
    if old == from {
        Some(to)
    } else if starts_with(old, from.push('/')) {
        Some(to.push('/') + old.skip(from.len() as int + 1))
    } else {
        None
    }
}

/// The new path of the album at `old` when `from` moves to `to`, or `None`
/// when `old` is not in the moved branch.
///
/// The branch is matched as a literal prefix followed by `/`, so `a_b` moving
/// leaves `axb` and `a_bc` where they are.
pub fn moved_path(from: &str, to: &str, old: &str) -> (r: Option<String>)
    ensures
        match r {
            Some(p) => moved(from@, to@, old@) == Some(p@),
            None => moved(from@, to@, old@) is None,
        },
{
    let f = chars_of(from);
    let o = chars_of(old);
    if same(&o, &f) {
        return Some(to.to_string());
    }
    let mut prefix = f.clone();
    prefix.push('/');
    assert(prefix@ == f@.push('/'));
    if !begins(&o, &prefix) {
        return None;
    }
    let mut out = chars_of(to);
    out.push('/');
    let rest = slice_of(&o, prefix.len(), o.len());
    extend(&mut out, &rest);
    assert(rest@ =~= o@.skip(f@.len() as int + 1));
    Some(string_of(&out))
}

/// Moving an album back undoes the move: every album a move of `from` to
/// `to` carried comes back to the path it had.
pub proof fn lemma_move_back(from: Seq<char>, to: Seq<char>, old: Seq<char>)
    requires
        moved(from, to, old) is Some,
    ensures
        moved(to, from, moved(from, to, old)->0) == Some(old),
{
    let new = moved(from, to, old)->0;
    if old != from {
        let rest = old.skip(from.len() as int + 1);
        assert(new.take(to.len() as int + 1) =~= to.push('/'));
        assert(new.skip(to.len() as int + 1) =~= rest);
        assert(new != to) by {
            assert(new.len() > to.len());
        }
        assert(from.push('/') + rest =~= old) by {
            assert(old.take(from.len() as int + 1) == from.push('/'));
        }
    }
}

/// A move never sends two albums to one path.
pub proof fn lemma_move_injective(from: Seq<char>, to: Seq<char>, a: Seq<char>, b: Seq<char>)
    requires
        moved(from, to, a) is Some,
        moved(from, to, a) == moved(from, to, b),
    ensures
        a == b,
{
    lemma_move_back(from, to, a);
    lemma_move_back(from, to, b);
}

/// Every album a move carries lands at `to` or under it.
pub proof fn lemma_move_lands_under(from: Seq<char>, to: Seq<char>, old: Seq<char>)
    requires
        moved(from, to, old) is Some,
    ensures
        moved(from, to, old)->0 == to || starts_with(moved(from, to, old)->0, to.push('/')),
{
    let new = moved(from, to, old)->0;
    if old != from {
        assert(new.take(to.len() as int + 1) =~= to.push('/'));
    }
}

/// The message of a move into the album's own branch.
pub open spec fn inside_itself(from: Seq<char>) -> Seq<char> {
    "cannot move "@ + from + " inside itself"@
}

/// Whether a move of `from` to `to` may go ahead, given whether an album
/// stands at each path now. The error is the one the catalog answers with.
pub fn check_move(from: &str, to: &str, from_exists: bool, to_exists: bool) -> (r: Result<(), Error>)
    ensures
        !from_exists ==> (r matches Err(Error::AlbumNotFound(m)) && m@ == from@),
        from_exists && to_exists ==> (r matches Err(Error::AlbumExists(m)) && m@ == to@),
        from_exists && !to_exists && starts_with(to@, from@.push('/')) ==> (r matches Err(
            Error::InvalidPath(m),
        ) && m@ == inside_itself(from@)),
        from_exists && !to_exists && !starts_with(to@, from@.push('/')) ==> r is Ok,
{
    if !from_exists {
        return Err(Error::AlbumNotFound(from.to_string()));
    }
    if to_exists {
        return Err(Error::AlbumExists(to.to_string()));
    }
    let f = chars_of(from);
    let t = chars_of(to);
    let mut prefix = f.clone();
    prefix.push('/');
    assert(prefix@ == f@.push('/'));
    if begins(&t, &prefix) {
        let mut msg = chars_of("cannot move ");
        extend(&mut msg, &f);
        let tail = chars_of(" inside itself");
        extend(&mut msg, &tail);
        proof {
            reveal_strlit("cannot move ");
            reveal_strlit(" inside itself");
        }
        assert(msg@ =~= inside_itself(from@));
        return Err(Error::InvalidPath(string_of(&msg)));
    }
    Ok(())
}


// -------------------------------------------------------------- membership

/// Why photos cannot go into a collection.
pub open spec fn folder_of_albums(album_path: Seq<char>) -> Seq<char> {
    album_path + " is a folder of albums — put the photos in an album inside it"@
}

/// Whether photos may be added to the album at `album_path`. A collection is
/// refused: the gallery draws one as a grid of its sub-albums and never loose
/// photos, so they would be catalogued, published and invisible.
pub fn check_add_photos(album_path: &str, is_collection: bool) -> (r: Result<(), Error>)
    ensures
        !is_collection ==> r is Ok,
        is_collection ==> (r matches Err(Error::Other(m)) && m@ == folder_of_albums(album_path@)),
{
    if is_collection {
        let mut m = chars_of(album_path);
        extend(&mut m, &chars_of(" is a folder of albums — put the photos in an album inside it"));
        return Err(Error::Other(string_of(&m)));
    }
    Ok(())
}

// -------------------------------------------------------------- reordering

/// Whether `id` occurs in `ids`.
pub fn holds(ids: &[i64], id: i64) -> (r: bool)
    ensures
        r == ids@.contains(id),
{
    let mut i: usize = 0;
    while i < ids.len()
        invariant
            i <= ids@.len(),
            forall|j: int| 0 <= j < i ==> ids@[j] != id,
        decreases ids@.len() - i,
    {
        if ids[i] == id {
            assert(ids@[i as int] == id);
            return true;
        }
        i = i + 1;
    }
    false
}

/// The photos of an album a reorder does not name, in the order they had.
pub open spec fn unlisted(listed: Seq<i64>, current: Seq<i64>) -> Seq<i64> {
    current.filter(|id: i64| !listed.contains(id))
}

/// The order a reorder hands positions out in: the named photos as named,
/// then the others in the order they already had among themselves.
pub open spec fn reordered(listed: Seq<i64>, current: Seq<i64>) -> Seq<i64> {
    listed + unlisted(listed, current)
}

/// The photo ids of an album in their new order, position 0 first, when the
/// photographer names `listed` and the album now reads `current`.
pub fn reordered_ids(listed: &[i64], current: &[i64]) -> (r: Vec<i64>)
    ensures
        r@ == reordered(listed@, current@),
{
    let mut out: Vec<i64> = Vec::new();
    let mut i: usize = 0;
    while i < listed.len()
        invariant
            i <= listed@.len(),
            out@ == listed@.take(i as int),
        decreases listed@.len() - i,
    {
        out.push(listed[i]);
        assert(listed@.take(i as int).push(listed@[i as int]) =~= listed@.take(i + 1));
        i = i + 1;
    }
    assert(listed@.take(listed@.len() as int) =~= listed@);
    let ghost keep = |id: i64| !listed@.contains(id);
    let mut k: usize = 0;
    assert(current@.take(0).filter(keep) =~= Seq::<i64>::empty()) by {
        reveal(Seq::filter);
    }
    while k < current.len()
        invariant
            k <= current@.len(),
            keep == (|id: i64| !listed@.contains(id)),
            out@ == listed@ + current@.take(k as int).filter(keep),
        decreases current@.len() - k,
    {
        let id = current[k];
        let named = holds(listed, id);
        proof {
            reveal(Seq::filter);
            assert(current@.take(k + 1).drop_last() =~= current@.take(k as int));
            assert(current@.take(k + 1).last() == id);
        }
        if !named {
            out.push(id);
        }
        k = k + 1;
    }
    assert(current@.take(current@.len() as int) =~= current@);
    out
}

/// A reorder loses no photo: everything the album held has a place in the
/// new order.
pub proof fn lemma_reorder_keeps_all(listed: Seq<i64>, current: Seq<i64>, id: i64)
    requires
        current.contains(id),
    ensures
        reordered(listed, current).contains(id),
{
    let r = reordered(listed, current);
    if listed.contains(id) {
        let i = choose|i: int| 0 <= i < listed.len() && listed[i] == id;
        assert(r[i] == id);
    } else {
        let i = choose|i: int| 0 <= i < current.len() && current[i] == id;
        current.lemma_filter_contains(|x: i64| !listed.contains(x), i);
        let u = unlisted(listed, current);
        let j = choose|j: int| 0 <= j < u.len() && u[j] == id;
        assert(r[listed.len() + j] == id);
    }
}

/// A reorder places nothing but what was named or already there.
pub proof fn lemma_reorder_adds_nothing(listed: Seq<i64>, current: Seq<i64>, id: i64)
    requires
        reordered(listed, current).contains(id),
    ensures
        listed.contains(id) || current.contains(id),
{
    let r = reordered(listed, current);
    let u = unlisted(listed, current);
    let i = choose|i: int| 0 <= i < r.len() && r[i] == id;
    if i >= listed.len() {
        assert(u[i - listed.len()] == id);
        assert(u.contains(id));
        current.lemma_filter_contains_rev(|x: i64| !listed.contains(x), id);
    } else {
        assert(listed[i] == id);
    }
}

/// Naming the order an album already has changes nothing.
pub proof fn lemma_reorder_same(current: Seq<i64>)
    ensures
        reordered(current, current) == current,
{
    let u = unlisted(current, current);
    assert(u.len() == 0) by {
        if u.len() > 0 {
            current.lemma_filter_pred(|x: i64| !current.contains(x), 0);
            current.lemma_filter_contains_rev(|x: i64| !current.contains(x), u[0]);
            assert(u.contains(u[0]));
        }
    }
    assert(reordered(current, current) =~= current);
}

// -------------------------------------------------------------------- tags

/// Whether `t` is the name of a tag in `tags`: some entry, trimmed, reads `t`,
/// and `t` is not blank.
pub open spec fn names_tag(tags: Seq<Seq<char>>, t: Seq<char>) -> bool {
    t.len() > 0 && exists|i: int| 0 <= i < tags.len() && trim(tags[i]) == t
}

/// Strictly ascending in text order — sorted, each name once.
pub open spec fn ascending(v: Seq<Seq<char>>) -> bool {
    forall|i: int, j: int| 0 <= i < j < v.len() ==> text_order(v[i], v[j]) < 0
}

/// Text order, the facts a sorted insert needs of it.
proof fn lemma_text_facts(a: Seq<char>, b: Seq<char>, c: Seq<char>)
    ensures
        (text_order(a, b) == 0) == (a == b),
        text_order(b, a) == -text_order(a, b),
        -1 <= text_order(a, b) <= 1,
        text_order(a, b) < 0 && text_order(b, c) < 0 ==> text_order(a, c) < 0,
{
    lemma_text_order();
    let t = |x: Seq<char>, y: Seq<char>| text_order(x, y);
    assert((t(a, b) == 0) == (a == b));
    assert(t(b, a) == -t(a, b));
    assert(-1 <= t(a, b) <= 1);
    assert(t(a, b) < 0 && t(b, c) < 0 ==> t(a, c) < 0);
}

/// Where `t` goes in the ascending list `v`: the first place whose name is not
/// below it.
fn insertion_point(v: &Vec<Vec<char>>, t: &[char]) -> (j: usize)
    requires
        ascending(views(v@)),
    ensures
        j <= v@.len(),
        forall|i: int| 0 <= i < j ==> text_order(v@[i]@, t@) < 0,
        j < v@.len() ==> text_order(v@[j as int]@, t@) >= 0,
{
    let mut j: usize = 0;
    while j < v.len() && compare_text(&v[j], t) < 0
        invariant
            j <= v@.len(),
            forall|i: int| 0 <= i < j ==> text_order(v@[i]@, t@) < 0,
        decreases v@.len() - j,
    {
        j = j + 1;
    }
    j
}

/// The tags an album holds after its tag list is set to `tags`: each entry
/// trimmed, blanks dropped, each name once, in the order the catalog reads
/// them back — by code point, which is how the database compares UTF-8 text.
pub fn stored_tags(tags: &[String]) -> (r: Vec<String>)
    ensures
        ascending(list_view(r@)),
        forall|t: Seq<char>| list_view(r@).contains(t) <==> names_tag(list_view(tags@), t),
{
    let ghost given = list_view(tags@);
    let mut out: Vec<Vec<char>> = Vec::new();
    let mut k: usize = 0;
    while k < tags.len()
        invariant
            k <= tags@.len(),
            given == list_view(tags@),
            ascending(views(out@)),
            forall|t: Seq<char>| views(out@).contains(t) <==> names_tag(given.take(k as int), t),
        decreases tags@.len() - k,
    {
        let raw = chars_of(tags[k].as_str());
        let t = trimmed(&raw);
        let ghost before = views(out@);
        proof {
            assert(given[k as int] == tags@[k as int]@);
            assert forall|x: Seq<char>| names_tag(given.take(k + 1), x) <==> (names_tag(
                given.take(k as int),
                x,
            ) || (x.len() > 0 && x == t@)) by {
                if names_tag(given.take(k + 1), x) {
                    let i = choose|i: int|
                        0 <= i < k + 1 && trim(#[trigger] given.take(k + 1)[i]) == x;
                    if i < k {
                        assert(given.take(k as int)[i] == given.take(k + 1)[i]);
                    }
                }
                if names_tag(given.take(k as int), x) {
                    let i = choose|i: int| 0 <= i < k && trim(#[trigger] given.take(k as int)[i]) == x;
                    assert(given.take(k + 1)[i] == given.take(k as int)[i]);
                }
                if x.len() > 0 && x == t@ {
                    assert(given.take(k + 1)[k as int] == given[k as int]);
                }
            }
        }
        if t.len() > 0 {
            let j = insertion_point(&out, &t);
            if j < out.len() && compare_text(&out[j], &t) == 0 {
                proof {
                    lemma_text_facts(out@[j as int]@, t@, t@);
                    assert(before[j as int] == t@);
                }
            } else {
                proof {
                    if j < out@.len() {
                        lemma_text_facts(out@[j as int]@, t@, t@);
                    }
                }
                out.insert(j, t);
                proof {
                    let after = views(out@);
                    assert(after =~= before.insert(j as int, t@));
                    assert forall|a: int, b: int| 0 <= a < b < after.len() implies text_order(
                        after[a],
                        after[b],
                    ) < 0 by {
                        if b < j {
                            assert(after[a] == before[a] && after[b] == before[b]);
                        } else if b == j {
                            assert(after[a] == before[a]);
                        } else if a == j {
                            assert(after[b] == before[b - 1]);
                            if b - 1 > j {
                                lemma_text_facts(t@, before[j as int], before[b - 1]);
                                lemma_text_facts(before[j as int], t@, t@);
                            } else {
                                lemma_text_facts(before[j as int], t@, t@);
                            }
                        } else if a < j {
                            assert(after[a] == before[a] && after[b] == before[b - 1]);
                        } else {
                            assert(after[a] == before[a - 1] && after[b] == before[b - 1]);
                        }
                    }
                    assert forall|x: Seq<char>| after.contains(x) <==> (before.contains(x) || x
                        == t@) by {
                        if after.contains(x) {
                            let i = choose|i: int| 0 <= i < after.len() && after[i] == x;
                            if i < j {
                                assert(before[i] == x);
                            } else if i > j {
                                assert(before[i - 1] == x);
                            }
                        }
                        if before.contains(x) {
                            let i = choose|i: int| 0 <= i < before.len() && before[i] == x;
                            if i < j {
                                assert(after[i] == x);
                            } else {
                                assert(after[i + 1] == x);
                            }
                        }
                        if x == t@ {
                            assert(after[j as int] == x);
                        }
                    }
                }
            }
        }
        k = k + 1;
    }
    proof {
        assert(given.take(tags@.len() as int) =~= given);
    }
    let mut r: Vec<String> = Vec::new();
    let mut i: usize = 0;
    while i < out.len()
        invariant
            i <= out@.len(),
            list_view(r@) == views(out@).take(i as int),
        decreases out@.len() - i,
    {
        let name = string_of(&out[i]);
        let ghost prev = r@;
        assert(list_view(prev).len() == prev.len());
        r.push(name);
        proof {
            assert(r@ == prev.push(name));
            assert forall|j: int| 0 <= j < i + 1 implies #[trigger] list_view(r@)[j] == views(
                out@,
            ).take(i + 1)[j] by {
                if j < i {
                    assert(r@[j] == prev[j]);
                    assert(list_view(prev)[j] == views(out@).take(i as int)[j]);
                }
            }
            assert(list_view(r@) =~= views(out@).take(i + 1));
        }
        i = i + 1;
    }
    proof {
        assert(views(out@).take(out@.len() as int) =~= views(out@));
    }
    r
}

// ---------------------------------------------------------------- creating

/// The title a new album is created with: the one given, unless it is absent
/// or blank, in which case one is derived from the path.
pub fn album_title(given: &Option<String>, path: &str) -> (r: String)
    ensures
        r@ == if given is Some && trim(given->0@).len() > 0 {
            given->0@
        } else {
            title_for(path@)
        },
{
    if let Some(t) = given {
        let v = chars_of(t.as_str());
        let kept = trimmed(&v);
        if kept.len() > 0 {
            return t.clone();
        }
    }
    title_from_path(path)
}

/// Whether some entry of `list` reads `t`.
fn listed_text(list: &[String], t: &[char]) -> (r: bool)
    ensures
        r == list_view(list@).contains(t@),
{
    let mut i: usize = 0;
    while i < list.len()
        invariant
            i <= list@.len(),
            forall|k: int| 0 <= k < i ==> list@[k]@ != t@,
        decreases list@.len() - i,
    {
        let c = chars_of(list[i].as_str());
        if same(&c, t) {
            assert(list_view(list@)[i as int] == t@);
            return true;
        }
        i = i + 1;
    }
    assert forall|k: int| 0 <= k < list_view(list@).len() implies list_view(list@)[k] != t@ by {
        assert(list_view(list@)[k] == list@[k]@);
    }
    false
}

/// The folders a new album at `path` needs created above it — its
/// ancestors the catalog does not hold yet, shallowest first — so that the
/// gallery can navigate down to it. `existing` is every album path the
/// catalog holds; the path is normalised first, and refused as it would be.
pub fn collection_chain(path: &str, existing: &[String]) -> (r: Result<Vec<String>, Error>)
    ensures
        match normalized(path@) {
            None => r matches Err(Error::InvalidPath(m)) && m@ == path@,
            Some(n) => r matches Ok(v) && list_view(v@) == ancestors(n).filter(
                |a: Seq<char>| !list_view(existing@).contains(a),
            ),
        },
{
    let n = normalize_path(path)?;
    let above = ancestors_of(n.as_str());
    let ghost all = ancestors(n@);
    let ghost missing = |a: Seq<char>| !list_view(existing@).contains(a);
    let mut out: Vec<String> = Vec::new();
    let mut i: usize = 0;
    assert(all.take(0).filter(missing) =~= Seq::<Seq<char>>::empty()) by {
        reveal(Seq::filter);
    }
    assert(list_view(out@) =~= Seq::<Seq<char>>::empty());
    while i < above.len()
        invariant
            i <= above@.len(),
            all == list_view(above@),
            missing == (|a: Seq<char>| !list_view(existing@).contains(a)),
            list_view(out@) == all.take(i as int).filter(missing),
        decreases above@.len() - i,
    {
        let a = chars_of(above[i].as_str());
        let present = listed_text(existing, &a);
        proof {
            reveal(Seq::filter);
            assert(all.take(i + 1).drop_last() =~= all.take(i as int));
            assert(all.take(i + 1).last() == above@[i as int]@);
        }
        if !present {
            let ghost before = list_view(out@);
            out.push(string_of(&a));
            proof {
                assert(list_view(out@) =~= before.push(a@));
            }
        }
        i = i + 1;
    }
    assert(all.take(above@.len() as int) =~= all);
    Ok(out)
}

// ---------------------------------------------------------------- updating

/// A field after a partial update: the new value when one is given, the old
/// one otherwise.
pub open spec fn merged<T>(given: Option<T>, current: T) -> T {
    match given {
        Some(v) => v,
        None => current,
    }
}

fn copy_text(o: &Option<String>) -> (r: Option<String>)
    ensures
        r == *o,
{
    match o {
        Some(s) => Some(s.clone()),
        None => None,
    }
}

fn merge_text(given: &Option<String>, current: &String) -> (r: String)
    ensures
        r == merged(*given, *current),
{
    match given {
        Some(v) => v.clone(),
        None => current.clone(),
    }
}

fn merge_opt_text(given: &Option<Option<String>>, current: &Option<String>) -> (r: Option<String>)
    ensures
        r == merged(*given, *current),
{
    match given {
        Some(v) => copy_text(v),
        None => copy_text(current),
    }
}

fn copy_list(v: &Vec<String>) -> (r: Vec<String>)
    ensures
        r@ == v@,
{
    let mut r: Vec<String> = Vec::new();
    let mut i: usize = 0;
    while i < v.len()
        invariant
            i <= v@.len(),
            r@ == v@.take(i as int),
        decreases v@.len() - i,
    {
        r.push(v[i].clone());
        assert(v@.take(i as int).push(v@[i as int]) =~= v@.take(i + 1));
        i = i + 1;
    }
    assert(v@.take(v@.len() as int) =~= v@);
    r
}

/// The album as it stands once `update` is applied to it.
///
/// Every field the update leaves at `None` keeps its value; `Some(None)`
/// clears an optional one. Tags are the exception: a given list replaces the
/// whole set, stored as [`stored_tags`] stores it. The cover is named by photo
/// id in the update and by filename in the album, so `cover_filename` is the
/// filename of the photo the update names, as the catalog finds it; it is
/// read only when the update sets a cover.
pub fn apply_update(album: &Album, update: &AlbumUpdate, cover_filename: Option<String>) -> (r: Album)
    ensures
        r.id == album.id,
        r.path == album.path,
        r.parent_path == album.parent_path,
        r.title == merged(update.title, album.title),
        r.token == merged(update.token, album.token),
        r.description == merged(update.description, album.description),
        r.date == merged(update.date, album.date),
        r.password == merged(update.password, album.password),
        r.share_token == merged(update.share_token, album.share_token),
        r.sort == merged(update.sort, album.sort),
        r.style == merged(update.style, album.style),
        r.cover_filename == match update.cover_photo_id {
            None => album.cover_filename,
            Some(None) => None,
            Some(Some(_)) => cover_filename,
        },
        r.is_collection == merged(update.is_collection, album.is_collection),
        r.hidden == merged(update.hidden, album.hidden),
        r.allow_download == merged(update.allow_download, album.allow_download),
        r.proofing == merged(update.proofing, album.proofing),
        r.sort_order == merged(update.sort_order, album.sort_order),
        r.body == merged(update.body, album.body),
        match update.tags {
            None => r.tags@ == album.tags@,
            Some(t) => ascending(list_view(r.tags@)) && forall|x: Seq<char>|
                list_view(r.tags@).contains(x) <==> names_tag(list_view(t@), x),
        },
{
    let cover = match &update.cover_photo_id {
        None => copy_text(&album.cover_filename),
        Some(None) => None,
        Some(Some(_)) => cover_filename,
    };
    let tags = match &update.tags {
        None => copy_list(&album.tags),
        Some(t) => stored_tags(t.as_slice()),
    };
    Album {
        id: album.id,
        path: album.path.clone(),
        parent_path: copy_text(&album.parent_path),
        title: merge_text(&update.title, &album.title),
        description: merge_opt_text(&update.description, &album.description),
        date: merge_opt_text(&update.date, &album.date),
        token: merge_text(&update.token, &album.token),
        password: merge_opt_text(&update.password, &album.password),
        share_token: merge_opt_text(&update.share_token, &album.share_token),
        sort: merge_text(&update.sort, &album.sort),
        style: merge_text(&update.style, &album.style),
        cover_filename: cover,
        is_collection: merged_flag(update.is_collection, album.is_collection),
        hidden: merged_flag(update.hidden, album.hidden),
        allow_download: merged_flag(update.allow_download, album.allow_download),
        proofing: merged_flag(update.proofing, album.proofing),
        sort_order: match update.sort_order {
            Some(v) => v,
            None => album.sort_order,
        },
        tags,
        body: merge_opt_text(&update.body, &album.body),
    }
}

fn merged_flag(given: Option<bool>, current: bool) -> (r: bool)
    ensures
        r == merged(given, current),
{
    match given {
        Some(v) => v,
        None => current,
    }
}

} // verus!
