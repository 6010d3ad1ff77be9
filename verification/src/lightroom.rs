//! Lightroom Classic catalog import: the decisions.
//!
//! A `.lrcat` is another program's SQLite database; reading it is the shell's
//! work. What is decided from what was read lives here: where a root folder's
//! files end up, the album path each collection maps to, which collections a
//! run asked for, and how a name already taken here is resolved. Nothing here
//! writes to the original catalog or to any file Lightroom manages, and a
//! value someone set by hand in this library is never overwritten.

use vstd::prelude::*;
use vstd::utf8::encode_utf8;

use crate::develop::{blake3_digest, blake3_hash};
use crate::encoding::{hex_of, hex_text, lemma_hex_text};

use crate::albums::{normalize_path, normalized, NewAlbum};
use crate::error::Error;
use crate::media::{classified, classify};
use crate::model::{Flag, PhotoKind};
use crate::paths::{push_onto, push_path};
use crate::publish::list_view;
use crate::text::{
    begins, chars_of, decimal, i64_text, int_text, extend, is, join, join_with, lowercase, lowercased, same, slice_of,
    split, split_on, starts_with, string_of, trim, trimmed, u64_text, views,
};

verus! {

/// Where copied photos land by default: `<root>/lr/<root-folder>/...`.
pub const DEFAULT_DEST_SUBDIR: &'static str = "lr";

// ------------------------------------------------------------ collections

/// What kind of collection a Lightroom row is.
#[derive(Debug, Clone, Copy, PartialEq, Eq, Structural)]
pub enum LrCollectionKind {
    /// An ordinary collection.
    Collection,
    /// A collection set — a folder of them.
    CollectionSet,
    /// Rule-driven; imported as a snapshot of its current members.
    Smart,
}

/// The name a kind is reported under.
pub open spec fn collection_kind_name(k: LrCollectionKind) -> Seq<char> {
    match k {
        LrCollectionKind::Collection => "collection"@,
        LrCollectionKind::CollectionSet => "set"@,
        LrCollectionKind::Smart => "smart"@,
    }
}

impl LrCollectionKind {
    /// `collection`, `set` or `smart`.
    pub fn as_str(self) -> (r: &'static str)
        ensures
            r@ == collection_kind_name(self),
    {
        match self {
            LrCollectionKind::Collection => "collection",
            LrCollectionKind::CollectionSet => "set",
            LrCollectionKind::Smart => "smart",
        }
    }
}

/// Separators and NUL read as `-`.
pub open spec fn unslashed(s: Seq<char>) -> Seq<char> {
    s.map_values(
        |c: char|
            if c == '/' || c == '\\' || c == '\0' {
                '-'
            } else {
                c
            },
    )
}

/// One path segment made safe for the library: no separators, no traversal,
/// never empty, never hidden — a name that would be is prefixed with `_`.
pub open spec fn safe_name(seg: Seq<char>) -> Seq<char> {
    let cleaned = trim(unslashed(seg));
    if cleaned.len() == 0 || cleaned == seq!['.'] || cleaned == seq!['.', '.'] || cleaned[0] == '.' {
        seq!['_'] + cleaned
    } else {
        cleaned
    }
}

/// One path segment made safe for the library.
pub fn safe_segment(seg: &str) -> (r: String)
    ensures
        r@ == safe_name(seg@),
{
    let v = chars_of(seg);
    let mut mapped: Vec<char> = Vec::new();
    let mut i: usize = 0;
    while i < v.len()
        invariant
            i <= v@.len(),
            mapped@ == unslashed(v@.take(i as int)),
        decreases v@.len() - i,
    {
        let c = v[i];
        let d = if c == '/' || c == '\\' || c == '\0' {
            '-'
        } else {
            c
        };
        mapped.push(d);
        proof {
            assert(unslashed(v@.take(i + 1)) =~= unslashed(v@.take(i as int)).push(d));
        }
        i = i + 1;
    }
    assert(v@.take(v@.len() as int) =~= v@);
    let cleaned = trimmed(&mapped);
    let n = cleaned.len();
    let hidden = n == 0 || (n == 1 && cleaned[0] == '.') || (n == 2 && cleaned[0] == '.'
        && cleaned[1] == '.') || cleaned[0] == '.';
    proof {
        if n == 1 && cleaned@[0] == '.' {
            assert(cleaned@ =~= seq!['.']);
        }
        if n == 2 && cleaned@[0] == '.' && cleaned@[1] == '.' {
            assert(cleaned@ =~= seq!['.', '.']);
        }
    }
    if hidden {
        let mut out: Vec<char> = Vec::new();
        out.push('_');
        extend(&mut out, &cleaned);
        assert(out@ =~= seq!['_'] + cleaned@);
        string_of(&out)
    } else {
        string_of(&cleaned)
    }
}

/// The collection at `id`: the last row with that id, as a map collected
/// from the rows keeps it.
pub open spec fn row_of(cols: Seq<(i64, Seq<char>, Option<i64>)>, id: i64) -> Option<(i64, Seq<char>, Option<i64>)>
    decreases cols.len(),
{
    if cols.len() == 0 {
        None
    } else if cols.last().0 == id {
        Some(cols.last())
    } else {
        row_of(cols.drop_last(), id)
    }
}

/// The names up the parent chain from `at`, nearest first, with each
/// collection visited once: a repeat (a cycle) or a parent that is not in the
/// catalog ends the walk. `fuel` bounds the walk; each step visits a new
/// collection, so one step per row is always enough ([`lemma_walk_budget`]).
pub open spec fn parent_names(
    cols: Seq<(i64, Seq<char>, Option<i64>)>,
    at: Option<i64>,
    seen: Seq<i64>,
    fuel: nat,
) -> Seq<Seq<char>>
    decreases fuel,
{
    match at {
        None => Seq::<Seq<char>>::empty(),
        Some(parent) => if fuel == 0 || seen.contains(parent) {
            Seq::<Seq<char>>::empty()
        } else {
            match row_of(cols, parent) {
                None => Seq::<Seq<char>>::empty(),
                Some(p) => seq![safe_name(p.1)] + parent_names(
                    cols,
                    p.2,
                    seen.push(parent),
                    (fuel - 1) as nat,
                ),
            }
        },
    }
}

/// The ids the rows carry.
pub open spec fn row_ids(cols: Seq<(i64, Seq<char>, Option<i64>)>) -> Set<i64> {
    cols.map_values(|c: (i64, Seq<char>, Option<i64>)| c.0).to_set()
}

proof fn lemma_row_of_found(cols: Seq<(i64, Seq<char>, Option<i64>)>, id: i64)
    requires
        row_of(cols, id) is Some,
    ensures
        row_ids(cols).contains(id),
    decreases cols.len(),
{
    let ids = cols.map_values(|c: (i64, Seq<char>, Option<i64>)| c.0);
    if cols.last().0 == id {
        assert(ids[cols.len() - 1] == id);
    } else {
        lemma_row_of_found(cols.drop_last(), id);
        let d = cols.drop_last().map_values(|c: (i64, Seq<char>, Option<i64>)| c.0);
        let k = choose|k: int| 0 <= k < d.len() && d[k] == id;
        assert(ids[k] == id);
    }
}

/// The walk up the parent chain visits each collection at most once, so a
/// budget that covers the collections not yet visited is never what stops
/// it: any two such budgets give the same names. With nothing visited yet,
/// one step per row — what [`collection_path`] gives — is such a budget.
pub proof fn lemma_walk_budget(
    cols: Seq<(i64, Seq<char>, Option<i64>)>,
    at: Option<i64>,
    seen: Seq<i64>,
    f1: nat,
    f2: nat,
)
    requires
        seen.to_set().subset_of(row_ids(cols)),
        f1 + seen.to_set().len() >= row_ids(cols).len(),
        f2 + seen.to_set().len() >= row_ids(cols).len(),
    ensures
        parent_names(cols, at, seen, f1) == parent_names(cols, at, seen, f2),
    decreases f1,
{
    if let Some(p) = at {
        if !seen.contains(p) {
            if let Some(r) = row_of(cols, p) {
                lemma_row_of_found(cols, p);
                let ids = row_ids(cols);
                vstd::seq_lib::seq_to_set_is_finite(cols.map_values(|c: (i64, Seq<char>, Option<i64>)| c.0));
                let grown = seen.to_set().insert(p);
                assert(grown.subset_of(ids));
                vstd::set_lib::lemma_len_subset(grown, ids);
                vstd::set_lib::lemma_len_subset(seen.to_set(), ids);
                assert(!seen.to_set().contains(p));
                assert(grown.len() == seen.to_set().len() + 1);
                Seq::lemma_to_set_insert_commutes(seen, p);
                assert(seen.push(p) =~= seen + seq![p]);
                assert(seen.push(p).to_set() =~= grown);
                lemma_walk_budget(cols, r.2, seen.push(p), (f1 - 1) as nat, (f2 - 1) as nat);
            }
        }
    }
}

/// A walk given one step per row names exactly what any longer walk names:
/// the budget [`collection_path`] uses never cuts a chain short.
pub proof fn lemma_rows_are_budget_enough(cols: Seq<(i64, Seq<char>, Option<i64>)>, at: Option<i64>, f: nat)
    requires
        f >= cols.len(),
    ensures
        parent_names(cols, at, Seq::<i64>::empty(), f) == parent_names(
            cols,
            at,
            Seq::<i64>::empty(),
            cols.len(),
        ),
{
    let ids = cols.map_values(|c: (i64, Seq<char>, Option<i64>)| c.0);
    ids.lemma_cardinality_of_set();
    assert(Seq::<i64>::empty().to_set() =~= Set::<i64>::empty());
    lemma_walk_budget(cols, at, Seq::<i64>::empty(), f, cols.len());
}

/// The album-style path of one collection: ancestor set names then its own,
/// each segment made safe, normalised the way album paths are (left as
/// joined when normalising refuses it).
pub open spec fn collection_path(cols: Seq<(i64, Seq<char>, Option<i64>)>, c: (i64, Seq<char>, Option<i64>)) -> Seq<char> {
    let segs = (seq![safe_name(c.1)] + parent_names(cols, c.2, Seq::<i64>::empty(), cols.len())).reverse();
    let joined = join(segs, seq!['/']);
    match normalized(joined) {
        Some(p) => p,
        None => joined,
    }
}

/// The rows as plain values.
pub open spec fn rows_view(cols: Seq<(i64, String, Option<i64>)>) -> Seq<(i64, Seq<char>, Option<i64>)> {
    cols.map_values(|c: (i64, String, Option<i64>)| (c.0, c.1@, c.2))
}

fn row_at(cols: &[(i64, String, Option<i64>)], id: i64) -> (r: Option<usize>)
    ensures
        match r {
            Some(k) => k < cols@.len() && row_of(rows_view(cols@), id) == Some(rows_view(cols@)[k as int]),
            None => row_of(rows_view(cols@), id) is None,
        },
{
    let ghost rv = rows_view(cols@);
    let mut j: usize = cols.len();
    assert(rv.take(j as int) =~= rv);
    while j > 0
        invariant
            j <= cols@.len(),
            rv == rows_view(cols@),
            row_of(rv, id) == row_of(rv.take(j as int), id),
        decreases j,
    {
        proof {
            assert(rv.take(j as int).last() == rv[j - 1]);
            assert(rv.take(j as int).drop_last() =~= rv.take(j - 1));
        }
        if cols[j - 1].0 == id {
            return Some(j - 1);
        }
        j = j - 1;
    }
    None
}

/// The album-style path of every collection — `(id, path)`, in the order
/// given: ancestor set names then its own, each segment made safe and the
/// whole normalised the way album paths are. A cycle in the parent chain
/// stops the walk rather than looping.
pub fn collection_paths(cols: &[(i64, String, Option<i64>)]) -> (r: Vec<(i64, String)>)
    ensures
        r@.len() == cols@.len(),
        forall|k: int|
            0 <= k < r@.len() ==> (#[trigger] r@[k]).0 == cols@[k].0 && r@[k].1@ == collection_path(
                rows_view(cols@),
                rows_view(cols@)[k],
            ),
{
    let ghost rv = rows_view(cols@);
    let n = cols.len();
    let mut out: Vec<(i64, String)> = Vec::new();
    let mut i: usize = 0;
    while i < n
        invariant
            i <= n == cols@.len(),
            rv == rows_view(cols@),
            out@.len() == i,
            forall|k: int|
                0 <= k < i ==> (#[trigger] out@[k]).0 == cols@[k].0 && out@[k].1@ == collection_path(
                    rv,
                    rv[k],
                ),
        decreases n - i,
    {
        let c = &cols[i];
        let own = safe_segment(c.1.as_str());
        // names up the chain, nearest first
        let mut up: Vec<Vec<char>> = Vec::new();
        let mut seen: Vec<i64> = Vec::new();
        let mut at = c.2;
        let mut fuel: usize = n;
        let ghost start = c.2;
        proof {
            assert(rv[i as int] == (c.0, c.1@, c.2));
        }
        let mut walking = true;
        while walking && fuel > 0
            invariant
                rv == rows_view(cols@),
                n == cols@.len(),
                fuel <= n,
                views(up@) + parent_names(rv, at, seen@, fuel as nat) == parent_names(
                    rv,
                    start,
                    Seq::<i64>::empty(),
                    n as nat,
                ),
                !walking ==> parent_names(rv, at, seen@, fuel as nat) == Seq::<Seq<char>>::empty(),
            decreases fuel + (if walking {
                1int
            } else {
                0int
            }),
        {
            match at {
                None => {
                    walking = false;
                },
                Some(parent) => {
                    let mut repeat = false;
                    let mut k: usize = 0;
                    while k < seen.len()
                        invariant
                            k <= seen@.len(),
                            !repeat ==> forall|x: int| 0 <= x < k ==> seen@[x] != parent,
                            repeat ==> seen@.contains(parent),
                        decreases seen@.len() - k,
                    {
                        if seen[k] == parent {
                            repeat = true;
                        }
                        k = k + 1;
                    }
                    if repeat {
                        walking = false;
                    } else {
                        assert(!seen@.contains(parent));
                        match row_at(cols, parent) {
                            None => {
                                walking = false;
                            },
                            Some(row) => {
                                let name = safe_segment(cols[row].1.as_str());
                                let ghost up0 = views(up@);
                                let ghost seen0 = seen@;
                                let ghost fuel0 = fuel as nat;
                                let ghost at0 = at;
                                up.push(chars_of(name.as_str()));
                                seen.push(parent);
                                at = cols[row].2;
                                fuel = fuel - 1;
                                proof {
                                    assert(rv[row as int] == (
                                        cols@[row as int].0,
                                        cols@[row as int].1@,
                                        cols@[row as int].2,
                                    ));
                                    assert(views(up@) =~= up0.push(safe_name(cols@[row as int].1@)));
                                    assert(parent_names(rv, at0, seen0, fuel0) == seq![safe_name(
                                        cols@[row as int].1@,
                                    )] + parent_names(rv, at, seen@, fuel as nat));
                                    assert(views(up@) + parent_names(rv, at, seen@, fuel as nat)
                                        =~= up0 + parent_names(rv, at0, seen0, fuel0));
                                }
                            },
                        }
                    }
                },
            }
        }
        proof {
            assert(parent_names(rv, at, seen@, fuel as nat) =~= Seq::<Seq<char>>::empty());
            assert(views(up@) + Seq::<Seq<char>>::empty() =~= views(up@));
        }
        let mut segs: Vec<Vec<char>> = Vec::new();
        let mut k: usize = up.len();
        while k > 0
            invariant
                k <= up@.len(),
                segs@.len() == up@.len() - k,
                forall|x: int| 0 <= x < segs@.len() ==> (#[trigger] segs@[x])@ == up@[up@.len() - 1 - x]@,
            decreases k,
        {
            segs.push(slice_of(&up[k - 1], 0, up[k - 1].len()));
            proof {
                let x = segs@.len() - 1;
                assert(segs@[x]@ =~= up@[k - 1]@);
            }
            k = k - 1;
        }
        segs.push(chars_of(own.as_str()));
        let ghost all = seq![safe_name(c.1@)] + views(up@);
        proof {
            assert(views(segs@) =~= all.reverse()) by {
                assert forall|x: int| 0 <= x < segs@.len() implies views(segs@)[x] == all.reverse()[x] by {
                    if x < up@.len() {
                        assert(all.reverse()[x] == all[all.len() - 1 - x]);
                        assert(all[all.len() - 1 - x] == views(up@)[up@.len() - 1 - x]);
                    }
                }
            }
        }
        let mut slash: Vec<char> = Vec::new();
        slash.push('/');
        assert(slash@ =~= seq!['/']);
        let joined = join_with(&segs, &slash);
        let path = match normalize_path(string_of(&joined).as_str()) {
            Ok(p) => p,
            Err(_) => string_of(&joined),
        };
        out.push((c.0, path));
        i = i + 1;
    }
    out
}


// ---------------------------------------------------------------- patterns

/// `*`-glob over bytes: each `*` matches any run, every other byte itself.
pub open spec fn glob(pat: Seq<u8>, text: Seq<u8>) -> bool
    decreases pat.len() + text.len(),
{
    if pat.len() == 0 {
        text.len() == 0
    } else if pat[0] == 42 {
        glob(pat.drop_first(), text) || (text.len() > 0 && glob(pat, text.drop_first()))
    } else {
        text.len() > 0 && text[0] == pat[0] && glob(pat.drop_first(), text.drop_first())
    }
}

/// Whether an LR collection path matches a requested pattern: the glob of the
/// lowercased pattern over the lowercased path, byte by byte.
pub open spec fn pattern_matches(path: Seq<char>, pattern: Seq<char>) -> bool {
    glob(encode_utf8(lowercase(pattern)), encode_utf8(lowercase(path)))
}

fn glob_at(pat: &[u8], pi: usize, text: &[u8], ti: usize) -> (r: bool)
    requires
        pi <= pat@.len(),
        ti <= text@.len(),
    ensures
        r == glob(pat@.skip(pi as int), text@.skip(ti as int)),
    decreases (pat@.len() - pi) + (text@.len() - ti),
{
    let ghost p = pat@.skip(pi as int);
    let ghost t = text@.skip(ti as int);
    if pi == pat.len() {
        return ti == text.len();
    }
    assert(p[0] == pat@[pi as int]);
    assert(p.drop_first() =~= pat@.skip(pi + 1));
    if ti < text.len() {
        assert(t[0] == text@[ti as int]);
        assert(t.drop_first() =~= text@.skip(ti + 1));
    }
    if pat[pi] == 42 {
        glob_at(pat, pi + 1, text, ti) || (ti < text.len() && glob_at(pat, pi, text, ti + 1))
    } else {
        ti < text.len() && text[ti] == pat[pi] && glob_at(pat, pi + 1, text, ti + 1)
    }
}

/// Does an LR collection path match one of the requested patterns?
/// A pattern is an exact path or a `*` glob (each `*` matches any run),
/// compared without regard to case.
pub fn matches_pattern(path: &str, pattern: &str) -> (r: bool)
    ensures
        r == pattern_matches(path@, pattern@),
{
    let p = string_of(&lowercased(&chars_of(pattern)));
    let t = string_of(&lowercased(&chars_of(path)));
    let pb = p.as_str().as_bytes();
    let tb = t.as_str().as_bytes();
    assert(pb@.skip(0) =~= pb@);
    assert(tb@.skip(0) =~= tb@);
    glob_at(pb, 0, tb, 0)
}

/// A pattern without `*` matches exactly the same bytes.
pub proof fn lemma_glob_exact(pat: Seq<u8>, text: Seq<u8>)
    requires
        !pat.contains(42u8),
    ensures
        glob(pat, text) == (pat == text),
    decreases pat.len(),
{
    if pat.len() == 0 {
        if text.len() == 0 {
            assert(pat =~= text);
        }
    } else {
        assert(pat[0] != 42u8) by {
            assert(pat.contains(pat[0]));
        }
        assert(!pat.drop_first().contains(42u8)) by {
            if pat.drop_first().contains(42u8) {
                let k = choose|k: int| 0 <= k < pat.drop_first().len() && pat.drop_first()[k] == 42u8;
                assert(pat[k + 1] == 42u8);
            }
        }
        if text.len() > 0 {
            lemma_glob_exact(pat.drop_first(), text.drop_first());
            if pat == text {
                assert(pat.drop_first() =~= text.drop_first());
            }
            if text[0] == pat[0] && pat.drop_first() == text.drop_first() {
                assert(pat =~= seq![pat[0]] + pat.drop_first());
                assert(text =~= seq![text[0]] + text.drop_first());
            }
        }
    }
}

/// A lone `*` matches everything.
pub proof fn lemma_glob_star(text: Seq<u8>)
    ensures
        glob(seq![42u8], text),
    decreases text.len(),
{
    assert(seq![42u8].drop_first() =~= Seq::<u8>::empty());
    assert(seq![42u8][0] == 42u8);
    assert(seq![42u8].len() == 1);
    if text.len() > 0 {
        lemma_glob_star(text.drop_first());
    } else {
        assert(glob(Seq::<u8>::empty(), text));
    }
}

/// `prefix*` matches everything that starts with the prefix, when the prefix
/// holds no `*` of its own: `weddings/*` takes every collection under
/// `weddings/`.
pub proof fn lemma_glob_prefix(prefix: Seq<u8>, rest: Seq<u8>)
    requires
        !prefix.contains(42u8),
    ensures
        glob(prefix.push(42u8), prefix + rest),
    decreases prefix.len(),
{
    if prefix.len() == 0 {
        assert(prefix.push(42u8) =~= seq![42u8]);
        assert(prefix + rest =~= rest);
        lemma_glob_star(rest);
    } else {
        assert(prefix[0] != 42u8) by {
            assert(prefix.contains(prefix[0]));
        }
        assert(!prefix.drop_first().contains(42u8)) by {
            if prefix.drop_first().contains(42u8) {
                let k = choose|k: int| 0 <= k < prefix.drop_first().len() && prefix.drop_first()[k] == 42u8;
                assert(prefix[k + 1] == 42u8);
            }
        }
        lemma_glob_prefix(prefix.drop_first(), rest);
        assert(prefix.push(42u8).drop_first() =~= prefix.drop_first().push(42u8));
        assert((prefix + rest).drop_first() =~= prefix.drop_first() + rest);
        assert(prefix.push(42u8)[0] == prefix[0]);
        assert((prefix + rest)[0] == prefix[0]);
    }
}

/// Whether a collection is among the ones a run asked for: its path matches
/// a pattern, or it is a set and something under it does.
pub open spec fn wanted_by(lr_path: Seq<char>, is_set: bool, all_paths: Seq<Seq<char>>, w: Seq<Seq<char>>) -> bool {
    (exists|k: int| 0 <= k < w.len() && pattern_matches(lr_path, #[trigger] w[k])) || (is_set
        && exists|j: int, k: int|
        0 <= j < all_paths.len() && 0 <= k < w.len() && starts_with(
            #[trigger] all_paths[j],
            lr_path + seq!['/'],
        ) && pattern_matches(all_paths[j], #[trigger] w[k]))
}

fn any_match(path: &str, wanted: &Vec<String>) -> (r: bool)
    ensures
        r == exists|k: int| 0 <= k < wanted@.len() && pattern_matches(path@, #[trigger] wanted@[k]@),
{
    let mut k: usize = 0;
    while k < wanted.len()
        invariant
            k <= wanted@.len(),
            forall|x: int| 0 <= x < k ==> !pattern_matches(path@, #[trigger] wanted@[x]@),
        decreases wanted@.len() - k,
    {
        if matches_pattern(path, wanted[k].as_str()) {
            return true;
        }
        k = k + 1;
    }
    false
}

/// Whether a collection is among the ones the run asked for. A set is
/// included when anything under it is, so the collections a pattern picks
/// keep the folders above them.
pub fn collection_wanted(lr_path: &str, is_set: bool, all_paths: &[String], w: &Vec<String>) -> (r: bool)
    ensures
        r == wanted_by(lr_path@, is_set, list_view(all_paths@), list_view(w@)),
{
    let ghost wv = list_view(w@);
    let ghost ap = list_view(all_paths@);
    if any_match(lr_path, w) {
        proof {
            let k = choose|k: int| 0 <= k < w@.len() && pattern_matches(lr_path@, #[trigger] w@[k]@);
            assert(wv[k] == w@[k]@);
            assert(pattern_matches(lr_path@, wv[k]));
        }
        return true;
    }
    proof {
        assert forall|k: int| 0 <= k < wv.len() implies !pattern_matches(lr_path@, #[trigger] wv[k]) by {
            assert(wv[k] == w@[k]@);
        }
    }
    if !is_set {
        return false;
    }
    let mut under = chars_of(lr_path);
    under.push('/');
    assert(under@ =~= lr_path@ + seq!['/']);
    let mut j: usize = 0;
    while j < all_paths.len()
        invariant
            j <= all_paths@.len(),
            is_set,
            under@ == lr_path@ + seq!['/'],
            wv == list_view(w@),
            ap == list_view(all_paths@),
            forall|x: int, k: int|
                0 <= x < j && 0 <= k < wv.len() ==> !(starts_with(#[trigger] ap[x], lr_path@ + seq!['/'])
                    && pattern_matches(ap[x], #[trigger] wv[k])),
        decreases all_paths@.len() - j,
    {
        let o = chars_of(all_paths[j].as_str());
        let below = begins(&o, &under);
        let hit = any_match(all_paths[j].as_str(), w);
        proof {
            assert(ap[j as int] == all_paths@[j as int]@);
            if hit {
                let k = choose|k: int| 0 <= k < w@.len() && pattern_matches(all_paths@[j as int]@, #[trigger] w@[k]@);
                assert(wv[k] == w@[k]@);
            } else {
                assert forall|k: int| 0 <= k < wv.len() implies !pattern_matches(ap[j as int], #[trigger] wv[k]) by {
                    assert(wv[k] == w@[k]@);
                }
            }
        }
        if below && hit {
            proof {
                let k = choose|k: int| 0 <= k < w@.len() && pattern_matches(all_paths@[j as int]@, #[trigger] w@[k]@);
                assert(wv[k] == w@[k]@);
                assert(starts_with(ap[j as int], lr_path@ + seq!['/']) && pattern_matches(ap[j as int], wv[k]));
            }
            return true;
        }
        j = j + 1;
    }
    false
}

// ------------------------------------------------------------- placement

/// How a name collision with an existing, unlinked album is resolved.
#[derive(Debug, Clone, Copy, Default, PartialEq, Eq, Structural)]
pub enum MergePolicy {
    /// Merge into the existing album unless another catalog's import owns it,
    /// in which case a `-lr` suffixed sibling is created.
    #[default]
    Auto,
    /// Add members to the existing album.
    Merge,
    /// Create a new album with `-lr` appended to the name.
    Suffix,
}

/// Where one Lightroom root folder's files should end up.
#[derive(Debug, Clone, Copy, Default, PartialEq, Eq, Structural)]
pub enum LrPlacement {
    /// Catalogue in place where the root already lies inside a registered
    /// source; copy in otherwise.
    #[default]
    Auto,
    /// Catalogue where the files are, registering the root as a source when
    /// no source holds it yet — and saying so.
    InPlace,
    /// Copy into the library under `dest_subdir`, whatever the root is.
    Copy,
    /// Register the root folder as a source and catalogue its files where
    /// they lie. Nothing is copied and nothing is moved.
    Reference,
}

/// A placement chosen for one specific LR root folder, overriding the run's
/// default `mode`.
#[derive(Debug, Clone, Copy)]
pub struct LrRootPlacement {
    /// `AgLibraryRootFolder.id_local`.
    pub root_id: i64,
    pub mode: LrPlacement,
}

/// Options for one import run. Everything is optional.
#[derive(Debug, Clone, Default)]
pub struct LrImportOptions {
    /// Folder under the library root that copied files land in. Defaults to
    /// `"lr"`.
    pub dest_subdir: Option<String>,
    /// Import only collections whose LR path matches one of these patterns.
    /// `None` imports all. Photos are imported regardless.
    pub collections: Option<Vec<String>>,
    /// Prefix prepended to every created album path.
    pub album_prefix: Option<String>,
    /// What to do when a collection's album path is already taken by an
    /// album this catalog has no link to.
    pub collision: MergePolicy,
    /// Where files land, for every root without an entry in `roots`.
    pub mode: LrPlacement,
    /// Per-root overrides, by `AgLibraryRootFolder.id_local`.
    pub roots: Option<Vec<LrRootPlacement>>,
    /// Compute the full report without writing anything.
    pub dry_run: bool,
}

/// The mode for one root: its own override (the last one given, as a map
/// collected from the list keeps it), else the run's default.
pub open spec fn mode_for(overrides: Seq<LrRootPlacement>, default: LrPlacement, root_id: i64) -> LrPlacement
    decreases overrides.len(),
{
    if overrides.len() == 0 {
        default
    } else if overrides.last().root_id == root_id {
        overrides.last().mode
    } else {
        mode_for(overrides.drop_last(), default, root_id)
    }
}

/// The mode one root folder is imported under.
pub fn root_mode(opts: &LrImportOptions, root_id: i64) -> (r: LrPlacement)
    ensures
        r == match opts.roots {
            Some(v) => mode_for(v@, opts.mode, root_id),
            None => opts.mode,
        },
{
    match &opts.roots {
        None => opts.mode,
        Some(v) => {
            let mut j: usize = v.len();
            assert(v@.take(j as int) =~= v@);
            while j > 0
                invariant
                    j <= v@.len(),
                    opts.roots == Some(*v),
                    mode_for(v@, opts.mode, root_id) == mode_for(v@.take(j as int), opts.mode, root_id),
                decreases j,
            {
                proof {
                    assert(v@.take(j as int).last() == v@[j - 1]);
                    assert(v@.take(j as int).drop_last() =~= v@.take(j - 1));
                }
                if v[j - 1].root_id == root_id {
                    assert(mode_for(v@.take(j as int), opts.mode, root_id) == v@[j - 1].mode);
                    assert(opts.roots == Some(*v));
                    return v[j - 1].mode;
                }
                j = j - 1;
            }
            opts.mode
        },
    }
}

/// What to do with one root folder, given its mode and the registered
/// source that already holds it, if any.
#[derive(Debug, Clone, Copy, PartialEq, Eq, Structural)]
pub enum RootPlan {
    /// Catalogue in place, under this registered source.
    InSource(i64),
    /// Copy into the library under `dest_subdir`.
    CopyIn,
    /// Register the root as a source and catalogue it there — or, on a dry
    /// run, report that a real run would.
    Register,
}

/// Decide where one root's files go. A root a source already holds needs
/// nothing registered and nothing copied, unless copying was asked for.
pub fn plan_root(mode: LrPlacement, containing: Option<i64>) -> (r: RootPlan)
    ensures
        r == match (mode, containing) {
            (LrPlacement::Copy, _) => RootPlan::CopyIn,
            (_, Some(id)) => RootPlan::InSource(id),
            (LrPlacement::Auto, None) => RootPlan::CopyIn,
            (_, None) => RootPlan::Register,
        },
{
    match (mode, containing) {
        (LrPlacement::Copy, _) => RootPlan::CopyIn,
        (_, Some(id)) => RootPlan::InSource(id),
        (LrPlacement::Auto, None) => RootPlan::CopyIn,
        (_, None) => RootPlan::Register,
    }
}

/// Whether a collection merges into an album already at its path: by
/// policy, or — under `Auto` — unless another catalog's import owns it.
pub fn merges_into_existing(policy: MergePolicy, foreign_owner: bool) -> (r: bool)
    ensures
        r == match policy {
            MergePolicy::Merge => true,
            MergePolicy::Suffix => false,
            MergePolicy::Auto => !foreign_owner,
        },
{
    match policy {
        MergePolicy::Merge => true,
        MergePolicy::Suffix => false,
        MergePolicy::Auto => !foreign_owner,
    }
}

/// The `n`th suffixed path tried for a collision: `path-lr`, then
/// `path-lr-2`, `path-lr-3` and so on.
pub open spec fn suffixed(path: Seq<char>, n: nat) -> Seq<char> {
    if n <= 1 {
        path + seq!['-', 'l', 'r']
    } else {
        path + seq!['-', 'l', 'r', '-'] + decimal(n)
    }
}

/// The `n`th candidate for a suffixed album path.
pub fn suffixed_path(path: &str, n: u32) -> (r: String)
    ensures
        r@ == suffixed(path@, n as nat),
{
    let mut out = chars_of(path);
    out.push('-');
    out.push('l');
    out.push('r');
    if n > 1 {
        out.push('-');
        let d = u64_text(n as u64);
        extend(&mut out, &d);
    }
    string_of(&out)
}

/// `s` with every trailing `/` removed.
pub open spec fn trim_slashes_end(s: Seq<char>) -> Seq<char>
    decreases s.len(),
{
    if s.len() > 0 && s.last() == '/' {
        trim_slashes_end(s.drop_last())
    } else {
        s
    }
}

/// `base` with each non-empty segment pushed on, as `PathBuf::push` does.
pub open spec fn push_segments(base: Seq<char>, segs: Seq<Seq<char>>) -> Seq<char>
    decreases segs.len(),
{
    if segs.len() == 0 {
        base
    } else {
        let b = push_segments(base, segs.drop_last());
        if segs.last().len() > 0 {
            push_path(b, segs.last())
        } else {
            b
        }
    }
}

/// Absolute path of one LR image's file: the root folder's path, without
/// its trailing slashes, with each segment of the path from the root pushed
/// on.
pub fn source_path(root_path: &str, rel_from_root: &str) -> (r: String)
    ensures
        r@ == push_segments(trim_slashes_end(root_path@), split(rel_from_root@, '/')),
{
    let v = chars_of(root_path);
    let mut end = v.len();
    assert(v@.take(end as int) =~= v@);
    while end > 0 && v[end - 1] == '/'
        invariant
            end <= v@.len(),
            trim_slashes_end(v@) == trim_slashes_end(v@.take(end as int)),
        decreases end,
    {
        proof {
            assert(v@.take(end as int).drop_last() =~= v@.take(end - 1));
        }
        end = end - 1;
    }
    let mut p = slice_of(&v, 0, end);
    proof {
        assert(p@ =~= v@.take(end as int));
    }
    let segs = split_on(&chars_of(rel_from_root), '/');
    let ghost sv = views(segs@);
    let ghost base = p@;
    let mut i: usize = 0;
    assert(sv.take(0) =~= Seq::<Seq<char>>::empty());
    while i < segs.len()
        invariant
            i <= segs@.len(),
            sv == views(segs@),
            p@ == push_segments(base, sv.take(i as int)),
        decreases segs@.len() - i,
    {
        proof {
            let t = sv.take(i + 1);
            assert(t.drop_last() =~= sv.take(i as int));
            assert(t.last() == segs@[i as int]@);
        }
        if segs[i].len() > 0 {
            push_onto(&mut p, &segs[i]);
        }
        i = i + 1;
    }
    assert(sv.take(segs@.len() as int) =~= sv);
    string_of(&p)
}

/// `s` with every leading `/` removed.
pub open spec fn trim_slashes_start(s: Seq<char>) -> Seq<char>
    decreases s.len(),
{
    if s.len() > 0 && s[0] == '/' {
        trim_slashes_start(s.drop_first())
    } else {
        s
    }
}

/// An image's path from its root folder: the folder's path without its
/// surrounding slashes, then the file name.
pub open spec fn image_rel(path_from_root: Seq<char>, filename: Seq<char>) -> Seq<char> {
    let p = trim_slashes_end(trim_slashes_start(path_from_root));
    if p.len() > 0 {
        p + seq!['/'] + filename
    } else {
        filename
    }
}

/// An image's path from its root folder, as the catalog's folder and file
/// rows spell it.
pub fn rel_from_root(path_from_root: &str, filename: &str) -> (r: String)
    ensures
        r@ == image_rel(path_from_root@, filename@),
{
    let v = chars_of(path_from_root);
    let n = v.len();
    let mut start: usize = 0;
    assert(v@.skip(0) =~= v@);
    while start < n && v[start] == '/'
        invariant
            start <= n == v@.len(),
            trim_slashes_start(v@) == trim_slashes_start(v@.skip(start as int)),
        decreases n - start,
    {
        assert(v@.skip(start as int).drop_first() =~= v@.skip(start + 1));
        start = start + 1;
    }
    let mut end: usize = n;
    let ghost front = v@.skip(start as int);
    assert(front.take(front.len() as int) =~= front);
    while end > start && v[end - 1] == '/'
        invariant
            start <= end <= n == v@.len(),
            front == v@.skip(start as int),
            trim_slashes_end(front) == trim_slashes_end(front.take(end - start)),
        decreases end,
    {
        assert(front.take(end - start).drop_last() =~= front.take(end - start - 1));
        end = end - 1;
    }
    let mut out = slice_of(&v, start, end);
    proof {
        assert(out@ =~= front.take(end - start));
        if start < n {
            assert(front[0] == v@[start as int]);
        }
        assert(trim_slashes_start(front) == front);
        if end > start {
            assert(front.take(end - start).last() == v@[end - 1]);
        }
        assert(trim_slashes_end(front.take(end - start)) == front.take(end - start));
    }
    if out.len() > 0 {
        out.push('/');
    }
    extend(&mut out, &chars_of(filename));
    string_of(&out)
}

/// The library-relative path a copied-in image lands at, made of safe
/// segments: `<dest>/<root folder>/<each non-empty segment of its path>`.
pub open spec fn safe_tail(segs: Seq<Seq<char>>) -> Seq<char>
    decreases segs.len(),
{
    if segs.len() == 0 {
        Seq::<char>::empty()
    } else if segs.last().len() > 0 {
        safe_tail(segs.drop_last()) + seq!['/'] + safe_name(segs.last())
    } else {
        safe_tail(segs.drop_last())
    }
}

/// Where a copied-in image lands, relative to the library root.
pub fn copy_in_rel(dest_subdir: &str, root_name: &str, rel_from_root: &str) -> (r: String)
    ensures
        r@ == dest_subdir@ + seq!['/'] + safe_name(root_name@) + safe_tail(split(rel_from_root@, '/')),
{
    let mut out = chars_of(dest_subdir);
    out.push('/');
    extend(&mut out, &chars_of(safe_segment(root_name).as_str()));
    let ghost head = out@;
    let segs = split_on(&chars_of(rel_from_root), '/');
    let ghost sv = views(segs@);
    let mut i: usize = 0;
    assert(sv.take(0) =~= Seq::<Seq<char>>::empty());
    assert(head + safe_tail(Seq::<Seq<char>>::empty()) =~= head);
    while i < segs.len()
        invariant
            i <= segs@.len(),
            sv == views(segs@),
            out@ == head + safe_tail(sv.take(i as int)),
        decreases segs@.len() - i,
    {
        let ghost o0 = out@;
        proof {
            let t = sv.take(i + 1);
            assert(t.drop_last() =~= sv.take(i as int));
            assert(t.last() == segs@[i as int]@);
        }
        if segs[i].len() > 0 {
            out.push('/');
            let piece = safe_segment(string_of(&segs[i]).as_str());
            extend(&mut out, &chars_of(piece.as_str()));
            proof {
                assert(out@ =~= head + safe_tail(sv.take(i + 1)));
            }
        }
        i = i + 1;
    }
    assert(sv.take(segs@.len() as int) =~= sv);
    string_of(&out)
}

// ------------------------------------------------------------------ report

/// One root folder as a scan reports it.
#[derive(Debug, Clone)]
pub struct LrRootReport {
    /// The root folder's absolute path, as the catalog records it.
    pub path: String,
    pub name: String,
    pub file_count: usize,
    /// Files the catalog references that are not on disk at that path.
    pub missing_files: usize,
    /// The root lies inside a registered source, so an import catalogues its
    /// files where they are instead of copying.
    pub in_place: bool,
    /// The root can be registered as a source and imported by reference.
    pub can_reference: bool,
}

/// One collection as a scan reports it, path within the LR hierarchy.
#[derive(Debug, Clone)]
pub struct LrCollectionReport {
    /// Set hierarchy + name, `/`-joined, as the album path would read.
    pub path: String,
    /// `collection`, `set` or `smart`.
    pub kind: String,
    pub member_count: usize,
}

/// A read-only look at a catalog, nothing written.
#[derive(Debug, Clone)]
pub struct LrScanReport {
    /// Stable identifier this catalog will be linked under.
    pub catalog_id: String,
    pub root_folders: Vec<LrRootReport>,
    pub collections: Vec<LrCollectionReport>,
    pub keyword_count: usize,
    /// Image rows whose file chain does not resolve.
    pub images_without_files: usize,
    /// Optional data that was skipped, and why.
    pub notes: Vec<String>,
}

/// What one import run did (or, under `dry_run`, would do).
#[derive(Debug, Clone, Default)]
pub struct LrImportReport {
    /// Files copied into the library because they lived outside it.
    pub photos_copied: usize,
    /// LR images whose bytes were already in the catalog — linked, not copied.
    pub photos_linked_existing: usize,
    /// Files catalogued where they lie — nothing copied.
    pub photos_in_place: usize,
    /// The part of `photos_in_place` that lives on a source other than the
    /// library root.
    pub photos_referenced: usize,
    /// Roots registered as sources by this run, `"<name> (<path>)"`.
    pub sources_registered: Vec<String>,
    /// LR images whose file is not on disk where the catalog says.
    pub skipped_missing_files: usize,
    pub albums_created: usize,
    /// Albums that already existed and gained members, order or a rename.
    pub albums_updated: usize,
    pub memberships_added: usize,
    /// New photo-tag links written from LR keywords.
    pub tags_added: usize,
    /// Divergences left untouched.
    pub conflicts: Vec<String>,
    /// Album paths already taken by an unlinked album, and how each was
    /// resolved.
    pub collisions: Vec<String>,
    /// Photos and albums the LR catalog no longer has. Reported only.
    pub lr_deleted: Vec<String>,
    pub bytes_copied: u64,
    /// The run stopped on request; every count is a partial tally.
    pub cancelled: bool,
    /// Nothing was written; the counts are a forecast.
    pub dry_run: bool,
}

// ------------------------------------------------------- collection target

/// Where a collection's album is, or what stops it from having one.
#[derive(Debug, Clone, PartialEq, Eq)]
pub enum TargetPlan {
    /// The album an earlier run linked, still where it was put.
    Linked(String),
    /// Renamed in Lightroom since the last run: move the linked album to the
    /// new path and link it there.
    Follow { from: String, to: String },
    /// An album already stands where Lightroom now puts the collection — it
    /// was moved here locally, or recreated here. Link to it.
    Relink(String),
    /// No album for this collection yet, and its path is free.
    Fresh(String),
    /// An album no run linked holds the path, and the policy merges into it.
    Merge(String),
    /// An album no run linked holds the path, and the policy wants a free
    /// suffixed path instead.
    Suffix,
    /// Left alone; the conflict says why.
    Skip,
}

/// The decision for one collection, with what the report says about it.
#[derive(Debug, Clone)]
pub struct TargetDecision {
    pub plan: TargetPlan,
    /// A divergence left untouched, for the report's conflicts.
    pub conflict: Option<String>,
    /// How a taken path was resolved by merging, for the report's collisions.
    pub collision: Option<String>,
}

/// `collection "<name>": `, the opening of each conflict line.
pub open spec fn about(name: Seq<char>) -> Seq<char> {
    "collection \""@ + name + "\": "@
}

/// The plan for a collection, from what the catalog holds: the path an earlier
/// run linked it to (if any) and whether an album stands there, the path it
/// computes to now and whether an album stands there, and — for a path taken
/// by an album no run linked — whether the policy merges into it.
pub open spec fn target_plan(
    computed: Seq<char>,
    linked: Option<Seq<char>>,
    linked_exists: bool,
    computed_exists: bool,
    merge: bool,
) -> int {
    match linked {
        Some(l) => if l == computed {
            if linked_exists { 0 } else { 1 }
        } else if linked_exists {
            if computed_exists { 2 } else { 3 }
        } else if computed_exists {
            4
        } else {
            5
        },
        None => if !computed_exists {
            6
        } else if merge {
            7
        } else {
            8
        },
    }
}

/// The conflict line a decision reports, if any.
pub open spec fn target_conflict(
    name: Seq<char>,
    computed: Seq<char>,
    linked: Seq<char>,
    case: int,
) -> Option<Seq<char>> {
    if case == 1 {
        Some(about(name) + "its album "@ + linked + " was deleted here — not recreated"@)
    } else if case == 2 {
        Some(
            about(name) + "renamed in Lightroom to "@ + computed
                + ", but an album already sits there — left at "@ + linked,
        )
    } else if case == 5 {
        Some(
            about(name) + "renamed in Lightroom to "@ + computed
                + " and renamed or deleted here (album "@ + linked + " is gone) — nothing changed"@,
        )
    } else {
        None
    }
}

fn text_of(parts: &[&str]) -> (r: Vec<char>)
    ensures
        r@ == parts@.fold_left(Seq::<char>::empty(), |acc: Seq<char>, p: &str| acc + p@),
{
    let mut out: Vec<char> = Vec::new();
    let mut i: usize = 0;
    while i < parts.len()
        invariant
            i <= parts@.len(),
            out@ == parts@.take(i as int).fold_left(
                Seq::<char>::empty(),
                |acc: Seq<char>, p: &str| acc + p@,
            ),
        decreases parts@.len() - i,
    {
        let piece = chars_of(parts[i]);
        extend(&mut out, &piece);
        proof {
            assert(parts@.take(i + 1).drop_last() =~= parts@.take(i as int));
        }
        i = i + 1;
    }
    assert(parts@.take(parts@.len() as int) =~= parts@);
    out
}

/// Where one collection's album is: the path an earlier run linked it to is
/// honoured first, a rename in Lightroom is followed unless something stands
/// in the way, and a divergence on both sides changes nothing. Without a link,
/// a free path is taken and a taken one goes to the collision policy
/// (`merge` is [`merges_into_existing`]'s answer for it).
pub fn resolve_target(
    name: &str,
    computed: &str,
    linked: Option<&str>,
    linked_exists: bool,
    computed_exists: bool,
    merge: bool,
) -> (r: TargetDecision)
    ensures
        ({
            let l = match linked {
                Some(l) => l@,
                None => Seq::<char>::empty(),
            };
            let case = target_plan(computed@, match linked {
                Some(l) => Some(l@),
                None => None,
            }, linked_exists, computed_exists, merge);
            &&& match target_conflict(name@, computed@, l, case) {
                Some(c) => r.conflict matches Some(m) && m@ == c,
                None => r.conflict is None,
            }
            &&& if case == 7 {
                r.collision matches Some(m) && m@ == computed@ + " already exists — merged \""@
                    + name@ + "\" into it"@
            } else {
                r.collision is None
            }
            &&& match r.plan {
                TargetPlan::Linked(p) => (case == 0 || case == 2) && p@ == l,
                TargetPlan::Follow { from, to } => case == 3 && from@ == l && to@ == computed@,
                TargetPlan::Relink(p) => case == 4 && p@ == computed@,
                TargetPlan::Fresh(p) => case == 6 && p@ == computed@,
                TargetPlan::Merge(p) => case == 7 && p@ == computed@,
                TargetPlan::Suffix => case == 8,
                TargetPlan::Skip => case == 1 || case == 5,
            }
        }),
{
    let c = chars_of(computed);
    match linked {
        Some(l) => {
            let lv = chars_of(l);
            if same(&lv, &c) {
                if linked_exists {
                    TargetDecision { plan: TargetPlan::Linked(l.to_string()), conflict: None, collision: None }
                } else {
                    let m = text_of(&["collection \"", name, "\": ", "its album ", l, " was deleted here — not recreated"]);
                    proof {
                        reveal_with_fuel(Seq::fold_left, 7);
                    }
                    TargetDecision { plan: TargetPlan::Skip, conflict: Some(string_of(&m)), collision: None }
                }
            } else if linked_exists {
                if computed_exists {
                    let m = text_of(&["collection \"", name, "\": ", "renamed in Lightroom to ", computed, ", but an album already sits there — left at ", l]);
                    proof {
                        reveal_with_fuel(Seq::fold_left, 8);
                    }
                    TargetDecision { plan: TargetPlan::Linked(l.to_string()), conflict: Some(string_of(&m)), collision: None }
                } else {
                    TargetDecision {
                        plan: TargetPlan::Follow { from: l.to_string(), to: computed.to_string() },
                        conflict: None,
                        collision: None,
                    }
                }
            } else if computed_exists {
                TargetDecision { plan: TargetPlan::Relink(computed.to_string()), conflict: None, collision: None }
            } else {
                let m = text_of(&["collection \"", name, "\": ", "renamed in Lightroom to ", computed, " and renamed or deleted here (album ", l, " is gone) — nothing changed"]);
                proof {
                    reveal_with_fuel(Seq::fold_left, 9);
                }
                TargetDecision { plan: TargetPlan::Skip, conflict: Some(string_of(&m)), collision: None }
            }
        },
        None => {
            if !computed_exists {
                TargetDecision { plan: TargetPlan::Fresh(computed.to_string()), conflict: None, collision: None }
            } else if merge {
                let m = text_of(&[computed, " already exists — merged \"", name, "\" into it"]);
                proof {
                    reveal_with_fuel(Seq::fold_left, 5);
                }
                TargetDecision { plan: TargetPlan::Merge(computed.to_string()), conflict: None, collision: Some(string_of(&m)) }
            } else {
                TargetDecision { plan: TargetPlan::Suffix, conflict: None, collision: None }
            }
        },
    }
}

/// Whether some entry of `list` reads `s`.
fn listed(list: &[String], s: &[char]) -> (r: bool)
    ensures
        r == list_view(list@).contains(s@),
{
    let mut i: usize = 0;
    while i < list.len()
        invariant
            i <= list@.len(),
            forall|k: int| 0 <= k < i ==> list@[k]@ != s@,
        decreases list@.len() - i,
    {
        let v = chars_of(list[i].as_str());
        if same(&v, s) {
            assert(list_view(list@)[i as int] == s@);
            return true;
        }
        i = i + 1;
    }
    assert forall|k: int| 0 <= k < list_view(list@).len() implies list_view(list@)[k] != s@ by {
        assert(list_view(list@)[k] == list@[k]@);
    }
    false
}

/// The message when every suffix for `path` is taken.
pub open spec fn no_free_suffix(path: Seq<char>) -> Seq<char> {
    "no free album path near "@ + path + "-lr — a thousand suffixes are taken"@
}

/// The first suffixed path for a collision that no album holds: `path-lr`,
/// then `path-lr-2` up to `path-lr-999`. `taken` is every album path the
/// library holds.
pub fn free_suffixed_path(path: &str, taken: &[String]) -> (r: Result<String, Error>)
    ensures
        match r {
            Ok(p) => exists|n: nat|
                1 <= n < 1000 && p@ == suffixed(path@, n) && !list_view(taken@).contains(p@)
                    && forall|m: nat| 1 <= m < n ==> list_view(taken@).contains(
                    #[trigger] suffixed(path@, m),
                ),
            Err(e) => (forall|m: nat|
                1 <= m < 1000 ==> list_view(taken@).contains(#[trigger] suffixed(path@, m)))
                && (e matches Error::Other(msg) && msg@ == no_free_suffix(path@)),
        },
{
    let mut n: u32 = 1;
    while n < 1000
        invariant
            1 <= n <= 1000,
            forall|m: nat| 1 <= m < n ==> list_view(taken@).contains(#[trigger] suffixed(path@, m)),
        decreases 1000 - n,
    {
        let candidate = suffixed_path(path, n);
        let v = chars_of(candidate.as_str());
        if !listed(taken, &v) {
            assert(candidate@ == suffixed(path@, n as nat));
            return Ok(candidate);
        }
        n = n + 1;
    }
    let m = text_of(&["no free album path near ", path, "-lr — a thousand suffixes are taken"]);
    proof {
        reveal_with_fuel(Seq::fold_left, 4);
    }
    Err(Error::Other(string_of(&m)))
}

/// The collision line for a collection given a suffixed album.
pub open spec fn suffixed_collision(computed: Seq<char>, suffixed: Seq<char>, name: Seq<char>) -> Seq<
    char,
> {
    computed + " already exists — created "@ + suffixed + " for \""@ + name + "\""@
}

/// What the report says when a collection got a suffixed album.
pub fn suffixed_collision_text(computed: &str, suffixed: &str, name: &str) -> (r: String)
    ensures
        r@ == suffixed_collision(computed@, suffixed@, name@),
{
    let m = text_of(&[computed, " already exists — created ", suffixed, " for \"", name, "\""]);
    proof {
        reveal_with_fuel(Seq::fold_left, 7);
    }
    string_of(&m)
}

/// What a smart collection's album says about itself.
pub const SMART_NOTE: &'static str = "Imported from a Lightroom smart collection — a snapshot of its members at import time, not a live rule.";

/// The album a collection is created as: named after the collection, a folder
/// of albums for a set, and noted as a snapshot for a smart collection.
pub fn collection_album(target: &str, name: &str, kind: LrCollectionKind) -> (r: NewAlbum)
    ensures
        r.path@ == target@,
        r.title matches Some(t) && t@ == name@,
        match kind {
            LrCollectionKind::Smart => r.description matches Some(d) && d@ == SMART_NOTE@,
            _ => r.description is None,
        },
        r.date is None,
        r.is_collection == (kind == LrCollectionKind::CollectionSet),
{
    NewAlbum {
        path: target.to_string(),
        title: Some(name.to_string()),
        description: match kind {
            LrCollectionKind::Smart => Some(SMART_NOTE.to_string()),
            _ => None,
        },
        date: None,
        is_collection: match kind {
            LrCollectionKind::CollectionSet => true,
            _ => false,
        },
    }
}

/// The report line for an album whose Lightroom collection is gone.
pub open spec fn deleted_line(album_path: Seq<char>) -> Seq<char> {
    "album "@ + album_path + " (its Lightroom collection was deleted; kept here)"@
}

/// The linked albums whose collection the Lightroom catalog no longer has —
/// reported, never deleted. `links` pairs a collection id with its album path,
/// `live` holds the ids the catalog still has.
pub fn deleted_collections(links: &[(i64, String)], live: &[i64]) -> (r: Vec<String>)
    ensures
        list_view(r@) == links@.filter(|l: (i64, String)| !live@.contains(l.0)).map_values(
            |l: (i64, String)| deleted_line(l.1@),
        ),
{
    let ghost gone = |l: (i64, String)| !live@.contains(l.0);
    let ghost line = |l: (i64, String)| deleted_line(l.1@);
    let mut out: Vec<String> = Vec::new();
    let mut i: usize = 0;
    assert(links@.take(0).filter(gone) =~= Seq::<(i64, String)>::empty()) by {
        reveal(Seq::filter);
    }
    assert(list_view(out@) =~= links@.take(0).filter(gone).map_values(line));
    while i < links.len()
        invariant
            i <= links@.len(),
            gone == (|l: (i64, String)| !live@.contains(l.0)),
            line == (|l: (i64, String)| deleted_line(l.1@)),
            list_view(out@) == links@.take(i as int).filter(gone).map_values(line),
        decreases links@.len() - i,
    {
        let present = crate::album_rules::holds(live, links[i].0);
        let ghost before = list_view(out@);
        proof {
            reveal(Seq::filter);
            assert(links@.take(i + 1).drop_last() =~= links@.take(i as int));
            assert(links@.take(i + 1).last() == links@[i as int]);
        }
        if !present {
            let m = text_of(&["album ", links[i].1.as_str(), " (its Lightroom collection was deleted; kept here)"]);
            proof {
                reveal_with_fuel(Seq::fold_left, 4);
            }
            let line_text = string_of(&m);
            out.push(line_text);
            proof {
                assert(list_view(out@) =~= before.push(m@));
            }
        }
        i = i + 1;
    }
    assert(links@.take(links@.len() as int) =~= links@);
    out
}

// --------------------------------------------------------------- metadata

/// What Lightroom's rating, flag and colour label write onto one photo.
#[derive(Debug, Clone)]
pub struct LrFill {
    /// The rating to store, capped at five stars.
    pub rating: Option<u8>,
    pub flag: Option<Flag>,
    pub color_label: Option<String>,
}

/// Which of Lightroom's values land on a photo: each only where the photo
/// still holds the default an import leaves — no rating, no flag, no colour
/// label — so a value set by hand here is never overwritten. A zero rating,
/// an unflagged image and an absent label write nothing.
pub fn lr_fill(
    local_rating: u8,
    local_flag: Flag,
    local_label: &Option<String>,
    rating: u8,
    flag: Flag,
    label: &Option<String>,
) -> (r: LrFill)
    ensures
        r.rating == if rating > 0 && local_rating == 0 {
            Some(if rating > 5 { 5u8 } else { rating })
        } else {
            None::<u8>
        },
        r.flag == if flag != Flag::Unflagged && local_flag == Flag::Unflagged {
            Some(flag)
        } else {
            None::<Flag>
        },
        r.color_label == if label is Some && local_label is None {
            *label
        } else {
            None::<String>
        },
{
    let new_rating = if rating > 0 && local_rating == 0 {
        Some(if rating > 5 { 5u8 } else { rating })
    } else {
        None
    };
    let new_flag = if flag != Flag::Unflagged && local_flag == Flag::Unflagged {
        Some(flag)
    } else {
        None
    };
    let new_label = match (label, local_label) {
        (Some(l), None) => Some(l.clone()),
        _ => None,
    };
    LrFill { rating: new_rating, flag: new_flag, color_label: new_label }
}

// ------------------------------------------------------------ kinds read

/// The `creationId` Lightroom gives an ordinary collection.
pub const CREATION_COLLECTION: &'static str = "com.adobe.ag.library.collection";

/// The `creationId` of a collection set.
pub const CREATION_SET: &'static str = "com.adobe.ag.library.group";

/// The `creationId` of a smart collection.
pub const CREATION_SMART: &'static str = "com.adobe.ag.library.smart_collection";

/// The kind a `creationId` names, if it names one.
pub open spec fn kind_named(creation: Seq<char>) -> Option<LrCollectionKind> {
    if creation == CREATION_COLLECTION@ {
        Some(LrCollectionKind::Collection)
    } else if creation == CREATION_SET@ {
        Some(LrCollectionKind::CollectionSet)
    } else if creation == CREATION_SMART@ {
        Some(LrCollectionKind::Smart)
    } else {
        None
    }
}

/// The note for a collection whose kind is not understood.
pub open spec fn unknown_kind_note(name: Seq<char>, creation: Seq<char>) -> Seq<char> {
    "collection \""@ + name + "\" has an unrecognised creationId ("@ + creation
        + ") — skipped"@
}

/// The kind of a collection row from its `creationId`, or the note that
/// says why the row is skipped — an absent id reads as `none`.
pub fn collection_kind(creation: Option<&str>, name: &str) -> (r: Result<LrCollectionKind, String>)
    ensures
        match creation {
            Some(c) => match kind_named(c@) {
                Some(k) => r == Ok::<LrCollectionKind, String>(k),
                None => r matches Err(m) && m@ == unknown_kind_note(name@, c@),
            },
            None => r matches Err(m) && m@ == unknown_kind_note(name@, "none"@),
        },
{
    let shown = match creation {
        Some(c) => {
            let v = chars_of(c);
            if same(&v, &chars_of(CREATION_COLLECTION)) {
                return Ok(LrCollectionKind::Collection);
            }
            if same(&v, &chars_of(CREATION_SET)) {
                return Ok(LrCollectionKind::CollectionSet);
            }
            if same(&v, &chars_of(CREATION_SMART)) {
                return Ok(LrCollectionKind::Smart);
            }
            c
        },
        None => "none",
    };
    let m = text_of(&["collection \"", name, "\" has an unrecognised creationId (", shown, ") — skipped"]);
    proof {
        reveal_with_fuel(Seq::fold_left, 6);
    }
    Err(string_of(&m))
}

// ---------------------------------------------------------------- keywords

/// The keyword row at `id`: the last row with it, as a map collected from
/// the rows keeps it.
pub open spec fn keyword_row(nodes: Seq<(i64, Option<String>, Option<i64>)>, id: i64) -> Option<
    (i64, Option<String>, Option<i64>),
>
    decreases nodes.len(),
{
    if nodes.len() == 0 {
        None
    } else if nodes.last().0 == id {
        Some(nodes.last())
    } else {
        keyword_row(nodes.drop_last(), id)
    }
}

/// The tag a keyword's own name gives: trimmed and lowercased, none when
/// that leaves nothing (Lightroom's nameless root among them).
pub open spec fn keyword_tag(name: Option<String>) -> Seq<Seq<char>> {
    match name {
        Some(n) => if lowercase(trim(n@)).len() > 0 {
            seq![lowercase(trim(n@))]
        } else {
            Seq::<Seq<char>>::empty()
        },
        None => Seq::<Seq<char>>::empty(),
    }
}

/// The tags a keyword stands for: its own and each ancestor's, nearest
/// first, each keyword visited once — a repeat or a missing row ends the
/// walk. `fuel` bounds it, and one step per row is always enough
/// ([`lemma_keyword_budget`]).
pub open spec fn keyword_chain(
    nodes: Seq<(i64, Option<String>, Option<i64>)>,
    at: i64,
    seen: Seq<i64>,
    fuel: nat,
) -> Seq<Seq<char>>
    decreases fuel,
{
    if fuel == 0 || seen.contains(at) {
        Seq::<Seq<char>>::empty()
    } else {
        match keyword_row(nodes, at) {
            None => Seq::<Seq<char>>::empty(),
            Some(n) => keyword_tag(n.1) + match n.2 {
                Some(p) => keyword_chain(nodes, p, seen.push(at), (fuel - 1) as nat),
                None => Seq::<Seq<char>>::empty(),
            },
        }
    }
}

/// The ids the keyword rows carry.
pub open spec fn keyword_ids(nodes: Seq<(i64, Option<String>, Option<i64>)>) -> Set<i64> {
    nodes.map_values(|n: (i64, Option<String>, Option<i64>)| n.0).to_set()
}

proof fn lemma_keyword_row_found(nodes: Seq<(i64, Option<String>, Option<i64>)>, id: i64)
    requires
        keyword_row(nodes, id) is Some,
    ensures
        keyword_ids(nodes).contains(id),
    decreases nodes.len(),
{
    let ids = nodes.map_values(|n: (i64, Option<String>, Option<i64>)| n.0);
    if nodes.last().0 == id {
        assert(ids[nodes.len() - 1] == id);
    } else {
        lemma_keyword_row_found(nodes.drop_last(), id);
        let d = nodes.drop_last().map_values(|n: (i64, Option<String>, Option<i64>)| n.0);
        let k = choose|k: int| 0 <= k < d.len() && d[k] == id;
        assert(ids[k] == id);
    }
}

/// Each keyword is visited at most once, so a budget covering the keywords
/// not yet visited never cuts the walk short: any two give the same tags.
pub proof fn lemma_keyword_budget(
    nodes: Seq<(i64, Option<String>, Option<i64>)>,
    at: i64,
    seen: Seq<i64>,
    f1: nat,
    f2: nat,
)
    requires
        seen.to_set().subset_of(keyword_ids(nodes)),
        f1 + seen.to_set().len() >= keyword_ids(nodes).len(),
        f2 + seen.to_set().len() >= keyword_ids(nodes).len(),
    ensures
        keyword_chain(nodes, at, seen, f1) == keyword_chain(nodes, at, seen, f2),
    decreases f1,
{
    if !seen.contains(at) {
        if let Some(n) = keyword_row(nodes, at) {
            lemma_keyword_row_found(nodes, at);
            let ids = keyword_ids(nodes);
            vstd::seq_lib::seq_to_set_is_finite(
                nodes.map_values(|n: (i64, Option<String>, Option<i64>)| n.0),
            );
            let grown = seen.to_set().insert(at);
            assert(grown.subset_of(ids));
            vstd::set_lib::lemma_len_subset(grown, ids);
            vstd::set_lib::lemma_len_subset(seen.to_set(), ids);
            assert(!seen.to_set().contains(at));
            assert(grown.len() == seen.to_set().len() + 1);
            Seq::lemma_to_set_insert_commutes(seen, at);
            assert(seen.push(at) =~= seen + seq![at]);
            assert(seen.push(at).to_set() =~= grown);
            if let Some(p) = n.2 {
                lemma_keyword_budget(nodes, p, seen.push(at), (f1 - 1) as nat, (f2 - 1) as nat);
            }
        }
    }
}

fn keyword_at(nodes: &[(i64, Option<String>, Option<i64>)], id: i64) -> (r: Option<usize>)
    ensures
        match r {
            Some(k) => k < nodes@.len() && keyword_row(nodes@, id) == Some(nodes@[k as int]),
            None => keyword_row(nodes@, id) is None,
        },
{
    let mut j: usize = nodes.len();
    assert(nodes@.take(j as int) =~= nodes@);
    while j > 0
        invariant
            j <= nodes@.len(),
            keyword_row(nodes@, id) == keyword_row(nodes@.take(j as int), id),
        decreases j,
    {
        proof {
            assert(nodes@.take(j as int).last() == nodes@[j - 1]);
            assert(nodes@.take(j as int).drop_last() =~= nodes@.take(j - 1));
        }
        if nodes[j - 1].0 == id {
            return Some(j - 1);
        }
        j = j - 1;
    }
    None
}

/// The tag names one keyword puts on an image: its own name and each
/// ancestor's, trimmed and lowercased, the hierarchy flattened to plain tags.
pub fn keyword_names(nodes: &[(i64, Option<String>, Option<i64>)], keyword: i64) -> (r: Vec<String>)
    ensures
        list_view(r@) == keyword_chain(nodes@, keyword, Seq::<i64>::empty(), nodes@.len() as nat),
{
    let n = nodes.len();
    let mut out: Vec<String> = Vec::new();
    let mut seen: Vec<i64> = Vec::new();
    let mut at = keyword;
    let mut fuel: usize = n;
    let mut walking = true;
    assert(list_view(out@) =~= Seq::<Seq<char>>::empty());
    while walking && fuel > 0
        invariant
            n == nodes@.len(),
            fuel <= n,
            list_view(out@) + keyword_chain(nodes@, at, seen@, fuel as nat) == keyword_chain(
                nodes@,
                keyword,
                Seq::<i64>::empty(),
                n as nat,
            ),
            !walking ==> keyword_chain(nodes@, at, seen@, fuel as nat) == Seq::<Seq<char>>::empty(),
        decreases fuel + (if walking {
            1int
        } else {
            0int
        }),
    {
        let repeat = crate::album_rules::holds(&seen, at);
        if repeat {
            walking = false;
        } else {
            match keyword_at(nodes, at) {
                None => {
                    walking = false;
                },
                Some(row) => {
                    let ghost before = list_view(out@);
                    let ghost seen0 = seen@;
                    let ghost fuel0 = fuel as nat;
                    let ghost at0 = at;
                    let ghost node = nodes@[row as int];
                    let ghost own = keyword_tag(node.1);
                    match &nodes[row].1 {
                        Some(name) => {
                            let v = chars_of(name.as_str());
                            let t = trimmed(&v);
                            let low = lowercased(&t);
                            if low.len() > 0 {
                                out.push(string_of(&low));
                            }
                        },
                        None => {},
                    }
                    proof {
                        assert(list_view(out@) =~= before + own);
                    }
                    seen.push(at);
                    fuel = fuel - 1;
                    match nodes[row].2 {
                        Some(p) => {
                            at = p;
                            proof {
                                assert(keyword_chain(nodes@, at0, seen0, fuel0) == own
                                    + keyword_chain(nodes@, p, seen0.push(at0), (fuel0 - 1) as nat));
                                assert(before + (own + keyword_chain(nodes@, at, seen@, fuel as nat))
                                    =~= list_view(out@) + keyword_chain(nodes@, at, seen@, fuel as nat));
                            }
                        },
                        None => {
                            walking = false;
                            proof {
                                assert(seen@[seen0.len() as int] == at0);
                                assert(seen@.contains(at0));
                                assert(keyword_chain(nodes@, at, seen@, fuel as nat)
                                    == Seq::<Seq<char>>::empty());
                                assert(keyword_chain(nodes@, at0, seen0, fuel0) == own
                                    + Seq::<Seq<char>>::empty());
                                assert(own + Seq::<Seq<char>>::empty() =~= own);
                                assert(before + own =~= list_view(out@));
                            }
                        },
                    }
                },
            }
        }
    }
    proof {
        if walking {
            assert(fuel == 0);
        }
        assert(list_view(out@) + Seq::<Seq<char>>::empty() =~= list_view(out@));
    }
    out
}

/// `names` added to `acc`, each only if `acc` does not hold it yet.
pub open spec fn merged_in(acc: Seq<Seq<char>>, names: Seq<Seq<char>>) -> Seq<Seq<char>>
    decreases names.len(),
{
    if names.len() == 0 {
        acc
    } else {
        let a = merged_in(acc, names.drop_last());
        if a.contains(names.last()) {
            a
        } else {
            a.push(names.last())
        }
    }
}

/// The tags an image gets from its keyword links `(keyword, image)`, in the
/// order the links come, each tag once.
pub open spec fn image_tags(
    nodes: Seq<(i64, Option<String>, Option<i64>)>,
    links: Seq<(i64, i64)>,
    image: i64,
) -> Seq<Seq<char>>
    decreases links.len(),
{
    if links.len() == 0 {
        Seq::<Seq<char>>::empty()
    } else {
        let prev = image_tags(nodes, links.drop_last(), image);
        let l = links.last();
        if l.1 == image {
            merged_in(prev, keyword_chain(nodes, l.0, Seq::<i64>::empty(), nodes.len() as nat))
        } else {
            prev
        }
    }
}

/// No tag twice.
pub open spec fn each_once(v: Seq<Seq<char>>) -> bool {
    forall|i: int, j: int| 0 <= i < j < v.len() ==> #[trigger] v[i] != #[trigger] v[j]
}

fn holds_text(v: &Vec<String>, t: &[char]) -> (r: bool)
    ensures
        r == list_view(v@).contains(t@),
{
    let mut i: usize = 0;
    while i < v.len()
        invariant
            i <= v@.len(),
            forall|k: int| 0 <= k < i ==> v@[k]@ != t@,
        decreases v@.len() - i,
    {
        let c = chars_of(v[i].as_str());
        if same(&c, t) {
            assert(list_view(v@)[i as int] == t@);
            return true;
        }
        i = i + 1;
    }
    assert forall|k: int| 0 <= k < list_view(v@).len() implies list_view(v@)[k] != t@ by {
        assert(list_view(v@)[k] == v@[k]@);
    }
    false
}

/// The tags Lightroom's keywords put on one image: for each keyword linked to
/// it, in link order, the keyword's flattened names, each tag once.
pub fn image_keywords(nodes: &[(i64, Option<String>, Option<i64>)], links: &[(i64, i64)], image: i64) -> (r: Vec<String>)
    ensures
        list_view(r@) == image_tags(nodes@, links@, image),
        each_once(list_view(r@)),
{
    let mut out: Vec<String> = Vec::new();
    let mut i: usize = 0;
    assert(links@.take(0) =~= Seq::<(i64, i64)>::empty());
    assert(list_view(out@) =~= Seq::<Seq<char>>::empty());
    while i < links.len()
        invariant
            i <= links@.len(),
            list_view(out@) == image_tags(nodes@, links@.take(i as int), image),
            each_once(list_view(out@)),
        decreases links@.len() - i,
    {
        proof {
            assert(links@.take(i + 1).drop_last() =~= links@.take(i as int));
            assert(links@.take(i + 1).last() == links@[i as int]);
        }
        if links[i].1 == image {
            let names = keyword_names(nodes, links[i].0);
            let ghost acc0 = list_view(out@);
            let ghost nv = list_view(names@);
            let mut k: usize = 0;
            assert(nv.take(0) =~= Seq::<Seq<char>>::empty());
            while k < names.len()
                invariant
                    k <= names@.len(),
                    nv == list_view(names@),
                    list_view(out@) == merged_in(acc0, nv.take(k as int)),
                    each_once(list_view(out@)),
                decreases names@.len() - k,
            {
                let t = chars_of(names[k].as_str());
                let have = holds_text(&out, &t);
                let ghost before = list_view(out@);
                proof {
                    assert(nv.take(k + 1).drop_last() =~= nv.take(k as int));
                    assert(nv.take(k + 1).last() == names@[k as int]@);
                }
                if !have {
                    out.push(names[k].clone());
                    proof {
                        assert(list_view(out@) =~= before.push(t@));
                        assert forall|a: int, b: int| 0 <= a < b < list_view(out@).len() implies #[trigger] list_view(out@)[a] != #[trigger] list_view(out@)[b] by {
                            if b == before.len() {
                                assert(list_view(out@)[a] == before[a]);
                                assert(before.contains(before[a]));
                            } else {
                                assert(list_view(out@)[a] == before[a]);
                                assert(list_view(out@)[b] == before[b]);
                            }
                        }
                    }
                }
                k = k + 1;
            }
            assert(nv.take(names@.len() as int) =~= nv);
        }
        i = i + 1;
    }
    assert(links@.take(links@.len() as int) =~= links@);
    out
}

// ----------------------------------------------------------- destinations

/// The folder copied files land in: the one asked for, made a safe segment,
/// or `lr`.
pub fn dest_subdir_of(asked: &Option<String>) -> (r: String)
    ensures
        r@ == match asked {
            Some(s) => if safe_name(s@).len() > 0 {
                safe_name(s@)
            } else {
                DEFAULT_DEST_SUBDIR@
            },
            None => DEFAULT_DEST_SUBDIR@,
        },
{
    match asked {
        Some(s) => {
            let safe = safe_segment(s.as_str());
            if chars_of(safe.as_str()).len() > 0 {
                safe
            } else {
                DEFAULT_DEST_SUBDIR.to_string()
            }
        },
        None => DEFAULT_DEST_SUBDIR.to_string(),
    }
}

/// The album path a collection computes to: its Lightroom path, under the
/// run's album prefix when one is given — the prefix normalised the way album
/// paths are, and the run refused when it cannot be.
pub fn album_target(prefix: &Option<String>, lr_path: &str) -> (r: Result<String, Error>)
    ensures
        match prefix {
            None => r matches Ok(p) && p@ == lr_path@,
            Some(x) => match normalized(x@) {
                Some(n) => r matches Ok(p) && p@ == n + seq!['/'] + lr_path@,
                None => r matches Err(Error::InvalidPath(m)) && m@ == x@,
            },
        },
{
    match prefix {
        None => Ok(lr_path.to_string()),
        Some(x) => {
            let n = normalize_path(x.as_str())?;
            let mut out = chars_of(n.as_str());
            out.push('/');
            extend(&mut out, &chars_of(lr_path));
            Ok(string_of(&out))
        },
    }
}

// ------------------------------------------------------------ catalog names

/// The BLAKE3 hex of a path as displayed.
pub open spec fn path_hash(display: Seq<char>) -> Seq<char> {
    hex_text(blake3_digest(encode_utf8(display)))
}

/// The name the staging copy of a catalog takes: the first 16 hex digits of
/// the hash of its path, so two catalogs never share a copy and one catalog
/// always reuses its own.
pub fn staged_copy_name(display: &str) -> (r: String)
    ensures
        r@ == path_hash(display@).take(16) + ".lrcat"@,
{
    let digest = blake3_hash(display.as_bytes());
    proof {
        lemma_hex_text(blake3_digest(encode_utf8(display@)));
    }
    let hex = hex_of(&digest);
    let h = chars_of(hex.as_str());
    let mut out = slice_of(&h, 0, 16);
    extend(&mut out, &chars_of(".lrcat"));
    string_of(&out)
}

/// The id a catalog that carries none of its own is linked under: `path-`
/// and the hash of its canonical path. A catalog moved on disk therefore
/// reads as a new one.
pub fn path_catalog_id(display: &str) -> (r: String)
    ensures
        r@ == "path-"@ + path_hash(display@),
{
    let digest = blake3_hash(display.as_bytes());
    let hex = hex_of(&digest);
    let mut out = chars_of("path-");
    extend(&mut out, &chars_of(hex.as_str()));
    string_of(&out)
}


// ------------------------------------------------------------- image pass

/// Where one root's files go, resolved for a run.
#[derive(Debug, Clone, Copy, PartialEq, Eq, Structural)]
pub enum Placement {
    /// Catalogue in place, under this registered source.
    InSource(i64),
    /// A dry run's answer for a root a real run would register as a source.
    WouldReference,
    /// Copy into the primary source under `dest_subdir`.
    CopyIn,
}

/// The placement a root's plan comes to: a root to register is, on a dry run,
/// only reported; on a real run it is under the source registering gave it,
/// or copied in when registering failed.
pub fn placement_of(plan: RootPlan, dry: bool, registered: Option<i64>) -> (r: Placement)
    ensures
        r == match plan {
            RootPlan::InSource(id) => Placement::InSource(id),
            RootPlan::CopyIn => Placement::CopyIn,
            RootPlan::Register => if dry {
                Placement::WouldReference
            } else {
                match registered {
                    Some(id) => Placement::InSource(id),
                    None => Placement::CopyIn,
                }
            },
        },
{
    match plan {
        RootPlan::InSource(id) => Placement::InSource(id),
        RootPlan::CopyIn => Placement::CopyIn,
        RootPlan::Register => if dry {
            Placement::WouldReference
        } else {
            match registered {
                Some(id) => Placement::InSource(id),
                None => Placement::CopyIn,
            }
        },
    }
}

/// What the image pass does with one Lightroom image.
#[derive(Debug, Clone, PartialEq, Eq)]
pub enum ImageStep {
    /// Linked to a live row by an earlier run: its metadata is carried across
    /// again, and nothing else happens.
    Resync(i64),
    /// Its root is unknown, or its file is not on disk.
    SkipMissing,
    /// Its bytes are already catalogued under this row: linked, not copied.
    LinkExisting(i64),
    /// Left alone, and why.
    Conflict(String),
    /// Catalogued where it lies: its path within the source, the source, and
    /// whether that source is other than the primary one.
    InPlace { rel: String, source: i64, referenced: bool },
    /// Copied into the library at `rel`; `new_bytes` is what there is to copy,
    /// none when the identical file is already there.
    Copy { rel: String, new_bytes: Option<u64> },
}

/// An [`ImageStep`] with its texts as characters.
pub enum StepView {
    Resync(i64),
    SkipMissing,
    LinkExisting(i64),
    Conflict(Seq<char>),
    InPlace(Seq<char>, i64, bool),
    Copy(Seq<char>, Option<u64>),
}

impl View for ImageStep {
    type V = StepView;

    open spec fn view(&self) -> StepView {
        match self {
            ImageStep::Resync(id) => StepView::Resync(*id),
            ImageStep::SkipMissing => StepView::SkipMissing,
            ImageStep::LinkExisting(id) => StepView::LinkExisting(*id),
            ImageStep::Conflict(m) => StepView::Conflict(m@),
            ImageStep::InPlace { rel, source, referenced } => StepView::InPlace(rel@, *source, *referenced),
            ImageStep::Copy { rel, new_bytes } => StepView::Copy(rel@, *new_bytes),
        }
    }
}

/// The report line for an in-source file that is not under its source.
pub open spec fn outside_source_line(rel_from_root: Seq<char>) -> Seq<char> {
    rel_from_root + ": its file is not under the source it was placed in — skipped"@
}

/// The report line for a copy whose destination holds other bytes.
pub open spec fn occupied_line(rel_from_root: Seq<char>, rel: Seq<char>) -> Seq<char> {
    rel_from_root + ": "@ + rel + " already exists in the library with different bytes — not overwritten, photo skipped"@
}

/// Where a copied-in image lands, as [`copy_in_rel`] builds it.
pub open spec fn copy_rel(dest_subdir: Seq<char>, root_name: Seq<char>, rel_from_root: Seq<char>) -> Seq<char> {
    dest_subdir + seq!['/'] + safe_name(root_name) + safe_tail(split(rel_from_root, '/'))
}

/// A root's name as characters, with its placement.
pub open spec fn root_view(root: Option<(String, Placement)>) -> Option<(Seq<char>, Placement)> {
    match root {
        Some((n, p)) => Some((n@, p)),
        None => None,
    }
}

/// The decision for one image. An image linked to a live row re-syncs; one
/// whose root is unknown or whose file is missing is skipped; on a root that
/// is copied in, bytes the catalog already has are linked to that row; an
/// in-source file outside its source, and a destination holding different
/// bytes, are conflicts — nothing is overwritten.
pub open spec fn image_step_spec(
    linked_alive: Option<i64>,
    root: Option<(Seq<char>, Placement)>,
    file_on_disk: bool,
    hash_owner: Option<i64>,
    rel_in_source: Option<Seq<char>>,
    primary: i64,
    dest_subdir: Seq<char>,
    rel_from_root: Seq<char>,
    dest_exists: bool,
    dest_same: bool,
    size: u64,
) -> StepView {
    match linked_alive {
        Some(id) => StepView::Resync(id),
        None => match root {
            None => StepView::SkipMissing,
            Some((name, placement)) => if !file_on_disk {
                StepView::SkipMissing
            } else {
                match placement {
                    Placement::InSource(id) => match rel_in_source {
                        None => StepView::Conflict(outside_source_line(rel_from_root)),
                        Some(rel) => StepView::InPlace(rel, id, id != primary),
                    },
                    Placement::WouldReference => StepView::InPlace(rel_from_root, primary, true),
                    Placement::CopyIn => match hash_owner {
                        Some(owner) => StepView::LinkExisting(owner),
                        None => {
                            let rel = copy_rel(dest_subdir, name, rel_from_root);
                            if dest_exists && !dest_same {
                                StepView::Conflict(occupied_line(rel_from_root, rel))
                            } else {
                                StepView::Copy(rel, if dest_exists { None } else { Some(size) })
                            }
                        },
                    },
                }
            },
        },
    }
}

/// Decide what happens to one Lightroom image, from what the catalog and the
/// disk say about it: whether an earlier run linked it to a row that is still
/// there, its root's name and placement (none when the root is unknown),
/// whether its file is on disk, the row that already holds its bytes, its path
/// within the source it is placed in (none when it is not under it), the
/// primary source, the copy folder, its path from its root, and whether the
/// copy destination exists and holds the same bytes, and the file's size.
/// Whether the run is a dry one changes nothing here — only which writes
/// follow ([`follow_up`]).
pub fn image_step(
    linked_alive: Option<i64>,
    root: &Option<(String, Placement)>,
    file_on_disk: bool,
    hash_owner: Option<i64>,
    rel_in_source: &Option<String>,
    primary: i64,
    dest_subdir: &str,
    rel_from_root: &str,
    dest_exists: bool,
    dest_same: bool,
    size: u64,
) -> (r: ImageStep)
    ensures
        r@ == image_step_spec(
            linked_alive,
            root_view(*root),
            file_on_disk,
            hash_owner,
            match rel_in_source {
                Some(s) => Some(s@),
                None => None,
            },
            primary,
            dest_subdir@,
            rel_from_root@,
            dest_exists,
            dest_same,
            size,
        ),
{
    if let Some(id) = linked_alive {
        return ImageStep::Resync(id);
    }
    let (name, placement) = match root {
        None => return ImageStep::SkipMissing,
        Some((n, p)) => (n, *p),
    };
    if !file_on_disk {
        return ImageStep::SkipMissing;
    }
    match placement {
        Placement::InSource(id) => match rel_in_source {
            None => {
                let m = text_of(&[rel_from_root, ": its file is not under the source it was placed in — skipped"]);
                proof {
                    reveal_with_fuel(Seq::fold_left, 3);
                }
                ImageStep::Conflict(string_of(&m))
            },
            Some(rel) => ImageStep::InPlace { rel: rel.clone(), source: id, referenced: id != primary },
        },
        Placement::WouldReference => ImageStep::InPlace {
            rel: rel_from_root.to_string(),
            source: primary,
            referenced: true,
        },
        Placement::CopyIn => match hash_owner {
            Some(owner) => ImageStep::LinkExisting(owner),
            None => {
                let rel = copy_in_rel(dest_subdir, name.as_str(), rel_from_root);
                if dest_exists && !dest_same {
                    let m = text_of(&[
                        rel_from_root,
                        ": ",
                        rel.as_str(),
                        " already exists in the library with different bytes — not overwritten, photo skipped",
                    ]);
                    proof {
                        reveal_with_fuel(Seq::fold_left, 5);
                    }
                    ImageStep::Conflict(string_of(&m))
                } else {
                    ImageStep::Copy { rel, new_bytes: if dest_exists { None } else { Some(size) } }
                }
            },
        },
    }
}

/// The writes that follow one step: copying the file, cataloguing a row,
/// linking the image to its row, carrying its metadata across.
#[derive(Debug, Clone, Copy, PartialEq, Eq, Structural)]
pub struct Writes {
    pub copy_file: bool,
    pub catalogue: bool,
    pub link: bool,
    pub metadata: bool,
}

/// What a step writes: nothing at all on a dry run; otherwise a re-sync only
/// carries metadata, a byte match links and carries metadata, and a new photo
/// is catalogued, linked and given its metadata — its file copied first when
/// there are bytes to copy.
pub open spec fn writes_of(s: StepView, dry: bool) -> Writes {
    if dry {
        Writes { copy_file: false, catalogue: false, link: false, metadata: false }
    } else {
        match s {
            StepView::Resync(_) => Writes { copy_file: false, catalogue: false, link: false, metadata: true },
            StepView::LinkExisting(_) => Writes { copy_file: false, catalogue: false, link: true, metadata: true },
            StepView::InPlace(..) => Writes { copy_file: false, catalogue: true, link: true, metadata: true },
            StepView::Copy(_, b) => Writes { copy_file: b is Some, catalogue: true, link: true, metadata: true },
            _ => Writes { copy_file: false, catalogue: false, link: false, metadata: false },
        }
    }
}

/// The writes one step calls for.
pub fn follow_up(s: &ImageStep, dry: bool) -> (r: Writes)
    ensures
        r == writes_of(s@, dry),
{
    let none = Writes { copy_file: false, catalogue: false, link: false, metadata: false };
    if dry {
        return none;
    }
    match s {
        ImageStep::Resync(_) => Writes { copy_file: false, catalogue: false, link: false, metadata: true },
        ImageStep::LinkExisting(_) => Writes { copy_file: false, catalogue: false, link: true, metadata: true },
        ImageStep::InPlace { .. } => Writes { copy_file: false, catalogue: true, link: true, metadata: true },
        ImageStep::Copy { new_bytes, .. } => Writes {
            copy_file: new_bytes.is_some(),
            catalogue: true,
            link: true,
            metadata: true,
        },
        _ => none,
    }
}

/// A dry run writes nothing, whatever the step.
pub proof fn lemma_dry_run_writes_nothing(s: StepView)
    ensures
        writes_of(s, true) == (Writes { copy_file: false, catalogue: false, link: false, metadata: false }),
{
}

/// The counts of an import report that the image pass moves.
pub struct Tally {
    pub copied: int,
    pub linked_existing: int,
    pub in_place: int,
    pub referenced: int,
    pub skipped_missing: int,
    pub bytes_copied: int,
    pub conflicts: Seq<Seq<char>>,
    pub tags_added: int,
}

impl LrImportReport {
    /// The counts the image pass moves.
    pub open spec fn tally_view(&self) -> Tally {
        Tally {
            copied: self.photos_copied as int,
            linked_existing: self.photos_linked_existing as int,
            in_place: self.photos_in_place as int,
            referenced: self.photos_referenced as int,
            skipped_missing: self.skipped_missing_files as int,
            bytes_copied: self.bytes_copied as int,
            conflicts: list_view(self.conflicts@),
            tags_added: self.tags_added as int,
        }
    }
}

/// The tags one step adds. `tags` is, on a real run, how many tag links
/// writing its metadata made, and on a dry run how many keywords the image
/// has: a dry run forecasts them for the photos a real run would catalogue.
pub open spec fn tags_gained(s: StepView, dry: bool, tags: nat) -> int {
    match s {
        StepView::InPlace(..) | StepView::Copy(..) => tags as int,
        StepView::Resync(_) | StepView::LinkExisting(_) => if dry { 0 } else { tags as int },
        _ => 0,
    }
}

/// The counts after one step.
pub open spec fn step_tally(t: Tally, s: StepView, dry: bool, tags: nat) -> Tally {
    Tally {
        copied: t.copied + if s is Copy { 1int } else { 0int },
        linked_existing: t.linked_existing + if s is LinkExisting { 1int } else { 0int },
        in_place: t.in_place + if s is InPlace { 1int } else { 0int },
        referenced: t.referenced + if s matches StepView::InPlace(_, _, true) { 1int } else { 0int },
        skipped_missing: t.skipped_missing + if s is SkipMissing { 1int } else { 0int },
        bytes_copied: t.bytes_copied + match s {
            StepView::Copy(_, Some(n)) => n as int,
            _ => 0int,
        },
        conflicts: match s {
            StepView::Conflict(m) => t.conflicts.push(m),
            _ => t.conflicts,
        },
        tags_added: t.tags_added + tags_gained(s, dry, tags),
    }
}

/// Count one step into the report. Nothing but the image pass's counts
/// changes.
pub fn tally(rep: &mut LrImportReport, s: &ImageStep, dry: bool, tags: usize)
    requires
        old(rep).photos_copied < usize::MAX,
        old(rep).photos_linked_existing < usize::MAX,
        old(rep).photos_in_place < usize::MAX,
        old(rep).photos_referenced < usize::MAX,
        old(rep).skipped_missing_files < usize::MAX,
        old(rep).tags_added + tags <= usize::MAX,
        s@ matches StepView::Copy(_, Some(n)) ==> old(rep).bytes_copied + n <= u64::MAX,
    ensures
        final(rep).tally_view() == step_tally(old(rep).tally_view(), s@, dry, tags as nat),
        final(rep).sources_registered@ == old(rep).sources_registered@,
        final(rep).albums_created == old(rep).albums_created,
        final(rep).albums_updated == old(rep).albums_updated,
        final(rep).memberships_added == old(rep).memberships_added,
        final(rep).collisions@ == old(rep).collisions@,
        final(rep).lr_deleted@ == old(rep).lr_deleted@,
        final(rep).cancelled == old(rep).cancelled,
        final(rep).dry_run == old(rep).dry_run,
{
    let ghost before = list_view(rep.conflicts@);
    match s {
        ImageStep::Resync(_) => {
            if !dry {
                rep.tags_added = rep.tags_added + tags;
            }
        },
        ImageStep::SkipMissing => {
            rep.skipped_missing_files = rep.skipped_missing_files + 1;
        },
        ImageStep::LinkExisting(_) => {
            rep.photos_linked_existing = rep.photos_linked_existing + 1;
            if !dry {
                rep.tags_added = rep.tags_added + tags;
            }
        },
        ImageStep::Conflict(m) => {
            rep.conflicts.push(m.clone());
            proof {
                assert(list_view(rep.conflicts@) =~= before.push(m@));
            }
        },
        ImageStep::InPlace { referenced, .. } => {
            rep.photos_in_place = rep.photos_in_place + 1;
            if *referenced {
                rep.photos_referenced = rep.photos_referenced + 1;
            }
            rep.tags_added = rep.tags_added + tags;
        },
        ImageStep::Copy { new_bytes, .. } => {
            rep.photos_copied = rep.photos_copied + 1;
            if let Some(n) = new_bytes {
                rep.bytes_copied = rep.bytes_copied + *n;
            }
            rep.tags_added = rep.tags_added + tags;
        },
    }
    proof {
        if !(s@ is Conflict) {
            assert(list_view(rep.conflicts@) =~= before);
        }
    }
}

/// The counts after a run of steps, each with its tag count.
pub open spec fn tally_run(t: Tally, steps: Seq<StepView>, dry: bool, tags: Seq<nat>) -> Tally
    decreases steps.len(),
{
    if steps.len() == 0 {
        t
    } else {
        step_tally(
            tally_run(t, steps.drop_last(), dry, tags.drop_last()),
            steps.last(),
            dry,
            tags.last(),
        )
    }
}

/// An image linked to a live row by an earlier run is re-synced, whatever
/// else holds of it.
pub proof fn lemma_linked_image_resyncs(
    id: i64,
    root: Option<(Seq<char>, Placement)>,
    file_on_disk: bool,
    hash_owner: Option<i64>,
    rel_in_source: Option<Seq<char>>,
    primary: i64,
    dest_subdir: Seq<char>,
    rel_from_root: Seq<char>,
    dest_exists: bool,
    dest_same: bool,
    size: u64,
)
    ensures
        image_step_spec(
            Some(id),
            root,
            file_on_disk,
            hash_owner,
            rel_in_source,
            primary,
            dest_subdir,
            rel_from_root,
            dest_exists,
            dest_same,
            size,
        ) == StepView::Resync(id),
{
}

/// Re-running an import over a catalog whose every image is already linked
/// to a live row syncs rather than duplicates: every step is a re-sync, and
/// the run adds no photo, copy, link, byte, skip or conflict — only the tags
/// its metadata carries.
pub proof fn lemma_rerun_adds_nothing(t: Tally, steps: Seq<StepView>, dry: bool, tags: Seq<nat>)
    requires
        tags.len() == steps.len(),
        forall|k: int| 0 <= k < steps.len() ==> #[trigger] steps[k] is Resync,
    ensures
        ({
            let r = tally_run(t, steps, dry, tags);
            &&& r.copied == t.copied
            &&& r.linked_existing == t.linked_existing
            &&& r.in_place == t.in_place
            &&& r.referenced == t.referenced
            &&& r.skipped_missing == t.skipped_missing
            &&& r.bytes_copied == t.bytes_copied
            &&& r.conflicts == t.conflicts
        }),
    decreases steps.len(),
{
    if steps.len() > 0 {
        let d = steps.drop_last();
        assert forall|k: int| 0 <= k < d.len() implies #[trigger] d[k] is Resync by {
            assert(d[k] == steps[k]);
        }
        lemma_rerun_adds_nothing(t, d, dry, tags.drop_last());
        assert(steps.last() is Resync);
    }
}

/// A dry run counts every step as a real run does: only the tags differ,
/// the forecast standing in for what writing would add.
pub proof fn lemma_dry_run_forecasts(t: Tally, s: StepView, forecast: nat, written: nat)
    ensures
        ({
            let d = step_tally(t, s, true, forecast);
            let w = step_tally(t, s, false, written);
            &&& d.copied == w.copied
            &&& d.linked_existing == w.linked_existing
            &&& d.in_place == w.in_place
            &&& d.referenced == w.referenced
            &&& d.skipped_missing == w.skipped_missing
            &&& d.bytes_copied == w.bytes_copied
            &&& d.conflicts == w.conflicts
        }),
{
}

/// The report line for an image whose file format is not imported.
pub open spec fn unimportable_line(rel_from_root: Seq<char>) -> Seq<char> {
    rel_from_root + ": not a file format this app imports — skipped"@
}

/// The kind a new photo is catalogued as, or — for a file of a format this
/// app does not import — the conflict the report names it in.
pub fn catalogue_kind(abs: &str, rel_from_root: &str) -> (r: Result<PhotoKind, String>)
    ensures
        match classified(abs@) {
            Some(k) => r == Ok::<PhotoKind, String>(k),
            None => r matches Err(m) && m@ == unimportable_line(rel_from_root@),
        },
{
    match classify(abs) {
        Some(k) => Ok(k),
        None => {
            let m = text_of(&[rel_from_root, ": not a file format this app imports — skipped"]);
            proof {
                reveal_with_fuel(Seq::fold_left, 3);
            }
            Err(string_of(&m))
        },
    }
}

/// The report line for a photo whose Lightroom image is gone.
pub open spec fn deleted_image_line(name: Seq<char>) -> Seq<char> {
    name + " (deleted in Lightroom; kept here)"@
}

/// How a deleted image's photo is named: its path, or its id when the row
/// is gone too.
pub open spec fn deleted_image_name(photo: i64, rel_path: Option<Seq<char>>) -> Seq<char> {
    match rel_path {
        Some(p) => p,
        None => "photo #"@ + int_text(photo as int),
    }
}

/// The linked photos whose Lightroom image the catalog no longer has —
/// reported, never deleted. Each link is the image id, the photo id and the
/// photo's path when its row is still there; `live` holds the image ids the
/// catalog still has.
pub fn deleted_images(links: &[(i64, i64, Option<String>)], live: &[i64]) -> (r: Vec<String>)
    ensures
        list_view(r@) == links@.filter(|l: (i64, i64, Option<String>)| !live@.contains(l.0)).map_values(
            |l: (i64, i64, Option<String>)| deleted_image_line(deleted_image_name(l.1, match l.2 {
                Some(p) => Some(p@),
                None => None,
            })),
        ),
{
    let ghost gone = |l: (i64, i64, Option<String>)| !live@.contains(l.0);
    let ghost line = |l: (i64, i64, Option<String>)| deleted_image_line(deleted_image_name(l.1, match l.2 {
        Some(p) => Some(p@),
        None => None,
    }));
    let mut out: Vec<String> = Vec::new();
    let mut i: usize = 0;
    assert(links@.take(0).filter(gone) =~= Seq::<(i64, i64, Option<String>)>::empty()) by {
        reveal(Seq::filter);
    }
    assert(list_view(out@) =~= links@.take(0).filter(gone).map_values(line));
    while i < links.len()
        invariant
            i <= links@.len(),
            gone == (|l: (i64, i64, Option<String>)| !live@.contains(l.0)),
            line == (|l: (i64, i64, Option<String>)| deleted_image_line(deleted_image_name(l.1, match l.2 {
                Some(p) => Some(p@),
                None => None,
            }))),
            list_view(out@) == links@.take(i as int).filter(gone).map_values(line),
        decreases links@.len() - i,
    {
        let present = crate::album_rules::holds(live, links[i].0);
        let ghost before = list_view(out@);
        proof {
            reveal(Seq::filter);
            assert(links@.take(i + 1).drop_last() =~= links@.take(i as int));
            assert(links@.take(i + 1).last() == links@[i as int]);
        }
        if !present {
            let mut name = match &links[i].2 {
                Some(p) => chars_of(p.as_str()),
                None => {
                    let mut n = chars_of("photo #");
                    extend(&mut n, &i64_text(links[i].1));
                    n
                },
            };
            proof {
                reveal_strlit("photo #");
            }
            extend(&mut name, &chars_of(" (deleted in Lightroom; kept here)"));
            let line_text = string_of(&name);
            out.push(line_text);
            proof {
                assert(list_view(out@) =~= before.push(name@));
            }
        }
        i = i + 1;
    }
    assert(links@.take(links@.len() as int) =~= links@);
    out
}


// ------------------------------------------------------------ image rows

/// A catalog row keyed by its id, with a number and a text: a file (its
/// folder and name) or a folder (its root and path from the root).
pub type Row = (i64, i64, String);

/// The rows with their texts as characters.
pub open spec fn row_texts(rows: Seq<Row>) -> Seq<(i64, i64, Seq<char>)> {
    rows.map_values(|r: Row| (r.0, r.1, r.2@))
}

/// The row a map collected from `rows` keeps for `id`: the last one.
pub open spec fn last_row(rows: Seq<(i64, i64, Seq<char>)>, id: i64) -> Option<(i64, i64, Seq<char>)>
    decreases rows.len(),
{
    if rows.len() == 0 {
        None
    } else if rows.last().0 == id {
        Some(rows.last())
    } else {
        last_row(rows.drop_last(), id)
    }
}

/// Where an image's file is, by its root file: the file row names a folder
/// and a file name, the folder row a root and a path from it. `None` when any
/// link of that chain is missing.
pub open spec fn image_place(
    files: Seq<(i64, i64, Seq<char>)>,
    folders: Seq<(i64, i64, Seq<char>)>,
    root_file: Option<i64>,
) -> Option<(i64, Seq<char>)> {
    match root_file {
        None => None,
        Some(f) => match last_row(files, f) {
            None => None,
            Some(file) => match last_row(folders, file.1) {
                None => None,
                Some(folder) => Some((folder.1, image_rel(folder.2, file.2))),
            },
        },
    }
}

/// Each image whose chain resolves, as its id, root id and path from the
/// root, in the order given.
pub open spec fn resolved_images(
    images: Seq<(i64, Option<i64>)>,
    files: Seq<(i64, i64, Seq<char>)>,
    folders: Seq<(i64, i64, Seq<char>)>,
) -> Seq<(i64, i64, Seq<char>)>
    decreases images.len(),
{
    if images.len() == 0 {
        Seq::<(i64, i64, Seq<char>)>::empty()
    } else {
        let prev = resolved_images(images.drop_last(), files, folders);
        match image_place(files, folders, images.last().1) {
            Some(pl) => prev.push((images.last().0, pl.0, pl.1)),
            None => prev,
        }
    }
}

/// How many images have no file chain that resolves.
pub open spec fn unresolved_images(
    images: Seq<(i64, Option<i64>)>,
    files: Seq<(i64, i64, Seq<char>)>,
    folders: Seq<(i64, i64, Seq<char>)>,
) -> nat
    decreases images.len(),
{
    if images.len() == 0 {
        0
    } else {
        unresolved_images(images.drop_last(), files, folders) + if image_place(
            files,
            folders,
            images.last().1,
        ) is None {
            1nat
        } else {
            0nat
        }
    }
}

fn last_row_at(rows: &[Row], id: i64) -> (r: Option<usize>)
    ensures
        match r {
            Some(i) => i < rows@.len() && last_row(row_texts(rows@), id) == Some(row_texts(rows@)[i as int]),
            None => last_row(row_texts(rows@), id) is None,
        },
{
    let ghost t = row_texts(rows@);
    let mut j: usize = rows.len();
    assert(t.take(j as int) =~= t);
    while j > 0
        invariant
            j <= rows@.len(),
            t == row_texts(rows@),
            last_row(t, id) == last_row(t.take(j as int), id),
        decreases j,
    {
        proof {
            assert(t.take(j as int).last() == t[j - 1]);
            assert(t.take(j as int).drop_last() =~= t.take(j - 1));
        }
        if rows[j - 1].0 == id {
            return Some(j - 1);
        }
        j = j - 1;
    }
    None
}

/// The images of a catalog joined with their file and folder rows: each
/// image whose root file, file row and folder row all resolve, as its id,
/// root id and path from the root, and the count of those that do not — an
/// absence counted rather than a row dropped. Where rows share an id, the
/// last one counts, as a map collected from them keeps it.
pub fn resolve_images(images: &[(i64, Option<i64>)], files: &[Row], folders: &[Row]) -> (r: (
    Vec<(i64, i64, String)>,
    usize,
))
    ensures
        row_texts(r.0@) == resolved_images(images@, row_texts(files@), row_texts(folders@)),
        r.1 == unresolved_images(images@, row_texts(files@), row_texts(folders@)),
{
    let ghost fi = row_texts(files@);
    let ghost fo = row_texts(folders@);
    let mut out: Vec<(i64, i64, String)> = Vec::new();
    let mut missing: usize = 0;
    let mut i: usize = 0;
    assert(images@.take(0) =~= Seq::<(i64, Option<i64>)>::empty());
    assert(row_texts(out@) =~= Seq::<(i64, i64, Seq<char>)>::empty());
    while i < images.len()
        invariant
            i <= images@.len(),
            fi == row_texts(files@),
            fo == row_texts(folders@),
            row_texts(out@) == resolved_images(images@.take(i as int), fi, fo),
            missing == unresolved_images(images@.take(i as int), fi, fo),
            missing <= i,
        decreases images@.len() - i,
    {
        proof {
            assert(images@.take(i + 1).drop_last() =~= images@.take(i as int));
            assert(images@.take(i + 1).last() == images@[i as int]);
        }
        let (id, root_file) = images[i];
        let mut place: Option<(i64, String)> = None;
        if let Some(f) = root_file {
            if let Some(fx) = last_row_at(files, f) {
                if let Some(dx) = last_row_at(folders, files[fx].1) {
                    let rel = rel_from_root(folders[dx].2.as_str(), files[fx].2.as_str());
                    place = Some((folders[dx].1, rel));
                }
            }
        }
        assert(match place {
            Some(p) => image_place(fi, fo, root_file) == Some((p.0, p.1@)),
            None => image_place(fi, fo, root_file) is None,
        });
        match place {
            Some((root, rel)) => {
                let ghost before = row_texts(out@);
                out.push((id, root, rel));
                proof {
                    assert(row_texts(out@) =~= before.push((id, root, rel@)));
                }
            },
            None => {
                missing = missing + 1;
            },
        }
        i = i + 1;
    }
    assert(images@.take(images@.len() as int) =~= images@);
    (out, missing)
}

} // verus!
