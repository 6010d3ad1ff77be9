//! How an import run is configured, and which files it leaves alone.

use vstd::prelude::*;

use crate::develop::{blake3_digest, blake3_hash};
use crate::encoding::{hex_of, hex_text};
use crate::model::ImportSummary;
use crate::catalog::named_segments;
use crate::error::Error;
use crate::paths::{file_name, file_name_of, joined, push_path};
use crate::text::{chars_of, join, join_with, same, split, split_on, string_of, views};

verus! {

/// Options for one import run.
#[derive(Debug, Clone)]
pub struct ImportOptions {
    /// Recurse into subdirectories.
    pub recursive: bool,
    /// Generate thumbnails during import. Turning this off makes import fast
    /// and defers the work to first view.
    pub generate_thumbnails: bool,
    /// Re-read metadata for files already catalogued and unchanged.
    pub force: bool,
}

impl Default for ImportOptions {
    fn default() -> (r: Self)
        ensures
            r.recursive,
            r.generate_thumbnails,
            !r.force,
    {
        ImportOptions { recursive: true, generate_thumbnails: true, force: false }
    }
}

/// A file an import walks past: its name starts with a dot — dotfiles, and
/// the library's own `.gpp` directory with them.
pub open spec fn hidden(path: Seq<char>) -> bool {
    match file_name(path) {
        Some(n) => n.len() > 0 && n[0] == '.',
        None => false,
    }
}

/// Skip dotfiles and our own derived-data directory.
pub fn is_hidden(path: &str) -> (r: bool)
    ensures
        r == hidden(path@),
{
    match file_name_of(&crate::text::chars_of(path)) {
        Some(n) => n.len() > 0 && n[0] == '.',
        None => false,
    }
}

// ------------------------------------------------------------------ tally

/// Whether a scanned file can be passed over without reading it: the run is
/// not forced, and the catalog holds the file at the same size and
/// modification time — `known` is `(file_size, mtime_ms)` as catalogued.
pub fn unchanged(force: bool, known: Option<(i64, i64)>, file_size: i64, mtime_ms: i64) -> (r: bool)
    ensures
        r == (!force && known == Some((file_size, mtime_ms))),
{
    if force {
        return false;
    }
    match known {
        Some((size, mtime)) => size == file_size && mtime == mtime_ms,
        None => false,
    }
}

/// What became of one scanned file.
#[derive(Debug, Clone)]
pub enum FileOutcome {
    /// Unchanged since the last run; not read.
    Unchanged,
    /// Reading it failed; the message says why.
    Failed { rel_path: String, message: String },
    /// Its catalog row was written. `was_known` when a row for this path
    /// existed already; `same_bytes_elsewhere` when another path holds the
    /// same content.
    Written { was_known: bool, same_bytes_elsewhere: bool },
}

/// How many outcomes `p` holds of.
pub open spec fn count_where(s: Seq<FileOutcome>, p: spec_fn(FileOutcome) -> bool) -> nat
    decreases s.len(),
{
    if s.len() == 0 {
        0
    } else {
        count_where(s.drop_last(), p) + if p(s.last()) {
            1nat
        } else {
            0nat
        }
    }
}

/// The failures, in the order the files came.
pub open spec fn failures(s: Seq<FileOutcome>) -> Seq<(Seq<char>, Seq<char>)>
    decreases s.len(),
{
    if s.len() == 0 {
        Seq::empty()
    } else {
        match s.last() {
            FileOutcome::Failed { rel_path, message } => failures(s.drop_last()).push(
                (rel_path@, message@),
            ),
            _ => failures(s.drop_last()),
        }
    }
}

/// A new row.
pub open spec fn is_new(o: FileOutcome) -> bool {
    o matches FileOutcome::Written { was_known, .. } && !was_known
}

/// A new row whose bytes another path already holds.
pub open spec fn is_duplicate(o: FileOutcome) -> bool {
    o matches FileOutcome::Written { was_known, same_bytes_elsewhere } && !was_known
        && same_bytes_elsewhere
}

/// A row written again for a file that changed.
pub open spec fn is_update(o: FileOutcome) -> bool {
    o matches FileOutcome::Written { was_known, .. } && was_known
}

/// A file passed over.
pub open spec fn is_skip(o: FileOutcome) -> bool {
    o is Unchanged
}

proof fn lemma_count_bound(s: Seq<FileOutcome>, p: spec_fn(FileOutcome) -> bool)
    ensures
        count_where(s, p) <= s.len(),
    decreases s.len(),
{
    if s.len() > 0 {
        lemma_count_bound(s.drop_last(), p);
    }
}

/// What an import run reports, from what became of each file: a new row is
/// imported (and a duplicate too when its bytes are already catalogued under
/// another path), a rewritten row is an update, an unchanged file is skipped,
/// and each failure is listed with its message. Nothing was copied in and the
/// run was not cancelled.
pub fn summarize(outcomes: &[FileOutcome]) -> (r: ImportSummary)
    ensures
        r.imported == count_where(outcomes@, |o: FileOutcome| is_new(o)),
        r.duplicates == count_where(outcomes@, |o: FileOutcome| is_duplicate(o)),
        r.updated == count_where(outcomes@, |o: FileOutcome| is_update(o)),
        r.skipped == count_where(outcomes@, |o: FileOutcome| is_skip(o)),
        r.failed@.map_values(|f: (String, String)| (f.0@, f.1@)) == failures(outcomes@),
        r.copied_in == 0,
        r.copied_into is None,
        r.undecodable@.len() == 0,
        !r.cancelled,
{
    let ghost new = |o: FileOutcome| is_new(o);
    let ghost dup = |o: FileOutcome| is_duplicate(o);
    let ghost upd = |o: FileOutcome| is_update(o);
    let ghost skip = |o: FileOutcome| is_skip(o);
    let mut imported: usize = 0;
    let mut duplicates: usize = 0;
    let mut updated: usize = 0;
    let mut skipped: usize = 0;
    let mut failed: Vec<(String, String)> = Vec::new();
    let mut i: usize = 0;
    assert(outcomes@.take(0) =~= Seq::<FileOutcome>::empty());
    assert(failed@.map_values(|f: (String, String)| (f.0@, f.1@)) =~= Seq::<(Seq<char>, Seq<char>)>::empty());
    while i < outcomes.len()
        invariant
            i <= outcomes@.len(),
            new == (|o: FileOutcome| is_new(o)),
            dup == (|o: FileOutcome| is_duplicate(o)),
            upd == (|o: FileOutcome| is_update(o)),
            skip == (|o: FileOutcome| is_skip(o)),
            imported == count_where(outcomes@.take(i as int), new),
            duplicates == count_where(outcomes@.take(i as int), dup),
            updated == count_where(outcomes@.take(i as int), upd),
            skipped == count_where(outcomes@.take(i as int), skip),
            failed@.map_values(|f: (String, String)| (f.0@, f.1@)) == failures(outcomes@.take(i as int)),
        decreases outcomes@.len() - i,
    {
        proof {
            let t = outcomes@.take(i + 1);
            assert(t.drop_last() =~= outcomes@.take(i as int));
            assert(t.last() == outcomes@[i as int]);
            lemma_count_bound(outcomes@.take(i as int), new);
            lemma_count_bound(outcomes@.take(i as int), dup);
            lemma_count_bound(outcomes@.take(i as int), upd);
            lemma_count_bound(outcomes@.take(i as int), skip);
        }
        match &outcomes[i] {
            FileOutcome::Unchanged => {
                skipped = skipped + 1;
            },
            FileOutcome::Failed { rel_path, message } => {
                let ghost before = failed@.map_values(|f: (String, String)| (f.0@, f.1@));
                failed.push((rel_path.clone(), message.clone()));
                proof {
                    assert(failed@.map_values(|f: (String, String)| (f.0@, f.1@)) =~= before.push(
                        (rel_path@, message@),
                    ));
                }
            },
            FileOutcome::Written { was_known, same_bytes_elsewhere } => {
                if *was_known {
                    updated = updated + 1;
                } else {
                    imported = imported + 1;
                    if *same_bytes_elsewhere {
                        duplicates = duplicates + 1;
                    }
                }
            },
        }
        i = i + 1;
    }
    assert(outcomes@.take(outcomes@.len() as int) =~= outcomes@);
    ImportSummary {
        imported,
        duplicates,
        updated,
        skipped,
        failed,
        copied_in: 0,
        copied_into: None,
        undecodable: Vec::new(),
        cancelled: false,
    }
}

// ------------------------------------------------------------------- hash

/// The content hash of bytes held in memory — a fetched file, a generated
/// document: BLAKE3, as lowercase hex, the same text a file's hash takes in
/// the catalog and in every manifest.
pub fn content_hash(bytes: &[u8]) -> (r: String)
    ensures
        r@ == hex_text(blake3_digest(bytes@)),
{
    let digest = blake3_hash(bytes);
    hex_of(&digest)
}


// ------------------------------------------------------------------ paths

/// A path's components, as `Path::components` gives them for `/`-separated
/// text: the root (`/`) or a leading current-directory `.` first, then every
/// segment that names something — empty and `.` segments are no components.
pub open spec fn components(p: Seq<char>) -> Seq<Seq<char>> {
    let named = named_segments(split(p, '/'));
    if p.len() > 0 && p[0] == '/' {
        seq![seq!['/']] + named
    } else if p.len() > 0 && p[0] == '.' && (p.len() == 1 || p[1] == '/') {
        seq![seq!['.']] + named
    } else {
        named
    }
}

/// `Path::starts_with`: the components of `base` begin those of `p`.
pub open spec fn under_root(base: Seq<char>, p: Seq<char>) -> bool {
    let b = components(base);
    let c = components(p);
    b.len() <= c.len() && c.take(b.len() as int) == b
}

/// The folder a scan walks: the asked-for folder, taken from the library root
/// when relative — or `None` when it does not lie under the root.
pub open spec fn scan_folder(root: Seq<char>, dir: Seq<char>) -> Option<Seq<char>> {
    let d = push_path(root, dir);
    if under_root(root, d) {
        Some(d)
    } else {
        None
    }
}

/// A file's library-relative path: its components after the root's, joined
/// with `/` — or `None` when it does not lie under the root.
pub open spec fn rel_to(root: Seq<char>, path: Seq<char>) -> Option<Seq<char>> {
    if under_root(root, path) {
        Some(join(components(path).skip(components(root).len() as int), seq!['/']))
    } else {
        None
    }
}

fn components_of(v: &[char]) -> (r: Vec<Vec<char>>)
    ensures
        views(r@) == components(v@),
{
    let pieces = split_on(v, '/');
    let mut named: Vec<Vec<char>> = Vec::new();
    let mut i: usize = 0;
    assert(views(pieces@).take(0) =~= Seq::<Seq<char>>::empty());
    assert(views(named@) =~= Seq::<Seq<char>>::empty());
    while i < pieces.len()
        invariant
            i <= pieces@.len(),
            views(pieces@) == split(v@, '/'),
            views(named@) == named_segments(views(pieces@).take(i as int)),
        decreases pieces@.len() - i,
    {
        proof {
            assert(views(pieces@).take(i + 1).drop_last() =~= views(pieces@).take(i as int));
            assert(views(pieces@).take(i + 1).last() == pieces@[i as int]@);
        }
        let p = &pieces[i];
        let dot = p.len() == 1 && p[0] == '.';
        proof {
            if p@ == seq!['.'] {
                assert(dot);
            }
            if dot {
                assert(p@ =~= seq!['.']);
            }
        }
        if p.len() > 0 && !dot {
            let ghost before = views(named@);
            let copy = crate::text::slice_of(p, 0, p.len());
            assert(copy@ =~= p@);
            named.push(copy);
            proof {
                assert(views(named@) =~= before.push(p@));
            }
        }
        i = i + 1;
    }
    assert(views(pieces@).take(pieces@.len() as int) =~= views(pieces@));
    if v.len() > 0 && v[0] == '/' {
        let mut out: Vec<Vec<char>> = Vec::new();
        let mut r = Vec::new();
        r.push('/');
        out.push(r);
        out.append(&mut named);
        proof {
            assert(views(out@) =~= seq![seq!['/']] + named_segments(split(v@, '/')));
        }
        out
    } else if v.len() > 0 && v[0] == '.' && (v.len() == 1 || v[1] == '/') {
        let mut out: Vec<Vec<char>> = Vec::new();
        let mut r = Vec::new();
        r.push('.');
        out.push(r);
        out.append(&mut named);
        proof {
            assert(views(out@) =~= seq![seq!['.']] + named_segments(split(v@, '/')));
        }
        out
    } else {
        named
    }
}

fn begins_with_parts(base: &Vec<Vec<char>>, p: &Vec<Vec<char>>) -> (r: bool)
    ensures
        r == (views(base@).len() <= views(p@).len() && views(p@).take(views(base@).len() as int) == views(base@)),
{
    if base.len() > p.len() {
        return false;
    }
    let mut i: usize = 0;
    while i < base.len()
        invariant
            i <= base@.len() <= p@.len(),
            forall|k: int| 0 <= k < i ==> base@[k]@ == p@[k]@,
        decreases base@.len() - i,
    {
        if !same(&base[i], &p[i]) {
            proof {
                assert(views(p@).take(views(base@).len() as int)[i as int] == p@[i as int]@);
            }
            return false;
        }
        i = i + 1;
    }
    assert(views(p@).take(views(base@).len() as int) =~= views(base@));
    true
}

/// The folder an import scans: `dir` as given when absolute, else under the
/// library root; refused when it does not lie under the root, with the
/// folder named.
pub fn scan_dir(root: &str, dir: &str) -> (r: Result<String, Error>)
    ensures
        match r {
            Ok(d) => scan_folder(root@, dir@) == Some(d@),
            Err(e) => scan_folder(root@, dir@) is None && (e matches Error::InvalidPath(m)
                && m@ == push_path(root@, dir@)),
        },
{
    let d = joined(root, dir);
    let rc = components_of(&chars_of(root));
    let dc = components_of(&d);
    if begins_with_parts(&rc, &dc) {
        Ok(string_of(&d))
    } else {
        Err(Error::InvalidPath(string_of(&d)))
    }
}

/// A scanned file's library-relative, `/`-separated path, or `None` when it
/// does not lie under the root.
pub fn to_rel(root: &str, path: &str) -> (r: Option<String>)
    ensures
        match r {
            Some(s) => rel_to(root@, path@) == Some(s@),
            None => rel_to(root@, path@) is None,
        },
{
    let rc = components_of(&chars_of(root));
    let pc = components_of(&chars_of(path));
    if !begins_with_parts(&rc, &pc) {
        return None;
    }
    let mut rest: Vec<Vec<char>> = Vec::new();
    let mut i: usize = rc.len();
    let ghost start = rc@.len() as int;
    assert(views(pc@).skip(start).take(0) =~= Seq::<Seq<char>>::empty());
    assert(views(rest@) =~= Seq::<Seq<char>>::empty());
    while i < pc.len()
        invariant
            start <= i <= pc@.len(),
            start == views(rc@).len(),
            views(rest@) == views(pc@).skip(start).take(i - start),
        decreases pc@.len() - i,
    {
        let ghost before = views(rest@);
        let copy = crate::text::slice_of(&pc[i], 0, pc[i].len());
        assert(copy@ =~= pc@[i as int]@);
        rest.push(copy);
        proof {
            assert(views(rest@) =~= before.push(copy@));
            assert(views(pc@)[i as int] == pc@[i as int]@);
            assert(views(rest@) =~= views(pc@).skip(start).take(i + 1 - start));
        }
        i = i + 1;
    }
    assert(views(pc@).skip(start).take(pc@.len() - start) =~= views(pc@).skip(start));
    let mut slash: Vec<char> = Vec::new();
    slash.push('/');
    assert(slash@ =~= seq!['/']);
    let j = join_with(&rest, &slash);
    Some(string_of(&j))
}

} // verus!
