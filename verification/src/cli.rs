//! How the command line reads its arguments: `--name value` options, bare
//! flags, the first positional argument, and the choices a few options name.

use vstd::prelude::*;

use crate::error::Error;
use crate::lightroom::{LrPlacement, MergePolicy};
use crate::publish::list_view;
use crate::sync::{SyncDirection, SyncScopeKind};
use crate::text::{
    chars_of, is, one_of, parse_i64, parse_i64_of, split, split_on, starts_with, str_views, trim,
    trimmed, views, begins,
};

verus! {

/// The flags that stand alone: every other `--name` takes the next argument
/// as its value.
pub const BARE_FLAGS: [&'static str; 27] = [
    "--recursive",
    "--no-thumbs",
    "--force",
    "--json",
    "--apply",
    "--allow-deletes",
    "--push",
    "--pull",
    "--both",
    "--record",
    "--collection",
    "--share-link",
    "--no-share-link",
    "--proofing",
    "--no-proofing",
    "--allow-download",
    "--metadata-only",
    "--include-rejected",
    "--no-recursive",
    "--bw",
    "--no-bw",
    "--flip-h",
    "--flip-v",
    "--reset",
    "--show",
    "--dry-run",
    "--drop-photos",
];

/// The index of the first argument equal to `name`.
pub open spec fn first_index(args: Seq<Seq<char>>, name: Seq<char>) -> Option<int>
    decreases args.len(),
{
    if args.len() == 0 {
        None
    } else {
        match first_index(args.drop_last(), name) {
            Some(i) => Some(i),
            None => if args.last() == name {
                Some(args.len() - 1)
            } else {
                None
            },
        }
    }
}

/// The value after the first `name`, if there is one.
pub open spec fn option_value(args: Seq<Seq<char>>, name: Seq<char>) -> Option<Seq<char>> {
    match first_index(args, name) {
        Some(i) => if i + 1 < args.len() {
            Some(args[i + 1])
        } else {
            None
        },
        None => None,
    }
}

fn index_of_arg(args: &[String], name: &str) -> (r: Option<usize>)
    ensures
        match r {
            Some(i) => first_index(list_view(args@), name@) == Some(i as int) && i < args@.len(),
            None => first_index(list_view(args@), name@) is None,
        },
{
    let ghost av = list_view(args@);
    let n = chars_of(name);
    let mut i: usize = 0;
    assert(av.take(0) =~= Seq::<Seq<char>>::empty());
    while i < args.len()
        invariant
            i <= args@.len(),
            av == list_view(args@),
            n@ == name@,
            first_index(av.take(i as int), name@) is None,
        decreases args@.len() - i,
    {
        proof {
            let t = av.take(i + 1);
            assert(t.drop_last() =~= av.take(i as int));
            assert(t.last() == args@[i as int]@);
        }
        if crate::text::same(&chars_of(args[i].as_str()), &n) {
            proof {
                lemma_first_index_extends(av, name@, i as int + 1);
            }
            return Some(i);
        }
        i = i + 1;
    }
    assert(av.take(args@.len() as int) =~= av);
    None
}

proof fn lemma_first_index_extends(args: Seq<Seq<char>>, name: Seq<char>, k: int)
    requires
        0 <= k <= args.len(),
        first_index(args.take(k), name) is Some,
    ensures
        first_index(args, name) == first_index(args.take(k), name),
    decreases args.len() - k,
{
    if k < args.len() {
        let t = args.take(k + 1);
        assert(t.drop_last() =~= args.take(k));
        lemma_first_index_extends(args, name, k + 1);
    } else {
        assert(args.take(k) =~= args);
    }
}

/// The value given for a `--name value` option.
pub fn opt(args: &[String], name: &str) -> (r: Option<String>)
    ensures
        match r {
            Some(v) => option_value(list_view(args@), name@) == Some(v@),
            None => option_value(list_view(args@), name@) is None,
        },
{
    let n = args.len();
    match index_of_arg(args, name) {
        Some(i) => {
            if i + 1 < n {
                Some(crate::text::string_of(&chars_of(args[i + 1].as_str())))
            } else {
                None
            }
        },
        None => None,
    }
}

/// Whether a bare flag was given.
pub fn has(args: &[String], name: &str) -> (r: bool)
    ensures
        r == list_view(args@).contains(name@),
{
    let r = index_of_arg(args, name);
    proof {
        lemma_first_index_contains(list_view(args@), name@);
    }
    r.is_some()
}

proof fn lemma_first_index_contains(args: Seq<Seq<char>>, name: Seq<char>)
    ensures
        (first_index(args, name) is Some) == args.contains(name),
    decreases args.len(),
{
    if args.len() > 0 {
        lemma_first_index_contains(args.drop_last(), name);
        if args.drop_last().contains(name) {
            let k = choose|k: int| 0 <= k < args.drop_last().len() && args.drop_last()[k] == name;
            assert(args[k] == name);
        }
        if args.contains(name) && !args.drop_last().contains(name) {
            let k = choose|k: int| 0 <= k < args.len() && args[k] == name;
            if k < args.len() - 1 {
                assert(args.drop_last()[k] == name);
            }
        }
        if args.last() == name {
            assert(args[args.len() - 1] == name);
        }
    }
}

/// The first argument that is not a flag, skipping the value after each
/// flag that takes one, from position `i` on.
pub open spec fn positional_from(args: Seq<Seq<char>>, i: int) -> Option<int>
    decreases args.len() + 1 - i,
{
    if i >= args.len() || i < 0 {
        None
    } else if starts_with(args[i], seq!['-', '-']) {
        if str_views(BARE_FLAGS@).contains(args[i]) {
            positional_from(args, i + 1)
        } else {
            positional_from(args, i + 2)
        }
    } else {
        Some(i)
    }
}

/// First non-flag argument. A flag that takes a value consumes the next
/// argument with it.
pub fn positional(args: &[String]) -> (r: Option<String>)
    ensures
        match r {
            Some(v) => exists|i: int|
                positional_from(list_view(args@), 0) == Some(i) && 0 <= i < args@.len()
                    && args@[i]@ == v@,
            None => positional_from(list_view(args@), 0) is None,
        },
{
    let ghost av = list_view(args@);
    let mut dashes: Vec<char> = Vec::new();
    dashes.push('-');
    dashes.push('-');
    assert(dashes@ =~= seq!['-', '-']);
    let mut i: usize = 0;
    while i < args.len()
        invariant
            av == list_view(args@),
            dashes@ == seq!['-', '-'],
            positional_from(av, 0) == positional_from(av, i as int),
        decreases args@.len() - i,
    {
        let a = chars_of(args[i].as_str());
        assert(av[i as int] == a@);
        if begins(&a, &dashes) {
            let list = BARE_FLAGS;
            if one_of(&a, &list) {
                i = i + 1;
            } else {
                if i + 1 >= args.len() {
                    assert(positional_from(av, i + 2) is None);
                    return None;
                }
                i = i + 2;
            }
        } else {
            return Some(crate::text::string_of(&a));
        }
    }
    None
}

/// The photo ids in a comma list: each piece trimmed and read as an integer,
/// pieces that are not one skipped.
pub open spec fn ids_in(pieces: Seq<Seq<char>>) -> Seq<i64>
    decreases pieces.len(),
{
    if pieces.len() == 0 {
        Seq::<i64>::empty()
    } else {
        let k = ids_in(pieces.drop_last());
        match parse_i64(trim(pieces.last())) {
            Some(v) => k.push(v),
            None => k,
        }
    }
}

/// Photo ids from the first positional argument, a comma list such as
/// `12,14,15`. Fails when there is no argument or no valid id in it.
pub fn parse_ids(args: &[String]) -> (r: Result<Vec<i64>, Error>)
    ensures
        match positional_from(list_view(args@), 0) {
            None => r matches Err(Error::Other(m)) && m@ == "expected one or more photo ids"@,
            Some(i) => {
                let ids = ids_in(split(args@[i]@, ','));
                match r {
                    Ok(v) => v@ == ids && ids.len() > 0,
                    Err(e) => ids.len() == 0 && (e matches Error::Other(m) && m@
                        == "no valid photo ids given"@),
                }
            },
        },
{
    let raw = match positional(args) {
        Some(p) => p,
        None => {
            return Err(Error::other("expected one or more photo ids"));
        },
    };
    let pieces = split_on(&chars_of(raw.as_str()), ',');
    let ghost pv = views(pieces@);
    let mut ids: Vec<i64> = Vec::new();
    let mut k: usize = 0;
    assert(pv.take(0) =~= Seq::<Seq<char>>::empty());
    while k < pieces.len()
        invariant
            k <= pieces@.len(),
            pv == views(pieces@),
            ids@ == ids_in(pv.take(k as int)),
        decreases pieces@.len() - k,
    {
        proof {
            let t = pv.take(k + 1);
            assert(t.drop_last() =~= pv.take(k as int));
            assert(t.last() == pieces@[k as int]@);
        }
        match parse_i64_of(&trimmed(&pieces[k])) {
            Some(v) => ids.push(v),
            None => {},
        }
        k = k + 1;
    }
    assert(pv.take(pieces@.len() as int) =~= pv);
    if ids.len() == 0 {
        return Err(Error::other("no valid photo ids given"));
    }
    Ok(ids)
}

/// The sync direction the flags ask for: `--push`, else `--pull`, else both.
pub fn direction_from(args: &[String]) -> (r: SyncDirection)
    ensures
        r == if list_view(args@).contains("--push"@) {
            SyncDirection::Push
        } else if list_view(args@).contains("--pull"@) {
            SyncDirection::Pull
        } else {
            SyncDirection::Both
        },
{
    if has(args, "--push") {
        SyncDirection::Push
    } else if has(args, "--pull") {
        SyncDirection::Pull
    } else {
        SyncDirection::Both
    }
}

/// The sync scope `--scope` names: none given, `web`, `full`, or an error
/// naming what was given instead.
pub fn scope_from(args: &[String]) -> (r: Result<Option<SyncScopeKind>, Error>)
    ensures
        match option_value(list_view(args@), "--scope"@) {
            None => r == Ok::<Option<SyncScopeKind>, Error>(None),
            Some(v) => if v == "web"@ {
                r == Ok::<Option<SyncScopeKind>, Error>(Some(SyncScopeKind::Web))
            } else if v == "full"@ {
                r == Ok::<Option<SyncScopeKind>, Error>(Some(SyncScopeKind::Full))
            } else {
                r matches Err(Error::Other(m)) && m@ == "--scope wants web or full, not '"@ + v
                    + "'"@
            },
        },
{
    match opt(args, "--scope") {
        None => Ok(None),
        Some(v) => {
            let c = chars_of(v.as_str());
            if is(&c, "web") {
                Ok(Some(SyncScopeKind::Web))
            } else if is(&c, "full") {
                Ok(Some(SyncScopeKind::Full))
            } else {
                let mut m = chars_of("--scope wants web or full, not '");
                crate::text::extend(&mut m, &c);
                crate::text::extend(&mut m, &chars_of("'"));
                Err(Error::Other(crate::text::string_of(&m)))
            }
        },
    }
}

/// The placement `--mode` names for a Lightroom import: none given or
/// `auto`, `in-place`, `copy`, `reference`, or an error naming what was
/// given instead.
pub fn placement_from(args: &[String]) -> (r: Result<LrPlacement, Error>)
    ensures
        match option_value(list_view(args@), "--mode"@) {
            None => r == Ok::<LrPlacement, Error>(LrPlacement::Auto),
            Some(v) => if v == "auto"@ {
                r == Ok::<LrPlacement, Error>(LrPlacement::Auto)
            } else if v == "in-place"@ {
                r == Ok::<LrPlacement, Error>(LrPlacement::InPlace)
            } else if v == "copy"@ {
                r == Ok::<LrPlacement, Error>(LrPlacement::Copy)
            } else if v == "reference"@ {
                r == Ok::<LrPlacement, Error>(LrPlacement::Reference)
            } else {
                r matches Err(Error::Other(m)) && m@
                    == "--mode wants auto, in-place, copy or reference, not '"@ + v + "'"@
            },
        },
{
    match opt(args, "--mode") {
        None => Ok(LrPlacement::Auto),
        Some(v) => {
            let c = chars_of(v.as_str());
            if is(&c, "auto") {
                Ok(LrPlacement::Auto)
            } else if is(&c, "in-place") {
                Ok(LrPlacement::InPlace)
            } else if is(&c, "copy") {
                Ok(LrPlacement::Copy)
            } else if is(&c, "reference") {
                Ok(LrPlacement::Reference)
            } else {
                let mut m = chars_of("--mode wants auto, in-place, copy or reference, not '");
                crate::text::extend(&mut m, &c);
                crate::text::extend(&mut m, &chars_of("'"));
                Err(Error::Other(crate::text::string_of(&m)))
            }
        },
    }
}

/// The collision policy `--collision` names for a Lightroom import: none
/// given is `auto`; `merge` or `suffix`, or an error naming what was given
/// instead.
pub fn collision_from(args: &[String]) -> (r: Result<MergePolicy, Error>)
    ensures
        match option_value(list_view(args@), "--collision"@) {
            None => r == Ok::<MergePolicy, Error>(MergePolicy::Auto),
            Some(v) => if v == "merge"@ {
                r == Ok::<MergePolicy, Error>(MergePolicy::Merge)
            } else if v == "suffix"@ {
                r == Ok::<MergePolicy, Error>(MergePolicy::Suffix)
            } else {
                r matches Err(Error::Other(m)) && m@ == "--collision wants merge or suffix, not '"@
                    + v + "'"@
            },
        },
{
    match opt(args, "--collision") {
        None => Ok(MergePolicy::Auto),
        Some(v) => {
            let c = chars_of(v.as_str());
            if is(&c, "merge") {
                Ok(MergePolicy::Merge)
            } else if is(&c, "suffix") {
                Ok(MergePolicy::Suffix)
            } else {
                let mut m = chars_of("--collision wants merge or suffix, not '");
                crate::text::extend(&mut m, &c);
                crate::text::extend(&mut m, &chars_of("'"));
                Err(Error::Other(crate::text::string_of(&m)))
            }
        },
    }
}

/// The collection patterns `--collections` gives: comma-separated, each
/// trimmed; `None` when the flag is absent.
pub fn collections_from(args: &[String]) -> (r: Option<Vec<String>>)
    ensures
        match option_value(list_view(args@), "--collections"@) {
            None => r is None,
            Some(v) => r matches Some(list) && list_view(list@) == split(v, ',').map_values(
                |p: Seq<char>| trim(p),
            ),
        },
{
    match opt(args, "--collections") {
        None => None,
        Some(v) => {
            let c = chars_of(v.as_str());
            let parts = split_on(&c, ',');
            let mut out: Vec<String> = Vec::new();
            let mut i: usize = 0;
            while i < parts.len()
                invariant
                    i <= parts@.len(),
                    views(parts@) == split(c@, ','),
                    list_view(out@) == split(c@, ',').take(i as int).map_values(
                        |p: Seq<char>| trim(p),
                    ),
                decreases parts@.len() - i,
            {
                let t = trimmed(&parts[i]);
                let piece = crate::text::string_of(&t);
                let ghost prev = out@;
                assert(list_view(prev).len() == prev.len());
                out.push(piece);
                proof {
                    assert(views(parts@)[i as int] == parts@[i as int]@);
                    let want = split(c@, ',').take(i + 1).map_values(|p: Seq<char>| trim(p));
                    assert forall|j: int| 0 <= j < i + 1 implies #[trigger] list_view(out@)[j]
                        == want[j] by {
                        if j < i {
                            assert(out@[j] == prev[j]);
                            assert(list_view(prev)[j] == split(c@, ',').take(i as int).map_values(
                                |p: Seq<char>| trim(p),
                            )[j]);
                        }
                    }
                    assert(list_view(out@) =~= want);
                }
                i = i + 1;
            }
            assert(split(c@, ',').take(parts@.len() as int) =~= split(c@, ','));
            Some(out)
        },
    }
}

} // verus!
