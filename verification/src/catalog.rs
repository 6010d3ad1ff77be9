//! The path and query rules the catalog enforces: where a relative path may
//! resolve to, and how search text reaches a `LIKE` pattern unharmed.

use vstd::prelude::*;

use crate::error::Error;
use crate::model::{flag_name, kind_name, PhotoFilter, PhotoSort};
use crate::lightroom::push_segments;
use crate::paths::{file_name, file_name_of, push_onto, push_path};
use crate::text::{
    chars_of, contains, extend, is, join, join_with, slice_of, split, split_on, starts_with,
    string_of, trim, trimmed, views, lowercase, lowercased, u64_text, decimal, find_seq, index_of_seq,
};

verus! {

/// The photo columns, in the order rows are read.
pub const PHOTO_COLS: &'static str = "id, rel_path, filename, content_hash, file_size, mtime_ms, kind, width, height, orientation, captured_at, camera_make, camera_model, lens, iso, aperture, shutter, focal_length, rating, flag, color_label, blur_lqip, imported_at, source_id";

/// The segments of a relative path that name something: empty and `.`
/// segments are no segments at all.
pub open spec fn named_segments(parts: Seq<Seq<char>>) -> Seq<Seq<char>>
    decreases parts.len(),
{
    if parts.len() == 0 {
        Seq::<Seq<char>>::empty()
    } else {
        let k = named_segments(parts.drop_last());
        let l = parts.last();
        if l.len() == 0 || l == seq!['.'] {
            k
        } else {
            k.push(l)
        }
    }
}

/// Whether a relative path is refused: a NUL, a leading `/` or `\`, or a
/// `..` segment anywhere.
pub open spec fn refused(rel: Seq<char>) -> bool {
    ||| rel.contains('\0')
    ||| (rel.len() > 0 && (rel[0] == '/' || rel[0] == '\\'))
    ||| split(rel, '/').contains(seq!['.', '.'])
}

/// Where `rel` resolves under `root`: the root itself for an empty path,
/// else the root with each named segment pushed on — or `None` when the path
/// is refused.
pub open spec fn resolved(root: Seq<char>, rel: Seq<char>) -> Option<Seq<char>> {
    if rel.len() == 0 {
        Some(root)
    } else if refused(rel) {
        None
    } else {
        Some(push_segments(root, named_segments(split(rel, '/'))))
    }
}

/// Join `rel` onto `root`, refusing anything that escapes it.
///
/// The refusal is the security boundary: `..`, an absolute path, a NUL or a
/// backslash at the start never become a file operation, whichever root they
/// were offered against. What is accepted always lands under the root
/// ([`lemma_resolve_stays_under`]), so no further check is needed on the way
/// out.
pub fn resolve_under(root: &str, rel: &str) -> (r: Result<String, Error>)
    ensures
        match r {
            Ok(p) => resolved(root@, rel@) == Some(p@),
            Err(e) => resolved(root@, rel@) is None && (e matches Error::InvalidPath(m) && m@ == rel@),
        },
{
    let v = chars_of(rel);
    if v.len() == 0 {
        return Ok(string_of(&chars_of(root)));
    }
    if contains(&v, '\0') || v[0] == '/' || v[0] == '\\' {
        return Err(Error::InvalidPath(string_of(&v)));
    }
    let segs = split_on(&v, '/');
    let ghost sv = views(segs@);
    let mut out = chars_of(root);
    let ghost base = out@;
    let mut i: usize = 0;
    assert(sv.take(0) =~= Seq::<Seq<char>>::empty());
    while i < segs.len()
        invariant
            i <= segs@.len(),
            sv == views(segs@),
            sv == split(rel@, '/'),
            v@ == rel@,
            v@.len() > 0,
            base == root@,
            forall|k: int| 0 <= k < i ==> sv[k] != seq!['.', '.'],
            out@ == push_segments(base, named_segments(sv.take(i as int))),
        decreases segs@.len() - i,
    {
        let s = &segs[i];
        proof {
            let t = sv.take(i + 1);
            assert(t.drop_last() =~= sv.take(i as int));
            assert(t.last() == s@);
            assert(sv[i as int] == s@);
        }
        if is(s, "..") {
            proof {
                reveal_strlit("..");
                assert(s@ =~= seq!['.', '.']);
                assert(split(rel@, '/').contains(seq!['.', '.']));
            }
            return Err(Error::InvalidPath(string_of(&v)));
        }
        let dot = is(s, ".");
        proof {
            reveal_strlit("..");
            reveal_strlit(".");
            if dot {
                assert(s@ =~= seq!['.']);
            } else {
                assert(s@ != seq!['.']) by {
                    if s@ == seq!['.'] {
                        assert(s@ =~= "."@);
                    }
                }
            }
            assert(s@ != seq!['.', '.']) by {
                if s@ == seq!['.', '.'] {
                    assert(s@ =~= ".."@);
                }
            }
        }
        if s.len() > 0 && !dot {
            let ghost o0 = out@;
            push_onto(&mut out, s);
            proof {
                let t = sv.take(i + 1);
                assert(named_segments(t) == named_segments(sv.take(i as int)).push(s@));
                assert(named_segments(t).drop_last() =~= named_segments(sv.take(i as int)));
            }
        } else {
            proof {
                let t = sv.take(i + 1);
                assert(named_segments(t) == named_segments(sv.take(i as int)));
            }
        }
        i = i + 1;
    }
    proof {
        assert(sv.take(segs@.len() as int) =~= sv);
        assert(!split(rel@, '/').contains(seq!['.', '.'])) by {
            if split(rel@, '/').contains(seq!['.', '.']) {
                let k = choose|k: int| 0 <= k < sv.len() && sv[k] == seq!['.', '.'];
                assert(sv[k] != seq!['.', '.']);
            }
        }
    }
    Ok(string_of(&out))
}

/// Pushing relative segments onto a base keeps the base as a prefix.
proof fn lemma_push_segments_prefix(base: Seq<char>, segs: Seq<Seq<char>>)
    requires
        forall|k: int| 0 <= k < segs.len() ==> (#[trigger] segs[k]).len() > 0 && segs[k][0] != '/',
    ensures
        starts_with(push_segments(base, segs), base),
    decreases segs.len(),
{
    if segs.len() > 0 {
        let d = segs.drop_last();
        assert forall|k: int| 0 <= k < d.len() implies (#[trigger] d[k]).len() > 0 && d[k][0] != '/' by {
            assert(d[k] == segs[k]);
        }
        lemma_push_segments_prefix(base, d);
        let b = push_segments(base, d);
        let l = segs.last();
        assert(l == segs[segs.len() - 1]);
        let r = push_path(b, l);
        assert(l.len() > 0 && l[0] != '/');
        assert(push_segments(base, segs) == r);
        assert(r.take(base.len() as int) =~= base) by {
            assert(b.take(base.len() as int) =~= base);
            assert forall|k: int| 0 <= k < base.len() implies r[k] == b[k] by {
                assert(b.take(base.len() as int)[k] == b[k]);
            }
        }
    } else {
        assert(base.take(base.len() as int) =~= base);
    }
}

proof fn lemma_named_segments_shape(parts: Seq<Seq<char>>)
    requires
        forall|k: int| 0 <= k < parts.len() ==> !(#[trigger] parts[k]).contains('/'),
    ensures
        forall|k: int|
            0 <= k < named_segments(parts).len() ==> (#[trigger] named_segments(parts)[k]).len() > 0
                && named_segments(parts)[k][0] != '/',
    decreases parts.len(),
{
    if parts.len() > 0 {
        let d = parts.drop_last();
        assert forall|k: int| 0 <= k < d.len() implies !(#[trigger] d[k]).contains('/') by {
            assert(d[k] == parts[k]);
        }
        lemma_named_segments_shape(d);
        let l = parts.last();
        assert(l == parts[parts.len() - 1]);
        if l.len() > 0 {
            assert(l.contains(l[0]));
        }
        let nd = named_segments(d);
        let np = named_segments(parts);
        assert forall|k: int| 0 <= k < np.len() implies (#[trigger] np[k]).len() > 0 && np[k][0] != '/' by {
            if k < nd.len() {
                assert(np[k] == nd[k]);
            }
        }
    }
}

proof fn lemma_split_pieces_have_no_sep(s: Seq<char>, c: char)
    ensures
        forall|k: int| 0 <= k < split(s, c).len() ==> !(#[trigger] split(s, c)[k]).contains(c),
    decreases s.len(),
{
    if s.len() > 0 {
        lemma_split_pieces_have_no_sep(s.drop_last(), c);
        crate::text::lemma_split_len(s.drop_last(), c);
        let prev = split(s.drop_last(), c);
        if s.last() != c {
            let grown = prev.last().push(s.last());
            assert(!grown.contains(c)) by {
                if grown.contains(c) {
                    let k = choose|k: int| 0 <= k < grown.len() && grown[k] == c;
                    if k < prev.last().len() {
                        assert(prev[prev.len() - 1].contains(c)) by {
                            assert(prev[prev.len() - 1][k] == c);
                        }
                    }
                }
            }
        }
    }
}

/// Whatever `resolve_under` accepts lies under the root: the root is a
/// prefix of it. A relative path can never climb out of its source.
pub proof fn lemma_resolve_stays_under(root: Seq<char>, rel: Seq<char>)
    ensures
        match resolved(root, rel) {
            Some(p) => starts_with(p, root),
            None => true,
        },
{
    if rel.len() == 0 {
        assert(root.take(root.len() as int) =~= root);
    } else if !refused(rel) {
        lemma_split_pieces_have_no_sep(rel, '/');
        lemma_named_segments_shape(split(rel, '/'));
        lemma_push_segments_prefix(root, named_segments(split(rel, '/')));
    }
}

// ------------------------------------------------------------------- LIKE

/// Search text with the LIKE wildcards quoted: `\`, `%` and `_` each get a
/// backslash in front.
pub open spec fn like_quoted(s: Seq<char>) -> Seq<char>
    decreases s.len(),
{
    if s.len() == 0 {
        Seq::<char>::empty()
    } else {
        let c = s.last();
        like_quoted(s.drop_last()) + if c == '\\' || c == '%' || c == '_' {
            seq!['\\', c]
        } else {
            seq![c]
        }
    }
}

/// Quote the LIKE wildcards out of a free-text search term.
///
/// `_` matches any single character and `%` any run of them, and `_` is in
/// the filename of nearly every frame a Nikon writes: pasted into the pattern
/// as typed, a search for `DSC_0042` also returns `DSCF0042`. Callers pair
/// this with an `ESCAPE '\'` clause.
pub fn like_literal(text: &str) -> (r: String)
    ensures
        r@ == like_quoted(text@),
{
    let v = chars_of(text);
    let mut out: Vec<char> = Vec::new();
    let mut i: usize = 0;
    assert(v@.take(0) =~= Seq::<char>::empty());
    while i < v.len()
        invariant
            i <= v@.len(),
            out@ == like_quoted(v@.take(i as int)),
        decreases v@.len() - i,
    {
        let c = v[i];
        let ghost o0 = out@;
        if c == '\\' || c == '%' || c == '_' {
            out.push('\\');
        }
        out.push(c);
        proof {
            let t = v@.take(i + 1);
            assert(t.drop_last() =~= v@.take(i as int));
            assert(t.last() == c);
            assert(out@ =~= like_quoted(t));
        }
        i = i + 1;
    }
    assert(v@.take(v@.len() as int) =~= v@);
    string_of(&out)
}

// ---------------------------------------------------------------- columns

/// Each column name qualified with a table alias: `p.id, p.rel_path, …`.
pub open spec fn qualified_cols(prefix: Seq<char>, cols: Seq<Seq<char>>) -> Seq<Seq<char>> {
    cols.map_values(|c: Seq<char>| prefix + seq!['.'] + trim(c))
}

/// The photo columns qualified with a table alias, for a query that joins
/// `photos` to another table.
pub fn prefixed_photo_cols(prefix: &str) -> (r: String)
    ensures
        r@ == join(qualified_cols(prefix@, split(PHOTO_COLS@, ',')), seq![',', ' ']),
{
    let cols = split_on(&chars_of(PHOTO_COLS), ',');
    let ghost cv = views(cols@);
    let p = chars_of(prefix);
    let mut parts: Vec<Vec<char>> = Vec::new();
    let mut i: usize = 0;
    while i < cols.len()
        invariant
            i <= cols@.len(),
            cv == views(cols@),
            p@ == prefix@,
            parts@.len() == i,
            forall|k: int| 0 <= k < i ==> (#[trigger] parts@[k])@ == prefix@ + seq!['.'] + trim(cv[k]),
        decreases cols@.len() - i,
    {
        let mut q = slice_of(&p, 0, p.len());
        q.push('.');
        extend(&mut q, &trimmed(&cols[i]));
        proof {
            assert(cv[i as int] == cols@[i as int]@);
            assert(q@ =~= prefix@ + seq!['.'] + trim(cv[i as int]));
        }
        parts.push(q);
        i = i + 1;
    }
    assert(views(parts@) =~= qualified_cols(prefix@, cv));
    let mut sep: Vec<char> = Vec::new();
    sep.push(',');
    sep.push(' ');
    assert(sep@ =~= seq![',', ' ']);
    string_of(&join_with(&parts, &sep))
}

/// A display name for a root folder: its last component, or the whole path
/// when it has none (a drive root, `/`).
pub open spec fn display_name(root: Seq<char>) -> Seq<char> {
    match file_name(root) {
        Some(n) => if n.len() > 0 {
            n
        } else {
            root
        },
        None => root,
    }
}

/// A display name for a root folder.
pub fn root_display_name(root: &str) -> (r: String)
    ensures
        r@ == display_name(root@),
{
    let v = chars_of(root);
    match file_name_of(&v) {
        Some(n) => {
            if n.len() > 0 {
                string_of(&n)
            } else {
                string_of(&v)
            }
        },
        None => string_of(&v),
    }
}


// ------------------------------------------------------------- grid query

/// A value bound to one `?` of a query.
#[derive(Debug, Clone)]
pub enum SqlArg {
    Text(String),
    Int(i64),
}

/// A bound value, as plain values.
pub enum ArgValue {
    Text(Seq<char>),
    Int(i64),
}

/// The value an argument binds.
pub open spec fn arg_value(a: SqlArg) -> ArgValue {
    match a {
        SqlArg::Text(s) => ArgValue::Text(s@),
        SqlArg::Int(i) => ArgValue::Int(i),
    }
}

/// The values a list of arguments binds, in order.
pub open spec fn arg_values(v: Seq<SqlArg>) -> Seq<ArgValue> {
    v.map_values(|a: SqlArg| arg_value(a))
}

/// The grid query: its text and the values for its `?`s, in order.
#[derive(Debug, Clone)]
pub struct PhotoQuery {
    pub sql: String,
    pub args: Vec<SqlArg>,
}

/// `c` appended when the condition is on.
pub open spec fn and_if(ws: Seq<Seq<char>>, on: bool, c: Seq<char>) -> Seq<Seq<char>> {
    if on {
        ws.push(c)
    } else {
        ws
    }
}

/// `a` appended when the condition is on.
pub open spec fn bind_if(args: Seq<ArgValue>, on: bool, a: Seq<ArgValue>) -> Seq<ArgValue> {
    if on {
        args + a
    } else {
        args
    }
}

/// The text a `Some` string holds, or nothing.
pub open spec fn text_of(o: Option<String>) -> Seq<char> {
    match o {
        Some(s) => s@,
        None => Seq::<char>::empty(),
    }
}

/// The tag condition: a subquery, so a photo with several tags is one row.
pub open spec fn tag_clause() -> Seq<char> {
    "p.id IN (SELECT pt.photo_id FROM photo_tags pt JOIN tags t ON t.id = pt.tag_id WHERE t.name = ?)"@
}

/// The conditions a filter sets, in the order they are written.
pub open spec fn conditions(f: PhotoFilter) -> Seq<Seq<char>> {
    let w0 = Seq::<Seq<char>>::empty();
    let w1 = and_if(w0, f.album_path is Some, "a.path = ?"@);
    let w2 = and_if(w1, f.tag is Some, tag_clause());
    let w3 = and_if(w2, f.min_rating is Some, "p.rating >= ?"@);
    let w4 = and_if(w3, f.flag is Some, "p.flag = ?"@);
    let w5 = and_if(w4, f.color_label is Some, "p.color_label = ?"@);
    let w6 = and_if(w5, f.kind is Some, "p.kind = ?"@);
    let w7 = and_if(w6, f.camera_model is Some, "p.camera_model = ?"@);
    let w9 = and_if(w7, f.captured_from is Some, "p.captured_at >= ?"@);
    and_if(w9, f.captured_to is Some, "p.captured_at <= ?"@)
}

/// The values bound to the conditions' `?`s, in order. A bare date as the
/// upper bound takes in the whole of that day.
pub open spec fn bindings(f: PhotoFilter) -> Seq<ArgValue> {
    let a0 = Seq::<ArgValue>::empty();
    let a1 = bind_if(a0, f.album_path is Some, seq![ArgValue::Text(text_of(f.album_path))]);
    let a2 = bind_if(a1, f.tag is Some, seq![ArgValue::Text(text_of(f.tag))]);
    let a3 = bind_if(
        a2,
        f.min_rating is Some,
        seq![
            ArgValue::Int(
                match f.min_rating {
                    Some(m) => m as i64,
                    None => 0,
                },
            ),
        ],
    );
    let a4 = bind_if(
        a3,
        f.flag is Some,
        seq![
            ArgValue::Text(
                match f.flag {
                    Some(fl) => flag_name(fl),
                    None => Seq::<char>::empty(),
                },
            ),
        ],
    );
    let a5 = bind_if(a4, f.color_label is Some, seq![ArgValue::Text(text_of(f.color_label))]);
    let a6 = bind_if(
        a5,
        f.kind is Some,
        seq![
            ArgValue::Text(
                match f.kind {
                    Some(k) => kind_name(k),
                    None => Seq::<char>::empty(),
                },
            ),
        ],
    );
    let a7 = bind_if(a6, f.camera_model is Some, seq![ArgValue::Text(text_of(f.camera_model))]);
    let a9 = bind_if(a7, f.captured_from is Some, seq![ArgValue::Text(text_of(f.captured_from))]);
    bind_if(
        a9,
        f.captured_to is Some,
        seq![ArgValue::Text(text_of(f.captured_to) + "T23:59:59Z"@)],
    )
}

/// How the grid is ordered. Album order needs the album joined in; with no
/// album there is no position, and name order is the answer.
pub open spec fn order_clause(sort: PhotoSort, joined_an_album: bool) -> Seq<char> {
    match sort {
        PhotoSort::CapturedAsc => " ORDER BY p.captured_at IS NULL, p.captured_at ASC, p.filename ASC"@,
        PhotoSort::CapturedDesc => " ORDER BY p.captured_at IS NULL, p.captured_at DESC, p.filename ASC"@,
        PhotoSort::NameAsc => " ORDER BY p.filename ASC"@,
        PhotoSort::NameDesc => " ORDER BY p.filename DESC"@,
        PhotoSort::RatingDesc => " ORDER BY p.rating DESC, p.filename ASC"@,
        PhotoSort::AlbumOrder => if joined_an_album {
            " ORDER BY ap.position ASC, p.filename ASC"@
        } else {
            " ORDER BY p.filename ASC"@
        },
    }
}

/// The row cap: ` LIMIT n`, and ` OFFSET m` only with a limit.
pub open spec fn limit_clause(limit: Option<u32>, offset: Option<u32>) -> Seq<char> {
    match limit {
        None => Seq::<char>::empty(),
        Some(l) => " LIMIT "@ + decimal(l as nat) + match offset {
            Some(o) => " OFFSET "@ + decimal(o as nat),
            None => Seq::<char>::empty(),
        },
    }
}

/// The joins an album filter adds.
pub open spec fn album_join() -> Seq<char> {
    " JOIN album_photos ap ON ap.photo_id = p.id JOIN albums a ON a.id = ap.album_id"@
}

/// The whole grid query text.
pub open spec fn photo_sql(f: PhotoFilter) -> Seq<char> {
    let cols = join(qualified_cols(seq!['p'], split(PHOTO_COLS@, ',')), seq![',', ' ']);
    let w = conditions(f);
    "SELECT "@ + cols + " FROM photos p"@ + (if f.album_path is Some {
        album_join()
    } else {
        Seq::<char>::empty()
    }) + (if w.len() > 0 {
        " WHERE "@ + join(w, " AND "@)
    } else {
        Seq::<char>::empty()
    }) + order_clause(f.sort, f.album_path is Some) + if f.text is Some {
        Seq::<char>::empty()
    } else {
        limit_clause(f.limit, f.offset)
    }
}

fn add_condition(
    wheres: &mut Vec<Vec<char>>,
    args: &mut Vec<SqlArg>,
    clause: &str,
    values: Vec<SqlArg>,
)
    ensures
        views(final(wheres)@) == views(old(wheres)@).push(clause@),
        arg_values(final(args)@) == arg_values(old(args)@) + arg_values(values@),
{
    wheres.push(chars_of(clause));
    let mut v = values;
    let ghost a0 = args@;
    let ghost vv = v@;
    args.append(&mut v);
    assert(arg_values(args@) =~= arg_values(a0) + arg_values(vv));
    assert(views(wheres@) =~= views(old(wheres)@).push(clause@));
}

fn text_arg(s: &String) -> (r: SqlArg)
    ensures
        arg_value(r) == ArgValue::Text(s@),
{
    SqlArg::Text(string_of(&chars_of(s.as_str())))
}

fn one(a: SqlArg) -> (r: Vec<SqlArg>)
    ensures
        r@ == seq![a],
{
    let mut v: Vec<SqlArg> = Vec::new();
    v.push(a);
    assert(v@ =~= seq![a]);
    v
}

fn cond_text(wheres: &mut Vec<Vec<char>>, args: &mut Vec<SqlArg>, on: &Option<String>, clause: &str)
    ensures
        views(final(wheres)@) == and_if(views(old(wheres)@), *on is Some, clause@),
        arg_values(final(args)@) == bind_if(
            arg_values(old(args)@),
            *on is Some,
            seq![ArgValue::Text(text_of(*on))],
        ),
{
    match on {
        Some(v) => {
            let a = text_arg(v);
            let vs = one(a);
            assert(arg_values(vs@) =~= seq![ArgValue::Text(text_of(*on))]);
            add_condition(wheres, args, clause, vs);
        },
        None => {},
    }
}

/// The conditions and their values.
#[verifier::spinoff_prover]
#[verifier::rlimit(60)]
fn query_conditions(f: &PhotoFilter) -> (r: (Vec<Vec<char>>, Vec<SqlArg>))
    ensures
        views(r.0@) == conditions(*f),
        arg_values(r.1@) == bindings(*f),
{
    let mut wheres: Vec<Vec<char>> = Vec::new();
    let mut args: Vec<SqlArg> = Vec::new();
    assert(views(wheres@) =~= Seq::<Seq<char>>::empty());
    assert(arg_values(args@) =~= Seq::<ArgValue>::empty());
    cond_text(&mut wheres, &mut args, &f.album_path, "a.path = ?");
    cond_text(&mut wheres, &mut args, &f.tag, "p.id IN (SELECT pt.photo_id FROM photo_tags pt JOIN tags t ON t.id = pt.tag_id WHERE t.name = ?)");
    let ghost b2 = arg_values(args@);
    let ghost w2 = views(wheres@);
    match f.min_rating {
        Some(m) => add_condition(&mut wheres, &mut args, "p.rating >= ?", one(SqlArg::Int(m as i64))),
        None => {},
    }
    assert(views(wheres@) == and_if(w2, f.min_rating is Some, "p.rating >= ?"@));
    let ghost b3 = arg_values(args@);
    let ghost w3 = views(wheres@);
    match f.flag {
        Some(fl) => add_condition(&mut wheres, &mut args, "p.flag = ?", one(SqlArg::Text(string_of(&chars_of(fl.as_str()))))),
        None => {},
    }
    assert(views(wheres@) == and_if(w3, f.flag is Some, "p.flag = ?"@));
    let ghost b4 = arg_values(args@);
    cond_text(&mut wheres, &mut args, &f.color_label, "p.color_label = ?");
    let ghost b5 = arg_values(args@);
    let ghost w5 = views(wheres@);
    match f.kind {
        Some(k) => add_condition(&mut wheres, &mut args, "p.kind = ?", one(SqlArg::Text(string_of(&chars_of(k.as_str()))))),
        None => {},
    }
    assert(views(wheres@) == and_if(w5, f.kind is Some, "p.kind = ?"@));
    let ghost b6 = arg_values(args@);
    cond_text(&mut wheres, &mut args, &f.camera_model, "p.camera_model = ?");
    cond_text(&mut wheres, &mut args, &f.captured_from, "p.captured_at >= ?");
    let ghost b9 = arg_values(args@);
    let ghost w9 = views(wheres@);
    match &f.captured_to {
        Some(c) => {
            let mut end = chars_of(c.as_str());
            extend(&mut end, &chars_of("T23:59:59Z"));
            add_condition(&mut wheres, &mut args, "p.captured_at <= ?", one(SqlArg::Text(string_of(&end))));
        },
        None => {},
    }
    assert(views(wheres@) == and_if(w9, f.captured_to is Some, "p.captured_at <= ?"@));
    proof {
        assert(b3 =~= bind_if(b2, f.min_rating is Some, seq![ArgValue::Int(match f.min_rating { Some(m) => m as i64, None => 0 })]));
        assert(b4 =~= bind_if(b3, f.flag is Some, seq![ArgValue::Text(match f.flag { Some(fl) => flag_name(fl), None => Seq::<char>::empty() })]));
        assert(b6 =~= bind_if(b5, f.kind is Some, seq![ArgValue::Text(match f.kind { Some(k) => kind_name(k), None => Seq::<char>::empty() })]));
        assert(arg_values(args@) =~= bind_if(b9, f.captured_to is Some, seq![ArgValue::Text(text_of(f.captured_to) + "T23:59:59Z"@)]));
    }
    (wheres, args)
}

/// Build the main grid query for a filter: every set condition ANDed, in a
/// fixed order, each value bound rather than pasted in. Free text is not
/// searched in SQL — SQLite folds case for ASCII letters only — but over the
/// rows the query returns ([`search_rows`]), which then also take the row
/// cap.
pub fn photo_query(f: &PhotoFilter) -> (r: PhotoQuery)
    ensures
        r.sql@ == photo_sql(*f),
        arg_values(r.args@) == bindings(*f),
{
    let mut sql = chars_of("SELECT ");
    let cols = prefixed_photo_cols("p");
    extend(&mut sql, &chars_of(cols.as_str()));
    extend(&mut sql, &chars_of(" FROM photos p"));
    proof {
        reveal_strlit("p");
        assert("p"@ =~= seq!['p']);
    }
    let ghost s0 = sql@;
    let joined_an_album = f.album_path.is_some();
    if joined_an_album {
        extend(&mut sql, &chars_of(" JOIN album_photos ap ON ap.photo_id = p.id JOIN albums a ON a.id = ap.album_id"));
    } else {
        assert(sql@ =~= s0 + Seq::<char>::empty());
    }
    let (wheres, args) = query_conditions(f);
    let ghost s1 = sql@;
    if wheres.len() > 0 {
        extend(&mut sql, &chars_of(" WHERE "));
        let and = chars_of(" AND ");
        extend(&mut sql, &join_with(&wheres, &and));
    } else {
        assert(sql@ =~= s1 + Seq::<char>::empty());
    }
    let order: &str = match f.sort {
        PhotoSort::CapturedAsc => " ORDER BY p.captured_at IS NULL, p.captured_at ASC, p.filename ASC",
        PhotoSort::CapturedDesc => " ORDER BY p.captured_at IS NULL, p.captured_at DESC, p.filename ASC",
        PhotoSort::NameAsc => " ORDER BY p.filename ASC",
        PhotoSort::NameDesc => " ORDER BY p.filename DESC",
        PhotoSort::RatingDesc => " ORDER BY p.rating DESC, p.filename ASC",
        PhotoSort::AlbumOrder => if joined_an_album {
            " ORDER BY ap.position ASC, p.filename ASC"
        } else {
            " ORDER BY p.filename ASC"
        },
    };
    assert(order@ == order_clause(f.sort, joined_an_album));
    extend(&mut sql, &chars_of(order));
    let ghost s2 = sql@;
    match if f.text.is_some() { None } else { f.limit } {
        Some(l) => {
            extend(&mut sql, &chars_of(" LIMIT "));
            extend(&mut sql, &u64_text(l as u64));
            match f.offset {
                Some(o) => {
                    extend(&mut sql, &chars_of(" OFFSET "));
                    extend(&mut sql, &u64_text(o as u64));
                },
                None => {},
            }
        },
        None => {},
    }
    assert(sql@ =~= s2 + if f.text is Some {
        Seq::<char>::empty()
    } else {
        limit_clause(f.limit, f.offset)
    });
    assert(sql@ =~= photo_sql(*f));
    PhotoQuery { sql: string_of(&sql), args }
}


// ------------------------------------------------------------- free text

/// The text of an optional column, or nothing.
pub open spec fn or_empty(o: Option<Seq<char>>) -> Seq<char> {
    match o {
        Some(s) => s,
        None => Seq::<char>::empty(),
    }
}

/// Whether a photo matches a free-text search: the term, lowercased, occurs
/// in the lowercased filename or in the lowercased make and model, joined by
/// a space. Every character is compared as itself, so nothing in the term
/// is a wildcard.
pub open spec fn text_hit(term: Seq<char>, filename: Seq<char>, make: Option<Seq<char>>, model: Option<Seq<char>>) -> bool {
    let t = lowercase(term);
    ||| find_seq(lowercase(filename), t) is Some
    ||| find_seq(lowercase(or_empty(make) + seq![' '] + or_empty(model)), t) is Some
}

/// One row's filename, camera make and camera model, as characters.
pub open spec fn text_row(r: (String, Option<String>, Option<String>)) -> (Seq<char>, Option<Seq<char>>, Option<Seq<char>>) {
    (
        r.0@,
        match r.1 {
            Some(m) => Some(m@),
            None => None,
        },
        match r.2 {
            Some(m) => Some(m@),
            None => None,
        },
    )
}

/// The positions of the rows that match, in order.
pub open spec fn text_hits(term: Seq<char>, rows: Seq<(Seq<char>, Option<Seq<char>>, Option<Seq<char>>)>) -> Seq<int>
    decreases rows.len(),
{
    if rows.len() == 0 {
        Seq::<int>::empty()
    } else {
        let prev = text_hits(term, rows.drop_last());
        let r = rows.last();
        if text_hit(term, r.0, r.1, r.2) {
            prev.push(rows.len() - 1)
        } else {
            prev
        }
    }
}

/// The row cap on a list: `offset` skipped (only with a limit), then at most
/// `limit` kept.
pub open spec fn capped(hits: Seq<int>, limit: Option<u32>, offset: Option<u32>) -> Seq<int> {
    match limit {
        None => hits,
        Some(l) => {
            let o: int = match offset {
                Some(o) => o as int,
                None => 0,
            };
            let rest = if o >= hits.len() {
                Seq::<int>::empty()
            } else {
                hits.skip(o)
            };
            if l >= rest.len() {
                rest
            } else {
                rest.take(l as int)
            }
        },
    }
}

/// Whether one photo matches a free-text search.
pub fn matches_text(term: &str, filename: &str, make: &Option<String>, model: &Option<String>) -> (r: bool)
    ensures
        r == text_hit(
            term@,
            filename@,
            match make {
                Some(m) => Some(m@),
                None => None,
            },
            match model {
                Some(m) => Some(m@),
                None => None,
            },
        ),
{
    let t = lowercased(&chars_of(term));
    let f = lowercased(&chars_of(filename));
    if index_of_seq(&f, &t).is_some() {
        return true;
    }
    let mut cam: Vec<char> = match make {
        Some(m) => chars_of(m.as_str()),
        None => Vec::new(),
    };
    cam.push(' ');
    match model {
        Some(m) => extend(&mut cam, &chars_of(m.as_str())),
        None => {},
    }
    proof {
        let mk = match make {
            Some(m) => Some(m@),
            None => None,
        };
        let md = match model {
            Some(m) => Some(m@),
            None => None,
        };
        assert(cam@ =~= or_empty(mk) + seq![' '] + or_empty(md));
    }
    let c = lowercased(&cam);
    index_of_seq(&c, &t).is_some()
}

/// Apply a free-text search to the rows a query returned — each row its
/// filename, camera make and camera model, in the query's order — and then
/// the filter's row cap: the positions of the rows to show.
pub fn search_rows(
    term: &str,
    rows: &[(String, Option<String>, Option<String>)],
    limit: Option<u32>,
    offset: Option<u32>,
) -> (r: Vec<usize>)
    ensures
        r@.map_values(|i: usize| i as int) == capped(
            text_hits(term@, rows@.map_values(|x: (String, Option<String>, Option<String>)| text_row(x))),
            limit,
            offset,
        ),
{
    let ghost tr = rows@.map_values(|x: (String, Option<String>, Option<String>)| text_row(x));
    let mut hits: Vec<usize> = Vec::new();
    let mut i: usize = 0;
    assert(tr.take(0) =~= Seq::<(Seq<char>, Option<Seq<char>>, Option<Seq<char>>)>::empty());
    assert(hits@.map_values(|i: usize| i as int) =~= Seq::<int>::empty());
    while i < rows.len()
        invariant
            i <= rows@.len(),
            tr == rows@.map_values(|x: (String, Option<String>, Option<String>)| text_row(x)),
            hits@.map_values(|i: usize| i as int) == text_hits(term@, tr.take(i as int)),
            forall|k: int| 0 <= k < hits@.len() ==> hits@[k] < i,
        decreases rows@.len() - i,
    {
        proof {
            assert(tr.take(i + 1).drop_last() =~= tr.take(i as int));
            assert(tr.take(i + 1).last() == text_row(rows@[i as int]));
        }
        let ghost before = hits@;
        if matches_text(term, rows[i].0.as_str(), &rows[i].1, &rows[i].2) {
            hits.push(i);
            proof {
                assert(hits@.map_values(|i: usize| i as int) =~= before.map_values(|i: usize| i as int).push(i as int));
            }
        }
        i = i + 1;
    }
    assert(tr.take(rows@.len() as int) =~= tr);
    let ghost all = hits@.map_values(|i: usize| i as int);
    match limit {
        None => hits,
        Some(l) => {
            let o: usize = match offset {
                Some(o) => o as usize,
                None => 0,
            };
            let mut out: Vec<usize> = Vec::new();
            if o >= hits.len() {
                assert(out@.map_values(|i: usize| i as int) =~= capped(all, limit, offset));
                return out;
            }
            let ghost rest = all.skip(o as int);
            let n = hits.len() - o;
            let keep: usize = if (l as usize) < n { l as usize } else { n };
            let end: usize = o + keep;
            let mut k: usize = o;
            while k < end
                invariant
                    o <= k <= end,
                    end == o + keep,
                    end <= hits@.len(),
                    all == hits@.map_values(|i: usize| i as int),
                    rest == all.skip(o as int),
                    out@.map_values(|i: usize| i as int) == rest.take(k - o),
                decreases end - k,
            {
                let ghost b = out@;
                out.push(hits[k]);
                proof {
                    assert(out@ == b.push(hits@[k as int]));
                    assert(all[k as int] == hits@[k as int] as int);
                    assert(rest[k - o] == all[k as int]);
                    assert(out@.map_values(|i: usize| i as int) =~= b.map_values(|i: usize| i as int).push(hits@[k as int] as int));
                    assert(rest.take(k + 1 - o) =~= rest.take(k - o).push(rest[k - o]));
                    assert(out@.map_values(|i: usize| i as int) =~= rest.take(k + 1 - o));
                }
                k = k + 1;
            }
            proof {
                if l >= rest.len() {
                    assert(rest.take(keep as int) =~= rest);
                }
            }
            out
        },
    }
}


// ------------------------------------------------------------- sort laws

/// The grid's order, by what each sort promises: `RatingDesc` puts five
/// stars first (the rating descending leads the order), `NameDesc` names
/// descending, the capture sorts put undated frames last and the dated ones
/// ascending or descending as named, and album order follows the album's
/// positions whenever an album is joined. Whatever the filter, the query ends
/// in that order, then only the row cap.
pub proof fn lemma_sort_directions(f: PhotoFilter, joined: bool)
    ensures
        f.sort == PhotoSort::RatingDesc ==> starts_with(order_clause(f.sort, joined), " ORDER BY p.rating DESC,"@),
        f.sort == PhotoSort::NameAsc ==> starts_with(order_clause(f.sort, joined), " ORDER BY p.filename ASC"@),
        f.sort == PhotoSort::NameDesc ==> starts_with(order_clause(f.sort, joined), " ORDER BY p.filename DESC"@),
        f.sort == PhotoSort::CapturedAsc ==> starts_with(
            order_clause(f.sort, joined),
            " ORDER BY p.captured_at IS NULL, p.captured_at ASC,"@,
        ),
        f.sort == PhotoSort::CapturedDesc ==> starts_with(
            order_clause(f.sort, joined),
            " ORDER BY p.captured_at IS NULL, p.captured_at DESC,"@,
        ),
        f.sort == PhotoSort::AlbumOrder && joined ==> starts_with(
            order_clause(f.sort, joined),
            " ORDER BY ap.position ASC,"@,
        ),
        ({
            let oc = order_clause(f.sort, f.album_path is Some);
            let sql = photo_sql(f);
            exists|k: int| 0 <= k <= sql.len() - oc.len() && #[trigger] sql.subrange(k, k + oc.len()) == oc
        }),
{
    reveal_strlit(" ORDER BY p.rating DESC, p.filename ASC");
    reveal_strlit(" ORDER BY p.rating DESC,");
    reveal_strlit(" ORDER BY p.filename ASC");
    reveal_strlit(" ORDER BY p.filename DESC");
    reveal_strlit(" ORDER BY p.captured_at IS NULL, p.captured_at ASC, p.filename ASC");
    reveal_strlit(" ORDER BY p.captured_at IS NULL, p.captured_at ASC,");
    reveal_strlit(" ORDER BY p.captured_at IS NULL, p.captured_at DESC, p.filename ASC");
    reveal_strlit(" ORDER BY p.captured_at IS NULL, p.captured_at DESC,");
    reveal_strlit(" ORDER BY ap.position ASC, p.filename ASC");
    reveal_strlit(" ORDER BY ap.position ASC,");
    let oc = order_clause(f.sort, joined);
    match f.sort {
        PhotoSort::RatingDesc => {
            assert(oc.take(" ORDER BY p.rating DESC,"@.len() as int) =~= " ORDER BY p.rating DESC,"@);
        },
        PhotoSort::NameAsc => {
            assert(oc.take(" ORDER BY p.filename ASC"@.len() as int) =~= " ORDER BY p.filename ASC"@);
        },
        PhotoSort::NameDesc => {
            assert(oc.take(" ORDER BY p.filename DESC"@.len() as int) =~= " ORDER BY p.filename DESC"@);
        },
        PhotoSort::CapturedAsc => {
            assert(oc.take(" ORDER BY p.captured_at IS NULL, p.captured_at ASC,"@.len() as int)
                =~= " ORDER BY p.captured_at IS NULL, p.captured_at ASC,"@);
        },
        PhotoSort::CapturedDesc => {
            assert(oc.take(" ORDER BY p.captured_at IS NULL, p.captured_at DESC,"@.len() as int)
                =~= " ORDER BY p.captured_at IS NULL, p.captured_at DESC,"@);
        },
        PhotoSort::AlbumOrder => {
            if joined {
                assert(oc.take(" ORDER BY ap.position ASC,"@.len() as int) =~= " ORDER BY ap.position ASC,"@);
            }
        },
    }
    let o2 = order_clause(f.sort, f.album_path is Some);
    let cols = join(qualified_cols(seq!['p'], split(PHOTO_COLS@, ',')), seq![',', ' ']);
    let w = conditions(f);
    let head = "SELECT "@ + cols + " FROM photos p"@ + (if f.album_path is Some {
        album_join()
    } else {
        Seq::<char>::empty()
    }) + (if w.len() > 0 {
        " WHERE "@ + join(w, " AND "@)
    } else {
        Seq::<char>::empty()
    });
    let tail = if f.text is Some {
        Seq::<char>::empty()
    } else {
        limit_clause(f.limit, f.offset)
    };
    let sql = photo_sql(f);
    assert(sql == head + o2 + tail);
    assert(sql.subrange(head.len() as int, (head.len() + o2.len()) as int) =~= o2);
}

} // verus!

