//! What a published `index.md` reads back as.
//!
//! A pull adopts an album's settings from the frontmatter the gallery holds,
//! and a publish writes that frontmatter from the catalog, so the two have to
//! agree on every field: [`lemma_frontmatter_reads_back`] proves that reading
//! what [`crate::publish::render_frontmatter`] writes gives back exactly the
//! settings it wrote — text fields byte for byte, whatever they hold.

use vstd::prelude::*;

use crate::model::Album;
use crate::publish::{
    assign, empty_front, fence, flag_line, front_block, frontmatter, is_control, items, kv,
    kv_line, lemma_kv_line_shape, lemma_quoted_has_no_control, lemma_split_whole,
    lemma_unquote_yaml_scalar, lines, list_block, list_for, list_view, opt_kv, opt_text,
    order_line, parsed, plain_key, published_names, quoted, read_line, read_lines,
    thumbnail_of, unquote, Front, ListKind,
};
use crate::text::{
    decimal, find, find_seq, int_text, is_digit, is_space, join, lemma_decimal_digits, lemma_find,
    lemma_find_seq, lemma_parse_int_text, lemma_split_add, parse_i64, split, split_once,
    starts_with, trim, trim_end, trim_start,
};

verus! {

// ------------------------------------------------------------ line blocks

/// Lines written one after another, each ended by a newline.
pub open spec fn block_of(ls: Seq<Seq<char>>) -> Seq<char>
    decreases ls.len(),
{
    if ls.len() == 0 {
        Seq::<char>::empty()
    } else {
        block_of(ls.drop_last()) + ls.last() + seq!['\n']
    }
}

/// A line the reader takes as it stands: not empty, no newline inside, and
/// not starting with `-`, so it can never be read as the closing fence.
pub open spec fn tidy(l: Seq<char>) -> bool {
    l.len() > 0 && !l.contains('\n') && l[0] != '-'
}

/// Every line is tidy.
pub open spec fn all_tidy(ls: Seq<Seq<char>>) -> bool {
    forall|i: int| 0 <= i < ls.len() ==> tidy(#[trigger] ls[i])
}

/// The reader's state after `ls`, from `st`.
pub open spec fn read_from(st: (Front, ListKind), ls: Seq<Seq<char>>) -> (Front, ListKind)
    decreases ls.len(),
{
    if ls.len() == 0 {
        st
    } else {
        read_line(read_from(st, ls.drop_last()), ls.last())
    }
}

/// Nothing read yet.
pub open spec fn start() -> (Front, ListKind) {
    (empty_front(), ListKind::Neither)
}

proof fn lemma_block_add(a: Seq<Seq<char>>, b: Seq<Seq<char>>)
    ensures
        block_of(a + b) == block_of(a) + block_of(b),
    decreases b.len(),
{
    if b.len() == 0 {
        assert(a + b =~= a);
        assert(block_of(a) + block_of(b) =~= block_of(a));
    } else {
        lemma_block_add(a, b.drop_last());
        assert((a + b).drop_last() =~= a + b.drop_last());
        assert((a + b).last() == b.last());
        assert(block_of(a) + block_of(b) =~= block_of(a) + block_of(b.drop_last()) + b.last() + seq![
            '\n',
        ]);
    }
}

proof fn lemma_read_add(st: (Front, ListKind), a: Seq<Seq<char>>, b: Seq<Seq<char>>)
    ensures
        read_from(st, a + b) == read_from(read_from(st, a), b),
    decreases b.len(),
{
    if b.len() == 0 {
        assert(a + b =~= a);
    } else {
        lemma_read_add(st, a, b.drop_last());
        assert((a + b).drop_last() =~= a + b.drop_last());
        assert((a + b).last() == b.last());
    }
}

proof fn lemma_read_lines(ls: Seq<Seq<char>>)
    ensures
        read_lines(ls) == read_from(start(), ls),
    decreases ls.len(),
{
    if ls.len() > 0 {
        lemma_read_lines(ls.drop_last());
    }
}

proof fn lemma_block_join(ls: Seq<Seq<char>>)
    requires
        ls.len() > 0,
    ensures
        block_of(ls) == join(ls, seq!['\n']) + seq!['\n'],
    decreases ls.len(),
{
    if ls.len() == 1 {
        assert(ls.drop_last() =~= Seq::<Seq<char>>::empty());
        assert(block_of(ls.drop_last()) == Seq::<char>::empty());
        assert(ls.last() == ls[0]);
        assert(block_of(ls) =~= ls[0] + seq!['\n']);
    } else {
        lemma_block_join(ls.drop_last());
    }
}

proof fn lemma_split_join(ls: Seq<Seq<char>>)
    requires
        ls.len() > 0,
        all_tidy(ls),
    ensures
        split(join(ls, seq!['\n']), '\n') == ls,
    decreases ls.len(),
{
    if ls.len() == 1 {
        assert(tidy(ls[0]));
        lemma_split_whole(ls[0], '\n');
        assert(seq![ls[0]] =~= ls);
    } else {
        let d = ls.drop_last();
        assert(all_tidy(d)) by {
            assert forall|i: int| 0 <= i < d.len() implies tidy(#[trigger] d[i]) by {
                assert(d[i] == ls[i]);
            }
        }
        lemma_split_join(d);
        assert(tidy(ls[ls.len() - 1]));
        lemma_split_whole(ls.last(), '\n');
        lemma_split_add(join(d, seq!['\n']), ls.last(), '\n');
        assert(d + seq![ls.last()] =~= ls);
    }
}

/// After every newline but the last of `\n` and the block comes a character
/// other than `-`.
proof fn lemma_no_early_fence(ls: Seq<Seq<char>>)
    requires
        all_tidy(ls),
    ensures
        ({
            let s = seq!['\n'] + block_of(ls);
            &&& s.last() == '\n'
            &&& forall|j: int| 0 <= j < s.len() - 1 && #[trigger] s[j] == '\n' ==> s[j + 1] != '-'
        }),
    decreases ls.len(),
{
    if ls.len() > 0 {
        let d = ls.drop_last();
        assert(all_tidy(d)) by {
            assert forall|i: int| 0 <= i < d.len() implies tidy(#[trigger] d[i]) by {
                assert(d[i] == ls[i]);
            }
        }
        lemma_no_early_fence(d);
        let l = ls.last();
        assert(tidy(ls[ls.len() - 1]));
        let s0 = seq!['\n'] + block_of(d);
        let s = seq!['\n'] + block_of(ls);
        assert(s =~= s0 + l + seq!['\n']);
        assert forall|j: int| 0 <= j < s.len() - 1 && #[trigger] s[j] == '\n' implies s[j + 1] != '-' by {
            if j < s0.len() - 1 {
                assert(s[j] == s0[j] && s[j + 1] == s0[j + 1]);
            } else if j == s0.len() - 1 {
                assert(s[j + 1] == l[0]);
            } else {
                assert(s[j] == l[j - s0.len()]);
                assert(l.contains(s[j]));
            }
        }
    }
}

/// A tidy, non-empty block between fences reads as its lines read in order.
pub proof fn lemma_block_reads(ls: Seq<Seq<char>>)
    requires
        ls.len() > 0,
        all_tidy(ls),
    ensures
        parsed(seq!['-', '-', '-', '\n'] + block_of(ls) + seq!['-', '-', '-', '\n']) == read_from(
            start(),
            ls,
        ).0,
{
    let b = block_of(ls);
    let content = seq!['-', '-', '-', '\n'] + b + seq!['-', '-', '-', '\n'];
    let nl3 = seq!['\n', '-', '-', '-'];
    assert(content.take(3) =~= seq!['-', '-', '-']);
    let rest = content.skip(3);
    let s = seq!['\n'] + b;
    assert(rest =~= s + seq!['-', '-', '-', '\n']);
    lemma_no_early_fence(ls);
    lemma_block_join(ls);
    let at = b.len() as int;
    assert(rest.skip(at).take(4) =~= nl3) by {
        assert(rest[at] == s[at]);
        assert(s[at] == s.last());
    }
    assert forall|j: int| 0 <= j < at implies !starts_with(#[trigger] rest.skip(j), nl3) by {
        if starts_with(rest.skip(j), nl3) {
            assert(rest.skip(j).take(4)[0] == rest[j]);
            assert(rest.skip(j).take(4)[1] == rest[j + 1]);
            assert(rest[j] == s[j] && rest[j + 1] == s[j + 1]);
        }
    }
    lemma_find_seq(rest, nl3);
    match find_seq(rest, nl3) {
        Some(i) => {
            if i < at {
            } else if i > at {
                assert(!starts_with(rest.skip(at), nl3));
            }
        },
        None => {
            assert(!starts_with(rest.skip(at), nl3));
        },
    }
    assert(find_seq(rest, nl3) == Some(at));
    let block = rest.take(at);
    assert(block =~= seq!['\n'] + join(ls, seq!['\n']));
    assert(front_block(content) == Some(block));
    lemma_split_join(ls);
    lemma_split_add(Seq::<char>::empty(), join(ls, seq!['\n']), '\n');
    assert(Seq::<char>::empty() + seq!['\n'] + join(ls, seq!['\n']) =~= block);
    lemma_split_whole(Seq::<char>::empty(), '\n');
    let pieces = seq![Seq::<char>::empty()] + ls;
    assert(split(block, '\n') =~= pieces);
    assert(tidy(ls[ls.len() - 1]));
    assert(pieces.last() == ls.last());
    assert(lines(block) == pieces);
    lemma_read_lines(pieces);
    lemma_read_add(start(), seq![Seq::<char>::empty()], ls);
    assert(seq![Seq::<char>::empty()].drop_last() =~= Seq::<Seq<char>>::empty());
    let e = Seq::<char>::empty();
    assert(crate::text::trim_end(e) == e);
    assert(crate::text::trim(e).len() == 0);
    assert(read_from(start(), seq![e].drop_last()) == start());
    assert(seq![e].last() == e);
    assert(crate::text::trim(crate::text::trim_end(e)).len() == 0);
    assert(read_line(start(), e) == start());
    assert(read_from(start(), seq![e]) == start());
}

// ------------------------------------------------------------ single lines

/// `key: value` with the value as written.
pub open spec fn setting_line(k: Seq<char>, val: Seq<char>) -> Seq<char> {
    k + seq![':', ' '] + val
}

/// A line holding a key alone, opening a list.
pub open spec fn key_line(k: Seq<char>) -> Seq<char> {
    k + seq![':']
}

/// One list item.
pub open spec fn item_line(x: Seq<char>) -> Seq<char> {
    seq![' ', ' ', '-', ' '] + quoted(x)
}

proof fn lemma_key_letters(k: Seq<char>)
    requires
        plain_key(k),
    ensures
        forall|j: int| 0 <= j < k.len() ==> !is_space(#[trigger] k[j]) && k[j] != ':' && k[j] != '\n'
            && k[j] != '-',
        trim_start(k) == k,
        trim_end(k) == k,
{
    assert forall|j: int| 0 <= j < k.len() implies !is_space(#[trigger] k[j]) && k[j] != ':' && k[j]
        != '\n' && k[j] != '-' by {
        assert('a' <= k[j] <= 'z' || 'A' <= k[j] <= 'Z');
    }
    assert(!is_space(k[0]));
    assert(k.last() == k[k.len() - 1]);
    assert(!is_space(k.last()));
}

/// A `key: value` line sets the key to the value as unquoted, and closes any
/// open list.
proof fn lemma_setting_reads(st: (Front, ListKind), k: Seq<char>, val: Seq<char>)
    requires
        plain_key(k),
        val.len() > 0,
        !is_space(val[0]),
        !is_space(val.last()),
    ensures
        read_line(st, setting_line(k, val)) == (assign(st.0, k, unquote(val)), ListKind::Neither),
{
    let line = setting_line(k, val);
    lemma_key_letters(k);
    assert(line.last() == val.last());
    assert(trim_end(line) == line);
    assert(line[0] == k[0]);
    assert(trim_start(line) == line);
    assert(trim(line) == line);
    assert(!starts_with(line, seq!['-', ' '])) by {
        assert(line.take(2)[0] == line[0]);
    }
    lemma_find(line, ':');
    assert forall|j: int| 0 <= j < k.len() implies line[j] != ':' by {
        assert(line[j] == k[j]);
    }
    assert(line[k.len() as int] == ':');
    assert(find(line, ':') == Some(k.len() as int));
    assert(line.take(k.len() as int) =~= k);
    let after = line.skip(k.len() as int + 1);
    assert(after =~= seq![' '] + val);
    assert(after.drop_first() =~= val);
    assert(trim_start(val) == val);
    assert(trim_start(after) == val);
    assert(trim_end(val) == val);
    assert(trim(after) == val);
    assert(split_once(line, ':') == Some((k, after)));
}

/// A key alone on its line opens its list.
proof fn lemma_key_line_reads(st: (Front, ListKind), k: Seq<char>)
    requires
        plain_key(k),
    ensures
        read_line(st, key_line(k)) == (st.0, list_for(k)),
{
    let line = key_line(k);
    lemma_key_letters(k);
    assert(line.last() == ':');
    assert(trim_end(line) == line);
    assert(line[0] == k[0]);
    assert(trim_start(line) == line);
    assert(trim(line) == line);
    assert(!starts_with(line, seq!['-', ' '])) by {
        assert(line.take(2)[0] == line[0]);
    }
    lemma_find(line, ':');
    assert forall|j: int| 0 <= j < k.len() implies line[j] != ':' by {
        assert(line[j] == k[j]);
    }
    assert(find(line, ':') == Some(k.len() as int));
    assert(line.take(k.len() as int) =~= k);
    assert(line.skip(k.len() as int + 1) =~= Seq::<char>::empty());
    assert(trim(Seq::<char>::empty()) =~= Seq::<char>::empty());
}

/// A list item is appended to the open list.
proof fn lemma_item_reads(st: (Front, ListKind), x: Seq<char>)
    ensures
        read_line(st, item_line(x)) == (
            match st.1 {
                ListKind::Tags => Front { tags: st.0.tags.push(x), ..st.0 },
                ListKind::PhotoOrder => Front { photo_order: st.0.photo_order.push(x), ..st.0 },
                ListKind::Neither => st.0,
            },
            st.1,
        ),
{
    let q = quoted(x);
    let line = item_line(x);
    assert(q[0] == '"');
    assert(q.last() == '"');
    assert(line.last() == q.last());
    assert(trim_end(line) == line);
    assert(is_space(line[0]));
    assert(line.drop_first() =~= seq![' ', '-', ' '] + q);
    assert(is_space(line.drop_first()[0]));
    assert(line.drop_first().drop_first() =~= seq!['-', ' '] + q);
    let ts = seq!['-', ' '] + q;
    assert(!is_space(ts[0]));
    assert(trim_start(ts) == ts);
    assert(trim_start(line.drop_first()) == trim_start(ts));
    assert(trim_start(line) == trim_start(line.drop_first()));
    assert(trim_start(line) == ts);
    assert(trim(line) == trim_end(ts));
    assert(ts.last() == q.last());
    assert(trim_end(ts) == ts);
    assert(trim(line).len() > 0);
    assert(ts.take(2) =~= seq!['-', ' ']);
    assert(ts.skip(2) =~= q);
    crate::publish::lemma_trim_keeps(q);
    lemma_unquote_yaml_scalar(x);
}

/// Item lines, in order.
pub open spec fn item_lines(xs: Seq<Seq<char>>) -> Seq<Seq<char>> {
    xs.map_values(|x: Seq<char>| item_line(x))
}

/// A run of items under `tags:` appends them to the tags, and one under
/// `photoOrder:` to the photo order.
proof fn lemma_items_read(f: Front, kind: ListKind, xs: Seq<Seq<char>>)
    ensures
        read_from((f, kind), item_lines(xs)) == (
            match kind {
                ListKind::Tags => Front { tags: f.tags + xs, ..f },
                ListKind::PhotoOrder => Front { photo_order: f.photo_order + xs, ..f },
                ListKind::Neither => f,
            },
            kind,
        ),
    decreases xs.len(),
{
    if xs.len() == 0 {
        assert(item_lines(xs) =~= Seq::<Seq<char>>::empty());
        assert(f.tags + xs =~= f.tags);
        assert(f.photo_order + xs =~= f.photo_order);
    } else {
        lemma_items_read(f, kind, xs.drop_last());
        assert(item_lines(xs).drop_last() =~= item_lines(xs.drop_last()));
        assert(item_lines(xs).last() == item_line(xs.last()));
        let prev = read_from((f, kind), item_lines(xs.drop_last()));
        lemma_item_reads(prev, xs.last());
        assert(f.tags + xs.drop_last() + seq![xs.last()] =~= f.tags + xs);
        assert((f.tags + xs.drop_last()).push(xs.last()) =~= f.tags + xs);
        assert((f.photo_order + xs.drop_last()).push(xs.last()) =~= f.photo_order + xs);
    }
}

// ------------------------------------------------------------------ pieces

/// The line of an optional setting, or none.
pub open spec fn opt_lines(k: Seq<char>, o: Option<Seq<char>>) -> Seq<Seq<char>> {
    match o {
        Some(v) => seq![kv_line(k, v)],
        None => Seq::<Seq<char>>::empty(),
    }
}

/// A list under its key, or nothing for an empty list.
pub open spec fn list_lines(k: Seq<char>, list: Seq<Seq<char>>) -> Seq<Seq<char>> {
    if list.len() == 0 {
        Seq::<Seq<char>>::empty()
    } else {
        seq![key_line(k)] + item_lines(list)
    }
}

/// `key: true` when the flag is set.
pub open spec fn flag_lines(k: Seq<char>, on: bool) -> Seq<Seq<char>> {
    if on {
        seq![setting_line(k, "true"@)]
    } else {
        Seq::<Seq<char>>::empty()
    }
}

/// `order: n` when the album has a position.
pub open spec fn order_lines(o: Option<i64>) -> Seq<Seq<char>> {
    match o {
        Some(n) => seq![setting_line("order"@, int_text(n as int))],
        None => Seq::<Seq<char>>::empty(),
    }
}

proof fn lemma_one_line(st: (Front, ListKind), l: Seq<char>)
    ensures
        read_from(st, seq![l]) == read_line(st, l),
{
    assert(seq![l].drop_last() =~= Seq::<Seq<char>>::empty());
    assert(seq![l].last() == l);
    assert(read_from(st, Seq::<Seq<char>>::empty()) == st);
}

proof fn lemma_kv_piece(st: (Front, ListKind), k: Seq<char>, v: Seq<char>)
    requires
        plain_key(k),
    ensures
        read_from(st, seq![kv_line(k, v)]) == (assign(st.0, k, v), ListKind::Neither),
{
    let q = quoted(v);
    assert(kv_line(k, v) == setting_line(k, q));
    assert(q[0] == '"');
    assert(q.last() == '"');
    lemma_setting_reads(st, k, q);
    lemma_unquote_yaml_scalar(v);
    lemma_one_line(st, kv_line(k, v));
}

proof fn lemma_opt_piece(st: (Front, ListKind), k: Seq<char>, o: Option<Seq<char>>)
    requires
        plain_key(k),
    ensures
        read_from(st, opt_lines(k, o)) == match o {
            Some(v) => (assign(st.0, k, v), ListKind::Neither),
            None => st,
        },
{
    if let Some(v) = o {
        lemma_kv_piece(st, k, v);
    }
}

proof fn lemma_list_piece(st: (Front, ListKind), k: Seq<char>, list: Seq<Seq<char>>)
    requires
        plain_key(k),
    ensures
        list.len() == 0 ==> read_from(st, list_lines(k, list)) == st,
        list.len() > 0 ==> read_from(st, list_lines(k, list)) == (
            match list_for(k) {
                ListKind::Tags => Front { tags: st.0.tags + list, ..st.0 },
                ListKind::PhotoOrder => Front { photo_order: st.0.photo_order + list, ..st.0 },
                ListKind::Neither => st.0,
            },
            list_for(k),
        ),
{
    if list.len() > 0 {
        lemma_key_line_reads(st, k);
        lemma_one_line(st, key_line(k));
        lemma_read_add(st, seq![key_line(k)], item_lines(list));
        lemma_items_read(st.0, list_for(k), list);
    }
}

proof fn lemma_flag_piece(st: (Front, ListKind), k: Seq<char>, on: bool)
    requires
        plain_key(k),
    ensures
        read_from(st, flag_lines(k, on)) == if on {
            (assign(st.0, k, "true"@), ListKind::Neither)
        } else {
            st
        },
{
    if on {
        let t = "true"@;
        reveal_strlit("true");
        assert(t[0] == 't');
        assert(t.last() == 'e');
        lemma_setting_reads(st, k, t);
        crate::publish::lemma_trim_keeps(t);
        assert(unquote(t) == t);
        lemma_one_line(st, setting_line(k, t));
    }
}

proof fn lemma_int_text_shape(n: i64)
    ensures
        int_text(n as int).len() > 0,
        forall|j: int|
            0 <= j < int_text(n as int).len() ==> (is_digit(#[trigger] int_text(n as int)[j]) || (j
                == 0 && int_text(n as int)[j] == '-')),
        is_digit(int_text(n as int).last()),
{
    if n < 0 {
        let m = (-n) as nat;
        lemma_decimal_digits(m);
        let d = decimal(m);
        let t = int_text(n as int);
        assert(t =~= seq!['-'] + d);
        assert forall|j: int| 0 <= j < t.len() implies (is_digit(#[trigger] t[j]) || (j == 0
            && t[j] == '-')) by {
            if j > 0 {
                assert(t[j] == d[j - 1]);
            }
        }
        assert(t.last() == d[d.len() - 1]);
    } else {
        lemma_decimal_digits(n as nat);
        let d = decimal(n as nat);
        assert(d.last() == d[d.len() - 1]);
    }
}

proof fn lemma_order_piece(st: (Front, ListKind), o: Option<i64>)
    ensures
        read_from(st, order_lines(o)) == match o {
            Some(n) => (Front { order: Some(n), ..st.0 }, ListKind::Neither),
            None => st,
        },
{
    if let Some(n) = o {
        reveal_strlit("order");
        let k = "order"@;
        assert(plain_key(k));
        let t = int_text(n as int);
        lemma_int_text_shape(n);
        assert(!is_space(t[0])) by {
            assert(is_digit(t[0]) || t[0] == '-');
        }
        assert(!is_space(t.last()));
        lemma_setting_reads(st, k, t);
        crate::publish::lemma_trim_keeps(t);
        assert(t[0] != '"' && t[0] != '\'') by {
            assert(is_digit(t[0]) || t[0] == '-');
        }
        assert(unquote(t) == t);
        lemma_parse_int_text(n);
        lemma_assign_keys(st.0, t);
        lemma_one_line(st, setting_line(k, t));
    }
}

/// Each key the frontmatter writes sets its own field and nothing else.
proof fn lemma_assign_keys(f: Front, v: Seq<char>)
    ensures
        assign(f, "title"@, v) == (Front { title: Some(v), ..f }),
        assign(f, "description"@, v) == (Front { description: Some(v), ..f }),
        assign(f, "date"@, v) == (Front { date: Some(v), ..f }),
        assign(f, "token"@, v) == (Front { token: Some(v), ..f }),
        assign(f, "password"@, v) == (Front { password: Some(v), ..f }),
        assign(f, "shareToken"@, v) == (Front { share_token: Some(v), ..f }),
        assign(f, "sort"@, v) == (Front { sort: Some(v), ..f }),
        assign(f, "style"@, v) == (Front { style: Some(v), ..f }),
        assign(f, "thumbnail"@, v) == (Front { thumbnail: Some(v), ..f }),
        assign(f, "isCollection"@, v) == (Front { is_collection: v == "true"@, ..f }),
        assign(f, "hidden"@, v) == (Front { hidden: v == "true"@, ..f }),
        assign(f, "allowDownload"@, v) == (Front { allow_download: v == "true"@, ..f }),
        assign(f, "proofing"@, v) == (Front { proofing: v == "true"@, ..f }),
        assign(f, "order"@, v) == (Front { order: parse_i64(v), ..f }),
{
    reveal_strlit("title");
    reveal_strlit("description");
    reveal_strlit("date");
    reveal_strlit("token");
    reveal_strlit("password");
    reveal_strlit("shareToken");
    reveal_strlit("sort");
    reveal_strlit("style");
    reveal_strlit("thumbnail");
    reveal_strlit("isCollection");
    reveal_strlit("hidden");
    reveal_strlit("allowDownload");
    reveal_strlit("proofing");
    reveal_strlit("order");
    assert("description"@ != "title"@) by { assert("description"@.len() != "title"@.len()); }
    assert("date"@ != "title"@) by { assert("date"@.len() != "title"@.len()); }
    assert("date"@ != "description"@) by { assert("date"@.len() != "description"@.len()); }
    assert("token"@ != "title"@) by { assert("token"@[1] != "title"@[1]); }
    assert("token"@ != "description"@) by { assert("token"@.len() != "description"@.len()); }
    assert("token"@ != "date"@) by { assert("token"@.len() != "date"@.len()); }
    assert("password"@ != "title"@) by { assert("password"@.len() != "title"@.len()); }
    assert("password"@ != "description"@) by { assert("password"@.len() != "description"@.len()); }
    assert("password"@ != "date"@) by { assert("password"@.len() != "date"@.len()); }
    assert("password"@ != "token"@) by { assert("password"@.len() != "token"@.len()); }
    assert("shareToken"@ != "title"@) by { assert("shareToken"@.len() != "title"@.len()); }
    assert("shareToken"@ != "description"@) by { assert("shareToken"@.len() != "description"@.len()); }
    assert("shareToken"@ != "date"@) by { assert("shareToken"@.len() != "date"@.len()); }
    assert("shareToken"@ != "token"@) by { assert("shareToken"@.len() != "token"@.len()); }
    assert("shareToken"@ != "password"@) by { assert("shareToken"@.len() != "password"@.len()); }
    assert("sort"@ != "title"@) by { assert("sort"@.len() != "title"@.len()); }
    assert("sort"@ != "description"@) by { assert("sort"@.len() != "description"@.len()); }
    assert("sort"@ != "date"@) by { assert("sort"@[0] != "date"@[0]); }
    assert("sort"@ != "token"@) by { assert("sort"@.len() != "token"@.len()); }
    assert("sort"@ != "password"@) by { assert("sort"@.len() != "password"@.len()); }
    assert("sort"@ != "shareToken"@) by { assert("sort"@.len() != "shareToken"@.len()); }
    assert("style"@ != "title"@) by { assert("style"@[0] != "title"@[0]); }
    assert("style"@ != "description"@) by { assert("style"@.len() != "description"@.len()); }
    assert("style"@ != "date"@) by { assert("style"@.len() != "date"@.len()); }
    assert("style"@ != "token"@) by { assert("style"@[0] != "token"@[0]); }
    assert("style"@ != "password"@) by { assert("style"@.len() != "password"@.len()); }
    assert("style"@ != "shareToken"@) by { assert("style"@.len() != "shareToken"@.len()); }
    assert("style"@ != "sort"@) by { assert("style"@.len() != "sort"@.len()); }
    assert("thumbnail"@ != "title"@) by { assert("thumbnail"@.len() != "title"@.len()); }
    assert("thumbnail"@ != "description"@) by { assert("thumbnail"@.len() != "description"@.len()); }
    assert("thumbnail"@ != "date"@) by { assert("thumbnail"@.len() != "date"@.len()); }
    assert("thumbnail"@ != "token"@) by { assert("thumbnail"@.len() != "token"@.len()); }
    assert("thumbnail"@ != "password"@) by { assert("thumbnail"@.len() != "password"@.len()); }
    assert("thumbnail"@ != "shareToken"@) by { assert("thumbnail"@.len() != "shareToken"@.len()); }
    assert("thumbnail"@ != "sort"@) by { assert("thumbnail"@.len() != "sort"@.len()); }
    assert("thumbnail"@ != "style"@) by { assert("thumbnail"@.len() != "style"@.len()); }
    assert("isCollection"@ != "title"@) by { assert("isCollection"@.len() != "title"@.len()); }
    assert("isCollection"@ != "description"@) by { assert("isCollection"@.len() != "description"@.len()); }
    assert("isCollection"@ != "date"@) by { assert("isCollection"@.len() != "date"@.len()); }
    assert("isCollection"@ != "token"@) by { assert("isCollection"@.len() != "token"@.len()); }
    assert("isCollection"@ != "password"@) by { assert("isCollection"@.len() != "password"@.len()); }
    assert("isCollection"@ != "shareToken"@) by { assert("isCollection"@.len() != "shareToken"@.len()); }
    assert("isCollection"@ != "sort"@) by { assert("isCollection"@.len() != "sort"@.len()); }
    assert("isCollection"@ != "style"@) by { assert("isCollection"@.len() != "style"@.len()); }
    assert("isCollection"@ != "thumbnail"@) by { assert("isCollection"@.len() != "thumbnail"@.len()); }
    assert("hidden"@ != "title"@) by { assert("hidden"@.len() != "title"@.len()); }
    assert("hidden"@ != "description"@) by { assert("hidden"@.len() != "description"@.len()); }
    assert("hidden"@ != "date"@) by { assert("hidden"@.len() != "date"@.len()); }
    assert("hidden"@ != "token"@) by { assert("hidden"@.len() != "token"@.len()); }
    assert("hidden"@ != "password"@) by { assert("hidden"@.len() != "password"@.len()); }
    assert("hidden"@ != "shareToken"@) by { assert("hidden"@.len() != "shareToken"@.len()); }
    assert("hidden"@ != "sort"@) by { assert("hidden"@.len() != "sort"@.len()); }
    assert("hidden"@ != "style"@) by { assert("hidden"@.len() != "style"@.len()); }
    assert("hidden"@ != "thumbnail"@) by { assert("hidden"@.len() != "thumbnail"@.len()); }
    assert("hidden"@ != "isCollection"@) by { assert("hidden"@.len() != "isCollection"@.len()); }
    assert("allowDownload"@ != "title"@) by { assert("allowDownload"@.len() != "title"@.len()); }
    assert("allowDownload"@ != "description"@) by { assert("allowDownload"@.len() != "description"@.len()); }
    assert("allowDownload"@ != "date"@) by { assert("allowDownload"@.len() != "date"@.len()); }
    assert("allowDownload"@ != "token"@) by { assert("allowDownload"@.len() != "token"@.len()); }
    assert("allowDownload"@ != "password"@) by { assert("allowDownload"@.len() != "password"@.len()); }
    assert("allowDownload"@ != "shareToken"@) by { assert("allowDownload"@.len() != "shareToken"@.len()); }
    assert("allowDownload"@ != "sort"@) by { assert("allowDownload"@.len() != "sort"@.len()); }
    assert("allowDownload"@ != "style"@) by { assert("allowDownload"@.len() != "style"@.len()); }
    assert("allowDownload"@ != "thumbnail"@) by { assert("allowDownload"@.len() != "thumbnail"@.len()); }
    assert("allowDownload"@ != "isCollection"@) by { assert("allowDownload"@.len() != "isCollection"@.len()); }
    assert("allowDownload"@ != "hidden"@) by { assert("allowDownload"@.len() != "hidden"@.len()); }
    assert("proofing"@ != "title"@) by { assert("proofing"@.len() != "title"@.len()); }
    assert("proofing"@ != "description"@) by { assert("proofing"@.len() != "description"@.len()); }
    assert("proofing"@ != "date"@) by { assert("proofing"@.len() != "date"@.len()); }
    assert("proofing"@ != "token"@) by { assert("proofing"@.len() != "token"@.len()); }
    assert("proofing"@ != "password"@) by { assert("proofing"@[1] != "password"@[1]); }
    assert("proofing"@ != "shareToken"@) by { assert("proofing"@.len() != "shareToken"@.len()); }
    assert("proofing"@ != "sort"@) by { assert("proofing"@.len() != "sort"@.len()); }
    assert("proofing"@ != "style"@) by { assert("proofing"@.len() != "style"@.len()); }
    assert("proofing"@ != "thumbnail"@) by { assert("proofing"@.len() != "thumbnail"@.len()); }
    assert("proofing"@ != "isCollection"@) by { assert("proofing"@.len() != "isCollection"@.len()); }
    assert("proofing"@ != "hidden"@) by { assert("proofing"@.len() != "hidden"@.len()); }
    assert("proofing"@ != "allowDownload"@) by { assert("proofing"@.len() != "allowDownload"@.len()); }
    assert("order"@ != "title"@) by { assert("order"@[0] != "title"@[0]); }
    assert("order"@ != "description"@) by { assert("order"@.len() != "description"@.len()); }
    assert("order"@ != "date"@) by { assert("order"@.len() != "date"@.len()); }
    assert("order"@ != "token"@) by { assert("order"@[0] != "token"@[0]); }
    assert("order"@ != "password"@) by { assert("order"@.len() != "password"@.len()); }
    assert("order"@ != "shareToken"@) by { assert("order"@.len() != "shareToken"@.len()); }
    assert("order"@ != "sort"@) by { assert("order"@.len() != "sort"@.len()); }
    assert("order"@ != "style"@) by { assert("order"@[0] != "style"@[0]); }
    assert("order"@ != "thumbnail"@) by { assert("order"@.len() != "thumbnail"@.len()); }
    assert("order"@ != "isCollection"@) by { assert("order"@.len() != "isCollection"@.len()); }
    assert("order"@ != "hidden"@) by { assert("order"@.len() != "hidden"@.len()); }
    assert("order"@ != "allowDownload"@) by { assert("order"@.len() != "allowDownload"@.len()); }
    assert("order"@ != "proofing"@) by { assert("order"@.len() != "proofing"@.len()); }
}

// ---------------------------------------------------------------- document

/// The lines of the frontmatter [`crate::publish::render_frontmatter`] writes,
/// between its fences.
pub open spec fn doc_lines(a: Album, photos: Seq<Seq<char>>) -> Seq<Seq<char>> {
    seq![kv_line("title"@, a.title@)]
        + opt_lines("description"@, opt_text(a.description))
        + opt_lines("date"@, opt_text(a.date))
        + seq![kv_line("token"@, a.token@)]
        + opt_lines("password"@, opt_text(a.password))
        + opt_lines("shareToken"@, opt_text(a.share_token))
        + seq![kv_line("sort"@, a.sort@)]
        + (if a.sort@ == "custom"@ {
        list_lines("photoOrder"@, published_names(photos))
    } else {
        Seq::<Seq<char>>::empty()
    })
        + seq![kv_line("style"@, a.style@)]
        + opt_lines("thumbnail"@, thumbnail_of(a.cover_filename, photos))
        + list_lines("tags"@, list_view(a.tags@))
        + flag_lines("isCollection"@, a.is_collection)
        + order_lines(a.sort_order)
        + flag_lines("hidden"@, a.hidden)
        + flag_lines("allowDownload"@, a.allow_download)
        + flag_lines("proofing"@, a.proofing)
}

/// The settings a pull reads out of an album's published frontmatter: every
/// text field exactly as the catalog holds it (the optional ones trimmed, and
/// absent when blank, as they are written), the photo order for a custom
/// sort, the tags, the four flags and the position.
pub open spec fn front_of(a: Album, photos: Seq<Seq<char>>) -> Front {
    Front {
        title: Some(a.title@),
        description: opt_text(a.description),
        date: opt_text(a.date),
        token: Some(a.token@),
        password: opt_text(a.password),
        share_token: opt_text(a.share_token),
        sort: Some(a.sort@),
        style: Some(a.style@),
        thumbnail: thumbnail_of(a.cover_filename, photos),
        photo_order: if a.sort@ == "custom"@ {
            published_names(photos)
        } else {
            Seq::<Seq<char>>::empty()
        },
        tags: list_view(a.tags@),
        is_collection: a.is_collection,
        hidden: a.hidden,
        allow_download: a.allow_download,
        proofing: a.proofing,
        order: a.sort_order,
    }
}

proof fn lemma_items_block(list: Seq<Seq<char>>)
    ensures
        items(list) == block_of(item_lines(list)),
    decreases list.len(),
{
    if list.len() > 0 {
        lemma_items_block(list.drop_last());
        assert(item_lines(list).drop_last() =~= item_lines(list.drop_last()));
        assert(item_lines(list).last() == item_line(list.last()));
        assert(items(list) =~= block_of(item_lines(list)));
    } else {
        assert(item_lines(list) =~= Seq::<Seq<char>>::empty());
    }
}

proof fn lemma_single_block(l: Seq<char>)
    ensures
        block_of(seq![l]) == l + seq!['\n'],
{
    assert(seq![l].drop_last() =~= Seq::<Seq<char>>::empty());
    assert(seq![l].last() == l);
    assert(block_of(Seq::<Seq<char>>::empty()) == Seq::<char>::empty());
    assert(block_of(seq![l]) == block_of(Seq::<Seq<char>>::empty()) + l + seq!['\n']);
    assert(block_of(seq![l]) =~= l + seq!['\n']);
}

proof fn lemma_pieces_written(k: Seq<char>, v: Seq<char>, o: Option<Seq<char>>, list: Seq<Seq<char>>, on: bool, n: Option<i64>)
    ensures
        kv(k, v) == block_of(seq![kv_line(k, v)]),
        opt_kv(k, o) == block_of(opt_lines(k, o)),
        list_block(k, list) == block_of(list_lines(k, list)),
        flag_line(k, on) == block_of(flag_lines(k, on)),
        order_line(n) == block_of(order_lines(n)),
{
    lemma_single_block(kv_line(k, v));
    assert(kv(k, v) =~= kv_line(k, v) + seq!['\n']);
    if let Some(w) = o {
        lemma_single_block(kv_line(k, w));
        assert(kv(k, w) =~= kv_line(k, w) + seq!['\n']);
    } else {
        assert(opt_lines(k, o) =~= Seq::<Seq<char>>::empty());
    }
    if list.len() > 0 {
        lemma_items_block(list);
        lemma_block_add(seq![key_line(k)], item_lines(list));
        lemma_single_block(key_line(k));
        assert(list_block(k, list) =~= key_line(k) + seq!['\n'] + items(list));
    }
    reveal_strlit("true");
    if on {
        lemma_single_block(setting_line(k, "true"@));
        assert(flag_line(k, on) =~= setting_line(k, "true"@) + seq!['\n']);
    }
    reveal_strlit("order");
    if let Some(m) = n {
        let l = setting_line("order"@, int_text(m as int));
        lemma_single_block(l);
        assert(order_line(n) =~= l + seq!['\n']);
    }
}

/// The frontmatter is its lines between two fences.
proof fn lemma_doc_written(a: Album, photos: Seq<Seq<char>>)
    ensures
        frontmatter(a, photos) == fence() + block_of(doc_lines(a, photos)) + fence(),
{
    let e = Seq::<Seq<char>>::empty();
    let e0 = Seq::<char>::empty();
    let l1 = seq![kv_line("title"@, a.title@)];
    let w1 = kv("title"@, a.title@);
    lemma_pieces_written("title"@, a.title@, None, e, false, None);
    assert(w1 == block_of(l1));
    let l2 = opt_lines("description"@, opt_text(a.description));
    let w2 = opt_kv("description"@, opt_text(a.description));
    lemma_pieces_written("description"@, e0, opt_text(a.description), e, false, None);
    assert(w2 == block_of(l2));
    let l3 = opt_lines("date"@, opt_text(a.date));
    let w3 = opt_kv("date"@, opt_text(a.date));
    lemma_pieces_written("date"@, e0, opt_text(a.date), e, false, None);
    assert(w3 == block_of(l3));
    let l4 = seq![kv_line("token"@, a.token@)];
    let w4 = kv("token"@, a.token@);
    lemma_pieces_written("token"@, a.token@, None, e, false, None);
    assert(w4 == block_of(l4));
    let l5 = opt_lines("password"@, opt_text(a.password));
    let w5 = opt_kv("password"@, opt_text(a.password));
    lemma_pieces_written("password"@, e0, opt_text(a.password), e, false, None);
    assert(w5 == block_of(l5));
    let l6 = opt_lines("shareToken"@, opt_text(a.share_token));
    let w6 = opt_kv("shareToken"@, opt_text(a.share_token));
    lemma_pieces_written("shareToken"@, e0, opt_text(a.share_token), e, false, None);
    assert(w6 == block_of(l6));
    let l7 = seq![kv_line("sort"@, a.sort@)];
    let w7 = kv("sort"@, a.sort@);
    lemma_pieces_written("sort"@, a.sort@, None, e, false, None);
    assert(w7 == block_of(l7));
    let l8 = (if a.sort@ == "custom"@ { list_lines("photoOrder"@, published_names(photos)) } else { Seq::<Seq<char>>::empty() });
    let w8 = (if a.sort@ == "custom"@ { list_block("photoOrder"@, published_names(photos)) } else { Seq::<char>::empty() });
    lemma_pieces_written("photoOrder"@, e0, None, published_names(photos), false, None);
    assert(w8 == block_of(l8)) by {
        if a.sort@ != "custom"@ {
            assert(block_of(e) == e0);
        }
    }
    let l9 = seq![kv_line("style"@, a.style@)];
    let w9 = kv("style"@, a.style@);
    lemma_pieces_written("style"@, a.style@, None, e, false, None);
    assert(w9 == block_of(l9));
    let l10 = opt_lines("thumbnail"@, thumbnail_of(a.cover_filename, photos));
    let w10 = opt_kv("thumbnail"@, thumbnail_of(a.cover_filename, photos));
    lemma_pieces_written("thumbnail"@, e0, thumbnail_of(a.cover_filename, photos), e, false, None);
    assert(w10 == block_of(l10));
    let l11 = list_lines("tags"@, list_view(a.tags@));
    let w11 = list_block("tags"@, list_view(a.tags@));
    lemma_pieces_written("tags"@, e0, None, list_view(a.tags@), false, None);
    assert(w11 == block_of(l11));
    let l12 = flag_lines("isCollection"@, a.is_collection);
    let w12 = flag_line("isCollection"@, a.is_collection);
    lemma_pieces_written("isCollection"@, e0, None, e, a.is_collection, None);
    assert(w12 == block_of(l12));
    let l13 = order_lines(a.sort_order);
    let w13 = order_line(a.sort_order);
    lemma_pieces_written("order"@, e0, None, e, false, a.sort_order);
    assert(w13 == block_of(l13));
    let l14 = flag_lines("hidden"@, a.hidden);
    let w14 = flag_line("hidden"@, a.hidden);
    lemma_pieces_written("hidden"@, e0, None, e, a.hidden, None);
    assert(w14 == block_of(l14));
    let l15 = flag_lines("allowDownload"@, a.allow_download);
    let w15 = flag_line("allowDownload"@, a.allow_download);
    lemma_pieces_written("allowDownload"@, e0, None, e, a.allow_download, None);
    assert(w15 == block_of(l15));
    let l16 = flag_lines("proofing"@, a.proofing);
    let w16 = flag_line("proofing"@, a.proofing);
    lemma_pieces_written("proofing"@, e0, None, e, a.proofing, None);
    assert(w16 == block_of(l16));
    let f = fence();
    let d1 = l1;
    let c1 = f + w1;
    assert(c1 == f + block_of(d1));
    lemma_block_add(d1, l2);
    let d2 = d1 + l2;
    let c2 = c1 + w2;
    vstd::seq_lib::lemma_concat_associative(f, block_of(d1), w2);
    assert(c2 == f + block_of(d2));
    lemma_block_add(d2, l3);
    let d3 = d2 + l3;
    let c3 = c2 + w3;
    vstd::seq_lib::lemma_concat_associative(f, block_of(d2), w3);
    assert(c3 == f + block_of(d3));
    lemma_block_add(d3, l4);
    let d4 = d3 + l4;
    let c4 = c3 + w4;
    vstd::seq_lib::lemma_concat_associative(f, block_of(d3), w4);
    assert(c4 == f + block_of(d4));
    lemma_block_add(d4, l5);
    let d5 = d4 + l5;
    let c5 = c4 + w5;
    vstd::seq_lib::lemma_concat_associative(f, block_of(d4), w5);
    assert(c5 == f + block_of(d5));
    lemma_block_add(d5, l6);
    let d6 = d5 + l6;
    let c6 = c5 + w6;
    vstd::seq_lib::lemma_concat_associative(f, block_of(d5), w6);
    assert(c6 == f + block_of(d6));
    lemma_block_add(d6, l7);
    let d7 = d6 + l7;
    let c7 = c6 + w7;
    vstd::seq_lib::lemma_concat_associative(f, block_of(d6), w7);
    assert(c7 == f + block_of(d7));
    lemma_block_add(d7, l8);
    let d8 = d7 + l8;
    let c8 = c7 + w8;
    vstd::seq_lib::lemma_concat_associative(f, block_of(d7), w8);
    assert(c8 == f + block_of(d8));
    lemma_block_add(d8, l9);
    let d9 = d8 + l9;
    let c9 = c8 + w9;
    vstd::seq_lib::lemma_concat_associative(f, block_of(d8), w9);
    assert(c9 == f + block_of(d9));
    lemma_block_add(d9, l10);
    let d10 = d9 + l10;
    let c10 = c9 + w10;
    vstd::seq_lib::lemma_concat_associative(f, block_of(d9), w10);
    assert(c10 == f + block_of(d10));
    lemma_block_add(d10, l11);
    let d11 = d10 + l11;
    let c11 = c10 + w11;
    vstd::seq_lib::lemma_concat_associative(f, block_of(d10), w11);
    assert(c11 == f + block_of(d11));
    lemma_block_add(d11, l12);
    let d12 = d11 + l12;
    let c12 = c11 + w12;
    vstd::seq_lib::lemma_concat_associative(f, block_of(d11), w12);
    assert(c12 == f + block_of(d12));
    lemma_block_add(d12, l13);
    let d13 = d12 + l13;
    let c13 = c12 + w13;
    vstd::seq_lib::lemma_concat_associative(f, block_of(d12), w13);
    assert(c13 == f + block_of(d13));
    lemma_block_add(d13, l14);
    let d14 = d13 + l14;
    let c14 = c13 + w14;
    vstd::seq_lib::lemma_concat_associative(f, block_of(d13), w14);
    assert(c14 == f + block_of(d14));
    lemma_block_add(d14, l15);
    let d15 = d14 + l15;
    let c15 = c14 + w15;
    vstd::seq_lib::lemma_concat_associative(f, block_of(d14), w15);
    assert(c15 == f + block_of(d15));
    lemma_block_add(d15, l16);
    let d16 = d15 + l16;
    let c16 = c15 + w16;
    vstd::seq_lib::lemma_concat_associative(f, block_of(d15), w16);
    assert(c16 == f + block_of(d16));
    assert(frontmatter(a, photos) == c16 + f);
    assert(doc_lines(a, photos) == d16);
}

// ------------------------------------------------------------ tidy lines

proof fn lemma_all_tidy_add(a: Seq<Seq<char>>, b: Seq<Seq<char>>)
    requires
        all_tidy(a),
        all_tidy(b),
    ensures
        all_tidy(a + b),
{
    assert forall|i: int| 0 <= i < (a + b).len() implies tidy(#[trigger] (a + b)[i]) by {
        if i < a.len() {
            assert((a + b)[i] == a[i]);
        } else {
            assert((a + b)[i] == b[i - a.len()]);
        }
    }
}

proof fn lemma_no_newline(l: Seq<char>)
    requires
        forall|j: int| 0 <= j < l.len() ==> #[trigger] l[j] != '\n',
    ensures
        !l.contains('\n'),
{
}

proof fn lemma_kv_tidy(k: Seq<char>, v: Seq<char>)
    requires
        plain_key(k),
    ensures
        all_tidy(seq![kv_line(k, v)]),
{
    lemma_kv_line_shape(k, v);
    lemma_key_letters(k);
    assert(kv_line(k, v)[0] == k[0]);
    assert(seq![kv_line(k, v)][0] == kv_line(k, v));
}

proof fn lemma_setting_tidy(k: Seq<char>, val: Seq<char>)
    requires
        plain_key(k),
        forall|j: int| 0 <= j < val.len() ==> #[trigger] val[j] != '\n',
    ensures
        all_tidy(seq![setting_line(k, val)]),
{
    let l = setting_line(k, val);
    lemma_key_letters(k);
    assert forall|j: int| 0 <= j < l.len() implies #[trigger] l[j] != '\n' by {
        if j < k.len() {
            assert(l[j] == k[j]);
        } else if j >= k.len() + 2 {
            assert(l[j] == val[j - k.len() - 2]);
        }
    }
    lemma_no_newline(l);
    assert(l[0] == k[0]);
    assert(seq![l][0] == l);
}

proof fn lemma_items_tidy(list: Seq<Seq<char>>)
    ensures
        all_tidy(item_lines(list)),
{
    assert forall|i: int| 0 <= i < item_lines(list).len() implies tidy(#[trigger] item_lines(list)[i]) by {
        let x = list[i];
        let l = item_line(x);
        assert(item_lines(list)[i] == l);
        lemma_quoted_has_no_control(x);
        let q = quoted(x);
        assert forall|j: int| 0 <= j < l.len() implies #[trigger] l[j] != '\n' by {
            if j >= 4 {
                assert(l[j] == q[j - 4]);
                assert(!is_control(q[j - 4]));
            }
        }
        lemma_no_newline(l);
    }
}

proof fn lemma_list_tidy(k: Seq<char>, list: Seq<Seq<char>>)
    requires
        plain_key(k),
    ensures
        all_tidy(list_lines(k, list)),
{
    if list.len() > 0 {
        lemma_key_letters(k);
        let l = key_line(k);
        assert forall|j: int| 0 <= j < l.len() implies #[trigger] l[j] != '\n' by {
            if j < k.len() {
                assert(l[j] == k[j]);
            }
        }
        lemma_no_newline(l);
        assert(l[0] == k[0]);
        assert(seq![l][0] == l);
        assert(all_tidy(seq![l]));
        lemma_items_tidy(list);
        lemma_all_tidy_add(seq![l], item_lines(list));
    }
}

proof fn lemma_opt_tidy(k: Seq<char>, o: Option<Seq<char>>)
    requires
        plain_key(k),
    ensures
        all_tidy(opt_lines(k, o)),
{
    if let Some(v) = o {
        lemma_kv_tidy(k, v);
    }
}

proof fn lemma_flag_tidy(k: Seq<char>, on: bool)
    requires
        plain_key(k),
    ensures
        all_tidy(flag_lines(k, on)),
{
    if on {
        reveal_strlit("true");
        lemma_setting_tidy(k, "true"@);
    }
}

proof fn lemma_order_tidy(o: Option<i64>)
    ensures
        all_tidy(order_lines(o)),
{
    if let Some(n) = o {
        reveal_strlit("order");
        lemma_int_text_shape(n);
        let t = int_text(n as int);
        assert forall|j: int| 0 <= j < t.len() implies #[trigger] t[j] != '\n' by {
            assert(is_digit(t[j]) || t[j] == '-');
        }
        lemma_setting_tidy("order"@, t);
    }
}

/// The keys the frontmatter writes are plain words.
proof fn lemma_plain_keys()
    ensures
        plain_key("title"@),
        plain_key("description"@),
        plain_key("date"@),
        plain_key("token"@),
        plain_key("password"@),
        plain_key("shareToken"@),
        plain_key("sort"@),
        plain_key("photoOrder"@),
        plain_key("style"@),
        plain_key("thumbnail"@),
        plain_key("tags"@),
        plain_key("isCollection"@),
        plain_key("hidden"@),
        plain_key("allowDownload"@),
        plain_key("proofing"@),
        plain_key("order"@),
{
    reveal_strlit("title");
    reveal_strlit("description");
    reveal_strlit("date");
    reveal_strlit("token");
    reveal_strlit("password");
    reveal_strlit("shareToken");
    reveal_strlit("sort");
    reveal_strlit("photoOrder");
    reveal_strlit("style");
    reveal_strlit("thumbnail");
    reveal_strlit("tags");
    reveal_strlit("isCollection");
    reveal_strlit("hidden");
    reveal_strlit("allowDownload");
    reveal_strlit("proofing");
    reveal_strlit("order");
}

proof fn lemma_doc_tidy(a: Album, photos: Seq<Seq<char>>)
    ensures
        all_tidy(doc_lines(a, photos)),
        doc_lines(a, photos).len() > 0,
{
    lemma_plain_keys();
    let e = Seq::<Seq<char>>::empty();
    assert(all_tidy(e));
    lemma_kv_tidy("title"@, a.title@);
    lemma_opt_tidy("description"@, opt_text(a.description));
    lemma_opt_tidy("date"@, opt_text(a.date));
    lemma_kv_tidy("token"@, a.token@);
    lemma_opt_tidy("password"@, opt_text(a.password));
    lemma_opt_tidy("shareToken"@, opt_text(a.share_token));
    lemma_kv_tidy("sort"@, a.sort@);
    lemma_list_tidy("photoOrder"@, published_names(photos));
    lemma_kv_tidy("style"@, a.style@);
    lemma_opt_tidy("thumbnail"@, thumbnail_of(a.cover_filename, photos));
    lemma_list_tidy("tags"@, list_view(a.tags@));
    lemma_flag_tidy("isCollection"@, a.is_collection);
    lemma_order_tidy(a.sort_order);
    lemma_flag_tidy("hidden"@, a.hidden);
    lemma_flag_tidy("allowDownload"@, a.allow_download);
    lemma_flag_tidy("proofing"@, a.proofing);
    let l1 = seq![kv_line("title"@, a.title@)];
    let l2 = opt_lines("description"@, opt_text(a.description));
    let l3 = opt_lines("date"@, opt_text(a.date));
    let l4 = seq![kv_line("token"@, a.token@)];
    let l5 = opt_lines("password"@, opt_text(a.password));
    let l6 = opt_lines("shareToken"@, opt_text(a.share_token));
    let l7 = seq![kv_line("sort"@, a.sort@)];
    let l8 = if a.sort@ == "custom"@ {
        list_lines("photoOrder"@, published_names(photos))
    } else {
        e
    };
    let l9 = seq![kv_line("style"@, a.style@)];
    let l10 = opt_lines("thumbnail"@, thumbnail_of(a.cover_filename, photos));
    let l11 = list_lines("tags"@, list_view(a.tags@));
    let l12 = flag_lines("isCollection"@, a.is_collection);
    let l13 = order_lines(a.sort_order);
    let l14 = flag_lines("hidden"@, a.hidden);
    let l15 = flag_lines("allowDownload"@, a.allow_download);
    let l16 = flag_lines("proofing"@, a.proofing);
    lemma_all_tidy_add(l1, l2);
    lemma_all_tidy_add(l1 + l2, l3);
    lemma_all_tidy_add(l1 + l2 + l3, l4);
    lemma_all_tidy_add(l1 + l2 + l3 + l4, l5);
    lemma_all_tidy_add(l1 + l2 + l3 + l4 + l5, l6);
    lemma_all_tidy_add(l1 + l2 + l3 + l4 + l5 + l6, l7);
    lemma_all_tidy_add(l1 + l2 + l3 + l4 + l5 + l6 + l7, l8);
    lemma_all_tidy_add(l1 + l2 + l3 + l4 + l5 + l6 + l7 + l8, l9);
    lemma_all_tidy_add(l1 + l2 + l3 + l4 + l5 + l6 + l7 + l8 + l9, l10);
    lemma_all_tidy_add(l1 + l2 + l3 + l4 + l5 + l6 + l7 + l8 + l9 + l10, l11);
    lemma_all_tidy_add(l1 + l2 + l3 + l4 + l5 + l6 + l7 + l8 + l9 + l10 + l11, l12);
    lemma_all_tidy_add(l1 + l2 + l3 + l4 + l5 + l6 + l7 + l8 + l9 + l10 + l11 + l12, l13);
    lemma_all_tidy_add(l1 + l2 + l3 + l4 + l5 + l6 + l7 + l8 + l9 + l10 + l11 + l12 + l13, l14);
    lemma_all_tidy_add(
        l1 + l2 + l3 + l4 + l5 + l6 + l7 + l8 + l9 + l10 + l11 + l12 + l13 + l14,
        l15,
    );
    lemma_all_tidy_add(
        l1 + l2 + l3 + l4 + l5 + l6 + l7 + l8 + l9 + l10 + l11 + l12 + l13 + l14 + l15,
        l16,
    );
    assert(doc_lines(a, photos) == l1 + l2 + l3 + l4 + l5 + l6 + l7 + l8 + l9 + l10 + l11 + l12
        + l13 + l14 + l15 + l16);
    assert(doc_lines(a, photos).len() >= l1.len());
}

// ----------------------------------------------------------------- reading

proof fn lemma_list_kinds()
    ensures
        list_for("tags"@) == ListKind::Tags,
        list_for("photoOrder"@) == ListKind::PhotoOrder,
{
    reveal_strlit("tags");
    reveal_strlit("photoOrder");
    assert("photoOrder"@ != "tags"@) by {
        assert("photoOrder"@.len() != "tags"@.len());
    }
}

/// Reading the lines gives back the settings they were written from.
proof fn lemma_doc_reads(a: Album, photos: Seq<Seq<char>>)
    ensures
        read_from(start(), doc_lines(a, photos)).0 == front_of(a, photos),
{
    lemma_plain_keys();
    lemma_list_kinds();
    let e = Seq::<Seq<char>>::empty();
    let names = published_names(photos);
    let tags = list_view(a.tags@);
    let l1 = seq![kv_line("title"@, a.title@)];
    let l2 = opt_lines("description"@, opt_text(a.description));
    let l3 = opt_lines("date"@, opt_text(a.date));
    let l4 = seq![kv_line("token"@, a.token@)];
    let l5 = opt_lines("password"@, opt_text(a.password));
    let l6 = opt_lines("shareToken"@, opt_text(a.share_token));
    let l7 = seq![kv_line("sort"@, a.sort@)];
    let custom = a.sort@ == "custom"@;
    let l8 = if custom {
        list_lines("photoOrder"@, names)
    } else {
        e
    };
    let l9 = seq![kv_line("style"@, a.style@)];
    let l10 = opt_lines("thumbnail"@, thumbnail_of(a.cover_filename, photos));
    let l11 = list_lines("tags"@, tags);
    let l12 = flag_lines("isCollection"@, a.is_collection);
    let l13 = order_lines(a.sort_order);
    let l14 = flag_lines("hidden"@, a.hidden);
    let l15 = flag_lines("allowDownload"@, a.allow_download);
    let l16 = flag_lines("proofing"@, a.proofing);
    let d1 = l1;
    let d2 = d1 + l2;
    let d3 = d2 + l3;
    let d4 = d3 + l4;
    let d5 = d4 + l5;
    let d6 = d5 + l6;
    let d7 = d6 + l7;
    let d8 = d7 + l8;
    let d9 = d8 + l9;
    let d10 = d9 + l10;
    let d11 = d10 + l11;
    let d12 = d11 + l12;
    let d13 = d12 + l13;
    let d14 = d13 + l14;
    let d15 = d14 + l15;
    let d16 = d15 + l16;
    assert(doc_lines(a, photos) == d16);

    let s0 = start();
    let s1 = read_from(s0, d1);
    lemma_kv_piece(s0, "title"@, a.title@);
    lemma_assign_keys(s0.0, a.title@);
    let s2 = read_from(s0, d2);
    lemma_read_add(s0, d1, l2);
    lemma_opt_piece(s1, "description"@, opt_text(a.description));
    if let Some(v) = opt_text(a.description) {
        lemma_assign_keys(s1.0, v);
    }
    let s3 = read_from(s0, d3);
    lemma_read_add(s0, d2, l3);
    lemma_opt_piece(s2, "date"@, opt_text(a.date));
    if let Some(v) = opt_text(a.date) {
        lemma_assign_keys(s2.0, v);
    }
    let s4 = read_from(s0, d4);
    lemma_read_add(s0, d3, l4);
    lemma_kv_piece(s3, "token"@, a.token@);
    lemma_assign_keys(s3.0, a.token@);
    let s5 = read_from(s0, d5);
    lemma_read_add(s0, d4, l5);
    lemma_opt_piece(s4, "password"@, opt_text(a.password));
    if let Some(v) = opt_text(a.password) {
        lemma_assign_keys(s4.0, v);
    }
    let s6 = read_from(s0, d6);
    lemma_read_add(s0, d5, l6);
    lemma_opt_piece(s5, "shareToken"@, opt_text(a.share_token));
    if let Some(v) = opt_text(a.share_token) {
        lemma_assign_keys(s5.0, v);
    }
    let s7 = read_from(s0, d7);
    lemma_read_add(s0, d6, l7);
    lemma_kv_piece(s6, "sort"@, a.sort@);
    lemma_assign_keys(s6.0, a.sort@);
    assert(s7.0 == (Front {
        title: Some(a.title@),
        description: opt_text(a.description),
        date: opt_text(a.date),
        token: Some(a.token@),
        password: opt_text(a.password),
        share_token: opt_text(a.share_token),
        sort: Some(a.sort@),
        ..empty_front()
    }));
    let s8 = read_from(s0, d8);
    lemma_read_add(s0, d7, l8);
    lemma_list_piece(s7, "photoOrder"@, names);
    if custom {
        assert(Seq::<Seq<char>>::empty() + names =~= names);
        if names.len() == 0 {
            assert(names =~= Seq::<Seq<char>>::empty());
        }
    } else {
        assert(read_from(s7, e) == s7);
    }
    assert(s8.0 == (Front { photo_order: front_of(a, photos).photo_order, ..s7.0 }));
    let s9 = read_from(s0, d9);
    lemma_read_add(s0, d8, l9);
    lemma_kv_piece(s8, "style"@, a.style@);
    lemma_assign_keys(s8.0, a.style@);
    let s10 = read_from(s0, d10);
    lemma_read_add(s0, d9, l10);
    lemma_opt_piece(s9, "thumbnail"@, thumbnail_of(a.cover_filename, photos));
    if let Some(v) = thumbnail_of(a.cover_filename, photos) {
        lemma_assign_keys(s9.0, v);
    }
    let s11 = read_from(s0, d11);
    lemma_read_add(s0, d10, l11);
    lemma_list_piece(s10, "tags"@, tags);
    assert(Seq::<Seq<char>>::empty() + tags =~= tags);
    if tags.len() == 0 {
        assert(tags =~= Seq::<Seq<char>>::empty());
    }
    assert(s11.0 == (Front {
        style: Some(a.style@),
        thumbnail: thumbnail_of(a.cover_filename, photos),
        tags: tags,
        ..s8.0
    }));
    let s12 = read_from(s0, d12);
    lemma_read_add(s0, d11, l12);
    lemma_flag_piece(s11, "isCollection"@, a.is_collection);
    lemma_assign_keys(s11.0, "true"@);
    let s13 = read_from(s0, d13);
    lemma_read_add(s0, d12, l13);
    lemma_order_piece(s12, a.sort_order);
    let s14 = read_from(s0, d14);
    lemma_read_add(s0, d13, l14);
    lemma_flag_piece(s13, "hidden"@, a.hidden);
    lemma_assign_keys(s13.0, "true"@);
    let s15 = read_from(s0, d15);
    lemma_read_add(s0, d14, l15);
    lemma_flag_piece(s14, "allowDownload"@, a.allow_download);
    lemma_assign_keys(s14.0, "true"@);
    let s16 = read_from(s0, d16);
    lemma_read_add(s0, d15, l16);
    lemma_flag_piece(s15, "proofing"@, a.proofing);
    lemma_assign_keys(s15.0, "true"@);
    assert(s16.0 == front_of(a, photos));
}

// --------------------------------------------------------------------- law

/// Reading back a published frontmatter gives the settings it was written
/// from, for every album and every list of published photos: the title,
/// token, sort and style byte for byte; the optional texts as written
/// (trimmed, and absent when blank); the custom photo order; the tags in
/// their order; the four flags; the position. A pull therefore adopts exactly
/// what the publishing machine holds, and a pull → publish → pull loop never
/// drifts.
pub proof fn lemma_frontmatter_reads_back(a: Album, photos: Seq<Seq<char>>)
    ensures
        parsed(frontmatter(a, photos)) == front_of(a, photos),
{
    lemma_doc_written(a, photos);
    lemma_doc_tidy(a, photos);
    lemma_block_reads(doc_lines(a, photos));
    lemma_doc_reads(a, photos);
}


/// A document of one `key: "value"` line, written by `yaml_kv`, reads back
/// as that key set to the value, for every value — control characters,
/// quotes and backslashes included — and every plain key.
pub proof fn lemma_one_setting_reads_back(k: Seq<char>, v: Seq<char>)
    requires
        plain_key(k),
    ensures
        parsed(seq!['-', '-', '-', '\n'] + kv(k, v) + seq!['-', '-', '-', '\n']) == assign(empty_front(), k, v),
{
    let ls = seq![kv_line(k, v)];
    lemma_kv_tidy(k, v);
    assert(block_of(ls) =~= kv(k, v)) by {
        assert(ls.drop_last() =~= Seq::<Seq<char>>::empty());
        assert(block_of(Seq::<Seq<char>>::empty()) == Seq::<char>::empty());
    }
    lemma_block_reads(ls);
    lemma_kv_piece(start(), k, v);
}

/// A title written through `yaml_kv` on its own reads back as exactly that
/// title, whatever characters it holds.
pub proof fn lemma_title_reads_back(v: Seq<char>)
    ensures
        parsed(seq!['-', '-', '-', '\n'] + kv("title"@, v) + seq!['-', '-', '-', '\n']).title == Some(v),
{
    reveal_strlit("title");
    let k = "title"@;
    assert(plain_key(k)) by {
        assert(k =~= seq!['t', 'i', 't', 'l', 'e']);
    }
    lemma_one_setting_reads_back(k, v);
}

} // verus!
