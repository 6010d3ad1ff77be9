//! The album frontmatter the Astro gallery reads, written and read back.
//!
//! Output layout, per album:
//!
//! ```text
//! <dest>/<album-path>/
//! ├── index.md      frontmatter generated from the album row
//! ├── body.md       optional prose
//! └── <photo>.jpg   exported photos
//! ```
//!
//! The frontmatter field set is the contract between this app and the web
//! gallery's content schema. Every scalar is written double-quoted with its
//! control characters escaped, and [`parse_frontmatter`] reads back exactly
//! what [`yaml_scalar`] wrote — see [`lemma_unquote_yaml_scalar`].

use vstd::prelude::*;

use crate::media::{heif, is_heif};
use crate::model::{last_segment, Album, Flag, PhotoKind};
use crate::order::{compare_text, is_order, lemma_text_order, text_order};
use crate::paths::{joined, push_path};
use crate::text::{
    join, join_with,
    begins, chars_of, extend, i64_text, int_text, last_index_of, lemma_rfind, rfind, rsplit_once, same, find_seq, index_of, index_of_seq, is, is_space, lemma_find,
    lemma_split_len, parse_i64, parse_i64_of, slice_of, split, split_on, split_once,
    starts_with, string_of, trim, trim_end, trim_start, trimmed, trimmed_end, trimmed_start,
    views,
};

verus! {

// ----------------------------------------------------------------- escape

/// The lowercase hex digit for `d` (0..16).
pub open spec fn hex_digit(d: nat) -> char {
    if d < 10 {
        ((d + 48) as u8) as char
    } else {
        ((d + 87) as u8) as char
    }
}

/// A character a double-quoted scalar may not hold raw: C0 controls and DEL.
pub open spec fn is_control(c: char) -> bool {
    (c as u32) < 0x20 || (c as u32) == 0x7f
}

/// How one character is written inside a double-quoted scalar.
pub open spec fn esc_char(c: char) -> Seq<char> {
    if c == '\\' {
        seq!['\\', '\\']
    } else if c == '"' {
        seq!['\\', '"']
    } else if c == '\n' {
        seq!['\\', 'n']
    } else if c == '\t' {
        seq!['\\', 't']
    } else if c == '\r' {
        seq!['\\', 'r']
    } else if is_control(c) {
        seq!['\\', 'x', hex_digit((c as u32 / 16) as nat), hex_digit((c as u32 % 16) as nat)]
    } else {
        seq![c]
    }
}

/// The escaped body of a double-quoted scalar.
pub open spec fn esc(s: Seq<char>) -> Seq<char>
    decreases s.len(),
{
    if s.len() == 0 {
        Seq::<char>::empty()
    } else {
        esc_char(s[0]) + esc(s.drop_first())
    }
}

/// A scalar as [`yaml_scalar`] writes it: always double-quoted.
pub open spec fn quoted(s: Seq<char>) -> Seq<char> {
    seq!['"'] + esc(s) + seq!['"']
}

proof fn lemma_esc_push(s: Seq<char>, c: char)
    ensures
        esc(s.push(c)) == esc(s) + esc_char(c),
    decreases s.len(),
{
    if s.len() == 0 {
        assert(s.push(c).drop_first() =~= Seq::<char>::empty());
        assert(s.push(c)[0] == c);
        assert(esc(Seq::<char>::empty()) =~= Seq::<char>::empty());
        assert(esc(s.push(c)) == esc_char(c) + esc(Seq::<char>::empty()));
        assert(esc(s.push(c)) =~= esc(s) + esc_char(c));
    } else {
        lemma_esc_push(s.drop_first(), c);
        assert(s.push(c).drop_first() =~= s.drop_first().push(c));
        assert(s.push(c)[0] == s[0]);
        assert(esc(s.push(c)) =~= esc(s) + esc_char(c));
    }
}

/// The hex digit `n` (0..16), lowercase.
pub(crate) fn hex_char(n: u32) -> (c: char)
    requires
        n < 16,
    ensures
        c == hex_digit(n as nat),
{
    if n < 10 {
        ((n as u8) + 48) as char
    } else {
        ((n as u8) + 87) as char
    }
}

/// Always double-quote and escape. Verbose, but immune to a title that happens
/// to be `yes`, `1.0`, `null`, or contains a colon.
///
/// Control characters are escaped rather than passed through or dropped: a
/// double-quoted YAML scalar may not hold one raw, and the gallery's YAML
/// reader stops at the first, failing the whole site build.
pub fn yaml_scalar(value: &str) -> (r: String)
    ensures
        r@ == quoted(value@),
{
    let v = chars_of(value);
    let out = scalar_of(&v);
    string_of(&out)
}

/// [`yaml_scalar`], on characters.
pub fn scalar_of(v: &[char]) -> (out: Vec<char>)
    ensures
        out@ == quoted(v@),
{
    let mut out: Vec<char> = Vec::new();
    out.push('"');
    let mut i: usize = 0;
    assert(v@.take(0) =~= Seq::<char>::empty());
    while i < v.len()
        invariant
            i <= v@.len(),
            out@ == seq!['"'] + esc(v@.take(i as int)),
        decreases v@.len() - i,
    {
        let c = v[i];
        let ghost before = out@;
        if c == '\\' {
            out.push('\\');
            out.push('\\');
        } else if c == '"' {
            out.push('\\');
            out.push('"');
        } else if c == '\n' {
            out.push('\\');
            out.push('n');
        } else if c == '\t' {
            out.push('\\');
            out.push('t');
        } else if c == '\r' {
            out.push('\\');
            out.push('r');
        } else if (c as u32) < 0x20 || (c as u32) == 0x7f {
            let u = c as u32;
            out.push('\\');
            out.push('x');
            out.push(hex_char(u / 16));
            out.push(hex_char(u % 16));
        } else {
            out.push(c);
        }
        proof {
            assert(out@ =~= before + esc_char(c));
            lemma_esc_push(v@.take(i as int), c);
            assert(v@.take(i as int).push(c) =~= v@.take(i + 1));
        }
        i = i + 1;
    }
    out.push('"');
    proof {
        assert(v@.take(v@.len() as int) =~= v@);
        assert(out@ =~= quoted(v@));
    }
    out
}

// ---------------------------------------------------------------- unquote

/// Whether `c` is a hex digit, either case — `char::to_digit(16)` is `Some`.
pub open spec fn is_hex(c: char) -> bool {
    ('0' <= c <= '9') || ('a' <= c <= 'f') || ('A' <= c <= 'F')
}

/// The value of a hex digit.
pub open spec fn hex_value(c: char) -> nat {
    if '0' <= c <= '9' {
        (c as u32 - 48) as nat
    } else if 'a' <= c <= 'f' {
        (c as u32 - 87) as nat
    } else {
        (c as u32 - 55) as nat
    }
}

/// Undo the backslash escapes of a double-quoted scalar, in one pass: `\n`,
/// `\t`, `\r`, `\xNN` (two hex digits, else the `x` is kept as text), any
/// other escaped character as itself, and a lone trailing backslash kept.
pub open spec fn unescape(s: Seq<char>) -> Seq<char>
    decreases s.len(),
{
    if s.len() == 0 {
        Seq::<char>::empty()
    } else if s[0] != '\\' {
        seq![s[0]] + unescape(s.drop_first())
    } else if s.len() == 1 {
        seq!['\\']
    } else if s[1] == 'n' {
        seq!['\n'] + unescape(s.skip(2))
    } else if s[1] == 't' {
        seq!['\t'] + unescape(s.skip(2))
    } else if s[1] == 'r' {
        seq!['\r'] + unescape(s.skip(2))
    } else if s[1] == 'x' {
        if s.len() >= 4 && is_hex(s[2]) && is_hex(s[3]) {
            seq![((hex_value(s[2]) * 16 + hex_value(s[3])) as u8) as char] + unescape(s.skip(4))
        } else {
            seq!['x'] + unescape(s.skip(2))
        }
    } else {
        seq![s[1]] + unescape(s.skip(2))
    }
}

/// `''` read as `'`, left to right — the one escape of a single-quoted scalar.
pub open spec fn unquote_single(s: Seq<char>) -> Seq<char>
    decreases s.len(),
{
    if s.len() == 0 {
        Seq::<char>::empty()
    } else if s.len() >= 2 && s[0] == '\'' && s[1] == '\'' {
        seq!['\''] + unquote_single(s.skip(2))
    } else {
        seq![s[0]] + unquote_single(s.drop_first())
    }
}

/// A scalar's text: trimmed, then unquoted if it is wrapped in single or
/// double quotes, and left as it is otherwise.
pub open spec fn unquote(v: Seq<char>) -> Seq<char> {
    let t = trim(v);
    if t.len() >= 2 && t[0] == '\'' && t.last() == '\'' {
        unquote_single(t.subrange(1, t.len() - 1))
    } else if t.len() >= 2 && t[0] == '"' && t.last() == '"' {
        unescape(t.subrange(1, t.len() - 1))
    } else {
        t
    }
}

/// The value of one hex digit.
fn hex_val(c: char) -> (n: u32)
    requires
        is_hex(c),
    ensures
        n == hex_value(c),
        n < 16,
{
    if '0' <= c && c <= '9' {
        c as u32 - 48
    } else if 'a' <= c && c <= 'f' {
        c as u32 - 87
    } else {
        c as u32 - 55
    }
}

fn hex(c: char) -> (r: bool)
    ensures
        r == is_hex(c),
{
    ('0' <= c && c <= '9') || ('a' <= c && c <= 'f') || ('A' <= c && c <= 'F')
}

/// [`unescape`], on characters.
fn unescaped(s: &[char]) -> (out: Vec<char>)
    ensures
        out@ == unescape(s@),
{
    let mut out: Vec<char> = Vec::new();
    let mut i: usize = 0;
    assert(s@.skip(0) =~= s@);
    while i < s.len()
        invariant
            i <= s@.len(),
            out@ + unescape(s@.skip(i as int)) == unescape(s@),
        decreases s@.len() - i,
    {
        let ghost rest = s@.skip(i as int);
        let ghost before = out@;
        let c = s[i];
        if c != '\\' {
            out.push(c);
            proof {
                assert(rest.drop_first() =~= s@.skip(i + 1));
                assert(out@ + unescape(s@.skip(i + 1)) =~= before + unescape(rest));
            }
            i = i + 1;
        } else if i + 1 == s.len() {
            out.push('\\');
            proof {
                assert(rest =~= seq!['\\']);
                assert(s@.skip(i + 1) =~= Seq::<char>::empty());
                assert(out@ + unescape(s@.skip(i + 1)) =~= before + unescape(rest));
            }
            i = i + 1;
        } else {
            let e = s[i + 1];
            proof {
                assert(rest.skip(2) =~= s@.skip(i + 2));
                assert(rest[1] == e);
            }
            if e == 'x' && s.len() - i > 3 && hex(s[i + 2]) && hex(s[i + 3]) {
                let v = hex_val(s[i + 2]) * 16 + hex_val(s[i + 3]);
                out.push((v as u8) as char);
                proof {
                    assert(rest.skip(4) =~= s@.skip(i + 4));
                    assert(rest[2] == s@[i + 2]);
                    assert(rest[3] == s@[i + 3]);
                    assert(out@ + unescape(s@.skip(i + 4)) =~= before + unescape(rest));
                }
                i = i + 4;
            } else {
                let ch = if e == 'n' {
                    '\n'
                } else if e == 't' {
                    '\t'
                } else if e == 'r' {
                    '\r'
                } else {
                    e
                };
                out.push(ch);
                proof {
                    if e == 'x' {
                        if rest.len() >= 4 {
                            assert(rest[2] == s@[i + 2]);
                            assert(rest[3] == s@[i + 3]);
                        }
                    }
                    assert(out@ + unescape(s@.skip(i + 2)) =~= before + unescape(rest));
                }
                i = i + 2;
            }
        }
    }
    proof {
        assert(s@.skip(i as int) =~= Seq::<char>::empty());
        assert(out@ + Seq::<char>::empty() =~= out@);
    }
    out
}

/// [`unquote_single`], on characters.
fn unquoted_single(s: &[char]) -> (out: Vec<char>)
    ensures
        out@ == unquote_single(s@),
{
    let mut out: Vec<char> = Vec::new();
    let mut i: usize = 0;
    assert(s@.skip(0) =~= s@);
    while i < s.len()
        invariant
            i <= s@.len(),
            out@ + unquote_single(s@.skip(i as int)) == unquote_single(s@),
        decreases s@.len() - i,
    {
        let ghost rest = s@.skip(i as int);
        let ghost before = out@;
        if i + 1 < s.len() && s[i] == '\'' && s[i + 1] == '\'' {
            out.push('\'');
            proof {
                assert(rest.skip(2) =~= s@.skip(i + 2));
                assert(out@ + unquote_single(s@.skip(i + 2)) =~= before + unquote_single(rest));
            }
            i = i + 2;
        } else {
            out.push(s[i]);
            proof {
                assert(rest.drop_first() =~= s@.skip(i + 1));
                assert(out@ + unquote_single(s@.skip(i + 1)) =~= before + unquote_single(rest));
            }
            i = i + 1;
        }
    }
    proof {
        assert(s@.skip(i as int) =~= Seq::<char>::empty());
        assert(out@ + Seq::<char>::empty() =~= out@);
    }
    out
}

/// Strip surrounding quotes and undo their escaping.
///
/// Two quoting styles arrive here, from two different writers: this module's
/// own [`yaml_scalar`] double-quotes with backslash escapes; the web admin's
/// YAML writer prefers single-quoted scalars, whose one escape is the doubled
/// apostrophe. Anything unquoted is taken as it stands, trimmed.
pub fn unquote_of(value: &[char]) -> (out: Vec<char>)
    ensures
        out@ == unquote(value@),
{
    let t = trimmed(value);
    let n = t.len();
    if n >= 2 && t[0] == '\'' && t[n - 1] == '\'' {
        let inner = slice_of(&t, 1, n - 1);
        unquoted_single(&inner)
    } else if n >= 2 && t[0] == '"' && t[n - 1] == '"' {
        let inner = slice_of(&t, 1, n - 1);
        unescaped(&inner)
    } else {
        t
    }
}


// ------------------------------------------------------------------ parse

/// What [`parse_frontmatter`] read, as plain values.
pub struct Front {
    pub title: Option<Seq<char>>,
    pub description: Option<Seq<char>>,
    pub date: Option<Seq<char>>,
    pub token: Option<Seq<char>>,
    pub password: Option<Seq<char>>,
    pub share_token: Option<Seq<char>>,
    pub sort: Option<Seq<char>>,
    pub style: Option<Seq<char>>,
    pub thumbnail: Option<Seq<char>>,
    pub photo_order: Seq<Seq<char>>,
    pub tags: Seq<Seq<char>>,
    pub is_collection: bool,
    pub hidden: bool,
    pub allow_download: bool,
    pub proofing: bool,
    pub order: Option<i64>,
}

/// A frontmatter block an `index.md` holds, as this module reads it: a
/// minimal YAML subset — `key: value` scalars (plain, single- or
/// double-quoted), booleans and integers, and `- item` lists — rather than a
/// full YAML reader, for a format written on both ends by known tools.
///
/// `None` and `false` mean "the key was not there", which is not the same as
/// "the album does not have it": a key the parser does not recognise is
/// dropped.
#[derive(Debug, Clone, Default, PartialEq)]
pub struct ParsedFrontmatter {
    pub title: Option<String>,
    pub description: Option<String>,
    pub date: Option<String>,
    /// The gallery's internal album id; must survive a round trip unchanged.
    pub token: Option<String>,
    /// Plain text, as the site stores it.
    pub password: Option<String>,
    /// The share-link secret.
    pub share_token: Option<String>,
    pub sort: Option<String>,
    pub style: Option<String>,
    /// The cover photo's filename.
    pub thumbnail: Option<String>,
    /// Filenames in published order, meaningful only when `sort` is `custom`.
    pub photo_order: Vec<String>,
    pub tags: Vec<String>,
    /// The four flags are written only when true, so an absent key is a
    /// genuine `false`.
    pub is_collection: bool,
    pub hidden: bool,
    pub allow_download: bool,
    pub proofing: bool,
    /// The album's rank among its siblings.
    pub order: Option<i64>,
}

/// The characters of an optional string.
pub open spec fn opt_view(o: Option<String>) -> Option<Seq<char>> {
    match o {
        Some(s) => Some(s@),
        None => None,
    }
}

/// The characters of each string in a list.
pub open spec fn list_view(v: Seq<String>) -> Seq<Seq<char>> {
    v.map_values(|s: String| s@)
}

impl View for ParsedFrontmatter {
    type V = Front;

    open spec fn view(&self) -> Front {
        Front {
            title: opt_view(self.title),
            description: opt_view(self.description),
            date: opt_view(self.date),
            token: opt_view(self.token),
            password: opt_view(self.password),
            share_token: opt_view(self.share_token),
            sort: opt_view(self.sort),
            style: opt_view(self.style),
            thumbnail: opt_view(self.thumbnail),
            photo_order: list_view(self.photo_order@),
            tags: list_view(self.tags@),
            is_collection: self.is_collection,
            hidden: self.hidden,
            allow_download: self.allow_download,
            proofing: self.proofing,
            order: self.order,
        }
    }
}

/// Nothing read.
pub open spec fn empty_front() -> Front {
    Front {
        title: None,
        description: None,
        date: None,
        token: None,
        password: None,
        share_token: None,
        sort: None,
        style: None,
        thumbnail: None,
        photo_order: Seq::<Seq<char>>::empty(),
        tags: Seq::<Seq<char>>::empty(),
        is_collection: false,
        hidden: false,
        allow_download: false,
        proofing: false,
        order: None,
    }
}

/// Which list `- item` lines are appended to.
#[derive(Clone, Copy, PartialEq, Eq, Structural)]
pub enum ListKind {
    Neither,
    Tags,
    PhotoOrder,
}

/// The list a key with no inline value opens.
pub open spec fn list_for(key: Seq<char>) -> ListKind {
    if key == "tags"@ {
        ListKind::Tags
    } else if key == "photoOrder"@ {
        ListKind::PhotoOrder
    } else {
        ListKind::Neither
    }
}

/// One `key: value` line applied: known keys set their field (the four flags
/// are true only for the text `true`, `order` only for an integer), unknown
/// keys change nothing.
pub open spec fn assign(f: Front, key: Seq<char>, text: Seq<char>) -> Front {
    if key == "title"@ {
        Front { title: Some(text), ..f }
    } else if key == "description"@ {
        Front { description: Some(text), ..f }
    } else if key == "date"@ {
        Front { date: Some(text), ..f }
    } else if key == "token"@ {
        Front { token: Some(text), ..f }
    } else if key == "password"@ {
        Front { password: Some(text), ..f }
    } else if key == "shareToken"@ {
        Front { share_token: Some(text), ..f }
    } else if key == "sort"@ {
        Front { sort: Some(text), ..f }
    } else if key == "style"@ {
        Front { style: Some(text), ..f }
    } else if key == "thumbnail"@ {
        Front { thumbnail: Some(text), ..f }
    } else if key == "isCollection"@ {
        Front { is_collection: text == "true"@, ..f }
    } else if key == "hidden"@ {
        Front { hidden: text == "true"@, ..f }
    } else if key == "allowDownload"@ {
        Front { allow_download: text == "true"@, ..f }
    } else if key == "proofing"@ {
        Front { proofing: text == "true"@, ..f }
    } else if key == "order"@ {
        Front { order: parse_i64(text), ..f }
    } else {
        f
    }
}

/// One line read: blank lines are skipped; `- item` appends to the open list;
/// `key:` with nothing after it opens a list; `key: value` sets a field and
/// closes any list; a line with no colon is ignored.
pub open spec fn read_line(st: (Front, ListKind), raw: Seq<char>) -> (Front, ListKind) {
    let line = trim_end(raw);
    let f = st.0;
    if trim(line).len() == 0 {
        st
    } else if starts_with(trim_start(line), seq!['-', ' ']) {
        let item = unquote(trim(trim_start(line).skip(2)));
        (
            match st.1 {
                ListKind::Tags => Front { tags: f.tags.push(item), ..f },
                ListKind::PhotoOrder => Front { photo_order: f.photo_order.push(item), ..f },
                ListKind::Neither => f,
            },
            st.1,
        )
    } else {
        match split_once(line, ':') {
            None => st,
            Some((k, v)) => {
                let key = trim(k);
                let value = trim(v);
                if value.len() == 0 {
                    (f, list_for(key))
                } else {
                    (assign(f, key, unquote(value)), ListKind::Neither)
                }
            },
        }
    }
}

/// The lines read in order.
pub open spec fn read_lines(lines: Seq<Seq<char>>) -> (Front, ListKind)
    decreases lines.len(),
{
    if lines.len() == 0 {
        (empty_front(), ListKind::Neither)
    } else {
        read_line(read_lines(lines.drop_last()), lines.last())
    }
}

/// `str::lines`, up to trailing whitespace (which every line is trimmed of
/// before it is read): the pieces between newlines, without the empty piece a
/// final newline leaves.
pub open spec fn lines(s: Seq<char>) -> Seq<Seq<char>> {
    let p = split(s, '\n');
    if p.last().len() == 0 {
        p.drop_last()
    } else {
        p
    }
}

/// The text between the opening `---` and the next line starting `---` (or
/// the end), when the content opens with `---` at all.
pub open spec fn front_block(content: Seq<char>) -> Option<Seq<char>> {
    if starts_with(content, seq!['-', '-', '-']) {
        let rest = content.skip(3);
        match find_seq(rest, seq!['\n', '-', '-', '-']) {
            Some(i) => Some(rest.take(i)),
            None => Some(rest),
        }
    } else {
        None
    }
}

/// What the frontmatter of `content` says.
pub open spec fn parsed(content: Seq<char>) -> Front {
    match front_block(content) {
        None => empty_front(),
        Some(b) => read_lines(lines(b)).0,
    }
}

fn empty_parsed() -> (r: ParsedFrontmatter)
    ensures
        r@ == empty_front(),
{
    let r = ParsedFrontmatter {
        title: None,
        description: None,
        date: None,
        token: None,
        password: None,
        share_token: None,
        sort: None,
        style: None,
        thumbnail: None,
        photo_order: Vec::new(),
        tags: Vec::new(),
        is_collection: false,
        hidden: false,
        allow_download: false,
        proofing: false,
        order: None,
    };
    assert(list_view(r.tags@) =~= Seq::<Seq<char>>::empty());
    assert(list_view(r.photo_order@) =~= Seq::<Seq<char>>::empty());
    r
}

fn list_kind_of(key: &[char]) -> (r: ListKind)
    ensures
        r == list_for(key@),
{
    if is(key, "tags") {
        ListKind::Tags
    } else if is(key, "photoOrder") {
        ListKind::PhotoOrder
    } else {
        ListKind::Neither
    }
}

fn assign_into(out: &mut ParsedFrontmatter, key: &[char], text: Vec<char>)
    ensures
        final(out)@ == assign(old(out)@, key@, text@),
{
    let ghost f = out@;
    if is(key, "title") {
        out.title = Some(string_of(&text));
    } else if is(key, "description") {
        out.description = Some(string_of(&text));
    } else if is(key, "date") {
        out.date = Some(string_of(&text));
    } else if is(key, "token") {
        out.token = Some(string_of(&text));
    } else if is(key, "password") {
        out.password = Some(string_of(&text));
    } else if is(key, "shareToken") {
        out.share_token = Some(string_of(&text));
    } else if is(key, "sort") {
        out.sort = Some(string_of(&text));
    } else if is(key, "style") {
        out.style = Some(string_of(&text));
    } else if is(key, "thumbnail") {
        out.thumbnail = Some(string_of(&text));
    } else if is(key, "isCollection") {
        out.is_collection = is(&text, "true");
    } else if is(key, "hidden") {
        out.hidden = is(&text, "true");
    } else if is(key, "allowDownload") {
        out.allow_download = is(&text, "true");
    } else if is(key, "proofing") {
        out.proofing = is(&text, "true");
    } else if is(key, "order") {
        out.order = parse_i64_of(&text);
    }
}

/// One line of the block, applied to what has been read so far.
fn read_one(out: &mut ParsedFrontmatter, list: &mut ListKind, raw: &[char])
    ensures
        (final(out)@, *final(list)) == read_line((old(out)@, *old(list)), raw@),
{
    let line = trimmed_end(raw);
    let t = trimmed(&line);
    if t.len() == 0 {
        return;
    }
    let ts = trimmed_start(&line);
    let mut dash: Vec<char> = Vec::new();
    dash.push('-');
    dash.push(' ');
    assert(dash@ =~= seq!['-', ' ']);
    if begins(&ts, &dash) {
        let rest = slice_of(&ts, 2, ts.len());
        assert(rest@ =~= ts@.skip(2));
        let item_t = trimmed(&rest);
        let item = unquote_of(&item_t);
        let s = string_of(&item);
        let ghost before = out@;
        match *list {
            ListKind::Tags => {
                out.tags.push(s);
                assert(list_view(out.tags@) =~= before.tags.push(item@));
            },
            ListKind::PhotoOrder => {
                out.photo_order.push(s);
                assert(list_view(out.photo_order@) =~= before.photo_order.push(item@));
            },
            ListKind::Neither => {},
        }
        return;
    }
    let ll = line.len();
    match index_of(&line, ':') {
        None => {},
        Some(i) => {
            proof {
                lemma_find(line@, ':');
            }
            let k = slice_of(&line, 0, i);
            let v = slice_of(&line, i + 1, ll);
            assert(k@ =~= line@.take(i as int));
            assert(v@ =~= line@.skip(i + 1));
            let key = trimmed(&k);
            let value = trimmed(&v);
            if value.len() == 0 {
                *list = list_kind_of(&key);
            } else {
                let text = unquote_of(&value);
                assign_into(out, &key, text);
                *list = ListKind::Neither;
            }
        },
    }
}

/// Parse the frontmatter block of an `index.md`.
///
/// Everything in it is untrusted input — a document a server wrote, possibly
/// by another machine or another tool.
pub fn parse_frontmatter(content: &str) -> (r: ParsedFrontmatter)
    ensures
        r@ == parsed(content@),
{
    let mut out = empty_parsed();
    let c = chars_of(content);
    let mut fence: Vec<char> = Vec::new();
    fence.push('-');
    fence.push('-');
    fence.push('-');
    assert(fence@ =~= seq!['-', '-', '-']);
    if !begins(&c, &fence) {
        return out;
    }
    let cl = c.len();
    let rest = slice_of(&c, 3, cl);
    assert(rest@ =~= c@.skip(3));
    let mut close: Vec<char> = Vec::new();
    close.push('\n');
    close.push('-');
    close.push('-');
    close.push('-');
    assert(close@ =~= seq!['\n', '-', '-', '-']);
    let rl = rest.len();
    let block = match index_of_seq(&rest, &close) {
        Some(i) => {
            proof {
                crate::text::lemma_find_seq(rest@, close@);
            }
            let b = slice_of(&rest, 0, i);
            assert(b@ =~= rest@.take(i as int));
            b
        },
        None => rest,
    };
    let pieces = split_on(&block, '\n');
    proof {
        lemma_split_len(block@, '\n');
    }
    let pl = pieces.len();
    let count: usize = if pieces[pl - 1].len() == 0 {
        pl - 1
    } else {
        pl
    };
    let ghost ls = lines(block@);
    proof {
        assert(views(pieces@).last() == pieces@[pl - 1]@);
        if pieces@[pl - 1]@.len() == 0 {
            assert(ls =~= views(pieces@).take(count as int));
        } else {
            assert(ls =~= views(pieces@).take(count as int));
        }
    }
    let mut list = ListKind::Neither;
    let mut i: usize = 0;
    assert(ls.take(0) =~= Seq::<Seq<char>>::empty());
    while i < count
        invariant
            i <= count <= pieces@.len(),
            ls == views(pieces@).take(count as int),
            (out@, list) == read_lines(ls.take(i as int)),
        decreases count - i,
    {
        proof {
            assert(ls.take(i + 1).drop_last() =~= ls.take(i as int));
            assert(ls.take(i + 1).last() == pieces@[i as int]@);
        }
        read_one(&mut out, &mut list, &pieces[i]);
        i = i + 1;
    }
    proof {
        assert(ls.take(count as int) =~= ls);
    }
    out
}

// ------------------------------------------------------------------- laws

proof fn lemma_hex_digit(d: nat)
    requires
        d < 16,
    ensures
        is_hex(hex_digit(d)),
        hex_value(hex_digit(d)) == d,
{
    if d < 10 {
        assert(((d + 48) as u8) as int == d + 48);
    } else {
        assert(((d + 87) as u8) as int == d + 87);
    }
}

proof fn lemma_unescape_esc_char(c: char, rest: Seq<char>)
    ensures
        unescape(esc_char(c) + rest) == seq![c] + unescape(rest),
{
    let s = esc_char(c) + rest;
    if c == '\\' || c == '"' || c == '\n' || c == '\t' || c == '\r' {
        assert(s.skip(2) =~= rest);
    } else if is_control(c) {
        let u = c as u32;
        lemma_hex_digit((u / 16) as nat);
        lemma_hex_digit((u % 16) as nat);
        assert(s.skip(4) =~= rest);
        assert(s[2] == hex_digit((u / 16) as nat));
        assert(s[3] == hex_digit((u % 16) as nat));
        assert((u / 16) * 16 + u % 16 == u);
        assert(((u as nat) as u8) as char == c);
    } else {
        assert(s.drop_first() =~= rest);
    }
}

/// Escaping is undone exactly: whatever [`esc`] wrote, [`unescape`] reads
/// back as the original text.
pub proof fn lemma_unescape_esc(v: Seq<char>)
    ensures
        unescape(esc(v)) == v,
    decreases v.len(),
{
    if v.len() > 0 {
        lemma_unescape_esc(v.drop_first());
        lemma_unescape_esc_char(v[0], esc(v.drop_first()));
        assert(seq![v[0]] + v.drop_first() =~= v);
    }
}

/// Every value [`yaml_scalar`] writes, [`unquote`] reads back unchanged —
/// control characters, backslashes and quotes included, so a pull → publish →
/// pull loop never rewrites the photographer's text.
pub proof fn lemma_unquote_yaml_scalar(v: Seq<char>)
    ensures
        unquote(quoted(v)) == v,
{
    let q = quoted(v);
    assert(q[0] == '"');
    assert(q.last() == '"');
    assert(!is_space('"'));
    assert(q.drop_first()[q.len() - 2] == q.last());
    lemma_trim_keeps(q);
    assert(q.subrange(1, q.len() - 1) =~= esc(v));
    lemma_unescape_esc(v);
}

/// A key the frontmatter writes: ASCII letters only, so its line is never
/// read as a list item, a fence or blank space.
pub open spec fn plain_key(k: Seq<char>) -> bool {
    k.len() > 0 && forall|i: int| 0 <= i < k.len() ==> ('a' <= #[trigger] k[i] <= 'z' || 'A' <= k[i] <= 'Z')
}

/// A piece of text with no `c` in it splits into itself alone.
pub(crate) proof fn lemma_split_whole(s: Seq<char>, c: char)
    requires
        !s.contains(c),
    ensures
        split(s, c) == seq![s],
    decreases s.len(),
{
    if s.len() > 0 {
        assert(!s.drop_last().contains(c)) by {
            if s.drop_last().contains(c) {
                let k = choose|k: int| 0 <= k < s.drop_last().len() && s.drop_last()[k] == c;
                assert(s[k] == c);
            }
        }
        lemma_split_whole(s.drop_last(), c);
        assert(s.last() != c) by {
            assert(s[s.len() - 1] == s.last());
        }
        assert(s.drop_last().push(s.last()) =~= s);
        assert(seq![s.drop_last()].update(0, s.drop_last().push(s.last())) =~= seq![s]);
    } else {
        assert(s =~= Seq::<char>::empty());
    }
}

/// The line a key and value are written as, without its newline.
pub open spec fn kv_line(k: Seq<char>, v: Seq<char>) -> Seq<char> {
    k + seq![':', ' '] + quoted(v)
}

pub(crate) proof fn lemma_kv_line_shape(k: Seq<char>, v: Seq<char>)
    requires
        plain_key(k),
    ensures
        !kv_line(k, v).contains('\n'),
        kv_line(k, v)[0] == k[0],
        !is_space(kv_line(k, v)[0]),
        kv_line(k, v)[0] != '-',
        quoted(v)[0] == '"',
        quoted(v).last() == '"',
        kv_line(k, v).last() == '"',
{
    let q = quoted(v);
    let line = kv_line(k, v);
    lemma_quoted_has_no_control(v);
    assert forall|j: int| 0 <= j < line.len() implies line[j] != '\n' by {
        if j < k.len() {
            assert(line[j] == k[j]);
            assert('a' <= k[j] <= 'z' || 'A' <= k[j] <= 'Z');
        } else if j >= k.len() + 2 {
            assert(line[j] == q[j - k.len() - 2]);
            assert(!is_control(q[j - k.len() - 2]));
        }
    }
    assert(!line.contains('\n')) by {
        if line.contains('\n') {
            let j = choose|j: int| 0 <= j < line.len() && line[j] == '\n';
        }
    }
    assert('a' <= k[0] <= 'z' || 'A' <= k[0] <= 'Z');
    assert(line.last() == q.last());
}

/// Trimming a sequence that starts and ends with non-space changes nothing.
pub proof fn lemma_trim_keeps(s: Seq<char>)
    requires
        s.len() > 0,
        !is_space(s[0]),
        !is_space(s.last()),
    ensures
        trim(s) == s,
{
}

/// A written scalar holds no raw control character.
pub proof fn lemma_quoted_has_no_control(v: Seq<char>)
    ensures
        forall|k: int| 0 <= k < quoted(v).len() ==> !is_control(#[trigger] quoted(v)[k]),
{
    lemma_esc_has_no_control(v);
    let q = quoted(v);
    assert forall|k: int| 0 <= k < q.len() implies !is_control(#[trigger] q[k]) by {
        if 1 <= k < q.len() - 1 {
            assert(q[k] == esc(v)[k - 1]);
        }
    }
}

proof fn lemma_esc_has_no_control(v: Seq<char>)
    ensures
        forall|k: int| 0 <= k < esc(v).len() ==> !is_control(#[trigger] esc(v)[k]),
    decreases v.len(),
{
    if v.len() > 0 {
        lemma_esc_has_no_control(v.drop_first());
        let c = v[0];
        let e = esc_char(c);
        if is_control(c) && !(c == '\\' || c == '"' || c == '\n' || c == '\t' || c == '\r') {
            let u = c as u32;
            lemma_hex_digit((u / 16) as nat);
            lemma_hex_digit((u % 16) as nat);
        }
        assert forall|k: int| 0 <= k < esc(v).len() implies !is_control(#[trigger] esc(v)[k]) by {
            if k >= e.len() {
                assert(esc(v)[k] == esc(v.drop_first())[k - e.len()]);
            } else {
                assert(esc(v)[k] == e[k]);
            }
        }
    }
}


// ------------------------------------------------------------------ render

/// Every frontmatter key this app emits. Mirrors the gallery's content schema.
pub const FRONTMATTER_FIELDS: [&'static str; 16] = [
    "title",
    "description",
    "date",
    "token",
    "password",
    "shareToken",
    "sort",
    "photoOrder",
    "style",
    "thumbnail",
    "tags",
    "isCollection",
    "order",
    "hidden",
    "allowDownload",
    "proofing",
];

/// The name a photograph takes in the published tree: its own, except that a
/// HEIF frame ships as JPEG and so changes extension (`x.heic` → `x.jpg`).
pub open spec fn published_name(filename: Seq<char>) -> Seq<char> {
    if heif(filename) {
        match rsplit_once(filename, '.') {
            Some((stem, _)) => stem + seq!['.', 'j', 'p', 'g'],
            None => filename + seq!['.', 'j', 'p', 'g'],
        }
    } else {
        filename
    }
}

/// The name a photograph takes in the published tree.
///
/// Almost always its own, but a HEIF frame is published as JPEG: most browsers
/// cannot display HEIC, and an edited frame is rendered as JPEG anyway.
/// Converting either way keeps the name stable across a develop, which matters
/// because the published filename is the URL.
pub fn published_filename(filename: &str) -> (r: String)
    ensures
        r@ == published_name(filename@),
{
    let v = chars_of(filename);
    if !is_heif(&v) {
        return string_of(&v);
    }
    let mut out: Vec<char> = match last_index_of(&v, '.') {
        Some(i) => {
            proof {
                lemma_rfind(v@, '.');
            }
            slice_of(&v, 0, i)
        },
        None => v.clone(),
    };
    proof {
        assert(v@.subrange(0, v@.len() as int) =~= v@);
    }
    out.push('.');
    out.push('j');
    out.push('p');
    out.push('g');
    proof {
        match rfind(v@, '.') {
            Some(i) => {
                assert(v@.subrange(0, i) =~= v@.take(i));
            },
            None => {},
        }
    }
    string_of(&out)
}

/// One `key: "value"` line.
pub open spec fn kv(key: Seq<char>, value: Seq<char>) -> Seq<char> {
    key + seq![':', ' '] + quoted(value) + seq!['\n']
}

/// An optional field as it is written: trimmed, and absent when blank.
pub open spec fn opt_text(o: Option<String>) -> Option<Seq<char>> {
    match o {
        Some(s) => if trim(s@).len() > 0 {
            Some(trim(s@))
        } else {
            None
        },
        None => None,
    }
}

/// A line for an optional field, or nothing.
pub open spec fn opt_kv(key: Seq<char>, o: Option<Seq<char>>) -> Seq<char> {
    match o {
        Some(v) => kv(key, v),
        None => Seq::<char>::empty(),
    }
}

/// `  - "item"` lines, in order.
pub open spec fn items(list: Seq<Seq<char>>) -> Seq<char>
    decreases list.len(),
{
    if list.len() == 0 {
        Seq::<char>::empty()
    } else {
        items(list.drop_last()) + seq![' ', ' ', '-', ' '] + quoted(list.last()) + seq!['\n']
    }
}

/// A `key:` line and its items, or nothing for an empty list.
pub open spec fn list_block(key: Seq<char>, list: Seq<Seq<char>>) -> Seq<char> {
    if list.len() == 0 {
        Seq::<char>::empty()
    } else {
        key + seq![':', '\n'] + items(list)
    }
}

/// `key: true`, written only when the flag is set.
pub open spec fn flag_line(key: Seq<char>, on: bool) -> Seq<char> {
    if on {
        key + seq![':', ' ', 't', 'r', 'u', 'e', '\n']
    } else {
        Seq::<char>::empty()
    }
}

/// The `order:` line, when the album has a manual position.
pub open spec fn order_line(o: Option<i64>) -> Seq<char> {
    match o {
        Some(n) => seq!['o', 'r', 'd', 'e', 'r', ':', ' '] + int_text(n as int) + seq!['\n'],
        None => Seq::<char>::empty(),
    }
}

/// The published name of the first photo the cover names, by its own name or
/// by its published one.
pub open spec fn first_cover(photos: Seq<Seq<char>>, cover: Seq<char>) -> Option<Seq<char>>
    decreases photos.len(),
{
    if photos.len() == 0 {
        None
    } else if photos[0] == cover || published_name(photos[0]) == cover {
        Some(published_name(photos[0]))
    } else {
        first_cover(photos.drop_first(), cover)
    }
}

/// The `thumbnail:` value: the cover, when a photo being published is it.
pub open spec fn thumbnail_of(cover: Option<String>, photos: Seq<Seq<char>>) -> Option<Seq<char>> {
    match cover {
        Some(c) => first_cover(photos, c@),
        None => None,
    }
}

/// The published names of the photos, in album order.
pub open spec fn published_names(photos: Seq<Seq<char>>) -> Seq<Seq<char>> {
    photos.map_values(|f: Seq<char>| published_name(f))
}

/// `---`, the fence around the frontmatter.
pub open spec fn fence() -> Seq<char> {
    seq!['-', '-', '-', '\n']
}

/// The whole `index.md` for an album whose published photos, in album order,
/// have the filenames `photos`.
pub open spec fn frontmatter(a: Album, photos: Seq<Seq<char>>) -> Seq<char> {
    fence()
        + kv("title"@, a.title@)
        + opt_kv("description"@, opt_text(a.description))
        + opt_kv("date"@, opt_text(a.date))
        + kv("token"@, a.token@)
        + opt_kv("password"@, opt_text(a.password))
        + opt_kv("shareToken"@, opt_text(a.share_token))
        + kv("sort"@, a.sort@)
        + (if a.sort@ == "custom"@ {
        list_block("photoOrder"@, published_names(photos))
    } else {
        Seq::<char>::empty()
    })
        + kv("style"@, a.style@)
        + opt_kv("thumbnail"@, thumbnail_of(a.cover_filename, photos))
        + list_block("tags"@, list_view(a.tags@))
        + flag_line("isCollection"@, a.is_collection)
        + order_line(a.sort_order)
        + flag_line("hidden"@, a.hidden)
        + flag_line("allowDownload"@, a.allow_download)
        + flag_line("proofing"@, a.proofing)
        + fence()
}

fn push_kv(out: &mut Vec<char>, key: &str, value: &[char])
    ensures
        final(out)@ == old(out)@ + kv(key@, value@),
{
    let k = chars_of(key);
    extend(out, &k);
    out.push(':');
    out.push(' ');
    let q = scalar_of(value);
    extend(out, &q);
    out.push('\n');
    proof {
        assert(final(out)@ =~= old(out)@ + kv(key@, value@));
    }
}

/// One `key: "value"` line, the value always double-quoted and escaped.
pub fn yaml_kv(key: &str, value: &str) -> (r: String)
    ensures
        r@ == kv(key@, value@),
{
    let mut out: Vec<char> = Vec::new();
    push_kv(&mut out, key, &chars_of(value));
    assert(out@ =~= kv(key@, value@));
    string_of(&out)
}

fn push_opt_kv(out: &mut Vec<char>, key: &str, value: &Option<String>)
    ensures
        final(out)@ == old(out)@ + opt_kv(key@, opt_text(*value)),
{
    match value {
        Some(s) => {
            let v = chars_of(s.as_str());
            let t = trimmed(&v);
            if t.len() > 0 {
                push_kv(out, key, &t);
            } else {
                assert(old(out)@ + Seq::<char>::empty() =~= old(out)@);
            }
        },
        None => {
            assert(old(out)@ + Seq::<char>::empty() =~= old(out)@);
        },
    }
}

fn push_items(out: &mut Vec<char>, list: &Vec<Vec<char>>)
    ensures
        final(out)@ == old(out)@ + items(views(list@)),
{
    let ghost o0 = out@;
    let mut i: usize = 0;
    assert(views(list@).take(0) =~= Seq::<Seq<char>>::empty());
    assert(o0 + Seq::<char>::empty() =~= o0);
    while i < list.len()
        invariant
            i <= list@.len(),
            out@ == o0 + items(views(list@).take(i as int)),
        decreases list@.len() - i,
    {
        let ghost before = out@;
        out.push(' ');
        out.push(' ');
        out.push('-');
        out.push(' ');
        let q = scalar_of(&list[i]);
        extend(out, &q);
        out.push('\n');
        proof {
            let t = views(list@).take(i + 1);
            assert(t.drop_last() =~= views(list@).take(i as int));
            assert(t.last() == list@[i as int]@);
            assert(out@ =~= o0 + items(t));
        }
        i = i + 1;
    }
    assert(views(list@).take(list@.len() as int) =~= views(list@));
}

fn push_list(out: &mut Vec<char>, key: &str, list: &Vec<Vec<char>>)
    ensures
        final(out)@ == old(out)@ + list_block(key@, views(list@)),
{
    if list.len() == 0 {
        assert(old(out)@ + Seq::<char>::empty() =~= old(out)@);
        return;
    }
    let k = chars_of(key);
    extend(out, &k);
    out.push(':');
    out.push('\n');
    let ghost mid = out@;
    push_items(out, list);
    assert(final(out)@ =~= old(out)@ + list_block(key@, views(list@)));
}

fn push_flag(out: &mut Vec<char>, key: &str, on: bool)
    ensures
        final(out)@ == old(out)@ + flag_line(key@, on),
{
    if on {
        let k = chars_of(key);
        extend(out, &k);
        out.push(':');
        out.push(' ');
        out.push('t');
        out.push('r');
        out.push('u');
        out.push('e');
        out.push('\n');
        assert(final(out)@ =~= old(out)@ + flag_line(key@, on));
    } else {
        assert(old(out)@ + Seq::<char>::empty() =~= old(out)@);
    }
}

fn push_fence(out: &mut Vec<char>)
    ensures
        final(out)@ == old(out)@ + fence(),
{
    out.push('-');
    out.push('-');
    out.push('-');
    out.push('\n');
    assert(final(out)@ =~= old(out)@ + fence());
}

/// The published names of `photos`, as characters.
fn names_of(photos: &[String]) -> (r: Vec<Vec<char>>)
    ensures
        views(r@) == published_names(photos@.map_values(|s: String| s@)),
{
    let ghost src = photos@.map_values(|s: String| s@);
    let mut r: Vec<Vec<char>> = Vec::new();
    let mut i: usize = 0;
    while i < photos.len()
        invariant
            i <= photos@.len(),
            src == photos@.map_values(|s: String| s@),
            r@.len() == i,
            views(r@) == published_names(src).take(i as int),
        decreases photos@.len() - i,
    {
        let n = published_filename(photos[i].as_str());
        let c = chars_of(n.as_str());
        let ghost r0 = r@;
        r.push(c);
        proof {
            assert(src[i as int] == photos@[i as int]@);
            assert(published_names(src)[i as int] == published_name(src[i as int]));
            assert(r@ == r0.push(c));
            assert(views(r@)[i as int] == c@);
            assert forall|j: int| 0 <= j < i implies views(r@)[j] == views(r0)[j] by {
                assert(r@[j] == r0[j]);
            }
            assert(views(r@) =~= published_names(src).take(i + 1));
        }
        i = i + 1;
    }
    assert(published_names(src).take(photos@.len() as int) =~= published_names(src));
    r
}

/// The cover's published name, when one of `photos` is the cover.
fn find_cover(photos: &[String], cover: &str) -> (r: Option<Vec<char>>)
    ensures
        match r {
            Some(v) => first_cover(photos@.map_values(|s: String| s@), cover@) == Some(v@),
            None => first_cover(photos@.map_values(|s: String| s@), cover@) is None,
        },
{
    let ghost src = photos@.map_values(|s: String| s@);
    let c = chars_of(cover);
    let mut i: usize = 0;
    assert(src.skip(0) =~= src);
    while i < photos.len()
        invariant
            i <= photos@.len(),
            src == photos@.map_values(|s: String| s@),
            c@ == cover@,
            first_cover(src, cover@) == first_cover(src.skip(i as int), cover@),
        decreases photos@.len() - i,
    {
        let own = chars_of(photos[i].as_str());
        let p = published_filename(photos[i].as_str());
        let pc = chars_of(p.as_str());
        proof {
            assert(src.skip(i as int)[0] == own@);
            assert(src.skip(i as int).drop_first() =~= src.skip(i + 1));
        }
        if same(&own, &c) || same(&pc, &c) {
            return Some(pc);
        }
        i = i + 1;
    }
    None
}

#[verifier::spinoff_prover]
#[verifier::rlimit(50)]
/// Render `index.md` — YAML frontmatter, no body (the body lives in
/// `body.md`) — for an album whose published photos, in album order, have
/// the given library filenames.
pub fn render_frontmatter(album: &Album, photos: &[String]) -> (r: String)
    ensures
        r@ == frontmatter(*album, photos@.map_values(|s: String| s@)),
{
    let ghost src = photos@.map_values(|s: String| s@);
    let mut out: Vec<char> = Vec::new();
    push_fence(&mut out);
    let title = chars_of(album.title.as_str());
    push_kv(&mut out, "title", &title);
    push_opt_kv(&mut out, "description", &album.description);
    push_opt_kv(&mut out, "date", &album.date);
    let token = chars_of(album.token.as_str());
    push_kv(&mut out, "token", &token);
    push_opt_kv(&mut out, "password", &album.password);
    push_opt_kv(&mut out, "shareToken", &album.share_token);
    let sort = chars_of(album.sort.as_str());
    push_kv(&mut out, "sort", &sort);
    let ghost before_order = out@;
    if is(&sort, "custom") {
        let names = names_of(photos);
        push_list(&mut out, "photoOrder", &names);
    } else {
        assert(out@ =~= before_order + Seq::<char>::empty());
    }
    let style = chars_of(album.style.as_str());
    push_kv(&mut out, "style", &style);
    let ghost before_cover = out@;
    match &album.cover_filename {
        Some(c) => match find_cover(photos, c.as_str()) {
            Some(p) => push_kv(&mut out, "thumbnail", &p),
            None => {
                assert(out@ =~= before_cover + Seq::<char>::empty());
            },
        },
        None => {
            assert(out@ =~= before_cover + Seq::<char>::empty());
        },
    }
    let mut tags: Vec<Vec<char>> = Vec::new();
    let mut i: usize = 0;
    while i < album.tags.len()
        invariant
            i <= album.tags@.len(),
            tags@.len() == i,
            views(tags@) == list_view(album.tags@).take(i as int),
        decreases album.tags@.len() - i,
    {
        let t = chars_of(album.tags[i].as_str());
        let ghost t0 = tags@;
        tags.push(t);
        proof {
            assert(list_view(album.tags@)[i as int] == album.tags@[i as int]@);
            assert(tags@ == t0.push(t));
            assert(views(tags@)[i as int] == t@);
            assert forall|j: int| 0 <= j < i implies views(tags@)[j] == views(t0)[j] by {
                assert(tags@[j] == t0[j]);
            }
            assert(views(tags@) =~= list_view(album.tags@).take(i + 1));
        }
        i = i + 1;
    }
    assert(list_view(album.tags@).take(album.tags@.len() as int) =~= list_view(album.tags@));
    push_list(&mut out, "tags", &tags);
    push_flag(&mut out, "isCollection", album.is_collection);
    let ghost before_rank = out@;
    match album.sort_order {
        Some(n) => {
            let k = chars_of("order");
            extend(&mut out, &k);
            out.push(':');
            out.push(' ');
            let d = i64_text(n);
            extend(&mut out, &d);
            out.push('\n');
            proof {
                reveal_strlit("order");
                assert(out@ =~= before_rank + order_line(album.sort_order));
            }
        },
        None => {
            assert(out@ =~= before_rank + Seq::<char>::empty());
        },
    }
    push_flag(&mut out, "hidden", album.hidden);
    push_flag(&mut out, "allowDownload", album.allow_download);
    push_flag(&mut out, "proofing", album.proofing);
    push_fence(&mut out);
    string_of(&out)
}

/// Absolute path of an album inside a published tree.
pub fn album_dir(dest_root: &str, album_path: &str) -> (r: String)
    ensures
        r@ == push_path(dest_root@, album_path@),
{
    let v = joined(dest_root, album_path);
    string_of(&v)
}


// --------------------------------------------------------------- options

/// What to select out of an album, and whether to move pixels at all.
///
/// The default is the safe one for a delivery: every album member except the
/// rejects, photos included. A photo these exclude is also a photo the next
/// publish prunes off the site.
#[derive(Debug, Clone)]
pub struct PublishOptions {
    /// Only publish photos rated at least this high. `None` publishes all
    /// album members.
    pub min_rating: Option<u8>,
    /// Skip photos flagged `Reject` regardless of rating.
    pub exclude_rejected: bool,
    /// Copy the original files. When false only `index.md` is written.
    pub copy_photos: bool,
}

impl Default for PublishOptions {
    fn default() -> (r: Self)
        ensures
            r.min_rating is None,
            r.exclude_rejected,
            r.copy_photos,
    {
        PublishOptions { min_rating: None, exclude_rejected: true, copy_photos: true }
    }
}

/// Whether a photo reaches the published album: not a reject (when rejects
/// are excluded), rated at least the minimum (when there is one), and not a
/// RAW file — videos ride along, RAW files are not web deliverables.
pub open spec fn selected(o: PublishOptions, kind: PhotoKind, flag: Flag, rating: u8) -> bool {
    &&& !(o.exclude_rejected && flag == Flag::Reject)
    &&& match o.min_rating {
        Some(m) => rating >= m,
        None => true,
    }
    &&& kind != PhotoKind::Raw
}

impl PublishOptions {
    /// Whether a photo of this kind, flag and rating is published.
    pub fn selects(&self, kind: PhotoKind, flag: Flag, rating: u8) -> (r: bool)
        ensures
            r == selected(*self, kind, flag, rating),
    {
        if self.exclude_rejected && flag == Flag::Reject {
            return false;
        }
        match self.min_rating {
            Some(m) => {
                if rating < m {
                    return false;
                }
            },
            None => {},
        }
        kind != PhotoKind::Raw
    }
}

/// What a publish produced (or would produce, for a dry run).
#[derive(Debug, Clone, Default)]
pub struct PublishResult {
    /// The album this describes.
    pub album_path: String,
    /// Relative paths written, under the destination root — never the same
    /// path twice.
    pub written: Vec<String>,
    /// Photo files put in place.
    pub photos_copied: usize,
    /// Photos already in place with identical bytes, so nothing was rewritten.
    pub photos_skipped: usize,
    /// Bytes the copies actually wrote.
    pub bytes_copied: u64,
    /// Catalogued photos whose original file is gone from disk.
    pub missing: Vec<String>,
    /// Catalogued photos no decoder could read, so they were not shipped.
    pub unrenderable: Vec<String>,
    /// Files removed from the published folder — only ever files this library
    /// put there itself.
    pub removed: Vec<String>,
    /// Photos in this album that wanted the same published filename.
    pub collisions: Vec<PublishCollision>,
}

/// Two or more photos in one album competing for a single published filename.
#[derive(Debug, Clone)]
pub struct PublishCollision {
    /// The contested path, relative to the destination root.
    pub dest: String,
    /// The album's photos that map to it, in album order. The first is the one
    /// that was published; every later one was left out.
    pub sources: Vec<String>,
}

// ------------------------------------------------------------ collisions

/// The indices of the first photo to want each name, in order.
pub open spec fn first_claims(names: Seq<Seq<char>>) -> Seq<int>
    decreases names.len(),
{
    if names.len() == 0 {
        Seq::<int>::empty()
    } else {
        let f = first_claims(names.drop_last());
        if names.drop_last().contains(names.last()) {
            f
        } else {
            f.push(names.len() - 1)
        }
    }
}

proof fn lemma_first_claims_in_order(names: Seq<Seq<char>>)
    ensures
        forall|a: int| 0 <= a < first_claims(names).len() ==> 0 <= #[trigger] first_claims(names)[a] < names.len(),
        forall|a: int, b: int|
            0 <= a < b < first_claims(names).len() ==> #[trigger] first_claims(names)[a] < #[trigger] first_claims(names)[b],
    decreases names.len(),
{
    if names.len() > 0 {
        let d = names.drop_last();
        lemma_first_claims_in_order(d);
        let f = first_claims(d);
        if !d.contains(names.last()) {
            let g = f.push(names.len() - 1);
            assert(first_claims(names) == g);
            assert forall|a: int| 0 <= a < g.len() implies 0 <= #[trigger] g[a] < names.len() by {
                if a < f.len() {
                    assert(g[a] == f[a]);
                }
            }
            assert forall|a: int, b: int| 0 <= a < b < g.len() implies #[trigger] g[a] < #[trigger] g[b] by {
                assert(g[a] == f[a]);
                if b < f.len() {
                    assert(g[b] == f[b]);
                }
            }
        } else {
            assert(first_claims(names) == f);
        }
    }
}

/// The photos that keep their names publish under pairwise different names:
/// the album folder never receives two files at one path.
pub proof fn lemma_first_claims_distinct(names: Seq<Seq<char>>)
    ensures
        forall|a: int, b: int|
            0 <= a < b < first_claims(names).len() ==> names[#[trigger] first_claims(names)[a]]
                != names[#[trigger] first_claims(names)[b]],
    decreases names.len(),
{
    if names.len() > 0 {
        let d = names.drop_last();
        lemma_first_claims_distinct(d);
        lemma_first_claims_in_order(d);
        let f = first_claims(d);
        let last = names.last();
        if !d.contains(last) {
            let g = f.push(names.len() - 1);
            assert forall|a: int, b: int| 0 <= a < b < g.len() implies names[#[trigger] g[a]]
                != names[#[trigger] g[b]] by {
                assert(g[a] == f[a]);
                assert(d[f[a]] == names[f[a]]);
                if b == f.len() {
                    if names[g[a]] == names[g[b]] {
                        assert(d[f[a]] == last);
                        assert(d.contains(last));
                    }
                } else {
                    assert(g[b] == f[b]);
                    assert(d[f[b]] == names[f[b]]);
                }
            }
        } else {
            assert forall|a: int, b: int| 0 <= a < b < f.len() implies names[#[trigger] f[a]]
                != names[#[trigger] f[b]] by {
                assert(d[f[a]] == names[f[a]]);
                assert(d[f[b]] == names[f[b]]);
            }
        }
    }
}

/// Every name some photo wants is published, by the first photo that wants
/// it.
pub proof fn lemma_first_claims_cover(names: Seq<Seq<char>>, i: int)
    requires
        0 <= i < names.len(),
    ensures
        exists|a: int|
            0 <= a < first_claims(names).len() && names[#[trigger] first_claims(names)[a]] == names[i],
    decreases names.len(),
{
    let d = names.drop_last();
    lemma_first_claims_in_order(d);
    let f = first_claims(d);
    if i == names.len() - 1 {
        if d.contains(names[i]) {
            let j = choose|j: int| 0 <= j < d.len() && d[j] == names[i];
            lemma_first_claims_cover(d, j);
            let a = choose|a: int| 0 <= a < f.len() && d[#[trigger] f[a]] == d[j];
            assert(names[f[a]] == d[f[a]]);
            assert(first_claims(names) == f);
        } else {
            let g = f.push(names.len() - 1);
            assert(first_claims(names) == g);
            assert(g[f.len() as int] == names.len() - 1);
        }
    } else {
        lemma_first_claims_cover(d, i);
        let a = choose|a: int| 0 <= a < f.len() && d[#[trigger] f[a]] == d[i];
        assert(names[f[a]] == d[f[a]]);
        assert(d[i] == names[i]);
        if d.contains(names.last()) {
            assert(first_claims(names) == f);
        } else {
            let g = f.push(names.len() - 1);
            assert(first_claims(names) == g);
            assert(g[a] == f[a]);
        }
    }
}

/// The relative paths of the photos that want `name`, in album order.
pub open spec fn claimants(names: Seq<Seq<char>>, rels: Seq<Seq<char>>, name: Seq<char>) -> Seq<Seq<char>>
    decreases names.len(),
{
    if names.len() == 0 {
        Seq::<Seq<char>>::empty()
    } else {
        let c = claimants(names.drop_last(), rels, name);
        if names.last() == name {
            c.push(rels[names.len() - 1])
        } else {
            c
        }
    }
}

/// The published names of the selected photos, in album order.
pub open spec fn wanted_names(selected: Seq<(String, String)>) -> Seq<Seq<char>> {
    selected.map_values(|p: (String, String)| published_name(p.1@))
}

/// The relative paths of the selected photos, in album order.
pub open spec fn rel_paths(selected: Seq<(String, String)>) -> Seq<Seq<char>> {
    selected.map_values(|p: (String, String)| p.0@)
}

/// The name a collision's destination ends in.
pub open spec fn dest_name(album_path: Seq<char>, dest: Seq<char>) -> Seq<char> {
    dest.skip(album_path.len() as int + 1)
}

proof fn lemma_claimants_take(names: Seq<Seq<char>>, rels: Seq<Seq<char>>, name: Seq<char>, i: int)
    requires
        0 <= i < names.len(),
        names.len() <= rels.len(),
    ensures
        claimants(names.take(i + 1), rels, name) == if names[i] == name {
            claimants(names.take(i), rels, name).push(rels[i])
        } else {
            claimants(names.take(i), rels, name)
        },
{
    assert(names.take(i + 1).drop_last() =~= names.take(i));
}

proof fn lemma_claimants_empty(names: Seq<Seq<char>>, rels: Seq<Seq<char>>, name: Seq<char>)
    requires
        !names.contains(name),
    ensures
        claimants(names, rels, name).len() == 0,
    decreases names.len(),
{
    if names.len() > 0 {
        assert(!names.drop_last().contains(name)) by {
            if names.drop_last().contains(name) {
                let k = choose|k: int| 0 <= k < names.drop_last().len() && names.drop_last()[k] == name;
                assert(names[k] == name);
            }
        }
        assert(names.last() != name) by {
            if names.last() == name {
                assert(names[names.len() - 1] == name);
            }
        }
        lemma_claimants_empty(names.drop_last(), rels, name);
    }
}

/// Split the selected photos — `(relative path, library filename)`, in album
/// order — into the ones that get published and the filename fights that
/// stopped the rest.
///
/// A published album is one flat folder, but a library is not: two cards at
/// one wedding both hand you a `DSC_0001.jpg`. Renaming the loser is
/// deliberately not done — the published filename is the URL — so the first
/// photo in album order keeps the name, the others ship nothing, and the
/// result says exactly which frames those were.
///
/// Returns the indices of the photos that are published, in album order, and
/// one collision per contested name, ordered by name.
#[verifier::spinoff_prover]
#[verifier::rlimit(80)]
pub fn split_filename_collisions(album_path: &str, selected: &[(String, String)]) -> (r: (
    Vec<usize>,
    Vec<PublishCollision>,
))
    ensures
        r.0@.map_values(|i: usize| i as int) == first_claims(wanted_names(selected@)),
        forall|k: int|
            0 <= k < r.1@.len() ==> {
                let d = (#[trigger] r.1@[k]).dest@;
                let n = dest_name(album_path@, d);
                &&& starts_with(d, album_path@ + seq!['/'])
                &&& list_view(r.1@[k].sources@) == claimants(
                    wanted_names(selected@),
                    rel_paths(selected@),
                    n,
                )
                &&& claimants(wanted_names(selected@), rel_paths(selected@), n).len() >= 2
            },
        forall|k: int, l: int|
            0 <= k < l < r.1@.len() ==> text_order(
                dest_name(album_path@, (#[trigger] r.1@[k]).dest@),
                dest_name(album_path@, (#[trigger] r.1@[l]).dest@),
            ) < 0,
        forall|n: Seq<char>|
            #![trigger claimants(wanted_names(selected@), rel_paths(selected@), n)]
            claimants(wanted_names(selected@), rel_paths(selected@), n).len() >= 2 ==> exists|k: int|
                0 <= k < r.1@.len() && dest_name(album_path@, (#[trigger] r.1@[k]).dest@) == n,
{
    let ghost names = wanted_names(selected@);
    let ghost rels = rel_paths(selected@);
    let n = selected.len();
    // every published name, and every relative path, as characters
    let mut nm: Vec<Vec<char>> = Vec::new();
    let mut rl: Vec<Vec<char>> = Vec::new();
    let mut i: usize = 0;
    while i < n
        invariant
            i <= n == selected@.len(),
            names == wanted_names(selected@),
            rels == rel_paths(selected@),
            nm@.len() == i,
            rl@.len() == i,
            forall|k: int| 0 <= k < i ==> (#[trigger] nm@[k])@ == names[k],
            forall|k: int| 0 <= k < i ==> (#[trigger] rl@[k])@ == rels[k],
        decreases n - i,
    {
        let p = published_filename(selected[i].1.as_str());
        nm.push(chars_of(p.as_str()));
        rl.push(chars_of(selected[i].0.as_str()));
        i = i + 1;
    }
    assert(views(nm@) =~= names);
    assert(views(rl@) =~= rels);
    // first claims
    let mut kept: Vec<usize> = Vec::new();
    let mut i: usize = 0;
    assert(names.take(0) =~= Seq::<Seq<char>>::empty());
    while i < n
        invariant
            i <= n == names.len(),
            views(nm@) == names,
            kept@.map_values(|x: usize| x as int) == first_claims(names.take(i as int)),
        decreases n - i,
    {
        let mut j: usize = 0;
        let mut seen = false;
        while j < i && !seen
            invariant
                j <= i < n == names.len(),
                views(nm@) == names,
                seen ==> names.take(i as int).contains(names[i as int]),
                !seen ==> forall|k: int| 0 <= k < j ==> names[k] != names[i as int],
            decreases i - j,
        {
            if same(&nm[j], &nm[i]) {
                seen = true;
                assert(names.take(i as int)[j as int] == names[i as int]);
            }
            j = j + 1;
        }
        proof {
            let t = names.take(i + 1);
            assert(t.drop_last() =~= names.take(i as int));
            assert(t.last() == names[i as int]);
            if !seen {
                assert(!names.take(i as int).contains(names[i as int])) by {
                    if names.take(i as int).contains(names[i as int]) {
                        let k = choose|k: int| 0 <= k < i && names.take(i as int)[k] == names[i as int];
                        assert(names[k] == names[i as int]);
                    }
                }
            }
        }
        if !seen {
            let ghost k0 = kept@;
            kept.push(i);
            assert(kept@.map_values(|x: usize| x as int) =~= k0.map_values(|x: usize| x as int).push(i as int));
        }
        i = i + 1;
    }
    assert(names.take(n as int) =~= names);
    // contested names, sorted
    proof {
        lemma_text_order();
    }
    let ghost to = |a: Seq<char>, b: Seq<char>| text_order(a, b);
    let mut fights: Vec<(Vec<char>, Vec<Vec<char>>)> = Vec::new();
    let mut i: usize = 0;
    while i < n
        invariant
            i <= n == names.len(),
            views(nm@) == names,
            views(rl@) == rels,
            rels.len() == names.len(),
            to == (|a: Seq<char>, b: Seq<char>| text_order(a, b)),
            is_order(to),
            forall|k: int|
                0 <= k < fights@.len() ==> {
                    &&& names.take(i as int).contains((#[trigger] fights@[k]).0@)
                    &&& views(fights@[k].1@) == claimants(names, rels, fights@[k].0@)
                    &&& claimants(names, rels, fights@[k].0@).len() >= 2
                },
            forall|a: int, b: int|
                0 <= a < b < fights@.len() ==> text_order(
                    (#[trigger] fights@[a]).0@,
                    (#[trigger] fights@[b]).0@,
                ) < 0,
            forall|m: Seq<char>|
                #![trigger claimants(names, rels, m)]
                names.take(i as int).contains(m) && claimants(names, rels, m).len() >= 2 ==> exists|k: int|
                    0 <= k < fights@.len() && (#[trigger] fights@[k]).0@ == m,
        decreases n - i,
    {
        // is this the first claim on the name?
        let mut j: usize = 0;
        let mut seen = false;
        while j < i && !seen
            invariant
                j <= i < n == names.len(),
                views(nm@) == names,
                seen ==> names.take(i as int).contains(names[i as int]),
                !seen ==> forall|k: int| 0 <= k < j ==> names[k] != names[i as int],
            decreases i - j,
        {
            if same(&nm[j], &nm[i]) {
                seen = true;
                assert(names.take(i as int)[j as int] == names[i as int]);
            }
            j = j + 1;
        }
        let ghost m = names[i as int];
        proof {
            let t = names.take(i + 1);
            assert(t =~= names.take(i as int).push(m));
            assert forall|x: Seq<char>| t.contains(x) <==> (names.take(i as int).contains(x) || x == m) by {
                if t.contains(x) {
                    let k = choose|k: int| 0 <= k < t.len() && t[k] == x;
                    if k < i {
                        assert(names.take(i as int)[k] == x);
                    }
                }
                if names.take(i as int).contains(x) {
                    let k = choose|k: int| 0 <= k < i && names.take(i as int)[k] == x;
                    assert(t[k] == x);
                }
                if x == m {
                    assert(t[i as int] == x);
                }
            }
        }
        if !seen {
            // every claimant of this name, in order
            let mut who: Vec<Vec<char>> = Vec::new();
            let mut j: usize = 0;
            assert(names.take(0) =~= Seq::<Seq<char>>::empty());
            while j < n
                invariant
                    j <= n == names.len() == rels.len(),
                    views(nm@) == names,
                    views(rl@) == rels,
                    i < n,
                    m == names[i as int],
                    views(who@) == claimants(names.take(j as int), rels, m),
                decreases n - j,
            {
                proof {
                    lemma_claimants_take(names, rels, m, j as int);
                }
                if same(&nm[j], &nm[i]) {
                    let ghost w0 = who@;
                    let piece = crate::text::slice_of(&rl[j], 0, rl[j].len());
                    proof {
                        assert(piece@ =~= rl@[j as int]@);
                        assert(rl@[j as int]@ == views(rl@)[j as int]);
                    }
                    who.push(piece);
                    proof {
                        assert(views(who@) =~= views(w0).push(rels[j as int]));
                    }
                }
                j = j + 1;
            }
            assert(names.take(n as int) =~= names);
            if who.len() >= 2 {
                // insert in name order
                let mut q: usize = 0;
                let mut searching = true;
                while searching && q < fights.len()
                    invariant
                        q <= fights@.len(),
                        nm@[i as int]@ == m,
                        i < nm@.len(),
                        to == (|a: Seq<char>, b: Seq<char>| text_order(a, b)),
                        forall|k: int| 0 <= k < q ==> text_order(m, (#[trigger] fights@[k]).0@) >= 0,
                        !searching ==> q < fights@.len() && text_order(m, fights@[q as int].0@) < 0,
                    decreases fights@.len() - q + (if searching {
                        1int
                    } else {
                        0int
                    }),
                {
                    let c = compare_text(&nm[i], &fights[q].0);
                    if c < 0 {
                        searching = false;
                    } else {
                        q = q + 1;
                    }
                }
                let ghost f0 = fights@;
                let key = crate::text::slice_of(&nm[i], 0, nm[i].len());
                assert(key@ =~= m);
                assert(views(who@).len() >= 2);
                fights.insert(q, (key, who));
                proof {
                    f0.insert_ensures(q as int, (key, who));
                    // m is new to the list: it was never claimed before i
                    assert forall|k: int| 0 <= k < f0.len() implies f0[k].0@ != m by {
                        assert(names.take(i as int).contains(f0[k].0@));
                    }
                    assert forall|k: int| 0 <= k < q implies text_order(
                        (#[trigger] f0[k]).0@,
                        m,
                    ) < 0 by {
                        assert(to(m, f0[k].0@) >= 0);
                        assert(to(m, f0[k].0@) != 0);
                        assert(to(f0[k].0@, m) == -to(m, f0[k].0@));
                    }
                    assert forall|k: int| q <= k < f0.len() implies text_order(
                        m,
                        (#[trigger] f0[k]).0@,
                    ) < 0 by {
                        if k > q {
                            assert(to(f0[q as int].0@, f0[k].0@) < 0);
                            assert(to(m, f0[q as int].0@) < 0);
                        }
                    }
                    let nw = fights@;
                    assert forall|a: int, b: int| 0 <= a < b < nw.len() implies text_order(
                        (#[trigger] nw[a]).0@,
                        (#[trigger] nw[b]).0@,
                    ) < 0 by {
                        if b < q {
                            assert(nw[a] == f0[a] && nw[b] == f0[b]);
                        } else if b == q {
                            assert(nw[a] == f0[a]);
                        } else if a == q {
                            assert(nw[b] == f0[b - 1]);
                        } else if a < q {
                            assert(nw[a] == f0[a] && nw[b] == f0[b - 1]);
                            assert(to(f0[a].0@, m) < 0 && to(m, f0[b - 1].0@) < 0);
                        } else {
                            assert(nw[a] == f0[a - 1] && nw[b] == f0[b - 1]);
                        }
                    }
                    assert forall|k: int| 0 <= k < nw.len() implies {
                        &&& names.take(i + 1).contains((#[trigger] nw[k]).0@)
                        &&& views(nw[k].1@) == claimants(names, rels, nw[k].0@)
                        &&& claimants(names, rels, nw[k].0@).len() >= 2
                    } by {
                        if k < q {
                            assert(nw[k] == f0[k]);
                        } else if k > q {
                            assert(nw[k] == f0[k - 1]);
                        }
                    }
                    assert forall|x: Seq<char>|
                        #![trigger claimants(names, rels, x)]
                        names.take(i + 1).contains(x) && claimants(names, rels, x).len() >= 2 implies exists|k: int|
                            0 <= k < nw.len() && (#[trigger] nw[k]).0@ == x by {
                        if x == m {
                            assert(nw[q as int].0@ == m);
                        } else {
                            assert(names.take(i as int).contains(x));
                            let k = choose|k: int| 0 <= k < f0.len() && (#[trigger] f0[k]).0@ == x;
                            if k < q {
                                assert(nw[k] == f0[k]);
                            } else {
                                assert(nw[k + 1] == f0[k]);
                            }
                        }
                    }
                }
            } else {
                proof {
                    assert forall|x: Seq<char>|
                        #![trigger claimants(names, rels, x)]
                        names.take(i + 1).contains(x) && claimants(names, rels, x).len() >= 2 implies exists|k: int|
                            0 <= k < fights@.len() && (#[trigger] fights@[k]).0@ == x by {
                        if x == m {
                            assert(false);
                        }
                    }
                    assert forall|k: int| 0 <= k < fights@.len() implies names.take(i + 1).contains(
                        (#[trigger] fights@[k]).0@,
                    ) by {}
                }
            }
        } else {
            proof {
                assert forall|x: Seq<char>|
                    #![trigger claimants(names, rels, x)]
                    names.take(i + 1).contains(x) && claimants(names, rels, x).len() >= 2 implies exists|k: int|
                        0 <= k < fights@.len() && (#[trigger] fights@[k]).0@ == x by {
                    if x == m {
                        assert(names.take(i as int).contains(x));
                    }
                }
                assert forall|k: int| 0 <= k < fights@.len() implies names.take(i + 1).contains(
                    (#[trigger] fights@[k]).0@,
                ) by {}
            }
        }
        i = i + 1;
    }
    assert(names.take(n as int) =~= names);
    // the collisions, in name order
    let a = chars_of(album_path);
    let mut out: Vec<PublishCollision> = Vec::new();
    let mut k: usize = 0;
    while k < fights.len()
        invariant
            k <= fights@.len(),
            a@ == album_path@,
            out@.len() == k,
            forall|j: int|
                0 <= j < k ==> {
                    &&& (#[trigger] out@[j]).dest@ == album_path@ + seq!['/'] + fights@[j].0@
                    &&& list_view(out@[j].sources@) == views(fights@[j].1@)
                },
        decreases fights@.len() - k,
    {
        let mut d = crate::text::slice_of(&a, 0, a.len());
        d.push('/');
        extend(&mut d, &fights[k].0);
        let mut src: Vec<String> = Vec::new();
        let mut j: usize = 0;
        while j < fights[k].1.len()
            invariant
                k < fights@.len(),
                j <= fights@[k as int].1@.len(),
                src@.len() == j,
                forall|x: int| 0 <= x < j ==> (#[trigger] src@[x])@ == fights@[k as int].1@[x]@,
            decreases fights@[k as int].1@.len() - j,
        {
            src.push(string_of(&fights[k].1[j]));
            j = j + 1;
        }
        assert(list_view(src@) =~= views(fights@[k as int].1@));
        assert(d@ =~= album_path@ + seq!['/'] + fights@[k as int].0@);
        out.push(PublishCollision { dest: string_of(&d), sources: src });
        k = k + 1;
    }
    proof {
        assert forall|j: int| 0 <= j < out@.len() implies dest_name(album_path@, (#[trigger] out@[j]).dest@)
            == fights@[j].0@ by {
            assert(out@[j].dest@.skip(album_path@.len() as int + 1) =~= fights@[j].0@);
        }
        assert forall|j: int| 0 <= j < out@.len() implies starts_with(
            (#[trigger] out@[j]).dest@,
            album_path@ + seq!['/'],
        ) by {
            assert(out@[j].dest@.take(album_path@.len() as int + 1) =~= album_path@ + seq!['/']);
        }
        assert forall|x: Seq<char>|
            #![trigger claimants(names, rels, x)]
            claimants(names, rels, x).len() >= 2 implies exists|j: int|
                0 <= j < out@.len() && dest_name(album_path@, (#[trigger] out@[j]).dest@) == x by {
            if !names.contains(x) {
                lemma_claimants_empty(names, rels, x);
            }
            let j = choose|j: int| 0 <= j < fights@.len() && (#[trigger] fights@[j]).0@ == x;
            assert(dest_name(album_path@, out@[j].dest@) == x);
        }
    }
    (kept, out)
}

// ----------------------------------------------------------------- prune

/// The last `/`-separated segment of a path (all of it without one).
pub open spec fn tail_name(p: Seq<char>) -> Seq<char> {
    last_segment(p)
}

/// A previously published file this publish removes: recorded, no longer
/// published, and not the copy of a photo whose original went missing — that
/// is a broken drive, not a decision to unpublish.
pub open spec fn is_stale(current: Seq<Seq<char>>, missing: Seq<Seq<char>>, f: Seq<char>) -> bool {
    !current.contains(f) && !missing.map_values(|m: Seq<char>| tail_name(m)).contains(f)
}

/// The files to remove, `album/file`, in the order they were recorded.
pub open spec fn removals(album_path: Seq<char>, recorded: Seq<Seq<char>>, current: Seq<Seq<char>>, missing: Seq<Seq<char>>) -> Seq<Seq<char>>
    decreases recorded.len(),
{
    if recorded.len() == 0 {
        Seq::<Seq<char>>::empty()
    } else {
        let r = removals(album_path, recorded.drop_last(), current, missing);
        if is_stale(current, missing, recorded.last()) {
            r.push(album_path + seq!['/'] + recorded.last())
        } else {
            r
        }
    }
}

/// A publish removes only what this library recorded as published there,
/// never a file it publishes now, and never the copy of a photo whose
/// original has gone missing: each removal is `album/f` for a recorded `f`
/// that is stale.
pub proof fn lemma_removes_only_stale_records(
    album_path: Seq<char>,
    recorded: Seq<Seq<char>>,
    current: Seq<Seq<char>>,
    missing: Seq<Seq<char>>,
    k: int,
)
    requires
        0 <= k < removals(album_path, recorded, current, missing).len(),
    ensures
        exists|f: Seq<char>|
            #![trigger recorded.contains(f)]
            recorded.contains(f) && is_stale(current, missing, f) && removals(
                album_path,
                recorded,
                current,
                missing,
            )[k] == album_path + seq!['/'] + f,
    decreases recorded.len(),
{
    let r = removals(album_path, recorded.drop_last(), current, missing);
    if k < r.len() {
        lemma_removes_only_stale_records(album_path, recorded.drop_last(), current, missing, k);
        let f = choose|f: Seq<char>|
            #![trigger recorded.drop_last().contains(f)]
            recorded.drop_last().contains(f) && is_stale(current, missing, f) && r[k] == album_path
                + seq!['/'] + f;
        let j = choose|j: int| 0 <= j < recorded.drop_last().len() && recorded.drop_last()[j] == f;
        assert(recorded[j] == f);
        assert(recorded.contains(f));
    } else {
        let f = recorded.last();
        assert(recorded[recorded.len() - 1] == f);
        assert(recorded.contains(f));
    }
}

/// Decide what a publish removes from the published folder and what it
/// records as published there.
///
/// The record of past publishes is what makes removing safe: a file the web
/// admin (or anything else) dropped into the same folder was never recorded,
/// so it is never removed. `recorded` is what this library last published
/// into the album, `current` the published names of this publish, `missing`
/// the relative paths of photos whose originals are gone. The new record is
/// `current` plus the names of the missing photos, so a later publish can
/// still prune them.
pub fn prune_plan(album_path: &str, recorded: &[String], current: &[String], missing: &[String]) -> (r: (
    Vec<String>,
    Vec<String>,
))
    ensures
        list_view(r.0@) == removals(album_path@, list_view(recorded@), list_view(current@), list_view(missing@)),
        list_view(r.1@).to_set() == list_view(current@).to_set().union(
            list_view(missing@).map_values(|m: Seq<char>| tail_name(m)).to_set(),
        ),
{
    let ghost cur = list_view(current@);
    let ghost gone = list_view(missing@).map_values(|m: Seq<char>| tail_name(m));
    let ghost rec = list_view(recorded@);
    // the names of the missing photos
    let mut names: Vec<Vec<char>> = Vec::new();
    let mut i: usize = 0;
    while i < missing.len()
        invariant
            i <= missing@.len(),
            gone == list_view(missing@).map_values(|m: Seq<char>| tail_name(m)),
            names@.len() == i,
            forall|k: int| 0 <= k < i ==> (#[trigger] names@[k])@ == gone[k],
        decreases missing@.len() - i,
    {
        let v = chars_of(missing[i].as_str());
        let n = v.len();
        let name = match last_index_of(&v, '/') {
            Some(at) => {
                proof {
                    lemma_rfind(v@, '/');
                }
                slice_of(&v, at + 1, n)
            },
            None => v,
        };
        proof {
            assert(list_view(missing@)[i as int] == missing@[i as int]@);
            match rfind(v@, '/') {
                Some(at) => {
                    assert(name@ =~= v@.skip(at + 1));
                },
                None => {},
            }
        }
        names.push(name);
        i = i + 1;
    }
    assert(views(names@) =~= gone);
    let mut cur_v: Vec<Vec<char>> = Vec::new();
    let mut i: usize = 0;
    while i < current.len()
        invariant
            i <= current@.len(),
            cur == list_view(current@),
            cur_v@.len() == i,
            forall|k: int| 0 <= k < i ==> (#[trigger] cur_v@[k])@ == cur[k],
        decreases current@.len() - i,
    {
        cur_v.push(chars_of(current[i].as_str()));
        i = i + 1;
    }
    assert(views(cur_v@) =~= cur);
    // removals
    let mut removed: Vec<String> = Vec::new();
    let mut i: usize = 0;
    assert(rec.take(0) =~= Seq::<Seq<char>>::empty());
    while i < recorded.len()
        invariant
            i <= recorded@.len(),
            rec == list_view(recorded@),
            views(cur_v@) == cur,
            views(names@) == gone,
            cur == list_view(current@),
            gone == list_view(missing@).map_values(|m: Seq<char>| tail_name(m)),
            list_view(removed@) == removals(album_path@, rec.take(i as int), cur, list_view(missing@)),
        decreases recorded@.len() - i,
    {
        let f = chars_of(recorded[i].as_str());
        let kept_now = holds(&cur_v, &f);
        let spared = holds(&names, &f);
        proof {
            let t = rec.take(i + 1);
            assert(t.drop_last() =~= rec.take(i as int));
            assert(t.last() == f@);
        }
        if !kept_now && !spared {
            let mut d = chars_of(album_path);
            d.push('/');
            extend(&mut d, &f);
            let ghost r0 = removed@;
            removed.push(string_of(&d));
            proof {
                assert(d@ =~= album_path@ + seq!['/'] + f@);
                assert(list_view(removed@) =~= list_view(r0).push(d@));
            }
        }
        i = i + 1;
    }
    assert(rec.take(recorded@.len() as int) =~= rec);
    // the new record
    let mut record: Vec<String> = Vec::new();
    let mut i: usize = 0;
    while i < current.len()
        invariant
            i <= current@.len(),
            cur == list_view(current@),
            record@.len() == i,
            forall|k: int| 0 <= k < i ==> (#[trigger] record@[k])@ == cur[k],
        decreases current@.len() - i,
    {
        record.push(string_of(&chars_of(current[i].as_str())));
        i = i + 1;
    }
    let mut j: usize = 0;
    while j < names.len()
        invariant
            j <= names@.len(),
            views(names@) == gone,
            record@.len() == cur.len() + j,
            forall|k: int| 0 <= k < cur.len() ==> (#[trigger] record@[k])@ == cur[k],
            forall|k: int| 0 <= k < j ==> (#[trigger] record@[cur.len() + k])@ == gone[k],
        decreases names@.len() - j,
    {
        record.push(string_of(&names[j]));
        j = j + 1;
    }
    proof {
        assert(views(names@).len() == names@.len());
        assert forall|k: int| 0 <= k < record@.len() implies list_view(record@)[k] == (cur + gone)[k] by {
            if k >= cur.len() {
                let k2 = k - cur.len();
                assert(record@[cur.len() + k2] == record@[k]);
            }
        }
        assert(list_view(record@) =~= cur + gone);
        assert((cur + gone).to_set() =~= cur.to_set().union(gone.to_set())) by {
            assert forall|x: Seq<char>| (cur + gone).contains(x) <==> (cur.contains(x) || gone.contains(x)) by {
                if (cur + gone).contains(x) {
                    let k = choose|k: int| 0 <= k < (cur + gone).len() && (cur + gone)[k] == x;
                    if k < cur.len() {
                        assert(cur[k] == x);
                    } else {
                        assert(gone[k - cur.len()] == x);
                    }
                }
                if cur.contains(x) {
                    let k = choose|k: int| 0 <= k < cur.len() && cur[k] == x;
                    assert((cur + gone)[k] == x);
                }
                if gone.contains(x) {
                    let k = choose|k: int| 0 <= k < gone.len() && gone[k] == x;
                    assert((cur + gone)[cur.len() + k] == x);
                }
            }
        }
    }
    (removed, record)
}

/// Whether `list` holds `f`.
fn holds(list: &Vec<Vec<char>>, f: &Vec<char>) -> (r: bool)
    ensures
        r == views(list@).contains(f@),
{
    let mut i: usize = 0;
    while i < list.len()
        invariant
            i <= list@.len(),
            forall|k: int| 0 <= k < i ==> list@[k]@ != f@,
        decreases list@.len() - i,
    {
        if same(&list[i], f) {
            assert(views(list@)[i as int] == f@);
            return true;
        }
        i = i + 1;
    }
    assert forall|k: int| 0 <= k < views(list@).len() implies views(list@)[k] != f@ by {
        assert(views(list@)[k] == list@[k]@);
    }
    false
}


// -------------------------------------------------------------- manifest

/// A name that starts with a dot.
pub open spec fn dot_name(c: Seq<char>) -> bool {
    c.len() > 0 && c[0] == '.'
}

/// A file the published tree's manifest lists: no component of its path
/// starts with a dot. `.meta/` is server-owned — thumbnail cache, proofing
/// submissions — and must never be part of what is pushed.
pub open spec fn listed(components: Seq<Seq<char>>) -> bool {
    forall|i: int| 0 <= i < components.len() ==> !dot_name(#[trigger] components[i])
}

/// The manifest key of a file: its path components joined by `/`.
pub open spec fn manifest_key(components: Seq<Seq<char>>) -> Seq<char> {
    join(components, seq!['/'])
}

/// The files as plain values: components and content hash.
pub open spec fn files_view(files: Seq<(Vec<String>, String)>) -> Seq<(Seq<Seq<char>>, Seq<char>)> {
    files.map_values(|f: (Vec<String>, String)| (list_view(f.0@), f.1@))
}

/// The manifest as a map: each listed file's key to its hash, inserted in
/// order, so a later file under the same key wins.
pub open spec fn manifest_map(files: Seq<(Seq<Seq<char>>, Seq<char>)>) -> Map<Seq<char>, Seq<char>>
    decreases files.len(),
{
    if files.len() == 0 {
        Map::<Seq<char>, Seq<char>>::empty()
    } else {
        let m = manifest_map(files.drop_last());
        let f = files.last();
        if listed(f.0) {
            m.insert(manifest_key(f.0), f.1)
        } else {
            m
        }
    }
}

/// Entries as a map from key to hash.
pub open spec fn as_map(m: Seq<(String, String)>) -> Map<Seq<char>, Seq<char>>
    decreases m.len(),
{
    if m.len() == 0 {
        Map::<Seq<char>, Seq<char>>::empty()
    } else {
        as_map(m.drop_last()).insert(m.last().0@, m.last().1@)
    }
}

/// Keys strictly ascending: ordered, and none twice.
pub open spec fn keys_ascending(m: Seq<(String, String)>) -> bool {
    forall|a: int, b: int| 0 <= a < b < m.len() ==> text_order((#[trigger] m[a]).0@, (#[trigger] m[b]).0@) < 0
}

proof fn lemma_as_map_insert(s: Seq<(String, String)>, at: int, e: (String, String))
    requires
        0 <= at <= s.len(),
        forall|j: int| 0 <= j < s.len() ==> (#[trigger] s[j]).0@ != e.0@,
    ensures
        as_map(s.insert(at, e)) == as_map(s).insert(e.0@, e.1@),
    decreases s.len(),
{
    let t = s.insert(at, e);
    if at == s.len() {
        assert(t.drop_last() =~= s);
        assert(t.last() == e);
    } else {
        let d = s.drop_last();
        assert forall|j: int| 0 <= j < d.len() implies (#[trigger] d[j]).0@ != e.0@ by {
            assert(d[j] == s[j]);
        }
        lemma_as_map_insert(d, at, e);
        assert(t.drop_last() =~= d.insert(at, e));
        assert(t.last() == s.last());
        assert(s.last() == s[s.len() - 1]);
        assert(as_map(t) =~= as_map(s).insert(e.0@, e.1@));
    }
}

proof fn lemma_as_map_update(s: Seq<(String, String)>, at: int, e: (String, String))
    requires
        0 <= at < s.len(),
        s[at].0@ == e.0@,
        forall|a: int, b: int| 0 <= a < b < s.len() ==> (#[trigger] s[a]).0@ != (#[trigger] s[b]).0@,
    ensures
        as_map(s.update(at, e)) == as_map(s).insert(e.0@, e.1@),
    decreases s.len(),
{
    let t = s.update(at, e);
    let d = s.drop_last();
    if at == s.len() - 1 {
        assert(t.drop_last() =~= d);
        assert(t.last() == e);
        assert(as_map(t) =~= as_map(s).insert(e.0@, e.1@));
    } else {
        assert forall|a: int, b: int| 0 <= a < b < d.len() implies (#[trigger] d[a]).0@ != (
        #[trigger] d[b]).0@ by {
            assert(d[a] == s[a] && d[b] == s[b]);
        }
        lemma_as_map_update(d, at, e);
        assert(t.drop_last() =~= d.update(at, e));
        assert(t.last() == s.last());
        assert(s.last() == s[s.len() - 1]);
        assert(s[at].0@ != s[s.len() - 1].0@);
        assert(as_map(t) =~= as_map(s).insert(e.0@, e.1@));
    }
}

fn first_is_dot_of(c: &String) -> (r: bool)
    ensures
        r == dot_name(c@),
{
    let v = chars_of(c.as_str());
    v.len() > 0 && v[0] == '.'
}

/// Put `key → hash` into ascending entries: replace the hash where the key is
/// already present, else insert the key in order.
#[verifier::spinoff_prover]
#[verifier::rlimit(40)]
fn put_entry(out: &mut Vec<(String, String)>, key: &Vec<char>, hash: String)
    requires
        keys_ascending(old(out)@),
    ensures
        keys_ascending(final(out)@),
        as_map(final(out)@) == as_map(old(out)@).insert(key@, hash@),
{
    proof {
        lemma_text_order();
    }
    let ghost to = |a: Seq<char>, b: Seq<char>| text_order(a, b);
    let ghost o0 = out@;
    let mut q: usize = 0;
    let mut c: i8 = 1;
    while q < out.len() && c > 0
        invariant
            q <= out@.len(),
            out@ == o0,
            to == (|a: Seq<char>, b: Seq<char>| text_order(a, b)),
            is_order(to),
            c > 0 ==> forall|x: int| 0 <= x < q ==> text_order(key@, (#[trigger] out@[x]).0@) > 0,
            c <= 0 ==> 0 < q && q <= out@.len() && text_order(key@, out@[q - 1].0@) == c && forall|
                x: int,
            | 0 <= x < q - 1 ==> text_order(key@, (#[trigger] out@[x]).0@) > 0,
            -1 <= c <= 1,
        decreases out@.len() - q,
    {
        c = compare_text(key, &chars_of(out[q].0.as_str()));
        proof {
            assert(-1 <= to(key@, out@[q as int].0@) <= 1);
        }
        q = q + 1;
    }
    assert forall|a: int, b: int| 0 <= a < b < o0.len() implies (#[trigger] o0[a]).0@ != (
    #[trigger] o0[b]).0@ by {
        assert(to(o0[a].0@, o0[b].0@) < 0);
    }
    let entry = (string_of(key), hash);
    if c == 0 {
        let at = q - 1;
        proof {
            assert(to(key@, o0[at as int].0@) == 0);
        }
        out.set(at, entry);
        proof {
            lemma_as_map_update(o0, at as int, entry);
            assert(out@ == o0.update(at as int, entry));
            assert forall|a: int, b: int| 0 <= a < b < out@.len() implies text_order(
                (#[trigger] out@[a]).0@,
                (#[trigger] out@[b]).0@,
            ) < 0 by {
                assert(out@[a].0@ == o0[a].0@);
                assert(out@[b].0@ == o0[b].0@);
            }
        }
    } else {
        let at: usize = if c < 0 {
            q - 1
        } else {
            q
        };
        out.insert(at, entry);
        proof {
            o0.insert_ensures(at as int, entry);
            assert(out@ =~= o0.insert(at as int, entry));
            assert forall|x: int| 0 <= x < at implies to((#[trigger] o0[x]).0@, key@) < 0 by {
                assert(to(key@, o0[x].0@) > 0);
                assert(to(o0[x].0@, key@) == -to(key@, o0[x].0@));
            }
            assert forall|x: int| at <= x < o0.len() implies to(key@, (#[trigger] o0[x]).0@) < 0 by {
                if x > at {
                    assert(to(o0[at as int].0@, o0[x].0@) < 0);
                    assert(to(key@, o0[at as int].0@) < 0);
                }
            }
            assert forall|j: int| 0 <= j < o0.len() implies (#[trigger] o0[j]).0@ != key@ by {
                if j < at {
                    assert(to(o0[j].0@, key@) < 0);
                } else {
                    assert(to(key@, o0[j].0@) < 0);
                }
            }
            lemma_as_map_insert(o0, at as int, entry);
            assert forall|a: int, b: int| 0 <= a < b < out@.len() implies text_order(
                (#[trigger] out@[a]).0@,
                (#[trigger] out@[b]).0@,
            ) < 0 by {
                if b < at {
                    assert(out@[a] == o0[a] && out@[b] == o0[b]);
                } else if b == at {
                    assert(out@[a] == o0[a]);
                } else if a == at {
                    assert(out@[b] == o0[b - 1]);
                } else if a < at {
                    assert(out@[a] == o0[a] && out@[b] == o0[b - 1]);
                    assert(to(o0[a].0@, key@) < 0 && to(key@, o0[b - 1].0@) < 0);
                } else {
                    assert(out@[a] == o0[a - 1] && out@[b] == o0[b - 1]);
                }
            }
        }
    }
}

/// Build a manifest of the published tree — relative path → content hash,
/// ordered by path — from every file under it, given as its path components
/// and its hash. Files under a dot-named folder, and dotfiles, are left out.
pub fn manifest_of(files: &[(Vec<String>, String)]) -> (r: Vec<(String, String)>)
    ensures
        keys_ascending(r@),
        as_map(r@) == manifest_map(files_view(files@)),
{
    let ghost fv = files_view(files@);
    let mut out: Vec<(String, String)> = Vec::new();
    let mut i: usize = 0;
    assert(fv.take(0) =~= Seq::<(Seq<Seq<char>>, Seq<char>)>::empty());
    assert(as_map(out@) =~= Map::<Seq<char>, Seq<char>>::empty());
    while i < files.len()
        invariant
            i <= files@.len(),
            fv == files_view(files@),
            keys_ascending(out@),
            as_map(out@) == manifest_map(fv.take(i as int)),
        decreases files@.len() - i,
    {
        let comps = &files[i].0;
        let ghost cv = list_view(comps@);
        let mut visible = true;
        let mut j: usize = 0;
        while j < comps.len()
            invariant
                j <= comps@.len(),
                cv == list_view(comps@),
                visible == forall|x: int| 0 <= x < j ==> !dot_name(#[trigger] cv[x]),
            decreases comps@.len() - j,
        {
            let dot = first_is_dot_of(&comps[j]);
            proof {
                assert(cv[j as int] == comps@[j as int]@);
            }
            visible = visible && !dot;
            j = j + 1;
        }
        let ghost t = fv.take(i + 1);
        proof {
            assert(t.drop_last() =~= fv.take(i as int));
            assert(t.last() == fv[i as int]);
            assert(fv[i as int] == (cv, files@[i as int].1@));
            assert(visible == listed(cv));
        }
        if visible {
            let mut parts: Vec<Vec<char>> = Vec::new();
            let mut j: usize = 0;
            while j < comps.len()
                invariant
                    j <= comps@.len(),
                    cv == list_view(comps@),
                    views(parts@) == cv.take(j as int),
                decreases comps@.len() - j,
            {
                let ghost p0 = views(parts@);
                parts.push(chars_of(comps[j].as_str()));
                proof {
                    assert(views(parts@) =~= p0.push(cv[j as int]));
                    assert(cv.take(j + 1) =~= cv.take(j as int).push(cv[j as int]));
                }
                j = j + 1;
            }
            assert(cv.take(comps@.len() as int) =~= cv);
            let mut slash: Vec<char> = Vec::new();
            slash.push('/');
            assert(slash@ =~= seq!['/']);
            let key = join_with(&parts, &slash);
            let hash = string_of(&chars_of(files[i].1.as_str()));
            put_entry(&mut out, &key, hash);
        }
        i = i + 1;
    }
    assert(fv.take(files@.len() as int) =~= fv);
    out
}


// ------------------------------------------------------------ photo pass

/// What publishing does with one selected photo.
#[derive(Debug, Clone, Copy, PartialEq, Eq, Structural)]
pub enum PublishStep {
    /// Not shipped: nothing could decode it, or developing it failed though
    /// its original is there.
    Unrenderable,
    /// Not shipped: its original is gone.
    Missing,
    /// Already in place with identical bytes; nothing rewritten.
    Skip,
    /// Copied into the published folder.
    Copy,
}

/// The decision for one photo. A photograph with no recorded dimensions was
/// never decoded, so it is not shipped. Otherwise what ships is the developed
/// frame (`developed` is `None` when developing it failed): a failure is
/// unrenderable where the original is there and missing where it is not; a
/// destination that already holds exactly the bytes to ship is left alone; a
/// source that is not there is missing; anything else is copied.
pub open spec fn publish_step_spec(
    kind: PhotoKind,
    width: Option<u32>,
    height: Option<u32>,
    developed: Option<bool>,
    original_exists: bool,
    dest_same: bool,
    src_exists: bool,
) -> PublishStep {
    if kind == PhotoKind::Photo && width is None && height is None {
        PublishStep::Unrenderable
    } else {
        match developed {
            None => if original_exists {
                PublishStep::Unrenderable
            } else {
                PublishStep::Missing
            },
            Some(_) => if dest_same {
                PublishStep::Skip
            } else if !src_exists {
                PublishStep::Missing
            } else {
                PublishStep::Copy
            },
        }
    }
}

/// Decide what happens to one photo: its kind and recorded dimensions, how
/// developing it went (`Some(true)` a developed file, `Some(false)` the
/// original itself, `None` a failure), whether its original is on disk,
/// whether the destination already holds exactly the bytes to ship, and
/// whether the file to ship is there.
pub fn publish_step(
    kind: PhotoKind,
    width: Option<u32>,
    height: Option<u32>,
    developed: Option<bool>,
    original_exists: bool,
    dest_same: bool,
    src_exists: bool,
) -> (r: PublishStep)
    ensures
        r == publish_step_spec(kind, width, height, developed, original_exists, dest_same, src_exists),
{
    if kind == PhotoKind::Photo && width.is_none() && height.is_none() {
        return PublishStep::Unrenderable;
    }
    match developed {
        None => if original_exists {
            PublishStep::Unrenderable
        } else {
            PublishStep::Missing
        },
        Some(_) => if dest_same {
            PublishStep::Skip
        } else if !src_exists {
            PublishStep::Missing
        } else {
            PublishStep::Copy
        },
    }
}

/// Whether the file to ship must be transcoded first: the photo ships under
/// another name (a HEIF frame as `.jpg`) and what would ship is the original
/// itself, whose bytes would then wear the wrong extension.
pub fn needs_transcode(filename: &str, developed: bool) -> (r: bool)
    ensures
        r == (published_name(filename@) != filename@ && !developed),
{
    if developed {
        return false;
    }
    let published = published_filename(filename);
    !same(&chars_of(published.as_str()), &chars_of(filename))
}

/// Record one photo's step in the result: its path among the unrenderable
/// or missing ones, or its published path among the written ones, counted as
/// skipped, or as copied with the bytes the copy wrote.
pub fn record_photo(
    result: &mut PublishResult,
    album_path: &str,
    rel_path: &str,
    published: &str,
    s: PublishStep,
    copied: u64,
)
    requires
        old(result).photos_copied < usize::MAX,
        old(result).photos_skipped < usize::MAX,
        s == PublishStep::Copy ==> old(result).bytes_copied + copied <= u64::MAX,
    ensures
        list_view(final(result).unrenderable@) == if s == PublishStep::Unrenderable {
            list_view(old(result).unrenderable@).push(rel_path@)
        } else {
            list_view(old(result).unrenderable@)
        },
        list_view(final(result).missing@) == if s == PublishStep::Missing {
            list_view(old(result).missing@).push(rel_path@)
        } else {
            list_view(old(result).missing@)
        },
        list_view(final(result).written@) == if s == PublishStep::Skip || s == PublishStep::Copy {
            list_view(old(result).written@).push(album_path@ + seq!['/'] + published@)
        } else {
            list_view(old(result).written@)
        },
        final(result).photos_skipped == old(result).photos_skipped + if s == PublishStep::Skip { 1int } else { 0int },
        final(result).photos_copied == old(result).photos_copied + if s == PublishStep::Copy { 1int } else { 0int },
        final(result).bytes_copied == old(result).bytes_copied + if s == PublishStep::Copy { copied as int } else { 0int },
        final(result).album_path@ == old(result).album_path@,
        final(result).removed@ == old(result).removed@,
        final(result).collisions@ == old(result).collisions@,
{
    let ghost u0 = list_view(result.unrenderable@);
    let ghost m0 = list_view(result.missing@);
    let ghost w0 = list_view(result.written@);
    match s {
        PublishStep::Unrenderable => {
            result.unrenderable.push(rel_path.to_string());
        },
        PublishStep::Missing => {
            result.missing.push(rel_path.to_string());
        },
        PublishStep::Skip | PublishStep::Copy => {
            let mut w = chars_of(album_path);
            w.push('/');
            extend(&mut w, &chars_of(published));
            assert(w@ =~= album_path@ + seq!['/'] + published@);
            let line = string_of(&w);
            result.written.push(line);
            assert(list_view(result.written@) =~= w0.push(album_path@ + seq!['/'] + published@));
            if s == PublishStep::Skip {
                result.photos_skipped = result.photos_skipped + 1;
            } else {
                result.photos_copied = result.photos_copied + 1;
                result.bytes_copied = result.bytes_copied + copied;
            }
        },
    }
    proof {
        assert(list_view(result.unrenderable@) =~= if s == PublishStep::Unrenderable { u0.push(rel_path@) } else { u0 });
        assert(list_view(result.missing@) =~= if s == PublishStep::Missing { m0.push(rel_path@) } else { m0 });
        assert(list_view(result.written@) =~= if s == PublishStep::Skip || s == PublishStep::Copy {
            w0.push(album_path@ + seq!['/'] + published@)
        } else {
            w0
        });
    }
}


// ---------------------------------------------------------------- body.md

/// What publishing does with an album's `body.md`.
#[derive(Debug, Clone, PartialEq, Eq)]
pub enum BodyStep {
    /// Write this prose.
    Write(String),
    /// Remove the file: the album has no prose now, and this library's
    /// record names the file as its own.
    Remove,
    /// Leave the folder alone: no prose, and no file of this library's.
    Leave,
}

/// The name `body.md` goes by in an album's published record.
pub open spec fn body_name() -> Seq<char> {
    "body.md"@
}

/// Prose is written trimmed, and only when some is left. Without it, a
/// `body.md` is removed only where the record of what this library published
/// names it — publishing only ever removes a file it put there itself.
pub open spec fn body_step_spec(body: Option<Seq<char>>, recorded: Seq<Seq<char>>) -> Option<Option<Seq<char>>> {
    match body {
        Some(b) if trim(b).len() > 0 => Some(Some(trim(b))),
        _ => if recorded.contains(body_name()) {
            Some(None)
        } else {
            None
        },
    }
}

/// Decide what happens to `body.md`, given the album's prose and the names
/// this library last recorded as published into the album. A publish that
/// writes the file records it among the album's published names
/// ([`recorded_with_body`]), which is what later allows its removal.
pub fn body_step(body: &Option<String>, recorded: &[String]) -> (r: BodyStep)
    ensures
        body_step_spec(
            match body {
                Some(b) => Some(b@),
                None => None,
            },
            list_view(recorded@),
        ) == match r {
            BodyStep::Write(t) => Some(Some(t@)),
            BodyStep::Remove => Some(None),
            BodyStep::Leave => None,
        },
{
    if let Some(b) = body {
        let t = trimmed(&chars_of(b.as_str()));
        if t.len() > 0 {
            return BodyStep::Write(string_of(&t));
        }
    }
    let name = chars_of("body.md");
    let mut i: usize = 0;
    while i < recorded.len()
        invariant
            i <= recorded@.len(),
            name@ == body_name(),
            forall|k: int| 0 <= k < i ==> list_view(recorded@)[k] != body_name(),
            match body {
                Some(b) => trim(b@).len() == 0,
                None => true,
            },
        decreases recorded@.len() - i,
    {
        if same(&chars_of(recorded[i].as_str()), &name) {
            proof {
                assert(list_view(recorded@)[i as int] == body_name());
            }
            return BodyStep::Remove;
        }
        i = i + 1;
    }
    proof {
        if list_view(recorded@).contains(body_name()) {
            let k = choose|k: int| 0 <= k < list_view(recorded@).len() && list_view(recorded@)[k] == body_name();
            assert(false);
        }
    }
    BodyStep::Leave
}

/// The names to record as published into an album: the photos' published
/// names, and `body.md` when this publish wrote one.
pub fn recorded_with_body(names: Vec<String>, wrote_body: bool) -> (r: Vec<String>)
    ensures
        list_view(r@) == if wrote_body {
            list_view(names@).push(body_name())
        } else {
            list_view(names@)
        },
{
    let mut out = names;
    let ghost before = list_view(out@);
    if wrote_body {
        let b = string_of(&chars_of("body.md"));
        out.push(b);
        proof {
            assert(list_view(out@) =~= before.push(body_name()));
        }
    }
    out
}


// ------------------------------------------------------------ selection laws

/// While rejects are excluded, a rejected photo is never published — a
/// photograph, a video or anything else, at any rating.
pub proof fn lemma_rejects_stay_out(o: PublishOptions, kind: PhotoKind, rating: u8)
    requires
        o.exclude_rejected,
    ensures
        !selected(o, kind, Flag::Reject, rating),
{
}

/// A RAW file is never published, and neither is a photo rated below the
/// minimum; every other album member — videos included — is published
/// unless it is a reject that the options exclude.
pub proof fn lemma_selection_rules(o: PublishOptions, kind: PhotoKind, flag: Flag, rating: u8)
    ensures
        kind == PhotoKind::Raw ==> !selected(o, kind, flag, rating),
        (o.min_rating matches Some(m) && rating < m) ==> !selected(o, kind, flag, rating),
        (kind != PhotoKind::Raw && !(o.exclude_rejected && flag == Flag::Reject) && match o.min_rating {
            Some(m) => rating >= m,
            None => true,
        }) ==> selected(o, kind, flag, rating),
        !o.exclude_rejected && o.min_rating is None ==> (selected(o, kind, flag, rating) <==> kind
            != PhotoKind::Raw),
{
}

} // verus!
