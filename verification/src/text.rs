//! Character-level helpers every other module builds on.
//!
//! Strings are worked on as sequences of `char`, which is what `str@` views
//! them as, and turned back into `String` at the edges. Each helper states the
//! standard-library behaviour it stands for as a spec function, so the modules
//! above can state their contracts over the same vocabulary.

use vstd::prelude::*;

verus! {

// ------------------------------------------------------------ conversions

/// The characters of a string slice, in order.
pub fn chars_of(s: &str) -> (v: Vec<char>)
    ensures
        v@ == s@,
{
    let mut v: Vec<char> = Vec::new();
    for c in it: s.chars()
        invariant
            v@ == it.seq().take(it.index() as int),
            it.seq() == s@,
    {
        v.push(c);
    }
    v
}

/// `String::push`: append one character.
#[verifier::external_body]
fn push_char(s: &mut String, c: char)
    ensures
        final(s)@ == old(s)@.push(c),
{
    s.push(c);
}

/// A `String` holding exactly these characters.
pub fn string_of(v: &[char]) -> (s: String)
    ensures
        s@ == v@,
{
    let mut s = String::new();
    let mut i: usize = 0;
    while i < v.len()
        invariant
            i <= v@.len(),
            s@ == v@.take(i as int),
        decreases v@.len() - i,
    {
        push_char(&mut s, v[i]);
        proof {
            assert(v@.take(i as int).push(v@[i as int]) =~= v@.take(i + 1));
        }
        i = i + 1;
    }
    proof {
        assert(v@.take(v@.len() as int) =~= v@);
    }
    s
}

/// Characters `from..to` of `v`, copied.
pub fn slice_of(v: &[char], from: usize, to: usize) -> (r: Vec<char>)
    requires
        from <= to <= v@.len(),
    ensures
        r@ == v@.subrange(from as int, to as int),
{
    let mut r: Vec<char> = Vec::new();
    let mut i: usize = from;
    while i < to
        invariant
            from <= i <= to <= v@.len(),
            r@ == v@.subrange(from as int, i as int),
        decreases to - i,
    {
        r.push(v[i]);
        proof {
            assert(v@.subrange(from as int, i as int).push(v@[i as int]) =~= v@.subrange(
                from as int,
                i + 1,
            ));
        }
        i = i + 1;
    }
    r
}

/// Append every character of `b` to `a`.
pub fn extend(a: &mut Vec<char>, b: &[char])
    ensures
        final(a)@ == old(a)@ + b@,
{
    let ghost a0 = a@;
    let mut i: usize = 0;
    while i < b.len()
        invariant
            i <= b@.len(),
            a@ == a0 + b@.take(i as int),
        decreases b@.len() - i,
    {
        a.push(b[i]);
        proof {
            assert(a0 + b@.take(i as int) + seq![b@[i as int]] =~= a0 + b@.take(i + 1));
        }
        i = i + 1;
    }
    proof {
        assert(b@.take(b@.len() as int) =~= b@);
    }
}

/// Whether two character sequences are the same.
pub fn same(a: &[char], b: &[char]) -> (r: bool)
    ensures
        r == (a@ == b@),
{
    if a.len() != b.len() {
        return false;
    }
    let mut i: usize = 0;
    while i < a.len()
        invariant
            a@.len() == b@.len(),
            i <= a@.len(),
            forall|j: int| 0 <= j < i ==> a@[j] == b@[j],
        decreases a@.len() - i,
    {
        if a[i] != b[i] {
            return false;
        }
        i = i + 1;
    }
    assert(a@ =~= b@);
    true
}

/// Whether a string slice reads exactly `lit`.
pub fn is(s: &[char], lit: &str) -> (r: bool)
    ensures
        r == (s@ == lit@),
{
    let l = chars_of(lit);
    same(s, &l)
}

/// Whether `c` occurs in `s`.
pub fn contains(s: &[char], c: char) -> (r: bool)
    ensures
        r == s@.contains(c),
{
    let mut i: usize = 0;
    while i < s.len()
        invariant
            i <= s@.len(),
            forall|j: int| 0 <= j < i ==> s@[j] != c,
        decreases s@.len() - i,
    {
        if s[i] == c {
            assert(s@[i as int] == c);
            return true;
        }
        i = i + 1;
    }
    false
}

// ------------------------------------------------------------- whitespace

/// The Unicode `White_Space` property — what `char::is_whitespace` tests and
/// what `str::trim` removes.
pub open spec fn is_space(c: char) -> bool {
    let u = c as u32;
    ||| 0x9 <= u <= 0xd
    ||| u == 0x20
    ||| u == 0x85
    ||| u == 0xa0
    ||| u == 0x1680
    ||| 0x2000 <= u <= 0x200a
    ||| u == 0x2028
    ||| u == 0x2029
    ||| u == 0x202f
    ||| u == 0x205f
    ||| u == 0x3000
}

/// `char::is_whitespace`.
pub fn space(c: char) -> (r: bool)
    ensures
        r == is_space(c),
{
    let u = c as u32;
    (0x9 <= u && u <= 0xd) || u == 0x20 || u == 0x85 || u == 0xa0 || u == 0x1680 || (0x2000
        <= u && u <= 0x200a) || u == 0x2028 || u == 0x2029 || u == 0x202f || u == 0x205f || u
        == 0x3000
}

/// `str::trim_start`.
pub open spec fn trim_start(s: Seq<char>) -> Seq<char>
    decreases s.len(),
{
    if s.len() > 0 && is_space(s[0]) {
        trim_start(s.drop_first())
    } else {
        s
    }
}

/// `str::trim_end`.
pub open spec fn trim_end(s: Seq<char>) -> Seq<char>
    decreases s.len(),
{
    if s.len() > 0 && is_space(s.last()) {
        trim_end(s.drop_last())
    } else {
        s
    }
}

/// `str::trim`.
pub open spec fn trim(s: Seq<char>) -> Seq<char> {
    trim_end(trim_start(s))
}

/// Where the characters that `trim_start` keeps begin.
pub fn trim_start_at(v: &[char]) -> (i: usize)
    ensures
        i <= v@.len(),
        trim_start(v@) == v@.skip(i as int),
{
    let mut i: usize = 0;
    assert(v@.skip(0) =~= v@);
    while i < v.len() && space(v[i])
        invariant
            i <= v@.len(),
            trim_start(v@) == trim_start(v@.skip(i as int)),
        decreases v@.len() - i,
    {
        proof {
            assert(v@.skip(i as int).drop_first() =~= v@.skip(i + 1));
        }
        i = i + 1;
    }
    proof {
        if i == v@.len() {
            assert(v@.skip(i as int) =~= Seq::<char>::empty());
        }
    }
    i
}

/// Where the characters that `trim_end` keeps, out of `v[from..]`, end.
pub fn trim_end_at(v: &[char], from: usize) -> (j: usize)
    requires
        from <= v@.len(),
    ensures
        from <= j <= v@.len(),
        trim_end(v@.skip(from as int)) == v@.subrange(from as int, j as int),
{
    let mut j: usize = v.len();
    while j > from && space(v[j - 1])
        invariant
            from <= j <= v@.len(),
            trim_end(v@.skip(from as int)) == trim_end(v@.subrange(from as int, j as int)),
        decreases j,
    {
        proof {
            assert(v@.subrange(from as int, j as int).drop_last() =~= v@.subrange(
                from as int,
                j - 1,
            ));
        }
        j = j - 1;
    }
    proof {
        assert(v@.skip(from as int) =~= v@.subrange(from as int, v@.len() as int));
    }
    j
}

/// `str::trim`, copied.
pub fn trimmed(v: &[char]) -> (r: Vec<char>)
    ensures
        r@ == trim(v@),
{
    let i = trim_start_at(v);
    let j = trim_end_at(v, i);
    slice_of(v, i, j)
}

/// `str::trim_end`, copied.
pub fn trimmed_end(v: &[char]) -> (r: Vec<char>)
    ensures
        r@ == trim_end(v@),
{
    let j = trim_end_at(v, 0);
    proof {
        assert(v@.skip(0) =~= v@);
    }
    slice_of(v, 0, j)
}

/// `str::trim_start`, copied.
pub fn trimmed_start(v: &[char]) -> (r: Vec<char>)
    ensures
        r@ == trim_start(v@),
{
    let i = trim_start_at(v);
    slice_of(v, i, v.len())
}


// ------------------------------------------------------------ searching

/// The views of a list of character vectors.
pub open spec fn views(v: Seq<Vec<char>>) -> Seq<Seq<char>> {
    v.map_values(|x: Vec<char>| x@)
}

/// Index of the first `c` in `s` — what `str::find` answers, in characters.
pub open spec fn find(s: Seq<char>, c: char) -> Option<int>
    decreases s.len(),
{
    if s.len() == 0 {
        None
    } else if s[0] == c {
        Some(0)
    } else {
        match find(s.drop_first(), c) {
            Some(i) => Some(i + 1),
            None => None,
        }
    }
}

/// Index of the last `c` in `s` — what `str::rfind` answers.
pub open spec fn rfind(s: Seq<char>, c: char) -> Option<int>
    decreases s.len(),
{
    if s.len() == 0 {
        None
    } else if s.last() == c {
        Some(s.len() - 1)
    } else {
        rfind(s.drop_last(), c)
    }
}

/// What [`find`] means: the first occurrence, or none at all.
pub proof fn lemma_find(s: Seq<char>, c: char)
    ensures
        match find(s, c) {
            Some(i) => 0 <= i < s.len() && s[i] == c && forall|j: int| 0 <= j < i ==> s[j] != c,
            None => forall|j: int| 0 <= j < s.len() ==> s[j] != c,
        },
    decreases s.len(),
{
    if s.len() > 0 && s[0] != c {
        lemma_find(s.drop_first(), c);
        assert forall|j: int| 1 <= j < s.len() implies s[j] == s.drop_first()[j - 1] by {}
    }
}

/// What [`rfind`] means: the last occurrence, or none at all.
pub proof fn lemma_rfind(s: Seq<char>, c: char)
    ensures
        match rfind(s, c) {
            Some(i) => 0 <= i < s.len() && s[i] == c && forall|j: int| i < j < s.len() ==> s[j]
                != c,
            None => forall|j: int| 0 <= j < s.len() ==> s[j] != c,
        },
    decreases s.len(),
{
    if s.len() > 0 && s.last() != c {
        lemma_rfind(s.drop_last(), c);
        assert forall|j: int| 0 <= j < s.len() - 1 implies s[j] == s.drop_last()[j] by {}
    }
}

/// The first `c` in `v`.
pub fn index_of(v: &[char], c: char) -> (r: Option<usize>)
    ensures
        match r {
            Some(i) => find(v@, c) == Some(i as int),
            None => find(v@, c) is None,
        },
{
    let mut i: usize = 0;
    while i < v.len()
        invariant
            i <= v@.len(),
            forall|j: int| 0 <= j < i ==> v@[j] != c,
        decreases v@.len() - i,
    {
        if v[i] == c {
            proof {
                lemma_find(v@, c);
            }
            return Some(i);
        }
        i = i + 1;
    }
    proof {
        lemma_find(v@, c);
    }
    None
}

/// The last `c` in `v`.
pub fn last_index_of(v: &[char], c: char) -> (r: Option<usize>)
    ensures
        match r {
            Some(i) => rfind(v@, c) == Some(i as int),
            None => rfind(v@, c) is None,
        },
{
    let mut j: usize = v.len();
    while j > 0
        invariant
            j <= v@.len(),
            forall|k: int| j <= k < v@.len() ==> v@[k] != c,
        decreases j,
    {
        if v[j - 1] == c {
            proof {
                lemma_rfind(v@, c);
            }
            return Some(j - 1);
        }
        j = j - 1;
    }
    proof {
        lemma_rfind(v@, c);
    }
    None
}

/// `str::split_once` on one character.
pub open spec fn split_once(s: Seq<char>, c: char) -> Option<(Seq<char>, Seq<char>)> {
    match find(s, c) {
        Some(i) => Some((s.take(i), s.skip(i + 1))),
        None => None,
    }
}

/// `str::rsplit_once` on one character.
pub open spec fn rsplit_once(s: Seq<char>, c: char) -> Option<(Seq<char>, Seq<char>)> {
    match rfind(s, c) {
        Some(i) => Some((s.take(i), s.skip(i + 1))),
        None => None,
    }
}

/// `str::starts_with`.
pub open spec fn starts_with(s: Seq<char>, p: Seq<char>) -> bool {
    p.len() <= s.len() && s.take(p.len() as int) == p
}

/// Whether `v[at..]` begins with `p`.
pub fn starts_at(v: &[char], at: usize, p: &[char]) -> (r: bool)
    requires
        at <= v@.len(),
    ensures
        r == starts_with(v@.skip(at as int), p@),
{
    if p.len() > v.len() - at {
        return false;
    }
    let end = at + p.len();
    let mut i: usize = at;
    while i < end
        invariant
            at <= i <= end,
            end == at + p@.len(),
            end <= v@.len(),
            forall|j: int| 0 <= j < i - at ==> v@[at + j] == p@[j],
        decreases end - i,
    {
        if v[i] != p[i - at] {
            assert(v@.skip(at as int).take(p@.len() as int)[i - at] != p@[i - at]);
            return false;
        }
        i = i + 1;
    }
    assert(v@.skip(at as int).take(p@.len() as int) =~= p@);
    true
}

/// `str::starts_with`.
pub fn begins(v: &[char], p: &[char]) -> (r: bool)
    ensures
        r == starts_with(v@, p@),
{
    assert(v@.skip(0) =~= v@);
    starts_at(v, 0, p)
}

/// Index of the first place `p` occurs in `s` — `str::find` with a string.
pub open spec fn find_seq(s: Seq<char>, p: Seq<char>) -> Option<int>
    decreases s.len(),
{
    if starts_with(s, p) {
        Some(0)
    } else if s.len() == 0 {
        None
    } else {
        match find_seq(s.drop_first(), p) {
            Some(i) => Some(i + 1),
            None => None,
        }
    }
}

/// What [`find_seq`] means: the first occurrence, or none at all.
pub proof fn lemma_find_seq(s: Seq<char>, p: Seq<char>)
    ensures
        match find_seq(s, p) {
            Some(i) => 0 <= i <= s.len() && starts_with(s.skip(i), p) && forall|j: int|
                0 <= j < i ==> !starts_with(#[trigger] s.skip(j), p),
            None => forall|j: int| 0 <= j <= s.len() ==> !starts_with(#[trigger] s.skip(j), p),
        },
    decreases s.len(),
{
    assert(s.skip(0) =~= s);
    if !starts_with(s, p) && s.len() > 0 {
        lemma_find_seq(s.drop_first(), p);
        assert forall|j: int| 1 <= j <= s.len() implies s.skip(j) =~= #[trigger] s.drop_first().skip(j - 1) by {}
        match find_seq(s.drop_first(), p) {
            Some(i) => {
                assert(s.skip(i + 1) =~= s.drop_first().skip(i));
                assert forall|j: int| 0 <= j < i + 1 implies !starts_with(#[trigger] s.skip(j), p) by {
                    if j > 0 {
                        assert(s.skip(j) =~= s.drop_first().skip(j - 1));
                    }
                }
            },
            None => {
                assert forall|j: int| 0 <= j <= s.len() implies !starts_with(#[trigger] s.skip(j), p) by {
                    if j > 0 {
                        assert(s.skip(j) =~= s.drop_first().skip(j - 1));
                    }
                }
            },
        }
    }
}

/// The first place `p` occurs in `v`.
pub fn index_of_seq(v: &[char], p: &[char]) -> (r: Option<usize>)
    ensures
        match r {
            Some(i) => find_seq(v@, p@) == Some(i as int),
            None => find_seq(v@, p@) is None,
        },
{
    let mut i: usize = 0;
    loop
        invariant
            i <= v@.len(),
            forall|j: int| 0 <= j < i ==> !starts_with(#[trigger] v@.skip(j), p@),
        decreases v@.len() - i,
    {
        if starts_at(v, i, p) {
            proof {
                lemma_find_seq(v@, p@);
                match find_seq(v@, p@) {
                    Some(k) => {
                        if k < i {
                            assert(!starts_with(v@.skip(k), p@));
                        }
                        assert(k <= i);
                    },
                    None => {
                        assert(!starts_with(v@.skip(i as int), p@));
                    },
                }
            }
            return Some(i);
        }
        if i == v.len() {
            proof {
                lemma_find_seq(v@, p@);
                match find_seq(v@, p@) {
                    Some(k) => {
                        assert(!starts_with(v@.skip(k), p@));
                    },
                    None => {},
                }
            }
            return None;
        }
        i = i + 1;
    }
}

// -------------------------------------------------------- split and join

/// `str::split` on one character: the pieces between the separators, so `n`
/// separators give `n + 1` pieces.
pub open spec fn split(s: Seq<char>, c: char) -> Seq<Seq<char>>
    decreases s.len(),
{
    if s.len() == 0 {
        seq![Seq::<char>::empty()]
    } else {
        let prev = split(s.drop_last(), c);
        if s.last() == c {
            prev.push(Seq::<char>::empty())
        } else {
            prev.update(prev.len() - 1, prev.last().push(s.last()))
        }
    }
}

/// There is always at least one piece.
pub proof fn lemma_split_len(s: Seq<char>, c: char)
    ensures
        split(s, c).len() >= 1,
    decreases s.len(),
{
    if s.len() > 0 {
        lemma_split_len(s.drop_last(), c);
    }
}

/// `slice::join` with a separator.
pub open spec fn join(parts: Seq<Seq<char>>, sep: Seq<char>) -> Seq<char>
    decreases parts.len(),
{
    if parts.len() == 0 {
        Seq::<char>::empty()
    } else if parts.len() == 1 {
        parts[0]
    } else {
        join(parts.drop_last(), sep) + sep + parts.last()
    }
}

/// Cut `v` at every `c`.
pub fn split_on(v: &[char], c: char) -> (r: Vec<Vec<char>>)
    ensures
        views(r@) == split(v@, c),
{
    let mut pieces: Vec<Vec<char>> = Vec::new();
    let mut cur: Vec<char> = Vec::new();
    let mut i: usize = 0;
    assert(v@.take(0) =~= Seq::<char>::empty());
    assert(views(pieces@).push(cur@) =~= seq![Seq::<char>::empty()]);
    while i < v.len()
        invariant
            i <= v@.len(),
            split(v@.take(i as int), c) == views(pieces@).push(cur@),
        decreases v@.len() - i,
    {
        let ch = v[i];
        proof {
            lemma_split_len(v@.take(i as int), c);
            assert(v@.take(i + 1).drop_last() =~= v@.take(i as int));
            assert(v@.take(i + 1).last() == ch);
        }
        if ch == c {
            let done = cur;
            pieces.push(done);
            cur = Vec::new();
            proof {
                assert(views(pieces@).push(cur@) =~= split(v@.take(i as int), c).push(
                    Seq::<char>::empty(),
                ));
            }
        } else {
            let ghost old_pieces = pieces@;
            cur.push(ch);
            proof {
                let prev = split(v@.take(i as int), c);
                assert(views(pieces@).push(cur@) =~= prev.update(
                    prev.len() - 1,
                    prev.last().push(ch),
                ));
            }
        }
        i = i + 1;
    }
    pieces.push(cur);
    proof {
        assert(v@.take(v@.len() as int) =~= v@);
    }
    pieces
}

/// Concatenate the parts with `sep` between each pair.
pub fn join_with(parts: &Vec<Vec<char>>, sep: &[char]) -> (r: Vec<char>)
    ensures
        r@ == join(views(parts@), sep@),
{
    let mut r: Vec<char> = Vec::new();
    let mut i: usize = 0;
    assert(views(parts@).take(0) =~= Seq::<Seq<char>>::empty());
    while i < parts.len()
        invariant
            i <= parts@.len(),
            r@ == join(views(parts@).take(i as int), sep@),
        decreases parts@.len() - i,
    {
        let ghost before = r@;
        if i > 0 {
            extend(&mut r, sep);
        }
        extend(&mut r, &parts[i]);
        proof {
            let t = views(parts@).take(i + 1);
            assert(t.drop_last() =~= views(parts@).take(i as int));
            if i == 0 {
                assert(before =~= Seq::<char>::empty());
                assert(r@ =~= t[0]);
            }
        }
        i = i + 1;
    }
    proof {
        assert(views(parts@).take(parts@.len() as int) =~= views(parts@));
    }
    r
}

/// How many times `c` occurs in `s` — `str::matches(c).count()`.
pub open spec fn count(s: Seq<char>, c: char) -> nat
    decreases s.len(),
{
    if s.len() == 0 {
        0
    } else {
        count(s.drop_last(), c) + if s.last() == c {
            1nat
        } else {
            0nat
        }
    }
}

/// Occurrences add up over a concatenation.
pub proof fn lemma_count_add(a: Seq<char>, b: Seq<char>, c: char)
    ensures
        count(a + b, c) == count(a, c) + count(b, c),
    decreases b.len(),
{
    if b.len() == 0 {
        assert(a + b =~= a);
    } else {
        lemma_count_add(a, b.drop_last(), c);
        assert((a + b).drop_last() =~= a + b.drop_last());
    }
}

/// Splitting at a separator splits each side: the pieces of `a/b` are the
/// pieces of `a` followed by the pieces of `b`.
pub proof fn lemma_split_add(a: Seq<char>, b: Seq<char>, c: char)
    ensures
        split(a + seq![c] + b, c) == split(a, c) + split(b, c),
    decreases b.len(),
{
    if b.len() == 0 {
        assert(a + seq![c] + b =~= a.push(c));
        assert(a.push(c).drop_last() =~= a);
        assert(split(a, c).push(Seq::<char>::empty()) =~= split(a, c) + seq![Seq::<char>::empty()]);
    } else {
        let s = a + seq![c] + b;
        lemma_split_add(a, b.drop_last(), c);
        lemma_split_len(b.drop_last(), c);
        assert(s.drop_last() =~= a + seq![c] + b.drop_last());
        let pa = split(a, c);
        let pb = split(b.drop_last(), c);
        if b.last() == c {
            assert((pa + pb).push(Seq::<char>::empty()) =~= pa + pb.push(Seq::<char>::empty()));
        } else {
            let prev = pa + pb;
            assert(prev.update(prev.len() - 1, prev.last().push(b.last())) =~= pa + pb.update(
                pb.len() - 1,
                pb.last().push(b.last()),
            ));
        }
    }
}

/// Adding a character to the last part adds it to the end of the joined text.
proof fn lemma_join_grow_last(parts: Seq<Seq<char>>, sep: Seq<char>, x: char)
    requires
        parts.len() >= 1,
    ensures
        join(parts.update(parts.len() - 1, parts.last().push(x)), sep) == join(parts, sep).push(x),
{
    let q = parts.update(parts.len() - 1, parts.last().push(x));
    if parts.len() > 1 {
        assert(q.drop_last() =~= parts.drop_last());
        assert(join(q, sep) =~= join(parts, sep).push(x));
    }
}

/// Joining the pieces of a split with the separator gives the text back.
pub proof fn lemma_join_split(s: Seq<char>, c: char)
    ensures
        join(split(s, c), seq![c]) == s,
    decreases s.len(),
{
    if s.len() > 0 {
        let prev = split(s.drop_last(), c);
        lemma_join_split(s.drop_last(), c);
        lemma_split_len(s.drop_last(), c);
        if s.last() == c {
            let q = prev.push(Seq::<char>::empty());
            assert(q.drop_last() =~= prev);
            assert(join(q, seq![c]) =~= s);
        } else {
            lemma_join_grow_last(prev, seq![c], s.last());
            assert(s.drop_last().push(s.last()) =~= s);
        }
    }
}

/// Joining two non-empty runs of parts puts one separator between them.
pub proof fn lemma_join_add(a: Seq<Seq<char>>, b: Seq<Seq<char>>, sep: Seq<char>)
    requires
        a.len() >= 1,
        b.len() >= 1,
    ensures
        join(a + b, sep) == join(a, sep) + sep + join(b, sep),
    decreases b.len(),
{
    if b.len() == 1 {
        assert((a + b).drop_last() =~= a);
    } else {
        lemma_join_add(a, b.drop_last(), sep);
        assert((a + b).drop_last() =~= a + b.drop_last());
        assert(join(a + b, sep) =~= join(a, sep) + sep + join(b, sep));
    }
}

/// A text whose pieces begin with all the pieces of `p` is `p` itself or lies
/// under it: it begins with `p` and the separator.
pub proof fn lemma_split_extends(s: Seq<char>, p: Seq<char>, c: char)
    requires
        split(p, c).len() <= split(s, c).len(),
        split(s, c).take(split(p, c).len() as int) == split(p, c),
    ensures
        s == p || starts_with(s, p + seq![c]),
{
    let sp = split(p, c);
    let ss = split(s, c);
    lemma_join_split(s, c);
    lemma_join_split(p, c);
    lemma_split_len(p, c);
    if ss.len() == sp.len() {
        assert(ss =~= sp);
    } else {
        let rest = ss.skip(sp.len() as int);
        assert(ss =~= sp + rest);
        lemma_join_add(sp, rest, seq![c]);
        let t = p + seq![c];
        assert(s =~= t + join(rest, seq![c]));
        assert(s.take(t.len() as int) =~= t);
    }
}

/// Splitting a join at its separator gives the parts back, when no part
/// holds the separator.
pub proof fn lemma_split_of_join(parts: Seq<Seq<char>>, c: char)
    requires
        parts.len() >= 1,
        forall|i: int| 0 <= i < parts.len() ==> !(#[trigger] parts[i]).contains(c),
    ensures
        split(join(parts, seq![c]), c) == parts,
    decreases parts.len(),
{
    if parts.len() == 1 {
        crate::publish::lemma_split_whole(parts[0], c);
        assert(seq![parts[0]] =~= parts);
    } else {
        let d = parts.drop_last();
        assert forall|i: int| 0 <= i < d.len() implies !(#[trigger] d[i]).contains(c) by {
            assert(d[i] == parts[i]);
        }
        lemma_split_of_join(d, c);
        assert(!parts.last().contains(c)) by {
            assert(parts.last() == parts[parts.len() - 1]);
        }
        crate::publish::lemma_split_whole(parts.last(), c);
        lemma_split_add(join(d, seq![c]), parts.last(), c);
        assert(d + seq![parts.last()] =~= parts);
    }
}

/// How many times `c` occurs in `v`.
pub fn count_of(v: &[char], c: char) -> (n: usize)
    ensures
        n == count(v@, c),
{
    let mut n: usize = 0;
    let mut i: usize = 0;
    assert(v@.take(0) =~= Seq::<char>::empty());
    while i < v.len()
        invariant
            i <= v@.len(),
            n == count(v@.take(i as int), c),
            n <= i,
        decreases v@.len() - i,
    {
        proof {
            assert(v@.take(i + 1).drop_last() =~= v@.take(i as int));
        }
        if v[i] == c {
            n = n + 1;
        }
        i = i + 1;
    }
    proof {
        assert(v@.take(v@.len() as int) =~= v@);
    }
    n
}


// ---------------------------------------------------------------- numbers

/// The ASCII digit for `d`.
pub open spec fn digit(d: nat) -> char {
    ((d + 48) as u8) as char
}

/// Whether `c` is an ASCII digit.
pub open spec fn is_digit(c: char) -> bool {
    '0' <= c <= '9'
}

/// The value of an ASCII digit.
pub open spec fn digit_value(c: char) -> int {
    (c as u32) - 48
}

/// Decimal digits of `n`, most significant first, no leading zeros — how
/// `Display` writes an unsigned integer.
pub open spec fn decimal(n: nat) -> Seq<char>
    decreases n,
{
    if n < 10 {
        seq![digit(n)]
    } else {
        decimal(n / 10).push(digit(n % 10))
    }
}

/// How `Display` writes a signed integer.
pub open spec fn int_text(i: int) -> Seq<char> {
    if i < 0 {
        seq!['-'] + decimal((-i) as nat)
    } else {
        decimal(i as nat)
    }
}

/// Every character is an ASCII digit.
pub open spec fn all_digits(s: Seq<char>) -> bool {
    forall|k: int| 0 <= k < s.len() ==> is_digit(#[trigger] s[k])
}

/// The number a run of ASCII digits spells.
pub open spec fn digits_value(s: Seq<char>) -> int
    decreases s.len(),
{
    if s.len() == 0 {
        0
    } else {
        digits_value(s.drop_last()) * 10 + digit_value(s.last())
    }
}

/// What `<i64 as FromStr>::from_str` accepts, as the integer it reads: an
/// optional sign, then one or more ASCII digits, nothing else.
pub open spec fn parse_int(s: Seq<char>) -> Option<int> {
    if s.len() == 0 {
        None
    } else if s[0] == '+' || s[0] == '-' {
        let r = s.drop_first();
        if r.len() > 0 && all_digits(r) {
            Some(
                if s[0] == '-' {
                    -digits_value(r)
                } else {
                    digits_value(r)
                },
            )
        } else {
            None
        }
    } else if all_digits(s) {
        Some(digits_value(s))
    } else {
        None
    }
}

/// `str::parse::<i64>().ok()`: the integer, unless it does not fit.
pub open spec fn parse_i64(s: Seq<char>) -> Option<i64> {
    match parse_int(s) {
        Some(v) => if i64::MIN <= v <= i64::MAX {
            Some(v as i64)
        } else {
            None
        },
        None => None,
    }
}

proof fn lemma_digit(k: nat)
    requires
        k < 10,
    ensures
        is_digit(digit(k)),
        digit_value(digit(k)) == k,
{
    assert(((k + 48) as u8) as int == k + 48);
}

pub(crate) proof fn lemma_decimal_digits(n: nat)
    ensures
        decimal(n).len() > 0,
        all_digits(decimal(n)),
        digits_value(decimal(n)) == n,
    decreases n,
{
    lemma_digit(n % 10);
    if n < 10 {
        assert(decimal(n).drop_last() =~= Seq::<char>::empty());
        assert(n % 10 == n);
        assert(digits_value(Seq::<char>::empty()) == 0);
        assert(digits_value(decimal(n)) == digits_value(Seq::<char>::empty()) * 10 + digit_value(
            digit(n),
        ));
    }
    if n >= 10 {
        lemma_decimal_digits(n / 10);
        let d = decimal(n / 10);
        assert(decimal(n).drop_last() =~= d);
        assert(decimal(n).last() == digit(n % 10));
        assert(digits_value(decimal(n)) == digits_value(d) * 10 + digit_value(digit(n % 10)));
        assert((n / 10) * 10 + n % 10 == n);
        assert forall|k: int| 0 <= k < decimal(n).len() implies is_digit(#[trigger] decimal(n)[k]) by {
            if k < d.len() {
                assert(decimal(n)[k] == d[k]);
            }
        }
    }
}

/// Reading back what `Display` wrote gives the same integer.
pub proof fn lemma_parse_int_text(i: i64)
    ensures
        parse_i64(int_text(i as int)) == Some(i),
{
    if i < 0 {
        let m = (-i) as nat;
        lemma_decimal_digits(m);
        let t = int_text(i as int);
        assert(t.drop_first() =~= decimal(m));
        assert(t[0] == '-');
    } else {
        lemma_decimal_digits(i as nat);
        let d = decimal(i as nat);
        assert(is_digit(d[0]));
    }
}

/// The decimal text of `n`.
pub fn u64_text(n: u64) -> (r: Vec<char>)
    ensures
        r@ == decimal(n as nat),
    decreases n,
{
    if n < 10 {
        let c = ((n as u8) + 48) as char;
        let mut r: Vec<char> = Vec::new();
        r.push(c);
        proof {
            assert(r@ =~= seq![digit(n as nat)]);
        }
        r
    } else {
        let mut r = u64_text(n / 10);
        let c = (((n % 10) as u8) + 48) as char;
        r.push(c);
        r
    }
}

/// The decimal text of `i`, as `Display` writes it.
pub fn i64_text(i: i64) -> (r: Vec<char>)
    ensures
        r@ == int_text(i as int),
{
    if i < 0 {
        let m: u64 = if i == i64::MIN {
            9223372036854775808u64
        } else {
            (-i) as u64
        };
        let d = u64_text(m);
        let mut r: Vec<char> = Vec::new();
        r.push('-');
        extend(&mut r, &d);
        proof {
            assert(r@ =~= seq!['-'] + decimal((-(i as int)) as nat));
        }
        r
    } else {
        u64_text(i as u64)
    }
}

/// `str::parse::<i64>().ok()`.
pub fn parse_i64_of(s: &[char]) -> (r: Option<i64>)
    ensures
        r == parse_i64(s@),
{
    if s.len() == 0 {
        return None;
    }
    let signed = s[0] == '+' || s[0] == '-';
    let start: usize = if signed {
        1
    } else {
        0
    };
    if start == s.len() {
        return None;
    }
    let ghost body = s@.skip(start as int);
    proof {
        if signed {
            assert(body =~= s@.drop_first());
        } else {
            assert(body =~= s@);
        }
    }
    // The magnitude, held at `cap` once it has passed anything an i64 holds.
    let cap: u128 = 9223372036854775809u128;
    let mut acc: u128 = 0;
    let mut i: usize = start;
    assert(s@.subrange(start as int, start as int) =~= Seq::<char>::empty());
    while i < s.len()
        invariant
            start <= i <= s@.len(),
            body == s@.skip(start as int),
            all_digits(s@.subrange(start as int, i as int)),
            acc as int == if digits_value(s@.subrange(start as int, i as int)) < cap as int {
                digits_value(s@.subrange(start as int, i as int))
            } else {
                cap as int
            },
            acc <= cap,
            cap == 9223372036854775809u128,
            s@.len() > start,
            start as int == (if s@[0] == '+' || s@[0] == '-' {
                1int
            } else {
                0int
            }),
        decreases s@.len() - i,
    {
        let c = s[i];
        if !('0' <= c && c <= '9') {
            proof {
                assert(body[i - start] == c);
                assert(!all_digits(body));
            }
            return None;
        }
        let d = (c as u32 - 48) as u128;
        proof {
            let pre = s@.subrange(start as int, i as int);
            let now = s@.subrange(start as int, i + 1);
            assert(now.drop_last() =~= pre);
            assert(now.last() == c);
            assert forall|k: int| 0 <= k < now.len() implies is_digit(#[trigger] now[k]) by {
                if k < pre.len() {
                    assert(now[k] == pre[k]);
                }
            }
            assert(digits_value(pre) >= 0) by {
                lemma_digits_nonneg(pre);
            }
        }
        let next = acc * 10 + d;
        acc = if next < cap {
            next
        } else {
            cap
        };
        i = i + 1;
    }
    proof {
        assert(s@.subrange(start as int, s@.len() as int) =~= body);
    }
    if s[0] == '-' {
        if acc <= 9223372036854775808u128 {
            let v: i128 = -(acc as i128);
            Some(v as i64)
        } else {
            None
        }
    } else {
        if acc <= 9223372036854775807u128 {
            Some(acc as i64)
        } else {
            None
        }
    }
}

proof fn lemma_digits_nonneg(s: Seq<char>)
    requires
        all_digits(s),
    ensures
        digits_value(s) >= 0,
    decreases s.len(),
{
    if s.len() > 0 {
        assert(all_digits(s.drop_last())) by {
            assert forall|k: int| 0 <= k < s.drop_last().len() implies is_digit(#[trigger] s.drop_last()[k]) by {
                assert(s.drop_last()[k] == s[k]);
            }
        }
        lemma_digits_nonneg(s.drop_last());
        assert(is_digit(s.last()));
    }
}


// ------------------------------------------------------------------- case

/// What `str::to_lowercase` gives for these characters: Unicode's full
/// lowercase mapping, which depends on context (a final sigma) and may change
/// a string's length.
pub uninterp spec fn lowercase(s: Seq<char>) -> Seq<char>;

/// What `char::to_uppercase` gives for one character — one or more
/// characters, per Unicode's uppercase mapping.
pub uninterp spec fn uppercase(c: char) -> Seq<char>;

/// `str::to_lowercase`. The result is a function of the characters alone.
#[verifier::external_body]
pub(crate) fn lowercased(v: &[char]) -> (r: Vec<char>)
    ensures
        r@ == lowercase(v@),
{
    let s: String = v.iter().collect();
    s.to_lowercase().chars().collect()
}

/// `char::to_uppercase`. The result is a function of the character alone.
#[verifier::external_body]
pub(crate) fn uppercased(c: char) -> (r: Vec<char>)
    ensures
        r@ == uppercase(c),
{
    c.to_uppercase().collect()
}


// ------------------------------------------------------------------ lists

/// The views of a list of string slices.
pub open spec fn str_views(list: Seq<&str>) -> Seq<Seq<char>> {
    list.map_values(|s: &str| s@)
}

/// Whether `v` reads exactly one of the strings in `list`.
pub fn one_of(v: &[char], list: &[&str]) -> (r: bool)
    ensures
        r == str_views(list@).contains(v@),
{
    let mut i: usize = 0;
    while i < list.len()
        invariant
            i <= list@.len(),
            forall|j: int| 0 <= j < i ==> list@[j]@ != v@,
        decreases list@.len() - i,
    {
        if is(v, list[i]) {
            assert(str_views(list@)[i as int] == v@);
            return true;
        }
        i = i + 1;
    }
    assert forall|j: int| 0 <= j < str_views(list@).len() implies str_views(list@)[j] != v@ by {
        assert(str_views(list@)[j] == list@[j]@);
    }
    false
}

} // verus!
