//! Three-way orders, written as integers (-1, 0, 1), for the places where the
//! catalog sorts: text the way `str` orders it, and sequences of anything
//! lexicographically, a proper prefix first — the order `Vec` and tuples use.
//!
//! Each order is proved to be a strict total order ([`lemma_lex_total`]), which
//! is what lets a sort state that its output is sorted.

use vstd::prelude::*;

verus! {

/// Whether `el` behaves as a three-way comparison of a strict total order:
/// its value is -1, 0 or 1, 0 exactly on equal values, swapping the arguments
/// flips the sign, and "less than" is transitive.
pub open spec fn is_order<T>(el: spec_fn(T, T) -> int) -> bool {
    &&& forall|x: T, y: T| -1 <= #[trigger] el(x, y) <= 1
    &&& forall|x: T, y: T| (#[trigger] el(x, y) == 0) == (x == y)
    &&& forall|x: T, y: T| #[trigger] el(y, x) == -el(x, y)
    &&& forall|x: T, y: T, z: T|
        #[trigger] el(x, y) < 0 && #[trigger] el(y, z) < 0 ==> el(x, z) < 0
}

/// Lexicographic comparison by `el`: the first differing element decides, and
/// a proper prefix comes first.
pub open spec fn lex<T>(a: Seq<T>, b: Seq<T>, el: spec_fn(T, T) -> int) -> int
    decreases a.len(),
{
    if a.len() == 0 {
        if b.len() == 0 {
            0
        } else {
            -1
        }
    } else if b.len() == 0 {
        1
    } else if el(a[0], b[0]) != 0 {
        el(a[0], b[0])
    } else {
        lex(a.drop_first(), b.drop_first(), el)
    }
}

/// Characters by code point.
pub open spec fn char_order(x: char, y: char) -> int {
    if x < y {
        -1
    } else if x > y {
        1
    } else {
        0
    }
}

/// Text the way `str` orders it: by code point, a proper prefix first. UTF-8
/// keeps code-point order, so this is also the byte order of `String`.
pub open spec fn text_order(a: Seq<char>, b: Seq<char>) -> int {
    lex(a, b, |x: char, y: char| char_order(x, y))
}

/// Integers, as `<` orders them.
pub open spec fn int_order(x: int, y: int) -> int {
    if x < y {
        -1
    } else if x > y {
        1
    } else {
        0
    }
}

/// Lexicographic order is a strict total order when its element order is one.
pub proof fn lemma_lex_total<T>(el: spec_fn(T, T) -> int)
    requires
        is_order(el),
    ensures
        is_order(|a: Seq<T>, b: Seq<T>| lex(a, b, el)),
{
    let l = |a: Seq<T>, b: Seq<T>| lex(a, b, el);
    assert forall|a: Seq<T>, b: Seq<T>| -1 <= #[trigger] l(a, b) <= 1 by {
        lemma_lex_range(a, b, el);
    }
    assert forall|a: Seq<T>, b: Seq<T>| (#[trigger] l(a, b) == 0) == (a == b) by {
        lemma_lex_zero(a, b, el);
    }
    assert forall|a: Seq<T>, b: Seq<T>| #[trigger] l(b, a) == -l(a, b) by {
        lemma_lex_flip(a, b, el);
    }
    assert forall|a: Seq<T>, b: Seq<T>, c: Seq<T>|
        #[trigger] l(a, b) < 0 && #[trigger] l(b, c) < 0 implies l(a, c) < 0 by {
        lemma_lex_trans(a, b, c, el);
    }
}

proof fn lemma_lex_range<T>(a: Seq<T>, b: Seq<T>, el: spec_fn(T, T) -> int)
    requires
        is_order(el),
    ensures
        -1 <= lex(a, b, el) <= 1,
    decreases a.len(),
{
    if a.len() > 0 && b.len() > 0 && el(a[0], b[0]) == 0 {
        lemma_lex_range(a.drop_first(), b.drop_first(), el);
    }
}

proof fn lemma_lex_zero<T>(a: Seq<T>, b: Seq<T>, el: spec_fn(T, T) -> int)
    requires
        is_order(el),
    ensures
        (lex(a, b, el) == 0) == (a == b),
    decreases a.len(),
{
    if a.len() > 0 && b.len() > 0 {
        if el(a[0], b[0]) == 0 {
            lemma_lex_zero(a.drop_first(), b.drop_first(), el);
            if a.drop_first() == b.drop_first() {
                assert(a =~= seq![a[0]] + a.drop_first());
                assert(b =~= seq![b[0]] + b.drop_first());
            }
            if a == b {
                assert(a.drop_first() =~= b.drop_first());
            }
        }
    } else if a.len() == 0 && b.len() == 0 {
        assert(a =~= b);
    }
}

proof fn lemma_lex_flip<T>(a: Seq<T>, b: Seq<T>, el: spec_fn(T, T) -> int)
    requires
        is_order(el),
    ensures
        lex(b, a, el) == -lex(a, b, el),
    decreases a.len(),
{
    if a.len() > 0 && b.len() > 0 {
        assert(el(b[0], a[0]) == -el(a[0], b[0]));
        if el(a[0], b[0]) == 0 {
            lemma_lex_flip(a.drop_first(), b.drop_first(), el);
        }
    }
}

proof fn lemma_lex_trans<T>(a: Seq<T>, b: Seq<T>, c: Seq<T>, el: spec_fn(T, T) -> int)
    requires
        is_order(el),
        lex(a, b, el) < 0,
        lex(b, c, el) < 0,
    ensures
        lex(a, c, el) < 0,
    decreases a.len(),
{
    if a.len() > 0 {
        let (x, y, z) = (a[0], b[0], c[0]);
        let (p, q) = (el(x, y), el(y, z));
        assert(p == 0 ==> x == y);
        assert(q == 0 ==> y == z);
        if p == 0 && q == 0 {
            lemma_lex_trans(a.drop_first(), b.drop_first(), c.drop_first(), el);
        } else if p == 0 {
            assert(el(x, z) == q);
        } else if q == 0 {
            assert(el(x, z) == p);
        } else {
            assert(el(x, z) < 0);
        }
    }
}

/// A proper prefix comes first.
pub proof fn lemma_lex_prefix<T>(a: Seq<T>, b: Seq<T>, el: spec_fn(T, T) -> int)
    requires
        is_order(el),
        a.len() < b.len(),
        b.take(a.len() as int) == a,
    ensures
        lex(a, b, el) == -1,
    decreases a.len(),
{
    if a.len() > 0 {
        assert(b[0] == a[0]) by {
            assert(b.take(a.len() as int)[0] == b[0]);
        }
        assert(el(a[0], b[0]) == 0);
        assert(b.drop_first().take(a.drop_first().len() as int) =~= a.drop_first()) by {
            assert forall|k: int| 0 <= k < a.len() - 1 implies b.drop_first()[k] == a.drop_first()[k] by {
                assert(b.take(a.len() as int)[k + 1] == b[k + 1]);
            }
        }
        lemma_lex_prefix(a.drop_first(), b.drop_first(), el);
    }
}

/// Whatever sorts between `a` and a sequence that begins with `a` begins with
/// `a` too.
pub proof fn lemma_lex_between<T>(a: Seq<T>, b: Seq<T>, c: Seq<T>, el: spec_fn(T, T) -> int)
    requires
        is_order(el),
        a.len() <= c.len(),
        c.take(a.len() as int) == a,
        lex(a, b, el) <= 0,
        lex(b, c, el) <= 0,
    ensures
        a.len() <= b.len(),
        b.take(a.len() as int) == a,
    decreases a.len(),
{
    if a.len() == 0 {
        assert(b.take(0) =~= a);
    } else {
        assert(c[0] == a[0]) by {
            assert(c.take(a.len() as int)[0] == c[0]);
        }
        assert(b.len() > 0);
        if el(a[0], b[0]) != 0 {
            assert(el(b[0], c[0]) == -el(a[0], b[0]));
        }
        assert(el(a[0], b[0]) == 0);
        assert(a[0] == b[0]);
        assert(el(b[0], c[0]) == 0);
        assert(c.drop_first().take(a.drop_first().len() as int) =~= a.drop_first()) by {
            assert forall|k: int| 0 <= k < a.len() - 1 implies c.drop_first()[k] == a.drop_first()[k] by {
                assert(c.take(a.len() as int)[k + 1] == c[k + 1]);
            }
        }
        lemma_lex_between(a.drop_first(), b.drop_first(), c.drop_first(), el);
        assert forall|k: int| 0 <= k < a.len() implies b.take(a.len() as int)[k] == a[k] by {
            if k > 0 {
                assert(b.drop_first().take(a.drop_first().len() as int)[k - 1] == a.drop_first()[k - 1]);
            }
        }
        assert(b.take(a.len() as int) =~= a);
    }
}

/// Characters by code point form a strict total order.
pub proof fn lemma_char_order()
    ensures
        is_order(|x: char, y: char| char_order(x, y)),
{
}

/// Text order is a strict total order.
pub proof fn lemma_text_order()
    ensures
        is_order(|a: Seq<char>, b: Seq<char>| text_order(a, b)),
{
    lemma_char_order();
    lemma_lex_total(|x: char, y: char| char_order(x, y));
    let l = |a: Seq<char>, b: Seq<char>| lex(a, b, |x: char, y: char| char_order(x, y));
    let t = |a: Seq<char>, b: Seq<char>| text_order(a, b);
    assert(t =~= l);
}

/// Three-way comparison of two texts.
pub fn compare_text(a: &[char], b: &[char]) -> (r: i8)
    ensures
        r as int == text_order(a@, b@),
{
    let mut i: usize = 0;
    assert(a@.skip(0) =~= a@);
    assert(b@.skip(0) =~= b@);
    while i < a.len() && i < b.len()
        invariant
            i <= a@.len(),
            i <= b@.len(),
            text_order(a@, b@) == text_order(a@.skip(i as int), b@.skip(i as int)),
        decreases a@.len() - i,
    {
        let x = a[i];
        let y = b[i];
        proof {
            assert(a@.skip(i as int)[0] == x);
            assert(b@.skip(i as int)[0] == y);
            assert(a@.skip(i as int).drop_first() =~= a@.skip(i + 1));
            assert(b@.skip(i as int).drop_first() =~= b@.skip(i + 1));
        }
        if x < y {
            return -1;
        }
        if x > y {
            return 1;
        }
        i = i + 1;
    }
    if i < b.len() {
        -1
    } else if i < a.len() {
        1
    } else {
        0
    }
}

} // verus!
