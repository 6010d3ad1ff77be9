//! Filesystem paths as text, with the meaning `std::path` gives them on a
//! Unix system: `/` separates components, a leading `/` makes a path
//! absolute, empty and `.` components are no components at all.
//!
//! Paths stay strings here so that the rules built on them — where a
//! thumbnail lives, what a file is called, what its extension is — can be
//! stated and checked.

use vstd::prelude::*;

use crate::text::{
    chars_of, extend, is, lemma_rfind, last_index_of, rfind, slice_of, split,
    split_on, views,
};

verus! {

/// The last normal component among `/`-separated pieces: empty and `.`
/// pieces are skipped, and a final `..` has no name.
pub open spec fn last_name(pieces: Seq<Seq<char>>) -> Option<Seq<char>>
    decreases pieces.len(),
{
    if pieces.len() == 0 {
        None
    } else {
        let l = pieces.last();
        if l.len() == 0 || l == seq!['.'] {
            last_name(pieces.drop_last())
        } else if l == seq!['.', '.'] {
            None
        } else {
            Some(l)
        }
    }
}

/// `Path::file_name`: the final component, if it is a normal one.
pub open spec fn file_name(p: Seq<char>) -> Option<Seq<char>> {
    last_name(split(p, '/'))
}

/// The extension of a file name: the text after its last dot, unless there is
/// no dot or the only dot starts the name.
pub open spec fn name_extension(n: Seq<char>) -> Option<Seq<char>> {
    match rfind(n, '.') {
        None => None,
        Some(i) => if i == 0 {
            None
        } else {
            Some(n.skip(i + 1))
        },
    }
}

/// `Path::extension`.
pub open spec fn extension(p: Seq<char>) -> Option<Seq<char>> {
    match file_name(p) {
        None => None,
        Some(n) => name_extension(n),
    }
}

/// `PathBuf::push`: an absolute path replaces what is there; otherwise a
/// separator is added when the buffer does not already end in one.
pub open spec fn push_path(base: Seq<char>, p: Seq<char>) -> Seq<char> {
    if p.len() > 0 && p[0] == '/' {
        p
    } else if base.len() > 0 && base.last() != '/' {
        base + seq!['/'] + p
    } else {
        base + p
    }
}

/// `Path::file_name`, on characters.
pub fn file_name_of(p: &[char]) -> (r: Option<Vec<char>>)
    ensures
        match r {
            Some(n) => file_name(p@) == Some(n@),
            None => file_name(p@) is None,
        },
{
    let pieces = split_on(p, '/');
    let mut k: usize = pieces.len();
    assert(views(pieces@).take(k as int) =~= views(pieces@));
    while k > 0
        invariant
            k <= pieces@.len(),
            views(pieces@) == split(p@, '/'),
            last_name(views(pieces@)) == last_name(views(pieces@).take(k as int)),
        decreases k,
    {
        let l = &pieces[k - 1];
        proof {
            assert(views(pieces@).take(k as int).last() == l@);
            assert(views(pieces@).take(k as int).drop_last() =~= views(pieces@).take(k - 1));
        }
        if l.len() == 0 || is(l, ".") {
            proof {
                reveal_strlit(".");
                assert(l@.len() == 0 || l@ =~= seq!['.']);
            }
            k = k - 1;
        } else if is(l, "..") {
            proof {
                reveal_strlit("..");
                reveal_strlit(".");
                assert(l@ =~= seq!['.', '.']);
            }
            return None;
        } else {
            proof {
                reveal_strlit("..");
                reveal_strlit(".");
                assert(l@ != seq!['.']) by {
                    if l@ == seq!['.'] {
                        assert(l@ =~= "."@);
                    }
                }
                assert(l@ != seq!['.', '.']) by {
                    if l@ == seq!['.', '.'] {
                        assert(l@ =~= ".."@);
                    }
                }
            }
            let n = slice_of(l, 0, l.len());
            assert(n@ =~= l@);
            return Some(n);
        }
    }
    None
}

/// `Path::extension`, on characters.
pub fn extension_of(p: &[char]) -> (r: Option<Vec<char>>)
    ensures
        match r {
            Some(e) => extension(p@) == Some(e@),
            None => extension(p@) is None,
        },
{
    let name = match file_name_of(p) {
        Some(n) => n,
        None => return None,
    };
    let len = name.len();
    match last_index_of(&name, '.') {
        None => None,
        Some(i) => {
            proof {
                lemma_rfind(name@, '.');
                assert(rfind(name@, '.') == Some(i as int));
                assert(i < name@.len());
            }
            if i == 0 {
                None
            } else {
                let e = slice_of(&name, i + 1, len);
                assert(e@ =~= name@.skip(i + 1));
                Some(e)
            }
        },
    }
}

/// `PathBuf::push`, on characters.
pub fn push_onto(base: &mut Vec<char>, p: &[char])
    ensures
        final(base)@ == push_path(old(base)@, p@),
{
    if p.len() > 0 && p[0] == '/' {
        let fresh = slice_of(p, 0, p.len());
        assert(fresh@ =~= p@);
        *base = fresh;
    } else {
        let n = base.len();
        if n > 0 && base[n - 1] != '/' {
            base.push('/');
        }
        extend(base, p);
    }
}

/// `Path::join`, on text.
pub fn joined(base: &str, p: &str) -> (r: Vec<char>)
    ensures
        r@ == push_path(base@, p@),
{
    let mut b = chars_of(base);
    let q = chars_of(p);
    push_onto(&mut b, &q);
    b
}

} // verus!
