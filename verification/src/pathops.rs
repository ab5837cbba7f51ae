//! Path handling over plain strings.
//!
//! Paths are modelled as strings whose components are separated by `/`,
//! without trailing separators (except the root `/` itself). Identity
//! comparisons on canonical paths are plain character comparisons.

use vstd::prelude::*;
use crate::text::{is_prefix_of, push_char, str_eq, str_starts_with};

verus! {

/// Index of the last `/` in `p`, if any.
pub open spec fn last_slash(p: Seq<char>) -> Option<int>
    decreases p.len(),
{
    if p.len() == 0 {
        Option::None
    } else if p[p.len() - 1] == '/' {
        Option::Some(p.len() - 1)
    } else {
        last_slash(p.take(p.len() - 1))
    }
}

/// The base name of `p`: everything after the last `/`, or `p` itself when
/// there is no `/` or when the last component is empty.
pub open spec fn spec_base_name(p: Seq<char>) -> Seq<char> {
    match last_slash(p) {
        Option::None => p,
        Option::Some(k) => {
            if k + 1 == p.len() {
                p
            } else {
                p.subrange(k + 1, p.len() as int)
            }
        },
    }
}

/// A path is absolute when it starts with `/`.
pub open spec fn spec_is_absolute(p: Seq<char>) -> bool {
    p.len() > 0 && p[0] == '/'
}

/// `p` lies at or below `base`: it is `base` itself or a path whose next
/// character after the `base` prefix is a separator.
pub open spec fn spec_within(p: Seq<char>, base: Seq<char>) -> bool {
    p == base || (is_prefix_of(base, p) && p.len() > base.len() && p[base.len() as int] == '/')
}

/// Joining `base` and `child`: an absolute `child` stands alone; otherwise
/// the two are separated by a single `/`.
pub open spec fn spec_join(base: Seq<char>, child: Seq<char>) -> Seq<char> {
    if spec_is_absolute(child) || base.len() == 0 {
        child
    } else if base[base.len() - 1] == '/' {
        base + child
    } else {
        base + seq!['/'] + child
    }
}

pub(crate) proof fn lemma_last_slash_bound(p: Seq<char>)
    ensures
        match last_slash(p) {
            Option::None => forall|j: int| 0 <= j < p.len() ==> p[j] != '/',
            Option::Some(k) => 0 <= k < p.len() && p[k] == '/' && forall|j: int|
                k < j < p.len() ==> p[j] != '/',
        },
    decreases p.len(),
{
    if p.len() > 0 && p[p.len() - 1] != '/' {
        lemma_last_slash_bound(p.take(p.len() - 1));
        assert(forall|j: int| 0 <= j < p.len() - 1 ==> p.take(p.len() - 1)[j] == p[j]);
    }
}

pub(crate) fn find_last_slash(p: &str) -> (r: Option<usize>)
    ensures
        match r {
            Option::None => last_slash(p@) is None,
            Option::Some(k) => k < p@.len() && last_slash(p@) == Option::Some(k as int),
        },
{
    let len = p.unicode_len();
    let mut i: usize = len;
    proof {
        assert(p@.take(len as int) =~= p@);
    }
    while i > 0
        invariant
            i <= len,
            len == p@.len(),
            last_slash(p@) == last_slash(p@.take(i as int)),
        decreases i,
    {
        proof {
            assert(p@.take(i as int).take(i - 1) =~= p@.take(i - 1));
        }
        if p.get_char(i - 1) == '/' {
            assert(p@.take(i as int)[i - 1] == '/');
            return Option::Some(i - 1);
        }
        i = i - 1;
    }
    proof {
        assert(p@.take(0) =~= Seq::<char>::empty());
    }
    Option::None
}

/// The base name of a path, as [`spec_base_name`] describes.
pub fn base_name(p: &str) -> (r: String)
    ensures
        r@ == spec_base_name(p@),
{
    match find_last_slash(p) {
        Option::None => p.to_owned(),
        Option::Some(k) => {
            let len = p.unicode_len();
            if k + 1 == len {
                p.to_owned()
            } else {
                let tail = p.substring_char(k + 1, len);
                tail.to_owned()
            }
        },
    }
}

/// Whether the path is absolute.
pub fn is_absolute(p: &str) -> (r: bool)
    ensures
        r == spec_is_absolute(p@),
{
    if p.unicode_len() == 0 {
        false
    } else {
        p.get_char(0) == '/'
    }
}

/// Whether `p` equals `base` or lies below it.
pub fn path_within(p: &str, base: &str) -> (r: bool)
    ensures
        r == spec_within(p@, base@),
{
    if str_eq(p, base) {
        return true;
    }
    if !str_starts_with(p, base) {
        return false;
    }
    let plen = p.unicode_len();
    let blen = base.unicode_len();
    if plen > blen {
        p.get_char(blen) == '/'
    } else {
        proof {
            assert(p@ =~= base@);
        }
        false
    }
}

/// Joins `base` and `child` as [`spec_join`] describes.
pub fn path_join(base: &str, child: &str) -> (r: String)
    ensures
        r@ == spec_join(base@, child@),
{
    if is_absolute(child) || base.unicode_len() == 0 {
        child.to_owned()
    } else if base.get_char(base.unicode_len() - 1) == '/' {
        let mut s = base.to_owned();
        s.append(child);
        s
    } else {
        let mut s = base.to_owned();
        push_char(&mut s, '/');
        s.append(child);
        proof {
            assert(s@ =~= base@ + seq!['/'] + child@);
        }
        s
    }
}

/// Strips `base` (and the separator after it) from `p`; `Some` exactly when
/// `p` lies within `base`, and the empty string when they are equal.
pub fn strip_prefix(p: &str, base: &str) -> (r: Option<String>)
    ensures
        match r {
            Option::Some(rest) => spec_within(p@, base@) && (if p@ == base@ {
                rest@.len() == 0
            } else {
                rest@ == p@.subrange(base@.len() as int + 1, p@.len() as int)
            }),
            Option::None => !spec_within(p@, base@),
        },
{
    if str_eq(p, base) {
        return Option::Some(String::new());
    }
    if !path_within(p, base) {
        return Option::None;
    }
    let plen = p.unicode_len();
    let blen = base.unicode_len();
    let tail = p.substring_char(blen + 1, plen);
    Option::Some(tail.to_owned())
}

/// The directory holding `p`: everything before the last `/` (the root `/`
/// for a top-level absolute path), or `None` when `p` has no separator.
pub fn parent_dir(p: &str) -> (r: Option<String>)
    ensures
        match r {
            Option::Some(d) => match last_slash(p@) {
                Option::Some(k) => (k == 0 && d@ =~= seq!['/']) || (k > 0 && d@ == p@.subrange(
                    0,
                    k,
                )),
                Option::None => false,
            },
            Option::None => last_slash(p@) is None,
        },
{
    match find_last_slash(p) {
        Option::None => Option::None,
        Option::Some(k) => {
            if k == 0 {
                let mut s = String::new();
                push_char(&mut s, '/');
                proof {
                    assert(s@ =~= seq!['/']);
                }
                Option::Some(s)
            } else {
                let head = p.substring_char(0, k);
                Option::Some(head.to_owned())
            }
        },
    }
}

} // verus!
