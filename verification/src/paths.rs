//! Path-string helpers used for ranking: base names, components, and the
//! direct-child relation.

use vstd::prelude::*;

use crate::text::{
    after_last, chars_of, find_after_last, find_char, has_char, split_on, starts_with, lemma_split_step,
    strs_view,
};

verus! {

/// Number of `/` characters at the end of `s`.
pub open spec fn trailing_slashes(s: Seq<char>) -> nat
    decreases s.len(),
{
    if s.len() > 0 && s.last() == '/' {
        1 + trailing_slashes(s.drop_last())
    } else {
        0
    }
}

/// The part of `s` after its last `/` (all of `s` when it has none).
pub open spec fn last_segment(s: Seq<char>) -> Seq<char> {
    s.skip(after_last(s, '/') as int)
}

/// The last component of a path: trailing slashes are ignored, then what
/// follows the last `/` is taken.
pub open spec fn basename_of(s: Seq<char>) -> Seq<char> {
    last_segment(s.take(s.len() - trailing_slashes(s)))
}

/// The last component of `path`, ignoring trailing slashes
/// (`/home/u/Downloads/` gives `Downloads`; `/` gives the empty string).
pub fn basename(path: &str) -> (b: &str)
    ensures
        b@ == basename_of(path@),
{
    let v = chars_of(path);
    let n = v.len();
    let mut e = n;
    assert(v@.subrange(0, n as int) =~= v@);
    while e > 0 && v[e - 1] == '/'
        invariant
            e <= n == v@.len(),
            trailing_slashes(v@) == (n - e) + trailing_slashes(v@.subrange(0, e as int)),
        decreases e,
    {
        assert(v@.subrange(0, e as int).drop_last() =~= v@.subrange(0, e - 1));
        e -= 1;
    }
    if e > 0 {
        assert(v@.subrange(0, e as int).last() == v@[e - 1]);
    }
    assert(v@.subrange(0, n as int) =~= v@);
    let ghost t = v@.subrange(0, e as int);
    assert(v@.take(n - trailing_slashes(v@)) =~= t);
    let s = find_after_last(&v, 0, e, '/');
    assert(t.skip(s as int) =~= v@.subrange(s as int, e as int));
    path.substring_char(s, e)
}

/// The pieces of a split with the empty ones left out.
pub open spec fn drop_empty(ps: Seq<Seq<char>>) -> Seq<Seq<char>>
    decreases ps.len(),
{
    if ps.len() == 0 {
        seq![]
    } else {
        (if ps[0].len() > 0 {
            seq![ps[0]]
        } else {
            seq![]
        }) + drop_empty(ps.drop_first())
    }
}

/// The non-empty `/`-separated components of a path.
pub open spec fn components_of(s: Seq<char>) -> Seq<Seq<char>> {
    drop_empty(split_on(s, '/'))
}

/// The non-empty components of `path`, in order.
pub fn components(path: &str) -> (r: Vec<&str>)
    ensures
        strs_view(r@) == components_of(path@),
{
    let v = chars_of(path);
    let n = v.len();
    let mut r: Vec<&str> = Vec::new();
    let mut pos: usize = 0;
    let mut more = true;
    assert(v@.subrange(0, n as int) =~= v@);
    while more
        invariant
            pos <= n == v@.len(),
            v@ == path@,
            more ==> strs_view(r@) + drop_empty(split_on(v@.subrange(pos as int, n as int), '/'))
                == components_of(path@),
            !more ==> strs_view(r@) == components_of(path@),
        decreases if more { n - pos + 1 } else { 0 },
    {
        let k = find_char(&v, pos, n, '/');
        proof {
            lemma_split_step(v@, pos as int, k as int, n as int, '/');
        }
        let ghost piece = v@.subrange(pos as int, k as int);
        let ghost rest = if k < n {
            split_on(v@.subrange(k + 1, n as int), '/')
        } else {
            Seq::<Seq<char>>::empty()
        };
        let ghost ps = seq![piece] + rest;
        assert(split_on(v@.subrange(pos as int, n as int), '/') =~= ps);
        assert(ps[0] == piece);
        assert(ps.drop_first() =~= rest);
        let ghost before = strs_view(r@);
        if k > pos {
            let c = path.substring_char(pos, k);
            r.push(c);
            assert(strs_view(r@) =~= before.push(piece));
            assert(before.push(piece) + drop_empty(rest) =~= before + (seq![piece] + drop_empty(
                rest,
            )));
        } else {
            assert(seq![] + drop_empty(rest) =~= drop_empty(rest));
        }
        if k < n {
            pos = k + 1;
        } else {
            more = false;
            assert(drop_empty(rest) =~= Seq::<Seq<char>>::empty());
            assert(strs_view(r@) + drop_empty(rest) =~= strs_view(r@));
        }
    }
    r
}

/// What a direct child of `cwd` starts with: `cwd` and a `/`, or just `/`
/// when `cwd` is the root.
pub open spec fn child_prefix(cwd: Seq<char>) -> Seq<char> {
    if cwd == seq!['/'] {
        cwd
    } else {
        cwd.push('/')
    }
}

/// `path` is `cwd` followed by one more non-empty component: `cwd/name`,
/// or `/name` when `cwd` is `/`.
pub open spec fn direct_child_of(path: Seq<char>, cwd: Seq<char>) -> bool {
    &&& cwd.len() > 0
    &&& path.len() > child_prefix(cwd).len()
    &&& starts_with(path, child_prefix(cwd))
    &&& !has_char(path.skip(child_prefix(cwd).len() as int), '/')
}

/// Whether `path` is a direct child of the non-empty directory `cwd`.
/// (Comparing characters here agrees with comparing the UTF-8 bytes: a
/// byte `/` in a string is always the character `/`.)
pub fn is_direct_child(path: &str, cwd: &str) -> (b: bool)
    ensures
        b == direct_child_of(path@, cwd@),
{
    let p = chars_of(path);
    let c = chars_of(cwd);
    let np = p.len();
    let nc = c.len();
    if nc == 0 || np <= nc {
        return false;
    }
    let root = nc == 1 && c[0] == '/';
    assert(root == (c@ == seq!['/'])) by {
        if nc == 1 && c@[0] == '/' {
            assert(c@ =~= seq!['/']);
        }
    }
    assert(p@.subrange(0, np as int) =~= p@);
    if !crate::text::has_prefix(&p, 0, np, &c) {
        assert(!starts_with(p@, child_prefix(c@))) by {
            if starts_with(p@, child_prefix(c@)) {
                assert(p@.take(nc as int) =~= child_prefix(c@).take(nc as int));
                assert(child_prefix(c@).take(nc as int) =~= c@);
            }
        }
        return false;
    }
    let pl: usize = if root { 1 } else { nc + 1 };
    if !root {
        if p[nc] != '/' {
            assert(!starts_with(p@, child_prefix(c@))) by {
                if starts_with(p@, child_prefix(c@)) {
                    assert(p@.take(pl as int)[nc as int] == child_prefix(c@)[nc as int]);
                }
            }
            return false;
        }
        if np <= pl {
            return false;
        }
        assert(p@.take(pl as int) =~= c@.push('/')) by {
            assert(p@.take(nc as int) == c@);
            assert forall|i: int| 0 <= i < pl implies #[trigger] p@.take(pl as int)[i] == c@.push('/')[i] by {
                if i < nc {
                    assert(p@.take(nc as int)[i] == p@[i]);
                }
            }
        }
    }
    assert(starts_with(p@, child_prefix(c@)));
    let k = find_char(&p, pl, np, '/');
    assert(p@.skip(pl as int) =~= p@.subrange(pl as int, np as int));
    k == np
}

} // verus!
