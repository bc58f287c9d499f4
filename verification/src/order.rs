//! Lexicographic order on text and sorting by it.
//!
//! `str`'s `Ord` compares UTF-8 bytes lexicographically, which orders
//! strings exactly as comparing their characters by code point does; that
//! character order is the one specified here.

use vstd::prelude::*;

use crate::text::strings_view;

verus! {

broadcast use vstd::seq_lib::group_to_multiset_ensures;

/// `a` comes no later than `b` in lexicographic order of code points.
pub open spec fn lex_le(a: Seq<char>, b: Seq<char>) -> bool
    decreases a.len(),
{
    if a.len() == 0 {
        true
    } else if b.len() == 0 {
        false
    } else if a[0] != b[0] {
        a[0] < b[0]
    } else {
        lex_le(a.drop_first(), b.drop_first())
    }
}

pub proof fn lemma_lex_total(a: Seq<char>, b: Seq<char>)
    ensures
        lex_le(a, b) || lex_le(b, a),
    decreases a.len(),
{
    if a.len() > 0 && b.len() > 0 {
        if a[0] == b[0] {
            lemma_lex_total(a.drop_first(), b.drop_first());
        }
    }
}

pub proof fn lemma_lex_transitive(a: Seq<char>, b: Seq<char>, c: Seq<char>)
    requires
        lex_le(a, b),
        lex_le(b, c),
    ensures
        lex_le(a, c),
    decreases a.len(),
{
    if a.len() > 0 && b.len() > 0 && c.len() > 0 && a[0] == b[0] && b[0] == c[0] {
        lemma_lex_transitive(a.drop_first(), b.drop_first(), c.drop_first());
    }
}

pub proof fn lemma_lex_antisymmetric(a: Seq<char>, b: Seq<char>)
    requires
        lex_le(a, b),
        lex_le(b, a),
    ensures
        a == b,
    decreases a.len(),
{
    if a.len() > 0 && b.len() > 0 {
        lemma_lex_antisymmetric(a.drop_first(), b.drop_first());
        assert(a =~= seq![a[0]] + a.drop_first());
        assert(b =~= seq![b[0]] + b.drop_first());
    } else if a.len() == 0 && b.len() == 0 {
        assert(a =~= b);
    }
}

/// Whether `a` comes no later than `b`.
pub fn text_le(a: &str, b: &str) -> (r: bool)
    ensures
        r == lex_le(a@, b@),
{
    let x = crate::text::chars_of(a);
    let y = crate::text::chars_of(b);
    let mut k: usize = 0;
    assert(x@.skip(0) =~= x@);
    assert(y@.skip(0) =~= y@);
    while k < x.len() && k < y.len() && x[k] == y[k]
        invariant
            k <= x@.len(),
            k <= y@.len(),
            lex_le(x@, y@) == lex_le(x@.skip(k as int), y@.skip(k as int)),
        decreases x@.len() - k,
    {
        assert(x@.skip(k as int).drop_first() =~= x@.skip(k + 1));
        assert(y@.skip(k as int).drop_first() =~= y@.skip(k + 1));
        k += 1;
    }
    if k == x.len() {
        true
    } else if k == y.len() {
        false
    } else {
        assert(x@.skip(k as int)[0] == x@[k as int]);
        assert(y@.skip(k as int)[0] == y@[k as int]);
        x[k] < y[k]
    }
}

/// The keys are in lexicographic order.
pub open spec fn sorted_keys(ks: Seq<Seq<char>>) -> bool {
    forall|i: int, j: int| 0 <= i < j < ks.len() ==> lex_le(ks[i], ks[j])
}

/// Every key in `xs` comes no later than every key in `ys`.
pub open spec fn keys_before(xs: Seq<Seq<char>>, ys: Seq<Seq<char>>) -> bool {
    forall|i: int, j: int| 0 <= i < xs.len() && 0 <= j < ys.len() ==> lex_le(xs[i], ys[j])
}

/// The multiset of three joined sequences is the sum of their multisets.
pub proof fn lemma_multiset3<A>(x: Seq<A>, y: Seq<A>, z: Seq<A>)
    ensures
        (x + y + z).to_multiset() =~= x.to_multiset().add(y.to_multiset()).add(z.to_multiset()),
{
    vstd::seq_lib::lemma_multiset_commutative(x + y, z);
    vstd::seq_lib::lemma_multiset_commutative(x, y);
}

/// Merges two sorted lists of strings into one.
fn merge_strings(a: Vec<String>, b: Vec<String>) -> (m: Vec<String>)
    requires
        sorted_keys(strings_view(a@)),
        sorted_keys(strings_view(b@)),
    ensures
        sorted_keys(strings_view(m@)),
        strings_view(m@).to_multiset() == strings_view(a@).to_multiset().add(
            strings_view(b@).to_multiset(),
        ),
{
    let ghost av = strings_view(a@);
    let ghost bv = strings_view(b@);
    let mut a = a;
    let mut b = b;
    let mut rev: Vec<String> = Vec::new();
    let ghost mut t: Seq<Seq<char>> = seq![];
    assert(av.take(av.len() as int) =~= av);
    assert(bv.take(bv.len() as int) =~= bv);
    assert((av + bv + t) =~= av + bv);
    while a.len() > 0 || b.len() > 0
        invariant
            a@.len() <= av.len(),
            b@.len() <= bv.len(),
            strings_view(a@) == av.take(a@.len() as int),
            strings_view(b@) == bv.take(b@.len() as int),
            sorted_keys(av),
            sorted_keys(bv),
            rev@.len() == t.len(),
            forall|i: int| 0 <= i < rev@.len() ==> (#[trigger] rev@[i])@ == t[t.len() - 1 - i],
            sorted_keys(t),
            keys_before(strings_view(a@), t),
            keys_before(strings_view(b@), t),
            (strings_view(a@) + strings_view(b@) + t).to_multiset() == (av + bv).to_multiset(),
        decreases a@.len() + b@.len(),
    {
        let ghost ar = strings_view(a@);
        let ghost br = strings_view(b@);
        proof {
            if a@.len() > 0 {
                assert(ar[ar.len() - 1] == a@[a@.len() - 1]@);
            }
            if b@.len() > 0 {
                assert(br[br.len() - 1] == b@[b@.len() - 1]@);
            }
        }
        let take_a = if a.len() == 0 {
            false
        } else if b.len() == 0 {
            true
        } else {
            !text_le(a[a.len() - 1].as_str(), b[b.len() - 1].as_str())
        };
        let x = if take_a {
            a.pop().unwrap()
        } else {
            b.pop().unwrap()
        };
        let ghost xv = x@;
        let ghost ar2 = strings_view(a@);
        let ghost br2 = strings_view(b@);
        proof {
            let t2 = seq![xv] + t;
            if take_a {
                assert(ar =~= ar2.push(xv));
                assert(br2 =~= br);
                assert(ar2 =~= av.take(a@.len() as int));
            } else {
                assert(br =~= br2.push(xv));
                assert(ar2 =~= ar);
                assert(br2 =~= bv.take(b@.len() as int));
            }
            assert forall|j: int| 0 <= j < t.len() implies lex_le(xv, #[trigger] t[j]) by {
                if take_a {
                    assert(ar[ar.len() - 1] == xv);
                } else {
                    assert(br[br.len() - 1] == xv);
                }
            }
            assert forall|i: int, j: int| 0 <= i < j < t2.len() implies lex_le(t2[i], t2[j]) by {
                if i == 0 {
                    assert(t2[j] == t[j - 1]);
                } else {
                    assert(t2[i] == t[i - 1] && t2[j] == t[j - 1]);
                }
            }
            if take_a {
                assert forall|i: int| 0 <= i < ar2.len() implies lex_le(#[trigger] ar2[i], xv) by {
                    assert(ar2[i] == ar[i] && ar[i] == av[i]);
                    assert(ar[ar.len() - 1] == av[ar.len() - 1]);
                }
                if br.len() > 0 {
                    let kb = br[br.len() - 1];
                    assert(xv == ar[ar.len() - 1]);
                    lemma_lex_total(xv, kb);
                    lemma_lex_total(kb, kb);
                    assert forall|i: int| 0 <= i < br2.len() implies lex_le(#[trigger] br2[i], xv) by {
                        assert(br2[i] == br[i] && br[i] == bv[i]);
                        assert(br[br.len() - 1] == bv[br.len() - 1]);
                        lemma_lex_transitive(br2[i], kb, xv);
                    }
                }
            } else {
                assert forall|i: int| 0 <= i < br2.len() implies lex_le(#[trigger] br2[i], xv) by {
                    assert(br2[i] == br[i] && br[i] == bv[i]);
                    assert(br[br.len() - 1] == bv[br.len() - 1]);
                }
                if ar.len() > 0 {
                    let ka = ar[ar.len() - 1];
                    assert(xv == br[br.len() - 1]);
                    lemma_lex_total(ka, ka);
                    assert forall|i: int| 0 <= i < ar2.len() implies lex_le(#[trigger] ar2[i], xv) by {
                        assert(ar2[i] == ar[i] && ar[i] == av[i]);
                        assert(ar[ar.len() - 1] == av[ar.len() - 1]);
                        lemma_lex_transitive(ar2[i], ka, xv);
                    }
                }
            }
            assert forall|i: int, j: int| 0 <= i < ar2.len() && 0 <= j < t2.len() implies lex_le(
                ar2[i],
                t2[j],
            ) by {
                if j > 0 {
                    assert(t2[j] == t[j - 1]);
                    assert(ar2[i] == ar[i]);
                }
            }
            assert forall|i: int, j: int| 0 <= i < br2.len() && 0 <= j < t2.len() implies lex_le(
                br2[i],
                t2[j],
            ) by {
                if j > 0 {
                    assert(t2[j] == t[j - 1]);
                    assert(br2[i] == br[i]);
                }
            }
            lemma_multiset3(ar, br, t);
            lemma_multiset3(ar2, br2, t2);
            vstd::seq_lib::lemma_multiset_commutative(seq![xv], t);
            if take_a {
                vstd::seq_lib::lemma_multiset_commutative(ar2, seq![xv]);
                assert(ar2 + seq![xv] =~= ar);
            } else {
                vstd::seq_lib::lemma_multiset_commutative(br2, seq![xv]);
                assert(br2 + seq![xv] =~= br);
            }
            assert((ar + br + t).to_multiset() =~= (ar2 + br2 + t2).to_multiset());
            t = t2;
        }
        rev.push(x);
    }
    assert(strings_view(a@) =~= Seq::<Seq<char>>::empty());
    assert(strings_view(b@) =~= Seq::<Seq<char>>::empty());
    let mut m: Vec<String> = Vec::new();
    while rev.len() > 0
        invariant
            m@.len() + rev@.len() == t.len(),
            forall|i: int| 0 <= i < rev@.len() ==> (#[trigger] rev@[i])@ == t[t.len() - 1 - i],
            strings_view(m@) == t.take(m@.len() as int),
        decreases rev@.len(),
    {
        let ghost before = strings_view(m@);
        let x = rev.pop().unwrap();
        assert(x@ == t[m@.len() as int]);
        m.push(x);
        assert(strings_view(m@) =~= before.push(x@));
        assert(t.take(m@.len() as int) =~= t.take(m@.len() - 1).push(t[m@.len() - 1]));
    }
    assert(t.take(t.len() as int) =~= t);
    proof {
        let e = Seq::<Seq<char>>::empty();
        assert(e + e + t =~= t);
        vstd::seq_lib::lemma_multiset_commutative(av, bv);
    }
    m
}

/// Merge sort of strings into lexicographic order.
fn merge_sort_strings(v: Vec<String>) -> (r: Vec<String>)
    ensures
        sorted_keys(strings_view(r@)),
        strings_view(r@).to_multiset() == strings_view(v@).to_multiset(),
    decreases v@.len(),
{
    if v.len() <= 1 {
        return v;
    }
    let ghost vv = strings_view(v@);
    let mut a = v;
    let mid = a.len() / 2;
    let b = a.split_off(mid);
    assert(vv =~= strings_view(a@) + strings_view(b@));
    let sa = merge_sort_strings(a);
    let sb = merge_sort_strings(b);
    proof {
        vstd::seq_lib::lemma_multiset_commutative(strings_view(a@), strings_view(b@));
    }
    merge_strings(sa, sb)
}

/// Sorts strings into lexicographic order.
pub fn sort_strings(v: &mut Vec<String>)
    ensures
        sorted_keys(strings_view(final(v)@)),
        strings_view(final(v)@).to_multiset() == strings_view(old(v)@).to_multiset(),
{
    let mut w: Vec<String> = Vec::new();
    std::mem::swap(&mut w, v);
    *v = merge_sort_strings(w);
}

} // verus!
