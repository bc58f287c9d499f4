//! Fuzzy matching building blocks: Optimal String Alignment distance (typos)
//! and greedy subsequence matching (abbreviations).

use vstd::prelude::*;

use crate::text::{chars_of, find_char, index_of};

verus! {

/// The smaller of two naturals.
pub open spec fn min_nat(x: nat, y: nat) -> nat {
    if x <= y { x } else { y }
}

/// Whether the last two characters of `a[..i]` are the last two of `b[..j]`
/// swapped, so that one adjacent transposition turns one into the other.
pub open spec fn swapped_at(a: Seq<char>, b: Seq<char>, i: int, j: int) -> bool {
    i > 1 && j > 1 && a[i - 1] == b[j - 2] && a[i - 2] == b[j - 1]
}

/// Optimal String Alignment distance between the prefixes `a[..i]` and
/// `b[..j]`: the fewest insertions, deletions, substitutions and adjacent
/// transpositions, where no substring is edited twice.
pub open spec fn osa(a: Seq<char>, b: Seq<char>, i: nat, j: nat) -> nat
    decreases i + j,
{
    if i == 0 {
        j
    } else if j == 0 {
        i
    } else {
        let cost: nat = if a[i - 1] == b[j - 1] { 0 } else { 1 };
        let best = min_nat(
            min_nat(osa(a, b, (i - 1) as nat, j) + 1, osa(a, b, i, (j - 1) as nat) + 1),
            osa(a, b, (i - 1) as nat, (j - 1) as nat) + cost,
        );
        if swapped_at(a, b, i as int, j as int) {
            min_nat(best, osa(a, b, (i - 2) as nat, (j - 2) as nat) + 1)
        } else {
            best
        }
    }
}

/// The OSA distance between the whole of `a` and the whole of `b`.
pub open spec fn osa_dist(a: Seq<char>, b: Seq<char>) -> nat {
    osa(a, b, a.len(), b.len())
}

/// The distance between two prefixes never exceeds the longer prefix.
pub proof fn lemma_osa_upper(a: Seq<char>, b: Seq<char>, i: nat, j: nat)
    ensures
        osa(a, b, i, j) <= if i >= j { i } else { j },
    decreases i + j,
{
    if i > 0 && j > 0 {
        lemma_osa_upper(a, b, (i - 1) as nat, j);
        lemma_osa_upper(a, b, (i - 1) as nat, (j - 1) as nat);
    }
}

/// The distance between two prefixes is at least the difference of their lengths.
pub proof fn lemma_osa_lower(a: Seq<char>, b: Seq<char>, i: nat, j: nat)
    ensures
        osa(a, b, i, j) >= if i >= j { i - j } else { j - i },
    decreases i + j,
{
    if i > 0 && j > 0 {
        lemma_osa_lower(a, b, (i - 1) as nat, j);
        lemma_osa_lower(a, b, i, (j - 1) as nat);
        lemma_osa_lower(a, b, (i - 1) as nat, (j - 1) as nat);
        if i > 1 && j > 1 {
            lemma_osa_lower(a, b, (i - 2) as nat, (j - 2) as nat);
        }
    }
}

/// Swapping the roles of the two strings does not change the distance.
pub proof fn lemma_osa_symmetric(a: Seq<char>, b: Seq<char>, i: nat, j: nat)
    ensures
        osa(a, b, i, j) == osa(b, a, j, i),
    decreases i + j,
{
    if i > 0 && j > 0 {
        lemma_osa_symmetric(a, b, (i - 1) as nat, j);
        lemma_osa_symmetric(a, b, i, (j - 1) as nat);
        lemma_osa_symmetric(a, b, (i - 1) as nat, (j - 1) as nat);
        if i > 1 && j > 1 {
            lemma_osa_symmetric(a, b, (i - 2) as nat, (j - 2) as nat);
        }
    }
}

/// Equal prefixes are at distance zero.
pub proof fn lemma_osa_equal_prefix(a: Seq<char>, b: Seq<char>, i: nat)
    requires
        i <= a.len(),
        i <= b.len(),
        a.take(i as int) == b.take(i as int),
    ensures
        osa(a, b, i, i) == 0,
    decreases i,
{
    if i > 0 {
        assert(a.take((i - 1) as int) =~= a.take(i as int).take((i - 1) as int));
        assert(b.take((i - 1) as int) =~= b.take(i as int).take((i - 1) as int));
        assert(a[i - 1] == a.take(i as int)[i - 1]);
        assert(b[i - 1] == b.take(i as int)[i - 1]);
        lemma_osa_equal_prefix(a, b, (i - 1) as nat);
    }
}

/// Prefixes at distance zero have the same length and the same characters.
pub proof fn lemma_osa_zero_equal(a: Seq<char>, b: Seq<char>, i: nat, j: nat)
    requires
        i <= a.len(),
        j <= b.len(),
        osa(a, b, i, j) == 0,
    ensures
        i == j,
        a.take(i as int) == b.take(j as int),
    decreases i + j,
{
    if i > 0 && j > 0 {
        lemma_osa_lower(a, b, (i - 1) as nat, j);
        lemma_osa_lower(a, b, i, (j - 1) as nat);
        lemma_osa_lower(a, b, (i - 1) as nat, (j - 1) as nat);
        lemma_osa_zero_equal(a, b, (i - 1) as nat, (j - 1) as nat);
        assert(a.take(i as int) =~= a.take((i - 1) as int).push(a[i - 1]));
        assert(b.take(j as int) =~= b.take((j - 1) as int).push(b[j - 1]));
    } else if i == 0 {
        assert(a.take(0) =~= b.take(0));
    }
}

/// `a` at `i + t` holds the same character as `b` at `j + t`.
pub open spec fn agree_at(a: Seq<char>, b: Seq<char>, i: int, j: int, t: int) -> bool {
    a[i + t] == b[j + t]
}

/// Along a stretch where `a` from `i` agrees with `b` from `j`, the distance
/// does not grow.
proof fn lemma_osa_diagonal_run(a: Seq<char>, b: Seq<char>, i: nat, j: nat, len: nat)
    requires
        i + len <= a.len(),
        j + len <= b.len(),
        forall|t: int| 0 <= t < len ==> #[trigger] agree_at(a, b, i as int, j as int, t),
    ensures
        osa(a, b, i + len, j + len) <= osa(a, b, i, j),
    decreases len,
{
    if len > 0 {
        lemma_osa_diagonal_run(a, b, i, j, (len - 1) as nat);
        assert(agree_at(a, b, i as int, j as int, len - 1));
    }
}

/// The distance is symmetric.
pub proof fn law_osa_symmetric(a: Seq<char>, b: Seq<char>)
    ensures
        osa_dist(a, b) == osa_dist(b, a),
{
    lemma_osa_symmetric(a, b, a.len(), b.len());
}

/// Two strings are at distance zero exactly when they are equal.
pub proof fn law_osa_zero_iff_equal(a: Seq<char>, b: Seq<char>)
    ensures
        osa_dist(a, b) == 0 <==> a == b,
{
    if osa_dist(a, b) == 0 {
        lemma_osa_zero_equal(a, b, a.len(), b.len());
        assert(a =~= a.take(a.len() as int));
        assert(b =~= b.take(b.len() as int));
    }
    if a == b {
        assert(a.take(a.len() as int) =~= b.take(b.len() as int));
        lemma_osa_equal_prefix(a, b, a.len());
    }
}

/// The distance lies between the difference of the lengths and the longer length.
pub proof fn law_osa_bounds(a: Seq<char>, b: Seq<char>)
    ensures
        osa_dist(a, b) <= if a.len() >= b.len() { a.len() } else { b.len() },
        osa_dist(a, b) >= if a.len() >= b.len() { a.len() - b.len() } else { b.len() - a.len() },
{
    lemma_osa_upper(a, b, a.len(), b.len());
    lemma_osa_lower(a, b, a.len(), b.len());
}

/// Swapping two different adjacent characters costs exactly one edit.
pub proof fn law_osa_adjacent_transposition(p: Seq<char>, x: char, y: char, s: Seq<char>)
    requires
        x != y,
    ensures
        osa_dist(p + seq![x, y] + s, p + seq![y, x] + s) == 1,
{
    let a = p + seq![x, y] + s;
    let b = p + seq![y, x] + s;
    let n = p.len();
    assert(a.take(n as int) =~= p);
    assert(b.take(n as int) =~= p);
    lemma_osa_equal_prefix(a, b, n);
    let ni = n as int;
    assert(a[ni + 1] == y && b[ni] == y && a[ni] == x && b[ni + 1] == x);
    assert(swapped_at(a, b, (n + 2) as int, (n + 2) as int));
    assert(osa(a, b, n + 2, n + 2) <= 1);
    assert forall|t: int| 0 <= t < s.len() implies #[trigger] agree_at(a, b, n as int + 2, n as int + 2, t) by {
        assert(a[n + 2 + t] == s[t]);
        assert(b[n + 2 + t] == s[t]);
    }
    lemma_osa_diagonal_run(a, b, n + 2, n + 2, s.len());
    law_osa_zero_iff_equal(a, b);
    assert(a[n as int] != b[n as int]);
}

/// Inserting one character costs exactly one edit.
pub proof fn law_osa_insertion(p: Seq<char>, x: char, s: Seq<char>)
    ensures
        osa_dist(p + s, p + seq![x] + s) == 1,
{
    let a = p + s;
    let b = p + seq![x] + s;
    let n = p.len();
    assert(a.take(n as int) =~= p);
    assert(b.take(n as int) =~= p);
    lemma_osa_equal_prefix(a, b, n);
    assert(osa(a, b, n, n + 1) <= 1);
    assert forall|t: int| 0 <= t < s.len() implies #[trigger] agree_at(a, b, n as int, n as int + 1, t) by {
        assert(a[n + t] == s[t]);
        assert(b[n + 1 + t] == s[t]);
    }
    lemma_osa_diagonal_run(a, b, n, n + 1, s.len());
    lemma_osa_lower(a, b, a.len(), b.len());
}

/// Deleting one character costs exactly one edit.
pub proof fn law_osa_deletion(p: Seq<char>, x: char, s: Seq<char>)
    ensures
        osa_dist(p + seq![x] + s, p + s) == 1,
{
    law_osa_insertion(p, x, s);
    law_osa_symmetric(p + seq![x] + s, p + s);
}

/// Replacing one character by a different one costs exactly one edit.
pub proof fn law_osa_substitution(p: Seq<char>, x: char, y: char, s: Seq<char>)
    requires
        x != y,
    ensures
        osa_dist(p + seq![x] + s, p + seq![y] + s) == 1,
{
    let a = p + seq![x] + s;
    let b = p + seq![y] + s;
    let n = p.len();
    assert(a.take(n as int) =~= p);
    assert(b.take(n as int) =~= p);
    lemma_osa_equal_prefix(a, b, n);
    assert(a[n as int] == x && b[n as int] == y);
    assert(osa(a, b, n + 1, n + 1) <= 1);
    assert forall|t: int| 0 <= t < s.len() implies #[trigger] agree_at(a, b, n as int + 1, n as int + 1, t) by {
        assert(a[n + 1 + t] == s[t]);
        assert(b[n + 1 + t] == s[t]);
    }
    lemma_osa_diagonal_run(a, b, n + 1, n + 1, s.len());
    law_osa_zero_iff_equal(a, b);
    assert(a[n as int] != b[n as int]);
}

/// `m1` turns into `m2` by one edit: an insertion, a deletion, a
/// substitution by a different character, or a swap of two different
/// adjacent characters.
pub open spec fn single_edit(m1: Seq<char>, m2: Seq<char>) -> bool {
    ||| m1.len() == 0 && m2.len() == 1
    ||| m1.len() == 1 && m2.len() == 0
    ||| m1.len() == 1 && m2.len() == 1 && m1[0] != m2[0]
    ||| m1.len() == 2 && m2.len() == 2 && m1[0] == m2[1] && m1[1] == m2[0] && m1[0] != m1[1]
}

/// `x` is `p + m1 + s` and `y` is `p + m2 + s`, where `m1` turns into `m2`
/// by one edit.
pub open spec fn edit_at(
    x: Seq<char>,
    y: Seq<char>,
    p: Seq<char>,
    m1: Seq<char>,
    m2: Seq<char>,
    s: Seq<char>,
) -> bool {
    x == p + m1 + s && y == p + m2 + s && single_edit(m1, m2)
}

/// `y` is `x` with exactly one edit applied.
pub open spec fn one_edit(x: Seq<char>, y: Seq<char>) -> bool {
    exists|p: Seq<char>, m1: Seq<char>, m2: Seq<char>, s: Seq<char>| #[trigger] edit_at(x, y, p, m1, m2, s)
}

/// Prefixes at distance at most one are equal or one edit apart.
proof fn lemma_osa_at_most_one(a: Seq<char>, b: Seq<char>, i: nat, j: nat)
    requires
        i <= a.len(),
        j <= b.len(),
        osa(a, b, i, j) <= 1,
    ensures
        a.take(i as int) == b.take(j as int) || one_edit(a.take(i as int), b.take(j as int)),
    decreases i + j,
{
    let x = a.take(i as int);
    let y = b.take(j as int);
    let e = Seq::<char>::empty();
    if i == 0 {
        if j == 0 {
            assert(x =~= y);
        } else {
            assert(edit_at(x, y, e, e, seq![b[0]], e)) by {
                assert(x =~= e + e + e);
                assert(y =~= e + seq![b[0]] + e);
            }
        }
    } else if j == 0 {
        assert(edit_at(x, y, e, seq![a[0]], e, e)) by {
            assert(x =~= e + seq![a[0]] + e);
            assert(y =~= e + e + e);
        }
    } else {
        let cost: nat = if a[i - 1] == b[j - 1] { 0 } else { 1 };
        assert(x =~= a.take(i - 1).push(a[i - 1]));
        assert(y =~= b.take(j - 1).push(b[j - 1]));
        if osa(a, b, (i - 1) as nat, j) == 0 {
            lemma_osa_zero_equal(a, b, (i - 1) as nat, j);
            assert(edit_at(x, y, y, seq![a[i - 1]], e, e)) by {
                assert(x =~= y + seq![a[i - 1]] + e);
                assert(y =~= y + e + e);
            }
        } else if osa(a, b, i, (j - 1) as nat) == 0 {
            lemma_osa_zero_equal(a, b, i, (j - 1) as nat);
            assert(edit_at(x, y, x, e, seq![b[j - 1]], e)) by {
                assert(x =~= x + e + e);
                assert(y =~= x + seq![b[j - 1]] + e);
            }
        } else if osa(a, b, (i - 1) as nat, (j - 1) as nat) + cost <= 1 {
            let x1 = a.take(i - 1);
            let y1 = b.take(j - 1);
            if cost == 1 {
                lemma_osa_zero_equal(a, b, (i - 1) as nat, (j - 1) as nat);
                assert(edit_at(x, y, x1, seq![a[i - 1]], seq![b[j - 1]], e)) by {
                    assert(x =~= x1 + seq![a[i - 1]] + e);
                    assert(y =~= x1 + seq![b[j - 1]] + e);
                }
            } else {
                lemma_osa_at_most_one(a, b, (i - 1) as nat, (j - 1) as nat);
                if x1 == y1 {
                    assert(x =~= y);
                } else {
                    let (p, m1, m2, s) = choose|p: Seq<char>, m1: Seq<char>, m2: Seq<char>, s: Seq<char>|
                        #[trigger] edit_at(x1, y1, p, m1, m2, s);
                    let c = a[i - 1];
                    assert(edit_at(x, y, p, m1, m2, s.push(c))) by {
                        assert(x =~= p + m1 + s.push(c));
                        assert(y =~= p + m2 + s.push(c));
                    }
                }
            }
        } else {
            lemma_osa_lower(a, b, (i - 1) as nat, j);
            lemma_osa_lower(a, b, i, (j - 1) as nat);
            assert(swapped_at(a, b, i as int, j as int));
            assert(osa(a, b, (i - 2) as nat, (j - 2) as nat) == 0);
            lemma_osa_zero_equal(a, b, (i - 2) as nat, (j - 2) as nat);
            let x2 = a.take(i - 2);
            assert(x =~= x2 + seq![a[i - 2], a[i - 1]] + e);
            assert(y =~= b.take(j - 2) + seq![b[j - 2], b[j - 1]] + e);
            if a[i - 2] == a[i - 1] {
                assert(x =~= y);
            } else {
                assert(edit_at(x, y, x2, seq![a[i - 2], a[i - 1]], seq![a[i - 1], a[i - 2]], e));
            }
        }
    }
}

/// The distance is one exactly when one insertion, deletion, substitution
/// or swap of two adjacent characters turns one string into the other.
pub proof fn law_osa_one_iff_single_edit(a: Seq<char>, b: Seq<char>)
    ensures
        osa_dist(a, b) == 1 <==> one_edit(a, b),
{
    assert(a.take(a.len() as int) =~= a);
    assert(b.take(b.len() as int) =~= b);
    if osa_dist(a, b) == 1 {
        lemma_osa_at_most_one(a, b, a.len(), b.len());
        law_osa_zero_iff_equal(a, b);
    }
    if one_edit(a, b) {
        let (p, m1, m2, s) = choose|p: Seq<char>, m1: Seq<char>, m2: Seq<char>, s: Seq<char>|
            #[trigger] edit_at(a, b, p, m1, m2, s);
        let e = Seq::<char>::empty();
        if m1.len() == 0 {
            assert(m2 =~= seq![m2[0]]);
            assert(a =~= p + s);
            law_osa_insertion(p, m2[0], s);
        } else if m2.len() == 0 {
            assert(m1 =~= seq![m1[0]]);
            assert(b =~= p + s);
            law_osa_deletion(p, m1[0], s);
        } else if m1.len() == 1 {
            assert(m1 =~= seq![m1[0]]);
            assert(m2 =~= seq![m2[0]]);
            law_osa_substitution(p, m1[0], m2[0], s);
        } else {
            assert(m1 =~= seq![m1[0], m1[1]]);
            assert(m2 =~= seq![m1[1], m1[0]]);
            law_osa_adjacent_transposition(p, m1[0], m1[1], s);
        }
    }
}

/// A slice of characters takes four bytes per character and its size in
/// bytes is a `usize`, so its length is well below `usize::MAX`.
fn char_slice_len_bound(a: &[char])
    ensures
        a@.len() < usize::MAX,
{
    let _bytes: usize = core::mem::size_of_val(a);
    proof {
        broadcast use vstd::layout::group_layout_axioms;

        assert(vstd::layout::spec_size_of_val::<[char]>(a) == a@.len() * 4);
    }
}

/// Optimal String Alignment (restricted Damerau-Levenshtein) distance.
/// Handles insert/delete/substitute plus adjacent transposition
/// (`donwloads` is one edit away from `downloads`).
pub fn osa_distance(a: &[char], b: &[char]) -> (d: usize)
    ensures
        d == osa_dist(a@, b@),
{
    char_slice_len_bound(a);
    char_slice_len_bound(b);
    let la = a.len();
    let lb = b.len();
    if la == 0 {
        return lb;
    }
    if lb == 0 {
        return la;
    }
    let mut prev2: Vec<usize> = vec![0usize; lb + 1];
    let mut prev: Vec<usize> = Vec::with_capacity(lb + 1);
    let mut k: usize = 0;
    while k <= lb
        invariant
            k <= lb + 1,
            lb == b@.len(),
            lb < usize::MAX,
            prev@.len() == k,
            forall|t: int| 0 <= t < k ==> prev@[t] == osa(a@, b@, 0, t as nat),
        decreases lb + 1 - k,
    {
        prev.push(k);
        k += 1;
    }
    let mut cur: Vec<usize> = vec![0usize; lb + 1];
    let mut i: usize = 1;
    while i <= la
        invariant
            1 <= i <= la + 1,
            la == a@.len(),
            lb == b@.len(),
            la < usize::MAX,
            lb < usize::MAX,
            lb > 0,
            prev@.len() == lb + 1,
            prev2@.len() == lb + 1,
            cur@.len() == lb + 1,
            forall|t: int| 0 <= t <= lb ==> prev@[t] == osa(a@, b@, (i - 1) as nat, t as nat),
            i >= 2 ==> forall|t: int|
                0 <= t <= lb ==> prev2@[t] == osa(a@, b@, (i - 2) as nat, t as nat),
        decreases la + 1 - i,
    {
        cur.set(0, i);
        let mut j: usize = 1;
        while j <= lb
            invariant
                1 <= i <= la,
                1 <= j <= lb + 1,
                la == a@.len(),
                lb == b@.len(),
                la < usize::MAX,
                lb < usize::MAX,
                prev@.len() == lb + 1,
                prev2@.len() == lb + 1,
                cur@.len() == lb + 1,
                forall|t: int| 0 <= t <= lb ==> prev@[t] == osa(a@, b@, (i - 1) as nat, t as nat),
                i >= 2 ==> forall|t: int|
                    0 <= t <= lb ==> prev2@[t] == osa(a@, b@, (i - 2) as nat, t as nat),
                forall|t: int| 0 <= t < j ==> cur@[t] == osa(a@, b@, i as nat, t as nat),
            decreases lb + 1 - j,
        {
            proof {
                lemma_osa_upper(a@, b@, (i - 1) as nat, j as nat);
                lemma_osa_upper(a@, b@, i as nat, (j - 1) as nat);
                lemma_osa_upper(a@, b@, (i - 1) as nat, (j - 1) as nat);
            }
            let cost: usize = if a[i - 1] == b[j - 1] { 0 } else { 1 };
            let up = prev[j] + 1;
            let left = cur[j - 1] + 1;
            let diag = prev[j - 1] + cost;
            let mut v = if up <= left { up } else { left };
            if diag < v {
                v = diag;
            }
            if i > 1 && j > 1 && a[i - 1] == b[j - 2] && a[i - 2] == b[j - 1] {
                proof {
                    lemma_osa_upper(a@, b@, (i - 2) as nat, (j - 2) as nat);
                }
                let tr = prev2[j - 2] + 1;
                if tr < v {
                    v = tr;
                }
            }
            cur.set(j, v);
            j += 1;
        }
        std::mem::swap(&mut prev2, &mut prev);
        std::mem::swap(&mut prev, &mut cur);
        i += 1;
    }
    prev[lb]
}

// ---------------------------------------------------------------------------
// Subsequence matching (abbreviations)
// ---------------------------------------------------------------------------

/// Whether `c` has the Unicode `Uppercase` property.
pub uninterp spec fn upper_case(c: char) -> bool;

/// Whether `c` has the Unicode `Lowercase` property.
pub uninterp spec fn lower_case(c: char) -> bool;

/// The Unicode lower-case mapping of a string.
pub uninterp spec fn to_lower(s: Seq<char>) -> Seq<char>;

/// Calls `char::is_uppercase`, which tests the Unicode `Uppercase`
/// property; the result is named `upper_case(c)` rather than spelled out,
/// since the property is a long Unicode table.
#[verifier::external_body]
fn char_is_uppercase(c: char) -> (b: bool)
    ensures
        b == upper_case(c),
{
    c.is_uppercase()
}

/// Calls `char::is_lowercase`, which tests the Unicode `Lowercase`
/// property; the result is named `lower_case(c)`.
#[verifier::external_body]
fn char_is_lowercase(c: char) -> (b: bool)
    ensures
        b == lower_case(c),
{
    c.is_lowercase()
}

/// Calls `str::to_lowercase`, the Unicode lower-case mapping of the whole
/// string (which depends only on the string); the result is named
/// `to_lower(s@)`. Nothing more is stated, not even its length, which the
/// mapping may change.
#[verifier::external_body]
fn str_to_lowercase(s: &str) -> (r: String)
    ensures
        r@ == to_lower(s@),
{
    s.to_lowercase()
}

/// Greedy leftmost positions in `b`, at or after `from`, of the characters
/// of `q` in order; `None` when `q` is not a subsequence of `b[from..]`.
pub open spec fn greedy_positions(q: Seq<char>, b: Seq<char>, from: int) -> Option<Seq<int>>
    decreases q.len(),
{
    if q.len() == 0 {
        Some(seq![])
    } else if from < 0 || from > b.len() {
        None
    } else {
        let k = from + index_of(b.skip(from), q[0]);
        if k < b.len() {
            match greedy_positions(q.drop_first(), b, k + 1) {
                Some(r) => Some(seq![k] + r),
                None => None,
            }
        } else {
            None
        }
    }
}

pub open spec fn is_separator(c: char) -> bool {
    c == '-' || c == '_' || c == '.' || c == ' ' || c == '/'
}

/// A matched position starts a word: it is the first character, follows a
/// separator in the lower-cased text `bl`, or is a lower-to-upper case
/// change in the unlowered text `base`.
pub open spec fn at_boundary(p: int, bl: Seq<char>, base: Seq<char>) -> bool {
    ||| p == 0
    ||| is_separator(bl[p - 1])
    ||| (p > 0 && p < base.len() && upper_case(base[p]) && lower_case(base[p - 1]))
}

/// The word-start rule on what is known of a matched position: the
/// lower-cased character before it (`None` at the very start), whether the
/// position also lies inside the unlowered candidate, and whether there the
/// character is upper case and the one before it lower case.
pub open spec fn starts_word_spec(
    prev: Option<char>,
    in_base: bool,
    upper_here: bool,
    lower_before: bool,
) -> bool {
    match prev {
        None => true,
        Some(c) => is_separator(c) || (in_base && upper_here && lower_before),
    }
}

/// Whether a matched position starts a word, from the character before it
/// and the case flags of the unlowered candidate there.
pub fn starts_word(prev: Option<char>, in_base: bool, upper_here: bool, lower_before: bool) -> (b:
    bool)
    ensures
        b == starts_word_spec(prev, in_base, upper_here, lower_before),
{
    match prev {
        None => true,
        Some(c) => c == '-' || c == '_' || c == '.' || c == ' ' || c == '/' || (in_base && upper_here
            && lower_before),
    }
}

/// A matched position starts a word exactly when it is the first
/// character, follows one of `-`, `_`, `.`, space or `/` in the lower-cased
/// candidate, or is an upper-case character right after a lower-case one in
/// the candidate as given.
pub proof fn law_word_start_rule(p: int, bl: Seq<char>, base: Seq<char>)
    requires
        0 <= p <= bl.len(),
    ensures
        p == 0 ==> at_boundary(p, bl, base),
        p > 0 ==> (at_boundary(p, bl, base) <==> (bl[p - 1] == '-' || bl[p - 1] == '_' || bl[p - 1]
            == '.' || bl[p - 1] == ' ' || bl[p - 1] == '/' || (p < base.len() && upper_case(base[p])
            && lower_case(base[p - 1])))),
{
}

/// After `-`, `_`, `.`, space or `/` a matched position starts a word,
/// whatever the case flags; after any other character only a rise from
/// lower to upper case inside the candidate makes it one; the very first
/// position always does.
pub proof fn law_starts_word(prev: Option<char>, in_base: bool, upper_here: bool, lower_before: bool)
    ensures
        prev is None ==> starts_word_spec(prev, in_base, upper_here, lower_before),
        prev matches Some(c) ==> (starts_word_spec(prev, in_base, upper_here, lower_before) <==> (c
            == '-' || c == '_' || c == '.' || c == ' ' || c == '/' || (in_base && upper_here
            && lower_before))),
{
}

pub open spec fn boundary_count(ps: Seq<int>, bl: Seq<char>, base: Seq<char>) -> nat
    decreases ps.len(),
{
    if ps.len() == 0 {
        0
    } else {
        (if at_boundary(ps[0], bl, base) {
            1nat
        } else {
            0nat
        }) + boundary_count(ps.drop_first(), bl, base)
    }
}

/// The shape of a subsequence match: what the score is computed from.
pub struct SubseqMatch {
    /// Length of the lower-cased query.
    pub query_len: usize,
    /// Length of the lower-cased candidate.
    pub base_len: usize,
    /// Position of the first matched character.
    pub first: usize,
    /// Position of the last matched character.
    pub last: usize,
    /// How many matched characters start a word.
    pub at_boundary: usize,
}

pub open spec fn positions_view(v: Seq<usize>) -> Seq<int> {
    v.map_values(|p: usize| p as int)
}

/// The match that `subseq_match` reports, given the lower-cased query
/// `ql`, the lower-cased candidate `bl` and the candidate `base` as given.
pub open spec fn subseq_match_spec(
    ql: Seq<char>,
    bl: Seq<char>,
    base: Seq<char>,
    r: Option<SubseqMatch>,
) -> bool {
    match r {
        None => ql.len() == 0 || greedy_positions(ql, bl, 0) is None,
        Some(m) => {
            &&& ql.len() > 0
            &&& greedy_positions(ql, bl, 0) matches Some(ps)
            &&& m.query_len == ql.len()
            &&& m.base_len == bl.len()
            &&& m.first == ps[0]
            &&& m.last == ps.last()
            &&& m.first <= m.last < m.base_len
            &&& embeds_at(ql, bl, ps, 0)
            &&& m.at_boundary == boundary_count(ps, bl, base)
        },
    }
}

/// Greedy leftmost match of the query `ql` as a subsequence of `bl`, both
/// already lower-cased; `base` is the candidate before lower-casing, where
/// case changes mark word starts. `None` when `ql` is empty or does not occur.
pub fn subseq_match_lowered(ql: &str, bl: &str, base: &str) -> (r: Option<SubseqMatch>)
    ensures
        subseq_match_spec(ql@, bl@, base@, r),
{
    let ql_v = chars_of(ql);
    let bl_v = chars_of(bl);
    let bc = chars_of(base);
    if ql_v.len() == 0 {
        return None;
    }
    let ghost g = greedy_positions(ql_v@, bl_v@, 0);
    let mut positions: Vec<usize> = Vec::new();
    let mut j: usize = 0;
    let mut qi: usize = 0;
    assert(ql_v@.skip(0) =~= ql_v@);
    while qi < ql_v.len()
        invariant
            qi <= ql_v@.len(),
            j <= bl_v@.len(),
            ql_v@ == ql@,
            bl_v@ == bl@,
            g == greedy_positions(ql_v@, bl_v@, 0),
            positions@.len() == qi,
            forall|t: int| 0 <= t < qi ==> positions@[t] < bl_v@.len(),
            g == match greedy_positions(ql_v@.skip(qi as int), bl_v@, j as int) {
                Some(r) => Some(positions_view(positions@) + r),
                None => None::<Seq<int>>,
            },
        decreases ql_v@.len() - qi,
    {
        let c = ql_v[qi];
        let k = find_char(&bl_v, j, bl_v.len(), c);
        let ghost rest = ql_v@.skip(qi as int);
        assert(rest[0] == c);
        assert(rest.drop_first() =~= ql_v@.skip(qi + 1));
        assert(bl_v@.skip(j as int) =~= bl_v@.subrange(j as int, bl_v@.len() as int));
        assert(index_of(bl_v@.skip(j as int), c) == k - j);
        if k == bl_v.len() {
            assert(greedy_positions(rest, bl_v@, j as int) is None);
            return None;
        }
        let ghost before = positions_view(positions@);
        positions.push(k);
        assert(positions_view(positions@) =~= before.push(k as int));
        proof {
            match greedy_positions(ql_v@.skip(qi + 1), bl_v@, k + 1) {
                Some(r2) => {
                    assert(before.push(k as int) + r2 =~= before + (seq![k as int] + r2));
                },
                None => {},
            }
        }
        j = k + 1;
        qi += 1;
    }
    let ghost ps = positions_view(positions@);
    assert(ql_v@.skip(qi as int) =~= Seq::<char>::empty());
    assert(ps + Seq::<int>::empty() =~= ps);
    assert(g == Some(ps));
    let mut count: usize = 0;
    let mut t: usize = 0;
    assert(ps.skip(0) =~= ps);
    while t < positions.len()
        invariant
            t <= positions@.len(),
            ps == positions_view(positions@),
            bc@ == base@,
            forall|u: int| 0 <= u < positions@.len() ==> positions@[u] < bl_v@.len(),
            count <= t,
            count + boundary_count(ps.skip(t as int), bl_v@, bc@) == boundary_count(ps, bl_v@, bc@),
        decreases positions@.len() - t,
    {
        let p = positions[t];
        let prev = if p == 0 {
            None
        } else {
            Some(bl_v[p - 1])
        };
        let in_base = p > 0 && p < bc.len();
        let upper_here = in_base && char_is_uppercase(bc[p]);
        let lower_before = in_base && char_is_lowercase(bc[p - 1]);
        let start = starts_word(prev, in_base, upper_here, lower_before);
        assert(ps.skip(t as int)[0] == p as int);
        assert(ps.skip(t as int).drop_first() =~= ps.skip(t + 1));
        assert(start == at_boundary(p as int, bl_v@, bc@));
        if start {
            count += 1;
        }
        t += 1;
    }
    assert(ps.skip(t as int) =~= Seq::<int>::empty());
    proof {
        lemma_greedy_sound(ql_v@, bl_v@, 0);
        if positions@.len() > 1 {
            assert(ps[0] < ps[ps.len() - 1]);
        }
    }
    assert(ps[0] == positions@[0] as int);
    assert(ps.last() == positions@[positions@.len() - 1] as int);
    Some(
        SubseqMatch {
            query_len: ql_v.len(),
            base_len: bl_v.len(),
            first: positions[0],
            last: positions[positions.len() - 1],
            at_boundary: count,
        },
    )
}

/// Greedy leftmost match of the lower-cased `q` as a subsequence of the
/// lower-cased `base`; `None` when `q` is empty or does not occur.
pub fn subseq_match(q: &str, base: &str) -> (r: Option<SubseqMatch>)
    ensures
        subseq_match_spec(to_lower(q@), to_lower(base@), base@, r),
{
    let ql = str_to_lowercase(q);
    let bl = str_to_lowercase(base);
    subseq_match_lowered(ql.as_str(), bl.as_str(), base)
}

/// `ps` places the characters of `q`, in order, at strictly increasing
/// positions of `b`, none before `from`.
pub open spec fn embeds_at(q: Seq<char>, b: Seq<char>, ps: Seq<int>, from: int) -> bool {
    &&& ps.len() == q.len()
    &&& forall|i: int| 0 <= i < ps.len() ==> from <= #[trigger] ps[i] < b.len() && b[ps[i]] == q[i]
    &&& forall|i: int, j: int| 0 <= i < j < ps.len() ==> ps[i] < ps[j]
}

/// `q` is a subsequence of `b`.
pub open spec fn is_subsequence(q: Seq<char>, b: Seq<char>) -> bool {
    exists|ps: Seq<int>| embeds_at(q, b, ps, 0)
}

proof fn lemma_greedy_sound(q: Seq<char>, b: Seq<char>, from: int)
    requires
        greedy_positions(q, b, from) is Some,
    ensures
        embeds_at(q, b, greedy_positions(q, b, from)->0, from),
    decreases q.len(),
{
    if q.len() > 0 {
        let k = from + index_of(b.skip(from), q[0]);
        crate::text::lemma_index_of(b.skip(from), q[0]);
        assert(b[k] == b.skip(from)[k - from]);
        lemma_greedy_sound(q.drop_first(), b, k + 1);
        let r = greedy_positions(q.drop_first(), b, k + 1)->0;
        let ps = seq![k] + r;
        assert forall|i: int| 0 <= i < ps.len() implies from <= #[trigger] ps[i] < b.len() && b[ps[i]]
            == q[i] by {
            if i > 0 {
                assert(ps[i] == r[i - 1]);
                assert(q[i] == q.drop_first()[i - 1]);
            }
        }
        assert forall|i: int, j: int| 0 <= i < j < ps.len() implies ps[i] < ps[j] by {
            if i > 0 {
                assert(ps[i] == r[i - 1] && ps[j] == r[j - 1]);
            } else {
                assert(ps[j] == r[j - 1]);
            }
        }
    }
}

proof fn lemma_greedy_complete(q: Seq<char>, b: Seq<char>, ps: Seq<int>, from: int)
    requires
        embeds_at(q, b, ps, from),
        0 <= from <= b.len(),
    ensures
        greedy_positions(q, b, from) is Some,
        q.len() > 0 ==> (greedy_positions(q, b, from)->0)[0] <= ps[0],
    decreases q.len(),
{
    if q.len() > 0 {
        let c = q[0];
        let k = from + index_of(b.skip(from), c);
        crate::text::lemma_index_of(b.skip(from), c);
        assert(b.skip(from)[ps[0] - from] == c);
        assert(k <= ps[0]);
        let rest = ps.drop_first();
        assert(embeds_at(q.drop_first(), b, rest, k + 1)) by {
            assert forall|i: int| 0 <= i < rest.len() implies k + 1 <= #[trigger] rest[i] < b.len()
                && b[rest[i]] == q.drop_first()[i] by {
                assert(rest[i] == ps[i + 1]);
                assert(ps[0] < ps[i + 1]);
            }
        }
        lemma_greedy_complete(q.drop_first(), b, rest, k + 1);
    }
}

/// The greedy match succeeds exactly when the query is a subsequence, and
/// then it is an embedding that starts no later than any other.
pub proof fn law_greedy_match_iff_subsequence(q: Seq<char>, b: Seq<char>)
    ensures
        greedy_positions(q, b, 0) is Some <==> is_subsequence(q, b),
        greedy_positions(q, b, 0) matches Some(ps) ==> embeds_at(q, b, ps, 0),
        greedy_positions(q, b, 0) matches Some(ps) ==> forall|other: Seq<int>|
            embeds_at(q, b, other, 0) && q.len() > 0 ==> ps[0] <= other[0],
{
    if greedy_positions(q, b, 0) is Some {
        lemma_greedy_sound(q, b, 0);
        assert(embeds_at(q, b, greedy_positions(q, b, 0)->0, 0));
    }
    if is_subsequence(q, b) {
        let ps = choose|ps: Seq<int>| embeds_at(q, b, ps, 0);
        lemma_greedy_complete(q, b, ps, 0);
    }
    assert forall|other: Seq<int>| embeds_at(q, b, other, 0) && q.len() > 0 implies (greedy_positions(
        q,
        b,
        0,
    )->0)[0] <= other[0] by {
        lemma_greedy_complete(q, b, other, 0);
    }
}

} // verus!
