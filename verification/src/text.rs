//! Character-level text helpers with exact specifications: whitespace,
//! trimming, searching, line splitting, and decimal numbers.
//!
//! Text is modelled as `Seq<char>`, the view of `str` and `String`. The exec
//! helpers work on `[char]` slices between two indices so that callers can
//! scan a string once and cut it without copying.

use vstd::prelude::*;

verus! {

/// The texts of a sequence of strings.
pub open spec fn strings_view(v: Seq<String>) -> Seq<Seq<char>> {
    v.map_values(|s: String| s@)
}

/// The texts of a sequence of string slices.
pub open spec fn strs_view(v: Seq<&str>) -> Seq<Seq<char>> {
    v.map_values(|s: &str| s@)
}

// ---------------------------------------------------------------------------
// Whitespace and trimming
// ---------------------------------------------------------------------------

/// Unicode `White_Space`, the set that `char::is_whitespace` tests.
pub open spec fn is_ws(c: char) -> bool {
    let n = c as u32;
    ||| 9 <= n <= 13
    ||| n == 32
    ||| n == 0x85
    ||| n == 0xA0
    ||| n == 0x1680
    ||| 0x2000 <= n <= 0x200A
    ||| n == 0x2028
    ||| n == 0x2029
    ||| n == 0x202F
    ||| n == 0x205F
    ||| n == 0x3000
}

/// Whether `c` is whitespace in the sense of `char::is_whitespace`.
pub fn is_whitespace(c: char) -> (b: bool)
    ensures
        b == is_ws(c),
{
    let n = c as u32;
    (9 <= n && n <= 13) || n == 32 || n == 0x85 || n == 0xA0 || n == 0x1680 || (0x2000 <= n && n
        <= 0x200A) || n == 0x2028 || n == 0x2029 || n == 0x202F || n == 0x205F || n == 0x3000
}

/// Number of whitespace characters at the front of `s`.
pub open spec fn lead_ws(s: Seq<char>) -> nat
    decreases s.len(),
{
    if s.len() > 0 && is_ws(s[0]) {
        1 + lead_ws(s.drop_first())
    } else {
        0
    }
}

/// Number of whitespace characters at the back of `s`.
pub open spec fn trail_ws(s: Seq<char>) -> nat
    decreases s.len(),
{
    if s.len() > 0 && is_ws(s.last()) {
        1 + trail_ws(s.drop_last())
    } else {
        0
    }
}

/// `s` without its leading whitespace (`str::trim_start`).
pub open spec fn trim_start(s: Seq<char>) -> Seq<char> {
    s.skip(lead_ws(s) as int)
}

/// `s` without its trailing whitespace (`str::trim_end`).
pub open spec fn trim_end(s: Seq<char>) -> Seq<char> {
    s.take(s.len() - trail_ws(s))
}

/// `s` without leading and trailing whitespace (`str::trim`).
pub open spec fn trim(s: Seq<char>) -> Seq<char> {
    trim_end(trim_start(s))
}

pub proof fn lemma_lead_ws_bound(s: Seq<char>)
    ensures
        lead_ws(s) <= s.len(),
        lead_ws(s) < s.len() ==> !is_ws(s[lead_ws(s) as int]),
        forall|k: int| 0 <= k < lead_ws(s) ==> is_ws(#[trigger] s[k]),
    decreases s.len(),
{
    if s.len() > 0 && is_ws(s[0]) {
        lemma_lead_ws_bound(s.drop_first());
        assert forall|k: int| 0 <= k < lead_ws(s) implies is_ws(#[trigger] s[k]) by {
            if k > 0 {
                assert(s[k] == s.drop_first()[k - 1]);
            }
        }
    }
}

pub proof fn lemma_trail_ws_bound(s: Seq<char>)
    ensures
        trail_ws(s) <= s.len(),
        trail_ws(s) < s.len() ==> !is_ws(s[s.len() - trail_ws(s) - 1]),
        forall|k: int| s.len() - trail_ws(s) <= k < s.len() ==> is_ws(#[trigger] s[k]),
    decreases s.len(),
{
    if s.len() > 0 && is_ws(s.last()) {
        lemma_trail_ws_bound(s.drop_last());
        assert forall|k: int| s.len() - trail_ws(s) <= k < s.len() implies is_ws(#[trigger] s[k]) by {
            if k < s.len() - 1 {
                assert(s[k] == s.drop_last()[k]);
            }
        }
    }
}

/// First index at or after `from` (and before `to`) that is not whitespace.
pub fn skip_ws(v: &[char], from: usize, to: usize) -> (m: usize)
    requires
        from <= to <= v@.len(),
    ensures
        from <= m <= to,
        m - from == lead_ws(v@.subrange(from as int, to as int)),
        trim_start(v@.subrange(from as int, to as int)) == v@.subrange(m as int, to as int),
{
    let mut k = from;
    while k < to && is_whitespace(v[k])
        invariant
            from <= k <= to <= v@.len(),
            lead_ws(v@.subrange(from as int, to as int)) == (k - from) + lead_ws(
                v@.subrange(k as int, to as int),
            ),
        decreases to - k,
    {
        assert(v@.subrange(k as int, to as int).drop_first() =~= v@.subrange(k + 1, to as int));
        k += 1;
    }
    if k < to {
        assert(v@.subrange(k as int, to as int)[0] == v@[k as int]);
    }
    assert(v@.subrange(from as int, to as int).skip(k - from) =~= v@.subrange(k as int, to as int));
    k
}

/// Index after the last character before `to` (and at or after `from`) that is
/// not whitespace.
pub fn back_ws(v: &[char], from: usize, to: usize) -> (m: usize)
    requires
        from <= to <= v@.len(),
    ensures
        from <= m <= to,
        to - m == trail_ws(v@.subrange(from as int, to as int)),
        trim_end(v@.subrange(from as int, to as int)) == v@.subrange(from as int, m as int),
{
    let mut k = to;
    while k > from && is_whitespace(v[k - 1])
        invariant
            from <= k <= to <= v@.len(),
            trail_ws(v@.subrange(from as int, to as int)) == (to - k) + trail_ws(
                v@.subrange(from as int, k as int),
            ),
        decreases k - from,
    {
        assert(v@.subrange(from as int, k as int).drop_last() =~= v@.subrange(
            from as int,
            k - 1,
        ));
        k -= 1;
    }
    if k > from {
        assert(v@.subrange(from as int, k as int).last() == v@[k - 1]);
    }
    assert(v@.subrange(from as int, to as int).take(k - from) =~= v@.subrange(
        from as int,
        k as int,
    ));
    k
}

/// The bounds of `trim(v[from..to])` inside `v`.
pub fn trim_range(v: &[char], from: usize, to: usize) -> (r: (usize, usize))
    requires
        from <= to <= v@.len(),
    ensures
        from <= r.0 <= r.1 <= to,
        trim(v@.subrange(from as int, to as int)) == v@.subrange(r.0 as int, r.1 as int),
{
    let a = skip_ws(v, from, to);
    let b = back_ws(v, a, to);
    (a, b)
}

// ---------------------------------------------------------------------------
// Prefixes and searching
// ---------------------------------------------------------------------------

/// Whether `s` begins with `p`.
pub open spec fn starts_with(s: Seq<char>, p: Seq<char>) -> bool {
    p.len() <= s.len() && s.take(p.len() as int) == p
}

/// Whether `v[from..to]` begins with `p`.
pub fn has_prefix(v: &[char], from: usize, to: usize, p: &[char]) -> (b: bool)
    requires
        from <= to <= v@.len(),
    ensures
        b == starts_with(v@.subrange(from as int, to as int), p@),
{
    if to - from < p.len() {
        return false;
    }
    let mut k: usize = 0;
    while k < p.len()
        invariant
            from <= to <= v@.len(),
            p@.len() <= to - from,
            k <= p@.len(),
            forall|t: int| 0 <= t < k ==> v@[from + t] == p@[t],
        decreases p@.len() - k,
    {
        if v[from + k] != p[k] {
            assert(v@.subrange(from as int, to as int).take(p@.len() as int)[k as int] != p@[k as int]);
            return false;
        }
        k += 1;
    }
    assert(v@.subrange(from as int, to as int).take(p@.len() as int) =~= p@);
    true
}

/// Whether two character slices hold the same text.
pub fn chars_equal(a: &[char], b: &[char]) -> (r: bool)
    ensures
        r == (a@ == b@),
{
    if a.len() != b.len() {
        return false;
    }
    let mut k: usize = 0;
    while k < a.len()
        invariant
            a@.len() == b@.len(),
            k <= a@.len(),
            forall|t: int| 0 <= t < k ==> a@[t] == b@[t],
        decreases a@.len() - k,
    {
        if a[k] != b[k] {
            return false;
        }
        k += 1;
    }
    assert(a@ =~= b@);
    true
}

/// Position of the first `c` in `s`, or `s.len()` when there is none.
pub open spec fn index_of(s: Seq<char>, c: char) -> nat
    decreases s.len(),
{
    if s.len() == 0 {
        0
    } else if s[0] == c {
        0
    } else {
        1 + index_of(s.drop_first(), c)
    }
}

pub proof fn lemma_index_of(s: Seq<char>, c: char)
    ensures
        index_of(s, c) <= s.len(),
        index_of(s, c) < s.len() ==> s[index_of(s, c) as int] == c,
        forall|k: int| 0 <= k < index_of(s, c) ==> #[trigger] s[k] != c,
    decreases s.len(),
{
    if s.len() > 0 && s[0] != c {
        lemma_index_of(s.drop_first(), c);
        assert forall|k: int| 0 <= k < index_of(s, c) implies #[trigger] s[k] != c by {
            if k > 0 {
                assert(s[k] == s.drop_first()[k - 1]);
            }
        }
    }
}

/// Whether `c` occurs in `s`.
pub open spec fn has_char(s: Seq<char>, c: char) -> bool {
    index_of(s, c) < s.len()
}

/// First position of `c` in `v[from..to]`, or `to` when there is none.
pub fn find_char(v: &[char], from: usize, to: usize, c: char) -> (m: usize)
    requires
        from <= to <= v@.len(),
    ensures
        from <= m <= to,
        m - from == index_of(v@.subrange(from as int, to as int), c),
{
    let mut k = from;
    while k < to && v[k] != c
        invariant
            from <= k <= to <= v@.len(),
            index_of(v@.subrange(from as int, to as int), c) == (k - from) + index_of(
                v@.subrange(k as int, to as int),
                c,
            ),
        decreases to - k,
    {
        assert(v@.subrange(k as int, to as int).drop_first() =~= v@.subrange(k + 1, to as int));
        k += 1;
    }
    if k < to {
        assert(v@.subrange(k as int, to as int)[0] == v@[k as int]);
    }
    k
}

/// Position of the last `c` in `s`, plus one; zero when there is none.
pub open spec fn after_last(s: Seq<char>, c: char) -> nat
    decreases s.len(),
{
    if s.len() == 0 {
        0
    } else if s.last() == c {
        s.len()
    } else {
        after_last(s.drop_last(), c)
    }
}

/// Index just after the last `c` in `v[from..to]`, or `from` when there is none.
pub fn find_after_last(v: &[char], from: usize, to: usize, c: char) -> (m: usize)
    requires
        from <= to <= v@.len(),
    ensures
        from <= m <= to,
        m - from == after_last(v@.subrange(from as int, to as int), c),
{
    let mut k = to;
    while k > from && v[k - 1] != c
        invariant
            from <= k <= to <= v@.len(),
            after_last(v@.subrange(from as int, to as int), c) == after_last(
                v@.subrange(from as int, k as int),
                c,
            ),
        decreases k - from,
    {
        assert(v@.subrange(from as int, k as int).drop_last() =~= v@.subrange(
            from as int,
            k - 1,
        ));
        k -= 1;
    }
    if k > from {
        assert(v@.subrange(from as int, k as int).last() == v@[k - 1]);
    }
    k
}

/// Number of occurrences of `c` in `s`.
pub open spec fn count_char(s: Seq<char>, c: char) -> nat
    decreases s.len(),
{
    if s.len() == 0 {
        0
    } else {
        count_char(s.drop_last(), c) + if s.last() == c { 1nat } else { 0nat }
    }
}

// ---------------------------------------------------------------------------
// Splitting
// ---------------------------------------------------------------------------

/// The pieces of `s` between occurrences of `c` (`str::split`): never empty,
/// and one more piece than there are separators.
pub open spec fn split_on(s: Seq<char>, c: char) -> Seq<Seq<char>>
    decreases s.len(),
{
    let k = index_of(s, c);
    if k < s.len() {
        seq![s.take(k as int)] + split_on(s.skip(k as int + 1), c)
    } else {
        seq![s]
    }
}

/// `s` without one trailing carriage return.
pub open spec fn strip_cr(s: Seq<char>) -> Seq<char> {
    if s.len() > 0 && s.last() == '\r' {
        s.drop_last()
    } else {
        s
    }
}

/// The lines of `s` as `str::lines` yields them: split at `\n`, a `\r`
/// right before a `\n` dropped, and no empty line after a final `\n`.
pub open spec fn lines(s: Seq<char>) -> Seq<Seq<char>>
    decreases s.len(),
{
    if s.len() == 0 {
        seq![]
    } else {
        let k = index_of(s, '\n');
        if k < s.len() {
            seq![strip_cr(s.take(k as int))] + lines(s.skip(k as int + 1))
        } else {
            seq![s]
        }
    }
}

/// One step of `lines`: the first line of `v[from..to]` ends at `nl`.
pub proof fn lemma_lines_step(v: Seq<char>, from: int, nl: int, to: int)
    requires
        0 <= from <= nl <= to <= v.len(),
        nl - from == index_of(v.subrange(from, to), '\n'),
        from < to,
    ensures
        nl < to ==> lines(v.subrange(from, to)) == seq![strip_cr(v.subrange(from, nl))] + lines(
            v.subrange(nl + 1, to),
        ),
        nl == to ==> lines(v.subrange(from, to)) == seq![v.subrange(from, to)],
{
    let s = v.subrange(from, to);
    if nl < to {
        assert(s.take(nl - from) =~= v.subrange(from, nl));
        assert(s.skip(nl - from + 1) =~= v.subrange(nl + 1, to));
    }
}

/// One step of `split_on`: the first piece of `v[from..to]` ends at `k`.
pub proof fn lemma_split_step(v: Seq<char>, from: int, k: int, to: int, c: char)
    requires
        0 <= from <= k <= to <= v.len(),
        k - from == index_of(v.subrange(from, to), c),
    ensures
        k < to ==> split_on(v.subrange(from, to), c) == seq![v.subrange(from, k)] + split_on(
            v.subrange(k + 1, to),
            c,
        ),
        k == to ==> split_on(v.subrange(from, to), c) == seq![v.subrange(from, to)],
{
    let s = v.subrange(from, to);
    if k < to {
        assert(s.take(k - from) =~= v.subrange(from, k));
        assert(s.skip(k - from + 1) =~= v.subrange(k + 1, to));
    }
}

/// Where the next line of `v[pos..n]` ends (before any `\r\n`) and where the
/// line after it starts.
pub fn next_line_bounds(v: &[char], pos: usize, n: usize) -> (r: (usize, usize))
    requires
        pos < n == v@.len(),
    ensures
        pos <= r.0 <= r.1 <= n,
        r.1 > pos,
        lines(v@.subrange(pos as int, n as int)) == seq![v@.subrange(pos as int, r.0 as int)]
            + lines(v@.subrange(r.1 as int, n as int)),
{
    let nl = find_char(v, pos, n, '\n');
    proof {
        lemma_lines_step(v@, pos as int, nl as int, n as int);
    }
    if nl == n {
        let ghost empty: Seq<char> = seq![];
        assert(v@.subrange(n as int, n as int) =~= empty);
        assert(lines(empty) =~= Seq::<Seq<char>>::empty());
        assert(seq![v@.subrange(pos as int, n as int)] + lines(empty) =~= seq![
            v@.subrange(pos as int, n as int),
        ]);
        return (n, n);
    }
    let ghost whole = v@.subrange(pos as int, nl as int);
    if nl > pos && v[nl - 1] == '\r' {
        assert(whole.last() == v@[nl - 1]);
        assert(whole.drop_last() =~= v@.subrange(pos as int, nl - 1));
        (nl - 1, nl + 1)
    } else {
        if nl > pos {
            assert(whole.last() == v@[nl - 1]);
        }
        (nl, nl + 1)
    }
}

// ---------------------------------------------------------------------------
// Decimal numbers
// ---------------------------------------------------------------------------

pub open spec fn is_digit(c: char) -> bool {
    '0' <= c && c <= '9'
}

pub open spec fn digit_value(c: char) -> nat {
    ((c as u32) - ('0' as u32)) as nat
}

pub open spec fn all_digits(s: Seq<char>) -> bool {
    forall|k: int| 0 <= k < s.len() ==> is_digit(#[trigger] s[k])
}

/// The number that the decimal digits `s` spell.
pub open spec fn digits_value(s: Seq<char>) -> nat
    decreases s.len(),
{
    if s.len() == 0 {
        0
    } else {
        digits_value(s.drop_last()) * 10 + digit_value(s.last())
    }
}

/// What `s.parse::<u64>()` accepts: an optional `+`, then one or more
/// decimal digits whose value fits in a `u64`.
pub open spec fn parse_u64(s: Seq<char>) -> Option<u64> {
    let d = if s.len() > 0 && s[0] == '+' { s.drop_first() } else { s };
    if d.len() > 0 && all_digits(d) && digits_value(d) <= u64::MAX {
        Some(digits_value(d) as u64)
    } else {
        None
    }
}

proof fn lemma_digits_value_monotone(s: Seq<char>, k: int)
    requires
        0 <= k <= s.len(),
    ensures
        digits_value(s.take(k)) <= digits_value(s),
    decreases s.len() - k,
{
    if k < s.len() {
        lemma_digits_value_monotone(s, k + 1);
        assert(s.take(k + 1).drop_last() =~= s.take(k));
    } else {
        assert(s.take(k) =~= s);
    }
}

/// Parses `v[from..to]` as `str::parse::<u64>` does.
pub fn parse_u64_range(v: &[char], from: usize, to: usize) -> (r: Option<u64>)
    requires
        from <= to <= v@.len(),
    ensures
        r == parse_u64(v@.subrange(from as int, to as int)),
{
    let ghost s = v@.subrange(from as int, to as int);
    let mut start = from;
    if from < to && v[from] == '+' {
        start = from + 1;
    }
    let ghost d = v@.subrange(start as int, to as int);
    assert(d == if s.len() > 0 && s[0] == '+' { s.drop_first() } else { s });
    if start == to {
        return None;
    }
    let mut acc: u64 = 0;
    let mut k = start;
    while k < to
        invariant
            start <= k <= to <= v@.len(),
            d == v@.subrange(start as int, to as int),
            s == v@.subrange(from as int, to as int),
            d == if s.len() > 0 && s[0] == '+' { s.drop_first() } else { s },
            d.len() > 0,
            acc == digits_value(d.take(k - start)),
            all_digits(d.take(k - start)),
        decreases to - k,
    {
        let c = v[k];
        if !('0' <= c && c <= '9') {
            assert(d[k - start] == c);
            assert(!is_digit(d[k - start]));
            return None;
        }
        let dv = (c as u32 - '0' as u32) as u64;
        assert(d.take(k - start + 1).drop_last() =~= d.take(k - start));
        assert(d.take(k - start + 1).last() == c);
        let m = acc.checked_mul(10);
        if m.is_none() {
            proof {
                let j = k - start;
                assert(digits_value(d.take(j + 1)) == digits_value(d.take(j)) * 10 + digit_value(c));
                assert(digits_value(d.take(j + 1)) > u64::MAX);
                lemma_digits_value_monotone(d, j + 1);
                assert(digits_value(d) > u64::MAX);
            }
            return None;
        }
        let n = m.unwrap().checked_add(dv);
        if n.is_none() {
            proof {
                let j = k - start;
                assert(digits_value(d.take(j + 1)) == digits_value(d.take(j)) * 10 + digit_value(c));
                assert(digits_value(d.take(j + 1)) > u64::MAX);
                lemma_digits_value_monotone(d, j + 1);
                assert(digits_value(d) > u64::MAX);
            }
            return None;
        }
        acc = n.unwrap();
        k += 1;
        assert(all_digits(d.take(k - start))) by {
            assert forall|t: int| 0 <= t < k - start implies is_digit(
                #[trigger] d.take(k - start)[t],
            ) by {
                if t < k - start - 1 {
                    assert(d.take(k - start)[t] == d.take(k - start - 1)[t]);
                }
            }
        }
    }
    assert(d.take(k - start) =~= d);
    Some(acc)
}

/// The decimal digits of `n`, most significant first, without leading zeros.
pub open spec fn decimal(n: nat) -> Seq<char>
    decreases n,
{
    if n < 10 {
        seq![(n + ('0' as u32)) as char]
    } else {
        decimal(n / 10).push(((n % 10) + ('0' as u32)) as char)
    }
}

pub proof fn lemma_decimal(n: nat)
    ensures
        decimal(n).len() > 0,
        all_digits(decimal(n)),
        digits_value(decimal(n)) == n,
        decimal(n)[0] != '+',
    decreases n,
{
    let c = ((n % 10) + ('0' as u32)) as char;
    assert(c as u32 == (n % 10) + 48);
    assert(decimal(n).last() == c);
    assert(('0' as u32) == 48);
    assert(digit_value(c) == n % 10);
    assert(decimal(n).drop_last() =~= if n < 10 { Seq::<char>::empty() } else { decimal(n / 10) });
    if n >= 10 {
        lemma_decimal(n / 10);
        let s = decimal(n);
        assert(s.drop_last() =~= decimal(n / 10));
        assert(s.last() == c);
        assert((n / 10) * 10 + n % 10 == n);
        assert(digits_value(s) == digits_value(decimal(n / 10)) * 10 + digit_value(c));
        assert forall|k: int| 0 <= k < s.len() implies is_digit(#[trigger] s[k]) by {
            if k < s.len() - 1 {
                assert(s[k] == decimal(n / 10)[k]);
            }
        }
    } else {
        assert(digits_value(Seq::<char>::empty()) == 0);
        assert(digits_value(decimal(n)) == digits_value(Seq::<char>::empty()) * 10 + digit_value(c));
    }
}

/// Reading back the decimal form of a `u64` gives the same number.
pub proof fn law_parse_decimal(n: u64)
    ensures
        parse_u64(decimal(n as nat)) == Some(n),
{
    lemma_decimal(n as nat);
}

// ---------------------------------------------------------------------------
// Building strings
// ---------------------------------------------------------------------------

/// Appends `c` to `s` with `String::push`, which the standard library
/// documents as adding the character at the end of the string.
#[verifier::external_body]
fn push_char(s: &mut String, c: char)
    ensures
        final(s)@ == old(s)@.push(c),
{
    s.push(c);
}

/// Appends the characters `v[from..to]` to `s`.
pub fn push_chars(s: &mut String, v: &[char], from: usize, to: usize)
    requires
        from <= to <= v@.len(),
    ensures
        final(s)@ == old(s)@ + v@.subrange(from as int, to as int),
{
    let mut k = from;
    while k < to
        invariant
            from <= k <= to <= v@.len(),
            s@ == old(s)@ + v@.subrange(from as int, k as int),
        decreases to - k,
    {
        push_char(s, v[k]);
        assert(v@.subrange(from as int, k + 1) =~= v@.subrange(from as int, k as int).push(v@[k as int]));
        k += 1;
    }
}

/// A new string holding `v[from..to]`.
pub fn string_of(v: &[char], from: usize, to: usize) -> (s: String)
    requires
        from <= to <= v@.len(),
    ensures
        s@ == v@.subrange(from as int, to as int),
{
    let mut s = String::new();
    push_chars(&mut s, v, from, to);
    s
}

/// Appends the decimal form of `n` to `s`.
pub fn push_decimal(s: &mut String, n: u64)
    ensures
        final(s)@ == old(s)@ + decimal(n as nat),
    decreases n,
{
    if n >= 10 {
        push_decimal(s, n / 10);
    }
    let c = match n % 10 {
        0 => '0',
        1 => '1',
        2 => '2',
        3 => '3',
        4 => '4',
        5 => '5',
        6 => '6',
        7 => '7',
        8 => '8',
        _ => '9',
    };
    assert(c == ((n % 10) as nat + ('0' as u32)) as char);
    push_char(s, c);
    proof {
        if n >= 10 {
            assert(decimal(n as nat) == decimal((n / 10) as nat).push(c));
        }
    }
}

/// The characters of `s`, in order.
pub fn chars_of(s: &str) -> (v: Vec<char>)
    ensures
        v@ == s@,
{
    let mut v: Vec<char> = Vec::new();
    for c in it: s.chars()
        invariant
            v@ == it.seq().take(it.index() as int),
    {
        v.push(c);
    }
    v
}

} // verus!
