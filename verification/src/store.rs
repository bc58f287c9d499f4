//! The frecency database's text format and location, and the clock.
//!
//! The database is a flat TSV file, one line per directory:
//! `<path>\t<score>\t<last_epoch>`, rows sorted by path. The score is a
//! decayed visit mass; this module carries it as the text of its column,
//! so that reading and writing rows here is exact.

use vstd::prelude::*;

use crate::order::{
    lemma_lex_total, lemma_lex_transitive, lemma_multiset3, lex_le, sorted_keys, text_le,
};
use crate::text::{
    chars_of, decimal, find_char, has_char, index_of, lemma_decimal, lemma_index_of, lemma_split_step, lines,
    parse_u64, parse_u64_range, push_chars, push_decimal, split_on, strip_cr, all_digits, is_digit,
};

verus! {

broadcast use vstd::seq_lib::group_to_multiset_ensures;

// ---------------------------------------------------------------------------
// Rows
// ---------------------------------------------------------------------------

/// One database row: a directory, its score column, and when it was last
/// updated (Unix seconds).
pub struct DbRow {
    pub path: String,
    pub score: String,
    pub last: u64,
}

pub type RowView = (Seq<char>, Seq<char>, u64);

impl DbRow {
    pub open spec fn view_of(self) -> RowView {
        (self.path@, self.score@, self.last)
    }
}

pub open spec fn rows_view(v: Seq<DbRow>) -> Seq<RowView> {
    v.map_values(|r: DbRow| r.view_of())
}

/// The row a database line holds: at least three tab-separated fields, the
/// third a `u64`. Further fields are ignored.
pub open spec fn row_of_line(line: Seq<char>) -> Option<RowView> {
    let fs = split_on(line, '\t');
    if fs.len() >= 3 {
        match parse_u64(fs[2]) {
            Some(t) => Some((fs[0], fs[1], t)),
            None => None,
        }
    } else {
        None
    }
}

/// The rows of the database lines `ls`, skipping lines that hold none.
pub open spec fn rows_of_lines(ls: Seq<Seq<char>>) -> Seq<RowView>
    decreases ls.len(),
{
    if ls.len() == 0 {
        seq![]
    } else {
        match row_of_line(ls[0]) {
            Some(r) => seq![r] + rows_of_lines(ls.drop_first()),
            None => rows_of_lines(ls.drop_first()),
        }
    }
}

/// The row in the database line `v[a..e]`.
fn row_in(v: &[char], a: usize, e: usize) -> (r: Option<DbRow>)
    requires
        a <= e <= v@.len(),
    ensures
        match r {
            Some(row) => row_of_line(v@.subrange(a as int, e as int)) == Some(row.view_of()),
            None => row_of_line(v@.subrange(a as int, e as int)) is None,
        },
{
    let ghost line = v@.subrange(a as int, e as int);
    let t1 = find_char(v, a, e, '\t');
    proof {
        lemma_split_step(v@, a as int, t1 as int, e as int, '\t');
    }
    if t1 == e {
        return None;
    }
    let t2 = find_char(v, t1 + 1, e, '\t');
    proof {
        lemma_split_step(v@, t1 + 1, t2 as int, e as int, '\t');
    }
    if t2 == e {
        assert(split_on(line, '\t').len() == 2);
        return None;
    }
    let t3 = find_char(v, t2 + 1, e, '\t');
    proof {
        lemma_split_step(v@, t2 + 1, t3 as int, e as int, '\t');
    }
    let ghost fs = split_on(line, '\t');
    assert(fs[0] == v@.subrange(a as int, t1 as int));
    assert(fs[1] == v@.subrange(t1 + 1, t2 as int));
    assert(fs[2] == v@.subrange(t2 + 1, t3 as int));
    match parse_u64_range(v, t2 + 1, t3) {
        Some(last) => {
            let path = crate::text::string_of(v, a, t1);
            let score = crate::text::string_of(v, t1 + 1, t2);
            Some(DbRow { path, score, last })
        },
        None => None,
    }
}

/// Reads database text into rows, in file order.
pub fn parse_db(text: &str) -> (rows: Vec<DbRow>)
    ensures
        rows_view(rows@) == rows_of_lines(lines(text@)),
{
    let v = chars_of(text);
    let n = v.len();
    let mut rows: Vec<DbRow> = Vec::new();
    let mut pos: usize = 0;
    assert(v@.subrange(0, n as int) =~= v@);
    while pos < n
        invariant
            pos <= n == v@.len(),
            v@ == text@,
            rows_view(rows@) + rows_of_lines(lines(v@.subrange(pos as int, n as int)))
                == rows_of_lines(lines(text@)),
        decreases n - pos,
    {
        let (end, next) = crate::text::next_line_bounds(&v, pos, n);
        let ghost line = v@.subrange(pos as int, end as int);
        let ghost rest = lines(v@.subrange(next as int, n as int));
        let ghost ls = seq![line] + rest;
        assert(ls[0] == line);
        assert(ls.drop_first() =~= rest);
        let ghost before = rows_view(rows@);
        match row_in(&v, pos, end) {
            Some(r) => {
                rows.push(r);
                assert(rows_view(rows@) =~= before.push(r.view_of()));
                assert(before.push(r.view_of()) + rows_of_lines(rest) =~= before + (seq![
                    r.view_of(),
                ] + rows_of_lines(rest)));
            },
            None => {},
        }
        pos = next;
    }
    assert(lines(v@.subrange(n as int, n as int)) =~= Seq::<Seq<char>>::empty());
    assert(rows_view(rows@) + Seq::<RowView>::empty() =~= rows_view(rows@));
    rows
}

/// The text of one row: path, score and timestamp separated by tabs, then
/// a newline.
pub open spec fn row_text(r: RowView) -> Seq<char> {
    r.0 + seq!['\t'] + r.1 + seq!['\t'] + decimal(r.2 as nat) + seq!['\n']
}

pub open spec fn rows_text(rs: Seq<RowView>) -> Seq<char>
    decreases rs.len(),
{
    if rs.len() == 0 {
        seq![]
    } else {
        row_text(rs[0]) + rows_text(rs.drop_first())
    }
}

/// Writes the rows as database text, in the given order.
pub fn render_db(rows: &Vec<DbRow>) -> (text: String)
    ensures
        text@ == rows_text(rows_view(rows@)),
{
    let mut s = String::new();
    let tab: Vec<char> = vec!['\t'];
    let nl: Vec<char> = vec!['\n'];
    assert(tab@.subrange(0, 1) =~= seq!['\t']);
    assert(nl@.subrange(0, 1) =~= seq!['\n']);
    let mut k: usize = 0;
    let ghost all = rows_view(rows@);
    assert(all.skip(0) =~= all);
    while k < rows.len()
        invariant
            k <= rows@.len(),
            all == rows_view(rows@),
            tab@ == seq!['\t'],
            nl@ == seq!['\n'],
            s@ + rows_text(all.skip(k as int)) == rows_text(all),
        decreases rows@.len() - k,
    {
        let row = &rows[k];
        let ghost before = s@;
        let p = chars_of(row.path.as_str());
        let sc = chars_of(row.score.as_str());
        assert(p@.subrange(0, p@.len() as int) =~= p@);
        assert(sc@.subrange(0, sc@.len() as int) =~= sc@);
        push_chars(&mut s, &p, 0, p.len());
        push_chars(&mut s, &tab, 0, 1);
        push_chars(&mut s, &sc, 0, sc.len());
        push_chars(&mut s, &tab, 0, 1);
        push_decimal(&mut s, row.last);
        push_chars(&mut s, &nl, 0, 1);
        assert(all[k as int] == row.view_of());
        assert(s@ =~= before + row_text(all[k as int]));
        assert(all.skip(k as int).drop_first() =~= all.skip(k + 1));
        assert(rows_text(all.skip(k as int)) == row_text(all[k as int]) + rows_text(all.skip(k + 1)));
        assert(s@ + rows_text(all.skip(k + 1)) =~= before + rows_text(all.skip(k as int)));
        k += 1;
    }
    assert(rows_text(all.skip(k as int)) =~= Seq::<char>::empty()) by {
        assert(all.skip(k as int).len() == 0);
    }
    assert(s@ + Seq::<char>::empty() =~= s@);
    s
}

/// A field that can be written into a row unchanged: no tab, no newline.
pub open spec fn plain_field(s: Seq<char>) -> bool {
    !has_char(s, '\t') && !has_char(s, '\n')
}

proof fn lemma_index_of_after_plain(a: Seq<char>, c: char, rest: Seq<char>)
    requires
        !has_char(a, c),
    ensures
        index_of(a + seq![c] + rest, c) == a.len(),
{
    lemma_index_of(a, c);
    let s = a + seq![c] + rest;
    lemma_index_of(s, c);
    let k = index_of(s, c);
    assert forall|j: int| 0 <= j < a.len() implies s[j] != c by {
        assert(s[j] == a[j]);
        if a[j] == c {
            assert(index_of(a, c) <= j);
        }
    }
    assert(s[a.len() as int] == c);
    if k < a.len() {
        assert(s[k as int] == c);
    }
}

proof fn lemma_digits_plain(s: Seq<char>)
    requires
        all_digits(s),
    ensures
        plain_field(s),
{
    lemma_index_of(s, '\t');
    lemma_index_of(s, '\n');
    if index_of(s, '\t') < s.len() {
        assert(is_digit(s[index_of(s, '\t') as int]));
    }
    if index_of(s, '\n') < s.len() {
        assert(is_digit(s[index_of(s, '\n') as int]));
    }
}

/// One row of text reads back as that row.
proof fn lemma_row_roundtrip(r: RowView, rest: Seq<char>)
    requires
        plain_field(r.0),
        plain_field(r.1),
    ensures
        lines(row_text(r) + rest) == seq![r.0 + seq!['\t'] + r.1 + seq!['\t'] + decimal(r.2 as nat)]
            + lines(rest),
        row_of_line(r.0 + seq!['\t'] + r.1 + seq!['\t'] + decimal(r.2 as nat)) == Some(r),
{
    let d = decimal(r.2 as nat);
    lemma_decimal(r.2 as nat);
    lemma_digits_plain(d);
    let line = r.0 + seq!['\t'] + r.1 + seq!['\t'] + d;
    let s = row_text(r) + rest;
    // the line has no newline, so the first newline is the one after it
    assert(!has_char(line, '\n')) by {
        lemma_index_of(line, '\n');
        lemma_index_of(r.0, '\n');
        lemma_index_of(r.1, '\n');
        lemma_index_of(d, '\n');
        if index_of(line, '\n') < line.len() {
            let k = index_of(line, '\n') as int;
            if k < r.0.len() {
                assert(line[k] == r.0[k]);
                assert(index_of(r.0, '\n') <= k) by {
                    if index_of(r.0, '\n') > k {
                        assert(r.0[k] != '\n');
                    }
                }
            } else if k == r.0.len() {
                assert(line[k] == '\t');
            } else if k < r.0.len() + 1 + r.1.len() {
                assert(line[k] == r.1[k - r.0.len() - 1]);
                assert(index_of(r.1, '\n') <= k - r.0.len() - 1) by {
                    if index_of(r.1, '\n') > k - r.0.len() - 1 {
                        assert(r.1[k - r.0.len() - 1] != '\n');
                    }
                }
            } else if k == r.0.len() + 1 + r.1.len() {
                assert(line[k] == '\t');
            } else {
                let m = k - r.0.len() - 2 - r.1.len();
                assert(line[k] == d[m]);
                assert(index_of(d, '\n') <= m) by {
                    if index_of(d, '\n') > m {
                        assert(d[m] != '\n');
                    }
                }
            }
        }
    }
    assert(s =~= line + seq!['\n'] + rest);
    lemma_index_of_after_plain(line, '\n', rest);
    assert(s.take(line.len() as int) =~= line);
    assert(s.skip(line.len() as int + 1) =~= rest);
    assert(line.last() == d.last());
    assert(is_digit(d[d.len() - 1]));
    assert(strip_cr(line) == line);
    // the fields
    let t1 = r.0.len();
    lemma_index_of_after_plain(r.0, '\t', r.1 + seq!['\t'] + d);
    assert(line =~= r.0 + seq!['\t'] + (r.1 + seq!['\t'] + d));
    let after1 = r.1 + seq!['\t'] + d;
    assert(line.take(t1 as int) =~= r.0);
    assert(line.skip(t1 as int + 1) =~= after1);
    lemma_index_of_after_plain(r.1, '\t', d);
    assert(after1.take(r.1.len() as int) =~= r.1);
    assert(after1.skip(r.1.len() as int + 1) =~= d);
    assert(index_of(d, '\t') == d.len()) by {
        lemma_index_of(d, '\t');
    }
    assert(split_on(d, '\t') == seq![d]);
    assert(split_on(after1, '\t') =~= seq![r.1] + seq![d]);
    assert(split_on(line, '\t') =~= seq![r.0] + (seq![r.1] + seq![d]));
}

/// Writing rows with plain paths and scores and reading the text back gives
/// the same rows, in the same order.
pub proof fn law_db_roundtrip(rs: Seq<RowView>)
    requires
        forall|i: int| 0 <= i < rs.len() ==> plain_field((#[trigger] rs[i]).0) && plain_field(rs[i].1),
    ensures
        rows_of_lines(lines(rows_text(rs))) == rs,
    decreases rs.len(),
{
    if rs.len() > 0 {
        let r = rs[0];
        let rest = rows_text(rs.drop_first());
        lemma_row_roundtrip(r, rest);
        law_db_roundtrip(rs.drop_first());
        let line = r.0 + seq!['\t'] + r.1 + seq!['\t'] + decimal(r.2 as nat);
        let ls = seq![line] + lines(rest);
        assert(ls[0] == line);
        assert(ls.drop_first() =~= lines(rest));
        assert(rs =~= seq![r] + rs.drop_first());
    } else {
        assert(lines(Seq::<char>::empty()) =~= Seq::<Seq<char>>::empty());
    }
}

// ---------------------------------------------------------------------------
// Sorting rows by path
// ---------------------------------------------------------------------------

pub open spec fn row_paths(v: Seq<DbRow>) -> Seq<Seq<char>> {
    v.map_values(|r: DbRow| r.path@)
}

/// The rows of `rs` whose path is `k`, in order.
pub open spec fn with_path(rs: Seq<RowView>, k: Seq<char>) -> Seq<RowView>
    decreases rs.len(),
{
    if rs.len() == 0 {
        seq![]
    } else {
        let r = with_path(rs.drop_last(), k);
        if rs.last().0 == k {
            r.push(rs.last())
        } else {
            r
        }
    }
}

proof fn lemma_with_path_concat(a: Seq<RowView>, b: Seq<RowView>, k: Seq<char>)
    ensures
        with_path(a + b, k) == with_path(a, k) + with_path(b, k),
    decreases b.len(),
{
    if b.len() == 0 {
        assert(a + b =~= a);
        assert(with_path(a, k) + Seq::<RowView>::empty() =~= with_path(a, k));
    } else {
        lemma_with_path_concat(a, b.drop_last(), k);
        assert((a + b).drop_last() =~= a + b.drop_last());
        assert((a + b).last() == b.last());
        if b.last().0 == k {
            assert(with_path(a, k) + with_path(b.drop_last(), k).push(b.last()) =~= (with_path(a, k)
                + with_path(b.drop_last(), k)).push(b.last()));
        }
    }
}

proof fn lemma_with_path_none(a: Seq<RowView>, k: Seq<char>)
    requires
        forall|i: int| 0 <= i < a.len() ==> (#[trigger] a[i]).0 != k,
    ensures
        with_path(a, k) == Seq::<RowView>::empty(),
    decreases a.len(),
{
    if a.len() > 0 {
        lemma_with_path_none(a.drop_last(), k);
    }
}

/// The rows of `s` are in order of path.
pub open spec fn paths_sorted(s: Seq<RowView>) -> bool {
    forall|i: int, j: int| 0 <= i < j < s.len() ==> lex_le(s[i].0, s[j].0)
}

/// Every path in `xs` comes no later than every path in `ys`.
pub open spec fn paths_before(xs: Seq<RowView>, ys: Seq<RowView>) -> bool {
    forall|i: int, j: int| 0 <= i < xs.len() && 0 <= j < ys.len() ==> lex_le(xs[i].0, ys[j].0)
}

proof fn lemma_paths_sorted(v: Seq<DbRow>)
    ensures
        sorted_keys(row_paths(v)) == paths_sorted(rows_view(v)),
{
    assert forall|i: int| 0 <= i < v.len() implies #[trigger] row_paths(v)[i] == rows_view(v)[i].0 by {}
    if sorted_keys(row_paths(v)) {
        assert forall|i: int, j: int| 0 <= i < j < v.len() implies lex_le(
            rows_view(v)[i].0,
            rows_view(v)[j].0,
        ) by {
            assert(row_paths(v)[i] == rows_view(v)[i].0);
            assert(row_paths(v)[j] == rows_view(v)[j].0);
        }
    }
    if paths_sorted(rows_view(v)) {
        assert forall|i: int, j: int| 0 <= i < j < v.len() implies lex_le(
            row_paths(v)[i],
            row_paths(v)[j],
        ) by {
            assert(row_paths(v)[i] == rows_view(v)[i].0);
            assert(row_paths(v)[j] == rows_view(v)[j].0);
        }
    }
}

proof fn lemma_with_path_one(x: RowView, k: Seq<char>)
    ensures
        with_path(seq![x], k) == (if x.0 == k {
            seq![x]
        } else {
            Seq::<RowView>::empty()
        }),
{
    let e = Seq::<RowView>::empty();
    assert(seq![x].drop_last() =~= e);
    assert(seq![x].last() == x);
    assert(with_path(e, k) =~= e);
    assert(e.push(x) =~= seq![x]);
}

/// Merges two lists of rows sorted by path; on equal paths the rows of `a`
/// come first.
fn merge_rows(a: Vec<DbRow>, b: Vec<DbRow>) -> (m: Vec<DbRow>)
    requires
        paths_sorted(rows_view(a@)),
        paths_sorted(rows_view(b@)),
    ensures
        paths_sorted(rows_view(m@)),
        rows_view(m@).to_multiset() == rows_view(a@).to_multiset().add(rows_view(b@).to_multiset()),
        forall|k: Seq<char>| #[trigger] with_path(rows_view(m@), k) == with_path(rows_view(a@), k)
            + with_path(rows_view(b@), k),
{
    broadcast use vstd::seq_lib::lemma_multiset_commutative;

    let ghost av = rows_view(a@);
    let ghost bv = rows_view(b@);
    let mut a = a;
    let mut b = b;
    let mut rev: Vec<DbRow> = Vec::new();
    let ghost mut t: Seq<RowView> = seq![];
    assert(av.take(av.len() as int) =~= av);
    assert(bv.take(bv.len() as int) =~= bv);
    assert forall|k: Seq<char>| #[trigger] with_path(av, k) + with_path(bv, k) == with_path(
        av.take(a@.len() as int),
        k,
    ) + with_path(bv.take(b@.len() as int), k) + with_path(t, k) by {
        assert(with_path(t, k) =~= Seq::<RowView>::empty());
        assert(with_path(av, k) + with_path(bv, k) + Seq::<RowView>::empty() =~= with_path(av, k)
            + with_path(bv, k));
    }
    assert((av + bv + t) =~= av + bv);
    while a.len() > 0 || b.len() > 0
        invariant
            a@.len() <= av.len(),
            b@.len() <= bv.len(),
            rows_view(a@) == av.take(a@.len() as int),
            rows_view(b@) == bv.take(b@.len() as int),
            paths_sorted(av),
            paths_sorted(bv),
            rev@.len() == t.len(),
            forall|i: int| 0 <= i < rev@.len() ==> (#[trigger] rev@[i]).view_of() == t[t.len() - 1 - i],
            paths_sorted(t),
            paths_before(rows_view(a@), t),
            paths_before(rows_view(b@), t),
            (rows_view(a@) + rows_view(b@) + t).to_multiset() == (av + bv).to_multiset(),
            forall|k: Seq<char>| #[trigger] with_path(av, k) + with_path(bv, k) == with_path(
                rows_view(a@),
                k,
            ) + with_path(rows_view(b@), k) + with_path(t, k),
        decreases a@.len() + b@.len(),
    {
        let ghost ar = rows_view(a@);
        let ghost br = rows_view(b@);
        proof {
            if a@.len() > 0 {
                assert(ar[ar.len() - 1].0 == a@[a@.len() - 1].path@);
            }
            if b@.len() > 0 {
                assert(br[br.len() - 1].0 == b@[b@.len() - 1].path@);
            }
        }
        let take_a = if a.len() == 0 {
            false
        } else if b.len() == 0 {
            true
        } else {
            !text_le(a[a.len() - 1].path.as_str(), b[b.len() - 1].path.as_str())
        };
        let x = if take_a {
            a.pop().unwrap()
        } else {
            b.pop().unwrap()
        };
        let ghost xv = x.view_of();
        let ghost ar2 = rows_view(a@);
        let ghost br2 = rows_view(b@);
        proof {
            let t2 = seq![xv] + t;
            if take_a {
                assert(ar =~= ar2.push(xv));
                assert(br2 =~= br);
                assert(ar2 =~= av.take(a@.len() as int));
            } else {
                assert(br =~= br2.push(xv));
                assert(ar2 =~= ar);
                assert(br2 =~= bv.take(b@.len() as int));
            }
            // x comes no later than what was already taken
            assert forall|j: int| 0 <= j < t.len() implies lex_le(xv.0, #[trigger] t[j].0) by {
                if take_a {
                    assert(ar[ar.len() - 1] == xv);
                } else {
                    assert(br[br.len() - 1] == xv);
                }
            }
            assert forall|i: int, j: int| 0 <= i < j < t2.len() implies lex_le(t2[i].0, t2[j].0) by {
                if i == 0 {
                    assert(t2[j] == t[j - 1]);
                } else {
                    assert(t2[i] == t[i - 1] && t2[j] == t[j - 1]);
                }
            }
            // what remains comes no later than x
            if take_a {
                assert forall|i: int| 0 <= i < ar2.len() implies lex_le(#[trigger] ar2[i].0, xv.0) by {
                    assert(ar2[i] == ar[i]);
                    assert(ar[ar.len() - 1] == xv);
                }
                if br.len() > 0 {
                    let kb = br[br.len() - 1].0;
                    assert(xv == ar[ar.len() - 1]);
                    assert(!lex_le(xv.0, kb));
                    lemma_lex_total(xv.0, kb);
                    assert(lex_le(kb, xv.0));
                    lemma_lex_total(kb, kb);
                    assert forall|i: int| 0 <= i < br2.len() implies lex_le(#[trigger] br2[i].0, xv.0)
                        && br2[i].0 != xv.0 by {
                        assert(br2[i] == br[i] && br[i] == bv[i]);
                        assert(br[br.len() - 1] == bv[br.len() - 1]);
                        if i < br.len() - 1 {
                            assert(lex_le(br[i].0, kb));
                        }
                        lemma_lex_transitive(br2[i].0, kb, xv.0);
                        if br2[i].0 == xv.0 {
                            assert(lex_le(xv.0, kb));
                        }
                    }
                }
            } else {
                assert forall|i: int| 0 <= i < br2.len() implies lex_le(#[trigger] br2[i].0, xv.0) by {
                    assert(br2[i] == br[i]);
                    assert(br[br.len() - 1] == xv);
                }
                if ar.len() > 0 {
                    let ka = ar[ar.len() - 1].0;
                    assert(xv == br[br.len() - 1]);
                    assert(lex_le(ka, xv.0));
                    lemma_lex_total(ka, ka);
                    assert forall|i: int| 0 <= i < ar2.len() implies lex_le(#[trigger] ar2[i].0, xv.0) by {
                        assert(ar2[i] == ar[i] && ar[i] == av[i]);
                        assert(ar[ar.len() - 1] == av[ar.len() - 1]);
                        if i < ar.len() - 1 {
                            assert(lex_le(ar[i].0, ka));
                        }
                        lemma_lex_transitive(ar2[i].0, ka, xv.0);
                    }
                }
            }
            assert forall|i: int, j: int| 0 <= i < ar2.len() && 0 <= j < t2.len() implies lex_le(
                ar2[i].0,
                t2[j].0,
            ) by {
                if j > 0 {
                    assert(t2[j] == t[j - 1]);
                    assert(ar2[i] == ar[i]);
                    assert(lex_le(ar[i].0, t[j - 1].0));
                }
            }
            assert forall|i: int, j: int| 0 <= i < br2.len() && 0 <= j < t2.len() implies lex_le(
                br2[i].0,
                t2[j].0,
            ) by {
                if j > 0 {
                    assert(t2[j] == t[j - 1]);
                    assert(br2[i] == br[i]);
                    assert(lex_le(br[i].0, t[j - 1].0));
                }
            }
            // the multiset of all rows is unchanged
            lemma_multiset3(ar, br, t);
            lemma_multiset3(ar2, br2, t2);
            vstd::seq_lib::lemma_multiset_commutative(seq![xv], t);
            if take_a {
                vstd::seq_lib::lemma_multiset_commutative(ar2, seq![xv]);
                assert(ar2 + seq![xv] =~= ar);
            } else {
                vstd::seq_lib::lemma_multiset_commutative(br2, seq![xv]);
                assert(br2 + seq![xv] =~= br);
            }
            assert((ar + br + t).to_multiset() =~= (ar2 + br2 + t2).to_multiset());
            // rows with one path keep their order
            assert forall|k: Seq<char>| #[trigger] with_path(av, k) + with_path(bv, k) == with_path(
                ar2,
                k,
            ) + with_path(br2, k) + with_path(t2, k) by {
                lemma_with_path_concat(seq![xv], t, k);
                lemma_with_path_one(xv, k);
                let e = Seq::<RowView>::empty();
                let wx = with_path(seq![xv], k);
                if take_a {
                    lemma_with_path_concat(ar2, seq![xv], k);
                    assert(ar2 + seq![xv] =~= ar);
                    if xv.0 == k {
                        lemma_with_path_none(br2, k);
                        assert(with_path(br2, k) =~= e);
                    }
                    assert(with_path(ar2, k) + wx + with_path(br2, k) + with_path(t, k) =~= with_path(
                        ar2,
                        k,
                    ) + with_path(br2, k) + (wx + with_path(t, k)));
                } else {
                    lemma_with_path_concat(br2, seq![xv], k);
                    assert(br2 + seq![xv] =~= br);
                    assert(with_path(ar2, k) + (with_path(br2, k) + wx) + with_path(t, k) =~= with_path(
                        ar2,
                        k,
                    ) + with_path(br2, k) + (wx + with_path(t, k)));
                }
            }
            t = t2;
        }
        rev.push(x);
    }
    assert(rows_view(a@) =~= Seq::<RowView>::empty());
    assert(rows_view(b@) =~= Seq::<RowView>::empty());
    let mut m: Vec<DbRow> = Vec::new();
    while rev.len() > 0
        invariant
            m@.len() + rev@.len() == t.len(),
            forall|i: int| 0 <= i < rev@.len() ==> (#[trigger] rev@[i]).view_of() == t[t.len() - 1 - i],
            rows_view(m@) == t.take(m@.len() as int),
        decreases rev@.len(),
    {
        let ghost before = rows_view(m@);
        let x = rev.pop().unwrap();
        assert(x.view_of() == t[m@.len() as int]);
        m.push(x);
        assert(rows_view(m@) =~= before.push(x.view_of()));
        assert(t.take(m@.len() as int) =~= t.take(m@.len() - 1).push(t[m@.len() - 1]));
    }
    assert(t.take(t.len() as int) =~= t);
    proof {
        let e = Seq::<RowView>::empty();
        assert(e + e + t =~= t);
        assert forall|k: Seq<char>| #[trigger] with_path(rows_view(m@), k) == with_path(av, k)
            + with_path(bv, k) by {
            assert(with_path(e, k) =~= e);
            assert(e + e + with_path(t, k) =~= with_path(t, k));
        }
    }
    m
}

/// Merge sort of rows by path, equal paths keeping their order.
fn merge_sort_rows(v: Vec<DbRow>) -> (r: Vec<DbRow>)
    ensures
        paths_sorted(rows_view(r@)),
        rows_view(r@).to_multiset() == rows_view(v@).to_multiset(),
        forall|k: Seq<char>| #[trigger] with_path(rows_view(r@), k) == with_path(rows_view(v@), k),
    decreases v@.len(),
{
    broadcast use vstd::seq_lib::lemma_multiset_commutative;

    if v.len() <= 1 {
        return v;
    }
    let ghost vv = rows_view(v@);
    let mut a = v;
    let mid = a.len() / 2;
    let b = a.split_off(mid);
    assert(vv =~= rows_view(a@) + rows_view(b@));
    let sa = merge_sort_rows(a);
    let sb = merge_sort_rows(b);
    let m = merge_rows(sa, sb);
    proof {
        assert forall|k: Seq<char>| #[trigger] with_path(rows_view(m@), k) == with_path(vv, k) by {
            lemma_with_path_concat(rows_view(a@), rows_view(b@), k);
        }
    }
    m
}

/// Sorts rows by path, as the database file keeps them; rows with equal
/// paths keep their relative order.
pub fn sort_rows(rows: &mut Vec<DbRow>)
    ensures
        sorted_keys(row_paths(final(rows)@)),
        rows_view(final(rows)@).to_multiset() == rows_view(old(rows)@).to_multiset(),
        forall|k: Seq<char>| #[trigger] with_path(rows_view(final(rows)@), k) == with_path(
            rows_view(old(rows)@),
            k,
        ),
{
    let mut v: Vec<DbRow> = Vec::new();
    std::mem::swap(&mut v, rows);
    let r = merge_sort_rows(v);
    proof {
        lemma_paths_sorted(r@);
    }
    *rows = r;
}

// ---------------------------------------------------------------------------
// Location
// ---------------------------------------------------------------------------

/// `base` joined with the relative path `comp`, as `Path::join` does: a `/`
/// goes between them unless `base` is empty or already ends with one.
pub open spec fn join_path(base: Seq<char>, comp: Seq<char>) -> Seq<char> {
    if base.len() > 0 && base.last() != '/' {
        base + seq!['/'] + comp
    } else {
        base + comp
    }
}

pub open spec fn local_share_lit() -> Seq<char> {
    seq!['.', 'l', 'o', 'c', 'a', 'l', '/', 's', 'h', 'a', 'r', 'e']
}

pub open spec fn ccd_lit() -> Seq<char> {
    seq!['c', 'c', 'd']
}

pub open spec fn db_file_lit() -> Seq<char> {
    seq!['d', 'b', '.', 't', 's', 'v']
}

/// Where the database lives, given the values of `CCD_DB`, `XDG_DATA_HOME`
/// and `HOME` (`None` when unset): a non-empty `CCD_DB` wins; otherwise
/// `ccd/db.tsv` under a non-empty `XDG_DATA_HOME`, else under
/// `$HOME/.local/share` (with `.` for an unset `HOME`).
pub open spec fn db_path_spec(
    ccd_db: Option<Seq<char>>,
    xdg_data_home: Option<Seq<char>>,
    home: Option<Seq<char>>,
) -> Seq<char> {
    if ccd_db is Some && ccd_db->0.len() > 0 {
        ccd_db->0
    } else {
        let base = if xdg_data_home is Some && xdg_data_home->0.len() > 0 {
            xdg_data_home->0
        } else {
            join_path(
                if home is Some {
                    home->0
                } else {
                    seq!['.']
                },
                local_share_lit(),
            )
        };
        join_path(join_path(base, ccd_lit()), db_file_lit())
    }
}

/// Appends `/` (unless `s` is empty or ends with `/`) and then `comp`.
fn push_component(s: &mut String, comp: &Vec<char>)
    ensures
        final(s)@ == join_path(old(s)@, comp@),
{
    let cur = chars_of(s.as_str());
    let slash: Vec<char> = vec!['/'];
    assert(slash@.subrange(0, 1) =~= seq!['/']);
    assert(comp@.subrange(0, comp@.len() as int) =~= comp@);
    if cur.len() > 0 && cur[cur.len() - 1] != '/' {
        push_chars(s, &slash, 0, 1);
    }
    push_chars(s, comp, 0, comp.len());
}

fn owned(s: &str) -> (r: String)
    ensures
        r@ == s@,
{
    let v = chars_of(s);
    assert(v@.subrange(0, v@.len() as int) =~= v@);
    crate::text::string_of(&v, 0, v.len())
}

/// The database path for the given `CCD_DB`, `XDG_DATA_HOME` and `HOME`.
pub fn db_path_from(ccd_db: Option<&str>, xdg_data_home: Option<&str>, home: Option<&str>) -> (p:
    String)
    ensures
        p@ == db_path_spec(
            match ccd_db {
                Some(s) => Some(s@),
                None => None,
            },
            match xdg_data_home {
                Some(s) => Some(s@),
                None => None,
            },
            match home {
                Some(s) => Some(s@),
                None => None,
            },
        ),
{
    if let Some(p) = ccd_db {
        if p.unicode_len() > 0 {
            return owned(p);
        }
    }
    let mut base = match xdg_data_home {
        Some(x) if x.unicode_len() > 0 => owned(x),
        _ => {
            let mut b = match home {
                Some(h) => owned(h),
                None => owned("."),
            };
            proof {
                reveal_strlit(".");
            }
            let ls: Vec<char> = vec!['.', 'l', 'o', 'c', 'a', 'l', '/', 's', 'h', 'a', 'r', 'e'];
            assert(ls@ == local_share_lit());
            push_component(&mut b, &ls);
            b
        },
    };
    let c: Vec<char> = vec!['c', 'c', 'd'];
    let f: Vec<char> = vec!['d', 'b', '.', 't', 's', 'v'];
    assert(c@ == ccd_lit());
    assert(f@ == db_file_lit());
    push_component(&mut base, &c);
    push_component(&mut base, &f);
    base
}

// ---------------------------------------------------------------------------
// Clock
// ---------------------------------------------------------------------------

#[verifier::external_type_specification]
#[verifier::external_body]
pub struct ExSystemTime(std::time::SystemTime);

#[verifier::external_type_specification]
#[verifier::external_body]
pub struct ExSystemTimeError(std::time::SystemTimeError);

/// Calls `SystemTime::now`: the system clock's current reading. It depends
/// on the moment of the call, so nothing is stated of it.
#[verifier::external_body]
fn clock_now() -> std::time::SystemTime {
    std::time::SystemTime::now()
}

/// Calls `SystemTime::duration_since` with `UNIX_EPOCH`: the time elapsed
/// since the epoch, or an error when `t` is earlier. Nothing is stated of
/// the outcome, which depends on the clock.
#[verifier::external_body]
fn since_unix_epoch(t: &std::time::SystemTime) -> std::result::Result<
    core::time::Duration,
    std::time::SystemTimeError,
> {
    t.duration_since(std::time::UNIX_EPOCH)
}

/// Calls `Duration::as_secs`: the whole seconds of `d`. A `Duration` is
/// opaque here, so nothing is stated of the result.
#[verifier::external_body]
fn whole_secs(d: &core::time::Duration) -> u64 {
    d.as_secs()
}

/// The Unix time to record, given the whole seconds since the epoch, or
/// `None` when the clock read a time before the epoch: then `0`.
pub fn unix_secs_or_zero(since_epoch: Option<u64>) -> (t: u64)
    ensures
        t == match since_epoch {
            Some(secs) => secs,
            None => 0,
        },
{
    match since_epoch {
        Some(secs) => secs,
        None => 0,
    }
}

/// The current Unix time in whole seconds; `0` when the clock reads a time
/// before the epoch.
pub fn now() -> u64 {
    let since_epoch = match since_unix_epoch(&clock_now()) {
        Ok(d) => Some(whole_secs(&d)),
        Err(_) => None,
    };
    unix_secs_or_zero(since_epoch)
}

// ---------------------------------------------------------------------------
// Lock acquisition
// ---------------------------------------------------------------------------

/// How many times acquiring the database lock tries to create the lock file.
pub const LOCK_ATTEMPTS: usize = 100;

/// What one attempt to create the lock file found.
#[derive(PartialEq, Eq, Structural, Debug, Clone, Copy)]
pub enum LockAttempt {
    /// The lock file was created: the lock is ours.
    Created,
    /// Another process holds a lock file that is still fresh.
    HeldFresh,
    /// A lock file exists but is stale (left behind by a dead process).
    HeldStale,
    /// Creating the lock file failed for another reason.
    Failed,
}

/// What to do after an attempt.
#[derive(PartialEq, Eq, Structural, Debug, Clone, Copy)]
pub enum LockAction {
    /// Keep the created lock file.
    Acquired,
    /// Stop without the lock.
    GiveUp,
    /// Remove the stale lock file, then try again if `retry`, else stop.
    RemoveStale { retry: bool },
    /// Wait a little, then try again if `retry`, else stop.
    Wait { retry: bool },
}

/// The decision after attempt number `attempt` (counting from 1) found
/// `found`: a created file is kept, any other failure gives up, and a held
/// lock is removed when stale or waited out when fresh, with another
/// attempt only while fewer than `LOCK_ATTEMPTS` have been made.
pub open spec fn lock_step_spec(attempt: usize, found: LockAttempt) -> LockAction {
    match found {
        LockAttempt::Created => LockAction::Acquired,
        LockAttempt::Failed => LockAction::GiveUp,
        LockAttempt::HeldStale => LockAction::RemoveStale { retry: attempt < LOCK_ATTEMPTS },
        LockAttempt::HeldFresh => LockAction::Wait { retry: attempt < LOCK_ATTEMPTS },
    }
}

/// Decides what to do after attempt number `attempt` found `found`.
pub fn lock_step(attempt: usize, found: LockAttempt) -> (a: LockAction)
    ensures
        a == lock_step_spec(attempt, found),
{
    match found {
        LockAttempt::Created => LockAction::Acquired,
        LockAttempt::Failed => LockAction::GiveUp,
        LockAttempt::HeldStale => LockAction::RemoveStale { retry: attempt < LOCK_ATTEMPTS },
        LockAttempt::HeldFresh => LockAction::Wait { retry: attempt < LOCK_ATTEMPTS },
    }
}

/// Acquisition ends within `LOCK_ATTEMPTS` attempts: from the last attempt
/// on, no decision asks for another.
pub proof fn law_lock_attempts_bounded(attempt: usize, found: LockAttempt)
    requires
        attempt >= LOCK_ATTEMPTS,
    ensures
        lock_step_spec(attempt, found) != (LockAction::RemoveStale { retry: true }),
        lock_step_spec(attempt, found) != (LockAction::Wait { retry: true }),
{
}

} // verus!
