//! Cold-start seeding decisions: expanding home-relative arguments, the
//! cross-reference of known directories, the home-directory index, and the
//! plan for resolving a `cd` argument to a directory.
//!
//! Resolution tries, in order: an argument that names a place outright
//! (absolute, `~`, `~/...`, `$HOME/...`); a directory seen elsewhere in the
//! history under the same base name; the shallowest directory with that base
//! name found under the home directory.

use vstd::prelude::*;
use vstd::hash_map::StringHashMap;

use crate::order::{lemma_lex_antisymmetric, lemma_lex_transitive, lex_le, sort_strings, sorted_keys};
use crate::paths::{basename, basename_of, last_segment};
use crate::text::{
    chars_equal, chars_of, count_char, find_after_last, push_chars, starts_with, string_of,
    strings_view,
};

verus! {

pub open spec fn tilde_slash_lit() -> Seq<char> {
    seq!['~', '/']
}

pub open spec fn home_var_lit() -> Seq<char> {
    seq!['$', 'H', 'O', 'M', 'E', '/']
}

/// What a history argument names outright: an absolute path as it is, and
/// `~`, `~/rest` and `$HOME/rest` under the home directory `h`.
pub open spec fn expand_spec(arg: Seq<char>, h: Seq<char>) -> Option<Seq<char>> {
    if starts_with(arg, seq!['/']) {
        Some(arg)
    } else if starts_with(arg, tilde_slash_lit()) {
        Some(h + seq!['/'] + arg.skip(2))
    } else if arg == seq!['~'] {
        Some(h)
    } else if starts_with(arg, home_var_lit()) {
        Some(h + seq!['/'] + arg.skip(6))
    } else {
        None
    }
}

/// `h`, then `/`, then `v[from..]`.
fn join_home(h: &[char], v: &[char], from: usize) -> (s: String)
    requires
        from <= v@.len(),
    ensures
        s@ == h@ + seq!['/'] + v@.skip(from as int),
{
    let mut s = string_of(h, 0, h.len());
    let slash: Vec<char> = vec!['/'];
    push_chars(&mut s, &slash, 0, 1);
    push_chars(&mut s, v, from, v.len());
    assert(h@.subrange(0, h@.len() as int) =~= h@);
    assert(slash@.subrange(0, 1) =~= seq!['/']);
    assert(v@.subrange(from as int, v@.len() as int) =~= v@.skip(from as int));
    s
}

/// The path that `arg` names outright, with `h` as the home directory.
pub fn expand(arg: &str, h: &str) -> (r: Option<String>)
    ensures
        match r {
            Some(p) => expand_spec(arg@, h@) == Some(p@),
            None => expand_spec(arg@, h@) is None,
        },
{
    let a = chars_of(arg);
    let hv = chars_of(h);
    let n = a.len();
    assert(a@.subrange(0, n as int) =~= a@);
    let p1: Vec<char> = vec!['/'];
    let p2: Vec<char> = vec!['~', '/'];
    let p3: Vec<char> = vec!['~'];
    let p4: Vec<char> = vec!['$', 'H', 'O', 'M', 'E', '/'];
    assert(p1@ == seq!['/']);
    assert(p2@ == tilde_slash_lit());
    assert(p3@ == seq!['~']);
    assert(p4@ == home_var_lit());
    if crate::text::has_prefix(&a, 0, n, &p1) {
        Some(string_of(&a, 0, n))
    } else if crate::text::has_prefix(&a, 0, n, &p2) {
        Some(join_home(&hv, &a, 2))
    } else if chars_equal(&a, &p3) {
        assert(hv@.subrange(0, hv@.len() as int) =~= hv@);
        Some(string_of(&hv, 0, hv.len()))
    } else if crate::text::has_prefix(&a, 0, n, &p4) {
        Some(join_home(&hv, &a, 6))
    } else {
        None
    }
}

/// How deep a path is: its number of `/` characters (which is also its
/// number of `/` bytes).
pub fn depth_of(p: &str) -> (d: usize)
    ensures
        d == count_char(p@, '/'),
{
    let v = chars_of(p);
    let mut d: usize = 0;
    let mut k: usize = 0;
    while k < v.len()
        invariant
            k <= v@.len(),
            d == count_char(v@.take(k as int), '/'),
            d <= k,
        decreases v@.len() - k,
    {
        assert(v@.take(k + 1).drop_last() =~= v@.take(k as int));
        if v[k] == '/' {
            d += 1;
        }
        k += 1;
    }
    assert(v@.take(v@.len() as int) =~= v@);
    d
}

/// Arguments that never name a directory worth seeding: `-`, `.`, and
/// anything starting with `..`.
pub open spec fn unresolvable(arg: Seq<char>) -> bool {
    arg == seq!['-'] || arg == seq!['.'] || arg == seq!['.', '.'] || starts_with(arg, seq!['.', '.'])
}

fn is_unresolvable(a: &[char]) -> (b: bool)
    ensures
        b == unresolvable(a@),
{
    let dash: Vec<char> = vec!['-'];
    let dot: Vec<char> = vec!['.'];
    let dotdot: Vec<char> = vec!['.', '.'];
    assert(dash@ == seq!['-']);
    assert(dot@ == seq!['.']);
    assert(dotdot@ == seq!['.', '.']);
    assert(a@.subrange(0, a@.len() as int) =~= a@);
    chars_equal(a, &dash) || chars_equal(a, &dot) || chars_equal(a, &dotdot)
        || crate::text::has_prefix(a, 0, a.len(), &dotdot)
}

// ---------------------------------------------------------------------------
// Cross-reference: base name -> a directory seen in history
// ---------------------------------------------------------------------------

/// Directories named outright somewhere in the history, by base name; the
/// first one recorded under a base name wins.
pub struct CrossRef {
    map: StringHashMap<String>,
}

impl View for CrossRef {
    type V = Map<Seq<char>, Seq<char>>;

    closed spec fn view(&self) -> Map<Seq<char>, Seq<char>> {
        Map::new(|k: Seq<char>| self.map@.contains_key(k), |k: Seq<char>| self.map@[k]@)
    }
}

impl CrossRef {
    pub fn new() -> (r: CrossRef)
        ensures
            r@ == Map::<Seq<char>, Seq<char>>::empty(),
    {
        let r = CrossRef { map: StringHashMap::new() };
        assert(r@ =~= Map::<Seq<char>, Seq<char>>::empty());
        r
    }

    /// Records the canonical directory `dir` under its base name unless that
    /// name already has one.
    pub fn note(&mut self, dir: String)
        ensures
            final(self)@ == if old(self)@.contains_key(last_segment(dir@)) {
                old(self)@
            } else {
                old(self)@.insert(last_segment(dir@), dir@)
            },
    {
        let v = chars_of(dir.as_str());
        let s = find_after_last(&v, 0, v.len(), '/');
        assert(v@.subrange(0, v@.len() as int) =~= v@);
        let base = string_of(&v, s, v.len());
        assert(base@ =~= last_segment(dir@));
        if self.map.contains_key(base.as_str()) {
            return ;
        }
        let ghost before = self@;
        self.map.insert(base, dir);
        assert(self@ =~= before.insert(last_segment(dir@), dir@));
    }

    /// The directory recorded under `name`, if any.
    pub fn get(&self, name: &str) -> (r: Option<&String>)
        ensures
            match r {
                Some(d) => self@.contains_key(name@) && d@ == self@[name@],
                None => !self@.contains_key(name@),
            },
    {
        self.map.get(name)
    }
}

// ---------------------------------------------------------------------------
// Home-directory index: base name -> directories with that name
// ---------------------------------------------------------------------------

/// Directories found under the home directory, by base name, in the order
/// they were found.
pub struct DirIndex {
    map: StringHashMap<Vec<String>>,
}

impl View for DirIndex {
    type V = Map<Seq<char>, Seq<Seq<char>>>;

    closed spec fn view(&self) -> Map<Seq<char>, Seq<Seq<char>>> {
        Map::new(
            |k: Seq<char>| self.map@.contains_key(k),
            |k: Seq<char>| strings_view(self.map@[k]@),
        )
    }
}

impl DirIndex {
    pub fn new() -> (r: DirIndex)
        ensures
            r@ == Map::<Seq<char>, Seq<Seq<char>>>::empty(),
    {
        let r = DirIndex { map: StringHashMap::new() };
        assert(r@ =~= Map::<Seq<char>, Seq<Seq<char>>>::empty());
        r
    }

    /// Appends the directory `full` to the list for base name `name`.
    pub fn add(&mut self, name: String, full: String)
        ensures
            final(self)@ == old(self)@.insert(
                name@,
                (if old(self)@.contains_key(name@) {
                    old(self)@[name@]
                } else {
                    Seq::<Seq<char>>::empty()
                }).push(full@),
            ),
    {
        let mut list: Vec<String> = match self.map.get(name.as_str()) {
            Some(l) => l.clone(),
            None => Vec::new(),
        };
        let ghost before = self@;
        let ghost old_list = if before.contains_key(name@) {
            before[name@]
        } else {
            Seq::<Seq<char>>::empty()
        };
        assert(strings_view(list@) =~= old_list);
        list.push(full);
        assert(strings_view(list@) =~= old_list.push(full@));
        self.map.insert(name, list);
        assert(self@ =~= before.insert(name@, old_list.push(full@)));
    }

    /// The directories recorded under `name`, if any.
    pub fn get(&self, name: &str) -> (r: Option<&Vec<String>>)
        ensures
            match r {
                Some(l) => self@.contains_key(name@) && strings_view(l@) == self@[name@],
                None => !self@.contains_key(name@),
            },
    {
        self.map.get(name)
    }
}

/// Index `i` holds the first of the shallowest paths in `ps`.
pub open spec fn first_shallowest(ps: Seq<Seq<char>>, i: int) -> bool {
    &&& 0 <= i < ps.len()
    &&& forall|j: int| 0 <= j < ps.len() ==> count_char(#[trigger] ps[j], '/') >= count_char(ps[i], '/')
    &&& forall|j: int| 0 <= j < i ==> count_char(#[trigger] ps[j], '/') > count_char(ps[i], '/')
}

/// The first of the shallowest paths in a non-empty list.
pub open spec fn shallowest_index(ps: Seq<Seq<char>>) -> int {
    choose|i: int| first_shallowest(ps, i)
}

/// There is exactly one first shallowest path.
pub proof fn lemma_first_shallowest_unique(ps: Seq<Seq<char>>, i: int)
    requires
        first_shallowest(ps, i),
    ensures
        shallowest_index(ps) == i,
{
    let k = shallowest_index(ps);
    assert(first_shallowest(ps, k));
    if k < i {
        assert(count_char(ps[k], '/') > count_char(ps[i], '/'));
    } else if k > i {
        assert(count_char(ps[i], '/') > count_char(ps[k], '/'));
    }
}

/// The first of the shallowest paths in `ps`; `None` when `ps` is empty.
pub fn shallowest(ps: &Vec<String>) -> (r: Option<usize>)
    ensures
        match r {
            Some(i) => i < ps@.len() && i == shallowest_index(strings_view(ps@)),
            None => ps@.len() == 0,
        },
{
    if ps.len() == 0 {
        return None;
    }
    let ghost sv = strings_view(ps@);
    let mut best: usize = 0;
    let mut best_d = depth_of(ps[0].as_str());
    let mut k: usize = 1;
    while k < ps.len()
        invariant
            1 <= k <= ps@.len(),
            sv == strings_view(ps@),
            best < k,
            best_d == count_char(sv[best as int], '/'),
            forall|j: int| 0 <= j < k ==> count_char(#[trigger] sv[j], '/') >= best_d,
            forall|j: int| 0 <= j < best ==> count_char(#[trigger] sv[j], '/') > best_d,
        decreases ps@.len() - k,
    {
        let d = depth_of(ps[k].as_str());
        assert(sv[k as int] == ps@[k as int]@);
        if d < best_d {
            best = k;
            best_d = d;
        }
        k += 1;
    }
    proof {
        lemma_first_shallowest_unique(sv, best as int);
    }
    Some(best)
}

// ---------------------------------------------------------------------------
// Resolution plan
// ---------------------------------------------------------------------------

/// How to find the directory a history argument refers to.
pub enum Target {
    /// A directory already known to exist.
    Known(String),
    /// A path that names the directory if canonicalizing it yields one.
    Canonicalize(String),
}

/// A target as (already known?, path).
pub open spec fn target_view(t: Target) -> (bool, Seq<char>) {
    match t {
        Target::Known(p) => (true, p@),
        Target::Canonicalize(p) => (false, p@),
    }
}

/// The resolution plan for the history argument `arg` with home `h`. An
/// argument that names no place outright is looked up by its base name, the
/// last component with trailing slashes ignored (`foo/` looks up `foo`).
pub open spec fn resolve_plan(
    arg: Seq<char>,
    h: Seq<char>,
    cross: Map<Seq<char>, Seq<char>>,
    index: Map<Seq<char>, Seq<Seq<char>>>,
) -> Option<(bool, Seq<char>)> {
    if unresolvable(arg) {
        None
    } else if expand_spec(arg, h) is Some {
        Some((false, expand_spec(arg, h)->0))
    } else {
        let name = basename_of(arg);
        if cross.contains_key(name) {
            Some((true, cross[name]))
        } else if index.contains_key(name) && index[name].len() > 0 {
            Some((false, index[name][shallowest_index(index[name])]))
        } else {
            None
        }
    }
}

/// Decides how to resolve the history argument `arg` (home `h`).
pub fn plan_resolve(arg: &str, h: &str, cross: &CrossRef, index: &DirIndex) -> (r: Option<Target>)
    ensures
        match r {
            Some(t) => resolve_plan(arg@, h@, cross@, index@) == Some(target_view(t)),
            None => resolve_plan(arg@, h@, cross@, index@) is None,
        },
{
    let a = chars_of(arg);
    if is_unresolvable(&a) {
        return None;
    }
    if let Some(p) = expand(arg, h) {
        return Some(Target::Canonicalize(p));
    }
    let name = basename(arg);
    if let Some(c) = cross.get(name) {
        return Some(Target::Known(c.clone()));
    }
    match index.get(name) {
        Some(list) => match shallowest(list) {
            Some(i) => {
                assert(strings_view(list@)[i as int] == list@[i as int]@);
                Some(Target::Canonicalize(list[i].clone()))
            },
            None => None,
        },
        None => None,
    }
}

/// A non-empty list of paths has a first shallowest one.
pub proof fn lemma_first_shallowest_exists(ps: Seq<Seq<char>>)
    requires
        ps.len() > 0,
    ensures
        first_shallowest(ps, shallowest_index(ps)),
    decreases ps.len(),
{
    if ps.len() == 1 {
        assert(first_shallowest(ps, 0));
    } else {
        let init = ps.drop_last();
        lemma_first_shallowest_exists(init);
        let i = shallowest_index(init);
        let n = ps.len() - 1;
        if count_char(ps[n], '/') < count_char(init[i], '/') {
            assert forall|j: int| 0 <= j < n implies count_char(#[trigger] ps[j], '/') > count_char(
                ps[n],
                '/',
            ) by {
                assert(ps[j] == init[j]);
            }
            assert(first_shallowest(ps, n));
        } else {
            assert forall|j: int| 0 <= j < ps.len() implies count_char(#[trigger] ps[j], '/')
                >= count_char(ps[i], '/') by {
                if j < n {
                    assert(ps[j] == init[j]);
                }
            }
            assert forall|j: int| 0 <= j < i implies count_char(#[trigger] ps[j], '/') > count_char(
                ps[i],
                '/',
            ) by {
                assert(ps[j] == init[j]);
            }
            assert(first_shallowest(ps, i));
        }
    }
}

/// An argument that names no place outright and whose base name the
/// history does not know resolves to a directory of that name found under
/// the home directory: one with the fewest `/`, the first such in scan
/// order.
pub proof fn law_resolve_picks_shallowest(
    arg: Seq<char>,
    h: Seq<char>,
    cross: Map<Seq<char>, Seq<char>>,
    index: Map<Seq<char>, Seq<Seq<char>>>,
)
    requires
        arg != seq!['-'],
        arg != seq!['.'],
        !starts_with(arg, seq!['.', '.']),
        expand_spec(arg, h) is None,
        !cross.contains_key(basename_of(arg)),
        index.contains_key(basename_of(arg)),
        index[basename_of(arg)].len() > 0,
    ensures
        ({
            let list = index[basename_of(arg)];
            exists|i: int|
                0 <= i < list.len() && resolve_plan(arg, h, cross, index) == Some((false, list[i]))
                    && (forall|j: int| 0 <= j < list.len() ==> count_char(#[trigger] list[j], '/')
                    >= count_char(list[i], '/')) && (forall|j: int| 0 <= j < i ==> count_char(
                    #[trigger] list[j],
                    '/',
                ) > count_char(list[i], '/'))
        }),
{
    let list = index[basename_of(arg)];
    lemma_first_shallowest_exists(list);
    let i = shallowest_index(list);
    assert(!unresolvable(arg)) by {
        if arg == seq!['.', '.'] {
            assert(arg.take(2) =~= seq!['.', '.']);
        }
    }
    assert(resolve_plan(arg, h, cross, index) == Some((false, list[i])));
}

/// Only `-`, `.` and arguments starting with `..` are set aside outright.
/// Any other argument whose base name the history knows, and which names
/// no place outright (such as `./src` or `.config`), resolves to the
/// directory the history knows under that name.
pub proof fn law_resolve_known_name(
    arg: Seq<char>,
    h: Seq<char>,
    cross: Map<Seq<char>, Seq<char>>,
    index: Map<Seq<char>, Seq<Seq<char>>>,
)
    requires
        arg != seq!['-'],
        arg != seq!['.'],
        !starts_with(arg, seq!['.', '.']),
        expand_spec(arg, h) is None,
        cross.contains_key(basename_of(arg)),
    ensures
        resolve_plan(arg, h, cross, index) == Some((true, cross[basename_of(arg)])),
{
    assert(!unresolvable(arg)) by {
        if arg == seq!['.', '.'] {
            assert(arg.take(2) =~= seq!['.', '.']);
        }
    }
}

/// An argument yields no plan only when it is `-`, `.` or starts with
/// `..`, or when it names no place outright and its base name is neither
/// known from the history nor found under the home directory.
pub proof fn law_resolve_none_only_when_unknown(
    arg: Seq<char>,
    h: Seq<char>,
    cross: Map<Seq<char>, Seq<char>>,
    index: Map<Seq<char>, Seq<Seq<char>>>,
)
    requires
        resolve_plan(arg, h, cross, index) is None,
    ensures
        arg == seq!['-'] || arg == seq!['.'] || starts_with(arg, seq!['.', '.']) || (expand_spec(
            arg,
            h,
        ) is None && !cross.contains_key(basename_of(arg)) && !(index.contains_key(basename_of(arg))
            && index[basename_of(arg)].len() > 0)),
{
    if arg == seq!['.', '.'] {
        assert(arg.take(2) =~= seq!['.', '.']);
    }
}

// ---------------------------------------------------------------------------
// Home scan
// ---------------------------------------------------------------------------

/// How many levels below the home directory the scan reads.
pub const SCAN_MAX_DEPTH: usize = 5;

/// Whether the home scan reads the entries of a directory found `depth`
/// levels below the home directory (the home directory itself is depth 0).
pub fn scan_descend(depth: usize) -> (b: bool)
    ensures
        b == (depth < SCAN_MAX_DEPTH),
{
    depth < SCAN_MAX_DEPTH
}

/// Directory names the home scan never enters.
pub open spec fn scan_skip_names() -> Seq<Seq<char>> {
    seq![
        seq!['n', 'o', 'd', 'e', '_', 'm', 'o', 'd', 'u', 'l', 'e', 's'],
        seq!['.', 'g', 'i', 't'],
        seq!['L', 'i', 'b', 'r', 'a', 'r', 'y'],
        seq!['.', 'c', 'a', 'c', 'h', 'e'],
        seq!['.', 'T', 'r', 'a', 's', 'h'],
        seq!['.', 'n', 'p', 'm'],
        seq!['.', 'c', 'a', 'r', 'g', 'o'],
        seq!['v', 'e', 'n', 'v'],
        seq!['.', 'v', 'e', 'n', 'v'],
        seq!['_', '_', 'p', 'y', 'c', 'a', 'c', 'h', 'e', '_', '_'],
        seq!['.', 'v', 's', 'c', 'o', 'd', 'e'],
    ]
}

/// The home scan indexes and enters a directory unless its name is hidden
/// (starts with `.`) or is one of the skipped names.
pub open spec fn scan_enters_spec(name: Seq<char>) -> bool {
    !starts_with(name, seq!['.']) && !scan_skip_names().contains(name)
}

/// Whether the home scan indexes and enters the directory called `name`.
pub fn scan_enters(name: &str) -> (b: bool)
    ensures
        b == scan_enters_spec(name@),
{
    let v = chars_of(name);
    let dot: Vec<char> = vec!['.'];
    assert(dot@ == seq!['.']);
    assert(v@.subrange(0, v@.len() as int) =~= v@);
    if crate::text::has_prefix(&v, 0, v.len(), &dot) {
        return false;
    }
    let skip: Vec<Vec<char>> = vec![
        vec!['n', 'o', 'd', 'e', '_', 'm', 'o', 'd', 'u', 'l', 'e', 's'],
        vec!['.', 'g', 'i', 't'],
        vec!['L', 'i', 'b', 'r', 'a', 'r', 'y'],
        vec!['.', 'c', 'a', 'c', 'h', 'e'],
        vec!['.', 'T', 'r', 'a', 's', 'h'],
        vec!['.', 'n', 'p', 'm'],
        vec!['.', 'c', 'a', 'r', 'g', 'o'],
        vec!['v', 'e', 'n', 'v'],
        vec!['.', 'v', 'e', 'n', 'v'],
        vec!['_', '_', 'p', 'y', 'c', 'a', 'c', 'h', 'e', '_', '_'],
        vec!['.', 'v', 's', 'c', 'o', 'd', 'e'],
    ];
    let ghost names = scan_skip_names();
    assert(skip@.len() == names.len());
    assert(forall|i: int| 0 <= i < names.len() ==> #[trigger] skip@[i]@ == names[i]);
    let mut k: usize = 0;
    while k < skip.len()
        invariant
            k <= skip@.len() == names.len(),
            names == scan_skip_names(),
            v@ == name@,
            !starts_with(v@, seq!['.']),
            forall|i: int| 0 <= i < names.len() ==> #[trigger] skip@[i]@ == names[i],
            forall|i: int| 0 <= i < k ==> names[i] != v@,
        decreases skip@.len() - k,
    {
        if chars_equal(&v, &skip[k]) {
            assert(names[k as int] == v@);
            assert(names.contains(v@));
            return false;
        }
        k += 1;
    }
    assert(!names.contains(v@));
    true
}

// ---------------------------------------------------------------------------
// Report
// ---------------------------------------------------------------------------

/// What a seeding run found.
pub struct SeedReport {
    /// `cd` events read from history.
    pub events: usize,
    /// Events that resolved to an existing directory.
    pub resolved: usize,
    /// Distinct directories seeded.
    pub unique_dirs: usize,
    /// Those directories, sorted.
    pub paths: Vec<String>,
}


/// The resolved directories of a run, in event order, skipping events that
/// resolved to none.
pub open spec fn resolved_dirs(rs: Seq<Option<String>>) -> Seq<Seq<char>>
    decreases rs.len(),
{
    if rs.len() == 0 {
        seq![]
    } else {
        let r = resolved_dirs(rs.drop_last());
        match rs.last() {
            Some(d) => r.push(d@),
            None => r,
        }
    }
}

/// The texts are in strictly increasing order: sorted, with no repeats.
pub open spec fn strictly_sorted(ks: Seq<Seq<char>>) -> bool {
    forall|i: int, j: int| 0 <= i < j < ks.len() ==> lex_le(ks[i], ks[j]) && ks[i] != ks[j]
}

/// What a seeding run found, given the number of `cd` events and, for each
/// event, the directory it resolved to: how many resolved, and the distinct
/// directories in order.
pub fn seed_report(events: usize, resolutions: &Vec<Option<String>>) -> (r: SeedReport)
    ensures
        r.events == events,
        r.resolved == resolved_dirs(resolutions@).len(),
        r.unique_dirs == r.paths@.len(),
        strictly_sorted(strings_view(r.paths@)),
        forall|d: Seq<char>| #[trigger] strings_view(r.paths@).contains(d) <==> resolved_dirs(
            resolutions@,
        ).contains(d),
{
    let mut found: Vec<String> = Vec::new();
    let mut k: usize = 0;
    while k < resolutions.len()
        invariant
            k <= resolutions@.len(),
            strings_view(found@) == resolved_dirs(resolutions@.take(k as int)),
        decreases resolutions@.len() - k,
    {
        let ghost before = strings_view(found@);
        assert(resolutions@.take(k + 1).drop_last() =~= resolutions@.take(k as int));
        assert(resolutions@.take(k + 1).last() == resolutions@[k as int]);
        match &resolutions[k] {
            Some(d) => {
                found.push(d.clone());
                assert(strings_view(found@) =~= before.push(d@));
            },
            None => {},
        }
        k += 1;
    }
    assert(resolutions@.take(resolutions@.len() as int) =~= resolutions@);
    let resolved = found.len();
    let ghost all = strings_view(found@);
    sort_strings(&mut found);
    let ghost sorted = strings_view(found@);
    let mut paths: Vec<String> = Vec::new();
    let mut j: usize = 0;
    while j < found.len()
        invariant
            j <= found@.len(),
            sorted == strings_view(found@),
            sorted_keys(sorted),
            strictly_sorted(strings_view(paths@)),
            forall|d: Seq<char>| #[trigger] strings_view(paths@).contains(d) <==> sorted.take(
                j as int,
            ).contains(d),
            j > 0 ==> paths@.len() > 0 && strings_view(paths@).last() == sorted[j - 1],
            j == 0 ==> paths@.len() == 0,
        decreases found@.len() - j,
    {
        let ghost pv = strings_view(paths@);
        assert(sorted.take(j + 1) =~= sorted.take(j as int).push(sorted[j as int]));
        let fresh = paths.len() == 0 || paths[paths.len() - 1] != found[j];
        if fresh {
            proof {
                let x = sorted[j as int];
                assert(found@[j as int]@ == x);
                if pv.len() > 0 {
                    let last = pv.last();
                    assert(last == paths@[paths@.len() - 1]@);
                    assert(last != x);
                    assert(lex_le(last, x));
                    assert forall|i: int| 0 <= i < pv.len() implies lex_le(#[trigger] pv[i], x) && pv[i]
                        != x by {
                        if i < pv.len() - 1 {
                            assert(lex_le(pv[i], last));
                            lemma_lex_transitive(pv[i], last, x);
                            if pv[i] == x {
                                lemma_lex_antisymmetric(last, x);
                            }
                        }
                    }
                }
            }
            paths.push(found[j].clone());
            proof {
                broadcast use vstd::seq_lib::lemma_seq_contains_after_push;

                let x = sorted[j as int];
                assert(strings_view(paths@) =~= pv.push(x));
            }
        } else {
            proof {
                broadcast use vstd::seq_lib::lemma_seq_contains_after_push;

                let x = sorted[j as int];
                assert(found@[j as int]@ == x);
                assert(paths@[paths@.len() - 1]@ == pv.last());
                assert(pv.last() == x);
                assert(sorted.take(j as int)[j - 1] == sorted[j - 1]);
                assert(sorted.take(j as int).contains(x));
                assert(strings_view(paths@) == pv);
            }
        }
        j += 1;
    }
    proof {
        broadcast use vstd::seq_lib::group_to_multiset_ensures;

        assert(sorted.take(sorted.len() as int) =~= sorted);
        assert forall|d: Seq<char>| #[trigger] sorted.contains(d) <==> all.contains(d) by {
            assert(sorted.to_multiset().count(d) == all.to_multiset().count(d));
        }
    }
    SeedReport { events, resolved, unique_dirs: paths.len(), paths }
}

} // verus!
