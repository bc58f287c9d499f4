//! Shell-history parsing: recognising `cd` invocations, lexing their first
//! shell word, and reading zsh, bash and fish history text into `cd` events.

use vstd::prelude::*;

use crate::text::{
    chars_of, find_char, has_prefix, index_of, is_whitespace, is_ws, lemma_lead_ws_bound,
    lemma_trail_ws_bound, lines, next_line_bounds, parse_u64, parse_u64_range, skip_ws, starts_with,
    string_of, trim, trim_range, trim_start,
};

verus! {

/// A `cd` found in shell history.
pub struct CdEvent {
    /// The directory argument, unquoted and unescaped.
    pub arg: String,
    /// When the history recorded a timestamp, the Unix time of the command.
    pub epoch: Option<u64>,
    /// Position among the events read so far; higher is more recent.
    pub order: usize,
}

/// The mathematical content of a `CdEvent`: argument, timestamp, order.
pub type EventView = (Seq<char>, Option<u64>, usize);

impl CdEvent {
    pub open spec fn view_of(self) -> EventView {
        (self.arg@, self.epoch, self.order)
    }
}

pub open spec fn events_view(v: Seq<CdEvent>) -> Seq<EventView> {
    v.map_values(|e: CdEvent| e.view_of())
}

/// Every event's order is its position in the list.
pub open spec fn orders_match(evs: Seq<EventView>) -> bool {
    forall|k: int| 0 <= k < evs.len() ==> (#[trigger] evs[k]).2 == k
}

// ---------------------------------------------------------------------------
// Literals
// ---------------------------------------------------------------------------

pub open spec fn builtin_cd_lit() -> Seq<char> {
    seq!['b', 'u', 'i', 'l', 't', 'i', 'n', ' ', 'c', 'd']
}

pub open spec fn command_cd_lit() -> Seq<char> {
    seq!['c', 'o', 'm', 'm', 'a', 'n', 'd', ' ', 'c', 'd']
}

pub open spec fn cd_lit() -> Seq<char> {
    seq!['c', 'd']
}

pub open spec fn dashdash_lit() -> Seq<char> {
    seq!['-', '-']
}

// ---------------------------------------------------------------------------
// Recognising a cd invocation
// ---------------------------------------------------------------------------

/// `c` starts with the command word `p` followed by whitespace.
pub open spec fn invoked_as(c: Seq<char>, p: Seq<char>) -> bool {
    starts_with(c, p) && c.len() > p.len() && is_ws(c[p.len() as int])
}

/// The arguments of `cmd` when it is `cd`, `builtin cd` or `command cd`
/// followed by whitespace, with leading whitespace removed.
pub open spec fn strip_cd(cmd: Seq<char>) -> Option<Seq<char>> {
    let c = trim_start(cmd);
    if invoked_as(c, builtin_cd_lit()) {
        Some(trim_start(c.skip(10)))
    } else if invoked_as(c, command_cd_lit()) {
        Some(trim_start(c.skip(10)))
    } else if invoked_as(c, cd_lit()) {
        Some(trim_start(c.skip(2)))
    } else {
        None
    }
}

fn invoked_at(v: &[char], from: usize, to: usize, p: &[char]) -> (b: bool)
    requires
        from <= to <= v@.len(),
    ensures
        b == invoked_as(v@.subrange(from as int, to as int), p@),
{
    if !has_prefix(v, from, to, p) {
        return false;
    }
    if p.len() >= to - from {
        return false;
    }
    assert(v@.subrange(from as int, to as int)[p@.len() as int] == v@[from + p@.len()]);
    is_whitespace(v[from + p.len()])
}

/// Where the arguments of the `cd` invocation in `v[from..to]` begin.
fn cd_rest_start(v: &[char], from: usize, to: usize) -> (r: Option<usize>)
    requires
        from <= to <= v@.len(),
    ensures
        match r {
            Some(k) => from <= k <= to && strip_cd(v@.subrange(from as int, to as int)) == Some(
                v@.subrange(k as int, to as int),
            ),
            None => strip_cd(v@.subrange(from as int, to as int)) is None,
        },
{
    let ghost s = v@.subrange(from as int, to as int);
    let a = skip_ws(v, from, to);
    let ghost c = v@.subrange(a as int, to as int);
    assert(trim_start(s) == c);
    let p1: Vec<char> = vec!['b', 'u', 'i', 'l', 't', 'i', 'n', ' ', 'c', 'd'];
    let p2: Vec<char> = vec!['c', 'o', 'm', 'm', 'a', 'n', 'd', ' ', 'c', 'd'];
    let p3: Vec<char> = vec!['c', 'd'];
    assert(p1@ == builtin_cd_lit());
    assert(p2@ == command_cd_lit());
    assert(p3@ == cd_lit());
    if invoked_at(v, a, to, &p1) {
        assert(c.skip(10) =~= v@.subrange(a + 10, to as int));
        return Some(skip_ws(v, a + 10, to));
    }
    if invoked_at(v, a, to, &p2) {
        assert(c.skip(10) =~= v@.subrange(a + 10, to as int));
        return Some(skip_ws(v, a + 10, to));
    }
    if invoked_at(v, a, to, &p3) {
        assert(c.skip(2) =~= v@.subrange(a + 2, to as int));
        return Some(skip_ws(v, a + 2, to));
    }
    None
}

/// The arguments of a `cd`, `builtin cd` or `command cd` command line.
pub fn strip_cd_invocation(cmd: &str) -> (r: Option<&str>)
    ensures
        match r {
            Some(rest) => strip_cd(cmd@) == Some(rest@),
            None => strip_cd(cmd@) is None,
        },
{
    let v = chars_of(cmd);
    let n = v.len();
    assert(v@.subrange(0, n as int) =~= v@);
    match cd_rest_start(&v, 0, n) {
        Some(k) => Some(cmd.substring_char(k, n)),
        None => None,
    }
}

// ---------------------------------------------------------------------------
// The first shell word
// ---------------------------------------------------------------------------

/// The lexer's state after some prefix of the input.
pub struct WordScan {
    pub out: Seq<char>,
    pub quote: Option<char>,
    pub escaped: bool,
    pub done: bool,
}

pub open spec fn word_start() -> WordScan {
    WordScan { out: seq![], quote: None, escaped: false, done: false }
}

/// One character of lexing: a backslash escapes the next character, quotes
/// group, an unquoted `;` or whitespace after some text ends the word.
pub open spec fn word_step(st: WordScan, ch: char) -> WordScan {
    if st.done {
        st
    } else if st.escaped {
        WordScan { out: st.out.push(ch), quote: st.quote, escaped: false, done: false }
    } else if ch == '\\' {
        WordScan { out: st.out, quote: st.quote, escaped: true, done: false }
    } else if st.quote is Some {
        if ch == st.quote->0 {
            WordScan { out: st.out, quote: None, escaped: false, done: false }
        } else {
            WordScan { out: st.out.push(ch), quote: st.quote, escaped: false, done: false }
        }
    } else if ch == '\'' || ch == '"' {
        WordScan { out: st.out, quote: Some(ch), escaped: false, done: false }
    } else if ch == ';' {
        WordScan { out: st.out, quote: None, escaped: false, done: true }
    } else if is_ws(ch) {
        if st.out.len() == 0 {
            st
        } else {
            WordScan { out: st.out, quote: None, escaped: false, done: true }
        }
    } else {
        WordScan { out: st.out.push(ch), quote: None, escaped: false, done: false }
    }
}

pub open spec fn word_scan(s: Seq<char>) -> WordScan
    decreases s.len(),
{
    if s.len() == 0 {
        word_start()
    } else {
        word_step(word_scan(s.drop_last()), s.last())
    }
}

/// The first shell word of `s`, trimmed; `None` when it is empty. A dangling
/// backslash at the end is kept literally.
pub open spec fn shell_word(s: Seq<char>) -> Option<Seq<char>> {
    let st = word_scan(s);
    let o = if st.escaped { st.out.push('\\') } else { st.out };
    if trim(o).len() > 0 {
        Some(trim(o))
    } else {
        None
    }
}

proof fn lemma_scan_done(s: Seq<char>, k: int)
    requires
        0 <= k <= s.len(),
        word_scan(s.take(k)).done,
    ensures
        word_scan(s) == word_scan(s.take(k)),
    decreases s.len() - k,
{
    if k < s.len() {
        assert(s.take(k + 1).drop_last() =~= s.take(k));
        lemma_scan_done(s, k + 1);
    } else {
        assert(s.take(k) =~= s);
    }
}

fn shell_word_range(v: &[char], from: usize, to: usize) -> (r: Option<String>)
    requires
        from <= to <= v@.len(),
    ensures
        match r {
            Some(w) => shell_word(v@.subrange(from as int, to as int)) == Some(w@),
            None => shell_word(v@.subrange(from as int, to as int)) is None,
        },
{
    let ghost s = v@.subrange(from as int, to as int);
    let mut out: Vec<char> = Vec::new();
    let mut quote: Option<char> = None;
    let mut escaped = false;
    let mut done = false;
    let mut k = from;
    assert(s.take(0) =~= Seq::<char>::empty());
    while k < to && !done
        invariant
            from <= k <= to <= v@.len(),
            s == v@.subrange(from as int, to as int),
            word_scan(s.take(k - from)) == (WordScan { out: out@, quote, escaped, done }),
        decreases to - k,
    {
        let ch = v[k];
        let ghost j = k - from;
        assert(s.take(j + 1).drop_last() =~= s.take(j));
        assert(s.take(j + 1).last() == ch);
        if escaped {
            out.push(ch);
            escaped = false;
        } else if ch == '\\' {
            escaped = true;
        } else if quote.is_some() {
            if ch == quote.unwrap() {
                quote = None;
            } else {
                out.push(ch);
            }
        } else if ch == '\'' || ch == '"' {
            quote = Some(ch);
        } else if ch == ';' {
            done = true;
        } else if is_whitespace(ch) {
            if out.len() != 0 {
                done = true;
            }
        } else {
            out.push(ch);
        }
        k += 1;
    }
    if done {
        proof {
            lemma_scan_done(s, k - from);
        }
    } else {
        assert(s.take(k - from) =~= s);
    }
    if escaped {
        out.push('\\');
    }
    let (a, b) = trim_range(&out, 0, out.len());
    assert(out@.subrange(0, out@.len() as int) =~= out@);
    if a < b {
        Some(string_of(&out, a, b))
    } else {
        None
    }
}

/// The first shell word of `input`: quotes group, backslashes escape, and an
/// unquoted `;` or whitespace ends the word.
pub fn first_shell_word(input: &str) -> (r: Option<String>)
    ensures
        match r {
            Some(w) => shell_word(input@) == Some(w@),
            None => shell_word(input@) is None,
        },
{
    let v = chars_of(input);
    let n = v.len();
    assert(v@.subrange(0, n as int) =~= v@);
    shell_word_range(&v, 0, n)
}

// ---------------------------------------------------------------------------
// cd events
// ---------------------------------------------------------------------------

/// The directory argument of a `cd` command line, if it has one: the first
/// shell word after an optional `--`.
pub open spec fn cd_arg(cmd: Seq<char>) -> Option<Seq<char>> {
    match strip_cd(cmd) {
        None => None,
        Some(r0) => {
            let r1 = trim_start(r0);
            let r = if starts_with(r1, dashdash_lit()) && r1.len() > 2 && is_ws(r1[2]) {
                trim_start(r1.skip(2))
            } else {
                r1
            };
            match shell_word(r) {
                None => None,
                Some(w) => if trim(w).len() > 0 {
                    Some(trim(w))
                } else {
                    None
                },
            }
        },
    }
}

/// The events after reading the command line `cmd` recorded at `epoch`.
pub open spec fn push_cd(evs: Seq<EventView>, cmd: Seq<char>, epoch: Option<u64>) -> Seq<
    EventView,
> {
    match cd_arg(cmd) {
        Some(a) => evs.push((a, epoch, evs.len() as usize)),
        None => evs,
    }
}

fn push_cd_range(
    v: &[char],
    from: usize,
    to: usize,
    epoch: Option<u64>,
    out: &mut Vec<CdEvent>,
)
    requires
        from <= to <= v@.len(),
    ensures
        events_view(final(out)@) == push_cd(
            events_view(old(out)@),
            v@.subrange(from as int, to as int),
            epoch,
        ),
{
    let ghost line = v@.subrange(from as int, to as int);
    let k0 = match cd_rest_start(v, from, to) {
        Some(k) => k,
        None => return ,
    };
    let k1 = skip_ws(v, k0, to);
    let dd: Vec<char> = vec!['-', '-'];
    assert(dd@ == dashdash_lit());
    let ghost r1 = v@.subrange(k1 as int, to as int);
    let mut k2 = k1;
    if has_prefix(v, k1, to, &dd) && to - k1 > 2 {
        assert(r1[2] == v@[k1 + 2]);
        if is_whitespace(v[k1 + 2]) {
            assert(r1.skip(2) =~= v@.subrange(k1 + 2, to as int));
            k2 = skip_ws(v, k1 + 2, to);
        }
    }
    let w = match shell_word_range(v, k2, to) {
        Some(w) => w,
        None => return ,
    };
    let wc = chars_of(w.as_str());
    let (a, b) = trim_range(&wc, 0, wc.len());
    assert(wc@.subrange(0, wc@.len() as int) =~= wc@);
    if a == b {
        return ;
    }
    let arg = string_of(&wc, a, b);
    let order = out.len();
    let ghost before = events_view(out@);
    let ev = CdEvent { arg, epoch, order };
    out.push(ev);
    assert(events_view(out@) =~= before.push(ev.view_of()));
}

/// Records `cmd` as a `cd` event when it is a `cd` to some directory.
pub fn push_if_cd(cmd: &str, epoch: Option<u64>, out: &mut Vec<CdEvent>)
    ensures
        events_view(final(out)@) == push_cd(events_view(old(out)@), cmd@, epoch),
{
    let v = chars_of(cmd);
    let n = v.len();
    assert(v@.subrange(0, n as int) =~= v@);
    push_cd_range(&v, 0, n, epoch, out);
}

/// Recording a `cd` keeps every event's order equal to its position.
pub proof fn law_push_cd_keeps_order(evs: Seq<EventView>, cmd: Seq<char>, epoch: Option<u64>)
    requires
        orders_match(evs),
        evs.len() <= usize::MAX,
    ensures
        orders_match(push_cd(evs, cmd, epoch)),
        push_cd(evs, cmd, epoch).len() <= evs.len() + 1,
        push_cd(evs, cmd, epoch).take(evs.len() as int) == evs,
{
    let r = push_cd(evs, cmd, epoch);
    assert(r.take(evs.len() as int) =~= evs);
    assert forall|k: int| 0 <= k < r.len() implies (#[trigger] r[k]).2 == k by {
        if k < evs.len() {
            assert(r[k] == evs[k]);
        }
    }
}

/// A recorded argument is never empty and neither starts nor ends with
/// whitespace.
pub proof fn law_cd_arg_trimmed(cmd: Seq<char>)
    ensures
        cd_arg(cmd) matches Some(a) ==> a.len() > 0 && !is_ws(a[0]) && !is_ws(a.last()),
{
    if let Some(a) = cd_arg(cmd) {
        let r0 = strip_cd(cmd)->0;
        let r1 = trim_start(r0);
        let r = if starts_with(r1, dashdash_lit()) && r1.len() > 2 && is_ws(r1[2]) {
            trim_start(r1.skip(2))
        } else {
            r1
        };
        let w = shell_word(r)->0;
        lemma_trim_ends(w);
    }
}

/// A non-empty trimmed text starts and ends with non-whitespace.
pub proof fn lemma_trim_ends(s: Seq<char>)
    ensures
        trim(s).len() > 0 ==> !is_ws(trim(s)[0]) && !is_ws(trim(s).last()),
{
    let t = trim_start(s);
    lemma_lead_ws_bound(s);
    lemma_trail_ws_bound(t);
    if trim(s).len() > 0 {
        assert(trim(s)[0] == t[0]);
        assert(t[0] == s[lead_ws_of(s)]);
        assert(trim(s).last() == t[t.len() - crate::text::trail_ws(t) - 1]);
    }
}

spec fn lead_ws_of(s: Seq<char>) -> int {
    crate::text::lead_ws(s) as int
}

// ---------------------------------------------------------------------------
// History files
// ---------------------------------------------------------------------------

pub open spec fn colon_space_lit() -> Seq<char> {
    seq![':', ' ']
}

pub open spec fn hash_lit() -> Seq<char> {
    seq!['#']
}

pub open spec fn fish_cmd_lit() -> Seq<char> {
    seq!['-', ' ', 'c', 'm', 'd', ':', ' ']
}

pub open spec fn fish_when_lit() -> Seq<char> {
    seq!['w', 'h', 'e', 'n', ':', ' ']
}

/// A zsh history line split into its timestamp and command. With
/// EXTENDED_HISTORY a line reads `: <epoch>:<duration>;<command>`; any other
/// line is a bare command.
pub open spec fn zsh_entry(line: Seq<char>) -> (Option<u64>, Seq<char>) {
    if starts_with(line, colon_space_lit()) {
        let rest = line.skip(2);
        let k = index_of(rest, ';');
        if k < rest.len() {
            let meta = rest.take(k as int);
            (parse_u64(trim(meta.take(index_of(meta, ':') as int))), rest.skip(k as int + 1))
        } else {
            (None, line)
        }
    } else {
        (None, line)
    }
}

/// The events after reading the zsh history lines `ls`.
pub open spec fn zsh_events(evs: Seq<EventView>, ls: Seq<Seq<char>>) -> Seq<EventView>
    decreases ls.len(),
{
    if ls.len() == 0 {
        evs
    } else {
        let (ep, cmd) = zsh_entry(ls[0]);
        zsh_events(push_cd(evs, cmd, ep), ls.drop_first())
    }
}

/// A bash timestamp line, `#<epoch>`, as HISTTIMEFORMAT writes it.
pub open spec fn bash_stamp(line: Seq<char>) -> Option<u64> {
    if starts_with(line, hash_lit()) {
        parse_u64(trim(line.skip(1)))
    } else {
        None
    }
}

/// The events after reading the bash history lines `ls`; a timestamp line
/// applies to the command on the next line.
pub open spec fn bash_events(evs: Seq<EventView>, pending: Option<u64>, ls: Seq<Seq<char>>) -> Seq<
    EventView,
>
    decreases ls.len(),
{
    if ls.len() == 0 {
        evs
    } else {
        match bash_stamp(ls[0]) {
            Some(ep) => bash_events(evs, Some(ep), ls.drop_first()),
            None => bash_events(push_cd(evs, ls[0], pending), None, ls.drop_first()),
        }
    }
}

/// Records the pending fish command, if any.
pub open spec fn flush_cmd(evs: Seq<EventView>, cur: Option<Seq<char>>, epoch: Option<u64>) -> Seq<
    EventView,
> {
    match cur {
        Some(c) => push_cd(evs, c, epoch),
        None => evs,
    }
}

/// The events after reading the fish history lines `ls`: `- cmd: <command>`
/// starts an entry and a later `when: <epoch>` line dates it.
pub open spec fn fish_events(evs: Seq<EventView>, cur: Option<Seq<char>>, ls: Seq<Seq<char>>) -> Seq<
    EventView,
>
    decreases ls.len(),
{
    if ls.len() == 0 {
        flush_cmd(evs, cur, None)
    } else {
        let l = ls[0];
        if starts_with(l, fish_cmd_lit()) {
            fish_events(flush_cmd(evs, cur, None), Some(l.skip(7)), ls.drop_first())
        } else if starts_with(trim_start(l), fish_when_lit()) && cur is Some {
            fish_events(
                flush_cmd(evs, cur, parse_u64(trim(trim_start(l).skip(6)))),
                None,
                ls.drop_first(),
            )
        } else {
            fish_events(evs, cur, ls.drop_first())
        }
    }
}

/// The timestamp and where the command starts in the zsh line `v[a..e]`.
fn zsh_entry_range(v: &[char], a: usize, e: usize) -> (r: (Option<u64>, usize))
    requires
        a <= e <= v@.len(),
    ensures
        a <= r.1 <= e,
        zsh_entry(v@.subrange(a as int, e as int)) == (r.0, v@.subrange(r.1 as int, e as int)),
{
    let ghost line = v@.subrange(a as int, e as int);
    let p: Vec<char> = vec![':', ' '];
    assert(p@ == colon_space_lit());
    if has_prefix(v, a, e, &p) {
        let ghost rest = line.skip(2);
        assert(rest =~= v@.subrange(a + 2, e as int));
        let semi = find_char(v, a + 2, e, ';');
        if semi < e {
            let ghost meta = rest.take(semi - a - 2);
            assert(meta =~= v@.subrange(a + 2, semi as int));
            let colon = find_char(v, a + 2, semi, ':');
            assert(meta.take(colon - a - 2) =~= v@.subrange(a + 2, colon as int));
            let (t1, t2) = trim_range(v, a + 2, colon);
            let ep = parse_u64_range(v, t1, t2);
            assert(rest.skip(semi - a - 2 + 1) =~= v@.subrange(semi + 1, e as int));
            return (ep, semi + 1);
        }
    }
    (None, a)
}

/// Reads zsh history text, recording each `cd` with its timestamp when the
/// line has one.
pub fn parse_zsh_history(raw: &str, out: &mut Vec<CdEvent>)
    ensures
        events_view(final(out)@) == zsh_events(events_view(old(out)@), lines(raw@)),
{
    let v = chars_of(raw);
    let n = v.len();
    let mut pos: usize = 0;
    assert(v@.subrange(0, n as int) =~= v@);
    while pos < n
        invariant
            pos <= n == v@.len(),
            v@ == raw@,
            zsh_events(events_view(out@), lines(v@.subrange(pos as int, n as int))) == zsh_events(
                events_view(old(out)@),
                lines(raw@),
            ),
        decreases n - pos,
    {
        let (end, next) = next_line_bounds(&v, pos, n);
        let ghost rest = lines(v@.subrange(next as int, n as int));
        let ghost ls = seq![v@.subrange(pos as int, end as int)] + rest;
        assert(ls[0] == v@.subrange(pos as int, end as int));
        assert(ls.drop_first() =~= rest);
        let (ep, c) = zsh_entry_range(&v, pos, end);
        push_cd_range(&v, c, end, ep, out);
        pos = next;
    }
    assert(lines(v@.subrange(n as int, n as int)) =~= Seq::<Seq<char>>::empty());
}

/// Reads bash history text; a `#<epoch>` line dates the command after it.
pub fn parse_bash_history(raw: &str, out: &mut Vec<CdEvent>)
    ensures
        events_view(final(out)@) == bash_events(events_view(old(out)@), None, lines(raw@)),
{
    let v = chars_of(raw);
    let n = v.len();
    let mut pos: usize = 0;
    let mut pending: Option<u64> = None;
    let hash: Vec<char> = vec!['#'];
    assert(hash@ == hash_lit());
    assert(v@.subrange(0, n as int) =~= v@);
    while pos < n
        invariant
            pos <= n == v@.len(),
            v@ == raw@,
            hash@ == hash_lit(),
            bash_events(events_view(out@), pending, lines(v@.subrange(pos as int, n as int)))
                == bash_events(events_view(old(out)@), None, lines(raw@)),
        decreases n - pos,
    {
        let (end, next) = next_line_bounds(&v, pos, n);
        let ghost line = v@.subrange(pos as int, end as int);
        let ghost rest = lines(v@.subrange(next as int, n as int));
        let ghost ls = seq![line] + rest;
        assert(ls[0] == line);
        assert(ls.drop_first() =~= rest);
        let mut stamp: Option<u64> = None;
        if has_prefix(&v, pos, end, &hash) {
            assert(line.skip(1) =~= v@.subrange(pos + 1, end as int));
            let (t1, t2) = trim_range(&v, pos + 1, end);
            stamp = parse_u64_range(&v, t1, t2);
        }
        assert(stamp == bash_stamp(line));
        match stamp {
            Some(ep) => {
                pending = Some(ep);
            },
            None => {
                push_cd_range(&v, pos, end, pending, out);
                pending = None;
            },
        }
        pos = next;
    }
    assert(lines(v@.subrange(n as int, n as int)) =~= Seq::<Seq<char>>::empty());
}

/// The pending fish command as text.
spec fn cur_text(v: Seq<char>, cur: Option<(usize, usize)>) -> Option<Seq<char>> {
    match cur {
        Some((a, b)) => Some(v.subrange(a as int, b as int)),
        None => None,
    }
}

/// Reads fish history text (`- cmd: ...` entries with optional `when: ...`).
pub fn parse_fish_history(raw: &str, out: &mut Vec<CdEvent>)
    ensures
        events_view(final(out)@) == fish_events(events_view(old(out)@), None, lines(raw@)),
{
    let v = chars_of(raw);
    let n = v.len();
    let mut pos: usize = 0;
    let mut cur: Option<(usize, usize)> = None;
    let cmd_p: Vec<char> = vec!['-', ' ', 'c', 'm', 'd', ':', ' '];
    let when_p: Vec<char> = vec!['w', 'h', 'e', 'n', ':', ' '];
    assert(cmd_p@ == fish_cmd_lit());
    assert(when_p@ == fish_when_lit());
    assert(v@.subrange(0, n as int) =~= v@);
    while pos < n
        invariant
            pos <= n == v@.len(),
            v@ == raw@,
            cmd_p@ == fish_cmd_lit(),
            when_p@ == fish_when_lit(),
            cur matches Some((a, b)) ==> a <= b <= n,
            fish_events(events_view(out@), cur_text(v@, cur), lines(v@.subrange(pos as int, n as int)))
                == fish_events(events_view(old(out)@), None, lines(raw@)),
        decreases n - pos,
    {
        let (end, next) = next_line_bounds(&v, pos, n);
        let ghost line = v@.subrange(pos as int, end as int);
        let ghost rest = lines(v@.subrange(next as int, n as int));
        let ghost ls = seq![line] + rest;
        assert(ls[0] == line);
        assert(ls.drop_first() =~= rest);
        if has_prefix(&v, pos, end, &cmd_p) {
            if let Some((a, b)) = cur {
                push_cd_range(&v, a, b, None, out);
            }
            assert(line.skip(7) =~= v@.subrange(pos + 7, end as int));
            cur = Some((pos + 7, end));
        } else {
            let t = skip_ws(&v, pos, end);
            assert(trim_start(line) == v@.subrange(t as int, end as int));
            if has_prefix(&v, t, end, &when_p) && cur.is_some() {
                let (a, b) = cur.unwrap();
                assert(trim_start(line).skip(6) =~= v@.subrange(t + 6, end as int));
                let (t1, t2) = trim_range(&v, t + 6, end);
                let ep = parse_u64_range(&v, t1, t2);
                push_cd_range(&v, a, b, ep, out);
                cur = None;
            }
        }
        pos = next;
    }
    assert(lines(v@.subrange(n as int, n as int)) =~= Seq::<Seq<char>>::empty());
    if let Some((a, b)) = cur {
        push_cd_range(&v, a, b, None, out);
    }
}

/// Reading zsh history keeps every event's order equal to its position.
pub proof fn law_zsh_keeps_order(evs: Seq<EventView>, ls: Seq<Seq<char>>)
    requires
        orders_match(evs),
        evs.len() + ls.len() <= usize::MAX,
    ensures
        orders_match(zsh_events(evs, ls)),
    decreases ls.len(),
{
    if ls.len() > 0 {
        let (ep, cmd) = zsh_entry(ls[0]);
        law_push_cd_keeps_order(evs, cmd, ep);
        law_zsh_keeps_order(push_cd(evs, cmd, ep), ls.drop_first());
    }
}

/// Reading bash history keeps every event's order equal to its position.
pub proof fn law_bash_keeps_order(evs: Seq<EventView>, pending: Option<u64>, ls: Seq<Seq<char>>)
    requires
        orders_match(evs),
        evs.len() + ls.len() <= usize::MAX,
    ensures
        orders_match(bash_events(evs, pending, ls)),
    decreases ls.len(),
{
    if ls.len() > 0 {
        match bash_stamp(ls[0]) {
            Some(ep) => law_bash_keeps_order(evs, Some(ep), ls.drop_first()),
            None => {
                law_push_cd_keeps_order(evs, ls[0], pending);
                law_bash_keeps_order(push_cd(evs, ls[0], pending), None, ls.drop_first());
            },
        }
    }
}

/// Reading fish history keeps every event's order equal to its position.
pub proof fn law_fish_keeps_order(evs: Seq<EventView>, cur: Option<Seq<char>>, ls: Seq<Seq<char>>)
    requires
        orders_match(evs),
        evs.len() + ls.len() + 1 <= usize::MAX,
    ensures
        orders_match(fish_events(evs, cur, ls)),
    decreases ls.len(),
{
    if let Some(c) = cur {
        law_push_cd_keeps_order(evs, c, None);
    }
    if ls.len() > 0 {
        let l = ls[0];
        if starts_with(l, fish_cmd_lit()) {
            law_fish_keeps_order(flush_cmd(evs, cur, None), Some(l.skip(7)), ls.drop_first());
        } else if starts_with(trim_start(l), fish_when_lit()) && cur is Some {
            let ep = parse_u64(trim(trim_start(l).skip(6)));
            law_push_cd_keeps_order(evs, cur->0, ep);
            law_fish_keeps_order(flush_cmd(evs, cur, ep), None, ls.drop_first());
        } else {
            law_fish_keeps_order(evs, cur, ls.drop_first());
        }
    }
}

/// A word that needs no quoting: non-empty, with no whitespace, quotes,
/// backslashes or `;`.
pub open spec fn plain_word(w: Seq<char>) -> bool {
    &&& w.len() > 0
    &&& forall|i: int|
        0 <= i < w.len() ==> !is_ws(#[trigger] w[i]) && w[i] != '\'' && w[i] != '"' && w[i] != '\\'
            && w[i] != ';'
}

proof fn lemma_scan_plain(w: Seq<char>, k: int)
    requires
        plain_word(w),
        0 <= k <= w.len(),
    ensures
        word_scan(w.take(k)) == (WordScan { out: w.take(k), quote: None, escaped: false, done: false }),
    decreases k,
{
    if k == 0 {
        assert(w.take(0) =~= Seq::<char>::empty());
    } else {
        lemma_scan_plain(w, k - 1);
        assert(w.take(k).drop_last() =~= w.take(k - 1));
        assert(w.take(k).last() == w[k - 1]);
        assert(w.take(k - 1).push(w[k - 1]) =~= w.take(k));
    }
}

proof fn lemma_trim_plain(w: Seq<char>)
    requires
        plain_word(w),
    ensures
        trim_start(w) == w,
        trim(w) == w,
{
    assert(!is_ws(w[0]));
    assert(crate::text::lead_ws(w) == 0);
    assert(w.skip(0) =~= w);
    assert(!is_ws(w.last()));
    assert(crate::text::trail_ws(w) == 0);
    assert(w.take(w.len() as int) =~= w);
}

/// A plain word is its own first shell word.
pub proof fn law_plain_word(w: Seq<char>)
    requires
        plain_word(w),
    ensures
        shell_word(w) == Some(w),
{
    lemma_scan_plain(w, w.len() as int);
    assert(w.take(w.len() as int) =~= w);
    lemma_trim_plain(w);
}

/// `cd <word>` with a plain word records exactly that word.
pub proof fn law_cd_plain_path(w: Seq<char>)
    requires
        plain_word(w),
    ensures
        cd_arg(seq!['c', 'd', ' '] + w) == Some(w),
{
    let cmd = seq!['c', 'd', ' '] + w;
    assert(!is_ws(cmd[0]));
    assert(crate::text::lead_ws(cmd) == 0);
    assert(trim_start(cmd) =~= cmd);
    assert(!starts_with(cmd, builtin_cd_lit())) by {
        assert(cmd[0] != builtin_cd_lit()[0]);
        if starts_with(cmd, builtin_cd_lit()) {
            assert(cmd.take(10)[0] == cmd[0]);
        }
    }
    assert(!starts_with(cmd, command_cd_lit())) by {
        assert(cmd[1] == 'd');
        if starts_with(cmd, command_cd_lit()) {
            assert(cmd.take(10)[1] == cmd[1]);
        }
    }
    assert(cmd.take(2) =~= cd_lit());
    assert(is_ws(cmd[2]));
    let rest = cmd.skip(2);
    assert(rest[0] == ' ');
    assert(rest.drop_first() =~= w);
    lemma_trim_plain(w);
    assert(crate::text::lead_ws(w) == 0);
    assert(crate::text::lead_ws(rest) == 1);
    assert(trim_start(rest) =~= w);
    assert(!(starts_with(w, dashdash_lit()) && w.len() > 2 && is_ws(w[2])));
    law_plain_word(w);
}

/// `w` with a backslash before every character.
pub open spec fn escape_all(w: Seq<char>) -> Seq<char>
    decreases w.len(),
{
    if w.len() == 0 {
        seq![]
    } else {
        escape_all(w.drop_last()) + seq!['\\', w.last()]
    }
}

proof fn lemma_scan_escaped(w: Seq<char>)
    ensures
        word_scan(escape_all(w)) == (WordScan { out: w, quote: None, escaped: false, done: false }),
    decreases w.len(),
{
    if w.len() == 0 {
        assert(escape_all(w) =~= Seq::<char>::empty());
        assert(w =~= Seq::<char>::empty());
    } else {
        lemma_scan_escaped(w.drop_last());
        let e = escape_all(w.drop_last());
        let s = e + seq!['\\', w.last()];
        assert(s.drop_last() =~= e.push('\\'));
        assert(s.last() == w.last());
        assert(e.push('\\').drop_last() =~= e);
        assert(e.push('\\').last() == '\\');
        assert(word_scan(e.push('\\')) == word_step(word_scan(e), '\\'));
        assert(word_scan(s) == word_step(word_scan(e.push('\\')), w.last()));
        assert(w.drop_last().push(w.last()) =~= w);
    }
}

/// A word with every character escaped by a backslash reads back as the
/// word itself, whatever characters it holds, as long as it has no
/// leading or trailing whitespace.
pub proof fn law_escaped_word(w: Seq<char>)
    requires
        w.len() > 0,
        trim(w) == w,
    ensures
        shell_word(escape_all(w)) == Some(w),
{
    lemma_scan_escaped(w);
}

proof fn lemma_scan_quoted(w: Seq<char>, k: int)
    requires
        0 <= k <= w.len(),
        forall|i: int| 0 <= i < w.len() ==> #[trigger] w[i] != '"' && w[i] != '\\',
    ensures
        word_scan(seq!['"'] + w.take(k)) == (WordScan {
            out: w.take(k),
            quote: Some('"'),
            escaped: false,
            done: false,
        }),
    decreases k,
{
    let s = seq!['"'] + w.take(k);
    if k == 0 {
        assert(s.drop_last() =~= Seq::<char>::empty());
        assert(s.last() == '"');
        assert(word_scan(s) == word_step(word_scan(s.drop_last()), s.last()));
        assert(w.take(0) =~= Seq::<char>::empty());
    } else {
        lemma_scan_quoted(w, k - 1);
        assert(s.drop_last() =~= seq!['"'] + w.take(k - 1));
        assert(s.last() == w[k - 1]);
        assert(word_scan(s) == word_step(word_scan(s.drop_last()), s.last()));
        assert(w.take(k - 1).push(w[k - 1]) =~= w.take(k));
    }
}

/// A word in double quotes with no `"` or backslash inside reads back as
/// the word itself, spaces and `;` included, as long as it has no leading
/// or trailing whitespace.
pub proof fn law_quoted_word(w: Seq<char>)
    requires
        w.len() > 0,
        trim(w) == w,
        forall|i: int| 0 <= i < w.len() ==> #[trigger] w[i] != '"' && w[i] != '\\',
    ensures
        shell_word(seq!['"'] + w + seq!['"']) == Some(w),
{
    let s = seq!['"'] + w + seq!['"'];
    lemma_scan_quoted(w, w.len() as int);
    assert(w.take(w.len() as int) =~= w);
    assert(s.drop_last() =~= seq!['"'] + w.take(w.len() as int));
    assert(s.last() == '"');
}

/// The first `c` in `s` is at `n`.
proof fn lemma_first_at(s: Seq<char>, c: char, n: int)
    requires
        0 <= n < s.len(),
        s[n] == c,
        forall|k: int| 0 <= k < n ==> #[trigger] s[k] != c,
    ensures
        index_of(s, c) == n,
{
    crate::text::lemma_index_of(s, c);
    if index_of(s, c) > n {
        assert(s[n] != c);
    }
}

/// In a zsh line `: <meta>;<command>` whose metadata holds no `;`, the
/// command is everything after that first `;`, later `;`s included.
pub proof fn law_zsh_command_after_first_semicolon(meta: Seq<char>, cmd: Seq<char>)
    requires
        forall|k: int| 0 <= k < meta.len() ==> #[trigger] meta[k] != ';',
    ensures
        zsh_entry(seq![':', ' '] + meta + seq![';'] + cmd).1 == cmd,
{
    let line = seq![':', ' '] + meta + seq![';'] + cmd;
    assert(line.take(2) =~= colon_space_lit());
    let rest = line.skip(2);
    assert(rest =~= meta + seq![';'] + cmd);
    assert forall|k: int| 0 <= k < meta.len() implies #[trigger] rest[k] != ';' by {
        assert(rest[k] == meta[k]);
    }
    lemma_first_at(rest, ';', meta.len() as int);
    assert(rest.skip(meta.len() as int + 1) =~= cmd);
}

/// A zsh extended-history line `: <epoch>:<duration>;<command>` gives the
/// epoch as its timestamp and the rest after the first `;` as its command.
pub proof fn law_zsh_extended_line(t: u64, dur: Seq<char>, cmd: Seq<char>)
    requires
        forall|k: int| 0 <= k < dur.len() ==> #[trigger] dur[k] != ';',
    ensures
        zsh_entry(seq![':', ' '] + crate::text::decimal(t as nat) + seq![':'] + dur + seq![';'] + cmd)
            == (Some(t), cmd),
{
    let d = crate::text::decimal(t as nat);
    crate::text::lemma_decimal(t as nat);
    crate::text::law_parse_decimal(t);
    let meta = d + seq![':'] + dur;
    assert forall|k: int| 0 <= k < meta.len() implies #[trigger] meta[k] != ';' by {
        if k < d.len() {
            assert(crate::text::is_digit(d[k]));
        } else if k > d.len() {
            assert(meta[k] == dur[k - d.len() - 1]);
        }
    }
    law_zsh_command_after_first_semicolon(meta, cmd);
    let line = seq![':', ' '] + meta + seq![';'] + cmd;
    assert(line =~= seq![':', ' '] + d + seq![':'] + dur + seq![';'] + cmd);
    let rest = line.skip(2);
    assert(rest =~= meta + seq![';'] + cmd);
    assert forall|k: int| 0 <= k < meta.len() implies #[trigger] rest[k] != ';' by {
        assert(rest[k] == meta[k]);
    }
    lemma_first_at(rest, ';', meta.len() as int);
    assert(rest.take(meta.len() as int) =~= meta);
    assert forall|k: int| 0 <= k < d.len() implies #[trigger] meta[k] != ':' by {
        assert(meta[k] == d[k]);
        assert(crate::text::is_digit(d[k]));
    }
    lemma_first_at(meta, ':', d.len() as int);
    assert(meta.take(d.len() as int) =~= d);
    assert(plain_word(d)) by {
        assert forall|i: int| 0 <= i < d.len() implies !is_ws(#[trigger] d[i]) && d[i] != '\''
            && d[i] != '"' && d[i] != '\\' && d[i] != ';' by {
            assert(crate::text::is_digit(d[i]));
        }
    }
    lemma_trim_plain(d);
}

} // verus!
