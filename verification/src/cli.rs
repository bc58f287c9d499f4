//! Command-line handling: which subcommand runs, and splitting positional
//! arguments from `--flag[=value]` / `--flag value` options.

use vstd::prelude::*;

use crate::text::{chars_equal, chars_of, find_char, index_of, starts_with, string_of, strs_view};

verus! {

/// The subcommands of `ccd`.
#[derive(PartialEq, Eq, Structural, Debug, Clone, Copy)]
pub enum Command {
    Add,
    Query,
    Seed,
    Init,
    Forget,
    Prune,
    Stats,
    Doctor,
    Help,
    Unknown,
}

/// The subcommand that the word `name` selects; `-h`, `--help`, `help` and
/// the empty word ask for help.
pub open spec fn command_spec(name: Seq<char>) -> Command {
    if name == seq!['a', 'd', 'd'] {
        Command::Add
    } else if name == seq!['q', 'u', 'e', 'r', 'y'] {
        Command::Query
    } else if name == seq!['s', 'e', 'e', 'd'] {
        Command::Seed
    } else if name == seq!['i', 'n', 'i', 't'] {
        Command::Init
    } else if name == seq!['f', 'o', 'r', 'g', 'e', 't'] {
        Command::Forget
    } else if name == seq!['p', 'r', 'u', 'n', 'e'] {
        Command::Prune
    } else if name == seq!['s', 't', 'a', 't', 's'] {
        Command::Stats
    } else if name == seq!['d', 'o', 'c', 't', 'o', 'r'] {
        Command::Doctor
    } else if name == seq!['-', 'h'] || name == seq!['-', '-', 'h', 'e', 'l', 'p'] || name == seq![
        'h',
        'e',
        'l',
        'p',
    ] || name.len() == 0 {
        Command::Help
    } else {
        Command::Unknown
    }
}

/// The subcommand named by `name`.
pub fn command_of(name: &str) -> (c: Command)
    ensures
        c == command_spec(name@),
{
    let v = chars_of(name);
    let add: Vec<char> = vec!['a', 'd', 'd'];
    let query: Vec<char> = vec!['q', 'u', 'e', 'r', 'y'];
    let seed: Vec<char> = vec!['s', 'e', 'e', 'd'];
    let init: Vec<char> = vec!['i', 'n', 'i', 't'];
    let forget: Vec<char> = vec!['f', 'o', 'r', 'g', 'e', 't'];
    let prune: Vec<char> = vec!['p', 'r', 'u', 'n', 'e'];
    let stats: Vec<char> = vec!['s', 't', 'a', 't', 's'];
    let doctor: Vec<char> = vec!['d', 'o', 'c', 't', 'o', 'r'];
    let h1: Vec<char> = vec!['-', 'h'];
    let h2: Vec<char> = vec!['-', '-', 'h', 'e', 'l', 'p'];
    let h3: Vec<char> = vec!['h', 'e', 'l', 'p'];
    if chars_equal(&v, &add) {
        Command::Add
    } else if chars_equal(&v, &query) {
        Command::Query
    } else if chars_equal(&v, &seed) {
        Command::Seed
    } else if chars_equal(&v, &init) {
        Command::Init
    } else if chars_equal(&v, &forget) {
        Command::Forget
    } else if chars_equal(&v, &prune) {
        Command::Prune
    } else if chars_equal(&v, &stats) {
        Command::Stats
    } else if chars_equal(&v, &doctor) {
        Command::Doctor
    } else if chars_equal(&v, &h1) || chars_equal(&v, &h2) || chars_equal(&v, &h3) || v.len() == 0 {
        Command::Help
    } else {
        Command::Unknown
    }
}

pub open spec fn args_view(v: Seq<String>) -> Seq<Seq<char>> {
    v.map_values(|s: String| s@)
}

pub open spec fn flags_view(v: Seq<(String, String)>) -> Seq<(Seq<char>, Seq<char>)> {
    v.map_values(|p: (String, String)| (p.0@, p.1@))
}

/// Positional arguments and `(name, value)` flags of `args[i..]`:
/// `--name=value`; `--name value` when `name` takes a value and one follows;
/// otherwise `--name` with an empty value. Anything else is positional.
pub open spec fn split_args(args: Seq<Seq<char>>, valued: Seq<Seq<char>>, i: int) -> (
    Seq<Seq<char>>,
    Seq<(Seq<char>, Seq<char>)>,
)
    decreases args.len() - i,
{
    if i < 0 || i >= args.len() {
        (seq![], seq![])
    } else {
        let a = args[i];
        if starts_with(a, seq!['-', '-']) {
            let f = a.skip(2);
            let k = index_of(f, '=');
            if k < f.len() {
                let r = split_args(args, valued, i + 1);
                (r.0, seq![(f.take(k as int), f.skip(k as int + 1))] + r.1)
            } else if valued.contains(f) && i + 1 < args.len() {
                let r = split_args(args, valued, i + 2);
                (r.0, seq![(f, args[i + 1])] + r.1)
            } else {
                let r = split_args(args, valued, i + 1);
                (r.0, seq![(f, seq![])] + r.1)
            }
        } else {
            let r = split_args(args, valued, i + 1);
            (seq![a] + r.0, r.1)
        }
    }
}

fn contains_name(valued: &[&str], f: &[char], from: usize, to: usize) -> (b: bool)
    requires
        from <= to <= f@.len(),
    ensures
        b == strs_view(valued@).contains(f@.subrange(from as int, to as int)),
{
    let name = string_of(f, from, to);
    let nv = chars_of(name.as_str());
    let mut k: usize = 0;
    while k < valued.len()
        invariant
            k <= valued@.len(),
            nv@ == f@.subrange(from as int, to as int),
            forall|j: int| 0 <= j < k ==> strs_view(valued@)[j] != nv@,
        decreases valued@.len() - k,
    {
        let w = chars_of(valued[k]);
        if chars_equal(&w, &nv) {
            assert(strs_view(valued@)[k as int] == nv@);
            return true;
        }
        k += 1;
    }
    assert(!strs_view(valued@).contains(nv@)) by {
        if strs_view(valued@).contains(nv@) {
            let j = choose|j: int| 0 <= j < valued@.len() && strs_view(valued@)[j] == nv@;
            assert(strs_view(valued@)[j] != nv@);
        }
    }
    false
}

/// Splits positional arguments from `--flag[=value]` / `--flag value`
/// options; `valued` names the flags that take the following argument.
pub fn parse_flags<'a>(args: &'a [String], valued: &[&str]) -> (r: (Vec<&'a str>, Vec<(String, String)>))
    ensures
        (strs_view(r.0@), flags_view(r.1@)) == split_args(args_view(args@), strs_view(valued@), 0),
{
    let ghost av = args_view(args@);
    let ghost vv = strs_view(valued@);
    let mut pos: Vec<&'a str> = Vec::new();
    let mut flags: Vec<(String, String)> = Vec::new();
    let mut i: usize = 0;
    while i < args.len()
        invariant
            i <= args@.len(),
            av == args_view(args@),
            vv == strs_view(valued@),
            (strs_view(pos@) + split_args(av, vv, i as int).0, flags_view(flags@) + split_args(
                av,
                vv,
                i as int,
            ).1) == split_args(av, vv, 0),
        decreases args@.len() - i,
    {
        let a = args[i].as_str();
        let v = chars_of(a);
        assert(av[i as int] == v@);
        let ghost ps0 = strs_view(pos@);
        let ghost fs0 = flags_view(flags@);
        let dd: Vec<char> = vec!['-', '-'];
        assert(dd@ == seq!['-', '-']);
        assert(v@.subrange(0, v@.len() as int) =~= v@);
        if crate::text::has_prefix(&v, 0, v.len(), &dd) {
            let n = v.len();
            let ghost f = v@.skip(2);
            assert(f =~= v@.subrange(2, n as int));
            let eq = find_char(&v, 2, n, '=');
            if eq < n {
                let key = string_of(&v, 2, eq);
                let val = string_of(&v, eq + 1, n);
                assert(f.take(eq - 2) =~= v@.subrange(2, eq as int));
                assert(f.skip(eq - 2 + 1) =~= v@.subrange(eq + 1, n as int));
                let ghost item = (key@, val@);
                flags.push((key, val));
                assert(flags_view(flags@) =~= fs0.push(item));
                assert(fs0.push(item) + split_args(av, vv, i + 1).1 =~= fs0 + (seq![item]
                    + split_args(av, vv, i + 1).1));
                i += 1;
            } else if i + 1 < args.len() && contains_name(valued, &v, 2, n) {
                let key = string_of(&v, 2, n);
                let val = args[i + 1].clone();
                assert(av[i + 1] == val@);
                let ghost item = (key@, val@);
                flags.push((key, val));
                assert(flags_view(flags@) =~= fs0.push(item));
                assert(fs0.push(item) + split_args(av, vv, i + 2).1 =~= fs0 + (seq![item]
                    + split_args(av, vv, i + 2).1));
                i += 2;
            } else {
                let key = string_of(&v, 2, n);
                let ghost item = (key@, Seq::<char>::empty());
                flags.push((key, String::new()));
                assert(flags_view(flags@) =~= fs0.push(item));
                assert(fs0.push(item) + split_args(av, vv, i + 1).1 =~= fs0 + (seq![item]
                    + split_args(av, vv, i + 1).1));
                i += 1;
            }
        } else {
            pos.push(a);
            assert(strs_view(pos@) =~= ps0.push(a@));
            assert(ps0.push(a@) + split_args(av, vv, i + 1).0 =~= ps0 + (seq![a@] + split_args(
                av,
                vv,
                i + 1,
            ).0));
            i += 1;
        }
    }
    assert(strs_view(pos@) + Seq::<Seq<char>>::empty() =~= strs_view(pos@));
    assert(flags_view(flags@) + Seq::<(Seq<char>, Seq<char>)>::empty() =~= flags_view(flags@));
    (pos, flags)
}

/// Index of the first flag called `name`, or the number of flags when there
/// is none.
pub open spec fn flag_index(flags: Seq<(Seq<char>, Seq<char>)>, name: Seq<char>) -> int
    decreases flags.len(),
{
    if flags.len() == 0 {
        0
    } else if flags[0].0 == name {
        0
    } else {
        1 + flag_index(flags.drop_first(), name)
    }
}

proof fn lemma_flag_index(flags: Seq<(Seq<char>, Seq<char>)>, name: Seq<char>)
    ensures
        0 <= flag_index(flags, name) <= flags.len(),
        flag_index(flags, name) < flags.len() ==> flags[flag_index(flags, name)].0 == name,
        forall|k: int| 0 <= k < flag_index(flags, name) ==> (#[trigger] flags[k]).0 != name,
    decreases flags.len(),
{
    if flags.len() > 0 && flags[0].0 != name {
        lemma_flag_index(flags.drop_first(), name);
        assert forall|k: int| 0 <= k < flag_index(flags, name) implies (#[trigger] flags[k]).0
            != name by {
            if k > 0 {
                assert(flags[k] == flags.drop_first()[k - 1]);
            }
        }
    }
}

fn find_flag(flags: &Vec<(String, String)>, name: &str) -> (i: usize)
    ensures
        i == flag_index(flags_view(flags@), name@),
{
    let ghost fv = flags_view(flags@);
    let nv = chars_of(name);
    let mut i: usize = 0;
    proof {
        lemma_flag_index(fv, name@);
    }
    while i < flags.len()
        invariant
            i <= flags@.len(),
            fv == flags_view(flags@),
            nv@ == name@,
            0 <= flag_index(fv, name@) <= fv.len(),
            flag_index(fv, name@) < fv.len() ==> fv[flag_index(fv, name@)].0 == name@,
            forall|k: int| 0 <= k < flag_index(fv, name@) ==> (#[trigger] fv[k]).0 != name@,
            i <= flag_index(fv, name@),
        decreases flags@.len() - i,
    {
        let k = chars_of(flags[i].0.as_str());
        assert(fv[i as int].0 == k@);
        if chars_equal(&k, &nv) {
            return i;
        }
        i += 1;
    }
    i
}

/// Whether a flag called `name` was given.
pub fn has_flag(flags: &Vec<(String, String)>, name: &str) -> (b: bool)
    ensures
        b == exists|k: int| 0 <= k < flags@.len() && (#[trigger] flags@[k]).0@ == name@,
{
    let i = find_flag(flags, name);
    proof {
        lemma_flag_index(flags_view(flags@), name@);
        if i < flags@.len() {
            assert(flags_view(flags@)[i as int].0 == flags@[i as int].0@);
        } else {
            assert forall|k: int| 0 <= k < flags@.len() implies (#[trigger] flags@[k]).0@ != name@ by {
                assert(flags_view(flags@)[k].0 == flags@[k].0@);
            }
        }
    }
    i < flags.len()
}

/// The value of the first flag called `name`, if one was given.
pub fn flag_value<'a>(flags: &'a Vec<(String, String)>, name: &str) -> (v: Option<&'a String>)
    ensures
        match v {
            Some(s) => flag_index(flags_view(flags@), name@) < flags@.len() && s@
                == flags_view(flags@)[flag_index(flags_view(flags@), name@)].1,
            None => flag_index(flags_view(flags@), name@) == flags@.len(),
        },
{
    let i = find_flag(flags, name);
    proof {
        lemma_flag_index(flags_view(flags@), name@);
    }
    if i < flags.len() {
        assert(flags_view(flags@)[i as int].1 == flags@[i as int].1@);
        Some(&flags[i].1)
    } else {
        None
    }
}

} // verus!
