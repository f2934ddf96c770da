//! Start-up settings: the `constants.ini` format, where the config file
//! is looked for, and the warnings for settings that have no effect.
use vstd::prelude::*;
use crate::text::{chars_of, string_of, slice_vec, trim, trimmed, find_char, first_char, starts_with, is_prefix, chars_eq, string_views};
use crate::sources::{split_all, split_on};
use crate::ws::{unique_keys, tag_get, tag_set};
use crate::config::AppConfig;

verus! {

/// What one line of `constants.ini` defines: nothing for blank lines,
/// `#` comments and `[section]` headers (sections do not scope keys);
/// for `key = value` the trimmed text around the first `=`.
pub open spec fn constant_line(line: Seq<char>) -> Option<(Seq<char>, Seq<char>)> {
    let t = trimmed(line);
    if t.len() == 0 || t[0] == '#' {
        None
    } else if t[0] == '[' && t[t.len() - 1] == ']' {
        None
    } else {
        match first_char(t, '=') {
            Some(p) => Some((trimmed(t.subrange(0, p)), trimmed(t.skip(p + 1)))),
            None => None,
        }
    }
}

/// The value of `k` after the lines: the last line that defines it wins.
pub open spec fn constant_after(lines: Seq<Seq<char>>, k: Seq<char>) -> Option<Seq<char>>
    decreases lines.len(),
{
    if lines.len() == 0 {
        None
    } else {
        match constant_line(lines.last()) {
            Some((key, v)) => if key == k { Some(v) } else { constant_after(lines.drop_last(), k) },
            None => constant_after(lines.drop_last(), k),
        }
    }
}

fn parse_constant_line(line: &[char]) -> (r: Option<(String, String)>)
    ensures
        match r {
            Some((k, v)) => constant_line(line@) == Some((k@, v@)),
            None => constant_line(line@) is None,
        },
{
    let t = trim(line);
    let n = t.len();
    if n == 0 || t[0] == '#' {
        return None;
    }
    if t[0] == '[' && t[n - 1] == ']' {
        return None;
    }
    match find_char(t.as_slice(), '=') {
        Some(p) => {
            let kpart = slice_vec(t.as_slice(), 0, p);
            let vpart = slice_vec(t.as_slice(), p + 1, n);
            let k = trim(kpart.as_slice());
            let v = trim(vpart.as_slice());
            proof {
                assert(kpart@ =~= t@.subrange(0, p as int));
                assert(vpart@ =~= t@.skip(p + 1));
            }
            Some((string_of(k.as_slice()), string_of(v.as_slice())))
        },
        None => None,
    }
}

/// Parse `constants.ini`: `key = value` lines, later definitions
/// overriding earlier ones.
pub fn parse_constants(text: &str) -> (r: Vec<(String, String)>)
    ensures
        unique_keys(r@),
        forall|k: Seq<char>| tag_get(r@, k) == constant_after(split_all(text@, '\n'), k),
{
    let c = chars_of(text);
    let lines = split_on(c.as_slice(), '\n');
    let ghost ls = lines@.map_values(|v: Vec<char>| v@);
    let mut out: Vec<(String, String)> = Vec::new();
    let mut i: usize = 0;
    while i < lines.len()
        invariant
            i <= lines@.len(),
            ls == lines@.map_values(|v: Vec<char>| v@),
            ls == split_all(text@, '\n'),
            unique_keys(out@),
            forall|k: Seq<char>| tag_get(out@, k) == constant_after(ls.take(i as int), k),
        decreases lines@.len() - i,
    {
        let ghost t1 = ls.take(i + 1);
        proof { assert(t1.drop_last() =~= ls.take(i as int)); assert(t1.last() == lines@[i as int]@); }
        match parse_constant_line(lines[i].as_slice()) {
            Some((k, v)) => {
                tag_set(&mut out, k, v);
            },
            None => {},
        }
        i = i + 1;
    }
    proof { assert(ls.take(i as int) =~= ls); }
    out
}

/// Where the config file is looked for, in order: the `--config`
/// argument (`--config <path>` or `--config=<path>`, the first one),
/// the `RUUTER_CONFIG` variable when not empty, then `./ruuter.yaml`
/// and `./ruuter.yml`. `args` holds the arguments after the program
/// name.
pub open spec fn config_flag(args: Seq<String>) -> Option<Seq<char>>
    decreases args.len(),
{
    if args.len() == 0 {
        None
    } else if args[0]@ == "--config"@ && args.len() >= 2 {
        Some(args[1]@)
    } else if is_prefix("--config="@, args[0]@) {
        Some(args[0]@.skip("--config="@.len() as int))
    } else {
        config_flag(args.skip(1))
    }
}

pub open spec fn spec_search_paths(args: Seq<String>, env: Option<Seq<char>>) -> Seq<Seq<char>> {
    (match config_flag(args) { Some(p) => seq![p], None => Seq::empty() })
        + (match env { Some(e) => if e.len() > 0 { seq![e] } else { Seq::empty() }, None => Seq::empty() })
        + seq!["./ruuter.yaml"@, "./ruuter.yml"@]
}

fn find_config_flag(args: &Vec<String>) -> (r: Option<String>)
    ensures
        match r {
            Some(p) => config_flag(args@) == Some(p@),
            None => config_flag(args@) is None,
        },
{
    let mut i: usize = 0;
    let prefix = chars_of("--config=");
    proof { assert(args@.skip(0) =~= args@); }
    while i < args.len()
        invariant
            i <= args@.len(),
            prefix@ == "--config="@,
            config_flag(args@.skip(i as int)) == config_flag(args@),
        decreases args@.len() - i,
    {
        let a = chars_of(args[i].as_str());
        proof { assert(args@.skip(i as int)[0] == args@[i as int]); }
        if chars_eq(a.as_slice(), chars_of("--config").as_slice()) && i + 1 < args.len() {
            proof { assert(args@.skip(i as int)[1] == args@[i + 1]); }
            return Some(args[i + 1].clone());
        }
        if starts_with(a.as_slice(), prefix.as_slice()) {
            let rest = slice_vec(a.as_slice(), prefix.len(), a.len());
            proof { assert(rest@ =~= args@[i as int]@.skip("--config="@.len() as int)); }
            return Some(string_of(rest.as_slice()));
        }
        proof { assert(args@.skip(i as int).skip(1) =~= args@.skip(i + 1)); }
        i = i + 1;
    }
    proof { assert(args@.skip(i as int) =~= Seq::<String>::empty()); }
    None
}

pub fn config_search_paths(args: &Vec<String>, env: Option<String>) -> (r: Vec<String>)
    ensures
        string_views(r@) == spec_search_paths(args@, match env { Some(e) => Some(e@), None => None }),
{
    let mut out: Vec<String> = Vec::new();
    match find_config_flag(args) {
        Some(p) => out.push(p),
        None => {},
    }
    match env {
        Some(e) => {
            if e.as_str().unicode_len() > 0 {
                out.push(e);
            }
        },
        None => {},
    }
    out.push("./ruuter.yaml".to_string());
    out.push("./ruuter.yml".to_string());
    proof { assert(string_views(out@) =~= spec_search_paths(args@, match env { Some(e) => Some(e@), None => None })); }
    out
}

/// The two lists hold the same strings (as sets).
pub open spec fn same_string_set(a: Seq<String>, b: Seq<String>) -> bool {
    string_views(a).to_set() == string_views(b).to_set()
}

fn listed_in(list: &Vec<String>, s: &String) -> (r: bool)
    ensures
        r == string_views(list@).contains(s@),
{
    crate::lint::name_listed(list, chars_of(s.as_str()).as_slice())
}

fn all_listed(a: &Vec<String>, b: &Vec<String>) -> (r: bool)
    ensures
        r == (forall|i: int| 0 <= i < a@.len() ==> string_views(b@).contains(#[trigger] a@[i]@)),
{
    let mut i: usize = 0;
    while i < a.len()
        invariant
            i <= a@.len(),
            forall|j: int| 0 <= j < i ==> string_views(b@).contains(#[trigger] a@[j]@),
        decreases a@.len() - i,
    {
        if !listed_in(b, &a[i]) {
            return false;
        }
        i = i + 1;
    }
    true
}

/// Settings accepted for compatibility that have no effect, flagged at
/// start-up: `(stop_in_case_of_exception is off,
/// allowed_filetypes differs from processed_filetypes)`.
pub fn stale_config_warnings(config: &AppConfig) -> (r: (bool, bool))
    ensures
        r.0 == !config.stop_in_case_of_exception,
        r.1 == !same_string_set(config.dsl.allowed_filetypes@, config.dsl.processed_filetypes@),
{
    let a = &config.dsl.allowed_filetypes;
    let p = &config.dsl.processed_filetypes;
    let same = all_listed(a, p) && all_listed(p, a);
    proof {
        let sa = string_views(a@);
        let sp = string_views(p@);
        if same {
            assert forall|x: Seq<char>| sa.to_set().contains(x) <==> sp.to_set().contains(x) by {
                if sa.contains(x) { let j = choose|j: int| 0 <= j < sa.len() && sa[j] == x; assert(sp.contains(a@[j]@)); }
                if sp.contains(x) { let j = choose|j: int| 0 <= j < sp.len() && sp[j] == x; assert(sa.contains(p@[j]@)); }
            }
            assert(sa.to_set() =~= sp.to_set());
        } else {
            if !(forall|i: int| 0 <= i < a@.len() ==> sp.contains(#[trigger] a@[i]@)) {
                let i = choose|i: int| 0 <= i < a@.len() && !sp.contains(#[trigger] a@[i]@);
                assert(sa[i] == a@[i]@);
                assert(sa.to_set().contains(a@[i]@));
                assert(!sp.to_set().contains(a@[i]@));
            } else {
                let i = choose|i: int| 0 <= i < p@.len() && !sa.contains(#[trigger] p@[i]@);
                assert(sp[i] == p@[i]@);
                assert(sp.to_set().contains(p@[i]@));
                assert(!sa.to_set().contains(p@[i]@));
            }
        }
    }
    (!config.stop_in_case_of_exception, !same)
}

} // verus!
