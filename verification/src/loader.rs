//! How the DSL tree on disk maps to keys: which files are loaded, which
//! are guards, and the DSL and guard keys they are stored under.
//!
//! A path is given relative to its method directory, as its components
//! (the file name last).
use vstd::prelude::*;
use crate::text::{chars_of, string_of, chars_eq, extend_chars, slice_vec, contains, contains_seq};
use crate::outbound::{last_char, rfind_char};
use crate::lint::views;
use crate::lint_files::{file_extension, extension_of, is_guard_name, guard_name};

verus! {

/// A file the loader parses: an in-folder guard file, or a file whose
/// extension is listed (with or without its leading dot).
pub open spec fn spec_is_processable(name: Seq<char>, filetypes: Seq<String>) -> bool {
    is_guard_name(name) || match file_extension(name) {
        Some(e) => exists|i: int| 0 <= i < filetypes.len()
            && ((#[trigger] filetypes[i])@ == e || filetypes[i]@ == seq!['.'] + e),
        None => false,
    }
}

pub fn is_processable_file(name: &str, filetypes: &Vec<String>) -> (r: bool)
    ensures
        r == spec_is_processable(name@, filetypes@),
{
    if guard_name(name) {
        return true;
    }
    match extension_of(name) {
        Some(e) => {
            let ec = chars_of(e.as_str());
            let mut dotted: Vec<char> = Vec::new();
            dotted.push('.');
            extend_chars(&mut dotted, ec.as_slice());
            let mut i: usize = 0;
            while i < filetypes.len()
                invariant
                    i <= filetypes@.len(),
                    ec@ == e@,
                    dotted@ == seq!['.'] + e@,
                    file_extension(name@) == Some(e@),
                    forall|j: int| 0 <= j < i ==> !((#[trigger] filetypes@[j])@ == e@ || filetypes@[j]@ == seq!['.'] + e@),
                decreases filetypes@.len() - i,
            {
                let fc = chars_of(filetypes[i].as_str());
                if chars_eq(fc.as_slice(), ec.as_slice()) || chars_eq(fc.as_slice(), dotted.as_slice()) {
                    proof { assert((filetypes@[i as int])@ == e@ || filetypes@[i as int]@ == seq!['.'] + e@); }
                    return true;
                }
                i = i + 1;
            }
            false
        },
        None => false,
    }
}

/// A guard file: an in-folder guard (`.guard`, `.guard.yml`,
/// `.guard.yaml`) or a sibling guard (`<stem>.guard.<ext>`).
pub open spec fn spec_is_guard_file(name: Seq<char>) -> bool {
    is_guard_name(name) || contains_seq(name, ".guard."@)
}

pub fn is_guard_file(name: &str) -> (r: bool)
    ensures
        r == spec_is_guard_file(name@),
{
    guard_name(name) || contains(chars_of(name).as_slice(), chars_of(".guard.").as_slice())
}

/// `Path::with_extension("")` on a file name: the name without its
/// extension and the dot before it.
pub open spec fn without_extension(name: Seq<char>) -> Seq<char> {
    match last_char(name, '.') {
        Some(k) => if k > 0 { name.subrange(0, k) } else { name },
        None => name,
    }
}

/// Components joined by `/`.
pub open spec fn join_slash(cs: Seq<Seq<char>>) -> Seq<char>
    decreases cs.len(),
{
    if cs.len() == 0 {
        Seq::empty()
    } else if cs.len() == 1 {
        cs[0]
    } else {
        join_slash(cs.drop_last()) + seq!['/'] + cs.last()
    }
}

fn join_components(cs: &Vec<String>, n: usize) -> (r: Vec<char>)
    requires
        n <= cs@.len(),
    ensures
        r@ == join_slash(views(cs@).take(n as int)),
{
    let mut out: Vec<char> = Vec::new();
    let mut i: usize = 0;
    while i < n
        invariant
            i <= n <= cs@.len(),
            out@ == join_slash(views(cs@).take(i as int)),
        decreases n - i,
    {
        let ghost t1 = views(cs@).take(i + 1);
        proof { assert(t1.drop_last() =~= views(cs@).take(i as int)); assert(t1.last() == cs@[i as int]@); }
        if i > 0 {
            out.push('/');
        }
        extend_chars(&mut out, chars_of(cs[i].as_str()).as_slice());
        proof {
            if i == 0 { assert(out@ =~= t1[0]); } else { assert(out@ =~= join_slash(t1)); }
        }
        i = i + 1;
    }
    out
}

/// The DSL key of a file: `<method>/<relative path without extension>`.
pub open spec fn spec_dsl_key(rel: Seq<Seq<char>>, method: Seq<char>) -> Seq<char> {
    method + seq!['/'] + join_slash(rel.drop_last().push(without_extension(rel.last())))
}

pub fn build_dsl_key(rel: &Vec<String>, method: &str) -> (r: String)
    requires
        rel@.len() >= 1,
    ensures
        r@ == spec_dsl_key(views(rel@), method@),
{
    let n = rel.len();
    let name = chars_of(rel[n - 1].as_str());
    proof { assert(views(rel@).last() == rel@[n - 1]@); }
    let stem = match rfind_char(name.as_slice(), '.') {
        Some(k) => if k > 0 { slice_vec(name.as_slice(), 0, k) } else { name },
        None => name,
    };
    let parent = join_components(rel, n - 1);
    let mut out = chars_of(method);
    out.push('/');
    extend_chars(&mut out, parent.as_slice());
    if n > 1 {
        out.push('/');
    }
    extend_chars(&mut out, stem.as_slice());
    proof {
        let vs = views(rel@);
        let full = vs.drop_last().push(without_extension(vs.last()));
        assert(vs.take(n - 1) =~= full.drop_last());
        assert(full.last() == stem@);
        if n == 1 { assert(full.len() == 1); assert(out@ =~= method@ + seq!['/'] + full[0]); }
        else { assert(out@ =~= method@ + seq!['/'] + join_slash(full)); }
    }
    string_of(out.as_slice())
}

/// The text before the second-to-last `.` of a guard file name
/// (`users` for `users.guard.yml`).
pub open spec fn guard_stem(name: Seq<char>) -> Option<Seq<char>> {
    match last_char(name, '.') {
        Some(k1) => match last_char(name.subrange(0, k1), '.') {
            Some(k2) => Some(name.subrange(0, k2)),
            None => None,
        },
        None => None,
    }
}

/// The key a guard file protects: its directory for an in-folder guard
/// (the method alone at the method root), else the sibling stem under
/// its directory, both under `<method>/`. A sibling guard name with
/// fewer than two dots is malformed.
pub open spec fn spec_guard_key(rel: Seq<Seq<char>>, method: Seq<char>) -> Result<Seq<char>, Seq<char>> {
    let name = rel.last();
    let dir = join_slash(rel.drop_last());
    if is_guard_name(name) {
        Ok(if dir.len() == 0 { method } else { method + seq!['/'] + dir })
    } else {
        match guard_stem(name) {
            Some(stem) => Ok(method + seq!['/'] + (if dir.len() == 0 { stem } else { dir + seq!['/'] + stem })),
            None => Err("Malformed guard filename"@),
        }
    }
}

pub fn build_guard_key(rel: &Vec<String>, method: &str) -> (r: Result<String, String>)
    requires
        rel@.len() >= 1,
    ensures
        match r {
            Ok(k) => spec_guard_key(views(rel@), method@) == Ok::<Seq<char>, Seq<char>>(k@),
            Err(e) => spec_guard_key(views(rel@), method@) == Err::<Seq<char>, Seq<char>>(e@),
        },
{
    let n = rel.len();
    let name_s = rel[n - 1].as_str();
    let name = chars_of(name_s);
    let dir = join_components(rel, n - 1);
    proof {
        assert(views(rel@).take(n - 1) =~= views(rel@).drop_last());
        assert(views(rel@).last() == rel@[n - 1]@);
    }
    let mut out = chars_of(method);
    if guard_name(name_s) {
        if dir.len() > 0 {
            out.push('/');
            extend_chars(&mut out, dir.as_slice());
            proof { assert(out@ =~= method@ + seq!['/'] + dir@); }
        }
        return Ok(string_of(out.as_slice()));
    }
    let k1 = match rfind_char(name.as_slice(), '.') {
        Some(k) => k,
        None => return Err("Malformed guard filename".to_string()),
    };
    let head = slice_vec(name.as_slice(), 0, k1);
    let k2 = match rfind_char(head.as_slice(), '.') {
        Some(k) => k,
        None => {
            proof { assert(head@ =~= name@.subrange(0, k1 as int)); }
            return Err("Malformed guard filename".to_string());
        },
    };
    proof { assert(head@ =~= name@.subrange(0, k1 as int)); }
    let stem = slice_vec(name.as_slice(), 0, k2);
    out.push('/');
    if dir.len() > 0 {
        extend_chars(&mut out, dir.as_slice());
        out.push('/');
    }
    extend_chars(&mut out, stem.as_slice());
    proof {
        assert(stem@ =~= name@.subrange(0, k2 as int));
        if dir@.len() == 0 { assert(out@ =~= method@ + seq!['/'] + stem@); }
        else { assert(out@ =~= method@ + seq!['/'] + (dir@ + seq!['/'] + stem@)); }
    }
    Ok(string_of(out.as_slice()))
}

/// What a directory directly under a project holds.
#[derive(Debug, Clone, Copy, PartialEq, Eq)]
pub enum ProjectDir {
    /// `triggers/<channel>/<key>.yml`.
    Triggers,
    /// Handled elsewhere (`sources`, `cronmanager-jobs`).
    Reserved,
    /// An HTTP or WS method directory.
    Method,
}

pub fn project_dir_role(name: &str) -> (r: ProjectDir)
    ensures
        r == (if name@ == "triggers"@ { ProjectDir::Triggers }
            else if name@ == "sources"@ || name@ == "cronmanager-jobs"@ { ProjectDir::Reserved }
            else { ProjectDir::Method }),
{
    let c = chars_of(name);
    if chars_eq(c.as_slice(), chars_of("triggers").as_slice()) {
        ProjectDir::Triggers
    } else if chars_eq(c.as_slice(), chars_of("sources").as_slice()) || chars_eq(c.as_slice(), chars_of("cronmanager-jobs").as_slice()) {
        ProjectDir::Reserved
    } else {
        ProjectDir::Method
    }
}

/// Where a project's outbound sources are read from.
#[derive(Debug, Clone, Copy, PartialEq, Eq)]
pub enum SourceLayout {
    /// `WS/outbound/`.
    Outbound,
    /// The deprecated `sources/`.
    Legacy,
}

/// `WS/outbound/` wins when both exist (the legacy directory is then
/// ignored, with a warning); `sources/` alone is used with a
/// deprecation warning. The flag says whether to warn.
pub fn source_layout(outbound_exists: bool, legacy_exists: bool) -> (r: (Option<SourceLayout>, bool))
    ensures
        r.0 == (if outbound_exists { Some(SourceLayout::Outbound) }
            else if legacy_exists { Some(SourceLayout::Legacy) } else { None }),
        r.1 == legacy_exists,
{
    if outbound_exists {
        (Some(SourceLayout::Outbound), legacy_exists)
    } else if legacy_exists {
        (Some(SourceLayout::Legacy), true)
    } else {
        (None, false)
    }
}

/// A source definition file: `.yml` or `.yaml`.
pub fn is_source_definition(name: &str) -> (r: bool)
    ensures
        r == (file_extension(name@) == Some("yml"@) || file_extension(name@) == Some("yaml"@)),
{
    match extension_of(name) {
        Some(e) => {
            let ec = chars_of(e.as_str());
            chars_eq(ec.as_slice(), chars_of("yml").as_slice()) || chars_eq(ec.as_slice(), chars_of("yaml").as_slice())
        },
        None => false,
    }
}

} // verus!
