//! Which file-system events under the DSL root warrant re-loading the
//! DSL tree: content changes, creations, removals and renames of DSL
//! and guard files, outside the directories that hold sources, trigger
//! DSLs and CronManager jobs.
use vstd::prelude::*;
use crate::text::{chars_of, chars_eq, contains, contains_seq};
use crate::lint_files::{file_extension, extension_of};

verus! {

/// The kind of a file-system event, as far as reloading cares.
#[derive(Debug, Clone, Copy, PartialEq, Eq)]
pub enum FsEventKind {
    Create,
    Remove,
    /// File content changed.
    ModifyData,
    /// File renamed.
    ModifyName,
    /// Metadata or an unspecified modification.
    ModifyOther,
    Access,
    Other,
}

pub open spec fn spec_kind_matters(k: FsEventKind) -> bool {
    k == FsEventKind::Create || k == FsEventKind::Remove || k == FsEventKind::ModifyData || k == FsEventKind::ModifyName
}

pub fn event_kind_matters(k: FsEventKind) -> (r: bool)
    ensures
        r == spec_kind_matters(k),
{
    match k {
        FsEventKind::Create | FsEventKind::Remove | FsEventKind::ModifyData | FsEventKind::ModifyName => true,
        _ => false,
    }
}

/// A path an event names: its components below the DSL root (none when
/// it is not under the root) and its file name.
#[derive(Debug)]
pub struct WatchedPath {
    pub rel: Option<Vec<String>>,
    pub name: Option<String>,
}

/// Under `<project>/triggers`, `<project>/sources`,
/// `<project>/cronmanager-jobs` or `<project>/WS/outbound`.
pub open spec fn spec_under_reserved(rel: Option<Vec<String>>) -> bool {
    match rel {
        Some(c) => c@.len() >= 2 && {
            let second = c@[1]@;
            second == "triggers"@ || second == "sources"@ || second == "cronmanager-jobs"@
                || (second == "WS"@ && c@.len() >= 3 && c@[2]@ == "outbound"@)
        },
        None => false,
    }
}

pub fn is_under_reserved_subdir(rel: &Option<Vec<String>>) -> (r: bool)
    ensures
        r == spec_under_reserved(*rel),
{
    match rel {
        Some(c) => {
            if c.len() < 2 {
                return false;
            }
            let s = chars_of(c[1].as_str());
            let ss = s.as_slice();
            if chars_eq(ss, chars_of("triggers").as_slice()) || chars_eq(ss, chars_of("sources").as_slice())
                || chars_eq(ss, chars_of("cronmanager-jobs").as_slice()) {
                return true;
            }
            if chars_eq(ss, chars_of("WS").as_slice()) && c.len() >= 3 {
                return chars_eq(chars_of(c[2].as_str()).as_slice(), chars_of("outbound").as_slice());
            }
            false
        },
        None => false,
    }
}

/// A DSL or guard file outside the reserved directories.
pub open spec fn spec_path_relevant(p: WatchedPath) -> bool {
    !spec_under_reserved(p.rel) && match p.name {
        Some(n) => n@ == ".guard"@ || contains_seq(n@, ".guard."@)
            || file_extension(n@) == Some("yml"@) || file_extension(n@) == Some("yaml"@),
        None => false,
    }
}

pub fn path_is_relevant(p: &WatchedPath) -> (r: bool)
    ensures
        r == spec_path_relevant(*p),
{
    if is_under_reserved_subdir(&p.rel) {
        return false;
    }
    match &p.name {
        Some(n) => {
            let c = chars_of(n.as_str());
            if chars_eq(c.as_slice(), chars_of(".guard").as_slice()) || contains(c.as_slice(), chars_of(".guard.").as_slice()) {
                return true;
            }
            match extension_of(n.as_str()) {
                Some(e) => {
                    let ec = chars_of(e.as_str());
                    chars_eq(ec.as_slice(), chars_of("yml").as_slice()) || chars_eq(ec.as_slice(), chars_of("yaml").as_slice())
                },
                None => false,
            }
        },
        None => false,
    }
}

/// An event without paths counts; otherwise one relevant path is
/// enough.
pub open spec fn spec_paths_relevant(ps: Seq<WatchedPath>) -> bool {
    ps.len() == 0 || exists|i: int| 0 <= i < ps.len() && spec_path_relevant(#[trigger] ps[i])
}

pub fn event_paths_relevant(ps: &Vec<WatchedPath>) -> (r: bool)
    ensures
        r == spec_paths_relevant(ps@),
{
    if ps.len() == 0 {
        return true;
    }
    let mut i: usize = 0;
    while i < ps.len()
        invariant
            i <= ps@.len(),
            forall|j: int| 0 <= j < i ==> !spec_path_relevant(#[trigger] ps@[j]),
        decreases ps@.len() - i,
    {
        if path_is_relevant(&ps[i]) {
            return true;
        }
        i = i + 1;
    }
    false
}

/// One debounced event.
#[derive(Debug)]
pub struct FsEvent {
    pub kind: FsEventKind,
    pub paths: Vec<WatchedPath>,
}

/// A batch warrants a reload when one of its events is of a kind that
/// matters and names a relevant path.
pub open spec fn spec_batch_warrants_reload(evs: Seq<FsEvent>) -> bool {
    exists|i: int| 0 <= i < evs.len() && spec_kind_matters((#[trigger] evs[i]).kind) && spec_paths_relevant(evs[i].paths@)
}

pub fn batch_warrants_reload(evs: &Vec<FsEvent>) -> (r: bool)
    ensures
        r == spec_batch_warrants_reload(evs@),
{
    let mut i: usize = 0;
    while i < evs.len()
        invariant
            i <= evs@.len(),
            forall|j: int| 0 <= j < i ==> !(spec_kind_matters((#[trigger] evs@[j]).kind) && spec_paths_relevant(evs@[j].paths@)),
        decreases evs@.len() - i,
    {
        if event_kind_matters(evs[i].kind) && event_paths_relevant(&evs[i].paths) {
            return true;
        }
        i = i + 1;
    }
    false
}

} // verus!
