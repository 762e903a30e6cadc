//! `dlog init`: declares a directory as a workspace root.
//!
//! Root discovery falls back to git and then to the current directory, so this is never
//! required, but it is what makes the root a dlog concept rather than a git one.
use crate::commands::{first_set, first_set_is_least, position_set, Workspace};
use crate::paths;
use vstd::prelude::*;

verus! {

/// The reply.
#[derive(Debug, PartialEq, Eq)]
pub struct InitResult {
    pub root: String,
    pub db: String,
    /// False when the store already existed.
    pub created: bool,
    /// An ancestor that already holds a `.dlog/`: the new root shadows it for anything run
    /// below. Nesting workspaces is legal, just easy to do by accident.
    pub shadows: Option<String>,
}

/// The nearest ancestor above `dir` that holds a `.dlog/`, given which of its ancestors,
/// itself first, hold one.
pub open spec fn outer(dir: Seq<char>, dlog: Seq<bool>) -> Option<Seq<char>> {
    match first_set(dlog, 1) {
        Some(i) => Some(paths::ancestors_of(dir)[i]),
        None => None,
    }
}

/// Finds the nearest ancestor above `dir` that holds a `.dlog/`.
pub fn outer_workspace(dir: &str, dlog: &Vec<bool>) -> (r: Option<String>)
    requires
        dlog@.len() <= paths::ancestors_of(dir@).len(),
    ensures
        r.deep_view() == outer(dir@, dlog@),
{
    let dirs = paths::ancestors(dir);
    match position_set(dlog, 1) {
        Some(i) => Some(dirs[i].clone()),
        None => None,
    }
}

/// Declares `cwd` a workspace root. It skips discovery: inside an existing workspace it
/// nests a new one. `db_exists` tells whether the store was there before.
pub fn init_at(workspace: &Workspace, db_exists: bool, dlog: &Vec<bool>) -> (r: InitResult)
    requires
        dlog@.len() <= paths::ancestors_of(workspace.root@).len(),
    ensures
        r.root@ == workspace.root@,
        r.db@ == workspace.db@,
        r.created == !db_exists,
        r.shadows.deep_view() == outer(workspace.root@, dlog@),
{
    InitResult {
        root: workspace.root.clone(),
        db: workspace.db.clone(),
        created: !db_exists,
        shadows: outer_workspace(workspace.root.as_str(), dlog),
    }
}

/// A new root shadows the nearest workspace above its own directory, where there is one.
pub proof fn nearest_is_shadowed(dir: Seq<char>, dlog: Seq<bool>, i: int)
    ensures
        1 <= i < dlog.len() && dlog[i] && (forall|j: int| 1 <= j < i ==> !dlog[j]) ==> outer(dir, dlog)
            == Some(paths::ancestors_of(dir)[i]),
        (forall|j: int| 1 <= j < dlog.len() ==> !dlog[j]) ==> outer(dir, dlog) is None,
{
    first_set_is_least(dlog, 1);
}

} // verus!
