//! Scopes and scope resolution.
//!
//! A scope is one alias namespace together with the directory that anchors it
//! on disk.  Exactly one scope is the target of every mutating command; the
//! resolver below picks it from the two override flags and from whether a
//! local scope was discovered at all.

use vstd::prelude::*;
use crate::paths::parent_dir;
use crate::paths::parent_dir_spec;

verus! {

/// Which of the two alias namespaces a scope is.
#[derive(Clone, Copy, PartialEq, Eq, Structural, Debug)]
pub enum ScopeKind {
    GLOBAL,
    LOCAL,
}

/// One alias namespace and its root directory for this invocation.
///
/// The global scope's root is the directory holding the running executable;
/// the local scope's root is the nearest ancestor of the working directory
/// that contains the `.cmd` marker directory.
#[derive(Debug)]
pub struct Scope {
    pub kind: ScopeKind,
    pub path: String,
}

/// Mathematical image of a [`Scope`].
#[verifier::ext_equal]
pub struct ScopeView {
    pub kind: ScopeKind,
    pub path: Seq<char>,
}

impl View for Scope {
    type V = ScopeView;

    open spec fn view(&self) -> ScopeView {
        ScopeView { kind: self.kind, path: self.path@ }
    }
}

impl Scope {
    /// An explicit copy; the clone has the same kind and root.
    pub fn dup(&self) -> (r: Scope)
        ensures
            r@ == self@,
    {
        Scope { kind: self.kind, path: self.path.clone() }
    }
}

/// The one fatal outcome of scope resolution: a local scope was demanded by
/// flag, but no local root exists for this invocation.
#[derive(Clone, Copy, PartialEq, Eq, Structural, Debug)]
pub enum ScopeError {
    LocalForcedButMissing,
}

/// Picks the single scope a mutating command targets.
///
/// The rules, in order: a `--global` flag wins unconditionally; otherwise an
/// existing local scope is preferred; otherwise a `--local` flag is a fatal
/// contradiction (it demands what does not exist); otherwise the global scope
/// is the default.
pub fn choose_scope(force_global: bool, force_local: bool, global: Scope, local: Option<Scope>) -> (r:
    Result<Scope, ScopeError>)
    ensures
        force_global ==> (r matches Ok(s) && s@ == global@),
        !force_global ==> (local matches Some(l) ==> (r matches Ok(s) && s@ == l@)),
        !force_global && local is None && force_local ==> r == Err::<Scope, ScopeError>(
            ScopeError::LocalForcedButMissing,
        ),
        !force_global && local is None && !force_local ==> (r matches Ok(s) && s@ == global@),
{
    if force_global {
        Ok(global)
    } else {
        match local {
            Some(scope) => Ok(scope),
            None => {
                if force_local {
                    Err(ScopeError::LocalForcedButMissing)
                } else {
                    Ok(global)
                }
            },
        }
    }
}

/// One step of the walk that discovers the local scope root.
pub enum LocalSearch {
    /// The directory at hand contains the marker: it is the local root.
    Found(String),
    /// No marker here; probe this parent next.
    Ascend(String),
    /// No marker here and no ancestor left: there is no local scope.
    Absent,
}

/// Decides one step of the upward walk from the working directory: the
/// caller reports whether the marker directory exists under `dir`, and is
/// told either that `dir` is the local root, or which ancestor to probe
/// next, or that the walk is over with no local scope found.
pub fn find_local_step(dir: &String, has_marker: bool) -> (r: LocalSearch)
    ensures
        has_marker ==> (r matches LocalSearch::Found(d) && d@ == dir@),
        !has_marker ==> match parent_dir_spec(dir@) {
            Option::Some(p) => r matches LocalSearch::Ascend(q) && q@ == p,
            Option::None => r is Absent,
        },
{
    if has_marker {
        LocalSearch::Found(dir.clone())
    } else {
        match parent_dir(dir.as_str()) {
            Option::Some(p) => LocalSearch::Ascend(p),
            Option::None => LocalSearch::Absent,
        }
    }
}

} // verus!
