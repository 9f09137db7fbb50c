//! The errors of staging, as a closed set of kinds.

use crate::path::{render_path, strip_base, StagePath};
use vstd::prelude::*;
use vstd::string::*;

verus! {

/// The filesystem operation that an I/O failure belongs to.
#[derive(Clone, Copy, Debug, PartialEq, Eq, Structural)]
pub enum IoOp {
    /// Creating a directory and its ancestors.
    CreateDir,
    /// Listing a directory, or reading one of its entries.
    ReadDir,
    /// Calling the visitor of a plain walk.
    Visit,
    /// Writing a line for the build orchestrator.
    Announce,
    /// Copying the bytes of a file.
    Copy,
    /// Asking whether something exists at a path.
    Probe,
    /// Removing what a link is about to replace.
    Remove,
    /// Creating a symbolic link.
    Link,
}

/// Why a variable of the environment could not be read.
#[derive(Clone, Copy, Debug, PartialEq, Eq, Structural)]
pub enum LookupCause {
    /// The variable is not set.
    NotPresent,
    /// The variable is set to something that is not valid text.
    NotText,
}

/// What ends an operation early.
#[derive(Debug)]
pub enum StageError {
    /// A variable that the operation needs is missing from the environment.
    LookupMissing { name: String, reason: LookupCause },
    /// A filesystem operation failed; `dest` is its second path, if it has one.
    IoFailure { op: IoOp, path: StagePath, dest: Option<StagePath>, cause: String },
    /// `path` does not lie below `root`.
    PathError { path: StagePath, root: StagePath },
}

/// The mathematical value of a [`StageError`].
pub enum ErrorV {
    LookupMissing { name: Seq<char>, reason: LookupCause },
    IoFailure { op: IoOp, path: Seq<Seq<char>>, dest: Option<Seq<Seq<char>>>, cause: Seq<char> },
    PathError { path: Seq<Seq<char>>, root: Seq<Seq<char>> },
}

/// The value of an optional path.
pub open spec fn opt_path_view(p: Option<StagePath>) -> Option<Seq<Seq<char>>> {
    match p {
        Some(p) => Some(p@),
        None => None,
    }
}

impl View for StageError {
    type V = ErrorV;

    open spec fn view(&self) -> ErrorV {
        match *self {
            StageError::LookupMissing { name, reason } => ErrorV::LookupMissing { name: name@, reason },
            StageError::IoFailure { op, path, dest, cause } => ErrorV::IoFailure {
                op,
                path: path@,
                dest: opt_path_view(dest),
                cause: cause@,
            },
            StageError::PathError { path, root } => ErrorV::PathError { path: path@, root: root@ },
        }
    }
}

/// The value of the outcome of an operation that returns nothing.
pub open spec fn outcome_view(r: Result<(), StageError>) -> Result<(), ErrorV> {
    match r {
        Ok(()) => Ok(()),
        Err(e) => Err(e@),
    }
}

/// What is left of `path` below `root`, or the error that says that `path`
/// does not lie below `root`.
pub open spec fn relative_path(path: Seq<Seq<char>>, root: Seq<Seq<char>>) -> Result<
    Seq<Seq<char>>,
    ErrorV,
> {
    match strip_base(path, root) {
        Some(rest) => Ok(rest),
        None => Err(ErrorV::PathError { path, root }),
    }
}

/// The value of a path or an error.
pub open spec fn path_outcome_view(r: Result<StagePath, StageError>) -> Result<
    Seq<Seq<char>>,
    ErrorV,
> {
    match r {
        Ok(p) => Ok(p@),
        Err(e) => Err(e@),
    }
}

impl StagePath {
    /// What is left of this path below `root`. A path that does not lie at
    /// or below `root` has no such rest.
    pub fn relative_to(&self, root: &StagePath) -> (r: Result<StagePath, StageError>)
        ensures
            path_outcome_view(r) == relative_path(self@, root@),
    {
        match self.strip_prefix(root) {
            Some(rest) => Ok(rest),
            None => Err(StageError::PathError { path: self.clone(), root: root.clone() }),
        }
    }
}

/// The text of a path between double quotes.
pub open spec fn quoted(p: Seq<Seq<char>>) -> Seq<char> {
    "\""@ + render_path(p) + "\""@
}

/// The message of an error. A failure with two paths names the operation and
/// both paths before the cause; one with a single path names the path, but a
/// failed listing or visit gives the cause alone.
pub open spec fn message_text(e: ErrorV) -> Seq<char> {
    match e {
        ErrorV::LookupMissing { name, reason } => match reason {
            LookupCause::NotPresent => "environment variable not found"@,
            LookupCause::NotText => "environment variable was not valid unicode"@,
        },
        ErrorV::IoFailure { op, path, dest, cause } => match dest {
            Some(d) => (if op == IoOp::Copy {
                "Copy "@
            } else {
                "Link "@
            }) + quoted(path) + " to "@ + quoted(d) + ":"@ + cause,
            None => if op == IoOp::ReadDir || op == IoOp::Visit {
                cause
            } else {
                quoted(path) + ":"@ + cause
            },
        },
        ErrorV::PathError { path, root } => "prefix not found"@,
    }
}

/// A copy of an optional path.
pub fn clone_opt_path(p: &Option<StagePath>) -> (r: Option<StagePath>)
    ensures
        opt_path_view(r) == opt_path_view(*p),
{
    match p {
        Some(p) => Some(p.clone()),
        None => None,
    }
}

/// A copy of an outcome.
pub fn clone_outcome(r: &Result<(), StageError>) -> (c: Result<(), StageError>)
    ensures
        outcome_view(c) == outcome_view(*r),
{
    match r {
        Ok(()) => Ok(()),
        Err(e) => Err(e.clone()),
    }
}

fn quote(p: &StagePath) -> (text: String)
    ensures
        text@ == quoted(p@),
{
    let mut text = String::new();
    text.append("\"");
    text.append(p.render().as_str());
    text.append("\"");
    assert(text@ =~= quoted(p@));
    text
}

impl Clone for StageError {
    fn clone(&self) -> (r: Self)
        ensures
            r@ == self@,
    {
        match self {
            StageError::LookupMissing { name, reason } => StageError::LookupMissing {
                name: name.clone(),
                reason: *reason,
            },
            StageError::IoFailure { op, path, dest, cause } => StageError::IoFailure {
                op: *op,
                path: path.clone(),
                dest: clone_opt_path(dest),
                cause: cause.clone(),
            },
            StageError::PathError { path, root } => StageError::PathError {
                path: path.clone(),
                root: root.clone(),
            },
        }
    }
}

impl StageError {
    /// The message of this error.
    pub fn message(&self) -> (text: String)
        ensures
            text@ == message_text(self@),
    {
        match self {
            StageError::LookupMissing { name, reason } => match reason {
                LookupCause::NotPresent => "environment variable not found".to_owned(),
                LookupCause::NotText => "environment variable was not valid unicode".to_owned(),
            },
            StageError::IoFailure { op, path, dest, cause } => match dest {
                Some(d) => {
                    let mut text = String::new();
                    match op {
                        IoOp::Copy => {
                            text.append("Copy ");
                        },
                        _ => {
                            text.append("Link ");
                        },
                    }
                    text.append(quote(path).as_str());
                    text.append(" to ");
                    text.append(quote(d).as_str());
                    text.append(":");
                    text.append(cause.as_str());
                    assert(text@ =~= message_text(self@));
                    text
                },
                None => match op {
                    IoOp::ReadDir | IoOp::Visit => cause.clone(),
                    _ => {
                        let mut text = quote(path);
                        text.append(":");
                        text.append(cause.as_str());
                        assert(text@ =~= message_text(self@));
                        text
                    },
                },
            },
            StageError::PathError { path, root } => "prefix not found".to_owned(),
        }
    }

    /// Whether both errors have the same value.
    pub fn same_as(&self, other: &StageError) -> (r: bool)
        ensures
            r == (self@ == other@),
    {
        match (self, other) {
            (
                StageError::LookupMissing { name: n1, reason: c1 },
                StageError::LookupMissing { name: n2, reason: c2 },
            ) => *n1 == *n2 && *c1 == *c2,
            (
                StageError::IoFailure { op: o1, path: left, dest: d1, cause: c1 },
                StageError::IoFailure { op: o2, path: right, dest: d2, cause: c2 },
            ) => {
                let dests = match (d1, d2) {
                    (Some(a), Some(b)) => a.same_as(b),
                    (None, None) => true,
                    _ => false,
                };
                *o1 == *o2 && left.same_as(right) && dests && *c1 == *c2
            },
            (
                StageError::PathError { path: left, root: r1 },
                StageError::PathError { path: right, root: r2 },
            ) => left.same_as(right) && r1.same_as(r2),
            _ => false,
        }
    }
}

impl PartialEq for StageError {
    fn eq(&self, other: &Self) -> (r: bool) {
        self.same_as(other)
    }
}

impl vstd::std_specs::cmp::PartialEqSpecImpl for StageError {
    open spec fn obeys_eq_spec() -> bool {
        true
    }

    open spec fn eq_spec(&self, other: &Self) -> bool {
        self@ == other@
    }
}

} // verus!
