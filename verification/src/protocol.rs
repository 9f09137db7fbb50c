//! What a session asks of its driver, and what the driver answers.

use crate::error::{clone_outcome, outcome_view, ErrorV, StageError};
use crate::path::{render_path, StagePath};
use vstd::prelude::*;
use vstd::string::*;

verus! {

/// One item of a directory listing.
#[derive(Debug)]
pub enum Entry {
    /// An entry with its name, and whether it is a directory.
    Found { name: String, is_dir: bool },
    /// An entry that could not be read.
    Unreadable { cause: String },
}

/// The mathematical value of an [`Entry`].
pub enum EntryV {
    Found { name: Seq<char>, is_dir: bool },
    Unreadable { cause: Seq<char> },
}

impl View for Entry {
    type V = EntryV;

    open spec fn view(&self) -> EntryV {
        match *self {
            Entry::Found { name, is_dir } => EntryV::Found { name: name@, is_dir },
            Entry::Unreadable { cause } => EntryV::Unreadable { cause: cause@ },
        }
    }
}

impl Clone for Entry {
    fn clone(&self) -> (r: Self)
        ensures
            r@ == self@,
    {
        match self {
            Entry::Found { name, is_dir } => Entry::Found { name: name.clone(), is_dir: *is_dir },
            Entry::Unreadable { cause } => Entry::Unreadable { cause: cause.clone() },
        }
    }
}

/// The value of each entry of `v`.
pub open spec fn entry_views(v: Seq<Entry>) -> Seq<EntryV> {
    Seq::new(v.len(), |i: int| v[i]@)
}

/// A line for the build orchestrator.
#[derive(Debug)]
pub enum Directive {
    /// The build is to be redone when `path` changes.
    RerunIfChanged { path: StagePath },
    /// Consumers find `value` under the name `key`.
    Publish { key: String, value: StagePath },
}

/// The mathematical value of a [`Directive`].
pub enum DirectiveV {
    RerunIfChanged { path: Seq<Seq<char>> },
    Publish { key: Seq<char>, value: Seq<Seq<char>> },
}

impl View for Directive {
    type V = DirectiveV;

    open spec fn view(&self) -> DirectiveV {
        match *self {
            Directive::RerunIfChanged { path } => DirectiveV::RerunIfChanged { path: path@ },
            Directive::Publish { key, value } => DirectiveV::Publish { key: key@, value: value@ },
        }
    }
}

/// The text of a directive, as the build orchestrator reads it.
pub open spec fn directive_line(d: DirectiveV) -> Seq<char> {
    match d {
        DirectiveV::RerunIfChanged { path } => "cargo:rerun-if-changed="@ + render_path(path),
        DirectiveV::Publish { key, value } => "cargo:"@ + key + "="@ + render_path(value),
    }
}

impl Clone for Directive {
    fn clone(&self) -> (r: Self)
        ensures
            r@ == self@,
    {
        match self {
            Directive::RerunIfChanged { path } => Directive::RerunIfChanged { path: path.clone() },
            Directive::Publish { key, value } => Directive::Publish {
                key: key.clone(),
                value: value.clone(),
            },
        }
    }
}

impl Directive {
    /// The line to write for this directive.
    pub fn line(&self) -> (text: String)
        ensures
            text@ == directive_line(self@),
    {
        let mut text = String::new();
        match self {
            Directive::RerunIfChanged { path } => {
                text.append("cargo:rerun-if-changed=");
                text.append(path.render().as_str());
            },
            Directive::Publish { key, value } => {
                text.append("cargo:");
                text.append(key.as_str());
                text.append("=");
                text.append(value.render().as_str());
            },
        }
        assert(text@ =~= directive_line(self@));
        text
    }

    /// Whether both directives have the same value.
    pub fn same_as(&self, other: &Directive) -> (r: bool)
        ensures
            r == (self@ == other@),
    {
        match (self, other) {
            (Directive::RerunIfChanged { path: left }, Directive::RerunIfChanged { path: right }) => {
                left.same_as(right)
            },
            (
                Directive::Publish { key: k1, value: v1 },
                Directive::Publish { key: k2, value: v2 },
            ) => *k1 == *k2 && v1.same_as(v2),
            _ => false,
        }
    }
}

/// The next thing that the driver of a session is to do.
#[derive(Debug)]
pub enum Request {
    /// Create the directory `path` and its missing ancestors.
    CreateDirAll { path: StagePath },
    /// List the entries of the directory `path`.
    ReadDir { path: StagePath },
    /// Call the visitor on `path`.
    Visit { path: StagePath, is_dir: bool },
    /// Write a line for the build orchestrator.
    Announce { directive: Directive },
    /// Copy the bytes of the file `from` to `to`, replacing what is there.
    CopyFile { from: StagePath, to: StagePath },
    /// Say whether anything exists at `path`.
    Exists { path: StagePath },
    /// Remove the file or link at `path`.
    RemoveFile { path: StagePath },
    /// Create at `link` a symbolic link that points at `target`.
    Symlink { target: StagePath, link: StagePath },
    /// Nothing more: the session has ended with `result`.
    Finish { result: Result<(), StageError> },
}

/// The mathematical value of a [`Request`].
pub enum RequestV {
    CreateDirAll { path: Seq<Seq<char>> },
    ReadDir { path: Seq<Seq<char>> },
    Visit { path: Seq<Seq<char>>, is_dir: bool },
    Announce { directive: DirectiveV },
    CopyFile { from: Seq<Seq<char>>, to: Seq<Seq<char>> },
    Exists { path: Seq<Seq<char>> },
    RemoveFile { path: Seq<Seq<char>> },
    Symlink { target: Seq<Seq<char>>, link: Seq<Seq<char>> },
    Finish { result: Result<(), ErrorV> },
}

impl View for Request {
    type V = RequestV;

    open spec fn view(&self) -> RequestV {
        match *self {
            Request::CreateDirAll { path } => RequestV::CreateDirAll { path: path@ },
            Request::ReadDir { path } => RequestV::ReadDir { path: path@ },
            Request::Visit { path, is_dir } => RequestV::Visit { path: path@, is_dir },
            Request::Announce { directive } => RequestV::Announce { directive: directive@ },
            Request::CopyFile { from, to } => RequestV::CopyFile { from: from@, to: to@ },
            Request::Exists { path } => RequestV::Exists { path: path@ },
            Request::RemoveFile { path } => RequestV::RemoveFile { path: path@ },
            Request::Symlink { target, link } => RequestV::Symlink { target: target@, link: link@ },
            Request::Finish { result } => RequestV::Finish { result: outcome_view(result) },
        }
    }
}

impl Clone for Request {
    fn clone(&self) -> (r: Self)
        ensures
            r@ == self@,
    {
        match self {
            Request::CreateDirAll { path } => Request::CreateDirAll { path: path.clone() },
            Request::ReadDir { path } => Request::ReadDir { path: path.clone() },
            Request::Visit { path, is_dir } => Request::Visit { path: path.clone(), is_dir: *is_dir },
            Request::Announce { directive } => Request::Announce { directive: directive.clone() },
            Request::CopyFile { from, to } => Request::CopyFile { from: from.clone(), to: to.clone() },
            Request::Exists { path } => Request::Exists { path: path.clone() },
            Request::RemoveFile { path } => Request::RemoveFile { path: path.clone() },
            Request::Symlink { target, link } => Request::Symlink {
                target: target.clone(),
                link: link.clone(),
            },
            Request::Finish { result } => Request::Finish { result: clone_outcome(result) },
        }
    }
}

impl Request {
    /// Whether both requests have the same value.
    pub fn same_as(&self, other: &Request) -> (r: bool)
        ensures
            r == (self@ == other@),
    {
        match (self, other) {
            (Request::CreateDirAll { path: a }, Request::CreateDirAll { path: b }) => a.same_as(b),
            (Request::ReadDir { path: a }, Request::ReadDir { path: b }) => a.same_as(b),
            (Request::Visit { path: a, is_dir: d1 }, Request::Visit { path: b, is_dir: d2 }) => {
                a.same_as(b) && *d1 == *d2
            },
            (Request::Announce { directive: a }, Request::Announce { directive: b }) => a.same_as(b),
            (Request::CopyFile { from: f1, to: t1 }, Request::CopyFile { from: f2, to: t2 }) => {
                f1.same_as(f2) && t1.same_as(t2)
            },
            (Request::Exists { path: a }, Request::Exists { path: b }) => a.same_as(b),
            (Request::RemoveFile { path: a }, Request::RemoveFile { path: b }) => a.same_as(b),
            (
                Request::Symlink { target: t1, link: l1 },
                Request::Symlink { target: t2, link: l2 },
            ) => t1.same_as(t2) && l1.same_as(l2),
            (Request::Finish { result: r1 }, Request::Finish { result: r2 }) => match (r1, r2) {
                (Ok(()), Ok(())) => true,
                (Err(e1), Err(e2)) => e1.same_as(e2),
                _ => false,
            },
            _ => false,
        }
    }
}

/// The outcome of the operation that a session asked for.
#[derive(Debug)]
pub enum Reply {
    /// The operation succeeded and has nothing to report.
    Done,
    /// The entries of the directory that was listed, in the order read.
    Entries { entries: Vec<Entry> },
    /// Whether anything exists at the path that was probed.
    Found { exists: bool },
    /// The operation failed.
    Failed { cause: String },
}

/// The mathematical value of a [`Reply`].
pub enum ReplyV {
    Done,
    Entries { entries: Seq<EntryV> },
    Found { exists: bool },
    Failed { cause: Seq<char> },
}

impl View for Reply {
    type V = ReplyV;

    open spec fn view(&self) -> ReplyV {
        match *self {
            Reply::Done => ReplyV::Done,
            Reply::Entries { entries } => ReplyV::Entries { entries: entry_views(entries@) },
            Reply::Found { exists } => ReplyV::Found { exists },
            Reply::Failed { cause } => ReplyV::Failed { cause: cause@ },
        }
    }
}

/// The cause to report when `reply` is not the success that was awaited: the
/// cause of a failure, and a fixed text for an answer of the wrong kind.
pub open spec fn reply_cause(reply: ReplyV) -> Seq<char> {
    match reply {
        ReplyV::Failed { cause } => cause,
        _ => "unexpected reply"@,
    }
}

impl Reply {
    /// The cause to report when this reply is not the success that was awaited.
    pub fn cause(&self) -> (text: String)
        ensures
            text@ == reply_cause(self@),
    {
        match self {
            Reply::Failed { cause } => cause.clone(),
            _ => "unexpected reply".to_owned(),
        }
    }
}

impl PartialEq for Directive {
    fn eq(&self, other: &Self) -> (r: bool) {
        self.same_as(other)
    }
}

impl vstd::std_specs::cmp::PartialEqSpecImpl for Directive {
    open spec fn obeys_eq_spec() -> bool {
        true
    }

    open spec fn eq_spec(&self, other: &Self) -> bool {
        self@ == other@
    }
}

impl PartialEq for Request {
    fn eq(&self, other: &Self) -> (r: bool) {
        self.same_as(other)
    }
}

impl vstd::std_specs::cmp::PartialEqSpecImpl for Request {
    open spec fn obeys_eq_spec() -> bool {
        true
    }

    open spec fn eq_spec(&self, other: &Self) -> bool {
        self@ == other@
    }
}

} // verus!
