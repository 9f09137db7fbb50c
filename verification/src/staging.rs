//! The staging root of a package, and the directory of its build artifacts.

use crate::env::{dep_value, dep_var_name, env_value, uppercase_of, Env};
use crate::error::{path_outcome_view, ErrorV, StageError};
use crate::model::{Mode, SessionV};
use crate::path::{join_paths, parse_path, StagePath};
use crate::protocol::{Directive, DirectiveV};
use crate::session::{copy_dir, Session};
use vstd::prelude::*;

verus! {

/// The directory under which a package gathers the directories of its
/// dependencies, and the key under which it publishes that directory.
#[derive(Debug)]
pub struct OtherDir {
    key: String,
    root: StagePath,
}

/// The mathematical value of an [`OtherDir`].
pub struct OtherDirV {
    pub key: Seq<char>,
    pub root: Seq<Seq<char>>,
}

impl View for OtherDir {
    type V = OtherDirV;

    closed spec fn view(&self) -> OtherDirV {
        OtherDirV { key: self.key@, root: self.root@ }
    }
}

/// The staging root that the environment `env` gives: the output directory
/// of the build, followed by the name that the package links under. The
/// output directory is read first.
pub open spec fn staging_root(env: Map<Seq<char>, Option<Seq<char>>>) -> Result<
    Seq<Seq<char>>,
    ErrorV,
> {
    match env_value(env, "OUT_DIR"@) {
        Err(e) => Err(e),
        Ok(out) => match env_value(env, "CARGO_MANIFEST_LINKS"@) {
            Err(e) => Err(e),
            Ok(links) => Ok(join_paths(parse_path(out), parse_path(links))),
        },
    }
}

/// The directory that the dependency `dep` publishes under `key`, as `env`
/// holds it.
pub open spec fn dep_dir(
    env: Map<Seq<char>, Option<Seq<char>>>,
    dep: Seq<char>,
    key: Seq<char>,
) -> Result<Seq<Seq<char>>, ErrorV> {
    match env_value(env, dep_var_name(uppercase_of(dep), uppercase_of(key))) {
        Err(e) => Err(e),
        Ok(dir) => Ok(parse_path(dir)),
    }
}

/// The directory of the build artifacts that `env` describes: the target
/// directory that is set, or else `target` below the directory of the
/// package; then the target triple, unless it is that of the host; then the
/// profile. The variables are read in this order, and the first one that is
/// needed and cannot be read is the error.
pub open spec fn artifact_dir(env: Map<Seq<char>, Option<Seq<char>>>) -> Result<
    Seq<Seq<char>>,
    ErrorV,
> {
    let root = match env_value(env, "CARGO_TARGET_DIR"@) {
        Ok(dir) => Ok(parse_path(dir)),
        Err(_) => match env_value(env, "CARGO_MANIFEST_DIR"@) {
            Ok(package) => Ok(join_paths(parse_path(package), parse_path("target"@))),
            Err(e) => Err(e),
        },
    };
    match root {
        Err(e) => Err(e),
        Ok(root) => match env_value(env, "TARGET"@) {
            Err(e) => Err(e),
            Ok(target) => match env_value(env, "HOST"@) {
                Err(e) => Err(e),
                Ok(host) => match env_value(env, "PROFILE"@) {
                    Err(e) => Err(e),
                    Ok(profile) => Ok(
                        if target == host {
                            join_paths(root, parse_path(profile))
                        } else {
                            join_paths(join_paths(root, parse_path(target)), parse_path(profile))
                        },
                    ),
                },
            },
        },
    }
}

/// The value of a session or an error.
pub open spec fn session_outcome_view(r: Result<Session, StageError>) -> Result<SessionV, ErrorV> {
    match r {
        Ok(s) => Ok(s@),
        Err(e) => Err(e@),
    }
}

impl OtherDir {
    /// The staging root of the package that `env` describes, with the
    /// directive that publishes it under `key`.
    pub fn new(key: &str, env: &Env) -> (r: Result<(OtherDir, Directive), StageError>)
        ensures
            match staging_root(env@) {
                Ok(root) => r matches Ok((dir, notice)) && dir@ == (OtherDirV { key: key@, root })
                    && notice@ == (DirectiveV::Publish { key: key@, value: root }),
                Err(e) => r matches Err(got) && got@ == e,
            },
    {
        let out = match env.lookup("OUT_DIR") {
            Ok(out) => out,
            Err(e) => {
                return Err(e);
            },
        };
        let links = match env.lookup("CARGO_MANIFEST_LINKS") {
            Ok(links) => links,
            Err(e) => {
                return Err(e);
            },
        };
        let root = StagePath::parse(out.as_str()).join(&StagePath::parse(links.as_str()));
        let notice = Directive::Publish { key: key.to_owned(), value: root.clone() };
        Ok((OtherDir { key: key.to_owned(), root }, notice))
    }

    /// The key under which the staging root is published.
    pub fn key(&self) -> (key: &str)
        ensures
            key@ == self@.key,
    {
        self.key.as_str()
    }

    /// The staging root.
    pub fn root(&self) -> (root: &StagePath)
        ensures
            root@ == self@.root,
    {
        &self.root
    }

    /// Starts the copy of the tree below `dir` into the staging root.
    pub fn add_dir(&self, dir: &StagePath) -> (s: Session)
        ensures
            s@ == SessionV::start(Mode::Copy, dir@, self@.root),
    {
        copy_dir(dir, &self.root)
    }

    /// Starts the copy of the directory that the dependency `dep` publishes
    /// into the directory of that name below the staging root.
    pub fn add_dep(&self, dep: &str, env: &Env) -> (r: Result<Session, StageError>)
        ensures
            session_outcome_view(r) == match dep_dir(env@, dep@, self@.key) {
                Ok(dir) => Ok(
                    SessionV::start(Mode::Copy, dir, join_paths(self@.root, parse_path(dep@))),
                ),
                Err(e) => Err(e),
            },
    {
        match dep_value(dep, self.key.as_str(), env) {
            Ok(dir) => {
                let dest = self.root.join(&StagePath::parse(dep));
                Ok(copy_dir(&StagePath::parse(dir.as_str()), &dest))
            },
            Err(e) => Err(e),
        }
    }

    /// Starts the copy of the directory that the dependency `dep` publishes
    /// into the staging root itself.
    pub fn merge_dep(&self, dep: &str, env: &Env) -> (r: Result<Session, StageError>)
        ensures
            session_outcome_view(r) == match dep_dir(env@, dep@, self@.key) {
                Ok(dir) => Ok(SessionV::start(Mode::Copy, dir, self@.root)),
                Err(e) => Err(e),
            },
    {
        match dep_value(dep, self.key.as_str(), env) {
            Ok(dir) => Ok(copy_dir(&StagePath::parse(dir.as_str()), &self.root)),
            Err(e) => Err(e),
        }
    }
}

/// The directory of the build artifacts that `env` describes.
pub fn target_dir(env: &Env) -> (r: Result<StagePath, StageError>)
    ensures
        path_outcome_view(r) == artifact_dir(env@),
{
    let root = match env.lookup("CARGO_TARGET_DIR") {
        Ok(dir) => StagePath::parse(dir.as_str()),
        Err(_) => match env.lookup("CARGO_MANIFEST_DIR") {
            Ok(package) => StagePath::parse(package.as_str()).join(&StagePath::parse("target")),
            Err(e) => {
                return Err(e);
            },
        },
    };
    let target = match env.lookup("TARGET") {
        Ok(target) => target,
        Err(e) => {
            return Err(e);
        },
    };
    let host = match env.lookup("HOST") {
        Ok(host) => host,
        Err(e) => {
            return Err(e);
        },
    };
    let profile = match env.lookup("PROFILE") {
        Ok(profile) => profile,
        Err(e) => {
            return Err(e);
        },
    };
    if target == host {
        Ok(root.join(&StagePath::parse(profile.as_str())))
    } else {
        Ok(root.join(&StagePath::parse(target.as_str())).join(&StagePath::parse(profile.as_str())))
    }
}

} // verus!
