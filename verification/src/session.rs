//! The session that a driver runs: it holds the state of a walk or of a
//! mirror, names the operation to perform, and moves on by its outcome.

use crate::error::{clone_outcome, opt_path_view, outcome_view, IoOp, StageError};
use crate::model::{io_failure, FrameV, Mode, SessionV, StageV};
use crate::path::{valid_entry_name, StagePath};
use crate::protocol::{entry_views, Directive, Entry, Reply, Request};
use vstd::prelude::*;

verus! {

/// A directory that is being walked: its entries, and how many were taken.
#[derive(Debug)]
struct Frame {
    dir: StagePath,
    entries: Vec<Entry>,
    next: usize,
}

impl Frame {
    #[verifier::type_invariant]
    spec fn within(self) -> bool {
        self.next <= self.entries.len()
    }

    closed spec fn view(&self) -> FrameV {
        FrameV { dir: self.dir@, rest: entry_views(self.entries@).skip(self.next as int) }
    }
}

spec fn frame_views(frames: Seq<Frame>) -> Seq<FrameV> {
    Seq::new(frames.len(), |i: int| frames[i].view())
}

/// The operation that is outstanding.
#[derive(Debug)]
enum Stage {
    Rooting,
    Listing { dir: StagePath },
    Visiting { path: StagePath, is_dir: bool },
    Announcing { path: StagePath, is_dir: bool, target: StagePath },
    Creating { path: StagePath, target: StagePath },
    Copying { path: StagePath, target: StagePath },
    Probing { path: StagePath, target: StagePath },
    Removing { path: StagePath, target: StagePath },
    Linking { path: StagePath, target: StagePath },
    Finished { result: Result<(), StageError> },
}

impl Stage {
    closed spec fn view(&self) -> StageV {
        match *self {
            Stage::Rooting => StageV::Rooting,
            Stage::Listing { dir } => StageV::Listing { dir: dir@ },
            Stage::Visiting { path, is_dir } => StageV::Visiting { path: path@, is_dir },
            Stage::Announcing { path, is_dir, target } => StageV::Announcing {
                path: path@,
                is_dir,
                target: target@,
            },
            Stage::Creating { path, target } => StageV::Creating { path: path@, target: target@ },
            Stage::Copying { path, target } => StageV::Copying { path: path@, target: target@ },
            Stage::Probing { path, target } => StageV::Probing { path: path@, target: target@ },
            Stage::Removing { path, target } => StageV::Removing { path: path@, target: target@ },
            Stage::Linking { path, target } => StageV::Linking { path: path@, target: target@ },
            Stage::Finished { result } => StageV::Finished { result: outcome_view(result) },
        }
    }
}

/// A walk or a mirror in progress.
#[derive(Debug)]
pub struct Session {
    mode: Mode,
    src: StagePath,
    dest: StagePath,
    frames: Vec<Frame>,
    stage: Stage,
}

impl View for Session {
    type V = SessionV;

    closed spec fn view(&self) -> SessionV {
        SessionV {
            mode: self.mode,
            src: self.src@,
            dest: self.dest@,
            frames: frame_views(self.frames@),
            stage: self.stage.view(),
        }
    }
}

fn failed(op: IoOp, path: StagePath, dest: Option<StagePath>, reply: &Reply) -> (e: StageError)
    ensures
        e@ == io_failure(op, path@, opt_path_view(dest), reply@),
{
    StageError::IoFailure { op, path, dest, cause: reply.cause() }
}

fn ended(e: StageError) -> (stage: Stage)
    ensures
        stage.view() == (StageV::Finished { result: Err(e@) }),
{
    Stage::Finished { result: Err(e) }
}

fn start(mode: Mode, src: &StagePath, dest: &StagePath) -> (s: Session)
    ensures
        s@ == SessionV::start(mode, src@, dest@),
{
    let stage = if mode == Mode::Walk {
        Stage::Listing { dir: src.clone() }
    } else {
        Stage::Rooting
    };
    let s = Session { mode, src: src.clone(), dest: dest.clone(), frames: Vec::new(), stage };
    assert(s@.frames =~= Seq::empty());
    s
}

/// Starts a walk of the tree below `dir`: each entry is handed to the
/// visitor before the entries of the directory that it may be.
pub fn walk_dir(dir: &StagePath) -> (s: Session)
    ensures
        s@ == SessionV::start(Mode::Walk, dir@, Seq::empty()),
{
    start(Mode::Walk, dir, &StagePath::new())
}

/// Starts a mirror of the tree below `src` under `dest` that copies files.
pub fn copy_dir(src: &StagePath, dest: &StagePath) -> (s: Session)
    ensures
        s@ == SessionV::start(Mode::Copy, src@, dest@),
{
    start(Mode::Copy, src, dest)
}

/// Starts a mirror of the tree below `src` under `dest` that links files.
pub fn link_dir(src: &StagePath, dest: &StagePath) -> (s: Session)
    ensures
        s@ == SessionV::start(Mode::Link, src@, dest@),
{
    start(Mode::Link, src, dest)
}

impl Session {
    /// The operation that the driver is to perform now.
    pub fn request(&self) -> (r: Request)
        ensures
            r@ == self@.request(),
    {
        match &self.stage {
            Stage::Rooting => Request::CreateDirAll { path: self.dest.clone() },
            Stage::Listing { dir } => Request::ReadDir { path: dir.clone() },
            Stage::Visiting { path, is_dir } => Request::Visit { path: path.clone(), is_dir: *is_dir },
            Stage::Announcing { path, is_dir, target } => Request::Announce {
                directive: Directive::RerunIfChanged { path: path.clone() },
            },
            Stage::Creating { path, target } => Request::CreateDirAll { path: target.clone() },
            Stage::Copying { path, target } => Request::CopyFile {
                from: path.clone(),
                to: target.clone(),
            },
            Stage::Probing { path, target } => Request::Exists { path: target.clone() },
            Stage::Removing { path, target } => Request::RemoveFile { path: target.clone() },
            Stage::Linking { path, target } => Request::Symlink {
                target: path.clone(),
                link: target.clone(),
            },
            Stage::Finished { result } => Request::Finish { result: clone_outcome(result) },
        }
    }

    /// The outcome of the session, once it has ended.
    pub fn outcome(&self) -> (r: Option<Result<(), StageError>>)
        ensures
            match r {
                Some(result) => self@.stage == (StageV::Finished { result: outcome_view(result) }),
                None => !(self@.stage is Finished),
            },
    {
        match &self.stage {
            Stage::Finished { result } => Some(clone_outcome(result)),
            _ => None,
        }
    }

    fn at(self, stage: Stage) -> (s: Session)
        ensures
            s@ == self@.at(stage.view()),
    {
        Session { mode: self.mode, src: self.src, dest: self.dest, frames: self.frames, stage }
    }

    fn fail(self, e: StageError) -> (s: Session)
        ensures
            s@ == self@.fail(e@),
    {
        self.at(Stage::Finished { result: Err(e) })
    }

    fn enter(self, path: StagePath, is_dir: bool) -> (s: Session)
        ensures
            s@ == self@.enter(path@, is_dir),
    {
        if self.mode == Mode::Walk {
            self.at(Stage::Visiting { path, is_dir })
        } else {
            match path.relative_to(&self.src) {
                Ok(rel) => {
                    let target = self.dest.join(&rel);
                    self.at(Stage::Announcing { path, is_dir, target })
                },
                Err(e) => self.fail(e),
            }
        }
    }

    fn next_entry(self) -> (s: Session)
        ensures
            s@ == self@.next_entry(),
    {
        let ghost begin = self@;
        let Session { mode, src, dest, mut frames, stage } = self;
        loop
            invariant
                begin == self@,
                (SessionV {
                    mode,
                    src: src@,
                    dest: dest@,
                    frames: frame_views(frames@),
                    stage: stage.view(),
                }).next_entry() == begin.next_entry(),
            decreases frames.len(),
        {
            let ghost before = frames@;
            match frames.pop() {
                None => {
                    return Session { mode, src, dest, frames, stage: Stage::Finished { result: Ok(()) } };
                },
                Some(top) => {
                    proof {
                        use_type_invariant(&top);
                        assert(frame_views(frames@) =~= frame_views(before).drop_last());
                        assert(frame_views(before).last() == top.view());
                    }
                    if top.next < top.entries.len() {
                        let entry = top.entries[top.next].clone();
                        let dir = top.dir.clone();
                        let ghost rest = top.view().rest;
                        assert(rest[0] == entry@);
                        let taken_top = Frame {
                            dir: top.dir,
                            entries: top.entries,
                            next: top.next + 1,
                        };
                        assert(taken_top.view().rest =~= rest.skip(1));
                        frames.push(taken_top);
                        let taken = Session { mode, src, dest, frames, stage };
                        assert(taken@.frames =~= frame_views(before).drop_last().push(
                            FrameV { dir: dir@, rest: rest.skip(1) },
                        ));
                        return match entry {
                            Entry::Unreadable { cause } => taken.fail(
                                StageError::IoFailure {
                                    op: IoOp::ReadDir,
                                    path: dir,
                                    dest: None,
                                    cause,
                                },
                            ),
                            Entry::Found { name, is_dir } => {
                                if valid_entry_name(name.as_str()) {
                                    let path = dir.child(name.as_str());
                                    taken.enter(path, is_dir)
                                } else {
                                    taken.fail(
                                        StageError::IoFailure {
                                            op: IoOp::ReadDir,
                                            path: dir,
                                            dest: None,
                                            cause: "invalid entry name".to_owned(),
                                        },
                                    )
                                }
                            },
                        };
                    }
                    assert(top.view().rest.len() == 0);
                },
            }
        }
    }

    fn leave(self, path: StagePath, is_dir: bool) -> (s: Session)
        ensures
            s@ == self@.leave(path@, is_dir),
    {
        if is_dir {
            self.at(Stage::Listing { dir: path })
        } else {
            self.next_entry()
        }
    }

    /// The session after the driver has answered the request with `reply`.
    pub fn advance(self, reply: Reply) -> (s: Session)
        ensures
            s@ == self@.advance(reply@),
    {
        let Session { mode, src, dest, mut frames, stage } = self;
        match stage {
            Stage::Rooting => {
                let next = match reply {
                    Reply::Done => Stage::Listing { dir: src.clone() },
                    other => ended(failed(IoOp::CreateDir, dest.clone(), None, &other)),
                };
                Session { mode, src, dest, frames, stage: next }
            },
            Stage::Listing { dir } => match reply {
                Reply::Entries { entries } => {
                    let ghost before = frames@;
                    let ghost listed = entry_views(entries@);
                    let frame = Frame { dir: dir.clone(), entries, next: 0 };
                    assert(frame.view().rest =~= listed);
                    frames.push(frame);
                    let s = Session { mode, src, dest, frames, stage: Stage::Listing { dir } };
                    assert(s@.frames =~= frame_views(before).push(
                        FrameV { dir: dir@, rest: listed },
                    ));
                    s.next_entry()
                },
                other => {
                    let next = ended(failed(IoOp::ReadDir, dir, None, &other));
                    Session { mode, src, dest, frames, stage: next }
                },
            },
            Stage::Visiting { path, is_dir } => match reply {
                Reply::Done => {
                    let at = Stage::Visiting { path: path.clone(), is_dir };
                    Session { mode, src, dest, frames, stage: at }.leave(path, is_dir)
                },
                other => {
                    let next = ended(failed(IoOp::Visit, path, None, &other));
                    Session { mode, src, dest, frames, stage: next }
                },
            },
            Stage::Announcing { path, is_dir, target } => {
                let next = match reply {
                    Reply::Done => {
                        if is_dir {
                            Stage::Creating { path, target }
                        } else if mode == Mode::Link {
                            Stage::Probing { path, target }
                        } else {
                            Stage::Copying { path, target }
                        }
                    },
                    other => ended(failed(IoOp::Announce, path, None, &other)),
                };
                Session { mode, src, dest, frames, stage: next }
            },
            Stage::Creating { path, target } => match reply {
                Reply::Done => {
                    let at = Stage::Creating { path: path.clone(), target };
                    Session { mode, src, dest, frames, stage: at }.leave(path, true)
                },
                other => {
                    let next = ended(failed(IoOp::CreateDir, target, None, &other));
                    Session { mode, src, dest, frames, stage: next }
                },
            },
            Stage::Copying { path, target } => match reply {
                Reply::Done => {
                    let at = Stage::Copying { path: path.clone(), target };
                    Session { mode, src, dest, frames, stage: at }.leave(path, false)
                },
                other => {
                    let next = ended(failed(IoOp::Copy, path, Some(target), &other));
                    Session { mode, src, dest, frames, stage: next }
                },
            },
            Stage::Probing { path, target } => {
                let next = match reply {
                    Reply::Found { exists } => {
                        if exists {
                            Stage::Removing { path, target }
                        } else {
                            Stage::Linking { path, target }
                        }
                    },
                    other => ended(failed(IoOp::Probe, target, None, &other)),
                };
                Session { mode, src, dest, frames, stage: next }
            },
            Stage::Removing { path, target } => {
                let next = match reply {
                    Reply::Done => Stage::Linking { path, target },
                    other => ended(failed(IoOp::Remove, path, Some(target), &other)),
                };
                Session { mode, src, dest, frames, stage: next }
            },
            Stage::Linking { path, target } => match reply {
                Reply::Done => {
                    let at = Stage::Linking { path: path.clone(), target };
                    Session { mode, src, dest, frames, stage: at }.leave(path, false)
                },
                other => {
                    let next = ended(failed(IoOp::Link, path, Some(target), &other));
                    Session { mode, src, dest, frames, stage: next }
                },
            },
            Stage::Finished { result } => Session {
                mode,
                src,
                dest,
                frames,
                stage: Stage::Finished { result },
            },
        }
    }
}

} // verus!
