//! The session as a mathematical state machine.
//!
//! A state holds the directories whose entries are still to be taken, the
//! innermost last, and the stage: the operation that is outstanding. The
//! machine is total: every state has a request, and every reply moves it on.

use crate::error::{ErrorV, IoOp};
use crate::path::{is_entry_name, join_paths, strip_base};
use crate::protocol::{reply_cause, DirectiveV, EntryV, ReplyV, RequestV};
use vstd::prelude::*;

verus! {

/// What a session does with the entries that it walks.
#[derive(Clone, Copy, Debug, PartialEq, Eq, Structural)]
pub enum Mode {
    /// Hand each entry to the visitor of the driver.
    Walk,
    /// Create each directory and copy each file below the destination.
    Copy,
    /// Create each directory and link each file below the destination.
    Link,
}

/// A directory that is being walked, with its entries not yet taken.
pub struct FrameV {
    pub dir: Seq<Seq<char>>,
    pub rest: Seq<EntryV>,
}

/// The operation that is outstanding. A stage of a mirror holds the entry
/// `path` that is being visited and its place `target` below the destination.
pub enum StageV {
    /// The destination is being created.
    Rooting,
    /// `dir` is being listed.
    Listing { dir: Seq<Seq<char>> },
    /// The visitor is at work on `path`.
    Visiting { path: Seq<Seq<char>>, is_dir: bool },
    /// `path` is being announced.
    Announcing { path: Seq<Seq<char>>, is_dir: bool, target: Seq<Seq<char>> },
    /// The directory `target` is being created.
    Creating { path: Seq<Seq<char>>, target: Seq<Seq<char>> },
    /// `path` is being copied to `target`.
    Copying { path: Seq<Seq<char>>, target: Seq<Seq<char>> },
    /// `target` is being probed.
    Probing { path: Seq<Seq<char>>, target: Seq<Seq<char>> },
    /// What was found at `target` is being removed.
    Removing { path: Seq<Seq<char>>, target: Seq<Seq<char>> },
    /// A link to `path` is being created at `target`.
    Linking { path: Seq<Seq<char>>, target: Seq<Seq<char>> },
    /// The session has ended.
    Finished { result: Result<(), ErrorV> },
}

/// The state of a session.
pub struct SessionV {
    pub mode: Mode,
    pub src: Seq<Seq<char>>,
    pub dest: Seq<Seq<char>>,
    pub frames: Seq<FrameV>,
    pub stage: StageV,
}

/// The failure of the operation `op` on `path`, as `reply` tells it.
pub open spec fn io_failure(
    op: IoOp,
    path: Seq<Seq<char>>,
    dest: Option<Seq<Seq<char>>>,
    reply: ReplyV,
) -> ErrorV {
    ErrorV::IoFailure { op, path, dest, cause: reply_cause(reply) }
}

/// The failure of a listing that holds something that is no name.
pub open spec fn bad_name(dir: Seq<Seq<char>>) -> ErrorV {
    ErrorV::IoFailure { op: IoOp::ReadDir, path: dir, dest: None, cause: "invalid entry name"@ }
}

impl SessionV {
    /// The state in which a session starts: a mirror creates its destination
    /// first, a plain walk lists its root at once.
    pub open spec fn start(mode: Mode, src: Seq<Seq<char>>, dest: Seq<Seq<char>>) -> SessionV {
        SessionV {
            mode,
            src,
            dest,
            frames: Seq::empty(),
            stage: if mode == Mode::Walk {
                StageV::Listing { dir: src }
            } else {
                StageV::Rooting
            },
        }
    }

    /// The operation that the driver is to perform in this state.
    pub open spec fn request(self) -> RequestV {
        match self.stage {
            StageV::Rooting => RequestV::CreateDirAll { path: self.dest },
            StageV::Listing { dir } => RequestV::ReadDir { path: dir },
            StageV::Visiting { path, is_dir } => RequestV::Visit { path, is_dir },
            StageV::Announcing { path, is_dir, target } => RequestV::Announce {
                directive: DirectiveV::RerunIfChanged { path },
            },
            StageV::Creating { path, target } => RequestV::CreateDirAll { path: target },
            StageV::Copying { path, target } => RequestV::CopyFile { from: path, to: target },
            StageV::Probing { path, target } => RequestV::Exists { path: target },
            StageV::Removing { path, target } => RequestV::RemoveFile { path: target },
            StageV::Linking { path, target } => RequestV::Symlink { target: path, link: target },
            StageV::Finished { result } => RequestV::Finish { result },
        }
    }

    /// This state at another stage.
    pub open spec fn at(self, stage: StageV) -> SessionV {
        SessionV { stage, ..self }
    }

    /// This state, ended by the error `e`.
    pub open spec fn fail(self, e: ErrorV) -> SessionV {
        self.at(StageV::Finished { result: Err(e) })
    }

    /// The state in which the visit of the entry `path` begins. A mirror
    /// places the entry below its destination by what lies between the
    /// source and the entry.
    pub open spec fn enter(self, path: Seq<Seq<char>>, is_dir: bool) -> SessionV {
        if self.mode == Mode::Walk {
            self.at(StageV::Visiting { path, is_dir })
        } else {
            match strip_base(path, self.src) {
                Some(rel) => self.at(
                    StageV::Announcing { path, is_dir, target: join_paths(self.dest, rel) },
                ),
                None => self.fail(ErrorV::PathError { path, root: self.src }),
            }
        }
    }

    /// The state after taking the next entry: directories without entries
    /// left are dropped, the session ends when none is left, and the first
    /// entry left of the innermost directory is entered, unless it could not
    /// be read or has no valid name.
    pub open spec fn next_entry(self) -> SessionV
        decreases self.frames.len(),
    {
        if self.frames.len() == 0 {
            self.at(StageV::Finished { result: Ok(()) })
        } else {
            let top = self.frames.last();
            if top.rest.len() == 0 {
                SessionV { frames: self.frames.drop_last(), ..self }.next_entry()
            } else {
                let taken = SessionV {
                    frames: self.frames.drop_last().push(
                        FrameV { dir: top.dir, rest: top.rest.skip(1) },
                    ),
                    ..self
                };
                match top.rest[0] {
                    EntryV::Unreadable { cause } => taken.fail(
                        ErrorV::IoFailure { op: IoOp::ReadDir, path: top.dir, dest: None, cause },
                    ),
                    EntryV::Found { name, is_dir } => if is_entry_name(name) {
                        taken.enter(top.dir.push(name), is_dir)
                    } else {
                        taken.fail(bad_name(top.dir))
                    },
                }
            }
        }
    }

    /// The state after the visit of the entry `path`: a directory is listed
    /// next, so that its entries come before its later siblings.
    pub open spec fn leave(self, path: Seq<Seq<char>>, is_dir: bool) -> SessionV {
        if is_dir {
            self.at(StageV::Listing { dir: path })
        } else {
            self.next_entry()
        }
    }

    /// The state after the driver has answered the request with `reply`. An
    /// answer other than the success that the request awaits ends the
    /// session with the failure of that operation.
    pub open spec fn advance(self, reply: ReplyV) -> SessionV {
        match self.stage {
            StageV::Rooting => if reply is Done {
                self.at(StageV::Listing { dir: self.src })
            } else {
                self.fail(io_failure(IoOp::CreateDir, self.dest, None, reply))
            },
            StageV::Listing { dir } => match reply {
                ReplyV::Entries { entries } => SessionV {
                    frames: self.frames.push(FrameV { dir, rest: entries }),
                    ..self
                }.next_entry(),
                _ => self.fail(io_failure(IoOp::ReadDir, dir, None, reply)),
            },
            StageV::Visiting { path, is_dir } => if reply is Done {
                self.leave(path, is_dir)
            } else {
                self.fail(io_failure(IoOp::Visit, path, None, reply))
            },
            StageV::Announcing { path, is_dir, target } => if reply is Done {
                if is_dir {
                    self.at(StageV::Creating { path, target })
                } else if self.mode == Mode::Link {
                    self.at(StageV::Probing { path, target })
                } else {
                    self.at(StageV::Copying { path, target })
                }
            } else {
                self.fail(io_failure(IoOp::Announce, path, None, reply))
            },
            StageV::Creating { path, target } => if reply is Done {
                self.leave(path, true)
            } else {
                self.fail(io_failure(IoOp::CreateDir, target, None, reply))
            },
            StageV::Copying { path, target } => if reply is Done {
                self.leave(path, false)
            } else {
                self.fail(io_failure(IoOp::Copy, path, Some(target), reply))
            },
            StageV::Probing { path, target } => match reply {
                ReplyV::Found { exists } => if exists {
                    self.at(StageV::Removing { path, target })
                } else {
                    self.at(StageV::Linking { path, target })
                },
                _ => self.fail(io_failure(IoOp::Probe, target, None, reply)),
            },
            StageV::Removing { path, target } => if reply is Done {
                self.at(StageV::Linking { path, target })
            } else {
                self.fail(io_failure(IoOp::Remove, path, Some(target), reply))
            },
            StageV::Linking { path, target } => if reply is Done {
                self.leave(path, false)
            } else {
                self.fail(io_failure(IoOp::Link, path, Some(target), reply))
            },
            StageV::Finished { result } => self,
        }
    }

    /// The state after the driver has answered one request after the other
    /// with `replies`.
    pub open spec fn run(self, replies: Seq<ReplyV>) -> SessionV
        decreases replies.len(),
    {
        if replies.len() == 0 {
            self
        } else {
            self.run(replies.drop_last()).advance(replies.last())
        }
    }

    /// The requests of a run, from the first to the one that is outstanding
    /// after the last of `replies`.
    pub open spec fn requests(self, replies: Seq<ReplyV>) -> Seq<RequestV>
        decreases replies.len(),
    {
        if replies.len() == 0 {
            seq![self.request()]
        } else {
            self.requests(replies.drop_last()).push(self.run(replies).request())
        }
    }
}

} // verus!
