//! Staging of directory trees for a build step.
//!
//! The crate decides; its caller acts. A [`session::Session`] is a state
//! machine that says which filesystem operation comes next and takes the
//! operation's outcome as its next input, so that every rule of the mirror
//! (the order of the walk, the destination of each entry, the replacement of
//! stale links, the error that ends a run) is stated in a contract and proved.
//!
//! - [`path`] holds paths as lists of components, with the text they are
//!   written as.
//! - [`env`] holds the variables of the environment as a table, and finds
//!   what a dependency has published.
//! - [`protocol`] names the requests of a session and the replies of its
//!   driver; [`error`] names what ends a run early.
//! - [`model`] is the session as a mathematical state machine, and
//!   [`session`] the executable session that follows it step by step.
//! - [`staging`] computes the staging root of a package and starts the copies
//!   into it.
//! - [`laws`] states what holds of every run whatever the driver answers, and
//!   [`outcome`] what a run leaves behind in the filesystem of [`world`].

pub mod env;
pub mod error;
pub mod laws;
pub mod model;
pub mod outcome;
pub mod path;
pub mod protocol;
pub mod session;
pub mod staging;
pub mod world;

pub use env::{dep_value, Env};
pub use error::{IoOp, LookupCause, StageError};
pub use model::Mode;
pub use path::StagePath;
pub use protocol::{Directive, Entry, Reply, Request};
pub use session::{copy_dir, link_dir, walk_dir, Session};
pub use staging::{target_dir, OtherDir};
