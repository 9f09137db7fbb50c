use stagedir::{
    copy_dir, link_dir, walk_dir, Directive, Entry, Env, IoOp, LookupCause, OtherDir, Reply,
    Request, Session, StageError, StagePath,
};
use std::collections::BTreeMap;

#[derive(Clone, Debug, PartialEq)]
enum Node {
    Dir,
    File(Vec<u8>),
    Link(String),
}

/// A filesystem in memory that answers the requests of a session.
struct World {
    nodes: BTreeMap<String, Node>,
    lines: Vec<String>,
    visits: Vec<(String, bool)>,
    requests: Vec<Request>,
    deny: Option<String>,
    deny_visit: Option<String>,
}

fn path(text: &str) -> StagePath {
    StagePath::parse(text)
}

fn parent(text: &str) -> Option<&str> {
    text.rfind('/').map(|i| &text[..i])
}

impl World {
    fn new() -> World {
        World {
            nodes: BTreeMap::new(),
            lines: Vec::new(),
            visits: Vec::new(),
            requests: Vec::new(),
            deny: None,
            deny_visit: None,
        }
    }

    fn dir(mut self, at: &str) -> World {
        self.nodes.insert(at.to_string(), Node::Dir);
        self
    }

    fn file(mut self, at: &str, content: &str) -> World {
        self.nodes.insert(at.to_string(), Node::File(content.as_bytes().to_vec()));
        self
    }

    fn link(mut self, at: &str, target: &str) -> World {
        self.nodes.insert(at.to_string(), Node::Link(target.to_string()));
        self
    }

    fn get(&self, at: &str) -> Option<&Node> {
        self.nodes.get(at)
    }

    fn below(&self, root: &str) -> Vec<(String, Node)> {
        let prefix = format!("{}/", root);
        self.nodes
            .iter()
            .filter(|(k, _)| k.starts_with(&prefix))
            .map(|(k, v)| (k[prefix.len()..].to_string(), v.clone()))
            .collect()
    }

    fn list(&self, dir: &str) -> Reply {
        if self.nodes.get(dir) != Some(&Node::Dir) {
            return Reply::Failed { cause: "not a directory".to_string() };
        }
        let prefix = format!("{}/", dir);
        let mut entries = Vec::new();
        for (k, v) in &self.nodes {
            if k.starts_with(&prefix) && !k[prefix.len()..].contains('/') {
                entries.push(Entry::Found {
                    name: k[prefix.len()..].to_string(),
                    is_dir: *v == Node::Dir,
                });
            }
        }
        Reply::Entries { entries }
    }

    fn create_dir_all(&mut self, at: &str) -> Reply {
        let mut upto = String::new();
        for (i, part) in at.split('/').enumerate() {
            if i > 0 {
                upto.push('/');
            }
            upto.push_str(part);
            if upto.is_empty() {
                continue;
            }
            match self.nodes.get(&upto) {
                Some(Node::Dir) => {}
                Some(_) => return Reply::Failed { cause: "file exists".to_string() },
                None => {
                    self.nodes.insert(upto.clone(), Node::Dir);
                }
            }
        }
        Reply::Done
    }

    fn answer(&mut self, request: &Request) -> Reply {
        self.requests.push(request.clone());
        let denied = |p: &StagePath, deny: &Option<String>| deny.as_deref() == Some(&p.render()[..]);
        match request {
            Request::CreateDirAll { path } => {
                if denied(path, &self.deny) {
                    return Reply::Failed { cause: "permission denied".to_string() };
                }
                self.create_dir_all(&path.render())
            }
            Request::ReadDir { path } => {
                if denied(path, &self.deny) {
                    return Reply::Failed { cause: "permission denied".to_string() };
                }
                self.list(&path.render())
            }
            Request::Visit { path, is_dir } => {
                self.visits.push((path.render(), *is_dir));
                if denied(path, &self.deny_visit) {
                    return Reply::Failed { cause: "visitor gave up".to_string() };
                }
                Reply::Done
            }
            Request::Announce { directive } => {
                self.lines.push(directive.line());
                Reply::Done
            }
            Request::CopyFile { from, to } => {
                let to = to.render();
                if denied(from, &self.deny) {
                    return Reply::Failed { cause: "permission denied".to_string() };
                }
                let content = match self.nodes.get(&from.render()) {
                    Some(Node::File(content)) => content.clone(),
                    _ => return Reply::Failed { cause: "not a file".to_string() },
                };
                if parent(&to).map(|p| self.nodes.get(p)) != Some(Some(&Node::Dir)) {
                    return Reply::Failed { cause: "no such directory".to_string() };
                }
                if self.nodes.get(&to) == Some(&Node::Dir) {
                    return Reply::Failed { cause: "is a directory".to_string() };
                }
                self.nodes.insert(to, Node::File(content));
                Reply::Done
            }
            Request::Exists { path } => Reply::Found { exists: self.nodes.contains_key(&path.render()) },
            Request::RemoveFile { path } => {
                if denied(path, &self.deny) {
                    return Reply::Failed { cause: "permission denied".to_string() };
                }
                match self.nodes.get(&path.render()) {
                    Some(Node::File(_)) | Some(Node::Link(_)) => {
                        self.nodes.remove(&path.render());
                        Reply::Done
                    }
                    _ => Reply::Failed { cause: "is a directory".to_string() },
                }
            }
            Request::Symlink { target, link } => {
                let link = link.render();
                if self.nodes.contains_key(&link) {
                    return Reply::Failed { cause: "file exists".to_string() };
                }
                if parent(&link).map(|p| self.nodes.get(p)) != Some(Some(&Node::Dir)) {
                    return Reply::Failed { cause: "no such directory".to_string() };
                }
                self.nodes.insert(link, Node::Link(target.render()));
                Reply::Done
            }
            Request::Finish { .. } => unreachable!(),
        }
    }

    fn run(&mut self, mut session: Session) -> Result<(), StageError> {
        for _ in 0..10_000 {
            match session.request() {
                Request::Finish { result } => {
                    assert_eq!(session.outcome(), Some(result.clone()));
                    return result;
                }
                request => {
                    assert_eq!(session.outcome(), None);
                    let reply = self.answer(&request);
                    session = session.advance(reply);
                }
            }
        }
        panic!("the session did not end");
    }
}

fn source() -> World {
    World::new()
        .dir("src")
        .file("src/a.txt", "alpha")
        .dir("src/sub")
        .file("src/sub/b.txt", "beta")
        .dir("src/sub/deep")
        .file("src/sub/deep/c.txt", "gamma")
        .file("src/z.txt", "omega")
}

fn found(name: &str, is_dir: bool) -> Entry {
    Entry::Found { name: name.to_string(), is_dir }
}

fn index_of(requests: &[Request], wanted: &Request) -> usize {
    requests.iter().position(|r| r == wanted).unwrap()
}

#[test]
fn walk_of_an_empty_directory_visits_nothing() {
    let mut world = World::new().dir("src");
    assert_eq!(world.run(walk_dir(&path("src"))), Ok(()));
    assert!(world.visits.is_empty());
    assert_eq!(world.requests, vec![Request::ReadDir { path: path("src") }]);
}

#[test]
fn walk_visits_every_entry_once_in_pre_order() {
    let mut world = source();
    assert_eq!(world.run(walk_dir(&path("src"))), Ok(()));
    let expected: Vec<(String, bool)> = [
        ("src/a.txt", false),
        ("src/sub", true),
        ("src/sub/b.txt", false),
        ("src/sub/deep", true),
        ("src/sub/deep/c.txt", false),
        ("src/z.txt", false),
    ]
    .iter()
    .map(|(p, d)| (p.to_string(), *d))
    .collect();
    assert_eq!(world.visits, expected);
}

#[test]
fn walk_visits_a_directory_before_it_lists_it() {
    let mut world = source();
    world.run(walk_dir(&path("src"))).unwrap();
    let visit = index_of(&world.requests, &Request::Visit { path: path("src/sub"), is_dir: true });
    let list = index_of(&world.requests, &Request::ReadDir { path: path("src/sub") });
    let inner = index_of(
        &world.requests,
        &Request::Visit { path: path("src/sub/b.txt"), is_dir: false },
    );
    assert!(visit < list && list < inner);
}

#[test]
fn walk_follows_the_order_of_the_listing() {
    let session = walk_dir(&path("r"));
    let session = session.advance(Reply::Entries {
        entries: vec![found("z", false), found("m", true), found("a", false)],
    });
    assert_eq!(session.request(), Request::Visit { path: path("r/z"), is_dir: false });
    let session = session.advance(Reply::Done);
    assert_eq!(session.request(), Request::Visit { path: path("r/m"), is_dir: true });
    let session = session.advance(Reply::Done);
    assert_eq!(session.request(), Request::ReadDir { path: path("r/m") });
    let session = session.advance(Reply::Entries { entries: vec![found("k", false)] });
    assert_eq!(session.request(), Request::Visit { path: path("r/m/k"), is_dir: false });
    let session = session.advance(Reply::Done);
    assert_eq!(session.request(), Request::Visit { path: path("r/a"), is_dir: false });
    let session = session.advance(Reply::Done);
    assert_eq!(session.request(), Request::Finish { result: Ok(()) });
}

#[test]
fn walk_stops_at_a_listing_that_fails() {
    let mut world = source();
    world.deny = Some("src/sub".to_string());
    let result = world.run(walk_dir(&path("src")));
    assert_eq!(
        result,
        Err(StageError::IoFailure {
            op: IoOp::ReadDir,
            path: path("src/sub"),
            dest: None,
            cause: "permission denied".to_string(),
        })
    );
    assert_eq!(world.visits, vec![("src/a.txt".to_string(), false), ("src/sub".to_string(), true)]);
}

#[test]
fn walk_stops_at_a_visit_that_fails() {
    let mut world = source();
    world.deny_visit = Some("src/sub/b.txt".to_string());
    let error = world.run(walk_dir(&path("src"))).unwrap_err();
    assert_eq!(
        error,
        StageError::IoFailure {
            op: IoOp::Visit,
            path: path("src/sub/b.txt"),
            dest: None,
            cause: "visitor gave up".to_string(),
        }
    );
    assert_eq!(error.message(), "visitor gave up");
    assert_eq!(world.visits.len(), 3);
    assert_eq!(world.requests.len(), 5);
}

#[test]
fn walk_reports_a_root_that_cannot_be_listed() {
    let mut world = World::new();
    let result = world.run(walk_dir(&path("missing")));
    let error = result.unwrap_err();
    assert_eq!(
        error,
        StageError::IoFailure {
            op: IoOp::ReadDir,
            path: path("missing"),
            dest: None,
            cause: "not a directory".to_string(),
        }
    );
    assert_eq!(error.message(), "not a directory");
}

#[test]
fn walk_stops_at_an_entry_that_cannot_be_read() {
    let session = walk_dir(&path("r")).advance(Reply::Entries {
        entries: vec![
            found("a", false),
            Entry::Unreadable { cause: "stale handle".to_string() },
            found("b", false),
        ],
    });
    assert_eq!(session.request(), Request::Visit { path: path("r/a"), is_dir: false });
    let session = session.advance(Reply::Done);
    assert_eq!(
        session.request(),
        Request::Finish {
            result: Err(StageError::IoFailure {
                op: IoOp::ReadDir,
                path: path("r"),
                dest: None,
                cause: "stale handle".to_string(),
            })
        }
    );
}

#[test]
fn walk_refuses_an_entry_without_a_valid_name() {
    for name in ["", ".", "..", "a/b", "/"] {
        let session = walk_dir(&path("r")).advance(Reply::Entries { entries: vec![found(name, false)] });
        assert_eq!(
            session.request(),
            Request::Finish {
                result: Err(StageError::IoFailure {
                    op: IoOp::ReadDir,
                    path: path("r"),
                    dest: None,
                    cause: "invalid entry name".to_string(),
                })
            },
            "{:?}",
            name
        );
    }
}

#[test]
fn an_answer_of_the_wrong_kind_ends_the_session() {
    let session = walk_dir(&path("r")).advance(Reply::Done);
    assert_eq!(
        session.request(),
        Request::Finish {
            result: Err(StageError::IoFailure {
                op: IoOp::ReadDir,
                path: path("r"),
                dest: None,
                cause: "unexpected reply".to_string(),
            })
        }
    );
    let session = copy_dir(&path("s"), &path("d")).advance(Reply::Found { exists: true });
    assert_eq!(
        session.request(),
        Request::Finish {
            result: Err(StageError::IoFailure {
                op: IoOp::CreateDir,
                path: path("d"),
                dest: None,
                cause: "unexpected reply".to_string(),
            })
        }
    );
}

#[test]
fn a_session_that_has_ended_stays_as_it_is() {
    let ended = walk_dir(&path("r")).advance(Reply::Entries { entries: vec![] });
    assert_eq!(ended.request(), Request::Finish { result: Ok(()) });
    let after = ended.advance(Reply::Failed { cause: "late".to_string() });
    assert_eq!(after.request(), Request::Finish { result: Ok(()) });
    assert_eq!(after.outcome(), Some(Ok(())));
}

#[test]
fn copy_mirrors_the_tree_of_the_example() {
    let mut world = World::new()
        .dir("src")
        .file("src/a.txt", "alpha")
        .dir("src/sub")
        .file("src/sub/b.txt", "beta");
    assert_eq!(world.run(copy_dir(&path("src"), &path("dest"))), Ok(()));
    assert_eq!(world.get("dest"), Some(&Node::Dir));
    assert_eq!(world.get("dest/a.txt"), Some(&Node::File(b"alpha".to_vec())));
    assert_eq!(world.get("dest/sub"), Some(&Node::Dir));
    assert_eq!(world.get("dest/sub/b.txt"), Some(&Node::File(b"beta".to_vec())));
    let made = index_of(&world.requests, &Request::CreateDirAll { path: path("dest/sub") });
    let copied = index_of(
        &world.requests,
        &Request::CopyFile { from: path("src/sub/b.txt"), to: path("dest/sub/b.txt") },
    );
    assert!(made < copied);
}

#[test]
fn copy_asks_for_each_operation_in_turn() {
    let mut world = World::new().dir("src").file("src/a.txt", "alpha").dir("src/sub");
    world.run(copy_dir(&path("src"), &path("out/dest"))).unwrap();
    let announce = |p: &str| Request::Announce { directive: Directive::RerunIfChanged { path: path(p) } };
    assert_eq!(
        world.requests,
        vec![
            Request::CreateDirAll { path: path("out/dest") },
            Request::ReadDir { path: path("src") },
            announce("src/a.txt"),
            Request::CopyFile { from: path("src/a.txt"), to: path("out/dest/a.txt") },
            announce("src/sub"),
            Request::CreateDirAll { path: path("out/dest/sub") },
            Request::ReadDir { path: path("src/sub") },
        ]
    );
}

#[test]
fn copy_places_entries_of_any_depth_below_the_destination() {
    let mut world = source();
    world.run(copy_dir(&path("src"), &path("/out/pkg"))).unwrap();
    assert_eq!(world.below("/out/pkg"), world.below("src"));
    assert_eq!(world.get("/out/pkg/sub/deep/c.txt"), Some(&Node::File(b"gamma".to_vec())));
}

#[test]
fn copy_announces_every_entry_of_the_source() {
    let mut world = source();
    world.run(copy_dir(&path("src"), &path("dest"))).unwrap();
    assert_eq!(
        world.lines,
        vec![
            "cargo:rerun-if-changed=src/a.txt",
            "cargo:rerun-if-changed=src/sub",
            "cargo:rerun-if-changed=src/sub/b.txt",
            "cargo:rerun-if-changed=src/sub/deep",
            "cargo:rerun-if-changed=src/sub/deep/c.txt",
            "cargo:rerun-if-changed=src/z.txt",
        ]
    );
}

#[test]
fn copy_twice_leaves_the_destination_equal_to_the_source() {
    let mut world = source();
    world.run(copy_dir(&path("src"), &path("dest"))).unwrap();
    let once = world.nodes.clone();
    world.run(copy_dir(&path("src"), &path("dest"))).unwrap();
    assert_eq!(world.nodes, once);
    assert_eq!(world.below("dest"), world.below("src"));
}

#[test]
fn copy_replaces_a_file_that_is_there() {
    let mut world = source().dir("dest").file("dest/a.txt", "old").file("dest/keep.txt", "kept");
    world.run(copy_dir(&path("src"), &path("dest"))).unwrap();
    assert_eq!(world.get("dest/a.txt"), Some(&Node::File(b"alpha".to_vec())));
    assert_eq!(world.get("dest/keep.txt"), Some(&Node::File(b"kept".to_vec())));
}

#[test]
fn copy_of_an_empty_source_creates_the_destination() {
    let mut world = World::new().dir("src");
    assert_eq!(world.run(copy_dir(&path("src"), &path("a/b/c"))), Ok(()));
    assert_eq!(world.get("a"), Some(&Node::Dir));
    assert_eq!(world.get("a/b/c"), Some(&Node::Dir));
    assert!(world.lines.is_empty());
}

#[test]
fn copy_fails_when_the_destination_cannot_be_created() {
    let mut world = source().file("dest", "in the way");
    let error = world.run(copy_dir(&path("src"), &path("dest"))).unwrap_err();
    assert_eq!(
        error,
        StageError::IoFailure {
            op: IoOp::CreateDir,
            path: path("dest"),
            dest: None,
            cause: "file exists".to_string(),
        }
    );
    assert_eq!(error.message(), "\"dest\":file exists");
    assert_eq!(world.requests.len(), 1);
}

#[test]
fn copy_fails_when_a_directory_cannot_be_created() {
    let mut world = source().dir("dest").file("dest/sub", "in the way");
    let error = world.run(copy_dir(&path("src"), &path("dest"))).unwrap_err();
    assert_eq!(
        error,
        StageError::IoFailure {
            op: IoOp::CreateDir,
            path: path("dest/sub"),
            dest: None,
            cause: "file exists".to_string(),
        }
    );
    assert_eq!(world.get("dest/a.txt"), Some(&Node::File(b"alpha".to_vec())));
    assert_eq!(world.get("dest/z.txt"), None);
}

#[test]
fn copy_fails_with_both_paths_when_a_file_cannot_be_copied() {
    let mut world = source();
    world.deny = Some("src/sub/b.txt".to_string());
    let error = world.run(copy_dir(&path("src"), &path("dest"))).unwrap_err();
    assert_eq!(
        error,
        StageError::IoFailure {
            op: IoOp::Copy,
            path: path("src/sub/b.txt"),
            dest: Some(path("dest/sub/b.txt")),
            cause: "permission denied".to_string(),
        }
    );
    assert_eq!(error.message(), "Copy \"src/sub/b.txt\" to \"dest/sub/b.txt\":permission denied");
}

#[test]
fn copy_fails_when_the_source_cannot_be_listed() {
    let mut world = World::new();
    let error = world.run(copy_dir(&path("src"), &path("dest"))).unwrap_err();
    assert_eq!(
        error,
        StageError::IoFailure {
            op: IoOp::ReadDir,
            path: path("src"),
            dest: None,
            cause: "not a directory".to_string(),
        }
    );
    assert_eq!(world.get("dest"), Some(&Node::Dir));
}

#[test]
fn link_points_each_file_of_the_destination_at_its_source() {
    let mut world = source();
    assert_eq!(world.run(link_dir(&path("src"), &path("dest"))), Ok(()));
    assert_eq!(world.get("dest/a.txt"), Some(&Node::Link("src/a.txt".to_string())));
    assert_eq!(world.get("dest/sub"), Some(&Node::Dir));
    assert_eq!(world.get("dest/sub/b.txt"), Some(&Node::Link("src/sub/b.txt".to_string())));
    assert_eq!(
        world.get("dest/sub/deep/c.txt"),
        Some(&Node::Link("src/sub/deep/c.txt".to_string()))
    );
    assert_eq!(world.lines.len(), 6);
}

#[test]
fn link_replaces_a_stale_link_and_a_file() {
    let mut world = source()
        .dir("dest")
        .link("dest/a.txt", "gone/a.txt")
        .file("dest/z.txt", "old bytes");
    assert_eq!(world.run(link_dir(&path("src"), &path("dest"))), Ok(()));
    assert_eq!(world.get("dest/a.txt"), Some(&Node::Link("src/a.txt".to_string())));
    assert_eq!(world.get("dest/z.txt"), Some(&Node::Link("src/z.txt".to_string())));
}

#[test]
fn link_removes_only_what_is_there() {
    let mut world = World::new().dir("src").file("src/a", "1").file("src/b", "2").dir("dest").file("dest/b", "old");
    world.run(link_dir(&path("src"), &path("dest"))).unwrap();
    let removals: Vec<&Request> =
        world.requests.iter().filter(|r| matches!(r, Request::RemoveFile { .. })).collect();
    assert_eq!(removals, vec![&Request::RemoveFile { path: path("dest/b") }]);
    let ask = index_of(&world.requests, &Request::Exists { path: path("dest/b") });
    let remove = index_of(&world.requests, &Request::RemoveFile { path: path("dest/b") });
    let link = index_of(
        &world.requests,
        &Request::Symlink { target: path("src/b"), link: path("dest/b") },
    );
    assert!(ask < remove && remove < link);
}

#[test]
fn link_twice_gives_the_same_links() {
    let mut world = source();
    world.run(link_dir(&path("src"), &path("dest"))).unwrap();
    let once = world.nodes.clone();
    world.run(link_dir(&path("src"), &path("dest"))).unwrap();
    assert_eq!(world.nodes, once);
}

#[test]
fn link_fails_when_what_is_there_cannot_be_removed() {
    let mut world = source().dir("dest").dir("dest/a.txt");
    let error = world.run(link_dir(&path("src"), &path("dest"))).unwrap_err();
    assert_eq!(
        error,
        StageError::IoFailure {
            op: IoOp::Remove,
            path: path("src/a.txt"),
            dest: Some(path("dest/a.txt")),
            cause: "is a directory".to_string(),
        }
    );
    assert_eq!(error.message(), "Link \"src/a.txt\" to \"dest/a.txt\":is a directory");
}

#[test]
fn link_fails_when_the_link_cannot_be_created() {
    let session = link_dir(&path("s"), &path("d"))
        .advance(Reply::Done)
        .advance(Reply::Entries { entries: vec![found("f", false)] })
        .advance(Reply::Done)
        .advance(Reply::Found { exists: false });
    assert_eq!(session.request(), Request::Symlink { target: path("s/f"), link: path("d/f") });
    let session = session.advance(Reply::Failed { cause: "read-only".to_string() });
    assert_eq!(
        session.outcome(),
        Some(Err(StageError::IoFailure {
            op: IoOp::Link,
            path: path("s/f"),
            dest: Some(path("d/f")),
            cause: "read-only".to_string(),
        }))
    );
}

#[test]
fn a_probe_that_fails_ends_the_link() {
    let session = link_dir(&path("s"), &path("d"))
        .advance(Reply::Done)
        .advance(Reply::Entries { entries: vec![found("f", false)] })
        .advance(Reply::Done);
    assert_eq!(session.request(), Request::Exists { path: path("d/f") });
    let error = session.advance(Reply::Failed { cause: "denied".to_string() }).outcome().unwrap().unwrap_err();
    assert_eq!(
        error,
        StageError::IoFailure { op: IoOp::Probe, path: path("d/f"), dest: None, cause: "denied".to_string() }
    );
    assert_eq!(error.message(), "\"d/f\":denied");
}

#[test]
fn an_announcement_that_fails_ends_the_mirror() {
    let session = copy_dir(&path("s"), &path("d"))
        .advance(Reply::Done)
        .advance(Reply::Entries { entries: vec![found("f", false)] });
    assert_eq!(
        session.request(),
        Request::Announce { directive: Directive::RerunIfChanged { path: path("s/f") } }
    );
    let error = session.advance(Reply::Failed { cause: "closed".to_string() }).outcome().unwrap().unwrap_err();
    assert_eq!(
        error,
        StageError::IoFailure { op: IoOp::Announce, path: path("s/f"), dest: None, cause: "closed".to_string() }
    );
}

#[test]
fn mirror_relativizes_against_the_source_that_it_was_given() {
    let session = copy_dir(&path("/w/src"), &path("out"))
        .advance(Reply::Done)
        .advance(Reply::Entries { entries: vec![found("a", true)] })
        .advance(Reply::Done)
        .advance(Reply::Done)
        .advance(Reply::Entries { entries: vec![found("b", true)] })
        .advance(Reply::Done)
        .advance(Reply::Done)
        .advance(Reply::Entries { entries: vec![found("c", false)] })
        .advance(Reply::Done);
    assert_eq!(
        session.request(),
        Request::CopyFile { from: path("/w/src/a/b/c"), to: path("out/a/b/c") }
    );
}

#[test]
fn mirror_into_the_empty_path_places_entries_as_they_are() {
    let session = copy_dir(&path("src"), &StagePath::new())
        .advance(Reply::Done)
        .advance(Reply::Entries { entries: vec![found("a", false)] })
        .advance(Reply::Done);
    assert_eq!(session.request(), Request::CopyFile { from: path("src/a"), to: path("a") });
}

#[test]
fn directive_lines_are_written_for_the_build_orchestrator() {
    assert_eq!(
        Directive::RerunIfChanged { path: path("src/a b.txt") }.line(),
        "cargo:rerun-if-changed=src/a b.txt"
    );
    assert_eq!(
        Directive::Publish { key: "include".to_string(), value: path("/out/pkg") }.line(),
        "cargo:include=/out/pkg"
    );
}

#[test]
fn requests_and_errors_copy_and_compare_by_value() {
    let request = Request::Symlink { target: path("a"), link: path("b") };
    assert_eq!(request.clone(), request);
    assert_ne!(request, Request::Symlink { target: path("b"), link: path("a") });
    assert_ne!(request, Request::CopyFile { from: path("a"), to: path("b") });
    let error = StageError::PathError { path: path("a"), root: path("b") };
    assert_eq!(error.clone(), error);
    assert_eq!(error.message(), "prefix not found");
    assert_eq!(Reply::Found { exists: true }.cause(), "unexpected reply");
    assert_eq!(Reply::Failed { cause: "x".to_string() }.cause(), "x");
}

fn staged() -> (World, Env) {
    let world = World::new()
        .dir("/deps")
        .dir("/deps/a")
        .file("/deps/a/same.h", "from a")
        .file("/deps/a/only_a.h", "a")
        .dir("/deps/b")
        .file("/deps/b/same.h", "from b")
        .dir("/deps/b/inc")
        .file("/deps/b/inc/deep.h", "b");
    let mut env = Env::new();
    env.set("OUT_DIR", "/out");
    env.set("CARGO_MANIFEST_LINKS", "pkg");
    env.set("DEP_A_INCLUDE", "/deps/a");
    env.set("DEP_B_INCLUDE", "/deps/b");
    (world, env)
}

#[test]
fn dependencies_added_under_their_names_do_not_collide() {
    let (mut world, env) = staged();
    let (dir, _) = OtherDir::new("include", &env).unwrap();
    world.run(dir.add_dep("a", &env).unwrap()).unwrap();
    world.run(dir.add_dep("b", &env).unwrap()).unwrap();
    assert_eq!(world.get("/out/pkg/a/same.h"), Some(&Node::File(b"from a".to_vec())));
    assert_eq!(world.get("/out/pkg/b/same.h"), Some(&Node::File(b"from b".to_vec())));
    assert_eq!(world.below("/out/pkg/a"), world.below("/deps/a"));
    assert_eq!(world.below("/out/pkg/b"), world.below("/deps/b"));
}

#[test]
fn of_two_merged_dependencies_the_later_wins() {
    let (mut world, env) = staged();
    let (dir, _) = OtherDir::new("include", &env).unwrap();
    world.run(dir.merge_dep("a", &env).unwrap()).unwrap();
    assert_eq!(world.get("/out/pkg/same.h"), Some(&Node::File(b"from a".to_vec())));
    world.run(dir.merge_dep("b", &env).unwrap()).unwrap();
    assert_eq!(world.get("/out/pkg/same.h"), Some(&Node::File(b"from b".to_vec())));
    assert_eq!(world.get("/out/pkg/only_a.h"), Some(&Node::File(b"a".to_vec())));
    assert_eq!(world.get("/out/pkg/inc/deep.h"), Some(&Node::File(b"b".to_vec())));
}

#[test]
fn a_missing_dependency_leaves_the_filesystem_alone() {
    let (world, env) = staged();
    let before = world.nodes.clone();
    let (dir, _) = OtherDir::new("include", &env).unwrap();
    let missing = StageError::LookupMissing {
        name: "DEP_C_INCLUDE".to_string(),
        reason: LookupCause::NotPresent,
    };
    assert_eq!(dir.add_dep("c", &env).unwrap_err(), missing);
    assert_eq!(dir.merge_dep("c", &env).unwrap_err(), missing);
    assert_eq!(world.nodes, before);
    assert!(world.requests.is_empty());
}

#[test]
fn add_dir_copies_a_directory_into_the_root() {
    let (mut world, env) = staged();
    let (dir, notice) = OtherDir::new("include", &env).unwrap();
    assert_eq!(notice.line(), "cargo:include=/out/pkg");
    world.run(dir.add_dir(&path("/deps/b"))).unwrap();
    assert_eq!(world.below("/out/pkg"), world.below("/deps/b"));
    assert_eq!(world.get("/out"), Some(&Node::Dir));
}
