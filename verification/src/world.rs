//! A filesystem in the small.
//!
//! The filesystem is a table from paths to nodes. It answers the requests of
//! a session as a real one does where the request can be met, and refuses
//! where this table cannot tell: links are not followed, so that a copy from
//! a link or onto one is refused.

use crate::laws::{at_or_below, below, lemma_below_child, lemma_place, mirror_of};
use crate::model::{FrameV, Mode, SessionV, StageV};
use crate::path::is_entry_name;
use crate::protocol::{EntryV, ReplyV, RequestV};
use vstd::prelude::*;

verus! {

/// What a path of the filesystem holds.
pub enum NodeV {
    Dir,
    File { content: Seq<u8> },
    Link { target: Seq<Seq<char>> },
}

/// A filesystem: what each path holds that holds anything.
pub type Fs = Map<Seq<Seq<char>>, NodeV>;

/// `p` can hold entries: it is a directory, or the empty path, which stands
/// for the directory that relative paths start from.
pub open spec fn has_dir(fs: Fs, p: Seq<Seq<char>>) -> bool {
    p.len() == 0 || (fs.contains_key(p) && fs[p] is Dir)
}

/// Nothing but directories stands where `path` and its ancestors are to be.
pub open spec fn can_create(fs: Fs, path: Seq<Seq<char>>) -> bool {
    forall|q: Seq<Seq<char>>|
        q.len() > 0 && q.is_prefix_of(path) && #[trigger] fs.contains_key(q) ==> fs[q] is Dir
}

/// `fs` with a directory at `path` and at each ancestor of it that was missing.
pub open spec fn with_dirs(fs: Fs, path: Seq<Seq<char>>) -> Fs {
    Map::new(
        |q: Seq<Seq<char>>| fs.contains_key(q) || (q.len() > 0 && q.is_prefix_of(path)),
        |q: Seq<Seq<char>>|
            if fs.contains_key(q) {
                fs[q]
            } else {
                NodeV::Dir
            },
    )
}

/// The filesystem after the operation `req`, and the answer to it. `lister`
/// gives the order in which each directory hands out its entries.
pub open spec fn answer(
    fs: Fs,
    lister: spec_fn(Seq<Seq<char>>) -> Seq<EntryV>,
    req: RequestV,
) -> (Fs, ReplyV) {
    let refused = (fs, ReplyV::Failed { cause: "refused"@ });
    match req {
        RequestV::CreateDirAll { path } => if can_create(fs, path) {
            (with_dirs(fs, path), ReplyV::Done)
        } else {
            refused
        },
        RequestV::ReadDir { path } => if fs.contains_key(path) && fs[path] is Dir {
            (fs, ReplyV::Entries { entries: lister(path) })
        } else {
            refused
        },
        RequestV::Visit { path, is_dir } => (fs, ReplyV::Done),
        RequestV::Announce { directive } => (fs, ReplyV::Done),
        RequestV::CopyFile { from, to } => if fs.contains_key(from) && fs[from] is File && has_dir(
            fs,
            to.drop_last(),
        ) && (fs.contains_key(to) ==> fs[to] is File) {
            (fs.insert(to, fs[from]), ReplyV::Done)
        } else {
            refused
        },
        RequestV::Exists { path } => (fs, ReplyV::Found { exists: fs.contains_key(path) }),
        RequestV::RemoveFile { path } => if fs.contains_key(path) && !(fs[path] is Dir) {
            (fs.remove(path), ReplyV::Done)
        } else {
            refused
        },
        RequestV::Symlink { target, link } => if !fs.contains_key(link) && has_dir(
            fs,
            link.drop_last(),
        ) {
            (fs.insert(link, NodeV::Link { target }), ReplyV::Done)
        } else {
            refused
        },
        RequestV::Finish { result } => (fs, ReplyV::Done),
    }
}

/// The session and the filesystem after at most `fuel` operations, each
/// answered by the filesystem.
pub open spec fn play(
    s: SessionV,
    fs: Fs,
    lister: spec_fn(Seq<Seq<char>>) -> Seq<EntryV>,
    fuel: nat,
) -> (SessionV, Fs)
    decreases fuel,
{
    if fuel == 0 || s.stage is Finished {
        (s, fs)
    } else {
        let (fs2, reply) = answer(fs, lister, s.request());
        play(s.advance(reply), fs2, lister, (fuel - 1) as nat)
    }
}

/// `e` is an entry of `dir` as `fs` holds it.
pub open spec fn entry_ok(fs: Fs, dir: Seq<Seq<char>>, e: EntryV) -> bool {
    e matches EntryV::Found { name, is_dir } && is_entry_name(name) && fs.contains_key(
        dir.push(name),
    ) && is_dir == (fs[dir.push(name)] is Dir)
}

/// `e` is an entry with the name `name`.
pub open spec fn entry_named(e: EntryV, name: Seq<char>) -> bool {
    e matches EntryV::Found { name: n, is_dir } && n == name
}

/// `es` lists the directory `dir` of `fs`: each item is an entry of `dir`,
/// and each entry of `dir` is among the items.
pub open spec fn is_listing(fs: Fs, dir: Seq<Seq<char>>, es: Seq<EntryV>) -> bool {
    &&& forall|i: int| 0 <= i < es.len() ==> entry_ok(fs, dir, #[trigger] es[i])
    &&& forall|name: Seq<char>| #[trigger]
        fs.contains_key(dir.push(name)) ==> exists|i: int|
            0 <= i < es.len() && entry_named(#[trigger] es[i], name)
}

/// The tree below `src` is one that can be walked: each directory at or
/// below `src` is listed by `lister`, and what holds an entry is `src` or a
/// directory.
pub open spec fn source_tree(
    fs: Fs,
    src: Seq<Seq<char>>,
    lister: spec_fn(Seq<Seq<char>>) -> Seq<EntryV>,
) -> bool {
    &&& forall|dir: Seq<Seq<char>>| #[trigger]
        at_or_below(src, dir) ==> is_listing(fs, dir, lister(dir))
    &&& forall|p: Seq<Seq<char>>|
        below(src, p) && #[trigger] fs.contains_key(p) ==> p.drop_last() == src || (
        fs.contains_key(p.drop_last()) && fs[p.drop_last()] is Dir)
}

/// What a mirror in `mode` puts in the place of the entry `p` that holds
/// `node`: a directory for a directory, and for anything else its copy, or
/// a link to `p`.
pub open spec fn mirrored(mode: Mode, node: NodeV, p: Seq<Seq<char>>) -> NodeV {
    if node is Dir {
        NodeV::Dir
    } else if mode == Mode::Link {
        NodeV::Link { target: p }
    } else {
        node
    }
}

/// `q` lies neither at or below `dest` nor on the way to it.
pub open spec fn apart(dest: Seq<Seq<char>>, q: Seq<Seq<char>>) -> bool {
    !dest.is_prefix_of(q) && !q.is_prefix_of(dest)
}

/// Both filesystems hold the same at `q`.
pub open spec fn same_node(fs: Fs, fs2: Fs, q: Seq<Seq<char>>) -> bool {
    fs2.contains_key(q) == fs.contains_key(q) && (fs.contains_key(q) ==> fs2[q] == fs[q])
}

/// The requests of a session that the filesystem answers, from those in
/// `log` to the one that is outstanding after at most `fuel` operations.
pub open spec fn play_log(
    s: SessionV,
    fs: Fs,
    lister: spec_fn(Seq<Seq<char>>) -> Seq<EntryV>,
    fuel: nat,
    log: Seq<RequestV>,
) -> Seq<RequestV>
    decreases fuel,
{
    if fuel == 0 || s.stage is Finished {
        log
    } else {
        let (fs2, reply) = answer(fs, lister, s.request());
        let s2 = s.advance(reply);
        play_log(s2, fs2, lister, (fuel - 1) as nat, log.push(s2.request()))
    }
}

/// A tree of one file is copied: the filesystem holds a directory `s` with
/// a file `a`, and a copy of `s` to `d` ends well after four operations and
/// leaves the bytes of the file at `d/a`.
pub proof fn example_one_file(s: Seq<char>, d: Seq<char>, a: Seq<char>, bytes: Seq<u8>)
    requires
        s != d,
        is_entry_name(a),
    ensures
        ({
            let src = seq![s];
            let dest = seq![d];
            let fs = Map::<Seq<Seq<char>>, NodeV>::empty().insert(src, NodeV::Dir).insert(
                src.push(a),
                NodeV::File { content: bytes },
            );
            let lister = |dir: Seq<Seq<char>>|
                if dir == src {
                    seq![EntryV::Found { name: a, is_dir: false }]
                } else {
                    Seq::<EntryV>::empty()
                };
            let end = play(SessionV::start(Mode::Copy, src, dest), fs, lister, 4);
            &&& source_tree(fs, src, lister)
            &&& !src.is_prefix_of(dest)
            &&& !dest.is_prefix_of(src)
            &&& end.0.stage == (StageV::Finished { result: Ok(()) })
            &&& end.1.contains_key(dest.push(a))
            &&& end.1[dest.push(a)] == (NodeV::File { content: bytes })
        }),
{
    let src = seq![s];
    let dest = seq![d];
    let file = src.push(a);
    let fs = Map::<Seq<Seq<char>>, NodeV>::empty().insert(src, NodeV::Dir).insert(
        file,
        NodeV::File { content: bytes },
    );
    let lister = |dir: Seq<Seq<char>>|
        if dir == src {
            seq![EntryV::Found { name: a, is_dir: false }]
        } else {
            Seq::<EntryV>::empty()
        };
    assert(!src.is_prefix_of(dest)) by {
        if src.is_prefix_of(dest) {
            assert(dest.subrange(0, 1)[0] == src[0]);
        }
    }
    assert(!dest.is_prefix_of(src)) by {
        if dest.is_prefix_of(src) {
            assert(src.subrange(0, 1)[0] == dest[0]);
        }
    }
    assert(file.len() == 2 && file[0] == s && file[1] == a);
    assert(below(src, file)) by {
        lemma_below_child(src, src, a);
    }
    // Only the directory and its file lie at or below the source.
    assert forall|q: Seq<Seq<char>>| fs.contains_key(q) implies q == src || q == file by {}
    assert forall|dir: Seq<Seq<char>>| #[trigger] at_or_below(src, dir) implies is_listing(
        fs,
        dir,
        lister(dir),
    ) by {
        let es = lister(dir);
        if dir == src {
            assert(es.len() == 1);
            assert(es[0] == EntryV::Found { name: a, is_dir: false });
            assert(entry_ok(fs, dir, es[0]));
            assert forall|name: Seq<char>| #[trigger]
                fs.contains_key(dir.push(name)) implies exists|i: int|
                0 <= i < es.len() && entry_named(#[trigger] es[i], name) by {
                assert(dir.push(name) == file) by {
                    assert(dir.push(name).len() == 2);
                }
                assert(dir.push(name)[1] == name);
                assert(entry_named(es[0], name));
            }
        } else {
            assert(es.len() == 0);
            assert forall|name: Seq<char>| #[trigger]
                fs.contains_key(dir.push(name)) implies exists|i: int|
                0 <= i < es.len() && entry_named(#[trigger] es[i], name) by {
                let q = dir.push(name);
                assert(q.len() == dir.len() + 1);
                assert(dir.len() >= 2);
            }
        }
    }
    assert forall|p: Seq<Seq<char>>| below(src, p) && #[trigger] fs.contains_key(p) implies p.drop_last()
        == src || (fs.contains_key(p.drop_last()) && fs[p.drop_last()] is Dir) by {
        assert(p == file);
        assert(p.drop_last() =~= src);
    }
    assert(source_tree(fs, src, lister));

    let s0 = SessionV::start(Mode::Copy, src, dest);
    // The destination is created.
    assert(s0.request() == RequestV::CreateDirAll { path: dest });
    assert(can_create(fs, dest)) by {
        assert forall|q: Seq<Seq<char>>|
            q.len() > 0 && q.is_prefix_of(dest) && #[trigger] fs.contains_key(q) implies fs[q] is Dir by {
            if q == file {
                assert(q.len() > dest.len());
            }
        }
    }
    let fs1 = with_dirs(fs, dest);
    assert(answer(fs, lister, s0.request()) == (fs1, ReplyV::Done));
    let s1 = s0.advance(ReplyV::Done);
    assert(s1.stage == StageV::Listing { dir: src });
    // The source is listed, and its one entry is entered.
    assert(fs1.contains_key(src) && fs1[src] is Dir);
    assert(answer(fs1, lister, s1.request()) == (fs1, ReplyV::Entries { entries: lister(src) }));
    let s2 = s1.advance(ReplyV::Entries { entries: lister(src) });
    let listed = SessionV { frames: s1.frames.push(FrameV { dir: src, rest: lister(src) }), ..s1 };
    assert(s2 == listed.next_entry());
    assert(listed.frames.len() == 1);
    assert(listed.frames.last() == FrameV { dir: src, rest: lister(src) });
    assert(lister(src)[0] == EntryV::Found { name: a, is_dir: false });
    lemma_place(src, dest, file);
    let target = dest.push(a);
    assert(mirror_of(src, dest, file) =~= target);
    let left = Seq::<FrameV>::empty().push(FrameV { dir: src, rest: Seq::<EntryV>::empty() });
    assert(listed.frames.drop_last().push(FrameV { dir: src, rest: lister(src).skip(1) }) =~= left)
        by {
        assert(lister(src).skip(1) =~= Seq::<EntryV>::empty());
    }
    assert(s2.stage == StageV::Announcing { path: file, is_dir: false, target });
    assert(s2.frames == left);
    // The entry is announced and copied.
    assert(answer(fs1, lister, s2.request()) == (fs1, ReplyV::Done));
    let s3 = s2.advance(ReplyV::Done);
    assert(s3.stage == StageV::Copying { path: file, target });
    assert(target.drop_last() =~= dest);
    assert(fs1.contains_key(dest) && fs1[dest] is Dir) by {
        assert(dest.is_prefix_of(dest)) by {
            assert(dest =~= dest.subrange(0, 1));
        }
    }
    assert(!fs1.contains_key(target)) by {
        assert(target.len() == 2 && target[0] == d);
        if target.is_prefix_of(dest) {
            assert(target.len() <= dest.len());
        }
    }
    assert(fs1.contains_key(file) && fs1[file] == NodeV::File { content: bytes });
    let fs2 = fs1.insert(target, fs1[file]);
    assert(answer(fs1, lister, s3.request()) == (fs2, ReplyV::Done));
    let s4 = s3.advance(ReplyV::Done);
    // Nothing is left to take.
    assert(s4 == s3.next_entry());
    let emptied = SessionV { frames: s3.frames.drop_last(), ..s3 };
    assert(s3.frames.last().rest.len() == 0);
    assert(emptied.frames.len() == 0);
    assert(s3.next_entry() == emptied.next_entry());
    assert(s4.stage == StageV::Finished { result: Ok(()) });
    // Four operations were played.
    assert(play(s4, fs2, lister, 0) == (s4, fs2));
    assert(play(s3, fs1, lister, 1) == (s4, fs2));
    assert(play(s2, fs1, lister, 2) == (s4, fs2));
    assert(play(s1, fs1, lister, 3) == (s4, fs2));
    assert(play(s0, fs, lister, 4) == (s4, fs2));
}

} // verus!
