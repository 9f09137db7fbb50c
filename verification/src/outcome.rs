//! What a run leaves behind in a filesystem that answers it.

use crate::laws::{
    at_or_below, below, law_failure_ends, lemma_below_child, lemma_mirror_parent, lemma_place,
    mirror_of, reachable_shape,
};
use crate::model::{FrameV, Mode, SessionV, StageV};
use crate::path::{is_entry_name, lemma_prefixes_nest};
use crate::protocol::{EntryV, ReplyV, RequestV};
use crate::world::{
    answer, apart, can_create, entry_named, entry_ok, is_listing, mirrored, play, play_log,
    same_node, source_tree, with_dirs, Fs, NodeV,
};
use vstd::prelude::*;

verus! {

/// What stays the same during a run.
struct Setting {
    mode: Mode,
    src: Seq<Seq<char>>,
    dest: Seq<Seq<char>>,
    fs0: Fs,
    lister: spec_fn(Seq<Seq<char>>) -> Seq<EntryV>,
}

/// A mirror whose source and destination lie apart, over a tree that can be
/// walked.
spec fn setting_ok(c: Setting) -> bool {
    &&& c.mode != Mode::Walk
    &&& !c.src.is_prefix_of(c.dest)
    &&& !c.dest.is_prefix_of(c.src)
    &&& source_tree(c.fs0, c.src, c.lister)
}

/// `p` is an entry of the tree below the source.
spec fn entry_of(c: Setting, p: Seq<Seq<char>>) -> bool {
    below(c.src, p) && c.fs0.contains_key(p)
}

/// The entry `p` is in its place in `fs`.
spec fn completed(c: Setting, fs: Fs, p: Seq<Seq<char>>) -> bool {
    fs.contains_key(mirror_of(c.src, c.dest, p)) && fs[mirror_of(c.src, c.dest, p)] == mirrored(
        c.mode,
        c.fs0[p],
        p,
    )
}

/// The entry `p` is the item `i` that is left to take from the directory
/// `k`, or lies below it.
spec fn pending_at(s: SessionV, k: int, i: int, p: Seq<Seq<char>>) -> bool {
    &&& 0 <= k < s.frames.len()
    &&& 0 <= i < s.frames[k].rest.len()
    &&& s.frames[k].rest[i] matches EntryV::Found { name, is_dir } && at_or_below(
        s.frames[k].dir.push(name),
        p,
    )
}

/// The entry `p` is still to come.
spec fn pending(s: SessionV, p: Seq<Seq<char>>) -> bool {
    exists|k: int, i: int| pending_at(s, k, i, p)
}

/// The entry `p` is what the session is at work on, or lies below it.
spec fn current(s: SessionV, p: Seq<Seq<char>>) -> bool {
    match s.stage {
        StageV::Rooting => true,
        StageV::Listing { dir } => below(dir, p),
        StageV::Visiting { path, is_dir } => false,
        StageV::Announcing { path, is_dir, target } => at_or_below(path, p),
        StageV::Creating { path, target } => at_or_below(path, p),
        StageV::Copying { path, target } => at_or_below(path, p),
        StageV::Probing { path, target } => at_or_below(path, p),
        StageV::Removing { path, target } => at_or_below(path, p),
        StageV::Linking { path, target } => at_or_below(path, p),
        StageV::Finished { result } => false,
    }
}

/// The entry `p` is in its place, still to come, or at work.
spec fn covered_at(c: Setting, s: SessionV, fs: Fs, p: Seq<Seq<char>>) -> bool {
    entry_of(c, p) ==> completed(c, fs, p) || pending(s, p) || current(s, p)
}

/// Every entry of the tree is in its place, still to come, or at work.
spec fn covered(c: Setting, s: SessionV, fs: Fs) -> bool {
    forall|p: Seq<Seq<char>>| #[trigger] covered_at(c, s, fs, p)
}

/// The item `i` that is left to take from the directory `k` is an entry of
/// that directory.
spec fn frame_ok(c: Setting, s: SessionV, k: int, i: int) -> bool {
    0 <= k < s.frames.len() && 0 <= i < s.frames[k].rest.len() ==> entry_ok(
        c.fs0,
        s.frames[k].dir,
        s.frames[k].rest[i],
    )
}

/// What is left to take from each directory are entries of it.
spec fn frames_ok(c: Setting, s: SessionV) -> bool {
    forall|k: int, i: int| #[trigger] frame_ok(c, s, k, i)
}

/// The directories that are being walked lie at or below the source.
spec fn dirs_ok(s: SessionV) -> bool {
    forall|k: int| 0 <= k < s.frames.len() ==> at_or_below(s.src, (#[trigger] s.frames[k]).dir)
}

/// The entry `p` is in its place or still to come.
spec fn settled_at(c: Setting, s: SessionV, fs: Fs, p: Seq<Seq<char>>) -> bool {
    entry_of(c, p) ==> completed(c, fs, p) || pending(s, p)
}

/// Every entry of the tree is in its place or still to come.
spec fn settled(c: Setting, s: SessionV, fs: Fs) -> bool {
    forall|p: Seq<Seq<char>>| #[trigger] settled_at(c, s, fs, p)
}

/// Away from `t`, `fs2` holds what `fs` holds, and more only at prefixes of
/// `t`.
spec fn touch_at(fs: Fs, fs2: Fs, t: Seq<Seq<char>>, q: Seq<Seq<char>>) -> bool {
    q != t ==> {
        &&& fs.contains_key(q) ==> fs2.contains_key(q) && fs2[q] == fs[q]
        &&& fs2.contains_key(q) && !fs.contains_key(q) ==> q.is_prefix_of(t)
    }
}

/// `fs2` differs from `fs` at most at `t` and by what it holds at prefixes
/// of `t` where `fs` holds nothing.
spec fn touches_only(fs: Fs, fs2: Fs, t: Seq<Seq<char>>) -> bool {
    forall|q: Seq<Seq<char>>| #[trigger] touch_at(fs, fs2, t, q)
}

/// The stage fits the entry that is at work: a directory is created, and
/// anything else is copied or linked.
spec fn stage_ok(c: Setting, s: SessionV) -> bool {
    match s.stage {
        StageV::Rooting => true,
        StageV::Listing { dir } => true,
        StageV::Visiting { path, is_dir } => false,
        StageV::Announcing { path, is_dir, target } => c.fs0.contains_key(path) && is_dir == (
        c.fs0[path] is Dir),
        StageV::Creating { path, target } => c.fs0.contains_key(path) && c.fs0[path] is Dir,
        StageV::Copying { path, target } => c.fs0.contains_key(path) && !(c.fs0[path] is Dir),
        StageV::Probing { path, target } => c.fs0.contains_key(path) && !(c.fs0[path] is Dir),
        StageV::Removing { path, target } => c.fs0.contains_key(path) && !(c.fs0[path] is Dir),
        StageV::Linking { path, target } => c.fs0.contains_key(path) && !(c.fs0[path] is Dir),
        StageV::Finished { result } => result is Ok ==> s.frames.len() == 0,
    }
}

/// `fs` holds at `p` what the filesystem held at first, where `p` lies at or
/// below the source.
spec fn same_at(c: Setting, fs: Fs, p: Seq<Seq<char>>) -> bool {
    at_or_below(c.src, p) ==> fs.contains_key(p) == c.fs0.contains_key(p) && (fs.contains_key(p)
        ==> fs[p] == c.fs0[p])
}

/// `fs` holds at `q` what the filesystem held at first, where `q` lies
/// apart from the destination.
spec fn else_at(c: Setting, fs: Fs, q: Seq<Seq<char>>) -> bool {
    apart(c.dest, q) ==> same_node(c.fs0, fs, q)
}

/// Nothing has changed at or below the source, nor apart from the
/// destination.
spec fn source_same(c: Setting, fs: Fs) -> bool {
    &&& forall|p: Seq<Seq<char>>| #[trigger] same_at(c, fs, p)
    &&& forall|q: Seq<Seq<char>>| #[trigger] else_at(c, fs, q)
}

/// `q` is a directory of `fs`, where it leads to `dest` or is `dest`.
spec fn ready_at(dest: Seq<Seq<char>>, fs: Fs, q: Seq<Seq<char>>) -> bool {
    q.len() > 0 && q.is_prefix_of(dest) ==> fs.contains_key(q) && fs[q] is Dir
}

/// The destination and what leads to it are directories.
spec fn dest_ready(dest: Seq<Seq<char>>, fs: Fs) -> bool {
    forall|q: Seq<Seq<char>>| #[trigger] ready_at(dest, fs, q)
}

/// The session has ended with an error.
spec fn failed(s: SessionV) -> bool {
    s.stage matches StageV::Finished { result } && result is Err
}

/// What holds of a session and the filesystem throughout a mirror.
spec fn inv(c: Setting, s: SessionV, fs: Fs) -> bool {
    &&& s.mode == c.mode
    &&& s.src == c.src
    &&& s.dest == c.dest
    &&& reachable_shape(s)
    &&& frames_ok(c, s)
    &&& stage_ok(c, s)
    &&& source_same(c, fs)
    &&& failed(s) || covered(c, s, fs)
    &&& failed(s) || s.stage is Rooting || dest_ready(c.dest, fs)
}

/// Two paths below the source with the same place below the destination are
/// the same path.
pub proof fn lemma_mirror_apart(
    src: Seq<Seq<char>>,
    dest: Seq<Seq<char>>,
    p: Seq<Seq<char>>,
    q: Seq<Seq<char>>,
)
    requires
        below(src, p),
        below(src, q),
        mirror_of(src, dest, p) == mirror_of(src, dest, q),
    ensures
        p == q,
{
    let mp = mirror_of(src, dest, p);
    let mq = mirror_of(src, dest, q);
    assert(mp.len() == dest.len() + p.len() - src.len());
    assert(mq.len() == dest.len() + q.len() - src.len());
    assert(p.len() == q.len());
    assert forall|i: int| 0 <= i < p.len() implies p[i] == q[i] by {
        if i < src.len() {
            assert(p.subrange(0, src.len() as int)[i] == src[i]);
            assert(q.subrange(0, src.len() as int)[i] == src[i]);
        } else {
            assert(mp[dest.len() + i - src.len()] == p.skip(src.len() as int)[i - src.len()]);
            assert(mq[dest.len() + i - src.len()] == q.skip(src.len() as int)[i - src.len()]);
        }
    }
    assert(p =~= q);
}

/// What lies between the source and an entry of the tree is a directory of
/// the tree.
proof fn lemma_ancestor(c: Setting, q: Seq<Seq<char>>, p: Seq<Seq<char>>)
    requires
        source_tree(c.fs0, c.src, c.lister),
        entry_of(c, p),
        below(c.src, q),
        below(q, p),
    ensures
        c.fs0.contains_key(q),
        c.fs0[q] is Dir,
    decreases p.len(),
{
    let parent = p.drop_last();
    assert(c.fs0.contains_key(p));
    assert(parent != c.src) by {
        if parent == c.src {
            assert(q.len() > c.src.len());
        }
    }
    assert(c.fs0.contains_key(parent) && c.fs0[parent] is Dir);
    if q.len() == parent.len() {
        assert(q =~= parent) by {
            assert(q =~= p.subrange(0, q.len() as int));
        }
    } else {
        assert(below(c.src, parent)) by {
            assert(c.src =~= parent.subrange(0, c.src.len() as int)) by {
                assert(c.src =~= p.subrange(0, c.src.len() as int));
            }
            assert forall|i: int| c.src.len() <= i < parent.len() implies is_entry_name(
                #[trigger] parent[i],
            ) by {
                assert(parent[i] == p[i]);
            }
        }
        assert(below(q, parent)) by {
            assert(q =~= parent.subrange(0, q.len() as int)) by {
                assert(q =~= p.subrange(0, q.len() as int));
            }
            assert forall|i: int| q.len() <= i < parent.len() implies is_entry_name(
                #[trigger] parent[i],
            ) by {
                assert(parent[i] == p[i]);
            }
        }
        lemma_ancestor(c, q, parent);
    }
}

/// A change that touches only `t`, at or below the destination, leaves the
/// source and what lies apart from the destination as they were.
proof fn lemma_touch_source(c: Setting, fs: Fs, fs2: Fs, t: Seq<Seq<char>>)
    requires
        setting_ok(c),
        source_same(c, fs),
        touches_only(fs, fs2, t),
        c.dest.is_prefix_of(t),
    ensures
        source_same(c, fs2),
{
    assert forall|p: Seq<Seq<char>>| #[trigger] same_at(c, fs2, p) by {
        if at_or_below(c.src, p) {
            assert(same_at(c, fs, p));
            assert(touch_at(fs, fs2, t, p));
            assert(c.src.is_prefix_of(p)) by {
                assert(c.src =~= c.src.subrange(0, c.src.len() as int));
            }
            if p == t {
                lemma_prefixes_nest(c.src, c.dest, t);
            }
            if fs2.contains_key(p) && !fs.contains_key(p) {
                assert(c.src.is_prefix_of(t)) by {
                    assert(c.src =~= t.subrange(0, c.src.len() as int));
                }
                lemma_prefixes_nest(c.src, c.dest, t);
            }
        }
    }
    assert forall|q: Seq<Seq<char>>| #[trigger] else_at(c, fs2, q) by {
        if apart(c.dest, q) {
            assert(else_at(c, fs, q));
            assert(touch_at(fs, fs2, t, q));
            if fs2.contains_key(q) && !fs.contains_key(q) {
                lemma_prefixes_nest(q, c.dest, t);
            }
        }
    }
}

/// A change at the place of one entry leaves every other entry in its place.
proof fn lemma_touch_completed(
    c: Setting,
    fs: Fs,
    fs2: Fs,
    cur: Seq<Seq<char>>,
    p: Seq<Seq<char>>,
)
    requires
        touches_only(fs, fs2, mirror_of(c.src, c.dest, cur)),
        below(c.src, cur),
        entry_of(c, p),
        p != cur,
        completed(c, fs, p),
    ensures
        completed(c, fs2, p),
{
    if mirror_of(c.src, c.dest, p) == mirror_of(c.src, c.dest, cur) {
        lemma_mirror_apart(c.src, c.dest, p, cur);
    }
    assert(touch_at(fs, fs2, mirror_of(c.src, c.dest, cur), mirror_of(c.src, c.dest, p)));
}

/// A change below the destination leaves the destination standing.
proof fn lemma_touch_ready(dest: Seq<Seq<char>>, fs: Fs, fs2: Fs, t: Seq<Seq<char>>)
    requires
        dest_ready(dest, fs),
        touches_only(fs, fs2, t),
        t.len() > dest.len(),
    ensures
        dest_ready(dest, fs2),
{
    assert forall|q: Seq<Seq<char>>| #[trigger] ready_at(dest, fs2, q) by {
        assert(ready_at(dest, fs, q));
        assert(touch_at(fs, fs2, t, q));
    }
}

/// Creating directories touches only the path that is created.
proof fn lemma_touch_dirs(fs: Fs, t: Seq<Seq<char>>)
    ensures
        touches_only(fs, with_dirs(fs, t), t),
{
    assert forall|q: Seq<Seq<char>>| #[trigger] touch_at(fs, with_dirs(fs, t), t, q) by {}
}

/// Writing at a path touches only that path.
proof fn lemma_touch_insert(fs: Fs, t: Seq<Seq<char>>, node: NodeV)
    ensures
        touches_only(fs, fs.insert(t, node), t),
{
    assert forall|q: Seq<Seq<char>>| #[trigger] touch_at(fs, fs.insert(t, node), t, q) by {}
}

/// Removing a path touches only that path.
proof fn lemma_touch_remove(fs: Fs, t: Seq<Seq<char>>)
    ensures
        touches_only(fs, fs.remove(t), t),
{
    assert forall|q: Seq<Seq<char>>| #[trigger] touch_at(fs, fs.remove(t), t, q) by {}
}

/// Taking the next entry keeps every entry accounted for: where each is in
/// its place or still to come, the entry that is entered is at work, and
/// when none is left, all are in their places.
proof fn lemma_next_cover(c: Setting, s: SessionV, fs: Fs)
    requires
        setting_ok(c),
        s.mode == c.mode,
        s.src == c.src,
        s.dest == c.dest,
        dirs_ok(s),
        frames_ok(c, s),
        source_same(c, fs),
        settled(c, s, fs),
        dest_ready(c.dest, fs),
    ensures
        inv(c, s.next_entry(), fs),
    decreases s.frames.len(),
{
    let s2 = s.next_entry();
    if s.frames.len() == 0 {
        assert forall|k: int, i: int| #[trigger] frame_ok(c, s2, k, i) by {}
        assert forall|p: Seq<Seq<char>>| #[trigger] covered_at(c, s2, fs, p) by {
            assert(settled_at(c, s, fs, p));
        }
    } else {
        let last = s.frames.len() - 1;
        let top = s.frames.last();
        if top.rest.len() == 0 {
            let popped = SessionV { frames: s.frames.drop_last(), ..s };
            assert forall|k: int| 0 <= k < popped.frames.len() implies at_or_below(
                popped.src,
                (#[trigger] popped.frames[k]).dir,
            ) by {
                assert(popped.frames[k] == s.frames[k]);
            }
            assert forall|k: int, i: int| #[trigger] frame_ok(c, popped, k, i) by {
                if 0 <= k < popped.frames.len() {
                    assert(popped.frames[k] == s.frames[k]);
                    assert(frame_ok(c, s, k, i));
                }
            }
            assert forall|p: Seq<Seq<char>>| #[trigger] settled_at(c, popped, fs, p) by {
                assert(settled_at(c, s, fs, p));
                if entry_of(c, p) && !completed(c, fs, p) {
                    let (k, i) = choose|k: int, i: int| pending_at(s, k, i, p);
                    assert(popped.frames[k] == s.frames[k]);
                    assert(pending_at(popped, k, i, p));
                }
            }
            lemma_next_cover(c, popped, fs);
        } else {
            let taken = SessionV {
                frames: s.frames.drop_last().push(FrameV { dir: top.dir, rest: top.rest.skip(1) }),
                ..s
            };
            assert(frame_ok(c, s, last, 0));
            assert(at_or_below(c.src, s.frames[last].dir));
            let name = top.rest[0]->name;
            let is_dir = top.rest[0]->is_dir;
            let path = top.dir.push(name);
            lemma_below_child(c.src, top.dir, name);
            lemma_place(c.src, c.dest, path);
            assert(s2.stage == StageV::Announcing {
                path,
                is_dir,
                target: mirror_of(c.src, c.dest, path),
            });
            assert(s2.frames == taken.frames);
            assert forall|k: int| 0 <= k < s2.frames.len() implies at_or_below(
                s2.src,
                (#[trigger] s2.frames[k]).dir,
            ) by {
                assert(at_or_below(s.src, s.frames[k].dir));
            }
            assert forall|k: int, i: int| #[trigger] frame_ok(c, s2, k, i) by {
                if 0 <= k < s2.frames.len() && 0 <= i < s2.frames[k].rest.len() {
                    if k == last {
                        assert(frame_ok(c, s, k, i + 1));
                    } else {
                        assert(s2.frames[k] == s.frames[k]);
                        assert(frame_ok(c, s, k, i));
                    }
                }
            }
            assert forall|p: Seq<Seq<char>>| #[trigger] covered_at(c, s2, fs, p) by {
                assert(settled_at(c, s, fs, p));
                if entry_of(c, p) && !completed(c, fs, p) {
                    let (k, i) = choose|k: int, i: int| pending_at(s, k, i, p);
                    if k == last {
                        if i == 0 {
                            assert(current(s2, p));
                        } else {
                            assert(pending_at(s2, k, i - 1, p));
                        }
                    } else {
                        assert(s2.frames[k] == s.frames[k]);
                        assert(pending_at(s2, k, i, p));
                    }
                }
            }
        }
    }
}

/// The invariant holds after the destination was asked for.
proof fn lemma_step_rooting(c: Setting, s: SessionV, fs: Fs)
    requires
        setting_ok(c),
        inv(c, s, fs),
        s.stage is Rooting,
    ensures
        inv(c, s.advance(answer(fs, c.lister, s.request()).1), answer(fs, c.lister, s.request()).0),
{
    let (fs2, reply) = answer(fs, c.lister, s.request());
    let s2 = s.advance(reply);
    if can_create(fs, c.dest) {
        lemma_touch_dirs(fs, c.dest);
        assert(c.dest.is_prefix_of(c.dest)) by {
            assert(c.dest =~= c.dest.subrange(0, c.dest.len() as int));
        }
        lemma_touch_source(c, fs, fs2, c.dest);
        assert forall|k: int, i: int| #[trigger] frame_ok(c, s2, k, i) by {}
        assert forall|p: Seq<Seq<char>>| #[trigger] covered_at(c, s2, fs2, p) by {}
        assert forall|q: Seq<Seq<char>>| #[trigger] ready_at(c.dest, fs2, q) by {
            if q.len() > 0 && q.is_prefix_of(c.dest) && fs.contains_key(q) {
                assert(fs[q] is Dir);
            }
        }
    } else {
        assert forall|k: int, i: int| #[trigger] frame_ok(c, s2, k, i) by {}
    }
}

/// The invariant holds after a listing: what lay below the directory is
/// now still to come.
proof fn lemma_step_listing(c: Setting, s: SessionV, fs: Fs)
    requires
        setting_ok(c),
        inv(c, s, fs),
        s.stage is Listing,
    ensures
        inv(c, s.advance(answer(fs, c.lister, s.request()).1), answer(fs, c.lister, s.request()).0),
{
    let dir = s.stage->dir;
    let (fs2, reply) = answer(fs, c.lister, s.request());
    let s2 = s.advance(reply);
    if fs.contains_key(dir) && fs[dir] is Dir {
        let es = (c.lister)(dir);
        let pushed = SessionV { frames: s.frames.push(FrameV { dir, rest: es }), ..s };
        let last = s.frames.len() as int;
        assert(is_listing(c.fs0, dir, es));
        assert forall|k: int| 0 <= k < pushed.frames.len() implies at_or_below(
            pushed.src,
            (#[trigger] pushed.frames[k]).dir,
        ) by {
            if k < last {
                assert(pushed.frames[k] == s.frames[k]);
            }
        }
        assert forall|k: int, i: int| #[trigger] frame_ok(c, pushed, k, i) by {
            if 0 <= k < pushed.frames.len() && 0 <= i < pushed.frames[k].rest.len() {
                if k < last {
                    assert(pushed.frames[k] == s.frames[k]);
                    assert(frame_ok(c, s, k, i));
                } else {
                    assert(entry_ok(c.fs0, dir, es[i]));
                }
            }
        }
        assert forall|p: Seq<Seq<char>>| #[trigger] settled_at(c, pushed, fs, p) by {
            assert(covered_at(c, s, fs, p));
            if entry_of(c, p) && !completed(c, fs, p) {
                if pending(s, p) {
                    let (k, i) = choose|k: int, i: int| pending_at(s, k, i, p);
                    assert(pushed.frames[k] == s.frames[k]);
                    assert(pending_at(pushed, k, i, p));
                } else {
                    lemma_child_listed(c, dir, p);
                    let name = p[dir.len() as int];
                    let i = choose|i: int| 0 <= i < es.len() && entry_named(#[trigger] es[i], name);
                    assert(pending_at(pushed, last, i, p));
                }
            }
        }
        lemma_next_cover(c, pushed, fs);
    } else {
        assert forall|k: int, i: int| #[trigger] frame_ok(c, s2, k, i) by {
            assert(frame_ok(c, s, k, i));
        }
    }
}

/// The invariant holds after a request that changes nothing.
proof fn lemma_step_same(c: Setting, s: SessionV, fs: Fs)
    requires
        setting_ok(c),
        inv(c, s, fs),
        s.stage is Announcing || s.stage is Probing,
    ensures
        inv(c, s.advance(answer(fs, c.lister, s.request()).1), answer(fs, c.lister, s.request()).0),
{
    let (fs2, reply) = answer(fs, c.lister, s.request());
    let s2 = s.advance(reply);
    assert(fs2 == fs);
    assert(s2.frames == s.frames);
    assert forall|k: int, i: int| #[trigger] frame_ok(c, s2, k, i) by {
        assert(frame_ok(c, s, k, i));
    }
    assert forall|p: Seq<Seq<char>>| #[trigger] covered_at(c, s2, fs2, p) by {
        assert(covered_at(c, s, fs, p));
        if entry_of(c, p) && pending(s, p) {
            let (k, i) = choose|k: int, i: int| pending_at(s, k, i, p);
            assert(pending_at(s2, k, i, p));
        }
    }
}

/// After a change at the place of the entry that is at work, which leaves
/// the session at work on that entry or has put the entry in its place,
/// every entry of the tree is still accounted for.
proof fn lemma_changed(c: Setting, s: SessionV, s2: SessionV, fs: Fs, fs2: Fs, path: Seq<Seq<char>>)
    requires
        setting_ok(c),
        inv(c, s, fs),
        !(s.stage is Finished),
        !(s.stage is Rooting),
        below(c.src, path),
        forall|p: Seq<Seq<char>>| current(s, p) ==> at_or_below(path, p),
        touches_only(fs, fs2, mirror_of(c.src, c.dest, path)),
        s2.frames == s.frames,
        forall|p: Seq<Seq<char>>|
            entry_of(c, p) && at_or_below(path, p) ==> #[trigger] current(s2, p) || completed(
                c,
                fs2,
                p,
            ),
    ensures
        source_same(c, fs2),
        covered(c, s2, fs2),
        frames_ok(c, s2),
        dest_ready(c.dest, fs2),
{
    lemma_mirror_parent(c.src, c.dest, path);
    lemma_touch_source(c, fs, fs2, mirror_of(c.src, c.dest, path));
    lemma_touch_ready(c.dest, fs, fs2, mirror_of(c.src, c.dest, path));
    assert forall|k: int, i: int| #[trigger] frame_ok(c, s2, k, i) by {
        assert(frame_ok(c, s, k, i));
    }
    assert forall|p: Seq<Seq<char>>| #[trigger] covered_at(c, s2, fs2, p) by {
        assert(covered_at(c, s, fs, p));
        if entry_of(c, p) {
            if at_or_below(path, p) {
                assert(current(s2, p) || completed(c, fs2, p));
            } else if completed(c, fs, p) {
                lemma_touch_completed(c, fs, fs2, path, p);
            } else {
                assert(pending(s, p));
                let (k, i) = choose|k: int, i: int| pending_at(s, k, i, p);
                assert(pending_at(s2, k, i, p));
            }
        }
    }
}

/// After the entry that is at work has been put in its place, and nothing
/// of the tree lies below it, every entry of the tree is in its place or
/// still to come.
proof fn lemma_placed(c: Setting, s: SessionV, fs: Fs, fs2: Fs, path: Seq<Seq<char>>)
    requires
        setting_ok(c),
        inv(c, s, fs),
        !(s.stage is Finished),
        !(s.stage is Rooting),
        below(c.src, path),
        c.fs0.contains_key(path),
        !(c.fs0[path] is Dir),
        forall|p: Seq<Seq<char>>| current(s, p) ==> at_or_below(path, p),
        touches_only(fs, fs2, mirror_of(c.src, c.dest, path)),
        completed(c, fs2, path),
    ensures
        source_same(c, fs2),
        settled(c, s, fs2),
        dest_ready(c.dest, fs2),
{
    lemma_mirror_parent(c.src, c.dest, path);
    lemma_touch_source(c, fs, fs2, mirror_of(c.src, c.dest, path));
    lemma_touch_ready(c.dest, fs, fs2, mirror_of(c.src, c.dest, path));
    assert forall|p: Seq<Seq<char>>| #[trigger] settled_at(c, s, fs2, p) by {
        assert(covered_at(c, s, fs, p));
        if entry_of(c, p) {
            if p == path {
            } else if below(path, p) {
                lemma_ancestor(c, path, p);
            } else if completed(c, fs, p) {
                lemma_touch_completed(c, fs, fs2, path, p);
            }
        }
    }
}

/// The invariant holds after a directory was asked for.
proof fn lemma_step_creating(c: Setting, s: SessionV, fs: Fs)
    requires
        setting_ok(c),
        inv(c, s, fs),
        s.stage is Creating,
    ensures
        inv(c, s.advance(answer(fs, c.lister, s.request()).1), answer(fs, c.lister, s.request()).0),
{
    let path = s.stage->Creating_path;
    let target = s.stage->Creating_target;
    let (fs2, reply) = answer(fs, c.lister, s.request());
    let s2 = s.advance(reply);
    if can_create(fs, target) {
        lemma_touch_dirs(fs, target);
        lemma_mirror_parent(c.src, c.dest, path);
        assert(completed(c, fs2, path)) by {
            assert(target.is_prefix_of(target)) by {
                assert(target =~= target.subrange(0, target.len() as int));
            }
            if fs.contains_key(target) {
                assert(fs[target] is Dir);
            }
        }
        lemma_changed(c, s, s2, fs, fs2, path);
    } else {
        assert forall|k: int, i: int| #[trigger] frame_ok(c, s2, k, i) by {
            assert(frame_ok(c, s, k, i));
        }
    }
}

/// The invariant holds after a copy was asked for.
proof fn lemma_step_copying(c: Setting, s: SessionV, fs: Fs)
    requires
        setting_ok(c),
        inv(c, s, fs),
        s.stage is Copying,
    ensures
        inv(c, s.advance(answer(fs, c.lister, s.request()).1), answer(fs, c.lister, s.request()).0),
{
    let path = s.stage->Copying_path;
    let target = s.stage->Copying_target;
    let (fs2, reply) = answer(fs, c.lister, s.request());
    let s2 = s.advance(reply);
    if reply is Done {
        lemma_touch_insert(fs, target, fs[path]);
        assert(same_at(c, fs, path));
        lemma_placed(c, s, fs, fs2, path);
        assert(dirs_ok(s));
        lemma_next_cover(c, s, fs2);
    } else {
        assert forall|k: int, i: int| #[trigger] frame_ok(c, s2, k, i) by {
            assert(frame_ok(c, s, k, i));
        }
    }
}

/// The invariant holds after a removal was asked for.
proof fn lemma_step_removing(c: Setting, s: SessionV, fs: Fs)
    requires
        setting_ok(c),
        inv(c, s, fs),
        s.stage is Removing,
    ensures
        inv(c, s.advance(answer(fs, c.lister, s.request()).1), answer(fs, c.lister, s.request()).0),
{
    let path = s.stage->Removing_path;
    let target = s.stage->Removing_target;
    let (fs2, reply) = answer(fs, c.lister, s.request());
    let s2 = s.advance(reply);
    if reply is Done {
        lemma_touch_remove(fs, target);
        lemma_changed(c, s, s2, fs, fs2, path);
    } else {
        assert forall|k: int, i: int| #[trigger] frame_ok(c, s2, k, i) by {
            assert(frame_ok(c, s, k, i));
        }
    }
}

/// The invariant holds after a link was asked for.
proof fn lemma_step_linking(c: Setting, s: SessionV, fs: Fs)
    requires
        setting_ok(c),
        inv(c, s, fs),
        s.stage is Linking,
    ensures
        inv(c, s.advance(answer(fs, c.lister, s.request()).1), answer(fs, c.lister, s.request()).0),
{
    let path = s.stage->Linking_path;
    let target = s.stage->Linking_target;
    let (fs2, reply) = answer(fs, c.lister, s.request());
    let s2 = s.advance(reply);
    if reply is Done {
        lemma_touch_insert(fs, target, NodeV::Link { target: path });
        lemma_placed(c, s, fs, fs2, path);
        assert(dirs_ok(s));
        lemma_next_cover(c, s, fs2);
    } else {
        assert forall|k: int, i: int| #[trigger] frame_ok(c, s2, k, i) by {
            assert(frame_ok(c, s, k, i));
        }
    }
}

/// The invariant holds after each operation that the filesystem answers.
proof fn lemma_step(c: Setting, s: SessionV, fs: Fs)
    requires
        setting_ok(c),
        inv(c, s, fs),
        !(s.stage is Finished),
    ensures
        inv(c, s.advance(answer(fs, c.lister, s.request()).1), answer(fs, c.lister, s.request()).0),
{
    match s.stage {
        StageV::Rooting => lemma_step_rooting(c, s, fs),
        StageV::Listing { dir } => lemma_step_listing(c, s, fs),
        StageV::Visiting { path, is_dir } => {},
        StageV::Announcing { path, is_dir, target } => lemma_step_same(c, s, fs),
        StageV::Creating { path, target } => lemma_step_creating(c, s, fs),
        StageV::Copying { path, target } => lemma_step_copying(c, s, fs),
        StageV::Probing { path, target } => lemma_step_same(c, s, fs),
        StageV::Removing { path, target } => lemma_step_removing(c, s, fs),
        StageV::Linking { path, target } => lemma_step_linking(c, s, fs),
        StageV::Finished { result } => {},
    }
}

/// The invariant holds after any number of operations.
proof fn lemma_play(c: Setting, s: SessionV, fs: Fs, fuel: nat)
    requires
        setting_ok(c),
        inv(c, s, fs),
    ensures
        inv(c, play(s, fs, c.lister, fuel).0, play(s, fs, c.lister, fuel).1),
    decreases fuel,
{
    if fuel == 0 || s.stage is Finished {
    } else {
        lemma_step(c, s, fs);
        let (fs2, reply) = answer(fs, c.lister, s.request());
        lemma_play(c, s.advance(reply), fs2, (fuel - 1) as nat);
    }
}

/// What a mirror that succeeds leaves behind. Where the source and the
/// destination lie apart and the tree below the source can be walked, a
/// mirror that ends without error has put every entry of the tree in its
/// place below the destination: a directory for a directory, and for
/// anything else its copy, or a link to it, whatever stood there before.
/// Nothing has changed but at or below the destination and on the way to it.
pub proof fn law_mirror(
    mode: Mode,
    src: Seq<Seq<char>>,
    dest: Seq<Seq<char>>,
    fs: Fs,
    lister: spec_fn(Seq<Seq<char>>) -> Seq<EntryV>,
    fuel: nat,
    p: Seq<Seq<char>>,
)
    requires
        mode != Mode::Walk,
        !src.is_prefix_of(dest),
        !dest.is_prefix_of(src),
        source_tree(fs, src, lister),
        play(SessionV::start(mode, src, dest), fs, lister, fuel).0.stage == (StageV::Finished {
            result: Ok(()),
        }),
    ensures
        ({
            let after = play(SessionV::start(mode, src, dest), fs, lister, fuel).1;
            &&& below(src, p) && fs.contains_key(p) ==> after.contains_key(mirror_of(src, dest, p))
                && after[mirror_of(src, dest, p)] == mirrored(mode, fs[p], p)
            &&& at_or_below(src, p) || apart(dest, p) ==> same_node(fs, after, p)
        }),
{
    let c = Setting { mode, src, dest, fs0: fs, lister };
    let s0 = SessionV::start(mode, src, dest);
    lemma_start(c);
    lemma_play(c, s0, fs, fuel);
    let (s1, after) = play(s0, fs, lister, fuel);
    assert(same_at(c, after, p));
    assert(else_at(c, after, p));
    assert(covered_at(c, s1, after, p));
}

/// What lies at or below `src` lies apart from a `dest` that lies apart
/// from `src`.
pub proof fn lemma_source_apart(src: Seq<Seq<char>>, dest: Seq<Seq<char>>, q: Seq<Seq<char>>)
    requires
        !src.is_prefix_of(dest),
        !dest.is_prefix_of(src),
        src.is_prefix_of(q),
    ensures
        apart(dest, q),
{
    if dest.is_prefix_of(q) {
        lemma_prefixes_nest(src, dest, q);
    }
    if q.is_prefix_of(dest) {
        assert(src =~= dest.subrange(0, src.len() as int));
    }
}

/// A tree that can be walked can still be walked in a filesystem that holds
/// the same wherever `src` is a prefix.
pub proof fn lemma_tree_kept(
    fs: Fs,
    fs2: Fs,
    src: Seq<Seq<char>>,
    lister: spec_fn(Seq<Seq<char>>) -> Seq<EntryV>,
)
    requires
        source_tree(fs, src, lister),
        forall|q: Seq<Seq<char>>| src.is_prefix_of(q) ==> #[trigger] same_node(fs, fs2, q),
    ensures
        source_tree(fs2, src, lister),
{
    assert forall|dir: Seq<Seq<char>>| #[trigger] at_or_below(src, dir) implies is_listing(
        fs2,
        dir,
        lister(dir),
    ) by {
        let es = lister(dir);
        assert(is_listing(fs, dir, es));
        assert(src.is_prefix_of(dir)) by {
            assert(src =~= src.subrange(0, src.len() as int));
        }
        assert forall|name: Seq<char>| src.is_prefix_of(#[trigger] dir.push(name)) by {
            assert(src =~= dir.push(name).subrange(0, src.len() as int)) by {
                assert(src =~= dir.subrange(0, src.len() as int));
            }
        }
        assert forall|i: int| 0 <= i < es.len() implies entry_ok(fs2, dir, #[trigger] es[i]) by {
            assert(entry_ok(fs, dir, es[i]));
            assert(same_node(fs, fs2, dir.push(es[i]->name)));
        }
        assert forall|name: Seq<char>| #[trigger]
            fs2.contains_key(dir.push(name)) implies exists|i: int|
            0 <= i < es.len() && entry_named(#[trigger] es[i], name) by {
            assert(same_node(fs, fs2, dir.push(name)));
            assert(fs.contains_key(dir.push(name)));
        }
    }
    assert forall|p: Seq<Seq<char>>| below(src, p) && #[trigger] fs2.contains_key(p) implies p.drop_last()
        == src || (fs2.contains_key(p.drop_last()) && fs2[p.drop_last()] is Dir) by {
        assert(same_node(fs, fs2, p));
        assert(fs.contains_key(p));
        if p.drop_last() != src {
            assert(src.is_prefix_of(p.drop_last())) by {
                assert(src =~= p.drop_last().subrange(0, src.len() as int)) by {
                    assert(src =~= p.subrange(0, src.len() as int));
                }
            }
            assert(same_node(fs, fs2, p.drop_last()));
        }
    }
}

/// A copy that succeeds leaves at the place of each entry what the entry
/// holds, and so does a second copy of the same tree to the same
/// destination, however far it gets: after both, the destination holds the
/// source tree.
pub proof fn law_copy_twice(
    src: Seq<Seq<char>>,
    dest: Seq<Seq<char>>,
    fs: Fs,
    lister: spec_fn(Seq<Seq<char>>) -> Seq<EntryV>,
    fuel: nat,
    fuel2: nat,
    p: Seq<Seq<char>>,
)
    requires
        !src.is_prefix_of(dest),
        !dest.is_prefix_of(src),
        source_tree(fs, src, lister),
        play(SessionV::start(Mode::Copy, src, dest), fs, lister, fuel).0.stage == (
        StageV::Finished { result: Ok(()) }),
        below(src, p),
        fs.contains_key(p),
    ensures
        ({
            let once = play(SessionV::start(Mode::Copy, src, dest), fs, lister, fuel).1;
            let twice = play(SessionV::start(Mode::Copy, src, dest), once, lister, fuel2).1;
            &&& once.contains_key(mirror_of(src, dest, p))
            &&& once[mirror_of(src, dest, p)] == fs[p]
            &&& twice.contains_key(mirror_of(src, dest, p))
            &&& twice[mirror_of(src, dest, p)] == fs[p]
        }),
{
    law_mirror(Mode::Copy, src, dest, fs, lister, fuel, p);
    law_copy_idempotent(src, dest, fs, lister, fuel, fuel2);
}

/// The entry `p` is in its place before the run begins.
spec fn done_at(c: Setting, p: Seq<Seq<char>>) -> bool {
    entry_of(c, p) ==> completed(c, c.fs0, p)
}

/// Every entry of the tree is in its place before the run begins.
spec fn all_done(c: Setting) -> bool {
    forall|p: Seq<Seq<char>>| #[trigger] done_at(c, p)
}

/// Where every entry is in its place and the destination stands, every path
/// on the way to the place of an entry is a directory, and the place itself
/// holds something.
proof fn lemma_way_made(c: Setting, path: Seq<Seq<char>>, q: Seq<Seq<char>>)
    requires
        source_tree(c.fs0, c.src, c.lister),
        all_done(c),
        dest_ready(c.dest, c.fs0),
        entry_of(c, path),
        q.len() > 0,
        q.is_prefix_of(mirror_of(c.src, c.dest, path)),
    ensures
        c.fs0.contains_key(q),
        q != mirror_of(c.src, c.dest, path) ==> c.fs0[q] is Dir,
{
    let fs = c.fs0;
    let target = mirror_of(c.src, c.dest, path);
    lemma_mirror_parent(c.src, c.dest, path);
    if q.len() <= c.dest.len() {
        lemma_prefixes_nest(q, c.dest, target);
        assert(q.is_prefix_of(c.dest)) by {
            if c.dest.is_prefix_of(q) {
                assert(q =~= c.dest);
                assert(c.dest =~= c.dest.subrange(0, c.dest.len() as int));
            }
        }
        assert(ready_at(c.dest, fs, q));
    } else {
        let upto = c.src.len() + q.len() - c.dest.len();
        let anc = path.subrange(0, upto);
        assert(below(c.src, anc)) by {
            assert(c.src =~= anc.subrange(0, c.src.len() as int)) by {
                assert(c.src =~= path.subrange(0, c.src.len() as int));
            }
            assert forall|i: int| c.src.len() <= i < anc.len() implies is_entry_name(
                #[trigger] anc[i],
            ) by {
                assert(anc[i] == path[i]);
            }
        }
        assert(mirror_of(c.src, c.dest, anc) =~= q) by {
            assert(q =~= target.subrange(0, q.len() as int));
        }
        if anc.len() == path.len() {
            assert(anc =~= path);
        } else {
            assert(below(anc, path)) by {
                assert(anc =~= path.subrange(0, anc.len() as int));
            }
            lemma_ancestor(c, anc, path);
        }
        assert(done_at(c, anc));
    }
}

/// Where every entry is in its place already and the destination stands, a
/// copy asks for nothing that changes the filesystem.
proof fn lemma_step_again(c: Setting, s: SessionV)
    requires
        setting_ok(c),
        c.mode == Mode::Copy,
        inv(c, s, c.fs0),
        all_done(c),
        dest_ready(c.dest, c.fs0),
        !(s.stage is Finished),
    ensures
        answer(c.fs0, c.lister, s.request()).0 == c.fs0,
{
    let fs = c.fs0;
    let fs2 = answer(fs, c.lister, s.request()).0;
    match s.stage {
        StageV::Rooting => {
            assert forall|q: Seq<Seq<char>>| fs.contains_key(q) == with_dirs(
                fs,
                c.dest,
            ).contains_key(q) by {
                assert(ready_at(c.dest, fs, q));
            }
            assert(with_dirs(fs, c.dest) =~= fs);
        },
        StageV::Creating { path, target } => {
            assert forall|q: Seq<Seq<char>>| fs.contains_key(q) == with_dirs(
                fs,
                target,
            ).contains_key(q) by {
                if q.len() > 0 && q.is_prefix_of(target) {
                    lemma_way_made(c, path, q);
                }
            }
            assert(with_dirs(fs, target) =~= fs);
        },
        StageV::Copying { path, target } => {
            assert(done_at(c, path));
            if fs2 != fs {
                assert(fs.insert(target, fs[path]) =~= fs);
            }
        },
        _ => {},
    }
}

/// A second copy changes nothing, however far it gets.
proof fn lemma_play_again(c: Setting, s: SessionV, fuel: nat)
    requires
        setting_ok(c),
        c.mode == Mode::Copy,
        inv(c, s, c.fs0),
        all_done(c),
        dest_ready(c.dest, c.fs0),
    ensures
        play(s, c.fs0, c.lister, fuel).1 == c.fs0,
    decreases fuel,
{
    if fuel == 0 || s.stage is Finished {
    } else {
        lemma_step_again(c, s);
        lemma_step(c, s, c.fs0);
        let (fs2, reply) = answer(c.fs0, c.lister, s.request());
        lemma_play_again(c, s.advance(reply), (fuel - 1) as nat);
    }
}

/// The second copy and the first agree on the source.
spec fn again(c: Setting, c2: Setting) -> bool {
    &&& setting_ok(c)
    &&& setting_ok(c2)
    &&& c.mode == Mode::Copy
    &&& c2.mode == c.mode
    &&& c2.src == c.src
    &&& c2.dest == c.dest
    &&& c2.lister == c.lister
    &&& forall|q: Seq<Seq<char>>| at_or_below(c.src, q) ==> #[trigger] same_node(c.fs0, c2.fs0, q)
    &&& all_done(c2)
    &&& dest_ready(c2.dest, c2.fs0)
}

/// What the filesystem answered to the first copy without failure, it
/// answers to the second.
proof fn lemma_again_reply(c: Setting, c2: Setting, s: SessionV, fs1: Fs)
    requires
        again(c, c2),
        inv(c, s, fs1),
        inv(c2, s, c2.fs0),
        !(s.stage is Finished),
        !(answer(fs1, c.lister, s.request()).1 is Failed),
    ensures
        answer(c2.fs0, c.lister, s.request()).1 == answer(fs1, c.lister, s.request()).1,
{
    let once = c2.fs0;
    match s.stage {
        StageV::Rooting => {
            assert forall|q: Seq<Seq<char>>|
                q.len() > 0 && q.is_prefix_of(c.dest) && #[trigger] once.contains_key(
                    q,
                ) implies once[q] is Dir by {
                assert(ready_at(c.dest, once, q));
            }
        },
        StageV::Listing { dir } => {
            assert(same_at(c, fs1, dir));
            assert(same_node(c.fs0, once, dir));
        },
        StageV::Creating { path, target } => {
            assert(done_at(c2, path));
            assert forall|q: Seq<Seq<char>>|
                q.len() > 0 && q.is_prefix_of(target) && #[trigger] once.contains_key(
                    q,
                ) implies once[q] is Dir by {
                lemma_way_made(c2, path, q);
            }
        },
        StageV::Copying { path, target } => {
            assert(same_at(c, fs1, path));
            assert(same_node(c.fs0, once, path));
            assert(done_at(c2, path));
            lemma_mirror_parent(c.src, c.dest, path);
            let up = target.drop_last();
            if up.len() > 0 {
                assert(up.is_prefix_of(target)) by {
                    assert(up =~= target.subrange(0, up.len() as int));
                }
                lemma_way_made(c2, path, up);
            }
        },
        _ => {},
    }
}

/// Where the first copy ends well, the second ends well after as many
/// operations.
proof fn lemma_again_ends(c: Setting, c2: Setting, s: SessionV, fs1: Fs, fuel: nat)
    requires
        again(c, c2),
        inv(c, s, fs1),
        inv(c2, s, c2.fs0),
        play(s, fs1, c.lister, fuel).0.stage == (StageV::Finished { result: Ok(()) }),
    ensures
        play(s, c2.fs0, c.lister, fuel).0.stage == (StageV::Finished { result: Ok(()) }),
    decreases fuel,
{
    if fuel == 0 || s.stage is Finished {
    } else {
        let (next1, reply) = answer(fs1, c.lister, s.request());
        if reply is Failed {
            law_failure_ends(s, reply->cause, reply);
            assert(play(s.advance(reply), next1, c.lister, (fuel - 1) as nat).0 == s.advance(
                reply,
            ));
        }
        lemma_again_reply(c, c2, s, fs1);
        lemma_step(c, s, fs1);
        lemma_step_again(c2, s);
        lemma_step(c2, s, c2.fs0);
        lemma_again_ends(c, c2, s.advance(reply), next1, (fuel - 1) as nat);
    }
}

/// A copy is idempotent: after a copy that succeeded, a second copy of the
/// same tree to the same destination succeeds after as many operations, and
/// leaves the filesystem as it is, however far it gets.
pub proof fn law_copy_idempotent(
    src: Seq<Seq<char>>,
    dest: Seq<Seq<char>>,
    fs: Fs,
    lister: spec_fn(Seq<Seq<char>>) -> Seq<EntryV>,
    fuel: nat,
    fuel2: nat,
)
    requires
        !src.is_prefix_of(dest),
        !dest.is_prefix_of(src),
        source_tree(fs, src, lister),
        play(SessionV::start(Mode::Copy, src, dest), fs, lister, fuel).0.stage == (
        StageV::Finished { result: Ok(()) }),
    ensures
        ({
            let once = play(SessionV::start(Mode::Copy, src, dest), fs, lister, fuel).1;
            &&& play(SessionV::start(Mode::Copy, src, dest), once, lister, fuel2).1 == once
            &&& play(SessionV::start(Mode::Copy, src, dest), once, lister, fuel).0.stage == (
            StageV::Finished { result: Ok(()) })
        }),
{
    let s0 = SessionV::start(Mode::Copy, src, dest);
    let once = play(s0, fs, lister, fuel).1;
    let c = Setting { mode: Mode::Copy, src, dest, fs0: fs, lister };
    lemma_start(c);
    lemma_play(c, s0, fs, fuel);
    assert(dest_ready(dest, once));
    assert forall|q: Seq<Seq<char>>| src.is_prefix_of(q) implies #[trigger] same_node(
        fs,
        once,
        q,
    ) by {
        lemma_source_apart(src, dest, q);
        law_mirror(Mode::Copy, src, dest, fs, lister, fuel, q);
    }
    lemma_tree_kept(fs, once, src, lister);
    let c2 = Setting { mode: Mode::Copy, src, dest, fs0: once, lister };
    assert forall|p: Seq<Seq<char>>| #[trigger] done_at(c2, p) by {
        if entry_of(c2, p) {
            assert(same_node(fs, once, p)) by {
                assert(src.is_prefix_of(p));
            }
            law_mirror(Mode::Copy, src, dest, fs, lister, fuel, p);
        }
    }
    lemma_start(c2);
    lemma_play_again(c2, s0, fuel2);
    assert(again(c, c2)) by {
        assert forall|q: Seq<Seq<char>>| at_or_below(src, q) implies #[trigger] same_node(
            fs,
            once,
            q,
        ) by {
            assert(src.is_prefix_of(q)) by {
                assert(src =~= src.subrange(0, src.len() as int));
            }
        }
    }
    lemma_again_ends(c, c2, s0, fs, fuel);
}

/// The invariant holds when a mirror starts.
proof fn lemma_start(c: Setting)
    requires
        setting_ok(c),
    ensures
        inv(c, SessionV::start(c.mode, c.src, c.dest), c.fs0),
{
    let s0 = SessionV::start(c.mode, c.src, c.dest);
    assert forall|k: int, i: int| #[trigger] frame_ok(c, s0, k, i) by {}
    assert forall|q: Seq<Seq<char>>| #[trigger] same_at(c, c.fs0, q) by {}
    assert forall|q: Seq<Seq<char>>| #[trigger] else_at(c, c.fs0, q) by {}
    assert forall|q: Seq<Seq<char>>| #[trigger] covered_at(c, s0, c.fs0, q) by {}
}

/// A copy is at a stage of a copy.
spec fn copying(s: SessionV) -> bool {
    &&& s.mode == Mode::Copy
    &&& !(s.stage is Visiting)
    &&& !(s.stage is Probing)
    &&& !(s.stage is Removing)
    &&& !(s.stage is Linking)
}

/// Taking the next entry leaves a copy at a stage of a copy.
proof fn lemma_copying_next(s: SessionV)
    requires
        s.mode == Mode::Copy,
    ensures
        copying(s.next_entry()),
    decreases s.frames.len(),
{
    if s.frames.len() > 0 && s.frames.last().rest.len() == 0 {
        lemma_copying_next(SessionV { frames: s.frames.drop_last(), ..s });
    }
}

/// Every answer leaves a copy at a stage of a copy.
proof fn lemma_copying_step(s: SessionV, reply: ReplyV)
    requires
        copying(s),
    ensures
        copying(s.advance(reply)),
{
    lemma_copying_next(s);
    match s.stage {
        StageV::Listing { dir } => {
            match reply {
                ReplyV::Entries { entries } => {
                    lemma_copying_next(
                        SessionV { frames: s.frames.push(FrameV { dir, rest: entries }), ..s },
                    );
                },
                _ => {},
            }
        },
        _ => {},
    }
}

/// `after` holds something wherever `fs` does: the same, or a file in the
/// place of a file.
pub open spec fn kept_node(fs: Fs, after: Fs, q: Seq<Seq<char>>) -> bool {
    fs.contains_key(q) ==> after.contains_key(q) && (after[q] == fs[q] || (fs[q] is File
        && after[q] is File))
}

/// A copy only adds. Whatever the filesystem holds and however its
/// directories are listed, a copy removes nothing, however it ends: where
/// the filesystem held something, it holds the same afterwards, or a file in
/// the place of a file.
pub proof fn law_copy_only_adds(
    src: Seq<Seq<char>>,
    dest: Seq<Seq<char>>,
    fs: Fs,
    lister: spec_fn(Seq<Seq<char>>) -> Seq<EntryV>,
    fuel: nat,
    q: Seq<Seq<char>>,
)
    ensures
        kept_node(fs, play(SessionV::start(Mode::Copy, src, dest), fs, lister, fuel).1, q),
{
    lemma_copy_keeps(SessionV::start(Mode::Copy, src, dest), fs, lister, fuel, q);
}

/// A copy that goes on from any stage removes nothing.
proof fn lemma_copy_keeps(
    s: SessionV,
    fs: Fs,
    lister: spec_fn(Seq<Seq<char>>) -> Seq<EntryV>,
    fuel: nat,
    q: Seq<Seq<char>>,
)
    requires
        copying(s),
    ensures
        kept_node(fs, play(s, fs, lister, fuel).1, q),
    decreases fuel,
{
    if fuel == 0 || s.stage is Finished {
    } else {
        let (fs2, reply) = answer(fs, lister, s.request());
        assert(kept_node(fs, fs2, q));
        lemma_copying_step(s, reply);
        lemma_copy_keeps(s.advance(reply), fs2, lister, (fuel - 1) as nat, q);
    }
}

/// A link mirror that succeeds leaves a link to each entry that is no
/// directory at the place of that entry, also where a file or an older link
/// stood at that place before.
pub proof fn law_link_replaces(
    src: Seq<Seq<char>>,
    dest: Seq<Seq<char>>,
    fs: Fs,
    lister: spec_fn(Seq<Seq<char>>) -> Seq<EntryV>,
    fuel: nat,
    p: Seq<Seq<char>>,
)
    requires
        !src.is_prefix_of(dest),
        !dest.is_prefix_of(src),
        source_tree(fs, src, lister),
        play(SessionV::start(Mode::Link, src, dest), fs, lister, fuel).0.stage == (
        StageV::Finished { result: Ok(()) }),
        below(src, p),
        fs.contains_key(p),
        !(fs[p] is Dir),
        fs.contains_key(mirror_of(src, dest, p)),
    ensures
        ({
            let after = play(SessionV::start(Mode::Link, src, dest), fs, lister, fuel).1;
            &&& after.contains_key(mirror_of(src, dest, p))
            &&& after[mirror_of(src, dest, p)] == (NodeV::Link { target: p })
        }),
{
    law_mirror(Mode::Link, src, dest, fs, lister, fuel, p);
}

/// Of two trees that are copied into the same root one after the other, the
/// later one wins: each of its entries is found at its place below the root
/// afterwards, also where the earlier tree has an entry of the same name at
/// the same place.
pub proof fn law_later_copy_wins(
    first: Seq<Seq<char>>,
    second: Seq<Seq<char>>,
    root: Seq<Seq<char>>,
    fs: Fs,
    lister: spec_fn(Seq<Seq<char>>) -> Seq<EntryV>,
    fuel: nat,
    fuel2: nat,
    p: Seq<Seq<char>>,
)
    requires
        !first.is_prefix_of(root),
        !root.is_prefix_of(first),
        !second.is_prefix_of(root),
        !root.is_prefix_of(second),
        source_tree(fs, first, lister),
        source_tree(fs, second, lister),
        play(SessionV::start(Mode::Copy, first, root), fs, lister, fuel).0.stage == (
        StageV::Finished { result: Ok(()) }),
        play(
            SessionV::start(Mode::Copy, second, root),
            play(SessionV::start(Mode::Copy, first, root), fs, lister, fuel).1,
            lister,
            fuel2,
        ).0.stage == (StageV::Finished { result: Ok(()) }),
        below(second, p),
        fs.contains_key(p),
    ensures
        ({
            let once = play(SessionV::start(Mode::Copy, first, root), fs, lister, fuel).1;
            let twice = play(SessionV::start(Mode::Copy, second, root), once, lister, fuel2).1;
            &&& twice.contains_key(mirror_of(second, root, p))
            &&& twice[mirror_of(second, root, p)] == fs[p]
        }),
{
    let once = play(SessionV::start(Mode::Copy, first, root), fs, lister, fuel).1;
    assert forall|q: Seq<Seq<char>>| second.is_prefix_of(q) implies #[trigger] same_node(
        fs,
        once,
        q,
    ) by {
        lemma_source_apart(second, root, q);
        law_mirror(Mode::Copy, first, root, fs, lister, fuel, q);
    }
    lemma_tree_kept(fs, once, second, lister);
    assert(same_node(fs, once, p)) by {
        assert(second.is_prefix_of(p));
    }
    law_mirror(Mode::Copy, second, root, once, lister, fuel2, p);
}

/// What the filesystem answers, one reply after the other, to a session
/// that has got the replies `done` already.
pub open spec fn play_replies(
    s: SessionV,
    fs: Fs,
    lister: spec_fn(Seq<Seq<char>>) -> Seq<EntryV>,
    fuel: nat,
    done: Seq<ReplyV>,
) -> Seq<ReplyV>
    decreases fuel,
{
    if fuel == 0 || s.stage is Finished {
        done
    } else {
        let (fs2, reply) = answer(fs, lister, s.request());
        play_replies(s.advance(reply), fs2, lister, (fuel - 1) as nat, done.push(reply))
    }
}

/// A session that the filesystem answers is a run like any other, with the
/// answers of the filesystem as its replies: what holds of every run holds
/// of it.
pub proof fn law_play_is_run(
    start: SessionV,
    fs: Fs,
    lister: spec_fn(Seq<Seq<char>>) -> Seq<EntryV>,
    fuel: nat,
)
    ensures
        play(start, fs, lister, fuel).0 == start.run(
            play_replies(start, fs, lister, fuel, Seq::empty()),
        ),
        play_log(start, fs, lister, fuel, seq![start.request()]) == start.requests(
            play_replies(start, fs, lister, fuel, Seq::empty()),
        ),
{
    lemma_play_on(start, Seq::empty(), start, fs, lister, fuel);
}

/// A session that the filesystem goes on to answer is a run that goes on.
proof fn lemma_play_on(
    start: SessionV,
    done: Seq<ReplyV>,
    s: SessionV,
    fs: Fs,
    lister: spec_fn(Seq<Seq<char>>) -> Seq<EntryV>,
    fuel: nat,
)
    requires
        s == start.run(done),
    ensures
        play(s, fs, lister, fuel).0 == start.run(play_replies(s, fs, lister, fuel, done)),
        play_log(s, fs, lister, fuel, start.requests(done)) == start.requests(
            play_replies(s, fs, lister, fuel, done),
        ),
    decreases fuel,
{
    if fuel == 0 || s.stage is Finished {
    } else {
        let (fs2, reply) = answer(fs, lister, s.request());
        let more = done.push(reply);
        assert(more.drop_last() =~= done);
        lemma_play_on(start, more, s.advance(reply), fs2, lister, (fuel - 1) as nat);
    }
}

/// The visitor was called on the entry `p`, with what the entry is.
spec fn seen(c: Setting, log: Seq<RequestV>, p: Seq<Seq<char>>) -> bool {
    exists|i: int|
        0 <= i < log.len() && (#[trigger] log[i]) == (RequestV::Visit {
            path: p,
            is_dir: c.fs0[p] is Dir,
        })
}

/// The entry `p` lies below what the walk is at work on.
spec fn awaited(s: SessionV, p: Seq<Seq<char>>) -> bool {
    match s.stage {
        StageV::Listing { dir } => below(dir, p),
        StageV::Visiting { path, is_dir } => below(path, p),
        _ => false,
    }
}

/// The visitor was called on the entry `p`, or `p` is still to come or
/// awaited.
spec fn reached_at(c: Setting, s: SessionV, log: Seq<RequestV>, p: Seq<Seq<char>>) -> bool {
    entry_of(c, p) ==> seen(c, log, p) || pending(s, p) || awaited(s, p)
}

/// The visitor was called on the entry `p`, or `p` is still to come.
spec fn found_at(c: Setting, s: SessionV, log: Seq<RequestV>, p: Seq<Seq<char>>) -> bool {
    entry_of(c, p) ==> seen(c, log, p) || pending(s, p)
}

/// What holds of a session and its requests throughout a walk.
spec fn walk_inv(c: Setting, s: SessionV, log: Seq<RequestV>) -> bool {
    &&& s.mode == Mode::Walk
    &&& s.src == c.src
    &&& dirs_ok(s)
    &&& frames_ok(c, s)
    &&& match s.stage {
        StageV::Listing { dir } => at_or_below(c.src, dir),
        StageV::Visiting { path, is_dir } => below(c.src, path) && c.fs0.contains_key(path)
            && is_dir == (c.fs0[path] is Dir),
        StageV::Finished { result } => result is Ok ==> s.frames.len() == 0,
        _ => false,
    }
    &&& failed(s) || forall|p: Seq<Seq<char>>| #[trigger] reached_at(c, s, log, p)
}

/// A call of the visitor stays on record.
proof fn lemma_seen_push(c: Setting, log: Seq<RequestV>, x: RequestV, p: Seq<Seq<char>>)
    requires
        seen(c, log, p),
    ensures
        seen(c, log.push(x), p),
{
    let i = choose|i: int|
        0 <= i < log.len() && (#[trigger] log[i]) == (RequestV::Visit {
            path: p,
            is_dir: c.fs0[p] is Dir,
        });
    assert(log.push(x)[i] == log[i]);
}

/// Taking the next entry of a walk keeps every entry accounted for.
proof fn lemma_walk_next(c: Setting, s: SessionV, log: Seq<RequestV>)
    requires
        source_tree(c.fs0, c.src, c.lister),
        s.mode == Mode::Walk,
        s.src == c.src,
        dirs_ok(s),
        frames_ok(c, s),
        forall|p: Seq<Seq<char>>| #[trigger] found_at(c, s, log, p),
    ensures
        walk_inv(c, s.next_entry(), log.push(s.next_entry().request())),
    decreases s.frames.len(),
{
    let s2 = s.next_entry();
    let log2 = log.push(s2.request());
    if s.frames.len() == 0 {
        assert forall|k: int, i: int| #[trigger] frame_ok(c, s2, k, i) by {}
        assert forall|p: Seq<Seq<char>>| #[trigger] reached_at(c, s2, log2, p) by {
            assert(found_at(c, s, log, p));
            if entry_of(c, p) {
                lemma_seen_push(c, log, s2.request(), p);
            }
        }
    } else {
        let last = s.frames.len() - 1;
        let top = s.frames.last();
        if top.rest.len() == 0 {
            let popped = SessionV { frames: s.frames.drop_last(), ..s };
            assert forall|k: int| 0 <= k < popped.frames.len() implies at_or_below(
                popped.src,
                (#[trigger] popped.frames[k]).dir,
            ) by {
                assert(popped.frames[k] == s.frames[k]);
            }
            assert forall|k: int, i: int| #[trigger] frame_ok(c, popped, k, i) by {
                if 0 <= k < popped.frames.len() {
                    assert(popped.frames[k] == s.frames[k]);
                    assert(frame_ok(c, s, k, i));
                }
            }
            assert forall|p: Seq<Seq<char>>| #[trigger] found_at(c, popped, log, p) by {
                assert(found_at(c, s, log, p));
                if entry_of(c, p) && !seen(c, log, p) {
                    let (k, i) = choose|k: int, i: int| pending_at(s, k, i, p);
                    assert(popped.frames[k] == s.frames[k]);
                    assert(pending_at(popped, k, i, p));
                }
            }
            lemma_walk_next(c, popped, log);
        } else {
            assert(frame_ok(c, s, last, 0));
            assert(at_or_below(c.src, s.frames[last].dir));
            let name = top.rest[0]->name;
            let is_dir = top.rest[0]->is_dir;
            let path = top.dir.push(name);
            lemma_below_child(c.src, top.dir, name);
            assert(s2.stage == StageV::Visiting { path, is_dir });
            assert forall|k: int| 0 <= k < s2.frames.len() implies at_or_below(
                s2.src,
                (#[trigger] s2.frames[k]).dir,
            ) by {
                assert(at_or_below(s.src, s.frames[k].dir));
            }
            assert forall|k: int, i: int| #[trigger] frame_ok(c, s2, k, i) by {
                if 0 <= k < s2.frames.len() && 0 <= i < s2.frames[k].rest.len() {
                    if k == last {
                        assert(frame_ok(c, s, k, i + 1));
                    } else {
                        assert(s2.frames[k] == s.frames[k]);
                        assert(frame_ok(c, s, k, i));
                    }
                }
            }
            assert(log2[log.len() as int] == RequestV::Visit { path, is_dir });
            assert(seen(c, log2, path));
            assert forall|p: Seq<Seq<char>>| #[trigger] reached_at(c, s2, log2, p) by {
                assert(found_at(c, s, log, p));
                if entry_of(c, p) {
                    if seen(c, log, p) {
                        lemma_seen_push(c, log, s2.request(), p);
                    } else {
                        let (k, i) = choose|k: int, i: int| pending_at(s, k, i, p);
                        if k == last {
                            if i == 0 {
                                assert(at_or_below(path, p));
                            } else {
                                assert(pending_at(s2, k, i - 1, p));
                            }
                        } else {
                            assert(s2.frames[k] == s.frames[k]);
                            assert(pending_at(s2, k, i, p));
                        }
                    }
                }
            }
        }
    }
}

/// The invariant of a walk holds after each operation, and a walk changes
/// nothing.
proof fn lemma_walk_step(c: Setting, s: SessionV, log: Seq<RequestV>)
    requires
        source_tree(c.fs0, c.src, c.lister),
        walk_inv(c, s, log),
        !(s.stage is Finished),
    ensures
        answer(c.fs0, c.lister, s.request()).0 == c.fs0,
        walk_inv(
            c,
            s.advance(answer(c.fs0, c.lister, s.request()).1),
            log.push(s.advance(answer(c.fs0, c.lister, s.request()).1).request()),
        ),
{
    let fs = c.fs0;
    let reply = answer(fs, c.lister, s.request()).1;
    let s2 = s.advance(reply);
    let log2 = log.push(s2.request());
    match s.stage {
        StageV::Listing { dir } => {
            if fs.contains_key(dir) && fs[dir] is Dir {
                let es = (c.lister)(dir);
                let pushed = SessionV { frames: s.frames.push(FrameV { dir, rest: es }), ..s };
                let last = s.frames.len() as int;
                assert(is_listing(fs, dir, es));
                assert forall|k: int| 0 <= k < pushed.frames.len() implies at_or_below(
                    pushed.src,
                    (#[trigger] pushed.frames[k]).dir,
                ) by {
                    if k < last {
                        assert(pushed.frames[k] == s.frames[k]);
                    }
                }
                assert forall|k: int, i: int| #[trigger] frame_ok(c, pushed, k, i) by {
                    if 0 <= k < pushed.frames.len() && 0 <= i < pushed.frames[k].rest.len() {
                        if k < last {
                            assert(pushed.frames[k] == s.frames[k]);
                            assert(frame_ok(c, s, k, i));
                        } else {
                            assert(entry_ok(fs, dir, es[i]));
                        }
                    }
                }
                assert forall|p: Seq<Seq<char>>| #[trigger] found_at(c, pushed, log, p) by {
                    assert(reached_at(c, s, log, p));
                    if entry_of(c, p) && !seen(c, log, p) {
                        if pending(s, p) {
                            let (k, i) = choose|k: int, i: int| pending_at(s, k, i, p);
                            assert(pushed.frames[k] == s.frames[k]);
                            assert(pending_at(pushed, k, i, p));
                        } else {
                            lemma_child_listed(c, dir, p);
                            let name = p[dir.len() as int];
                            let i = choose|i: int|
                                0 <= i < es.len() && entry_named(#[trigger] es[i], name);
                            assert(pending_at(pushed, last, i, p));
                        }
                    }
                }
                lemma_walk_next(c, pushed, log);
            } else {
                assert forall|k: int, i: int| #[trigger] frame_ok(c, s2, k, i) by {
                    assert(frame_ok(c, s, k, i));
                }
            }
        },
        StageV::Visiting { path, is_dir } => {
            if is_dir {
                assert forall|k: int, i: int| #[trigger] frame_ok(c, s2, k, i) by {
                    assert(frame_ok(c, s, k, i));
                }
                assert forall|p: Seq<Seq<char>>| #[trigger] reached_at(c, s2, log2, p) by {
                    assert(reached_at(c, s, log, p));
                    if entry_of(c, p) {
                        if seen(c, log, p) {
                            lemma_seen_push(c, log, s2.request(), p);
                        } else if pending(s, p) {
                            let (k, i) = choose|k: int, i: int| pending_at(s, k, i, p);
                            assert(pending_at(s2, k, i, p));
                        }
                    }
                }
            } else {
                assert forall|p: Seq<Seq<char>>| #[trigger] found_at(c, s, log, p) by {
                    assert(reached_at(c, s, log, p));
                    if entry_of(c, p) && below(path, p) {
                        lemma_ancestor(c, path, p);
                    }
                }
                lemma_walk_next(c, s, log);
            }
        },
        _ => {},
    }
}

/// An entry of the tree below the directory `dir` lies at or below an entry
/// of `dir` that the listing of `dir` names.
proof fn lemma_child_listed(c: Setting, dir: Seq<Seq<char>>, p: Seq<Seq<char>>)
    requires
        source_tree(c.fs0, c.src, c.lister),
        at_or_below(c.src, dir),
        entry_of(c, p),
        below(dir, p),
    ensures
        at_or_below(dir.push(p[dir.len() as int]), p),
        exists|i: int|
            0 <= i < (c.lister)(dir).len() && entry_named(
                #[trigger] (c.lister)(dir)[i],
                p[dir.len() as int],
            ),
{
    let name = p[dir.len() as int];
    let child = dir.push(name);
    lemma_below_child(c.src, dir, name);
    assert(child =~= p.subrange(0, dir.len() as int + 1)) by {
        assert(dir =~= p.subrange(0, dir.len() as int));
    }
    if child.len() == p.len() {
        assert(child =~= p);
    } else {
        assert(below(child, p));
        lemma_ancestor(c, child, p);
    }
    assert(c.fs0.contains_key(dir.push(name)));
    assert(is_listing(c.fs0, dir, (c.lister)(dir)));
}

/// The invariant of a walk holds after any number of operations.
proof fn lemma_walk_play(c: Setting, s: SessionV, log: Seq<RequestV>, fuel: nat)
    requires
        source_tree(c.fs0, c.src, c.lister),
        walk_inv(c, s, log),
    ensures
        play(s, c.fs0, c.lister, fuel).1 == c.fs0,
        walk_inv(c, play(s, c.fs0, c.lister, fuel).0, play_log(s, c.fs0, c.lister, fuel, log)),
    decreases fuel,
{
    if fuel == 0 || s.stage is Finished {
    } else {
        lemma_walk_step(c, s, log);
        let reply = answer(c.fs0, c.lister, s.request()).1;
        let s2 = s.advance(reply);
        lemma_walk_play(c, s2, log.push(s2.request()), (fuel - 1) as nat);
    }
}

/// A walk that succeeds has called the visitor on every entry of the tree
/// below its root, and told it rightly whether the entry is a directory.
/// The walk has changed nothing.
pub proof fn law_walk_reaches_all(
    src: Seq<Seq<char>>,
    dest: Seq<Seq<char>>,
    fs: Fs,
    lister: spec_fn(Seq<Seq<char>>) -> Seq<EntryV>,
    fuel: nat,
    p: Seq<Seq<char>>,
)
    requires
        source_tree(fs, src, lister),
        play(SessionV::start(Mode::Walk, src, dest), fs, lister, fuel).0.stage == (
        StageV::Finished { result: Ok(()) }),
        below(src, p),
        fs.contains_key(p),
    ensures
        play(SessionV::start(Mode::Walk, src, dest), fs, lister, fuel).1 == fs,
        exists|i: int|
            0 <= i < play_log(
                SessionV::start(Mode::Walk, src, dest),
                fs,
                lister,
                fuel,
                seq![RequestV::ReadDir { path: src }],
            ).len() && (#[trigger] play_log(
                SessionV::start(Mode::Walk, src, dest),
                fs,
                lister,
                fuel,
                seq![RequestV::ReadDir { path: src }],
            )[i]) == (RequestV::Visit { path: p, is_dir: fs[p] is Dir }),
{
    let c = Setting { mode: Mode::Walk, src, dest, fs0: fs, lister };
    let s0 = SessionV::start(Mode::Walk, src, dest);
    let log = seq![RequestV::ReadDir { path: src }];
    assert(walk_inv(c, s0, log)) by {
        assert forall|k: int, i: int| #[trigger] frame_ok(c, s0, k, i) by {}
        assert forall|q: Seq<Seq<char>>| #[trigger] reached_at(c, s0, log, q) by {}
    }
    lemma_walk_play(c, s0, log, fuel);
    let end = play(s0, fs, lister, fuel).0;
    let all = play_log(s0, fs, lister, fuel, log);
    assert(reached_at(c, end, all, p));
    assert(seen(c, all, p));
}

} // verus!
