//! What holds of every run of a session, whatever the driver answers.

use crate::error::ErrorV;
use crate::model::{FrameV, Mode, SessionV, StageV};
use crate::path::{
    dot_part, is_entry_name, is_normal, is_rooted, join_paths, lemma_join_name,
    lemma_name_is_piece, lemma_parse_name, lemma_prefixes_nest, normal_at, parse_path, root_part,
    strip_base,
};
use crate::protocol::{DirectiveV, EntryV, ReplyV, RequestV};
use vstd::prelude::*;

verus! {

/// `p` lies below `root`: `root` is a proper prefix of it, and each further
/// component is the name of an entry.
pub open spec fn below(root: Seq<Seq<char>>, p: Seq<Seq<char>>) -> bool {
    &&& root.is_prefix_of(p)
    &&& p.len() > root.len()
    &&& forall|i: int| root.len() <= i < p.len() ==> is_entry_name(#[trigger] p[i])
}

/// `p` is `root` or lies below it.
pub open spec fn at_or_below(root: Seq<Seq<char>>, p: Seq<Seq<char>>) -> bool {
    p == root || below(root, p)
}

/// The place below `dest` of a path `p` that lies below `src`: `dest`,
/// followed by what `p` has after `src`.
pub open spec fn mirror_of(src: Seq<Seq<char>>, dest: Seq<Seq<char>>, p: Seq<Seq<char>>) -> Seq<
    Seq<char>,
> {
    dest + p.skip(src.len() as int)
}

/// The entry whose visit the request `req` begins, if it begins one: a plain
/// walk begins a visit by calling the visitor, a mirror by announcing the
/// entry.
pub open spec fn entered_path(req: RequestV) -> Option<Seq<Seq<char>>> {
    match req {
        RequestV::Visit { path, is_dir } => Some(path),
        RequestV::Announce { directive: DirectiveV::RerunIfChanged { path } } => Some(path),
        _ => None,
    }
}

/// One of the first `n` requests of `tr` begins the visit of `d`.
pub open spec fn entered_before(tr: Seq<RequestV>, n: int, d: Seq<Seq<char>>) -> bool {
    exists|i: int| 0 <= i < n && #[trigger] entered_path(tr[i]) == Some(d)
}

/// The place at which the request `req` creates something, if it does.
pub open spec fn written_place(req: RequestV) -> Option<Seq<Seq<char>>> {
    match req {
        RequestV::CreateDirAll { path } => Some(path),
        RequestV::CopyFile { from, to } => Some(to),
        RequestV::Symlink { target, link } => Some(link),
        _ => None,
    }
}

/// One of the first `n` requests of `tr` creates the directory `t`.
pub open spec fn created_before(tr: Seq<RequestV>, n: int, t: Seq<Seq<char>>) -> bool {
    exists|i: int| 0 <= i < n && (#[trigger] tr[i]) == (RequestV::CreateDirAll { path: t })
}

/// The entry `path` of a mirror lies below the source, and `target` is its
/// place below the destination.
pub open spec fn placed(s: SessionV, path: Seq<Seq<char>>, target: Seq<Seq<char>>) -> bool {
    below(s.src, path) && target == mirror_of(s.src, s.dest, path)
}

/// What holds of every state that a session reaches.
pub open spec fn reachable_shape(s: SessionV) -> bool {
    &&& forall|k: int|
        0 <= k < s.frames.len() ==> at_or_below(s.src, (#[trigger] s.frames[k]).dir)
    &&& match s.stage {
        StageV::Rooting => s.mode != Mode::Walk && s.frames.len() == 0,
        StageV::Listing { dir } => at_or_below(s.src, dir),
        StageV::Visiting { path, is_dir } => s.mode == Mode::Walk && below(s.src, path),
        StageV::Announcing { path, is_dir, target } => s.mode != Mode::Walk && placed(
            s,
            path,
            target,
        ),
        StageV::Creating { path, target } => s.mode != Mode::Walk && placed(s, path, target),
        StageV::Copying { path, target } => s.mode == Mode::Copy && placed(s, path, target),
        StageV::Probing { path, target } => s.mode == Mode::Link && placed(s, path, target),
        StageV::Removing { path, target } => s.mode == Mode::Link && placed(s, path, target),
        StageV::Linking { path, target } => s.mode == Mode::Link && placed(s, path, target),
        StageV::Finished { result } => !(result matches Err(ErrorV::PathError { .. })),
    }
}

/// The directory `d` is the root of the walk, or its visit has begun; and a
/// mirror has asked for its place to be created.
spec fn known(tr: Seq<RequestV>, s: SessionV, d: Seq<Seq<char>>) -> bool {
    &&& d == s.src || entered_before(tr, tr.len() as int, d)
    &&& s.mode != Mode::Walk ==> created_before(
        tr,
        tr.len() as int,
        mirror_of(s.src, s.dest, d),
    )
}

/// The request at `j`, if it creates something, does so at the destination
/// or after the directory that is to hold it was asked for.
spec fn built_first(tr: Seq<RequestV>, dest: Seq<Seq<char>>, j: int) -> bool {
    match written_place(tr[j]) {
        Some(t) => t == dest || (t.len() > 0 && created_before(tr, j, t.drop_last())),
        None => true,
    }
}

/// Everything is created after the directory that is to hold it.
spec fn builds_first(tr: Seq<RequestV>, dest: Seq<Seq<char>>) -> bool {
    forall|j: int| 0 <= j < tr.len() ==> #[trigger] built_first(tr, dest, j)
}

/// A session with the mode, the source and the destination of `s`.
spec fn akin(s: SessionV, s2: SessionV) -> bool {
    s2.mode == s.mode && s2.src == s.src && s2.dest == s.dest
}

/// The request at `j`, if it begins a visit, does so after the visit of the
/// directory that holds the entry has begun, unless that is the root.
spec fn parent_first(tr: Seq<RequestV>, src: Seq<Seq<char>>, j: int) -> bool {
    match entered_path(tr[j]) {
        Some(p) => p.len() > 0 && (p.drop_last() == src || entered_before(tr, j, p.drop_last())),
        None => true,
    }
}

/// Each directory that is being walked is known.
spec fn frames_known(s: SessionV, tr: Seq<RequestV>) -> bool {
    forall|k: int| 0 <= k < s.frames.len() ==> known(tr, s, (#[trigger] s.frames[k]).dir)
}

/// Every visit begins after that of the directory that holds the entry.
spec fn parents_first(tr: Seq<RequestV>, src: Seq<Seq<char>>) -> bool {
    forall|j: int| 0 <= j < tr.len() ==> #[trigger] parent_first(tr, src, j)
}

/// The entry that a stage is at work on, if it is at work on one.
spec fn stage_entry(stage: StageV) -> Option<Seq<Seq<char>>> {
    match stage {
        StageV::Visiting { path, is_dir } => Some(path),
        StageV::Announcing { path, is_dir, target } => Some(path),
        StageV::Creating { path, target } => Some(path),
        StageV::Copying { path, target } => Some(path),
        StageV::Probing { path, target } => Some(path),
        StageV::Removing { path, target } => Some(path),
        StageV::Linking { path, target } => Some(path),
        _ => None,
    }
}

/// How a state stands to the requests made so far.
spec fn history(s: SessionV, tr: Seq<RequestV>) -> bool {
    &&& tr.len() > 0
    &&& tr.last() == s.request()
    &&& frames_known(s, tr)
    &&& (s.stage matches StageV::Listing { dir } ==> known(tr, s, dir))
    &&& (stage_entry(s.stage) matches Some(path) ==> entered_before(tr, tr.len() as int, path)
        && path.len() > 0 && known(tr, s, path.drop_last()))
    &&& parents_first(tr, s.src)
    &&& builds_first(tr, s.dest)
}

/// A visit that has begun stays on record.
proof fn lemma_entered_push(tr: Seq<RequestV>, x: RequestV, n: int, d: Seq<Seq<char>>)
    requires
        entered_before(tr, n, d),
        n <= tr.len(),
    ensures
        entered_before(tr.push(x), n, d),
        entered_before(tr.push(x), tr.push(x).len() as int, d),
{
    let i = choose|i: int| 0 <= i < n && #[trigger] entered_path(tr[i]) == Some(d);
    assert(tr.push(x)[i] == tr[i]);
    assert(entered_path(tr.push(x)[i]) == Some(d));
}

/// A directory that was asked for stays on record.
proof fn lemma_created_push(tr: Seq<RequestV>, x: RequestV, n: int, t: Seq<Seq<char>>)
    requires
        created_before(tr, n, t),
        n <= tr.len(),
    ensures
        created_before(tr.push(x), n, t),
        created_before(tr.push(x), tr.push(x).len() as int, t),
{
    let i = choose|i: int| 0 <= i < n && (#[trigger] tr[i]) == (RequestV::CreateDirAll { path: t });
    assert(tr.push(x)[i] == tr[i]);
}

/// A directory that is known stays known.
proof fn lemma_known_push(tr: Seq<RequestV>, x: RequestV, s: SessionV, d: Seq<Seq<char>>)
    requires
        known(tr, s, d),
    ensures
        known(tr.push(x), s, d),
{
    if d != s.src {
        lemma_entered_push(tr, x, tr.len() as int, d);
    }
    if s.mode != Mode::Walk {
        lemma_created_push(tr, x, tr.len() as int, mirror_of(s.src, s.dest, d));
    }
}

/// The order of creation holds of one more request, where it holds of that
/// request itself.
proof fn lemma_builds_push(tr: Seq<RequestV>, x: RequestV, dest: Seq<Seq<char>>)
    requires
        builds_first(tr, dest),
        built_first(tr.push(x), dest, tr.len() as int),
    ensures
        builds_first(tr.push(x), dest),
{
    let tr2 = tr.push(x);
    assert forall|j: int| 0 <= j < tr2.len() implies #[trigger] built_first(tr2, dest, j) by {
        if j < tr.len() {
            assert(built_first(tr, dest, j));
            assert(tr2[j] == tr[j]);
            match written_place(tr[j]) {
                Some(t) => {
                    if t != dest {
                        lemma_created_push(tr, x, j, t.drop_last());
                    }
                },
                None => {},
            }
        }
    }
}

/// The place of an entry is the place of the directory that holds it,
/// followed by the name of the entry.
pub proof fn lemma_mirror_parent(src: Seq<Seq<char>>, dest: Seq<Seq<char>>, p: Seq<Seq<char>>)
    requires
        below(src, p),
    ensures
        mirror_of(src, dest, p).len() > dest.len(),
        dest.is_prefix_of(mirror_of(src, dest, p)),
        mirror_of(src, dest, p).drop_last() == mirror_of(src, dest, p.drop_last()),
        mirror_of(src, dest, src) == dest,
{
    let m = mirror_of(src, dest, p);
    assert(dest =~= m.subrange(0, dest.len() as int));
    assert(m.drop_last() =~= dest + p.drop_last().skip(src.len() as int));
    assert(mirror_of(src, dest, src) =~= dest);
}

/// The order of visits holds of one more request, where it holds of that
/// request itself.
proof fn lemma_parents_push(tr: Seq<RequestV>, x: RequestV, src: Seq<Seq<char>>)
    requires
        parents_first(tr, src),
        parent_first(tr.push(x), src, tr.len() as int),
    ensures
        parents_first(tr.push(x), src),
{
    let tr2 = tr.push(x);
    assert forall|j: int| 0 <= j < tr2.len() implies #[trigger] parent_first(tr2, src, j) by {
        if j < tr.len() {
            assert(parent_first(tr, src, j));
            assert(tr2[j] == tr[j]);
            match entered_path(tr[j]) {
                Some(p) => {
                    if p.drop_last() != src {
                        lemma_entered_push(tr, x, j, p.drop_last());
                    }
                },
                None => {},
            }
        }
    }
}

/// The directories of a session that keeps or drops directories stay known.
proof fn lemma_frames_push(s: SessionV, s2: SessionV, tr: Seq<RequestV>, x: RequestV)
    requires
        frames_known(s, tr),
        akin(s, s2),
        s2.frames.len() <= s.frames.len(),
        forall|k: int| 0 <= k < s2.frames.len() ==> (#[trigger] s2.frames[k]).dir == s.frames[k].dir,
    ensures
        frames_known(s2, tr.push(x)),
{
    assert forall|k: int| 0 <= k < s2.frames.len() implies known(
        tr.push(x),
        s2,
        (#[trigger] s2.frames[k]).dir,
    ) by {
        assert(known(tr, s, s.frames[k].dir));
        lemma_known_push(tr, x, s, s.frames[k].dir);
    }
}

/// A path that lies below `src` has `src` stripped to what follows it, and
/// joining that to `dest` puts it behind `dest` as it is.
pub proof fn lemma_place(src: Seq<Seq<char>>, dest: Seq<Seq<char>>, path: Seq<Seq<char>>)
    requires
        below(src, path),
    ensures
        strip_base(path, src) == Some(path.skip(src.len() as int)),
        join_paths(dest, path.skip(src.len() as int)) == mirror_of(src, dest, path),
{
    let rel = path.skip(src.len() as int);
    assert(rel[0] == path[src.len() as int]);
    assert(is_entry_name(rel[0]));
    assert(root_part()[0] == '/');
    assert(root_part().contains('/'));
    assert(!is_rooted(rel));
    assert(rel[0] != dot_part());
    if dest.len() == 0 {
        assert(rel =~= dest + rel);
    }
}

/// An entry of a directory at or below `src` lies below `src`.
pub proof fn lemma_below_child(src: Seq<Seq<char>>, dir: Seq<Seq<char>>, name: Seq<char>)
    requires
        at_or_below(src, dir),
        is_entry_name(name),
    ensures
        below(src, dir.push(name)),
        dir.push(name).drop_last() == dir,
{
    let p = dir.push(name);
    assert(p.drop_last() =~= dir);
    assert(src =~= p.subrange(0, src.len() as int)) by {
        assert(src =~= dir.subrange(0, src.len() as int));
    }
    assert forall|i: int| src.len() <= i < p.len() implies is_entry_name(#[trigger] p[i]) by {
        if i < dir.len() {
            assert(p[i] == dir[i]);
        }
    }
}

/// Entering an entry of a known directory keeps the shape and the history.
proof fn lemma_enter(s: SessionV, tr: Seq<RequestV>, dir: Seq<Seq<char>>, name: Seq<char>, is_dir: bool)
    requires
        reachable_frames(s),
        frames_known(s, tr),
        parents_first(tr, s.src),
        builds_first(tr, s.dest),
        at_or_below(s.src, dir),
        known(tr, s, dir),
        is_entry_name(name),
    ensures
        ({
            let s2 = s.enter(dir.push(name), is_dir);
            reachable_shape(s2) && history(s2, tr.push(s2.request()))
        }),
{
    let path = dir.push(name);
    let s2 = s.enter(path, is_dir);
    let tr2 = tr.push(s2.request());
    lemma_below_child(s.src, dir, name);
    lemma_place(s.src, s.dest, path);
    assert(s2.frames == s.frames);
    lemma_frames_push(s, s2, tr, s2.request());
    assert(entered_path(tr2[tr.len() as int]) == Some(path));
    assert(entered_before(tr2, tr2.len() as int, path));
    assert(parent_first(tr2, s.src, tr.len() as int)) by {
        if dir != s.src {
            lemma_entered_push(tr, s2.request(), tr.len() as int, dir);
        }
    }
    lemma_parents_push(tr, s2.request(), s.src);
    assert(written_place(tr2[tr.len() as int]) is None);
    lemma_builds_push(tr, s2.request(), s.dest);
    lemma_known_push(tr, s2.request(), s, dir);
}

/// The directories that are being walked lie at or below the source.
spec fn reachable_frames(s: SessionV) -> bool {
    forall|k: int| 0 <= k < s.frames.len() ==> at_or_below(s.src, (#[trigger] s.frames[k]).dir)
}

/// Ending a session keeps the shape and the history.
proof fn lemma_settled(s: SessionV, s2: SessionV, tr: Seq<RequestV>)
    requires
        reachable_frames(s),
        frames_known(s, tr),
        parents_first(tr, s.src),
        builds_first(tr, s.dest),
        akin(s, s2),
        s2.frames.len() <= s.frames.len(),
        forall|k: int| 0 <= k < s2.frames.len() ==> (#[trigger] s2.frames[k]).dir == s.frames[k].dir,
        s2.stage is Finished,
        !(s2.stage->result matches Err(ErrorV::PathError { .. })),
    ensures
        reachable_shape(s2),
        history(s2, tr.push(s2.request())),
{
    lemma_frames_push(s, s2, tr, s2.request());
    let tr2 = tr.push(s2.request());
    assert(entered_path(tr2[tr.len() as int]) is None);
    lemma_parents_push(tr, s2.request(), s.src);
    assert(written_place(tr2[tr.len() as int]) is None);
    lemma_builds_push(tr, s2.request(), s.dest);
    assert forall|k: int| 0 <= k < s2.frames.len() implies at_or_below(
        s2.src,
        (#[trigger] s2.frames[k]).dir,
    ) by {
        assert(at_or_below(s.src, s.frames[k].dir));
    }
}

/// Taking the next entry keeps the shape and the history.
proof fn lemma_next_entry(s: SessionV, tr: Seq<RequestV>)
    requires
        reachable_frames(s),
        frames_known(s, tr),
        parents_first(tr, s.src),
        builds_first(tr, s.dest),
    ensures
        ({
            let s2 = s.next_entry();
            &&& reachable_shape(s2)
            &&& history(s2, tr.push(s2.request()))
            &&& akin(s, s2)
        }),
    decreases s.frames.len(),
{
    if s.frames.len() == 0 {
        lemma_settled(s, s.next_entry(), tr);
    } else {
        let top = s.frames.last();
        if top.rest.len() == 0 {
            let popped = SessionV { frames: s.frames.drop_last(), ..s };
            assert forall|k: int| 0 <= k < popped.frames.len() implies at_or_below(
                popped.src,
                (#[trigger] popped.frames[k]).dir,
            ) && known(tr, popped, popped.frames[k].dir) by {
                assert(popped.frames[k] == s.frames[k]);
                assert(known(tr, s, s.frames[k].dir));
            }
            lemma_next_entry(popped, tr);
        } else {
            let taken = SessionV {
                frames: s.frames.drop_last().push(
                    FrameV { dir: top.dir, rest: top.rest.skip(1) },
                ),
                ..s
            };
            assert(taken.frames.len() == s.frames.len());
            assert forall|k: int| 0 <= k < taken.frames.len() implies (#[trigger] taken.frames[k]).dir
                == s.frames[k].dir by {
                if k < s.frames.len() - 1 {
                    assert(taken.frames[k] == s.frames[k]);
                }
            }
            assert(reachable_frames(taken)) by {
                assert forall|k: int| 0 <= k < taken.frames.len() implies at_or_below(
                    taken.src,
                    (#[trigger] taken.frames[k]).dir,
                ) by {
                    assert(at_or_below(s.src, s.frames[k].dir));
                }
            }
            assert(frames_known(taken, tr)) by {
                assert forall|k: int| 0 <= k < taken.frames.len() implies known(
                    tr,
                    taken,
                    (#[trigger] taken.frames[k]).dir,
                ) by {
                    assert(known(tr, s, s.frames[k].dir));
                }
            }
            assert(at_or_below(s.src, top.dir) && known(tr, taken, top.dir)) by {
                assert(top == s.frames[s.frames.len() - 1]);
                assert(known(tr, s, top.dir));
            }
            match top.rest[0] {
                EntryV::Unreadable { cause } => {
                    lemma_settled(taken, s.next_entry(), tr);
                },
                EntryV::Found { name, is_dir } => {
                    if is_entry_name(name) {
                        lemma_enter(taken, tr, top.dir, name, is_dir);
                    } else {
                        lemma_settled(taken, s.next_entry(), tr);
                    }
                },
            }
        }
    }
}

/// Moving to another stage of the same entry, or to the listing of a known
/// directory, keeps the history.
proof fn lemma_moved(s: SessionV, tr: Seq<RequestV>, stage: StageV)
    requires
        reachable_shape(s),
        history(s, tr),
        reachable_shape(s.at(stage)),
        entered_path(s.at(stage).request()) is None,
        stage matches StageV::Listing { dir } ==> known(tr, s, dir),
        stage_entry(stage) matches Some(path) ==> entered_before(tr, tr.len() as int, path)
            && path.len() > 0 && known(tr, s, path.drop_last()),
        !(stage is Rooting),
    ensures
        history(s.at(stage), tr.push(s.at(stage).request())),
{
    let s2 = s.at(stage);
    let x = s2.request();
    let tr2 = tr.push(x);
    lemma_frames_push(s, s2, tr, x);
    assert(entered_path(tr2[tr.len() as int]) is None);
    lemma_parents_push(tr, x, s.src);
    match stage {
        StageV::Listing { dir } => {
            lemma_known_push(tr, x, s, dir);
        },
        _ => {},
    }
    match stage_entry(stage) {
        Some(path) => {
            lemma_entered_push(tr, x, tr.len() as int, path);
            lemma_known_push(tr, x, s, path.drop_last());
            if s.mode != Mode::Walk {
                lemma_mirror_parent(s.src, s.dest, path);
                lemma_created_push(
                    tr,
                    x,
                    tr.len() as int,
                    mirror_of(s.src, s.dest, path.drop_last()),
                );
            }
        },
        None => {},
    }
    assert(built_first(tr2, s.dest, tr.len() as int));
    lemma_builds_push(tr, x, s.dest);
}

/// Leaving an entry keeps the shape and the history.
proof fn lemma_leave(s: SessionV, tr: Seq<RequestV>, path: Seq<Seq<char>>, is_dir: bool)
    requires
        reachable_shape(s),
        history(s, tr),
        stage_entry(s.stage) == Some(path),
        is_dir ==> s.stage is Visiting || s.stage is Creating,
    ensures
        reachable_shape(s.leave(path, is_dir)),
        history(s.leave(path, is_dir), tr.push(s.leave(path, is_dir).request())),
{
    if is_dir {
        if s.mode != Mode::Walk {
            assert(tr[tr.len() - 1] == RequestV::CreateDirAll {
                path: mirror_of(s.src, s.dest, path),
            });
        }
        lemma_moved(s, tr, StageV::Listing { dir: path });
    } else {
        lemma_next_entry(s, tr);
    }
}

/// Every answer keeps the shape and the history.
proof fn lemma_step(s: SessionV, tr: Seq<RequestV>, reply: ReplyV)
    requires
        reachable_shape(s),
        history(s, tr),
    ensures
        reachable_shape(s.advance(reply)),
        history(s.advance(reply), tr.push(s.advance(reply).request())),
{
    let s2 = s.advance(reply);
    match s.stage {
        StageV::Rooting => {
            if reply is Done {
                assert(tr[tr.len() - 1] == RequestV::CreateDirAll { path: s.dest });
                assert(mirror_of(s.src, s.dest, s.src) =~= s.dest);
            }
            lemma_moved(s, tr, s2.stage);
        },
        StageV::Listing { dir } => {
            match reply {
                ReplyV::Entries { entries } => {
                    let pushed = SessionV {
                        frames: s.frames.push(FrameV { dir, rest: entries }),
                        ..s
                    };
                    assert forall|k: int| 0 <= k < pushed.frames.len() implies at_or_below(
                        pushed.src,
                        (#[trigger] pushed.frames[k]).dir,
                    ) && known(tr, pushed, pushed.frames[k].dir) by {
                        if k < s.frames.len() {
                            assert(pushed.frames[k] == s.frames[k]);
                            assert(known(tr, s, s.frames[k].dir));
                        }
                    }
                    lemma_next_entry(pushed, tr);
                },
                _ => {
                    lemma_moved(s, tr, s2.stage);
                },
            }
        },
        StageV::Visiting { path, is_dir } => {
            if reply is Done {
                lemma_leave(s, tr, path, is_dir);
            } else {
                lemma_moved(s, tr, s2.stage);
            }
        },
        StageV::Announcing { path, is_dir, target } => {
            lemma_moved(s, tr, s2.stage);
        },
        StageV::Creating { path, target } => {
            if reply is Done {
                lemma_leave(s, tr, path, true);
            } else {
                lemma_moved(s, tr, s2.stage);
            }
        },
        StageV::Copying { path, target } => {
            if reply is Done {
                lemma_leave(s, tr, path, false);
            } else {
                lemma_moved(s, tr, s2.stage);
            }
        },
        StageV::Probing { path, target } => {
            lemma_moved(s, tr, s2.stage);
        },
        StageV::Removing { path, target } => {
            lemma_moved(s, tr, s2.stage);
        },
        StageV::Linking { path, target } => {
            if reply is Done {
                lemma_leave(s, tr, path, false);
            } else {
                lemma_moved(s, tr, s2.stage);
            }
        },
        StageV::Finished { result } => {
            lemma_moved(s, tr, s2.stage);
        },
    }
}

/// Every run has the shape and the history.
proof fn lemma_run(mode: Mode, src: Seq<Seq<char>>, dest: Seq<Seq<char>>, replies: Seq<ReplyV>)
    ensures
        reachable_shape(SessionV::start(mode, src, dest).run(replies)),
        history(
            SessionV::start(mode, src, dest).run(replies),
            SessionV::start(mode, src, dest).requests(replies),
        ),
        SessionV::start(mode, src, dest).run(replies).src == src,
        SessionV::start(mode, src, dest).run(replies).dest == dest,
        SessionV::start(mode, src, dest).run(replies).mode == mode,
    decreases replies.len(),
{
    let s0 = SessionV::start(mode, src, dest);
    if replies.len() == 0 {
        let tr = seq![s0.request()];
        assert(entered_path(tr[0]) is None);
        assert(parent_first(tr, src, 0));
        assert(built_first(tr, dest, 0));
    } else {
        lemma_run(mode, src, dest, replies.drop_last());
        lemma_step(s0.run(replies.drop_last()), s0.requests(replies.drop_last()), replies.last());
        lemma_fixed(s0.run(replies.drop_last()), replies.last());
    }
}

/// A session keeps its mode, its source and its destination.
pub proof fn lemma_fixed(s: SessionV, reply: ReplyV)
    ensures
        s.advance(reply).mode == s.mode,
        s.advance(reply).src == s.src,
        s.advance(reply).dest == s.dest,
{
    lemma_next_fixed(s);
    match s.stage {
        StageV::Listing { dir } => {
            match reply {
                ReplyV::Entries { entries } => {
                    lemma_next_fixed(
                        SessionV {
                            frames: s.frames.push(FrameV { dir, rest: entries }),
                            ..s
                        },
                    );
                },
                _ => {},
            }
        },
        _ => {},
    }
}

/// Taking the next entry keeps the mode, the source and the destination.
proof fn lemma_next_fixed(s: SessionV)
    ensures
        s.next_entry().mode == s.mode,
        s.next_entry().src == s.src,
        s.next_entry().dest == s.dest,
    decreases s.frames.len(),
{
    if s.frames.len() > 0 && s.frames.last().rest.len() == 0 {
        lemma_next_fixed(SessionV { frames: s.frames.drop_last(), ..s });
    }
}

/// Every entry that a mirror is at work on lies below the source, and the
/// place that the mirror gives it is the destination followed by what the
/// entry has after the source, at whatever depth the walk has reached. No
/// session ends because an entry could not be placed.
pub proof fn law_placement(
    mode: Mode,
    src: Seq<Seq<char>>,
    dest: Seq<Seq<char>>,
    replies: Seq<ReplyV>,
)
    ensures
        reachable_shape(SessionV::start(mode, src, dest).run(replies)),
        match SessionV::start(mode, src, dest).run(replies).request() {
            RequestV::CopyFile { from, to } => below(src, from) && to == mirror_of(src, dest, from),
            RequestV::Symlink { target, link } => below(src, target) && link == mirror_of(
                src,
                dest,
                target,
            ),
            RequestV::Visit { path, is_dir } => below(src, path),
            RequestV::Finish { result } => !(result matches Err(ErrorV::PathError { .. })),
            _ => true,
        },
{
    lemma_run(mode, src, dest, replies);
}

/// Visits come in pre-order: when the visit of an entry begins, the visit of
/// every directory between the root of the walk and the entry has begun
/// before.
pub proof fn law_preorder(
    mode: Mode,
    src: Seq<Seq<char>>,
    dest: Seq<Seq<char>>,
    replies: Seq<ReplyV>,
    j: int,
    d: Seq<Seq<char>>,
)
    requires
        0 <= j <= replies.len(),
        entered_path(SessionV::start(mode, src, dest).requests(replies)[j]) matches Some(p)
            && d.is_prefix_of(p) && d.len() < p.len(),
        src.is_prefix_of(d),
        src.len() < d.len(),
    ensures
        exists|i: int|
            0 <= i < j && #[trigger] entered_path(
                SessionV::start(mode, src, dest).requests(replies)[i],
            ) == Some(d),
{
    lemma_run(mode, src, dest, replies);
    let tr = SessionV::start(mode, src, dest).requests(replies);
    lemma_requests_len(SessionV::start(mode, src, dest), replies);
    lemma_ancestors(tr, src, j, d);
}

/// A mirror asks for a directory before it asks for anything in it: each
/// request that creates a directory, a copy or a link elsewhere than at the
/// destination itself comes after the request that creates the directory
/// which is to hold it.
pub proof fn law_parents_created(
    mode: Mode,
    src: Seq<Seq<char>>,
    dest: Seq<Seq<char>>,
    replies: Seq<ReplyV>,
    j: int,
)
    requires
        0 <= j <= replies.len(),
        written_place(SessionV::start(mode, src, dest).requests(replies)[j]) matches Some(t) && t
            != dest,
    ensures
        exists|i: int|
            0 <= i < j && (#[trigger] SessionV::start(mode, src, dest).requests(replies)[i]) == (
            RequestV::CreateDirAll {
                path: written_place(
                    SessionV::start(mode, src, dest).requests(replies)[j],
                )->0.drop_last(),
            }),
{
    lemma_run(mode, src, dest, replies);
    let tr = SessionV::start(mode, src, dest).requests(replies);
    lemma_requests_len(SessionV::start(mode, src, dest), replies);
    assert(built_first(tr, dest, j));
}

/// Two mirrors whose destinations lie apart, neither at or below the other,
/// never create anything at the same place, whatever their sources hold.
pub proof fn law_destinations_apart(
    src_a: Seq<Seq<char>>,
    dest_a: Seq<Seq<char>>,
    replies_a: Seq<ReplyV>,
    src_b: Seq<Seq<char>>,
    dest_b: Seq<Seq<char>>,
    replies_b: Seq<ReplyV>,
)
    requires
        !dest_a.is_prefix_of(dest_b),
        !dest_b.is_prefix_of(dest_a),
    ensures
        written_place(SessionV::start(Mode::Copy, src_a, dest_a).run(replies_a).request())
            matches Some(at_a) ==> written_place(
            SessionV::start(Mode::Copy, src_b, dest_b).run(replies_b).request(),
        ) != Some(at_a),
{
    let a = SessionV::start(Mode::Copy, src_a, dest_a).run(replies_a);
    let b = SessionV::start(Mode::Copy, src_b, dest_b).run(replies_b);
    lemma_run(Mode::Copy, src_a, dest_a, replies_a);
    lemma_run(Mode::Copy, src_b, dest_b, replies_b);
    match (written_place(a.request()), written_place(b.request())) {
        (Some(at_a), Some(at_b)) => {
            lemma_written_below(a);
            lemma_written_below(b);
            if at_a == at_b {
                lemma_prefixes_nest(dest_a, dest_b, at_a);
            }
        },
        _ => {},
    }
}

/// What a session creates lies at or below its destination.
proof fn lemma_written_below(s: SessionV)
    requires
        reachable_shape(s),
    ensures
        written_place(s.request()) matches Some(t) ==> s.dest.is_prefix_of(t),
{
    match s.stage {
        StageV::Rooting => {
            assert(s.dest =~= s.dest.subrange(0, s.dest.len() as int));
        },
        StageV::Creating { path, target } => {
            lemma_mirror_parent(s.src, s.dest, path);
        },
        StageV::Copying { path, target } => {
            lemma_mirror_parent(s.src, s.dest, path);
        },
        StageV::Linking { path, target } => {
            lemma_mirror_parent(s.src, s.dest, path);
        },
        _ => {},
    }
}

/// Dependencies that are added under two different names are kept apart:
/// the copies into the directories of those names below one root never
/// create anything at the same place, also where both dependencies hold
/// entries of the same name at the same place.
pub proof fn law_dependencies_apart(
    root: Seq<Seq<char>>,
    a: Seq<char>,
    dir_a: Seq<Seq<char>>,
    replies_a: Seq<ReplyV>,
    b: Seq<char>,
    dir_b: Seq<Seq<char>>,
    replies_b: Seq<ReplyV>,
)
    requires
        is_entry_name(a),
        is_entry_name(b),
        a != b,
    ensures
        written_place(
            SessionV::start(Mode::Copy, dir_a, join_paths(root, parse_path(a))).run(
                replies_a,
            ).request(),
        ) matches Some(at_a) ==> written_place(
            SessionV::start(Mode::Copy, dir_b, join_paths(root, parse_path(b))).run(
                replies_b,
            ).request(),
        ) != Some(at_a),
{
    lemma_parse_name(a);
    lemma_parse_name(b);
    lemma_join_name(root, a);
    lemma_join_name(root, b);
    let dest_a = root.push(a);
    let dest_b = root.push(b);
    assert(!dest_a.is_prefix_of(dest_b)) by {
        if dest_a.is_prefix_of(dest_b) {
            assert(dest_b.subrange(0, dest_a.len() as int)[root.len() as int] == a);
        }
    }
    assert(!dest_b.is_prefix_of(dest_a)) by {
        if dest_b.is_prefix_of(dest_a) {
            assert(dest_a.subrange(0, dest_b.len() as int)[root.len() as int] == b);
        }
    }
    law_destinations_apart(dir_a, dest_a, replies_a, dir_b, dest_b, replies_b);
}

/// The first failure ends a session: when the driver reports that the
/// operation failed, the session ends with an I/O failure that carries the
/// cause, and a session that has ended stays as it is.
pub proof fn law_failure_ends(s: SessionV, cause: Seq<char>, later: ReplyV)
    ensures
        !(s.stage is Finished) ==> (s.advance(ReplyV::Failed { cause }).stage matches StageV::Finished {
            result: Err(ErrorV::IoFailure { cause: c, .. }),
        } && c == cause),
        s.stage is Finished ==> s.advance(later) == s,
{
}

/// A copy only adds: it never asks to remove anything, to link, or to probe,
/// and a link mirror never asks to copy. Neither calls a visitor.
pub proof fn law_modes_apart(
    mode: Mode,
    src: Seq<Seq<char>>,
    dest: Seq<Seq<char>>,
    replies: Seq<ReplyV>,
)
    ensures
        match SessionV::start(mode, src, dest).run(replies).request() {
            RequestV::RemoveFile { .. } => mode == Mode::Link,
            RequestV::Symlink { .. } => mode == Mode::Link,
            RequestV::Exists { .. } => mode == Mode::Link,
            RequestV::CopyFile { .. } => mode == Mode::Copy,
            RequestV::CreateDirAll { .. } => mode != Mode::Walk,
            RequestV::Announce { .. } => mode != Mode::Walk,
            RequestV::Visit { .. } => mode == Mode::Walk,
            _ => true,
        },
{
    lemma_run(mode, src, dest, replies);
}

/// The paths that a request names.
pub open spec fn request_paths(req: RequestV) -> Seq<Seq<Seq<char>>> {
    match req {
        RequestV::CreateDirAll { path } => seq![path],
        RequestV::ReadDir { path } => seq![path],
        RequestV::Visit { path, is_dir } => seq![path],
        RequestV::Announce { directive: DirectiveV::RerunIfChanged { path } } => seq![path],
        RequestV::Announce { directive: DirectiveV::Publish { key, value } } => seq![value],
        RequestV::CopyFile { from, to } => seq![from, to],
        RequestV::Exists { path } => seq![path],
        RequestV::RemoveFile { path } => seq![path],
        RequestV::Symlink { target, link } => seq![target, link],
        RequestV::Finish { result } => Seq::empty(),
    }
}

/// A path that is a normal path followed by entry names is normal.
pub proof fn lemma_names_normal(base: Seq<Seq<char>>, p: Seq<Seq<char>>)
    requires
        is_normal(base),
        base.is_prefix_of(p),
        forall|i: int| base.len() <= i < p.len() ==> is_entry_name(#[trigger] p[i]),
    ensures
        is_normal(p),
{
    assert forall|i: int| 0 <= i < p.len() implies #[trigger] normal_at(p, i) by {
        if i < base.len() {
            assert(p.subrange(0, base.len() as int)[i] == p[i]);
            assert(normal_at(base, i));
        } else {
            lemma_name_is_piece(p[i]);
        }
    }
}

/// Every path that a session names to its driver is normal where its source
/// and its destination are: the text of the path denotes the path.
pub proof fn law_requests_normal(
    mode: Mode,
    src: Seq<Seq<char>>,
    dest: Seq<Seq<char>>,
    replies: Seq<ReplyV>,
    k: int,
)
    requires
        is_normal(src),
        is_normal(dest),
        0 <= k < request_paths(SessionV::start(mode, src, dest).run(replies).request()).len(),
    ensures
        is_normal(request_paths(SessionV::start(mode, src, dest).run(replies).request())[k]),
{
    let s = SessionV::start(mode, src, dest).run(replies);
    lemma_run(mode, src, dest, replies);
    match stage_entry(s.stage) {
        Some(path) => {
            lemma_names_normal(src, path);
            if mode != Mode::Walk {
                let target = mirror_of(src, dest, path);
                lemma_mirror_parent(src, dest, path);
                assert forall|i: int| dest.len() <= i < target.len() implies is_entry_name(
                    #[trigger] target[i],
                ) by {
                    assert(target[i] == path[i - dest.len() + src.len()]);
                }
                lemma_names_normal(dest, target);
            }
        },
        None => {
            match s.stage {
                StageV::Listing { dir } => {
                    if dir != src {
                        lemma_names_normal(src, dir);
                    }
                },
                _ => {},
            }
        },
    }
}

/// The request `next` can come directly after the request `prev` in a
/// session from `src` to `dest`: a directory is listed after its visit or its
/// creation, an entry is copied, probed or created in its place after its
/// announcement, what is in the way of a link is removed after the probe, and
/// a link is created after the probe or the removal.
pub open spec fn follows(
    src: Seq<Seq<char>>,
    dest: Seq<Seq<char>>,
    prev: RequestV,
    next: RequestV,
) -> bool {
    match next {
        RequestV::CreateDirAll { path } => prev matches RequestV::Announce {
            directive: DirectiveV::RerunIfChanged { path: entry },
        } && path == mirror_of(src, dest, entry),
        RequestV::ReadDir { path } => match prev {
            RequestV::CreateDirAll { path: made } => (path == src && made == dest) || made
                == mirror_of(src, dest, path),
            RequestV::Visit { path: visited, is_dir } => visited == path && is_dir,
            _ => false,
        },
        RequestV::Visit { path, is_dir } => match prev {
            RequestV::ReadDir { path: listed } => true,
            RequestV::Visit { path: visited, is_dir: was_dir } => !was_dir,
            _ => false,
        },
        RequestV::Announce { directive } => directive is RerunIfChanged && (prev is ReadDir
            || prev is CopyFile || prev is Symlink),
        RequestV::CopyFile { from, to } => prev == (RequestV::Announce {
            directive: DirectiveV::RerunIfChanged { path: from },
        }),
        RequestV::Exists { path } => prev matches RequestV::Announce {
            directive: DirectiveV::RerunIfChanged { path: entry },
        } && path == mirror_of(src, dest, entry),
        RequestV::RemoveFile { path } => prev == (RequestV::Exists { path }),
        RequestV::Symlink { target, link } => prev == (RequestV::Exists { path: link }) || prev
            == (RequestV::RemoveFile { path: link }),
        RequestV::Finish { result } => true,
    }
}

/// The request at `j` is that of the state after the first `j` replies.
pub proof fn lemma_request_at(s: SessionV, replies: Seq<ReplyV>, j: int)
    requires
        0 <= j <= replies.len(),
    ensures
        s.requests(replies)[j] == s.run(replies.take(j)).request(),
    decreases replies.len(),
{
    lemma_requests_len(s, replies);
    if j == replies.len() {
        assert(replies.take(j) =~= replies);
    } else {
        let shorter = replies.drop_last();
        lemma_requests_len(s, shorter);
        lemma_request_at(s, shorter, j);
        assert(shorter.take(j) =~= replies.take(j));
    }
}

/// The stage at which the next entry is taken up: the session ends, or a
/// visit begins as the mode has it.
proof fn lemma_next_stage(s: SessionV)
    ensures
        match s.next_entry().stage {
            StageV::Finished { result } => true,
            StageV::Visiting { path, is_dir } => s.mode == Mode::Walk,
            StageV::Announcing { path, is_dir, target } => s.mode != Mode::Walk,
            _ => false,
        },
    decreases s.frames.len(),
{
    if s.frames.len() > 0 && s.frames.last().rest.len() == 0 {
        lemma_next_stage(SessionV { frames: s.frames.drop_last(), ..s });
    }
}

/// The requests of a session come in the order of the protocol: each
/// request but the first can follow the one before it.
pub proof fn law_request_order(
    mode: Mode,
    src: Seq<Seq<char>>,
    dest: Seq<Seq<char>>,
    replies: Seq<ReplyV>,
    j: int,
)
    requires
        0 < j <= replies.len(),
    ensures
        follows(
            src,
            dest,
            SessionV::start(mode, src, dest).requests(replies)[j - 1],
            SessionV::start(mode, src, dest).requests(replies)[j],
        ),
{
    let s0 = SessionV::start(mode, src, dest);
    lemma_request_at(s0, replies, j - 1);
    lemma_request_at(s0, replies, j);
    let before = replies.take(j - 1);
    let upto = replies.take(j);
    assert(upto.drop_last() =~= before);
    assert(upto.last() == replies[j - 1]);
    let a = s0.run(before);
    let reply = replies[j - 1];
    let b = a.advance(reply);
    assert(s0.run(upto) == b);
    lemma_run(mode, src, dest, before);
    lemma_next_stage(a);
    match a.stage {
        StageV::Listing { dir } => {
            match reply {
                ReplyV::Entries { entries } => {
                    lemma_next_stage(
                        SessionV { frames: a.frames.push(FrameV { dir, rest: entries }), ..a },
                    );
                },
                _ => {},
            }
        },
        _ => {},
    }
}

/// A run has one request more than replies.
pub proof fn lemma_requests_len(s: SessionV, replies: Seq<ReplyV>)
    ensures
        s.requests(replies).len() == replies.len() + 1,
    decreases replies.len(),
{
    if replies.len() > 0 {
        lemma_requests_len(s, replies.drop_last());
    }
}

/// The visit of every directory between the root and an entry has begun
/// before that of the entry.
proof fn lemma_ancestors(tr: Seq<RequestV>, src: Seq<Seq<char>>, j: int, d: Seq<Seq<char>>)
    requires
        parents_first(tr, src),
        0 <= j < tr.len(),
        entered_path(tr[j]) matches Some(p) && d.is_prefix_of(p) && d.len() < p.len(),
        src.is_prefix_of(d),
        src.len() < d.len(),
    ensures
        entered_before(tr, j, d),
    decreases j,
{
    let p = entered_path(tr[j])->0;
    assert(parent_first(tr, src, j));
    let parent = p.drop_last();
    assert(d.is_prefix_of(parent)) by {
        assert(d =~= parent.subrange(0, d.len() as int));
    }
    if parent == src {
        assert(false);
    }
    let i = choose|i: int| 0 <= i < j && #[trigger] entered_path(tr[i]) == Some(parent);
    if d.len() == parent.len() {
        assert(d =~= parent);
    } else {
        lemma_ancestors(tr, src, i, d);
        let i2 = choose|i2: int| 0 <= i2 < i && #[trigger] entered_path(tr[i2]) == Some(d);
        assert(0 <= i2 < j && entered_path(tr[i2]) == Some(d));
    }
}

} // verus!
