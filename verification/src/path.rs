//! Paths as sequences of components.
//!
//! A path is held as the list of its components, in the order in which they
//! are written. A rooted path starts with the component `/`; a path that was
//! written with a leading `.` keeps it as its first component. Every other
//! component is a name, `..` included.

use vstd::prelude::*;
use vstd::string::*;

verus! {

/// The component that stands for the filesystem root.
pub open spec fn root_part() -> Seq<char> {
    seq!['/']
}

/// The component that stands for the current directory.
pub open spec fn dot_part() -> Seq<char> {
    seq!['.']
}

/// A path is rooted when its first component is the root.
pub open spec fn is_rooted(p: Seq<Seq<char>>) -> bool {
    p.len() > 0 && p[0] == root_part()
}

/// `b` without a leading current-directory component.
pub open spec fn without_leading_dot(b: Seq<Seq<char>>) -> Seq<Seq<char>> {
    if b.len() > 0 && b[0] == dot_part() {
        b.skip(1)
    } else {
        b
    }
}

/// The path reached by following `b` from `a`: a rooted `b` replaces `a`, an
/// empty `a` gives way to `b`, and otherwise the components of `b` follow
/// those of `a`, a leading `.` of `b` being dropped.
pub open spec fn join_paths(a: Seq<Seq<char>>, b: Seq<Seq<char>>) -> Seq<Seq<char>> {
    if is_rooted(b) {
        b
    } else if a.len() == 0 {
        b
    } else {
        a + without_leading_dot(b)
    }
}

/// What is left of `p` below `base`, where `base` is a prefix of `p`.
pub open spec fn strip_base(p: Seq<Seq<char>>, base: Seq<Seq<char>>) -> Option<Seq<Seq<char>>> {
    if base.is_prefix_of(p) {
        Some(p.skip(base.len() as int))
    } else {
        None
    }
}

/// The length of the run of `s` that ends before its first separator.
pub open spec fn piece_len(s: Seq<char>) -> nat
    decreases s.len(),
{
    if s.len() == 0 || s[0] == '/' {
        0
    } else {
        1 + piece_len(s.skip(1))
    }
}

/// The components written in `s`, piece by piece between separators. An
/// empty piece is no component, and a piece `.` is one only as the `leading`
/// piece of a path.
pub open spec fn pieces_of(s: Seq<char>, leading: bool) -> Seq<Seq<char>>
    decreases s.len(),
{
    if s.len() == 0 {
        Seq::empty()
    } else {
        let k = piece_len(s) as int;
        let piece = s.take(k);
        let rest = if k < s.len() {
            s.skip(k + 1)
        } else {
            Seq::empty()
        };
        if k > 0 && (leading || piece != dot_part()) {
            seq![piece] + pieces_of(rest, false)
        } else {
            pieces_of(rest, false)
        }
    }
}

/// The path written as `s`: a leading separator is the root component, and
/// the pieces between separators follow.
pub open spec fn parse_path(s: Seq<char>) -> Seq<Seq<char>> {
    if s.len() > 0 && s[0] == '/' {
        seq![root_part()] + pieces_of(s.skip(1), false)
    } else {
        pieces_of(s, true)
    }
}

/// The text of a path: its components with one separator between each two,
/// and none after the root.
pub open spec fn render_path(p: Seq<Seq<char>>) -> Seq<char>
    decreases p.len(),
{
    if p.len() == 0 {
        Seq::empty()
    } else if p.len() == 1 {
        p[0]
    } else if p.len() == 2 && p[0] == root_part() {
        p[0] + p[1]
    } else {
        render_path(p.drop_last()) + seq!['/'] + p.last()
    }
}

/// A name that a directory can hold: not empty, without a separator, and
/// neither `.` nor `..`.
pub open spec fn is_entry_name(name: Seq<char>) -> bool {
    &&& name.len() > 0
    &&& !name.contains('/')
    &&& name != dot_part()
    &&& name != seq!['.', '.']
}

/// The run of `s` before index `k` holds no separator and ends at a
/// separator or at the end of `s`: then it is the first piece of `s`.
pub proof fn lemma_piece_len(s: Seq<char>, k: int)
    requires
        0 <= k <= s.len(),
        forall|j: int| 0 <= j < k ==> s[j] != '/',
        k == s.len() || s[k] == '/',
    ensures
        piece_len(s) == k,
    decreases k,
{
    if k > 0 {
        lemma_piece_len(s.skip(1), k - 1);
    }
}

/// Of two prefixes of one path, the shorter is a prefix of the longer.
pub proof fn lemma_prefixes_nest(a: Seq<Seq<char>>, b: Seq<Seq<char>>, t: Seq<Seq<char>>)
    requires
        a.is_prefix_of(t),
        b.is_prefix_of(t),
    ensures
        a.is_prefix_of(b) || b.is_prefix_of(a),
{
    if a.len() <= b.len() {
        assert(a =~= b.subrange(0, a.len() as int));
    } else {
        assert(b =~= a.subrange(0, b.len() as int));
    }
}

/// A component other than the root: not empty, and without a separator.
pub open spec fn is_piece(c: Seq<char>) -> bool {
    c.len() > 0 && !c.contains('/')
}

/// The component at `i` is one that a written path can have there: the root
/// at the front or a piece, and `.` at the front only.
pub open spec fn normal_at(p: Seq<Seq<char>>, i: int) -> bool {
    &&& (i == 0 && p[i] == root_part()) || is_piece(p[i])
    &&& p[i] == dot_part() ==> i == 0
}

/// A path as `parse_path` gives it.
pub open spec fn is_normal(p: Seq<Seq<char>>) -> bool {
    forall|i: int| 0 <= i < p.len() ==> #[trigger] normal_at(p, i)
}

/// The first piece of a text ends within the text, holds no separator, and
/// ends at one unless it ends the text.
pub proof fn lemma_first_piece(s: Seq<char>)
    ensures
        piece_len(s) <= s.len(),
        forall|j: int| 0 <= j < piece_len(s) ==> s[j] != '/',
        piece_len(s) < s.len() ==> s[piece_len(s) as int] == '/',
    decreases s.len(),
{
    if s.len() > 0 && s[0] != '/' {
        lemma_first_piece(s.skip(1));
        assert forall|j: int| 0 <= j < piece_len(s) implies s[j] != '/' by {
            if j > 0 {
                assert(s.skip(1)[j - 1] == s[j]);
            }
        }
    }
}

/// The pieces of a text are pieces, and none but a leading one is `.`.
pub proof fn lemma_pieces_normal(s: Seq<char>, leading: bool)
    ensures
        forall|i: int|
            0 <= i < pieces_of(s, leading).len() ==> is_piece(#[trigger] pieces_of(s, leading)[i])
                && (pieces_of(s, leading)[i] == dot_part() ==> leading && i == 0),
    decreases s.len(),
{
    if s.len() > 0 {
        let k = piece_len(s) as int;
        let piece = s.take(k);
        let rest = if k < s.len() {
            s.skip(k + 1)
        } else {
            Seq::empty()
        };
        lemma_first_piece(s);
        lemma_pieces_normal(rest, false);
        assert(!piece.contains('/')) by {
            if piece.contains('/') {
                let j = choose|j: int| 0 <= j < piece.len() && piece[j] == '/';
                assert(s[j] == '/');
            }
        }
        let tail = pieces_of(rest, false);
        assert forall|i: int| 0 <= i < pieces_of(s, leading).len() implies is_piece(
            #[trigger] pieces_of(s, leading)[i],
        ) && (pieces_of(s, leading)[i] == dot_part() ==> leading && i == 0) by {
            if k > 0 && (leading || piece != dot_part()) {
                if i > 0 {
                    assert(pieces_of(s, leading)[i] == tail[i - 1]);
                }
            } else {
                assert(pieces_of(s, leading)[i] == tail[i]);
            }
        }
    }
}

/// What `parse_path` gives is a normal path.
pub proof fn law_parse_normal(s: Seq<char>)
    ensures
        is_normal(parse_path(s)),
{
    let p = parse_path(s);
    if s.len() > 0 && s[0] == '/' {
        let tail = pieces_of(s.skip(1), false);
        lemma_pieces_normal(s.skip(1), false);
        assert forall|i: int| 0 <= i < p.len() implies #[trigger] normal_at(p, i) by {
            if i > 0 {
                assert(p[i] == tail[i - 1]);
            } else {
                assert(root_part() != dot_part()) by {
                    assert(root_part()[0] == '/');
                }
            }
        }
    } else {
        lemma_pieces_normal(s, true);
        assert forall|i: int| 0 <= i < p.len() implies #[trigger] normal_at(p, i) by {}
    }
}

/// The pieces of two texts with a separator between them are the pieces of
/// the first, followed by those of the second.
pub proof fn lemma_pieces_concat(x: Seq<char>, y: Seq<char>, leading: bool)
    ensures
        pieces_of(x + seq!['/'] + y, leading) == pieces_of(x, leading) + pieces_of(y, false),
    decreases x.len(),
{
    let s = x + seq!['/'] + y;
    lemma_first_piece(x);
    let k = piece_len(x) as int;
    assert(s[k] == '/' || k < x.len());
    assert forall|j: int| 0 <= j < k implies s[j] != '/' by {
        assert(s[j] == x[j]);
    }
    if k < x.len() {
        assert(s[k] == x[k]);
    }
    lemma_piece_len(s, k);
    assert(s.take(k) =~= x.take(k));
    assert(pieces_of(Seq::<char>::empty(), false) =~= Seq::<Seq<char>>::empty());
    if k == x.len() {
        assert(s.skip(k + 1) =~= y);
        assert(x.take(k) =~= x);
        if x.len() == 0 {
            assert(pieces_of(x, leading) + pieces_of(y, false) =~= pieces_of(y, false));
        } else {
            assert(pieces_of(s, leading) =~= pieces_of(x, leading) + pieces_of(y, false));
        }
    } else {
        let rest = x.skip(k + 1);
        assert(s.skip(k + 1) =~= rest + seq!['/'] + y);
        lemma_pieces_concat(rest, y, false);
        assert(pieces_of(s, leading) =~= pieces_of(x, leading) + pieces_of(y, false));
    }
}

/// A piece alone is written as itself.
pub proof fn lemma_piece_alone(c: Seq<char>, leading: bool)
    requires
        is_piece(c),
        leading || c != dot_part(),
    ensures
        pieces_of(c, leading) == seq![c],
{
    assert forall|j: int| 0 <= j < c.len() implies c[j] != '/' by {
        if c[j] == '/' {
            assert(c.contains('/'));
        }
    }
    lemma_piece_len(c, c.len() as int);
    assert(c.take(c.len() as int) =~= c);
    assert(pieces_of(Seq::<char>::empty(), false) =~= Seq::<Seq<char>>::empty());
    assert(seq![c] + Seq::<Seq<char>>::empty() =~= seq![c]);
}

/// The text of a normal path that has components is not empty, and starts
/// with a separator exactly where the path is rooted.
pub proof fn lemma_render_start(p: Seq<Seq<char>>)
    requires
        is_normal(p),
        p.len() > 0,
    ensures
        render_path(p).len() > 0,
        render_path(p)[0] == '/' <==> is_rooted(p),
    decreases p.len(),
{
    assert(normal_at(p, 0));
    assert(root_part()[0] == '/');
    assert(is_piece(p[0]) ==> p[0][0] != '/') by {
        if is_piece(p[0]) && p[0][0] == '/' {
            assert(p[0].contains('/'));
        }
    }
    assert(is_piece(p[0]) ==> p[0] != root_part()) by {
        assert(root_part().contains('/'));
    }
    if p.len() == 1 {
    } else if p.len() == 2 && p[0] == root_part() {
    } else {
        let q = p.drop_last();
        assert forall|i: int| 0 <= i < q.len() implies #[trigger] normal_at(q, i) by {
            assert(normal_at(p, i));
        }
        lemma_render_start(q);
        assert(render_path(p)[0] == render_path(q)[0]);
    }
}

/// Writing a normal path and reading the text again gives the path back.
pub proof fn law_render_then_parse(p: Seq<Seq<char>>)
    requires
        is_normal(p),
    ensures
        parse_path(render_path(p)) == p,
    decreases p.len(),
{
    let text = render_path(p);
    assert(pieces_of(Seq::<char>::empty(), false) =~= Seq::<Seq<char>>::empty());
    assert(root_part()[0] == '/');
    assert(root_part().contains('/'));
    if p.len() == 0 {
        assert(parse_path(text) =~= p);
    } else {
        assert(normal_at(p, 0));
        lemma_render_start(p);
        if p.len() == 1 {
            if p[0] == root_part() {
                assert(text.skip(1) =~= Seq::<char>::empty());
                assert(parse_path(text) =~= p);
            } else {
                lemma_piece_alone(p[0], true);
                assert(parse_path(text) =~= p);
            }
        } else if p.len() == 2 && p[0] == root_part() {
            assert(normal_at(p, 1));
            assert(text.skip(1) =~= p[1]);
            lemma_piece_alone(p[1], false);
            assert(parse_path(text) =~= p);
        } else {
            let q = p.drop_last();
            let c = p.last();
            assert(normal_at(p, p.len() - 1));
            assert forall|i: int| 0 <= i < q.len() implies #[trigger] normal_at(q, i) by {
                assert(normal_at(p, i));
            }
            law_render_then_parse(q);
            lemma_render_start(q);
            lemma_piece_alone(c, false);
            let t = render_path(q);
            assert(text == t + seq!['/'] + c);
            assert(is_rooted(q) == is_rooted(p));
            if is_rooted(p) {
                assert(text.skip(1) =~= t.skip(1) + seq!['/'] + c);
                lemma_pieces_concat(t.skip(1), c, false);
                assert(parse_path(text) =~= q + seq![c]);
            } else {
                lemma_pieces_concat(t, c, true);
                assert(parse_path(text) =~= q + seq![c]);
            }
            assert(q + seq![c] =~= p);
        }
    }
}

/// An entry name is a piece that can stand anywhere in a normal path.
pub proof fn lemma_name_is_piece(name: Seq<char>)
    requires
        is_entry_name(name),
    ensures
        is_piece(name),
        name != dot_part(),
        name != root_part(),
{
    assert(root_part()[0] == '/');
    assert(root_part().contains('/'));
}

/// Joining two normal paths gives a normal path.
pub proof fn law_join_normal(a: Seq<Seq<char>>, b: Seq<Seq<char>>)
    requires
        is_normal(a),
        is_normal(b),
    ensures
        is_normal(join_paths(a, b)),
{
    let j = join_paths(a, b);
    assert(root_part()[0] == '/');
    assert(root_part().contains('/'));
    if !is_rooted(b) && a.len() > 0 {
        let tail = without_leading_dot(b);
        assert forall|i: int| 0 <= i < j.len() implies #[trigger] normal_at(j, i) by {
            if i < a.len() {
                assert(normal_at(a, i));
            } else {
                let at = i - a.len();
                assert(j[i] == tail[at]);
                if b.len() > 0 && b[0] == dot_part() {
                    assert(tail[at] == b[at + 1]);
                    assert(normal_at(b, at + 1));
                } else {
                    assert(tail[at] == b[at]);
                    assert(normal_at(b, at));
                }
            }
        }
    }
}

/// The text of a name is a path of that one component.
pub proof fn lemma_parse_name(name: Seq<char>)
    requires
        is_entry_name(name),
    ensures
        parse_path(name) == seq![name],
{
    assert forall|j: int| 0 <= j < name.len() implies name[j] != '/' by {
        if name[j] == '/' {
            assert(name.contains('/'));
        }
    }
    lemma_piece_len(name, name.len() as int);
    assert(name.take(name.len() as int) =~= name);
    assert(pieces_of(Seq::<char>::empty(), false) =~= Seq::<Seq<char>>::empty());
    assert(seq![name] + Seq::<Seq<char>>::empty() =~= seq![name]);
}

/// Joining a name to a path adds the name as one more component.
pub proof fn lemma_join_name(base: Seq<Seq<char>>, name: Seq<char>)
    requires
        is_entry_name(name),
    ensures
        join_paths(base, seq![name]) == base.push(name),
{
    assert(root_part()[0] == '/');
    assert(root_part().contains('/'));
    assert(!is_rooted(seq![name]));
    assert(without_leading_dot(seq![name]) == seq![name]);
    assert(base + seq![name] =~= base.push(name));
    if base.len() == 0 {
        assert(seq![name] =~= base.push(name));
    }
}

/// A filesystem location, as the list of its components.
#[derive(Debug)]
pub struct StagePath {
    parts: Vec<String>,
}

impl View for StagePath {
    type V = Seq<Seq<char>>;

    closed spec fn view(&self) -> Seq<Seq<char>> {
        texts(self.parts@)
    }
}

/// The text of each string of `v`.
pub open spec fn texts(v: Seq<String>) -> Seq<Seq<char>> {
    Seq::new(v.len(), |i: int| v[i]@)
}

impl Clone for StagePath {
    fn clone(&self) -> (r: Self)
        ensures
            r@ == self@,
    {
        let mut parts: Vec<String> = Vec::new();
        let mut i: usize = 0;
        while i < self.parts.len()
            invariant
                i <= self.parts.len(),
                parts.len() == i,
                forall|j: int| 0 <= j < i ==> parts@[j]@ == self.parts@[j]@,
            decreases self.parts.len() - i,
        {
            let part = self.parts[i].clone();
            parts.push(part);
            i += 1;
        }
        assert(texts(parts@) =~= texts(self.parts@));
        StagePath { parts }
    }
}

impl StagePath {
    /// The path without components.
    pub fn new() -> (p: StagePath)
        ensures
            p@ == Seq::<Seq<char>>::empty(),
    {
        StagePath { parts: Vec::new() }
    }

    /// The path that `text` writes.
    pub fn parse(text: &str) -> (p: StagePath)
        ensures
            p@ == parse_path(text@),
    {
        let n = text.unicode_len();
        let mut parts: Vec<String> = Vec::new();
        let mut start: usize = 0;
        let mut leading = true;
        let mut i: usize = 0;
        proof {
            assert(text@.skip(0) =~= text@);
            assert(texts(parts@) + pieces_of(text@, true) =~= pieces_of(text@, true));
        }
        for c in it: text.chars()
            invariant
                it.seq() == text@,
                n == text@.len(),
                i == it.index(),
                start <= i <= n,
                i == 0 ==> parts@.len() == 0,
                forall|j: int| start <= j < i ==> text@[j] != '/',
                (i == 0 && n > 0 && text@[0] == '/') || parse_path(text@) == texts(parts@)
                    + pieces_of(text@.skip(start as int), leading),
        {
            assert(c == text@[i as int]);
            if c == '/' {
                if i == 0 {
                    parts.push(text.substring_char(0, 1).to_owned());
                    assert(text@.subrange(0, 1) =~= root_part());
                    assert(texts(parts@) =~= seq![root_part()]);
                } else {
                    let ghost tail = text@.skip(start as int);
                    let ghost before = texts(parts@);
                    proof {
                        lemma_piece_len(tail, i - start);
                        assert(tail.skip(i - start + 1) =~= text@.skip(i + 1));
                        assert(tail.take(i - start) =~= text@.subrange(start as int, i as int));
                    }
                    if i > start && (leading || !(i - start == 1 && text.get_char(start) == '.')) {
                        parts.push(text.substring_char(start, i).to_owned());
                        proof {
                            let piece = text@.subrange(start as int, i as int);
                            assert(piece == dot_part() <==> (i - start == 1 && text@[start as int]
                                == '.')) by {
                                if i - start == 1 && text@[start as int] == '.' {
                                    assert(piece =~= dot_part());
                                }
                                if piece == dot_part() {
                                    assert(piece.len() == 1);
                                    assert(piece[0] == '.');
                                }
                            }
                            assert(texts(parts@) =~= before + seq![piece]);
                            assert((before + seq![piece]) + pieces_of(text@.skip(i + 1), false)
                                =~= before + (seq![piece] + pieces_of(text@.skip(i + 1), false)));
                        }
                    } else {
                        proof {
                            let piece = text@.subrange(start as int, i as int);
                            if i > start {
                                assert(piece =~= dot_part());
                            }
                        }
                    }
                }
                start = i + 1;
                leading = false;
            }
            i += 1;
        }
        let ghost tail = text@.skip(start as int);
        let ghost before = texts(parts@);
        assert(pieces_of(Seq::<char>::empty(), false) =~= Seq::<Seq<char>>::empty());
        if n > start {
            proof {
                lemma_piece_len(tail, n - start);
                assert(tail.take(n - start) =~= text@.subrange(start as int, n as int));
                assert(tail.len() == n - start);
            }
            if leading || !(n - start == 1 && text.get_char(start) == '.') {
                parts.push(text.substring_char(start, n).to_owned());
                proof {
                    let piece = text@.subrange(start as int, n as int);
                    assert(piece == dot_part() <==> (n - start == 1 && text@[start as int] == '.')) by {
                        if n - start == 1 && text@[start as int] == '.' {
                            assert(piece =~= dot_part());
                        }
                        if piece == dot_part() {
                            assert(piece.len() == 1);
                            assert(piece[0] == '.');
                        }
                    }
                    assert(texts(parts@) =~= before + seq![piece]);
                    assert(pieces_of(tail, leading) == seq![piece] + Seq::<Seq<char>>::empty());
                    assert(before + seq![piece] =~= before + (seq![piece] + Seq::<Seq<char>>::empty()));
                }
            } else {
                proof {
                    let piece = text@.subrange(start as int, n as int);
                    assert(piece =~= dot_part());
                    assert(pieces_of(tail, leading) == Seq::<Seq<char>>::empty());
                    assert(before =~= before + Seq::<Seq<char>>::empty());
                }
            }
        } else {
            assert(tail.len() == 0);
            assert(pieces_of(tail, leading) == Seq::<Seq<char>>::empty());
            assert(before =~= before + Seq::<Seq<char>>::empty());
        }
        StagePath { parts }
    }

    /// The text of this path, with `/` between its components.
    pub fn render(&self) -> (text: String)
        ensures
            text@ == render_path(self@),
    {
        let mut text = String::new();
        let n = self.parts.len();
        if n == 0 {
            return text;
        }
        text.append(self.parts[0].as_str());
        assert(text@ =~= self@[0]);
        assert(self@.take(1) =~= seq![self@[0]]);
        let rooted = self.is_absolute();
        let mut i: usize = 1;
        while i < n
            invariant
                n == self.parts.len(),
                1 <= i <= n,
                rooted == is_rooted(self@),
                text@ == render_path(self@.take(i as int)),
            decreases n - i,
        {
            let ghost head = self@.take(i as int);
            let ghost next = self@.take(i + 1);
            proof {
                assert(next.drop_last() =~= head);
                assert(next.last() == self@[i as int]);
                assert(next[0] == self@[0]);
                assert(head[0] == self@[0]);
            }
            if !(rooted && i == 1) {
                proof {
                    reveal_strlit("/");
                }
                text.append("/");
                assert("/"@ =~= seq!['/']);
            }
            text.append(self.parts[i].as_str());
            i += 1;
        }
        assert(self@.take(n as int) =~= self@);
        text
    }

    /// Whether this path starts at the filesystem root.
    pub fn is_absolute(&self) -> (r: bool)
        ensures
            r == is_rooted(self@),
    {
        if self.parts.len() == 0 {
            return false;
        }
        let first = self.parts[0].as_str();
        let r = first.unicode_len() == 1 && first.get_char(0) == '/';
        assert(r == (self@[0] =~= root_part()));
        r
    }

    /// The path reached by following `other` from this one.
    pub fn join(&self, other: &StagePath) -> (p: StagePath)
        ensures
            p@ == join_paths(self@, other@),
    {
        if other.is_absolute() || self.parts.len() == 0 {
            return other.clone();
        }
        let mut p = self.clone();
        let mut i: usize = 0;
        if other.parts.len() > 0 {
            let first = other.parts[0].as_str();
            let dotted = first.unicode_len() == 1 && first.get_char(0) == '.';
            assert(dotted == (other@[0] =~= dot_part()));
            if dotted {
                i = 1;
            }
        }
        let ghost tail = without_leading_dot(other@);
        let ghost skipped = i as int;
        assert(tail =~= other@.skip(skipped));
        while i < other.parts.len()
            invariant
                0 <= skipped <= i <= other.parts.len(),
                other@.len() == other.parts.len(),
                p@ == self@ + other@.subrange(skipped, i as int),
            decreases other.parts.len() - i,
        {
            let ghost before = p@;
            p.parts.push(other.parts[i].clone());
            assert(p@ =~= before.push(other@[i as int]));
            assert(other@.subrange(skipped, i + 1) =~= other@.subrange(skipped, i as int).push(
                other@[i as int],
            ));
            i += 1;
        }
        assert(other@.subrange(skipped, i as int) =~= other@.skip(skipped));
        p
    }

    /// What is left of this path below `base`, if `base` is a prefix of it.
    pub fn strip_prefix(&self, base: &StagePath) -> (r: Option<StagePath>)
        ensures
            match r {
                Some(rest) => strip_base(self@, base@) == Some(rest@),
                None => strip_base(self@, base@) is None,
            },
    {
        if !self.starts_with(base) {
            return None;
        }
        let mut rest: Vec<String> = Vec::new();
        let from = base.parts.len();
        let mut i: usize = from;
        assert(base@.len() == from);
        while i < self.parts.len()
            invariant
                from <= i <= self.parts.len(),
                rest.len() == i - from,
                forall|j: int| 0 <= j < i - from ==> rest@[j]@ == self.parts@[j + from]@,
            decreases self.parts.len() - i,
        {
            rest.push(self.parts[i].clone());
            i += 1;
        }
        assert(texts(rest@) =~= self@.skip(from as int));
        Some(StagePath { parts: rest })
    }

    /// The number of components.
    pub fn len(&self) -> (n: usize)
        ensures
            n == self@.len(),
    {
        self.parts.len()
    }

    /// The component at `i`, if there is one.
    pub fn part(&self, i: usize) -> (r: Option<&str>)
        ensures
            i < self@.len() ==> (r matches Some(s) && s@ == self@[i as int]),
            i >= self@.len() ==> r is None,
    {
        if i < self.parts.len() {
            Some(self.parts[i].as_str())
        } else {
            None
        }
    }

    /// This path with `name` as one more component.
    pub fn child(&self, name: &str) -> (p: StagePath)
        ensures
            p@ == self@.push(name@),
    {
        let mut p = self.clone();
        p.parts.push(name.to_owned());
        assert(p@ =~= self@.push(name@));
        p
    }

    /// Whether both paths have the same components.
    pub fn same_as(&self, other: &StagePath) -> (r: bool)
        ensures
            r == (self@ == other@),
    {
        if self.parts.len() != other.parts.len() {
            assert(self@.len() != other@.len());
            return false;
        }
        let mut i: usize = 0;
        while i < self.parts.len()
            invariant
                i <= self.parts.len(),
                self.parts.len() == other.parts.len(),
                forall|j: int| 0 <= j < i ==> self.parts@[j]@ == other.parts@[j]@,
            decreases self.parts.len() - i,
        {
            if self.parts[i] != other.parts[i] {
                assert(self@[i as int] != other@[i as int]);
                return false;
            }
            i += 1;
        }
        assert(self@ =~= other@);
        true
    }

    /// Whether the components of `base` are the first components of this path.
    pub fn starts_with(&self, base: &StagePath) -> (r: bool)
        ensures
            r == base@.is_prefix_of(self@),
    {
        if base.parts.len() > self.parts.len() {
            assert(base@.len() > self@.len());
            return false;
        }
        let mut i: usize = 0;
        while i < base.parts.len()
            invariant
                i <= base.parts.len(),
                base.parts.len() <= self.parts.len(),
                forall|j: int| 0 <= j < i ==> self.parts@[j]@ == base.parts@[j]@,
            decreases base.parts.len() - i,
        {
            if self.parts[i] != base.parts[i] {
                assert(self@.subrange(0, base@.len() as int)[i as int] != base@[i as int]);
                return false;
            }
            i += 1;
        }
        assert(base@ =~= self@.subrange(0, base@.len() as int));
        true
    }
}

/// Whether `name` can be the name of a directory entry.
pub fn valid_entry_name(name: &str) -> (r: bool)
    ensures
        r == is_entry_name(name@),
{
    let n = name.unicode_len();
    if n == 0 {
        return false;
    }
    if n == 1 && name.get_char(0) == '.' {
        assert(name@ =~= dot_part());
        return false;
    }
    if n == 2 && name.get_char(0) == '.' && name.get_char(1) == '.' {
        assert(name@ =~= seq!['.', '.']);
        return false;
    }
    assert(name@ != dot_part()) by {
        if name@ == dot_part() {
            assert(name@.len() == 1 && name@[0] == '.');
        }
    }
    assert(name@ != seq!['.', '.']) by {
        if name@ == seq!['.', '.'] {
            assert(name@.len() == 2 && name@[0] == '.' && name@[1] == '.');
        }
    }
    for c in it: name.chars()
        invariant
            it.seq() == name@,
            forall|j: int| 0 <= j < it.index() ==> name@[j] != '/',
    {
        if c == '/' {
            assert(name@[it.index() as int] == '/');
            assert(name@.contains('/'));
            return false;
        }
    }
    true
}

impl PartialEq for StagePath {
    fn eq(&self, other: &Self) -> (r: bool) {
        self.same_as(other)
    }
}

impl vstd::std_specs::cmp::PartialEqSpecImpl for StagePath {
    open spec fn obeys_eq_spec() -> bool {
        true
    }

    open spec fn eq_spec(&self, other: &Self) -> bool {
        self@ == other@
    }
}

} // verus!
