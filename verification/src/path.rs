//! Drive paths: normal form, components, and the subtrees that capabilities are bound to.
use vstd::prelude::*;
use vstd::string::*;

use crate::text::{
    begins, cat, chars_of, is_white_space, last_slash, law_only_the_ends_are_taken_off,
    lemma_last_slash, lemma_strip, lemma_strip_back, lemma_strip_fixed, rfind_slash, same, starts_with,
    strip, strip_back, strip_edges, strip_front, strip_tail, strips, trimmed, Edge,
};
use crate::wire::DriveErr;

verus! {

/// The root directory.
pub open spec fn root() -> Seq<char> {
    seq!['/']
}

/// The normal form of a path: one `/`, then the path without white space or `/` at its ends.
pub open spec fn norm(p: Seq<char>) -> Seq<char> {
    root() + strip(Edge::Slash, trimmed(p))
}

/// Normalize a path: single leading slash, no trailing slash (except root).
pub fn norm_path(p: &str) -> (r: String)
    ensures
        r@ == norm(p@),
{
    proof {
        reveal_strlit("/");
    }
    let spaced = strip_edges(Edge::Space, p);
    let t = strip_edges(Edge::Slash, spaced.as_str());
    assert("/"@ =~= root());
    cat("/", t.as_str())
}

/// A normal path starts with exactly one slash, and ends with one only if it is the root.
pub proof fn law_norm_shape(p: Seq<char>)
    ensures
        norm(p).len() > 0,
        norm(p)[0] == '/',
        norm(p).len() > 1 ==> norm(p)[1] != '/' && norm(p).last() != '/',
{
    lemma_strip(Edge::Slash, trimmed(p));
}

/// A path whose normal form does not end in white space is normalized once and for all.
pub proof fn law_norm_settles(p: Seq<char>)
    requires
        !is_white_space(norm(p).last()),
    ensures
        norm(norm(p)) == norm(p),
{
    let n = norm(p);
    law_norm_shape(p);
    lemma_strip_fixed(Edge::Space, n);
    let t = strip(Edge::Slash, trimmed(p));
    lemma_strip(Edge::Slash, trimmed(p));
    assert(n.drop_first() =~= t);
    if t.len() > 0 {
        assert(strip_front(Edge::Slash, n) == strip_front(Edge::Slash, t));
        lemma_strip_fixed(Edge::Slash, t);
    } else {
        assert(strip_front(Edge::Slash, n.drop_first()) == n.drop_first());
        assert(strip_front(Edge::Slash, n) == n.drop_first());
    }
    assert(strip(Edge::Slash, n) =~= t);
    assert(trimmed(n) == n);
    assert(root() + t == n);
}

// ----- components -----

/// Whether a `/`-separated component of `p` starting at `i` is `..`.
pub open spec fn dotdot_at(p: Seq<char>, i: int) -> bool {
    &&& 0 <= i && i + 2 <= p.len()
    &&& p[i] == '.' && p[i + 1] == '.'
    &&& i == 0 || p[i - 1] == '/'
    &&& i + 2 == p.len() || p[i + 2] == '/'
}

/// Whether a `/`-separated component of `p` is `..`.
pub open spec fn has_dotdot(p: Seq<char>) -> bool {
    exists|i: int| dotdot_at(p, i)
}

/// Reject `..` traversal in a path.
pub fn no_dotdot(p: &str) -> (r: Result<(), DriveErr>)
    ensures
        r == (if has_dotdot(p@) {
            Err(DriveErr::BadPath)
        } else {
            Ok::<(), DriveErr>(())
        }),
{
    let cs = chars_of(p);
    let n: usize = cs.len();
    let mut i: usize = 0;
    while i < n
        invariant
            n == cs@.len(),
            cs@ == p@,
            i <= n,
            forall|k: int| 0 <= k < i ==> !dotdot_at(p@, k),
        decreases n - i,
    {
        if n - i >= 2 && cs[i] == '.' && cs[i + 1] == '.' && (i == 0 || cs[i - 1] == '/') && (n - i
            == 2 || cs[i + 2] == '/') {
            assert(dotdot_at(p@, i as int));
            return Err(DriveErr::BadPath);
        }
        i = i + 1;
    }
    Ok(())
}

/// The normal form of a path has a `..` component exactly where the path, without white space at its
/// ends, has one; and a `..` component of the path as it came is never lost.
pub proof fn law_norm_keeps_dotdot(p: Seq<char>)
    ensures
        has_dotdot(norm(p)) <==> has_dotdot(trimmed(p)),
        has_dotdot(p) ==> has_dotdot(norm(p)),
{
    let q = trimmed(p);
    let t = strip(Edge::Slash, q);
    let (i, j) = lemma_strip_span(Edge::Slash, q);
    let n = norm(p);
    if has_dotdot(n) {
        let k = choose|k: int| dotdot_at(n, k);
        assert(n[k] == t[k - 1] && n[k + 1] == t[k]);
        assert(t[k - 1] == q[i + k - 1] && t[k] == q[i + k]);
        if k > 1 {
            assert(n[k - 1] == t[k - 2] && t[k - 2] == q[i + k - 2]);
        }
        if k + 2 < n.len() {
            assert(n[k + 2] == t[k + 1] && t[k + 1] == q[i + k + 1]);
        }
        assert(dotdot_at(q, i + k - 1));
    }
    if has_dotdot(p) {
        let k = choose|k: int| dotdot_at(p, k);
        let (a, b) = lemma_strip_span(Edge::Space, p);
        assert(!strips(Edge::Space, p[k]) && !strips(Edge::Space, p[k + 1]));
        assert(q[k - a] == p[k] && q[k - a + 1] == p[k + 1]);
        if k > a {
            assert(q[k - a - 1] == p[k - 1]);
        }
        if k + 2 < b {
            assert(q[k - a + 2] == p[k + 2]);
        }
        assert(dotdot_at(q, k - a));
    }
    if has_dotdot(q) {
        let k = choose|k: int| dotdot_at(q, k);
        assert(!strips(Edge::Slash, q[k]) && !strips(Edge::Slash, q[k + 1]));
        let m = k - i + 1;
        assert(n[m] == t[m - 1] && n[m + 1] == t[m]);
        assert(t[m - 1] == q[k] && t[m] == q[k + 1]);
        if m > 1 {
            assert(n[m - 1] == t[m - 2] && t[m - 2] == q[k - 1]);
        }
        if k + 2 < j {
            assert(n[m + 2] == t[m + 1] && t[m + 1] == q[k + 2]);
        }
        assert(dotdot_at(n, m));
    }
}

/// What is left of a text is a piece of it, and all that is before and behind that piece was taken
/// off.
proof fn lemma_strip_span(e: Edge, p: Seq<char>) -> (r: (int, int))
    ensures
        0 <= r.0 <= r.1 <= p.len(),
        strip(e, p) == p.subrange(r.0, r.1),
        forall|k: int| 0 <= k < r.0 ==> strips(e, #[trigger] p[k]),
        forall|k: int| r.1 <= k < p.len() ==> strips(e, #[trigger] p[k]),
{
    let f = strip_front(e, p);
    let i = lemma_front_span(e, p);
    let n = lemma_back_span(e, f);
    assert(strip(e, p) =~= p.subrange(i, i + n));
    assert forall|k: int| i + n <= k < p.len() implies strips(e, #[trigger] p[k]) by {
        assert(p[k] == f[k - i]);
    }
    (i, i + n)
}

proof fn lemma_front_span(e: Edge, p: Seq<char>) -> (i: int)
    ensures
        0 <= i <= p.len(),
        strip_front(e, p) == p.skip(i),
        forall|k: int| 0 <= k < i ==> strips(e, #[trigger] p[k]),
    decreases p.len(),
{
    if p.len() > 0 && strips(e, p[0]) {
        let rest = p.drop_first();
        let i = lemma_front_span(e, rest);
        assert(p.skip(i + 1) =~= rest.skip(i));
        assert forall|k: int| 0 <= k < i + 1 implies strips(e, #[trigger] p[k]) by {
            if k > 0 {
                assert(p[k] == rest[k - 1]);
            }
        }
        i + 1
    } else {
        assert(p.skip(0) =~= p);
        0
    }
}

proof fn lemma_back_span(e: Edge, p: Seq<char>) -> (n: int)
    ensures
        0 <= n <= p.len(),
        strip_back(e, p) == p.take(n),
        forall|k: int| n <= k < p.len() ==> strips(e, #[trigger] p[k]),
    decreases p.len(),
{
    if p.len() > 0 && strips(e, p.last()) {
        let rest = p.drop_last();
        let n = lemma_back_span(e, rest);
        assert(p.take(n) =~= rest.take(n));
        assert forall|k: int| n <= k < p.len() implies strips(e, #[trigger] p[k]) by {
            if k < rest.len() {
                assert(p[k] == rest[k]);
            }
        }
        n
    } else {
        assert(p.take(p.len() as int) =~= p);
        p.len() as int
    }
}

/// The parent directory and the name of a path; the root has neither.
pub open spec fn split(p: Seq<char>) -> Option<(Seq<char>, Seq<char>)> {
    let n = norm(p);
    if n == root() {
        None
    } else {
        let i = last_slash(n);
        Some((if i == 0 { root() } else { n.take(i) }, n.skip(i + 1)))
    }
}

/// Split a path into (parent_dir, leaf_name). Root has no parent.
pub fn split_path(path: &str) -> (r: Option<(String, String)>)
    ensures
        r.deep_view() == split(path@),
{
    let n = norm_path(path);
    let cs = chars_of(n.as_str());
    let len: usize = cs.len();
    proof {
        law_norm_shape(path@);
        lemma_last_slash(n@);
        reveal_strlit("/");
        assert("/"@ =~= root());
    }
    if len == 1 {
        assert(n@ =~= root());
        return None;
    }
    let i: usize = match rfind_slash(&cs) {
        Some(i) => i,
        None => 0,
    };
    let parent = if i == 0 {
        "/".to_owned()
    } else {
        n.as_str().substring_char(0, i).to_owned()
    };
    let name = n.as_str().substring_char(i + 1, len).to_owned();
    assert(n@.subrange(0, i as int) =~= n@.take(i as int));
    assert(n@.subrange(i + 1, len as int) =~= n@.skip(i + 1));
    Some((parent, name))
}

/// The path of `name` in directory `dir`.
pub open spec fn child(dir: Seq<char>, name: Seq<char>) -> Seq<char> {
    if dir == root() {
        dir + name
    } else {
        dir + root() + name
    }
}

/// The path of `name` in directory `dir`.
pub fn child_path(dir: &str, name: &str) -> (r: String)
    ensures
        r@ == child(dir@, name@),
{
    proof {
        reveal_strlit("/");
        assert("/"@ =~= root());
    }
    if same(dir, "/") {
        cat(dir, name)
    } else {
        cat(cat(dir, "/").as_str(), name)
    }
}

/// The path an entry called `name` is shown under, in a listing of `parent`.
pub open spec fn shown_path(parent: Seq<char>, name: Seq<char>) -> Seq<char> {
    child(if parent == root() { parent } else { strip_back(Edge::Slash, parent) }, name)
}

/// The parts that [`split`] gives make up the normal path again, and the name is one component.
pub proof fn law_split_joins(p: Seq<char>)
    ensures
        split(p) is None <==> norm(p) == root(),
        split(p) matches Some((dir, name)) ==> {
            &&& child(dir, name) == norm(p)
            &&& name.len() > 0
            &&& forall|k: int| 0 <= k < name.len() ==> name[k] != '/'
        },
{
    law_norm_shape(p);
    let n = norm(p);
    lemma_last_slash(n);
    if n != root() {
        assert(n.len() > 1) by {
            if n.len() == 1 {
                assert(n =~= root());
            }
        }
        let i = last_slash(n);
        if i == 0 {
            assert(root() + n.skip(1) =~= n);
        } else {
            assert(n.take(i)[1] == n[1]) by {
                if i == 1 {
                    assert(n[1] == '/');
                }
            }
            assert(n.take(i) != root()) by {
                assert(n.take(i).len() == i);
            }
            assert(n.take(i) + root() + n.skip(i + 1) =~= n);
        }
    }
}

/// Whether `whole` is the path of `name`, one component, in the directory `dir`.
pub open spec fn is_in(dir: Seq<char>, name: Seq<char>, whole: Seq<char>) -> bool {
    &&& dir.len() > 0
    &&& name.len() > 0
    &&& forall|k: int| 0 <= k < name.len() ==> name[k] != '/'
    &&& whole == joined(dir, name)
}

/// Every path but the root splits, into the directory and the name that it is the path of.
pub proof fn law_split_is_exact(p: Seq<char>)
    ensures
        split(p) is None <==> norm(p) == seq!['/'],
        split(p) matches Some((dir, name)) ==> is_in(dir, name, norm(p)),
{
    law_split_joins(p);
    law_norm_shape(p);
    lemma_last_slash(norm(p));
    if let Some((dir, name)) = split(p) {
        assert(joined(dir, name) =~= norm(p));
    }
}

/// There is only one way to take a path apart into a directory and a name.
pub proof fn law_directory_and_name_are_unique(
    dir: Seq<char>,
    name: Seq<char>,
    dir2: Seq<char>,
    name2: Seq<char>,
    whole: Seq<char>,
)
    requires
        is_in(dir, name, whole),
        is_in(dir2, name2, whole),
        whole.len() > 1 ==> whole[1] != '/',
    ensures
        dir == dir2,
        name == name2,
{
    let i = whole.len() - name.len() - 1;
    let j = whole.len() - name2.len() - 1;
    assert(whole[i] == '/' && whole[j] == '/');
    if i < j {
        assert(whole[j] == name[j - i - 1]);
    } else if j < i {
        assert(whole[i] == name2[i - j - 1]);
    }
    assert(name =~= whole.skip(i + 1));
    assert(name2 =~= whole.skip(i + 1));
    let stem = whole.take(i);
    assert(stem =~= if dir == seq!['/'] { Seq::<char>::empty() } else { dir });
    assert(stem =~= if dir2 == seq!['/'] { Seq::<char>::empty() } else { dir2 });
}

/// The path of an entry in a listing of `parent`, a directory in normal form.
pub fn entry_path(parent: &str, name: &str) -> (r: String)
    ensures
        r@ == shown_path(parent@, name@),
{
    proof {
        reveal_strlit("/");
        assert("/"@ =~= root());
    }
    if same(parent, "/") {
        child_path(parent, name)
    } else {
        child_path(strip_tail(Edge::Slash, parent).as_str(), name)
    }
}

// ----- subtrees and the capability namespace -----

/// Whether the normal path `n` lies in the subtree at the normal path `top`.
pub open spec fn in_subtree(top: Seq<char>, n: Seq<char>) -> bool {
    top == root() || n == top || begins(n, top + root())
}

/// Whether the normal form of `path` lies in the subtree at the normal path `top`.
pub fn covered(top: &str, path: &str) -> (r: bool)
    ensures
        r == in_subtree(top@, norm(path@)),
{
    proof {
        reveal_strlit("/");
        assert("/"@ =~= root());
    }
    let n = norm_path(path);
    same(top, "/") || same(n.as_str(), top) || starts_with(n.as_str(), cat(top, "/").as_str())
}

/// A subtree of a subtree is within the whole.
pub proof fn law_subtrees_nest(a: Seq<char>, b: Seq<char>, c: Seq<char>)
    requires
        a.len() > 0,
        in_subtree(a, b),
        in_subtree(b, c),
    ensures
        in_subtree(a, c),
{
    if a != root() && b != a {
        assert(begins(b, a + root()));
        let m = a.len() + 1;
        assert(b[0] == (a + root())[0]) by {
            assert(b.take(m as int)[0] == b[0]);
        }
        assert(b != root());
        if c != b {
            assert(c.take(m as int) =~= b.take(m as int)) by {
                assert forall|k: int| 0 <= k < m implies c[k] == b[k] by {
                    assert(c.take((b.len() + 1) as int)[k] == (b + root())[k]);
                }
            }
        }
    }
}

/// What the path prefix of every drive capability starts with: the namespace of drives.
pub const NAMESPACE: &'static str = "ce-drive/";

/// The prefix that binds a capability to `drive` and to the subtree at `path`.
pub open spec fn caveat(drive: Seq<char>, path: Seq<char>) -> Seq<char> {
    NAMESPACE@ + drive + (if norm(path) == root() { Seq::<char>::empty() } else { norm(path) })
}

/// The `path_prefix` to mint a capability with that is bound to `drive` and to the subtree at
/// `path`: `ce-drive/<drive>[/<subtree>]`.
pub fn drive_caveat_prefix(drive: &str, path: &str) -> (r: String)
    ensures
        r@ == caveat(drive@, path@),
{
    proof {
        reveal_strlit("/");
        assert("/"@ =~= root());
    }
    let n = norm_path(path);
    let base = cat(NAMESPACE, drive);
    if same(n.as_str(), "/") {
        assert(base@ + Seq::<char>::empty() =~= base@);
        base
    } else {
        base.concat(n.as_str())
    }
}

/// The index of the first `/`, or the length.
pub open spec fn first_slash(s: Seq<char>) -> int
    decreases s.len(),
{
    if s.len() == 0 || s[0] == '/' {
        0
    } else {
        1 + first_slash(s.drop_first())
    }
}

proof fn lemma_first_slash(s: Seq<char>, n: int)
    requires
        0 <= n <= s.len(),
        forall|k: int| 0 <= k < n ==> s[k] != '/',
        n == s.len() || s[n] == '/',
    ensures
        first_slash(s) == n,
    decreases n,
{
    if n > 0 {
        assert forall|k: int| 0 <= k < n - 1 implies s.drop_first()[k] != '/' by {
            assert(s.drop_first()[k] == s[k + 1]);
        }
        lemma_first_slash(s.drop_first(), n - 1);
    }
}

/// The drive and the subtree that a capability prefix is bound to; nothing, if the prefix is not
/// in the namespace of drives.
pub open spec fn bound_to(prefix: Seq<char>) -> Option<(Seq<char>, Seq<char>)> {
    let n = norm(prefix);
    let head = root() + NAMESPACE@;
    if !begins(n, head) {
        None
    } else {
        let rest = n.skip(head.len() as int);
        let i = first_slash(rest);
        if i == 0 {
            None
        } else {
            Some((rest.take(i), norm(rest.skip(i))))
        }
    }
}

/// The drive and the subtree that a capability prefix is bound to; nothing, if the prefix is not
/// in the namespace of drives.
pub fn caveat_scope(prefix: &str) -> (r: Option<(String, String)>)
    ensures
        r.deep_view() == bound_to(prefix@),
{
    proof {
        reveal_strlit("/");
        assert("/"@ =~= root());
    }
    let n = norm_path(prefix);
    let head = cat("/", NAMESPACE);
    if !starts_with(n.as_str(), head.as_str()) {
        return None;
    }
    let h: usize = head.as_str().unicode_len();
    let len: usize = n.as_str().unicode_len();
    let rest = n.as_str().substring_char(h, len);
    assert(rest@ =~= n@.skip(h as int));
    let cs = chars_of(rest);
    let m: usize = cs.len();
    let mut i: usize = 0;
    while i < m && cs[i] != '/'
        invariant
            i <= m,
            m == cs@.len(),
            cs@ == rest@,
            forall|k: int| 0 <= k < i ==> cs@[k] != '/',
        decreases m - i,
    {
        i = i + 1;
    }
    proof {
        lemma_first_slash(rest@, i as int);
    }
    if i == 0 {
        return None;
    }
    let drive = rest.substring_char(0, i).to_owned();
    let tail = rest.substring_char(i, m);
    assert(rest@.subrange(0, i as int) =~= rest@.take(i as int));
    assert(rest@.subrange(i as int, m as int) =~= rest@.skip(i as int));
    Some((drive, norm_path(tail)))
}

/// The subtree that a prefix is bound to is a normal path, and the drive is one component.
pub proof fn law_bound_shape(prefix: Seq<char>)
    ensures
        bound_to(prefix) matches Some((drive, top)) ==> {
            &&& drive.len() > 0
            &&& forall|k: int| 0 <= k < drive.len() ==> drive[k] != '/'
            &&& top.len() > 0
            &&& top[0] == '/'
        },
{
    let n = norm(prefix);
    let head = root() + NAMESPACE@;
    if bound_to(prefix) is Some {
        let rest = n.skip(head.len() as int);
        lemma_before_first_slash(rest);
    }
}

proof fn lemma_before_first_slash(s: Seq<char>)
    ensures
        0 <= first_slash(s) <= s.len(),
        forall|k: int| 0 <= k < first_slash(s) ==> s[k] != '/',
    decreases s.len(),
{
    if s.len() > 0 && s[0] != '/' {
        lemma_before_first_slash(s.drop_first());
        assert forall|k: int| 0 <= k < first_slash(s) implies s[k] != '/' by {
            if k > 0 {
                assert(s.drop_first()[k - 1] == s[k]);
            }
        }
    }
}

proof fn lemma_strip_back_concat(e: Edge, a: Seq<char>, b: Seq<char>)
    ensures
        strip_back(e, a + b) == (if strip_back(e, b).len() > 0 {
            a + strip_back(e, b)
        } else {
            strip_back(e, a)
        }),
    decreases b.len(),
{
    if b.len() == 0 {
        assert(a + b =~= a);
    } else {
        assert((a + b).last() == b.last());
        if strips(e, b.last()) {
            assert((a + b).drop_last() =~= a + b.drop_last());
            lemma_strip_back_concat(e, a, b.drop_last());
        }
    }
}

/// Whether `drive` can be a component of a capability prefix that covers `path`.
pub open spec fn nameable(drive: Seq<char>, path: Seq<char>) -> bool {
    &&& drive.len() > 0
    &&& forall|k: int| 0 <= k < drive.len() ==> drive[k] != '/'
    &&& norm(path) == root() ==> !is_white_space(drive.last())
}

proof fn lemma_caveat_norm(drive: Seq<char>, path: Seq<char>) -> (tail: Seq<char>)
    requires
        nameable(drive, path),
    ensures
        norm(caveat(drive, path)) == root() + NAMESPACE@ + drive + tail,
        tail.len() > 0 ==> tail[0] == '/',
        !is_white_space(norm(path).last()) && norm(path) != root() ==> tail == norm(path),
        norm(path) == root() ==> tail.len() == 0,
{
    reveal_strlit("ce-drive/");
    law_norm_shape(path);
    let a = NAMESPACE@ + drive;
    let p = caveat(drive, path);
    assert(p[0] == 'c');
    assert(a.last() == drive.last());
    if norm(path) == root() {
        assert(p =~= a);
        lemma_strip_fixed(Edge::Space, p);
        lemma_strip_fixed(Edge::Slash, p);
        assert(root() + NAMESPACE@ + drive + Seq::<char>::empty() =~= root() + p);
        Seq::<char>::empty()
    } else {
        let t = norm(path);
        assert(p =~= a + t);
        lemma_strip_back_concat(Edge::Space, a, t);
        let t2 = strip_back(Edge::Space, t);
        lemma_strip_back(Edge::Space, t);
        assert(t2.len() > 0) by {
            lemma_kept_front(Edge::Space, t);
        }
        assert(t2[0] == t[0]);
        assert(trimmed(p) == a + t2);
        assert((a + t2)[0] == 'c');
        lemma_strip_back_concat(Edge::Slash, a, t2);
        let t3 = strip_back(Edge::Slash, t2);
        lemma_strip_back(Edge::Slash, t2);
        assert(strip_back(Edge::Slash, a) == a);
        assert(strip(Edge::Slash, trimmed(p)) == (if t3.len() > 0 { a + t3 } else { a }));
        assert(a + Seq::<char>::empty() =~= a);
        assert(t3.len() == 0 ==> t3 =~= Seq::<char>::empty());
        assert(root() + NAMESPACE@ + drive + t3 =~= root() + (a + t3));
        t3
    }
}

proof fn lemma_kept_front(e: Edge, s: Seq<char>)
    requires
        s.len() > 0,
        !strips(e, s[0]),
    ensures
        strip_back(e, s).len() > 0,
    decreases s.len(),
{
    if strips(e, s.last()) {
        assert(s.len() > 1);
        assert(s.drop_last()[0] == s[0]);
        lemma_kept_front(e, s.drop_last());
    }
}

/// A prefix minted for a drive is bound to that drive and to no other.
pub proof fn law_caveat_binds_drive(drive: Seq<char>, path: Seq<char>)
    requires
        nameable(drive, path),
    ensures
        bound_to(caveat(drive, path)) matches Some((d, _)) && d == drive,
{
    let _ = lemma_caveat_bound(drive, path);
}

/// A prefix minted for a drive and a path is bound to the subtree at that path.
pub proof fn law_caveat_binds_subtree(drive: Seq<char>, path: Seq<char>)
    requires
        nameable(drive, path),
        !is_white_space(norm(path).last()),
    ensures
        bound_to(caveat(drive, path)) == Some((drive, norm(path))),
{
    let tail = lemma_caveat_bound(drive, path);
    law_norm_settles(path);
    if norm(path) == root() {
        assert(tail =~= Seq::<char>::empty());
        assert(strip(Edge::Slash, trimmed(tail)) =~= Seq::<char>::empty());
        assert(norm(tail) =~= root());
    }
}

proof fn lemma_caveat_bound(drive: Seq<char>, path: Seq<char>) -> (tail: Seq<char>)
    requires
        nameable(drive, path),
    ensures
        bound_to(caveat(drive, path)) == Some((drive, norm(tail))),
        !is_white_space(norm(path).last()) && norm(path) != root() ==> tail == norm(path),
        norm(path) == root() ==> tail.len() == 0,
{
    let tail = lemma_caveat_norm(drive, path);
    let n = norm(caveat(drive, path));
    let head = root() + NAMESPACE@;
    assert(n.take(head.len() as int) =~= head);
    let rest = n.skip(head.len() as int);
    assert(rest =~= drive + tail);
    lemma_first_slash(rest, drive.len() as int);
    assert(rest.take(drive.len() as int) =~= drive);
    assert(rest.skip(drive.len() as int) =~= tail);
    tail
}

// ----- what the forms of a path mean -----

/// A path is its core, with any number of slashes at its ends and any white space around those: its
/// normal form is one slash and the core. Slashes and white space alone are the root.
pub proof fn law_norm_is_a_slash_and_the_core(
    before: Seq<char>,
    lead: Seq<char>,
    core: Seq<char>,
    trail: Seq<char>,
    after: Seq<char>,
)
    requires
        forall|k: int| 0 <= k < before.len() ==> is_white_space(#[trigger] before[k]),
        forall|k: int| 0 <= k < after.len() ==> is_white_space(#[trigger] after[k]),
        forall|k: int| 0 <= k < lead.len() ==> #[trigger] lead[k] == '/',
        forall|k: int| 0 <= k < trail.len() ==> #[trigger] trail[k] == '/',
        core.len() > 0 ==> core[0] != '/' && core.last() != '/',
        core.len() > 0 && lead.len() == 0 ==> !is_white_space(core[0]),
        core.len() > 0 && trail.len() == 0 ==> !is_white_space(core.last()),
    ensures
        norm(before + (lead + core + trail) + after) == seq!['/'] + core,
{
    let m = lead + core + trail;
    if m.len() > 0 {
        assert(m[0] == (if lead.len() > 0 {
            lead[0]
        } else if core.len() > 0 {
            core[0]
        } else {
            trail[0]
        }));
        assert(m.last() == (if trail.len() > 0 {
            trail.last()
        } else if core.len() > 0 {
            core.last()
        } else {
            lead.last()
        }));
        assert(!is_white_space('/'));
    }
    law_only_the_ends_are_taken_off(Edge::Space, before, m, after);
    law_only_the_ends_are_taken_off(Edge::Slash, lead, core, trail);
}

/// Every path is its core, with slashes at its ends and white space around those.
pub proof fn law_every_path_has_a_core(p: Seq<char>) -> (r: (
    Seq<char>,
    Seq<char>,
    Seq<char>,
    Seq<char>,
    Seq<char>,
))
    ensures
        ({
            let (before, lead, core, trail, after) = r;
            &&& p == before + (lead + core + trail) + after
            &&& norm(p) == seq!['/'] + core
            &&& forall|k: int| 0 <= k < before.len() ==> is_white_space(#[trigger] before[k])
            &&& forall|k: int| 0 <= k < after.len() ==> is_white_space(#[trigger] after[k])
            &&& forall|k: int| 0 <= k < lead.len() ==> #[trigger] lead[k] == '/'
            &&& forall|k: int| 0 <= k < trail.len() ==> #[trigger] trail[k] == '/'
            &&& core.len() > 0 ==> core[0] != '/' && core.last() != '/'
        }),
{
    let (i, j) = lemma_strip_span(Edge::Space, p);
    let m = trimmed(p);
    let (a, b) = lemma_strip_span(Edge::Slash, m);
    let core = strip(Edge::Slash, m);
    let lead = m.take(a);
    let trail = m.skip(b);
    let before = p.take(i);
    let after = p.skip(j);
    lemma_strip(Edge::Slash, m);
    assert(m =~= lead + core + trail);
    assert(p =~= before + m + after);
    assert forall|k: int| 0 <= k < before.len() implies is_white_space(#[trigger] before[k]) by {
        assert(before[k] == p[k] && strips(Edge::Space, p[k]));
    }
    assert forall|k: int| 0 <= k < after.len() implies is_white_space(#[trigger] after[k]) by {
        assert(after[k] == p[j + k] && strips(Edge::Space, p[j + k]));
    }
    assert forall|k: int| 0 <= k < lead.len() implies #[trigger] lead[k] == '/' by {
        assert(lead[k] == m[k] && strips(Edge::Slash, m[k]));
    }
    assert forall|k: int| 0 <= k < trail.len() implies #[trigger] trail[k] == '/' by {
        assert(trail[k] == m[b + k] && strips(Edge::Slash, m[b + k]));
    }
    (before, lead, core, trail, after)
}

/// Whether a text is made of the component `..` with whole components, or nothing, on either side.
pub open spec fn around_dotdot(p: Seq<char>, front: Seq<char>, back: Seq<char>) -> bool {
    &&& p == front + seq!['.', '.'] + back
    &&& front.len() == 0 || front.last() == '/'
    &&& back.len() == 0 || back[0] == '/'
}

/// A path has a `..` component exactly if it is made up around one.
pub proof fn law_dotdot_is_a_component(p: Seq<char>)
    ensures
        has_dotdot(p) <==> exists|front: Seq<char>, back: Seq<char>| around_dotdot(p, front, back),
{
    if has_dotdot(p) {
        let i = choose|i: int| dotdot_at(p, i);
        let front = p.take(i);
        let back = p.skip(i + 2);
        assert(p =~= front + seq!['.', '.'] + back);
        assert(around_dotdot(p, front, back));
    }
    if exists|front: Seq<char>, back: Seq<char>| around_dotdot(p, front, back) {
        let (front, back) = choose|front: Seq<char>, back: Seq<char>|
            around_dotdot(p, front, back);
        let i = front.len() as int;
        assert(p[i] == '.' && p[i + 1] == '.');
        if i > 0 {
            assert(p[i - 1] == front.last());
        }
        if back.len() > 0 {
            assert(p[i + 2] == back[0]);
        }
        assert(dotdot_at(p, i));
    }
}

/// A subtree holds its top and what is below it, component by component, and nothing else; that of the
/// root holds everything.
pub proof fn law_subtree_is_the_top_and_below(top: Seq<char>, n: Seq<char>, rest: Seq<char>)
    ensures
        in_subtree(seq!['/'], n),
        in_subtree(top, top),
        in_subtree(top, top + seq!['/'] + rest),
        in_subtree(top, n) && top != seq!['/'] && n != top ==> n.len() > top.len() && n == top
            + seq!['/'] + n.skip((top.len() + 1) as int),
{
    let m = top + seq!['/'] + rest;
    assert(m.take((top.len() + 1) as int) =~= top + root());
    if in_subtree(top, n) && top != seq!['/'] && n != top {
        let h = top + root();
        assert(begins(n, h));
        assert forall|k: int| 0 <= k < h.len() implies n[k] == h[k] by {
            assert(n.take(h.len() as int)[k] == n[k]);
        }
        assert(n =~= top + seq!['/'] + n.skip((top.len() + 1) as int));
    }
}

/// Whether a capability prefix names `drive` in the namespace of drives, and then `tail`, nothing or a
/// path that starts with a slash.
pub open spec fn names(prefix: Seq<char>, drive: Seq<char>, tail: Seq<char>) -> bool {
    &&& norm(prefix) == "/ce-drive/"@ + drive + tail
    &&& drive.len() > 0
    &&& forall|k: int| 0 <= k < drive.len() ==> drive[k] != '/'
    &&& tail.len() == 0 || tail[0] == '/'
}

/// A prefix is bound to the drive and the subtree that it names, and to nothing if it names none.
pub proof fn law_prefix_binds_what_it_names(prefix: Seq<char>)
    ensures
        forall|drive: Seq<char>, tail: Seq<char>| #[trigger]
            names(prefix, drive, tail) ==> bound_to(prefix) == Some((drive, norm(tail))),
        bound_to(prefix) matches Some((drive, top)) ==> exists|tail: Seq<char>| #[trigger]
            names(prefix, drive, tail) && top == norm(tail),
{
    reveal_strlit("ce-drive/");
    reveal_strlit("/ce-drive/");
    let n = norm(prefix);
    let head = root() + NAMESPACE@;
    assert(head =~= "/ce-drive/"@);
    assert forall|drive: Seq<char>, tail: Seq<char>| #[trigger]
        names(prefix, drive, tail) implies bound_to(prefix) == Some((drive, norm(tail))) by {
        assert(n.take(head.len() as int) =~= head);
        let rest = n.skip(head.len() as int);
        assert(rest =~= drive + tail);
        lemma_first_slash(rest, drive.len() as int);
        assert(rest.take(drive.len() as int) =~= drive);
        assert(rest.skip(drive.len() as int) =~= tail);
    }
    if let Some((drive, top)) = bound_to(prefix) {
        let rest = n.skip(head.len() as int);
        lemma_before_first_slash(rest);
        let i = first_slash(rest);
        let tail = rest.skip(i);
        lemma_at_first_slash(rest);
        assert(n =~= "/ce-drive/"@ + drive + tail) by {
            assert(n =~= n.take(head.len() as int) + rest);
            assert(rest =~= drive + tail);
        }
        assert(names(prefix, drive, tail));
    }
}

proof fn lemma_at_first_slash(s: Seq<char>)
    ensures
        first_slash(s) < s.len() ==> s[first_slash(s)] == '/',
    decreases s.len(),
{
    if s.len() > 0 && s[0] != '/' {
        lemma_before_first_slash(s.drop_first());
        lemma_at_first_slash(s.drop_first());
    }
}

/// The prefix for a drive and a path spells out the drive, and the normal path unless it is the root.
pub proof fn law_caveat_spells_drive_and_path(drive: Seq<char>, path: Seq<char>)
    ensures
        caveat(drive, path) == "ce-drive/"@ + drive + (if norm(path) == seq!['/'] {
            Seq::<char>::empty()
        } else {
            norm(path)
        }),
{
}

/// A directory, one slash and a name; the root is no more than the slash.
pub open spec fn joined(dir: Seq<char>, name: Seq<char>) -> Seq<char> {
    (if dir == seq!['/'] { Seq::<char>::empty() } else { dir }) + seq!['/'] + name
}

/// The path of a name in a directory is the directory, one slash and the name, also when the directory
/// is the root; and so it is shown in a listing of a directory in normal form.
pub proof fn law_child_is_in_its_directory(dir: Seq<char>, name: Seq<char>)
    ensures
        child(dir, name) == joined(dir, name),
        dir.len() > 0 && (dir != seq!['/'] ==> dir.last() != '/') ==> shown_path(dir, name) == joined(
            dir,
            name,
        ),
{
    assert(child(dir, name) =~= joined(dir, name));
}

} // verus!
