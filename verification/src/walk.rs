//! The files under a directory, found by listing one directory after another.
//!
//! The host lists a directory and hands the names to the [`Walk`], which says what to list next and
//! collects what is known of each file.
use vstd::prelude::*;
use vstd::string::*;

use crate::corpus::{FactsView, LinkView, NodeFacts, PropsView};
use crate::path::{child, child_path, joined, law_child_is_in_its_directory, root};
use crate::props::Props;
use crate::text::{before, begins, lemma_lex_total, lemma_lex_trans, lex_lt};

verus! {

/// The conventional prop naming a node's format.
pub const KIND_PROP: &'static str = "kind";

/// What the content map holds for a file.
#[derive(Debug, Clone)]
pub struct Stored {
    pub size: u64,
    pub mtime_ms: u64,
    /// `<app>:<id>` — which content app holds the bytes.
    pub locator: String,
}

/// What the metadata map holds for a node.
#[derive(Debug, Clone)]
pub struct Meta {
    pub props: Props,
    pub tags: Vec<String>,
    pub links: Vec<(String, String)>,
}

/// One name in a directory, with what the drive knows of it.
#[derive(Debug, Clone)]
pub struct Listed {
    pub name: String,
    pub node_id: String,
    pub is_dir: bool,
    pub content: Option<Stored>,
    pub meta: Option<Meta>,
}

/// Model of [`Stored`].
#[verifier::ext_equal]
pub struct StoredView {
    pub size: u64,
    pub mtime_ms: u64,
    pub locator: Seq<char>,
}

impl DeepView for Stored {
    type V = StoredView;

    open spec fn deep_view(&self) -> StoredView {
        StoredView { size: self.size, mtime_ms: self.mtime_ms, locator: self.locator@ }
    }
}

/// Model of [`Meta`].
#[verifier::ext_equal]
pub struct MetaView {
    pub props: PropsView,
    pub tags: Seq<Seq<char>>,
    pub links: Seq<LinkView>,
}

impl DeepView for Meta {
    type V = MetaView;

    open spec fn deep_view(&self) -> MetaView {
        MetaView {
            props: self.props@,
            tags: self.tags.deep_view(),
            links: self.links.deep_view(),
        }
    }
}

/// Model of [`Listed`].
#[verifier::ext_equal]
pub struct ListedView {
    pub name: Seq<char>,
    pub node_id: Seq<char>,
    pub is_dir: bool,
    pub content: Option<StoredView>,
    pub meta: Option<MetaView>,
}

impl DeepView for Listed {
    type V = ListedView;

    open spec fn deep_view(&self) -> ListedView {
        ListedView {
            name: self.name@,
            node_id: self.node_id@,
            is_dir: self.is_dir,
            content: self.content.deep_view(),
            meta: self.meta.deep_view(),
        }
    }
}

/// The metadata of a node, empty if it has none.
pub open spec fn meta_or_none(m: Option<MetaView>) -> MetaView {
    match m {
        Some(m) => m,
        None => MetaView { props: Map::empty(), tags: Seq::empty(), links: Seq::empty() },
    }
}

/// What is known of a file in a directory. Its kind is the prop of that name.
pub open spec fn facts_of(dir: Seq<char>, e: ListedView) -> FactsView {
    let m = meta_or_none(e.meta);
    FactsView {
        node_id: e.node_id,
        path: child(dir, e.name),
        size: e.content->0.size,
        mtime_ms: e.content->0.mtime_ms,
        kind: if m.props.contains_key(KIND_PROP@) { Some(m.props[KIND_PROP@]) } else { None },
        locator: e.content->0.locator,
        tags: m.tags,
        links: m.links,
        props: m.props,
    }
}

/// The directories in a directory, in order.
pub open spec fn dirs_in(dir: Seq<char>, items: Seq<ListedView>) -> Seq<Seq<char>>
    decreases items.len(),
{
    if items.len() == 0 {
        Seq::empty()
    } else {
        let init = dirs_in(dir, items.drop_last());
        if items.last().is_dir {
            init.push(child(dir, items.last().name))
        } else {
            init
        }
    }
}

/// What is known of the files in a directory, in order. Directories have no bytes and nothing to
/// extract; nor has a name without content.
pub open spec fn files_in(dir: Seq<char>, items: Seq<ListedView>) -> Seq<FactsView>
    decreases items.len(),
{
    if items.len() == 0 {
        Seq::empty()
    } else {
        let init = files_in(dir, items.drop_last());
        if !items.last().is_dir && items.last().content is Some {
            init.push(facts_of(dir, items.last()))
        } else {
            init
        }
    }
}

/// The names in a directory; none if it cannot be listed.
pub open spec fn items_or_none(items: Option<Seq<ListedView>>) -> Seq<ListedView> {
    match items {
        Some(items) => items,
        None => Seq::empty(),
    }
}

/// A walk through a drive: the directories still to be listed, and what is known of the files found
/// so far.
#[derive(Debug)]
pub struct Walk {
    pub todo: Vec<String>,
    pub found: Vec<NodeFacts>,
}

/// Every file node under `path`, as facts that can be acted on: the start of a walk. Repeat
/// [`Walk::next`] and [`Walk::listed`] until there is nothing to list, then take [`Walk::facts`].
pub fn walk_facts(path: &str) -> (r: Walk)
    ensures
        r.todo.deep_view() == seq![path@],
        r.found.deep_view() == Seq::<FactsView>::empty(),
{
    let mut todo: Vec<String> = Vec::new();
    todo.push(path.to_owned());
    assert(todo.deep_view() =~= seq![path@]);
    let found: Vec<NodeFacts> = Vec::new();
    assert(found.deep_view() =~= Seq::<FactsView>::empty());
    Walk { todo, found }
}

impl Walk {
    /// The directory to list next; nothing when the walk is done.
    pub fn next(&mut self) -> (r: Option<String>)
        ensures
            final(self).found == old(self).found,
            match r {
                Some(dir) => {
                    &&& old(self).todo@.len() > 0
                    &&& dir@ == old(self).todo.deep_view().last()
                    &&& final(self).todo.deep_view() == old(self).todo.deep_view().drop_last()
                },
                None => old(self).todo@.len() == 0 && final(self).todo@.len() == 0,
            },
    {
        let ghost was = self.todo.deep_view();
        let r = self.todo.pop();
        assert(r is Some ==> self.todo.deep_view() =~= was.drop_last());
        r
    }

    /// Take up what is in the directory that [`Walk::next`] gave; nothing if it could not be listed.
    pub fn listed(&mut self, dir: &str, items: Option<Vec<Listed>>)
        ensures
            final(self).todo.deep_view() == old(self).todo.deep_view() + dirs_in(
                dir@,
                items_or_none(items.deep_view()),
            ),
            final(self).found.deep_view() == old(self).found.deep_view() + files_in(
                dir@,
                items_or_none(items.deep_view()),
            ),
    {
        let ghost todo = self.todo.deep_view();
        let ghost found = self.found.deep_view();
        let items = match items {
            None => {
                assert(todo + dirs_in(dir@, Seq::empty()) =~= todo);
                assert(found + files_in(dir@, Seq::empty()) =~= found);
                return;
            },
            Some(items) => items,
        };
        let ghost all = items.deep_view();
        assert(all.take(0).len() == 0);
        assert(todo + dirs_in(dir@, all.take(0)) =~= todo);
        assert(found + files_in(dir@, all.take(0)) =~= found);
        for e in it: items
            invariant
                it.seq().len() == all.len(),
                forall|k: int| 0 <= k < all.len() ==> (#[trigger] it.seq()[k]).deep_view() == all[k],
                self.todo.deep_view() == todo + dirs_in(dir@, all.take(it.index())),
                self.found.deep_view() == found + files_in(dir@, all.take(it.index())),
        {
            let ghost n = it.index();
            let ghost todo_was = self.todo.deep_view();
            let ghost found_was = self.found.deep_view();
            assert(e.deep_view() == all[n]);
            assert(all.take(n + 1).drop_last() =~= all.take(n));
            assert(all.take(n + 1).last() == all[n]);
            let path = child_path(dir, e.name.as_str());
            if e.is_dir {
                self.todo.push(path);
                assert(self.todo.deep_view() =~= todo_was.push(child(dir@, all[n].name)));
                assert(todo_was.push(child(dir@, all[n].name)) =~= todo + dirs_in(
                    dir@,
                    all.take(n + 1),
                ));
            } else if let Some(content) = e.content {
                let meta = match e.meta {
                    Some(m) => m,
                    None => Meta { props: Props::new(), tags: Vec::new(), links: Vec::new() },
                };
                assert(meta.deep_view() =~= meta_or_none(all[n].meta));
                let kind = match meta.props.get(KIND_PROP) {
                    Some(k) => Some(k.clone()),
                    None => None,
                };
                let facts = NodeFacts {
                    node_id: e.node_id,
                    path,
                    size: content.size,
                    mtime_ms: content.mtime_ms,
                    kind,
                    locator: content.locator,
                    tags: meta.tags,
                    links: meta.links,
                    props: meta.props,
                };
                assert(facts.deep_view() =~= facts_of(dir@, all[n]));
                self.found.push(facts);
                assert(self.found.deep_view() =~= found_was.push(facts_of(dir@, all[n])));
                assert(found_was.push(facts_of(dir@, all[n])) =~= found + files_in(
                    dir@,
                    all.take(n + 1),
                ));
            }
        }
        assert(all.take(all.len() as int) =~= all);
    }

    /// What is known of the files, in the order of their paths; files at the same path stay in the
    /// order they were found in.
    pub fn facts(self) -> (r: Vec<NodeFacts>)
        ensures
            by_path(r.deep_view()),
            same_at_each_path(r.deep_view(), self.found.deep_view()),
    {
        sort(self.found)
    }
}

// ----- order -----

/// Whether paths do not descend.
pub open spec fn by_path(s: Seq<FactsView>) -> bool {
    forall|i: int, j: int|
        0 <= i < j < s.len() ==> !lex_lt((#[trigger] s[j]).path, (#[trigger] s[i]).path)
}

/// What is at a path, in order.
pub open spec fn at_path(s: Seq<FactsView>, path: Seq<char>) -> Seq<FactsView> {
    s.filter(|f: FactsView| f.path == path)
}

/// Whether two sequences hold the same at each path, in the same order: one is the other
/// rearranged, and nothing at one path has changed places.
pub open spec fn same_at_each_path(s: Seq<FactsView>, t: Seq<FactsView>) -> bool {
    forall|path: Seq<char>| #[trigger] at_path(s, path) == at_path(t, path)
}

proof fn lemma_at_path_add(s: Seq<FactsView>, t: Seq<FactsView>, path: Seq<char>)
    ensures
        at_path(s + t, path) == at_path(s, path) + at_path(t, path),
    decreases t.len(),
{
    reveal(Seq::filter);
    if t.len() == 0 {
        assert(s + t =~= s);
        assert(at_path(t, path) =~= Seq::<FactsView>::empty());
        assert(at_path(s, path) + at_path(t, path) =~= at_path(s, path));
    } else {
        assert((s + t).drop_last() =~= s + t.drop_last());
        assert((s + t).last() == t.last());
        lemma_at_path_add(s, t.drop_last(), path);
        assert(at_path(s + t, path) =~= at_path(s, path) + at_path(t, path));
    }
}

proof fn lemma_nothing_at(s: Seq<FactsView>, path: Seq<char>)
    requires
        forall|i: int| 0 <= i < s.len() ==> (#[trigger] s[i]).path != path,
    ensures
        at_path(s, path) == Seq::<FactsView>::empty(),
    decreases s.len(),
{
    reveal(Seq::filter);
    if s.len() > 0 {
        assert forall|i: int| 0 <= i < s.drop_last().len() implies (#[trigger] s.drop_last()[i]).path
            != path by {
            assert(s.drop_last()[i] == s[i]);
        }
        lemma_nothing_at(s.drop_last(), path);
        assert(s[s.len() - 1] == s.last());
    }
}

proof fn lemma_at_path_last(s: Seq<FactsView>, path: Seq<char>)
    requires
        s.len() > 0,
    ensures
        at_path(s, path) == (if s.last().path == path {
            at_path(s.drop_last(), path).push(s.last())
        } else {
            at_path(s.drop_last(), path)
        }),
{
    reveal(Seq::filter);
}

/// Turn the order of facts round.
fn turned(v: Vec<NodeFacts>) -> (r: Vec<NodeFacts>)
    ensures
        r.deep_view() == v.deep_view().reverse(),
{
    let ghost all = v.deep_view();
    let mut rest = v;
    let mut out: Vec<NodeFacts> = Vec::new();
    assert(rest.deep_view() =~= all.take(all.len() as int));
    assert(out.deep_view() =~= all.skip(all.len() as int).reverse());
    while rest.len() > 0
        invariant
            rest@.len() <= all.len(),
            rest.deep_view() == all.take(rest@.len() as int),
            out.deep_view() == all.skip(rest@.len() as int).reverse(),
        decreases rest@.len(),
    {
        let ghost n = rest@.len();
        let ghost was = out.deep_view();
        let ghost rest_was = rest.deep_view();
        if let Some(f) = rest.pop() {
            assert(f.deep_view() == rest_was[n - 1]);
            assert(rest.deep_view() =~= rest_was.drop_last());
            assert(rest.deep_view() =~= all.take(n - 1));
            assert(f.deep_view() == all[n - 1]);
            out.push(f);
            assert(out.deep_view() =~= was.push(all[n - 1]));
            assert(was.push(all[n - 1]) =~= all.skip(n - 1).reverse());
        }
    }
    assert(all.skip(0) =~= all);
    out
}

/// Put together two sequences that are in order; at the same path, what is in `a` comes first.
fn merge(a: Vec<NodeFacts>, b: Vec<NodeFacts>) -> (r: Vec<NodeFacts>)
    requires
        by_path(a.deep_view()),
        by_path(b.deep_view()),
    ensures
        by_path(r.deep_view()),
        same_at_each_path(r.deep_view(), a.deep_view() + b.deep_view()),
{
    let ghost whole = a.deep_view() + b.deep_view();
    let mut a = a;
    let mut b = b;
    // What has been put in place, last first.
    let mut tail: Vec<NodeFacts> = Vec::new();
    assert(tail.deep_view().reverse() =~= Seq::<FactsView>::empty());
    proof {
        assert forall|path: Seq<char>| #[trigger]
            at_path(whole, path) == at_path(a.deep_view(), path) + at_path(b.deep_view(), path)
                + at_path(tail.deep_view().reverse(), path) by {
            lemma_at_path_add(a.deep_view(), b.deep_view(), path);
            lemma_nothing_at(tail.deep_view().reverse(), path);
            assert(at_path(whole, path) =~= at_path(a.deep_view(), path) + at_path(
                b.deep_view(),
                path,
            ) + at_path(tail.deep_view().reverse(), path));
        }
    }
    while a.len() > 0 || b.len() > 0
        invariant
            by_path(a.deep_view()),
            by_path(b.deep_view()),
            by_path(tail.deep_view().reverse()),
            tail@.len() > 0 ==> below(a.deep_view(), tail.deep_view().last().path) && below(
                b.deep_view(),
                tail.deep_view().last().path,
            ),
            forall|path: Seq<char>| #[trigger]
                at_path(whole, path) == at_path(a.deep_view(), path) + at_path(b.deep_view(), path)
                    + at_path(tail.deep_view().reverse(), path),
        decreases a@.len() + b@.len(),
    {
        let ghost x = a.deep_view();
        let ghost y = b.deep_view();
        let ghost z = tail.deep_view();
        let na: usize = a.len();
        let nb: usize = b.len();
        let from_b = if na == 0 {
            true
        } else if nb == 0 {
            false
        } else {
            assert(x.last() == a@[na - 1].deep_view());
            assert(y.last() == b@[nb - 1].deep_view());
            !before(b[nb - 1].path.as_str(), a[na - 1].path.as_str())
        };
        let taken = if from_b {
            b.pop()
        } else {
            a.pop()
        };
        if let Some(f) = taken {
            let ghost g = f.deep_view();
            proof {
                if from_b {
                    assert(g == y[nb - 1]);
                    assert(b.deep_view() =~= y.drop_last());
                } else {
                    assert(g == x[na - 1]);
                    assert(a.deep_view() =~= x.drop_last());
                }
            }
            tail.push(f);
            proof {
                assert(tail.deep_view() =~= z.push(g));
                lemma_taken(x, y, z, from_b);
                let (x2, y2) = (a.deep_view(), b.deep_view());
                let z2 = tail.deep_view();
                assert forall|path: Seq<char>| #[trigger]
                    at_path(whole, path) == at_path(x2, path) + at_path(y2, path) + at_path(
                        z2.reverse(),
                        path,
                    ) by {
                    lemma_taken_at(x, y, z, from_b, path);
                }
            }
        }
    }
    let r = turned(tail);
    proof {
        assert forall|path: Seq<char>| #[trigger]
            at_path(r.deep_view(), path) == at_path(whole, path) by {
            lemma_nothing_at(a.deep_view(), path);
            lemma_nothing_at(b.deep_view(), path);
            assert(at_path(whole, path) =~= at_path(r.deep_view(), path));
        }
    }
    r
}

/// Whether no path is greater than `path`.
spec fn below(s: Seq<FactsView>, path: Seq<char>) -> bool {
    forall|i: int| 0 <= i < s.len() ==> !lex_lt(path, (#[trigger] s[i]).path)
}

spec fn takes_from_b(x: Seq<FactsView>, y: Seq<FactsView>, from_b: bool) -> bool {
    if from_b {
        y.len() > 0 && (x.len() == 0 || !lex_lt(y.last().path, x.last().path))
    } else {
        x.len() > 0 && (y.len() == 0 || lex_lt(y.last().path, x.last().path))
    }
}

proof fn lemma_not_less(a: Seq<char>, b: Seq<char>, c: Seq<char>)
    requires
        !lex_lt(b, a),
        !lex_lt(c, b),
    ensures
        !lex_lt(c, a),
{
    lemma_lex_total(a, b);
    lemma_lex_total(b, c);
    lemma_lex_total(a, c);
    if lex_lt(c, a) {
        if a == b || b == c {
        } else {
            lemma_lex_trans(a, b, c);
            lemma_lex_trans(a, c, a);
            lemma_lex_total(a, a);
        }
    }
}

proof fn lemma_taken(x: Seq<FactsView>, y: Seq<FactsView>, z: Seq<FactsView>, from_b: bool)
    requires
        by_path(x),
        by_path(y),
        by_path(z.reverse()),
        z.len() > 0 ==> below(x, z.last().path) && below(y, z.last().path),
        takes_from_b(x, y, from_b),
    ensures
        ({
            let g = if from_b {
                y.last()
            } else {
                x.last()
            };
            let x2 = if from_b {
                x
            } else {
                x.drop_last()
            };
            let y2 = if from_b {
                y.drop_last()
            } else {
                y
            };
            &&& by_path(x2)
            &&& by_path(y2)
            &&& by_path(z.push(g).reverse())
            &&& below(x2, g.path)
            &&& below(y2, g.path)
        }),
{
    let g = if from_b {
        y.last()
    } else {
        x.last()
    };
    if from_b {
        assert(y[y.len() - 1] == y.last());
        assert forall|i: int| 0 <= i < x.len() implies !lex_lt(g.path, (#[trigger] x[i]).path) by {
            lemma_lex_total(x.last().path, x.last().path);
            if i < x.len() - 1 {
                assert(!lex_lt(x[x.len() - 1].path, x[i].path));
            }
            lemma_not_less(x[i].path, x.last().path, g.path);
        }
        assert forall|i: int| 0 <= i < y.drop_last().len() implies !lex_lt(
            g.path,
            (#[trigger] y.drop_last()[i]).path,
        ) by {
            assert(!lex_lt(y[y.len() - 1].path, y[i].path));
        }
    } else {
        assert(x[x.len() - 1] == x.last());
        assert forall|i: int| 0 <= i < y.len() implies !lex_lt(g.path, (#[trigger] y[i]).path) by {
            lemma_lex_total(y.last().path, y.last().path);
            lemma_lex_total(y.last().path, g.path);
            if lex_lt(g.path, y.last().path) {
                lemma_lex_trans(g.path, y.last().path, g.path);
                lemma_lex_total(g.path, g.path);
            }
            if i < y.len() - 1 {
                assert(!lex_lt(y[y.len() - 1].path, y[i].path));
            }
            lemma_not_less(y[i].path, y.last().path, g.path);
        }
        assert forall|i: int| 0 <= i < x.drop_last().len() implies !lex_lt(
            g.path,
            (#[trigger] x.drop_last()[i]).path,
        ) by {
            assert(!lex_lt(x[x.len() - 1].path, x[i].path));
        }
    }
    let w = z.push(g).reverse();
    assert(w =~= seq![g] + z.reverse());
    assert forall|i: int, j: int| 0 <= i < j < w.len() implies !lex_lt(
        (#[trigger] w[j]).path,
        (#[trigger] w[i]).path,
    ) by {
        assert(w[j] == z.reverse()[j - 1]);
        if i > 0 {
            assert(w[i] == z.reverse()[i - 1]);
        } else {
            assert(z.reverse()[0] == z.last());
            let top = z.last();
            assert(!lex_lt(top.path, g.path));
            if j > 1 {
                assert(!lex_lt(z.reverse()[j - 1].path, z.reverse()[0].path));
            } else {
                lemma_lex_total(top.path, top.path);
            }
            lemma_not_less(g.path, top.path, w[j].path);
        }
    }
}

proof fn lemma_taken_at(
    x: Seq<FactsView>,
    y: Seq<FactsView>,
    z: Seq<FactsView>,
    from_b: bool,
    path: Seq<char>,
)
    requires
        by_path(y),
        takes_from_b(x, y, from_b),
    ensures
        ({
            let g = if from_b {
                y.last()
            } else {
                x.last()
            };
            let x2 = if from_b {
                x
            } else {
                x.drop_last()
            };
            let y2 = if from_b {
                y.drop_last()
            } else {
                y
            };
            at_path(x, path) + at_path(y, path) + at_path(z.reverse(), path) == at_path(x2, path)
                + at_path(y2, path) + at_path(z.push(g).reverse(), path)
        }),
{
    let g = if from_b {
        y.last()
    } else {
        x.last()
    };
    let w = z.push(g).reverse();
    assert(w =~= seq![g] + z.reverse());
    lemma_at_path_add(seq![g], z.reverse(), path);
    lemma_at_path_last(seq![g], path);
    assert(seq![g].drop_last() =~= Seq::<FactsView>::empty());
    lemma_nothing_at(Seq::<FactsView>::empty(), path);
    let zs = at_path(z.reverse(), path);
    if from_b {
        lemma_at_path_last(y, path);
        assert(at_path(x, path) + at_path(y, path) + zs =~= at_path(x, path) + at_path(
            y.drop_last(),
            path,
        ) + at_path(w, path));
    } else {
        lemma_at_path_last(x, path);
        if g.path == path {
            assert forall|i: int| 0 <= i < y.len() implies (#[trigger] y[i]).path != path by {
                if y[i].path == path {
                    lemma_lex_total(path, path);
                    if i < y.len() - 1 {
                        assert(!lex_lt(y[y.len() - 1].path, y[i].path));
                    }
                }
            }
            lemma_nothing_at(y, path);
        }
        assert(at_path(x, path) + at_path(y, path) + zs =~= at_path(x.drop_last(), path) + at_path(
            y,
            path,
        ) + at_path(w, path));
    }
}

/// Put facts in the order of their paths, without changing places at one path.
fn sort(v: Vec<NodeFacts>) -> (r: Vec<NodeFacts>)
    ensures
        by_path(r.deep_view()),
        same_at_each_path(r.deep_view(), v.deep_view()),
    decreases v@.len(),
{
    let n: usize = v.len();
    if n <= 1 {
        return v;
    }
    let ghost all = v.deep_view();
    let mut a = v;
    let b = a.split_off(n / 2);
    let ghost x = a.deep_view();
    let ghost y = b.deep_view();
    assert(all =~= x + y);
    let a = sort(a);
    let b = sort(b);
    let ghost x2 = a.deep_view();
    let ghost y2 = b.deep_view();
    let r = merge(a, b);
    proof {
        assert forall|path: Seq<char>| #[trigger] at_path(r.deep_view(), path) == at_path(all, path) by {
            lemma_at_path_add(x, y, path);
            lemma_at_path_add(x2, y2, path);
            assert(at_path(x2, path) == at_path(x, path));
            assert(at_path(y2, path) == at_path(y, path));
        }
    }
    r
}

// ----- the whole walk -----

/// What listing each directory of a drive gives.
pub type Tree = spec_fn(Seq<char>) -> Option<Seq<ListedView>>;

/// What a walk finds from the directories still to be listed, if it is done after at most `fuel`
/// more of them.
pub open spec fn walked(tree: Tree, todo: Seq<Seq<char>>, fuel: nat) -> Option<Seq<FactsView>>
    decreases fuel,
{
    if todo.len() == 0 {
        Some(Seq::empty())
    } else if fuel == 0 {
        None
    } else {
        let dir = todo.last();
        let items = items_or_none(tree(dir));
        match walked(tree, todo.drop_last() + dirs_in(dir, items), (fuel - 1) as nat) {
            Some(more) => Some(files_in(dir, items) + more),
            None => None,
        }
    }
}

/// Whether `way` leads from directory to directory.
pub open spec fn leads(tree: Tree, way: Seq<Seq<char>>) -> bool {
    forall|i: int|
        0 <= i < way.len() - 1 ==> dirs_in(
            #[trigger] way[i],
            items_or_none(tree(way[i])),
        ).contains(way[i + 1])
}

/// Whether a file is in a directory.
pub open spec fn lies_in(tree: Tree, dir: Seq<char>, f: FactsView) -> bool {
    files_in(dir, items_or_none(tree(dir))).contains(f)
}

/// Whether a file is in a directory that a way leads to from `from`.
pub open spec fn reached_by(tree: Tree, from: Seq<char>, way: Seq<Seq<char>>, f: FactsView) -> bool {
    way.len() > 0 && way[0] == from && leads(tree, way) && lies_in(tree, way.last(), f)
}

proof fn lemma_walk_complete(
    tree: Tree,
    todo: Seq<Seq<char>>,
    fuel: nat,
    k: int,
    way: Seq<Seq<char>>,
    f: FactsView,
)
    requires
        walked(tree, todo, fuel) is Some,
        0 <= k < todo.len(),
        reached_by(tree, todo[k], way, f),
    ensures
        walked(tree, todo, fuel)->0.contains(f),
    decreases fuel,
{
    let dir = todo.last();
    let items = items_or_none(tree(dir));
    let subs = dirs_in(dir, items);
    let next = todo.drop_last() + subs;
    let files = files_in(dir, items);
    let more = walked(tree, next, (fuel - 1) as nat)->0;
    let out = files + more;
    if k < todo.len() - 1 {
        assert(next[k] == todo[k]);
        lemma_walk_complete(tree, next, (fuel - 1) as nat, k, way, f);
    } else if way.len() == 1 {
        let i = choose|i: int| 0 <= i < files.len() && files[i] == f;
        assert(out[i] == f);
    } else {
        let tail = way.drop_first();
        assert(way[0] == dir);
        assert(subs.contains(way[1]));
        let j = choose|j: int| 0 <= j < subs.len() && subs[j] == way[1];
        let at = todo.len() - 1 + j;
        assert(next[at] == way[1]);
        assert(tail[0] == way[1]);
        assert(tail.last() == way.last());
        assert forall|i: int| 0 <= i < tail.len() - 1 implies dirs_in(
            #[trigger] tail[i],
            items_or_none(tree(tail[i])),
        ).contains(tail[i + 1]) by {
            assert(tail[i] == way[i + 1]);
            assert(tail[i + 1] == way[i + 2]);
        }
        lemma_walk_complete(tree, next, (fuel - 1) as nat, at, tail, f);
    }
    if more.contains(f) {
        let i = choose|i: int| 0 <= i < more.len() && more[i] == f;
        assert(out[files.len() + i] == f);
    }
}

proof fn lemma_walk_sound(tree: Tree, todo: Seq<Seq<char>>, fuel: nat, f: FactsView) -> (r: (
    int,
    Seq<Seq<char>>,
))
    requires
        walked(tree, todo, fuel) is Some,
        walked(tree, todo, fuel)->0.contains(f),
    ensures
        0 <= r.0 < todo.len(),
        reached_by(tree, todo[r.0], r.1, f),
    decreases fuel,
{
    let dir = todo.last();
    let items = items_or_none(tree(dir));
    let subs = dirs_in(dir, items);
    let next = todo.drop_last() + subs;
    let files = files_in(dir, items);
    let more = walked(tree, next, (fuel - 1) as nat)->0;
    let out = files + more;
    let at = choose|i: int| 0 <= i < out.len() && out[i] == f;
    if at < files.len() {
        assert(files[at] == f);
        let way = seq![dir];
        assert(way.last() == dir);
        assert(reached_by(tree, todo[todo.len() - 1], way, f));
        (todo.len() - 1, way)
    } else {
        assert(more[at - files.len()] == f);
        let (k, way) = lemma_walk_sound(tree, next, (fuel - 1) as nat, f);
        if k < todo.len() - 1 {
            assert(next[k] == todo[k]);
            (k, way)
        } else {
            let longer = seq![dir] + way;
            assert(next[k] == subs[k - (todo.len() - 1)]);
            assert(subs.contains(way[0]));
            assert(longer[0] == dir);
            assert(longer.last() == way.last());
            assert forall|i: int| 0 <= i < longer.len() - 1 implies dirs_in(
                #[trigger] longer[i],
                items_or_none(tree(longer[i])),
            ).contains(longer[i + 1]) by {
                assert(longer[i + 1] == way[i]);
                if i > 0 {
                    assert(longer[i] == way[i - 1]);
                    assert(dirs_in(way[i - 1], items_or_none(tree(way[i - 1]))).contains(way[i]));
                }
            }
            assert(reached_by(tree, todo[todo.len() - 1], longer, f));
            (todo.len() - 1, longer)
        }
    }
}

/// A walk that comes to its end has found every file in the directory it started from and in those
/// below it, and nothing else.
pub proof fn law_walk_finds_every_file(tree: Tree, top: Seq<char>, fuel: nat, f: FactsView)
    requires
        walked(tree, seq![top], fuel) is Some,
    ensures
        walked(tree, seq![top], fuel)->0.contains(f) <==> exists|way: Seq<Seq<char>>|
            reached_by(tree, top, way, f),
{
    let todo = seq![top];
    if walked(tree, todo, fuel)->0.contains(f) {
        let (k, way) = lemma_walk_sound(tree, todo, fuel, f);
        assert(reached_by(tree, top, way, f));
    }
    if exists|way: Seq<Seq<char>>| reached_by(tree, top, way, f) {
        let way = choose|way: Seq<Seq<char>>| reached_by(tree, top, way, f);
        lemma_walk_complete(tree, todo, fuel, 0, way, f);
    }
}

/// Whether names are not empty, hold no `/`, and differ.
pub open spec fn neat(items: Seq<ListedView>) -> bool {
    &&& forall|i: int| 0 <= i < items.len() ==> one_name((#[trigger] items[i]).name)
    &&& forall|i: int, j: int|
        0 <= i < j < items.len() ==> (#[trigger] items[i]).name != (#[trigger] items[j]).name
}

/// Whether a name is one path component.
pub open spec fn one_name(name: Seq<char>) -> bool {
    name.len() > 0 && forall|k: int| 0 <= k < name.len() ==> name[k] != '/'
}

/// What every path below a directory starts with.
spec fn below_dir(dir: Seq<char>) -> Seq<char> {
    if dir == root() {
        root()
    } else {
        dir + root()
    }
}

/// Whether nothing is below both of two directories.
spec fn apart(a: Seq<char>, b: Seq<char>) -> bool {
    !begins(below_dir(a), below_dir(b)) && !begins(below_dir(b), below_dir(a))
}

spec fn all_apart(todo: Seq<Seq<char>>) -> bool {
    forall|i: int, j: int| 0 <= i < j < todo.len() ==> apart(#[trigger] todo[i], #[trigger] todo[j])
}

/// Whether no two of the facts are of one path.
pub open spec fn paths_differ(s: Seq<FactsView>) -> bool {
    forall|i: int, j: int|
        0 <= i < j < s.len() ==> (#[trigger] s[i]).path != (#[trigger] s[j]).path
}

proof fn lemma_child_below(dir: Seq<char>, name: Seq<char>)
    requires
        one_name(name),
    ensures
        child(dir, name) == below_dir(dir) + name,
        below_dir(child(dir, name)) == below_dir(dir) + name + root(),
        begins(child(dir, name), below_dir(dir)),
        begins(below_dir(child(dir, name)), below_dir(dir)),
{
    let c = child(dir, name);
    assert(c =~= below_dir(dir) + name);
    assert(c != root()) by {
        if c == root() {
            assert(c.last() == name.last());
            assert(name[name.len() - 1] != '/');
        }
    }
    assert(c.take(below_dir(dir).len() as int) =~= below_dir(dir));
    assert(below_dir(c).take(below_dir(dir).len() as int) =~= below_dir(dir));
}

/// Two texts that a third begins with: one begins with the other.
proof fn lemma_both_begin(p: Seq<char>, a: Seq<char>, b: Seq<char>)
    requires
        begins(p, a),
        begins(p, b),
    ensures
        begins(a, b) || begins(b, a),
{
    if a.len() >= b.len() {
        assert(a.take(b.len() as int) =~= p.take(b.len() as int));
    } else {
        assert(b.take(a.len() as int) =~= p.take(a.len() as int));
    }
}

proof fn lemma_begins_on(p: Seq<char>, a: Seq<char>, b: Seq<char>)
    requires
        begins(p, a),
        begins(a, b),
    ensures
        begins(p, b),
{
    assert(p.take(b.len() as int) =~= a.take(b.len() as int));
}

/// A name does not begin with another name and a `/`; nor does it with the same.
proof fn lemma_names_apart(dir: Seq<char>, m: Seq<char>, n: Seq<char>)
    requires
        one_name(m),
        one_name(n),
    ensures
        !begins(child(dir, n), below_dir(child(dir, m))),
        m != n ==> child(dir, m) != child(dir, n),
        m != n ==> apart(child(dir, m), child(dir, n)),
{
    lemma_child_below(dir, m);
    lemma_child_below(dir, n);
    let h = below_dir(dir);
    let (c, d) = (child(dir, m), child(dir, n));
    let at = (h.len() + m.len()) as int;
    if begins(d, below_dir(c)) {
        assert(d.take(at + 1)[at] == below_dir(c)[at]);
        assert(d[at] == n[m.len() as int]);
    }
    if m != n {
        if c == d {
            assert(m =~= c.skip(h.len() as int));
            assert(n =~= d.skip(h.len() as int));
        }
        if begins(below_dir(d), below_dir(c)) {
            lemma_begins_same(h, n, m);
        }
        if begins(below_dir(c), below_dir(d)) {
            lemma_begins_same(h, m, n);
        }
    }
}

proof fn lemma_begins_same(h: Seq<char>, n: Seq<char>, m: Seq<char>)
    requires
        one_name(m),
        one_name(n),
        begins(h + n + root(), h + m + root()),
    ensures
        m == n,
{
    let x = h + n + root();
    let y = h + m + root();
    let at = (h.len() + m.len()) as int;
    assert(x.take(y.len() as int) == y);
    assert(x[at] == y[at]) by {
        assert(x.take(y.len() as int)[at] == x[at]);
    }
    assert(y[at] == '/');
    if m.len() < n.len() {
        assert(x[at] == n[m.len() as int]);
    }
    assert(m.len() == n.len());
    assert forall|k: int| 0 <= k < m.len() implies m[k] == n[k] by {
        assert(x.take(y.len() as int)[h.len() + k] == x[h.len() + k]);
        assert(y[h.len() + k] == m[k]);
        assert(x[h.len() + k] == n[k]);
    }
    assert(m =~= n);
}

/// Which item a directory of a listing comes from.
proof fn lemma_dir_item(dir: Seq<char>, items: Seq<ListedView>, k: int) -> (i: int)
    requires
        0 <= k < dirs_in(dir, items).len(),
    ensures
        0 <= i < items.len(),
        items[i].is_dir,
        dirs_in(dir, items)[k] == child(dir, items[i].name),
    decreases items.len(),
{
    let init = items.drop_last();
    if k < dirs_in(dir, init).len() {
        let i = lemma_dir_item(dir, init, k);
        assert(init[i] == items[i]);
        i
    } else {
        items.len() - 1
    }
}

/// Which item a file of a listing comes from.
proof fn lemma_file_item(dir: Seq<char>, items: Seq<ListedView>, k: int) -> (i: int)
    requires
        0 <= k < files_in(dir, items).len(),
    ensures
        0 <= i < items.len(),
        !items[i].is_dir,
        files_in(dir, items)[k].path == child(dir, items[i].name),
    decreases items.len(),
{
    let init = items.drop_last();
    if k < files_in(dir, init).len() {
        let i = lemma_file_item(dir, init, k);
        assert(init[i] == items[i]);
        i
    } else {
        items.len() - 1
    }
}

proof fn lemma_neat_init(items: Seq<ListedView>)
    requires
        neat(items),
        items.len() > 0,
    ensures
        neat(items.drop_last()),
{
    let init = items.drop_last();
    assert forall|i: int| 0 <= i < init.len() implies one_name((#[trigger] init[i]).name) by {
        assert(init[i] == items[i]);
    }
    assert forall|i: int, j: int| 0 <= i < j < init.len() implies (#[trigger] init[i]).name != (
    #[trigger] init[j]).name by {
        assert(init[i] == items[i] && init[j] == items[j]);
    }
}

proof fn lemma_listing_apart(dir: Seq<char>, items: Seq<ListedView>)
    requires
        neat(items),
    ensures
        all_apart(dirs_in(dir, items)),
        paths_differ(files_in(dir, items)),
    decreases items.len(),
{
    if items.len() > 0 {
        let init = items.drop_last();
        lemma_neat_init(items);
        lemma_listing_apart(dir, init);
        let last = items[items.len() - 1];
        let dirs = dirs_in(dir, items);
        assert forall|i: int, j: int| 0 <= i < j < dirs.len() implies apart(
            #[trigger] dirs[i],
            #[trigger] dirs[j],
        ) by {
            let before = dirs_in(dir, init);
            assert(dirs[i] == before[i]);
            if j < before.len() {
                assert(dirs[j] == before[j]);
            } else {
                let m = lemma_dir_item(dir, init, i);
                assert(init[m] == items[m]);
                lemma_names_apart(dir, items[m].name, last.name);
            }
        }
        let files = files_in(dir, items);
        assert forall|i: int, j: int| 0 <= i < j < files.len() implies (#[trigger] files[i]).path != (
        #[trigger] files[j]).path by {
            let before = files_in(dir, init);
            assert(files[i] == before[i]);
            if j < before.len() {
                assert(files[j] == before[j]);
            } else {
                let m = lemma_file_item(dir, init, i);
                assert(init[m] == items[m]);
                lemma_names_apart(dir, items[m].name, last.name);
            }
        }
    }
}

/// After a directory has been listed, what is to be listed is still apart.
proof fn lemma_todo_apart(todo: Seq<Seq<char>>, items: Seq<ListedView>)
    requires
        todo.len() > 0,
        all_apart(todo),
        neat(items),
    ensures
        all_apart(todo.drop_last() + dirs_in(todo.last(), items)),
{
    let dir = todo.last();
    let rest = todo.drop_last();
    let subs = dirs_in(dir, items);
    let next = rest + subs;
    lemma_listing_apart(dir, items);
    assert forall|i: int, j: int| 0 <= i < j < next.len() implies apart(
        #[trigger] next[i],
        #[trigger] next[j],
    ) by {
        if j < rest.len() {
            assert(next[i] == todo[i] && next[j] == todo[j]);
        } else if i >= rest.len() {
            assert(next[i] == subs[i - rest.len()] && next[j] == subs[j - rest.len()]);
        } else {
            let a = todo[i];
            assert(next[i] == a);
            assert(apart(todo[i], todo[todo.len() - 1]));
            let m = lemma_dir_item(dir, items, j - rest.len());
            let c = child(dir, items[m].name);
            assert(next[j] == c);
            lemma_child_below(dir, items[m].name);
            if begins(below_dir(c), below_dir(a)) {
                lemma_both_begin(below_dir(c), below_dir(a), below_dir(dir));
            }
            if begins(below_dir(a), below_dir(c)) {
                lemma_begins_on(below_dir(a), below_dir(c), below_dir(dir));
            }
        }
    }
}

/// What a walk finds is below one of the directories that were to be listed.
proof fn lemma_walked_below(tree: Tree, todo: Seq<Seq<char>>, fuel: nat, k: int) -> (i: int)
    requires
        walked(tree, todo, fuel) is Some,
        0 <= k < walked(tree, todo, fuel)->0.len(),
        forall|d: Seq<char>| neat(items_or_none(#[trigger] tree(d))),
    ensures
        0 <= i < todo.len(),
        begins(walked(tree, todo, fuel)->0[k].path, below_dir(todo[i])),
    decreases fuel,
{
    let dir = todo.last();
    let items = items_or_none(tree(dir));
    let rest = todo.drop_last();
    let subs = dirs_in(dir, items);
    let files = files_in(dir, items);
    let more = walked(tree, rest + subs, (fuel - 1) as nat)->0;
    let out = walked(tree, todo, fuel)->0;
    if k < files.len() {
        assert(out[k] == files[k]);
        let m = lemma_file_item(dir, items, k);
        lemma_child_below(dir, items[m].name);
        todo.len() - 1
    } else {
        assert(out[k] == more[k - files.len()]);
        let i = lemma_walked_below(tree, rest + subs, (fuel - 1) as nat, k - files.len());
        if i < rest.len() {
            assert((rest + subs)[i] == todo[i]);
            i
        } else {
            let m = lemma_dir_item(dir, items, i - rest.len());
            lemma_child_below(dir, items[m].name);
            lemma_begins_on(
                out[k].path,
                below_dir(child(dir, items[m].name)),
                below_dir(dir),
            );
            todo.len() - 1
        }
    }
}

proof fn lemma_walked_once(tree: Tree, todo: Seq<Seq<char>>, fuel: nat)
    requires
        walked(tree, todo, fuel) is Some,
        all_apart(todo),
        forall|d: Seq<char>| neat(items_or_none(#[trigger] tree(d))),
    ensures
        paths_differ(walked(tree, todo, fuel)->0),
    decreases fuel,
{
    if todo.len() > 0 {
        let dir = todo.last();
        let items = items_or_none(tree(dir));
        let rest = todo.drop_last();
        let subs = dirs_in(dir, items);
        let next = rest + subs;
        let files = files_in(dir, items);
        let more = walked(tree, next, (fuel - 1) as nat)->0;
        let out = files + more;
        lemma_todo_apart(todo, items);
        lemma_listing_apart(dir, items);
        lemma_walked_once(tree, next, (fuel - 1) as nat);
        assert forall|i: int, j: int| 0 <= i < j < out.len() implies (#[trigger] out[i]).path != (
        #[trigger] out[j]).path by {
            if j < files.len() {
                assert(out[i] == files[i] && out[j] == files[j]);
            } else if i >= files.len() {
                assert(out[i] == more[i - files.len()] && out[j] == more[j - files.len()]);
            } else {
                let m = lemma_file_item(dir, items, i);
                let n = lemma_walked_below(tree, next, (fuel - 1) as nat, j - files.len());
                lemma_child_below(dir, items[m].name);
                if n < rest.len() {
                    assert(next[n] == todo[n]);
                    assert(apart(todo[n], todo[todo.len() - 1]));
                    if out[i].path == out[j].path {
                        lemma_both_begin(out[i].path, below_dir(todo[n]), below_dir(dir));
                    }
                } else {
                    let l = lemma_dir_item(dir, items, n - rest.len());
                    lemma_names_apart(dir, items[l].name, items[m].name);
                }
            }
        }
    }
}

/// Where the names in each directory are components of a path and differ, a walk finds no path
/// twice: every file is found once.
pub proof fn law_walk_finds_each_file_once(tree: Tree, top: Seq<char>, fuel: nat)
    requires
        walked(tree, seq![top], fuel) is Some,
        forall|d: Seq<char>| neat(items_or_none(#[trigger] tree(d))),
    ensures
        paths_differ(walked(tree, seq![top], fuel)->0),
{
    lemma_walked_once(tree, seq![top], fuel);
}

/// Listing one directory and taking up what is in it, as [`Walk::next`] and [`Walk::listed`] do, leaves
/// what the walk finds in all as it was: when there is nothing to list any more, it has been found.
pub proof fn law_walk_goes_on(
    tree: Tree,
    todo: Seq<Seq<char>>,
    found: Seq<FactsView>,
    fuel: nat,
)
    requires
        walked(tree, todo, fuel) is Some,
    ensures
        todo.len() == 0 ==> found + walked(tree, todo, fuel)->0 == found,
        todo.len() > 0 ==> {
            let items = items_or_none(tree(todo.last()));
            let rest = walked(
                tree,
                todo.drop_last() + dirs_in(todo.last(), items),
                (fuel - 1) as nat,
            );
            &&& fuel > 0
            &&& rest is Some
            &&& found + walked(tree, todo, fuel)->0 == found + files_in(todo.last(), items) + rest->0
        },
{
    if todo.len() > 0 {
        let items = items_or_none(tree(todo.last()));
        let files = files_in(todo.last(), items);
        let rest = walked(tree, todo.drop_last() + dirs_in(todo.last(), items), (fuel - 1) as nat);
        assert(found + (files + rest->0) =~= found + files + rest->0);
    } else {
        assert(found + Seq::<FactsView>::empty() =~= found);
    }
}

/// Sorting loses and adds nothing.
pub proof fn law_sorting_keeps_the_facts(s: Seq<FactsView>, t: Seq<FactsView>, f: FactsView)
    requires
        same_at_each_path(s, t),
    ensures
        s.contains(f) <==> t.contains(f),
{
    assert(at_path(s, f.path) == at_path(t, f.path));
    lemma_contains_at_path(s, f);
    lemma_contains_at_path(t, f);
}

proof fn lemma_contains_at_path(s: Seq<FactsView>, f: FactsView)
    ensures
        s.contains(f) <==> at_path(s, f.path).contains(f),
{
    let p = |g: FactsView| g.path == f.path;
    if s.contains(f) {
        let i = choose|i: int| 0 <= i < s.len() && s[i] == f;
        s.lemma_filter_contains(p, i);
    }
    if s.filter(p).contains(f) {
        s.lemma_filter_contains_rev(p, f);
    }
}

// ----- what is taken up of a directory -----

/// A directory is taken up one name after another: its directories are to be listed in their order, and
/// its files are found in their order.
pub proof fn law_directory_is_taken_up_in_order(
    dir: Seq<char>,
    a: Seq<ListedView>,
    b: Seq<ListedView>,
)
    ensures
        dirs_in(dir, a + b) == dirs_in(dir, a) + dirs_in(dir, b),
        files_in(dir, a + b) == files_in(dir, a) + files_in(dir, b),
    decreases b.len(),
{
    if b.len() == 0 {
        assert(a + b =~= a);
        assert(dirs_in(dir, a) + dirs_in(dir, b) =~= dirs_in(dir, a));
        assert(files_in(dir, a) + files_in(dir, b) =~= files_in(dir, a));
    } else {
        assert((a + b).drop_last() =~= a + b.drop_last());
        assert((a + b).last() == b.last());
        law_directory_is_taken_up_in_order(dir, a, b.drop_last());
        assert(dirs_in(dir, a + b) =~= dirs_in(dir, a) + dirs_in(dir, b));
        assert(files_in(dir, a + b) =~= files_in(dir, a) + files_in(dir, b));
    }
}

/// A name that is a directory is to be listed under its path, and is no file. A name with content is
/// found as a file: under its node's id and its path, with the size, time and place of its content, and
/// with the tags, links and props that are set on it, of which one names its kind. A name that is
/// neither is passed over.
pub proof fn law_name_is_taken_up_as_what_it_is(dir: Seq<char>, e: ListedView)
    ensures
        e.is_dir ==> files_in(dir, seq![e]).len() == 0 && dirs_in(dir, seq![e]) == seq![
            joined(dir, e.name),
        ],
        !e.is_dir ==> dirs_in(dir, seq![e]).len() == 0,
        !e.is_dir && e.content is None ==> files_in(dir, seq![e]).len() == 0,
        !e.is_dir && e.content is Some ==> {
            let f = files_in(dir, seq![e])[0];
            let c = e.content->0;
            &&& files_in(dir, seq![e]).len() == 1
            &&& f.path == joined(dir, e.name)
            &&& f.node_id == e.node_id
            &&& f.size == c.size && f.mtime_ms == c.mtime_ms && f.locator == c.locator
            &&& e.meta matches Some(m) ==> f.tags == m.tags && f.links == m.links && f.props
                == m.props
            &&& e.meta is None ==> f.tags.len() == 0 && f.links.len() == 0 && f.props == Map::<
                Seq<char>,
                Seq<char>,
            >::empty()
            &&& f.props.contains_key("kind"@) ==> f.kind == Some(f.props["kind"@])
            &&& !f.props.contains_key("kind"@) ==> f.kind is None
        },
{
    let one = seq![e];
    assert(one.drop_last() =~= Seq::<ListedView>::empty());
    assert(one.last() == e);
    assert(dirs_in(dir, one.drop_last()) =~= Seq::<Seq<char>>::empty());
    assert(files_in(dir, one.drop_last()) =~= Seq::<FactsView>::empty());
    law_child_is_in_its_directory(dir, e.name);
}

/// What is sorted comes in the order of its paths, each before or at the same path as the next; and what
/// is at a path is there as often, and in the order, as before.
pub proof fn law_sorted_is_in_the_order_of_paths(
    s: Seq<FactsView>,
    t: Seq<FactsView>,
    i: int,
    j: int,
    path: Seq<char>,
)
    requires
        by_path(s),
        same_at_each_path(s, t),
        0 <= i < j < s.len(),
    ensures
        s[i].path == s[j].path || lex_lt(s[i].path, s[j].path),
        s.filter(|f: FactsView| f.path == path) == t.filter(|f: FactsView| f.path == path),
{
    lemma_lex_total(s[i].path, s[j].path);
    assert(at_path(s, path) == at_path(t, path));
}

} // verus!
