//! The corpus surface — how a drive's contents reach the index.
//!
//! For each node the host knows the path (its own), the `kind` (a prop it stores but never
//! interprets) and the locator (which app holds the bytes). It hands the bytes to the kind app named
//! by `kind`, takes back indexable terms, and assembles an item. It reads no format and runs no
//! search: it dispatches.
//!
//! Items are keyed by node id, not path: a rename is an update of an item that the index already
//! has, not a removal and an unrelated addition.
//!
//! A node whose kind has no installed app is still indexed — on its name, path, tags and links — and
//! flagged `unextracted`. Install the kind app later and the same node becomes searchable by its
//! content, with no migration and no new import.
use vstd::prelude::*;
use vstd::string::*;

use crate::path::{is_in, root};
use crate::props::Props;
use crate::text::{
    base_name, chars_of, copy_strings, decimal, decimal_of, last_slash,
    law_base_name_follows_the_last_slash, lemma_last_slash, name_of, rfind_slash, same, strip_edges,
    trimmed, Edge,
};

verus! {

/// A link: the relation and the target.
pub type LinkView = (Seq<char>, Seq<char>);

/// The model of a map from names to texts.
pub type PropsView = Map<Seq<char>, Seq<char>>;

/// What a kind app returns from `extract`.
#[derive(Debug, Clone, PartialEq, Eq)]
pub struct Extracted {
    pub title: Option<String>,
    pub text: String,
    pub links: Vec<(String, String)>,
    pub props: Props,
    pub tags: Vec<String>,
    pub unextracted: bool,
}

/// Model of [`Extracted`].
#[verifier::ext_equal]
pub struct ExtractedView {
    pub title: Option<Seq<char>>,
    pub text: Seq<char>,
    pub links: Seq<LinkView>,
    pub props: PropsView,
    pub tags: Seq<Seq<char>>,
    pub unextracted: bool,
}

impl DeepView for Extracted {
    type V = ExtractedView;

    open spec fn deep_view(&self) -> ExtractedView {
        ExtractedView {
            title: self.title.deep_view(),
            text: self.text@,
            links: self.links.deep_view(),
            props: self.props@,
            tags: self.tags.deep_view(),
            unextracted: self.unextracted,
        }
    }
}

/// Nothing was found, and the flag says whether the bytes could be read.
pub open spec fn nothing_extracted(unextracted: bool) -> ExtractedView {
    ExtractedView {
        title: None,
        text: Seq::empty(),
        links: Seq::empty(),
        props: Map::empty(),
        tags: Seq::empty(),
        unextracted,
    }
}

impl Default for Extracted {
    /// The bytes were read, and held nothing to index.
    fn default() -> (r: Self)
        ensures
            r.deep_view() == nothing_extracted(false),
    {
        let r = Extracted {
            title: None,
            text: String::new(),
            links: Vec::new(),
            props: Props::new(),
            tags: Vec::new(),
            unextracted: false,
        };
        assert(r.deep_view() =~= nothing_extracted(false));
        r
    }
}

impl Extracted {
    /// Nothing could read the bytes.
    pub fn unextracted() -> (r: Self)
        ensures
            r.deep_view() == nothing_extracted(true),
    {
        let r = Extracted { unextracted: true, ..Extracted::default() };
        assert(r.deep_view() =~= nothing_extracted(true));
        r
    }
}

/// Everything the host knows about one node before extraction. Assembled from the drive's own tree,
/// content map and metadata — no format knowledge anywhere in it.
#[derive(Debug, Clone)]
pub struct NodeFacts {
    pub node_id: String,
    pub path: String,
    pub size: u64,
    pub mtime_ms: u64,
    /// `props.kind` — the service name of the app that understands this format, if anything set it.
    pub kind: Option<String>,
    /// `<app>:<id>` — which content app holds the bytes.
    pub locator: String,
    pub tags: Vec<String>,
    /// Links the drive itself holds, as `(rel, target)`.
    pub links: Vec<(String, String)>,
    pub props: Props,
}

/// Model of [`NodeFacts`].
#[verifier::ext_equal]
pub struct FactsView {
    pub node_id: Seq<char>,
    pub path: Seq<char>,
    pub size: u64,
    pub mtime_ms: u64,
    pub kind: Option<Seq<char>>,
    pub locator: Seq<char>,
    pub tags: Seq<Seq<char>>,
    pub links: Seq<LinkView>,
    pub props: PropsView,
}

impl DeepView for NodeFacts {
    type V = FactsView;

    open spec fn deep_view(&self) -> FactsView {
        FactsView {
            node_id: self.node_id@,
            path: self.path@,
            size: self.size,
            mtime_ms: self.mtime_ms,
            kind: self.kind.deep_view(),
            locator: self.locator@,
            tags: self.tags.deep_view(),
            links: self.links.deep_view(),
            props: self.props@,
        }
    }
}

impl Default for NodeFacts {
    /// Nothing is known.
    fn default() -> (r: Self)
        ensures
            r.deep_view() == (FactsView {
                node_id: Seq::empty(),
                path: Seq::empty(),
                size: 0,
                mtime_ms: 0,
                kind: None,
                locator: Seq::empty(),
                tags: Seq::empty(),
                links: Seq::empty(),
                props: Map::empty(),
            }),
    {
        NodeFacts {
            node_id: String::new(),
            path: String::new(),
            size: 0,
            mtime_ms: 0,
            kind: None,
            locator: String::new(),
            tags: Vec::new(),
            links: Vec::new(),
            props: Props::new(),
        }
    }
}

/// One item in the corpus contract that the index consumes.
#[derive(Debug, Clone, PartialEq, Eq)]
pub struct Item {
    /// Stable identity. A rename updates this item; it does not create a second one.
    pub id: String,
    /// The format, or `file` when nothing declared one.
    pub kind: String,
    pub title: String,
    /// Indexable prose. Empty when no kind app could read the bytes.
    pub text: String,
    /// The drive path at the time of indexing — for display, never for identity.
    pub reference: String,
    pub updated: u64,
    pub tags: Vec<String>,
    /// `(rel, target)` in the mesh link grammar, merging what the drive holds with what the format
    /// declared internally.
    pub links: Vec<(String, String)>,
    pub meta: Props,
}

/// Model of [`Item`].
#[verifier::ext_equal]
pub struct ItemModel {
    pub id: Seq<char>,
    pub kind: Seq<char>,
    pub title: Seq<char>,
    pub text: Seq<char>,
    pub reference: Seq<char>,
    pub updated: u64,
    pub tags: Seq<Seq<char>>,
    pub links: Seq<LinkView>,
    pub meta: PropsView,
}

impl DeepView for Item {
    type V = ItemModel;

    open spec fn deep_view(&self) -> ItemModel {
        ItemModel {
            id: self.id@,
            kind: self.kind@,
            title: self.title@,
            text: self.text@,
            reference: self.reference@,
            updated: self.updated,
            tags: self.tags.deep_view(),
            links: self.links.deep_view(),
            meta: self.meta@,
        }
    }
}

// ----- one item -----

/// `a`, then what of `b` is not there yet, in order.
pub open spec fn merged<A>(a: Seq<A>, b: Seq<A>) -> Seq<A>
    decreases b.len(),
{
    if b.len() == 0 {
        a
    } else {
        let m = merged(a, b.drop_last());
        if m.contains(b.last()) {
            m
        } else {
            m.push(b.last())
        }
    }
}

/// The format's own title, if it has one that is not blank; the file name otherwise.
pub open spec fn title_of(path: Seq<char>, title: Option<Seq<char>>) -> Seq<char> {
    if title is Some && trimmed(title->0).len() > 0 {
        trimmed(title->0)
    } else {
        base_name(path)
    }
}

/// The directory that a path lies in.
pub open spec fn dir_of(path: Seq<char>) -> Seq<char> {
    if last_slash(path) <= 0 {
        root()
    } else {
        path.take(last_slash(path))
    }
}

/// The meta of an item: what was set on the file, then what was extracted, and above both what the
/// drive itself knows.
pub open spec fn meta_of(f: FactsView, e: ExtractedView) -> PropsView {
    let known = e.props.union_prefer_right(f.props)
        .insert("path"@, f.path)
        .insert("dir"@, dir_of(f.path))
        .insert("size"@, decimal(f.size as nat))
        .insert("locator"@, f.locator);
    if !e.unextracted {
        known
    } else if f.kind is None {
        known.insert("unextracted"@, "true"@)
    } else {
        known.insert("unextracted"@, "true"@).insert("unextracted_kind"@, f.kind->0)
    }
}

/// The item of a node.
pub open spec fn item_of(f: FactsView, e: ExtractedView) -> ItemModel {
    ItemModel {
        id: f.node_id,
        kind: if f.kind is Some { f.kind->0 } else { "file"@ },
        title: title_of(f.path, e.title),
        text: e.text,
        reference: f.path,
        updated: f.mtime_ms / 1000,
        tags: merged(f.tags, e.tags),
        links: merged(f.links, e.links),
        meta: meta_of(f, e),
    }
}

fn copy_links(v: &Vec<(String, String)>) -> (r: Vec<(String, String)>)
    ensures
        r.deep_view() == v.deep_view(),
{
    let n: usize = v.len();
    let ghost all = v.deep_view();
    let mut out: Vec<(String, String)> = Vec::new();
    let mut i: usize = 0;
    while i < n
        invariant
            i <= n,
            n == v@.len(),
            all == v.deep_view(),
            out.deep_view() == all.take(i as int),
        decreases n - i,
    {
        let ghost was = out.deep_view();
        out.push((v[i].0.clone(), v[i].1.clone()));
        assert(out.deep_view() =~= was.push(all[i as int]));
        i = i + 1;
    }
    assert(all.take(n as int) =~= all);
    out
}

fn has_text(v: &Vec<String>, s: &str) -> (r: bool)
    ensures
        r == v.deep_view().contains(s@),
{
    let n: usize = v.len();
    let ghost all = v.deep_view();
    let mut i: usize = 0;
    while i < n
        invariant
            i <= n,
            n == v@.len(),
            all == v.deep_view(),
            forall|k: int| 0 <= k < i ==> all[k] != s@,
        decreases n - i,
    {
        assert(all[i as int] == v@[i as int]@);
        if same(v[i].as_str(), s) {
            return true;
        }
        i = i + 1;
    }
    false
}

fn has_link(v: &Vec<(String, String)>, rel: &str, target: &str) -> (r: bool)
    ensures
        r == v.deep_view().contains((rel@, target@)),
{
    let n: usize = v.len();
    let ghost all = v.deep_view();
    let mut i: usize = 0;
    while i < n
        invariant
            i <= n,
            n == v@.len(),
            all == v.deep_view(),
            forall|k: int| 0 <= k < i ==> all[k] != (rel@, target@),
        decreases n - i,
    {
        assert(all[i as int] == (v@[i as int].0@, v@[i as int].1@));
        if same(v[i].0.as_str(), rel) && same(v[i].1.as_str(), target) {
            return true;
        }
        i = i + 1;
    }
    false
}

fn merge_tags(have: &Vec<String>, more: &Vec<String>) -> (r: Vec<String>)
    ensures
        r.deep_view() == merged(have.deep_view(), more.deep_view()),
{
    let mut out = copy_strings(have);
    let n: usize = more.len();
    let ghost a = have.deep_view();
    let ghost all = more.deep_view();
    let mut i: usize = 0;
    assert(out.deep_view() =~= a);
    assert(all.take(0).len() == 0);
    while i < n
        invariant
            i <= n,
            n == more@.len(),
            all == more.deep_view(),
            out.deep_view() == merged(a, all.take(i as int)),
        decreases n - i,
    {
        let ghost was = out.deep_view();
        assert(all.take(i + 1).drop_last() =~= all.take(i as int));
        assert(all.take(i + 1).last() == more@[i as int]@);
        if !has_text(&out, more[i].as_str()) {
            out.push(more[i].clone());
            assert(out.deep_view() =~= was.push(more@[i as int]@));
        }
        i = i + 1;
    }
    assert(all.take(n as int) =~= all);
    out
}

fn merge_links(have: &Vec<(String, String)>, more: &Vec<(String, String)>) -> (r: Vec<
    (String, String),
>)
    ensures
        r.deep_view() == merged(have.deep_view(), more.deep_view()),
{
    let mut out = copy_links(have);
    let n: usize = more.len();
    let ghost a = have.deep_view();
    let ghost all = more.deep_view();
    let mut i: usize = 0;
    assert(all.take(0).len() == 0);
    while i < n
        invariant
            i <= n,
            n == more@.len(),
            all == more.deep_view(),
            out.deep_view() == merged(a, all.take(i as int)),
        decreases n - i,
    {
        let ghost was = out.deep_view();
        let link = &more[i];
        assert(all.take(i + 1).drop_last() =~= all.take(i as int));
        assert(all.take(i + 1).last() == (link.0@, link.1@));
        if !has_link(&out, link.0.as_str(), link.1.as_str()) {
            out.push((link.0.clone(), link.1.clone()));
            assert(out.deep_view() =~= was.push((link.0@, link.1@)));
        }
        i = i + 1;
    }
    assert(all.take(n as int) =~= all);
    out
}

fn merge_props(have: &Props, more: &Props) -> (r: Props)
    ensures
        r@ == more@.union_prefer_right(have@),
{
    let mut out = have.clone();
    let entries = more.entries();
    let ghost all = entries.deep_view();
    let n: usize = entries.len();
    let mut i: usize = 0;
    while i < n
        invariant
            i <= n,
            n == entries@.len(),
            all == entries.deep_view(),
            crate::props::ascending(all),
            more@ == crate::props::map_of(all),
            forall|k: Seq<char>| #[trigger]
                out@.contains_key(k) <==> have@.contains_key(k) || exists|j: int|
                    j < i && crate::props::entry_at(all, k, j),
            forall|k: Seq<char>| #[trigger]
                out@.contains_key(k) ==> out@[k] == (if have@.contains_key(k) {
                    have@[k]
                } else {
                    more@[k]
                }),
        decreases n - i,
    {
        let key = &entries[i].0;
        let ghost q = key@;
        assert(all[i as int] == (entries@[i as int].0@, entries@[i as int].1@));
        assert(crate::props::entry_at(all, q, i as int));
        proof {
            crate::props::lemma_entry(all, i as int);
        }
        let ghost was = out@;
        let there = match out.get(key.as_str()) {
            Some(_) => true,
            None => false,
        };
        if !there {
            out.insert(key.clone(), entries[i].1.clone());
        }
        proof {
            assert forall|k: Seq<char>| #[trigger]
                out@.contains_key(k) <==> have@.contains_key(k) || exists|j: int|
                    j < i + 1 && crate::props::entry_at(all, k, j) by {
                if k != q {
                    assert(out@.contains_key(k) == was.contains_key(k));
                    if exists|j: int| j < i + 1 && crate::props::entry_at(all, k, j) {
                        let j = choose|j: int| j < i + 1 && crate::props::entry_at(all, k, j);
                        assert(j != i);
                    }
                }
            }
        }
        i = i + 1;
    }
    assert(out@ =~= more@.union_prefer_right(have@));
    out
}

fn dir_path(path: &str) -> (r: String)
    ensures
        r@ == dir_of(path@),
{
    let cs = chars_of(path);
    proof {
        lemma_last_slash(path@);
        reveal_strlit("/");
        assert("/"@ =~= root());
    }
    match rfind_slash(&cs) {
        None => "/".to_owned(),
        Some(i) => if i == 0 {
            "/".to_owned()
        } else {
            let dir = path.substring_char(0, i);
            assert(dir@ =~= path@.take(i as int));
            dir.to_owned()
        },
    }
}

fn shown_title(path: &str, title: &Option<String>) -> (r: String)
    ensures
        r@ == title_of(path@, title.deep_view()),
{
    match title {
        Some(t) => {
            let t = strip_edges(Edge::Space, t.as_str());
            if t.as_str().unicode_len() > 0 {
                t
            } else {
                name_of(path)
            }
        },
        None => name_of(path),
    }
}

/// Build one corpus item from what the drive knows plus what the kind app extracted.
pub fn item_from(facts: &NodeFacts, extracted: &Extracted) -> (r: Item)
    ensures
        r.deep_view() == item_of(facts.deep_view(), extracted.deep_view()),
{
    // The format's own title wins, because it is what a human named the document; the filename is a
    // fallback for formats that have no title of their own.
    let title = shown_title(facts.path.as_str(), &extracted.title);

    // Drive links first, then the format's internal links. Both are real edges: one was asserted
    // about the file, one was written inside it, and an index wants both.
    let links = merge_links(&facts.links, &extracted.links);
    let tags = merge_tags(&facts.tags, &extracted.tags);

    // Extracted facts do not overwrite what an operator explicitly set on the file: a human's
    // assertion outranks a parser's inference.
    let mut meta = merge_props(&facts.props, &extracted.props);
    meta.insert("path".to_owned(), facts.path.clone());
    meta.insert("dir".to_owned(), dir_path(facts.path.as_str()));
    meta.insert("size".to_owned(), decimal_of(facts.size));
    meta.insert("locator".to_owned(), facts.locator.clone());
    if extracted.unextracted {
        // Visible, so an operator can see why something is not searchable and fix it by installing
        // an app — rather than wondering why a file they can see never matches anything.
        meta.insert("unextracted".to_owned(), "true".to_owned());
        if let Some(k) = &facts.kind {
            meta.insert("unextracted_kind".to_owned(), k.clone());
        }
    }
    let kind = match &facts.kind {
        Some(k) => k.clone(),
        None => "file".to_owned(),
    };
    Item {
        id: facts.node_id.clone(),
        kind,
        title,
        text: extracted.text.clone(),
        reference: facts.path.clone(),
        updated: facts.mtime_ms / 1000,
        tags,
        links,
        meta,
    }
}

/// The names in the meta of an item that the drive itself fills in.
pub open spec fn reserved(key: Seq<char>) -> bool {
    key == "path"@ || key == "dir"@ || key == "size"@ || key == "locator"@ || key == "unextracted"@
        || key == "unextracted_kind"@
}

/// A node that was renamed or moved is the same item: only what is shown of its path changes.
pub proof fn law_item_survives_a_rename(f: FactsView, path: Seq<char>, e: ExtractedView)
    ensures
        item_of((FactsView { path, ..f }), e).id == item_of(f, e).id,
        item_of((FactsView { path, ..f }), e) == (ItemModel {
            title: title_of(path, e.title),
            reference: path,
            meta: meta_of((FactsView { path, ..f }), e),
            ..item_of(f, e)
        }),
{
}

/// What an operator set on a file outranks what was extracted from its bytes, and what was
/// extracted is kept where nothing was set.
pub proof fn law_operator_outranks_parser(f: FactsView, e: ExtractedView, key: Seq<char>)
    requires
        !reserved(key),
    ensures
        f.props.contains_key(key) ==> item_of(f, e).meta.contains_key(key) && item_of(f, e).meta[key]
            == f.props[key],
        !f.props.contains_key(key) && e.props.contains_key(key) ==> item_of(
            f,
            e,
        ).meta.contains_key(key) && item_of(f, e).meta[key] == e.props[key],
        !f.props.contains_key(key) && !e.props.contains_key(key) ==> !item_of(
            f,
            e,
        ).meta.contains_key(key),
{
}

/// A node that nothing could read is still indexed under its id, by its name, its path, its tags and
/// its links, and its meta says why there is no more.
pub proof fn law_unreadable_node_is_indexed(f: FactsView)
    ensures
        ({
            let item = item_of(f, nothing_extracted(true));
            &&& item.id == f.node_id
            &&& item.title == base_name(f.path)
            &&& item.text.len() == 0
            &&& item.tags == f.tags
            &&& item.links == f.links
            &&& item.meta.contains_key("path"@)
            &&& item.meta["path"@] == f.path
            &&& item.meta.contains_key("unextracted"@)
            &&& item.meta["unextracted"@] == "true"@
            &&& f.kind is Some ==> item.meta.contains_key("unextracted_kind"@)
                && item.meta["unextracted_kind"@] == f.kind->0
        }),
{
    lemma_meta_names();
}

proof fn lemma_meta_names()
    ensures
        "path"@ != "dir"@,
        "path"@ != "size"@,
        "path"@ != "locator"@,
        "path"@ != "unextracted"@,
        "path"@ != "unextracted_kind"@,
        "dir"@ != "size"@,
        "dir"@ != "locator"@,
        "dir"@ != "unextracted"@,
        "dir"@ != "unextracted_kind"@,
        "size"@ != "locator"@,
        "size"@ != "unextracted"@,
        "size"@ != "unextracted_kind"@,
        "locator"@ != "unextracted"@,
        "locator"@ != "unextracted_kind"@,
        "unextracted"@ != "unextracted_kind"@,
{
    reveal_strlit("path");
    reveal_strlit("dir");
    reveal_strlit("size");
    reveal_strlit("locator");
    reveal_strlit("unextracted");
    reveal_strlit("unextracted_kind");
    assert("path"@[0] == 'p' && "dir"@[0] == 'd' && "size"@[0] == 's' && "locator"@[0] == 'l');
    assert("unextracted"@[0] == 'u' && "unextracted_kind"@[0] == 'u');
    assert("unextracted"@.len() < "unextracted_kind"@.len());
}

/// What the drive knows of a node is in its item's meta, whatever was set or extracted.
pub proof fn law_drive_facts_are_in_the_meta(f: FactsView, e: ExtractedView)
    ensures
        ({
            let meta = item_of(f, e).meta;
            &&& meta.contains_key("path"@) && meta["path"@] == f.path
            &&& meta.contains_key("dir"@) && meta["dir"@] == dir_of(f.path)
            &&& meta.contains_key("size"@) && meta["size"@] == decimal(f.size as nat)
            &&& meta.contains_key("locator"@) && meta["locator"@] == f.locator
        }),
{
    lemma_meta_names();
}

/// Merging keeps the first sequence in front, holds exactly what either holds, and doubles nothing
/// that was not doubled before.
pub proof fn law_merging_loses_and_doubles_nothing<A>(a: Seq<A>, b: Seq<A>, x: A)
    ensures
        merged(a, b).len() >= a.len(),
        merged(a, b).take(a.len() as int) == a,
        merged(a, b).contains(x) <==> a.contains(x) || b.contains(x),
        a.no_duplicates() ==> merged(a, b).no_duplicates(),
    decreases b.len(),
{
    if b.len() == 0 {
        assert(a.take(a.len() as int) =~= a);
    } else {
        let init = b.drop_last();
        law_merging_loses_and_doubles_nothing(a, init, x);
        law_merging_loses_and_doubles_nothing(a, init, b.last());
        let m = merged(a, init);
        assert(b =~= init.push(b.last()));
        assert(b.contains(x) <==> init.contains(x) || x == b.last()) by {
            if b.contains(x) {
                let k = choose|k: int| 0 <= k < b.len() && b[k] == x;
                if k < init.len() {
                    assert(init[k] == x);
                }
            }
            if init.contains(x) {
                let k = choose|k: int| 0 <= k < init.len() && init[k] == x;
                assert(b[k] == x);
            }
            assert(b[b.len() - 1] == b.last());
        }
        if !m.contains(b.last()) {
            let now = m.push(b.last());
            assert(now.take(a.len() as int) =~= m.take(a.len() as int));
            assert(now.contains(x) <==> m.contains(x) || x == b.last()) by {
                if m.contains(x) {
                    let k = choose|k: int| 0 <= k < m.len() && m[k] == x;
                    assert(now[k] == x);
                }
                assert(now[m.len() as int] == b.last());
            }
        }
    }
}

// ----- what changed -----

/// What changed at or after the second `since`; everything for 0.
pub open spec fn since_of(facts: Seq<FactsView>, since: u64) -> Seq<FactsView> {
    if since == 0 {
        facts
    } else {
        facts.filter(|f: FactsView| f.mtime_ms / 1000 >= since)
    }
}

/// Keep only what changed at or after `since`. `since == 0` keeps everything (a first crawl).
pub fn changed_since(facts: Vec<NodeFacts>, since: u64) -> (r: Vec<NodeFacts>)
    ensures
        r.deep_view() == since_of(facts.deep_view(), since),
{
    if since == 0 {
        return facts;
    }
    let ghost all = facts.deep_view();
    let ghost p = |f: FactsView| f.mtime_ms / 1000 >= since;
    let mut out: Vec<NodeFacts> = Vec::new();
    reveal(Seq::filter);
    assert(out.deep_view() =~= all.take(0).filter(p));
    for f in it: facts
        invariant
            it.seq().len() == all.len(),
            forall|k: int| 0 <= k < all.len() ==> (#[trigger] it.seq()[k]).deep_view() == all[k],
            p == (|f: FactsView| f.mtime_ms / 1000 >= since),
            out.deep_view() == all.take(it.index()).filter(p),
    {
        reveal(Seq::filter);
        let ghost n = it.index();
        let ghost was = out.deep_view();
        assert(f.deep_view() == all[n]);
        assert(all.take(n + 1).drop_last() =~= all.take(n));
        if f.mtime_ms / 1000 >= since {
            out.push(f);
            assert(out.deep_view() =~= was.push(all[n]));
        }
    }
    assert(all.take(all.len() as int) =~= all);
    out
}

/// A crawl that resumes at the newest second it has seen misses nothing that changed in that second
/// or later, whatever it has seen of it before, and takes up nothing older.
pub proof fn law_resumed_crawl_misses_nothing(facts: Seq<FactsView>, since: u64, f: FactsView)
    requires
        since > 0,
    ensures
        since_of(facts, since).contains(f) <==> facts.contains(f) && f.mtime_ms / 1000 >= since,
        since_of(facts, 0).contains(f) <==> facts.contains(f),
{
    let p = |g: FactsView| g.mtime_ms / 1000 >= since;
    if facts.contains(f) && p(f) {
        let i = choose|i: int| 0 <= i < facts.len() && facts[i] == f;
        facts.lemma_filter_contains(p, i);
    }
    if facts.filter(p).contains(f) {
        let i = choose|i: int| 0 <= i < facts.filter(p).len() && facts.filter(p)[i] == f;
        facts.lemma_filter_pred(p, i);
        facts.lemma_filter_contains_rev(p, f);
    }
}

// ----- what an item holds -----

/// Merging takes up one thing after another: what is there already adds nothing, and what is not is put
/// behind.
pub proof fn law_merging_goes_one_by_one<A>(a: Seq<A>, b: Seq<A>, c: Seq<A>, x: A)
    ensures
        merged(a, Seq::empty()) == a,
        merged(a, seq![x]) == (if a.contains(x) { a } else { a.push(x) }),
        merged(a, b + c) == merged(merged(a, b), c),
    decreases c.len(),
{
    assert(seq![x].drop_last() =~= Seq::<A>::empty());
    assert(merged(a, seq![x].drop_last()) == a);
    if c.len() == 0 {
        assert(b + c =~= b);
    } else {
        assert((b + c).drop_last() =~= b + c.drop_last());
        assert((b + c).last() == c.last());
        law_merging_goes_one_by_one(a, b, c.drop_last(), x);
    }
}

/// The directory of a path is the one that its name is in; a path without a directory of its own lies in
/// the root.
pub proof fn law_directory_of_a_path(dir: Seq<char>, name: Seq<char>, path: Seq<char>)
    requires
        is_in(dir, name, path),
    ensures
        dir_of(path) == dir,
        dir_of(name) == seq!['/'],
        base_name(path) == name,
{
    let stem = if dir == seq!['/'] { Seq::<char>::empty() } else { dir };
    law_base_name_follows_the_last_slash(stem, name);
    lemma_last_slash(path);
    lemma_last_slash(name);
    let i = stem.len() as int;
    assert(path[i] == '/');
    assert forall|k: int| i < k < path.len() implies path[k] != '/' by {
        assert(path[k] == name[k - i - 1]);
    }
    assert(path.len() == i + 1 + name.len());
    assert(last_slash(path) == i) by {
        if last_slash(path) < i {
            assert(path[i] != '/');
        }
    }
    assert(path.take(i) =~= stem);
    assert(last_slash(name) == -1) by {
        if last_slash(name) >= 0 {
            assert(name[last_slash(name)] == '/');
        }
    }
}

/// An item is known by its node's id and shown under its path. It is of the kind that was set, or a
/// file. It has the title that the format gave, without white space around it, unless that is blank:
/// then it has the name of the file. Its text is what was extracted, and it was updated in the second
/// that the node changed in. It has the tags and links of the drive and, behind them, those of the
/// format that are new.
pub proof fn law_item_holds_what_is_known(f: FactsView, e: ExtractedView, tag: Seq<char>, link: LinkView)
    ensures
        ({
            let i = item_of(f, e);
            &&& i.id == f.node_id
            &&& i.reference == f.path
            &&& f.kind matches Some(k) ==> i.kind == k
            &&& f.kind is None ==> i.kind == "file"@
            &&& i.text == e.text
            &&& 1000 * i.updated <= f.mtime_ms < 1000 * i.updated + 1000
            &&& i.title == (if e.title is Some && trimmed(e.title->0).len() > 0 {
                trimmed(e.title->0)
            } else {
                base_name(f.path)
            })
            &&& i.tags.len() >= f.tags.len() && i.tags.take(f.tags.len() as int) == f.tags
            &&& i.tags.contains(tag) <==> f.tags.contains(tag) || e.tags.contains(tag)
            &&& f.tags.no_duplicates() ==> i.tags.no_duplicates()
            &&& i.links.len() >= f.links.len() && i.links.take(f.links.len() as int) == f.links
            &&& i.links.contains(link) <==> f.links.contains(link) || e.links.contains(link)
            &&& f.links.no_duplicates() ==> i.links.no_duplicates()
            &&& i.tags == merged(f.tags, e.tags)
            &&& i.links == merged(f.links, e.links)
        }),
{
    law_merging_loses_and_doubles_nothing(f.tags, e.tags, tag);
    law_merging_loses_and_doubles_nothing(f.links, e.links, link);
}

/// The meta of an item says whether its bytes could be read: if not, that they could not, and which kind
/// of app it would have taken. Otherwise these names are like any other.
pub proof fn law_meta_says_what_could_not_be_read(f: FactsView, e: ExtractedView)
    ensures
        ({
            let meta = item_of(f, e).meta;
            let kind = "unextracted_kind"@;
            let flag = "unextracted"@;
            let set = e.props.union_prefer_right(f.props);
            &&& e.unextracted ==> meta.contains_key(flag) && meta[flag] == "true"@
            &&& e.unextracted && f.kind is Some ==> meta.contains_key(kind) && meta[kind]
                == f.kind->0
            &&& !e.unextracted ==> meta.contains_key(flag) == set.contains_key(flag) && (
            set.contains_key(flag) ==> meta[flag] == set[flag])
            &&& !(e.unextracted && f.kind is Some) ==> meta.contains_key(kind) == set.contains_key(
                kind,
            ) && (set.contains_key(kind) ==> meta[kind] == set[kind])
        }),
{
    lemma_meta_names();
}

/// Nothing extracted is no title, no text, no links, props or tags, and the flag.
pub proof fn law_nothing_extracted_is_empty(flag: bool)
    ensures
        ({
            let e = nothing_extracted(flag);
            e.title is None && e.text.len() == 0 && e.links.len() == 0 && e.tags.len() == 0
                && e.props == Map::<Seq<char>, Seq<char>>::empty() && e.unextracted == flag
        }),
{
}

/// A resumed crawl goes through what is known one by one: it takes up what changed in the second it
/// resumes at or later, in its place, and nothing else; a first crawl takes up everything.
pub proof fn law_crawl_goes_one_by_one(
    a: Seq<FactsView>,
    b: Seq<FactsView>,
    f: FactsView,
    since: u64,
)
    ensures
        since_of(a + b, since) == since_of(a, since) + since_of(b, since),
        since_of(seq![f], since) == (if f.mtime_ms >= 1000 * since {
            seq![f]
        } else {
            Seq::<FactsView>::empty()
        }),
{
    let p = |g: FactsView| g.mtime_ms / 1000 >= since;
    if since != 0 {
        lemma_filter_add(a, b, p);
        reveal(Seq::filter);
        let one = seq![f];
        assert(one.drop_last() =~= Seq::<FactsView>::empty());
        assert(one.drop_last().filter(p) =~= Seq::<FactsView>::empty());
        assert(one.filter(p) =~= if p(f) { seq![f] } else { Seq::<FactsView>::empty() });
    }
}

proof fn lemma_filter_add<A>(a: Seq<A>, b: Seq<A>, p: spec_fn(A) -> bool)
    ensures
        (a + b).filter(p) == a.filter(p) + b.filter(p),
    decreases b.len(),
{
    reveal(Seq::filter);
    if b.len() == 0 {
        assert(a + b =~= a);
        assert(a.filter(p) + b.filter(p) =~= a.filter(p));
    } else {
        assert((a + b).drop_last() =~= a + b.drop_last());
        assert((a + b).last() == b.last());
        lemma_filter_add(a, b.drop_last(), p);
        assert((a + b).filter(p) =~= a.filter(p) + b.filter(p));
    }
}

} // verus!
