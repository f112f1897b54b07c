//! What a client sees of the nodes of a drive: entries, listings in pages, and the chunks to fetch
//! for a read.
//!
//! The tree and the content map of a drive live in the host. They come to this module as plain
//! facts about a node ([`Found`], [`DirItem`]) or an object ([`Manifest`]).
use vstd::prelude::*;
use vstd::string::*;

use crate::path::{
    entry_path, joined, law_child_is_in_its_directory, norm, norm_path, root, shown_path,
};
use crate::text::{
    base_name, before, cat, copy_opt, decimal, decimal_of, law_decimal_is_the_numeral, lemma_last_slash,
    lemma_lex_total, lex_lt, name_of, same,
};
use crate::wire::{ChunkRef, ChunkView, Entry, EntryKind, EntryView, PlanView, ReadPlan};

verus! {

/// What the content map of a drive holds for a file.
#[derive(Debug, Clone, PartialEq, Eq)]
pub struct Content {
    pub cid: String,
    pub size: u64,
    pub mode: u32,
    pub mtime_ms: u64,
    pub doc_id: Option<String>,
}

/// Model of [`Content`].
#[verifier::ext_equal]
pub struct ContentView {
    pub cid: Seq<char>,
    pub size: u64,
    pub mode: u32,
    pub mtime_ms: u64,
    pub doc_id: Option<Seq<char>>,
}

impl DeepView for Content {
    type V = ContentView;

    open spec fn deep_view(&self) -> ContentView {
        ContentView {
            cid: self.cid@,
            size: self.size,
            mode: self.mode,
            mtime_ms: self.mtime_ms,
            doc_id: self.doc_id.deep_view(),
        }
    }
}

/// What the tree of a drive holds at a path.
#[derive(Debug, Clone, PartialEq, Eq)]
pub struct Found {
    pub node_id: String,
    /// Whether the node is a directory; nothing if the tree has no edge for it.
    pub is_dir: Option<bool>,
    pub content: Option<Content>,
}

/// Model of [`Found`].
#[verifier::ext_equal]
pub struct FoundView {
    pub node_id: Seq<char>,
    pub is_dir: Option<bool>,
    pub content: Option<ContentView>,
}

impl DeepView for Found {
    type V = FoundView;

    open spec fn deep_view(&self) -> FoundView {
        FoundView {
            node_id: self.node_id@,
            is_dir: self.is_dir,
            content: self.content.deep_view(),
        }
    }
}

/// One name in a directory.
#[derive(Debug, Clone, PartialEq, Eq)]
pub struct DirItem {
    pub name: String,
    pub node_id: String,
    pub is_dir: bool,
    /// The content that the listing shows.
    pub content: Option<Content>,
    /// What the content map holds for the node.
    pub stored: Option<Content>,
}

/// Model of [`DirItem`].
#[verifier::ext_equal]
pub struct ItemView {
    pub name: Seq<char>,
    pub node_id: Seq<char>,
    pub is_dir: bool,
    pub content: Option<ContentView>,
    pub stored: Option<ContentView>,
}

impl DeepView for DirItem {
    type V = ItemView;

    open spec fn deep_view(&self) -> ItemView {
        ItemView {
            name: self.name@,
            node_id: self.node_id@,
            is_dir: self.is_dir,
            content: self.content.deep_view(),
            stored: self.stored.deep_view(),
        }
    }
}

// ----- entries -----

/// The version key of a node: its content id and time of change; the node id for a directory or
/// an empty file.
pub open spec fn etag(content: Option<ContentView>, node_id: Seq<char>) -> Seq<char> {
    match content {
        Some(c) => c.cid + ":"@ + decimal(c.mtime_ms as nat),
        None => "dir:"@ + node_id,
    }
}

/// The etag for a node = its current content version key (CID + mtime), or the node id for dirs /
/// empty files. Cheap optimistic-concurrency token (matches one content-map version).
pub fn etag_for(content: &Option<Content>, node_id: &str) -> (r: String)
    ensures
        r@ == etag(content.deep_view(), node_id@),
{
    match content {
        Some(c) => cat(c.cid.as_str(), ":").concat(decimal_of(c.mtime_ms).as_str()),
        None => cat("dir:", node_id),
    }
}

/// An entry at `path` for a node.
pub open spec fn entry(
    path: Seq<char>,
    is_dir: bool,
    node_id: Seq<char>,
    content: Option<ContentView>,
    stored: Option<ContentView>,
) -> EntryView {
    EntryView {
        path,
        kind: if is_dir {
            EntryKind::Dir
        } else {
            EntryKind::File
        },
        size: if content is Some { content->0.size } else { 0 },
        mtime_ms: if content is Some { content->0.mtime_ms } else { 0 },
        etag: etag(stored, node_id),
        node_id,
        object_cid: if content is Some { Some(content->0.cid) } else { None },
        doc_id: if content is Some { content->0.doc_id } else { None },
    }
}

fn make_entry(
    path: String,
    is_dir: bool,
    node_id: &String,
    content: &Option<Content>,
    stored: &Option<Content>,
) -> (r: Entry)
    ensures
        r.deep_view() == entry(path@, is_dir, node_id@, content.deep_view(), stored.deep_view()),
{
    let kind = if is_dir {
        EntryKind::Dir
    } else {
        EntryKind::File
    };
    let etag = etag_for(stored, node_id.as_str());
    match content {
        Some(c) => Entry {
            path,
            kind,
            size: c.size,
            mtime_ms: c.mtime_ms,
            etag,
            node_id: node_id.clone(),
            object_cid: Some(c.cid.clone()),
            doc_id: copy_opt(&c.doc_id),
        },
        None => Entry {
            path,
            kind,
            size: 0,
            mtime_ms: 0,
            etag,
            node_id: node_id.clone(),
            object_cid: None,
            doc_id: None,
        },
    }
}

/// The entry of a name in the directory at `parent`.
pub open spec fn listed_entry(parent: Seq<char>, e: ItemView) -> EntryView {
    entry(shown_path(parent, e.name), e.is_dir, e.node_id, e.content, e.stored)
}

/// Build a wire [`Entry`] from a directory item under `parent_path`.
pub fn entry_of(parent_path: &str, e: &DirItem) -> (r: Entry)
    ensures
        r.deep_view() == listed_entry(parent_path@, e.deep_view()),
{
    make_entry(
        entry_path(parent_path, e.name.as_str()),
        e.is_dir,
        &e.node_id,
        &e.content,
        &e.stored,
    )
}

/// The entry at `path`: the root, or what the tree holds there; nothing if it holds nothing.
pub open spec fn stat(path: Seq<char>, root_id: Seq<char>, found: Option<FoundView>) -> Option<
    EntryView,
> {
    if norm(path) == root() {
        Some(entry(root(), true, root_id, None, None))
    } else {
        match found {
            Some(f) => match f.is_dir {
                Some(is_dir) => Some(entry(norm(path), is_dir, f.node_id, f.content, f.content)),
                None => None,
            },
            None => None,
        }
    }
}

/// Stat a path to a wire [`Entry`] (file or dir). Returns `None` if the path doesn't resolve.
/// `found` is what the tree holds at the path; it is not looked at for the root, whose node id is
/// `root_id`.
pub fn stat_entry(path: &str, root_id: &str, found: &Option<Found>) -> (r: Option<Entry>)
    ensures
        r.deep_view() == stat(path@, root_id@, found.deep_view()),
{
    let n = norm_path(path);
    proof {
        reveal_strlit("/");
        assert("/"@ =~= root());
    }
    if same(n.as_str(), "/") {
        let id = root_id.to_owned();
        return Some(make_entry(n, true, &id, &None, &None));
    }
    match found {
        Some(f) => match f.is_dir {
            Some(is_dir) => Some(make_entry(n, is_dir, &f.node_id, &f.content, &f.content)),
            None => None,
        },
        None => None,
    }
}

// ----- listings -----

/// The index of the first item whose name comes after `name`, or the length.
pub open spec fn first_after(items: Seq<ItemView>, name: Seq<char>) -> int
    decreases items.len(),
{
    if items.len() == 0 || lex_lt(name, items[0].name) {
        0
    } else {
        1 + first_after(items.drop_first(), name)
    }
}

/// Where a page that follows `cursor` starts.
pub open spec fn page_start(items: Seq<ItemView>, cursor: Option<Seq<char>>) -> int {
    match cursor {
        Some(c) => first_after(items, c),
        None => 0,
    }
}

/// How many items a page of at most `limit` (at least one) holds, from `start`.
pub open spec fn page_len(items: Seq<ItemView>, start: int, limit: u32) -> int {
    let n = if limit < 1 {
        1
    } else {
        limit as int
    };
    if items.len() - start < n {
        items.len() - start
    } else {
        n
    }
}

/// The page of the directory at `parent` that follows `cursor`.
pub open spec fn listing_page(
    items: Seq<ItemView>,
    parent: Seq<char>,
    cursor: Option<Seq<char>>,
    limit: u32,
) -> Seq<EntryView> {
    let start = page_start(items, cursor);
    Seq::new(
        page_len(items, start, limit) as nat,
        |i: int| listed_entry(parent, items[start + i]),
    )
}

/// The cursor to go on from: the last name of the page, if there are more.
pub open spec fn listing_cursor(
    items: Seq<ItemView>,
    parent: Seq<char>,
    cursor: Option<Seq<char>>,
    limit: u32,
) -> Option<Seq<char>> {
    let page = listing_page(items, parent, cursor, limit);
    if page_start(items, cursor) + page.len() < items.len() {
        Some(base_name(page.last().path))
    } else {
        None
    }
}

proof fn lemma_first_after(items: Seq<ItemView>, name: Seq<char>, n: int)
    requires
        0 <= n <= items.len(),
        forall|k: int| 0 <= k < n ==> !lex_lt(name, (#[trigger] items[k]).name),
        n == items.len() || lex_lt(name, items[n].name),
    ensures
        first_after(items, name) == n,
    decreases n,
{
    if n > 0 {
        let rest = items.drop_first();
        assert forall|k: int| 0 <= k < n - 1 implies !lex_lt(name, (#[trigger] rest[k]).name) by {
            assert(rest[k] == items[k + 1]);
        }
        lemma_first_after(rest, name, n - 1);
    }
}

fn start_after(items: &Vec<DirItem>, cursor: &Option<String>) -> (r: usize)
    ensures
        r as int == page_start(items.deep_view(), cursor.deep_view()),
        r <= items@.len(),
{
    let n: usize = items.len();
    match cursor {
        None => 0,
        Some(c) => {
            let ghost all = items.deep_view();
            let mut i: usize = 0;
            while i < n
                invariant
                    i <= n,
                    n == items@.len(),
                    all == items.deep_view(),
                    cursor.deep_view() == Some(c@),
                    forall|k: int| 0 <= k < i ==> !lex_lt(c@, (#[trigger] all[k]).name),
                decreases n - i,
            {
                assert(all[i as int] == items@[i as int].deep_view());
                if before(c.as_str(), items[i].name.as_str()) {
                    proof {
                        lemma_first_after(all, c@, i as int);
                    }
                    return i;
                }
                i = i + 1;
            }
            proof {
                lemma_first_after(all, c@, n as int);
            }
            n
        },
    }
}

/// One page of a directory: the entries of the items after `cursor`, at most `limit`, and the
/// cursor to go on from if there are more. The cursor is the last name of the page.
pub fn list_page(items: &Vec<DirItem>, parent: &str, cursor: &Option<String>, limit: u32) -> (r: (
    Vec<Entry>,
    Option<String>,
))
    ensures
        r.0.deep_view() == listing_page(items.deep_view(), parent@, cursor.deep_view(), limit),
        r.1.deep_view() == listing_cursor(items.deep_view(), parent@, cursor.deep_view(), limit),
{
    let ghost all = items.deep_view();
    let n: usize = items.len();
    let limit: usize = if limit < 1 {
        1
    } else {
        limit as usize
    };
    let start: usize = start_after(items, cursor);
    let end: usize = if n - start < limit {
        n
    } else {
        start + limit
    };
    let ghost whole = Seq::new(
        (end - start) as nat,
        |i: int| listed_entry(parent@, all[start + i]),
    );
    let mut page: Vec<Entry> = Vec::new();
    let mut i: usize = start;
    while i < end
        invariant
            start <= i <= end,
            end <= n,
            n == items@.len(),
            all == items.deep_view(),
            whole == Seq::new(
                (end - start) as nat,
                |i: int| listed_entry(parent@, all[start + i]),
            ),
            page.deep_view() == whole.take(i - start),
        decreases end - i,
    {
        let ghost was = page.deep_view();
        page.push(entry_of(parent, &items[i]));
        assert(all[i as int] == items@[i as int].deep_view());
        assert(page.deep_view() =~= was.push(whole[i - start]));
        assert(whole.take(i - start + 1) =~= whole.take(i - start).push(whole[i - start]));
        i = i + 1;
    }
    assert(whole.take(end - start) =~= whole);
    let next = if end < n {
        let last = &page[end - start - 1];
        assert(page.deep_view()[end - start - 1] == last.deep_view());
        Some(name_of(last.path.as_str()))
    } else {
        None
    };
    (page, next)
}

/// Whether names come in strictly ascending order, each of them one path component.
pub open spec fn in_order(items: Seq<ItemView>) -> bool {
    &&& forall|i: int, j: int|
        0 <= i < j < items.len() ==> lex_lt((#[trigger] items[i]).name, (#[trigger] items[j]).name)
    &&& forall|i: int, k: int|
        0 <= i < items.len() && 0 <= k < items[i].name.len() ==> #[trigger] items[i].name[k] != '/'
}

proof fn lemma_base_of_shown(parent: Seq<char>, name: Seq<char>)
    requires
        forall|k: int| 0 <= k < name.len() ==> name[k] != '/',
    ensures
        base_name(shown_path(parent, name)) == name,
{
    let p = shown_path(parent, name);
    let i = p.len() - name.len() - 1;
    lemma_last_slash(p);
    assert(p[i] == '/');
    assert forall|k: int| i < k < p.len() implies p[k] != '/' by {
        assert(p[k] == name[k - i - 1]);
    }
    assert(p.skip(i + 1) =~= name);
}

/// A page that follows the cursor of a page starts where that page ended: going through a
/// directory page by page gives every item once, in order.
pub proof fn law_listing_resumes(
    items: Seq<ItemView>,
    parent: Seq<char>,
    cursor: Option<Seq<char>>,
    limit: u32,
)
    requires
        in_order(items),
    ensures
        0 <= page_start(items, cursor) <= items.len(),
        listing_cursor(items, parent, cursor, limit) is None <==> page_start(items, cursor)
            + listing_page(items, parent, cursor, limit).len() == items.len(),
        listing_cursor(items, parent, cursor, limit) is Some ==> {
            &&& listing_page(items, parent, cursor, limit).len() > 0
            &&& page_start(items, listing_cursor(items, parent, cursor, limit)) == page_start(
                items,
                cursor,
            ) + listing_page(items, parent, cursor, limit).len()
        },
{
    if cursor is Some {
        lemma_first_after_bounds(items, cursor->0);
    }
    let start = page_start(items, cursor);
    let page = listing_page(items, parent, cursor, limit);
    if listing_cursor(items, parent, cursor, limit) is Some {
        let last = start + page.len() - 1;
        let name = items[last].name;
        assert(page.last() == listed_entry(parent, items[last]));
        assert forall|k: int| 0 <= k < name.len() implies name[k] != '/' by {
            assert(items[last].name[k] != '/');
        }
        lemma_base_of_shown(parent, name);
        assert forall|k: int| 0 <= k < last + 1 implies !lex_lt(name, (#[trigger] items[k]).name) by {
            lemma_lex_total(name, items[k].name);
            if k < last {
                assert(lex_lt(items[k].name, items[last].name));
            }
        }
        assert(lex_lt(items[last].name, items[last + 1].name));
        lemma_first_after(items, name, last + 1);
    }
}

proof fn lemma_first_after_bounds(items: Seq<ItemView>, name: Seq<char>)
    ensures
        0 <= first_after(items, name) <= items.len(),
    decreases items.len(),
{
    if items.len() > 0 {
        lemma_first_after_bounds(items.drop_first(), name);
    }
}

// ----- reads -----

/// What a stored object consists of: chunks of `chunk_size` bytes, the last maybe shorter.
#[derive(Debug, Clone, PartialEq, Eq)]
pub struct Manifest {
    pub total_size: u64,
    pub chunk_size: u64,
    /// The ids of the chunks, in order.
    pub chunks: Vec<String>,
}

/// Model of [`Manifest`].
#[verifier::ext_equal]
pub struct ManifestView {
    pub total_size: u64,
    pub chunk_size: u64,
    pub chunks: Seq<Seq<char>>,
}

impl DeepView for Manifest {
    type V = ManifestView;

    open spec fn deep_view(&self) -> ManifestView {
        ManifestView {
            total_size: self.total_size,
            chunk_size: self.chunk_size,
            chunks: self.chunks.deep_view(),
        }
    }
}

/// The lesser of two numbers.
pub open spec fn least(a: int, b: int) -> int {
    if a <= b {
        a
    } else {
        b
    }
}

/// Where the `i`th chunk of an object lies.
pub open spec fn chunk_at(m: ManifestView, i: int) -> ChunkView {
    let start = least(i * m.chunk_size, m.total_size as int);
    ChunkView {
        cid: m.chunks[i],
        offset: start as u64,
        len: least(m.chunk_size as int, m.total_size - start) as u64,
    }
}

/// All chunks of an object, each where it lies.
pub open spec fn all_chunks(m: ManifestView) -> Seq<ChunkView> {
    Seq::new(m.chunks.len(), |i: int| chunk_at(m, i))
}

/// Where a read of `len` bytes (or all) from `offset` ends.
pub open spec fn read_end(m: ManifestView, offset: u64, len: Option<u64>) -> int {
    match len {
        Some(l) => least(offset + l, m.total_size as int),
        None => m.total_size as int,
    }
}

/// Whether a chunk and the range from `offset` to `end` overlap; an empty range overlaps nothing.
pub open spec fn meets(c: ChunkView, offset: u64, end: int) -> bool {
    offset < end && c.offset + c.len > offset && c.offset < end
}

/// The plan of a read: the chunks, in order, that meet the range.
pub open spec fn plan(object_cid: Seq<char>, m: ManifestView, offset: u64, len: Option<u64>) -> PlanView {
    PlanView {
        object_cid,
        total_size: m.total_size,
        chunk_size: m.chunk_size,
        chunks: all_chunks(m).filter(|c: ChunkView| meets(c, offset, read_end(m, offset, len))),
        encrypted: false,
        key_hint: None,
    }
}

proof fn lemma_next_start(total: int, size: int, i: int)
    requires
        total >= 0,
        size >= 0,
        i >= 0,
    ensures
        0 <= least(i * size, total) <= total,
        least(i * size, total) + least(size, total - least(i * size, total)) == least(
            (i + 1) * size,
            total,
        ),
{
    assert((i + 1) * size == i * size + size) by (nonlinear_arith);
    assert(i * size >= 0) by (nonlinear_arith)
        requires
            i >= 0,
            size >= 0,
    ;
}

/// Compute the [`ReadPlan`] covering `[offset, offset+len)` over a chunked object manifest. Returns
/// only the chunks that intersect the range (ranged read = content-addressed Range); none if the
/// range is empty.
pub fn read_plan(object_cid: &str, manifest: &Manifest, offset: u64, len: Option<u64>) -> (r:
    ReadPlan)
    ensures
        r.deep_view() == plan(object_cid@, manifest.deep_view(), offset, len),
{
    let ghost m = manifest.deep_view();
    let total: u64 = manifest.total_size;
    let end: u64 = match len {
        Some(l) => if offset >= total || l >= total - offset {
            total
        } else {
            offset + l
        },
        None => total,
    };
    let ghost p = |c: ChunkView| meets(c, offset, read_end(m, offset, len));
    let ghost all = all_chunks(m);
    let mut chunks: Vec<ChunkRef> = Vec::new();
    let mut pos: u64 = 0;
    let n: usize = manifest.chunks.len();
    let mut i: usize = 0;
    reveal(Seq::filter);
    assert(chunks.deep_view() =~= all.take(0).filter(p));
    assert(0 * manifest.chunk_size == 0);
    while i < n
        invariant
            i <= n,
            n == manifest.chunks@.len(),
            m == manifest.deep_view(),
            all == all_chunks(m),
            total == manifest.total_size,
            end as int == read_end(m, offset, len),
            p == (|c: ChunkView| meets(c, offset, read_end(m, offset, len))),
            pos as int == least(i * m.chunk_size, total as int),
            chunks.deep_view() == all.take(i as int).filter(p),
        decreases n - i,
    {
        reveal(Seq::filter);
        proof {
            lemma_next_start(total as int, m.chunk_size as int, i as int);
        }
        let remaining: u64 = total - pos;
        let this_len: u64 = if manifest.chunk_size <= remaining {
            manifest.chunk_size
        } else {
            remaining
        };
        let chunk_end: u64 = pos + this_len;
        let ghost was = chunks.deep_view();
        assert(all.take(i + 1).drop_last() =~= all.take(i as int));
        assert(all.take(i + 1).last() == chunk_at(m, i as int));
        if offset < end && chunk_end > offset && pos < end {
            chunks.push(ChunkRef { cid: manifest.chunks[i].clone(), offset: pos, len: this_len });
            assert(chunks.deep_view() =~= was.push(chunk_at(m, i as int)));
        }
        pos = chunk_end;
        i = i + 1;
    }
    assert(all.take(n as int) =~= all);
    ReadPlan {
        object_cid: object_cid.to_owned(),
        total_size: total,
        chunk_size: manifest.chunk_size,
        chunks,
        encrypted: false,
        key_hint: None,
    }
}

/// A read is planned exactly: each chunk of the plan holds a byte of the range, and each chunk of the
/// object that holds a byte of the range is in the plan.
pub proof fn law_read_plan_is_exact(
    object_cid: Seq<char>,
    m: ManifestView,
    offset: u64,
    len: Option<u64>,
)
    ensures
        ({
            let end = read_end(m, offset, len);
            let planned = plan(object_cid, m, offset, len).chunks;
            &&& forall|k: int|
                0 <= k < planned.len() ==> holds_byte_of(#[trigger] planned[k], offset, end)
            &&& forall|i: int, b: int|
                0 <= i < m.chunks.len() && offset <= b < end && #[trigger] holds_byte(
                    chunk_at(m, i),
                    b,
                ) ==> planned.contains(chunk_at(m, i))
        }),
{
    let end = read_end(m, offset, len);
    let p = |c: ChunkView| meets(c, offset, read_end(m, offset, len));
    let all = all_chunks(m);
    let planned = all.filter(p);
    assert forall|k: int| 0 <= k < planned.len() implies holds_byte_of(
        #[trigger] planned[k],
        offset,
        end,
    ) by {
        all.lemma_filter_pred(p, k);
        let c = planned[k];
        all.lemma_filter_contains_rev(p, c);
        let i = choose|i: int| 0 <= i < all.len() && all[i] == c;
        lemma_next_start(m.total_size as int, m.chunk_size as int, i);
        assert(m.chunk_size == 0 ==> i * m.chunk_size == 0);
        let b: int = if c.offset >= offset {
            c.offset as int
        } else {
            offset as int
        };
        assert(holds_byte(c, b));
    }
    assert forall|i: int, b: int|
        0 <= i < m.chunks.len() && offset <= b < end && #[trigger] holds_byte(
            chunk_at(m, i),
            b,
        ) implies planned.contains(chunk_at(m, i)) by {
        assert(all[i] == chunk_at(m, i));
        all.lemma_filter_contains(p, i);
    }
}

/// Whether the byte at `b` of the object lies in a chunk.
pub open spec fn holds_byte(c: ChunkView, b: int) -> bool {
    c.offset <= b < c.offset + c.len
}

/// Whether a byte of the range from `offset` to `end` lies in a chunk.
pub open spec fn holds_byte_of(c: ChunkView, offset: u64, end: int) -> bool {
    exists|b: int| offset <= b < end && holds_byte(c, b)
}

/// A manifest with enough chunks holds every byte of the object in one of them.
pub proof fn law_chunks_hold_the_object(m: ManifestView, b: int) -> (i: int)
    requires
        m.total_size <= m.chunks.len() * m.chunk_size,
        0 <= b < m.total_size,
    ensures
        0 <= i < m.chunks.len(),
        holds_byte(chunk_at(m, i), b),
{
    let s = m.chunk_size as int;
    let n = m.chunks.len() as int;
    assert(s > 0) by (nonlinear_arith)
        requires
            0 < n * s,
            n >= 0,
    ;
    let i = b / s;
    assert(i * s <= b < (i + 1) * s && i >= 0) by (nonlinear_arith)
        requires
            s > 0,
            b >= 0,
            i == b / s,
    ;
    assert(i < n) by (nonlinear_arith)
        requires
            i * s <= b,
            b < n * s,
            s > 0,
    ;
    lemma_next_start(m.total_size as int, s, i);
    i
}

// ----- what entries, pages and plans hold -----

/// The etag of a file spells its content id and its time of change, the etag of a node without content
/// its id.
pub proof fn law_etag_spells_the_version(c: ContentView, node_id: Seq<char>)
    ensures
        etag(Some(c), node_id) == c.cid + seq![':'] + decimal(c.mtime_ms as nat),
        etag(None, node_id) == seq!['d', 'i', 'r', ':'] + node_id,
{
    reveal_strlit(":");
    reveal_strlit("dir:");
    assert(":"@ =~= seq![':']);
    assert("dir:"@ =~= seq!['d', 'i', 'r', ':']);
}

/// Two versions of a file have the same etag only if they have the same content and the same time of
/// change: a write that is based on one is never taken for one that is based on the other.
pub proof fn law_etag_tells_versions_apart(
    a: ContentView,
    b: ContentView,
    node_id: Seq<char>,
    other_id: Seq<char>,
)
    requires
        etag(Some(a), node_id) == etag(Some(b), other_id),
    ensures
        a.cid == b.cid,
        a.mtime_ms == b.mtime_ms,
{
    law_etag_spells_the_version(a, node_id);
    law_etag_spells_the_version(b, other_id);
    law_decimal_is_the_numeral(a.mtime_ms as nat);
    law_decimal_is_the_numeral(b.mtime_ms as nat);
    let s = etag(Some(a), node_id);
    let x = decimal(a.mtime_ms as nat);
    let y = decimal(b.mtime_ms as nat);
    let i = a.cid.len() as int;
    let j = b.cid.len() as int;
    assert(s == b.cid + seq![':'] + y);
    assert(s.len() == i + 1 + x.len() && s.len() == j + 1 + y.len());
    assert(s[i] == ':' && s[j] == ':');
    if i < j {
        assert(s[j] == x[j - i - 1]);
    } else if j < i {
        assert(s[i] == y[i - j - 1]);
    }
    assert(a.cid =~= s.take(i));
    assert(b.cid =~= s.take(i));
    assert(x =~= s.skip(i + 1));
    assert(y =~= s.skip(i + 1));
}

/// Whether an entry shows a node at a path: as a directory or a file, under the node's id and the etag
/// of what is stored for it, with the size, time, object and document of its content if it has any.
pub open spec fn shows(
    e: EntryView,
    path: Seq<char>,
    is_dir: bool,
    node_id: Seq<char>,
    content: Option<ContentView>,
    stored: Option<ContentView>,
) -> bool {
    &&& e.path == path
    &&& e.node_id == node_id
    &&& is_dir <==> e.kind == EntryKind::Dir
    &&& !is_dir <==> e.kind == EntryKind::File
    &&& e.etag == etag(stored, node_id)
    &&& match content {
        Some(c) => e.size == c.size && e.mtime_ms == c.mtime_ms && e.object_cid == Some(c.cid)
            && e.doc_id == c.doc_id,
        None => e.size == 0 && e.mtime_ms == 0 && e.object_cid is None && e.doc_id is None,
    }
}

/// The entry at a path shows what the tree holds there; that of the root shows a directory without
/// content; and there is none where the tree holds nothing.
pub proof fn law_stat_shows_what_is_there(
    path: Seq<char>,
    root_id: Seq<char>,
    found: Option<FoundView>,
)
    ensures
        norm(path) == seq!['/'] ==> stat(path, root_id, found) is Some && shows(
            stat(path, root_id, found)->0,
            seq!['/'],
            true,
            root_id,
            None,
            None,
        ),
        norm(path) != seq!['/'] ==> match found {
            Some(f) => match f.is_dir {
                Some(is_dir) => stat(path, root_id, found) is Some && shows(
                    stat(path, root_id, found)->0,
                    norm(path),
                    is_dir,
                    f.node_id,
                    f.content,
                    f.content,
                ),
                None => stat(path, root_id, found) is None,
            },
            None => stat(path, root_id, found) is None,
        },
{
}

/// A page of a directory starts behind the cursor, at the first name that comes after it, and shows one
/// item after another from there, each under its own name in that directory, as many as were asked for
/// (but at least one) or as there are. There is a cursor to go on from exactly if there are more: the
/// last name shown, if it is one component as names are.
pub proof fn law_page_shows_what_follows_the_cursor(
    items: Seq<ItemView>,
    parent: Seq<char>,
    cursor: Option<Seq<char>>,
    limit: u32,
) -> (start: int)
    requires
        parent.len() > 0,
        parent != seq!['/'] ==> parent.last() != '/',
    ensures
        0 <= start <= items.len(),
        cursor is None ==> start == 0,
        cursor matches Some(c) ==> {
            &&& forall|i: int| 0 <= i < start ==> !lex_lt(c, (#[trigger] items[i]).name)
            &&& start < items.len() ==> lex_lt(c, items[start].name)
        },
        ({
            let page = listing_page(items, parent, cursor, limit);
            let wanted = if limit == 0 { 1 } else { limit as int };
            let left = items.len() - start;
            &&& page.len() == (if left < wanted { left } else { wanted })
            &&& forall|i: int|
                0 <= i < page.len() ==> {
                    let e = items[start + i];
                    shows(
                        #[trigger] page[i],
                        joined(parent, e.name),
                        e.is_dir,
                        e.node_id,
                        e.content,
                        e.stored,
                    )
                }
            &&& listing_cursor(items, parent, cursor, limit) is Some <==> page.len() < left
            &&& listing_cursor(items, parent, cursor, limit) matches Some(next) ==> {
                let name = items[start + page.len() - 1].name;
                (forall|k: int| 0 <= k < name.len() ==> name[k] != '/') ==> next == name
            }
        }),
{
    let start = page_start(items, cursor);
    if let Some(c) = cursor {
        lemma_first_after_bounds(items, c);
        lemma_first_after_is_first(items, c);
    }
    let page = listing_page(items, parent, cursor, limit);
    assert forall|i: int| 0 <= i < page.len() implies {
        let e = items[start + i];
        shows(
            #[trigger] page[i],
            joined(parent, e.name),
            e.is_dir,
            e.node_id,
            e.content,
            e.stored,
        )
    } by {
        law_child_is_in_its_directory(parent, items[start + i].name);
    }
    if page.len() < items.len() - start {
        let last = start + page.len() - 1;
        let name = items[last].name;
        assert(page.last() == listed_entry(parent, items[last]));
        if forall|k: int| 0 <= k < name.len() ==> name[k] != '/' {
            lemma_base_of_shown(parent, name);
        }
    }
    start
}

proof fn lemma_first_after_is_first(items: Seq<ItemView>, name: Seq<char>)
    ensures
        forall|i: int|
            0 <= i < first_after(items, name) && i < items.len() ==> !lex_lt(
                name,
                (#[trigger] items[i]).name,
            ),
        first_after(items, name) < items.len() ==> lex_lt(
            name,
            items[first_after(items, name)].name,
        ),
    decreases items.len(),
{
    if items.len() > 0 && !lex_lt(name, items[0].name) {
        let rest = items.drop_first();
        lemma_first_after_bounds(rest, name);
        lemma_first_after_is_first(rest, name);
        assert forall|i: int| 0 <= i < first_after(items, name) && i < items.len() implies !lex_lt(
            name,
            (#[trigger] items[i]).name,
        ) by {
            if i > 0 {
                assert(items[i] == rest[i - 1]);
            }
        }
    }
}

/// Whether the byte at `b` is one that a read from `offset` asks for: it is a byte of the object, not
/// before the offset, and, where a length is given, not that many bytes or more behind it.
pub open spec fn is_asked_for(b: int, total_size: u64, offset: u64, len: Option<u64>) -> bool {
    offset <= b < total_size && (len matches Some(l) ==> b < offset + l)
}

/// Whether a chunk is the `i`th of an object: under its id, behind those before it, and of full size
/// unless the object ends in it.
pub open spec fn is_chunk(c: ChunkView, m: ManifestView, i: int) -> bool {
    &&& 0 <= i < m.chunks.len()
    &&& c.cid == m.chunks[i]
    &&& c.offset == i * m.chunk_size
    &&& c.offset + c.len == m.total_size || (c.len == m.chunk_size && c.offset + c.len
        < m.total_size)
    &&& c.len <= m.chunk_size
}

/// A read is planned as the chunks of the object that hold a byte it asks for, and no others, in their
/// order. With no length given, it asks for every byte from the offset to the end.
pub proof fn law_plan_holds_the_range(
    object_cid: Seq<char>,
    m: ManifestView,
    offset: u64,
    len: Option<u64>,
)
    ensures
        ({
            let p = plan(object_cid, m, offset, len);
            &&& p.object_cid == object_cid
            &&& p.total_size == m.total_size
            &&& p.chunk_size == m.chunk_size
            &&& !p.encrypted
            &&& p.key_hint is None
            // Every byte asked for that the object has a chunk for is in the plan, ...
            &&& forall|i: int, b: int|
                #[trigger] has_place(m, i, b) && is_asked_for(b, m.total_size, offset, len) ==> exists|
                    k: int,
                |
                    0 <= k < p.chunks.len() && is_chunk(#[trigger] p.chunks[k], m, i)
                        && p.chunks[k].offset <= b < p.chunks[k].offset + p.chunks[k].len
            // ... each chunk of the plan is one of the object, with a byte that is asked for, ...
            &&& forall|k: int|
                0 <= k < p.chunks.len() ==> is_needed(#[trigger] p.chunks[k], m, offset, len)
            // ... and comes behind those before it.
            &&& forall|k: int, l: int|
                0 <= k < l < p.chunks.len() ==> (#[trigger] p.chunks[k]).offset + p.chunks[k].len <= (
                #[trigger] p.chunks[l]).offset
        }),
{
    let p = plan(object_cid, m, offset, len);
    let q = |c: ChunkView| meets(c, offset, read_end(m, offset, len));
    let all = all_chunks(m);
    assert(p.chunks == all.filter(q));
    assert forall|i: int, b: int|
        #[trigger] has_place(m, i, b) && is_asked_for(b, m.total_size, offset, len) implies exists|
        k: int,
    |
        0 <= k < p.chunks.len() && is_chunk(#[trigger] p.chunks[k], m, i) && p.chunks[k].offset <= b
            < p.chunks[k].offset + p.chunks[k].len by {
        lemma_next_start(m.total_size as int, m.chunk_size as int, i);
        let c = chunk_at(m, i);
        assert(all[i] == c);
        lemma_chunk_fits(m, i, b);
        assert(q(c));
        all.lemma_filter_contains(q, i);
        let k = choose|k: int| 0 <= k < p.chunks.len() && p.chunks[k] == c;
        assert(p.chunks[k] == c);
    }
    assert forall|k: int| 0 <= k < p.chunks.len() implies is_needed(
        #[trigger] p.chunks[k],
        m,
        offset,
        len,
    ) by {
        let c = p.chunks[k];
        assert(p.chunks.contains(c));
        all.lemma_filter_pred(q, k);
        all.lemma_filter_contains_rev(q, c);
        let i = choose|i: int| 0 <= i < all.len() && all[i] == c;
        lemma_next_start(m.total_size as int, m.chunk_size as int, i);
        let b: int = if c.offset >= offset {
            c.offset as int
        } else {
            offset as int
        };
        if m.chunk_size == 0 {
            assert(i * m.chunk_size == 0) by (nonlinear_arith)
                requires
                    m.chunk_size == 0,
            ;
        }
        assert(c.offset <= b < c.offset + c.len);
        assert(is_asked_for(b, m.total_size, offset, len));
        lemma_chunk_start(m, i, b);
        assert(is_chunk(c, m, i));
        assert(is_for(c, m, i, b));
    }
    lemma_kept_in_order(m, all, q);
}

/// Whether the object has an `i`th chunk and the byte at `b` is in its place.
pub open spec fn has_place(m: ManifestView, i: int, b: int) -> bool {
    0 <= i < m.chunks.len() && i * m.chunk_size <= b < (i + 1) * m.chunk_size
}

/// Whether a chunk is the `i`th of an object and holds the byte at `b`.
pub open spec fn is_for(c: ChunkView, m: ManifestView, i: int, b: int) -> bool {
    is_chunk(c, m, i) && c.offset <= b < c.offset + c.len
}

/// Whether a chunk is one of an object and holds a byte that a read asks for.
pub open spec fn is_needed(c: ChunkView, m: ManifestView, offset: u64, len: Option<u64>) -> bool {
    exists|i: int, b: int| #[trigger] is_for(c, m, i, b) && is_asked_for(b, m.total_size, offset, len)
}

proof fn lemma_chunk_fits(m: ManifestView, i: int, b: int)
    requires
        0 <= i < m.chunks.len(),
        i * m.chunk_size <= b < (i + 1) * m.chunk_size,
        b < m.total_size,
    ensures
        is_for(chunk_at(m, i), m, i, b),
{
    let s = m.chunk_size as int;
    assert((i + 1) * s == i * s + s) by (nonlinear_arith);
    assert(i * s >= 0) by (nonlinear_arith)
        requires
            i >= 0,
            s >= 0,
    ;
}

proof fn lemma_chunk_start(m: ManifestView, i: int, b: int)
    requires
        0 <= i < m.chunks.len(),
        holds_byte(chunk_at(m, i), b),
    ensures
        is_chunk(chunk_at(m, i), m, i),
{
    let s = m.chunk_size as int;
    lemma_next_start(m.total_size as int, s, i);
    assert(i * s >= 0) by (nonlinear_arith)
        requires
            i >= 0,
            s >= 0,
    ;
}

proof fn lemma_kept_in_order(m: ManifestView, all: Seq<ChunkView>, q: spec_fn(ChunkView) -> bool)
    requires
        all.len() <= m.chunks.len(),
        forall|i: int| 0 <= i < all.len() ==> #[trigger] all[i] == chunk_at(m, i),
    ensures
        forall|k: int, l: int|
            0 <= k < l < all.filter(q).len() ==> (#[trigger] all.filter(q)[k]).offset + all.filter(
                q,
            )[k].len <= (#[trigger] all.filter(q)[l]).offset,
        forall|k: int|
            0 <= k < all.filter(q).len() ==> (#[trigger] all.filter(q)[k]).offset + all.filter(
                q,
            )[k].len <= least(all.len() * m.chunk_size, m.total_size as int),
    decreases all.len(),
{
    reveal(Seq::filter);
    if all.len() > 0 {
        let init = all.drop_last();
        assert forall|i: int| 0 <= i < init.len() implies #[trigger] init[i] == chunk_at(m, i) by {
            assert(init[i] == all[i]);
        }
        lemma_kept_in_order(m, init, q);
        let n = init.len() as int;
        lemma_next_start(m.total_size as int, m.chunk_size as int, n);
        assert(all.last() == chunk_at(m, n));
        assert(n * m.chunk_size >= 0) by (nonlinear_arith)
            requires
                n >= 0,
        ;
        let f = all.filter(q);
        let g = init.filter(q);
        assert(f == (if q(all.last()) { g.push(all.last()) } else { g }));
    }
}

/// With chunks enough for all of the object, every byte that a read asks for is in a chunk of its plan:
/// with no length given, that is every byte from the offset up to the end of the object.
pub proof fn law_no_byte_is_missing_from_a_plan(
    object_cid: Seq<char>,
    m: ManifestView,
    offset: u64,
    len: Option<u64>,
    b: int,
) -> (k: int)
    requires
        m.total_size <= m.chunks.len() * m.chunk_size,
        offset <= b < m.total_size,
        len matches Some(l) ==> b < offset + l,
    ensures
        ({
            let chunks = plan(object_cid, m, offset, len).chunks;
            0 <= k < chunks.len() && chunks[k].offset <= b < chunks[k].offset + chunks[k].len
        }),
{
    let i = law_chunks_hold_the_object(m, b);
    law_plan_holds_the_range(object_cid, m, offset, len);
    lemma_next_start(m.total_size as int, m.chunk_size as int, i);
    assert(i * m.chunk_size >= 0) by (nonlinear_arith)
        requires
            i >= 0,
    ;
    assert((i + 1) * m.chunk_size == i * m.chunk_size + m.chunk_size) by (nonlinear_arith);
    assert(has_place(m, i, b) && is_asked_for(b, m.total_size, offset, len));
    let chunks = plan(object_cid, m, offset, len).chunks;
    choose|k: int|
        0 <= k < chunks.len() && is_chunk(#[trigger] chunks[k], m, i) && chunks[k].offset <= b
            < chunks[k].offset + chunks[k].len
}

} // verus!
