//! What the host does for each operation, from the request to the reply: which outside work it asks
//! for, in what order and with what of the request, what it records, and what it answers.
use vstd::prelude::*;
use vstd::utf8::encode_utf8;

use crate::cap::{
    ability_for, can_be_named, entitles, hex_bytes, is_hex, law_guard_lets_through_what_is_entitled,
    law_share_is_as_asked_and_held, law_share_is_owed, lowercase, lowered_verdict, node_id_of,
    sha256_of, touches, CapView,
};
use crate::codec::{
    enc_req, enc_str, enc_u64, explanation, get_req, law_request_canonical, law_request_read_back,
    le_value, req_fits,
};
use crate::drive::{
    etag, has_place, is_asked_for, is_chunk, is_for, is_needed, law_page_shows_what_follows_the_cursor,
    law_plan_holds_the_range, law_stat_shows_what_is_there, listing_cursor, listing_page, plan, shows,
    ItemView,
};
use crate::feed::{law_poll_is_gap_free, numbered};
use crate::path::{is_in, joined, law_norm_shape, law_split_is_exact, norm};
use crate::rules::{
    advance, ahead, guard, law_refused_request_changes_nothing, lemma_served, on_message, on_op,
    on_request, run, served, World,
};
use crate::step::{FetchErrView, SnapshotErrView, StepView};
use crate::tenant::{Drives, TenantView};
use crate::text::{begins, has_piece, lex_lt};
use crate::wire::{
    ChangeKindView, ChangeView, EntryView, ErrView, OkView, OpView, ReqView,
};

verus! {

// ----- the steps of a request -----

/// A step and those that follow it, up to the reply.
pub open spec fn steps_from(w: Drives, root_id: Seq<char>, step: StepView, o: World) -> Seq<StepView>
    decreases ahead(step),
{
    match step {
        StepView::Done(_) => seq![step],
        _ => {
            let (v, after) = advance(w, root_id, step, o);
            seq![step] + steps_from(v, root_id, after, o)
        },
    }
}

/// The steps that a request is answered in: the check of its capability chain, the outside work in
/// the order it is asked for, and the reply.
pub open spec fn steps(w: Drives, root_id: Seq<char>, from: Seq<char>, req: ReqView, o: World) -> Seq<
    StepView,
> {
    steps_from(w, root_id, on_request(from, req), o)
}

proof fn lemma_steps_end(w: Drives, root_id: Seq<char>, step: StepView, o: World)
    ensures
        steps_from(w, root_id, step, o).len() > 0,
        steps_from(w, root_id, step, o).last() == StepView::Done(run(w, root_id, step, o).1),
    decreases ahead(step),
{
    if !(step is Done) {
        let (v, after) = advance(w, root_id, step, o);
        lemma_steps_end(v, root_id, after, o);
    }
}

/// The last step of a request is its reply.
pub proof fn law_steps_end_with_the_reply(
    w: Drives,
    root_id: Seq<char>,
    from: Seq<char>,
    req: ReqView,
    o: World,
)
    ensures
        steps(w, root_id, from, req, o).len() > 0,
        steps(w, root_id, from, req, o).last() == StepView::Done(served(w, root_id, from, req, o).1),
{
    lemma_steps_end(w, root_id, on_request(from, req), o);
}

/// A request that passes the guard: its chain is checked, and what follows is the operation.
proof fn lemma_steps(w: Drives, root_id: Seq<char>, from: Seq<char>, req: ReqView, o: World)
    requires
        guard(from, req, o) is Ok,
    ensures
        steps(w, root_id, from, req, o) == seq![on_request(from, req)] + steps_from(
            w,
            root_id,
            on_op(w, root_id, guard(from, req, o)->Ok_0, req.drive, req.op),
            o,
        ),
        guard(from, req, o)->Ok_0 == o.judgement->0.chain,
{
    lemma_served(w, root_id, from, req, o);
    reveal_with_fuel(steps_from, 2);
}

/// Whether `tail` are the last steps of a request that made the change `c` of a drive and `v` are the
/// drives then: the change is the next of the drive's feed and nothing else is different; the state
/// goes to disk; if it gets there, those who watch the drive are told how far its feed is and `ok` is
/// the reply, and if not, why not is.
pub open spec fn recorded(
    w: Drives,
    drive: Seq<char>,
    c: ChangeView,
    ok: OkView,
    o: World,
    tail: Seq<StepView>,
    v: Drives,
) -> bool {
    &&& c.seq == w[drive].feed.len() + 1
    &&& v == w.insert(drive, TenantView { feed: w[drive].feed.push(c), ..w[drive] })
    &&& tail.len() > 1
    &&& tail[0] matches StepView::Persist { drive: d, .. } && d == drive
    &&& match o.persisted {
        Err(e) => tail.len() == 2 && tail[1] == StepView::Done(Err(ErrView::Internal(e))),
        Ok(()) => {
            &&& tail.len() == 3
            &&& tail[1] matches StepView::Publish { topic, bytes, .. } && topic
                == "ce-drive/changes/"@ + drive && bytes == enc_str(drive) + enc_u64(c.seq)
            &&& tail[2] == StepView::Done(Ok(ok))
        },
    }
}

// ----- changes -----

/// A write of a path that is not the root, based on the version that is there if it says which:
/// the path is looked up, and then the tree is asked to bind the path's name in the path's directory
/// to the object that the request names, of the size it names, whatever was there before. What the
/// tree made of it is recorded as a modification at that path.
pub proof fn law_write_binds_the_named_object(
    w: Drives,
    root_id: Seq<char>,
    from: Seq<char>,
    req: ReqView,
    o: World,
)
    requires
        guard(from, req, o) is Ok,
        w.contains_key(req.drive),
        w[req.drive].feed.len() < u64::MAX,
        req.op matches OpView::Write { path, base_etag, .. } && norm(path) != seq!['/'] && (
        base_etag matches Some(base) && o.found matches Some(f) ==> base == etag(
            f.content,
            f.node_id,
        )),
    ensures
        req.op matches OpView::Write { path, object_cid, size, .. } && {
            let s = steps(w, root_id, from, req, o);
            let v = served(w, root_id, from, req, o).0;
            &&& s.len() > 3
            &&& s[1] matches StepView::Lookup { drive, path: p, .. } && drive == req.drive && p
                == norm(path)
            &&& s[2] matches StepView::AddFile { drive, parent, name, cid, size: n, mode, .. }
                && drive == req.drive && is_in(parent, name, norm(path)) && cid == object_cid && n
                == size && mode == 0o644
            &&& match o.placed {
                Err(e) => s.len() == 4 && s[3] == StepView::Done(Err(ErrView::Internal(e))) && v
                    == w,
                Ok(p) => {
                    let seq = (w[req.drive].feed.len() + 1) as u64;
                    let tag = etag(p.content, p.node_id);
                    let c = ChangeView {
                        seq,
                        path: norm(path),
                        node_id: p.node_id,
                        kind: ChangeKindView::Modified,
                        etag: tag,
                    };
                    let ok = OkView::Written { etag: tag, node_id: p.node_id, version_seq: seq };
                    recorded(w, req.drive, c, ok, o, s.skip(3), v)
                },
            }
        },
{
    lemma_served(w, root_id, from, req, o);
    lemma_steps(w, root_id, from, req, o);
    law_split_is_exact(req.op->Write_path);
    reveal_with_fuel(run, 6);
    reveal_with_fuel(steps_from, 6);
}

/// A new directory, not the root: the tree is asked to make the path's name in the path's directory,
/// and what it made is recorded as created at that path.
pub proof fn law_mkdir_makes_the_named_directory(
    w: Drives,
    root_id: Seq<char>,
    from: Seq<char>,
    req: ReqView,
    o: World,
)
    requires
        guard(from, req, o) is Ok,
        w.contains_key(req.drive),
        w[req.drive].feed.len() < u64::MAX,
        req.op matches OpView::Mkdir { path } && norm(path) != seq!['/'],
    ensures
        req.op matches OpView::Mkdir { path } && {
            let s = steps(w, root_id, from, req, o);
            let v = served(w, root_id, from, req, o).0;
            &&& s.len() > 2
            &&& s[1] matches StepView::Mkdir { drive, parent, name, .. } && drive == req.drive
                && is_in(parent, name, norm(path))
            &&& match o.placed {
                Err(e) => s.len() == 3 && s[2] == StepView::Done(Err(ErrView::Internal(e))) && v
                    == w,
                Ok(p) => {
                    let c = ChangeView {
                        seq: (w[req.drive].feed.len() + 1) as u64,
                        path: norm(path),
                        node_id: p.node_id,
                        kind: ChangeKindView::Created,
                        etag: etag(p.content, p.node_id),
                    };
                    let ok = OkView::Made { node_id: p.node_id };
                    recorded(w, req.drive, c, ok, o, s.skip(2), v)
                },
            }
        },
{
    lemma_served(w, root_id, from, req, o);
    lemma_steps(w, root_id, from, req, o);
    law_split_is_exact(req.op->Mkdir_path);
    reveal_with_fuel(run, 5);
    reveal_with_fuel(steps_from, 5);
}

/// A move to a path that is not the root: the source is looked up, and if something is there, the
/// tree is asked to move the source to the destination's name in the destination's directory. It is
/// recorded under the node that was found, at the destination, with where it came from.
pub proof fn law_move_moves_the_source(
    w: Drives,
    root_id: Seq<char>,
    from: Seq<char>,
    req: ReqView,
    o: World,
)
    requires
        guard(from, req, o) is Ok,
        w.contains_key(req.drive),
        w[req.drive].feed.len() < u64::MAX,
        req.op matches OpView::Move { to, .. } && norm(to) != seq!['/'],
    ensures
        req.op matches OpView::Move { from: source, to } && {
            let s = steps(w, root_id, from, req, o);
            let v = served(w, root_id, from, req, o).0;
            &&& s.len() > 2
            &&& s[1] matches StepView::Lookup { drive, path, .. } && drive == req.drive && path
                == norm(source)
            &&& match o.found {
                None => s.len() == 3 && s[2] == StepView::Done(Err(ErrView::NotFound)) && v == w,
                Some(f) => {
                    &&& s.len() > 3
                    &&& s[2] matches StepView::Move { drive, from: taken, parent, name, .. }
                        && drive == req.drive && taken == norm(source) && is_in(
                        parent,
                        name,
                        norm(to),
                    )
                    &&& match o.moved {
                        Err(e) => s.len() == 4 && s[3] == StepView::Done(Err(ErrView::Internal(e)))
                            && v == w,
                        Ok(content) => {
                            let c = ChangeView {
                                seq: (w[req.drive].feed.len() + 1) as u64,
                                path: norm(to),
                                node_id: f.node_id,
                                kind: ChangeKindView::Moved { from: norm(source) },
                                etag: etag(content, f.node_id),
                            };
                            let ok = OkView::Made { node_id: f.node_id };
                            recorded(w, req.drive, c, ok, o, s.skip(3), v)
                        },
                    }
                },
            }
        },
{
    lemma_served(w, root_id, from, req, o);
    lemma_steps(w, root_id, from, req, o);
    law_split_is_exact(req.op->Move_to);
    reveal_with_fuel(run, 6);
    reveal_with_fuel(steps_from, 6);
}

/// A copy to a path that is not the root: the source is looked up, and if it is a file with content,
/// the tree is asked to bind the destination's name in the destination's directory to the same
/// object, of the same size and mode. What it made is recorded as created at the destination; the
/// source is neither moved nor removed.
pub proof fn law_copy_shares_the_object(
    w: Drives,
    root_id: Seq<char>,
    from: Seq<char>,
    req: ReqView,
    o: World,
)
    requires
        guard(from, req, o) is Ok,
        w.contains_key(req.drive),
        w[req.drive].feed.len() < u64::MAX,
        req.op matches OpView::Copy { to, .. } && norm(to) != seq!['/'],
    ensures
        req.op matches OpView::Copy { from: source, to } && {
            let s = steps(w, root_id, from, req, o);
            let v = served(w, root_id, from, req, o).0;
            &&& s.len() > 2
            &&& s[1] matches StepView::Lookup { drive, path, .. } && drive == req.drive && path
                == norm(source)
            &&& if o.found is Some && o.found->0.content is Some {
                let held = o.found->0.content->0;
                &&& s.len() > 3
                &&& s[2] matches StepView::AddFile { drive, parent, name, cid, size, mode, .. }
                    && drive == req.drive && is_in(parent, name, norm(to)) && cid == held.cid && size
                    == held.size && mode == held.mode
                &&& match o.placed {
                    Err(e) => s.len() == 4 && s[3] == StepView::Done(Err(ErrView::Internal(e)))
                        && v == w,
                    Ok(p) => {
                        let c = ChangeView {
                            seq: (w[req.drive].feed.len() + 1) as u64,
                            path: norm(to),
                            node_id: p.node_id,
                            kind: ChangeKindView::Created,
                            etag: etag(p.content, p.node_id),
                        };
                        let ok = OkView::Made { node_id: p.node_id };
                        recorded(w, req.drive, c, ok, o, s.skip(3), v)
                    },
                }
            } else {
                s.len() == 3 && s[2] == StepView::Done(Err(ErrView::NotFound)) && v == w
            }
        },
{
    lemma_served(w, root_id, from, req, o);
    lemma_steps(w, root_id, from, req, o);
    law_split_is_exact(req.op->Copy_to);
    reveal_with_fuel(run, 6);
    reveal_with_fuel(steps_from, 6);
}

/// A removal: the path is looked up, and if something is there, the tree is asked to remove that very
/// path of that very drive. What the feed says was deleted is what was removed.
pub proof fn law_delete_removes_the_named_path(
    w: Drives,
    root_id: Seq<char>,
    from: Seq<char>,
    req: ReqView,
    o: World,
)
    requires
        guard(from, req, o) is Ok,
        w.contains_key(req.drive),
        w[req.drive].feed.len() < u64::MAX,
        req.op is Delete,
    ensures
        req.op matches OpView::Delete { path, .. } && {
            let s = steps(w, root_id, from, req, o);
            let v = served(w, root_id, from, req, o).0;
            &&& s.len() > 2
            &&& s[1] matches StepView::Lookup { drive, path: p, .. } && drive == req.drive && p
                == norm(path)
            &&& match o.found {
                None => s.len() == 3 && s[2] == StepView::Done(Err(ErrView::NotFound)) && v == w,
                Some(f) => {
                    &&& s.len() > 3
                    &&& s[2] matches StepView::Remove { drive, path: p, .. } && drive == req.drive
                        && p == norm(path)
                    &&& match o.removed {
                        Err(e) => s.len() == 4 && s[3] == StepView::Done(Err(ErrView::Internal(e)))
                            && v == w,
                        Ok(()) => {
                            let c = ChangeView {
                                seq: (w[req.drive].feed.len() + 1) as u64,
                                path: norm(path),
                                node_id: f.node_id,
                                kind: ChangeKindView::Deleted,
                                etag: Seq::empty(),
                            };
                            recorded(w, req.drive, c, OkView::Deleted, o, s.skip(3), v)
                        },
                    }
                },
            }
        },
{
    lemma_served(w, root_id, from, req, o);
    lemma_steps(w, root_id, from, req, o);
    reveal_with_fuel(run, 6);
    reveal_with_fuel(steps_from, 6);
}

/// What cannot be changed is refused before anything is looked up or done: the root, as what is
/// written, made, or moved or copied to, is a bad path; and no other path of a drive that the host
/// does not serve is there.
pub proof fn law_change_without_a_place_is_refused(
    w: Drives,
    root_id: Seq<char>,
    from: Seq<char>,
    req: ReqView,
    o: World,
)
    requires
        guard(from, req, o) is Ok,
        req.op is Write || req.op is Mkdir || req.op is Move || req.op is Copy,
        !w.contains_key(req.drive) || named_place(req.op) == seq!['/'],
    ensures
        steps(w, root_id, from, req, o).len() == 2,
        steps(w, root_id, from, req, o)[1] == StepView::Done(
            Err(
                if named_place(req.op) == seq!['/'] {
                    ErrView::BadPath
                } else {
                    ErrView::NotFound
                },
            ),
        ),
        served(w, root_id, from, req, o).0 == w,
{
    lemma_served(w, root_id, from, req, o);
    lemma_steps(w, root_id, from, req, o);
    match req.op {
        OpView::Write { path, .. } => law_split_is_exact(path),
        OpView::Mkdir { path } => law_split_is_exact(path),
        OpView::Move { to, .. } => law_split_is_exact(to),
        OpView::Copy { to, .. } => law_split_is_exact(to),
        _ => {},
    }
    reveal_with_fuel(run, 2);
    reveal_with_fuel(steps_from, 2);
}

/// Where an operation puts something, in normal form.
pub open spec fn named_place(op: OpView) -> Seq<char> {
    match op {
        OpView::Write { path, .. } => norm(path),
        OpView::Mkdir { path } => norm(path),
        OpView::Move { to, .. } => norm(to),
        OpView::Copy { to, .. } => norm(to),
        _ => Seq::empty(),
    }
}

/// What a request reads, follows or removes is not there if the host does not serve the drive it names.
pub proof fn law_unserved_drive_is_not_found(
    w: Drives,
    root_id: Seq<char>,
    from: Seq<char>,
    req: ReqView,
    o: World,
)
    requires
        guard(from, req, o) is Ok,
        !w.contains_key(req.drive),
        req.op is Open || req.op is Stat || req.op is List || req.op is Read || req.op is Delete
            || req.op is Poll || req.op is Watch,
    ensures
        steps(w, root_id, from, req, o).len() == 2,
        served(w, root_id, from, req, o) == (w, Err::<OkView, ErrView>(ErrView::NotFound)),
{
    lemma_served(w, root_id, from, req, o);
    lemma_steps(w, root_id, from, req, o);
    reveal_with_fuel(run, 2);
    reveal_with_fuel(steps_from, 2);
}

// ----- reading -----

/// A look at a path: what the tree holds at that path of that drive is looked up and shown; the root
/// needs no looking up.
pub proof fn law_stat_shows_the_named_path(
    w: Drives,
    root_id: Seq<char>,
    from: Seq<char>,
    req: ReqView,
    o: World,
)
    requires
        guard(from, req, o) is Ok,
        w.contains_key(req.drive),
        req.op is Stat,
    ensures
        req.op matches OpView::Stat { path } && {
            let s = steps(w, root_id, from, req, o);
            let (v, reply) = served(w, root_id, from, req, o);
            &&& v == w
            &&& if norm(path) == seq!['/'] {
                &&& s.len() == 2
                &&& reply matches Ok(OkView::Entry(e)) && shows(
                    e,
                    seq!['/'],
                    true,
                    root_id,
                    None,
                    None,
                )
            } else {
                &&& s.len() == 3
                &&& s[1] matches StepView::Lookup { drive, path: p, .. } && drive == req.drive && p
                    == norm(path)
                &&& if o.found is Some && o.found->0.is_dir is Some {
                    let f = o.found->0;
                    reply matches Ok(OkView::Entry(e)) && shows(
                        e,
                        norm(path),
                        f.is_dir->0,
                        f.node_id,
                        f.content,
                        f.content,
                    )
                } else {
                    reply == Err::<OkView, ErrView>(ErrView::NotFound)
                }
            }
        },
{
    lemma_served(w, root_id, from, req, o);
    lemma_steps(w, root_id, from, req, o);
    law_stat_shows_what_is_there(req.op->Stat_path, root_id, o.found);
    law_stat_shows_what_is_there(req.op->Stat_path, root_id, None);
    reveal_with_fuel(run, 3);
    reveal_with_fuel(steps_from, 3);
}

/// A listing: the named directory of the named drive is listed, and the page that follows the request's
/// cursor, of at most its limit, is the reply.
pub proof fn law_list_shows_a_page_of_the_named_directory(
    w: Drives,
    root_id: Seq<char>,
    from: Seq<char>,
    req: ReqView,
    o: World,
) -> (start: int)
    requires
        guard(from, req, o) is Ok,
        w.contains_key(req.drive),
        req.op is List,
    ensures
        req.op matches OpView::List { path, cursor, limit } && {
            let s = steps(w, root_id, from, req, o);
            let (v, reply) = served(w, root_id, from, req, o);
            &&& v == w
            &&& s.len() == 3
            &&& s[1] matches StepView::List { drive, path: p, .. } && drive == req.drive && p == path
            &&& match o.items {
                None => reply == Err::<OkView, ErrView>(ErrView::NotFound),
                Some(items) => reply matches Ok(OkView::Listing { entries, next_cursor }) && is_page(
                    items,
                    norm(path),
                    cursor,
                    limit,
                    entries,
                    next_cursor,
                    start,
                ),
            }
        },
{
    lemma_served(w, root_id, from, req, o);
    lemma_steps(w, root_id, from, req, o);
    reveal_with_fuel(run, 3);
    reveal_with_fuel(steps_from, 3);
    let (path, cursor, limit) = (req.op->List_path, req.op->List_cursor, req.op->List_limit);
    if let Some(items) = o.items {
        law_norm_shape(path);
        let n = norm(path);
        assert(n.len() == 1 ==> n =~= seq!['/']);
        let start = law_page_shows_what_follows_the_cursor(items, n, cursor, limit);
        let page = listing_page(items, n, cursor, limit);
        let next = listing_cursor(items, n, cursor, limit);
        assert(is_page(items, n, cursor, limit, page, next, start));
        assert(served(w, root_id, from, req, o).1 == Ok::<OkView, ErrView>(
            OkView::Listing { entries: page, next_cursor: next },
        ));
        start
    } else {
        0
    }
}

/// Whether entries, and the cursor to go on from, are the page of a directory from its `start`th item:
/// the first whose name comes after the cursor. The page shows one item after another, each under its
/// own name, up to the limit (but at least one) or to the end, and there is a cursor exactly if there
/// are more: the last name shown, if it is one component as names are.
pub open spec fn is_page(
    items: Seq<ItemView>,
    dir: Seq<char>,
    cursor: Option<Seq<char>>,
    limit: u32,
    entries: Seq<EntryView>,
    next: Option<Seq<char>>,
    start: int,
) -> bool {
    let wanted = if limit == 0 { 1 } else { limit as int };
    let left = items.len() - start;
    &&& 0 <= start <= items.len()
    &&& cursor is None ==> start == 0
    &&& cursor matches Some(c) ==> {
        &&& forall|i: int| 0 <= i < start ==> !lex_lt(c, (#[trigger] items[i]).name)
        &&& start < items.len() ==> lex_lt(c, items[start].name)
    }
    &&& entries.len() == (if left < wanted { left } else { wanted })
    &&& forall|i: int|
        0 <= i < entries.len() ==> {
            let e = items[start + i];
            shows(
                #[trigger] entries[i],
                joined(dir, e.name),
                e.is_dir,
                e.node_id,
                e.content,
                e.stored,
            )
        }
    &&& next is Some <==> entries.len() < left
    &&& next matches Some(last) ==> {
        let name = items[start + entries.len() - 1].name;
        (forall|k: int| 0 <= k < name.len() ==> name[k] != '/') ==> last == name
    }
}

/// A read: the named path of the named drive is looked up, the manifest of the object it is bound to is
/// fetched, and the plan of that object for the request's own range is the reply. A directory or an
/// empty file has no object to read.
pub proof fn law_read_plans_the_object_at_the_path(
    w: Drives,
    root_id: Seq<char>,
    from: Seq<char>,
    req: ReqView,
    o: World,
)
    requires
        guard(from, req, o) is Ok,
        w.contains_key(req.drive),
        req.op is Read,
    ensures
        req.op matches OpView::Read { path, offset, len } && {
            let s = steps(w, root_id, from, req, o);
            let (v, reply) = served(w, root_id, from, req, o);
            &&& v == w
            &&& s.len() > 2
            &&& s[1] matches StepView::Lookup { drive, path: p, .. } && drive == req.drive && p
                == norm(path)
            &&& if o.found is Some && o.found->0.content is Some {
                let held = o.found->0.content->0;
                &&& s.len() == 4
                &&& s[2] matches StepView::Fetch { cid, .. } && cid == held.cid
                &&& match o.manifest {
                    Ok(m) => reply matches Ok(OkView::ReadPlan(p)) && p.object_cid == held.cid && (
                    forall|i: int, b: int|
                        #[trigger] has_place(m, i, b) && is_asked_for(b, m.total_size, offset, len)
                            ==> exists|k: int|
                            0 <= k < p.chunks.len() && is_for(#[trigger] p.chunks[k], m, i, b)) && (
                    forall|k: int|
                        0 <= k < p.chunks.len() ==> is_needed(
                            #[trigger] p.chunks[k],
                            m,
                            offset,
                            len,
                        )),
                    Err(FetchErrView::Missing) => reply == Err::<OkView, ErrView>(ErrView::NotFound),
                    Err(FetchErrView::Decode(e)) => reply == Err::<OkView, ErrView>(
                        ErrView::Internal("manifest decode: "@ + e),
                    ),
                }
            } else {
                s.len() == 3 && reply == Err::<OkView, ErrView>(ErrView::NotFound)
            }
        },
{
    lemma_served(w, root_id, from, req, o);
    lemma_steps(w, root_id, from, req, o);
    reveal_with_fuel(run, 4);
    reveal_with_fuel(steps_from, 4);
    let (offset, len) = (req.op->Read_offset, req.op->Read_len);
    if o.found is Some && o.found->0.content is Some && o.manifest is Ok {
        let m = o.manifest->Ok_0;
        let cid = o.found->0.content->0.cid;
        law_plan_holds_the_range(cid, m, offset, len);
        let chunks = plan(cid, m, offset, len).chunks;
        assert forall|i: int, b: int|
            #[trigger] has_place(m, i, b) && is_asked_for(b, m.total_size, offset, len) implies exists|
            k: int,
        |
            0 <= k < chunks.len() && is_for(#[trigger] chunks[k], m, i, b) by {
            let k = choose|k: int|
                0 <= k < chunks.len() && is_chunk(#[trigger] chunks[k], m, i) && chunks[k].offset
                    <= b < chunks[k].offset + chunks[k].len;
            assert(is_for(chunks[k], m, i, b));
        }
    }
}

/// Opening a drive: a snapshot of it is published, and the reply names the snapshot, how far the feed
/// is, what the presented capability grants, and the drive's terms. The snapshot is noted with the
/// drive; nothing else changes.
pub proof fn law_open_publishes_a_snapshot(
    w: Drives,
    root_id: Seq<char>,
    from: Seq<char>,
    req: ReqView,
    o: World,
)
    requires
        guard(from, req, o) is Ok,
        w.contains_key(req.drive),
        numbered(w[req.drive].feed),
        w[req.drive].feed.len() <= u64::MAX,
        req.op is Open,
    ensures
        ({
            let s = steps(w, root_id, from, req, o);
            let (v, reply) = served(w, root_id, from, req, o);
            let t = w[req.drive];
            &&& s.len() == 3
            &&& s[1] matches StepView::Snapshot { drive, .. } && drive == req.drive
            &&& match o.snapshot {
                Ok(cid) => {
                    let at = t.feed.len() as u64;
                    &&& reply == Ok::<OkView, ErrView>(
                        OkView::Opened {
                            drive_root_cid: cid,
                            server_seq: at,
                            granted_abilities: o.judgement->0.chain.last().abilities,
                            quota: t.quota,
                        },
                    )
                    &&& v == w.insert(req.drive, TenantView { snapshot: Some((cid, at)), ..t })
                },
                Err(SnapshotErrView::Encode(e)) => v == w && reply == Err::<OkView, ErrView>(
                    ErrView::Internal(e),
                ),
                Err(SnapshotErrView::Store(e)) => v == w && reply == Err::<OkView, ErrView>(
                    ErrView::Internal("snapshot publish: "@ + e),
                ),
            }
        }),
{
    lemma_served(w, root_id, from, req, o);
    lemma_steps(w, root_id, from, req, o);
    law_guard_of_a_request(from, req, o);
    reveal_with_fuel(run, 3);
    reveal_with_fuel(steps_from, 3);
}

/// Following a drive: the reply to a poll holds the changes of that drive's feed whose number is above
/// the request's own cursor (above 0 if it has none), from the first of them on and in order, as many as
/// the limit allows (but at least one) or as there are. Where to go on from is the number of the last
/// of them, or the cursor of the request if there is none.
pub proof fn law_poll_gives_what_is_above_the_cursor(
    w: Drives,
    root_id: Seq<char>,
    from: Seq<char>,
    req: ReqView,
    o: World,
)
    requires
        guard(from, req, o) is Ok,
        w.contains_key(req.drive),
        req.op is Poll,
    ensures
        req.op matches OpView::Poll { cursor, limit } && {
            let seen: u64 = match cursor {
                Some(c) => c,
                None => 0,
            };
            let above = w[req.drive].feed.filter(|c: ChangeView| c.seq > seen);
            let wanted = if limit == 0 { 1 } else { limit as int };
            let (v, reply) = served(w, root_id, from, req, o);
            &&& v == w
            &&& steps(w, root_id, from, req, o).len() == 2
            &&& reply matches Ok(OkView::Changes { changes, new_cursor }) && {
                &&& changes.len() == (if above.len() < wanted { above.len() as int } else { wanted })
                &&& forall|i: int| 0 <= i < changes.len() ==> #[trigger] changes[i] == above[i]
                &&& new_cursor == (if changes.len() == 0 { seen } else { changes.last().seq })
            }
        },
{
    lemma_served(w, root_id, from, req, o);
    lemma_steps(w, root_id, from, req, o);
    reveal_with_fuel(run, 2);
    reveal_with_fuel(steps_from, 2);
}

/// A client that polls a gap-free feed from where it is, and on from each cursor it is given, gets the
/// next numbers: none is left out and none comes twice.
pub proof fn law_poll_gives_the_next_numbers(
    w: Drives,
    root_id: Seq<char>,
    from: Seq<char>,
    req: ReqView,
    o: World,
)
    requires
        guard(from, req, o) is Ok,
        w.contains_key(req.drive),
        numbered(w[req.drive].feed),
        req.op is Poll,
    ensures
        req.op matches OpView::Poll { cursor, limit } && {
            let seen: u64 = match cursor {
                Some(c) => c,
                None => 0,
            };
            let feed = w[req.drive].feed;
            &&& served(w, root_id, from, req, o).1 matches Ok(
                OkView::Changes { changes, new_cursor },
            ) && {
                &&& changes.len() == 0 <==> feed.len() <= seen
                &&& forall|i: int|
                    0 <= i < changes.len() ==> (#[trigger] changes[i]).seq == seen + 1 + i
                        && changes[i] == feed[seen + i]
                &&& new_cursor == seen + changes.len()
            }
        },
{
    lemma_served(w, root_id, from, req, o);
    reveal_with_fuel(run, 2);
    let seen: u64 = match req.op->Poll_cursor {
        Some(c) => c,
        None => 0,
    };
    law_poll_is_gap_free(w[req.drive].feed, seen, req.op->Poll_limit as nat);
}

/// Watching a drive: the reply names the topic that the drive's changes are announced on, and how far
/// its feed is.
pub proof fn law_watch_names_the_topic_of_the_drive(
    w: Drives,
    root_id: Seq<char>,
    from: Seq<char>,
    req: ReqView,
    o: World,
)
    requires
        guard(from, req, o) is Ok,
        w.contains_key(req.drive),
        numbered(w[req.drive].feed),
        w[req.drive].feed.len() <= u64::MAX,
        req.op is Watch,
    ensures
        steps(w, root_id, from, req, o).len() == 2,
        served(w, root_id, from, req, o) == (
            w,
            Ok::<OkView, ErrView>(
                OkView::Watching {
                    topic: "ce-drive/changes/"@ + req.drive,
                    cursor: w[req.drive].feed.len() as u64,
                },
            ),
        ),
{
    lemma_served(w, root_id, from, req, o);
    lemma_steps(w, root_id, from, req, o);
    reveal_with_fuel(run, 2);
    reveal_with_fuel(steps_from, 2);
}

/// What the host does not carry out, it says that it does not.
pub proof fn law_unsupported_operation_is_refused(
    w: Drives,
    root_id: Seq<char>,
    from: Seq<char>,
    req: ReqView,
    o: World,
)
    requires
        guard(from, req, o) is Ok,
        req.op is Meta || req.op is SetProp || req.op is Tag || req.op is Link || req.op is Backlinks
            || req.op is Versions,
    ensures
        steps(w, root_id, from, req, o).len() == 2,
        served(w, root_id, from, req, o) == (
            w,
            Err::<OkView, ErrView>(ErrView::Internal("operation not supported by this host"@)),
        ),
{
    lemma_served(w, root_id, from, req, o);
    lemma_steps(w, root_id, from, req, o);
    reveal_with_fuel(run, 2);
    reveal_with_fuel(steps_from, 2);
}

// ----- sharing -----

/// Sharing: what is handed to be signed is a capability for the audience that the request names, on the
/// drive and the path that it names, with those of the abilities it names that the presented capability
/// holds, in their order (to read only, where it names none), until the earlier of the two expiries
/// that are set. What was signed is the reply. No drive changes.
pub proof fn law_share_signs_what_was_asked_for(
    w: Drives,
    root_id: Seq<char>,
    from: Seq<char>,
    req: ReqView,
    o: World,
)
    requires
        guard(from, req, o) is Ok,
        req.op is Share,
    ensures
        req.op matches OpView::Share { path, audience, abilities, caveats } && {
            let s = steps(w, root_id, from, req, o);
            let (v, reply) = served(w, root_id, from, req, o);
            let held = o.judgement->0.chain.last();
            let granted = if abilities.len() == 0 {
                seq!["drive:read"@]
            } else {
                abilities.filter(|a: Seq<char>| held.abilities.contains(a))
            };
            &&& v == w
            &&& if node_id_of(audience) is None {
                s.len() == 2 && reply == Err::<OkView, ErrView>(ErrView::BadPath)
            } else if granted.len() == 0 {
                s.len() == 2 && reply == Err::<OkView, ErrView>(ErrView::OutOfScope)
            } else if !can_be_named(req.drive, path) {
                s.len() == 2 && reply == Err::<OkView, ErrView>(ErrView::BadPath)
            } else {
                &&& s.len() == 3
                &&& s[1] matches StepView::Sign { mint } && {
                    &&& node_id_of(audience) == Some(mint.audience)
                    &&& mint.abilities == granted
                    &&& mint.not_after == caveats.not_after || mint.not_after == held.not_after
                    &&& caveats.not_after != 0 ==> 0 < mint.not_after <= caveats.not_after
                    &&& held.not_after != 0 ==> 0 < mint.not_after <= held.not_after
                    &&& mint.path_prefix == "ce-drive/"@ + req.drive + (if norm(path) == seq!['/'] {
                        Seq::<char>::empty()
                    } else {
                        norm(path)
                    })
                    &&& mint.nonce == le_value(
                        sha256_of(encode_utf8(audience + seq!['|'] + path)).take(8),
                    )
                }
                &&& reply == (match o.signed {
                    Ok(chain) => Ok::<OkView, ErrView>(OkView::Shared { chain }),
                    Err(e) => Err::<OkView, ErrView>(ErrView::Internal(e)),
                })
            }
        },
{
    lemma_served(w, root_id, from, req, o);
    lemma_steps(w, root_id, from, req, o);
    law_guard_of_a_request(from, req, o);
    reveal_with_fuel(run, 3);
    reveal_with_fuel(steps_from, 3);
    if let OpView::Share { path, audience, abilities, caveats } = req.op {
        let chain = o.judgement->0.chain;
        let held = chain.last();
        assert(touches(req.op, path));
        law_share_is_as_asked_and_held(
            chain,
            req.drive,
            path,
            audience,
            abilities,
            caveats.not_after,
        );
        law_share_is_owed(chain, req.drive, path, audience, abilities, caveats.not_after);
        let p = |a: Seq<char>| held.abilities.contains(a);
        let g = abilities.filter(p);
        if g.len() > 0 {
            abilities.lemma_filter_pred(p, 0);
            abilities.lemma_filter_contains_rev(p, g[0]);
            let i = choose|i: int| 0 <= i < abilities.len() && abilities[i] == g[0];
            assert(held.abilities.contains(abilities[i]));
        } else if abilities.len() > 0 {
            assert forall|i: int| 0 <= i < abilities.len() implies !held.abilities.contains(
                #[trigger] abilities[i],
            ) by {
                if p(abilities[i]) {
                    abilities.lemma_filter_contains(p, i);
                }
            }
        }
    }
}

// ----- before the operation -----

/// A request passes the guard exactly if its sender has a node id, the presented chain can be read, the
/// verifier does not object to it, and its last capability is for the operation. Otherwise the caller
/// is told what is wrong: not authorized, without an id or a chain; what the verifier's objection says,
/// in any case; or what the capability is not for.
pub proof fn law_guard_of_a_request(from: Seq<char>, req: ReqView, o: World)
    ensures
        guard(from, req, o) is Ok <==> node_id_of(from) is Some && o.judgement is Some
            && o.judgement->0.verdict is Ok && entitles(o.judgement->0.chain, req.drive, req.op),
        guard(from, req, o) matches Ok(chain) ==> chain == o.judgement->0.chain,
        node_id_of(from) is None || o.judgement is None ==> guard(from, req, o) == Err::<
            Seq<CapView>,
            ErrView,
        >(ErrView::Unauthorized),
        node_id_of(from) is Some && o.judgement is Some ==> (o.judgement->0.verdict matches Err(
            objection,
        ) ==> guard(from, req, o) == Err::<Seq<CapView>, ErrView>(
            if has_piece(lowercase(objection), "revoked"@) {
                ErrView::Revoked
            } else if has_piece(lowercase(objection), "expired"@) || has_piece(
                lowercase(objection),
                "not yet valid"@,
            ) {
                ErrView::Expired
            } else {
                ErrView::Unauthorized
            },
        )),
{
    if let Some(j) = o.judgement {
        law_guard_lets_through_what_is_entitled(
            lowered_verdict(j.verdict),
            req.drive,
            req.op,
            j.chain,
        );
    }
}

/// What the guard lets through is asked about first: whether the sender that sent it may do what the
/// operation takes, with the chain that the request presents. A request that the guard refuses goes no
/// further than that question.
pub proof fn law_nothing_is_asked_before_the_chain(
    w: Drives,
    root_id: Seq<char>,
    from: Seq<char>,
    req: ReqView,
    o: World,
)
    ensures
        ({
            let s = steps(w, root_id, from, req, o);
            &&& match node_id_of(from) {
                None => s.len() == 1 && s[0] == StepView::Done(Err(ErrView::Unauthorized)),
                Some(id) => {
                    &&& s.len() > 1
                    &&& s[0] matches StepView::Judge { from: sender, cap, ability, .. } && sender
                        == id && cap == req.cap && ability == ability_for(req.op)
                },
            }
            &&& guard(from, req, o) matches Err(e) ==> s.len() <= 2 && s.last() == StepView::Done(
                Err(e),
            ) && served(w, root_id, from, req, o).0 == w
        }),
{
    reveal_with_fuel(steps_from, 3);
    reveal_with_fuel(run, 3);
    law_steps_end_with_the_reply(w, root_id, from, req, o);
    if guard(from, req, o) is Err {
        law_refused_request_changes_nothing(w, root_id, from, req, o);
    } else {
        lemma_steps(w, root_id, from, req, o);
        lemma_steps_end(
            w,
            root_id,
            on_op(w, root_id, guard(from, req, o)->Ok_0, req.drive, req.op),
            o,
        );
    }
}

/// A message gets an answer exactly if its payload is hexadecimal. If the bytes begin with a request, it
/// is taken up as that request, from the sender of the message; if not, the answer says that it could
/// not be decoded.
pub proof fn law_message_is_taken_as_it_reads(
    from: Seq<char>,
    payload: Seq<char>,
    req: ReqView,
    rest: Seq<u8>,
)
    ensures
        on_message(from, payload) is Some <==> is_hex(payload),
        is_hex(payload) && req_fits(req) && hex_bytes(payload) == enc_req(req) + rest ==> on_message(
            from,
            payload,
        ) == Some(on_request(from, req)),
        is_hex(payload) && (forall|q: ReqView, x: Seq<u8>|
            req_fits(q) ==> hex_bytes(payload) != #[trigger] (enc_req(q) + x)) ==> (on_message(
            from,
            payload,
        ) matches Some(StepView::Done(Err(ErrView::Internal(e)))) && begins(e, "decode: "@)),
{
    if is_hex(payload) {
        let b = hex_bytes(payload);
        law_request_canonical(b);
        if req_fits(req) && b == enc_req(req) + rest {
            law_request_read_back(req, rest);
        }
        match get_req(b) {
            Ok((q, x)) => {
                assert(b == enc_req(q) + x);
            },
            Err(e) => {
                let t = "decode: "@ + explanation(e);
                assert(t.take("decode: "@.len() as int) =~= "decode: "@);
            },
        }
    }
}

} // verus!
