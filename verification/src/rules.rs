//! How a host answers: the rule for each step of a request, and what holds of every request.
use vstd::prelude::*;

use crate::cap::{
    ability_for, admission, hex_bytes, is_hex, lowered_verdict, node_id_of, path_of, share_terms,
    CapView,
};
use crate::codec::{
    enc_req, enc_str, enc_u64, explanation, get_req, law_request_read_back, req_fits,
};
use crate::drive::{
    etag, listing_cursor, listing_page, plan, stat, ContentView, FoundView, ItemView, ManifestView,
};
use crate::feed::{cursor_after, last_seq, law_record_is_polled_once, numbered, page};
use crate::path::{norm, root, split};
use crate::step::{
    Addition, AddingView, FetchErrView, FindingView, JudgementView, JudgingView, ListingView,
    MovingView, OpeningView, PlacedView, ReadingView, RecordedView, RemovingView, SnapshotErrView,
    StepView,
};
use crate::tenant::{Drives, TenantView};
use crate::wire::{
    ChangeKindView, ChangeView, ErrView, OkView, OpView, ReplyView, ReqView, CHANGES_PREFIX,
};

verus! {

/// The mode of a file that a client writes.
pub const FILE_MODE: u32 = 0o644;

/// The refusal of an operation that the host does not carry out.
pub const UNSUPPORTED: &'static str = "operation not supported by this host";

/// A request is refused.
pub open spec fn refuse(e: ErrView) -> StepView {
    StepView::Done(Err(e))
}

/// A request has been carried out.
pub open spec fn answer(ok: OkView) -> StepView {
    StepView::Done(Ok(ok))
}

// ----- the rules -----

/// A request arrives: its capability chain is checked, for the ability that the operation requires.
pub open spec fn on_request(from: Seq<char>, req: ReqView) -> StepView {
    match node_id_of(from) {
        None => refuse(ErrView::Unauthorized),
        Some(id) => StepView::Judge {
            from: id,
            cap: req.cap,
            ability: ability_for(req.op),
            next: JudgingView { drive: req.drive, op: req.op },
        },
    }
}

/// A message arrives: what its payload encodes is taken as a request. A payload that is not
/// hexadecimal gets no reply; one that encodes no request is told why.
pub open spec fn on_message(from: Seq<char>, payload: Seq<char>) -> Option<StepView> {
    if !is_hex(payload) {
        None
    } else {
        match get_req(hex_bytes(payload)) {
            Ok((req, _)) => Some(on_request(from, req)),
            Err(e) => Some(refuse(ErrView::Internal("decode: "@ + explanation(e)))),
        }
    }
}

/// The chain has been checked: the request is refused, or the operation starts.
pub open spec fn on_judgement(
    w: Drives,
    root_id: Seq<char>,
    next: JudgingView,
    j: Option<JudgementView>,
) -> StepView {
    match j {
        None => refuse(ErrView::Unauthorized),
        Some(j) => match admission(lowered_verdict(j.verdict), next.drive, next.op, j.chain) {
            Err(e) => refuse(e),
            Ok(_) => on_op(w, root_id, j.chain, next.drive, next.op),
        },
    }
}

/// An operation that the guard let through starts.
pub open spec fn on_op(
    w: Drives,
    root_id: Seq<char>,
    chain: Seq<CapView>,
    drive: Seq<char>,
    op: OpView,
) -> StepView {
    match op {
        OpView::Open => on_open(w, chain, drive),
        OpView::Stat { path } => on_stat(w, root_id, drive, path),
        OpView::List { path, cursor, limit } => on_list(w, drive, path, cursor, limit),
        OpView::Read { path, offset, len } => on_read(w, drive, path, offset, len),
        OpView::Write { path, object_cid, size, base_etag } => on_write(
            w,
            drive,
            path,
            object_cid,
            size,
            base_etag,
        ),
        OpView::Mkdir { path } => on_mkdir(w, drive, path),
        OpView::Move { from, to } => on_move(w, drive, from, to),
        OpView::Copy { from, to } => on_copy(w, drive, from, to),
        OpView::Delete { path, recursive: _ } => on_delete(w, drive, path),
        OpView::Share { path, audience, abilities, caveats } => on_share(
            chain,
            drive,
            path,
            audience,
            abilities,
            caveats.not_after,
        ),
        OpView::Poll { cursor, limit } => on_poll(w, drive, cursor, limit),
        OpView::Watch => on_watch(w, drive),
        OpView::Meta { .. } | OpView::SetProp { .. } | OpView::Tag { .. } | OpView::Link { .. }
        | OpView::Backlinks { .. } | OpView::Versions { .. } => refuse(
            ErrView::Internal(UNSUPPORTED@),
        ),
    }
}

/// `Open`: a snapshot of the drive is published.
pub open spec fn on_open(w: Drives, chain: Seq<CapView>, drive: Seq<char>) -> StepView {
    if !w.contains_key(drive) {
        refuse(ErrView::NotFound)
    } else {
        StepView::Snapshot {
            drive,
            next: OpeningView {
                drive,
                granted: if chain.len() > 0 { chain.last().abilities } else { Seq::empty() },
            },
        }
    }
}

/// `Stat`: the root is known, another path is looked up.
pub open spec fn on_stat(w: Drives, root_id: Seq<char>, drive: Seq<char>, path: Seq<char>) -> StepView {
    if !w.contains_key(drive) {
        refuse(ErrView::NotFound)
    } else if norm(path) == root() {
        answer(OkView::Entry(stat(path, root_id, None)->0))
    } else {
        StepView::Lookup { drive, path: norm(path), next: FindingView::Stat { path } }
    }
}

/// `List`: the directory is listed.
pub open spec fn on_list(
    w: Drives,
    drive: Seq<char>,
    path: Seq<char>,
    cursor: Option<Seq<char>>,
    limit: u32,
) -> StepView {
    if !w.contains_key(drive) {
        refuse(ErrView::NotFound)
    } else {
        StepView::List { drive, path, next: ListingView { path, cursor, limit } }
    }
}

/// `Read`: the path is looked up.
pub open spec fn on_read(
    w: Drives,
    drive: Seq<char>,
    path: Seq<char>,
    offset: u64,
    len: Option<u64>,
) -> StepView {
    if !w.contains_key(drive) {
        refuse(ErrView::NotFound)
    } else {
        StepView::Lookup { drive, path: norm(path), next: FindingView::Read { offset, len } }
    }
}

/// `Write`: the path, which is not the root, is looked up.
pub open spec fn on_write(
    w: Drives,
    drive: Seq<char>,
    path: Seq<char>,
    object_cid: Seq<char>,
    size: u64,
    base_etag: Option<Seq<char>>,
) -> StepView {
    match split(path) {
        None => refuse(ErrView::BadPath),
        Some((parent, name)) => if !w.contains_key(drive) {
            refuse(ErrView::NotFound)
        } else {
            StepView::Lookup {
                drive,
                path: norm(path),
                next: FindingView::Write {
                    drive,
                    path: norm(path),
                    parent,
                    name,
                    object_cid,
                    size,
                    base_etag,
                },
            }
        },
    }
}

/// `Mkdir`: the directory, which is not the root, is made.
pub open spec fn on_mkdir(w: Drives, drive: Seq<char>, path: Seq<char>) -> StepView {
    match split(path) {
        None => refuse(ErrView::BadPath),
        Some((parent, name)) => if !w.contains_key(drive) {
            refuse(ErrView::NotFound)
        } else {
            StepView::Mkdir {
                drive,
                parent,
                name,
                next: AddingView { drive, path: norm(path), why: Addition::Make },
            }
        },
    }
}

/// `Move`: the source is looked up; the destination is not the root.
pub open spec fn on_move(w: Drives, drive: Seq<char>, from: Seq<char>, to: Seq<char>) -> StepView {
    match split(to) {
        None => refuse(ErrView::BadPath),
        Some((parent, name)) => if !w.contains_key(drive) {
            refuse(ErrView::NotFound)
        } else {
            StepView::Lookup {
                drive,
                path: norm(from),
                next: FindingView::Move { drive, from: norm(from), to: norm(to), parent, name },
            }
        },
    }
}

/// `Copy`: the source is looked up; the destination is not the root.
pub open spec fn on_copy(w: Drives, drive: Seq<char>, from: Seq<char>, to: Seq<char>) -> StepView {
    match split(to) {
        None => refuse(ErrView::BadPath),
        Some((parent, name)) => if !w.contains_key(drive) {
            refuse(ErrView::NotFound)
        } else {
            StepView::Lookup {
                drive,
                path: norm(from),
                next: FindingView::Copy { drive, to: norm(to), parent, name },
            }
        },
    }
}

/// `Delete`: the path is looked up.
pub open spec fn on_delete(w: Drives, drive: Seq<char>, path: Seq<char>) -> StepView {
    if !w.contains_key(drive) {
        refuse(ErrView::NotFound)
    } else {
        StepView::Lookup {
            drive,
            path: norm(path),
            next: FindingView::Delete { drive, path: norm(path) },
        }
    }
}

/// `Share`: the terms are worked out and signed.
pub open spec fn on_share(
    chain: Seq<CapView>,
    drive: Seq<char>,
    path: Seq<char>,
    audience: Seq<char>,
    abilities: Seq<Seq<char>>,
    not_after: u64,
) -> StepView {
    match share_terms(chain, drive, path, audience, abilities, not_after) {
        Err(e) => refuse(e),
        Ok(mint) => StepView::Sign { mint },
    }
}

/// `Poll`: the page of the feed after the cursor.
pub open spec fn on_poll(w: Drives, drive: Seq<char>, cursor: Option<u64>, limit: u32) -> StepView {
    if !w.contains_key(drive) {
        refuse(ErrView::NotFound)
    } else {
        let from = if cursor is Some { cursor->0 } else { 0 };
        let changes = page(w[drive].feed, from, limit as nat);
        answer(OkView::Changes { changes, new_cursor: cursor_after(changes, from) })
    }
}

/// The topic of a drive's change beacons.
pub open spec fn beacon_topic(drive: Seq<char>) -> Seq<char> {
    CHANGES_PREFIX@ + drive
}

/// `Watch`: the topic of the drive's beacons, and where its feed is.
pub open spec fn on_watch(w: Drives, drive: Seq<char>) -> StepView {
    if !w.contains_key(drive) {
        refuse(ErrView::NotFound)
    } else {
        answer(
            OkView::Watching { topic: beacon_topic(drive), cursor: last_seq(w[drive].feed) },
        )
    }
}

/// The snapshot has been published, or not.
pub open spec fn on_snapshot(
    w: Drives,
    next: OpeningView,
    r: Result<Seq<char>, SnapshotErrView>,
) -> (Drives, StepView) {
    match r {
        Err(SnapshotErrView::Encode(e)) => (w, refuse(ErrView::Internal(e))),
        Err(SnapshotErrView::Store(e)) => (
            w,
            refuse(ErrView::Internal("snapshot publish: "@ + e)),
        ),
        Ok(cid) => if !w.contains_key(next.drive) {
            (w, refuse(ErrView::NotFound))
        } else {
            let t = w[next.drive];
            let at = last_seq(t.feed);
            (
                w.insert(next.drive, TenantView { snapshot: Some((cid, at)), ..t }),
                answer(
                    OkView::Opened {
                        drive_root_cid: cid,
                        server_seq: at,
                        granted_abilities: next.granted,
                        quota: t.quota,
                    },
                ),
            )
        },
    }
}

/// The path has been looked up.
pub open spec fn on_found(
    root_id: Seq<char>,
    next: FindingView,
    found: Option<FoundView>,
) -> StepView {
    match next {
        FindingView::Stat { path } => match stat(path, root_id, found) {
            None => refuse(ErrView::NotFound),
            Some(e) => answer(OkView::Entry(e)),
        },
        FindingView::Read { offset, len } => match found {
            Some(f) => match f.content {
                Some(c) => StepView::Fetch {
                    cid: c.cid,
                    next: ReadingView { cid: c.cid, offset, len },
                },
                None => refuse(ErrView::NotFound),
            },
            None => refuse(ErrView::NotFound),
        },
        FindingView::Write { drive, path, parent, name, object_cid, size, base_etag } => if found is Some
            && base_etag is Some && base_etag->0 != etag(found->0.content, found->0.node_id) {
            refuse(
                ErrView::Conflict { current_etag: etag(found->0.content, found->0.node_id) },
            )
        } else {
            StepView::AddFile {
                drive,
                parent,
                name,
                cid: object_cid,
                size,
                mode: FILE_MODE,
                next: AddingView { drive, path, why: Addition::Write },
            }
        },
        FindingView::Move { drive, from, to, parent, name } => match found {
            Some(f) => StepView::Move {
                drive,
                from,
                parent,
                name,
                next: MovingView { drive, from, to, node_id: f.node_id },
            },
            None => refuse(ErrView::NotFound),
        },
        FindingView::Copy { drive, to, parent, name } => match found {
            Some(f) => match f.content {
                Some(c) => StepView::AddFile {
                    drive,
                    parent,
                    name,
                    cid: c.cid,
                    size: c.size,
                    mode: c.mode,
                    next: AddingView { drive, path: to, why: Addition::Make },
                },
                None => refuse(ErrView::NotFound),
            },
            None => refuse(ErrView::NotFound),
        },
        FindingView::Delete { drive, path } => match found {
            Some(f) => StepView::Remove {
                drive,
                path,
                next: RemovingView { drive, path, node_id: f.node_id },
            },
            None => refuse(ErrView::NotFound),
        },
    }
}

/// The directory has been listed.
pub open spec fn on_listed(next: ListingView, items: Option<Seq<ItemView>>) -> StepView {
    match items {
        None => refuse(ErrView::NotFound),
        Some(items) => answer(
            OkView::Listing {
                entries: listing_page(items, norm(next.path), next.cursor, next.limit),
                next_cursor: listing_cursor(items, norm(next.path), next.cursor, next.limit),
            },
        ),
    }
}

/// The manifest has been fetched, or not.
pub open spec fn on_fetched(next: ReadingView, r: Result<ManifestView, FetchErrView>) -> StepView {
    match r {
        Err(FetchErrView::Missing) => refuse(ErrView::NotFound),
        Err(FetchErrView::Decode(e)) => refuse(ErrView::Internal("manifest decode: "@ + e)),
        Ok(m) => answer(OkView::ReadPlan(plan(next.cid, m, next.offset, next.len))),
    }
}

/// The number of the next change of a drive.
pub open spec fn next_seq(w: Drives, drive: Seq<char>) -> u64 {
    (w[drive].feed.len() + 1) as u64
}

/// A change is put into the feed of a drive, and then has to be written to disk.
pub open spec fn record(
    w: Drives,
    drive: Seq<char>,
    path: Seq<char>,
    node_id: Seq<char>,
    kind: ChangeKindView,
    etag: Seq<char>,
    ok: OkView,
) -> (Drives, StepView) {
    if !w.contains_key(drive) {
        (w, refuse(ErrView::NotFound))
    } else {
        let t = w[drive];
        let seq = next_seq(w, drive);
        let feed = t.feed.push(ChangeView { seq, path, node_id, kind, etag });
        (
            w.insert(drive, TenantView { feed, ..t }),
            StepView::Persist { drive, next: RecordedView { drive, seq, ok } },
        )
    }
}

/// A node has been added, or not.
pub open spec fn on_added(w: Drives, next: AddingView, r: Result<PlacedView, Seq<char>>) -> (
    Drives,
    StepView,
) {
    match r {
        Err(e) => (w, refuse(ErrView::Internal(e))),
        Ok(p) => {
            let tag = etag(p.content, p.node_id);
            match next.why {
                Addition::Write => record(
                    w,
                    next.drive,
                    next.path,
                    p.node_id,
                    ChangeKindView::Modified,
                    tag,
                    OkView::Written {
                        etag: tag,
                        node_id: p.node_id,
                        version_seq: next_seq(w, next.drive),
                    },
                ),
                Addition::Make => record(
                    w,
                    next.drive,
                    next.path,
                    p.node_id,
                    ChangeKindView::Created,
                    tag,
                    OkView::Made { node_id: p.node_id },
                ),
            }
        },
    }
}

/// A node has been moved, or not; its content is what the content map now holds.
pub open spec fn on_moved(w: Drives, next: MovingView, r: Result<Option<ContentView>, Seq<char>>) -> (
    Drives,
    StepView,
) {
    match r {
        Err(e) => (w, refuse(ErrView::Internal(e))),
        Ok(content) => record(
            w,
            next.drive,
            next.to,
            next.node_id,
            ChangeKindView::Moved { from: next.from },
            etag(content, next.node_id),
            OkView::Made { node_id: next.node_id },
        ),
    }
}

/// A node has been removed, or not.
pub open spec fn on_removed(w: Drives, next: RemovingView, r: Result<(), Seq<char>>) -> (
    Drives,
    StepView,
) {
    match r {
        Err(e) => (w, refuse(ErrView::Internal(e))),
        Ok(()) => record(
            w,
            next.drive,
            next.path,
            next.node_id,
            ChangeKindView::Deleted,
            Seq::empty(),
            OkView::Deleted,
        ),
    }
}

/// The bytes of a beacon: the drive, and the newest change it has.
pub open spec fn beacon_bytes(drive: Seq<char>, seq: u64) -> Seq<u8> {
    enc_str(drive) + enc_u64(seq)
}

/// The state has been written to disk, or not. A change that is not on disk is not acknowledged.
pub open spec fn on_persisted(next: RecordedView, r: Result<(), Seq<char>>) -> StepView {
    match r {
        Err(e) => refuse(ErrView::Internal(e)),
        Ok(()) => StepView::Publish {
            topic: beacon_topic(next.drive),
            bytes: beacon_bytes(next.drive, next.seq),
            next: next.ok,
        },
    }
}

/// A capability has been signed, or not.
pub open spec fn on_signed(r: Result<Seq<char>, Seq<char>>) -> StepView {
    match r {
        Err(e) => refuse(ErrView::Internal(e)),
        Ok(chain) => answer(OkView::Shared { chain }),
    }
}

// ----- a whole request -----

/// What the outside world says to each thing that a request may ask of it. A request asks each at
/// most once.
pub struct World {
    pub judgement: Option<JudgementView>,
    pub snapshot: Result<Seq<char>, SnapshotErrView>,
    pub found: Option<FoundView>,
    pub items: Option<Seq<ItemView>>,
    pub manifest: Result<ManifestView, FetchErrView>,
    pub placed: Result<PlacedView, Seq<char>>,
    pub moved: Result<Option<ContentView>, Seq<char>>,
    pub removed: Result<(), Seq<char>>,
    pub persisted: Result<(), Seq<char>>,
    pub signed: Result<Seq<char>, Seq<char>>,
}

/// The step after `step`, and the drives after it.
pub open spec fn advance(w: Drives, root_id: Seq<char>, step: StepView, o: World) -> (
    Drives,
    StepView,
) {
    match step {
        StepView::Judge { next, .. } => (w, on_judgement(w, root_id, next, o.judgement)),
        StepView::Snapshot { next, .. } => on_snapshot(w, next, o.snapshot),
        StepView::Lookup { next, .. } => (w, on_found(root_id, next, o.found)),
        StepView::List { next, .. } => (w, on_listed(next, o.items)),
        StepView::Fetch { next, .. } => (w, on_fetched(next, o.manifest)),
        StepView::AddFile { next, .. } => on_added(w, next, o.placed),
        StepView::Mkdir { next, .. } => on_added(w, next, o.placed),
        StepView::Move { next, .. } => on_moved(w, next, o.moved),
        StepView::Remove { next, .. } => on_removed(w, next, o.removed),
        StepView::Persist { next, .. } => (w, on_persisted(next, o.persisted)),
        StepView::Publish { next, .. } => (w, answer(next)),
        StepView::Sign { .. } => (w, on_signed(o.signed)),
        StepView::Done(reply) => (w, StepView::Done(reply)),
    }
}

/// How many steps there can be after a step.
pub open spec fn ahead(step: StepView) -> nat {
    match step {
        StepView::Judge { .. } => 5,
        StepView::Lookup { .. } => 4,
        StepView::AddFile { .. } | StepView::Mkdir { .. } | StepView::Move { .. }
        | StepView::Remove { .. } => 3,
        StepView::Persist { .. } => 2,
        StepView::Snapshot { .. } | StepView::List { .. } | StepView::Fetch { .. }
        | StepView::Publish { .. } | StepView::Sign { .. } => 1,
        StepView::Done(_) => 0,
    }
}

/// The drives and the reply when a step has been followed to the end.
pub open spec fn run(w: Drives, root_id: Seq<char>, step: StepView, o: World) -> (Drives, ReplyView)
    decreases ahead(step),
{
    match step {
        StepView::Done(reply) => (w, reply),
        _ => {
            let (v, after) = advance(w, root_id, step, o);
            run(v, root_id, after, o)
        },
    }
}

/// The drives and the reply after a request.
pub open spec fn served(w: Drives, root_id: Seq<char>, from: Seq<char>, req: ReqView, o: World) -> (
    Drives,
    ReplyView,
) {
    run(w, root_id, on_request(from, req), o)
}

// ----- what holds of every request -----

/// Whether an operation changes a drive.
pub open spec fn mutates(op: OpView) -> bool {
    op is Write || op is Mkdir || op is Move || op is Copy || op is Delete
}

/// The answer of everything that stands before the operation: the chain, or the refusal.
pub open spec fn guard(from: Seq<char>, req: ReqView, o: World) -> Result<Seq<CapView>, ErrView> {
    match (node_id_of(from), o.judgement) {
        (Some(_), Some(j)) => match admission(
            lowered_verdict(j.verdict),
            req.drive,
            req.op,
            j.chain,
        ) {
            Ok(_) => Ok(j.chain),
            Err(e) => Err(e),
        },
        _ => Err(ErrView::Unauthorized),
    }
}

/// A request that the guard refuses is answered with that refusal, and no drive changes.
pub proof fn law_refused_request_changes_nothing(
    w: Drives,
    root_id: Seq<char>,
    from: Seq<char>,
    req: ReqView,
    o: World,
)
    requires
        guard(from, req, o) is Err,
    ensures
        served(w, root_id, from, req, o) == (w, Err::<OkView, ErrView>(guard(from, req, o)->Err_0)),
{
    reveal_with_fuel(run, 3);
}

/// A request that passes the guard is served by carrying out its operation.
pub proof fn lemma_served(w: Drives, root_id: Seq<char>, from: Seq<char>, req: ReqView, o: World)
    requires
        guard(from, req, o) is Ok,
    ensures
        served(w, root_id, from, req, o) == run(
            w,
            root_id,
            on_op(w, root_id, guard(from, req, o)->Ok_0, req.drive, req.op),
            o,
        ),
{
    reveal_with_fuel(run, 2);
}

/// The drives after one more change of `drive`.
pub open spec fn with_change(w: Drives, drive: Seq<char>, c: ChangeView) -> Drives {
    w.insert(drive, TenantView { feed: w[drive].feed.push(c), ..w[drive] })
}

/// The kind of change that an operation makes.
pub open spec fn kind_of(op: OpView) -> ChangeKindView {
    match op {
        OpView::Write { .. } => ChangeKindView::Modified,
        OpView::Move { from, .. } => ChangeKindView::Moved { from: norm(from) },
        OpView::Delete { .. } => ChangeKindView::Deleted,
        _ => ChangeKindView::Created,
    }
}

/// A change of a drive is acknowledged only when it is in the drive's feed, under the next number
/// and with the path it was made at, and the state has been written to disk. Nothing else changes.
pub proof fn law_acknowledged_change_is_recorded(
    w: Drives,
    root_id: Seq<char>,
    from: Seq<char>,
    req: ReqView,
    o: World,
) -> (c: ChangeView)
    requires
        mutates(req.op),
        served(w, root_id, from, req, o).1 is Ok,
    ensures
        o.persisted is Ok,
        w.contains_key(req.drive),
        c.seq == next_seq(w, req.drive),
        Some(c.path) == (match path_of(req.op) {
            Some(p) => Some(norm(p)),
            None => None,
        }),
        c.kind == kind_of(req.op),
        served(w, root_id, from, req, o).0 == with_change(w, req.drive, c),
{
    if guard(from, req, o) is Err {
        law_refused_request_changes_nothing(w, root_id, from, req, o);
    } else {
        lemma_served(w, root_id, from, req, o);
        reveal_with_fuel(run, 5);
    }
    served(w, root_id, from, req, o).0[req.drive].feed.last()
}

/// If the state cannot be written to disk, no change is acknowledged; and if the change had been
/// made by then, the caller is told why.
pub proof fn law_unwritten_change_is_refused(
    w: Drives,
    root_id: Seq<char>,
    from: Seq<char>,
    req: ReqView,
    o: World,
)
    requires
        mutates(req.op),
        o.persisted is Err,
    ensures
        served(w, root_id, from, req, o).1 is Err,
        served(w, root_id, from, req, o).0 != w ==> served(w, root_id, from, req, o).1 == Err::<
            OkView,
            ErrView,
        >(ErrView::Internal(o.persisted->Err_0)),
{
    if guard(from, req, o) is Err {
        law_refused_request_changes_nothing(w, root_id, from, req, o);
    } else {
        lemma_served(w, root_id, from, req, o);
        reveal_with_fuel(run, 5);
    }
}

/// An operation that is no change leaves every drive as it was; opening one notes its snapshot and
/// leaves its feed and its terms.
pub proof fn law_reading_changes_no_feed(
    w: Drives,
    root_id: Seq<char>,
    from: Seq<char>,
    req: ReqView,
    o: World,
    d: Seq<char>,
)
    requires
        !mutates(req.op),
    ensures
        ({
            let v = served(w, root_id, from, req, o).0;
            &&& !(req.op is Open) ==> v == w
            &&& v.contains_key(d) == w.contains_key(d)
            &&& w.contains_key(d) ==> v[d].feed == w[d].feed && v[d].quota == w[d].quota
        }),
{
    if guard(from, req, o) is Err {
        law_refused_request_changes_nothing(w, root_id, from, req, o);
    } else {
        lemma_served(w, root_id, from, req, o);
        reveal_with_fuel(run, 5);
    }
}

/// What a change that passed the guard does to the drives: nothing, or one more change of the named
/// drive, under the next number.
proof fn lemma_effect(w: Drives, root_id: Seq<char>, from: Seq<char>, req: ReqView, o: World) -> (c:
    Option<ChangeView>)
    requires
        mutates(req.op),
        guard(from, req, o) is Ok,
    ensures
        match c {
            None => served(w, root_id, from, req, o).0 == w,
            Some(c) => w.contains_key(req.drive) && c.seq == next_seq(w, req.drive) && served(
                w,
                root_id,
                from,
                req,
                o,
            ).0 == with_change(w, req.drive, c),
        },
{
    lemma_served(w, root_id, from, req, o);
    match req.op {
        OpView::Write { .. } => {
            reveal_with_fuel(run, 5);
        },
        OpView::Mkdir { .. } => {
            reveal_with_fuel(run, 5);
        },
        OpView::Move { .. } => {
            reveal_with_fuel(run, 5);
        },
        OpView::Copy { .. } => {
            reveal_with_fuel(run, 5);
        },
        _ => {
            reveal_with_fuel(run, 5);
        },
    }
    if served(w, root_id, from, req, o).0 == w {
        None
    } else {
        Some(served(w, root_id, from, req, o).0[req.drive].feed.last())
    }
}

/// A request leaves every drive but the one it names as it was.
pub proof fn law_only_the_named_drive_changes(
    w: Drives,
    root_id: Seq<char>,
    from: Seq<char>,
    req: ReqView,
    o: World,
    d: Seq<char>,
)
    requires
        d != req.drive,
    ensures
        served(w, root_id, from, req, o).0.contains_key(d) == w.contains_key(d),
        w.contains_key(d) ==> served(w, root_id, from, req, o).0[d] == w[d],
{
    if guard(from, req, o) is Err {
        law_refused_request_changes_nothing(w, root_id, from, req, o);
    } else if mutates(req.op) {
        let _ = lemma_effect(w, root_id, from, req, o);
    } else if req.op is Open {
        lemma_served(w, root_id, from, req, o);
        reveal_with_fuel(run, 3);
    } else {
        law_reading_changes_no_feed(w, root_id, from, req, o, d);
    }
}

/// Feeds that are numbered without a gap stay so.
pub proof fn law_feeds_stay_numbered(
    w: Drives,
    root_id: Seq<char>,
    from: Seq<char>,
    req: ReqView,
    o: World,
    d: Seq<char>,
)
    requires
        w.contains_key(d),
        numbered(w[d].feed),
        w[d].feed.len() < u64::MAX,
    ensures
        numbered(served(w, root_id, from, req, o).0[d].feed),
{
    if guard(from, req, o) is Err {
        law_refused_request_changes_nothing(w, root_id, from, req, o);
    } else if mutates(req.op) {
        let _ = lemma_effect(w, root_id, from, req, o);
    } else {
        law_reading_changes_no_feed(w, root_id, from, req, o, d);
    }
}

/// A client that had seen all of a drive's feed sees an acknowledged change, and only that, when it
/// polls next.
pub proof fn law_acknowledged_change_is_polled(
    w: Drives,
    root_id: Seq<char>,
    from: Seq<char>,
    req: ReqView,
    o: World,
    limit: nat,
) -> (c: ChangeView)
    requires
        mutates(req.op),
        served(w, root_id, from, req, o).1 is Ok,
        numbered(w[req.drive].feed),
        w[req.drive].feed.len() < u64::MAX,
    ensures
        c.kind == kind_of(req.op),
        page(
            served(w, root_id, from, req, o).0[req.drive].feed,
            last_seq(w[req.drive].feed),
            limit,
        ) == seq![c],
{
    let c = law_acknowledged_change_is_recorded(w, root_id, from, req, o);
    law_feeds_stay_numbered(w, root_id, from, req, o, req.drive);
    law_record_is_polled_once(w[req.drive].feed, c, limit);
    c
}

/// A write that is based on another version than the current one is refused with the current etag,
/// and no drive changes.
pub proof fn law_stale_write_conflicts(
    w: Drives,
    root_id: Seq<char>,
    from: Seq<char>,
    req: ReqView,
    o: World,
)
    requires
        guard(from, req, o) is Ok,
        w.contains_key(req.drive),
        o.found is Some,
        req.op matches OpView::Write { path, base_etag: Some(base), .. } && split(path) is Some
            && base != etag(o.found->0.content, o.found->0.node_id),
    ensures
        served(w, root_id, from, req, o) == (
            w,
            Err::<OkView, ErrView>(
                ErrView::Conflict { current_etag: etag(o.found->0.content, o.found->0.node_id) },
            ),
        ),
{
    lemma_served(w, root_id, from, req, o);
    reveal_with_fuel(run, 3);
}

/// A write that is not stale, that the tree takes and that reaches the disk is acknowledged with
/// the etag of the new version: the etag to base the next write on.
pub proof fn law_current_write_is_acknowledged(
    w: Drives,
    root_id: Seq<char>,
    from: Seq<char>,
    req: ReqView,
    o: World,
)
    requires
        guard(from, req, o) is Ok,
        w.contains_key(req.drive),
        req.op matches OpView::Write { path, base_etag, .. } && split(path) is Some && (o.found is Some
            && base_etag is Some ==> base_etag->0 == etag(o.found->0.content, o.found->0.node_id)),
        o.placed is Ok,
        o.persisted is Ok,
    ensures
        served(w, root_id, from, req, o).1 == Ok::<OkView, ErrView>(
            OkView::Written {
                etag: etag(o.placed->Ok_0.content, o.placed->Ok_0.node_id),
                node_id: o.placed->Ok_0.node_id,
                version_seq: next_seq(w, req.drive),
            },
        ),
{
    lemma_served(w, root_id, from, req, o);
    reveal_with_fuel(run, 5);
}

/// No request is worked on before its capability chain has been checked for the ability that the
/// operation requires: the first step is that check, or the refusal of a sender without an id.
pub proof fn law_every_request_is_judged_first(from: Seq<char>, req: ReqView)
    ensures
        match on_request(from, req) {
            StepView::Judge { from: id, cap, ability, next } => node_id_of(from) == Some(id) && cap
                == req.cap && ability == ability_for(req.op) && next.drive == req.drive && next.op
                == req.op,
            step => node_id_of(from) is None && step == refuse(ErrView::Unauthorized),
        },
{
}

/// A read is answered with the chunks to fetch, never with bytes: the plan for the object that the
/// path is bound to.
pub proof fn law_read_is_answered_with_a_plan(
    w: Drives,
    root_id: Seq<char>,
    from: Seq<char>,
    req: ReqView,
    o: World,
)
    requires
        req.op is Read,
        served(w, root_id, from, req, o).1 is Ok,
    ensures
        o.manifest is Ok,
        o.found is Some,
        o.found->0.content is Some,
        req.op matches OpView::Read { offset, len, .. } && served(w, root_id, from, req, o).1 == Ok::<
            OkView,
            ErrView,
        >(OkView::ReadPlan(plan(o.found->0.content->0.cid, o.manifest->Ok_0, offset, len))),
{
    if guard(from, req, o) is Err {
        law_refused_request_changes_nothing(w, root_id, from, req, o);
    } else {
        lemma_served(w, root_id, from, req, o);
        reveal_with_fuel(run, 4);
    }
}

/// A message whose payload is the encoding of a request, in hexadecimal, is taken as that request.
pub proof fn law_encoded_request_is_dispatched(from: Seq<char>, payload: Seq<char>, req: ReqView)
    requires
        req_fits(req),
        is_hex(payload),
        hex_bytes(payload) == enc_req(req),
    ensures
        on_message(from, payload) == Some(on_request(from, req)),
{
    law_request_read_back(req, Seq::empty());
    assert(enc_req(req) + Seq::<u8>::empty() =~= enc_req(req));
}

} // verus!
