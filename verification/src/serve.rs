//! The host: authorize each request against the presented capability chain, carry it out on the
//! [`Registry`], and reply.
//!
//! Every request passes one guard before any work: the verdict of the capability verifier, then the
//! drive and subtree that the leaf capability is bound to, with a `..` guard. No ACL table, no
//! per-file permission row — authorization is a pure local function of the chain.
//!
//! A request is answered in [`Step`]s; what has to be done outside (and how it went) passes between
//! the caller and the methods here. What each method answers is laid down in [`crate::rules`].
use vstd::prelude::*;
use vstd::string::*;

use crate::cap::{
    authorize_req, decode_hex, parse_node_id, required_ability, share, Capability,
    NodeId,
};
use crate::codec::{decode_req, encode_beacon};
use crate::drive::{
    etag_for, list_page, read_plan, stat_entry, Content, DirItem, Found, Manifest,
};
use crate::path::{norm_path, root, split_path};
use crate::rules::{
    answer, on_added, on_copy, on_delete, on_fetched, on_found, on_judgement,
    on_list, on_listed, on_message, on_mkdir, on_move, on_moved, on_op, on_open, on_persisted, on_poll,
    on_read, on_removed, on_request, on_share, on_signed, on_snapshot, on_stat, on_watch, on_write,
    record, refuse, FILE_MODE, UNSUPPORTED,
};
use crate::step::{
    outcome, Adding, Addition, FetchErr, Finding, Judgement, Judging, Listing, Moving, Opening,
    Placed, Reading, Recorded, Removing, SnapshotErr, Step,
};
use crate::tenant::{Drives, Registry};
use crate::text::{cat, copy_strings, same};
use crate::wire::{
    changes_topic, Beacon, ChangeKind, DriveErr, DriveOk, DriveOp, DriveReply, DriveReq,
    ShareCaveats,
};

verus! {

/// The state of a host.
#[derive(Debug)]
pub struct DriveServer {
    pub registry: Registry,
    /// The host's own key, the root of every capability.
    pub host_id: NodeId,
    /// Extra root keys honored besides the host's own.
    pub accepted_roots: Vec<NodeId>,
    /// The node id that drives give their root directory.
    pub root_id: String,
}

fn refused(e: DriveErr) -> (r: Step)
    ensures
        r.deep_view() == refuse(e.deep_view()),
{
    Step::Done(DriveReply::err(e))
}

fn answered(ok: DriveOk) -> (r: Step)
    ensures
        r.deep_view() == answer(ok.deep_view()),
{
    Step::Done(DriveReply::ok(ok))
}

impl DriveServer {
    /// The drives that are served, by id.
    pub open spec fn drives(self) -> Drives {
        self.registry@
    }

    /// The registry is well-formed.
    pub open spec fn wf(self) -> bool {
        self.registry.wf()
    }

    /// Whether two states differ at most in their drives.
    pub open spec fn same_host(self, other: Self) -> bool {
        &&& self.registry.host() == other.registry.host()
        &&& self.host_id == other.host_id
        &&& self.accepted_roots == other.accepted_roots
        &&& self.root_id == other.root_id
    }

    /// A server hosting the drives in `registry`, with the host key `host_id`. `accepted_roots` are
    /// extra root keys honored besides the host's own key.
    pub fn new(registry: Registry, host_id: NodeId, accepted_roots: Vec<NodeId>, root_id: String) -> (r:
        Self)
        requires
            registry.wf(),
        ensures
            r.wf(),
            r.registry == registry,
            r.host_id == host_id,
            r.accepted_roots == accepted_roots,
            r.root_id == root_id,
    {
        DriveServer { registry, host_id, accepted_roots, root_id }
    }

    /// The registry handle (to create drives).
    pub fn registry(&mut self) -> (r: &mut Registry)
        ensures
            *r == old(self).registry,
            final(self).registry == *final(r),
            final(self).host_id == old(self).host_id,
            final(self).accepted_roots == old(self).accepted_roots,
            final(self).root_id == old(self).root_id,
    {
        &mut self.registry
    }

    /// Decode and dispatch one request, given as a message from `from_hex`. A payload that is not
    /// hexadecimal gets no reply.
    pub fn handle_message(&self, from_hex: &str, payload_hex: &str) -> (r: Option<Step>)
        ensures
            r.deep_view() == on_message(from_hex@, payload_hex@),
    {
        match decode_hex(payload_hex) {
            None => None,
            Some(payload) => match decode_req(payload.as_slice()) {
                Ok(req) => Some(self.dispatch(from_hex, req)),
                Err(e) => Some(
                    refused(DriveErr::Internal(cat("decode: ", e.message().as_str()))),
                ),
            },
        }
    }

    /// Start on one decoded request: its capability chain has to be checked before any work. This
    /// is the single entry point of every request.
    pub fn dispatch(&self, from_hex: &str, req: DriveReq) -> (r: Step)
        ensures
            r.deep_view() == on_request(from_hex@, req.deep_view()),
    {
        match parse_node_id(from_hex) {
            None => refused(DriveErr::Unauthorized),
            Some(from) => {
                let ability = required_ability(&req.op);
                Step::Judge {
                    from,
                    cap: req.cap,
                    ability,
                    next: Judging { drive: req.drive, op: req.op },
                }
            },
        }
    }

    /// Go on when the capability chain has been checked: refuse, or start the operation.
    /// `judgement` is nothing if the chain could not be decoded.
    pub fn judged(&self, next: Judging, judgement: Option<Judgement>) -> (r: Step)
        requires
            self.wf(),
        ensures
            r.deep_view() == on_judgement(
                self.drives(),
                self.root_id@,
                next.deep_view(),
                judgement.deep_view(),
            ),
    {
        match judgement {
            None => refused(DriveErr::Unauthorized),
            Some(j) => match authorize_req(&j.verdict, next.drive.as_str(), &next.op, &j.chain) {
                Err(e) => refused(e),
                Ok(_) => self.dispatch_inner(&j.chain, next.drive.as_str(), next.op),
            },
        }
    }

    /// The op handlers (authorization already passed).
    fn dispatch_inner(&self, chain: &Vec<Capability>, drive_id: &str, op: DriveOp) -> (r: Step)
        requires
            self.wf(),
        ensures
            r.deep_view() == on_op(
                self.drives(),
                self.root_id@,
                chain.deep_view(),
                drive_id@,
                op.deep_view(),
            ),
    {
        match op {
            DriveOp::Open => self.op_open(drive_id, chain),
            DriveOp::Stat { path } => self.op_stat(drive_id, path),
            DriveOp::List { path, cursor, limit } => self.op_list(drive_id, path, cursor, limit),
            DriveOp::Read { path, offset, len } => self.op_read(drive_id, path.as_str(), offset, len),
            DriveOp::Write { path, object_cid, size, base_etag } => self.op_write(
                drive_id,
                path.as_str(),
                object_cid,
                size,
                base_etag,
            ),
            DriveOp::Mkdir { path } => self.op_mkdir(drive_id, path.as_str()),
            DriveOp::Move { from, to } => self.op_move(drive_id, from.as_str(), to.as_str()),
            DriveOp::Copy { from, to } => self.op_copy(drive_id, from.as_str(), to.as_str()),
            DriveOp::Delete { path, recursive: _ } => self.op_delete(drive_id, path.as_str()),
            DriveOp::Share { path, audience, abilities, caveats } => self.op_share(
                drive_id,
                chain,
                path.as_str(),
                audience.as_str(),
                &abilities,
                &caveats,
            ),
            DriveOp::Poll { cursor, limit } => self.op_poll(drive_id, cursor, limit),
            DriveOp::Watch => self.op_watch(drive_id),
            DriveOp::Meta { .. }
            | DriveOp::SetProp { .. }
            | DriveOp::Tag { .. }
            | DriveOp::Link { .. }
            | DriveOp::Backlinks { .. }
            | DriveOp::Versions { .. } => refused(DriveErr::Internal(UNSUPPORTED.to_owned())),
        }
    }

    // ----- handlers -----

    fn op_open(&self, drive_id: &str, chain: &Vec<Capability>) -> (r: Step)
        requires
            self.wf(),
        ensures
            r.deep_view() == on_open(self.drives(), chain.deep_view(), drive_id@),
    {
        match self.registry.get(drive_id) {
            None => refused(DriveErr::NotFound),
            Some(_) => {
                let n: usize = chain.len();
                let granted = if n > 0 {
                    assert(chain.deep_view().last() == chain@[n - 1].deep_view());
                    copy_strings(&chain[n - 1].abilities)
                } else {
                    Vec::new()
                };
                assert(granted.deep_view() =~= if n > 0 {
                    chain.deep_view().last().abilities
                } else {
                    Seq::empty()
                });
                Step::Snapshot {
                    drive: drive_id.to_owned(),
                    next: Opening { drive: drive_id.to_owned(), granted },
                }
            },
        }
    }

    fn op_stat(&self, drive_id: &str, path: String) -> (r: Step)
        requires
            self.wf(),
        ensures
            r.deep_view() == on_stat(self.drives(), self.root_id@, drive_id@, path@),
    {
        match self.registry.get(drive_id) {
            None => refused(DriveErr::NotFound),
            Some(_) => {
                let n = norm_path(path.as_str());
                proof {
                    reveal_strlit("/");
                    assert("/"@ =~= root());
                }
                if same(n.as_str(), "/") {
                    match stat_entry(path.as_str(), self.root_id.as_str(), &None) {
                        Some(e) => answered(DriveOk::Entry(e)),
                        None => refused(DriveErr::NotFound),
                    }
                } else {
                    Step::Lookup {
                        drive: drive_id.to_owned(),
                        path: n,
                        next: Finding::Stat { path },
                    }
                }
            },
        }
    }

    fn op_list(&self, drive_id: &str, path: String, cursor: Option<String>, limit: u32) -> (r: Step)
        requires
            self.wf(),
        ensures
            r.deep_view() == on_list(self.drives(), drive_id@, path@, cursor.deep_view(), limit),
    {
        match self.registry.get(drive_id) {
            None => refused(DriveErr::NotFound),
            Some(_) => Step::List {
                drive: drive_id.to_owned(),
                path: path.clone(),
                next: Listing { path, cursor, limit },
            },
        }
    }

    fn op_read(&self, drive_id: &str, path: &str, offset: u64, len: Option<u64>) -> (r: Step)
        requires
            self.wf(),
        ensures
            r.deep_view() == on_read(self.drives(), drive_id@, path@, offset, len),
    {
        match self.registry.get(drive_id) {
            None => refused(DriveErr::NotFound),
            Some(_) => Step::Lookup {
                drive: drive_id.to_owned(),
                path: norm_path(path),
                next: Finding::Read { offset, len },
            },
        }
    }

    fn op_write(
        &self,
        drive_id: &str,
        path: &str,
        object_cid: String,
        size: u64,
        base_etag: Option<String>,
    ) -> (r: Step)
        requires
            self.wf(),
        ensures
            r.deep_view() == on_write(
                self.drives(),
                drive_id@,
                path@,
                object_cid@,
                size,
                base_etag.deep_view(),
            ),
    {
        match split_path(path) {
            None => refused(DriveErr::BadPath),
            Some((parent, name)) => match self.registry.get(drive_id) {
                None => refused(DriveErr::NotFound),
                Some(_) => Step::Lookup {
                    drive: drive_id.to_owned(),
                    path: norm_path(path),
                    next: Finding::Write {
                        drive: drive_id.to_owned(),
                        path: norm_path(path),
                        parent,
                        name,
                        object_cid,
                        size,
                        base_etag,
                    },
                },
            },
        }
    }

    fn op_mkdir(&self, drive_id: &str, path: &str) -> (r: Step)
        requires
            self.wf(),
        ensures
            r.deep_view() == on_mkdir(self.drives(), drive_id@, path@),
    {
        match split_path(path) {
            None => refused(DriveErr::BadPath),
            Some((parent, name)) => match self.registry.get(drive_id) {
                None => refused(DriveErr::NotFound),
                Some(_) => Step::Mkdir {
                    drive: drive_id.to_owned(),
                    parent,
                    name,
                    next: Adding {
                        drive: drive_id.to_owned(),
                        path: norm_path(path),
                        why: Addition::Make,
                    },
                },
            },
        }
    }

    fn op_move(&self, drive_id: &str, from: &str, to: &str) -> (r: Step)
        requires
            self.wf(),
        ensures
            r.deep_view() == on_move(self.drives(), drive_id@, from@, to@),
    {
        match split_path(to) {
            None => refused(DriveErr::BadPath),
            Some((parent, name)) => match self.registry.get(drive_id) {
                None => refused(DriveErr::NotFound),
                Some(_) => Step::Lookup {
                    drive: drive_id.to_owned(),
                    path: norm_path(from),
                    next: Finding::Move {
                        drive: drive_id.to_owned(),
                        from: norm_path(from),
                        to: norm_path(to),
                        parent,
                        name,
                    },
                },
            },
        }
    }

    fn op_copy(&self, drive_id: &str, from: &str, to: &str) -> (r: Step)
        requires
            self.wf(),
        ensures
            r.deep_view() == on_copy(self.drives(), drive_id@, from@, to@),
    {
        match split_path(to) {
            None => refused(DriveErr::BadPath),
            Some((parent, name)) => match self.registry.get(drive_id) {
                None => refused(DriveErr::NotFound),
                Some(_) => Step::Lookup {
                    drive: drive_id.to_owned(),
                    path: norm_path(from),
                    next: Finding::Copy {
                        drive: drive_id.to_owned(),
                        to: norm_path(to),
                        parent,
                        name,
                    },
                },
            },
        }
    }

    fn op_delete(&self, drive_id: &str, path: &str) -> (r: Step)
        requires
            self.wf(),
        ensures
            r.deep_view() == on_delete(self.drives(), drive_id@, path@),
    {
        match self.registry.get(drive_id) {
            None => refused(DriveErr::NotFound),
            Some(_) => Step::Lookup {
                drive: drive_id.to_owned(),
                path: norm_path(path),
                next: Finding::Delete { drive: drive_id.to_owned(), path: norm_path(path) },
            },
        }
    }

    fn op_share(
        &self,
        drive_id: &str,
        chain: &Vec<Capability>,
        path: &str,
        audience: &str,
        abilities: &Vec<String>,
        caveats: &ShareCaveats,
    ) -> (r: Step)
        ensures
            r.deep_view() == on_share(
                chain.deep_view(),
                drive_id@,
                path@,
                audience@,
                abilities.deep_view(),
                caveats.not_after,
            ),
    {
        match share(chain, drive_id, path, audience, abilities, caveats) {
            Err(e) => refused(e),
            Ok(mint) => Step::Sign { mint },
        }
    }

    fn op_poll(&self, drive_id: &str, cursor: Option<u64>, limit: u32) -> (r: Step)
        requires
            self.wf(),
        ensures
            r.deep_view() == on_poll(self.drives(), drive_id@, cursor, limit),
    {
        match self.registry.get(drive_id) {
            None => refused(DriveErr::NotFound),
            Some(t) => {
                let from: u64 = match cursor {
                    Some(c) => c,
                    None => 0,
                };
                let (changes, new_cursor) = t.feed.poll(from, limit);
                answered(DriveOk::Changes { changes, new_cursor })
            },
        }
    }

    fn op_watch(&self, drive_id: &str) -> (r: Step)
        requires
            self.wf(),
        ensures
            r.deep_view() == on_watch(self.drives(), drive_id@),
    {
        match self.registry.get(drive_id) {
            None => refused(DriveErr::NotFound),
            Some(t) => answered(
                DriveOk::Watching { topic: changes_topic(drive_id), cursor: t.feed.cursor() },
            ),
        }
    }

    // ----- outcomes -----

    /// Go on when a snapshot has been published under an id, or not.
    pub fn opened(&mut self, next: Opening, published: Result<String, SnapshotErr>) -> (r: Step)
        requires
            old(self).wf(),
        ensures
            final(self).wf(),
            final(self).same_host(*old(self)),
            (final(self).drives(), r.deep_view()) == on_snapshot(
                old(self).drives(),
                next.deep_view(),
                outcome(published),
            ),
    {
        match published {
            Err(SnapshotErr::Encode(e)) => refused(DriveErr::Internal(e)),
            Err(SnapshotErr::Store(e)) => refused(
                DriveErr::Internal(cat("snapshot publish: ", e.as_str())),
            ),
            Ok(cid) => match self.registry.get_mut(next.drive.as_str()) {
                None => refused(DriveErr::NotFound),
                Some(t) => {
                    let cursor: u64 = t.feed.cursor();
                    t.snapshot = Some((cid.clone(), cursor));
                    let quota = t.quota.clone();
                    answered(
                        DriveOk::Opened {
                            drive_root_cid: cid,
                            server_seq: cursor,
                            granted_abilities: next.granted,
                            quota,
                        },
                    )
                },
            },
        }
    }

    /// Go on when a path has been looked up.
    pub fn found(&self, next: Finding, found: Option<Found>) -> (r: Step)
        ensures
            r.deep_view() == on_found(self.root_id@, next.deep_view(), found.deep_view()),
    {
        match next {
            Finding::Stat { path } => match stat_entry(
                path.as_str(),
                self.root_id.as_str(),
                &found,
            ) {
                None => refused(DriveErr::NotFound),
                Some(e) => answered(DriveOk::Entry(e)),
            },
            Finding::Read { offset, len } => match found {
                Some(f) => match f.content {
                    Some(c) => Step::Fetch {
                        cid: c.cid.clone(),
                        next: Reading { cid: c.cid, offset, len },
                    },
                    None => refused(DriveErr::NotFound),
                },
                None => refused(DriveErr::NotFound),
            },
            Finding::Write { drive, path, parent, name, object_cid, size, base_etag } => {
                // Optimistic concurrency: if the file already exists, its current etag must match
                // the etag that the write is based on.
                if let Some(f) = &found {
                    let current = etag_for(&f.content, f.node_id.as_str());
                    if let Some(base) = &base_etag {
                        if !same(base.as_str(), current.as_str()) {
                            return refused(DriveErr::Conflict { current_etag: current });
                        }
                    }
                }
                Step::AddFile {
                    drive: drive.clone(),
                    parent,
                    name,
                    cid: object_cid,
                    size,
                    mode: FILE_MODE,
                    next: Adding { drive, path, why: Addition::Write },
                }
            },
            Finding::Move { drive, from, to, parent, name } => match found {
                Some(f) => Step::Move {
                    drive: drive.clone(),
                    from: from.clone(),
                    parent,
                    name,
                    next: Moving { drive, from, to, node_id: f.node_id },
                },
                None => refused(DriveErr::NotFound),
            },
            // Server-side copy: share the same object id (global dedup, no bytes move).
            Finding::Copy { drive, to, parent, name } => match found {
                Some(f) => match f.content {
                    Some(c) => Step::AddFile {
                        drive: drive.clone(),
                        parent,
                        name,
                        cid: c.cid,
                        size: c.size,
                        mode: c.mode,
                        next: Adding { drive, path: to, why: Addition::Make },
                    },
                    None => refused(DriveErr::NotFound),
                },
                None => refused(DriveErr::NotFound),
            },
            Finding::Delete { drive, path } => match found {
                Some(f) => Step::Remove {
                    drive: drive.clone(),
                    path: path.clone(),
                    next: Removing { drive, path, node_id: f.node_id },
                },
                None => refused(DriveErr::NotFound),
            },
        }
    }

    /// Go on when a directory has been listed; nothing if it could not be.
    pub fn listed(&self, next: Listing, items: Option<Vec<DirItem>>) -> (r: Step)
        ensures
            r.deep_view() == on_listed(next.deep_view(), items.deep_view()),
    {
        match items {
            None => refused(DriveErr::NotFound),
            Some(items) => {
                let parent = norm_path(next.path.as_str());
                let (entries, next_cursor) = list_page(
                    &items,
                    parent.as_str(),
                    &next.cursor,
                    next.limit,
                );
                answered(DriveOk::Listing { entries, next_cursor })
            },
        }
    }

    /// Go on when a manifest has been fetched, or not.
    pub fn fetched(&self, next: Reading, manifest: Result<Manifest, FetchErr>) -> (r: Step)
        ensures
            r.deep_view() == on_fetched(next.deep_view(), outcome(manifest)),
    {
        match manifest {
            Err(FetchErr::Missing) => refused(DriveErr::NotFound),
            Err(FetchErr::Decode(e)) => refused(
                DriveErr::Internal(cat("manifest decode: ", e.as_str())),
            ),
            Ok(m) => answered(
                DriveOk::ReadPlan(read_plan(next.cid.as_str(), &m, next.offset, next.len)),
            ),
        }
    }

    fn record(
        &mut self,
        drive: String,
        path: String,
        node_id: String,
        kind: ChangeKind,
        etag: String,
        ok: DriveOk,
    ) -> (r: Step)
        requires
            old(self).wf(),
            old(self).registry.has_room(),
        ensures
            final(self).wf(),
            final(self).same_host(*old(self)),
            (final(self).drives(), r.deep_view()) == record(
                old(self).drives(),
                drive@,
                path@,
                node_id@,
                kind.deep_view(),
                etag@,
                ok.deep_view(),
            ),
    {
        match self.registry.get_mut(drive.as_str()) {
            None => refused(DriveErr::NotFound),
            Some(t) => {
                let seq: u64 = t.feed.record(path, node_id, kind, etag);
                Step::Persist { drive: drive.clone(), next: Recorded { drive, seq, ok } }
            },
        }
    }

    /// Go on when a file or a directory has been added, or not.
    pub fn added(&mut self, next: Adding, placed: Result<Placed, String>) -> (r: Step)
        requires
            old(self).wf(),
            old(self).registry.has_room(),
        ensures
            final(self).wf(),
            final(self).same_host(*old(self)),
            (final(self).drives(), r.deep_view()) == on_added(
                old(self).drives(),
                next.deep_view(),
                outcome(placed),
            ),
    {
        match placed {
            Err(e) => refused(DriveErr::Internal(e)),
            Ok(p) => {
                let etag = etag_for(&p.content, p.node_id.as_str());
                match next.why {
                    Addition::Write => {
                        let version_seq: u64 = match self.registry.get(next.drive.as_str()) {
                            None => {
                                return refused(DriveErr::NotFound);
                            },
                            Some(t) => t.feed.cursor() + 1,
                        };
                        let ok = DriveOk::Written {
                            etag: etag.clone(),
                            node_id: p.node_id.clone(),
                            version_seq,
                        };
                        self.record(next.drive, next.path, p.node_id, ChangeKind::Modified, etag, ok)
                    },
                    Addition::Make => {
                        let ok = DriveOk::Made { node_id: p.node_id.clone() };
                        self.record(next.drive, next.path, p.node_id, ChangeKind::Created, etag, ok)
                    },
                }
            },
        }
    }

    /// Go on when a node has been moved, or not; `moved` is what the content map now holds for it.
    pub fn moved(&mut self, next: Moving, moved: Result<Option<Content>, String>) -> (r: Step)
        requires
            old(self).wf(),
            old(self).registry.has_room(),
        ensures
            final(self).wf(),
            final(self).same_host(*old(self)),
            (final(self).drives(), r.deep_view()) == on_moved(
                old(self).drives(),
                next.deep_view(),
                outcome(moved),
            ),
    {
        match moved {
            Err(e) => refused(DriveErr::Internal(e)),
            Ok(content) => {
                let etag = etag_for(&content, next.node_id.as_str());
                let ok = DriveOk::Made { node_id: next.node_id.clone() };
                self.record(
                    next.drive,
                    next.to,
                    next.node_id,
                    ChangeKind::Moved { from: next.from },
                    etag,
                    ok,
                )
            },
        }
    }

    /// Go on when a node has been removed, or not.
    pub fn removed(&mut self, next: Removing, removed: Result<(), String>) -> (r: Step)
        requires
            old(self).wf(),
            old(self).registry.has_room(),
        ensures
            final(self).wf(),
            final(self).same_host(*old(self)),
            (final(self).drives(), r.deep_view()) == on_removed(
                old(self).drives(),
                next.deep_view(),
                outcome(removed),
            ),
    {
        match removed {
            Err(e) => refused(DriveErr::Internal(e)),
            Ok(()) => self.record(
                next.drive,
                next.path,
                next.node_id,
                ChangeKind::Deleted,
                String::new(),
                DriveOk::Deleted,
            ),
        }
    }

    /// Go on when the state has been written to disk, or not. A drive that accepts a write and
    /// cannot record it must not answer that it did.
    pub fn persisted(&self, next: Recorded, persisted: Result<(), String>) -> (r: Step)
        ensures
            r.deep_view() == on_persisted(next.deep_view(), outcome(persisted)),
    {
        match persisted {
            Err(e) => refused(DriveErr::Internal(e)),
            Ok(()) => {
                let topic = changes_topic(next.drive.as_str());
                let beacon = Beacon { drive: next.drive, max_seq: next.seq };
                Step::Publish { topic, bytes: encode_beacon(&beacon), next: next.ok }
            },
        }
    }

    /// Go on when the beacon is out: a hint only, so whether it was published does not matter.
    pub fn published(&self, next: DriveOk) -> (r: Step)
        ensures
            r.deep_view() == answer(next.deep_view()),
    {
        answered(next)
    }

    /// Go on when a capability has been signed and encoded, or not.
    pub fn signed(&self, chain: Result<String, String>) -> (r: Step)
        ensures
            r.deep_view() == on_signed(outcome(chain)),
    {
        match chain {
            Err(e) => refused(DriveErr::Internal(e)),
            Ok(chain) => answered(DriveOk::Shared { chain }),
        }
    }
}

/// Two states of a host that differ at most in their drives have the same id, the same root keys and the
/// same node id for root directories.
pub proof fn law_only_drives_differ(a: DriveServer, b: DriveServer)
    requires
        a.same_host(b),
    ensures
        a.registry.host() == b.registry.host(),
        a.host_id == b.host_id,
        a.accepted_roots == b.accepted_roots,
        a.root_id == b.root_id,
        a.drives() == b.drives() <==> a.registry@ == b.registry@,
{
}

} // verus!
