//! What serving a request needs from outside, one thing at a time.
//!
//! The host answers a request in steps. A [`Step`] is either the reply, or one piece of outside
//! work (check a capability chain, look a path up, change the tree, write the state to disk) with
//! a value that says what the request was about when the work was asked for. The caller does the
//! work and hands the outcome and that value to the matching method of
//! [`DriveServer`](crate::serve::DriveServer), which gives the next step.
use vstd::prelude::*;

use crate::cap::{verdict_view, CapView, Capability, Mint, MintView, NodeId};
use crate::drive::{Content, ContentView};
use crate::wire::{DriveOk, DriveOp, DriveReply, OkView, OpView, ReplyView};

verus! {

/// A request whose capability chain is being checked.
#[derive(Debug, PartialEq, Eq)]
pub struct Judging {
    pub drive: String,
    pub op: DriveOp,
}

/// A drive whose snapshot is being published.
#[derive(Debug, PartialEq, Eq)]
pub struct Opening {
    pub drive: String,
    pub granted: Vec<String>,
}

/// What a path is being looked up for.
#[derive(Debug, PartialEq, Eq)]
pub enum Finding {
    Stat { path: String },
    Read { offset: u64, len: Option<u64> },
    Write {
        drive: String,
        path: String,
        parent: String,
        name: String,
        object_cid: String,
        size: u64,
        base_etag: Option<String>,
    },
    Move { drive: String, from: String, to: String, parent: String, name: String },
    Copy { drive: String, to: String, parent: String, name: String },
    Delete { drive: String, path: String },
}

/// A page of a directory that is being listed.
#[derive(Debug, PartialEq, Eq)]
pub struct Listing {
    pub path: String,
    pub cursor: Option<String>,
    pub limit: u32,
}

/// A range of an object whose manifest is being fetched.
#[derive(Debug, PartialEq, Eq)]
pub struct Reading {
    pub cid: String,
    pub offset: u64,
    pub len: Option<u64>,
}

/// Why a node is being added.
#[derive(Debug, Clone, Copy, PartialEq, Eq, Structural)]
pub enum Addition {
    /// A client wrote a file.
    Write,
    /// A directory or a copy is made.
    Make,
}

/// A node that is being added at `path`.
#[derive(Debug, PartialEq, Eq)]
pub struct Adding {
    pub drive: String,
    pub path: String,
    pub why: Addition,
}

/// A node that is being moved.
#[derive(Debug, PartialEq, Eq)]
pub struct Moving {
    pub drive: String,
    pub from: String,
    pub to: String,
    pub node_id: String,
}

/// A node that is being removed.
#[derive(Debug, PartialEq, Eq)]
pub struct Removing {
    pub drive: String,
    pub path: String,
    pub node_id: String,
}

/// A change that is in the feed and is being written to disk, and the reply it is due.
#[derive(Debug, PartialEq, Eq)]
pub struct Recorded {
    pub drive: String,
    pub seq: u64,
    pub ok: DriveOk,
}

/// The reply, or the next piece of outside work.
#[allow(inconsistent_fields)]
#[derive(Debug, PartialEq, Eq)]
pub enum Step {
    /// Decode `cap` and check that it gives `from` the ability.
    Judge { from: NodeId, cap: String, ability: &'static str, next: Judging },
    /// Publish the state of the drive.
    Snapshot { drive: String, next: Opening },
    /// Look a path up in the tree.
    Lookup { drive: String, path: String, next: Finding },
    /// List a directory.
    List { drive: String, path: String, next: Listing },
    /// Fetch and decode the manifest of an object.
    Fetch { cid: String, next: Reading },
    /// Add a file, changed now, to a directory.
    AddFile {
        drive: String,
        parent: String,
        name: String,
        cid: String,
        size: u64,
        mode: u32,
        next: Adding,
    },
    /// Make a directory.
    Mkdir { drive: String, parent: String, name: String, next: Adding },
    /// Move a node.
    Move { drive: String, from: String, parent: String, name: String, next: Moving },
    /// Remove a node.
    Remove { drive: String, path: String, next: Removing },
    /// Write the state of the drive to disk.
    Persist { drive: String, next: Recorded },
    /// Publish bytes on a topic; nothing depends on the outcome.
    Publish { topic: String, bytes: Vec<u8>, next: DriveOk },
    /// Sign a capability.
    Sign { mint: Mint },
    /// The reply.
    Done(DriveReply),
}

/// What came of checking a capability chain: what the chain says, and the verifier's objection if
/// it has one.
#[derive(Debug, PartialEq, Eq)]
pub struct Judgement {
    pub chain: Vec<Capability>,
    pub verdict: Result<(), String>,
}

/// Why a snapshot was not published.
#[derive(Debug, PartialEq, Eq)]
pub enum SnapshotErr {
    /// The state could not be encoded.
    Encode(String),
    /// The object could not be stored.
    Store(String),
}

/// Why a manifest was not read.
#[derive(Debug, PartialEq, Eq)]
pub enum FetchErr {
    /// The object is not there.
    Missing,
    /// The bytes are not a manifest.
    Decode(String),
}

/// A node that was added, and what the content map holds for it.
#[derive(Debug, PartialEq, Eq)]
pub struct Placed {
    pub node_id: String,
    pub content: Option<Content>,
}

// ----- models -----

/// Model of [`Judging`].
#[verifier::ext_equal]
pub struct JudgingView {
    pub drive: Seq<char>,
    pub op: OpView,
}

impl DeepView for Judging {
    type V = JudgingView;

    open spec fn deep_view(&self) -> JudgingView {
        JudgingView { drive: self.drive@, op: self.op.deep_view() }
    }
}

/// Model of [`Opening`].
#[verifier::ext_equal]
pub struct OpeningView {
    pub drive: Seq<char>,
    pub granted: Seq<Seq<char>>,
}

impl DeepView for Opening {
    type V = OpeningView;

    open spec fn deep_view(&self) -> OpeningView {
        OpeningView { drive: self.drive@, granted: self.granted.deep_view() }
    }
}

/// Model of [`Finding`].
#[verifier::ext_equal]
pub enum FindingView {
    Stat { path: Seq<char> },
    Read { offset: u64, len: Option<u64> },
    Write {
        drive: Seq<char>,
        path: Seq<char>,
        parent: Seq<char>,
        name: Seq<char>,
        object_cid: Seq<char>,
        size: u64,
        base_etag: Option<Seq<char>>,
    },
    Move {
        drive: Seq<char>,
        from: Seq<char>,
        to: Seq<char>,
        parent: Seq<char>,
        name: Seq<char>,
    },
    Copy { drive: Seq<char>, to: Seq<char>, parent: Seq<char>, name: Seq<char> },
    Delete { drive: Seq<char>, path: Seq<char> },
}

impl DeepView for Finding {
    type V = FindingView;

    open spec fn deep_view(&self) -> FindingView {
        match *self {
            Finding::Stat { path } => FindingView::Stat { path: path@ },
            Finding::Read { offset, len } => FindingView::Read { offset, len },
            Finding::Write { drive, path, parent, name, object_cid, size, base_etag } => FindingView::Write {
                drive: drive@,
                path: path@,
                parent: parent@,
                name: name@,
                object_cid: object_cid@,
                size,
                base_etag: base_etag.deep_view(),
            },
            Finding::Move { drive, from, to, parent, name } => FindingView::Move {
                drive: drive@,
                from: from@,
                to: to@,
                parent: parent@,
                name: name@,
            },
            Finding::Copy { drive, to, parent, name } => FindingView::Copy {
                drive: drive@,
                to: to@,
                parent: parent@,
                name: name@,
            },
            Finding::Delete { drive, path } => FindingView::Delete { drive: drive@, path: path@ },
        }
    }
}

/// Model of [`Listing`].
#[verifier::ext_equal]
pub struct ListingView {
    pub path: Seq<char>,
    pub cursor: Option<Seq<char>>,
    pub limit: u32,
}

impl DeepView for Listing {
    type V = ListingView;

    open spec fn deep_view(&self) -> ListingView {
        ListingView { path: self.path@, cursor: self.cursor.deep_view(), limit: self.limit }
    }
}

/// Model of [`Reading`].
#[verifier::ext_equal]
pub struct ReadingView {
    pub cid: Seq<char>,
    pub offset: u64,
    pub len: Option<u64>,
}

impl DeepView for Reading {
    type V = ReadingView;

    open spec fn deep_view(&self) -> ReadingView {
        ReadingView { cid: self.cid@, offset: self.offset, len: self.len }
    }
}

/// Model of [`Adding`].
#[verifier::ext_equal]
pub struct AddingView {
    pub drive: Seq<char>,
    pub path: Seq<char>,
    pub why: Addition,
}

impl DeepView for Adding {
    type V = AddingView;

    open spec fn deep_view(&self) -> AddingView {
        AddingView { drive: self.drive@, path: self.path@, why: self.why }
    }
}

/// Model of [`Moving`].
#[verifier::ext_equal]
pub struct MovingView {
    pub drive: Seq<char>,
    pub from: Seq<char>,
    pub to: Seq<char>,
    pub node_id: Seq<char>,
}

impl DeepView for Moving {
    type V = MovingView;

    open spec fn deep_view(&self) -> MovingView {
        MovingView { drive: self.drive@, from: self.from@, to: self.to@, node_id: self.node_id@ }
    }
}

/// Model of [`Removing`].
#[verifier::ext_equal]
pub struct RemovingView {
    pub drive: Seq<char>,
    pub path: Seq<char>,
    pub node_id: Seq<char>,
}

impl DeepView for Removing {
    type V = RemovingView;

    open spec fn deep_view(&self) -> RemovingView {
        RemovingView { drive: self.drive@, path: self.path@, node_id: self.node_id@ }
    }
}

/// Model of [`Recorded`].
#[verifier::ext_equal]
pub struct RecordedView {
    pub drive: Seq<char>,
    pub seq: u64,
    pub ok: OkView,
}

impl DeepView for Recorded {
    type V = RecordedView;

    open spec fn deep_view(&self) -> RecordedView {
        RecordedView { drive: self.drive@, seq: self.seq, ok: self.ok.deep_view() }
    }
}

/// Model of [`Step`].
#[allow(inconsistent_fields)]
#[verifier::ext_equal]
pub enum StepView {
    Judge { from: Seq<u8>, cap: Seq<char>, ability: Seq<char>, next: JudgingView },
    Snapshot { drive: Seq<char>, next: OpeningView },
    Lookup { drive: Seq<char>, path: Seq<char>, next: FindingView },
    List { drive: Seq<char>, path: Seq<char>, next: ListingView },
    Fetch { cid: Seq<char>, next: ReadingView },
    AddFile {
        drive: Seq<char>,
        parent: Seq<char>,
        name: Seq<char>,
        cid: Seq<char>,
        size: u64,
        mode: u32,
        next: AddingView,
    },
    Mkdir { drive: Seq<char>, parent: Seq<char>, name: Seq<char>, next: AddingView },
    Move {
        drive: Seq<char>,
        from: Seq<char>,
        parent: Seq<char>,
        name: Seq<char>,
        next: MovingView,
    },
    Remove { drive: Seq<char>, path: Seq<char>, next: RemovingView },
    Persist { drive: Seq<char>, next: RecordedView },
    Publish { topic: Seq<char>, bytes: Seq<u8>, next: OkView },
    Sign { mint: MintView },
    Done(ReplyView),
}

impl DeepView for Step {
    type V = StepView;

    open spec fn deep_view(&self) -> StepView {
        match *self {
            Step::Judge { from, cap, ability, next } => StepView::Judge {
                from: from@,
                cap: cap@,
                ability: ability@,
                next: next.deep_view(),
            },
            Step::Snapshot { drive, next } => StepView::Snapshot {
                drive: drive@,
                next: next.deep_view(),
            },
            Step::Lookup { drive, path, next } => StepView::Lookup {
                drive: drive@,
                path: path@,
                next: next.deep_view(),
            },
            Step::List { drive, path, next } => StepView::List {
                drive: drive@,
                path: path@,
                next: next.deep_view(),
            },
            Step::Fetch { cid, next } => StepView::Fetch { cid: cid@, next: next.deep_view() },
            Step::AddFile { drive, parent, name, cid, size, mode, next } => StepView::AddFile {
                drive: drive@,
                parent: parent@,
                name: name@,
                cid: cid@,
                size,
                mode,
                next: next.deep_view(),
            },
            Step::Mkdir { drive, parent, name, next } => StepView::Mkdir {
                drive: drive@,
                parent: parent@,
                name: name@,
                next: next.deep_view(),
            },
            Step::Move { drive, from, parent, name, next } => StepView::Move {
                drive: drive@,
                from: from@,
                parent: parent@,
                name: name@,
                next: next.deep_view(),
            },
            Step::Remove { drive, path, next } => StepView::Remove {
                drive: drive@,
                path: path@,
                next: next.deep_view(),
            },
            Step::Persist { drive, next } => StepView::Persist {
                drive: drive@,
                next: next.deep_view(),
            },
            Step::Publish { topic, bytes, next } => StepView::Publish {
                topic: topic@,
                bytes: bytes@,
                next: next.deep_view(),
            },
            Step::Sign { mint } => StepView::Sign { mint: mint.deep_view() },
            Step::Done(reply) => StepView::Done(reply.deep_view()),
        }
    }
}

/// Model of [`Judgement`], with the objection as given.
#[verifier::ext_equal]
pub struct JudgementView {
    pub chain: Seq<CapView>,
    pub verdict: Result<(), Seq<char>>,
}

impl DeepView for Judgement {
    type V = JudgementView;

    open spec fn deep_view(&self) -> JudgementView {
        JudgementView {
            chain: self.chain.deep_view(),
            verdict: verdict_view(self.verdict),
        }
    }
}

/// Model of [`SnapshotErr`].
#[verifier::ext_equal]
pub enum SnapshotErrView {
    Encode(Seq<char>),
    Store(Seq<char>),
}

impl DeepView for SnapshotErr {
    type V = SnapshotErrView;

    open spec fn deep_view(&self) -> SnapshotErrView {
        match *self {
            SnapshotErr::Encode(e) => SnapshotErrView::Encode(e@),
            SnapshotErr::Store(e) => SnapshotErrView::Store(e@),
        }
    }
}

/// Model of [`FetchErr`].
#[verifier::ext_equal]
pub enum FetchErrView {
    Missing,
    Decode(Seq<char>),
}

impl DeepView for FetchErr {
    type V = FetchErrView;

    open spec fn deep_view(&self) -> FetchErrView {
        match *self {
            FetchErr::Missing => FetchErrView::Missing,
            FetchErr::Decode(e) => FetchErrView::Decode(e@),
        }
    }
}

/// Model of [`Placed`].
#[verifier::ext_equal]
pub struct PlacedView {
    pub node_id: Seq<char>,
    pub content: Option<ContentView>,
}

impl DeepView for Placed {
    type V = PlacedView;

    open spec fn deep_view(&self) -> PlacedView {
        PlacedView { node_id: self.node_id@, content: self.content.deep_view() }
    }
}

/// Model of an outcome: both sides by their models.
pub open spec fn outcome<T: DeepView, E: DeepView>(r: Result<T, E>) -> Result<T::V, E::V> {
    match r {
        Ok(t) => Ok(t.deep_view()),
        Err(e) => Err(e.deep_view()),
    }
}

} // verus!
