//! The values of the `ce-drive/v1` protocol: requests, replies and what they carry.
//!
//! Each type that holds text has a model with the same shape over character sequences; the
//! contracts of the crate speak of those models, reached by `deep_view`.
use vstd::prelude::*;

verus! {

/// The topic that drive requests arrive on.
pub const DRIVE_TOPIC: &'static str = "ce-drive/v1";

/// What every change beacon topic starts with; the drive id follows.
pub const CHANGES_PREFIX: &'static str = "ce-drive/changes/";

// ----- requests -----

/// The limits a caller asks for on a shared capability.
#[derive(Debug, Clone, Copy, PartialEq, Eq, Default)]
pub struct ShareCaveats {
    /// Unix second after which the grant is void; 0 is never.
    pub not_after: u64,
    pub max_bytes_read: Option<u64>,
    pub max_bytes_write: Option<u64>,
}

/// One operation on a drive. The order of the variants is the wire format: new ones go last.
#[allow(inconsistent_fields)]
#[derive(Debug, Clone, PartialEq, Eq)]
pub enum DriveOp {
    Open,
    Stat { path: String },
    List { path: String, cursor: Option<String>, limit: u32 },
    Read { path: String, offset: u64, len: Option<u64> },
    Write { path: String, object_cid: String, size: u64, base_etag: Option<String> },
    Mkdir { path: String },
    Move { from: String, to: String },
    Copy { from: String, to: String },
    Delete { path: String, recursive: bool },
    Share { path: String, audience: String, abilities: Vec<String>, caveats: ShareCaveats },
    Poll { cursor: Option<u64>, limit: u32 },
    Watch,
    Meta { path: String },
    SetProp { path: String, key: String, value: Option<String> },
    Tag { path: String, tag: String, remove: bool },
    Link { path: String, rel: String, to: String, remove: bool },
    Backlinks { to: String },
    Versions { path: String },
}

/// A request: the drive, the capability chain it is made under, and the operation.
#[derive(Debug, Clone, PartialEq, Eq)]
pub struct DriveReq {
    pub drive: String,
    pub cap: String,
    pub op: DriveOp,
}

/// Model of [`DriveOp`].
#[allow(inconsistent_fields)]
#[verifier::ext_equal]
pub enum OpView {
    Open,
    Stat { path: Seq<char> },
    List { path: Seq<char>, cursor: Option<Seq<char>>, limit: u32 },
    Read { path: Seq<char>, offset: u64, len: Option<u64> },
    Write { path: Seq<char>, object_cid: Seq<char>, size: u64, base_etag: Option<Seq<char>> },
    Mkdir { path: Seq<char> },
    Move { from: Seq<char>, to: Seq<char> },
    Copy { from: Seq<char>, to: Seq<char> },
    Delete { path: Seq<char>, recursive: bool },
    Share {
        path: Seq<char>,
        audience: Seq<char>,
        abilities: Seq<Seq<char>>,
        caveats: ShareCaveats,
    },
    Poll { cursor: Option<u64>, limit: u32 },
    Watch,
    Meta { path: Seq<char> },
    SetProp { path: Seq<char>, key: Seq<char>, value: Option<Seq<char>> },
    Tag { path: Seq<char>, tag: Seq<char>, remove: bool },
    Link { path: Seq<char>, rel: Seq<char>, to: Seq<char>, remove: bool },
    Backlinks { to: Seq<char> },
    Versions { path: Seq<char> },
}

/// Model of [`DriveReq`].
#[verifier::ext_equal]
pub struct ReqView {
    pub drive: Seq<char>,
    pub cap: Seq<char>,
    pub op: OpView,
}

impl DeepView for DriveOp {
    type V = OpView;

    open spec fn deep_view(&self) -> OpView {
        match *self {
            DriveOp::Open => OpView::Open,
            DriveOp::Stat { path } => OpView::Stat { path: path@ },
            DriveOp::List { path, cursor, limit } => OpView::List {
                path: path@,
                cursor: cursor.deep_view(),
                limit,
            },
            DriveOp::Read { path, offset, len } => OpView::Read { path: path@, offset, len },
            DriveOp::Write { path, object_cid, size, base_etag } => OpView::Write {
                path: path@,
                object_cid: object_cid@,
                size,
                base_etag: base_etag.deep_view(),
            },
            DriveOp::Mkdir { path } => OpView::Mkdir { path: path@ },
            DriveOp::Move { from, to } => OpView::Move { from: from@, to: to@ },
            DriveOp::Copy { from, to } => OpView::Copy { from: from@, to: to@ },
            DriveOp::Delete { path, recursive } => OpView::Delete { path: path@, recursive },
            DriveOp::Share { path, audience, abilities, caveats } => OpView::Share {
                path: path@,
                audience: audience@,
                abilities: abilities.deep_view(),
                caveats,
            },
            DriveOp::Poll { cursor, limit } => OpView::Poll { cursor, limit },
            DriveOp::Watch => OpView::Watch,
            DriveOp::Meta { path } => OpView::Meta { path: path@ },
            DriveOp::SetProp { path, key, value } => OpView::SetProp {
                path: path@,
                key: key@,
                value: value.deep_view(),
            },
            DriveOp::Tag { path, tag, remove } => OpView::Tag { path: path@, tag: tag@, remove },
            DriveOp::Link { path, rel, to, remove } => OpView::Link {
                path: path@,
                rel: rel@,
                to: to@,
                remove,
            },
            DriveOp::Backlinks { to } => OpView::Backlinks { to: to@ },
            DriveOp::Versions { path } => OpView::Versions { path: path@ },
        }
    }
}

impl DeepView for DriveReq {
    type V = ReqView;

    open spec fn deep_view(&self) -> ReqView {
        ReqView { drive: self.drive@, cap: self.cap@, op: self.op.deep_view() }
    }
}

// ----- replies -----

/// Why a request was refused. The order of the variants is the wire format.
#[derive(Debug, Clone, PartialEq, Eq)]
pub enum DriveErr {
    Unauthorized,
    Revoked,
    Expired,
    OutOfScope,
    NotFound,
    Conflict { current_etag: String },
    QuotaExceeded,
    PaymentRequired,
    BadPath,
    Internal(String),
}

/// Model of [`DriveErr`].
#[verifier::ext_equal]
pub enum ErrView {
    Unauthorized,
    Revoked,
    Expired,
    OutOfScope,
    NotFound,
    Conflict { current_etag: Seq<char> },
    QuotaExceeded,
    PaymentRequired,
    BadPath,
    Internal(Seq<char>),
}

impl DeepView for DriveErr {
    type V = ErrView;

    open spec fn deep_view(&self) -> ErrView {
        match *self {
            DriveErr::Unauthorized => ErrView::Unauthorized,
            DriveErr::Revoked => ErrView::Revoked,
            DriveErr::Expired => ErrView::Expired,
            DriveErr::OutOfScope => ErrView::OutOfScope,
            DriveErr::NotFound => ErrView::NotFound,
            DriveErr::Conflict { current_etag } => ErrView::Conflict { current_etag: current_etag@ },
            DriveErr::QuotaExceeded => ErrView::QuotaExceeded,
            DriveErr::PaymentRequired => ErrView::PaymentRequired,
            DriveErr::BadPath => ErrView::BadPath,
            DriveErr::Internal(e) => ErrView::Internal(e@),
        }
    }
}

/// The number a client sees for a refusal.
pub open spec fn code_of(e: ErrView) -> u16 {
    match e {
        ErrView::Unauthorized => 401,
        ErrView::Revoked => 410,
        ErrView::Expired => 419,
        ErrView::OutOfScope => 403,
        ErrView::NotFound => 404,
        ErrView::Conflict { .. } => 409,
        ErrView::QuotaExceeded => 429,
        ErrView::PaymentRequired => 402,
        ErrView::BadPath => 400,
        ErrView::Internal(_) => 500,
    }
}

impl DriveErr {
    /// The number a client sees for this refusal.
    pub fn code(&self) -> (r: u16)
        ensures
            r == code_of(self.deep_view()),
    {
        match self {
            DriveErr::Unauthorized => 401,
            DriveErr::Revoked => 410,
            DriveErr::Expired => 419,
            DriveErr::OutOfScope => 403,
            DriveErr::NotFound => 404,
            DriveErr::Conflict { .. } => 409,
            DriveErr::QuotaExceeded => 429,
            DriveErr::PaymentRequired => 402,
            DriveErr::BadPath => 400,
            DriveErr::Internal(_) => 500,
        }
    }
}

#[derive(Debug, Clone, Copy, PartialEq, Eq, Structural)]
pub enum EntryKind {
    File,
    Dir,
}

/// A file or directory as a client sees it.
#[derive(Debug, Clone, PartialEq, Eq)]
pub struct Entry {
    pub path: String,
    pub kind: EntryKind,
    pub size: u64,
    pub mtime_ms: u64,
    pub etag: String,
    pub node_id: String,
    pub object_cid: Option<String>,
    pub doc_id: Option<String>,
}

/// Model of [`Entry`].
#[verifier::ext_equal]
pub struct EntryView {
    pub path: Seq<char>,
    pub kind: EntryKind,
    pub size: u64,
    pub mtime_ms: u64,
    pub etag: Seq<char>,
    pub node_id: Seq<char>,
    pub object_cid: Option<Seq<char>>,
    pub doc_id: Option<Seq<char>>,
}

impl DeepView for Entry {
    type V = EntryView;

    open spec fn deep_view(&self) -> EntryView {
        EntryView {
            path: self.path@,
            kind: self.kind,
            size: self.size,
            mtime_ms: self.mtime_ms,
            etag: self.etag@,
            node_id: self.node_id@,
            object_cid: self.object_cid.deep_view(),
            doc_id: self.doc_id.deep_view(),
        }
    }
}

/// One chunk of an object, and where in the object it lies.
#[derive(Debug, Clone, PartialEq, Eq)]
pub struct ChunkRef {
    pub cid: String,
    pub offset: u64,
    pub len: u64,
}

/// Model of [`ChunkRef`].
#[verifier::ext_equal]
pub struct ChunkView {
    pub cid: Seq<char>,
    pub offset: u64,
    pub len: u64,
}

impl DeepView for ChunkRef {
    type V = ChunkView;

    open spec fn deep_view(&self) -> ChunkView {
        ChunkView { cid: self.cid@, offset: self.offset, len: self.len }
    }
}

/// The chunks a client has to fetch for a read.
#[derive(Debug, Clone, PartialEq, Eq)]
pub struct ReadPlan {
    pub object_cid: String,
    pub total_size: u64,
    pub chunk_size: u64,
    pub chunks: Vec<ChunkRef>,
    pub encrypted: bool,
    pub key_hint: Option<String>,
}

/// Model of [`ReadPlan`].
#[verifier::ext_equal]
pub struct PlanView {
    pub object_cid: Seq<char>,
    pub total_size: u64,
    pub chunk_size: u64,
    pub chunks: Seq<ChunkView>,
    pub encrypted: bool,
    pub key_hint: Option<Seq<char>>,
}

impl DeepView for ReadPlan {
    type V = PlanView;

    open spec fn deep_view(&self) -> PlanView {
        PlanView {
            object_cid: self.object_cid@,
            total_size: self.total_size,
            chunk_size: self.chunk_size,
            chunks: self.chunks.deep_view(),
            encrypted: self.encrypted,
            key_hint: self.key_hint.deep_view(),
        }
    }
}

/// What happened to a node.
#[derive(Debug, PartialEq, Eq)]
pub enum ChangeKind {
    Created,
    Modified,
    Moved { from: String },
    Deleted,
}

impl Clone for ChangeKind {
    fn clone(&self) -> (r: Self)
        ensures
            r == *self,
    {
        match self {
            ChangeKind::Created => ChangeKind::Created,
            ChangeKind::Modified => ChangeKind::Modified,
            ChangeKind::Moved { from } => ChangeKind::Moved { from: from.clone() },
            ChangeKind::Deleted => ChangeKind::Deleted,
        }
    }
}

/// One line of a drive's change feed.
#[derive(Debug, PartialEq, Eq)]
pub struct Change {
    pub seq: u64,
    pub path: String,
    pub node_id: String,
    pub kind: ChangeKind,
    pub etag: String,
}

impl Clone for Change {
    fn clone(&self) -> (r: Self)
        ensures
            r == *self,
    {
        Change {
            seq: self.seq,
            path: self.path.clone(),
            node_id: self.node_id.clone(),
            kind: self.kind.clone(),
            etag: self.etag.clone(),
        }
    }
}

/// Model of [`ChangeKind`].
#[verifier::ext_equal]
pub enum ChangeKindView {
    Created,
    Modified,
    Moved { from: Seq<char> },
    Deleted,
}

/// Model of [`Change`].
#[verifier::ext_equal]
pub struct ChangeView {
    pub seq: u64,
    pub path: Seq<char>,
    pub node_id: Seq<char>,
    pub kind: ChangeKindView,
    pub etag: Seq<char>,
}

impl DeepView for ChangeKind {
    type V = ChangeKindView;

    open spec fn deep_view(&self) -> ChangeKindView {
        match *self {
            ChangeKind::Created => ChangeKindView::Created,
            ChangeKind::Modified => ChangeKindView::Modified,
            ChangeKind::Moved { from } => ChangeKindView::Moved { from: from@ },
            ChangeKind::Deleted => ChangeKindView::Deleted,
        }
    }
}

impl DeepView for Change {
    type V = ChangeView;

    open spec fn deep_view(&self) -> ChangeView {
        ChangeView {
            seq: self.seq,
            path: self.path@,
            node_id: self.node_id@,
            kind: self.kind.deep_view(),
            etag: self.etag@,
        }
    }
}

/// The billing terms of a drive.
#[derive(Debug, PartialEq, Eq)]
pub struct Quota {
    pub price_per_gib_month: String,
    pub price_per_gib_egress: String,
    pub free_tier_bytes: u64,
    pub channel_required: bool,
}

/// Model of [`Quota`].
#[verifier::ext_equal]
pub struct QuotaView {
    pub price_per_gib_month: Seq<char>,
    pub price_per_gib_egress: Seq<char>,
    pub free_tier_bytes: u64,
    pub channel_required: bool,
}

impl DeepView for Quota {
    type V = QuotaView;

    open spec fn deep_view(&self) -> QuotaView {
        QuotaView {
            price_per_gib_month: self.price_per_gib_month@,
            price_per_gib_egress: self.price_per_gib_egress@,
            free_tier_bytes: self.free_tier_bytes,
            channel_required: self.channel_required,
        }
    }
}

impl Clone for Quota {
    fn clone(&self) -> (r: Self)
        ensures
            r == *self,
    {
        Quota {
            price_per_gib_month: self.price_per_gib_month.clone(),
            price_per_gib_egress: self.price_per_gib_egress.clone(),
            free_tier_bytes: self.free_tier_bytes,
            channel_required: self.channel_required,
        }
    }
}

impl Default for Quota {
    /// Terms that charge nothing.
    fn default() -> (r: Self)
        ensures
            r.price_per_gib_month@ == Seq::<char>::empty(),
            r.price_per_gib_egress@ == Seq::<char>::empty(),
            r.free_tier_bytes == 0,
            !r.channel_required,
    {
        Quota {
            price_per_gib_month: String::new(),
            price_per_gib_egress: String::new(),
            free_tier_bytes: 0,
            channel_required: false,
        }
    }
}

/// The answer to a request that was carried out. The order of the variants is the wire format.
#[derive(Debug, Clone, PartialEq, Eq)]
pub enum DriveOk {
    Opened { drive_root_cid: String, server_seq: u64, granted_abilities: Vec<String>, quota: Quota },
    Entry(Entry),
    Listing { entries: Vec<Entry>, next_cursor: Option<String> },
    ReadPlan(ReadPlan),
    Written { etag: String, node_id: String, version_seq: u64 },
    Made { node_id: String },
    Deleted,
    Shared { chain: String },
    Changes { changes: Vec<Change>, new_cursor: u64 },
    Watching { topic: String, cursor: u64 },
}

/// Model of [`DriveOk`].
#[verifier::ext_equal]
pub enum OkView {
    Opened {
        drive_root_cid: Seq<char>,
        server_seq: u64,
        granted_abilities: Seq<Seq<char>>,
        quota: QuotaView,
    },
    Entry(EntryView),
    Listing { entries: Seq<EntryView>, next_cursor: Option<Seq<char>> },
    ReadPlan(PlanView),
    Written { etag: Seq<char>, node_id: Seq<char>, version_seq: u64 },
    Made { node_id: Seq<char> },
    Deleted,
    Shared { chain: Seq<char> },
    Changes { changes: Seq<ChangeView>, new_cursor: u64 },
    Watching { topic: Seq<char>, cursor: u64 },
}

impl DeepView for DriveOk {
    type V = OkView;

    open spec fn deep_view(&self) -> OkView {
        match *self {
            DriveOk::Opened { drive_root_cid, server_seq, granted_abilities, quota } => OkView::Opened {
                drive_root_cid: drive_root_cid@,
                server_seq,
                granted_abilities: granted_abilities.deep_view(),
                quota: quota.deep_view(),
            },
            DriveOk::Entry(e) => OkView::Entry(e.deep_view()),
            DriveOk::Listing { entries, next_cursor } => OkView::Listing {
                entries: entries.deep_view(),
                next_cursor: next_cursor.deep_view(),
            },
            DriveOk::ReadPlan(p) => OkView::ReadPlan(p.deep_view()),
            DriveOk::Written { etag, node_id, version_seq } => OkView::Written {
                etag: etag@,
                node_id: node_id@,
                version_seq,
            },
            DriveOk::Made { node_id } => OkView::Made { node_id: node_id@ },
            DriveOk::Deleted => OkView::Deleted,
            DriveOk::Shared { chain } => OkView::Shared { chain: chain@ },
            DriveOk::Changes { changes, new_cursor } => OkView::Changes {
                changes: changes.deep_view(),
                new_cursor,
            },
            DriveOk::Watching { topic, cursor } => OkView::Watching { topic: topic@, cursor },
        }
    }
}

/// A reply.
#[derive(Debug, PartialEq, Eq)]
pub struct DriveReply {
    pub result: Result<DriveOk, DriveErr>,
}

/// Model of [`DriveReply`].
pub type ReplyView = Result<OkView, ErrView>;

impl DeepView for DriveReply {
    type V = ReplyView;

    open spec fn deep_view(&self) -> ReplyView {
        match self.result {
            Ok(ok) => Ok(ok.deep_view()),
            Err(e) => Err(e.deep_view()),
        }
    }
}

impl DriveReply {
    /// The reply to a request that was carried out.
    pub fn ok(ok: DriveOk) -> (r: DriveReply)
        ensures
            r.result == Ok::<DriveOk, DriveErr>(ok),
    {
        DriveReply { result: Ok(ok) }
    }

    /// The reply to a request that was refused.
    pub fn err(e: DriveErr) -> (r: DriveReply)
        ensures
            r.result == Err::<DriveOk, DriveErr>(e),
    {
        DriveReply { result: Err(e) }
    }
}

/// A hint that a drive has advanced.
#[derive(Debug, Clone, PartialEq, Eq)]
pub struct Beacon {
    pub drive: String,
    pub max_seq: u64,
}

/// The topic of `drive`'s change beacons.
pub fn changes_topic(drive: &str) -> (r: String)
    ensures
        r@ == CHANGES_PREFIX@ + drive@,
{
    crate::text::cat(CHANGES_PREFIX, drive)
}

/// Every refusal has a number of its own, that which such a refusal has in HTTP where it has one there.
pub proof fn law_codes_tell_refusals_apart(e: ErrView)
    ensures
        code_of(e) == 400 <==> e is BadPath,
        code_of(e) == 401 <==> e is Unauthorized,
        code_of(e) == 402 <==> e is PaymentRequired,
        code_of(e) == 403 <==> e is OutOfScope,
        code_of(e) == 404 <==> e is NotFound,
        code_of(e) == 409 <==> e is Conflict,
        code_of(e) == 410 <==> e is Revoked,
        code_of(e) == 419 <==> e is Expired,
        code_of(e) == 429 <==> e is QuotaExceeded,
        code_of(e) == 500 <==> e is Internal,
{
}

} // verus!
