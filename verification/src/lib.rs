//! The host side of a mesh drive: a server that answers the `ce-drive/v1` operations
//! (Open/Stat/List/Read/Write/Mkdir/Move/Copy/Delete/Share/Poll/Watch), checks every request
//! against a presented capability chain, and hands the contents of its drives to an index.
//!
//! The crate is the logic of the host, without its I/O. [`serve::DriveServer`] says step by step
//! what a request needs from outside, and what to reply; [`walk::Walk`] does the same for the crawl
//! of a drive. Both leave the network, the disk, the keys and the tree of a drive to the caller.
pub mod cap;
pub mod codec;
pub mod conduct;
pub mod corpus;
pub mod drive;
pub mod envelope;
pub mod feed;
pub mod inbox;
pub mod json;
pub mod layout;
pub mod path;
pub mod props;
pub mod rules;
pub mod serve;
pub mod step;
pub mod tenant;
pub mod text;
pub mod walk;
pub mod wire;

pub use codec::{decode_req, encode_reply, encode_req};
pub use feed::Feed;
pub use path::drive_caveat_prefix;
pub use serve::DriveServer;
pub use tenant::{Registry, Tenant};
pub use wire::{
    changes_topic, Beacon, Change, ChangeKind, ChunkRef, DriveErr, DriveOk, DriveOp, DriveReply,
    DriveReq, Entry, EntryKind, Quota, ReadPlan, ShareCaveats, DRIVE_TOPIC,
};
