//! Who may do what: node ids, capabilities, the guard that every request passes, and the terms of
//! a shared capability.
//!
//! Signatures, attenuation, audience, expiry and revocation are the verdict of the capability
//! verifier. This module turns that verdict into an answer, and enforces what the verifier leaves
//! to the host: a capability is bound to one drive and one subtree by its path prefix
//! (`ce-drive/<drive>[/<subtree>]`), and a capability outside that namespace authorizes nothing.
use sha2::Digest;
use vstd::prelude::*;
use vstd::string::*;
use vstd::utf8::encode_utf8;

use crate::codec::{le_value, lemma_le_bound};
use crate::path::{
    bound_to, caveat, caveat_scope, covered, drive_caveat_prefix, has_dotdot, in_subtree,
    law_bound_shape, law_caveat_binds_drive, law_caveat_binds_subtree, law_norm_keeps_dotdot,
    law_prefix_binds_what_it_names, law_subtrees_nest, nameable, names, no_dotdot, norm, norm_path,
    root,
};
use crate::text::{
    begins, cat, contains, copy_strings, has_piece, is_white_space, law_only_the_ends_are_taken_off,
    lemma_strip_fixed, same, strip_edges, trimmed, Edge,
};
use crate::wire::{DriveErr, DriveOp, ErrView, OpView, ShareCaveats};

verus! {

// ----- node ids -----

/// The id of a node: its public key.
pub type NodeId = [u8; 32];

/// The value of a hexadecimal digit, in either case.
pub open spec fn hex_value(c: char) -> Option<int> {
    if '0' <= c <= '9' {
        Some(c as int - '0' as int)
    } else if 'a' <= c <= 'f' {
        Some(c as int - 'a' as int + 10)
    } else if 'A' <= c <= 'F' {
        Some(c as int - 'A' as int + 10)
    } else {
        None
    }
}

/// Whether a text is made of pairs of hexadecimal digits.
pub open spec fn is_hex(s: Seq<char>) -> bool {
    &&& s.len() % 2 == 0
    &&& forall|i: int| 0 <= i < s.len() ==> hex_value(#[trigger] s[i]) is Some
}

/// The bytes that pairs of hexadecimal digits stand for.
pub open spec fn hex_bytes(s: Seq<char>) -> Seq<u8> {
    Seq::new(
        s.len() / 2,
        |i: int| (16 * hex_value(s[2 * i])->0 + hex_value(s[2 * i + 1])->0) as u8,
    )
}

/// `hex::decode`: the bytes of a text of pairs of hexadecimal digits, in either case; nothing for
/// any other text.
#[verifier::external_body]
fn hex_decode(s: &str) -> (r: Option<Vec<u8>>)
    ensures
        match r {
            Some(v) => is_hex(s@) && v@ == hex_bytes(s@),
            None => !is_hex(s@),
        },
{
    hex::decode(s).ok()
}

/// The hexadecimal digit for four bits, in lower case.
pub open spec fn hex_digit(n: int) -> char {
    if n < 10 {
        ('0' as int + n) as char
    } else {
        ('a' as int + n - 10) as char
    }
}

/// The hexadecimal text of bytes: two digits for each.
pub open spec fn hex_text(b: Seq<u8>) -> Seq<char> {
    Seq::new(
        2 * b.len(),
        |i: int| hex_digit(if i % 2 == 0 { b[i / 2] as int / 16 } else { b[i / 2] as int % 16 }),
    )
}

/// `hex::encode`: the hexadecimal text of bytes, in lower case.
#[verifier::external_body]
pub(crate) fn hex_encode(data: &[u8]) -> (r: String)
    requires
        2 * data@.len() <= isize::MAX,
    ensures
        r@ == hex_text(data@),
{
    hex::encode(data)
}

/// The hexadecimal text of bytes reads back as the bytes.
pub proof fn law_hex_reads_back(b: Seq<u8>)
    ensures
        is_hex(hex_text(b)),
        hex_text(b).len() == 2 * b.len(),
        hex_bytes(hex_text(b)) == b,
{
    let t = hex_text(b);
    assert forall|i: int| 0 <= i < t.len() implies hex_value(#[trigger] t[i]) is Some by {
        lemma_hex_digit(if i % 2 == 0 { b[i / 2] as int / 16 } else { b[i / 2] as int % 16 });
    }
    assert forall|i: int| 0 <= i < b.len() implies #[trigger] hex_bytes(t)[i] == b[i] by {
        lemma_hex_digit(b[i] as int / 16);
        lemma_hex_digit(b[i] as int % 16);
        assert((2 * i) / 2 == i && (2 * i) % 2 == 0);
        assert((2 * i + 1) / 2 == i && (2 * i + 1) % 2 == 1);
        assert(t[2 * i] == hex_digit(b[i] as int / 16));
        assert(t[2 * i + 1] == hex_digit(b[i] as int % 16));
    }
    assert(hex_bytes(t) =~= b);
}

proof fn lemma_hex_digit(n: int)
    requires
        0 <= n < 16,
    ensures
        hex_value(hex_digit(n)) == Some(n),
        !is_white_space(hex_digit(n)),
{
}

/// The id of a node, written in hexadecimal, is 64 digits that name the node again.
pub proof fn law_node_id_reads_back(id: Seq<u8>)
    requires
        id.len() == 32,
    ensures
        is_hex(hex_text(id)),
        hex_text(id).len() == 64,
        node_id_of(hex_text(id)) == Some(id),
{
    law_hex_reads_back(id);
    lemma_hex_digit(id[0] as int / 16);
    lemma_hex_digit(id[31] as int % 16);
    lemma_strip_fixed(Edge::Space, hex_text(id));
}

/// The bytes of a hexadecimal text; nothing if it is not one.
pub fn decode_hex(s: &str) -> (r: Option<Vec<u8>>)
    ensures
        r is Some <==> is_hex(s@),
        r matches Some(v) ==> v@ == hex_bytes(s@),
{
    hex_decode(s)
}

/// The node id that a text names: 64 hexadecimal digits, white space around them aside.
pub open spec fn node_id_of(s: Seq<char>) -> Option<Seq<u8>> {
    let t = trimmed(s);
    if is_hex(t) && t.len() == 64 {
        Some(hex_bytes(t))
    } else {
        None
    }
}

/// The node id that a text names: 64 hexadecimal digits, white space around them aside.
pub fn parse_node_id(hex_str: &str) -> (r: Option<NodeId>)
    ensures
        match r {
            Some(id) => node_id_of(hex_str@) == Some(id@),
            None => node_id_of(hex_str@) is None,
        },
{
    let t = strip_edges(Edge::Space, hex_str);
    match hex_decode(t.as_str()) {
        None => None,
        Some(v) => {
            if v.len() != 32 {
                return None;
            }
            let mut id: NodeId = [0u8;32];
            let mut i: usize = 0;
            while i < 32
                invariant
                    i <= 32,
                    v@.len() == 32,
                    id@.take(i as int) =~= v@.take(i as int),
                decreases 32 - i,
            {
                id[i] = v[i];
                i = i + 1;
            }
            assert(id@.take(32) =~= id@);
            assert(id@ =~= v@);
            Some(id)
        },
    }
}

/// The entries of a published revocation list that name a node, in order.
pub open spec fn named_entries(list: Seq<(Seq<char>, u64)>) -> Seq<(Seq<u8>, u64)>
    decreases list.len(),
{
    if list.len() == 0 {
        Seq::empty()
    } else {
        let head = named_entries(list.drop_last());
        match node_id_of(list.last().0) {
            Some(id) => head.push((id, list.last().1)),
            None => head,
        }
    }
}

/// The revocations in a published list: each entry whose issuer is a node id; others are skipped.
pub fn revoked_set(list: &Vec<(String, u64)>) -> (r: Vec<(NodeId, u64)>)
    ensures
        r.deep_view() == named_entries(list.deep_view()),
{
    let mut out: Vec<(NodeId, u64)> = Vec::new();
    let ghost all = list.deep_view();
    let mut i: usize = 0;
    assert(out.deep_view() =~= named_entries(all.take(0)));
    while i < list.len()
        invariant
            i <= list@.len(),
            all == list.deep_view(),
            out.deep_view() == named_entries(all.take(i as int)),
        decreases list@.len() - i,
    {
        let ghost was = out.deep_view();
        assert(all.take(i + 1).drop_last() =~= all.take(i as int));
        assert(all.take(i + 1).last() == all[i as int]);
        match parse_node_id(list[i].0.as_str()) {
            Some(id) => {
                assert(id.deep_view() =~= id@);
                out.push((id, list[i].1));
                assert(out.deep_view() =~= was.push((id@, list@[i as int].1)));
            },
            None => {},
        }
        i = i + 1;
    }
    assert(all.take(i as int) =~= all);
    out
}

/// Whether a revocation of `issuer`'s capability `nonce` is among `revoked`.
pub fn is_revoked(revoked: &Vec<(NodeId, u64)>, issuer: &NodeId, nonce: u64) -> (r: bool)
    ensures
        r == revoked.deep_view().contains((issuer@, nonce)),
{
    let ghost all = revoked.deep_view();
    let mut i: usize = 0;
    while i < revoked.len()
        invariant
            i <= revoked@.len(),
            all == revoked.deep_view(),
            forall|k: int| 0 <= k < i ==> all[k] != (issuer@, nonce),
        decreases revoked@.len() - i,
    {
        assert(all[i as int] == (revoked@[i as int].0.deep_view(), revoked@[i as int].1));
        assert(revoked@[i as int].0.deep_view() =~= revoked@[i as int].0@);
        if revoked[i].1 == nonce && same_id(&revoked[i].0, issuer) {
            assert(all[i as int] == (issuer@, nonce));
            return true;
        }
        i = i + 1;
    }
    false
}

fn same_id(a: &NodeId, b: &NodeId) -> (r: bool)
    ensures
        r == (a@ == b@),
{
    let mut i: usize = 0;
    while i < 32
        invariant
            i <= 32,
            forall|k: int| 0 <= k < i ==> a@[k] == b@[k],
        decreases 32 - i,
    {
        if a[i] != b[i] {
            return false;
        }
        i = i + 1;
    }
    assert(a@ =~= b@);
    true
}

/// A revocation that the list names is found, and nothing else is: what is not revoked cannot be
/// refused as revoked, and what is revoked cannot pass.
pub proof fn law_revocations_are_exactly_the_named_ones(
    list: Seq<(Seq<char>, u64)>,
    id: Seq<u8>,
    nonce: u64,
)
    ensures
        named_entries(list).contains((id, nonce)) <==> exists|i: int|
            0 <= i < list.len() && node_id_of((#[trigger] list[i]).0) == Some(id) && list[i].1
                == nonce,
    decreases list.len(),
{
    if list.len() > 0 {
        let init = list.drop_last();
        law_revocations_are_exactly_the_named_ones(init, id, nonce);
        let head = named_entries(init);
        let whole = named_entries(list);
        if whole.contains((id, nonce)) {
            let k = choose|k: int| 0 <= k < whole.len() && whole[k] == (id, nonce);
            if k < head.len() {
                assert(head[k] == (id, nonce));
                assert(head.contains((id, nonce)));
                let i = choose|i: int|
                    0 <= i < init.len() && node_id_of((#[trigger] init[i]).0) == Some(id)
                        && init[i].1 == nonce;
                assert(list[i] == init[i]);
            } else {
                assert(list[list.len() - 1] == list.last());
            }
        }
        if exists|i: int|
            0 <= i < list.len() && node_id_of((#[trigger] list[i]).0) == Some(id) && list[i].1
                == nonce {
            let i = choose|i: int|
                0 <= i < list.len() && node_id_of((#[trigger] list[i]).0) == Some(id) && list[i].1
                    == nonce;
            if i < init.len() {
                assert(init[i] == list[i]);
                assert(head.contains((id, nonce)));
                let k = choose|k: int| 0 <= k < head.len() && head[k] == (id, nonce);
                assert(whole[k] == (id, nonce));
            } else {
                assert(whole.last() == (id, nonce));
            }
        }
    }
}

// ----- abilities and capabilities -----

/// The ability to see a drive.
pub const READ: &'static str = "drive:read";

/// The ability to change a drive.
pub const WRITE: &'static str = "drive:write";

/// The ability to grant others abilities on a drive.
pub const ADMIN: &'static str = "drive:admin";

/// What the host reads of one link of a capability chain.
#[derive(Debug, PartialEq, Eq)]
pub struct Capability {
    pub abilities: Vec<String>,
    /// What the capability is bound to; see [`crate::path::caveat_scope`].
    pub path_prefix: Option<String>,
    /// Unix second after which the capability is void; 0 is never.
    pub not_after: u64,
}

/// Model of [`Capability`].
#[verifier::ext_equal]
pub struct CapView {
    pub abilities: Seq<Seq<char>>,
    pub path_prefix: Option<Seq<char>>,
    pub not_after: u64,
}

impl DeepView for Capability {
    type V = CapView;

    open spec fn deep_view(&self) -> CapView {
        CapView {
            abilities: self.abilities.deep_view(),
            path_prefix: self.path_prefix.deep_view(),
            not_after: self.not_after,
        }
    }
}

/// The ability an operation requires.
pub open spec fn ability_for(op: OpView) -> Seq<char> {
    match op {
        OpView::Write { .. } | OpView::Mkdir { .. } | OpView::Copy { .. } | OpView::Move { .. }
        | OpView::Delete { .. } | OpView::SetProp { .. } | OpView::Tag { .. }
        | OpView::Link { .. } => WRITE@,
        OpView::Share { .. } => ADMIN@,
        OpView::Open | OpView::Stat { .. } | OpView::List { .. } | OpView::Read { .. }
        | OpView::Poll { .. } | OpView::Watch | OpView::Meta { .. } | OpView::Backlinks { .. }
        | OpView::Versions { .. } => READ@,
    }
}

/// The ability string an op requires.
pub fn required_ability(op: &DriveOp) -> (r: &'static str)
    ensures
        r@ == ability_for(op.deep_view()),
{
    match op {
        DriveOp::Open
        | DriveOp::Stat { .. }
        | DriveOp::List { .. }
        | DriveOp::Read { .. }
        | DriveOp::Meta { .. }
        | DriveOp::Backlinks { .. }
        | DriveOp::Versions { .. } => READ,
        DriveOp::Write { .. }
        | DriveOp::Mkdir { .. }
        | DriveOp::Copy { .. }
        | DriveOp::SetProp { .. }
        | DriveOp::Tag { .. }
        | DriveOp::Link { .. } => WRITE,
        // A move or a removal takes a name away and gives one: both are writes.
        DriveOp::Move { .. } | DriveOp::Delete { .. } => WRITE,
        DriveOp::Share { .. } => ADMIN,
        // A reader may follow the change feed.
        DriveOp::Poll { .. } | DriveOp::Watch => READ,
    }
}

/// The path an operation touches; nothing for one on the drive as a whole.
pub open spec fn path_of(op: OpView) -> Option<Seq<char>> {
    match op {
        OpView::Stat { path } => Some(path),
        OpView::List { path, .. } => Some(path),
        OpView::Read { path, .. } => Some(path),
        OpView::Write { path, .. } => Some(path),
        OpView::Mkdir { path } => Some(path),
        OpView::Delete { path, .. } => Some(path),
        OpView::Share { path, .. } => Some(path),
        OpView::Meta { path } => Some(path),
        OpView::SetProp { path, .. } => Some(path),
        OpView::Tag { path, .. } => Some(path),
        OpView::Link { path, .. } => Some(path),
        OpView::Versions { path } => Some(path),
        OpView::Move { to, .. } => Some(to),
        OpView::Copy { to, .. } => Some(to),
        OpView::Open | OpView::Poll { .. } | OpView::Watch | OpView::Backlinks { .. } => None,
    }
}

/// The path an operation takes something from, where it has two.
pub open spec fn source_of(op: OpView) -> Option<Seq<char>> {
    match op {
        OpView::Move { from, .. } => Some(from),
        OpView::Copy { from, .. } => Some(from),
        _ => None,
    }
}

/// The path an op touches, for the path-prefix caveat check. `None` = drive-level (no path scope).
pub fn op_path(op: &DriveOp) -> (r: Option<&str>)
    ensures
        r.deep_view() == path_of(op.deep_view()),
{
    match op {
        DriveOp::Stat { path }
        | DriveOp::List { path, .. }
        | DriveOp::Read { path, .. }
        | DriveOp::Write { path, .. }
        | DriveOp::Mkdir { path }
        | DriveOp::Delete { path, .. }
        | DriveOp::Share { path, .. }
        | DriveOp::Meta { path }
        | DriveOp::SetProp { path, .. }
        | DriveOp::Tag { path, .. }
        | DriveOp::Link { path, .. }
        | DriveOp::Versions { path } => Some(path.as_str()),
        // The destination is the binding write; the source is checked beside it.
        DriveOp::Move { to, .. } | DriveOp::Copy { to, .. } => Some(to.as_str()),
        DriveOp::Open | DriveOp::Poll { .. } | DriveOp::Watch | DriveOp::Backlinks { .. } => None,
    }
}

fn op_source(op: &DriveOp) -> (r: Option<&str>)
    ensures
        r.deep_view() == source_of(op.deep_view()),
{
    match op {
        DriveOp::Move { from, .. } | DriveOp::Copy { from, .. } => Some(from.as_str()),
        _ => None,
    }
}

// ----- the guard -----

/// Whether a capability is bound to `drive`.
pub open spec fn bound_to_drive(cap: CapView, drive: Seq<char>) -> bool {
    cap.path_prefix matches Some(p) && bound_to(p) matches Some((d, _)) && d == drive
}

/// Whether a capability is bound to `drive` and to a subtree that `path` lies in.
pub open spec fn in_scope(cap: CapView, drive: Seq<char>, path: Seq<char>) -> bool {
    cap.path_prefix matches Some(p) && bound_to(p) matches Some((d, top)) && d == drive
        && in_subtree(top, norm(path))
}

/// What `str::to_lowercase` gives for a text.
pub uninterp spec fn lowercase(s: Seq<char>) -> Seq<char>;

/// `str::to_lowercase`: the lowercase equivalent of a text, by the Unicode mappings.
#[verifier::external_body]
fn lowered(s: &str) -> (r: String)
    ensures
        r@ == lowercase(s@),
{
    s.to_lowercase()
}

/// The refusal that a verifier's objection, in lower case, stands for.
pub open spec fn refusal_for(objection: Seq<char>) -> ErrView {
    if has_piece(objection, "revoked"@) {
        ErrView::Revoked
    } else if has_piece(objection, "expired"@) || has_piece(objection, "not yet valid"@) {
        ErrView::Expired
    } else {
        ErrView::Unauthorized
    }
}

/// The refusal that a verifier's objection, in lower case, stands for.
pub fn refusal(objection: &str) -> (r: DriveErr)
    ensures
        r.deep_view() == refusal_for(objection@),
{
    if contains(objection, "revoked") {
        DriveErr::Revoked
    } else if contains(objection, "expired") || contains(objection, "not yet valid") {
        DriveErr::Expired
    } else {
        DriveErr::Unauthorized
    }
}

/// The paths of an operation are free of `..`, in the normal form that is acted on, and within the
/// scope of `leaf` on `drive`; or the refusal.
pub open spec fn paths_admitted(leaf: CapView, drive: Seq<char>, op: OpView) -> Result<(), ErrView> {
    match path_of(op) {
        None => Ok(()),
        Some(path) => if has_dotdot(norm(path)) || (source_of(op) matches Some(from) && has_dotdot(
            norm(from),
        )) {
            Err(ErrView::BadPath)
        } else if source_of(op) matches Some(from) && !in_scope(leaf, drive, from) {
            Err(ErrView::OutOfScope)
        } else if !in_scope(leaf, drive, path) {
            Err(ErrView::OutOfScope)
        } else {
            Ok(())
        },
    }
}

/// The answer of the guard: the abilities of the leaf capability, or the refusal.
///
/// `verdict` is what the capability verifier said of the chain, the sender and the ability that
/// the operation requires, with the objection in lower case.
pub open spec fn admission(
    verdict: Result<(), Seq<char>>,
    drive: Seq<char>,
    op: OpView,
    chain: Seq<CapView>,
) -> Result<Seq<Seq<char>>, ErrView> {
    match verdict {
        Err(objection) => Err(refusal_for(objection)),
        Ok(()) => if chain.len() == 0 {
            Err(ErrView::Unauthorized)
        } else if !bound_to_drive(chain.last(), drive) {
            Err(ErrView::OutOfScope)
        } else {
            match paths_admitted(chain.last(), drive, op) {
                Err(e) => Err(e),
                Ok(()) => Ok(chain.last().abilities),
            }
        },
    }
}

/// Model of a verdict.
pub open spec fn verdict_view(verdict: Result<(), String>) -> Result<(), Seq<char>> {
    match verdict {
        Ok(()) => Ok(()),
        Err(objection) => Err(objection@),
    }
}

/// A verdict with its objection in lower case.
pub open spec fn lowered_verdict(verdict: Result<(), Seq<char>>) -> Result<(), Seq<char>> {
    match verdict {
        Ok(()) => Ok(()),
        Err(objection) => Err(lowercase(objection)),
    }
}

/// Model of the result of the guard.
pub open spec fn admitted_view(r: Result<Vec<String>, DriveErr>) -> Result<
    Seq<Seq<char>>,
    ErrView,
> {
    match r {
        Ok(abilities) => Ok(abilities.deep_view()),
        Err(e) => Err(e.deep_view()),
    }
}

/// Verify that the cap chain authorizes `op` on `drive`. Returns the granted ability strings (the
/// leaf's abilities) on success, or a [`DriveErr`] on failure. This is the single authorization
/// guard every request passes through.
///
/// `verdict` is what the capability verifier said of `chain`, the sender and
/// [`required_ability`]`(op)`.
pub fn authorize_req(
    verdict: &Result<(), String>,
    drive: &str,
    op: &DriveOp,
    chain: &Vec<Capability>,
) -> (r: Result<Vec<String>, DriveErr>)
    ensures
        admitted_view(r) == admission(
            lowered_verdict(verdict_view(*verdict)),
            drive@,
            op.deep_view(),
            chain.deep_view(),
        ),
{
    match verdict {
        Err(objection) => Err(refusal(lowered(objection.as_str()).as_str())),
        Ok(()) => admit_leaf(drive, op, chain),
    }
}

/// The part of the guard after the capability verifier: the leaf's binding to the drive and to a
/// subtree.
pub fn admit_leaf(drive: &str, op: &DriveOp, chain: &Vec<Capability>) -> (r: Result<
    Vec<String>,
    DriveErr,
>)
    ensures
        admitted_view(r) == admission(Ok(()), drive@, op.deep_view(), chain.deep_view()),
{
    let n: usize = chain.len();
    if n == 0 {
        return Err(DriveErr::Unauthorized);
    }
    let leaf = &chain[n - 1];
    assert(chain.deep_view().last() == leaf.deep_view());
    if !serves_drive(leaf, drive) {
        return Err(DriveErr::OutOfScope);
    }
    if let Some(path) = op_path(op) {
        match no_dotdot(norm_path(path).as_str()) {
            Err(e) => {
                return Err(e);
            },
            Ok(()) => {},
        }
        if let Some(from) = op_source(op) {
            match no_dotdot(norm_path(from).as_str()) {
                Err(e) => {
                    return Err(e);
                },
                Ok(()) => {},
            }
            match enforce_prefix(leaf, drive, from) {
                Err(e) => {
                    return Err(e);
                },
                Ok(()) => {},
            }
        }
        match enforce_prefix(leaf, drive, path) {
            Err(e) => {
                return Err(e);
            },
            Ok(()) => {},
        }
    }
    let abilities = copy_strings(&leaf.abilities);
    assert(abilities.deep_view() =~= leaf.abilities.deep_view());
    Ok(abilities)
}

fn serves_drive(leaf: &Capability, drive: &str) -> (r: bool)
    ensures
        r == bound_to_drive(leaf.deep_view(), drive@),
{
    match &leaf.path_prefix {
        None => false,
        Some(prefix) => match caveat_scope(prefix.as_str()) {
            None => false,
            Some((d, _)) => same(d.as_str(), drive),
        },
    }
}

/// Enforce the leaf cap's `path_prefix` caveat against `path` on `drive` (fail-closed).
pub fn enforce_prefix(leaf: &Capability, drive: &str, path: &str) -> (r: Result<(), DriveErr>)
    ensures
        r == (if in_scope(leaf.deep_view(), drive@, path@) {
            Ok(())
        } else {
            Err::<(), DriveErr>(DriveErr::OutOfScope)
        }),
{
    match &leaf.path_prefix {
        None => Err(DriveErr::OutOfScope),
        Some(prefix) => match caveat_scope(prefix.as_str()) {
            None => Err(DriveErr::OutOfScope),
            Some((d, top)) => if same(d.as_str(), drive) && covered(top.as_str(), path) {
                Ok(())
            } else {
                Err(DriveErr::OutOfScope)
            },
        },
    }
}

/// Nothing passes the guard against the verifier, without a capability, for another drive, with a
/// `..` component in a path (as it came, or in the normal form that is acted on), or with a path out
/// of the capability's subtree.
pub proof fn law_guard_fails_closed(
    verdict: Result<(), Seq<char>>,
    drive: Seq<char>,
    op: OpView,
    chain: Seq<CapView>,
)
    requires
        admission(verdict, drive, op, chain) is Ok,
    ensures
        verdict is Ok,
        chain.len() > 0,
        bound_to_drive(chain.last(), drive),
        path_of(op) matches Some(p) ==> !has_dotdot(p) && !has_dotdot(norm(p)) && in_scope(
            chain.last(),
            drive,
            p,
        ),
        source_of(op) matches Some(p) ==> !has_dotdot(p) && !has_dotdot(norm(p)) && in_scope(
            chain.last(),
            drive,
            p,
        ),
{
    if let Some(p) = path_of(op) {
        law_norm_keeps_dotdot(p);
    }
    if let Some(p) = source_of(op) {
        law_norm_keeps_dotdot(p);
    }
}

/// A capability minted for one drive authorizes nothing on another, whatever the operation. Its
/// prefix has to name the drive, or none at all: a drive whose id holds a `/` has no such prefix.
pub proof fn law_capability_is_not_replayed_on_another_drive(
    verdict: Result<(), Seq<char>>,
    op: OpView,
    chain: Seq<CapView>,
    minted_for: Seq<char>,
    path: Seq<char>,
    drive: Seq<char>,
)
    requires
        nameable(minted_for, path) || bound_to(caveat(minted_for, path)) is None,
        chain.len() > 0,
        chain.last().path_prefix == Some(caveat(minted_for, path)),
        drive != minted_for,
    ensures
        admission(verdict, drive, op, chain) is Err,
{
    if nameable(minted_for, path) {
        law_caveat_binds_drive(minted_for, path);
    }
}

/// A capability without a prefix, or with one outside the namespace of drives, authorizes nothing.
pub proof fn law_unbound_capability_authorizes_nothing(
    verdict: Result<(), Seq<char>>,
    drive: Seq<char>,
    op: OpView,
    chain: Seq<CapView>,
)
    requires
        chain.len() > 0,
        chain.last().path_prefix matches Some(p) ==> bound_to(p) is None,
    ensures
        admission(verdict, drive, op, chain) is Err,
{
}

// ----- sharing -----

/// The digest of `sha2::Sha256`.
pub uninterp spec fn sha256_of(data: Seq<u8>) -> Seq<u8>;

/// `sha2::Sha256::digest`: the SHA-256 digest of `data`, 32 bytes.
#[verifier::external_body]
fn sha256(data: &[u8]) -> (r: Vec<u8>)
    ensures
        r@ == sha256_of(data@),
        r@.len() == 32,
{
    sha2::Sha256::digest(data).to_vec()
}

/// The first eight bytes of a digest as a number, least significant first.
pub fn nonce_of(digest: &Vec<u8>) -> (r: u64)
    requires
        digest@.len() >= 8,
    ensures
        r as nat == le_value(digest@.take(8)),
{
    let ghost head = digest@.take(8);
    let mut acc: u64 = 0;
    let mut i: usize = 8;
    assert(head.skip(8).len() == 0);
    while i > 0
        invariant
            i <= 8,
            digest@.len() >= 8,
            head == digest@.take(8),
            acc as nat == le_value(head.skip(i as int)),
        decreases i,
    {
        proof {
            lemma_le_bound(head.skip(i - 1));
            assert(head.skip(i - 1).drop_first() =~= head.skip(i as int));
        }
        acc = digest[i - 1] as u64 + 256 * acc;
        i = i - 1;
    }
    assert(head.skip(0) =~= head);
    acc
}

/// The text whose digest the nonce of a shared capability is taken from.
pub open spec fn nonce_text(audience: Seq<char>, path: Seq<char>) -> Seq<char> {
    audience + "|"@ + path
}

/// The nonce of a shared capability.
pub open spec fn nonce_for(audience: Seq<char>, path: Seq<char>) -> nat {
    le_value(sha256_of(encode_utf8(nonce_text(audience, path))).take(8))
}

/// Deterministic nonce for a minted Share cap, so re-sharing the same (audience, path) is stable and
/// revocable by a predictable key. Uses sha256 truncated to u64.
pub fn derive_nonce(audience: &str, path: &str) -> (r: u64)
    ensures
        r as nat == nonce_for(audience@, path@),
{
    let text = cat(audience, "|").concat(path);
    let digest = sha256(text.as_str().as_bytes());
    nonce_of(&digest)
}

/// The terms of a capability to mint.
#[derive(Debug, PartialEq, Eq)]
pub struct Mint {
    pub audience: NodeId,
    pub abilities: Vec<String>,
    pub not_after: u64,
    pub path_prefix: String,
    pub nonce: u64,
}

/// Model of [`Mint`].
#[verifier::ext_equal]
pub struct MintView {
    pub audience: Seq<u8>,
    pub abilities: Seq<Seq<char>>,
    pub not_after: u64,
    pub path_prefix: Seq<char>,
    pub nonce: nat,
}

impl DeepView for Mint {
    type V = MintView;

    open spec fn deep_view(&self) -> MintView {
        MintView {
            audience: self.audience@,
            abilities: self.abilities.deep_view(),
            not_after: self.not_after,
            path_prefix: self.path_prefix@,
            nonce: self.nonce as nat,
        }
    }
}

/// The abilities to grant: those asked for that the sharer has; to read, if none were asked for.
pub open spec fn granted(asked: Seq<Seq<char>>, held: Seq<Seq<char>>) -> Seq<Seq<char>> {
    if asked.len() == 0 {
        seq![READ@]
    } else {
        asked.filter(|a: Seq<char>| held.contains(a))
    }
}

/// The earlier of two expiries, where 0 is never.
pub open spec fn earlier(asked: u64, held: u64) -> u64 {
    if asked == 0 {
        held
    } else if held == 0 || asked <= held {
        asked
    } else {
        held
    }
}

/// The terms on which a holder of `chain` shares `path` on `drive`, or the refusal. A path that no
/// prefix can be bound to, such as one that ends in white space, cannot be shared.
pub open spec fn share_terms(
    chain: Seq<CapView>,
    drive: Seq<char>,
    path: Seq<char>,
    audience: Seq<char>,
    abilities: Seq<Seq<char>>,
    not_after: u64,
) -> Result<MintView, ErrView> {
    if chain.len() == 0 {
        Err(ErrView::Unauthorized)
    } else {
        let parent = chain.last();
        match node_id_of(audience) {
            None => Err(ErrView::BadPath),
            Some(id) => if has_dotdot(norm(path)) {
                Err(ErrView::BadPath)
            } else if !in_scope(parent, drive, path) {
                Err(ErrView::OutOfScope)
            } else if granted(abilities, parent.abilities).len() == 0 {
                Err(ErrView::OutOfScope)
            } else if bound_to(caveat(drive, path)) != Some((drive, norm(path))) {
                Err(ErrView::BadPath)
            } else {
                Ok(
                    MintView {
                        audience: id,
                        abilities: granted(abilities, parent.abilities),
                        not_after: earlier(not_after, parent.not_after),
                        path_prefix: caveat(drive, path),
                        nonce: nonce_for(audience, path),
                    },
                )
            },
        }
    }
}

/// Model of the result of [`share`].
pub open spec fn share_view(r: Result<Mint, DriveErr>) -> Result<MintView, ErrView> {
    match r {
        Ok(m) => Ok(m.deep_view()),
        Err(e) => Err(e.deep_view()),
    }
}

/// The terms of the capability that the host mints when the holder of `chain` shares `path`: never
/// more than the sharer holds.
pub fn share(
    chain: &Vec<Capability>,
    drive: &str,
    path: &str,
    audience: &str,
    abilities: &Vec<String>,
    caveats: &ShareCaveats,
) -> (r: Result<Mint, DriveErr>)
    ensures
        share_view(r) == share_terms(
            chain.deep_view(),
            drive@,
            path@,
            audience@,
            abilities.deep_view(),
            caveats.not_after,
        ),
{
    let n: usize = chain.len();
    if n == 0 {
        return Err(DriveErr::Unauthorized);
    }
    let parent = &chain[n - 1];
    assert(chain.deep_view().last() == parent.deep_view());
    let audience_id = match parse_node_id(audience) {
        None => {
            return Err(DriveErr::BadPath);
        },
        Some(id) => id,
    };
    match no_dotdot(norm_path(path).as_str()) {
        Err(_) => {
            return Err(DriveErr::BadPath);
        },
        Ok(()) => {},
    }
    match enforce_prefix(parent, drive, path) {
        Err(e) => {
            return Err(e);
        },
        Ok(()) => {},
    }
    let requested = grant(abilities, &parent.abilities);
    if requested.len() == 0 {
        return Err(DriveErr::OutOfScope);
    }
    let not_after: u64 = if caveats.not_after == 0 {
        parent.not_after
    } else if parent.not_after == 0 || caveats.not_after <= parent.not_after {
        caveats.not_after
    } else {
        parent.not_after
    };
    let path_prefix = drive_caveat_prefix(drive, path);
    let bound = match caveat_scope(path_prefix.as_str()) {
        Some((d, top)) => same(d.as_str(), drive) && same(
            top.as_str(),
            norm_path(path).as_str(),
        ),
        None => false,
    };
    if !bound {
        return Err(DriveErr::BadPath);
    }
    Ok(
        Mint {
            audience: audience_id,
            abilities: requested,
            not_after,
            path_prefix,
            nonce: derive_nonce(audience, path),
        },
    )
}

fn holds(held: &Vec<String>, a: &str) -> (r: bool)
    ensures
        r == held.deep_view().contains(a@),
{
    let ghost all = held.deep_view();
    let mut i: usize = 0;
    while i < held.len()
        invariant
            i <= held@.len(),
            all == held.deep_view(),
            forall|k: int| 0 <= k < i ==> all[k] != a@,
        decreases held@.len() - i,
    {
        assert(all[i as int] == held@[i as int]@);
        if same(held[i].as_str(), a) {
            return true;
        }
        i = i + 1;
    }
    false
}

fn grant(asked: &Vec<String>, held: &Vec<String>) -> (r: Vec<String>)
    ensures
        r.deep_view() == granted(asked.deep_view(), held.deep_view()),
{
    let mut out: Vec<String> = Vec::new();
    if asked.len() == 0 {
        out.push(READ.to_owned());
        assert(out.deep_view() =~= seq![READ@]);
        return out;
    }
    let ghost all = asked.deep_view();
    let ghost h = held.deep_view();
    let ghost p = |a: Seq<char>| h.contains(a);
    let mut i: usize = 0;
    reveal(Seq::filter);
    assert(out.deep_view() =~= all.take(0).filter(p));
    while i < asked.len()
        invariant
            i <= asked@.len(),
            all == asked.deep_view(),
            h == held.deep_view(),
            p == (|a: Seq<char>| h.contains(a)),
            out.deep_view() == all.take(i as int).filter(p),
        decreases asked@.len() - i,
    {
        reveal(Seq::filter);
        let ghost was = out.deep_view();
        assert(all.take(i + 1).drop_last() =~= all.take(i as int));
        assert(all.take(i + 1).last() == asked@[i as int]@);
        if holds(held, asked[i].as_str()) {
            out.push(asked[i].clone());
            assert(out.deep_view() =~= was.push(asked@[i as int]@));
        }
        i = i + 1;
    }
    assert(all.take(i as int) =~= all);
    out
}

/// A shared capability never widens what the sharer holds: every ability is one of the sharer's,
/// or to read where none was asked for; it does not outlive the sharer's; and what it covers, the
/// sharer's covers too.
pub proof fn law_share_attenuates(
    chain: Seq<CapView>,
    drive: Seq<char>,
    path: Seq<char>,
    audience: Seq<char>,
    abilities: Seq<Seq<char>>,
    not_after: u64,
)
    requires
        share_terms(chain, drive, path, audience, abilities, not_after) is Ok,
    ensures
        ({
            let m = share_terms(chain, drive, path, audience, abilities, not_after)->Ok_0;
            let held = chain.last();
            let child = CapView {
                abilities: m.abilities,
                path_prefix: Some(m.path_prefix),
                not_after: m.not_after,
            };
            &&& forall|a: Seq<char>| #[trigger]
                m.abilities.contains(a) ==> held.abilities.contains(a) || (abilities.len() == 0 && a
                    == READ@)
            &&& held.not_after != 0 ==> 0 < m.not_after <= held.not_after
            &&& not_after != 0 ==> 0 < m.not_after <= not_after
            &&& forall|d: Seq<char>, q: Seq<char>| #[trigger]
                in_scope(child, d, q) ==> in_scope(held, d, q)
        }),
{
    let m = share_terms(chain, drive, path, audience, abilities, not_after)->Ok_0;
    let held = chain.last();
    let child = CapView {
        abilities: m.abilities,
        path_prefix: Some(m.path_prefix),
        not_after: m.not_after,
    };
    assert forall|a: Seq<char>| #[trigger] m.abilities.contains(a) implies held.abilities.contains(a)
        || (abilities.len() == 0 && a == READ@) by {
        if abilities.len() > 0 {
            let p = |x: Seq<char>| held.abilities.contains(x);
            abilities.lemma_filter_contains_rev(p, a);
        }
    }
    law_bound_shape(held.path_prefix->0);
    assert forall|d: Seq<char>, q: Seq<char>| #[trigger] in_scope(child, d, q) implies in_scope(
        held,
        d,
        q,
    ) by {
        let (_, top) = bound_to(held.path_prefix->0)->0;
        law_subtrees_nest(top, norm(path), norm(q));
    }
}

/// Who is given a share of a path can reach that path with it and everything below it, on that drive
/// and no other.
pub proof fn law_share_reaches_its_path(
    chain: Seq<CapView>,
    drive: Seq<char>,
    path: Seq<char>,
    audience: Seq<char>,
    abilities: Seq<Seq<char>>,
    not_after: u64,
    d: Seq<char>,
    q: Seq<char>,
)
    requires
        share_terms(chain, drive, path, audience, abilities, not_after) is Ok,
    ensures
        ({
            let m = share_terms(chain, drive, path, audience, abilities, not_after)->Ok_0;
            let child = CapView {
                abilities: m.abilities,
                path_prefix: Some(m.path_prefix),
                not_after: m.not_after,
            };
            in_scope(child, d, q) <==> d == drive && in_subtree(norm(path), norm(q))
        }),
{
}

/// Who presents a shared capability that the verifier does not object to passes with every operation
/// on paths below the shared one, and is granted what was shared.
pub proof fn law_shared_capability_is_honored(
    chain: Seq<CapView>,
    drive: Seq<char>,
    path: Seq<char>,
    audience: Seq<char>,
    abilities: Seq<Seq<char>>,
    not_after: u64,
    op: OpView,
)
    requires
        share_terms(chain, drive, path, audience, abilities, not_after) is Ok,
        path_of(op) matches Some(p) ==> !has_dotdot(norm(p)) && in_subtree(norm(path), norm(p)),
        source_of(op) matches Some(p) ==> !has_dotdot(norm(p)) && in_subtree(norm(path), norm(p)),
    ensures
        ({
            let m = share_terms(chain, drive, path, audience, abilities, not_after)->Ok_0;
            let child = CapView {
                abilities: m.abilities,
                path_prefix: Some(m.path_prefix),
                not_after: m.not_after,
            };
            admission(Ok(()), drive, op, seq![child]) == Ok::<Seq<Seq<char>>, ErrView>(m.abilities)
        }),
{
}

/// Sharing the same path with the same audience again gives a capability with the same nonce,
/// whoever shares it and on whatever terms.
pub proof fn law_resharing_keeps_the_nonce(
    path: Seq<char>,
    audience: Seq<char>,
    chain: Seq<CapView>,
    drive: Seq<char>,
    abilities: Seq<Seq<char>>,
    not_after: u64,
    chain2: Seq<CapView>,
    drive2: Seq<char>,
    abilities2: Seq<Seq<char>>,
    not_after2: u64,
)
    requires
        share_terms(chain, drive, path, audience, abilities, not_after) is Ok,
        share_terms(chain2, drive2, path, audience, abilities2, not_after2) is Ok,
    ensures
        share_terms(chain, drive, path, audience, abilities, not_after)->Ok_0.nonce == share_terms(
            chain2,
            drive2,
            path,
            audience,
            abilities2,
            not_after2,
        )->Ok_0.nonce,
{
}

// ----- what the guard lets through, and what a share is -----

/// What changes a drive takes the ability to write, what grants others abilities the ability to
/// administer, and everything else the ability to read.
pub proof fn law_each_operation_takes_its_ability(op: OpView)
    ensures
        op is Write || op is Mkdir || op is Move || op is Copy || op is Delete || op is SetProp
            || op is Tag || op is Link ==> ability_for(op) == "drive:write"@,
        op is Share ==> ability_for(op) == "drive:admin"@,
        op is Open || op is Stat || op is List || op is Read || op is Poll || op is Watch
            || op is Meta || op is Backlinks || op is Versions ==> ability_for(op)
            == "drive:read"@,
{
}

/// The node id that a text names is spelled by its 64 hexadecimal digits, with nothing but white space
/// around them; a text that spells none names none.
pub proof fn law_node_id_is_spelled(before: Seq<char>, id: Seq<u8>, after: Seq<char>, s: Seq<char>)
    requires
        forall|k: int| 0 <= k < before.len() ==> is_white_space(#[trigger] before[k]),
        forall|k: int| 0 <= k < after.len() ==> is_white_space(#[trigger] after[k]),
        id.len() == 32,
    ensures
        node_id_of(before + hex_text(id) + after) == Some(id),
        node_id_of(s) matches Some(n) ==> n.len() == 32 && trimmed(s).len() == 64 && is_hex(trimmed(s))
            && n == hex_bytes(trimmed(s)),
        trimmed(s).len() == 64 && is_hex(trimmed(s)) ==> node_id_of(s) is Some,
{
    let t = hex_text(id);
    law_node_id_reads_back(id);
    lemma_hex_digit(id[0] as int / 16);
    lemma_hex_digit(id[31] as int % 16);
    law_only_the_ends_are_taken_off(Edge::Space, before, t, after);
    assert(trimmed(before + t + after) == t);
    law_hex_reads_back(id);
}

/// The revocations of a list are those of its parts, one after the other; an entry that names a node is
/// one revocation, of that node's capability with that nonce, and any other entry is none.
pub proof fn law_revocations_come_entry_by_entry(
    a: Seq<(Seq<char>, u64)>,
    b: Seq<(Seq<char>, u64)>,
    entry: (Seq<char>, u64),
)
    ensures
        named_entries(a + b) == named_entries(a) + named_entries(b),
        named_entries(seq![entry]) == (match node_id_of(entry.0) {
            Some(id) => seq![(id, entry.1)],
            None => Seq::<(Seq<u8>, u64)>::empty(),
        }),
    decreases b.len(),
{
    assert(seq![entry].drop_last() =~= Seq::<(Seq<char>, u64)>::empty());
    assert(named_entries(seq![entry].drop_last()) =~= Seq::<(Seq<u8>, u64)>::empty());
    if b.len() == 0 {
        assert(a + b =~= a);
        assert(named_entries(a) + named_entries(b) =~= named_entries(a));
    } else {
        assert((a + b).drop_last() =~= a + b.drop_last());
        assert((a + b).last() == b.last());
        law_revocations_come_entry_by_entry(a, b.drop_last(), entry);
        assert(named_entries(a + b) =~= named_entries(a) + named_entries(b));
    }
    assert(named_entries(seq![entry]) =~= (match node_id_of(entry.0) {
        Some(id) => seq![(id, entry.1)],
        None => Seq::<(Seq<u8>, u64)>::empty(),
    }));
}

/// Whether an operation reads or changes what is at a path.
pub open spec fn touches(op: OpView, p: Seq<char>) -> bool {
    match op {
        OpView::Stat { path } => p == path,
        OpView::List { path, .. } => p == path,
        OpView::Read { path, .. } => p == path,
        OpView::Write { path, .. } => p == path,
        OpView::Mkdir { path } => p == path,
        OpView::Move { from, to } => p == from || p == to,
        OpView::Copy { from, to } => p == from || p == to,
        OpView::Delete { path, .. } => p == path,
        OpView::Share { path, .. } => p == path,
        OpView::Meta { path } => p == path,
        OpView::SetProp { path, .. } => p == path,
        OpView::Tag { path, .. } => p == path,
        OpView::Link { path, .. } => p == path,
        OpView::Versions { path } => p == path,
        OpView::Open | OpView::Poll { .. } | OpView::Watch | OpView::Backlinks { .. } => false,
    }
}

/// Whether one normal path is another, or below it component by component.
pub open spec fn is_below(top: Seq<char>, n: Seq<char>) -> bool {
    top == seq!['/'] || n == top || (n.len() > top.len() && n.take(top.len() as int) == top
        && n[top.len() as int] == '/')
}

/// Whether the prefix of a capability names a drive.
pub open spec fn is_for_drive(cap: CapView, drive: Seq<char>) -> bool {
    cap.path_prefix matches Some(p) && exists|tail: Seq<char>| names(p, drive, tail)
}

/// Whether the prefix of a capability names a drive and a path that another path is, or is below.
pub open spec fn is_for_path(cap: CapView, drive: Seq<char>, path: Seq<char>) -> bool {
    cap.path_prefix matches Some(p) && exists|tail: Seq<char>| #[trigger]
        names(p, drive, tail) && is_below(norm(tail), norm(path))
}

/// Whether the last capability of a chain is for an operation: for the drive, and for every path that
/// the operation touches, none of which climbs out of a directory.
pub open spec fn entitles(chain: Seq<CapView>, drive: Seq<char>, op: OpView) -> bool {
    &&& chain.len() > 0
    &&& is_for_drive(chain.last(), drive)
    &&& forall|p: Seq<char>| #[trigger]
        touches(op, p) ==> !has_dotdot(norm(p)) && is_for_path(chain.last(), drive, p)
}

proof fn lemma_for(cap: CapView, drive: Seq<char>, path: Seq<char>)
    ensures
        is_for_drive(cap, drive) == bound_to_drive(cap, drive),
        is_for_path(cap, drive, path) == in_scope(cap, drive, path),
{
    if let Some(p) = cap.path_prefix {
        law_prefix_binds_what_it_names(p);
        if let Some((d, top)) = bound_to(p) {
            let n = norm(path);
            let h = top + seq!['/'];
            assert(is_below(top, n) == in_subtree(top, n)) by {
                assert(root() == seq!['/']);
                if n.len() > top.len() && n.take(top.len() as int) == top && n[top.len() as int]
                    == '/' {
                    assert(n.take(h.len() as int) =~= h) by {
                        assert forall|k: int| 0 <= k < top.len() implies n[k] == top[k] by {
                            assert(n.take(top.len() as int)[k] == n[k]);
                        }
                    }
                }
                if begins(n, h) {
                    assert(n[top.len() as int] == n.take(h.len() as int)[top.len() as int]);
                    assert(n.take(top.len() as int) =~= top) by {
                        assert forall|k: int| 0 <= k < top.len() implies n[k] == top[k] by {
                            assert(n.take(h.len() as int)[k] == n[k]);
                        }
                    }
                }
            }
            let tail = choose|tail: Seq<char>| #[trigger] names(p, d, tail) && top == norm(tail);
            assert(names(p, d, tail) && top == norm(tail));
            if is_for_path(cap, drive, path) {
                let t = choose|t: Seq<char>| #[trigger]
                    names(p, drive, t) && is_below(norm(t), norm(path));
                assert(bound_to(p) == Some((drive, norm(t))));
            }
            if is_for_drive(cap, drive) {
                let t = choose|t: Seq<char>| names(p, drive, t);
                assert(bound_to(p) == Some((drive, norm(t))));
            }
        } else {
            if is_for_drive(cap, drive) {
                let t = choose|t: Seq<char>| names(p, drive, t);
                assert(bound_to(p) == Some((drive, norm(t))));
            }
            if is_for_path(cap, drive, path) {
                let t = choose|t: Seq<char>| #[trigger]
                    names(p, drive, t) && is_below(norm(t), norm(path));
                assert(bound_to(p) == Some((drive, norm(t))));
            }
        }
    }
}

/// The guard lets an operation through exactly if the verifier does not object and the last capability
/// of the chain is for the operation, and then grants that capability's abilities. Otherwise it says
/// what is wrong first: what the verifier objects to; that there is no capability; that it is not for
/// the drive; that a path climbs; that a path is out of its subtree.
pub proof fn law_guard_lets_through_what_is_entitled(
    verdict: Result<(), Seq<char>>,
    drive: Seq<char>,
    op: OpView,
    chain: Seq<CapView>,
)
    ensures
        admission(verdict, drive, op, chain) is Ok <==> verdict is Ok && entitles(chain, drive, op),
        admission(verdict, drive, op, chain) matches Ok(granted) ==> granted
            == chain.last().abilities,
        admission(verdict, drive, op, chain) matches Err(e) ==> match verdict {
            Err(objection) => e == (if has_piece(objection, "revoked"@) {
                ErrView::Revoked
            } else if has_piece(objection, "expired"@) || has_piece(objection, "not yet valid"@) {
                ErrView::Expired
            } else {
                ErrView::Unauthorized
            }),
            Ok(()) => e == (if chain.len() == 0 {
                ErrView::Unauthorized
            } else if !is_for_drive(chain.last(), drive) {
                ErrView::OutOfScope
            } else if exists|p: Seq<char>| #[trigger] touches(op, p) && has_dotdot(norm(p)) {
                ErrView::BadPath
            } else {
                ErrView::OutOfScope
            }),
        },
{
    if chain.len() > 0 {
        let leaf = chain.last();
        lemma_for(leaf, drive, Seq::empty());
        if let Some(p) = path_of(op) {
            lemma_for(leaf, drive, p);
            assert(touches(op, p));
        }
        if let Some(p) = source_of(op) {
            lemma_for(leaf, drive, p);
            assert(touches(op, p));
        }
        assert forall|p: Seq<char>| #[trigger] touches(op, p) implies Some(p) == path_of(op) || Some(p)
            == source_of(op) by {}
    }
}

/// The nonce of a shared capability is read from the digest of its audience and its path, with a bar
/// between them.
pub proof fn law_nonce_is_of_audience_and_path(audience: Seq<char>, path: Seq<char>)
    ensures
        nonce_for(audience, path) == le_value(
            sha256_of(encode_utf8(audience + seq!['|'] + path)).take(8),
        ),
{
    reveal_strlit("|");
    assert("|"@ =~= seq!['|']);
}

/// Eight bytes are read as a number with the least significant first.
pub proof fn law_eight_bytes_are_read_from_the_least(d: Seq<u8>)
    requires
        d.len() >= 8,
    ensures
        le_value(d.take(8)) == d[0] + 0x100 * d[1] + 0x1_0000 * d[2] + 0x100_0000 * d[3]
            + 0x1_0000_0000 * d[4] + 0x100_0000_0000 * d[5] + 0x1_0000_0000_0000 * d[6]
            + 0x100_0000_0000_0000 * d[7],
{
    let s = d.take(8);
    reveal_with_fuel(le_value, 9);
    assert(s.drop_first() =~= s.skip(1));
    assert(s.skip(1).drop_first() =~= s.skip(2));
    assert(s.skip(2).drop_first() =~= s.skip(3));
    assert(s.skip(3).drop_first() =~= s.skip(4));
    assert(s.skip(4).drop_first() =~= s.skip(5));
    assert(s.skip(5).drop_first() =~= s.skip(6));
    assert(s.skip(6).drop_first() =~= s.skip(7));
    assert(s.skip(7).drop_first() =~= s.skip(8));
}

/// Who shares a path with whom, on which drive and for how long is what the capability says: it is for
/// the audience that was named, spells out the drive and the path, ends with the earlier of the two
/// expiries that are set, and gives the abilities asked for that the sharer holds, in the order they
/// were asked for; to read, if none were asked for.
pub proof fn law_share_is_as_asked_and_held(
    chain: Seq<CapView>,
    drive: Seq<char>,
    path: Seq<char>,
    audience: Seq<char>,
    abilities: Seq<Seq<char>>,
    not_after: u64,
)
    ensures
        share_terms(chain, drive, path, audience, abilities, not_after) matches Ok(m) ==> {
            let held = chain.last();
            &&& chain.len() > 0
            &&& node_id_of(audience) == Some(m.audience)
            &&& m.abilities == (if abilities.len() == 0 {
                seq!["drive:read"@]
            } else {
                abilities.filter(|a: Seq<char>| held.abilities.contains(a))
            })
            &&& m.abilities.len() > 0
            &&& m.not_after == not_after || m.not_after == held.not_after
            &&& not_after != 0 ==> 0 < m.not_after <= not_after
            &&& held.not_after != 0 ==> 0 < m.not_after <= held.not_after
            &&& m.path_prefix == "ce-drive/"@ + drive + (if norm(path) == seq!['/'] {
                Seq::<char>::empty()
            } else {
                norm(path)
            })
            &&& m.nonce == le_value(sha256_of(encode_utf8(audience + seq!['|'] + path)).take(8))
            &&& is_for_path(held, drive, path)
            &&& !has_dotdot(norm(path))
        },
{
    if share_terms(chain, drive, path, audience, abilities, not_after) is Ok {
        law_nonce_is_of_audience_and_path(audience, path);
        lemma_for(chain.last(), drive, path);
    }
}

/// The prefix that spells out a drive, and a path in normal form unless it is the root.
pub open spec fn spelled(drive: Seq<char>, path: Seq<char>) -> Seq<char> {
    "ce-drive/"@ + drive + (if norm(path) == seq!['/'] { Seq::<char>::empty() } else { norm(path) })
}

/// Whether the prefix that spells out a drive and a path names that drive and that path.
pub open spec fn can_be_named(drive: Seq<char>, path: Seq<char>) -> bool {
    exists|tail: Seq<char>| #[trigger]
        names(spelled(drive, path), drive, tail) && norm(tail) == norm(path)
}

/// Every path can be named on a drive of one component, if white space at its end is not in the way.
pub proof fn law_paths_can_be_named(drive: Seq<char>, path: Seq<char>)
    requires
        nameable(drive, path),
        !is_white_space(norm(path).last()),
    ensures
        can_be_named(drive, path),
{
    law_caveat_binds_subtree(drive, path);
    lemma_can_be_named(drive, path);
}

proof fn lemma_can_be_named(drive: Seq<char>, path: Seq<char>)
    ensures
        can_be_named(drive, path) <==> bound_to(caveat(drive, path)) == Some((drive, norm(path))),
{
    let p = spelled(drive, path);
    assert(p == caveat(drive, path));
    law_prefix_binds_what_it_names(p);
    if can_be_named(drive, path) {
        let tail = choose|tail: Seq<char>| #[trigger]
            names(p, drive, tail) && norm(tail) == norm(path);
        assert(bound_to(p) == Some((drive, norm(tail))));
    }
    if bound_to(p) == Some((drive, norm(path))) {
        let tail = choose|tail: Seq<char>| #[trigger]
            names(p, drive, tail) && norm(path) == norm(tail);
        assert(names(p, drive, tail) && norm(tail) == norm(path));
    }
}

/// Sharing is refused only for a reason: there is no capability to share; the audience is no node; the
/// path climbs, or is out of what the sharer holds; none of the abilities asked for is the sharer's; or
/// no prefix can name the drive and the path.
pub proof fn law_share_is_owed(
    chain: Seq<CapView>,
    drive: Seq<char>,
    path: Seq<char>,
    audience: Seq<char>,
    abilities: Seq<Seq<char>>,
    not_after: u64,
)
    ensures
        ({
            let r = share_terms(chain, drive, path, audience, abilities, not_after);
            let none = abilities.len() > 0 && forall|i: int|
                0 <= i < abilities.len() ==> !chain.last().abilities.contains(#[trigger] abilities[i]);
            if chain.len() == 0 {
                r == Err::<MintView, ErrView>(ErrView::Unauthorized)
            } else if node_id_of(audience) is None || has_dotdot(norm(path)) {
                r == Err::<MintView, ErrView>(ErrView::BadPath)
            } else if !is_for_path(chain.last(), drive, path) || none {
                r == Err::<MintView, ErrView>(ErrView::OutOfScope)
            } else if !can_be_named(drive, path) {
                r == Err::<MintView, ErrView>(ErrView::BadPath)
            } else {
                r is Ok
            }
        }),
{
    if chain.len() > 0 {
        let held = chain.last();
        lemma_for(held, drive, path);
        let p = |a: Seq<char>| held.abilities.contains(a);
        let g = abilities.filter(p);
        if abilities.len() > 0 {
            if exists|i: int| 0 <= i < abilities.len() && held.abilities.contains(
                #[trigger] abilities[i],
            ) {
                let i = choose|i: int|
                    0 <= i < abilities.len() && held.abilities.contains(#[trigger] abilities[i]);
                abilities.lemma_filter_contains(p, i);
            }
            if g.len() > 0 {
                abilities.lemma_filter_pred(p, 0);
                abilities.lemma_filter_contains_rev(p, g[0]);
                let i = choose|i: int| 0 <= i < abilities.len() && abilities[i] == g[0];
                assert(held.abilities.contains(abilities[i]));
            }
        }
        lemma_can_be_named(drive, path);
    }
}

} // verus!
