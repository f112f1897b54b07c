//! The bytes of every request and reply, field by field: an enum is the place of its variant and then
//! its fields, a struct is its fields, each in the order in which they are declared.
use vstd::prelude::*;
use vstd::utf8::{encode_utf8, valid_utf8};

use crate::codec::{
    changes_each, chunks_each, enc_bool, enc_caveats, enc_change, enc_chunk, enc_each, enc_entry,
    enc_err, enc_ok, enc_op, enc_opt_str, enc_opt_u64, enc_plan, enc_quota,
    enc_reply, enc_req, enc_str, enc_strs, enc_u32, enc_u64, entries_each, get_bool, get_op, get_str,
    get_tag, get_u32, get_u64, le_bytes, lemma_u32_read_back, lemma_u64_read_back, WireErr,
};
use crate::wire::{
    ChangeKindView, ChangeView, ChunkView, EntryKind, EntryView, ErrView, OkView, OpView, PlanView,
    QuotaView, ReplyView, ReqView, ShareCaveats,
};

verus! {

/// The place of a variant.
pub open spec fn place(n: nat) -> Seq<u8> {
    le_bytes(n, 4)
}

/// A number, or how many there are of something.
pub open spec fn number(n: nat) -> Seq<u8> {
    le_bytes(n, 8)
}

/// A text: how many bytes it is in UTF-8, and those.
pub open spec fn text(s: Seq<char>) -> Seq<u8> {
    le_bytes(encode_utf8(s).len(), 8) + encode_utf8(s)
}

/// A text that may be left out.
pub open spec fn some_text(o: Option<Seq<char>>) -> Seq<u8> {
    match o {
        None => seq![0u8],
        Some(s) => seq![1u8] + text(s),
    }
}

/// A number that may be left out.
pub open spec fn some_number(o: Option<u64>) -> Seq<u8> {
    match o {
        None => seq![0u8],
        Some(x) => seq![1u8] + number(x as nat),
    }
}

/// A truth value.
pub open spec fn flag(b: bool) -> Seq<u8> {
    seq![if b { 1u8 } else { 0u8 }]
}

/// A number is written in its least significant byte first: each next byte counts 256 times as much.
pub proof fn law_least_significant_byte_comes_first(x: nat, n: nat)
    ensures
        le_bytes(x, 0).len() == 0,
        le_bytes(x, n).len() == n,
        n > 0 ==> le_bytes(x, n)[0] == x % 256 && le_bytes(x, n).skip(1) == le_bytes(
            x / 256,
            (n - 1) as nat,
        ),
    decreases n,
{
    if n > 0 {
        law_least_significant_byte_comes_first(x / 256, (n - 1) as nat);
        assert(le_bytes(x, n).skip(1) =~= le_bytes(x / 256, (n - 1) as nat));
    }
}

/// The parts that everything is written in.
pub proof fn law_layout_of_parts(
    x: u32,
    y: u64,
    b: bool,
    s: Seq<char>,
    o: Option<Seq<char>>,
    m: Option<u64>,
    c: ShareCaveats,
)
    ensures
        enc_u32(x) == place(x as nat),
        enc_u64(y) == number(y as nat),
        enc_bool(b) == flag(b),
        enc_str(s) == text(s),
        enc_opt_str(o) == some_text(o),
        enc_opt_u64(m) == some_number(m),
        enc_caveats(c) == number(c.not_after as nat) + some_number(c.max_bytes_read) + some_number(
            c.max_bytes_write,
        ),
{
    reveal(enc_u32);
    reveal(enc_u64);
    reveal(enc_bool);
    reveal(enc_str);
    reveal(enc_opt_str);
    reveal(enc_opt_u64);
    reveal(enc_caveats);
    assert(enc_caveats(c) =~= number(c.not_after as nat) + some_number(c.max_bytes_read)
        + some_number(c.max_bytes_write));
}

/// What comes in lists is written one after another, behind how many there are.
pub proof fn law_layout_of_lists(
    s: Seq<char>,
    ss: Seq<Seq<char>>,
    e: EntryView,
    es: Seq<EntryView>,
    k: ChunkView,
    ks: Seq<ChunkView>,
    c: ChangeView,
    cs: Seq<ChangeView>,
)
    ensures
        enc_strs(ss) == number(ss.len()) + enc_each(ss),
        enc_each(Seq::empty()).len() == 0,
        enc_each(seq![s] + ss) == text(s) + enc_each(ss),
        entries_each(Seq::empty()).len() == 0,
        entries_each(seq![e] + es) == enc_entry(e) + entries_each(es),
        chunks_each(Seq::empty()).len() == 0,
        chunks_each(seq![k] + ks) == enc_chunk(k) + chunks_each(ks),
        changes_each(Seq::empty()).len() == 0,
        changes_each(seq![c] + cs) == enc_change(c) + changes_each(cs),
{
    reveal(enc_strs);
    reveal(enc_str);
    assert((seq![s] + ss).drop_first() =~= ss);
    assert((seq![e] + es).drop_first() =~= es);
    assert((seq![k] + ks).drop_first() =~= ks);
    assert((seq![c] + cs).drop_first() =~= cs);
}

/// An operation.
pub proof fn law_layout_of_an_operation(op: OpView)
    ensures
        enc_op(op) == (match op {
            OpView::Open => place(0),
            OpView::Stat { path } => place(1) + text(path),
            OpView::List { path, cursor, limit } => place(2) + text(path) + some_text(cursor) + place(
                limit as nat,
            ),
            OpView::Read { path, offset, len } => place(3) + text(path) + number(offset as nat)
                + some_number(len),
            OpView::Write { path, object_cid, size, base_etag } => place(4) + text(path) + text(
                object_cid,
            ) + number(size as nat) + some_text(base_etag),
            OpView::Mkdir { path } => place(5) + text(path),
            OpView::Move { from, to } => place(6) + text(from) + text(to),
            OpView::Copy { from, to } => place(7) + text(from) + text(to),
            OpView::Delete { path, recursive } => place(8) + text(path) + flag(recursive),
            OpView::Share { path, audience, abilities, caveats } => place(9) + text(path) + text(
                audience,
            ) + enc_strs(abilities) + enc_caveats(caveats),
            OpView::Poll { cursor, limit } => place(10) + some_number(cursor) + place(limit as nat),
            OpView::Watch => place(11),
            OpView::Meta { path } => place(12) + text(path),
            OpView::SetProp { path, key, value } => place(13) + text(path) + text(key) + some_text(
                value,
            ),
            OpView::Tag { path, tag, remove } => place(14) + text(path) + text(tag) + flag(remove),
            OpView::Link { path, rel, to, remove } => place(15) + text(path) + text(rel) + text(to)
                + flag(remove),
            OpView::Backlinks { to } => place(16) + text(to),
            OpView::Versions { path } => place(17) + text(path),
        }),
{
    reveal(enc_u32);
    reveal(enc_u64);
    reveal(enc_bool);
    reveal(enc_str);
    reveal(enc_opt_str);
    reveal(enc_opt_u64);
    match op {
        OpView::List { path, cursor, limit } => {
            assert(enc_op(op) =~= place(2) + text(path) + some_text(cursor) + place(limit as nat));
        },
        OpView::Read { path, offset, len } => {
            assert(enc_op(op) =~= place(3) + text(path) + number(offset as nat) + some_number(len));
        },
        OpView::Write { path, object_cid, size, base_etag } => {
            assert(enc_op(op) =~= place(4) + text(path) + text(object_cid) + number(size as nat)
                + some_text(base_etag));
        },
        OpView::Move { from, to } => {
            assert(enc_op(op) =~= place(6) + text(from) + text(to));
        },
        OpView::Copy { from, to } => {
            assert(enc_op(op) =~= place(7) + text(from) + text(to));
        },
        OpView::Delete { path, recursive } => {
            assert(enc_op(op) =~= place(8) + text(path) + flag(recursive));
        },
        OpView::Share { path, audience, abilities, caveats } => {
            assert(enc_op(op) =~= place(9) + text(path) + text(audience) + enc_strs(abilities)
                + enc_caveats(caveats));
        },
        OpView::Poll { cursor, limit } => {
            assert(enc_op(op) =~= place(10) + some_number(cursor) + place(limit as nat));
        },
        OpView::SetProp { path, key, value } => {
            assert(enc_op(op) =~= place(13) + text(path) + text(key) + some_text(value));
        },
        OpView::Tag { path, tag, remove } => {
            assert(enc_op(op) =~= place(14) + text(path) + text(tag) + flag(remove));
        },
        OpView::Link { path, rel, to, remove } => {
            assert(enc_op(op) =~= place(15) + text(path) + text(rel) + text(to) + flag(remove));
        },
        _ => {},
    }
}

/// A request.
pub proof fn law_layout_of_a_request(req: ReqView)
    ensures
        enc_req(req) == text(req.drive) + text(req.cap) + enc_op(req.op),
{
    reveal(enc_str);
    assert(enc_req(req) =~= text(req.drive) + text(req.cap) + enc_op(req.op));
}

/// What replies are made of.
pub proof fn law_layout_of_what_replies_carry(
    e: EntryView,
    k: ChunkView,
    c: ChangeView,
    p: PlanView,
    q: QuotaView,
)
    ensures
        enc_entry(e) == text(e.path) + place(if e.kind == EntryKind::File { 0 } else { 1 }) + number(
            e.size as nat,
        ) + number(e.mtime_ms as nat) + text(e.etag) + text(e.node_id) + some_text(e.object_cid)
            + some_text(e.doc_id),
        enc_chunk(k) == text(k.cid) + number(k.offset as nat) + number(k.len as nat),
        enc_change(c) == number(c.seq as nat) + text(c.path) + text(c.node_id) + (match c.kind {
            ChangeKindView::Created => place(0),
            ChangeKindView::Modified => place(1),
            ChangeKindView::Moved { from } => place(2) + text(from),
            ChangeKindView::Deleted => place(3),
        }) + text(c.etag),
        enc_plan(p) == text(p.object_cid) + number(p.total_size as nat) + number(p.chunk_size as nat)
            + (number(p.chunks.len()) + chunks_each(p.chunks)) + flag(p.encrypted) + some_text(
            p.key_hint,
        ),
        enc_quota(q) == text(q.price_per_gib_month) + text(q.price_per_gib_egress) + number(
            q.free_tier_bytes as nat,
        ) + flag(q.channel_required),
{
    reveal(enc_u32);
    reveal(enc_u64);
    reveal(enc_bool);
    reveal(enc_str);
    reveal(enc_opt_str);
    reveal(enc_entry);
    reveal(enc_chunk);
    reveal(enc_change);
    reveal(enc_plan);
    reveal(enc_quota);
}

/// A reply: an answer or a refusal.
pub proof fn law_layout_of_a_reply(r: ReplyView)
    ensures
        enc_reply(r) == (match r {
            Ok(ok) => place(0) + enc_ok(ok),
            Err(e) => place(1) + enc_err(e),
        }),
        r matches Ok(ok) ==> enc_ok(ok) == (match ok {
            OkView::Opened { drive_root_cid, server_seq, granted_abilities, quota } => place(0) + text(
                drive_root_cid,
            ) + number(server_seq as nat) + enc_strs(granted_abilities) + enc_quota(quota),
            OkView::Entry(e) => place(1) + enc_entry(e),
            OkView::Listing { entries, next_cursor } => place(2) + (number(entries.len())
                + entries_each(entries)) + some_text(next_cursor),
            OkView::ReadPlan(p) => place(3) + enc_plan(p),
            OkView::Written { etag, node_id, version_seq } => place(4) + text(etag) + text(node_id)
                + number(version_seq as nat),
            OkView::Made { node_id } => place(5) + text(node_id),
            OkView::Deleted => place(6),
            OkView::Shared { chain } => place(7) + text(chain),
            OkView::Changes { changes, new_cursor } => place(8) + (number(changes.len())
                + changes_each(changes)) + number(new_cursor as nat),
            OkView::Watching { topic, cursor } => place(9) + text(topic) + number(cursor as nat),
        }),
        r matches Err(e) ==> enc_err(e) == (match e {
            ErrView::Unauthorized => place(0),
            ErrView::Revoked => place(1),
            ErrView::Expired => place(2),
            ErrView::OutOfScope => place(3),
            ErrView::NotFound => place(4),
            ErrView::Conflict { current_etag } => place(5) + text(current_etag),
            ErrView::QuotaExceeded => place(6),
            ErrView::PaymentRequired => place(7),
            ErrView::BadPath => place(8),
            ErrView::Internal(why) => place(9) + text(why),
        }),
{
    reveal(enc_u32);
    reveal(enc_u64);
    reveal(enc_str);
    reveal(enc_opt_str);
}

/// Bytes that are no request are told by what is wrong with them: they end too soon, or hold a byte that
/// is no truth value, no mark of whether something is left out, or a place that no operation has.
pub proof fn law_faults_are_named(b: Seq<u8>)
    ensures
        b.len() < 4 ==> get_op(b) == Err::<(OpView, Seq<u8>), WireErr>(WireErr::Truncated),
        b.len() < 8 ==> get_str(b) == Err::<(Seq<char>, Seq<u8>), WireErr>(WireErr::Truncated),
        b.len() == 0 ==> get_bool(b) == Err::<(bool, Seq<u8>), WireErr>(WireErr::Truncated)
            && get_tag(b) == Err::<(bool, Seq<u8>), WireErr>(WireErr::Truncated),
        b.len() > 0 && b[0] > 1 ==> get_bool(b) == Err::<(bool, Seq<u8>), WireErr>(
            WireErr::Bool(b[0]),
        ) && get_tag(b) == Err::<(bool, Seq<u8>), WireErr>(WireErr::Tag(b[0])),
        forall|i: u32, rest: Seq<u8>|
            i > 17 && b == #[trigger] (enc_u32(i) + rest) ==> get_op(b) == Err::<
                (OpView, Seq<u8>),
                WireErr,
            >(WireErr::Variant(i)),
        forall|n: u64, rest: Seq<u8>|
            rest.len() < n && b == #[trigger] (enc_u64(n) + rest) ==> get_str(b) == Err::<
                (Seq<char>, Seq<u8>),
                WireErr,
            >(WireErr::Short),
        forall|n: u64, t: Seq<u8>, rest: Seq<u8>|
            t.len() == n && !valid_utf8(t) && b == #[trigger] (enc_u64(n) + (t + rest)) ==> get_str(b)
                == Err::<(Seq<char>, Seq<u8>), WireErr>(WireErr::Utf8),
{
    reveal(get_u32);
    reveal(get_u64);
    reveal(get_str);
    reveal(get_bool);
    reveal(get_tag);
    assert forall|i: u32, rest: Seq<u8>| i > 17 && b == #[trigger] (enc_u32(i) + rest) implies get_op(b)
        == Err::<(OpView, Seq<u8>), WireErr>(WireErr::Variant(i)) by {
        lemma_u32_read_back(i, rest);
    }
    assert forall|n: u64, rest: Seq<u8>|
        rest.len() < n && b == #[trigger] (enc_u64(n) + rest) implies get_str(b) == Err::<
        (Seq<char>, Seq<u8>),
        WireErr,
    >(WireErr::Short) by {
        lemma_u64_read_back(n, rest);
    }
    assert forall|n: u64, t: Seq<u8>, rest: Seq<u8>|
        t.len() == n && !valid_utf8(t) && b == #[trigger] (enc_u64(n) + (t + rest)) implies get_str(b)
        == Err::<(Seq<char>, Seq<u8>), WireErr>(WireErr::Utf8) by {
        lemma_u64_read_back(n, t + rest);
        assert((t + rest).take(n as int) =~= t);
    }
}

} // verus!
