//! The byte format of the protocol: little-endian fixed-width integers, lengths as `u64`, variant
//! indices as `u32`, options and booleans as one byte.
//!
//! Integers and text are written and read by `bincode`; requests and replies are put together
//! from them here. A request reads back as what was written, and only what some request is
//! written as can be read. No two replies are written alike.
use vstd::prelude::*;
use vstd::slice::slice_subrange;
use vstd::string::*;
use vstd::utf8::{decode_utf8, encode_utf8, valid_utf8};

use crate::text::{cat, decimal, decimal_of};
use crate::wire::{
    Beacon, Change, ChangeKind, ChangeKindView, ChangeView, ChunkRef, ChunkView, DriveErr, DriveOk,
    DriveOp, DriveReply, DriveReq, Entry, EntryKind, EntryView, ErrView, OkView, OpView, PlanView,
    Quota, QuotaView, ReadPlan, ReplyView, ReqView, ShareCaveats,
};

verus! {

/// Why bytes are not a request.
#[derive(Debug, Clone, Copy, PartialEq, Eq, Structural)]
pub enum WireErr {
    /// The bytes end within a number or a tag.
    Truncated,
    /// The bytes end within a text.
    Short,
    /// A text is not UTF-8.
    Utf8,
    /// A boolean is neither 0 nor 1.
    Bool(u8),
    /// The tag of an option is neither 0 nor 1.
    Tag(u8),
    /// No operation has this index.
    Variant(u32),
}

/// The outcome of reading a value off the front of some bytes: the value and what is left.
pub type Parsed<T> = Result<(T, Seq<u8>), WireErr>;

// ----- integers -----

/// `x` in `n` bytes, least significant first.
pub open spec fn le_bytes(x: nat, n: nat) -> Seq<u8>
    decreases n,
{
    if n == 0 {
        Seq::empty()
    } else {
        seq![(x % 256) as u8] + le_bytes(x / 256, (n - 1) as nat)
    }
}

/// The number that bytes stand for, least significant first.
pub open spec fn le_value(s: Seq<u8>) -> nat
    decreases s.len(),
{
    if s.len() == 0 {
        0
    } else {
        s[0] as nat + 256 * le_value(s.drop_first())
    }
}

/// 256 to the power `n`.
pub open spec fn radix(n: nat) -> nat
    decreases n,
{
    if n == 0 {
        1
    } else {
        256 * radix((n - 1) as nat)
    }
}

proof fn lemma_le(x: nat, n: nat)
    requires
        x < radix(n),
    ensures
        le_bytes(x, n).len() == n,
        le_value(le_bytes(x, n)) == x,
    decreases n,
{
    if n > 0 {
        let m = (n - 1) as nat;
        lemma_le(x / 256, m);
        let s = le_bytes(x, n);
        assert(s.drop_first() =~= le_bytes(x / 256, m));
        assert(s[0] == (x % 256) as u8);
    }
}

proof fn lemma_le_back(s: Seq<u8>)
    ensures
        le_value(s) < radix(s.len()),
        le_bytes(le_value(s), s.len()) == s,
    decreases s.len(),
{
    if s.len() > 0 {
        lemma_le_back(s.drop_first());
        let v = le_value(s);
        let b = s[0];
        assert(v % 256 == b as nat && v / 256 == le_value(s.drop_first()));
        assert(le_bytes(v, s.len()) =~= seq![s[0]] + s.drop_first());
        assert(s =~= seq![s[0]] + s.drop_first());
    } else {
        assert(s =~= Seq::<u8>::empty());
    }
}

/// Up to eight bytes stand for a number that fits 64 bits.
pub proof fn lemma_le_bound(s: Seq<u8>)
    requires
        s.len() <= 8,
    ensures
        le_value(s) <= u64::MAX,
{
    lemma_le_back(s);
    lemma_radix();
    reveal_with_fuel(radix, 9);
}

proof fn lemma_radix()
    ensures
        radix(4) == 0x1_0000_0000,
        radix(8) == 0x1_0000_0000_0000_0000,
{
    reveal_with_fuel(radix, 9);
}

/// A 32-bit number.
#[verifier::opaque]
pub open spec fn enc_u32(x: u32) -> Seq<u8> {
    le_bytes(x as nat, 4)
}

/// A 64-bit number.
#[verifier::opaque]
pub open spec fn enc_u64(x: u64) -> Seq<u8> {
    le_bytes(x as nat, 8)
}

/// A truth value.
#[verifier::opaque]
pub open spec fn enc_bool(x: bool) -> Seq<u8> {
    seq![if x { 1u8 } else { 0u8 }]
}

/// Reads a 32-bit number.
#[verifier::opaque]
pub open spec fn get_u32(b: Seq<u8>) -> Parsed<u32> {
    if b.len() < 4 {
        Err(WireErr::Truncated)
    } else {
        Ok((le_value(b.take(4)) as u32, b.skip(4)))
    }
}

/// Reads a 64-bit number.
#[verifier::opaque]
pub open spec fn get_u64(b: Seq<u8>) -> Parsed<u64> {
    if b.len() < 8 {
        Err(WireErr::Truncated)
    } else {
        Ok((le_value(b.take(8)) as u64, b.skip(8)))
    }
}

/// Reads a truth value.
#[verifier::opaque]
pub open spec fn get_bool(b: Seq<u8>) -> Parsed<bool> {
    if b.len() < 1 {
        Err(WireErr::Truncated)
    } else if b[0] > 1 {
        Err(WireErr::Bool(b[0]))
    } else {
        Ok((b[0] == 1, b.skip(1)))
    }
}

// ----- text -----

/// A text: the length of its UTF-8 form, then that form.
#[verifier::opaque]
pub open spec fn enc_str(s: Seq<char>) -> Seq<u8> {
    le_bytes(encode_utf8(s).len(), 8) + encode_utf8(s)
}

/// Reads a text.
#[verifier::opaque]
pub open spec fn get_str(b: Seq<u8>) -> Parsed<Seq<char>> {
    match get_u64(b) {
        Err(e) => Err(e),
        Ok((n, b)) => if b.len() < n {
            Err(WireErr::Short)
        } else if !valid_utf8(b.take(n as int)) {
            Err(WireErr::Utf8)
        } else {
            Ok((decode_utf8(b.take(n as int)), b.skip(n as int)))
        },
    }
}

/// Whether the length of a text can be written.
pub open spec fn fits(s: Seq<char>) -> bool {
    encode_utf8(s).len() <= u64::MAX
}

/// `bincode::serialize` of a `u32`: four bytes, least significant first. It cannot fail, since
/// the size is not limited and the bytes go to a vector.
#[verifier::external_body]
fn bincode_u32(x: u32) -> (r: Vec<u8>)
    ensures
        r@ == enc_u32(x),
{
    bincode::serialize(&x).unwrap()
}

/// `bincode::serialize` of a `u64`: eight bytes, least significant first. It cannot fail, since
/// the size is not limited and the bytes go to a vector.
#[verifier::external_body]
fn bincode_u64(x: u64) -> (r: Vec<u8>)
    ensures
        r@ == enc_u64(x),
{
    bincode::serialize(&x).unwrap()
}

/// `bincode::serialize` of a `str`: the number of its bytes as a `u64`, then its bytes. It cannot
/// fail, since the size is not limited and the bytes go to a vector.
#[verifier::external_body]
fn bincode_str(s: &str) -> (r: Vec<u8>)
    ensures
        r@ == enc_str(s@),
{
    bincode::serialize(s).unwrap()
}

/// `bincode::deserialize` to a `u32`: the first four bytes, least significant first; what follows
/// them is ignored.
#[verifier::external_body]
fn bincode_read_u32(b: &[u8]) -> (r: Option<u32>)
    ensures
        r == (match get_u32(b@) {
            Ok((x, _)) => Some(x),
            Err(_) => None,
        }),
{
    bincode::deserialize(b).ok()
}

/// `bincode::deserialize` to a `u64`: the first eight bytes, least significant first; what follows
/// them is ignored.
#[verifier::external_body]
fn bincode_read_u64(b: &[u8]) -> (r: Option<u64>)
    ensures
        r == (match get_u64(b@) {
            Ok((x, _)) => Some(x),
            Err(_) => None,
        }),
{
    bincode::deserialize(b).ok()
}

/// `bincode::deserialize` to a `String`: a length as a `u64`, then that many bytes, which have to
/// be there and to be UTF-8; what follows them is ignored.
#[verifier::external_body]
fn bincode_read_str(b: &[u8]) -> (r: Option<String>)
    ensures
        r.deep_view() == (match get_str(b@) {
            Ok((s, _)) => Some(s),
            Err(_) => None,
        }),
{
    bincode::deserialize(b).ok()
}

// ----- options, lists, caveats -----

/// An optional text.
#[verifier::opaque]
pub open spec fn enc_opt_str(o: Option<Seq<char>>) -> Seq<u8> {
    match o {
        None => seq![0u8],
        Some(s) => seq![1u8] + enc_str(s),
    }
}

/// An optional number.
#[verifier::opaque]
pub open spec fn enc_opt_u64(o: Option<u64>) -> Seq<u8> {
    match o {
        None => seq![0u8],
        Some(x) => seq![1u8] + enc_u64(x),
    }
}

/// Texts one after the other.
pub open spec fn enc_each(v: Seq<Seq<char>>) -> Seq<u8>
    decreases v.len(),
{
    if v.len() == 0 {
        Seq::empty()
    } else {
        enc_str(v[0]) + enc_each(v.drop_first())
    }
}

/// A list of texts: how many, then each.
#[verifier::opaque]
pub open spec fn enc_strs(v: Seq<Seq<char>>) -> Seq<u8> {
    le_bytes(v.len(), 8) + enc_each(v)
}

/// The caveats of a share.
#[verifier::opaque]
pub open spec fn enc_caveats(c: ShareCaveats) -> Seq<u8> {
    enc_u64(c.not_after) + (enc_opt_u64(c.max_bytes_read) + enc_opt_u64(c.max_bytes_write))
}

/// Reads the tag of an option.
#[verifier::opaque]
pub open spec fn get_tag(b: Seq<u8>) -> Parsed<bool> {
    if b.len() < 1 {
        Err(WireErr::Truncated)
    } else if b[0] > 1 {
        Err(WireErr::Tag(b[0]))
    } else {
        Ok((b[0] == 1, b.skip(1)))
    }
}

/// Reads an optional text.
#[verifier::opaque]
pub open spec fn get_opt_str(b: Seq<u8>) -> Parsed<Option<Seq<char>>> {
    match get_tag(b) {
        Err(e) => Err(e),
        Ok((false, b)) => Ok((None, b)),
        Ok((true, b)) => match get_str(b) {
            Err(e) => Err(e),
            Ok((s, b)) => Ok((Some(s), b)),
        },
    }
}

/// Reads an optional number.
#[verifier::opaque]
pub open spec fn get_opt_u64(b: Seq<u8>) -> Parsed<Option<u64>> {
    match get_tag(b) {
        Err(e) => Err(e),
        Ok((false, b)) => Ok((None, b)),
        Ok((true, b)) => match get_u64(b) {
            Err(e) => Err(e),
            Ok((x, b)) => Ok((Some(x), b)),
        },
    }
}

/// Reads `n` texts.
pub open spec fn get_each(n: nat, b: Seq<u8>) -> Parsed<Seq<Seq<char>>>
    decreases n,
{
    if n == 0 {
        Ok((Seq::empty(), b))
    } else {
        match get_str(b) {
            Err(e) => Err(e),
            Ok((s, b)) => match get_each((n - 1) as nat, b) {
                Err(e) => Err(e),
                Ok((v, b)) => Ok((seq![s] + v, b)),
            },
        }
    }
}

/// Reads a list of texts.
#[verifier::opaque]
pub open spec fn get_strs(b: Seq<u8>) -> Parsed<Seq<Seq<char>>> {
    match get_u64(b) {
        Err(e) => Err(e),
        Ok((n, b)) => get_each(n as nat, b),
    }
}

/// Reads the caveats of a share.
#[verifier::opaque]
pub open spec fn get_caveats(b: Seq<u8>) -> Parsed<ShareCaveats> {
    match get_u64(b) {
        Err(e) => Err(e),
        Ok((not_after, b)) => match get_opt_u64(b) {
            Err(e) => Err(e),
            Ok((max_bytes_read, b)) => match get_opt_u64(b) {
                Err(e) => Err(e),
                Ok((max_bytes_write, b)) => Ok(
                    (ShareCaveats { not_after, max_bytes_read, max_bytes_write }, b),
                ),
            },
        },
    }
}

/// Whether the length of an optional text can be written.
pub open spec fn opt_fits(o: Option<Seq<char>>) -> bool {
    o matches Some(s) ==> fits(s)
}

/// Whether a list of texts and each of its texts have lengths that can be written.
pub open spec fn all_fit(v: Seq<Seq<char>>) -> bool {
    &&& v.len() <= u64::MAX
    &&& forall|i: int| 0 <= i < v.len() ==> fits(#[trigger] v[i])
}

// ----- requests -----

/// The encoding of an operation: its index among the variants, then its fields.
pub open spec fn enc_op(op: OpView) -> Seq<u8> {
    match op {
        OpView::Open => enc_u32(0),
        OpView::Stat { path } => enc_u32(1) + enc_str(path),
        OpView::List { path, cursor, limit } => enc_u32(2) + (enc_str(path) + (enc_opt_str(cursor) + enc_u32(limit))),
        OpView::Read { path, offset, len } => enc_u32(3) + (enc_str(path) + (enc_u64(offset) + enc_opt_u64(len))),
        OpView::Write { path, object_cid, size, base_etag } => enc_u32(4) + (enc_str(path) + (enc_str(object_cid) + (enc_u64(size) + enc_opt_str(base_etag)))),
        OpView::Mkdir { path } => enc_u32(5) + enc_str(path),
        OpView::Move { from, to } => enc_u32(6) + (enc_str(from) + enc_str(to)),
        OpView::Copy { from, to } => enc_u32(7) + (enc_str(from) + enc_str(to)),
        OpView::Delete { path, recursive } => enc_u32(8) + (enc_str(path) + enc_bool(recursive)),
        OpView::Share { path, audience, abilities, caveats } => enc_u32(9) + (enc_str(path) + (enc_str(audience) + (enc_strs(abilities) + enc_caveats(caveats)))),
        OpView::Poll { cursor, limit } => enc_u32(10) + (enc_opt_u64(cursor) + enc_u32(limit)),
        OpView::Watch => enc_u32(11),
        OpView::Meta { path } => enc_u32(12) + enc_str(path),
        OpView::SetProp { path, key, value } => enc_u32(13) + (enc_str(path) + (enc_str(key) + enc_opt_str(value))),
        OpView::Tag { path, tag, remove } => enc_u32(14) + (enc_str(path) + (enc_str(tag) + enc_bool(remove))),
        OpView::Link { path, rel, to, remove } => enc_u32(15) + (enc_str(path) + (enc_str(rel) + (enc_str(to) + enc_bool(remove)))),
        OpView::Backlinks { to } => enc_u32(16) + enc_str(to),
        OpView::Versions { path } => enc_u32(17) + enc_str(path),
    }
}

/// Reads an operation.
pub open spec fn get_op(b: Seq<u8>) -> Parsed<OpView> {
    match get_u32(b) {
        Err(e) => Err(e),
        Ok((i, b)) => match i {
            0 => Ok((OpView::Open, b)),
            1 => match get_str(b) {
                Err(e) => Err(e),
                Ok((path, b)) => Ok((OpView::Stat { path }, b)),
            },
            2 => match get_str(b) {
                Err(e) => Err(e),
                Ok((path, b)) => match get_opt_str(b) {
                    Err(e) => Err(e),
                    Ok((cursor, b)) => match get_u32(b) {
                        Err(e) => Err(e),
                        Ok((limit, b)) => Ok((OpView::List { path, cursor, limit }, b)),
                    },
                },
            },
            3 => match get_str(b) {
                Err(e) => Err(e),
                Ok((path, b)) => match get_u64(b) {
                    Err(e) => Err(e),
                    Ok((offset, b)) => match get_opt_u64(b) {
                        Err(e) => Err(e),
                        Ok((len, b)) => Ok((OpView::Read { path, offset, len }, b)),
                    },
                },
            },
            4 => match get_str(b) {
                Err(e) => Err(e),
                Ok((path, b)) => match get_str(b) {
                    Err(e) => Err(e),
                    Ok((object_cid, b)) => match get_u64(b) {
                        Err(e) => Err(e),
                        Ok((size, b)) => match get_opt_str(b) {
                            Err(e) => Err(e),
                            Ok((base_etag, b)) => Ok((OpView::Write { path, object_cid, size, base_etag }, b)),
                        },
                    },
                },
            },
            5 => match get_str(b) {
                Err(e) => Err(e),
                Ok((path, b)) => Ok((OpView::Mkdir { path }, b)),
            },
            6 => match get_str(b) {
                Err(e) => Err(e),
                Ok((from, b)) => match get_str(b) {
                    Err(e) => Err(e),
                    Ok((to, b)) => Ok((OpView::Move { from, to }, b)),
                },
            },
            7 => match get_str(b) {
                Err(e) => Err(e),
                Ok((from, b)) => match get_str(b) {
                    Err(e) => Err(e),
                    Ok((to, b)) => Ok((OpView::Copy { from, to }, b)),
                },
            },
            8 => match get_str(b) {
                Err(e) => Err(e),
                Ok((path, b)) => match get_bool(b) {
                    Err(e) => Err(e),
                    Ok((recursive, b)) => Ok((OpView::Delete { path, recursive }, b)),
                },
            },
            9 => match get_str(b) {
                Err(e) => Err(e),
                Ok((path, b)) => match get_str(b) {
                    Err(e) => Err(e),
                    Ok((audience, b)) => match get_strs(b) {
                        Err(e) => Err(e),
                        Ok((abilities, b)) => match get_caveats(b) {
                            Err(e) => Err(e),
                            Ok((caveats, b)) => Ok((OpView::Share { path, audience, abilities, caveats }, b)),
                        },
                    },
                },
            },
            10 => match get_opt_u64(b) {
                Err(e) => Err(e),
                Ok((cursor, b)) => match get_u32(b) {
                    Err(e) => Err(e),
                    Ok((limit, b)) => Ok((OpView::Poll { cursor, limit }, b)),
                },
            },
            11 => Ok((OpView::Watch, b)),
            12 => match get_str(b) {
                Err(e) => Err(e),
                Ok((path, b)) => Ok((OpView::Meta { path }, b)),
            },
            13 => match get_str(b) {
                Err(e) => Err(e),
                Ok((path, b)) => match get_str(b) {
                    Err(e) => Err(e),
                    Ok((key, b)) => match get_opt_str(b) {
                        Err(e) => Err(e),
                        Ok((value, b)) => Ok((OpView::SetProp { path, key, value }, b)),
                    },
                },
            },
            14 => match get_str(b) {
                Err(e) => Err(e),
                Ok((path, b)) => match get_str(b) {
                    Err(e) => Err(e),
                    Ok((tag, b)) => match get_bool(b) {
                        Err(e) => Err(e),
                        Ok((remove, b)) => Ok((OpView::Tag { path, tag, remove }, b)),
                    },
                },
            },
            15 => match get_str(b) {
                Err(e) => Err(e),
                Ok((path, b)) => match get_str(b) {
                    Err(e) => Err(e),
                    Ok((rel, b)) => match get_str(b) {
                        Err(e) => Err(e),
                        Ok((to, b)) => match get_bool(b) {
                            Err(e) => Err(e),
                            Ok((remove, b)) => Ok((OpView::Link { path, rel, to, remove }, b)),
                        },
                    },
                },
            },
            16 => match get_str(b) {
                Err(e) => Err(e),
                Ok((to, b)) => Ok((OpView::Backlinks { to }, b)),
            },
            17 => match get_str(b) {
                Err(e) => Err(e),
                Ok((path, b)) => Ok((OpView::Versions { path }, b)),
            },
            _ => Err(WireErr::Variant(i)),
        },
    }
}

/// Whether every text of an operation has a length that the format can hold.
pub open spec fn op_fits(op: OpView) -> bool {
    match op {
        OpView::Open => true,
        OpView::Stat { path } => fits(path),
        OpView::List { path, cursor, .. } => fits(path) && opt_fits(cursor),
        OpView::Read { path, .. } => fits(path),
        OpView::Write { path, object_cid, base_etag, .. } => fits(path) && fits(object_cid) && opt_fits(base_etag),
        OpView::Mkdir { path } => fits(path),
        OpView::Move { from, to } => fits(from) && fits(to),
        OpView::Copy { from, to } => fits(from) && fits(to),
        OpView::Delete { path, .. } => fits(path),
        OpView::Share { path, audience, abilities, .. } => fits(path) && fits(audience) && all_fit(abilities),
        OpView::Poll { .. } => true,
        OpView::Watch => true,
        OpView::Meta { path } => fits(path),
        OpView::SetProp { path, key, value } => fits(path) && fits(key) && opt_fits(value),
        OpView::Tag { path, tag, .. } => fits(path) && fits(tag),
        OpView::Link { path, rel, to, .. } => fits(path) && fits(rel) && fits(to),
        OpView::Backlinks { to } => fits(to),
        OpView::Versions { path } => fits(path),
    }
}

/// The encoding of a request.
pub open spec fn enc_req(req: ReqView) -> Seq<u8> {
    enc_str(req.drive) + (enc_str(req.cap) + enc_op(req.op))
}

/// Reads a request.
pub open spec fn get_req(b: Seq<u8>) -> Parsed<ReqView> {
    match get_str(b) {
        Err(e) => Err(e),
        Ok((drive, b)) => match get_str(b) {
            Err(e) => Err(e),
            Ok((cap, b)) => match get_op(b) {
                Err(e) => Err(e),
                Ok((op, b)) => Ok((ReqView { drive, cap, op }, b)),
            },
        },
    }
}

/// Whether every text of a request has a length that the format can hold.
pub open spec fn req_fits(req: ReqView) -> bool {
    fits(req.drive) && fits(req.cap) && op_fits(req.op)
}

// ----- what is written can be read, and nothing else -----

/// A number reads back as what was written.
pub proof fn lemma_u32_read_back(x: u32, rest: Seq<u8>)
    ensures
        get_u32(enc_u32(x) + rest) == Ok::<(u32, Seq<u8>), WireErr>((x, rest)),
{
    reveal(enc_u32);
    reveal(get_u32);
    lemma_radix();
    lemma_le(x as nat, 4);
    assert((enc_u32(x) + rest).take(4) =~= enc_u32(x));
    assert((enc_u32(x) + rest).skip(4) =~= rest);
}

/// A number reads back as what was written.
pub proof fn lemma_u64_read_back(x: u64, rest: Seq<u8>)
    ensures
        get_u64(enc_u64(x) + rest) == Ok::<(u64, Seq<u8>), WireErr>((x, rest)),
{
    reveal(enc_u64);
    reveal(get_u64);
    lemma_radix();
    lemma_le(x as nat, 8);
    assert((enc_u64(x) + rest).take(8) =~= enc_u64(x));
    assert((enc_u64(x) + rest).skip(8) =~= rest);
}

proof fn lemma_bool_read_back(x: bool, rest: Seq<u8>)
    ensures
        get_bool(enc_bool(x) + rest) == Ok::<(bool, Seq<u8>), WireErr>((x, rest)),
{
    reveal(enc_bool);
    reveal(get_bool);
    assert((enc_bool(x) + rest).skip(1) =~= rest);
}

proof fn lemma_str_read_back(s: Seq<char>, rest: Seq<u8>)
    requires
        fits(s),
    ensures
        get_str(enc_str(s) + rest) == Ok::<(Seq<char>, Seq<u8>), WireErr>((s, rest)),
{
    reveal(enc_str);
    reveal(enc_u64);
    reveal(get_str);
    let u = encode_utf8(s);
    let n = u.len() as u64;
    assert(enc_str(s) + rest =~= enc_u64(n) + (u + rest));
    lemma_u64_read_back(n, u + rest);
    vstd::utf8::encode_utf8_valid_utf8(s);
    vstd::utf8::encode_utf8_decode_utf8(s);
    assert((u + rest).take(n as int) =~= u);
    assert((u + rest).skip(n as int) =~= rest);
}

proof fn lemma_opt_str_read_back(o: Option<Seq<char>>, rest: Seq<u8>)
    requires
        opt_fits(o),
    ensures
        get_opt_str(enc_opt_str(o) + rest) == Ok::<(Option<Seq<char>>, Seq<u8>), WireErr>((o, rest)),
{
    reveal(enc_opt_str);
    reveal(get_opt_str);
    reveal(get_tag);
    let b = enc_opt_str(o) + rest;
    match o {
        None => {
            assert(b.skip(1) =~= rest);
        },
        Some(s) => {
            assert(b.skip(1) =~= enc_str(s) + rest);
            lemma_str_read_back(s, rest);
        },
    }
}

proof fn lemma_opt_u64_read_back(o: Option<u64>, rest: Seq<u8>)
    ensures
        get_opt_u64(enc_opt_u64(o) + rest) == Ok::<(Option<u64>, Seq<u8>), WireErr>((o, rest)),
{
    reveal(enc_opt_u64);
    reveal(get_opt_u64);
    reveal(get_tag);
    let b = enc_opt_u64(o) + rest;
    match o {
        None => {
            assert(b.skip(1) =~= rest);
        },
        Some(x) => {
            assert(b.skip(1) =~= enc_u64(x) + rest);
            lemma_u64_read_back(x, rest);
        },
    }
}

proof fn lemma_each_read_back(v: Seq<Seq<char>>, rest: Seq<u8>)
    requires
        forall|i: int| 0 <= i < v.len() ==> fits(#[trigger] v[i]),
    ensures
        get_each(v.len(), enc_each(v) + rest) == Ok::<(Seq<Seq<char>>, Seq<u8>), WireErr>(
            (v, rest),
        ),
    decreases v.len(),
{
    if v.len() == 0 {
        assert(enc_each(v) + rest =~= rest);
        assert(v =~= Seq::empty());
    } else {
        let w = v.drop_first();
        assert forall|i: int| 0 <= i < w.len() implies fits(#[trigger] w[i]) by {
            assert(w[i] == v[i + 1]);
        }
        assert(enc_each(v) + rest =~= enc_str(v[0]) + (enc_each(w) + rest));
        lemma_str_read_back(v[0], enc_each(w) + rest);
        lemma_each_read_back(w, rest);
        assert(seq![v[0]] + w =~= v);
    }
}

proof fn lemma_strs_read_back(v: Seq<Seq<char>>, rest: Seq<u8>)
    requires
        all_fit(v),
    ensures
        get_strs(enc_strs(v) + rest) == Ok::<(Seq<Seq<char>>, Seq<u8>), WireErr>((v, rest)),
{
    reveal(enc_strs);
    reveal(enc_u64);
    reveal(get_strs);
    let n = v.len() as u64;
    assert(enc_strs(v) + rest =~= enc_u64(n) + (enc_each(v) + rest));
    lemma_u64_read_back(n, enc_each(v) + rest);
    lemma_each_read_back(v, rest);
}

proof fn lemma_caveats_read_back(c: ShareCaveats, rest: Seq<u8>)
    ensures
        get_caveats(enc_caveats(c) + rest) == Ok::<(ShareCaveats, Seq<u8>), WireErr>((c, rest)),
{
    reveal(enc_caveats);
    reveal(get_caveats);
    let t2 = enc_opt_u64(c.max_bytes_write) + rest;
    let t1 = enc_opt_u64(c.max_bytes_read) + t2;
    assert(enc_caveats(c) + rest =~= enc_u64(c.not_after) + t1);
    lemma_u64_read_back(c.not_after, t1);
    lemma_opt_u64_read_back(c.max_bytes_read, t2);
    lemma_opt_u64_read_back(c.max_bytes_write, rest);
}

/// Reading the encoding of an operation gives the operation, and leaves what followed it.
pub proof fn law_op_read_back(op: OpView, rest: Seq<u8>)
    requires
        op_fits(op),
    ensures
        get_op(enc_op(op) + rest) == Ok::<(OpView, Seq<u8>), WireErr>((op, rest)),
{
    match op {
        OpView::Open => {
            let t0 = rest;
            assert(enc_op(op) + rest =~= enc_u32(0) + t0);
            lemma_u32_read_back(0, t0);
        },
        OpView::Stat { path } => {
            let t1 = rest;
            let t0 = enc_str(path) + t1;
            assert(enc_op(op) + rest =~= enc_u32(1) + t0);
            lemma_u32_read_back(1, t0);
            lemma_str_read_back(path, t1);
        },
        OpView::List { path, cursor, limit } => {
            let t3 = rest;
            let t2 = enc_u32(limit) + t3;
            let t1 = enc_opt_str(cursor) + t2;
            let t0 = enc_str(path) + t1;
            assert(enc_op(op) + rest =~= enc_u32(2) + t0);
            lemma_u32_read_back(2, t0);
            lemma_str_read_back(path, t1);
            lemma_opt_str_read_back(cursor, t2);
            lemma_u32_read_back(limit, t3);
        },
        OpView::Read { path, offset, len } => {
            let t3 = rest;
            let t2 = enc_opt_u64(len) + t3;
            let t1 = enc_u64(offset) + t2;
            let t0 = enc_str(path) + t1;
            assert(enc_op(op) + rest =~= enc_u32(3) + t0);
            lemma_u32_read_back(3, t0);
            lemma_str_read_back(path, t1);
            lemma_u64_read_back(offset, t2);
            lemma_opt_u64_read_back(len, t3);
        },
        OpView::Write { path, object_cid, size, base_etag } => {
            let t4 = rest;
            let t3 = enc_opt_str(base_etag) + t4;
            let t2 = enc_u64(size) + t3;
            let t1 = enc_str(object_cid) + t2;
            let t0 = enc_str(path) + t1;
            assert(enc_op(op) + rest =~= enc_u32(4) + t0);
            lemma_u32_read_back(4, t0);
            lemma_str_read_back(path, t1);
            lemma_str_read_back(object_cid, t2);
            lemma_u64_read_back(size, t3);
            lemma_opt_str_read_back(base_etag, t4);
        },
        OpView::Mkdir { path } => {
            let t1 = rest;
            let t0 = enc_str(path) + t1;
            assert(enc_op(op) + rest =~= enc_u32(5) + t0);
            lemma_u32_read_back(5, t0);
            lemma_str_read_back(path, t1);
        },
        OpView::Move { from, to } => {
            let t2 = rest;
            let t1 = enc_str(to) + t2;
            let t0 = enc_str(from) + t1;
            assert(enc_op(op) + rest =~= enc_u32(6) + t0);
            lemma_u32_read_back(6, t0);
            lemma_str_read_back(from, t1);
            lemma_str_read_back(to, t2);
        },
        OpView::Copy { from, to } => {
            let t2 = rest;
            let t1 = enc_str(to) + t2;
            let t0 = enc_str(from) + t1;
            assert(enc_op(op) + rest =~= enc_u32(7) + t0);
            lemma_u32_read_back(7, t0);
            lemma_str_read_back(from, t1);
            lemma_str_read_back(to, t2);
        },
        OpView::Delete { path, recursive } => {
            let t2 = rest;
            let t1 = enc_bool(recursive) + t2;
            let t0 = enc_str(path) + t1;
            assert(enc_op(op) + rest =~= enc_u32(8) + t0);
            lemma_u32_read_back(8, t0);
            lemma_str_read_back(path, t1);
            lemma_bool_read_back(recursive, t2);
        },
        OpView::Share { path, audience, abilities, caveats } => {
            let t4 = rest;
            let t3 = enc_caveats(caveats) + t4;
            let t2 = enc_strs(abilities) + t3;
            let t1 = enc_str(audience) + t2;
            let t0 = enc_str(path) + t1;
            assert(enc_op(op) + rest =~= enc_u32(9) + t0);
            lemma_u32_read_back(9, t0);
            lemma_str_read_back(path, t1);
            lemma_str_read_back(audience, t2);
            lemma_strs_read_back(abilities, t3);
            lemma_caveats_read_back(caveats, t4);
        },
        OpView::Poll { cursor, limit } => {
            let t2 = rest;
            let t1 = enc_u32(limit) + t2;
            let t0 = enc_opt_u64(cursor) + t1;
            assert(enc_op(op) + rest =~= enc_u32(10) + t0);
            lemma_u32_read_back(10, t0);
            lemma_opt_u64_read_back(cursor, t1);
            lemma_u32_read_back(limit, t2);
        },
        OpView::Watch => {
            let t0 = rest;
            assert(enc_op(op) + rest =~= enc_u32(11) + t0);
            lemma_u32_read_back(11, t0);
        },
        OpView::Meta { path } => {
            let t1 = rest;
            let t0 = enc_str(path) + t1;
            assert(enc_op(op) + rest =~= enc_u32(12) + t0);
            lemma_u32_read_back(12, t0);
            lemma_str_read_back(path, t1);
        },
        OpView::SetProp { path, key, value } => {
            let t3 = rest;
            let t2 = enc_opt_str(value) + t3;
            let t1 = enc_str(key) + t2;
            let t0 = enc_str(path) + t1;
            assert(enc_op(op) + rest =~= enc_u32(13) + t0);
            lemma_u32_read_back(13, t0);
            lemma_str_read_back(path, t1);
            lemma_str_read_back(key, t2);
            lemma_opt_str_read_back(value, t3);
        },
        OpView::Tag { path, tag, remove } => {
            let t3 = rest;
            let t2 = enc_bool(remove) + t3;
            let t1 = enc_str(tag) + t2;
            let t0 = enc_str(path) + t1;
            assert(enc_op(op) + rest =~= enc_u32(14) + t0);
            lemma_u32_read_back(14, t0);
            lemma_str_read_back(path, t1);
            lemma_str_read_back(tag, t2);
            lemma_bool_read_back(remove, t3);
        },
        OpView::Link { path, rel, to, remove } => {
            let t4 = rest;
            let t3 = enc_bool(remove) + t4;
            let t2 = enc_str(to) + t3;
            let t1 = enc_str(rel) + t2;
            let t0 = enc_str(path) + t1;
            assert(enc_op(op) + rest =~= enc_u32(15) + t0);
            lemma_u32_read_back(15, t0);
            lemma_str_read_back(path, t1);
            lemma_str_read_back(rel, t2);
            lemma_str_read_back(to, t3);
            lemma_bool_read_back(remove, t4);
        },
        OpView::Backlinks { to } => {
            let t1 = rest;
            let t0 = enc_str(to) + t1;
            assert(enc_op(op) + rest =~= enc_u32(16) + t0);
            lemma_u32_read_back(16, t0);
            lemma_str_read_back(to, t1);
        },
        OpView::Versions { path } => {
            let t1 = rest;
            let t0 = enc_str(path) + t1;
            assert(enc_op(op) + rest =~= enc_u32(17) + t0);
            lemma_u32_read_back(17, t0);
            lemma_str_read_back(path, t1);
        },
    }
}

/// Reading the bytes of a request gives the request, whatever follows them.
pub proof fn law_request_read_back(req: ReqView, rest: Seq<u8>)
    requires
        req_fits(req),
    ensures
        get_req(enc_req(req) + rest) == Ok::<(ReqView, Seq<u8>), WireErr>((req, rest)),
{
    let t2 = enc_op(req.op) + rest;
    let t1 = enc_str(req.cap) + t2;
    assert(enc_req(req) + rest =~= enc_str(req.drive) + t1);
    lemma_str_read_back(req.drive, t1);
    lemma_str_read_back(req.cap, t2);
    law_op_read_back(req.op, rest);
}

proof fn lemma_u32_canonical(b: Seq<u8>)
    ensures
        get_u32(b) matches Ok((x, rest)) ==> b == enc_u32(x) + rest,
{
    reveal(enc_u32);
    reveal(get_u32);
    if b.len() >= 4 {
        lemma_radix();
        lemma_le_back(b.take(4));
        assert(b =~= b.take(4) + b.skip(4));
    }
}

proof fn lemma_u64_canonical(b: Seq<u8>)
    ensures
        get_u64(b) matches Ok((x, rest)) ==> b == enc_u64(x) + rest,
{
    reveal(enc_u64);
    reveal(get_u64);
    if b.len() >= 8 {
        lemma_radix();
        lemma_le_back(b.take(8));
        assert(b =~= b.take(8) + b.skip(8));
    }
}

proof fn lemma_bool_canonical(b: Seq<u8>)
    ensures
        get_bool(b) matches Ok((x, rest)) ==> b == enc_bool(x) + rest,
{
    reveal(enc_bool);
    reveal(get_bool);
    if let Ok((x, rest)) = get_bool(b) {
        assert(b =~= enc_bool(x) + rest);
    }
}

proof fn lemma_str_canonical(b: Seq<u8>)
    ensures
        get_str(b) matches Ok((s, rest)) ==> b == enc_str(s) + rest && fits(s),
{
    reveal(enc_str);
    reveal(enc_u64);
    reveal(get_str);
    lemma_u64_canonical(b);
    if let Ok((s, rest)) = get_str(b) {
        let (n, b1) = get_u64(b)->Ok_0;
        let u = b1.take(n as int);
        vstd::utf8::decode_utf8_encode_utf8(u);
        assert(b =~= enc_str(s) + rest);
    }
}

proof fn lemma_opt_str_canonical(b: Seq<u8>)
    ensures
        get_opt_str(b) matches Ok((o, rest)) ==> b == enc_opt_str(o) + rest && opt_fits(o),
{
    reveal(enc_opt_str);
    reveal(get_opt_str);
    reveal(get_tag);
    if let Ok((o, rest)) = get_opt_str(b) {
        assert(b =~= seq![b[0]] + b.skip(1));
        if b[0] == 1 {
            lemma_str_canonical(b.skip(1));
            let s = o->0;
            assert(seq![1u8] + (enc_str(s) + rest) =~= seq![1u8] + enc_str(s) + rest);
        }
    }
}

proof fn lemma_opt_u64_canonical(b: Seq<u8>)
    ensures
        get_opt_u64(b) matches Ok((o, rest)) ==> b == enc_opt_u64(o) + rest,
{
    reveal(enc_opt_u64);
    reveal(get_opt_u64);
    reveal(get_tag);
    if let Ok((o, rest)) = get_opt_u64(b) {
        assert(b =~= seq![b[0]] + b.skip(1));
        if b[0] == 1 {
            lemma_u64_canonical(b.skip(1));
            let x = o->0;
            assert(seq![1u8] + (enc_u64(x) + rest) =~= seq![1u8] + enc_u64(x) + rest);
        }
    }
}

proof fn lemma_each_canonical(n: nat, b: Seq<u8>)
    ensures
        get_each(n, b) matches Ok((v, rest)) ==> {
            &&& v.len() == n
            &&& b == enc_each(v) + rest
            &&& forall|i: int| 0 <= i < v.len() ==> fits(#[trigger] v[i])
        },
    decreases n,
{
    if n > 0 {
        lemma_str_canonical(b);
        if let Ok((s, b1)) = get_str(b) {
            lemma_each_canonical((n - 1) as nat, b1);
            if let Ok((w, rest)) = get_each((n - 1) as nat, b1) {
                let v = seq![s] + w;
                assert(v.drop_first() =~= w);
                assert(b =~= enc_each(v) + rest);
                assert forall|i: int| 0 <= i < v.len() implies fits(#[trigger] v[i]) by {
                    if i > 0 {
                        assert(v[i] == w[i - 1]);
                    }
                }
            }
        }
    } else {
        assert(b =~= enc_each(Seq::empty()) + b);
    }
}

proof fn lemma_strs_canonical(b: Seq<u8>)
    ensures
        get_strs(b) matches Ok((v, rest)) ==> b == enc_strs(v) + rest && all_fit(v),
{
    reveal(enc_strs);
    reveal(enc_u64);
    reveal(get_strs);
    lemma_u64_canonical(b);
    if let Ok((n, b1)) = get_u64(b) {
        lemma_each_canonical(n as nat, b1);
        if let Ok((v, rest)) = get_each(n as nat, b1) {
            assert(b =~= enc_strs(v) + rest);
        }
    }
}

proof fn lemma_caveats_canonical(b: Seq<u8>)
    ensures
        get_caveats(b) matches Ok((c, rest)) ==> b == enc_caveats(c) + rest,
{
    reveal(enc_caveats);
    reveal(get_caveats);
    lemma_u64_canonical(b);
    if let Ok((_, b1)) = get_u64(b) {
        lemma_opt_u64_canonical(b1);
        if let Ok((_, b2)) = get_opt_u64(b1) {
            lemma_opt_u64_canonical(b2);
            if let Ok((c, rest)) = get_caveats(b) {
                assert(b =~= enc_caveats(c) + rest);
            }
        }
    }
}

/// What is read as an operation is the encoding of that operation, followed by what is left.
pub proof fn law_op_canonical(b: Seq<u8>)
    ensures
        get_op(b) matches Ok((op, rest)) ==> b == enc_op(op) + rest && op_fits(op),
{
    lemma_u32_canonical(b);
    if let Ok((i, b0)) = get_u32(b) {
        match i {
            0 => {
                assert(b =~= enc_op(OpView::Open) + b0);
            },
            1 => {
                lemma_str_canonical(b0);
                if let Ok((path, b1)) = get_str(b0) {
                    assert(b =~= enc_op(OpView::Stat { path }) + b1);
                }
            },
            2 => {
                lemma_str_canonical(b0);
                if let Ok((path, b1)) = get_str(b0) {
                    lemma_opt_str_canonical(b1);
                    if let Ok((cursor, b2)) = get_opt_str(b1) {
                        lemma_u32_canonical(b2);
                        if let Ok((limit, b3)) = get_u32(b2) {
                            assert(b =~= enc_op(OpView::List { path, cursor, limit }) + b3);
                        }
                    }
                }
            },
            3 => {
                lemma_str_canonical(b0);
                if let Ok((path, b1)) = get_str(b0) {
                    lemma_u64_canonical(b1);
                    if let Ok((offset, b2)) = get_u64(b1) {
                        lemma_opt_u64_canonical(b2);
                        if let Ok((len, b3)) = get_opt_u64(b2) {
                            assert(b =~= enc_op(OpView::Read { path, offset, len }) + b3);
                        }
                    }
                }
            },
            4 => {
                lemma_str_canonical(b0);
                if let Ok((path, b1)) = get_str(b0) {
                    lemma_str_canonical(b1);
                    if let Ok((object_cid, b2)) = get_str(b1) {
                        lemma_u64_canonical(b2);
                        if let Ok((size, b3)) = get_u64(b2) {
                            lemma_opt_str_canonical(b3);
                            if let Ok((base_etag, b4)) = get_opt_str(b3) {
                                assert(b =~= enc_op(OpView::Write { path, object_cid, size, base_etag }) + b4);
                            }
                        }
                    }
                }
            },
            5 => {
                lemma_str_canonical(b0);
                if let Ok((path, b1)) = get_str(b0) {
                    assert(b =~= enc_op(OpView::Mkdir { path }) + b1);
                }
            },
            6 => {
                lemma_str_canonical(b0);
                if let Ok((from, b1)) = get_str(b0) {
                    lemma_str_canonical(b1);
                    if let Ok((to, b2)) = get_str(b1) {
                        assert(b =~= enc_op(OpView::Move { from, to }) + b2);
                    }
                }
            },
            7 => {
                lemma_str_canonical(b0);
                if let Ok((from, b1)) = get_str(b0) {
                    lemma_str_canonical(b1);
                    if let Ok((to, b2)) = get_str(b1) {
                        assert(b =~= enc_op(OpView::Copy { from, to }) + b2);
                    }
                }
            },
            8 => {
                lemma_str_canonical(b0);
                if let Ok((path, b1)) = get_str(b0) {
                    lemma_bool_canonical(b1);
                    if let Ok((recursive, b2)) = get_bool(b1) {
                        assert(b =~= enc_op(OpView::Delete { path, recursive }) + b2);
                    }
                }
            },
            9 => {
                lemma_str_canonical(b0);
                if let Ok((path, b1)) = get_str(b0) {
                    lemma_str_canonical(b1);
                    if let Ok((audience, b2)) = get_str(b1) {
                        lemma_strs_canonical(b2);
                        if let Ok((abilities, b3)) = get_strs(b2) {
                            lemma_caveats_canonical(b3);
                            if let Ok((caveats, b4)) = get_caveats(b3) {
                                assert(b =~= enc_op(OpView::Share { path, audience, abilities, caveats }) + b4);
                            }
                        }
                    }
                }
            },
            10 => {
                lemma_opt_u64_canonical(b0);
                if let Ok((cursor, b1)) = get_opt_u64(b0) {
                    lemma_u32_canonical(b1);
                    if let Ok((limit, b2)) = get_u32(b1) {
                        assert(b =~= enc_op(OpView::Poll { cursor, limit }) + b2);
                    }
                }
            },
            11 => {
                assert(b =~= enc_op(OpView::Watch) + b0);
            },
            12 => {
                lemma_str_canonical(b0);
                if let Ok((path, b1)) = get_str(b0) {
                    assert(b =~= enc_op(OpView::Meta { path }) + b1);
                }
            },
            13 => {
                lemma_str_canonical(b0);
                if let Ok((path, b1)) = get_str(b0) {
                    lemma_str_canonical(b1);
                    if let Ok((key, b2)) = get_str(b1) {
                        lemma_opt_str_canonical(b2);
                        if let Ok((value, b3)) = get_opt_str(b2) {
                            assert(b =~= enc_op(OpView::SetProp { path, key, value }) + b3);
                        }
                    }
                }
            },
            14 => {
                lemma_str_canonical(b0);
                if let Ok((path, b1)) = get_str(b0) {
                    lemma_str_canonical(b1);
                    if let Ok((tag, b2)) = get_str(b1) {
                        lemma_bool_canonical(b2);
                        if let Ok((remove, b3)) = get_bool(b2) {
                            assert(b =~= enc_op(OpView::Tag { path, tag, remove }) + b3);
                        }
                    }
                }
            },
            15 => {
                lemma_str_canonical(b0);
                if let Ok((path, b1)) = get_str(b0) {
                    lemma_str_canonical(b1);
                    if let Ok((rel, b2)) = get_str(b1) {
                        lemma_str_canonical(b2);
                        if let Ok((to, b3)) = get_str(b2) {
                            lemma_bool_canonical(b3);
                            if let Ok((remove, b4)) = get_bool(b3) {
                                assert(b =~= enc_op(OpView::Link { path, rel, to, remove }) + b4);
                            }
                        }
                    }
                }
            },
            16 => {
                lemma_str_canonical(b0);
                if let Ok((to, b1)) = get_str(b0) {
                    assert(b =~= enc_op(OpView::Backlinks { to }) + b1);
                }
            },
            17 => {
                lemma_str_canonical(b0);
                if let Ok((path, b1)) = get_str(b0) {
                    assert(b =~= enc_op(OpView::Versions { path }) + b1);
                }
            },
            _ => {},
        }
    }
}

/// Bytes are read as a request only if they start with the encoding of that request.
pub proof fn law_request_canonical(b: Seq<u8>)
    ensures
        get_req(b) matches Ok((req, rest)) ==> b == enc_req(req) + rest && req_fits(req),
{
    lemma_str_canonical(b);
    if let Ok((drive, b1)) = get_str(b) {
        lemma_str_canonical(b1);
        if let Ok((cap, b2)) = get_str(b1) {
            law_op_canonical(b2);
            if let Ok((op, rest)) = get_op(b2) {
                assert(b =~= enc_req(ReqView { drive, cap, op }) + rest);
            }
        }
    }
}

/// Two requests with the same bytes are the same request.
pub proof fn law_request_encoding_injective(a: ReqView, b: ReqView)
    requires
        req_fits(a),
        req_fits(b),
        enc_req(a) == enc_req(b),
    ensures
        a == b,
{
    law_request_read_back(a, Seq::empty());
    law_request_read_back(b, Seq::empty());
}

// ----- writing -----

fn put_u32(out: &mut Vec<u8>, x: u32)
    ensures
        final(out)@ == old(out)@ + enc_u32(x),
{
    let mut v = bincode_u32(x);
    out.append(&mut v);
}

fn put_u64(out: &mut Vec<u8>, x: u64)
    ensures
        final(out)@ == old(out)@ + enc_u64(x),
{
    let mut v = bincode_u64(x);
    out.append(&mut v);
}

fn put_str(out: &mut Vec<u8>, s: &str)
    ensures
        final(out)@ == old(out)@ + enc_str(s@),
{
    let mut v = bincode_str(s);
    out.append(&mut v);
}

fn put_bool(out: &mut Vec<u8>, x: bool)
    ensures
        final(out)@ == old(out)@ + enc_bool(x),
{
    proof {
        reveal(enc_bool);
    }
    let ghost was = out@;
    out.push(if x { 1u8 } else { 0u8 });
    assert(out@ =~= was + enc_bool(x));
}

fn put_opt_str(out: &mut Vec<u8>, o: &Option<String>)
    ensures
        final(out)@ == old(out)@ + enc_opt_str(o.deep_view()),
{
    proof {
        reveal(enc_opt_str);
    }
    let ghost was = out@;
    match o {
        None => out.push(0u8),
        Some(s) => {
            out.push(1u8);
            put_str(out, s.as_str());
        },
    }
    assert(out@ =~= was + enc_opt_str(o.deep_view()));
}

fn put_opt_u64(out: &mut Vec<u8>, o: Option<u64>)
    ensures
        final(out)@ == old(out)@ + enc_opt_u64(o),
{
    proof {
        reveal(enc_opt_u64);
    }
    let ghost was = out@;
    match o {
        None => out.push(0u8),
        Some(x) => {
            out.push(1u8);
            put_u64(out, x);
        },
    }
    assert(out@ =~= was + enc_opt_u64(o));
}

fn put_strs(out: &mut Vec<u8>, v: &Vec<String>)
    ensures
        final(out)@ == old(out)@ + enc_strs(v.deep_view()),
{
    proof {
        reveal(enc_strs);
        reveal(enc_u64);
    }
    let ghost was = out@;
    let ghost all = v.deep_view();
    put_u64(out, v.len() as u64);
    let mut i: usize = 0;
    assert(all.skip(0) =~= all);
    while i < v.len()
        invariant
            i <= v@.len(),
            all == v.deep_view(),
            out@ + enc_each(all.skip(i as int)) == was + enc_u64(v@.len() as u64) + enc_each(all),
        decreases v@.len() - i,
    {
        let ghost here = out@;
        put_str(out, v[i].as_str());
        proof {
            let t = all.skip(i as int);
            assert(t[0] == v@[i as int]@);
            assert(t.drop_first() =~= all.skip(i + 1));
            assert(here + enc_each(t) =~= here + enc_str(t[0]) + enc_each(t.drop_first()));
        }
        i = i + 1;
    }
    assert(all.skip(i as int).len() == 0);
    assert(out@ + enc_each(all.skip(i as int)) =~= out@);
    assert(out@ =~= was + enc_strs(all));
}

fn put_caveats(out: &mut Vec<u8>, c: &ShareCaveats)
    ensures
        final(out)@ == old(out)@ + enc_caveats(*c),
{
    proof {
        reveal(enc_caveats);
    }
    let ghost was = out@;
    put_u64(out, c.not_after);
    put_opt_u64(out, c.max_bytes_read);
    put_opt_u64(out, c.max_bytes_write);
    assert(out@ =~= was + enc_caveats(*c));
}

fn put_op(out: &mut Vec<u8>, op: &DriveOp)
    ensures
        final(out)@ == old(out)@ + enc_op(op.deep_view()),
{
    let ghost was = out@;
    match op {
        DriveOp::Open => {
            put_u32(out, 0);
        },
        DriveOp::Stat { path } => {
            put_u32(out, 1);
            put_str(out, path.as_str());
        },
        DriveOp::List { path, cursor, limit } => {
            put_u32(out, 2);
            put_str(out, path.as_str());
            put_opt_str(out, cursor);
            put_u32(out, *limit);
        },
        DriveOp::Read { path, offset, len } => {
            put_u32(out, 3);
            put_str(out, path.as_str());
            put_u64(out, *offset);
            put_opt_u64(out, *len);
        },
        DriveOp::Write { path, object_cid, size, base_etag } => {
            put_u32(out, 4);
            put_str(out, path.as_str());
            put_str(out, object_cid.as_str());
            put_u64(out, *size);
            put_opt_str(out, base_etag);
        },
        DriveOp::Mkdir { path } => {
            put_u32(out, 5);
            put_str(out, path.as_str());
        },
        DriveOp::Move { from, to } => {
            put_u32(out, 6);
            put_str(out, from.as_str());
            put_str(out, to.as_str());
        },
        DriveOp::Copy { from, to } => {
            put_u32(out, 7);
            put_str(out, from.as_str());
            put_str(out, to.as_str());
        },
        DriveOp::Delete { path, recursive } => {
            put_u32(out, 8);
            put_str(out, path.as_str());
            put_bool(out, *recursive);
        },
        DriveOp::Share { path, audience, abilities, caveats } => {
            put_u32(out, 9);
            put_str(out, path.as_str());
            put_str(out, audience.as_str());
            put_strs(out, abilities);
            put_caveats(out, caveats);
        },
        DriveOp::Poll { cursor, limit } => {
            put_u32(out, 10);
            put_opt_u64(out, *cursor);
            put_u32(out, *limit);
        },
        DriveOp::Watch => {
            put_u32(out, 11);
        },
        DriveOp::Meta { path } => {
            put_u32(out, 12);
            put_str(out, path.as_str());
        },
        DriveOp::SetProp { path, key, value } => {
            put_u32(out, 13);
            put_str(out, path.as_str());
            put_str(out, key.as_str());
            put_opt_str(out, value);
        },
        DriveOp::Tag { path, tag, remove } => {
            put_u32(out, 14);
            put_str(out, path.as_str());
            put_str(out, tag.as_str());
            put_bool(out, *remove);
        },
        DriveOp::Link { path, rel, to, remove } => {
            put_u32(out, 15);
            put_str(out, path.as_str());
            put_str(out, rel.as_str());
            put_str(out, to.as_str());
            put_bool(out, *remove);
        },
        DriveOp::Backlinks { to } => {
            put_u32(out, 16);
            put_str(out, to.as_str());
        },
        DriveOp::Versions { path } => {
            put_u32(out, 17);
            put_str(out, path.as_str());
        },
    }
    assert(out@ =~= was + enc_op(op.deep_view()));
}

/// The bytes of a request.
pub fn encode_req(req: &DriveReq) -> (r: Vec<u8>)
    ensures
        r@ == enc_req(req.deep_view()),
{
    let mut out: Vec<u8> = Vec::new();
    put_str(&mut out, req.drive.as_str());
    put_str(&mut out, req.cap.as_str());
    put_op(&mut out, &req.op);
    assert(out@ =~= enc_req(req.deep_view()));
    out
}

// ----- reading -----

/// Whether reading at some place of `b` gave what the format says is there: the same value and
/// the same place to go on, or the same error.
pub open spec fn agrees<T: DeepView>(
    r: Result<(T, usize), WireErr>,
    b: Seq<u8>,
    p: Parsed<T::V>,
) -> bool {
    match (r, p) {
        (Ok((x, to)), Ok((v, rest))) => x.deep_view() == v && to <= b.len() && b.skip(to as int)
            == rest,
        (Err(e), Err(f)) => e == f,
        _ => false,
    }
}

impl DeepView for ShareCaveats {
    type V = ShareCaveats;

    open spec fn deep_view(&self) -> ShareCaveats {
        *self
    }
}

fn take_u32(b: &[u8], at: usize) -> (r: Result<(u32, usize), WireErr>)
    requires
        at <= b@.len(),
    ensures
        agrees(r, b@, get_u32(b@.skip(at as int))),
{
    proof {
        reveal(get_u32);
    }
    let rest = slice_subrange(b, at, b.len());
    assert(rest@ =~= b@.skip(at as int));
    match bincode_read_u32(rest) {
        Some(x) => {
            assert(b@.skip(at as int).skip(4) =~= b@.skip(at + 4));
            Ok((x, at + 4))
        },
        None => Err(WireErr::Truncated),
    }
}

fn take_u64(b: &[u8], at: usize) -> (r: Result<(u64, usize), WireErr>)
    requires
        at <= b@.len(),
    ensures
        agrees(r, b@, get_u64(b@.skip(at as int))),
{
    proof {
        reveal(get_u64);
    }
    let rest = slice_subrange(b, at, b.len());
    assert(rest@ =~= b@.skip(at as int));
    match bincode_read_u64(rest) {
        Some(x) => {
            assert(b@.skip(at as int).skip(8) =~= b@.skip(at + 8));
            Ok((x, at + 8))
        },
        None => Err(WireErr::Truncated),
    }
}

fn take_bool(b: &[u8], at: usize) -> (r: Result<(bool, usize), WireErr>)
    requires
        at <= b@.len(),
    ensures
        agrees(r, b@, get_bool(b@.skip(at as int))),
{
    proof {
        reveal(get_bool);
    }
    if at == b.len() {
        return Err(WireErr::Truncated);
    }
    assert(b@.skip(at as int)[0] == b@[at as int]);
    if b[at] > 1 {
        return Err(WireErr::Bool(b[at]));
    }
    assert(b@.skip(at as int).skip(1) =~= b@.skip(at + 1));
    Ok((b[at] == 1, at + 1))
}

fn take_tag(b: &[u8], at: usize) -> (r: Result<(bool, usize), WireErr>)
    requires
        at <= b@.len(),
    ensures
        agrees(r, b@, get_tag(b@.skip(at as int))),
{
    proof {
        reveal(get_tag);
    }
    if at == b.len() {
        return Err(WireErr::Truncated);
    }
    assert(b@.skip(at as int)[0] == b@[at as int]);
    if b[at] > 1 {
        return Err(WireErr::Tag(b[at]));
    }
    assert(b@.skip(at as int).skip(1) =~= b@.skip(at + 1));
    Ok((b[at] == 1, at + 1))
}

fn take_str(b: &[u8], at: usize) -> (r: Result<(String, usize), WireErr>)
    requires
        at <= b@.len(),
    ensures
        agrees(r, b@, get_str(b@.skip(at as int))),
{
    proof {
        reveal(get_str);
        reveal(get_u64);
    }
    let (n, from) = match take_u64(b, at) {
        Err(e) => {
            return Err(e);
        },
        Ok(p) => p,
    };
    let left: u64 = (b.len() - from) as u64;
    if left < n {
        return Err(WireErr::Short);
    }
    let rest = slice_subrange(b, at, b.len());
    assert(rest@ =~= b@.skip(at as int));
    match bincode_read_str(rest) {
        Some(s) => {
            let to: usize = from + n as usize;
            assert(b@.skip(from as int).skip(n as int) =~= b@.skip(to as int));
            Ok((s, to))
        },
        None => Err(WireErr::Utf8),
    }
}

fn take_opt_str(b: &[u8], at: usize) -> (r: Result<(Option<String>, usize), WireErr>)
    requires
        at <= b@.len(),
    ensures
        agrees(r, b@, get_opt_str(b@.skip(at as int))),
{
    proof {
        reveal(get_opt_str);
    }
    match take_tag(b, at) {
        Err(e) => Err(e),
        Ok((false, at)) => Ok((None, at)),
        Ok((true, at)) => match take_str(b, at) {
            Err(e) => Err(e),
            Ok((s, at)) => Ok((Some(s), at)),
        },
    }
}

fn take_opt_u64(b: &[u8], at: usize) -> (r: Result<(Option<u64>, usize), WireErr>)
    requires
        at <= b@.len(),
    ensures
        agrees(r, b@, get_opt_u64(b@.skip(at as int))),
{
    proof {
        reveal(get_opt_u64);
    }
    match take_tag(b, at) {
        Err(e) => Err(e),
        Ok((false, at)) => Ok((None, at)),
        Ok((true, at)) => match take_u64(b, at) {
            Err(e) => Err(e),
            Ok((x, at)) => Ok((Some(x), at)),
        },
    }
}

fn take_strs(b: &[u8], at: usize) -> (r: Result<(Vec<String>, usize), WireErr>)
    requires
        at <= b@.len(),
    ensures
        agrees(r, b@, get_strs(b@.skip(at as int))),
{
    proof {
        reveal(get_strs);
    }
    let (n, from) = match take_u64(b, at) {
        Err(e) => {
            return Err(e);
        },
        Ok(p) => p,
    };
    let ghost start = b@.skip(at as int);
    let ghost whole = get_each(n as nat, b@.skip(from as int));
    let mut v: Vec<String> = Vec::new();
    let mut i: u64 = 0;
    let mut pos: usize = from;
    assert(v.deep_view() =~= Seq::<Seq<char>>::empty());
    assert(match get_each(n as nat, b@.skip(from as int)) {
        Err(e) => whole == Err::<(Seq<Seq<char>>, Seq<u8>), WireErr>(e),
        Ok((w, rest)) => whole == Ok::<(Seq<Seq<char>>, Seq<u8>), WireErr>(
            (v.deep_view() + w, rest),
        ),
    }) by {
        if let Ok((w, rest)) = whole {
            assert(v.deep_view() + w =~= w);
        }
    }
    while i < n
        invariant
            i <= n,
            pos <= b@.len(),
            match get_each((n - i) as nat, b@.skip(pos as int)) {
                Err(e) => whole == Err::<(Seq<Seq<char>>, Seq<u8>), WireErr>(e),
                Ok((w, rest)) => whole == Ok::<(Seq<Seq<char>>, Seq<u8>), WireErr>(
                    (v.deep_view() + w, rest),
                ),
            },
            start == b@.skip(at as int),
            get_strs(start) == whole,
        decreases n - i,
    {
        match take_str(b, pos) {
            Err(e) => {
                return Err(e);
            },
            Ok((s, to)) => {
                let ghost was = v.deep_view();
                v.push(s);
                proof {
                    assert(v.deep_view() =~= was.push(s@));
                    if let Ok((w, rest)) = get_each((n - i - 1) as nat, b@.skip(to as int)) {
                        assert(was + (seq![s@] + w) =~= v.deep_view() + w);
                    }
                }
                pos = to;
                i = i + 1;
            },
        }
    }
    assert(v.deep_view() + Seq::<Seq<char>>::empty() =~= v.deep_view());
    Ok((v, pos))
}

fn take_caveats(b: &[u8], at: usize) -> (r: Result<(ShareCaveats, usize), WireErr>)
    requires
        at <= b@.len(),
    ensures
        agrees(r, b@, get_caveats(b@.skip(at as int))),
{
    proof {
        reveal(get_caveats);
    }
    match take_u64(b, at) {
        Err(e) => Err(e),
        Ok((not_after, at)) => match take_opt_u64(b, at) {
            Err(e) => Err(e),
            Ok((max_bytes_read, at)) => match take_opt_u64(b, at) {
                Err(e) => Err(e),
                Ok((max_bytes_write, at)) => Ok(
                    (ShareCaveats { not_after, max_bytes_read, max_bytes_write }, at),
                ),
            },
        },
    }
}

fn take_op(b: &[u8], at: usize) -> (r: Result<(DriveOp, usize), WireErr>)
    requires
        at <= b@.len(),
    ensures
        agrees(r, b@, get_op(b@.skip(at as int))),
{
    match take_u32(b, at) {
        Err(e) => Err(e),
        Ok((i, at)) => match i {
            0 => Ok((DriveOp::Open, at)),
            1 => match take_str(b, at) {
                Err(e) => Err(e),
                Ok((path, at)) => Ok((DriveOp::Stat { path }, at)),
            },
            2 => match take_str(b, at) {
                Err(e) => Err(e),
                Ok((path, at)) => match take_opt_str(b, at) {
                    Err(e) => Err(e),
                    Ok((cursor, at)) => match take_u32(b, at) {
                        Err(e) => Err(e),
                        Ok((limit, at)) => Ok((DriveOp::List { path, cursor, limit }, at)),
                    },
                },
            },
            3 => match take_str(b, at) {
                Err(e) => Err(e),
                Ok((path, at)) => match take_u64(b, at) {
                    Err(e) => Err(e),
                    Ok((offset, at)) => match take_opt_u64(b, at) {
                        Err(e) => Err(e),
                        Ok((len, at)) => Ok((DriveOp::Read { path, offset, len }, at)),
                    },
                },
            },
            4 => match take_str(b, at) {
                Err(e) => Err(e),
                Ok((path, at)) => match take_str(b, at) {
                    Err(e) => Err(e),
                    Ok((object_cid, at)) => match take_u64(b, at) {
                        Err(e) => Err(e),
                        Ok((size, at)) => match take_opt_str(b, at) {
                            Err(e) => Err(e),
                            Ok((base_etag, at)) => Ok((DriveOp::Write { path, object_cid, size, base_etag }, at)),
                        },
                    },
                },
            },
            5 => match take_str(b, at) {
                Err(e) => Err(e),
                Ok((path, at)) => Ok((DriveOp::Mkdir { path }, at)),
            },
            6 => match take_str(b, at) {
                Err(e) => Err(e),
                Ok((from, at)) => match take_str(b, at) {
                    Err(e) => Err(e),
                    Ok((to, at)) => Ok((DriveOp::Move { from, to }, at)),
                },
            },
            7 => match take_str(b, at) {
                Err(e) => Err(e),
                Ok((from, at)) => match take_str(b, at) {
                    Err(e) => Err(e),
                    Ok((to, at)) => Ok((DriveOp::Copy { from, to }, at)),
                },
            },
            8 => match take_str(b, at) {
                Err(e) => Err(e),
                Ok((path, at)) => match take_bool(b, at) {
                    Err(e) => Err(e),
                    Ok((recursive, at)) => Ok((DriveOp::Delete { path, recursive }, at)),
                },
            },
            9 => match take_str(b, at) {
                Err(e) => Err(e),
                Ok((path, at)) => match take_str(b, at) {
                    Err(e) => Err(e),
                    Ok((audience, at)) => match take_strs(b, at) {
                        Err(e) => Err(e),
                        Ok((abilities, at)) => match take_caveats(b, at) {
                            Err(e) => Err(e),
                            Ok((caveats, at)) => Ok((DriveOp::Share { path, audience, abilities, caveats }, at)),
                        },
                    },
                },
            },
            10 => match take_opt_u64(b, at) {
                Err(e) => Err(e),
                Ok((cursor, at)) => match take_u32(b, at) {
                    Err(e) => Err(e),
                    Ok((limit, at)) => Ok((DriveOp::Poll { cursor, limit }, at)),
                },
            },
            11 => Ok((DriveOp::Watch, at)),
            12 => match take_str(b, at) {
                Err(e) => Err(e),
                Ok((path, at)) => Ok((DriveOp::Meta { path }, at)),
            },
            13 => match take_str(b, at) {
                Err(e) => Err(e),
                Ok((path, at)) => match take_str(b, at) {
                    Err(e) => Err(e),
                    Ok((key, at)) => match take_opt_str(b, at) {
                        Err(e) => Err(e),
                        Ok((value, at)) => Ok((DriveOp::SetProp { path, key, value }, at)),
                    },
                },
            },
            14 => match take_str(b, at) {
                Err(e) => Err(e),
                Ok((path, at)) => match take_str(b, at) {
                    Err(e) => Err(e),
                    Ok((tag, at)) => match take_bool(b, at) {
                        Err(e) => Err(e),
                        Ok((remove, at)) => Ok((DriveOp::Tag { path, tag, remove }, at)),
                    },
                },
            },
            15 => match take_str(b, at) {
                Err(e) => Err(e),
                Ok((path, at)) => match take_str(b, at) {
                    Err(e) => Err(e),
                    Ok((rel, at)) => match take_str(b, at) {
                        Err(e) => Err(e),
                        Ok((to, at)) => match take_bool(b, at) {
                            Err(e) => Err(e),
                            Ok((remove, at)) => Ok((DriveOp::Link { path, rel, to, remove }, at)),
                        },
                    },
                },
            },
            16 => match take_str(b, at) {
                Err(e) => Err(e),
                Ok((to, at)) => Ok((DriveOp::Backlinks { to }, at)),
            },
            17 => match take_str(b, at) {
                Err(e) => Err(e),
                Ok((path, at)) => Ok((DriveOp::Versions { path }, at)),
            },
            _ => Err(WireErr::Variant(i)),
        },
    }
}

/// The request that bytes stand for. Bytes after it are ignored.
pub fn decode_req(b: &[u8]) -> (r: Result<DriveReq, WireErr>)
    ensures
        match r {
            Ok(req) => get_req(b@) matches Ok((v, _)) && v == req.deep_view(),
            Err(e) => get_req(b@) == Err::<(ReqView, Seq<u8>), WireErr>(e),
        },
{
    assert(b@.skip(0) =~= b@);
    match take_str(b, 0) {
        Err(e) => Err(e),
        Ok((drive, at)) => match take_str(b, at) {
            Err(e) => Err(e),
            Ok((cap, at)) => match take_op(b, at) {
                Err(e) => Err(e),
                Ok((op, _)) => Ok(DriveReq { drive, cap, op }),
            },
        },
    }
}

// ----- replies -----

/// The kind of an entry.
pub open spec fn enc_entry_kind(k: EntryKind) -> Seq<u8> {
    match k {
        EntryKind::File => enc_u32(0),
        EntryKind::Dir => enc_u32(1),
    }
}

/// An entry.
#[verifier::opaque]
pub open spec fn enc_entry(e: EntryView) -> Seq<u8> {
    enc_str(e.path) + enc_entry_kind(e.kind) + enc_u64(e.size) + enc_u64(e.mtime_ms) + enc_str(
        e.etag,
    ) + enc_str(e.node_id) + enc_opt_str(e.object_cid) + enc_opt_str(e.doc_id)
}

fn put_entry(out: &mut Vec<u8>, e: &Entry)
    ensures
        final(out)@ == old(out)@ + enc_entry(e.deep_view()),
{
    let ghost was = out@;
    put_str(out, e.path.as_str());
    put_u32(
        out,
        match e.kind {
            EntryKind::File => 0,
            EntryKind::Dir => 1,
        },
    );
    put_u64(out, e.size);
    put_u64(out, e.mtime_ms);
    put_str(out, e.etag.as_str());
    put_str(out, e.node_id.as_str());
    put_opt_str(out, &e.object_cid);
    put_opt_str(out, &e.doc_id);
    proof {
        reveal(enc_entry);
    }
    assert(out@ =~= was + enc_entry(e.deep_view()));
}

/// A chunk of a read plan.
#[verifier::opaque]
pub open spec fn enc_chunk(c: ChunkView) -> Seq<u8> {
    enc_str(c.cid) + enc_u64(c.offset) + enc_u64(c.len)
}

fn put_chunk(out: &mut Vec<u8>, c: &ChunkRef)
    ensures
        final(out)@ == old(out)@ + enc_chunk(c.deep_view()),
{
    let ghost was = out@;
    put_str(out, c.cid.as_str());
    put_u64(out, c.offset);
    put_u64(out, c.len);
    proof {
        reveal(enc_chunk);
    }
    assert(out@ =~= was + enc_chunk(c.deep_view()));
}

/// What happened to a node.
pub open spec fn enc_change_kind(k: ChangeKindView) -> Seq<u8> {
    match k {
        ChangeKindView::Created => enc_u32(0),
        ChangeKindView::Modified => enc_u32(1),
        ChangeKindView::Moved { from } => enc_u32(2) + enc_str(from),
        ChangeKindView::Deleted => enc_u32(3),
    }
}

/// A line of the change feed.
#[verifier::opaque]
pub open spec fn enc_change(c: ChangeView) -> Seq<u8> {
    enc_u64(c.seq) + enc_str(c.path) + enc_str(c.node_id) + enc_change_kind(c.kind) + enc_str(
        c.etag,
    )
}

fn put_change(out: &mut Vec<u8>, c: &Change)
    ensures
        final(out)@ == old(out)@ + enc_change(c.deep_view()),
{
    let ghost was = out@;
    put_u64(out, c.seq);
    put_str(out, c.path.as_str());
    put_str(out, c.node_id.as_str());
    match &c.kind {
        ChangeKind::Created => put_u32(out, 0),
        ChangeKind::Modified => put_u32(out, 1),
        ChangeKind::Moved { from } => {
            put_u32(out, 2);
            put_str(out, from.as_str());
        },
        ChangeKind::Deleted => put_u32(out, 3),
    }
    put_str(out, c.etag.as_str());
    proof {
        reveal(enc_change);
    }
    assert(out@ =~= was + enc_change(c.deep_view()));
}

/// Entries one after the other.
pub open spec fn entries_each(v: Seq<EntryView>) -> Seq<u8>
    decreases v.len(),
{
    if v.len() == 0 {
        Seq::empty()
    } else {
        enc_entry(v[0]) + entries_each(v.drop_first())
    }
}

fn put_entries(out: &mut Vec<u8>, v: &Vec<Entry>)
    ensures
        final(out)@ == old(out)@ + (le_bytes(v@.len(), 8) + entries_each(v.deep_view())),
{
    let ghost was = out@;
    let ghost all = v.deep_view();
    put_u64(out, v.len() as u64);
    let mut i: usize = 0;
    assert(all.skip(0) =~= all);
    while i < v.len()
        invariant
            i <= v@.len(),
            all == v.deep_view(),
            out@ + entries_each(all.skip(i as int)) == was + enc_u64(v@.len() as u64)
                + entries_each(all),
        decreases v@.len() - i,
    {
        let ghost here = out@;
        put_entry(out, &v[i]);
        proof {
            let t = all.skip(i as int);
            assert(t[0] == v@[i as int].deep_view());
            assert(t.drop_first() =~= all.skip(i + 1));
            assert(here + entries_each(t) =~= here + enc_entry(t[0]) + entries_each(t.drop_first()));
        }
        i = i + 1;
    }
    assert(all.skip(i as int).len() == 0);
    assert(out@ + entries_each(all.skip(i as int)) =~= out@);
    proof {
        reveal(enc_u64);
    }
    assert(out@ =~= was + (le_bytes(v@.len(), 8) + entries_each(all)));
}

/// Chunks one after the other.
pub open spec fn chunks_each(v: Seq<ChunkView>) -> Seq<u8>
    decreases v.len(),
{
    if v.len() == 0 {
        Seq::empty()
    } else {
        enc_chunk(v[0]) + chunks_each(v.drop_first())
    }
}

fn put_chunks(out: &mut Vec<u8>, v: &Vec<ChunkRef>)
    ensures
        final(out)@ == old(out)@ + (le_bytes(v@.len(), 8) + chunks_each(v.deep_view())),
{
    let ghost was = out@;
    let ghost all = v.deep_view();
    put_u64(out, v.len() as u64);
    let mut i: usize = 0;
    assert(all.skip(0) =~= all);
    while i < v.len()
        invariant
            i <= v@.len(),
            all == v.deep_view(),
            out@ + chunks_each(all.skip(i as int)) == was + enc_u64(v@.len() as u64)
                + chunks_each(all),
        decreases v@.len() - i,
    {
        let ghost here = out@;
        put_chunk(out, &v[i]);
        proof {
            let t = all.skip(i as int);
            assert(t[0] == v@[i as int].deep_view());
            assert(t.drop_first() =~= all.skip(i + 1));
            assert(here + chunks_each(t) =~= here + enc_chunk(t[0]) + chunks_each(t.drop_first()));
        }
        i = i + 1;
    }
    assert(all.skip(i as int).len() == 0);
    assert(out@ + chunks_each(all.skip(i as int)) =~= out@);
    proof {
        reveal(enc_u64);
    }
    assert(out@ =~= was + (le_bytes(v@.len(), 8) + chunks_each(all)));
}

/// Changes one after the other.
pub open spec fn changes_each(v: Seq<ChangeView>) -> Seq<u8>
    decreases v.len(),
{
    if v.len() == 0 {
        Seq::empty()
    } else {
        enc_change(v[0]) + changes_each(v.drop_first())
    }
}

fn put_changes(out: &mut Vec<u8>, v: &Vec<Change>)
    ensures
        final(out)@ == old(out)@ + (le_bytes(v@.len(), 8) + changes_each(v.deep_view())),
{
    let ghost was = out@;
    let ghost all = v.deep_view();
    put_u64(out, v.len() as u64);
    let mut i: usize = 0;
    assert(all.skip(0) =~= all);
    while i < v.len()
        invariant
            i <= v@.len(),
            all == v.deep_view(),
            out@ + changes_each(all.skip(i as int)) == was + enc_u64(v@.len() as u64)
                + changes_each(all),
        decreases v@.len() - i,
    {
        let ghost here = out@;
        put_change(out, &v[i]);
        proof {
            let t = all.skip(i as int);
            assert(t[0] == v@[i as int].deep_view());
            assert(t.drop_first() =~= all.skip(i + 1));
            assert(here + changes_each(t) =~= here + enc_change(t[0]) + changes_each(t.drop_first()));
        }
        i = i + 1;
    }
    assert(all.skip(i as int).len() == 0);
    assert(out@ + changes_each(all.skip(i as int)) =~= out@);
    proof {
        reveal(enc_u64);
    }
    assert(out@ =~= was + (le_bytes(v@.len(), 8) + changes_each(all)));
}

/// The chunks to read.
#[verifier::opaque]
pub open spec fn enc_plan(p: PlanView) -> Seq<u8> {
    enc_str(p.object_cid) + enc_u64(p.total_size) + enc_u64(p.chunk_size) + (le_bytes(
        p.chunks.len(),
        8,
    ) + chunks_each(p.chunks)) + enc_bool(p.encrypted) + enc_opt_str(p.key_hint)
}

fn put_plan(out: &mut Vec<u8>, p: &ReadPlan)
    ensures
        final(out)@ == old(out)@ + enc_plan(p.deep_view()),
{
    let ghost was = out@;
    put_str(out, p.object_cid.as_str());
    put_u64(out, p.total_size);
    put_u64(out, p.chunk_size);
    put_chunks(out, &p.chunks);
    put_bool(out, p.encrypted);
    put_opt_str(out, &p.key_hint);
    proof {
        reveal(enc_plan);
    }
    assert(out@ =~= was + enc_plan(p.deep_view()));
}

/// Billing terms.
#[verifier::opaque]
pub open spec fn enc_quota(q: QuotaView) -> Seq<u8> {
    enc_str(q.price_per_gib_month) + enc_str(q.price_per_gib_egress) + enc_u64(q.free_tier_bytes)
        + enc_bool(q.channel_required)
}

fn put_quota(out: &mut Vec<u8>, q: &Quota)
    ensures
        final(out)@ == old(out)@ + enc_quota(q.deep_view()),
{
    let ghost was = out@;
    put_str(out, q.price_per_gib_month.as_str());
    put_str(out, q.price_per_gib_egress.as_str());
    put_u64(out, q.free_tier_bytes);
    put_bool(out, q.channel_required);
    proof {
        reveal(enc_quota);
    }
    assert(out@ =~= was + enc_quota(q.deep_view()));
}

/// The encoding of an answer: its index among the variants, then its fields.
pub open spec fn enc_ok(ok: OkView) -> Seq<u8> {
    match ok {
        OkView::Opened { drive_root_cid, server_seq, granted_abilities, quota } => enc_u32(0)
            + enc_str(drive_root_cid) + enc_u64(server_seq) + enc_strs(granted_abilities)
            + enc_quota(quota),
        OkView::Entry(e) => enc_u32(1) + enc_entry(e),
        OkView::Listing { entries, next_cursor } => enc_u32(2) + (le_bytes(entries.len(), 8)
            + entries_each(entries)) + enc_opt_str(next_cursor),
        OkView::ReadPlan(p) => enc_u32(3) + enc_plan(p),
        OkView::Written { etag, node_id, version_seq } => enc_u32(4) + enc_str(etag) + enc_str(
            node_id,
        ) + enc_u64(version_seq),
        OkView::Made { node_id } => enc_u32(5) + enc_str(node_id),
        OkView::Deleted => enc_u32(6),
        OkView::Shared { chain } => enc_u32(7) + enc_str(chain),
        OkView::Changes { changes, new_cursor } => enc_u32(8) + (le_bytes(changes.len(), 8)
            + changes_each(changes)) + enc_u64(new_cursor),
        OkView::Watching { topic, cursor } => enc_u32(9) + enc_str(topic) + enc_u64(cursor),
    }
}

fn put_ok(out: &mut Vec<u8>, ok: &DriveOk)
    ensures
        final(out)@ == old(out)@ + enc_ok(ok.deep_view()),
{
    let ghost was = out@;
    match ok {
        DriveOk::Opened { drive_root_cid, server_seq, granted_abilities, quota } => {
            put_u32(out, 0);
            put_str(out, drive_root_cid.as_str());
            put_u64(out, *server_seq);
            put_strs(out, granted_abilities);
            put_quota(out, quota);
        },
        DriveOk::Entry(e) => {
            put_u32(out, 1);
            put_entry(out, e);
        },
        DriveOk::Listing { entries, next_cursor } => {
            put_u32(out, 2);
            put_entries(out, entries);
            put_opt_str(out, next_cursor);
        },
        DriveOk::ReadPlan(p) => {
            put_u32(out, 3);
            put_plan(out, p);
        },
        DriveOk::Written { etag, node_id, version_seq } => {
            put_u32(out, 4);
            put_str(out, etag.as_str());
            put_str(out, node_id.as_str());
            put_u64(out, *version_seq);
        },
        DriveOk::Made { node_id } => {
            put_u32(out, 5);
            put_str(out, node_id.as_str());
        },
        DriveOk::Deleted => put_u32(out, 6),
        DriveOk::Shared { chain } => {
            put_u32(out, 7);
            put_str(out, chain.as_str());
        },
        DriveOk::Changes { changes, new_cursor } => {
            put_u32(out, 8);
            put_changes(out, changes);
            put_u64(out, *new_cursor);
        },
        DriveOk::Watching { topic, cursor } => {
            put_u32(out, 9);
            put_str(out, topic.as_str());
            put_u64(out, *cursor);
        },
    }
    assert(out@ =~= was + enc_ok(ok.deep_view()));
}

/// The encoding of a refusal: its index among the variants, then its fields.
pub open spec fn enc_err(e: ErrView) -> Seq<u8> {
    match e {
        ErrView::Unauthorized => enc_u32(0),
        ErrView::Revoked => enc_u32(1),
        ErrView::Expired => enc_u32(2),
        ErrView::OutOfScope => enc_u32(3),
        ErrView::NotFound => enc_u32(4),
        ErrView::Conflict { current_etag } => enc_u32(5) + enc_str(current_etag),
        ErrView::QuotaExceeded => enc_u32(6),
        ErrView::PaymentRequired => enc_u32(7),
        ErrView::BadPath => enc_u32(8),
        ErrView::Internal(why) => enc_u32(9) + enc_str(why),
    }
}

fn put_err(out: &mut Vec<u8>, e: &DriveErr)
    ensures
        final(out)@ == old(out)@ + enc_err(e.deep_view()),
{
    let ghost was = out@;
    match e {
        DriveErr::Unauthorized => put_u32(out, 0),
        DriveErr::Revoked => put_u32(out, 1),
        DriveErr::Expired => put_u32(out, 2),
        DriveErr::OutOfScope => put_u32(out, 3),
        DriveErr::NotFound => put_u32(out, 4),
        DriveErr::Conflict { current_etag } => {
            put_u32(out, 5);
            put_str(out, current_etag.as_str());
        },
        DriveErr::QuotaExceeded => put_u32(out, 6),
        DriveErr::PaymentRequired => put_u32(out, 7),
        DriveErr::BadPath => put_u32(out, 8),
        DriveErr::Internal(why) => {
            put_u32(out, 9);
            put_str(out, why.as_str());
        },
    }
    assert(out@ =~= was + enc_err(e.deep_view()));
}

/// The encoding of a reply: 0 and the answer, or 1 and the refusal.
pub open spec fn enc_reply(r: ReplyView) -> Seq<u8> {
    match r {
        Ok(ok) => enc_u32(0) + enc_ok(ok),
        Err(e) => enc_u32(1) + enc_err(e),
    }
}

/// The bytes of a reply.
pub fn encode_reply(reply: &DriveReply) -> (r: Vec<u8>)
    ensures
        r@ == enc_reply(reply.deep_view()),
{
    let mut out: Vec<u8> = Vec::new();
    match &reply.result {
        Ok(ok) => {
            put_u32(&mut out, 0);
            put_ok(&mut out, ok);
        },
        Err(e) => {
            put_u32(&mut out, 1);
            put_err(&mut out, e);
        },
    }
    assert(out@ =~= enc_reply(reply.deep_view()));
    out
}

/// The bytes of a change beacon: the drive, and the newest change it has.
pub fn encode_beacon(beacon: &Beacon) -> (r: Vec<u8>)
    ensures
        r@ == enc_str(beacon.drive@) + enc_u64(beacon.max_seq),
{
    let mut out: Vec<u8> = Vec::new();
    put_str(&mut out, beacon.drive.as_str());
    put_u64(&mut out, beacon.max_seq);
    assert(out@ =~= enc_str(beacon.drive@) + enc_u64(beacon.max_seq));
    out
}

// ----- no two replies are written alike -----

proof fn lemma_u32_apart(a: u32, x: Seq<u8>, b: u32, y: Seq<u8>)
    requires
        enc_u32(a) + x == enc_u32(b) + y,
    ensures
        a == b,
        x == y,
{
    lemma_u32_read_back(a, x);
    lemma_u32_read_back(b, y);
}

proof fn lemma_u64_apart(a: u64, x: Seq<u8>, b: u64, y: Seq<u8>)
    requires
        enc_u64(a) + x == enc_u64(b) + y,
    ensures
        a == b,
        x == y,
{
    lemma_u64_read_back(a, x);
    lemma_u64_read_back(b, y);
}

proof fn lemma_bool_apart(a: bool, x: Seq<u8>, b: bool, y: Seq<u8>)
    requires
        enc_bool(a) + x == enc_bool(b) + y,
    ensures
        a == b,
        x == y,
{
    lemma_bool_read_back(a, x);
    lemma_bool_read_back(b, y);
}

proof fn lemma_str_apart(a: Seq<char>, x: Seq<u8>, b: Seq<char>, y: Seq<u8>)
    requires
        fits(a),
        fits(b),
        enc_str(a) + x == enc_str(b) + y,
    ensures
        a == b,
        x == y,
{
    lemma_str_read_back(a, x);
    lemma_str_read_back(b, y);
}

proof fn lemma_opt_str_apart(
    a: Option<Seq<char>>,
    x: Seq<u8>,
    b: Option<Seq<char>>,
    y: Seq<u8>,
)
    requires
        opt_fits(a),
        opt_fits(b),
        enc_opt_str(a) + x == enc_opt_str(b) + y,
    ensures
        a == b,
        x == y,
{
    lemma_opt_str_read_back(a, x);
    lemma_opt_str_read_back(b, y);
}

proof fn lemma_strs_apart(a: Seq<Seq<char>>, x: Seq<u8>, b: Seq<Seq<char>>, y: Seq<u8>)
    requires
        all_fit(a),
        all_fit(b),
        enc_strs(a) + x == enc_strs(b) + y,
    ensures
        a == b,
        x == y,
{
    lemma_strs_read_back(a, x);
    lemma_strs_read_back(b, y);
}

proof fn lemma_entry_kind_apart(a: EntryKind, x: Seq<u8>, b: EntryKind, y: Seq<u8>)
    requires
        enc_entry_kind(a) + x == enc_entry_kind(b) + y,
    ensures
        a == b,
        x == y,
{
    let tag = |k: EntryKind| if k == EntryKind::File { 0u32 } else { 1u32 };
    lemma_u32_apart(tag(a), x, tag(b), y);
}

proof fn lemma_count(n: nat)
    requires
        n <= u64::MAX,
    ensures
        le_bytes(n, 8) == enc_u64(n as u64),
{
    reveal(enc_u64);
}

/// Whether every text of a kind of change has a length that the format can hold.
pub open spec fn kind_fits(k: ChangeKindView) -> bool {
    match k {
        ChangeKindView::Moved { from } => fits(from),
        _ => true,
    }
}

spec fn change_kind_tag(k: ChangeKindView) -> u32 {
    match k {
        ChangeKindView::Created => 0,
        ChangeKindView::Modified => 1,
        ChangeKindView::Moved { .. } => 2,
        ChangeKindView::Deleted => 3,
    }
}

spec fn change_kind_body(k: ChangeKindView) -> Seq<u8> {
    match k {
        ChangeKindView::Moved { from } => enc_str(from),
        _ => Seq::empty(),
    }
}

proof fn lemma_change_kind_apart(a: ChangeKindView, x: Seq<u8>, b: ChangeKindView, y: Seq<u8>)
    requires
        kind_fits(a),
        kind_fits(b),
        enc_change_kind(a) + x == enc_change_kind(b) + y,
    ensures
        a == b,
        x == y,
{
    assert(enc_change_kind(a) + x =~= enc_u32(change_kind_tag(a)) + (change_kind_body(a) + x));
    assert(enc_change_kind(b) + y =~= enc_u32(change_kind_tag(b)) + (change_kind_body(b) + y));
    lemma_u32_apart(change_kind_tag(a), change_kind_body(a) + x, change_kind_tag(b), change_kind_body(b) + y);
    match (a, b) {
        (ChangeKindView::Moved { from: a_from }, ChangeKindView::Moved { from: b_from }) => {
            assert(change_kind_body(a) + x =~= enc_str(a_from) + x);
            assert(change_kind_body(b) + y =~= enc_str(b_from) + y);
            lemma_str_apart(a_from, x, b_from, y);
            assert(a =~= b);
        },
        _ => {
            assert(Seq::<u8>::empty() + x =~= x);
            assert(Seq::<u8>::empty() + y =~= y);
        },
    }
}

/// Whether every text of an entry has a length that the format can hold.
pub open spec fn entry_fits(e: EntryView) -> bool {
    &&& fits(e.path)
    &&& fits(e.etag)
    &&& fits(e.node_id)
    &&& opt_fits(e.object_cid)
    &&& opt_fits(e.doc_id)
}

/// What follows the path in an entry and what comes after it, each piece in front of the rest.
spec fn entry_rest(e: EntryView, x: Seq<u8>) -> Seq<u8> {
    enc_entry_kind(e.kind) + (enc_u64(e.size) + (enc_u64(e.mtime_ms) + (enc_str(e.etag) + (enc_str(
        e.node_id,
    ) + (enc_opt_str(e.object_cid) + (enc_opt_str(e.doc_id) + x))))))
}

proof fn lemma_entry_rest(e: EntryView, x: Seq<u8>)
    ensures
        enc_entry(e) + x == enc_str(e.path) + entry_rest(e, x),
{
    reveal(enc_entry);
    let q1 = enc_str(e.path);
    let q2 = q1 + enc_entry_kind(e.kind);
    let q3 = q2 + enc_u64(e.size);
    let q4 = q3 + enc_u64(e.mtime_ms);
    let q5 = q4 + enc_str(e.etag);
    let q6 = q5 + enc_str(e.node_id);
    let q7 = q6 + enc_opt_str(e.object_cid);
    let t7 = enc_opt_str(e.doc_id) + x;
    assert(enc_entry(e) + x =~= q7 + t7);
    let t6 = enc_opt_str(e.object_cid) + t7;
    assert(q7 + t7 =~= q6 + t6);
    let t5 = enc_str(e.node_id) + t6;
    assert(q6 + t6 =~= q5 + t5);
    let t4 = enc_str(e.etag) + t5;
    assert(q5 + t5 =~= q4 + t4);
    let t3 = enc_u64(e.mtime_ms) + t4;
    assert(q4 + t4 =~= q3 + t3);
    let t2 = enc_u64(e.size) + t3;
    assert(q3 + t3 =~= q2 + t2);
    assert(q2 + t2 =~= q1 + (enc_entry_kind(e.kind) + t2));
}

proof fn lemma_entry_apart(a: EntryView, x: Seq<u8>, b: EntryView, y: Seq<u8>)
    requires
        entry_fits(a),
        entry_fits(b),
        enc_entry(a) + x == enc_entry(b) + y,
    ensures
        a == b,
        x == y,
{
    lemma_entry_rest(a, x);
    lemma_entry_rest(b, y);
    let a7 = enc_opt_str(a.doc_id) + x;
    let a6 = enc_opt_str(a.object_cid) + a7;
    let a5 = enc_str(a.node_id) + a6;
    let a4 = enc_str(a.etag) + a5;
    let a3 = enc_u64(a.mtime_ms) + a4;
    let a2 = enc_u64(a.size) + a3;
    let b7 = enc_opt_str(b.doc_id) + y;
    let b6 = enc_opt_str(b.object_cid) + b7;
    let b5 = enc_str(b.node_id) + b6;
    let b4 = enc_str(b.etag) + b5;
    let b3 = enc_u64(b.mtime_ms) + b4;
    let b2 = enc_u64(b.size) + b3;
    lemma_str_apart(a.path, entry_rest(a, x), b.path, entry_rest(b, y));
    lemma_entry_kind_apart(a.kind, a2, b.kind, b2);
    lemma_u64_apart(a.size, a3, b.size, b3);
    lemma_u64_apart(a.mtime_ms, a4, b.mtime_ms, b4);
    lemma_str_apart(a.etag, a5, b.etag, b5);
    lemma_str_apart(a.node_id, a6, b.node_id, b6);
    lemma_opt_str_apart(a.object_cid, a7, b.object_cid, b7);
    lemma_opt_str_apart(a.doc_id, x, b.doc_id, y);
    assert(a =~= b);
}

/// Whether every text of a chunk has a length that the format can hold.
pub open spec fn chunk_fits(c: ChunkView) -> bool {
    &&& fits(c.cid)
}

proof fn lemma_chunk_apart(a: ChunkView, x: Seq<u8>, b: ChunkView, y: Seq<u8>)
    requires
        chunk_fits(a),
        chunk_fits(b),
        enc_chunk(a) + x == enc_chunk(b) + y,
    ensures
        a == b,
        x == y,
{
    reveal(enc_chunk);
    let a2 = enc_u64(a.len) + x;
    let a1 = enc_u64(a.offset) + a2;
    assert(enc_chunk(a) + x =~= enc_str(a.cid) + a1);
    let b2 = enc_u64(b.len) + y;
    let b1 = enc_u64(b.offset) + b2;
    assert(enc_chunk(b) + y =~= enc_str(b.cid) + b1);
    lemma_str_apart(a.cid, a1, b.cid, b1);
    lemma_u64_apart(a.offset, a2, b.offset, b2);
    lemma_u64_apart(a.len, x, b.len, y);
    assert(a =~= b);
}

/// Whether every text of a change has a length that the format can hold.
pub open spec fn change_fits(c: ChangeView) -> bool {
    &&& fits(c.path)
    &&& fits(c.node_id)
    &&& kind_fits(c.kind)
    &&& fits(c.etag)
}

proof fn lemma_change_apart(a: ChangeView, x: Seq<u8>, b: ChangeView, y: Seq<u8>)
    requires
        change_fits(a),
        change_fits(b),
        enc_change(a) + x == enc_change(b) + y,
    ensures
        a == b,
        x == y,
{
    reveal(enc_change);
    let a4 = enc_str(a.etag) + x;
    let a3 = enc_change_kind(a.kind) + a4;
    let a2 = enc_str(a.node_id) + a3;
    let a1 = enc_str(a.path) + a2;
    assert(enc_change(a) + x =~= enc_u64(a.seq) + a1);
    let b4 = enc_str(b.etag) + y;
    let b3 = enc_change_kind(b.kind) + b4;
    let b2 = enc_str(b.node_id) + b3;
    let b1 = enc_str(b.path) + b2;
    assert(enc_change(b) + y =~= enc_u64(b.seq) + b1);
    lemma_u64_apart(a.seq, a1, b.seq, b1);
    lemma_str_apart(a.path, a2, b.path, b2);
    lemma_str_apart(a.node_id, a3, b.node_id, b3);
    lemma_change_kind_apart(a.kind, a4, b.kind, b4);
    lemma_str_apart(a.etag, x, b.etag, y);
    assert(a =~= b);
}

/// Whether every text of billing terms has a length that the format can hold.
pub open spec fn quota_fits(q: QuotaView) -> bool {
    &&& fits(q.price_per_gib_month)
    &&& fits(q.price_per_gib_egress)
}

proof fn lemma_quota_apart(a: QuotaView, x: Seq<u8>, b: QuotaView, y: Seq<u8>)
    requires
        quota_fits(a),
        quota_fits(b),
        enc_quota(a) + x == enc_quota(b) + y,
    ensures
        a == b,
        x == y,
{
    reveal(enc_quota);
    let a3 = enc_bool(a.channel_required) + x;
    let a2 = enc_u64(a.free_tier_bytes) + a3;
    let a1 = enc_str(a.price_per_gib_egress) + a2;
    assert(enc_quota(a) + x =~= enc_str(a.price_per_gib_month) + a1);
    let b3 = enc_bool(b.channel_required) + y;
    let b2 = enc_u64(b.free_tier_bytes) + b3;
    let b1 = enc_str(b.price_per_gib_egress) + b2;
    assert(enc_quota(b) + y =~= enc_str(b.price_per_gib_month) + b1);
    lemma_str_apart(a.price_per_gib_month, a1, b.price_per_gib_month, b1);
    lemma_str_apart(a.price_per_gib_egress, a2, b.price_per_gib_egress, b2);
    lemma_u64_apart(a.free_tier_bytes, a3, b.free_tier_bytes, b3);
    lemma_bool_apart(a.channel_required, x, b.channel_required, y);
    assert(a =~= b);
}

/// Whether entries and every text in them have lengths that the format can hold.
pub open spec fn entries_fit(v: Seq<EntryView>) -> bool {
    &&& v.len() <= u64::MAX
    &&& forall|i: int| 0 <= i < v.len() ==> entry_fits(#[trigger] v[i])
}

proof fn lemma_entries_each_apart(v: Seq<EntryView>, x: Seq<u8>, w: Seq<EntryView>, y: Seq<u8>)
    requires
        v.len() == w.len(),
        forall|i: int| 0 <= i < v.len() ==> entry_fits(#[trigger] v[i]),
        forall|i: int| 0 <= i < w.len() ==> entry_fits(#[trigger] w[i]),
        entries_each(v) + x == entries_each(w) + y,
    ensures
        v == w,
        x == y,
    decreases v.len(),
{
    if v.len() == 0 {
        assert(entries_each(v) + x =~= x);
        assert(entries_each(w) + y =~= y);
        assert(v =~= w);
    } else {
        let (s, t) = (v.drop_first(), w.drop_first());
        assert(entries_each(v) + x =~= enc_entry(v[0]) + (entries_each(s) + x));
        assert(entries_each(w) + y =~= enc_entry(w[0]) + (entries_each(t) + y));
        lemma_entry_apart(v[0], entries_each(s) + x, w[0], entries_each(t) + y);
        assert forall|i: int| 0 <= i < s.len() implies entry_fits(#[trigger] s[i]) by {
            assert(s[i] == v[i + 1]);
        }
        assert forall|i: int| 0 <= i < t.len() implies entry_fits(#[trigger] t[i]) by {
            assert(t[i] == w[i + 1]);
        }
        lemma_entries_each_apart(s, x, t, y);
        assert(v =~= seq![v[0]] + s);
        assert(w =~= seq![w[0]] + t);
    }
}

proof fn lemma_entries_apart(v: Seq<EntryView>, x: Seq<u8>, w: Seq<EntryView>, y: Seq<u8>)
    requires
        entries_fit(v),
        entries_fit(w),
        le_bytes(v.len(), 8) + entries_each(v) + x == le_bytes(w.len(), 8) + entries_each(w) + y,
    ensures
        v == w,
        x == y,
{
    lemma_count(v.len());
    lemma_count(w.len());
    let (s, t) = (entries_each(v) + x, entries_each(w) + y);
    assert(le_bytes(v.len(), 8) + entries_each(v) + x =~= enc_u64(v.len() as u64) + s);
    assert(le_bytes(w.len(), 8) + entries_each(w) + y =~= enc_u64(w.len() as u64) + t);
    lemma_u64_apart(v.len() as u64, s, w.len() as u64, t);
    lemma_entries_each_apart(v, x, w, y);
}

/// Whether chunks and every text in them have lengths that the format can hold.
pub open spec fn chunks_fit(v: Seq<ChunkView>) -> bool {
    &&& v.len() <= u64::MAX
    &&& forall|i: int| 0 <= i < v.len() ==> chunk_fits(#[trigger] v[i])
}

proof fn lemma_chunks_each_apart(v: Seq<ChunkView>, x: Seq<u8>, w: Seq<ChunkView>, y: Seq<u8>)
    requires
        v.len() == w.len(),
        forall|i: int| 0 <= i < v.len() ==> chunk_fits(#[trigger] v[i]),
        forall|i: int| 0 <= i < w.len() ==> chunk_fits(#[trigger] w[i]),
        chunks_each(v) + x == chunks_each(w) + y,
    ensures
        v == w,
        x == y,
    decreases v.len(),
{
    if v.len() == 0 {
        assert(chunks_each(v) + x =~= x);
        assert(chunks_each(w) + y =~= y);
        assert(v =~= w);
    } else {
        let (s, t) = (v.drop_first(), w.drop_first());
        assert(chunks_each(v) + x =~= enc_chunk(v[0]) + (chunks_each(s) + x));
        assert(chunks_each(w) + y =~= enc_chunk(w[0]) + (chunks_each(t) + y));
        lemma_chunk_apart(v[0], chunks_each(s) + x, w[0], chunks_each(t) + y);
        assert forall|i: int| 0 <= i < s.len() implies chunk_fits(#[trigger] s[i]) by {
            assert(s[i] == v[i + 1]);
        }
        assert forall|i: int| 0 <= i < t.len() implies chunk_fits(#[trigger] t[i]) by {
            assert(t[i] == w[i + 1]);
        }
        lemma_chunks_each_apart(s, x, t, y);
        assert(v =~= seq![v[0]] + s);
        assert(w =~= seq![w[0]] + t);
    }
}

proof fn lemma_chunks_apart(v: Seq<ChunkView>, x: Seq<u8>, w: Seq<ChunkView>, y: Seq<u8>)
    requires
        chunks_fit(v),
        chunks_fit(w),
        le_bytes(v.len(), 8) + chunks_each(v) + x == le_bytes(w.len(), 8) + chunks_each(w) + y,
    ensures
        v == w,
        x == y,
{
    lemma_count(v.len());
    lemma_count(w.len());
    let (s, t) = (chunks_each(v) + x, chunks_each(w) + y);
    assert(le_bytes(v.len(), 8) + chunks_each(v) + x =~= enc_u64(v.len() as u64) + s);
    assert(le_bytes(w.len(), 8) + chunks_each(w) + y =~= enc_u64(w.len() as u64) + t);
    lemma_u64_apart(v.len() as u64, s, w.len() as u64, t);
    lemma_chunks_each_apart(v, x, w, y);
}

/// Whether changes and every text in them have lengths that the format can hold.
pub open spec fn changes_fit(v: Seq<ChangeView>) -> bool {
    &&& v.len() <= u64::MAX
    &&& forall|i: int| 0 <= i < v.len() ==> change_fits(#[trigger] v[i])
}

proof fn lemma_changes_each_apart(v: Seq<ChangeView>, x: Seq<u8>, w: Seq<ChangeView>, y: Seq<u8>)
    requires
        v.len() == w.len(),
        forall|i: int| 0 <= i < v.len() ==> change_fits(#[trigger] v[i]),
        forall|i: int| 0 <= i < w.len() ==> change_fits(#[trigger] w[i]),
        changes_each(v) + x == changes_each(w) + y,
    ensures
        v == w,
        x == y,
    decreases v.len(),
{
    if v.len() == 0 {
        assert(changes_each(v) + x =~= x);
        assert(changes_each(w) + y =~= y);
        assert(v =~= w);
    } else {
        let (s, t) = (v.drop_first(), w.drop_first());
        assert(changes_each(v) + x =~= enc_change(v[0]) + (changes_each(s) + x));
        assert(changes_each(w) + y =~= enc_change(w[0]) + (changes_each(t) + y));
        lemma_change_apart(v[0], changes_each(s) + x, w[0], changes_each(t) + y);
        assert forall|i: int| 0 <= i < s.len() implies change_fits(#[trigger] s[i]) by {
            assert(s[i] == v[i + 1]);
        }
        assert forall|i: int| 0 <= i < t.len() implies change_fits(#[trigger] t[i]) by {
            assert(t[i] == w[i + 1]);
        }
        lemma_changes_each_apart(s, x, t, y);
        assert(v =~= seq![v[0]] + s);
        assert(w =~= seq![w[0]] + t);
    }
}

proof fn lemma_changes_apart(v: Seq<ChangeView>, x: Seq<u8>, w: Seq<ChangeView>, y: Seq<u8>)
    requires
        changes_fit(v),
        changes_fit(w),
        le_bytes(v.len(), 8) + changes_each(v) + x == le_bytes(w.len(), 8) + changes_each(w) + y,
    ensures
        v == w,
        x == y,
{
    lemma_count(v.len());
    lemma_count(w.len());
    let (s, t) = (changes_each(v) + x, changes_each(w) + y);
    assert(le_bytes(v.len(), 8) + changes_each(v) + x =~= enc_u64(v.len() as u64) + s);
    assert(le_bytes(w.len(), 8) + changes_each(w) + y =~= enc_u64(w.len() as u64) + t);
    lemma_u64_apart(v.len() as u64, s, w.len() as u64, t);
    lemma_changes_each_apart(v, x, w, y);
}

/// Whether every text of a read plan has a length that the format can hold.
pub open spec fn plan_fits(p: PlanView) -> bool {
    &&& fits(p.object_cid)
    &&& chunks_fit(p.chunks)
    &&& opt_fits(p.key_hint)
}

proof fn lemma_plan_apart(a: PlanView, x: Seq<u8>, b: PlanView, y: Seq<u8>)
    requires
        plan_fits(a),
        plan_fits(b),
        enc_plan(a) + x == enc_plan(b) + y,
    ensures
        a == b,
        x == y,
{
    reveal(enc_plan);
    let a5 = enc_opt_str(a.key_hint) + x;
    let a4 = enc_bool(a.encrypted) + a5;
    let a3 = (le_bytes(a.chunks.len(), 8) + chunks_each(a.chunks)) + a4;
    let a2 = enc_u64(a.chunk_size) + a3;
    let a1 = enc_u64(a.total_size) + a2;
    assert(enc_plan(a) + x =~= enc_str(a.object_cid) + a1);
    let b5 = enc_opt_str(b.key_hint) + y;
    let b4 = enc_bool(b.encrypted) + b5;
    let b3 = (le_bytes(b.chunks.len(), 8) + chunks_each(b.chunks)) + b4;
    let b2 = enc_u64(b.chunk_size) + b3;
    let b1 = enc_u64(b.total_size) + b2;
    assert(enc_plan(b) + y =~= enc_str(b.object_cid) + b1);
    lemma_str_apart(a.object_cid, a1, b.object_cid, b1);
    lemma_u64_apart(a.total_size, a2, b.total_size, b2);
    lemma_u64_apart(a.chunk_size, a3, b.chunk_size, b3);
    lemma_chunks_apart(a.chunks, a4, b.chunks, b4);
    lemma_bool_apart(a.encrypted, a5, b.encrypted, b5);
    lemma_opt_str_apart(a.key_hint, x, b.key_hint, y);
    assert(a =~= b);
}

/// Whether every text of an answer has a length that the format can hold.
pub open spec fn ok_fits(ok: OkView) -> bool {
    match ok {
        OkView::Opened { drive_root_cid, granted_abilities, quota, .. } => fits(drive_root_cid)
            && all_fit(granted_abilities)
            && quota_fits(quota),
        OkView::Entry(e) => entry_fits(e),
        OkView::Listing { entries, next_cursor } => entries_fit(entries) && opt_fits(next_cursor),
        OkView::ReadPlan(p) => plan_fits(p),
        OkView::Written { etag, node_id, .. } => fits(etag) && fits(node_id),
        OkView::Made { node_id } => fits(node_id),
        OkView::Shared { chain } => fits(chain),
        OkView::Changes { changes, .. } => changes_fit(changes),
        OkView::Watching { topic, .. } => fits(topic),
        _ => true,
    }
}

spec fn ok_tag(ok: OkView) -> u32 {
    match ok {
        OkView::Opened { .. } => 0,
        OkView::Entry(_) => 1,
        OkView::Listing { .. } => 2,
        OkView::ReadPlan(_) => 3,
        OkView::Written { .. } => 4,
        OkView::Made { .. } => 5,
        OkView::Deleted => 6,
        OkView::Shared { .. } => 7,
        OkView::Changes { .. } => 8,
        OkView::Watching { .. } => 9,
    }
}

spec fn ok_body(ok: OkView) -> Seq<u8> {
    match ok {
        OkView::Opened { drive_root_cid, server_seq, granted_abilities, quota } => enc_str(drive_root_cid) + (enc_u64(server_seq) + (enc_strs(granted_abilities) + (enc_quota(quota)))),
        OkView::Entry(e) => enc_entry(e),
        OkView::Listing { entries, next_cursor } => (le_bytes(entries.len(), 8) + entries_each(entries)) + (enc_opt_str(next_cursor)),
        OkView::ReadPlan(p) => enc_plan(p),
        OkView::Written { etag, node_id, version_seq } => enc_str(etag) + (enc_str(node_id) + (enc_u64(version_seq))),
        OkView::Made { node_id } => enc_str(node_id),
        OkView::Shared { chain } => enc_str(chain),
        OkView::Changes { changes, new_cursor } => (le_bytes(changes.len(), 8) + changes_each(changes)) + (enc_u64(new_cursor)),
        OkView::Watching { topic, cursor } => enc_str(topic) + (enc_u64(cursor)),
        _ => Seq::empty(),
    }
}

proof fn lemma_ok_apart(a: OkView, x: Seq<u8>, b: OkView, y: Seq<u8>)
    requires
        ok_fits(a),
        ok_fits(b),
        enc_ok(a) + x == enc_ok(b) + y,
    ensures
        a == b,
        x == y,
{
    assert(enc_ok(a) + x =~= enc_u32(ok_tag(a)) + (ok_body(a) + x));
    assert(enc_ok(b) + y =~= enc_u32(ok_tag(b)) + (ok_body(b) + y));
    lemma_u32_apart(ok_tag(a), ok_body(a) + x, ok_tag(b), ok_body(b) + y);
    match (a, b) {
        (OkView::Opened { drive_root_cid: a_drive_root_cid, server_seq: a_server_seq, granted_abilities: a_granted_abilities, quota: a_quota }, OkView::Opened { drive_root_cid: b_drive_root_cid, server_seq: b_server_seq, granted_abilities: b_granted_abilities, quota: b_quota }) => {
            let a3 = enc_quota(a_quota) + x;
            let a2 = enc_strs(a_granted_abilities) + a3;
            let a1 = enc_u64(a_server_seq) + a2;
            assert(ok_body(a) + x =~= enc_str(a_drive_root_cid) + a1);
            let b3 = enc_quota(b_quota) + y;
            let b2 = enc_strs(b_granted_abilities) + b3;
            let b1 = enc_u64(b_server_seq) + b2;
            assert(ok_body(b) + y =~= enc_str(b_drive_root_cid) + b1);
            lemma_str_apart(a_drive_root_cid, a1, b_drive_root_cid, b1);
            lemma_u64_apart(a_server_seq, a2, b_server_seq, b2);
            lemma_strs_apart(a_granted_abilities, a3, b_granted_abilities, b3);
            lemma_quota_apart(a_quota, x, b_quota, y);
            assert(a =~= b);
        },
        (OkView::Entry(a_e), OkView::Entry(b_e)) => {
            assert(ok_body(a) + x =~= enc_entry(a_e) + x);
            assert(ok_body(b) + y =~= enc_entry(b_e) + y);
            lemma_entry_apart(a_e, x, b_e, y);
            assert(a =~= b);
        },
        (OkView::Listing { entries: a_entries, next_cursor: a_next_cursor }, OkView::Listing { entries: b_entries, next_cursor: b_next_cursor }) => {
            let a1 = enc_opt_str(a_next_cursor) + x;
            assert(ok_body(a) + x =~= (le_bytes(a_entries.len(), 8) + entries_each(a_entries)) + a1);
            let b1 = enc_opt_str(b_next_cursor) + y;
            assert(ok_body(b) + y =~= (le_bytes(b_entries.len(), 8) + entries_each(b_entries)) + b1);
            lemma_entries_apart(a_entries, a1, b_entries, b1);
            lemma_opt_str_apart(a_next_cursor, x, b_next_cursor, y);
            assert(a =~= b);
        },
        (OkView::ReadPlan(a_p), OkView::ReadPlan(b_p)) => {
            assert(ok_body(a) + x =~= enc_plan(a_p) + x);
            assert(ok_body(b) + y =~= enc_plan(b_p) + y);
            lemma_plan_apart(a_p, x, b_p, y);
            assert(a =~= b);
        },
        (OkView::Written { etag: a_etag, node_id: a_node_id, version_seq: a_version_seq }, OkView::Written { etag: b_etag, node_id: b_node_id, version_seq: b_version_seq }) => {
            let a2 = enc_u64(a_version_seq) + x;
            let a1 = enc_str(a_node_id) + a2;
            assert(ok_body(a) + x =~= enc_str(a_etag) + a1);
            let b2 = enc_u64(b_version_seq) + y;
            let b1 = enc_str(b_node_id) + b2;
            assert(ok_body(b) + y =~= enc_str(b_etag) + b1);
            lemma_str_apart(a_etag, a1, b_etag, b1);
            lemma_str_apart(a_node_id, a2, b_node_id, b2);
            lemma_u64_apart(a_version_seq, x, b_version_seq, y);
            assert(a =~= b);
        },
        (OkView::Made { node_id: a_node_id }, OkView::Made { node_id: b_node_id }) => {
            assert(ok_body(a) + x =~= enc_str(a_node_id) + x);
            assert(ok_body(b) + y =~= enc_str(b_node_id) + y);
            lemma_str_apart(a_node_id, x, b_node_id, y);
            assert(a =~= b);
        },
        (OkView::Shared { chain: a_chain }, OkView::Shared { chain: b_chain }) => {
            assert(ok_body(a) + x =~= enc_str(a_chain) + x);
            assert(ok_body(b) + y =~= enc_str(b_chain) + y);
            lemma_str_apart(a_chain, x, b_chain, y);
            assert(a =~= b);
        },
        (OkView::Changes { changes: a_changes, new_cursor: a_new_cursor }, OkView::Changes { changes: b_changes, new_cursor: b_new_cursor }) => {
            let a1 = enc_u64(a_new_cursor) + x;
            assert(ok_body(a) + x =~= (le_bytes(a_changes.len(), 8) + changes_each(a_changes)) + a1);
            let b1 = enc_u64(b_new_cursor) + y;
            assert(ok_body(b) + y =~= (le_bytes(b_changes.len(), 8) + changes_each(b_changes)) + b1);
            lemma_changes_apart(a_changes, a1, b_changes, b1);
            lemma_u64_apart(a_new_cursor, x, b_new_cursor, y);
            assert(a =~= b);
        },
        (OkView::Watching { topic: a_topic, cursor: a_cursor }, OkView::Watching { topic: b_topic, cursor: b_cursor }) => {
            let a1 = enc_u64(a_cursor) + x;
            assert(ok_body(a) + x =~= enc_str(a_topic) + a1);
            let b1 = enc_u64(b_cursor) + y;
            assert(ok_body(b) + y =~= enc_str(b_topic) + b1);
            lemma_str_apart(a_topic, a1, b_topic, b1);
            lemma_u64_apart(a_cursor, x, b_cursor, y);
            assert(a =~= b);
        },
        _ => {
            assert(Seq::<u8>::empty() + x =~= x);
            assert(Seq::<u8>::empty() + y =~= y);
        },
    }
}

/// Whether every text of a refusal has a length that the format can hold.
pub open spec fn err_fits(e: ErrView) -> bool {
    match e {
        ErrView::Conflict { current_etag } => fits(current_etag),
        ErrView::Internal(why) => fits(why),
        _ => true,
    }
}

spec fn err_tag(e: ErrView) -> u32 {
    match e {
        ErrView::Unauthorized => 0,
        ErrView::Revoked => 1,
        ErrView::Expired => 2,
        ErrView::OutOfScope => 3,
        ErrView::NotFound => 4,
        ErrView::Conflict { .. } => 5,
        ErrView::QuotaExceeded => 6,
        ErrView::PaymentRequired => 7,
        ErrView::BadPath => 8,
        ErrView::Internal(_) => 9,
    }
}

spec fn err_body(e: ErrView) -> Seq<u8> {
    match e {
        ErrView::Conflict { current_etag } => enc_str(current_etag),
        ErrView::Internal(why) => enc_str(why),
        _ => Seq::empty(),
    }
}

proof fn lemma_err_apart(a: ErrView, x: Seq<u8>, b: ErrView, y: Seq<u8>)
    requires
        err_fits(a),
        err_fits(b),
        enc_err(a) + x == enc_err(b) + y,
    ensures
        a == b,
        x == y,
{
    assert(enc_err(a) + x =~= enc_u32(err_tag(a)) + (err_body(a) + x));
    assert(enc_err(b) + y =~= enc_u32(err_tag(b)) + (err_body(b) + y));
    lemma_u32_apart(err_tag(a), err_body(a) + x, err_tag(b), err_body(b) + y);
    match (a, b) {
        (ErrView::Conflict { current_etag: a_current_etag }, ErrView::Conflict { current_etag: b_current_etag }) => {
            assert(err_body(a) + x =~= enc_str(a_current_etag) + x);
            assert(err_body(b) + y =~= enc_str(b_current_etag) + y);
            lemma_str_apart(a_current_etag, x, b_current_etag, y);
            assert(a =~= b);
        },
        (ErrView::Internal(a_why), ErrView::Internal(b_why)) => {
            assert(err_body(a) + x =~= enc_str(a_why) + x);
            assert(err_body(b) + y =~= enc_str(b_why) + y);
            lemma_str_apart(a_why, x, b_why, y);
            assert(a =~= b);
        },
        _ => {
            assert(Seq::<u8>::empty() + x =~= x);
            assert(Seq::<u8>::empty() + y =~= y);
        },
    }
}

/// Whether every text of a reply has a length that the format can hold.
pub open spec fn reply_fits(r: ReplyView) -> bool {
    match r {
        Ok(ok) => ok_fits(ok),
        Err(e) => err_fits(e),
    }
}

/// No two replies are written alike, whatever follows them: what a client reads is what was said.
pub proof fn law_reply_encoding_injective(a: ReplyView, x: Seq<u8>, b: ReplyView, y: Seq<u8>)
    requires
        reply_fits(a),
        reply_fits(b),
        enc_reply(a) + x == enc_reply(b) + y,
    ensures
        a == b,
        x == y,
{
    let tag = |r: ReplyView| if r is Ok { 0u32 } else { 1u32 };
    let body = |r: ReplyView| match r {
        Ok(ok) => enc_ok(ok),
        Err(e) => enc_err(e),
    };
    assert(enc_reply(a) + x =~= enc_u32(tag(a)) + (body(a) + x));
    assert(enc_reply(b) + y =~= enc_u32(tag(b)) + (body(b) + y));
    lemma_u32_apart(tag(a), body(a) + x, tag(b), body(b) + y);
    match (a, b) {
        (Ok(p), Ok(q)) => {
            lemma_ok_apart(p, x, q, y);
        },
        (Err(p), Err(q)) => {
            lemma_err_apart(p, x, q, y);
        },
        _ => {},
    }
}

// ----- diagnostics -----

/// What is said of bytes that are not a request.
pub open spec fn explanation(e: WireErr) -> Seq<char> {
    match e {
        WireErr::Truncated => "io error: unexpected end of file"@,
        WireErr::Short => "io error: "@,
        WireErr::Utf8 => "string is not valid utf8"@,
        WireErr::Bool(b) => "invalid u8 while decoding bool, expected 0 or 1, found "@ + decimal(
            b as nat,
        ),
        WireErr::Tag(t) => "tag for enum is not valid, found "@ + decimal(t as nat),
        WireErr::Variant(i) => "invalid value: integer `"@ + decimal(i as nat)
            + "`, expected variant index 0 <= i < 18"@,
    }
}

impl WireErr {
    /// What is said of bytes that are not a request.
    pub fn message(&self) -> (r: String)
        ensures
            r@ == explanation(*self),
    {
        match *self {
            WireErr::Truncated => "io error: unexpected end of file".to_owned(),
            WireErr::Short => "io error: ".to_owned(),
            WireErr::Utf8 => "string is not valid utf8".to_owned(),
            WireErr::Bool(b) => cat(
                "invalid u8 while decoding bool, expected 0 or 1, found ",
                decimal_of(b as u64).as_str(),
            ),
            WireErr::Tag(t) => cat(
                "tag for enum is not valid, found ",
                decimal_of(t as u64).as_str(),
            ),
            WireErr::Variant(i) => cat(
                "invalid value: integer `",
                decimal_of(i as u64).as_str(),
            ).concat("`, expected variant index 0 <= i < 18"),
        }
    }
}

} // verus!
