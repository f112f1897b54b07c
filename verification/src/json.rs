//! JSON values, as `serde_json` reads, holds and writes them, and base64 text.
//!
//! A [`serde_json::Value`] is opaque to proofs. Here each of its methods that the crate uses is
//! given a contract over [`Json`], a model of what the value holds.
use base64::Engine;
use vstd::prelude::*;
use vstd::string::*;

verus! {

/// What a JSON value holds.
pub ghost enum Json {
    Null,
    Bool(bool),
    /// A whole number, not negative.
    Uint(u64),
    /// A negative whole number.
    Int(i64),
    /// Any other number, by the bits of its floating-point representation.
    Float(u64),
    Str(Seq<char>),
    Arr(Seq<Json>),
    Obj(Map<Seq<char>, Json>),
}

/// `serde_json::Value`, a JSON value.
#[verifier::external_type_specification]
#[verifier::external_body]
pub struct ExValue(serde_json::Value);

/// What a `serde_json::Value` holds.
pub uninterp spec fn json_of(v: serde_json::Value) -> Json;

/// What `serde_json::from_slice` reads bytes as; nothing if they are not JSON.
pub uninterp spec fn json_parsed(raw: Seq<u8>) -> Option<Json>;

/// The bytes that `serde_json::to_vec` writes for a value.
pub uninterp spec fn json_text(j: Json) -> Seq<u8>;

/// Whether a value holds no floating-point number and is nested at most `n` deep.
pub open spec fn exact(j: Json, n: nat) -> bool
    decreases n,
{
    match j {
        Json::Float(_) => false,
        Json::Arr(s) => n > 0 && forall|i: int|
            0 <= i < s.len() ==> exact(#[trigger] s[i], (n - 1) as nat),
        Json::Obj(m) => n > 0 && forall|k: Seq<char>| #[trigger]
            m.contains_key(k) ==> exact(m[k], (n - 1) as nat),
        _ => true,
    }
}

/// Whether a value is read again as it was written: it holds no floating-point number, and is not
/// nested too deep to be read.
pub open spec fn readable(j: Json) -> bool {
    exact(j, 127)
}

/// The member of an object; nothing if it has none of that name, or is no object.
pub open spec fn member(j: Json, key: Seq<char>) -> Option<Json> {
    match j {
        Json::Obj(m) => if m.contains_key(key) {
            Some(m[key])
        } else {
            None
        },
        _ => None,
    }
}

// ----- reading -----

/// `serde_json::from_slice`: the value that bytes are the text of; nothing if they are not JSON.
#[verifier::external_body]
pub(crate) fn parse_json(raw: &[u8]) -> (r: Option<serde_json::Value>)
    ensures
        match r {
            Some(v) => json_parsed(raw@) == Some(json_of(v)),
            None => json_parsed(raw@) is None,
        },
{
    serde_json::from_slice(raw).ok()
}

/// `serde_json::Value::get` with a name: the member of an object; nothing for any other value.
#[verifier::external_body]
pub(crate) fn get<'a>(v: &'a serde_json::Value, key: &str) -> (r: Option<&'a serde_json::Value>)
    ensures
        match r {
            Some(m) => member(json_of(*v), key@) == Some(json_of(*m)),
            None => member(json_of(*v), key@) is None,
        },
{
    v.get(key)
}

/// `serde_json::Value::as_str`: the text of a string.
#[verifier::external_body]
pub(crate) fn as_str(v: &serde_json::Value) -> (r: Option<&str>)
    ensures
        match r {
            Some(s) => json_of(*v) == Json::Str(s@),
            None => !(json_of(*v) is Str),
        },
{
    v.as_str()
}

/// `serde_json::Value::as_u64`: a whole number that is not negative.
#[verifier::external_body]
pub(crate) fn as_u64(v: &serde_json::Value) -> (r: Option<u64>)
    ensures
        match r {
            Some(n) => json_of(*v) == Json::Uint(n),
            None => !(json_of(*v) is Uint),
        },
{
    v.as_u64()
}

/// `serde_json::Value::as_bool`: a boolean.
#[verifier::external_body]
pub(crate) fn as_bool(v: &serde_json::Value) -> (r: Option<bool>)
    ensures
        match r {
            Some(b) => json_of(*v) == Json::Bool(b),
            None => !(json_of(*v) is Bool),
        },
{
    v.as_bool()
}

/// `serde_json::Value::is_null`: whether the value is null.
#[verifier::external_body]
pub(crate) fn is_null(v: &serde_json::Value) -> (r: bool)
    ensures
        r == (json_of(*v) is Null),
{
    v.is_null()
}

/// `serde_json::Value::as_array`: the values of an array, in order.
#[verifier::external_body]
pub(crate) fn as_array(v: &serde_json::Value) -> (r: Option<&Vec<serde_json::Value>>)
    ensures
        match r {
            Some(a) => json_of(*v) == Json::Arr(
                Seq::new(a@.len(), |i: int| json_of(a@[i])),
            ),
            None => !(json_of(*v) is Arr),
        },
{
    v.as_array()
}

/// Whether a name is that of one of the entries.
pub open spec fn named_by(entries: Seq<(&String, &serde_json::Value)>, key: Seq<char>) -> bool {
    exists|i: int| 0 <= i < entries.len() && (#[trigger] entries[i]).0@ == key
}

/// `serde_json::Value::as_object`: the members of an object.
#[verifier::external_body]
pub(crate) fn members(v: &serde_json::Value) -> (r: Option<Vec<(&String, &serde_json::Value)>>)
    ensures
        match r {
            Some(a) => json_of(*v) matches Json::Obj(m) && {
                &&& forall|i: int|
                    0 <= i < a@.len() ==> m.contains_key((#[trigger] a@[i]).0@)
                        && m[a@[i].0@] == json_of(*a@[i].1)
                &&& forall|k: Seq<char>| #[trigger] m.contains_key(k) ==> named_by(a@, k)
            },
            None => !(json_of(*v) is Obj),
        },
{
    v.as_object().map(|m| m.iter().collect())
}

// ----- writing -----

/// `serde_json::Value::String`: a text as a value.
#[verifier::external_body]
pub(crate) fn string_value(s: &str) -> (r: serde_json::Value)
    ensures
        json_of(r) == Json::Str(s@),
{
    serde_json::Value::String(s.to_owned())
}

/// `serde_json::Value::Null`: null.
#[verifier::external_body]
pub(crate) fn null_value() -> (r: serde_json::Value)
    ensures
        json_of(r) == Json::Null,
{
    serde_json::Value::Null
}

/// `serde_json::Value::Array`: values, in order, as a value.
#[verifier::external_body]
pub(crate) fn array_value(items: Vec<serde_json::Value>) -> (r: serde_json::Value)
    ensures
        json_of(r) == Json::Arr(Seq::new(items@.len(), |i: int| json_of(items@[i]))),
{
    serde_json::Value::Array(items)
}

/// `serde_json::Value::Bool`: a boolean as a value.
#[verifier::external_body]
pub(crate) fn bool_value(b: bool) -> (r: serde_json::Value)
    ensures
        json_of(r) == Json::Bool(b),
{
    serde_json::Value::Bool(b)
}

/// Whether no name is given twice.
pub open spec fn names_differ(members: Seq<(String, serde_json::Value)>) -> bool {
    forall|i: int, j: int|
        0 <= i < j < members.len() ==> (#[trigger] members[i]).0@ != (#[trigger] members[j]).0@
}

/// The members, by name.
pub open spec fn members_of(members: Seq<(String, serde_json::Value)>) -> Map<Seq<char>, Json>
    decreases members.len(),
{
    if members.len() == 0 {
        Map::empty()
    } else {
        members_of(members.drop_last()).insert(members.last().0@, json_of(members.last().1))
    }
}

/// `serde_json::Map::from_iter`: an object with these members, whose names differ.
#[verifier::external_body]
pub(crate) fn object(members: Vec<(String, serde_json::Value)>) -> (r: serde_json::Value)
    requires
        names_differ(members@),
    ensures
        json_of(r) == Json::Obj(members_of(members@)),
{
    serde_json::Value::Object(members.into_iter().collect())
}

/// `serde_json::to_vec`: the text of a value. Writing a value does not fail. Read again, the text of
/// a value without floating-point numbers is that value, unless it is nested too deep to be read.
#[verifier::external_body]
pub(crate) fn json_to_vec(v: &serde_json::Value) -> (r: Option<Vec<u8>>)
    ensures
        r is Some,
        r->0@ == json_text(json_of(*v)),
        readable(json_of(*v)) ==> json_parsed(r->0@) == Some(json_of(*v)),
{
    serde_json::to_vec(v).ok()
}

// ----- base64 -----

/// The base64 digit for six bits: `A` to `Z`, `a` to `z`, `0` to `9`, `+` and `/`, in this order.
pub open spec fn b64_digit(n: int) -> char {
    if n < 26 {
        ('A' as int + n) as char
    } else if n < 52 {
        ('a' as int + n - 26) as char
    } else if n < 62 {
        ('0' as int + n - 52) as char
    } else if n == 62 {
        '+'
    } else {
        '/'
    }
}

/// The base64 text of bytes: four digits for three bytes, the last four filled up with `=`.
pub open spec fn b64(s: Seq<u8>) -> Seq<char>
    decreases s.len(),
{
    if s.len() == 0 {
        Seq::empty()
    } else if s.len() == 1 {
        seq![b64_digit(s[0] as int / 4), b64_digit(s[0] as int % 4 * 16), '=', '=']
    } else if s.len() == 2 {
        seq![
            b64_digit(s[0] as int / 4),
            b64_digit(s[0] as int % 4 * 16 + s[1] as int / 16),
            b64_digit(s[1] as int % 16 * 4),
            '=',
        ]
    } else {
        seq![
            b64_digit(s[0] as int / 4),
            b64_digit(s[0] as int % 4 * 16 + s[1] as int / 16),
            b64_digit(s[1] as int % 16 * 4 + s[2] as int / 64),
            b64_digit(s[2] as int % 64),
        ] + b64(s.skip(3))
    }
}

/// Whether the base64 text of so many bytes can be held in memory.
pub open spec fn b64_fits(len: nat) -> bool {
    (len + 2) / 3 * 4 <= isize::MAX
}

/// `base64::engine::general_purpose::STANDARD.encode`: the base64 text of bytes, with the standard
/// digits and padding.
#[verifier::external_body]
pub(crate) fn b64_encode(bytes: &[u8]) -> (r: String)
    requires
        b64_fits(bytes@.len()),
    ensures
        r@ == b64(bytes@),
{
    base64::engine::general_purpose::STANDARD.encode(bytes)
}

/// `base64::engine::general_purpose::STANDARD.decode`: the bytes that a text is the base64 text of.
/// A text that no bytes have (a strange digit, padding that is missing or in excess, bits behind the
/// last byte) is refused.
#[verifier::external_body]
pub(crate) fn b64_decode(text: &str) -> (r: Option<Vec<u8>>)
    ensures
        match r {
            Some(v) => b64(v@) == text@,
            None => forall|s: Seq<u8>| #[trigger] b64(s) != text@,
        },
{
    base64::engine::general_purpose::STANDARD.decode(text).ok()
}

proof fn lemma_b64_digit(n: int)
    requires
        0 <= n < 64,
    ensures
        b64_digit(n) != '=',
        forall|m: int| 0 <= m < 64 && #[trigger] b64_digit(m) == b64_digit(n) ==> m == n,
{
}

proof fn lemma_b64_head(s: Seq<u8>)
    requires
        s.len() > 0,
    ensures
        b64(s).len() >= 4,
        b64(s)[0] != '=' && b64(s)[1] != '=',
        b64(s)[2] == '=' <==> s.len() == 1,
        b64(s)[3] == '=' <==> s.len() <= 2,
{
    lemma_b64_digit(s[0] as int / 4);
    lemma_b64_digit(s[0] as int % 4 * 16);
    if s.len() >= 2 {
        lemma_b64_digit(s[0] as int % 4 * 16 + s[1] as int / 16);
        lemma_b64_digit(s[1] as int % 16 * 4);
    }
    if s.len() >= 3 {
        lemma_b64_digit(s[1] as int % 16 * 4 + s[2] as int / 64);
        lemma_b64_digit(s[2] as int % 64);
    }
}

/// No two byte sequences have the same base64 text.
pub proof fn law_b64_is_injective(s: Seq<u8>, t: Seq<u8>)
    requires
        b64(s) == b64(t),
    ensures
        s == t,
    decreases s.len(),
{
    if s.len() == 0 || t.len() == 0 {
        if s.len() > 0 {
            lemma_b64_head(s);
        }
        if t.len() > 0 {
            lemma_b64_head(t);
        }
        assert(s =~= t);
    } else {
        lemma_b64_head(s);
        lemma_b64_head(t);
        let (x, y) = (b64(s), b64(t));
        lemma_b64_digit(s[0] as int / 4);
        assert(s[0] as int / 4 == t[0] as int / 4);
        if s.len() == 1 {
            lemma_b64_digit(s[0] as int % 4 * 16);
            assert(x[1] == y[1]);
            assert(s =~= t);
        } else {
            lemma_b64_digit(s[0] as int % 4 * 16 + s[1] as int / 16);
            assert(x[1] == y[1]);
            assert(s[0] == t[0] && s[1] as int / 16 == t[1] as int / 16);
            if s.len() == 2 {
                lemma_b64_digit(s[1] as int % 16 * 4);
                assert(x[2] == y[2]);
                assert(s =~= t);
            } else {
                lemma_b64_digit(s[1] as int % 16 * 4 + s[2] as int / 64);
                assert(x[2] == y[2]);
                assert(s[1] == t[1] && s[2] as int / 64 == t[2] as int / 64);
                lemma_b64_digit(s[2] as int % 64);
                assert(x[3] == y[3]);
                assert(s[2] == t[2]);
                assert(x.skip(4) =~= b64(s.skip(3)));
                assert(y.skip(4) =~= b64(t.skip(3)));
                law_b64_is_injective(s.skip(3), t.skip(3));
                assert(s =~= s.take(3) + s.skip(3));
                assert(t =~= t.take(3) + t.skip(3));
                assert(s.take(3) =~= t.take(3));
            }
        }
    }
}

} // verus!
