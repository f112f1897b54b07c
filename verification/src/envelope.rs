//! The mesh face of the corpus: the JSON envelope that every app speaks, with its requests and
//! replies.
//!
//! The corpus has a topic of its own because it has a different audience with a different envelope:
//! drive clients speak a byte format among themselves, while the index and the apps it meets speak
//! plain JSON.
use vstd::prelude::*;
use vstd::string::*;

use crate::corpus::{nothing_extracted, Extracted, ExtractedView, Item, LinkView, PropsView};
use crate::json::{
    array_value, as_array, as_bool, as_str, as_u64, b64, b64_decode, b64_encode, b64_fits,
    bool_value, exact, get, is_null, json_of, json_parsed, json_text, json_to_vec,
    law_b64_is_injective, member, members, members_of, named_by, null_value, object, parse_json,
    readable, string_value, Json,
};
use crate::props::{ascending, entry_at, lemma_entry, map_of, Props};
use crate::text::{lemma_lex_total, lex_lt};

verus! {

/// The topic that the corpus contract is answered on.
pub const ITEMS_TOPIC: &'static str = "ce-drive/items";

/// The corpus service name, advertised so that an index can find it without an address.
pub const ITEMS_SERVICE: &'static str = "ce-drive.corpus";

/// Refuse to pull more than this into memory to extract one node. A drive holds videos and disk
/// images; indexing must not try to read them whole. Oversized content degrades to `unextracted`
/// and stays findable by name, path, tags and links.
pub const EXTRACT_MAX_BYTES: u64 = 8 * 1024 * 1024;

/// One page of the corpus.
#[derive(Debug, Clone)]
pub struct ItemsPage {
    pub drive: String,
    pub items: Vec<Item>,
    /// Offset to resume from, or absent when the walk is complete.
    pub cursor: Option<usize>,
    pub more: bool,
    pub returned: usize,
}

// ----- requests -----

/// An `items` request: `{"op":"items","args":{drive?,path?,offset?,limit?,since?}}`.
#[derive(Debug, Clone, Default)]
pub struct ItemsArgs {
    pub drive: Option<String>,
    pub path: String,
    pub offset: usize,
    pub limit: usize,
    /// Only nodes modified at or after this unix second.
    ///
    /// The index passes back the newest `updated` it has seen, so a routine crawl costs only what
    /// actually changed. Filtering happens before pagination: otherwise `offset` would be a position
    /// in the unfiltered walk, and a caller paging through changes would skip real results.
    pub since: u64,
}

/// The arguments of a request; nothing to be found in them if there are none.
pub open spec fn args_of(j: Json) -> Json {
    match member(j, "args"@) {
        Some(a) => a,
        None => Json::Null,
    }
}

/// A text among arguments.
pub open spec fn text_arg(a: Json, key: Seq<char>) -> Option<Seq<char>> {
    match member(a, key) {
        Some(Json::Str(s)) => Some(s),
        _ => None,
    }
}

/// A whole number among arguments, with a value for want of one.
pub open spec fn count_arg(a: Json, key: Seq<char>, other: u64) -> u64 {
    match member(a, key) {
        Some(Json::Uint(n)) => n,
        _ => other,
    }
}

/// A number held between two others.
pub open spec fn held_between(n: usize, least: usize, most: usize) -> usize {
    if n < least {
        least
    } else if n > most {
        most
    } else {
        n
    }
}

/// What an `items` request asks for.
#[verifier::ext_equal]
pub struct ArgsView {
    pub drive: Option<Seq<char>>,
    pub path: Seq<char>,
    pub offset: usize,
    pub limit: usize,
    pub since: u64,
}

impl DeepView for ItemsArgs {
    type V = ArgsView;

    open spec fn deep_view(&self) -> ArgsView {
        ArgsView {
            drive: self.drive.deep_view(),
            path: self.path@,
            offset: self.offset,
            limit: self.limit,
            since: self.since,
        }
    }
}

/// What the arguments of an `items` request ask for.
pub open spec fn args_read(a: Json) -> ArgsView {
    ArgsView {
        drive: text_arg(a, "drive"@),
        path: match text_arg(a, "path"@) {
            Some(p) => p,
            None => "/"@,
        },
        offset: count_arg(a, "offset"@, 0) as usize,
        limit: held_between(count_arg(a, "limit"@, 50) as usize, 1, ItemsArgs::MAX_LIMIT),
        since: count_arg(a, "since"@, 0),
    }
}

/// What is asked for is what is given under each name, and for want of it: any drive, its root, from the
/// start, 50 items, everything. A page is never empty and never holds more than 200 items.
pub proof fn law_arguments_say_what_is_asked_for(m: Map<Seq<char>, Json>)
    ensures
        ({
            let r = args_read(Json::Obj(m));
            &&& r.drive == (if m.contains_key("drive"@) && m["drive"@] is Str {
                Some(m["drive"@]->Str_0)
            } else {
                None
            })
            &&& r.path == (if m.contains_key("path"@) && m["path"@] is Str {
                m["path"@]->Str_0
            } else {
                seq!['/']
            })
            &&& r.offset == (if m.contains_key("offset"@) && m["offset"@] is Uint {
                m["offset"@]->Uint_0 as usize
            } else {
                0
            })
            &&& r.since == (if m.contains_key("since"@) && m["since"@] is Uint {
                m["since"@]->Uint_0
            } else {
                0
            })
            &&& 1 <= r.limit <= 200
            &&& m.contains_key("limit"@) && m["limit"@] is Uint && 1 <= m["limit"@]->Uint_0 <= 200
                ==> r.limit == m["limit"@]->Uint_0
            &&& m.contains_key("limit"@) && m["limit"@] == Json::Uint(0) ==> r.limit == 1
            &&& m.contains_key("limit"@) && m["limit"@] is Uint && 200 < m["limit"@]->Uint_0
                <= usize::MAX ==> r.limit == 200
            &&& !(m.contains_key("limit"@) && m["limit"@] is Uint) ==> r.limit == 50
        }),
{
    reveal_strlit("/");
    assert("/"@ =~= seq!['/']);
}

fn text_in(a: Option<&serde_json::Value>, key: &str) -> (r: Option<String>)
    ensures
        r.deep_view() == (match a {
            Some(a) => text_arg(json_of(*a), key@),
            None => None::<Seq<char>>,
        }),
{
    match a {
        Some(a) => match get(a, key) {
            Some(v) => match as_str(v) {
                Some(s) => Some(s.to_owned()),
                None => None,
            },
            None => None,
        },
        None => None,
    }
}

fn count_in(a: Option<&serde_json::Value>, key: &str, other: u64) -> (r: u64)
    ensures
        r == (match a {
            Some(a) => count_arg(json_of(*a), key@, other),
            None => other,
        }),
{
    match a {
        Some(a) => match get(a, key) {
            Some(v) => match as_u64(v) {
                Some(n) => n,
                None => other,
            },
            None => other,
        },
        None => other,
    }
}

impl ItemsArgs {
    /// Bounded by construction: a caller asking for the world still gets a page, because an
    /// unbounded reply is one that never arrives.
    pub const MAX_LIMIT: usize = 200;

    /// The arguments of an `items` request. What is absent or of the wrong type stands for: any
    /// drive, its root, from the start, 50 items, everything.
    pub fn parse(v: &serde_json::Value) -> (r: ItemsArgs)
        ensures
            r.deep_view() == args_read(args_of(json_of(*v))),
            r.drive.deep_view() == text_arg(args_of(json_of(*v)), "drive"@),
            r.path@ == (match text_arg(args_of(json_of(*v)), "path"@) {
                Some(p) => p,
                None => "/"@,
            }),
            r.offset == count_arg(args_of(json_of(*v)), "offset"@, 0) as usize,
            r.limit == held_between(
                count_arg(args_of(json_of(*v)), "limit"@, 50) as usize,
                1,
                Self::MAX_LIMIT,
            ),
            r.since == count_arg(args_of(json_of(*v)), "since"@, 0),
    {
        let a = get(v, "args");
        let path = match text_in(a, "path") {
            Some(p) => p,
            None => "/".to_owned(),
        };
        let limit: usize = count_in(a, "limit", 50) as usize;
        let limit: usize = if limit < 1 {
            1
        } else if limit > Self::MAX_LIMIT {
            Self::MAX_LIMIT
        } else {
            limit
        };
        ItemsArgs {
            drive: text_in(a, "drive"),
            path,
            offset: count_in(a, "offset", 0) as usize,
            limit,
            since: count_in(a, "since", 0),
        }
    }
}

fn pair(
    key: &str,
    value: serde_json::Value,
    other: &str,
    second: serde_json::Value,
) -> (r: serde_json::Value)
    requires
        key@ != other@,
    ensures
        json_of(r) == Json::Obj(map![key@ => json_of(value), other@ => json_of(second)]),
{
    let ghost (j, k) = (json_of(value), json_of(second));
    let mut members: Vec<(String, serde_json::Value)> = Vec::new();
    members.push((key.to_owned(), value));
    let ghost one = members@;
    members.push((other.to_owned(), second));
    assert(members@.drop_last() =~= one);
    assert(one.drop_last() =~= Seq::empty());
    assert(members_of(members@) =~= map![key@ => j, other@ => k]) by {
        reveal_with_fuel(members_of, 3);
    }
    object(members)
}

/// The request to extract what can be indexed from bytes.
pub open spec fn extract_call(bytes: Seq<u8>, name: Seq<char>) -> Json {
    Json::Obj(
        map![
            "op"@ => Json::Str("extract"@),
            "args"@ => Json::Obj(map!["base64"@ => Json::Str(b64(bytes)), "name"@ => Json::Str(name)]),
        ],
    )
}

/// The JSON request a kind app answers: the bytes, which the caller already has, and the file name.
pub fn extract_request(bytes: &[u8], name: &str) -> (r: serde_json::Value)
    requires
        b64_fits(bytes@.len()),
    ensures
        json_of(r) == extract_call(bytes@, name@),
{
    proof {
        reveal_strlit("op");
        reveal_strlit("args");
        reveal_strlit("base64");
        reveal_strlit("name");
        assert("op"@.len() != "args"@.len());
        assert("base64"@.len() != "name"@.len());
    }
    let text = b64_encode(bytes);
    let args = pair("base64", string_value(text.as_str()), "name", string_value(name));
    pair("op", string_value("extract"), "args", args)
}

// ----- replies -----

/// The envelope of a result: `{"ok":true,"result":...}`.
pub open spec fn ok_envelope(result: Json) -> Json {
    Json::Obj(map!["ok"@ => Json::Bool(true), "result"@ => result])
}

/// The envelope of an error: `{"error":...}`.
pub open spec fn err_envelope(msg: Seq<char>) -> Json {
    Json::Obj(map!["error"@ => Json::Str(msg)])
}

/// What is sent in place of a reply that cannot be written.
const ENCODE_FAILED: &'static str = "{\"error\":\"encode failed\"}";

fn text_of(v: &serde_json::Value) -> (r: Vec<u8>)
    ensures
        r@ == json_text(json_of(*v)),
        readable(json_of(*v)) ==> json_parsed(r@) == Some(json_of(*v)),
{
    match json_to_vec(v) {
        Some(raw) => raw,
        None => ENCODE_FAILED.as_bytes_vec(),
    }
}

/// The JSON reply envelope: `{"ok":true,"result":...}`. What reads it finds the result again.
pub fn ok_reply(result: serde_json::Value) -> (r: Vec<u8>)
    ensures
        r@ == json_text(ok_envelope(json_of(result))),
        exact(json_of(result), 126) ==> json_parsed(r@) == Some(ok_envelope(json_of(result))),
{
    proof {
        reveal_strlit("ok");
        reveal_strlit("result");
        assert("ok"@.len() != "result"@.len());
    }
    let ghost j = json_of(result);
    let v = pair("ok", bool_value(true), "result", result);
    proof {
        if exact(j, 126) {
            assert(exact(Json::Bool(true), 126));
            assert(readable(ok_envelope(j)));
        }
    }
    text_of(&v)
}

/// The JSON error envelope. What reads it finds the message again.
pub fn err_reply(msg: &str) -> (r: Vec<u8>)
    ensures
        r@ == json_text(err_envelope(msg@)),
        json_parsed(r@) == Some(err_envelope(msg@)),
{
    let mut members: Vec<(String, serde_json::Value)> = Vec::new();
    members.push(("error".to_owned(), string_value(msg)));
    assert(members@.drop_last() =~= Seq::empty());
    assert(members_of(members@) =~= map!["error"@ => Json::Str(msg@)]) by {
        reveal_with_fuel(members_of, 2);
    }
    let v = object(members);
    assert(exact(Json::Str(msg@), 126));
    assert(readable(err_envelope(msg@)));
    text_of(&v)
}

// ----- what a kind app says -----

/// A title, if given: a text or null.
pub open spec fn read_title(j: Option<Json>) -> Option<Option<Seq<char>>> {
    match j {
        None => Some(None),
        Some(Json::Null) => Some(None),
        Some(Json::Str(s)) => Some(Some(s)),
        Some(_) => None,
    }
}

/// A text, if given.
pub open spec fn read_text(j: Option<Json>) -> Option<Seq<char>> {
    match j {
        None => Some(Seq::empty()),
        Some(Json::Str(s)) => Some(s),
        Some(_) => None,
    }
}

/// A boolean, if given.
pub open spec fn read_flag(j: Option<Json>) -> Option<bool> {
    match j {
        None => Some(false),
        Some(Json::Bool(b)) => Some(b),
        Some(_) => None,
    }
}

/// Whether a value is a pair of texts.
pub open spec fn is_link(j: Json) -> bool {
    j matches Json::Arr(p) && p.len() == 2 && p[0] is Str && p[1] is Str
}

/// The link that a pair of texts stands for.
pub open spec fn link_of(j: Json) -> LinkView {
    (j->Arr_0[0]->Str_0, j->Arr_0[1]->Str_0)
}

/// Links, if given: an array of pairs of texts.
pub open spec fn read_links(j: Option<Json>) -> Option<Seq<LinkView>> {
    match j {
        None => Some(Seq::empty()),
        Some(Json::Arr(a)) => if forall|i: int| 0 <= i < a.len() ==> is_link(#[trigger] a[i]) {
            Some(Seq::new(a.len(), |i: int| link_of(a[i])))
        } else {
            None
        },
        Some(_) => None,
    }
}

/// Texts, if given: an array of them.
pub open spec fn read_texts(j: Option<Json>) -> Option<Seq<Seq<char>>> {
    match j {
        None => Some(Seq::empty()),
        Some(Json::Arr(a)) => if forall|i: int| 0 <= i < a.len() ==> (#[trigger] a[i]) is Str {
            Some(Seq::new(a.len(), |i: int| a[i]->Str_0))
        } else {
            None
        },
        Some(_) => None,
    }
}

/// Named texts, if given: an object of them.
pub open spec fn read_props(j: Option<Json>) -> Option<PropsView> {
    match j {
        None => Some(Map::empty()),
        Some(Json::Obj(m)) => if forall|k: Seq<char>| #[trigger] m.contains_key(k) ==> m[k] is Str {
            Some(Map::new(|k: Seq<char>| m.contains_key(k), |k: Seq<char>| m[k]->Str_0))
        } else {
            None
        },
        Some(_) => None,
    }
}

/// What is given in each place: an extraction, or nothing if one of them is of the wrong form.
pub open spec fn read_fields(
    title: Option<Json>,
    text: Option<Json>,
    links: Option<Json>,
    props: Option<Json>,
    tags: Option<Json>,
    unextracted: Option<Json>,
) -> Option<ExtractedView> {
    if read_title(title) is Some && read_text(text) is Some && read_links(links) is Some
        && read_props(props) is Some && read_texts(tags) is Some && read_flag(unextracted) is Some {
        Some(
            ExtractedView {
                title: read_title(title)->0,
                text: read_text(text)->0,
                links: read_links(links)->0,
                props: read_props(props)->0,
                tags: read_texts(tags)->0,
                unextracted: read_flag(unextracted)->0,
            },
        )
    } else {
        None
    }
}

/// The `i`th value of an array, if it has so many.
pub open spec fn nth(a: Seq<Json>, i: int) -> Option<Json> {
    if i < a.len() {
        Some(a[i])
    } else {
        None
    }
}

/// The extraction that a value stands for: an object with the fields by name, or an array with the
/// fields in order. Every field may be left out; other names are passed over.
pub open spec fn read_extracted(j: Json) -> Option<ExtractedView> {
    match j {
        Json::Obj(_) => read_fields(
            member(j, "title"@),
            member(j, "text"@),
            member(j, "links"@),
            member(j, "props"@),
            member(j, "tags"@),
            member(j, "unextracted"@),
        ),
        Json::Arr(a) => if a.len() <= 6 {
            read_fields(nth(a, 0), nth(a, 1), nth(a, 2), nth(a, 3), nth(a, 4), nth(a, 5))
        } else {
            None
        },
        _ => None,
    }
}

/// What a kind app's reply says: the extraction that its result stands for; that nothing could be
/// read, for any other reply.
pub open spec fn extraction(reply: Option<Json>) -> ExtractedView {
    match reply {
        Some(j) => match member(j, "result"@) {
            Some(result) => match read_extracted(result) {
                Some(e) => e,
                None => nothing_extracted(true),
            },
            None => nothing_extracted(true),
        },
        None => nothing_extracted(true),
    }
}

/// What an optional value holds.
pub open spec fn json_opt(v: Option<&serde_json::Value>) -> Option<Json> {
    match v {
        Some(v) => Some(json_of(*v)),
        None => None,
    }
}

fn take_title(v: Option<&serde_json::Value>) -> (r: Option<Option<String>>)
    ensures
        r.deep_view() == read_title(json_opt(v)),
{
    match v {
        None => Some(None),
        Some(v) => if is_null(v) {
            Some(None)
        } else {
            match as_str(v) {
                Some(s) => Some(Some(s.to_owned())),
                None => None,
            }
        },
    }
}

fn take_text(v: Option<&serde_json::Value>) -> (r: Option<String>)
    ensures
        r.deep_view() == read_text(json_opt(v)),
{
    match v {
        None => {
            let none = String::new();
            assert(none@ =~= Seq::<char>::empty());
            Some(none)
        },
        Some(v) => match as_str(v) {
            Some(s) => Some(s.to_owned()),
            None => None,
        },
    }
}

fn take_flag(v: Option<&serde_json::Value>) -> (r: Option<bool>)
    ensures
        r == read_flag(json_opt(v)),
{
    match v {
        None => Some(false),
        Some(v) => as_bool(v),
    }
}

fn take_link(v: &serde_json::Value) -> (r: Option<(String, String)>)
    ensures
        match r {
            Some(l) => is_link(json_of(*v)) && l.deep_view() == link_of(json_of(*v)),
            None => !is_link(json_of(*v)),
        },
{
    match as_array(v) {
        None => None,
        Some(p) => {
            if p.len() != 2 {
                return None;
            }
            assert(json_of(*v)->Arr_0[0] == json_of(p@[0]));
            assert(json_of(*v)->Arr_0[1] == json_of(p@[1]));
            match (as_str(&p[0]), as_str(&p[1])) {
                (Some(rel), Some(target)) => Some((rel.to_owned(), target.to_owned())),
                _ => None,
            }
        },
    }
}

fn take_links(field: Option<&serde_json::Value>) -> (r: Option<Vec<(String, String)>>)
    ensures
        r.deep_view() == read_links(json_opt(field)),
{
    let mut out: Vec<(String, String)> = Vec::new();
    match field {
        None => {
            assert(out.deep_view() =~= Seq::<LinkView>::empty());
            Some(out)
        },
        Some(v) => match as_array(v) {
            None => None,
            Some(items) => {
                let ghost a = json_of(*v)->Arr_0;
                let n: usize = items.len();
                let mut i: usize = 0;
                while i < n
                    invariant
                        i <= n,
                        n == items@.len(),
                        json_opt(field) == Some(Json::Arr(a)),
                        a.len() == n,
                        forall|k: int| 0 <= k < n ==> #[trigger] a[k] == json_of(items@[k]),
                        forall|k: int| 0 <= k < i ==> is_link(#[trigger] a[k]),
                        out@.len() == i,
                        forall|k: int| 0 <= k < i ==> (#[trigger] out@[k]).deep_view() == link_of(a[k]),
                    decreases n - i,
                {
                    match take_link(&items[i]) {
                        Some(l) => {
                            out.push(l);
                        },
                        None => {
                            assert(!is_link(a[i as int]));
                            return None;
                        },
                    }
                    i = i + 1;
                }
                assert(out.deep_view() =~= Seq::new(a.len(), |i: int| link_of(a[i])));
                Some(out)
            },
        },
    }
}

fn take_texts(field: Option<&serde_json::Value>) -> (r: Option<Vec<String>>)
    ensures
        r.deep_view() == read_texts(json_opt(field)),
{
    let mut out: Vec<String> = Vec::new();
    match field {
        None => {
            assert(out.deep_view() =~= Seq::<Seq<char>>::empty());
            Some(out)
        },
        Some(v) => match as_array(v) {
            None => None,
            Some(items) => {
                let ghost a = json_of(*v)->Arr_0;
                let n: usize = items.len();
                let mut i: usize = 0;
                while i < n
                    invariant
                        i <= n,
                        n == items@.len(),
                        json_opt(field) == Some(Json::Arr(a)),
                        a.len() == n,
                        forall|k: int| 0 <= k < n ==> #[trigger] a[k] == json_of(items@[k]),
                        forall|k: int| 0 <= k < i ==> (#[trigger] a[k]) is Str,
                        out@.len() == i,
                        forall|k: int| 0 <= k < i ==> (#[trigger] out@[k])@ == a[k]->Str_0,
                    decreases n - i,
                {
                    match as_str(&items[i]) {
                        Some(s) => {
                            out.push(s.to_owned());
                        },
                        None => {
                            assert(!(a[i as int] is Str));
                            return None;
                        },
                    }
                    i = i + 1;
                }
                assert(out.deep_view() =~= Seq::new(a.len(), |i: int| a[i]->Str_0));
                Some(out)
            },
        },
    }
}

fn take_props(field: Option<&serde_json::Value>) -> (r: Option<Props>)
    ensures
        match r {
            Some(p) => read_props(json_opt(field)) == Some(p@),
            None => read_props(json_opt(field)) is None,
        },
{
    let mut out = Props::new();
    match field {
        None => Some(out),
        Some(v) => match members(v) {
            None => None,
            Some(items) => {
                let ghost m = json_of(*v)->Obj_0;
                let n: usize = items.len();
                let mut i: usize = 0;
                while i < n
                    invariant
                        i <= n,
                        n == items@.len(),
                        json_opt(field) == Some(Json::Obj(m)),
                        forall|k: int|
                            0 <= k < n ==> m.contains_key((#[trigger] items@[k]).0@)
                                && m[items@[k].0@] == json_of(*items@[k].1),
                        forall|k: int| 0 <= k < i ==> m[(#[trigger] items@[k]).0@] is Str,
                        forall|k: int| 0 <= k < i ==> out@.contains_key((#[trigger] items@[k]).0@),
                        forall|q: Seq<char>| #[trigger]
                            out@.contains_key(q) ==> m.contains_key(q) && m[q] == Json::Str(out@[q]),
                    decreases n - i,
                {
                    let (key, value) = items[i];
                    match as_str(value) {
                        Some(s) => {
                            out.insert(key.clone(), s.to_owned());
                        },
                        None => {
                            assert(!(m[items@[i as int].0@] is Str));
                            return None;
                        },
                    }
                    i = i + 1;
                }
                proof {
                    assert forall|q: Seq<char>| #[trigger] m.contains_key(q) implies m[q] is Str
                        && out@.contains_key(q) by {
                        assert(named_by(items@, q));
                        let k = choose|k: int| 0 <= k < items@.len() && (#[trigger] items@[k]).0@ == q;
                        assert(out@.contains_key(items@[k].0@));
                    }
                    assert(out@ =~= Map::new(
                        |k: Seq<char>| m.contains_key(k),
                        |k: Seq<char>| m[k]->Str_0,
                    ));
                }
                Some(out)
            },
        },
    }
}

fn take_fields(
    title: Option<&serde_json::Value>,
    text: Option<&serde_json::Value>,
    links: Option<&serde_json::Value>,
    props: Option<&serde_json::Value>,
    tags: Option<&serde_json::Value>,
    unextracted: Option<&serde_json::Value>,
) -> (r: Option<Extracted>)
    ensures
        r.deep_view() == read_fields(
            json_opt(title),
            json_opt(text),
            json_opt(links),
            json_opt(props),
            json_opt(tags),
            json_opt(unextracted),
        ),
{
    match (
        take_title(title),
        take_text(text),
        take_links(links),
        take_props(props),
        take_texts(tags),
        take_flag(unextracted),
    ) {
        (
            Some(title),
            Some(text),
            Some(links),
            Some(props),
            Some(tags),
            Some(unextracted),
        ) => Some(Extracted { title, text, links, props, tags, unextracted }),
        _ => None,
    }
}

fn nth_item(items: &Vec<serde_json::Value>, i: usize) -> (r: Option<&serde_json::Value>)
    ensures
        json_opt(r) == nth(Seq::new(items@.len(), |k: int| json_of(items@[k])), i as int),
{
    if i < items.len() {
        Some(&items[i])
    } else {
        None
    }
}

fn take_extracted(v: &serde_json::Value) -> (r: Option<Extracted>)
    ensures
        r.deep_view() == read_extracted(json_of(*v)),
{
    match as_array(v) {
        Some(a) => if a.len() <= 6 {
            take_fields(
                nth_item(a, 0),
                nth_item(a, 1),
                nth_item(a, 2),
                nth_item(a, 3),
                nth_item(a, 4),
                nth_item(a, 5),
            )
        } else {
            None
        },
        None => match members(v) {
            None => None,
            Some(_) => take_fields(
                get(v, "title"),
                get(v, "text"),
                get(v, "links"),
                get(v, "props"),
                get(v, "tags"),
                get(v, "unextracted"),
            ),
        },
    }
}

/// Read a kind app's reply, degrading rather than propagating.
///
/// A kind app that is missing, slow, broken or malformed must not stop the rest of a drive being
/// indexed — one bad format would otherwise take down the corpus.
pub fn extract_reply(raw: &[u8]) -> (r: Extracted)
    ensures
        r.deep_view() == extraction(json_parsed(raw@)),
{
    match parse_json(raw) {
        Some(v) => extract_result(&v),
        None => Extracted::unextracted(),
    }
}

/// What a kind app's reply says, once it is known to be JSON.
pub fn extract_result(reply: &serde_json::Value) -> (r: Extracted)
    ensures
        r.deep_view() == extraction(Some(json_of(*reply))),
{
    match get(reply, "result") {
        Some(result) => match take_extracted(result) {
            Some(e) => e,
            None => Extracted::unextracted(),
        },
        None => Extracted::unextracted(),
    }
}

/// Texts as JSON: an array of them.
pub open spec fn texts_json(v: Seq<Seq<char>>) -> Json {
    Json::Arr(Seq::new(v.len(), |i: int| Json::Str(v[i])))
}

/// A link as JSON: the pair of its texts.
pub open spec fn link_json(l: LinkView) -> Json {
    Json::Arr(seq![Json::Str(l.0), Json::Str(l.1)])
}

/// Links as JSON: an array of them.
pub open spec fn links_json(v: Seq<LinkView>) -> Json {
    Json::Arr(Seq::new(v.len(), |i: int| link_json(v[i])))
}

/// Named texts as JSON: an object of them.
pub open spec fn props_json(p: PropsView) -> Json {
    Json::Obj(Map::new(|k: Seq<char>| p.contains_key(k), |k: Seq<char>| Json::Str(p[k])))
}

/// An extraction as JSON: an object with its fields by name.
pub open spec fn extracted_json(e: ExtractedView) -> Json {
    Json::Obj(
        map![
            "title"@ => match e.title {
                Some(t) => Json::Str(t),
                None => Json::Null,
            },
            "text"@ => Json::Str(e.text),
            "links"@ => links_json(e.links),
            "props"@ => props_json(e.props),
            "tags"@ => texts_json(e.tags),
            "unextracted"@ => Json::Bool(e.unextracted),
        ],
    )
}

proof fn lemma_field_names()
    ensures
        "title"@ != "text"@,
        "title"@ != "links"@,
        "title"@ != "props"@,
        "title"@ != "tags"@,
        "title"@ != "unextracted"@,
        "text"@ != "links"@,
        "text"@ != "props"@,
        "text"@ != "tags"@,
        "text"@ != "unextracted"@,
        "links"@ != "props"@,
        "links"@ != "tags"@,
        "links"@ != "unextracted"@,
        "props"@ != "tags"@,
        "props"@ != "unextracted"@,
        "tags"@ != "unextracted"@,
{
    reveal_strlit("title");
    reveal_strlit("text");
    reveal_strlit("links");
    reveal_strlit("props");
    reveal_strlit("tags");
    reveal_strlit("unextracted");
    assert("title"@[0] == 't' && "links"@[0] == 'l' && "props"@[0] == 'p');
    assert("text"@[1] == 'e' && "tags"@[1] == 'a');
}

fn texts_value(v: &Vec<String>) -> (r: serde_json::Value)
    ensures
        json_of(r) == texts_json(v.deep_view()),
{
    let n: usize = v.len();
    let mut items: Vec<serde_json::Value> = Vec::new();
    let mut i: usize = 0;
    while i < n
        invariant
            i <= n,
            n == v@.len(),
            items@.len() == i,
            forall|k: int| 0 <= k < i ==> json_of(#[trigger] items@[k]) == Json::Str(v@[k]@),
        decreases n - i,
    {
        items.push(string_value(v[i].as_str()));
        i = i + 1;
    }
    assert(Seq::new(items@.len(), |i: int| json_of(items@[i])) =~= Seq::new(
        v.deep_view().len(),
        |i: int| Json::Str(v.deep_view()[i]),
    ));
    array_value(items)
}

fn link_value(l: &(String, String)) -> (r: serde_json::Value)
    ensures
        json_of(r) == link_json(l.deep_view()),
{
    let mut items: Vec<serde_json::Value> = Vec::new();
    items.push(string_value(l.0.as_str()));
    items.push(string_value(l.1.as_str()));
    assert(Seq::new(items@.len(), |i: int| json_of(items@[i])) =~= seq![
        Json::Str(l.0@),
        Json::Str(l.1@),
    ]);
    array_value(items)
}

fn links_value(v: &Vec<(String, String)>) -> (r: serde_json::Value)
    ensures
        json_of(r) == links_json(v.deep_view()),
{
    let n: usize = v.len();
    let mut items: Vec<serde_json::Value> = Vec::new();
    let mut i: usize = 0;
    while i < n
        invariant
            i <= n,
            n == v@.len(),
            items@.len() == i,
            forall|k: int|
                0 <= k < i ==> json_of(#[trigger] items@[k]) == link_json(v@[k].deep_view()),
        decreases n - i,
    {
        items.push(link_value(&v[i]));
        i = i + 1;
    }
    assert(Seq::new(items@.len(), |i: int| json_of(items@[i])) =~= Seq::new(
        v.deep_view().len(),
        |i: int| link_json(v.deep_view()[i]),
    ));
    array_value(items)
}

fn props_value(p: &Props) -> (r: serde_json::Value)
    ensures
        json_of(r) == props_json(p@),
{
    let entries = p.entries();
    let ghost all = entries.deep_view();
    let n: usize = entries.len();
    let mut items: Vec<(String, serde_json::Value)> = Vec::new();
    let mut i: usize = 0;
    while i < n
        invariant
            i <= n,
            n == entries@.len(),
            all == entries.deep_view(),
            ascending(all),
            p@ == map_of(all),
            items@.len() == i,
            forall|k: int| 0 <= k < i ==> (#[trigger] items@[k]).0@ == all[k].0,
            forall|q: Seq<char>| #[trigger]
                members_of(items@).contains_key(q) <==> exists|j: int| j < i && entry_at(all, q, j),
            forall|q: Seq<char>| #[trigger]
                members_of(items@).contains_key(q) ==> members_of(items@)[q] == Json::Str(p@[q]),
        decreases n - i,
    {
        let ghost was = items@;
        let ghost q = entries@[i as int].0@;
        assert(all[i as int] == (entries@[i as int].0@, entries@[i as int].1@));
        proof {
            lemma_entry(all, i as int);
        }
        items.push((entries[i].0.clone(), string_value(entries[i].1.as_str())));
        proof {
            assert(items@.drop_last() =~= was);
            assert(entry_at(all, q, i as int));
            assert forall|k: Seq<char>| #[trigger]
                members_of(items@).contains_key(k) <==> exists|j: int|
                    j < i + 1 && entry_at(all, k, j) by {
                if k != q {
                    assert(members_of(items@).contains_key(k) == members_of(was).contains_key(k));
                    if exists|j: int| j < i + 1 && entry_at(all, k, j) {
                        let j = choose|j: int| j < i + 1 && entry_at(all, k, j);
                        assert(j != i);
                    }
                }
            }
            assert forall|k: Seq<char>| #[trigger] members_of(items@).contains_key(k) implies members_of(
                items@,
            )[k] == Json::Str(p@[k]) by {
                if k != q {
                    assert(members_of(was).contains_key(k));
                }
            }
        }
        i = i + 1;
    }
    proof {
        assert forall|a: int, b: int| 0 <= a < b < items@.len() implies (#[trigger] items@[a]).0@ != (
        #[trigger] items@[b]).0@ by {
            assert(lex_lt(all[a].0, all[b].0));
            lemma_lex_total(all[a].0, all[b].0);
        }
        assert(members_of(items@) =~= Map::new(
            |k: Seq<char>| p@.contains_key(k),
            |k: Seq<char>| Json::Str(p@[k]),
        ));
    }
    object(items)
}

/// An extraction as JSON, as a kind app sends it: an object with its fields by name.
pub fn extracted_value(e: &Extracted) -> (r: serde_json::Value)
    ensures
        json_of(r) == extracted_json(e.deep_view()),
{
    let title = match &e.title {
        Some(t) => string_value(t.as_str()),
        None => null_value(),
    };
    let mut items: Vec<(String, serde_json::Value)> = Vec::new();
    let ghost s0 = items@;
    items.push(("title".to_owned(), title));
    let ghost s1 = items@;
    items.push(("text".to_owned(), string_value(e.text.as_str())));
    let ghost s2 = items@;
    items.push(("links".to_owned(), links_value(&e.links)));
    let ghost s3 = items@;
    items.push(("props".to_owned(), props_value(&e.props)));
    let ghost s4 = items@;
    items.push(("tags".to_owned(), texts_value(&e.tags)));
    let ghost s5 = items@;
    items.push(("unextracted".to_owned(), bool_value(e.unextracted)));
    proof {
        lemma_field_names();
        assert(items@.drop_last() =~= s5);
        assert(s5.drop_last() =~= s4);
        assert(s4.drop_last() =~= s3);
        assert(s3.drop_last() =~= s2);
        assert(s2.drop_last() =~= s1);
        assert(s1.drop_last() =~= s0);
        reveal_with_fuel(members_of, 7);
        assert(Json::Obj(members_of(items@)) == extracted_json(e.deep_view()));
    }
    object(items)
}

/// An extraction that is sent in the good envelope is read back whole. It holds no floating-point
/// number and is nested shallowly enough that what [`ok_reply`] writes of [`extracted_value`] is the
/// text of that envelope again: so [`extract_reply`] gives the extraction back.
pub proof fn law_extraction_is_read_back(e: ExtractedView)
    ensures
        extraction(Some(ok_envelope(extracted_json(e)))) == e,
        exact(extracted_json(e), 126),
{
    reveal_strlit("ok");
    reveal_strlit("result");
    assert("ok"@.len() != "result"@.len());
    lemma_field_names();
    let j = extracted_json(e);
    let links = links_json(e.links);
    let tags = texts_json(e.tags);
    let props = props_json(e.props);
    assert forall|i: int| 0 <= i < links->Arr_0.len() implies is_link(#[trigger] links->Arr_0[i]) by {
        assert(links->Arr_0[i] == link_json(e.links[i]));
    }
    assert(read_links(Some(links))->0 =~= e.links);
    assert(read_texts(Some(tags))->0 =~= e.tags);
    assert(read_props(Some(props))->0 =~= e.props);
    assert(read_extracted(j)->0 =~= e);
    assert(exact(links, 125)) by {
        assert forall|i: int| 0 <= i < links->Arr_0.len() implies exact(
            #[trigger] links->Arr_0[i],
            124,
        ) by {
            let l = links->Arr_0[i];
            assert(l == link_json(e.links[i]));
            assert forall|k: int| 0 <= k < l->Arr_0.len() implies exact(
                #[trigger] l->Arr_0[k],
                123,
            ) by {
                assert(l->Arr_0[k] is Str);
            }
        }
    }
    assert(exact(tags, 125)) by {
        assert forall|i: int| 0 <= i < tags->Arr_0.len() implies exact(
            #[trigger] tags->Arr_0[i],
            124,
        ) by {
            assert(tags->Arr_0[i] is Str);
        }
    }
    assert(exact(props, 125)) by {
        assert forall|k: Seq<char>| #[trigger] props->Obj_0.contains_key(k) implies exact(
            props->Obj_0[k],
            124,
        ) by {
            assert(props->Obj_0[k] is Str);
        }
    }
    assert forall|k: Seq<char>| #[trigger] j->Obj_0.contains_key(k) implies exact(
        j->Obj_0[k],
        125,
    ) by {
        let v = j->Obj_0[k];
        assert(v == links || v == tags || v == props || v is Str || v is Null || v is Bool);
    }
}

// ----- what a content app says -----

/// The base64 text in a content app's reply.
pub open spec fn content_text(reply: Option<Json>) -> Option<Seq<char>> {
    match reply {
        Some(j) => match member(j, "result"@) {
            Some(result) => text_arg(result, "base64"@),
            None => None,
        },
        None => None,
    }
}

/// Whether `bytes` are what a text stands for in base64: the bytes that have it as their base64
/// text, or nothing if no bytes have.
pub open spec fn decodes(text: Option<Seq<char>>, bytes: Option<Seq<u8>>) -> bool {
    match (text, bytes) {
        (Some(t), Some(b)) => b64(b) == t,
        (Some(t), None) => forall|s: Seq<u8>| #[trigger] b64(s) != t,
        (None, b) => b is None,
    }
}

/// Read a content app's `get` reply into bytes.
///
/// Content apps answer the JSON envelope with base64, so this is where a local file, a stored object
/// and a window of a stream all become the same bytes.
pub fn decode_content_reply(raw: &[u8]) -> (r: Option<Vec<u8>>)
    ensures
        decodes(content_text(json_parsed(raw@)), r.deep_view()),
{
    match parse_json(raw) {
        Some(v) => content_of(&v),
        None => None,
    }
}

/// The bytes in a content app's reply, once it is known to be JSON.
pub fn content_of(reply: &serde_json::Value) -> (r: Option<Vec<u8>>)
    ensures
        decodes(content_text(Some(json_of(*reply))), r.deep_view()),
{
    let result = match get(reply, "result") {
        Some(result) => result,
        None => {
            return None;
        },
    };
    match get(result, "base64") {
        Some(t) => match as_str(t) {
            Some(text) => {
                let r = b64_decode(text);
                assert(r matches Some(v) ==> v.deep_view() =~= v@);
                r
            },
            None => None,
        },
        None => None,
    }
}

// ----- what holds of replies -----

/// The bytes that a content app puts into its reply in base64 are the bytes that are read from it.
pub proof fn law_content_is_read_back(
    m: Map<Seq<char>, Json>,
    bytes: Seq<u8>,
    read: Option<Seq<u8>>,
)
    requires
        m.contains_key("base64"@),
        m["base64"@] == Json::Str(b64(bytes)),
        decodes(content_text(Some(ok_envelope(Json::Obj(m)))), read),
    ensures
        read == Some(bytes),
{
    reveal_strlit("ok");
    reveal_strlit("result");
    assert("ok"@.len() != "result"@.len());
    assert(content_text(Some(ok_envelope(Json::Obj(m)))) == Some(b64(bytes)));
    if read is Some {
        law_b64_is_injective(read->0, bytes);
    } else {
        assert(b64(bytes) != b64(bytes));
    }
}

/// An error reply yields no bytes, rather than none to read: a refusal does not look like an empty
/// file. Nor does it yield an extraction.
pub proof fn law_refusal_yields_nothing(msg: Seq<char>, read: Option<Seq<u8>>)
    requires
        decodes(content_text(Some(err_envelope(msg))), read),
    ensures
        read is None,
        extraction(Some(err_envelope(msg))) == nothing_extracted(true),
{
    reveal_strlit("error");
    reveal_strlit("result");
    assert("error"@.len() != "result"@.len());
}

/// Whatever a kind app sends, it is read as something: an extraction, or that there is none. Bytes
/// that are not JSON are no extraction.
pub proof fn law_broken_reply_degrades(reply: Option<Json>)
    ensures
        reply is None ==> extraction(reply) == nothing_extracted(true),
        reply is Some && member(reply->0, "result"@) is None ==> extraction(reply)
            == nothing_extracted(true),
        extraction(reply) == nothing_extracted(true) || (reply is Some && member(
            reply->0,
            "result"@,
        ) is Some && Some(extraction(reply)) == read_extracted(member(reply->0, "result"@)->0)),
{
}

// ----- what is read, field by field -----

/// The arguments of a request are the members of its `args`: a text is taken as it is given, a whole
/// number too, and for what is absent or of another type the other value stands. A number is held
/// between its bounds and changed by nothing else.
pub proof fn law_arguments_are_the_members_of_args(
    m: Map<Seq<char>, Json>,
    a: Json,
    key: Seq<char>,
    other: u64,
    n: usize,
    least: usize,
    most: usize,
)
    requires
        least <= most,
    ensures
        m.contains_key("args"@) && m["args"@] == a ==> args_of(Json::Obj(m)) == a,
        !m.contains_key("args"@) ==> text_arg(args_of(Json::Obj(m)), key) is None && count_arg(
            args_of(Json::Obj(m)),
            key,
            other,
        ) == other,
        text_arg(a, key) == (if a is Obj && a->Obj_0.contains_key(key) && a->Obj_0[key] is Str {
            Some(a->Obj_0[key]->Str_0)
        } else {
            None
        }),
        count_arg(a, key, other) == (if a is Obj && a->Obj_0.contains_key(key) && a->Obj_0[key] is Uint {
            a->Obj_0[key]->Uint_0
        } else {
            other
        }),
        least <= held_between(n, least, most) <= most,
        least <= n <= most ==> held_between(n, least, most) == n,
        n < least ==> held_between(n, least, most) == least,
        n > most ==> held_between(n, least, most) == most,
{
}

/// What is sent to a kind app is a request to extract, with the name of the file and the bytes in
/// base64: no other bytes have that text.
pub proof fn law_extract_call_carries_the_bytes(bytes: Seq<u8>, name: Seq<char>, other: Seq<u8>)
    ensures
        ({
            let call = extract_call(bytes, name);
            let args = args_of(call);
            &&& text_arg(call, "op"@) == Some("extract"@)
            &&& text_arg(args, "name"@) == Some(name)
            &&& text_arg(args, "base64"@) == Some(b64(bytes))
            &&& text_arg(args, "base64"@) == Some(b64(other)) ==> other == bytes
        }),
{
    reveal_strlit("op");
    reveal_strlit("args");
    reveal_strlit("base64");
    reveal_strlit("name");
    assert("op"@.len() != "args"@.len());
    assert("base64"@.len() != "name"@.len());
    if b64(other) == b64(bytes) {
        law_b64_is_injective(other, bytes);
    }
}

/// The envelopes hold the result under `result` beside the word that it is good, and the message under
/// `error`, and nothing else.
pub proof fn law_envelopes_hold_what_is_sent(result: Json, msg: Seq<char>, key: Seq<char>)
    ensures
        member(ok_envelope(result), "ok"@) == Some(Json::Bool(true)),
        member(ok_envelope(result), "result"@) == Some(result),
        member(err_envelope(msg), "error"@) == Some(Json::Str(msg)),
        member(ok_envelope(result), key) is Some ==> key == "ok"@ || key == "result"@,
        member(err_envelope(msg), key) is Some ==> key == "error"@,
{
    reveal_strlit("ok");
    reveal_strlit("result");
    assert("ok"@.len() != "result"@.len());
}

/// What is given under a name of an object.
pub open spec fn given(m: Map<Seq<char>, Json>, key: Seq<char>) -> Option<Json> {
    if m.contains_key(key) {
        Some(m[key])
    } else {
        None
    }
}

/// Whether what is given in the fields of an extraction has the right form: each is left out, or a text
/// or null as the title, a text as the text, an array of pairs of texts as the links, an object of texts
/// as the props, an array of texts as the tags, a truth value as the flag.
pub open spec fn well_formed(m: Map<Seq<char>, Json>) -> bool {
    &&& given(m, "title"@) matches Some(j) ==> j is Null || j is Str
    &&& given(m, "text"@) matches Some(j) ==> j is Str
    &&& given(m, "links"@) matches Some(j) ==> j is Arr && forall|i: int|
        0 <= i < j->Arr_0.len() ==> {
            let l = #[trigger] j->Arr_0[i];
            l is Arr && l->Arr_0.len() == 2 && l->Arr_0[0] is Str && l->Arr_0[1] is Str
        }
    &&& given(m, "props"@) matches Some(j) ==> j is Obj && forall|k: Seq<char>| #[trigger]
        j->Obj_0.contains_key(k) ==> j->Obj_0[k] is Str
    &&& given(m, "tags"@) matches Some(j) ==> j is Arr && forall|i: int|
        0 <= i < j->Arr_0.len() ==> (#[trigger] j->Arr_0[i]) is Str
    &&& given(m, "unextracted"@) matches Some(j) ==> j is Bool
}

/// A result that is an object is read field by field: what is given is taken, what is left out is empty,
/// and what has another name is passed over. If one field has the wrong form, nothing is taken of any.
pub proof fn law_extraction_is_read_field_by_field(m: Map<Seq<char>, Json>, key: Seq<char>, i: int)
    ensures
        ({
            let e = extraction(Some(ok_envelope(Json::Obj(m))));
            &&& !well_formed(m) ==> e == nothing_extracted(true)
            &&& well_formed(m) ==> {
                &&& e.title == (if m.contains_key("title"@) && m["title"@] is Str {
                    Some(m["title"@]->Str_0)
                } else {
                    None
                })
                &&& m.contains_key("text"@) ==> e.text == m["text"@]->Str_0
                &&& !m.contains_key("text"@) ==> e.text.len() == 0
                &&& m.contains_key("links"@) ==> {
                    let a = m["links"@]->Arr_0;
                    &&& e.links.len() == a.len()
                    &&& 0 <= i < a.len() ==> e.links[i] == (
                        a[i]->Arr_0[0]->Str_0,
                        a[i]->Arr_0[1]->Str_0,
                    )
                }
                &&& !m.contains_key("links"@) ==> e.links.len() == 0
                &&& m.contains_key("props"@) ==> {
                    let p = m["props"@]->Obj_0;
                    &&& e.props.contains_key(key) <==> p.contains_key(key)
                    &&& p.contains_key(key) ==> e.props[key] == p[key]->Str_0
                }
                &&& !m.contains_key("props"@) ==> !e.props.contains_key(key)
                &&& m.contains_key("tags"@) ==> {
                    let a = m["tags"@]->Arr_0;
                    &&& e.tags.len() == a.len()
                    &&& 0 <= i < a.len() ==> e.tags[i] == a[i]->Str_0
                }
                &&& !m.contains_key("tags"@) ==> e.tags.len() == 0
                &&& m.contains_key("unextracted"@) ==> e.unextracted == m["unextracted"@]->Bool_0
                &&& !m.contains_key("unextracted"@) ==> !e.unextracted
            }
        }),
{
    reveal_strlit("ok");
    reveal_strlit("result");
    assert("ok"@.len() != "result"@.len());
    let j = Json::Obj(m);
    assert(member(ok_envelope(j), "result"@) == Some(j));
    if let Some(Json::Arr(a)) = given(m, "links"@) {
        assert(forall|i: int|
            0 <= i < a.len() ==> (is_link(#[trigger] a[i]) <==> a[i] is Arr && a[i]->Arr_0.len() == 2
                && a[i]->Arr_0[0] is Str && a[i]->Arr_0[1] is Str));
    }
}

/// A result that is an array of at most six values is read like the object with the fields in that
/// order; a longer array, or a value of any other form, is no extraction.
pub proof fn law_array_is_read_like_the_object(a: Seq<Json>, m: Map<Seq<char>, Json>, j: Json)
    requires
        m.contains_key("title"@) <==> a.len() > 0,
        m.contains_key("text"@) <==> a.len() > 1,
        m.contains_key("links"@) <==> a.len() > 2,
        m.contains_key("props"@) <==> a.len() > 3,
        m.contains_key("tags"@) <==> a.len() > 4,
        m.contains_key("unextracted"@) <==> a.len() > 5,
        a.len() > 0 ==> m["title"@] == a[0],
        a.len() > 1 ==> m["text"@] == a[1],
        a.len() > 2 ==> m["links"@] == a[2],
        a.len() > 3 ==> m["props"@] == a[3],
        a.len() > 4 ==> m["tags"@] == a[4],
        a.len() > 5 ==> m["unextracted"@] == a[5],
    ensures
        a.len() <= 6 ==> extraction(Some(ok_envelope(Json::Arr(a)))) == extraction(
            Some(ok_envelope(Json::Obj(m))),
        ),
        a.len() > 6 ==> extraction(Some(ok_envelope(Json::Arr(a)))) == nothing_extracted(true),
        !(j is Arr) && !(j is Obj) ==> extraction(Some(ok_envelope(j))) == nothing_extracted(true),
{
    reveal_strlit("ok");
    reveal_strlit("result");
    assert("ok"@.len() != "result"@.len());
    assert(member(ok_envelope(Json::Arr(a)), "result"@) == Some(Json::Arr(a)));
    assert(member(ok_envelope(Json::Obj(m)), "result"@) == Some(Json::Obj(m)));
    assert(member(ok_envelope(j), "result"@) == Some(j));
}

/// Bytes are read from a content app's reply only if its result holds their base64 text.
pub proof fn law_only_what_was_sent_is_read(reply: Option<Json>, bytes: Seq<u8>)
    requires
        decodes(content_text(reply), Some(bytes)),
    ensures
        reply matches Some(Json::Obj(m)) && m.contains_key("result"@) && m["result"@] is Obj
            && m["result"@]->Obj_0.contains_key("base64"@) && m["result"@]->Obj_0["base64"@]
            == Json::Str(b64(bytes)),
{
}

} // verus!
