//! JSON values: what they hold, and the calls into `serde_json`.
//!
//! [`serde_json::Value`] and [`serde_json::Map`] are opaque to the verifier.
//! [`json`] and [`members`] name what they hold, and each call that reads or
//! changes one of them is stated over those two names. `serde_json` is built
//! with `preserve_order`, so an object keeps its members in the order in which
//! they were first put into it.
use serde_json::{Map as JsonMap, Value};
use vstd::prelude::*;

use crate::text::{digits, same};

verus! {

// ---------------------------------------------------------------------------
// The model
// ---------------------------------------------------------------------------

/// A JSON number: an integer, or a number with a fraction or an exponent by
/// the text that prints it.
pub ghost enum Num {
    Int(int),
    Float(Seq<char>),
}

/// What a JSON value holds.
pub ghost enum Json {
    Null,
    Bool(bool),
    Number(Num),
    Str(Seq<char>),
    Array(Seq<Json>),
    Object(Members),
}

/// The members of a JSON object, in their order.
pub type Members = Seq<(Seq<char>, Json)>;

/// The position of the member with key `k`, or the number of members where
/// there is none.
pub open spec fn key_index(m: Members, k: Seq<char>) -> int
    decreases m.len(),
{
    if m.len() == 0 {
        0
    } else if m[0].0 == k {
        0
    } else {
        1 + key_index(m.skip(1), k)
    }
}

/// Whether there is a member with key `k`.
pub open spec fn has_key(m: Members, k: Seq<char>) -> bool {
    key_index(m, k) < m.len()
}

/// The value under key `k`.
pub open spec fn lookup(m: Members, k: Seq<char>) -> Option<Json> {
    if has_key(m, k) {
        Some(m[key_index(m, k)].1)
    } else {
        None
    }
}

/// `m` with `v` under key `k`: in the place of the member with that key, or
/// behind all others.
pub open spec fn put(m: Members, k: Seq<char>, v: Json) -> Members {
    if has_key(m, k) {
        m.update(key_index(m, k), (k, v))
    } else {
        m.push((k, v))
    }
}

/// `m` without the member with key `k`, whose place the last member takes.
pub open spec fn swap_dropped(m: Members, k: Seq<char>) -> Members {
    if has_key(m, k) {
        m.update(key_index(m, k), m.last()).drop_last()
    } else {
        m
    }
}

/// Whether no two members have the same key.
pub open spec fn distinct_keys(m: Members) -> bool {
    forall|i: int, j: int| 0 <= i < j < m.len() ==> (#[trigger] m[i]).0 != (#[trigger] m[j]).0
}

/// The text under key `k`, where there is one.
pub open spec fn text_field(m: Members, k: Seq<char>) -> Option<Seq<char>> {
    match lookup(m, k) {
        Some(Json::Str(s)) => Some(s),
        _ => None,
    }
}

/// The text under key `k`, where there is one and it is not empty.
pub open spec fn full_text_field(m: Members, k: Seq<char>) -> Option<Seq<char>> {
    crate::text::nonempty_view(text_field(m, k))
}

/// Whether `true` stands under key `k`.
pub open spec fn flag_field(m: Members, k: Seq<char>) -> bool {
    lookup(m, k) == Some(Json::Bool(true))
}

/// The list under key `k`, where there is one.
pub open spec fn list_field(m: Members, k: Seq<char>) -> Option<Seq<Json>> {
    match lookup(m, k) {
        Some(Json::Array(s)) => Some(s),
        _ => None,
    }
}

/// The object under key `k`, where there is one.
pub open spec fn object_field(m: Members, k: Seq<char>) -> Option<Members> {
    match lookup(m, k) {
        Some(Json::Object(s)) => Some(s),
        _ => None,
    }
}

/// Whether a value has no number with a fraction or an exponent, and is nested
/// at most `depth` deep.
pub open spec fn is_plain(j: Json, depth: nat) -> bool
    decreases j,
{
    match j {
        Json::Number(Num::Float(_)) => false,
        Json::Array(s) => depth > 0 && forall|i: int|
            0 <= i < s.len() ==> is_plain(#[trigger] s[i], (depth - 1) as nat),
        Json::Object(m) => depth > 0 && forall|i: int|
            0 <= i < m.len() ==> is_plain((#[trigger] m[i]).1, (depth - 1) as nat),
        _ => true,
    }
}

// ---------------------------------------------------------------------------
// The compact text of a value
// ---------------------------------------------------------------------------

/// The hexadecimal digit for `d` below sixteen.
pub open spec fn hex_char(d: int) -> char {
    if d < 10 {
        (48 + d) as char
    } else {
        (87 + d) as char
    }
}

/// How a character stands in a JSON string. Quotes, backslashes and control
/// characters are escaped.
pub open spec fn escaped_char(c: char) -> Seq<char> {
    let n = c as u32;
    if c == '"' || c == '\\' {
        seq!['\\', c]
    } else if n == 8 {
        seq!['\\', 'b']
    } else if n == 9 {
        seq!['\\', 't']
    } else if n == 10 {
        seq!['\\', 'n']
    } else if n == 12 {
        seq!['\\', 'f']
    } else if n == 13 {
        seq!['\\', 'r']
    } else if n < 32 {
        seq!['\\', 'u', '0', '0', hex_char(n as int / 16), hex_char(n as int % 16)]
    } else {
        seq![c]
    }
}

/// How a text stands in a JSON string, between the quotes.
pub open spec fn escaped(s: Seq<char>) -> Seq<char>
    decreases s.len(),
{
    if s.len() == 0 {
        Seq::empty()
    } else {
        escaped_char(s[0]) + escaped(s.skip(1))
    }
}

/// The JSON string of a text.
pub open spec fn quoted(s: Seq<char>) -> Seq<char> {
    seq!['"'] + escaped(s) + seq!['"']
}

/// The text of a value in the compact form, without white space between its
/// parts.
#[verifier::opaque]
pub open spec fn printed(j: Json) -> Seq<char>
    decreases j, 0int,
{
    match j {
        Json::Null => "null"@,
        Json::Bool(b) => if b {
            "true"@
        } else {
            "false"@
        },
        Json::Number(Num::Int(i)) => if i < 0 {
            seq!['-'] + digits((-i) as nat)
        } else {
            digits(i as nat)
        },
        Json::Number(Num::Float(text)) => text,
        Json::Str(s) => quoted(s),
        Json::Array(s) => seq!['['] + printed_items(s, s.len() as int) + seq![']'],
        Json::Object(m) => seq!['{'] + printed_members(m, m.len() as int) + seq!['}'],
    }
}

/// The texts of the first `n` elements of an array, with commas between them.
pub open spec fn printed_items(s: Seq<Json>, n: int) -> Seq<char>
    decreases s, n,
{
    if n <= 0 || n > s.len() {
        Seq::empty()
    } else {
        printed_items(s, n - 1) + comma_before(n) + printed(s[n - 1])
    }
}

/// The texts of the first `n` members of an object, with commas between them.
pub open spec fn printed_members(m: Members, n: int) -> Seq<char>
    decreases m, n,
{
    if n <= 0 || n > m.len() {
        Seq::empty()
    } else {
        printed_members(m, n - 1) + comma_before(n) + quoted(m[n - 1].0) + seq![':'] + printed(
            m[n - 1].1,
        )
    }
}

/// What stands before the `n`th element: a comma, but for the first.
pub open spec fn comma_before(n: int) -> Seq<char> {
    if n > 1 {
        seq![',']
    } else {
        Seq::empty()
    }
}

/// Whether a text is read as a value, and each member of an object by itself
/// too.
pub open spec fn reads_back(text: Seq<char>, j: Json) -> bool {
    &&& parsed(text) == Some(j)
    &&& j matches Json::Object(m) ==> forall|i: int|
        0 <= i < m.len() ==> parsed(printed((#[trigger] m[i]).1)) == Some(m[i].1)
}

// ---------------------------------------------------------------------------
// The outside types and what they hold
// ---------------------------------------------------------------------------

/// `serde_json::Value`.
#[verifier::external_type_specification]
#[verifier::external_body]
pub struct ExValue(serde_json::Value);

/// `serde_json::Map`.
#[verifier::external_type_specification]
#[verifier::external_body]
#[verifier::reject_recursive_types(K)]
#[verifier::reject_recursive_types(V)]
pub struct ExMap<K, V>(serde_json::Map<K, V>);

/// What a `serde_json::Value` holds.
pub uninterp spec fn json(v: serde_json::Value) -> Json;

/// The members that a `serde_json::Map` holds, in the order in which it
/// yields them.
pub uninterp spec fn members(m: serde_json::Map<String, serde_json::Value>) -> Seq<
    (Seq<char>, Json),
>;

/// What `serde_json::from_str` makes of a text: `None` where it reports an
/// error.
pub uninterp spec fn parsed(text: Seq<char>) -> Option<Json>;

/// What `serde_json::from_slice` makes of bytes: `None` where it reports an
/// error.
pub uninterp spec fn parsed_bytes(bytes: Seq<u8>) -> Option<Json>;

/// What each value of a list holds.
pub open spec fn jsons(v: Seq<Value>) -> Seq<Json> {
    Seq::new(v.len(), |i: int| json(v[i]))
}

/// The members of each object of a list.
pub open spec fn member_lists(v: Seq<JsonMap<String, Value>>) -> Seq<Members> {
    Seq::new(v.len(), |i: int| members(v[i]))
}

/// What an optional value holds.
pub open spec fn json_view(v: Option<Value>) -> Option<Json> {
    match v {
        Some(x) => Some(json(x)),
        None => None,
    }
}

/// What an optional borrowed value holds.
pub open spec fn json_ref_view(v: Option<&Value>) -> Option<Json> {
    match v {
        Some(x) => Some(json(*x)),
        None => None,
    }
}

// ---------------------------------------------------------------------------
// Calls on values
// ---------------------------------------------------------------------------

/// `Value::as_str` gives the text of a string value and `None` for any other.
pub assume_specification[ serde_json::Value::as_str ](v: &serde_json::Value) -> (r: Option<&str>)
    ensures
        match json(*v) {
            Json::Str(s) => r is Some && r->0@ == s,
            _ => r is None,
        },
;

/// `Value::as_bool` gives the truth value of a boolean and `None` for any
/// other value.
pub assume_specification[ serde_json::Value::as_bool ](v: &serde_json::Value) -> (r: Option<bool>)
    ensures
        match json(*v) {
            Json::Bool(b) => r == Some(b),
            _ => r is None,
        },
;

/// `Value::as_i64` gives the integer that a number holds where it is an `i64`,
/// and `None` for any other value.
pub assume_specification[ serde_json::Value::as_i64 ](v: &serde_json::Value) -> (r: Option<i64>)
    ensures
        match json(*v) {
            Json::Number(Num::Int(i)) => match r {
                Some(n) => n == i,
                None => !(i64::MIN <= i <= i64::MAX),
            },
            _ => r is None,
        },
;

/// `Value::is_null` tells the null value from any other.
pub assume_specification[ serde_json::Value::is_null ](v: &serde_json::Value) -> (r: bool)
    ensures
        r == (json(*v) is Null),
;

/// `Value::as_array` gives the elements of an array and `None` for any other
/// value.
pub assume_specification[ serde_json::Value::as_array ](v: &serde_json::Value) -> (r: Option<
    &Vec<serde_json::Value>,
>)
    ensures
        match json(*v) {
            Json::Array(s) => r is Some && jsons(r->0@) == s,
            _ => r is None,
        },
;

/// `Value::as_object` gives the map of an object and `None` for any other
/// value.
pub assume_specification[ serde_json::Value::as_object ](v: &serde_json::Value) -> (r: Option<
    &serde_json::Map<String, serde_json::Value>,
>)
    ensures
        match json(*v) {
            Json::Object(s) => r is Some && members(*r->0) == s,
            _ => r is None,
        },
;

/// `Value::clone` gives a value that holds the same.
pub assume_specification[ <serde_json::Value as Clone>::clone ](v: &serde_json::Value) -> (r:
    serde_json::Value)
    ensures
        json(r) == json(*v),
;

/// `Value::Null`.
#[verifier::external_body]
pub(crate) fn null_value() -> (r: Value)
    ensures
        json(r) == Json::Null,
{
    Value::Null
}

/// `Value::Bool` of a truth value.
#[verifier::external_body]
pub(crate) fn bool_value(b: bool) -> (r: Value)
    ensures
        json(r) == Json::Bool(b),
{
    Value::Bool(b)
}

/// `Value::from` of an integer: the number that holds it.
#[verifier::external_body]
pub(crate) fn int_value(n: i64) -> (r: Value)
    ensures
        json(r) == Json::Number(Num::Int(n as int)),
{
    Value::from(n)
}

/// `Value::String` of a text.
#[verifier::external_body]
pub(crate) fn string_value(s: String) -> (r: Value)
    ensures
        json(r) == Json::Str(s@),
{
    Value::String(s)
}

/// `Value::Array` of a list of values.
#[verifier::external_body]
pub(crate) fn array_value(v: Vec<Value>) -> (r: Value)
    ensures
        json(r) == Json::Array(jsons(v@)),
{
    Value::Array(v)
}

/// `Value::Object` of a map.
#[verifier::external_body]
pub(crate) fn object_value(m: JsonMap<String, Value>) -> (r: Value)
    ensures
        json(r) == Json::Object(members(m)),
{
    Value::Object(m)
}

// ---------------------------------------------------------------------------
// Calls on maps
// ---------------------------------------------------------------------------

/// `Map::new` makes a map without members.
pub assume_specification[ serde_json::Map::<String, serde_json::Value>::new ]() -> (r:
    serde_json::Map<String, serde_json::Value>)
    ensures
        members(r) == Seq::<(Seq<char>, Json)>::empty(),
;

/// `Map::clone` gives a map with the same members in the same order.
pub assume_specification[ <serde_json::Map<String, serde_json::Value> as Clone>::clone ](
    m: &serde_json::Map<String, serde_json::Value>,
) -> (r: serde_json::Map<String, serde_json::Value>)
    ensures
        members(r) == members(*m),
;

/// `Map::insert` replaces the value under a key that is there, in its place,
/// and puts a new key behind all others.
pub assume_specification[ serde_json::Map::<String, serde_json::Value>::insert ](
    m: &mut serde_json::Map<String, serde_json::Value>,
    k: String,
    v: serde_json::Value,
) -> (r: Option<serde_json::Value>)
    ensures
        members(*final(m)) == put(members(*old(m)), k@, json(v)),
        match r {
            Some(was) => lookup(members(*old(m)), k@) == Some(json(was)),
            None => lookup(members(*old(m)), k@) is None,
        },
;

/// `Map::get` gives the value under a key.
#[verifier::external_body]
pub(crate) fn get<'a>(m: &'a JsonMap<String, Value>, k: &str) -> (r: Option<&'a Value>)
    ensures
        json_ref_view(r) == lookup(members(*m), k@),
{
    m.get(k)
}

/// `Map::remove` takes the member with a key out. The last member takes its
/// place.
#[verifier::external_body]
pub(crate) fn remove(m: &mut JsonMap<String, Value>, k: &str) -> (r: Option<Value>)
    ensures
        members(*final(m)) == swap_dropped(members(*old(m)), k@),
        json_view(r) == lookup(members(*old(m)), k@),
{
    m.remove(k)
}

/// `Map::iter` yields the members in their order, and no key twice.
#[verifier::external_body]
pub(crate) fn pairs<'a>(m: &'a JsonMap<String, Value>) -> (r: Vec<(&'a String, &'a Value)>)
    ensures
        r@.len() == members(*m).len(),
        forall|i: int|
            0 <= i < r@.len() ==> (#[trigger] r@[i]).0@ == members(*m)[i].0 && json(*r@[i].1)
                == members(*m)[i].1,
        forall|i: int, j: int|
            0 <= i < j < r@.len() ==> (#[trigger] r@[i]).0@ != (#[trigger] r@[j]).0@,
{
    m.iter().collect()
}

// ---------------------------------------------------------------------------
// Reading and printing
// ---------------------------------------------------------------------------

/// `serde_json::from_str` into a `Value` gives a value, or an error where the
/// text is no JSON text.
#[verifier::external_body]
pub(crate) fn read_value(text: &str) -> (r: Result<Value, serde_json::Error>)
    ensures
        match r {
            Ok(v) => parsed(text@) == Some(json(v)),
            Err(_) => parsed(text@) is None,
        },
{
    serde_json::from_str::<Value>(text)
}

/// The value that a JSON text stands for.
pub fn parse(text: &str) -> (r: Option<Value>)
    ensures
        json_view(r) == parsed(text@),
{
    match read_value(text) {
        Ok(v) => Some(v),
        Err(_) => None,
    }
}

/// `serde_json::from_slice` into a value, as [`parsed_bytes`] names it. Bytes
/// that encode a text in UTF-8 are read as that text is.
#[verifier::external_body]
pub(crate) fn parse_bytes(bytes: &[u8]) -> (r: Option<Value>)
    ensures
        json_view(r) == parsed_bytes(bytes@),
        vstd::utf8::valid_utf8(bytes@) ==> json_view(r) == parsed(
            vstd::utf8::decode_utf8(bytes@),
        ),
{
    serde_json::from_slice::<Value>(bytes).ok()
}

/// `serde_json::to_string` of a value: its compact text, [`printed`]. It never
/// holds a line break. It is read back as the same value, and so is each
/// member of an object, where there is no number with a fraction and the
/// nesting is not too deep.
#[verifier::external_body]
pub(crate) fn print(v: &Value) -> (r: String)
    ensures
        r@ == printed(json(*v)),
        !r@.contains('\n'),
        is_plain(json(*v), 100) ==> reads_back(r@, json(*v)),
{
    serde_json::to_string(v).unwrap_or_default()
}

/// The text of an object stands in braces.
pub proof fn lemma_object_in_braces(m: Members)
    ensures
        printed(Json::Object(m)).len() >= 2,
        printed(Json::Object(m))[0] == '{',
        printed(Json::Object(m)).last() == '}',
{
    reveal(printed);
    let inner = printed_members(m, m.len() as int);
    assert(printed(Json::Object(m)) == seq!['{'] + inner + seq!['}']);
}

// ---------------------------------------------------------------------------
// Reading fields
// ---------------------------------------------------------------------------

/// The text under key `k`, where there is one.
pub fn get_text<'a>(m: &'a JsonMap<String, Value>, k: &str) -> (r: Option<&'a str>)
    ensures
        crate::text::str_view(r) == text_field(members(*m), k@),
{
    match get(m, k) {
        Some(v) => v.as_str(),
        None => None,
    }
}

/// The text under key `k`, where there is one and it is not empty.
pub fn get_full_text<'a>(m: &'a JsonMap<String, Value>, k: &str) -> (r: Option<&'a str>)
    ensures
        crate::text::str_view(r) == full_text_field(members(*m), k@),
{
    match get_text(m, k) {
        Some(s) => {
            if same(s, "") {
                proof {
                    reveal_strlit("");
                }
                None
            } else {
                proof {
                    reveal_strlit("");
                    assert(s@.len() > 0) by {
                        if s@.len() == 0 {
                            assert(s@ =~= ""@);
                        }
                    }
                }
                Some(s)
            }
        },
        None => None,
    }
}

/// Whether `true` stands under key `k`.
pub fn get_flag(m: &JsonMap<String, Value>, k: &str) -> (r: bool)
    ensures
        r == flag_field(members(*m), k@),
{
    match get(m, k) {
        Some(v) => match v.as_bool() {
            Some(b) => b,
            None => false,
        },
        None => false,
    }
}

/// Whether the text under key `k` is `s`.
pub fn field_is(m: &JsonMap<String, Value>, k: &str, s: &str) -> (r: bool)
    ensures
        r == (text_field(members(*m), k@) == Some(s@)),
{
    match get_text(m, k) {
        Some(t) => same(t, s),
        None => false,
    }
}

/// The elements of the list under key `k`, where there is one.
pub fn get_list<'a>(m: &'a JsonMap<String, Value>, k: &str) -> (r: Option<&'a Vec<Value>>)
    ensures
        match list_field(members(*m), k@) {
            Some(s) => r is Some && jsons(r->0@) == s,
            None => r is None,
        },
{
    match get(m, k) {
        Some(v) => v.as_array(),
        None => None,
    }
}

/// The object under key `k`, where there is one.
pub fn get_object<'a>(m: &'a JsonMap<String, Value>, k: &str) -> (r: Option<
    &'a JsonMap<String, Value>,
>)
    ensures
        match object_field(members(*m), k@) {
            Some(s) => r is Some && members(*r->0) == s,
            None => r is None,
        },
{
    match get(m, k) {
        Some(v) => v.as_object(),
        None => None,
    }
}

/// What follows from a key's position: it is the first that has the key.
pub proof fn lemma_key_index(m: Members, k: Seq<char>)
    ensures
        0 <= key_index(m, k) <= m.len(),
        has_key(m, k) ==> m[key_index(m, k)].0 == k,
        forall|i: int| 0 <= i < key_index(m, k) ==> (#[trigger] m[i]).0 != k,
        has_key(m, k) <==> exists|i: int| 0 <= i < m.len() && (#[trigger] m[i]).0 == k,
    decreases m.len(),
{
    if m.len() > 0 && m[0].0 != k {
        let rest = m.skip(1);
        lemma_key_index(rest, k);
        assert forall|i: int| 0 <= i < key_index(m, k) implies (#[trigger] m[i]).0 != k by {
            if i > 0 {
                assert(m[i] == rest[i - 1]);
            }
        }
        if has_key(rest, k) {
            assert(rest[key_index(rest, k)] == m[key_index(m, k)]);
        }
        assert(has_key(m, k) <==> has_key(rest, k));
        if exists|i: int| 0 <= i < m.len() && (#[trigger] m[i]).0 == k {
            let i = choose|i: int| 0 <= i < m.len() && (#[trigger] m[i]).0 == k;
            assert(rest[i - 1] == m[i]);
        }
    }
}

/// A value put under a key is what a lookup of the key then gives, and no
/// other key is touched.
pub proof fn law_lookup_after_put(m: Members, k: Seq<char>, v: Json, other: Seq<char>)
    ensures
        lookup(put(m, k, v), k) == Some(v),
        other != k ==> lookup(put(m, k, v), other) == lookup(m, other),
        distinct_keys(m) ==> distinct_keys(put(m, k, v)),
{
    let n = put(m, k, v);
    lemma_key_index(m, k);
    lemma_key_index(n, k);
    lemma_key_index(m, other);
    lemma_key_index(n, other);
    if has_key(m, k) {
        assert(n[key_index(m, k)].0 == k);
        assert(forall|i: int| 0 <= i < m.len() ==> (#[trigger] n[i]).0 == m[i].0);
        if key_index(n, k) < key_index(m, k) {
            assert(n[key_index(n, k)].0 == m[key_index(n, k)].0);
        }
    } else {
        assert(n[m.len() as int].0 == k);
        assert(forall|i: int| 0 <= i < m.len() ==> (#[trigger] n[i]) == m[i]);
        if key_index(n, k) < m.len() {
            assert(n[key_index(n, k)] == m[key_index(n, k)]);
        }
    }
    if other != k {
        assert(forall|i: int| 0 <= i < m.len() ==> (#[trigger] n[i]).0 == m[i].0);
        if has_key(m, other) {
            let a = key_index(m, other);
            assert(n[a].0 == other);
            let b = key_index(n, other);
            if b < a {
                assert(n[b].0 == m[b].0);
            }
            if a < b {
                assert(n[a].0 == m[a].0);
            }
        } else if has_key(n, other) {
            let b = key_index(n, other);
            if b < m.len() {
                assert(n[b].0 == m[b].0);
            }
        }
    }
    if distinct_keys(m) {
        assert forall|i: int, j: int| 0 <= i < j < n.len() implies (#[trigger] n[i]).0 != (
        #[trigger] n[j]).0 by {
            if has_key(m, k) {
                assert(n[i].0 == m[i].0);
                assert(n[j].0 == m[j].0);
            } else {
                assert(n[i] == m[i]);
                if j < m.len() {
                    assert(n[j] == m[j]);
                }
            }
        }
    }
}

/// A key that was taken out is not found any more, and every other key is
/// found with its value, where no two members have the same key.
pub proof fn law_lookup_after_drop(m: Members, k: Seq<char>, other: Seq<char>)
    requires
        distinct_keys(m),
    ensures
        lookup(swap_dropped(m, k), k) is None,
        other != k ==> lookup(swap_dropped(m, k), other) == lookup(m, other),
        distinct_keys(swap_dropped(m, k)),
{
    let n = swap_dropped(m, k);
    lemma_key_index(m, k);
    lemma_key_index(n, k);
    lemma_key_index(m, other);
    lemma_key_index(n, other);
    if has_key(m, k) {
        let at = key_index(m, k);
        let last = m.len() - 1;
        assert(forall|i: int|
            0 <= i < n.len() ==> (#[trigger] n[i]) == (if i == at {
                m[last]
            } else {
                m[i]
            }));
        if has_key(n, k) {
            let b = key_index(n, k);
            assert(n[b].0 == k);
            if b == at {
                assert(m[at].0 != m[last].0);
            } else if b < at {
                assert(m[b].0 != m[at].0);
            } else {
                assert(m[at].0 != m[b].0);
            }
        }
        assert forall|i: int, j: int| 0 <= i < j < n.len() implies (#[trigger] n[i]).0 != (
        #[trigger] n[j]).0 by {
            if i == at {
                assert(m[j].0 != m[last].0);
            } else if j == at {
                assert(m[i].0 != m[last].0);
            } else {
                assert(m[i].0 != m[j].0);
            }
        }
        if other != k {
            if has_key(m, other) {
                let a = key_index(m, other);
                let c = if a == last {
                    at
                } else {
                    a
                };
                assert(n[c] == m[a]);
                let b = key_index(n, other);
                if b < c {
                    assert(n[b].0 != n[c].0);
                } else if c < b {
                    assert(n[c].0 != n[b].0);
                }
            } else if has_key(n, other) {
                let b = key_index(n, other);
                if b == at {
                    assert(m[last].0 == other);
                } else {
                    assert(m[b].0 == other);
                }
            }
        }
    }
}

/// The value under a key is that of the first member with the key.
pub proof fn law_lookup_is_the_first(m: Members, k: Seq<char>, i: int)
    requires
        0 <= i <= m.len(),
        i < m.len() ==> m[i].0 == k,
        forall|j: int| 0 <= j < i ==> (#[trigger] m[j]).0 != k,
    ensures
        lookup(m, k) == if i < m.len() {
            Some(m[i].1)
        } else {
            None
        },
{
    lemma_key_index(m, k);
    let at = key_index(m, k);
    if at < i {
        assert(m[at].0 != k);
    }
    if i < at {
        assert(m[i].0 != k);
    }
}

/// A field is read by its kind: a text, `true`, a list or an object under its
/// key, and nothing where another kind of value stands there.
pub proof fn law_fields_by_their_kind(m: Members, k: Seq<char>)
    ensures
        match lookup(m, k) {
            Some(Json::Str(s)) => text_field(m, k) == Some(s) && full_text_field(m, k) == if s.len()
                > 0 {
                Some(s)
            } else {
                None
            },
            _ => text_field(m, k) is None && full_text_field(m, k) is None,
        },
        match lookup(m, k) {
            Some(Json::Bool(b)) => flag_field(m, k) == b,
            _ => !flag_field(m, k),
        },
        match lookup(m, k) {
            Some(Json::Array(s)) => list_field(m, k) == Some(s),
            _ => list_field(m, k) is None,
        },
        match lookup(m, k) {
            Some(Json::Object(o)) => object_field(m, k) == Some(o),
            _ => object_field(m, k) is None,
        },
{
}

} // verus!
