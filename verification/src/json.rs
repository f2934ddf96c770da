//! JSON values as the DSL engine sees them, with the compact text
//! rendering that serde_json produces.
//!
//! Numbers are held as their JSON text (`42`, `-1.5`, `1e100`): the
//! library reads a number only to render it, to test it for zero and to
//! take it as an unsigned integer.
use vstd::prelude::*;
use crate::text::{chars_of, string_of, char_from_ascii};

verus! {

/// A JSON number, held as its JSON text.
#[derive(Debug, Clone)]
pub struct JsonNumber {
    pub repr: String,
}

/// A JSON value. Object members keep their order; keys are distinct.
#[derive(Debug)]
pub enum JsonValue {
    Null,
    Bool(bool),
    Number(JsonNumber),
    String(String),
    Array(Vec<JsonValue>),
    Object(Vec<(String, JsonValue)>),
}

/// `serde_json`'s own value type, carried through the decoding wrappers
/// only.
#[verifier::external_type_specification]
#[verifier::external_body]
pub struct ExSerdeJsonValue(serde_json::Value);

/// What `serde_json::from_slice::<serde_json::Value>` makes of `bytes`:
/// the decoded value, or its error message. The decoder is
/// deterministic, so this is a function of the bytes alone.
pub uninterp spec fn json_parse_result(bytes: Seq<u8>) -> Result<JsonValue, Seq<char>>;

/// What `serde_json::from_str::<serde_json::Value>` makes of `text`.
pub uninterp spec fn json_str_parse_result(text: Seq<char>) -> Result<JsonValue, Seq<char>>;

/// A decoded `serde_json` value as a `JsonValue`: each node moved to its
/// counterpart, numbers as their `serde_json` text, object members in the
/// decoded map's order.
#[verifier::external_body]
fn from_serde(v: serde_json::Value) -> JsonValue {
    match v {
        serde_json::Value::Null => JsonValue::Null,
        serde_json::Value::Bool(b) => JsonValue::Bool(b),
        serde_json::Value::Number(n) => JsonValue::Number(JsonNumber { repr: n.to_string() }),
        serde_json::Value::String(s) => JsonValue::String(s),
        serde_json::Value::Array(a) => JsonValue::Array(a.into_iter().map(from_serde).collect()),
        serde_json::Value::Object(m) => JsonValue::Object(m.into_iter().map(|(k, x)| (k, from_serde(x))).collect()),
    }
}

/// `serde_json::from_slice::<serde_json::Value>`: decode JSON bytes. The
/// contract claims only that the outcome is the named result of the
/// bytes (`json_parse_result`); the error is the decoder's message.
#[verifier::external_body]
pub(crate) fn parse_json_bytes(bytes: &[u8]) -> (r: Result<JsonValue, String>)
    ensures
        match r {
            Ok(v) => json_parse_result(bytes@) == Ok::<JsonValue, Seq<char>>(v),
            Err(e) => json_parse_result(bytes@) == Err::<JsonValue, Seq<char>>(e@),
        },
{
    match serde_json::from_slice::<serde_json::Value>(bytes) {
        Ok(v) => Ok(from_serde(v)),
        Err(e) => Err(e.to_string()),
    }
}

/// `serde_json::from_str::<serde_json::Value>`: decode JSON text. The
/// contract claims only that the outcome is the named result of the
/// text (`json_str_parse_result`).
#[verifier::external_body]
pub(crate) fn parse_json_str(text: &str) -> (r: Result<JsonValue, String>)
    ensures
        match r {
            Ok(v) => json_str_parse_result(text@) == Ok::<JsonValue, Seq<char>>(v),
            Err(e) => json_str_parse_result(text@) == Err::<JsonValue, Seq<char>>(e@),
        },
{
    match serde_json::from_str::<serde_json::Value>(text) {
        Ok(v) => Ok(from_serde(v)),
        Err(e) => Err(e.to_string()),
    }
}

/// Characters before the first exponent marker.
pub open spec fn before_exponent(t: Seq<char>, i: int) -> bool {
    forall|j: int| 0 <= j <= i ==> t[j] != 'e' && t[j] != 'E'
}

/// The number's value is zero: no non-zero digit in the mantissa.
pub open spec fn number_is_zero(t: Seq<char>) -> bool {
    forall|i: int| 0 <= i < t.len() && before_exponent(t, i) ==> !('1' <= #[trigger] t[i] && t[i] <= '9')
}

pub open spec fn is_digit(c: char) -> bool {
    '0' <= c && c <= '9'
}

/// Value of a string of decimal digits.
pub open spec fn digits_value(s: Seq<char>) -> nat
    decreases s.len(),
{
    if s.len() == 0 {
        0
    } else {
        digits_value(s.drop_last()) * 10 + ((s.last() as u32) - 48) as nat
    }
}

/// The number as an unsigned 64-bit integer: only plain non-negative
/// integers (digits only) that fit.
pub open spec fn number_as_u64(t: Seq<char>) -> Option<u64> {
    if t.len() > 0 && (forall|i: int| 0 <= i < t.len() ==> is_digit(#[trigger] t[i])) && digits_value(t) <= u64::MAX {
        Some(digits_value(t) as u64)
    } else {
        None
    }
}

/// JavaScript truthiness (ECMAScript ToBoolean) of a JSON value:
/// `null`, `false`, zero and `""` are falsy; every other value, empty
/// arrays and objects included, is truthy.
pub open spec fn spec_truthy(v: JsonValue) -> bool {
    match v {
        JsonValue::Null => false,
        JsonValue::Bool(b) => b,
        JsonValue::Number(n) => !number_is_zero(n.repr@),
        JsonValue::String(s) => s@.len() > 0,
        JsonValue::Array(_) => true,
        JsonValue::Object(_) => true,
    }
}

/// Hex digit (lower case) of `d < 16`.
pub open spec fn hex_digit(d: nat) -> char {
    if d < 10 { ((d + 48) as u32) as char } else { ((d + 87) as u32) as char }
}

/// A JSON value as a mathematical value: texts for strings and numbers,
/// sequences for arrays and member lists.
pub enum JsonView {
    Null,
    Bool(bool),
    Number(Seq<char>),
    Str(Seq<char>),
    Array(Seq<JsonView>),
    Object(Seq<(Seq<char>, JsonView)>),
}

pub open spec fn json_view(v: JsonValue) -> JsonView
    decreases v, 1int,
{
    match v {
        JsonValue::Null => JsonView::Null,
        JsonValue::Bool(b) => JsonView::Bool(b),
        JsonValue::Number(n) => JsonView::Number(n.repr@),
        JsonValue::String(s) => JsonView::Str(s@),
        JsonValue::Array(items) => JsonView::Array(items_view(items@)),
        JsonValue::Object(members) => JsonView::Object(members_view(members@)),
    }
}

pub open spec fn items_view(items: Seq<JsonValue>) -> Seq<JsonView>
    decreases items, 0int,
{
    if items.len() == 0 {
        Seq::empty()
    } else {
        items_view(items.drop_last()).push(json_view(items.last()))
    }
}

pub open spec fn members_view(members: Seq<(String, JsonValue)>) -> Seq<(Seq<char>, JsonView)>
    decreases members, 0int,
{
    if members.len() == 0 {
        Seq::empty()
    } else {
        members_view(members.drop_last()).push((members.last().0@, json_view(members.last().1)))
    }
}

impl View for JsonValue {
    type V = JsonView;

    open spec fn view(&self) -> JsonView {
        json_view(*self)
    }
}

/// What `serde_json::to_string` renders for a value (compact text;
/// object members in the order of `serde_json`'s map). The renderer is
/// deterministic, so this is a function of the value alone.
pub uninterp spec fn serde_json_text(v: JsonView) -> Seq<char>;

/// Compact JSON text of a value.
pub open spec fn json_text(v: JsonValue) -> Seq<char> {
    serde_json_text(json_view(v))
}

/// JavaScript truthiness of a JSON value.
pub fn is_truthy(v: &JsonValue) -> (r: bool)
    ensures
        r == spec_truthy(*v),
{
    match v {
        JsonValue::Null => false,
        JsonValue::Bool(b) => *b,
        JsonValue::Number(n) => !repr_is_zero(n.repr.as_str()),
        JsonValue::String(s) => {
            let c = chars_of(s.as_str());
            c.len() > 0
        },
        JsonValue::Array(_) => true,
        JsonValue::Object(_) => true,
    }
}

fn repr_is_zero(t: &str) -> (r: bool)
    ensures
        r == number_is_zero(t@),
{
    let c = chars_of(t);
    let mut i: usize = 0;
    while i < c.len()
        invariant
            i <= c@.len(),
            c@ == t@,
            forall|j: int| 0 <= j < i ==> c@[j] != 'e' && c@[j] != 'E',
            forall|j: int| 0 <= j < i ==> !('1' <= #[trigger] c@[j] && c@[j] <= '9'),
        decreases c@.len() - i,
    {
        let ch = c[i];
        if ch == 'e' || ch == 'E' {
            proof {
                assert forall|k: int| 0 <= k < c@.len() && before_exponent(c@, k) implies !('1' <= #[trigger] c@[k] && c@[k] <= '9') by {
                    if k >= i { assert(!before_exponent(c@, k)) by { assert(c@[i as int] == 'e' || c@[i as int] == 'E'); } }
                }
            }
            return true;
        }
        if '1' <= ch && ch <= '9' {
            proof { assert(before_exponent(c@, i as int)); }
            return false;
        }
        i = i + 1;
    }
    true
}

/// The number as an unsigned integer, when it is a plain non-negative
/// integer that fits in 64 bits.
pub fn number_to_u64(n: &JsonNumber) -> (r: Option<u64>)
    ensures
        r == number_as_u64(n.repr@),
{
    let c = chars_of(n.repr.as_str());
    if c.len() == 0 {
        return None;
    }
    let mut acc: u64 = 0;
    let mut i: usize = 0;
    while i < c.len()
        invariant
            i <= c@.len(),
            c@ == n.repr@,
            c@.len() > 0,
            forall|j: int| 0 <= j < i ==> is_digit(#[trigger] c@[j]),
            acc as nat == digits_value(c@.subrange(0, i as int)),
        decreases c@.len() - i,
    {
        let ch = c[i];
        if !('0' <= ch && ch <= '9') {
            return None;
        }
        let d = (ch as u32 - 48) as u64;
        assert(c@.subrange(0, i + 1).drop_last() == c@.subrange(0, i as int));
        if acc > (u64::MAX - d) / 10 {
            proof {
                assert(digits_value(c@.subrange(0, i + 1)) == acc * 10 + d);
                assert(acc * 10 + d > u64::MAX) by (nonlinear_arith)
                    requires acc > (u64::MAX - d) / 10, d <= 9;
                if forall|j: int| 0 <= j < c@.len() ==> is_digit(#[trigger] c@[j]) {
                    lemma_digits_value_monotone(c@, i + 1);
                }
            }
            return None;
        }
        proof {
            assert(acc * 10 + d <= u64::MAX) by (nonlinear_arith)
                requires acc <= (u64::MAX - d) / 10, d <= 9;
        }
        acc = acc * 10 + d;
        i = i + 1;
    }
    proof { assert(c@.subrange(0, c@.len() as int) == c@); }
    Some(acc)
}

/// A longer digit string has at least the value of its prefix.
pub proof fn lemma_digits_value_monotone(s: Seq<char>, k: int)
    requires
        0 <= k <= s.len(),
        forall|j: int| 0 <= j < s.len() ==> is_digit(#[trigger] s[j]),
    ensures
        digits_value(s.subrange(0, k)) <= digits_value(s),
    decreases s.len() - k,
{
    if k < s.len() {
        lemma_digits_value_monotone(s, k + 1);
        assert(s.subrange(0, k + 1).drop_last() == s.subrange(0, k));
        assert(digits_value(s.subrange(0, k)) <= digits_value(s.subrange(0, k + 1))) by (nonlinear_arith)
            requires digits_value(s.subrange(0, k + 1)) == digits_value(s.subrange(0, k)) * 10 + ((s.subrange(0, k + 1).last() as u32) - 48) as nat;
    } else {
        assert(s.subrange(0, k) == s);
    }
}

pub(crate) fn hex_char(d: u32) -> (r: char)
    requires
        d < 16,
    ensures
        r == hex_digit(d as nat),
{
    if d < 10 { char_from_ascii(d + 48) } else { char_from_ascii(d + 87) }
}

/// A `JsonValue` as `serde_json`'s value: each node moved to its
/// counterpart; a number whose text `serde_json` does not read becomes
/// `null`; object members go into `serde_json`'s map.
#[verifier::external_body]
fn to_serde(v: &JsonValue) -> serde_json::Value {
    match v {
        JsonValue::Null => serde_json::Value::Null,
        JsonValue::Bool(b) => serde_json::Value::Bool(*b),
        JsonValue::Number(n) => n.repr.parse::<serde_json::Number>().map_or(serde_json::Value::Null, serde_json::Value::Number),
        JsonValue::String(s) => serde_json::Value::String(s.clone()),
        JsonValue::Array(a) => serde_json::Value::Array(a.iter().map(to_serde).collect()),
        JsonValue::Object(ms) => serde_json::Value::Object(ms.iter().map(|(k, x)| (k.clone(), to_serde(x))).collect()),
    }
}

/// `serde_json::to_string` of the value: the contract claims only that
/// the text is the named result of the value's view (`serde_json_text`).
/// Rendering a `serde_json` value does not fail; the empty text stands
/// for that case.
#[verifier::external_body]
fn serde_to_string(v: &JsonValue) -> (r: String)
    ensures
        r@ == serde_json_text(v@),
{
    serde_json::to_string(&to_serde(v)).unwrap_or_default()
}

/// The compact JSON text of a value, as the library writes it into
/// bodies, logs and messages.
pub fn to_json_string(v: &JsonValue) -> (r: String)
    ensures
        r@ == json_text(*v),
{
    serde_to_string(v)
}

/// `a` and `b` are the same JSON value (member lists equal member by
/// member, numbers by their text).
pub open spec fn same_json(a: JsonValue, b: JsonValue) -> bool
    decreases a, 1int,
{
    match (a, b) {
        (JsonValue::Null, JsonValue::Null) => true,
        (JsonValue::Bool(x), JsonValue::Bool(y)) => x == y,
        (JsonValue::Number(x), JsonValue::Number(y)) => x.repr@ == y.repr@,
        (JsonValue::String(x), JsonValue::String(y)) => x@ == y@,
        (JsonValue::Array(x), JsonValue::Array(y)) => same_items(x@, y@),
        (JsonValue::Object(x), JsonValue::Object(y)) => same_members(x@, y@),
        _ => false,
    }
}

pub open spec fn same_items(a: Seq<JsonValue>, b: Seq<JsonValue>) -> bool
    decreases a, 0int,
{
    a.len() == b.len() && (a.len() > 0 ==> same_items(a.drop_last(), b.drop_last()) && same_json(a.last(), b.last()))
}

pub open spec fn same_members(a: Seq<(String, JsonValue)>, b: Seq<(String, JsonValue)>) -> bool
    decreases a, 0int,
{
    a.len() == b.len() && (a.len() > 0 ==> same_members(a.drop_last(), b.drop_last())
        && a.last().0@ == b.last().0@ && same_json(a.last().1, b.last().1))
}

/// A copy of `v`.
pub fn json_clone(v: &JsonValue) -> (r: JsonValue)
    ensures
        same_json(r, *v),
    decreases *v,
{
    match v {
        JsonValue::Null => JsonValue::Null,
        JsonValue::Bool(b) => JsonValue::Bool(*b),
        JsonValue::Number(n) => JsonValue::Number(JsonNumber { repr: n.repr.clone() }),
        JsonValue::String(s) => JsonValue::String(s.clone()),
        JsonValue::Array(items) => {
            let mut out: Vec<JsonValue> = Vec::new();
            let mut i: usize = 0;
            while i < items.len()
                invariant
                    i <= items@.len(),
                    *v == JsonValue::Array(*items),
                    out@.len() == i,
                    same_items(out@, items@.take(i as int)),
                decreases items@.len() - i,
            {
                proof {
                    assert(decreases_to!(*v => v->Array_0));
                    assert(decreases_to!(v->Array_0 => v->Array_0[i as int]));
                }
                let c = json_clone(&items[i]);
                let ghost before = out@;
                out.push(c);
                proof {
                    assert(out@.drop_last() =~= before);
                    assert(items@.take(i + 1).drop_last() =~= items@.take(i as int));
                }
                i = i + 1;
            }
            proof { assert(items@.take(i as int) =~= items@); }
            JsonValue::Array(out)
        },
        JsonValue::Object(ms) => {
            let mut out: Vec<(String, JsonValue)> = Vec::new();
            let mut i: usize = 0;
            while i < ms.len()
                invariant
                    i <= ms@.len(),
                    *v == JsonValue::Object(*ms),
                    out@.len() == i,
                    same_members(out@, ms@.take(i as int)),
                decreases ms@.len() - i,
            {
                proof {
                    assert(decreases_to!(*v => v->Object_0));
                    assert(decreases_to!(v->Object_0 => v->Object_0[i as int]));
                    assert(decreases_to!(v->Object_0[i as int] => v->Object_0[i as int].1));
                }
                let c = json_clone(&ms[i].1);
                let ghost before = out@;
                out.push((ms[i].0.clone(), c));
                proof {
                    assert(out@.drop_last() =~= before);
                    assert(ms@.take(i + 1).drop_last() =~= ms@.take(i as int));
                }
                i = i + 1;
            }
            proof { assert(ms@.take(i as int) =~= ms@); }
            JsonValue::Object(out)
        },
    }
}

} // verus!
