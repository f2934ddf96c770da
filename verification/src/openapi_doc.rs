//! The JSON schemas of the OpenAPI document: a declared field's schema,
//! the object schema of a field list, a named parameter, and the
//! responses of an operation. Objects keep their members in key order,
//! as the serialised document does.
use vstd::prelude::*;
use crate::text::{chars_of, string_of, chars_eq, decimal, decimal_string, lemma_decimal_injective};
use crate::openapi::{spec_status_reason, status_reason, spec_effective_statuses, effective_statuses, spec_operation_id,
    operation_id, spec_summary, summary_from_key, strip_all_prefix, spec_openapi_method, is_openapi_method};
use crate::text::extend_chars;
use crate::lint::views;
use crate::json::{JsonValue, JsonNumber, same_json, json_clone};
use crate::steps::{first_key, key_lt, key_less, lemma_key_lt_irreflexive, lemma_key_lt_transitive, lemma_key_lt_total,
    sorted_members};
use crate::serve::{DslField, DeclarationStep, Allowlist, list_params, list_headers, list_body};
use crate::text::{upper_seq, to_upper_vec, lower_seq, to_lower_vec};

verus! {

/// The keys of a member list.
pub open spec fn keys_of(ms: Seq<(String, JsonValue)>) -> Seq<Seq<char>> {
    ms.map_values(|m: (String, JsonValue)| m.0@)
}

/// The value of member `k`.
#[verifier::opaque]
pub open spec fn member_value(ms: Seq<(String, JsonValue)>, k: Seq<char>) -> Option<JsonValue> {
    match first_key(ms, k) {
        Some(i) => Some(ms[i].1),
        None => None,
    }
}

/// With distinct keys, the member at `i` is the one looked up.
pub proof fn lemma_member_at(ms: Seq<(String, JsonValue)>, i: int)
    requires
        keys_of(ms).no_duplicates(),
        0 <= i < ms.len(),
    ensures
        member_value(ms, ms[i].0@) == Some(ms[i].1),
{
    reveal(member_value);
    let k = ms[i].0@;
    assert forall|j: int| 0 <= j < i implies (#[trigger] ms[j]).0@ != k by {
        assert(keys_of(ms)[j] != keys_of(ms)[i]);
    }
    let w = choose|w: int| 0 <= w < ms.len() && (#[trigger] ms[w]).0@ == k && forall|j: int| 0 <= j < w ==> (#[trigger] ms[j]).0@ != k;
    if w < i {
        assert(keys_of(ms)[w] == keys_of(ms)[i]);
    } else if w > i {
        assert(ms[i].0@ == k);
    }
}

/// A key that is not among the keys has no value.
pub proof fn lemma_member_absent(ms: Seq<(String, JsonValue)>, k: Seq<char>)
    requires
        !keys_of(ms).contains(k),
    ensures
        member_value(ms, k) is None,
{
    reveal(member_value);
    if exists|i: int| 0 <= i < ms.len() && (#[trigger] ms[i]).0@ == k {
        let i = choose|i: int| 0 <= i < ms.len() && (#[trigger] ms[i]).0@ == k;
        assert(keys_of(ms)[i] == k);
    }
}

pub open spec fn opt_key(present: bool, k: Seq<char>) -> Seq<Seq<char>> {
    if present { seq![k] } else { Seq::empty() }
}

/// A field's declared type, `string` when undeclared.
pub open spec fn type_of(f: DslField) -> Seq<char> {
    match f.field_type {
        Some(t) => t@,
        None => "string"@,
    }
}

/// The member keys of a field's schema, in order.
pub open spec fn schema_keys(f: DslField) -> Seq<Seq<char>> {
    opt_key(f.default is Some, "default"@) + opt_key(f.description is Some, "description"@)
        + opt_key(f.format is Some, "format"@) + opt_key(type_of(f) == "array"@, "items"@) + seq!["type"@]
}

pub open spec fn is_text(v: Option<JsonValue>, t: Seq<char>) -> bool {
    v matches Some(JsonValue::String(s)) && s@ == t
}

/// `r` is the schema of field `f`: `type` (default `string`), the
/// `format`, `description` and `default` it declares, and for arrays
/// the schema of its `items` (an empty object when undeclared).
pub open spec fn schema_ok(r: JsonValue, f: DslField) -> bool
    decreases f,
{
    &&& own_members_ok(r, f)
    &&& (type_of(f) == "array"@ ==> match f.items {
        Some(b) => match r {
            JsonValue::Object(ms) => match member_value(ms@, "items"@) {
                Some(it) => schema_ok(it, *b),
                None => false,
            },
            _ => false,
        },
        None => r matches JsonValue::Object(ms) && (member_value(ms@, "items"@) matches Some(JsonValue::Object(e)) && e@.len() == 0),
    })
}

/// The members of `f`'s schema other than `items`.
pub open spec fn own_members_ok(r: JsonValue, f: DslField) -> bool {
    match r {
        JsonValue::Object(ms) => {
            &&& keys_of(ms@) == schema_keys(f)
            &&& is_text(member_value(ms@, "type"@), type_of(f))
            &&& (f.format matches Some(x) ==> is_text(member_value(ms@, "format"@), x@))
            &&& (f.description matches Some(x) ==> is_text(member_value(ms@, "description"@), x@))
            &&& (f.default matches Some(d) ==> (member_value(ms@, "default"@) matches Some(x) && same_json(x, d)))
        },
        _ => false,
    }
}

proof fn lemma_schema_keys_distinct(f: DslField)
    ensures
        schema_keys(f).no_duplicates(),
{
    reveal_strlit("default");
    reveal_strlit("description");
    reveal_strlit("format");
    reveal_strlit("items");
    reveal_strlit("type");
    let s = schema_keys(f);
    assert forall|i: int, j: int| 0 <= i < s.len() && 0 <= j < s.len() && i != j implies s[i] != s[j] by {
        assert(s[i][0] != s[j][0] || s[i].len() != s[j].len() || s[i][1] != s[j][1]);
    }
}

/// The schema of a declared field.
pub fn field_schema(f: &DslField) -> (r: JsonValue)
    ensures
        schema_ok(r, *f),
    decreases *f,
{
    let t = match &f.field_type {
        Some(t) => t.clone(),
        None => "string".to_string(),
    };
    let is_array = chars_eq(chars_of(t.as_str()).as_slice(), chars_of("array").as_slice());
    let mut ms: Vec<(String, JsonValue)> = Vec::new();
    match &f.default {
        Some(d) => ms.push(("default".to_string(), json_clone(d))),
        None => {},
    }
    match &f.description {
        Some(d) => ms.push(("description".to_string(), JsonValue::String(d.clone()))),
        None => {},
    }
    match &f.format {
        Some(x) => ms.push(("format".to_string(), JsonValue::String(x.clone()))),
        None => {},
    }
    if is_array {
        let items = match &f.items {
            Some(b) => {
                proof { assert(decreases_to!(*f => f.items)); }
                field_schema(b)
            },
            None => JsonValue::Object(Vec::new()),
        };
        ms.push(("items".to_string(), items));
    }
    ms.push(("type".to_string(), JsonValue::String(t)));
    proof {
        assert(type_of(*f) == t@);
        assert(keys_of(ms@) =~= schema_keys(*f));
        lemma_schema_keys_distinct(*f);
        let n = ms@.len() as int;
        lemma_member_at(ms@, n - 1);
        let ks = keys_of(ms@);
        assert forall|i: int| 0 <= i < n implies ks[i] == (#[trigger] ms@[i]).0@ by {}
        if f.default is Some { lemma_member_at(ms@, 0); }
        if f.description is Some {
            let i = if f.default is Some { 1int } else { 0 };
            assert(ks[i] == "description"@);
            lemma_member_at(ms@, i);
        }
        if f.format is Some {
            let i = (if f.default is Some { 1int } else { 0 }) + (if f.description is Some { 1int } else { 0 });
            assert(ks[i] == "format"@);
            lemma_member_at(ms@, i);
        }
        if is_array {
            assert(ks[n - 2] == "items"@);
            lemma_member_at(ms@, n - 2);
        }
    }
    JsonValue::Object(ms)
}

/// Keys in strictly increasing order are distinct.
proof fn lemma_sorted_distinct(ms: Seq<(String, JsonValue)>)
    requires
        sorted_members(ms),
    ensures
        keys_of(ms).no_duplicates(),
{
    assert forall|i: int, j: int| 0 <= i < keys_of(ms).len() && 0 <= j < keys_of(ms).len() && i != j
        implies keys_of(ms)[i] != keys_of(ms)[j] by {
        if i < j { assert(key_lt(ms[i].0@, ms[j].0@)); lemma_key_lt_irreflexive(ms[i].0@); }
        else { assert(key_lt(ms[j].0@, ms[i].0@)); lemma_key_lt_irreflexive(ms[j].0@); }
    }
}

/// Put member `key` into a key-ordered list: its value replaced when
/// present, else inserted in order (a map insert).
pub fn put_member(ms: &mut Vec<(String, JsonValue)>, key: String, v: JsonValue)
    requires
        sorted_members(old(ms)@),
    ensures
        sorted_members(final(ms)@),
        member_value(final(ms)@, key@) == Some(v),
        forall|k: Seq<char>| k != key@ ==> #[trigger] member_value(final(ms)@, k) == member_value(old(ms)@, k),
        forall|k: Seq<char>| #[trigger] keys_of(final(ms)@).contains(k) <==> (k == key@ || keys_of(old(ms)@).contains(k)),
{
    let kc = chars_of(key.as_str());
    let mut p: usize = 0;
    let mut stop = false;
    while p < ms.len() && !stop
        invariant
            p <= ms@.len(),
            kc@ == key@,
            *ms == *old(ms),
            sorted_members(ms@),
            forall|j: int| 0 <= j < p ==> key_lt((#[trigger] ms@[j]).0@, key@),
            stop ==> p < ms@.len() && !key_lt(ms@[p as int].0@, key@),
        decreases ms@.len() - p, if stop { 0int } else { 1int },
    {
        if key_less(chars_of(ms[p].0.as_str()).as_slice(), kc.as_slice()) {
            p = p + 1;
        } else {
            stop = true;
        }
    }
    let ghost before = ms@;
    proof { lemma_sorted_distinct(before); }
    let ghost vv = v;
    if p < ms.len() && chars_eq(chars_of(ms[p].0.as_str()).as_slice(), kc.as_slice()) {
        let k0 = ms[p].0.clone();
        ms.set(p, (k0, v));
        proof { lemma_put_replaced(before, ms@, p as int, key@, vv); }
    } else {
        ms.insert(p, (key, v));
        proof { lemma_put_inserted(before, ms@, p as int, key@, vv); }
    }
}

proof fn lemma_put_replaced(before: Seq<(String, JsonValue)>, now: Seq<(String, JsonValue)>, p: int, key: Seq<char>, v: JsonValue)
    requires
        sorted_members(before),
        keys_of(before).no_duplicates(),
        0 <= p < before.len(),
        before[p].0@ == key,
        now.len() == before.len(),
        now[p].0@ == key,
        now[p].1 == v,
        forall|j: int| 0 <= j < before.len() && j != p ==> now[j] == before[j],
    ensures
        sorted_members(now),
        member_value(now, key) == Some(v),
        forall|k: Seq<char>| k != key ==> #[trigger] member_value(now, k) == member_value(before, k),
        forall|k: Seq<char>| #[trigger] keys_of(now).contains(k) <==> (k == key || keys_of(before).contains(k)),
{
    let ms_now = now;

        
        assert forall|j: int| 0 <= j < now.len() implies (#[trigger] now[j]).0@ == before[j].0@ && (j != p ==> now[j] == before[j]) by {}
        assert(keys_of(now) =~= keys_of(before));
        assert forall|i: int, j: int| 0 <= i < j < now.len() implies key_lt((#[trigger] now[i]).0@, (#[trigger] now[j]).0@) by {
            assert(key_lt(before[i].0@, before[j].0@));
        }
        lemma_member_at(now, p);
        assert forall|k: Seq<char>| k != key implies #[trigger] member_value(now, k) == member_value(before, k) by {
            if keys_of(before).contains(k) {
                let i = choose|i: int| 0 <= i < keys_of(before).len() && keys_of(before)[i] == k;
                lemma_member_at(before, i);
                lemma_member_at(now, i);
            } else {
                lemma_member_absent(before, k);
                lemma_member_absent(now, k);
            }
        }
    
    assert forall|k: Seq<char>| #[trigger] keys_of(now).contains(k) <==> (k == key || keys_of(before).contains(k)) by {
        if k == key { assert(keys_of(before)[p] == k); }
    }
}

proof fn lemma_put_inserted_sorted(before: Seq<(String, JsonValue)>, now: Seq<(String, JsonValue)>, p: int, key: Seq<char>, v: JsonValue)
    requires
        sorted_members(before),
        keys_of(before).no_duplicates(),
        0 <= p <= before.len(),
        forall|j: int| 0 <= j < p ==> key_lt((#[trigger] before[j]).0@, key),
        p < before.len() ==> !key_lt(before[p].0@, key) && before[p].0@ != key,
        now.len() == before.len() + 1,
        now[p].0@ == key,
        now[p].1 == v,
        forall|j: int| 0 <= j < p ==> now[j] == before[j],
        forall|j: int| p < j < now.len() ==> now[j] == before[j - 1],
    ensures
        sorted_members(now),
{
    if p < before.len() {
        assert(key_lt(key, before[p].0@)) by {
            lemma_key_lt_total(key, before[p].0@);
        }
    }
    assert forall|i: int, j: int| 0 <= i < j < now.len() implies key_lt((#[trigger] now[i]).0@, (#[trigger] now[j]).0@) by {
        if j < p {
            assert(now[i] == before[i] && now[j] == before[j]);
        } else if j == p {
            assert(now[i] == before[i]);
        } else if i < p {
            assert(now[i] == before[i] && now[j] == before[j - 1]);
            if j - 1 > p {
                assert(key_lt(before[p].0@, before[j - 1].0@));
                lemma_key_lt_transitive(key, before[p].0@, before[j - 1].0@);
            }
            lemma_key_lt_transitive(before[i].0@, key, before[j - 1].0@);
        } else if i == p {
            assert(now[j] == before[j - 1]);
            if j - 1 > p {
                assert(key_lt(before[p].0@, before[j - 1].0@));
                lemma_key_lt_transitive(key, before[p].0@, before[j - 1].0@);
            }
        } else {
            assert(now[i] == before[i - 1] && now[j] == before[j - 1]);
        }
    }
}

proof fn lemma_put_inserted_keys(before: Seq<(String, JsonValue)>, now: Seq<(String, JsonValue)>, p: int, key: Seq<char>, v: JsonValue)
    requires
        sorted_members(before),
        keys_of(before).no_duplicates(),
        0 <= p <= before.len(),
        forall|j: int| 0 <= j < p ==> key_lt((#[trigger] before[j]).0@, key),
        p < before.len() ==> !key_lt(before[p].0@, key) && before[p].0@ != key,
        now.len() == before.len() + 1,
        now[p].0@ == key,
        now[p].1 == v,
        forall|j: int| 0 <= j < p ==> now[j] == before[j],
        forall|j: int| p < j < now.len() ==> now[j] == before[j - 1],
    ensures
        forall|k: Seq<char>| #[trigger] keys_of(now).contains(k) <==> (k == key || keys_of(before).contains(k)),
{
    assert forall|k: Seq<char>| #[trigger] keys_of(now).contains(k) <==> (k == key || keys_of(before).contains(k)) by {
        if keys_of(now).contains(k) {
            let i = choose|i: int| 0 <= i < keys_of(now).len() && keys_of(now)[i] == k;
            if i < p { assert(keys_of(before)[i] == k); } else if i > p { assert(keys_of(before)[i - 1] == k); }
        }
        if keys_of(before).contains(k) {
            let i = choose|i: int| 0 <= i < keys_of(before).len() && keys_of(before)[i] == k;
            if i < p { assert(keys_of(now)[i] == k); } else { assert(keys_of(now)[i + 1] == k); }
        }
        if k == key { assert(keys_of(now)[p] == k); }
    }
}

proof fn lemma_put_inserted(before: Seq<(String, JsonValue)>, now: Seq<(String, JsonValue)>, p: int, key: Seq<char>, v: JsonValue)
    requires
        sorted_members(before),
        keys_of(before).no_duplicates(),
        0 <= p <= before.len(),
        forall|j: int| 0 <= j < p ==> key_lt((#[trigger] before[j]).0@, key),
        p < before.len() ==> !key_lt(before[p].0@, key) && before[p].0@ != key,
        now.len() == before.len() + 1,
        now[p].0@ == key,
        now[p].1 == v,
        forall|j: int| 0 <= j < p ==> now[j] == before[j],
        forall|j: int| p < j < now.len() ==> now[j] == before[j - 1],
    ensures
        sorted_members(now),
        member_value(now, key) == Some(v),
        forall|k: Seq<char>| k != key ==> #[trigger] member_value(now, k) == member_value(before, k),
        forall|k: Seq<char>| #[trigger] keys_of(now).contains(k) <==> (k == key || keys_of(before).contains(k)),
{
    lemma_put_inserted_sorted(before, now, p, key, v);
    lemma_put_inserted_keys(before, now, p, key, v);
    lemma_sorted_distinct(now);
    lemma_member_at(now, p);
    assert forall|k: Seq<char>| k != key implies #[trigger] member_value(now, k) == member_value(before, k) by {
        if keys_of(before).contains(k) {
            let i = choose|i: int| 0 <= i < keys_of(before).len() && keys_of(before)[i] == k;
            lemma_member_at(before, i);
            if i < p { lemma_member_at(now, i); assert(now[i] == before[i]); }
            else { lemma_member_at(now, i + 1); assert(now[i + 1] == before[i]); }
        } else {
            lemma_member_absent(before, k);
            assert(!keys_of(now).contains(k));
            lemma_member_absent(now, k);
        }
    }
}

/// Index of the last field named `k`.
pub open spec fn last_field(fs: Seq<DslField>, k: Seq<char>) -> Option<int>
    decreases fs.len(),
{
    if fs.len() == 0 {
        None
    } else if fs.last().field@ == k {
        Some(fs.len() - 1)
    } else {
        last_field(fs.drop_last(), k)
    }
}

/// Names of the fields declared `required: true`, in order.
pub open spec fn required_names(fs: Seq<DslField>) -> Seq<Seq<char>>
    decreases fs.len(),
{
    if fs.len() == 0 {
        Seq::empty()
    } else {
        required_names(fs.drop_last()) + if fs.last().required == Some(true) { seq![fs.last().field@] } else { Seq::empty() }
    }
}

/// `ps` maps each field name to the schema of the last field so named.
pub open spec fn properties_ok(ps: Seq<(String, JsonValue)>, fs: Seq<DslField>) -> bool {
    &&& sorted_members(ps)
    &&& forall|k: Seq<char>| match #[trigger] last_field(fs, k) {
        Some(i) => member_value(ps, k) matches Some(v) && schema_ok(v, fs[i]),
        None => member_value(ps, k) is None,
    }
}

/// The array holds the given strings.
pub open spec fn strings_array(v: JsonValue, names: Seq<Seq<char>>) -> bool {
    v matches JsonValue::Array(items) && items@.len() == names.len()
        && forall|i: int| 0 <= i < names.len() ==> (#[trigger] items@[i] matches JsonValue::String(s) && s@ == names[i])
}

/// `r` is the object schema of `fs`: `properties` (a field's schema per
/// name), `required` (when some field is), and `type: object`.
pub open spec fn object_schema_ok(r: JsonValue, fs: Seq<DslField>) -> bool {
    r matches JsonValue::Object(ms) && {
        &&& keys_of(ms@) == seq!["properties"@] + opt_key(required_names(fs).len() > 0, "required"@) + seq!["type"@]
        &&& is_text(member_value(ms@, "type"@), "object"@)
        &&& (member_value(ms@, "properties"@) matches Some(JsonValue::Object(ps)) && properties_ok(ps@, fs))
        &&& (required_names(fs).len() > 0 ==> (member_value(ms@, "required"@) matches Some(a) && strings_array(a, required_names(fs))))
    }
}

/// The object schema of a field list.
pub fn build_object_schema(fields: &Vec<DslField>) -> (r: JsonValue)
    ensures
        object_schema_ok(r, fields@),
{
    let mut props: Vec<(String, JsonValue)> = Vec::new();
    let mut required: Vec<JsonValue> = Vec::new();
    let ghost mut names: Seq<Seq<char>> = Seq::empty();
    let mut i: usize = 0;
    proof {
        assert(fields@.take(0) =~= Seq::<DslField>::empty());
        assert forall|k: Seq<char>| match #[trigger] last_field(fields@.take(0), k) {
            Some(j) => member_value(props@, k) matches Some(v) && schema_ok(v, fields@.take(0)[j]),
            None => member_value(props@, k) is None,
        } by {
            lemma_member_absent(props@, k);
        }
    }
    while i < fields.len()
        invariant
            i <= fields@.len(),
            properties_ok(props@, fields@.take(i as int)),
            names == required_names(fields@.take(i as int)),
            strings_array(JsonValue::Array(required), names),
        decreases fields@.len() - i,
    {
        let ghost t0 = fields@.take(i as int);
        let ghost t1 = fields@.take(i + 1);
        proof { assert(t1.drop_last() =~= t0); assert(t1.last() == fields@[i as int]); }
        let f = &fields[i];
        let sch = field_schema(f);
        let ghost sv = sch;
        let ghost before = props@;
        put_member(&mut props, f.field.clone(), sch);
        match f.required {
            Some(true) => {
                let ghost rb = required@;
                required.push(JsonValue::String(f.field.clone()));
                proof {
                    names = names.push(f.field@);
                    assert forall|q: int| 0 <= q < names.len() implies (#[trigger] required@[q] matches JsonValue::String(s) && s@ == names[q]) by {
                        if q < rb.len() { assert(required@[q] == rb[q]); }
                    }
                }
            },
            _ => {},
        }
        proof {
            assert(names == required_names(t1));
            assert forall|k: Seq<char>| match #[trigger] last_field(t1, k) {
                Some(j) => member_value(props@, k) matches Some(v) && schema_ok(v, t1[j]),
                None => member_value(props@, k) is None,
            } by {
                if k == f.field@ {
                    assert(last_field(t1, k) == Some(i as int));
                } else {
                    assert(last_field(t1, k) == last_field(t0, k));
                    match last_field(t0, k) {
                        Some(j) => { lemma_last_field_bound(t0, k); assert(t1[j] == t0[j]); },
                        None => {},
                    }
                }
            }
        }
        i = i + 1;
    }
    proof { assert(fields@.take(i as int) =~= fields@); }
    let has_required = required.len() > 0;
    let mut out: Vec<(String, JsonValue)> = Vec::new();
    out.push(("properties".to_string(), JsonValue::Object(props)));
    if has_required {
        out.push(("required".to_string(), JsonValue::Array(required)));
    }
    out.push(("type".to_string(), JsonValue::String("object".to_string())));
    proof {
        reveal_strlit("properties");
        reveal_strlit("required");
        reveal_strlit("type");
        let ks = keys_of(out@);
        assert(ks =~= seq!["properties"@] + opt_key(required_names(fields@).len() > 0, "required"@) + seq!["type"@]);
        assert(ks.no_duplicates()) by {
            assert forall|a: int, b: int| 0 <= a < ks.len() && 0 <= b < ks.len() && a != b implies ks[a] != ks[b] by {
                assert(ks[a][0] != ks[b][0] || ks[a].len() != ks[b].len());
            }
        }
        lemma_member_at(out@, 0);
        lemma_member_at(out@, out@.len() - 1);
        if has_required { lemma_member_at(out@, 1); }
    }
    JsonValue::Object(out)
}

proof fn lemma_last_field_bound(fs: Seq<DslField>, k: Seq<char>)
    ensures
        last_field(fs, k) matches Some(i) ==> 0 <= i < fs.len() && fs[i].field@ == k,
    decreases fs.len(),
{
    if fs.len() > 0 && fs.last().field@ != k {
        lemma_last_field_bound(fs.drop_last(), k);
        if let Some(i) = last_field(fs.drop_last(), k) {
            assert(fs.drop_last()[i] == fs[i]);
        }
    }
}

/// An object with the single member `k` whose value is the text `t`.
pub open spec fn single_text(v: JsonValue, k: Seq<char>, t: Seq<char>) -> bool {
    v matches JsonValue::Object(ms) && ms@.len() == 1 && ms@[0].0@ == k && is_text(Some(ms@[0].1), t)
}

fn single_text_object(k: &str, t: &str) -> (r: JsonValue)
    ensures
        single_text(r, k@, t@),
{
    let mut ms: Vec<(String, JsonValue)> = Vec::new();
    ms.push((k.to_string(), JsonValue::String(t.to_string())));
    JsonValue::Object(ms)
}

/// `r` documents parameter `name` in `location` from field `f`:
/// `description` when declared, `in`, `name`, `required` and `schema`.
pub open spec fn named_param_ok(r: JsonValue, name: Seq<char>, location: Seq<char>, f: DslField) -> bool {
    r matches JsonValue::Object(ms) && {
        &&& keys_of(ms@) == opt_key(f.description is Some, "description"@) + seq!["in"@, "name"@, "required"@, "schema"@]
        &&& (f.description matches Some(d) ==> is_text(member_value(ms@, "description"@), d@))
        &&& is_text(member_value(ms@, "in"@), location)
        &&& is_text(member_value(ms@, "name"@), name)
        &&& member_value(ms@, "required"@) == Some(JsonValue::Bool(f.required == Some(true)))
        &&& (member_value(ms@, "schema"@) matches Some(sc) && schema_ok(sc, f))
    }
}

pub fn build_named_parameter(name: &str, location: &str, f: &DslField) -> (r: JsonValue)
    ensures
        named_param_ok(r, name@, location@, *f),
{
    let mut ms: Vec<(String, JsonValue)> = Vec::new();
    match &f.description {
        Some(d) => ms.push(("description".to_string(), JsonValue::String(d.clone()))),
        None => {},
    }
    ms.push(("in".to_string(), JsonValue::String(location.to_string())));
    ms.push(("name".to_string(), JsonValue::String(name.to_string())));
    let req = match f.required { Some(b) => b, None => false };
    ms.push(("required".to_string(), JsonValue::Bool(req)));
    ms.push(("schema".to_string(), field_schema(f)));
    proof {
        reveal_strlit("description");
        reveal_strlit("in");
        reveal_strlit("name");
        reveal_strlit("required");
        reveal_strlit("schema");
        let ks = keys_of(ms@);
        assert(ks =~= opt_key(f.description is Some, "description"@) + seq!["in"@, "name"@, "required"@, "schema"@]);
        assert(ks.no_duplicates()) by {
            assert forall|a: int, b: int| 0 <= a < ks.len() && 0 <= b < ks.len() && a != b implies ks[a] != ks[b] by {
                assert(ks[a][0] != ks[b][0] || ks[a][1] != ks[b][1] || ks[a].len() != ks[b].len());
            }
        }
        let o = if f.description is Some { 1int } else { 0 };
        if o == 1 { lemma_member_at(ms@, 0); }
        lemma_member_at(ms@, o);
        lemma_member_at(ms@, o + 1);
        lemma_member_at(ms@, o + 2);
        lemma_member_at(ms@, o + 3);
    }
    JsonValue::Object(ms)
}

/// The schema of a response body: the error schema for 4xx/5xx, the
/// declared return fields when there are some, else any object.
pub open spec fn body_schema_ok(s: JsonValue, code: u16, ret_fields: Option<Vec<DslField>>) -> bool {
    if code >= 400 {
        single_text(s, "$ref"@, "#/components/schemas/Error"@)
    } else if ret_fields matches Some(fs) && fs@.len() > 0 {
        object_schema_ok(s, ret_fields->Some_0@)
    } else {
        s matches JsonValue::Object(ms) && ms@.len() == 2
            && ms@[0].0@ == "additionalProperties"@ && ms@[0].1 == JsonValue::Bool(true)
            && ms@[1].0@ == "type"@ && is_text(Some(ms@[1].1), "object"@)
    }
}

/// `v` documents a response with status `code`: its JSON body schema,
/// its reason phrase, and the trace headers.
pub open spec fn response_ok(v: JsonValue, code: u16, ret_fields: Option<Vec<DslField>>) -> bool {
    v matches JsonValue::Object(ms) && ms@.len() == 3 && {
        &&& ms@[0].0@ == "content"@
        &&& (ms@[0].1 matches JsonValue::Object(c) && c@.len() == 1 && c@[0].0@ == "application/json"@
            && (c@[0].1 matches JsonValue::Object(sc) && sc@.len() == 1 && sc@[0].0@ == "schema"@
                && body_schema_ok(sc@[0].1, code, ret_fields)))
        &&& ms@[1].0@ == "description"@ && is_text(Some(ms@[1].1), spec_status_reason(code))
        &&& ms@[2].0@ == "headers"@
        &&& (ms@[2].1 matches JsonValue::Object(h) && h@.len() == 2
            && h@[0].0@ == "X-Trace-Id"@ && single_text(h@[0].1, "$ref"@, "#/components/headers/X-Trace-Id"@)
            && h@[1].0@ == "traceparent"@ && single_text(h@[1].1, "$ref"@, "#/components/headers/traceparent"@))
    }
}

fn one_member(k: &str, v: JsonValue) -> (r: Vec<(String, JsonValue)>)
    ensures
        r@.len() == 1 && r@[0].0@ == k@ && r@[0].1 == v,
{
    let mut ms: Vec<(String, JsonValue)> = Vec::new();
    ms.push((k.to_string(), v));
    ms
}

fn response_for(code: u16, ret_fields: &Option<Vec<DslField>>) -> (r: JsonValue)
    ensures
        response_ok(r, code, *ret_fields),
{
    let schema = if code >= 400 {
        single_text_object("$ref", "#/components/schemas/Error")
    } else {
        match ret_fields {
            Some(fs) => {
                if fs.len() > 0 {
                    build_object_schema(fs)
                } else {
                    let mut ms = one_member("additionalProperties", JsonValue::Bool(true));
                    ms.push(("type".to_string(), JsonValue::String("object".to_string())));
                    JsonValue::Object(ms)
                }
            },
            None => {
                let mut ms = one_member("additionalProperties", JsonValue::Bool(true));
                ms.push(("type".to_string(), JsonValue::String("object".to_string())));
                JsonValue::Object(ms)
            },
        }
    };
    let content = JsonValue::Object(one_member("application/json", JsonValue::Object(one_member("schema", schema))));
    let mut headers = one_member("X-Trace-Id", single_text_object("$ref", "#/components/headers/X-Trace-Id"));
    headers.push(("traceparent".to_string(), single_text_object("$ref", "#/components/headers/traceparent")));
    let mut ms = one_member("content", content);
    ms.push(("description".to_string(), JsonValue::String(status_reason(code).to_string())));
    ms.push(("headers".to_string(), JsonValue::Object(headers)));
    JsonValue::Object(ms)
}

/// `r` documents the responses of the codes `statuses` give.
pub open spec fn responses_ok(r: JsonValue, statuses: Seq<u16>, ret_fields: Option<Vec<DslField>>) -> bool {
    r matches JsonValue::Object(rs) && sorted_members(rs@) && {
        let codes = spec_effective_statuses(statuses);
        &&& forall|i: int| 0 <= i < codes.len() ==> (#[trigger] member_value(rs@, decimal(codes[i] as nat)) matches Some(v)
            && response_ok(v, codes[i], ret_fields))
        &&& forall|k: Seq<char>| #[trigger] keys_of(rs@).contains(k) ==> exists|i: int| 0 <= i < codes.len() && decimal(codes[i] as nat) == k
    }
}

/// The `responses` of an operation: one entry per documented code (see
/// `effective_statuses`), keyed by the code's decimal text.
pub fn build_responses(statuses: &Vec<u16>, ret_fields: &Option<Vec<DslField>>) -> (r: JsonValue)
    ensures
        responses_ok(r, statuses@, *ret_fields),
{
    let codes = effective_statuses(statuses);
    let mut rs: Vec<(String, JsonValue)> = Vec::new();
    let mut i: usize = 0;
    proof {
        assert forall|k: Seq<char>| #[trigger] keys_of(rs@).contains(k) implies exists|j: int| 0 <= j < 0 && decimal(codes@[j] as nat) == k by {
            let q = choose|q: int| 0 <= q < keys_of(rs@).len() && keys_of(rs@)[q] == k;
        }
    }
    while i < codes.len()
        invariant
            i <= codes@.len(),
            sorted_members(rs@),
            forall|j: int| 0 <= j < i ==> (#[trigger] member_value(rs@, decimal(codes@[j] as nat)) matches Some(v)
                && response_ok(v, codes@[j], *ret_fields)),
            forall|k: Seq<char>| #[trigger] keys_of(rs@).contains(k) ==> exists|j: int| 0 <= j < i && decimal(codes@[j] as nat) == k,
        decreases codes@.len() - i,
    {
        let c = codes[i];
        let v = response_for(c, ret_fields);
        let ghost before = rs@;
        put_member(&mut rs, decimal_string(c as u128), v);
        proof {
            let kc = decimal(c as nat);
            assert forall|j: int| 0 <= j < i + 1 implies (#[trigger] member_value(rs@, decimal(codes@[j] as nat)) matches Some(w)
                && response_ok(w, codes@[j], *ret_fields)) by {
                if j < i {
                    if decimal(codes@[j] as nat) == kc {
                        lemma_decimal_injective(codes@[j] as nat, c as nat);
                    }
                }
            }
            assert forall|k: Seq<char>| #[trigger] keys_of(rs@).contains(k) implies exists|j: int| 0 <= j < i + 1 && decimal(codes@[j] as nat) == k by {
                if k != kc {
                    assert(keys_of(before).contains(k));
                    let j = choose|j: int| 0 <= j < i && decimal(codes@[j] as nat) == k;
                    assert(0 <= j < i + 1);
                } else {
                    assert(decimal(codes@[i as int] as nat) == k);
                }
            }
        }
        i = i + 1;
    }
    JsonValue::Object(rs)
}

/// A parameter known only by name: a string, not required.
pub open spec fn simple_param_ok(r: JsonValue, name: Seq<char>, location: Seq<char>) -> bool {
    r matches JsonValue::Object(ms) && ms@.len() == 4 && {
        &&& ms@[0].0@ == "in"@ && is_text(Some(ms@[0].1), location)
        &&& ms@[1].0@ == "name"@ && is_text(Some(ms@[1].1), name)
        &&& ms@[2].0@ == "required"@ && ms@[2].1 == JsonValue::Bool(false)
        &&& ms@[3].0@ == "schema"@ && single_text(ms@[3].1, "type"@, "string"@)
    }
}

fn simple_param(name: &str, location: &str) -> (r: JsonValue)
    ensures
        simple_param_ok(r, name@, location@),
{
    let mut ms = one_member("in", JsonValue::String(location.to_string()));
    ms.push(("name".to_string(), JsonValue::String(name.to_string())));
    ms.push(("required".to_string(), JsonValue::Bool(false)));
    ms.push(("schema".to_string(), single_text_object("type", "string")));
    JsonValue::Object(ms)
}

/// The parameters one list contributes, starting at `out[from]`: one
/// per structured field when the allow-list has fields, else one per
/// allowed name; how many there are.
pub open spec fn param_count(fields: Option<Vec<DslField>>, names: Option<Vec<String>>) -> nat {
    match fields {
        Some(fs) => fs@.len(),
        None => match names { Some(ns) => ns@.len(), None => 0 },
    }
}

pub open spec fn params_at(out: Seq<JsonValue>, from: int, fields: Option<Vec<DslField>>, names: Option<Vec<String>>,
    location: Seq<char>) -> bool
{
    match fields {
        Some(fs) => forall|i: int| 0 <= i < fs@.len() ==> named_param_ok(#[trigger] out[from + i], fs@[i].field@, location, fs@[i]),
        None => match names {
            Some(ns) => forall|i: int| 0 <= i < ns@.len() ==> simple_param_ok(#[trigger] out[from + i], ns@[i]@, location),
            None => true,
        },
    }
}

fn push_params(out: &mut Vec<JsonValue>, fields: Option<&Vec<DslField>>, names: &Option<Vec<String>>, location: &str)
    ensures
        final(out)@.len() == old(out)@.len() + param_count(match fields { Some(f) => Some(*f), None => None }, *names),
        final(out)@.subrange(0, old(out)@.len() as int) == old(out)@,
        params_at(final(out)@, old(out)@.len() as int, match fields { Some(f) => Some(*f), None => None }, *names, location@),
{
    let ghost start = out@;
    match fields {
        Some(fs) => {
            let mut i: usize = 0;
            while i < fs.len()
                invariant
                    i <= fs@.len(),
                    out@.len() == start.len() + i,
                    out@.subrange(0, start.len() as int) == start,
                    forall|j: int| 0 <= j < i ==> named_param_ok(#[trigger] out@[start.len() + j], fs@[j].field@, location@, fs@[j]),
                decreases fs@.len() - i,
            {
                let p = build_named_parameter(fs[i].field.as_str(), location, &fs[i]);
                let ghost before = out@;
                out.push(p);
                proof {
                    assert(out@.subrange(0, start.len() as int) =~= before.subrange(0, start.len() as int));
                    assert forall|j: int| 0 <= j < i + 1 implies named_param_ok(#[trigger] out@[start.len() + j], fs@[j].field@, location@, fs@[j]) by {
                        if j < i { assert(out@[start.len() + j] == before[start.len() + j]); }
                    }
                }
                i = i + 1;
            }
        },
        None => match names {
            Some(ns) => {
                let mut i: usize = 0;
                while i < ns.len()
                    invariant
                        i <= ns@.len(),
                        out@.len() == start.len() + i,
                        out@.subrange(0, start.len() as int) == start,
                        forall|j: int| 0 <= j < i ==> simple_param_ok(#[trigger] out@[start.len() + j], ns@[j]@, location@),
                    decreases ns@.len() - i,
                {
                    let p = simple_param(ns[i].as_str(), location);
                    let ghost before = out@;
                    out.push(p);
                    proof {
                        assert(out@.subrange(0, start.len() as int) =~= before.subrange(0, start.len() as int));
                        assert forall|j: int| 0 <= j < i + 1 implies simple_param_ok(#[trigger] out@[start.len() + j], ns@[j]@, location@) by {
                            if j < i { assert(out@[start.len() + j] == before[start.len() + j]); }
                        }
                    }
                    i = i + 1;
                }
            },
            None => {
                proof { assert(out@.subrange(0, start.len() as int) =~= start); }
            },
        },
    }
}

/// The `parameters` of an operation: the query parameters, then the
/// headers, each from the structured allow-list when it has the list,
/// else from the flat list of names; none without a declaration or
/// when both are empty.
pub open spec fn parameters_ok(r: Option<JsonValue>, decl: Option<DeclarationStep>) -> bool {
    match decl {
        None => r is None,
        Some(d) => {
            let qf = list_params(d.allowlist);
            let hf = list_headers(d.allowlist);
            let qn = param_count(qf, d.allowed_params);
            let hn = param_count(hf, d.allowed_header);
            if qn + hn == 0 {
                r is None
            } else {
                r matches Some(JsonValue::Array(items)) && items@.len() == qn + hn
                    && params_at(items@, 0, qf, d.allowed_params, "query"@)
                    && params_at(items@, qn as int, hf, d.allowed_header, "header"@)
            }
        },
    }
}

pub fn build_parameters(decl: &Option<DeclarationStep>) -> (r: Option<JsonValue>)
    ensures
        parameters_ok(r, *decl),
{
    let d = match decl {
        Some(d) => d,
        None => return None,
    };
    let qf = match &d.allowlist { Some(l) => match &l.params { Some(p) => Some(p), None => None }, None => None };
    let hf = match &d.allowlist { Some(l) => match &l.headers { Some(p) => Some(p), None => None }, None => None };
    let mut out: Vec<JsonValue> = Vec::new();
    push_params(&mut out, qf, &d.allowed_params, "query");
    let ghost mid = out@;
    push_params(&mut out, hf, &d.allowed_header, "header");
    proof {
        let qn = param_count(list_params(d.allowlist), d.allowed_params);
        assert(mid.len() == qn);
        if list_params(d.allowlist) is Some {
            let fs = list_params(d.allowlist)->Some_0;
            assert forall|i: int| 0 <= i < fs@.len() implies named_param_ok(#[trigger] out@[0 + i], fs@[i].field@, "query"@, fs@[i]) by {
                assert(out@[i] == out@.subrange(0, mid.len() as int)[i]);
                assert(mid[0 + i] == mid[i]);
            }
        } else if d.allowed_params is Some {
            let ns = d.allowed_params->Some_0;
            assert forall|i: int| 0 <= i < ns@.len() implies simple_param_ok(#[trigger] out@[0 + i], ns@[i]@, "query"@) by {
                assert(out@[i] == out@.subrange(0, mid.len() as int)[i]);
                assert(mid[0 + i] == mid[i]);
            }
        }
    }
    if out.len() == 0 {
        None
    } else {
        Some(JsonValue::Array(out))
    }
}

/// A method whose operations take a request body.
pub open spec fn body_bearing(method: Seq<char>) -> bool {
    upper_seq(method) == "POST"@ || upper_seq(method) == "PUT"@ || upper_seq(method) == "PATCH"@
}

/// The schema of a body known only by its allowed names: every name a
/// string property.
pub open spec fn names_schema_ok(sc: JsonValue, names: Seq<Seq<char>>) -> bool {
    sc matches JsonValue::Object(ms) && ms@.len() == 2
        && ms@[0].0@ == "properties"@
        && (ms@[0].1 matches JsonValue::Object(ps) && sorted_members(ps@)
            && forall|k: Seq<char>| #[trigger] keys_of(ps@).contains(k) <==> names.contains(k)
            && forall|k: Seq<char>| names.contains(k) ==> (#[trigger] member_value(ps@, k) matches Some(v) && single_text(v, "type"@, "string"@)))
        && ms@[1].0@ == "type"@ && is_text(Some(ms@[1].1), "object"@)
}

/// The `requestBody` of an operation: for POST, PUT and PATCH with a
/// declaration, the structured body fields when there are some, else
/// the allowed body names when there are some; required, as JSON.
pub open spec fn request_body_ok(r: Option<JsonValue>, method: Seq<char>, decl: Option<DeclarationStep>) -> bool {
    if !body_bearing(method) || decl is None {
        r is None
    } else {
        let d = decl->Some_0;
        let structured = list_body(d.allowlist) matches Some(fs) && fs@.len() > 0;
        let named = d.allowed_body matches Some(ns) && ns@.len() > 0;
        if !structured && !named {
            r is None
        } else {
            r matches Some(JsonValue::Object(ms)) && ms@.len() == 2
                && ms@[0].0@ == "content"@
                && (ms@[0].1 matches JsonValue::Object(c) && c@.len() == 1 && c@[0].0@ == "application/json"@
                    && (c@[0].1 matches JsonValue::Object(sc) && sc@.len() == 1 && sc@[0].0@ == "schema"@
                        && if structured { object_schema_ok(sc@[0].1, list_body(d.allowlist)->Some_0@) }
                           else { names_schema_ok(sc@[0].1, views(d.allowed_body->Some_0@)) }))
                && ms@[1].0@ == "required"@ && ms@[1].1 == JsonValue::Bool(true)
        }
    }
}

fn names_schema(names: &Vec<String>) -> (r: JsonValue)
    ensures
        names_schema_ok(r, views(names@)),
{
    let mut ps: Vec<(String, JsonValue)> = Vec::new();
    let mut i: usize = 0;
    proof {
        assert forall|k: Seq<char>| #[trigger] keys_of(ps@).contains(k) <==> views(names@).take(0).contains(k) by {}
    }
    while i < names.len()
        invariant
            i <= names@.len(),
            sorted_members(ps@),
            forall|k: Seq<char>| #[trigger] keys_of(ps@).contains(k) <==> views(names@).take(i as int).contains(k),
            forall|k: Seq<char>| views(names@).take(i as int).contains(k)
                ==> (#[trigger] member_value(ps@, k) matches Some(v) && single_text(v, "type"@, "string"@)),
        decreases names@.len() - i,
    {
        let ghost before = ps@;
        let ghost t1 = views(names@).take(i + 1);
        proof { assert(t1 =~= views(names@).take(i as int).push(names@[i as int]@)); }
        put_member(&mut ps, names[i].clone(), single_text_object("type", "string"));
        proof {
            assert forall|k: Seq<char>| #[trigger] keys_of(ps@).contains(k) <==> t1.contains(k) by {
                if t1.contains(k) && k != names@[i as int]@ {
                    let j = choose|j: int| 0 <= j < t1.len() && t1[j] == k;
                    assert(views(names@).take(i as int)[j] == k);
                }
                if views(names@).take(i as int).contains(k) {
                    let j = choose|j: int| 0 <= j < i && views(names@).take(i as int)[j] == k;
                    assert(t1[j] == k);
                }
                if k == names@[i as int]@ { assert(t1[i as int] == k); }
            }
            assert forall|k: Seq<char>| t1.contains(k) implies (#[trigger] member_value(ps@, k) matches Some(v) && single_text(v, "type"@, "string"@)) by {
                if k != names@[i as int]@ {
                    let j = choose|j: int| 0 <= j < t1.len() && t1[j] == k;
                    assert(views(names@).take(i as int)[j] == k);
                }
            }
        }
        i = i + 1;
    }
    proof { assert(views(names@).take(i as int) =~= views(names@)); }
    let mut ms = one_member("properties", JsonValue::Object(ps));
    ms.push(("type".to_string(), JsonValue::String("object".to_string())));
    JsonValue::Object(ms)
}

pub fn build_request_body(method: &str, decl: &Option<DeclarationStep>) -> (r: Option<JsonValue>)
    ensures
        request_body_ok(r, method@, *decl),
{
    let up = to_upper_vec(chars_of(method).as_slice());
    let bearing = chars_eq(up.as_slice(), chars_of("POST").as_slice()) || chars_eq(up.as_slice(), chars_of("PUT").as_slice())
        || chars_eq(up.as_slice(), chars_of("PATCH").as_slice());
    if !bearing {
        return None;
    }
    let d = match decl {
        Some(d) => d,
        None => return None,
    };
    let structured = match &d.allowlist {
        Some(l) => match &l.body { Some(fs) => if fs.len() > 0 { Some(fs) } else { None }, None => None },
        None => None,
    };
    let schema = match structured {
        Some(fs) => build_object_schema(fs),
        None => match &d.allowed_body {
            Some(ns) => {
                if ns.len() == 0 {
                    return None;
                }
                names_schema(ns)
            },
            None => return None,
        },
    };
    let content = JsonValue::Object(one_member("application/json", JsonValue::Object(one_member("schema", schema))));
    let mut ms = one_member("content", content);
    ms.push(("required".to_string(), JsonValue::Bool(true)));
    Some(JsonValue::Object(ms))
}

pub open spec fn has_params(decl: Option<DeclarationStep>) -> bool {
    decl matches Some(d) && param_count(list_params(d.allowlist), d.allowed_params) + param_count(list_headers(d.allowlist), d.allowed_header) > 0
}

pub open spec fn has_body(method: Seq<char>, decl: Option<DeclarationStep>) -> bool {
    body_bearing(method) && (decl matches Some(d)
        && ((list_body(d.allowlist) matches Some(fs) && fs@.len() > 0) || (d.allowed_body matches Some(ns) && ns@.len() > 0)))
}

pub open spec fn default_description(key: Seq<char>, project: Seq<char>) -> Seq<char> {
    "Auto-generated from DSL `"@ + key + "` in project `"@ + project + "`. Add a `declaration.description` to override."@
}

pub open spec fn decl_returns(decl: Option<DeclarationStep>) -> Option<Vec<DslField>> {
    match decl { Some(d) => d.returns, None => None }
}

/// `r` is the operation of DSL `key` of `method` in `project`.
pub open spec fn operation_ok(r: JsonValue, project: Seq<char>, method: Seq<char>, key: Seq<char>,
    decl: Option<DeclarationStep>, statuses: Seq<u16>) -> bool
{
    r matches JsonValue::Object(ms) && {
        &&& keys_of(ms@) == seq!["description"@, "operationId"@] + opt_key(has_params(decl), "parameters"@)
            + opt_key(has_body(method, decl), "requestBody"@) + seq!["responses"@, "summary"@, "tags"@]
        &&& is_text(member_value(ms@, "description"@), match decl {
            Some(d) => match d.description { Some(x) => x@, None => default_description(key, project) },
            None => default_description(key, project),
        })
        &&& is_text(member_value(ms@, "operationId"@), spec_operation_id(project, method, key))
        &&& (has_params(decl) ==> parameters_ok(member_value(ms@, "parameters"@), decl))
        &&& (has_body(method, decl) ==> request_body_ok(member_value(ms@, "requestBody"@), method, decl))
        &&& (member_value(ms@, "responses"@) matches Some(rv) && responses_ok(rv, statuses, decl_returns(decl)))
        &&& is_text(member_value(ms@, "summary"@), spec_summary(key))
        &&& (member_value(ms@, "tags"@) matches Some(t) && strings_array(t, seq![project]))
    }
}

pub fn build_operation(project: &str, method: &str, key: &str, decl: &Option<DeclarationStep>, statuses: &Vec<u16>) -> (r: JsonValue)
    ensures
        operation_ok(r, project@, method@, key@, *decl, statuses@),
{
    let description = match decl {
        Some(d) => match &d.description {
            Some(x) => x.clone(),
            None => default_description_text(key, project),
        },
        None => default_description_text(key, project),
    };
    let params = build_parameters(decl);
    let body = build_request_body(method, decl);
    let no_fields: Option<Vec<DslField>> = None;
    let responses = match decl {
        Some(d) => build_responses(statuses, &d.returns),
        None => build_responses(statuses, &no_fields),
    };
    let mut tags: Vec<JsonValue> = Vec::new();
    tags.push(JsonValue::String(project.to_string()));
    let mut ms = one_member("description", JsonValue::String(description));
    ms.push(("operationId".to_string(), JsonValue::String(operation_id(project, method, key))));
    let hp = params.is_some();
    let hb = body.is_some();
    match params {
        Some(p) => ms.push(("parameters".to_string(), p)),
        None => {},
    }
    match body {
        Some(b) => ms.push(("requestBody".to_string(), b)),
        None => {},
    }
    ms.push(("responses".to_string(), responses));
    ms.push(("summary".to_string(), JsonValue::String(summary_from_key(key))));
    ms.push(("tags".to_string(), JsonValue::Array(tags)));
    proof {
        reveal_strlit("description");
        reveal_strlit("operationId");
        reveal_strlit("parameters");
        reveal_strlit("requestBody");
        reveal_strlit("responses");
        reveal_strlit("summary");
        reveal_strlit("tags");
        assert(hp == has_params(*decl));
        assert(hb == has_body(method@, *decl));
        let ks = keys_of(ms@);
        assert(ks =~= seq!["description"@, "operationId"@] + opt_key(hp, "parameters"@)
            + opt_key(hb, "requestBody"@) + seq!["responses"@, "summary"@, "tags"@]);
        assert(ks.no_duplicates()) by {
            assert forall|a: int, b: int| 0 <= a < ks.len() && 0 <= b < ks.len() && a != b implies ks[a] != ks[b] by {
                assert(ks[a][0] != ks[b][0] || ks[a][2] != ks[b][2] || ks[a].len() != ks[b].len());
            }
        }
        let n = ms@.len() as int;
        lemma_member_at(ms@, 0);
        lemma_member_at(ms@, 1);
        if hp { lemma_member_at(ms@, 2); }
        if hb { lemma_member_at(ms@, if hp { 3 } else { 2 }); }
        lemma_member_at(ms@, n - 3);
        lemma_member_at(ms@, n - 2);
        lemma_member_at(ms@, n - 1);
    }
    JsonValue::Object(ms)
}

fn default_description_text(key: &str, project: &str) -> (r: String)
    ensures
        r@ == default_description(key@, project@),
{
    let mut m = chars_of("Auto-generated from DSL `");
    extend_chars(&mut m, chars_of(key).as_slice());
    extend_chars(&mut m, chars_of("` in project `").as_slice());
    extend_chars(&mut m, chars_of(project).as_slice());
    extend_chars(&mut m, chars_of("`. Add a `declaration.description` to override.").as_slice());
    string_of(m.as_slice())
}

/// One DSL of a method directory, as the document needs it: its key,
/// the statuses its return steps give, and its declaration.
#[derive(Debug)]
pub struct RouteDoc {
    pub key: String,
    pub statuses: Vec<u16>,
    pub declaration: Option<DeclarationStep>,
}

#[derive(Debug)]
pub struct MethodDocs {
    pub method: String,
    pub routes: Vec<RouteDoc>,
}

#[derive(Debug)]
pub struct ProjectDocs {
    pub project: String,
    pub methods: Vec<MethodDocs>,
}

/// The URL path of a DSL: `/<project>/<key without its leading
/// <method>/ prefixes>`.
pub open spec fn route_path(project: Seq<char>, method: Seq<char>, key: Seq<char>) -> Seq<char> {
    seq!['/'] + project + seq!['/'] + strip_all_prefix(key, method.push('/'))
}

fn route_path_text(project: &str, method: &str, key: &str) -> (r: String)
    ensures
        r@ == route_path(project@, method@, key@),
{
    let mut m = chars_of(method);
    m.push('/');
    let suffix = crate::openapi::strip_all(chars_of(key).as_slice(), m.as_slice());
    let mut out: Vec<char> = Vec::new();
    out.push('/');
    extend_chars(&mut out, chars_of(project).as_slice());
    out.push('/');
    extend_chars(&mut out, suffix.as_slice());
    proof { assert(out@ =~= route_path(project@, method@, key@)); }
    string_of(out.as_slice())
}

/// The operation `op` is the document's entry for route `(p, m, k)`.
pub open spec fn documents(op: JsonValue, docs: Seq<ProjectDocs>, p: int, m: int, k: int) -> bool {
    let pd = docs[p];
    let md = pd.methods@[m];
    let rd = md.routes@[k];
    operation_ok(op, pd.project@, md.method@, rd.key@, rd.declaration, rd.statuses@)
}

/// `(p, m, k)` is a documented route: its method is an OpenAPI method.
pub open spec fn is_doc_route(docs: Seq<ProjectDocs>, p: int, m: int, k: int) -> bool {
    &&& 0 <= p < docs.len()
    &&& 0 <= m < docs[p].methods@.len()
    &&& 0 <= k < docs[p].methods@[m].routes@.len()
    &&& spec_openapi_method(docs[p].methods@[m].method@)
}

pub open spec fn doc_path(docs: Seq<ProjectDocs>, p: int, m: int, k: int) -> Seq<char> {
    route_path(docs[p].project@, docs[p].methods@[m].method@, docs[p].methods@[m].routes@[k].key@)
}

pub open spec fn doc_method(docs: Seq<ProjectDocs>, p: int, m: int) -> Seq<char> {
    lower_seq(docs[p].methods@[m].method@)
}

/// The operation under `method` in the path item of `path`.
pub open spec fn path_op(paths: Seq<(String, JsonValue)>, path: Seq<char>, method: Seq<char>) -> Option<JsonValue> {
    match member_value(paths, path) {
        Some(JsonValue::Object(ops)) => member_value(ops@, method),
        _ => None,
    }
}

/// Every path item is an object in key order.
pub open spec fn items_sorted(paths: Seq<(String, JsonValue)>) -> bool {
    forall|i: int| 0 <= i < paths.len() ==> ((#[trigger] paths[i]).1 matches JsonValue::Object(ops) && sorted_members(ops@))
}

/// Put `op` under `method` in the path item of `path`.
fn put_operation(paths: &mut Vec<(String, JsonValue)>, path: String, method: String, op: JsonValue)
    requires
        sorted_members(old(paths)@),
        items_sorted(old(paths)@),
    ensures
        sorted_members(final(paths)@),
        items_sorted(final(paths)@),
        path_op(final(paths)@, path@, method@) == Some(op),
        forall|q: Seq<char>, mm: Seq<char>| !(q == path@ && mm == method@) ==>
            #[trigger] path_op(final(paths)@, q, mm) == path_op(old(paths)@, q, mm),
        forall|q: Seq<char>| #[trigger] keys_of(final(paths)@).contains(q) <==> (q == path@ || keys_of(old(paths)@).contains(q)),
{
    let ghost before = paths@;
    let ghost opv = op;
    proof { lemma_sorted_distinct(before); }
    let pc = chars_of(path.as_str());
    let mut i: usize = 0;
    let mut found = false;
    while i < paths.len() && !found
        invariant
            i <= paths@.len(),
            paths@ == before,
            pc@ == path@,
            found ==> i < paths@.len() && paths@[i as int].0@ == path@,
            forall|j: int| 0 <= j < i ==> (#[trigger] paths@[j]).0@ != path@,
        decreases paths@.len() - i + (if found { 0int } else { 1int }),
    {
        if chars_eq(chars_of(paths[i].0.as_str()).as_slice(), pc.as_slice()) {
            found = true;
        } else {
            i = i + 1;
        }
    }
    if found {
        proof { lemma_member_at(before, i as int); }
        let mut item = JsonValue::Null;
        std::mem::swap(&mut item, &mut paths[i].1);
        let ghost iv = item;
        proof { assert(iv == before[i as int].1); }
        match item {
            JsonValue::Object(mut ops) => {
                let ghost ops0 = ops@;
                put_member(&mut ops, method, op);
                let k0 = paths[i].0.clone();
                paths.set(i, (k0, JsonValue::Object(ops)));
                proof {
                    let now = paths@;
                    assert forall|j: int| 0 <= j < now.len() implies (#[trigger] now[j]).0@ == before[j].0@ && (j != i ==> now[j] == before[j]) by {}
                    assert(keys_of(now) =~= keys_of(before));
                    assert forall|a: int, b: int| 0 <= a < b < now.len() implies key_lt((#[trigger] now[a]).0@, (#[trigger] now[b]).0@) by {
                        assert(key_lt(before[a].0@, before[b].0@));
                    }
                    assert forall|j: int| 0 <= j < now.len() implies ((#[trigger] now[j]).1 matches JsonValue::Object(o) && sorted_members(o@)) by {
                        if j != i { assert(now[j] == before[j]); }
                    }
                    lemma_sorted_distinct(now);
                    lemma_member_at(now, i as int);
                    assert forall|q: Seq<char>| #[trigger] keys_of(now).contains(q) <==> (q == path@ || keys_of(before).contains(q)) by {
                        if q == path@ { assert(keys_of(before)[i as int] == q); }
                    }
                    assert forall|q: Seq<char>, mm: Seq<char>| !(q == path@ && mm == method@) implies
                        #[trigger] path_op(now, q, mm) == path_op(before, q, mm) by {
                        if keys_of(before).contains(q) {
                            let j = choose|j: int| 0 <= j < keys_of(before).len() && keys_of(before)[j] == q;
                            lemma_member_at(before, j);
                            lemma_member_at(now, j);
                        } else {
                            lemma_member_absent(before, q);
                            lemma_member_absent(now, q);
                        }
                    }
                }
            },
            _ => {
                proof { assert(false); }
            },
        }
    } else {
        let mut ops: Vec<(String, JsonValue)> = Vec::new();
        ops.push((method, op));
        let ghost opsv = ops@;
        proof {
            assert(sorted_members(opsv));
            lemma_sorted_distinct(opsv);
            lemma_member_at(opsv, 0);
            assert(!keys_of(before).contains(path@)) by {
                if keys_of(before).contains(path@) {
                    let j = choose|j: int| 0 <= j < keys_of(before).len() && keys_of(before)[j] == path@;
                }
            }
            lemma_member_absent(before, path@);
        }
        let ghost item = JsonValue::Object(ops);
        put_member(paths, path, JsonValue::Object(ops));
        proof {
            let now = paths@;
            assert forall|q: Seq<char>, mm: Seq<char>| !(q == path@ && mm == method@) implies
                #[trigger] path_op(now, q, mm) == path_op(before, q, mm) by {
                if q == path@ {
                    assert(keys_of(opsv) =~= seq![method@]);
                    assert(!keys_of(opsv).contains(mm)) by {
                        if keys_of(opsv).contains(mm) { assert(keys_of(opsv)[0] == mm); }
                    }
                    lemma_member_absent(opsv, mm);
                }
            }
            lemma_sorted_distinct(now);
            assert forall|j: int| 0 <= j < now.len() implies ((#[trigger] now[j]).1 matches JsonValue::Object(o) && sorted_members(o@)) by {
                let k = now[j].0@;
                assert(keys_of(now)[j] == k);
                lemma_member_at(now, j);
                if k != path@ {
                    assert(keys_of(now).contains(k));
                    assert(keys_of(before).contains(k));
                    let j2 = choose|j2: int| 0 <= j2 < keys_of(before).len() && keys_of(before)[j2] == k;
                    lemma_member_at(before, j2);
                    assert(before[j2].1 matches JsonValue::Object(o) && sorted_members(o@));
                }
            }
        }
    }
}

/// Every operation in `paths` documents a route with that path and
/// method, and every path is some route's.
pub open spec fn paths_sound(paths: Seq<(String, JsonValue)>, docs: Seq<ProjectDocs>) -> bool {
    &&& sorted_members(paths)
    &&& items_sorted(paths)
    &&& forall|q: Seq<char>, mm: Seq<char>| #[trigger] path_op(paths, q, mm) is Some ==> exists|p: int, m: int, k: int|
            #[trigger] is_doc_route(docs, p, m, k) && doc_path(docs, p, m, k) == q && doc_method(docs, p, m) == mm
            && documents(path_op(paths, q, mm)->Some_0, docs, p, m, k)
    &&& forall|q: Seq<char>| #[trigger] keys_of(paths).contains(q) ==> exists|p: int, m: int, k: int|
            #[trigger] is_doc_route(docs, p, m, k) && doc_path(docs, p, m, k) == q
}

/// Operations present before stay present.
pub open spec fn keeps_ops(a: Seq<(String, JsonValue)>, b: Seq<(String, JsonValue)>) -> bool {
    forall|q: Seq<char>, mm: Seq<char>| #[trigger] path_op(a, q, mm) is Some ==> path_op(b, q, mm) is Some
}

fn add_route(paths: &mut Vec<(String, JsonValue)>, docs: &Vec<ProjectDocs>, p: usize, m: usize, k: usize)
    requires
        paths_sound(old(paths)@, docs@),
        is_doc_route(docs@, p as int, m as int, k as int),
    ensures
        paths_sound(final(paths)@, docs@),
        keeps_ops(old(paths)@, final(paths)@),
        path_op(final(paths)@, doc_path(docs@, p as int, m as int, k as int), doc_method(docs@, p as int, m as int)) is Some,
{
    let pd = &docs[p];
    let md = &pd.methods[m];
    let rd = &md.routes[k];
    let op = build_operation(pd.project.as_str(), md.method.as_str(), rd.key.as_str(), &rd.declaration, &rd.statuses);
    let path = route_path_text(pd.project.as_str(), md.method.as_str(), rd.key.as_str());
    let lm = to_lower_vec(chars_of(md.method.as_str()).as_slice());
    let ghost before = paths@;
    let ghost opv = op;
    let ghost pathv = path@;
    let ghost mv = lm@;
    put_operation(paths, path, string_of(lm.as_slice()), op);
    proof {
        let now = paths@;
        assert(documents(opv, docs@, p as int, m as int, k as int));
        assert forall|q: Seq<char>, mm: Seq<char>| #[trigger] path_op(now, q, mm) is Some implies exists|p2: int, m2: int, k2: int|
            #[trigger] is_doc_route(docs@, p2, m2, k2) && doc_path(docs@, p2, m2, k2) == q && doc_method(docs@, p2, m2) == mm
            && documents(path_op(now, q, mm)->Some_0, docs@, p2, m2, k2) by {
            if q == pathv && mm == mv {
                assert(is_doc_route(docs@, p as int, m as int, k as int));
            } else {
                assert(path_op(now, q, mm) == path_op(before, q, mm));
            }
        }
        assert forall|q: Seq<char>| #[trigger] keys_of(now).contains(q) implies exists|p2: int, m2: int, k2: int|
            #[trigger] is_doc_route(docs@, p2, m2, k2) && doc_path(docs@, p2, m2, k2) == q by {
            if q == pathv {
                assert(is_doc_route(docs@, p as int, m as int, k as int));
            } else {
                assert(keys_of(before).contains(q));
            }
        }
        assert forall|q: Seq<char>, mm: Seq<char>| #[trigger] path_op(before, q, mm) is Some implies path_op(now, q, mm) is Some by {
            if !(q == pathv && mm == mv) { assert(path_op(now, q, mm) == path_op(before, q, mm)); }
        }
    }
}

/// All routes of the methods before `m` of project `p`, and of the
/// projects before `p`, are documented.
pub open spec fn routes_done(paths: Seq<(String, JsonValue)>, docs: Seq<ProjectDocs>, p: int, m: int, k: int) -> bool {
    forall|p2: int, m2: int, k2: int| #[trigger] is_doc_route(docs, p2, m2, k2)
        && (p2 < p || (p2 == p && (m2 < m || (m2 == m && k2 < k))))
        ==> path_op(paths, doc_path(docs, p2, m2, k2), doc_method(docs, p2, m2)) is Some
}

/// The `paths` of the document: for each DSL of each HTTP method
/// directory, its operation under its path and lower-cased method.
pub fn build_paths(docs: &Vec<ProjectDocs>) -> (r: Vec<(String, JsonValue)>)
    ensures
        paths_sound(r@, docs@),
        forall|p: int, m: int, k: int| #[trigger] is_doc_route(docs@, p, m, k)
            ==> path_op(r@, doc_path(docs@, p, m, k), doc_method(docs@, p, m)) is Some,
{
    let mut paths: Vec<(String, JsonValue)> = Vec::new();
    proof {
        assert forall|q: Seq<char>, mm: Seq<char>| #[trigger] path_op(paths@, q, mm) is Some implies false by {
            lemma_member_absent(paths@, q);
        }
        assert forall|q: Seq<char>| #[trigger] keys_of(paths@).contains(q) implies false by {
            let j = choose|j: int| 0 <= j < keys_of(paths@).len() && keys_of(paths@)[j] == q;
        }
    }
    let mut p: usize = 0;
    while p < docs.len()
        invariant
            p <= docs@.len(),
            paths_sound(paths@, docs@),
            routes_done(paths@, docs@, p as int, 0, 0),
        decreases docs@.len() - p,
    {
        let mut m: usize = 0;
        while m < docs[p].methods.len()
            invariant
                p < docs@.len(),
                m <= docs@[p as int].methods@.len(),
                paths_sound(paths@, docs@),
                routes_done(paths@, docs@, p as int, m as int, 0),
            decreases docs@[p as int].methods@.len() - m,
        {
            if is_openapi_method(docs[p].methods[m].method.as_str()) {
                let mut k: usize = 0;
                while k < docs[p].methods[m].routes.len()
                    invariant
                        p < docs@.len(),
                        m < docs@[p as int].methods@.len(),
                        k <= docs@[p as int].methods@[m as int].routes@.len(),
                        spec_openapi_method(docs@[p as int].methods@[m as int].method@),
                        paths_sound(paths@, docs@),
                        routes_done(paths@, docs@, p as int, m as int, k as int),
                    decreases docs@[p as int].methods@[m as int].routes@.len() - k,
                {
                    let ghost before = paths@;
                    add_route(&mut paths, docs, p, m, k);
                    proof {
                        assert forall|p2: int, m2: int, k2: int| #[trigger] is_doc_route(docs@, p2, m2, k2)
                            && (p2 < p || (p2 == p && (m2 < m || (m2 == m && k2 < k + 1))))
                            implies path_op(paths@, doc_path(docs@, p2, m2, k2), doc_method(docs@, p2, m2)) is Some by {
                            if !(p2 == p && m2 == m && k2 == k) {
                                assert(path_op(before, doc_path(docs@, p2, m2, k2), doc_method(docs@, p2, m2)) is Some);
                            }
                        }
                    }
                    k = k + 1;
                }
                proof {
                    assert forall|p2: int, m2: int, k2: int| #[trigger] is_doc_route(docs@, p2, m2, k2)
                        && (p2 < p || (p2 == p && (m2 < m + 1 || (m2 == m + 1 && k2 < 0))))
                        implies path_op(paths@, doc_path(docs@, p2, m2, k2), doc_method(docs@, p2, m2)) is Some by {
                        if p2 == p && m2 == m {
                            assert(k2 < docs@[p as int].methods@[m as int].routes@.len());
                        }
                    }
                }
            } else {
                proof {
                    assert forall|p2: int, m2: int, k2: int| #[trigger] is_doc_route(docs@, p2, m2, k2)
                        && (p2 < p || (p2 == p && (m2 < m + 1 || (m2 == m + 1 && k2 < 0))))
                        implies path_op(paths@, doc_path(docs@, p2, m2, k2), doc_method(docs@, p2, m2)) is Some by {
                        if p2 == p && m2 == m {
                            assert(!spec_openapi_method(docs@[p as int].methods@[m as int].method@));
                        }
                    }
                }
            }
            m = m + 1;
        }
        proof {
            assert forall|p2: int, m2: int, k2: int| #[trigger] is_doc_route(docs@, p2, m2, k2)
                && (p2 < p + 1 || (p2 == p + 1 && (m2 < 0 || (m2 == 0 && k2 < 0))))
                implies path_op(paths@, doc_path(docs@, p2, m2, k2), doc_method(docs@, p2, m2)) is Some by {
                if p2 == p {
                    assert(m2 < docs@[p as int].methods@.len());
                }
            }
        }
        p = p + 1;
    }
    paths
}

/// A header declaration of the components: its description and a
/// string schema.
pub open spec fn header_decl_ok(v: JsonValue, description: Seq<char>) -> bool {
    v matches JsonValue::Object(ms) && ms@.len() == 2
        && ms@[0].0@ == "description"@ && is_text(Some(ms@[0].1), description)
        && ms@[1].0@ == "schema"@ && single_text(ms@[1].1, "type"@, "string"@)
}

pub open spec fn trace_id_doc() -> Seq<char> {
    "32-hex trace id extracted from the response's `traceparent`. Ops can grep for this across services."@
}

pub open spec fn traceparent_doc() -> Seq<char> {
    "W3C traceparent (`00-<trace_id>-<span_id>-<flags>`) either adopted from the request or generated fresh."@
}

pub open spec fn api_description() -> Seq<char> {
    "Auto-generated from the DSL tree on disk. Endpoints reflect files present in DSL/<project>/<METHOD>/*.yml at boot; the spec is regenerated on restart."@
}

/// The shared components: the `Error` schema and the two trace headers.
pub open spec fn components_ok(v: JsonValue) -> bool {
    v matches JsonValue::Object(ms) && ms@.len() == 2
        && ms@[0].0@ == "headers"@
        && (ms@[0].1 matches JsonValue::Object(h) && h@.len() == 2
            && h@[0].0@ == "X-Trace-Id"@ && header_decl_ok(h@[0].1, trace_id_doc())
            && h@[1].0@ == "traceparent"@ && header_decl_ok(h@[1].1, traceparent_doc()))
        && ms@[1].0@ == "schemas"@
        && (ms@[1].1 matches JsonValue::Object(sc) && sc@.len() == 1 && sc@[0].0@ == "Error"@
            && (sc@[0].1 matches JsonValue::Object(e) && e@.len() == 3
                && e@[0].0@ == "properties"@
                && (e@[0].1 matches JsonValue::Object(pr) && pr@.len() == 1 && pr@[0].0@ == "error"@
                    && single_text(pr@[0].1, "type"@, "string"@))
                && e@[1].0@ == "required"@ && strings_array(e@[1].1, seq!["error"@])
                && e@[2].0@ == "type"@ && is_text(Some(e@[2].1), "object"@)))
}

/// The whole OpenAPI document of the DSL tree.
pub open spec fn document_ok(r: JsonValue, docs: Seq<ProjectDocs>, version: Seq<char>) -> bool {
    r matches JsonValue::Object(ms) && ms@.len() == 6 && {
        &&& ms@[0].0@ == "components"@ && components_ok(ms@[0].1)
        &&& ms@[1].0@ == "info"@
        &&& (ms@[1].1 matches JsonValue::Object(info) && info@.len() == 4
            && info@[0].0@ == "description"@ && is_text(Some(info@[0].1), api_description())
            && info@[1].0@ == "license"@
            && (info@[1].1 matches JsonValue::Object(l) && l@.len() == 2
                && l@[0].0@ == "identifier"@ && is_text(Some(l@[0].1), "MIT"@)
                && l@[1].0@ == "name"@ && is_text(Some(l@[1].1), "MIT"@))
            && info@[2].0@ == "title"@ && is_text(Some(info@[2].1), "Ruuter-on-Rust DSL API"@)
            && info@[3].0@ == "version"@ && is_text(Some(info@[3].1), version))
        &&& ms@[2].0@ == "openapi"@ && is_text(Some(ms@[2].1), "3.1.0"@)
        &&& ms@[3].0@ == "paths"@
        &&& (ms@[3].1 matches JsonValue::Object(ps) && paths_sound(ps@, docs)
            && forall|p: int, m: int, k: int| #[trigger] is_doc_route(docs, p, m, k)
                ==> path_op(ps@, doc_path(docs, p, m, k), doc_method(docs, p, m)) is Some)
        &&& ms@[4].0@ == "security"@ && (ms@[4].1 matches JsonValue::Array(a) && a@.len() == 0)
        &&& ms@[5].0@ == "servers"@
        &&& (ms@[5].1 matches JsonValue::Array(sv) && sv@.len() == 1
            && (sv@[0] matches JsonValue::Object(so) && so@.len() == 2
                && so@[0].0@ == "description"@ && is_text(Some(so@[0].1), "Same-origin (this Ruuter instance)"@)
                && so@[1].0@ == "url"@ && is_text(Some(so@[1].1), "/"@)))
    }
}


fn header_decl(description: &str) -> (r: JsonValue)
    ensures
        header_decl_ok(r, description@),
{
    let mut ms = one_member("description", JsonValue::String(description.to_string()));
    ms.push(("schema".to_string(), single_text_object("type", "string")));
    JsonValue::Object(ms)
}

fn components() -> (r: JsonValue)
    ensures
        components_ok(r),
{
    let mut headers = one_member("X-Trace-Id", header_decl("32-hex trace id extracted from the response's `traceparent`. Ops can grep for this across services."));
    headers.push(("traceparent".to_string(), header_decl("W3C traceparent (`00-<trace_id>-<span_id>-<flags>`) either adopted from the request or generated fresh.")));
    let props = one_member("error", single_text_object("type", "string"));
    let mut req: Vec<JsonValue> = Vec::new();
    req.push(JsonValue::String("error".to_string()));
    let mut err = one_member("properties", JsonValue::Object(props));
    err.push(("required".to_string(), JsonValue::Array(req)));
    err.push(("type".to_string(), JsonValue::String("object".to_string())));
    let schemas = one_member("Error", JsonValue::Object(err));
    let mut ms = one_member("headers", JsonValue::Object(headers));
    ms.push(("schemas".to_string(), JsonValue::Object(schemas)));
    JsonValue::Object(ms)
}

/// The OpenAPI 3.1 document of the DSL tree, for a service of
/// `service_version`.
pub fn build_spec_from_http(docs: &Vec<ProjectDocs>, service_version: &str) -> (r: JsonValue)
    ensures
        document_ok(r, docs@, service_version@),
{
    let mut license: Vec<(String, JsonValue)> = Vec::new();
    license.push(("identifier".to_string(), JsonValue::String("MIT".to_string())));
    license.push(("name".to_string(), JsonValue::String("MIT".to_string())));
    let mut info: Vec<(String, JsonValue)> = Vec::new();
    info.push(("description".to_string(), JsonValue::String("Auto-generated from the DSL tree on disk. Endpoints reflect files present in DSL/<project>/<METHOD>/*.yml at boot; the spec is regenerated on restart.".to_string())));
    info.push(("license".to_string(), JsonValue::Object(license)));
    info.push(("title".to_string(), JsonValue::String("Ruuter-on-Rust DSL API".to_string())));
    info.push(("version".to_string(), JsonValue::String(service_version.to_string())));
    let mut server: Vec<(String, JsonValue)> = Vec::new();
    server.push(("description".to_string(), JsonValue::String("Same-origin (this Ruuter instance)".to_string())));
    server.push(("url".to_string(), JsonValue::String("/".to_string())));
    let mut servers: Vec<JsonValue> = Vec::new();
    servers.push(JsonValue::Object(server));
    let paths = build_paths(docs);
    let mut ms = one_member("components", components());
    ms.push(("info".to_string(), JsonValue::Object(info)));
    ms.push(("openapi".to_string(), JsonValue::String("3.1.0".to_string())));
    ms.push(("paths".to_string(), JsonValue::Object(paths)));
    ms.push(("security".to_string(), JsonValue::Array(Vec::new())));
    ms.push(("servers".to_string(), JsonValue::Array(servers)));
    JsonValue::Object(ms)
}

} // verus!
