//! Event triggers: `(project, channel, key)` selects a trigger DSL, the
//! way `(method, path)` selects an HTTP one. A channel's `_default`
//! DSL answers every key that has no DSL of its own.
use vstd::prelude::*;
use crate::text::{chars_of, chars_eq};
use crate::json::JsonValue;
use crate::lint::views;
use crate::lint::name_listed;

verus! {

/// The trigger DSL keys loaded for one `(project, channel)`.
#[derive(Debug, Clone)]
pub struct TriggerChannel {
    pub project: String,
    pub channel: String,
    pub keys: Vec<String>,
}

/// The key of the fallback DSL of a channel.
pub const DEFAULT_KEY: &'static str = "_default";

/// Index of the first entry for `(project, channel)`.
pub open spec fn channel_index(t: Seq<TriggerChannel>, project: Seq<char>, channel: Seq<char>) -> Option<int> {
    if exists|i: int| 0 <= i < t.len() && (#[trigger] t[i]).project@ == project && t[i].channel@ == channel {
        Some(choose|i: int| 0 <= i < t.len() && (#[trigger] t[i]).project@ == project && t[i].channel@ == channel
            && forall|j: int| 0 <= j < i ==> !((#[trigger] t[j]).project@ == project && t[j].channel@ == channel))
    } else {
        None
    }
}

/// The DSL key an event runs: its own key when the channel has a DSL
/// for it, else `_default` when the channel has one, else none.
pub open spec fn spec_trigger_key(t: Seq<TriggerChannel>, project: Seq<char>, channel: Seq<char>, key: Seq<char>) -> Option<Seq<char>> {
    match channel_index(t, project, channel) {
        Some(i) => if views(t[i].keys@).contains(key) { Some(key) }
            else if views(t[i].keys@).contains("_default"@) { Some("_default"@) }
            else { None },
        None => None,
    }
}

pub fn trigger_key(table: &Vec<TriggerChannel>, project: &str, channel: &str, key: &str) -> (r: Option<String>)
    ensures
        match r {
            Some(k) => spec_trigger_key(table@, project@, channel@, key@) == Some(k@),
            None => spec_trigger_key(table@, project@, channel@, key@) is None,
        },
{
    let pc = chars_of(project);
    let cc = chars_of(channel);
    let mut i: usize = 0;
    while i < table.len()
        invariant
            i <= table@.len(),
            pc@ == project@,
            cc@ == channel@,
            forall|j: int| 0 <= j < i ==> !((#[trigger] table@[j]).project@ == project@ && table@[j].channel@ == channel@),
        decreases table@.len() - i,
    {
        let e = &table[i];
        if chars_eq(chars_of(e.project.as_str()).as_slice(), pc.as_slice()) && chars_eq(chars_of(e.channel.as_str()).as_slice(), cc.as_slice()) {
            proof {
                let w = choose|w: int| 0 <= w < table@.len() && (#[trigger] table@[w]).project@ == project@ && table@[w].channel@ == channel@
                    && forall|j: int| 0 <= j < w ==> !((#[trigger] table@[j]).project@ == project@ && table@[j].channel@ == channel@);
                assert(w == i as int) by {
                    if w < i { } else if w > i { assert(table@[i as int].project@ == project@ && table@[i as int].channel@ == channel@); }
                }
            }
            let kc = chars_of(key);
            if name_listed(&e.keys, kc.as_slice()) {
                return Some(key.to_string());
            }
            if name_listed(&e.keys, chars_of("_default").as_slice()) {
                return Some("_default".to_string());
            }
            return None;
        }
        i = i + 1;
    }
    None
}

/// The request body a trigger DSL sees: an object payload's members,
/// anything else under `value`.
pub fn trigger_body(payload: JsonValue) -> (r: Vec<(String, JsonValue)>)
    ensures
        match payload {
            JsonValue::Object(ms) => r@ == ms@,
            _ => r@.len() == 1 && r@[0].0@ == "value"@ && r@[0].1 == payload,
        },
{
    match payload {
        JsonValue::Object(ms) => ms,
        other => {
            let mut v: Vec<(String, JsonValue)> = Vec::new();
            v.push(("value".to_string(), other));
            v
        },
    }
}

} // verus!
