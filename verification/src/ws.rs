//! WebSocket connection ids and tags. Every registered connection
//! carries a string-to-string tag map (stamped by `ws_tag` steps);
//! `ws_send` reaches one connection, a list of them, every connection
//! whose id has a prefix, or every connection whose tags match.
use vstd::prelude::*;
use rand::Rng;
use crate::text::{chars_of, string_of, chars_eq, extend_chars, starts_with, is_prefix, contains, contains_seq,
    push_decimal};
use crate::json::{JsonValue, json_text, to_json_string};

verus! {

/// The tag text of an evaluated value: a string as it is, `null` as
/// empty, anything else as its compact JSON.
pub open spec fn tag_text(v: JsonValue) -> Seq<char> {
    match v {
        JsonValue::String(s) => s@,
        JsonValue::Null => Seq::empty(),
        _ => json_text(v),
    }
}

pub fn coerce_tag_value(v: JsonValue) -> (r: String)
    ensures
        r@ == tag_text(v),
{
    match v {
        JsonValue::String(s) => s,
        JsonValue::Null => String::new(),
        other => to_json_string(&other),
    }
}

/// `source:<project>:<name>`.
pub fn source_id(project: &str, source_name: &str) -> (r: String)
    ensures
        r@ == "source:"@ + project@ + ":"@ + source_name@,
{
    let mut out = chars_of("source:");
    extend_chars(&mut out, chars_of(project).as_slice());
    extend_chars(&mut out, chars_of(":").as_slice());
    extend_chars(&mut out, chars_of(source_name).as_slice());
    string_of(out.as_slice())
}

/// Lower-case hex digit.
pub open spec fn hex_lower(d: nat) -> char {
    if d < 10 { ((d + 48) as u32) as char } else { ((d + 87) as u32) as char }
}

/// The last `k` hex digits of `n` (zero-padded).
pub open spec fn hex_digits(n: nat, k: nat) -> Seq<char>
    decreases k,
{
    if k == 0 { Seq::empty() } else { hex_digits(n / 16, (k - 1) as nat).push(hex_lower(n % 16)) }
}

fn hex_char(d: u128) -> (r: char)
    requires
        d < 16,
    ensures
        r == hex_lower(d as nat),
{
    if d < 10 { crate::text::char_from_ascii((d + 48) as u32) } else { crate::text::char_from_ascii((d + 87) as u32) }
}

pub(crate) fn push_hex(out: &mut Vec<char>, n: u128, k: u32)
    ensures
        final(out)@ == old(out)@ + hex_digits(n as nat, k as nat),
    decreases k,
{
    if k > 0 {
        push_hex(out, n / 16, k - 1);
        out.push(hex_char(n % 16));
    }
}

/// `client:` and the 32 lower-case hex digits of `n`.
pub fn client_id(n: u128) -> (r: String)
    ensures
        r@ == "client:"@ + hex_digits(n as nat, 32),
{
    let mut out = chars_of("client:");
    push_hex(&mut out, n, 32);
    string_of(out.as_slice())
}

/// A uniformly random 128-bit number (`rand::thread_rng().gen()`).
/// Nothing is claimed of the value.
#[verifier::external_body]
pub(crate) fn random_u128() -> (r: u128) {
    rand::thread_rng().gen::<u128>()
}

/// A fresh id for an inbound WebSocket client.
pub fn random_client_id() -> (r: String)
    ensures
        exists|n: u128| r@ == "client:"@ + hex_digits(n as nat, 32),
{
    client_id(random_u128())
}

/// No tag name occurs twice (a connection's tags form a map).
pub open spec fn unique_keys(tags: Seq<(String, String)>) -> bool {
    forall|i: int, j: int| 0 <= i < j < tags.len() ==> (#[trigger] tags[i]).0@ != (#[trigger] tags[j]).0@
}

/// Value of the tag named `k`.
pub open spec fn tag_get(tags: Seq<(String, String)>, k: Seq<char>) -> Option<Seq<char>> {
    if exists|i: int| 0 <= i < tags.len() && (#[trigger] tags[i]).0@ == k {
        Some(tags[choose|i: int| 0 <= i < tags.len() && (#[trigger] tags[i]).0@ == k].1@)
    } else {
        None
    }
}

/// With unique names, the entry at `i` is the one `tag_get` reads.
proof fn lemma_tag_at(tags: Seq<(String, String)>, i: int)
    requires
        unique_keys(tags),
        0 <= i < tags.len(),
    ensures
        tag_get(tags, tags[i].0@) == Some(tags[i].1@),
{
    let k = tags[i].0@;
    let w = choose|w: int| 0 <= w < tags.len() && (#[trigger] tags[w]).0@ == k;
    if w < i { assert(tags[w].0@ != tags[i].0@); } else if w > i { assert(tags[i].0@ != tags[w].0@); }
}

/// With unique names, `tag_get` reads the entry at `i`.
pub proof fn lemma_tag_at_pub(tags: Seq<(String, String)>, i: int)
    requires
        unique_keys(tags),
        0 <= i < tags.len(),
    ensures
        tag_get(tags, tags[i].0@) == Some(tags[i].1@),
{
    lemma_tag_at(tags, i);
}

fn tag_lookup(tags: &Vec<(String, String)>, k: &[char]) -> (r: Option<usize>)
    requires
        unique_keys(tags@),
    ensures
        match r {
            Some(i) => i < tags@.len() && tags@[i as int].0@ == k@ && tag_get(tags@, k@) == Some(tags@[i as int].1@),
            None => tag_get(tags@, k@) is None && forall|j: int| 0 <= j < tags@.len() ==> (#[trigger] tags@[j]).0@ != k@,
        },
{
    let mut i: usize = 0;
    while i < tags.len()
        invariant
            i <= tags@.len(),
            unique_keys(tags@),
            forall|j: int| 0 <= j < i ==> (#[trigger] tags@[j]).0@ != k@,
        decreases tags@.len() - i,
    {
        let c = chars_of(tags[i].0.as_str());
        if chars_eq(c.as_slice(), k) {
            proof { lemma_tag_at(tags@, i as int); }
            return Some(i);
        }
        i = i + 1;
    }
    None
}

/// `tag_get` reads only the views of names and values.
proof fn lemma_tag_get_views(a: Seq<(String, String)>, b: Seq<(String, String)>)
    requires
        a.len() == b.len(),
        unique_keys(b),
        forall|q: int| 0 <= q < a.len() ==> (#[trigger] a[q]).0@ == b[q].0@ && a[q].1@ == b[q].1@,
    ensures
        unique_keys(a),
        forall|k: Seq<char>| tag_get(a, k) == tag_get(b, k),
{
    assert forall|i: int, j: int| 0 <= i < j < a.len() implies (#[trigger] a[i]).0@ != (#[trigger] a[j]).0@ by {
        assert(b[i].0@ != b[j].0@);
    }
    assert forall|k: Seq<char>| tag_get(a, k) == tag_get(b, k) by {
        if exists|i: int| 0 <= i < a.len() && (#[trigger] a[i]).0@ == k {
            let i = choose|i: int| 0 <= i < a.len() && (#[trigger] a[i]).0@ == k;
            lemma_tag_at(a, i);
            lemma_tag_at(b, i);
        } else {
            assert forall|i: int| 0 <= i < b.len() implies (#[trigger] b[i]).0@ != k by {
                assert(a[i].0@ != k);
            }
        }
    }
}

/// Set tag `k` to `v`: the existing tag's value replaced, or appended.
pub(crate) fn tag_set(tags: &mut Vec<(String, String)>, k: String, v: String)
    requires
        unique_keys(old(tags)@),
    ensures
        unique_keys(final(tags)@),
        tag_get(final(tags)@, k@) == Some(v@),
        forall|q: Seq<char>| q != k@ ==> tag_get(final(tags)@, q) == tag_get(old(tags)@, q),
{
    let kc = chars_of(k.as_str());
    let ghost before = tags@;
    match tag_lookup(tags, kc.as_slice()) {
        Some(i) => {
            let key = tags[i].0.clone();
            tags.set(i, (key, v));
            proof {
                let now = tags@;
                assert forall|j: int| 0 <= j < now.len() implies (#[trigger] now[j]).0@ == before[j].0@
                    && (j != i ==> now[j] == before[j]) by {}
                assert forall|a: int, b: int| 0 <= a < b < now.len() implies (#[trigger] now[a]).0@ != (#[trigger] now[b]).0@ by {
                    assert(before[a].0@ != before[b].0@);
                }
                lemma_tag_at(now, i as int);
                assert forall|q: Seq<char>| q != k@ implies tag_get(now, q) == tag_get(before, q) by {
                    if exists|j: int| 0 <= j < now.len() && (#[trigger] now[j]).0@ == q {
                        let j = choose|j: int| 0 <= j < now.len() && (#[trigger] now[j]).0@ == q;
                        lemma_tag_at(now, j);
                        lemma_tag_at(before, j);
                    } else {
                        assert forall|j: int| 0 <= j < before.len() implies (#[trigger] before[j]).0@ != q by {
                            assert(now[j].0@ != q);
                        }
                    }
                }
            }
        },
        None => {
            tags.push((k, v));
            proof {
                let now = tags@;
                let n = before.len() as int;
                assert forall|j: int| 0 <= j < n implies now[j] == before[j] by {}
                assert forall|a: int, b: int| 0 <= a < b < now.len() implies (#[trigger] now[a]).0@ != (#[trigger] now[b]).0@ by {
                    if b < n { assert(before[a].0@ != before[b].0@); } else { assert(now[a] == before[a]); }
                }
                lemma_tag_at(now, n);
                assert forall|q: Seq<char>| q != k@ implies tag_get(now, q) == tag_get(before, q) by {
                    if exists|j: int| 0 <= j < now.len() && (#[trigger] now[j]).0@ == q {
                        let j = choose|j: int| 0 <= j < now.len() && (#[trigger] now[j]).0@ == q;
                        lemma_tag_at(now, j);
                        lemma_tag_at(before, j);
                    } else {
                        assert forall|j: int| 0 <= j < before.len() implies (#[trigger] before[j]).0@ != q by {
                            assert(now[j] == before[j]);
                        }
                    }
                }
            }
        },
    }
}

/// The value the last entry named `k` gives, if any.
pub open spec fn last_entry(entries: Seq<(String, String)>, k: Seq<char>) -> Option<Seq<char>>
    decreases entries.len(),
{
    if entries.len() == 0 {
        None
    } else if entries.last().0@ == k {
        Some(entries.last().1@)
    } else {
        last_entry(entries.drop_last(), k)
    }
}

/// Tags of the registered connections.
#[derive(Debug)]
pub struct TagRegistry {
    conns: Vec<(String, Vec<(String, String)>)>,
}

impl TagRegistry {
    /// Index of the connection `id`.
    pub closed spec fn index_of(&self, id: Seq<char>) -> Option<int> {
        if exists|i: int| 0 <= i < self.conns@.len() && (#[trigger] self.conns@[i]).0@ == id {
            Some(choose|i: int| 0 <= i < self.conns@.len() && (#[trigger] self.conns@[i]).0@ == id)
        } else {
            None
        }
    }

    /// `id` is registered.
    pub closed spec fn registered(&self, id: Seq<char>) -> bool {
        self.index_of(id) is Some
    }

    /// Tag `k` of connection `id`.
    pub closed spec fn tag(&self, id: Seq<char>, k: Seq<char>) -> Option<Seq<char>> {
        match self.index_of(id) {
            Some(i) => tag_get(self.conns@[i].1@, k),
            None => None,
        }
    }

    /// Ids are unique.
    closed spec fn ids_distinct(&self) -> bool {
        forall|i: int, j: int| 0 <= i < j < self.conns@.len() ==> (#[trigger] self.conns@[i]).0@ != (#[trigger] self.conns@[j]).0@
    }

    /// Ids are unique, and so are the tag names of each connection.
    pub closed spec fn wf(&self) -> bool {
        &&& self.ids_distinct()
        &&& forall|i: int| 0 <= i < self.conns@.len() ==> unique_keys((#[trigger] self.conns@[i]).1@)
    }

    pub fn new() -> (r: Self)
        ensures
            r.wf(),
            forall|id: Seq<char>| !r.registered(id),
    {
        TagRegistry { conns: Vec::new() }
    }

    fn position(&self, id: &[char]) -> (r: Option<usize>)
        requires
            self.wf(),
        ensures
            match r {
                Some(i) => i < self.conns@.len() && self.conns@[i as int].0@ == id@ && self.index_of(id@) == Some(i as int),
                None => self.index_of(id@) is None,
            },
    {
        let mut i: usize = 0;
        while i < self.conns.len()
            invariant
                i <= self.conns@.len(),
                self.wf(),
                forall|j: int| 0 <= j < i ==> (#[trigger] self.conns@[j]).0@ != id@,
            decreases self.conns@.len() - i,
        {
            let c = chars_of(self.conns[i].0.as_str());
            if chars_eq(c.as_slice(), id) {
                proof {
                    let w = choose|w: int| 0 <= w < self.conns@.len() && (#[trigger] self.conns@[w]).0@ == id@;
                    if w != i as int {
                        if w < i { } else { assert(self.conns@[i as int].0@ != self.conns@[w].0@); }
                    }
                }
                return Some(i);
            }
            i = i + 1;
        }
        None
    }

    /// Register `id` with no tags (an existing registration is
    /// replaced).
    pub fn register(&mut self, id: String)
        requires
            old(self).wf(),
        ensures
            final(self).wf(),
            final(self).registered(id@),
            forall|k: Seq<char>| final(self).tag(id@, k) is None,
            forall|o: Seq<char>| o != id@ ==> final(self).registered(o) == old(self).registered(o),
            forall|o: Seq<char>, k: Seq<char>| o != id@ ==> final(self).tag(o, k) == old(self).tag(o, k),
    {
        let ic = chars_of(id.as_str());
        let ghost before = self.conns@;
        match self.position(ic.as_slice()) {
            Some(i) => {
                let key = self.conns[i].0.clone();
                self.conns.set(i, (key, Vec::new()));
                proof {
                    self.lemma_after_set(before, i as int, id@);
                    assert forall|j: int| 0 <= j < self.conns@.len() implies unique_keys((#[trigger] self.conns@[j]).1@) by {
                        if j != i { assert(self.conns@[j] == before[j]); }
                    }
                }
            },
            None => {
                self.conns.push((id, Vec::new()));
                proof {
                    assert(self.conns@.drop_last() =~= before);
                    self.lemma_after_push(before, ic@);
                    assert forall|j: int| 0 <= j < self.conns@.len() implies unique_keys((#[trigger] self.conns@[j]).1@) by {
                        if j < before.len() { assert(self.conns@[j] == before[j]); }
                    }
                }
            },
        }
    }

    proof fn lemma_after_set(&self, before: Seq<(String, Vec<(String, String)>)>, i: int, id: Seq<char>)
        requires
            0 <= i < before.len(),
            before[i].0@ == id,
            self.conns@.len() == before.len(),
            self.conns@[i].0@ == id,
            forall|j: int| 0 <= j < before.len() && j != i ==> self.conns@[j] == before[j],
            forall|a: int, b: int| 0 <= a < b < before.len() ==> (#[trigger] before[a]).0@ != (#[trigger] before[b]).0@,
        ensures
            self.ids_distinct(),
            self.index_of(id) == Some(i),
            forall|o: Seq<char>| o != id ==> self.index_of(o) == (if exists|j: int| 0 <= j < before.len() && (#[trigger] before[j]).0@ == o {
                Some(choose|j: int| 0 <= j < before.len() && (#[trigger] before[j]).0@ == o) } else { None }),
    {
        assert forall|a: int, b: int| 0 <= a < b < self.conns@.len() implies (#[trigger] self.conns@[a]).0@ != (#[trigger] self.conns@[b]).0@ by {
            if a != i && b != i { assert(self.conns@[a] == before[a] && self.conns@[b] == before[b]); }
            else if a == i { assert(self.conns@[b] == before[b]); } else { assert(self.conns@[a] == before[a]); }
        }
        let w = choose|w: int| 0 <= w < self.conns@.len() && (#[trigger] self.conns@[w]).0@ == id;
        if w != i { if w < i {} else {} }
        assert forall|o: Seq<char>| o != id implies self.index_of(o) == (if exists|j: int| 0 <= j < before.len() && (#[trigger] before[j]).0@ == o {
            Some(choose|j: int| 0 <= j < before.len() && (#[trigger] before[j]).0@ == o) } else { None }) by {
            assert forall|j: int| 0 <= j < before.len() implies ((#[trigger] before[j]).0@ == o <==> self.conns@[j].0@ == o) by {
                if j != i { assert(self.conns@[j] == before[j]); }
            }
            if exists|j: int| 0 <= j < before.len() && (#[trigger] before[j]).0@ == o {
                let w1 = choose|j: int| 0 <= j < before.len() && (#[trigger] before[j]).0@ == o;
                let w2 = choose|j: int| 0 <= j < self.conns@.len() && (#[trigger] self.conns@[j]).0@ == o;
                assert(self.conns@[w1].0@ == o);
                assert(w1 == w2) by {
                    if w1 != w2 {
                        if w1 < w2 { assert(self.conns@[w1].0@ != self.conns@[w2].0@); } else { assert(self.conns@[w2].0@ != self.conns@[w1].0@); }
                    }
                }
            } else {
                assert forall|j: int| 0 <= j < self.conns@.len() implies (#[trigger] self.conns@[j]).0@ != o by {
                    assert(before[j].0@ != o);
                }
            }
        }
    }

    proof fn lemma_after_push(&self, before: Seq<(String, Vec<(String, String)>)>, id: Seq<char>)
        requires
            self.conns@.len() == before.len() + 1,
            self.conns@.drop_last() == before,
            self.conns@.last().0@ == id,
            forall|j: int| 0 <= j < before.len() ==> (#[trigger] before[j]).0@ != id,
            forall|a: int, b: int| 0 <= a < b < before.len() ==> (#[trigger] before[a]).0@ != (#[trigger] before[b]).0@,
        ensures
            self.ids_distinct(),
            self.index_of(id) == Some(before.len() as int),
            forall|o: Seq<char>| o != id ==> self.index_of(o) == (if exists|j: int| 0 <= j < before.len() && (#[trigger] before[j]).0@ == o {
                Some(choose|j: int| 0 <= j < before.len() && (#[trigger] before[j]).0@ == o) } else { None }),
    {
        let n = before.len() as int;
        assert forall|j: int| 0 <= j < n implies self.conns@[j] == before[j] by {
            assert(self.conns@.drop_last()[j] == self.conns@[j]);
        }
        assert forall|a: int, b: int| 0 <= a < b < self.conns@.len() implies (#[trigger] self.conns@[a]).0@ != (#[trigger] self.conns@[b]).0@ by {
            if b < n { assert(self.conns@[a] == before[a] && self.conns@[b] == before[b]); }
            else { assert(self.conns@[a] == before[a]); }
        }
        let w = choose|w: int| 0 <= w < self.conns@.len() && (#[trigger] self.conns@[w]).0@ == id;
        if w < n { assert(self.conns@[w] == before[w]); }
        assert forall|o: Seq<char>| o != id implies self.index_of(o) == (if exists|j: int| 0 <= j < before.len() && (#[trigger] before[j]).0@ == o {
            Some(choose|j: int| 0 <= j < before.len() && (#[trigger] before[j]).0@ == o) } else { None }) by {
            if exists|j: int| 0 <= j < before.len() && (#[trigger] before[j]).0@ == o {
                let w1 = choose|j: int| 0 <= j < before.len() && (#[trigger] before[j]).0@ == o;
                assert(self.conns@[w1] == before[w1]);
                let w2 = choose|j: int| 0 <= j < self.conns@.len() && (#[trigger] self.conns@[j]).0@ == o;
                assert(w1 == w2) by {
                    if w1 != w2 {
                        if w1 < w2 { assert(self.conns@[w1].0@ != self.conns@[w2].0@); } else { assert(self.conns@[w2].0@ != self.conns@[w1].0@); }
                    }
                }
            } else {
                assert forall|j: int| 0 <= j < self.conns@.len() implies (#[trigger] self.conns@[j]).0@ != o by {
                    if j < n { assert(self.conns@[j] == before[j]); }
                }
            }
        }
    }

    /// Forget `id` and its tags.
    pub fn unregister(&mut self, id: &str)
        requires
            old(self).wf(),
        ensures
            final(self).wf(),
            !final(self).registered(id@),
            forall|o: Seq<char>| o != id@ ==> final(self).registered(o) == old(self).registered(o),
    {
        let ic = chars_of(id);
        let ghost before = self.conns@;
        match self.position(ic.as_slice()) {
            Some(i) => {
                self.conns.remove(i);
                proof {
                    let now = self.conns@;
                    assert(now =~= before.remove(i as int));
                    assert forall|a: int, b: int| 0 <= a < b < now.len() implies (#[trigger] now[a]).0@ != (#[trigger] now[b]).0@ by {
                        let a0 = if a < i { a } else { a + 1 };
                        let b0 = if b < i { b } else { b + 1 };
                        assert(now[a] == before[a0] && now[b] == before[b0]);
                    }
                    assert forall|j: int| 0 <= j < now.len() implies unique_keys((#[trigger] now[j]).1@) by {
                        let j0 = if j < i { j } else { j + 1 };
                        assert(now[j] == before[j0]);
                    }
                    assert forall|j: int| 0 <= j < now.len() implies (#[trigger] now[j]).0@ != id@ by {
                        let j0 = if j < i { j } else { j + 1 };
                        assert(now[j] == before[j0]);
                        if j0 < i { assert(before[j0].0@ != before[i as int].0@); } else { assert(before[i as int].0@ != before[j0].0@); }
                    }
                    assert forall|o: Seq<char>| o != id@ implies self.registered(o) == old(self).registered(o) by {
                        if old(self).registered(o) {
                            let w = choose|w: int| 0 <= w < before.len() && (#[trigger] before[w]).0@ == o;
                            assert(w != i);
                            let w1 = if w < i { w } else { w - 1 };
                            assert(now[w1] == before[w]);
                        }
                        if self.registered(o) {
                            let w = choose|w: int| 0 <= w < now.len() && (#[trigger] now[w]).0@ == o;
                            let w0 = if w < i { w } else { w + 1 };
                            assert(now[w] == before[w0]);
                        }
                    }
                }
            },
            None => {},
        }
    }

    /// Merge tags into connection `id`: each entry sets its tag (a
    /// later entry for the same name wins); other tags stay. Errors
    /// when `id` is not registered.
    pub fn set_tags(&mut self, id: &str, entries: Vec<(String, String)>) -> (r: Result<(), String>)
        requires
            old(self).wf(),
        ensures
            final(self).wf(),
            forall|o: Seq<char>| final(self).registered(o) == old(self).registered(o),
            old(self).registered(id@) <==> r is Ok,
            r is Err ==> r->Err_0@ == "ws_tag: no such connection '"@ + id@ + "'"@,
            r is Ok ==> forall|k: Seq<char>| final(self).tag(id@, k) == (match last_entry(entries@, k) {
                Some(v) => Some(v),
                None => old(self).tag(id@, k),
            }),
            forall|o: Seq<char>, k: Seq<char>| o != id@ ==> final(self).tag(o, k) == old(self).tag(o, k),
    {
        let ic = chars_of(id);
        let i = match self.position(ic.as_slice()) {
            Some(i) => i,
            None => {
                let mut m = chars_of("ws_tag: no such connection '");
                extend_chars(&mut m, ic.as_slice());
                extend_chars(&mut m, chars_of("'").as_slice());
                return Err(string_of(m.as_slice()));
            },
        };
        let ghost before = self.conns@;
        let ghost tags0 = self.conns@[i as int].1@;
        let mut tags = Vec::new();
        std::mem::swap(&mut tags, &mut self.conns[i].1);
        let mut es = entries;
        let ghost ev = es@;
        let ghost mut taken: int = 0;
        while es.len() > 0
            invariant
                0 <= taken <= ev.len(),
                es@ == ev.skip(taken),
                unique_keys(tags@),
                forall|k: Seq<char>| tag_get(tags@, k) == (match last_entry(ev.take(taken), k) {
                    Some(v) => Some(v),
                    None => tag_get(tags0, k),
                }),
            decreases es@.len(),
        {
            proof { assert(ev.skip(taken)[0] == ev[taken]); }
            let (k, v) = es.remove(0);
            let ghost kv = k@;
            let ghost vv = v@;
            let ghost tb = tags@;
            tag_set(&mut tags, k, v);
            proof {
                let t1 = ev.take(taken + 1);
                assert(t1.drop_last() =~= ev.take(taken));
                assert(t1.last() == ev[taken]);
                assert forall|q: Seq<char>| tag_get(tags@, q) == (match last_entry(t1, q) {
                    Some(x) => Some(x),
                    None => tag_get(tags0, q),
                }) by {
                    if q == kv {} else {}
                }
                taken = taken + 1;
                assert(es@ =~= ev.skip(taken));
            }
        }
        proof { assert(ev.take(taken) =~= ev); }
        self.conns.set(i, (self.conns[i].0.clone(), tags));
        proof {
            let now = self.conns@;
            assert forall|a: int, b: int| 0 <= a < b < now.len() implies (#[trigger] now[a]).0@ != (#[trigger] now[b]).0@ by {
                if a != i && b != i { assert(now[a] == before[a] && now[b] == before[b]); }
                else if a == i { assert(now[b] == before[b]); } else { assert(now[a] == before[a]); }
            }
            assert forall|j: int| 0 <= j < before.len() implies ((#[trigger] before[j]).0@ == now[j].0@)
                && (j != i ==> now[j] == before[j]) by {}
            assert forall|j: int| 0 <= j < now.len() implies unique_keys((#[trigger] now[j]).1@) by {
                if j != i { assert(now[j] == before[j]); }
            }
            assert forall|o: Seq<char>| self.index_of(o) == old(self).index_of(o) by {
                if exists|j: int| 0 <= j < before.len() && (#[trigger] before[j]).0@ == o {
                    let w1 = choose|j: int| 0 <= j < before.len() && (#[trigger] before[j]).0@ == o;
                    assert(now[w1].0@ == o);
                    let w2 = choose|j: int| 0 <= j < now.len() && (#[trigger] now[j]).0@ == o;
                    assert(w1 == w2) by {
                        if w1 != w2 {
                            if w1 < w2 { assert(now[w1].0@ != now[w2].0@); } else { assert(now[w2].0@ != now[w1].0@); }
                        }
                    }
                } else {
                    assert forall|j: int| 0 <= j < now.len() implies (#[trigger] now[j]).0@ != o by {
                        assert(before[j].0@ != o);
                    }
                }
            }
        }
        Ok(())
    }

    /// The tags of `id` (name, value), or `None` when not registered.
    pub fn tags_of(&self, id: &str) -> (r: Option<Vec<(String, String)>>)
        requires
            self.wf(),
        ensures
            r is Some <==> self.registered(id@),
            r matches Some(t) ==> unique_keys(t@),
            r matches Some(t) ==> forall|k: Seq<char>| tag_get(t@, k) == self.tag(id@, k),
    {
        let ic = chars_of(id);
        match self.position(ic.as_slice()) {
            Some(i) => {
                let src = &self.conns[i].1;
                let mut out: Vec<(String, String)> = Vec::new();
                let mut j: usize = 0;
                while j < src.len()
                    invariant
                        j <= src@.len(),
                        out@.len() == j,
                        forall|q: int| 0 <= q < j ==> (#[trigger] out@[q]).0@ == src@[q].0@ && out@[q].1@ == src@[q].1@,
                    decreases src@.len() - j,
                {
                    out.push((src[j].0.clone(), src[j].1.clone()));
                    j = j + 1;
                }
                proof { lemma_tag_get_views(out@, src@); }
                Some(out)
            },
            None => None,
        }
    }

    /// Number of registered connections.
    pub closed spec fn size(&self) -> nat {
        self.conns@.len()
    }

    /// Number of registered connections.
    pub fn connection_count(&self) -> (r: usize)
        requires
            self.wf(),
        ensures
            r == self.size(),
            r == Set::new(|id: Seq<char>| self.registered(id)).len(),
    {
        proof { self.lemma_size_is_registered_count(); }
        self.conns.len()
    }

    proof fn lemma_size_is_registered_count(&self)
        requires
            self.wf(),
        ensures
            self.conns@.len() == Set::new(|id: Seq<char>| self.registered(id)).len(),
    {
        let ids = self.conns@.map_values(|c: (String, Vec<(String, String)>)| c.0@);
        assert(ids.no_duplicates()) by {
            assert forall|a: int, b: int| 0 <= a < ids.len() && 0 <= b < ids.len() && a != b implies ids[a] != ids[b] by {
                if a < b { assert(self.conns@[a].0@ != self.conns@[b].0@); } else { assert(self.conns@[b].0@ != self.conns@[a].0@); }
            }
        }
        ids.unique_seq_to_set();
        assert(ids.to_set() =~= Set::new(|id: Seq<char>| self.registered(id))) by {
            assert forall|id: Seq<char>| ids.to_set().contains(id) <==> self.registered(id) by {
                if ids.to_set().contains(id) {
                    let j = choose|j: int| 0 <= j < ids.len() && ids[j] == id;
                    assert(self.conns@[j].0@ == id);
                }
                if self.registered(id) {
                    let j = choose|j: int| 0 <= j < self.conns@.len() && (#[trigger] self.conns@[j]).0@ == id;
                    assert(ids[j] == id);
                }
            }
        }
    }

    /// The registered ids.
    pub fn ids(&self) -> (r: Vec<String>)
        ensures
            forall|id: Seq<char>| self.registered(id) <==> exists|i: int| 0 <= i < r@.len() && (#[trigger] r@[i])@ == id,
    {
        let mut out: Vec<String> = Vec::new();
        let mut i: usize = 0;
        while i < self.conns.len()
            invariant
                i <= self.conns@.len(),
                out@.len() == i,
                forall|j: int| 0 <= j < i ==> (#[trigger] out@[j])@ == self.conns@[j].0@,
            decreases self.conns@.len() - i,
        {
            out.push(self.conns[i].0.clone());
            i = i + 1;
        }
        proof {
            assert forall|id: Seq<char>| self.registered(id) <==> exists|i: int| 0 <= i < out@.len() && (#[trigger] out@[i])@ == id by {
                if self.registered(id) {
                    let w = choose|w: int| 0 <= w < self.conns@.len() && (#[trigger] self.conns@[w]).0@ == id;
                    assert(out@[w]@ == id);
                }
                if exists|i: int| 0 <= i < out@.len() && (#[trigger] out@[i])@ == id {
                    let w = choose|w: int| 0 <= w < out@.len() && (#[trigger] out@[w])@ == id;
                    assert(self.conns@[w].0@ == id);
                }
            }
        }
        out
    }
}

/// The test a `broadcast_where` applies to a tag value.
#[derive(Debug, Clone)]
pub enum WhereOp {
    Equals(String),
    Contains(String),
}

/// A `broadcast_where` filter with its operands evaluated.
#[derive(Debug, Clone)]
pub struct ResolvedWhere {
    pub tag: String,
    pub op: WhereOp,
}

impl ResolvedWhere {
    /// Build the filter: the tag name must not be empty, and exactly
    /// one of `equals` / `contains` is given (already evaluated and
    /// coerced to text).
    pub fn resolve(tag: String, equals: Option<String>, contains: Option<String>) -> (r: Result<Self, String>)
        ensures
            tag@.len() == 0 ==> (r matches Err(e) && e@ == "ws_send: broadcast_where.tag resolved to an empty string"@),
            tag@.len() > 0 ==> match (equals, contains) {
                (Some(_), Some(_)) => r matches Err(e) && e@ == "ws_send: broadcast_where takes exactly one of `equals` / `contains`"@,
                (None, None) => r matches Err(e) && e@ == "ws_send: broadcast_where needs one of `equals` / `contains`"@,
                (Some(e), None) => r matches Ok(w) && w.tag@ == tag@ && (w.op matches WhereOp::Equals(x) && x@ == e@),
                (None, Some(c)) => r matches Ok(w) && w.tag@ == tag@ && (w.op matches WhereOp::Contains(x) && x@ == c@),
            },
    {
        if tag.as_str().unicode_len() == 0 {
            return Err("ws_send: broadcast_where.tag resolved to an empty string".to_owned());
        }
        match (equals, contains) {
            (Some(_), Some(_)) => Err("ws_send: broadcast_where takes exactly one of `equals` / `contains`".to_owned()),
            (None, None) => Err("ws_send: broadcast_where needs one of `equals` / `contains`".to_owned()),
            (Some(e), None) => Ok(ResolvedWhere { tag, op: WhereOp::Equals(e) }),
            (None, Some(c)) => Ok(ResolvedWhere { tag, op: WhereOp::Contains(c) }),
        }
    }

    /// The connection's tags pass the filter: the tag exists and equals
    /// (respectively contains) the operand.
    pub open spec fn spec_matches(&self, tags: Seq<(String, String)>) -> bool {
        match tag_get(tags, self.tag@) {
            None => false,
            Some(v) => match self.op {
                WhereOp::Equals(w) => v == w@,
                WhereOp::Contains(n) => contains_seq(v, n@),
            },
        }
    }

    pub fn matches(&self, tags: &Vec<(String, String)>) -> (r: bool)
        requires
            unique_keys(tags@),
        ensures
            r == self.spec_matches(tags@),
    {
        let tc = chars_of(self.tag.as_str());
        match tag_lookup(tags, tc.as_slice()) {
            None => false,
            Some(i) => {
                let v = chars_of(tags[i].1.as_str());
                match &self.op {
                    WhereOp::Equals(w) => chars_eq(v.as_slice(), chars_of(w.as_str()).as_slice()),
                    WhereOp::Contains(n) => contains(v.as_slice(), chars_of(n.as_str()).as_slice()),
                }
            },
        }
    }
}

/// Recipients of a `ws_send` without a broadcast filter.
#[derive(Debug)]
pub enum SendTargets {
    /// One connection.
    Unicast(String),
    /// Each listed connection (an item that is not a string is taken
    /// as its JSON text).
    FanOut(Vec<String>),
}

/// Recipients from the evaluated `to:` (or the current connection
/// when `to:` is absent).
pub fn send_targets(to: Option<JsonValue>, connection_id: &Option<String>) -> (r: Result<SendTargets, String>)
    ensures
        match to {
            Some(JsonValue::String(s)) => r matches Ok(SendTargets::Unicast(t)) && t@ == s@,
            Some(JsonValue::Array(items)) => r matches Ok(SendTargets::FanOut(ids)) && ids@.len() == items@.len()
                && forall|i: int| 0 <= i < items@.len() ==> (#[trigger] ids@[i])@ == crate::outbound::value_text(items@[i]),
            Some(v) => r matches Err(e) && e@ == "ws_send: `to` must resolve to a string or array of strings, got: "@ + json_text(v),
            None => match *connection_id {
                Some(c) => r matches Ok(SendTargets::Unicast(t)) && t@ == c@,
                None => r matches Err(e) && e@ == "ws_send: no `to`, no `broadcast_prefix`, and context has no connection_id"@,
            },
        },
{
    match to {
        None => match connection_id {
            Some(c) => Ok(SendTargets::Unicast(c.clone())),
            None => Err("ws_send: no `to`, no `broadcast_prefix`, and context has no connection_id".to_owned()),
        },
        Some(JsonValue::String(s)) => Ok(SendTargets::Unicast(s)),
        Some(JsonValue::Array(items)) => {
            let mut ids: Vec<String> = Vec::new();
            let mut i: usize = 0;
            while i < items.len()
                invariant
                    i <= items@.len(),
                    ids@.len() == i,
                    forall|j: int| 0 <= j < i ==> (#[trigger] ids@[j])@ == crate::outbound::value_text(items@[j]),
                decreases items@.len() - i,
            {
                ids.push(crate::outbound::value_string(&items[i]));
                i = i + 1;
            }
            Ok(SendTargets::FanOut(ids))
        },
        Some(v) => {
            let mut m = chars_of("ws_send: `to` must resolve to a string or array of strings, got: ");
            let t = to_json_string(&v);
            extend_chars(&mut m, chars_of(t.as_str()).as_slice());
            Err(string_of(m.as_slice()))
        },
    }
}

/// A tag value passes the filter.
pub open spec fn where_holds(f: ResolvedWhere, v: Option<Seq<char>>) -> bool {
    match v {
        None => false,
        Some(x) => match f.op {
            WhereOp::Equals(w) => x == w@,
            WhereOp::Contains(n) => contains_seq(x, n@),
        },
    }
}

impl TagRegistry {
    /// Among the first `n` connections, one is `id` and passes `f`.
    pub closed spec fn matched_among(&self, f: ResolvedWhere, n: int, id: Seq<char>) -> bool {
        exists|j: int| 0 <= j < n && #[trigger] self.conns@[j].0@ == id && f.spec_matches(self.conns@[j].1@)
    }

    /// The registered connections whose tags pass `filter`, each once,
    /// in registration order (the recipients of a `broadcast_where`).
    pub fn matching_ids(&self, filter: &ResolvedWhere) -> (r: Vec<String>)
        requires
            self.wf(),
        ensures
            forall|id: Seq<char>| crate::lint::views(r@).contains(id)
                <==> (self.registered(id) && where_holds(*filter, self.tag(id, filter.tag@))),
            crate::lint::views(r@).no_duplicates(),
    {
        let mut out: Vec<String> = Vec::new();
        let mut i: usize = 0;
        while i < self.conns.len()
            invariant
                i <= self.conns@.len(),
                self.wf(),
                forall|k: int| 0 <= k < out@.len() ==> self.matched_among(*filter, i as int, (#[trigger] out@[k])@),
                forall|j: int| 0 <= j < i && filter.spec_matches(#[trigger] self.conns@[j].1@)
                    ==> crate::lint::views(out@).contains(self.conns@[j].0@),
                forall|a: int, b: int| 0 <= a < b < out@.len() ==> (#[trigger] out@[a])@ != (#[trigger] out@[b])@,
            decreases self.conns@.len() - i,
        {
            proof { assert(unique_keys(self.conns@[i as int].1@)); }
            let ghost before = out@;
            let hit = filter.matches(&self.conns[i].1);
            if hit {
                out.push(self.conns[i].0.clone());
            }
            proof {
                assert forall|k: int| 0 <= k < out@.len() implies self.matched_among(*filter, i + 1, (#[trigger] out@[k])@) by {
                    if k < before.len() {
                        assert(out@[k] == before[k]);
                        assert(self.matched_among(*filter, i as int, before[k]@));
                        let j = choose|j: int| 0 <= j < i && #[trigger] self.conns@[j].0@ == before[k]@ && filter.spec_matches(self.conns@[j].1@);
                        assert(self.conns@[j].0@ == out@[k]@);
                    } else {
                        assert(self.conns@[i as int].0@ == out@[k]@);
                    }
                }
                assert forall|a: int, b: int| 0 <= a < b < out@.len() implies (#[trigger] out@[a])@ != (#[trigger] out@[b])@ by {
                    if b < before.len() {
                        assert(out@[a] == before[a] && out@[b] == before[b]);
                    } else {
                        assert(out@[a] == before[a]);
                        assert(self.matched_among(*filter, i as int, before[a]@));
                        let j = choose|j: int| 0 <= j < i && #[trigger] self.conns@[j].0@ == before[a]@ && filter.spec_matches(self.conns@[j].1@);
                        assert(self.conns@[j].0@ != self.conns@[i as int].0@);
                    }
                }
                assert forall|j: int| 0 <= j < i + 1 && filter.spec_matches(#[trigger] self.conns@[j].1@)
                    implies crate::lint::views(out@).contains(self.conns@[j].0@) by {
                    if j < i {
                        let w = choose|w: int| 0 <= w < crate::lint::views(before).len() && crate::lint::views(before)[w] == self.conns@[j].0@;
                        assert(crate::lint::views(out@)[w] == crate::lint::views(before)[w]);
                    } else {
                        assert(crate::lint::views(out@)[before.len() as int] == self.conns@[i as int].0@);
                    }
                }
            }
            i = i + 1;
        }
        proof {
            let vr = crate::lint::views(out@);
            assert forall|id: Seq<char>| vr.contains(id) <==> (self.registered(id) && where_holds(*filter, self.tag(id, filter.tag@))) by {
                if vr.contains(id) {
                    let k = choose|k: int| 0 <= k < vr.len() && vr[k] == id;
                    assert(self.matched_among(*filter, self.conns@.len() as int, out@[k]@));
                    let j = choose|j: int| 0 <= j < self.conns@.len() && #[trigger] self.conns@[j].0@ == out@[k]@ && filter.spec_matches(self.conns@[j].1@);
                    self.lemma_index_at(j);
                }
                if self.registered(id) && where_holds(*filter, self.tag(id, filter.tag@)) {
                    let j = self.index_of(id)->Some_0;
                    self.lemma_index_at(j);
                    assert(filter.spec_matches(self.conns@[j].1@));
                }
            }
            assert(vr.no_duplicates()) by {
                assert forall|a: int, b: int| 0 <= a < vr.len() && 0 <= b < vr.len() && a != b implies vr[a] != vr[b] by {
                    if a < b { assert(out@[a]@ != out@[b]@); } else { assert(out@[b]@ != out@[a]@); }
                }
            }
        }
        out
    }

    proof fn lemma_index_at(&self, j: int)
        requires
            self.wf(),
            0 <= j < self.conns@.len(),
        ensures
            self.index_of(self.conns@[j].0@) == Some(j),
    {
        let id = self.conns@[j].0@;
        let w = choose|w: int| 0 <= w < self.conns@.len() && (#[trigger] self.conns@[w]).0@ == id;
        if w < j { assert(self.conns@[w].0@ != self.conns@[j].0@); } else if w > j { assert(self.conns@[j].0@ != self.conns@[w].0@); }
    }
}

/// The keys of tag entries joined by commas, in order.
pub open spec fn keys_joined(es: Seq<(String, String)>) -> Seq<char>
    decreases es.len(),
{
    if es.len() == 0 {
        Seq::empty()
    } else if es.len() == 1 {
        es[0].0@
    } else {
        keys_joined(es.drop_last()) + seq![','] + es.last().0@
    }
}

pub open spec fn no_connection_msg() -> Seq<char> {
    "ws_tag: context has no connection_id — ws_tag is only valid inside a WS server DSL"@
}

/// A `ws_tag` step on the connection of the run: each evaluated value
/// coerced to tag text, then merged into the connection's tags. Returns
/// the `keys` log field. Outside a WebSocket DSL (no connection id) the
/// step fails.
pub fn apply_ws_tag(reg: &mut TagRegistry, connection_id: &Option<String>, evaluated: Vec<(String, JsonValue)>)
    -> (r: Result<String, String>)
    requires
        old(reg).wf(),
    ensures
        final(reg).wf(),
        match connection_id {
            None => (r matches Err(e) && e@ == no_connection_msg()) && *final(reg) == *old(reg),
            Some(id) => {
                &&& (r is Ok <==> old(reg).registered(id@))
                &&& (r matches Err(e) ==> e@ == "ws_tag: no such connection '"@ + id@ + "'"@)
                &&& forall|o: Seq<char>| final(reg).registered(o) == old(reg).registered(o)
                &&& forall|o: Seq<char>, k: Seq<char>| o != id@ ==> final(reg).tag(o, k) == old(reg).tag(o, k)
                &&& (r is Ok ==> exists|es: Seq<(String, String)>| {
                        &&& es.len() == evaluated@.len()
                        &&& (forall|i: int| 0 <= i < es.len() ==> (#[trigger] es[i]).0@ == evaluated@[i].0@
                            && es[i].1@ == tag_text(evaluated@[i].1))
                        &&& r->Ok_0@ == keys_joined(es)
                        &&& forall|k: Seq<char>| final(reg).tag(id@, k) == (match last_entry(es, k) {
                            Some(v) => Some(v),
                            None => old(reg).tag(id@, k),
                        })
                    })
            },
        },
{
    let id = match connection_id {
        Some(id) => id,
        None => return Err("ws_tag: context has no connection_id — ws_tag is only valid inside a WS server DSL".to_string()),
    };
    let ghost ev = evaluated@;
    let mut entries: Vec<(String, String)> = Vec::new();
    let mut keys_log: Vec<char> = Vec::new();
    let mut rest = evaluated;
    let ghost mut done: int = 0;
    while rest.len() > 0
        invariant
            0 <= done <= ev.len(),
            rest@ == ev.skip(done),
            entries@.len() == done,
            forall|i: int| 0 <= i < done ==> (#[trigger] entries@[i]).0@ == ev[i].0@ && entries@[i].1@ == tag_text(ev[i].1),
            keys_log@ == keys_joined(entries@),
        decreases rest@.len(),
    {
        proof { assert(ev.skip(done)[0] == ev[done]); }
        let (k, v) = rest.remove(0);
        let ghost before = entries@;
        if entries.len() > 0 {
            keys_log.push(',');
        }
        extend_chars(&mut keys_log, chars_of(k.as_str()).as_slice());
        entries.push((k, coerce_tag_value(v)));
        proof {
            assert(entries@.drop_last() =~= before);
            if before.len() == 0 { assert(keys_log@ =~= entries@[0].0@); }
            else { assert(keys_log@ =~= keys_joined(before) + seq![','] + entries@.last().0@); }
            done = done + 1;
            assert(rest@ =~= ev.skip(done));
        }
    }
    let ghost es = entries@;
    let r = reg.set_tags(id.as_str(), entries);
    match r {
        Ok(()) => Ok(string_of(keys_log.as_slice())),
        Err(e) => Err(e),
    }
}

} // verus!
