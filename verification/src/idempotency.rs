//! Idempotency-Key dedup cache: responses stored under
//! `sha256(idempotency_key | method | project | path)` until they
//! expire. Expired entries are dropped when read, and a bounded number
//! of them on each write.
use vstd::prelude::*;
use vstd::utf8::encode_utf8;
use vstd::string::StrSliceExecFns;
use sha2::{Digest, Sha256};
use crate::json::JsonValue;

verus! {

/// SHA-256 of a byte string (32 bytes).
pub uninterp spec fn sha256(data: Seq<u8>) -> Seq<u8>;

/// `sha2::Sha256` over `data`: the digest of the bytes.
#[verifier::external_body]
fn sha256_digest(data: &[u8]) -> (r: [u8; 32])
    ensures
        r@ == sha256(data@),
{
    let mut h = Sha256::new();
    h.update(data);
    h.finalize().into()
}

/// The bytes the dedup key hashes: the four fields' UTF-8, joined by `|`.
pub open spec fn dedup_input(key: Seq<char>, method: Seq<char>, project: Seq<char>, path: Seq<char>) -> Seq<u8> {
    encode_utf8(key) + seq![124u8] + encode_utf8(method) + seq![124u8] + encode_utf8(project) + seq![124u8] + encode_utf8(path)
}

fn append_bytes(out: &mut Vec<u8>, b: &Vec<u8>)
    ensures
        final(out)@ == old(out)@ + b@,
{
    let mut i: usize = 0;
    let ghost before = out@;
    while i < b.len()
        invariant
            i <= b@.len(),
            out@ == before + b@.subrange(0, i as int),
        decreases b@.len() - i,
    {
        out.push(b[i]);
        i = i + 1;
        proof { assert(out@ =~= before + b@.subrange(0, i as int)); }
    }
    proof { assert(b@.subrange(0, b@.len() as int) =~= b@); }
}

/// A stored response.
#[derive(Debug)]
pub struct StoredResponse {
    pub status: u16,
    pub body: Option<JsonValue>,
    pub headers: Vec<(String, String)>,
    /// Milliseconds on the store's clock after which it is stale.
    pub expires_at_ms: u64,
}

/// The cache.
#[derive(Debug)]
pub struct IdempotencyStore {
    entries: Vec<([u8; 32], StoredResponse)>,
    ttl_ms: u64,
}

/// Index of `key` among the entries.
pub open spec fn key_index(es: Seq<([u8; 32], StoredResponse)>, key: Seq<u8>) -> Option<int> {
    if exists|i: int| 0 <= i < es.len() && (#[trigger] es[i]).0@ == key {
        Some(choose|i: int| 0 <= i < es.len() && (#[trigger] es[i]).0@ == key)
    } else {
        None
    }
}

/// Maximum number of expired entries dropped per write.
pub const SWEEP_LIMIT: usize = 32;

impl IdempotencyStore {
    /// Keys are distinct.
    pub closed spec fn wf(&self) -> bool {
        unique_keys(self.entries@)
    }

    /// The response stored under `key`.
    pub closed spec fn stored(&self, key: Seq<u8>) -> Option<StoredResponse> {
        value_at(self.entries@, key)
    }

    /// How long a stored response lives.
    pub closed spec fn ttl(&self) -> u64 {
        self.ttl_ms
    }

    pub closed spec fn size(&self) -> nat {
        self.entries@.len()
    }

    pub fn new(ttl_ms: u64) -> (r: Self)
        ensures
            r.wf(),
            r.size() == 0,
            r.ttl() == ttl_ms,
            forall|k: Seq<u8>| r.stored(k) is None,
    {
        IdempotencyStore { entries: Vec::new(), ttl_ms }
    }

    /// The dedup key of a request.
    pub fn dedup_key(idempotency_key: &str, method: &str, project: &str, path: &str) -> (r: [u8; 32])
        ensures
            r@ == sha256(dedup_input(idempotency_key@, method@, project@, path@)),
    {
        let mut data: Vec<u8> = Vec::new();
        append_bytes(&mut data, &idempotency_key.as_bytes_vec());
        data.push(124u8);
        append_bytes(&mut data, &method.as_bytes_vec());
        data.push(124u8);
        append_bytes(&mut data, &project.as_bytes_vec());
        data.push(124u8);
        append_bytes(&mut data, &path.as_bytes_vec());
        proof { assert(data@ =~= dedup_input(idempotency_key@, method@, project@, path@)); }
        sha256_digest(data.as_slice())
    }

    pub fn len(&self) -> (r: usize)
        ensures
            r == self.size(),
    {
        self.entries.len()
    }

    fn find(&self, key: &[u8; 32]) -> (r: Option<usize>)
        requires
            self.wf(),
        ensures
            match r {
                Some(i) => i < self.entries@.len() && self.entries@[i as int].0@ == key@ && key_index(self.entries@, key@) == Some(i as int),
                None => key_index(self.entries@, key@) is None,
            },
    {
        let mut i: usize = 0;
        while i < self.entries.len()
            invariant
                i <= self.entries@.len(),
                self.wf(),
                forall|j: int| 0 <= j < i ==> (#[trigger] self.entries@[j]).0@ != key@,
            decreases self.entries@.len() - i,
        {
            if bytes_eq(&self.entries[i].0, key) {
                proof {
                    let w = choose|w: int| 0 <= w < self.entries@.len() && (#[trigger] self.entries@[w]).0@ == key@;
                    if w < i { } else if w > i { assert(self.entries@[i as int].0@ != self.entries@[w].0@); }
                }
                return Some(i);
            }
            i = i + 1;
        }
        None
    }

    /// The response stored under `key` unless it has expired at
    /// `now_ms`; an expired entry is dropped.
    pub fn get_at(&mut self, key: &[u8; 32], now_ms: u64) -> (r: Option<&StoredResponse>)
        requires
            old(self).wf(),
        ensures
            final(self).wf(),
            final(self).ttl() == old(self).ttl(),
            match old(self).stored(key@) {
                Some(s) => if s.expires_at_ms <= now_ms {
                    r is None && final(self).stored(key@) is None
                } else {
                    (r matches Some(x) && *x == s) && final(self).stored(key@) == Some(s)
                },
                None => r is None && final(self).stored(key@) is None,
            },
            forall|k: Seq<u8>| k != key@ ==> #[trigger] final(self).stored(k) == old(self).stored(k),
    {
        match self.find(key) {
            Some(i) => {
                if self.entries[i].1.expires_at_ms <= now_ms {
                    let ghost before = self.entries@;
                    self.entries.remove(i);
                    proof {
                        lemma_value_at(before, i as int);
                        self.lemma_removed(before, i as int);
                    }
                    None
                } else {
                    proof { lemma_value_at(self.entries@, i as int); }
                    Some(&self.entries[i].1)
                }
            },
            None => None,
        }
    }

    proof fn lemma_removed(&self, before: Seq<([u8; 32], StoredResponse)>, i: int)
        requires
            0 <= i < before.len(),
            self.entries@ == before.remove(i),
            unique_keys(before),
        ensures
            self.wf(),
            value_at(self.entries@, before[i].0@) is None,
            forall|k: Seq<u8>| k != before[i].0@ ==> #[trigger] value_at(self.entries@, k) == value_at(before, k),
    {
        let now = self.entries@;
        assert forall|a: int, b: int| 0 <= a < b < now.len() implies (#[trigger] now[a]).0@ != (#[trigger] now[b]).0@ by {
            let a0 = if a < i { a } else { a + 1 };
            let b0 = if b < i { b } else { b + 1 };
            assert(now[a] == before[a0] && now[b] == before[b0]);
        }
        assert forall|j: int| 0 <= j < now.len() implies (#[trigger] now[j]).0@ != before[i].0@ by {
            let j0 = if j < i { j } else { j + 1 };
            assert(now[j] == before[j0]);
            if j0 < i { assert(before[j0].0@ != before[i].0@); } else { assert(before[i].0@ != before[j0].0@); }
        }
        assert forall|k: Seq<u8>| k != before[i].0@ implies #[trigger] value_at(now, k) == value_at(before, k) by {
            if exists|j: int| 0 <= j < now.len() && (#[trigger] now[j]).0@ == k {
                let j = choose|j: int| 0 <= j < now.len() && (#[trigger] now[j]).0@ == k;
                let j0 = if j < i { j } else { j + 1 };
                assert(now[j] == before[j0]);
                lemma_value_at(now, j);
                lemma_value_at(before, j0);
            } else {
                assert forall|j: int| 0 <= j < before.len() implies (#[trigger] before[j]).0@ != k by {
                    if j < i { assert(now[j] == before[j]); } else if j > i { assert(now[j - 1] == before[j]); }
                }
            }
        }
    }
}

/// Keys are distinct.
pub open spec fn unique_keys(es: Seq<([u8; 32], StoredResponse)>) -> bool {
    forall|i: int, j: int| 0 <= i < j < es.len() ==> (#[trigger] es[i]).0@ != (#[trigger] es[j]).0@
}

/// The response stored under `key`.
pub open spec fn value_at(es: Seq<([u8; 32], StoredResponse)>, key: Seq<u8>) -> Option<StoredResponse> {
    match key_index(es, key) {
        Some(i) => Some(es[i].1),
        None => None,
    }
}

proof fn lemma_value_at(es: Seq<([u8; 32], StoredResponse)>, j: int)
    requires
        unique_keys(es),
        0 <= j < es.len(),
    ensures
        value_at(es, es[j].0@) == Some(es[j].1),
        key_index(es, es[j].0@) == Some(j),
{
    let k = es[j].0@;
    let w = choose|w: int| 0 <= w < es.len() && (#[trigger] es[w]).0@ == k;
    if w < j { assert(es[w].0@ != es[j].0@); } else if w > j { assert(es[j].0@ != es[w].0@); }
}

fn bytes_eq(a: &[u8; 32], b: &[u8; 32]) -> (r: bool)
    ensures
        r == (a@ == b@),
{
    let mut i: usize = 0;
    while i < 32
        invariant
            i <= 32,
            a@.len() == 32 && b@.len() == 32,
            forall|j: int| 0 <= j < i ==> a@[j] == b@[j],
        decreases 32 - i,
    {
        if a[i] != b[i] {
            return false;
        }
        i = i + 1;
    }
    proof { assert(a@ =~= b@); }
    true
}

impl IdempotencyStore {
    /// Store a response under `key`, expiring `ttl` after `now_ms`.
    /// First up to `SWEEP_LIMIT` expired entries are dropped (in
    /// storage order); live entries all stay.
    pub fn insert_at(&mut self, key: [u8; 32], status: u16, body: Option<JsonValue>, headers: Vec<(String, String)>, now_ms: u64)
        requires
            old(self).wf(),
            now_ms as int + old(self).ttl() as int <= u64::MAX,
        ensures
            final(self).wf(),
            final(self).ttl() == old(self).ttl(),
            final(self).stored(key@) matches Some(s) && s.status == status && s.body == body && s.headers == headers
                && s.expires_at_ms == now_ms + old(self).ttl(),
            forall|k: Seq<u8>| k != key@ ==> match #[trigger] old(self).stored(k) {
                Some(s) => if s.expires_at_ms > now_ms { final(self).stored(k) == Some(s) }
                    else { final(self).stored(k) is None || final(self).stored(k) == Some(s) },
                None => final(self).stored(k) is None,
            },
            final(self).size() + SWEEP_LIMIT >= old(self).size(),
            final(self).size() <= old(self).size() + 1,
    {
        let ghost all = self.entries@;
        let mut rest: Vec<([u8; 32], StoredResponse)> = Vec::new();
        std::mem::swap(&mut rest, &mut self.entries);
        let mut kept: Vec<([u8; 32], StoredResponse)> = Vec::new();
        let mut swept: usize = 0;
        let ghost mut idx: Seq<int> = Seq::empty();
        let ghost mut done: int = 0;
        while rest.len() > 0
            invariant
                unique_keys(all),
                0 <= done <= all.len(),
                rest@ == all.skip(done),
                kept@.len() == idx.len(),
                swept == done - idx.len(),
                swept <= SWEEP_LIMIT,
                forall|j: int| 0 <= j < idx.len() ==> 0 <= #[trigger] idx[j] < done && kept@[j] == all[idx[j]],
                forall|a: int, b: int| 0 <= a < b < idx.len() ==> #[trigger] idx[a] < #[trigger] idx[b],
                forall|m: int| 0 <= m < done && all[m].1.expires_at_ms > now_ms ==> exists|j: int| 0 <= j < idx.len() && #[trigger] idx[j] == m,
            decreases rest@.len(),
        {
            proof { assert(all.skip(done)[0] == all[done]); }
            let e = rest.remove(0);
            if e.1.expires_at_ms <= now_ms && swept < SWEEP_LIMIT {
                swept = swept + 1;
                proof {
                    done = done + 1;
                    assert(rest@ =~= all.skip(done));
                }
            } else {
                kept.push(e);
                proof {
                    let m = done;
                    let old_idx = idx;
                    idx = idx.push(m);
                    assert forall|j: int| 0 <= j < idx.len() implies 0 <= #[trigger] idx[j] < done + 1 && kept@[j] == all[idx[j]] by {
                        if j < old_idx.len() { assert(idx[j] == old_idx[j]); }
                    }
                    assert forall|mm: int| 0 <= mm < done + 1 && all[mm].1.expires_at_ms > now_ms implies exists|j: int| 0 <= j < idx.len() && #[trigger] idx[j] == mm by {
                        if mm < done {
                            let j = choose|j: int| 0 <= j < old_idx.len() && #[trigger] old_idx[j] == mm;
                            assert(idx[j] == mm);
                        } else {
                            assert(idx[old_idx.len() as int] == mm);
                        }
                    }
                    done = done + 1;
                    assert(rest@ =~= all.skip(done));
                }
            }
        }
        proof {
            assert(done == all.len());
            let kv = kept@;
            assert forall|a: int, b: int| 0 <= a < b < kv.len() implies (#[trigger] kv[a]).0@ != (#[trigger] kv[b]).0@ by {
                assert(idx[a] < idx[b]);
            }
            assert forall|k: Seq<u8>| #[trigger] value_at(kv, k) is Some ==> value_at(kv, k) == value_at(all, k) by {
                if value_at(kv, k) is Some {
                    let j = choose|j: int| 0 <= j < kv.len() && (#[trigger] kv[j]).0@ == k;
                    lemma_value_at(kv, j);
                    lemma_value_at(all, idx[j]);
                }
            }
            assert forall|k: Seq<u8>| (#[trigger] value_at(all, k) is Some && value_at(all, k)->Some_0.expires_at_ms > now_ms)
                implies value_at(kv, k) == value_at(all, k) by {
                let m = choose|m: int| 0 <= m < all.len() && (#[trigger] all[m]).0@ == k;
                lemma_value_at(all, m);
                let j = choose|j: int| 0 <= j < idx.len() && #[trigger] idx[j] == m;
                assert(kv[j] == all[m]);
                lemma_value_at(kv, j);
            }
        }
        self.entries = kept;
        let ghost mid = self.entries@;
        let resp = StoredResponse { status, body, headers, expires_at_ms: now_ms + self.ttl_ms };
        let ghost rv = resp;
        match self.find(&key) {
            Some(i) => {
                self.entries.set(i, (key, resp));
                proof {
                    let now = self.entries@;
                    assert forall|a: int, b: int| 0 <= a < b < now.len() implies (#[trigger] now[a]).0@ != (#[trigger] now[b]).0@ by {
                        if a != i && b != i { assert(now[a] == mid[a] && now[b] == mid[b]); }
                        else if a == i { assert(now[b] == mid[b]); assert(mid[a].0@ != mid[b].0@); }
                        else { assert(now[a] == mid[a]); assert(mid[a].0@ != mid[b].0@); }
                    }
                    lemma_value_at(now, i as int);
                    assert forall|k: Seq<u8>| k != key@ implies #[trigger] value_at(now, k) == value_at(mid, k) by {
                        if exists|j: int| 0 <= j < now.len() && (#[trigger] now[j]).0@ == k {
                            let j = choose|j: int| 0 <= j < now.len() && (#[trigger] now[j]).0@ == k;
                            assert(j != i);
                            assert(now[j] == mid[j]);
                            lemma_value_at(now, j);
                            lemma_value_at(mid, j);
                        } else {
                            assert forall|j: int| 0 <= j < mid.len() implies (#[trigger] mid[j]).0@ != k by {
                                if j != i { assert(now[j] == mid[j]); }
                            }
                        }
                    }
                }
            },
            None => {
                self.entries.push((key, resp));
                proof {
                    let now = self.entries@;
                    let n = mid.len() as int;
                    assert forall|j: int| 0 <= j < n implies now[j] == mid[j] by {}
                    assert forall|a: int, b: int| 0 <= a < b < now.len() implies (#[trigger] now[a]).0@ != (#[trigger] now[b]).0@ by {
                        if b < n { assert(mid[a].0@ != mid[b].0@); } else { assert(now[a] == mid[a]); }
                    }
                    lemma_value_at(now, n);
                    assert forall|k: Seq<u8>| k != key@ implies #[trigger] value_at(now, k) == value_at(mid, k) by {
                        if exists|j: int| 0 <= j < now.len() && (#[trigger] now[j]).0@ == k {
                            let j = choose|j: int| 0 <= j < now.len() && (#[trigger] now[j]).0@ == k;
                            assert(j < n);
                            lemma_value_at(now, j);
                            lemma_value_at(mid, j);
                        } else {
                            assert forall|j: int| 0 <= j < mid.len() implies (#[trigger] mid[j]).0@ != k by {
                                assert(now[j] == mid[j]);
                            }
                        }
                    }
                }
            },
        }
        proof {
            assert forall|k: Seq<u8>| k != key@ implies match #[trigger] old(self).stored(k) {
                Some(s) => if s.expires_at_ms > now_ms { self.stored(k) == Some(s) }
                    else { self.stored(k) is None || self.stored(k) == Some(s) },
                None => self.stored(k) is None,
            } by {
                assert(self.stored(k) == value_at(mid, k));
                assert(old(self).stored(k) == value_at(all, k));
                if value_at(mid, k) is Some {
                    assert(value_at(mid, k) == value_at(all, k));
                }
                if value_at(all, k) is Some && value_at(all, k)->Some_0.expires_at_ms > now_ms {
                    assert(value_at(mid, k) == value_at(all, k));
                }
            }
        }
    }
}

} // verus!
