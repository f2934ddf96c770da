//! Pieces of the DSL test runner (`dsl-test`): header lookups and
//! header expectations on a response, the mock-upstream substitution in
//! constants, and the summary of a run.
use vstd::prelude::*;
use crate::text::{chars_of, string_of, chars_eq, extend_chars, eq_ignore_ascii_case, eq_ignore_case, is_prefix, matches_at,
    occurs_at};
use crate::ws::{unique_keys, tag_get, tag_set};

verus! {

/// The value of the first header whose name equals `name`, ASCII case
/// ignored.
pub open spec fn header_ci(headers: Seq<(String, String)>, name: Seq<char>) -> Option<Seq<char>> {
    if exists|i: int| 0 <= i < headers.len() && eq_ignore_case((#[trigger] headers[i]).0@, name) {
        Some(headers[choose|i: int| 0 <= i < headers.len() && eq_ignore_case((#[trigger] headers[i]).0@, name)
            && forall|j: int| 0 <= j < i ==> !eq_ignore_case((#[trigger] headers[j]).0@, name)].1@)
    } else {
        None
    }
}

pub fn get_header_ci(headers: &Vec<(String, String)>, name: &str) -> (r: Option<String>)
    ensures
        match r {
            Some(v) => header_ci(headers@, name@) == Some(v@),
            None => header_ci(headers@, name@) is None,
        },
{
    let nc = chars_of(name);
    let mut i: usize = 0;
    while i < headers.len()
        invariant
            i <= headers@.len(),
            nc@ == name@,
            forall|j: int| 0 <= j < i ==> !eq_ignore_case((#[trigger] headers@[j]).0@, name@),
        decreases headers@.len() - i,
    {
        if eq_ignore_ascii_case(chars_of(headers[i].0.as_str()).as_slice(), nc.as_slice()) {
            proof {
                let w = choose|w: int| 0 <= w < headers@.len() && eq_ignore_case((#[trigger] headers@[w]).0@, name@)
                    && forall|j: int| 0 <= j < w ==> !eq_ignore_case((#[trigger] headers@[j]).0@, name@);
                assert(w == i as int) by {
                    if w < i { } else if w > i { assert(eq_ignore_case(headers@[i as int].0@, name@)); }
                }
            }
            return Some(headers[i].1.clone());
        }
        i = i + 1;
    }
    None
}

/// Why a response's headers fail a scenario's expectations.
#[derive(Debug)]
pub enum HeaderMismatch {
    /// `(name, expected, actual)`.
    WrongValue(String, String, String),
    /// `(name, expected)`.
    Missing(String, String),
    ShouldBePresent(String),
    ShouldBeAbsent(String),
    /// `(expected, actual)` for `Idempotency-Replayed: true`.
    Replayed(bool, bool),
}

/// The response replayed a stored result: it carries
/// `Idempotency-Replayed: true` (case ignored).
pub open spec fn replayed_of(headers: Seq<(String, String)>) -> bool {
    match header_ci(headers, "idempotency-replayed"@) {
        Some(v) => eq_ignore_case(v, "true"@),
        None => false,
    }
}

/// All header expectations hold.
pub open spec fn headers_meet(headers: Seq<(String, String)>, expect: Seq<(String, String)>, present: Seq<String>,
    absent: Seq<String>, replayed: Option<bool>) -> bool
{
    &&& forall|i: int| 0 <= i < expect.len() ==> header_ci(headers, (#[trigger] expect[i]).0@) == Some(expect[i].1@)
    &&& forall|i: int| 0 <= i < present.len() ==> header_ci(headers, (#[trigger] present[i])@) is Some
    &&& forall|i: int| 0 <= i < absent.len() ==> header_ci(headers, (#[trigger] absent[i])@) is None
    &&& (replayed matches Some(b) ==> replayed_of(headers) == b)
}

/// Check the header expectations of a scenario in order: each expected
/// value, each header that must be present, each that must be absent,
/// then the replay flag. The first failure is reported.
#[verifier::rlimit(80)]
pub fn check_headers(headers: &Vec<(String, String)>, expect: &Vec<(String, String)>, present: &Vec<String>,
    absent: &Vec<String>, replayed: Option<bool>) -> (r: Result<(), HeaderMismatch>)
    ensures
        r is Ok <==> headers_meet(headers@, expect@, present@, absent@, replayed),
        r matches Err(HeaderMismatch::WrongValue(k, v, a)) ==> exists|i: int| 0 <= i < expect@.len()
            && (#[trigger] expect@[i]).0@ == k@ && expect@[i].1@ == v@ && header_ci(headers@, k@) == Some(a@) && a@ != v@,
        r matches Err(HeaderMismatch::Missing(k, v)) ==> exists|i: int| 0 <= i < expect@.len()
            && (#[trigger] expect@[i]).0@ == k@ && expect@[i].1@ == v@ && header_ci(headers@, k@) is None,
        r matches Err(HeaderMismatch::ShouldBePresent(k)) ==> header_ci(headers@, k@) is None,
        r matches Err(HeaderMismatch::ShouldBeAbsent(k)) ==> header_ci(headers@, k@) is Some,
        r matches Err(HeaderMismatch::Replayed(e, a)) ==> replayed == Some(e) && replayed_of(headers@) == a && a != e,
{
    let mut i: usize = 0;
    while i < expect.len()
        invariant
            i <= expect@.len(),
            forall|j: int| 0 <= j < i ==> header_ci(headers@, (#[trigger] expect@[j]).0@) == Some(expect@[j].1@),
        decreases expect@.len() - i,
    {
        match get_header_ci(headers, expect[i].0.as_str()) {
            Some(a) => {
                if !chars_eq(chars_of(a.as_str()).as_slice(), chars_of(expect[i].1.as_str()).as_slice()) {
                    return Err(HeaderMismatch::WrongValue(expect[i].0.clone(), expect[i].1.clone(), a));
                }
            },
            None => return Err(HeaderMismatch::Missing(expect[i].0.clone(), expect[i].1.clone())),
        }
        i = i + 1;
    }
    let mut i: usize = 0;
    while i < present.len()
        invariant
            i <= present@.len(),
            forall|j: int| 0 <= j < expect@.len() ==> header_ci(headers@, (#[trigger] expect@[j]).0@) == Some(expect@[j].1@),
            forall|j: int| 0 <= j < i ==> header_ci(headers@, (#[trigger] present@[j])@) is Some,
        decreases present@.len() - i,
    {
        if get_header_ci(headers, present[i].as_str()).is_none() {
            return Err(HeaderMismatch::ShouldBePresent(present[i].clone()));
        }
        i = i + 1;
    }
    let mut i: usize = 0;
    while i < absent.len()
        invariant
            i <= absent@.len(),
            forall|j: int| 0 <= j < expect@.len() ==> header_ci(headers@, (#[trigger] expect@[j]).0@) == Some(expect@[j].1@),
            forall|j: int| 0 <= j < present@.len() ==> header_ci(headers@, (#[trigger] present@[j])@) is Some,
            forall|j: int| 0 <= j < i ==> header_ci(headers@, (#[trigger] absent@[j])@) is None,
        decreases absent@.len() - i,
    {
        if get_header_ci(headers, absent[i].as_str()).is_some() {
            return Err(HeaderMismatch::ShouldBeAbsent(absent[i].clone()));
        }
        i = i + 1;
    }
    match replayed {
        Some(want) => {
            let hit = match get_header_ci(headers, "idempotency-replayed") {
                Some(v) => eq_ignore_ascii_case(chars_of(v.as_str()).as_slice(), chars_of("true").as_slice()),
                None => false,
            };
            if hit != want {
                return Err(HeaderMismatch::Replayed(want, hit));
            }
            Ok(())
        },
        None => Ok(()),
    }
}

/// `s` with every occurrence of the non-empty `pat` (left to right,
/// not overlapping) replaced by `rep`.
pub open spec fn replace_all(s: Seq<char>, pat: Seq<char>, rep: Seq<char>) -> Seq<char>
    decreases s.len(),
{
    if s.len() == 0 || pat.len() == 0 {
        s
    } else if is_prefix(pat, s) {
        rep + replace_all(s.skip(pat.len() as int), pat, rep)
    } else {
        seq![s[0]] + replace_all(s.skip(1), pat, rep)
    }
}

fn replace_chars(s: &[char], pat: &[char], rep: &[char]) -> (r: Vec<char>)
    requires
        pat@.len() > 0,
    ensures
        r@ + replace_all(s@.skip(s@.len() as int), pat@, rep@) == replace_all(s@, pat@, rep@),
{
    let mut out: Vec<char> = Vec::new();
    let mut i: usize = 0;
    let n = s.len();
    proof { assert(s@.skip(0) =~= s@); }
    while i < n
        invariant
            i <= n,
            n == s@.len(),
            pat@.len() > 0,
            out@ + replace_all(s@.skip(i as int), pat@, rep@) == replace_all(s@, pat@, rep@),
        decreases n - i,
    {
        let ghost rest = s@.skip(i as int);
        if matches_at(s, pat, i) {
            proof {
                assert(rest.subrange(0, pat@.len() as int) =~= s@.subrange(i as int, i + pat@.len()));
                assert(rest.skip(pat@.len() as int) =~= s@.skip(i + pat@.len()));
            }
            extend_chars(&mut out, rep);
            i = i + pat.len();
        } else {
            proof {
                if is_prefix(pat@, rest) {
                    assert(rest.subrange(0, pat@.len() as int) =~= s@.subrange(i as int, i + pat@.len()));
                }
                assert(rest.skip(1) =~= s@.skip(i + 1));
                assert(rest[0] == s@[i as int]);
            }
            out.push(s[i]);
            i = i + 1;
        }
        proof { assert(out@ + replace_all(s@.skip(i as int), pat@, rep@) =~= replace_all(s@, pat@, rep@)); }
    }
    out
}

pub fn replace_all_str(s: &str, pat: &str, rep: &str) -> (r: String)
    requires
        pat@.len() > 0,
    ensures
        r@ == replace_all(s@, pat@, rep@),
{
    let out = replace_chars(chars_of(s).as_slice(), chars_of(pat).as_slice(), chars_of(rep).as_slice());
    proof { assert(s@.skip(s@.len() as int) =~= Seq::<char>::empty()); }
    string_of(out.as_slice())
}

/// The constants for a mock-http run: `{MOCK}` in every value replaced
/// by the mock's base URL, and `__MOCK__` set to it.
pub fn merge_constants_with_mock(constants: Vec<(String, String)>, mock_base: &str) -> (r: Vec<(String, String)>)
    requires
        unique_keys(constants@),
    ensures
        unique_keys(r@),
        tag_get(r@, "__MOCK__"@) == Some(mock_base@),
        forall|k: Seq<char>| k != "__MOCK__"@ ==> tag_get(r@, k) == match tag_get(constants@, k) {
            Some(v) => Some(replace_all(v, "{MOCK}"@, mock_base@)),
            None => None,
        },
{
    let mut out: Vec<(String, String)> = Vec::new();
    let mut i: usize = 0;
    while i < constants.len()
        invariant
            i <= constants@.len(),
            unique_keys(constants@),
            out@.len() == i,
            forall|j: int| 0 <= j < i ==> (#[trigger] out@[j]).0@ == constants@[j].0@
                && out@[j].1@ == replace_all(constants@[j].1@, "{MOCK}"@, mock_base@),
        decreases constants@.len() - i,
    {
        proof { reveal_strlit("{MOCK}"); }
        let v = replace_all_str(constants[i].1.as_str(), "{MOCK}", mock_base);
        out.push((constants[i].0.clone(), v));
        i = i + 1;
    }
    proof { lemma_replaced_map(out@, constants@, mock_base@); }
    tag_set(&mut out, "__MOCK__".to_string(), mock_base.to_string());
    out
}

proof fn lemma_replaced_map(out: Seq<(String, String)>, c: Seq<(String, String)>, base: Seq<char>)
    requires
        unique_keys(c),
        out.len() == c.len(),
        forall|j: int| 0 <= j < c.len() ==> (#[trigger] out[j]).0@ == c[j].0@
            && out[j].1@ == replace_all(c[j].1@, "{MOCK}"@, base),
    ensures
        unique_keys(out),
        forall|k: Seq<char>| tag_get(out, k) == match tag_get(c, k) {
            Some(v) => Some(replace_all(v, "{MOCK}"@, base)),
            None => None,
        },
{
    assert forall|a: int, b: int| 0 <= a < b < out.len() implies (#[trigger] out[a]).0@ != (#[trigger] out[b]).0@ by {
        assert(c[a].0@ != c[b].0@);
    }
    assert forall|k: Seq<char>| tag_get(out, k) == match tag_get(c, k) {
        Some(v) => Some(replace_all(v, "{MOCK}"@, base)),
        None => None,
    } by {
        if exists|i: int| 0 <= i < out.len() && (#[trigger] out[i]).0@ == k {
            let i = choose|i: int| 0 <= i < out.len() && (#[trigger] out[i]).0@ == k;
            crate::ws::lemma_tag_at_pub(out, i);
            crate::ws::lemma_tag_at_pub(c, i);
        } else {
            assert forall|i: int| 0 <= i < c.len() implies (#[trigger] c[i]).0@ != k by {
                assert(out[i].0@ == c[i].0@);
            }
        }
    }
}

/// One scenario's outcome: its name, whether it passed, and why not.
pub fn to_result(name: &str, r: Result<(), String>) -> (out: (String, bool, Option<String>))
    ensures
        out.0@ == name@,
        out.1 == (r is Ok),
        match r {
            Ok(_) => out.2 is None,
            Err(e) => out.2 matches Some(m) && m@ == e@,
        },
{
    match r {
        Ok(()) => (name.to_string(), true, None),
        Err(e) => (name.to_string(), false, Some(e)),
    }
}

/// One line of the run summary.
#[derive(Debug)]
pub struct RunRecord {
    pub path: String,
    pub scenario: String,
    pub ok: bool,
    pub err: Option<String>,
}

/// Counts and lines of a test run.
#[derive(Debug)]
pub struct RunSummary {
    pub passed: usize,
    pub failed: usize,
    pub records: Vec<RunRecord>,
    pub json_mode: bool,
}

impl RunSummary {
    pub fn new(json_mode: bool) -> (r: Self)
        ensures
            r.passed == 0 && r.failed == 0 && r.records@.len() == 0 && r.json_mode == json_mode,
    {
        RunSummary { passed: 0, failed: 0, records: Vec::new(), json_mode }
    }

    pub fn record(&mut self, path: &str, scenario: &str, ok: bool, err: Option<String>)
        requires
            old(self).passed < usize::MAX,
            old(self).failed < usize::MAX,
        ensures
            final(self).passed == old(self).passed + (if ok { 1int } else { 0 }),
            final(self).failed == old(self).failed + (if ok { 0int } else { 1 }),
            final(self).json_mode == old(self).json_mode,
            final(self).records@.len() == old(self).records@.len() + 1,
            final(self).records@.drop_last() == old(self).records@,
            final(self).records@.last().path@ == path@,
            final(self).records@.last().scenario@ == scenario@,
            final(self).records@.last().ok == ok,
            final(self).records@.last().err == err,
    {
        if ok {
            self.passed = self.passed + 1;
        } else {
            self.failed = self.failed + 1;
        }
        self.records.push(RunRecord { path: path.to_string(), scenario: scenario.to_string(), ok, err });
        proof { assert(self.records@.drop_last() =~= old(self).records@); }
    }
}

} // verus!
