//! Script expressions inside DSL values: `${...}` segments (balanced,
//! nesting on inner braces, skipping braces inside string literals)
//! and the whole-string `$=...=` form; the registry of distinct
//! expression sources; and how a string with expressions becomes a
//! value once the script engine has evaluated each expression.
use vstd::prelude::*;
use crate::text::{chars_of, string_of, slice_vec, substring, contains_seq, contains, is_prefix, starts_with,
    occurs_at, chars_eq, extend_chars, utf8_len, utf8_offsets};
use crate::json::{JsonValue, json_text, to_json_string};

verus! {

pub open spec fn is_quote(c: char) -> bool {
    c == '"' || c == '\'' || c == '`'
}

/// Index of the `}` that closes a `${` whose scan is at `j` with brace
/// `depth`, inside the string literal opened by `in_str` (if any) and
/// after a backslash (`escape`); `None` when the text ends first.
pub open spec fn scan_close(s: Seq<char>, j: int, depth: int, in_str: Option<char>, escape: bool) -> Option<int>
    decreases s.len() - j,
{
    if j < 0 || j >= s.len() {
        None
    } else {
        let b = s[j];
        match in_str {
            Some(q) => if escape {
                scan_close(s, j + 1, depth, in_str, false)
            } else if b == '\\' {
                scan_close(s, j + 1, depth, in_str, true)
            } else if b == q {
                scan_close(s, j + 1, depth, None, false)
            } else {
                scan_close(s, j + 1, depth, in_str, false)
            },
            None => if is_quote(b) {
                scan_close(s, j + 1, depth, Some(b), escape)
            } else if b == '{' {
                scan_close(s, j + 1, depth + 1, None, escape)
            } else if b == '}' {
                if depth - 1 == 0 { Some(j) } else { scan_close(s, j + 1, depth - 1, None, escape) }
            } else {
                scan_close(s, j + 1, depth, None, escape)
            },
        }
    }
}

/// A closing brace found by the scan lies at or after its start.
pub proof fn lemma_scan_close_bounds(s: Seq<char>, j: int, depth: int, in_str: Option<char>, escape: bool)
    ensures
        scan_close(s, j, depth, in_str, escape) matches Some(k) ==> j <= k < s.len() && s[k] == '}',
    decreases s.len() - j,
{
    if 0 <= j < s.len() {
        let b = s[j];
        match in_str {
            Some(q) => {
                if escape {
                    lemma_scan_close_bounds(s, j + 1, depth, in_str, false);
                } else if b == '\\' {
                    lemma_scan_close_bounds(s, j + 1, depth, in_str, true);
                } else if b == q {
                    lemma_scan_close_bounds(s, j + 1, depth, None, false);
                } else {
                    lemma_scan_close_bounds(s, j + 1, depth, in_str, false);
                }
            },
            None => {
                if is_quote(b) {
                    lemma_scan_close_bounds(s, j + 1, depth, Some(b), escape);
                } else if b == '{' {
                    lemma_scan_close_bounds(s, j + 1, depth + 1, None, escape);
                } else if b == '}' {
                    if depth - 1 != 0 {
                        lemma_scan_close_bounds(s, j + 1, depth - 1, None, escape);
                    }
                } else {
                    lemma_scan_close_bounds(s, j + 1, depth, None, escape);
                }
            },
        }
    }
}

/// The `${...}` segments of `s` from index `i` on: `(start, end,
/// inner)` with `s[start..end]` the whole segment and `inner` the text
/// between the braces. A `${` without a closing brace is skipped.
pub open spec fn segments_from(s: Seq<char>, i: int) -> Seq<(int, int, Seq<char>)>
    decreases s.len() - i,
{
    if i < 0 || i + 1 >= s.len() {
        Seq::empty()
    } else if s[i] == '$' && s[i + 1] == '{' {
        match scan_close(s, i + 2, 1, None, false) {
            Some(j) => {
                proof { lemma_scan_close_bounds(s, i + 2, 1, None, false); }
                seq![(i, j + 1, s.subrange(i + 2, j))] + segments_from(s, j + 1)
            },
            None => segments_from(s, i + 1),
        }
    } else {
        segments_from(s, i + 1)
    }
}

pub open spec fn seg_views(v: Seq<(usize, usize, String)>) -> Seq<(int, int, Seq<char>)> {
    v.map_values(|t: (usize, usize, String)| (t.0 as int, t.1 as int, t.2@))
}

/// Every balanced `${...}` segment of `s`, as character positions.
fn script_segments(s: &str) -> (r: Vec<(usize, usize, String)>)
    ensures
        seg_views(r@) == segments_from(s@, 0),
{
    let c = chars_of(s);
    let n = c.len();
    let mut out: Vec<(usize, usize, String)> = Vec::new();
    let mut i: usize = 0;
    while n > 0 && i < n - 1
        invariant
            n == c@.len(),
            c@ == s@,
            i <= n,
            seg_views(out@) + segments_from(s@, i as int) == segments_from(s@, 0),
        decreases n - i,
    {
        if c[i] == '$' && c[i + 1] == '{' {
            let start = i;
            let mut depth: usize = 1;
            let mut j = i + 2;
            let mut in_str: Option<char> = None;
            let mut escape = false;
            let mut closed: Option<usize> = None;
            while j < n && closed.is_none()
                invariant
                    n == c@.len(),
                    c@ == s@,
                    start + 2 <= j <= n,
                    start + 1 < n,
                    depth >= 1,
                    depth <= j,
                    closed is None ==> scan_close(s@, j as int, depth as int, in_str, escape) == scan_close(s@, start + 2, 1, None, false),
                    closed matches Some(k) ==> scan_close(s@, start + 2, 1, None, false) == Some(k as int),
                decreases n - j, if closed is None { 1int } else { 0int },
            {
                let b = c[j];
                match in_str {
                    Some(q) => {
                        if escape {
                            escape = false;
                        } else if b == '\\' {
                            escape = true;
                        } else if b == q {
                            in_str = None;
                        }
                    },
                    None => {
                        if b == '"' || b == '\'' || b == '`' {
                            in_str = Some(b);
                        } else if b == '{' {
                            depth = depth + 1;
                        } else if b == '}' {
                            if depth == 1 {
                                closed = Some(j);
                            } else {
                                depth = depth - 1;
                            }
                        }
                    },
                }
                if closed.is_none() {
                    j = j + 1;
                }
            }
            match closed {
                Some(k) => {
                    proof { lemma_scan_close_bounds(s@, start + 2, 1, None, false); }
                    let inner = substring(c.as_slice(), start + 2, k);
                    let ghost before = seg_views(out@);
                    out.push((start, k + 1, inner));
                    proof {
                        assert(seg_views(out@) =~= before + seq![(start as int, k + 1, s@.subrange(start + 2, k as int))]);
                    }
                    i = k + 1;
                },
                None => {
                    i = start + 1;
                },
            }
        } else {
            i = i + 1;
        }
    }
    out
}

/// The segments of `s` with their bounds as UTF-8 byte offsets: the
/// character positions of `segments_from` taken to the byte length of
/// the text before them.
pub open spec fn byte_segments(s: Seq<char>) -> Seq<(int, int, Seq<char>)> {
    segments_from(s, 0).map_values(|t: (int, int, Seq<char>)|
        (utf8_len(s.take(t.0)) as int, utf8_len(s.take(t.1)) as int, t.2))
}

/// Every balanced `${...}` segment of `s`: `(start, end, inner)` where
/// the bytes `start..end` of `s` hold the whole `${...}` and `inner` is
/// the script body between the braces. Inner `{...}` nest, braces
/// inside `"`, `'` and `` ` `` string literals are skipped, and a `${`
/// that is never closed yields no segment.
pub fn find_script_segments(s: &str) -> (r: Vec<(usize, usize, String)>)
    requires
        utf8_len(s@) <= usize::MAX,
    ensures
        seg_views(r@) == byte_segments(s@),
{
    let segs = script_segments(s);
    let c = chars_of(s);
    let offs = utf8_offsets(c.as_slice());
    let ghost g = segments_from(s@, 0);
    proof { lemma_segments_shape(s@, 0); }
    let mut out: Vec<(usize, usize, String)> = Vec::new();
    let mut i: usize = 0;
    while i < segs.len()
        invariant
            i <= segs@.len(),
            c@ == s@,
            g == segments_from(s@, 0),
            seg_views(segs@) == g,
            offs@.len() == s@.len() + 1,
            forall|k: int| 0 <= k <= s@.len() ==> #[trigger] offs@[k] == utf8_len(s@.take(k)),
            forall|k: int| 0 <= k < g.len() ==> 0 <= (#[trigger] g[k]).0 && g[k].0 + 3 <= g[k].1 <= s@.len(),
            seg_views(out@) == byte_segments(s@).subrange(0, i as int),
        decreases segs@.len() - i,
    {
        let ghost before = seg_views(out@);
        proof {
            assert(seg_views(segs@)[i as int] == g[i as int]);
        }
        let st = segs[i].0;
        let en = segs[i].1;
        let inner = segs[i].2.clone();
        out.push((offs[st], offs[en], inner));
        i = i + 1;
        proof {
            assert(seg_views(out@) =~= before.push(byte_segments(s@)[i - 1]));
            assert(byte_segments(s@).subrange(0, i as int) =~= byte_segments(s@).subrange(0, i - 1).push(byte_segments(s@)[i - 1]));
        }
    }
    proof { assert(byte_segments(s@).subrange(0, segs@.len() as int) =~= byte_segments(s@)); }
    out
}

/// Does `$=`, then at least one character other than a line feed,
/// then `=` make up the whole of `s` (the regex `\$=(.+)=$` matching
/// the whole string)? The expression is the text in between.
pub open spec fn line_inner(s: Seq<char>) -> Option<Seq<char>> {
    if s.len() >= 4 && s[0] == '$' && s[1] == '=' && s[s.len() - 1] == '='
        && (forall|k: int| 2 <= k < s.len() - 1 ==> #[trigger] s[k] != '\n') {
        Some(s.subrange(2, s.len() - 1))
    } else {
        None
    }
}

pub fn line_pattern_inner(s: &str) -> (r: Option<String>)
    ensures
        match r {
            Some(x) => line_inner(s@) == Some(x@),
            None => line_inner(s@) is None,
        },
{
    let c = chars_of(s);
    let n = c.len();
    if n < 4 || c[0] != '$' || c[1] != '=' || c[n - 1] != '=' {
        return None;
    }
    let mut k: usize = 2;
    while k < n - 1
        invariant
            n == c@.len(),
            c@ == s@,
            n >= 4,
            2 <= k <= n - 1,
            forall|m: int| 2 <= m < k ==> #[trigger] c@[m] != '\n',
        decreases n - 1 - k,
    {
        if c[k] == '\n' {
            return None;
        }
        k = k + 1;
    }
    Some(substring(c.as_slice(), 2, n - 1))
}

pub open spec fn spec_string_has_expressions(s: Seq<char>) -> bool {
    contains_seq(s, seq!['$', '{']) || line_inner(s) is Some
}

/// Does the string carry a `${` (balanced or not) or the whole-string
/// `$=...=` form?
pub fn string_has_expressions(s: &str) -> (r: bool)
    ensures
        r == spec_string_has_expressions(s@),
{
    let c = chars_of(s);
    if contains(c.as_slice(), &['$', '{']) {
        return true;
    }
    match line_pattern_inner(s) {
        Some(_) => true,
        None => false,
    }
}

/// Some string anywhere in `v` has an expression.
pub open spec fn spec_has_expressions(v: JsonValue) -> bool
    decreases v, 1int,
{
    match v {
        JsonValue::String(s) => spec_string_has_expressions(s@),
        JsonValue::Object(ms) => members_have_expressions(ms@),
        JsonValue::Array(items) => items_have_expressions(items@),
        _ => false,
    }
}

pub open spec fn items_have_expressions(items: Seq<JsonValue>) -> bool
    decreases items, 0int,
{
    items.len() > 0 && (items_have_expressions(items.drop_last()) || spec_has_expressions(items.last()))
}

pub open spec fn members_have_expressions(ms: Seq<(String, JsonValue)>) -> bool
    decreases ms, 0int,
{
    ms.len() > 0 && (members_have_expressions(ms.drop_last()) || spec_has_expressions(ms.last().1))
}

/// Does any string in `v` (at any depth) carry an expression? When
/// not, evaluation hands the value back unchanged.
pub fn has_expressions(v: &JsonValue) -> (r: bool)
    ensures
        r == spec_has_expressions(*v),
    decreases *v,
{
    match v {
        JsonValue::String(s) => string_has_expressions(s.as_str()),
        JsonValue::Object(ms) => {
            let mut i: usize = 0;
            let mut found = false;
            while i < ms.len()
                invariant
                    i <= ms@.len(),
                    *v == JsonValue::Object(*ms),
                    found == members_have_expressions(ms@.subrange(0, i as int)),
                decreases ms@.len() - i,
            {
                proof {
                    assert(decreases_to!(*v => v->Object_0));
                    assert(decreases_to!(v->Object_0 => v->Object_0[i as int]));
                    assert(decreases_to!(v->Object_0[i as int] => v->Object_0[i as int].1));
                }
                let h = has_expressions(&ms[i].1);
                found = found || h;
                i = i + 1;
                proof {
                    assert(ms@.subrange(0, i as int).drop_last() =~= ms@.subrange(0, i - 1));
                }
            }
            proof { assert(ms@.subrange(0, ms@.len() as int) =~= ms@); }
            found
        },
        JsonValue::Array(items) => {
            let mut i: usize = 0;
            let mut found = false;
            while i < items.len()
                invariant
                    i <= items@.len(),
                    *v == JsonValue::Array(*items),
                    found == items_have_expressions(items@.subrange(0, i as int)),
                decreases items@.len() - i,
            {
                proof {
                    assert(decreases_to!(*v => v->Array_0));
                    assert(decreases_to!(v->Array_0 => v->Array_0[i as int]));
                }
                let h = has_expressions(&items[i]);
                found = found || h;
                i = i + 1;
                proof {
                    assert(items@.subrange(0, i as int).drop_last() =~= items@.subrange(0, i - 1));
                }
            }
            proof { assert(items@.subrange(0, items@.len() as int) =~= items@); }
            found
        },
        _ => false,
    }
}


/// The expression sources of one string, in order: the inner text of
/// each `${...}` segment, then the whole-string `$=...=` expression.
pub open spec fn string_exprs(s: Seq<char>) -> Seq<Seq<char>> {
    segments_from(s, 0).map_values(|t: (int, int, Seq<char>)| t.2)
        + (match line_inner(s) { Some(x) => seq![x], None => Seq::empty() })
}

/// Expression sources of every string in `v`, depth first, object
/// members and array items in order.
pub open spec fn value_exprs(v: JsonValue) -> Seq<Seq<char>>
    decreases v, 1int,
{
    match v {
        JsonValue::String(s) => string_exprs(s@),
        JsonValue::Object(ms) => members_exprs(ms@),
        JsonValue::Array(items) => items_exprs(items@),
        _ => Seq::empty(),
    }
}

pub open spec fn items_exprs(items: Seq<JsonValue>) -> Seq<Seq<char>>
    decreases items, 0int,
{
    if items.len() == 0 { Seq::empty() } else { items_exprs(items.drop_last()) + value_exprs(items.last()) }
}

pub open spec fn members_exprs(ms: Seq<(String, JsonValue)>) -> Seq<Seq<char>>
    decreases ms, 0int,
{
    if ms.len() == 0 { Seq::empty() } else { members_exprs(ms.drop_last()) + value_exprs(ms.last().1) }
}

/// `sources` after registering each of `exprs` in turn: a source not
/// yet present is appended, a repeated one is ignored.
pub open spec fn register_all(sources: Seq<Seq<char>>, exprs: Seq<Seq<char>>) -> Seq<Seq<char>>
    decreases exprs.len(),
{
    if exprs.len() == 0 {
        sources
    } else {
        let prev = register_all(sources, exprs.drop_last());
        if prev.contains(exprs.last()) { prev } else { prev.push(exprs.last()) }
    }
}

pub open spec fn distinct(s: Seq<Seq<char>>) -> bool {
    forall|i: int, j: int| 0 <= i < s.len() && 0 <= j < s.len() && i != j ==> s[i] != s[j]
}

/// Collects distinct expression sources, in first-seen order.
#[derive(Debug)]
pub struct Builder {
    sources: Vec<String>,
}

impl Builder {
    /// The sources registered so far.
    pub closed spec fn view_sources(&self) -> Seq<Seq<char>> {
        self.sources@.map_values(|s: String| s@)
    }

    pub closed spec fn wf(&self) -> bool {
        distinct(self.view_sources())
    }

    pub fn new() -> (r: Self)
        ensures
            r.wf(),
            r.view_sources().len() == 0,
    {
        let r = Builder { sources: Vec::new() };
        proof { assert(r.view_sources() =~= Seq::<Seq<char>>::empty()); }
        r
    }

    fn contains_source(&self, e: &[char]) -> (r: bool)
        ensures
            r == self.view_sources().contains(e@),
    {
        let mut i: usize = 0;
        while i < self.sources.len()
            invariant
                i <= self.sources@.len(),
                forall|k: int| 0 <= k < i ==> (#[trigger] self.sources@[k])@ != e@,
            decreases self.sources@.len() - i,
        {
            let c = chars_of(self.sources[i].as_str());
            if chars_eq(c.as_slice(), e) {
                proof { assert(self.view_sources()[i as int] == e@); }
                return true;
            }
            i = i + 1;
        }
        proof {
            assert(!self.view_sources().contains(e@)) by {
                if self.view_sources().contains(e@) {
                    let k = choose|k: int| 0 <= k < self.view_sources().len() && self.view_sources()[k] == e@;
                    assert(self.sources@[k]@ == e@);
                }
            }
        }
        false
    }

    /// Register one expression source.
    pub fn register(&mut self, expr: &str)
        requires
            old(self).wf(),
        ensures
            final(self).wf(),
            final(self).view_sources() == register_all(old(self).view_sources(), seq![expr@]),
    {
        let e = chars_of(expr);
        let ghost before = self.view_sources();
        proof {
            let one = seq![expr@];
            assert(one.drop_last() =~= Seq::<Seq<char>>::empty());
            assert(one.last() == expr@);
            assert(register_all(before, Seq::<Seq<char>>::empty()) == before);
            assert(register_all(before, one) == (if before.contains(expr@) { before } else { before.push(expr@) }));
        }
        if !self.contains_source(e.as_slice()) {
            self.sources.push(expr.to_owned());
            proof {
                assert(self.view_sources() =~= before.push(expr@));
                assert forall|i: int, j: int| 0 <= i < self.view_sources().len() && 0 <= j < self.view_sources().len() && i != j
                    implies self.view_sources()[i] != self.view_sources()[j] by {
                    if i == before.len() { assert(before[j] == self.view_sources()[j]); }
                    else if j == before.len() { assert(before[i] == self.view_sources()[i]); }
                }
            }
        }
    }

    fn register_seq(&mut self, exprs: &Vec<String>)
        requires
            old(self).wf(),
        ensures
            final(self).wf(),
            final(self).view_sources() == register_all(old(self).view_sources(), exprs@.map_values(|s: String| s@)),
    {
        let ghost start = self.view_sources();
        let ghost ev = exprs@.map_values(|s: String| s@);
        let mut i: usize = 0;
        while i < exprs.len()
            invariant
                i <= exprs@.len(),
                self.wf(),
                ev == exprs@.map_values(|s: String| s@),
                self.view_sources() == register_all(start, ev.subrange(0, i as int)),
            decreases exprs@.len() - i,
        {
            let ghost mid = self.view_sources();
            self.register(exprs[i].as_str());
            i = i + 1;
            proof {
                let sub = ev.subrange(0, i as int);
                let pre = ev.subrange(0, i - 1);
                assert(sub =~= pre + seq![exprs@[i - 1]@]);
                lemma_register_all_append(start, pre, seq![exprs@[i - 1]@]);
            }
        }
        proof { assert(ev.subrange(0, exprs@.len() as int) =~= ev); }
    }

    /// Register every expression of one string.
    pub fn scan_string(&mut self, s: &str)
        requires
            old(self).wf(),
        ensures
            final(self).wf(),
            final(self).view_sources() == register_all(old(self).view_sources(), string_exprs(s@)),
    {
        let segs = script_segments(s);
        let mut exprs: Vec<String> = Vec::new();
        let mut i: usize = 0;
        while i < segs.len()
            invariant
                i <= segs@.len(),
                exprs@.map_values(|x: String| x@) == seg_views(segs@).subrange(0, i as int).map_values(|t: (int, int, Seq<char>)| t.2),
            decreases segs@.len() - i,
        {
            let ghost before = exprs@.map_values(|x: String| x@);
            let item = segs[i].2.clone();
            proof { assert(seg_views(segs@)[i as int].2 == item@); }
            exprs.push(item);
            i = i + 1;
            proof {
                let sv = seg_views(segs@);
                assert(exprs@.map_values(|x: String| x@) =~= before.push(sv[i - 1].2));
                assert(sv.subrange(0, i as int).map_values(|t: (int, int, Seq<char>)| t.2)
                    =~= sv.subrange(0, i - 1).map_values(|t: (int, int, Seq<char>)| t.2).push(sv[i - 1].2));
            }
        }
        match line_pattern_inner(s) {
            Some(x) => { exprs.push(x); },
            None => {},
        }
        proof {
            assert(seg_views(segs@).subrange(0, segs@.len() as int) =~= seg_views(segs@));
            assert(exprs@.map_values(|x: String| x@) =~= string_exprs(s@));
        }
        self.register_seq(&exprs);
    }

    /// Register every expression in a JSON value (a DSL in its JSON
    /// form), depth first.
    pub fn add_json(&mut self, v: &JsonValue)
        requires
            old(self).wf(),
        ensures
            final(self).wf(),
            final(self).view_sources() == register_all(old(self).view_sources(), value_exprs(*v)),
        decreases *v,
    {
        match v {
            JsonValue::String(s) => { self.scan_string(s.as_str()); },
            JsonValue::Object(ms) => {
                let ghost start = self.view_sources();
                let mut i: usize = 0;
                while i < ms.len()
                    invariant
                        i <= ms@.len(),
                        *v == JsonValue::Object(*ms),
                        self.wf(),
                        self.view_sources() == register_all(start, members_exprs(ms@.subrange(0, i as int))),
                    decreases ms@.len() - i,
                {
                    proof {
                        assert(decreases_to!(*v => v->Object_0));
                        assert(decreases_to!(v->Object_0 => v->Object_0[i as int]));
                        assert(decreases_to!(v->Object_0[i as int] => v->Object_0[i as int].1));
                    }
                    self.add_json(&ms[i].1);
                    i = i + 1;
                    proof {
                        let sub = ms@.subrange(0, i as int);
                        assert(sub.drop_last() =~= ms@.subrange(0, i - 1));
                        lemma_register_all_append(start, members_exprs(ms@.subrange(0, i - 1)), value_exprs(ms@[i - 1].1));
                    }
                }
                proof { assert(ms@.subrange(0, ms@.len() as int) =~= ms@); }
            },
            JsonValue::Array(items) => {
                let ghost start = self.view_sources();
                let mut i: usize = 0;
                while i < items.len()
                    invariant
                        i <= items@.len(),
                        *v == JsonValue::Array(*items),
                        self.wf(),
                        self.view_sources() == register_all(start, items_exprs(items@.subrange(0, i as int))),
                    decreases items@.len() - i,
                {
                    proof {
                        assert(decreases_to!(*v => v->Array_0));
                        assert(decreases_to!(v->Array_0 => v->Array_0[i as int]));
                    }
                    self.add_json(&items[i]);
                    i = i + 1;
                    proof {
                        let sub = items@.subrange(0, i as int);
                        assert(sub.drop_last() =~= items@.subrange(0, i - 1));
                        lemma_register_all_append(start, items_exprs(items@.subrange(0, i - 1)), value_exprs(items@[i - 1]));
                    }
                }
                proof { assert(items@.subrange(0, items@.len() as int) =~= items@); }
            },
            _ => {
                proof { assert(value_exprs(*v) =~= Seq::<Seq<char>>::empty()); }
            },
        }
    }

    /// Register the expressions of trigger DSLs (each in its JSON form).
    pub fn add_trigger_dsls(&mut self, dsls: &Vec<JsonValue>)
        requires
            old(self).wf(),
        ensures
            final(self).wf(),
            final(self).view_sources() == register_all(old(self).view_sources(), items_exprs(dsls@)),
    {
        let ghost start = self.view_sources();
        let mut i: usize = 0;
        while i < dsls.len()
            invariant
                i <= dsls@.len(),
                self.wf(),
                self.view_sources() == register_all(start, items_exprs(dsls@.subrange(0, i as int))),
            decreases dsls@.len() - i,
        {
            self.add_json(&dsls[i]);
            i = i + 1;
            proof {
                let sub = dsls@.subrange(0, i as int);
                assert(sub.drop_last() =~= dsls@.subrange(0, i - 1));
                lemma_register_all_append(start, items_exprs(dsls@.subrange(0, i - 1)), value_exprs(dsls@[i - 1]));
            }
        }
        proof { assert(dsls@.subrange(0, dsls@.len() as int) =~= dsls@); }
    }

    /// Number the sources in registration order.
    pub fn freeze(self) -> (r: ExpressionRegistry)
        requires
            self.wf(),
        ensures
            r.wf(),
            r.sources() == self.view_sources(),
    {
        let mut ordered: Vec<(u64, String)> = Vec::new();
        let mut i: usize = 0;
        while i < self.sources.len()
            invariant
                i <= self.sources@.len(),
                ordered@.len() == i,
                forall|k: int| 0 <= k < i ==> (#[trigger] ordered@[k]).0 == k && ordered@[k].1@ == self.sources@[k]@,
            decreases self.sources@.len() - i,
        {
            ordered.push((i as u64, self.sources[i].clone()));
            i = i + 1;
        }
        let r = ExpressionRegistry { ordered };
        proof {
            assert(r.sources() =~= self.view_sources());
        }
        r
    }
}

/// Registering `a` then `b` is registering `a + b`.
pub proof fn lemma_register_all_append(s: Seq<Seq<char>>, a: Seq<Seq<char>>, b: Seq<Seq<char>>)
    ensures
        register_all(register_all(s, a), b) == register_all(s, a + b),
    decreases b.len(),
{
    if b.len() == 0 {
        assert(a + b =~= a);
    } else {
        lemma_register_all_append(s, a, b.drop_last());
        assert((a + b).drop_last() =~= a + b.drop_last());
        assert((a + b).last() == b.last());
    }
}

/// Registering keeps the sources distinct.
pub proof fn lemma_register_all_distinct(s: Seq<Seq<char>>, e: Seq<Seq<char>>)
    requires
        distinct(s),
    ensures
        distinct(register_all(s, e)),
    decreases e.len(),
{
    if e.len() > 0 {
        lemma_register_all_distinct(s, e.drop_last());
    }
}

/// The id of text `s` among `sources`: a position holding it.
pub open spec fn id_of(sources: Seq<Seq<char>>, s: Seq<char>) -> Option<int> {
    if exists|i: int| 0 <= i < sources.len() && sources[i] == s {
        Some(choose|i: int| 0 <= i < sources.len() && sources[i] == s)
    } else {
        None
    }
}

/// The distinct expression sources of the loaded DSLs, numbered from
/// 0 in first-seen order.
#[derive(Debug)]
pub struct ExpressionRegistry {
    ordered: Vec<(u64, String)>,
}

impl ExpressionRegistry {
    /// Source of id `i` is `sources()[i]`.
    pub closed spec fn sources(&self) -> Seq<Seq<char>> {
        self.ordered@.map_values(|p: (u64, String)| p.1@)
    }

    pub closed spec fn wf(&self) -> bool {
        &&& distinct(self.sources())
        &&& forall|k: int| 0 <= k < self.ordered@.len() ==> (#[trigger] self.ordered@[k]).0 == k
    }

    /// Number of distinct expressions.
    pub fn len(&self) -> (r: usize)
        ensures
            r == self.sources().len(),
    {
        self.ordered.len()
    }

    pub fn is_empty(&self) -> (r: bool)
        ensures
            r == (self.sources().len() == 0),
    {
        self.ordered.len() == 0
    }

    /// Law: the sources of a registry are pairwise distinct, so each
    /// text has at most one id, and the id of a text (what `id_for`
    /// returns) is `i` exactly when `ordered` lists `(i, text)`.
    pub proof fn lemma_ids_agree(&self, s: Seq<char>)
        requires
            self.wf(),
        ensures
            distinct(self.sources()),
            id_of(self.sources(), s) matches Some(i) ==> 0 <= i < self.sources().len() && self.sources()[i] == s,
            forall|i: int| 0 <= i < self.sources().len() && #[trigger] self.sources()[i] == s
                ==> id_of(self.sources(), s) == Some(i),
    {
        let src = self.sources();
        assert forall|i: int| 0 <= i < src.len() && #[trigger] src[i] == s implies id_of(src, s) == Some(i) by {
            let w = choose|w: int| 0 <= w < src.len() && src[w] == s;
            assert(distinct(src));
            if w != i {
                assert(src[w] != src[i]);
            }
        }
    }

    /// Id of an expression source seen at load time.
    pub fn id_for(&self, expr: &str) -> (r: Option<u64>)
        requires
            self.wf(),
        ensures
            match r {
                Some(id) => id < self.sources().len() && self.sources()[id as int] == expr@,
                None => !self.sources().contains(expr@),
            },
            match r {
                Some(id) => id_of(self.sources(), expr@) == Some(id as int),
                None => id_of(self.sources(), expr@) is None,
            },
    {
        proof { self.lemma_ids_agree(expr@); }
        let e = chars_of(expr);
        let mut i: usize = 0;
        while i < self.ordered.len()
            invariant
                i <= self.ordered@.len(),
                e@ == expr@,
                self.wf(),
                forall|k: int| 0 <= k < i ==> (#[trigger] self.ordered@[k]).1@ != expr@,
            decreases self.ordered@.len() - i,
        {
            let c = chars_of(self.ordered[i].1.as_str());
            if chars_eq(c.as_slice(), e.as_slice()) {
                proof {
                    assert(self.ordered@[i as int].0 == i);
                    assert(self.sources()[i as int] == expr@);
                }
                return Some(self.ordered[i].0);
            }
            i = i + 1;
        }
        proof {
            if self.sources().contains(expr@) {
                let k = choose|k: int| 0 <= k < self.sources().len() && self.sources()[k] == expr@;
                assert(self.ordered@[k].1@ == expr@);
            }
        }
        None
    }

    /// `(id, source)` pairs in id order.
    pub fn ordered(&self) -> (r: Vec<(u64, String)>)
        requires
            self.wf(),
        ensures
            r@.len() == self.sources().len(),
            forall|k: int| 0 <= k < r@.len() ==> (#[trigger] r@[k]).0 == k && r@[k].1@ == self.sources()[k],
    {
        let mut out: Vec<(u64, String)> = Vec::new();
        let mut i: usize = 0;
        while i < self.ordered.len()
            invariant
                i <= self.ordered@.len(),
                self.wf(),
                out@.len() == i,
                forall|k: int| 0 <= k < i ==> (#[trigger] out@[k]).0 == k && out@[k].1@ == self.sources()[k],
            decreases self.ordered@.len() - i,
        {
            out.push((self.ordered[i].0, self.ordered[i].1.clone()));
            i = i + 1;
        }
        out
    }
}

/// Limits of one script evaluation.
#[derive(Debug, Clone, Copy)]
pub struct ScriptLimits {
    pub max_loop_iterations: u64,
    pub max_stack_size: usize,
}

impl Default for ScriptLimits {
    fn default() -> (r: Self)
        ensures
            r.max_loop_iterations == 1_000_000,
            r.max_stack_size == 400,
    {
        ScriptLimits { max_loop_iterations: 1_000_000, max_stack_size: 400 }
    }
}

/// Script engine settings of the Boa backend.
#[derive(Debug, Clone, Copy)]
pub struct BoaScriptEngine {
    pub limits: ScriptLimits,
}

impl BoaScriptEngine {
    /// An engine with the process-wide limits installed at boot
    /// (`installed`), else the default limits.
    pub fn new(installed: Option<ScriptLimits>) -> (r: Self)
        ensures
            match installed {
                Some(l) => r.limits == l,
                None => r.limits.max_loop_iterations == 1_000_000 && r.limits.max_stack_size == 400,
            },
    {
        match installed {
            Some(l) => BoaScriptEngine { limits: l },
            None => BoaScriptEngine { limits: ScriptLimits::default() },
        }
    }

    pub fn with_limits(limits: ScriptLimits) -> (r: Self)
        ensures
            r.limits == limits,
    {
        BoaScriptEngine { limits }
    }
}

/// Script engine settings of the QuickJS backend.
#[derive(Debug, Clone, Copy)]
pub struct QuickJsScriptEngine {
    pub limits: ScriptLimits,
}

impl QuickJsScriptEngine {
    /// An engine with the process-wide limits installed at boot
    /// (`installed`), else the default limits.
    pub fn new(installed: Option<ScriptLimits>) -> (r: Self)
        ensures
            match installed {
                Some(l) => r.limits == l,
                None => r.limits.max_loop_iterations == 1_000_000 && r.limits.max_stack_size == 400,
            },
    {
        match installed {
            Some(l) => QuickJsScriptEngine { limits: l },
            None => QuickJsScriptEngine { limits: ScriptLimits::default() },
        }
    }

    pub fn with_limits(limits: ScriptLimits) -> (r: Self)
        ensures
            r.limits == limits,
    {
        QuickJsScriptEngine { limits }
    }
}


/// Segments found from `i` on lie in order inside `s`, each at least
/// `${}` long, with the inner text between its braces.
pub proof fn lemma_segments_shape(s: Seq<char>, i: int)
    requires
        0 <= i,
    ensures
        ({
            let g = segments_from(s, i);
            &&& forall|k: int| 0 <= k < g.len() ==> i <= (#[trigger] g[k]).0 && g[k].0 + 3 <= g[k].1 <= s.len()
                && g[k].2 == s.subrange(g[k].0 + 2, g[k].1 - 1)
            &&& forall|k: int, l: int| 0 <= k < l < g.len() ==> (#[trigger] g[k]).1 <= (#[trigger] g[l]).0
        }),
    decreases s.len() - i,
{
    if i + 1 >= s.len() {
        assert(segments_from(s, i) =~= Seq::<(int, int, Seq<char>)>::empty());
    } else if s[i] == '$' && s[i + 1] == '{' {
        lemma_scan_close_bounds(s, i + 2, 1, None, false);
        match scan_close(s, i + 2, 1, None, false) {
            Some(j) => {
                lemma_segments_shape(s, j + 1);
                let rest = segments_from(s, j + 1);
                let g = segments_from(s, i);
                assert(g == seq![(i, j + 1, s.subrange(i + 2, j))] + rest);
                assert forall|k: int| 0 <= k < g.len() implies i <= (#[trigger] g[k]).0 && g[k].0 + 3 <= g[k].1 <= s.len()
                    && g[k].2 == s.subrange(g[k].0 + 2, g[k].1 - 1) by {
                    if k > 0 { assert(g[k] == rest[k - 1]); }
                }
                assert forall|k: int, l: int| 0 <= k < l < g.len() implies (#[trigger] g[k]).1 <= (#[trigger] g[l]).0 by {
                    assert(g[l] == rest[l - 1]);
                    if k > 0 { assert(g[k] == rest[k - 1]); }
                }
            },
            None => {
                lemma_segments_shape(s, i + 1);
                assert(segments_from(s, i) == segments_from(s, i + 1));
            },
        }
    } else {
        lemma_segments_shape(s, i + 1);
        assert(segments_from(s, i) == segments_from(s, i + 1));
    }
}

/// How a string with expressions is evaluated.
#[derive(Debug)]
pub enum StringPlan {
    /// The string is one expression: its value, of any type, is the
    /// result.
    Whole(String),
    /// Each `${...}` segment is evaluated and spliced into the text.
    Mixed,
}

pub open spec fn spec_plan(s: Seq<char>) -> Option<Seq<char>> {
    let g = segments_from(s, 0);
    if g.len() == 1 && g[0].0 == 0 && g[0].1 == s.len() {
        Some(g[0].2)
    } else {
        line_inner(s)
    }
}

/// Whole-string `${...}` or `$=...=`, else mixed.
pub fn plan_string(s: &str) -> (r: StringPlan)
    ensures
        match r {
            StringPlan::Whole(x) => spec_plan(s@) == Some(x@),
            StringPlan::Mixed => spec_plan(s@) is None,
        },
{
    let segs = script_segments(s);
    let c = chars_of(s);
    if segs.len() == 1 && segs[0].0 == 0 && segs[0].1 == c.len() {
        return StringPlan::Whole(segs[0].2.clone());
    }
    match line_pattern_inner(s) {
        Some(x) => StringPlan::Whole(x),
        None => StringPlan::Mixed,
    }
}

/// A `null` result of an expression whose text mentions `.optional.`
/// or `.optional_` becomes the empty string.
pub open spec fn is_empty_string(v: JsonValue) -> bool {
    v matches JsonValue::String(t) && t@.len() == 0
}

/// A `null` result of an expression whose text mentions `.optional.`
/// or `.optional_` becomes the empty string; any other result stays.
pub fn suppress_optional_null(v: JsonValue, expr: &str) -> (r: JsonValue)
    ensures
        (v is Null && (contains_seq(expr@, ".optional."@) || contains_seq(expr@, ".optional_"@)))
            ==> is_empty_string(r),
        !(v is Null && (contains_seq(expr@, ".optional."@) || contains_seq(expr@, ".optional_"@))) ==> r == v,
{
    let e = chars_of(expr);
    let a = chars_of(".optional.");
    let b = chars_of(".optional_");
    if matches!(v, JsonValue::Null) && (contains(e.as_slice(), a.as_slice()) || contains(e.as_slice(), b.as_slice())) {
        JsonValue::String(String::new())
    } else {
        v
    }
}


/// Text a result contributes to a mixed string: a string as it is,
/// `null` as nothing, anything else as its compact JSON text.
pub open spec fn value_piece(v: JsonValue) -> Seq<char> {
    match v {
        JsonValue::String(t) => t@,
        JsonValue::Null => Seq::empty(),
        _ => json_text(v),
    }
}

/// Text of segment `seg` given its evaluation result: the value's
/// text, or the segment's own source when evaluation failed.
pub open spec fn seg_piece(s: Seq<char>, seg: (int, int, Seq<char>), r: Result<JsonValue, String>) -> Seq<char> {
    match r {
        Ok(v) => value_piece(v),
        Err(_) => s.subrange(seg.0, seg.1),
    }
}

pub open spec fn prev_end(g: Seq<(int, int, Seq<char>)>, k: int) -> int {
    if k == 0 { 0 } else { g[k - 1].1 }
}

/// The text up to and including segment `k - 1`.
pub open spec fn assemble(s: Seq<char>, g: Seq<(int, int, Seq<char>)>, res: Seq<Result<JsonValue, String>>, k: int) -> Seq<char>
    decreases k,
{
    if k <= 0 {
        Seq::empty()
    } else {
        assemble(s, g, res, k - 1) + s.subrange(prev_end(g, k - 1), g[k - 1].0) + seg_piece(s, g[k - 1], res[k - 1])
    }
}

pub open spec fn err_text(r: Result<JsonValue, String>) -> Option<Seq<char>> {
    match r { Err(e) => Some(e@), Ok(_) => None }
}

/// Index of the first failed evaluation.
pub open spec fn first_err(res: Seq<Result<JsonValue, String>>) -> Option<int>
    decreases res.len(),
{
    if res.len() == 0 {
        None
    } else {
        match first_err(res.drop_last()) {
            Some(k) => Some(k),
            None => if res.last() is Err { Some(res.len() - 1) } else { None },
        }
    }
}

/// The first failure is a failure, and every earlier result succeeded.
pub proof fn lemma_first_err(res: Seq<Result<JsonValue, String>>)
    ensures
        match first_err(res) {
            Some(k) => 0 <= k < res.len() && res[k] is Err && forall|l: int| 0 <= l < k ==> (#[trigger] res[l]) is Ok,
            None => forall|l: int| 0 <= l < res.len() ==> (#[trigger] res[l]) is Ok,
        },
    decreases res.len(),
{
    if res.len() > 0 {
        lemma_first_err(res.drop_last());
        assert forall|l: int| 0 <= l < res.len() - 1 implies res[l] == res.drop_last()[l] by {}
    }
}

fn push_value_piece(out: &mut Vec<char>, v: &JsonValue)
    ensures
        final(out)@ == old(out)@ + value_piece(*v),
{
    match v {
        JsonValue::String(t) => { let c = chars_of(t.as_str()); extend_chars(out, c.as_slice()); },
        JsonValue::Null => {},
        _ => { let t = to_json_string(v); let c = chars_of(t.as_str()); extend_chars(out, c.as_slice()); },
    }
}

/// The first failure among the first `i + 1` results, from the first
/// among the first `i`.
proof fn lemma_first_err_step(res: Seq<Result<JsonValue, String>>, i: int)
    requires
        0 <= i < res.len(),
    ensures
        first_err(res.take(i + 1)) == (match first_err(res.take(i)) {
            Some(k) => Some(k),
            None => if res[i] is Err { Some(i) } else { None },
        }),
{
    assert(res.take(i + 1).drop_last() =~= res.take(i));
}

/// Splice the results of a mixed string's segments into its text
/// (`results[k]` is the evaluation of the `k`-th `${...}` segment).
/// A failed segment keeps its source text; the first failure is
/// reported after the whole string has been processed.
#[verifier::rlimit(40)]
pub fn interpolate(s: &str, results: &Vec<Result<JsonValue, String>>) -> (r: Result<String, String>)
    requires
        results@.len() == segments_from(s@, 0).len(),
    ensures
        ({
            let g = segments_from(s@, 0);
            match first_err(results@) {
                Some(k) => r is Err && err_text(results@[k]) == Some(r->Err_0@),
                None => r matches Ok(t) && t@ == assemble(s@, g, results@, g.len() as int) + s@.skip(prev_end(g, g.len() as int)),
            }
        }),
{
    let segs = script_segments(s);
    let c = chars_of(s);
    let ghost g = segments_from(s@, 0);
    proof { lemma_segments_shape(s@, 0); }
    let mut out: Vec<char> = Vec::new();
    let mut cursor: usize = 0;
    let mut first: Option<usize> = None;
    let mut i: usize = 0;
    while i < segs.len()
        invariant
            i <= segs@.len(),
            c@ == s@,
            g == segments_from(s@, 0),
            seg_views(segs@) == g,
            results@.len() == g.len(),
            forall|k: int| 0 <= k < g.len() ==> 0 <= (#[trigger] g[k]).0 && g[k].0 + 3 <= g[k].1 <= s@.len(),
            forall|k: int, l: int| 0 <= k < l < g.len() ==> (#[trigger] g[k]).1 <= (#[trigger] g[l]).0,
            cursor == prev_end(g, i as int),
            cursor <= s@.len(),
            out@ == assemble(s@, g, results@, i as int),
            match first { Some(k) => first_err(results@.take(i as int)) == Some(k as int), None => first_err(results@.take(i as int)) is None },
        decreases segs@.len() - i,
    {
        let start = segs[i].0;
        let end = segs[i].1;
        proof {
            assert(g[i as int].0 == start as int && g[i as int].1 == end as int);
            if i > 0 { assert(g[i - 1].1 <= g[i as int].0); }
            lemma_first_err_step(results@, i as int);
        }
        let gap = slice_vec(c.as_slice(), cursor, start);
        extend_chars(&mut out, gap.as_slice());
        match &results[i] {
            Ok(v) => { push_value_piece(&mut out, v); },
            Err(_) => {
                let raw = slice_vec(c.as_slice(), start, end);
                extend_chars(&mut out, raw.as_slice());
                if first.is_none() {
                    first = Some(i);
                }
            },
        }
        cursor = end;
        i = i + 1;
        proof {
            assert(out@ =~= assemble(s@, g, results@, i as int));
        }
    }
    let tail = slice_vec(c.as_slice(), cursor, c.len());
    proof { assert(tail@ =~= s@.skip(cursor as int)); }
    extend_chars(&mut out, tail.as_slice());
    proof { assert(results@.take(segs@.len() as int) =~= results@); }
    proof { lemma_first_err(results@); }
    match first {
        Some(k) => {
            match &results[k] {
                Err(e) => Err(e.clone()),
                Ok(_) => Err(String::new()),
            }
        },
        None => Ok(string_of(out.as_slice())),
    }
}
/// How a character is written inside a double-quoted JavaScript string
/// literal: backslash, quote, LF, CR and TAB escaped; other control
/// characters as `\u00XX`.
pub open spec fn js_escape(c: char) -> Seq<char> {
    if c == '\\' {
        seq!['\\', '\\']
    } else if c == '"' {
        seq!['\\', '"']
    } else if c == '\n' {
        seq!['\\', 'n']
    } else if c == '\r' {
        seq!['\\', 'r']
    } else if c == '\t' {
        seq!['\\', 't']
    } else if (c as u32) < 0x20 {
        seq!['\\', 'u', '0', '0', crate::json::hex_digit(((c as u32) / 16) as nat), crate::json::hex_digit(((c as u32) % 16) as nat)]
    } else {
        seq![c]
    }
}

pub open spec fn js_escaped(s: Seq<char>) -> Seq<char>
    decreases s.len(),
{
    if s.len() == 0 { Seq::empty() } else { js_escaped(s.drop_last()) + js_escape(s.last()) }
}

/// `s` as a double-quoted JavaScript string literal, for binding a
/// value into a script.
pub fn js_string_literal(s: &str) -> (r: String)
    ensures
        r@ == seq!['"'] + js_escaped(s@) + seq!['"'],
{
    let c = chars_of(s);
    let mut out: Vec<char> = Vec::new();
    out.push('"');
    let mut i: usize = 0;
    while i < c.len()
        invariant
            i <= c@.len(),
            c@ == s@,
            out@ == seq!['"'] + js_escaped(c@.take(i as int)),
        decreases c@.len() - i,
    {
        let ch = c[i];
        let ghost before = out@;
        if ch == '\\' {
            out.push('\\'); out.push('\\');
        } else if ch == '"' {
            out.push('\\'); out.push('"');
        } else if ch == '\n' {
            out.push('\\'); out.push('n');
        } else if ch == '\r' {
            out.push('\\'); out.push('r');
        } else if ch == '\t' {
            out.push('\\'); out.push('t');
        } else if (ch as u32) < 0x20 {
            out.push('\\'); out.push('u'); out.push('0'); out.push('0');
            out.push(crate::json::hex_char((ch as u32) / 16));
            out.push(crate::json::hex_char((ch as u32) % 16));
        } else {
            out.push(ch);
        }
        proof {
            assert(c@.take(i + 1).drop_last() =~= c@.take(i as int));
            assert(c@.take(i + 1).last() == ch);
            assert(out@ =~= before + js_escape(ch));
        }
        i = i + 1;
    }
    out.push('"');
    proof { assert(c@.take(i as int) =~= c@); }
    string_of(out.as_slice())
}

} // verus!
