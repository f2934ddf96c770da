//! Constant references in DSL source: `[#NAME]` and `#{NAME}`, both
//! naming a key of `constants.ini`. The name is one or more characters
//! up to the first closing delimiter (`]`, respectively `}`).
//! References are found left to right without overlapping.
use vstd::prelude::*;
use crate::text::{chars_of, string_of, slice_vec, extend_chars, chars_eq};
use crate::outbound::pair_value;
use crate::urls::opt_view;

verus! {

/// First index `>= from` holding `c`.
pub open spec fn next_char(s: Seq<char>, from: int, c: char) -> Option<int> {
    if exists|k: int| from <= k < s.len() && s[k] == c {
        Some(choose|k: int| from <= k < s.len() && s[k] == c && forall|l: int| from <= l < k ==> s[l] != c)
    } else {
        None
    }
}

/// End (exclusive) of the reference starting at `p`, if one does.
pub open spec fn ref_end(s: Seq<char>, p: int) -> Option<int> {
    if 0 <= p && p + 2 < s.len() && ((s[p] == '[' && s[p + 1] == '#') || (s[p] == '#' && s[p + 1] == '{')) {
        let close = if s[p] == '[' { ']' } else { '}' };
        if s[p + 2] == close {
            None
        } else {
            match next_char(s, p + 2, close) {
                Some(k) => Some(k + 1),
                None => None,
            }
        }
    } else {
        None
    }
}

/// The references of `s` from index `p` on: `(start, end)` of each.
pub open spec fn refs_from(s: Seq<char>, p: int) -> Seq<(int, int)>
    decreases s.len() - p,
{
    if p < 0 || p >= s.len() {
        Seq::empty()
    } else {
        match ref_end(s, p) {
            Some(e) => if p < e <= s.len() { seq![(p, e)] + refs_from(s, e) } else { Seq::empty() },
            None => refs_from(s, p + 1),
        }
    }
}

/// One constant reference: the key and the exact literal.
#[derive(Debug, Clone)]
pub struct ConstantRef {
    pub key: String,
    pub literal: String,
}

fn find_char_at(s: &[char], from: usize, c: char) -> (r: Option<usize>)
    ensures
        match r {
            Some(k) => next_char(s@, from as int, c) == Some(k as int) && from <= k < s@.len() && s@[k as int] == c,
            None => next_char(s@, from as int, c) is None,
        },
{
    let mut k = from;
    while k < s.len()
        invariant
            from <= k,
            forall|l: int| from <= l < k && l < s@.len() ==> s@[l] != c,
        decreases s@.len() - k,
    {
        if s[k] == c {
            proof {
                let w = choose|w: int| from <= w < s@.len() && s@[w] == c && forall|l: int| from <= l < w ==> s@[l] != c;
                assert(w == k as int) by {
                    if w < k { } else if w > k { assert(s@[k as int] == c); }
                }
            }
            return Some(k);
        }
        k = k + 1;
    }
    None
}

/// End of the reference starting at `p`.
fn reference_end(s: &[char], p: usize) -> (r: Option<usize>)
    ensures
        match r {
            Some(e) => ref_end(s@, p as int) == Some(e as int) && p + 3 <= e <= s@.len(),
            None => ref_end(s@, p as int) is None,
        },
{
    let n = s.len();
    if p >= n || n - p < 3 {
        return None;
    }
    let open_sq = s[p] == '[' && s[p + 1] == '#';
    let open_br = s[p] == '#' && s[p + 1] == '{';
    if !open_sq && !open_br {
        return None;
    }
    let close = if s[p] == '[' { ']' } else { '}' };
    if s[p + 2] == close {
        return None;
    }
    match find_char_at(s, p + 2, close) {
        Some(k) => {
            proof { assert(k != p + 2); }
            Some(k + 1)
        },
        None => None,
    }
}

pub open spec fn ref_key(s: Seq<char>, r: (int, int)) -> Seq<char> {
    s.subrange(r.0 + 2, r.1 - 1)
}

/// Every constant reference of `input`, left to right.
pub fn iter_refs(input: &str) -> (r: Vec<ConstantRef>)
    ensures
        r@.len() == refs_from(input@, 0).len(),
        forall|k: int| 0 <= k < r@.len() ==> {
            let g = #[trigger] refs_from(input@, 0)[k];
            &&& r@[k].literal@ == input@.subrange(g.0, g.1)
            &&& r@[k].key@ == ref_key(input@, g)
        },
{
    let c = chars_of(input);
    let n = c.len();
    let mut out: Vec<ConstantRef> = Vec::new();
    let ghost mut done: Seq<(int, int)> = Seq::empty();
    let mut p: usize = 0;
    while p < n
        invariant
            n == c@.len(),
            c@ == input@,
            p <= n,
            done + refs_from(input@, p as int) == refs_from(input@, 0),
            out@.len() == done.len(),
            forall|k: int| 0 <= k < done.len() ==> {
                let g = #[trigger] done[k];
                &&& 0 <= g.0 && g.0 + 3 <= g.1 <= input@.len()
                &&& out@[k].literal@ == input@.subrange(g.0, g.1)
                &&& out@[k].key@ == ref_key(input@, g)
            },
        decreases n - p,
    {
        match reference_end(c.as_slice(), p) {
            Some(e) => {
                let lit = string_of(slice_vec(c.as_slice(), p, e).as_slice());
                let key = string_of(slice_vec(c.as_slice(), p + 2, e - 1).as_slice());
                out.push(ConstantRef { key, literal: lit });
                proof {
                    let old_done = done;
                    done = done.push((p as int, e as int));
                    assert(refs_from(input@, p as int) == seq![(p as int, e as int)] + refs_from(input@, e as int));
                    assert(done + refs_from(input@, e as int) =~= old_done + refs_from(input@, p as int));
                }
                p = e;
            },
            None => {
                p = p + 1;
            },
        }
    }
    proof {
        assert(done + refs_from(input@, p as int) =~= done);
    }
    out
}

/// The text of `s` with each reference replaced by its constant's
/// value when `constants` has the key, else kept as written; the text
/// up to reference `k` is `assemble_refs(.., k)`.
pub open spec fn assemble_refs(s: Seq<char>, g: Seq<(int, int)>, constants: Seq<(String, String)>, k: int) -> Seq<char>
    decreases k,
{
    if k <= 0 {
        Seq::empty()
    } else {
        let r = g[k - 1];
        let from = if k == 1 { 0 } else { g[k - 2].1 };
        assemble_refs(s, g, constants, k - 1) + s.subrange(from, r.0)
            + (match pair_value(constants, ref_key(s, r)) { Some(v) => v, None => s.subrange(r.0, r.1) })
    }
}

pub open spec fn spec_substitute(s: Seq<char>, constants: Seq<(String, String)>) -> Seq<char> {
    let g = refs_from(s, 0);
    assemble_refs(s, g, constants, g.len() as int) + s.skip(if g.len() == 0 { 0 } else { g[g.len() - 1].1 })
}

/// Replace every `[#NAME]` / `#{NAME}` reference by the value of
/// `NAME` in `constants`; a reference to an unknown name is kept.
#[verifier::rlimit(40)]
pub fn substitute(input: &str, constants: &Vec<(String, String)>) -> (r: String)
    ensures
        r@ == spec_substitute(input@, constants@),
{
    let c = chars_of(input);
    let n = c.len();
    let mut out: Vec<char> = Vec::new();
    let ghost g = refs_from(input@, 0);
    let ghost mut k: int = 0;
    let mut cursor: usize = 0;
    let mut p: usize = 0;
    while p < n
        invariant
            n == c@.len(),
            c@ == input@,
            g == refs_from(input@, 0),
            cursor <= p <= n,
            0 <= k <= g.len(),
            g.subrange(k, g.len() as int) == refs_from(input@, p as int),
            cursor == (if k == 0 { 0 } else { g[k - 1].1 }),
            out@ == assemble_refs(input@, g, constants@, k),
        decreases n - p,
    {
        match reference_end(c.as_slice(), p) {
            Some(e) => {
                proof {
                    let rf = refs_from(input@, p as int);
                    assert(rf == seq![(p as int, e as int)] + refs_from(input@, e as int));
                    let sub = g.subrange(k, g.len() as int);
                    assert(sub.len() > 0);
                    assert(sub[0] == g[k]);
                    assert(rf[0] == (p as int, e as int));
                    assert(g.subrange(k + 1, g.len() as int) =~= sub.skip(1));
                    assert(rf.skip(1) =~= refs_from(input@, e as int));
                }
                let gap = slice_vec(c.as_slice(), cursor, p);
                extend_chars(&mut out, gap.as_slice());
                let key = slice_vec(c.as_slice(), p + 2, e - 1);
                match crate::outbound::lookup_pair(constants, key.as_slice()) {
                    Some(v) => {
                        let vc = chars_of(v.as_str());
                        extend_chars(&mut out, vc.as_slice());
                    },
                    None => {
                        let lit = slice_vec(c.as_slice(), p, e);
                        extend_chars(&mut out, lit.as_slice());
                    },
                }
                proof {
                    k = k + 1;
                    assert(out@ =~= assemble_refs(input@, g, constants@, k));
                }
                cursor = e;
                p = e;
            },
            None => {
                proof {
                    assert(refs_from(input@, p as int) == refs_from(input@, p + 1));
                }
                p = p + 1;
            },
        }
    }
    proof {
        assert(g.subrange(k, g.len() as int) =~= Seq::<(int, int)>::empty());
        assert(k == g.len());
    }
    let tail = slice_vec(c.as_slice(), cursor, n);
    proof { assert(tail@ =~= input@.skip(cursor as int)); }
    extend_chars(&mut out, tail.as_slice());
    string_of(out.as_slice())
}

} // verus!
