//! Range scans and the committed/pending merge.
//!
//! A range scan covers the keys `start <= key < end` (a missing bound is
//! unbounded).  The pending view's scan must behave as a scan over the
//! union of committed and pending keys in which a pending entry shadows the
//! committed one: a pending put supersedes the committed value and a
//! pending delete suppresses it.  `merge_range` walks the two sorted sides
//! in step and produces that merged, ascending sequence; a scan of the
//! committed side alone is the same merge against an empty pending map.

use vstd::prelude::*;

use crate::bytes::{clone_bytes, compare, lemma_lex_irrefl, lemma_lex_trans, lex_lt, KeyCmp};
use crate::bytemap::{
    assoc_has_key, assoc_lookup, assoc_pos, assoc_sorted, ByteMap, lemma_assoc_at,
    lemma_assoc_insert,
};
use crate::op::Op;

verus! {

/// The pairs of a scan result, both sides abstracted to byte strings.
pub open spec fn kv_view(s: Seq<(Vec<u8>, Vec<u8>)>) -> Seq<(Seq<u8>, Seq<u8>)> {
    s.map_values(|e: (Vec<u8>, Vec<u8>)| (e.0@, e.1@))
}

/// A bound argument abstracted to a byte string.
pub open spec fn opt_view(o: Option<&[u8]>) -> Option<Seq<u8>> {
    match o {
        Some(b) => Some(b@),
        None => None,
    }
}

/// `start <= x < end`, where a missing bound is unbounded.
pub open spec fn in_bounds(x: Seq<u8>, start: Option<Seq<u8>>, end: Option<Seq<u8>>) -> bool {
    (match start {
        Some(s) => !lex_lt(x, s),
        None => true,
    }) && (match end {
        Some(e) => lex_lt(x, e),
        None => true,
    })
}

/// What a committed association vector binds `k` to, as a byte string.
pub open spec fn lookup_bytes(s: Seq<(Seq<u8>, Vec<u8>)>, k: Seq<u8>) -> Option<Seq<u8>> {
    match assoc_lookup(s, k) {
        Some(v) => Some(v@),
        None => None,
    }
}

/// What the union of a committed side and a pending side binds `k` to: the
/// pending entry shadows the committed one, and a pending delete suppresses
/// it.
pub open spec fn merged_lookup(
    c: Seq<(Seq<u8>, Vec<u8>)>,
    p: Seq<(Seq<u8>, Op)>,
    k: Seq<u8>,
) -> Option<Seq<u8>> {
    match assoc_lookup(p, k) {
        Some(op) => match op {
            Op::Put(v) => Some(v@),
            Op::Delete => None,
        },
        None => lookup_bytes(c, k),
    }
}

/// Some pair at position `from` or later has key `x`.
pub open spec fn key_in_suffix<V>(s: Seq<(Seq<u8>, V)>, from: int, x: Seq<u8>) -> bool {
    exists|t: int| from <= t < s.len() && s[t].0 == x
}

/// Splitting a suffix at its first pair.
pub proof fn lemma_suffix_step<V>(s: Seq<(Seq<u8>, V)>, from: int)
    requires
        0 <= from < s.len(),
    ensures
        forall|x: Seq<u8>|
            #[trigger] key_in_suffix(s, from, x) == (s[from].0 == x || key_in_suffix(
                s,
                from + 1,
                x,
            )),
{
    assert forall|x: Seq<u8>|
        #[trigger] key_in_suffix(s, from, x) == (s[from].0 == x || key_in_suffix(
            s,
            from + 1,
            x,
        )) by {
        if key_in_suffix(s, from, x) {
            let t = choose|t: int| from <= t < s.len() && s[t].0 == x;
            if t > from {
                assert(key_in_suffix(s, from + 1, x));
            }
        }
        if s[from].0 == x {
            assert(from <= from < s.len() && s[from].0 == x);
            assert(key_in_suffix(s, from, x));
        }
        if key_in_suffix(s, from + 1, x) {
            let t = choose|t: int| from + 1 <= t < s.len() && s[t].0 == x;
            assert(from <= t < s.len() && s[t].0 == x);
            assert(key_in_suffix(s, from, x));
        }
    }
}

/// Does `key` fall within `start <= key < end`?
fn key_in_range(key: &[u8], start: Option<&[u8]>, end: Option<&[u8]>) -> (r: bool)
    ensures
        r == in_bounds(key@, opt_view(start), opt_view(end)),
{
    let lower_ok = match start {
        Some(s) => match compare(key, s) {
            KeyCmp::Less => false,
            _ => true,
        },
        None => true,
    };
    let upper_ok = match end {
        Some(e) => match compare(key, e) {
            KeyCmp::Less => true,
            _ => false,
        },
        None => true,
    };
    lower_ok && upper_ok
}

/// Scan `start <= key < end` over the union of a committed map and a
/// pending map, in ascending key order, the pending side shadowing the
/// committed one and pending deletes suppressed from the output.
pub fn merge_range(
    committed: &ByteMap<Vec<u8>>,
    pending: &ByteMap<Op>,
    start: Option<&[u8]>,
    end: Option<&[u8]>,
) -> (out: Vec<(Vec<u8>, Vec<u8>)>)
    requires
        committed.wf(),
        pending.wf(),
    ensures
        assoc_sorted(kv_view(out@)),
        forall|x: Seq<u8>|
            #[trigger] assoc_lookup(kv_view(out@), x) == (if in_bounds(
                x,
                opt_view(start),
                opt_view(end),
            ) {
                merged_lookup(committed@, pending@, x)
            } else {
                None::<Seq<u8>>
            }),
{
    let ghost cv: Seq<(Seq<u8>, Vec<u8>)> = committed@;
    let ghost pv: Seq<(Seq<u8>, Op)> = pending@;
    let ghost sv: Option<Seq<u8>> = opt_view(start);
    let ghost ev: Option<Seq<u8>> = opt_view(end);
    let clen = committed.len();
    let plen = pending.len();
    let mut out: Vec<(Vec<u8>, Vec<u8>)> = Vec::new();
    let mut i: usize = 0;
    let mut j: usize = 0;
    while i < clen || j < plen
        invariant
            0 <= i <= clen == cv.len(),
            0 <= j <= plen == pv.len(),
            assoc_sorted(kv_view(out@)),
            forall|e: int, t: int|
                0 <= e < out@.len() && i <= t < cv.len() ==> lex_lt(
                    #[trigger] kv_view(out@)[e].0,
                    #[trigger] cv[t].0,
                ),
            forall|e: int, t: int|
                0 <= e < out@.len() && j <= t < pv.len() ==> lex_lt(
                    #[trigger] kv_view(out@)[e].0,
                    #[trigger] pv[t].0,
                ),
            forall|a: int, b: int|
                0 <= a < j && i <= b < cv.len() ==> lex_lt(#[trigger] pv[a].0, #[trigger] cv[b].0),
            forall|a: int, b: int|
                0 <= a < i && j <= b < pv.len() ==> lex_lt(#[trigger] cv[a].0, #[trigger] pv[b].0),
            forall|x: Seq<u8>|
                #[trigger] assoc_lookup(kv_view(out@), x) == (if in_bounds(x, sv, ev)
                    && !key_in_suffix(cv, i as int, x) && !key_in_suffix(pv, j as int, x) {
                    merged_lookup(cv, pv, x)
                } else {
                    None::<Seq<u8>>
                }),
        decreases (clen - i) + (plen - j),
    {
        let ghost out0: Seq<(Seq<u8>, Seq<u8>)> = kv_view(out@);
        let ghost i0: int = i as int;
        let ghost j0: int = j as int;
        let take_committed: bool = if i < clen && j < plen {
            match compare(committed.key_at(i).as_slice(), pending.key_at(j).as_slice()) {
                KeyCmp::Less => true,
                _ => false,
            }
        } else {
            i < clen
        };
        if take_committed {
            // The committed front is strictly below every unprocessed
            // pending key, so the pending side binds nothing to it.
            let ghost k: Seq<u8> = cv[i0].0;
            proof {
                lemma_lex_irrefl(k);
                assert forall|b: int| j0 <= b < pv.len() implies lex_lt(k, pv[b].0) by {
                    if b > j0 {
                        lemma_lex_trans(k, pv[j0].0, pv[b].0);
                    }
                }
                assert forall|t: int| i0 + 1 <= t < cv.len() implies cv[t].0 != k by {
                    assert(lex_lt(cv[i0].0, cv[t].0));
                }
                if assoc_has_key(pv, k) {
                    let a = assoc_pos(pv, k);
                    assert(0 <= a < pv.len() && pv[a].0 == k);
                }
                lemma_assoc_at(cv, i0);
                lemma_suffix_step(cv, i0);
            }
            let key = committed.key_at(i);
            if key_in_range(key.as_slice(), start, end) {
                let value = committed.value_at(i);
                proof {
                    lemma_assoc_insert(out0, out0.len() as int, k, cv[i0].1@);
                }
                out.push((clone_bytes(key), clone_bytes(value)));
                proof {
                    assert(kv_view(out@) =~= out0.insert(out0.len() as int, (k, cv[i0].1@)));
                }
            } else {
                proof {
                    if assoc_has_key(out0, k) {
                        let e = assoc_pos(out0, k);
                        assert(0 <= e < out0.len() && out0[e].0 == k);
                    }
                }
            }
            i = i + 1;
        } else {
            // The pending front is at or below the committed front; on key
            // equality the pending entry shadows the committed pair, which
            // is consumed together with it.
            let ghost k: Seq<u8> = pv[j0].0;
            let shadows: bool = if i < clen {
                match compare(committed.key_at(i).as_slice(), pending.key_at(j).as_slice()) {
                    KeyCmp::Equal => true,
                    _ => false,
                }
            } else {
                false
            };
            proof {
                lemma_lex_irrefl(k);
                if i < clen && !shadows {
                    // compare put the pending front strictly below the
                    // committed front, hence below the whole committed
                    // suffix.
                    assert forall|b: int| i0 <= b < cv.len() implies lex_lt(k, cv[b].0) by {
                        if b > i0 {
                            lemma_lex_trans(k, cv[i0].0, cv[b].0);
                        }
                    }
                }
                assert forall|t: int| j0 + 1 <= t < pv.len() implies pv[t].0 != k by {
                    assert(lex_lt(pv[j0].0, pv[t].0));
                }
                if !shadows && assoc_has_key(cv, k) {
                    let a = assoc_pos(cv, k);
                    assert(0 <= a < cv.len() && cv[a].0 == k);
                    if a < i0 {
                        assert(lex_lt(cv[a].0, pv[j0].0));
                    }
                }
                lemma_assoc_at(pv, j0);
                lemma_suffix_step(pv, j0);
                if shadows {
                    assert(cv[i0].0 == k);
                    assert forall|t: int| i0 + 1 <= t < cv.len() implies cv[t].0 != k by {
                        assert(lex_lt(cv[i0].0, cv[t].0));
                    }
                    lemma_suffix_step(cv, i0);
                }
            }
            let key = pending.key_at(j);
            if key_in_range(key.as_slice(), start, end) {
                match pending.value_at(j) {
                    Op::Put(value) => {
                        proof {
                            lemma_assoc_insert(out0, out0.len() as int, k, value@);
                        }
                        out.push((clone_bytes(key), clone_bytes(value)));
                        proof {
                            assert(kv_view(out@) =~= out0.insert(out0.len() as int, (k, value@)));
                        }
                    },
                    Op::Delete => {
                        proof {
                            if assoc_has_key(out0, k) {
                                let e = assoc_pos(out0, k);
                                assert(0 <= e < out0.len() && out0[e].0 == k);
                            }
                        }
                    },
                }
            } else {
                proof {
                    if assoc_has_key(out0, k) {
                        let e = assoc_pos(out0, k);
                        assert(0 <= e < out0.len() && out0[e].0 == k);
                    }
                }
            }
            if shadows {
                i = i + 1;
            }
            j = j + 1;
        }
        proof {
            assert forall|x: Seq<u8>|
                #[trigger] assoc_lookup(kv_view(out@), x) == (if in_bounds(x, sv, ev)
                    && !key_in_suffix(cv, i as int, x) && !key_in_suffix(pv, j as int, x) {
                    merged_lookup(cv, pv, x)
                } else {
                    None::<Seq<u8>>
                }) by {
                let look_old = assoc_lookup(out0, x);
                let suff_c_old = key_in_suffix(cv, i0, x);
                let suff_p_old = key_in_suffix(pv, j0, x);
                let look_new = assoc_lookup(kv_view(out@), x);
                let suff_c_new = key_in_suffix(cv, i as int, x);
                let suff_p_new = key_in_suffix(pv, j as int, x);
            }
        }
    }
    out
}

/// The pairs are strictly descending by key.
pub open spec fn assoc_sorted_desc<V>(s: Seq<(Seq<u8>, V)>) -> bool {
    forall|i: int, j: int| 0 <= i < j < s.len() ==> lex_lt(s[j].0, s[i].0)
}

/// Reversing an ascending scan yields the descending scan: the order flips
/// and every binding is kept.
pub proof fn lemma_assoc_reverse<V>(s: Seq<(Seq<u8>, V)>)
    requires
        assoc_sorted(s),
    ensures
        assoc_sorted_desc(s.reverse()),
        forall|x: Seq<u8>|
            #[trigger] assoc_lookup(s.reverse(), x) == assoc_lookup(s, x),
{
    let r = s.reverse();
    assert forall|x: Seq<u8>| #[trigger] assoc_lookup(r, x) == assoc_lookup(s, x) by {
        if assoc_has_key(s, x) {
            let i = assoc_pos(s, x);
            assert(0 <= i < s.len() && s[i].0 == x);
            lemma_assoc_at(s, i);
            assert(r[s.len() - 1 - i].0 == x);
            assert(assoc_has_key(r, x));
            let j = assoc_pos(r, x);
            assert(0 <= j < r.len() && r[j].0 == x);
            assert(s[s.len() - 1 - j].0 == x);
            lemma_assoc_at(s, s.len() - 1 - j);
        } else {
            if assoc_has_key(r, x) {
                let j = assoc_pos(r, x);
                assert(0 <= j < r.len() && r[j].0 == x);
                assert(s[s.len() - 1 - j].0 == x);
            }
        }
    }
}

/// Reverse a scan result.
pub fn reverse_pairs(input: &Vec<(Vec<u8>, Vec<u8>)>) -> (r: Vec<(Vec<u8>, Vec<u8>)>)
    ensures
        kv_view(r@) == kv_view(input@).reverse(),
{
    let n = input.len();
    let mut out: Vec<(Vec<u8>, Vec<u8>)> = Vec::new();
    let mut i: usize = n;
    while i > 0
        invariant
            0 <= i <= n == input@.len(),
            out@.len() == n - i,
            forall|e: int|
                0 <= e < out@.len() ==> #[trigger] kv_view(out@)[e] == (
                    input@[n - 1 - e].0@,
                    input@[n - 1 - e].1@,
                ),
        decreases i,
    {
        let ghost out0: Seq<(Vec<u8>, Vec<u8>)> = out@;
        i = i - 1;
        out.push((clone_bytes(&input[i].0), clone_bytes(&input[i].1)));
        proof {
            assert forall|e: int| 0 <= e < out@.len() implies #[trigger] kv_view(out@)[e] == (
                input@[n - 1 - e].0@,
                input@[n - 1 - e].1@,
            ) by {
                if e < out@.len() - 1 {
                    assert(kv_view(out0)[e] == (input@[n - 1 - e].0@, input@[n - 1 - e].1@));
                }
            }
        }
    }
    proof {
        assert(kv_view(out@) =~= kv_view(input@).reverse());
    }
    out
}

} // verus!
