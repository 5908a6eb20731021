//! Lexicographic ordering on byte strings.
//!
//! Keys of the store are raw byte strings, and every ordered structure in
//! this crate (the pending-operation map, the tree engine's key space, range
//! scans) is sorted by the order defined here: the usual lexicographic order
//! in which a proper prefix comes before its extensions.

use vstd::prelude::*;

verus! {

/// `a` comes strictly before `b` in lexicographic byte order.
pub open spec fn lex_lt(a: Seq<u8>, b: Seq<u8>) -> bool
    decreases a.len(),
{
    if b.len() == 0 {
        false
    } else if a.len() == 0 {
        true
    } else if a[0] < b[0] {
        true
    } else if a[0] > b[0] {
        false
    } else {
        lex_lt(a.drop_first(), b.drop_first())
    }
}

/// Result of comparing two byte strings.
#[derive(Clone, Copy, Debug)]
pub enum KeyCmp {
    Less,
    Equal,
    Greater,
}

/// No byte string comes before itself.
pub proof fn lemma_lex_irrefl(a: Seq<u8>)
    ensures
        !lex_lt(a, a),
    decreases a.len(),
{
    if a.len() > 0 {
        lemma_lex_irrefl(a.drop_first());
    }
}

/// The order is asymmetric: at most one of `a < b`, `b < a` holds.
pub proof fn lemma_lex_asym(a: Seq<u8>, b: Seq<u8>)
    ensures
        !(lex_lt(a, b) && lex_lt(b, a)),
    decreases a.len(),
{
    if a.len() > 0 && b.len() > 0 && a[0] == b[0] {
        lemma_lex_asym(a.drop_first(), b.drop_first());
    }
}

/// The order is transitive.
pub proof fn lemma_lex_trans(a: Seq<u8>, b: Seq<u8>, c: Seq<u8>)
    requires
        lex_lt(a, b),
        lex_lt(b, c),
    ensures
        lex_lt(a, c),
    decreases a.len(),
{
    if a.len() > 0 && b.len() > 0 && c.len() > 0 && a[0] == b[0] && b[0] == c[0] {
        lemma_lex_trans(a.drop_first(), b.drop_first(), c.drop_first());
    }
}

/// Comparison only depends on the suffixes once a common prefix is skipped.
proof fn lemma_lex_skip(a: Seq<u8>, b: Seq<u8>, i: int)
    requires
        0 <= i <= a.len(),
        i <= b.len(),
        forall|k: int| 0 <= k < i ==> a[k] == b[k],
    ensures
        lex_lt(a, b) == lex_lt(a.skip(i), b.skip(i)),
    decreases i,
{
    if i == 0 {
        assert(a.skip(0) =~= a);
        assert(b.skip(0) =~= b);
    } else {
        assert(a.len() > 0 && b.len() > 0 && a[0] == b[0]);
        lemma_lex_skip(a.drop_first(), b.drop_first(), i - 1);
        assert(a.drop_first().skip(i - 1) =~= a.skip(i));
        assert(b.drop_first().skip(i - 1) =~= b.skip(i));
    }
}

/// Compare two byte strings in lexicographic order.
pub fn compare(a: &[u8], b: &[u8]) -> (r: KeyCmp)
    ensures
        (r is Less) <==> lex_lt(a@, b@),
        (r is Equal) <==> a@ == b@,
        (r is Greater) <==> lex_lt(b@, a@),
{
    let a_len = a.len();
    let b_len = b.len();
    let mut i: usize = 0;
    while i < a_len && i < b_len
        invariant
            0 <= i <= a_len,
            i <= b_len,
            a_len == a@.len(),
            b_len == b@.len(),
            forall|k: int| 0 <= k < i ==> a@[k] == b@[k],
        decreases a_len - i,
    {
        let x = a[i];
        let y = b[i];
        if x < y {
            proof {
                lemma_lex_skip(a@, b@, i as int);
                lemma_lex_asym(a@, b@);
                assert(a@[i as int] != b@[i as int]);
            }
            return KeyCmp::Less;
        }
        if x > y {
            proof {
                lemma_lex_skip(b@, a@, i as int);
                lemma_lex_asym(b@, a@);
                assert(a@[i as int] != b@[i as int]);
            }
            return KeyCmp::Greater;
        }
        i = i + 1;
    }
    if a_len == b_len {
        proof {
            assert(a@ =~= b@);
            lemma_lex_irrefl(a@);
        }
        KeyCmp::Equal
    } else if a_len < b_len {
        proof {
            lemma_lex_skip(a@, b@, a_len as int);
            assert(a@.skip(a_len as int).len() == 0);
            assert(b@.skip(a_len as int).len() > 0);
            lemma_lex_asym(a@, b@);
        }
        KeyCmp::Less
    } else {
        proof {
            lemma_lex_skip(b@, a@, b_len as int);
            assert(b@.skip(b_len as int).len() == 0);
            assert(a@.skip(b_len as int).len() > 0);
            lemma_lex_asym(b@, a@);
        }
        KeyCmp::Greater
    }
}

/// Append all of `bytes` to `out`.
pub fn push_bytes(out: &mut Vec<u8>, bytes: &[u8])
    ensures
        final(out)@ == old(out)@ + bytes@,
{
    let ghost orig: Seq<u8> = out@;
    let mut i: usize = 0;
    while i < bytes.len()
        invariant
            0 <= i <= bytes@.len(),
            out@ == orig + bytes@.take(i as int),
        decreases bytes@.len() - i,
    {
        out.push(bytes[i]);
        proof {
            assert(bytes@.take(i + 1) =~= bytes@.take(i as int).push(bytes@[i as int]));
        }
        i = i + 1;
    }
    proof {
        assert(bytes@.take(bytes@.len() as int) =~= bytes@);
    }
}

/// Copy a byte string.
pub fn clone_bytes(v: &Vec<u8>) -> (r: Vec<u8>)
    ensures
        r@ == v@,
{
    let mut r: Vec<u8> = Vec::new();
    push_bytes(&mut r, v.as_slice());
    proof {
        assert(Seq::<u8>::empty() + v@ =~= v@);
    }
    r
}

/// Copy a byte slice into a fresh vector.
pub fn to_vec(bytes: &[u8]) -> (r: Vec<u8>)
    ensures
        r@ == bytes@,
{
    let mut r: Vec<u8> = Vec::new();
    push_bytes(&mut r, bytes);
    proof {
        assert(Seq::<u8>::empty() + bytes@ =~= bytes@);
    }
    r
}

} // verus!
