//! Path normalization and byte-string helpers shared by the router and codec.
use vstd::prelude::*;

verus! {

pub const SLASH: u8 = 47;

/// A registration or request path with one trailing `/` removed, except that
/// the root stays `/` and an empty path becomes `/`.
pub open spec fn normalized(p: Seq<u8>) -> Seq<u8> {
    if p.len() == 0 {
        seq![SLASH]
    } else if p.len() > 1 && p.last() == SLASH {
        p.drop_last()
    } else {
        p
    }
}

/// `p` begins with `prefix` (a plain byte-prefix test, not segment aware).
pub open spec fn has_prefix(p: Seq<u8>, prefix: Seq<u8>) -> bool {
    prefix.len() <= p.len() && p.subrange(0, prefix.len() as int) == prefix
}

/// Copies a byte slice into a fresh vector.
pub fn copy_bytes(s: &[u8]) -> (r: Vec<u8>)
    ensures
        r@ == s@,
{
    let mut r: Vec<u8> = Vec::with_capacity(s.len());
    let mut i: usize = 0;
    while i < s.len()
        invariant
            i <= s@.len(),
            r@ == s@.subrange(0, i as int),
        decreases s@.len() - i,
    {
        r.push(s[i]);
        i = i + 1;
    }
    assert(r@ =~= s@);
    r
}

/// Byte-wise equality of two slices.
pub fn bytes_eq(a: &[u8], b: &[u8]) -> (r: bool)
    ensures
        r == (a@ == b@),
{
    if a.len() != b.len() {
        return false;
    }
    let mut i: usize = 0;
    while i < a.len()
        invariant
            a@.len() == b@.len(),
            i <= a@.len(),
            a@.subrange(0, i as int) == b@.subrange(0, i as int),
        decreases a@.len() - i,
    {
        if a[i] != b[i] {
            assert(a@[i as int] != b@[i as int]);
            return false;
        }
        assert(a@.subrange(0, i + 1) =~= a@.subrange(0, i as int).push(a@[i as int]));
        assert(b@.subrange(0, i + 1) =~= b@.subrange(0, i as int).push(b@[i as int]));
        i = i + 1;
    }
    assert(a@ =~= a@.subrange(0, a@.len() as int));
    assert(b@ =~= b@.subrange(0, b@.len() as int));
    true
}

/// Whether `p` begins with `prefix`.
pub fn starts_with(p: &[u8], prefix: &[u8]) -> (r: bool)
    ensures
        r == has_prefix(p@, prefix@),
{
    if prefix.len() > p.len() {
        return false;
    }
    let mut i: usize = 0;
    while i < prefix.len()
        invariant
            prefix@.len() <= p@.len(),
            i <= prefix@.len(),
            p@.subrange(0, i as int) == prefix@.subrange(0, i as int),
        decreases prefix@.len() - i,
    {
        if p[i] != prefix[i] {
            assert(p@.subrange(0, prefix@.len() as int)[i as int] != prefix@[i as int]);
            return false;
        }
        assert(p@.subrange(0, i + 1) =~= p@.subrange(0, i as int).push(p@[i as int]));
        assert(prefix@.subrange(0, i + 1) =~= prefix@.subrange(0, i as int).push(prefix@[i as int]));
        i = i + 1;
    }
    assert(prefix@ =~= prefix@.subrange(0, prefix@.len() as int));
    true
}

/// Normalizes a registration or request path, so that `/example` and
/// `/example/` address the same entry.
pub fn normalize(path: &[u8]) -> (r: Vec<u8>)
    ensures
        r@ == normalized(path@),
{
    let mut r = copy_bytes(path);
    if r.len() == 0 {
        r.push(SLASH);
        assert(r@ =~= seq![SLASH]);
    } else if r.len() > 1 && r[r.len() - 1] == SLASH {
        r.pop();
    }
    r
}

/// Normalizing twice is normalizing once, for every path whose normal form
/// does not itself end in a doubled slash.
pub proof fn lemma_normalize_idempotent(p: Seq<u8>)
    requires
        !(p.len() >= 3 && p[p.len() - 1] == SLASH && p[p.len() - 2] == SLASH),
    ensures
        normalized(normalized(p)) == normalized(p),
{
    if p.len() > 1 && p.last() == SLASH {
        let q = p.drop_last();
        if q.len() > 1 {
            assert(q.last() == p[p.len() - 2]);
        }
    }
}

} // verus!
