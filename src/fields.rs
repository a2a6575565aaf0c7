//! Ordered name/value lists: the header and query-parameter maps of requests
//! and responses. Names compare byte for byte (case-sensitive).
use vstd::prelude::*;
use crate::path::bytes_eq;

verus! {

/// An ordered list of `(name, value)` byte-string pairs.
pub type Fields = Vec<(Vec<u8>, Vec<u8>)>;

/// The list as a sequence of mathematical pairs.
pub open spec fn fields_view(f: Seq<(Vec<u8>, Vec<u8>)>) -> Seq<(Seq<u8>, Seq<u8>)> {
    f.map_values(|p: (Vec<u8>, Vec<u8>)| (p.0@, p.1@))
}

/// No entry before position `n` has name `k`.
pub open spec fn absent_before(f: Seq<(Seq<u8>, Seq<u8>)>, k: Seq<u8>, n: int) -> bool {
    forall|j: int| 0 <= j < n ==> #[trigger] f[j].0 != k
}

/// `i` is the position of the first entry named `k`.
pub open spec fn first_with(f: Seq<(Seq<u8>, Seq<u8>)>, k: Seq<u8>, i: int) -> bool {
    0 <= i < f.len() && f[i].0 == k && absent_before(f, k, i)
}

/// The value of the first entry named `k`, if any.
pub open spec fn lookup(f: Seq<(Seq<u8>, Seq<u8>)>, k: Seq<u8>) -> Option<Seq<u8>> {
    if exists|i: int| first_with(f, k, i) {
        Some(f[choose|i: int| first_with(f, k, i)].1)
    } else {
        None
    }
}

/// The list after setting `k` to `v`: the first entry named `k` gets the new
/// value in place, or the pair is appended when no entry has that name.
pub open spec fn with_field(f: Seq<(Seq<u8>, Seq<u8>)>, k: Seq<u8>, v: Seq<u8>) -> Seq<(Seq<u8>, Seq<u8>)> {
    if exists|i: int| first_with(f, k, i) {
        f.update(choose|i: int| first_with(f, k, i), (k, v))
    } else {
        f.push((k, v))
    }
}

/// The first position is unique.
pub proof fn lemma_first_unique(f: Seq<(Seq<u8>, Seq<u8>)>, k: Seq<u8>, i: int, j: int)
    requires
        first_with(f, k, i),
        first_with(f, k, j),
    ensures
        i == j,
{
    if i < j {
        assert(f[i].0 != k);
    } else if j < i {
        assert(f[j].0 != k);
    }
}

/// Position of the first entry named `key`.
pub fn position(f: &Fields, key: &[u8]) -> (r: Option<usize>)
    ensures
        match r {
            Some(i) => first_with(fields_view(f@), key@, i as int),
            None => !exists|i: int| first_with(fields_view(f@), key@, i),
        },
{
    let ghost fv = fields_view(f@);
    let mut i: usize = 0;
    while i < f.len()
        invariant
            fv == fields_view(f@),
            i <= f@.len(),
            absent_before(fv, key@, i as int),
        decreases f@.len() - i,
    {
        if bytes_eq(f[i].0.as_slice(), key) {
            return Some(i);
        }
        i = i + 1;
    }
    proof {
        assert forall|j: int| !first_with(fv, key@, j) by {
            if 0 <= j < fv.len() {
                assert(fv[j].0 != key@);
            }
        }
    }
    None
}

/// The value of the first entry named `key`.
pub fn get_field<'a>(f: &'a Fields, key: &[u8]) -> (r: Option<&'a Vec<u8>>)
    ensures
        match r {
            Some(v) => lookup(fields_view(f@), key@) == Some(v@),
            None => lookup(fields_view(f@), key@) is None,
        },
{
    match position(f, key) {
        Some(i) => {
            proof {
                let fv = fields_view(f@);
                let c = choose|j: int| first_with(fv, key@, j);
                lemma_first_unique(fv, key@, i as int, c);
            }
            Some(&f[i].1)
        },
        None => None,
    }
}

/// Sets `key` to `value` (see `with_field`).
pub fn set_field(f: &mut Fields, key: Vec<u8>, value: Vec<u8>)
    ensures
        fields_view(final(f)@) == with_field(fields_view(old(f)@), key@, value@),
{
    let ghost fv = fields_view(f@);
    let ghost k = key@;
    let ghost v = value@;
    match position(f, key.as_slice()) {
        Some(i) => {
            f.set(i, (key, value));
            proof {
                let c = choose|j: int| first_with(fv, k, j);
                lemma_first_unique(fv, k, i as int, c);
                assert(fields_view(f@) =~= fv.update(i as int, (k, v)));
            }
        },
        None => {
            f.push((key, value));
            assert(fields_view(f@) =~= fv.push((k, v)));
        },
    }
}

} // verus!
