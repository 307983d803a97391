//! Small helpers over byte strings and association lists keyed by them.
//!
//! The selection reply and the manifest's size table are kept as lists of
//! pairs in wire order; a key resolves to its first entry.

use vstd::prelude::*;
use crate::messages::pair_views;

verus! {

/// First value stored under `k`, if any.
pub open spec fn lookup<V>(ps: Seq<(Seq<u8>, V)>, k: Seq<u8>) -> Option<V>
    decreases ps.len(),
{
    if ps.len() == 0 {
        None
    } else if ps[0].0 == k {
        Some(ps[0].1)
    } else {
        lookup(ps.skip(1), k)
    }
}

/// A key resolves if and only if it stands among the keys: what `lookup`
/// grants is exactly membership in the table's key sequence.
pub proof fn lemma_lookup_in_keys<V>(ps: Seq<(Seq<u8>, V)>, k: Seq<u8>)
    ensures
        lookup(ps, k) is Some <==> ps.map_values(|p: (Seq<u8>, V)| p.0).contains(k),
    decreases ps.len(),
{
    let keys = ps.map_values(|p: (Seq<u8>, V)| p.0);
    if ps.len() == 0 {
        assert(!keys.contains(k));
    } else {
        lemma_lookup_in_keys(ps.skip(1), k);
        let tail_keys = ps.skip(1).map_values(|p: (Seq<u8>, V)| p.0);
        assert(tail_keys =~= keys.skip(1));
        if ps[0].0 == k {
            assert(keys[0] == k);
            assert(keys.contains(k));
        } else {
            assert(keys.contains(k) <==> keys.skip(1).contains(k)) by {
                if keys.contains(k) {
                    let i = choose|i: int| 0 <= i < keys.len() && keys[i] == k;
                    assert(i != 0);
                    assert(keys.skip(1)[i - 1] == k);
                }
                if keys.skip(1).contains(k) {
                    let i = choose|i: int| 0 <= i < keys.skip(1).len() && keys.skip(1)[i] == k;
                    assert(keys[i + 1] == k);
                }
            }
        }
    }
}

/// The view of one id-to-size entry.
pub open spec fn pair_size_views(p: (Vec<u8>, u64)) -> (Seq<u8>, u64) {
    (p.0@, p.1)
}

/// Byte-for-byte equality of two buffers.
pub fn bytes_eq(a: &Vec<u8>, b: &Vec<u8>) -> (r: bool)
    ensures
        r == (a@ == b@),
{
    if a.len() != b.len() {
        return false;
    }
    let mut i: usize = 0;
    while i < a.len()
        invariant
            i <= a@.len(),
            a@.len() == b@.len(),
            forall|j: int| 0 <= j < i ==> a@[j] == b@[j],
        decreases a@.len() - i,
    {
        if a[i] != b[i] {
            return false;
        }
        i = i + 1;
    }
    proof {
        assert(a@ =~= b@);
    }
    true
}

/// A fresh copy of a byte buffer.
pub fn copy_bytes(v: &Vec<u8>) -> (r: Vec<u8>)
    ensures
        r@ == v@,
{
    let mut r: Vec<u8> = Vec::new();
    let mut i: usize = 0;
    while i < v.len()
        invariant
            i <= v@.len(),
            r@ == v@.take(i as int),
        decreases v@.len() - i,
    {
        r.push(v[i]);
        proof {
            assert(v@.take(i + 1) =~= v@.take(i as int).push(v@[i as int]));
        }
        i = i + 1;
    }
    proof {
        assert(v@.take(v@.len() as int) =~= v@);
    }
    r
}

/// Find the first entry under `k` in a token table.
pub fn find_token(ps: &Vec<(Vec<u8>, Vec<u8>)>, k: &Vec<u8>) -> (r: Option<usize>)
    ensures
        match r {
            Some(i) => i < ps@.len() && ps@[i as int].0@ == k@ && lookup(
                ps@.map_values(|p: (Vec<u8>, Vec<u8>)| pair_views(p)),
                k@,
            ) == Some(ps@[i as int].1@),
            None => lookup(ps@.map_values(|p: (Vec<u8>, Vec<u8>)| pair_views(p)), k@) is None,
        },
{
    let ghost mapped = ps@.map_values(|p: (Vec<u8>, Vec<u8>)| pair_views(p));
    proof {
        assert(mapped.skip(0) =~= mapped);
    }
    let mut i: usize = 0;
    while i < ps.len()
        invariant
            i <= ps@.len(),
            mapped == ps@.map_values(|p: (Vec<u8>, Vec<u8>)| pair_views(p)),
            lookup(mapped, k@) == lookup(mapped.skip(i as int), k@),
        decreases ps@.len() - i,
    {
        proof {
            assert(mapped.skip(i as int)[0] == mapped[i as int]);
            assert(mapped.skip(i as int).skip(1) =~= mapped.skip(i + 1));
        }
        if bytes_eq(&ps[i].0, k) {
            return Some(i);
        }
        i = i + 1;
    }
    proof {
        assert(mapped.skip(i as int) =~= Seq::<(Seq<u8>, Seq<u8>)>::empty());
    }
    None
}

/// Find the value stored under `k` in a size table.
pub fn find_size(ps: &Vec<(Vec<u8>, u64)>, k: &Vec<u8>) -> (r: Option<u64>)
    ensures
        match r {
            Some(n) => lookup(ps@.map_values(|p: (Vec<u8>, u64)| pair_size_views(p)), k@) == Some(n),
            None => lookup(ps@.map_values(|p: (Vec<u8>, u64)| pair_size_views(p)), k@) is None,
        },
{
    let ghost mapped = ps@.map_values(|p: (Vec<u8>, u64)| pair_size_views(p));
    proof {
        assert(mapped.skip(0) =~= mapped);
    }
    let mut i: usize = 0;
    while i < ps.len()
        invariant
            i <= ps@.len(),
            mapped == ps@.map_values(|p: (Vec<u8>, u64)| pair_size_views(p)),
            lookup(mapped, k@) == lookup(mapped.skip(i as int), k@),
        decreases ps@.len() - i,
    {
        proof {
            assert(mapped.skip(i as int)[0] == mapped[i as int]);
            assert(mapped.skip(i as int).skip(1) =~= mapped.skip(i + 1));
        }
        if bytes_eq(&ps[i].0, k) {
            return Some(ps[i].1);
        }
        i = i + 1;
    }
    proof {
        assert(mapped.skip(i as int) =~= Seq::<(Seq<u8>, u64)>::empty());
    }
    None
}

} // verus!
