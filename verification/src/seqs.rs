//! Sequences: what it means to be first, to be counted and to be put in
//! order, for the rest of the library to build on.

use vstd::prelude::*;

verus! {

/// Whether `k` is the first of the indices below `len` at which `p` holds.
pub open spec fn is_first(len: int, p: spec_fn(int) -> bool, k: int) -> bool {
    &&& 0 <= k < len
    &&& p(k)
    &&& forall|j: int| 0 <= j < k ==> !(#[trigger] p(j))
}

/// A filtered sequence has an element exactly if some element of the
/// sequence passes the filter, and two exactly if two of them do.
pub proof fn lemma_filter_counts<A>(s: Seq<A>, p: spec_fn(A) -> bool)
    ensures
        s.filter(p).len() >= 1 <==> exists|i: int| 0 <= i < s.len() && p(s[i]),
        s.filter(p).len() >= 2 <==> exists|i: int, j: int|
            0 <= i < j < s.len() && p(s[i]) && p(s[j]),
    decreases s.len(),
{
    reveal(Seq::filter);
    if s.len() == 0 {
    } else {
        let t = s.drop_last();
        lemma_filter_counts(t, p);
        if s.filter(p).len() >= 1 {
            if p(s.last()) {
                assert(p(s[s.len() - 1]));
            } else {
                let i = choose|i: int| 0 <= i < t.len() && p(t[i]);
                assert(p(s[i]));
            }
        }
        if exists|i: int| 0 <= i < s.len() && p(s[i]) {
            let i = choose|i: int| 0 <= i < s.len() && p(s[i]);
            if i < t.len() {
                assert(p(t[i]));
            }
        }
        if s.filter(p).len() >= 2 {
            if p(s.last()) {
                let i = choose|i: int| 0 <= i < t.len() && p(t[i]);
                assert(p(s[i]) && p(s[s.len() - 1]));
            } else {
                let (i, j) = choose|i: int, j: int| 0 <= i < j < t.len() && p(t[i]) && p(t[j]);
                assert(p(s[i]) && p(s[j]));
            }
        }
        if exists|i: int, j: int| 0 <= i < j < s.len() && p(s[i]) && p(s[j]) {
            let (i, j) = choose|i: int, j: int| 0 <= i < j < s.len() && p(s[i]) && p(s[j]);
            assert(p(t[i]));
            if j < t.len() {
                assert(p(t[j]));
            }
        }
    }
}

/// What has a key by which it is put in order.
pub trait Keyed: Sized {
    /// The key.
    spec fn spec_key(&self) -> u64;

    /// Returns the key.
    fn key(&self) -> (k: u64)
        ensures
            k == self.spec_key(),
    ;
}

impl Keyed for u64 {
    open spec fn spec_key(&self) -> u64 {
        *self
    }

    fn key(&self) -> u64 {
        *self
    }
}

/// The test for an item to have the key `k`.
pub open spec fn keyed<T: Keyed>(k: u64) -> spec_fn(T) -> bool {
    |x: T| x.spec_key() == k
}

/// Whether `sorted` holds the items of `items` in the order of their keys,
/// with the items of one key in the order in which they stand in `items`.
pub open spec fn stable_sorted<T: Keyed>(items: Seq<T>, sorted: Seq<T>) -> bool {
    &&& forall|i: int, j: int|
        0 <= i <= j < sorted.len() ==> sorted[i].spec_key() <= sorted[j].spec_key()
    &&& sorted.to_multiset() == items.to_multiset()
    &&& forall|k: u64| sorted.filter(keyed::<T>(k)) == items.filter(keyed::<T>(k))
}

/// `slice::sort_by_key` with the key of the items as the key: puts the items
/// in the order of their keys. The sort is stable, and it keeps the items
/// that it was given.
#[verifier::external_body]
pub(crate) fn sort_by_key<T: Keyed>(items: &mut Vec<T>)
    ensures
        stable_sorted(old(items)@, final(items)@),
{
    items.sort_by_key(|x| x.key())
}

} // verus!
