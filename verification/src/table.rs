//! A table of digests: each digest once, in the order in which they came,
//! and found again without a walk over all of them.

use crate::hash::BlockHash;
use std::collections::HashMap;
use vstd::bytes::*;
use vstd::prelude::*;
use vstd::slice::*;

verus! {
/// The number by which a digest is looked up: its first eight bytes, read
/// as a little-endian field.
pub open spec fn key_of(digest: Seq<u8>) -> u64 {
    spec_u64_from_le_bytes(digest.subrange(0, 8))
}

/// The digests of `digests`, each as its bytes.
pub open spec fn table_views(digests: Seq<BlockHash>) -> Seq<Seq<u8>> {
    Seq::new(digests.len(), |i: int| digests[i]@)
}

/// No digest occurs twice in `digests`.
pub open spec fn all_different(digests: Seq<Seq<u8>>) -> bool {
    forall|i: int, j: int| 0 <= i < j < digests.len() ==> #[trigger] digests[i] != #[trigger] digests[j]
}

/// The place `i` stands in `places`.
pub open spec fn holds_place(places: Seq<usize>, i: int) -> bool {
    exists|x: int| 0 <= x < places.len() && #[trigger] places[x] == i
}

/// Digests in the order of their coming, with a map from the key of a
/// digest to the places of the digests that have this key.
#[derive(Debug)]
pub struct DigestTable {
    digests: Vec<BlockHash>,
    buckets: HashMap<u64, Vec<usize>>,
}

impl View for DigestTable {
    type V = Seq<Seq<u8>>;

    closed spec fn view(&self) -> Seq<Seq<u8>> {
        table_views(self.digests@)
    }
}

impl DigestTable {
    /// The places that the map holds under the key `k`.
    pub closed spec fn bucket(&self, k: u64) -> Seq<usize> {
        if self.buckets@.contains_key(k) {
            self.buckets@[k]@
        } else {
            Seq::empty()
        }
    }

    /// The table is well formed: no digest occurs twice, every digest is
    /// found under its key, and what is found under a key has that key.
    pub closed spec fn wf(&self) -> bool {
        &&& all_different(self@)
        &&& forall|i: int|
            0 <= i < self@.len() ==> holds_place(self.bucket(key_of(#[trigger] self@[i])), i)
        &&& forall|k: u64, j: int|
            0 <= j < self.bucket(k).len() ==> (#[trigger] self.bucket(k)[j]) < self@.len()
                && key_of(self@[self.bucket(k)[j] as int]) == k
    }

    /// Well-formedness, as callers see it.
    pub proof fn lemma_wf(&self)
        requires
            self.wf(),
        ensures
            all_different(self@),
            self@.len() <= usize::MAX,
            forall|i: int| 0 <= i < self@.len() ==> (#[trigger] self@[i]).len() == 32,
    {
        broadcast use vstd::array::array_len_matches_n;

        assert(self.digests.len() == self.digests@.len());
        assert forall|i: int| 0 <= i < self@.len() implies (#[trigger] self@[i]).len() == 32 by {
            assert(self.digests@[i].0@.len() == 32);
        }
    }

    /// An empty table.
    pub fn new() -> (r: Self)
        ensures
            r.wf(),
            r@ == Seq::<Seq<u8>>::empty(),
    {
        let r = DigestTable { digests: Vec::new(), buckets: HashMap::new() };
        assert(r@ =~= Seq::<Seq<u8>>::empty());
        r
    }

    /// Number of digests in the table.
    pub fn len(&self) -> (r: usize)
        ensures
            r == self@.len(),
    {
        self.digests.len()
    }

    /// The digest at place `i`.
    pub fn digest(&self, i: usize) -> (r: &BlockHash)
        requires
            i < self@.len(),
        ensures
            r@ == self@[i as int],
    {
        &self.digests[i]
    }

    /// Where `digest` stands in the table, if it does.
    pub fn position(&self, digest: &BlockHash) -> (r: Option<usize>)
        requires
            self.wf(),
        ensures
            match r {
                Some(i) => i < self@.len() && self@[i as int] == digest@,
                None => forall|i: int| 0 <= i < self@.len() ==> #[trigger] self@[i] != digest@,
            },
    {
        broadcast use vstd::std_specs::hash::group_hash_axioms;

        let k = key(digest);
        match self.buckets.get(&k) {
            None => {
                assert(self.bucket(k) =~= Seq::<usize>::empty());
                assert forall|i: int| 0 <= i < self@.len() implies #[trigger] self@[i]
                    != digest@ by {
                    if self@[i] == digest@ {
                        assert(holds_place(self.bucket(key_of(self@[i])), i));
                    }
                }
                None
            },
            Some(list) => {
                assert(list@ == self.bucket(k));
                let n = list.len();
                let mut j: usize = 0;
                while j < n
                    invariant
                        self.wf(),
                        n == list@.len(),
                        list@ == self.bucket(k),
                        k == key_of(digest@),
                        j <= n,
                        forall|x: int| 0 <= x < j ==> self@[#[trigger] list@[x] as int] != digest@,
                    decreases n - j,
                {
                    let at = list[j];
                    assert(self.bucket(k)[j as int] < self@.len());
                    if self.digests[at] == *digest {
                        return Some(at);
                    }
                    j += 1;
                }
                assert forall|i: int| 0 <= i < self@.len() implies #[trigger] self@[i]
                    != digest@ by {
                    if self@[i] == digest@ {
                        assert(holds_place(self.bucket(key_of(self@[i])), i));
                        let x = choose|x: int| 0 <= x < list@.len() && #[trigger] list@[x] == i;
                        assert(self@[list@[x] as int] != digest@);
                    }
                }
                None
            },
        }
    }

    /// Puts `digest` at the end of the table unless it stands in it
    /// already, and says whether it did.
    pub fn insert(&mut self, digest: BlockHash) -> (inserted: bool)
        requires
            old(self).wf(),
        ensures
            final(self).wf(),
            inserted == (forall|i: int| 0 <= i < old(self)@.len() ==> #[trigger] old(self)@[i] != digest@),
            inserted ==> final(self)@ == old(self)@.push(digest@),
            !inserted ==> final(self)@ == old(self)@,
    {
        broadcast use vstd::std_specs::hash::group_hash_axioms;

        match self.position(&digest) {
            Some(i) => {
                assert(old(self)@[i as int] == digest@);
                return false;
            },
            None => {},
        }
        let k = key(&digest);
        let n = self.digests.len();
        let mut list: Vec<usize> = match self.buckets.remove(&k) {
            Some(found) => found,
            None => Vec::new(),
        };
        let ghost old_list = old(self).bucket(k);
        assert(list@ =~= old_list);
        list.push(n);
        let ghost new_list = list@;
        self.digests.push(digest);
        self.buckets.insert(k, list);
        proof {
            assert(self@ =~= old(self)@.push(digest@));
            assert forall|kk: u64| #[trigger] self.bucket(kk) == if kk == k {
                new_list
            } else {
                old(self).bucket(kk)
            } by {}
            assert forall|i: int| 0 <= i < self@.len() implies holds_place(
                self.bucket(key_of(#[trigger] self@[i])),
                i,
            ) by {
                if i < n {
                    assert(old(self)@[i] == self@[i]);
                    assert(holds_place(old(self).bucket(key_of(old(self)@[i])), i));
                    if key_of(self@[i]) == k {
                        let x = choose|x: int| 0 <= x < old_list.len() && #[trigger] old_list[x] == i;
                        assert(new_list[x] == i);
                    }
                } else {
                    assert(new_list[old_list.len() as int] == n);
                }
            }
            assert forall|kk: u64, j: int| 0 <= j < self.bucket(kk).len() implies (
            #[trigger] self.bucket(kk)[j]) < self@.len() && key_of(
                self@[self.bucket(kk)[j] as int],
            ) == kk by {
                if kk == k && j == old_list.len() {
                } else {
                    assert(old(self).bucket(kk)[j] < old(self)@.len());
                    assert(self.bucket(kk)[j] == old(self).bucket(kk)[j]);
                    assert(self@[self.bucket(kk)[j] as int] == old(self)@[old(self).bucket(kk)[j] as int]);
                }
            }
            assert forall|i: int, j: int| 0 <= i < j < self@.len() implies #[trigger] self@[i]
                != #[trigger] self@[j] by {
                if j < n {
                    assert(old(self)@[i] != old(self)@[j]);
                } else {
                    assert(old(self)@[i] != digest@);
                }
            }
        }
        true
    }
}

/// The key of `digest`.
fn key(digest: &BlockHash) -> (r: u64)
    ensures
        r == key_of(digest@),
{
    broadcast use vstd::array::array_len_matches_n;

    let bytes = digest.as_bytes().as_slice();
    assert(bytes@.len() == 32);
    u64_from_le_bytes(slice_subrange(bytes, 0, 8))
}
} // verus!
