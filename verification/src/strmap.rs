use vstd::prelude::*;

use crate::lex::{compare, lemma_lex_irreflexive, lemma_lex_transitive, lex_lt, Cmp};
use crate::rank::{lemma_listing_unique, lex_strict, listing};

verus! {

/// A map keyed by text, kept in ascending key order (what `BTreeMap<String, V>` is to
/// the logic here). Lookups are by binary search.
pub struct StrMap<V> {
    keys: Vec<Vec<char>>,
    vals: Vec<V>,
    map: Ghost<Map<Seq<char>, V>>,
}

impl<V> StrMap<V> {
    /// The keys, in ascending order.
    pub closed spec fn key_seq(&self) -> Seq<Seq<char>> {
        self.keys@.map_values(|k: Vec<char>| k@)
    }

    /// The values, in key order.
    pub closed spec fn val_seq(&self) -> Seq<V> {
        self.vals@
    }

    /// The map from keys to values.
    pub closed spec fn view(&self) -> Map<Seq<char>, V> {
        self.map@
    }

    pub closed spec fn wf(&self) -> bool {
        &&& self.keys@.len() == self.vals@.len()
        &&& forall|i: int, j: int|
            0 <= i < j < self.keys@.len() ==> lex_lt(
                #[trigger] self.keys@[i]@,
                #[trigger] self.keys@[j]@,
            )
        &&& forall|i: int|
            0 <= i < self.keys@.len() ==> self.map@.contains_key(#[trigger] self.keys@[i]@)
                && self.map@[self.keys@[i]@] == self.vals@[i]
        &&& forall|k: Seq<char>| #[trigger]
            self.map@.contains_key(k) ==> exists|i: int|
                0 <= i < self.keys@.len() && #[trigger] self.keys@[i]@ == k
    }

    /// How the keys and values line up with the map.
    pub proof fn lemma_entries(&self)
        requires
            self.wf(),
        ensures
            self.key_seq().len() == self.val_seq().len(),
            self.key_seq().no_duplicates(),
            self@.dom() == self.key_seq().to_set(),
            self@.dom().len() == self.key_seq().len(),
            forall|i: int, j: int|
                0 <= i < j < self.key_seq().len() ==> lex_lt(
                    #[trigger] self.key_seq()[i],
                    #[trigger] self.key_seq()[j],
                ),
            forall|i: int|
                0 <= i < self.key_seq().len() ==> #[trigger] self@[self.key_seq()[i]]
                    == self.val_seq()[i],
    {
        let ks = self.key_seq();
        assert forall|i: int, j: int| 0 <= i < ks.len() && 0 <= j < ks.len() && i != j implies ks[i]
            != ks[j] by {
            if i < j {
                assert(lex_lt(self.keys@[i]@, self.keys@[j]@));
                lemma_lex_irreflexive(ks[i]);
            } else {
                assert(lex_lt(self.keys@[j]@, self.keys@[i]@));
                lemma_lex_irreflexive(ks[j]);
            }
        }
        assert forall|k: Seq<char>| self@.dom().contains(k) <==> ks.to_set().contains(k) by {
            if self@.dom().contains(k) {
                let i = choose|i: int| 0 <= i < self.keys@.len() && #[trigger] self.keys@[i]@ == k;
                assert(ks[i] == k);
            }
            if ks.to_set().contains(k) {
                let i = choose|i: int| 0 <= i < ks.len() && ks[i] == k;
                assert(self.keys@[i]@ == k);
            }
        }
        assert(self@.dom() =~= ks.to_set());
        ks.unique_seq_to_set();
        assert forall|i: int, j: int| 0 <= i < j < ks.len() implies lex_lt(
            #[trigger] ks[i],
            #[trigger] ks[j],
        ) by {
            assert(lex_lt(self.keys@[i]@, self.keys@[j]@));
        }
        assert forall|i: int| 0 <= i < ks.len() implies #[trigger] self@[ks[i]] == self.val_seq()[i] by {
            assert(self.map@.contains_key(self.keys@[i]@));
        }
    }

    /// The keys are the ascending listing of the map's keys.
    pub proof fn lemma_key_listing(&self)
        requires
            self.wf(),
        ensures
            self.key_seq() == listing(self@.dom()),
            lex_strict(listing(self@.dom())),
            listing(self@.dom()).to_set() == self@.dom(),
    {
        self.lemma_entries();
        let ks = self.key_seq();
        assert(lex_strict(ks));
        assert(ks.to_set() == self@.dom());
        lemma_listing_unique(ks, listing(self@.dom()));
    }

    /// An empty map.
    pub fn new() -> (m: Self)
        ensures
            m.wf(),
            m@ == Map::<Seq<char>, V>::empty(),
            m.key_seq() == Seq::<Seq<char>>::empty(),
            m.val_seq() == Seq::<V>::empty(),
    {
        let m = StrMap { keys: Vec::new(), vals: Vec::new(), map: Ghost(Map::empty()) };
        assert(m.key_seq() =~= Seq::<Seq<char>>::empty());
        m
    }

    /// Number of entries.
    pub fn len(&self) -> (n: usize)
        requires
            self.wf(),
        ensures
            n == self@.dom().len(),
            n == self.key_seq().len(),
    {
        proof {
            self.lemma_entries();
        }
        self.keys.len()
    }

    /// The key of entry `i`.
    pub fn key_at(&self, i: usize) -> (k: &Vec<char>)
        requires
            self.wf(),
            i < self.key_seq().len(),
        ensures
            k@ == self.key_seq()[i as int],
    {
        &self.keys[i]
    }

    /// The value of entry `i`.
    pub fn value_at(&self, i: usize) -> (v: &V)
        requires
            self.wf(),
            i < self.key_seq().len(),
        ensures
            *v == self.val_seq()[i as int],
    {
        &self.vals[i]
    }

    /// Finds a key: `Ok(i)` at entry `i`, or `Err(i)` where it would be inserted.
    pub fn find(&self, k: &[char]) -> (r: Result<usize, usize>)
        requires
            self.wf(),
        ensures
            match r {
                Ok(i) => i < self.key_seq().len() && self.key_seq()[i as int] == k@
                    && self@.contains_key(k@),
                Err(i) => i <= self.key_seq().len() && !self@.contains_key(k@) && self.fits_at(
                    k@,
                    i as int,
                ),
            },
    {
        let mut lo: usize = 0;
        let mut hi: usize = self.keys.len();
        while lo < hi
            invariant
                self.wf(),
                lo <= hi <= self.keys@.len(),
                forall|j: int| 0 <= j < lo ==> lex_lt(#[trigger] self.keys@[j]@, k@),
                forall|j: int| hi <= j < self.keys@.len() ==> lex_lt(k@, #[trigger] self.keys@[j]@),
            decreases hi - lo,
        {
            let mid = lo + (hi - lo) / 2;
            match compare(self.keys[mid].as_slice(), k) {
                Cmp::Equal => {
                    assert(self.keys@[mid as int]@ == k@);
                    return Ok(mid);
                },
                Cmp::Less => {
                    assert forall|j: int| 0 <= j < mid + 1 implies lex_lt(
                        #[trigger] self.keys@[j]@,
                        k@,
                    ) by {
                        if j < mid {
                            lemma_lex_transitive(self.keys@[j]@, self.keys@[mid as int]@, k@);
                        }
                    }
                    lo = mid + 1;
                },
                Cmp::Greater => {
                    assert forall|j: int| mid <= j < self.keys@.len() implies lex_lt(
                        k@,
                        #[trigger] self.keys@[j]@,
                    ) by {
                        if j > mid {
                            lemma_lex_transitive(k@, self.keys@[mid as int]@, self.keys@[j]@);
                        }
                    }
                    hi = mid;
                },
            }
        }
        proof {
            if self@.contains_key(k@) {
                let j = choose|j: int| 0 <= j < self.keys@.len() && #[trigger] self.keys@[j]@ == k@;
                if j < lo {
                    lemma_lex_irreflexive(k@);
                } else {
                    lemma_lex_irreflexive(k@);
                }
            }
        }
        Err(lo)
    }

    /// Whether `k` belongs at entry `i` in key order.
    pub closed spec fn fits_at(&self, k: Seq<char>, i: int) -> bool {
        &&& forall|j: int| 0 <= j < i ==> lex_lt(#[trigger] self.keys@[j]@, k)
        &&& forall|j: int| i <= j < self.keys@.len() ==> lex_lt(k, #[trigger] self.keys@[j]@)
    }

    /// Adds a new key at the position `find` reported for it.
    pub fn insert_at(&mut self, i: usize, k: Vec<char>, v: V)
        requires
            old(self).wf(),
            i <= old(self).key_seq().len(),
            !old(self)@.contains_key(k@),
            old(self).fits_at(k@, i as int),
        ensures
            final(self).wf(),
            final(self)@ == old(self)@.insert(k@, v),
            final(self).key_seq() == old(self).key_seq().insert(i as int, k@),
            final(self).val_seq() == old(self).val_seq().insert(i as int, v),
    {
        let ghost kv = k@;
        let ghost old_keys = self.keys@;
        self.keys.insert(i, k);
        self.vals.insert(i, v);
        self.map = Ghost(self.map@.insert(kv, v));
        assert forall|a: int, b: int| 0 <= a < b < self.keys@.len() implies lex_lt(
            #[trigger] self.keys@[a]@,
            #[trigger] self.keys@[b]@,
        ) by {
            if b < i {
            } else if b == i {
            } else if a < i {
                lemma_lex_transitive(self.keys@[a]@, kv, self.keys@[b]@);
            } else if a == i {
            } else {
                assert(self.keys@[a] == old_keys[a - 1]);
                assert(self.keys@[b] == old_keys[b - 1]);
            }
        }
        assert forall|a: int| 0 <= a < self.keys@.len() implies self.map@.contains_key(
            #[trigger] self.keys@[a]@,
        ) && self.map@[self.keys@[a]@] == self.vals@[a] by {
            if a != i {
                let oa = if a < i { a } else { a - 1 };
                assert(self.keys@[a] == old_keys[oa]);
                if old_keys[oa]@ == kv {
                    assert(old(self).map@.contains_key(old_keys[oa]@));
                }
            }
        }
        assert forall|q: Seq<char>| #[trigger] self.map@.contains_key(q) implies exists|a: int|
            0 <= a < self.keys@.len() && #[trigger] self.keys@[a]@ == q by {
            if q == kv {
                assert(self.keys@[i as int]@ == q);
            } else {
                let oa = choose|a: int| 0 <= a < old_keys.len() && #[trigger] old_keys[a]@ == q;
                let na = if oa < i { oa } else { oa + 1 };
                assert(self.keys@[na]@ == q);
            }
        }
        assert(self.key_seq() =~= old(self).key_seq().insert(i as int, kv));
    }

    /// Swaps the value of entry `i` with `v`.
    pub fn swap_at(&mut self, i: usize, v: &mut V)
        requires
            old(self).wf(),
            i < old(self).key_seq().len(),
        ensures
            final(self).wf(),
            *final(v) == old(self).val_seq()[i as int],
            final(self)@ == old(self)@.insert(old(self).key_seq()[i as int], *old(v)),
            final(self).key_seq() == old(self).key_seq(),
            final(self).val_seq() == old(self).val_seq().update(i as int, *old(v)),
    {
        let ghost kv = self.keys@[i as int]@;
        let ghost nv = *v;
        self.vals.set_and_swap(i, v);
        self.map = Ghost(self.map@.insert(kv, nv));
        assert forall|a: int| 0 <= a < self.keys@.len() implies self.map@.contains_key(
            #[trigger] self.keys@[a]@,
        ) && self.map@[self.keys@[a]@] == self.vals@[a] by {
            if a != i {
                assert(lex_lt(self.keys@[a]@, kv) || lex_lt(kv, self.keys@[a]@));
                if self.keys@[a]@ == kv {
                    lemma_lex_irreflexive(kv);
                }
            }
        }
        assert forall|q: Seq<char>| #[trigger] self.map@.contains_key(q) implies exists|a: int|
            0 <= a < self.keys@.len() && #[trigger] self.keys@[a]@ == q by {
            if q == kv {
                assert(self.keys@[i as int]@ == q);
            } else {
                assert(old(self).map@.contains_key(q));
                let a = choose|a: int| 0 <= a < old(self).keys@.len() && #[trigger] old(self).keys@[a]@ == q;
                assert(self.keys@[a]@ == q);
            }
        }
    }
}

} // verus!
