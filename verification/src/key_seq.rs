use vstd::prelude::*;
use std::collections::HashMap;

verus! {

broadcast use vstd::std_specs::hash::group_hash_axioms;

/// The order of keys that results from walking `s` left to right and keeping
/// the first occurrence of each key.
pub open spec fn dedup_first(s: Seq<u64>) -> Seq<u64>
    decreases s.len(),
{
    if s.len() == 0 {
        Seq::empty()
    } else {
        let p = dedup_first(s.drop_last());
        if p.contains(s.last()) {
            p
        } else {
            p.push(s.last())
        }
    }
}

pub proof fn lemma_dedup_first_contains(s: Seq<u64>, k: u64)
    ensures
        dedup_first(s).contains(k) <==> s.contains(k),
    decreases s.len(),
{
    if s.len() > 0 {
        lemma_dedup_first_contains(s.drop_last(), k);
        let p = dedup_first(s.drop_last());
        if s.contains(k) {
            let i = choose|i: int| 0 <= i < s.len() && s[i] == k;
            if i < s.len() - 1 {
                assert(s.drop_last()[i] == k);
                assert(s.drop_last().contains(k));
                if !p.contains(s.last()) {
                    let j = p.index_of(k);
                    assert(p.push(s.last())[j] == k);
                }
            } else {
                assert(k == s.last());
                if !p.contains(s.last()) {
                    assert(p.push(k)[p.len() as int] == k);
                }
            }
            assert(dedup_first(s).contains(k));
        }
        if dedup_first(s).contains(k) {
            let i = choose|i: int| 0 <= i < dedup_first(s).len() && dedup_first(s)[i] == k;
            if p.contains(s.last()) {
                assert(p.contains(k));
            } else {
                if i < p.len() {
                    assert(p[i] == k);
                } else {
                    assert(k == s.last());
                    assert(s[s.len() - 1] == k);
                }
            }
            if p.contains(k) {
                assert(s.drop_last().contains(k));
                let j = s.drop_last().index_of(k);
                assert(s[j] == k);
            }
            assert(s.contains(k));
        }
    }
}

/// An insertion-ordered collection of unique keys with hash-based
/// key-to-index lookup; it records what is currently mounted, in what order.
pub struct KeySeq {
    keys: Vec<u64>,
    pos: HashMap<u64, usize>,
}

impl View for KeySeq {
    type V = Seq<u64>;

    closed spec fn view(&self) -> Seq<u64> {
        self.keys@
    }
}

impl KeySeq {
    /// The lookup table agrees with the key order in both directions; in
    /// particular the keys are pairwise distinct.
    pub closed spec fn wf(&self) -> bool {
        &&& self.keys@.no_duplicates()
        &&& forall|k: u64| self.pos@.contains_key(k) <==> self.keys@.contains(k)
        &&& forall|k: u64|
            self.pos@.contains_key(k) ==> 0 <= #[trigger] self.pos@[k] < self.keys@.len()
                && self.keys@[self.pos@[k] as int] == k
    }

    pub proof fn lemma_wf_distinct(&self)
        requires
            self.wf(),
        ensures
            self@.no_duplicates(),
    {
    }

    pub fn new() -> (r: KeySeq)
        ensures
            r.wf(),
            r@ == Seq::<u64>::empty(),
    {
        KeySeq { keys: Vec::new(), pos: HashMap::new() }
    }

    pub fn len(&self) -> (r: usize)
        ensures
            r == self@.len(),
    {
        self.keys.len()
    }

    pub fn key_at(&self, i: usize) -> (r: u64)
        requires
            i < self@.len(),
        ensures
            r == self@[i as int],
    {
        self.keys[i]
    }

    pub fn contains(&self, k: u64) -> (r: bool)
        requires
            self.wf(),
        ensures
            r == self@.contains(k),
    {
        self.pos.contains_key(&k)
    }

    /// The position of `k` in the order, if it is present.
    pub fn index_of(&self, k: u64) -> (r: Option<usize>)
        requires
            self.wf(),
        ensures
            match r {
                Some(i) => i < self@.len() && self@[i as int] == k && i as int == self@.index_of(k),
                None => !self@.contains(k),
            },
    {
        match self.pos.get(&k) {
            Some(i) => {
                let i = *i;
                proof {
                    assert(self@[i as int] == k);
                    lemma_index_of_distinct(self@, i as int);
                }
                Some(i)
            },
            None => None,
        }
    }

    /// Appends `k` at the end unless it is already present, in which case the
    /// earlier position wins and nothing changes.
    pub fn insert(&mut self, k: u64)
        requires
            old(self).wf(),
        ensures
            final(self).wf(),
            final(self)@ == if old(self)@.contains(k) {
                old(self)@
            } else {
                old(self)@.push(k)
            },
    {
        if !self.pos.contains_key(&k) {
            let i = self.keys.len();
            self.keys.push(k);
            self.pos.insert(k, i);
            proof {
                assert(self.keys@ == old(self).keys@.push(k));
                assert(self.keys@[i as int] == k);
                assert forall|q: u64| self.pos@.contains_key(q) implies self.keys@.contains(q) by {
                    if q == k {
                        assert(self.keys@[i as int] == q);
                    } else {
                        let j = old(self).pos@[q] as int;
                        assert(self.keys@[j] == q);
                    }
                }
                assert(vstd::std_specs::hash::obeys_key_model::<u64>());
                assert(self.pos@ == old(self).pos@.insert(k, i));
                assert forall|x: int, y: int|
                    0 <= x < y < self.keys@.len() implies self.keys@[x] != self.keys@[y] by {
                    if y == i as int {
                        assert(self.keys@[x] == old(self).keys@[x]);
                        if self.keys@[x] == k {
                            assert(old(self).keys@.contains(k));
                        }
                    }
                }
                assert forall|q: u64| self.pos@.contains_key(q) implies 0 <= #[trigger] self.pos@[q]
                    < self.keys@.len() && self.keys@[self.pos@[q] as int] == q by {
                    if q != k {
                        assert(old(self).pos@.contains_key(q));
                        assert(self.pos@[q] == old(self).pos@[q]);
                    }
                }
                assert forall|q: u64| self.keys@.contains(q) implies self.pos@.contains_key(q) by {
                    if q == k {
                        assert(self.pos@.contains_key(k));
                    } else {
                        let j = choose|j: int| 0 <= j < self.keys@.len() && self.keys@[j] == q;
                        assert(j < old(self).keys@.len());
                        assert(old(self).keys@[j] == q);
                        assert(old(self).keys@.contains(q));
                        assert(old(self).pos@.contains_key(q));
                    }
                }
            }
        }
    }

    /// Builds the key order for a pass from the caller's items: first
    /// occurrences in input order, duplicates collapsed.
    pub fn from_items(items: &Vec<u64>) -> (r: KeySeq)
        ensures
            r.wf(),
            r@ == dedup_first(items@),
            forall|k: u64| r@.contains(k) <==> items@.contains(k),
    {
        let mut r = KeySeq::new();
        let n = items.len();
        for i in 0..n
            invariant
                n == items@.len(),
                r.wf(),
                r@ == dedup_first(items@.take(i as int)),
        {
            proof {
                assert(items@.take(i + 1).drop_last() =~= items@.take(i as int));
                assert(items@.take(i + 1).last() == items@[i as int]);
            }
            r.insert(items[i]);
        }
        proof {
            assert(items@.take(n as int) =~= items@);
            assert forall|k: u64| r@.contains(k) <==> items@.contains(k) by {
                lemma_dedup_first_contains(items@, k);
            }
        }
        r
    }
}

/// In a duplicate-free sequence, `index_of` of the key at `i` is `i` itself.
pub proof fn lemma_index_of_distinct(s: Seq<u64>, i: int)
    requires
        s.no_duplicates(),
        0 <= i < s.len(),
    ensures
        s.index_of(s[i]) == i,
{
    assert(s.contains(s[i]));
    let j = s.index_of(s[i]);
    assert(s[j] == s[i]);
}

} // verus!
