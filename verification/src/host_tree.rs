use vstd::prelude::*;

verus! {

/// The children of the host parent inside the keyed region, in host order,
/// each mounted child named by its key; the end marker sits just past the
/// last entry. The primitive operations — insert before a reference node,
/// insert at the marker, remove — are the ones the reconciler is allowed
/// to use on the real tree.
pub struct HostTree {
    nodes: Vec<u64>,
}

impl View for HostTree {
    type V = Seq<u64>;

    closed spec fn view(&self) -> Seq<u64> {
        self.nodes@
    }
}

impl HostTree {
    pub fn new() -> (r: HostTree)
        ensures
            r@ == Seq::<u64>::empty(),
    {
        HostTree { nodes: Vec::new() }
    }

    pub fn len(&self) -> (r: usize)
        ensures
            r == self@.len(),
    {
        self.nodes.len()
    }

    pub fn key_at(&self, i: usize) -> (r: u64)
        requires
            i < self@.len(),
        ensures
            r == self@[i as int],
    {
        self.nodes[i]
    }

    /// The host position of the node named `k`, scanning in host order.
    fn position_of(&self, k: u64) -> (r: Option<usize>)
        ensures
            match r {
                Some(i) => {
                    &&& i < self@.len()
                    &&& self@[i as int] == k
                    &&& forall|j: int| 0 <= j < i ==> self@[j] != k
                },
                None => !self@.contains(k),
            },
    {
        let n = self.nodes.len();
        for i in 0..n
            invariant
                n == self@.len(),
                forall|j: int| 0 <= j < i ==> self@[j] != k,
        {
            if self.nodes[i] == k {
                return Some(i);
            }
        }
        proof {
            if self@.contains(k) {
                let j = choose|j: int| 0 <= j < self@.len() && self@[j] == k;
                assert(false);
            }
        }
        None
    }

    pub fn contains(&self, k: u64) -> (r: bool)
        ensures
            r == self@.contains(k),
    {
        match self.position_of(k) {
            Some(_) => true,
            None => false,
        }
    }

    /// Mounts the node `k` directly before the end marker.
    pub fn insert_at_end(&mut self, k: u64)
        ensures
            final(self)@ == old(self)@.push(k),
    {
        self.nodes.push(k);
    }

    /// Mounts the node `k` directly before the already mounted node `r`.
    pub fn insert_before(&mut self, k: u64, r: u64)
        requires
            old(self)@.no_duplicates(),
            old(self)@.contains(r),
        ensures
            final(self)@ == old(self)@.insert(old(self)@.index_of(r), k),
    {
        let i = match self.position_of(r) {
            Some(i) => i,
            None => 0,
        };
        proof {
            crate::key_seq::lemma_index_of_distinct(self@, i as int);
        }
        self.nodes.insert(i, k);
    }

    /// Unmounts the node `k`.
    pub fn remove(&mut self, k: u64)
        requires
            old(self)@.no_duplicates(),
            old(self)@.contains(k),
        ensures
            final(self)@ == old(self)@.remove(old(self)@.index_of(k)),
    {
        let i = match self.position_of(k) {
            Some(i) => i,
            None => 0,
        };
        proof {
            crate::key_seq::lemma_index_of_distinct(self@, i as int);
        }
        self.nodes.remove(i);
    }
}

} // verus!
