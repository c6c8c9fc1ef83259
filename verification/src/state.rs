use vstd::prelude::*;
use crate::key_seq::{KeySeq, dedup_first};
use crate::host_tree::HostTree;
use crate::diff::diff;
use crate::reconcile::{ChildSlot, IndexCell, apply_diff, cells_match, slots_match};

verus! {

/// A keyed list of views: the input items of one pass, each item carrying
/// its own stable key.
pub struct KeyedEnumerate {
    pub items: Vec<u64>,
}

/// Creates a keyed list of views.
pub fn keyed_enumerate(items: Vec<u64>) -> (r: KeyedEnumerate)
    ensures
        r.items@ == items@,
{
    KeyedEnumerate { items }
}

/// Retained view state for a keyed list: the mounted key order, one
/// rendered child per key, and one index binding per child.
pub struct KeyedEnumerateState {
    hashed_items: KeySeq,
    rendered_items: Vec<Option<ChildSlot>>,
    index_items: Vec<Option<IndexCell>>,
    mounted: bool,
}

impl KeyedEnumerateState {
    /// The mounted key order.
    pub closed spec fn keys(&self) -> Seq<u64> {
        self.hashed_items@
    }

    pub closed spec fn is_mounted(&self) -> bool {
        self.mounted
    }

    /// The three arrays agree: unique keys, one child per key in key
    /// order, and every index binding reading its own position.
    pub closed spec fn wf(&self) -> bool {
        &&& self.hashed_items.wf()
        &&& slots_match(self.rendered_items@, self.hashed_items@)
        &&& cells_match(self.index_items@, self.hashed_items@.len() as int)
    }

    /// The key of the child at position `i`.
    pub fn key_at(&self, i: usize) -> (r: u64)
        requires
            self.wf(),
            i < self.keys().len(),
        ensures
            r == self.keys()[i as int],
    {
        self.hashed_items.key_at(i)
    }

    /// How many children are retained.
    pub fn len(&self) -> (r: usize)
        requires
            self.wf(),
        ensures
            r == self.keys().len(),
    {
        self.hashed_items.len()
    }

    /// The index binding of the child at position `i` reads that position.
    pub fn index_value_at(&self, i: usize) -> (r: usize)
        requires
            self.wf(),
            i < self.keys().len(),
        ensures
            r == i,
    {
        self.index_items[i].unwrap().value
    }

    /// Mounts every retained child, in order, at the end of the host
    /// region, followed conceptually by the end marker.
    pub fn mount(&mut self, tree: &mut HostTree)
        requires
            old(self).wf(),
            !old(self).is_mounted(),
            old(tree)@.len() == 0,
        ensures
            final(self).wf(),
            final(self).is_mounted(),
            final(self).keys() == old(self).keys(),
            final(tree)@ == old(self).keys(),
    {
        let n = self.hashed_items.len();
        for i in 0..n
            invariant
                self == old(self),
                n == self.hashed_items@.len(),
                self.hashed_items.wf(),
                tree@ == self.hashed_items@.take(i as int),
        {
            tree.insert_at_end(self.hashed_items.key_at(i));
            proof {
                assert(tree@ =~= self.hashed_items@.take(i + 1));
            }
        }
        self.mounted = true;
        proof {
            assert(tree@ =~= self.hashed_items@);
        }
    }

    /// Unmounts every retained child, leaving the host region empty.
    pub fn unmount(&mut self, tree: &mut HostTree)
        requires
            old(self).wf(),
            old(self).is_mounted(),
            old(tree)@ == old(self).keys(),
        ensures
            final(self).wf(),
            !final(self).is_mounted(),
            final(self).keys() == old(self).keys(),
            final(tree)@.len() == 0,
    {
        let n = self.hashed_items.len();
        proof {
            self.hashed_items.lemma_wf_distinct();
        }
        for i in 0..n
            invariant
                self == old(self),
                n == self.hashed_items@.len(),
                self.hashed_items.wf(),
                self.hashed_items@.no_duplicates(),
                tree@ == self.hashed_items@.skip(i as int),
        {
            let k = self.hashed_items.key_at(i);
            proof {
                let s = self.hashed_items@;
                assert(tree@[0] == s[i as int]);
                assert(tree@.contains(k));
                assert forall|p1: int, p2: int|
                    0 <= p1 < p2 < tree@.len() implies tree@[p1] != tree@[p2] by {
                    assert(tree@[p1] == s[p1 + i]);
                    assert(tree@[p2] == s[p2 + i]);
                }
                crate::key_seq::lemma_index_of_distinct(tree@, 0);
            }
            tree.remove(k);
            proof {
                assert(tree@ =~= self.hashed_items@.skip(i + 1));
            }
        }
        self.mounted = false;
    }

    /// Hands out the key of this list's first mounted child, the node a
    /// sibling must be inserted before to land in front of the whole list;
    /// `None` means the end marker is the reference.
    pub fn insert_before_this(&self) -> (r: Option<u64>)
        requires
            self.wf(),
        ensures
            match r {
                Some(k) => self.keys().len() > 0 && k == self.keys()[0],
                None => self.keys().len() == 0,
            },
    {
        if self.hashed_items.len() > 0 {
            Some(self.hashed_items.key_at(0))
        } else {
            None
        }
    }

    /// One reconciliation pass: diff the mounted key order against the new
    /// items, then apply the edit script to the children, the index
    /// bindings and the host tree. The new order, duplicates collapsed,
    /// becomes the baseline for the next pass.
    pub fn rebuild(&mut self, tree: &mut HostTree, keyed: &KeyedEnumerate)
        requires
            old(self).wf(),
            old(self).is_mounted(),
            old(tree)@ == old(self).keys(),
        ensures
            final(self).wf(),
            final(self).is_mounted(),
            final(self).keys() == dedup_first(keyed.items@),
            final(tree)@ == dedup_first(keyed.items@),
    {
        let new_hashed_items = KeySeq::from_items(&keyed.items);
        let cmds = diff(&self.hashed_items, &new_hashed_items);
        apply_diff(
            tree,
            &cmds,
            &self.hashed_items,
            &new_hashed_items,
            &mut self.rendered_items,
            &mut self.index_items,
        );
        self.hashed_items = new_hashed_items;
    }
}

impl KeyedEnumerate {
    /// Builds the retained state for the first pass: one child and one
    /// index binding per distinct key, in input order; not yet mounted.
    pub fn build(self) -> (r: KeyedEnumerateState)
        ensures
            r.wf(),
            !r.is_mounted(),
            r.keys() == dedup_first(self.items@),
    {
        let mut hashed_items = KeySeq::new();
        let mut rendered_items: Vec<Option<ChildSlot>> = Vec::new();
        let mut index_items: Vec<Option<IndexCell>> = Vec::new();
        let n = self.items.len();
        for i in 0..n
            invariant
                n == self.items@.len(),
                hashed_items.wf(),
                hashed_items@ == dedup_first(self.items@.take(i as int)),
                slots_match(rendered_items@, hashed_items@),
                cells_match(index_items@, hashed_items@.len() as int),
        {
            let key = self.items[i];
            proof {
                assert(self.items@.take(i + 1).drop_last() =~= self.items@.take(i as int));
                assert(self.items@.take(i + 1).last() == self.items@[i as int]);
            }
            if !hashed_items.contains(key) {
                let index = hashed_items.len();
                hashed_items.insert(key);
                rendered_items.push(Some(ChildSlot { key }));
                index_items.push(Some(IndexCell { value: index }));
            }
        }
        proof {
            assert(self.items@.take(n as int) =~= self.items@);
        }
        KeyedEnumerateState { hashed_items, rendered_items, index_items, mounted: false }
    }
}

} // verus!
