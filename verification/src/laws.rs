use vstd::prelude::*;
use crate::diff::{
    EditScript, is_diff_of, lemma_added_props, lemma_moved_props, lemma_removed_props,
};
use crate::unpack::moved_by_to;
use crate::key_seq::lemma_index_of_distinct;

verus! {

/// Diffing a key order against itself yields an empty edit script: nothing
/// removed, nothing moved, nothing added, no clear. Applying such a script
/// therefore touches nothing, and a second pass over the same items is a
/// no-op.
pub proof fn lemma_noop_pass(s: EditScript, k: Seq<u64>)
    requires
        k.no_duplicates(),
        is_diff_of(s, k, k),
    ensures
        s.removed@.len() == 0,
        s.moved@.len() == 0,
        s.added@.len() == 0,
        !s.clear,
{
    lemma_removed_props(k, k, k.len() as int);
    lemma_moved_props(k, k, k.len() as int);
    lemma_added_props(k, k, k.len() as int);
    assert(crate::diff::removed_upto(k, k, k.len() as int).len() == 0) by {
        let r = crate::diff::removed_upto(k, k, k.len() as int);
        if r.len() > 0 {
            let i = r[0];
            assert(k.contains(k[i]));
        }
    }
    assert(crate::diff::moved_upto(k, k, k.len() as int).len() == 0) by {
        let m = crate::diff::moved_upto(k, k, k.len() as int);
        if m.len() > 0 {
            let i = m[0].0;
            lemma_index_of_distinct(k, i);
        }
    }
    assert(crate::diff::added_upto(k, k, k.len() as int).len() == 0) by {
        let d = crate::diff::added_upto(k, k, k.len() as int);
        if d.len() > 0 {
            let j = d[0];
            assert(k.contains(k[j]));
        }
    }
    assert(crate::diff::removed_posns(s).len() == s.removed@.len());
    assert(crate::diff::moved_pairs(s).len() == s.moved@.len());
    assert(crate::diff::added_posns(s).len() == s.added@.len());
}

/// Appending a suffix to a stable prefix moves nothing at all: the moved
/// set is empty, so the unpacker issues no move command — physical or not —
/// and no already-mounted node is touched.
pub proof fn lemma_append_only_no_moves(a: Seq<u64>, b: Seq<u64>)
    requires
        a.no_duplicates(),
        b.no_duplicates(),
        a.len() <= b.len(),
        forall|i: int| 0 <= i < a.len() ==> a[i] == b[i],
    ensures
        moved_by_to(a, b, b.len() as int).len() == 0,
{
    crate::unpack::lemma_moved_by_to_props(a, b, b.len() as int);
    let m = moved_by_to(a, b, b.len() as int);
    if m.len() > 0 {
        let f = m[0].0;
        let t = m[0].1;
        assert(a[f] == b[t]);
        assert(b[f] == b[t]);
        assert(f != t);
    }
}

} // verus!
