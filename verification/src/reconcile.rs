use vstd::prelude::*;
use vstd::set_lib::set_int_range;
use crate::key_seq::{KeySeq, lemma_index_of_distinct};
use crate::diff::{
    AddMode, AddOp, EditScript, added_upto, is_diff_of, lemma_added_props, lemma_moved_props,
    lemma_removed_all, lemma_removed_props, spec_append_mode, spec_clear,
};
use crate::host_tree::HostTree;
use crate::unpack::{
    MoveCmd, lemma_moved_by_to_props, moved_by_to, span_free, unchanged_at, unpack_moves,
};

verus! {

/// The key at new position `i` survives from the old sequence but sat
/// somewhere else there.
pub open spec fn moved_to(a: Seq<u64>, b: Seq<u64>, i: int) -> bool {
    0 <= i < b.len() && a.contains(b[i]) && a.index_of(b[i]) != i
}

/// The key at new position `i` is new to this pass.
pub open spec fn added_at(a: Seq<u64>, b: Seq<u64>, i: int) -> bool {
    0 <= i < b.len() && !a.contains(b[i])
}

/// Retained render state of one child; in this model a child's mounted
/// content is identified by its key.
#[derive(Clone, Copy, Debug, PartialEq, Eq, Structural)]
pub struct ChildSlot {
    pub key: u64,
}

/// The observable cell through which a child reads its current position;
/// the reconciler is its only writer.
#[derive(Clone, Copy, Debug, PartialEq, Eq, Structural)]
pub struct IndexCell {
    pub value: usize,
}

/// Every slot holds a child and the child at slot `i` renders the key at
/// position `i` of `keys`.
pub open spec fn slots_match(s: Seq<Option<ChildSlot>>, keys: Seq<u64>) -> bool {
    &&& s.len() == keys.len()
    &&& forall|i: int|
        0 <= i < s.len() ==> match #[trigger] s[i] {
            Some(c) => c.key == keys[i],
            None => false,
        }
}

/// Every slot holds an index cell and the cell at slot `i` reads `i`.
pub open spec fn cells_match(s: Seq<Option<IndexCell>>, n: int) -> bool {
    &&& s.len() == n
    &&& forall|i: int|
        0 <= i < s.len() ==> match #[trigger] s[i] {
            Some(c) => c.value == i,
            None => false,
        }
}

/// The key `k` has a slot in the new order and that slot is already filled.
pub open spec fn filled_key(b: Seq<u64>, ch: Seq<Option<ChildSlot>>, k: u64) -> bool {
    &&& b.contains(k)
    &&& 0 <= b.index_of(k) < ch.len()
    &&& ch[b.index_of(k)] is Some
}

/// Children whose slots are filled already stand in the host tree in the
/// order the new key sequence asks for.
pub open spec fn tree_sorted(tr: Seq<u64>, b: Seq<u64>, ch: Seq<Option<ChildSlot>>) -> bool {
    forall|p1: int, p2: int|
        0 <= p1 < p2 < tr.len() && filled_key(b, ch, #[trigger] tr[p1]) && filled_key(
            b,
            ch,
            #[trigger] tr[p2],
        ) ==> b.index_of(tr[p1]) < b.index_of(tr[p2])
}

/// The host tree holds the surviving children in their old relative order.
pub open spec fn tree_a_ordered(tr: Seq<u64>, a: Seq<u64>) -> bool {
    forall|p1: int, p2: int|
        0 <= p1 < p2 < tr.len() && a.contains(#[trigger] tr[p1]) && a.contains(
            #[trigger] tr[p2],
        ) ==> a.index_of(tr[p1]) < a.index_of(tr[p2])
}

/// A duplicate-free sequence of integers drawn from `[0, n)` has at most
/// `n` entries.
pub proof fn lemma_distinct_bounded_len(s: Seq<int>, n: int)
    requires
        s.no_duplicates(),
        forall|i: int| 0 <= i < s.len() ==> 0 <= #[trigger] s[i] < n,
        n >= 0,
    ensures
        s.len() <= n,
{
    s.unique_seq_to_set();
    assert(s.to_set().subset_of(set_int_range(0, n)));
    vstd::set_lib::lemma_int_range(0, n);
    vstd::set_lib::lemma_len_subset(s.to_set(), set_int_range(0, n));
}

/// A strictly increasing sequence of `n` integers drawn from `[0, n)` is
/// the identity.
pub proof fn lemma_increasing_identity(s: Seq<int>, n: int)
    requires
        s.len() == n,
        forall|i: int, j: int| 0 <= i < j < n ==> #[trigger] s[i] < #[trigger] s[j],
        forall|i: int| 0 <= i < n ==> 0 <= #[trigger] s[i] < n,
    ensures
        forall|i: int| 0 <= i < n ==> #[trigger] s[i] == i,
{
    assert forall|i: int| 0 <= i < n implies #[trigger] s[i] == i by {
        lemma_increasing_lower(s, i);
        lemma_increasing_upper(s, n, i);
    }
}

proof fn lemma_increasing_lower(s: Seq<int>, p: int)
    requires
        0 <= p < s.len(),
        forall|i: int, j: int| 0 <= i < j < s.len() ==> #[trigger] s[i] < #[trigger] s[j],
        forall|i: int| 0 <= i < s.len() ==> 0 <= #[trigger] s[i],
    ensures
        s[p] >= p,
    decreases p,
{
    if p > 0 {
        lemma_increasing_lower(s, p - 1);
    }
}

proof fn lemma_increasing_upper(s: Seq<int>, n: int, p: int)
    requires
        s.len() == n,
        0 <= p < n,
        forall|i: int, j: int| 0 <= i < j < n ==> #[trigger] s[i] < #[trigger] s[j],
        forall|i: int| 0 <= i < n ==> #[trigger] s[i] < n,
    ensures
        s[p] <= p,
    decreases n - p,
{
    if p < n - 1 {
        lemma_increasing_upper(s, n, p + 1);
    }
}

/// A host tree whose children are exactly the new keys, mounted in the new
/// order, is the new key sequence itself.
pub proof fn lemma_tree_complete(tr: Seq<u64>, b: Seq<u64>)
    requires
        tr.no_duplicates(),
        b.no_duplicates(),
        forall|k: u64| tr.contains(k) <==> b.contains(k),
        forall|p1: int, p2: int|
            0 <= p1 < p2 < tr.len() ==> b.index_of(#[trigger] tr[p1]) < b.index_of(
                #[trigger] tr[p2],
            ),
    ensures
        tr == b,
{
    let n = tr.len() as int;
    let s = Seq::new(tr.len(), |p: int| b.index_of(tr[p]));
    assert forall|p: int| 0 <= p < n implies 0 <= #[trigger] s[p] < b.len() && b[s[p]]
        == tr[p] by {
        assert(tr.contains(tr[p]));
        assert(b.contains(tr[p]));
    }
    assert forall|p1: int, p2: int| 0 <= p1 < p2 < n implies #[trigger] s[p1] != #[trigger] s[p2] by {
        assert(s[p1] < s[p2]);
    }
    assert(s.no_duplicates());
    lemma_distinct_bounded_len(s, b.len() as int);
    let t = Seq::new(b.len(), |j: int| tr.index_of(b[j]));
    assert forall|j: int| 0 <= j < b.len() implies 0 <= #[trigger] t[j] < tr.len() && tr[t[j]]
        == b[j] by {
        assert(b.contains(b[j]));
        assert(tr.contains(b[j]));
    }
    assert forall|j1: int, j2: int|
        0 <= j1 < j2 < b.len() implies #[trigger] t[j1] != #[trigger] t[j2] by {
        if t[j1] == t[j2] {
            assert(b[j1] == b[j2]);
        }
    }
    assert(t.no_duplicates());
    lemma_distinct_bounded_len(t, tr.len() as int);
    assert(tr.len() == b.len());
    lemma_increasing_identity(s, n);
    assert forall|p: int| 0 <= p < n implies tr[p] == b[p] by {
        assert(s[p] == p);
        assert(b[s[p]] == tr[p]);
    }
    assert(tr =~= b);
}

/// Removing one node keeps the remaining children's host order.
pub proof fn lemma_sorted_remove(tr: Seq<u64>, b: Seq<u64>, ch: Seq<Option<ChildSlot>>, i: int)
    requires
        tree_sorted(tr, b, ch),
        0 <= i < tr.len(),
    ensures
        tree_sorted(tr.remove(i), b, ch),
{
    let tr2 = tr.remove(i);
    assert forall|p1: int, p2: int|
        0 <= p1 < p2 < tr2.len() && filled_key(b, ch, #[trigger] tr2[p1]) && filled_key(
            b,
            ch,
            #[trigger] tr2[p2],
        ) implies b.index_of(tr2[p1]) < b.index_of(tr2[p2]) by {
        let q1: int = if p1 < i {
            p1
        } else {
            p1 + 1
        };
        let q2: int = if p2 < i {
            p2
        } else {
            p2 + 1
        };
        assert(tr2[p1] == tr[q1]);
        assert(tr2[p2] == tr[q2]);
    }
}

/// When the pass reaches the host tree, the children left untouched — the
/// stationary ones and the moves the unpacker chose to keep — already stand
/// in the new order: stationary children are consistent with every kept move
/// because no kept move spans one, and kept moves are consistent with one
/// another because they were chosen as a chain.
pub proof fn lemma_sorted_from_a_order(
    a: Seq<u64>,
    b: Seq<u64>,
    tr: Seq<u64>,
    ch: Seq<Option<ChildSlot>>,
)
    requires
        a.no_duplicates(),
        b.no_duplicates(),
        tr.no_duplicates(),
        tree_a_ordered(tr, a),
        forall|p: int| 0 <= p < tr.len() ==> a.contains(#[trigger] tr[p]),
        forall|i: int|
            0 <= i < ch.len() && (#[trigger] ch[i]) is Some ==> i < b.len() && a.contains(b[i]),
        forall|i: int|
            0 <= i < ch.len() && (#[trigger] ch[i]) is Some && a.index_of(b[i]) != i ==> span_free(
                a,
                b,
                a.index_of(b[i]),
                i,
            ),
        forall|i1: int, i2: int|
            0 <= i1 < i2 < ch.len() && (#[trigger] ch[i1]) is Some && (#[trigger] ch[i2]) is Some
                && a.index_of(b[i1]) != i1 && a.index_of(b[i2]) != i2 ==> a.index_of(b[i1])
                < a.index_of(b[i2]),
    ensures
        tree_sorted(tr, b, ch),
{
    assert forall|p1: int, p2: int|
        0 <= p1 < p2 < tr.len() && filled_key(b, ch, #[trigger] tr[p1]) && filled_key(
            b,
            ch,
            #[trigger] tr[p2],
        ) implies b.index_of(tr[p1]) < b.index_of(tr[p2]) by {
        let k1 = tr[p1];
        let k2 = tr[p2];
        let i1 = b.index_of(k1);
        let i2 = b.index_of(k2);
        assert(b[i1] == k1);
        assert(b[i2] == k2);
        let a1 = a.index_of(k1);
        let a2 = a.index_of(k2);
        assert(a[a1] == k1);
        assert(a[a2] == k2);
        assert(a1 < a2);
        assert(k1 != k2);
        assert(i1 != i2);
        assert(a.index_of(b[i1]) == a1);
        assert(a.index_of(b[i2]) == a2);
        if a1 == i1 && a2 == i2 {
            assert(i1 < i2);
        } else if a1 == i1 && a2 != i2 {
            // k1 is stationary, k2 is a kept move that does not span it.
            if i2 <= i1 {
                assert(unchanged_at(a, b, i1));
                if a2 < i2 {
                    assert(false);
                } else {
                    assert(i2 < i1 < a2);
                    assert(span_free(a, b, a2, i2));
                    assert(!unchanged_at(a, b, i1));
                    assert(false);
                }
            }
        } else if a1 != i1 && a2 == i2 {
            // k2 is stationary, k1 is a kept move that does not span it.
            if i2 <= i1 {
                assert(unchanged_at(a, b, i2));
                if i1 < a1 {
                    assert(false);
                } else {
                    assert(a1 < i2 < i1);
                    assert(span_free(a, b, a1, i1));
                    assert(!unchanged_at(a, b, i2));
                    assert(false);
                }
            }
        } else {
            // two kept moves: they come from the chain, in both orders.
            if i2 < i1 {
                assert(a.index_of(b[i2]) < a.index_of(b[i1]));
                assert(false);
            }
        }
    }
}

/// Inserting a child directly before the first already placed slot after its
/// own keeps the placed children in the new order; the bounds say every
/// placed child in the tree falls strictly on the right side of `q`.
pub proof fn lemma_sorted_insert(
    tr: Seq<u64>,
    b: Seq<u64>,
    ch: Seq<Option<ChildSlot>>,
    k: u64,
    q: int,
)
    requires
        b.no_duplicates(),
        tree_sorted(tr, b, ch),
        b.contains(k),
        0 <= b.index_of(k) < ch.len(),
        ch[b.index_of(k)] is None,
        !tr.contains(k),
        0 <= q <= tr.len(),
        forall|p: int|
            0 <= p < q && filled_key(b, ch, #[trigger] tr[p]) ==> b.index_of(tr[p]) < b.index_of(
                k,
            ),
        forall|p: int|
            q <= p < tr.len() && filled_key(b, ch, #[trigger] tr[p]) ==> b.index_of(tr[p])
                > b.index_of(k),
    ensures
        tree_sorted(
            tr.insert(q, k),
            b,
            ch.update(b.index_of(k), Some(ChildSlot { key: k })),
        ),
{
    let t = b.index_of(k);
    let tr2 = tr.insert(q, k);
    let ch2 = ch.update(t, Some(ChildSlot { key: k }));
    assert forall|x: u64| x != k && #[trigger] filled_key(b, ch2, x) implies filled_key(
        b,
        ch,
        x,
    ) && b.index_of(x) != t by {
        if b.index_of(x) == t {
            assert(b[b.index_of(x)] == x);
            assert(b[t] == k);
        }
    }
    assert forall|p1: int, p2: int|
        0 <= p1 < p2 < tr2.len() && filled_key(b, ch2, #[trigger] tr2[p1]) && filled_key(
            b,
            ch2,
            #[trigger] tr2[p2],
        ) implies b.index_of(tr2[p1]) < b.index_of(tr2[p2]) by {
        if p1 < q {
            assert(tr2[p1] == tr[p1]);
        }
        if p1 > q {
            assert(tr2[p1] == tr[p1 - 1]);
        }
        if p2 < q {
            assert(tr2[p2] == tr[p2]);
        }
        if p2 > q {
            assert(tr2[p2] == tr[p2 - 1]);
        }
        if p1 == q {
            assert(tr2[p1] == k);
        }
        if p2 == q {
            assert(tr2[p2] == k);
        }
        if p1 != q && p2 != q {
            let q1: int = if p1 < q {
                p1
            } else {
                p1 - 1
            };
            let q2: int = if p2 < q {
                p2
            } else {
                p2 - 1
            };
            assert(tr[q1] != k);
            assert(tr[q2] != k);
            if q1 == q2 {
                assert(p1 < q && p2 > q);
                assert(b.index_of(tr[q1]) < t);
                assert(b.index_of(tr[q2]) > t);
                assert(false);
            }
            assert(filled_key(b, ch, tr[q1]));
            assert(filled_key(b, ch, tr[q2]));
        } else if p1 == q {
            assert(tr[p2 - 1] != k);
            assert(filled_key(b, ch, tr[p2 - 1]));
            assert(b.index_of(tr[p2 - 1]) > t);
        } else {
            assert(tr[p1] != k);
            assert(filled_key(b, ch, tr[p1]));
            assert(b.index_of(tr[p1]) < t);
        }
    }
}

/// The same for the old relative order of survivors.
pub proof fn lemma_a_ordered_remove(tr: Seq<u64>, a: Seq<u64>, i: int)
    requires
        tree_a_ordered(tr, a),
        0 <= i < tr.len(),
    ensures
        tree_a_ordered(tr.remove(i), a),
{
    let tr2 = tr.remove(i);
    assert forall|p1: int, p2: int|
        0 <= p1 < p2 < tr2.len() && a.contains(#[trigger] tr2[p1]) && a.contains(
            #[trigger] tr2[p2],
        ) implies a.index_of(tr2[p1]) < a.index_of(tr2[p2]) by {
        let q1: int = if p1 < i {
            p1
        } else {
            p1 + 1
        };
        let q2: int = if p2 < i {
            p2
        } else {
            p2 + 1
        };
        assert(tr2[p1] == tr[q1]);
        assert(tr2[p2] == tr[q2]);
    }
}

/// Membership and distinctness after unmounting the node `k`.
pub proof fn lemma_remove_key_membership(s: Seq<u64>, k: u64)
    requires
        s.no_duplicates(),
        s.contains(k),
    ensures
        s.remove(s.index_of(k)).no_duplicates(),
        forall|x: u64| s.remove(s.index_of(k)).contains(x) <==> s.contains(x) && x != k,
{
    let i = s.index_of(k);
    assert(s[i] == k);
    let s2 = s.remove(i);
    assert forall|p1: int, p2: int| 0 <= p1 < p2 < s2.len() implies s2[p1] != s2[p2] by {
        let q1: int = if p1 < i {
            p1
        } else {
            p1 + 1
        };
        let q2: int = if p2 < i {
            p2
        } else {
            p2 + 1
        };
        assert(s2[p1] == s[q1]);
        assert(s2[p2] == s[q2]);
    }
    assert forall|x: u64| s2.contains(x) implies s.contains(x) && x != k by {
        let p = choose|p: int| 0 <= p < s2.len() && s2[p] == x;
        let q: int = if p < i {
            p
        } else {
            p + 1
        };
        assert(s2[p] == s[q]);
        assert(q != i);
    }
    assert forall|x: u64| s.contains(x) && x != k implies s2.contains(x) by {
        let q = choose|q: int| 0 <= q < s.len() && s[q] == x;
        assert(q != i);
        let p: int = if q < i {
            q
        } else {
            q - 1
        };
        assert(s2[p] == s[q]);
    }
}

/// Membership and distinctness after mounting the node `k` at position `q`.
pub proof fn lemma_insert_membership(s: Seq<u64>, k: u64, q: int)
    requires
        s.no_duplicates(),
        !s.contains(k),
        0 <= q <= s.len(),
    ensures
        s.insert(q, k).no_duplicates(),
        forall|x: u64| s.insert(q, k).contains(x) <==> s.contains(x) || x == k,
{
    let s2 = s.insert(q, k);
    assert forall|p: int| 0 <= p < s.len() implies s[p] != k by {
        assert(s.contains(s[p]));
    }
    assert forall|p1: int, p2: int| 0 <= p1 < p2 < s2.len() implies s2[p1] != s2[p2] by {
        if p1 != q && p2 != q {
            let q1: int = if p1 < q {
                p1
            } else {
                p1 - 1
            };
            let q2: int = if p2 < q {
                p2
            } else {
                p2 - 1
            };
            assert(s2[p1] == s[q1]);
            assert(s2[p2] == s[q2]);
        } else if p1 == q {
            assert(s2[p2] == s[p2 - 1]);
        } else {
            assert(s2[p1] == s[p1]);
        }
    }
    assert forall|x: u64| s2.contains(x) implies s.contains(x) || x == k by {
        let p = choose|p: int| 0 <= p < s2.len() && s2[p] == x;
        if p != q {
            let q1: int = if p < q {
                p
            } else {
                p - 1
            };
            assert(s2[p] == s[q1]);
        }
    }
    assert forall|x: u64| s.contains(x) || x == k implies s2.contains(x) by {
        if x == k {
            assert(s2[q] == k);
        } else {
            let q1 = choose|q1: int| 0 <= q1 < s.len() && s[q1] == x;
            let p: int = if q1 < q {
                q1
            } else {
                q1 + 1
            };
            assert(s2[p] == s[q1]);
        }
    }
}

/// Filled slots hold the child for their position in the new key order.
pub open spec fn slots_keyed_b(ch: Seq<Option<ChildSlot>>, b: Seq<u64>) -> bool {
    forall|i: int|
        0 <= i < ch.len() ==> match #[trigger] ch[i] {
            Some(c) => 0 <= i < b.len() && c.key == b[i],
            None => true,
        }
}

/// The index cells run parallel to the child slots, and a present cell
/// reads its own slot position.
pub open spec fn cells_mirror(cl: Seq<Option<IndexCell>>, ch: Seq<Option<ChildSlot>>) -> bool {
    &&& cl.len() == ch.len()
    &&& forall|i: int| 0 <= i < cl.len() ==> ((#[trigger] cl[i]) is Some <==> ch[i] is Some)
    &&& forall|i: int|
        0 <= i < cl.len() ==> match #[trigger] cl[i] {
            Some(c) => c.value == i,
            None => true,
        }
}

/// The host tree holds exactly the surviving children, each once.
pub open spec fn tree_survivors(tr: Seq<u64>, a: Seq<u64>, b: Seq<u64>) -> bool {
    &&& tr.no_duplicates()
    &&& forall|k: u64| tr.contains(k) <==> (a.contains(k) && b.contains(k))
}

/// Exactly the stationary children are in their slots.
pub open spec fn filled_iff_unchanged(ch: Seq<Option<ChildSlot>>, a: Seq<u64>, b: Seq<u64>) -> bool {
    forall|i: int| 0 <= i < ch.len() ==> ((#[trigger] ch[i]) is Some <==> unchanged_at(a, b, i))
}

/// Slot `i` is the destination of a move the unpacker chose to keep.
pub open spec fn kept_to(cmds: Seq<MoveCmd>, i: int) -> bool {
    exists|v: int| 0 <= v < cmds.len() && !(#[trigger] cmds[v]).physical && cmds[v].to == i
}

/// Exactly the stationary children and the kept moves are in their slots.
pub open spec fn filled_iff_kept(
    ch: Seq<Option<ChildSlot>>,
    a: Seq<u64>,
    b: Seq<u64>,
    cmds: Seq<MoveCmd>,
) -> bool {
    forall|i: int|
        0 <= i < ch.len() ==> ((#[trigger] ch[i]) is Some <==> (unchanged_at(a, b, i) || kept_to(
            cmds,
            i,
        )))
}

/// Exactly the surviving children are in their slots.
pub open spec fn filled_iff_survivor(ch: Seq<Option<ChildSlot>>, a: Seq<u64>, b: Seq<u64>) -> bool {
    forall|i: int|
        0 <= i < ch.len() ==> ((#[trigger] ch[i]) is Some <==> (unchanged_at(a, b, i) || moved_to(
            a,
            b,
            i,
        )))
}

/// The move commands are the moved set ordered by destination.
pub open spec fn cmds_are_moves(cmds: Seq<MoveCmd>, a: Seq<u64>, b: Seq<u64>) -> bool {
    cmds.map_values(|c: MoveCmd| (c.from as int, c.to as int)) == moved_by_to(a, b, b.len() as int)
}

/// What the unpacker guarantees of the moves it keeps: none spans a
/// stationary sibling, and together they keep their old relative order.
pub open spec fn cmds_kept_ok(cmds: Seq<MoveCmd>, a: Seq<u64>, b: Seq<u64>) -> bool {
    &&& forall|i: int|
        0 <= i < cmds.len() && !(#[trigger] cmds[i]).physical ==> span_free(
            a,
            b,
            cmds[i].from as int,
            cmds[i].to as int,
        )
    &&& forall|i: int, j: int|
        0 <= i < j < cmds.len() && !(#[trigger] cmds[i]).physical && !(#[trigger] cmds[j]).physical
            ==> cmds[i].from < cmds[j].from
}

/// Spells out what each move command carries, from the shape of the moved
/// set: positions in range, matching keys, distinct sources, ascending
/// destinations, and both completeness directions.
pub proof fn lemma_cmds_facts(cmds: Seq<MoveCmd>, a: Seq<u64>, b: Seq<u64>)
    requires
        a.no_duplicates(),
        b.no_duplicates(),
        cmds_are_moves(cmds, a, b),
    ensures
        forall|u: int|
            0 <= u < cmds.len() ==> {
                &&& (#[trigger] cmds[u]).from < a.len()
                &&& cmds[u].to < b.len()
                &&& a[cmds[u].from as int] == b[cmds[u].to as int]
                &&& cmds[u].from != cmds[u].to
                &&& a.index_of(b[cmds[u].to as int]) == cmds[u].from as int
                &&& b.index_of(a[cmds[u].from as int]) == cmds[u].to as int
            },
        forall|u1: int, u2: int|
            0 <= u1 < u2 < cmds.len() ==> (#[trigger] cmds[u1]).to < (#[trigger] cmds[u2]).to,
        forall|u1: int, u2: int|
            0 <= u1 < u2 < cmds.len() ==> (#[trigger] cmds[u1]).from != (#[trigger] cmds[u2]).from,
        forall|i: int|
            moved_to(a, b, i) ==> exists|u: int| 0 <= u < cmds.len() && (#[trigger] cmds[u]).to
                == i,
        forall|i: int|
            0 <= i < a.len() && b.contains(#[trigger] a[i]) && b.index_of(a[i]) != i ==> exists|
                u: int,
            | 0 <= u < cmds.len() && (#[trigger] cmds[u]).from == i,
{
    lemma_moved_by_to_props(a, b, b.len() as int);
    let pairs = moved_by_to(a, b, b.len() as int);
    assert forall|u: int| 0 <= u < cmds.len() implies {
        &&& (#[trigger] cmds[u]).from < a.len()
        &&& cmds[u].to < b.len()
        &&& a[cmds[u].from as int] == b[cmds[u].to as int]
        &&& cmds[u].from != cmds[u].to
        &&& a.index_of(b[cmds[u].to as int]) == cmds[u].from as int
        &&& b.index_of(a[cmds[u].from as int]) == cmds[u].to as int
    } by {
        assert(pairs[u] == (cmds[u].from as int, cmds[u].to as int));
        assert(0 <= pairs[u].0 < a.len());
        assert(0 <= pairs[u].1 < b.len());
        assert(a[pairs[u].0] == b[pairs[u].1]);
        lemma_index_of_distinct(a, cmds[u].from as int);
        lemma_index_of_distinct(b, cmds[u].to as int);
    }
    assert forall|u1: int, u2: int|
        0 <= u1 < u2 < cmds.len() implies (#[trigger] cmds[u1]).to < (#[trigger] cmds[u2]).to by {
        assert(pairs[u1] == (cmds[u1].from as int, cmds[u1].to as int));
        assert(pairs[u2] == (cmds[u2].from as int, cmds[u2].to as int));
        assert(moved_by_to(a, b, b.len() as int)[u1].1 < moved_by_to(a, b, b.len() as int)[u2].1);
    }
    assert forall|u1: int, u2: int|
        0 <= u1 < u2 < cmds.len() implies (#[trigger] cmds[u1]).from != (
    #[trigger] cmds[u2]).from by {
        if cmds[u1].from == cmds[u2].from {
            assert(b.index_of(a[cmds[u1].from as int]) == cmds[u1].to as int);
            assert(b.index_of(a[cmds[u2].from as int]) == cmds[u2].to as int);
        }
    }
    assert forall|i: int| moved_to(a, b, i) implies exists|u: int|
        0 <= u < cmds.len() && (#[trigger] cmds[u]).to == i by {
        let f = a.index_of(b[i]);
        assert(a[f] == b[i]);
        assert(pairs.contains((f, i)));
        let u = choose|u: int| 0 <= u < pairs.len() && pairs[u] == (f, i);
        assert(pairs[u] == (cmds[u].from as int, cmds[u].to as int));
        assert(cmds[u].to == i);
    }
    assert forall|i: int|
        0 <= i < a.len() && b.contains(#[trigger] a[i]) && b.index_of(a[i]) != i implies exists|
        u: int,
    | 0 <= u < cmds.len() && (#[trigger] cmds[u]).from == i by {
        let j = b.index_of(a[i]);
        assert(b[j] == a[i]);
        lemma_index_of_distinct(a, i);
        assert(pairs.contains((i, j)));
        let u = choose|u: int| 0 <= u < pairs.len() && pairs[u] == (i, j);
        assert(pairs[u] == (cmds[u].from as int, cmds[u].to as int));
        assert(cmds[u].from == i);
    }
}

/// Clear: unmount every child in slot order and drop every index binding.
#[verifier::loop_isolation(false)]
fn phase_clear(
    tree: &mut HostTree,
    children: &mut Vec<Option<ChildSlot>>,
    index_items: &mut Vec<Option<IndexCell>>,
    Ghost(a): Ghost<Seq<u64>>,
)
    requires
        a.no_duplicates(),
        old(tree)@ == a,
        slots_match(old(children)@, a),
    ensures
        final(children)@ == Seq::<Option<ChildSlot>>::empty(),
        final(index_items)@ == Seq::<Option<IndexCell>>::empty(),
        final(tree)@ == Seq::<u64>::empty(),
{
    index_items.clear();
    let n0 = children.len();
    for i in 0..n0
        invariant
            children@ == old(children)@,
            tree@ == a.skip(i as int),
    {
        let c = children[i].unwrap();
        proof {
            assert(tree@[0] == a[i as int]);
            assert(tree@.contains(c.key));
            assert forall|p1: int, p2: int|
                0 <= p1 < p2 < tree@.len() implies tree@[p1] != tree@[p2] by {
                assert(tree@[p1] == a[p1 + i]);
                assert(tree@[p2] == a[p2 + i]);
            }
            lemma_index_of_distinct(tree@, 0);
        }
        tree.remove(c.key);
        proof {
            assert(tree@ =~= a.skip(i + 1));
        }
    }
    children.clear();
    proof {
        assert(tree@ =~= Seq::<u64>::empty());
    }
}

/// Removals: for each position whose key disappeared, drop the binding and
/// unmount the child, leaving a hole.
#[verifier::loop_isolation(false)]
#[verifier::rlimit(100)]
fn phase_remove(
    tree: &mut HostTree,
    script: &EditScript,
    children: &mut Vec<Option<ChildSlot>>,
    index_items: &mut Vec<Option<IndexCell>>,
    Ghost(a): Ghost<Seq<u64>>,
    Ghost(b): Ghost<Seq<u64>>,
)
    requires
        a.no_duplicates(),
        b.no_duplicates(),
        is_diff_of(*script, a, b),
        !script.clear,
        old(tree)@ == a,
        slots_match(old(children)@, a),
        cells_match(old(index_items)@, a.len() as int),
    ensures
        final(children)@.len() == a.len(),
        forall|i: int|
            0 <= i < a.len() ==> ((#[trigger] final(children)@[i]) is Some <==> b.contains(a[i])),
        forall|i: int|
            0 <= i < a.len() ==> match #[trigger] final(children)@[i] {
                Some(c) => c.key == a[i],
                None => true,
            },
        cells_mirror(final(index_items)@, final(children)@),
        tree_survivors(final(tree)@, a, b),
        tree_a_ordered(final(tree)@, a),
{
    proof {
        lemma_removed_props(a, b, a.len() as int);
    }
    let nr = script.removed.len();
    proof {
        assert forall|i: int|
            0 <= i < a.len() && !b.contains(a[i]) implies exists|u: int|
            0 <= u < nr && (#[trigger] script.removed@[u]).at == i by {
            assert(crate::diff::removed_posns(*script).contains(i));
            let u = choose|u: int|
                0 <= u < crate::diff::removed_posns(*script).len() && crate::diff::removed_posns(
                    *script,
                )[u] == i;
            assert(script.removed@[u].at == i);
        }
        assert forall|u: int| 0 <= u < nr implies (#[trigger] script.removed@[u]).at < a.len()
            && !b.contains(a[script.removed@[u].at as int]) by {
            assert(crate::diff::removed_posns(*script)[u] == script.removed@[u].at as int);
        }
        assert forall|u1: int, u2: int|
            0 <= u1 < u2 < nr implies (#[trigger] script.removed@[u1]).at < (
        #[trigger] script.removed@[u2]).at by {
            assert(crate::diff::removed_posns(*script)[u1] == script.removed@[u1].at as int);
            assert(crate::diff::removed_posns(*script)[u2] == script.removed@[u2].at as int);
        }
        assert(tree_a_ordered(tree@, a)) by {
            assert forall|p1: int, p2: int|
                0 <= p1 < p2 < tree@.len() && a.contains(#[trigger] tree@[p1]) && a.contains(
                    #[trigger] tree@[p2],
                ) implies a.index_of(tree@[p1]) < a.index_of(tree@[p2]) by {
                lemma_index_of_distinct(a, p1);
                lemma_index_of_distinct(a, p2);
            }
        }
    }
    for t in 0..nr
        invariant
            children@.len() == a.len(),
            index_items@.len() == a.len(),
            forall|i: int|
                0 <= i < a.len() ==> ((#[trigger] children@[i]) is Some <==> (b.contains(a[i])
                    || exists|u: int| t <= u < nr && (#[trigger] script.removed@[u]).at == i)),
            forall|i: int|
                0 <= i < a.len() ==> match #[trigger] children@[i] {
                    Some(c) => c.key == a[i],
                    None => true,
                },
            forall|i: int|
                0 <= i < a.len() ==> ((#[trigger] index_items@[i]) is Some <==> children@[i]
                    is Some),
            forall|i: int|
                0 <= i < a.len() ==> match #[trigger] index_items@[i] {
                    Some(c) => c.value == i,
                    None => true,
                },
            tree@.no_duplicates(),
            forall|k: u64|
                tree@.contains(k) <==> (a.contains(k) && (b.contains(k) || exists|u: int|
                    t <= u < nr && a[(#[trigger] script.removed@[u]).at as int] == k)),
            tree_a_ordered(tree@, a),
    {
        let at = script.removed[t].at;
        proof {
            assert(children@[at as int] is Some) by {
                assert(script.removed@[t as int].at == at);
            }
        }
        let c = children[at].unwrap();
        let ghost pre_tree = tree@;
        children.set(at, None);
        index_items.set(at, None);
        proof {
            assert(a[at as int] == c.key);
            assert(tree@.contains(c.key)) by {
                assert(a.contains(c.key)) by {
                    assert(a[at as int] == c.key);
                }
            }
            lemma_remove_key_membership(tree@, c.key);
            lemma_a_ordered_remove(tree@, a, tree@.index_of(c.key));
        }
        tree.remove(c.key);
        proof {
            assert forall|i: int|
                0 <= i < a.len() implies ((#[trigger] children@[i]) is Some <==> (b.contains(a[i])
                    || exists|u: int|
                    t + 1 <= u < nr && (#[trigger] script.removed@[u]).at == i)) by {
                if i == at as int {
                    assert forall|u: int|
                        t + 1 <= u < nr implies (#[trigger] script.removed@[u]).at != i by {
                        assert(script.removed@[t as int].at < script.removed@[u].at);
                    }
                } else {
                    if children@[i] is Some && !b.contains(a[i]) {
                        let u = choose|u: int| t <= u < nr && (script.removed@[u]).at == i;
                        assert(u != t);
                        assert(t + 1 <= u < nr && script.removed@[u].at == i);
                    }
                }
            }
            assert forall|k: u64|
                (tree@.contains(k) <==> (a.contains(k) && (b.contains(k) || exists|u: int|
                    t + 1 <= u < nr && a[(#[trigger] script.removed@[u]).at as int] == k))) by {
                if k != c.key {
                    if pre_tree.contains(k) && a.contains(k) && !b.contains(k) {
                        let u = choose|u: int|
                            t <= u < nr && a[(script.removed@[u]).at as int] == k;
                        assert(u != t);
                        assert(t + 1 <= u < nr && a[script.removed@[u].at as int] == k);
                    }
                } else {
                    assert(!tree@.contains(k));
                    assert forall|u: int|
                        t + 1 <= u < nr implies a[(#[trigger] script.removed@[u]).at as int]
                        != k by {
                        assert(script.removed@[t as int].at < script.removed@[u].at);
                        assert(a.no_duplicates());
                    }
                }
            }
        }
    }
}

/// Move out: take every moved child and its cell out of its old slot before
/// any is put back, so the arrays can be resized and no source slot is read
/// twice.
#[verifier::loop_isolation(false)]
#[verifier::rlimit(100)]
fn phase_moveout(
    move_cmds: &Vec<MoveCmd>,
    children: &mut Vec<Option<ChildSlot>>,
    index_items: &mut Vec<Option<IndexCell>>,
    Ghost(a): Ghost<Seq<u64>>,
    Ghost(b): Ghost<Seq<u64>>,
) -> (r: (Vec<Option<ChildSlot>>, Vec<Option<IndexCell>>))
    requires
        a.no_duplicates(),
        b.no_duplicates(),
        cmds_are_moves(move_cmds@, a, b),
        old(children)@.len() <= a.len(),
        move_cmds@.len() == 0 || old(children)@.len() == a.len(),
        forall|i: int|
            0 <= i < old(children)@.len() ==> ((#[trigger] old(children)@[i]) is Some
                <==> b.contains(a[i])),
        forall|i: int|
            0 <= i < old(children)@.len() ==> match #[trigger] old(children)@[i] {
                Some(c) => c.key == a[i],
                None => true,
            },
        cells_mirror(old(index_items)@, old(children)@),
    ensures
        r.0@.len() == move_cmds@.len(),
        r.1@.len() == move_cmds@.len(),
        forall|v: int|
            0 <= v < move_cmds@.len() ==> #[trigger] r.0@[v] == Some(
                ChildSlot { key: b[move_cmds@[v].to as int] },
            ),
        forall|v: int| 0 <= v < move_cmds@.len() ==> (#[trigger] r.1@[v]) is Some,
        final(children)@.len() == old(children)@.len(),
        filled_iff_unchanged(final(children)@, a, b),
        slots_keyed_b(final(children)@, b),
        cells_mirror(final(index_items)@, final(children)@),
{
    let ghost cmds = move_cmds@;
    let nm = move_cmds.len();
    proof {
        lemma_cmds_facts(cmds, a, b);
    }
    let mut moved_children: Vec<Option<ChildSlot>> = Vec::new();
    let mut moved_cells: Vec<Option<IndexCell>> = Vec::new();
    for u in 0..nm
        invariant
            moved_children@.len() == u,
            moved_cells@.len() == u,
            forall|v: int|
                0 <= v < u ==> #[trigger] moved_children@[v] == Some(
                    ChildSlot { key: b[cmds[v].to as int] },
                ),
            forall|v: int| 0 <= v < u ==> (#[trigger] moved_cells@[v]) is Some,
            children@.len() == old(children)@.len(),
            index_items@.len() == old(children)@.len(),
            forall|i: int|
                0 <= i < children@.len() ==> ((#[trigger] children@[i]) is Some <==> (b.contains(
                    a[i],
                ) && !exists|v: int| 0 <= v < u && (#[trigger] cmds[v]).from == i)),
            forall|i: int|
                0 <= i < children@.len() ==> match #[trigger] children@[i] {
                    Some(c) => c.key == a[i],
                    None => true,
                },
            forall|i: int|
                0 <= i < children@.len() ==> ((#[trigger] index_items@[i]) is Some <==> children@[i]
                    is Some),
            forall|i: int|
                0 <= i < children@.len() ==> match #[trigger] index_items@[i] {
                    Some(c) => c.value == i,
                    None => true,
                },
    {
        let c = move_cmds[u];
        proof {
            assert(b.contains(a[c.from as int])) by {
                assert(a[c.from as int] == b[c.to as int]);
            }
            assert forall|v: int| 0 <= v < u implies (#[trigger] cmds[v]).from != c.from by {}
        }
        let ch = children[c.from].unwrap();
        children.set(c.from, None);
        let cell = index_items[c.from].unwrap();
        index_items.set(c.from, None);
        moved_children.push(Some(ch));
        moved_cells.push(Some(cell));
        proof {
            assert(ch.key == b[cmds[u as int].to as int]);
            assert forall|i: int|
                0 <= i < children@.len() implies ((#[trigger] children@[i]) is Some <==> (
            b.contains(a[i]) && !exists|v: int|
                0 <= v < u + 1 && (#[trigger] cmds[v]).from == i)) by {
                if i == c.from as int {
                    assert(cmds[u as int].from == i);
                } else {
                    if b.contains(a[i]) && children@[i] is None {
                        let v = choose|v: int| 0 <= v < u && (cmds[v]).from == i;
                        assert(0 <= v < u + 1 && cmds[v].from == i);
                    }
                }
            }
        }
    }
    proof {
        assert forall|i: int|
            0 <= i < children@.len() implies ((#[trigger] children@[i]) is Some <==> unchanged_at(
            a,
            b,
            i,
        )) by {
            if b.contains(a[i]) {
                lemma_index_of_distinct(a, i);
                if b.index_of(a[i]) == i {
                    assert(b[i] == a[i]);
                    assert forall|v: int| 0 <= v < nm implies (#[trigger] cmds[v]).from != i by {
                        if cmds[v].from == i {
                            assert(b.index_of(a[i]) == cmds[v].to as int);
                        }
                    }
                } else {
                    assert(exists|v: int| 0 <= v < nm && (#[trigger] cmds[v]).from == i);
                }
            } else {
                if unchanged_at(a, b, i) {
                    assert(b.contains(b[i]));
                }
            }
        }
        assert forall|i: int|
            0 <= i < children@.len() implies match #[trigger] children@[i] {
            Some(c) => 0 <= i < b.len() && c.key == b[i],
            None => true,
        } by {
            if children@[i] is Some {
                assert(unchanged_at(a, b, i));
            }
        }
    }
    (moved_children, moved_cells)
}

/// Resize: grow the slot array and the binding array to the new sequence
/// length, filling new slots with holes.
#[verifier::loop_isolation(false)]
fn phase_resize(
    children: &mut Vec<Option<ChildSlot>>,
    index_items: &mut Vec<Option<IndexCell>>,
    nb: usize,
    Ghost(a): Ghost<Seq<u64>>,
    Ghost(b): Ghost<Seq<u64>>,
)
    requires
        filled_iff_unchanged(old(children)@, a, b),
        slots_keyed_b(old(children)@, b),
        cells_mirror(old(index_items)@, old(children)@),
        nb == b.len(),
        forall|i: int| unchanged_at(a, b, i) ==> i < old(children)@.len(),
    ensures
        final(children)@.len() >= b.len(),
        final(children)@.len() >= old(children)@.len(),
        filled_iff_unchanged(final(children)@, a, b),
        slots_keyed_b(final(children)@, b),
        cells_mirror(final(index_items)@, final(children)@),
{
    while children.len() < nb
        invariant
            children@.len() >= old(children)@.len(),
            forall|i: int| old(children)@.len() <= i < children@.len() ==> (#[trigger] children@[i]) is None,
            filled_iff_unchanged(children@, a, b),
            slots_keyed_b(children@, b),
            cells_mirror(index_items@, children@),
        decreases nb - children@.len(),
    {
        children.push(None);
        index_items.push(None);
    }
}

/// Move in, first half: moves that need no host mutation are placed in
/// their destination slot and their binding is set to the new index.
#[verifier::loop_isolation(false)]
#[verifier::rlimit(100)]
fn phase_movein_logical(
    move_cmds: &Vec<MoveCmd>,
    children: &mut Vec<Option<ChildSlot>>,
    index_items: &mut Vec<Option<IndexCell>>,
    moved_children: &mut Vec<Option<ChildSlot>>,
    moved_cells: &mut Vec<Option<IndexCell>>,
    Ghost(a): Ghost<Seq<u64>>,
    Ghost(b): Ghost<Seq<u64>>,
)
    requires
        a.no_duplicates(),
        b.no_duplicates(),
        cmds_are_moves(move_cmds@, a, b),
        old(children)@.len() >= b.len(),
        filled_iff_unchanged(old(children)@, a, b),
        slots_keyed_b(old(children)@, b),
        cells_mirror(old(index_items)@, old(children)@),
        old(moved_children)@.len() == move_cmds@.len(),
        old(moved_cells)@.len() == move_cmds@.len(),
        forall|v: int|
            0 <= v < move_cmds@.len() ==> #[trigger] old(moved_children)@[v] == Some(
                ChildSlot { key: b[move_cmds@[v].to as int] },
            ),
        forall|v: int| 0 <= v < move_cmds@.len() ==> (#[trigger] old(moved_cells)@[v]) is Some,
    ensures
        final(children)@.len() == old(children)@.len(),
        filled_iff_kept(final(children)@, a, b, move_cmds@),
        slots_keyed_b(final(children)@, b),
        cells_mirror(final(index_items)@, final(children)@),
        final(moved_children)@.len() == move_cmds@.len(),
        final(moved_cells)@.len() == move_cmds@.len(),
        forall|v: int|
            0 <= v < move_cmds@.len() ==> #[trigger] final(moved_children)@[v] == (
            if move_cmds@[v].physical {
                Some(ChildSlot { key: b[move_cmds@[v].to as int] })
            } else {
                None::<ChildSlot>
            }),
        forall|v: int|
            0 <= v < move_cmds@.len() ==> ((#[trigger] final(moved_cells)@[v]) is Some
                <==> move_cmds@[v].physical),
{
    let ghost cmds = move_cmds@;
    let nm = move_cmds.len();
    proof {
        lemma_cmds_facts(cmds, a, b);
    }
    for u in 0..nm
        invariant
            children@.len() == old(children)@.len(),
            index_items@.len() == old(children)@.len(),
            moved_children@.len() == nm,
            moved_cells@.len() == nm,
            forall|v: int|
                0 <= v < nm ==> #[trigger] moved_children@[v] == (
                if cmds[v].physical || v >= u {
                    Some(ChildSlot { key: b[cmds[v].to as int] })
                } else {
                    None::<ChildSlot>
                }),
            forall|v: int|
                0 <= v < nm ==> ((#[trigger] moved_cells@[v]) is Some <==> (cmds[v].physical || v
                    >= u)),
            forall|i: int|
                0 <= i < children@.len() ==> ((#[trigger] children@[i]) is Some <==> (unchanged_at(
                    a,
                    b,
                    i,
                ) || exists|v: int|
                    0 <= v < u && !(#[trigger] cmds[v]).physical && cmds[v].to == i)),
            slots_keyed_b(children@, b),
            cells_mirror(index_items@, children@),
    {
        let c = move_cmds[u];
        if !c.physical {
            let ch = moved_children[u].unwrap();
            moved_children.set(u, None);
            let mut cell = moved_cells[u].unwrap();
            moved_cells.set(u, None);
            cell.value = c.to;
            children.set(c.to, Some(ch));
            index_items.set(c.to, Some(cell));
            proof {
                assert forall|i: int|
                    0 <= i < children@.len() implies ((#[trigger] children@[i]) is Some <==> (
                unchanged_at(a, b, i) || exists|v: int|
                    0 <= v < u + 1 && !(#[trigger] cmds[v]).physical && cmds[v].to == i)) by {
                    if i == c.to as int {
                        assert(!cmds[u as int].physical && cmds[u as int].to == i);
                    } else {
                        if children@[i] is Some && !unchanged_at(a, b, i) {
                            let v = choose|v: int|
                                0 <= v < u && !(cmds[v]).physical && cmds[v].to == i;
                            assert(0 <= v < u + 1 && !cmds[v].physical && cmds[v].to == i);
                        }
                    }
                }
            }
        }
    }
}

/// Move in, second half: each physical move is relocated in the host tree,
/// inserted before the nearest still-mounted sibling that will follow it in
/// the new order, or before the end marker if none exists.
#[verifier::loop_isolation(false)]
#[verifier::rlimit(100)]
fn phase_movein_physical(
    tree: &mut HostTree,
    move_cmds: &Vec<MoveCmd>,
    children: &mut Vec<Option<ChildSlot>>,
    index_items: &mut Vec<Option<IndexCell>>,
    moved_children: &mut Vec<Option<ChildSlot>>,
    moved_cells: &mut Vec<Option<IndexCell>>,
    Ghost(a): Ghost<Seq<u64>>,
    Ghost(b): Ghost<Seq<u64>>,
)
    requires
        a.no_duplicates(),
        b.no_duplicates(),
        cmds_are_moves(move_cmds@, a, b),
        old(children)@.len() >= b.len(),
        filled_iff_kept(old(children)@, a, b, move_cmds@),
        slots_keyed_b(old(children)@, b),
        cells_mirror(old(index_items)@, old(children)@),
        old(moved_children)@.len() == move_cmds@.len(),
        old(moved_cells)@.len() == move_cmds@.len(),
        forall|v: int|
            0 <= v < move_cmds@.len() ==> #[trigger] old(moved_children)@[v] == (
            if move_cmds@[v].physical {
                Some(ChildSlot { key: b[move_cmds@[v].to as int] })
            } else {
                None::<ChildSlot>
            }),
        forall|v: int|
            0 <= v < move_cmds@.len() ==> ((#[trigger] old(moved_cells)@[v]) is Some
                <==> move_cmds@[v].physical),
        tree_survivors(old(tree)@, a, b),
        tree_sorted(old(tree)@, b, old(children)@),
    ensures
        final(children)@.len() == old(children)@.len(),
        filled_iff_survivor(final(children)@, a, b),
        slots_keyed_b(final(children)@, b),
        cells_mirror(final(index_items)@, final(children)@),
        tree_survivors(final(tree)@, a, b),
        tree_sorted(final(tree)@, b, final(children)@),
{
    let ghost cmds = move_cmds@;
    let nm = move_cmds.len();
    proof {
        lemma_cmds_facts(cmds, a, b);
    }
    for u in 0..nm
        invariant
            children@.len() == old(children)@.len(),
            index_items@.len() == old(children)@.len(),
            moved_children@.len() == nm,
            moved_cells@.len() == nm,
            forall|v: int|
                0 <= v < nm ==> #[trigger] moved_children@[v] == (
                if cmds[v].physical && v >= u {
                    Some(ChildSlot { key: b[cmds[v].to as int] })
                } else {
                    None::<ChildSlot>
                }),
            forall|v: int|
                0 <= v < nm ==> ((#[trigger] moved_cells@[v]) is Some <==> (cmds[v].physical && v
                    >= u)),
            forall|i: int|
                0 <= i < children@.len() ==> ((#[trigger] children@[i]) is Some <==> (unchanged_at(
                    a,
                    b,
                    i,
                ) || exists|v: int|
                    0 <= v < nm && (#[trigger] cmds[v]).to == i && (!cmds[v].physical || v < u))),
            slots_keyed_b(children@, b),
            cells_mirror(index_items@, children@),
            tree_survivors(tree@, a, b),
            tree_sorted(tree@, b, children@),
    {
        let c = move_cmds[u];
        if c.physical {
            let ch = moved_children[u].unwrap();
            moved_children.set(u, None);
            let mut cell = moved_cells[u].unwrap();
            moved_cells.set(u, None);
            cell.value = c.to;
            let k = ch.key;
            let ghost t = c.to as int;
            proof {
                assert(k == b[t]);
                assert(b.contains(k)) by {
                    assert(b[t] == k);
                }
                assert(b.index_of(k) == t) by {
                    lemma_index_of_distinct(b, t);
                }
                assert(a.contains(k)) by {
                    assert(a[c.from as int] == k);
                }
                assert(tree@.contains(k));
                assert(children@[t] is None) by {
                    if children@[t] is Some {
                        assert(!unchanged_at(a, b, t)) by {
                            if unchanged_at(a, b, t) {
                                lemma_index_of_distinct(a, t);
                                assert(a.index_of(b[t]) == t);
                            }
                        }
                        let v = choose|v: int|
                            0 <= v < nm && (cmds[v]).to == t && (!cmds[v].physical || v < u);
                        assert(v != u);
                        assert(cmds[v].to == cmds[u as int].to);
                        assert(false);
                    }
                }
                lemma_remove_key_membership(tree@, k);
                lemma_sorted_remove(tree@, b, children@, tree@.index_of(k));
            }
            tree.remove(k);
            let nxt = next_filled(children, c.to);
            match nxt {
                Some(pair) => {
                    let s = pair.0;
                    let rc = pair.1;
                    proof {
                        assert(rc.key == b[s as int]);
                        assert(b.index_of(rc.key) == s as int) by {
                            lemma_index_of_distinct(b, s as int);
                        }
                        assert(filled_key(b, children@, rc.key));
                        assert(tree@.contains(rc.key)) by {
                            assert(children@[s as int] is Some);
                            if unchanged_at(a, b, s as int) {
                                assert(a.contains(a[s as int]));
                                assert(b.contains(b[s as int]));
                            } else {
                                let v = choose|v: int|
                                    0 <= v < nm && (cmds[v]).to == s as int && (!cmds[v].physical
                                        || v < u);
                                assert(a.contains(a[cmds[v].from as int]));
                                assert(b.contains(b[cmds[v].to as int]));
                            }
                            assert(rc.key != k) by {
                                if rc.key == k {
                                    assert(b[s as int] == b[t]);
                                }
                            }
                        }
                        let q = tree@.index_of(rc.key);
                        assert(tree@[q] == rc.key);
                        assert forall|p: int|
                            0 <= p < q && filled_key(b, children@, #[trigger] tree@[p]) implies
                        b.index_of(tree@[p]) < t by {
                            assert(b.index_of(tree@[p]) < b.index_of(tree@[q]));
                            let bp = b.index_of(tree@[p]);
                            if bp > t {
                                assert(children@[bp] is Some);
                                assert(t < bp < s as int);
                                assert(false);
                            }
                            if bp == t {
                                assert(b[bp] == tree@[p]);
                                assert(children@[t] is None);
                                assert(false);
                            }
                        }
                        assert forall|p: int|
                            q <= p < tree@.len() && filled_key(b, children@, #[trigger] tree@[p])
                            implies b.index_of(tree@[p]) > t by {
                            if p > q {
                                assert(b.index_of(tree@[q]) < b.index_of(tree@[p]));
                            }
                        }
                        lemma_sorted_insert(tree@, b, children@, k, q);
                        lemma_insert_membership(tree@, k, q);
                    }
                    tree.insert_before(k, rc.key);
                },
                None => {
                    proof {
                        let q = tree@.len() as int;
                        assert forall|p: int|
                            0 <= p < q && filled_key(b, children@, #[trigger] tree@[p]) implies
                        b.index_of(tree@[p]) < t by {
                            let bp = b.index_of(tree@[p]);
                            assert(b[bp] == tree@[p]);
                            if bp > t {
                                assert(children@[bp] is Some);
                                assert(false);
                            }
                            if bp == t {
                                assert(children@[t] is None);
                                assert(false);
                            }
                        }
                        lemma_sorted_insert(tree@, b, children@, k, q);
                        lemma_insert_membership(tree@, k, q);
                        assert(tree@.insert(q, k) =~= tree@.push(k));
                    }
                    tree.insert_at_end(k);
                },
            }
            children.set(c.to, Some(ch));
            index_items.set(c.to, Some(cell));
            proof {
                assert(ch == (ChildSlot { key: k }));
                assert(tree_sorted(tree@, b, children@));
                assert forall|i: int|
                    0 <= i < children@.len() implies ((#[trigger] children@[i]) is Some <==> (
                unchanged_at(a, b, i) || exists|v: int|
                    0 <= v < nm && (#[trigger] cmds[v]).to == i && (!cmds[v].physical || v < u
                        + 1))) by {
                    if i == t {
                        assert(cmds[u as int].to == i && (!cmds[u as int].physical || u < u + 1));
                    }
                }
                assert forall|k2: u64|
                    (tree@.contains(k2) <==> (a.contains(k2) && b.contains(k2))) by {}
            }
        }
    }
    proof {
        assert forall|i: int|
            0 <= i < children@.len() implies ((#[trigger] children@[i]) is Some <==> (unchanged_at(
            a,
            b,
            i,
        ) || moved_to(a, b, i))) by {
            if children@[i] is Some && !unchanged_at(a, b, i) {
                let v = choose|v: int|
                    0 <= v < nm && (cmds[v]).to == i && (!cmds[v].physical || v < nm);
                assert(a.contains(b[i])) by {
                    assert(a[cmds[v].from as int] == b[i]);
                }
                assert(a.index_of(b[i]) == cmds[v].from as int);
                assert(moved_to(a, b, i));
            }
            if moved_to(a, b, i) {
                let v = choose|v: int| 0 <= v < nm && (#[trigger] cmds[v]).to == i;
                assert(0 <= v < nm && cmds[v].to == i && (!cmds[v].physical || v < nm));
            }
        }
    }
}

/// Additions: build a new child for each added key, mount it at its chosen
/// reference — before the next still-mounted sibling for `Normal`, directly
/// before the end marker for `Append` — and give it a fresh index binding.
#[verifier::loop_isolation(false)]
#[verifier::rlimit(100)]
fn phase_add(
    tree: &mut HostTree,
    script: &EditScript,
    add_cmds: &Vec<AddOp>,
    new_keys: &KeySeq,
    children: &mut Vec<Option<ChildSlot>>,
    index_items: &mut Vec<Option<IndexCell>>,
    Ghost(a): Ghost<Seq<u64>>,
)
    requires
        a.no_duplicates(),
        new_keys.wf(),
        is_diff_of(*script, a, new_keys@),
        add_cmds@ == script.added@,
        old(children)@.len() >= new_keys@.len(),
        filled_iff_survivor(old(children)@, a, new_keys@),
        slots_keyed_b(old(children)@, new_keys@),
        cells_mirror(old(index_items)@, old(children)@),
        tree_survivors(old(tree)@, a, new_keys@),
        tree_sorted(old(tree)@, new_keys@, old(children)@),
    ensures
        final(children)@.len() == old(children)@.len(),
        forall|i: int|
            0 <= i < final(children)@.len() ==> ((#[trigger] final(children)@[i]) is Some <==> i
                < new_keys@.len()),
        slots_keyed_b(final(children)@, new_keys@),
        cells_mirror(final(index_items)@, final(children)@),
        final(tree)@ == new_keys@,
{
    let ghost b = new_keys@;
    proof {
        new_keys.lemma_wf_distinct();
        lemma_added_props(a, b, b.len() as int);
        lemma_moved_props(a, b, a.len() as int);
    }
    let na = add_cmds.len();
    proof {
        assert forall|v: int| 0 <= v < na implies {
            &&& (#[trigger] add_cmds@[v]).at < b.len()
            &&& !a.contains(b[add_cmds@[v].at as int])
        } by {
            assert(crate::diff::added_posns(*script)[v] == add_cmds@[v].at as int);
        }
        assert forall|v1: int, v2: int|
            0 <= v1 < v2 < na implies (#[trigger] add_cmds@[v1]).at < (
        #[trigger] add_cmds@[v2]).at by {
            assert(crate::diff::added_posns(*script)[v1] == add_cmds@[v1].at as int);
            assert(crate::diff::added_posns(*script)[v2] == add_cmds@[v2].at as int);
        }
        assert forall|j: int| added_at(a, b, j) implies exists|v: int|
            0 <= v < na && (#[trigger] add_cmds@[v]).at == j by {
            assert(added_upto(a, b, b.len() as int).contains(j));
            let v = choose|v: int|
                0 <= v < added_upto(a, b, b.len() as int).len() && added_upto(
                    a,
                    b,
                    b.len() as int,
                )[v] == j;
            assert(crate::diff::added_posns(*script)[v] == add_cmds@[v].at as int);
            assert(add_cmds@[v].at == j);
        }
        assert forall|v: int| 0 <= v < na implies (#[trigger] add_cmds@[v]).mode == (
        if spec_append_mode(a, b) {
            AddMode::Append
        } else {
            AddMode::Normal
        }) by {}
    }
    for u in 0..na
        invariant
            children@.len() == old(children)@.len(),
            index_items@.len() == old(children)@.len(),
            forall|i: int|
                0 <= i < children@.len() ==> ((#[trigger] children@[i]) is Some <==> (unchanged_at(
                    a,
                    b,
                    i,
                ) || moved_to(a, b, i) || exists|v: int|
                    0 <= v < u && (#[trigger] add_cmds@[v]).at == i)),
            slots_keyed_b(children@, b),
            cells_mirror(index_items@, children@),
            tree@.no_duplicates(),
            forall|k: u64|
                tree@.contains(k) <==> ((a.contains(k) && b.contains(k)) || exists|v: int|
                    0 <= v < u && b[(#[trigger] add_cmds@[v]).at as int] == k),
            tree_sorted(tree@, b, children@),
    {
        let d = add_cmds[u];
        let key = new_keys.key_at(d.at);
        let ghost t = d.at as int;
        proof {
            assert(b.index_of(key) == t) by {
                lemma_index_of_distinct(b, t);
            }
            assert(b.contains(key)) by {
                assert(b[t] == key);
            }
            assert(!tree@.contains(key)) by {
                assert(!a.contains(key));
                if exists|v: int| 0 <= v < u && b[(#[trigger] add_cmds@[v]).at as int] == key {
                    let v = choose|v: int| 0 <= v < u && b[(add_cmds@[v]).at as int] == key;
                    assert(add_cmds@[v].at < d.at);
                    assert(b[add_cmds@[v].at as int] == b[t]);
                }
            }
            assert(children@[t] is None) by {
                if children@[t] is Some {
                    if unchanged_at(a, b, t) {
                        assert(a.contains(a[t]));
                    } else if moved_to(a, b, t) {
                    } else {
                        let v = choose|v: int| 0 <= v < u && (add_cmds@[v]).at == t;
                        assert(add_cmds@[v].at < d.at);
                    }
                }
            }
        }
        match d.mode {
            AddMode::Normal => {
                let nxt = next_filled(children, d.at);
                match nxt {
                    Some(pair) => {
                        let s = pair.0;
                        let rc = pair.1;
                        proof {
                            assert(rc.key == b[s as int]);
                            assert(b.index_of(rc.key) == s as int) by {
                                lemma_index_of_distinct(b, s as int);
                            }
                            assert(filled_key(b, children@, rc.key));
                            assert(tree@.contains(rc.key)) by {
                                assert(children@[s as int] is Some);
                                if unchanged_at(a, b, s as int) || moved_to(a, b, s as int) {
                                    assert(a.contains(b[s as int]) && b.contains(b[s as int]));
                                } else {
                                    let v = choose|v: int|
                                        0 <= v < u && (add_cmds@[v]).at == s as int;
                                    assert(b[add_cmds@[v].at as int] == rc.key);
                                }
                            }
                            let q = tree@.index_of(rc.key);
                            assert(tree@[q] == rc.key);
                            assert forall|p: int|
                                0 <= p < q && filled_key(b, children@, #[trigger] tree@[p]) implies
                            b.index_of(tree@[p]) < t by {
                                assert(b.index_of(tree@[p]) < b.index_of(tree@[q]));
                                let bp = b.index_of(tree@[p]);
                                if bp > t {
                                    assert(children@[bp] is Some);
                                    assert(t < bp < s as int);
                                    assert(false);
                                }
                                if bp == t {
                                    assert(children@[t] is None);
                                    assert(false);
                                }
                            }
                            assert forall|p: int|
                                q <= p < tree@.len() && filled_key(
                                    b,
                                    children@,
                                    #[trigger] tree@[p],
                                ) implies b.index_of(tree@[p]) > t by {
                                if p > q {
                                    assert(b.index_of(tree@[q]) < b.index_of(tree@[p]));
                                }
                            }
                            lemma_sorted_insert(tree@, b, children@, key, q);
                            lemma_insert_membership(tree@, key, q);
                        }
                        tree.insert_before(key, rc.key);
                    },
                    None => {
                        proof {
                            let q = tree@.len() as int;
                            assert forall|p: int|
                                0 <= p < q && filled_key(b, children@, #[trigger] tree@[p]) implies
                            b.index_of(tree@[p]) < t by {
                                let bp = b.index_of(tree@[p]);
                                assert(b[bp] == tree@[p]);
                                if bp > t {
                                    assert(children@[bp] is Some);
                                    assert(false);
                                }
                                if bp == t {
                                    assert(children@[t] is None);
                                    assert(false);
                                }
                            }
                            lemma_sorted_insert(tree@, b, children@, key, q);
                            lemma_insert_membership(tree@, key, q);
                            assert(tree@.insert(q, key) =~= tree@.push(key));
                        }
                        tree.insert_at_end(key);
                    },
                }
            },
            AddMode::Append => {
                proof {
                    assert(spec_append_mode(a, b)) by {
                        assert(add_cmds@[u as int].mode == AddMode::Append);
                        if !spec_append_mode(a, b) {
                            assert(add_cmds@[u as int].mode == AddMode::Normal);
                        }
                    }
                    let q = tree@.len() as int;
                    assert forall|p: int|
                        0 <= p < q && filled_key(b, children@, #[trigger] tree@[p]) implies
                    b.index_of(tree@[p]) < t by {
                        let bp = b.index_of(tree@[p]);
                        assert(b[bp] == tree@[p]);
                        assert(children@[bp] is Some);
                        if bp == t {
                            assert(children@[t] is None);
                        }
                        if bp > t {
                            if a.len() == 0 {
                                if unchanged_at(a, b, bp) || moved_to(a, b, bp) {
                                    assert(false);
                                }
                                let v = choose|v: int| 0 <= v < u && (add_cmds@[v]).at == bp;
                                assert(add_cmds@[v].at < d.at);
                                assert(false);
                            } else if spec_clear(a, b) {
                                lemma_removed_all(a, b, a.len() as int);
                                if unchanged_at(a, b, bp) {
                                    assert(b.contains(a[bp]));
                                    assert(false);
                                }
                                if moved_to(a, b, bp) {
                                    let f = a.index_of(b[bp]);
                                    assert(a[f] == b[bp]);
                                    assert(b.contains(a[f]));
                                    assert(false);
                                }
                                let v = choose|v: int| 0 <= v < u && (add_cmds@[v]).at == bp;
                                assert(add_cmds@[v].at < d.at);
                                assert(false);
                            } else {
                                assert(crate::diff::moved_upto(a, b, a.len() as int).len() == 0);
                                assert(t >= a.len()) by {
                                    assert(added_upto(a, b, b.len() as int).contains(t)) by {
                                        assert(added_at(a, b, t));
                                    }
                                    let w = choose|w: int|
                                        0 <= w < added_upto(a, b, b.len() as int).len()
                                            && added_upto(a, b, b.len() as int)[w] == t;
                                    assert(added_upto(a, b, b.len() as int)[w] >= a.len());
                                }
                                if unchanged_at(a, b, bp) {
                                    assert(bp < a.len());
                                    assert(false);
                                }
                                if moved_to(a, b, bp) {
                                    let f = a.index_of(b[bp]);
                                    assert(a[f] == b[bp]);
                                    assert(b.index_of(a[f]) == bp) by {
                                        lemma_index_of_distinct(b, bp);
                                    }
                                    assert(crate::diff::moved_upto(a, b, a.len() as int).contains(
                                        (f, bp),
                                    ));
                                    assert(false);
                                }
                                let v = choose|v: int| 0 <= v < u && (add_cmds@[v]).at == bp;
                                assert(add_cmds@[v].at < d.at);
                                assert(false);
                            }
                        }
                    }
                    lemma_sorted_insert(tree@, b, children@, key, q);
                    lemma_insert_membership(tree@, key, q);
                    assert(tree@.insert(q, key) =~= tree@.push(key));
                }
                tree.insert_at_end(key);
            },
        }
        children.set(d.at, Some(ChildSlot { key }));
        index_items.set(d.at, Some(IndexCell { value: d.at }));
        proof {
            assert forall|i: int|
                0 <= i < children@.len() implies ((#[trigger] children@[i]) is Some <==> (
            unchanged_at(a, b, i) || moved_to(a, b, i) || exists|v: int|
                0 <= v < u + 1 && (#[trigger] add_cmds@[v]).at == i)) by {
                if i == t {
                    assert(add_cmds@[u as int].at == i);
                }
            }
            assert forall|k2: u64|
                (tree@.contains(k2) <==> ((a.contains(k2) && b.contains(k2)) || exists|v: int|
                    0 <= v < u + 1 && b[(#[trigger] add_cmds@[v]).at as int] == k2)) by {
                if k2 == key {
                    assert(b[add_cmds@[u as int].at as int] == k2);
                }
            }
        }
    }
    proof {
        assert forall|i: int|
            0 <= i < children@.len() implies ((#[trigger] children@[i]) is Some <==> i
            < b.len()) by {
            if i < b.len() {
                if a.contains(b[i]) {
                    let f = a.index_of(b[i]);
                    if f == i {
                        assert(a[f] == b[i]);
                        assert(unchanged_at(a, b, i));
                    } else {
                        assert(moved_to(a, b, i));
                    }
                } else {
                    assert(added_at(a, b, i));
                    assert(exists|v: int| 0 <= v < na && (#[trigger] add_cmds@[v]).at == i);
                }
            } else {
                if children@[i] is Some {
                    if unchanged_at(a, b, i) {
                        assert(i < b.len());
                    }
                }
            }
        }
        assert forall|k: u64| (tree@.contains(k) <==> b.contains(k)) by {
            if b.contains(k) {
                let i = b.index_of(k);
                assert(b[i] == k);
                if a.contains(k) {
                } else {
                    assert(added_at(a, b, i));
                    let v = choose|v: int| 0 <= v < na && (#[trigger] add_cmds@[v]).at == i;
                    assert(b[add_cmds@[v].at as int] == k);
                }
            }
        }
        assert forall|p1: int, p2: int|
            0 <= p1 < p2 < tree@.len() implies b.index_of(#[trigger] tree@[p1]) < b.index_of(
            #[trigger] tree@[p2],
        ) by {
            assert(tree@.contains(tree@[p1]));
            assert(tree@.contains(tree@[p2]));
            assert(filled_key(b, children@, tree@[p1])) by {
                assert(b.contains(tree@[p1]));
                assert(children@[b.index_of(tree@[p1])] is Some);
            }
            assert(filled_key(b, children@, tree@[p2])) by {
                assert(b.contains(tree@[p2]));
                assert(children@[b.index_of(tree@[p2])] is Some);
            }
        }
        lemma_tree_complete(tree@, b);
    }
}

/// Executes an edit script against the child-state array, the index-cell
/// array and the host tree, in the fixed operation order: clear, removals,
/// move-outs, resize, move-ins, additions, hole pruning. Afterwards the
/// children, the index cells and the host tree all follow the new key order.
#[verifier::loop_isolation(false)]
#[verifier::rlimit(100)]
pub fn apply_diff(
    tree: &mut HostTree,
    script: &EditScript,
    old_keys: &KeySeq,
    new_keys: &KeySeq,
    children: &mut Vec<Option<ChildSlot>>,
    index_items: &mut Vec<Option<IndexCell>>,
)
    requires
        old_keys.wf(),
        new_keys.wf(),
        is_diff_of(*script, old_keys@, new_keys@),
        old(tree)@ == old_keys@,
        slots_match(old(children)@, old_keys@),
        cells_match(old(index_items)@, old_keys@.len() as int),
    ensures
        slots_match(final(children)@, new_keys@),
        cells_match(final(index_items)@, new_keys@.len() as int),
        final(tree)@ == new_keys@,
{
    let ghost a = old_keys@;
    let ghost b = new_keys@;
    proof {
        old_keys.lemma_wf_distinct();
        new_keys.lemma_wf_distinct();
        lemma_added_props(a, b, b.len() as int);
    }

    // 1. Clear: when nothing survives, unmount everything at once; if
    // nothing is added either, the pass is done.
    if script.clear {
        proof {
            lemma_removed_all(a, b, a.len() as int);
            assert forall|k: u64| !(a.contains(k) && b.contains(k)) by {
                if a.contains(k) {
                    let i = a.index_of(k);
                    assert(a[i] == k);
                }
            }
        }
        phase_clear(tree, children, index_items, Ghost(a));
        if script.added.len() == 0 {
            proof {
                assert(b.len() == 0) by {
                    if b.len() > 0 {
                        let j: int = 0;
                        if a.contains(b[j]) {
                            assert(b.contains(b[j]));
                        } else {
                            assert(added_upto(a, b, b.len() as int).contains(j));
                            assert(crate::diff::added_posns(*script).len() == 0);
                        }
                    }
                }
                assert(b =~= Seq::<u64>::empty());
                assert(slots_match(children@, b));
                assert(cells_match(index_items@, b.len() as int));
                assert(tree@ =~= b);
            }
            return ;
        }
    } else {
        // 2. Removals.
        phase_remove(tree, script, children, index_items, Ghost(a), Ghost(b));
    }
    proof {
        if script.clear {
            assert forall|i: int|
                0 <= i < children@.len() implies ((#[trigger] children@[i]) is Some <==> b.contains(
                a[i],
            )) by {}
            assert(tree_survivors(tree@, a, b)) by {
                assert forall|k: u64| (tree@.contains(k) <==> (a.contains(k) && b.contains(k))) by {
                    assert(!tree@.contains(k));
                }
            }
            assert(tree_a_ordered(tree@, a));
        }
    }

    // 3. Unpack the moved set into ordered commands and move every moved
    // child out of its old slot.
    let unpacked = unpack_moves(script, old_keys, new_keys);
    let move_cmds = unpacked.0;
    let add_cmds = unpacked.1;
    proof {
        lemma_cmds_facts(move_cmds@, a, b);
        if script.clear {
            assert(move_cmds@.len() == 0) by {
                if move_cmds@.len() > 0 {
                    assert(a[move_cmds@[0].from as int] == b[move_cmds@[0].to as int]);
                    assert(a.contains(a[move_cmds@[0].from as int]));
                    assert(b.contains(b[move_cmds@[0].to as int]));
                    assert(!(a.contains(a[move_cmds@[0].from as int]) && b.contains(
                        a[move_cmds@[0].from as int],
                    )));
                }
            }
        }
    }
    let r = phase_moveout(&move_cmds, children, index_items, Ghost(a), Ghost(b));
    let mut moved_children = r.0;
    let mut moved_cells = r.1;

    // 4. Resize the slot and cell arrays to the new length.
    let nb = new_keys.len();
    proof {
        assert forall|i: int| unchanged_at(a, b, i) implies i < children@.len() by {
            if script.clear {
                assert(a.contains(a[i]) && b.contains(b[i]));
            }
        }
    }
    phase_resize(children, index_items, nb, Ghost(a), Ghost(b));

    // 5. Move in: rebinds first, then the physical relocations.
    phase_movein_logical(
        &move_cmds,
        children,
        index_items,
        &mut moved_children,
        &mut moved_cells,
        Ghost(a),
        Ghost(b),
    );
    proof {
        // The children that were never taken out of the host tree already
        // stand in the new relative order.
        assert forall|p: int| 0 <= p < tree@.len() implies a.contains(#[trigger] tree@[p]) by {
            assert(tree@.contains(tree@[p]));
        }
        let ch5 = children@;
        let cmds = move_cmds@;
        let nm = cmds.len();
        assert forall|i: int|
            0 <= i < ch5.len() && (#[trigger] ch5[i]) is Some implies i < b.len() && a.contains(
            b[i],
        ) by {
            if unchanged_at(a, b, i) {
                assert(a.contains(a[i]));
            } else {
                let v = choose|v: int| 0 <= v < nm && !(#[trigger] cmds[v]).physical && cmds[v].to == i;
                assert(a.contains(a[cmds[v].from as int]));
            }
        }
        assert forall|i: int|
            0 <= i < ch5.len() && (#[trigger] ch5[i]) is Some && a.index_of(b[i])
                != i implies span_free(a, b, a.index_of(b[i]), i) by {
            if unchanged_at(a, b, i) {
                lemma_index_of_distinct(a, i);
            } else {
                let v = choose|v: int| 0 <= v < nm && !(#[trigger] cmds[v]).physical && cmds[v].to == i;
                assert(span_free(a, b, cmds[v].from as int, cmds[v].to as int));
                assert(a.index_of(b[i]) == cmds[v].from as int);
            }
        }
        assert forall|i1: int, i2: int|
            0 <= i1 < i2 < ch5.len() && (#[trigger] ch5[i1]) is Some && (#[trigger] ch5[i2])
                is Some && a.index_of(b[i1]) != i1 && a.index_of(b[i2]) != i2 implies a.index_of(
            b[i1],
        ) < a.index_of(b[i2]) by {
            assert(!unchanged_at(a, b, i1)) by {
                if unchanged_at(a, b, i1) {
                    lemma_index_of_distinct(a, i1);
                }
            }
            assert(!unchanged_at(a, b, i2)) by {
                if unchanged_at(a, b, i2) {
                    lemma_index_of_distinct(a, i2);
                }
            }
            let v1 = choose|v: int| 0 <= v < nm && !(#[trigger] cmds[v]).physical && cmds[v].to == i1;
            let v2 = choose|v: int| 0 <= v < nm && !(#[trigger] cmds[v]).physical && cmds[v].to == i2;
            assert(v1 < v2) by {
                if v2 < v1 {
                    assert(cmds[v2].to < cmds[v1].to);
                } else if v1 == v2 {
                    assert(cmds[v1].to == i1);
                }
            }
            assert(cmds[v1].from < cmds[v2].from);
            assert(a.index_of(b[i1]) == cmds[v1].from as int);
            assert(a.index_of(b[i2]) == cmds[v2].from as int);
        }
        lemma_sorted_from_a_order(a, b, tree@, ch5);
    }
    phase_movein_physical(
        tree,
        &move_cmds,
        children,
        index_items,
        &mut moved_children,
        &mut moved_cells,
        Ghost(a),
        Ghost(b),
    );

    // 6. Additions.
    phase_add(tree, script, &add_cmds, new_keys, children, index_items, Ghost(a));

    // 7. Prune holes: a defensive pass; in a correct pass the holes are
    // exactly the slots past the new length.
    let ghost pre_ch = children@;
    let ghost pre_cells = index_items@;
    let n_all = children.len();
    let mut kept_children: Vec<Option<ChildSlot>> = Vec::new();
    let mut kept_cells: Vec<Option<IndexCell>> = Vec::new();
    for i in 0..n_all
        invariant
            children@ == pre_ch,
            index_items@ == pre_cells,
            kept_children@ == pre_ch.take(
                if i as int <= b.len() as int {
                    i as int
                } else {
                    b.len() as int
                },
            ),
            kept_cells@ == pre_cells.take(
                if i as int <= b.len() as int {
                    i as int
                } else {
                    b.len() as int
                },
            ),
    {
        match children[i] {
            Some(c) => {
                kept_children.push(Some(c));
                proof {
                    assert(i < b.len());
                    assert(kept_children@ =~= pre_ch.take(i + 1));
                }
            },
            None => {
                proof {
                    assert(i >= b.len());
                }
            },
        }
        match index_items[i] {
            Some(c) => {
                kept_cells.push(Some(c));
                proof {
                    assert(kept_cells@ =~= pre_cells.take(i + 1));
                }
            },
            None => {},
        }
    }
    *children = kept_children;
    *index_items = kept_cells;
    proof {
        assert(children@ =~= pre_ch.take(b.len() as int));
        assert(index_items@ =~= pre_cells.take(b.len() as int));
        assert(slots_match(children@, b));
        assert(cells_match(index_items@, b.len() as int));
    }
}

/// The next still-mounted sibling after slot `at`: the first filled slot
/// past it, if any.
pub fn next_filled(children: &Vec<Option<ChildSlot>>, at: usize) -> (r: Option<(usize, ChildSlot)>)
    ensures
        match r {
            Some((s, c)) => {
                &&& at < s < children@.len()
                &&& children@[s as int] == Some(c)
                &&& forall|j: int| at < j < s ==> children@[j] is None
            },
            None => forall|j: int| at < j < children@.len() ==> children@[j] is None,
        },
{
    let n = children.len();
    if at >= n {
        return None;
    }
    let mut s = at + 1;
    while s < n
        invariant
            n == children@.len(),
            at < s <= n || (s == n),
            forall|j: int| at < j < s ==> children@[j] is None,
        decreases n - s,
    {
        match children[s] {
            Some(c) => {
                return Some((s, c));
            },
            None => {},
        }
        s += 1;
    }
    None
}

} // verus!
