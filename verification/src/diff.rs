use vstd::prelude::*;
use crate::key_seq::KeySeq;

verus! {

/// How an added child is mounted: `Normal` inserts before the next
/// still-present sibling, `Append` goes straight to the end of the list.
#[derive(Clone, Copy, Debug, PartialEq, Eq, Structural)]
pub enum AddMode {
    Normal,
    Append,
}

/// An old position whose key disappeared.
#[derive(Clone, Copy, Debug, PartialEq, Eq, Structural)]
pub struct RemoveOp {
    pub at: usize,
}

/// A key present in both sequences whose position changed.
#[derive(Clone, Copy, Debug, PartialEq, Eq, Structural)]
pub struct MoveOp {
    pub from: usize,
    pub to: usize,
}

/// A key new to this pass, with its chosen insertion mode.
#[derive(Clone, Copy, Debug, PartialEq, Eq, Structural)]
pub struct AddOp {
    pub at: usize,
    pub mode: AddMode,
}

/// The edit script transforming the old key order into the new one.
#[derive(Debug)]
pub struct EditScript {
    pub clear: bool,
    pub removed: Vec<RemoveOp>,
    pub moved: Vec<MoveOp>,
    pub added: Vec<AddOp>,
}

/// Old positions in `[0, n)` whose key does not survive into `b`, ascending.
pub open spec fn removed_upto(a: Seq<u64>, b: Seq<u64>, n: int) -> Seq<int>
    decreases n,
{
    if n <= 0 {
        Seq::empty()
    } else if !b.contains(a[n - 1]) {
        removed_upto(a, b, n - 1).push(n - 1)
    } else {
        removed_upto(a, b, n - 1)
    }
}

/// Pairs (old position, new position) of surviving keys in `[0, n)` whose
/// position changed, ascending by old position.
pub open spec fn moved_upto(a: Seq<u64>, b: Seq<u64>, n: int) -> Seq<(int, int)>
    decreases n,
{
    if n <= 0 {
        Seq::empty()
    } else if b.contains(a[n - 1]) && b.index_of(a[n - 1]) != n - 1 {
        moved_upto(a, b, n - 1).push((n - 1, b.index_of(a[n - 1])))
    } else {
        moved_upto(a, b, n - 1)
    }
}

/// New positions in `[0, n)` whose key was not present before, ascending.
pub open spec fn added_upto(a: Seq<u64>, b: Seq<u64>, n: int) -> Seq<int>
    decreases n,
{
    if n <= 0 {
        Seq::empty()
    } else if !a.contains(b[n - 1]) {
        added_upto(a, b, n - 1).push(n - 1)
    } else {
        added_upto(a, b, n - 1)
    }
}

/// The whole list is discarded: there was something, and nothing survives.
pub open spec fn spec_clear(a: Seq<u64>, b: Seq<u64>) -> bool {
    a.len() > 0 && removed_upto(a, b, a.len() as int).len() == a.len()
}

/// Every addition provably lands at the tail, so the cheap `Append` mode is
/// equivalent to `Normal` and is chosen for all of them.
pub open spec fn spec_append_mode(a: Seq<u64>, b: Seq<u64>) -> bool {
    ||| a.len() == 0
    ||| spec_clear(a, b)
    ||| {
        &&& removed_upto(a, b, a.len() as int).len() == 0
        &&& moved_upto(a, b, a.len() as int).len() == 0
        &&& forall|t: int|
            0 <= t < added_upto(a, b, b.len() as int).len() ==> #[trigger] added_upto(
                a,
                b,
                b.len() as int,
            )[t] >= a.len()
    }
}

/// What each entry of the removed list is, that the list is ascending, and
/// that it misses no removed position.
pub proof fn lemma_removed_props(a: Seq<u64>, b: Seq<u64>, n: int)
    ensures
        forall|t: int|
            0 <= t < removed_upto(a, b, n).len() ==> {
                &&& 0 <= #[trigger] removed_upto(a, b, n)[t] < n
                &&& !b.contains(a[removed_upto(a, b, n)[t]])
            },
        forall|i: int| 0 <= i < n && !b.contains(a[i]) ==> removed_upto(a, b, n).contains(i),
        forall|t1: int, t2: int|
            0 <= t1 < t2 < removed_upto(a, b, n).len() ==> #[trigger] removed_upto(a, b, n)[t1]
                < #[trigger] removed_upto(a, b, n)[t2],
        n >= 0 ==> removed_upto(a, b, n).len() <= n,
    decreases n,
{
    if n > 0 {
        lemma_removed_props(a, b, n - 1);
        assert forall|i: int| 0 <= i < n && !b.contains(a[i]) implies removed_upto(
            a,
            b,
            n,
        ).contains(i) by {
            if i < n - 1 {
                assert(removed_upto(a, b, n - 1).contains(i));
                let t = removed_upto(a, b, n - 1).index_of(i);
                assert(removed_upto(a, b, n - 1)[t] == i);
                assert(removed_upto(a, b, n)[t] == i);
            } else {
                assert(removed_upto(a, b, n).last() == i);
            }
        }
    }
}

/// The removed list covers everything exactly when no old key survives.
pub proof fn lemma_removed_all(a: Seq<u64>, b: Seq<u64>, n: int)
    requires
        0 <= n <= a.len(),
    ensures
        removed_upto(a, b, n).len() == n <==> forall|i: int| 0 <= i < n ==> !b.contains(#[trigger] a[i]),
    decreases n,
{
    lemma_removed_props(a, b, n);
    if n > 0 {
        lemma_removed_all(a, b, n - 1);
        lemma_removed_props(a, b, n - 1);
    }
}

/// What each moved pair is, ascending order by old position, and
/// completeness: every displaced surviving key is listed.
pub proof fn lemma_moved_props(a: Seq<u64>, b: Seq<u64>, n: int)
    ensures
        forall|t: int|
            0 <= t < moved_upto(a, b, n).len() ==> {
                &&& 0 <= #[trigger] moved_upto(a, b, n)[t].0 < n
                &&& b.contains(a[moved_upto(a, b, n)[t].0])
                &&& moved_upto(a, b, n)[t].1 == b.index_of(a[moved_upto(a, b, n)[t].0])
                &&& moved_upto(a, b, n)[t].1 != moved_upto(a, b, n)[t].0
            },
        forall|i: int|
            0 <= i < n && b.contains(#[trigger] a[i]) && b.index_of(a[i]) != i ==> moved_upto(
                a,
                b,
                n,
            ).contains((i, b.index_of(a[i]))),
        forall|t1: int, t2: int|
            0 <= t1 < t2 < moved_upto(a, b, n).len() ==> #[trigger] moved_upto(a, b, n)[t1].0
                < #[trigger] moved_upto(a, b, n)[t2].0,
    decreases n,
{
    if n > 0 {
        lemma_moved_props(a, b, n - 1);
        assert forall|t: int|
            0 <= t < moved_upto(a, b, n).len() implies {
            &&& 0 <= #[trigger] moved_upto(a, b, n)[t].0 < n
            &&& b.contains(a[moved_upto(a, b, n)[t].0])
            &&& moved_upto(a, b, n)[t].1 == b.index_of(a[moved_upto(a, b, n)[t].0])
            &&& moved_upto(a, b, n)[t].1 != moved_upto(a, b, n)[t].0
        } by {
            if t < moved_upto(a, b, n - 1).len() {
                assert(moved_upto(a, b, n)[t] == moved_upto(a, b, n - 1)[t]);
            } else {
                assert(moved_upto(a, b, n)[t] == (n - 1, b.index_of(a[n - 1])));
            }
        }
        assert forall|t1: int, t2: int|
            0 <= t1 < t2 < moved_upto(a, b, n).len() implies #[trigger] moved_upto(a, b, n)[t1].0
            < #[trigger] moved_upto(a, b, n)[t2].0 by {
            assert(moved_upto(a, b, n)[t1] == moved_upto(a, b, n - 1)[t1]);
            if t2 < moved_upto(a, b, n - 1).len() {
                assert(moved_upto(a, b, n)[t2] == moved_upto(a, b, n - 1)[t2]);
            } else {
                assert(moved_upto(a, b, n)[t2] == (n - 1, b.index_of(a[n - 1])));
            }
        }
        assert forall|i: int|
            0 <= i < n && b.contains(#[trigger] a[i]) && b.index_of(a[i]) != i implies moved_upto(
            a,
            b,
            n,
        ).contains((i, b.index_of(a[i]))) by {
            if i < n - 1 {
                assert(moved_upto(a, b, n - 1).contains((i, b.index_of(a[i]))));
                let t = moved_upto(a, b, n - 1).index_of((i, b.index_of(a[i])));
                assert(moved_upto(a, b, n - 1)[t] == (i, b.index_of(a[i])));
                assert(moved_upto(a, b, n)[t] == (i, b.index_of(a[i])));
            } else {
                assert(moved_upto(a, b, n).last() == (i, b.index_of(a[i])));
            }
        }
    }
}

/// What each added position is, ascending order, and completeness.
pub proof fn lemma_added_props(a: Seq<u64>, b: Seq<u64>, n: int)
    ensures
        forall|t: int|
            0 <= t < added_upto(a, b, n).len() ==> {
                &&& 0 <= #[trigger] added_upto(a, b, n)[t] < n
                &&& !a.contains(b[added_upto(a, b, n)[t]])
            },
        forall|j: int| 0 <= j < n && !a.contains(b[j]) ==> added_upto(a, b, n).contains(j),
        forall|t1: int, t2: int|
            0 <= t1 < t2 < added_upto(a, b, n).len() ==> #[trigger] added_upto(a, b, n)[t1]
                < #[trigger] added_upto(a, b, n)[t2],
    decreases n,
{
    if n > 0 {
        lemma_added_props(a, b, n - 1);
        assert forall|t: int|
            0 <= t < added_upto(a, b, n).len() implies {
            &&& 0 <= #[trigger] added_upto(a, b, n)[t] < n
            &&& !a.contains(b[added_upto(a, b, n)[t]])
        } by {
            if t < added_upto(a, b, n - 1).len() {
                assert(added_upto(a, b, n)[t] == added_upto(a, b, n - 1)[t]);
            } else {
                assert(added_upto(a, b, n)[t] == n - 1);
            }
        }
        assert forall|t1: int, t2: int|
            0 <= t1 < t2 < added_upto(a, b, n).len() implies #[trigger] added_upto(a, b, n)[t1]
            < #[trigger] added_upto(a, b, n)[t2] by {
            assert(added_upto(a, b, n)[t1] == added_upto(a, b, n - 1)[t1]);
            if t2 < added_upto(a, b, n - 1).len() {
                assert(added_upto(a, b, n)[t2] == added_upto(a, b, n - 1)[t2]);
            } else {
                assert(added_upto(a, b, n)[t2] == n - 1);
            }
        }
        assert forall|j: int| 0 <= j < n && !a.contains(b[j]) implies added_upto(
            a,
            b,
            n,
        ).contains(j) by {
            if j < n - 1 {
                assert(added_upto(a, b, n - 1).contains(j));
                let t = added_upto(a, b, n - 1).index_of(j);
                assert(added_upto(a, b, n - 1)[t] == j);
                assert(added_upto(a, b, n)[t] == j);
            } else {
                assert(added_upto(a, b, n).last() == j);
            }
        }
    }
}

pub open spec fn removed_posns(s: EditScript) -> Seq<int> {
    s.removed@.map_values(|r: RemoveOp| r.at as int)
}

pub open spec fn moved_pairs(s: EditScript) -> Seq<(int, int)> {
    s.moved@.map_values(|m: MoveOp| (m.from as int, m.to as int))
}

pub open spec fn added_posns(s: EditScript) -> Seq<int> {
    s.added@.map_values(|d: AddOp| d.at as int)
}

/// `s` is exactly the edit script that the diff computer owes for old order
/// `a` and new order `b`.
pub open spec fn is_diff_of(s: EditScript, a: Seq<u64>, b: Seq<u64>) -> bool {
    &&& removed_posns(s) == removed_upto(a, b, a.len() as int)
    &&& moved_pairs(s) == moved_upto(a, b, a.len() as int)
    &&& added_posns(s) == added_upto(a, b, b.len() as int)
    &&& s.clear == spec_clear(a, b)
    &&& forall|t: int|
        0 <= t < s.added@.len() ==> (#[trigger] s.added@[t]).mode == (if spec_append_mode(a, b) {
            AddMode::Append
        } else {
            AddMode::Normal
        })
}

/// Classifies every old position as removed, moved or unchanged and every new
/// position as moved or added; sets the clear fast path and the add modes.
pub fn diff(old: &KeySeq, new: &KeySeq) -> (script: EditScript)
    requires
        old.wf(),
        new.wf(),
    ensures
        is_diff_of(script, old@, new@),
{
    let mut removed: Vec<RemoveOp> = Vec::new();
    let mut moved: Vec<MoveOp> = Vec::new();
    let n_old = old.len();
    for i in 0..n_old
        invariant
            old.wf(),
            new.wf(),
            n_old == old@.len(),
            removed@.map_values(|r: RemoveOp| r.at as int) == removed_upto(old@, new@, i as int),
            moved@.map_values(|m: MoveOp| (m.from as int, m.to as int)) == moved_upto(
                old@,
                new@,
                i as int,
            ),
    {
        let k = old.key_at(i);
        match new.index_of(k) {
            None => {
                removed.push(RemoveOp { at: i });
                proof {
                    assert(removed@.map_values(|r: RemoveOp| r.at as int) =~= removed_upto(
                        old@,
                        new@,
                        i + 1,
                    ));
                }
            },
            Some(j) => {
                if j != i {
                    moved.push(MoveOp { from: i, to: j });
                }
                proof {
                    assert(moved@.map_values(|m: MoveOp| (m.from as int, m.to as int))
                        =~= moved_upto(old@, new@, i + 1));
                }
            },
        }
    }
    let mut added: Vec<AddOp> = Vec::new();
    let mut all_tail: bool = true;
    let n_new = new.len();
    for j in 0..n_new
        invariant
            old.wf(),
            new.wf(),
            n_old == old@.len(),
            n_new == new@.len(),
            added@.map_values(|d: AddOp| d.at as int) == added_upto(old@, new@, j as int),
            forall|t: int| 0 <= t < added@.len() ==> (#[trigger] added@[t]).mode == AddMode::Normal,
            all_tail ==> forall|t: int|
                0 <= t < added@.len() ==> (#[trigger] added@[t]).at >= n_old,
            !all_tail ==> exists|t: int| 0 <= t < added@.len() && (#[trigger] added@[t]).at < n_old,
    {
        let k = new.key_at(j);
        if !old.contains(k) {
            let ghost was_tail = all_tail;
            let ghost prev = added@;
            if j < n_old {
                all_tail = false;
            }
            added.push(AddOp { at: j, mode: AddMode::Normal });
            proof {
                if !was_tail {
                    let t = choose|t: int| 0 <= t < prev.len() && (#[trigger] prev[t]).at < n_old;
                    assert(added@[t].at < n_old);
                } else if j < n_old {
                    assert(added@[added@.len() - 1].at < n_old);
                }
            }
        }
        proof {
            assert(added@.map_values(|d: AddOp| d.at as int) =~= added_upto(old@, new@, j + 1));
        }
    }
    let clear = n_old > 0 && removed.len() == n_old;
    let append = n_old == 0 || clear || (removed.len() == 0 && moved.len() == 0 && all_tail);
    proof {
        assert(removed@.map_values(|r: RemoveOp| r.at as int).len() == removed@.len());
        assert(moved@.map_values(|m: MoveOp| (m.from as int, m.to as int)).len() == moved@.len());
        let sa = added_upto(old@, new@, new@.len() as int);
        assert(forall|t: int|
            0 <= t < added@.len() ==> sa[t] == (#[trigger] added@[t]).at as int);
        if append {
            assert(spec_append_mode(old@, new@));
        } else {
            if !(n_old == 0 || clear || (removed.len() == 0 && moved.len() == 0)) {
                assert(!spec_append_mode(old@, new@));
            } else {
                let t = choose|t: int| 0 <= t < added@.len() && (#[trigger] added@[t]).at < n_old;
                assert(sa[t] < old@.len());
                assert(!spec_append_mode(old@, new@));
            }
        }
        assert(append == spec_append_mode(old@, new@));
    }
    if append {
        let m = added.len();
        for t in 0..m
            invariant
                m == added@.len(),
                added@.map_values(|d: AddOp| d.at as int) == added_upto(
                    old@,
                    new@,
                    new@.len() as int,
                ),
                forall|u: int|
                    0 <= u < t ==> (#[trigger] added@[u]).mode == AddMode::Append,
                forall|u: int|
                    t <= u < m ==> (#[trigger] added@[u]).mode == AddMode::Normal,
        {
            let at = added[t].at;
            added.set(t, AddOp { at, mode: AddMode::Append });
            proof {
                assert(added@.map_values(|d: AddOp| d.at as int) =~= added_upto(
                    old@,
                    new@,
                    new@.len() as int,
                ));
            }
        }
    }
    EditScript { clear, removed, moved, added }
}

} // verus!
