use vstd::prelude::*;
use crate::key_seq::{KeySeq, lemma_index_of_distinct};
use crate::diff::{AddOp, EditScript, is_diff_of};

verus! {

/// One move command: take the child at old position `from` to new position
/// `to`. `physical` is false when the node's relative order among the
/// children that stay in place is already right, so only the index binding
/// needs updating; it is true when the node must be relocated in the host
/// tree.
#[derive(Clone, Copy, Debug, PartialEq, Eq, Structural)]
pub struct MoveCmd {
    pub from: usize,
    pub to: usize,
    pub physical: bool,
}

/// Pairs (old position, new position) of surviving keys whose position
/// changed, ascending by new position `< n`.
pub open spec fn moved_by_to(a: Seq<u64>, b: Seq<u64>, n: int) -> Seq<(int, int)>
    decreases n,
{
    if n <= 0 {
        Seq::empty()
    } else if a.contains(b[n - 1]) && a.index_of(b[n - 1]) != n - 1 {
        moved_by_to(a, b, n - 1).push((a.index_of(b[n - 1]), n - 1))
    } else {
        moved_by_to(a, b, n - 1)
    }
}

/// Position `v` holds the same key before and after the pass; such a child is
/// neither moved nor removed and must keep its place.
pub open spec fn unchanged_at(a: Seq<u64>, b: Seq<u64>, v: int) -> bool {
    0 <= v < a.len() && v < b.len() && a[v] == b[v]
}

/// No stationary sibling sits strictly between the old and the new position
/// of a move, so skipping the relocation cannot disturb a stationary child.
pub open spec fn span_free(a: Seq<u64>, b: Seq<u64>, f: int, t: int) -> bool {
    forall|v: int|
        (if f < t {
            f < v < t
        } else {
            t < v < f
        }) ==> !unchanged_at(a, b, v)
}

/// What each pair of `moved_by_to` is, that the list ascends by new
/// position, and that it misses no displaced surviving key.
pub proof fn lemma_moved_by_to_props(a: Seq<u64>, b: Seq<u64>, n: int)
    requires
        a.no_duplicates(),
        b.no_duplicates(),
        n <= b.len(),
    ensures
        forall|t: int|
            0 <= t < moved_by_to(a, b, n).len() ==> {
                &&& 0 <= #[trigger] moved_by_to(a, b, n)[t].0 < a.len()
                &&& 0 <= moved_by_to(a, b, n)[t].1 < n
                &&& a[moved_by_to(a, b, n)[t].0] == b[moved_by_to(a, b, n)[t].1]
                &&& moved_by_to(a, b, n)[t].0 != moved_by_to(a, b, n)[t].1
            },
        forall|t1: int, t2: int|
            0 <= t1 < t2 < moved_by_to(a, b, n).len() ==> #[trigger] moved_by_to(a, b, n)[t1].1
                < #[trigger] moved_by_to(a, b, n)[t2].1,
        forall|f: int, t: int|
            0 <= f < a.len() && 0 <= t < n && a[f] == b[t] && f != t ==> moved_by_to(
                a,
                b,
                n,
            ).contains((f, t)),
    decreases n,
{
    if n > 0 {
        lemma_moved_by_to_props(a, b, n - 1);
        if a.contains(b[n - 1]) {
            lemma_index_of_distinct(a, a.index_of(b[n - 1]));
        }
        assert forall|t: int|
            0 <= t < moved_by_to(a, b, n).len() implies {
            &&& 0 <= #[trigger] moved_by_to(a, b, n)[t].0 < a.len()
            &&& 0 <= moved_by_to(a, b, n)[t].1 < n
            &&& a[moved_by_to(a, b, n)[t].0] == b[moved_by_to(a, b, n)[t].1]
            &&& moved_by_to(a, b, n)[t].0 != moved_by_to(a, b, n)[t].1
        } by {
            if t < moved_by_to(a, b, n - 1).len() {
                assert(moved_by_to(a, b, n)[t] == moved_by_to(a, b, n - 1)[t]);
            } else {
                assert(moved_by_to(a, b, n)[t] == (a.index_of(b[n - 1]), n - 1));
                assert(a[a.index_of(b[n - 1])] == b[n - 1]);
            }
        }
        assert forall|t1: int, t2: int|
            0 <= t1 < t2 < moved_by_to(a, b, n).len() implies #[trigger] moved_by_to(a, b, n)[t1].1
            < #[trigger] moved_by_to(a, b, n)[t2].1 by {
            assert(moved_by_to(a, b, n)[t1] == moved_by_to(a, b, n - 1)[t1]);
            if t2 < moved_by_to(a, b, n - 1).len() {
                assert(moved_by_to(a, b, n)[t2] == moved_by_to(a, b, n - 1)[t2]);
            } else {
                assert(moved_by_to(a, b, n)[t2] == (a.index_of(b[n - 1]), n - 1));
                assert(0 <= moved_by_to(a, b, n - 1)[t1].0);
                assert(moved_by_to(a, b, n - 1)[t1].1 < n - 1);
            }
        }
        assert forall|f: int, t: int|
            0 <= f < a.len() && 0 <= t < n && a[f] == b[t] && f != t implies moved_by_to(
            a,
            b,
            n,
        ).contains((f, t)) by {
            if t < n - 1 {
                assert(moved_by_to(a, b, n - 1).contains((f, t)));
                let u = moved_by_to(a, b, n - 1).index_of((f, t));
                assert(moved_by_to(a, b, n - 1)[u] == (f, t));
                assert(moved_by_to(a, b, n)[u] == (f, t));
            } else {
                assert(a.contains(b[n - 1]));
                lemma_index_of_distinct(a, f);
                assert(a.index_of(b[n - 1]) == f);
                assert(moved_by_to(a, b, n).last() == (f, t));
            }
        }
    }
}

/// How many entries of `s` are set.
pub open spec fn count_true(s: Seq<bool>) -> int
    decreases s.len(),
{
    if s.len() == 0 {
        0
    } else {
        count_true(s.drop_last()) + if s.last() {
            1int
        } else {
            0int
        }
    }
}

/// How many of the move commands stay put.
pub open spec fn count_kept(cmds: Seq<MoveCmd>) -> int
    decreases cmds.len(),
{
    if cmds.len() == 0 {
        0
    } else {
        count_kept(cmds.drop_last()) + if !cmds.last().physical {
            1int
        } else {
            0int
        }
    }
}

proof fn lemma_count_true_all_false(s: Seq<bool>)
    requires
        forall|i: int| 0 <= i < s.len() ==> !s[i],
    ensures
        count_true(s) == 0,
    decreases s.len(),
{
    if s.len() > 0 {
        lemma_count_true_all_false(s.drop_last());
    }
}

proof fn lemma_count_true_update(s: Seq<bool>, i: int)
    requires
        0 <= i < s.len(),
        !s[i],
    ensures
        count_true(s.update(i, true)) == count_true(s) + 1,
    decreases s.len(),
{
    let s2 = s.update(i, true);
    if i == s.len() - 1 {
        assert(s2.drop_last() =~= s.drop_last());
    } else {
        assert(s2.drop_last() =~= s.drop_last().update(i, true));
        lemma_count_true_update(s.drop_last(), i);
    }
}

/// A choice of move commands that could legally stay put together:
/// ascending destinations, none spanning a stationary sibling, and their
/// old relative order already matching.
pub open spec fn valid_stay_chain(a: Seq<u64>, b: Seq<u64>, cmds: Seq<MoveCmd>, sel: Seq<int>) -> bool {
    &&& forall|t: int| 0 <= t < sel.len() ==> 0 <= #[trigger] sel[t] < cmds.len()
    &&& forall|t1: int, t2: int|
        0 <= t1 < t2 < sel.len() ==> #[trigger] sel[t1] < #[trigger] sel[t2]
    &&& forall|t: int|
        0 <= t < sel.len() ==> span_free(
            a,
            b,
            cmds[#[trigger] sel[t]].from as int,
            cmds[sel[t]].to as int,
        )
    &&& forall|t1: int, t2: int|
        0 <= t1 < t2 < sel.len() ==> cmds[#[trigger] sel[t1]].from < cmds[#[trigger] sel[t2]].from
}

/// Any chain of stay-put candidates is no longer than the chain the
/// search table records at the candidate's last element.
proof fn lemma_chain_bound(moves: Seq<MoveCmd>, allowed: Seq<bool>, dp: Seq<usize>, sel: Seq<int>)
    requires
        allowed.len() == moves.len(),
        dp.len() == moves.len(),
        forall|t: int| 0 <= t < moves.len() && allowed[t] ==> #[trigger] dp[t] >= 1,
        forall|t: int, j: int|
            #![trigger dp[t], dp[j]]
            0 <= j < t < moves.len() && allowed[t] && allowed[j] && moves[j].from < moves[t].from
                ==> dp[t] >= dp[j] + 1,
        forall|t: int| 0 <= t < sel.len() ==> 0 <= #[trigger] sel[t] < moves.len() && allowed[sel[t]],
        forall|t1: int, t2: int|
            0 <= t1 < t2 < sel.len() ==> #[trigger] sel[t1] < #[trigger] sel[t2],
        forall|t1: int, t2: int|
            0 <= t1 < t2 < sel.len() ==> moves[#[trigger] sel[t1]].from < moves[#[trigger] sel[t2]].from,
        sel.len() >= 1,
    ensures
        dp[sel[sel.len() - 1]] >= sel.len(),
    decreases sel.len(),
{
    if sel.len() > 1 {
        let shorter = sel.drop_last();
        assert forall|t: int| 0 <= t < shorter.len() implies 0 <= #[trigger] shorter[t]
            < moves.len() && allowed[shorter[t]] by {
            assert(shorter[t] == sel[t]);
        }
        lemma_chain_bound(moves, allowed, dp, shorter);
        let p = sel[sel.len() - 2];
        let l = sel[sel.len() - 1];
        assert(shorter[shorter.len() - 1] == p);
        assert(p < l);
        assert(moves[p].from < moves[l].from);
        assert(dp[l] >= dp[p] + 1);
    }
}

/// Splits the moved set into ordered move commands, choosing a largest
/// subset whose relative order already matches to stay put (`physical`
/// false), and carries the add commands through. The chosen subset is a
/// largest one: no other choice of moves that could legally stay put
/// together is bigger, so the number of physical relocations is the
/// minimum the moved set admits.
pub fn unpack_moves(script: &EditScript, old: &KeySeq, new: &KeySeq) -> (r: (
    Vec<MoveCmd>,
    Vec<AddOp>,
))
    requires
        old.wf(),
        new.wf(),
        is_diff_of(*script, old@, new@),
    ensures
        r.0@.map_values(|c: MoveCmd| (c.from as int, c.to as int)) == moved_by_to(
            old@,
            new@,
            new@.len() as int,
        ),
        r.1@ == script.added@,
        forall|i: int|
            0 <= i < r.0@.len() && !(#[trigger] r.0@[i]).physical ==> span_free(
                old@,
                new@,
                r.0@[i].from as int,
                r.0@[i].to as int,
            ),
        forall|i: int, j: int|
            0 <= i < j < r.0@.len() && !(#[trigger] r.0@[i]).physical
                && !(#[trigger] r.0@[j]).physical ==> r.0@[i].from < r.0@[j].from,
        forall|sel: Seq<int>|
            valid_stay_chain(old@, new@, r.0@, sel) ==> sel.len() <= count_kept(r.0@),
{
    let mut moves: Vec<MoveCmd> = Vec::new();
    let n_new = new.len();
    for j in 0..n_new
        invariant
            old.wf(),
            new.wf(),
            n_new == new@.len(),
            moves@.map_values(|c: MoveCmd| (c.from as int, c.to as int)) == moved_by_to(
                old@,
                new@,
                j as int,
            ),
            forall|t: int| 0 <= t < moves@.len() ==> (#[trigger] moves@[t]).physical,
            forall|t: int|
                0 <= t < moves@.len() ==> (#[trigger] moves@[t]).from < old@.len()
                    && moves@[t].to < new@.len(),
    {
        let k = new.key_at(j);
        match old.index_of(k) {
            Some(f) => {
                if f != j {
                    moves.push(MoveCmd { from: f, to: j, physical: true });
                }
            },
            None => {},
        }
        proof {
            assert(moves@.map_values(|c: MoveCmd| (c.from as int, c.to as int)) =~= moved_by_to(
                old@,
                new@,
                j + 1,
            ));
        }
    }
    let m = moves.len();

    // Which moves may stay put at all: a move spanning a stationary sibling
    // must be relocated whatever else is chosen.
    let mut allowed: Vec<bool> = Vec::new();
    let n_old = old.len();
    for i in 0..m
        invariant
            old.wf(),
            new.wf(),
            n_old == old@.len(),
            n_new == new@.len(),
            m == moves@.len(),
            allowed@.len() == i,
            forall|t: int| 0 <= t < moves@.len() ==> (#[trigger] moves@[t]).from < old@.len()
                && moves@[t].to < new@.len(),
            forall|t: int|
                0 <= t < i ==> #[trigger] allowed@[t] == span_free(
                    old@,
                    new@,
                    moves@[t].from as int,
                    moves@[t].to as int,
                ),
    {
        let c = moves[i];
        let lo = if c.from < c.to { c.from } else { c.to };
        let hi = if c.from < c.to { c.to } else { c.from };
        let mut ok = true;
        let mut v = lo + 1;
        while v < hi
            invariant
                old.wf(),
                new.wf(),
                n_old == old@.len(),
                n_new == new@.len(),
                lo < hi ==> lo + 1 <= v <= hi,
                hi <= lo ==> v == lo + 1,
                hi < old@.len() || hi < new@.len(),
                ok ==> forall|w: int| lo < w < v ==> !unchanged_at(old@, new@, w),
                !ok ==> exists|w: int| lo < w < v && unchanged_at(old@, new@, w),
            decreases hi - v,
        {
            if v < n_old && v < n_new {
                let ka = old.key_at(v);
                let kb = new.key_at(v);
                if ka == kb {
                    ok = false;
                    proof {
                        assert(unchanged_at(old@, new@, v as int));
                    }
                }
            }
            v += 1;
        }
        allowed.push(ok);
        proof {
            let f = c.from as int;
            let t = c.to as int;
            if ok {
                assert(span_free(old@, new@, f, t));
            } else {
                let w = choose|w: int| lo < w < v && unchanged_at(old@, new@, w);
                assert(!span_free(old@, new@, f, t));
            }
        }
    }

    // Longest chain of moves, ascending in both orders, among the allowed
    // ones: those keep their place; everything else is relocated.
    let mut dp: Vec<usize> = Vec::new();
    let mut back: Vec<Option<usize>> = Vec::new();
    for i in 0..m
        invariant
            m == moves@.len(),
            allowed@.len() == m,
            dp@.len() == i,
            back@.len() == i,
            forall|t: int| 0 <= t < i ==> #[trigger] dp@[t] <= t + 1,
            forall|t: int| 0 <= t < i ==> (#[trigger] dp@[t] >= 1 <==> allowed@[t]),
            forall|t: int|
                0 <= t < i ==> match #[trigger] back@[t] {
                    Some(p) => {
                        &&& (p as int) < t
                        &&& allowed@[p as int]
                        &&& allowed@[t]
                        &&& moves@[p as int].from < moves@[t].from
                        &&& dp@[t] == dp@[p as int] + 1
                    },
                    None => allowed@[t] ==> dp@[t] == 1,
                },
            forall|t: int, j: int|
                #![trigger dp@[t], dp@[j]]
                0 <= j < t < i && allowed@[t] && allowed@[j] && moves@[j].from < moves@[t].from
                    ==> dp@[t] >= dp@[j] + 1,
    {
        if allowed[i] {
            let mut best: usize = 1;
            let mut bp: Option<usize> = None;
            let ci_from = moves[i].from;
            for j in 0..i
                invariant
                    m == moves@.len(),
                    allowed@.len() == m,
                    dp@.len() == i,
                    i < m,
                    allowed@[i as int],
                    ci_from == moves@[i as int].from,
                    1 <= best <= i + 1,
                    forall|t: int| 0 <= t < i ==> #[trigger] dp@[t] <= t + 1,
                    forall|t: int| 0 <= t < i ==> (#[trigger] dp@[t] >= 1 <==> allowed@[t]),
                    match bp {
                        Some(p) => {
                            &&& (p as int) < i
                            &&& allowed@[p as int]
                            &&& moves@[p as int].from < moves@[i as int].from
                            &&& best == dp@[p as int] + 1
                        },
                        None => best == 1,
                    },
                    forall|t: int|
                        0 <= t < j && allowed@[t] && moves@[t].from < ci_from ==> best >= #[trigger] dp@[t] + 1,
            {
                if allowed[j] && moves[j].from < ci_from {
                    let cand = dp[j] + 1;
                    if cand > best {
                        best = cand;
                        bp = Some(j);
                    }
                }
            }
            dp.push(best);
            back.push(bp);
        } else {
            dp.push(0);
            back.push(None);
        }
    }

    // Start from a chain of greatest length.
    let mut best_i: usize = 0;
    let mut best_len: usize = 0;
    for i in 0..m
        invariant
            m == moves@.len(),
            dp@.len() == m,
            best_len == 0 ==> forall|t: int| 0 <= t < i ==> #[trigger] dp@[t] == 0,
            best_len >= 1 ==> best_i < m && dp@[best_i as int] == best_len,
            forall|t: int| 0 <= t < i ==> #[trigger] dp@[t] <= best_len,
    {
        if dp[i] > best_len {
            best_len = dp[i];
            best_i = i;
        }
    }

    let mut kept: Vec<bool> = Vec::new();
    for i in 0..m
        invariant
            kept@.len() == i,
            forall|t: int| 0 <= t < i ==> !(#[trigger] kept@[t]),
    {
        kept.push(false);
    }

    proof {
        lemma_count_true_all_false(kept@);
    }
    if best_len >= 1 {
        let mut cur = best_i;
        loop
            invariant_except_break
                forall|t: int|
                    0 <= t < m && #[trigger] kept@[t] ==> (cur as int) < t && allowed@[t]
                        && moves@[cur as int].from < moves@[t].from,
                count_true(kept@) == best_len - dp@[cur as int],
            invariant
                m == moves@.len(),
                allowed@.len() == m,
                dp@.len() == m,
                back@.len() == m,
                kept@.len() == m,
                cur < m,
                allowed@[cur as int],
                forall|t: int| 0 <= t < m ==> #[trigger] dp@[t] <= t + 1,
                forall|t: int| 0 <= t < m ==> (#[trigger] dp@[t] >= 1 <==> allowed@[t]),
                forall|t: int|
                    0 <= t < m ==> match #[trigger] back@[t] {
                        Some(p) => {
                            &&& (p as int) < t
                            &&& allowed@[p as int]
                            &&& allowed@[t]
                            &&& moves@[p as int].from < moves@[t].from
                            &&& dp@[t] == dp@[p as int] + 1
                        },
                        None => allowed@[t] ==> dp@[t] == 1,
                    },
                forall|t1: int, t2: int|
                    0 <= t1 < t2 < m && #[trigger] kept@[t1] && #[trigger] kept@[t2]
                        ==> moves@[t1].from < moves@[t2].from,
            ensures
                forall|t: int| 0 <= t < m && #[trigger] kept@[t] ==> allowed@[t],
                forall|t1: int, t2: int|
                    0 <= t1 < t2 < m && #[trigger] kept@[t1] && #[trigger] kept@[t2]
                        ==> moves@[t1].from < moves@[t2].from,
                count_true(kept@) == best_len,
            decreases cur,
        {
            proof {
                assert(!kept@[cur as int]);
                lemma_count_true_update(kept@, cur as int);
            }
            kept.set(cur, true);
            match back[cur] {
                Some(p) => {
                    cur = p;
                },
                None => {
                    break ;
                },
            }
        }
    }
    proof {
        assert(count_true(kept@) == best_len);
    }

    let mut out: Vec<MoveCmd> = Vec::new();
    for i in 0..m
        invariant
            m == moves@.len(),
            kept@.len() == m,
            allowed@.len() == m,
            out@.len() == i,
            forall|t: int| 0 <= t < m && #[trigger] kept@[t] ==> span_free(
                old@,
                new@,
                moves@[t].from as int,
                moves@[t].to as int,
            ),
            forall|t1: int, t2: int|
                0 <= t1 < t2 < m && #[trigger] kept@[t1] && #[trigger] kept@[t2]
                    ==> moves@[t1].from < moves@[t2].from,
            forall|t: int|
                0 <= t < i ==> {
                    &&& (#[trigger] out@[t]).from == moves@[t].from
                    &&& out@[t].to == moves@[t].to
                    &&& out@[t].physical == !kept@[t]
                },
            count_kept(out@) == count_true(kept@.take(i as int)),
    {
        let c = moves[i];
        let k = kept[i];
        let ghost prev_out = out@;
        out.push(MoveCmd { from: c.from, to: c.to, physical: !k });
        proof {
            assert(out@.drop_last() =~= prev_out);
            assert(kept@.take(i + 1).drop_last() =~= kept@.take(i as int));
            assert(kept@.take(i + 1).last() == kept@[i as int]);
            assert(count_kept(out@) == count_kept(out@.drop_last()) + if !out@.last().physical {
                1int
            } else {
                0int
            });
        }
    }

    let mut adds: Vec<AddOp> = Vec::new();
    let n_add = script.added.len();
    for t in 0..n_add
        invariant
            n_add == script.added@.len(),
            adds@ == script.added@.take(t as int),
    {
        adds.push(script.added[t]);
        proof {
            assert(adds@ =~= script.added@.take(t + 1));
        }
    }
    proof {
        assert(adds@ =~= script.added@);
        assert(out@.map_values(|c: MoveCmd| (c.from as int, c.to as int)) =~= moves@.map_values(
            |c: MoveCmd| (c.from as int, c.to as int),
        ));
        assert(kept@.take(m as int) =~= kept@);
        assert(count_kept(out@) == best_len);
        // Nothing that could have stayed put is longer than what stayed:
        // every legal stay-put chain is bounded by the recorded search.
        assert forall|sel: Seq<int>|
            valid_stay_chain(old@, new@, out@, sel) implies sel.len() <= count_kept(out@) by {
            if sel.len() >= 1 {
                assert forall|t: int|
                    0 <= t < sel.len() implies 0 <= #[trigger] sel[t] < moves@.len()
                    && allowed@[sel[t]] by {
                    assert(out@[sel[t]].from == moves@[sel[t]].from);
                    assert(out@[sel[t]].to == moves@[sel[t]].to);
                    assert(span_free(old@, new@, out@[sel[t]].from as int, out@[sel[t]].to as int));
                }
                assert forall|t1: int, t2: int|
                    0 <= t1 < t2 < sel.len() implies moves@[#[trigger] sel[t1]].from < moves@[
                    #[trigger] sel[t2]
                ].from by {
                    assert(out@[sel[t1]].from == moves@[sel[t1]].from);
                    assert(out@[sel[t2]].from == moves@[sel[t2]].from);
                }
                lemma_chain_bound(moves@, allowed@, dp@, sel);
                assert(dp@[sel[sel.len() - 1]] <= best_len);
            }
        }
    }
    (out, adds)
}

} // verus!
