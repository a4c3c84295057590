//! Deciding whether the links between stored tasks have a cycle.
use std::collections::HashMap;
use vstd::std_specs::iter::IteratorSpec;
use vstd::prelude::*;
use crate::task::{Task, copy_ids};
use crate::model::{TaskMap, linked, ranked, link_path, has_cycle};
use crate::manager::map_views;

verus! {

/// Task `k` of `m` links to an existing task that `assigned` has no rank for.
pub open spec fn stuck(m: TaskMap, assigned: Map<usize, usize>, k: usize, by_parent: bool) -> bool {
    exists|x: usize| m.contains_key(x) && #[trigger] linked(m, k, x, by_parent) && !assigned.contains_key(x)
}

/// When every unranked task links to another unranked task, any ranking of the links
/// puts every unranked task at `j` or above, whatever `j`.
proof fn lemma_stuck_rank_at_least(
    m: TaskMap,
    assigned: Map<usize, usize>,
    by_parent: bool,
    rank: spec_fn(usize) -> nat,
    j: nat,
)
    requires
        ranked(m, rank, by_parent),
        forall|k: usize| m.contains_key(k) && !assigned.contains_key(k) ==> #[trigger] stuck(m, assigned, k, by_parent),
    ensures
        forall|k: usize| m.contains_key(k) && !assigned.contains_key(k) ==> #[trigger] rank(k) >= j,
    decreases j,
{
    if j > 0 {
        lemma_stuck_rank_at_least(m, assigned, by_parent, rank, (j - 1) as nat);
        assert forall|k: usize| m.contains_key(k) && !assigned.contains_key(k) implies #[trigger] rank(k) >= j by {
            assert(stuck(m, assigned, k, by_parent));
            let x = choose|x: usize| m.contains_key(x) && #[trigger] linked(m, k, x, by_parent) && !assigned.contains_key(x);
            assert(rank(x) >= j - 1);
        }
    }
}

/// Links where some task is unranked and every unranked task links to another
/// unranked task have a cycle: no ranking exists.
proof fn lemma_stuck_unranked(m: TaskMap, assigned: Map<usize, usize>, by_parent: bool, k0: usize)
    requires
        m.contains_key(k0),
        !assigned.contains_key(k0),
        forall|k: usize| m.contains_key(k) && !assigned.contains_key(k) ==> #[trigger] stuck(m, assigned, k, by_parent),
    ensures
        !(exists|rank: spec_fn(usize) -> nat| ranked(m, rank, by_parent)),
{
    if exists|rank: spec_fn(usize) -> nat| ranked(m, rank, by_parent) {
        let rank = choose|rank: spec_fn(usize) -> nat| ranked(m, rank, by_parent);
        lemma_stuck_rank_at_least(m, assigned, by_parent, rank, rank(k0) + 1);
        assert(rank(k0) >= rank(k0) + 1);
    }
}

/// Ranks fall by at least one at each step along a path of links.
proof fn lemma_path_ranks(m: TaskMap, rank: spec_fn(usize) -> nat, by_parent: bool, path: Seq<usize>, j: int)
    requires
        ranked(m, rank, by_parent),
        link_path(m, path, by_parent),
        0 <= j < path.len(),
    ensures
        rank(path[j]) + j <= rank(path[0]),
    decreases j,
{
    if j > 0 {
        lemma_path_ranks(m, rank, by_parent, path, j - 1);
        assert(linked(m, path[j - 1], path[j], by_parent));
    }
}

/// Links that admit a ranking have no cycle.
proof fn lemma_ranked_no_cycle(m: TaskMap, rank: spec_fn(usize) -> nat, by_parent: bool)
    requires
        ranked(m, rank, by_parent),
    ensures
        !has_cycle(m, by_parent),
{
    if has_cycle(m, by_parent) {
        let path = choose|path: Seq<usize>|
            path.len() >= 2 && #[trigger] link_path(m, path, by_parent) && path[0] == path.last();
        lemma_path_ranks(m, rank, by_parent, path, path.len() - 1);
    }
}

/// An unranked task that task `k` links to (meaningful when `k` is stuck).
spec fn stuck_next(m: TaskMap, assigned: Map<usize, usize>, k: usize, by_parent: bool) -> usize {
    choose|x: usize| m.contains_key(x) && #[trigger] linked(m, k, x, by_parent) && !assigned.contains_key(x)
}

/// The first `n` steps from `k0` along links to unranked tasks.
spec fn stuck_walk(m: TaskMap, assigned: Map<usize, usize>, by_parent: bool, k0: usize, n: nat) -> Seq<usize>
    decreases n,
{
    if n == 0 {
        seq![k0]
    } else {
        let s = stuck_walk(m, assigned, by_parent, k0, (n - 1) as nat);
        s.push(stuck_next(m, assigned, s.last(), by_parent))
    }
}

proof fn lemma_stuck_walk(m: TaskMap, assigned: Map<usize, usize>, by_parent: bool, k0: usize, n: nat)
    requires
        m.contains_key(k0),
        !assigned.contains_key(k0),
        forall|k: usize| m.contains_key(k) && !assigned.contains_key(k) ==> #[trigger] stuck(m, assigned, k, by_parent),
    ensures
        stuck_walk(m, assigned, by_parent, k0, n).len() == n + 1,
        link_path(m, stuck_walk(m, assigned, by_parent, k0, n), by_parent),
        forall|i: int|
            0 <= i < n + 1 ==> !assigned.contains_key(#[trigger] stuck_walk(m, assigned, by_parent, k0, n)[i]),
    decreases n,
{
    if n > 0 {
        lemma_stuck_walk(m, assigned, by_parent, k0, (n - 1) as nat);
        let s = stuck_walk(m, assigned, by_parent, k0, (n - 1) as nat);
        let w = stuck_walk(m, assigned, by_parent, k0, n);
        let k = s.last();
        assert(m.contains_key(s[s.len() - 1]));
        assert(!assigned.contains_key(s[s.len() - 1]));
        assert(stuck(m, assigned, k, by_parent));
        let x = stuck_next(m, assigned, k, by_parent);
        assert(m.contains_key(x) && linked(m, k, x, by_parent) && !assigned.contains_key(x));
        assert(w == s.push(x));
        assert forall|i: int| 0 <= i < w.len() implies m.contains_key(#[trigger] w[i]) by {
            if i < s.len() {
                assert(w[i] == s[i]);
            }
        }
        assert forall|i: int, j: int| 0 <= i && j == i + 1 && j < w.len() implies #[trigger] linked(
            m,
            w[i],
            w[j],
            by_parent,
        ) by {
            if j < s.len() {
                assert(w[i] == s[i] && w[j] == s[j]);
                assert(linked(m, s[i], s[j], by_parent));
            } else {
                assert(w[i] == k);
            }
        }
        assert forall|i: int| 0 <= i < n + 1 implies !assigned.contains_key(#[trigger] w[i]) by {
            if i < s.len() {
                assert(w[i] == s[i]);
            }
        }
    }
}

/// In finitely many tasks, an unranked task among tasks that all link to unranked
/// ones lies on a cycle: a walk longer than the number of tasks repeats a task.
proof fn lemma_stuck_cycle(m: TaskMap, assigned: Map<usize, usize>, by_parent: bool, k0: usize)
    requires
        m.dom().finite(),
        m.contains_key(k0),
        !assigned.contains_key(k0),
        forall|k: usize| m.contains_key(k) && !assigned.contains_key(k) ==> #[trigger] stuck(m, assigned, k, by_parent),
    ensures
        has_cycle(m, by_parent),
{
    let n = m.dom().len();
    let w = stuck_walk(m, assigned, by_parent, k0, n);
    lemma_stuck_walk(m, assigned, by_parent, k0, n);
    if w.no_duplicates() {
        w.unique_seq_to_set();
        assert(w.to_set().subset_of(m.dom())) by {
            assert forall|x: usize| w.to_set().contains(x) implies m.dom().contains(x) by {
                assert(w.contains(x));
                let i = choose|i: int| 0 <= i < w.len() && w[i] == x;
                assert(m.contains_key(w[i]));
            }
        }
        vstd::set_lib::lemma_len_subset(w.to_set(), m.dom());
    } else {
        let (i, j) = choose|i: int, j: int| 0 <= i < w.len() && 0 <= j < w.len() && i != j && w[i] == w[j];
        let a = if i < j { i } else { j };
        let b = if i < j { j } else { i };
        let c = w.subrange(a, b + 1);
        assert forall|p: int| 0 <= p < c.len() implies m.contains_key(#[trigger] c[p]) by {
            assert(c[p] == w[a + p]);
        }
        assert forall|p: int, q: int| 0 <= p && q == p + 1 && q < c.len() implies #[trigger] linked(
            m,
            c[p],
            c[q],
            by_parent,
        ) by {
            assert(c[p] == w[a + p] && c[q] == w[a + q]);
            assert(linked(m, w[a + p], w[a + q], by_parent));
        }
        assert(link_path(m, c, by_parent));
        assert(c[0] == c.last());
    }
}

/// The links between finitely many tasks admit a ranking exactly when they run in no
/// cycle.
pub proof fn law_ranking_exists_iff_no_cycle(m: TaskMap, by_parent: bool)
    requires
        m.dom().finite(),
    ensures
        (exists|rank: spec_fn(usize) -> nat| ranked(m, rank, by_parent)) <==> !has_cycle(m, by_parent),
    decreases m.dom().len(),
{
    if exists|rank: spec_fn(usize) -> nat| ranked(m, rank, by_parent) {
        let rank = choose|rank: spec_fn(usize) -> nat| ranked(m, rank, by_parent);
        lemma_ranked_no_cycle(m, rank, by_parent);
    } else if !has_cycle(m, by_parent) {
        let none = Map::<usize, usize>::empty();
        if m.dom().len() == 0 {
            vstd::set_lib::lemma_set_empty_equivalency_len(m.dom());
            assert(ranked(m, |x: usize| 0nat, by_parent));
        } else if forall|k: usize| m.contains_key(k) ==> #[trigger] stuck(m, none, k, by_parent) {
            vstd::set_lib::lemma_set_empty_equivalency_len(m.dom());
            let k0 = m.dom().choose();
            lemma_stuck_cycle(m, none, by_parent, k0);
        } else {
            let s = choose|k: usize| m.contains_key(k) && !#[trigger] stuck(m, none, k, by_parent);
            let m2 = m.remove(s);
            assert(m2.dom() =~= m.dom().remove(s));
            assert(!has_cycle(m2, by_parent)) by {
                if has_cycle(m2, by_parent) {
                    let path = choose|path: Seq<usize>|
                        path.len() >= 2 && #[trigger] link_path(m2, path, by_parent) && path[0] == path.last();
                    assert forall|i: int, j: int| 0 <= i && j == i + 1 && j < path.len() implies #[trigger] linked(
                        m,
                        path[i],
                        path[j],
                        by_parent,
                    ) by {
                        assert(linked(m2, path[i], path[j], by_parent));
                        assert(m2.contains_key(path[i]));
                    }
                    assert(link_path(m, path, by_parent));
                }
            }
            law_ranking_exists_iff_no_cycle(m2, by_parent);
            let r2 = choose|rank: spec_fn(usize) -> nat| ranked(m2, rank, by_parent);
            let rank = |x: usize| if x == s { 0nat } else { r2(x) + 1 };
            assert forall|k: usize, x: usize|
                m.contains_key(k) && m.contains_key(x) && #[trigger] linked(m, k, x, by_parent) implies rank(x) < rank(
                    k,
                ) by {
                if k == s {
                    assert(stuck(m, none, s, by_parent));
                }
                if x != s {
                    assert(linked(m2, k, x, by_parent));
                }
            }
            assert(ranked(m, rank, by_parent));
        }
    }
}

/// The ids that task `t` links to: its parent, or its subtasks.
fn link_targets(t: &Task, by_parent: bool) -> (v: Vec<usize>)
    ensures
        forall|x: usize| v@.contains(x) <==> (if by_parent { t@.parent == Some(x) } else { t@.subtasks.contains(x) }),
{
    if by_parent {
        let mut v: Vec<usize> = Vec::new();
        match t.parent {
            Some(p) => {
                v.push(p);
                assert(v@ =~= seq![p]);
                assert(v@[0] == p);
            },
            None => {},
        }
        v
    } else {
        copy_ids(&t.subtasks)
    }
}

/// Whether every id of `targets` that names a stored task has a rank.
fn all_ranked(tasks: &HashMap<usize, Task>, rank: &HashMap<usize, usize>, targets: &Vec<usize>) -> (r: bool)
    ensures
        r == (forall|x: usize| targets@.contains(x) && tasks@.contains_key(x) ==> rank@.contains_key(x)),
{
    let mut i: usize = 0;
    while i < targets.len()
        invariant
            i <= targets.len(),
            forall|j: int| 0 <= j < i && tasks@.contains_key(#[trigger] targets@[j]) ==> rank@.contains_key(targets@[j]),
        decreases targets.len() - i,
    {
        let x = targets[i];
        if tasks.contains_key(&x) && !rank.contains_key(&x) {
            assert(targets@.contains(targets@[i as int]));
            return false;
        }
        i = i + 1;
    }
    assert forall|x: usize| targets@.contains(x) && tasks@.contains_key(x) implies rank@.contains_key(x) by {
        let j = choose|j: int| 0 <= j < targets@.len() && targets@[j] == x;
        assert(tasks@.contains_key(targets@[j]));
    }
    true
}

/// Whether the parent links (`by_parent`) or the subtask links between the stored
/// tasks admit a ranking, that is, have no cycle. Tasks are ranked in passes: a task
/// gets the next rank once every stored task it links to has one. A pass that ranks
/// nothing ends the work: either every task is ranked, or each unranked task links
/// to another unranked one, and the links cycle.
pub(crate) fn links_acyclic(tasks: &HashMap<usize, Task>, by_parent: bool) -> (r: bool)
    ensures
        r == exists|rank: spec_fn(usize) -> nat| ranked(map_views(tasks@), rank, by_parent),
        r == !has_cycle(map_views(tasks@), by_parent),
{
    let ghost m = map_views(tasks@);
    let ghost keys = tasks@.dom();
    assert(m.dom() =~= keys);
    let ghost ks = vstd::std_specs::hash::spec_keys_iter(tasks).remaining();
    assert(ks.unref().to_set() == keys);
    assert(tasks.len() == tasks@.len());
    let mut rank: HashMap<usize, usize> = HashMap::new();
    let mut count: usize = 0;
    assert(rank@.dom() =~= Set::<usize>::empty());
    loop
        invariant
            m == map_views(tasks@),
            keys == tasks@.dom(),
            m.dom() == keys,
            keys.finite(),
            keys.len() <= usize::MAX,
            ks == vstd::std_specs::hash::spec_keys_iter(tasks).remaining(),
            ks.unref().to_set() == keys,
            rank@.dom().subset_of(keys),
            rank@.dom().finite(),
            count == rank@.dom().len(),
            forall|k: usize| #[trigger] rank@.contains_key(k) ==> rank@[k] < count,
            forall|k: usize, x: usize|
                rank@.contains_key(k) && m.contains_key(x) && #[trigger] linked(m, k, x, by_parent)
                    ==> rank@.contains_key(x) && rank@[x] < rank@[k],
        decreases keys.len() - count,
    {
        proof {
            vstd::set_lib::lemma_len_subset(rank@.dom(), keys);
        }
        let ghost count0 = count;
        let mut changed = false;
        let mut complete = true;
        for k in it: tasks.keys()
            invariant
                m == map_views(tasks@),
                m.dom() == keys,
                keys.finite(),
                keys.len() <= usize::MAX,
                it.seq() == ks,
                ks.unref().to_set() == keys,
                rank@.dom().subset_of(keys),
                rank@.dom().finite(),
                count == rank@.dom().len(),
                count0 <= count,
                forall|k: usize| #[trigger] rank@.contains_key(k) ==> rank@[k] < count,
                forall|k: usize, x: usize|
                    rank@.contains_key(k) && m.contains_key(x) && #[trigger] linked(m, k, x, by_parent)
                        ==> rank@.contains_key(x) && rank@[x] < rank@[k],
                changed <==> count0 < count,
                complete ==> forall|j: int| 0 <= j < it.index() ==> rank@.contains_key(*#[trigger] it.seq()[j]),
                !complete ==> exists|j: int| 0 <= j < it.index() && !rank@.contains_key(*#[trigger] it.seq()[j]),
                !changed ==> forall|j: int|
                    0 <= j < it.index() && !rank@.contains_key(*#[trigger] it.seq()[j]) ==> stuck(
                        m,
                        rank@,
                        *it.seq()[j],
                        by_parent,
                    ),
        {
            let ghost idx = it.index() as int;
            proof {
                assert(ks.unref()[idx] == *k);
                assert(ks.unref().to_set().contains(*k));
                assert(m.contains_key(*k));
            }
            if !rank.contains_key(k) {
                let t = tasks.get(k).unwrap();
                assert(t@ == m[*k]);
                let targets = link_targets(t, by_parent);
                if all_ranked(tasks, &rank, &targets) {
                    proof {
                        vstd::set_lib::lemma_len_subset(rank@.dom().insert(*k), keys);
                        assert(rank@.dom().insert(*k).len() == count + 1);
                        assert forall|x: usize| m.contains_key(x) && #[trigger] linked(m, *k, x, by_parent) implies rank@.contains_key(
                            x,
                        ) && rank@[x] < count by {
                            assert(targets@.contains(x));
                        }
                    }
                    let ghost before = rank@;
                    rank.insert(*k, count);
                    assert(rank@.dom() =~= before.dom().insert(*k));
                    count = count + 1;
                    changed = true;
                } else {
                    proof {
                        let x = choose|x: usize| targets@.contains(x) && tasks@.contains_key(x) && !rank@.contains_key(x);
                        assert(linked(m, *k, x, by_parent));
                        assert(stuck(m, rank@, *k, by_parent));
                    }
                    complete = false;
                }
            }
        }
        proof {
            vstd::set_lib::lemma_len_subset(rank@.dom(), keys);
        }
        if !changed {
            if complete {
                let ghost rk = |x: usize| if rank@.contains_key(x) { rank@[x] as nat } else { 0nat };
                proof {
                    assert forall|k: usize| #[trigger] m.contains_key(k) implies rank@.contains_key(k) by {
                        assert(ks.unref().to_set().contains(k));
                        assert(ks.unref().contains(k));
                        let j = choose|j: int| 0 <= j < ks.unref().len() && ks.unref()[j] == k;
                        assert(*ks[j] == k);
                    }
                    assert forall|k: usize, x: usize|
                        m.contains_key(k) && m.contains_key(x) && #[trigger] linked(m, k, x, by_parent) implies rk(x) < rk(k) by {
                    }
                    assert(ranked(m, rk, by_parent));
                    lemma_ranked_no_cycle(m, rk, by_parent);
                }
                return true;
            } else {
                proof {
                    let j = choose|j: int| 0 <= j < ks.len() && !rank@.contains_key(*#[trigger] ks[j]);
                    let k0 = *ks[j];
                    assert(ks.unref()[j] == k0);
                    assert(ks.unref().contains(k0));
                    assert(m.contains_key(k0));
                    assert forall|k: usize| m.contains_key(k) && !rank@.contains_key(k) implies #[trigger] stuck(
                        m,
                        rank@,
                        k,
                        by_parent,
                    ) by {
                        assert(ks.unref().to_set().contains(k));
                        assert(ks.unref().contains(k));
                        let i = choose|i: int| 0 <= i < ks.unref().len() && ks.unref()[i] == k;
                        assert(*ks[i] == k);
                    }
                    lemma_stuck_unranked(m, rank@, by_parent, k0);
                    lemma_stuck_cycle(m, rank@, by_parent, k0);
                }
                return false;
            }
        }
    }
}

} // verus!
