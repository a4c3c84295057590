//! What the queries and the removal answer, stated without their recursive
//! definitions: which tasks they report, which fields of a task they look at, and
//! when they fail.
use vstd::prelude::*;
use crate::task::TaskView;
use crate::model::{
    TaskMap, Forest, collect, collect_all, has_live, pending_child, ancestry, walk, live_views, remove_tree,
    remove_trees, remove_first, linked, parent_rank, active_tasks, started, any_started, link_path, subtask_rank,
    sibling_of, predecessors_started,
};
use crate::manager::{keyed_by_id, lemma_remove_first};
use crate::manager::{ManagerView, consistent, tasks_consistent, lemma_rankings, lemma_parent_below, lemma_below};
use crate::laws::{actionable, law_active_tasks_are_actionable, law_ordered_task_works_on_first_open_subtask};
use crate::text::not_found_text;

verus! {

/// The ids of a sequence of tasks.
pub open spec fn ids_of(s: Seq<TaskView>) -> Seq<usize> {
    s.map_values(|t: TaskView| t.id)
}

/// Two maps hold the same tasks up to text, flags and predecessors: the same keys,
/// and under each key the same id, subtask list and parent.
pub open spec fn same_shape(m: TaskMap, n: TaskMap) -> bool {
    &&& m.dom() == n.dom()
    &&& forall|k: usize| #[trigger] m.contains_key(k) ==> m[k].id == n[k].id && m[k].subtasks == n[k].subtasks
        && m[k].parent == n[k].parent
}

/// Two removal states with maps of the same shape and the same root list.
pub open spec fn same_forest(a: Forest, b: Forest) -> bool {
    same_shape(a.0, b.0) && a.1 == b.1
}

/// Whether an id names a task of `m`.
pub open spec fn present_in(m: TaskMap) -> spec_fn(usize) -> bool {
    |x: usize| m.contains_key(x)
}

/// The task of `m` under an id.
pub open spec fn task_at(m: TaskMap) -> spec_fn(usize) -> TaskView {
    |x: usize| m[x]
}

/// Whether an id names a task of `m` that is not completed.
pub open spec fn open_in(m: TaskMap) -> spec_fn(usize) -> bool {
    |x: usize| m.contains_key(x) && !m[x].completed
}

/// What is actionable under each task, by id.
pub open spec fn actionable_under(m: TaskMap) -> spec_fn(usize) -> Seq<TaskView> {
    |x: usize| collect(m, x)
}

proof fn lemma_ids_concat(a: Seq<TaskView>, b: Seq<TaskView>)
    ensures
        ids_of(a + b) == ids_of(a) + ids_of(b),
{
    assert(ids_of(a + b) =~= ids_of(a) + ids_of(b));
}

// ---------------------------------------------------------------- get_active_tasks

proof fn lemma_collect_all_flat(m: TaskMap, next_id: usize, p: usize, ids: Seq<usize>)
    requires
        tasks_consistent(m, next_id),
        m.contains_key(p),
        forall|i: int| 0 <= i < ids.len() ==> m[p].subtasks.contains(#[trigger] ids[i]),
    ensures
        collect_all(m, p, ids) == ids.filter(open_in(m)).map_values(actionable_under(m)).flatten_alt(),
    decreases ids.len(),
{
    reveal(Seq::filter);
    if ids.len() > 0 {
        let s = ids.last();
        let rest = ids.drop_last();
        assert forall|i: int| 0 <= i < rest.len() implies m[p].subtasks.contains(#[trigger] rest[i]) by {
            assert(rest[i] == ids[i]);
        }
        lemma_collect_all_flat(m, next_id, p, rest);
        let f = rest.filter(open_in(m));
        if m.contains_key(s) {
            assert(m[p].subtasks.contains(ids[ids.len() - 1]));
            lemma_rankings(m, next_id);
            assert(linked(m, p, s, false));
        }
        if open_in(m)(s) {
            assert(ids.filter(open_in(m)) == f.push(s));
            let g = f.map_values(actionable_under(m));
            assert(f.push(s).map_values(actionable_under(m)) =~= g.push(collect(m, s)));
            assert(g.push(collect(m, s)).drop_last() =~= g);
            assert(g.push(collect(m, s)).flatten_alt() == g.flatten_alt() + collect(m, s));
            assert(pending_child(m, p, s));
            assert(collect_all(m, p, ids) == collect_all(m, p, rest) + collect(m, s));
        } else {
            assert(ids.filter(open_in(m)) == f);
            assert(!pending_child(m, p, s));
            assert(collect_all(m, p, ids) =~= collect_all(m, p, rest));
        }
    }
}

/// An unordered task works on all its open subtasks at once: when it is open and
/// some of its listed subtasks exist, what is actionable under it is what is
/// actionable under each existing, not completed subtask, one after the other in
/// the listed order.
pub proof fn law_unordered_task_works_on_every_open_subtask(m: TaskMap, next_id: usize, p: usize)
    requires
        tasks_consistent(m, next_id),
        m.contains_key(p),
        !m[p].completed,
        !m[p].ordered,
        has_live(m, m[p].subtasks),
    ensures
        collect(m, p) == m[p].subtasks.filter(open_in(m)).map_values(actionable_under(m)).flatten(),
{
    let subs = m[p].subtasks;
    assert forall|i: int| 0 <= i < subs.len() implies m[p].subtasks.contains(#[trigger] subs[i]) by {}
    lemma_collect_all_flat(m, next_id, p, subs);
    subs.filter(open_in(m)).map_values(actionable_under(m)).lemma_flatten_and_flatten_alt_are_equivalent();
}

/// `get_active_tasks` walks the roots in their order: the active tasks are what is
/// actionable under each root, one root after the other.
pub proof fn law_active_tasks_follow_the_roots(m: TaskMap, roots: Seq<usize>)
    ensures
        active_tasks(m, roots) == roots.map_values(actionable_under(m)).flatten(),
    decreases roots.len(),
{
    let g = roots.map_values(actionable_under(m));
    if roots.len() > 0 {
        law_active_tasks_follow_the_roots(m, roots.drop_last());
        let h = roots.drop_last().map_values(actionable_under(m));
        h.lemma_flatten_and_flatten_alt_are_equivalent();
        assert(g.drop_last() =~= h);
        assert(g.last() == collect(m, roots.last()));
    }
    g.lemma_flatten_and_flatten_alt_are_equivalent();
}

/// The predecessors of `t` that hold it back in `m`: existing tasks that are not
/// listed as subtasks of `t`'s parent.
pub open spec fn blocking_predecessor(m: TaskMap, t: TaskView, x: usize) -> bool {
    &&& t.predecessors.contains(x)
    &&& m.contains_key(x)
    &&& !(t.parent matches Some(q) && m.contains_key(q) && m[q].subtasks.contains(x))
}

/// An open task without existing subtasks is actionable under itself exactly when
/// following the subtask links from each predecessor that holds it back leads to a
/// completed task; otherwise nothing is actionable under it.
pub proof fn law_open_leaf_waits_for_its_predecessors(m: TaskMap, next_id: usize, id: usize)
    requires
        tasks_consistent(m, next_id),
        m.contains_key(id),
        !m[id].completed,
        forall|x: usize| #[trigger] m[id].subtasks.contains(x) ==> !m.contains_key(x),
    ensures
        (forall|x: usize| #[trigger] blocking_predecessor(m, m[id], x) ==> leads_to_completed(m, x)) ==> collect(m, id)
            == seq![m[id]],
        !(forall|x: usize| #[trigger] blocking_predecessor(m, m[id], x) ==> leads_to_completed(m, x)) ==> collect(
            m,
            id,
        ) == Seq::<TaskView>::empty(),
{
    let t = m[id];
    assert(!has_live(m, t.subtasks)) by {
        if has_live(m, t.subtasks) {
            let i = choose|i: int| 0 <= i < t.subtasks.len() && m.contains_key(#[trigger] t.subtasks[i]);
            assert(t.subtasks.contains(t.subtasks[i]));
        }
    }
    if forall|x: usize| #[trigger] blocking_predecessor(m, t, x) ==> leads_to_completed(m, x) {
        assert forall|i: int|
            0 <= i < t.predecessors.len() && m.contains_key(#[trigger] t.predecessors[i]) && !sibling_of(
                m,
                t,
                t.predecessors[i],
            ) implies started(m, t.predecessors[i]) by {
            assert(t.predecessors.contains(t.predecessors[i]));
            assert(blocking_predecessor(m, t, t.predecessors[i]));
            law_started_means_completed_work_below(m, next_id, t.predecessors[i]);
        }
    } else {
        let x = choose|x: usize| #[trigger] blocking_predecessor(m, t, x) && !leads_to_completed(m, x);
        law_started_means_completed_work_below(m, next_id, x);
        let i = choose|i: int| 0 <= i < t.predecessors.len() && t.predecessors[i] == x;
        assert(!predecessors_started(m, t));
    }
}

/// Every task that `get_active_tasks` reports is open, has no existing subtask, and
/// is not held back: following the subtask links from each of its predecessors
/// that holds it back leads to a completed task.
pub proof fn law_active_tasks_wait_for_predecessors(v: ManagerView, i: int)
    requires
        consistent(v),
        0 <= i < active_tasks(v.tasks, v.roots).len(),
    ensures
        ({
            let t = active_tasks(v.tasks, v.roots)[i];
            &&& v.tasks.contains_key(t.id) && v.tasks[t.id] == t
            &&& !t.completed
            &&& forall|x: usize| #[trigger] t.subtasks.contains(x) ==> !v.tasks.contains_key(x)
            &&& forall|x: usize| #[trigger] blocking_predecessor(v.tasks, t, x) ==> leads_to_completed(v.tasks, x)
        }),
{
    let m = v.tasks;
    let t = active_tasks(m, v.roots)[i];
    law_active_tasks_are_actionable(v);
    assert(actionable(m, t));
    assert forall|x: usize| #[trigger] t.subtasks.contains(x) implies !m.contains_key(x) by {
        let j = choose|j: int| 0 <= j < t.subtasks.len() && t.subtasks[j] == x;
        if m.contains_key(x) {
            assert(has_live(m, t.subtasks));
        }
    }
    assert forall|x: usize| #[trigger] blocking_predecessor(m, t, x) implies leads_to_completed(m, x) by {
        let j = choose|j: int| 0 <= j < t.predecessors.len() && t.predecessors[j] == x;
        assert(started(m, t.predecessors[j]));
        law_started_means_completed_work_below(m, v.next_id, x);
    }
}

/// Following subtask links from task `id` leads to a completed task.
pub open spec fn leads_to_completed(m: TaskMap, id: usize) -> bool {
    exists|path: Seq<usize>|
        path.len() >= 1 && path[0] == id && #[trigger] link_path(m, path, false) && m[path.last()].completed
}

proof fn lemma_any_started_witness(m: TaskMap, parent: usize, ids: Seq<usize>)
    ensures
        any_started(m, parent, ids) ==> exists|i: int|
            0 <= i < ids.len() && m.contains_key(ids[i]) && started(m, #[trigger] ids[i]),
    decreases ids.len(),
{
    if ids.len() > 0 {
        lemma_any_started_witness(m, parent, ids.drop_last());
        if any_started(m, parent, ids.drop_last()) {
            let i = choose|i: int|
                0 <= i < ids.drop_last().len() && m.contains_key(ids.drop_last()[i]) && started(
                    m,
                    #[trigger] ids.drop_last()[i],
                );
            assert(ids[i] == ids.drop_last()[i]);
        } else if any_started(m, parent, ids) {
            assert(started(m, ids[ids.len() - 1]));
        }
    }
}

proof fn lemma_any_started_from(m: TaskMap, next_id: usize, parent: usize, ids: Seq<usize>, i: int)
    requires
        tasks_consistent(m, next_id),
        m.contains_key(parent),
        0 <= i < ids.len(),
        m.contains_key(ids[i]),
        started(m, ids[i]),
        m[parent].subtasks.contains(ids[i]),
    ensures
        any_started(m, parent, ids),
    decreases ids.len(),
{
    if i == ids.len() - 1 {
        lemma_rankings(m, next_id);
        assert(linked(m, parent, ids[i], false));
    } else {
        assert(ids.drop_last()[i] == ids[i]);
        lemma_any_started_from(m, next_id, parent, ids.drop_last(), i);
    }
}

proof fn lemma_started_leads_to_completed(m: TaskMap, next_id: usize, id: usize)
    requires
        tasks_consistent(m, next_id),
    ensures
        started(m, id) ==> leads_to_completed(m, id),
    decreases subtask_rank(m)(id),
{
    if started(m, id) {
        if m[id].completed {
            let path = seq![id];
            assert(link_path(m, path, false));
        } else {
            let subs = m[id].subtasks;
            lemma_any_started_witness(m, id, subs);
            let i = choose|i: int| 0 <= i < subs.len() && m.contains_key(subs[i]) && started(m, #[trigger] subs[i]);
            let s = subs[i];
            lemma_below(m, next_id, id, i);
            lemma_started_leads_to_completed(m, next_id, s);
            let ps = choose|path: Seq<usize>|
                path.len() >= 1 && path[0] == s && #[trigger] link_path(m, path, false) && m[path.last()].completed;
            let path = seq![id] + ps;
            assert forall|k: int| 0 <= k < path.len() implies m.contains_key(#[trigger] path[k]) by {
                if k > 0 {
                    assert(path[k] == ps[k - 1]);
                }
            }
            assert forall|k: int, j: int| 0 <= k && j == k + 1 && j < path.len() implies #[trigger] linked(
                m,
                path[k],
                path[j],
                false,
            ) by {
                if k == 0 {
                    assert(subs.contains(subs[i]));
                } else {
                    assert(path[k] == ps[k - 1] && path[j] == ps[j - 1]);
                    assert(linked(m, ps[k - 1], ps[j - 1], false));
                }
            }
            assert(link_path(m, path, false));
            assert(path.last() == ps.last());
        }
    }
}

proof fn lemma_path_to_completed_started(m: TaskMap, next_id: usize, path: Seq<usize>)
    requires
        tasks_consistent(m, next_id),
        path.len() >= 1,
        link_path(m, path, false),
        m[path.last()].completed,
    ensures
        started(m, path[0]),
    decreases path.len(),
{
    if path.len() > 1 {
        let tail = path.drop_first();
        assert forall|k: int| 0 <= k < tail.len() implies m.contains_key(#[trigger] tail[k]) by {
            assert(tail[k] == path[k + 1]);
        }
        assert forall|k: int, j: int| 0 <= k && j == k + 1 && j < tail.len() implies #[trigger] linked(
            m,
            tail[k],
            tail[j],
            false,
        ) by {
            assert(tail[k] == path[k + 1] && tail[j] == path[j + 1]);
            assert(linked(m, path[k + 1], path[j + 1], false));
        }
        assert(tail.last() == path.last());
        lemma_path_to_completed_started(m, next_id, tail);
        let id = path[0];
        let s = path[1];
        assert(m.contains_key(path[0]) && m.contains_key(path[1]));
        assert(linked(m, path[0], path[1], false));
        let subs = m[id].subtasks;
        let i = choose|i: int| 0 <= i < subs.len() && subs[i] == s;
        assert(tail[0] == s);
        lemma_any_started_from(m, next_id, id, subs, i);
    } else {
        assert(m.contains_key(path[0]));
    }
}

/// Work on a task has started exactly when following its subtask links (possibly
/// none) leads to a completed task: the task itself or some task below it.
pub proof fn law_started_means_completed_work_below(m: TaskMap, next_id: usize, id: usize)
    requires
        tasks_consistent(m, next_id),
    ensures
        started(m, id) <==> leads_to_completed(m, id),
{
    lemma_started_leads_to_completed(m, next_id, id);
    if leads_to_completed(m, id) {
        let path = choose|path: Seq<usize>|
            path.len() >= 1 && path[0] == id && #[trigger] link_path(m, path, false) && m[path.last()].completed;
        lemma_path_to_completed_started(m, next_id, path);
    }
}

/// An ordered task works only on its first subtask that exists and is not
/// completed: when it is open and some listed subtask exists, what is actionable
/// under it is what is actionable under that subtask, and nothing when every
/// existing subtask is completed.
pub proof fn law_ordered_task_works_on_its_first_open_subtask(m: TaskMap, next_id: usize, p: usize)
    requires
        tasks_consistent(m, next_id),
        m.contains_key(p),
        !m[p].completed,
        m[p].ordered,
        has_live(m, m[p].subtasks),
    ensures
        ({
            let subs = m[p].subtasks;
            &&& forall|j: int|
                0 <= j < subs.len() && #[trigger] open_in(m)(subs[j]) && (forall|i: int|
                    0 <= i < j ==> !open_in(m)(#[trigger] subs[i])) ==> collect(m, p) == collect(m, subs[j])
            &&& (forall|j: int| 0 <= j < subs.len() ==> !open_in(m)(#[trigger] subs[j])) ==> collect(m, p)
                == Seq::<TaskView>::empty()
        }),
{
    let subs = m[p].subtasks;
    assert forall|j: int| 0 <= j < subs.len() implies #[trigger] open_in(m)(subs[j]) == pending_child(m, p, subs[j]) by {
        if m.contains_key(subs[j]) {
            lemma_below(m, next_id, p, j);
        }
    }
    law_ordered_task_works_on_first_open_subtask(m, next_id, p);
}

// ---------------------------------------------------------------- get_subtasks

/// `get_subtasks` reports exactly the listed subtask ids that name a task, in the
/// listed order, each as its stored task, whatever the tasks' flags.
pub proof fn law_subtasks_are_the_listed_tasks(m: TaskMap, ids: Seq<usize>)
    ensures
        live_views(m, ids) == ids.filter(present_in(m)).map_values(task_at(m)),
        live_views(m, ids).len() == ids.filter(present_in(m)).len(),
    decreases ids.len(),
{
    reveal(Seq::filter);
    if ids.len() > 0 {
        let rest = ids.drop_last();
        let x = ids.last();
        law_subtasks_are_the_listed_tasks(m, rest);
        let f = rest.filter(present_in(m));
        if m.contains_key(x) {
            assert(ids.filter(present_in(m)) == f.push(x));
            assert(f.push(x).map_values(task_at(m)) =~= f.map_values(task_at(m)).push(m[x]));
            assert(live_views(m, ids) =~= live_views(m, rest).push(m[x]));
        } else {
            assert(ids.filter(present_in(m)) == f);
            assert(live_views(m, ids) =~= live_views(m, rest));
        }
    }
}

// ---------------------------------------------------------------- get_subtasks_recursive

/// The descendant walk looks only at which tasks exist and at their subtask lists:
/// maps of the same shape give the same ids, so no task that the walk reaches is
/// left out for its text or flags.
pub proof fn law_walk_ignores_flags(m: TaskMap, n: TaskMap, stack: Seq<usize>, count: nat, max: nat)
    requires
        same_shape(m, n),
    ensures
        ids_of(walk(m, stack, count, max)) == ids_of(walk(n, stack, count, max)),
    decreases (if count < max { max - count } else { 0 }), stack.len(),
{
    if stack.len() > 0 {
        let id = stack.last();
        let rest = stack.drop_last();
        assert(m.dom().contains(id) == n.dom().contains(id));
        if !m.contains_key(id) {
            law_walk_ignores_flags(m, n, rest, count, max);
        } else if count + 1 >= max {
            assert(ids_of(seq![m[id]]) =~= seq![m[id].id]);
            assert(ids_of(seq![n[id]]) =~= seq![n[id].id]);
        } else {
            let next = rest + m[id].subtasks;
            law_walk_ignores_flags(m, n, next, count + 1, max);
            lemma_ids_concat(seq![m[id]], walk(m, next, count + 1, max));
            lemma_ids_concat(seq![n[id]], walk(n, next, count + 1, max));
            assert(ids_of(seq![m[id]]) =~= ids_of(seq![n[id]]));
        }
    }
}

/// The walk takes ids from the top of the stack: an id that names no task is
/// skipped; an existing task is reported first, and, while the count allows more,
/// followed by the walk over the rest of the stack with its subtasks pushed.
pub proof fn law_walk_reports_each_task_it_reaches(m: TaskMap, stack: Seq<usize>, count: nat, max: nat)
    requires
        stack.len() > 0,
        count < max,
    ensures
        !m.contains_key(stack.last()) ==> walk(m, stack, count, max) == walk(m, stack.drop_last(), count, max),
        m.contains_key(stack.last()) ==> walk(m, stack, count, max).len() >= 1 && walk(m, stack, count, max)[0]
            == m[stack.last()],
        m.contains_key(stack.last()) && count + 1 >= max ==> walk(m, stack, count, max) == seq![m[stack.last()]],
        m.contains_key(stack.last()) && count + 1 < max ==> walk(m, stack, count, max).drop_first() == walk(
            m,
            stack.drop_last() + m[stack.last()].subtasks,
            count + 1,
            max,
        ),
{
    let id = stack.last();
    if m.contains_key(id) && count + 1 < max {
        assert((seq![m[id]] + walk(m, stack.drop_last() + m[id].subtasks, count + 1, max)).drop_first() =~= walk(
            m,
            stack.drop_last() + m[id].subtasks,
            count + 1,
            max,
        ));
    }
}

// ---------------------------------------------------------------- get_parent_tasks

/// Looking up the parent chain fails only on an id that names no task, and the
/// error names that id.
pub proof fn law_parent_chain_fails_only_on_missing_task(m: TaskMap, next_id: usize, id: usize)
    requires
        tasks_consistent(m, next_id),
    ensures
        ancestry(m, id) matches Err(e) ==> exists|x: usize| !m.contains_key(x) && e == #[trigger] not_found_text(x),
    decreases parent_rank(m)(id),
{
    if !m.contains_key(id) {
        assert(not_found_text(id) == not_found_text(id));
    } else if let Some(p) = m[id].parent {
        if !m.contains_key(p) {
            assert(not_found_text(p) == not_found_text(p));
        } else {
            lemma_parent_below(m, next_id, id, p);
            law_parent_chain_fails_only_on_missing_task(m, next_id, p);
        }
    }
}

/// The parent chain looks only at which tasks exist and at their parents: maps of
/// the same shape give the same ids, or the same error.
pub proof fn law_parent_chain_ignores_flags(m: TaskMap, n: TaskMap, next_id: usize, id: usize)
    requires
        tasks_consistent(m, next_id),
        tasks_consistent(n, next_id),
        same_shape(m, n),
    ensures
        match (ancestry(m, id), ancestry(n, id)) {
            (Ok(a), Ok(b)) => ids_of(a) == ids_of(b),
            (Err(a), Err(b)) => a == b,
            _ => false,
        },
    decreases parent_rank(m)(id),
{
    assert(m.dom().contains(id) == n.dom().contains(id));
    if m.contains_key(id) {
        match m[id].parent {
            Some(p) => {
                assert(m.dom().contains(p) == n.dom().contains(p));
                if m.contains_key(p) {
                    lemma_parent_below(m, next_id, id, p);
                    lemma_parent_below(n, next_id, id, p);
                    law_parent_chain_ignores_flags(m, n, next_id, p);
                    match (ancestry(m, p), ancestry(n, p)) {
                        (Ok(a), Ok(b)) => {
                            lemma_ids_concat(seq![m[id]], a);
                            lemma_ids_concat(seq![n[id]], b);
                            assert(ids_of(seq![m[id]]) =~= ids_of(seq![n[id]]));
                        },
                        _ => {},
                    }
                }
            },
            None => {
                assert(ids_of(seq![m[id]]) =~= ids_of(seq![n[id]]));
            },
        }
    }
}

// ---------------------------------------------------------------- remove_task_recursive

/// A removal fails only on an id that names no task in the state it stopped in,
/// and the error names that id.
pub proof fn law_removal_fails_only_on_missing_task(st: Forest, rank: spec_fn(usize) -> nat, id: usize)
    ensures
        remove_tree(st, rank, id).1 matches Err(e) ==> exists|x: usize|
            !remove_tree(st, rank, id).0.0.contains_key(x) && e == #[trigger] not_found_text(x),
    decreases rank(id), 1nat, 0nat,
{
    if !st.0.contains_key(id) {
        assert(not_found_text(id) == not_found_text(id));
    } else {
        lemma_removals_fail_only_on_missing_task(st, rank, id, st.0[id].subtasks);
    }
}

proof fn lemma_removals_fail_only_on_missing_task(
    st: Forest,
    rank: spec_fn(usize) -> nat,
    parent: usize,
    ids: Seq<usize>,
)
    ensures
        remove_trees(st, rank, parent, ids).1 matches Err(e) ==> exists|x: usize|
            !remove_trees(st, rank, parent, ids).0.0.contains_key(x) && e == #[trigger] not_found_text(x),
    decreases rank(parent), 0nat, ids.len(),
{
    if ids.len() > 0 {
        lemma_removals_fail_only_on_missing_task(st, rank, parent, ids.drop_last());
        let (st1, r1) = remove_trees(st, rank, parent, ids.drop_last());
        if r1 is Ok {
            let s = ids.last();
            if !st1.0.contains_key(s) {
                assert(not_found_text(s) == not_found_text(s));
            } else if rank(s) < rank(parent) {
                law_removal_fails_only_on_missing_task(st1, rank, s);
            }
        }
    }
}

/// Removing an existing task without subtasks succeeds, counts one task, and drops
/// just that task from the tasks and its first occurrence from the roots.
pub proof fn law_leaf_removal(st: Forest, rank: spec_fn(usize) -> nat, id: usize)
    requires
        st.0.contains_key(id),
        st.0[id].subtasks.len() == 0,
    ensures
        remove_tree(st, rank, id) == ((st.0.remove(id), remove_first(st.1, id)), Ok::<nat, Seq<char>>(1)),
{
}

/// The removal looks only at which tasks exist and at their subtask lists: states
/// of the same shape give the same answer and reach states of the same shape, so
/// no task is kept or refused for its text or flags.
pub proof fn law_removal_ignores_flags(a: Forest, b: Forest, rank: spec_fn(usize) -> nat, id: usize)
    requires
        same_forest(a, b),
    ensures
        same_forest(remove_tree(a, rank, id).0, remove_tree(b, rank, id).0),
        remove_tree(a, rank, id).1 == remove_tree(b, rank, id).1,
    decreases rank(id), 1nat, 0nat,
{
    assert(a.0.dom().contains(id) == b.0.dom().contains(id));
    if a.0.contains_key(id) {
        lemma_removals_ignore_flags(a, b, rank, id, a.0[id].subtasks);
        let (a2, ra) = remove_trees(a, rank, id, a.0[id].subtasks);
        let (b2, rb) = remove_trees(b, rank, id, b.0[id].subtasks);
        if ra is Ok {
            assert(a2.0.remove(id).dom() =~= b2.0.remove(id).dom());
        }
    }
}

proof fn lemma_removals_ignore_flags(
    a: Forest,
    b: Forest,
    rank: spec_fn(usize) -> nat,
    parent: usize,
    ids: Seq<usize>,
)
    requires
        same_forest(a, b),
    ensures
        same_forest(remove_trees(a, rank, parent, ids).0, remove_trees(b, rank, parent, ids).0),
        remove_trees(a, rank, parent, ids).1 == remove_trees(b, rank, parent, ids).1,
    decreases rank(parent), 0nat, ids.len(),
{
    if ids.len() > 0 {
        lemma_removals_ignore_flags(a, b, rank, parent, ids.drop_last());
        let (a1, r1) = remove_trees(a, rank, parent, ids.drop_last());
        let (b1, q1) = remove_trees(b, rank, parent, ids.drop_last());
        let s = ids.last();
        assert(a1.0.dom().contains(s) == b1.0.dom().contains(s));
        if r1 is Ok && a1.0.contains_key(s) && rank(s) < rank(parent) {
            law_removal_ignores_flags(a1, b1, rank, s);
        }
    }
}

/// A removal drops the removed id from the roots where it first occurs, and only
/// there; roots without it stay as they are.
pub proof fn law_removal_drops_first_root_occurrence(s: Seq<usize>, x: usize)
    ensures
        forall|pos: int|
            0 <= pos < s.len() && s[pos] == x && (forall|j: int| 0 <= j < pos ==> s[j] != x) ==> #[trigger] s.remove(pos)
                == remove_first(s, x),
        !s.contains(x) ==> remove_first(s, x) == s,
{
    assert forall|pos: int|
        0 <= pos < s.len() && s[pos] == x && (forall|j: int| 0 <= j < pos ==> s[j] != x) implies #[trigger] s.remove(pos)
            == remove_first(s, x) by {
        lemma_remove_first(s, x, pos);
    }
    if !s.contains(x) {
        assert forall|j: int| 0 <= j < s.len() implies s[j] != x by {
            if s[j] == x {
                assert(s.contains(s[j]));
            }
        }
        lemma_remove_first(s, x, s.len() as int);
    }
}

// ---------------------------------------------------------------- load_data

/// Restoring keys every task by its id; among tasks with the same id the one
/// listed last is kept.
pub proof fn law_restore_keeps_the_last_task_per_id(tasks: Seq<TaskView>, k: usize)
    ensures
        keyed_by_id(tasks).contains_key(k) <==> exists|i: int| 0 <= i < tasks.len() && #[trigger] tasks[i].id == k,
        keyed_by_id(tasks).contains_key(k) ==> exists|i: int|
            0 <= i < tasks.len() && #[trigger] tasks[i] == keyed_by_id(tasks)[k] && tasks[i].id == k && (forall|j: int|
                i < j < tasks.len() ==> tasks[j].id != k),
    decreases tasks.len(),
{
    if tasks.len() > 0 {
        let rest = tasks.drop_last();
        let n = tasks.len() - 1;
        law_restore_keeps_the_last_task_per_id(rest, k);
        if tasks[n].id == k {
            assert(tasks[n] == keyed_by_id(tasks)[k]);
        } else {
            if exists|i: int| 0 <= i < tasks.len() && #[trigger] tasks[i].id == k {
                let i = choose|i: int| 0 <= i < tasks.len() && #[trigger] tasks[i].id == k;
                assert(rest[i].id == k);
            }
            if keyed_by_id(rest).contains_key(k) {
                let i = choose|i: int|
                    0 <= i < rest.len() && #[trigger] rest[i] == keyed_by_id(rest)[k] && rest[i].id == k && (forall|j: int|
                        i < j < rest.len() ==> rest[j].id != k);
                assert(tasks[i] == rest[i]);
                assert forall|j: int| i < j < tasks.len() implies tasks[j].id != k by {
                    if j < n {
                        assert(tasks[j] == rest[j]);
                    }
                }
            }
        }
    }
}

} // verus!
