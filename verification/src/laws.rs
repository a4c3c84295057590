//! Properties of the task manager that span several operations or hold of every state.
use vstd::prelude::*;
use crate::task::TaskView;
use crate::model::{
    TaskMap, Forest, started, any_started, sibling_of, has_live, predecessors_started, collect, collect_first,
    collect_all, active_tasks, pending_child, ancestry, walk, remove_tree, remove_trees, remove_first, linked, ranked,
    subtask_rank, parent_rank, below,
};
use crate::manager::{
    ManagerView, TaskManagerData, consistent, tasks_consistent, task_consistent, restored, keyed_by_id, added_task,
    added_subtask, in_range_and_acyclic, lemma_rankings, lemma_parent_below, lemma_consistent_add, lemma_consistent_shrink,
};
use crate::task::{task_views, fresh_task, fresh_subtask};
use crate::links::law_ranking_exists_iff_no_cycle;

verus! {

/// Task `t` can be worked on now: it is the stored task under its id, it is not
/// completed, no existing subtask remains under it, and work has started on each
/// of its existing predecessors that is not a sibling.
pub open spec fn actionable(m: TaskMap, t: TaskView) -> bool {
    &&& m.contains_key(t.id)
    &&& m[t.id] == t
    &&& !t.completed
    &&& !has_live(m, t.subtasks)
    &&& predecessors_started(m, t)
}

/// Every element of `s` is actionable.
pub open spec fn all_actionable(m: TaskMap, s: Seq<TaskView>) -> bool {
    forall|i: int| 0 <= i < s.len() ==> actionable(m, #[trigger] s[i])
}

proof fn lemma_concat_actionable(m: TaskMap, a: Seq<TaskView>, b: Seq<TaskView>)
    requires
        all_actionable(m, a),
        all_actionable(m, b),
    ensures
        all_actionable(m, a + b),
{
    assert forall|i: int| 0 <= i < (a + b).len() implies actionable(m, #[trigger] (a + b)[i]) by {
        if i < a.len() {
            assert((a + b)[i] == a[i]);
        } else {
            assert((a + b)[i] == b[i - a.len()]);
        }
    }
}

proof fn lemma_collect_actionable(m: TaskMap, next_id: usize, id: usize)
    requires
        tasks_consistent(m, next_id),
    ensures
        all_actionable(m, collect(m, id)),
    decreases subtask_rank(m)(id), 1nat, 0nat,
{
    if !m.contains_key(id) || m[id].completed {
    } else if !has_live(m, m[id].subtasks) {
        assert(task_consistent(m, next_id, id));
    } else if m[id].ordered {
        lemma_collect_first_actionable(m, next_id, id, m[id].subtasks);
    } else {
        lemma_collect_all_actionable(m, next_id, id, m[id].subtasks);
    }
}

proof fn lemma_collect_first_actionable(m: TaskMap, next_id: usize, parent: usize, ids: Seq<usize>)
    requires
        tasks_consistent(m, next_id),
    ensures
        all_actionable(m, collect_first(m, parent, ids)),
    decreases subtask_rank(m)(parent), 0nat, ids.len(),
{
    if ids.len() == 0 {
    } else if pending_child(m, parent, ids[0]) {
        lemma_collect_actionable(m, next_id, ids[0]);
    } else {
        lemma_collect_first_actionable(m, next_id, parent, ids.drop_first());
    }
}

proof fn lemma_collect_all_actionable(m: TaskMap, next_id: usize, parent: usize, ids: Seq<usize>)
    requires
        tasks_consistent(m, next_id),
    ensures
        all_actionable(m, collect_all(m, parent, ids)),
    decreases subtask_rank(m)(parent), 0nat, ids.len(),
{
    if ids.len() > 0 {
        let s = ids.last();
        lemma_collect_all_actionable(m, next_id, parent, ids.drop_last());
        if pending_child(m, parent, s) {
            lemma_collect_actionable(m, next_id, s);
            lemma_concat_actionable(m, collect_all(m, parent, ids.drop_last()), collect(m, s));
        } else {
            lemma_concat_actionable(m, collect_all(m, parent, ids.drop_last()), Seq::empty());
        }
    }
}

/// Every task that `get_active_tasks` reports can be worked on now: it is stored
/// under its id, it is not completed, it has no existing subtask, and work has
/// started on each of its existing predecessors that is not a sibling.
pub proof fn law_active_tasks_are_actionable(v: ManagerView)
    requires
        consistent(v),
    ensures
        all_actionable(v.tasks, active_tasks(v.tasks, v.roots)),
    decreases v.roots.len(),
{
    if v.roots.len() > 0 {
        let w = ManagerView { roots: v.roots.drop_last(), ..v };
        law_active_tasks_are_actionable(w);
        lemma_collect_actionable(v.tasks, v.next_id, v.roots.last());
        lemma_concat_actionable(v.tasks, active_tasks(v.tasks, w.roots), collect(v.tasks, v.roots.last()));
    }
}

/// Saving and restoring gives the state back: data that `to_data` produced from a
/// consistent state is accepted by `load_data` and restores exactly that state.
pub proof fn law_restore_of_saved_state(v: ManagerView, data: TaskManagerData)
    requires
        consistent(v),
        keyed_by_id(task_views(data.tasks@)) == v.tasks,
        data.root_tasks@ == v.roots,
        data.next_id == v.next_id,
    ensures
        consistent(restored(data)),
        restored(data) == v,
{
}

/// Completing a task that is not completed and then uncompleting it gives the tasks back.
pub proof fn law_uncomplete_undoes_complete(m: TaskMap, id: usize)
    requires
        m.contains_key(id),
        !m[id].completed,
    ensures
        ({
            let done = m.insert(id, TaskView { completed: true, ..m[id] });
            done.insert(id, TaskView { completed: false, ..done[id] }) == m
        }),
{
    let done = m.insert(id, TaskView { completed: true, ..m[id] });
    assert(done.insert(id, TaskView { completed: false, ..done[id] }) =~= m);
}

/// Toggling the ordering of a task twice gives the tasks back.
pub proof fn law_toggle_ordered_twice(m: TaskMap, id: usize)
    requires
        m.contains_key(id),
    ensures
        ({
            let once = m.insert(id, TaskView { ordered: !m[id].ordered, ..m[id] });
            once.insert(id, TaskView { ordered: !once[id].ordered, ..once[id] }) == m
        }),
{
    let once = m.insert(id, TaskView { ordered: !m[id].ordered, ..m[id] });
    assert(once.insert(id, TaskView { ordered: !once[id].ordered, ..once[id] }) =~= m);
}

/// The hierarchy that `get_parent_tasks` reports starts at the task itself, steps
/// from each task to its parent, and ends at a task without a parent; every entry
/// is the stored task under its id.
pub proof fn law_ancestry_is_parent_chain(m: TaskMap, next_id: usize, id: usize)
    requires
        tasks_consistent(m, next_id),
    ensures
        ancestry(m, id) matches Ok(s) ==> {
            &&& s.len() >= 1
            &&& s[0] == m[id]
            &&& s.last().parent is None
            &&& forall|i: int| 0 <= i < s.len() ==> m.contains_key(#[trigger] s[i].id) && m[s[i].id] == s[i]
            &&& forall|i: int| 0 <= i < s.len() - 1 ==> #[trigger] s[i].parent == Some(s[i + 1].id)
        },
    decreases parent_rank(m)(id),
{
    if m.contains_key(id) && m[id].parent is Some && m.contains_key(m[id].parent->0) {
        let p = m[id].parent->0;
        lemma_parent_below(m, next_id, id, p);
        law_ancestry_is_parent_chain(m, next_id, p);
        match ancestry(m, p) {
            Ok(s) => {
                let r = seq![m[id]] + s;
                assert forall|i: int| 0 <= i < r.len() implies m.contains_key(#[trigger] r[i].id) && m[r[i].id]
                    == r[i] by {
                    if i > 0 {
                        assert(r[i] == s[i - 1]);
                    }
                }
                assert forall|i: int| 0 <= i < r.len() - 1 implies #[trigger] r[i].parent == Some(r[i + 1].id) by {
                    if i > 0 {
                        assert(r[i] == s[i - 1]);
                        assert(r[i + 1] == s[i]);
                    }
                }
            },
            Err(e) => {},
        }
    }
}

/// `get_subtasks_recursive` reports at most `max_count` tasks (one when
/// `max_count` is zero), each the stored task under its id.
pub proof fn law_walk_bounded(m: TaskMap, next_id: usize, stack: Seq<usize>, count: nat, max: nat)
    requires
        tasks_consistent(m, next_id),
        count < max || count == 0,
    ensures
        walk(m, stack, count, max).len() <= (if max == 0 { 1 } else { max - count }),
        forall|i: int| 0 <= i < walk(m, stack, count, max).len() ==> {
            let t = #[trigger] walk(m, stack, count, max)[i];
            m.contains_key(t.id) && m[t.id] == t
        },
    decreases (if count < max { max - count } else { 0 }), stack.len(),
{
    if stack.len() > 0 {
        let id = stack.last();
        let rest = stack.drop_last();
        if !m.contains_key(id) {
            law_walk_bounded(m, next_id, rest, count, max);
        } else {
            assert(task_consistent(m, next_id, id));
            if count + 1 < max {
                let tail = walk(m, rest + m[id].subtasks, count + 1, max);
                law_walk_bounded(m, next_id, rest + m[id].subtasks, count + 1, max);
                assert forall|i: int| 0 <= i < (seq![m[id]] + tail).len() implies {
                    let t = #[trigger] (seq![m[id]] + tail)[i];
                    m.contains_key(t.id) && m[t.id] == t
                } by {
                    if i > 0 {
                        assert((seq![m[id]] + tail)[i] == tail[i - 1]);
                    }
                }
            }
        }
    }
}

/// After a successful removal, the removed task is gone from the tasks.
pub proof fn law_removed_task_is_gone(st: Forest, rank: spec_fn(usize) -> nat, id: usize)
    ensures
        remove_tree(st, rank, id).1 is Ok ==> !remove_tree(st, rank, id).0.0.contains_key(id),
{
}

/// No root and no task of `v` refers to `id`, as subtask or as predecessor.
pub open spec fn unreferenced(v: ManagerView, id: usize) -> bool {
    &&& !v.roots.contains(id)
    &&& forall|k: usize| #[trigger] v.tasks.contains_key(k) ==> !v.tasks[k].subtasks.contains(id)
        && !v.tasks[k].predecessors.contains(id)
}

/// The rankings of a map and of the map with one more task `c` that nothing lists
/// as a subtask.
pub open spec fn insert_ranked(m: TaskMap, c: usize, t: TaskView) -> bool {
    &&& !m.contains_key(c)
    &&& forall|k: usize| #[trigger] m.contains_key(k) ==> !m[k].subtasks.contains(c)
    &&& ranked(m, subtask_rank(m), false)
    &&& ranked(m.insert(c, t), subtask_rank(m.insert(c, t)), false)
}

/// An existing task `s` listed by an existing task `parent` ranks below it, before
/// and after `c` is added.
proof fn lemma_insert_below(m: TaskMap, c: usize, t: TaskView, parent: usize, s: usize)
    requires
        insert_ranked(m, c, t),
        m.contains_key(parent),
        m.contains_key(s),
        m[parent].subtasks.contains(s),
    ensures
        below(m, s, parent),
        below(m.insert(c, t), s, parent),
{
    let n = m.insert(c, t);
    assert(linked(m, parent, s, false));
    assert(n[parent] == m[parent]);
    assert(linked(n, parent, s, false));
}

/// Every id of `ids` is listed as a subtask of `parent` in `m`.
pub open spec fn listed_by(m: TaskMap, parent: usize, ids: Seq<usize>) -> bool {
    forall|i: int| 0 <= i < ids.len() ==> m[parent].subtasks.contains(#[trigger] ids[i])
}

proof fn lemma_insert_keeps_started(m: TaskMap, c: usize, t: TaskView, id: usize)
    requires
        insert_ranked(m, c, t),
        id != c,
    ensures
        started(m.insert(c, t), id) == started(m, id),
    decreases subtask_rank(m)(id), 1nat, 0nat,
{
    let n = m.insert(c, t);
    if m.contains_key(id) {
        assert(n[id] == m[id]);
        assert(!m[id].subtasks.contains(c));
        lemma_insert_keeps_any_started(m, c, t, id, m[id].subtasks);
    }
}

proof fn lemma_insert_keeps_any_started(m: TaskMap, c: usize, t: TaskView, parent: usize, ids: Seq<usize>)
    requires
        insert_ranked(m, c, t),
        m.contains_key(parent),
        listed_by(m, parent, ids),
        !ids.contains(c),
    ensures
        any_started(m.insert(c, t), parent, ids) == any_started(m, parent, ids),
    decreases subtask_rank(m)(parent), 0nat, ids.len(),
{
    if ids.len() > 0 {
        let s = ids.last();
        assert(ids.drop_last().contains(c) ==> ids.contains(c)) by {
            if ids.drop_last().contains(c) {
                let i = choose|i: int| 0 <= i < ids.drop_last().len() && ids.drop_last()[i] == c;
                assert(ids[i] == c);
            }
        }
        assert(s != c) by {
            assert(ids[ids.len() - 1] == s);
        }
        assert(listed_by(m, parent, ids.drop_last())) by {
            assert forall|i: int| 0 <= i < ids.drop_last().len() implies m[parent].subtasks.contains(
                #[trigger] ids.drop_last()[i],
            ) by {
                assert(ids.drop_last()[i] == ids[i]);
            }
        }
        lemma_insert_keeps_any_started(m, c, t, parent, ids.drop_last());
        if m.contains_key(s) {
            assert(m[parent].subtasks.contains(ids[ids.len() - 1]));
            lemma_insert_below(m, c, t, parent, s);
            lemma_insert_keeps_started(m, c, t, s);
        }
    }
}

proof fn lemma_insert_keeps_collect(m: TaskMap, c: usize, t: TaskView, id: usize)
    requires
        insert_ranked(m, c, t),
        t.subtasks.len() == 0,
        id != c,
        forall|k: usize| #[trigger] m.contains_key(k) ==> !m[k].predecessors.contains(c),
    ensures
        collect(m.insert(c, t), id) == collect(m, id),
    decreases subtask_rank(m)(id), 1nat, 0nat,
{
    let n = m.insert(c, t);
    if m.contains_key(id) {
        let subs = m[id].subtasks;
        let preds = m[id].predecessors;
        assert(n[id] == m[id]);
        assert(!subs.contains(c));
        assert(has_live(n, subs) == has_live(m, subs)) by {
            if has_live(n, subs) {
                let i = choose|i: int| 0 <= i < subs.len() && n.contains_key(#[trigger] subs[i]);
                assert(subs.contains(subs[i]));
            }
        }
        assert(predecessors_started(n, m[id]) == predecessors_started(m, m[id])) by {
            assert forall|i: int| 0 <= i < preds.len() implies (n.contains_key(#[trigger] preds[i]) && !sibling_of(
                n,
                m[id],
                preds[i],
            ) ==> started(n, preds[i])) == (m.contains_key(preds[i]) && !sibling_of(m, m[id], preds[i])
                ==> started(m, preds[i])) by {
                assert(preds.contains(preds[i]));
                lemma_insert_keeps_started(m, c, t, preds[i]);
                assert(sibling_of(n, m[id], preds[i]) == sibling_of(m, m[id], preds[i]));
            }
        }
        assert(listed_by(m, id, subs)) by {
            assert forall|i: int| 0 <= i < subs.len() implies m[id].subtasks.contains(#[trigger] subs[i]) by {}
        }
        lemma_insert_keeps_collect_first(m, c, t, id, subs);
        lemma_insert_keeps_collect_all(m, c, t, id, subs);
    }
}

proof fn lemma_insert_keeps_collect_first(m: TaskMap, c: usize, t: TaskView, parent: usize, ids: Seq<usize>)
    requires
        insert_ranked(m, c, t),
        t.subtasks.len() == 0,
        m.contains_key(parent),
        listed_by(m, parent, ids),
        !ids.contains(c),
        forall|k: usize| #[trigger] m.contains_key(k) ==> !m[k].predecessors.contains(c),
    ensures
        collect_first(m.insert(c, t), parent, ids) == collect_first(m, parent, ids),
    decreases subtask_rank(m)(parent), 0nat, ids.len(),
{
    if ids.len() > 0 {
        let s = ids[0];
        assert(s != c) by {
            assert(ids.contains(ids[0]));
        }
        assert(ids.drop_first().contains(c) ==> ids.contains(c)) by {
            if ids.drop_first().contains(c) {
                let i = choose|i: int| 0 <= i < ids.drop_first().len() && ids.drop_first()[i] == c;
                assert(ids[i + 1] == c);
            }
        }
        assert(listed_by(m, parent, ids.drop_first())) by {
            assert forall|i: int| 0 <= i < ids.drop_first().len() implies m[parent].subtasks.contains(
                #[trigger] ids.drop_first()[i],
            ) by {
                assert(ids.drop_first()[i] == ids[i + 1]);
            }
        }
        if m.contains_key(s) {
            assert(m[parent].subtasks.contains(ids[0]));
            lemma_insert_below(m, c, t, parent, s);
        }
        if pending_child(m, parent, s) {
            lemma_insert_keeps_collect(m, c, t, s);
        } else {
            lemma_insert_keeps_collect_first(m, c, t, parent, ids.drop_first());
        }
    }
}

proof fn lemma_insert_keeps_collect_all(m: TaskMap, c: usize, t: TaskView, parent: usize, ids: Seq<usize>)
    requires
        insert_ranked(m, c, t),
        t.subtasks.len() == 0,
        m.contains_key(parent),
        listed_by(m, parent, ids),
        !ids.contains(c),
        forall|k: usize| #[trigger] m.contains_key(k) ==> !m[k].predecessors.contains(c),
    ensures
        collect_all(m.insert(c, t), parent, ids) == collect_all(m, parent, ids),
    decreases subtask_rank(m)(parent), 0nat, ids.len(),
{
    if ids.len() > 0 {
        let s = ids.last();
        assert(s != c) by {
            assert(ids.contains(ids[ids.len() - 1]));
        }
        assert(ids.drop_last().contains(c) ==> ids.contains(c)) by {
            if ids.drop_last().contains(c) {
                let i = choose|i: int| 0 <= i < ids.drop_last().len() && ids.drop_last()[i] == c;
                assert(ids[i] == c);
            }
        }
        assert(listed_by(m, parent, ids.drop_last())) by {
            assert forall|i: int| 0 <= i < ids.drop_last().len() implies m[parent].subtasks.contains(
                #[trigger] ids.drop_last()[i],
            ) by {
                assert(ids.drop_last()[i] == ids[i]);
            }
        }
        lemma_insert_keeps_collect_all(m, c, t, parent, ids.drop_last());
        if m.contains_key(s) {
            assert(m[parent].subtasks.contains(ids[ids.len() - 1]));
            lemma_insert_below(m, c, t, parent, s);
        }
        if pending_child(m, parent, s) {
            lemma_insert_keeps_collect(m, c, t, s);
        }
    }
}

proof fn lemma_insert_keeps_active(m: TaskMap, c: usize, t: TaskView, roots: Seq<usize>)
    requires
        insert_ranked(m, c, t),
        t.subtasks.len() == 0,
        !roots.contains(c),
        forall|k: usize| #[trigger] m.contains_key(k) ==> !m[k].predecessors.contains(c),
    ensures
        active_tasks(m.insert(c, t), roots) == active_tasks(m, roots),
    decreases roots.len(),
{
    if roots.len() > 0 {
        assert(roots.drop_last().contains(c) ==> roots.contains(c)) by {
            if roots.drop_last().contains(c) {
                let i = choose|i: int| 0 <= i < roots.drop_last().len() && roots.drop_last()[i] == c;
                assert(roots[i] == c);
            }
        }
        assert(roots.last() != c) by {
            assert(roots.contains(roots[roots.len() - 1]));
        }
        lemma_insert_keeps_active(m, c, t, roots.drop_last());
        lemma_insert_keeps_collect(m, c, t, roots.last());
    }
}

/// A new root task that nothing refers to yet (such as the one `add_task` creates
/// under a fresh id) is actionable at once: the active tasks become the previous
/// ones followed by it.
pub proof fn law_new_root_task_is_active(v: ManagerView, id: usize, text: Seq<char>, ordered: bool)
    requires
        consistent(v),
        !v.tasks.contains_key(id),
        unreferenced(v, id),
    ensures
        active_tasks(v.tasks.insert(id, fresh_task(id, text, ordered)), v.roots.push(id)) == active_tasks(
            v.tasks,
            v.roots,
        ).push(fresh_task(id, text, ordered)),
{
    let m = v.tasks;
    let t = fresh_task(id, text, ordered);
    let n = m.insert(id, t);
    let roots = v.roots.push(id);
    lemma_rankings(m, v.next_id);
    let r = subtask_rank(m);
    assert forall|k: usize, x: usize| n.contains_key(k) && n.contains_key(x) && #[trigger] linked(n, k, x, false)
        implies r(x) < r(k) by {
        if k == id {
            assert(!n[k].subtasks.contains(x));
        }
        assert(k != id);
        assert(x != id);
        assert(linked(m, k, x, false));
    }
    assert(ranked(n, r, false));
    assert(insert_ranked(m, id, t));
    assert(roots.drop_last() =~= v.roots);
    lemma_insert_keeps_active(m, id, t, v.roots);
    assert(!has_live(n, t.subtasks));
    assert(predecessors_started(n, t));
    assert(collect(n, id) == seq![t]);
}

/// A completed task is never reported as active.
pub proof fn law_completed_task_is_not_active(v: ManagerView, id: usize)
    requires
        consistent(v),
        v.tasks.contains_key(id),
        v.tasks[id].completed,
    ensures
        forall|i: int| 0 <= i < active_tasks(v.tasks, v.roots).len() ==> #[trigger] active_tasks(
            v.tasks,
            v.roots,
        )[i].id != id,
{
    law_active_tasks_are_actionable(v);
    assert forall|i: int| 0 <= i < active_tasks(v.tasks, v.roots).len() implies #[trigger] active_tasks(
        v.tasks,
        v.roots,
    )[i].id != id by {
        assert(actionable(v.tasks, active_tasks(v.tasks, v.roots)[i]));
    }
}

/// The full shape of a task hierarchy: the state is consistent; every listed
/// subtask id lies below `next_id`; a task's parent exists and lists it; a listed
/// subtask that exists names the listing task as its parent; no subtask list and
/// no root list repeats an id; and every root id names an existing task without
/// a parent.
pub open spec fn hierarchy(v: ManagerView) -> bool {
    let m = v.tasks;
    &&& consistent(v)
    &&& forall|k: usize, i: int| m.contains_key(k) && 0 <= i < m[k].subtasks.len() ==> #[trigger] m[k].subtasks[i]
        < v.next_id
    &&& forall|k: usize| #[trigger] m.contains_key(k) ==> (m[k].parent matches Some(p) ==> m.contains_key(p)
        && m[p].subtasks.contains(k))
    &&& forall|k: usize, x: usize| m.contains_key(k) && #[trigger] m[k].subtasks.contains(x) && m.contains_key(x)
        ==> m[x].parent == Some(k)
    &&& forall|k: usize| #[trigger] m.contains_key(k) ==> m[k].subtasks.no_duplicates()
    &&& v.roots.no_duplicates()
    &&& forall|i: int| 0 <= i < v.roots.len() ==> m.contains_key(#[trigger] v.roots[i]) && m[v.roots[i]].parent
        is None
}

/// Creating a root task keeps the full hierarchy shape.
pub proof fn law_add_task_keeps_hierarchy(v: ManagerView, text: Seq<char>, ordered: bool)
    requires
        hierarchy(v),
        v.next_id < usize::MAX,
    ensures
        hierarchy(added_task(v, text, ordered)),
{
    let w = added_task(v, text, ordered);
    let m = v.tasks;
    let n = w.tasks;
    let c = v.next_id;
    assert(!m.contains_key(c)) by {
        if m.contains_key(c) {
            assert(task_consistent(m, v.next_id, c));
        }
    }
    lemma_consistent_add(v, fresh_task(c, text, ordered), 0);
    assert forall|k: usize, x: usize| n.contains_key(k) && #[trigger] n[k].subtasks.contains(x) && n.contains_key(x)
        implies n[x].parent == Some(k) by {
        if k != c {
            let i = choose|i: int| 0 <= i < m[k].subtasks.len() && m[k].subtasks[i] == x;
            assert(m[k].subtasks[i] < v.next_id);
        }
    }
    assert forall|i: int| 0 <= i < w.roots.len() implies n.contains_key(#[trigger] w.roots[i]) && n[w.roots[i]].parent
        is None by {
        if i < v.roots.len() {
            assert(w.roots[i] == v.roots[i]);
        }
    }
    assert(w.roots.no_duplicates()) by {
        assert forall|i: int, j: int| 0 <= i < w.roots.len() && 0 <= j < w.roots.len() && i != j implies w.roots[i]
            != w.roots[j] by {
            if i < v.roots.len() && j < v.roots.len() {
                assert(w.roots[i] == v.roots[i] && w.roots[j] == v.roots[j]);
            } else if i < v.roots.len() {
                assert(m.contains_key(v.roots[i]));
            } else if j < v.roots.len() {
                assert(m.contains_key(v.roots[j]));
            }
        }
    }
}

/// Asking for a subtask keeps the full hierarchy shape, whether or not the parent exists.
pub proof fn law_add_subtask_keeps_hierarchy(v: ManagerView, parent_id: usize, text: Seq<char>)
    requires
        hierarchy(v),
        v.next_id < usize::MAX,
    ensures
        hierarchy(added_subtask(v, parent_id, text)),
{
    let w = added_subtask(v, parent_id, text);
    let m = v.tasks;
    let n = w.tasks;
    let c = v.next_id;
    assert(!m.contains_key(c)) by {
        if m.contains_key(c) {
            assert(task_consistent(m, v.next_id, c));
        }
    }
    if m.contains_key(parent_id) {
        let pv = m[parent_id];
        assert(task_consistent(m, v.next_id, parent_id));
        assert(!pv.subtasks.contains(c)) by {
            if pv.subtasks.contains(c) {
                let i = choose|i: int| 0 <= i < pv.subtasks.len() && pv.subtasks[i] == c;
                assert(pv.subtasks[i] < v.next_id);
            }
        }
        lemma_consistent_add(v, fresh_subtask(c, text, pv), parent_id);
        assert forall|k: usize, i: int| n.contains_key(k) && 0 <= i < n[k].subtasks.len() implies #[trigger] n[k].subtasks[i]
            < w.next_id by {
            if k == parent_id && i < pv.subtasks.len() {
                assert(n[k].subtasks[i] == pv.subtasks[i]);
            }
        }
        assert forall|k: usize| #[trigger] n.contains_key(k) implies (n[k].parent matches Some(p) ==> n.contains_key(p)
            && n[p].subtasks.contains(k)) by {
            if k == c {
                assert(n[parent_id].subtasks[pv.subtasks.len() as int] == c);
            } else if let Some(p) = m[k].parent {
                let i = choose|i: int| 0 <= i < m[p].subtasks.len() && m[p].subtasks[i] == k;
                if p == parent_id {
                    assert(n[p].subtasks[i] == k);
                }
            }
        }
        assert forall|k: usize, x: usize| n.contains_key(k) && #[trigger] n[k].subtasks.contains(x) && n.contains_key(x)
            implies n[x].parent == Some(k) by {
            if k != c {
                let i = choose|i: int| 0 <= i < n[k].subtasks.len() && n[k].subtasks[i] == x;
                if k == parent_id && i == pv.subtasks.len() {
                    assert(x == c);
                } else {
                    if k == parent_id {
                        assert(n[k].subtasks[i] == pv.subtasks[i]);
                    }
                    assert(m[k].subtasks.contains(x));
                    assert(m[k].subtasks[i] < v.next_id);
                }
            }
        }
        assert forall|k: usize| #[trigger] n.contains_key(k) implies n[k].subtasks.no_duplicates() by {
            if k == parent_id {
                assert forall|i: int, j: int| 0 <= i < n[k].subtasks.len() && 0 <= j < n[k].subtasks.len() && i != j
                    implies n[k].subtasks[i] != n[k].subtasks[j] by {
                    if i < pv.subtasks.len() && j < pv.subtasks.len() {
                        assert(pv.subtasks.no_duplicates());
                    } else if i < pv.subtasks.len() {
                        assert(pv.subtasks.contains(pv.subtasks[i]));
                    } else if j < pv.subtasks.len() {
                        assert(pv.subtasks.contains(pv.subtasks[j]));
                    }
                }
            }
        }
        assert forall|i: int| 0 <= i < w.roots.len() implies n.contains_key(#[trigger] w.roots[i]) && n[w.roots[i]].parent
            is None by {
            assert(m.contains_key(v.roots[i]));
        }
    }
}

/// The state that a removal reached, measured against the state it started from:
/// only tasks were dropped (the others unchanged); a dropped task took its listed
/// subtasks with it; the root ids are distinct existing tasks that were roots at
/// the start.
pub open spec fn removal_progress(start: Forest, st: Forest) -> bool {
    &&& forall|k: usize| #[trigger] st.0.contains_key(k) ==> start.0.contains_key(k) && st.0[k] == start.0[k]
    &&& forall|r: usize, x: usize|
        start.0.contains_key(r) && !st.0.contains_key(r) && #[trigger] start.0[r].subtasks.contains(x)
            ==> !#[trigger] st.0.contains_key(x)
    &&& st.1.no_duplicates()
    &&& forall|i: int| 0 <= i < st.1.len() ==> st.0.contains_key(#[trigger] st.1[i]) && start.1.contains(st.1[i])
}

proof fn lemma_remove_first_props(s: Seq<usize>, x: usize)
    requires
        s.no_duplicates(),
    ensures
        remove_first(s, x).no_duplicates(),
        !remove_first(s, x).contains(x),
        forall|y: usize| #[trigger] remove_first(s, x).contains(y) ==> s.contains(y),
    decreases s.len(),
{
    if s.len() > 0 {
        let t = s.drop_first();
        assert(t.no_duplicates());
        if s[0] == x {
            assert forall|i: int| 0 <= i < t.len() implies t[i] != x by {
                assert(s[i + 1] == t[i]);
            }
            assert forall|y: usize| #[trigger] t.contains(y) implies s.contains(y) by {
                let i = choose|i: int| 0 <= i < t.len() && t[i] == y;
                assert(s[i + 1] == y);
            }
        } else {
            lemma_remove_first_props(t, x);
            let r = remove_first(t, x);
            let q = seq![s[0]] + r;
            assert forall|y: usize| #[trigger] q.contains(y) implies s.contains(y) by {
                let i = choose|i: int| 0 <= i < q.len() && q[i] == y;
                if i > 0 {
                    assert(r[i - 1] == y);
                    assert(r.contains(y));
                    let j = choose|j: int| 0 <= j < t.len() && t[j] == y;
                    assert(s[j + 1] == y);
                } else {
                    assert(s[0] == y);
                }
            }
            assert(!q.contains(x)) by {
                if q.contains(x) {
                    let i = choose|i: int| 0 <= i < q.len() && q[i] == x;
                    if i > 0 {
                        assert(r[i - 1] == x);
                    }
                }
            }
            assert(q.no_duplicates()) by {
                assert forall|i: int, j: int| 0 <= i < q.len() && 0 <= j < q.len() && i != j implies q[i] != q[j] by {
                    if i > 0 && j > 0 {
                        assert(q[i] == r[i - 1] && q[j] == r[j - 1]);
                    } else if i == 0 {
                        assert(r.contains(q[j]));
                        let k = choose|k: int| 0 <= k < t.len() && t[k] == q[j];
                        assert(s[k + 1] == q[j]);
                    } else {
                        assert(r.contains(q[i]));
                        let k = choose|k: int| 0 <= k < t.len() && t[k] == q[i];
                        assert(s[k + 1] == q[i]);
                    }
                }
            }
        }
    }
}

proof fn lemma_remove_tree_progress(start: Forest, rank: spec_fn(usize) -> nat, st: Forest, id: usize)
    requires
        ranked(start.0, rank, false),
        removal_progress(start, st),
    ensures
        remove_tree(st, rank, id).1 is Ok ==> {
            let st2 = remove_tree(st, rank, id).0;
            &&& removal_progress(start, st2)
            &&& !st2.0.contains_key(id)
            &&& forall|k: usize| #[trigger] st2.0.contains_key(k) ==> st.0.contains_key(k)
        },
    decreases rank(id), 1nat, 0nat,
{
    if st.0.contains_key(id) {
        let subs = st.0[id].subtasks;
        assert forall|i: int| 0 <= i < subs.len() implies start.0[id].subtasks.contains(#[trigger] subs[i]) by {}
        lemma_remove_trees_progress(start, rank, st, id, subs);
        let (st2, r) = remove_trees(st, rank, id, subs);
        if r is Ok {
            lemma_remove_first_props(st2.1, id);
            let st3: Forest = (st2.0.remove(id), remove_first(st2.1, id));
            assert forall|r: usize, x: usize|
                start.0.contains_key(r) && !st3.0.contains_key(r) && #[trigger] start.0[r].subtasks.contains(x)
                    implies !#[trigger] st3.0.contains_key(x) by {
                if r != id {
                    assert(!st2.0.contains_key(r));
                } else {
                    assert(subs.contains(x));
                }
            }
            assert forall|i: int| 0 <= i < st3.1.len() implies st3.0.contains_key(#[trigger] st3.1[i])
                && start.1.contains(st3.1[i]) by {
                assert(st3.1.contains(st3.1[i]));
                assert(st2.1.contains(st3.1[i]));
                let j = choose|j: int| 0 <= j < st2.1.len() && st2.1[j] == st3.1[i];
                assert(st2.0.contains_key(st2.1[j]));
            }
        }
    }
}

proof fn lemma_remove_trees_progress(
    start: Forest,
    rank: spec_fn(usize) -> nat,
    st: Forest,
    parent: usize,
    ids: Seq<usize>,
)
    requires
        ranked(start.0, rank, false),
        removal_progress(start, st),
        start.0.contains_key(parent),
        forall|i: int| 0 <= i < ids.len() ==> start.0[parent].subtasks.contains(#[trigger] ids[i]),
    ensures
        remove_trees(st, rank, parent, ids).1 is Ok ==> {
            let st2 = remove_trees(st, rank, parent, ids).0;
            &&& removal_progress(start, st2)
            &&& forall|k: usize| #[trigger] st2.0.contains_key(k) ==> st.0.contains_key(k)
            &&& forall|x: usize| #[trigger] ids.contains(x) ==> !st2.0.contains_key(x)
        },
    decreases rank(parent), 0nat, ids.len(),
{
    if ids.len() > 0 {
        let s = ids.last();
        assert forall|i: int| 0 <= i < ids.drop_last().len() implies start.0[parent].subtasks.contains(
            #[trigger] ids.drop_last()[i],
        ) by {
            assert(ids.drop_last()[i] == ids[i]);
        }
        lemma_remove_trees_progress(start, rank, st, parent, ids.drop_last());
        let (st1, r1) = remove_trees(st, rank, parent, ids.drop_last());
        if r1 is Ok && st1.0.contains_key(s) {
            assert(start.0[parent].subtasks.contains(ids[ids.len() - 1]));
            assert(linked(start.0, parent, s, false));
            lemma_remove_tree_progress(start, rank, st1, s);
            let (st2, r2) = remove_tree(st1, rank, s);
            if r2 is Ok {
                assert forall|x: usize| #[trigger] ids.contains(x) implies !st2.0.contains_key(x) by {
                    let i = choose|i: int| 0 <= i < ids.len() && ids[i] == x;
                    if i < ids.len() - 1 {
                        assert(ids.drop_last()[i] == x);
                        assert(ids.drop_last().contains(x));
                    }
                }
            }
        }
    }
}

/// A successful `remove_task_recursive` keeps the full hierarchy shape.
pub proof fn law_removal_keeps_hierarchy(v: ManagerView, id: usize)
    requires
        hierarchy(v),
    ensures
        ({
            let (st, r) = remove_tree((v.tasks, v.roots), subtask_rank(v.tasks), id);
            r is Ok ==> hierarchy(ManagerView { tasks: st.0, roots: st.1, next_id: v.next_id })
        }),
{
    let start: Forest = (v.tasks, v.roots);
    let m = v.tasks;
    let rank = subtask_rank(m);
    lemma_rankings(m, v.next_id);
    assert(removal_progress(start, start));
    lemma_remove_tree_progress(start, rank, start, id);
    let (st, r) = remove_tree(start, rank, id);
    if r is Ok {
        let w = ManagerView { tasks: st.0, roots: st.1, next_id: v.next_id };
        let n = st.0;
        lemma_consistent_shrink(v, w);
        assert forall|k: usize, i: int| n.contains_key(k) && 0 <= i < n[k].subtasks.len() implies #[trigger] n[k].subtasks[i]
            < w.next_id by {
            assert(m[k].subtasks[i] < v.next_id);
        }
        assert forall|k: usize| #[trigger] n.contains_key(k) implies (n[k].parent matches Some(p) ==> n.contains_key(p)
            && n[p].subtasks.contains(k)) by {
            assert(m.contains_key(k));
            if let Some(p) = m[k].parent {
                assert(m.contains_key(p) && m[p].subtasks.contains(k));
                if !n.contains_key(p) {
                    assert(!n.contains_key(k));
                }
            }
        }
        assert forall|k: usize, x: usize| n.contains_key(k) && #[trigger] n[k].subtasks.contains(x) && n.contains_key(x)
            implies n[x].parent == Some(k) by {
            assert(m[k].subtasks.contains(x));
        }
        assert forall|k: usize| #[trigger] n.contains_key(k) implies n[k].subtasks.no_duplicates() by {
            assert(m[k].subtasks.no_duplicates());
        }
        assert forall|i: int| 0 <= i < w.roots.len() implies n.contains_key(#[trigger] w.roots[i]) && n[w.roots[i]].parent
            is None by {
            let j = choose|j: int| 0 <= j < v.roots.len() && v.roots[j] == w.roots[i];
            assert(m.contains_key(v.roots[j]) && m[v.roots[j]].parent is None);
        }
    }
}

/// Ids come from a counter and are never handed out twice: after `add_task`
/// creates a task under id `v.next_id`, any state `w` that later calls reach
/// without creating tasks (every other operation keeps `next_id`, as its contract
/// states) gives the next created task the id `v.next_id + 1`, which names no task
/// of `w`.
pub proof fn law_ids_never_reused(
    v: ManagerView,
    text1: Seq<char>,
    ordered1: bool,
    w: ManagerView,
    text2: Seq<char>,
    ordered2: bool,
)
    requires
        v.next_id + 1 < usize::MAX,
        consistent(w),
        w.next_id == added_task(v, text1, ordered1).next_id,
    ensures
        added_task(w, text2, ordered2).next_id == v.next_id + 2,
        added_task(w, text2, ordered2).roots.last() == v.next_id + 1,
        !w.tasks.contains_key((v.next_id + 1) as usize),
{
    if w.tasks.contains_key((v.next_id + 1) as usize) {
        assert(task_consistent(w.tasks, w.next_id, (v.next_id + 1) as usize));
    }
}

proof fn lemma_collect_first_at(m: TaskMap, p: usize, ids: Seq<usize>, j: int)
    requires
        0 <= j < ids.len(),
        pending_child(m, p, ids[j]),
        forall|i: int| 0 <= i < j ==> !pending_child(m, p, #[trigger] ids[i]),
    ensures
        collect_first(m, p, ids) == collect(m, ids[j]),
    decreases j,
{
    if j > 0 {
        assert(!pending_child(m, p, ids[0]));
        assert forall|i: int| 0 <= i < j - 1 implies !pending_child(m, p, #[trigger] ids.drop_first()[i]) by {
            assert(ids.drop_first()[i] == ids[i + 1]);
        }
        lemma_collect_first_at(m, p, ids.drop_first(), j - 1);
    }
}

proof fn lemma_collect_first_none(m: TaskMap, p: usize, ids: Seq<usize>)
    requires
        forall|i: int| 0 <= i < ids.len() ==> !pending_child(m, p, #[trigger] ids[i]),
    ensures
        collect_first(m, p, ids) == Seq::<TaskView>::empty(),
    decreases ids.len(),
{
    if ids.len() > 0 {
        assert(!pending_child(m, p, ids[0]));
        assert forall|i: int| 0 <= i < ids.len() - 1 implies !pending_child(m, p, #[trigger] ids.drop_first()[i]) by {
            assert(ids.drop_first()[i] == ids[i + 1]);
        }
        lemma_collect_first_none(m, p, ids.drop_first());
    }
}

/// An ordered task works on its first existing subtask that is not completed, and
/// on nothing listed after it: what is actionable under the task is exactly what
/// is actionable under that subtask (nothing when every existing subtask is
/// completed).
pub proof fn law_ordered_task_works_on_first_open_subtask(m: TaskMap, next_id: usize, p: usize)
    requires
        tasks_consistent(m, next_id),
        m.contains_key(p),
        !m[p].completed,
        m[p].ordered,
        has_live(m, m[p].subtasks),
    ensures
        ({
            let subs = m[p].subtasks;
            &&& forall|j: int|
                0 <= j < subs.len() && #[trigger] pending_child(m, p, subs[j]) && (forall|i: int|
                    0 <= i < j ==> !pending_child(m, p, #[trigger] subs[i])) ==> collect(m, p) == collect(
                    m,
                    subs[j],
                )
            &&& (forall|j: int| 0 <= j < subs.len() ==> !pending_child(m, p, #[trigger] subs[j])) ==> collect(m, p)
                == Seq::<TaskView>::empty()
        }),
{
    let subs = m[p].subtasks;
    assert forall|j: int|
        0 <= j < subs.len() && #[trigger] pending_child(m, p, subs[j]) && (forall|i: int|
            0 <= i < j ==> !pending_child(m, p, #[trigger] subs[i])) implies collect(m, p) == collect(m, subs[j]) by {
        lemma_collect_first_at(m, p, subs, j);
    }
    if forall|j: int| 0 <= j < subs.len() ==> !pending_child(m, p, #[trigger] subs[j]) {
        lemma_collect_first_none(m, p, subs);
    }
}

/// Siblings never hold each other back: in an ordered task of a well-shaped
/// hierarchy, a first open subtask without existing subtasks of its own is
/// reported as soon as work has started on its predecessors outside its siblings,
/// however the subtasks were reordered and whatever sibling predecessors it lists.
pub proof fn law_first_open_subtask_is_reported(v: ManagerView, p: usize, j: int)
    requires
        hierarchy(v),
        v.tasks.contains_key(p),
        !v.tasks[p].completed,
        v.tasks[p].ordered,
        0 <= j < v.tasks[p].subtasks.len(),
        pending_child(v.tasks, p, v.tasks[p].subtasks[j]),
        forall|i: int| 0 <= i < j ==> !pending_child(v.tasks, p, #[trigger] v.tasks[p].subtasks[i]),
        !has_live(v.tasks, v.tasks[v.tasks[p].subtasks[j]].subtasks),
        forall|x: usize|
            #[trigger] v.tasks[v.tasks[p].subtasks[j]].predecessors.contains(x) && v.tasks.contains_key(x)
                && !v.tasks[p].subtasks.contains(x) ==> started(v.tasks, x),
    ensures
        collect(v.tasks, p) == seq![v.tasks[v.tasks[p].subtasks[j]]],
{
    let m = v.tasks;
    let subs = m[p].subtasks;
    let s = subs[j];
    assert(subs.contains(s));
    assert(m[s].parent == Some(p));
    assert(has_live(m, subs));
    law_ordered_task_works_on_first_open_subtask(m, v.next_id, p);
    assert(collect(m, p) == collect(m, s));
    assert forall|i: int|
        0 <= i < m[s].predecessors.len() && m.contains_key(#[trigger] m[s].predecessors[i]) && !sibling_of(
            m,
            m[s],
            m[s].predecessors[i],
        ) implies started(m, m[s].predecessors[i]) by {
        assert(m[s].predecessors.contains(m[s].predecessors[i]));
    }
}

/// The invariant of a manager's tasks, stated with rankings, says for finitely many
/// tasks exactly what `load_data` asks of loaded tasks: ids and parent ids below
/// the next id, and no cycle in the subtask links or in the parent links.
pub proof fn law_consistent_iff_acyclic(m: TaskMap, next_id: usize)
    requires
        m.dom().finite(),
    ensures
        tasks_consistent(m, next_id) <==> in_range_and_acyclic(m, next_id),
{
    law_ranking_exists_iff_no_cycle(m, false);
    law_ranking_exists_iff_no_cycle(m, true);
}

} // verus!
