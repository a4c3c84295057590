//! The mathematical model of a task hierarchy and of the queries on it.
use vstd::prelude::*;
use crate::task::TaskView;
use crate::text::not_found_text;

verus! {

/// The tasks of a manager, keyed by id.
pub type TaskMap = Map<usize, TaskView>;

/// Whether some id of `ids` names a task of `m`.
pub open spec fn has_live(m: TaskMap, ids: Seq<usize>) -> bool {
    exists|i: int| 0 <= i < ids.len() && m.contains_key(#[trigger] ids[i])
}

/// Task `k` links to task `x`: through its parent field (`by_parent`) or through its
/// subtask list.
pub open spec fn linked(m: TaskMap, k: usize, x: usize, by_parent: bool) -> bool {
    if by_parent {
        m[k].parent == Some(x)
    } else {
        m[k].subtasks.contains(x)
    }
}

/// `r` ranks the links of `m`: a task that an existing task links to ranks below it.
/// Between finitely many tasks such a ranking exists exactly when the links run in
/// no cycle ([`has_cycle`]; see `law_ranking_exists_iff_no_cycle`).
pub open spec fn ranked(m: TaskMap, r: spec_fn(usize) -> nat, by_parent: bool) -> bool {
    forall|k: usize, x: usize|
        m.contains_key(k) && m.contains_key(x) && #[trigger] linked(m, k, x, by_parent) ==> r(x) < r(k)
}

/// Consecutive entries of `path` are tasks of `m`, each linking to the next.
pub open spec fn link_path(m: TaskMap, path: Seq<usize>, by_parent: bool) -> bool {
    &&& forall|i: int| 0 <= i < path.len() ==> m.contains_key(#[trigger] path[i])
    &&& forall|i: int, j: int| 0 <= i && j == i + 1 && j < path.len() ==> #[trigger] linked(m, path[i], path[j], by_parent)
}

/// The links of `m` run in a cycle: following them from some task leads back to it.
pub open spec fn has_cycle(m: TaskMap, by_parent: bool) -> bool {
    exists|path: Seq<usize>| path.len() >= 2 && #[trigger] link_path(m, path, by_parent) && path[0] == path.last()
}

/// A ranking of the subtask links of `m` (meaningful when there is one).
pub open spec fn subtask_rank(m: TaskMap) -> spec_fn(usize) -> nat {
    choose|r: spec_fn(usize) -> nat| ranked(m, r, false)
}

/// A ranking of the parent links of `m` (meaningful when there is one).
pub open spec fn parent_rank(m: TaskMap) -> spec_fn(usize) -> nat {
    choose|r: spec_fn(usize) -> nat| ranked(m, r, true)
}

/// Task `s` ranks below task `parent` in the subtask ranking of `m`; for an existing
/// subtask of an existing task this always holds once the subtask links have no cycle.
pub open spec fn below(m: TaskMap, s: usize, parent: usize) -> bool {
    subtask_rank(m)(s) < subtask_rank(m)(parent)
}

/// Work on a task has started when it is completed, or when work on one of its
/// existing subtasks has started.
pub open spec fn started(m: TaskMap, id: usize) -> bool
    decreases subtask_rank(m)(id), 1nat, 0nat,
{
    &&& m.contains_key(id)
    &&& (m[id].completed || any_started(m, id, m[id].subtasks))
}

/// Work has started on some task named in `ids` that exists (and lies below `parent`).
pub open spec fn any_started(m: TaskMap, parent: usize, ids: Seq<usize>) -> bool
    decreases subtask_rank(m)(parent), 0nat, ids.len(),
{
    if ids.len() == 0 {
        false
    } else {
        let s = ids.last();
        ||| any_started(m, parent, ids.drop_last())
        ||| (m.contains_key(s) && below(m, s, parent) && started(m, s))
    }
}

/// Task `x` is a sibling of task `t`: both are listed as subtasks of `t`'s parent.
pub open spec fn sibling_of(m: TaskMap, t: TaskView, x: usize) -> bool {
    t.parent matches Some(q) && m.contains_key(q) && m[q].subtasks.contains(x)
}

/// Task `t` may start: work has started on each of its existing predecessors that
/// is not a sibling. Missing predecessors do not hold a task back, and neither do
/// siblings, whose order is the parent's own business (an ordered parent works
/// through them one by one).
pub open spec fn predecessors_started(m: TaskMap, t: TaskView) -> bool {
    forall|i: int|
        0 <= i < t.predecessors.len() && m.contains_key(#[trigger] t.predecessors[i]) && !sibling_of(
            m,
            t,
            t.predecessors[i],
        ) ==> started(m, t.predecessors[i])
}

/// The actionable tasks under task `id`, in traversal order.
pub open spec fn collect(m: TaskMap, id: usize) -> Seq<TaskView>
    decreases subtask_rank(m)(id), 1nat, 0nat,
{
    if !m.contains_key(id) || m[id].completed {
        Seq::empty()
    } else if !has_live(m, m[id].subtasks) {
        if predecessors_started(m, m[id]) {
            seq![m[id]]
        } else {
            Seq::empty()
        }
    } else if m[id].ordered {
        collect_first(m, id, m[id].subtasks)
    } else {
        collect_all(m, id, m[id].subtasks)
    }
}

/// Whether subtask `s` of `parent` exists and is not completed.
pub open spec fn pending_child(m: TaskMap, parent: usize, s: usize) -> bool {
    m.contains_key(s) && below(m, s, parent) && !m[s].completed
}

/// The actionable tasks under the first pending subtask in `ids`: an ordered task
/// works on its first subtask that is not completed and on nothing after it.
pub open spec fn collect_first(m: TaskMap, parent: usize, ids: Seq<usize>) -> Seq<TaskView>
    decreases subtask_rank(m)(parent), 0nat, ids.len(),
{
    if ids.len() == 0 {
        Seq::empty()
    } else if pending_child(m, parent, ids[0]) {
        collect(m, ids[0])
    } else {
        collect_first(m, parent, ids.drop_first())
    }
}

/// The actionable tasks under every pending subtask in `ids`, concatenated.
pub open spec fn collect_all(m: TaskMap, parent: usize, ids: Seq<usize>) -> Seq<TaskView>
    decreases subtask_rank(m)(parent), 0nat, ids.len(),
{
    if ids.len() == 0 {
        Seq::empty()
    } else {
        let s = ids.last();
        collect_all(m, parent, ids.drop_last()) + if pending_child(m, parent, s) {
            collect(m, s)
        } else {
            Seq::empty()
        }
    }
}

/// The actionable tasks under each root, concatenated in the order of the roots.
pub open spec fn active_tasks(m: TaskMap, roots: Seq<usize>) -> Seq<TaskView>
    decreases roots.len(),
{
    if roots.len() == 0 {
        Seq::empty()
    } else {
        active_tasks(m, roots.drop_last()) + collect(m, roots.last())
    }
}

/// The existing tasks among `ids`, in the order of `ids`.
pub open spec fn live_views(m: TaskMap, ids: Seq<usize>) -> Seq<TaskView>
    decreases ids.len(),
{
    if ids.len() == 0 {
        Seq::empty()
    } else {
        live_views(m, ids.drop_last()) + if m.contains_key(ids.last()) {
            seq![m[ids.last()]]
        } else {
            Seq::empty()
        }
    }
}

/// The walk that collects descendants from a stack of pending ids: the top id is
/// taken; a missing task is skipped; an existing one is reported and, unless
/// `count + 1` reaches `max`, its subtasks are pushed onto the stack.
pub open spec fn walk(m: TaskMap, stack: Seq<usize>, count: nat, max: nat) -> Seq<TaskView>
    decreases (if count < max { max - count } else { 0 }), stack.len(),
{
    if stack.len() == 0 {
        Seq::empty()
    } else {
        let id = stack.last();
        let rest = stack.drop_last();
        if !m.contains_key(id) {
            walk(m, rest, count, max)
        } else if count + 1 >= max {
            seq![m[id]]
        } else {
            seq![m[id]] + walk(m, rest + m[id].subtasks, count + 1, max)
        }
    }
}

/// The task `id` followed by its ancestors, nearest first; an error names the first
/// id on the way that has no task.
pub open spec fn ancestry(m: TaskMap, id: usize) -> Result<Seq<TaskView>, Seq<char>>
    decreases parent_rank(m)(id),
{
    if !m.contains_key(id) {
        Err(not_found_text(id))
    } else {
        match m[id].parent {
            Some(p) => if !m.contains_key(p) {
                Err(not_found_text(p))
            } else if parent_rank(m)(p) < parent_rank(m)(id) {
                match ancestry(m, p) {
                    Ok(s) => Ok(seq![m[id]] + s),
                    Err(e) => Err(e),
                }
            } else {
                Ok(seq![m[id]])
            },
            None => Ok(seq![m[id]]),
        }
    }
}

/// `s` without its first occurrence of `x` (unchanged when `x` does not occur).
pub open spec fn remove_first(s: Seq<usize>, x: usize) -> Seq<usize>
    decreases s.len(),
{
    if s.len() == 0 {
        s
    } else if s[0] == x {
        s.drop_first()
    } else {
        seq![s[0]] + remove_first(s.drop_first(), x)
    }
}

/// The tasks and root ids that a removal works on.
pub type Forest = (TaskMap, Seq<usize>);

/// Removal of task `id` with all its descendants: first the subtask trees, one after
/// the other in order, then the task itself, from the tasks and from the roots.
/// The count of removed tasks comes back, or the message for the first missing id,
/// with the state reached by then.
/// `r` is a ranking of the subtask links that the removal follows (see [`ranked`]).
pub open spec fn remove_tree(st: Forest, r: spec_fn(usize) -> nat, id: usize) -> (Forest, Result<nat, Seq<char>>)
    decreases r(id), 1nat, 0nat,
{
    if !st.0.contains_key(id) {
        (st, Err(not_found_text(id)))
    } else {
        let (st2, res) = remove_trees(st, r, id, st.0[id].subtasks);
        match res {
            Ok(c) => ((st2.0.remove(id), remove_first(st2.1, id)), Ok(c + 1)),
            Err(e) => (st2, Err(e)),
        }
    }
}

/// Removal of the trees of the subtasks `ids` of `parent`, in order.
pub open spec fn remove_trees(st: Forest, r: spec_fn(usize) -> nat, parent: usize, ids: Seq<usize>) -> (
    Forest,
    Result<nat, Seq<char>>,
)
    decreases r(parent), 0nat, ids.len(),
{
    if ids.len() == 0 {
        (st, Ok(0))
    } else {
        let (st1, r1) = remove_trees(st, r, parent, ids.drop_last());
        match r1 {
            Ok(c1) => {
                let s = ids.last();
                if !st1.0.contains_key(s) {
                    (st1, Err(not_found_text(s)))
                } else if r(s) < r(parent) {
                    let (st2, r2) = remove_tree(st1, r, s);
                    match r2 {
                        Ok(c2) => (st2, Ok(c1 + c2)),
                        Err(e) => (st2, Err(e)),
                    }
                } else {
                    (st1, Ok(c1))
                }
            },
            Err(e) => (st1, Err(e)),
        }
    }
}

} // verus!
