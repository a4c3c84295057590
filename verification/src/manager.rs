//! The task manager: the tasks by id, the ordered list of root tasks and the next
//! id to hand out.
use std::collections::HashMap;
use vstd::std_specs::iter::IteratorSpec;
use vstd::prelude::*;
use crate::task::{Task, TaskView, fresh_task, fresh_subtask, task_views, copy_ids};
use crate::model::{
    TaskMap, has_live, started, any_started, sibling_of, predecessors_started, collect, collect_first, collect_all,
    pending_child, active_tasks, live_views, walk, ancestry, remove_first, remove_tree, remove_trees,
    Forest, linked, ranked, subtask_rank, parent_rank, below, has_cycle,
};
use crate::links::links_acyclic;
use crate::text::{
    bad_data_message, bad_data_text,
    not_found_message, not_found_text, parent_not_found_message, parent_not_found_text, bad_order_message,
    bad_order_text,
};

verus! {

/// The tasks of the hierarchy, the ids of its root tasks in order, and the id
/// that the next created task receives.
pub struct TaskManager {
    tasks: HashMap<usize, Task>,
    root_tasks: Vec<usize>,
    next_id: usize,
}

/// The mathematical value of a [`TaskManager`].
pub ghost struct ManagerView {
    pub tasks: TaskMap,
    pub roots: Seq<usize>,
    pub next_id: usize,
}

/// The views of the tasks stored in a hash map.
pub open spec fn map_views(m: Map<usize, Task>) -> TaskMap {
    m.map_values(|t: Task| t@)
}

impl View for TaskManager {
    type V = ManagerView;

    closed spec fn view(&self) -> ManagerView {
        ManagerView { tasks: map_views(self.tasks@), roots: self.root_tasks@, next_id: self.next_id }
    }
}

/// Task `k` of `m` is stored under its own id, and its id and its parent's id lie
/// below `next_id`.
pub open spec fn task_consistent(m: TaskMap, next_id: usize, k: usize) -> bool {
    &&& m[k].id == k
    &&& k < next_id
    &&& (m[k].parent matches Some(p) ==> p < next_id)
}

/// The structural invariant of a manager's state.
pub open spec fn consistent(v: ManagerView) -> bool {
    tasks_consistent(v.tasks, v.next_id)
}

/// Every task of `m` is consistent with respect to `next_id`, and neither the
/// subtask links nor the parent links have a cycle.
pub open spec fn tasks_consistent(m: TaskMap, next_id: usize) -> bool {
    &&& forall|k: usize| #[trigger] m.contains_key(k) ==> task_consistent(m, next_id, k)
    &&& exists|r: spec_fn(usize) -> nat| ranked(m, r, false)
    &&& exists|r: spec_fn(usize) -> nat| ranked(m, r, true)
}

/// Every task of `m` is consistent with respect to `next_id`, and neither the
/// subtask links nor the parent links run in a cycle. For finitely many tasks this
/// is [`tasks_consistent`] (see `law_consistent_iff_acyclic`).
pub open spec fn in_range_and_acyclic(m: TaskMap, next_id: usize) -> bool {
    &&& forall|k: usize| #[trigger] m.contains_key(k) ==> task_consistent(m, next_id, k)
    &&& !has_cycle(m, false)
    &&& !has_cycle(m, true)
}

/// The tasks keyed by their ids, a later task replacing an earlier one with the same id.
pub open spec fn keyed_by_id(tasks: Seq<TaskView>) -> TaskMap
    decreases tasks.len(),
{
    if tasks.len() == 0 {
        Map::empty()
    } else {
        keyed_by_id(tasks.drop_last()).insert(tasks.last().id, tasks.last())
    }
}

/// The state after `add_task` creates a root task under the next id.
pub open spec fn added_task(v: ManagerView, text: Seq<char>, ordered: bool) -> ManagerView {
    ManagerView {
        tasks: v.tasks.insert(v.next_id, fresh_task(v.next_id, text, ordered)),
        roots: v.roots.push(v.next_id),
        next_id: (v.next_id + 1) as usize,
    }
}

/// The state after `add_subtask` asks for a subtask of `parent_id` under the next id:
/// the id is used up either way; the subtask is created only when the parent exists.
pub open spec fn added_subtask(v: ManagerView, parent_id: usize, text: Seq<char>) -> ManagerView {
    let id = v.next_id;
    let parent = v.tasks[parent_id];
    if v.tasks.contains_key(parent_id) {
        ManagerView {
            tasks: v.tasks.insert(parent_id, TaskView { subtasks: parent.subtasks.push(id), ..parent }).insert(
                id,
                fresh_subtask(id, text, parent),
            ),
            roots: v.roots,
            next_id: (id + 1) as usize,
        }
    } else {
        ManagerView { next_id: (id + 1) as usize, ..v }
    }
}

/// A saved copy of a manager's state.
pub struct TaskManagerData {
    pub tasks: Vec<Task>,
    pub root_tasks: Vec<usize>,
    pub next_id: usize,
}

/// The state that restoring `data` produces.
pub open spec fn restored(data: TaskManagerData) -> ManagerView {
    ManagerView { tasks: keyed_by_id(task_views(data.tasks@)), roots: data.root_tasks@, next_id: data.next_id }
}

/// The invariant, instantiated at task `k`.
proof fn lemma_task_consistent(v: ManagerView, k: usize)
    requires
        consistent(v),
        v.tasks.contains_key(k),
    ensures
        task_consistent(v.tasks, v.next_id, k),
{
}

/// The chosen rankings of a consistent state are rankings.
pub proof fn lemma_rankings(m: TaskMap, next_id: usize)
    requires
        tasks_consistent(m, next_id),
    ensures
        ranked(m, subtask_rank(m), false),
        ranked(m, parent_rank(m), true),
{
}

/// An existing subtask of an existing task ranks below it.
pub proof fn lemma_below(m: TaskMap, next_id: usize, k: usize, i: int)
    requires
        tasks_consistent(m, next_id),
        m.contains_key(k),
        0 <= i < m[k].subtasks.len(),
        m.contains_key(m[k].subtasks[i]),
    ensures
        below(m, m[k].subtasks[i], k),
{
    lemma_rankings(m, next_id);
    assert(m[k].subtasks.contains(m[k].subtasks[i]));
    assert(linked(m, k, m[k].subtasks[i], false));
}

/// An existing parent of an existing task ranks below it in the parent ranking.
pub proof fn lemma_parent_below(m: TaskMap, next_id: usize, k: usize, p: usize)
    requires
        tasks_consistent(m, next_id),
        m.contains_key(k),
        m.contains_key(p),
        m[k].parent == Some(p),
    ensures
        parent_rank(m)(p) < parent_rank(m)(k),
{
    lemma_rankings(m, next_id);
    assert(linked(m, k, p, true));
}

/// Maps whose tasks agree on existence, parents and subtask ids (as sets) share rankings.
proof fn lemma_same_links(m: TaskMap, n: TaskMap, next_id: usize)
    requires
        tasks_consistent(m, next_id),
        forall|k: usize| #[trigger] n.contains_key(k) ==> m.contains_key(k) && n[k].id == m[k].id
            && n[k].parent == m[k].parent && same_ids(n[k].subtasks, m[k].subtasks),
    ensures
        tasks_consistent(n, next_id),
{
    lemma_rankings(m, next_id);
    assert forall|k: usize| #[trigger] n.contains_key(k) implies task_consistent(n, next_id, k) by {
        assert(task_consistent(m, next_id, k));
    }
    let r = subtask_rank(m);
    let q = parent_rank(m);
    assert forall|k: usize, x: usize| n.contains_key(k) && n.contains_key(x) && #[trigger] linked(n, k, x, false)
        implies r(x) < r(k) by {
        assert(linked(m, k, x, false));
    }
    assert forall|k: usize, x: usize| n.contains_key(k) && n.contains_key(x) && #[trigger] linked(n, k, x, true)
        implies q(x) < q(k) by {
        assert(linked(m, k, x, true));
    }
    assert(ranked(n, r, false));
    assert(ranked(n, q, true));
}

proof fn lemma_views_insert(m: Map<usize, Task>, k: usize, t: Task)
    ensures
        map_views(m.insert(k, t)) == map_views(m).insert(k, t@),
{
    assert(map_views(m.insert(k, t)) =~= map_views(m).insert(k, t@));
}

proof fn lemma_views_remove(m: Map<usize, Task>, k: usize)
    ensures
        map_views(m.remove(k)) == map_views(m).remove(k),
{
    assert(map_views(m.remove(k)) =~= map_views(m).remove(k));
}

/// Replacing a task by one with the same id, parent and subtasks keeps the state consistent.
proof fn lemma_consistent_update(v: ManagerView, id: usize, t: TaskView)
    requires
        consistent(v),
        v.tasks.contains_key(id),
        t.id == id,
        t.parent == v.tasks[id].parent,
        same_ids(t.subtasks, v.tasks[id].subtasks),
    ensures
        consistent(ManagerView { tasks: v.tasks.insert(id, t), ..v }),
{
    let n = v.tasks.insert(id, t);
    assert forall|k: usize| #[trigger] n.contains_key(k) implies v.tasks.contains_key(k) && n[k].id == v.tasks[k].id
        && n[k].parent == v.tasks[k].parent && same_ids(n[k].subtasks, v.tasks[k].subtasks) by {
        if k != id {
            assert(same_ids(n[k].subtasks, v.tasks[k].subtasks));
        }
    }
    lemma_same_links(v.tasks, n, v.next_id);
}

/// Two id lists hold the same ids, each possibly several times.
pub open spec fn same_ids(a: Seq<usize>, b: Seq<usize>) -> bool {
    forall|x: usize| a.contains(x) <==> b.contains(x)
}

fn contains_id(v: &Vec<usize>, x: usize) -> (r: bool)
    ensures
        r == v@.contains(x),
{
    let mut i: usize = 0;
    while i < v.len()
        invariant
            i <= v.len(),
            forall|j: int| 0 <= j < i ==> v@[j] != x,
        decreases v.len() - i,
    {
        if v[i] == x {
            assert(v@[i as int] == x);
            return true;
        }
        i = i + 1;
    }
    false
}

/// Whether every id of `a` occurs in `b`.
fn all_contained(a: &Vec<usize>, b: &Vec<usize>) -> (r: bool)
    ensures
        r == (forall|x: usize| a@.contains(x) ==> b@.contains(x)),
{
    let mut i: usize = 0;
    while i < a.len()
        invariant
            i <= a.len(),
            forall|j: int| 0 <= j < i ==> b@.contains(#[trigger] a@[j]),
        decreases a.len() - i,
    {
        if !contains_id(b, a[i]) {
            assert(a@.contains(a@[i as int]));
            return false;
        }
        i = i + 1;
    }
    assert forall|x: usize| a@.contains(x) implies b@.contains(x) by {
        let j = choose|j: int| 0 <= j < a@.len() && a@[j] == x;
        assert(b@.contains(a@[j]));
    }
    true
}

/// Dropping tasks, and keeping the others unchanged, keeps the state consistent.
pub(crate) proof fn lemma_consistent_shrink(v: ManagerView, w: ManagerView)
    requires
        consistent(v),
        w.next_id == v.next_id,
        forall|k: usize| #[trigger] w.tasks.contains_key(k) ==> v.tasks.contains_key(k) && w.tasks[k] == v.tasks[k],
    ensures
        consistent(w),
{
    assert forall|k: usize| #[trigger] w.tasks.contains_key(k) implies v.tasks.contains_key(k) && w.tasks[k].id
        == v.tasks[k].id && w.tasks[k].parent == v.tasks[k].parent && same_ids(w.tasks[k].subtasks, v.tasks[k].subtasks) by {
    }
    lemma_same_links(v.tasks, w.tasks, v.next_id);
}

/// A new task under the next id, without subtasks, whose parent (if any) exists,
/// keeps the state consistent, as does listing it as the parent's last subtask.
pub(crate) proof fn lemma_consistent_add(v: ManagerView, t: TaskView, parent_id: usize)
    requires
        consistent(v),
        v.next_id < usize::MAX,
        t.id == v.next_id,
        t.subtasks.len() == 0,
        t.parent is None || (t.parent == Some(parent_id) && v.tasks.contains_key(parent_id)),
    ensures
        t.parent is None ==> consistent(ManagerView {
            tasks: v.tasks.insert(t.id, t),
            next_id: (v.next_id + 1) as usize,
            ..v
        }),
        t.parent is Some ==> consistent(ManagerView {
            tasks: v.tasks.insert(
                parent_id,
                TaskView { subtasks: v.tasks[parent_id].subtasks.push(t.id), ..v.tasks[parent_id] },
            ).insert(t.id, t),
            next_id: (v.next_id + 1) as usize,
            ..v
        }),
{
    let m = v.tasks;
    let c = t.id;
    let next = (v.next_id + 1) as usize;
    lemma_rankings(m, v.next_id);
    assert(!m.contains_key(c)) by {
        if m.contains_key(c) {
            assert(task_consistent(m, v.next_id, c));
        }
    }
    let r = subtask_rank(m);
    let q = parent_rank(m);
    let r2 = |x: usize| if x == c { 0nat } else { r(x) + 1 };
    let n = if t.parent is None {
        m.insert(c, t)
    } else {
        m.insert(parent_id, TaskView { subtasks: m[parent_id].subtasks.push(c), ..m[parent_id] }).insert(c, t)
    };
    let q2 = |x: usize| if x == c { q(parent_id) + 1 } else { q(x) };
    assert forall|k: usize| #[trigger] n.contains_key(k) implies task_consistent(n, next, k) by {
        if k != c {
            assert(task_consistent(m, v.next_id, k));
        }
    }
    assert forall|k: usize, x: usize| n.contains_key(k) && n.contains_key(x) && #[trigger] linked(n, k, x, false)
        implies r2(x) < r2(k) by {
        if k != c && x != c {
            if t.parent is Some && k == parent_id {
                let i = choose|i: int| 0 <= i < n[k].subtasks.len() && n[k].subtasks[i] == x;
                assert(m[k].subtasks[i] == x);
                assert(m[k].subtasks.contains(x));
            }
            assert(linked(m, k, x, false));
        } else if k == c {
            assert(!n[c].subtasks.contains(x));
        }
    }
    assert forall|k: usize, x: usize| n.contains_key(k) && n.contains_key(x) && #[trigger] linked(n, k, x, true)
        implies q2(x) < q2(k) by {
        if k != c {
            assert(task_consistent(m, v.next_id, k));
            assert(linked(m, k, x, true));
        }
    }
    assert(ranked(n, r2, false));
    assert(ranked(n, q2, true));
}

/// Removing the element at the first occurrence of `x` is [`remove_first`].
pub(crate) proof fn lemma_remove_first(s: Seq<usize>, x: usize, pos: int)
    requires
        0 <= pos <= s.len(),
        forall|j: int| 0 <= j < pos ==> s[j] != x,
        pos < s.len() ==> s[pos] == x,
    ensures
        pos < s.len() ==> remove_first(s, x) == s.remove(pos),
        pos == s.len() ==> remove_first(s, x) == s,
    decreases pos,
{
    if s.len() == 0 {
    } else if pos == 0 {
        assert(s.remove(0) =~= s.drop_first());
    } else {
        lemma_remove_first(s.drop_first(), x, pos - 1);
        if pos < s.len() {
            assert(seq![s[0]] + s.drop_first().remove(pos - 1) =~= s.remove(pos));
        } else {
            assert(seq![s[0]] + s.drop_first() =~= s);
        }
    }
}

proof fn lemma_views_push(s: Seq<Task>, t: Task)
    ensures
        task_views(s.push(t)) == task_views(s).push(t@),
{
    assert(task_views(s.push(t)) =~= task_views(s).push(t@));
}

impl TaskManager {
    /// The manager's state satisfies its structural invariant.
    pub open spec fn wf(&self) -> bool {
        consistent(self@)
    }

    pub fn new() -> (r: TaskManager)
        ensures
            r.wf(),
            r@.tasks == Map::<usize, TaskView>::empty(),
            r@.roots == Seq::<usize>::empty(),
            r@.next_id == 1,
    {
        let r = TaskManager { tasks: HashMap::new(), root_tasks: Vec::new(), next_id: 1 };
        assert(r@.tasks =~= Map::<usize, TaskView>::empty());
        assert(ranked(r@.tasks, |x: usize| 0nat, false));
        assert(ranked(r@.tasks, |x: usize| 0nat, true));
        r
    }

    /// The id that the next created task receives.
    pub fn next_id(&self) -> (r: usize)
        ensures
            r == self@.next_id,
    {
        self.next_id
    }

    fn generate_id(&mut self) -> (id: usize)
        requires
            old(self).next_id < usize::MAX,
        ensures
            id == old(self).next_id,
            final(self).next_id == id + 1,
            final(self).tasks == old(self).tasks,
            final(self).root_tasks == old(self).root_tasks,
    {
        let current_id = self.next_id;
        self.next_id = self.next_id + 1;
        current_id
    }

    fn store(&mut self, t: Task)
        ensures
            final(self)@ == (ManagerView { tasks: old(self)@.tasks.insert(t.id, t@), ..old(self)@ }),
    {
        let ghost old_tasks = self.tasks@;
        let id = t.id;
        self.tasks.insert(id, t);
        proof {
            lemma_views_insert(old_tasks, id, t);
        }
    }

    /// Creates a root task with the given text and returns its id.
    pub fn add_task(&mut self, text: String, ordered: bool) -> (id: usize)
        requires
            old(self).wf(),
            old(self)@.next_id < usize::MAX,
        ensures
            final(self).wf(),
            id == old(self)@.next_id,
            !old(self)@.tasks.contains_key(id),
            final(self)@.tasks == old(self)@.tasks.insert(id, fresh_task(id, text@, ordered)),
            final(self)@.roots == old(self)@.roots.push(id),
            final(self)@.next_id == id + 1,
            final(self)@ == added_task(old(self)@, text@, ordered),
    {
        let id = self.generate_id();
        let task = Task::new(id, text, ordered);
        self.store(task);
        self.root_tasks.push(id);
        proof {
            lemma_consistent_add(old(self)@, fresh_task(id, text@, ordered), 0);
            if old(self)@.tasks.contains_key(id) {
                assert(task_consistent(old(self)@.tasks, old(self)@.next_id, id));
            }
        }
        id
    }

    /// The task with the given id, if there is one.
    pub fn get_task(&self, id: usize) -> (r: Option<Task>)
        ensures
            match r {
                Some(t) => self@.tasks.contains_key(id) && t@ == self@.tasks[id],
                None => !self@.tasks.contains_key(id),
            },
    {
        match self.tasks.get(&id) {
            Some(t) => Some(t.clone()),
            None => None,
        }
    }

    /// Whether some id of `ids` names a task.
    fn has_live_subtask(&self, ids: &Vec<usize>) -> (r: bool)
        ensures
            r == has_live(self@.tasks, ids@),
    {
        let ghost m = self@.tasks;
        let mut i: usize = 0;
        while i < ids.len()
            invariant
                i <= ids.len(),
                m == self@.tasks,
                forall|j: int| 0 <= j < i ==> !m.contains_key(#[trigger] ids@[j]),
            decreases ids.len() - i,
        {
            if self.tasks.contains_key(&ids[i]) {
                assert(m.contains_key(ids@[i as int]));
                return true;
            }
            i = i + 1;
        }
        false
    }

    /// Whether work on task `id` has started (see [`started`]).
    fn is_started(&self, id: usize) -> (r: bool)
        requires
            self.wf(),
            self@.tasks.contains_key(id),
        ensures
            r == started(self@.tasks, id),
        decreases subtask_rank(self@.tasks)(id),
    {
        let ghost m = self@.tasks;
        let task = match self.tasks.get(&id) {
            Some(t) => t,
            None => { return false; },
        };
        assert(task@ == m[id]);
        if task.completed {
            return true;
        }
        let ghost subs = task.subtasks@;
        assert forall|j: int| 0 <= j < subs.len() && m.contains_key(subs[j]) implies #[trigger] below(m, subs[j], id) by {
            lemma_below(m, self@.next_id, id, j);
        }
        let mut any = false;
        let n = task.subtasks.len();
        for i in 0..n
            invariant
                self.wf(),
                m == self@.tasks,
                m.contains_key(id),
                task@ == m[id],
                subs == task.subtasks@,
                n == subs.len(),
                forall|j: int| 0 <= j < subs.len() && m.contains_key(subs[j]) ==> #[trigger] below(m, subs[j], id),
                any == any_started(m, id, subs.take(i as int)),
        {
            let s = task.subtasks[i];
            assert(subs.take(i + 1).drop_last() =~= subs.take(i as int));
            assert(subs.take(i + 1).last() == s);
            if self.tasks.contains_key(&s) {
                assert(below(m, subs[i as int], id));
                if self.is_started(s) {
                    any = true;
                }
            }
        }
        assert(subs.take(n as int) =~= subs);
        any
    }

    /// Whether work has started on every existing predecessor of `task` that is
    /// not a sibling (see [`predecessors_started`]).
    fn predecessors_started(&self, task: &Task) -> (r: bool)
        requires
            self.wf(),
        ensures
            r == predecessors_started(self@.tasks, task@),
    {
        let ghost m = self@.tasks;
        let preds = &task.predecessors;
        let mut i: usize = 0;
        while i < preds.len()
            invariant
                self.wf(),
                i <= preds.len(),
                m == self@.tasks,
                preds@ == task@.predecessors,
                forall|j: int|
                    0 <= j < i && m.contains_key(#[trigger] preds@[j]) && !sibling_of(m, task@, preds@[j])
                        ==> started(m, preds@[j]),
            decreases preds.len() - i,
        {
            let p = preds[i];
            if self.tasks.contains_key(&p) && !self.is_sibling(task, p) {
                if !self.is_started(p) {
                    assert(m.contains_key(preds@[i as int]) && !started(m, preds@[i as int]));
                    return false;
                }
            }
            i = i + 1;
        }
        true
    }

    /// Whether `x` is listed as a subtask of `task`'s parent.
    fn is_sibling(&self, task: &Task, x: usize) -> (r: bool)
        ensures
            r == sibling_of(self@.tasks, task@, x),
    {
        match task.parent {
            Some(q) => match self.tasks.get(&q) {
                Some(parent) => contains_id(&parent.subtasks, x),
                None => false,
            },
            None => false,
        }
    }

    /// Appends the actionable tasks under `task` to `active_tasks` (see [`collect`]).
    fn collect_active_tasks(&self, task: &Task, active_tasks: &mut Vec<Task>)
        requires
            self.wf(),
            self@.tasks.contains_key(task.id),
            task@ == self@.tasks[task.id],
        ensures
            task_views(final(active_tasks)@) == task_views(old(active_tasks)@) + collect(self@.tasks, task.id),
        decreases subtask_rank(self@.tasks)(task.id),
    {
        let ghost m = self@.tasks;
        let ghost id = task.id;
        if task.completed {
            assert(task_views(active_tasks@) =~= task_views(active_tasks@) + Seq::<TaskView>::empty());
            return;
        }
        if !self.has_live_subtask(&task.subtasks) {
            if self.predecessors_started(task) {
                let ghost before = active_tasks@;
                active_tasks.push(task.clone());
                proof {
                    lemma_views_push(before, active_tasks@.last());
                }
                assert(task_views(active_tasks@) =~= task_views(before) + seq![m[id]]);
            } else {
                assert(task_views(active_tasks@) =~= task_views(active_tasks@) + Seq::<TaskView>::empty());
            }
            return;
        }
        let ghost subs = task.subtasks@;
        assert forall|j: int| 0 <= j < subs.len() && m.contains_key(subs[j]) implies #[trigger] below(m, subs[j], id) by {
            lemma_below(m, self@.next_id, id, j);
        }
        assert(subs.skip(0) =~= subs);
        let ghost start = active_tasks@;
        let n = task.subtasks.len();
        if task.ordered {
            let mut i: usize = 0;
            let mut found = false;
            while i < n && !found
                invariant
                    self.wf(),
                    m == self@.tasks,
                    m.contains_key(id),
                    task@ == m[id],
                    subs == task.subtasks@,
                    n == subs.len(),
                    i <= n,
                    forall|j: int| 0 <= j < subs.len() && m.contains_key(subs[j]) ==> #[trigger] below(m, subs[j], id),
                    !found ==> active_tasks@ == start,
                    !found ==> collect_first(m, id, subs) == collect_first(m, id, subs.skip(i as int)),
                    found ==> task_views(active_tasks@) == task_views(start) + collect_first(m, id, subs),
                decreases n - i, (if found { 0nat } else { 1nat }),
            {
                let s = task.subtasks[i];
                assert(subs.skip(i as int)[0] == s);
                assert(subs.skip(i as int).drop_first() =~= subs.skip(i + 1));
                match self.tasks.get(&s) {
                    Some(sub) => {
                        assert(m.contains_key(s));
                        assert(below(m, subs[i as int], id));
                        proof {
                            lemma_task_consistent(self@, s);
                        }
                        if !sub.completed {
                            self.collect_active_tasks(sub, active_tasks);
                            found = true;
                        } else {
                            i = i + 1;
                        }
                    },
                    None => {
                        i = i + 1;
                    },
                }
            }
            if !found {
                assert(subs.skip(n as int) =~= Seq::<usize>::empty());
                assert(task_views(active_tasks@) =~= task_views(start) + Seq::<TaskView>::empty());
            }
        } else {
            for i in 0..n
                invariant
                    self.wf(),
                    m == self@.tasks,
                    m.contains_key(id),
                    task@ == m[id],
                    subs == task.subtasks@,
                    n == subs.len(),
                    forall|j: int| 0 <= j < subs.len() && m.contains_key(subs[j]) ==> #[trigger] below(m, subs[j], id),
                    task_views(active_tasks@) == task_views(start) + collect_all(m, id, subs.take(i as int)),
            {
                let s = task.subtasks[i];
                assert(subs.take(i + 1).drop_last() =~= subs.take(i as int));
                assert(subs.take(i + 1).last() == s);
                let ghost before = active_tasks@;
                match self.tasks.get(&s) {
                    Some(sub) => {
                        assert(m.contains_key(s));
                        assert(below(m, subs[i as int], id));
                        proof {
                            lemma_task_consistent(self@, s);
                        }
                        if !sub.completed {
                            self.collect_active_tasks(sub, active_tasks);
                        } else {
                            assert(task_views(active_tasks@) =~= task_views(before) + Seq::<TaskView>::empty());
                        }
                    },
                    None => {
                        assert(task_views(active_tasks@) =~= task_views(before) + Seq::<TaskView>::empty());
                    },
                }
                assert(task_views(start) + collect_all(m, id, subs.take(i + 1)) =~= task_views(start)
                    + collect_all(m, id, subs.take(i as int)) + (if pending_child(m, id, s) {
                    collect(m, s)
                } else {
                    Seq::empty()
                }));
            }
            assert(subs.take(n as int) =~= subs);
        }
    }

    /// The actionable tasks: those with nothing left to wait on, found by walking
    /// each root task in order (see [`active_tasks`]).
    pub fn get_active_tasks(&self) -> (r: Vec<Task>)
        requires
            self.wf(),
        ensures
            task_views(r@) == active_tasks(self@.tasks, self@.roots),
    {
        let ghost m = self@.tasks;
        let ghost roots = self@.roots;
        let mut active: Vec<Task> = Vec::new();
        assert(task_views(active@) =~= Seq::<TaskView>::empty());
        for i in 0..self.root_tasks.len()
            invariant
                self.wf(),
                m == self@.tasks,
                roots == self@.roots,
                roots == self.root_tasks@,
                task_views(active@) == active_tasks(m, roots.take(i as int)),
        {
            let r = self.root_tasks[i];
            assert(roots.take(i + 1).drop_last() =~= roots.take(i as int));
            assert(roots.take(i + 1).last() == r);
            match self.tasks.get(&r) {
                Some(t) => {
                    proof {
                        lemma_task_consistent(self@, r);
                    }
                    self.collect_active_tasks(t, &mut active);
                },
                None => {
                    assert(task_views(active@) =~= task_views(active@) + collect(m, r));
                },
            }
        }
        assert(roots.take(self.root_tasks.len() as int) =~= roots);
        active
    }

    /// Takes task `id` out of the map, if present.
    fn take_task(&mut self, id: usize) -> (r: Option<Task>)
        ensures
            match r {
                Some(t) => old(self)@.tasks.contains_key(id) && t@ == old(self)@.tasks[id]
                    && final(self)@ == (ManagerView { tasks: old(self)@.tasks.remove(id), ..old(self)@ }),
                None => !old(self)@.tasks.contains_key(id) && final(self)@ == old(self)@,
            },
    {
        let ghost old_tasks = self.tasks@;
        let r = self.tasks.remove(&id);
        proof {
            lemma_views_remove(old_tasks, id);
            if r is None {
                assert(self.tasks@ =~= old_tasks);
            }
        }
        r
    }

    /// Replaces the text of task `id`.
    pub fn update_task_text(&mut self, id: usize, text: String) -> (r: Result<(), String>)
        requires
            old(self).wf(),
        ensures
            final(self).wf(),
            match r {
                Ok(()) => old(self)@.tasks.contains_key(id) && final(self)@ == (ManagerView {
                    tasks: old(self)@.tasks.insert(id, TaskView { text: text@, ..old(self)@.tasks[id] }),
                    ..old(self)@
                }),
                Err(e) => !old(self)@.tasks.contains_key(id) && e@ == not_found_text(id) && final(self)@ == old(self)@,
            },
    {
        match self.take_task(id) {
            Some(mut t) => {
                proof {
                    assert(task_consistent(old(self)@.tasks, old(self)@.next_id, id));
                    lemma_consistent_update(old(self)@, id, TaskView { text: text@, ..old(self)@.tasks[id] });
                }
                t.text = text;
                self.store(t);
                assert(self@.tasks =~= old(self)@.tasks.insert(id, TaskView { text: text@, ..old(self)@.tasks[id] }));
                Ok(())
            },
            None => Err(not_found_message(id)),
        }
    }

    /// Marks task `id` as completed.
    pub fn complete_task(&mut self, id: usize) -> (r: Result<(), String>)
        requires
            old(self).wf(),
        ensures
            final(self).wf(),
            match r {
                Ok(()) => old(self)@.tasks.contains_key(id) && final(self)@ == (ManagerView {
                    tasks: old(self)@.tasks.insert(id, TaskView { completed: true, ..old(self)@.tasks[id] }),
                    ..old(self)@
                }),
                Err(e) => !old(self)@.tasks.contains_key(id) && e@ == not_found_text(id) && final(self)@ == old(self)@,
            },
    {
        match self.take_task(id) {
            Some(mut t) => {
                proof {
                    assert(task_consistent(old(self)@.tasks, old(self)@.next_id, id));
                    lemma_consistent_update(old(self)@, id, TaskView { completed: true, ..old(self)@.tasks[id] });
                }
                t.completed = true;
                self.store(t);
                assert(self@.tasks =~= old(self)@.tasks.insert(id, TaskView { completed: true, ..old(self)@.tasks[id] }));
                Ok(())
            },
            None => Err(not_found_message(id)),
        }
    }

    /// Marks task `id` as not completed.
    pub fn uncomplete_task(&mut self, id: usize) -> (r: Result<(), String>)
        requires
            old(self).wf(),
        ensures
            final(self).wf(),
            match r {
                Ok(()) => old(self)@.tasks.contains_key(id) && final(self)@ == (ManagerView {
                    tasks: old(self)@.tasks.insert(id, TaskView { completed: false, ..old(self)@.tasks[id] }),
                    ..old(self)@
                }),
                Err(e) => !old(self)@.tasks.contains_key(id) && e@ == not_found_text(id) && final(self)@ == old(self)@,
            },
    {
        match self.take_task(id) {
            Some(mut t) => {
                proof {
                    assert(task_consistent(old(self)@.tasks, old(self)@.next_id, id));
                    lemma_consistent_update(old(self)@, id, TaskView { completed: false, ..old(self)@.tasks[id] });
                }
                t.completed = false;
                self.store(t);
                assert(self@.tasks =~= old(self)@.tasks.insert(id, TaskView { completed: false, ..old(self)@.tasks[id] }));
                Ok(())
            },
            None => Err(not_found_message(id)),
        }
    }

    /// Switches task `id` between ordered and unordered subtasks.
    pub fn toggle_ordered(&mut self, id: usize) -> (r: Result<(), String>)
        requires
            old(self).wf(),
        ensures
            final(self).wf(),
            match r {
                Ok(()) => old(self)@.tasks.contains_key(id) && final(self)@ == (ManagerView {
                    tasks: old(self)@.tasks.insert(
                        id,
                        TaskView { ordered: !old(self)@.tasks[id].ordered, ..old(self)@.tasks[id] },
                    ),
                    ..old(self)@
                }),
                Err(e) => !old(self)@.tasks.contains_key(id) && e@ == not_found_text(id) && final(self)@ == old(self)@,
            },
    {
        match self.take_task(id) {
            Some(mut t) => {
                let ghost nt = TaskView { ordered: !old(self)@.tasks[id].ordered, ..old(self)@.tasks[id] };
                proof {
                    assert(task_consistent(old(self)@.tasks, old(self)@.next_id, id));
                    lemma_consistent_update(old(self)@, id, nt);
                }
                t.ordered = !t.ordered;
                self.store(t);
                assert(self@.tasks =~= old(self)@.tasks.insert(id, nt));
                Ok(())
            },
            None => Err(not_found_message(id)),
        }
    }

    /// Makes task `id` wait for task `predecessor_id` as well.
    pub fn add_predecessor(&mut self, id: usize, predecessor_id: usize) -> (r: Result<(), String>)
        requires
            old(self).wf(),
        ensures
            final(self).wf(),
            match r {
                Ok(()) => old(self)@.tasks.contains_key(id) && final(self)@ == (ManagerView {
                    tasks: old(self)@.tasks.insert(
                        id,
                        TaskView {
                            predecessors: old(self)@.tasks[id].predecessors.push(predecessor_id),
                            ..old(self)@.tasks[id]
                        },
                    ),
                    ..old(self)@
                }),
                Err(e) => !old(self)@.tasks.contains_key(id) && e@ == not_found_text(id) && final(self)@ == old(self)@,
            },
    {
        match self.take_task(id) {
            Some(mut t) => {
                let ghost nt = TaskView {
                    predecessors: old(self)@.tasks[id].predecessors.push(predecessor_id),
                    ..old(self)@.tasks[id]
                };
                proof {
                    assert(task_consistent(old(self)@.tasks, old(self)@.next_id, id));
                    lemma_consistent_update(old(self)@, id, nt);
                }
                t.predecessors.push(predecessor_id);
                self.store(t);
                assert(self@.tasks =~= old(self)@.tasks.insert(id, nt));
                Ok(())
            },
            None => Err(not_found_message(id)),
        }
    }

    /// Creates a subtask of `parent_id` and returns its id. The id is used up even
    /// when the parent does not exist.
    pub fn add_subtask(&mut self, parent_id: usize, text: String) -> (r: Result<usize, String>)
        requires
            old(self).wf(),
            old(self)@.next_id < usize::MAX,
        ensures
            final(self).wf(),
            final(self)@.next_id == old(self)@.next_id + 1,
            final(self)@.roots == old(self)@.roots,
            final(self)@ == added_subtask(old(self)@, parent_id, text@),
            match r {
                Ok(id) => {
                    let parent = old(self)@.tasks[parent_id];
                    &&& old(self)@.tasks.contains_key(parent_id)
                    &&& id == old(self)@.next_id
                    &&& !old(self)@.tasks.contains_key(id)
                    &&& final(self)@.tasks == old(self)@.tasks.insert(
                        parent_id,
                        TaskView { subtasks: parent.subtasks.push(id), ..parent },
                    ).insert(id, fresh_subtask(id, text@, parent))
                },
                Err(e) => !old(self)@.tasks.contains_key(parent_id) && e@ == not_found_text(parent_id)
                    && final(self)@.tasks == old(self)@.tasks,
            },
    {
        let id = self.generate_id();
        let ghost v1 = self@;
        let mut subtask = Task::new(id, text, true);
        match self.take_task(parent_id) {
            Some(mut parent) => {
                let ghost pv = parent@;
                proof {
                    assert(task_consistent(v1.tasks, old(self)@.next_id, parent_id));
                    if v1.tasks.contains_key(id) {
                        assert(task_consistent(v1.tasks, old(self)@.next_id, id));
                    }
                }
                subtask.parent = Some(parent_id);
                if parent.ordered && parent.subtasks.len() > 0 {
                    let last = parent.subtasks[parent.subtasks.len() - 1];
                    subtask.predecessors.push(last);
                }
                assert(subtask@ =~= fresh_subtask(id, subtask.text@, pv));
                parent.subtasks.push(id);
                self.store(parent);
                self.store(subtask);
                proof {
                    lemma_consistent_add(old(self)@, fresh_subtask(id, subtask.text@, pv), parent_id);
                    assert(self@.tasks =~= old(self)@.tasks.insert(
                        parent_id,
                        TaskView { subtasks: pv.subtasks.push(id), ..pv },
                    ).insert(id, fresh_subtask(id, subtask.text@, pv)));
                }
                Ok(id)
            },
            None => Err(not_found_message(parent_id)),
        }
    }

    /// Replaces the subtask list of `parent_id` by `new_order`, which must hold the
    /// same ids as the current list. Nothing else changes.
    pub fn reorder_subtasks(&mut self, parent_id: usize, new_order: Vec<usize>) -> (r: Result<(), String>)
        requires
            old(self).wf(),
        ensures
            final(self).wf(),
            match r {
                Ok(()) => old(self)@.tasks.contains_key(parent_id)
                    && same_ids(old(self)@.tasks[parent_id].subtasks, new_order@)
                    && final(self)@ == (ManagerView {
                    tasks: old(self)@.tasks.insert(
                        parent_id,
                        TaskView { subtasks: new_order@, ..old(self)@.tasks[parent_id] },
                    ),
                    ..old(self)@
                }),
                Err(e) => final(self)@ == old(self)@ && if !old(self)@.tasks.contains_key(parent_id) {
                    e@ == parent_not_found_text(parent_id)
                } else {
                    !same_ids(old(self)@.tasks[parent_id].subtasks, new_order@) && e@ == bad_order_text()
                },
            },
    {
        let parent = match self.tasks.get(&parent_id) {
            Some(p) => p,
            None => {
                return Err(parent_not_found_message(parent_id));
            },
        };
        assert(self@.tasks.contains_key(parent_id) && parent@ == self@.tasks[parent_id]);
        let same = all_contained(&parent.subtasks, &new_order) && all_contained(&new_order, &parent.subtasks);
        if !same {
            return Err(bad_order_message());
        }
        let mut updated = parent.clone();
        updated.subtasks = new_order;
        let ghost pv = old(self)@.tasks[parent_id];
        let ghost nt = TaskView { subtasks: updated.subtasks@, ..pv };
        proof {
            assert(task_consistent(old(self)@.tasks, old(self)@.next_id, parent_id));
            assert(same_ids(nt.subtasks, pv.subtasks));
            lemma_consistent_update(old(self)@, parent_id, nt);
        }
        self.store(updated);
        Ok(())
    }

    /// The existing direct subtasks of task `id`, in their listed order.
    pub fn get_subtasks(&self, id: usize) -> (r: Result<Vec<Task>, String>)
        ensures
            match r {
                Ok(v) => self@.tasks.contains_key(id) && task_views(v@) == live_views(
                    self@.tasks,
                    self@.tasks[id].subtasks,
                ),
                Err(e) => !self@.tasks.contains_key(id) && e@ == not_found_text(id),
            },
    {
        let ghost m = self@.tasks;
        let task = match self.tasks.get(&id) {
            Some(t) => t,
            None => {
                return Err(not_found_message(id));
            },
        };
        let ghost ids = task.subtasks@;
        let mut subtasks: Vec<Task> = Vec::new();
        assert(task_views(subtasks@) =~= Seq::<TaskView>::empty());
        for i in 0..task.subtasks.len()
            invariant
                m == self@.tasks,
                ids == task.subtasks@,
                task_views(subtasks@) == live_views(m, ids.take(i as int)),
        {
            let sid = task.subtasks[i];
            assert(ids.take(i + 1).drop_last() =~= ids.take(i as int));
            assert(ids.take(i + 1).last() == sid);
            let ghost before = subtasks@;
            match self.tasks.get(&sid) {
                Some(t) => {
                    subtasks.push(t.clone());
                    proof {
                        lemma_views_push(before, subtasks@.last());
                    }
                },
                None => {},
            }
            assert(task_views(subtasks@) =~= live_views(m, ids.take(i + 1)));
        }
        assert(ids.take(task.subtasks.len() as int) =~= ids);
        Ok(subtasks)
    }

    /// Task `task_id` followed by its ancestors, nearest first (see [`ancestry`]).
    pub fn get_parent_tasks(&self, task_id: usize) -> (r: Result<Vec<Task>, String>)
        requires
            self.wf(),
        ensures
            match r {
                Ok(v) => ancestry(self@.tasks, task_id) == Ok::<Seq<TaskView>, Seq<char>>(task_views(v@)),
                Err(e) => ancestry(self@.tasks, task_id) == Err::<Seq<TaskView>, Seq<char>>(e@),
            },
    {
        let ghost m = self@.tasks;
        let mut hierarchy: Vec<Task> = Vec::new();
        let mut current_task_id: Option<usize> = Some(task_id);
        assert(task_views(hierarchy@) =~= Seq::<TaskView>::empty());
        proof {
            match ancestry(m, task_id) {
                Ok(s) => {
                    assert(task_views(hierarchy@) + s =~= s);
                },
                Err(e) => {},
            }
        }
        loop
            invariant
                self.wf(),
                m == self@.tasks,
                match current_task_id {
                    Some(c) => match ancestry(m, c) {
                        Ok(s) => ancestry(m, task_id) == Ok::<Seq<TaskView>, Seq<char>>(
                            task_views(hierarchy@) + s,
                        ),
                        Err(e) => ancestry(m, task_id) == Err::<Seq<TaskView>, Seq<char>>(e),
                    },
                    None => ancestry(m, task_id) == Ok::<Seq<TaskView>, Seq<char>>(task_views(hierarchy@)),
                },
            ensures
                ancestry(m, task_id) == Ok::<Seq<TaskView>, Seq<char>>(task_views(hierarchy@)),
            decreases (match current_task_id {
                Some(c) => if m.contains_key(c) {
                    parent_rank(m)(c) + 2
                } else {
                    1
                },
                None => 0,
            }),
        {
            let id = match current_task_id {
                Some(c) => c,
                None => {
                    break;
                },
            };
            let task = match self.tasks.get(&id) {
                Some(t) => t,
                None => {
                    return Err(not_found_message(id));
                },
            };
            let ghost before = hierarchy@;
            hierarchy.push(task.clone());
            proof {
                lemma_views_push(before, hierarchy@.last());
                match task.parent {
                    Some(p) => {
                        if m.contains_key(p) {
                            lemma_parent_below(m, self@.next_id, id, p);
                        }
                        match ancestry(m, p) {
                            Ok(s) => {
                                assert(task_views(before) + (seq![m[id]] + s) =~= task_views(hierarchy@) + s);
                            },
                            Err(e) => {},
                        }
                    },
                    None => {
                        assert(task_views(before) + seq![m[id]] =~= task_views(hierarchy@));
                    },
                }
            }
            current_task_id = task.parent;
        }
        Ok(hierarchy)
    }

    /// Up to `max_count` descendants of task `id` (at least one, when there is one),
    /// collected from a stack of pending ids that starts with the task's subtasks
    /// (see [`walk`]).
    pub fn get_subtasks_recursive(&self, id: usize, max_count: usize) -> (r: Result<Vec<Task>, String>)
        ensures
            match r {
                Ok(v) => self@.tasks.contains_key(id) && task_views(v@) == walk(
                    self@.tasks,
                    self@.tasks[id].subtasks,
                    0,
                    max_count as nat,
                ),
                Err(e) => !self@.tasks.contains_key(id) && e@ == not_found_text(id),
            },
    {
        let ghost m = self@.tasks;
        let task = match self.tasks.get(&id) {
            Some(t) => t,
            None => {
                return Err(not_found_message(id));
            },
        };
        let ghost total = walk(m, task.subtasks@, 0, max_count as nat);
        let mut subtasks: Vec<Task> = Vec::new();
        let mut subtasks_to_process = copy_ids(&task.subtasks);
        let mut processed_count: usize = 0;
        assert(task_views(subtasks@) + walk(m, subtasks_to_process@, 0, max_count as nat) =~= total);
        loop
            invariant_except_break
                processed_count < max_count || processed_count == 0,
                task_views(subtasks@) + walk(m, subtasks_to_process@, processed_count as nat, max_count as nat) == total,
            invariant
                m == self@.tasks,
            ensures
                task_views(subtasks@) == total,
            decreases (if processed_count < max_count { max_count - processed_count } else { 0 }),
                subtasks_to_process@.len(),
        {
            let ghost stack = subtasks_to_process@;
            let subtask_id = match subtasks_to_process.pop() {
                Some(s) => s,
                None => {
                    assert(task_views(subtasks@) + Seq::<TaskView>::empty() =~= task_views(subtasks@));
                    break;
                },
            };
            assert(stack.drop_last() =~= subtasks_to_process@);
            match self.tasks.get(&subtask_id) {
                Some(subtask) => {
                    let ghost before = subtasks@;
                    subtasks.push(subtask.clone());
                    proof {
                        lemma_views_push(before, subtasks@.last());
                    }
                    processed_count = processed_count + 1;
                    if processed_count >= max_count {
                        assert(task_views(subtasks@) =~= task_views(before) + seq![m[subtask_id]]);
                        break;
                    }
                    let ghost rest = subtasks_to_process@;
                    for j in 0..subtask.subtasks.len()
                        invariant
                            subtasks_to_process@ == rest + subtask.subtasks@.take(j as int),
                    {
                        subtasks_to_process.push(subtask.subtasks[j]);
                        assert(rest + subtask.subtasks@.take(j + 1) =~= (rest + subtask.subtasks@.take(
                            j as int,
                        )).push(subtask.subtasks@[j as int]));
                    }
                    assert(subtask.subtasks@.take(subtask.subtasks.len() as int) =~= subtask.subtasks@);
                    assert(task_views(subtasks@) + walk(m, subtasks_to_process@, processed_count as nat, max_count as nat)
                        =~= task_views(before) + (seq![m[subtask_id]] + walk(
                        m,
                        subtasks_to_process@,
                        processed_count as nat,
                        max_count as nat,
                    )));
                },
                None => {},
            }
        }
        Ok(subtasks)
    }

    proof fn lemma_len_bound(&self)
        ensures
            self@.tasks.dom().finite(),
            self@.tasks.dom().len() <= usize::MAX,
    {
        assert(self@.tasks.dom() =~= self.tasks@.dom());
        assert(self.tasks.len() == self.tasks@.len());
    }

    /// The position of the first occurrence of `x` among the root ids, if any.
    fn root_position(&self, x: usize) -> (r: Option<usize>)
        ensures
            match r {
                Some(p) => p < self@.roots.len() && self@.roots[p as int] == x && forall|j: int|
                    0 <= j < p ==> self@.roots[j] != x,
                None => forall|j: int| 0 <= j < self@.roots.len() ==> self@.roots[j] != x,
            },
    {
        let mut i: usize = 0;
        while i < self.root_tasks.len()
            invariant
                i <= self.root_tasks.len(),
                self.root_tasks@ == self@.roots,
                forall|j: int| 0 <= j < i ==> self@.roots[j] != x,
            decreases self.root_tasks.len() - i,
        {
            if self.root_tasks[i] == x {
                return Some(i);
            }
            i = i + 1;
        }
        None
    }

    /// Removes task `task_id` together with its descendants, subtask trees first
    /// and in order, and returns how many tasks were removed (see [`remove_tree`]).
    /// On a missing id the removal stops there and keeps what was already done.
    pub fn remove_task_recursive(&mut self, task_id: usize) -> (r: Result<usize, String>)
        requires
            old(self).wf(),
        ensures
            final(self).wf(),
            final(self)@.next_id == old(self)@.next_id,
            (final(self)@.tasks, final(self)@.roots) == remove_tree(
                (old(self)@.tasks, old(self)@.roots),
                subtask_rank(old(self)@.tasks),
                task_id,
            ).0,
            match r {
                Ok(c) => remove_tree(
                    (old(self)@.tasks, old(self)@.roots),
                    subtask_rank(old(self)@.tasks),
                    task_id,
                ).1 == Ok::<nat, Seq<char>>(c as nat),
                Err(e) => remove_tree(
                    (old(self)@.tasks, old(self)@.roots),
                    subtask_rank(old(self)@.tasks),
                    task_id,
                ).1 == Err::<nat, Seq<char>>(e@),
            },
            forall|k: usize| #[trigger] final(self)@.tasks.contains_key(k) ==> old(self)@.tasks.contains_key(k)
                && final(self)@.tasks[k] == old(self)@.tasks[k],
            r matches Ok(c) ==> final(self)@.tasks.dom().len() + c == old(self)@.tasks.dom().len(),
    {
        proof {
            lemma_rankings(self@.tasks, self@.next_id);
        }
        self.remove_ranked(task_id, Ghost(subtask_rank(self@.tasks)))
    }

    /// The removal of [`remove_task_recursive`], following a ranking `rank` of the
    /// subtask links: every subtask visited ranks below the task that lists it.
    fn remove_ranked(&mut self, task_id: usize, Ghost(rank): Ghost<spec_fn(usize) -> nat>) -> (r: Result<usize, String>)
        requires
            old(self).wf(),
            ranked(old(self)@.tasks, rank, false),
        ensures
            final(self).wf(),
            final(self)@.next_id == old(self)@.next_id,
            (final(self)@.tasks, final(self)@.roots) == remove_tree((old(self)@.tasks, old(self)@.roots), rank, task_id).0,
            match r {
                Ok(c) => remove_tree((old(self)@.tasks, old(self)@.roots), rank, task_id).1 == Ok::<nat, Seq<char>>(
                    c as nat,
                ),
                Err(e) => remove_tree((old(self)@.tasks, old(self)@.roots), rank, task_id).1 == Err::<nat, Seq<char>>(
                    e@,
                ),
            },
            forall|k: usize| #[trigger] final(self)@.tasks.contains_key(k) ==> old(self)@.tasks.contains_key(k)
                && final(self)@.tasks[k] == old(self)@.tasks[k],
            forall|k: usize| rank(k) > rank(task_id) && #[trigger] old(self)@.tasks.contains_key(k)
                ==> final(self)@.tasks.contains_key(k),
            r matches Ok(c) ==> final(self)@.tasks.dom().len() + c == old(self)@.tasks.dom().len(),
        decreases rank(task_id),
    {
        let ghost st0: Forest = (old(self)@.tasks, old(self)@.roots);
        let task = match self.tasks.get(&task_id) {
            Some(t) => t,
            None => {
                return Err(not_found_message(task_id));
            },
        };
        let subtasks = copy_ids(&task.subtasks);
        let ghost subs = subtasks@;
        proof {
            assert(subs.take(0) =~= Seq::<usize>::empty());
            self.lemma_len_bound();
        }
        let mut delete_count: usize = 1;
        let mut i: usize = 0;
        while i < subtasks.len()
            invariant
                self.wf(),
                self@.next_id == old(self)@.next_id,
                st0 == (old(self)@.tasks, old(self)@.roots),
                ranked(st0.0, rank, false),
                st0.0.contains_key(task_id),
                subs == subtasks@,
                subs == st0.0[task_id].subtasks,
                i <= subs.len(),
                1 <= delete_count,
                remove_trees(st0, rank, task_id, subs.take(i as int)) == ((self@.tasks, self@.roots), Ok::<
                    nat,
                    Seq<char>,
                >((delete_count - 1) as nat)),
                forall|k: usize| #[trigger] self@.tasks.contains_key(k) ==> st0.0.contains_key(k) && self@.tasks[k] == st0.0[k],
                forall|k: usize| rank(k) >= rank(task_id) && #[trigger] st0.0.contains_key(k) ==> self@.tasks.contains_key(k),
                st0.0.dom().finite(),
                st0.0.dom().len() <= usize::MAX,
                self@.tasks.dom().finite(),
                self@.tasks.dom().len() + (delete_count - 1) == st0.0.dom().len(),
            decreases subs.len() - i,
        {
            let sid = subtasks[i];
            assert(subs.take(i + 1).drop_last() =~= subs.take(i as int));
            assert(subs.take(i + 1).last() == sid);
            if !self.tasks.contains_key(&sid) {
                proof {
                    lemma_remove_trees_error(st0, rank, task_id, subs, i + 1);
                }
                return Err(not_found_message(sid));
            }
            assert(st0.0[task_id].subtasks[i as int] == sid);
            assert(st0.0[task_id].subtasks.contains(sid));
            assert(linked(st0.0, task_id, sid, false));
            assert(rank(sid) < rank(task_id));
            proof {
                lemma_ranked_sub(st0.0, self@.tasks, rank);
            }
            match self.remove_ranked(sid, Ghost(rank)) {
                Ok(c) => {
                    proof {
                        self.lemma_len_bound();
                        assert(self@.tasks.contains_key(task_id));
                        vstd::set_lib::lemma_set_empty_equivalency_len(self@.tasks.dom());
                        assert(self@.tasks.dom().len() >= 1);
                    }
                    delete_count = delete_count + c;
                },
                Err(e) => {
                    proof {
                        lemma_remove_trees_error(st0, rank, task_id, subs, i + 1);
                    }
                    return Err(e);
                },
            }
            i = i + 1;
        }
        assert(subs.take(subs.len() as int) =~= subs);
        let ghost mid_tasks = self.tasks@;
        self.tasks.remove(&task_id);
        proof {
            lemma_views_remove(mid_tasks, task_id);
        }
        match self.root_position(task_id) {
            Some(pos) => {
                proof {
                    lemma_remove_first(self@.roots, task_id, pos as int);
                }
                self.root_tasks.remove(pos);
            },
            None => {
                proof {
                    lemma_remove_first(self@.roots, task_id, self@.roots.len() as int);
                }
            },
        }
        proof {
            lemma_consistent_shrink(old(self)@, self@);
        }
        Ok(delete_count)
    }

    /// A copy of the state for saving: every task once (in the map's iteration
    /// order), the root ids and the next id.
    pub fn to_data(&self) -> (d: TaskManagerData)
        requires
            self.wf(),
        ensures
            keyed_by_id(task_views(d.tasks@)) == self@.tasks,
            d.tasks@.len() == self@.tasks.dom().len(),
            d.root_tasks@ == self@.roots,
            d.next_id == self@.next_id,
    {
        let ghost m = self@.tasks;
        let ghost ks = vstd::std_specs::hash::spec_keys_iter(&self.tasks).remaining();
        assert(m.dom() =~= self.tasks@.dom());
        let mut tasks: Vec<Task> = Vec::new();
        assert(keyed_by_id(task_views(tasks@)) =~= m.restrict(ks.unref().take(0).to_set()));
        for k in it: self.tasks.keys()
            invariant
                self.wf(),
                m == self@.tasks,
                it.seq() == ks,
                ks.unref().to_set() == m.dom(),
                ks.no_duplicates(),
                ks.len() == m.dom().len(),
                tasks@.len() == it.index(),
                keyed_by_id(task_views(tasks@)) == m.restrict(ks.unref().take(it.index() as int).to_set()),
        {
            let ghost idx = it.index() as int;
            proof {
                assert(ks.unref()[idx] == *k);
                assert(ks.unref().to_set().contains(*k));
                assert(task_consistent(m, self@.next_id, *k));
            }
            let t = self.tasks.get(k).unwrap();
            let ghost before = tasks@;
            tasks.push(t.clone());
            proof {
                lemma_views_push(before, tasks@.last());
                assert(task_views(tasks@).drop_last() =~= task_views(before));
                assert(ks.unref().take(idx + 1) =~= ks.unref().take(idx).push(*k));
                ks.unref().take(idx).lemma_push_to_set_commute(*k);
                assert(keyed_by_id(task_views(tasks@)) =~= m.restrict(ks.unref().take(idx + 1).to_set()));
            }
        }
        proof {
            assert(ks.unref().take(ks.len() as int) =~= ks.unref());
            assert(m.restrict(m.dom()) =~= m);
        }
        TaskManagerData { tasks, root_tasks: copy_ids(&self.root_tasks), next_id: self.next_id }
    }

    /// Replaces the whole state by `data`, tasks keyed by their ids, when the
    /// resulting hierarchy is consistent; otherwise refuses and keeps the state.
    ///
    /// Consistent means: every task is stored under its own id, and its id and its
    /// parent's id lie below `next_id` (so ids handed out later are fresh); and
    /// neither the subtask links nor the parent links run in a cycle, which would
    /// make the walks through the hierarchy endless. Any other data is accepted,
    /// however its ids are ordered and whatever ids its lists name.
    pub fn load_data(&mut self, data: TaskManagerData) -> (r: Result<(), String>)
        requires
            old(self).wf(),
        ensures
            final(self).wf(),
            r is Ok <==> in_range_and_acyclic(restored(data).tasks, data.next_id),
            match r {
                Ok(()) => consistent(restored(data)) && final(self)@ == restored(data),
                Err(e) => !consistent(restored(data)) && e@ == bad_data_text() && final(self)@ == old(self)@,
            },
    {
        let ghost views = task_views(data.tasks@);
        let mut tasks_map: HashMap<usize, Task> = HashMap::new();
        assert(map_views(tasks_map@) =~= keyed_by_id(views.take(0)));
        for i in 0..data.tasks.len()
            invariant
                views == task_views(data.tasks@),
                map_views(tasks_map@) == keyed_by_id(views.take(i as int)),
        {
            let t = data.tasks[i].clone();
            let ghost before = tasks_map@;
            let id = t.id;
            tasks_map.insert(id, t);
            proof {
                lemma_views_insert(before, id, t);
                assert(views.take(i + 1).drop_last() =~= views.take(i as int));
                assert(views.take(i + 1).last() == views[i as int]);
            }
        }
        assert(views.take(data.tasks.len() as int) =~= views);
        if !check_tasks(&tasks_map, data.next_id) {
            return Err(bad_data_message());
        }
        self.tasks = tasks_map;
        self.root_tasks = data.root_tasks;
        self.next_id = data.next_id;
        Ok(())
    }
}

/// Whether every task of `tasks` is stored under its own id and lies, with its
/// parent id, below `next_id`.
fn tasks_in_range(tasks: &HashMap<usize, Task>, next_id: usize) -> (r: bool)
    ensures
        r == forall|k: usize| #[trigger] map_views(tasks@).contains_key(k) ==> task_consistent(map_views(tasks@), next_id, k),
{
    let ghost m = map_views(tasks@);
    let ghost keys = tasks@.dom();
    assert(m.dom() =~= keys);
    let ghost ks = vstd::std_specs::hash::spec_keys_iter(tasks).remaining();
    assert(ks.unref().to_set() == keys);
    for k in it: tasks.keys()
        invariant
            m == map_views(tasks@),
            it.seq() == ks,
            forall|j: int| 0 <= j < it.index() ==> task_consistent(m, next_id, *#[trigger] it.seq()[j]),
    {
        proof {
            assert(ks.unref()[it.index() as int] == *k);
            assert(ks.unref().to_set().contains(*k));
            assert(m.contains_key(*k));
        }
        let t = match tasks.get(k) {
            Some(t) => t,
            None => { return false; },
        };
        assert(t@ == m[*k]);
        if t.id != *k || *k >= next_id {
            return false;
        }
        match t.parent {
            Some(p) => {
                if p >= next_id {
                    return false;
                }
            },
            None => {},
        }
        assert(task_consistent(m, next_id, *k));
    }
    assert forall|k: usize| #[trigger] m.contains_key(k) implies task_consistent(m, next_id, k) by {
        assert(ks.unref().to_set().contains(k));
        assert(ks.unref().contains(k));
        let j = choose|j: int| 0 <= j < ks.unref().len() && ks.unref()[j] == k;
        assert(*ks[j] == k);
    }
    true
}

/// Whether `tasks` is consistent with respect to `next_id` (see [`tasks_consistent`]).
fn check_tasks(tasks: &HashMap<usize, Task>, next_id: usize) -> (r: bool)
    ensures
        r == tasks_consistent(map_views(tasks@), next_id),
        r == in_range_and_acyclic(map_views(tasks@), next_id),
{
    tasks_in_range(tasks, next_id) && links_acyclic(tasks, false) && links_acyclic(tasks, true)
}

/// Once the removal of a prefix of the subtask trees has failed, the removal of
/// the whole list fails in the same way.
proof fn lemma_remove_trees_error(st: Forest, rank: spec_fn(usize) -> nat, parent: usize, ids: Seq<usize>, i: int)
    requires
        0 <= i <= ids.len(),
        remove_trees(st, rank, parent, ids.take(i)).1 is Err,
    ensures
        remove_trees(st, rank, parent, ids) == remove_trees(st, rank, parent, ids.take(i)),
    decreases ids.len(),
{
    if ids.len() == i {
        assert(ids.take(i) =~= ids);
    } else {
        assert(ids.drop_last().take(i) =~= ids.take(i));
        lemma_remove_trees_error(st, rank, parent, ids.drop_last(), i);
    }
}

/// A ranking of the links of a map ranks the links of any part of it.
proof fn lemma_ranked_sub(m: TaskMap, n: TaskMap, rank: spec_fn(usize) -> nat)
    requires
        ranked(m, rank, false),
        forall|k: usize| #[trigger] n.contains_key(k) ==> m.contains_key(k) && n[k] == m[k],
    ensures
        ranked(n, rank, false),
{
    assert forall|k: usize, x: usize| n.contains_key(k) && n.contains_key(x) && #[trigger] linked(n, k, x, false)
        implies rank(x) < rank(k) by {
        assert(linked(m, k, x, false));
    }
}

} // verus!
