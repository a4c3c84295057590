use vstd::prelude::*;

verus! {

/// A single task of the hierarchy.
pub struct Task {
    pub id: usize,
    pub text: String,
    pub completed: bool,
    /// Whether the subtasks must be worked through in their listed order.
    pub ordered: bool,
    pub subtasks: Vec<usize>,
    pub parent: Option<usize>,
    /// Tasks on which work must have started before this one becomes actionable
    /// (siblings excepted: an ordered parent orders its subtasks itself).
    pub predecessors: Vec<usize>,
}

/// The mathematical value of a [`Task`].
pub ghost struct TaskView {
    pub id: usize,
    pub text: Seq<char>,
    pub completed: bool,
    pub ordered: bool,
    pub subtasks: Seq<usize>,
    pub parent: Option<usize>,
    pub predecessors: Seq<usize>,
}

impl View for Task {
    type V = TaskView;

    open spec fn view(&self) -> TaskView {
        TaskView {
            id: self.id,
            text: self.text@,
            completed: self.completed,
            ordered: self.ordered,
            subtasks: self.subtasks@,
            parent: self.parent,
            predecessors: self.predecessors@,
        }
    }
}

/// The views of a sequence of tasks, element by element.
pub open spec fn task_views(s: Seq<Task>) -> Seq<TaskView> {
    s.map_values(|t: Task| t@)
}

/// A freshly created task: not completed, without subtasks, parent or predecessors.
pub open spec fn fresh_task(id: usize, text: Seq<char>, ordered: bool) -> TaskView {
    TaskView {
        id,
        text,
        completed: false,
        ordered,
        subtasks: Seq::empty(),
        parent: None,
        predecessors: Seq::empty(),
    }
}

/// The predecessors that a new subtask of `parent` receives: the last subtask
/// listed so far when the parent's subtasks are ordered, none otherwise.
pub open spec fn order_predecessors(parent: TaskView) -> Seq<usize> {
    if parent.ordered && parent.subtasks.len() > 0 {
        seq![parent.subtasks.last()]
    } else {
        Seq::empty()
    }
}

/// A freshly created subtask of `parent`: ordered, not completed, without subtasks.
pub open spec fn fresh_subtask(id: usize, text: Seq<char>, parent: TaskView) -> TaskView {
    TaskView {
        id,
        text,
        completed: false,
        ordered: true,
        subtasks: Seq::empty(),
        parent: Some(parent.id),
        predecessors: order_predecessors(parent),
    }
}

pub fn copy_ids(v: &Vec<usize>) -> (r: Vec<usize>)
    ensures
        r@ == v@,
{
    let mut r: Vec<usize> = Vec::new();
    for i in 0..v.len()
        invariant
            r@ == v@.take(i as int),
    {
        r.push(v[i]);
        assert(r@ =~= v@.take(i + 1));
    }
    assert(r@ =~= v@);
    r
}

impl Task {
    pub fn new(id: usize, text: String, ordered: bool) -> (t: Task)
        ensures
            t@ == fresh_task(id, text@, ordered),
    {
        Task {
            id,
            text,
            completed: false,
            ordered,
            subtasks: Vec::new(),
            parent: None,
            predecessors: Vec::new(),
        }
    }
}

impl Clone for Task {
    fn clone(&self) -> (r: Task)
        ensures
            r@ == self@,
    {
        Task {
            id: self.id,
            text: self.text.clone(),
            completed: self.completed,
            ordered: self.ordered,
            subtasks: copy_ids(&self.subtasks),
            parent: self.parent,
            predecessors: copy_ids(&self.predecessors),
        }
    }
}

} // verus!
