# task_manager

A hierarchical task manager, verified with Verus.

Tasks carry a text and a completion flag, may hold subtasks that are worked
through in their listed order (ordered tasks) or in any order, and may wait on
predecessor tasks. The manager answers which tasks are actionable right now,
walks subtask trees and parent chains, removes whole subtrees, and saves and
restores its state.

Layout:

- `src/task.rs`: the task type and its mathematical view.
- `src/model.rs`: the specification: when work on a task has started, which
  tasks are actionable, the descendant walk, the parent chain, subtree removal,
  and rankings and cycles of the links between tasks.
- `src/text.rs`: the refusal messages.
- `src/manager.rs`: the manager and its operations, each with a contract over
  the model, and the invariant that every operation keeps (ids below the next
  id, no cycle in the subtask links or in the parent links).
- `src/links.rs`: deciding whether the links of loaded tasks run in a cycle.
- `src/laws.rs`: properties that span operations (for example that saving and
  restoring gives the state back, that reported tasks are actionable, and that
  creating and removing tasks keeps the hierarchy's shape).
- `app/`: the desktop application around the library (Tauri commands, the JSON
  file, the periodic auto-save).
- `tests/`: the tests.
