# turbo_tasks

Bookkeeping for a graph of incremental tasks, verified with Verus.

A task runs a function, uses other tasks (its children) and fills slots with values.
When something that it has read changes, it is invalidated. Its ancestors hear of that,
and it executes again as soon as somebody needs it.

- `src/` is the library. `graph` holds the tasks. `dirty`, `done`, `schedule` and
  `lifecycle` are the operations on them, each with an exact contract. `access` and
  `context` give executions their slots, `execute` lists the steps of an execution, and
  `text` shows tasks to people.
- `consistency` says what holds of the whole graph between operations, and `laws` proves
  that the operations keep it, what they tell the outside, and what executions find again.
  `child_dirty` and `child_done` are no operations in this sense: each delivers one piece
  of news, and the graph is consistent again once all of it is delivered.
- `tests/` runs the library on small graphs.
- `app/` runs a graph on async-std: it awaits, spawns and prints.

Operations that find the graph in disorder come twice: the plain one is for graphs in
which nothing is wrong, and the one with `try_` reports what it found.
