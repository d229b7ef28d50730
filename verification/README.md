# coordinate

A coordination service based on etcd that turns a stateless cluster into a
stateful one: a manager creates a task split into slots, the nodes of a
client cluster join the task, and the coordinator shares the slots among
them, again whenever a node joins, leaves or disappears.

- `src/` is the verified library (Verus): the records (`entity`), the slot
  rebalance and its laws (`rebalance`, `rebalance_laws`), the decisions of
  the services (`service`), the store layout (`store`), the lock schedule
  (`lock`), the server's life cycle (`exit`, `middles`) and the calls into
  `wd_tools` for identifiers and the clock (`ids`).
- `app/` is the program around it: command line, configuration, etcd,
  the request handlers and the periodic inspection.
- `tests/` runs the library.
