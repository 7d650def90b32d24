# procmon

A terminal process monitor in the style of `top`: a table of processes (PID, user, parent,
priority, nice, memory, state, CPU and memory usage, run time, command), CPU and memory
graphs, a process tree (`procmon pstree`), and a table limited to one user (`procmon u NAME`).

Keys: `q` quits; `t`, `g`, `d` show the table, the graphs, or both; `k` stops the selected
process and its descendants; Enter shows the details of the selected process and goes back;
Up and Down move the selection, wrapping round; Control with a character selects the first
process whose command begins with it; Shift with `P`, `U`, `N`, `C`, `M`, `T` sorts by PID,
user, priority, CPU, memory or run time. With `u NAME`, the table keeps to that user's
processes at every refresh.

Layout:

- `src/` is the library, verified with Verus: how rows are written and sorted (a stable
  sort whose result is proved to be the unique stable order), the filter by user, the
  process tree and the stop order, the system information lines, and the state machine
  of the keys.
- `app/` is the program around it: reading the system (`sysinfo`, `getpriority`),
  sending signals (`nix`), the terminal (`crossterm`) and drawing (`tui`), and the
  graph data, which is floating point.
- `tests/` runs the library on concrete values.
