# timers

A desktop time tracker: tasks, a timer per task (one runs at a time),
per-task totals, a task detail view, and reports over a time range.

- `src/` is the verified library (Verus):
  - `models` – tasks, sessions and the summaries handed to the interface;
  - `tables` – the mathematical model of the two tables and of every
    query and update;
  - `db` – the store (`Db`), proved against `tables`;
  - `order` – the stable descending sort used by the queries;
  - `laws` – properties across operations (one timer at a time, a timer
    adds its duration, reads give back writes, refusals change nothing,
    totals grow with the clock, the open task list is the full one without
    archived tasks, wider report ranges never lower a task);
  - `text` – trimming, shortening, number and elapsed-time formatting,
    number parsing;
  - `tray` – what the tray shows, the layout of its menu, and what its
    entries do;
  - `commands` – the interface's requests, with input clean-up;
  - `events` – what closing the window, exiting and reopening do;
  - `clock` – the wall clock (std's `SystemTime`, converted with chrono).
- `app/` is the Tauri application: windows, tray, events, and the SQLite
  file that keeps the tables (loaded whole at start, saved after each change).
- `tests/` runs the library on concrete values.
