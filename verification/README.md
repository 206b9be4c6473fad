# schedviz_rust

CPU short-term scheduling, proved with Verus: uniprocessor FCFS, Round
Robin, SPN, SRT and HRRN, and FCFS, Round Robin and SRT on two or four
cores with optional on-idle migration. Every schedule comes with its
timeline and per-process turnaround metrics.

Times are whole ticks (`TICKS_PER_UNIT` ticks to one unit of time), so every
comparison of times is exact.

## Layout

- `src/` — the verified library.
  - `process.rs`: processes and their validation.
  - `timeline.rs`: execution slices, timelines, metrics, and the facts
    common to every schedule (each process served exactly, turnaround at
    least the service time).
  - `order.rs`: the order of arrival.
  - `fcfs.rs`, `round_robin.rs`, `priority.rs` (SPN, HRRN), `srt.rs`: the
    uniprocessor schedulers, each against a step-by-step model of its
    timeline.
  - `selection.rs`: running several algorithms on one table, and the proof
    that each schedule it files is the one its own scheduler gives.
  - `multicore.rs`: the multicore settings, result and scheduler;
    `multicore_steps.rs` models a run as rounds of a state machine,
    `multicore_round.rs` proves what each round keeps,
    `multicore_fcfs.rs` that FCFS runs every process in one piece, and
    `multicore_run.rs` is the machine that runs it.
  - `palette.rs`, `examples.rs`, `canvas.rs`: the chart colours, the
    built-in tables, and the pixel buffer that exported charts are drawn on.
  - `names.rs`: the string operations the library relies on.
  - `scheduler_core.rs`: the public items in one place.
- `tests/` — scenarios and laws on concrete tables.
- `app/` — the desktop window (eframe), CSV and PNG export; it turns the
  typed times into ticks and the tick results into the figures it shows.
