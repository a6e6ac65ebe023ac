# vyges_hold_fix

Post-route hold-fix ECO: delay cells inserted in series on the data paths that reach their
capture flops too early, kept only when the static-timing engine says worst hold improved
and setup stayed met.

The library (`src/`) holds every decision of a run and is verified with Verus:

- `job` — the hold-fix keys of a job file (`buffer:`, `hold_margin:`, `rounds:`,
  `dont_touch:`) and the `dont_touch` glob matcher;
- `number` — which texts are numbers (the margin);
- `netlist` — gate-level netlists and the series-delay edit;
- `engine` — the delay cell's pins, a round's plan, and the ECO run as a state machine
  (`EcoRun::step`) that the timer drives, with its laws;
- `emit` — structural Verilog output;
- `report`, `cli` — the text parts of the report and the command line;
- `text` — string utilities.

`app/` is the command-line program: it reads the job, netlist, Liberty and SPEF files,
times each netlist with `vyges-sta-si`, compares the slacks (floating point), and writes
the results.
