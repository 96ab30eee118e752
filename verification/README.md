# stock_exchange

A simulator of resource-based production chains, verified with Verus.

A configuration lists initial stocks, processes (what each one consumes,
what it produces, and how many cycles it runs) and an `optimize:` line. The
simulator searches, within a wall-clock budget, for the schedule of process
starts that scores best on the optimization targets, prints it with the
final stocks, and writes it as a `.log` file. A second mode replays such a
log against the configuration and reports the first action that cannot be
carried out.

## Layout

- `src/` — the verified library.
  - `text.rs`: character-level helpers (trimming, splitting, decimal
    numbers, line filtering, code-point ordering) with their models.
  - `stock_map.rs`: `StockMap`, a map from stock names to quantities, viewed
    as a `Map<Seq<char>, nat>`.
  - `parser.rs`: the configuration grammar and the log format, as functions
    on characters with exact contracts, including every error message.
  - `simulator.rs`: the simulation state, starting processes, advancing the
    clock, the target ordering, the report and the log text.
  - `clock.rs`: the wall clock that bounds the search.
  - `search.rs`: the legal moves of a simulation and the depth-first search
    for the best complete schedule.
  - `replay.rs`: replaying a log, and the laws that tie the simulator's
    history, its log text, the log parser and the replay together.
- `tests/` — tests of the library on concrete inputs.
- `app/` — the command-line program: file I/O, argument handling, the
  floating-point waiting time, and printing.

## Usage

```text
stock_exchange <config_file> <waiting_time>
stock_exchange check <config_file> <log_file>
```
