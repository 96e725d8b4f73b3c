# codex-par

Runs many agent tasks side by side, in waves that follow their dependencies, and lets others
dispatch more tasks, read results and exchange messages while a run goes on.

- `src/` is the library: what the runner decides and says, verified with Verus. It plans waves
  (`config`, `plan`), coordinates runs (`coordinator`, with what always holds of a run in
  `coordination`), follows the life of a task (`runner`, `event`, `meta`), runs waves
  (`execution`), keeps messages and artifacts (`message`, `artifact`), draws the dashboard
  (`dashboard`) and answers requests (`commands`).
- `app/` is the program around it: the command line, processes, files and the MCP server.
- `tests/` runs the library on concrete values.

The calls into other crates that the library makes (`chrono`, `serde_json`, `uuid`), and a few into
the standard library, have contracts that are stated and not proved; they are in `time`, `json`,
`message`, `id`, `text` and `commands::chunk`.
