# modelsteward

Runs one llama.cpp router for a machine's model files, measures what each model
really does there, and tells coding agents the truth about it.

`src/` is the library: every decision, with its contract, proved by Verus.
Nothing in it reads a file, runs a command or opens a connection. `app/` does
that: it reads, hands plain values to the library, and carries out what comes
back. `tests/` run the library on concrete values.

## How the library is laid out

- **Values.** `json`, `yaml` and `jsonc` hold documents; `text`, `num`, `path`,
  `dates` and `textmap` are what everything else is written in; `big` and
  `ratios` take means of ratios without rounding on the way.
- **The machine.** `discover` (servers and devices), `library` and `gguf` (model
  files), `warden` (a sibling's inventory), `energy`, `ollama`.
- **The router.** `router` and `preset` (its configuration, its processes, its
  answers), `system` (which server, which models), `managed` and `advisor`
  (builds of the server itself).
- **Measuring.** `calibrate` (settled contexts), `bench` (baselines),
  `measurements` and `history` (what is kept of them), `workload`, `variants`,
  `trial` and `campaign` (racing one setting against another), `quality`,
  `evidence` and `meter` (what the router's log shows).
- **Telling.** `rows` (a model's whole story in one line), `diagnose`,
  `reasoning`, `aiadvisor`, and the agents: `connector`, `opencode`, `piagent`,
  `hermes`.
- **Long runs.** `runs` holds the campaigns and the sweep as stages. Whoever
  drives one does what its stage says and reports the outcome.

## Conventions

- Quantities that are fractions elsewhere — tokens per second, seconds, shares,
  prices — are whole millionths here.
- Paths are text, and the same where their components are. Where data lives is
  decided from `settings::Env`.
- What a file held, whether a directory is there, what a command printed: the
  caller says so.
- OpenCode's configuration is replaced by a list of `opencode::FileOp`s; contracts speak
  of the files that such a list leaves behind.
