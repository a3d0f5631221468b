# webhook_cli

A command-line tool that runs local shell scripts on authenticated HTTP
webhook calls, with its decisions verified in Verus.

- `src/` — the verified library:
  - `config` — bearer tokens, tokens per custom header, server settings,
    and the edits the command line makes to them;
  - `auth` — whether a request presents a valid credential;
  - `webhook` — the checks on a request up to running its script;
  - `pidfile` — writing and reading the daemon's PID file;
  - `daemon` — stopping, replacing and reporting on the background daemon,
    as step functions from state and outcome to next state and action;
  - `paths` — where the configuration, PID and log files live;
  - `text` — trimming, prefixes, splitting, numbers and booleans as text.
- `app/` — the `webhook` program: arguments, files, signals and the HTTP
  server, calling the library for every decision.
- `tests/` — tests of the library on concrete values.
