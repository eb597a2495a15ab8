# depends-on-rs

Declarative process orchestration for integration tests: named targets in a
JSON file are started in dependency order, each one waited on until it is
ready, and all of them stopped on cleanup.

The library under `src/` is verified with Verus. It holds the configuration
model, the dependency graph (expansion of a request, start order, validation
and cycle rejection), `${NAME}` / `${NAME:-default}` expansion, the planning
of file descriptors, pipes, sinks and stop signals, and the readiness
decisions (port back-off, exit codes, log patterns).

`app/` is the command-line program around it: reading the JSON file, spawning
processes, moving bytes between pipes and threads, the waiting loops that feed
observations to the library's readiness decisions, and signal delivery.
