# swarm_platform

The core of a platform that runs swarms of agents: an objective is compiled into a graph of
tasks, the tasks are queued, leased and placed on agents, and what the agents answer is merged
into one result. The core decides everything and performs nothing: it calls no model, reads no
file and waits for no clock. Every function states what it returns or changes, and Verus proves
it; of the time of day and of fresh names nothing is promised but their shape.

## Layout

- `src/` — the verified library.
  - Vocabulary: `ids`, `error`, `clock`, `figures`, `hash`, `text`, `json`, `order`, `ns`.
  - Model: `agent`, `job`, `task`, `state` (the state machines), `graph` and `topology` (the task
    graph).
  - Infrastructure: `queue` (leases, retries, dead letters), `memory` (versioned shared memory
    over `table`), `register` (rows under numbers), `journal`.
  - Models: `model` (requests), `gateway` (cache, budget, breakers, fallback), `mock` (a
    deterministic provider).
  - Work: `decompose` (plans), `schedule` (placement), `runtime` (one attempt at a task),
    `aggregate` (merging).
  - Engine: `handle` (a job in flight), `staff` (its agents), `dispatch`, `outcome`, `engine`,
    `tick` (one round of scheduling), `recovery`, `config`, `coordinator`.
  - Front doors: `api`, `metrics`, `cli`.
- `tests/` — tests that drive the library from outside, whole jobs included.
- `app/` — the program around it: the command line, the HTTP server, the run loop on real time,
  the journal file, JSON forms, and arithmetic in floating point.

Numbers in floating point enter and leave the library as the bits they are made of; where a
decision hangs on one, the library compares bits in the order IEEE 754 gives them.
