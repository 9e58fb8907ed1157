# mas-harness-lock

Harness-enforced locking for agents that share one file, verified with Verus.

A guarantee that must hold for every agent at once cannot live in a prompt or a convention. It lives
in the one place that every agent has to go through: the harness. Agents read and write through it.
They are never handed the lock and never see a ticket, so there is nothing about lock discipline for
them to get wrong and nothing for them to forge.

## Layout

| Where | What |
|---|---|
| `src/types.rs` | tickets, versions, holdings, refusals |
| `src/history.rs` | the totally ordered log of everything that happened |
| `src/clock.rs` | time, read from tokio's clock |
| `src/lock/mod.rs` | what a lock service is: an interface of operations and the relations that describe them |
| `src/lock/table.rs` | the memory of the in-memory lock service, and what each operation does to it |
| `src/lock/fake.rs` | the in-memory lock service, with faults that can be injected |
| `src/lock/laws.rs` | what can be relied on of that service |
| `src/store.rs` | what is decided around the file on disk |
| `src/harness.rs` | the gatekeeper |
| `src/checker.rs` | eight properties, checked over a history |
| `src/properties.rs` | what those properties say, proved equivalent to how they are checked |
| `src/run/` | runs of the harness, and the proofs that the properties hold of them |
| `app/` | the asynchronous front: file-system calls, sharing, a demo |

## What is proved

Every operation of the lock service and of the harness is described exactly: the state after it, what
it adds to the history, and its answer, for every reading of the clocks and every answer of the file
system. On top of that:

- Mutual exclusion holds of every run, whatever is injected, however the clocks run, and however long
  an authorized write waits before it is applied.
- No accepted write is lost in any run, and nothing that was refused reaches the file.
- In every run whose writes go through in one piece, each accepted write held the ticket in force and
  was based on the version in force, a revocation takes the lock away, and every lock is released or
  expires.
- A write that was authorized gives its lock back however it ends. Under the write-only span so does
  every write that got the lock, and whoever failed can start over at once.
- What a write puts in place is what the next read returns, at the version that the write answered.
- No lock is kept longer than the hold ceiling and one lease.
- While one agent keeps the lock, nobody else's write is authorized, in every run in which the lock
  service is not told to grant twice or to repeat tickets.
- The checker reports a property as violated exactly if the plain statement of that property is false
  of the history.

What is taken on trust is small: tokio's clock, of which nothing is claimed, the quoting of strings
for display, and the hashing of strings. Files are touched only in `app/`.
