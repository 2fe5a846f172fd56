# dsh_usage

Token usage accounting for the session logs of DeepSeek Harness (`dsh`), verified with Verus.

A session directory holds the log of a session in one or more generations
(`session.jsonl`, `session.v1.jsonl` to `session.v3.jsonl`, each plain or with `.zstd`). The
library reads the newest generation only, and skips a session whose newest generation it does not
know. Each settled request attempt of a log becomes one usage entry: the usage of the final message
replaces what was streamed before it, and retried attempts count on their own.

| module      | what it holds                                                          |
| ----------- | ---------------------------------------------------------------------- |
| `text`      | trimming, splitting, decimal numerals                                  |
| `order`     | lexicographic orders, sorting                                          |
| `json`      | JSON documents, read with `serde_json`                                 |
| `fields`    | times, step keys and routes in a record                                |
| `usage`     | token counters and when they are consistent                            |
| `attempts`  | the ledger: attempts under way and the samples of settled ones         |
| `session`   | from the bytes of a file to the samples of a session; `zstd` decodes   |
| `entry`     | usage entries and which price counts                                   |
| `paths`     | paths, and the versions that file names state                          |
| `discovery` | which of the files that were found are read                            |
| `loader`    | one list of the entries of all files                                   |
| `roots`     | the directories to look under                                          |

Contracts speak of mathematical models (`JsonTree`, `LedgerView`, `SessionView`, `EntryView`).
Proof functions named `law_*` state what holds across functions. The items that are trusted are
those around `serde_json` in `json` and around `zstd` in `session`.

`app/` holds what touches the disk and the clock, and the costs, which are floating-point numbers.
