# timeblock_calendar

The core of a time-block calendar, verified with Verus: time blocks,
projects and categories with their validation rules, free-slot search and
schedule suggestion within working hours, dependency-cycle detection, the
PKCE start of an OAuth login, the row encoding of stored records, and the
decisions of synchronising with a remote calendar.

Layout:

- `src/` — the verified library: code with contracts and proofs.
  - `time.rs` instants and day numbers, and the chrono calls that parse and
    write them;
  - `validation.rs`, `dependency.rs` the validation rules and cycle search;
  - `models.rs` the records and their status codes;
  - `services.rs` free slots, schedule suggestion and day totals, with the
    laws that slots and placed tasks never collide;
  - `repository.rs`, `projects.rs` stored rows and how they read back,
    partial updates, the Gantt chart;
  - `auth.rs` the OAuth start and code exchange;
  - `sync.rs` pulling and pushing events.
- `tests/` — tests run against the compiled library.
- `app/` — the MCP server over stdio and the SQLite store, which call the
  library for every rule.
