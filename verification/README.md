# webhook-listener

A self-hosted webhook capture and inspection service. Endpoints are created
from a dashboard; any HTTP request sent to `/webhooks/{endpoint-id}` is
stored with its method, path, query, source address, headers (as JSON) and
body. Each endpoint keeps at most a configured number of webhooks, evicting
the oldest.

## Layout

- `src/` — the library, verified with Verus:
  - `config.rs` — configuration from command-line arguments and environment
    values, with std-compatible integer parsing;
  - `db.rs` — the store of endpoints and webhooks, its invariant, the
    retention rule, the listings, and rebuilding a store from saved rows;
  - `laws.rs` — properties that span several store operations;
  - `error.rs` — request errors and the HTTP answer each one gets;
  - `routes/` — the session and login checks, the ingest path (header
    grouping, timestamps, capture) and the dashboard actions.
- `app/` — the server around the library: argument and environment reading,
  SQLite persistence, the axum router, HTML pages.
- `tests/` — tests of the library.
