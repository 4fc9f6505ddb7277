# peeprs

A dashboard over agent session logs: a verified library that reads event files and
adds them up into a summary, and a small web server around it.

Logs live under `<root>/<day>/<session>/events.jsonl[.gz]` or
`<root>/<day>/<session>/<channel>/events.jsonl[.gz]`.

## Layout

- `src/` — the library, verified with Verus.
  - `lines` — gzip decoding of `.gz` files and splitting bytes into UTF-8 lines.
  - `json`, `parse` — parsing an event line as JSON (through `serde_json`) and reading
    its fields (session, agent, type, preview, timestamp, tokens, model, tools, turn
    duration, hooks, errors).
  - `scan` — the statistics of one file and the pool of most recent events; a file
    whose counts or sums would overflow is refused.
  - `summary` — the dashboard summary of all files, with its tables ranked.
  - `budget` — a bound on what the files add up to, checked before summarizing, under
    which no count or sum of the summary overflows.
  - `durations` — turn-duration buckets and extremes.
  - `cache` — the rows the scan cache keeps per file, and reading them back.
  - `refresh` — the page's refresh interval and when a kept summary is served again.
  - `template` — the dashboard page.
  - `named`, `order`, `text`, `clock`, `models` — maps by name, ranking, characters,
    `chrono` calls and the records.
- `app/` — the server: command line, HTTP routes, directory walk, file reads, the SQLite
  statements of the scan cache, and the JSON the browser receives.
- `tests/` — tests of the library.

## Running

```
peeprs --root ~/logs/agents --port 8765 --refresh-seconds 10 --cache-seconds 5
```

`GET /` serves the page, `GET /api/summary` the summary, `GET /healthz` a health check.
