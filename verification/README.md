# Pax Americana

Copy-trading between Interactive Brokers accounts: a **master** publishes its net
positions and balance; each **client** reconciles its own book toward a proportionally
scaled copy of the master's structure, trading only the delta toward each target — so a
master closing a long can never open a client short.

The library (`src/`) is verified with Verus: every public function carries a contract
over mathematical models (sequences, maps, integers), and the properties that span
functions are stated and proved as `law_*` proof functions.

## Numbers

Money and prices are fixed-point `i64` with four decimals (`PRICE_SCALE = 10_000` per
unit); positions and orders count whole `i64` shares, bounded by `MAX_QTY`, and statement
executions count shares in the same fixed point, so fractional fills are kept. JSON on the wire keeps
plain numbers; `app/` converts at the edge.

## Layout

| Module | What it decides |
|---|---|
| `model`, `sizing`, `reconcile`, `orders`, `symbols` | positions and orders, proportional targets, the reconciliation plan, resting-order diffs |
| `gate`, `engine`, `cooldown`, `persist` | the per-symbol master-change lock, the sync-cycle gate, holds before/after the margin check, per-symbol order cooldown and rejection back-off, the drawdown guard, CLOSE ALL, saved settings and ledger |
| `master_api`, `protocol`, `feed`, `server`, `master_state` | the snapshot protocol, the master's position book, its HTTP API |
| `panel`, `web`, `client_state`, `config`, `numparse`, `update`, `license`, `alert` | the client's control panel, configuration, update check, license check, disconnect alerts |
| `decimal`, `statement`, `flex`, `round_trips`, `metrics`, `chart_data`, `analytics`, `report`, `portfolio`, `display`, `sectors` | Flex statements (the fetch conversation, XML records), FIFO round trips, exact performance aggregates, report and window text |
| `market_hours`, `clock`, `text`, `book`, `appdata`, `theme` | calendar and US trading hours, strings, sorted books, obfuscation, colours |

Trusted items (contracts believed, not proved): `SystemTime::now`, `duration_since` and
`Duration::as_millis` (nothing stated of the clock), `str::to_uppercase` /
`str::to_lowercase`, `serde_json::to_string` of a string (its escaping written out), and `roxmltree`'s document walk.

`tests/` exercises the library from outside. `app/` is the headless program around it
(`pax client` / `pax master`): IB Gateway through `ibapi`, HTTP through `ureq` and
`tiny_http`, email through `lettre`, files, threads, and the floating-point ratios that are
only displayed.
