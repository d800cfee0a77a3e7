# quant_engine

Trading-engine building blocks whose behaviour is stated as Verus contracts
and proved:

- `domain`: positive price and quantity units, client order ids, execution keys
  and their byte-lexicographic order.
- `order_book`: an L2 book that stays uncrossed, detects sequence gaps and
  refuses deltas until a fresh snapshot.
- `oms`: the order-state reducer, with duplicate fills absorbed and terminal
  states never regressed.
- `execution`: parent/child accounting that never lets child fills overfill the
  parent.
- `rational`, `arith`, `ledger`: exact average-cost accounting with idempotent
  executions and the equity identity; `checksum` is the FNV-1a state digest.
- `risk`: hard pre-trade limits on the worst-case position.
- `replay`: a deterministic event queue ordered by time, priority and local
  sequence, with a clock that never moves backwards.
- `simulator`: a latency-aware simulated venue with touch, trade-through and
  queue fill models.
- `venue_fixture`: exact fixed-point decimal parsing of venue depth levels.
- `text`, `render`: text ordering and decimal rendering for messages and ids.

`app/` holds the demo program, JSON decoding of venue messages and the
floating-point research statistics; `tests/` exercises the library.
