# orderflow

The logic of an order-flow candle chart, verified with Verus.

- `src/` — the verified library: integer market units and candles
  (`units`), footprints and the chart's data series (`footprint`), chart
  drawings and their mouse state machine (`drawing`), the CVD divergence
  indicator (`cvd_divergence`), volume profiles with point of control and
  value area (`profile`), diagonal and stacked imbalances (`imbalance`), the
  effort indicator's streaks and zones (`gwtrade_effort`), the GEX level book
  (`gex_levels`), VWAP session boundaries (`vwap`), chart input handling and
  footprint studies (`kline`), the sidebar's state (`sidebar`) and the effort
  service configuration (`config`).
- `tests/` — tests of the library on concrete values.
- `app/` — what runs around the library: the GEX websocket client, serde
  forms of saved settings, and the floating-point parts of the indicators and
  of the chart's layout.
