# trading_gui

The core of a trading terminal's user interface, verified with Verus.

`src/` is the verified library:

- `component`, `lifecycle`: component identifiers, kinds and errors; the registry of
  component kinds and instances, the lifecycle phases they move through and the
  listeners told of each phase.
- `service`, `routing`, `health`: GUI services, their dependency graph and startup
  order, service messages routed to the services' channels, health reports.
- `messaging`: event filters, event channel bookkeeping and the message bus.
- `rendering`: render commands, bounded command queues, the render pipeline and the
  render manager.
- `json`, `state`, `persistence`: JSON documents as plain values, component state
  with its history and snapshots, snapshot stores in memory and on disk.
- `depth`: the order book aggregated by whole-unit price level, with its best prices.
- `layout`, `widgets`, `perf`, `text`, `clock`, `assoc`: table layout rules, widget
  state, render timing and small helpers.

`tests/` exercises the library. `app/` holds what surrounds it: serde and terminal
type conversions, snapshot files, the market data feed with its floating-point
prices, the service message loop, and the components' own lifecycle hooks.
