# ship_alive

A small ship colony simulation: four crew live and work inside a fixed
starter ship. They haul cargo into racks, build and tear down walls, doors,
racks, fabricators and reactors, feed and run a fabricator, and keep the
ship powered, cooled and airtight.

The rules of that world are a library verified with Verus (`src/`); a thin
headless runner built on Bevy's ECS drives it (`app/`).

## Layout

`src/` — the verified library, one module per concern:

- `map`, `grid`, `graph`, `dist`, `path` — the tile grid and its layout
  legend, flood fills and component labels, exact octile and Manhattan distances, and
  8-way A* with strict corner rules.
- `building`, `storage`, `items`, `production` — building definitions,
  placement rules, construction and deconstruction effects (stamping the
  grid, shoving crew aside, refunds), rack storage and the fabricator's
  order/production state machine.
- `crew`, `jobs`, `scan`, `task`, `movement`, `controls` — work priorities,
  the idle crew's work scan and ranking, one step of each job kind,
  movement decisions (head-on standoffs, sidesteps, detours) and player
  controls.
- `power`, `coolant`, `thermal`, `airtight`, `atmosphere`, `wake` — cable
  networks and load shedding, pipe networks and their devices, the thermal
  state machine, doors and compartments, gas labels, and the sleep/wake
  activity set of the continuous grids.
- `simtime`, `time_ctrl`, `log`, `stats`, `text`, `art` — the fixed-step
  simulation clock, speed control, the event log, counters, text rendering
  of numbers, and sprite post-processing.

`tests/` — scenario tests against the library.

`app/` — the runner: sets the world up from the layout, runs the systems
each frame (speed, actions, crew scan and tasks, power, heat, doors,
movement) and prints the event log; also the `prep-art` subcommand that
trims and scales sprite images. Crew walking (timers in continuous time),
heat conduction between tiles (floating point) and file input/output live
here.

## What is not simulated

The runner does not simulate coolant water (amounts, flow and water
temperature through pipes, pumps, heat exchangers and radiators) or the
gas atmosphere (pressure, mixtures, venting). The pipe networks and their
devices are computed, but no water moves through them, and compartments
are tracked for airtightness only. World (screen) coordinates, rendering,
the UI, input handling and the language settings are not part of this
crate either.
