# blaise

A round-based public transit router (RAPTOR) whose search logic is verified
with Verus.

## Layout

- `src/network.rs`: the transit network as plain vectors (`Timetable`), with
  `Timetable::wf` stating that every index is in range.
- `src/raptor/`: the search.
  - `front.rs`: Pareto fronts of (time, cost) labels, kept in a
    `smallvec::SmallVec`.
  - `state.rs`: the working state of a search and how updates are applied.
  - `explorer.rs`: the phases of a round: riding trip patterns, and
    transferring or walking between stops.
  - `itinerary.rs`: rebuilding the journey from the recorded parents;
    `journey_legs` states, leg by leg, the journey the parents record.
  - `query.rs`, `location.rs`: queries and places.
  - `same_stop.rs`: why a search whose two ends are one stop finds a
    journey without legs.
  - `mod.rs`: seeding, the rounds, and `solve`. `search_run` states the
    whole search as a record of states, phase by phase, that each phase's
    contract determines; `solve` is stated over it.
- `src/shared/utils.rs`: interning strings into one buffer; `lemma_intern_all`
  and `lemma_distinct_slices` state what a run of requests leaves.
- `src/spatial.rs`: grouping stops by grid cell into one buffer
  (`bucket_by_cell`) and the slices of that buffer.
- `app/`: the command-line planner. It reads a compiled GTFS file with
  `gtfs-bin`, converts it into a `Timetable`, measures walking times between
  coordinates, runs the search and prints the journey.
- `tests/`: tests of the library.

## Units

Times are seconds since the start of the service day. Costs are weighted
seconds in thousandths: a penalty of 1000 counts each second once (riding),
1500 one and a half times (transferring), 2000 twice (walking). Time and cost
arithmetic saturates at the largest value instead of overflowing. The search
radius is in metres. `RaptorQuery::new` departs at the system clock's time of
day in UTC.
