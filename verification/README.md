# hightower

Hightower's line-search routing algorithm (DAC 1969) for rectilinear paths
around axis-parallel obstacles, written in Verus: the library states what it
computes in `requires` / `ensures` contracts and Verus proves them.

Two networks of escape lines grow alternately from the start and the target
point; as soon as a line of one network crosses a line of the other, a path is
read off the two trees. Two reference routers solve the same problem: an A*
search over the orthogonal visibility graph and a breadth-first flood on the
unit lattice.

## Layout

* `src/geometry.rs` – points, axis-parallel segments, crossings.
* `src/obstacles.rs` – `ObstacleSet` and its model (`ObstacleModel`): free
  points, free segments, covers and escape lines.
* `src/trace.rs` – the event log of a run.
* `src/router.rs`, `src/escape.rs` – the two networks, the main loop, one
  escape step, Escape Processes I and II.
* `src/refine.rs` – path reconstruction, collinear cleanup, the two path
  improvements and the validity checker `validate_path`.
* `src/grid.rs` – the lattice flood (complete and shortest, proved).
* `src/translation.rs` – moving a scene, and what it does to valid paths.
* `src/visibility.rs` – the orthogonal visibility graph and its A* search.
* `src/svg.rs`, `src/editor.rs` – the integer parts of the figures (which
  trace events are drawn, in which order; XML escaping) and of the interactive
  editor.
* `app/` – the egui editor and the SVG renderer, which work in floating point.
* `tests/` – scenario and property tests.

## What is proved

* Every path a router returns is valid: it starts at `a`, ends at `b`, stays
  inside the bounds, alternates between horizontal and vertical stretches and
  no stretch touches an obstacle.
* `validate_path` accepts exactly the valid paths and names the first check
  that fails.
* The lattice flood returns a shortest valid path, reports `None` only when no
  valid path exists, and records each visited point with its shortest
  distance from `a`.
* The line router's trace is sound, records the raw path from which the
  returned path was improved (never longer), holds exactly one crossing of an
  entered line of each network when a path between distinct points is found,
  and no network ever enters two overlapping lines. When an escape line of `a`
  crosses an escape line of `b`, a path is found (given two steps or more).
* One escape step gives up exactly when no line it enters crosses the other
  network, Process I finds no escape point and every retreat position of
  Process II leads nowhere (with recursive retreat, also every position of
  the retreats along the trial lines built on the way); each process leaves
  the network as its contract says. Every give-up recorded in a run's trace
  happened this way, with the run's own retreat options.
* Process I takes the nearest candidate escape point; among equally near
  ones, the cover on the lower (left) side first and, of each cover, its
  upper (right) end first.
* A path the line router finds means the lattice flood finds one too.
* Moving a whole scene (bounds, obstacles, both ends) moves its valid paths
  with it and keeps their lengths, both ways; so the lattice flood answers
  the moved scene with a path of the same length, or `None` on both.
  Duplicated obstacles are the move by zero.
* Adding a rectangle by its two opposite corners, in either order,
  leaves the same obstacle set; after any sequence of added segments the
  stored segments are a permutation of them.
* A run of the line router is pinned down turn by turn: the networks take
  turns, a network that gave up passes, every other turn is one escape step
  as the step's contract states it, and the run ends with `NoEscape` exactly
  when both networks gave up, with `StepLimit` only after `max_steps` escape
  steps, and with `Found` at the step that crosses the other network, whose
  path is the configured improvement of the cleaned corner list read off the
  two trees at the crossing.
* Without recursive retreat, a Process II escape adds exactly two points.
  Where some position on the object point's own four retreats does not
  fail, Process II takes the first such position in round-robin order (the
  four walks advance one unit each in turn), and the Process I escape point
  it then takes is the one Process I's order gives.
* When an escape line that a step builds crosses the other network, the
  crossing reported is that of the first such line in the order the step
  builds them (horizontal first); every crossing reported, by such a line or
  by a trial line of Process II, is with the first crossed line of the other
  network.
* The raw path is the cleanup of the corner list read off the two
  escape-point trees at the recorded crossing.
* The returned path is exactly what the configured improvements make of the
  raw path: the extension and probe passes and the cleanup are specified
  round by round, each probe splice strictly shortens the path, and the
  cleanup keeps the order of the corners.
* The path improvements and the cleanup keep a path valid and never make it
  longer; the cleanup never adds a bend.
* The visibility router's cost is the least cost (length plus one penalty per
  change of direction) of a walk through its candidate grid from `a` to `b`,
  and equals the length plus the bend penalties of the path it returns.
