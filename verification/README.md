# neatnet

Simplification of street networks, verified with Verus.

Small faces between the lines of dual carriageways, roundabouts and complex
junctions are artifacts of how streets are drawn. The simplification replaces them
by single lines. Where strokes of different kinds meet at an artifact, only the edges
whose stroke ends there are dropped, and a node that this cuts off from a single
remaining edge is connected again. A merged cluster is left alone where a skeleton
would miss one of its connections. The identifiers of dropped edges are handed on to
the last of the lines that replace them.

* `src/` is the library. It holds the network, and decides at every step what is
  dropped, drawn, filtered and joined. Each function states in its contract what it
  returns; public proof functions state what holds of several functions together.
* `app/` is ordinary Rust around it: geometry in floating point, files, progress
  bars and the Python module. The geometry routines themselves (topology, artifact
  detection, strokes, Voronoi skeletons) come through the `Toolkit` trait.
* `tests/` runs the library.

Coordinates, distances and angles are held as `Measure`: the bit pattern of a
double. The library compares them, it does not calculate with them. Where a decision
needs a measurement, a step function asks for it and is called again with the
answer.
