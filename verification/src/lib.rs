//! A grid pathfinding library.
//!
//! An ASCII terrain map (`-` open, `#` wall) is parsed into a grid of
//! [`pathfinder::structs::Tile`]s, each carrying a static heuristic score
//! relative to a fixed start and end coordinate.  A greedy, score-guided
//! walk with a frontier fallback then produces a coordinate path from
//! start to end, or reports that no path exists.

pub mod pathfinder;
