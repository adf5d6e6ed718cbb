//! Search for the hardest maze on a small grid.
//!
//! Starting from a grid of open cells, walls are added one at a time. A wall
//! is kept only when the route from the entry over the first and the second
//! touchpoint to the exit does not become shorter. The grid with the longest
//! such route is the result.

pub mod astar;
pub mod frontier;
pub mod hardening;
pub mod maze;
pub mod point;
pub mod render;
pub mod route;
pub mod search;
pub mod seen;
pub mod walk;

pub use astar::{a_star, heuristic};
pub use hardening::Route;
pub use maze::{Cell, Grid, GridView, Maze, MazeView, MAX_CELLS};
pub use point::Point;
pub use render::render_maze;
pub use route::find_shortest_path;
pub use search::{optimize_maze, Search, SearchView};
