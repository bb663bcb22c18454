//! Burning a vector geometry into a raster grid through a quadtree of tiles.
//!
//! A grid of cells lies on a world rectangle; a tile is a block of the grid
//! and either a leaf or its four quarters. A burn searches the tree for the
//! leaves that a geometry may meet, tests each of their cells, and writes a
//! value into the cells that the geometry meets.
//!
//! World coordinates are integers in a unit of the caller's choice, so that
//! every bound of every tile is exact. A geometry is any function that says
//! whether it meets a given axis-aligned rectangle.

pub mod burn;
pub mod fault;
pub mod geometry;
pub mod grid;
pub mod raster;
pub mod region;
pub mod tiles;
pub mod tree;
pub mod workers;

pub use burn::{raster_matches, work_chunks, write_cells};
pub use fault::Fault;
pub use grid::{flatten, unflatten};
pub use geometry::{get_coordinates, mk_rectangle, Rectangle, WORLD_LIMIT};
pub use raster::{split_raster_tile, RasterTile};
pub use region::Region;
pub use tiles::{build_index, number_of_splits, Tile};
pub use workers::{default_workers, worker_count};
