//! Procedural map generation and four-coloring.
//!
//! The crate partitions a rectangular grid into irregular regions by a
//! multi-source flood fill ([`map::RegionMap::voronoi_like`]), orders a
//! region's boundary cells into a polyline
//! ([`map::Region::boundary_polyline`]), and assigns one of four colors to
//! every region so that no two adjacent regions share a color
//! ([`colormap::ColorMap::color`]).

pub mod colormap;
pub mod map;
