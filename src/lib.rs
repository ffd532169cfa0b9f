//! Composable coordinate transformations: the verified structural core.
//!
//! - [`identity`], [`map_axis`]: transformations that only move coordinates, applied
//!   to points of any `Copy` element type, with exact point, bulk and column forms.
//! - [`sequence`], [`by_dimension`], [`bijection`], [`stage`]: the bookkeeping of composite
//!   transformations (stage chaining, identity elision, index partitions, inversion),
//!   generic over the transformations they hold.
//! - [`graph`]: named coordinate systems joined by costed transformations, with
//!   cheapest-route queries and a route cache.
//! - [`matrix`]: dense matrices as data (construction, layout changes, affine split).
//! - [`ndarr`], [`index`], [`chunk`], [`ravel`], [`grid`], [`buffers`]: integer
//!   indexing of bounded arrays, its extension to every signed coordinate, chunked
//!   arrays, and the sampling grids.
//!
//! Arithmetic on real coordinates is not part of this crate.
pub mod bijection;
pub mod buffers;
pub mod by_dimension;
pub mod chunk;
pub mod graph;
pub mod grid;
pub mod identity;
pub mod index;
pub mod map_axis;
pub mod matrix;
pub mod ndarr;
pub mod ravel;
pub mod sequence;
pub mod stage;
