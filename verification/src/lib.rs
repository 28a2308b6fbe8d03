//! Spatial pruning of Parquet scans.
//!
//! A query of the form `st_intersects(<polygon>, <column>) IS TRUE` is turned into a
//! bounding rectangle ([`predicate`]). Row groups whose stored bounding box misses that
//! rectangle are skipped ([`row_group`]); where a file has page offsets, an index over the
//! bounds of the geometries in its pages ([`geometry`]) narrows the scan to single pages
//! ([`page_index`], [`page_table`]).
//!
//! What the library promises of its results, in terms of what it is given, stands in [`laws`].
//!
//! Coordinates are binary64 numbers. The library holds them as [`ordinate::Ordinate`], an
//! integer that orders as the number does, because every rule here only compares them.

pub mod geometry;
pub mod laws;
pub mod metadata;
pub mod ordinate;
pub mod outside;
pub mod page;
pub mod page_index;
pub mod page_table;
pub mod predicate;
pub mod rect;
pub mod row_group;
pub mod selection;
