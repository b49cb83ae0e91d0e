//! A verified content-stream filter for page-description documents.
//!
//! The library rewrites a stream of drawing operators (text, paths, images,
//! graphics-state pushes and pops, form invocations) into an equivalent
//! transformed stream.  It can sanitize malformed operator sequences,
//! recursively flatten or instance embedded forms with cycle detection, and
//! let caller-supplied hooks drop or replace text runs and raster images on
//! the fly.

pub mod error;
pub mod geom;
pub mod pixmap;
pub mod ops;
pub mod options;
pub mod hooks;
pub mod sanitize;
pub mod filter;
