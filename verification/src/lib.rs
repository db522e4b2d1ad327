//! vyges-layout — a layout geometry kernel: rectilinear boolean operations, contour
//! tracing, edge checks, region sizing, a spatial index, connectivity tracing, and the
//! GDSII / OASIS byte formats.

pub mod geom;
pub mod spans;
pub mod coverage;
pub mod sort;
pub mod boolean;
pub mod sizing;
pub mod index;
pub mod edges;
pub mod contour;
pub mod contour_law;
pub mod contour_area;
pub mod oasis;
pub mod gds;
pub mod engine;
pub mod oasis_read;
pub mod connect;
pub mod flatten;
pub mod render;
pub mod oasis_write;
