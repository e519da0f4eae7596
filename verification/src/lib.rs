//! A streaming, format-agnostic interchange layer for geometries.
//!
//! A source (an in-memory geometry, a binary blob, a dataset) describes what it
//! holds as an ordered sequence of calls on a sink; a sink (a geometry builder,
//! an SVG writer) turns the calls it receives into an artifact. Neither side
//! knows the other's concrete type.
//!
//! Numbers are carried as the bit patterns of IEEE-754 doubles and are never
//! computed with: they are read from bytes, handed on, and written as text.
pub mod builder;
pub mod builder_model;
pub mod dataset;
pub mod datasource;
pub mod error;
pub mod event;
pub mod geometry;
pub mod geopackage;
pub mod laws;
pub mod machine;
pub mod nesting;
pub mod number;
pub mod processor;
pub mod protocol;
pub mod svg;
pub mod svg_model;
pub mod walker;
pub mod wkb;
pub mod wkb_model;

pub use builder::{build_geometry, GeometryBuilder};
pub use dataset::{Dataset, Feature, Property};
pub use datasource::{GeozeroDatasource, GeozeroDatasourceReader};
pub use error::{DecodeFault, GeozeroError};
pub use event::{Coordinate, Dimension, GeometryKind, PropertyValue};
pub use geometry::Geometry;
pub use geopackage::GpkgBlobs;
pub use processor::{FeatureProcessor, ProcessorSink};
pub use svg::{ProcessToSvg, ReadAsSvg, SvgWriter, ToSvg};
pub use walker::{process_geometry, GeozeroGeometry};
pub use wkb::{process_gpkg_geom, Cursor, GpkgWkb};
