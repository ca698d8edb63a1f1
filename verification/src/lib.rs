//! Verified core of the Plantastic site-scan toolkit.
//!
//! The integer and byte-level logic of the scan pipeline, the scene
//! exporter and the solar engine lives here with its contracts; the
//! floating-point geometry and the I/O stand outside in `app/`.

pub mod annotate;
pub mod calendar;
pub mod cluster;
pub mod extrude;
pub mod feature;
pub mod glb;
pub mod logging;
pub mod mesh;
pub mod pipeline;
pub mod report;
pub mod scan;
pub mod scene;
pub mod solar;
pub mod text;
pub mod timing;
pub mod voxel;
