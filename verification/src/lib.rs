//! The exact part of an astrophotography stacker: reading what a frame is
//! from its path and metadata, holding a session of frames, deciding which
//! frames may be stacked or calibrated together and why not, partitioning and
//! ranking the result, planning a combination, and writing the FITS and TIFF
//! files around the samples. Everything here is proved against its contract.
//!
//! What measures, combines, registers or maps pixel values is floating point
//! and is not part of this library: a caller supplies it. The command-line
//! program beside the library writes FITS and TIFF samples and scans
//! directories; the calibration, registration, integration and survey passes
//! themselves are not carried here.

pub mod text;
pub mod kind;
pub mod frame;
pub mod mosaic;
pub mod compat;
pub mod sets;
pub mod session;
pub mod clock;
pub mod fits;
pub mod tiff;
pub mod error;
pub mod journal;
pub mod machine;
pub mod scan;
pub mod formats;
pub mod pipeline;
pub mod order;
pub mod partition;
pub mod combine;
pub mod survey;
