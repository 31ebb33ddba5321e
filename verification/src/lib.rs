//! Verified core of a converter that turns structured machine-setup data
//! into a line-oriented tag/attribute text format for CNC controllers:
//! the typed value model, the template codec that defines the on-disk
//! grammar, the natural-sort serialization order, and the mapping rules
//! that derive cut lists, job variables and option flags from project
//! data.
#![allow(unused_imports)]

pub mod elumatec;
pub mod exporter;
pub mod natural;
pub mod text;
pub mod util;

use vstd::prelude::*;

pub use exporter::Exporter;

verus! {

/// Input selector for one export call: project data fetched from the
/// data service by project UUID, or a flat file export on disk. Exactly
/// one is active per call.
pub enum Source {
    Api { project_uuid: String },
    File(String),
}

/// A vendor exporter as the surrounding program drives it: turn one
/// `Source` into machine text routed to `output_path`, or to standard
/// output when there is none. Implementations live with the I/O around
/// the library and call its verified build and render pipeline.
pub trait Export {
    fn export(&self, source: Source, output_path: Option<String>) -> Result<
        (),
        exporter::ExportError,
    >;

    fn extension(&self) -> String;
}

} // verus!
