//! 3MF export: the model document and the package around it.
//!
//! A 3MF file is a ZIP archive. The archive uses the Open Packaging
//! Conventions (OPC). The package contains three files:
//!
//! - `[Content_Types].xml` gives the MIME type of each file extension
//! - `_rels/.rels` points to the 3D model
//! - `3D/3dmodel.model` contains the model in XML
//!
//! The model has resources (meshes and optional base materials) and a
//! build list. The build list places each object on the plate.
//! Title, designer and description become metadata in the model.

pub mod document;
pub mod export;
pub mod package;
pub mod xml;

pub use export::{ThreeMfExport, ThreeMfMetadata};
