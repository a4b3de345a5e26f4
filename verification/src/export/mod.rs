//! Export to manufacturing formats.

pub mod three_mf;
