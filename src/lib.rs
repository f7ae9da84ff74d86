//! Redaction of personal data in free text: pattern detectors for e-mail
//! addresses and file paths, location of externally suggested person names,
//! reconciliation of overlapping spans and a byte-accurate rewrite.

pub mod detect;
pub mod entity;
pub mod names;
pub mod pipeline;
pub mod reconcile;
pub mod rewrite;
