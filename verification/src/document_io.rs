//! What a save or an open ends in. The document itself is the file format;
//! writing and reading it, and the native dialogs, are the application's
//! job.

use vstd::prelude::*;

use crate::model::DesignDocument;

verus! {

pub enum SaveOutcome {
    Saved { path: String, filename: String },
    /// The user closed the save dialog without picking a location: not an
    /// error, nothing should change.
    Cancelled,
}

pub enum OpenOutcome<F> {
    Opened { document: DesignDocument<F>, path: String, filename: String },
    /// The user closed the open dialog without picking a file.
    Cancelled,
}

} // verus!
