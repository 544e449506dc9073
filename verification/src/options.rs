//! What the caller asks for.

use vstd::prelude::*;

verus! {

/// The options of a drill.
pub struct Opts {
    /// The profile whose history is practised.
    pub profile: String,
    /// Whether the drill is an examination.
    pub examination: bool,
}

/// The options of a report.
pub struct ReportOpts {
    /// The profile whose history is reported.
    pub profile: String,
}

} // verus!
