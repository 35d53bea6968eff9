//! The input/output file-set contract of one build step.

use crate::paths::FilePath;
use vstd::prelude::*;

verus! {

/// Immutable record of the input files and output files of one build step;
/// the unit of change detection. Every artifact is computed fresh from the
/// rule it describes, never persisted.
pub struct Artifact {
    pub inputs: Vec<FilePath>,
    pub outputs: Vec<FilePath>,
}

/// The mathematical content of an artifact: its two path lists.
pub ghost struct ArtifactView {
    pub inputs: Seq<Seq<u8>>,
    pub outputs: Seq<Seq<u8>>,
}

impl View for Artifact {
    type V = ArtifactView;

    open spec fn view(&self) -> ArtifactView {
        ArtifactView {
            inputs: crate::paths::paths_view(self.inputs@),
            outputs: crate::paths::paths_view(self.outputs@),
        }
    }
}

} // verus!
