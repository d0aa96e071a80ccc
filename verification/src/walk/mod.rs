//! Phase one of collection: walk, hash, diff.

pub mod diff;
pub mod glob;
pub mod hash;
pub mod walker;

use vstd::prelude::*;
use crate::errors::{LifeWarning, WarningView, warnings_view};
use crate::types::{Root, RootView, WalkedFile, WalkedFileView, files_view, roots_view};

verus! {

/// The name of the definition file that makes a directory a root.
pub const DEFINITION_FILE: &'static str = "quine.yaml";

/// The name of the sentinel file that halts descent into a directory.
pub const STOP_FILE: &'static str = ".quine-stop";

/// Result of walking from a seed.
#[derive(Debug)]
pub struct WalkResult {
    pub files: Vec<WalkedFile>,
    pub roots: Vec<Root>,
    pub warnings: Vec<LifeWarning>,
}

/// What a walk result holds, as plain values.
pub struct WalkResultView {
    pub files: Seq<WalkedFileView>,
    pub roots: Seq<RootView>,
    pub warnings: Seq<WarningView>,
}

impl View for WalkResult {
    type V = WalkResultView;

    open spec fn view(&self) -> WalkResultView {
        WalkResultView {
            files: files_view(self.files@),
            roots: roots_view(self.roots@),
            warnings: warnings_view(self.warnings@),
        }
    }
}

} // verus!
