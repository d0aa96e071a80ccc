//! The severity model: hard errors stop collection, soft warnings let it
//! continue.
//!
//! Hard errors (`LifeError`) are violations of design rules: nested regions,
//! duplicate region names, missing required keys, broken references. Soft
//! warnings (`LifeWarning`) are expected conditions: dangling edges (target
//! not yet created), dangling refs (directory not yet created), files with
//! no extractor (binary leaves).

use vstd::prelude::*;
use vstd::string::StringExecFns;
use crate::types::NodePath;

verus! {

/// `std::io::Error`, carried by `LifeError::Io`.
#[verifier::external_type_specification]
#[verifier::external_body]
pub struct ExIoError(std::io::Error);

/// `rusqlite::Error`, carried by `LifeError::Db`.
#[verifier::external_type_specification]
#[verifier::external_body]
pub struct ExSqliteError(rusqlite::Error);

/// Hard errors: collection stops.
#[derive(Debug)]
pub enum LifeError {
    NestedRegion { file: NodePath, outer: String, inner: String },
    DuplicateRegion { file: NodePath, name: String },
    MissingRequiredKey { file: NodePath, lens: String, key: String },
    BrokenEdge { from: NodePath, to: NodePath },
    BrokenRef { from: NodePath, to: NodePath },
    NoSeed { path: NodePath },
    BrokenReferences { count: usize },
    Io(std::io::Error),
    YamlParse { path: String, msg: String },
    Db(rusqlite::Error),
}

/// Soft warnings: collection continues.
#[derive(Debug)]
pub enum LifeWarning {
    /// Edge target has never existed in the graph.
    DanglingEdge { from: NodePath, to: NodePath },
    /// Ref target directory does not exist or has no `quine.yaml`.
    DanglingRef { from: NodePath, to: NodePath },
    /// No extractor matched this file; it is a leaf node.
    NoExtractor { file: NodePath },
    /// A previously-resolved edge target has been removed.
    BrokenEdge { from: NodePath, to: NodePath },
}

/// What a warning holds, as plain values.
pub enum WarningView {
    DanglingEdge { from: Seq<char>, to: Seq<char> },
    DanglingRef { from: Seq<char>, to: Seq<char> },
    NoExtractor { file: Seq<char> },
    BrokenEdge { from: Seq<char>, to: Seq<char> },
}

impl View for LifeWarning {
    type V = WarningView;

    open spec fn view(&self) -> WarningView {
        match self {
            LifeWarning::DanglingEdge { from, to } => WarningView::DanglingEdge { from: from@, to: to@ },
            LifeWarning::DanglingRef { from, to } => WarningView::DanglingRef { from: from@, to: to@ },
            LifeWarning::NoExtractor { file } => WarningView::NoExtractor { file: file@ },
            LifeWarning::BrokenEdge { from, to } => WarningView::BrokenEdge { from: from@, to: to@ },
        }
    }
}

/// The views of a sequence of warnings.
pub open spec fn warnings_view(v: Seq<LifeWarning>) -> Seq<WarningView> {
    v.map_values(|w: LifeWarning| w@)
}

/// The text a warning is shown as.
pub open spec fn warning_text(w: LifeWarning) -> Seq<char> {
    match w {
        LifeWarning::DanglingEdge { from, to } => "dangling edge: "@ + from@ + " -> "@ + to@
            + " (target not found)"@,
        LifeWarning::DanglingRef { from, to } => "dangling ref: "@ + from@ + " -> "@ + to@
            + " (directory not found)"@,
        LifeWarning::NoExtractor { file } => "no extractor for "@ + file@ + " (treated as leaf)"@,
        LifeWarning::BrokenEdge { from, to } => "BROKEN: "@ + from@ + " -> "@ + to@
            + " (target was removed without life mv)"@,
    }
}

impl LifeWarning {
    /// The text this warning is shown as.
    pub fn message(&self) -> (r: String)
        ensures
            r@ == warning_text(*self),
    {
        let mut r = String::new();
        match self {
            LifeWarning::DanglingEdge { from, to } => {
                r.append("dangling edge: ");
                r.append(from.as_str());
                r.append(" -> ");
                r.append(to.as_str());
                r.append(" (target not found)");
            },
            LifeWarning::DanglingRef { from, to } => {
                r.append("dangling ref: ");
                r.append(from.as_str());
                r.append(" -> ");
                r.append(to.as_str());
                r.append(" (directory not found)");
            },
            LifeWarning::NoExtractor { file } => {
                r.append("no extractor for ");
                r.append(file.as_str());
                r.append(" (treated as leaf)");
            },
            LifeWarning::BrokenEdge { from, to } => {
                r.append("BROKEN: ");
                r.append(from.as_str());
                r.append(" -> ");
                r.append(to.as_str());
                r.append(" (target was removed without life mv)");
            },
        }
        proof {
            assert(r@ =~= warning_text(*self));
        }
        r
    }
}

} // verus!
