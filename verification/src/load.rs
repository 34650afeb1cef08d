//! What loading a table reports: the errors that end a build before it
//! starts, and the warnings that never do.

use vstd::prelude::*;
use crate::paths::{extension, extension_of};

verus! {

/// Why a table could not be loaded.
#[derive(Clone, Debug, PartialEq, Eq)]
pub enum LoadError {
    /// The line has no `:` between an address and a name.
    MalformedLine { line_number: usize, raw_line: String },
    /// What stands before the `:` is no 32-bit number in base 16.
    InvalidAddress { line_number: usize, raw_value: String },
    /// The name occurs on an earlier line too.
    DuplicateSymbol { name: String },
}

/// The mathematical value of a `LoadError`.
pub enum LoadErrorView {
    MalformedLine { line_number: int, raw_line: Seq<char> },
    InvalidAddress { line_number: int, raw_value: Seq<char> },
    DuplicateSymbol { name: Seq<char> },
}

impl View for LoadError {
    type V = LoadErrorView;

    open spec fn view(&self) -> LoadErrorView {
        match self {
            LoadError::MalformedLine { line_number, raw_line } => LoadErrorView::MalformedLine {
                line_number: *line_number as int,
                raw_line: raw_line@,
            },
            LoadError::InvalidAddress { line_number, raw_value } => LoadErrorView::InvalidAddress {
                line_number: *line_number as int,
                raw_value: raw_value@,
            },
            LoadError::DuplicateSymbol { name } => LoadErrorView::DuplicateSymbol { name: name@ },
        }
    }
}

/// A sign that a file has drifted from its format. A warning never stops a
/// build.
#[derive(Clone, Debug, PartialEq, Eq)]
pub enum LoadWarning {
    /// The address on this line is not written with eight characters.
    AddressWidth { line_number: usize, raw_value: String },
    /// The path of the link table has no extension.
    MissingExtension,
    /// The path of the link table has another extension than `link`.
    UnexpectedExtension { found: String },
}

/// The mathematical value of a `LoadWarning`.
pub enum LoadWarningView {
    AddressWidth { line_number: int, raw_value: Seq<char> },
    MissingExtension,
    UnexpectedExtension { found: Seq<char> },
}

impl View for LoadWarning {
    type V = LoadWarningView;

    open spec fn view(&self) -> LoadWarningView {
        match self {
            LoadWarning::AddressWidth { line_number, raw_value } => LoadWarningView::AddressWidth {
                line_number: *line_number as int,
                raw_value: raw_value@,
            },
            LoadWarning::MissingExtension => LoadWarningView::MissingExtension,
            LoadWarning::UnexpectedExtension { found } => LoadWarningView::UnexpectedExtension {
                found: found@,
            },
        }
    }
}

/// The values of a list of warnings, in order.
pub open spec fn warning_views(warnings: Seq<LoadWarning>) -> Seq<LoadWarningView> {
    warnings.map_values(|w: LoadWarning| w@)
}

/// What the path of a link table gives rise to: nothing where its extension
/// is `link`, a warning otherwise.
pub open spec fn path_warning(path: Seq<char>) -> Option<LoadWarningView> {
    match extension(path) {
        None => Some(LoadWarningView::MissingExtension),
        Some(found) => if found == "link"@ {
            None
        } else {
            Some(LoadWarningView::UnexpectedExtension { found })
        },
    }
}

/// Checks the extension of the path of a link table.
pub fn link_path_warning(path: &str) -> (r: Option<LoadWarning>)
    ensures
        match r {
            Some(w) => path_warning(path@) == Some(w@),
            None => path_warning(path@) is None,
        },
{
    match extension_of(path) {
        None => Some(LoadWarning::MissingExtension),
        Some(found) => {
            let expected: String = "link".to_owned();
            if found == expected {
                None
            } else {
                Some(LoadWarning::UnexpectedExtension { found })
            }
        },
    }
}

} // verus!
