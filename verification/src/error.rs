use vstd::prelude::*;

verus! {

/// Errors surfaced by one composition run.
///
/// Every failure is fatal: a partial graph is discarded, never encoded.
#[derive(Debug, Clone)]
pub enum PlugError {
    /// The named package's bytes could not be decoded as a binary component,
    /// or the package could not be registered with the graph.
    InvalidPackage { name: String },
    /// No package name could be derived from the given plug reference.
    InvalidPlugName { reference: String },
    /// The named export does not exist on the instance's package.
    UnknownExport { name: String },
    /// The named import does not exist on the instance's package.
    UnknownImport { name: String },
    /// An argument was already supplied for the named import.
    AlreadySet { name: String },
    /// A top-level export of that name already exists.
    DuplicateExport { name: String },
    /// No plug export matched any socket import.
    NoMatchingImports,
    /// The finished graph could not be serialized to a binary artifact.
    EncodeFailed,
    /// The binary artifact could not be rendered as text.
    TextConversionFailed,
}

impl PlugError {
    /// A short human-readable description of the error.
    pub fn message(&self) -> String {
        match self {
            PlugError::InvalidPackage { name } => {
                "invalid component package `".to_owned().concat(name.as_str()).concat("`")
            },
            PlugError::InvalidPlugName { reference } => {
                "path to plug `".to_owned().concat(reference.as_str()).concat(
                    "` was not a file",
                )
            },
            PlugError::UnknownExport { name } => {
                "instance has no export named `".to_owned().concat(name.as_str()).concat("`")
            },
            PlugError::UnknownImport { name } => {
                "instance has no import named `".to_owned().concat(name.as_str()).concat("`")
            },
            PlugError::AlreadySet { name } => {
                "an argument was already supplied for import `".to_owned().concat(
                    name.as_str(),
                ).concat("`")
            },
            PlugError::DuplicateExport { name } => {
                "an export named `".to_owned().concat(name.as_str()).concat(
                    "` already exists",
                )
            },
            PlugError::NoMatchingImports => {
                "the socket component had no matching imports for the plugs that were provided".to_owned()
            },
            PlugError::EncodeFailed => {
                "failed to encode the composition graph".to_owned()
            },
            PlugError::TextConversionFailed => {
                "failed to convert binary output to text".to_owned()
            },
        }
    }
}

} // verus!
