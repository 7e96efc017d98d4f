use vstd::prelude::*;

verus! {

/// Why a file's transform was abandoned. Every error is fatal to that file.
#[derive(Debug)]
pub enum RawImportError {
    /// The configuration gave no root directory.
    MissingConfiguration,
    /// The root directory cannot be read from where the transform runs, so
    /// files cannot be inlined at transform time.
    SandboxedEnvironment { root: String },
    /// A `?raw` import used a named or namespace binding; only a default
    /// binding can take a file's text.
    UnsupportedSpecifier { source: String },
    /// The resolved path holds a NUL character.
    InvalidPath { path: String },
    /// The resolved file could not be read as text.
    FileReadError { path: String, cause: String },
}

/// An error, with its texts as character sequences.
pub ghost enum ErrorModel {
    MissingConfiguration,
    SandboxedEnvironment(Seq<char>),
    UnsupportedSpecifier(Seq<char>),
    InvalidPath(Seq<char>),
    FileReadError(Seq<char>, Seq<char>),
}

impl View for RawImportError {
    type V = ErrorModel;

    open spec fn view(&self) -> ErrorModel {
        match self {
            RawImportError::MissingConfiguration => ErrorModel::MissingConfiguration,
            RawImportError::SandboxedEnvironment { root } => ErrorModel::SandboxedEnvironment(
                root@,
            ),
            RawImportError::UnsupportedSpecifier { source } => ErrorModel::UnsupportedSpecifier(
                source@,
            ),
            RawImportError::InvalidPath { path } => ErrorModel::InvalidPath(path@),
            RawImportError::FileReadError { path, cause } => ErrorModel::FileReadError(
                path@,
                cause@,
            ),
        }
    }
}

/// A string result, with its texts as character sequences.
pub open spec fn text_result(r: Result<String, RawImportError>) -> Result<Seq<char>, ErrorModel> {
    match r {
        Ok(s) => Ok(s@),
        Err(e) => Err(e@),
    }
}

} // verus!
