//! Choosing where the input of a parse comes from.
use vstd::prelude::*;

verus! {

/// Where the input of a parse comes from.
#[derive(Debug)]
pub enum Source {
    /// Text held in memory.
    Text(String),
    /// The path of a file.
    Path(String),
}

/// Why no source could be chosen.
#[derive(Clone, Copy, Debug, PartialEq, Eq, Structural)]
pub enum SourceError {
    /// Both a text and a path were given.
    Both,
    /// Neither a text nor a path was given.
    Neither,
}

/// Chooses the input of a parse: exactly one of `json_string` and
/// `file_path` must be given.
pub fn choose_source(json_string: Option<String>, file_path: Option<String>) -> (r: Result<Source, SourceError>)
    ensures
        match (json_string, file_path) {
            (Some(s), None) => r matches Ok(Source::Text(t)) && t@ == s@,
            (None, Some(p)) => r matches Ok(Source::Path(t)) && t@ == p@,
            (Some(_), Some(_)) => r == Err::<Source, SourceError>(SourceError::Both),
            (None, None) => r == Err::<Source, SourceError>(SourceError::Neither),
        },
{
    match (json_string, file_path) {
        (Some(s), None) => Ok(Source::Text(s)),
        (None, Some(p)) => Ok(Source::Path(p)),
        (Some(_), Some(_)) => Err(SourceError::Both),
        (None, None) => Err(SourceError::Neither),
    }
}

} // verus!
