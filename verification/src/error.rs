use vstd::prelude::*;

verus! {

/// An error annotated with the source location that raised it.
#[derive(Debug)]
pub struct GameError {
    pub err: String,
    pub file: &'static str,
    pub line: u32,
}

impl GameError {
    /// Wraps an error description together with the file and line it
    /// came from.
    pub fn create(err: String, file: &'static str, line: u32) -> (r: GameError)
        ensures
            r.err@ == err@,
            r.file@ == file@,
            r.line == line,
    {
        GameError { err, file, line }
    }
}

} // verus!
