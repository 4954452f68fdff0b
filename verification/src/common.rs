use vstd::prelude::*;

verus! {

/// A 1-based line index into a document.
pub type Idx = usize;

/// Description of an output file: its name, what already exists under that
/// name, what has been allocated for it, and whether it is temporary.
#[derive(Debug, Clone)]
pub struct OutFile {
    pub name: String,
    pub exists: Option<String>,
    pub alloc: Option<String>,
    pub temporary: bool,
}

/// How talkative the surrounding tool should be.
pub enum Verbosity {
    Default,
    Silent,
    Verbose,
}

/// In-memory output sink for the merge pass.  Lines are collected in order;
/// the caller decides where they finally go.  `zero_output` records whether
/// nothing has been emitted yet, `after_newline` whether the last emitted
/// line was terminated.
pub struct OutState {
    pub lines: Vec<String>,
    pub after_newline: bool,
    pub zero_output: bool,
}

impl OutState {
    /// A fresh, empty sink.
    pub fn new() -> (r: OutState)
        ensures
            r.lines@.len() == 0,
            r.after_newline,
            r.zero_output,
    {
        OutState { lines: Vec::new(), after_newline: true, zero_output: true }
    }
}

} // verus!
