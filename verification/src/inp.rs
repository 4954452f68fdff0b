//! The document being patched: an immutable, 1-indexed sequence of lines.

use vstd::prelude::*;
use vstd::string::*;
use crate::common::Idx;

verus! {

/// A borrowed view of one document line.
pub struct ILine<'a> {
    pub ptr: &'a str,
    pub size: usize,
}

/// A document held in memory as its lines.
pub struct InputFile {
    pub lines: Vec<String>,
}

impl InputFile {
    /// Wrap an already-loaded list of lines.
    pub fn new(lines: Vec<String>) -> (r: InputFile)
        ensures
            r.lines == lines,
    {
        InputFile { lines }
    }

    /// Fetch the 1-indexed line `line`; nothing when `line` is zero or past
    /// the end.
    pub fn ifetch(&self, line: Idx) -> (r: Option<ILine<'_>>)
        ensures
            match r {
                Some(il) => 1 <= line <= self.lines@.len() && il.ptr@ == self.lines@[line - 1]@
                    && il.size == il.ptr.spec_bytes().len() as usize,
                None => !(1 <= line <= self.lines@.len()),
            },
    {
        if line >= 1 && line <= self.lines.len() {
            let s: &String = &self.lines[line - 1];
            let p: &str = s.as_str();
            Some(ILine { ptr: p, size: p.len() })
        } else {
            None
        }
    }

    /// How many lines the document has.
    pub fn num_lines(&self) -> (r: Idx)
        ensures
            r == self.lines@.len(),
    {
        self.lines.len()
    }
}

} // verus!
