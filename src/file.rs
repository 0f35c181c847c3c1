//! A source file held line by line, each line with its own mark and
//! ignore flags.

use vstd::prelude::*;
use crate::marking::Type;

verus! {

/// One line of a source file and its flags.
#[derive(Debug)]
pub struct Line {
    pub text: String,
    pub mark: bool,
    pub ignore: bool,
}

impl Line {
    /// A line with neither flag set.
    pub fn new(text: String) -> (r: Line)
        ensures
            r.text == text,
            !r.mark,
            !r.ignore,
    {
        Line { text, mark: false, ignore: false }
    }

    /// Sets the flag that `mark_type` names; the other flag and the text stay.
    pub fn set(&mut self, mark_type: &Type)
        ensures
            final(self).text == old(self).text,
            final(self).mark == (old(self).mark || *mark_type == Type::Mark),
            final(self).ignore == (old(self).ignore || *mark_type == Type::Ignore),
    {
        match mark_type {
            Type::Mark => self.mark = true,
            Type::Ignore => self.ignore = true,
        }
    }

    pub fn marked(&self) -> (r: bool)
        ensures
            r == self.mark,
    {
        self.mark
    }

    pub fn ignored(&self) -> (r: bool)
        ensures
            r == self.ignore,
    {
        self.ignore
    }
}

/// How a line is shown: ignored, marked, or plain.
#[derive(Clone, Copy, Debug, PartialEq, Eq, Structural)]
pub enum LineKind {
    Ignored,
    Marked,
    Plain,
}

/// A source file: its name, its lines, and flags for the whole file.
#[derive(Debug)]
pub struct Marked {
    pub filename: String,
    pub lines: Vec<Line>,
    pub marked: bool,
    pub ignore: bool,
}

impl Marked {
    /// A file of the given lines, with neither whole-file flag set.
    pub fn new(filename: String, lines: Vec<Line>) -> (r: Marked)
        ensures
            r.filename == filename,
            r.lines == lines,
            !r.marked,
            !r.ignore,
    {
        Marked { filename, lines, marked: false, ignore: false }
    }

    /// How line `i` is shown: ignoring (of the file or the line) wins over
    /// marking (of the file or the line).
    pub fn line_kind(&self, i: usize) -> (r: LineKind)
        requires
            i < self.lines@.len(),
        ensures
            r == if self.ignore || self.lines@[i as int].ignore {
                LineKind::Ignored
            } else if self.marked || self.lines@[i as int].mark {
                LineKind::Marked
            } else {
                LineKind::Plain
            },
    {
        let line = &self.lines[i];
        if self.ignore || line.ignore {
            LineKind::Ignored
        } else if self.marked || line.mark {
            LineKind::Marked
        } else {
            LineKind::Plain
        }
    }

    /// The number of lines.
    pub fn len(&self) -> (r: usize)
        ensures
            r == self.lines@.len(),
    {
        self.lines.len()
    }
}

} // verus!
