//! Markings as a marks list names them: a target (a directory, a file, or
//! part of a file) and whether it is marked or ignored.

use vstd::prelude::*;
use crate::parse::SpecModel;

verus! {

/// Whether a target is marked or ignored.
#[derive(Clone, Copy, Debug, PartialEq, Eq, Structural)]
pub enum Type {
    Mark,
    Ignore,
}

/// The part of a file that a marking names.
#[derive(Debug, PartialEq, Eq)]
pub enum Spec {
    /// One line number.
    Line(usize),
    /// A pair of line numbers.
    Range(usize, usize),
    /// The lines that match a pattern.
    Regex(String),
}

impl Spec {
    pub open spec fn model(&self) -> SpecModel {
        match self {
            Spec::Line(n) => SpecModel::Line(*n as nat),
            Spec::Range(a, b) => SpecModel::Range(*a as nat, *b as nat),
            Spec::Regex(s) => SpecModel::Regex(s@),
        }
    }
}

/// What a marking names.
#[derive(Debug, PartialEq, Eq)]
pub enum Target {
    Dir(String),
    File(String),
    FileSpec(String, Spec),
}

/// One marking: a target and its type.
#[derive(Debug, PartialEq, Eq)]
pub struct Marking {
    pub target: Target,
    pub mark_type: Type,
}

impl Marking {
    pub fn new(target: Target, mark_type: Type) -> (r: Marking)
        ensures
            r.target == target,
            r.mark_type == mark_type,
    {
        Marking { target, mark_type }
    }
}

} // verus!
