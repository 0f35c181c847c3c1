//! Coverage counts: how many lines of a file are marked, rolled up over
//! the entries of a directory.

use vstd::prelude::*;
use crate::interval::{FileMarkSpec, MarkModel, OFFSET_MAX};

verus! {

/// Marked lines and all lines, of a file or of a tree.
#[derive(Clone, Copy, Debug, PartialEq, Eq, Structural)]
pub struct FileMarkStatus {
    pub marked: u16,
    pub line_no: u16,
}

/// How many of the offsets `0 .. n` `m` marks.
pub open spec fn marked_count(m: MarkModel, n: int) -> nat
    decreases n,
{
    if n <= 0 {
        0
    } else {
        marked_count(m, n - 1) + if m.matches(n - 1) { 1nat } else { 0nat }
    }
}

/// Sum of the marked counts of `s`.
pub open spec fn total_marked(s: Seq<FileMarkStatus>) -> nat
    decreases s.len(),
{
    if s.len() == 0 {
        0
    } else {
        total_marked(s.drop_last()) + s.last().marked as nat
    }
}

/// Sum of the line counts of `s`.
pub open spec fn total_lines(s: Seq<FileMarkStatus>) -> nat
    decreases s.len(),
{
    if s.len() == 0 {
        0
    } else {
        total_lines(s.drop_last()) + s.last().line_no as nat
    }
}

/// The status of a file of `line_count` lines under `spec`: line `k`
/// (zero-based) counts as marked when `spec` marks offset `k`.
pub fn file_status(spec: &FileMarkSpec, line_count: u16) -> (r: FileMarkStatus)
    ensures
        r.line_no == line_count,
        r.marked == marked_count(spec@, line_count as int),
{
    let mut marked: u16 = 0;
    let mut k: u16 = 0;
    while k < line_count
        invariant
            k <= line_count,
            marked <= k,
            marked == marked_count(spec@, k as int),
        decreases line_count - k,
    {
        if spec.match_line_offset(k) {
            marked = marked + 1;
        }
        k = k + 1;
    }
    FileMarkStatus { marked, line_no: line_count }
}

pub proof fn lemma_totals_prefix(s: Seq<FileMarkStatus>, k: int)
    requires
        0 <= k <= s.len(),
    ensures
        total_marked(s.take(k)) <= total_marked(s),
        total_lines(s.take(k)) <= total_lines(s),
    decreases s.len(),
{
    if k < s.len() {
        assert(s.drop_last().take(k) =~= s.take(k));
        lemma_totals_prefix(s.drop_last(), k);
    } else {
        assert(s.take(k) =~= s);
    }
}

/// The status of a directory whose entries have the statuses `entries`:
/// both counts summed, or `None` when a sum exceeds `65535`.
pub fn directory_status(entries: &Vec<FileMarkStatus>) -> (r: Option<FileMarkStatus>)
    ensures
        match r {
            Some(st) => st.marked == total_marked(entries@) && st.line_no == total_lines(entries@),
            None => total_marked(entries@) > OFFSET_MAX || total_lines(entries@) > OFFSET_MAX,
        },
{
    let mut marked: u16 = 0;
    let mut line_no: u16 = 0;
    let mut k: usize = 0;
    while k < entries.len()
        invariant
            k <= entries@.len(),
            marked == total_marked(entries@.take(k as int)),
            line_no == total_lines(entries@.take(k as int)),
        decreases entries@.len() - k,
    {
        let e = entries[k];
        proof {
            assert(entries@.take(k + 1).drop_last() =~= entries@.take(k as int));
            lemma_totals_prefix(entries@, k + 1);
        }
        if marked as u32 + e.marked as u32 > OFFSET_MAX as u32 || line_no as u32 + e.line_no as u32
            > OFFSET_MAX as u32 {
            return None;
        }
        marked = marked + e.marked;
        line_no = line_no + e.line_no;
        k = k + 1;
    }
    assert(entries@.take(k as int) =~= entries@);
    Some(FileMarkStatus { marked, line_no })
}

} // verus!
