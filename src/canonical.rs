//! The canonical form of an interval list: its maximal runs of marked
//! offsets, in order, read off the presence table of the offsets below
//! `OFFSET_MAX`.

use vstd::prelude::*;
use crate::interval::{covered_by, SpecType, OFFSET_MAX};

verus! {

/// Number of offsets that the presence table holds: `0 .. OFFSET_MAX`.
pub const TABLE_LEN: usize = 65535;

/// The presence table of `s`: entry `i` says whether `s` covers offset `i`.
pub open spec fn presence(s: Seq<SpecType>) -> Seq<bool> {
    Seq::new(TABLE_LEN as nat, |i: int| covered_by(s, i))
}

/// The end (exclusive) of the run of `true` entries of `t` that starts at `i`.
pub open spec fn run_end(t: Seq<bool>, i: int) -> int
    decreases t.len() - i,
{
    if i < 0 || i >= t.len() || !t[i] {
        i
    } else {
        run_end(t, i + 1)
    }
}

/// The interval that encodes the run `[i, e)` of a table of length `n`: a
/// run of one offset is a `Line`, unless it reaches the end of the table;
/// every other run is a `Range`.
pub open spec fn run_interval(i: int, e: int, n: int) -> SpecType {
    if e - i == 1 && e < n {
        SpecType::Line(i as u16)
    } else {
        SpecType::Range(i as u16, e as u16)
    }
}

/// The runs of `t` from index `i` on, in order.
pub open spec fn runs_from(t: Seq<bool>, i: int) -> Seq<SpecType>
    decreases t.len() - i,
    via runs_from_decreases
{
    if i < 0 || i >= t.len() {
        Seq::empty()
    } else if !t[i] {
        runs_from(t, i + 1)
    } else {
        let e = run_end(t, i);
        seq![run_interval(i, e, t.len() as int)] + runs_from(t, e)
    }
}

#[via_fn]
proof fn runs_from_decreases(t: Seq<bool>, i: int) {
    if 0 <= i < t.len() && t[i] {
        lemma_run_end(t, i);
    }
}

/// The canonical form of `s`: sorted, maximal runs, with no two intervals
/// adjacent or overlapping.
pub open spec fn canonical(s: Seq<SpecType>) -> Seq<SpecType> {
    runs_from(presence(s), 0)
}

/// `s` is already in canonical form.
pub open spec fn is_canonical(s: Seq<SpecType>) -> bool {
    canonical(s) == s
}

pub proof fn lemma_run_end(t: Seq<bool>, i: int)
    requires
        0 <= i < t.len(),
        t[i],
    ensures
        i < run_end(t, i) <= t.len(),
        forall|m: int| i <= m < run_end(t, i) ==> t[m],
        run_end(t, i) == t.len() || !t[run_end(t, i)],
    decreases t.len() - i,
{
    assert(run_end(t, i) == run_end(t, i + 1));
    if i + 1 < t.len() && t[i + 1] {
        lemma_run_end(t, i + 1);
    } else {
        assert(run_end(t, i + 1) == i + 1);
    }
}

/// A run of `true` entries from `i` up to a `false` entry or the end is the
/// run that `run_end` finds.
pub proof fn lemma_run_end_at(t: Seq<bool>, i: int, j: int)
    requires
        0 <= i <= j <= t.len(),
        forall|m: int| i <= m < j ==> t[m],
        j == t.len() || !t[j],
    ensures
        run_end(t, i) == j,
    decreases j - i,
{
    if i < j {
        lemma_run_end_at(t, i + 1, j);
    }
}

/// Some interval of `a + b` covers `o` exactly when one of `a` or of `b` does.
pub proof fn lemma_covered_concat(a: Seq<SpecType>, b: Seq<SpecType>, o: int)
    ensures
        covered_by(a + b, o) == (covered_by(a, o) || covered_by(b, o)),
{
    let c = a + b;
    if covered_by(c, o) {
        let j = choose|j: int| 0 <= j < c.len() && (#[trigger] c[j]).covers(o);
        if j < a.len() {
            assert(a[j] == c[j]);
        } else {
            assert(b[j - a.len()] == c[j]);
        }
    }
    if covered_by(a, o) {
        let j = choose|j: int| 0 <= j < a.len() && (#[trigger] a[j]).covers(o);
        assert(c[j] == a[j]);
    }
    if covered_by(b, o) {
        let j = choose|j: int| 0 <= j < b.len() && (#[trigger] b[j]).covers(o);
        assert(c[j + a.len()] == b[j]);
    }
}

/// The run interval of `[i, e)` covers exactly the offsets of `[i, e)`.
pub proof fn lemma_run_interval_covers(i: int, e: int, n: int, o: int)
    requires
        0 <= i < e <= n <= TABLE_LEN,
    ensures
        run_interval(i, e, n).covers(o) == (i <= o < e),
{
}

/// The runs of `t` from `i` cover exactly the `true` entries from `i` on.
pub proof fn lemma_runs_cover(t: Seq<bool>, i: int, o: int)
    requires
        0 <= i <= t.len() <= TABLE_LEN,
    ensures
        covered_by(runs_from(t, i), o) == (i <= o < t.len() && t[o]),
    decreases t.len() - i,
{
    if i < t.len() {
        if !t[i] {
            lemma_runs_cover(t, i + 1, o);
        } else {
            let e = run_end(t, i);
            lemma_run_end(t, i);
            lemma_runs_cover(t, e, o);
            let x = run_interval(i, e, t.len() as int);
            lemma_covered_concat(seq![x], runs_from(t, e), o);
            lemma_run_interval_covers(i, e, t.len() as int, o);
            if covered_by(seq![x], o) {
                let j = choose|j: int| 0 <= j < 1 && (#[trigger] seq![x][j]).covers(o);
                assert(j == 0);
            }
            if x.covers(o) {
                assert(seq![x][0].covers(o));
            }
        }
    }
}

/// The canonical form covers the same offsets below `OFFSET_MAX` as the
/// list it is made from, and nothing at or above it.
pub proof fn lemma_canonical_covers(s: Seq<SpecType>, o: int)
    ensures
        covered_by(canonical(s), o) == (0 <= o < OFFSET_MAX && covered_by(s, o)),
{
    lemma_runs_cover(presence(s), 0, o);
}

/// Optimizing twice gives what optimizing once gives.
pub proof fn lemma_canonical_idempotent(s: Seq<SpecType>)
    ensures
        canonical(canonical(s)) == canonical(s),
{
    assert forall|o: int| 0 <= o < TABLE_LEN implies #[trigger] presence(canonical(s))[o]
        == presence(s)[o] by {
        lemma_canonical_covers(s, o);
    }
    assert(presence(canonical(s)) =~= presence(s));
}

/// An interval that a run of a table of length `n` can be: a line before
/// the last offset, or a non-empty range that ends at `n` at the latest.
pub open spec fn is_run_shape(x: SpecType, n: int) -> bool {
    match x {
        SpecType::Line(o) => o + 1 < n,
        SpecType::Range(l, r) => l < r <= n,
    }
}

pub proof fn lemma_runs_shape(t: Seq<bool>, i: int)
    requires
        0 <= i <= t.len() <= TABLE_LEN,
    ensures
        forall|j: int| 0 <= j < runs_from(t, i).len() ==> is_run_shape(#[trigger] runs_from(t, i)[j], t.len() as int),
    decreases t.len() - i,
{
    if i < t.len() {
        if !t[i] {
            lemma_runs_shape(t, i + 1);
            assert(runs_from(t, i) == runs_from(t, i + 1));
        } else {
            let e = run_end(t, i);
            lemma_run_end(t, i);
            lemma_runs_shape(t, e);
            let x = run_interval(i, e, t.len() as int);
            let r = runs_from(t, i);
            assert(r == seq![x] + runs_from(t, e));
            assert forall|j: int| 0 <= j < r.len() implies is_run_shape(#[trigger] r[j], t.len() as int) by {
                if j > 0 {
                    assert(r[j] == runs_from(t, e)[j - 1]);
                }
            }
        }
    }
}

/// The first offset that an interval covers, where it covers any.
pub open spec fn start_of(x: SpecType) -> int {
    match x {
        SpecType::Line(o) => o as int,
        SpecType::Range(l, _) => l as int,
    }
}

/// One past the last offset that an interval covers, where it covers any.
pub open spec fn end_of(x: SpecType) -> int {
    match x {
        SpecType::Line(o) => o + 1,
        SpecType::Range(_, r) => r as int,
    }
}

/// A range of one offset ends at `n`.
pub open spec fn unit_range_ends_at(x: SpecType, n: int) -> bool {
    match x {
        SpecType::Line(_) => true,
        SpecType::Range(l, r) => r - l == 1 ==> r == n,
    }
}

pub proof fn lemma_runs_ordered(t: Seq<bool>, i: int)
    requires
        0 <= i <= t.len() <= TABLE_LEN,
    ensures
        forall|j: int| 0 <= j < runs_from(t, i).len() ==> i <= start_of(#[trigger] runs_from(t, i)[j])
            < end_of(runs_from(t, i)[j]) <= t.len(),
        forall|j: int| 0 <= j < runs_from(t, i).len() ==> unit_range_ends_at(#[trigger] runs_from(t, i)[j], t.len() as int),
        forall|j: int| 0 <= j && j + 1 < runs_from(t, i).len() ==> end_of(#[trigger] runs_from(t, i)[j])
            < start_of(runs_from(t, i)[j + 1]),
    decreases t.len() - i,
{
    if i < t.len() {
        if !t[i] {
            lemma_runs_ordered(t, i + 1);
            assert(runs_from(t, i) == runs_from(t, i + 1));
        } else {
            let e = run_end(t, i);
            lemma_run_end(t, i);
            let rest = runs_from(t, e);
            if e < t.len() {
                lemma_runs_ordered(t, e + 1);
                assert(rest == runs_from(t, e + 1));
            } else {
                lemma_runs_ordered(t, e);
            }
            let x = run_interval(i, e, t.len() as int);
            let r = runs_from(t, i);
            assert(r == seq![x] + rest);
            assert forall|j: int| 0 <= j < r.len() implies i <= start_of(#[trigger] r[j]) < end_of(r[j])
                <= t.len() && unit_range_ends_at(r[j], t.len() as int) by {
                if j > 0 {
                    assert(r[j] == rest[j - 1]);
                }
            }
            assert forall|j: int| 0 <= j && j + 1 < r.len() implies end_of(#[trigger] r[j]) < start_of(
                r[j + 1],
            ) by {
                if j > 0 {
                    assert(r[j] == rest[j - 1]);
                    assert(r[j + 1] == rest[j]);
                } else {
                    assert(r[1] == rest[0]);
                }
            }
        }
    }
}

/// The canonical form is sorted by start, each of its intervals is
/// non-empty and lies below `OFFSET_MAX`, no two of them overlap or touch,
/// and a run of one offset is a `Range` only where it ends the table.
pub proof fn lemma_canonical_ordered(s: Seq<SpecType>)
    ensures
        forall|j: int| 0 <= j < canonical(s).len() ==> 0 <= start_of(#[trigger] canonical(s)[j])
            < end_of(canonical(s)[j]) <= OFFSET_MAX,
        forall|j: int| 0 <= j && j + 1 < canonical(s).len() ==> end_of(#[trigger] canonical(s)[j])
            < start_of(canonical(s)[j + 1]),
        forall|j: int| 0 <= j < canonical(s).len() ==> unit_range_ends_at(#[trigger] canonical(s)[j], OFFSET_MAX as int),
{
    lemma_runs_ordered(presence(s), 0);
}

} // verus!
