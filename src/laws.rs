//! Laws that relate the operations of a mark specification.

use vstd::prelude::*;
use crate::canonical::{canonical, is_canonical, lemma_canonical_idempotent, lemma_runs_shape, presence, is_run_shape};
use crate::codec::{fits_codec, lemma_parse_written, parsed, written, ParseError};
use crate::interval::{
    added, covered_by, cut_at, is_first_cover, lemma_first_cover_unique, optimized, removed,
    MarkModel, SpecType,
};

verus! {

/// `All` marks every offset.
pub proof fn lemma_all_matches(o: u16)
    ensures
        MarkModel::All.matches(o as int),
{
}

/// Whether a partial list marks an offset depends only on which intervals it
/// holds, not on their order or repetition.
pub proof fn lemma_matches_any_order(s1: Seq<SpecType>, s2: Seq<SpecType>, o: u16)
    requires
        forall|iv: SpecType| s1.contains(iv) <==> s2.contains(iv),
    ensures
        MarkModel::Partial(s1).matches(o as int) == MarkModel::Partial(s2).matches(o as int),
{
    if covered_by(s1, o as int) {
        let j = choose|j: int| 0 <= j < s1.len() && (#[trigger] s1[j]).covers(o as int);
        assert(s1.contains(s1[j]));
        let k = choose|k: int| 0 <= k < s2.len() && s2[k] == s1[j];
        assert(s2[k].covers(o as int));
    }
    if covered_by(s2, o as int) {
        let j = choose|j: int| 0 <= j < s2.len() && (#[trigger] s2[j]).covers(o as int);
        assert(s2.contains(s2[j]));
        let k = choose|k: int| 0 <= k < s1.len() && s1[k] == s2[j];
        assert(s1[k].covers(o as int));
    }
}

/// Optimizing an optimized specification changes nothing.
pub proof fn lemma_optimize_idempotent(m: MarkModel)
    ensures
        optimized(optimized(m)) == optimized(m),
{
    if let MarkModel::Partial(s) = m {
        lemma_canonical_idempotent(s);
    }
}

/// After adding an offset, it is marked.
pub proof fn lemma_add_marks(m: MarkModel, o: u16)
    ensures
        added(m, o as int).matches(o as int),
{
    if let MarkModel::Partial(s) = m {
        let t = s.push(SpecType::Line(o));
        assert(t[s.len() as int].covers(o as int));
    }
}

/// A range of exactly one offset: removing that offset turns it into a
/// line of the same offset, which still covers it.
pub open spec fn is_unit_range(iv: SpecType) -> bool {
    iv matches SpecType::Range(l, r) && r - l == 1
}

/// When exactly one interval of a partial list covers an offset, and it is
/// not a range of that one offset alone, removing the offset unmarks it.
pub proof fn lemma_remove_unmarks(s: Seq<SpecType>, o: u16)
    requires
        exists|j: int| 0 <= j < s.len() && (#[trigger] s[j]).covers(o as int),
        forall|j: int, k: int|
            0 <= j < s.len() && 0 <= k < s.len() && (#[trigger] s[j]).covers(o as int)
                && (#[trigger] s[k]).covers(o as int) ==> j == k,
        forall|j: int| 0 <= j < s.len() && (#[trigger] s[j]).covers(o as int) ==> !is_unit_range(s[j]),
    ensures
        !removed(MarkModel::Partial(s), o as int).matches(o as int),
{
    let i = choose|j: int| 0 <= j < s.len() && (#[trigger] s[j]).covers(o as int);
    assert(is_first_cover(s, o as int, i));
    let c = choose|j: int| is_first_cover(s, o as int, j);
    lemma_first_cover_unique(s, o as int, i, c);
    let t = cut_at(s, i, o as int);
    assert forall|j: int| 0 <= j < t.len() implies !(#[trigger] t[j]).covers(o as int) by {
        match s[i] {
            SpecType::Line(_) => {
                if j < i {
                    assert(t[j] == s[j]);
                } else {
                    assert(t[j] == s[j + 1]);
                }
            },
            SpecType::Range(l, r) => {
                if j < i {
                    assert(t[j] == s[j]);
                } else if j > i + 1 || (j == i + 1 && t.len() == s.len()) {
                    if t.len() == s.len() {
                        assert(t[j] == s[j]);
                    } else {
                        assert(t[j] == s[j - 1]);
                    }
                }
            },
        }
    }
}

/// Writing a specification and reading it back gives it again: `All`, and
/// every canonical list that leaves offset `65534` unmarked. (A canonical
/// run through `65534` ends at `65535`, which is written as the line number
/// `65535` and read back as `65534`, one short.)
pub proof fn lemma_round_trip(m: MarkModel)
    requires
        m matches MarkModel::Partial(s) ==> is_canonical(s) && !covered_by(s, 65534),
    ensures
        parsed(written(m)) == Ok::<MarkModel, ParseError>(m),
        forall|o: int| 0 <= o <= 65535 ==> (#[trigger] parsed(written(m))->Ok_0.matches(o)) == m.matches(o),
{
    if let MarkModel::Partial(s) = m {
        lemma_runs_shape(presence(s), 0);
        assert(fits_codec(s)) by {
            assert forall|j: int| 0 <= j < s.len() implies match #[trigger] s[j] {
                SpecType::Line(o) => o < 65535,
                SpecType::Range(l, r) => l < 65535 && r < 65535,
            } by {
                assert(canonical(s)[j] == s[j]);
                assert(is_run_shape(s[j], 65535));
                if let SpecType::Range(l, r) = s[j] {
                    if r == 65535 {
                        assert(s[j].covers(65534));
                    }
                }
            }
        }
    }
    lemma_parse_written(m);
}

} // verus!
