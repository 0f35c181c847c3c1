//! The mark specification of one file: every line, or a list of intervals.

use vstd::prelude::*;
use crate::canonical::{canonical, lemma_covered_concat, lemma_run_end_at, presence, runs_from, TABLE_LEN};

verus! {

/// The largest line offset, and the exclusive end that a range reaching the
/// end of the domain is given.
pub const OFFSET_MAX: u16 = 65535;

/// One interval of marked line offsets (zero-based).
#[derive(Clone, Copy, Debug, PartialEq, Eq, Structural)]
pub enum SpecType {
    /// A single offset.
    Line(u16),
    /// The half-open range `[l, r)`; empty when `r <= l`.
    Range(u16, u16),
}

impl SpecType {
    /// Whether this interval covers offset `o`.
    pub open spec fn covers(self, o: int) -> bool {
        match self {
            SpecType::Line(x) => o == x,
            SpecType::Range(l, r) => l <= o < r,
        }
    }

    pub fn covers_offset(&self, o: u16) -> (r: bool)
        ensures
            r == self.covers(o as int),
    {
        match *self {
            SpecType::Line(x) => x == o,
            SpecType::Range(l, r) => l <= o && o < r,
        }
    }
}

/// Whether some interval of `s` covers `o`.
pub open spec fn covered_by(s: Seq<SpecType>, o: int) -> bool {
    exists|j: int| 0 <= j < s.len() && (#[trigger] s[j]).covers(o)
}

/// What a `FileMarkSpec` stands for.
pub enum MarkModel {
    All,
    Partial(Seq<SpecType>),
}

impl MarkModel {
    /// Whether offset `o` is marked.
    pub open spec fn matches(self, o: int) -> bool {
        match self {
            MarkModel::All => true,
            MarkModel::Partial(s) => covered_by(s, o),
        }
    }
}

/// The marks of one file.
#[derive(Debug, PartialEq, Eq)]
pub enum FileMarkSpec {
    /// Every line is marked.
    All,
    /// The lines that some interval of the list covers; the list may be
    /// unsorted, overlapping and repetitive until it is optimized.
    Partial(Vec<SpecType>),
}

impl View for FileMarkSpec {
    type V = MarkModel;

    open spec fn view(&self) -> MarkModel {
        match self {
            FileMarkSpec::All => MarkModel::All,
            FileMarkSpec::Partial(v) => MarkModel::Partial(v@),
        }
    }
}

/// `s` with `Line(o)` appended: what `add` leaves.
pub open spec fn added(m: MarkModel, o: int) -> MarkModel {
    match m {
        MarkModel::All => MarkModel::All,
        MarkModel::Partial(s) => MarkModel::Partial(s.push(SpecType::Line(o as u16))),
    }
}

/// `i` is the first index of `s` whose interval covers `o`.
pub open spec fn is_first_cover(s: Seq<SpecType>, o: int, i: int) -> bool {
    &&& 0 <= i < s.len()
    &&& s[i].covers(o)
    &&& forall|j: int| 0 <= j < i ==> !(#[trigger] s[j]).covers(o)
}

/// The list after taking offset `o` out of its interval at index `i`, which
/// covers `o`: a line goes; a range of one offset becomes a line; a range
/// loses its first or last offset, or is split in two around `o`.
pub open spec fn cut_at(s: Seq<SpecType>, i: int, o: int) -> Seq<SpecType> {
    match s[i] {
        SpecType::Line(_) => s.remove(i),
        SpecType::Range(l, r) => if r - l == 1 {
            s.update(i, SpecType::Line(l))
        } else if o == l {
            s.update(i, SpecType::Range((l + 1) as u16, r))
        } else if o == r - 1 {
            s.update(i, SpecType::Range(l, (r - 1) as u16))
        } else {
            s.update(i, SpecType::Range(l, o as u16)).insert(i + 1, SpecType::Range((o + 1) as u16, r))
        },
    }
}

/// What `remove` leaves: every offset but `o` for `All`; otherwise only the
/// first interval that covers `o` is edited.
pub open spec fn removed(m: MarkModel, o: int) -> MarkModel {
    match m {
        MarkModel::All => MarkModel::Partial(
            seq![SpecType::Range(0, o as u16), SpecType::Range((o + 1) as u16, OFFSET_MAX)],
        ),
        MarkModel::Partial(s) => if exists|i: int| is_first_cover(s, o, i) {
            MarkModel::Partial(cut_at(s, choose|i: int| is_first_cover(s, o, i), o))
        } else {
            MarkModel::Partial(s)
        },
    }
}

/// No interval of `s` is the line `OFFSET_MAX`, which lies beyond the
/// presence table that optimizing builds.
pub open spec fn fits_table(s: Seq<SpecType>) -> bool {
    forall|j: int| 0 <= j < s.len() ==> #[trigger] s[j] != SpecType::Line(OFFSET_MAX)
}

/// What `optimize` leaves: the canonical form of a partial list.
pub open spec fn optimized(m: MarkModel) -> MarkModel {
    match m {
        MarkModel::All => MarkModel::All,
        MarkModel::Partial(s) => MarkModel::Partial(canonical(s)),
    }
}

/// Only one index can be the first to cover an offset.
pub proof fn lemma_first_cover_unique(s: Seq<SpecType>, o: int, i: int, k: int)
    requires
        is_first_cover(s, o, i),
        is_first_cover(s, o, k),
    ensures
        i == k,
{
    if i < k {
        assert(s[i].covers(o));
    } else if k < i {
        assert(s[k].covers(o));
    }
}

impl FileMarkSpec {
    /// Whether line offset `line_offset` is marked.
    pub fn match_line_offset(&self, line_offset: u16) -> (r: bool)
        ensures
            r == self@.matches(line_offset as int),
    {
        match self {
            FileMarkSpec::All => true,
            FileMarkSpec::Partial(specs) => {
                let mut i: usize = 0;
                while i < specs.len()
                    invariant
                        self@ == MarkModel::Partial(specs@),
                        0 <= i <= specs@.len(),
                        forall|j: int| 0 <= j < i ==> !(#[trigger] specs@[j]).covers(line_offset as int),
                    decreases specs@.len() - i,
                {
                    if specs[i].covers_offset(line_offset) {
                        assert(specs@[i as int].covers(line_offset as int));
                        return true;
                    }
                    i = i + 1;
                }
                false
            },
        }
    }

    /// Marks `line_offset`: appends `Line(line_offset)` to a partial list,
    /// with no merging; nothing changes for `All`.
    pub fn add(&mut self, line_offset: u16)
        ensures
            final(self)@ == added(old(self)@, line_offset as int),
    {
        match self {
            FileMarkSpec::All => {},
            FileMarkSpec::Partial(specs) => {
                specs.push(SpecType::Line(line_offset));
            },
        }
    }

    /// Unmarks `line_offset`. `All` becomes the two ranges around it; in a
    /// partial list only the first interval that covers it is edited.
    pub fn remove(&mut self, line_offset: u16)
        requires
            old(self)@ is All ==> line_offset < OFFSET_MAX,
        ensures
            final(self)@ == removed(old(self)@, line_offset as int),
    {
        match self {
            FileMarkSpec::All => {
                let before = SpecType::Range(0, line_offset);
                let after = SpecType::Range(line_offset + 1, OFFSET_MAX);
                *self = FileMarkSpec::Partial(vec![before, after]);
                assert(self@ == removed(old(self)@, line_offset as int)) by {
                    assert(self->Partial_0@ =~= seq![before, after]);
                }
            },
            FileMarkSpec::Partial(specs) => {
                let ghost s = specs@;
                let mut idx: usize = 0;
                while idx < specs.len() && !specs[idx].covers_offset(line_offset)
                    invariant
                        specs@ == s,
                        0 <= idx <= s.len(),
                        forall|j: int| 0 <= j < idx ==> !(#[trigger] s[j]).covers(line_offset as int),
                    decreases s.len() - idx,
                {
                    idx = idx + 1;
                }
                if idx == specs.len() {
                    assert(!exists|i: int| is_first_cover(s, line_offset as int, i));
                    return;
                }
                proof {
                    assert(is_first_cover(s, line_offset as int, idx as int));
                    let c = choose|i: int| is_first_cover(s, line_offset as int, i);
                    lemma_first_cover_unique(s, line_offset as int, idx as int, c);
                }
                match specs[idx] {
                    SpecType::Line(_) => {
                        specs.remove(idx);
                    },
                    SpecType::Range(l, r) => {
                        if r - l == 1 {
                            specs.set(idx, SpecType::Line(l));
                        } else if l == line_offset {
                            specs.set(idx, SpecType::Range(l + 1, r));
                        } else if r == line_offset + 1 {
                            specs.set(idx, SpecType::Range(l, r - 1));
                        } else {
                            specs.set(idx, SpecType::Range(l, line_offset));
                            specs.insert(idx + 1, SpecType::Range(line_offset + 1, r));
                        }
                    },
                }
            },
        }
    }

    /// Rewrites a partial list in canonical form; `All` stays as it is.
    pub fn optimize(&mut self)
        requires
            old(self)@ is Partial ==> fits_table(old(self)@->Partial_0),
        ensures
            final(self)@ == optimized(old(self)@),
    {
        match self {
            FileMarkSpec::All => {},
            FileMarkSpec::Partial(specs) => {
                let tmp = Self::rebuild_partial_specs(specs);
                *specs = tmp;
            },
        }
    }

    /// The canonical form of `specs`: mark every covered offset in a presence
    /// table, then read off its maximal runs from left to right.
    pub fn rebuild_partial_specs(specs: &Vec<SpecType>) -> (r: Vec<SpecType>)
        requires
            fits_table(specs@),
        ensures
            r@ == canonical(specs@),
    {
        let ghost s = specs@;
        let mut table: Vec<bool> = vec![false; TABLE_LEN];
        let mut k: usize = 0;
        while k < specs.len()
            invariant
                specs@ == s,
                fits_table(s),
                0 <= k <= s.len(),
                table@.len() == TABLE_LEN,
                forall|i: int| 0 <= i < TABLE_LEN ==> #[trigger] table@[i] == covered_by(s.take(k as int), i),
            decreases s.len() - k,
        {
            let ghost before = table@;
            match specs[k] {
                SpecType::Line(x) => {
                    assert(s[k as int] != SpecType::Line(OFFSET_MAX));
                    table.set(x as usize, true);
                    assert(forall|i: int| 0 <= i < TABLE_LEN ==> #[trigger] table@[i] == (before[i] || s[k as int].covers(i)));
                },
                SpecType::Range(l, r) => {
                    let mut o: u16 = l;
                    while o < r
                        invariant
                            specs@ == s,
                            fits_table(s),
                            0 <= k < s.len(),
                            s[k as int] == SpecType::Range(l, r),
                            before.len() == TABLE_LEN,
                            forall|i: int| 0 <= i < TABLE_LEN ==> #[trigger] before[i] == covered_by(s.take(k as int), i),
                            l <= o,
                            l < r ==> o <= r,
                            r <= l ==> o == l,
                            table@.len() == TABLE_LEN,
                            forall|i: int| 0 <= i < TABLE_LEN ==> #[trigger] table@[i] == (before[i] || (l <= i < o)),
                        decreases r - o,
                    {
                        table.set(o as usize, true);
                        o = o + 1;
                    }
                    assert(forall|i: int| 0 <= i < TABLE_LEN ==> #[trigger] table@[i] == (before[i] || s[k as int].covers(i)));
                },
            }
            proof {
                let x = s[k as int];
                assert(s.take(k + 1) =~= s.take(k as int) + seq![x]);
                assert forall|i: int| 0 <= i < TABLE_LEN implies #[trigger] table@[i] == covered_by(s.take(k + 1), i) by {
                    lemma_covered_concat(s.take(k as int), seq![x], i);
                    if covered_by(seq![x], i) {
                        let j = choose|j: int| 0 <= j < 1 && (#[trigger] seq![x][j]).covers(i);
                        assert(j == 0);
                    }
                    if x.covers(i) {
                        assert(seq![x][0].covers(i));
                    }
                }
            }
            k = k + 1;
        }
        proof {
            assert(s.take(s.len() as int) =~= s);
            assert(table@ =~= presence(s));
        }
        let ghost t = table@;
        let mut result: Vec<SpecType> = Vec::new();
        let mut i: usize = 0;
        while i < TABLE_LEN
            invariant
                t == table@,
                t.len() == TABLE_LEN,
                0 <= i <= TABLE_LEN,
                result@ + runs_from(t, i as int) == runs_from(t, 0),
            decreases TABLE_LEN - i,
        {
            if !table[i] {
                i = i + 1;
            } else {
                let mut j: usize = i + 1;
                while j < TABLE_LEN && table[j]
                    invariant
                        t == table@,
                        t.len() == TABLE_LEN,
                        i < j <= TABLE_LEN,
                        forall|m: int| i <= m < j ==> t[m],
                    decreases TABLE_LEN - j,
                {
                    j = j + 1;
                }
                proof {
                    lemma_run_end_at(t, i as int, j as int);
                }
                let x = if j - i == 1 && j < TABLE_LEN {
                    SpecType::Line(i as u16)
                } else {
                    SpecType::Range(i as u16, j as u16)
                };
                let ghost prev = result@;
                result.push(x);
                proof {
                    assert(runs_from(t, i as int) == seq![x] + runs_from(t, j as int));
                    assert(result@ + runs_from(t, j as int) =~= prev + runs_from(t, i as int));
                }
                i = j;
            }
        }
        proof {
            assert(result@ + runs_from(t, TABLE_LEN as int) =~= result@);
        }
        result
    }
}

} // verus!
