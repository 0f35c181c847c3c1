//! The marks list: one marking per line, `path`, `path:N`, `path:N-M` or
//! `path:/pattern/`, optionally followed by `'ignore`, with `#` comments.
//!
//! Reading a line needs no file system, except for a bare path, which is a
//! directory or a file; the caller answers that question for each line.

use vstd::prelude::*;
use vstd::string::StrSliceExecFns;
use crate::marking::{Marking, Spec, Target, Type};
use crate::unicode::{decimal_digit, is_decimal_digit, is_white_space, white_space};

verus! {

/// Unicode white space.
pub open spec fn is_space(c: char) -> bool {
    is_white_space(c as u32)
}

/// A Unicode decimal digit.
pub open spec fn is_decimal(c: char) -> bool {
    is_decimal_digit(c as u32)
}

/// An ASCII decimal digit.
pub open spec fn is_ascii_decimal(c: char) -> bool {
    '0' <= c <= '9'
}

/// A character that a path may hold: ASCII letters and digits, `_`, `-`,
/// `/` and `.`.
pub open spec fn is_path_char(c: char) -> bool {
    ('a' <= c <= 'z') || ('A' <= c <= 'Z') || ('0' <= c <= '9') || c == '_' || c == '-'
        || c == '/' || c == '.'
}

/// The characters of `'ignore`.
pub open spec fn ignore_suffix() -> Seq<char> {
    seq!['\'', 'i', 'g', 'n', 'o', 'r', 'e']
}

/// Where `s[..end]` ends once the white space at its end is dropped.
pub open spec fn space_trimmed(s: Seq<char>, end: int) -> int
    decreases end,
{
    if 0 < end <= s.len() && is_space(s[end - 1]) {
        space_trimmed(s, end - 1)
    } else {
        end
    }
}

/// Where the run of decimal digits that ends at `end` starts.
pub open spec fn decimal_start(s: Seq<char>, end: int) -> int
    decreases end,
{
    if 0 < end <= s.len() && is_decimal(s[end - 1]) {
        decimal_start(s, end - 1)
    } else {
        end
    }
}

/// The first index at or after `i` that is not white space.
pub open spec fn space_skipped(s: Seq<char>, i: int) -> int
    decreases s.len() - i,
{
    if 0 <= i < s.len() && is_space(s[i]) {
        space_skipped(s, i + 1)
    } else {
        i
    }
}

/// The value of a string of decimal digits.
pub open spec fn digits_value(d: Seq<char>) -> nat
    decreases d.len(),
{
    if d.len() == 0 {
        0
    } else {
        digits_value(d.drop_last()) * 10 + (d.last() as int - '0' as int) as nat
    }
}

/// The line ends with `'ignore`.
pub open spec fn ends_with_ignore(s: Seq<char>) -> bool {
    s.len() >= 7 && s.subrange(s.len() - 7, s.len() as int) == ignore_suffix()
}

/// The line without a final `'ignore` and the white space before it.
pub open spec fn without_ignore(s: Seq<char>) -> Seq<char> {
    if ends_with_ignore(s) {
        s.take(space_trimmed(s, s.len() - 7))
    } else {
        s
    }
}

/// `#` at `q` starts a comment: no newline follows it.
pub open spec fn starts_comment(s: Seq<char>, q: int) -> bool {
    &&& 0 <= q < s.len()
    &&& s[q] == '#'
    &&& forall|k: int| q < k < s.len() ==> #[trigger] s[k] != '\n'
}

/// The line without its comment and the white space before it.
pub open spec fn without_comment(s: Seq<char>) -> Seq<char> {
    if exists|q: int| starts_comment(s, q) {
        let q = choose|q: int| starts_comment(s, q) && forall|k: int| 0 <= k < q ==> !starts_comment(s, k);
        s.take(space_trimmed(s, q))
    } else {
        s
    }
}

/// A pattern opens at the `:` at index `c`: white space, then `/`, and the
/// final `/` (before white space only) comes later, with no newline between.
pub open spec fn opens_pattern(s: Seq<char>, c: int) -> bool {
    let b = space_trimmed(s, s.len() as int);
    let o = space_skipped(s, c + 1);
    &&& 0 <= c < s.len()
    &&& s[c] == ':'
    &&& o < b - 1
    &&& s[o] == '/'
    &&& s[b - 1] == '/'
    &&& forall|k: int| o < k < b - 1 ==> #[trigger] s[k] != '\n'
}

/// What a marking names within a file.
pub enum SpecModel {
    Line(nat),
    Range(nat, nat),
    Regex(Seq<char>),
}

/// What the text after the path says: nothing, a number that is no
/// `usize`, or a part of the file.
pub enum Found {
    Nothing,
    NoNumber,
    Part(SpecModel),
}

/// The digits `d` spell a `usize`: they are all ASCII digits and their
/// value fits.
pub open spec fn fits_usize(d: Seq<char>) -> bool {
    &&& forall|i: int| 0 <= i < d.len() ==> is_ascii_decimal(#[trigger] d[i])
    &&& digits_value(d) <= usize::MAX
}

/// The part of the file that the stripped line `s` names: `:N` at its end,
/// else `:N-M`, else `:/pattern/`.
pub open spec fn found_of(s: Seq<char>) -> Found {
    let b = space_trimmed(s, s.len() as int);
    let d2 = decimal_start(s, b);
    let m = space_trimmed(s, d2);
    let h = space_trimmed(s, m - 1);
    let d1 = decimal_start(s, h);
    let c = space_trimmed(s, d1);
    if d2 < b && m > 0 && s[m - 1] == ':' {
        if fits_usize(s.subrange(d2, b)) {
            Found::Part(SpecModel::Line(digits_value(s.subrange(d2, b))))
        } else {
            Found::NoNumber
        }
    } else if d2 < b && m > 0 && s[m - 1] == '-' && d1 < h && c > 0 && s[c - 1] == ':' {
        if fits_usize(s.subrange(d1, h)) && fits_usize(s.subrange(d2, b)) {
            Found::Part(SpecModel::Range(digits_value(s.subrange(d1, h)), digits_value(s.subrange(d2, b))))
        } else {
            Found::NoNumber
        }
    } else if exists|c: int| opens_pattern(s, c) {
        let c = choose|c: int| opens_pattern(s, c) && forall|k: int| 0 <= k < c ==> !opens_pattern(s, k);
        Found::Part(SpecModel::Regex(s.subrange(space_skipped(s, c + 1) + 1, space_trimmed(s, s.len() as int) - 1)))
    } else {
        Found::Nothing
    }
}

/// The first path in `s`: the first maximal run of path characters.
pub open spec fn path_start(s: Seq<char>, i: int) -> bool {
    0 <= i < s.len() && is_path_char(s[i]) && forall|k: int| 0 <= k < i ==> !is_path_char(#[trigger] s[k])
}

pub open spec fn path_end(s: Seq<char>, i: int) -> int
    decreases s.len() - i,
{
    if 0 <= i < s.len() && is_path_char(s[i]) {
        path_end(s, i + 1)
    } else {
        i
    }
}

/// What one line of the marks list says.
pub enum EntryModel {
    /// The line names a part of a file.
    Part(Seq<char>, SpecModel, Type),
    /// The line names a path alone, a directory or a file.
    Path(Seq<char>, Type),
}

/// What line `line` says, or `None` where it is dropped: it holds no path,
/// or a number too large.
pub open spec fn entry_of(line: Seq<char>) -> Option<EntryModel> {
    let mark_type = if ends_with_ignore(line) { Type::Ignore } else { Type::Mark };
    let s = without_comment(without_ignore(line));
    if !(exists|i: int| path_start(s, i)) {
        None
    } else {
        let i = choose|i: int| path_start(s, i);
        let path = s.subrange(i, path_end(s, i));
        match found_of(s) {
            Found::NoNumber => None,
            Found::Part(p) => Some(EntryModel::Part(path, p, mark_type)),
            Found::Nothing => Some(EntryModel::Path(path, mark_type)),
        }
    }
}

fn chars_of(s: &str) -> (r: Vec<char>)
    ensures
        r@ == s@,
{
    let n = s.unicode_len();
    let mut v: Vec<char> = Vec::new();
    let mut i: usize = 0;
    while i < n
        invariant
            n == s@.len(),
            i <= n,
            v@ == s@.take(i as int),
        decreases n - i,
    {
        v.push(s.get_char(i));
        i = i + 1;
        assert(v@ =~= s@.take(i as int));
    }
    assert(s@.take(n as int) =~= s@);
    v
}

fn is_space_char(c: char) -> (r: bool)
    ensures
        r == is_space(c),
{
    white_space(c as u32)
}

fn is_decimal_char(c: char) -> (r: bool)
    ensures
        r == is_decimal(c),
{
    decimal_digit(c as u32)
}

fn is_path_char_exec(c: char) -> (r: bool)
    ensures
        r == is_path_char(c),
{
    ('a' <= c && c <= 'z') || ('A' <= c && c <= 'Z') || ('0' <= c && c <= '9') || c == '_' || c
        == '-' || c == '/' || c == '.'
}

fn space_trimmed_at(s: &Vec<char>, end: usize) -> (r: usize)
    requires
        end <= s@.len(),
    ensures
        r == space_trimmed(s@, end as int),
        r <= end,
{
    let mut r = end;
    while r > 0 && is_space_char(s[r - 1])
        invariant
            r <= end <= s@.len(),
            space_trimmed(s@, r as int) == space_trimmed(s@, end as int),
        decreases r,
    {
        r = r - 1;
    }
    r
}

fn decimal_start_at(s: &Vec<char>, end: usize) -> (r: usize)
    requires
        end <= s@.len(),
    ensures
        r == decimal_start(s@, end as int),
        r <= end,
        forall|i: int| r <= i < end ==> is_decimal(#[trigger] s@[i]),
{
    let mut r = end;
    while r > 0 && is_decimal_char(s[r - 1])
        invariant
            r <= end <= s@.len(),
            decimal_start(s@, r as int) == decimal_start(s@, end as int),
            forall|i: int| r <= i < end ==> is_decimal(#[trigger] s@[i]),
        decreases r,
    {
        r = r - 1;
    }
    r
}

fn space_skipped_at(s: &Vec<char>, i: usize) -> (r: usize)
    requires
        i <= s@.len(),
    ensures
        r == space_skipped(s@, i as int),
        i <= r <= s@.len(),
{
    let mut r = i;
    while r < s.len() && is_space_char(s[r])
        invariant
            i <= r <= s@.len(),
            space_skipped(s@, r as int) == space_skipped(s@, i as int),
        decreases s@.len() - r,
    {
        r = r + 1;
    }
    r
}

/// A longer string of digits never has a smaller value than its prefix.
pub proof fn lemma_digits_value_prefix(d: Seq<char>, k: int)
    requires
        0 <= k <= d.len(),
        forall|i: int| 0 <= i < d.len() ==> is_ascii_decimal(#[trigger] d[i]),
    ensures
        digits_value(d.take(k)) <= digits_value(d),
    decreases d.len(),
{
    if k < d.len() {
        assert(d.drop_last().take(k) =~= d.take(k));
        lemma_digits_value_prefix(d.drop_last(), k);
    } else {
        assert(d.take(k) =~= d);
    }
}

/// The number that the digits `s[from..to]` spell, if it is a `usize`.
fn read_usize(s: &Vec<char>, from: usize, to: usize) -> (r: Option<usize>)
    requires
        from <= to <= s@.len(),
    ensures
        r is Some <==> fits_usize(s@.subrange(from as int, to as int)),
        r matches Some(v) ==> v == digits_value(s@.subrange(from as int, to as int)),
{
    let ghost d = s@.subrange(from as int, to as int);
    let mut i = from;
    while i < to
        invariant
            from <= i <= to <= s@.len(),
            d == s@.subrange(from as int, to as int),
            forall|j: int| from <= j < i ==> is_ascii_decimal(#[trigger] s@[j]),
        decreases to - i,
    {
        if !('0' <= s[i] && s[i] <= '9') {
            assert(d[i - from] == s@[i as int]);
            return None;
        }
        i = i + 1;
    }
    assert(forall|j: int| 0 <= j < d.len() ==> d[j] == s@[from + j]);
    let mut acc: u128 = 0;
    let mut i = from;
    while i < to
        invariant
            from <= i <= to <= s@.len(),
            d == s@.subrange(from as int, to as int),
            forall|j: int| from <= j < to ==> is_ascii_decimal(#[trigger] s@[j]),
            acc == digits_value(d.take(i - from)),
            acc <= usize::MAX,
        decreases to - i,
    {
        assert(d.take(i - from + 1).drop_last() =~= d.take(i - from));
        assert(is_ascii_decimal(s@[i as int]));
        let digit = (s[i] as u32 - '0' as u32) as u128;
        acc = acc * 10 + digit;
        if acc > usize::MAX as u128 {
            proof {
                lemma_digits_value_prefix(d, i - from + 1);
            }
            return None;
        }
        i = i + 1;
    }
    assert(d.take(to - from) =~= d);
    Some(acc as usize)
}

fn pattern_at(s: &Vec<char>, c: usize, b: usize) -> (r: Option<usize>)
    requires
        c < s.len(),
        b == space_trimmed(s@, s@.len() as int),
        b <= s@.len(),
    ensures
        r is Some <==> opens_pattern(s@, c as int),
        r matches Some(o) ==> o == space_skipped(s@, c + 1) && o + 1 < b,
{
    if s[c] != ':' {
        return None;
    }
    let o = space_skipped_at(s, c + 1);
    if !(b >= 1 && o < b - 1 && s[o] == '/' && s[b - 1] == '/') {
        return None;
    }
    let mut k = o + 1;
    while k < b - 1
        invariant
            o + 1 <= k <= b - 1,
            b <= s@.len(),
            o == space_skipped(s@, c + 1),
            b == space_trimmed(s@, s@.len() as int),
            forall|j: int| o < j < k ==> #[trigger] s@[j] != '\n',
        decreases b - 1 - k,
    {
        if s[k] == '\n' {
            assert(s@[k as int] == '\n');
            return None;
        }
        k = k + 1;
    }
    Some(o)
}

/// The part of the file that the stripped line `s` names; `None` when a
/// number is too large. `s` is a prefix of `line`.
fn find_part(s: &Vec<char>, line: &str) -> (r: Option<Option<Spec>>)
    requires
        s@.len() <= line@.len(),
        s@ == line@.take(s@.len() as int),
    ensures
        match r {
            None => found_of(s@) is NoNumber,
            Some(None) => found_of(s@) is Nothing,
            Some(Some(p)) => found_of(s@) == Found::Part(p.model()),
        },
{
    let n = s.len();
    let b = space_trimmed_at(s, n);
    let d2 = decimal_start_at(s, b);
    let m = space_trimmed_at(s, d2);
    if d2 < b && m > 0 && s[m - 1] == ':' {
        return match read_usize(s, d2, b) {
            Some(v) => Some(Some(Spec::Line(v))),
            None => None,
        };
    }
    if d2 < b && m > 0 && s[m - 1] == '-' {
        let h = space_trimmed_at(s, m - 1);
        let d1 = decimal_start_at(s, h);
        let c = space_trimmed_at(s, d1);
        if d1 < h && c > 0 && s[c - 1] == ':' {
            return match (read_usize(s, d1, h), read_usize(s, d2, b)) {
                (Some(x), Some(y)) => Some(Some(Spec::Range(x, y))),
                _ => None,
            };
        }
    }
    let mut c: usize = 0;
    while c < n
        invariant
            n == s@.len(),
            b == space_trimmed(s@, s@.len() as int),
            b <= n,
            s@.len() <= line@.len(),
            s@ == line@.take(s@.len() as int),
            c <= n,
            forall|k: int| 0 <= k < c ==> !opens_pattern(s@, k),
        decreases n - c,
    {
        if let Some(o) = pattern_at(s, c, b) {
            proof {
                let c0 = choose|c0: int| opens_pattern(s@, c0) && forall|k: int| 0 <= k < c0 ==> !opens_pattern(s@, k);
                assert(opens_pattern(s@, c0));
                if c0 < c {
                    assert(!opens_pattern(s@, c0));
                } else if c0 > c {
                    assert(!opens_pattern(s@, c as int));
                }
            }
            let text = line.substring_char(o + 1, b - 1).to_owned();
            assert(text@ =~= s@.subrange(o + 1, b - 1));
            return Some(Some(Spec::Regex(text)));
        }
        c = c + 1;
    }
    Some(None)
}

fn comment_start(s: &Vec<char>) -> (r: Option<usize>)
    ensures
        match r {
            Some(q) => starts_comment(s@, q as int) && forall|k: int| 0 <= k < q ==> !starts_comment(s@, k),
            None => !exists|q: int| starts_comment(s@, q),
        },
{
    let n = s.len();
    let mut k = n;
    let mut q: Option<usize> = None;
    while k > 0 && s[k - 1] != '\n'
        invariant
            n == s@.len(),
            k <= n,
            forall|j: int| k <= j < n ==> #[trigger] s@[j] != '\n',
            match q {
                Some(x) => k <= x < n && s@[x as int] == '#' && forall|j: int| k <= j < x ==> #[trigger] s@[j] != '#',
                None => forall|j: int| k <= j < n ==> #[trigger] s@[j] != '#',
            },
        decreases k,
    {
        k = k - 1;
        if s[k] == '#' {
            q = Some(k);
        }
    }
    proof {
        assert forall|j: int| 0 <= j < k implies !starts_comment(s@, j) by {
            assert(s@[k - 1] == '\n');
            if j < k - 1 {
                assert(s@[k - 1] == '\n');
            }
        }
    }
    q
}

fn path_end_at(s: &Vec<char>, i: usize) -> (r: usize)
    requires
        i <= s@.len(),
    ensures
        r == path_end(s@, i as int),
        i <= r <= s@.len(),
{
    let mut r = i;
    while r < s.len() && is_path_char_exec(s[r])
        invariant
            i <= r <= s@.len(),
            path_end(s@, r as int) == path_end(s@, i as int),
        decreases s@.len() - r,
    {
        r = r + 1;
    }
    r
}

fn ends_with_ignore_exec(s: &Vec<char>) -> (r: bool)
    ensures
        r == ends_with_ignore(s@),
{
    let n = s.len();
    if n < 7 {
        return false;
    }
    let r = s[n - 7] == '\'' && s[n - 6] == 'i' && s[n - 5] == 'g' && s[n - 4] == 'n' && s[n - 3]
        == 'o' && s[n - 2] == 'r' && s[n - 1] == 'e';
    proof {
        if r {
            assert(s@.subrange(n - 7, n as int) =~= ignore_suffix());
        } else if s@.subrange(n - 7, n as int) == ignore_suffix() {
            assert(s@.subrange(n - 7, n as int)[0] == ignore_suffix()[0]);
            assert(s@.subrange(n - 7, n as int)[1] == ignore_suffix()[1]);
            assert(s@.subrange(n - 7, n as int)[2] == ignore_suffix()[2]);
            assert(s@.subrange(n - 7, n as int)[3] == ignore_suffix()[3]);
            assert(s@.subrange(n - 7, n as int)[4] == ignore_suffix()[4]);
            assert(s@.subrange(n - 7, n as int)[5] == ignore_suffix()[5]);
            assert(s@.subrange(n - 7, n as int)[6] == ignore_suffix()[6]);
        }
    }
    r
}

/// What one line of the marks list says.
#[derive(Debug, PartialEq, Eq)]
pub enum Entry {
    /// A part of a file: the path, the part, and the type.
    Part(String, Spec, Type),
    /// A path alone, to be told apart as a directory or a file.
    Path(String, Type),
}

impl Entry {
    pub open spec fn model(&self) -> EntryModel {
        match self {
            Entry::Part(p, s, t) => EntryModel::Part(p@, s.model(), *t),
            Entry::Path(p, t) => EntryModel::Path(p@, *t),
        }
    }
}

/// What a marking names.
pub enum TargetModel {
    Dir(Seq<char>),
    File(Seq<char>),
    FileSpec(Seq<char>, SpecModel),
}

impl Target {
    pub open spec fn model(&self) -> TargetModel {
        match self {
            Target::Dir(p) => TargetModel::Dir(p@),
            Target::File(p) => TargetModel::File(p@),
            Target::FileSpec(p, s) => TargetModel::FileSpec(p@, s.model()),
        }
    }
}

/// The marking of a line that says `e`, where `is_dir` tells whether its
/// path is a directory, if that could be found out.
pub open spec fn marking_of(e: EntryModel, is_dir: Option<bool>) -> Option<(TargetModel, Type)> {
    match e {
        EntryModel::Part(p, s, t) => Some((TargetModel::FileSpec(p, s), t)),
        EntryModel::Path(p, t) => match is_dir {
            Some(true) => Some((TargetModel::Dir(p), t)),
            Some(false) => Some((TargetModel::File(p), t)),
            None => None,
        },
    }
}

/// The markings of the lines `lines`, in order, each line with the answer
/// `kinds` gives for it; lines that say nothing usable are left out.
pub open spec fn markings_of(lines: Seq<Seq<char>>, kinds: Seq<Option<bool>>) -> Seq<(TargetModel, Type)>
    decreases lines.len(),
{
    if lines.len() == 0 {
        Seq::empty()
    } else {
        let rest = markings_of(lines.drop_last(), kinds.take(lines.len() - 1));
        match entry_of(lines.last()) {
            Some(e) => match marking_of(e, kinds[lines.len() - 1]) {
                Some(m) => rest.push(m),
                None => rest,
            },
            None => rest,
        }
    }
}

/// A marks list, held as its lines.
#[derive(Debug)]
pub struct Parser {
    pub spec_file: String,
    pub lines: Vec<String>,
}

impl Parser {
    /// A parser of the marks list in `spec_file`, with no lines read yet.
    pub fn new(spec_file: String) -> (r: Parser)
        ensures
            r.spec_file == spec_file,
            r.lines@.len() == 0,
    {
        Parser { spec_file, lines: Vec::new() }
    }

    /// What one line says, or `None` where it holds no path or a number too
    /// large for a `usize`.
    pub fn parse_line(line: &str) -> (r: Option<Entry>)
        ensures
            match r {
                Some(e) => entry_of(line@) == Some(e.model()),
                None => entry_of(line@) is None,
            },
    {
        let mut s = chars_of(line);
        let ghost full = s@;
        let ignore = ends_with_ignore_exec(&s);
        let mark_type = if ignore { Type::Ignore } else { Type::Mark };
        if ignore {
            let e = space_trimmed_at(&s, s.len() - 7);
            s.truncate(e);
        }
        assert(s@ == without_ignore(full));
        let ghost s1 = s@;
        match comment_start(&s) {
            Some(q) => {
                proof {
                    let q0 = choose|q0: int| starts_comment(s1, q0) && forall|k: int| 0 <= k < q0 ==> !starts_comment(s1, k);
                    assert(starts_comment(s1, q0));
                    if q0 < q {
                        assert(!starts_comment(s1, q0));
                    } else if q0 > q {
                        assert(!starts_comment(s1, q as int));
                    }
                }
                let e = space_trimmed_at(&s, q);
                s.truncate(e);
            },
            None => {},
        }
        assert(s@ == without_comment(s1));
        assert(s@ =~= line@.take(s@.len() as int));
        let n = s.len();
        let mut i: usize = 0;
        while i < n && !is_path_char_exec(s[i])
            invariant
                n == s@.len(),
                i <= n,
                forall|k: int| 0 <= k < i ==> !is_path_char(#[trigger] s@[k]),
            decreases n - i,
        {
            i = i + 1;
        }
        if i == n {
            assert(!exists|i: int| path_start(s@, i));
            return None;
        }
        proof {
            assert(path_start(s@, i as int));
            let i0 = choose|i0: int| path_start(s@, i0);
            assert(path_start(s@, i0));
            if i0 < i {
                assert(!is_path_char(s@[i0]));
            } else if i0 > i {
                assert(!is_path_char(s@[i as int]));
            }
        }
        let j = path_end_at(&s, i);
        let path = line.substring_char(i, j).to_owned();
        assert(path@ =~= s@.subrange(i as int, j as int));
        match find_part(&s, line) {
            None => None,
            Some(Some(part)) => Some(Entry::Part(path, part, mark_type)),
            Some(None) => Some(Entry::Path(path, mark_type)),
        }
    }

    /// The markings of all lines, in order. `kinds[i]` tells whether the
    /// path of line `i` is a directory (`Some(true)`), a file
    /// (`Some(false)`), or neither could be found (`None`); it is read only
    /// for a line that names a path alone. Lines that say nothing usable,
    /// or name a path of no known kind, are left out.
    pub fn parse(&self, kinds: &Vec<Option<bool>>) -> (r: Vec<Marking>)
        requires
            kinds@.len() == self.lines@.len(),
        ensures
            r@.len() == markings_of(self.lines@.map_values(|l: String| l@), kinds@).len(),
            forall|i: int| 0 <= i < r@.len() ==> (#[trigger] r@[i]).target.model()
                == markings_of(self.lines@.map_values(|l: String| l@), kinds@)[i].0
                && r@[i].mark_type == markings_of(self.lines@.map_values(|l: String| l@), kinds@)[i].1,
    {
        let ghost all = self.lines@.map_values(|l: String| l@);
        let mut markings: Vec<Marking> = Vec::new();
        let mut k: usize = 0;
        while k < self.lines.len()
            invariant
                kinds@.len() == self.lines@.len(),
                all == self.lines@.map_values(|l: String| l@),
                k <= self.lines@.len(),
                markings@.len() == markings_of(all.take(k as int), kinds@.take(k as int)).len(),
                forall|i: int| 0 <= i < markings@.len() ==> (#[trigger] markings@[i]).target.model()
                    == markings_of(all.take(k as int), kinds@.take(k as int))[i].0
                    && markings@[i].mark_type == markings_of(all.take(k as int), kinds@.take(k as int))[i].1,
            decreases self.lines@.len() - k,
        {
            let ghost before = markings@;
            proof {
                assert(all.take(k + 1).drop_last() =~= all.take(k as int));
                assert(kinds@.take(k + 1).take(k as int) =~= kinds@.take(k as int));
                assert(all.take(k + 1).last() == self.lines@[k as int]@);
                assert(kinds@.take(k + 1)[k as int] == kinds@[k as int]);
            }
            match Self::parse_line(self.lines[k].as_str()) {
                Some(Entry::Part(path, part, t)) => {
                    markings.push(Marking::new(Target::FileSpec(path, part), t));
                },
                Some(Entry::Path(path, t)) => match kinds[k] {
                    Some(true) => {
                        markings.push(Marking::new(Target::Dir(path), t));
                    },
                    Some(false) => {
                        markings.push(Marking::new(Target::File(path), t));
                    },
                    None => {},
                },
                None => {},
            }
            proof {
                let m = markings_of(all.take(k + 1), kinds@.take(k + 1));
                assert forall|i: int| 0 <= i < markings@.len() implies (#[trigger] markings@[i]).target.model()
                    == m[i].0 && markings@[i].mark_type == m[i].1 by {
                    if i < before.len() {
                        assert(markings@[i] == before[i]);
                    }
                }
            }
            k = k + 1;
        }
        proof {
            assert(all.take(k as int) =~= all);
            assert(kinds@.take(k as int) =~= kinds@);
        }
        markings
    }
}

} // verus!
