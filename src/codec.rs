//! The text form of a mark specification.
//!
//! One directive per line. Blank lines and lines that start with `#` are
//! skipped. A line holding the marker `-*- all -*-` marks every line and
//! ends the reading. Any other line ends with a number `N` or a pair
//! `N-M` (blanks around them allowed); numbers are one-based line numbers,
//! and `N-M` stands for the half-open offsets `[N-1, M-1)`. The text is
//! UTF-8; blanks are Unicode white space, and a number is a run of Unicode
//! decimal digits, which must all be ASCII digits to be read.

use vstd::prelude::*;
use vstd::slice::slice_subrange;
use crate::interval::{FileMarkSpec, MarkModel, SpecType, OFFSET_MAX};
use crate::unicode::{decimal_digit, is_decimal_digit, is_white_space, white_space};

verus! {

/// The marker that stands for "every line is marked".
pub const ALL_MAGIC: &'static str = "-*- all -*-";

pub const NEWLINE: u8 = 10;

pub const HASH: u8 = 35;

pub const DASH: u8 = 45;

pub const ZERO: u8 = 48;

/// The bytes of `ALL_MAGIC`.
pub open spec fn magic() -> Seq<u8> {
    seq![45u8, 42, 45, 32, 97, 108, 108, 32, 45, 42, 45]
}

/// An ASCII decimal digit.
pub open spec fn is_digit(b: u8) -> bool {
    48 <= b <= 57
}

/// A byte that continues a UTF-8 sequence.
pub open spec fn is_continuation(b: u8) -> bool {
    0x80 <= b < 0xC0
}

/// The character that ends `s[..end]` in UTF-8: its length in bytes and its
/// code point, or length `0` where no well-formed character ends there.
pub open spec fn last_char(s: Seq<u8>, end: int) -> (int, u32) {
    if !(0 < end <= s.len()) {
        (0, 0)
    } else if s[end - 1] < 0x80 {
        (1, s[end - 1] as u32)
    } else if !is_continuation(s[end - 1]) {
        (0, 0)
    } else if end >= 2 && 0xC2 <= s[end - 2] < 0xE0 {
        (2, ((s[end - 2] - 0xC0) * 64 + (s[end - 1] - 0x80)) as u32)
    } else if end >= 3 && is_continuation(s[end - 2]) && 0xE0 <= s[end - 3] < 0xF0 {
        (3, ((s[end - 3] - 0xE0) * 4096 + (s[end - 2] - 0x80) * 64 + (s[end - 1] - 0x80)) as u32)
    } else if end >= 4 && is_continuation(s[end - 2]) && is_continuation(s[end - 3]) && 0xF0
        <= s[end - 4] < 0xF5 {
        (
            4,
            ((s[end - 4] - 0xF0) * 262144 + (s[end - 3] - 0x80) * 4096 + (s[end - 2] - 0x80) * 64 + (
            s[end - 1] - 0x80)) as u32,
        )
    } else {
        (0, 0)
    }
}

/// The character before `end` is white space.
pub open spec fn blank_before(s: Seq<u8>, end: int) -> bool {
    last_char(s, end).0 > 0 && is_white_space(last_char(s, end).1)
}

/// The character before `end` is a decimal digit.
pub open spec fn digit_before(s: Seq<u8>, end: int) -> bool {
    last_char(s, end).0 > 0 && is_decimal_digit(last_char(s, end).1)
}

/// `p` occurs in `s` at index `i`.
pub open spec fn occurs_at(s: Seq<u8>, p: Seq<u8>, i: int) -> bool {
    0 <= i && i + p.len() <= s.len() && s.subrange(i, i + p.len()) == p
}

/// The line holds the all-lines marker.
pub open spec fn has_magic(line: Seq<u8>) -> bool {
    exists|i: int| occurs_at(line, magic(), i)
}

/// Where the prefix `s[..end]` ends once the blanks at its end are dropped.
pub open spec fn trimmed_end(s: Seq<u8>, end: int) -> int
    decreases end,
{
    if 0 < end && blank_before(s, end) {
        trimmed_end(s, end - last_char(s, end).0)
    } else {
        end
    }
}

/// Where the run of decimal digits that ends at `end` starts.
pub open spec fn digits_start(s: Seq<u8>, end: int) -> int
    decreases end,
{
    if 0 < end && digit_before(s, end) {
        digits_start(s, end - last_char(s, end).0)
    } else {
        end
    }
}

/// The value of a string of decimal digits.
pub open spec fn decimal_value(d: Seq<u8>) -> nat
    decreases d.len(),
{
    if d.len() == 0 {
        0
    } else {
        decimal_value(d.drop_last()) * 10 + (d.last() - ZERO) as nat
    }
}

/// Every byte of `d` is an ASCII digit.
pub open spec fn all_ascii_digits(d: Seq<u8>) -> bool {
    forall|i: int| 0 <= i < d.len() ==> is_digit(#[trigger] d[i])
}

/// The run of digits `d` read as a `u16`: digits other than ASCII ones make
/// no number, and neither does a value above `65535`.
pub open spec fn number(d: Seq<u8>) -> Result<u16, ParseError> {
    if !all_ascii_digits(d) {
        Err(ParseError::InvalidFormat)
    } else if decimal_value(d) <= OFFSET_MAX {
        Ok(decimal_value(d) as u16)
    } else {
        Err(ParseError::NumberTooLarge)
    }
}

/// The zero-based offset of a one-based line number; `0` stays `0`.
pub open spec fn to_offset(n: u16) -> u16 {
    if n == 0 {
        0
    } else {
        (n - 1) as u16
    }
}

/// What one line of the text says.
#[derive(Clone, Copy, Debug, PartialEq, Eq, Structural)]
pub enum Directive {
    /// A blank line or a comment.
    Skip,
    /// The all-lines marker.
    Everything,
    /// An interval of marked offsets.
    Mark(SpecType),
}

/// Why a text is not a mark specification.
#[derive(Clone, Copy, Debug, PartialEq, Eq, Structural)]
pub enum ParseError {
    /// A line that is neither blank, a comment, the marker, nor ends in a
    /// number or a pair of numbers; or a number with digits other than ASCII
    /// ones.
    InvalidFormat,
    /// A number above `65535`.
    NumberTooLarge,
}

/// What a line that is neither blank, a comment, nor holds the marker says.
/// A line that ends in `N - M` is a range, even where it also ends in the
/// number `M`; the text before the numbers is not looked at.
#[verifier::opaque]
pub open spec fn numbered_directive(line: Seq<u8>) -> Result<Directive, ParseError> {
    let b = trimmed_end(line, line.len() as int);
    let d2 = digits_start(line, b);
    let m = trimmed_end(line, d2);
    let h = trimmed_end(line, m - 1);
    let d1 = digits_start(line, h);
    if d2 == b {
        Err(ParseError::InvalidFormat)
    } else if m > 0 && line[m - 1] == DASH && d1 < h {
        match number(line.subrange(d1, h)) {
            Err(e) => Err(e),
            Ok(x) => match number(line.subrange(d2, b)) {
                Err(e) => Err(e),
                Ok(y) => Ok(Directive::Mark(SpecType::Range(to_offset(x), to_offset(y)))),
            },
        }
    } else {
        match number(line.subrange(d2, b)) {
            Ok(y) => Ok(Directive::Mark(SpecType::Line(to_offset(y)))),
            Err(e) => Err(e),
        }
    }
}

/// What one line (without its newline) says.
pub open spec fn directive_of(line: Seq<u8>) -> Result<Directive, ParseError> {
    if line.len() == 0 || line[0] == HASH {
        Ok(Directive::Skip)
    } else if has_magic(line) {
        Ok(Directive::Everything)
    } else {
        numbered_directive(line)
    }
}

fn magic_bytes() -> (r: Vec<u8>)
    ensures
        r@ == magic(),
{
    let r: Vec<u8> = vec![45u8, 42, 45, 32, 97, 108, 108, 32, 45, 42, 45];
    assert(r@ =~= magic());
    r
}

fn is_digit_byte(b: u8) -> (r: bool)
    ensures
        r == is_digit(b),
{
    48 <= b && b <= 57
}

fn is_continuation_byte(b: u8) -> (r: bool)
    ensures
        r == is_continuation(b),
{
    0x80 <= b && b < 0xC0
}

fn last_char_at(s: &[u8], end: usize) -> (r: (usize, u32))
    requires
        end <= s@.len(),
    ensures
        r.0 == last_char(s@, end as int).0,
        r.1 == last_char(s@, end as int).1,
{
    if end == 0 {
        return (0, 0);
    }
    let b1 = s[end - 1];
    if b1 < 0x80 {
        return (1, b1 as u32);
    }
    if !is_continuation_byte(b1) {
        return (0, 0);
    }
    let c1 = (b1 - 0x80) as u32;
    if end >= 2 && 0xC2 <= s[end - 2] && s[end - 2] < 0xE0 {
        return (2, (s[end - 2] - 0xC0) as u32 * 64 + c1);
    }
    if end >= 3 && is_continuation_byte(s[end - 2]) && 0xE0 <= s[end - 3] && s[end - 3] < 0xF0 {
        return (3, (s[end - 3] - 0xE0) as u32 * 4096 + (s[end - 2] - 0x80) as u32 * 64 + c1);
    }
    if end >= 4 && is_continuation_byte(s[end - 2]) && is_continuation_byte(s[end - 3]) && 0xF0
        <= s[end - 4] && s[end - 4] < 0xF5 {
        return (
            4,
            (s[end - 4] - 0xF0) as u32 * 262144 + (s[end - 3] - 0x80) as u32 * 4096 + (s[end - 2]
                - 0x80) as u32 * 64 + c1,
        );
    }
    (0, 0)
}

fn trim_end_at(s: &[u8], end: usize) -> (r: usize)
    requires
        end <= s@.len(),
    ensures
        r == trimmed_end(s@, end as int),
        r <= end,
{
    let mut r = end;
    while r > 0
        invariant
            r <= end <= s@.len(),
            trimmed_end(s@, r as int) == trimmed_end(s@, end as int),
        decreases r,
    {
        let (k, c) = last_char_at(s, r);
        if k > 0 && white_space(c) {
            r = r - k;
        } else {
            return r;
        }
    }
    r
}

fn digits_start_at(s: &[u8], end: usize) -> (r: usize)
    requires
        end <= s@.len(),
    ensures
        r == digits_start(s@, end as int),
        r <= end,
{
    let mut r = end;
    while r > 0
        invariant
            r <= end <= s@.len(),
            digits_start(s@, r as int) == digits_start(s@, end as int),
        decreases r,
    {
        let (k, c) = last_char_at(s, r);
        if k > 0 && decimal_digit(c) {
            r = r - k;
        } else {
            return r;
        }
    }
    r
}

/// A longer string of digits never has a smaller value than its prefix.
pub proof fn lemma_decimal_value_prefix(d: Seq<u8>, k: int)
    requires
        0 <= k <= d.len(),
        forall|i: int| 0 <= i < d.len() ==> is_digit(#[trigger] d[i]),
    ensures
        decimal_value(d.take(k)) <= decimal_value(d),
    decreases d.len(),
{
    if k < d.len() {
        assert(d.drop_last().take(k) =~= d.take(k));
        lemma_decimal_value_prefix(d.drop_last(), k);
    } else {
        assert(d.take(k) =~= d);
    }
}

/// The number that the digits `s[from..to]` spell.
fn read_number(s: &[u8], from: usize, to: usize) -> (r: Result<u16, ParseError>)
    requires
        from <= to <= s@.len(),
    ensures
        r == number(s@.subrange(from as int, to as int)),
{
    let ghost d = s@.subrange(from as int, to as int);
    let mut i = from;
    while i < to
        invariant
            from <= i <= to <= s@.len(),
            d == s@.subrange(from as int, to as int),
            forall|j: int| from <= j < i ==> is_digit(#[trigger] s@[j]),
        decreases to - i,
    {
        if !is_digit_byte(s[i]) {
            assert(d[i - from] == s@[i as int]);
            return Err(ParseError::InvalidFormat);
        }
        i = i + 1;
    }
    assert(forall|j: int| 0 <= j < d.len() ==> d[j] == s@[from + j]);
    let mut acc: u32 = 0;
    let mut i = from;
    while i < to
        invariant
            from <= i <= to <= s@.len(),
            d == s@.subrange(from as int, to as int),
            forall|j: int| from <= j < to ==> is_digit(#[trigger] s@[j]),
            acc == decimal_value(d.take(i - from)),
            acc <= OFFSET_MAX,
        decreases to - i,
    {
        assert(d.take(i - from + 1).drop_last() =~= d.take(i - from));
        assert(is_digit(s@[i as int]));
        acc = acc * 10 + (s[i] - ZERO) as u32;
        if acc > OFFSET_MAX as u32 {
            proof {
                lemma_decimal_value_prefix(d, i - from + 1);
            }
            return Err(ParseError::NumberTooLarge);
        }
        i = i + 1;
    }
    assert(d.take(to - from) =~= d);
    Ok(acc as u16)
}

fn to_offset_exec(n: u16) -> (r: u16)
    ensures
        r == to_offset(n),
{
    if n == 0 {
        0
    } else {
        n - 1
    }
}

fn has_magic_at(line: &[u8], i: usize, pattern: &Vec<u8>) -> (r: bool)
    requires
        pattern@ == magic(),
        i + 11 <= line.len(),
    ensures
        r == occurs_at(line@, magic(), i as int),
{
    let mut k: usize = 0;
    while k < 11
        invariant
            pattern@ == magic(),
            i + 11 <= line.len(),
            k <= 11,
            forall|j: int| 0 <= j < k ==> line@[i + j] == magic()[j],
        decreases 11 - k,
    {
        if line[i + k] != pattern[k] {
            assert(line@.subrange(i as int, i + 11)[k as int] != magic()[k as int]);
            return false;
        }
        k = k + 1;
    }
    assert(line@.subrange(i as int, i + 11) =~= magic());
    true
}

fn contains_magic(line: &[u8]) -> (r: bool)
    ensures
        r == has_magic(line@),
{
    let pattern = magic_bytes();
    if line.len() < 11 {
        return false;
    }
    let mut i: usize = 0;
    while i <= line.len() - 11
        invariant
            pattern@ == magic(),
            line@.len() >= 11,
            i <= line@.len() - 10,
            forall|j: int| 0 <= j < i ==> !occurs_at(line@, magic(), j),
        decreases line@.len() - i,
    {
        if has_magic_at(line, i, &pattern) {
            return true;
        }
        i = i + 1;
    }
    false
}

/// Reads one line of the text (without its newline).
pub fn parse_line(line: &[u8]) -> (r: Result<Directive, ParseError>)
    ensures
        r == directive_of(line@),
{
    if line.len() == 0 || line[0] == HASH {
        return Ok(Directive::Skip);
    }
    if contains_magic(line) {
        return Ok(Directive::Everything);
    }
    proof {
        reveal(numbered_directive);
    }
    let b = trim_end_at(line, line.len());
    let d2 = digits_start_at(line, b);
    if d2 == b {
        return Err(ParseError::InvalidFormat);
    }
    let m = trim_end_at(line, d2);
    if m > 0 && line[m - 1] == DASH {
        let h = trim_end_at(line, m - 1);
        let d1 = digits_start_at(line, h);
        if d1 < h {
            return match read_number(line, d1, h) {
                Err(e) => Err(e),
                Ok(x) => match read_number(line, d2, b) {
                    Err(e) => Err(e),
                    Ok(y) => Ok(
                        Directive::Mark(SpecType::Range(to_offset_exec(x), to_offset_exec(y))),
                    ),
                },
            };
        }
    }
    match read_number(line, d2, b) {
        Ok(y) => Ok(Directive::Mark(SpecType::Line(to_offset_exec(y)))),
        Err(e) => Err(e),
    }
}

/// Length of the first line of `t`: the bytes before its first newline.
pub open spec fn line_len(t: Seq<u8>) -> nat
    decreases t.len(),
{
    if t.len() == 0 || t[0] == NEWLINE {
        0
    } else {
        1 + line_len(t.drop_first())
    }
}

/// The lines of `t`, without their newlines; the last one needs no newline.
pub open spec fn lines_of(t: Seq<u8>) -> Seq<Seq<u8>>
    decreases t.len(),
{
    let n = line_len(t);
    if t.len() == 0 {
        Seq::empty()
    } else if n >= t.len() {
        seq![t]
    } else {
        seq![t.take(n as int)] + lines_of(t.skip((n + 1) as int))
    }
}

/// Reads the lines `ls` in order, after the intervals `acc`: the first
/// marker line gives `All` and the first bad line its error.
pub open spec fn parse_lines(ls: Seq<Seq<u8>>, acc: Seq<SpecType>) -> Result<MarkModel, ParseError>
    decreases ls.len(),
{
    if ls.len() == 0 {
        Ok(MarkModel::Partial(acc))
    } else {
        match directive_of(ls[0]) {
            Ok(Directive::Skip) => parse_lines(ls.drop_first(), acc),
            Ok(Directive::Everything) => Ok(MarkModel::All),
            Ok(Directive::Mark(iv)) => parse_lines(ls.drop_first(), acc.push(iv)),
            Err(e) => Err(e),
        }
    }
}

/// What the text `text` holds.
pub open spec fn parsed(text: Seq<u8>) -> Result<MarkModel, ParseError> {
    parse_lines(lines_of(text), Seq::empty())
}

pub proof fn lemma_line_len_at(t: Seq<u8>, j: int)
    requires
        0 <= j <= t.len(),
        forall|m: int| 0 <= m < j ==> t[m] != NEWLINE,
        j == t.len() || t[j] == NEWLINE,
    ensures
        line_len(t) == j,
    decreases j,
{
    if j > 0 {
        lemma_line_len_at(t.drop_first(), j - 1);
    }
}

/// Reads a mark specification from its text.
pub fn parse_spec(text: &[u8]) -> (r: Result<FileMarkSpec, ParseError>)
    ensures
        match r {
            Ok(m) => parsed(text@) == Ok::<MarkModel, ParseError>(m@),
            Err(e) => parsed(text@) == Err::<MarkModel, ParseError>(e),
        },
{
    let mut specs: Vec<SpecType> = Vec::new();
    let mut k: usize = 0;
    assert(text@.skip(0) =~= text@);
    assert(specs@ =~= Seq::<SpecType>::empty());
    while k < text.len()
        invariant
            k <= text@.len(),
            parse_lines(lines_of(text@.skip(k as int)), specs@) == parsed(text@),
        decreases text@.len() - k,
    {
        let mut e = k;
        while e < text.len() && text[e] != NEWLINE
            invariant
                k <= e <= text@.len(),
                forall|m: int| k <= m < e ==> text@[m] != NEWLINE,
            decreases text@.len() - e,
        {
            e = e + 1;
        }
        let line = slice_subrange(text, k, e);
        let ghost rest = if e < text@.len() { text@.skip(e + 1) } else { Seq::empty() };
        proof {
            let t = text@.skip(k as int);
            lemma_line_len_at(t, e - k);
            assert(t.take(e - k) =~= line@);
            if e < text@.len() {
                assert(t.skip(e - k + 1) =~= rest);
                assert(lines_of(t) == seq![line@] + lines_of(rest));
            } else {
                assert(t =~= line@);
                assert(lines_of(rest) =~= Seq::<Seq<u8>>::empty());
                assert(lines_of(t) == seq![line@]);
            }
            assert(lines_of(t).drop_first() =~= lines_of(rest));
        }
        match parse_line(line) {
            Ok(Directive::Skip) => {},
            Ok(Directive::Everything) => {
                return Ok(FileMarkSpec::All);
            },
            Ok(Directive::Mark(iv)) => {
                specs.push(iv);
            },
            Err(x) => {
                return Err(x);
            },
        }
        if e < text.len() {
            k = e + 1;
        } else {
            k = e;
            assert(text@.skip(k as int) =~= rest);
        }
    }
    assert(text@.skip(k as int) =~= Seq::<u8>::empty());
    Ok(FileMarkSpec::Partial(specs))
}

/// The decimal digits of `n`, without leading zeros.
pub open spec fn decimal(n: nat) -> Seq<u8>
    decreases n,
{
    if n < 10 {
        seq![(ZERO + n) as u8]
    } else {
        decimal(n / 10).push((ZERO + n % 10) as u8)
    }
}

/// The one-based line number of an offset, saturating at `65535`.
pub open spec fn one_based(o: u16) -> nat {
    if o == OFFSET_MAX {
        OFFSET_MAX as nat
    } else {
        (o + 1) as nat
    }
}

/// The text of one interval, without its newline: `N` or `N-M`, both
/// bounds one-based.
pub open spec fn interval_text(iv: SpecType) -> Seq<u8> {
    match iv {
        SpecType::Line(o) => decimal(one_based(o)),
        SpecType::Range(l, r) => decimal(one_based(l)) + seq![DASH] + decimal(one_based(r)),
    }
}

/// One line per interval, in order.
pub open spec fn intervals_text(s: Seq<SpecType>) -> Seq<u8>
    decreases s.len(),
{
    if s.len() == 0 {
        Seq::empty()
    } else {
        interval_text(s[0]).push(NEWLINE) + intervals_text(s.drop_first())
    }
}

/// The text that a specification is written as.
pub open spec fn written(m: MarkModel) -> Seq<u8> {
    match m {
        MarkModel::All => magic().push(NEWLINE),
        MarkModel::Partial(s) => intervals_text(s),
    }
}

pub proof fn lemma_intervals_text_push(s: Seq<SpecType>, iv: SpecType)
    ensures
        intervals_text(s.push(iv)) == intervals_text(s) + interval_text(iv).push(NEWLINE),
    decreases s.len(),
{
    if s.len() == 0 {
        assert(s.push(iv).drop_first() =~= Seq::<SpecType>::empty());
        assert(s.push(iv)[0] == iv);
        assert(intervals_text(s) =~= Seq::<u8>::empty());
        assert(intervals_text(s.push(iv).drop_first()) =~= Seq::<u8>::empty());
        assert(intervals_text(s.push(iv)) =~= intervals_text(s) + interval_text(iv).push(NEWLINE));
    } else {
        assert(s.push(iv).drop_first() =~= s.drop_first().push(iv));
        lemma_intervals_text_push(s.drop_first(), iv);
        assert(intervals_text(s.push(iv)) =~= intervals_text(s) + interval_text(iv).push(NEWLINE));
    }
}

fn push_decimal(out: &mut Vec<u8>, n: u32)
    ensures
        final(out)@ == old(out)@ + decimal(n as nat),
    decreases n,
{
    if n >= 10 {
        push_decimal(out, n / 10);
    }
    out.push(ZERO + (n % 10) as u8);
    assert(final(out)@ =~= old(out)@ + decimal(n as nat));
}

fn one_based_exec(o: u16) -> (r: u32)
    ensures
        r == one_based(o),
{
    if o == OFFSET_MAX {
        OFFSET_MAX as u32
    } else {
        o as u32 + 1
    }
}

/// The text of a mark specification: the marker line for `All`, else one
/// line per interval.
pub fn write_spec(spec: &FileMarkSpec) -> (r: Vec<u8>)
    ensures
        r@ == written(spec@),
{
    let mut out: Vec<u8> = Vec::new();
    match spec {
        FileMarkSpec::All => {
            out = magic_bytes();
            out.push(NEWLINE);
        },
        FileMarkSpec::Partial(specs) => {
            let mut k: usize = 0;
            while k < specs.len()
                invariant
                    spec@ == MarkModel::Partial(specs@),
                    k <= specs@.len(),
                    out@ == intervals_text(specs@.take(k as int)),
                decreases specs@.len() - k,
            {
                let ghost before = out@;
                match specs[k] {
                    SpecType::Line(o) => {
                        push_decimal(&mut out, one_based_exec(o));
                    },
                    SpecType::Range(l, r) => {
                        push_decimal(&mut out, one_based_exec(l));
                        out.push(DASH);
                        push_decimal(&mut out, one_based_exec(r));
                    },
                }
                out.push(NEWLINE);
                proof {
                    assert(specs@.take(k + 1) =~= specs@.take(k as int).push(specs@[k as int]));
                    lemma_intervals_text_push(specs@.take(k as int), specs@[k as int]);
                    assert(out@ =~= before + interval_text(specs@[k as int]).push(NEWLINE));
                }
                k = k + 1;
            }
            assert(specs@.take(k as int) =~= specs@);
        },
    }
    out
}

/// Every bound of every interval of `s` is below `65535`, so that it
/// survives being written one-based and read back.
pub open spec fn fits_codec(s: Seq<SpecType>) -> bool {
    forall|j: int| 0 <= j < s.len() ==> match #[trigger] s[j] {
        SpecType::Line(o) => o < OFFSET_MAX,
        SpecType::Range(l, r) => l < OFFSET_MAX && r < OFFSET_MAX,
    }
}

pub proof fn lemma_decimal(n: nat)
    ensures
        decimal(n).len() >= 1,
        forall|i: int| 0 <= i < decimal(n).len() ==> is_digit(#[trigger] decimal(n)[i]),
        decimal_value(decimal(n)) == n,
    decreases n,
{
    if n >= 10 {
        lemma_decimal(n / 10);
        let d = decimal(n);
        assert(d.drop_last() =~= decimal(n / 10));
        assert(d.last() == (ZERO + n % 10) as u8);
        assert(n == (n / 10) * 10 + n % 10);
        assert(decimal_value(d) == decimal_value(decimal(n / 10)) * 10 + n % 10);
    } else {
        assert(decimal(n).drop_last() =~= Seq::<u8>::empty());
        assert(decimal_value(decimal(n).drop_last()) == 0);
    }
}

pub proof fn lemma_digits_start_run(s: Seq<u8>, lo: int, end: int)
    requires
        0 <= lo <= end <= s.len(),
        forall|i: int| lo <= i < end ==> is_digit(#[trigger] s[i]),
        lo == 0 || (s[lo - 1] < 0x80 && !is_digit(s[lo - 1])),
    ensures
        digits_start(s, end) == lo,
    decreases end - lo,
{
    if lo < end {
        lemma_digits_start_run(s, lo, end - 1);
    }
}

/// A line of digits and dashes does not hold the marker, whose second byte
/// is `*`.
pub proof fn lemma_no_magic(line: Seq<u8>)
    requires
        forall|i: int| 0 <= i < line.len() ==> is_digit(#[trigger] line[i]) || line[i] == DASH,
    ensures
        !has_magic(line),
{
    if has_magic(line) {
        let i = choose|i: int| occurs_at(line, magic(), i);
        assert(line.subrange(i, i + 11)[1] == magic()[1]);
        assert(is_digit(line[i + 1]) || line[i + 1] == DASH);
    }
}

/// Each interval whose bounds fit is read back from its own line.
pub proof fn lemma_interval_line(iv: SpecType)
    requires
        match iv {
            SpecType::Line(o) => o < OFFSET_MAX,
            SpecType::Range(l, r) => l < OFFSET_MAX && r < OFFSET_MAX,
        },
    ensures
        directive_of(interval_text(iv)) == Ok::<Directive, ParseError>(Directive::Mark(iv)),
        forall|i: int| 0 <= i < interval_text(iv).len() ==> #[trigger] interval_text(iv)[i] != NEWLINE,
{
    reveal(numbered_directive);
    let line = interval_text(iv);
    match iv {
        SpecType::Line(o) => {
            let d = decimal(one_based(o));
            lemma_decimal(one_based(o));
            lemma_no_magic(line);
            lemma_digits_start_run(line, 0, line.len() as int);
            assert(line.subrange(0, line.len() as int) =~= d);
        },
        SpecType::Range(l, r) => {
            let d1 = decimal(one_based(l));
            let d2 = decimal(one_based(r));
            lemma_decimal(one_based(l));
            lemma_decimal(one_based(r));
            let n1 = d1.len() as int;
            assert forall|i: int| 0 <= i < line.len() implies is_digit(#[trigger] line[i]) || line[i] == DASH by {
                if i < n1 {
                    assert(line[i] == d1[i]);
                } else if i > n1 {
                    assert(line[i] == d2[i - n1 - 1]);
                }
            }
            assert(forall|i: int| 0 <= i < n1 ==> #[trigger] line[i] == d1[i]);
            assert(forall|i: int| n1 < i < line.len() ==> #[trigger] line[i] == d2[i - n1 - 1]);
            assert(line[n1] == DASH);
            lemma_no_magic(line);
            lemma_digits_start_run(line, n1 + 1, line.len() as int);
            lemma_digits_start_run(line, 0, n1);
            assert(line.subrange(0, n1) =~= d1);
            assert(line.subrange(n1 + 1, line.len() as int) =~= d2);
        },
    }
}

/// A line followed by a newline is the first line of what it starts.
pub proof fn lemma_lines_of_first(x: Seq<u8>, rest: Seq<u8>)
    requires
        forall|i: int| 0 <= i < x.len() ==> #[trigger] x[i] != NEWLINE,
    ensures
        lines_of(x.push(NEWLINE) + rest) == seq![x] + lines_of(rest),
{
    let t = x.push(NEWLINE) + rest;
    assert forall|m: int| 0 <= m < x.len() implies t[m] != NEWLINE by {
        assert(t[m] == x[m]);
    }
    assert(t[x.len() as int] == NEWLINE);
    lemma_line_len_at(t, x.len() as int);
    assert(t.take(x.len() as int) =~= x);
    assert(t.skip(x.len() + 1 as int) =~= rest);
}

pub proof fn lemma_parse_intervals(s: Seq<SpecType>, acc: Seq<SpecType>)
    requires
        fits_codec(s),
    ensures
        parse_lines(lines_of(intervals_text(s)), acc) == Ok::<MarkModel, ParseError>(MarkModel::Partial(acc + s)),
    decreases s.len(),
{
    if s.len() == 0 {
        assert(intervals_text(s) =~= Seq::<u8>::empty());
        assert(lines_of(intervals_text(s)) =~= Seq::<Seq<u8>>::empty());
        assert(acc + s =~= acc);
    } else {
        let x = interval_text(s[0]);
        let rest = intervals_text(s.drop_first());
        lemma_interval_line(s[0]);
        lemma_lines_of_first(x, rest);
        let ls = lines_of(intervals_text(s));
        assert(ls[0] == x);
        assert(ls.drop_first() =~= lines_of(rest));
        assert(fits_codec(s.drop_first())) by {
            assert forall|j: int| 0 <= j < s.drop_first().len() implies match #[trigger] s.drop_first()[j] {
                SpecType::Line(o) => o < OFFSET_MAX,
                SpecType::Range(l, r) => l < OFFSET_MAX && r < OFFSET_MAX,
            } by {
                assert(s.drop_first()[j] == s[j + 1]);
            }
        }
        lemma_parse_intervals(s.drop_first(), acc.push(s[0]));
        assert(acc.push(s[0]) + s.drop_first() =~= acc + s);
    }
}

/// Reading back what was written gives the same specification, for `All`
/// and for lists whose bounds all lie below `65535`.
pub proof fn lemma_parse_written(m: MarkModel)
    requires
        m matches MarkModel::Partial(s) ==> fits_codec(s),
    ensures
        parsed(written(m)) == Ok::<MarkModel, ParseError>(m),
{
    match m {
        MarkModel::All => {
            let t = magic();
            lemma_lines_of_first(t, Seq::empty());
            assert(t.push(NEWLINE) + Seq::<u8>::empty() =~= t.push(NEWLINE));
            assert(lines_of(Seq::<u8>::empty()) =~= Seq::<Seq<u8>>::empty());
            assert(occurs_at(t, magic(), 0)) by {
                assert(t.subrange(0, 11) =~= magic());
            }
            assert(lines_of(written(m)) =~= seq![t]);
        },
        MarkModel::Partial(s) => {
            lemma_parse_intervals(s, Seq::empty());
            assert(Seq::<SpecType>::empty() + s =~= s);
        },
    }
}

} // verus!
