//! Navigation in a source view: where the cursor stands, which line is at
//! the top of the window, and search for the lines that hold a text.

use vstd::prelude::*;

verus! {

/// `needle` occurs as a contiguous part of `hay`.
pub open spec fn occurs_in(hay: Seq<char>, needle: Seq<char>) -> bool {
    exists|i: int| 0 <= i && i + needle.len() <= hay.len() && #[trigger] hay.subrange(i, i + needle.len()) == needle
}

/// Relies on `str::contains` with a `&str` pattern: whether `needle` is a
/// substring of `hay`.
#[verifier::external_body]
fn str_contains(hay: &str, needle: &str) -> (r: bool)
    ensures
        r == occurs_in(hay@, needle@),
{
    hay.contains(needle)
}

/// `x - y`, or `0` where that is negative.
pub open spec fn minus_or_zero(x: int, y: int) -> int {
    if x >= y {
        x - y
    } else {
        0
    }
}

/// The top line after the cursor moved to `cursor`: the window scrolls so
/// that `padding` lines stay visible below and above the cursor where it can.
pub open spec fn offset_for(offset: int, cursor: int, padding: int, height: int) -> int {
    let scrolled_down = if cursor + 1 >= offset + height - padding {
        minus_or_zero(cursor + 1 + padding, height)
    } else {
        offset
    };
    if cursor < scrolled_down + padding {
        minus_or_zero(cursor, padding)
    } else {
        scrolled_down
    }
}

/// The cursor line that a jump to `index` lands on: the last line at most.
pub open spec fn clamp_cursor(index: int, line_count: int) -> int {
    let last = minus_or_zero(line_count, 1);
    if index < last {
        index
    } else {
        last
    }
}

/// The nearest line before `cursor` that holds `needle`.
pub open spec fn is_prev_match(lines: Seq<String>, needle: Seq<char>, cursor: int, i: int) -> bool {
    &&& 0 <= i < cursor
    &&& occurs_in(lines[i]@, needle)
    &&& forall|j: int| i < j < cursor ==> !occurs_in(#[trigger] lines[j]@, needle)
}

/// The nearest line after `cursor` that holds `needle`.
pub open spec fn is_next_match(lines: Seq<String>, needle: Seq<char>, cursor: int, i: int) -> bool {
    &&& cursor < i < lines.len()
    &&& occurs_in(lines[i]@, needle)
    &&& forall|j: int| cursor < j < i ==> !occurs_in(#[trigger] lines[j]@, needle)
}

/// The cursor and scroll position of a view of `line_count` lines in a
/// window `height` lines tall.
#[derive(Clone, Copy, Debug, PartialEq, Eq, Structural)]
pub struct ViewCursor {
    pub line_count: u16,
    /// The line at the top of the window (zero-based).
    pub offset: u16,
    /// The line the cursor is on (zero-based).
    pub cursor: u16,
    /// Lines kept visible around the cursor.
    pub padding: u16,
    pub height: u16,
}

impl ViewCursor {
    /// A view at the first line.
    pub fn new(line_count: u16, padding: u16, height: u16) -> (r: ViewCursor)
        ensures
            r == (ViewCursor { line_count, offset: 0, cursor: 0, padding, height }),
    {
        ViewCursor { line_count, offset: 0, cursor: 0, padding, height }
    }

    /// Scrolls the window so that the cursor has `padding` lines around it.
    pub fn update_offset(&mut self)
        ensures
            *final(self) == (ViewCursor {
                offset: offset_for(
                    old(self).offset as int,
                    old(self).cursor as int,
                    old(self).padding as int,
                    old(self).height as int,
                ) as u16,
                ..*old(self)
            }),
            offset_for(
                old(self).offset as int,
                old(self).cursor as int,
                old(self).padding as int,
                old(self).height as int,
            ) <= if old(self).offset > old(self).cursor { old(self).offset } else { old(self).cursor },
    {
        let offset = self.offset as i32;
        let cursor = self.cursor as i32;
        let padding = self.padding as i32;
        let height = self.height as i32;
        let mut top = offset;
        if cursor + 1 >= offset + height - padding {
            top = if cursor + 1 + padding >= height { cursor + 1 + padding - height } else { 0 };
        }
        if cursor < top + padding {
            top = if cursor >= padding { cursor - padding } else { 0 };
        }
        self.offset = top as u16;
    }

    /// Moves the cursor to `index`, or to the last line if `index` is past it.
    pub fn jump_cursor(&mut self, index: u16)
        ensures
            final(self).cursor == clamp_cursor(index as int, old(self).line_count as int),
            final(self).offset == offset_for(
                old(self).offset as int,
                final(self).cursor as int,
                old(self).padding as int,
                old(self).height as int,
            ),
            final(self).line_count == old(self).line_count,
            final(self).padding == old(self).padding,
            final(self).height == old(self).height,
    {
        let last = if self.line_count >= 1 { self.line_count - 1 } else { 0 };
        self.cursor = if index < last { index } else { last };
        self.update_offset();
    }

    /// Moves the cursor `count` lines down.
    pub fn inc_cursor(&mut self, count: u16)
        ensures
            final(self).cursor == clamp_cursor(
                if old(self).cursor + count > u16::MAX { u16::MAX as int } else { old(self).cursor + count },
                old(self).line_count as int,
            ),
            final(self).offset == offset_for(
                old(self).offset as int,
                final(self).cursor as int,
                old(self).padding as int,
                old(self).height as int,
            ),
            final(self).line_count == old(self).line_count,
            final(self).padding == old(self).padding,
            final(self).height == old(self).height,
    {
        let index = self.cursor.saturating_add(count);
        self.jump_cursor(index);
    }

    /// Moves the cursor `count` lines up.
    pub fn dec_cursor(&mut self, count: u16)
        ensures
            final(self).cursor == clamp_cursor(
                minus_or_zero(old(self).cursor as int, count as int),
                old(self).line_count as int,
            ),
            final(self).offset == offset_for(
                old(self).offset as int,
                final(self).cursor as int,
                old(self).padding as int,
                old(self).height as int,
            ),
            final(self).line_count == old(self).line_count,
            final(self).padding == old(self).padding,
            final(self).height == old(self).height,
    {
        let index = self.cursor.saturating_sub(count);
        self.jump_cursor(index);
    }

    /// The nearest line above the cursor that holds `needle`.
    pub fn prev_matched_index(&self, lines: &Vec<String>, needle: &str) -> (r: Option<u16>)
        requires
            self.cursor <= lines@.len(),
        ensures
            match r {
                Some(i) => is_prev_match(lines@, needle@, self.cursor as int, i as int),
                None => forall|j: int| 0 <= j < self.cursor ==> !occurs_in(#[trigger] lines@[j]@, needle@),
            },
    {
        let mut i: u16 = self.cursor;
        while i > 0
            invariant
                i <= self.cursor <= lines@.len(),
                forall|j: int| i <= j < self.cursor ==> !occurs_in(#[trigger] lines@[j]@, needle@),
            decreases i,
        {
            if str_contains(lines[(i - 1) as usize].as_str(), needle) {
                return Some(i - 1);
            }
            i = i - 1;
        }
        None
    }

    /// The nearest line below the cursor that holds `needle`.
    pub fn next_matched_index(&self, lines: &Vec<String>, needle: &str) -> (r: Option<u16>)
        requires
            lines@.len() == self.line_count,
        ensures
            match r {
                Some(i) => is_next_match(lines@, needle@, self.cursor as int, i as int),
                None => forall|j: int| self.cursor < j < lines@.len() ==> !occurs_in(#[trigger] lines@[j]@, needle@),
            },
    {
        if self.cursor as u32 + 1 >= self.line_count as u32 {
            return None;
        }
        let mut i: u16 = self.cursor + 1;
        while i < self.line_count
            invariant
                self.cursor < i <= self.line_count,
                lines@.len() == self.line_count,
                forall|j: int| self.cursor < j < i ==> !occurs_in(#[trigger] lines@[j]@, needle@),
            decreases self.line_count - i,
        {
            if str_contains(lines[i as usize].as_str(), needle) {
                return Some(i);
            }
            i = i + 1;
        }
        None
    }

    /// Whether the cursor line holds `needle`.
    pub fn current_line_contains(&self, lines: &Vec<String>, needle: &str) -> (r: bool)
        requires
            self.cursor < lines@.len(),
        ensures
            r == occurs_in(lines@[self.cursor as int]@, needle@),
    {
        str_contains(lines[self.cursor as usize].as_str(), needle)
    }
}

} // verus!
