//! The part of a text that a full-screen program shows.
use vstd::prelude::*;

verus! {

/// A window of `height` lines whose first line is `top`.
#[derive(Clone, Copy, PartialEq, Eq, Structural)]
pub struct Window {
    /// The first line shown.
    pub top: usize,
    /// How many lines fit.
    pub height: usize,
}

/// Where the top line has to be for `row` to be shown, moving as little as
/// possible. A window without any height behaves as one of a single line.
pub open spec fn followed(top: int, height: int, row: int) -> int {
    let tall = if height > 0 { height } else { 1 };
    if row < top {
        row
    } else if row >= top + tall {
        row - tall + 1
    } else {
        top
    }
}

/// The top line after moving down by `lines` in a text of `total` lines: the
/// last full window is as far as it goes.
pub open spec fn scrolled_down(top: int, height: int, lines: int, total: int) -> int {
    let last = if total > height { total - height } else { 0 };
    if top >= last {
        top
    } else if top + lines < last {
        top + lines
    } else {
        last
    }
}

/// The top line after moving up by `lines`.
pub open spec fn scrolled_up(top: int, lines: int) -> int {
    if lines < top {
        top - lines
    } else {
        0
    }
}

impl Window {
    /// The first line shown, in a text of `total` lines.
    pub open spec fn first(&self, total: int) -> int {
        if self.top <= total { self.top as int } else { total }
    }

    /// The line after the last one shown, in a text of `total` lines.
    pub open spec fn end(&self, total: int) -> int {
        if self.top + self.height <= total { self.top + self.height } else { total }
    }

    /// A window at the top of the text.
    pub fn new(height: usize) -> (window: Self)
        ensures
            window.top == 0,
            window.height == height,
    {
        Window { top: 0, height }
    }

    /// The lines of a text of `total` lines that are shown: the first one, and
    /// the one after the last.
    pub fn visible(&self, total: usize) -> (range: (usize, usize))
        ensures
            range.0 == self.first(total as int),
            range.1 == self.end(total as int),
            range.0 <= range.1 <= total,
            range.1 - range.0 <= self.height,
    {
        let start: usize = if self.top <= total { self.top } else { total };
        let end: usize = if total - start <= self.height { total } else { start + self.height };
        (start, end)
    }

    /// Moves the window so that `row` is shown; true where it moved.
    pub fn follow(&mut self, row: usize) -> (moved: bool)
        ensures
            final(self).height == old(self).height,
            final(self).top == followed(old(self).top as int, old(self).height as int, row as int),
            moved == (final(self).top != old(self).top),
    {
        let tall: usize = if self.height > 0 { self.height } else { 1 };
        if row < self.top {
            self.top = row;
            return true;
        }
        if row - self.top >= tall {
            self.top = row - tall + 1;
            return true;
        }
        false
    }

    /// The screen row that shows the line `row`, where one does.
    pub fn screen_row(&self, row: usize) -> (screen: Option<usize>)
        ensures
            screen is Some <==> self.top <= row < self.top + self.height,
            screen matches Some(at) ==> at == row - self.top,
    {
        if row >= self.top && row - self.top < self.height {
            Some(row - self.top)
        } else {
            None
        }
    }

    /// Moves down by `lines` in a text of `total` lines; true where it moved.
    pub fn scroll_down(&mut self, lines: usize, total: usize) -> (moved: bool)
        ensures
            final(self).height == old(self).height,
            final(self).top == scrolled_down(
                old(self).top as int,
                old(self).height as int,
                lines as int,
                total as int,
            ),
            moved == (final(self).top != old(self).top),
    {
        let last: usize = if total > self.height { total - self.height } else { 0 };
        if self.top >= last || lines == 0 {
            return false;
        }
        if lines < last - self.top {
            self.top = self.top + lines;
        } else {
            self.top = last;
        }
        true
    }

    /// Moves up by `lines`; true where it moved.
    pub fn scroll_up(&mut self, lines: usize) -> (moved: bool)
        ensures
            final(self).height == old(self).height,
            final(self).top == scrolled_up(old(self).top as int, lines as int),
            moved == (final(self).top != old(self).top),
    {
        let before: usize = self.top;
        self.top = if lines < before { before - lines } else { 0 };
        self.top != before
    }
}

/// Following a line shows it, and a window that shows it already stays.
pub proof fn following_shows_the_line(top: int, height: int, row: int)
    requires
        0 <= top,
        0 < height,
        0 <= row,
    ensures
        followed(top, height, row) <= row < followed(top, height, row) + height,
        0 <= followed(top, height, row),
        top <= row < top + height ==> followed(top, height, row) == top,
{
}

/// Scrolling down and up by as much, with room below, returns to the same place.
pub proof fn scrolling_back_returns(top: int, height: int, lines: int, total: int)
    requires
        0 <= top,
        0 <= lines,
        top + lines + height <= total,
    ensures
        scrolled_up(scrolled_down(top, height, lines, total), lines) == top,
{
}

/// A window follows a line no further than it has to: it moves up to have the
/// line first, and down to have it last.
pub proof fn following_moves_as_little_as_possible(top: int, height: int, row: int)
    requires
        0 <= top,
        0 < height,
        0 <= row,
    ensures
        followed(top, height, row) < top ==> followed(top, height, row) == row,
        followed(top, height, row) > top ==> followed(top, height, row) + height == row + 1,
        followed(top, 0, row) == followed(top, 1, row),
{
}

/// Moving down gets as many lines further as it says, but never behind the last
/// full window, and gets there where fewer are left. Moving up gets as many lines
/// back, but never before the first line.
pub proof fn scrolling_goes_as_far_as_the_text(top: int, height: int, lines: int, total: int)
    requires
        0 <= top,
        0 <= height,
        0 <= lines,
        0 <= total,
    ensures
        top + lines + height <= total ==> scrolled_down(top, height, lines, total) == top + lines,
        top + height <= total < top + lines + height ==> scrolled_down(top, height, lines, total)
            + height == total,
        top + height > total ==> scrolled_down(top, height, lines, total) == top,
        lines <= top ==> scrolled_up(top, lines) == top - lines,
        lines > top ==> scrolled_up(top, lines) == 0,
{
}

/// A window shows the lines from its first on, as many as fit, and none that the
/// text does not have.
pub proof fn windows_show_what_fits(window: Window, total: int)
    requires
        window.top <= total,
    ensures
        window.first(total) == window.top,
        window.end(total) <= total,
        window.end(total) - window.first(total) <= window.height,
        window.end(total) < total ==> window.end(total) - window.first(total) == window.height,
{
}

} // verus!
