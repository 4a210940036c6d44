//! What a terminal makes of the bytes that are written to it, in the language
//! that the full-screen programs draw with.
use crate::bytes::{self, ESC, SPACE};
use crate::chars;
use crate::decimal;
use crate::line;
use crate::screen;
use vstd::prelude::*;

verus! {

/// How much of an escape sequence has arrived.
pub enum Parsing {
    Ground,
    /// After `ESC`.
    Escape,
    /// After `ESC [`, with the parameters so far.
    Control { parameters: Seq<u8> },
}

/// A terminal: the text on each of its rows, from which nothing is cut off at
/// the right, and its cursor.
pub struct Terminal {
    pub rows: Seq<Seq<u8>>,
    pub row: int,
    pub col: int,
    pub parsing: Parsing,
}

/// Whether a byte stands for itself on the screen.
pub open spec fn printable(byte: u8) -> bool {
    0x20 <= byte < 0x7f
}

/// Whether all bytes of a text stand for themselves.
pub open spec fn all_printable(text: Seq<u8>) -> bool {
    forall|i: int| 0 <= i < text.len() ==> printable(#[trigger] text[i])
}

/// Whether a byte belongs to the parameters of a sequence.
pub open spec fn is_parameter(byte: u8) -> bool {
    !(0x40 <= byte < 0x7f)
}

/// A row with a byte written at a column. What was never written to is blank.
pub open spec fn with_byte(text: Seq<u8>, col: int, byte: u8) -> Seq<u8> {
    if col < text.len() {
        text.update(col, byte)
    } else {
        (text + bytes::repeated(SPACE, col - text.len())).push(byte)
    }
}

impl Terminal {
    /// The terminal waits for the first byte of something, and its cursor is on
    /// the screen.
    pub open spec fn ready(self) -> bool {
        self.parsing == Parsing::Ground && 0 <= self.row < self.rows.len() && 0 <= self.col
    }

    /// A whole sequence. Colours, and which of two screens is shown, are not
    /// looked at.
    pub open spec fn commanded(self, parameters: Seq<u8>, last: u8) -> Terminal {
        let blank = Seq::<u8>::empty();
        let same = Terminal { parsing: Parsing::Ground, ..self };
        let whole = parameters == seq!['2' as u8];
        if last == 'H' as u8 {
            let middle = bytes::first_at(parameters, ';' as u8, 0);
            Terminal {
                row: decimal::number(parameters.take(middle)) - 1,
                col: decimal::number(parameters.skip(middle + 1)) - 1,
                ..same
            }
        } else if last == 'K' as u8 && whole {
            Terminal { rows: self.rows.update(self.row, blank), ..same }
        } else if last == 'J' as u8 && whole {
            Terminal { rows: Seq::new(self.rows.len(), |i: int| blank), ..same }
        } else if last == 'M' as u8 && parameters.len() == 0 {
            Terminal { rows: self.rows.remove(self.row).push(blank), ..same }
        } else if last == 'L' as u8 && parameters.len() == 0 {
            Terminal { rows: self.rows.insert(self.row, blank).drop_last(), ..same }
        } else {
            same
        }
    }

    /// One byte.
    pub open spec fn after(self, byte: u8) -> Terminal {
        match self.parsing {
            Parsing::Ground => if byte == ESC {
                Terminal { parsing: Parsing::Escape, ..self }
            } else if printable(byte) {
                Terminal {
                    rows: self.rows.update(
                        self.row,
                        with_byte(self.rows[self.row], self.col, byte),
                    ),
                    col: self.col + 1,
                    ..self
                }
            } else {
                self
            },
            Parsing::Escape => if byte == '[' as u8 {
                Terminal { parsing: Parsing::Control { parameters: Seq::empty() }, ..self }
            } else {
                Terminal { parsing: Parsing::Ground, ..self }
            },
            Parsing::Control { parameters } => if is_parameter(byte) {
                Terminal {
                    parsing: Parsing::Control { parameters: parameters.push(byte) },
                    ..self
                }
            } else {
                self.commanded(parameters, byte)
            },
        }
    }

    /// Bytes, one after the other.
    pub open spec fn fed(self, written: Seq<u8>) -> Terminal
        decreases written.len(),
    {
        if written.len() == 0 {
            self
        } else {
            self.fed(written.drop_last()).after(written.last())
        }
    }
}

/// Bytes do the same in one piece and in two.
pub proof fn lemma_fed_two(t: Terminal, a: Seq<u8>, b: Seq<u8>)
    ensures
        t.fed(a + b) == t.fed(a).fed(b),
    decreases b.len(),
{
    if b.len() == 0 {
        assert(a + b =~= a);
    } else {
        assert((a + b).drop_last() =~= a + b.drop_last());
        lemma_fed_two(t, a, b.drop_last());
    }
}

proof fn lemma_fed_one(t: Terminal, byte: u8)
    ensures
        t.fed(seq![byte]) == t.after(byte),
{
    assert(seq![byte].drop_last() =~= Seq::<u8>::empty());
    assert(t.fed(Seq::<u8>::empty()) == t);
}

proof fn lemma_parameters(t: Terminal, parameters: Seq<u8>)
    requires
        t.parsing == (Parsing::Control { parameters: Seq::<u8>::empty() }),
        forall|i: int| 0 <= i < parameters.len() ==> is_parameter(#[trigger] parameters[i]),
    ensures
        t.fed(parameters) == (Terminal { parsing: Parsing::Control { parameters }, ..t }),
    decreases parameters.len(),
{
    if parameters.len() == 0 {
        assert(parameters =~= Seq::<u8>::empty());
    } else {
        let front = parameters.drop_last();
        assert forall|i: int| 0 <= i < front.len() implies is_parameter(#[trigger] front[i]) by {
            assert(front[i] == parameters[i]);
        }
        lemma_parameters(t, front);
        assert(is_parameter(parameters.last()));
        assert(front.push(parameters.last()) =~= parameters);
    }
}

/// A sequence does what its last byte asks for.
proof fn lemma_control(t: Terminal, parameters: Seq<u8>, last: u8)
    requires
        t.parsing == Parsing::Ground,
        forall|i: int| 0 <= i < parameters.len() ==> is_parameter(#[trigger] parameters[i]),
        !is_parameter(last),
    ensures
        t.fed(seq![ESC, '[' as u8] + parameters + seq![last]) == t.commanded(parameters, last),
{
    let begun = t.fed(seq![ESC, '[' as u8]);
    assert(seq![ESC, '[' as u8] =~= seq![ESC] + seq!['[' as u8]);
    lemma_fed_two(t, seq![ESC], seq!['[' as u8]);
    lemma_fed_one(t, ESC);
    lemma_fed_one(t.after(ESC), '[' as u8);
    lemma_parameters(begun, parameters);
    lemma_fed_two(t, seq![ESC, '[' as u8], parameters);
    lemma_fed_two(t, seq![ESC, '[' as u8] + parameters, seq![last]);
    lemma_fed_one(begun.fed(parameters), last);
}

/// The cursor goes where it is sent.
pub proof fn lemma_cursor_to(t: Terminal, row: int, col: int)
    requires
        t.parsing == Parsing::Ground,
        0 <= row,
        0 <= col,
    ensures
        t.fed(screen::cursor_to(row, col)) == (Terminal { row, col, ..t }),
{
    let first = decimal::digits((row + 1) as nat);
    let second = decimal::digits((col + 1) as nat);
    let parameters = first + seq![';' as u8] + second;
    decimal::decimal_reads_back((row + 1) as nat);
    decimal::decimal_reads_back((col + 1) as nat);
    assert forall|i: int| 0 <= i < parameters.len() implies is_parameter(
        #[trigger] parameters[i],
    ) by {
        if i < first.len() {
            assert(decimal::is_digit(first[i]));
        } else if i > first.len() {
            assert(decimal::is_digit(second[i - first.len() - 1]));
        }
    }
    assert forall|i: int| 0 <= i < first.len() implies parameters[i] != ';' as u8 by {
        assert(decimal::is_digit(first[i]));
    }
    bytes::lemma_first_at_is(parameters, ';' as u8, 0, first.len() as int);
    assert(parameters.take(first.len() as int) =~= first);
    assert(parameters.skip(first.len() as int + 1) =~= second);
    assert(screen::cursor_to(row, col) =~= seq![ESC, '[' as u8] + parameters + seq!['H' as u8]);
    lemma_control(t, parameters, 'H' as u8);
}

/// The cursor's row is blank.
pub proof fn lemma_erase_line(t: Terminal)
    requires
        t.parsing == Parsing::Ground,
    ensures
        t.fed(bytes::ascii(screen::ERASE_LINE@)) == (Terminal {
            rows: t.rows.update(t.row, Seq::<u8>::empty()),
            ..t
        }),
{
    reveal_strlit("\x1b[2K");
    let parameters = seq!['2' as u8];
    assert(bytes::ascii(screen::ERASE_LINE@) =~= seq![ESC, '[' as u8] + parameters
        + seq!['K' as u8]);
    lemma_control(t, parameters, 'K' as u8);
}

/// Every row is blank.
pub proof fn lemma_erase_screen(t: Terminal)
    requires
        t.parsing == Parsing::Ground,
    ensures
        t.fed(bytes::ascii(screen::ERASE_SCREEN@)) == (Terminal {
            rows: Seq::new(t.rows.len(), |i: int| Seq::<u8>::empty()),
            ..t
        }),
{
    reveal_strlit("\x1b[2J");
    let parameters = seq!['2' as u8];
    assert(bytes::ascii(screen::ERASE_SCREEN@) =~= seq![ESC, '[' as u8] + parameters
        + seq!['J' as u8]);
    lemma_control(t, parameters, 'J' as u8);
}

/// The cursor's row goes, those below it move up, and a blank one comes last.
pub proof fn lemma_delete_line(t: Terminal)
    requires
        t.parsing == Parsing::Ground,
    ensures
        t.fed(bytes::ascii("\x1b[M"@)) == (Terminal {
            rows: t.rows.remove(t.row).push(Seq::<u8>::empty()),
            ..t
        }),
{
    reveal_strlit("\x1b[M");
    let parameters = Seq::<u8>::empty();
    assert(bytes::ascii("\x1b[M"@) =~= seq![ESC, '[' as u8] + parameters + seq!['M' as u8]);
    lemma_control(t, parameters, 'M' as u8);
}

/// A blank row comes where the cursor is, those from there on move down, and
/// the last one goes.
pub proof fn lemma_insert_line(t: Terminal)
    requires
        t.parsing == Parsing::Ground,
    ensures
        t.fed(bytes::ascii("\x1b[L"@)) == (Terminal {
            rows: t.rows.insert(t.row, Seq::<u8>::empty()).drop_last(),
            ..t
        }),
{
    reveal_strlit("\x1b[L");
    let parameters = Seq::<u8>::empty();
    assert(bytes::ascii("\x1b[L"@) =~= seq![ESC, '[' as u8] + parameters + seq!['L' as u8]);
    lemma_control(t, parameters, 'L' as u8);
}

/// A sequence that has nothing to do with text and cursor leaves both alone.
pub proof fn lemma_passed_over(t: Terminal, parameters: Seq<u8>, last: u8, written: Seq<u8>)
    requires
        t.parsing == Parsing::Ground,
        forall|i: int| 0 <= i < parameters.len() ==> is_parameter(#[trigger] parameters[i]),
        last == 'm' as u8 || last == 'h' as u8,
        written == seq![ESC, '[' as u8] + parameters + seq![last],
    ensures
        t.fed(written) == t,
{
    lemma_control(t, parameters, last);
}

/// Text at the end of a row is put behind it.
pub proof fn lemma_text(t: Terminal, text: Seq<u8>)
    requires
        t.ready(),
        t.col == t.rows[t.row].len(),
        all_printable(text),
    ensures
        t.fed(text) == (Terminal {
            rows: t.rows.update(t.row, t.rows[t.row] + text),
            col: t.col + text.len(),
            ..t
        }),
    decreases text.len(),
{
    if text.len() == 0 {
        assert(t.rows[t.row] + text =~= t.rows[t.row]);
        assert(t.rows.update(t.row, t.rows[t.row]) =~= t.rows);
    } else {
        let front = text.drop_last();
        assert forall|i: int| 0 <= i < front.len() implies printable(#[trigger] front[i]) by {
            assert(front[i] == text[i]);
        }
        lemma_text(t, front);
        assert(printable(text.last()));
        let before = t.rows[t.row] + front;
        assert(with_byte(before, before.len() as int, text.last()) =~= t.rows[t.row] + text) by {
            assert(bytes::repeated(SPACE, 0) =~= Seq::<u8>::empty());
            assert(before + Seq::<u8>::empty() =~= before);
        }
        assert(t.fed(text).rows =~= t.rows.update(t.row, t.rows[t.row] + text));
    }
}

/// A row that is drawn shows its text, and the others stay.
pub proof fn lemma_row_drawn(t: Terminal, row: int, text: Seq<u8>)
    requires
        t.parsing == Parsing::Ground,
        0 <= row < t.rows.len(),
        all_printable(text),
    ensures
        t.fed(screen::cursor_to(row, 0) + bytes::ascii(screen::ERASE_LINE@) + text) == (Terminal {
            rows: t.rows.update(row, text),
            row,
            col: text.len() as int,
            ..t
        }),
{
    let there = screen::cursor_to(row, 0);
    let erase = bytes::ascii(screen::ERASE_LINE@);
    lemma_fed_two(t, there + erase, text);
    lemma_fed_two(t, there, erase);
    lemma_cursor_to(t, row, 0);
    let placed = t.fed(there);
    lemma_erase_line(placed);
    let blank = placed.fed(erase);
    lemma_text(blank, text);
    assert(blank.rows[row] + text =~= text);
    assert(blank.fed(text).rows =~= t.rows.update(row, text));
}

/// Two texts of such bytes are one.
pub proof fn lemma_printable_sum(a: Seq<u8>, b: Seq<u8>)
    requires
        all_printable(a),
        all_printable(b),
    ensures
        all_printable(a + b),
{
    assert forall|i: int| 0 <= i < (a + b).len() implies printable(#[trigger] (a + b)[i]) by {
        if i < a.len() {
            assert((a + b)[i] == a[i]);
        } else {
            assert((a + b)[i] == b[i - a.len()]);
        }
    }
}

/// A part of a text of such bytes is one.
pub proof fn lemma_printable_clip(text: Seq<u8>, cap: int)
    requires
        all_printable(text),
        0 <= cap,
    ensures
        all_printable(line::clip(text, cap)),
{
    let part = line::clip(text, cap);
    assert forall|i: int| 0 <= i < part.len() implies printable(#[trigger] part[i]) by {
        assert(part[i] == text[i]);
    }
}

/// What a cut leaves of such a text is one.
pub proof fn lemma_printable_cut(text: Seq<u8>, room: int)
    requires
        all_printable(text),
        0 <= room,
    ensures
        all_printable(chars::cut(text, room)),
{
    chars::lemma_cut(text, room);
    let part = chars::cut(text, room);
    assert forall|i: int| 0 <= i < part.len() implies printable(#[trigger] part[i]) by {
        assert(part[i] == text[i]);
    }
}

/// Digits stand for themselves.
pub proof fn lemma_printable_digits(n: nat)
    ensures
        all_printable(decimal::digits(n)),
{
    decimal::decimal_reads_back(n);
    assert forall|i: int| 0 <= i < decimal::digits(n).len() implies printable(
        #[trigger] decimal::digits(n)[i],
    ) by {
        assert(decimal::is_digit(decimal::digits(n)[i]));
    }
}

} // verus!
