//! The editor's turns: what it does before it waits for a key, and with what the
//! keyboard then answers.
use crate::bytes;
use crate::screen::{self, leave_screen};
use crate::userlib::{self, Echo, MINUS_EAGAIN, ZDIAG_LEN};
use crate::zi::buffer::{self, Buffer, Grants};
use crate::zi::draw::{self, Layout};
use crate::zi::editor::{Editor, Effect, Escape, Model, Outcome};
use vstd::prelude::*;

verus! {

/// What the keyboard's answer to a read of one byte comes to: without a byte
/// that may still come, the editor pauses; without a keyboard it leaves the
/// screen; and else the byte is a key.
pub open spec fn turned(
    model: Model,
    rows: int,
    path: Seq<u8>,
    got: i64,
    byte: u8,
    grants: Grants,
) -> Effect {
    if got == MINUS_EAGAIN {
        model.paused(rows, path)
    } else if got <= 0 {
        Effect { model, drawn: bytes::ascii(screen::LEAVE_SCREEN@), changed: false }
    } else {
        model.key(rows, path, byte, grants)
    }
}

/// What the caller has to do after the keyboard's answer.
pub open spec fn outcome_of(model: Model, got: i64, byte: u8) -> Outcome {
    if got == MINUS_EAGAIN {
        Outcome::Continue
    } else if got <= 0 {
        Outcome::Quit
    } else {
        model.outcome(byte)
    }
}

/// The editor, and the line of the kernel that it shows.
pub struct Session {
    pub editor: Editor,
    pub echo: Echo,
}

impl Session {
    /// The editor is in order.
    pub open spec fn wf(&self) -> bool {
        self.editor.wf()
    }

    /// Enters the screen with a text that was read.
    pub fn open(buffer: Buffer, layout: Layout, out: &mut Vec<u8>) -> (session: Session)
        requires
            buffer.wf(),
            buffer::clean(buffer@),
            layout.wf(),
        ensures
            session.wf(),
            session.editor.layout == layout,
            session.echo@ == Seq::<u8>::empty(),
            session.editor@ == Model::begun(
                buffer@,
                buffer.text_room(),
                buffer.index_room(),
            ),
            final(out)@ == old(out)@ + bytes::ascii(screen::ENTER_SCREEN@) + draw::redrawn(
                layout.rows as int,
                layout.path@,
                buffer@,
                0,
                session.editor@.status(false, Seq::empty()),
            ),
    {
        Session { editor: Editor::open(buffer, layout, out), echo: Echo::new() }
    }

    /// Before a byte is read: shows the mode where it changed, then the line that
    /// the kernel kept for the user, where there is a new one.
    pub fn before_read(&mut self, answer: i64, raw: &[u8], out: &mut Vec<u8>)
        requires
            old(self).wf(),
            raw@.len() == ZDIAG_LEN,
        ensures
            final(self).wf(),
            final(self).editor.same_screen(&old(self).editor),
            ({
                let rows = old(self).editor.rows();
                let path = old(self).editor.path();
                let effect = old(self).editor@.mode_shown(rows, path);
                let heard = userlib::tells_line(answer, raw@);
                let line = userlib::kept_text(raw@);
                &&& final(self).editor@ == effect.model
                &&& final(self).echo@ == (if heard {
                    line
                } else {
                    old(self).echo@
                })
                &&& final(out)@ == old(out)@ + effect.drawn + (if heard {
                    effect.model.noticed(rows, path, line)
                } else {
                    Seq::empty()
                })
            }),
    {
        self.editor.show_mode(out);
        let ghost shown = out@;
        if self.echo.take(answer, raw) {
            self.editor.notice(self.echo.line(), out);
        } else {
            assert(out@ =~= shown + Seq::<u8>::empty());
        }
    }

    /// Takes the keyboard's answer to a read of one byte. A key ends the showing
    /// of the kernel's line.
    pub fn heard(&mut self, got: i64, byte: u8, grants: Grants, out: &mut Vec<u8>) -> (outcome:
        Outcome)
        requires
            old(self).wf(),
        ensures
            final(self).wf(),
            final(self).editor.same_screen(&old(self).editor),
            outcome == outcome_of(old(self).editor@, got, byte),
            final(self).echo@ == (if got > 0 {
                Seq::<u8>::empty()
            } else {
                old(self).echo@
            }),
            ({
                let effect = turned(
                    old(self).editor@,
                    old(self).editor.rows(),
                    old(self).editor.path(),
                    got,
                    byte,
                    grants,
                );
                final(self).editor@ == effect.model && final(out)@ == old(out)@ + effect.drawn
            }),
    {
        if got == MINUS_EAGAIN {
            self.editor.pause(out);
            return Outcome::Continue;
        }
        if got <= 0 {
            leave_screen(out);
            return Outcome::Quit;
        }
        self.echo.clear();
        self.editor.key(byte, grants, out)
    }
}

/// Waiting changes nothing but an escape that nothing followed: however often no
/// byte is there, the text stays, the editor goes on, and a second pause does
/// nothing more.
pub proof fn waiting_keeps_the_text(model: Model, rows: int, path: Seq<u8>, grants: Grants)
    requires
        model.wf(),
    ensures
        ({
            let once = turned(model, rows, path, MINUS_EAGAIN, 0, grants);
            let twice = turned(once.model, rows, path, MINUS_EAGAIN, 0, grants);
            &&& once.model.lines == model.lines
            &&& once.model.dirty == model.dirty
            &&& once.model.escape != Escape::Esc
            &&& twice.model == once.model
            &&& twice.drawn == Seq::<u8>::empty()
            &&& outcome_of(model, MINUS_EAGAIN, 0) == Outcome::Continue
        }),
{
}

/// What the keyboard answers decides the turn: no byte yet is a pause, a keyboard
/// that is gone ends the editor and leaves the screen with the text as it is, and
/// a byte is a key.
pub proof fn the_keyboard_decides_the_turn(
    model: Model,
    rows: int,
    path: Seq<u8>,
    got: i64,
    byte: u8,
    grants: Grants,
)
    ensures
        ({
            let turn = turned(model, rows, path, got, byte, grants);
            let outcome = outcome_of(model, got, byte);
            &&& got == -11 ==> outcome == Outcome::Continue && turn == model.paused(rows, path)
            &&& got == -11 && model.escape != Escape::Esc ==> turn.model == model
                && turn.drawn.len() == 0
            &&& got <= 0 && got != -11 ==> outcome == Outcome::Quit && turn.model == model
                && turn.drawn == bytes::ascii("\x1b[?1049l"@) && !turn.changed
            &&& got > 0 ==> outcome == model.outcome(byte) && turn == model.key(
                rows,
                path,
                byte,
                grants,
            )
        }),
{
}

} // verus!
