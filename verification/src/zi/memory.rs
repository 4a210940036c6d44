//! The memory that the editor asks the kernel for: for a file that is opened,
//! and before a byte is typed that does not fit.
use crate::bytes::{BACKSPACE, ESC, NEWLINE};
use crate::zi::buffer::{self, text_capacity_for, Grants, INDEX_INITIAL, REGION_LIMIT, WORD};
use crate::zi::draw::Mode;
use crate::zi::editor::{Editor, Escape, Model};
use vstd::prelude::*;

verus! {

/// How much room the text of a file of `size` bytes gets.
pub open spec fn first_text_room(size: int) -> int {
    buffer::whole_words(2 * size + 1 + buffer::TEXT_SLACK)
}

/// The region that a file of `size` bytes is opened in, and how much of it is for
/// the text; nothing where no heap has room for it.
pub fn first_region(size: u64) -> (r: Option<(usize, usize)>)
    ensures
        ({
            let text_cap = first_text_room(size as int);
            let region = buffer::region_size(text_cap, INDEX_INITIAL as int);
            &&& r is Some <==> region <= REGION_LIMIT
            &&& r matches Some((total, text)) ==> total == region && text == text_cap
        }),
{
    if size > REGION_LIMIT as u64 {
        return None;
    }
    let text_cap: usize = text_capacity_for(size as usize);
    let region: usize = text_cap + INDEX_INITIAL * WORD;
    if region > REGION_LIMIT {
        None
    } else {
        Some((region, text_cap))
    }
}

impl Model {
    /// Whether a byte is put into the text.
    pub open spec fn puts(self, byte: u8) -> bool {
        self.mode == Mode::Insert && self.escape == Escape::Idle && byte != BACKSPACE && byte
            != ESC
    }

    /// Whether the text needs more memory for a byte.
    pub open spec fn text_short(self, byte: u8) -> bool {
        self.puts(byte) && self.size() + 1 > self.text_room
    }

    /// Whether the index needs more memory for a byte, when it is known whether
    /// the text got what it needs.
    pub open spec fn index_short(self, byte: u8, granted: bool) -> bool {
        &&& self.puts(byte)
        &&& byte == NEWLINE
        &&& buffer::text_fits(self.text_room, self.index_room, self.size() + 1, granted)
        &&& self.lines.len() + 2 > self.index_room
    }
}

impl Editor {
    /// The size of region to ask the kernel for before a byte, where the text
    /// needs more.
    pub fn text_wanted(&self, byte: u8) -> (total: Option<usize>)
        requires
            self.wf(),
        ensures
            total is Some <==> self@.text_short(byte),
            total matches Some(size) ==> size == buffer::region_size(
                buffer::text_wanted(self@.text_room, self@.size() + 1),
                self@.index_room,
            ),
    {
        if self.mode != Mode::Insert || self.escape != Escape::Idle || byte == BACKSPACE || byte
            == ESC {
            return None;
        }
        proof {
            buffer::buffer_is_its_lines(self.buffer);
        }
        self.buffer.text_growth()
    }

    /// The size of region to ask the kernel for before a byte, where the index
    /// needs more; `granted` is what was answered for the text.
    pub fn index_wanted(&self, byte: u8, granted: bool) -> (total: Option<usize>)
        requires
            self.wf(),
        ensures
            total is Some <==> self@.index_short(byte, granted),
            total matches Some(size) ==> size == buffer::region_size(
                buffer::text_cap_after(
                    self@.text_room,
                    self@.index_room,
                    self@.size() + 1,
                    granted,
                ),
                buffer::index_wanted(self@.index_room, self@.lines.len() as int + 2),
            ),
    {
        if self.mode != Mode::Insert || self.escape != Escape::Idle || byte != NEWLINE {
            return None;
        }
        proof {
            buffer::buffer_is_its_lines(self.buffer);
            buffer::lemma_rooms(self.buffer);
        }
        let (text_cap, index_cap): (usize, usize) = self.buffer.capacities();
        match self.buffer.text_growth() {
            None => self.buffer.index_growth(text_cap),
            Some(total) => {
                if !granted || total > REGION_LIMIT {
                    return None;
                }
                self.buffer.index_growth(total - index_cap * WORD)
            },
        }
    }
}

/// What the kernel would grant counts only where it is asked: where nothing more
/// is needed, a byte does the same whatever the grants.
pub proof fn grants_count_only_where_asked(
    model: Model,
    rows: int,
    path: Seq<u8>,
    byte: u8,
    grants: Grants,
    text: bool,
    index: bool,
)
    ensures
        !model.text_short(byte) ==> model.key(rows, path, byte, grants) == model.key(
            rows,
            path,
            byte,
            Grants { text, ..grants },
        ),
        !model.index_short(byte, grants.text) ==> model.key(rows, path, byte, grants) == model.key(
            rows,
            path,
            byte,
            Grants { index, ..grants },
        ),
{
    reveal(Model::typed);
}

} // verus!
