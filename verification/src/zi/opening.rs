//! Opening a file step by step: what the kernel is asked for next, and what its
//! answers come to.
use crate::zi::buffer::{
    self, index_lines, Buffer, Grants, Reading, INDEX_INITIAL, INDEX_STEP, REGION_LIMIT,
};
use crate::zi::memory::{self, first_region};
use crate::zi::session::{
    self, opened, Opened, CANNOT_OPEN, CANNOT_READ, CHUNK, NO_HEAP, OUT_OF_MEMORY,
};
use vstd::prelude::*;

verus! {

/// What the kernel is asked for.
#[derive(Clone, Copy, PartialEq, Eq, Structural, Debug)]
pub enum Ask {
    /// The size of the file.
    Size,
    /// A region of so many bytes.
    Reserve(usize),
    /// The file's descriptor.
    Open,
    /// The next bytes of the file.
    Read(u64),
    /// The region with so many bytes.
    Grow(usize),
    /// To close the file.
    Close(u64),
    /// Nothing: the text is there, or cannot be had.
    Done,
}

/// What the kernel answers.
pub enum Answer {
    /// The size; nothing where the file cannot be asked for it.
    Size(Option<u64>),
    /// Whether the region was reserved.
    Reserved(bool),
    /// What opening the file gave.
    Opened(i64),
    /// What reading gave, and the bytes.
    Read(i64, Vec<u8>),
    /// Whether the region grew.
    Grown(bool),
    /// The file is closed.
    Closed,
}

/// How far the file is opened.
pub enum Progress {
    /// Nothing is known.
    Unknown,
    /// The size is known.
    Sized { region: int, text_room: int },
    /// The region is there.
    Reserved { text_room: int },
    /// The file is open, and this much is read.
    Reading { fd: u64, file: Seq<u8>, text_room: int },
    /// The bytes that were read last do not fit.
    Full { fd: u64, file: Seq<u8>, text_room: int, chunk: Seq<u8> },
    /// All is read, or reading failed and the editor ends with a status.
    Ended { fd: u64, file: Seq<u8>, text_room: int, failure: Option<u64> },
    /// The file is closed, and the index does not fit.
    Unindexed { file: Seq<u8>, text_room: int },
    /// The text is there.
    Ready { lines: Seq<Seq<u8>>, text_room: int, index_room: int },
    /// The editor ends with a status.
    Failed { status: u64 },
}

/// The slots of the index that a file takes: one for each line, one for the end,
/// and some to go on typing.
pub open spec fn slots_for(file: Seq<u8>) -> int {
    buffer::lines_from(buffer::terminated(file), 0).len() + 1 + INDEX_STEP
}

/// A file that is closed: its text, where the index fits.
pub open spec fn indexed(file: Seq<u8>, text_room: int) -> Progress {
    if slots_for(file) > INDEX_INITIAL {
        Progress::Unindexed { file, text_room }
    } else {
        Progress::Ready {
            lines: buffer::lines_from(buffer::terminated(file), 0),
            text_room,
            index_room: INDEX_INITIAL as int,
        }
    }
}

impl Progress {
    /// What the kernel is asked for.
    pub open spec fn asked(self) -> Ask {
        match self {
            Progress::Unknown => Ask::Size,
            Progress::Sized { region, .. } => Ask::Reserve(region as usize),
            Progress::Reserved { .. } => Ask::Open,
            Progress::Reading { fd, .. } => Ask::Read(fd),
            Progress::Full { file, text_room, chunk, .. } => Ask::Grow(
                buffer::region_size(
                    buffer::text_wanted(text_room, (file.len() + chunk.len() + 1) as int),
                    INDEX_INITIAL as int,
                ) as usize,
            ),
            Progress::Ended { fd, .. } => Ask::Close(fd),
            Progress::Unindexed { file, text_room } => Ask::Grow(
                buffer::region_size(
                    text_room,
                    buffer::index_wanted(INDEX_INITIAL as int, slots_for(file)),
                ) as usize,
            ),
            Progress::Ready { .. } => Ask::Done,
            Progress::Failed { .. } => Ask::Done,
        }
    }

    /// Whether an answer is one to what is asked.
    pub open spec fn suits(self, answer: Answer) -> bool {
        match self {
            Progress::Unknown => answer is Size,
            Progress::Sized { .. } => answer is Reserved,
            Progress::Reserved { .. } => answer is Opened,
            Progress::Reading { .. } => answer matches Answer::Read(got, chunk) && (got > 0
                ==> chunk@.len() == got <= CHUNK),
            Progress::Full { .. } => answer is Grown,
            Progress::Ended { .. } => answer is Closed,
            Progress::Unindexed { .. } => answer is Grown,
            Progress::Ready { .. } => false,
            Progress::Failed { .. } => false,
        }
    }

    /// What an answer comes to.
    pub open spec fn advanced(self, answer: Answer) -> Progress {
        match (self, answer) {
            (Progress::Unknown, Answer::Size(size)) => {
                let text_room = memory::first_text_room(size.unwrap_or(0) as int);
                let region = buffer::region_size(text_room, INDEX_INITIAL as int);
                if region <= REGION_LIMIT {
                    Progress::Sized { region, text_room }
                } else {
                    Progress::Failed { status: NO_HEAP }
                }
            },
            (Progress::Sized { text_room, .. }, Answer::Reserved(granted)) => if granted {
                Progress::Reserved { text_room }
            } else {
                Progress::Failed { status: NO_HEAP }
            },
            (Progress::Reserved { text_room }, Answer::Opened(given)) => match session::opening(
                given,
            ) {
                Opened::Refused => Progress::Failed { status: CANNOT_OPEN },
                Opened::Absent => indexed(Seq::empty(), text_room),
                Opened::Descriptor(fd) => Progress::Reading { fd, file: Seq::empty(), text_room },
            },
            (Progress::Reading { fd, file, text_room }, Answer::Read(got, chunk)) => if got < 0 {
                Progress::Ended { fd, file, text_room, failure: Some(CANNOT_READ) }
            } else if got == 0 {
                Progress::Ended { fd, file, text_room, failure: None }
            } else if file.len() + chunk@.len() + 1 <= text_room {
                Progress::Reading { fd, file: file + chunk@, text_room }
            } else {
                Progress::Full { fd, file, text_room, chunk: chunk@ }
            },
            (Progress::Full { fd, file, text_room, chunk }, Answer::Grown(granted)) => {
                let needed = (file.len() + chunk.len() + 1) as int;
                if buffer::text_fits(text_room, INDEX_INITIAL as int, needed, granted) {
                    Progress::Reading {
                        fd,
                        file: file + chunk,
                        text_room: buffer::text_wanted(text_room, needed),
                    }
                } else {
                    Progress::Ended { fd, file, text_room, failure: Some(OUT_OF_MEMORY) }
                }
            },
            (Progress::Ended { file, text_room, failure, .. }, Answer::Closed) => match failure {
                Some(status) => Progress::Failed { status },
                None => indexed(file, text_room),
            },
            (Progress::Unindexed { file, text_room }, Answer::Grown(granted)) => {
                let slots = slots_for(file);
                if buffer::index_fits(text_room, INDEX_INITIAL as int, slots, granted) {
                    Progress::Ready {
                        lines: buffer::lines_from(buffer::terminated(file), 0),
                        text_room,
                        index_room: buffer::index_wanted(INDEX_INITIAL as int, slots),
                    }
                } else {
                    Progress::Failed { status: OUT_OF_MEMORY }
                }
            },
            _ => self,
        }
    }

    /// What was read so far.
    pub open spec fn file(self) -> Seq<u8> {
        match self {
            Progress::Reading { file, .. } => file,
            Progress::Full { file, .. } => file,
            Progress::Ended { file, .. } => file,
            Progress::Unindexed { file, .. } => file,
            _ => Seq::empty(),
        }
    }

    /// The descriptor that is open.
    pub open spec fn descriptor(self) -> Option<u64> {
        match self {
            Progress::Reading { fd, .. } => Some(fd),
            Progress::Full { fd, .. } => Some(fd),
            Progress::Ended { fd, .. } => Some(fd),
            _ => None,
        }
    }

    /// What was read fits the room for it, with a line feed more, and the room
    /// fits a heap.
    pub open spec fn wf(self) -> bool {
        let fits = |file: Seq<u8>, text_room: int|
            file.len() + 1 <= text_room && buffer::region_size(text_room, INDEX_INITIAL as int)
                <= REGION_LIMIT;
        match self {
            Progress::Sized { region, text_room } => fits(Seq::empty(), text_room) && region
                == buffer::region_size(text_room, INDEX_INITIAL as int),
            Progress::Reserved { text_room } => fits(Seq::empty(), text_room),
            Progress::Reading { file, text_room, .. } => fits(file, text_room),
            Progress::Full { file, text_room, chunk, .. } => fits(file, text_room) && 0
                < chunk.len() <= CHUNK && file.len() + chunk.len() + 1 > text_room,
            Progress::Ended { file, text_room, .. } => fits(file, text_room),
            Progress::Unindexed { file, text_room } => fits(file, text_room) && slots_for(file)
                > INDEX_INITIAL,
            _ => true,
        }
    }

    /// How many answers there can still be, at most.
    pub open spec fn left(self) -> int {
        match self {
            Progress::Unknown => 2 * REGION_LIMIT + 6,
            Progress::Sized { .. } => 2 * REGION_LIMIT + 5,
            Progress::Reserved { .. } => 2 * REGION_LIMIT + 4,
            Progress::Reading { file, .. } => 2 * (REGION_LIMIT - file.len()) + 3,
            Progress::Full { file, .. } => 2 * (REGION_LIMIT - file.len()) + 2,
            Progress::Ended { .. } => 2,
            Progress::Unindexed { .. } => 1,
            Progress::Ready { .. } => 0,
            Progress::Failed { .. } => 0,
        }
    }
}

/// Every answer brings the end nearer: no file and no kernel keeps the editor
/// opening forever.
pub proof fn every_answer_brings_the_end_nearer(progress: Progress, answer: Answer)
    requires
        progress.wf(),
        progress.suits(answer),
    ensures
        progress.advanced(answer).wf(),
        0 <= progress.advanced(answer).left() < progress.left(),
{
}

/// A descriptor that was opened is closed before the opening ends, however it
/// ends; and it is the descriptor that all reads are from.
pub proof fn an_open_file_is_closed(progress: Progress, answer: Answer)
    requires
        progress.wf(),
        progress.suits(answer),
    ensures
        progress.descriptor() is Some ==> progress.advanced(answer).descriptor()
            == progress.descriptor() || progress.asked() == Ask::Close(progress.descriptor()->0),
        progress.asked() is Close ==> progress.advanced(answer).descriptor() is None,
        progress.asked() matches Ask::Read(fd) ==> progress.descriptor() == Some(fd),
        progress.asked() is Done ==> progress.descriptor() is None,
{
}

/// What the kernel read, by its answers.
pub open spec fn bytes_read(answers: Seq<Answer>) -> Seq<u8>
    decreases answers.len(),
{
    if answers.len() == 0 {
        Seq::empty()
    } else {
        bytes_read(answers.drop_last()) + (match answers.last() {
            Answer::Read(got, chunk) => if got > 0 {
                chunk@
            } else {
                Seq::empty()
            },
            _ => Seq::empty(),
        })
    }
}

/// How far a file is opened after some answers.
pub open spec fn progress_after(answers: Seq<Answer>) -> Progress
    decreases answers.len(),
{
    if answers.len() == 0 {
        Progress::Unknown
    } else {
        progress_after(answers.drop_last()).advanced(answers.last())
    }
}

/// Whether each answer is one to what was asked before it.
pub open spec fn to_the_point(answers: Seq<Answer>) -> bool
    decreases answers.len(),
{
    answers.len() > 0 ==> to_the_point(answers.drop_last()) && progress_after(
        answers.drop_last(),
    ).suits(answers.last())
}

proof fn lemma_all_is_kept(answers: Seq<Answer>)
    requires
        to_the_point(answers),
    ensures
        progress_after(answers).wf(),
        match progress_after(answers) {
            Progress::Full { file, chunk, .. } => file + chunk == bytes_read(answers),
            Progress::Ended { file, failure, .. } => failure is None ==> file == bytes_read(
                answers,
            ),
            Progress::Ready { lines, .. } => lines == buffer::lines_from(
                buffer::terminated(bytes_read(answers)),
                0,
            ),
            Progress::Failed { .. } => true,
            progress => progress.file() == bytes_read(answers),
        },
    decreases answers.len(),
{
    if answers.len() > 0 {
        let before = answers.drop_last();
        lemma_all_is_kept(before);
        every_answer_brings_the_end_nearer(progress_after(before), answers.last());
        assert(bytes_read(before) + Seq::<u8>::empty() =~= bytes_read(before));
    }
}

/// The text that is opened is the file: whatever the size was said to be and
/// however the bytes came, saving it unchanged writes them back, with a line feed
/// supplied where the last line has none.
pub proof fn opened_text_is_the_file(answers: Seq<Answer>)
    requires
        to_the_point(answers),
    ensures
        progress_after(answers) matches Progress::Ready { lines, .. } ==> buffer::flat(lines)
            == buffer::terminated(bytes_read(answers)) && lines.len() > 0 && buffer::clean(lines),
{
    lemma_all_is_kept(answers);
    buffer::opened_file_saves_back(bytes_read(answers));
}

/// A file on its way into the editor.
pub enum Opening {
    Unknown,
    Sized { region: usize, text_room: usize },
    Reserved { reading: Reading },
    Reading { fd: u64, reading: Reading },
    Full { fd: u64, reading: Reading, chunk: Vec<u8> },
    Ended { fd: u64, reading: Reading, failure: Option<u64> },
    Unindexed { reading: Reading },
    Ready { buffer: Buffer },
    Failed { status: u64 },
}

impl Opening {
    /// How far it is.
    pub open spec fn view(&self) -> Progress {
        match *self {
            Opening::Unknown => Progress::Unknown,
            Opening::Sized { region, text_room } => Progress::Sized {
                region: region as int,
                text_room: text_room as int,
            },
            Opening::Reserved { reading } => Progress::Reserved { text_room: reading.text_room() },
            Opening::Reading { fd, reading } => Progress::Reading {
                fd,
                file: reading@,
                text_room: reading.text_room(),
            },
            Opening::Full { fd, reading, chunk } => Progress::Full {
                fd,
                file: reading@,
                text_room: reading.text_room(),
                chunk: chunk@,
            },
            Opening::Ended { fd, reading, failure } => Progress::Ended {
                fd,
                file: reading@,
                text_room: reading.text_room(),
                failure,
            },
            Opening::Unindexed { reading } => Progress::Unindexed {
                file: reading@,
                text_room: reading.text_room(),
            },
            Opening::Ready { buffer } => Progress::Ready {
                lines: buffer@,
                text_room: buffer.text_room(),
                index_room: buffer.index_room(),
            },
            Opening::Failed { status } => Progress::Failed { status },
        }
    }

    /// Every part is in order.
    pub open spec fn wf(&self) -> bool {
        let proper = |reading: Reading| reading.wf() && reading.index_room() == INDEX_INITIAL;
        &&& self@.wf()
        &&& match *self {
            Opening::Reserved { reading } => proper(reading) && reading@ == Seq::<u8>::empty(),
            Opening::Reading { reading, .. } => proper(reading),
            Opening::Full { reading, .. } => proper(reading),
            Opening::Ended { reading, .. } => proper(reading),
            Opening::Unindexed { reading } => proper(reading),
            Opening::Ready { buffer } => buffer.wf() && buffer::clean(buffer@),
            _ => true,
        }
    }

    /// The beginning.
    pub fn new() -> (opening: Opening)
        ensures
            opening.wf(),
            opening@ == Progress::Unknown,
    {
        Opening::Unknown
    }

    /// What the kernel is asked for.
    pub fn ask(&self) -> (ask: Ask)
        requires
            self.wf(),
        ensures
            ask == self@.asked(),
    {
        match self {
            Opening::Unknown => Ask::Size,
            Opening::Sized { region, .. } => Ask::Reserve(*region),
            Opening::Reserved { .. } => Ask::Open,
            Opening::Reading { fd, .. } => Ask::Read(*fd),
            Opening::Full { reading, chunk, .. } => match reading.text_growth(chunk.len()) {
                Some(total) => Ask::Grow(total),
                None => Ask::Done,
            },
            Opening::Ended { fd, .. } => Ask::Close(*fd),
            Opening::Unindexed { reading } => match reading.index_growth() {
                Some(total) => Ask::Grow(total),
                None => Ask::Done,
            },
            Opening::Ready { .. } => Ask::Done,
            Opening::Failed { .. } => Ask::Done,
        }
    }

    /// A file that is closed, or that there was none of.
    fn index(reading: Reading) -> (next: Opening)
        requires
            reading.wf(),
            reading.index_room() == INDEX_INITIAL,
            reading@.len() + 1 <= reading.text_room(),
        ensures
            next.wf(),
            next@ == indexed(reading@, reading.text_room()),
    {
        proof {
            buffer::lemma_reading_room(reading);
        }
        match reading.index_growth() {
            Some(_) => Opening::Unindexed { reading },
            None => match index_lines(reading, Grants { text: false, index: false }) {
                Some(buffer) => Opening::Ready { buffer },
                None => Opening::Failed { status: OUT_OF_MEMORY },
            },
        }
    }

    /// Takes the kernel's answer.
    pub fn answer(self, answer: Answer) -> (next: Opening)
        requires
            self.wf(),
            self@.suits(answer),
        ensures
            next.wf(),
            next@ == self@.advanced(answer),
    {
        proof {
            every_answer_brings_the_end_nearer(self@, answer);
        }
        match (self, answer) {
            (Opening::Unknown, Answer::Size(size)) => {
                let size: u64 = match size {
                    Some(size) => size,
                    None => 0,
                };
                match first_region(size) {
                    Some((region, text_room)) => Opening::Sized { region, text_room },
                    None => Opening::Failed { status: NO_HEAP },
                }
            },
            (Opening::Sized { region, text_room }, Answer::Reserved(granted)) => {
                if !granted {
                    return Opening::Failed { status: NO_HEAP };
                }
                match Reading::new(region, text_room, INDEX_INITIAL) {
                    Some(reading) => Opening::Reserved { reading },
                    None => Opening::Failed { status: NO_HEAP },
                }
            },
            (Opening::Reserved { reading }, Answer::Opened(given)) => match opened(given) {
                Opened::Refused => Opening::Failed { status: CANNOT_OPEN },
                Opened::Absent => Opening::index(reading),
                Opened::Descriptor(fd) => Opening::Reading { fd, reading },
            },
            (Opening::Reading { fd, reading }, Answer::Read(got, chunk)) => {
                if got < 0 {
                    return Opening::Ended { fd, reading, failure: Some(CANNOT_READ) };
                }
                if got == 0 {
                    return Opening::Ended { fd, reading, failure: None };
                }
                if reading.text_growth(chunk.len()).is_some() {
                    return Opening::Full { fd, reading, chunk };
                }
                let mut reading = reading;
                reading.accept(chunk.as_slice(), false);
                Opening::Reading { fd, reading }
            },
            (Opening::Full { fd, reading, chunk }, Answer::Grown(granted)) => {
                let mut reading = reading;
                if reading.accept(chunk.as_slice(), granted) {
                    Opening::Reading { fd, reading }
                } else {
                    Opening::Ended { fd, reading, failure: Some(OUT_OF_MEMORY) }
                }
            },
            (Opening::Ended { reading, failure, .. }, Answer::Closed) => match failure {
                Some(status) => Opening::Failed { status },
                None => Opening::index(reading),
            },
            (Opening::Unindexed { reading }, Answer::Grown(granted)) => match index_lines(
                reading,
                Grants { text: false, index: granted },
            ) {
                Some(buffer) => Opening::Ready { buffer },
                None => Opening::Failed { status: OUT_OF_MEMORY },
            },
            (other, _) => other,
        }
    }

    /// The text, when nothing more is asked for, or the status that the editor
    /// ends with.
    pub fn finish(self) -> (r: Result<Buffer, u64>)
        requires
            self.wf(),
            self@.asked() is Done,
        ensures
            match self@ {
                Progress::Ready { lines, text_room, index_room } => r matches Ok(buffer)
                    && buffer.wf() && buffer::clean(buffer@) && buffer@ == lines
                    && buffer.text_room() == text_room && buffer.index_room() == index_room,
                Progress::Failed { status } => r == Err::<Buffer, u64>(status),
                _ => true,
            },
    {
        match self {
            Opening::Ready { buffer } => Ok(buffer),
            Opening::Failed { status } => Err(status),
            _ => Err(OUT_OF_MEMORY),
        }
    }
}

/// Opening a file fails only for a reason: no heap for it, a file that is there
/// and cannot be opened, a read that failed, or no memory for more of it. A file
/// that is not there is a new one, and is opened as an empty line.
pub proof fn opening_fails_only_for_a_reason(progress: Progress, answer: Answer)
    requires
        progress.wf(),
        progress.suits(answer),
    ensures
        match (progress, answer) {
            (Progress::Unknown, Answer::Size(size)) => {
                let bytes = match size {
                    Some(size) => size as int,
                    None => 0,
                };
                let room = (2 * bytes + 1 + 4096 + 7) / 8 * 8;
                if room + 8 * 65 <= 0x7f_f000 {
                    progress.advanced(answer).asked() == Ask::Reserve((room + 8 * 65) as usize)
                } else {
                    progress.advanced(answer) == (Progress::Failed { status: 6 })
                }
            },
            (Progress::Sized { .. }, Answer::Reserved(granted)) => if granted {
                progress.advanced(answer).asked() is Open
            } else {
                progress.advanced(answer) == (Progress::Failed { status: 6 })
            },
            (Progress::Reserved { .. }, Answer::Opened(given)) => if given >= 0 {
                progress.advanced(answer).asked() == Ask::Read(given as u64)
                    && progress.advanced(answer).file().len() == 0
            } else if given == -2 {
                progress.advanced(answer) matches Progress::Unindexed { file, .. } && file.len()
                    == 0
            } else {
                progress.advanced(answer) == (Progress::Failed { status: 1 })
            },
            (Progress::Reading { fd, file, .. }, Answer::Read(got, chunk)) => if got > 0 {
                progress.advanced(answer) matches Progress::Reading { file: all, .. } && all == file
                    + chunk@ || progress.advanced(answer) is Full
            } else {
                progress.advanced(answer) matches Progress::Ended { fd: same, file: all, failure, .. }
                    && same == fd && all == file && failure == (if got < 0 {
                    Some(3u64)
                } else {
                    None
                })
            },
            (Progress::Full { fd, file, text_room, chunk }, Answer::Grown(granted)) => {
                let room = if file.len() + chunk.len() + 1 > text_room + 4096 {
                    file.len() as int + chunk.len() + 1
                } else {
                    text_room + 4096
                };
                if granted && (room + 7) / 8 * 8 + 8 * 65 <= 0x7f_f000 {
                    progress.advanced(answer) matches Progress::Reading { file: all, .. } && all
                        == file + chunk
                } else {
                    progress.advanced(answer) matches Progress::Ended { failure, .. } && failure
                        == Some(4u64)
                }
            },
            (Progress::Ended { failure, .. }, Answer::Closed) => match failure {
                Some(status) => progress.advanced(answer) == (Progress::Failed { status }),
                None => !(progress.advanced(answer) is Failed),
            },
            (Progress::Unindexed { text_room, .. }, Answer::Grown(granted)) => !granted
                ==> progress.advanced(answer) == (Progress::Failed { status: 4 }),
            _ => true,
        },
{
    if progress is Reserved {
        buffer::an_empty_file_is_one_empty_line();
    }
}

/// More memory is asked for by what is missing: where the text is full, for a
/// page more or for as much as the file needs, in whole words; where the index is
/// short, for a slot for each line, one for the end, and some to go on typing.
pub proof fn memory_is_asked_for_by_what_is_missing(progress: Progress)
    requires
        progress.wf(),
    ensures
        match progress {
            Progress::Full { file, text_room, chunk, .. } => {
                let needed = file.len() as int + chunk.len() + 1;
                let room = if needed > text_room + 4096 {
                    needed
                } else {
                    text_room + 4096
                };
                progress.asked() == Ask::Grow(((room + 7) / 8 * 8 + 8 * 65) as usize)
            },
            Progress::Unindexed { file, text_room } => {
                let lines = buffer::lines_from(buffer::terminated(file), 0).len() as int;
                let slots = if lines + 65 > 129 {
                    lines + 65
                } else {
                    129
                };
                progress.asked() == Ask::Grow((text_room + 8 * slots) as usize)
            },
            _ => true,
        },
{
}

} // verus!
