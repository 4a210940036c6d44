//! Opening a file step by step: what the kernel is asked for next, and what its
//! answers come to.
use crate::bytes::{self, NEWLINE};
use crate::less::doc::{self, index_lines, Doc, Reading, INDEX_INITIAL, WORD};
use crate::less::session::{Failure, CHUNK};
use crate::zi::buffer::{self, REGION_LIMIT};
use vstd::prelude::*;

verus! {

/// What the kernel is asked for.
#[derive(Clone, Copy, PartialEq, Eq, Structural, Debug)]
pub enum Ask {
    /// The size of the file.
    Size,
    /// A region of so many bytes.
    Reserve(usize),
    /// The file's descriptor.
    Open,
    /// The next bytes of the file.
    Read(u64),
    /// To close the file.
    Close(u64),
    /// The region with so many bytes.
    Grow(usize),
    /// Nothing: the text is there, or cannot be had.
    Done,
}

/// What the kernel answers.
pub enum Answer {
    /// The size, or why there is none.
    Size(Result<u64, i64>),
    /// Whether the region was reserved.
    Reserved(bool),
    /// What opening the file gave.
    Opened(i64),
    /// What reading gave, and the bytes.
    Read(i64, Vec<u8>),
    /// The file is closed.
    Closed,
    /// Whether the region grew.
    Grown(bool),
}

/// How far the file is opened.
pub enum Progress {
    /// Nothing is known.
    Unknown,
    /// The size is known, and the room for the text by it.
    Sized { room: int },
    /// The region is there.
    Reserved { room: int },
    /// The file is open, and this much is read.
    Reading { fd: u64, file: Seq<u8>, room: int },
    /// All is read, or reading failed.
    Ended { fd: u64, file: Seq<u8>, room: int, failed: bool },
    /// The file is closed, and the index does not fit.
    Unindexed { file: Seq<u8>, room: int },
    /// The text is there.
    Ready { lines: Seq<Seq<u8>> },
    /// There is nothing to show.
    Failed { failure: Failure },
}

impl Progress {
    /// What the kernel is asked for.
    pub open spec fn asked(self) -> Ask {
        match self {
            Progress::Unknown => Ask::Size,
            Progress::Sized { room } => Ask::Reserve((room + INDEX_INITIAL * WORD) as usize),
            Progress::Reserved { .. } => Ask::Open,
            Progress::Reading { fd, .. } => Ask::Read(fd),
            Progress::Ended { fd, .. } => Ask::Close(fd),
            Progress::Unindexed { file, room } => Ask::Grow(
                (room + (doc::lines_of(file).len() + 1) * WORD) as usize,
            ),
            Progress::Ready { .. } => Ask::Done,
            Progress::Failed { .. } => Ask::Done,
        }
    }

    /// Whether an answer is one to what is asked.
    pub open spec fn suits(self, answer: Answer) -> bool {
        match self {
            Progress::Unknown => answer is Size,
            Progress::Sized { .. } => answer is Reserved,
            Progress::Reserved { .. } => answer is Opened,
            Progress::Reading { .. } => answer matches Answer::Read(got, chunk) && (got > 0
                ==> chunk@.len() == got <= CHUNK),
            Progress::Ended { .. } => answer is Closed,
            Progress::Unindexed { .. } => answer is Grown,
            Progress::Ready { .. } => false,
            Progress::Failed { .. } => false,
        }
    }

    /// What an answer comes to. A file that turns out to be longer than was said
    /// is not shown: what is seen would not be all of it.
    pub open spec fn advanced(self, answer: Answer) -> Progress {
        match (self, answer) {
            (Progress::Unknown, Answer::Size(size)) => {
                let room = doc::room_for(size);
                if room + INDEX_INITIAL * WORD <= REGION_LIMIT {
                    Progress::Sized { room }
                } else {
                    Progress::Failed { failure: Failure::Memory }
                }
            },
            (Progress::Sized { room }, Answer::Reserved(granted)) => if granted {
                Progress::Reserved { room }
            } else {
                Progress::Failed { failure: Failure::Memory }
            },
            (Progress::Reserved { room }, Answer::Opened(given)) => if given < 0 {
                Progress::Failed { failure: Failure::Open }
            } else {
                Progress::Reading { fd: given as u64, file: Seq::empty(), room }
            },
            (Progress::Reading { fd, file, room }, Answer::Read(got, chunk)) => if got == 0 {
                Progress::Ended { fd, file, room, failed: false }
            } else if got < 0 || file.len() + chunk@.len() >= room {
                Progress::Ended { fd, file, room, failed: true }
            } else {
                Progress::Reading { fd, file: file + chunk@, room }
            },
            (Progress::Ended { file, room, failed, .. }, Answer::Closed) => if failed {
                Progress::Failed { failure: Failure::Read }
            } else if doc::lines_of(file).len() + 1 > INDEX_INITIAL {
                Progress::Unindexed { file, room }
            } else {
                Progress::Ready { lines: doc::lines_of(file) }
            },
            (Progress::Unindexed { file, .. }, Answer::Grown(granted)) => if granted {
                Progress::Ready { lines: doc::lines_of(file) }
            } else {
                Progress::Failed { failure: Failure::Memory }
            },
            _ => self,
        }
    }

    /// What was read so far.
    pub open spec fn file(self) -> Seq<u8> {
        match self {
            Progress::Reading { file, .. } => file,
            Progress::Ended { file, .. } => file,
            Progress::Unindexed { file, .. } => file,
            _ => Seq::empty(),
        }
    }

    /// The descriptor that is open.
    pub open spec fn descriptor(self) -> Option<u64> {
        match self {
            Progress::Reading { fd, .. } => Some(fd),
            Progress::Ended { fd, .. } => Some(fd),
            _ => None,
        }
    }

    /// What was read fits the room for it, with a line feed more, and the room
    /// fits a heap.
    pub open spec fn wf(self) -> bool {
        let fits = |file: Seq<u8>, room: int|
            file.len() < room && room + INDEX_INITIAL * WORD <= REGION_LIMIT;
        match self {
            Progress::Sized { room } => fits(Seq::empty(), room),
            Progress::Reserved { room } => fits(Seq::empty(), room),
            Progress::Reading { file, room, .. } => fits(file, room),
            Progress::Ended { file, room, .. } => fits(file, room),
            Progress::Unindexed { file, room } => fits(file, room) && doc::lines_of(file).len() + 1
                > INDEX_INITIAL,
            Progress::Ready { lines } => lines.len() <= REGION_LIMIT,
            _ => true,
        }
    }

    /// How many answers there can still be, at most.
    pub open spec fn left(self) -> int {
        match self {
            Progress::Unknown => REGION_LIMIT + 6,
            Progress::Sized { .. } => REGION_LIMIT + 5,
            Progress::Reserved { .. } => REGION_LIMIT + 4,
            Progress::Reading { file, .. } => REGION_LIMIT - file.len() + 3,
            Progress::Ended { .. } => 2,
            Progress::Unindexed { .. } => 1,
            Progress::Ready { .. } => 0,
            Progress::Failed { .. } => 0,
        }
    }
}

/// A text has no more lines than bytes.
proof fn lemma_lines(text: Seq<u8>, from: int)
    requires
        0 <= from,
    ensures
        buffer::lines_from(text, from).len() <= (if from < text.len() {
            text.len() - from
        } else {
            0
        }),
    decreases text.len() - from,
{
    if from < text.len() {
        bytes::lemma_first_at(text, NEWLINE, from);
        let end = bytes::first_at(text, NEWLINE, from);
        if end < text.len() {
            lemma_lines(text, end + 1);
        }
    }
}

/// Every answer brings the end nearer: no file and no kernel keeps the pager
/// opening forever.
pub proof fn every_answer_brings_the_end_nearer(progress: Progress, answer: Answer)
    requires
        progress.wf(),
        progress.suits(answer),
    ensures
        progress.advanced(answer).wf(),
        0 <= progress.advanced(answer).left() < progress.left(),
{
    lemma_lines(doc::completed(progress.file()), 0);
}

/// A descriptor that was opened is closed before the opening ends, however it
/// ends; and it is the descriptor that all reads are from.
pub proof fn an_open_file_is_closed(progress: Progress, answer: Answer)
    requires
        progress.wf(),
        progress.suits(answer),
    ensures
        progress.descriptor() is Some ==> progress.advanced(answer).descriptor()
            == progress.descriptor() || progress.asked() == Ask::Close(progress.descriptor()->0),
        progress.asked() is Close ==> progress.advanced(answer).descriptor() is None,
        progress.asked() matches Ask::Read(fd) ==> progress.descriptor() == Some(fd),
        progress.asked() is Done ==> progress.descriptor() is None,
{
}

/// What the kernel read, by its answers.
pub open spec fn bytes_read(answers: Seq<Answer>) -> Seq<u8>
    decreases answers.len(),
{
    if answers.len() == 0 {
        Seq::empty()
    } else {
        bytes_read(answers.drop_last()) + (match answers.last() {
            Answer::Read(got, chunk) => if got > 0 {
                chunk@
            } else {
                Seq::empty()
            },
            _ => Seq::empty(),
        })
    }
}

/// How far a file is opened after some answers.
pub open spec fn progress_after(answers: Seq<Answer>) -> Progress
    decreases answers.len(),
{
    if answers.len() == 0 {
        Progress::Unknown
    } else {
        progress_after(answers.drop_last()).advanced(answers.last())
    }
}

/// Whether each answer is one to what was asked before it.
pub open spec fn to_the_point(answers: Seq<Answer>) -> bool
    decreases answers.len(),
{
    answers.len() > 0 ==> to_the_point(answers.drop_last()) && progress_after(
        answers.drop_last(),
    ).suits(answers.last())
}

/// A file is shown whole or not at all: the lines that are there in the end are
/// those of everything that was read.
pub proof fn shown_text_is_the_whole_file(answers: Seq<Answer>)
    requires
        to_the_point(answers),
    ensures
        progress_after(answers).wf(),
        match progress_after(answers) {
            Progress::Ended { file, failed, .. } => failed || file == bytes_read(answers),
            Progress::Ready { lines } => lines == doc::lines_of(bytes_read(answers)),
            Progress::Failed { .. } => true,
            progress => progress.file() == bytes_read(answers),
        },
    decreases answers.len(),
{
    if answers.len() > 0 {
        let before = answers.drop_last();
        shown_text_is_the_whole_file(before);
        every_answer_brings_the_end_nearer(progress_after(before), answers.last());
        assert(bytes_read(before) + Seq::<u8>::empty() =~= bytes_read(before));
    }
}

/// A file on its way into the pager.
pub enum Opening {
    Unknown,
    Sized { reading: Reading },
    Reserved { reading: Reading },
    Reading { fd: u64, reading: Reading },
    Ended { fd: u64, reading: Reading, failed: bool },
    Unindexed { reading: Reading },
    Ready { doc: Doc },
    Failed { failure: Failure },
}

impl Opening {
    /// How far it is.
    pub open spec fn view(&self) -> Progress {
        match *self {
            Opening::Unknown => Progress::Unknown,
            Opening::Sized { reading } => Progress::Sized { room: reading.room() },
            Opening::Reserved { reading } => Progress::Reserved { room: reading.room() },
            Opening::Reading { fd, reading } => Progress::Reading {
                fd,
                file: reading@,
                room: reading.room(),
            },
            Opening::Ended { fd, reading, failed } => Progress::Ended {
                fd,
                file: reading@,
                room: reading.room(),
                failed,
            },
            Opening::Unindexed { reading } => Progress::Unindexed {
                file: reading@,
                room: reading.room(),
            },
            Opening::Ready { doc } => Progress::Ready { lines: doc@ },
            Opening::Failed { failure } => Progress::Failed { failure },
        }
    }

    /// Every part is in order.
    pub open spec fn wf(&self) -> bool {
        &&& self@.wf()
        &&& match *self {
            Opening::Sized { reading } => reading.wf() && reading@ == Seq::<u8>::empty(),
            Opening::Reserved { reading } => reading.wf() && reading@ == Seq::<u8>::empty(),
            Opening::Reading { reading, .. } => reading.wf(),
            Opening::Ended { reading, .. } => reading.wf(),
            Opening::Unindexed { reading } => reading.wf(),
            Opening::Ready { doc } => doc.wf(),
            _ => true,
        }
    }

    /// The beginning.
    pub fn new() -> (opening: Opening)
        ensures
            opening.wf(),
            opening@ == Progress::Unknown,
    {
        Opening::Unknown
    }

    /// What the kernel is asked for.
    pub fn ask(&self) -> (ask: Ask)
        requires
            self.wf(),
        ensures
            ask == self@.asked(),
    {
        match self {
            Opening::Unknown => Ask::Size,
            Opening::Sized { reading } => Ask::Reserve(reading.region()),
            Opening::Reserved { .. } => Ask::Open,
            Opening::Reading { fd, .. } => Ask::Read(*fd),
            Opening::Ended { fd, .. } => Ask::Close(*fd),
            Opening::Unindexed { reading } => {
                proof {
                    lemma_lines(doc::completed(reading@), 0);
                }
                match reading.growth() {
                    Some(total) => Ask::Grow(total),
                    None => Ask::Done,
                }
            },
            Opening::Ready { .. } => Ask::Done,
            Opening::Failed { .. } => Ask::Done,
        }
    }

    /// Takes the kernel's answer.
    pub fn answer(self, answer: Answer) -> (next: Opening)
        requires
            self.wf(),
            self@.suits(answer),
        ensures
            next.wf(),
            next@ == self@.advanced(answer),
    {
        proof {
            every_answer_brings_the_end_nearer(self@, answer);
            lemma_lines(doc::completed(self@.file()), 0);
        }
        match (self, answer) {
            (Opening::Unknown, Answer::Size(size)) => {
                let known: u64 = match size {
                    Ok(size) => size,
                    Err(_) => 0,
                };
                if known > (REGION_LIMIT - 1 - INDEX_INITIAL * WORD) as u64 {
                    return Opening::Failed { failure: Failure::Memory };
                }
                Opening::Sized { reading: Reading::new(size) }
            },
            (Opening::Sized { reading }, Answer::Reserved(granted)) => {
                if granted {
                    Opening::Reserved { reading }
                } else {
                    Opening::Failed { failure: Failure::Memory }
                }
            },
            (Opening::Reserved { reading }, Answer::Opened(given)) => {
                if given < 0 {
                    Opening::Failed { failure: Failure::Open }
                } else {
                    Opening::Reading { fd: given as u64, reading }
                }
            },
            (Opening::Reading { fd, reading }, Answer::Read(got, chunk)) => {
                if got == 0 {
                    return Opening::Ended { fd, reading, failed: false };
                }
                let mut reading = reading;
                if got < 0 || !reading.accept(chunk.as_slice()) {
                    Opening::Ended { fd, reading, failed: true }
                } else {
                    Opening::Reading { fd, reading }
                }
            },
            (Opening::Ended { reading, failed, .. }, Answer::Closed) => {
                if failed {
                    return Opening::Failed { failure: Failure::Read };
                }
                if reading.growth().is_some() {
                    return Opening::Unindexed { reading };
                }
                match index_lines(reading, false) {
                    Some(doc) => Opening::Ready { doc },
                    None => Opening::Failed { failure: Failure::Memory },
                }
            },
            (Opening::Unindexed { reading }, Answer::Grown(granted)) => match index_lines(
                reading,
                granted,
            ) {
                Some(doc) => Opening::Ready { doc },
                None => Opening::Failed { failure: Failure::Memory },
            },
            (other, _) => other,
        }
    }

    /// The text, when nothing more is asked for, or why there is none.
    pub fn finish(self) -> (r: Result<Doc, Failure>)
        requires
            self.wf(),
            self@.asked() is Done,
        ensures
            match self@ {
                Progress::Ready { lines } => r matches Ok(doc) && doc.wf() && doc@ == lines
                    && lines.len() <= REGION_LIMIT,
                Progress::Failed { failure } => r == Err::<Doc, Failure>(failure),
                _ => true,
            },
    {
        match self {
            Opening::Ready { doc } => Ok(doc),
            Opening::Failed { failure } => Err(failure),
            _ => Err(Failure::Memory),
        }
    }
}

/// Opening a file fails only for a reason: no heap for it, a file that cannot be
/// opened, a read that failed or gave more than was said, or no memory for the
/// index. Whatever is read until then is kept.
pub proof fn opening_fails_only_for_a_reason(progress: Progress, answer: Answer)
    requires
        progress.wf(),
        progress.suits(answer),
    ensures
        match (progress, answer) {
            (Progress::Unknown, Answer::Size(size)) => {
                let room = doc::room_for(size);
                if room + 8 * 64 <= 0x7f_f000 {
                    progress.advanced(answer).asked() == Ask::Reserve((room + 8 * 64) as usize)
                } else {
                    progress.advanced(answer) == (Progress::Failed { failure: Failure::Memory })
                }
            },
            (Progress::Sized { .. }, Answer::Reserved(granted)) => if granted {
                progress.advanced(answer).asked() == Ask::Open
            } else {
                progress.advanced(answer) == (Progress::Failed { failure: Failure::Memory })
            },
            (Progress::Reserved { .. }, Answer::Opened(given)) => if given >= 0 {
                progress.advanced(answer).asked() == Ask::Read(given as u64)
                    && progress.advanced(answer).file().len() == 0
            } else {
                progress.advanced(answer) == (Progress::Failed { failure: Failure::Open })
            },
            (Progress::Reading { fd, file, room }, Answer::Read(got, chunk)) => if got > 0
                && file.len() + got < room {
                progress.advanced(answer).asked() == Ask::Read(fd) && progress.advanced(
                    answer,
                ).file() == file + chunk@
            } else {
                progress.advanced(answer).asked() == Ask::Close(fd) && progress.advanced(
                    answer,
                ).file() == file && progress.advanced(answer)->failed == (got != 0)
            },
            (Progress::Ended { file, room, failed, .. }, Answer::Closed) => if failed {
                progress.advanced(answer) == (Progress::Failed { failure: Failure::Read })
            } else if doc::lines_of(file).len() >= 64 {
                progress.advanced(answer).asked() == Ask::Grow(
                    (room + 8 * (doc::lines_of(file).len() + 1)) as usize,
                )
            } else {
                progress.advanced(answer) is Ready
            },
            (Progress::Unindexed { file, .. }, Answer::Grown(granted)) => if granted {
                progress.advanced(answer) is Ready
            } else {
                progress.advanced(answer) == (Progress::Failed { failure: Failure::Memory })
            },
            _ => false,
        },
{
}

} // verus!
