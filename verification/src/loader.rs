//! Loading a program step by step: what the kernel is asked for next, and what
//! its answers come to.
use crate::bytes::{self, copy_of};
use crate::spawn::load_user_program;
use crate::startup::{self, PAGE};
use crate::userland::{
    self, count_shared, load_user_program_into, page_number, plan_page, stack_page,
    AddressSpaceError, ElfError, Loaded, PageAnswer, PageLoad, Planned, Program, Segment,
    UserLoadError, Walked, LAST_PAGE, RECORDED_PAGES, USER_PROGRAM_STACK_TOP,
};
use vstd::prelude::*;

verus! {

/// What the kernel is asked for.
#[derive(Debug)]
pub enum Ask {
    /// A frame of memory.
    Frame,
    /// To fill the frame that was taken last, and to map it.
    MapPage { page: u64, writable: bool, content: Vec<u8> },
    /// To give back the frame that could not be mapped.
    GiveBack,
    /// To fill the frame that was mapped last: it is the stack.
    FillStack { content: Vec<u8> },
    /// To look a page up in the page tables.
    Walk { page: u64 },
    /// Nothing: the load is over.
    Done,
}

/// The same in mathematical terms.
pub enum Asked {
    Frame,
    MapPage { page: int, writable: bool, content: Seq<u8> },
    GiveBack,
    FillStack,
    Walk { page: int },
    Done,
}

/// What the kernel answers.
#[derive(Debug, Clone, Copy)]
pub enum Answer {
    /// Whether there was a frame.
    Frame(bool),
    /// Whether it was mapped.
    Mapped(Result<(), AddressSpaceError>),
    /// What the page tables have of a page.
    Walked(Walked),
    /// It was done.
    Done,
}

/// What is to be loaded: a program, or why there is none, with its arguments and
/// its environment.
pub struct Job {
    pub program: Result<Program, ElfError>,
    pub args: Seq<Seq<u8>>,
    pub env: Seq<Seq<u8>>,
}

impl Job {
    /// The segments of the program.
    pub open spec fn segments(self) -> Seq<Segment> {
        match self.program {
            Ok(program) => program.segments@,
            Err(_) => Seq::empty(),
        }
    }

    /// Every segment is one that can be loaded.
    pub open spec fn wf(self) -> bool {
        forall|i: int| 0 <= i < self.segments().len() ==> (#[trigger] self.segments()[i]).wf()
    }

    /// The pages of the program, as far as its file can be read.
    pub open spec fn pages(self) -> Seq<Planned> {
        userland::planned(self.segments(), userland::readable(self.segments(), 0))
    }

    /// Whether all of its file can be read.
    pub open spec fn complete(self) -> bool {
        userland::readable(self.segments(), 0) >= self.segments().len()
    }

    /// The page `i` to be mapped: those of the program, then the stack.
    pub open spec fn page_at(self, i: int) -> int {
        if i < self.pages().len() {
            self.pages()[i].page
        } else {
            USER_PROGRAM_STACK_TOP - PAGE
        }
    }

    /// The mapping of the page `i`. The stack is mapped before it is filled.
    pub open spec fn mapping(self, i: int) -> Asked {
        if i < self.pages().len() {
            let page = self.pages()[i];
            Asked::MapPage { page: page.page, writable: page.writable, content: page.content }
        } else {
            Asked::MapPage {
                page: self.page_at(i),
                writable: true,
                content: bytes::repeated(0, PAGE as int),
            }
        }
    }
}

/// How far a load has come: what was answered for each page, what was found of
/// the recorded ones, whether a frame was taken and not mapped yet, and whether
/// one was given back and the stack filled.
pub struct Progress {
    pub answers: Seq<PageAnswer>,
    pub walked: Seq<Walked>,
    pub holding: bool,
    pub returned: bool,
    pub filled: bool,
}

impl Progress {
    /// The beginning.
    pub open spec fn none() -> Progress {
        Progress {
            answers: Seq::empty(),
            walked: Seq::empty(),
            holding: false,
            returned: false,
            filled: false,
        }
    }

    /// What went wrong with the page that was answered for last, if anything.
    pub open spec fn failure(self, job: Job) -> Option<UserLoadError> {
        if self.answers.len() == 0 {
            None
        } else {
            userland::page_failure(job.page_at(self.answers.len() - 1), self.answers.last())
        }
    }

    /// Whether a page is to be mapped next.
    pub open spec fn mapping(self, job: Job) -> bool {
        job.program is Ok && self.failure(job) is None && (self.answers.len() < job.pages().len()
            || self.answers.len() == job.pages().len() && job.complete())
    }

    /// What the kernel is asked for next. Pages come one after the other, each
    /// with a frame of its own, and the stack behind those of the program; the
    /// first thing that goes wrong ends it. A frame of the program that could not
    /// be mapped goes back: it is in no address space, and nothing else would
    /// give it back. The recorded pages are looked up when all are mapped.
    pub open spec fn asked(self, job: Job) -> Asked {
        if job.program is Err {
            Asked::Done
        } else if let Some(error) = self.failure(job) {
            if error is Mapping && self.answers.len() <= job.pages().len() && !self.returned {
                Asked::GiveBack
            } else {
                Asked::Done
            }
        } else if self.mapping(job) {
            if self.holding {
                job.mapping(self.answers.len() as int)
            } else {
                Asked::Frame
            }
        } else if !job.complete() || !startup::fits(job.args, job.env) {
            Asked::Done
        } else if !self.filled {
            Asked::FillStack
        } else if self.walked.len() < userland::recorded(job.pages()) {
            Asked::Walk { page: job.page_at(self.walked.len() as int) }
        } else {
            Asked::Done
        }
    }

    /// Whether an answer is one to what is asked for. The last page of all is
    /// mapped for no program.
    pub open spec fn suits(self, job: Job, answer: Answer) -> bool {
        match self.asked(job) {
            Asked::Frame => answer is Frame,
            Asked::MapPage { page, .. } => answer matches Answer::Mapped(mapped) && (page
                == LAST_PAGE ==> mapped is Err),
            Asked::GiveBack => answer is Done,
            Asked::FillStack => answer is Done,
            Asked::Walk { .. } => answer is Walked,
            Asked::Done => false,
        }
    }

    /// How far the load is after an answer. A frame for a page that no address
    /// has is not mapped.
    pub open spec fn advanced(self, job: Job, answer: Answer) -> Progress {
        match answer {
            Answer::Frame(frame) => if frame && userland::is_canonical(
                job.page_at(self.answers.len() as int),
            ) {
                Progress { holding: true, ..self }
            } else {
                Progress { answers: self.answers.push(PageAnswer { frame, mapped: Ok(()) }), ..self }
            },
            Answer::Mapped(mapped) => Progress {
                answers: self.answers.push(PageAnswer { frame: true, mapped }),
                holding: false,
                ..self
            },
            Answer::Walked(walked) => Progress { walked: self.walked.push(walked), ..self },
            Answer::Done => if self.asked(job) is GiveBack {
                Progress { returned: true, ..self }
            } else {
                Progress { filled: true, ..self }
            },
        }
    }

    /// Nothing went wrong before the last answer, and no more was answered for
    /// than was asked.
    pub open spec fn wf(self, job: Job) -> bool {
        &&& forall|i: int|
            0 <= i < self.answers.len() - 1 ==> userland::page_failure(
                job.page_at(i),
                #[trigger] self.answers[i],
            ) is None
        &&& forall|i: int|
            0 <= i < self.answers.len() && job.page_at(i) == LAST_PAGE ==> userland::page_failure(
                job.page_at(i),
                #[trigger] self.answers[i],
            ) is Some
        &&& self.answers.len() <= job.pages().len() + 1
        &&& self.answers.len() > job.pages().len() ==> job.complete()
        &&& self.holding ==> self.mapping(job) && userland::is_canonical(
            job.page_at(self.answers.len() as int),
        )
        &&& self.walked.len() <= userland::recorded(job.pages())
    }

    /// How much there is still to be asked for, at most.
    pub open spec fn left(self, job: Job) -> int {
        2 * (job.pages().len() + 1 - self.answers.len()) + (if self.holding {
            0int
        } else {
            1
        }) + (if self.returned {
            0int
        } else {
            1
        }) + (if self.filled {
            0int
        } else {
            1
        }) + (userland::recorded(job.pages()) - self.walked.len())
    }
}

/// Answers keep a load in order, and each brings its end nearer: whatever the
/// kernel answers, it is not asked forever.
pub proof fn every_answer_brings_the_end_nearer(job: Job, progress: Progress, answer: Answer)
    requires
        progress.wf(job),
        progress.suits(job, answer),
    ensures
        progress.advanced(job, answer).wf(job),
        0 <= progress.advanced(job, answer).left(job) < progress.left(job),
{
    let after = progress.advanced(job, answer);
    assert forall|i: int| 0 <= i < after.answers.len() - 1 implies userland::page_failure(
        job.page_at(i),
        #[trigger] after.answers[i],
    ) is None by {
        assert(after.answers[i] == progress.answers[i]);
    }
    assert forall|i: int|
        0 <= i < after.answers.len() && job.page_at(i) == LAST_PAGE implies userland::page_failure(
        job.page_at(i),
        #[trigger] after.answers[i],
    ) is Some by {
        if i < progress.answers.len() {
            assert(after.answers[i] == progress.answers[i]);
        }
    }
}

/// When nothing more is asked for, the answers tell what comes of the load, and
/// the last page of all was not mapped.
pub proof fn the_end_is_settled(job: Job, progress: Progress)
    requires
        progress.wf(job),
        job.program is Ok,
        progress.asked(job) == Asked::Done,
    ensures
        userland::settled(
            job.segments(),
            job.args,
            job.env,
            progress.answers,
            progress.walked,
        ),
        userland::last_page_stays(job.pages(), progress.answers),
{
    let pages = job.pages();
    let count = progress.answers.len() as int;
    if progress.failure(job) is Some && count <= pages.len() {
        assert(pages[count - 1].page == job.page_at(count - 1));
        assert(userland::stopped(pages, progress.answers));
    }
    assert forall|i: int|
        0 <= i < pages.len() && i < count && (#[trigger] pages[i]).page == LAST_PAGE implies
        userland::page_failure(pages[i].page, progress.answers[i]) is Some by {
        assert(job.page_at(i) == pages[i].page);
    }
}

/// A load on its way.
pub struct Loader {
    program: Result<Program, ElfError>,
    argv: Vec<Vec<u8>>,
    envp: Vec<Vec<u8>>,
    shared: usize,
    complete: bool,
    stack: Option<Vec<u8>>,
    answers: Vec<PageAnswer>,
    walked: Vec<Walked>,
    holding: bool,
    returned: bool,
    filled: bool,
}

/// Whether what the kernel is asked for is `asked`.
pub open spec fn is_asked(ask: Ask, asked: Asked, job: Job) -> bool {
    match ask {
        Ask::Frame => asked == Asked::Frame,
        Ask::MapPage { page, writable, content } => asked == (Asked::MapPage {
            page: page as int,
            writable,
            content: content@,
        }),
        Ask::GiveBack => asked == Asked::GiveBack,
        Ask::FillStack { content } => asked == Asked::FillStack && userland::fresh_stack(
            content@,
            job.args,
            job.env,
        ),
        Ask::Walk { page } => asked == (Asked::Walk { page: page as int }),
        Ask::Done => asked == Asked::Done,
    }
}

/// Whether the data of every segment can be had.
fn all_readable(segments: &[Segment]) -> (r: bool)
    ensures
        r == (userland::readable(segments@, 0) >= segments@.len()),
{
    let mut at: usize = 0;
    while at < segments.len()
        invariant
            at <= segments@.len(),
            userland::readable(segments@, 0) == userland::readable(segments@, at as int),
        decreases segments@.len() - at,
    {
        match &segments[at].data {
            Ok(_) => {},
            Err(_) => {
                return false;
            },
        }
        at += 1;
    }
    true
}

impl Loader {
    /// What is being loaded.
    pub closed spec fn job(&self) -> Job {
        Job {
            program: self.program,
            args: startup::strings(self.argv@),
            env: startup::strings(self.envp@),
        }
    }

    /// How far it has come.
    pub closed spec fn view(&self) -> Progress {
        Progress {
            answers: self.answers@,
            walked: self.walked@,
            holding: self.holding,
            returned: self.returned,
            filled: self.filled,
        }
    }

    /// The plan and the stack are those of what is being loaded.
    pub closed spec fn wf(&self) -> bool {
        let job = self.job();
        &&& job.wf()
        &&& self@.wf(job)
        &&& self.shared == userland::shared_pages(
            job.segments(),
            userland::readable(job.segments(), 0),
        )
        &&& self.complete == job.complete()
        &&& self.stack is Some <==> startup::fits(job.args, job.env)
        &&& self.stack matches Some(stack) ==> userland::fresh_stack(stack@, job.args, job.env)
    }

    /// The load of a program, or of nothing where there is no program.
    pub fn new(program: Result<Program, ElfError>, argv: Vec<Vec<u8>>, envp: Vec<Vec<u8>>) -> (r:
        Self)
        requires
            program matches Ok(p) ==> forall|i: int|
                0 <= i < p.segments@.len() ==> (#[trigger] p.segments@[i]).wf(),
        ensures
            r.wf(),
            r.job() == (Job {
                program,
                args: startup::strings(argv@),
                env: startup::strings(envp@),
            }),
            r@ == Progress::none(),
    {
        let (shared, complete): (usize, bool) = match &program {
            Ok(program) => {
                let shared: usize = count_shared(program.segments.as_slice());
                let complete = all_readable(program.segments.as_slice());
                (shared, complete)
            },
            Err(_) => (0, true),
        };
        let stack: Option<Vec<u8>> = match stack_page(argv.as_slice(), envp.as_slice()) {
            Some((stack, _)) => Some(stack),
            None => None,
        };
        let r = Loader {
            program,
            argv,
            envp,
            shared,
            complete,
            stack,
            answers: Vec::new(),
            walked: Vec::new(),
            holding: false,
            returned: false,
            filled: false,
        };
        proof {
            assert(r@.answers =~= Progress::none().answers);
            assert(r@.walked =~= Progress::none().walked);
        }
        r
    }

    /// How many pages were shared with the segment before.
    pub fn shared(&self) -> (r: usize)
        requires
            self.wf(),
        ensures
            r == userland::shared_pages(
                self.job().segments(),
                userland::readable(self.job().segments(), 0),
            ),
    {
        self.shared
    }

    /// Whether the program has more than `i` pages.
    fn has_page(&self, i: usize) -> (r: bool)
        requires
            self.wf(),
        ensures
            r == (i < self.job().pages().len()),
    {
        match &self.program {
            Ok(program) => page_number(program.segments.as_slice(), i).is_some(),
            Err(_) => false,
        }
    }

    /// The page `i` to be mapped.
    fn page_at(&self, i: usize) -> (r: u64)
        requires
            self.wf(),
        ensures
            r == self.job().page_at(i as int),
    {
        match &self.program {
            Ok(program) => match page_number(program.segments.as_slice(), i) {
                Some((page, _)) => page,
                None => USER_PROGRAM_STACK_TOP - PAGE as u64,
            },
            Err(_) => USER_PROGRAM_STACK_TOP - PAGE as u64,
        }
    }

    /// What went wrong with the page that was answered for last, if anything.
    fn failure(&self) -> (r: Option<UserLoadError>)
        requires
            self.wf(),
        ensures
            r == self@.failure(self.job()),
    {
        let count: usize = self.answers.len();
        if count == 0 {
            return None;
        }
        userland::check_page(self.page_at(count - 1), self.answers[count - 1])
    }

    /// What the kernel is asked for next.
    pub fn ask(&self) -> (ask: Ask)
        requires
            self.wf(),
        ensures
            is_asked(ask, self@.asked(self.job()), self.job()),
    {
        let program: &Program = match &self.program {
            Ok(program) => program,
            Err(_) => {
                return Ask::Done;
            },
        };
        let count: usize = self.answers.len();
        match self.failure() {
            Some(error) => {
                if userland::frame_goes_back(error) && self.has_page(count - 1)
                    && !self.returned {
                    return Ask::GiveBack;
                }
                return Ask::Done;
            },
            None => {},
        }
        let stack_is_next: bool = self.complete && (count == 0 || self.has_page(count - 1));
        if self.has_page(count) || stack_is_next {
            if !self.holding {
                return Ask::Frame;
            }
            match plan_page(program.segments.as_slice(), count) {
                Some(PageLoad { page, writable, content }) => {
                    return Ask::MapPage { page, writable, content };
                },
                None => {},
            }
            let mut content: Vec<u8> = Vec::new();
            crate::bytes::push_repeated(&mut content, 0, PAGE);
            assert(content@ =~= bytes::repeated(0, PAGE as int));
            return Ask::MapPage { page: self.page_at(count), writable: true, content };
        }
        if !self.complete {
            return Ask::Done;
        }
        match &self.stack {
            None => Ask::Done,
            Some(stack) => {
                if !self.filled {
                    return Ask::FillStack { content: copy_of(stack.as_slice()) };
                }
                let at: usize = self.walked.len();
                if at < RECORDED_PAGES && (at == 0 || self.has_page(at - 1)) {
                    Ask::Walk { page: self.page_at(at) }
                } else {
                    Ask::Done
                }
            },
        }
    }

    /// Takes the answer to what was asked for.
    pub fn answer(&mut self, answer: Answer)
        requires
            old(self).wf(),
            old(self)@.suits(old(self).job(), answer),
        ensures
            final(self).wf(),
            final(self).job() == old(self).job(),
            final(self)@ == old(self)@.advanced(old(self).job(), answer),
    {
        proof {
            every_answer_brings_the_end_nearer(self.job(), self@, answer);
        }
        let ghost before = self@;
        let ghost job = self.job();
        match answer {
            Answer::Frame(frame) => {
                let page: u64 = self.page_at(self.answers.len());
                if frame && (page < 0x8000_0000_0000 || page >= 0xffff_8000_0000_0000) {
                    self.holding = true;
                } else {
                    self.answers.push(PageAnswer { frame, mapped: Ok(()) });
                }
            },
            Answer::Mapped(mapped) => {
                self.answers.push(PageAnswer { frame: true, mapped });
                self.holding = false;
            },
            Answer::Walked(walked) => {
                self.walked.push(walked);
            },
            Answer::Done => {
                match self.failure() {
                    Some(_) => {
                        self.returned = true;
                    },
                    None => {
                        self.filled = true;
                    },
                }
            },
        }
        assert(self@ == before.advanced(job, answer));
    }

    /// What came of the load, when nothing more is asked for.
    pub fn finish(&self) -> (r: Result<Loaded, UserLoadError>)
        requires
            self.wf(),
            self@.asked(self.job()) == Asked::Done,
        ensures
            userland::comes_of(
                self.job().program,
                self.job().args,
                self.job().env,
                self@.answers,
                self@.walked,
                r,
            ),
    {
        proof {
            if self.program is Ok {
                the_end_is_settled(self.job(), self@);
            }
        }
        load_user_program_into(
            &self.program,
            self.argv.as_slice(),
            self.envp.as_slice(),
            self.answers.as_slice(),
            self.walked.as_slice(),
        )
    }
}

/// A stage of a program's stay in an address space of its own.
#[derive(Clone, Copy, PartialEq, Eq, Structural, Debug)]
pub enum Stage {
    /// The allocator of frames is taken.
    TakeAllocator,
    /// The address space is made.
    MakeSpace,
    /// The program is loaded.
    Load,
    /// The allocator is given back.
    GiveAllocatorBack,
    /// The program runs.
    Run,
    /// The address space is destroyed.
    Destroy,
    /// Nothing more is done.
    Done,
}

/// A program's stay in an address space of its own: whether it is to run, and
/// what came of the stages so far.
pub struct Stay {
    pub run: bool,
    pub allocator: Option<bool>,
    pub space: Option<Result<(), AddressSpaceError>>,
    pub loaded: Option<Result<Loaded, UserLoadError>>,
    pub returned: bool,
    pub ran: Option<Result<(), UserLoadError>>,
    pub destroyed: Option<(usize, usize)>,
}

impl Stay {
    /// The next stage. Without the allocator nothing is done, and without an
    /// address space the allocator only goes back. A program that was loaded
    /// runs, where it is to, when the allocator is back; and the address space is
    /// destroyed in the end, whatever came of it.
    pub open spec fn next(self) -> Stage {
        match (self.allocator, self.space, self.loaded) {
            (None, _, _) => Stage::TakeAllocator,
            (Some(false), _, _) => Stage::Done,
            (Some(true), None, _) => Stage::MakeSpace,
            (Some(true), Some(Err(_)), _) => if self.returned {
                Stage::Done
            } else {
                Stage::GiveAllocatorBack
            },
            (Some(true), Some(Ok(_)), None) => Stage::Load,
            (Some(true), Some(Ok(_)), Some(loaded)) => if !self.returned {
                Stage::GiveAllocatorBack
            } else if self.run && loaded is Ok && self.ran is None {
                Stage::Run
            } else if self.destroyed is None {
                Stage::Destroy
            } else {
                Stage::Done
            },
        }
    }

    /// The beginning.
    pub fn new(run: bool) -> (r: Self)
        ensures
            r == (Stay {
                run,
                allocator: None,
                space: None,
                loaded: None,
                returned: false,
                ran: None,
                destroyed: None,
            }),
    {
        Stay {
            run,
            allocator: None,
            space: None,
            loaded: None,
            returned: false,
            ran: None,
            destroyed: None,
        }
    }

    /// The next stage.
    pub fn stage(&self) -> (r: Stage)
        ensures
            r == self.next(),
    {
        match self.allocator {
            None => {
                return Stage::TakeAllocator;
            },
            Some(taken) => {
                if !taken {
                    return Stage::Done;
                }
            },
        }
        match self.space {
            None => {
                return Stage::MakeSpace;
            },
            Some(Err(_)) => {
                return if self.returned {
                    Stage::Done
                } else {
                    Stage::GiveAllocatorBack
                };
            },
            Some(Ok(_)) => {},
        }
        let good: bool = match &self.loaded {
            None => {
                return Stage::Load;
            },
            Some(Ok(_)) => true,
            Some(Err(_)) => false,
        };
        if !self.returned {
            return Stage::GiveAllocatorBack;
        }
        if self.run && good && self.ran.is_none() {
            return Stage::Run;
        }
        if self.destroyed.is_none() {
            Stage::Destroy
        } else {
            Stage::Done
        }
    }

    /// What came of the stay, when nothing more is done.
    pub fn finish(&self) -> (r: (Result<u64, UserLoadError>, usize, usize))
        requires
            self.next() == Stage::Done,
        ensures
            r == (if self.allocator == Some(false) {
                (Err::<u64, UserLoadError>(UserLoadError::AllocatorUnavailable), 0usize, 0usize)
            } else {
                match self.space->0 {
                    Err(error) => (Err(UserLoadError::AddressSpace(error)), 0usize, 0usize),
                    Ok(_) => {
                        let destroyed = self.destroyed->0;
                        match self.loaded->0 {
                            Err(error) => (Err(error), destroyed.0, destroyed.1),
                            Ok(loaded) => match self.ran {
                                Some(Err(error)) => (Err(error), destroyed.0, destroyed.1),
                                Some(Ok(_)) => (Ok(loaded.entry), destroyed.0, destroyed.1),
                                None => (Ok(0u64), destroyed.0, destroyed.1),
                            },
                        }
                    },
                }
            }),
    {
        let nothing: Result<Loaded, UserLoadError> = Err(UserLoadError::AllocatorUnavailable);
        let loaded: &Result<Loaded, UserLoadError> = match &self.loaded {
            Some(loaded) => loaded,
            None => &nothing,
        };
        let space: Result<(), AddressSpaceError> = match self.space {
            Some(space) => space,
            None => Ok(()),
        };
        let destroyed: (usize, usize) = match self.destroyed {
            Some(destroyed) => destroyed,
            None => (0, 0),
        };
        load_user_program(self.allocator == Some(true), space, loaded, self.ran, destroyed)
    }
}

/// The allocator is given back whenever it was taken, before anything runs, and
/// the address space is destroyed whenever it was made.
pub proof fn nothing_is_kept(stay: Stay)
    ensures
        stay.next() == Stage::Done && stay.allocator == Some(true) ==> stay.returned,
        stay.next() == Stage::Run ==> stay.returned,
        stay.next() == Stage::Done && stay.allocator == Some(true) && stay.space == Some(
            Ok::<(), AddressSpaceError>(()),
        ) ==> stay.destroyed is Some,
{
}

/// A page is mapped in the frame that was taken for it, and nothing is mapped
/// before a frame is there. Pages are mapped in their order, each with its own
/// content and rights; the stack comes last, with the page under its top.
pub proof fn a_frame_comes_before_a_mapping(job: Job, progress: Progress)
    requires
        progress.wf(job),
        job.program is Ok,
        progress.failure(job) is None,
    ensures
        ({
            let at = progress.answers.len() as int;
            let pages = job.pages();
            let next = progress.asked(job);
            &&& at < pages.len() && !progress.holding ==> next == Asked::Frame
            &&& at < pages.len() && progress.holding ==> next == (Asked::MapPage {
                page: pages[at].page,
                writable: pages[at].writable,
                content: pages[at].content,
            })
            &&& at == pages.len() && job.complete() && !progress.holding ==> next == Asked::Frame
            &&& at == pages.len() && job.complete() && progress.holding ==> next == (
            Asked::MapPage {
                page: 0x7f_f000,
                writable: true,
                content: Seq::new(4096, |i: int| 0u8),
            })
            &&& at == pages.len() && !job.complete() ==> next == Asked::Done
        }),
{
    assert(bytes::repeated(0, 4096) =~= Seq::new(4096, |i: int| 0u8));
}

/// What becomes of a frame: it is mapped where its page has an address, and the
/// frame of a page of the program that could not be mapped goes back, once.
pub proof fn no_frame_is_lost(job: Job, progress: Progress, answer: Answer)
    requires
        progress.wf(job),
        progress.suits(job, answer),
    ensures
        ({
            let at = progress.answers.len() as int;
            let after = progress.advanced(job, answer);
            match (progress.asked(job), answer) {
                (Asked::Frame, Answer::Frame(true)) => if job.page_at(at) < 0x8000_0000_0000
                    || job.page_at(at) >= 0xffff_8000_0000_0000 {
                    after.asked(job) is MapPage
                } else {
                    after.asked(job) == Asked::Done
                },
                (Asked::Frame, Answer::Frame(false)) => after.asked(job) == Asked::Done,
                (Asked::MapPage { .. }, Answer::Mapped(Err(_))) => if at < job.pages().len()
                    && !progress.returned {
                    after.asked(job) == Asked::GiveBack
                } else {
                    after.asked(job) == Asked::Done
                },
                (Asked::MapPage { .. }, Answer::Mapped(Ok(_))) => after.answers.len() == at + 1
                    && !after.holding && !(after.asked(job) is GiveBack),
                (Asked::GiveBack, Answer::Done) => after.asked(job) == Asked::Done,
                _ => true,
            }
        }),
{
}

/// The stack is filled when everything is mapped and the arguments fit it, and
/// then the recorded pages are looked up one by one, the first eight at most.
pub proof fn recorded_pages_are_looked_up(job: Job, progress: Progress)
    requires
        progress.wf(job),
        job.program is Ok,
        job.complete(),
        progress.failure(job) is None,
        progress.answers.len() == job.pages().len() + 1,
    ensures
        ({
            let fits = startup::fits(job.args, job.env);
            let count = if job.pages().len() < 7 {
                job.pages().len() as int + 1
            } else {
                8
            };
            let at = progress.walked.len() as int;
            let next = progress.asked(job);
            &&& !fits ==> next == Asked::Done
            &&& fits && !progress.filled ==> next == Asked::FillStack
            &&& fits && progress.filled && at < count ==> next == (Asked::Walk {
                page: if at < job.pages().len() {
                    job.pages()[at].page
                } else {
                    0x7f_f000
                },
            })
            &&& fits && progress.filled && at >= count ==> next == Asked::Done
        }),
{
}

/// A stay goes on stage by stage: a program runs only when it is to, when it was
/// loaded and once; and one that is to run and was loaded has run in the end.
pub proof fn a_loaded_program_runs_once(stay: Stay)
    ensures
        stay.next() == Stage::Run ==> stay.run && stay.loaded is Some && stay.loaded->0 is Ok
            && stay.ran is None,
        stay.next() == Stage::Done && stay.run && stay.allocator == Some(true) && stay.space is Some
            && stay.space->0 is Ok && stay.loaded is Some && stay.loaded->0 is Ok
            ==> stay.ran is Some,
        stay.next() == Stage::MakeSpace ==> stay.allocator == Some(true) && stay.space is None,
        stay.next() == Stage::Load ==> stay.allocator == Some(true) && stay.space is Some
            && stay.space->0 is Ok && stay.loaded is None,
        stay.next() == Stage::GiveAllocatorBack ==> stay.allocator == Some(true) && !stay.returned,
        stay.next() == Stage::Destroy ==> stay.space is Some && stay.space->0 is Ok
            && stay.destroyed is None && stay.returned,
        stay.next() == Stage::TakeAllocator <==> stay.allocator is None,
        stay.allocator == Some(false) ==> stay.next() == Stage::Done,
        stay.allocator == Some(true) && stay.space is None ==> stay.next() == Stage::MakeSpace,
        stay.allocator == Some(true) && stay.space is Some && stay.space->0 is Ok
            && stay.loaded is None ==> stay.next() == Stage::Load,
{
}

/// A load begins with nothing: no page is answered for, no frame is held or given
/// back, and the stack is not filled.
pub proof fn a_load_begins_with_nothing(job: Job)
    ensures
        Progress::none().answers.len() == 0,
        Progress::none().walked.len() == 0,
        !Progress::none().holding,
        !Progress::none().returned,
        !Progress::none().filled,
        job.program is Ok && job.pages().len() > 0 ==> Progress::none().asked(job) == Asked::Frame,
        job.program is Err ==> Progress::none().asked(job) == Asked::Done,
{
}

} // verus!
