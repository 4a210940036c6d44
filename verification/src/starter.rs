//! Starting a program from a file step by step: what the kernel is asked for
//! next, and what its answers come to.
use crate::spawn::{
    self, check_file, gather_image, needs_block, spawn, split_argv, Answers, Block, Ext2Error,
    Limits, Settlement, SpawnAccounts, SpawnError, SpawnOutcome,
};
use crate::startup::{self, MAX_ARGV};
use crate::userland::UserLoadError;
use crate::vfs::Inode;
use vstd::prelude::*;

verus! {

/// What the kernel is asked for.
#[derive(Debug)]
pub enum Ask {
    /// The inode that the path leads to, and the size of a block.
    Lookup,
    /// A block of the file.
    Block { index: u32 },
    /// To keep the records of the program that runs until the end, and what
    /// there is before the new one runs.
    Prepare,
    /// To load the program and to run it.
    Load { image: Vec<u8>, argv: Vec<Vec<u8>> },
    /// The free frames.
    FreeFrames,
    /// To stop the machine: the kernel would come back on the wrong stack.
    Halt,
    /// Nothing: the program has ended or was not started.
    Done,
}

/// The same in mathematical terms.
pub enum Asked {
    Lookup,
    Block { index: int },
    Prepare,
    Load { image: Seq<u8>, argv: Seq<Seq<u8>> },
    FreeFrames,
    Halt,
    Done,
}

/// What there is before a program runs.
#[derive(Debug, Clone, Copy)]
pub struct Prepared {
    /// The free frames; nothing where the allocator is in use.
    pub free: Option<u64>,
    /// The accounts.
    pub accounts: SpawnAccounts,
    /// The stack that the kernel enters on.
    pub rsp0: u64,
}

/// What came of loading and running a program.
#[derive(Debug, Clone, Copy)]
pub struct Ran {
    /// How loading went.
    pub loaded: Result<u64, UserLoadError>,
    /// The frames that the destruction of the address space held back.
    pub held: usize,
    /// The frames that it lost.
    pub leaked: usize,
    /// Whether the user interrupted the program.
    pub interrupted: bool,
    /// The status that the program exited with.
    pub exited: Option<u64>,
    /// The fault that it ended by.
    pub vector: u64,
    /// The stack that the kernel enters on, after it ran.
    pub rsp0: u64,
}

/// What the kernel answers.
pub enum Answer {
    Lookup { inode: Result<Inode, Ext2Error>, block_size: usize },
    Block(Block),
    Prepared(Prepared),
    Ran(Ran),
    FreeFrames(Option<u64>),
}

/// What is to be started: how deep it is nested, the limits, and the arguments,
/// each with a zero byte behind it.
pub struct Attempt {
    pub depth: int,
    pub limits: Limits,
    pub packed: Seq<u8>,
    pub count: int,
}

/// What was answered so far.
pub struct Found {
    pub lookup: Option<(Result<Inode, Ext2Error>, int)>,
    pub blocks: Seq<Block>,
    pub prepared: Option<Prepared>,
    pub ran: Option<Ran>,
    pub free_after: Option<Option<u64>>,
}

impl Attempt {
    /// The size of the file, or why it is none to start.
    pub open spec fn checked(self, inode: Result<Inode, Ext2Error>) -> Result<u64, SpawnError> {
        spawn::file_check(self.depth, self.limits.depth as int, inode, self.limits.image as int)
    }
}

impl Found {
    /// The beginning.
    pub open spec fn nothing() -> Found {
        Found {
            lookup: None,
            blocks: Seq::empty(),
            prepared: None,
            ran: None,
            free_after: None,
        }
    }

    /// What the kernel is asked for when the file is found and of that size.
    pub open spec fn asked_of(self, attempt: Attempt, block_size: int, size: int) -> Asked {
        if spawn::missing(self.blocks, block_size, size, 0) > 0 {
            Asked::Block { index: self.blocks.len() as int }
        } else {
            match (
                spawn::gathered(self.blocks, block_size, size, 0),
                self.prepared,
                spawn::split_strings(attempt.packed, 0, attempt.count),
            ) {
                (Err(_), _, _) => Asked::Done,
                (Ok(_), None, _) => Asked::Prepare,
                (Ok(image), Some(prepared), argv) => if prepared.free is None {
                    Asked::Done
                } else if argv is None {
                    Asked::Done
                } else {
                    match self.ran {
                        None => Asked::Load { image, argv: argv->0 },
                        Some(ran) => if ran.rsp0 != prepared.rsp0 {
                            Asked::Halt
                        } else if self.free_after is None {
                            Asked::FreeFrames
                        } else {
                            Asked::Done
                        },
                    }
                },
            }
        }
    }

    /// What the kernel is asked for next: the file, its blocks one after the
    /// other until they are enough, what there is before, the run, and what there
    /// is after it. The first thing that goes wrong ends it.
    pub open spec fn asked(self, attempt: Attempt) -> Asked {
        if attempt.depth >= attempt.limits.depth {
            Asked::Done
        } else {
            match self.lookup {
                None => Asked::Lookup,
                Some((inode, block_size)) => match attempt.checked(inode) {
                    Err(_) => Asked::Done,
                    Ok(size) => self.asked_of(attempt, block_size, size as int),
                },
            }
        }
    }

    /// Whether an answer is one to what is asked for.
    pub open spec fn suits(self, attempt: Attempt, answer: Answer) -> bool {
        match self.asked(attempt) {
            Asked::Lookup => answer is Lookup,
            Asked::Block { .. } => answer is Block,
            Asked::Prepare => answer is Prepared,
            Asked::Load { .. } => answer is Ran,
            Asked::FreeFrames => answer is FreeFrames,
            Asked::Halt => false,
            Asked::Done => false,
        }
    }

    /// What is known after an answer.
    pub open spec fn advanced(self, answer: Answer) -> Found {
        match answer {
            Answer::Lookup { inode, block_size } => Found {
                lookup: Some((inode, block_size as int)),
                ..self
            },
            Answer::Block(block) => Found { blocks: self.blocks.push(block), ..self },
            Answer::Prepared(prepared) => Found { prepared: Some(prepared), ..self },
            Answer::Ran(ran) => Found { ran: Some(ran), ..self },
            Answer::FreeFrames(free) => Found { free_after: Some(free), ..self },
        }
    }

    /// How much there is still to be asked for, at most.
    pub open spec fn left(self, attempt: Attempt) -> int {
        let rest = (if self.prepared is None {
            1int
        } else {
            0
        }) + (if self.ran is None {
            1int
        } else {
            0
        }) + (if self.free_after is None {
            1int
        } else {
            0
        });
        match self.lookup {
            None => attempt.limits.image + 4,
            Some((inode, block_size)) => match attempt.checked(inode) {
                Err(_) => rest,
                Ok(size) => spawn::missing(self.blocks, block_size, size as int, 0) + rest,
            },
        }
    }

    /// No block was read that the file does not need.
    pub open spec fn wf(self, attempt: Attempt) -> bool {
        &&& self.lookup is None ==> self.blocks.len() == 0
        &&& self.blocks.len() <= attempt.limits.image
        &&& self.lookup matches Some((inode, block_size)) ==> (attempt.checked(inode) matches Ok(
            size,
        ) ==> self.blocks.len() + spawn::missing(self.blocks, block_size, size as int, 0)
            <= attempt.limits.image)
    }
}

/// What is missing of a file is never more than all of it, nor less than nothing.
proof fn lemma_missing(blocks: Seq<Block>, block_size: int, left: int, index: int)
    requires
        left >= 0,
    ensures
        0 <= spawn::missing(blocks, block_size, left, index) <= left,
    decreases left,
{
    if left > 0 && index < blocks.len() && blocks[index] is Ok {
        let part = spawn::block_part(blocks[index]->Ok_0@, block_size, left);
        if part > 0 {
            lemma_missing(blocks, block_size, left - part, index + 1);
        }
    }
}

/// A block that is read where some is missing leaves less missing.
proof fn lemma_block(blocks: Seq<Block>, block_size: int, left: int, index: int, block: Block)
    requires
        0 <= index <= blocks.len(),
        spawn::missing(blocks, block_size, left, index) > 0,
    ensures
        spawn::missing(blocks.push(block), block_size, left, index) < spawn::missing(
            blocks,
            block_size,
            left,
            index,
        ),
    decreases left,
{
    let more = blocks.push(block);
    if index < blocks.len() {
        assert(more[index] == blocks[index]);
        let part = spawn::block_part(blocks[index]->Ok_0@, block_size, left);
        lemma_block(blocks, block_size, left - part, index + 1, block);
    } else {
        assert(more[index] == block);
        if block is Ok {
            let part = spawn::block_part(block->Ok_0@, block_size, left);
            if part > 0 && left > part {
                assert(spawn::missing(more, block_size, left - part, index + 1) == left - part);
            }
        }
    }
}

/// Answers keep a start in order, and each brings its end nearer: whatever the
/// kernel answers, it is not asked forever.
pub proof fn every_answer_brings_the_end_nearer(attempt: Attempt, found: Found, answer: Answer)
    requires
        found.wf(attempt),
        found.suits(attempt, answer),
    ensures
        found.advanced(answer).wf(attempt),
        0 <= found.advanced(answer).left(attempt) < found.left(attempt),
{
    let after = found.advanced(answer);
    match after.lookup {
        None => {},
        Some((inode, block_size)) => match attempt.checked(inode) {
            Err(_) => {},
            Ok(size) => {
                lemma_missing(after.blocks, block_size, size as int, 0);
                lemma_missing(found.blocks, block_size, size as int, 0);
                if let Answer::Block(block) = answer {
                    lemma_block(found.blocks, block_size, size as int, 0, block);
                }
            },
        },
    }
}

/// A start on its way.
pub struct Starter {
    depth: usize,
    limits: Limits,
    packed: Vec<u8>,
    count: usize,
    lookup: Option<Result<Inode, Ext2Error>>,
    block_size: usize,
    blocks: Vec<Block>,
    prepared: Option<Prepared>,
    ran: Option<Ran>,
    free_after: Option<Option<u64>>,
}

/// Whether what the kernel is asked for is `asked`.
pub open spec fn is_asked(ask: Ask, asked: Asked) -> bool {
    match ask {
        Ask::Lookup => asked == Asked::Lookup,
        Ask::Block { index } => asked == (Asked::Block { index: index as int }),
        Ask::Prepare => asked == Asked::Prepare,
        Ask::Load { image, argv } => asked == (Asked::Load {
            image: image@,
            argv: startup::strings(argv@),
        }),
        Ask::FreeFrames => asked == Asked::FreeFrames,
        Ask::Halt => asked == Asked::Halt,
        Ask::Done => asked == Asked::Done,
    }
}

impl Found {
    /// Why the program was not run, where it was not.
    pub open spec fn refusal(self, attempt: Attempt) -> Option<SpawnError> {
        if attempt.depth >= attempt.limits.depth {
            Some(SpawnError::TooDeep)
        } else {
            let (inode, block_size) = self.lookup->0;
            match attempt.checked(inode) {
                Err(error) => Some(error),
                Ok(size) => match spawn::gathered(self.blocks, block_size, size as int, 0) {
                    Err(error) => Some(error),
                    Ok(_) => if self.prepared->0.free is None {
                        Some(SpawnError::Load(UserLoadError::AllocatorUnavailable))
                    } else if spawn::split_strings(attempt.packed, 0, attempt.count) is None {
                        Some(SpawnError::ArgvMalformed)
                    } else {
                        None
                    },
                },
            }
        }
    }

    /// What is to be settled when the program has ended.
    pub open spec fn settlement(self) -> Settlement {
        let prepared = self.prepared->0;
        let ran = self.ran->0;
        Settlement {
            loaded: ran.loaded,
            held: ran.held,
            leaked: ran.leaked,
            free_before: prepared.free->0,
            free_after: match self.free_after->0 {
                Some(free) => free,
                None => prepared.free->0,
            },
            before: prepared.accounts,
        }
    }
}

impl Starter {
    /// What is being started.
    pub closed spec fn attempt(&self) -> Attempt {
        Attempt {
            depth: self.depth as int,
            limits: self.limits,
            packed: self.packed@,
            count: self.count as int,
        }
    }

    /// What was answered so far.
    pub closed spec fn view(&self) -> Found {
        Found {
            lookup: match self.lookup {
                Some(inode) => Some((inode, self.block_size as int)),
                None => None,
            },
            blocks: self.blocks@,
            prepared: self.prepared,
            ran: self.ran,
            free_after: self.free_after,
        }
    }

    /// The answers are in order, and what they speak of can be counted.
    pub closed spec fn wf(&self) -> bool {
        &&& self@.wf(self.attempt())
        &&& self.count <= MAX_ARGV
        &&& self.limits.image <= u32::MAX
    }

    /// The start of a program, at a depth of nested programs. `packed` holds
    /// `count` arguments, each with a zero byte behind it.
    pub fn new(depth: usize, limits: Limits, packed: Vec<u8>, count: usize) -> (r: Self)
        requires
            count <= MAX_ARGV,
            limits.image <= u32::MAX,
        ensures
            r.wf(),
            r.attempt() == (Attempt {
                depth: depth as int,
                limits,
                packed: packed@,
                count: count as int,
            }),
            r@ == Found::nothing(),
    {
        let r = Starter {
            depth,
            limits,
            packed,
            count,
            lookup: None,
            block_size: 0,
            blocks: Vec::new(),
            prepared: None,
            ran: None,
            free_after: None,
        };
        assert(r@.blocks =~= Found::nothing().blocks);
        r
    }

    /// What the kernel is asked for next.
    pub fn ask(&self) -> (ask: Ask)
        requires
            self.wf(),
        ensures
            is_asked(ask, self@.asked(self.attempt())),
    {
        if self.depth >= self.limits.depth {
            return Ask::Done;
        }
        let inode: &Result<Inode, Ext2Error> = match &self.lookup {
            None => {
                return Ask::Lookup;
            },
            Some(inode) => inode,
        };
        let size: usize = match check_file(
            self.depth,
            self.limits.depth,
            inode,
            self.limits.image,
        ) {
            Err(_) => {
                return Ask::Done;
            },
            Ok(size) => size,
        };
        proof {
            lemma_missing(self.blocks@, self.block_size as int, size as int, 0);
        }
        if needs_block(self.blocks.as_slice(), self.block_size, size) {
            return Ask::Block { index: self.blocks.len() as u32 };
        }
        let image: Vec<u8> = match gather_image(self.blocks.as_slice(), self.block_size, size) {
            Err(_) => {
                return Ask::Done;
            },
            Ok(image) => image,
        };
        let prepared: Prepared = match self.prepared {
            None => {
                return Ask::Prepare;
            },
            Some(prepared) => prepared,
        };
        match prepared.free {
            None => {
                return Ask::Done;
            },
            Some(_) => {},
        }
        let argv: Vec<Vec<u8>> = match split_argv(self.packed.as_slice(), self.count) {
            Err(_) => {
                return Ask::Done;
            },
            Ok(argv) => argv,
        };
        match self.ran {
            None => Ask::Load { image, argv },
            Some(ran) => {
                if ran.rsp0 != prepared.rsp0 {
                    return Ask::Halt;
                }
                match self.free_after {
                    None => Ask::FreeFrames,
                    Some(_) => Ask::Done,
                }
            },
        }
    }

    /// Takes the answer to what was asked for.
    pub fn answer(&mut self, answer: Answer)
        requires
            old(self).wf(),
            old(self)@.suits(old(self).attempt(), answer),
        ensures
            final(self).wf(),
            final(self).attempt() == old(self).attempt(),
            final(self)@ == old(self)@.advanced(answer),
    {
        proof {
            every_answer_brings_the_end_nearer(self.attempt(), self@, answer);
        }
        let ghost before = self@;
        match answer {
            Answer::Lookup { inode, block_size } => {
                self.lookup = Some(inode);
                self.block_size = block_size;
            },
            Answer::Block(block) => {
                self.blocks.push(block);
            },
            Answer::Prepared(prepared) => {
                self.prepared = Some(prepared);
            },
            Answer::Ran(ran) => {
                self.ran = Some(ran);
            },
            Answer::FreeFrames(free) => {
                self.free_after = Some(free);
            },
        }
        assert(self@ == before.advanced(answer));
    }

    /// Whether the records of the program that ran before were kept, and have to
    /// be put back.
    pub fn keeps_records(&self) -> (r: bool)
        ensures
            r == (self@.prepared is Some),
    {
        match self.prepared {
            Some(_) => true,
            None => false,
        }
    }

    /// Settles the accounts, when nothing more is asked for: how the program
    /// ended, or why it was not started.
    pub fn finish(self, accounts: &mut SpawnAccounts) -> (r: Result<SpawnOutcome, SpawnError>)
        requires
            self.wf(),
            self@.asked(self.attempt()) == Asked::Done,
            self@.refusal(self.attempt()) is None ==> self@.settlement().countable(*old(accounts)),
        ensures
            match self@.refusal(self.attempt()) {
                Some(error) => r == Err::<SpawnOutcome, SpawnError>(error) && *final(accounts)
                    == *old(accounts),
                None => {
                    let settlement = self@.settlement();
                    let ran = self@.ran->0;
                    let outcome = spawn::ended(ran.interrupted, ran.exited, ran.vector);
                    &&& r == settlement.result(*old(accounts), outcome)
                    &&& *final(accounts) == settlement.accounts(*old(accounts))
                },
            },
    {
        proof {
            if let Some(inode) = self.lookup {
                if let Ok(size) = self.attempt().checked(inode) {
                    lemma_missing(self.blocks@, self.block_size as int, size as int, 0);
                }
            }
        }
        let lookup: Result<Inode, Ext2Error> = match self.lookup {
            Some(inode) => inode,
            None => Err(Ext2Error::Other(0)),
        };
        let (free_before, before, rsp0_before): (Option<u64>, SpawnAccounts, u64) =
            match self.prepared {
            Some(prepared) => (prepared.free, prepared.accounts, prepared.rsp0),
            None => (None, *accounts, 0),
        };
        let nothing = Ran {
            loaded: Err(UserLoadError::AllocatorUnavailable),
            held: 0,
            leaked: 0,
            interrupted: false,
            exited: None,
            vector: 0,
            rsp0: rsp0_before,
        };
        let ran: Ran = match self.ran {
            Some(ran) => ran,
            None => nothing,
        };
        let free_after: Option<u64> = match self.free_after {
            Some(free) => free,
            None => None,
        };
        let answers = Answers {
            depth: self.depth,
            lookup,
            block_size: self.block_size,
            blocks: self.blocks,
            free_before,
            loaded: ran.loaded,
            held: ran.held,
            leaked: ran.leaked,
            interrupted: ran.interrupted,
            exited: ran.exited,
            vector: ran.vector,
            free_after,
            before,
            rsp0_before,
            rsp0_after: ran.rsp0,
        };
        spawn(accounts, &answers, self.limits, self.packed.as_slice(), self.count)
    }
}

/// What a start asks for first, and what it never asks for: nothing where it is
/// nested too deep, else the file; and nothing more of a file that is none to
/// start.
pub proof fn the_file_comes_first(attempt: Attempt, found: Found)
    ensures
        attempt.depth >= attempt.limits.depth ==> found.asked(attempt) == Asked::Done
            && found.refusal(attempt) == Some(SpawnError::TooDeep),
        attempt.depth < attempt.limits.depth && found.lookup is None ==> found.asked(attempt)
            == Asked::Lookup,
        attempt.depth < attempt.limits.depth && found.lookup is Some && (found.lookup->0).0 is Err
            ==> found.asked(attempt) == Asked::Done && found.refusal(attempt) == Some(
            SpawnError::Lookup((found.lookup->0).0->Err_0),
        ),
{
}

/// Blocks are read one after the other, each once, and nothing else is asked for
/// while some of the file is missing.
pub proof fn blocks_are_read_in_order(attempt: Attempt, found: Found, block: Block)
    ensures
        found.asked(attempt) matches Asked::Block { index } ==> {
            &&& index == found.blocks.len()
            &&& found.advanced(Answer::Block(block)).asked(attempt) matches Asked::Block {
                index: next,
            } ==> next == index + 1
            &&& found.lookup is Some
        },
{
}

/// A program is run with all of its file, when the records of the program that
/// runs are kept, when frames can be counted and its arguments can be told apart;
/// in the end either that was so and it ran, or a reason is given.
pub proof fn a_program_runs_or_is_refused(attempt: Attempt, found: Found)
    requires
        attempt.depth < attempt.limits.depth,
        found.lookup is Some,
        attempt.checked((found.lookup->0).0) is Ok,
    ensures
        ({
            let size = attempt.checked((found.lookup->0).0)->Ok_0 as int;
            let block_size = (found.lookup->0).1;
            let image = spawn::gathered(found.blocks, block_size, size, 0);
            let argv = spawn::split_strings(attempt.packed, 0, attempt.count);
            let whole = spawn::missing(found.blocks, block_size, size, 0) <= 0;
            let next = found.asked(attempt);
            let refusal = found.refusal(attempt);
            &&& whole && image is Err ==> next == Asked::Done && refusal == Some(image->Err_0)
            &&& whole && image is Ok && found.prepared is None ==> next == Asked::Prepare
            &&& whole && image is Ok && found.prepared is Some && found.prepared->0.free is None
                ==> next == Asked::Done && refusal == Some(
                SpawnError::Load(UserLoadError::AllocatorUnavailable),
            )
            &&& whole && image is Ok && found.prepared is Some && found.prepared->0.free is Some
                && argv is None ==> next == Asked::Done && refusal == Some(
                SpawnError::ArgvMalformed,
            )
            &&& whole && image is Ok && found.prepared is Some && found.prepared->0.free is Some
                && argv is Some ==> refusal is None && (found.ran is None ==> next == (
            Asked::Load { image: image->Ok_0, argv: argv->0 }))
        }),
{
}

/// A machine that would come back on another stack than it left is stopped, and
/// no other; else the frames are counted once more, and that ends it.
pub proof fn a_wrong_stack_stops_the_machine(attempt: Attempt, found: Found, ran: Ran)
    requires
        found.asked(attempt) is Load,
    ensures
        ({
            let after = found.advanced(Answer::Ran(ran));
            if ran.rsp0 != found.prepared->0.rsp0 {
                after.asked(attempt) == Asked::Halt
            } else {
                &&& after.free_after is None ==> after.asked(attempt) == Asked::FreeFrames
                &&& forall|free: Option<u64>|
                    (#[trigger] after.advanced(Answer::FreeFrames(free))).asked(attempt)
                        == Asked::Done
            }
        }),
{
}

/// What is settled is what was answered: how the program was loaded, what its
/// address space held back and lost, the accounts before it and the free frames
/// before and after; frames that cannot be counted after it count as before.
pub proof fn what_was_answered_is_settled(found: Found, prepared: Prepared, ran: Ran, free: u64)
    requires
        prepared.free is Some,
    ensures
        ({
            let before = found.advanced(Answer::Prepared(prepared)).advanced(Answer::Ran(ran));
            let known = before.advanced(Answer::FreeFrames(Some(free))).settlement();
            let unknown = before.advanced(Answer::FreeFrames(None)).settlement();
            &&& known == (Settlement {
                loaded: ran.loaded,
                held: ran.held,
                leaked: ran.leaked,
                free_before: prepared.free->0,
                free_after: free,
                before: prepared.accounts,
            })
            &&& unknown == (Settlement { free_after: prepared.free->0, ..known })
        }),
{
}

/// A start begins with nothing known, and so with the file.
pub proof fn a_start_begins_with_nothing(attempt: Attempt)
    ensures
        Found::nothing().lookup is None,
        Found::nothing().blocks.len() == 0,
        Found::nothing().prepared is None,
        Found::nothing().ran is None,
        Found::nothing().free_after is None,
        attempt.depth < attempt.limits.depth ==> Found::nothing().asked(attempt) == Asked::Lookup,
{
}

} // verus!
