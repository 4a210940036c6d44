//! Starting a program from a file, and settling accounts when it ended.
use crate::bytes::{self, copy_of, find};
use crate::startup::{self, MAX_ARGV};
use crate::userland::{self, report_user_stack_high_water, HighWater, Heap, Loaded, UserLoadError};
use crate::vfs::{self, FileTable, Inode};
use vstd::prelude::*;

verus! {

/// Why the file system did not do as asked.
#[derive(Debug, Clone, Copy, PartialEq, Eq, Structural)]
pub enum Ext2Error {
    /// The file has no such block.
    SparseBlock(u32),
    /// Anything else, by its number.
    Other(u32),
}

/// Why a program was not started, or did not end well.
#[derive(Debug, Clone, Copy, PartialEq, Eq, Structural)]
pub enum SpawnError {
    TooDeep,
    Lookup(Ext2Error),
    IsDirectory,
    NotRegularFile,
    ArgvMalformed,
    TooLarge(u64),
    Read(Ext2Error),
    Load(UserLoadError),
    DestroyAccounting { consumed: usize, quarantined: usize, leaked: usize },
}

/// How a program ended.
#[derive(Debug, Clone, Copy, PartialEq, Eq, Structural)]
pub enum SpawnOutcome {
    /// By itself, with this status.
    Exited(u64),
    /// By this fault.
    Folded(u64),
    /// By the user.
    Interrupted,
}

/// The frames of all programs that ended: those in quarantine and those lost.
#[derive(Debug, Clone, Copy, PartialEq, Eq, Structural)]
pub struct SpawnAccounts {
    pub quarantined: usize,
    pub leaked: usize,
}

/// Starts the accounts anew.
pub fn reset_spawn_accounting(accounts: &mut SpawnAccounts)
    ensures
        *final(accounts) == (SpawnAccounts { quarantined: 0, leaked: 0 }),
{
    accounts.quarantined = 0;
    accounts.leaked = 0;
}

/// The frames in quarantine and those lost.
pub fn spawn_accounting(accounts: &SpawnAccounts) -> (r: (usize, usize))
    ensures
        r == (accounts.quarantined, accounts.leaked),
{
    (accounts.quarantined, accounts.leaked)
}

/// Whether a program may be started from `inode` at this depth: its size, or
/// why not.
pub open spec fn file_check(
    depth: int,
    max_depth: int,
    lookup: Result<Inode, Ext2Error>,
    max_size: int,
) -> Result<u64, SpawnError> {
    if depth >= max_depth {
        Err(SpawnError::TooDeep)
    } else {
        match lookup {
            Err(error) => Err(SpawnError::Lookup(error)),
            Ok(inode) => if vfs::directory_mode(inode@.mode) {
                Err(SpawnError::IsDirectory)
            } else if !vfs::regular_mode(inode@.mode) {
                Err(SpawnError::NotRegularFile)
            } else if inode@.size > max_size {
                Err(SpawnError::TooLarge(inode@.size))
            } else {
                Ok(inode@.size)
            },
        }
    }
}

/// Whether a program may be started from a file at this depth: its size, or why
/// not.
pub fn check_file(
    depth: usize,
    max_depth: usize,
    lookup: &Result<Inode, Ext2Error>,
    max_size: usize,
) -> (r: Result<usize, SpawnError>)
    ensures
        match file_check(depth as int, max_depth as int, *lookup, max_size as int) {
            Ok(size) => r == Ok::<usize, SpawnError>(size as usize) && size <= max_size,
            Err(error) => r == Err::<usize, SpawnError>(error),
        },
{
    if depth >= max_depth {
        return Err(SpawnError::TooDeep);
    }
    match lookup {
        Err(error) => Err(SpawnError::Lookup(*error)),
        Ok(inode) => {
            if inode.is_directory() {
                return Err(SpawnError::IsDirectory);
            }
            if !inode.is_regular_file() {
                return Err(SpawnError::NotRegularFile);
            }
            if inode.size() > max_size as u64 {
                return Err(SpawnError::TooLarge(inode.size()));
            }
            Ok(inode.size() as usize)
        },
    }
}

/// A block of a file as the file system gave it.
pub type Block = Result<Vec<u8>, Ext2Error>;

/// How much of a block belongs to a file of which `left` bytes are missing.
pub open spec fn block_part(block: Seq<u8>, block_size: int, left: int) -> int {
    let most = if block_size < left {
        block_size
    } else {
        left
    };
    if block.len() < most {
        block.len() as int
    } else {
        most
    }
}

/// What the blocks from `index` on add to a file of which `left` bytes are
/// missing, or what goes wrong with them first.
pub open spec fn gathered(
    blocks: Seq<Block>,
    block_size: int,
    left: int,
    index: int,
) -> Result<Seq<u8>, SpawnError>
    decreases left,
{
    if left <= 0 {
        Ok(Seq::empty())
    } else {
        match blocks[index] {
            Err(error) => Err(SpawnError::Read(error)),
            Ok(block) => {
                let part = block_part(block@, block_size, left);
                if part <= 0 {
                    Err(SpawnError::Read(Ext2Error::SparseBlock(index as u32)))
                } else {
                    match gathered(blocks, block_size, left - part, index + 1) {
                        Err(error) => Err(error),
                        Ok(rest) => Ok(block@.take(part) + rest),
                    }
                }
            },
        }
    }
}

/// How many bytes of a file are still missing, of which `left` are missing
/// before the blocks from `index` on. Behind a block that cannot be had, or that
/// adds nothing, no more are asked for.
pub open spec fn missing(blocks: Seq<Block>, block_size: int, left: int, index: int) -> int
    decreases left,
{
    if left <= 0 {
        0
    } else if index >= blocks.len() {
        left
    } else {
        match blocks[index] {
            Err(_) => 0,
            Ok(block) => {
                let part = block_part(block@, block_size, left);
                if part <= 0 {
                    0
                } else {
                    missing(blocks, block_size, left - part, index + 1)
                }
            },
        }
    }
}

/// Whether more blocks have to be read for a file of `size` bytes.
pub fn needs_block(blocks: &[Block], block_size: usize, size: usize) -> (r: bool)
    ensures
        r == (missing(blocks@, block_size as int, size as int, 0) > 0),
{
    let mut left: usize = size;
    let mut index: usize = 0;
    while left > 0 && index < blocks.len()
        invariant
            index <= blocks@.len(),
            missing(blocks@, block_size as int, size as int, 0) == missing(
                blocks@,
                block_size as int,
                left as int,
                index as int,
            ),
        decreases left,
    {
        let block: &Vec<u8> = match &blocks[index] {
            Ok(block) => block,
            Err(_) => {
                return false;
            },
        };
        let mut part: usize = if block_size < left {
            block_size
        } else {
            left
        };
        if block.len() < part {
            part = block.len();
        }
        if part == 0 {
            return false;
        }
        left -= part;
        index += 1;
    }
    left > 0
}

/// Gathers a file of `size` bytes from its blocks, or tells what goes wrong
/// first.
pub fn gather_image(blocks: &[Block], block_size: usize, size: usize) -> (r: Result<
    Vec<u8>,
    SpawnError,
>)
    requires
        missing(blocks@, block_size as int, size as int, 0) == 0,
        blocks@.len() <= u32::MAX,
    ensures
        match gathered(blocks@, block_size as int, size as int, 0) {
            Ok(image) => r matches Ok(bytes) && bytes@ == image && image.len() == size,
            Err(error) => r == Err::<Vec<u8>, SpawnError>(error),
        },
{
    let mut image: Vec<u8> = Vec::new();
    let mut index: usize = 0;
    let ghost whole = gathered(blocks@, block_size as int, size as int, 0);
    assert(whole matches Ok(rest) ==> image@ + rest =~= rest);
    while image.len() < size
        invariant
            image@.len() <= size,
            index <= blocks@.len(),
            missing(blocks@, block_size as int, size - image@.len(), index as int) == 0,
            blocks@.len() <= u32::MAX,
            whole == gathered(blocks@, block_size as int, size as int, 0),
            match gathered(blocks@, block_size as int, size - image@.len(), index as int) {
                Ok(rest) => whole matches Ok(all) && all == image@ + rest,
                Err(error) => whole == Err::<Seq<u8>, SpawnError>(error),
            },
        decreases size - image@.len(),
    {
        let left: usize = size - image.len();
        let block: &Vec<u8> = match &blocks[index] {
            Ok(block) => block,
            Err(error) => {
                return Err(SpawnError::Read(*error));
            },
        };
        let mut part: usize = if block_size < left {
            block_size
        } else {
            left
        };
        if block.len() < part {
            part = block.len();
        }
        if part == 0 {
            return Err(SpawnError::Read(Ext2Error::SparseBlock(index as u32)));
        }
        let ghost before = image@;
        crate::bytes::append(&mut image, &block[0..part]);
        proof {
            assert(block@.subrange(0, part as int) =~= block@.take(part as int));
            match gathered(blocks@, block_size as int, left - part, index + 1) {
                Ok(rest) => {
                    assert(before + (block@.take(part as int) + rest) =~= image@ + rest);
                },
                Err(_) => {},
            }
        }
        index += 1;
    }
    assert(image@ + Seq::<u8>::empty() =~= image@);
    Ok(image)
}

/// The first `count` strings that end with a zero byte, from `from` on; nothing
/// where there are fewer.
pub open spec fn split_strings(packed: Seq<u8>, from: int, count: int) -> Option<Seq<Seq<u8>>>
    decreases count,
{
    if count <= 0 {
        Some(Seq::empty())
    } else {
        let end = bytes::first_at(packed, 0, from);
        if end >= packed.len() {
            None
        } else {
            match split_strings(packed, end + 1, count - 1) {
                Some(rest) => Some(seq![packed.subrange(from, end)] + rest),
                None => None,
            }
        }
    }
}

/// The arguments packed in `packed`, each with a zero byte behind it.
pub fn split_argv(packed: &[u8], count: usize) -> (r: Result<Vec<Vec<u8>>, SpawnError>)
    requires
        count <= MAX_ARGV,
    ensures
        match split_strings(packed@, 0, count as int) {
            Some(argv) => r matches Ok(list) && startup::strings(list@) == argv && list@.len()
                == count,
            None => r == Err::<Vec<Vec<u8>>, SpawnError>(SpawnError::ArgvMalformed),
        },
{
    let mut argv: Vec<Vec<u8>> = Vec::new();
    let mut at: usize = 0;
    let ghost whole = split_strings(packed@, 0, count as int);
    assert(startup::strings(argv@) =~= Seq::<Seq<u8>>::empty());
    assert(whole matches Some(all) ==> startup::strings(argv@) + all =~= all);
    while argv.len() < count
        invariant
            argv@.len() <= count,
            at <= packed@.len(),
            whole == split_strings(packed@, 0, count as int),
            match split_strings(packed@, at as int, count - argv@.len()) {
                Some(rest) => whole matches Some(all) && all == startup::strings(argv@) + rest,
                None => whole is None,
            },
        decreases count - argv@.len(),
    {
        let end: usize = find(packed, 0, at);
        if end >= packed.len() {
            return Err(SpawnError::ArgvMalformed);
        }
        let ghost before = argv@;
        argv.push(copy_of(&packed[at..end]));
        proof {
            assert(startup::strings(argv@) =~= startup::strings(before).push(argv@.last()@));
            match split_strings(packed@, end + 1, count - argv@.len()) {
                Some(rest) => {
                    assert(startup::strings(before) + (seq![packed@.subrange(
                        at as int,
                        end as int,
                    )] + rest) =~= startup::strings(argv@) + rest);
                },
                None => {},
            }
        }
        at = end + 1;
    }
    assert(startup::strings(argv@) + Seq::<Seq<u8>>::empty() =~= startup::strings(argv@));
    Ok(argv)
}

/// Strings packed with a zero byte behind each.
pub open spec fn pack_strings(argv: Seq<Seq<u8>>) -> Seq<u8>
    decreases argv.len(),
{
    if argv.len() == 0 {
        Seq::empty()
    } else {
        argv[0].push(0) + pack_strings(argv.skip(1))
    }
}

/// Packed arguments split into the same arguments.
pub proof fn packed_arguments_split_back(front: Seq<u8>, argv: Seq<Seq<u8>>)
    requires
        forall|i: int| 0 <= i < argv.len() ==> !(#[trigger] argv[i]).contains(0u8),
    ensures
        split_strings(front + pack_strings(argv), front.len() as int, argv.len() as int) == Some(
            argv,
        ),
    decreases argv.len(),
{
    let packed = front + pack_strings(argv);
    if argv.len() == 0 {
        assert(argv =~= Seq::<Seq<u8>>::empty());
    } else {
        let first = argv[0];
        let from = front.len() as int;
        let end = from + first.len();
        assert forall|i: int| from <= i < end implies packed[i] != 0 by {
            assert(packed[i] == first[i - from]);
            assert(first.contains(first[i - from]));
        }
        assert(packed[end] == 0);
        bytes::lemma_first_at_is(packed, 0, from, end);
        assert(packed.subrange(from, end) =~= first);
        let longer = front + first.push(0);
        assert(longer + pack_strings(argv.skip(1)) =~= packed);
        packed_arguments_split_back(longer, argv.skip(1));
        assert(seq![first] + argv.skip(1) =~= argv);
    }
}

/// How a program ended: an interruption comes before an exit, and an exit
/// before a fault.
pub open spec fn ended(interrupted: bool, exited: Option<u64>, vector: u64) -> SpawnOutcome {
    if interrupted {
        SpawnOutcome::Interrupted
    } else {
        match exited {
            Some(status) => SpawnOutcome::Exited(status),
            None => SpawnOutcome::Folded(vector),
        }
    }
}

/// How a program ended.
pub fn ending(interrupted: bool, exited: Option<u64>, vector: u64) -> (r: SpawnOutcome)
    ensures
        r == ended(interrupted, exited, vector),
{
    if interrupted {
        SpawnOutcome::Interrupted
    } else {
        match exited {
            Some(status) => SpawnOutcome::Exited(status),
            None => SpawnOutcome::Folded(vector),
        }
    }
}

/// What is known when a program has ended: how it was loaded, what the
/// destruction of its address space held back and lost, the free frames before
/// and after, and the accounts before it started.
#[derive(Clone, Copy)]
pub struct Settlement {
    pub loaded: Result<u64, UserLoadError>,
    pub held: usize,
    pub leaked: usize,
    pub free_before: u64,
    pub free_after: u64,
    pub before: SpawnAccounts,
}

/// A sum of two counts, which begin again at zero when they overflow.
pub open spec fn wrapped(sum: int) -> int {
    if sum > usize::MAX {
        sum - usize::MAX - 1
    } else {
        sum
    }
}

/// `a - b`, but not below zero.
pub open spec fn less(a: int, b: int) -> int {
    if a > b {
        a - b
    } else {
        0
    }
}

impl Settlement {
    /// The frames that left the allocator.
    pub open spec fn consumed(self) -> int {
        less(self.free_before as int, self.free_after as int)
    }

    /// The frames that reached quarantine: the program's own, and those of what
    /// it started itself.
    pub open spec fn quarantined(self, now: SpawnAccounts) -> int {
        self.held + less(now.quarantined as int, self.before.quarantined as int)
    }

    /// The frames lost, by the program and by what it started itself.
    pub open spec fn all_leaked(self, now: SpawnAccounts) -> int {
        self.leaked + less(now.leaked as int, self.before.leaked as int)
    }

    /// The counts fit what they are counted in.
    pub open spec fn countable(self, now: SpawnAccounts) -> bool {
        &&& self.quarantined(now) <= usize::MAX
        &&& self.all_leaked(now) <= usize::MAX
        &&& self.consumed() <= usize::MAX
    }

    /// What comes of a program that ended so: every frame that left the
    /// allocator has to be in quarantine, and none may be lost. A program that
    /// was not loaded is told first.
    pub open spec fn result(self, now: SpawnAccounts, outcome: SpawnOutcome) -> Result<
        SpawnOutcome,
        SpawnError,
    > {
        match self.loaded {
            Err(error) => Err(SpawnError::Load(error)),
            Ok(_) => if self.consumed() != self.quarantined(now) || self.all_leaked(now) != 0 {
                Err(
                    SpawnError::DestroyAccounting {
                        consumed: self.consumed() as usize,
                        quarantined: self.quarantined(now) as usize,
                        leaked: self.all_leaked(now) as usize,
                    },
                )
            } else {
                Ok(outcome)
            },
        }
    }

    /// The accounts with the frames of the program in them.
    pub open spec fn accounts(self, now: SpawnAccounts) -> SpawnAccounts {
        SpawnAccounts {
            quarantined: wrapped(now.quarantined + self.held) as usize,
            leaked: wrapped(now.leaked + self.leaked) as usize,
        }
    }
}

/// `a - b`, but not below zero.
fn minus(a: usize, b: usize) -> (r: usize)
    ensures
        r == less(a as int, b as int),
{
    if a > b {
        a - b
    } else {
        0
    }
}

/// Settles the accounts of a program that ended.
pub fn settle(
    accounts: &mut SpawnAccounts,
    settlement: Settlement,
    outcome: SpawnOutcome,
) -> (r: Result<SpawnOutcome, SpawnError>)
    requires
        settlement.countable(*old(accounts)),
    ensures
        *final(accounts) == settlement.accounts(*old(accounts)),
        r == settlement.result(*old(accounts), outcome),
{
    let consumed: usize = if settlement.free_before > settlement.free_after {
        (settlement.free_before - settlement.free_after) as usize
    } else {
        0
    };
    let quarantined: usize = settlement.held + minus(
        accounts.quarantined,
        settlement.before.quarantined,
    );
    let leaked: usize = settlement.leaked + minus(accounts.leaked, settlement.before.leaked);
    accounts.quarantined = accounts.quarantined.wrapping_add(settlement.held);
    accounts.leaked = accounts.leaked.wrapping_add(settlement.leaked);
    match settlement.loaded {
        Err(error) => Err(SpawnError::Load(error)),
        Ok(_) => {
            if consumed != quarantined || leaked != 0 {
                return Err(SpawnError::DestroyAccounting { consumed, quarantined, leaked });
            }
            Ok(outcome)
        },
    }
}

/// What the kernel answered on the way of starting a program.
pub struct Answers {
    /// How deep programs are nested.
    pub depth: usize,
    /// The inode that the path leads to.
    pub lookup: Result<Inode, Ext2Error>,
    /// The size of a block.
    pub block_size: usize,
    /// The blocks of the file.
    pub blocks: Vec<Block>,
    /// The free frames before; nothing where the allocator is in use.
    pub free_before: Option<u64>,
    /// How loading went.
    pub loaded: Result<u64, UserLoadError>,
    /// The frames that the destruction of the address space held back.
    pub held: usize,
    /// The frames that it lost.
    pub leaked: usize,
    /// Whether the user interrupted the program.
    pub interrupted: bool,
    /// The status that the program exited with.
    pub exited: Option<u64>,
    /// The fault that it ended by.
    pub vector: u64,
    /// The free frames after; nothing where the allocator is in use.
    pub free_after: Option<u64>,
    /// The accounts before it started.
    pub before: SpawnAccounts,
    /// The stack that the kernel enters on from the parent, before the program
    /// ran.
    pub rsp0_before: u64,
    /// The same, after it ran.
    pub rsp0_after: u64,
}

impl Answers {
    /// The settlement that these answers lead to, given the free frames before.
    pub open spec fn settlement(self, free_before: u64) -> Settlement {
        Settlement {
            loaded: self.loaded,
            held: self.held,
            leaked: self.leaked,
            free_before,
            free_after: match self.free_after {
                Some(count) => count,
                None => free_before,
            },
            before: self.before,
        }
    }
}

/// The limits that a program is started within.
#[derive(Clone, Copy)]
pub struct Limits {
    /// How deep programs may be nested.
    pub depth: usize,
    /// The largest image.
    pub image: usize,
}

/// What goes wrong before a program runs, in order: the depth, the file, its
/// blocks, the allocator, the arguments.
pub open spec fn refusal(
    answers: Answers,
    limits: Limits,
    packed: Seq<u8>,
    count: int,
) -> Option<SpawnError> {
    match file_check(
        answers.depth as int,
        limits.depth as int,
        answers.lookup,
        limits.image as int,
    ) {
        Err(error) => Some(error),
        Ok(size) => match gathered(
            answers.blocks@,
            answers.block_size as int,
            size as int,
            0,
        ) {
            Err(error) => Some(error),
            Ok(_) => if answers.free_before is None {
                Some(SpawnError::Load(UserLoadError::AllocatorUnavailable))
            } else if split_strings(packed, 0, count) is None {
                Some(SpawnError::ArgvMalformed)
            } else {
                None
            },
        },
    }
}

/// Starts a program and settles its accounts, given what the kernel answered on
/// the way.
pub fn spawn(
    accounts: &mut SpawnAccounts,
    answers: &Answers,
    limits: Limits,
    packed: &[u8],
    count: usize,
) -> (r: Result<SpawnOutcome, SpawnError>)
    requires
        count <= MAX_ARGV,
        answers.blocks@.len() <= u32::MAX,
        file_check(
            answers.depth as int,
            limits.depth as int,
            answers.lookup,
            limits.image as int,
        ) matches Ok(size) ==> missing(
            answers.blocks@,
            answers.block_size as int,
            size as int,
            0,
        ) == 0,
        refusal(*answers, limits, packed@, count as int) is None ==> answers.rsp0_before
            == answers.rsp0_after && answers.settlement(answers.free_before->0).countable(
            *old(accounts),
        ),
    ensures
        match refusal(*answers, limits, packed@, count as int) {
            Some(error) => r == Err::<SpawnOutcome, SpawnError>(error) && *final(accounts)
                == *old(accounts),
            None => {
                let settlement = answers.settlement(answers.free_before->0);
                let outcome = ended(answers.interrupted, answers.exited, answers.vector);
                &&& r == settlement.result(*old(accounts), outcome)
                &&& *final(accounts) == settlement.accounts(*old(accounts))
            },
        },
{
    let size: usize = match check_file(answers.depth, limits.depth, &answers.lookup, limits.image) {
        Ok(size) => size,
        Err(error) => {
            return Err(error);
        },
    };
    match gather_image(answers.blocks.as_slice(), answers.block_size, size) {
        Ok(_) => {},
        Err(error) => {
            return Err(error);
        },
    }
    let free_before: u64 = match answers.free_before {
        Some(free) => free,
        None => {
            return Err(SpawnError::Load(UserLoadError::AllocatorUnavailable));
        },
    };
    match split_argv(packed, count) {
        Ok(_) => {},
        Err(error) => {
            return Err(error);
        },
    }
    let settlement = Settlement {
        loaded: answers.loaded,
        held: answers.held,
        leaked: answers.leaked,
        free_before,
        free_after: match answers.free_after {
            Some(free) => free,
            None => free_before,
        },
        before: answers.before,
    };
    let outcome = ending(answers.interrupted, answers.exited, answers.vector);
    settle(accounts, settlement, outcome)
}

/// What came of loading and running a program, and what the destruction of its
/// address space held back and lost. An allocator that is in use, and an address
/// space that could not be made, leave nothing to destroy. A program that ran
/// gives its entry; one that was only loaded gives zero.
pub fn load_user_program(
    allocator: bool,
    space: Result<(), userland::AddressSpaceError>,
    mapped: &Result<Loaded, UserLoadError>,
    ran: Option<Result<(), UserLoadError>>,
    destroyed: (usize, usize),
) -> (r: (Result<u64, UserLoadError>, usize, usize))
    ensures
        r == (if !allocator {
            (Err::<u64, UserLoadError>(UserLoadError::AllocatorUnavailable), 0usize, 0usize)
        } else {
            match space {
                Err(error) => (Err(UserLoadError::AddressSpace(error)), 0usize, 0usize),
                Ok(_) => match *mapped {
                    Err(error) => (Err(error), destroyed.0, destroyed.1),
                    Ok(loaded) => match ran {
                        Some(Err(error)) => (Err(error), destroyed.0, destroyed.1),
                        Some(Ok(_)) => (Ok(loaded.entry), destroyed.0, destroyed.1),
                        None => (Ok(0u64), destroyed.0, destroyed.1),
                    },
                },
            }
        }),
{
    if !allocator {
        return (Err(UserLoadError::AllocatorUnavailable), 0, 0);
    }
    match space {
        Err(error) => {
            return (Err(UserLoadError::AddressSpace(error)), 0, 0);
        },
        Ok(_) => {},
    }
    let outcome: Result<u64, UserLoadError> = match mapped {
        Err(error) => Err(*error),
        Ok(loaded) => match ran {
            Some(Err(error)) => Err(error),
            Some(Ok(_)) => Ok(loaded.entry),
            None => Ok(0),
        },
    };
    (outcome, destroyed.0, destroyed.1)
}

/// A process that is loaded: where it starts, its stack, its heap and its open
/// files.
pub struct UserProcess {
    pub entry: u64,
    pub stack_top: u64,
    pub heap: Heap,
    pub files: FileTable,
}

/// The heap and the open files of the program that runs.
pub struct Current {
    pub heap: Heap,
    pub files: FileTable,
}

/// A process and what is current, with their heaps and their files exchanged.
pub open spec fn exchanged(process: UserProcess, current: Current) -> (UserProcess, Current) {
    (
        UserProcess { heap: current.heap, files: current.files, ..process },
        Current { heap: process.heap, files: process.files },
    )
}

/// Puts the heap and the files of a process in the place of the current ones,
/// or back: what is current goes to the process and the other way round.
pub fn exchange(process: &mut UserProcess, current: &mut Current)
    ensures
        (*final(process), *final(current)) == exchanged(*old(process), *old(current)),
{
    let heap = crate::userland::swap_current_heap(&mut current.heap, process.heap);
    process.heap = heap;
    core::mem::swap(&mut current.files, &mut process.files);
}

/// The exchange is made before a program runs and after: the program that ran
/// before finds its heap and its files again, whatever the one that ran left,
/// and that goes with its process.
pub proof fn exchanges_cancel(process: UserProcess, current: Current, left: Current)
    ensures
        ({
            let (entered, _) = exchanged(process, current);
            let (after, resumed) = exchanged(entered, left);
            &&& resumed == current
            &&& after == (UserProcess { heap: left.heap, files: left.files, ..process })
        }),
{
}

/// What is to be done after a program left its kernel stack.
#[derive(Debug, Clone, Copy, PartialEq, Eq, Structural)]
pub enum Verdict {
    /// Go on.
    Continue,
    /// The stack ran into its end: stop the machine.
    Overrun,
    /// More than half of it was used: stop the machine.
    OverBudget,
}

/// How the kernel enters a program: the stack that it comes back on, where the
/// program starts, and its first stack pointer.
#[derive(Debug, Clone, Copy, PartialEq, Eq, Structural)]
pub struct Entry {
    pub rsp0: u64,
    pub entry: u64,
    pub stack_top: u64,
}

/// Before a program runs: its heap and its files take the place of the current
/// ones.
pub fn enter_loaded_program(
    process: &mut UserProcess,
    current: &mut Current,
    depth: usize,
    kernel: u64,
    excursion: u64,
) -> (r: Entry)
    ensures
        (*final(process), *final(current)) == exchanged(*old(process), *old(current)),
        r.entry == old(process).entry,
        r.stack_top == old(process).stack_top,
        r.rsp0 == (if depth == 0 {
            kernel
        } else {
            excursion
        }),
{
    exchange(process, current);
    Entry {
        rsp0: entry_stack(depth, kernel, excursion),
        entry: process.entry,
        stack_top: process.stack_top,
    }
}

/// What the kernel answered when a program came back.
#[derive(Debug, Clone, Copy, PartialEq, Eq, Structural)]
pub struct Return {
    /// Whether the keyboard was given to the program.
    pub claimed_foreground: bool,
    /// Whether the user interrupted it.
    pub interrupted: bool,
    /// How much of its kernel stack was used.
    pub used: usize,
    /// How large that stack is.
    pub capacity: usize,
    /// Whether the end of that stack is untouched.
    pub intact: bool,
    /// Whether not more than half of it was used.
    pub within_budget: bool,
}

/// What is to be done when a program has come back, and what is told of it.
#[derive(Debug, Clone, Copy, PartialEq, Eq, Structural)]
pub struct Aftermath {
    /// The keyboard is taken back.
    pub release_foreground: bool,
    /// What was typed for the program is thrown away.
    pub discard_input: bool,
    /// Whether the machine goes on.
    pub verdict: Verdict,
    /// How much of the kernel stack was used, in percent.
    pub percent: usize,
    /// How much of the program's own stack was used.
    pub stack: HighWater,
    /// How many files the program opened in all.
    pub opened: usize,
    /// How many of them are open.
    pub open: usize,
}

/// After a program ran: the heap and the files of the one before are current
/// again, and the process has what the program left.
pub fn leave_loaded_program(
    process: &mut UserProcess,
    current: &mut Current,
    answer: Return,
    stack_page: &[u8],
) -> (r: Aftermath)
    requires
        answer.capacity > 0,
        answer.used * 100 <= usize::MAX,
        old(current).files.wf(),
        stack_page@.len() == startup::PAGE,
    ensures
        (*final(process), *final(current)) == exchanged(*old(process), *old(current)),
        r.release_foreground == answer.claimed_foreground,
        r.discard_input == answer.interrupted,
        r.verdict == (if !answer.intact {
            Verdict::Overrun
        } else if !answer.within_budget {
            Verdict::OverBudget
        } else {
            Verdict::Continue
        }),
        r.percent == answer.used * 100 / answer.capacity as int,
        r.stack.used == startup::PAGE - userland::untouched(stack_page@, 0),
        r.stack.percent == r.stack.used * 100 / 4096,
        r.stack.over_half == (r.stack.used * 2 > startup::PAGE),
        r.opened == old(current).files.total(),
        r.open == vfs::files_in(old(current).files@, vfs::MAX_OPEN_FILES as int),
{
    exchange(process, current);
    let (verdict, percent) = judge_stack(
        answer.intact,
        answer.within_budget,
        answer.used,
        answer.capacity,
    );
    Aftermath {
        release_foreground: answer.claimed_foreground,
        discard_input: answer.interrupted,
        verdict,
        percent,
        stack: report_user_stack_high_water(stack_page),
        opened: process.files.opened_total(),
        open: process.files.open_count(),
    }
}

/// Judges a kernel stack after a program left it, and tells how much of it was
/// used, in percent.
pub fn judge_stack(intact: bool, within_budget: bool, used: usize, capacity: usize) -> (r: (
    Verdict,
    usize,
))
    requires
        capacity > 0,
        used * 100 <= usize::MAX,
    ensures
        r.0 == (if !intact {
            Verdict::Overrun
        } else if !within_budget {
            Verdict::OverBudget
        } else {
            Verdict::Continue
        }),
        r.1 == used * 100 / capacity as int,
{
    let percent: usize = used * 100 / capacity;
    let verdict = if !intact {
        Verdict::Overrun
    } else if !within_budget {
        Verdict::OverBudget
    } else {
        Verdict::Continue
    };
    (verdict, percent)
}

/// The stack that the kernel enters on from the program: that of the kernel
/// itself for the outermost program, and that of the excursion for the others.
pub fn entry_stack(depth: usize, kernel: u64, excursion: u64) -> (r: u64)
    ensures
        r == (if depth == 0 {
            kernel
        } else {
            excursion
        }),
{
    if depth == 0 {
        kernel
    } else {
        excursion
    }
}

/// A program is started from a regular file that is not too large, where programs
/// are not nested too deep; every other case has its error, and the depth comes
/// first.
pub proof fn only_regular_files_are_started(
    depth: int,
    max_depth: int,
    lookup: Result<Inode, Ext2Error>,
    max_size: int,
)
    ensures
        depth >= max_depth ==> file_check(depth, max_depth, lookup, max_size) == Err::<
            u64,
            SpawnError,
        >(SpawnError::TooDeep),
        depth < max_depth ==> match lookup {
            Err(error) => file_check(depth, max_depth, lookup, max_size) == Err::<u64, SpawnError>(
                SpawnError::Lookup(error),
            ),
            Ok(inode) => file_check(depth, max_depth, lookup, max_size) == (if inode@.mode / 4096
                == 4 {
                Err::<u64, SpawnError>(SpawnError::IsDirectory)
            } else if inode@.mode / 4096 != 8 {
                Err(SpawnError::NotRegularFile)
            } else if inode@.size > max_size {
                Err(SpawnError::TooLarge(inode@.size))
            } else {
                Ok(inode@.size)
            }),
        },
{
    match lookup {
        Ok(inode) => {
            vfs::the_upper_bits_tell_the_kind(inode@.mode);
        },
        Err(_) => {},
    }
}

/// Whether the first `count` blocks could be had and are whole.
pub open spec fn whole_blocks(blocks: Seq<Block>, block_size: int, count: int) -> bool {
    forall|i: int|
        0 <= i < count ==> (#[trigger] blocks[i] matches Ok(block) && block@.len() == block_size)
}

proof fn lemma_gathered(blocks: Seq<Block>, block_size: int, left: int, index: int, count: int)
    requires
        0 < block_size,
        0 <= left,
        0 <= index <= count <= blocks.len(),
        whole_blocks(blocks, block_size, count),
        left <= (count - index) * block_size,
    ensures
        gathered(blocks, block_size, left, index) matches Ok(image) && image.len() == left && (
        forall|k: int|
            0 <= k < left ==> #[trigger] image[k] == blocks[index + k / block_size]->Ok_0@[k
                % block_size]),
    decreases left,
{
    if left > 0 {
        assert(index < count) by (nonlinear_arith)
            requires
                left > 0,
                0 < block_size,
                index <= count,
                left <= (count - index) * block_size,
        ;
        let block = blocks[index]->Ok_0@;
        assert(blocks[index] is Ok);
        let part = block_part(block, block_size, left);
        let rest = left - part;
        assert(rest <= (count - index - 1) * block_size) by (nonlinear_arith)
            requires
                rest == 0 || rest == left - block_size,
                0 < block_size,
                index < count,
                left <= (count - index) * block_size,
        ;
        lemma_gathered(blocks, block_size, rest, index + 1, count);
        let tail = gathered(blocks, block_size, rest, index + 1)->Ok_0;
        let image = block.take(part) + tail;
        assert(gathered(blocks, block_size, left, index) == Ok::<Seq<u8>, SpawnError>(image));
        assert forall|k: int| 0 <= k < left implies #[trigger] image[k] == blocks[index + k
            / block_size]->Ok_0@[k % block_size] by {
            if k < block_size {
                vstd::arithmetic::div_mod::lemma_fundamental_div_mod_converse(
                    k,
                    block_size,
                    0,
                    k,
                );
            } else {
                let j = k - block_size;
                assert(image[k] == tail[j]);
                vstd::arithmetic::div_mod::lemma_fundamental_div_mod(j, block_size);
                assert(k == block_size * (j / block_size + 1) + j % block_size)
                    by (nonlinear_arith)
                    requires
                        k == j + block_size,
                        j == block_size * (j / block_size) + j % block_size,
                ;
                vstd::arithmetic::div_mod::lemma_fundamental_div_mod_converse(
                    k,
                    block_size,
                    j / block_size + 1,
                    j % block_size,
                );
            }
        }
    }
}

/// The image of a program is its file: the bytes of its blocks, one block behind
/// the other, up to the size of the file.
pub proof fn the_image_is_the_file(blocks: Seq<Block>, block_size: int, size: int, count: int)
    requires
        0 < block_size,
        0 <= size <= count * block_size,
        0 <= count <= blocks.len(),
        whole_blocks(blocks, block_size, count),
    ensures
        gathered(blocks, block_size, size, 0) matches Ok(image) && image.len() == size && (forall|
            k: int,
        |
            0 <= k < size ==> #[trigger] image[k] == blocks[k / block_size]->Ok_0@[k % block_size]),
        missing(blocks, block_size, size, 0) == 0,
{
    lemma_gathered(blocks, block_size, size, 0, count);
    lemma_missing(blocks, block_size, size, 0, count);
}

proof fn lemma_missing(blocks: Seq<Block>, block_size: int, left: int, index: int, count: int)
    requires
        0 < block_size,
        0 <= left,
        0 <= index <= count <= blocks.len(),
        whole_blocks(blocks, block_size, count),
    ensures
        left <= (count - index) * block_size ==> missing(blocks, block_size, left, index) == 0,
        count == blocks.len() && left > (count - index) * block_size ==> missing(
            blocks,
            block_size,
            left,
            index,
        ) == left - (count - index) * block_size,
    decreases left,
{
    if left > 0 {
        if index < count {
            let block = blocks[index]->Ok_0@;
            assert(blocks[index] is Ok);
            let part = block_part(block, block_size, left);
            lemma_missing(blocks, block_size, left - part, index + 1, count);
            assert((count - index) * block_size == (count - index - 1) * block_size + block_size)
                by (nonlinear_arith);
            assert((count - index - 1) * block_size >= 0) by (nonlinear_arith)
                requires
                    index < count,
                    0 < block_size,
            ;
        } else {
            assert((count - index) * block_size == 0) by (nonlinear_arith)
                requires
                    index == count,
            ;
        }
    } else {
        assert((count - index) * block_size >= 0) by (nonlinear_arith)
            requires
                index <= count,
                0 < block_size,
        ;
    }
}

/// More blocks are asked for as long as those that there are do not hold the file.
pub proof fn blocks_are_asked_for_until_all_is_there(
    blocks: Seq<Block>,
    block_size: int,
    size: int,
)
    requires
        0 < block_size,
        0 <= size,
        whole_blocks(blocks, block_size, blocks.len() as int),
    ensures
        missing(blocks, block_size, size, 0) > 0 <==> size > blocks.len() * block_size,
{
    lemma_missing(blocks, block_size, size, 0, blocks.len() as int);
    assert((blocks.len() - 0) * block_size == blocks.len() * block_size);
}

/// A block that cannot be had is the error, where all before it are whole and do
/// not hold the file yet.
pub proof fn the_first_bad_block_is_the_error(
    blocks: Seq<Block>,
    block_size: int,
    left: int,
    index: int,
    bad: int,
)
    requires
        0 < block_size,
        0 <= index <= bad < blocks.len(),
        left > (bad - index) * block_size,
        whole_blocks(blocks, block_size, bad),
        blocks[bad] is Err,
    ensures
        gathered(blocks, block_size, left, index) == Err::<Seq<u8>, SpawnError>(
            SpawnError::Read(blocks[bad]->Err_0),
        ),
    decreases left,
{
    assert((bad - index) * block_size >= 0) by (nonlinear_arith)
        requires
            index <= bad,
            0 < block_size,
    ;
    if index < bad {
        assert(blocks[index] is Ok);
        assert((bad - index) * block_size == (bad - index - 1) * block_size + block_size)
            by (nonlinear_arith);
        assert((bad - index - 1) * block_size >= 0) by (nonlinear_arith)
            requires
                index < bad,
                0 < block_size,
        ;
        the_first_bad_block_is_the_error(blocks, block_size, left - block_size, index + 1, bad);
    }
}

/// Packed arguments that lack the zero behind the last of them are malformed.
pub proof fn a_missing_zero_is_noticed(argv: Seq<Seq<u8>>, rest: Seq<u8>)
    requires
        forall|i: int| 0 <= i < argv.len() ==> !(#[trigger] argv[i]).contains(0u8),
        !rest.contains(0u8),
    ensures
        split_strings(pack_strings(argv) + rest, 0, argv.len() as int + 1) is None,
{
    lemma_missing_zero(Seq::empty(), argv, rest);
    assert(Seq::<u8>::empty() + (pack_strings(argv) + rest) =~= pack_strings(argv) + rest);
}

proof fn lemma_missing_zero(front: Seq<u8>, argv: Seq<Seq<u8>>, rest: Seq<u8>)
    requires
        forall|i: int| 0 <= i < argv.len() ==> !(#[trigger] argv[i]).contains(0u8),
        !rest.contains(0u8),
    ensures
        split_strings(
            front + (pack_strings(argv) + rest),
            front.len() as int,
            argv.len() as int + 1,
        ) is None,
    decreases argv.len(),
{
    let packed = front + (pack_strings(argv) + rest);
    let from = front.len() as int;
    if argv.len() == 0 {
        bytes::lemma_first_at(packed, 0, from);
        let end = bytes::first_at(packed, 0, from);
        if end < packed.len() {
            assert(rest[end - from] == 0);
            assert(rest.contains(rest[end - from]));
        }
    } else {
        let first = argv[0];
        let end = from + first.len();
        let tail = pack_strings(argv.skip(1)) + rest;
        assert(packed =~= front + first.push(0) + tail);
        assert forall|i: int| from <= i < end implies packed[i] != 0 by {
            assert(packed[i] == first[i - from]);
            assert(first.contains(first[i - from]));
        }
        assert(packed[end] == 0);
        bytes::lemma_first_at_is(packed, 0, from, end);
        lemma_missing_zero(front + first.push(0), argv.skip(1), rest);
    }
}

/// Strings are packed one behind the other, each with a zero behind it.
pub proof fn arguments_are_packed_in_order(first: Seq<u8>, rest: Seq<Seq<u8>>)
    ensures
        pack_strings(seq![first] + rest) == first.push(0) + pack_strings(rest),
        pack_strings(Seq::empty()).len() == 0,
{
    assert((seq![first] + rest).skip(1) =~= rest);
    assert((seq![first] + rest)[0] == first);
}

/// How a program ended: that the user interrupted it counts before anything else,
/// then the status it exited with, and only then the fault.
pub proof fn an_interruption_counts_first(exited: Option<u64>, vector: u64)
    ensures
        ended(true, exited, vector) == SpawnOutcome::Interrupted,
        exited matches Some(status) ==> ended(false, exited, vector) == SpawnOutcome::Exited(
            status,
        ),
        exited is None ==> ended(false, exited, vector) == SpawnOutcome::Folded(vector),
{
}

/// Frames are accounted for: a program that was loaded ends well exactly where
/// every frame that left the allocator is in quarantine and none was lost, and
/// else the counts are told.
pub proof fn every_frame_is_accounted_for(
    settlement: Settlement,
    now: SpawnAccounts,
    outcome: SpawnOutcome,
)
    requires
        settlement.loaded is Ok,
        settlement.countable(now),
        settlement.free_after <= settlement.free_before,
        settlement.before.quarantined <= now.quarantined,
        settlement.before.leaked <= now.leaked,
    ensures
        ({
            let gone = settlement.free_before - settlement.free_after;
            let held = settlement.held + (now.quarantined - settlement.before.quarantined);
            let lost = settlement.leaked + (now.leaked - settlement.before.leaked);
            &&& gone == held && lost == 0 ==> settlement.result(now, outcome) == Ok::<
                SpawnOutcome,
                SpawnError,
            >(outcome)
            &&& gone != held || lost != 0 ==> settlement.result(now, outcome) == Err::<
                SpawnOutcome,
                SpawnError,
            >(
                SpawnError::DestroyAccounting {
                    consumed: gone as usize,
                    quarantined: held as usize,
                    leaked: lost as usize,
                },
            )
        }),
{
}

/// The accounts grow by what the program held back and lost, and a program that
/// was not loaded is told as that.
pub proof fn accounts_grow_by_what_a_program_held(
    settlement: Settlement,
    now: SpawnAccounts,
    outcome: SpawnOutcome,
)
    ensures
        now.quarantined + settlement.held <= usize::MAX ==> settlement.accounts(now).quarantined
            == now.quarantined + settlement.held,
        now.leaked + settlement.leaked <= usize::MAX ==> settlement.accounts(now).leaked
            == now.leaked + settlement.leaked,
        settlement.loaded matches Err(error) ==> settlement.result(now, outcome) == Err::<
            SpawnOutcome,
            SpawnError,
        >(SpawnError::Load(error)),
{
}

/// A program is refused for the first thing that stands in its way, and only for
/// such a thing: its file, its blocks, the allocator, its arguments.
pub proof fn a_program_is_refused_for_a_reason(
    answers: Answers,
    limits: Limits,
    packed: Seq<u8>,
    count: int,
)
    ensures
        ({
            let file = file_check(
                answers.depth as int,
                limits.depth as int,
                answers.lookup,
                limits.image as int,
            );
            let image = gathered(
                answers.blocks@,
                answers.block_size as int,
                file->Ok_0 as int,
                0,
            );
            let refused = refusal(answers, limits, packed, count);
            &&& file is Err ==> refused == Some(file->Err_0)
            &&& file is Ok && image is Err ==> refused == Some(image->Err_0)
            &&& file is Ok && image is Ok && answers.free_before is None ==> refused == Some(
                SpawnError::Load(UserLoadError::AllocatorUnavailable),
            )
            &&& file is Ok && image is Ok && answers.free_before is Some && split_strings(
                packed,
                0,
                count,
            ) is None ==> refused == Some(SpawnError::ArgvMalformed)
            &&& file is Ok && image is Ok && answers.free_before is Some && split_strings(
                packed,
                0,
                count,
            ) is Some ==> refused is None
        }),
{
}

} // verus!
