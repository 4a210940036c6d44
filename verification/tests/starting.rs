use zaytos::loader::{Stage, Stay};
use zaytos::spawn::{
    check_file, ending, enter_loaded_program, entry_stack, gather_image, judge_stack, needs_block,
    leave_loaded_program, load_user_program, reset_spawn_accounting, settle, spawn,
    spawn_accounting, split_argv, Answers, Block, Current, Ext2Error, Limits, Return, Settlement,
    SpawnAccounts, SpawnError, SpawnOutcome, UserProcess, Verdict,
};
use zaytos::starter::{Answer, Ask, Prepared, Ran, Starter};
use zaytos::userland::{
    AddressSpaceError, Heap, Loaded, UserLoadError, USER_STACK_FILL,
};
use zaytos::vfs::{Ext2Inode, File, FileTable, Inode, INODE_BLOCK_COUNT};

fn inode(size: u64, mode: u16) -> Inode {
    Inode::from_ext2(Ext2Inode {
        number: 18,
        mode,
        size,
        links_count: 1,
        blocks_512: 1,
        blocks: [0; INODE_BLOCK_COUNT],
    })
}

const REGULAR: u16 = 0o100_755;
const EMPTY: SpawnAccounts = SpawnAccounts {
    quarantined: 0,
    leaked: 0,
};

#[test]
fn only_a_regular_file_of_bearable_size_is_started() {
    assert_eq!(check_file(0, 4, &Ok(inode(10, REGULAR)), 100), Ok(10));
    assert_eq!(
        check_file(4, 4, &Ok(inode(10, REGULAR)), 100),
        Err(SpawnError::TooDeep)
    );
    assert_eq!(
        check_file(0, 4, &Err(Ext2Error::Other(2)), 100),
        Err(SpawnError::Lookup(Ext2Error::Other(2)))
    );
    assert_eq!(
        check_file(0, 4, &Ok(inode(10, 0o040_755)), 100),
        Err(SpawnError::IsDirectory)
    );
    assert_eq!(
        check_file(0, 4, &Ok(inode(10, 0o020_644)), 100),
        Err(SpawnError::NotRegularFile)
    );
    assert_eq!(
        check_file(0, 4, &Ok(inode(101, REGULAR)), 100),
        Err(SpawnError::TooLarge(101))
    );
}

#[test]
fn an_image_is_gathered_from_its_blocks() {
    let blocks = vec![
        Ok(vec![1, 2, 3, 4]),
        Ok(vec![5, 6, 7, 8]),
        Ok(vec![]),
        Ok(vec![]),
        Ok(vec![]),
        Ok(vec![]),
    ];
    assert_eq!(gather_image(&blocks, 4, 6), Ok(vec![1, 2, 3, 4, 5, 6]));
    let sparse = vec![Ok(vec![1]), Ok(vec![]), Ok(vec![])];
    assert_eq!(
        gather_image(&sparse, 4, 3),
        Err(SpawnError::Read(Ext2Error::SparseBlock(1)))
    );
    let broken = vec![Err(Ext2Error::Other(9)), Ok(vec![])];
    assert_eq!(
        gather_image(&broken, 4, 2),
        Err(SpawnError::Read(Ext2Error::Other(9)))
    );
}

#[test]
fn packed_arguments_come_apart_again() {
    assert_eq!(
        split_argv(b"echo\0hi there\0\0", 3),
        Ok(vec![b"echo".to_vec(), b"hi there".to_vec(), b"".to_vec()])
    );
    assert_eq!(split_argv(b"echo\0hi", 2), Err(SpawnError::ArgvMalformed));
}

#[test]
fn an_interruption_counts_before_an_exit() {
    assert_eq!(ending(true, Some(0), 14), SpawnOutcome::Interrupted);
    assert_eq!(ending(false, Some(3), 14), SpawnOutcome::Exited(3));
    assert_eq!(ending(false, None, 14), SpawnOutcome::Folded(14));
}

fn answers() -> Answers {
    Answers {
        depth: 0,
        lookup: Ok(inode(4, REGULAR)),
        block_size: 1024,
        blocks: vec![Ok(vec![1, 2, 3, 4]), Ok(vec![]), Ok(vec![]), Ok(vec![])],
        free_before: Some(100),
        loaded: Ok(0x40_0000),
        held: 7,
        leaked: 0,
        interrupted: false,
        exited: Some(0),
        vector: 0,
        free_after: Some(93),
        before: EMPTY,
        rsp0_before: 0x9000,
        rsp0_after: 0x9000,
    }
}

const LIMITS: Limits = Limits { depth: 4, image: 4 };

#[test]
fn a_program_that_ends_with_every_frame_accounted_for_is_well() {
    let mut accounts = EMPTY;
    let answers = answers();
    assert_eq!(
        spawn(&mut accounts, &answers, LIMITS, b"a\0", 1),
        Ok(SpawnOutcome::Exited(0))
    );
    assert_eq!(spawn_accounting(&accounts), (7, 0));
    reset_spawn_accounting(&mut accounts);
    assert_eq!(spawn_accounting(&accounts), (0, 0));
}

#[test]
fn a_frame_that_is_missing_is_told() {
    let mut accounts = EMPTY;
    let mut answers = answers();
    answers.free_after = Some(90);
    assert_eq!(
        spawn(&mut accounts, &answers, LIMITS, b"a\0", 1),
        Err(SpawnError::DestroyAccounting {
            consumed: 10,
            quarantined: 7,
            leaked: 0
        })
    );
}

#[test]
fn what_a_program_started_itself_counts_with_it() {
    let mut accounts = SpawnAccounts {
        quarantined: 5,
        leaked: 0,
    };
    let settlement = Settlement {
        loaded: Ok(1),
        held: 7,
        leaked: 0,
        free_before: 100,
        free_after: 88,
        before: EMPTY,
    };
    assert_eq!(
        settle(&mut accounts, settlement, SpawnOutcome::Interrupted),
        Ok(SpawnOutcome::Interrupted)
    );
    assert_eq!(accounts.quarantined, 12);
}

#[test]
fn a_program_is_refused_before_anything_is_counted() {
    let mut accounts = EMPTY;
    let mut wrong = answers();
    wrong.free_before = None;
    assert_eq!(
        spawn(&mut accounts, &wrong, LIMITS, b"a\0", 1),
        Err(SpawnError::Load(UserLoadError::AllocatorUnavailable))
    );
    assert_eq!(
        spawn(&mut accounts, &answers(), LIMITS, b"a", 1),
        Err(SpawnError::ArgvMalformed)
    );
    let mut wrong = answers();
    wrong.loaded = Err(UserLoadError::OutOfFrames);
    assert_eq!(accounts, EMPTY);
    assert_eq!(
        spawn(&mut accounts, &wrong, LIMITS, b"a\0", 1),
        Err(SpawnError::Load(UserLoadError::OutOfFrames))
    );
}

#[test]
fn loading_tells_the_entry_or_the_first_error() {
    let loaded = |entry| {
        Ok(Loaded {
            entry,
            stack_top: 0,
            heap: Heap::empty(),
            stack: Vec::new(),
        })
    };
    assert_eq!(
        load_user_program(true, Ok(()), &loaded(5), Some(Ok(())), (3, 0)),
        (Ok(5), 3, 0)
    );
    assert_eq!(
        load_user_program(true, Ok(()), &loaded(5), None, (3, 1)),
        (Ok(0), 3, 1)
    );
    assert_eq!(
        load_user_program(false, Ok(()), &loaded(5), None, (3, 1)),
        (Err(UserLoadError::AllocatorUnavailable), 0, 0)
    );
    let error = AddressSpaceError { code: 1 };
    assert_eq!(
        load_user_program(true, Err(error), &loaded(5), None, (3, 1)),
        (Err(UserLoadError::AddressSpace(error)), 0, 0)
    );
    assert_eq!(
        load_user_program(true, Ok(()), &Err(UserLoadError::OutOfFrames), None, (2, 0)),
        (Err(UserLoadError::OutOfFrames), 2, 0)
    );
}

#[test]
fn a_run_gives_back_the_heap_and_the_files_of_the_one_before() {
    let mut files = FileTable::new();
    files.insert(File::new(inode(1, REGULAR))).unwrap();
    let mut current = Current {
        heap: Heap::from_image_end(0x40_0000),
        files,
    };
    let mut process = UserProcess {
        entry: 0x50_0000,
        stack_top: 0x7f_ff00,
        heap: Heap::from_image_end(0x60_0000),
        files: FileTable::new(),
    };
    let entry = enter_loaded_program(&mut process, &mut current, 1, 0x1000, 0x2000);
    assert_eq!(
        (entry.rsp0, entry.entry, entry.stack_top),
        (0x2000, 0x50_0000, 0x7f_ff00)
    );
    assert_eq!(current.heap.start(), 0x60_0000);
    assert_eq!(current.files.open_count(), 0);
    current.heap.set_break(0x60_2000);
    current.files.insert(File::new(inode(2, REGULAR))).unwrap();
    current.files.insert(File::new(inode(2, REGULAR))).unwrap();
    current.files.remove(3).unwrap();
    let after = leave_loaded_program(
        &mut process,
        &mut current,
        Return {
            claimed_foreground: true,
            interrupted: false,
            used: 1000,
            capacity: 4000,
            intact: true,
            within_budget: true,
        },
        &[USER_STACK_FILL; 4096],
    );
    assert_eq!(current.heap.start(), 0x40_0000);
    assert_eq!(current.files.open_count(), 1);
    assert_eq!(process.heap.break_at(), 0x60_2000);
    assert_eq!((after.opened, after.open), (2, 1));
    assert_eq!(after.percent, 25);
    assert_eq!(after.stack.used, 0);
    assert!(after.release_foreground);
    assert!(!after.discard_input);
    assert_eq!(after.verdict, Verdict::Continue);
}

#[test]
fn a_kernel_stack_that_ran_over_stops_the_machine() {
    assert_eq!(judge_stack(false, true, 10, 100), (Verdict::Overrun, 10));
    assert_eq!(judge_stack(true, false, 60, 100), (Verdict::OverBudget, 60));
    assert_eq!(judge_stack(true, true, 50, 100), (Verdict::Continue, 50));
    assert_eq!(entry_stack(0, 1, 2), 1);
    assert_eq!(entry_stack(3, 1, 2), 2);
}

fn prepared(free: Option<u64>) -> Answer {
    Answer::Prepared(Prepared {
        free,
        accounts: EMPTY,
        rsp0: 0x9000,
    })
}

fn ran(rsp0: u64) -> Answer {
    Answer::Ran(Ran {
        loaded: Ok(0x40_0000),
        held: 7,
        leaked: 0,
        interrupted: false,
        exited: Some(3),
        vector: 0,
        rsp0,
    })
}

fn started(packed: &[u8]) -> Starter {
    let limits = Limits {
        depth: 4,
        image: 100,
    };
    let mut starter = Starter::new(0, limits, packed.to_vec(), 1);
    assert!(matches!(starter.ask(), Ask::Lookup));
    starter.answer(Answer::Lookup {
        inode: Ok(inode(6, REGULAR)),
        block_size: 4,
    });
    assert!(matches!(starter.ask(), Ask::Block { index: 0 }));
    starter.answer(Answer::Block(Ok(vec![1, 2, 3, 4])));
    assert!(matches!(starter.ask(), Ask::Block { index: 1 }));
    starter.answer(Answer::Block(Ok(vec![5, 6, 7, 8])));
    assert!(!starter.keeps_records());
    assert!(matches!(starter.ask(), Ask::Prepare));
    starter
}

#[test]
fn a_program_is_started_step_by_step() {
    let mut starter = started(b"echo\0");
    starter.answer(prepared(Some(100)));
    assert!(starter.keeps_records());
    match starter.ask() {
        Ask::Load { image, argv } => {
            assert_eq!(image, vec![1, 2, 3, 4, 5, 6]);
            assert_eq!(argv, vec![b"echo".to_vec()]);
        }
        _ => panic!("the program is not loaded"),
    }
    starter.answer(ran(0x9000));
    assert!(matches!(starter.ask(), Ask::FreeFrames));
    starter.answer(Answer::FreeFrames(Some(93)));
    assert!(matches!(starter.ask(), Ask::Done));
    let mut accounts = EMPTY;
    assert_eq!(starter.finish(&mut accounts), Ok(SpawnOutcome::Exited(3)));
    assert_eq!(accounts.quarantined, 7);
}

#[test]
fn a_start_ends_with_the_first_thing_that_goes_wrong() {
    let limits = Limits {
        depth: 4,
        image: 100,
    };
    let mut accounts = EMPTY;
    let deep = Starter::new(4, limits, b"a\0".to_vec(), 1);
    assert!(matches!(deep.ask(), Ask::Done));
    assert_eq!(deep.finish(&mut accounts), Err(SpawnError::TooDeep));
    let mut lost = Starter::new(0, limits, b"a\0".to_vec(), 1);
    lost.answer(Answer::Lookup {
        inode: Err(Ext2Error::Other(2)),
        block_size: 4,
    });
    assert!(matches!(lost.ask(), Ask::Done));
    assert_eq!(
        lost.finish(&mut accounts),
        Err(SpawnError::Lookup(Ext2Error::Other(2)))
    );
    let mut sparse = Starter::new(0, limits, b"a\0".to_vec(), 1);
    sparse.answer(Answer::Lookup {
        inode: Ok(inode(6, REGULAR)),
        block_size: 4,
    });
    sparse.answer(Answer::Block(Ok(vec![])));
    assert!(matches!(sparse.ask(), Ask::Done));
    assert_eq!(
        sparse.finish(&mut accounts),
        Err(SpawnError::Read(Ext2Error::SparseBlock(0)))
    );
    let mut busy = started(b"a\0");
    busy.answer(prepared(None));
    assert!(matches!(busy.ask(), Ask::Done));
    assert_eq!(
        busy.finish(&mut accounts),
        Err(SpawnError::Load(UserLoadError::AllocatorUnavailable))
    );
    let mut malformed = started(b"a");
    malformed.answer(prepared(Some(5)));
    assert!(matches!(malformed.ask(), Ask::Done));
    assert_eq!(
        malformed.finish(&mut accounts),
        Err(SpawnError::ArgvMalformed)
    );
    assert_eq!(accounts, EMPTY);
    let mut moved = started(b"a\0");
    moved.answer(prepared(Some(5)));
    moved.answer(ran(0x8000));
    assert!(matches!(moved.ask(), Ask::Halt));
}

#[test]
fn blocks_are_read_until_they_are_enough() {
    let blocks: Vec<Block> = vec![Ok(vec![1, 2, 3, 4])];
    assert!(!needs_block(&blocks, 4, 0));
    assert!(!needs_block(&blocks, 4, 4));
    assert!(needs_block(&blocks, 4, 5));
    assert!(needs_block(&blocks, 2, 4));
    assert!(!needs_block(&[Err(Ext2Error::Other(1))], 4, 4));
}

#[test]
fn a_stay_gives_back_what_it_took() {
    let mut stay = Stay::new(true);
    assert_eq!(stay.stage(), Stage::TakeAllocator);
    stay.allocator = Some(false);
    assert_eq!(stay.stage(), Stage::Done);
    assert_eq!(
        stay.finish(),
        (Err(UserLoadError::AllocatorUnavailable), 0, 0)
    );
    let error = AddressSpaceError { code: 1 };
    stay.allocator = Some(true);
    assert_eq!(stay.stage(), Stage::MakeSpace);
    stay.space = Some(Err(error));
    assert_eq!(stay.stage(), Stage::GiveAllocatorBack);
    stay.returned = true;
    assert_eq!(stay.stage(), Stage::Done);
    assert_eq!(stay.finish(), (Err(UserLoadError::AddressSpace(error)), 0, 0));
    stay.space = Some(Ok(()));
    stay.returned = false;
    assert_eq!(stay.stage(), Stage::Load);
    stay.loaded = Some(Ok(Loaded {
        entry: 5,
        stack_top: 0,
        heap: Heap::empty(),
        stack: Vec::new(),
    }));
    assert_eq!(stay.stage(), Stage::GiveAllocatorBack);
    stay.returned = true;
    assert_eq!(stay.stage(), Stage::Run);
    stay.ran = Some(Ok(()));
    assert_eq!(stay.stage(), Stage::Destroy);
    stay.destroyed = Some((3, 0));
    assert_eq!(stay.stage(), Stage::Done);
    assert_eq!(stay.finish(), (Ok(5), 3, 0));
}
