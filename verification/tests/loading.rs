use zaytos::startup::{build_initial_stack, environment_at, read_text, Start, PAGE};
use zaytos::loader::{Answer, Ask, Loader};
use zaytos::userland::{
    check_page, count_shared, load_user_program_into, page_number, plan_page,
    report_user_stack_high_water, swap_current_heap, with_current_heap, AddressSpaceError,
    ElfError, Heap, PageAnswer, PageLoad, Program, Segment, UserLoadError, Walked,
    USER_STACK_FILL,
};

fn segment(vaddr: u64, data: &[u8], memsz: u64, flags: u32) -> Segment {
    Segment {
        vaddr,
        filesz: data.len() as u64,
        memsz,
        flags,
        data: Ok(data.to_vec()),
    }
}

fn plan_pages(segments: &[Segment]) -> (Vec<PageLoad>, usize) {
    let mut pages = Vec::new();
    while let Some(load) = plan_page(segments, pages.len()) {
        assert_eq!(page_number(segments, pages.len()), Some((load.page, load.writable)));
        pages.push(load);
    }
    assert_eq!(page_number(segments, pages.len()), None);
    (pages, count_shared(segments))
}

const GOOD: PageAnswer = PageAnswer {
    frame: true,
    mapped: Ok(()),
};

fn strings(items: &[&[u8]]) -> Vec<Vec<u8>> {
    items.iter().map(|item| item.to_vec()).collect()
}

#[test]
fn the_heap_begins_on_the_page_behind_the_image() {
    assert_eq!(Heap::from_image_end(0x40_1000).start(), 0x40_1000);
    assert_eq!(Heap::from_image_end(0x40_1001).start(), 0x40_2000);
    assert_eq!(Heap::from_image_end(0x40_1fff).break_at(), 0x40_2000);
    assert!(Heap::from_image_end(1).is_mapped());
    assert!(!Heap::empty().is_mapped());
}

#[test]
fn the_heap_counts_its_frames() {
    let mut heap = Heap::from_image_end(0x40_0000);
    heap.note_taken();
    heap.note_taken();
    heap.note_given();
    heap.set_break(0x40_3000);
    assert_eq!(heap.frames(), (2, 1));
    assert_eq!(heap.break_at(), 0x40_3000);
    assert_eq!(heap.start(), 0x40_0000);
}

#[test]
fn the_current_heap_is_exchanged_whole() {
    let mut current = Heap::empty();
    let before = swap_current_heap(&mut current, Heap::from_image_end(0x40_0000));
    assert_eq!(before, Heap::empty());
    assert_eq!(with_current_heap(&mut current, |heap| heap.start()), 0x40_0000);
}

#[test]
fn a_segment_is_laid_out_page_by_page() {
    let data: Vec<u8> = (0..5000u32).map(|i| (i % 251) as u8).collect();
    let segments = vec![segment(0x40_0800, &data, 6000, 2)];
    let (pages, shared) = plan_pages(&segments);
    assert_eq!(shared, 0);
    assert_eq!(pages.len(), 2);
    assert_eq!(pages[0].page, 0x40_0000);
    assert_eq!(pages[1].page, 0x40_1000);
    assert!(pages[0].writable);
    assert!(pages[0].content[..0x800].iter().all(|byte| *byte == 0));
    assert_eq!(&pages[0].content[0x800..], &data[..0x800]);
    assert_eq!(&pages[1].content[..5000 - 0x800], &data[0x800..]);
    assert!(pages[1].content[5000 - 0x800..].iter().all(|byte| *byte == 0));
}

#[test]
fn a_page_that_two_segments_share_is_mapped_once() {
    let segments = vec![
        segment(0x40_0000, b"text", 0x900, 0),
        segment(0x40_0900, b"", 0x1000, 2),
    ];
    let (pages, shared) = plan_pages(&segments);
    assert_eq!(shared, 1);
    assert_eq!(pages.len(), 2);
    assert!(!pages[0].writable);
    assert!(pages[1].writable);
}

#[test]
fn what_goes_wrong_with_a_page_is_told_in_order() {
    let refused = AddressSpaceError { code: 7 };
    let bad = PageAnswer {
        frame: true,
        mapped: Err(refused),
    };
    assert_eq!(check_page(0x40_0000, GOOD), None);
    assert_eq!(
        check_page(0x40_0000, bad),
        Some(UserLoadError::Mapping {
            virt: 0x40_0000,
            error: refused
        })
    );
    assert_eq!(
        check_page(0x8000_0000_0000, bad),
        Some(UserLoadError::NotCanonical(0x8000_0000_0000))
    );
    assert_eq!(
        check_page(
            0x8000_0000_0000,
            PageAnswer {
                frame: false,
                mapped: Ok(())
            }
        ),
        Some(UserLoadError::OutOfFrames)
    );
}

fn program() -> Result<Program, ElfError> {
    Ok(Program {
        entry: 0x40_0010,
        segments: vec![segment(0x40_0000, b"code", 0x20, 0)],
    })
}

const WALKED: [Walked; 2] = [Some((false, true)), Some((true, true))];

#[test]
fn a_loaded_program_finds_its_arguments_and_variables() {
    let argv = strings(&[b"/bin/echo", b"hi"]);
    let envp = strings(&[b"TERM=zaytos", b"HOME=/root"]);
    let loaded = load_user_program_into(&program(), &argv, &envp, &[GOOD, GOOD], &WALKED)
        .ok()
        .unwrap();
    assert_eq!(loaded.entry, 0x40_0010);
    assert_eq!(loaded.heap.start(), 0x40_1000);
    assert_eq!(loaded.stack_top % 16, 0);
    let used = report_user_stack_high_water(&loaded.stack);
    assert_eq!(used.used as u64, 0x80_0000 - loaded.stack_top);
    assert!(!used.over_half);
    let start = Start {
        page: loaded.stack,
        page_base: 0x7f_f000,
        stack: loaded.stack_top,
    };
    assert_eq!(start.argument(0), Some(b"/bin/echo".to_vec()));
    assert_eq!(start.argument(1), Some(b"hi".to_vec()));
    assert_eq!(start.argument(2), None);
    assert_eq!(start.value(b"HOME"), Some(b"/root".to_vec()));
    assert_eq!(start.environment(b"TERM"), Some(&b"zaytos"[..]));
    assert_eq!(start.value(b"TER"), None);
    assert_eq!(start.value(b"PATH"), None);
}

#[test]
fn a_program_that_cannot_be_loaded_says_why() {
    let none: Vec<Vec<u8>> = Vec::new();
    let no_frame = PageAnswer {
        frame: false,
        mapped: Ok(()),
    };
    let load = |program: &Result<Program, ElfError>, answers: &[PageAnswer], walked: &[Walked]| {
        load_user_program_into(program, &none, &none, answers, walked).err()
    };
    assert_eq!(
        load(&Err(ElfError::BadMagic), &[], &[]),
        Some(UserLoadError::Parse(ElfError::BadMagic))
    );
    assert_eq!(
        load(&program(), &[no_frame, GOOD], &WALKED),
        Some(UserLoadError::OutOfFrames)
    );
    assert_eq!(
        load(&program(), &[GOOD, no_frame], &WALKED),
        Some(UserLoadError::OutOfFrames)
    );
    assert_eq!(
        load(&program(), &[GOOD, GOOD], &[Some((true, true)), None]),
        Some(UserLoadError::LeafFlags { count: 2 })
    );
    let broken = Ok(Program {
        entry: 0,
        segments: vec![Segment {
            vaddr: 0x40_0000,
            filesz: 4,
            memsz: 4,
            flags: 0,
            data: Err(ElfError::SegmentFileRangeOutOfBounds),
        }],
    });
    assert_eq!(
        load(&broken, &[GOOD], &[Some((true, true))]),
        Some(UserLoadError::SegmentData(
            ElfError::SegmentFileRangeOutOfBounds
        ))
    );
    let long = strings(&[&[b'a'; 5000]]);
    assert_eq!(
        load_user_program_into(&program(), &long, &none, &[GOOD, GOOD], &WALKED).err(),
        Some(UserLoadError::ArgumentsTooLong)
    );
}

#[test]
fn a_stack_page_has_the_table_below_the_strings() {
    let mut page = vec![0u8; PAGE];
    let top = build_initial_stack(
        &mut page,
        0x10_0000,
        &strings(&[b"a"]),
        &strings(&[b"B=1"]),
    )
    .unwrap();
    assert_eq!(top % 16, 0);
    let at = (top - 0x10_0000) as usize;
    assert_eq!(page[at..at + 8], 1u64.to_le_bytes());
    let variable = environment_at(&page, 0x10_0000, top, 0).unwrap();
    assert_eq!(read_text(&page, 0x10_0000, variable), Some(&b"B=1"[..]));
    assert_eq!(environment_at(&page, 0x10_0000, top, 1), None);
    let mut nine: Vec<Vec<u8>> = Vec::new();
    for _ in 0..9 {
        nine.push(b"x".to_vec());
    }
    assert_eq!(build_initial_stack(&mut page, 0x10_0000, &nine, &[]), None);
}

#[test]
fn an_untouched_stack_is_not_used() {
    let page = vec![USER_STACK_FILL; PAGE];
    let used = report_user_stack_high_water(&page);
    assert_eq!((used.used, used.percent, used.over_half), (0, 0, false));
    let mut page = page;
    page[1000] = 0;
    let used = report_user_stack_high_water(&page);
    assert_eq!((used.used, used.percent, used.over_half), (3096, 75, true));
}

#[test]
fn memory_behind_the_file_begins_as_zero_on_shared_and_own_pages() {
    let segments = vec![
        segment(0x40_1000, &[7u8; 0x20], 0x20, 6),
        segment(0x40_1020, b"", 0x1000, 6),
    ];
    let (pages, shared) = plan_pages(&segments);
    assert_eq!((pages.len(), shared), (2, 1));
    assert_eq!(pages[0].content[0x1f], 7);
    assert!(pages[0].content[0x20..].iter().all(|byte| *byte == 0));
    assert!(pages[1].content.iter().all(|byte| *byte == 0));
    assert_eq!(pages[1].page, 0x40_2000);
}

fn looked_up(page: u64) -> Answer {
    assert!(page % 4096 == 0);
    Answer::Walked(Some((page >= 0x40_1000, true)))
}

#[test]
fn a_program_is_loaded_step_by_step() {
    let mut loader = Loader::new(program(), strings(&[b"a"]), strings(&[b"B=c"]));
    let mut frames = 0;
    let mut mapped = Vec::new();
    let mut filled = Vec::new();
    loop {
        let answer = match loader.ask() {
            Ask::Frame => {
                frames += 1;
                Answer::Frame(true)
            }
            Ask::MapPage { page, content, .. } => {
                assert_eq!(content.len(), 4096);
                mapped.push(page);
                Answer::Mapped(Ok(()))
            }
            Ask::FillStack { content } => {
                filled = content;
                Answer::Done
            }
            Ask::Walk { page } => looked_up(page),
            Ask::GiveBack => panic!("nothing goes back"),
            Ask::Done => break,
        };
        loader.answer(answer);
    }
    assert_eq!(frames, mapped.len());
    assert_eq!(mapped.last(), Some(&0x7f_f000));
    assert_eq!(filled[4095], 0);
    let (plan, shared) = plan_pages(&program().unwrap().segments);
    assert_eq!(plan.len() + 1, mapped.len());
    assert_eq!(loader.shared(), shared);
    assert_eq!(loader.finish().ok().unwrap().entry, 0x40_0010);
}

#[test]
fn a_load_ends_with_the_first_page_that_cannot_be_had() {
    let mut loader = Loader::new(program(), strings(&[b"a"]), Vec::new());
    assert!(matches!(loader.ask(), Ask::Frame));
    loader.answer(Answer::Frame(false));
    assert!(matches!(loader.ask(), Ask::Done));
    assert_eq!(loader.finish().err(), Some(UserLoadError::OutOfFrames));
    let error = AddressSpaceError { code: 9 };
    let mut loader = Loader::new(program(), strings(&[b"a"]), Vec::new());
    loader.answer(Answer::Frame(true));
    let page = match loader.ask() {
        Ask::MapPage { page, .. } => page,
        _ => panic!("the frame is not mapped"),
    };
    loader.answer(Answer::Mapped(Err(error)));
    assert!(matches!(loader.ask(), Ask::GiveBack));
    loader.answer(Answer::Done);
    assert!(matches!(loader.ask(), Ask::Done));
    assert_eq!(
        loader.finish().err(),
        Some(UserLoadError::Mapping { virt: page, error })
    );
    let loader = Loader::new(Err(ElfError::BadMagic), Vec::new(), Vec::new());
    assert!(matches!(loader.ask(), Ask::Done));
    assert_eq!(
        loader.finish().err(),
        Some(UserLoadError::Parse(ElfError::BadMagic))
    );
}

#[test]
fn a_segment_at_the_very_end_of_memory_is_refused_by_the_kernel() {
    let top = || {
        Ok(Program {
            entry: 0,
            segments: vec![segment(0xffff_ffff_ffff_e800, b"x", 0x17ff, 2)],
        })
    };
    let (pages, _) = plan_pages(&top().unwrap().segments);
    assert_eq!(
        pages.iter().map(|load| load.page).collect::<Vec<u64>>(),
        vec![0xffff_ffff_ffff_e000, 0xffff_ffff_ffff_f000]
    );
    let error = AddressSpaceError { code: 3 };
    let mut loader = Loader::new(top(), strings(&[b"a"]), Vec::new());
    loader.answer(Answer::Frame(true));
    loader.answer(Answer::Mapped(Err(error)));
    loader.answer(Answer::Done);
    assert_eq!(
        loader.finish().err(),
        Some(UserLoadError::Mapping {
            virt: 0xffff_ffff_ffff_e000,
            error
        })
    );
}

#[test]
fn a_segment_that_no_memory_holds_runs_out_of_frames() {
    let huge = Ok(Program {
        entry: 0x40_0000,
        segments: vec![
            segment(0x40_0000, b"code", 0x1000, 0),
            segment(0x40_1000, b"data", 1 << 46, 2),
        ],
    });
    let mut loader = Loader::new(huge, strings(&[b"a"]), Vec::new());
    for page in 0..5u64 {
        assert!(matches!(loader.ask(), Ask::Frame));
        loader.answer(Answer::Frame(true));
        match loader.ask() {
            Ask::MapPage { page: at, .. } => assert_eq!(at, 0x40_0000 + 4096 * page),
            _ => panic!("the frame is not mapped"),
        }
        loader.answer(Answer::Mapped(Ok(())));
    }
    loader.answer(Answer::Frame(false));
    assert!(matches!(loader.ask(), Ask::Done));
    assert_eq!(loader.finish().err(), Some(UserLoadError::OutOfFrames));
}
