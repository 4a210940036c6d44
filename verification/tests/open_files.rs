use zaytos::vfs::{
    swap_current_files, with_current_files, Ext2Inode, File, FileTable, FileTableError, Inode,
    RootImage, INODE_BLOCK_COUNT, MAX_OPEN_FILES, STDERR_FD, STDIN_FD, STDOUT_FD,
};

fn inode(number: u32, size: u64, mode: u16) -> Inode {
    Inode::from_ext2(Ext2Inode {
        number,
        mode,
        size,
        links_count: 1,
        blocks_512: size.div_ceil(512) as u32,
        blocks: [0; INODE_BLOCK_COUNT],
    })
}

const REGULAR: u16 = 0o100_644;
const DIRECTORY: u16 = 0o040_755;

#[test]
fn the_writable_mark_follows_how_the_file_was_opened() {
    let target = inode(12, 18, REGULAR);
    assert!(!File::new(target).is_writable_file());
    assert!(File::writable(target).is_writable_file());
    assert!(!File::terminal().is_writable_file());
}

#[test]
fn the_table_is_small_enough_to_live_inside_a_process() {
    assert_eq!(core::mem::size_of::<File>(), 96);
    assert_eq!(core::mem::size_of::<Option<File>>(), 96);
    assert_eq!(
        core::mem::size_of::<FileTable>(),
        96 * MAX_OPEN_FILES + core::mem::size_of::<usize>()
    );
    assert!(core::mem::size_of::<FileTable>() < 4096);
}

#[test]
fn the_running_total_separates_never_opened_from_all_closed() {
    let mut untouched = FileTable::new();
    assert_eq!(untouched.open_count(), 0);
    assert_eq!(untouched.opened_total(), 0);
    let fd = untouched.insert(File::new(inode(18, 18, REGULAR))).unwrap();
    untouched.remove(fd).unwrap();
    assert_eq!(untouched.open_count(), 0, "nothing is open any more");
    assert_eq!(untouched.opened_total(), 1, "but the table did move");
}

#[test]
fn a_new_table_holds_the_three_terminals_and_no_files() {
    let table = FileTable::new();
    assert_eq!(table.open_count(), 0, "terminals are not counted");
    assert_eq!(table.opened_total(), 0);
    assert!(table.get(STDIN_FD).unwrap().is_terminal());
    assert!(table.get(STDOUT_FD).unwrap().is_terminal());
    assert!(table.get(STDERR_FD).unwrap().is_terminal());
    assert_eq!(table.get(3), Err(FileTableError::BadDescriptor(3)));
}

#[test]
fn descriptors_are_handed_out_lowest_first() {
    let mut table = FileTable::new();
    for expected in 3..7 {
        let fd = table
            .insert(File::new(inode(10 + expected, 1, REGULAR)))
            .unwrap();
        assert_eq!(fd as u32, expected);
    }
    table.remove(4).unwrap();
    assert_eq!(table.insert(File::new(inode(99, 1, REGULAR))).unwrap(), 4);
    assert_eq!(table.open_count(), 4);
}

#[test]
fn the_first_open_takes_descriptor_three() {
    let mut table = FileTable::new();
    assert_eq!(
        table.insert(File::new(inode(2, 4096, DIRECTORY))).unwrap(),
        3
    );
}

#[test]
fn the_table_fills_up_and_says_so() {
    let mut table = FileTable::new();
    for _ in 0..MAX_OPEN_FILES - 3 {
        table.insert(File::new(inode(1, 1, REGULAR))).unwrap();
    }
    assert_eq!(table.open_count(), MAX_OPEN_FILES - 3);
    assert_eq!(
        table.insert(File::new(inode(1, 1, REGULAR))),
        Err(FileTableError::NoFreeDescriptor)
    );
}

#[test]
fn unopened_and_out_of_range_descriptors_are_refused() {
    let mut table = FileTable::new();
    let fd = table.insert(File::new(inode(7, 1, REGULAR))).unwrap();
    table.remove(fd).unwrap();
    for bad in [fd, MAX_OPEN_FILES, MAX_OPEN_FILES + 1, usize::MAX] {
        assert_eq!(table.get(bad), Err(FileTableError::BadDescriptor(bad)));
        assert_eq!(
            table.get_mut(bad).err(),
            Some(FileTableError::BadDescriptor(bad))
        );
        assert_eq!(
            table.remove(bad).err(),
            Some(FileTableError::BadDescriptor(bad))
        );
    }
}

#[test]
fn two_descriptors_on_one_inode_keep_separate_offsets() {
    let mut table = FileTable::new();
    let target = inode(18, 18, REGULAR);
    let first = table.insert(File::new(target)).unwrap();
    let second = table.insert(File::new(target)).unwrap();
    table.get_mut(first).unwrap().advance(8);
    assert_eq!(table.get(first).unwrap().offset(), 8);
    assert_eq!(table.get(second).unwrap().offset(), 0);
    assert_eq!(
        table.get(first).unwrap().inode().unwrap().number(),
        table.get(second).unwrap().inode().unwrap().number()
    );
}

#[test]
fn the_offset_never_passes_the_end_of_the_file() {
    let mut file = File::new(inode(18, 18, REGULAR));
    file.advance(10);
    assert_eq!(file.offset(), 10);
    file.advance(1_000);
    assert_eq!(file.offset(), 18, "saturates at i_size");
    file.advance(u64::MAX);
    assert_eq!(file.offset(), 18, "no wrap-around");
    file.seek_to(3);
    assert_eq!(file.offset(), 3);
    file.seek_to(u64::MAX);
    assert_eq!(file.offset(), 18);
}

#[test]
fn the_kind_comes_straight_from_the_ext2_inode() {
    let directory = inode(2, 4096, DIRECTORY);
    assert!(directory.is_directory());
    assert!(!directory.is_regular_file());
    let file = inode(18, 18, REGULAR);
    assert!(file.is_regular_file());
    assert!(!file.is_directory());
    assert_eq!(file.number(), 18);
    assert_eq!(file.size(), 18);
    assert_eq!(file.mode(), REGULAR);
    assert_eq!(file.links_count(), 1);
}

#[test]
fn an_inode_hands_back_what_the_disk_has() {
    let file = inode(5, 1025, REGULAR);
    assert_eq!(file.blocks_512(), 3);
    assert_eq!(file.ext2().number, 5);
    assert_eq!(file.ext2().size, 1025);
}

#[test]
fn closing_undoes_opening_but_for_the_total() {
    let mut table = FileTable::new();
    let file = File::writable(inode(9, 3, REGULAR));
    let fd = table.insert(file).unwrap();
    assert_eq!(table.remove(fd), Ok(file));
    assert_eq!(table.open_count(), 0);
    assert_eq!(table.opened_total(), 1);
    assert_eq!(table.insert(file), Ok(fd));
}

#[test]
fn a_terminal_has_neither_inode_nor_offset() {
    let mut terminal = File::terminal();
    assert!(terminal.inode().is_none());
    terminal.advance(5);
    terminal.seek_to(5);
    assert_eq!(terminal.offset(), 0);
}

#[test]
fn the_current_table_is_exchanged_whole() {
    let mut current = FileTable::new();
    with_current_files(&mut current, |table| {
        table.insert(File::new(inode(1, 1, REGULAR))).unwrap()
    });
    let before = swap_current_files(&mut current, FileTable::new());
    assert_eq!(before.open_count(), 1);
    assert_eq!(current.open_count(), 0);
}

#[test]
fn the_root_image_is_the_built_in_one_until_another_is_set() {
    let mut root = RootImage {
        built_in: vec![1, 2, 3],
        image: None,
    };
    assert_eq!(root.root_image(), &[1, 2, 3]);
    assert_eq!(root.with_root_image_mut(|image| image.len()), None);
    root.set_root_image(vec![4, 5]);
    assert_eq!(root.root_image(), &[4, 5]);
    assert_eq!(
        root.with_root_image_mut(|image| {
            image[0] = 9;
            image.len()
        }),
        Some(2)
    );
    assert_eq!(root.root_image(), &[9, 5]);
}
