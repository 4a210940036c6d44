//! Open files: the inode that a file stands for, where it is being read, and
//! the table of descriptors of a process.
use vstd::prelude::*;

verus! {

/// The slots of a descriptor table.
pub const MAX_OPEN_FILES: usize = 16;

/// The descriptor of standard input.
pub const STDIN_FD: usize = 0;

/// The descriptor of standard output.
pub const STDOUT_FD: usize = 1;

/// The descriptor of standard error.
pub const STDERR_FD: usize = 2;

/// The block pointers of an inode.
pub const INODE_BLOCK_COUNT: usize = 15;

/// The bits of a mode that tell the kind of a file.
pub const MODE_FORMAT: u16 = 0xf000;

/// The kind of a regular file.
pub const MODE_REGULAR: u16 = 0x8000;

/// The kind of a directory.
pub const MODE_DIRECTORY: u16 = 0x4000;

/// An inode as the file system on the disk has it.
#[derive(Debug, Clone, Copy, PartialEq, Eq)]
pub struct Ext2Inode {
    pub number: u32,
    pub mode: u16,
    pub size: u64,
    pub links_count: u16,
    pub blocks_512: u32,
    pub blocks: [u32; INODE_BLOCK_COUNT],
}

/// An inode.
#[derive(Debug, Clone, Copy, PartialEq, Eq)]
pub struct Inode {
    ext2: Ext2Inode,
}

/// Whether a mode is that of a directory.
pub open spec fn directory_mode(mode: u16) -> bool {
    mode & MODE_FORMAT == MODE_DIRECTORY
}

/// Whether a mode is that of a regular file.
pub open spec fn regular_mode(mode: u16) -> bool {
    mode & MODE_FORMAT == MODE_REGULAR
}

impl Inode {
    /// The inode of the file system.
    pub closed spec fn view(&self) -> Ext2Inode {
        self.ext2
    }

    /// The inode for an inode of the file system.
    pub fn from_ext2(inode: Ext2Inode) -> (r: Self)
        ensures
            r@ == inode,
    {
        Inode { ext2: inode }
    }

    /// Its number.
    pub fn number(&self) -> (r: u32)
        ensures
            r == self@.number,
    {
        self.ext2.number
    }

    /// Its mode.
    pub fn mode(&self) -> (r: u16)
        ensures
            r == self@.mode,
    {
        self.ext2.mode
    }

    /// The size of the file.
    pub fn size(&self) -> (r: u64)
        ensures
            r == self@.size,
    {
        self.ext2.size
    }

    /// How many names it has.
    pub fn links_count(&self) -> (r: u16)
        ensures
            r == self@.links_count,
    {
        self.ext2.links_count
    }

    /// Its blocks, counted in units of 512 bytes.
    pub fn blocks_512(&self) -> (r: u32)
        ensures
            r == self@.blocks_512,
    {
        self.ext2.blocks_512
    }

    /// Whether it is a directory.
    pub fn is_directory(&self) -> (r: bool)
        ensures
            r == directory_mode(self@.mode),
    {
        self.ext2.mode & MODE_FORMAT == MODE_DIRECTORY
    }

    /// Whether it is a regular file.
    pub fn is_regular_file(&self) -> (r: bool)
        ensures
            r == regular_mode(self@.mode),
    {
        self.ext2.mode & MODE_FORMAT == MODE_REGULAR
    }

    /// The inode of the file system.
    pub fn ext2(&self) -> (r: &Ext2Inode)
        ensures
            *r == self@,
    {
        &self.ext2
    }
}

/// Nothing is a directory and a regular file at once.
pub proof fn one_kind_only(mode: u16)
    ensures
        !(directory_mode(mode) && regular_mode(mode)),
{
}

/// An open file.
#[derive(Debug, Clone, Copy, PartialEq, Eq)]
pub enum File {
    /// A file, read or written at an offset.
    Regular { inode: Inode, offset: u64, writable: bool },
    /// The terminal.
    Terminal,
}

impl File {
    /// The offset never passes the end of the file.
    pub open spec fn wf(&self) -> bool {
        match self {
            File::Regular { inode, offset, .. } => *offset <= inode@.size,
            File::Terminal => true,
        }
    }

    /// The position in the file; the terminal has none.
    pub open spec fn position(&self) -> u64 {
        match self {
            File::Regular { offset, .. } => *offset,
            File::Terminal => 0,
        }
    }

    /// The same file, read or written at `to`, or at its end where that is
    /// before.
    pub open spec fn at(&self, to: int) -> File {
        match self {
            File::Regular { inode, offset, writable } => File::Regular {
                inode: *inode,
                offset: if to < inode@.size {
                    to as u64
                } else {
                    inode@.size
                },
                writable: *writable,
            },
            File::Terminal => File::Terminal,
        }
    }

    /// A file opened for reading.
    pub fn new(inode: Inode) -> (r: Self)
        ensures
            r == (File::Regular { inode, offset: 0, writable: false }),
            r.wf(),
    {
        File::Regular { inode, offset: 0, writable: false }
    }

    /// A file opened for writing.
    pub fn writable(inode: Inode) -> (r: Self)
        ensures
            r == (File::Regular { inode, offset: 0, writable: true }),
            r.wf(),
    {
        File::Regular { inode, offset: 0, writable: true }
    }

    /// Whether it is a file that was opened for writing.
    pub fn is_writable_file(&self) -> (r: bool)
        ensures
            r == (*self matches File::Regular { writable, .. } && writable),
    {
        match self {
            File::Regular { writable, .. } => *writable,
            File::Terminal => false,
        }
    }

    /// The terminal.
    pub fn terminal() -> (r: Self)
        ensures
            r == File::Terminal,
    {
        File::Terminal
    }

    /// Whether it is the terminal.
    pub fn is_terminal(&self) -> (r: bool)
        ensures
            r == (self is Terminal),
    {
        match self {
            File::Regular { .. } => false,
            File::Terminal => true,
        }
    }

    /// The inode; the terminal has none.
    pub fn inode(&self) -> (r: Option<&Inode>)
        ensures
            match self {
                File::Regular { inode, .. } => r == Some(inode),
                File::Terminal => r is None,
            },
    {
        match self {
            File::Regular { inode, .. } => Some(inode),
            File::Terminal => None,
        }
    }

    /// The position in the file; zero for the terminal.
    pub fn offset(&self) -> (r: u64)
        ensures
            r == self.position(),
    {
        match self {
            File::Regular { offset, .. } => *offset,
            File::Terminal => 0,
        }
    }

    /// Moves on by `bytes`, but not past the end of the file.
    pub fn advance(&mut self, bytes: u64)
        ensures
            *final(self) == old(self).at(old(self).position() + bytes),
            final(self).wf(),
    {
        match *self {
            File::Regular { inode, offset, writable } => {
                let size: u64 = inode.size();
                let moved: u64 = if bytes <= u64::MAX - offset {
                    offset + bytes
                } else {
                    u64::MAX
                };
                let offset: u64 = if moved < size {
                    moved
                } else {
                    size
                };
                *self = File::Regular { inode, offset, writable };
            },
            File::Terminal => {},
        }
    }

    /// Moves to `to`, but not past the end of the file.
    pub fn seek_to(&mut self, to: u64)
        ensures
            *final(self) == old(self).at(to as int),
            final(self).wf(),
    {
        match *self {
            File::Regular { inode, writable, .. } => {
                let size: u64 = inode.size();
                let offset: u64 = if to < size {
                    to
                } else {
                    size
                };
                *self = File::Regular { inode, offset, writable };
            },
            File::Terminal => {},
        }
    }
}

/// Why a descriptor cannot be had or used.
#[derive(Debug, Clone, Copy, PartialEq, Eq, Structural)]
pub enum FileTableError {
    /// Every descriptor is in use.
    NoFreeDescriptor,
    /// Nothing is open under this descriptor.
    BadDescriptor(usize),
}

/// The descriptors of a process.
#[derive(Debug)]
pub struct FileTable {
    slots: [Option<File>; MAX_OPEN_FILES],
    opened: usize,
}

/// Whether a slot holds a file other than the terminal.
pub open spec fn holds_file(slot: Option<File>) -> bool {
    slot matches Some(file) && !(file is Terminal)
}

/// How many of the first `n` slots hold a file other than the terminal.
pub open spec fn files_in(slots: Seq<Option<File>>, n: int) -> int
    decreases n,
{
    if n <= 0 {
        0
    } else {
        files_in(slots, n - 1) + (if holds_file(slots[n - 1]) {
            1int
        } else {
            0
        })
    }
}

/// The lowest free descriptor at or above `from`, or the number of slots.
pub open spec fn lowest_free(slots: Seq<Option<File>>, from: int) -> int
    decreases slots.len() - from,
{
    if from >= slots.len() {
        slots.len() as int
    } else if slots[from] is None {
        from
    } else {
        lowest_free(slots, from + 1)
    }
}

impl FileTable {
    /// What is open under each descriptor.
    pub closed spec fn view(&self) -> Seq<Option<File>> {
        self.slots@
    }

    /// How many files were ever opened.
    pub closed spec fn total(&self) -> usize {
        self.opened
    }

    /// The table has its slots.
    pub open spec fn wf(&self) -> bool {
        self@.len() == MAX_OPEN_FILES
    }

    /// A table with the three terminals open.
    pub fn new() -> (r: Self)
        ensures
            r.wf(),
            r.total() == 0,
            forall|fd: int|
                0 <= fd < MAX_OPEN_FILES ==> #[trigger] r@[fd] == (if fd < 3 {
                    Some(File::Terminal)
                } else {
                    None
                }),
    {
        let slots: [Option<File>; MAX_OPEN_FILES] = [
            Some(File::Terminal),
            Some(File::Terminal),
            Some(File::Terminal),
            None,
            None,
            None,
            None,
            None,
            None,
            None,
            None,
            None,
            None,
            None,
            None,
            None,
        ];
        FileTable { slots, opened: 0 }
    }

    /// Opens `file` under the lowest free descriptor.
    pub fn insert(&mut self, file: File) -> (r: Result<usize, FileTableError>)
        requires
            old(self).wf(),
        ensures
            final(self).wf(),
            ({
                let fd = lowest_free(old(self)@, 0);
                if fd < MAX_OPEN_FILES {
                    &&& r == Ok::<usize, FileTableError>(fd as usize)
                    &&& final(self)@ == old(self)@.update(fd, Some(file))
                    &&& final(self).total() == (if old(self).total() < usize::MAX {
                        (old(self).total() + 1) as usize
                    } else {
                        usize::MAX
                    })
                } else {
                    &&& r == Err::<usize, FileTableError>(FileTableError::NoFreeDescriptor)
                    &&& final(self)@ == old(self)@
                    &&& final(self).total() == old(self).total()
                }
            }),
    {
        let mut fd: usize = 0;
        while fd < MAX_OPEN_FILES
            invariant
                fd <= MAX_OPEN_FILES,
                self.slots@.len() == MAX_OPEN_FILES,
                *self == *old(self),
                lowest_free(self@, 0) == lowest_free(self@, fd as int),
            decreases MAX_OPEN_FILES - fd,
        {
            if self.slots[fd].is_none() {
                self.slots[fd] = Some(file);
                if self.opened < usize::MAX {
                    self.opened = self.opened + 1;
                }
                return Ok(fd);
            }
            fd += 1;
        }
        Err(FileTableError::NoFreeDescriptor)
    }

    /// Closes a descriptor and hands out what was open under it.
    pub fn remove(&mut self, fd: usize) -> (r: Result<File, FileTableError>)
        requires
            old(self).wf(),
        ensures
            final(self).wf(),
            final(self).total() == old(self).total(),
            fd < MAX_OPEN_FILES && old(self)@[fd as int] is Some ==> r == Ok::<
                File,
                FileTableError,
            >(old(self)@[fd as int]->0) && final(self)@ == old(self)@.update(fd as int, None),
            !(fd < MAX_OPEN_FILES && old(self)@[fd as int] is Some) ==> r == Err::<
                File,
                FileTableError,
            >(FileTableError::BadDescriptor(fd)) && final(self)@ == old(self)@,
    {
        if fd >= MAX_OPEN_FILES {
            return Err(FileTableError::BadDescriptor(fd));
        }
        match self.slots[fd] {
            Some(file) => {
                self.slots[fd] = None;
                Ok(file)
            },
            None => Err(FileTableError::BadDescriptor(fd)),
        }
    }

    /// What is open under a descriptor.
    pub fn get(&self, fd: usize) -> (r: Result<&File, FileTableError>)
        requires
            self.wf(),
        ensures
            fd < MAX_OPEN_FILES && self@[fd as int] is Some ==> r == Ok::<&File, FileTableError>(
                &self@[fd as int]->0,
            ),
            !(fd < MAX_OPEN_FILES && self@[fd as int] is Some) ==> r == Err::<
                &File,
                FileTableError,
            >(FileTableError::BadDescriptor(fd)),
    {
        if fd >= MAX_OPEN_FILES {
            return Err(FileTableError::BadDescriptor(fd));
        }
        match &self.slots[fd] {
            Some(file) => Ok(file),
            None => Err(FileTableError::BadDescriptor(fd)),
        }
    }

    /// What is open under a descriptor, to change it.
    pub fn get_mut(&mut self, fd: usize) -> (r: Result<&mut File, FileTableError>)
        requires
            old(self).wf(),
        ensures
            final(self).wf(),
            final(self).total() == old(self).total(),
            r is Ok <==> fd < MAX_OPEN_FILES && old(self)@[fd as int] is Some,
            r matches Ok(file) ==> old(self)@[fd as int] == Some(*file) && final(self)@
                == old(self)@.update(fd as int, Some(*final(file))),
            r matches Err(error) ==> error == FileTableError::BadDescriptor(fd) && final(self)@
                == old(self)@,
    {
        if fd >= MAX_OPEN_FILES {
            return Err(FileTableError::BadDescriptor(fd));
        }
        match &mut self.slots[fd] {
            Some(file) => Ok(file),
            None => Err(FileTableError::BadDescriptor(fd)),
        }
    }

    /// How many files are open, terminals not counted.
    pub fn open_count(&self) -> (r: usize)
        requires
            self.wf(),
        ensures
            r == files_in(self@, MAX_OPEN_FILES as int),
    {
        let mut count: usize = 0;
        let mut fd: usize = 0;
        while fd < MAX_OPEN_FILES
            invariant
                fd <= MAX_OPEN_FILES,
                count <= fd,
                self.slots@.len() == MAX_OPEN_FILES,
                count == files_in(self@, fd as int),
            decreases MAX_OPEN_FILES - fd,
        {
            match &self.slots[fd] {
                Some(file) => {
                    if !file.is_terminal() {
                        count += 1;
                    }
                },
                None => {},
            }
            fd += 1;
        }
        count
    }

    /// How many files were ever opened.
    pub fn opened_total(&self) -> (r: usize)
        ensures
            r == self.total(),
    {
        self.opened
    }
}

impl Default for FileTable {
    fn default() -> (r: Self)
        ensures
            r.wf(),
            r.total() == 0,
            forall|fd: int|
                0 <= fd < MAX_OPEN_FILES ==> #[trigger] r@[fd] == (if fd < 3 {
                    Some(File::Terminal)
                } else {
                    None
                }),
    {
        FileTable::new()
    }
}

/// Makes `table` the current one and hands out the one before it.
pub fn swap_current_files(current: &mut FileTable, table: FileTable) -> (r: FileTable)
    ensures
        *final(current) == table,
        r == *old(current),
{
    let mut other = table;
    core::mem::swap(current, &mut other);
    other
}

/// Runs `body` on the current table and hands out what it returns.
pub fn with_current_files<R, F: FnOnce(&mut FileTable) -> R>(
    current: &mut FileTable,
    body: F,
) -> (r: R)
    requires
        forall|table: &mut FileTable| *table == *old(current) ==> body.requires((table,)),
    ensures
        exists|table: &mut FileTable|
            *table == *old(current) && *final(table) == *final(current) && body.ensures(
                (table,),
                r,
            ),
{
    body(current)
}

/// The image that the root file system is read from: the one built in, until
/// another takes its place.
pub struct RootImage {
    pub built_in: Vec<u8>,
    pub image: Option<Vec<u8>>,
}

impl RootImage {
    /// The image in use.
    pub open spec fn view(&self) -> Seq<u8> {
        match self.image {
            Some(image) => image@,
            None => self.built_in@,
        }
    }

    /// Puts `image` in the place of the one built in.
    pub fn set_root_image(&mut self, image: Vec<u8>)
        ensures
            final(self)@ == image@,
            final(self).image == Some(image),
            final(self).built_in == old(self).built_in,
    {
        self.image = Some(image);
    }

    /// The image in use.
    pub fn root_image(&self) -> (r: &[u8])
        ensures
            r@ == self@,
    {
        match &self.image {
            Some(image) => image.as_slice(),
            None => self.built_in.as_slice(),
        }
    }

    /// Runs `f` on the image, to write to it. The one built in cannot be written
    /// to: where no other took its place, `f` does not run.
    pub fn with_root_image_mut<R, F: FnOnce(&mut Vec<u8>) -> R>(&mut self, f: F) -> (r: Option<R>)
        requires
            forall|image: &mut Vec<u8>|
                old(self).image == Some(*image) ==> f.requires((image,)),
        ensures
            final(self).built_in == old(self).built_in,
            r is Some <==> old(self).image is Some,
            r is None ==> final(self).image == old(self).image,
            r matches Some(value) ==> exists|image: &mut Vec<u8>|
                old(self).image == Some(*image) && final(self).image == Some(*final(image))
                    && f.ensures((image,), value),
    {
        match &mut self.image {
            Some(image) => Some(f(image)),
            None => None,
        }
    }
}

/// Descriptors are handed out lowest first: the one handed out is free, and all
/// below it are in use.
pub proof fn lowest_descriptor_first(slots: Seq<Option<File>>, from: int)
    requires
        0 <= from <= slots.len(),
    ensures
        from <= lowest_free(slots, from) <= slots.len(),
        lowest_free(slots, from) < slots.len() ==> slots[lowest_free(slots, from)] is None,
        forall|fd: int| from <= fd < lowest_free(slots, from) ==> #[trigger] slots[fd] is Some,
    decreases slots.len() - from,
{
    if from < slots.len() && slots[from] is Some {
        lowest_descriptor_first(slots, from + 1);
    }
}

/// A closed descriptor is the next to be handed out, where all below it are in
/// use.
pub proof fn closed_descriptor_comes_back(slots: Seq<Option<File>>, fd: int)
    requires
        0 <= fd < slots.len(),
        forall|i: int| 0 <= i < fd ==> #[trigger] slots[i] is Some,
    ensures
        lowest_free(slots.update(fd, None), 0) == fd,
{
    let closed = slots.update(fd, None);
    lowest_descriptor_first(closed, 0);
    let found = lowest_free(closed, 0);
    if found < fd {
        assert(closed[found] == slots[found]);
    } else if found > fd {
        assert(closed[fd] is None);
    }
}

/// Opening a file and closing it again leaves every descriptor as it was.
pub proof fn closing_undoes_opening(slots: Seq<Option<File>>, file: File)
    requires
        lowest_free(slots, 0) < slots.len(),
    ensures
        slots.update(lowest_free(slots, 0), Some(file)).update(lowest_free(slots, 0), None)
            == slots,
{
    lowest_descriptor_first(slots, 0);
    assert(slots.update(lowest_free(slots, 0), Some(file)).update(lowest_free(slots, 0), None)
        =~= slots);
}

/// A descriptor that comes into use counts as one open file more, unless it is
/// a terminal.
pub proof fn opening_counts_one(slots: Seq<Option<File>>, fd: int, file: File, n: int)
    requires
        0 <= fd < slots.len(),
        slots[fd] is None,
        n <= slots.len(),
    ensures
        files_in(slots.update(fd, Some(file)), n) == files_in(slots, n) + (if fd < n && !(file
            is Terminal) {
            1int
        } else {
            0
        }),
    decreases n,
{
    if n > 0 {
        opening_counts_one(slots, fd, file, n - 1);
    }
}

/// The kind of a file is told by the upper four bits of its mode, and the others
/// do not matter.
pub proof fn the_upper_bits_tell_the_kind(mode: u16)
    ensures
        directory_mode(mode) <==> mode / 4096 == 4,
        regular_mode(mode) <==> mode / 4096 == 8,
{
    assert(mode & 0xf000 == 0x4000 <==> mode / 4096 == 4) by (bit_vector);
    assert(mode & 0xf000 == 0x8000 <==> mode / 4096 == 8) by (bit_vector);
}

/// A file is read or written where it was moved to, or at its end where that is
/// before, and moving changes nothing else of it. The terminal has no position.
pub proof fn a_file_is_where_it_was_moved_to(file: File, to: int)
    requires
        0 <= to,
    ensures
        file is Terminal ==> file.at(to) == file && file.position() == 0,
        file matches File::Regular { inode, offset, writable } ==> {
            &&& file.position() == offset
            &&& file.at(to).wf()
            &&& to <= inode@.size ==> file.at(to).position() == to
            &&& to > inode@.size ==> file.at(to).position() == inode@.size
            &&& file.at(to) == (File::Regular {
                inode,
                offset: file.at(to).position(),
                writable,
            })
        },
{
}

/// Moving on twice is moving on by both at once.
pub proof fn moving_on_adds_up(file: File, a: int, b: int)
    requires
        file.wf(),
        0 <= a,
        0 <= b,
    ensures
        ({
            let once = file.at(file.position() + a);
            once.at(once.position() + b) == file.at(file.position() + a + b)
        }),
{
}

/// Closing a file counts as one open file less, and where nothing but terminals
/// is open, no file is.
pub proof fn closing_counts_one_less(slots: Seq<Option<File>>, fd: int, n: int)
    requires
        0 <= fd < n <= slots.len(),
        slots[fd] is Some,
    ensures
        files_in(slots.update(fd, None), n) == files_in(slots, n) - (if slots[fd]->0 is Terminal {
            0int
        } else {
            1
        }),
{
    let closed = slots.update(fd, None);
    opening_counts_one(closed, fd, slots[fd]->0, n);
    assert(closed.update(fd, Some(slots[fd]->0)) =~= slots);
}

/// Where no descriptor has a file other than a terminal, none is counted.
pub proof fn terminals_do_not_count(slots: Seq<Option<File>>, n: int)
    requires
        n <= slots.len(),
        forall|fd: int| 0 <= fd < n ==> #[trigger] slots[fd] is None || slots[fd]->0 is Terminal,
    ensures
        files_in(slots, n) == 0,
    decreases n,
{
    if n > 0 {
        terminals_do_not_count(slots, n - 1);
    }
}

} // verus!
