//! Putting a program into memory: its segments, its heap and its stack.
use crate::startup::{self, build_initial_stack, PAGE};
use vstd::prelude::*;

verus! {

/// The slot of the top page table that programs live under.
pub const USER_PROGRAM_PML4_INDEX: usize = 0;

/// The address behind the stack.
pub const USER_PROGRAM_STACK_TOP: u64 = 0x80_0000;

/// The size of a page.
pub const HEAP_PAGE_SIZE: u64 = 4096;

/// The address that the heap does not pass.
pub const HEAP_LIMIT: u64 = 0x7f_f000;

/// What the unused part of the stack is filled with.
pub const USER_STACK_FILL: u8 = 0xa5;

/// How many mapped pages are checked after loading.
pub const RECORDED_PAGES: usize = 8;

/// The heap of a process: where it begins and ends, and how many frames it took
/// and gave back.
#[derive(Clone, Copy, PartialEq, Eq, Structural, Debug)]
pub struct Heap {
    start: u64,
    break_at: u64,
    taken: u32,
    given: u32,
}

/// `address` rounded up to a page.
pub open spec fn page_up(address: int) -> int {
    (address + 4095) / 4096 * 4096
}

/// `address` rounded down to a page.
pub open spec fn page_down(address: int) -> int {
    address / 4096 * 4096
}

impl Heap {
    /// Where the heap begins.
    pub closed spec fn spec_start(&self) -> u64 {
        self.start
    }

    /// Where the heap ends.
    pub closed spec fn spec_break(&self) -> u64 {
        self.break_at
    }

    /// The frames it took.
    pub closed spec fn spec_taken(&self) -> u32 {
        self.taken
    }

    /// The frames it gave back.
    pub closed spec fn spec_given(&self) -> u32 {
        self.given
    }

    /// No heap.
    pub fn empty() -> (r: Self)
        ensures
            r.spec_start() == 0,
            r.spec_break() == 0,
            r.spec_taken() == 0,
            r.spec_given() == 0,
    {
        Heap { start: 0, break_at: 0, taken: 0, given: 0 }
    }

    /// An empty heap on the first page behind the program's image.
    pub fn from_image_end(image_end: u64) -> (r: Self)
        requires
            image_end + 4095 <= u64::MAX,
        ensures
            r.spec_start() == page_up(image_end as int),
            r.spec_break() == r.spec_start(),
            r.spec_taken() == 0,
            r.spec_given() == 0,
    {
        let start: u64 = (image_end + (HEAP_PAGE_SIZE - 1)) / HEAP_PAGE_SIZE * HEAP_PAGE_SIZE;
        Heap { start, break_at: start, taken: 0, given: 0 }
    }

    /// Where the heap begins.
    pub fn start(&self) -> (r: u64)
        ensures
            r == self.spec_start(),
    {
        self.start
    }

    /// Where the heap ends.
    pub fn break_at(&self) -> (r: u64)
        ensures
            r == self.spec_break(),
    {
        self.break_at
    }

    /// Moves the end of the heap.
    pub fn set_break(&mut self, value: u64)
        ensures
            final(self).spec_break() == value,
            final(self).spec_start() == old(self).spec_start(),
            final(self).spec_taken() == old(self).spec_taken(),
            final(self).spec_given() == old(self).spec_given(),
    {
        self.break_at = value;
    }

    /// Whether there is a heap.
    pub fn is_mapped(&self) -> (r: bool)
        ensures
            r == (self.spec_start() != 0),
    {
        self.start != 0
    }

    /// Counts a frame taken.
    pub fn note_taken(&mut self)
        requires
            old(self).spec_taken() < u32::MAX,
        ensures
            final(self).spec_taken() == old(self).spec_taken() + 1,
            final(self).spec_given() == old(self).spec_given(),
            final(self).spec_start() == old(self).spec_start(),
            final(self).spec_break() == old(self).spec_break(),
    {
        self.taken = self.taken + 1;
    }

    /// Counts a frame given back.
    pub fn note_given(&mut self)
        requires
            old(self).spec_given() < u32::MAX,
        ensures
            final(self).spec_given() == old(self).spec_given() + 1,
            final(self).spec_taken() == old(self).spec_taken(),
            final(self).spec_start() == old(self).spec_start(),
            final(self).spec_break() == old(self).spec_break(),
    {
        self.given = self.given + 1;
    }

    /// The frames taken and given back.
    pub fn frames(&self) -> (r: (u32, u32))
        ensures
            r == (self.spec_taken(), self.spec_given()),
    {
        (self.taken, self.given)
    }
}

/// The heap begins on a page, at or behind the image, and less than a page away.
pub proof fn heap_begins_behind_the_image(image_end: int)
    requires
        0 <= image_end,
    ensures
        page_up(image_end) % 4096 == 0,
        image_end <= page_up(image_end) < image_end + 4096,
{
}

/// Makes `heap` the current one and hands out the one before it.
pub fn swap_current_heap(current: &mut Heap, heap: Heap) -> (r: Heap)
    ensures
        *final(current) == heap,
        r == *old(current),
{
    let r = *current;
    *current = heap;
    r
}

/// Runs `body` on the current heap and hands out what it returns.
pub fn with_current_heap<R, F: FnOnce(&mut Heap) -> R>(current: &mut Heap, body: F) -> (r: R)
    requires
        forall|heap: &mut Heap| *heap == *old(current) ==> body.requires((heap,)),
    ensures
        exists|heap: &mut Heap|
            *heap == *old(current) && *final(heap) == *final(current) && body.ensures((heap,), r),
{
    body(current)
}

/// Why a program image is not an executable.
#[derive(Debug, Clone, Copy, PartialEq, Eq, Structural)]
pub enum ElfError {
    TooShort,
    BadMagic,
    NotElf64,
    NotLittleEndian,
    NotExecutable,
    NotX86_64,
    ProgramHeaderOutOfBounds,
    BadProgramHeaderEntrySize,
    SegmentFileRangeOutOfBounds,
    SegmentMemorySmallerThanFile,
    SegmentAddressOverflow,
}

/// Why an address space did not do as asked, by its number.
#[derive(Debug, Clone, Copy, PartialEq, Eq, Structural)]
pub struct AddressSpaceError {
    pub code: u32,
}

/// Why a program was not loaded.
#[derive(Debug, Clone, Copy, PartialEq, Eq, Structural)]
pub enum UserLoadError {
    AllocatorUnavailable,
    ArgumentsTooLong,
    Parse(ElfError),
    SegmentData(ElfError),
    AddressSpace(AddressSpaceError),
    OutOfFrames,
    NotCanonical(u64),
    Mapping { virt: u64, error: AddressSpaceError },
    LeafFlags { count: usize },
    DidNotExit,
    NoExitNoFold,
    ExitStatus(u64),
    DidNotFold,
    FoldMismatch,
    AbiMismatch,
    DestroyAccounting { consumed: usize, quarantined: usize, leaked: usize },
    WriteMismatch,
}

/// A segment of a program: where it goes, how much of it the file holds, how
/// much it takes in memory, and what the file holds of it.
pub struct Segment {
    pub vaddr: u64,
    pub filesz: u64,
    pub memsz: u64,
    pub flags: u32,
    pub data: Result<Vec<u8>, ElfError>,
}

/// A program: where it starts, and its segments.
pub struct Program {
    pub entry: u64,
    pub segments: Vec<Segment>,
}

/// The last page of all. It belongs to the kernel, and is mapped for no program.
pub const LAST_PAGE: u64 = 0xffff_ffff_ffff_f000;

/// The bit of the flags that makes a segment writable.
pub const FLAG_WRITE: u32 = 2;

impl Segment {
    /// The segment ends at an address, and the file holds as much of it as it
    /// says.
    pub open spec fn wf(&self) -> bool {
        &&& 1 <= self.vaddr + self.memsz <= u64::MAX
        &&& self.filesz <= self.memsz
        &&& self.data matches Ok(data) ==> data@.len() == self.filesz
    }

    /// Whether the program may write to it.
    pub open spec fn is_writable(&self) -> bool {
        self.flags & FLAG_WRITE != 0
    }

    /// The first page of the segment.
    pub open spec fn first_page(&self) -> int {
        page_down(self.vaddr as int)
    }

    /// The last page of the segment.
    pub open spec fn last_page(&self) -> int {
        page_down(self.vaddr + self.memsz - 1)
    }

    /// The byte that the segment has at an address: the file's, as far as the
    /// file goes, and zero from there on.
    pub open spec fn byte_at(&self, address: int) -> u8 {
        if self.vaddr <= address < self.vaddr + self.filesz {
            self.data->Ok_0@[address - self.vaddr]
        } else {
            0
        }
    }
}

/// Whether the first page of `segments[n]` is the last page of the segment
/// before it, so that it is mapped already: the two lie side by side on it.
pub open spec fn shares_page(segments: Seq<Segment>, n: int) -> bool {
    &&& n > 0
    &&& segments[n].first_page() <= segments[n].last_page()
    &&& segments[n - 1].last_page() == segments[n].first_page()
    &&& segments[n - 1].vaddr + segments[n - 1].memsz <= segments[n].vaddr
}

/// The first page that is mapped for `segments[n]`.
pub open spec fn mapped_from(segments: Seq<Segment>, n: int) -> int {
    segments[n].first_page() + (if shares_page(segments, n) {
        4096int
    } else {
        0
    })
}

/// How many pages are mapped for `segments[n]`.
pub open spec fn mapped_count(segments: Seq<Segment>, n: int) -> int {
    if mapped_from(segments, n) > segments[n].last_page() {
        0
    } else {
        (segments[n].last_page() - mapped_from(segments, n)) / 4096 + 1
    }
}

/// How many of the first `n` segments begin on the last page of the one before.
pub open spec fn shared_pages(segments: Seq<Segment>, n: int) -> int
    decreases n,
{
    if n <= 0 {
        0
    } else {
        shared_pages(segments, n - 1) + (if shares_page(segments, n - 1) {
            1int
        } else {
            0
        })
    }
}

/// A page to be mapped, in mathematical terms.
pub struct Planned {
    pub page: int,
    pub writable: bool,
    pub content: Seq<u8>,
}

/// The page `i` that is mapped for `segments[n]`.
pub open spec fn planned_page(segments: Seq<Segment>, n: int, i: int) -> Planned {
    let page = mapped_from(segments, n) + 4096 * i;
    Planned {
        page,
        writable: segments[n].is_writable(),
        content: Seq::new(4096, |b: int| segments[n].byte_at(page + b)),
    }
}

/// The pages that are mapped for the first `n` segments, in order.
pub open spec fn planned(segments: Seq<Segment>, n: int) -> Seq<Planned>
    decreases n,
{
    if n <= 0 {
        Seq::empty()
    } else {
        planned(segments, n - 1) + Seq::new(
            mapped_count(segments, n - 1) as nat,
            |i: int| planned_page(segments, n - 1, i),
        )
    }
}

/// How many of the first segments have their data.
pub open spec fn readable(segments: Seq<Segment>, from: int) -> int
    decreases segments.len() - from,
{
    if from < segments.len() && segments[from].data is Ok {
        readable(segments, from + 1)
    } else {
        from
    }
}

proof fn lemma_readable(segments: Seq<Segment>, from: int)
    requires
        0 <= from <= segments.len(),
    ensures
        from <= readable(segments, from) <= segments.len(),
    decreases segments.len() - from,
{
    if from < segments.len() && segments[from].data is Ok {
        lemma_readable(segments, from + 1);
    }
}

/// A page to be mapped.
pub struct PageLoad {
    pub page: u64,
    pub writable: bool,
    pub content: Vec<u8>,
}

impl PageLoad {
    /// The page in mathematical terms.
    pub open spec fn view(&self) -> Planned {
        Planned { page: self.page as int, writable: self.writable, content: self.content@ }
    }
}

/// The content of a page of a segment whose file holds `data`: zeros, with the
/// part of the file that belongs there copied over them.
fn page_content(segment: &Segment, data: &[u8], page: u64) -> (content: Vec<u8>)
    requires
        segment.wf(),
        segment.data matches Ok(d) && d@ == data@,
        page % 4096 == 0,
        page + 4096 > segment.vaddr,
    ensures
        content@ == Seq::new(4096, |b: int| segment.byte_at(page + b)),
{
    let mut content: Vec<u8> = Vec::new();
    crate::bytes::push_repeated(&mut content, 0, PAGE);
    let start: u64 = if page > segment.vaddr {
        page - segment.vaddr
    } else {
        0
    };
    let offset: u64 = if segment.vaddr > page {
        segment.vaddr - page
    } else {
        0
    };
    if start < segment.filesz {
        let remaining: u64 = segment.filesz - start;
        let room: u64 = HEAP_PAGE_SIZE - offset;
        let count: usize = if remaining < room {
            remaining as usize
        } else {
            room as usize
        };
        let total: usize = data.len();
        assert(start <= total);
        let from: usize = start as usize;
        startup::put(&mut content, offset as usize, &data[from..from + count]);
    }
    assert(content@ =~= Seq::new(4096, |b: int| segment.byte_at(page + b)));
    content
}

/// Whether the first page of `segments[n]` is mapped already for the segment
/// before it.
fn begins_on_shared_page(segments: &[Segment], n: usize) -> (r: bool)
    requires
        n < segments@.len(),
        forall|i: int| 0 <= i < segments@.len() ==> (#[trigger] segments@[i]).wf(),
    ensures
        r == shares_page(segments@, n as int),
{
    if n == 0 {
        return false;
    }
    let segment = &segments[n];
    let before = &segments[n - 1];
    assert(segment.wf());
    assert(before.wf());
    let first: u64 = segment.vaddr / HEAP_PAGE_SIZE * HEAP_PAGE_SIZE;
    let last: u64 = (segment.vaddr + segment.memsz - 1) / HEAP_PAGE_SIZE * HEAP_PAGE_SIZE;
    let before_end: u64 = before.vaddr + before.memsz;
    let before_last: u64 = (before_end - 1) / HEAP_PAGE_SIZE * HEAP_PAGE_SIZE;
    first <= last && before_last == first && before_end <= segment.vaddr
}

/// The first page that is mapped for `segments[n]`, and how many are; nothing
/// where none is.
fn mapped_range(segments: &[Segment], n: usize) -> (r: Option<(u64, u64)>)
    requires
        n < segments@.len(),
        forall|i: int| 0 <= i < segments@.len() ==> (#[trigger] segments@[i]).wf(),
    ensures
        r is Some <==> mapped_count(segments@, n as int) > 0,
        r matches Some((from, count)) ==> from == mapped_from(segments@, n as int) && count
            == mapped_count(segments@, n as int),
{
    let segment = &segments[n];
    assert(segment.wf());
    let first: u64 = segment.vaddr / HEAP_PAGE_SIZE * HEAP_PAGE_SIZE;
    let last: u64 = (segment.vaddr + segment.memsz - 1) / HEAP_PAGE_SIZE * HEAP_PAGE_SIZE;
    if begins_on_shared_page(segments, n) {
        if first >= last {
            return None;
        }
        return Some((first + HEAP_PAGE_SIZE, (last - first - HEAP_PAGE_SIZE) / HEAP_PAGE_SIZE + 1));
    }
    if first > last {
        return None;
    }
    Some((first, (last - first) / HEAP_PAGE_SIZE + 1))
}

/// The pages of the first segments stay where they are when more follow.
proof fn lemma_planned(segments: Seq<Segment>, n: int, m: int)
    requires
        0 <= n <= m,
    ensures
        planned(segments, n).len() <= planned(segments, m).len(),
        forall|i: int|
            0 <= i < planned(segments, n).len() ==> #[trigger] planned(segments, m)[i]
                == planned(segments, n)[i],
    decreases m - n,
{
    if n < m {
        lemma_planned(segments, n, m - 1);
        assert forall|i: int| 0 <= i < planned(segments, n).len() implies #[trigger] planned(
            segments,
            m,
        )[i] == planned(segments, n)[i] by {
            assert(planned(segments, m)[i] == planned(segments, m - 1)[i]);
        }
    }
}

/// The page `i` that is mapped for the segments up to the first one whose data
/// cannot be had: its segment, and its address; nothing behind the last one.
fn locate(segments: &[Segment], i: usize) -> (r: Option<(usize, u64)>)
    requires
        forall|k: int| 0 <= k < segments@.len() ==> (#[trigger] segments@[k]).wf(),
    ensures
        ({
            let pages = planned(segments@, readable(segments@, 0));
            &&& r is Some <==> i < pages.len()
            &&& r matches Some((n, page)) ==> {
                &&& n < segments@.len()
                &&& segments@[n as int].data is Ok
                &&& page == pages[i as int].page
                &&& page + 4096 > segments@[n as int].vaddr
                &&& page % 4096 == 0
                &&& pages[i as int].writable == segments@[n as int].is_writable()
                &&& pages[i as int].content == Seq::new(
                    4096,
                    |b: int| segments@[n as int].byte_at(page + b),
                )
            }
        }),
{
    let mut n: usize = 0;
    let mut left: usize = i;
    let ghost good = readable(segments@, 0);
    proof {
        lemma_readable(segments@, 0);
    }
    while n < segments.len()
        invariant
            n <= segments@.len(),
            left <= i,
            forall|k: int| 0 <= k < segments@.len() ==> (#[trigger] segments@[k]).wf(),
            good == readable(segments@, 0),
            good == readable(segments@, n as int),
            n <= good <= segments@.len(),
            planned(segments@, n as int).len() + left == i,
        decreases segments@.len() - n,
    {
        match &segments[n].data {
            Ok(_) => {},
            Err(_) => {
                return None;
            },
        }
        proof {
            lemma_readable(segments@, n + 1);
            lemma_planned(segments@, n + 1, good);
        }
        match mapped_range(segments, n) {
            None => {},
            Some((from, count)) => {
                if (left as u64) < count {
                    let page: u64 = from + HEAP_PAGE_SIZE * left as u64;
                    proof {
                        let pages = planned(segments@, n + 1);
                        assert(pages[i as int] == planned_page(segments@, n as int, left as int));
                        assert(planned(segments@, good)[i as int] == pages[i as int]);
                    }
                    return Some((n, page));
                }
                left = left - count as usize;
            },
        }
        n += 1;
    }
    None
}

/// Where the page `i` goes and whether it is writable; nothing behind the last
/// one.
pub fn page_number(segments: &[Segment], i: usize) -> (r: Option<(u64, bool)>)
    requires
        forall|k: int| 0 <= k < segments@.len() ==> (#[trigger] segments@[k]).wf(),
    ensures
        ({
            let pages = planned(segments@, readable(segments@, 0));
            &&& r is Some <==> i < pages.len()
            &&& r matches Some((page, writable)) ==> page == pages[i as int].page && writable
                == pages[i as int].writable
        }),
{
    match locate(segments, i) {
        None => None,
        Some((n, page)) => Some((page, segments[n].flags & FLAG_WRITE != 0)),
    }
}

/// The page `i` to map for the segments up to the first one whose data cannot be
/// had; nothing behind the last one.
pub fn plan_page(segments: &[Segment], i: usize) -> (r: Option<PageLoad>)
    requires
        forall|k: int| 0 <= k < segments@.len() ==> (#[trigger] segments@[k]).wf(),
    ensures
        ({
            let pages = planned(segments@, readable(segments@, 0));
            &&& r is Some <==> i < pages.len()
            &&& r matches Some(load) ==> load@ == pages[i as int]
        }),
{
    let (n, page): (usize, u64) = match locate(segments, i) {
        None => {
            return None;
        },
        Some(found) => found,
    };
    let segment = &segments[n];
    match &segment.data {
        Ok(data) => {
            let content = page_content(segment, data.as_slice(), page);
            Some(PageLoad { page, writable: segment.flags & FLAG_WRITE != 0, content })
        },
        Err(_) => None,
    }
}

/// How many of the segments up to the first one whose data cannot be had begin
/// on the last page of the one before.
pub fn count_shared(segments: &[Segment]) -> (r: usize)
    requires
        forall|i: int| 0 <= i < segments@.len() ==> (#[trigger] segments@[i]).wf(),
    ensures
        r == shared_pages(segments@, readable(segments@, 0)),
{
    let mut shared: usize = 0;
    let mut index: usize = 0;
    while index < segments.len()
        invariant
            index <= segments@.len(),
            shared <= index,
            shared == shared_pages(segments@, index as int),
            forall|i: int| 0 <= i < segments@.len() ==> (#[trigger] segments@[i]).wf(),
            readable(segments@, 0) == readable(segments@, index as int),
        decreases segments@.len() - index,
    {
        match &segments[index].data {
            Ok(_) => {},
            Err(_) => {
                return shared;
            },
        }
        if begins_on_shared_page(segments, index) {
            shared += 1;
        }
        index += 1;
    }
    shared
}

/// Every page that a segment reaches is mapped, for it or for the segment before
/// it.
pub proof fn segments_are_mapped_whole(segments: Seq<Segment>, n: int, address: int)
    requires
        forall|i: int| 0 <= i < segments.len() ==> (#[trigger] segments[i]).wf(),
        0 <= n < segments.len(),
        segments[n].vaddr <= address < segments[n].vaddr + segments[n].memsz,
    ensures
        exists|k: int|
            0 <= k < planned(segments, n + 1).len() && (#[trigger] planned(
                segments,
                n + 1,
            )[k]).page == page_down(address),
{
    lemma_page_is_mapped(segments, n, page_down(address));
}

proof fn lemma_page_is_mapped(segments: Seq<Segment>, n: int, page: int)
    requires
        forall|i: int| 0 <= i < segments.len() ==> (#[trigger] segments[i]).wf(),
        0 <= n < segments.len(),
        page % 4096 == 0,
        segments[n].first_page() <= page <= segments[n].last_page(),
    ensures
        exists|k: int|
            0 <= k < planned(segments, n + 1).len() && (#[trigger] planned(
                segments,
                n + 1,
            )[k]).page == page,
    decreases n,
{
    let before = planned(segments, n);
    let after = planned(segments, n + 1);
    let from = mapped_from(segments, n);
    if page >= from {
        let i = (page - from) / 4096;
        let k = before.len() + i;
        assert(page == from + 4096 * i);
        assert(0 <= i < mapped_count(segments, n));
        assert(after[k] == planned_page(segments, n, i));
        assert(after[k].page == page);
    } else {
        assert(shares_page(segments, n));
        assert(segments[n - 1].wf());
        lemma_page_is_mapped(segments, n - 1, page);
        let k = choose|k: int|
            0 <= k < before.len() && (#[trigger] before[k]).page == page;
        assert(after[k] == before[k]);
    }
}

/// Memory begins as the program's file has it: every address of a segment holds
/// what the file says, and zero behind that. On a page that was mapped for the
/// segment before, this is so where the file holds nothing: that page stays as
/// it is.
pub proof fn segments_begin_as_the_file_says(segments: Seq<Segment>, n: int, address: int)
    requires
        forall|i: int| 0 <= i < segments.len() ==> (#[trigger] segments[i]).wf(),
        0 <= n < segments.len(),
        segments[n].vaddr <= address < segments[n].vaddr + segments[n].memsz,
        page_down(address) < mapped_from(segments, n) ==> segments[n].vaddr + segments[n].filesz
            <= address,
    ensures
        exists|k: int|
            0 <= k < planned(segments, n + 1).len() && (#[trigger] planned(
                segments,
                n + 1,
            )[k]).page == page_down(address) && planned(segments, n + 1)[k].content[address
                - page_down(address)] == segments[n].byte_at(address),
{
    let page = page_down(address);
    let before = planned(segments, n);
    let after = planned(segments, n + 1);
    let from = mapped_from(segments, n);
    if page >= from {
        let i = (page - from) / 4096;
        let k = before.len() + i;
        assert(page == from + 4096 * i);
        assert(0 <= i < mapped_count(segments, n));
        assert(after[k] == planned_page(segments, n, i));
        assert(after[k].page == page);
        assert(after[k].content[address - page] == segments[n].byte_at(address));
    } else {
        assert(shares_page(segments, n));
        assert(segments[n - 1].wf());
        lemma_zero_behind(segments, n - 1, address);
        let k = choose|k: int|
            0 <= k < before.len() && (#[trigger] before[k]).page == page
                && before[k].content[address - page] == 0;
        assert(after[k] == before[k]);
        assert(after[k].page == page);
    }
}

/// The rest of the last page of a segment is zero.
proof fn lemma_zero_behind(segments: Seq<Segment>, n: int, address: int)
    requires
        forall|i: int| 0 <= i < segments.len() ==> (#[trigger] segments[i]).wf(),
        0 <= n < segments.len(),
        segments[n].vaddr + segments[n].memsz <= address,
        page_down(address) == segments[n].last_page(),
        segments[n].first_page() <= segments[n].last_page(),
    ensures
        exists|k: int|
            0 <= k < planned(segments, n + 1).len() && (#[trigger] planned(
                segments,
                n + 1,
            )[k]).page == page_down(address) && planned(segments, n + 1)[k].content[address
                - page_down(address)] == 0,
    decreases n,
{
    let page = page_down(address);
    let before = planned(segments, n);
    let after = planned(segments, n + 1);
    let from = mapped_from(segments, n);
    if page >= from {
        let i = (page - from) / 4096;
        let k = before.len() + i;
        assert(page == from + 4096 * i);
        assert(0 <= i < mapped_count(segments, n));
        assert(after[k] == planned_page(segments, n, i));
        assert(after[k].page == page);
        assert(after[k].content[address - page] == segments[n].byte_at(address));
    } else {
        assert(shares_page(segments, n));
        assert(segments[n - 1].wf());
        lemma_zero_behind(segments, n - 1, address);
        let k = choose|k: int|
            0 <= k < before.len() && (#[trigger] before[k]).page == page
                && before[k].content[address - page] == 0;
        assert(after[k] == before[k]);
        assert(after[k].page == page);
    }
}

/// What the kernel's allocator and page tables answered for one page: whether a
/// frame could be had, and whether it could be mapped.
#[derive(Debug, Clone, Copy, PartialEq, Eq)]
pub struct PageAnswer {
    pub frame: bool,
    pub mapped: Result<(), AddressSpaceError>,
}

/// Whether an address has its upper bits all alike.
pub open spec fn is_canonical(address: int) -> bool {
    address < 0x8000_0000_0000 || address >= 0xffff_8000_0000_0000
}

/// What goes wrong with one page, if anything.
pub open spec fn page_failure(page: int, answer: PageAnswer) -> Option<UserLoadError> {
    if !answer.frame {
        Some(UserLoadError::OutOfFrames)
    } else if !is_canonical(page) {
        Some(UserLoadError::NotCanonical(page as u64))
    } else {
        match answer.mapped {
            Ok(_) => None,
            Err(error) => Some(UserLoadError::Mapping { virt: page as u64, error }),
        }
    }
}

/// What goes wrong first with pages from `from` on, if anything.
pub open spec fn first_failure(
    pages: Seq<Planned>,
    answers: Seq<PageAnswer>,
    from: int,
) -> Option<UserLoadError>
    decreases pages.len() - from,
{
    if from >= pages.len() {
        None
    } else {
        match page_failure(pages[from].page, answers[from]) {
            Some(error) => Some(error),
            None => first_failure(pages, answers, from + 1),
        }
    }
}

/// What goes wrong with one page, if anything. A frame comes first, then the
/// address, then the mapping.
pub fn check_page(page: u64, answer: PageAnswer) -> (r: Option<UserLoadError>)
    ensures
        r == page_failure(page as int, answer),
{
    if !answer.frame {
        return Some(UserLoadError::OutOfFrames);
    }
    if page >= 0x8000_0000_0000 && page < 0xffff_8000_0000_0000 {
        return Some(UserLoadError::NotCanonical(page));
    }
    match answer.mapped {
        Ok(_) => None,
        Err(error) => Some(UserLoadError::Mapping { virt: page, error }),
    }
}

/// Whether the frame that was taken for a page of the program goes back to the
/// allocator: one that was not mapped is in no address space, and nothing else
/// would give it back.
pub fn frame_goes_back(error: UserLoadError) -> (r: bool)
    ensures
        r == (error is Mapping),
{
    match error {
        UserLoadError::Mapping { .. } => true,
        _ => false,
    }
}

/// What a page table walk found of a page: whether it is writable and whether a
/// program may use it; nothing where it found no page.
pub type Walked = Option<(bool, bool)>;

/// Whether a walk found the page as it was mapped.
pub open spec fn as_mapped(writable: bool, walked: Walked) -> bool {
    walked matches Some((w, u)) && w == writable && u
}

/// Whether the recorded page `i` is writable: the pages of the program come
/// first, then the stack.
pub open spec fn recorded_writable(pages: Seq<Planned>, i: int) -> bool {
    if i < pages.len() {
        pages[i].writable
    } else {
        true
    }
}

/// How many of the recorded pages before `n` are not as they were mapped.
pub open spec fn mismatches(pages: Seq<Planned>, walked: Seq<Walked>, n: int) -> int
    decreases n,
{
    if n <= 0 {
        0
    } else {
        mismatches(pages, walked, n - 1) + (if as_mapped(
            recorded_writable(pages, n - 1),
            walked[n - 1],
        ) {
            0int
        } else {
            1
        })
    }
}

/// How many pages are recorded.
pub open spec fn recorded(pages: Seq<Planned>) -> int {
    if pages.len() + 1 < RECORDED_PAGES {
        pages.len() as int + 1
    } else {
        RECORDED_PAGES as int
    }
}

/// A program in memory: where it starts, its first stack pointer, its heap, and
/// the page of its stack.
pub struct Loaded {
    pub entry: u64,
    pub stack_top: u64,
    pub heap: Heap,
    pub stack: Vec<u8>,
}

/// The end of the last segment; zero where there is none.
pub open spec fn image_end(segments: Seq<Segment>) -> int {
    if segments.len() == 0 {
        0
    } else {
        segments.last().vaddr + segments.last().memsz
    }
}

/// A stack page with everything in it: the table and the strings, and the fill
/// below them.
pub open spec fn fresh_stack(page: Seq<u8>, argv: Seq<Seq<u8>>, envp: Seq<Seq<u8>>) -> bool {
    &&& startup::built(page, USER_PROGRAM_STACK_TOP - PAGE, argv, envp)
    &&& forall|i: int| 0 <= i < startup::table_at(argv, envp) ==> page[i] == USER_STACK_FILL
}

/// Builds the page of the stack and the first stack pointer.
pub(crate) fn stack_page(argv: &[Vec<u8>], envp: &[Vec<u8>]) -> (r: Option<(Vec<u8>, u64)>)
    ensures
        r is Some <==> startup::fits(startup::strings(argv@), startup::strings(envp@)),
        r matches Some((page, stack)) ==> {
            &&& fresh_stack(page@, startup::strings(argv@), startup::strings(envp@))
            &&& stack == USER_PROGRAM_STACK_TOP - PAGE + startup::table_at(
                startup::strings(argv@),
                startup::strings(envp@),
            )
        },
{
    let ghost args = startup::strings(argv@);
    let ghost env = startup::strings(envp@);
    let base: u64 = USER_PROGRAM_STACK_TOP - PAGE as u64;
    let mut page: Vec<u8> = Vec::new();
    crate::bytes::push_repeated(&mut page, 0, PAGE);
    let stack: u64 = match build_initial_stack(&mut page, base, argv, envp) {
        Some(stack) => stack,
        None => {
            return None;
        },
    };
    let ghost built = page@;
    let low: usize = (stack - base) as usize;
    let mut at: usize = 0;
    proof {
        startup::lemma_table_above(args, env);
    }
    while at < low
        invariant
            at <= low,
            low == startup::table_at(args, env),
            low <= PAGE,
            page@.len() == PAGE,
            built.len() == PAGE,
            forall|i: int| 0 <= i < at ==> page@[i] == USER_STACK_FILL,
            forall|i: int| at <= i < PAGE ==> page@[i] == built[i],
        decreases low - at,
    {
        page.set(at, USER_STACK_FILL);
        at += 1;
    }
    proof {
        startup::lemma_built_above(built, page@, base as int, args, env);
    }
    Some((page, stack))
}

/// Whether one of the pages that were answered for cannot be had.
pub open spec fn stopped(pages: Seq<Planned>, answers: Seq<PageAnswer>) -> bool {
    exists|i: int|
        0 <= i < pages.len() && i < answers.len() && page_failure(
            (#[trigger] pages[i]).page,
            answers[i],
        ) is Some
}

/// Whether the last page of all was not mapped for a program.
pub open spec fn last_page_stays(pages: Seq<Planned>, answers: Seq<PageAnswer>) -> bool {
    forall|i: int|
        0 <= i < pages.len() && i < answers.len() && (#[trigger] pages[i]).page == LAST_PAGE
            ==> page_failure(pages[i].page, answers[i]) is Some
}

/// A program whose pages could all be had does not reach into the last page of
/// all.
proof fn lemma_end(segments: Seq<Segment>, answers: Seq<PageAnswer>)
    requires
        forall|i: int| 0 <= i < segments.len() ==> (#[trigger] segments[i]).wf(),
        answers.len() >= planned(segments, segments.len() as int).len(),
        !stopped(planned(segments, segments.len() as int), answers),
        last_page_stays(planned(segments, segments.len() as int), answers),
    ensures
        image_end(segments) <= LAST_PAGE,
{
    if image_end(segments) > LAST_PAGE {
        let n = segments.len() - 1;
        assert(segments[n].wf());
        let pages = planned(segments, n + 1);
        lemma_page_is_mapped(segments, n, LAST_PAGE as int);
        let k = choose|k: int|
            0 <= k < pages.len() && (#[trigger] pages[k]).page == LAST_PAGE as int;
        assert(page_failure(pages[k].page, answers[k]) is Some);
        assert(stopped(pages, answers));
    }
}

/// Whether the answers tell what comes of a load: something went wrong, or
/// everything was answered for.
pub open spec fn settled(
    segments: Seq<Segment>,
    args: Seq<Seq<u8>>,
    env: Seq<Seq<u8>>,
    answers: Seq<PageAnswer>,
    walked: Seq<Walked>,
) -> bool {
    let good = readable(segments, 0);
    let pages = planned(segments, good);
    let stack = USER_PROGRAM_STACK_TOP - PAGE;
    ||| stopped(pages, answers)
    ||| answers.len() >= pages.len() && good < segments.len()
    ||| answers.len() > pages.len() && (page_failure(stack, answers[pages.len() as int]) is Some
        || !startup::fits(args, env) || walked.len() >= recorded(pages))
}

/// What goes wrong first with the pages of a program, if anything; and how many
/// of them there are, where nothing does.
fn check_pages(segments: &[Segment], answers: &[PageAnswer]) -> (r: Result<usize, UserLoadError>)
    requires
        forall|i: int| 0 <= i < segments@.len() ==> (#[trigger] segments@[i]).wf(),
        ({
            let pages = planned(segments@, readable(segments@, 0));
            answers@.len() >= pages.len() || stopped(pages, answers@)
        }),
    ensures
        ({
            let pages = planned(segments@, readable(segments@, 0));
            match first_failure(pages, answers@, 0) {
                Some(error) => r == Err::<usize, UserLoadError>(error),
                None => r == Ok::<usize, UserLoadError>(pages.len() as usize) && answers@.len()
                    >= pages.len() && !stopped(pages, answers@),
            }
        }),
{
    let ghost pages = planned(segments@, readable(segments@, 0));
    let mut at: usize = 0;
    while at < answers.len()
        invariant
            at <= pages.len(),
            at <= answers@.len(),
            forall|i: int| 0 <= i < segments@.len() ==> (#[trigger] segments@[i]).wf(),
            pages == planned(segments@, readable(segments@, 0)),
            answers@.len() >= pages.len() || stopped(pages, answers@),
            forall|i: int|
                0 <= i < at ==> page_failure((#[trigger] pages[i]).page, answers@[i]) is None,
            first_failure(pages, answers@, 0) == first_failure(pages, answers@, at as int),
        decreases answers@.len() - at,
    {
        match page_number(segments, at) {
            None => {
                return Ok(at);
            },
            Some((page, _)) => {
                match check_page(page, answers[at]) {
                    Some(error) => {
                        return Err(error);
                    },
                    None => {},
                }
            },
        }
        at += 1;
    }
    Ok(at)
}

/// The end of the last segment, or why the data of one cannot be had.
fn check_segments(segments: &[Segment]) -> (r: Result<u64, ElfError>)
    requires
        forall|i: int| 0 <= i < segments@.len() ==> (#[trigger] segments@[i]).wf(),
    ensures
        ({
            let good = readable(segments@, 0);
            if good < segments@.len() {
                r == Err::<u64, ElfError>(segments@[good].data->Err_0)
            } else {
                r matches Ok(end) && end == image_end(segments@)
            }
        }),
{
    let mut index: usize = 0;
    let mut end: u64 = 0;
    while index < segments.len()
        invariant
            index <= segments@.len(),
            readable(segments@, 0) == readable(segments@, index as int),
            forall|i: int| 0 <= i < segments@.len() ==> (#[trigger] segments@[i]).wf(),
            end == (if index == 0 {
                0
            } else {
                segments@[index - 1].vaddr + segments@[index - 1].memsz
            }),
        decreases segments@.len() - index,
    {
        let segment = &segments[index];
        match &segment.data {
            Ok(_) => {},
            Err(error) => {
                return Err(*error);
            },
        }
        end = segment.vaddr + segment.memsz;
        index += 1;
    }
    Ok(end)
}

/// How many of the recorded pages are not as they were mapped; `count` is how
/// many pages the program has.
fn check_flags(segments: &[Segment], count: usize, walked: &[Walked]) -> (wrong: usize)
    requires
        forall|i: int| 0 <= i < segments@.len() ==> (#[trigger] segments@[i]).wf(),
        count == planned(segments@, readable(segments@, 0)).len(),
        walked@.len() >= recorded(planned(segments@, readable(segments@, 0))),
    ensures
        ({
            let pages = planned(segments@, readable(segments@, 0));
            wrong == mismatches(pages, walked@, recorded(pages))
        }),
{
    let ghost pages = planned(segments@, readable(segments@, 0));
    let total: usize = if count < RECORDED_PAGES - 1 {
        count + 1
    } else {
        RECORDED_PAGES
    };
    let mut wrong: usize = 0;
    let mut at: usize = 0;
    while at < total
        invariant
            at <= total,
            total == recorded(pages),
            total <= walked@.len(),
            wrong <= at,
            forall|i: int| 0 <= i < segments@.len() ==> (#[trigger] segments@[i]).wf(),
            pages == planned(segments@, readable(segments@, 0)),
            wrong == mismatches(pages, walked@, at as int),
        decreases total - at,
    {
        let writable: bool = match page_number(segments, at) {
            Some((_, writable)) => writable,
            None => true,
        };
        let good_page: bool = match walked[at] {
            Some((w, u)) => w == writable && u,
            None => false,
        };
        if !good_page {
            wrong += 1;
        }
        at += 1;
    }
    wrong
}

/// Whether `r` is what comes of a load by what the kernel answered: the first
/// thing that went wrong, or else the program in memory.
pub open spec fn comes_of(
    program: Result<Program, ElfError>,
    args: Seq<Seq<u8>>,
    env: Seq<Seq<u8>>,
    answers: Seq<PageAnswer>,
    walked: Seq<Walked>,
    r: Result<Loaded, UserLoadError>,
) -> bool {
    match program {
        Err(error) => r == Err::<Loaded, UserLoadError>(UserLoadError::Parse(error)),
        Ok(p) => {
            let good = readable(p.segments@, 0);
            let pages = planned(p.segments@, good);
            let wrong = mismatches(pages, walked, recorded(pages));
            if let Some(error) = first_failure(pages, answers, 0) {
                r == Err::<Loaded, UserLoadError>(error)
            } else if good < p.segments@.len() {
                r == Err::<Loaded, UserLoadError>(
                    UserLoadError::SegmentData(p.segments@[good].data->Err_0),
                )
            } else if let Some(error) = page_failure(
                USER_PROGRAM_STACK_TOP - PAGE,
                answers[pages.len() as int],
            ) {
                r == Err::<Loaded, UserLoadError>(error)
            } else if !startup::fits(args, env) {
                r == Err::<Loaded, UserLoadError>(UserLoadError::ArgumentsTooLong)
            } else if wrong != 0 {
                r == Err::<Loaded, UserLoadError>(UserLoadError::LeafFlags { count: wrong as usize })
            } else {
                r matches Ok(loaded) && loaded.entry == p.entry && loaded.stack_top
                    == USER_PROGRAM_STACK_TOP - PAGE + startup::table_at(args, env)
                    && loaded.heap.spec_start() == page_up(image_end(p.segments@))
                    && loaded.heap.spec_break() == loaded.heap.spec_start()
                    && loaded.heap.spec_taken() == 0 && loaded.heap.spec_given() == 0
                    && fresh_stack(loaded.stack@, args, env)
            }
        },
    }
}

/// What comes of loading a program, given what the kernel answered for each
/// page: for the pages of the plan in order, then for the stack. `walked` is what
/// a walk then found of the recorded pages. The first thing that goes wrong is
/// the error, and nothing behind it has to be answered for.
pub fn load_user_program_into(
    program: &Result<Program, ElfError>,
    argv: &[Vec<u8>],
    envp: &[Vec<u8>],
    answers: &[PageAnswer],
    walked: &[Walked],
) -> (r: Result<Loaded, UserLoadError>)
    requires
        program matches Ok(p) ==> {
            &&& forall|i: int| 0 <= i < p.segments@.len() ==> (#[trigger] p.segments@[i]).wf()
            &&& settled(
                p.segments@,
                startup::strings(argv@),
                startup::strings(envp@),
                answers@,
                walked@,
            )
            &&& last_page_stays(
                planned(p.segments@, readable(p.segments@, 0)),
                answers@,
            )
        },
    ensures
        comes_of(
            *program,
            startup::strings(argv@),
            startup::strings(envp@),
            answers@,
            walked@,
            r,
        ),
{
    let program: &Program = match program {
        Ok(program) => program,
        Err(error) => {
            return Err(UserLoadError::Parse(*error));
        },
    };
    let count: usize = match check_pages(program.segments.as_slice(), answers) {
        Ok(count) => count,
        Err(error) => {
            return Err(error);
        },
    };
    let end: u64 = match check_segments(program.segments.as_slice()) {
        Ok(end) => end,
        Err(error) => {
            return Err(UserLoadError::SegmentData(error));
        },
    };
    proof {
        lemma_readable(program.segments@, 0);
        lemma_end(program.segments@, answers@);
    }
    let heap = Heap::from_image_end(end);
    let stack_base: u64 = USER_PROGRAM_STACK_TOP - PAGE as u64;
    match check_page(stack_base, answers[count]) {
        Some(error) => {
            return Err(error);
        },
        None => {},
    }
    let (stack, stack_top): (Vec<u8>, u64) = match stack_page(argv, envp) {
        Some(pair) => pair,
        None => {
            return Err(UserLoadError::ArgumentsTooLong);
        },
    };
    let wrong: usize = check_flags(program.segments.as_slice(), count, walked);
    if wrong != 0 {
        return Err(UserLoadError::LeafFlags { count: wrong });
    }
    Ok(Loaded { entry: program.entry, stack_top, heap, stack })
}

/// What is left of the fill in a stack page.
pub open spec fn untouched(page: Seq<u8>, from: int) -> int
    decreases page.len() - from,
{
    if from < page.len() && page[from] == USER_STACK_FILL {
        untouched(page, from + 1)
    } else {
        from
    }
}

/// How much of a stack was used.
#[derive(Debug, Clone, Copy, PartialEq, Eq, Structural)]
pub struct HighWater {
    pub used: usize,
    pub percent: usize,
    pub over_half: bool,
}

/// Measures how much of a stack page was used: from its lowest byte that is not
/// the fill.
pub fn report_user_stack_high_water(page: &[u8]) -> (r: HighWater)
    requires
        page@.len() == PAGE,
    ensures
        r.used == PAGE - untouched(page@, 0),
        r.percent == r.used * 100 / 4096,
        r.over_half == (r.used * 2 > PAGE),
{
    let mut lowest: usize = 0;
    while lowest < PAGE && page[lowest] == USER_STACK_FILL
        invariant
            lowest <= PAGE,
            page@.len() == PAGE,
            untouched(page@, 0) == untouched(page@, lowest as int),
        decreases PAGE - lowest,
    {
        lowest += 1;
    }
    let used: usize = PAGE - lowest;
    HighWater { used, percent: used * 100 / PAGE, over_half: used * 2 > PAGE }
}

/// On a stack that no program ran on yet, what counts as used is exactly the
/// table and what stands above it.
pub proof fn fresh_stack_shows_its_table(page: Seq<u8>, argv: Seq<Seq<u8>>, envp: Seq<Seq<u8>>)
    requires
        startup::fits(argv, envp),
        fresh_stack(page, argv, envp),
    ensures
        untouched(page, 0) == startup::table_at(argv, envp),
{
    let at = startup::table_at(argv, envp);
    startup::lemma_table_above(argv, envp);
    let words = startup::table(USER_PROGRAM_STACK_TOP - PAGE, argv, envp);
    assert(crate::le::field(page, at + 8 * 0, 8) == words[0]);
    crate::le::lemma_low_byte(page, at, 8);
    lemma_untouched(page, 0, at);
}

proof fn lemma_untouched(page: Seq<u8>, from: int, at: int)
    requires
        0 <= from <= at < page.len(),
        forall|i: int| from <= i < at ==> page[i] == USER_STACK_FILL,
        page[at] != USER_STACK_FILL,
    ensures
        untouched(page, from) == at,
    decreases at - from,
{
    if from < at {
        lemma_untouched(page, from + 1, at);
    }
}

/// Whether every segment ends before the next one begins.
pub open spec fn in_order(segments: Seq<Segment>) -> bool {
    forall|a: int, b: int|
        0 <= a < b < segments.len() ==> (#[trigger] segments[a]).vaddr + segments[a].memsz <= (
        #[trigger] segments[b]).vaddr
}

/// The page `k` of the plan, and the segment that it was mapped for: it is one of
/// the pages that the segment reaches, the program may write to it where the
/// segment says so, and it holds what the file has of the segment, with zeros
/// around that.
pub proof fn planned_pages_belong_to_segments(segments: Seq<Segment>, n: int, k: int) -> (of: int)
    requires
        forall|i: int| 0 <= i < segments.len() ==> (#[trigger] segments[i]).wf(),
        0 <= n <= segments.len(),
        0 <= k < planned(segments, n).len(),
    ensures
        0 <= of < n,
        ({
            let load = planned(segments, n)[k];
            let segment = segments[of];
            &&& load.page % 4096 == 0
            &&& load.page < segment.vaddr + segment.memsz
            &&& segment.vaddr < load.page + 4096
            &&& load.writable == (segment.flags & 2 != 0)
            &&& load.content.len() == 4096
            &&& forall|b: int|
                0 <= b < 4096 ==> #[trigger] load.content[b] == (if segment.vaddr <= load.page + b
                    < segment.vaddr + segment.filesz {
                    segment.data->Ok_0@[load.page + b - segment.vaddr]
                } else {
                    0
                })
        }),
    decreases n,
{
    let before = planned(segments, n - 1);
    if k < before.len() {
        assert(planned(segments, n)[k] == before[k]);
        planned_pages_belong_to_segments(segments, n - 1, k)
    } else {
        let i = k - before.len();
        assert(segments[n - 1].wf());
        assert(planned(segments, n)[k] == planned_page(segments, n - 1, i));
        n - 1
    }
}

/// No page is mapped twice, where the segments are in order: the pages of the
/// plan go upwards.
pub proof fn planned_pages_go_upwards(segments: Seq<Segment>, n: int, j: int, k: int)
    requires
        forall|i: int| 0 <= i < segments.len() ==> (#[trigger] segments[i]).wf(),
        in_order(segments),
        forall|i: int| 0 <= i < segments.len() ==> (#[trigger] segments[i]).memsz > 0,
        0 <= n <= segments.len(),
        0 <= j < k < planned(segments, n).len(),
    ensures
        planned(segments, n)[j].page < planned(segments, n)[k].page,
    decreases n,
{
    let before = planned(segments, n - 1);
    assert(segments[n - 1].wf());
    if k < before.len() {
        planned_pages_go_upwards(segments, n - 1, j, k);
        assert(planned(segments, n)[j] == before[j]);
        assert(planned(segments, n)[k] == before[k]);
    } else {
        assert(planned(segments, n)[k] == planned_page(segments, n - 1, k - before.len()));
        if j < before.len() {
            let of = planned_pages_belong_to_segments(segments, n - 1, j);
            assert(planned(segments, n)[j] == before[j]);
            assert(segments[of].wf());
            assert(segments[n - 2].wf());
            assert(segments[of].vaddr + segments[of].memsz <= segments[n - 2].vaddr
                + segments[n - 2].memsz);
            assert(segments[n - 2].vaddr + segments[n - 2].memsz <= segments[n - 1].vaddr);
        } else {
            assert(planned(segments, n)[j] == planned_page(segments, n - 1, j - before.len()));
        }
    }
}

/// The heap of a loaded program begins behind the whole program: on a page, at or
/// behind the end of every segment, and behind every page that was mapped for
/// one. It is empty, and less than a page away from the last segment.
pub proof fn heap_begins_behind_every_segment(
    program: Program,
    args: Seq<Seq<u8>>,
    env: Seq<Seq<u8>>,
    answers: Seq<PageAnswer>,
    walked: Seq<Walked>,
    loaded: Loaded,
    i: int,
)
    requires
        forall|k: int|
            0 <= k < program.segments@.len() ==> (#[trigger] program.segments@[k]).wf(),
        in_order(program.segments@),
        comes_of(
            Ok::<Program, ElfError>(program),
            args,
            env,
            answers,
            walked,
            Ok::<Loaded, UserLoadError>(loaded),
        ),
        0 <= i < program.segments@.len(),
    ensures
        loaded.heap.spec_start() % 4096 == 0,
        loaded.heap.spec_start() >= program.segments@[i].vaddr + program.segments@[i].memsz,
        i == program.segments@.len() - 1 ==> loaded.heap.spec_start() < program.segments@[i].vaddr
            + program.segments@[i].memsz + 4096,
        loaded.heap.spec_break() == loaded.heap.spec_start(),
        forall|k: int|
            0 <= k < planned(program.segments@, program.segments@.len() as int).len() ==> (
            #[trigger] planned(program.segments@, program.segments@.len() as int)[k]).page + 4096
                <= loaded.heap.spec_start(),
{
    let segments = program.segments@;
    let last = segments.len() - 1;
    assert(segments[last].wf());
    assert(segments[i].wf());
    assert(loaded.heap.spec_start() == page_up(image_end(segments)));
    let pages = planned(segments, segments.len() as int);
    assert forall|k: int| 0 <= k < pages.len() implies (#[trigger] pages[k]).page + 4096
        <= loaded.heap.spec_start() by {
        let of = planned_pages_belong_to_segments(segments, segments.len() as int, k);
        assert(segments[of].wf());
        assert(segments[of].vaddr + segments[of].memsz <= segments[last].vaddr
            + segments[last].memsz);
    }
}

/// Whether a page could be had: there was a frame for it, its address is one that
/// a page can have, and it was mapped.
pub open spec fn has_its_page(load: Planned, answer: PageAnswer) -> bool {
    &&& answer.frame
    &&& answer.mapped is Ok
    &&& load.page < 0x8000_0000_0000 || load.page >= 0xffff_8000_0000_0000
}

/// A program that was loaded starts where it says, every page of it could be had
/// and was mapped, the data of every segment was there, and the walk found the
/// recorded pages as they were mapped.
pub proof fn loaded_programs_are_whole(
    program: Program,
    args: Seq<Seq<u8>>,
    env: Seq<Seq<u8>>,
    answers: Seq<PageAnswer>,
    walked: Seq<Walked>,
    loaded: Loaded,
)
    requires
        comes_of(
            Ok::<Program, ElfError>(program),
            args,
            env,
            answers,
            walked,
            Ok::<Loaded, UserLoadError>(loaded),
        ),
    ensures
        loaded.entry == program.entry,
        startup::fits(args, env),
        startup::built(loaded.stack@, 0x80_0000 - 4096, args, env),
        loaded.stack_top == 0x80_0000 - 4096 + startup::table_at(args, env),
        forall|n: int|
            0 <= n < program.segments@.len() ==> (#[trigger] program.segments@[n]).data is Ok,
        ({
            let pages = planned(program.segments@, program.segments@.len() as int);
            &&& forall|k: int|
                0 <= k < pages.len() ==> has_its_page(#[trigger] pages[k], answers[k])
            &&& answers[pages.len() as int].frame
            &&& answers[pages.len() as int].mapped is Ok
            &&& forall|k: int|
                0 <= k < pages.len() && k < 8 ==> walked[k] == Some(
                    ((#[trigger] pages[k]).writable, true),
                )
            &&& pages.len() < 8 ==> walked[pages.len() as int] == Some((true, true))
        }),
{
    let segments = program.segments@;
    lemma_readable(segments, 0);
    lemma_all_readable(segments, 0);
    let pages = planned(segments, segments.len() as int);
    lemma_no_failure(pages, answers, 0);
    lemma_no_mismatch(pages, walked, recorded(pages));
    assert forall|k: int| 0 <= k < pages.len() && k < 8 implies walked[k] == Some(
        ((#[trigger] pages[k]).writable, true),
    ) by {
        assert(as_mapped(recorded_writable(pages, k), walked[k]));
    }
    if pages.len() < 8 {
        assert(as_mapped(recorded_writable(pages, pages.len() as int), walked[pages.len() as int]));
    }
    assert(page_failure(USER_PROGRAM_STACK_TOP - PAGE, answers[pages.len() as int]) is None);
    assert forall|k: int| 0 <= k < pages.len() implies has_its_page(
        #[trigger] pages[k],
        answers[k],
    ) by {
        assert(page_failure(pages[k].page, answers[k]) is None);
    }
}

proof fn lemma_all_readable(segments: Seq<Segment>, from: int)
    requires
        0 <= from <= segments.len(),
        readable(segments, from) == segments.len(),
    ensures
        forall|n: int| from <= n < segments.len() ==> (#[trigger] segments[n]).data is Ok,
    decreases segments.len() - from,
{
    if from < segments.len() {
        lemma_all_readable(segments, from + 1);
    }
}

proof fn lemma_no_failure(pages: Seq<Planned>, answers: Seq<PageAnswer>, from: int)
    requires
        0 <= from <= pages.len(),
        first_failure(pages, answers, from) is None,
    ensures
        forall|k: int|
            from <= k < pages.len() ==> page_failure((#[trigger] pages[k]).page, answers[k])
                is None,
    decreases pages.len() - from,
{
    if from < pages.len() {
        lemma_no_failure(pages, answers, from + 1);
    }
}

proof fn lemma_no_mismatch(pages: Seq<Planned>, walked: Seq<Walked>, n: int)
    requires
        0 <= n,
    ensures
        mismatches(pages, walked, n) >= 0,
        mismatches(pages, walked, n) == 0 ==> forall|k: int|
            0 <= k < n ==> as_mapped(recorded_writable(pages, k), #[trigger] walked[k]),
    decreases n,
{
    if n > 0 {
        lemma_no_mismatch(pages, walked, n - 1);
    }
}

/// A page that could not be had is the error, where every page before it could
/// be had: no frame, an address that no page can have, or a mapping that failed.
pub proof fn the_first_bad_page_is_the_error(
    program: Program,
    args: Seq<Seq<u8>>,
    env: Seq<Seq<u8>>,
    answers: Seq<PageAnswer>,
    walked: Seq<Walked>,
    r: Result<Loaded, UserLoadError>,
    k: int,
)
    requires
        comes_of(Ok::<Program, ElfError>(program), args, env, answers, walked, r),
        forall|n: int|
            0 <= n < program.segments@.len() ==> (#[trigger] program.segments@[n]).data is Ok,
        ({
            let pages = planned(program.segments@, program.segments@.len() as int);
            &&& 0 <= k < pages.len()
            &&& forall|j: int|
                0 <= j < k ==> has_its_page(#[trigger] pages[j], answers[j])
        }),
    ensures
        ({
            let page = planned(program.segments@, program.segments@.len() as int)[k].page;
            let bad = 0x8000_0000_0000 <= page < 0xffff_8000_0000_0000;
            &&& !answers[k].frame ==> r == Err::<Loaded, UserLoadError>(
                UserLoadError::OutOfFrames,
            )
            &&& answers[k].frame && bad ==> r == Err::<Loaded, UserLoadError>(
                UserLoadError::NotCanonical(page as u64),
            )
            &&& answers[k].frame && !bad ==> (answers[k].mapped matches Err(error) ==> r == Err::<
                Loaded,
                UserLoadError,
            >(UserLoadError::Mapping { virt: page as u64, error }))
        }),
{
    let segments = program.segments@;
    lemma_readable_to_the_end(segments, 0);
    let pages = planned(segments, segments.len() as int);
    assert forall|j: int| 0 <= j < k implies page_failure(
        (#[trigger] pages[j]).page,
        answers[j],
    ) is None by {
        assert(has_its_page(pages[j], answers[j]));
    }
    lemma_failure_behind(pages, answers, 0, k);
}

proof fn lemma_readable_to_the_end(segments: Seq<Segment>, from: int)
    requires
        0 <= from <= segments.len(),
        forall|n: int| from <= n < segments.len() ==> (#[trigger] segments[n]).data is Ok,
    ensures
        readable(segments, from) == segments.len(),
    decreases segments.len() - from,
{
    if from < segments.len() {
        lemma_readable_to_the_end(segments, from + 1);
    }
}

proof fn lemma_failure_behind(pages: Seq<Planned>, answers: Seq<PageAnswer>, from: int, k: int)
    requires
        0 <= from <= k < pages.len(),
        forall|j: int|
            from <= j < k ==> page_failure((#[trigger] pages[j]).page, answers[j]) is None,
    ensures
        page_failure(pages[k].page, answers[k]) is Some ==> first_failure(pages, answers, from)
            == page_failure(pages[k].page, answers[k]),
    decreases k - from,
{
    if from < k {
        lemma_failure_behind(pages, answers, from + 1, k);
    }
}

/// What is untouched of a stack page is its fill from the lowest byte on, and no
/// more.
pub proof fn untouched_stack_is_its_fill(page: Seq<u8>)
    ensures
        0 <= untouched(page, 0) <= page.len(),
        forall|i: int| 0 <= i < untouched(page, 0) ==> #[trigger] page[i] == USER_STACK_FILL,
        untouched(page, 0) < page.len() ==> page[untouched(page, 0)] != USER_STACK_FILL,
{
    lemma_fill(page, 0);
}

proof fn lemma_fill(page: Seq<u8>, from: int)
    requires
        0 <= from <= page.len(),
    ensures
        from <= untouched(page, from) <= page.len(),
        forall|i: int| from <= i < untouched(page, from) ==> #[trigger] page[i] == USER_STACK_FILL,
        untouched(page, from) < page.len() ==> page[untouched(page, from)] != USER_STACK_FILL,
    decreases page.len() - from,
{
    if from < page.len() && page[from] == USER_STACK_FILL {
        lemma_fill(page, from + 1);
    }
}

/// A segment whose data cannot be had is the error, where every segment before
/// it has its data and every page before it could be had.
pub proof fn the_first_unreadable_segment_is_the_error(
    program: Program,
    args: Seq<Seq<u8>>,
    env: Seq<Seq<u8>>,
    answers: Seq<PageAnswer>,
    walked: Seq<Walked>,
    r: Result<Loaded, UserLoadError>,
    n: int,
)
    requires
        comes_of(Ok::<Program, ElfError>(program), args, env, answers, walked, r),
        0 <= n < program.segments@.len(),
        forall|i: int| 0 <= i < n ==> (#[trigger] program.segments@[i]).data is Ok,
        program.segments@[n].data is Err,
        forall|k: int|
            0 <= k < planned(program.segments@, n).len() ==> has_its_page(
                #[trigger] planned(program.segments@, n)[k],
                answers[k],
            ),
    ensures
        r == Err::<Loaded, UserLoadError>(
            UserLoadError::SegmentData(program.segments@[n].data->Err_0),
        ),
{
    let segments = program.segments@;
    lemma_readable_up_to(segments, 0, n);
    let pages = planned(segments, n);
    assert forall|k: int| 0 <= k < pages.len() implies page_failure(
        (#[trigger] pages[k]).page,
        answers[k],
    ) is None by {
        assert(has_its_page(pages[k], answers[k]));
    }
    lemma_nothing_fails(pages, answers, 0);
}

proof fn lemma_readable_up_to(segments: Seq<Segment>, from: int, n: int)
    requires
        0 <= from <= n < segments.len(),
        forall|i: int| from <= i < n ==> (#[trigger] segments[i]).data is Ok,
        segments[n].data is Err,
    ensures
        readable(segments, from) == n,
    decreases n - from,
{
    if from < n {
        lemma_readable_up_to(segments, from + 1, n);
    }
}

proof fn lemma_nothing_fails(pages: Seq<Planned>, answers: Seq<PageAnswer>, from: int)
    requires
        0 <= from <= pages.len(),
        forall|k: int|
            from <= k < pages.len() ==> page_failure((#[trigger] pages[k]).page, answers[k])
                is None,
    ensures
        first_failure(pages, answers, from) is None,
    decreases pages.len() - from,
{
    if from < pages.len() {
        lemma_nothing_fails(pages, answers, from + 1);
    }
}

/// Every page that is not as it was mapped counts once: where one more is wrong,
/// the count is higher by one.
pub proof fn every_wrong_page_counts_once(
    pages: Seq<Planned>,
    walked: Seq<Walked>,
    n: int,
    k: int,
    found: Walked,
)
    requires
        0 <= k < n <= walked.len(),
        walked[k] == Some((if k < pages.len() { pages[k].writable } else { true }, true)),
        found != walked[k],
    ensures
        mismatches(pages, walked.update(k, found), n) == mismatches(pages, walked, n) + 1,
        mismatches(pages, walked, 0) == 0,
    decreases n,
{
    let other = walked.update(k, found);
    if k < n - 1 {
        every_wrong_page_counts_once(pages, walked, n - 1, k, found);
        assert(other[n - 1] == walked[n - 1]);
    } else {
        lemma_mismatches_before(pages, walked, other, n - 1);
    }
}

proof fn lemma_mismatches_before(
    pages: Seq<Planned>,
    walked: Seq<Walked>,
    other: Seq<Walked>,
    n: int,
)
    requires
        forall|i: int| 0 <= i < n ==> walked[i] == other[i],
    ensures
        mismatches(pages, walked, n) == mismatches(pages, other, n),
    decreases n,
{
    if n > 0 {
        lemma_mismatches_before(pages, walked, other, n - 1);
    }
}

/// How many pages the first `n` segments reach, a page that two of them reach
/// counted for both.
pub open spec fn pages_reached(segments: Seq<Segment>, n: int) -> int
    decreases n,
{
    if n <= 0 {
        0
    } else {
        let segment = segments[n - 1];
        let end = segment.vaddr + segment.memsz;
        pages_reached(segments, n - 1) + (if (end - 1) / 4096 < segment.vaddr as int / 4096 {
            0
        } else {
            (end - 1) / 4096 - segment.vaddr as int / 4096 + 1
        })
    }
}

/// A page that two segments share is mapped once: what the segments reach is what
/// is mapped for them and what they share.
pub proof fn shared_pages_are_mapped_once(segments: Seq<Segment>, n: int)
    requires
        forall|i: int| 0 <= i < segments.len() ==> (#[trigger] segments[i]).wf(),
        0 <= n <= segments.len(),
    ensures
        planned(segments, n).len() + shared_pages(segments, n) == pages_reached(segments, n),
    decreases n,
{
    if n > 0 {
        shared_pages_are_mapped_once(segments, n - 1);
        assert(segments[n - 1].wf());
    }
}

} // verus!
