//! The virtio block device: the layout of its queue, the requests put into it,
//! and who may use it when.
use crate::le;
use vstd::prelude::*;

verus! {

/// The register that tells what the device offers.
pub const REG_HOST_FEATURES: u16 = 0x00;

/// The register that takes what the driver accepts.
pub const REG_GUEST_FEATURES: u16 = 0x04;

/// The register that takes the page of the queue.
pub const REG_QUEUE_ADDRESS: u16 = 0x08;

/// The register that tells the size of the queue.
pub const REG_QUEUE_SIZE: u16 = 0x0c;

/// The register that selects a queue.
pub const REG_QUEUE_SELECT: u16 = 0x0e;

/// The register that wakes the device.
pub const REG_QUEUE_NOTIFY: u16 = 0x10;

/// The register of the driver's progress.
pub const REG_DEVICE_STATUS: u16 = 0x12;

/// The register that tells why the device interrupted.
pub const REG_ISR: u16 = 0x13;

/// The first register of the device's own configuration.
pub const REG_DEVICE_CONFIG: u16 = 0x14;

/// The descriptor goes on at another one.
pub const DESC_F_NEXT: u16 = 1;

/// The device writes to the descriptor's buffer.
pub const DESC_F_WRITE: u16 = 2;

/// A request that reads.
pub const BLK_T_IN: u32 = 0;

/// A request that writes.
pub const BLK_T_OUT: u32 = 1;

/// The alignment of the used ring.
pub const RING_ALIGN: u64 = 4096;

/// The size of a sector.
pub const SECTOR_BYTES: u64 = 512;

/// How often the queue is looked at before a request counts as lost.
pub const POLL_SPIN_LIMIT: u64 = 20_000_000;

/// How many ticks a blocking wait takes at most.
pub const BLOCKING_WAIT_TICKS: u64 = 200;

/// Where the status byte of a request stands in the spare page.
pub const STATUS_AT: usize = 1024;

/// Where in the spare page there is room for one sector.
pub const ROOM_AT: usize = 512;

/// Why the device did not do as asked.
#[derive(Debug, Clone, Copy, PartialEq, Eq, Structural)]
pub enum VirtioBlkError {
    QueueSizeZero,
    RingAllocationFailed { pages: u64 },
    RequestTimedOut { spins: u64 },
    BadRequestStatus { status: u8 },
    WrongUsedId { id: u32 },
}

/// A value for a port, by the width of the port.
#[derive(Debug, Clone, Copy, PartialEq, Eq, Structural)]
pub enum PortWrite {
    Byte { port: u16, byte: u8 },
    Word { port: u16, word: u16 },
    Long { port: u16, long: u32 },
}

/// `n` rounded up to a multiple of 4096.
pub open spec fn up_to_page(n: int) -> int {
    (n + 4095) / 4096 * 4096
}

/// Where the used ring begins in a queue of `n` entries: behind the descriptors
/// and the available ring, on a page.
pub open spec fn used_at(n: int) -> int {
    up_to_page(16 * n + 6 + 2 * n)
}

/// The pages that a queue of `n` entries takes, with one more for requests.
pub open spec fn ring_pages(n: int) -> int {
    (used_at(n) + 6 + 8 * n + 4095) / 4096 + 1
}

/// A block device with its queue.
pub struct VirtioBlk {
    io_base: u16,
    queue_size: u64,
    ring_phys: u64,
    ring_virt: u64,
    desc_bytes: u64,
    used_offset: u64,
    spare_phys: u64,
    completed: u16,
    max_spins: u64,
    irq_line: u8,
}

/// The device in mathematical terms.
pub struct Blk {
    pub io_base: u16,
    pub queue_size: int,
    pub ring_phys: int,
    pub ring_virt: int,
    pub completed: u16,
    pub max_spins: int,
    pub irq_line: u8,
}

impl Blk {
    /// Where the spare page begins in the queue's memory.
    pub open spec fn spare(self) -> int {
        (ring_pages(self.queue_size) - 1) * 4096
    }

    /// The slot that the next request takes in the two rings.
    pub open spec fn slot(self) -> int {
        self.completed as int % self.queue_size
    }

    /// The counter that the device shows when the next request is done.
    pub open spec fn expected(self) -> u16 {
        if self.completed == u16::MAX {
            0
        } else {
            (self.completed + 1) as u16
        }
    }

    /// The device after a wait: a request that went well is finished, and the
    /// longest wait is remembered.
    pub open spec fn after(self, well: bool, expected: u16, spins: int) -> Blk {
        Blk {
            completed: if well {
                expected
            } else {
                self.completed
            },
            max_spins: if spins > self.max_spins {
                spins
            } else {
                self.max_spins
            },
            ..self
        }
    }
}

/// `s` with the number `n` in the `width` bytes from `at` on.
#[verifier::opaque]
pub open spec fn with_field(s: Seq<u8>, at: int, n: int, width: nat) -> Seq<u8> {
    le::patched(s, at, le::spelled(n as nat, width))
}

/// The queue with the descriptor `index` filled in.
#[verifier::opaque]
pub open spec fn with_desc(
    ring: Seq<u8>,
    index: int,
    address: int,
    length: int,
    flags: int,
    next: int,
) -> Seq<u8> {
    with_field(
        with_field(
            with_field(with_field(ring, 16 * index, address, 8), 16 * index + 8, length, 4),
            16 * index + 12,
            flags,
            2,
        ),
        16 * index + 14,
        next,
        2,
    )
}

/// The queue with a request in it: its header and its status byte in the spare
/// page, a chain of three descriptors, and the chain's head in the available
/// ring.
pub open spec fn with_request(
    ring: Seq<u8>,
    blk: Blk,
    sector: int,
    length: int,
    data_phys: int,
    to_device: bool,
) -> Seq<u8> {
    let spare = blk.spare();
    let kind = if to_device {
        BLK_T_OUT
    } else {
        BLK_T_IN
    };
    let next = DESC_F_NEXT as int;
    let write = DESC_F_WRITE as int;
    let flags = if to_device {
        next
    } else {
        next + write
    };
    let header = with_field(with_field(ring, spare, kind as int, 4), spare + 8, sector, 8);
    let first = with_desc(header, 0, blk.ring_phys + spare, 16, next, 1);
    let second = with_desc(first, 1, data_phys, length, flags, 2);
    let waiting = with_field(second, spare + STATUS_AT, 0xff, 1);
    let third = with_desc(waiting, 2, blk.ring_phys + spare + STATUS_AT, 1, write, 0);
    let listed = with_field(third, 16 * blk.queue_size + 4 + 2 * blk.slot(), 0, 2);
    with_field(listed, 16 * blk.queue_size + 2, blk.expected() as int, 2)
}

/// A number that is written into the queue's memory, in so many bytes.
#[derive(Debug, Clone, Copy, PartialEq, Eq, Structural)]
pub struct RingWrite {
    pub at: u64,
    pub value: u64,
    pub width: u8,
}

/// The same in mathematical terms.
pub struct Patch {
    pub at: int,
    pub value: int,
    pub width: nat,
}

impl RingWrite {
    /// The write in mathematical terms.
    pub open spec fn view(&self) -> Patch {
        Patch { at: self.at as int, value: self.value as int, width: self.width as nat }
    }
}

/// Writes in mathematical terms.
pub open spec fn patches(writes: Seq<RingWrite>) -> Seq<Patch> {
    Seq::new(writes.len(), |i: int| writes[i]@)
}

/// The queue's memory after writes, one after the other.
pub open spec fn applied(ring: Seq<u8>, patches: Seq<Patch>) -> Seq<u8>
    decreases patches.len(),
{
    if patches.len() == 0 {
        ring
    } else {
        let last = patches.last();
        with_field(applied(ring, patches.drop_last()), last.at, last.value, last.width)
    }
}

/// One write.
pub open spec fn patch(at: int, value: int, width: nat) -> Seq<Patch> {
    seq![Patch { at, value, width }]
}

/// The writes that fill in a descriptor.
pub open spec fn desc_patches(index: int, address: int, length: int, flags: int, next: int) -> Seq<
    Patch,
> {
    patch(16 * index, address, 8) + patch(16 * index + 8, length, 4) + patch(
        16 * index + 12,
        flags,
        2,
    ) + patch(16 * index + 14, next, 2)
}

/// The writes that put a request into the queue, in their order: the counter,
/// which shows the request to the device, comes last.
pub open spec fn request_patches(
    blk: Blk,
    sector: int,
    length: int,
    data_phys: int,
    to_device: bool,
) -> Seq<Patch> {
    let spare = blk.spare();
    let kind = if to_device {
        BLK_T_OUT
    } else {
        BLK_T_IN
    };
    let next = DESC_F_NEXT as int;
    let write = DESC_F_WRITE as int;
    let flags = if to_device {
        next
    } else {
        next + write
    };
    patch(spare, kind as int, 4) + patch(spare + 8, sector, 8) + desc_patches(
        0,
        blk.ring_phys + spare,
        16,
        next,
        1,
    ) + desc_patches(1, data_phys, length, flags, 2) + patch(spare + STATUS_AT, 0xff, 1)
        + desc_patches(2, blk.ring_phys + spare + STATUS_AT, 1, write, 0) + patch(
        16 * blk.queue_size + 4 + 2 * blk.slot(),
        0,
        2,
    ) + patch(16 * blk.queue_size + 2, blk.expected() as int, 2)
}

proof fn lemma_applied_two(ring: Seq<u8>, a: Seq<Patch>, b: Seq<Patch>)
    ensures
        applied(ring, a + b) == applied(applied(ring, a), b),
    decreases b.len(),
{
    if b.len() == 0 {
        assert(a + b =~= a);
    } else {
        assert((a + b).drop_last() =~= a + b.drop_last());
        lemma_applied_two(ring, a, b.drop_last());
    }
}

proof fn lemma_applied_one(ring: Seq<u8>, at: int, value: int, width: nat)
    ensures
        applied(ring, patch(at, value, width)) == with_field(ring, at, value, width),
{
    assert(patch(at, value, width).drop_last() =~= Seq::<Patch>::empty());
    assert(applied(ring, Seq::<Patch>::empty()) == ring);
}

proof fn lemma_applied_desc(
    ring: Seq<u8>,
    index: int,
    address: int,
    length: int,
    flags: int,
    next: int,
)
    ensures
        applied(ring, desc_patches(index, address, length, flags, next)) == with_desc(
            ring,
            index,
            address,
            length,
            flags,
            next,
        ),
{
    reveal(with_desc);
    let at = 16 * index;
    let a = patch(at, address, 8);
    let b = patch(at + 8, length, 4);
    let c = patch(at + 12, flags, 2);
    let d = patch(at + 14, next, 2);
    lemma_applied_two(ring, a + b + c, d);
    lemma_applied_two(ring, a + b, c);
    lemma_applied_two(ring, a, b);
    lemma_applied_one(ring, at, address, 8);
    let first = applied(ring, a);
    lemma_applied_one(first, at + 8, length, 4);
    let second = applied(first, b);
    lemma_applied_one(second, at + 12, flags, 2);
    lemma_applied_one(applied(second, c), at + 14, next, 2);
}

/// The writes of a request put it into the queue, and the counter that shows it
/// to the device is the last thing that changes.
pub proof fn writes_put_the_request(
    ring: Seq<u8>,
    blk: Blk,
    sector: int,
    length: int,
    data_phys: int,
    to_device: bool,
)
    ensures
        ({
            let writes = request_patches(blk, sector, length, data_phys, to_device);
            &&& applied(ring, writes) == with_request(
                ring,
                blk,
                sector,
                length,
                data_phys,
                to_device,
            )
            &&& writes.last() == (Patch {
                at: 16 * blk.queue_size + 2,
                value: blk.expected() as int,
                width: 2,
            })
        }),
{
    let spare = blk.spare();
    let kind: int = if to_device {
        1
    } else {
        0
    };
    let flags: int = if to_device {
        1
    } else {
        3
    };
    let p1 = patch(spare, kind, 4);
    let p2 = patch(spare + 8, sector, 8);
    let d0 = desc_patches(0, blk.ring_phys + spare, 16, 1, 1);
    let d1 = desc_patches(1, data_phys, length, flags, 2);
    let p3 = patch(spare + STATUS_AT, 0xff, 1);
    let d2 = desc_patches(2, blk.ring_phys + spare + STATUS_AT, 1, 2, 0);
    let p4 = patch(16 * blk.queue_size + 4 + 2 * blk.slot(), 0, 2);
    let p5 = patch(16 * blk.queue_size + 2, blk.expected() as int, 2);
    lemma_applied_two(ring, p1 + p2 + d0 + d1 + p3 + d2 + p4, p5);
    lemma_applied_two(ring, p1 + p2 + d0 + d1 + p3 + d2, p4);
    lemma_applied_two(ring, p1 + p2 + d0 + d1 + p3, d2);
    lemma_applied_two(ring, p1 + p2 + d0 + d1, p3);
    lemma_applied_two(ring, p1 + p2 + d0, d1);
    lemma_applied_two(ring, p1 + p2, d0);
    lemma_applied_two(ring, p1, p2);
    lemma_applied_one(ring, spare, kind, 4);
    let r1 = applied(ring, p1);
    lemma_applied_one(r1, spare + 8, sector, 8);
    let r2 = applied(r1, p2);
    lemma_applied_desc(r2, 0, blk.ring_phys + spare, 16, 1, 1);
    let r3 = applied(r2, d0);
    lemma_applied_desc(r3, 1, data_phys, length, flags, 2);
    let r4 = applied(r3, d1);
    lemma_applied_one(r4, spare + STATUS_AT, 0xff, 1);
    let r5 = applied(r4, p3);
    lemma_applied_desc(r5, 2, blk.ring_phys + spare + STATUS_AT, 1, 2, 0);
    let r6 = applied(r5, d2);
    lemma_applied_one(r6, 16 * blk.queue_size + 4 + 2 * blk.slot(), 0, 2);
    lemma_applied_one(
        applied(r6, p4),
        16 * blk.queue_size + 2,
        blk.expected() as int,
        2,
    );
}

/// Adds a write.
fn push_write(writes: &mut Vec<RingWrite>, at: u64, value: u64, width: u8)
    ensures
        patches(final(writes)@) == patches(old(writes)@) + patch(
            at as int,
            value as int,
            width as nat,
        ),
{
    writes.push(RingWrite { at, value, width });
    assert(patches(writes@) =~= patches(old(writes)@) + patch(
        at as int,
        value as int,
        width as nat,
    ));
}

/// The layout of a queue: where the used ring begins, and the pages it takes.
#[derive(Debug, Clone, Copy, PartialEq, Eq, Structural)]
pub struct RingLayout {
    pub desc_bytes: u64,
    pub used_offset: u64,
    pub pages: u64,
}

/// The layout of a queue of `queue_size` entries.
pub fn ring_layout(queue_size: u16) -> (r: Result<RingLayout, VirtioBlkError>)
    ensures
        queue_size == 0 ==> r == Err::<RingLayout, VirtioBlkError>(VirtioBlkError::QueueSizeZero),
        queue_size > 0 ==> (r matches Ok(layout) && layout.desc_bytes == 16 * queue_size
            && layout.used_offset == used_at(queue_size as int) && layout.pages == ring_pages(
            queue_size as int,
        )),
{
    if queue_size == 0 {
        return Err(VirtioBlkError::QueueSizeZero);
    }
    let n: u64 = queue_size as u64;
    let desc_bytes: u64 = 16 * n;
    let avail_bytes: u64 = 6 + 2 * n;
    let used_offset: u64 = (desc_bytes + avail_bytes + 4095) / RING_ALIGN * RING_ALIGN;
    let used_bytes: u64 = 6 + 8 * n;
    let pages: u64 = (used_offset + used_bytes + 4095) / 4096 + 1;
    Ok(RingLayout { desc_bytes, used_offset, pages })
}

/// The parts of a queue follow one another without overlapping: descriptors,
/// available ring, used ring on its page, and a page for requests behind all.
pub proof fn ring_parts_are_apart(n: int)
    requires
        n > 0,
    ensures
        16 * n + 6 + 2 * n <= used_at(n),
        used_at(n) % 4096 == 0,
        used_at(n) + 6 + 8 * n <= (ring_pages(n) - 1) * 4096,
        ring_pages(n) >= 3,
{
}

/// The port writes that begin the handshake with the device.
pub fn begin_handshake(io_base: u16) -> (r: Vec<PortWrite>)
    requires
        io_base <= 0xffff - 0x18,
    ensures
        r@ == seq![
            PortWrite::Byte { port: (io_base + REG_DEVICE_STATUS) as u16, byte: 0 },
            PortWrite::Byte { port: (io_base + REG_DEVICE_STATUS) as u16, byte: 1 },
            PortWrite::Byte { port: (io_base + REG_DEVICE_STATUS) as u16, byte: 3 },
            PortWrite::Long { port: (io_base + REG_GUEST_FEATURES) as u16, long: 0 },
            PortWrite::Word { port: (io_base + REG_QUEUE_SELECT) as u16, word: 0 },
        ],
{
    let mut r: Vec<PortWrite> = Vec::new();
    r.push(PortWrite::Byte { port: io_base + REG_DEVICE_STATUS, byte: 0 });
    r.push(PortWrite::Byte { port: io_base + REG_DEVICE_STATUS, byte: 1 });
    r.push(PortWrite::Byte { port: io_base + REG_DEVICE_STATUS, byte: 3 });
    r.push(PortWrite::Long { port: io_base + REG_GUEST_FEATURES, long: 0 });
    r.push(PortWrite::Word { port: io_base + REG_QUEUE_SELECT, word: 0 });
    assert(r@ =~= seq![
        PortWrite::Byte { port: (io_base + REG_DEVICE_STATUS) as u16, byte: 0 },
        PortWrite::Byte { port: (io_base + REG_DEVICE_STATUS) as u16, byte: 1 },
        PortWrite::Byte { port: (io_base + REG_DEVICE_STATUS) as u16, byte: 3 },
        PortWrite::Long { port: (io_base + REG_GUEST_FEATURES) as u16, long: 0 },
        PortWrite::Word { port: (io_base + REG_QUEUE_SELECT) as u16, word: 0 },
    ]);
    r
}

/// The sectors of the device, from the two halves of its configuration.
pub fn capacity(low: u32, high: u32) -> (r: u64)
    ensures
        r == low + 0x1_0000_0000 * high,
{
    low as u64 + high as u64 * 0x1_0000_0000
}

/// Clears the queue's memory; how many bytes were not zero before.
pub fn clear_ring(ring: &mut Vec<u8>) -> (count: usize)
    ensures
        final(ring)@ == crate::bytes::repeated(0, old(ring)@.len() as int),
        count == nonzero(old(ring)@, old(ring)@.len() as int),
{
    let total: usize = ring.len();
    let mut at: usize = 0;
    let mut count: usize = 0;
    while at < total
        invariant
            at <= total,
            count <= at,
            total == ring@.len(),
            total == old(ring)@.len(),
            count == nonzero(old(ring)@, at as int),
            forall|i: int| 0 <= i < at ==> ring@[i] == 0,
            forall|i: int| at <= i < total ==> ring@[i] == old(ring)@[i],
        decreases total - at,
    {
        if ring[at] != 0 {
            count += 1;
        }
        ring.set(at, 0);
        at += 1;
    }
    assert(ring@ =~= crate::bytes::repeated(0, total as int));
    count
}

/// How many of the first `n` bytes are not zero.
pub open spec fn nonzero(s: Seq<u8>, n: int) -> int
    decreases n,
{
    if n <= 0 {
        0
    } else {
        nonzero(s, n - 1) + (if s[n - 1] != 0 {
            1int
        } else {
            0
        })
    }
}

/// Sets the device up on a queue of `queue_size` entries whose memory begins at
/// `ring_phys` and is seen at `ring_virt`: the device, and the port writes that
/// end the handshake. The port for the queue's page takes 32 bits of its number.
pub fn setup(
    io_base: u16,
    irq_line: u8,
    queue_size: u16,
    ring_phys: Option<u64>,
    ring_virt: u64,
) -> (r: Result<(VirtioBlk, Vec<PortWrite>), VirtioBlkError>)
    requires
        io_base <= 0xffff - 0x18,
        ring_phys matches Some(phys) ==> phys + ring_pages(queue_size as int) * 4096 <= u64::MAX,
        ring_virt + ring_pages(queue_size as int) * 4096 <= u64::MAX,
    ensures
        queue_size == 0 ==> r == Err::<(VirtioBlk, Vec<PortWrite>), VirtioBlkError>(
            VirtioBlkError::QueueSizeZero,
        ),
        queue_size > 0 && ring_phys is None ==> r == Err::<
            (VirtioBlk, Vec<PortWrite>),
            VirtioBlkError,
        >(
            VirtioBlkError::RingAllocationFailed { pages: ring_pages(queue_size as int) as u64 },
        ),
        queue_size > 0 && ring_phys is Some ==> (r matches Ok((blk, writes)) && blk.wf() && blk@
            == (Blk {
            io_base,
            queue_size: queue_size as int,
            ring_phys: ring_phys->0 as int,
            ring_virt: ring_virt as int,
            completed: 0,
            max_spins: 0,
            irq_line,
        }) && writes@ == seq![
            PortWrite::Long {
                port: (io_base + REG_QUEUE_ADDRESS) as u16,
                long: (ring_phys->0 / 4096 % 0x1_0000_0000) as u32,
            },
            PortWrite::Byte { port: (io_base + REG_DEVICE_STATUS) as u16, byte: 7 },
        ]),
{
    let layout = match ring_layout(queue_size) {
        Ok(layout) => layout,
        Err(error) => {
            return Err(error);
        },
    };
    let phys: u64 = match ring_phys {
        Some(phys) => phys,
        None => {
            return Err(VirtioBlkError::RingAllocationFailed { pages: layout.pages });
        },
    };
    let mut writes: Vec<PortWrite> = Vec::new();
    writes.push(
        PortWrite::Long {
            port: io_base + REG_QUEUE_ADDRESS,
            long: (phys / 4096 % 0x1_0000_0000) as u32,
        },
    );
    writes.push(PortWrite::Byte { port: io_base + REG_DEVICE_STATUS, byte: 7 });
    let blk = VirtioBlk {
        io_base,
        queue_size: queue_size as u64,
        ring_phys: phys,
        ring_virt,
        desc_bytes: layout.desc_bytes,
        used_offset: layout.used_offset,
        spare_phys: phys + (layout.pages - 1) * 4096,
        completed: 0,
        max_spins: 0,
        irq_line,
    };
    assert(writes@ =~= seq![
        PortWrite::Long {
            port: (io_base + REG_QUEUE_ADDRESS) as u16,
            long: (phys / 4096 % 0x1_0000_0000) as u32,
        },
        PortWrite::Byte { port: (io_base + REG_DEVICE_STATUS) as u16, byte: 7 },
    ]);
    Ok((blk, writes))
}

/// Whether a poll of the queue ends the wait.
#[derive(Debug, Clone, Copy, PartialEq, Eq, Structural)]
pub enum Poll {
    /// It does: the request is done.
    Ready,
    /// It does not: look again.
    Again,
    /// It does: the request counts as lost.
    TimedOut { spins: u64 },
}

/// Counts one look at a condition that does not hold yet.
pub fn poll(ready: bool, spins: &mut u64) -> (r: Poll)
    requires
        *old(spins) < u64::MAX,
    ensures
        ready ==> r == Poll::Ready && *final(spins) == *old(spins),
        !ready ==> *final(spins) == *old(spins) + 1 && r == (if *final(spins) >= POLL_SPIN_LIMIT {
            Poll::TimedOut { spins: *final(spins) }
        } else {
            Poll::Again
        }),
{
    if ready {
        return Poll::Ready;
    }
    *spins = *spins + 1;
    if *spins >= POLL_SPIN_LIMIT {
        Poll::TimedOut { spins: *spins }
    } else {
        Poll::Again
    }
}

impl VirtioBlk {
    /// The device in mathematical terms.
    pub closed spec fn view(&self) -> Blk {
        Blk {
            io_base: self.io_base,
            queue_size: self.queue_size as int,
            ring_phys: self.ring_phys as int,
            ring_virt: self.ring_virt as int,
            completed: self.completed,
            max_spins: self.max_spins as int,
            irq_line: self.irq_line,
        }
    }

    /// The queue has its layout, and its memory ends inside the address space.
    pub closed spec fn wf(&self) -> bool {
        &&& 0 < self.queue_size <= 0xffff
        &&& self.io_base <= 0xffff - 0x18
        &&& self.desc_bytes == 16 * self.queue_size
        &&& self.used_offset == used_at(self.queue_size as int)
        &&& self.spare_phys == self.ring_phys + self@.spare()
        &&& self.ring_phys + ring_pages(self.queue_size as int) * 4096 <= u64::MAX
        &&& self.ring_virt + ring_pages(self.queue_size as int) * 4096 <= u64::MAX
    }

    /// The interrupt line of the device.
    pub fn irq_line(&self) -> (r: u8)
        ensures
            r == self@.irq_line,
    {
        self.irq_line
    }

    /// Where the spare page is seen.
    pub fn spare_virt(&self) -> (r: u64)
        requires
            self.wf(),
        ensures
            r == self@.ring_virt + self@.spare(),
    {
        self.ring_virt + (self.spare_phys - self.ring_phys)
    }

    /// The physical address of the room for one sector in the spare page.
    pub fn spare_room(&self) -> (r: u64)
        requires
            self.wf(),
        ensures
            r == self@.ring_phys + self@.spare() + ROOM_AT,
    {
        self.spare_phys + ROOM_AT as u64
    }

    /// The longest wait for a request so far.
    pub fn max_spins(&self) -> (r: u64)
        ensures
            r == self@.max_spins,
    {
        self.max_spins
    }

    /// Adds the writes that fill in a descriptor.
    fn write_desc(
        &self,
        writes: &mut Vec<RingWrite>,
        index: u64,
        address: u64,
        length: u32,
        flags: u16,
        next: u16,
    )
        requires
            index <= 2,
        ensures
            patches(final(writes)@) == patches(old(writes)@) + desc_patches(
                index as int,
                address as int,
                length as int,
                flags as int,
                next as int,
            ),
    {
        let at: u64 = index * 16;
        push_write(writes, at, address, 8);
        push_write(writes, at + 8, length as u64, 4);
        push_write(writes, at + 12, flags as u64, 2);
        push_write(writes, at + 14, next as u64, 2);
        assert(patches(writes@) =~= patches(old(writes)@) + desc_patches(
            index as int,
            address as int,
            length as int,
            flags as int,
            next as int,
        ));
    }

    /// A request for `length` bytes from `first_sector` on: the writes that put
    /// it into the queue, in their order, and the counter that the device shows
    /// when it is done. The port write that wakes the device comes after them.
    pub fn issue_at(
        &self,
        first_sector: u64,
        length: u32,
        data_phys: u64,
        to_device: bool,
    ) -> (r: (Vec<RingWrite>, u16))
        requires
            self.wf(),
        ensures
            patches(r.0@) == request_patches(
                self@,
                first_sector as int,
                length as int,
                data_phys as int,
                to_device,
            ),
            r.1 == self@.expected(),
    {
        proof {
            ring_parts_are_apart(self.queue_size as int);
        }
        let spare: u64 = self.spare_phys - self.ring_phys;
        let kind: u32 = if to_device {
            BLK_T_OUT
        } else {
            BLK_T_IN
        };
        let flags: u16 = if to_device {
            DESC_F_NEXT
        } else {
            DESC_F_NEXT + DESC_F_WRITE
        };
        let next: u16 = if self.completed == u16::MAX {
            0
        } else {
            self.completed + 1
        };
        let slot: u64 = self.completed as u64 % self.queue_size;
        let avail: u64 = self.desc_bytes;
        let mut writes: Vec<RingWrite> = Vec::new();
        push_write(&mut writes, spare, kind as u64, 4);
        push_write(&mut writes, spare + 8, first_sector, 8);
        self.write_desc(&mut writes, 0, self.spare_phys, 16, DESC_F_NEXT, 1);
        self.write_desc(&mut writes, 1, data_phys, length, flags, 2);
        push_write(&mut writes, spare + STATUS_AT as u64, 0xff, 1);
        self.write_desc(
            &mut writes,
            2,
            self.spare_phys + STATUS_AT as u64,
            1,
            DESC_F_WRITE,
            0,
        );
        push_write(&mut writes, avail + 4 + 2 * slot, 0, 2);
        push_write(&mut writes, avail + 2, next as u64, 2);
        assert(patches(writes@) =~= request_patches(
            self@,
            first_sector as int,
            length as int,
            data_phys as int,
            to_device,
        ));
        (writes, next)
    }

    /// A request that reads from the device.
    pub fn read_at(&self, first_sector: u64, length: u32, data_phys: u64) -> (r: (
        Vec<RingWrite>,
        u16,
    ))
        requires
            self.wf(),
        ensures
            patches(r.0@) == request_patches(
                self@,
                first_sector as int,
                length as int,
                data_phys as int,
                false,
            ),
            r.1 == self@.expected(),
    {
        self.issue_at(first_sector, length, data_phys, false)
    }

    /// A request that writes to the device.
    pub fn write_at(&self, first_sector: u64, length: u32, data_phys: u64) -> (r: (
        Vec<RingWrite>,
        u16,
    ))
        requires
            self.wf(),
        ensures
            patches(r.0@) == request_patches(
                self@,
                first_sector as int,
                length as int,
                data_phys as int,
                true,
            ),
            r.1 == self@.expected(),
    {
        self.issue_at(first_sector, length, data_phys, true)
    }

    /// The port write that wakes the device.
    pub fn notify(&self) -> (r: PortWrite)
        requires
            self.wf(),
        ensures
            r == (PortWrite::Word { port: (self@.io_base + REG_QUEUE_NOTIFY) as u16, word: 0 }),
    {
        PortWrite::Word { port: self.io_base + REG_QUEUE_NOTIFY, word: 0 }
    }

    /// Where in the queue's memory the device shows its counter of finished
    /// requests, in two bytes.
    pub fn used_counter_at(&self) -> (r: u64)
        requires
            self.wf(),
        ensures
            r == used_at(self@.queue_size) + 2,
    {
        self.used_offset + 2
    }

    /// Where the device names the request that it finished, in four bytes.
    pub fn used_id_at(&self) -> (r: u64)
        requires
            self.wf(),
        ensures
            r == used_at(self@.queue_size) + 4 + 8 * self@.slot(),
    {
        let slot: u64 = self.completed as u64 % self.queue_size;
        self.used_offset + 4 + 8 * slot
    }

    /// Where the device tells how the request went, in one byte.
    pub fn status_at(&self) -> (r: u64)
        requires
            self.wf(),
        ensures
            r == self@.spare() + STATUS_AT,
    {
        (self.spare_phys - self.ring_phys) + STATUS_AT as u64
    }

    /// Takes in a request that the device finished, after `spins` looks at the
    /// counter. The device has to name the request, and to report success;
    /// otherwise it counts as unfinished.
    pub fn wait_for_used(&mut self, id: u32, status: u8, expected: u16, spins: u64) -> (r: Result<
        (),
        VirtioBlkError,
    >)
        requires
            old(self).wf(),
        ensures
            final(self).wf(),
            r == taken_in(id, status),
            final(self)@ == old(self)@.after(r is Ok, expected, spins as int),
    {
        if spins > self.max_spins {
            self.max_spins = spins;
        }
        if id != 0 {
            return Err(VirtioBlkError::WrongUsedId { id });
        }
        if status != 0 {
            return Err(VirtioBlkError::BadRequestStatus { status });
        }
        self.completed = expected;
        Ok(())
    }
}

/// What comes of a request by what the device tells of it.
pub open spec fn taken_in(id: u32, status: u8) -> Result<(), VirtioBlkError> {
    if id != 0 {
        Err(VirtioBlkError::WrongUsedId { id })
    } else if status != 0 {
        Err(VirtioBlkError::BadRequestStatus { status })
    } else {
        Ok(())
    }
}

/// What a request looks like to the device: its kind and sector in the header,
/// a chain of three descriptors that covers header, data and status, a status
/// byte that no device reports, and one more entry in the available ring.
pub proof fn device_sees_the_request(
    ring: Seq<u8>,
    blk: Blk,
    sector: int,
    length: int,
    data_phys: int,
    to_device: bool,
)
    requires
        3 <= blk.queue_size <= 0xffff,
        ring.len() == ring_pages(blk.queue_size) * 4096,
        0 <= blk.ring_phys,
        blk.ring_phys + ring.len() <= u64::MAX,
        0 <= sector <= u64::MAX,
        0 <= length <= u32::MAX,
        0 <= data_phys <= u64::MAX,
    ensures
        ({
            let after = with_request(ring, blk, sector, length, data_phys, to_device);
            let spare = blk.spare();
            let avail = 16 * blk.queue_size;
            &&& after.len() == ring.len()
            &&& le::field(after, spare, 4) == (if to_device {
                1int
            } else {
                0
            })
            &&& le::field(after, spare + 8, 8) == sector
            &&& le::field(after, 0, 8) == blk.ring_phys + spare
            &&& le::field(after, 8, 4) == 16
            &&& le::field(after, 12, 2) == 1
            &&& le::field(after, 14, 2) == 1
            &&& le::field(after, 16, 8) == data_phys
            &&& le::field(after, 24, 4) == length
            &&& le::field(after, 28, 2) == (if to_device {
                1int
            } else {
                3
            })
            &&& le::field(after, 30, 2) == 2
            &&& le::field(after, 32, 8) == blk.ring_phys + spare + STATUS_AT
            &&& le::field(after, 40, 4) == 1
            &&& le::field(after, 44, 2) == 2
            &&& le::field(after, 46, 2) == 0
            &&& le::field(after, spare + STATUS_AT, 1) == 0xff
            &&& le::field(after, avail + 4 + 2 * blk.slot(), 2) == 0
            &&& le::field(after, avail + 2, 2) == blk.expected()
        }),
{
    ring_parts_are_apart(blk.queue_size);
    le::lemma_limits();
    let n = blk.queue_size;
    let spare = blk.spare();
    let avail = 16 * n;
    let kind: int = if to_device {
        1
    } else {
        0
    };
    let flags: int = if to_device {
        1
    } else {
        3
    };
    let s1 = with_field(ring, spare, kind, 4);
    lemma_field(ring, spare, kind, 4);
    let s2 = with_field(s1, spare + 8, sector, 8);
    lemma_field(s1, spare + 8, sector, 8);
    lemma_other(s1, spare + 8, sector, 8, spare, 4);
    let d0 = with_desc(s2, 0, blk.ring_phys + spare, 16, 1, 1);
    lemma_desc(s2, 0, blk.ring_phys + spare, 16, 1, 1);
    lemma_desc_other(s2, 0, blk.ring_phys + spare, 16, 1, 1, spare, 4);
    lemma_desc_other(s2, 0, blk.ring_phys + spare, 16, 1, 1, spare + 8, 8);
    let d1 = with_desc(d0, 1, data_phys, length, flags, 2);
    lemma_desc(d0, 1, data_phys, length, flags, 2);
    lemma_desc_other(d0, 1, data_phys, length, flags, 2, spare, 4);
    lemma_desc_other(d0, 1, data_phys, length, flags, 2, spare + 8, 8);
    lemma_desc_other(d0, 1, data_phys, length, flags, 2, 0, 8);
    lemma_desc_other(d0, 1, data_phys, length, flags, 2, 8, 4);
    lemma_desc_other(d0, 1, data_phys, length, flags, 2, 12, 2);
    lemma_desc_other(d0, 1, data_phys, length, flags, 2, 14, 2);
    let st = with_field(d1, spare + STATUS_AT, 0xff, 1);
    lemma_field(d1, spare + STATUS_AT, 0xff, 1);
    lemma_below(d1, spare + STATUS_AT, 0xff, 1, spare);
    lemma_other(d1, spare + STATUS_AT, 0xff, 1, spare, 4);
    lemma_other(d1, spare + STATUS_AT, 0xff, 1, spare + 8, 8);
    let d2 = with_desc(st, 2, blk.ring_phys + spare + STATUS_AT, 1, 2, 0);
    lemma_desc(st, 2, blk.ring_phys + spare + STATUS_AT, 1, 2, 0);
    lemma_desc_low(st, 2, blk.ring_phys + spare + STATUS_AT, 1, 2, 0);
    lemma_desc_other(st, 2, blk.ring_phys + spare + STATUS_AT, 1, 2, 0, spare, 4);
    lemma_desc_other(st, 2, blk.ring_phys + spare + STATUS_AT, 1, 2, 0, spare + 8, 8);
    lemma_desc_other(st, 2, blk.ring_phys + spare + STATUS_AT, 1, 2, 0, spare + STATUS_AT, 1);
    let l1 = with_field(d2, avail + 4 + 2 * blk.slot(), 0, 2);
    lemma_field(d2, avail + 4 + 2 * blk.slot(), 0, 2);
    lemma_below(d2, avail + 4 + 2 * blk.slot(), 0, 2, 48);
    lemma_other(d2, avail + 4 + 2 * blk.slot(), 0, 2, spare, 4);
    lemma_other(d2, avail + 4 + 2 * blk.slot(), 0, 2, spare + 8, 8);
    lemma_other(d2, avail + 4 + 2 * blk.slot(), 0, 2, spare + STATUS_AT, 1);
    let last = with_field(l1, avail + 2, blk.expected() as int, 2);
    lemma_field(l1, avail + 2, blk.expected() as int, 2);
    lemma_below(l1, avail + 2, blk.expected() as int, 2, 48);
    lemma_other(l1, avail + 2, blk.expected() as int, 2, spare, 4);
    lemma_other(l1, avail + 2, blk.expected() as int, 2, spare + 8, 8);
    lemma_other(l1, avail + 2, blk.expected() as int, 2, spare + STATUS_AT, 1);
    lemma_other(l1, avail + 2, blk.expected() as int, 2, avail + 4 + 2 * blk.slot(), 2);
}

proof fn lemma_field(s: Seq<u8>, at: int, n: int, width: nat)
    requires
        0 <= at,
        at + width <= s.len(),
        0 <= n < le::limit(width),
    ensures
        le::field(with_field(s, at, n, width), at, width as int) == n,
        with_field(s, at, n, width).len() == s.len(),
{
    reveal(with_field);
    le::written_field_reads_back(s, at, n as nat, width);
    le::lemma_spelled_len(n as nat, width);
}

proof fn lemma_other(s: Seq<u8>, at: int, n: int, width: nat, other: int, size: int)
    requires
        0 <= at,
        at + width <= s.len(),
        0 <= n,
        0 <= other,
        0 <= size,
        other + size <= s.len(),
        other + size <= at || at + width <= other,
    ensures
        le::field(with_field(s, at, n, width), other, size) == le::field(s, other, size),
{
    reveal(with_field);
    le::lemma_spelled_len(n as nat, width);
    le::other_field_stays(s, at, le::spelled(n as nat, width), other, size);
}

/// A field written at or above `limit` leaves every field below it.
proof fn lemma_below(s: Seq<u8>, at: int, n: int, width: nat, limit: int)
    requires
        0 <= limit <= at,
        at + width <= s.len(),
        0 <= n,
    ensures
        forall|other: int, size: int|
            0 <= other && 0 <= size && other + size <= limit ==> #[trigger] le::field(
                with_field(s, at, n, width),
                other,
                size,
            ) == le::field(s, other, size),
{
    assert forall|other: int, size: int|
        0 <= other && 0 <= size && other + size <= limit implies #[trigger] le::field(
        with_field(s, at, n, width),
        other,
        size,
    ) == le::field(s, other, size) by {
        lemma_other(s, at, n, width, other, size);
    }
}

proof fn lemma_desc(s: Seq<u8>, index: int, address: int, length: int, flags: int, next: int)
    requires
        0 <= index,
        16 * index + 16 <= s.len(),
        0 <= address <= u64::MAX,
        0 <= length <= u32::MAX,
        0 <= flags <= u16::MAX,
        0 <= next <= u16::MAX,
    ensures
        ({
            let after = with_desc(s, index, address, length, flags, next);
            &&& after.len() == s.len()
            &&& le::field(after, 16 * index, 8) == address
            &&& le::field(after, 16 * index + 8, 4) == length
            &&& le::field(after, 16 * index + 12, 2) == flags
            &&& le::field(after, 16 * index + 14, 2) == next
        }),
{
    reveal(with_desc);
    le::lemma_limits();
    let at = 16 * index;
    let a = with_field(s, at, address, 8);
    lemma_field(s, at, address, 8);
    let b = with_field(a, at + 8, length, 4);
    lemma_field(a, at + 8, length, 4);
    lemma_other(a, at + 8, length, 4, at, 8);
    let c = with_field(b, at + 12, flags, 2);
    lemma_field(b, at + 12, flags, 2);
    lemma_other(b, at + 12, flags, 2, at, 8);
    lemma_other(b, at + 12, flags, 2, at + 8, 4);
    lemma_field(c, at + 14, next, 2);
    lemma_other(c, at + 14, next, 2, at, 8);
    lemma_other(c, at + 14, next, 2, at + 8, 4);
    lemma_other(c, at + 14, next, 2, at + 12, 2);
}

proof fn lemma_desc_other(
    s: Seq<u8>,
    index: int,
    address: int,
    length: int,
    flags: int,
    next: int,
    other: int,
    size: int,
)
    requires
        0 <= index,
        16 * index + 16 <= s.len(),
        0 <= address <= u64::MAX,
        0 <= length <= u32::MAX,
        0 <= flags <= u16::MAX,
        0 <= next <= u16::MAX,
        0 <= other,
        0 <= size,
        other + size <= s.len(),
        other + size <= 16 * index || 16 * index + 16 <= other,
    ensures
        le::field(with_desc(s, index, address, length, flags, next), other, size) == le::field(
            s,
            other,
            size,
        ),
{
    reveal(with_desc);
    le::lemma_limits();
    let at = 16 * index;
    let a = with_field(s, at, address, 8);
    lemma_field(s, at, address, 8);
    lemma_other(s, at, address, 8, other, size);
    let b = with_field(a, at + 8, length, 4);
    lemma_field(a, at + 8, length, 4);
    lemma_other(a, at + 8, length, 4, other, size);
    let c = with_field(b, at + 12, flags, 2);
    lemma_field(b, at + 12, flags, 2);
    lemma_other(b, at + 12, flags, 2, other, size);
    lemma_other(c, at + 14, next, 2, other, size);
}

/// A descriptor leaves the fields of the descriptors before it.
proof fn lemma_desc_low(s: Seq<u8>, index: int, address: int, length: int, flags: int, next: int)
    requires
        0 <= index,
        16 * index + 16 <= s.len(),
        0 <= address <= u64::MAX,
        0 <= length <= u32::MAX,
        0 <= flags <= u16::MAX,
        0 <= next <= u16::MAX,
    ensures
        forall|other: int, size: int|
            0 <= other && 0 <= size && other + size <= 16 * index ==> #[trigger] le::field(
                with_desc(s, index, address, length, flags, next),
                other,
                size,
            ) == le::field(s, other, size),
{
    assert forall|other: int, size: int|
        0 <= other && 0 <= size && other + size <= 16 * index implies #[trigger] le::field(
        with_desc(s, index, address, length, flags, next),
        other,
        size,
    ) == le::field(s, other, size) by {
        lemma_desc_other(s, index, address, length, flags, next, other, size);
    }
}

/// What is known of the device across the kernel: whether one is installed and
/// in use, the image that is kept on it, what was written back, and its
/// interrupts.
pub struct Driver {
    pub present: bool,
    pub in_use: bool,
    pub image_phys: u64,
    pub image_bytes: u64,
    pub flushes: u64,
    pub flushed_bytes: u64,
    pub flush_cycles: u64,
    pub flush_halts: u64,
    pub irq_delivered: u32,
    pub irq_not_mine: u32,
    pub isr_port: u16,
    pub irq_plus_one: u8,
}

/// A device that is installed.
pub struct InstalledDevice {
    device: VirtioBlk,
}

impl InstalledDevice {
    /// The device.
    pub closed spec fn view(&self) -> VirtioBlk {
        self.device
    }

    /// The device, to ask it something.
    pub fn device(&self) -> (r: &VirtioBlk)
        ensures
            *r == self@,
    {
        &self.device
    }

    /// The device, to work with it.
    pub fn device_mut(&mut self) -> (r: &mut VirtioBlk)
        ensures
            *r == old(self)@,
            final(self)@ == *final(r),
    {
        &mut self.device
    }
}

/// The right to use the device, for one user at a time.
pub struct DeviceClaim {
    halts: u64,
}

impl DeviceClaim {
    /// How often the user halted while it waited.
    pub closed spec fn view(&self) -> u64 {
        self.halts
    }
}

/// A sum of two counters, which begin again at zero when they overflow.
pub open spec fn wrapped(sum: int) -> int {
    if sum > u64::MAX {
        sum - 0x1_0000_0000_0000_0000
    } else {
        sum
    }
}

impl Driver {
    /// No device.
    pub fn new() -> (r: Self)
        ensures
            r == (Driver {
                present: false,
                in_use: false,
                image_phys: 0,
                image_bytes: 0,
                flushes: 0,
                flushed_bytes: 0,
                flush_cycles: 0,
                flush_halts: 0,
                irq_delivered: 0,
                irq_not_mine: 0,
                isr_port: 0,
                irq_plus_one: 0,
            }),
    {
        Driver {
            present: false,
            in_use: false,
            image_phys: 0,
            image_bytes: 0,
            flushes: 0,
            flushed_bytes: 0,
            flush_cycles: 0,
            flush_halts: 0,
            irq_delivered: 0,
            irq_not_mine: 0,
            isr_port: 0,
            irq_plus_one: 0,
        }
    }
}

/// Installs a device with the image that is kept on it.
pub fn install(
    driver: &mut Driver,
    device: VirtioBlk,
    image_phys: u64,
    image_bytes: u64,
) -> (r: InstalledDevice)
    ensures
        r@ == device,
        *final(driver) == (Driver { present: true, image_phys, image_bytes, ..*old(driver) }),
{
    driver.image_phys = image_phys;
    driver.image_bytes = image_bytes;
    driver.present = true;
    InstalledDevice { device }
}

/// Takes a device out again.
pub fn uninstall(driver: &mut Driver, installed: InstalledDevice) -> (r: VirtioBlk)
    ensures
        r == installed@,
        *final(driver) == (Driver { present: false, ..*old(driver) }),
{
    driver.present = false;
    installed.device
}

/// Whether a device is installed.
pub fn installed(driver: &Driver) -> (r: bool)
    ensures
        r == driver.present,
{
    driver.present
}

/// Whether the right to use the device can be had.
pub open spec fn claimable(driver: Driver) -> bool {
    driver.present && !driver.in_use
}

/// The driver when the right is given out.
pub open spec fn claimed(driver: Driver) -> Driver {
    Driver { in_use: true, ..driver }
}

/// The driver when the right is back, from a user that halted so often.
pub open spec fn released(driver: Driver, halts: u64) -> Driver {
    Driver {
        in_use: false,
        flush_halts: wrapped(driver.flush_halts + halts) as u64,
        ..driver
    }
}

/// The right to use the device, where one is installed and nobody has it.
pub fn claim(driver: &mut Driver) -> (r: Option<DeviceClaim>)
    ensures
        r is Some <==> claimable(*old(driver)),
        r matches Some(claim) ==> claim@ == 0,
        *final(driver) == (if r is Some {
            claimed(*old(driver))
        } else {
            *old(driver)
        }),
{
    if !driver.present {
        return None;
    }
    if driver.in_use {
        return None;
    }
    driver.in_use = true;
    Some(DeviceClaim { halts: 0 })
}

/// Gives the right back, and counts how often its user halted.
pub fn release(driver: &mut Driver, claim: DeviceClaim)
    ensures
        *final(driver) == released(*old(driver), claim@),
{
    driver.flush_halts = driver.flush_halts.wrapping_add(claim.halts);
    driver.in_use = false;
}

/// One user at a time: while the right is given out, nobody else gets it, and
/// once it is back it can be had again.
pub proof fn device_has_one_user(driver: Driver, halts: u64)
    requires
        claimable(driver),
    ensures
        !claimable(claimed(driver)),
        claimable(released(claimed(driver), halts)),
{
}

/// What to do while waiting for an interrupt.
#[derive(Debug, Clone, Copy, PartialEq, Eq, Structural)]
pub enum Wait {
    /// The interrupt came.
    Done,
    /// The deadline passed.
    Late,
    /// Halt until the next interrupt, and look again.
    Halt,
}

/// What to do while waiting for an interrupt: one that came counts before the
/// deadline does.
pub fn wait_step(delivered: u32, before: u64, ticks: u64, deadline: u64) -> (r: Wait)
    ensures
        r == (if delivered > before {
            Wait::Done
        } else if ticks >= deadline {
            Wait::Late
        } else {
            Wait::Halt
        }),
{
    if delivered as u64 > before {
        Wait::Done
    } else if ticks >= deadline {
        Wait::Late
    } else {
        Wait::Halt
    }
}

impl DeviceClaim {
    /// The write of the whole image: the writes that put it into the queue, the
    /// counter that the device shows when it is done, the interrupts so far, and
    /// the bytes. Nothing where there is no device, or no image that one request
    /// can hold.
    pub fn issue_image_write(&mut self, driver: &Driver, device: &VirtioBlk) -> (r: Option<
        (Vec<RingWrite>, u16, u64, u32),
    >)
        requires
            device.wf(),
        ensures
            final(self)@ == old(self)@,
            r is Some <==> driver.image_phys != 0 && 0 < driver.image_bytes <= u32::MAX
                && driver.present,
            r matches Some((writes, expected, before, length)) ==> expected == device@.expected()
                && before == driver.irq_delivered && length == driver.image_bytes && patches(
                writes@,
            ) == request_patches(
                device@,
                0,
                driver.image_bytes as int,
                driver.image_phys as int,
                true,
            ),
    {
        if driver.image_phys == 0 || driver.image_bytes == 0 || driver.image_bytes
            > u32::MAX as u64 {
            return None;
        }
        if !driver.present {
            return None;
        }
        let length: u32 = driver.image_bytes as u32;
        let (writes, expected): (Vec<RingWrite>, u16) = device.issue_at(
            0,
            length,
            driver.image_phys,
            true,
        );
        Some((writes, expected, driver.irq_delivered as u64, length))
    }

    /// Counts one halt.
    pub fn note_halt(&mut self)
        requires
            old(self)@ < u64::MAX,
        ensures
            final(self)@ == old(self)@ + 1,
    {
        self.halts = self.halts + 1;
    }

    /// Takes in the write of the image after the wait for it.
    pub fn wait_for_image_write(
        &self,
        driver: &Driver,
        device: &mut VirtioBlk,
        id: u32,
        status: u8,
        expected: u16,
        spins: u64,
    ) -> (r: Result<(), VirtioBlkError>)
        requires
            old(device).wf(),
        ensures
            final(device).wf(),
            r == (if driver.present {
                taken_in(id, status)
            } else {
                Err(VirtioBlkError::QueueSizeZero)
            }),
            final(device)@ == (if driver.present {
                old(device)@.after(r is Ok, expected, spins as int)
            } else {
                old(device)@
            }),
    {
        if !driver.present {
            return Err(VirtioBlkError::QueueSizeZero);
        }
        device.wait_for_used(id, status, expected, spins)
    }
}

/// Counts one write of the image.
pub fn note_flush(driver: &mut Driver, bytes: u32, cycles: u64)
    ensures
        *final(driver) == (Driver {
            flushes: wrapped(old(driver).flushes + 1) as u64,
            flushed_bytes: wrapped(old(driver).flushed_bytes + bytes) as u64,
            flush_cycles: wrapped(old(driver).flush_cycles + cycles) as u64,
            ..*old(driver)
        }),
{
    driver.flushes = driver.flushes.wrapping_add(1);
    driver.flushed_bytes = driver.flushed_bytes.wrapping_add(bytes as u64);
    driver.flush_cycles = driver.flush_cycles.wrapping_add(cycles);
}

/// Hands out what was counted since the last time, and starts anew: writes,
/// bytes, cycles and halts.
pub fn take_flush_stats(driver: &mut Driver) -> (r: (u64, u64, u64, u64))
    ensures
        r == (
            old(driver).flushes,
            old(driver).flushed_bytes,
            old(driver).flush_cycles,
            old(driver).flush_halts,
        ),
        *final(driver) == (Driver {
            flushes: 0,
            flushed_bytes: 0,
            flush_cycles: 0,
            flush_halts: 0,
            ..*old(driver)
        }),
{
    let r: (u64, u64, u64, u64) = (
        driver.flushes,
        driver.flushed_bytes,
        driver.flush_cycles,
        driver.flush_halts,
    );
    driver.flushes = 0;
    driver.flushed_bytes = 0;
    driver.flush_cycles = 0;
    driver.flush_halts = 0;
    r
}

/// Arms the interrupt of a device.
pub fn arm_interrupt(driver: &mut Driver, device: &VirtioBlk, irq_line: u8)
    requires
        device.wf(),
        irq_line < 255,
    ensures
        *final(driver) == (Driver {
            isr_port: (device@.io_base + REG_ISR) as u16,
            irq_plus_one: (irq_line + 1) as u8,
            ..*old(driver)
        }),
{
    driver.isr_port = device.io_base + REG_ISR;
    driver.irq_plus_one = irq_line + 1;
}

/// The interrupt line that is armed.
pub fn armed_irq(driver: &Driver) -> (r: Option<u8>)
    ensures
        r == (if driver.irq_plus_one == 0 {
            None
        } else {
            Some((driver.irq_plus_one - 1) as u8)
        }),
{
    if driver.irq_plus_one == 0 {
        None
    } else {
        Some(driver.irq_plus_one - 1)
    }
}

/// Counts an interrupt by what the device told about it: its own, or another
/// device's on the same line. Nothing where none is armed.
pub fn handle_irq(driver: &mut Driver, isr: u8)
    ensures
        *final(driver) == (if old(driver).isr_port == 0 {
            *old(driver)
        } else if isr & 1 != 0 {
            Driver {
                irq_delivered: if old(driver).irq_delivered == u32::MAX {
                    0
                } else {
                    (old(driver).irq_delivered + 1) as u32
                },
                ..*old(driver)
            }
        } else {
            Driver {
                irq_not_mine: if old(driver).irq_not_mine == u32::MAX {
                    0
                } else {
                    (old(driver).irq_not_mine + 1) as u32
                },
                ..*old(driver)
            }
        }),
{
    if driver.isr_port == 0 {
        return;
    }
    if isr & 1 != 0 {
        driver.irq_delivered = driver.irq_delivered.wrapping_add(1);
    } else {
        driver.irq_not_mine = driver.irq_not_mine.wrapping_add(1);
    }
}

/// The sum of the first `n` bytes, each times its place counted from one.
pub open spec fn weighted(data: Seq<u8>, n: int) -> int
    decreases n,
{
    if n <= 0 {
        0
    } else {
        weighted(data, n - 1) + data[n - 1] as int * n
    }
}

/// The checksum of a sector: the sum of its bytes, each times its place.
pub fn sector_checksum(data: &[u8]) -> (r: u32)
    requires
        data@.len() == 512,
    ensures
        r == weighted(data@, 512),
{
    let mut sum: u32 = 0;
    let mut at: usize = 0;
    while at < 512
        invariant
            at <= 512,
            data@.len() == 512,
            sum == weighted(data@, at as int),
            sum <= at * 130560,
        decreases 512 - at,
    {
        let byte: u32 = data[at] as u32;
        let place: u32 = at as u32 + 1;
        assert(byte * place <= 255 * 512) by (nonlinear_arith)
            requires
                byte <= 255,
                place <= 512,
        ;
        assert(data@[at as int] as int * (at + 1) == byte * place);
        sum = sum + byte * place;
        at += 1;
    }
    sum
}

/// The checksum notices two bytes that changed places.
pub proof fn swapped_bytes_are_noticed(data: Seq<u8>, i: int, j: int)
    requires
        0 <= i < j < data.len(),
        data[i] != data[j],
    ensures
        weighted(data.update(i, data[j]).update(j, data[i]), data.len() as int) != weighted(
            data,
            data.len() as int,
        ),
{
    let swapped = data.update(i, data[j]).update(j, data[i]);
    lemma_weighted_update(data, i, data[j], data.len() as int);
    lemma_weighted_update(data.update(i, data[j]), j, data[i], data.len() as int);
    let gap = data[j] as int - data[i] as int;
    assert(weighted(swapped, data.len() as int) == weighted(data, data.len() as int) + gap * (i + 1)
        - gap * (j + 1)) by (nonlinear_arith)
        requires
            gap == data[j] as int - data[i] as int,
            weighted(swapped, data.len() as int) == weighted(data, data.len() as int)
                + (data[j] as int - data[i] as int) * (i + 1) + (data[i] as int
                - data[j] as int) * (j + 1),
    ;
    assert(gap * (i + 1) - gap * (j + 1) != 0) by (nonlinear_arith)
        requires
            gap != 0,
            i != j,
    ;
}

/// A byte that changes moves the sum by its change times its place.
proof fn lemma_weighted_update(data: Seq<u8>, at: int, byte: u8, n: int)
    requires
        0 <= at < data.len(),
        0 <= n <= data.len(),
    ensures
        weighted(data.update(at, byte), n) == weighted(data, n) + (if at < n {
            (byte as int - data[at] as int) * (at + 1)
        } else {
            0
        }),
    decreases n,
{
    if n > 0 {
        lemma_weighted_update(data, at, byte, n - 1);
        if at == n - 1 {
            assert(byte as int * n == data[at] as int * n + (byte as int - data[at] as int) * n)
                by (nonlinear_arith);
        }
    }
}

/// A queue takes no more than it needs: the used ring begins on the first page
/// behind the available ring, and less than a page is left behind it before the
/// page for requests.
pub proof fn a_queue_takes_what_it_needs(n: int)
    requires
        n > 0,
    ensures
        used_at(n) - 4096 < 18 * n + 6 <= used_at(n),
        (ring_pages(n) - 2) * 4096 < used_at(n) + 6 + 8 * n <= (ring_pages(n) - 1) * 4096,
{
}

/// Requests follow one another in the rings: the counter goes up by one, and
/// begins again at zero behind the highest; the slot is the counter's place in the
/// ring. A request that did not go well is made again in the same slot, and the
/// longest wait is kept.
pub proof fn requests_follow_one_another(blk: Blk, spins: int)
    requires
        blk.queue_size > 0,
    ensures
        blk.expected() as int == (blk.completed + 1) % 0x1_0000,
        0 <= blk.slot() < blk.queue_size,
        blk.slot() == blk.completed as int % blk.queue_size,
        blk.after(true, blk.expected(), spins).completed == blk.expected(),
        blk.after(false, blk.expected(), spins).completed == blk.completed,
        blk.after(false, blk.expected(), spins).slot() == blk.slot(),
        forall|well: bool|
            #[trigger] blk.after(well, blk.expected(), spins) == (Blk {
                completed: blk.after(well, blk.expected(), spins).completed,
                max_spins: if blk.max_spins >= spins {
                    blk.max_spins
                } else {
                    spins
                },
                ..blk
            }),
        blk.completed < 0xffff && (blk.completed + 1) % blk.queue_size != 0 ==> blk.after(
            true,
            blk.expected(),
            spins,
        ).slot() == blk.slot() + 1,
{
    if blk.completed < 0xffff && (blk.completed + 1) % blk.queue_size != 0 {
        let n = blk.queue_size;
        let c = blk.completed as int;
        vstd::arithmetic::div_mod::lemma_fundamental_div_mod(c, n);
        let q = c / n;
        let r = c % n;
        if r + 1 < n {
            assert(c + 1 == q * n + (r + 1)) by (nonlinear_arith)
                requires
                    c == n * q + r,
            ;
            vstd::arithmetic::div_mod::lemma_fundamental_div_mod_converse(c + 1, n, q, r + 1);
        } else {
            assert(c + 1 == (q + 1) * n) by (nonlinear_arith)
                requires
                    c == n * q + r,
                    r + 1 == n,
            ;
            vstd::arithmetic::div_mod::lemma_fundamental_div_mod_converse(c + 1, n, q + 1, 0);
        }
    }
}

/// A request is written into three descriptors, the available ring and the page
/// for requests, and nowhere else: what the device wrote stays.
pub proof fn requests_touch_only_their_places(
    blk: Blk,
    sector: int,
    length: int,
    data_phys: int,
    to_device: bool,
    k: int,
)
    requires
        3 <= blk.queue_size <= 0xffff,
        0 <= k < request_patches(blk, sector, length, data_phys, to_device).len(),
    ensures
        ({
            let write = request_patches(blk, sector, length, data_phys, to_device)[k];
            let n = blk.queue_size;
            ||| 0 <= write.at && write.at + write.width <= 48
            ||| 16 * n + 2 <= write.at && write.at + write.width <= 16 * n + 4 + 2 * n
            ||| blk.spare() <= write.at && write.at + write.width <= blk.spare() + 16
            ||| write.at == blk.spare() + 1024 && write.width == 1
        }),
{
    let n = blk.queue_size;
    assert(0 <= blk.slot() < n);
    let all = request_patches(blk, sector, length, data_phys, to_device);
    assert(all.len() == 17);
}

/// What comes of a request: the device has to name it and to report success.
pub proof fn a_request_has_to_be_named_and_well(id: u32, status: u8)
    ensures
        taken_in(id, status) is Ok <==> id == 0 && status == 0,
        id != 0 ==> taken_in(id, status) == Err::<(), VirtioBlkError>(
            VirtioBlkError::WrongUsedId { id },
        ),
        id == 0 && status != 0 ==> taken_in(id, status) == Err::<(), VirtioBlkError>(
            VirtioBlkError::BadRequestStatus { status },
        ),
{
}

/// The right to use the device can be had where one is installed and nobody has
/// it; giving it out and taking it back change nothing else but the count of
/// halts.
pub proof fn the_right_changes_nothing_else(driver: Driver, halts: u64)
    ensures
        claimable(driver) <==> driver.present && !driver.in_use,
        claimed(driver) == (Driver { in_use: true, ..driver }),
        driver.flush_halts + halts <= u64::MAX ==> released(driver, halts) == (Driver {
            in_use: false,
            flush_halts: (driver.flush_halts + halts) as u64,
            ..driver
        }),
        driver.flush_halts + halts > u64::MAX ==> released(driver, halts).flush_halts
            == driver.flush_halts + halts - 0x1_0000_0000_0000_0000,
{
}

/// Every byte counts by its place: the first once, the second twice, and so on.
pub proof fn every_byte_counts_by_its_place(data: Seq<u8>, at: int, byte: u8)
    requires
        0 <= at < data.len(),
    ensures
        weighted(data.update(at, byte), data.len() as int) == weighted(data, data.len() as int) + (
        byte - data[at]) * (at + 1),
{
    lemma_weighted_update(data, at, byte, data.len() as int);
}

/// A sector of zeros has the checksum zero.
pub proof fn zeros_have_no_sum(data: Seq<u8>, n: int)
    requires
        0 <= n <= data.len(),
        forall|i: int| 0 <= i < n ==> #[trigger] data[i] == 0,
    ensures
        weighted(data, n) == 0,
        nonzero(data, n) == 0,
    decreases n,
{
    if n > 0 {
        zeros_have_no_sum(data, n - 1);
        assert(data[n - 1] == 0);
        assert(data[n - 1] as int * n == 0) by (nonlinear_arith)
            requires
                data[n - 1] as int == 0,
        ;
    }
}

/// Every byte that is not zero counts once.
pub proof fn every_byte_that_is_not_zero_counts(data: Seq<u8>, at: int, byte: u8, n: int)
    requires
        0 <= at < n <= data.len(),
        data[at] == 0,
        byte != 0,
    ensures
        nonzero(data.update(at, byte), n) == nonzero(data, n) + 1,
    decreases n,
{
    let other = data.update(at, byte);
    if at < n - 1 {
        every_byte_that_is_not_zero_counts(data, at, byte, n - 1);
    } else {
        lemma_nonzero_before(data, other, n - 1);
    }
}

proof fn lemma_nonzero_before(a: Seq<u8>, b: Seq<u8>, n: int)
    requires
        n <= a.len(),
        n <= b.len(),
        forall|i: int| 0 <= i < n ==> a[i] == b[i],
    ensures
        nonzero(a, n) == nonzero(b, n),
    decreases n,
{
    if n > 0 {
        lemma_nonzero_before(a, b, n - 1);
    }
}

} // verus!
