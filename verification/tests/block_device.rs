use zaytos::virtio::{
    arm_interrupt, armed_irq, begin_handshake, capacity, claim, clear_ring, handle_irq, install,
    installed, note_flush, poll, release, ring_layout, sector_checksum, setup, take_flush_stats,
    uninstall, wait_step, Driver, Poll, PortWrite, RingWrite, VirtioBlk, VirtioBlkError,
    Wait,
    POLL_SPIN_LIMIT,
};

const IO: u16 = 0xc000;
const PHYS: u64 = 0x10_0000;
const VIRT: u64 = 0xffff_8000_0010_0000;

fn device(queue_size: u16) -> (VirtioBlk, Vec<u8>) {
    let layout = ring_layout(queue_size).unwrap();
    let (blk, _) = setup(IO, 11, queue_size, Some(PHYS), VIRT).ok().unwrap();
    (blk, vec![0; (layout.pages * 4096) as usize])
}

#[test]
fn the_queue_is_laid_out_as_the_device_expects() {
    let layout = ring_layout(256).unwrap();
    assert_eq!(layout.desc_bytes, 4096);
    assert_eq!(layout.used_offset, 8192);
    assert_eq!(layout.pages, 4);
    assert_eq!(ring_layout(0), Err(VirtioBlkError::QueueSizeZero));
    assert_eq!(ring_layout(1).unwrap().used_offset, 4096);
}

#[test]
fn the_handshake_goes_step_by_step() {
    assert_eq!(
        begin_handshake(IO),
        vec![
            PortWrite::Byte { port: IO + 0x12, byte: 0 },
            PortWrite::Byte { port: IO + 0x12, byte: 1 },
            PortWrite::Byte { port: IO + 0x12, byte: 3 },
            PortWrite::Long { port: IO + 0x04, long: 0 },
            PortWrite::Word { port: IO + 0x0e, word: 0 },
        ]
    );
    let (blk, writes) = setup(IO, 11, 256, Some(PHYS), VIRT).ok().unwrap();
    assert_eq!(
        writes,
        vec![
            PortWrite::Long { port: IO + 0x08, long: 0x100 },
            PortWrite::Byte { port: IO + 0x12, byte: 7 },
        ]
    );
    assert_eq!(blk.irq_line(), 11);
    assert_eq!(blk.spare_virt(), VIRT + 3 * 4096);
    assert_eq!(blk.max_spins(), 0);
    assert_eq!(blk.notify(), PortWrite::Word { port: IO + 0x10, word: 0 });
    assert_eq!(
        setup(IO, 11, 0, Some(PHYS), VIRT).err(),
        Some(VirtioBlkError::QueueSizeZero)
    );
    assert_eq!(
        setup(IO, 11, 256, None, VIRT).err(),
        Some(VirtioBlkError::RingAllocationFailed { pages: 4 })
    );
}

#[test]
fn the_capacity_has_two_halves() {
    assert_eq!(capacity(5, 0), 5);
    assert_eq!(capacity(1, 2), 0x2_0000_0001);
}

#[test]
fn a_cleared_queue_is_zero_and_tells_what_it_was() {
    let mut ring = vec![0, 1, 2, 0];
    assert_eq!(clear_ring(&mut ring), 2);
    assert_eq!(ring, vec![0; 4]);
}

fn apply(ring: &mut [u8], writes: &[RingWrite]) {
    for write in writes {
        let (at, width) = (write.at as usize, write.width as usize);
        ring[at..at + width].copy_from_slice(&write.value.to_le_bytes()[..width]);
    }
}

fn word(ring: &[u8], at: usize) -> u16 {
    u16::from_le_bytes([ring[at], ring[at + 1]])
}

#[test]
fn a_request_is_a_chain_of_three() {
    let (blk, mut ring) = device(256);
    let spare = 3 * 4096;
    let (writes, expected) = blk.write_at(9, 1024, 0x20_0000);
    assert_eq!(expected, 1);
    apply(&mut ring, &writes);
    assert_eq!(ring[spare..spare + 4], 1u32.to_le_bytes());
    assert_eq!(ring[spare + 8..spare + 16], 9u64.to_le_bytes());
    assert_eq!(ring[0..8], (PHYS + spare as u64).to_le_bytes());
    assert_eq!(ring[16..24], 0x20_0000u64.to_le_bytes());
    assert_eq!(ring[24..28], 1024u32.to_le_bytes());
    assert_eq!(word(&ring, 28), 1);
    assert_eq!(word(&ring, 30), 2);
    assert_eq!(ring[32..40], (PHYS + spare as u64 + 1024).to_le_bytes());
    assert_eq!(ring[spare + 1024], 0xff);
    assert_eq!(word(&ring, 4096 + 2), 1);
    let (writes, expected) = blk.read_at(9, 1024, 0x20_0000);
    assert_eq!(expected, 1);
    apply(&mut ring, &writes);
    assert_eq!(ring[spare..spare + 4], 0u32.to_le_bytes());
    assert_eq!(word(&ring, 28), 3);
    assert_eq!(
        writes.last(),
        Some(&RingWrite {
            at: 4096 + 2,
            value: 1,
            width: 2
        })
    );
}

#[test]
fn a_finished_request_is_taken_in() {
    let (mut blk, mut ring) = device(256);
    let (writes, expected) = blk.read_at(2, 512, 0x20_0000);
    apply(&mut ring, &writes);
    assert_eq!(blk.used_counter_at(), 8192 + 2);
    assert_eq!(blk.used_id_at(), 8192 + 4);
    assert_eq!(blk.status_at(), 3 * 4096 + 1024);
    let status = ring[blk.status_at() as usize];
    assert_eq!(
        blk.wait_for_used(0, status, expected, 40),
        Err(VirtioBlkError::BadRequestStatus { status: 0xff })
    );
    assert_eq!(
        blk.wait_for_used(5, 0, expected, 30),
        Err(VirtioBlkError::WrongUsedId { id: 5 })
    );
    assert_eq!(blk.wait_for_used(0, 0, expected, 20), Ok(()));
    assert_eq!(blk.max_spins(), 40);
    let (writes, expected) = blk.read_at(2, 512, 0x20_0000);
    assert_eq!(expected, 2);
    apply(&mut ring, &writes);
    assert_eq!(word(&ring, 4096 + 2), 2);
    assert_eq!(blk.used_id_at(), 8192 + 4 + 8);
}

#[test]
fn a_poll_that_never_succeeds_times_out() {
    let mut spins = POLL_SPIN_LIMIT - 2;
    assert_eq!(poll(true, &mut spins), Poll::Ready);
    assert_eq!(poll(false, &mut spins), Poll::Again);
    assert_eq!(
        poll(false, &mut spins),
        Poll::TimedOut {
            spins: POLL_SPIN_LIMIT
        }
    );
}

#[test]
fn one_user_has_the_device_at_a_time() {
    let mut driver = Driver::new();
    assert!(!installed(&driver));
    assert!(claim(&mut driver).is_none());
    let (blk, _) = device(256);
    let mut mounted = install(&mut driver, blk, 0x30_0000, 8192);
    assert!(installed(&driver));
    assert_eq!(mounted.device().spare_room(), PHYS + 3 * 4096 + 512);
    assert_eq!(mounted.device_mut().max_spins(), 0);
    let mut first = claim(&mut driver).unwrap();
    assert!(claim(&mut driver).is_none());
    first.note_halt();
    first.note_halt();
    release(&mut driver, first);
    assert!(claim(&mut driver).is_some());
    assert_eq!(driver.flush_halts, 2);
    let blk = uninstall(&mut driver, mounted);
    assert_eq!(blk.irq_line(), 11);
    assert!(!installed(&driver));
}

#[test]
fn the_image_is_written_in_one_request() {
    let mut driver = Driver::new();
    let (blk, mut ring) = device(256);
    let (mut other, _) = device(256);
    install(&mut driver, blk, 0x30_0000, 8192);
    driver.irq_delivered = 3;
    let mut claim = claim(&mut driver).unwrap();
    let (writes, expected, before, length) = claim.issue_image_write(&driver, &other).unwrap();
    assert_eq!((expected, before, length), (1, 3, 8192));
    apply(&mut ring, &writes);
    assert_eq!(ring[16..24], 0x30_0000u64.to_le_bytes());
    assert_eq!(
        claim.wait_for_image_write(&driver, &mut other, 0, 0, 1, 5),
        Ok(())
    );
    driver.image_bytes = 0;
    assert_eq!(claim.issue_image_write(&driver, &other), None);
    driver.image_bytes = 0x1_0000_0000;
    assert_eq!(claim.issue_image_write(&driver, &other), None);
    driver.present = false;
    assert_eq!(
        claim.wait_for_image_write(&driver, &mut other, 0, 0, 1, 5),
        Err(VirtioBlkError::QueueSizeZero)
    );
}

#[test]
fn an_interrupt_counts_before_the_deadline() {
    assert_eq!(wait_step(4, 3, 1000, 10), Wait::Done);
    assert_eq!(wait_step(3, 3, 10, 10), Wait::Late);
    assert_eq!(wait_step(3, 3, 9, 10), Wait::Halt);
}

#[test]
fn what_was_written_back_is_told_once() {
    let mut driver = Driver::new();
    note_flush(&mut driver, 100, 7);
    note_flush(&mut driver, 50, 8);
    assert_eq!(take_flush_stats(&mut driver), (2, 150, 15, 0));
    assert_eq!(take_flush_stats(&mut driver), (0, 0, 0, 0));
}

#[test]
fn only_the_devices_own_interrupts_count() {
    let mut driver = Driver::new();
    assert_eq!(armed_irq(&driver), None);
    handle_irq(&mut driver, 1);
    assert_eq!(driver.irq_delivered, 0);
    let (blk, _) = device(256);
    arm_interrupt(&mut driver, &blk, 0);
    assert_eq!(armed_irq(&driver), Some(0));
    handle_irq(&mut driver, 1);
    handle_irq(&mut driver, 2);
    assert_eq!((driver.irq_delivered, driver.irq_not_mine), (1, 1));
}

#[test]
fn the_checksum_weighs_each_byte_by_its_place() {
    let mut sector = [0u8; 512];
    sector[0] = 3;
    sector[511] = 2;
    assert_eq!(sector_checksum(&sector), 3 + 2 * 512);
}

#[test]
fn two_bytes_that_changed_places_are_noticed() {
    let mut sector = [0u8; 512];
    sector[10] = 7;
    sector[20] = 9;
    let before = sector_checksum(&sector);
    sector.swap(10, 20);
    assert_eq!(before, 7 * 11 + 9 * 21);
    assert_eq!(sector_checksum(&sector), 9 * 11 + 7 * 21);
}

#[test]
fn the_page_of_the_queue_goes_to_the_device_in_32_bits() {
    let phys = 0x1234_5678_9000u64;
    let (_, writes) = setup(IO, 11, 8, Some(phys), VIRT).ok().unwrap();
    assert_eq!(
        writes[0],
        PortWrite::Long {
            port: IO + 8,
            long: 0x2345_6789
        }
    );
}
