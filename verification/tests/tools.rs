use zaytos::startup::{build_initial_stack, Start, PAGE};
use zaytos::tools::cat;
use zaytos::tools::dirs::{self, Deed};
use zaytos::tools::echo::echo;
use zaytos::tools::ls::{self, Listing};
use zaytos::tools::rm;
use zaytos::tools::sh::{first_word, run_line, Sh, Step};
use zaytos::tools::sleep::{judge, parse_seconds, refuse, Timespec};
use zaytos::tools::tail;
use zaytos::tools::touch;

fn start(argv: &[&[u8]]) -> Start {
    let argv: Vec<Vec<u8>> = argv.iter().map(|item| item.to_vec()).collect();
    let mut page = vec![0u8; PAGE];
    let stack = build_initial_stack(&mut page, 0x7f_f000, &argv, &[]).unwrap();
    Start {
        page,
        page_base: 0x7f_f000,
        stack,
    }
}

#[test]
fn cat_copies_until_the_end() {
    assert_eq!(cat::after_read(5), cat::Next::Write(5));
    assert_eq!(cat::after_read(0), cat::Next::Stop(0));
    assert_eq!(cat::after_read(-9), cat::Next::Stop(3));
    assert_eq!(cat::after_write(5), cat::Next::Read);
    assert_eq!(cat::after_write(-1), cat::Next::Stop(4));
    assert_eq!(cat::farewell(1), b"cat: cannot open\n".to_vec());
    assert_eq!(cat::farewell(3), b"cat: cannot read\n".to_vec());
    assert!(cat::farewell(4).is_empty() && cat::farewell(0).is_empty());
}

#[test]
fn tail_begins_twelve_bytes_before_the_end() {
    assert_eq!(tail::tail_from(100), 88);
    assert_eq!(tail::tail_from(12), 0);
    assert_eq!(tail::tail_from(5), 0);
    assert!(tail::landed_at(88, 88));
    assert!(!tail::landed_at(87, 88) && !tail::landed_at(-29, 0));
    assert_eq!(tail::farewell(1), b"tail: cannot open\n".to_vec());
    assert_eq!(tail::farewell(2), b"tail: usage: tail PATH\n".to_vec());
    assert_eq!(tail::farewell(3), b"tail: cannot read\n".to_vec());
    assert_eq!(tail::farewell(5), b"tail: cannot seek\n".to_vec());
    assert!(tail::farewell(4).is_empty());
}

fn dirent(name: &[u8]) -> Vec<u8> {
    let length = 19 + name.len() + 1;
    let mut record = vec![0u8; length];
    record[16..18].copy_from_slice(&(length as u16).to_le_bytes());
    record[19..19 + name.len()].copy_from_slice(name);
    record
}

#[test]
fn ls_lists_one_name_on_each_line() {
    let mut listing = Listing::new();
    let mut writes = Vec::new();
    let mut run = dirent(b"bin");
    run.extend(dirent(b"etc"));
    listing.take(&run, &mut writes);
    assert!(writes.is_empty());
    assert_eq!(listing.rest(), Some(&b"bin\netc\n"[..]));
    assert!(!listing.note_read(0));
    assert_eq!(listing.failed(), 0);
}

#[test]
fn ls_writes_when_its_room_is_full() {
    let mut listing = Listing::new();
    let mut writes = Vec::new();
    let long = vec![b'n'; 255];
    for _ in 0..3 {
        listing.take(&dirent(&long), &mut writes);
    }
    assert_eq!(writes.len(), 1);
    assert_eq!(writes[0].len(), 512);
    assert_eq!(listing.rest().map(|rest| rest.len()), Some(256));
    listing.push(&[b'm'; 600], &mut writes);
    assert_eq!(writes.len(), 2);
    assert_eq!(listing.rest().map(|rest| rest.len()), Some(512));
}

#[test]
fn ls_remembers_the_last_failure() {
    let mut listing = Listing::new();
    assert!(listing.note_read(10));
    listing.note_write(5);
    assert_eq!(listing.failed(), 0);
    listing.note_write(-1);
    assert_eq!(listing.failed(), 3);
    assert!(!listing.note_read(-20));
    assert_eq!(listing.failed(), 2);
    assert!(Listing::new().rest().is_none());
    assert_eq!(ls::farewell(1), b"ls: cannot open\n".to_vec());
    assert_eq!(ls::farewell(2), b"ls: cannot read the directory\n".to_vec());
    assert!(ls::farewell(3).is_empty());
}

#[test]
fn echo_puts_one_space_between_its_arguments() {
    assert_eq!(echo(&start(&[b"echo", b"a", b"", b"b c"])).concat(), b"a  b c\n".to_vec());
    assert_eq!(echo(&start(&[b"echo"])).concat(), b"\n".to_vec());
}

#[test]
fn echo_writes_in_pieces() {
    let long = vec![b'x'; 300];
    let writes = echo(&start(&[b"echo", &long, b"y"]));
    assert_eq!(
        writes.iter().map(|write| write.len()).collect::<Vec<usize>>(),
        vec![256, 47]
    );
    assert_eq!(writes.concat().len(), 303);
}

fn heard(shell: &mut Sh, keys: &[u8]) -> (Vec<u8>, Step) {
    let mut out = Vec::new();
    let mut step = Step::Wait;
    for key in keys {
        step = shell.heard(1, *key, &mut out);
    }
    (out, step)
}

#[test]
fn sh_knows_how_to_leave() {
    let mut out = Vec::new();
    let mut shell = Sh::new(&mut out);
    assert_eq!(out, b"sh: ready\nzaytos$ ".to_vec());
    let (out, step) = heard(&mut shell, b"lx\x08s -l\n");
    assert_eq!(out, b"lx\x08 \x08s -l\nsh: ls: not found\nzaytos$ ".to_vec());
    assert_eq!(step, Step::Wait);
    let (out, _) = heard(&mut shell, b"\x08  \n");
    assert_eq!(out, b"  \nzaytos$ ".to_vec());
    let (_, step) = heard(&mut shell, b" exit now\n");
    assert_eq!(step, Step::Exit(0));
}

#[test]
fn sh_refuses_a_long_line() {
    let mut out = Vec::new();
    let mut shell = Sh::new(&mut out);
    heard(&mut shell, &[b'a'; 129]);
    let (out, _) = heard(&mut shell, b"\n");
    assert_eq!(out, b"\nsh: line too long\nzaytos$ ".to_vec());
    let (out, _) = heard(&mut shell, b"b\n");
    assert_eq!(out, b"b\nsh: b: not found\nzaytos$ ".to_vec());
    let mut out = Vec::new();
    assert_eq!(shell.heard(-11, 0, &mut out), Step::Wait);
    assert_eq!(shell.heard(0, 0, &mut out), Step::Exit(1));
    assert!(out.is_empty());
}

#[test]
fn the_first_word_of_a_line_counts() {
    assert_eq!(first_word(b"  one two"), b"one");
    assert_eq!(first_word(b"   "), b"");
    let mut out = Vec::new();
    assert_eq!(run_line(b"exit", &mut out), Step::Exit(0));
}

#[test]
fn seconds_are_read_to_the_nanosecond() {
    assert_eq!(parse_seconds(b"1"), Some(1_000_000_000));
    assert_eq!(parse_seconds(b"0.5"), Some(500_000_000));
    assert_eq!(parse_seconds(b".25"), Some(250_000_000));
    assert_eq!(parse_seconds(b"2."), Some(2_000_000_000));
    assert_eq!(parse_seconds(b"."), Some(0));
    assert_eq!(parse_seconds(b"0.123456789"), Some(123_456_789));
    assert_eq!(parse_seconds(b"0.1234567890"), None);
    assert_eq!(parse_seconds(b""), None);
    assert_eq!(parse_seconds(b"1s"), None);
    assert_eq!(parse_seconds(b"1.2.3"), None);
    assert_eq!(parse_seconds(b"-1"), None);
    assert_eq!(
        parse_seconds(b"18446744073.709551615"),
        Some(u64::MAX)
    );
    assert_eq!(parse_seconds(b"18446744073.709551616"), None);
    assert_eq!(parse_seconds(b"99999999999999999999999"), None);
}

#[test]
fn a_time_is_counted_in_nanoseconds() {
    let time = Timespec {
        tv_sec: 2,
        tv_nsec: 5,
    };
    assert_eq!(time.total_nanos(), 2_000_000_005);
    assert_eq!(Timespec::of(2_000_000_005), time);
    let back = Timespec {
        tv_sec: -1,
        tv_nsec: 0,
    };
    assert_eq!(back.total_nanos(), 0u64.wrapping_sub(1_000_000_000));
}

#[test]
fn a_sleep_is_judged_by_the_clock() {
    let at = Timespec::of;
    let said = judge(500_000_000, at(1_000_000_000), at(1_600_000_000));
    assert_eq!(
        said.said,
        b"sleep: asked 500 ms, the monotonic clock advanced 600 ms\n".to_vec()
    );
    assert_eq!(said.status, 0);
    assert_eq!(judge(500_000_000, at(0), at(499_999_999)).status, 1);
    assert_eq!(judge(500_000_000, at(0), at(500_000_000)).status, 0);
    let said = judge(1, at(5), at(4));
    assert_eq!(said.said, b"sleep: the monotonic clock went backwards\n".to_vec());
    assert_eq!(said.status, 2);
    let said = refuse(true);
    assert_eq!((said.said, said.status), (b"sleep: invalid time interval\n".to_vec(), 4));
    assert_eq!(refuse(false).said, b"sleep: usage: sleep SECONDS\n".to_vec());
}

#[test]
fn touch_leaves_a_file_alone_that_is_there() {
    assert_eq!(touch::after_open(3), touch::Next::Close(3));
    assert_eq!(touch::after_open(-2), touch::Next::Create);
    assert_eq!(touch::after_open(-24), touch::Next::Fail);
    assert_eq!(touch::after_create(4), touch::Next::Close(4));
    assert_eq!(touch::after_create(-28), touch::Next::Fail);
    assert_eq!(touch::usage(), b"touch: usage: touch PATH\n".to_vec());
    assert_eq!(touch::failed(b"/a"), b"touch: cannot create /a\n".to_vec());
}

#[test]
fn rm_sends_directories_to_rmdir() {
    assert_eq!(rm::removed(b"/a", 0), (Vec::new(), 0));
    assert_eq!(
        rm::removed(b"/a", -21),
        (b"rm: cannot remove /a: is a directory; use rmdir\n".to_vec(), 1)
    );
    assert_eq!(
        rm::removed(b"/a", -2),
        (b"rm: cannot remove /a: cannot remove\n".to_vec(), 1)
    );
    assert_eq!(rm::usage(), b"rm: usage: rm PATH\n".to_vec());
}

#[test]
fn directories_are_made_and_removed() {
    assert_eq!(dirs::done(Deed::Make, b"/a", 0), (Vec::new(), 0));
    assert_eq!(
        dirs::done(Deed::Make, b"/a", -17),
        (b"mkdir: cannot create /a: cannot create\n".to_vec(), 1)
    );
    assert_eq!(
        dirs::done(Deed::Remove, b"/a", -39),
        (b"rmdir: cannot remove /a: cannot remove\n".to_vec(), 1)
    );
    assert_eq!(dirs::usage(Deed::Make), b"mkdir: usage: mkdir PATH\n".to_vec());
    assert_eq!(dirs::usage(Deed::Remove), b"rmdir: usage: rmdir PATH\n".to_vec());
}
