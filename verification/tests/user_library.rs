use zaytos::bytes::{append, find, spells, starts_with};
use zaytos::decimal::{push_number, push_signed};
use zaytos::le;
use zaytos::line::{line_from, say, say_code, Line};
use zaytos::screen::move_cursor;
use zaytos::startup::length_of;
use zaytos::userlib::{
    for_each_dirent, log_line, path_from, size_of_file, window_size, window_size_or_default, Brk,
    Echo, Frame, Region, WindowSize, Writing, FRAME_MAX, STAT_BYTES, ZDIAG_LEN,
};
use zaytos::window::Window;

#[test]
fn numbers_are_written_in_decimal() {
    let mut out = Vec::new();
    push_number(&mut out, 0);
    out.push(b' ');
    push_number(&mut out, u64::MAX);
    out.push(b' ');
    push_signed(&mut out, -42);
    out.push(b' ');
    push_signed(&mut out, i64::MIN);
    assert_eq!(
        out,
        b"0 18446744073709551615 -42 -9223372036854775808".to_vec()
    );
}

#[test]
fn numbers_are_read_as_they_were_written() {
    let mut bytes = vec![0xee; 12];
    le::write(&mut bytes, 2, 0x0102_0304_0506_0708, 8);
    assert_eq!(le::read(&bytes, 2, 8), 0x0102_0304_0506_0708);
    assert_eq!(bytes[2], 8);
    assert_eq!((bytes[1], bytes[10]), (0xee, 0xee));
    assert_eq!(le::read(&bytes, 2, 2), 0x0708);
}

#[test]
fn bytes_are_searched_and_matched() {
    let mut out = b"ab".to_vec();
    append(&mut out, b"cd");
    assert_eq!(out, b"abcd".to_vec());
    assert_eq!(find(b"a:b:c", b':', 2), 3);
    assert_eq!(find(b"abc", b':', 0), 3);
    assert!(spells(b"exit", "exit") && !spells(b"exits", "exit"));
    assert!(starts_with(b"quit now", "quit") && !starts_with(b"qui", "quit"));
    assert_eq!(length_of(b"abc\0def", 100), 3);
    assert_eq!(length_of(b"abc\0def", 2), 2);
}

#[test]
fn a_line_that_is_too_long_is_cut() {
    let mut line: Line<8> = Line::new();
    line.push_text("abc");
    line.push_decimal(-7);
    line.push(b"xyzzy");
    assert_eq!(line.end(), b"abc-7xyz".to_vec());
    assert_eq!(line_from::<4>(b"ab"), b"ab\n".to_vec());
    assert_eq!(line_from::<2>(b"ab"), b"ab".to_vec());
    assert_eq!(say("hi"), b"hi\n".to_vec());
    assert_eq!(say_code("code ", -3), b"code -3\n".to_vec());
    assert_eq!(line_from::<96>(&[b'x'; 200]).len(), 96);
}

#[test]
fn the_cursor_is_counted_from_one_on_the_screen() {
    let mut out = Vec::new();
    move_cursor(&mut out, 0, 9);
    assert_eq!(out, b"\x1b[1;10H".to_vec());
}

#[test]
fn a_window_without_a_size_gets_the_usual_one() {
    let raw = [30, 0, 100, 0, 1, 2, 3, 4];
    let size = window_size(0, &raw).unwrap();
    assert_eq!((size.rows, size.columns), (30, 100));
    assert_eq!((size.width_pixels, size.height_pixels), (0x201, 0x403));
    assert_eq!(window_size(-25, &raw), Err(-25));
    let usual = window_size_or_default(Err(-25));
    assert_eq!((usual.rows, usual.columns), (24, 80));
    let half = WindowSize {
        rows: 0,
        columns: 132,
        width_pixels: 5,
        height_pixels: 6,
    }
    .or_default();
    assert_eq!((half.rows, half.columns), (24, 132));
    assert_eq!((half.width_pixels, half.height_pixels), (5, 6));
}

fn record(text: &[u8], lost: u16) -> Vec<u8> {
    let mut raw = vec![0u8; ZDIAG_LEN];
    raw[0..2].copy_from_slice(&(text.len() as u16).to_le_bytes());
    raw[2..4].copy_from_slice(&lost.to_le_bytes());
    raw[4..4 + text.len()].copy_from_slice(text);
    raw
}

#[test]
fn a_kept_error_becomes_one_line() {
    let mut echo = Echo::new();
    assert!(!echo.take(-1, &record(b"x", 0)));
    assert!(!echo.take(0, &record(b"", 0)));
    assert!(echo.take(0, &record(b"zi: failed\r\n", 0)));
    assert_eq!(echo.line(), b"zi: failed");
    assert!(echo.take(0, &record(b"lost\n", 3)));
    assert_eq!(echo.line(), b"lost ...");
    assert!(!echo.take(0, &record(b"\n", 0)));
    assert!(!echo.take(0, &record(b"\r\n\n", 0)));
    assert!(!echo.take(-1, &record(b"x", 0)));
    assert_eq!(echo.line(), b"lost ...");
    assert!(echo.take(0, &record(b"\n", 1)));
    assert_eq!(echo.line(), b" ...");
    echo.clear();
    assert_eq!(Echo::default().line(), b"");
}

#[test]
fn a_logged_line_can_be_taken_back() {
    let raw = log_line(b"hello");
    let mut echo = Echo::new();
    assert!(echo.take(0, &raw));
    assert_eq!(echo.line(), b"hello");
    let raw = log_line(&[b'x'; 300]);
    assert!(echo.take(0, &raw));
    assert_eq!(echo.line().len(), 252);
}

#[test]
fn frames_lose_nothing_and_keep_the_order() {
    let mut frame = Frame::new();
    let mut writes = Vec::new();
    let long = vec![b'a'; FRAME_MAX];
    frame.frame_push(&long, &mut writes);
    assert!(writes.is_empty());
    frame.frame_push(b"bc", &mut writes);
    frame.frame_flush(&mut writes);
    let mut want = long;
    want.extend_from_slice(b"bc");
    assert_eq!(writes.concat(), want);
    assert_eq!(writes[0].len(), FRAME_MAX);
}

#[test]
fn a_write_goes_on_until_all_is_written() {
    let mut writing = Writing::new(10);
    assert_eq!(writing.left(), Some(10));
    assert_eq!(writing.write_all(4), None);
    assert_eq!(writing.left(), Some(6));
    assert_eq!(writing.write_all(6), Some(10));
    let mut failing = Writing::new(10);
    assert_eq!(failing.write_all(-5), Some(-5));
    let mut failing = Writing::new(10);
    failing.write_all(3);
    assert_eq!(failing.write_all(-5), Some(3));
}

#[test]
fn the_size_of_a_file_stands_in_its_record() {
    let mut raw = vec![0u8; STAT_BYTES];
    raw[48..56].copy_from_slice(&77u64.to_le_bytes());
    assert_eq!(size_of_file(0, &raw), Ok(77));
    assert_eq!(size_of_file(-2, &raw), Err(-2));
}

#[test]
fn a_path_is_cut_to_its_room() {
    assert_eq!(path_from(b"/bin", 8), b"/bin\0".to_vec());
    assert_eq!(path_from(b"/bin/echo", 5), b"/bin\0".to_vec());
}

fn dirent(name: &[u8], pad: usize) -> Vec<u8> {
    let length = 19 + name.len() + 1 + pad;
    let mut record = vec![0u8; length];
    record[16..18].copy_from_slice(&(length as u16).to_le_bytes());
    record[19..19 + name.len()].copy_from_slice(name);
    record
}

#[test]
fn the_names_of_a_directory_come_in_order() {
    let mut run = dirent(b".", 4);
    run.extend(dirent(b"hello.txt", 0));
    let whole = run.len();
    run.extend(dirent(b"cut", 0));
    assert_eq!(
        for_each_dirent(&run[..whole + 20]),
        vec![b".".to_vec(), b"hello.txt".to_vec()]
    );
    let mut broken = dirent(b"a", 0);
    broken[16] = 3;
    assert!(for_each_dirent(&broken).is_empty());
}

#[test]
fn a_region_is_reserved_grown_and_given_back() {
    let mut region = Region::none();
    assert_eq!(region.reserve_target(100, 0x40_0000), Some(0x40_0064));
    assert_eq!(region.reserve(100, 0x40_0000, 0x40_0000), Brk::RollBack(0x40_0000));
    assert_eq!(region.reserve(100, 0x40_0000, 0x40_0064), Brk::Granted);
    assert_eq!(region.reserve(100, 0x40_0000, 0x40_0064), Brk::Refused);
    assert_eq!(region.grow_target(0x40_0000, 100, 200), Some(0x40_00c8));
    assert_eq!(
        region.grow_to(0x40_0000, 100, 200, -12),
        Brk::RollBack(0x40_0064)
    );
    assert_eq!(region.grow_to(0x40_0000, 100, 200, 0x40_00c8), Brk::Granted);
    assert_eq!(region.grow_to(0x40_0000, 100, 300, 0x40_012c), Brk::Refused);
    assert_eq!(region.release(1), None);
    assert_eq!(region.release(0x40_0000), Some(0x40_0000));
    assert_eq!(region, Region::none());
    assert_eq!(region.reserve_target(0, 0x40_0000), None);
}

#[test]
fn a_window_follows_and_scrolls() {
    let mut window = Window::new(10);
    assert_eq!(window.visible(4), (0, 4));
    assert!(window.follow(12));
    assert_eq!(window.top, 3);
    assert!(!window.follow(5));
    assert_eq!(window.screen_row(12), Some(9));
    assert_eq!(window.screen_row(2), None);
    assert_eq!(window.visible(100), (3, 13));
    assert!(window.scroll_down(5, 100));
    assert!(window.scroll_up(5));
    assert_eq!(window.top, 3);
    assert!(window.scroll_down(1000, 100));
    assert_eq!(window.top, 90);
    assert!(!window.scroll_down(1, 100));
    assert!(window.scroll_up(1000));
    assert!(!window.scroll_up(1));
}
