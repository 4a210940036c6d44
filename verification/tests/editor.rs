use zaytos::userlib::ZDIAG_LEN;
use zaytos::zi::buffer::{
    index_lines, round_up_word, text_capacity_for, Buffer, Grants, Reading, INDEX_INITIAL,
    REGION_LIMIT,
};
use zaytos::zi::draw::{Layout, Mode};
use zaytos::zi::editor::{Editor, Outcome};
use zaytos::zi::memory::first_region;
use zaytos::zi::opening::{Answer, Ask, Opening};
use zaytos::zi::session::{
    farewell, opened, report_cursor, report_save, report_window_size, save, Opened,
};
use zaytos::zi::turn::Session;

const ALL: Grants = Grants {
    text: true,
    index: true,
};
const NONE: Grants = Grants {
    text: false,
    index: false,
};

fn buffer(file: &[u8]) -> Buffer {
    let mut reading = Reading::new(REGION_LIMIT, 8192, INDEX_INITIAL).unwrap();
    assert!(reading.accept(file, false));
    index_lines(reading, ALL).unwrap()
}

fn lines(buffer: &Buffer) -> Vec<Vec<u8>> {
    (0..buffer.count()).map(|row| buffer.line(row).to_vec()).collect()
}

#[test]
fn a_file_is_read_into_lines_and_saved_as_it_was() {
    let text = buffer(b"one\n\nthree\n");
    assert_eq!(
        lines(&text),
        vec![b"one".to_vec(), b"".to_vec(), b"three".to_vec()]
    );
    assert_eq!(text.as_bytes(), b"one\n\nthree\n");
    assert_eq!(buffer(b"x").as_bytes(), b"x\n");
    assert_eq!(lines(&buffer(b"")), vec![b"".to_vec()]);
    assert_eq!(text.length(2), 5);
}

#[test]
fn bytes_and_lines_come_and_go() {
    let mut text = buffer(b"abc\ndef\n");
    assert!(text.insert(0, 1, b'X', false));
    assert_eq!(text.line(0), b"aXbc");
    assert!(!text.insert(0, 5, b'X', false));
    assert!(text.remove(0, 1));
    assert!(!text.remove(0, 3));
    assert_eq!(text.as_bytes(), b"abc\ndef\n");
    assert!(text.split_line(0, 2, ALL));
    assert_eq!(
        lines(&text),
        vec![b"ab".to_vec(), b"c".to_vec(), b"def".to_vec()]
    );
    assert!(text.join_with_next(0));
    assert!(text.join_with_next(0));
    assert_eq!(lines(&text), vec![b"abcdef".to_vec()]);
    assert!(!text.join_with_next(0));
}

#[test]
fn memory_that_is_not_granted_stops_the_text() {
    let mut text = Buffer::new(REGION_LIMIT, 2, 2).unwrap();
    assert!(text.insert(0, 0, b'a', false));
    assert!(!text.insert(0, 1, b'b', false));
    assert!(text.text_growth().is_some());
    assert!(text.insert(0, 1, b'b', true));
    assert!(!text.split_line(0, 1, NONE));
    assert_eq!(text.line(0), b"ab");
    assert!(text.split_line(0, 1, ALL));
    assert!(Buffer::new(10, 8, 2).is_none());
    assert_eq!(round_up_word(9), 16);
    assert_eq!(text_capacity_for(1) % 8, 0);
}

fn open(file: &[u8], rows: usize) -> Editor {
    let layout = Layout {
        rows,
        path: b"/tmp/a\0".to_vec(),
    };
    let mut out = Vec::new();
    Editor::open(buffer(file), layout, &mut out)
}

fn keys(editor: &mut Editor, keys: &[u8]) -> (Vec<u8>, Outcome) {
    let mut out = Vec::new();
    let mut outcome = Outcome::Continue;
    for key in keys {
        outcome = editor.key(*key, ALL, &mut out);
    }
    (out, outcome)
}

#[test]
fn the_first_screen_shows_the_text_and_the_status() {
    let mut out = Vec::new();
    Editor::open(
        buffer(b"one\ntwo\n"),
        Layout {
            rows: 4,
            path: b"/a\0".to_vec(),
        },
        &mut out,
    );
    assert_eq!(
        out,
        b"\x1b[?1049h\x1b[2J\x1b[1;1H\x1b[2Kone\x1b[2;1H\x1b[2Ktwo\x1b[3;1H\x1b[2K\x1b[38;2;200;200;0m-- NORMAL  --\x1b[0m /a 1:1\x1b[4;1H\x1b[2K\x1b[1;1H"
            .to_vec()
    );
}

#[test]
fn text_is_typed_and_saved() {
    let mut editor = open(b"abc\n", 10);
    keys(&mut editor, b"iX");
    let mut out = Vec::new();
    editor.pause(&mut out);
    keys(&mut editor, b"\x1b");
    editor.pause(&mut out);
    let (_, outcome) = keys(&mut editor, b":w\n");
    assert_eq!(outcome, Outcome::Save { quit: false });
    assert_eq!(editor.saved(false, true, &mut out), Outcome::Continue);
    let (_, outcome) = keys(&mut editor, b":q\n");
    assert_eq!(outcome, Outcome::Quit);
}

#[test]
fn unsaved_text_is_not_left_behind() {
    let mut editor = open(b"abc\n", 10);
    keys(&mut editor, b"x");
    let (out, outcome) = keys(&mut editor, b":q\n");
    assert_eq!(outcome, Outcome::Continue);
    let text = String::from_utf8(out).unwrap();
    assert!(text.contains("unsaved changes; use :wq"));
    let (_, outcome) = keys(&mut editor, b":wq\n");
    assert_eq!(outcome, Outcome::Save { quit: true });
    let mut out = Vec::new();
    assert_eq!(editor.saved(true, false, &mut out), Outcome::Continue);
    assert_eq!(editor.saved(true, true, &mut out), Outcome::Quit);
    assert!(out.ends_with(b"\x1b[?1049l"));
}

#[test]
fn a_change_right_behind_an_escape_counts_too() {
    let mut editor = open(b"abc\n", 10);
    keys(&mut editor, b"\x1bx");
    let (_, outcome) = keys(&mut editor, b":q\n");
    assert_eq!(outcome, Outcome::Continue);
}

#[test]
fn what_is_typed_and_erased_leaves_the_text_as_it_was() {
    let mut editor = open(b"abc\ndef\n", 10);
    keys(&mut editor, b"jli");
    keys(&mut editor, b"Z\x08");
    assert_eq!(editor.buffer.as_bytes(), b"abc\ndef\n");
    assert_eq!((editor.row, editor.col), (1, 1));
    keys(&mut editor, b"\n");
    assert_eq!(editor.buffer.as_bytes(), b"abc\nd\nef\n");
    keys(&mut editor, b"\x08");
    assert_eq!(editor.buffer.as_bytes(), b"abc\ndef\n");
    assert_eq!((editor.row, editor.col), (1, 1));
}

#[test]
fn moving_leaves_the_text_and_its_mark_alone() {
    let mut editor = open(b"abc\ndef\n", 10);
    keys(&mut editor, b"jlkh\x1b[A\x1b[B\x1b[C\x1b[D");
    assert_eq!(editor.buffer.as_bytes(), b"abc\ndef\n");
    assert!(!editor.dirty);
}

#[test]
fn memory_is_asked_for_by_the_size_of_the_whole_region() {
    let mut reading = Reading::new(REGION_LIMIT, 8, 2).unwrap();
    assert_eq!(reading.text_growth(7), None);
    assert_eq!(reading.text_growth(8), Some(8 + 4096 + 2 * 8));
    assert!(!reading.accept(b"12345678", false));
    assert!(reading.accept(b"a\nb", false));
    assert_eq!(reading.index_growth(), Some(8 + (2 + 1 + 64) * 8));
    assert!(index_lines(reading, ALL).is_some());
    let reading = Reading::new(REGION_LIMIT, 8, 100).unwrap();
    assert_eq!(reading.index_growth(), None);
    let text = Buffer::new(REGION_LIMIT, 2, 2).unwrap();
    assert_eq!(text.capacities(), (2, 2));
    assert_eq!(text.text_growth(), None);
    assert_eq!(text.index_growth(2), Some(2 + (2 + 64) * 8));
}

#[test]
fn an_unknown_command_is_told() {
    let mut editor = open(b"abc\n", 10);
    let (out, _) = keys(&mut editor, b":zz\n");
    assert!(String::from_utf8(out).unwrap().contains("unknown command"));
}

#[test]
fn a_moved_cursor_draws_little() {
    let mut editor = open(b"abc\ndef\n", 10);
    let (out, _) = keys(&mut editor, b"l");
    assert_eq!(out, b"\x1b[1;2H".to_vec());
    let (out, _) = keys(&mut editor, b"j");
    assert_eq!(out, b"\x1b[2;2H".to_vec());
    let (out, _) = keys(&mut editor, b"\x1b[A\x1b[D");
    assert_eq!(out, b"\x1b[1;2H\x1b[1;1H".to_vec());
    let (out, _) = keys(&mut editor, b"hk");
    assert!(out.is_empty());
}

#[test]
fn a_file_that_is_not_there_is_a_new_one() {
    assert_eq!(opened(-2), Opened::Absent);
    assert_eq!(opened(-13), Opened::Refused);
    assert_eq!(opened(3), Opened::Descriptor(3));
}

#[test]
fn a_save_counts_only_when_all_of_it_worked() {
    assert!(save(10, 3, 10, 0).ok);
    let failed = save(10, -13, 0, 0);
    assert!(!failed.ok);
    assert_eq!(failed.error, b"zi: cannot open for writing\n".to_vec());
    assert!(!save(10, 3, 9, 0).ok);
    let failed = save(10, 3, 10, -5);
    assert!(!failed.ok);
    assert_eq!(
        failed.error,
        b"zi: saved to memory but not to the disk\n".to_vec()
    );
}

#[test]
fn the_editor_reports_on_itself() {
    assert_eq!(
        report_cursor(1, 2, 3, 0, b"open"),
        b"zi: cursor (buffer state, not the screen) row=1 col=2 lines=3 top=0 open\n".to_vec()
    );
    assert_eq!(
        report_save(10, 10, true),
        b"zi: saved bytes requested=10 written=10 match=true\n".to_vec()
    );
    assert_eq!(
        report_save(10, -5, false),
        b"zi: saved bytes requested=10 written=-5 match=false\n".to_vec()
    );
    assert_eq!(
        report_window_size(Some((24, 80))),
        b"zi: winsize rows=24 columns=80\n".to_vec()
    );
    assert_eq!(
        report_window_size(None),
        b"zi: winsize rows=0 columns=0\n".to_vec()
    );
    assert_eq!(farewell(1), b"zi: cannot open\n".to_vec());
    assert_eq!(farewell(2), b"zi: usage: zi PATH\n".to_vec());
    assert_eq!(farewell(3), b"zi: cannot read\n".to_vec());
    assert_eq!(
        farewell(4),
        b"zi: ran out of memory while reading the file\n".to_vec()
    );
    assert_eq!(
        farewell(6),
        b"zi: cannot reserve memory for the edit buffer\n".to_vec()
    );
    assert!(farewell(0).is_empty());
}

#[test]
fn the_delete_key_keeps_the_cursor_on_the_line_in_normal_mode_only() {
    let mut editor = open(b"ab\n", 5);
    keys(&mut editor, b"l\x1b[3~");
    assert_eq!(editor.buffer.line(0), b"a");
    assert_eq!(editor.col, 0);
    let mut editor = open(b"ab\n", 5);
    keys(&mut editor, b"l:\x1b[3~");
    assert_eq!(editor.buffer.line(0), b"a");
    assert_eq!(editor.col, 1);
    assert!(editor.dirty);
}

#[test]
fn memory_is_asked_for_only_where_a_byte_needs_it() {
    let layout = |rows| Layout { rows, path: b"a.txt".to_vec() };
    let mut out = Vec::new();
    let full = Buffer::new(REGION_LIMIT, 8, 2).unwrap();
    let mut editor = Editor::open(full, layout(24), &mut out);
    assert_eq!(editor.text_wanted(b'i'), None);
    assert_eq!(editor.index_wanted(b'\n', true), None);
    editor.key(b'i', NONE, &mut out);
    assert_eq!(editor.text_wanted(b'x'), None);
    assert_eq!(editor.index_wanted(b'x', false), None);
    assert_eq!(editor.index_wanted(b'\n', false), Some(8 + (2 + 64) * 8));
    for byte in b"abcdefg" {
        assert_eq!(editor.text_wanted(*byte), None);
        editor.key(*byte, NONE, &mut out);
    }
    assert_eq!(editor.buffer.line(0), b"abcdefg");
    assert_eq!(editor.text_wanted(b'h'), Some(8 + 4096 + 2 * 8));
    assert_eq!(editor.text_wanted(0x08), None);
    assert_eq!(editor.text_wanted(0x1b), None);
    assert_eq!(editor.index_wanted(b'\n', false), None);
    assert_eq!(editor.index_wanted(b'\n', true), Some(8 + 4096 + (2 + 64) * 8));
    editor.key(b'h', NONE, &mut out);
    assert_eq!(editor.buffer.line(0), b"abcdefg");
    editor.key(b'h', ALL, &mut out);
    assert_eq!(editor.buffer.line(0), b"abcdefgh");
    editor.key(0x1b, NONE, &mut out);
    assert_eq!(editor.text_wanted(b'x'), None);
    assert_eq!(editor.index_wanted(b'\n', true), None);
}

#[test]
fn grants_that_nothing_asked_for_change_nothing() {
    let layout = |rows| Layout { rows, path: b"a.txt".to_vec() };
    let mut plain = Vec::new();
    let mut granted = Vec::new();
    let mut first = Editor::open(buffer(b"one\ntwo\n"), layout(24), &mut plain);
    let mut second = Editor::open(buffer(b"one\ntwo\n"), layout(24), &mut granted);
    for byte in b"jihello\nworld\x08\x1bkx:q!\x08" {
        assert_eq!(first.text_wanted(*byte), None);
        assert_eq!(first.index_wanted(*byte, false), None);
        first.key(*byte, NONE, &mut plain);
        second.key(*byte, ALL, &mut granted);
    }
    assert_eq!(plain, granted);
    assert_eq!(first.buffer.as_bytes(), second.buffer.as_bytes());
    assert_eq!(first.buffer.capacities(), second.buffer.capacities());
}

#[test]
fn a_file_gets_twice_its_size() {
    assert_eq!(first_region(0), Some((4104 + 65 * 8, 4104)));
    assert_eq!(first_region(100), Some((4304 + 65 * 8, 4304)));
    assert_eq!(first_region(REGION_LIMIT as u64), None);
    assert_eq!(first_region(u64::MAX), None);
}

fn run(mut opening: Opening, answers: Vec<Answer>) -> (Opening, Vec<Ask>) {
    let mut asked = Vec::new();
    for answer in answers {
        asked.push(opening.ask());
        opening = opening.answer(answer);
    }
    asked.push(opening.ask());
    (opening, asked)
}

#[test]
fn a_file_is_opened_step_by_step() {
    let (opening, asked) = run(
        Opening::new(),
        vec![
            Answer::Size(Some(7)),
            Answer::Reserved(true),
            Answer::Opened(3),
            Answer::Read(4, b"one\n".to_vec()),
            Answer::Read(3, b"two".to_vec()),
            Answer::Read(0, Vec::new()),
            Answer::Closed,
            Answer::Grown(true),
        ],
    );
    let region = 4112 + 65 * 8;
    assert_eq!(
        asked,
        vec![
            Ask::Size,
            Ask::Reserve(region),
            Ask::Open,
            Ask::Read(3),
            Ask::Read(3),
            Ask::Read(3),
            Ask::Close(3),
            Ask::Grow(4112 + (65 + 64) * 8),
            Ask::Done,
        ]
    );
    let buffer = opening.finish().ok().unwrap();
    assert_eq!(buffer.as_bytes(), b"one\ntwo\n");
    assert_eq!(lines(&buffer), vec![b"one".to_vec(), b"two".to_vec()]);
}

#[test]
fn a_file_that_is_longer_than_it_said_asks_for_more() {
    let chunk = vec![b'x'; 256];
    let mut answers = vec![Answer::Size(None), Answer::Reserved(true), Answer::Opened(5)];
    for _ in 0..16 {
        answers.push(Answer::Read(256, chunk.clone()));
    }
    let (opening, asked) = run(Opening::new(), answers);
    assert_eq!(asked.last(), Some(&Ask::Read(5)));
    let (opening, asked) = run(opening, vec![Answer::Read(256, chunk.clone())]);
    assert_eq!(asked.last(), Some(&Ask::Grow(4104 + 4096 + 65 * 8)));
    let (opening, asked) = run(opening, vec![Answer::Grown(true), Answer::Read(0, Vec::new())]);
    assert_eq!(asked.last(), Some(&Ask::Close(5)));
    let (opening, _) = run(opening, vec![Answer::Closed, Answer::Grown(true)]);
    let buffer = opening.finish().ok().unwrap();
    assert_eq!(buffer.as_bytes().len(), 17 * 256 + 1);
}

#[test]
fn a_file_that_cannot_be_opened_ends_the_editor() {
    let ending = |answers: Vec<Answer>| {
        let (opening, asked) = run(Opening::new(), answers);
        assert_eq!(asked.last(), Some(&Ask::Done));
        let closed = asked.iter().filter(|ask| **ask == Ask::Close(4)).count();
        (opening.finish().err(), closed)
    };
    let begin = |answers: Vec<Answer>| {
        let mut all = vec![Answer::Size(Some(0)), Answer::Reserved(true)];
        all.extend(answers);
        all
    };
    assert_eq!(ending(vec![Answer::Size(Some(u64::MAX))]), (Some(6), 0));
    assert_eq!(
        ending(vec![Answer::Size(Some(0)), Answer::Reserved(false)]),
        (Some(6), 0)
    );
    assert_eq!(ending(begin(vec![Answer::Opened(-13)])), (Some(1), 0));
    assert_eq!(
        ending(begin(vec![
            Answer::Opened(4),
            Answer::Read(-5, Vec::new()),
            Answer::Closed
        ])),
        (Some(3), 1)
    );
    let mut full = vec![Answer::Opened(4)];
    for _ in 0..17 {
        full.push(Answer::Read(256, vec![b'x'; 256]));
    }
    full.push(Answer::Grown(false));
    full.push(Answer::Closed);
    assert_eq!(ending(begin(full)), (Some(4), 1));
    assert_eq!(
        ending(begin(vec![Answer::Opened(-2), Answer::Grown(false)])),
        (Some(4), 0)
    );
    assert_eq!(
        ending(begin(vec![Answer::Opened(-2), Answer::Grown(true)])),
        (None, 0)
    );
}

#[test]
fn a_session_takes_what_the_keyboard_answers() {
    let layout = Layout {
        rows: 4,
        path: b"/a\0".to_vec(),
    };
    let mut out = Vec::new();
    let mut session = Session::open(buffer(b"one\n"), layout, &mut out);
    let mut silent = vec![0u8; ZDIAG_LEN];
    out.clear();
    session.before_read(0, &silent, &mut out);
    assert!(out.is_empty());
    silent[0] = 5;
    silent[4..9].copy_from_slice(b"hello");
    session.before_read(-1, &silent, &mut out);
    assert!(out.is_empty());
    session.before_read(0, &silent, &mut out);
    assert!(out.windows(5).any(|part| part == b"hello"));
    assert_eq!(session.echo.line(), b"hello");
    out.clear();
    assert_eq!(session.heard(-11, 0, NONE, &mut out), Outcome::Continue);
    assert!(out.is_empty());
    assert_eq!(session.echo.line(), b"hello");
    assert_eq!(session.heard(1, b'i', NONE, &mut out), Outcome::Continue);
    assert_eq!(session.echo.line(), b"");
    out.clear();
    session.before_read(-1, &silent, &mut out);
    assert!(out.windows(6).any(|part| part == b"INSERT"));
    assert_eq!(session.heard(1, b'X', NONE, &mut out), Outcome::Continue);
    assert_eq!(session.heard(1, 0x1b, NONE, &mut out), Outcome::Continue);
    assert_eq!(session.heard(-11, 0, NONE, &mut out), Outcome::Continue);
    out.clear();
    assert_eq!(session.heard(-11, 0, NONE, &mut out), Outcome::Continue);
    assert!(out.is_empty());
    assert_eq!(session.editor.buffer.as_bytes(), b"Xone\n");
    assert_eq!(session.heard(0, 0, NONE, &mut out), Outcome::Quit);
    assert_eq!(out, b"\x1b[?1049l");
}

#[test]
fn an_escape_gives_a_command_up() {
    let mut editor = open(b"abc\n", 10);
    let mut out = Vec::new();
    keys(&mut editor, b":wq");
    editor.show_mode(&mut out);
    keys(&mut editor, b"\x1b");
    out.clear();
    editor.pause(&mut out);
    assert_eq!(editor.mode, Mode::Normal);
    assert!(editor.command.is_empty());
    assert!(out.windows(6).any(|part| part == b"NORMAL"));
    assert!(!out.windows(3).any(|part| part == b":wq"));
    let (_, outcome) = keys(&mut editor, b"\n");
    assert_eq!(outcome, Outcome::Continue);
    let (_, outcome) = keys(&mut editor, b":q\n");
    assert_eq!(outcome, Outcome::Quit);
}

#[test]
fn a_byte_behind_an_escape_is_not_swallowed() {
    let mut editor = open(b"abc\n", 10);
    keys(&mut editor, b"\x1b:");
    assert_eq!(editor.mode, Mode::Command);
    let (_, outcome) = keys(&mut editor, b"q\n");
    assert_eq!(outcome, Outcome::Quit);
    let mut editor = open(b"abc\n", 10);
    let (_, outcome) = keys(&mut editor, b":w\x1b\n");
    assert_eq!(outcome, Outcome::Continue);
    assert_eq!(editor.mode, Mode::Normal);
    keys(&mut editor, b":zz\x1bx");
    assert_eq!(editor.buffer.line(0), b"bc");
    assert!(editor.command.is_empty());
    keys(&mut editor, b":\x1b:");
    assert_eq!(editor.mode, Mode::Command);
}
