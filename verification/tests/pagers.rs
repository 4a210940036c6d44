use zaytos::less::doc::{index_lines, Reading};
use zaytos::less::opening::{Answer, Ask, Opening};
use zaytos::less::pager::{Pager, Step};
use zaytos::less::session::{farewell, Failure};
use zaytos::more::{self, Action, Ending, More, Lines, Pull};
use zaytos::userlib::ZDIAG_LEN;

fn reading(file: &[u8]) -> Reading {
    let mut reading = Reading::new(Ok(file.len() as u64));
    assert!(reading.accept(file));
    reading
}

fn pager(file: &[u8], rows: u16, columns: u16) -> (Pager, Vec<u8>) {
    let doc = index_lines(reading(file), true).unwrap();
    let mut out = Vec::new();
    let pager = Pager::new(doc, rows, columns, &mut out);
    (pager, out)
}

#[test]
fn a_file_is_divided_into_its_lines() {
    let doc = index_lines(reading(b"one\n\nthree"), false).unwrap();
    assert_eq!(doc.count(), 3);
    assert_eq!(doc.line(0), b"one");
    assert_eq!(doc.line(1), b"");
    assert_eq!(doc.line(2), b"three");
    assert_eq!(doc.line(3), b"");
    assert_eq!(index_lines(reading(b""), false).unwrap().count(), 0);
    assert_eq!(index_lines(reading(b"\n"), false).unwrap().count(), 1);
}

#[test]
fn the_last_line_needs_no_line_feed_of_its_own() {
    let mut reading = Reading::new(Ok(3));
    assert!(reading.accept(b"a\nx"));
    let doc = index_lines(reading, false).unwrap();
    assert_eq!(doc.count(), 2);
    assert_eq!(doc.line(1), b"x");
}

#[test]
fn a_file_that_is_longer_than_it_said_is_refused() {
    let mut reading = Reading::new(Ok(3));
    assert_eq!(reading.region(), 4 + 64 * 8);
    assert!(!reading.accept(b"abcd"));
    assert!(reading.accept(b"abc"));
    assert!(!reading.accept(b"\n"));
    assert!(reading.accept(b""));
    assert!(!Reading::new(Err(-2)).accept(b"x"));
}

#[test]
fn a_long_index_asks_for_memory() {
    assert_eq!(reading(&[b'\n'; 63]).growth(), None);
    assert_eq!(reading(&[b'\n'; 64]).growth(), Some(65 + 65 * 8));
    assert!(index_lines(reading(&[b'\n'; 64]), false).is_none());
    assert!(index_lines(reading(&[b'\n'; 64]), true).is_some());
}

#[test]
fn the_first_screen_is_drawn() {
    let (_, out) = pager(b"one\ntwo two\nthree\n", 3, 5);
    assert_eq!(
        out,
        b"\x1b[?1049h\x1b[1;1H\x1b[2Kone\x1b[2;1H\x1b[2Ktwo t\x1b[3;1H\x1b[2K\x1b[38;2;0;200;200mless:\x1b[0m"
            .to_vec()
    );
}

#[test]
fn an_empty_file_has_no_first_line() {
    let (_, out) = pager(b"", 2, 80);
    assert_eq!(
        out,
        b"\x1b[?1049h\x1b[1;1H\x1b[2K\x1b[2;1H\x1b[2K\x1b[38;2;0;200;200mless: lines 0-0 of 0 (q to quit)\x1b[0m"
            .to_vec()
    );
}

fn position(out: &[u8]) -> String {
    let text = String::from_utf8(out.to_vec()).unwrap();
    match text.rfind("less: lines ") {
        Some(at) => text[at + 12..].split(" (").next().unwrap().to_string(),
        None => String::new(),
    }
}

#[test]
fn keys_move_the_window_and_never_the_text() {
    let mut file = Vec::new();
    for number in 0..30 {
        file.extend_from_slice(format!("line {number}\n").as_bytes());
    }
    let (mut pager, out) = pager(&file, 11, 80);
    assert_eq!(position(&out), "1-10 of 30");
    let mut key = |byte: u8| {
        let mut out = Vec::new();
        assert_eq!(pager.heard(1, byte, &mut out), Step::Wait);
        position(&out)
    };
    assert_eq!(key(b'j'), "2-11 of 30");
    assert_eq!(key(b' '), "12-21 of 30");
    assert_eq!(key(b'b'), "2-11 of 30");
    assert_eq!(key(b'k'), "1-10 of 30");
    assert_eq!(key(b'k'), "1-10 of 30");
    assert_eq!(key(b'\x1b'), "");
    assert_eq!(key(b'['), "");
    assert_eq!(key(b'B'), "2-11 of 30");
    key(b'\x1b');
    key(b'[');
    assert_eq!(key(b'A'), "1-10 of 30");
    key(b' ');
    key(b' ');
    assert_eq!(key(b' '), "21-30 of 30");
    assert_eq!(key(b'x'), "21-30 of 30");
    key(b'\x1b');
    assert_eq!(key(b'k'), "20-29 of 30");
}

#[test]
fn leaving_gives_the_screen_back() {
    let (mut first, _) = pager(b"a\n", 5, 80);
    let mut out = Vec::new();
    assert_eq!(first.heard(-11, 0, &mut out), Step::Wait);
    assert!(out.is_empty());
    assert_eq!(first.heard(1, b'q', &mut out), Step::Quit);
    assert_eq!(out, b"\x1b[?1049l".to_vec());
    let (mut second, _) = pager(b"a\n", 5, 80);
    out.clear();
    assert_eq!(second.heard(0, 0, &mut out), Step::Quit);
    assert_eq!(out, b"\x1b[?1049l".to_vec());
}

#[test]
fn a_kept_error_takes_the_place_of_the_position() {
    let (mut pager, _) = pager(b"a\n", 3, 6);
    let mut raw = vec![0u8; ZDIAG_LEN];
    raw[0] = 9;
    raw[4..13].copy_from_slice(b"too wide\n");
    let mut out = Vec::new();
    pager.take_echo(0, &raw, &mut out);
    assert_eq!(out, b"\x1b[3;1H\x1b[2Ktoo wi".to_vec());
    out.clear();
    pager.take_echo(-1, &raw, &mut out);
    assert!(out.is_empty());
    pager.heard(1, b'x', &mut out);
    assert!(position(&out).is_empty());
    assert!(out.ends_with(b"less: \x1b[0m"));
}

#[test]
fn less_says_why_it_ends() {
    assert_eq!(farewell(Failure::Usage), (b"less: usage: less <path>\n".to_vec(), 2));
    assert_eq!(farewell(Failure::Open), (b"less: cannot open\n".to_vec(), 1));
    assert_eq!(farewell(Failure::Read), (b"less: read failed\n".to_vec(), 3));
    assert_eq!(farewell(Failure::Memory), (b"less: out of memory\n".to_vec(), 6));
}

fn lines_of(pieces: &[&[u8]]) -> Vec<Vec<u8>> {
    let mut lines = Lines::new();
    let mut next = 0usize;
    let mut all = Vec::new();
    loop {
        match lines.next() {
            Pull::Read => {
                if next < pieces.len() {
                    lines.feed(pieces[next].len() as i64, pieces[next]);
                } else {
                    lines.feed(0, &[]);
                }
                next += 1;
            }
            Pull::Line(text) => all.push(text),
            Pull::End => return all,
        }
    }
}

#[test]
fn lines_do_not_depend_on_the_pieces_they_arrive_in() {
    let want = vec![b"one".to_vec(), b"".to_vec(), b"three".to_vec()];
    assert_eq!(lines_of(&[b"one\n\nthree"]), want);
    assert_eq!(lines_of(&[b"o", b"ne", b"\n\nth", b"ree"]), want);
    assert_eq!(lines_of(&[b"one\n", b"\n", b"three\n"]), want);
    assert!(lines_of(&[]).is_empty());
}

#[test]
fn a_long_line_is_cut() {
    let long = [b'x'; 600];
    let lines = lines_of(&[&long, b"y\nz"]);
    assert_eq!(lines[0].len(), 512);
    assert_eq!(lines[1], b"z".to_vec());
}

#[test]
fn a_failed_read_ends_the_file() {
    let mut lines = Lines::new();
    lines.feed(3, b"a\nb");
    assert!(matches!(lines.next(), Pull::Line(_)));
    assert!(matches!(lines.next(), Pull::Read));
    lines.feed(-5, &[]);
    assert!(lines.error());
    assert!(matches!(lines.next(), Pull::Line(text) if text == b"b".to_vec()));
    assert!(matches!(lines.next(), Pull::End));
}

#[test]
fn pages_are_shown_one_by_one() {
    let mut more = More::new(3);
    let mut out = Vec::new();
    assert_eq!(more.advance(&mut out), Action::Read);
    more.feed(10, b"1\n2\n3\n4\n5\n");
    assert_eq!(more.advance(&mut out), Action::Ask);
    assert_eq!(out, b"1\n2\n--More--".to_vec());
    out.clear();
    assert_eq!(more.answer(-11, 0, &mut out), Action::Ask);
    assert_eq!(more.answer(1, b'x', &mut out), Action::Ask);
    assert!(out.is_empty());
    assert_eq!(more.answer(1, b' ', &mut out), Action::Ask);
    assert_eq!(out, b"\r\x1b[2K3\n4\n--More--".to_vec());
    out.clear();
    assert_eq!(more.answer(1, b' ', &mut out), Action::Read);
    more.feed(0, &[]);
    assert_eq!(more.advance(&mut out), Action::End);
    assert_eq!(out, b"\r\x1b[2K5\n".to_vec());
    assert!(!more.error());
}

#[test]
fn a_page_has_at_least_one_line() {
    let mut more = More::new(0);
    let mut out = Vec::new();
    more.feed(4, b"1\n2\n");
    assert_eq!(more.advance(&mut out), Action::Ask);
    assert_eq!(out, b"1\n--More--".to_vec());
    out.clear();
    assert_eq!(more.answer(1, b'q', &mut out), Action::End);
    assert_eq!(out, b"\r\x1b[2K".to_vec());
    assert_eq!(more.answer(0, 0, &mut out), Action::End);
}

#[test]
fn more_says_why_it_ends() {
    assert_eq!(
        more::farewell(Ending::Usage),
        (b"more: usage: more <path>\n".to_vec(), 2)
    );
    assert_eq!(more::farewell(Ending::Open), (b"more: cannot open\n".to_vec(), 1));
    assert_eq!(more::farewell(Ending::Read), (b"more: read failed\n".to_vec(), 3));
    assert_eq!(more::farewell(Ending::Done), (Vec::new(), 0));
}

fn opened(answers: Vec<Answer>) -> (Opening, Vec<Ask>) {
    let mut opening = Opening::new();
    let mut asked = Vec::new();
    for answer in answers {
        asked.push(opening.ask());
        opening = opening.answer(answer);
    }
    asked.push(opening.ask());
    (opening, asked)
}

#[test]
fn a_text_is_opened_step_by_step() {
    let (opening, asked) = opened(vec![
        Answer::Size(Ok(7)),
        Answer::Reserved(true),
        Answer::Opened(3),
        Answer::Read(4, b"one\n".to_vec()),
        Answer::Read(3, b"two".to_vec()),
        Answer::Read(0, Vec::new()),
        Answer::Closed,
    ]);
    assert_eq!(
        asked,
        vec![
            Ask::Size,
            Ask::Reserve(8 + 64 * 8),
            Ask::Open,
            Ask::Read(3),
            Ask::Read(3),
            Ask::Read(3),
            Ask::Close(3),
            Ask::Done,
        ]
    );
    let doc = opening.finish().ok().unwrap();
    assert_eq!(doc.count(), 2);
    assert_eq!(doc.line(1), b"two");
}

#[test]
fn a_text_of_many_lines_asks_for_a_larger_index() {
    let (opening, asked) = opened(vec![
        Answer::Size(Ok(64)),
        Answer::Reserved(true),
        Answer::Opened(3),
        Answer::Read(64, vec![b'\n'; 64]),
        Answer::Read(0, Vec::new()),
        Answer::Closed,
        Answer::Grown(true),
    ]);
    assert_eq!(asked[6], Ask::Grow(65 + 65 * 8));
    assert_eq!(opening.finish().ok().unwrap().count(), 64);
}

#[test]
fn a_text_that_cannot_be_shown_whole_is_not_shown() {
    let failure = |answers: Vec<Answer>| {
        let (opening, asked) = opened(answers);
        assert_eq!(asked.last(), Some(&Ask::Done));
        let closed = asked.iter().filter(|ask| **ask == Ask::Close(3)).count();
        (opening.finish().err(), closed)
    };
    let memory = Some(Failure::Memory);
    assert_eq!(failure(vec![Answer::Size(Ok(u64::MAX))]), (memory, 0));
    assert_eq!(failure(vec![Answer::Size(Ok(0)), Answer::Reserved(false)]), (memory, 0));
    assert_eq!(
        failure(vec![Answer::Size(Err(-2)), Answer::Reserved(true), Answer::Opened(-2)]),
        (Some(Failure::Open), 0)
    );
    for wrong in [Answer::Read(-5, Vec::new()), Answer::Read(3, b"ab\n".to_vec())] {
        assert_eq!(
            failure(vec![
                Answer::Size(Ok(2)),
                Answer::Reserved(true),
                Answer::Opened(3),
                wrong,
                Answer::Closed,
            ]),
            (Some(Failure::Read), 1)
        );
    }
    assert_eq!(
        failure(vec![
            Answer::Size(Ok(64)),
            Answer::Reserved(true),
            Answer::Opened(3),
            Answer::Read(64, vec![b'\n'; 64]),
            Answer::Read(0, Vec::new()),
            Answer::Closed,
            Answer::Grown(false),
        ]),
        (memory, 1)
    );
}
