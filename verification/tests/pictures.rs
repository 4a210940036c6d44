use zaytos::less::doc::{index_lines as index_doc, Reading as DocReading};
use zaytos::less::pager::Pager;
use zaytos::zi::buffer::{index_lines, Grants, Reading, INDEX_INITIAL, REGION_LIMIT};
use zaytos::zi::draw::Layout;
use zaytos::zi::editor::Editor;

const ALL: Grants = Grants {
    text: true,
    index: true,
};

/// A terminal that knows the sequences that the programs draw with.
struct Screen {
    rows: Vec<Vec<u8>>,
    row: usize,
    col: usize,
}

impl Screen {
    fn new(rows: usize) -> Self {
        Screen {
            rows: vec![b"stale".to_vec(); rows],
            row: 0,
            col: 0,
        }
    }

    fn command(&mut self, parameters: &[u8], last: u8) {
        match last {
            b'H' => {
                let text = String::from_utf8(parameters.to_vec()).unwrap();
                let (row, col) = text.split_once(';').unwrap();
                self.row = row.parse::<usize>().unwrap() - 1;
                self.col = col.parse::<usize>().unwrap() - 1;
            }
            b'K' => self.rows[self.row].clear(),
            b'J' => {
                for row in &mut self.rows {
                    row.clear();
                }
            }
            b'M' => {
                self.rows.remove(self.row);
                self.rows.push(Vec::new());
            }
            b'L' => {
                self.rows.insert(self.row, Vec::new());
                self.rows.pop();
            }
            b'm' | b'h' => {}
            _ => panic!("an unknown sequence"),
        }
    }

    fn feed(&mut self, bytes: &[u8]) {
        let mut at = 0;
        while at < bytes.len() {
            if bytes[at] == 0x1b {
                assert_eq!(bytes[at + 1], b'[');
                let begin = at + 2;
                let mut end = begin;
                while !(0x40..0x7f).contains(&bytes[end]) {
                    end += 1;
                }
                let parameters = bytes[begin..end].to_vec();
                self.command(&parameters, bytes[end]);
                at = end + 1;
            } else {
                let row = &mut self.rows[self.row];
                while row.len() <= self.col {
                    row.push(b' ');
                }
                row[self.col] = bytes[at];
                self.col += 1;
                at += 1;
            }
        }
    }
}

fn open(file: &[u8], rows: usize) -> (Editor, Screen) {
    let mut reading = Reading::new(REGION_LIMIT, 8192, INDEX_INITIAL).unwrap();
    assert!(reading.accept(file, false));
    let layout = Layout {
        rows,
        path: b"/tmp/a\0".to_vec(),
    };
    let mut out = Vec::new();
    let editor = Editor::open(index_lines(reading, ALL).unwrap(), layout, &mut out);
    let mut screen = Screen::new(rows);
    screen.feed(&out);
    (editor, screen)
}

fn expect_text(editor: &Editor, screen: &Screen, rows: usize) {
    for row in 0..rows - 2 {
        let line = editor.window.top + row;
        let text: &[u8] = if line < editor.buffer.count() {
            editor.buffer.line(line)
        } else {
            b""
        };
        assert_eq!(screen.rows[row], text, "row {row}");
    }
    assert_eq!(screen.row, editor.row - editor.window.top);
    assert_eq!(screen.col, editor.col);
}

#[test]
fn the_screen_follows_the_text_key_by_key() {
    let rows = 5;
    let (mut editor, mut screen) = open(b"one\ntwo\nthree\nfour\nfive\nsix\n", rows);
    expect_text(&editor, &screen, rows);
    let keys = b"jjjjlliXY\nZ\x08\x08\x1bkkkkkax\x08\x1bjjjxx\x1b[B\x1b[B\x1b[A\x1b[3~:zz\njjkk";
    for key in keys {
        let mut out = Vec::new();
        editor.show_mode(&mut out);
        editor.key(*key, ALL, &mut out);
        screen.feed(&out);
        expect_text(&editor, &screen, rows);
    }
    let mut out = Vec::new();
    editor.saved(false, true, &mut out);
    screen.feed(&out);
    expect_text(&editor, &screen, rows);
    assert_eq!(screen.rows[rows - 1], b"written");
}

#[test]
fn scrolling_by_one_shows_what_drawing_everything_shows() {
    let rows = 4;
    let (mut editor, mut screen) = open(b"a\nb\nc\nd\n", rows);
    let mut out = Vec::new();
    editor.key(b'j', ALL, &mut out);
    editor.key(b'j', ALL, &mut out);
    screen.feed(&out);
    assert_eq!(screen.rows[0], b"b");
    assert_eq!(screen.rows[1], b"c");
    assert_eq!(screen.rows[2], b"-- NORMAL  -- /tmp/a 3:1");
    assert_eq!(screen.rows[3], b"");
    out.clear();
    editor.key(b'k', ALL, &mut out);
    editor.key(b'k', ALL, &mut out);
    screen.feed(&out);
    assert_eq!(screen.rows[0], b"a");
    assert_eq!(screen.rows[1], b"b");
    assert_eq!(screen.rows[2], b"-- NORMAL  -- /tmp/a 1:1");
}

#[test]
fn a_line_that_changes_is_drawn_alone_and_shows_everything() {
    let rows = 5;
    let (mut editor, mut screen) = open(b"one\ntwo\n", rows);
    let mut out = Vec::new();
    editor.key(b'i', ALL, &mut out);
    editor.key(b'X', ALL, &mut out);
    screen.feed(&out);
    assert_eq!(screen.rows[0], b"Xone");
    assert_eq!(screen.rows[1], b"two");
    assert_eq!(screen.rows[2], b"");
    assert_eq!(screen.rows[3], b"-- INSERT  -- /tmp/a 1:2 [+]");
    assert_eq!((screen.row, screen.col), (0, 1));
}

#[test]
fn the_screen_follows_the_window_of_the_pager() {
    let rows = 4u16;
    let lines: [&[u8]; 6] = [b"one", b"two", b"a long line", b"four", b"five", b"six"];
    let file = lines.join(&b'\n');
    let mut reading = DocReading::new(Ok(file.len() as u64));
    assert!(reading.accept(&file));
    let doc = index_doc(reading, true).unwrap();
    let mut out = Vec::new();
    let mut pager = Pager::new(doc, rows, 6, &mut out);
    let mut screen = Screen::new(rows as usize);
    screen.feed(&out);
    let mut top = 0usize;
    let steps: [(&[u8], usize); 9] = [
        (b"", 0),
        (b"j", 1),
        (b"k", 0),
        (b" ", 3),
        (b"j", 3),
        (b"b", 0),
        (b"\x1b[B", 1),
        (b"\x1b[A", 0),
        (b"?", 0),
    ];
    for (keys, expected) in steps {
        for key in keys {
            out.clear();
            pager.heard(1, *key, &mut out);
            screen.feed(&out);
        }
        top = expected;
        for row in 0..3 {
            let line = lines[top + row];
            assert_eq!(screen.rows[row], line[..line.len().min(6)]);
        }
    }
    assert_eq!(top, 0);
    assert_eq!(screen.rows[3], b"less: ");
}
