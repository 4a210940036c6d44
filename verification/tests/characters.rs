use zaytos::chars::{cut_position, settle_before, settle_behind, step_left, step_right};
use zaytos::less::doc::{index_lines, Reading};
use zaytos::less::pager::Pager;
use zaytos::tools::sh::Sh;
use zaytos::zash::edit::Editor as Line;
use zaytos::zi::buffer::{self, Buffer, Grants, INDEX_INITIAL, REGION_LIMIT};
use zaytos::zi::draw::Layout;
use zaytos::zi::editor::{Editor, Outcome};

const ALL: Grants = Grants {
    text: true,
    index: true,
};

/// A character of three bytes, and one of four.
const A: &[u8] = "\u{3042}".as_bytes();
const SMILE: &[u8] = "\u{1f600}".as_bytes();

fn text(file: &[u8]) -> Buffer {
    let mut reading = buffer::Reading::new(REGION_LIMIT, 8192, INDEX_INITIAL).unwrap();
    assert!(reading.accept(file, false));
    buffer::index_lines(reading, ALL).unwrap()
}

fn open(file: &[u8]) -> Editor {
    let layout = Layout {
        rows: 10,
        path: b"/tmp/a\0".to_vec(),
    };
    Editor::open(text(file), layout, &mut Vec::new())
}

fn keys(editor: &mut Editor, keys: &[u8]) {
    for key in keys {
        assert_eq!(editor.key(*key, ALL, &mut Vec::new()), Outcome::Continue);
    }
}

#[test]
fn steps_go_over_whole_characters() {
    let line = b"a\xe3\x81\x82\xc3\xa9b";
    let mut stops = vec![0];
    while *stops.last().unwrap() < line.len() {
        stops.push(step_right(line, *stops.last().unwrap()));
    }
    assert_eq!(stops, vec![0, 1, 4, 6, 7]);
    let mut back = vec![line.len()];
    while *back.last().unwrap() > 0 {
        back.push(step_left(line, *back.last().unwrap()));
    }
    back.reverse();
    assert_eq!(back, stops);
    assert_eq!(step_right(line, 7), 7);
    assert_eq!(step_left(line, 0), 0);
    assert_eq!((settle_before(line, 3), settle_behind(line, 3)), (1, 4));
    assert_eq!((settle_before(line, 4), settle_behind(line, 4)), (4, 4));
}

#[test]
fn a_line_is_cut_between_characters() {
    let line = b"a\xe3\x81\x82b";
    let cuts: Vec<usize> = (0..7).map(|room| cut_position(line, room)).collect();
    assert_eq!(cuts, vec![0, 1, 1, 1, 4, 5, 5]);
    assert_eq!(cut_position(SMILE, 3), 0);
    assert_eq!(cut_position(b"\x80\x80\x80\x80\x80\x80", 5), 5);
}

#[test]
fn the_editor_moves_by_characters() {
    let mut editor = open(b"\xe3\x81\x82b\nxyz\n");
    keys(&mut editor, b"i\x1b[C");
    assert_eq!(editor.col, 3);
    keys(&mut editor, b"\x1b[C");
    assert_eq!(editor.col, 4);
    keys(&mut editor, b"\x1b[C");
    assert_eq!(editor.col, 4);
    keys(&mut editor, b"\x1b[D\x1b[D");
    assert_eq!(editor.col, 0);
    keys(&mut editor, b"\x1b");
    editor.pause(&mut Vec::new());
    keys(&mut editor, b"l");
    assert_eq!(editor.col, 3);
    keys(&mut editor, b"l");
    assert_eq!(editor.col, 3);
    keys(&mut editor, b"h");
    assert_eq!(editor.col, 0);
    keys(&mut editor, b"jllk");
    assert_eq!((editor.row, editor.col), (0, 0));
}

#[test]
fn the_editor_does_not_rest_inside_the_last_character() {
    let mut editor = open(b"a\xe3\x81\x82\n");
    keys(&mut editor, b"lll");
    assert_eq!(editor.col, 1);
    keys(&mut editor, b"aZ");
    assert_eq!(editor.buffer.line(0), b"a\xe3\x81\x82Z");
    keys(&mut editor, b"\x08");
    assert_eq!(editor.col, 4);
    keys(&mut editor, b"\x1b");
    editor.pause(&mut Vec::new());
    assert_eq!(editor.col, 1);
}

#[test]
fn the_editor_removes_whole_characters() {
    let mut editor = open(b"a\xe3\x81\x82\xc3\xa9b\n");
    keys(&mut editor, b"lx");
    assert_eq!(editor.buffer.line(0), b"a\xc3\xa9b");
    keys(&mut editor, b"\x1b[3~");
    assert_eq!(editor.buffer.line(0), b"ab");
    keys(&mut editor, b"i");
    keys(&mut editor, A);
    assert_eq!((editor.buffer.line(0), editor.col), (&b"a\xe3\x81\x82b"[..], 4));
    keys(&mut editor, SMILE);
    assert_eq!(editor.col, 8);
    keys(&mut editor, b"\x08");
    assert_eq!((editor.buffer.line(0), editor.col), (&b"a\xe3\x81\x82b"[..], 4));
    keys(&mut editor, b"\x08\x08");
    assert_eq!((editor.buffer.line(0), editor.col), (&b"b"[..], 0));
}

#[test]
fn joined_bytes_that_become_a_character_leave_the_cursor_behind_it() {
    let mut editor = open(b"\xe3\n\x81\x82b\n");
    keys(&mut editor, b"ji\x08");
    assert_eq!((editor.buffer.line(0), editor.col), (&b"\xe3\x81\x82b"[..], 3));
    let mut editor = open(b"\x81\x82b\n");
    keys(&mut editor, b"i\xe3");
    assert_eq!((editor.buffer.line(0), editor.col), (&b"\xe3\x81\x82b"[..], 3));
}

fn typed(line: &mut Line, keys: &[u8]) -> (Vec<u8>, Option<Vec<u8>>) {
    let mut out = Vec::new();
    let mut ended = None;
    for key in keys {
        ended = line.key(*key, &mut out);
    }
    (out, ended)
}

#[test]
fn the_shell_moves_and_erases_by_characters() {
    let mut line = Line::new(false);
    typed(&mut line, b"a\xe3\x81\x82b");
    let (out, _) = typed(&mut line, b"\x1b[D\x1b[D");
    assert_eq!(out, b"\x08\x08\x08\x08");
    let (out, _) = typed(&mut line, b"\x1b[C");
    assert_eq!(out, A);
    let (out, _) = typed(&mut line, b"\x08");
    assert_eq!(out, b"\x08\x08\x08b   \x08\x08\x08\x08");
    let (_, ended) = typed(&mut line, b"\n");
    assert_eq!(ended, Some(b"ab".to_vec()));
    typed(&mut line, b"\xe3\x81\x82b\x01\x1b[3~");
    let (_, ended) = typed(&mut line, b"\n");
    assert_eq!(ended, Some(b"b".to_vec()));
    typed(&mut line, b"\xe3\x81\x82b\x01\x04x");
    let (_, ended) = typed(&mut line, b"\n");
    assert_eq!(ended, Some(b"xb".to_vec()));
}

#[test]
fn the_first_shell_erases_whole_characters() {
    let mut out = Vec::new();
    let mut shell = Sh::new(&mut out);
    for byte in b"a\xe3\x81\x82" {
        shell.heard(1, *byte, &mut out);
    }
    out.clear();
    shell.heard(1, 8, &mut out);
    assert_eq!(out, b"\x08\x08\x08   \x08\x08\x08");
    out.clear();
    shell.heard(1, 8, &mut out);
    assert_eq!(out, b"\x08 \x08");
    out.clear();
    shell.heard(1, 8, &mut out);
    assert!(out.is_empty());
}

#[test]
fn the_pager_cuts_rows_between_characters() {
    let file = b"ab\xe3\x81\x82\n";
    let mut reading = Reading::new(Ok(file.len() as u64));
    assert!(reading.accept(file));
    let doc = index_lines(reading, true).unwrap();
    let mut out = Vec::new();
    Pager::new(doc, 2, 4, &mut out);
    assert!(out.windows(3).any(|part| part == b"Kab"));
    assert!(!out.contains(&0xe3));
}

#[test]
fn a_long_name_is_cut_between_characters() {
    let mut path = vec![b'n'; 92];
    path.extend_from_slice(A);
    path.push(0);
    let layout = Layout { rows: 10, path };
    let mut out = Vec::new();
    Editor::open(text(b""), layout, &mut out);
    assert!(out.windows(93).any(|part| part.iter().take(92).all(|byte| *byte == b'n')));
    assert!(!out.contains(&0xe3));
}
