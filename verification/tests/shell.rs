use zaytos::startup::{build_initial_stack, Start, PAGE};
use zaytos::userlib::MINUS_ENOENT;
use zaytos::zash::edit::{word_start, Editor};
use zaytos::zash::expand::{expand_line, expand_word};
use zaytos::zash::run::{report, run_line, spawn_via_path, write_decimal, Search};
use zaytos::zash::session::{decide_prompt_color, heard, Heard, Shell, Step};

fn start(envp: &[&[u8]]) -> Start {
    let lines: Vec<Vec<u8>> = envp.iter().map(|line| line.to_vec()).collect();
    let mut page = vec![0u8; PAGE];
    let stack = build_initial_stack(&mut page, 0x7f_f000, &[b"zash".to_vec()], &lines).unwrap();
    Start {
        page,
        page_base: 0x7f_f000,
        stack,
    }
}

fn typed(editor: &mut Editor, keys: &[u8]) -> (Vec<u8>, Option<Vec<u8>>) {
    let mut out = Vec::new();
    let mut ended = None;
    for key in keys {
        if let Some(line) = editor.key(*key, &mut out) {
            ended = Some(line);
        }
    }
    (out, ended)
}

#[test]
fn a_typed_line_is_shown_and_ended() {
    let mut editor = Editor::new(false);
    let (out, ended) = typed(&mut editor, b"echo hi\n");
    assert_eq!(out, b"echo hi\n".to_vec());
    assert_eq!(ended, Some(b"echo hi".to_vec()));
}

#[test]
fn a_byte_is_put_in_where_the_cursor_is() {
    let mut editor = Editor::new(false);
    let (out, ended) = typed(&mut editor, b"ac\x1b[Db\n");
    assert_eq!(out, b"ac\x08bc\x08\n".to_vec());
    assert_eq!(ended, Some(b"abc".to_vec()));
}

#[test]
fn erasing_takes_back_what_was_typed() {
    let mut editor = Editor::new(false);
    let (out, ended) = typed(&mut editor, b"ab\x08\n");
    assert_eq!(out, b"ab\x08 \x08\n".to_vec());
    assert_eq!(ended, Some(b"a".to_vec()));
}

#[test]
fn keys_move_and_delete() {
    let mut editor = Editor::new(false);
    let (_, ended) = typed(&mut editor, b"one two  \x17\n");
    assert_eq!(ended, Some(b"one ".to_vec()));
    let (_, ended) = typed(&mut editor, b"abcdef\x01\x04\x05\x02\x0b\n");
    assert_eq!(ended, Some(b"bcde".to_vec()));
    let (_, ended) = typed(&mut editor, b"abc\x02\x15\n");
    assert_eq!(ended, Some(b"c".to_vec()));
    let (_, ended) = typed(&mut editor, b"xyz\x1b[1~\x1b[3~\x1b[4~!\n");
    assert_eq!(ended, Some(b"yz!".to_vec()));
    let (_, ended) = typed(&mut editor, b"\x1b[5~a\x1bb\x1b[zc\n");
    assert_eq!(ended, Some(b"abzc".to_vec()));
    assert_eq!(word_start(b"one two  ", 9), 4);
}

#[test]
fn a_line_has_room_for_so_much_and_no_more() {
    let mut editor = Editor::new(false);
    let (_, ended) = typed(&mut editor, &[b'a'; 127]);
    assert_eq!(ended, None);
    let (out, ended) = typed(&mut editor, b"a\n");
    assert_eq!(out, b"\nzash: line too long\n".to_vec());
    assert_eq!(ended, Some(Vec::new()));
    let (_, ended) = typed(&mut editor, b"ok\n");
    assert_eq!(ended, Some(b"ok".to_vec()));
    typed(&mut editor, &[b'a'; 127]);
    let (out, ended) = typed(&mut editor, b"\n");
    assert_eq!(out, b"\n".to_vec());
    assert_eq!(ended.map(|line| line.len()), Some(127));
}

#[test]
fn lines_come_back_newest_first() {
    let mut editor = Editor::new(false);
    typed(&mut editor, b"one\ntwo\ntwo\n\n");
    let (out, _) = typed(&mut editor, b"dr\x1b[A");
    assert_eq!(out, b"dr\x08\x08  \x08\x08two".to_vec());
    let (_, ended) = typed(&mut editor, b"\x10\n");
    assert_eq!(ended, Some(b"one".to_vec()));
    let (_, ended) = typed(&mut editor, b"draft\x10\x10\x0e\x0e!\n");
    assert_eq!(ended, Some(b"draft!".to_vec()));
}

#[test]
fn only_so_many_lines_are_remembered() {
    let mut editor = Editor::new(false);
    for number in 0..20u8 {
        typed(&mut editor, &[b'a' + number, b'\n']);
    }
    let (_, ended) = typed(&mut editor, b"\x10\x10\x10\x10\x10\x10\x10\x10\x10\x10\x10\x10\x10\x10\x10\x10\x10\x10\n");
    assert_eq!(ended, Some(b"e".to_vec()));
}

#[test]
fn a_line_can_be_given_up_and_the_screen_drawn_anew() {
    let mut editor = Editor::new(true);
    let (out, ended) = typed(&mut editor, b"abc\x03");
    assert_eq!(
        out,
        b"abc^C\n\x1b[38;2;0;200;0mzaytos\x1b[0m$ ".to_vec()
    );
    assert_eq!(ended, None);
    let mut editor = Editor::new(false);
    let (out, _) = typed(&mut editor, b"ab\x02\x0c\x07");
    assert_eq!(out, b"ab\x08\x1b[2J\x1b[Hzaytos$ ab\x08".to_vec());
}

#[test]
fn the_screen_row_shows_the_line_after_every_key() {
    let mut editor = Editor::new(false);
    let mut cells = vec![b' '; 128];
    let mut at = 0usize;
    for key in b"hello world\x02\x02\x08\x01X\x06\x06\x0b\x10\x0e ab \x17".iter() {
        let mut out = Vec::new();
        editor.key(*key, &mut out);
        for byte in out {
            if byte == 8 {
                at -= 1;
            } else {
                cells[at] = byte;
                at += 1;
            }
        }
    }
    assert_eq!(&cells[..12], b"Xhe         ");
    assert_eq!(at, 4);
    let (_, ended) = typed(&mut editor, b"\n");
    assert_eq!(ended, Some(b"Xhe ".to_vec()));
}

#[test]
fn words_are_expanded() {
    let start = start(&[b"HOME=/root", b"A=1", b"_B2=two words", b"E="]);
    let expand = |word: &[u8]| expand_word(&start, word);
    assert_eq!(expand(b"plain"), Some(b"plain".to_vec()));
    assert_eq!(expand(b"$A$A"), Some(b"11".to_vec()));
    assert_eq!(expand(b"x$_B2-"), Some(b"xtwo words-".to_vec()));
    assert_eq!(expand(b"$NONE$E"), Some(b"".to_vec()));
    assert_eq!(expand(b"$1$"), Some(b"$1$".to_vec()));
    assert_eq!(expand(b"~"), Some(b"/root".to_vec()));
    assert_eq!(expand(b"~/x"), Some(b"/root/x".to_vec()));
    assert_eq!(expand(b"~x"), Some(b"~x".to_vec()));
    assert_eq!(expand(b"a~"), Some(b"a~".to_vec()));
    assert_eq!(expand(&[b'a'; 129]), None);
}

#[test]
fn without_a_home_the_tilde_stays() {
    let start = start(&[b"A=1"]);
    assert_eq!(expand_word(&start, b"~/x"), Some(b"~/x".to_vec()));
}

#[test]
fn a_line_is_expanded_word_by_word() {
    let start = start(&[b"A=1", b"L=0123456789012345678901234567890123456789"]);
    assert_eq!(
        expand_line(&start, b"  echo   $A $NONE  b "),
        Some(vec![b"echo".to_vec(), b"1".to_vec(), b"b".to_vec()])
    );
    assert_eq!(expand_line(&start, b"   "), Some(Vec::new()));
    assert_eq!(expand_line(&start, b"$L$L$L$L"), None);
    assert_eq!(expand_line(&start, b"$L $L $L $L"), None);
    assert_eq!(
        expand_line(&start, b"$L $L $L").map(|words| words.len()),
        Some(3)
    );
    assert!(expand_line(&start, b"$L $L $L 12345").is_some());
    assert!(expand_line(&start, b"$L $L $L 123456").is_none());
}

#[test]
fn a_line_has_at_most_eight_words() {
    let split = |line: &[u8]| run_line(&expand_line(&start(&[]), line).unwrap());
    assert_eq!(
        split(b" a bb  c"),
        vec![b"a".to_vec(), b"bb".to_vec(), b"c".to_vec()]
    );
    assert!(split(b"   ").is_empty());
    assert_eq!(run_line(&[b"a\0b".to_vec()]), vec![b"a".to_vec()]);
    let words = split(b"1 2 3 4 5 6 7 8 9 10");
    assert_eq!(words.len(), 8);
    assert_eq!(words[7], b"8".to_vec());
}

#[test]
fn a_space_in_a_value_makes_no_word() {
    let start = start(&[b"V=x y", b"S= ", b"E="]);
    assert_eq!(
        expand_line(&start, b"echo $V"),
        Some(vec![b"echo".to_vec(), b"x y".to_vec()])
    );
    assert_eq!(
        expand_line(&start, b"a$V $E$S $E b"),
        Some(vec![b"ax y".to_vec(), b" ".to_vec(), b"b".to_vec()])
    );
    let mut out = Vec::new();
    let mut shell = Shell::new(start, &mut out);
    let mut steps = Vec::new();
    for key in b"echo $V\n" {
        steps.push(shell.key(*key, &mut out));
    }
    match steps.pop() {
        Some(Step::Run(argv)) => assert_eq!(argv, vec![b"echo".to_vec(), b"x y".to_vec()]),
        _ => panic!("the line runs a program"),
    }
}

#[test]
fn a_command_is_looked_for_in_the_directories_of_the_path() {
    assert_eq!(
        spawn_via_path(b"ls", Some(b"/bin:/usr/bin/::/x")),
        vec![
            b"/bin/ls".to_vec(),
            b"/usr/bin/ls".to_vec(),
            b"/x/ls".to_vec()
        ]
    );
    assert_eq!(
        spawn_via_path(b"./ls", Some(b"/bin")),
        vec![b"./ls".to_vec()]
    );
    assert!(spawn_via_path(b"ls", None).is_empty());
    assert!(spawn_via_path(&[b'n'; 33], Some(b"/bin")).is_empty());
    assert!(spawn_via_path(b"ls", Some(&[b'd'; 33])).is_empty());
}

#[test]
fn the_first_program_that_is_there_is_started() {
    let mut search = Search::new(b"ls", Some(b"/a:/b:/c"));
    assert_eq!(search.next(), Some(&b"/a/ls"[..]));
    search.answer(MINUS_ENOENT);
    assert_eq!(search.next(), Some(&b"/b/ls"[..]));
    search.answer(3);
    assert_eq!(search.next(), None);
    assert_eq!(search.status(), 3);
    let mut search = Search::new(b"ls", Some(b"/a"));
    search.answer(MINUS_ENOENT);
    assert_eq!(search.next(), None);
    assert_eq!(search.status(), MINUS_ENOENT);
    assert_eq!(Search::new(b"ls", None).status(), MINUS_ENOENT);
}

#[test]
fn what_came_of_a_program_is_said() {
    let said = report(b"ls", -2);
    assert_eq!((said.out, said.err), (vec![], b"zash: ls: cannot run\n".to_vec()));
    let said = report(b"ls", 0x200);
    assert_eq!(said.out, b"interrupted\n".to_vec());
    let said = report(b"ls", 7);
    assert_eq!(said.out, b"zash: exit status 7\n".to_vec());
    let said = report(b"ls", 0);
    assert!(said.out.is_empty() && said.err.is_empty());
    let mut out = Vec::new();
    write_decimal(12005, &mut out);
    assert_eq!(out, b"005".to_vec());
}

#[test]
fn the_shell_runs_lines_and_prompts() {
    let mut out = Vec::new();
    let mut shell = Shell::new(start(&[b"TERM=zaytos", b"PATH=/bin", b"A=x"]), &mut out);
    let prompt = b"\x1b[38;2;0;200;0mzaytos\x1b[0m$ ".to_vec();
    let mut want = b"zash: ready\n".to_vec();
    want.extend_from_slice(&prompt);
    assert_eq!(out, want);
    out.clear();
    let mut step = Step::Wait;
    for key in b"echo $A\n".iter() {
        step = shell.key(*key, &mut out);
    }
    assert_eq!(out, b"echo $A\n".to_vec());
    let argv = match step {
        Step::Run(argv) => argv,
        _ => panic!("a program should start"),
    };
    assert_eq!(argv, vec![b"echo".to_vec(), b"x".to_vec()]);
    let search = shell.search(&argv[0]);
    assert_eq!(search.next(), Some(&b"/bin/echo"[..]));
    let said = shell.ended(&argv[0], 1);
    let mut want = b"zash: exit status 1\n".to_vec();
    want.extend_from_slice(&prompt);
    assert_eq!(said.out, want);
    out.clear();
    assert!(matches!(shell.key(b'\n', &mut out), Step::Wait));
    let mut want = b"\n".to_vec();
    want.extend_from_slice(&prompt);
    assert_eq!(out, want);
    for key in b" exit now".iter() {
        shell.key(*key, &mut out);
    }
    assert!(matches!(shell.key(b'\n', &mut out), Step::Exit));
}

#[test]
fn a_line_that_gets_too_long_when_expanded_is_refused() {
    let mut out = Vec::new();
    let mut shell = Shell::new(
        start(&[b"L=0123456789012345678901234567890123456789"]),
        &mut out,
    );
    out.clear();
    for key in b"$L$L$L$L\n".iter() {
        shell.key(*key, &mut out);
    }
    assert_eq!(
        out,
        b"$L$L$L$L\nzash: line too long\nzaytos$ ".to_vec()
    );
}

#[test]
fn the_prompt_is_coloured_on_the_own_terminal_only() {
    assert!(decide_prompt_color(&start(&[b"TERM=zaytos"])));
    assert!(!decide_prompt_color(&start(&[b"TERM=zaytos2"])));
    assert!(!decide_prompt_color(&start(&[b"TERM=zay"])));
    assert!(!decide_prompt_color(&start(&[b"A=1"])));
}

#[test]
fn the_keyboard_can_be_silent_or_gone() {
    assert_eq!(heard(-11), Heard::Again);
    assert_eq!(heard(0), Heard::Gone);
    assert_eq!(heard(-5), Heard::Gone);
    assert_eq!(heard(1), Heard::Byte);
}
