use zaytos::peers::bss;
use zaytos::peers::comp::{
    check_tile, composited_line, corners, header, paint, poll_until, ready_line, reply_is_ok,
    round, tile_of, Ready,
};
use zaytos::peers::frame::{blit, Tile};
use zaytos::peers::gfx::{
    self, draw_square, info_line, intruder_status, screen_suits, ScreenInfo,
};
use zaytos::peers::input::{
    self, event_code, event_sec, event_usec, event_value, pressed, INPUT_EVENT_LEN,
};
use zaytos::peers::poll::{closed_line, gave_line, report};
use zaytos::peers::sockc::{
    bind_line, big_data, connected, hello_line, mode_of, nobody_line, quit_line, twice_line,
    Connected, Mode, Return,
};
use zaytos::peers::sockd::{
    self, big_byte, check_shm, listening_line, received, shm_line, shm_reply, socket_name,
};

fn event(sec: u64, usec: u64, code: u16, value: i32) -> Vec<u8> {
    let mut raw = Vec::new();
    raw.extend_from_slice(&sec.to_le_bytes());
    raw.extend_from_slice(&usec.to_le_bytes());
    raw.extend_from_slice(&1u16.to_le_bytes());
    raw.extend_from_slice(&code.to_le_bytes());
    raw.extend_from_slice(&value.to_le_bytes());
    raw
}

#[test]
fn an_event_has_its_fields() {
    let raw = event(7, 250, 30, -2);
    assert_eq!(raw.len(), INPUT_EVENT_LEN);
    assert_eq!(event_sec(&raw), 7);
    assert_eq!(event_usec(&raw), 250);
    assert_eq!(event_code(&raw), 30);
    assert_eq!(event_value(&raw), -2);
}

#[test]
fn a_key_that_went_down_is_noticed() {
    let mut chunk = event(1, 2, 30, 0);
    chunk.extend(event(1, 3, 31, 1));
    assert!(pressed(&chunk, 48));
    assert!(!pressed(&chunk, 47));
    assert!(!pressed(&chunk, 24));
    assert!(!pressed(&chunk, -11));
}

#[test]
fn inputd_says_every_event() {
    let mut chunk = event(1, 2, 30, 0);
    chunk.extend(event(u64::MAX, 3, 31, 1));
    match input::after_read(&chunk, 24) {
        input::Next::Said(lines) => assert_eq!(
            lines,
            vec![b"inputd: event code=30 value=0 sec=1 usec=2\n".to_vec()]
        ),
        other => panic!("{other:?}"),
    }
    match input::after_read(&chunk, 48) {
        input::Next::Done(lines) => {
            assert_eq!(lines.len(), 3);
            assert_eq!(
                lines[1],
                b"inputd: event code=31 value=1 sec=-1 usec=3\n".to_vec()
            );
            assert_eq!(lines[2], b"inputd: got a key press\n".to_vec());
        }
        other => panic!("{other:?}"),
    }
    assert!(matches!(input::after_read(&chunk, -11), input::Next::Again));
    match input::after_read(&chunk, -5) {
        input::Next::Fail(said) => assert_eq!(said, b"inputd: read failed -5\n".to_vec()),
        other => panic!("{other:?}"),
    }
}

#[test]
fn the_keyboard_has_one_owner() {
    assert_eq!(
        input::probed(-16),
        (b"inputd probe: open_input returned -16\n".to_vec(), 0)
    );
    assert_eq!(input::probed(3).1, 1);
    assert_eq!(input::opened(4), (b"inputd: opened input fd 4\n".to_vec(), true));
    assert_eq!(
        input::opened(-16),
        (b"inputd: open_input failed -16\n".to_vec(), false)
    );
}

#[test]
fn sockd_decides_by_the_message() {
    assert_eq!(received(-5, 0, b""), sockd::Next::Fail);
    assert_eq!(received(0, 0, b""), sockd::Next::Left);
    assert_eq!(received(4, 9, b"quit"), sockd::Next::Look);
    assert_eq!(received(8, 0, b"quit now"), sockd::Next::Quit);
    assert_eq!(received(3, 0, b"qui"), sockd::Next::Echo);
    assert_eq!(socket_name(None), b"wayland-0".to_vec());
    assert_eq!(socket_name(Some(&[b'n'; 40])).len(), 31);
    assert_eq!(listening_line(b"x"), b"sockd: listening on x\n".to_vec());
}

#[test]
fn shared_memory_is_looked_through() {
    let mut memory: Vec<u8> = (0..6000).map(big_byte).collect();
    assert_eq!(memory[0], 7);
    assert_eq!(memory[250], 6);
    assert!(check_shm(&memory));
    memory[5999] ^= 1;
    assert!(!check_shm(&memory));
    assert_eq!(shm_line(true), b"sockd: shm 6000 bytes ok=true\n".to_vec());
    assert_eq!(shm_line(false), b"sockd: shm 6000 bytes ok=false\n".to_vec());
    assert_eq!(shm_reply(true), b"shm-ok".to_vec());
    assert_eq!(shm_reply(false), b"shm-bad".to_vec());
}

#[test]
fn sockc_chooses_what_it_tries() {
    assert_eq!(mode_of(b"hello"), Mode::Hello);
    assert_eq!(mode_of(b"big"), Mode::Big);
    assert_eq!(mode_of(b"nobody"), Mode::Nobody);
    assert_eq!(mode_of(b"bind"), Mode::Bind);
    assert_eq!(mode_of(b"twice"), Mode::Twice);
    assert_eq!(mode_of(b"quit"), Mode::Quit);
    assert_eq!(mode_of(b"hell"), Mode::Unknown);
    assert_eq!(mode_of(b""), Mode::Unknown);
}

#[test]
fn a_large_message_comes_back_as_it_was() {
    let data = big_data();
    assert_eq!(data.len(), 1536);
    let mut back = Return::new();
    assert!(back.take(&data[..200]));
    let mut at = 200;
    while at < 1536 {
        let end = (at + 256).min(1536);
        assert_eq!(back.take(&data[at..end]), end < 1536);
        at = end;
    }
    assert_eq!(
        back.line(1536),
        b"sockc: big sent=1536 got=1536 match=true\n".to_vec()
    );
    assert_eq!(
        back.line(1535),
        b"sockc: big sent=1535 got=1536 match=false\n".to_vec()
    );
    let mut broken = Return::new();
    broken.take(b"x");
    assert!(!broken.take(b""));
    assert_eq!(
        broken.line(1536),
        b"sockc: big sent=1536 got=1 match=false\n".to_vec()
    );
}

#[test]
fn sockc_says_what_it_was_answered() {
    assert_eq!(hello_line(5, b"hello"), b"sockc: hello reply=hello\n".to_vec());
    assert_eq!(hello_line(-104, b""), b"sockc: hello read=-104\n".to_vec());
    assert_eq!(nobody_line(-111), b"sockc: connect nobody -> -111\n".to_vec());
    assert_eq!(bind_line(b"n", 0), b"sockc: bind n -> 0\n".to_vec());
    assert_eq!(
        twice_line(0, 3, b"one", 3, b"two"),
        b"sockc: twice second=0 reply=one reply=two\n".to_vec()
    );
    assert_eq!(
        twice_line(-11, 3, b"one", 3, b"two"),
        b"sockc: twice second=-11 reply=one\n".to_vec()
    );
    assert_eq!(quit_line(0, -32), b"sockc: quit read=0 write=-32\n".to_vec());
    assert!(matches!(connected(3, 0), Connected::Stream(3)));
    assert!(
        matches!(connected(3, -111), Connected::Refused(3, said) if said == b"sockc: connect failed -111\n".to_vec())
    );
    assert!(
        matches!(connected(-24, 0), Connected::NoSocket(said) if said == b"sockc: socket failed -24\n".to_vec())
    );
}

const TILE: Tile = Tile {
    width: 64,
    height: 64,
    x: 400,
    y: 300,
};

#[test]
fn a_header_tells_of_its_picture() {
    let bytes = header(TILE);
    assert_eq!(bytes.len(), 16);
    assert_eq!(bytes[8..12], 400u32.to_le_bytes());
    assert_eq!(tile_of(&bytes), TILE);
    assert_eq!(corners(TILE), (400, 300, 464, 364));
}

#[test]
fn the_picture_has_four_quarters() {
    let pixels = paint();
    let pixel = |x: usize, y: usize| {
        let at = 4 * (64 * y + x);
        u32::from_le_bytes([pixels[at], pixels[at + 1], pixels[at + 2], pixels[at + 3]])
    };
    assert_eq!(pixels.len(), 16384);
    assert_eq!(pixel(0, 0), 0x00ff_00ff);
    assert_eq!(pixel(63, 31), 0x0000_ff00);
    assert_eq!(pixel(31, 32), 0x00ff_ffff);
    assert_eq!(pixel(63, 63), 0x0080_8080);
}

#[test]
fn only_a_proper_picture_is_taken() {
    assert_eq!(check_tile(TILE, 16, 5, 1024, 768), Some(16384));
    assert_eq!(check_tile(TILE, 15, 5, 1024, 768), None);
    assert_eq!(check_tile(TILE, 16, 0, 1024, 768), None);
    assert_eq!(check_tile(TILE, 16, 5, 463, 768), None);
    assert_eq!(check_tile(TILE, 16, 5, 1024, 363), None);
    let empty = Tile { width: 0, ..TILE };
    assert_eq!(check_tile(empty, 16, 5, 1024, 768), None);
    let large = Tile {
        width: 129,
        height: 64,
        x: 0,
        y: 0,
    };
    assert_eq!(check_tile(large, 16, 5, 1024, 768), None);
    let wrapping = Tile {
        x: u32::MAX,
        ..TILE
    };
    assert_eq!(check_tile(wrapping, 16, 5, 1024, 768), None);
}

#[test]
fn a_picture_goes_to_its_place_and_nowhere_else() {
    let mut frame = vec![0u8; 24 * 4];
    let pool: Vec<u8> = (1..=16).collect();
    let tile = Tile {
        width: 2,
        height: 2,
        x: 1,
        y: 1,
    };
    blit(&mut frame, 24, &pool, tile);
    let mut want = vec![0u8; 24 * 4];
    want[28..36].copy_from_slice(&pool[..8]);
    want[52..60].copy_from_slice(&pool[8..]);
    assert_eq!(frame, want);
}

#[test]
fn compd_says_what_it_does() {
    assert_eq!(
        composited_line(TILE, 0),
        b"compd: composited 64x64 at 400,300 present=0\n".to_vec()
    );
    let ready = Ready {
        input: true,
        listener: false,
        client: true,
    };
    assert_eq!(ready_line(ready), b"compd: poll ready=input+client\n".to_vec());
    let all = Ready {
        input: true,
        listener: true,
        client: true,
    };
    assert_eq!(
        ready_line(all),
        b"compd: poll ready=input+listener+client\n".to_vec()
    );
    let first = round(false, all);
    assert!(first.accept && !first.receive && first.keys);
    let later = round(true, all);
    assert!(!later.accept && later.receive && later.keys);
    assert_eq!(poll_until(2), Some(2));
    assert_eq!(poll_until(0), None);
    assert_eq!(poll_until(-11), None);
    assert_eq!(poll_until(-4), Some(-4));
    assert!(reply_is_ok(2, b"ok\0"));
    assert!(!reply_is_ok(3, b"ok\0"));
    assert!(!reply_is_ok(2, b"no\0"));
}

#[test]
fn the_square_is_drawn_in_its_colour() {
    let line = 1600usize;
    let mut frame = vec![9u8; line * 400];
    draw_square(&mut frame, line as u32);
    let at = 200 * line + 800;
    assert_eq!(frame[at..at + 4], 0x00ff_00ffu32.to_le_bytes());
    assert_eq!(frame[at - 1], 9);
    let last = 359 * line + 1439;
    assert_eq!(frame[last], 0);
    assert_eq!(frame[last + 1], 9);
    assert_eq!(frame[360 * line + 800], 9);
    assert_eq!(frame.iter().filter(|byte| **byte != 9).count(), 160 * 160 * 4);
}

#[test]
fn gfxd_looks_at_the_screen_first() {
    let info = ScreenInfo {
        width: 1024,
        height: 768,
        bits_per_pixel: 32,
        line_length: 4096,
        smem_len: 3145728,
    };
    assert_eq!(
        info_line(info),
        b"gfxd: screen 1024x768 bpp 32 line 4096 size 3145728\n".to_vec()
    );
    assert!(screen_suits(info));
    assert!(!screen_suits(ScreenInfo { width: 359, ..info }));
    assert!(!screen_suits(ScreenInfo {
        bits_per_pixel: 24,
        ..info
    }));
    assert_eq!(gfx::after_read(24), gfx::Next::Leave);
    assert_eq!(gfx::after_read(0), gfx::Next::Again);
    assert_eq!(gfx::after_read(-11), gfx::Next::Again);
    assert_eq!(gfx::after_read(-5), gfx::Next::Fail);
    assert_eq!(intruder_status(-16, -16), 0);
    assert_eq!(intruder_status(3, -16), 1);
    assert_eq!(intruder_status(-16, 3), 1);
}

#[test]
fn polld_says_what_is_ready() {
    assert_eq!(
        report(1, false, true, b"input", b"listener"),
        b"polld: poll 1 ready=listener\n".to_vec()
    );
    assert_eq!(
        report(2, true, true, b"input", b"socket"),
        b"polld: poll 2 ready=input+socket\n".to_vec()
    );
    assert_eq!(
        report(3, false, false, b"input", b"socket"),
        b"polld: poll 3 ready=none\n".to_vec()
    );
    assert_eq!(gave_line(b"socket", 4), b"polld: socket gave 4 byte(s)\n".to_vec());
    assert_eq!(closed_line(0), b"pollc: the server closed (got 0)\n".to_vec());
}

#[test]
fn the_memory_that_a_program_begins_with_is_judged() {
    assert!(bss::all_zero(&[0; 100]));
    let mut memory = [0u8; 100];
    memory[99] = 1;
    assert!(!bss::all_zero(&memory));
    assert_eq!(bss::judge(false, 0xa5, 0x5a, 0, 0).1, 1);
    assert_eq!(bss::judge(true, 0, 0x5a, 0, 0).1, 2);
    assert_eq!(bss::judge(true, 0xa5, 0x5a, 0x1fff, 0x2000).1, 3);
    let (said, status) = bss::judge(true, 0xa5, 0x5a, 0x1ff0, 0x1000);
    assert_eq!(status, 0);
    assert_eq!(
        said,
        b"bss-test: the .bss reads as zero, keeps writes, and shares a page with .data\n".to_vec()
    );
}
