use grid_game::client::{
    convert_map_into_buffer, cursor_message, key_fits, next_cursor, press_key, receive_buffer, render_map, set_unit_as_highlight,
    Colour, CursorStep, GameMap, MapUnit,
};

fn chars(map: &GameMap) -> String {
    map.buffer.iter().map(|u| u.ch()).collect()
}

#[test]
fn new_unit_is_blank_white_plain() {
    let u = MapUnit::new();
    assert_eq!(u.ch(), ' ');
    assert_eq!(u.color(), Colour::White);
    assert!(!u.bold);
}

#[test]
fn new_map_fields() {
    let m = GameMap::new(12, 2, 3, 4, 5);
    assert_eq!(m.buffer.len(), 12);
    assert_eq!((m.map_x, m.map_y, m.term_x, m.term_y, m.highlight_x, m.highlight_y), (2, 3, 4, 5, 0, 0));
    assert!(m.buffer.iter().all(|u| u.ch() == ' ' && !u.bold && u.color() == Colour::White));
}

#[test]
fn board_is_drawn_with_borders_and_padding() {
    // 3 columns + 2 border cells = 5, padded to 8 on a 4-wide terminal
    let mut map = GameMap::new(40, 3, 2, 4, 10);
    map.highlight_x = 1;
    map.highlight_y = 1;
    let matrix = vec![vec![1u8, 0, 2], vec![0u8, 0, 7]];
    convert_map_into_buffer(&matrix, &mut map);
    let text = chars(&map);
    assert_eq!(&text[..], "@@@@@   @X #@   @ \u{25cb}?@   @@@@@           ");
    assert_eq!(map.buffer.len(), 40);
}

#[test]
fn board_drawing_keeps_rest_of_buffer() {
    let mut map = GameMap::new(20, 2, 1, 4, 10);
    let matrix = vec![vec![0u8, 1]];
    convert_map_into_buffer(&matrix, &mut map);
    // 2 + 2 = 4 cells per line, three lines, no padding
    assert_eq!(chars(&map), "@@@@@\u{25cb}X@@@@@        ");
}

#[test]
fn highlight_ring_only_on_empty_cell() {
    let mut map = GameMap::new(15, 1, 1, 5, 3);
    let matrix = vec![vec![1u8]];
    convert_map_into_buffer(&matrix, &mut map);
    assert_eq!(chars(&map), "@@@  @X@  @@@  ");
}

#[test]
fn highlight_moves_the_bold_cell() {
    let mut map = GameMap::new(16, 4, 4, 4, 4);
    set_unit_as_highlight(1, 1, &mut map, 4);
    assert!(map.buffer[5].bold);
    assert_eq!(map.buffer.iter().filter(|u| u.bold).count(), 1);
    set_unit_as_highlight(3, 2, &mut map, 4);
    assert!(!map.buffer[5].bold);
    assert!(map.buffer[11].bold);
    assert_eq!(map.buffer.iter().filter(|u| u.bold).count(), 1);
    assert_eq!((map.highlight_x, map.highlight_y), (3, 2));
}

#[test]
fn cursor_keys() {
    assert_eq!(next_cursor(1, 1, b'w', 64, 32), CursorStep::Moved(1, 0));
    assert_eq!(next_cursor(1, 0, b'w', 64, 32), CursorStep::Moved(1, 31));
    assert_eq!(next_cursor(1, 31, b's', 64, 32), CursorStep::Moved(1, 0));
    assert_eq!(next_cursor(0, 5, b'a', 64, 32), CursorStep::Moved(63, 5));
    assert_eq!(next_cursor(63, 5, b'd', 64, 32), CursorStep::Moved(0, 5));
    assert_eq!(next_cursor(3, 5, b'\n', 64, 32), CursorStep::Confirmed);
    assert_eq!(next_cursor(3, 5, b'x', 64, 32), CursorStep::Ignored);
    assert_eq!(next_cursor(3, 5, b'\n', 0, 0), CursorStep::Confirmed);
}

#[test]
fn cursor_message_keeps_low_bytes() {
    assert_eq!(cursor_message(3, 31), [3, 31]);
    assert_eq!(cursor_message(300, 256), [44, 0]);
}

#[test]
fn receive_buffer_fills_with_a() {
    let mut buf = vec![0u8; 1024 * 32 + 3];
    receive_buffer(&mut buf);
    assert!(buf[..1024 * 32].iter().all(|b| *b == b'a'));
    assert_eq!(&buf[1024 * 32..], &[0, 0, 0]);
}

#[test]
fn render_paints_each_cell() {
    let mut map = GameMap::new(2, 0, 0, 2, 1);
    set_unit_as_highlight(1, 0, &mut map, 2);
    map.buffer[0].bold = false;
    let bytes = render_map(&map);
    assert_eq!(bytes, b"\x1b[37m \x1b[0m\x1b[1;37m \x1b[0m".to_vec());
}

#[test]
fn render_paints_board_characters() {
    let mut map = GameMap::new(6, 1, 0, 3, 1);
    let matrix: Vec<Vec<u8>> = Vec::new();
    convert_map_into_buffer(&matrix, &mut map);
    let bytes = render_map(&map);
    let at = b"\x1b[37m@\x1b[0m".to_vec();
    assert_eq!(bytes, at.repeat(6));
    let empty = GameMap::new(0, 0, 0, 1, 1);
    assert!(render_map(&empty).is_empty());
}

#[test]
fn cursor_stays_on_board() {
    for key in [b'w', b's', b'a', b'd', b'\n', b'q'] {
        for (x, y) in [(0usize, 0usize), (63, 31), (10, 20)] {
            if let CursorStep::Moved(nx, ny) = next_cursor(x, y, key, 64, 32) {
                assert!(nx < 64 && ny < 32);
            }
        }
    }
}

#[test]
fn board_cell_shows_at_its_screen_position() {
    // 4 columns + 2 = 6, padded to 10 on a 5-wide terminal
    let mut map = GameMap::new(60, 4, 3, 5, 6);
    map.highlight_x = 2;
    map.highlight_y = 1;
    let matrix = vec![vec![0u8, 1, 2, 3], vec![2u8, 1, 0, 0], vec![0u8, 0, 0, 1]];
    convert_map_into_buffer(&matrix, &mut map);
    let w = 10;
    let expected = |v: u8, hl: bool| match v {
        0 => if hl { '\u{25cb}' } else { ' ' },
        1 => 'X',
        2 => '#',
        _ => '?',
    };
    for i in 0..3 {
        for j in 0..4 {
            let hl = i == 1 && j == 2;
            assert_eq!(map.buffer[(i + 1) * w + j + 1].ch(), expected(matrix[i][j], hl));
        }
        assert_eq!(map.buffer[(i + 1) * w].ch(), '@');
        assert_eq!(map.buffer[(i + 1) * w + 5].ch(), '@');
    }
}

fn snapshot(map: &GameMap) -> Vec<(char, Colour, bool)> {
    map.buffer.iter().map(|u| (u.ch(), u.color(), u.bold)).collect()
}

#[test]
fn drawing_twice_changes_nothing() {
    let mut map = GameMap::new(40, 3, 2, 4, 10);
    map.buffer[3].bold = true;
    let matrix = vec![vec![1u8, 0, 2], vec![0u8, 3, 0]];
    convert_map_into_buffer(&matrix, &mut map);
    let once = snapshot(&map);
    convert_map_into_buffer(&matrix, &mut map);
    assert_eq!(snapshot(&map), once);
}

#[test]
fn highlighting_twice_changes_nothing() {
    let mut map = GameMap::new(16, 4, 4, 4, 4);
    set_unit_as_highlight(2, 1, &mut map, 4);
    let once = snapshot(&map);
    set_unit_as_highlight(2, 1, &mut map, 4);
    assert_eq!(snapshot(&map), once);
    assert_eq!((map.highlight_x, map.highlight_y), (2, 1));
}

#[test]
fn render_paints_multibyte_character_bold() {
    // 1 column: the board line is "@", ring, "@" padded to 3 cells
    let mut map = GameMap::new(9, 1, 1, 3, 3);
    let matrix = vec![vec![0u8]];
    convert_map_into_buffer(&matrix, &mut map);
    set_unit_as_highlight(0, 0, &mut map, 1);
    set_unit_as_highlight(4, 0, &mut map, 1);
    let bytes = render_map(&map);
    let plain = |c: &str| format!("\x1b[37m{}\x1b[0m", c).into_bytes();
    let mut expected = Vec::new();
    for _ in 0..3 {
        expected.extend(plain("@"));
    }
    expected.extend(plain("@"));
    expected.extend(b"\x1b[1;37m\xe2\x97\x8b\x1b[0m".to_vec());
    expected.extend(plain("@"));
    for _ in 0..3 {
        expected.extend(plain("@"));
    }
    assert_eq!(bytes, expected);
}

#[test]
fn key_press_moves_cursor_and_highlight() {
    let mut map = GameMap::new(16, 4, 4, 4, 4);
    set_unit_as_highlight(1, 1, &mut map, 4);
    assert!(key_fits(&map, 1, 1, b'd', 4, 4));
    assert_eq!(press_key(&mut map, 1, 1, b'd', 4, 4), CursorStep::Moved(2, 1));
    assert_eq!((map.highlight_x, map.highlight_y), (2, 1));
    assert!(map.buffer[6].bold && !map.buffer[5].bold);
    assert_eq!(press_key(&mut map, 2, 1, b'w', 4, 4), CursorStep::Moved(2, 0));
    assert!(map.buffer[2].bold && !map.buffer[6].bold);
    let before = snapshot(&map);
    assert_eq!(press_key(&mut map, 2, 0, b'x', 4, 4), CursorStep::Ignored);
    assert_eq!(press_key(&mut map, 2, 0, b'\n', 4, 4), CursorStep::Confirmed);
    assert_eq!(snapshot(&map), before);
    assert_eq!((map.highlight_x, map.highlight_y), (2, 0));
}

#[test]
fn key_fits_refuses_what_would_fail() {
    let map = GameMap::new(16, 4, 4, 4, 4);
    assert!(!key_fits(&map, 1, 1, b'w', 4, 0));
    assert!(!key_fits(&map, 1, 1, b'a', 0, 4));
    assert!(!key_fits(&map, usize::MAX, 1, b'd', 4, 4));
    assert!(key_fits(&map, 1, 1, b'\n', 0, 0));
    // moving to a row past the buffer
    assert!(!key_fits(&map, 1, 3, b's', 4, 8));
    assert!(key_fits(&map, 1, 2, b's', 4, 8));
}
