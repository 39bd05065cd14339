//! The client side of the game: the character buffer that shows the board
//! on the terminal, the cursor that picks a move, and the handling of the
//! server's messages.

use vstd::prelude::*;
use ansi_term::Colour as AnsiColour;
use ansi_term::Style;
use crate::lines::lemma_row_major;
use crate::webserver::{board, cell_view, init_map_message, message_code, move_view, update_entry, update_message};

verus! {

/// A terminal colour, as the ANSI palette names it: the eight basic
/// colours, one of the 256 indexed colours, or a 24-bit RGB colour.
#[derive(Debug, Clone, Copy, PartialEq, Eq, Structural)]
pub enum Colour {
    Black,
    Red,
    Green,
    Yellow,
    Blue,
    Purple,
    Cyan,
    White,
    Fixed(u8),
    RGB(u8, u8, u8),
}

/// One character cell of the screen buffer.
#[derive(Clone, Copy)]
pub struct MapUnit {
    ch: char,
    color: Colour,
    pub bold: bool,
}

impl MapUnit {
    /// A blank, white, not bold cell.
    pub fn new() -> (unit: MapUnit)
        ensures
            unit == blank_unit(),
    {
        MapUnit { ch: ' ', color: Colour::White, bold: false }
    }

    /// The character this cell shows.
    pub closed spec fn spec_ch(&self) -> char {
        self.ch
    }

    /// The character this cell shows.
    pub fn ch(&self) -> (c: char)
        ensures
            c == self.spec_ch(),
    {
        self.ch
    }

    /// Whether this cell is shown bold.
    pub closed spec fn spec_bold(&self) -> bool {
        self.bold
    }

    /// The colour this cell is painted in.
    pub closed spec fn spec_color(&self) -> Colour {
        self.color
    }

    /// The colour this cell is painted in.
    pub fn color(&self) -> (c: Colour)
        ensures
            c == self.spec_color(),
    {
        self.color
    }
}

/// A blank, white, not bold cell.
pub closed spec fn blank_unit() -> MapUnit {
    MapUnit { ch: ' ', color: Colour::White, bold: false }
}

/// The same cell showing `c`.
pub closed spec fn with_ch(unit: MapUnit, c: char) -> MapUnit {
    MapUnit { ch: c, ..unit }
}

/// The same cell, bold or not as `bold` says.
pub closed spec fn with_bold(unit: MapUnit, bold: bool) -> MapUnit {
    MapUnit { bold: bold, ..unit }
}

/// A cell made by `with_ch` shows `c` and keeps its colour and boldness.
pub broadcast proof fn lemma_with_ch(unit: MapUnit, c: char)
    ensures
        (#[trigger] with_ch(unit, c)).spec_ch() == c,
        with_ch(unit, c).spec_color() == unit.spec_color(),
        with_ch(unit, c).spec_bold() == unit.spec_bold(),
{
}

/// A cell made by `with_bold` is bold as `bold` says and keeps its
/// character and colour.
pub broadcast proof fn lemma_with_bold(unit: MapUnit, bold: bool)
    ensures
        (#[trigger] with_bold(unit, bold)).spec_bold() == bold,
        with_bold(unit, bold).spec_ch() == unit.spec_ch(),
        with_bold(unit, bold).spec_color() == unit.spec_color(),
{
}

/// The facts about cell updates, for `broadcast use`.
pub broadcast group group_map_unit {
    lemma_with_ch,
    lemma_with_bold,
}

/// A blank cell shows a space, is white, and is not bold.
pub proof fn lemma_blank_unit()
    ensures
        blank_unit().spec_ch() == ' ',
        blank_unit().spec_color() == Colour::White,
        !blank_unit().spec_bold(),
{
}

/// Two cells with the same character, colour and boldness are the same
/// cell.
pub proof fn lemma_unit_ext(u1: MapUnit, u2: MapUnit)
    requires
        u1.spec_ch() == u2.spec_ch(),
        u1.spec_color() == u2.spec_color(),
        u1.spec_bold() == u2.spec_bold(),
    ensures
        u1 == u2,
{
}

/// Drawing the same text twice gives what drawing it once gave: a second
/// `convert_map_into_buffer` of the same board changes nothing.
pub proof fn lemma_redraw_unchanged(buf: Seq<MapUnit>, text: Seq<char>)
    ensures
        drawn(drawn(buf, text), text) == drawn(buf, text),
{
    assert(drawn(drawn(buf, text), text) =~= drawn(buf, text));
}

/// Moving the highlight to the cell it already marks changes nothing: a
/// second `set_unit_as_highlight` with the same cell leaves the buffer as
/// the first left it.
pub proof fn lemma_rehighlight_unchanged(buf: Seq<MapUnit>, old_idx: int, new_idx: int)
    requires
        0 <= old_idx < buf.len(),
        0 <= new_idx < buf.len(),
    ensures
        highlighted(highlighted(buf, old_idx, new_idx), new_idx, new_idx) == highlighted(buf, old_idx, new_idx),
{
    assert(highlighted(highlighted(buf, old_idx, new_idx), new_idx, new_idx) =~= highlighted(buf, old_idx, new_idx));
}

/// The client's screen: a buffer of cells read row after row in lines of
/// `term_x` cells, the board's size (`map_x` columns, `map_y` rows), the
/// terminal's size, and the highlighted board cell.
pub struct GameMap {
    pub buffer: Vec<MapUnit>,
    pub map_x: usize,
    pub map_y: usize,
    pub term_x: usize,
    pub term_y: usize,
    pub highlight_x: usize,
    pub highlight_y: usize,
}

impl GameMap {
    /// A screen of `size_` blank cells for a board of `x` by `y` cells on a
    /// terminal of `term_x` by `term_y` cells, highlighting cell (0, 0). The
    /// board must fit on the terminal.
    pub fn new(size_: usize, x: usize, y: usize, term_x: usize, term_y: usize) -> (map: GameMap)
        requires
            x <= term_x,
            y <= term_y,
        ensures
            map.buffer@.len() == size_,
            forall|k: int| 0 <= k < size_ ==> #[trigger] map.buffer@[k] == blank_unit(),
            map.map_x == x,
            map.map_y == y,
            map.term_x == term_x,
            map.term_y == term_y,
            map.highlight_x == 0,
            map.highlight_y == 0,
    {
        let mut buffer: Vec<MapUnit> = Vec::new();
        let mut k: usize = 0;
        while k < size_
            invariant
                k <= size_,
                buffer@.len() == k,
                forall|m: int| 0 <= m < k ==> #[trigger] buffer@[m] == blank_unit(),
            decreases size_ - k,
        {
            buffer.push(MapUnit::new());
            k += 1;
        }
        GameMap {
            buffer: buffer,
            highlight_x: 0,
            highlight_y: 0,
            map_x: x,
            map_y: y,
            term_x: term_x,
            term_y: term_y,
        }
    }
}

/// The kind of message that the client receives ahead of each exchange.
#[derive(Debug, Clone, Copy, PartialEq, Eq, Structural)]
pub enum MessageType {
    Init,
    Update,
    Win,
    Lose,
}

/// The kind that the client reads from byte `b`: 0 to 3 name `Init`,
/// `Update`, `Win` and `Lose`, and any other byte is read as `Init`.
pub open spec fn message_kind(b: u8) -> MessageType {
    if b == 1 {
        MessageType::Update
    } else if b == 2 {
        MessageType::Win
    } else if b == 3 {
        MessageType::Lose
    } else {
        MessageType::Init
    }
}

impl MessageType {
    /// The kind of message that the byte `b` announces.
    pub fn from_byte(b: u8) -> (t: MessageType)
        ensures
            t == message_kind(b),
    {
        match b {
            0 => MessageType::Init,
            1 => MessageType::Update,
            2 => MessageType::Win,
            3 => MessageType::Lose,
            _ => MessageType::Init,
        }
    }
}

/// Fills the first 32768 bytes of `buffer` with `'a'`.
pub fn receive_buffer(buffer: &mut [u8])
    requires
        old(buffer)@.len() >= 1024 * 32,
    ensures
        final(buffer)@.len() == old(buffer)@.len(),
        forall|i: int| 0 <= i < final(buffer)@.len() ==> #[trigger] final(buffer)@[i] == if i < 1024 * 32 {
            'a' as u8
        } else {
            old(buffer)@[i]
        },
{
    let mut i: usize = 0;
    while i < 1024 * 32
        invariant
            i <= 1024 * 32,
            buffer@.len() == old(buffer)@.len(),
            old(buffer)@.len() >= 1024 * 32,
            forall|m: int| 0 <= m < buffer@.len() ==> #[trigger] buffer@[m] == if m < i {
                'a' as u8
            } else {
                old(buffer)@[m]
            },
        decreases 1024 * 32 - i,
    {
        buffer[i] = 'a' as u8;
        i += 1;
    }
}

/// The buffer `buf` with the cell at `old_idx` made not bold, then the
/// cell at `new_idx` made bold.
pub open spec fn highlighted(buf: Seq<MapUnit>, old_idx: int, new_idx: int) -> Seq<MapUnit> {
    let cleared = buf.update(old_idx, with_bold(buf[old_idx], false));
    cleared.update(new_idx, with_bold(cleared[new_idx], true))
}

/// Moves the bold mark from the cell of the old highlight to the cell of
/// (`x_idx`, `y_idx`), both found at `row * map_x + column` in the buffer,
/// and records (`x_idx`, `y_idx`) as the highlight.
pub fn set_unit_as_highlight(x_idx: usize, y_idx: usize, game_map: &mut GameMap, map_x: usize)
    requires
        old(game_map).highlight_y * map_x + old(game_map).highlight_x < old(game_map).buffer@.len(),
        y_idx * map_x + x_idx < old(game_map).buffer@.len(),
    ensures
        final(game_map).buffer@ == highlighted(
            old(game_map).buffer@,
            old(game_map).highlight_y * map_x + old(game_map).highlight_x,
            y_idx * map_x + x_idx,
        ),
        final(game_map).highlight_x == x_idx,
        final(game_map).highlight_y == y_idx,
        final(game_map).map_x == old(game_map).map_x,
        final(game_map).map_y == old(game_map).map_y,
        final(game_map).term_x == old(game_map).term_x,
        final(game_map).term_y == old(game_map).term_y,
{
    let hy = game_map.highlight_y;
    assert(hy * map_x + game_map.highlight_x < game_map.buffer.len());
    assert(0 <= hy * map_x <= hy * map_x + game_map.highlight_x) by (nonlinear_arith)
        requires
            0 <= hy,
            0 <= map_x,
            0 <= game_map.highlight_x,
    ;
    let idx = game_map.highlight_y * map_x + game_map.highlight_x;
    game_map.buffer[idx].bold = false;
    game_map.highlight_x = x_idx;
    game_map.highlight_y = y_idx;
    assert(0 <= y_idx * map_x <= y_idx * map_x + x_idx) by (nonlinear_arith)
        requires
            0 <= y_idx,
            0 <= map_x,
            0 <= x_idx,
    ;
    let idx = game_map.highlight_y * map_x + game_map.highlight_x;
    game_map.buffer[idx].bold = true;
}

/// What a key pressed while choosing a move does.
#[derive(Debug, Clone, Copy, PartialEq, Eq, Structural)]
pub enum CursorStep {
    /// The cursor moves to this (column, row).
    Moved(usize, usize),
    /// The player confirms the current cell.
    Confirmed,
    /// The key does nothing.
    Ignored,
}

/// The step that key `key` makes from (`x_idx`, `y_idx`) on a board of
/// `map_x` by `map_y` cells: `w` (119), `s` (115), `a` (97) and `d` (100)
/// move one cell up, down, left and right, wrapping around the edges; a
/// newline (10) confirms; any other key is ignored.
pub open spec fn cursor_step(x_idx: usize, y_idx: usize, key: u8, map_x: usize, map_y: usize) -> CursorStep {
    if key == 119 {
        CursorStep::Moved(x_idx, ((y_idx + map_y - 1) % (map_y as int)) as usize)
    } else if key == 115 {
        CursorStep::Moved(x_idx, ((y_idx + 1) % (map_y as int)) as usize)
    } else if key == 97 {
        CursorStep::Moved(((x_idx + map_x - 1) % (map_x as int)) as usize, y_idx)
    } else if key == 100 {
        CursorStep::Moved(((x_idx + 1) % (map_x as int)) as usize, y_idx)
    } else if key == 10 {
        CursorStep::Confirmed
    } else {
        CursorStep::Ignored
    }
}

/// What key `key` does to a cursor at (`x_idx`, `y_idx`) on a board of
/// `map_x` by `map_y` cells: `w`, `s`, `a` and `d` move it one cell up,
/// down, left and right, wrapping around the board's edges; a newline
/// confirms the cell; any other key does nothing.
pub fn next_cursor(x_idx: usize, y_idx: usize, key: u8, map_x: usize, map_y: usize) -> (step: CursorStep)
    requires
        key == 119 ==> map_y > 0 && y_idx + map_y <= usize::MAX,
        key == 115 ==> map_y > 0 && y_idx + 1 <= usize::MAX,
        key == 97 ==> map_x > 0 && x_idx + map_x <= usize::MAX,
        key == 100 ==> map_x > 0 && x_idx + 1 <= usize::MAX,
    ensures
        step == cursor_step(x_idx, y_idx, key, map_x, map_y),
{
    let c = key as char;
    match c {
        'w' => CursorStep::Moved(x_idx, (y_idx + map_y - 1) % map_y),
        's' => CursorStep::Moved(x_idx, (y_idx + 1) % map_y),
        'a' => CursorStep::Moved((x_idx + map_x - 1) % map_x, y_idx),
        'd' => CursorStep::Moved((x_idx + 1) % map_x, y_idx),
        '\n' => CursorStep::Confirmed,
        _ => CursorStep::Ignored,
    }
}

/// The two-byte input message for the cell (`x_idx`, `y_idx`): each
/// coordinate kept to its low eight bits.
pub fn cursor_message(x_idx: usize, y_idx: usize) -> (input: [u8; 2])
    ensures
        input@ == seq![x_idx as u8, y_idx as u8],
{
    let input = [x_idx as u8, y_idx as u8];
    assert(input@ =~= seq![x_idx as u8, y_idx as u8]);
    input
}


/// The width of one screen line: the board's `map_x` cells and its two
/// border cells, rounded up to a whole number of terminal lines of
/// `term_x` cells.
pub open spec fn line_width(map_x: int, term_x: int) -> int {
    let r = map_x + 2;
    if r % term_x == 0 {
        r
    } else {
        r - r % term_x + term_x
    }
}

/// The character that shows a board cell of value `v`: blank (or a ring
/// where the cursor is) when empty, `X` for the player's own stone, `#` for
/// another player's stone, `?` for anything else.
pub open spec fn cell_char(v: u8, highlighted: bool) -> char {
    if v == 0 {
        if highlighted {
            '\u{25cb}'
        } else {
            ' '
        }
    } else if v == 1 {
        'X'
    } else if v == 2 {
        '#'
    } else {
        '?'
    }
}

/// The character at column `c` of screen line `k`: lines 0 and
/// `map_y + 1` are borders of `@` across the board's `map_x + 2` columns;
/// line `k` in between shows board row `k - 1` between two `@`; the rest of
/// every line is blank.
pub open spec fn screen_char(b: Seq<Seq<u8>>, map_x: int, map_y: int, hx: int, hy: int, k: int, c: int) -> char {
    if k == 0 || k == map_y + 1 {
        if c < map_x + 2 {
            '@'
        } else {
            ' '
        }
    } else if c == 0 || c == map_x + 1 {
        '@'
    } else if c <= map_x {
        cell_char(b[k - 1][c - 1], hy == k - 1 && hx == c - 1)
    } else {
        ' '
    }
}

/// Screen line `k`, `width` characters long.
pub open spec fn screen_line(b: Seq<Seq<u8>>, map_x: int, map_y: int, hx: int, hy: int, width: int, k: int) -> Seq<char> {
    Seq::new(width as nat, |c: int| screen_char(b, map_x, map_y, hx, hy, k, c))
}

/// The first `n` screen lines, one after the other.
pub open spec fn screen_lines(b: Seq<Seq<u8>>, map_x: int, map_y: int, hx: int, hy: int, width: int, n: int) -> Seq<char>
    decreases n,
{
    if n <= 0 {
        Seq::empty()
    } else {
        screen_lines(b, map_x, map_y, hx, hy, width, n - 1) + screen_line(b, map_x, map_y, hx, hy, width, n - 1)
    }
}

/// What the screen shows of board `b` for `game_map`: the board's
/// `map_y + 2` lines (borders included), each `line_width` characters long.
pub open spec fn board_screen(b: Seq<Seq<u8>>, game_map: &GameMap) -> Seq<char> {
    screen_lines(
        b,
        game_map.map_x as int,
        game_map.map_y as int,
        game_map.highlight_x as int,
        game_map.highlight_y as int,
        line_width(game_map.map_x as int, game_map.term_x as int),
        game_map.map_y + 2,
    )
}

/// `n` screen lines of `width` characters are `n * width` long.
pub proof fn lemma_screen_lines_len(b: Seq<Seq<u8>>, map_x: int, map_y: int, hx: int, hy: int, width: int, n: int)
    requires
        0 <= n,
        0 <= width,
    ensures
        screen_lines(b, map_x, map_y, hx, hy, width, n).len() == n * width,
    decreases n,
{
    if n > 0 {
        lemma_screen_lines_len(b, map_x, map_y, hx, hy, width, n - 1);
        assert(screen_line(b, map_x, map_y, hx, hy, width, n - 1).len() == width);
        assert(n * width == (n - 1) * width + width) by (nonlinear_arith);
    } else {
        assert(screen_lines(b, map_x, map_y, hx, hy, width, n) =~= Seq::empty());
        assert(n * width == 0) by (nonlinear_arith)
            requires
                n == 0,
        ;
    }
}

/// The character for a board cell of value `v`, as `cell_char` says.
fn cell_char_of(v: u8, highlighted: bool) -> (c: char)
    ensures
        c == cell_char(v, highlighted),
{
    let mut c = match v {
        0 => ' ',
        1 => 'X',
        2 => '#',
        _ => '?',
    };
    if highlighted {
        if c == ' ' {
            c = '\u{25cb}';
        }
    }
    c
}

/// The buffer `buf` with its first cells showing the characters of `text`,
/// one for one, each cell keeping its colour and boldness; the cells past
/// the text stay as they were.
pub open spec fn drawn(buf: Seq<MapUnit>, text: Seq<char>) -> Seq<MapUnit> {
    Seq::new(buf.len(), |m: int| if m < text.len() { with_ch(buf[m], text[m]) } else { buf[m] })
}

/// Draws the board `matrix` into the screen buffer: every cell of the
/// first `map_y + 2` screen lines gets the character that `board_screen`
/// gives it, keeping its colour and boldness; the rest of the buffer and
/// every other field stay as they were.
pub fn convert_map_into_buffer(matrix: &Vec<Vec<u8>>, map: &mut GameMap)
    requires
        old(map).term_x > 0,
        (old(map).map_y + 2) * line_width(old(map).map_x as int, old(map).term_x as int) <= old(map).buffer@.len(),
        old(map).map_y <= matrix@.len(),
        forall|i: int| 0 <= i < old(map).map_y ==> old(map).map_x <= #[trigger] matrix@[i]@.len(),
    ensures
        final(map).buffer@.len() == old(map).buffer@.len(),
        final(map).buffer@ == drawn(old(map).buffer@, board_screen(board(matrix), old(map))),
        final(map).map_x == old(map).map_x,
        final(map).map_y == old(map).map_y,
        final(map).term_x == old(map).term_x,
        final(map).term_y == old(map).term_y,
        final(map).highlight_x == old(map).highlight_x,
        final(map).highlight_y == old(map).highlight_y,
{
    let ghost old_buf = map.buffer@;
    let ghost b = board(matrix);
    let map_x = map.map_x;
    let map_y = map.map_y;
    let term_x = map.term_x;
    let hx = map.highlight_x;
    let hy = map.highlight_y;
    let ghost len = old_buf.len();
    let ghost w = line_width(map_x as int, term_x as int);
    proof {
        assert(map.buffer.len() == len);
        assert(w >= map_x + 2);
        assert(map_y + 2 <= (map_y + 2) * w && w <= (map_y + 2) * w) by (nonlinear_arith)
            requires
                w >= 2,
                map_y >= 0,
        ;
    }
    let row_len = map_x + 2;
    let rem = row_len % term_x;
    assert(rem <= row_len) by (nonlinear_arith)
        requires
            rem == row_len % term_x,
            term_x > 0,
            row_len >= 0,
    ;
    let width = if rem == 0 { row_len } else { row_len - rem + term_x };
    let lines = map_y + 2;
    let mut idx: usize = 0;
    let mut k: usize = 0;
    proof {
        lemma_screen_lines_len(b, map_x as int, map_y as int, hx as int, hy as int, w, 0);
    }
    while k < lines
        invariant
            b == board(matrix),
            map.buffer@.len() == len,
            map.map_x == map_x,
            map.map_y == map_y,
            map.term_x == term_x,
            map.term_y == old(map).term_y,
            map.highlight_x == hx,
            map.highlight_y == hy,
            row_len == map_x + 2,
            width == w,
            w == line_width(map_x as int, term_x as int),
            lines == map_y + 2,
            lines * w <= len,
            len <= usize::MAX,
            map_y <= matrix@.len(),
            forall|i: int| 0 <= i < map_y ==> map_x <= #[trigger] matrix@[i]@.len(),
            k <= lines,
            idx == k * w,
            screen_lines(b, map_x as int, map_y as int, hx as int, hy as int, w, k as int).len() == idx,
            forall|m: int| 0 <= m < idx ==> #[trigger] map.buffer@[m] == with_ch(
                old_buf[m],
                screen_lines(b, map_x as int, map_y as int, hx as int, hy as int, w, k as int)[m],
            ),
            forall|m: int| idx <= m < len ==> #[trigger] map.buffer@[m] == old_buf[m],
        decreases lines - k,
    {
        let ghost done = screen_lines(b, map_x as int, map_y as int, hx as int, hy as int, w, k as int);
        let ghost line = screen_line(b, map_x as int, map_y as int, hx as int, hy as int, w, k as int);
        let mut c: usize = 0;
        while c < width
            invariant
                b == board(matrix),
                map.buffer@.len() == len,
                map.map_x == map_x,
                map.map_y == map_y,
                map.term_x == term_x,
                map.term_y == old(map).term_y,
                map.highlight_x == hx,
                map.highlight_y == hy,
                row_len == map_x + 2,
                width == w,
                lines == map_y + 2,
                lines * w <= len,
                len <= usize::MAX,
                map_y <= matrix@.len(),
                forall|i: int| 0 <= i < map_y ==> map_x <= #[trigger] matrix@[i]@.len(),
                k < lines,
                c <= width,
                idx == k * w + c,
                done.len() == k * w,
                line == screen_line(b, map_x as int, map_y as int, hx as int, hy as int, w, k as int),
                forall|m: int| 0 <= m < idx ==> #[trigger] map.buffer@[m] == with_ch(
                    old_buf[m],
                    (done + line.take(c as int))[m],
                ),
                forall|m: int| idx <= m < len ==> #[trigger] map.buffer@[m] == old_buf[m],
            decreases width - c,
        {
            proof {
                lemma_row_major(k as int, c as int, w, lines as int);
            }
            let ch = if k == 0 || k == map_y + 1 {
                if c < row_len {
                    '@'
                } else {
                    ' '
                }
            } else if c == 0 || c == map_x + 1 {
                '@'
            } else if c <= map_x {
                cell_char_of(matrix[k - 1][c - 1], hy == k - 1 && hx == c - 1)
            } else {
                ' '
            };
            assert(ch == line[c as int]);
            map.buffer[idx].ch = ch;
            proof {
                assert forall|m: int| 0 <= m < idx + 1 implies #[trigger] map.buffer@[m] == with_ch(
                    old_buf[m],
                    (done + line.take(c + 1))[m],
                ) by {
                    if m < idx {
                        assert((done + line.take(c + 1))[m] == (done + line.take(c as int))[m]);
                    } else {
                        assert((done + line.take(c + 1))[m] == line[c as int]);
                    }
                }
            }
            idx += 1;
            c += 1;
        }
        proof {
            assert(line.take(w) =~= line);
            assert(done + line == screen_lines(b, map_x as int, map_y as int, hx as int, hy as int, w, k + 1));
            assert((k + 1) * w == k * w + w) by (nonlinear_arith);
        }
        k += 1;
    }
}


/// The board `after` is `before` with its top-left 32 rows of 64 cells
/// taken from the initial-map message `bytes`, row after row; every other
/// cell and every row's length stay as they were.
pub open spec fn init_map_received(before: Seq<Seq<u8>>, bytes: Seq<u8>, after: Seq<Seq<u8>>) -> bool {
    &&& after.len() == before.len()
    &&& forall|i: int| 0 <= i < before.len() ==> #[trigger] after[i].len() == before[i].len()
    &&& forall|i: int, j: int|
        0 <= i < before.len() && 0 <= j < before[i].len() ==> #[trigger] after[i][j] == if i < 32 && j < 64 {
            bytes[i * 64 + j]
        } else {
            before[i][j]
        }
}

/// Loads the initial-map message `buffer` (32 rows of 64 cells, row after
/// row) into the top-left corner of the client's board.
pub fn apply_init_map(matrix: &mut Vec<Vec<u8>>, buffer: &[u8])
    requires
        buffer@.len() >= 64 * 32,
        old(matrix)@.len() >= 32,
        forall|i: int| 0 <= i < 32 ==> 64 <= #[trigger] old(matrix)@[i]@.len(),
    ensures
        init_map_received(board(old(matrix)), buffer@, board(final(matrix))),
{
    let ghost before = board(matrix);
    let mut i: usize = 0;
    while i < 32
        invariant
            buffer@.len() >= 64 * 32,
            before.len() >= 32,
            forall|r: int| 0 <= r < 32 ==> 64 <= #[trigger] before[r].len(),
            i <= 32,
            board(matrix).len() == before.len(),
            forall|r: int| 0 <= r < before.len() ==> #[trigger] board(matrix)[r].len() == before[r].len(),
            forall|r: int, c: int|
                0 <= r < before.len() && 0 <= c < before[r].len() ==> #[trigger] board(matrix)[r][c] == if r < i
                    && c < 64 {
                    buffer@[r * 64 + c]
                } else {
                    before[r][c]
                },
        decreases 32 - i,
    {
        let mut j: usize = 0;
        while j < 64
            invariant
                buffer@.len() >= 64 * 32,
                before.len() >= 32,
                forall|r: int| 0 <= r < 32 ==> 64 <= #[trigger] before[r].len(),
                i < 32,
                j <= 64,
                board(matrix).len() == before.len(),
                forall|r: int| 0 <= r < before.len() ==> #[trigger] board(matrix)[r].len() == before[r].len(),
                forall|r: int, c: int|
                    0 <= r < before.len() && 0 <= c < before[r].len() ==> #[trigger] board(matrix)[r][c] == if (r < i
                        && c < 64) || (r == i && c < j) {
                        buffer@[r * 64 + c]
                    } else {
                        before[r][c]
                    },
            decreases 64 - j,
        {
            let ghost prev = board(matrix);
            assert(matrix@[i as int]@.len() == prev[i as int].len());
            let idx = i * 64 + j;
            matrix[i][j] = buffer[idx];
            proof {
                let now = board(matrix);
                assert(now =~= prev.update(i as int, prev[i as int].update(j as int, buffer@[idx as int])));
            }
            j += 1;
        }
        i += 1;
    }
}

/// The board after the first `n` entries of the update message `bytes`
/// are applied in order, entry (x, y, v) setting row `y`, column `x` to `v`.
pub open spec fn updates_applied(before: Seq<Seq<u8>>, bytes: Seq<u8>, n: int) -> Seq<Seq<u8>>
    decreases n,
{
    if n <= 0 {
        before
    } else {
        let prev = updates_applied(before, bytes, n - 1);
        let e = update_entry(bytes, n - 1);
        prev.update(e.1 as int, prev[e.1 as int].update(e.0 as int, e.2))
    }
}

/// Every one of the first `n` entries of `bytes` names a cell of board `b`.
pub open spec fn updates_in_bounds(b: Seq<Seq<u8>>, bytes: Seq<u8>, n: int) -> bool {
    forall|k: int|
        0 <= k < n ==> (#[trigger] update_entry(bytes, k)).1 < b.len() && update_entry(bytes, k).0 < b[update_entry(
            bytes,
            k,
        ).1 as int].len()
}

/// Applying entries that name cells of the board keeps the board's shape.
pub proof fn lemma_updates_shape(before: Seq<Seq<u8>>, bytes: Seq<u8>, n: int)
    requires
        updates_in_bounds(before, bytes, n),
    ensures
        updates_applied(before, bytes, n).len() == before.len(),
        forall|i: int| 0 <= i < before.len() ==> #[trigger] updates_applied(before, bytes, n)[i].len() == before[i].len(),
    decreases n,
{
    if n > 0 {
        lemma_updates_shape(before, bytes, n - 1);
        let e = update_entry(bytes, n - 1);
        assert(e.1 < before.len());
    }
}

/// Applies the update message `buffer`: its first byte counts the
/// (x, y, value) entries that follow, and each entry in turn sets row `y`,
/// column `x` of the board to its value.
pub fn apply_update_map(matrix: &mut Vec<Vec<u8>>, buffer: &[u8])
    requires
        buffer@.len() > 0,
        3 * buffer@[0] < buffer@.len(),
        updates_in_bounds(board(old(matrix)), buffer@, buffer@[0] as int),
    ensures
        board(final(matrix)) == updates_applied(board(old(matrix)), buffer@, buffer@[0] as int),
{
    let ghost before = board(matrix);
    let update_num = buffer[0] as usize;
    let mut update: usize = 0;
    proof {
        lemma_updates_shape(before, buffer@, update_num as int);
    }
    while update < update_num
        invariant
            buffer@.len() > 0,
            update_num == buffer@[0],
            3 * update_num < buffer@.len(),
            updates_in_bounds(before, buffer@, update_num as int),
            update <= update_num,
            board(matrix) == updates_applied(before, buffer@, update as int),
        decreases update_num - update,
    {
        proof {
            lemma_updates_shape(before, buffer@, update as int);
            let e = update_entry(buffer@, update as int);
            assert(e.1 < before.len());
        }
        let x = buffer[update * 3 + 1] as usize;
        let y = buffer[update * 3 + 2] as usize;
        let ghost prev = board(matrix);
        assert(matrix@[y as int]@.len() == prev[y as int].len());
        matrix[y][x] = buffer[update * 3 + 3];
        proof {
            let now = board(matrix);
            assert(now =~= prev.update(y as int, prev[y as int].update(x as int, buffer@[update * 3 + 3])));
            assert(update_entry(buffer@, update as int) == (buffer@[update * 3 + 1], buffer@[update * 3 + 2], buffer@[update * 3 + 3]));
        }
        update += 1;
    }
}


/// The kind that the client reads from the byte by which the server
/// announces kind `t`: the kind of the same name.
pub open spec fn same_kind(t: crate::webserver::MessageType) -> MessageType {
    match t {
        crate::webserver::MessageType::Init => MessageType::Init,
        crate::webserver::MessageType::Update => MessageType::Update,
        crate::webserver::MessageType::Win => MessageType::Win,
        crate::webserver::MessageType::Lose => MessageType::Lose,
    }
}

/// The client reads every kind of message that the server announces as
/// the kind of the same name.
pub proof fn lemma_message_kind_roundtrip(t: crate::webserver::MessageType)
    ensures
        message_kind(message_code(t)) == same_kind(t),
{
}

/// After a client loads the server's initial-map message for player `me`,
/// each of the top-left 32 rows of 64 cells shows the server's cell as `me`
/// sees it: 1 for its own stones, 0 for empty cells, 2 for the others'.
pub proof fn lemma_init_map_reaches_client(
    server: Seq<Seq<u8>>,
    me: u8,
    bytes: Seq<u8>,
    before: Seq<Seq<u8>>,
    after: Seq<Seq<u8>>,
)
    requires
        init_map_message(server, 64, 32, me, bytes),
        init_map_received(before, bytes, after),
    ensures
        forall|i: int, j: int|
            0 <= i < 32 && 0 <= j < 64 && i < before.len() && j < before[i].len() ==> #[trigger] after[i][j]
                == cell_view(server[i][j], me),
{
    assert forall|i: int, j: int|
        0 <= i < 32 && 0 <= j < 64 && i < before.len() && j < before[i].len() implies #[trigger] after[i][j]
            == cell_view(server[i][j], me) by {
        assert(bytes[i * 64 + j] == cell_view(server[i][j], me));
    }
}

/// The value that cell (`x`, `y`) holds after the first `k` of the last
/// `n` moves of `changes` have been applied as player `me` sees them,
/// starting from `start`: the view of the last of those moves on that cell,
/// or `start` when none of them is on it.
pub open spec fn window_value(
    changes: Seq<(u8, u8, u8)>,
    n: int,
    me: i32,
    x: int,
    y: int,
    k: int,
    start: u8,
) -> u8
    decreases k,
{
    if k <= 0 {
        start
    } else {
        let change = changes[changes.len() - n + (k - 1)];
        if change.0 == x && change.1 == y {
            move_view(change.2, me)
        } else {
            window_value(changes, n, me, x, y, k - 1, start)
        }
    }
}

/// Every one of the last `n` moves of `changes` names a cell of board `b`.
pub open spec fn moves_in_bounds(changes: Seq<(u8, u8, u8)>, n: int, b: Seq<Seq<u8>>) -> bool {
    forall|k: int|
        0 <= k < n ==> {
            let change = #[trigger] changes[changes.len() - n + k];
            &&& (change.1 as int) < b.len()
            &&& (change.0 as int) < b[change.1 as int].len()
        }
}

/// Applying the entries of an update message that carry moves gives each
/// cell the value of the last of those moves on it.
proof fn lemma_update_window(
    changes: Seq<(u8, u8, u8)>,
    n: int,
    me: i32,
    bytes: Seq<u8>,
    before: Seq<Seq<u8>>,
    k: int,
)
    requires
        update_message(changes, n, me, bytes),
        0 <= k <= n,
        n <= changes.len(),
        moves_in_bounds(changes, n, before),
    ensures
        updates_in_bounds(before, bytes, k),
        updates_applied(before, bytes, k).len() == before.len(),
        forall|y: int| 0 <= y < before.len() ==> #[trigger] updates_applied(before, bytes, k)[y].len() == before[y].len(),
        forall|y: int, x: int|
            0 <= y < before.len() && 0 <= x < before[y].len() ==> #[trigger] updates_applied(before, bytes, k)[y][x]
                == window_value(changes, n, me, x, y, k, before[y][x]),
    decreases k,
{
    if k > 0 {
        lemma_update_window(changes, n, me, bytes, before, k - 1);
        let e = update_entry(bytes, k - 1);
        let change = changes[changes.len() - n + (k - 1)];
        assert(e == (change.0, change.1, move_view(change.2, me)));
        assert forall|t: int| 0 <= t < k implies (#[trigger] update_entry(bytes, t)).1 < before.len()
            && update_entry(bytes, t).0 < before[update_entry(bytes, t).1 as int].len() by {
            let c = changes[changes.len() - n + t];
            assert(update_entry(bytes, t) == (c.0, c.1, move_view(c.2, me)));
        }
    }
}

/// What a client's board holds after it applies the server's update
/// message for player `me` carrying the last `n` moves: every cell but the
/// corner (0, 0) holds the last of those moves on it as `me` sees it (1 for
/// its own, 2 for another player's), or what it held before when none of
/// them is on it; the corner holds 0, since the message announces
/// `3 * n + 1` entries and those after the moves are (0, 0, 0).
pub proof fn lemma_update_reaches_client(
    changes: Seq<(u8, u8, u8)>,
    n: int,
    me: i32,
    bytes: Seq<u8>,
    before: Seq<Seq<u8>>,
)
    requires
        update_message(changes, n, me, bytes),
        0 <= n <= changes.len(),
        3 * bytes[0] < bytes.len(),
        before.len() > 0,
        before[0].len() > 0,
        moves_in_bounds(changes, n, before),
    ensures
        updates_in_bounds(before, bytes, bytes[0] as int),
        updates_applied(before, bytes, bytes[0] as int).len() == before.len(),
        updates_applied(before, bytes, bytes[0] as int)[0][0] == 0,
        forall|y: int, x: int|
            0 <= y < before.len() && 0 <= x < before[y].len() && !(x == 0 && y == 0) ==> #[trigger] updates_applied(
                before,
                bytes,
                bytes[0] as int,
            )[y][x] == window_value(changes, n, me, x, y, n, before[y][x]),
{
    lemma_update_window(changes, n, me, bytes, before, n);
    lemma_update_padding(changes, n, me, bytes, before, 3 * n + 1);
}

/// The entries of an update message after its moves, all (0, 0, 0), clear
/// the corner cell and leave every other cell alone.
proof fn lemma_update_padding(
    changes: Seq<(u8, u8, u8)>,
    n: int,
    me: i32,
    bytes: Seq<u8>,
    before: Seq<Seq<u8>>,
    k: int,
)
    requires
        update_message(changes, n, me, bytes),
        0 <= n <= changes.len(),
        n <= k <= 3 * n + 1,
        3 * bytes[0] < bytes.len(),
        before.len() > 0,
        before[0].len() > 0,
        moves_in_bounds(changes, n, before),
    ensures
        updates_in_bounds(before, bytes, k),
        updates_applied(before, bytes, k).len() == before.len(),
        forall|y: int| 0 <= y < before.len() ==> #[trigger] updates_applied(before, bytes, k)[y].len() == before[y].len(),
        forall|y: int, x: int|
            0 <= y < before.len() && 0 <= x < before[y].len() ==> #[trigger] updates_applied(before, bytes, k)[y][x]
                == if k > n && x == 0 && y == 0 {
                0
            } else {
                window_value(changes, n, me, x, y, n, before[y][x])
            },
    decreases k,
{
    if k == n {
        lemma_update_window(changes, n, me, bytes, before, n);
    } else {
        lemma_update_padding(changes, n, me, bytes, before, k - 1);
        let e = update_entry(bytes, k - 1);
        assert(bytes[3 * (k - 1) + 1] == 0);
        assert(bytes[3 * (k - 1) + 2] == 0);
        assert(bytes[3 * (k - 1) + 3] == 0);
        assert(e == (0u8, 0u8, 0u8));
        assert forall|t: int| 0 <= t < k implies (#[trigger] update_entry(bytes, t)).1 < before.len()
            && update_entry(bytes, t).0 < before[update_entry(bytes, t).1 as int].len() by {
            if t == k - 1 {
            } else {
            }
        }
    }
}


/// The ASCII decimal digits of `n`, without leading zeros.
pub open spec fn decimal(n: u8) -> Seq<u8> {
    if n < 10 {
        seq![(48 + n) as u8]
    } else if n < 100 {
        seq![(48 + n / 10) as u8, (48 + n % 10) as u8]
    } else {
        seq![(48 + n / 100) as u8, (48 + (n / 10) % 10) as u8, (48 + n % 10) as u8]
    }
}

/// The ANSI code that selects `colour` as the foreground: `30` to `37` for
/// the eight basic colours, `38;5;n` for an indexed colour and
/// `38;2;r;g;b` for an RGB colour.
pub open spec fn foreground_code(colour: Colour) -> Seq<u8> {
    match colour {
        Colour::Black => seq![51u8, 48u8],
        Colour::Red => seq![51u8, 49u8],
        Colour::Green => seq![51u8, 50u8],
        Colour::Yellow => seq![51u8, 51u8],
        Colour::Blue => seq![51u8, 52u8],
        Colour::Purple => seq![51u8, 53u8],
        Colour::Cyan => seq![51u8, 54u8],
        Colour::White => seq![51u8, 55u8],
        Colour::Fixed(n) => seq![51u8, 56u8, 59u8, 53u8, 59u8] + decimal(n),
        Colour::RGB(r, g, b) => seq![51u8, 56u8, 59u8, 50u8, 59u8] + decimal(r) + seq![59u8] + decimal(g) + seq![
            59u8,
        ] + decimal(b),
    }
}

/// The bytes that show `ch` in foreground `colour`, bold when `bold`
/// holds: `ESC [`, then `1;` when bold, the colour's code and `m`; then
/// the character in UTF-8; then the reset code `ESC [ 0 m`.
pub open spec fn painted(ch: char, colour: Colour, bold: bool) -> Seq<u8> {
    seq![27u8, 91u8] + (if bold { seq![49u8, 59u8] } else { Seq::empty() }) + foreground_code(colour) + seq![109u8]
        + vstd::utf8::encode_scalar(ch as u32) + seq![27u8, 91u8, 48u8, 109u8]
}

/// Paints one cell with ansi_term: a `Style` with foreground `colour` and
/// `is_bold` set to `bold` (as `Style::new().fg(..)`, with `.bold()` when
/// `bold` holds, builds it) paints `ch.to_string()`, and the result's text
/// is returned as bytes. The contract claims what ansi_term's
/// `write_prefix`, `write_foreground_code` and `write_suffix` write for
/// such a style: the escape prefix (`1;` for bold, then the colour code),
/// the character's UTF-8 bytes, and the reset code.
#[verifier::external_body]
fn paint_unit(ch: char, colour: Colour, bold: bool) -> (bytes: Vec<u8>)
    ensures
        bytes@ == painted(ch, colour, bold),
{
    let foreground = match colour {
        Colour::Black => AnsiColour::Black,
        Colour::Red => AnsiColour::Red,
        Colour::Green => AnsiColour::Green,
        Colour::Yellow => AnsiColour::Yellow,
        Colour::Blue => AnsiColour::Blue,
        Colour::Purple => AnsiColour::Purple,
        Colour::Cyan => AnsiColour::Cyan,
        Colour::White => AnsiColour::White,
        Colour::Fixed(n) => AnsiColour::Fixed(n),
        Colour::RGB(r, g, b) => AnsiColour::RGB(r, g, b),
    };
    let style = Style { foreground: Some(foreground), is_bold: bold, ..Style::new() };
    style.paint(ch.to_string()).to_string().into_bytes()
}

/// The painted text of `units`, one cell after the other.
pub open spec fn rendered(units: Seq<MapUnit>) -> Seq<u8>
    decreases units.len(),
{
    if units.len() == 0 {
        Seq::empty()
    } else {
        rendered(units.drop_last()) + painted(
            units.last().spec_ch(),
            units.last().spec_color(),
            units.last().spec_bold(),
        )
    }
}

/// The bytes that show the whole screen buffer on the terminal: each cell
/// painted in its colour, bold where it is bold, one after the other.
pub fn render_map(map: &GameMap) -> (stdout_buffer: Vec<u8>)
    ensures
        stdout_buffer@ == rendered(map.buffer@),
{
    let buffer = &map.buffer;
    let mut stdout_buffer: Vec<u8> = Vec::new();
    let mut i: usize = 0;
    while i < buffer.len()
        invariant
            buffer@ == map.buffer@,
            i <= buffer@.len(),
            stdout_buffer@ == rendered(buffer@.take(i as int)),
        decreases buffer@.len() - i,
    {
        let unit = buffer[i];
        let mut paint_str = paint_unit(unit.ch, unit.color, unit.bold);
        stdout_buffer.append(&mut paint_str);
        proof {
            assert(buffer@.take(i + 1).drop_last() =~= buffer@.take(i as int));
        }
        i += 1;
    }
    proof {
        assert(buffer@.take(buffer@.len() as int) =~= buffer@);
    }
    stdout_buffer
}


/// Buffer `buf` has exactly one bold cell, at `idx`.
pub open spec fn only_bold_at(buf: Seq<MapUnit>, idx: int) -> bool {
    &&& 0 <= idx < buf.len()
    &&& forall|m: int| 0 <= m < buf.len() ==> (#[trigger] buf[m].spec_bold() <==> m == idx)
}

/// Moving the highlight keeps exactly one bold cell on the screen: when
/// only the old highlight's cell is bold, afterwards only the new one is.
pub proof fn lemma_highlight_single_bold(before: Seq<MapUnit>, old_idx: int, new_idx: int)
    requires
        only_bold_at(before, old_idx),
        0 <= new_idx < before.len(),
    ensures
        only_bold_at(highlighted(before, old_idx, new_idx), new_idx),
{
}

/// A cursor on the board stays on the board whatever key is pressed.
pub proof fn lemma_cursor_stays_on_board(x_idx: usize, y_idx: usize, key: u8, map_x: usize, map_y: usize)
    requires
        x_idx < map_x,
        y_idx < map_y,
    ensures
        cursor_step(x_idx, y_idx, key, map_x, map_y) matches CursorStep::Moved(x, y) ==> x < map_x && y < map_y,
{
    assert((y_idx + map_y - 1) % (map_y as int) < map_y) by (nonlinear_arith)
        requires
            map_y > 0,
    ;
    assert((y_idx + 1) % (map_y as int) < map_y) by (nonlinear_arith)
        requires
            map_y > 0,
    ;
    assert((x_idx + map_x - 1) % (map_x as int) < map_x) by (nonlinear_arith)
        requires
            map_x > 0,
    ;
    assert((x_idx + 1) % (map_x as int) < map_x) by (nonlinear_arith)
        requires
            map_x > 0,
    ;
}

/// What the client does after learning the kind of the next message.
#[derive(Debug, Clone, Copy, PartialEq, Eq, Structural)]
pub enum ClientAction {
    /// Read the initial-map message that follows.
    ReadInitMap,
    /// Read the update message that follows.
    ReadUpdate,
    /// The game is over.
    Finish,
}

/// The client's reaction to a message of kind `message_type`: read the
/// initial map after `Init`, an update after `Update`, and stop after
/// `Win` or `Lose`.
pub fn next_action(message_type: MessageType) -> (action: ClientAction)
    ensures
        action == match message_type {
            MessageType::Init => ClientAction::ReadInitMap,
            MessageType::Update => ClientAction::ReadUpdate,
            MessageType::Win => ClientAction::Finish,
            MessageType::Lose => ClientAction::Finish,
        },
{
    if message_type == MessageType::Init {
        ClientAction::ReadInitMap
    } else if message_type == MessageType::Update {
        ClientAction::ReadUpdate
    } else {
        ClientAction::Finish
    }
}


/// Whether `convert_map_into_buffer` can draw `matrix` into `map`: the
/// terminal is at least one cell wide, the buffer holds the board's
/// `map_y + 2` screen lines, and the board has `map_y` rows of at least
/// `map_x` cells.
pub fn can_draw(matrix: &Vec<Vec<u8>>, map: &GameMap) -> (ok: bool)
    ensures
        ok == ({
            &&& map.term_x > 0
            &&& (map.map_y + 2) * line_width(map.map_x as int, map.term_x as int) <= map.buffer@.len()
            &&& map.map_y <= matrix@.len()
            &&& forall|i: int| 0 <= i < map.map_y ==> map.map_x <= #[trigger] matrix@[i]@.len()
        }),
{
    if map.term_x == 0 {
        return false;
    }
    let ghost w = line_width(map.map_x as int, map.term_x as int);
    proof {
        let r = map.map_x + 2;
        assert(r % (map.term_x as int) < map.term_x) by (nonlinear_arith)
            requires
                map.term_x > 0,
        ;
        assert(w >= map.map_x + 2);
        assert((map.map_y + 2) * w >= w) by (nonlinear_arith)
            requires
                w >= 0,
        ;
        assert((map.map_y + 2) * w >= map.map_y + 2) by (nonlinear_arith)
            requires
                w >= 1,
        ;
        assert(map.buffer@.len() == map.buffer.len());
    }
    let row_len = match map.map_x.checked_add(2) {
        Some(r) => r,
        None => {
            return false;
        },
    };
    let rem = row_len % map.term_x;
    assert(rem <= row_len) by (nonlinear_arith)
        requires
            rem == row_len % map.term_x,
            map.term_x > 0,
    ;
    let width = if rem == 0 {
        row_len
    } else {
        match (row_len - rem).checked_add(map.term_x) {
            Some(v) => v,
            None => {
                return false;
            },
        }
    };
    assert(width == w);
    let lines = match map.map_y.checked_add(2) {
        Some(l) => l,
        None => {
            return false;
        },
    };
    let total = match lines.checked_mul(width) {
        Some(t) => t,
        None => {
            return false;
        },
    };
    if total > map.buffer.len() {
        return false;
    }
    if map.map_y > matrix.len() {
        return false;
    }
    let mut i: usize = 0;
    while i < map.map_y
        invariant
            map.map_y <= matrix@.len(),
            i <= map.map_y,
            forall|r: int| 0 <= r < i ==> map.map_x <= #[trigger] matrix@[r]@.len(),
        decreases map.map_y - i,
    {
        if matrix[i].len() < map.map_x {
            return false;
        }
        i += 1;
    }
    true
}

/// Whether `apply_init_map` can load `buffer` into `matrix`: the message
/// has 2048 bytes and the board at least 32 rows of at least 64 cells.
pub fn init_map_fits(matrix: &Vec<Vec<u8>>, buffer: &[u8]) -> (ok: bool)
    ensures
        ok == ({
            &&& buffer@.len() >= 64 * 32
            &&& matrix@.len() >= 32
            &&& forall|i: int| 0 <= i < 32 ==> 64 <= #[trigger] matrix@[i]@.len()
        }),
{
    if buffer.len() < 64 * 32 || matrix.len() < 32 {
        return false;
    }
    let mut i: usize = 0;
    while i < 32
        invariant
            matrix@.len() >= 32,
            i <= 32,
            forall|r: int| 0 <= r < i ==> 64 <= #[trigger] matrix@[r]@.len(),
        decreases 32 - i,
    {
        if matrix[i].len() < 64 {
            return false;
        }
        i += 1;
    }
    true
}

/// Whether `apply_update_map` can apply `buffer` to `matrix`: the message
/// holds all the entries its first byte counts, and each of them names a
/// cell of the board.
pub fn update_fits(matrix: &Vec<Vec<u8>>, buffer: &[u8]) -> (ok: bool)
    ensures
        ok == ({
            &&& buffer@.len() > 0
            &&& 3 * buffer@[0] < buffer@.len()
            &&& updates_in_bounds(board(matrix), buffer@, buffer@[0] as int)
        }),
{
    if buffer.len() == 0 {
        return false;
    }
    let n = buffer[0] as usize;
    if 3 * n >= buffer.len() {
        return false;
    }
    let mut k: usize = 0;
    while k < n
        invariant
            buffer@.len() > 0,
            n == buffer@[0],
            3 * n < buffer@.len(),
            k <= n,
            updates_in_bounds(board(matrix), buffer@, k as int),
        decreases n - k,
    {
        let x = buffer[3 * k + 1] as usize;
        let y = buffer[3 * k + 2] as usize;
        if y >= matrix.len() || x >= matrix[y].len() {
            proof {
                assert(!updates_in_bounds(board(matrix), buffer@, n as int)) by {
                    let e = update_entry(buffer@, k as int);
                    assert(e.0 == x && e.1 == y);
                }
            }
            return false;
        }
        proof {
            let e = update_entry(buffer@, k as int);
            assert(e.0 == x && e.1 == y);
            assert forall|t: int| 0 <= t < k + 1 implies (#[trigger] update_entry(buffer@, t)).1 < board(matrix).len()
                && update_entry(buffer@, t).0 < board(matrix)[update_entry(buffer@, t).1 as int].len() by {
                if t < k {
                }
            }
        }
        k += 1;
    }
    true
}


/// Character `c` of screen line `k` stands at `k * width + c` among the
/// first `n` screen lines.
pub proof fn lemma_screen_index(
    b: Seq<Seq<u8>>,
    map_x: int,
    map_y: int,
    hx: int,
    hy: int,
    width: int,
    n: int,
    k: int,
    c: int,
)
    requires
        0 <= k < n,
        0 <= c < width,
    ensures
        screen_lines(b, map_x, map_y, hx, hy, width, n)[k * width + c] == screen_char(b, map_x, map_y, hx, hy, k, c),
    decreases n,
{
    lemma_screen_lines_len(b, map_x, map_y, hx, hy, width, n - 1);
    lemma_row_major(k, c, width, n);
    if k < n - 1 {
        lemma_row_major(k, c, width, n - 1);
        lemma_screen_index(b, map_x, map_y, hx, hy, width, n - 1, k, c);
    }
}

/// On the drawn screen, board cell (`i`, `j`) shows at line `i + 1`,
/// column `j + 1`, as the character for its value (a ring when it is the
/// highlighted empty cell).
pub proof fn lemma_board_cell_on_screen(b: Seq<Seq<u8>>, game_map: &GameMap, i: int, j: int)
    requires
        game_map.term_x > 0,
        0 <= i < game_map.map_y,
        0 <= j < game_map.map_x,
    ensures
        board_screen(b, game_map)[(i + 1) * line_width(game_map.map_x as int, game_map.term_x as int) + (j + 1)]
            == cell_char(b[i][j], game_map.highlight_y == i && game_map.highlight_x == j),
{
    let w = line_width(game_map.map_x as int, game_map.term_x as int);
    assert((game_map.map_x + 2) % (game_map.term_x as int) < game_map.term_x) by (nonlinear_arith)
        requires
            game_map.term_x > 0,
    ;
    assert(w >= game_map.map_x + 2);
    lemma_screen_index(
        b,
        game_map.map_x as int,
        game_map.map_y as int,
        game_map.highlight_x as int,
        game_map.highlight_y as int,
        w,
        game_map.map_y + 2,
        i + 1,
        j + 1,
    );
}


/// What `press_key` needs: the key's own arithmetic stays in range (as
/// `next_cursor` requires), and when the key moves the cursor, both the old
/// highlight's cell and the new one lie in the buffer (as
/// `set_unit_as_highlight` requires).
pub open spec fn key_fits_spec(game_map: &GameMap, x_idx: usize, y_idx: usize, key: u8, map_x: usize, map_y: usize) -> bool {
    &&& key == 119 ==> map_y > 0 && y_idx + map_y <= usize::MAX
    &&& key == 115 ==> map_y > 0 && y_idx + 1 <= usize::MAX
    &&& key == 97 ==> map_x > 0 && x_idx + map_x <= usize::MAX
    &&& key == 100 ==> map_x > 0 && x_idx + 1 <= usize::MAX
    &&& cursor_step(x_idx, y_idx, key, map_x, map_y) matches CursorStep::Moved(nx, ny) ==> {
        &&& game_map.highlight_y * map_x + game_map.highlight_x < game_map.buffer@.len()
        &&& ny * map_x + nx < game_map.buffer@.len()
    }
}

/// Whether `press_key` can take key `key` at (`x_idx`, `y_idx`).
pub fn key_fits(game_map: &GameMap, x_idx: usize, y_idx: usize, key: u8, map_x: usize, map_y: usize) -> (ok: bool)
    ensures
        ok == key_fits_spec(game_map, x_idx, y_idx, key, map_x, map_y),
{
    if key == 119 && (map_y == 0 || y_idx.checked_add(map_y).is_none()) {
        return false;
    }
    if key == 115 && (map_y == 0 || y_idx.checked_add(1).is_none()) {
        return false;
    }
    if key == 97 && (map_x == 0 || x_idx.checked_add(map_x).is_none()) {
        return false;
    }
    if key == 100 && (map_x == 0 || x_idx.checked_add(1).is_none()) {
        return false;
    }
    let len = game_map.buffer.len();
    match next_cursor(x_idx, y_idx, key, map_x, map_y) {
        CursorStep::Moved(nx, ny) => {
            let old_ok = match game_map.highlight_y.checked_mul(map_x) {
                Some(v) => match v.checked_add(game_map.highlight_x) {
                    Some(i) => i < len,
                    None => false,
                },
                None => {
                    proof {
                        assert(game_map.highlight_y * map_x + game_map.highlight_x >= game_map.highlight_y * map_x);
                    }
                    false
                },
            };
            let new_ok = match ny.checked_mul(map_x) {
                Some(v) => match v.checked_add(nx) {
                    Some(i) => i < len,
                    None => false,
                },
                None => false,
            };
            old_ok && new_ok
        },
        _ => true,
    }
}

/// One key press while choosing a move: the step `next_cursor` gives, and,
/// when the cursor moves, the highlight moved to the new cell.
pub fn press_key(
    game_map: &mut GameMap,
    x_idx: usize,
    y_idx: usize,
    key: u8,
    map_x: usize,
    map_y: usize,
) -> (step: CursorStep)
    requires
        key_fits_spec(old(game_map), x_idx, y_idx, key, map_x, map_y),
    ensures
        step == cursor_step(x_idx, y_idx, key, map_x, map_y),
        step matches CursorStep::Moved(nx, ny) ==> {
            &&& final(game_map).buffer@ == highlighted(
                old(game_map).buffer@,
                old(game_map).highlight_y * map_x + old(game_map).highlight_x,
                ny * map_x + nx,
            )
            &&& final(game_map).highlight_x == nx
            &&& final(game_map).highlight_y == ny
        },
        !(step is Moved) ==> *final(game_map) == *old(game_map),
        x_idx < map_x && y_idx < map_y ==> (step matches CursorStep::Moved(nx, ny) ==> nx < map_x && ny < map_y),
        final(game_map).map_x == old(game_map).map_x,
        final(game_map).map_y == old(game_map).map_y,
        final(game_map).term_x == old(game_map).term_x,
        final(game_map).term_y == old(game_map).term_y,
{
    proof {
        if x_idx < map_x && y_idx < map_y {
            lemma_cursor_stays_on_board(x_idx, y_idx, key, map_x, map_y);
        }
    }
    let step = next_cursor(x_idx, y_idx, key, map_x, map_y);
    if let CursorStep::Moved(nx, ny) = step {
        set_unit_as_highlight(nx, ny, game_map, map_x);
    }
    step
}


/// What the drawn screen shows for board cell (`i`, `j`), at line `i + 1`,
/// column `j + 1`: `X` for the player's own stone (1), `#` for another
/// player's stone (2), `?` for any other nonzero value, whether or not the
/// cursor is on it; an empty cell (0) shows a ring exactly when it is the
/// highlighted cell, and a blank otherwise.
pub proof fn lemma_screen_shows_cell(b: Seq<Seq<u8>>, game_map: &GameMap, i: int, j: int)
    requires
        game_map.term_x > 0,
        0 <= i < game_map.map_y,
        0 <= j < game_map.map_x,
    ensures
        ({
            let shown = board_screen(b, game_map)[(i + 1) * line_width(game_map.map_x as int, game_map.term_x as int)
                + (j + 1)];
            let under_cursor = game_map.highlight_y == i && game_map.highlight_x == j;
            &&& b[i][j] == 1 ==> shown == 'X'
            &&& b[i][j] == 2 ==> shown == '#'
            &&& b[i][j] > 2 ==> shown == '?'
            &&& b[i][j] == 0 && under_cursor ==> shown == '\u{25cb}'
            &&& b[i][j] == 0 && !under_cursor ==> shown == ' '
        }),
{
    lemma_board_cell_on_screen(b, game_map, i, j);
}

/// The cursor's ring never hides a stone: a cell holding any nonzero value
/// is drawn with the same character whether or not the cursor is on it,
/// and only an empty cell turns into the ring.
pub proof fn lemma_ring_only_on_empty(v: u8)
    ensures
        v != 0 ==> cell_char(v, true) == cell_char(v, false),
        cell_char(v, false) != '\u{25cb}',
        cell_char(v, true) == '\u{25cb}' <==> v == 0,
{
}

/// The painted screen is each cell painted with its own character, colour
/// and boldness, one cell after the other: one cell paints as `painted` of
/// its fields, and appending a cell appends its painted bytes.
pub proof fn lemma_rendered_cells(units: Seq<MapUnit>, unit: MapUnit)
    ensures
        rendered(Seq::empty()) == Seq::<u8>::empty(),
        rendered(seq![unit]) == painted(unit.spec_ch(), unit.spec_color(), unit.spec_bold()),
        rendered(units.push(unit)) == rendered(units) + painted(unit.spec_ch(), unit.spec_color(), unit.spec_bold()),
{
    assert(seq![unit].drop_last() =~= Seq::<MapUnit>::empty());
    assert(rendered(Seq::<MapUnit>::empty()) =~= Seq::<u8>::empty());
    assert(rendered(seq![unit]) =~= painted(unit.spec_ch(), unit.spec_color(), unit.spec_bold()));
    assert(units.push(unit).drop_last() =~= units);
}

/// The cursor keys move one cell and wrap only at the board's edges: from
/// a cell on the board, `s` moves down one row (to row 0 from the last
/// row), `w` up one row (to the last row from row 0), `d` right one column
/// (to column 0 from the last column), `a` left one column (to the last
/// column from column 0), each keeping the other coordinate; a newline
/// confirms and every other key is ignored.
pub proof fn lemma_cursor_moves_one_cell(x: usize, y: usize, key: u8, map_x: usize, map_y: usize)
    requires
        x < map_x,
        y < map_y,
    ensures
        key == 115 && y + 1 < map_y ==> cursor_step(x, y, key, map_x, map_y) == CursorStep::Moved(x, (y + 1) as usize),
        key == 115 && y + 1 == map_y ==> cursor_step(x, y, key, map_x, map_y) == CursorStep::Moved(x, 0),
        key == 119 && y > 0 ==> cursor_step(x, y, key, map_x, map_y) == CursorStep::Moved(x, (y - 1) as usize),
        key == 119 && y == 0 ==> cursor_step(x, y, key, map_x, map_y) == CursorStep::Moved(x, (map_y - 1) as usize),
        key == 100 && x + 1 < map_x ==> cursor_step(x, y, key, map_x, map_y) == CursorStep::Moved((x + 1) as usize, y),
        key == 100 && x + 1 == map_x ==> cursor_step(x, y, key, map_x, map_y) == CursorStep::Moved(0, y),
        key == 97 && x > 0 ==> cursor_step(x, y, key, map_x, map_y) == CursorStep::Moved((x - 1) as usize, y),
        key == 97 && x == 0 ==> cursor_step(x, y, key, map_x, map_y) == CursorStep::Moved((map_x - 1) as usize, y),
        key == 10 ==> cursor_step(x, y, key, map_x, map_y) == CursorStep::Confirmed,
        key != 115 && key != 119 && key != 100 && key != 97 && key != 10 ==> cursor_step(x, y, key, map_x, map_y)
            == CursorStep::Ignored,
{
    let my = map_y as int;
    let mx = map_x as int;
    assert(y + 1 < my ==> (y + 1) % my == y + 1) by (nonlinear_arith)
        requires
            0 <= y < my,
    ;
    assert(y + 1 == my ==> (y + 1) % my == 0) by (nonlinear_arith)
        requires
            0 <= y < my,
    ;
    assert(y > 0 ==> (y + my - 1) % my == y - 1) by (nonlinear_arith)
        requires
            0 <= y < my,
    ;
    assert(y == 0 ==> (y + my - 1) % my == my - 1) by (nonlinear_arith)
        requires
            0 <= y < my,
    ;
    assert(x + 1 < mx ==> (x + 1) % mx == x + 1) by (nonlinear_arith)
        requires
            0 <= x < mx,
    ;
    assert(x + 1 == mx ==> (x + 1) % mx == 0) by (nonlinear_arith)
        requires
            0 <= x < mx,
    ;
    assert(x > 0 ==> (x + mx - 1) % mx == x - 1) by (nonlinear_arith)
        requires
            0 <= x < mx,
    ;
    assert(x == 0 ==> (x + mx - 1) % mx == mx - 1) by (nonlinear_arith)
        requires
            0 <= x < mx,
    ;
}


/// The frame of the drawn screen: the first and the last of its
/// `map_y + 2` lines show `@` across the board's `map_x + 2` columns; every
/// line in between shows `@` in its first column and in column
/// `map_x + 1`; and every line is blank after column `map_x + 1`, up to the
/// line's width.
pub proof fn lemma_screen_frame(b: Seq<Seq<u8>>, game_map: &GameMap, k: int, c: int)
    requires
        game_map.term_x > 0,
        0 <= k < game_map.map_y + 2,
        0 <= c < line_width(game_map.map_x as int, game_map.term_x as int),
    ensures
        ({
            let shown = board_screen(b, game_map)[k * line_width(game_map.map_x as int, game_map.term_x as int) + c];
            &&& (k == 0 || k == game_map.map_y + 1) && c < game_map.map_x + 2 ==> shown == '@'
            &&& 0 < k < game_map.map_y + 1 && (c == 0 || c == game_map.map_x + 1) ==> shown == '@'
            &&& c >= game_map.map_x + 2 ==> shown == ' '
        }),
{
    lemma_screen_index(
        b,
        game_map.map_x as int,
        game_map.map_y as int,
        game_map.highlight_x as int,
        game_map.highlight_y as int,
        line_width(game_map.map_x as int, game_map.term_x as int),
        game_map.map_y + 2,
        k,
        c,
    );
}

} // verus!
