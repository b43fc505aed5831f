use vstd::prelude::*;
use crate::board::{Game, cell_index, lemma_cell_index};
use crate::rules::{GameView, in_bounds, stone_at, stones_in_bounds};
use crate::stone::{Size, Stone, extent_of, is_legal_extent, lemma_extent_legal};
use crate::text::{
    all_digits, chars_of, digits_value, is_white, lemma_split_on_prefix, lemma_split_on_whole,
    lemma_trim_unchanged, numeral_value, small_numeral, split, split_on, trim, trimmed, unsigned_part,
    views,
};

verus! {

/// The character that stands for a tile: `b`, `w`, or `.` when empty.
pub open spec fn tile_char(t: Option<Stone>) -> char {
    match t {
        Some(Stone::Black) => 'b',
        Some(Stone::White) => 'w',
        None => '.',
    }
}

/// The character that stands for a colour.
pub open spec fn turn_char(s: Stone) -> char {
    match s {
        Stone::Black => 'b',
        Stone::White => 'w',
    }
}

/// The stone a tile character stands for: `b` and `w` are stones, any
/// other character an empty tile.
pub open spec fn stone_of_char(c: char) -> Option<Stone> {
    if c == 'b' {
        Some(Stone::Black)
    } else if c == 'w' {
        Some(Stone::White)
    } else {
        None
    }
}

/// The decimal digit for `d < 10`.
pub open spec fn digit_char(d: int) -> char {
    ((d + 48) as u32) as char
}

/// The decimal form of `n`, without leading zeros.
pub open spec fn decimal_text(n: nat) -> Seq<char>
    decreases n,
{
    if n < 10 {
        seq![digit_char(n as int)]
    } else {
        decimal_text(n / 10).push(digit_char((n % 10) as int))
    }
}

/// The point of row-major tile `k` on a board of extent `e`.
pub open spec fn point_of(e: int, k: int) -> (int, int) {
    (k % e, k / e)
}

/// The tiles of a board, row after row.
pub open spec fn board_tiles(g: GameView) -> Seq<char> {
    Seq::new(
        (g.extent * g.extent) as nat,
        |k: int| tile_char(stone_at(g.stones, point_of(g.extent, k))),
    )
}

/// The wire form of a game: `<extent>;<tiles>;<turn>`.
pub open spec fn encoding(g: GameView) -> Seq<char> {
    decimal_text(g.extent as nat) + seq![';'] + board_tiles(g) + seq![';', turn_char(g.turn)]
}

fn tile_str(t: Option<Stone>) -> (r: &'static str)
    ensures
        r@ == seq![tile_char(t)],
{
    proof {
        reveal_strlit("b");
        reveal_strlit("w");
        reveal_strlit(".");
    }
    match t {
        Some(Stone::Black) => "b",
        Some(Stone::White) => "w",
        None => ".",
    }
}

fn extent_str(size: Size) -> (r: &'static str)
    ensures
        r@ == decimal_text(extent_of(size) as nat),
{
    proof {
        reveal_strlit("9");
        reveal_strlit("13");
        reveal_strlit("17");
        reveal_strlit("19");
        reveal_with_fuel(decimal_text, 2);
    }
    match size {
        Size::Nine => "9",
        Size::Thirteen => "13",
        Size::Seventeen => "17",
        Size::Nineteen => "19",
    }
}

proof fn lemma_row_major(e: int, x: int, y: int)
    requires
        0 <= x < e,
        0 <= y,
    ensures
        (y * e + x) % e == x,
        (y * e + x) / e == y,
{
    vstd::arithmetic::div_mod::lemma_fundamental_div_mod_converse(y * e + x, e, y, x);
}

/// The wire form of `game`.
pub fn encode(game: &Game) -> (r: String)
    ensures
        r@ == encoding(game@),
{
    let ghost g = game@;
    let size = game.size();
    proof {
        game.lemma_view_well_formed();
    }
    let mut out = String::new();
    out.append(extent_str(size));
    proof {
        reveal_strlit(";");
    }
    out.append(";");
    let ghost head = out@;
    let e = size.extent() as i8;
    let ghost tiles = board_tiles(g);
    let mut row: i8 = 0;
    while row < e
        invariant
            g == game@,
            e as int == g.extent,
            1 <= e <= 19,
            0 <= row <= e,
            out@ == head + tiles.subrange(0, row * e),
            tiles == board_tiles(g),
        decreases e - row,
    {
        let mut col: i8 = 0;
        while col < e
            invariant
                g == game@,
                e as int == g.extent,
                1 <= e <= 19,
                0 <= row < e,
                0 <= col <= e,
                out@ == head + tiles.subrange(0, row * e + col),
                tiles == board_tiles(g),
            decreases e - col,
        {
            proof {
                lemma_row_major(e as int, col as int, row as int);
                assert(0 <= row * e + col < e * e) by (nonlinear_arith)
                    requires
                        0 <= col < e,
                        0 <= row < e,
                ;
            }
            let t = game.at((col, row));
            out.append(tile_str(t));
            proof {
                assert(tiles.subrange(0, row * e + col + 1) =~= tiles.subrange(0, row * e + col).push(
                    tile_char(t),
                ));
            }
            col += 1;
        }
        proof {
            assert(row * e + e == (row + 1) * e) by (nonlinear_arith);
        }
        row += 1;
    }
    proof {
        assert(tiles.subrange(0, e * e) =~= tiles);
        reveal_strlit("b");
        reveal_strlit("w");
    }
    out.append(";");
    match game.turn() {
        Stone::Black => out.append("b"),
        Stone::White => out.append("w"),
    }
    assert(out@ =~= encoding(g));
    out
}

/// Row `y` of a board as text, one tile character per column.
pub open spec fn row_text(g: GameView, y: int) -> Seq<char> {
    Seq::new(g.extent as nat, |x: int| tile_char(stone_at(g.stones, (x, y))))
}

/// The first `n` rows of a board, each followed by a line break.
pub open spec fn rows_text(g: GameView, n: int) -> Seq<char>
    decreases n,
{
    if n <= 0 {
        Seq::empty()
    } else {
        rows_text(g, n - 1) + row_text(g, n - 1) + seq!['\n']
    }
}

/// The board drawn as a grid: a blank line, the rows, and a closing blank
/// line.
pub open spec fn picture(g: GameView) -> Seq<char> {
    seq!['\n', '\n'] + rows_text(g, g.extent) + seq!['\n']
}

impl Game {
    /// The board drawn as a grid of `b`, `w` and `.`, for logs.
    pub fn render(&self) -> (r: String)
        ensures
            r@ == picture(self@),
    {
        let ghost g = self@;
        proof {
            self.lemma_view_well_formed();
            reveal_strlit("\n");
            reveal_strlit("\n\n");
        }
        let mut out = String::new();
        out.append("\n\n");
        let e = self.size().extent() as i8;
        let mut row: i8 = 0;
        while row < e
            invariant
                g == self@,
                e as int == g.extent,
                1 <= e <= 19,
                0 <= row <= e,
                out@ == seq!['\n', '\n'] + rows_text(g, row as int),
            decreases e - row,
        {
            let ghost line = out@;
            let mut col: i8 = 0;
            while col < e
                invariant
                    g == self@,
                    e as int == g.extent,
                    1 <= e <= 19,
                    0 <= row < e,
                    0 <= col <= e,
                    out@ == line + row_text(g, row as int).subrange(0, col as int),
                decreases e - col,
            {
                let t = self.at((col, row));
                out.append(tile_str(t));
                proof {
                    assert(row_text(g, row as int).subrange(0, col + 1) =~= row_text(g, row as int).subrange(
                        0,
                        col as int,
                    ).push(tile_char(t)));
                }
                col += 1;
            }
            proof {
                reveal_strlit("\n");
            }
            out.append("\n");
            proof {
                assert(row_text(g, row as int).subrange(0, e as int) =~= row_text(g, row as int));
                let next = row as int + 1;
                assert(rows_text(g, next) == rows_text(g, row as int) + row_text(g, row as int) + seq!['\n']);
                assert(out@ =~= seq!['\n', '\n'] + rows_text(g, next));
            }
            row += 1;
        }
        proof {
            reveal_strlit("\n");
        }
        out.append("\n");
        out
    }
}

/// The colour a turn field names: exactly `b` or `w`.
pub open spec fn turn_of_field(f: Seq<char>) -> Option<Stone> {
    if f == seq!['b'] {
        Some(Stone::Black)
    } else if f == seq!['w'] {
        Some(Stone::White)
    } else {
        None
    }
}

/// The stones that a row-major run of tiles puts on a board of extent `e`:
/// tile `y * e + x` stands at `(x, y)`; a run shorter than the board leaves
/// the rest empty, and tiles past the board are ignored.
pub open spec fn tiles_stones(e: int, tiles: Seq<char>) -> Map<(int, int), Stone> {
    Map::new(
        |p: (int, int)|
            in_bounds(e, p) && cell_index(e, p) < tiles.len() && stone_of_char(
                tiles[cell_index(e, p)],
            ) is Some,
        |p: (int, int)| stone_of_char(tiles[cell_index(e, p)])->Some_0,
    )
}

/// The game that the wire text `s` describes, if any: surrounding
/// whitespace is ignored; the first `;`-separated field must be a legal
/// extent, the third exactly `b` or `w`.
pub open spec fn decoding(s: Seq<char>) -> Option<GameView> {
    let f = split_on(trim(s), ';');
    if f.len() >= 3 && numeral_value(f[0]) is Some && is_legal_extent(numeral_value(f[0])->0)
        && turn_of_field(f[2]) is Some {
        Some(
            GameView {
                id: 0,
                stones: tiles_stones(numeral_value(f[0])->0, f[1]),
                extent: numeral_value(f[0])->0,
                turn: turn_of_field(f[2])->0,
            },
        )
    } else {
        None
    }
}

fn stone_of(c: char) -> (r: Option<Stone>)
    ensures
        r == stone_of_char(c),
{
    if c == 'b' {
        Some(Stone::Black)
    } else if c == 'w' {
        Some(Stone::White)
    } else {
        None
    }
}

fn turn_field(f: &Vec<char>) -> (r: Option<Stone>)
    ensures
        r == turn_of_field(f@),
{
    if f.len() != 1 {
        return None;
    }
    if f[0] == 'b' {
        assert(f@ =~= seq!['b']);
        Some(Stone::Black)
    } else if f[0] == 'w' {
        assert(f@ =~= seq!['w']);
        Some(Stone::White)
    } else {
        assert(f@ != seq!['b'] && f@ != seq!['w']) by {
            if f@ == seq!['b'] {
                assert(f@[0] == 'b');
            }
            if f@ == seq!['w'] {
                assert(f@[0] == 'w');
            }
        }
        None
    }
}

/// Reads the wire form of a game; `None` when the extent or the turn field
/// is malformed.
pub fn decode(game_str: &str) -> (r: Option<Game>)
    ensures
        r is Some <==> decoding(game_str@) is Some,
        r matches Some(g) ==> decoding(game_str@) == Some(g@),
{
    let chars = chars_of(game_str);
    let text = trimmed(&chars);
    let fields = split(&text, ';');
    let ghost f = split_on(trim(game_str@), ';');
    assert(views(fields@) == f);
    if fields.len() < 3 {
        return None;
    }
    assert(fields@[0]@ == f[0] && fields@[1]@ == f[1] && fields@[2]@ == f[2]);
    let size = match small_numeral(&fields[0], 19) {
        Some(v) => match Size::from_extent(v) {
            Some(z) => z,
            None => return None,
        },
        None => return None,
    };
    let turn = match turn_field(&fields[2]) {
        Some(t) => t,
        None => return None,
    };
    let tiles = &fields[1];
    proof {
        lemma_extent_legal(size);
    }
    let e = size.extent() as usize;
    assert(e * e <= 361) by (nonlinear_arith)
        requires
            e <= 19,
    ;
    let n = e * e;
    let mut cells: Vec<Option<Stone>> = Vec::new();
    let mut k: usize = 0;
    while k < n
        invariant
            n == extent_of(size) * extent_of(size),
            e == extent_of(size),
            f.len() >= 3,
            tiles@ == f[1],
            0 <= k <= n,
            cells.len() == k,
            forall|j: int|
                0 <= j < k ==> #[trigger] cells@[j] == if j < tiles.len() {
                    stone_of_char(tiles@[j])
                } else {
                    None
                },
        decreases n - k,
    {
        if k < tiles.len() {
            cells.push(stone_of(tiles[k]));
        } else {
            cells.push(None);
        }
        k += 1;
    }
    let game = Game::from_cells(cells, size, turn);
    proof {
        let ee = e as int;
        assert forall|p: (int, int)| in_bounds(ee, p) implies 0 <= #[trigger] cell_index(ee, p) < n by {
            lemma_cell_index(ee, p, p);
        }
        assert(game@.stones =~= tiles_stones(ee, f[1]));
    }
    Some(game)
}

/// The stones of a grid of rows: row `y`, once trimmed, holds at column
/// `x` the tile of `(x, y)`.
pub open spec fn grid_stones(e: int, rows: Seq<Seq<char>>) -> Map<(int, int), Stone> {
    Map::new(
        |p: (int, int)| in_bounds(e, p) && stone_of_char(trim(rows[p.1])[p.0]) is Some,
        |p: (int, int)| stone_of_char(trim(rows[p.1])[p.0])->Some_0,
    )
}

/// Every row of `rows`, once trimmed, is `n` characters long.
pub open spec fn rows_of_length(rows: Seq<Seq<char>>, n: int) -> bool {
    forall|y: int| 0 <= y < rows.len() ==> #[trigger] trim(rows[y]).len() == n
}

/// The game that the human-readable grid `s` describes, with `turn` to
/// move: after trimming `s`, its lines are the rows; their number must be a
/// legal extent and each trimmed row must be as long as there are rows.
pub open spec fn parsing(s: Seq<char>, turn: Stone) -> Option<GameView> {
    let rows = split_on(trim(s), '\n');
    if is_legal_extent(rows.len() as int) && rows_of_length(rows, rows.len() as int) {
        Some(GameView { id: 0, stones: grid_stones(rows.len() as int, rows), extent: rows.len() as int, turn })
    } else {
        None
    }
}

/// Builds a game from a human-readable grid of `b`, `w` and empty tiles,
/// one line per row; `None` unless the grid is square with a legal extent.
pub fn parse(board_str: &str, turn: Stone) -> (r: Option<Game>)
    ensures
        r is Some <==> parsing(board_str@, turn) is Some,
        r matches Some(g) ==> parsing(board_str@, turn) == Some(g@),
{
    let chars = chars_of(board_str);
    let text = trimmed(&chars);
    let lines = split(&text, '\n');
    let ghost ls = split_on(trim(board_str@), '\n');
    assert(views(lines@) == ls);
    let size = match Size::from_extent(lines.len()) {
        Some(z) => z,
        None => return None,
    };
    proof {
        lemma_extent_legal(size);
    }
    let n = lines.len();
    let mut rows: Vec<Vec<char>> = Vec::new();
    let mut y: usize = 0;
    while y < n
        invariant
            n == lines.len(),
            n == ls.len(),
            ls == split_on(trim(board_str@), '\n'),
            n == extent_of(size),
            views(lines@) == ls,
            0 <= y <= n,
            rows.len() == y,
            forall|j: int| 0 <= j < y ==> (#[trigger] rows@[j])@ == trim(ls[j]),
            forall|j: int| 0 <= j < y ==> trim(#[trigger] ls[j]).len() == n,
        decreases n - y,
    {
        let row = trimmed(&lines[y]);
        assert(lines@[y as int]@ == ls[y as int]);
        if row.len() != n {
            assert(trim(ls[y as int]).len() != n);
            assert(!rows_of_length(ls, n as int));
            return None;
        }
        rows.push(row);
        y += 1;
    }
    assert(rows_of_length(ls, n as int));
    let e = n as i8;
    let mut cells: Vec<Option<Stone>> = Vec::new();
    let mut row: i8 = 0;
    while row < e
        invariant
            e as int == n,
            n == extent_of(size),
            ls == split_on(trim(board_str@), '\n'),
            9 <= n <= 19,
            n == ls.len(),
            rows.len() == n,
            forall|j: int| 0 <= j < n ==> (#[trigger] rows@[j])@ == trim(ls[j]),
            forall|j: int| 0 <= j < n ==> trim(#[trigger] ls[j]).len() == n,
            0 <= row <= e,
            cells.len() == row * e,
            forall|p: (int, int)|
                in_bounds(n as int, p) && #[trigger] cell_index(n as int, p) < cells.len() ==> cells@[cell_index(n as int, p)]
                    == stone_of_char(trim(ls[p.1])[p.0]),
        decreases e - row,
    {
        let mut col: i8 = 0;
        while col < e
            invariant
                e as int == n,
                n == extent_of(size),
                ls == split_on(trim(board_str@), '\n'),
                9 <= n <= 19,
                n == ls.len(),
                rows.len() == n,
                forall|j: int| 0 <= j < n ==> (#[trigger] rows@[j])@ == trim(ls[j]),
                forall|j: int| 0 <= j < n ==> trim(#[trigger] ls[j]).len() == n,
                0 <= row < e,
                0 <= col <= e,
                cells.len() == row * e + col,
                forall|p: (int, int)|
                    in_bounds(n as int, p) && #[trigger] cell_index(n as int, p) < cells.len() ==> cells@[cell_index(n as int, p)]
                        == stone_of_char(trim(ls[p.1])[p.0]),
            decreases e - col,
        {
            let r = &rows[row as usize];
            assert(r@ == trim(ls[row as int]));
            let t = stone_of(r[col as usize]);
            let ghost k = cells.len() as int;
            cells.push(t);
            proof {
                assert forall|p: (int, int)|
                    in_bounds(n as int, p) && #[trigger] cell_index(n as int, p) < cells.len() implies cells@[cell_index(n as int, p)]
                        == stone_of_char(trim(ls[p.1])[p.0]) by {
                    lemma_cell_index(n as int, p, (col as int, row as int));
                }
            }
            col += 1;
        }
        proof {
            assert(row * e + e == (row + 1) * e) by (nonlinear_arith);
        }
        row += 1;
    }
    assert(cells.len() == extent_of(size) * extent_of(size));
    let game = Game::from_cells(cells, size, turn);
    proof {
        let ee = n as int;
        assert forall|p: (int, int)| in_bounds(ee, p) implies 0 <= #[trigger] cell_index(ee, p) < ee * ee by {
            lemma_cell_index(ee, p, p);
        }
        assert(game@.stones =~= grid_stones(ee, ls));
    }
    Some(game)
}

/// A grid whose number of lines is not a legal extent, or with a trimmed
/// row not as long as there are lines, is rejected.
pub proof fn lemma_parse_rejects_irregular(s: Seq<char>, turn: Stone)
    requires
        ({
            let rows = split_on(trim(s), '\n');
            !is_legal_extent(rows.len() as int) || exists|y: int|
                0 <= y < rows.len() && #[trigger] trim(rows[y]).len() != rows.len()
        }),
    ensures
        parsing(s, turn) is None,
{
}

/// The decimal form of a legal extent reads back as that extent, and holds
/// digits only.
pub proof fn lemma_extent_text(e: int)
    requires
        is_legal_extent(e),
    ensures
        numeral_value(decimal_text(e as nat)) == Some(e),
        decimal_text(e as nat).len() > 0,
        all_digits(decimal_text(e as nat)),
{
    reveal_with_fuel(decimal_text, 2);
    reveal_with_fuel(digits_value, 3);
    let d = decimal_text(e as nat);
    if e == 9 {
        assert(d.drop_last() =~= Seq::<char>::empty());
        assert(d.last() as u32 == 57);
    } else {
        assert(d.len() == 2);
        assert(d[0] as u32 == 49);
        assert(d.last() as u32 == 48 + e - 10);
        assert(d.drop_last().drop_last() =~= Seq::<char>::empty());
        assert(d.drop_last().last() as u32 == 49);
        assert(digits_value(d.drop_last()) == 1);
    }
    assert(unsigned_part(d) == d);
}

/// Decoding the wire form of a game gives back its stones, its extent and
/// its turn.
pub proof fn lemma_round_trip(game: &Game)
    ensures
        decoding(encoding(game@)) == Some(GameView { id: 0, ..game@ }),
{
    game.lemma_view_well_formed();
    lemma_view_round_trip(game@);
}

/// Decoding the wire form of a board whose stones lie on it and whose
/// extent is legal gives back its stones, its extent and its turn.
pub proof fn lemma_view_round_trip(g: GameView)
    requires
        stones_in_bounds(g),
        is_legal_extent(g.extent),
    ensures
        decoding(encoding(g)) == Some(GameView { id: 0, ..g }),
{
    let e = g.extent;
    let d = decimal_text(e as nat);
    let t = board_tiles(g);
    let c = seq![turn_char(g.turn)];
    let s = encoding(g);
    lemma_extent_text(e);
    assert(s =~= d + seq![';'] + (t + seq![';'] + c));
    assert forall|i: int| 0 <= i < d.len() implies #[trigger] d[i] != ';' by {
        assert(all_digits(d));
    }
    assert forall|i: int| 0 <= i < t.len() implies #[trigger] t[i] != ';' by {}
    assert forall|i: int| 0 <= i < c.len() implies #[trigger] c[i] != ';' by {}
    lemma_split_on_prefix(d, ';', t + seq![';'] + c);
    lemma_split_on_prefix(t, ';', c);
    lemma_split_on_whole(c, ';');
    assert(all_digits(d));
    assert(!is_white(s[0])) by {
        assert(s[0] == d[0]);
    }
    assert(!is_white(s.last())) by {
        assert(s.last() == turn_char(g.turn));
    }
    lemma_trim_unchanged(s);
    let f = split_on(trim(s), ';');
    assert(f =~= seq![d, t, c]);
    assert(turn_of_field(c) == Some(g.turn));
    assert forall|p: (int, int)| in_bounds(e, p) implies 0 <= #[trigger] cell_index(e, p) < e * e && point_of(e, cell_index(e, p)) == p by {
        lemma_cell_index(e, p, p);
        lemma_row_major(e, p.0, p.1);
    }
    assert(tiles_stones(e, t) =~= g.stones);
}

} // verus!
