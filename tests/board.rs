use goban::{new, parse, Size, Stone};

#[test]
fn test_new() {
    let game = new(Size::Nine);
    assert_eq!(game.id(), 0);
    assert_eq!(Stone::Black, game.turn());
    assert_eq!(false, game.has_stone((0, 0)));
}

#[test]
fn test_play_stone() {
    let mut game = new(Size::Nine);
    assert_eq!(false, game.has_stone((0, 0)));

    game.play_stone((0, 0), Stone::Black);
    assert_eq!(true, game.has_stone((0, 0)));
    assert_eq!(1, game.stones());
    assert_eq!(1, game.player_stones(Stone::Black));
    assert_eq!(0, game.player_stones(Stone::White));
}

#[test]
fn test_play_stone_switches_players() {
    let mut game = new(Size::Nine);
    assert_eq!(true, game.play_stone((0, 0), Stone::Black));
    assert_eq!(false, game.play_stone((1, 0), Stone::Black));
}

#[test]
fn test_play_stone_rejects_invalid_plays() {
    let mut game = new(Size::Nine);
    assert_eq!(false, game.play_stone((-1, 0), Stone::Black));
    assert_eq!(false, game.play_stone((-1, -1), Stone::Black));
    assert_eq!(false, game.play_stone((0, -1), Stone::Black));
    assert_eq!(false, game.play_stone((9, 0), Stone::Black));
    assert_eq!(false, game.play_stone((9, 9), Stone::Black));
    assert_eq!(false, game.play_stone((0, 9), Stone::Black));
}

#[test]
fn test_play_stone_rejects_duplicate_plays() {
    let mut game = new(Size::Nine);
    assert_eq!(true, game.play_stone((0, 0), Stone::Black));
    assert_eq!(false, game.play_stone((0, 0), Stone::White));
}

#[test]
fn test_parse() {
    let game = parse(
        "
.b.......
b........
.........
.........
.........
.........
.........
.........
.........",
        Stone::Black,
    )
    .unwrap();

    assert_eq!(false, game.has_stone((0, 0)));
    assert_eq!(true, game.has_stone((1, 0)));
    assert_eq!(true, game.has_stone((0, 1)));
    assert_eq!(false, game.has_stone((1, 1)));
}

#[test]
fn test_play_stone_no_liberties() {
    let mut game = parse(
        "
.b.....b.
b.bbbbbb.
.b....bbb
..bbbbb..
.....b...
.........
.........
b.......b
.b.....b.",
        Stone::White,
    )
    .unwrap();

    // Top left corner
    assert_eq!(false, game.play_stone((0, 0), Stone::White));

    // Surrounded stone
    assert_eq!(false, game.play_stone((1, 1), Stone::White));

    // Bottom right corner
    assert_eq!(false, game.play_stone((8, 8), Stone::White));

    // Bottom left corner
    assert_eq!(false, game.play_stone((0, 8), Stone::White));

    // Top right corner
    assert_eq!(true, game.play_stone((8, 0), Stone::White));
    assert_eq!(false, game.play_stone((8, 1), Stone::White));
}

#[test]
fn test_play_stone_empty_neighbour() {
    let mut game = parse(
        "
.b.....b.
b.bbbbbb.
.b....bbb
..bbb.b..
.....b...
.........
.........
b.......b
.b.....b.",
        Stone::White,
    )
    .unwrap();

    assert_eq!(true, game.play_stone((2, 0), Stone::White));
}

#[test]
fn test_play_stone_capture_piece() {
    let mut game = parse(
        "
.........
bwb......
.b.......
.........
.........
.........
.........
.........
.........",
        Stone::Black,
    )
    .unwrap();

    assert_eq!(true, game.play_stone((1, 0), Stone::Black));
    assert_eq!(false, game.has_stone((1, 1)));
    assert_eq!(Stone::Black, game.winner());
}

#[test]
fn test_play_stone_capture_piece_exchange() {
    let mut game = parse(
        "
.bw......
bw.w.....
.bw......
.........
.........
.........
.........
.........
.........",
        Stone::Black,
    )
    .unwrap();

    assert_eq!(true, game.play_stone((2, 1), Stone::Black));
    assert_eq!(false, game.has_stone((1, 1)));
    assert_eq!(Stone::Black, game.winner());
}

#[test]
fn test_play_stone_cannot_place_neighbour_has_no_liberties() {
    let mut game = parse(
        "
bb.w.....
www......
.........
.........
.........
.........
.........
.........
.........",
        Stone::Black,
    )
    .unwrap();

    assert_eq!(false, game.play_stone((2, 0), Stone::Black));
}
