use goban::{encode, new, parse, Game, Size, Stone};

fn grid(rows: &[&str], turn: Stone) -> Game {
    parse(&rows.join("\n"), turn).unwrap()
}

fn nine(top: &[&str], turn: Stone) -> Game {
    let mut rows: Vec<&str> = top.to_vec();
    while rows.len() < 9 {
        rows.push(".........");
    }
    grid(&rows, turn)
}

#[test]
fn occupied_point_is_rejected_and_board_unchanged() {
    let mut game = nine(&["b........"], Stone::White);
    let before = encode(&game);
    assert_eq!(false, game.play_stone((0, 0), Stone::White));
    assert_eq!(before, encode(&game));
    assert_eq!(Stone::White, game.turn());
}

#[test]
fn off_board_point_is_rejected_and_board_unchanged() {
    let mut game = nine(&[".w.......", "b........"], Stone::Black);
    let before = encode(&game);
    for c in [(-1, 0), (0, -1), (9, 3), (3, 9), (127, 127), (-128, 0)] {
        assert_eq!(false, game.play_stone(c, Stone::Black));
        assert_eq!(before, encode(&game));
    }
}

#[test]
fn turn_passes_only_after_a_successful_move() {
    let mut game = new(Size::Thirteen);
    assert_eq!(Stone::Black, game.turn());
    assert_eq!(false, game.play_stone((3, 3), Stone::White));
    assert_eq!(Stone::Black, game.turn());
    assert_eq!(true, game.play_stone((3, 3), Stone::Black));
    assert_eq!(Stone::White, game.turn());
    assert_eq!(false, game.play_stone((3, 3), Stone::White));
    assert_eq!(Stone::White, game.turn());
    assert_eq!(true, game.play_stone((4, 3), Stone::White));
    assert_eq!(Stone::Black, game.turn());
}

#[test]
fn empty_neighbour_makes_move_legal_among_enemies() {
    // White at (4,4) is surrounded on three sides by Black; (4,5) is empty.
    let mut game = nine(
        &[
            ".........",
            ".........",
            ".........",
            "....b....",
            "...b.b...",
            ".........",
        ],
        Stone::White,
    );
    assert_eq!(true, game.play_stone((4, 4), Stone::White));
    assert_eq!(true, game.has_stone((4, 4)));
}

#[test]
fn lone_stone_surrounded_is_captured() {
    let mut game = nine(&["bw.......", ".b......."], Stone::Black);
    assert_eq!(true, game.play_stone((2, 0), Stone::Black));
    assert_eq!(false, game.has_stone((1, 0)));
    assert_eq!(true, game.has_stone((2, 0)));
    assert_eq!(3, game.player_stones(Stone::Black));
    assert_eq!(0, game.player_stones(Stone::White));
    assert_eq!(3, game.stones());
}

#[test]
fn suicide_into_enemy_ring_is_rejected() {
    let mut game = nine(&[".........", "....w....", "...w.w...", "....w...."], Stone::Black);
    let before = encode(&game);
    assert_eq!(false, game.play_stone((4, 2), Stone::Black));
    assert_eq!(before, encode(&game));
    assert_eq!(Stone::Black, game.turn());
}

#[test]
fn suicide_of_a_larger_group_is_rejected() {
    // Black (0,0)-(1,0) would join (2,0) with no liberty left.
    let mut game = nine(&["bb.w.....", "wwww....."], Stone::Black);
    assert_eq!(false, game.play_stone((2, 0), Stone::Black));
}

#[test]
fn move_captures_two_groups_at_once() {
    // Black at (4,4) between two White stones, each surrounded except there.
    let mut game = nine(
        &[
            ".........",
            ".........",
            ".........",
            "...b.b...",
            "..bw.wb..",
            "...b.b...",
        ],
        Stone::Black,
    );
    assert_eq!(true, game.play_stone((4, 4), Stone::Black));
    assert_eq!(false, game.has_stone((3, 4)));
    assert_eq!(false, game.has_stone((5, 4)));
    assert_eq!(true, game.has_stone((4, 4)));
    assert_eq!(0, game.player_stones(Stone::White));
}

#[test]
fn capture_of_a_whole_group() {
    // A White group of three in the corner, with one liberty at (3,0).
    let mut game = nine(&["www.b....", "bbbb....."], Stone::Black);
    assert_eq!(true, game.play_stone((3, 0), Stone::Black));
    for x in 0..3 {
        assert_eq!(false, game.has_stone((x, 0)));
    }
    assert_eq!(0, game.player_stones(Stone::White));
    assert_eq!(6, game.player_stones(Stone::Black));
}

#[test]
fn capture_makes_an_otherwise_suicidal_move_legal() {
    let mut game = nine(&[".wb......", "wb......."], Stone::Black);
    assert_eq!(true, game.play_stone((0, 0), Stone::Black));
    assert_eq!(false, game.has_stone((1, 0)));
    assert_eq!(true, game.has_stone((0, 1)));
}

#[test]
fn ally_with_liberty_makes_move_legal() {
    // (0,0) has no empty neighbour but joins Black (1,0), which has (2,0).
    let mut game = nine(&[".b.......", "ww......."], Stone::Black);
    assert_eq!(true, game.play_stone((0, 0), Stone::Black));
}

#[test]
fn size_extents() {
    assert_eq!(9, Size::Nine.extent());
    assert_eq!(13, Size::Thirteen.extent());
    assert_eq!(17, Size::Seventeen.extent());
    assert_eq!(19, Size::Nineteen.extent());
    assert_eq!(Some(Size::Seventeen), Size::from_extent(17));
    assert_eq!(None, Size::from_extent(10));
    assert_eq!(None, Size::from_extent(0));
}

#[test]
fn foe_is_the_other_colour() {
    assert_eq!(Stone::White, Stone::Black.foe());
    assert_eq!(Stone::Black, Stone::White.foe());
}

#[test]
fn stone_counts_on_a_nineteen_board() {
    let mut game = new(Size::Nineteen);
    assert_eq!(true, game.play_stone((18, 18), Stone::Black));
    assert_eq!(true, game.play_stone((0, 18), Stone::White));
    assert_eq!(true, game.play_stone((18, 0), Stone::Black));
    assert_eq!(3, game.stones());
    assert_eq!(2, game.player_stones(Stone::Black));
    assert_eq!(1, game.player_stones(Stone::White));
    assert_eq!(Size::Nineteen, game.size());
}

#[test]
fn turn_follows_parity_of_successful_moves() {
    let mut game = new(Size::Nine);
    let tries = [
        ((0, 0), Stone::Black),
        ((0, 0), Stone::White),
        ((1, 0), Stone::Black),
        ((1, 0), Stone::White),
        ((9, 9), Stone::Black),
        ((2, 2), Stone::Black),
        ((3, 3), Stone::White),
    ];
    let mut wins = 0;
    for (c, s) in tries {
        if game.play_stone(c, s) {
            wins += 1;
        }
        let expected = if wins % 2 == 0 { Stone::Black } else { Stone::White };
        assert_eq!(expected, game.turn());
    }
    assert_eq!(4, wins);
}
