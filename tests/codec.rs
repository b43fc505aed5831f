use goban::{
    accept_player, decode, encode, new, parse, play_piece, AcceptPlayerMessage, GameStateMessage,
    PlacePieceMessage, Size, Stone,
};

fn dots(n: usize) -> String {
    ".".repeat(n)
}

#[test]
fn encode_fresh_board() {
    let game = new(Size::Nine);
    assert_eq!(format!("9;{};b", dots(81)), encode(&game));
}

#[test]
fn encode_places_tiles_row_major() {
    let mut game = new(Size::Thirteen);
    assert!(game.play_stone((2, 0), Stone::Black));
    assert!(game.play_stone((0, 1), Stone::White));
    let text = encode(&game);
    let expected = format!("13;..b{}w{};b", dots(10), dots(155));
    assert_eq!(expected, text);
}

#[test]
fn round_trip_keeps_stones_size_and_turn() {
    let mut game = new(Size::Seventeen);
    for (c, s) in [((0, 0), Stone::Black), ((16, 16), Stone::White), ((5, 7), Stone::Black)] {
        assert!(game.play_stone(c, s));
    }
    let back = decode(&encode(&game)).unwrap();
    assert_eq!(Size::Seventeen, back.size());
    assert_eq!(Stone::White, back.turn());
    for x in 0..17 {
        for y in 0..17 {
            assert_eq!(game.has_stone((x, y)), back.has_stone((x, y)));
        }
    }
    assert_eq!(encode(&game), encode(&back));
}

#[test]
fn decode_reads_stones_and_turn() {
    let text = format!("9;.b{}w;w", dots(78));
    let game = decode(&text).unwrap();
    assert!(game.has_stone((1, 0)));
    assert!(game.has_stone((8, 8)));
    assert!(!game.has_stone((0, 0)));
    assert_eq!(Stone::White, game.turn());
    assert_eq!(2, game.stones());
}

#[test]
fn decode_rejects_bad_extent() {
    assert!(decode(&format!("10;{};b", dots(100))).is_none());
    assert!(decode(&format!("x;{};b", dots(81))).is_none());
    assert!(decode(&format!(";{};b", dots(81))).is_none());
    assert!(decode(&format!("-9;{};b", dots(81))).is_none());
    assert!(decode(&format!("99999999999999999999999;{};b", dots(81))).is_none());
}

#[test]
fn decode_rejects_bad_turn() {
    assert!(decode(&format!("9;{};x", dots(81))).is_none());
    assert!(decode(&format!("9;{};bw", dots(81))).is_none());
    assert!(decode(&format!("9;{};", dots(81))).is_none());
    assert!(decode(&format!("9;{}", dots(81))).is_none());
    assert!(decode("9").is_none());
    assert!(decode("").is_none());
}

#[test]
fn decode_is_lenient_about_tiles() {
    let short = decode("9;bw;b").unwrap();
    assert_eq!(2, short.stones());
    assert!(short.has_stone((0, 0)));
    assert!(short.has_stone((1, 0)));
    let odd = decode(&format!("9;x?b{};b", dots(78))).unwrap();
    assert_eq!(1, odd.stones());
    assert!(odd.has_stone((2, 0)));
    let long = decode(&format!("9;{}bbbb;b", dots(81))).unwrap();
    assert_eq!(0, long.stones());
}

#[test]
fn decode_ignores_surrounding_whitespace_and_sign() {
    let game = decode(&format!("  +09;{};w\n", dots(81))).unwrap();
    assert_eq!(Size::Nine, game.size());
    assert_eq!(Stone::White, game.turn());
}

#[test]
fn parse_rejects_wrong_line_counts() {
    let eight = vec![".........".to_string(); 8].join("\n");
    assert!(parse(&eight, Stone::Black).is_none());
    let ten = vec!["..........".to_string(); 10].join("\n");
    assert!(parse(&ten, Stone::Black).is_none());
    let thirteen = vec![".............".to_string(); 13].join("\n");
    assert!(parse(&thirteen, Stone::Black).is_some());
}

#[test]
fn parse_rejects_rows_not_square() {
    let mut rows = vec![".........".to_string(); 9];
    rows[4] = "..........".to_string();
    assert!(parse(&rows.join("\n"), Stone::Black).is_none());
    let narrow = vec!["........".to_string(); 9].join("\n");
    assert!(parse(&narrow, Stone::Black).is_none());
}

#[test]
fn parse_keeps_turn_and_trims_rows() {
    let mut rows = vec!["  .........  ".to_string(); 9];
    rows[8] = " ........w".to_string();
    let game = parse(&rows.join("\n"), Stone::White).unwrap();
    assert_eq!(Stone::White, game.turn());
    assert!(game.has_stone((8, 8)));
    assert_eq!(1, game.stones());
}

#[test]
fn play_piece_on_empty_board_text() {
    let message = PlacePieceMessage {
        board: String::new(),
        coordinate: (4, 4),
        stone: Stone::Black,
        size: Size::Nine,
    };
    let expected = format!("9;{}b{};w", dots(40), dots(40));
    assert_eq!(Some(GameStateMessage::Update { board: expected }), play_piece(&message));
}

#[test]
fn play_piece_rejects_bad_board_and_illegal_move() {
    let bad = PlacePieceMessage {
        board: "7;;b".to_string(),
        coordinate: (0, 0),
        stone: Stone::Black,
        size: Size::Nine,
    };
    assert_eq!(None, play_piece(&bad));
    let wrong_turn = PlacePieceMessage {
        board: format!("9;{};w", dots(81)),
        coordinate: (0, 0),
        stone: Stone::Black,
        size: Size::Nine,
    };
    assert_eq!(None, play_piece(&wrong_turn));
}

#[test]
fn accept_player_reports_extent() {
    let message = AcceptPlayerMessage { size: Size::Nineteen };
    assert_eq!(GameStateMessage::JoinAccepted { id: 7, size: 19 }, accept_player(7, &message));
}

#[test]
fn render_draws_the_grid() {
    let mut game = new(Size::Nine);
    assert!(game.play_stone((0, 0), Stone::Black));
    assert!(game.play_stone((8, 1), Stone::White));
    let mut expected = String::from("\n\n");
    expected.push_str("b........\n");
    expected.push_str("........w\n");
    for _ in 0..7 {
        expected.push_str(".........\n");
    }
    expected.push('\n');
    assert_eq!(expected, game.render());
}

#[test]
fn decode_ignores_fields_past_the_turn() {
    let game = decode(&format!("9;{};w;extra", dots(81))).unwrap();
    assert_eq!(Stone::White, game.turn());
    assert_eq!(0, game.stones());
}
