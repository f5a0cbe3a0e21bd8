use goban::board::Board;
use goban::color::Color;
use goban::features::{Order, CHW};

/// Test so that the correct number of pretend liberties are correct.
#[test]
fn liberties_if() {
    let mut liberties = vec![0; 368];
    let mut board = Board::new();

    board.place(Color::White, 0, 0);
    board.place(Color::Black, 0, 1);
    board.place(Color::Black, 1, 1);

    assert_eq!(board.get_num_liberties_if(Color::Black, 1, &mut liberties), 5);
}

fn identity_symmetry() -> Vec<u16> {
    (0..361u16).collect()
}

/// Plane 0 is all ones, plane 1 is all ones exactly for black, and plane
/// 14 marks the stones of the player to move.
#[test]
fn features_constant_planes() {
    let mut board = Board::new();
    board.place(Color::Black, 3, 3);
    board.place(Color::White, 10, 10);

    let sym = identity_symmetry();
    let black = board.get_features::<CHW>(Color::Black, &sym);
    let white = board.get_features::<CHW>(Color::White, &sym);
    assert_eq!(black.len(), 32 * 361);
    for i in 0..361 {
        assert_eq!(black[CHW::index(0, i)], 1);
        assert_eq!(black[CHW::index(1, i)], 1);
        assert_eq!(white[CHW::index(0, i)], 1);
        assert_eq!(white[CHW::index(1, i)], 0);
        let own = i == 19 * 3 + 3;
        let opp = i == 19 * 10 + 10;
        assert_eq!(black[CHW::index(14, i)], if own { 1 } else { 0 });
        assert_eq!(black[CHW::index(26, i)], if opp { 1 } else { 0 });
    }
}

/// A lone stone sits in the 4-liberty bucket of its owner's planes.
#[test]
fn features_liberty_buckets() {
    let mut board = Board::new();
    board.place(Color::Black, 3, 3);

    let sym = identity_symmetry();
    let f = board.get_features::<CHW>(Color::Black, &sym);
    let i = 19 * 3 + 3;
    // plane 2 + (4 - 1): our stone with four liberties
    assert_eq!(f[CHW::index(5, i)], 1);
    assert_eq!(f[CHW::index(4, i)], 0);
    // an empty neighbour: playing there merges into the group; bucket 6+
    assert_eq!(f[CHW::index(13, i + 1)], 1);
}

/// A clone shows the same position and mutating either side leaves the
/// other unchanged.
#[test]
fn clone_is_independent() {
    let mut a = Board::new();
    a.place(Color::Black, 3, 3);
    let mut b = a.clone();
    assert!(a == b);
    assert_eq!(a.zobrist_hash(), b.zobrist_hash());

    b.place(Color::White, 5, 5);
    assert!(a != b);
    assert_eq!(a.at(5, 5), None);
    assert_eq!(b.at(5, 5), Some(Color::White));
    assert_eq!(a.count(), 1);
    assert_eq!(b.count(), 2);

    a.place(Color::White, 7, 7);
    assert_eq!(b.at(7, 7), None);
}

/// The rendering shows each stone once with its glyph and ends with the
/// legend line.
#[test]
fn render_shows_stones() {
    let mut board = goban::board::Board::new();
    board.place(Color::Black, 3, 3);
    board.place(Color::White, 10, 10);
    let text = board.render();
    assert_eq!(text.chars().filter(|&ch| ch == '\u{25cf}').count(), 2);
    assert_eq!(text.chars().filter(|&ch| ch == '\u{25cb}').count(), 2);
    assert!(text.ends_with("\u{25cf} Black    \u{25cb} White\n"));
    assert_eq!(text.lines().count(), 24);
}

/// Color names parse case-insensitively; everything else is rejected.
#[test]
fn parse_color_names() {
    assert_eq!(Color::parse("black"), Ok(Color::Black));
    assert_eq!(Color::parse("B"), Ok(Color::Black));
    assert_eq!(Color::parse("WHITE"), Ok(Color::White));
    assert_eq!(Color::parse("w"), Ok(Color::White));
    assert_eq!(Color::parse("BlAcK"), Ok(Color::Black));
    assert_eq!(Color::parse("grey"), Err(()));
    assert_eq!(Color::parse(""), Err(()));
    assert_eq!(Color::parse("blacks"), Err(()));
}

/// The territory map stores exact travel distances through empty vertices.
#[test]
fn territory_distances_exact() {
    let mut board = goban::board::Board::new();
    board.place(Color::Black, 0, 0);
    let d = board.get_territory_distance(Color::Black);
    assert_eq!(d[0], 0);
    assert_eq!(d[1], 1);
    assert_eq!(d[19], 1);
    assert_eq!(d[20], 2);
    // opposite corner: shortest Manhattan path over the empty board
    assert_eq!(d[19 * 18 + 18], 36);
}

/// The history digest lists the superko hashes newest first.
#[test]
fn history_hashes_newest_first() {
    let mut board = goban::board::Board::new();
    board.place(Color::Black, 3, 3);
    let h1 = board.zobrist_hash();
    board.place(Color::White, 5, 5);
    let h2 = board.zobrist_hash();
    let hashes = board.history_hashes();
    assert_eq!(hashes.len(), 8);
    assert_eq!(hashes[0], h2);
    assert_eq!(hashes[1], h1);
    assert_eq!(hashes[7], 0);
}
