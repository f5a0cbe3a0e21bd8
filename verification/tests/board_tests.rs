use goban::board::Board;
use goban::color::Color;

/// Test that it is possible to capture a stone in the middle of the
/// board.
#[test]
fn capture() {
    let mut board = Board::new();

    board.place(Color::Black, 9, 9);
    board.place(Color::White, 8, 9);
    board.place(Color::White, 10, 9);
    board.place(Color::White, 9, 8);
    board.place(Color::White, 9, 10);

    assert_eq!(board.at(9, 9), None);
}

/// Test that it is possible to capture a group of stones in the corner.
#[test]
fn capture_group() {
    let mut board = Board::new();

    board.place(Color::Black, 0, 1);
    board.place(Color::Black, 1, 0);
    board.place(Color::Black, 0, 0);
    board.place(Color::Black, 1, 1);

    board.place(Color::White, 2, 0);
    board.place(Color::White, 2, 1);
    board.place(Color::White, 0, 2);
    board.place(Color::White, 1, 2);

    assert_eq!(board.at(0, 0), None);
    assert_eq!(board.at(0, 1), None);
    assert_eq!(board.at(1, 0), None);
    assert_eq!(board.at(1, 1), None);
}

/// Test that it is not possible to play a suicide move in the corner
/// with two adjacent neighbours of the opposite color.
#[test]
fn suicide_corner() {
    let mut board = Board::new();

    board.place(Color::White, 0, 0);
    board.place(Color::Black, 1, 0);
    board.place(Color::Black, 0, 1);

    assert_eq!(board.at(0, 0), None);
    assert!(!board.is_valid(Color::White, 0, 0));
    assert!(board.is_valid(Color::Black, 0, 0));
}

/// Test that it is not possible to play a suicide move in the middle
/// of a ponnuki.
#[test]
fn suicide_middle() {
    let mut board = Board::new();

    board.place(Color::Black, 9, 9);
    board.place(Color::White, 8, 9);
    board.place(Color::White, 10, 9);
    board.place(Color::White, 9, 8);
    board.place(Color::White, 9, 10);

    assert_eq!(board.at(9, 9), None);
    assert!(!board.is_valid(Color::Black, 9, 9));
    assert!(board.is_valid(Color::White, 9, 9));
}

/// Test that we can accurately detect ko using the simplest possible
/// corner ko.
#[test]
fn ko() {
    let mut board = Board::new();

    board.place(Color::Black, 0, 0);
    board.place(Color::Black, 0, 2);
    board.place(Color::Black, 1, 1);
    board.place(Color::White, 1, 0);
    board.place(Color::White, 0, 1);

    assert!(!board.is_valid(Color::Black, 0, 0));
}

#[test]
fn score_black() {
    let mut board = Board::new();
    board.place(Color::Black, 0, 0);

    assert!(!board.is_scoreable());
    assert_eq!(board.get_score(), (361, 0));
}

#[test]
fn score_white() {
    let mut board = Board::new();
    board.place(Color::White, 0, 0);

    assert!(!board.is_scoreable());
    assert_eq!(board.get_score(), (0, 361));
}

#[test]
fn score_black_white() {
    let mut board = Board::new();
    board.place(Color::White, 1, 0);
    board.place(Color::White, 0, 1);
    board.place(Color::White, 1, 1);
    board.place(Color::Black, 2, 0);
    board.place(Color::Black, 2, 1);
    board.place(Color::Black, 0, 2);
    board.place(Color::Black, 1, 2);

    assert!(board.is_scoreable());
    assert_eq!(board.get_score(), (357, 4));
}

#[test]
fn ladder_corner_capture() {
    // test the following (as 19x19 board), and check
    // that any atari move is a ladder capture
    //
    // X . . . X
    // . . . . .
    // . . . . .
    // . . . . .
    // X . . . X
    //
    let mut board = Board::new();
    board.place(Color::Black, 0, 0);
    board.place(Color::Black, 0, 18);
    board.place(Color::Black, 18, 0);
    board.place(Color::Black, 18, 18);

    for x in 0..19 {
        for y in 0..19 {
            if board.is_valid(Color::White, x, y) {
                let is_ladder = (x == 1 && y == 0) || (x == 0 && y == 1) || (x == 18 && y == 17)
                    || (x == 17 && y == 18) || (x == 1 && y == 18) || (x == 18 && y == 1) || (x == 0
                    && y == 17) || (x == 17 && y == 0);
                let index = 19 * y + x;

                assert_eq!(board.is_ladder_capture(Color::White, index), is_ladder);
            }
        }
    }
}

#[test]
fn ladder_capture() {
    // test that the most standard ladder capture is detected correctly:
    //
    // . . . . .
    // . . X X .
    // . X O . .
    // . . . . .
    // . . . . .
    //
    let mut board = Board::new();
    board.place(Color::White, 3, 3);
    board.place(Color::Black, 2, 3);
    board.place(Color::Black, 3, 2);
    board.place(Color::Black, 4, 2);

    for x in 0..19 {
        for y in 0..19 {
            if board.is_valid(Color::Black, x, y) {
                let is_ladder = x == 3 && y == 4;
                let index = 19 * y + x;

                assert_eq!(board.is_ladder_capture(Color::Black, index), is_ladder);
            }
        }
    }
}

#[test]
fn ladder_escape() {
    // test a standard ladder pattern with a stone on the diagonal
    let mut board = Board::new();
    board.place(Color::White, 3, 3);
    board.place(Color::White, 15, 15);
    board.place(Color::Black, 2, 3);
    board.place(Color::Black, 3, 2);
    board.place(Color::Black, 4, 2);
    board.place(Color::Black, 3, 4);

    for x in 0..19 {
        for y in 0..19 {
            if board.is_valid(Color::White, x, y) {
                let is_escape = x == 4 && y == 3;
                let index = 19 * y + x;

                assert!(!board.is_ladder_capture(Color::Black, index));
                assert_eq!(
                    board.is_ladder_escape(Color::White, index),
                    is_escape,
                    "({}, {}) is a ladder escape = {}",
                    x,
                    y,
                    is_escape
                );
            }
        }
    }
}

/// A board is created empty, with zero hash and zero moves.
#[test]
fn new_board_empty() {
    let board = Board::new();
    assert_eq!(board.size(), 19);
    assert_eq!(board.count(), 0);
    assert_eq!(board.zobrist_hash(), 0);
    for x in 0..19 {
        for y in 0..19 {
            assert_eq!(board.at(x, y), None);
        }
    }
}

/// The hash advances when a stone lands and returns when the position
/// repeats stone for stone.
#[test]
fn zobrist_tracks_position() {
    let mut a = Board::new();
    a.place(Color::Black, 3, 3);
    a.place(Color::White, 15, 15);
    let mut b = Board::new();
    b.place(Color::Black, 3, 3);
    assert_ne!(a.zobrist_hash(), 0);
    assert_ne!(a.zobrist_hash(), b.zobrist_hash());
    b.place(Color::White, 15, 15);
    assert_eq!(a.zobrist_hash(), b.zobrist_hash());
    assert_eq!(a.count(), 2);
}

/// A capture restores the hash contribution of the removed stones: the
/// position after a single capture hashes like the same stones placed
/// directly.
#[test]
fn zobrist_capture_consistent() {
    let mut a = Board::new();
    a.place(Color::White, 0, 0);
    a.place(Color::Black, 1, 0);
    a.place(Color::Black, 0, 1);
    // white (0,0) was captured by black (0,1)
    assert_eq!(a.at(0, 0), None);
    let mut b = Board::new();
    b.place(Color::Black, 1, 0);
    b.place(Color::Black, 0, 1);
    assert_eq!(a.zobrist_hash(), b.zobrist_hash());
}
