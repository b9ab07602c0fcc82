use othello::board::{count, fill, shift, Board, Moves};

fn bits(s: &str) -> u64 {
    s.chars().fold(0, |acc, c| match c {
        '0' => acc << 1,
        '1' => acc << 1 | 1,
        _ => acc,
    })
}

#[test]
fn moves() {
    let mut moves = Moves(bits(
        "1 0 0 0 0 0 0 0
         0 0 0 0 0 0 0 0
         0 0 0 0 0 0 0 0
         0 0 0 0 0 0 0 0
         0 0 0 0 0 0 0 0
         0 0 0 0 0 0 0 0
         0 0 0 0 0 0 0 0
         0 0 0 0 0 0 0 1",
    ));

    assert_eq!(
        moves.next(),
        Some(bits(
            "1 0 0 0 0 0 0 0
             0 0 0 0 0 0 0 0
             0 0 0 0 0 0 0 0
             0 0 0 0 0 0 0 0
             0 0 0 0 0 0 0 0
             0 0 0 0 0 0 0 0
             0 0 0 0 0 0 0 0
             0 0 0 0 0 0 0 0",
        )),
    );
    assert_eq!(
        moves.next(),
        Some(bits(
            "0 0 0 0 0 0 0 0
             0 0 0 0 0 0 0 0
             0 0 0 0 0 0 0 0
             0 0 0 0 0 0 0 0
             0 0 0 0 0 0 0 0
             0 0 0 0 0 0 0 0
             0 0 0 0 0 0 0 0
             0 0 0 0 0 0 0 1",
        )),
    );
    assert_eq!(moves.next(), None);
}

#[test]
fn board_moves() {
    let player = bits(
        "0 0 0 0 0 0 0 0
         0 0 0 0 0 0 0 0
         0 0 0 0 0 0 0 0
         0 0 0 0 1 0 0 0
         0 0 0 1 0 0 0 0
         0 0 0 0 0 0 0 0
         0 0 0 0 0 0 0 0
         0 0 0 0 0 0 0 0",
    );
    let opponent = bits(
        "0 0 0 0 0 0 0 0
         0 0 0 0 0 0 0 0
         0 0 0 0 0 0 0 0
         0 0 0 1 0 0 0 0
         0 0 0 0 1 0 0 0
         0 0 0 0 0 0 0 0
         0 0 0 0 0 0 0 0
         0 0 0 0 0 0 0 0",
    );
    let holes = bits(
        "0 0 0 0 0 0 0 0
         0 0 0 0 0 0 0 0
         0 0 1 1 1 1 0 0
         0 0 0 0 0 1 0 0
         0 0 0 0 0 1 0 0
         0 0 0 0 0 1 0 0
         0 0 0 0 0 0 0 0
         0 0 0 0 0 0 0 0",
    );

    let board = Board {
        player,
        opponent,
        holes,
    };

    assert_eq!(
        board.moves(),
        bits(
            "0 0 0 0 0 0 0 0
             0 0 0 0 0 0 0 0
             0 0 0 0 0 0 0 0
             0 0 1 0 0 0 0 0
             0 0 0 0 0 0 0 0
             0 0 0 0 1 0 0 0
             0 0 0 0 0 0 0 0
             0 0 0 0 0 0 0 0",
        ),
    );
}

#[test]
fn board_play() {
    let player = bits(
        "1 0 0 0 0 0 0 1
         0 0 0 0 0 0 1 0
         0 0 0 0 0 0 0 0
         0 0 0 0 0 0 0 0
         0 0 0 0 0 0 0 0
         0 0 0 0 0 0 0 0
         0 0 0 0 0 0 0 0
         0 0 0 0 1 0 0 1",
    );
    let opponent = bits(
        "0 0 0 0 0 0 0 0
         1 0 0 0 0 0 0 0
         1 0 0 0 0 0 0 0
         1 0 0 0 1 0 0 0
         1 0 0 1 0 0 0 0
         1 0 1 0 0 0 0 0
         1 1 0 0 0 0 0 0
         0 1 1 1 0 1 1 0",
    );
    let holes = bits(
        "0 0 0 0 0 0 0 0
         0 0 0 0 0 0 0 0
         0 0 1 1 1 1 0 0
         0 0 0 0 0 1 0 0
         0 0 0 0 0 1 0 0
         0 0 0 0 0 1 0 0
         0 0 0 0 0 0 0 0
         0 0 0 0 0 0 0 0",
    );

    let board = Board {
        player,
        opponent,
        holes,
    };

    assert_eq!(
        board.play(bits(
            "0 0 0 0 0 0 0 0
             0 0 0 0 0 0 0 0
             0 0 0 0 0 0 0 0
             0 0 0 0 0 0 0 0
             0 0 0 0 0 0 0 0
             0 0 0 0 0 0 0 0
             0 0 0 0 0 0 0 0
             1 0 0 0 0 0 0 0",
        )),
        Board {
            player: bits(
                "0 0 0 0 0 0 0 0
                 0 0 0 0 0 0 0 0
                 0 0 0 0 0 0 0 0
                 0 0 0 0 1 0 0 0
                 0 0 0 1 0 0 0 0
                 0 0 1 0 0 0 0 0
                 0 1 0 0 0 0 0 0
                 0 0 0 0 0 1 1 0",
            ),
            opponent: bits(
                "1 0 0 0 0 0 0 1
                 1 0 0 0 0 0 1 0
                 1 0 0 0 0 0 0 0
                 1 0 0 0 0 0 0 0
                 1 0 0 0 0 0 0 0
                 1 0 0 0 0 0 0 0
                 1 0 0 0 0 0 0 0
                 1 1 1 1 1 0 0 1",
            ),
            holes,
        },
    );
}

#[test]
fn board_frontier() {
    let player = bits(
        "1 0 0 0 0 0 0 1
         0 0 0 0 0 0 0 0
         0 0 0 1 1 0 0 0
         0 0 0 1 1 0 0 0
         0 0 0 1 1 0 0 0
         0 0 0 1 1 0 0 0
         0 0 0 0 0 0 0 0
         1 0 0 0 0 0 0 1",
    );
    let opponent = bits(
        "0 0 0 0 0 0 0 0
         0 0 0 0 0 0 0 0
         0 0 1 0 0 0 0 0
         0 0 1 0 0 0 0 0
         0 0 1 0 0 0 0 0
         0 0 1 0 0 0 0 0
         0 0 0 0 0 0 0 0
         0 0 0 0 0 0 0 0",
    );
    let holes = bits(
        "0 0 0 0 0 0 0 0
         0 0 0 0 0 0 0 0
         0 0 0 0 0 1 0 0
         0 0 0 0 0 1 0 0
         0 0 0 0 0 1 0 0
         0 0 0 0 0 1 0 0
         0 0 0 0 0 0 0 0
         0 0 0 0 0 0 0 0",
    );

    let board = Board {
        player,
        opponent,
        holes,
    };

    assert_eq!(
        board.frontier(),
        bits(
            "1 0 0 0 0 0 0 1
             0 0 0 0 0 0 0 0
             0 0 0 1 1 0 0 0
             0 0 0 0 0 0 0 0
             0 0 0 0 0 0 0 0
             0 0 0 1 1 0 0 0
             0 0 0 0 0 0 0 0
             1 0 0 0 0 0 0 1",
        ),
    );
}

#[test]
fn board_corners() {
    let holes = bits(
        "0 0 0 0 0 0 0 1
         0 0 0 0 1 0 0 0
         0 0 0 0 1 0 0 0
         0 0 0 1 1 0 0 0
         0 0 0 0 1 0 0 0
         0 0 0 0 0 0 0 0
         0 0 0 0 0 0 0 0
         0 0 0 0 0 0 0 0",
    );

    let board = Board {
        player: 0,
        opponent: 0,
        holes,
    };

    assert_eq!(
        board.corners(),
        bits(
            "1 0 0 0 0 0 1 0
             0 0 0 0 0 0 0 1
             0 0 0 1 0 0 0 0
             0 0 0 0 0 0 0 0
             0 0 0 0 0 0 0 0
             0 0 0 0 0 0 0 0
             0 0 0 0 0 0 0 0
             1 0 0 0 0 0 0 1",
        ),
    );
}

#[test]
fn corners_of_open_board() {
    let board = Board {
        player: 0,
        opponent: 0,
        holes: 0,
    };
    assert_eq!(board.corners(), 0x8100_0000_0000_0081);
}

fn start() -> Board {
    Board {
        player: bits(
            "0 0 0 0 0 0 0 0
             0 0 0 0 0 0 0 0
             0 0 0 0 0 0 0 0
             0 0 0 1 0 0 0 0
             0 0 0 0 1 0 0 0
             0 0 0 0 0 0 0 0
             0 0 0 0 0 0 0 0
             0 0 0 0 0 0 0 0",
        ),
        opponent: bits(
            "0 0 0 0 0 0 0 0
             0 0 0 0 0 0 0 0
             0 0 0 0 0 0 0 0
             0 0 0 0 1 0 0 0
             0 0 0 1 0 0 0 0
             0 0 0 0 0 0 0 0
             0 0 0 0 0 0 0 0
             0 0 0 0 0 0 0 0",
        ),
        holes: 0,
    }
}

#[test]
fn opening_moves() {
    assert_eq!(
        start().moves(),
        bits(
            "0 0 0 0 0 0 0 0
             0 0 0 0 0 0 0 0
             0 0 0 0 1 0 0 0
             0 0 0 0 0 1 0 0
             0 0 1 0 0 0 0 0
             0 0 0 1 0 0 0 0
             0 0 0 0 0 0 0 0
             0 0 0 0 0 0 0 0",
        ),
    );
}

#[test]
fn play_flips_one_disc() {
    let m = bits(
        "0 0 0 0 0 0 0 0
         0 0 0 0 0 0 0 0
         0 0 0 0 1 0 0 0
         0 0 0 0 0 0 0 0
         0 0 0 0 0 0 0 0
         0 0 0 0 0 0 0 0
         0 0 0 0 0 0 0 0
         0 0 0 0 0 0 0 0",
    );
    let b = start().play(m);
    assert_eq!(
        b.opponent,
        bits(
            "0 0 0 0 0 0 0 0
             0 0 0 0 0 0 0 0
             0 0 0 0 1 0 0 0
             0 0 0 1 1 0 0 0
             0 0 0 0 1 0 0 0
             0 0 0 0 0 0 0 0
             0 0 0 0 0 0 0 0
             0 0 0 0 0 0 0 0",
        ),
    );
    assert_eq!(
        b.player,
        bits(
            "0 0 0 0 0 0 0 0
             0 0 0 0 0 0 0 0
             0 0 0 0 0 0 0 0
             0 0 0 0 0 0 0 0
             0 0 0 1 0 0 0 0
             0 0 0 0 0 0 0 0
             0 0 0 0 0 0 0 0
             0 0 0 0 0 0 0 0",
        ),
    );
    assert_eq!(b.holes, 0);
}

#[test]
fn pass_twice_is_identity() {
    let b = Board {
        player: 0x0000_0010_0800_0000,
        opponent: 0x0000_0008_1000_0000,
        holes: 0x0000_2000_0000_0400,
    };
    let p = b.pass();
    assert_eq!(p.player, b.opponent);
    assert_eq!(p.opponent, b.player);
    assert_eq!(p.pass(), b);
}

#[test]
fn frontier_of_full_board_is_empty() {
    let b = Board {
        player: 0xffff_ffff_0000_0000,
        opponent: 0x0000_0000_ffff_ffff,
        holes: 0,
    };
    assert_eq!(b.frontier(), 0);
    assert_eq!(b.moves(), 0);
}

#[test]
fn shift_and_fill() {
    assert_eq!(shift(0, 1), 2);
    assert_eq!(shift(0, 0x80), 0);
    assert_eq!(shift(2, 1), 0x100);
    assert_eq!(shift(6, 0x100), 1);
    assert_eq!(shift(6, 1), 0);
    assert_eq!(fill(0, 1, 0x0e), 0x0e);
    assert_eq!(fill(0, 1, 0x0a), 0x02);
    assert_eq!(fill(0, 1, 0xfe), 0xfe);
}

#[test]
fn count_bits() {
    assert_eq!(count(0), 0);
    assert_eq!(count(1), 1);
    assert_eq!(count(0x8000_0000_0000_0001), 2);
    assert_eq!(count(u64::MAX), 64);
}
