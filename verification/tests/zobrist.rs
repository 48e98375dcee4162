use rand::{Rng, SeedableRng};
use shogi_usi_parser::FromUsi;
use std::collections::HashSet;
use std::rc::Rc;
use yasai::hand::{Hand, Hands};
use yasai::piece::{Piece, PieceType};
use yasai::position::Tables;
use yasai::{Color, Move, PartialPosition, Position, Square};

/// The square on `file` (1 to 9) and `rank` (1 for A to 9 for I).
fn sq(file: i8, rank: i8) -> Square {
    Square((file - 1) * 9 + (rank - 1))
}

fn piece_of(p: shogi_core::Piece) -> Piece {
    let c = match p.color() {
        shogi_core::Color::Black => 0u8,
        shogi_core::Color::White => 16u8,
    };
    let kind = match p.piece_kind() {
        shogi_core::PieceKind::Pawn => PieceType::FU,
        shogi_core::PieceKind::Lance => PieceType::KY,
        shogi_core::PieceKind::Knight => PieceType::KE,
        shogi_core::PieceKind::Silver => PieceType::GI,
        shogi_core::PieceKind::Gold => PieceType::KI,
        shogi_core::PieceKind::Bishop => PieceType::KA,
        shogi_core::PieceKind::Rook => PieceType::HI,
        shogi_core::PieceKind::King => PieceType::OU,
        shogi_core::PieceKind::ProPawn => PieceType::TO,
        shogi_core::PieceKind::ProLance => PieceType::NY,
        shogi_core::PieceKind::ProKnight => PieceType::NK,
        shogi_core::PieceKind::ProSilver => PieceType::NG,
        shogi_core::PieceKind::ProBishop => PieceType::UM,
        shogi_core::PieceKind::ProRook => PieceType::RY,
    };
    Piece::from_code(c + kind.index() as u8)
}

fn partial(pp: &shogi_core::PartialPosition) -> PartialPosition {
    let mut board = [None; 81];
    for s in shogi_core::Square::all() {
        board[s.array_index()] = pp.piece_at(s).map(piece_of);
    }
    let kinds = [
        shogi_core::PieceKind::Pawn,
        shogi_core::PieceKind::Lance,
        shogi_core::PieceKind::Knight,
        shogi_core::PieceKind::Silver,
        shogi_core::PieceKind::Gold,
        shogi_core::PieceKind::Bishop,
        shogi_core::PieceKind::Rook,
    ];
    let hand_of = |c: shogi_core::Color| {
        let h = pp.hand_of_a_player(c);
        let mut counts = [0u8; 7];
        for (i, k) in kinds.iter().enumerate() {
            counts[i] = h.count(*k).unwrap();
        }
        Hand(counts)
    };
    PartialPosition {
        side: match pp.side_to_move() {
            shogi_core::Color::Black => Color::Black,
            shogi_core::Color::White => Color::White,
        },
        ply: pp.ply(),
        hands: Hands([hand_of(shogi_core::Color::Black), hand_of(shogi_core::Color::White)]),
        board,
    }
}

fn from_sfen(tables: &Rc<Tables>, s: &str) -> Position {
    Position::with_tables(
        partial(&shogi_core::PartialPosition::from_usi(s).expect("failed to parse")),
        tables,
    )
}

fn normal(pos: &Position, from: Square, to: Square, promote: bool) -> Move {
    Move::new_normal(from, to, promote, pos.piece_at(from).unwrap())
}


#[test]
fn zobrist_empty() {
    let pos = Position::new(partial(&shogi_core::PartialPosition::empty()));
    assert_eq!(0, pos.key());
}

#[test]
fn zobrist_default() {
    let pos = Position::default();
    assert_ne!(0, pos.key());
}

#[test]
fn full_hands() {
    let tables = Rc::new(Tables::new());
    let all_black_hands = from_sfen(&tables, "sfen 9/9/9/9/9/9/9/9/9 b 2R2B4G4S4N4L18P 1");
    let all_white_hands = from_sfen(&tables, "sfen 9/9/9/9/9/9/9/9/9 b 2r2b4g4s4n4l18p 1");
    assert_eq!(0, all_black_hands.keys().0);
    assert_eq!(0, all_white_hands.keys().0);
    assert_ne!(all_black_hands.keys().1, all_white_hands.keys().1);
}

#[test]
fn capture_all_pawns() {
    let tables = Rc::new(Tables::new());
    let mut pos = from_sfen(
        &tables,
        "sfen 4k3K/7+p1/8+p/1p5+p1/p1p5+p/1+p1p3+p1/+p3p3+p/1+p3p1+p1/+p5+p2 b 2R2B4G4S4N4L 1",
    );
    let squares = [
        ((1, 1), (2, 2)),
        ((5, 1), (5, 2)),
        ((2, 2), (1, 3)),
        ((5, 2), (5, 1)),
        ((1, 3), (2, 4)),
        ((5, 1), (5, 2)),
        ((2, 4), (1, 5)),
        ((5, 2), (5, 1)),
        ((1, 5), (2, 6)),
        ((5, 1), (5, 2)),
        ((2, 6), (1, 7)),
        ((5, 2), (5, 1)),
        ((1, 7), (2, 8)),
        ((5, 1), (5, 2)),
        ((2, 8), (3, 9)),
        ((5, 2), (5, 1)),
        ((3, 9), (4, 8)),
        ((5, 1), (5, 2)),
        ((4, 8), (5, 7)),
        ((5, 2), (5, 1)),
        ((5, 7), (6, 6)),
        ((5, 1), (5, 2)),
        ((6, 6), (7, 5)),
        ((5, 2), (5, 1)),
        ((7, 5), (8, 4)),
        ((5, 1), (5, 2)),
        ((8, 4), (9, 5)),
        ((5, 2), (5, 1)),
        ((9, 5), (8, 6)),
        ((5, 1), (5, 2)),
        ((8, 6), (9, 7)),
        ((5, 2), (5, 1)),
        ((9, 7), (8, 8)),
        ((5, 1), (5, 2)),
        ((8, 8), (9, 9)),
    ];
    for (i, &((ff, fr), (tf, tr))) in squares.iter().enumerate() {
        let m = normal(&pos, sq(ff, fr), sq(tf, tr), false);
        assert!(pos.legal_moves().contains(&m), "move {:?} is not legal", m);
        pos.do_move(m);
        assert_eq!(i as u8 / 2 + 1, pos.hand(Color::Black).num(PieceType::FU));
    }
}

#[test]
fn uniqueness() {
    let mut hs = HashSet::new();
    let mut pos = Position::default();
    for i in 0..100 {
        let moves = pos.legal_moves();
        let choice = moves[(i * 100) % moves.len()];
        pos.do_move(choice);
        let key = pos.key();
        assert_eq!(key % 2 == 0, i % 2 == 1);
        hs.insert(key);
    }
    assert_eq!(100, hs.len());
}

#[test]
fn joined() {
    let key0 = {
        let mut pos = Position::default();
        for (from, to) in [(sq(7, 7), sq(7, 6)), (sq(3, 3), sq(3, 4)), (sq(2, 7), sq(2, 6))] {
            let m = normal(&pos, from, to, false);
            pos.do_move(m);
        }
        pos.key()
    };
    let key1 = {
        let mut pos = Position::default();
        for (from, to) in [(sq(2, 7), sq(2, 6)), (sq(7, 7), sq(7, 6)), (sq(3, 3), sq(3, 4))] {
            let m = normal(&pos, from, to, false);
            pos.do_move(m);
        }
        pos.key()
    };
    assert_eq!(key0, key1);
}

#[test]
fn same_board() {
    let keys0 = {
        let mut pos = Position::default();
        let steps = [
            (Some(sq(7, 7)), sq(7, 6)),
            (Some(sq(3, 3)), sq(3, 4)),
            (Some(sq(8, 8)), sq(2, 2)),
            (Some(sq(3, 1)), sq(2, 2)),
            (None, sq(8, 8)),
            (Some(sq(2, 2)), sq(3, 1)),
        ];
        for (from, to) in steps {
            let m = match from {
                Some(f) => normal(&pos, f, to, false),
                None => Move::new_drop(to, Piece::BKA),
            };
            pos.do_move(m);
        }
        pos.keys()
    };
    let keys1 = {
        let mut pos = Position::default();
        let steps = [
            (sq(7, 7), sq(7, 6)),
            (sq(3, 3), sq(3, 4)),
            (sq(8, 8), sq(2, 2)),
            (sq(3, 1), sq(4, 2)),
            (sq(2, 2), sq(8, 8)),
            (sq(4, 2), sq(3, 1)),
        ];
        for (from, to) in steps {
            let m = normal(&pos, from, to, false);
            pos.do_move(m);
        }
        pos.keys()
    };
    assert_ne!(keys0, keys1);
    assert_eq!(keys0.0, keys1.0)
}

#[test]
fn side_bit_follows_the_moves() {
    let mut pos = Position::default();
    assert_eq!(0, pos.keys().0 & 1);
    pos.do_move(normal(&pos, sq(7, 7), sq(7, 6), false));
    assert_eq!(1, pos.keys().0 & 1);
    assert_eq!(0, pos.keys().1 & 1);
    pos.do_move(normal(&pos, sq(3, 3), sq(3, 4), false));
    assert_eq!(0, pos.keys().0 & 1);
}

/// The board, hands, side and ply of `pos` as plain values.
fn snapshot(pos: &Position) -> PartialPosition {
    let mut board = [None; 81];
    for i in 0..81 {
        board[i as usize] = pos.piece_at(Square(i));
    }
    PartialPosition {
        side: pos.side_to_move(),
        ply: pos.ply(),
        hands: Hands([pos.hand(Color::Black), pos.hand(Color::White)]),
        board,
    }
}

#[test]
fn fresh_position_leaves_the_side_bit_clear() {
    let pos = Position::new(partial(
        &shogi_core::PartialPosition::from_usi("sfen 4k4/9/9/9/9/9/9/9/4K4 w - 1").expect("failed to parse"),
    ));
    assert_eq!(0, pos.keys().0 & 1);
    assert_eq!(0, pos.keys().1 & 1);
    assert_eq!(pos.key(), pos.keys().0 ^ pos.keys().1);
}

#[test]
fn played_keys_match_a_fresh_position_but_the_side_bit() {
    let mut pos = Position::default();
    let steps = [(sq(7, 7), sq(7, 6)), (sq(3, 3), sq(3, 4)), (sq(8, 8), sq(2, 2))];
    for (i, (from, to)) in steps.into_iter().enumerate() {
        let m = normal(&pos, from, to, false);
        pos.do_move(m);
        let fresh = Position::new(snapshot(&pos));
        let bit = if i % 2 == 0 { 1 } else { 0 };
        assert_eq!(fresh.keys().0 ^ bit, pos.keys().0);
        assert_eq!(fresh.keys().1, pos.keys().1);
    }
}

#[test]
fn separate_tables_draw_the_same_keys() {
    let a = Position::default();
    let b = Position::default();
    assert_eq!(a.keys(), b.keys());
    let t1 = Rc::new(Tables::new());
    let t2 = Rc::new(Tables::new());
    let c = Position::with_tables(snapshot(&a), &t1);
    let d = Position::with_tables(snapshot(&a), &t2);
    assert_eq!(c.keys(), d.keys());
    assert_eq!(a.keys(), c.keys());
}

#[test]
fn keys_are_the_seeded_draws() {
    let mut rng = rand::rngs::StdRng::seed_from_u64(2022);
    let draws: Vec<u64> = (0..8).map(|_| rng.gen::<u64>()).collect();
    let pos = Position::new(partial(
        &shogi_core::PartialPosition::from_usi("sfen 8K/9/9/9/9/9/9/9/9 b - 1").expect("failed to parse"),
    ));
    assert_eq!(Some(Piece::BOU), pos.piece_at(Square(0)));
    assert_eq!((draws[7] & !1, 0), pos.keys());
}
