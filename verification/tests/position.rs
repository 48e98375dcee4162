use shogi_usi_parser::FromUsi;
use std::rc::Rc;
use yasai::hand::{Hand, Hands};
use yasai::piece::{Piece, PieceType};
use yasai::position::Tables;
use yasai::{Color, Move, PartialPosition, Position, Square};

/// The square on `file` (1 to 9) and `rank` (1 for A to 9 for I).
fn sq(file: i8, rank: i8) -> Square {
    Square((file - 1) * 9 + (rank - 1))
}

fn piece_of(p: shogi_core::Piece) -> Piece {
    let c = match p.color() {
        shogi_core::Color::Black => 0u8,
        shogi_core::Color::White => 16u8,
    };
    let kind = match p.piece_kind() {
        shogi_core::PieceKind::Pawn => PieceType::FU,
        shogi_core::PieceKind::Lance => PieceType::KY,
        shogi_core::PieceKind::Knight => PieceType::KE,
        shogi_core::PieceKind::Silver => PieceType::GI,
        shogi_core::PieceKind::Gold => PieceType::KI,
        shogi_core::PieceKind::Bishop => PieceType::KA,
        shogi_core::PieceKind::Rook => PieceType::HI,
        shogi_core::PieceKind::King => PieceType::OU,
        shogi_core::PieceKind::ProPawn => PieceType::TO,
        shogi_core::PieceKind::ProLance => PieceType::NY,
        shogi_core::PieceKind::ProKnight => PieceType::NK,
        shogi_core::PieceKind::ProSilver => PieceType::NG,
        shogi_core::PieceKind::ProBishop => PieceType::UM,
        shogi_core::PieceKind::ProRook => PieceType::RY,
    };
    Piece::from_code(c + kind.index() as u8)
}

fn partial(pp: &shogi_core::PartialPosition) -> PartialPosition {
    let mut board = [None; 81];
    for s in shogi_core::Square::all() {
        board[s.array_index()] = pp.piece_at(s).map(piece_of);
    }
    let kinds = [
        shogi_core::PieceKind::Pawn,
        shogi_core::PieceKind::Lance,
        shogi_core::PieceKind::Knight,
        shogi_core::PieceKind::Silver,
        shogi_core::PieceKind::Gold,
        shogi_core::PieceKind::Bishop,
        shogi_core::PieceKind::Rook,
    ];
    let hand_of = |c: shogi_core::Color| {
        let h = pp.hand_of_a_player(c);
        let mut counts = [0u8; 7];
        for (i, k) in kinds.iter().enumerate() {
            counts[i] = h.count(*k).unwrap();
        }
        Hand(counts)
    };
    PartialPosition {
        side: match pp.side_to_move() {
            shogi_core::Color::Black => Color::Black,
            shogi_core::Color::White => Color::White,
        },
        ply: pp.ply(),
        hands: Hands([hand_of(shogi_core::Color::Black), hand_of(shogi_core::Color::White)]),
        board,
    }
}

fn from_sfen(tables: &Rc<Tables>, s: &str) -> Position {
    Position::with_tables(
        partial(&shogi_core::PartialPosition::from_usi(s).expect("failed to parse")),
        tables,
    )
}

fn normal(pos: &Position, from: Square, to: Square, promote: bool) -> Move {
    Move::new_normal(from, to, promote, pos.piece_at(from).unwrap())
}

fn hand_total(hand: Hand) -> u8 {
    PieceType::all_hand().iter().map(|&pk| hand.num(pk)).sum::<u8>()
}

#[test]
fn position_default() {
    let pos = Position::default();
    for i in 0..81 {
        let s = Square(i);
        let (file, rank) = (i / 9 + 1, i % 9 + 1);
        let expected = match (file, rank) {
            (_, 7) => Some(Piece::BFU),
            (1, 9) | (9, 9) => Some(Piece::BKY),
            (2, 9) | (8, 9) => Some(Piece::BKE),
            (3, 9) | (7, 9) => Some(Piece::BGI),
            (4, 9) | (6, 9) => Some(Piece::BKI),
            (5, 9) => Some(Piece::BOU),
            (8, 8) => Some(Piece::BKA),
            (2, 8) => Some(Piece::BHI),
            (_, 3) => Some(Piece::WFU),
            (1, 1) | (9, 1) => Some(Piece::WKY),
            (2, 1) | (8, 1) => Some(Piece::WKE),
            (3, 1) | (7, 1) => Some(Piece::WGI),
            (4, 1) | (6, 1) => Some(Piece::WKI),
            (5, 1) => Some(Piece::WOU),
            (2, 2) => Some(Piece::WKA),
            (8, 2) => Some(Piece::WHI),
            _ => None,
        };
        assert_eq!(expected, pos.piece_at(s), "square: {:?}", s);
    }
    for c in Color::all() {
        for pk in PieceType::all_hand() {
            assert_eq!(0, pos.hand(c).num(pk));
        }
    }
    assert_eq!(Color::Black, pos.side_to_move());
    assert_eq!(1, pos.ply());
    assert!(!pos.in_check());
}

#[allow(clippy::bool_assert_comparison)]
#[test]
fn do_undo_move() {
    let mut pos = Position::default();
    let moves = [
        Move::new_normal(sq(7, 7), sq(7, 6), false, Piece::BFU),
        Move::new_normal(sq(3, 3), sq(3, 4), false, Piece::WFU),
        Move::new_normal(sq(8, 8), sq(2, 2), true, Piece::BKA),
        Move::new_normal(sq(3, 1), sq(2, 2), false, Piece::WGI),
        Move::new_drop(sq(3, 3), Piece::BKA),
    ];
    for &m in moves.iter() {
        pos.do_move(m);
    }
    for (s, expected) in [
        (sq(2, 2), Some(Piece::WGI)),
        (sq(3, 1), None),
        (sq(3, 3), Some(Piece::BKA)),
        (sq(7, 6), Some(Piece::BFU)),
        (sq(7, 7), None),
    ] {
        assert_eq!(expected, pos.piece_at(s), "square: {:?}", s);
    }
    assert_eq!(0, hand_total(pos.hand(Color::Black)));
    assert_ne!(0, hand_total(pos.hand(Color::White)));
    assert_eq!(Color::White, pos.side_to_move());
    assert_eq!(6, pos.ply());
    assert_eq!(true, pos.in_check());
    for &m in moves.iter().rev() {
        pos.undo_move(m);
    }
    let default = Position::default();
    assert!((0..81).all(|i| pos.piece_at(Square(i)) == default.piece_at(Square(i))));
    assert_eq!(Color::Black, pos.side_to_move());
    assert_eq!(1, pos.ply());
    assert_eq!(false, pos.in_check());
}

fn count_nodes(pos: &mut Position, depth: usize) -> u64 {
    if depth == 0 {
        return 1;
    }
    let mut count = 0;
    for m in pos.legal_moves() {
        pos.do_move(m);
        count += count_nodes(pos, depth - 1);
        pos.undo_move(m);
    }
    count
}

#[test]
fn perft() {
    {
        let mut pos = Position::default();
        assert_eq!(30, count_nodes(&mut pos, 1));
        assert_eq!(900, count_nodes(&mut pos, 2));
        assert_eq!(25470, count_nodes(&mut pos, 3));
        assert_eq!(719731, count_nodes(&mut pos, 4));
    }
    {
        let tables = Rc::new(Tables::new());
        let mut pos = from_sfen(&tables, "sfen R8/2K1S1SSk/4B4/9/9/9/9/9/1L1L1L3 b RBGSNLP3g3n17p 1");
        assert_eq!(593, count_nodes(&mut pos, 1));
        assert_eq!(105677, count_nodes(&mut pos, 2));
    }
}

#[allow(clippy::bool_assert_comparison)]
#[test]
fn is_check_move() {
    let tables = Rc::new(Tables::new());
    let pos = from_sfen(&tables, "sfen 6p1k/9/6P1G/9/8L/9/9/9/9 b RBLrb3g4s4n2l16p 1");
    let test_cases = [
        (Move::new_drop(sq(1, 2), Piece::BKY), true),
        (Move::new_drop(sq(1, 4), Piece::BKY), false),
        (Move::new_drop(sq(2, 2), Piece::BKA), true),
        (Move::new_drop(sq(5, 5), Piece::BKA), false),
        (Move::new_drop(sq(2, 1), Piece::BHI), true),
        (Move::new_drop(sq(5, 1), Piece::BHI), false),
        (normal(&pos, sq(1, 3), sq(1, 2), false), true),
        (normal(&pos, sq(1, 3), sq(2, 2), false), true),
        (normal(&pos, sq(1, 3), sq(2, 3), false), true),
        (normal(&pos, sq(1, 3), sq(1, 4), false), false),
    ];
    for (m, expected) in test_cases {
        assert_eq!(expected, pos.is_check_move(m));
    }
}

#[test]
fn undo_restores_keys() {
    let mut pos = Position::default();
    let before = pos.keys();
    let m = Move::new_normal(sq(7, 7), sq(7, 6), false, Piece::BFU);
    pos.do_move(m);
    assert_ne!(before, pos.keys());
    pos.undo_move(m);
    assert_eq!(before, pos.keys());
    assert_eq!(Color::Black, pos.side_to_move());
}

#[test]
fn capture_goes_to_hand_unpromoted() {
    let tables = Rc::new(Tables::new());
    let mut pos = from_sfen(&tables, "sfen 4k4/9/9/9/4+p4/4R4/9/9/4K4 b - 1");
    let m = normal(&pos, sq(5, 6), sq(5, 5), false);
    pos.do_move(m);
    assert_eq!(1, pos.hand(Color::Black).num(PieceType::FU));
    assert_eq!(Some(Piece::BHI), pos.piece_at(sq(5, 5)));
    assert_eq!(Some(Piece::WTO), pos.captured());
    assert_eq!(Some(Piece::BHI), pos.last_moved());
    pos.undo_move(m);
    assert_eq!(0, pos.hand(Color::Black).num(PieceType::FU));
    assert_eq!(Some(Piece::WTO), pos.piece_at(sq(5, 5)));
}

/// The position as it stands, rebuilt from its squares, hands, side and ply.
fn snapshot(pos: &Position) -> PartialPosition {
    let mut board = [None; 81];
    for i in 0..81 {
        board[i] = pos.piece_at(Square(i as i8));
    }
    PartialPosition {
        side: pos.side_to_move(),
        ply: pos.ply(),
        hands: Hands([pos.hand(Color::Black), pos.hand(Color::White)]),
        board,
    }
}

/// After every legal move, the recorded checkers are those found on the new position from
/// scratch, checks by drops and uncovered checks included.
#[test]
fn checkers_after_moves_match_a_fresh_position() {
    let tables = Rc::new(Tables::new());
    for sfen in [
        "sfen 6p1k/9/6P1G/9/8L/9/9/9/9 b RBLrb3g4s4n2l16p 1",
        "sfen R8/2K1S1SSk/4B4/9/9/9/9/9/1L1L1L3 b RBGSNLP3g3n17p 1",
        "sfen 4k4/9/4S4/9/4R4/9/9/9/4K4 b B 1",
    ] {
        let mut pos = from_sfen(&tables, sfen);
        let mut checks = 0;
        for m in pos.legal_moves() {
            pos.do_move(m);
            let fresh = Position::with_tables(snapshot(&pos), &tables);
            assert_eq!(fresh.checkers(), pos.checkers());
            if pos.in_check() {
                checks += 1;
            }
            pos.undo_move(m);
        }
        assert!(checks > 0);
    }
}

/// After every legal move, no piece attacks the king of the side that moved: the position with
/// that side to move again has no checkers.
#[test]
fn legal_moves_leave_no_king_attacked() {
    let tables = Rc::new(Tables::new());
    for sfen in [
        "sfen lnsgkgsnl/1r5b1/ppppppppp/9/9/9/PPPPPPPPP/1B5R1/LNSGKGSNL b - 1",
        "sfen R8/2K1S1SSk/4B4/9/9/9/9/9/1L1L1L3 b RBGSNLP3g3n17p 1",
        "sfen 4k4/9/4r4/9/4S4/9/9/9/4K4 b B 1",
        "sfen 4k4/9/9/9/4b4/9/2G6/9/4K4 b P 1",
    ] {
        let mut pos = from_sfen(&tables, sfen);
        let mover = pos.side_to_move();
        let mut count = 0;
        for m in pos.legal_moves() {
            pos.do_move(m);
            let mut same = snapshot(&pos);
            same.side = mover;
            let fresh = Position::with_tables(same, &tables);
            assert!(!fresh.in_check());
            pos.undo_move(m);
            count += 1;
        }
        assert!(count > 0);
    }
}

#[test]
fn legal_moves_apply_with_their_effects() {
    let tables = Rc::new(Tables::new());
    let sfens = [
        "sfen 4k4/9/9/9/4+p4/4R4/9/9/4K4 b - 1",
        "sfen 4k4/9/9/9/4r4/9/9/9/4K4 b GSNLP 1",
        "sfen 9/9/9/9/9/7p1/7+r1/6KN1/4k1S2 b Pr2b4g3s3n4l16p 1",
    ];
    for sfen in sfens {
        let pos = from_sfen(&tables, sfen);
        let side = pos.side_to_move();
        for m in pos.legal_moves() {
            let mut next = pos.duplicate();
            next.do_move(m);
            assert_eq!(side.flip(), next.side_to_move());
            assert_eq!(pos.ply() + 1, next.ply());
            assert_eq!(pos.hand(side.flip()).0, next.hand(side.flip()).0);
            let to = m.to();
            for i in 0..81 {
                let s = Square(i);
                if s != to && m.from() != Some(s) {
                    assert_eq!(pos.piece_at(s), next.piece_at(s));
                }
            }
            match m.from() {
                None => {
                    assert_eq!(Some(m.piece()), next.piece_at(to));
                    let kind = m.piece().piece_type();
                    assert_eq!(pos.hand(side).num(kind) - 1, next.hand(side).num(kind));
                }
                Some(from) => {
                    let moving = pos.piece_at(from).unwrap();
                    let placed = if m.is_promotion() { moving.promoted() } else { moving };
                    assert_eq!(None, next.piece_at(from));
                    assert_eq!(Some(placed), next.piece_at(to));
                    match pos.piece_at(to) {
                        Some(captured) => {
                            let kind = captured.demoted().piece_type();
                            assert_eq!(pos.hand(side).num(kind) + 1, next.hand(side).num(kind));
                        }
                        None => assert_eq!(pos.hand(side).0, next.hand(side).0),
                    }
                }
            }
        }
    }
}

#[test]
fn is_check_move_matches_in_check_after() {
    let tables = Rc::new(Tables::new());
    let sfens = [
        "sfen 4k4/9/4S4/9/4R4/9/9/9/4K4 b B 1",
        "sfen 4k4/9/4r4/9/4S4/9/9/9/4K4 b B 1",
        "sfen 4k4/9/9/9/4r4/9/9/9/4K4 b GSNLP 1",
        "sfen 6p1k/9/6P1G/9/8L/9/9/9/9 b RBLrb3g4s4n2l16p 1",
    ];
    for sfen in sfens {
        let pos = from_sfen(&tables, sfen);
        for m in pos.legal_moves() {
            let mut next = pos.duplicate();
            next.do_move(m);
            assert_eq!(pos.is_check_move(m), next.in_check(), "move {:?} in {}", m, sfen);
        }
    }
}
