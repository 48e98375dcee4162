use shogi_usi_parser::FromUsi;
use std::rc::Rc;
use yasai::hand::{Hand, Hands};
use yasai::piece::{Piece, PieceType};
use yasai::position::Tables;
use yasai::{Color, PartialPosition, Position, Square};

/// The square on `file` (1 to 9) and `rank` (1 for A to 9 for I).
fn sq(file: i8, rank: i8) -> Square {
    Square((file - 1) * 9 + (rank - 1))
}

fn piece_of(p: shogi_core::Piece) -> Piece {
    let c = match p.color() {
        shogi_core::Color::Black => 0u8,
        shogi_core::Color::White => 16u8,
    };
    let kind = match p.piece_kind() {
        shogi_core::PieceKind::Pawn => PieceType::FU,
        shogi_core::PieceKind::Lance => PieceType::KY,
        shogi_core::PieceKind::Knight => PieceType::KE,
        shogi_core::PieceKind::Silver => PieceType::GI,
        shogi_core::PieceKind::Gold => PieceType::KI,
        shogi_core::PieceKind::Bishop => PieceType::KA,
        shogi_core::PieceKind::Rook => PieceType::HI,
        shogi_core::PieceKind::King => PieceType::OU,
        shogi_core::PieceKind::ProPawn => PieceType::TO,
        shogi_core::PieceKind::ProLance => PieceType::NY,
        shogi_core::PieceKind::ProKnight => PieceType::NK,
        shogi_core::PieceKind::ProSilver => PieceType::NG,
        shogi_core::PieceKind::ProBishop => PieceType::UM,
        shogi_core::PieceKind::ProRook => PieceType::RY,
    };
    Piece::from_code(c + kind.index() as u8)
}

fn partial(pp: &shogi_core::PartialPosition) -> PartialPosition {
    let mut board = [None; 81];
    for s in shogi_core::Square::all() {
        board[s.array_index()] = pp.piece_at(s).map(piece_of);
    }
    let kinds = [
        shogi_core::PieceKind::Pawn,
        shogi_core::PieceKind::Lance,
        shogi_core::PieceKind::Knight,
        shogi_core::PieceKind::Silver,
        shogi_core::PieceKind::Gold,
        shogi_core::PieceKind::Bishop,
        shogi_core::PieceKind::Rook,
    ];
    let hand_of = |c: shogi_core::Color| {
        let h = pp.hand_of_a_player(c);
        let mut counts = [0u8; 7];
        for (i, k) in kinds.iter().enumerate() {
            counts[i] = h.count(*k).unwrap();
        }
        Hand(counts)
    };
    PartialPosition {
        side: match pp.side_to_move() {
            shogi_core::Color::Black => Color::Black,
            shogi_core::Color::White => Color::White,
        },
        ply: pp.ply(),
        hands: Hands([hand_of(shogi_core::Color::Black), hand_of(shogi_core::Color::White)]),
        board,
    }
}

fn from_sfen(tables: &Rc<Tables>, s: &str) -> Position {
    Position::with_tables(
        partial(&shogi_core::PartialPosition::from_usi(s).expect("failed to parse")),
        tables,
    )
}



#[test]
fn from_default() {
    let pos = Position::default();
    assert_eq!(30, pos.legal_moves().len());
}

#[test]
fn drop_moves() {
    let tables = Rc::new(Tables::new());
    let pos = from_sfen(&tables, "sfen lnsgkg1nl/1r5s1/pppppp1pp/6p2/9/2P6/PP1PPPPPP/7R1/LNSGKGSNL b Bb 1");
    assert_eq!(43, pos.legal_moves().into_iter().filter(|m| m.is_drop()).count());
}

#[test]
fn maximum_moves() {
    let tables = Rc::new(Tables::new());
    let pos = from_sfen(&tables, "sfen R8/2K1S1SSk/4B4/9/9/9/9/9/1L1L1L3 b RBGSNLP3g3n17p 1");
    assert_eq!(593, pos.legal_moves().len());
}

#[test]
fn evasion_moves() {
    let tables = Rc::new(Tables::new());
    let pos = from_sfen(&tables, "sfen 9/9/9/9/9/7p1/7+r1/6KN1/4k1S2 b Pr2b4g3s3n4l16p 1");
    let moves = pos.legal_moves();
    assert_eq!(1, moves.len());
    assert_eq!(sq(2, 9), moves[0].to());
}

fn drop_moves_of(pos: &Position) -> Vec<(Piece, Square)> {
    pos.legal_moves()
        .iter()
        .filter_map(|&m| if m.is_drop() { Some((m.piece(), m.to())) } else { None })
        .collect::<Vec<_>>()
}

#[test]
fn pawn_drop() {
    let tables = Rc::new(Tables::new());
    {
        let pos = from_sfen(&tables, "sfen lnsgkgsnl/1r5s1/pppppppp1/9/8L/9/PPPPPPPP1/1B5S1/LNSGKGSN1 w Pp 1");
        let drop_moves = drop_moves_of(&pos);
        assert_eq!(6, drop_moves.len());
        assert!(drop_moves.iter().all(|m| m.0 == Piece::WFU));
    }
    {
        let pos = from_sfen(&tables, "sfen lnsgkgsn1/1r5s1/pppppppp1/9/8l/9/PPPPPPPP1/1B5S1/LNSGKGSN1 b Ppl 1");
        let drop_moves = drop_moves_of(&pos);
        assert_eq!(7, drop_moves.len());
        assert!(drop_moves.iter().all(|m| m.0 == Piece::BFU));
    }
}

#[allow(clippy::bool_assert_comparison)]
#[test]
fn is_pawn_drop_mate() {
    let tables = Rc::new(Tables::new());
    let test_cases = [
        ("sfen 9/7pp/8k/7P1/7G1/9/9/9/9 b P2r2b3g4s4n4l14p 1", sq(1, 4), true),
        ("sfen 9/7pp/7gk/9/7G1/9/9/9/9 b P2r2b2g4s4n4l15p 1", sq(1, 4), false),
        ("sfen 9/7pp/6Rgk/9/7G1/9/9/9/9 b Pr2b2g4s4n4l15p 1", sq(1, 4), true),
        ("sfen 9/7np/8k/7P1/7G1/9/9/9/9 b P2r2b3g4s3n4l15p 1", sq(1, 4), false),
        ("sfen 6B2/7np/8k/7P1/7G1/9/9/9/9 b P2rb3g4s3n4l15p 1", sq(1, 4), true),
        ("sfen 7k1/5G2l/6B2/9/9/9/9/9/9 b P2rb3g4s4n3l17p 1", sq(2, 2), false),
        ("sfen 8k/9/7+Rr/8L/9/9/9/9/9 b P2b4g4s4n3l17p 1", sq(1, 2), false),
    ];
    for (i, (sfen, s, expected)) in test_cases.into_iter().enumerate() {
        let pos = from_sfen(&tables, sfen);
        assert_eq!(expected, pos.is_pawn_drop_mate(s), "failed at {i}");
    }
}

#[test]
fn legal_moves_are_of_the_side_to_move() {
    let pos = Position::default();
    for m in pos.legal_moves() {
        assert_eq!(Color::Black, m.piece().color());
        if let Some(from) = m.from() {
            assert_eq!(Some(m.piece()), pos.piece_at(from));
        }
    }
}

#[test]
fn no_duplicate_moves_from_start() {
    let pos = Position::default();
    let moves = pos.legal_moves();
    for (i, a) in moves.iter().enumerate() {
        for b in moves.iter().skip(i + 1) {
            assert_ne!(a, b);
        }
    }
}

/// Whether a piece of kind `pk` of color `c` may go from `from` to `to` promoted (`promote`) or
/// not, by the rules.
fn promotion_allowed(pk: PieceType, c: Color, from: Square, to: Square, promote: bool) -> bool {
    let rank_to = to.relative_rank(c);
    let zone_to = rank_to <= 3;
    let zone_from = from.relative_rank(c) <= 3;
    match pk {
        PieceType::FU | PieceType::KY => {
            if zone_to {
                promote || rank_to > 1
            } else {
                !promote
            }
        }
        PieceType::KE => {
            if zone_to {
                promote || rank_to > 2
            } else {
                !promote
            }
        }
        PieceType::GI | PieceType::KA | PieceType::HI => !promote || zone_from || zone_to,
        _ => !promote,
    }
}

/// Whether the king of `c` stands unattacked on `pos`.
fn king_safe(pos: &Position, c: Color) -> bool {
    match pos.king_position(c) {
        Some(k) => pos.attackers_to(c.flip(), k, &pos.occupied_bitboard()).is_empty(),
        None => true,
    }
}

/// The moves by the rules after which the king of the side to move stands unattacked, found by
/// trying every piece on every square.
fn moves_by_trial(pos: &mut Position) -> Vec<yasai::Move> {
    let c = pos.side_to_move();
    let occ = pos.occupied_bitboard();
    let own = pos.player_bitboard(c);
    let mut candidates = Vec::new();
    for i in 0..81 {
        let from = Square(i);
        if let Some(piece) = pos.piece_at(from) {
            if piece.color() != c {
                continue;
            }
            let pk = piece.piece_type();
            let attacks = pos.attack_table().attack(pk, from, c, &occ);
            for j in 0..81 {
                let to = Square(j);
                if !attacks.contains(to) || own.contains(to) {
                    continue;
                }
                for promote in [false, true] {
                    if promotion_allowed(pk, c, from, to, promote) {
                        candidates.push(yasai::Move::new_normal(from, to, promote, piece));
                    }
                }
            }
        }
    }
    let opp_king = pos.king_position(c.flip());
    for pk in PieceType::all_hand() {
        if pos.hand(c).num(pk) == 0 {
            continue;
        }
        for j in 0..81 {
            let to = Square(j);
            if occ.contains(to) {
                continue;
            }
            let rank = to.relative_rank(c);
            if (pk == PieceType::FU || pk == PieceType::KY) && rank <= 1 {
                continue;
            }
            if pk == PieceType::KE && rank <= 2 {
                continue;
            }
            if pk == PieceType::FU {
                let pawns = pos.piece_bitboard(Piece::from_cp(c, PieceType::FU));
                if (0..9).any(|r| pawns.contains(Square(to.file().0 * 9 + r))) {
                    continue;
                }
                if let Some(k) = opp_king {
                    let front = pos.attack_table().attack(PieceType::FU, k, c.flip(), &occ);
                    if front.contains(to) && pos.is_pawn_drop_mate(to) {
                        continue;
                    }
                }
            }
            candidates.push(yasai::Move::new_drop(to, Piece::from_cp(c, pk)));
        }
    }
    let mut kept = Vec::new();
    for m in candidates {
        pos.do_move(m);
        if king_safe(pos, c) {
            kept.push(m);
        }
        pos.undo_move(m);
    }
    kept
}

/// The legal moves are exactly the moves by the rules after which the king stands unattacked,
/// in check and out of it.
#[test]
fn legal_moves_match_trial_moves() {
    let tables = Rc::new(Tables::new());
    for sfen in [
        "sfen lnsgkgsnl/1r5b1/ppppppppp/9/9/9/PPPPPPPPP/1B5R1/LNSGKGSNL b - 1",
        "sfen R8/2K1S1SSk/4B4/9/9/9/9/9/1L1L1L3 b RBGSNLP3g3n17p 1",
        "sfen 4k4/9/9/9/4r4/9/9/9/4K4 b GSNLP 1",
        "sfen 4k4/9/9/9/9/9/9/4r4/4K4 b GS 1",
        "sfen 4k4/9/9/9/4b4/9/2G6/9/4K4 b P 1",
        "sfen 4k4/9/9/9/1b2r4/9/9/9/4K4 b G 1",
        "sfen 3gkg3/9/4P4/9/9/9/9/9/4K4 b P 1",
    ] {
        let mut pos = from_sfen(&tables, sfen);
        let legal = pos.legal_moves();
        let tried = moves_by_trial(&mut pos);
        assert_eq!(legal.len(), tried.len(), "{}", sfen);
        for m in &tried {
            assert!(legal.contains(m), "{}", sfen);
        }
    }
}
