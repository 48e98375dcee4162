use itertools::Itertools;
use std::collections::HashSet;
use std::rc::Rc;
use yasai::hand::{Hand, Hands};
use yasai::piece::{Piece, PieceType};
use yasai::position::Tables;
use yasai::utils::kifu_strings::KifuStrings;
use yasai::{Color, Move, PartialPosition, Position, Square};

const EMP: Option<Piece> = None;
const BFU: Option<Piece> = Some(Piece::BFU);
const BKY: Option<Piece> = Some(Piece::BKY);
const BKE: Option<Piece> = Some(Piece::BKE);
const BGI: Option<Piece> = Some(Piece::BGI);
const BKA: Option<Piece> = Some(Piece::BKA);
const BHI: Option<Piece> = Some(Piece::BHI);
const BKI: Option<Piece> = Some(Piece::BKI);
const BOU: Option<Piece> = Some(Piece::BOU);
const BTO: Option<Piece> = Some(Piece::BTO);
const BNY: Option<Piece> = Some(Piece::BNY);
const BNK: Option<Piece> = Some(Piece::BNK);
const BNG: Option<Piece> = Some(Piece::BNG);
const BUM: Option<Piece> = Some(Piece::BUM);
const BRY: Option<Piece> = Some(Piece::BRY);
const WFU: Option<Piece> = Some(Piece::WFU);
const WKY: Option<Piece> = Some(Piece::WKY);
const WKE: Option<Piece> = Some(Piece::WKE);
const WGI: Option<Piece> = Some(Piece::WGI);
const WKA: Option<Piece> = Some(Piece::WKA);
const WHI: Option<Piece> = Some(Piece::WHI);
const WKI: Option<Piece> = Some(Piece::WKI);
const WOU: Option<Piece> = Some(Piece::WOU);
const WTO: Option<Piece> = Some(Piece::WTO);
const WNY: Option<Piece> = Some(Piece::WNY);
const WNK: Option<Piece> = Some(Piece::WNK);
const WNG: Option<Piece> = Some(Piece::WNG);
const WUM: Option<Piece> = Some(Piece::WUM);
const WRY: Option<Piece> = Some(Piece::WRY);

/// The square on `file` (1 to 9) and `rank` (1 for A to 9 for I).
fn sq(file: i8, rank: i8) -> Square {
    Square((file - 1) * 9 + (rank - 1))
}

/// A position from a board by square index and the counts in hand (FU KY KE GI KI KA HI, then
/// an unused eighth) of each color.
fn pos_from(tables: &Rc<Tables>, board: [Option<Piece>; 81], hand_nums: [[u8; 8]; 2], side: Color, ply: u16) -> Position {
    let hand = |h: [u8; 8]| Hand([h[0], h[1], h[2], h[3], h[4], h[5], h[6]]);
    Position::with_tables(
        PartialPosition { side, ply, hands: Hands([hand(hand_nums[0]), hand(hand_nums[1])]), board },
        tables,
    )
}

#[test]
fn first_move() {
    let pos = Position::default();
    assert_eq!(
        vec!["▲7六歩"],
        pos.kifu_strings(&[Move::new_normal(
            sq(7, 7),
            sq(7, 6),
            false,
            Piece::BFU,
        )])
    );
}

#[test]
fn same_square() {
    let tables = Rc::new(Tables::new());
    let board = [
        WKY, EMP, WFU, EMP, EMP, EMP, BFU, EMP, BKY,
        WKE, WKA, WFU, EMP, EMP, EMP, BFU, BHI, BKE,
        WGI, EMP, WFU, EMP, EMP, EMP, BFU, EMP, BGI,
        WKI, EMP, WFU, EMP, EMP, EMP, BFU, EMP, BKI,
        WOU, EMP, EMP, WFU, EMP, BFU, EMP, EMP, BOU,
        WKI, EMP, WFU, EMP, EMP, EMP, BFU, EMP, BKI,
        WGI, EMP, WFU, EMP, EMP, EMP, BFU, EMP, BGI,
        WKE, WHI, WFU, EMP, EMP, EMP, BFU, BKA, BKE,
        WKY, EMP, WFU, EMP, EMP, EMP, BFU, EMP, BKY,
    ];
    let hand_nums = [[0; 8]; 2];
    {
        let pos = pos_from(&tables, board, hand_nums, Color::Black, 1);
        let test_cases = [(
            vec![
                Move::new_normal(sq(5, 6), sq(5, 5), false, Piece::BFU),
                Move::new_normal(sq(5, 4), sq(5, 5), false, Piece::WFU),
            ],
            vec!["▲5五歩", "△同歩"],
        )];
        for (moves, expected) in test_cases {
            assert_eq!(expected, pos.kifu_strings(&moves));
        }
    }
    {
        let pos = pos_from(&tables, board, hand_nums, Color::White, 1);
        let test_cases = [(
            vec![
                Move::new_normal(sq(5, 4), sq(5, 5), false, Piece::WFU),
                Move::new_normal(sq(5, 6), sq(5, 5), false, Piece::BFU),
            ],
            vec!["△5五歩", "▲同歩"],
        )];
        for (moves, expected) in test_cases {
            assert_eq!(expected, pos.kifu_strings(&moves));
        }
    }
}

#[test]
fn drop_marker() {
    let tables = Rc::new(Tables::new());
    let board = [
        EMP, EMP, EMP, EMP, EMP, EMP, EMP, EMP, EMP,
        EMP, EMP, EMP, EMP, EMP, EMP, EMP, EMP, EMP,
        EMP, EMP, EMP, EMP, EMP, EMP, EMP, EMP, EMP,
        EMP, EMP, EMP, EMP, EMP, EMP, EMP, EMP, EMP,
        WOU, EMP, BKI, EMP, EMP, EMP, WKI, EMP, BOU,
        EMP, EMP, EMP, EMP, EMP, EMP, EMP, EMP, EMP,
        EMP, EMP, EMP, EMP, EMP, EMP, EMP, EMP, EMP,
        EMP, EMP, EMP, EMP, EMP, EMP, EMP, EMP, EMP,
        EMP, EMP, EMP, EMP, EMP, EMP, EMP, EMP, EMP,
    ];
    let hand_nums = [[9, 2, 2, 2, 1, 1, 1, 0]; 2];
    {
        let pos = pos_from(&tables, board, hand_nums, Color::Black, 1);
        let test_cases = [
            (
                Move::new_normal(sq(5, 3), sq(5, 2), false, Piece::BKI),
                "▲5二金",
            ),
            (Move::new_drop(sq(5, 2), Piece::BKI), "▲5二金打"),
        ];
        for (m, expected) in test_cases {
            assert_eq!(vec![expected], pos.kifu_strings(&[m]));
        }
    }
    {
        let pos = pos_from(&tables, board, hand_nums, Color::White, 1);
        let test_cases = [
            (
                Move::new_normal(sq(5, 7), sq(5, 8), false, Piece::WKI),
                "△5八金",
            ),
            (Move::new_drop(sq(5, 8), Piece::WKI), "△5八金打"),
        ];
        for (m, expected) in test_cases {
            assert_eq!(vec![expected], pos.kifu_strings(&[m]));
        }
    }
}

#[test]
fn promotion_or_not() {
    let tables = Rc::new(Tables::new());
    let board = [
        EMP, EMP, EMP, EMP, EMP, EMP, EMP, EMP, EMP,
        EMP, EMP, EMP, EMP, EMP, EMP, EMP, EMP, EMP,
        EMP, EMP, EMP, EMP, EMP, EMP, EMP, EMP, EMP,
        EMP, EMP, EMP, EMP, EMP, EMP, EMP, EMP, EMP,
        WOU, EMP, BGI, BGI, EMP, WGI, WGI, EMP, BOU,
        EMP, EMP, EMP, EMP, EMP, EMP, EMP, EMP, EMP,
        EMP, EMP, EMP, EMP, EMP, EMP, EMP, EMP, EMP,
        EMP, EMP, EMP, EMP, EMP, EMP, EMP, EMP, EMP,
        EMP, EMP, EMP, EMP, EMP, EMP, EMP, EMP, EMP,
    ];
    let hand_nums = [[9, 2, 2, 0, 2, 1, 1, 0]; 2];
    {
        let pos = pos_from(&tables, board, hand_nums, Color::Black, 1);
        let test_cases = [
            (
                Move::new_normal(sq(5, 3), sq(4, 2), false, Piece::BGI),
                "▲4二銀不成",
            ),
            (
                Move::new_normal(sq(5, 3), sq(4, 2), true, Piece::BGI),
                "▲4二銀成",
            ),
            (
                Move::new_normal(sq(5, 3), sq(4, 4), false, Piece::BGI),
                "▲4四銀不成",
            ),
            (
                Move::new_normal(sq(5, 3), sq(4, 4), true, Piece::BGI),
                "▲4四銀成",
            ),
            (
                Move::new_normal(sq(5, 4), sq(4, 3), false, Piece::BGI),
                "▲4三銀不成",
            ),
            (
                Move::new_normal(sq(5, 4), sq(4, 3), true, Piece::BGI),
                "▲4三銀成",
            ),
            (
                Move::new_normal(sq(5, 4), sq(4, 5), false, Piece::BGI),
                "▲4五銀",
            ),
        ];
        for (m, expected) in test_cases {
            assert_eq!(vec![expected], pos.kifu_strings(&[m]));
        }
    }
    {
        let pos = pos_from(&tables, board, hand_nums, Color::White, 1);
        let test_cases = [
            (
                Move::new_normal(sq(5, 7), sq(6, 8), false, Piece::WGI),
                "△6八銀不成",
            ),
            (
                Move::new_normal(sq(5, 7), sq(6, 8), true, Piece::WGI),
                "△6八銀成",
            ),
            (
                Move::new_normal(sq(5, 7), sq(6, 6), false, Piece::WGI),
                "△6六銀不成",
            ),
            (
                Move::new_normal(sq(5, 7), sq(6, 6), true, Piece::WGI),
                "△6六銀成",
            ),
            (
                Move::new_normal(sq(5, 6), sq(6, 7), false, Piece::WGI),
                "△6七銀不成",
            ),
            (
                Move::new_normal(sq(5, 6), sq(6, 7), true, Piece::WGI),
                "△6七銀成",
            ),
            (
                Move::new_normal(sq(5, 6), sq(6, 5), false, Piece::WGI),
                "△6五銀",
            ),
        ];
        for (m, expected) in test_cases {
            assert_eq!(vec![expected], pos.kifu_strings(&[m]));
        }
    }
}

#[test]
fn up_sideways_back() {
    let tables = Rc::new(Tables::new());
    {
                let pos = pos_from(&tables, 
            [
                EMP, EMP, EMP, EMP, EMP, EMP, EMP, EMP, EMP,
                EMP, EMP, EMP, EMP, EMP, EMP, BGI, EMP, EMP,
                BKI, EMP, EMP, EMP, EMP, EMP, EMP, EMP, EMP,
                EMP, EMP, BKI, EMP, BKI, EMP, EMP, EMP, BGI,
                EMP, EMP, EMP, EMP, EMP, BKI, EMP, EMP, EMP,
                EMP, EMP, EMP, EMP, EMP, EMP, EMP, EMP, EMP,
                EMP, BKI, EMP, EMP, EMP, EMP, BGI, EMP, EMP,
                EMP, EMP, EMP, EMP, EMP, EMP, EMP, EMP, BGI,
                EMP, EMP, BKI, EMP, EMP, EMP, EMP, EMP, EMP,
            ],
            [[0; 8]; 2],
            Color::Black,
            1,
        );
        let test_cases = [
            (
                Move::new_normal(sq(9, 3), sq(8, 2), false, Piece::BKI),
                "▲8二金上",
            ),
            (
                Move::new_normal(sq(7, 2), sq(8, 2), false, Piece::BKI),
                "▲8二金寄",
            ),
            (
                Move::new_normal(sq(4, 3), sq(3, 2), false, Piece::BKI),
                "▲3二金上",
            ),
            (
                Move::new_normal(sq(3, 1), sq(3, 2), false, Piece::BKI),
                "▲3二金引",
            ),
            (
                Move::new_normal(sq(5, 6), sq(5, 5), false, Piece::BKI),
                "▲5五金上",
            ),
            (
                Move::new_normal(sq(4, 5), sq(5, 5), false, Piece::BKI),
                "▲5五金寄",
            ),
            (
                Move::new_normal(sq(8, 9), sq(8, 8), false, Piece::BGI),
                "▲8八銀上",
            ),
            (
                Move::new_normal(sq(7, 7), sq(8, 8), false, Piece::BGI),
                "▲8八銀引",
            ),
            (
                Move::new_normal(sq(4, 9), sq(3, 8), false, Piece::BGI),
                "▲3八銀上",
            ),
            (
                Move::new_normal(sq(2, 7), sq(3, 8), false, Piece::BGI),
                "▲3八銀引",
            ),
        ];
        for (m, expected) in test_cases {
            assert_eq!(vec![expected], pos.kifu_strings(&[m]));
        }
    }
    {
                let pos = pos_from(&tables, 
            [
                EMP, EMP, EMP, EMP, EMP, EMP, WKI, EMP, EMP,
                WGI, EMP, EMP, EMP, EMP, EMP, EMP, EMP, EMP,
                EMP, EMP, WGI, EMP, EMP, EMP, EMP, WKI, EMP,
                EMP, EMP, EMP, EMP, EMP, EMP, EMP, EMP, EMP,
                EMP, EMP, EMP, WKI, EMP, EMP, EMP, EMP, EMP,
                WGI, EMP, EMP, EMP, WKI, EMP, WKI, EMP, EMP,
                EMP, EMP, EMP, EMP, EMP, EMP, EMP, EMP, WKI,
                EMP, EMP, WGI, EMP, EMP, EMP, EMP, EMP, EMP,
                EMP, EMP, EMP, EMP, EMP, EMP, EMP, EMP, EMP,
            ],
            [[0; 8]; 2],
            Color::White,
            1,
        );
        let test_cases = [
            (
                Move::new_normal(sq(1, 7), sq(2, 8), false, Piece::WKI),
                "△2八金上",
            ),
            (
                Move::new_normal(sq(3, 8), sq(2, 8), false, Piece::WKI),
                "△2八金寄",
            ),
            (
                Move::new_normal(sq(6, 7), sq(7, 8), false, Piece::WKI),
                "△7八金上",
            ),
            (
                Move::new_normal(sq(7, 9), sq(7, 8), false, Piece::WKI),
                "△7八金引",
            ),
            (
                Move::new_normal(sq(5, 4), sq(5, 5), false, Piece::WKI),
                "△5五金上",
            ),
            (
                Move::new_normal(sq(6, 5), sq(5, 5), false, Piece::WKI),
                "△5五金寄",
            ),
            (
                Move::new_normal(sq(2, 1), sq(2, 2), false, Piece::WGI),
                "△2二銀上",
            ),
            (
                Move::new_normal(sq(3, 3), sq(2, 2), false, Piece::WGI),
                "△2二銀引",
            ),
            (
                Move::new_normal(sq(6, 1), sq(7, 2), false, Piece::WGI),
                "△7二銀上",
            ),
            (
                Move::new_normal(sq(8, 3), sq(7, 2), false, Piece::WGI),
                "△7二銀引",
            ),
        ];
        for (m, expected) in test_cases {
            assert_eq!(vec![expected], pos.kifu_strings(&[m]));
        }
    }
}

#[test]
fn left_straight_right() {
    let tables = Rc::new(Tables::new());
    {
                let pos = pos_from(&tables, 
            [
                EMP, BKI, EMP, EMP, EMP, EMP, EMP, EMP, EMP,
                EMP, EMP, EMP, EMP, EMP, EMP, EMP, EMP, BGI,
                EMP, BKI, EMP, EMP, EMP, EMP, EMP, EMP, BGI,
                EMP, EMP, EMP, EMP, BGI, EMP, EMP, EMP, EMP,
                EMP, EMP, EMP, EMP, EMP, EMP, EMP, EMP, EMP,
                EMP, EMP, EMP, EMP, BGI, EMP, EMP, EMP, EMP,
                EMP, BKI, EMP, EMP, EMP, EMP, EMP, EMP, BKI,
                EMP, EMP, EMP, EMP, EMP, EMP, EMP, EMP, BKI,
                EMP, BKI, EMP, EMP, EMP, EMP, EMP, EMP, EMP,
            ],
            [[0; 8]; 2],
            Color::Black,
            1,
        );
        let test_cases = [
            (
                Move::new_normal(sq(9, 2), sq(8, 1), false, Piece::BKI),
                "▲8一金左",
            ),
            (
                Move::new_normal(sq(7, 2), sq(8, 1), false, Piece::BKI),
                "▲8一金右",
            ),
            (
                Move::new_normal(sq(3, 2), sq(2, 2), false, Piece::BKI),
                "▲2二金左",
            ),
            (
                Move::new_normal(sq(1, 2), sq(2, 2), false, Piece::BKI),
                "▲2二金右",
            ),
            (
                Move::new_normal(sq(6, 5), sq(5, 6), false, Piece::BGI),
                "▲5六銀左",
            ),
            (
                Move::new_normal(sq(4, 5), sq(5, 6), false, Piece::BGI),
                "▲5六銀右",
            ),
            (
                Move::new_normal(sq(8, 9), sq(7, 8), false, Piece::BKI),
                "▲7八金左",
            ),
            (
                Move::new_normal(sq(7, 9), sq(7, 8), false, Piece::BKI),
                "▲7八金直",
            ),
            (
                Move::new_normal(sq(3, 9), sq(3, 8), false, Piece::BGI),
                "▲3八銀直",
            ),
            (
                Move::new_normal(sq(2, 9), sq(3, 8), false, Piece::BGI),
                "▲3八銀右",
            ),
        ];
        for (m, expected) in test_cases {
            assert_eq!(vec![expected], pos.kifu_strings(&[m]));
        }
    }
    {
                let pos = pos_from(&tables, 
            [
                EMP, EMP, EMP, EMP, EMP, EMP, EMP, WKI, EMP,
                WKI, EMP, EMP, EMP, EMP, EMP, EMP, EMP, EMP,
                WKI, EMP, EMP, EMP, EMP, EMP, EMP, WKI, EMP,
                EMP, EMP, EMP, EMP, WGI, EMP, EMP, EMP, EMP,
                EMP, EMP, EMP, EMP, EMP, EMP, EMP, EMP, EMP,
                EMP, EMP, EMP, EMP, WGI, EMP, EMP, EMP, EMP,
                WGI, EMP, EMP, EMP, EMP, EMP, EMP, WKI, EMP,
                WGI, EMP, EMP, EMP, EMP, EMP, EMP, EMP, EMP,
                EMP, EMP, EMP, EMP, EMP, EMP, EMP, WKI, EMP,
            ],
            [[0; 8]; 2],
            Color::White,
            1,
        );
        let test_cases = [
            (
                Move::new_normal(sq(1, 8), sq(2, 9), false, Piece::WKI),
                "△2九金左",
            ),
            (
                Move::new_normal(sq(3, 8), sq(2, 9), false, Piece::WKI),
                "△2九金右",
            ),
            (
                Move::new_normal(sq(7, 8), sq(8, 8), false, Piece::WKI),
                "△8八金左",
            ),
            (
                Move::new_normal(sq(9, 8), sq(8, 8), false, Piece::WKI),
                "△8八金右",
            ),
            (
                Move::new_normal(sq(4, 5), sq(5, 4), false, Piece::WGI),
                "△5四銀左",
            ),
            (
                Move::new_normal(sq(6, 5), sq(5, 4), false, Piece::WGI),
                "△5四銀右",
            ),
            (
                Move::new_normal(sq(2, 1), sq(3, 2), false, Piece::WKI),
                "△3二金左",
            ),
            (
                Move::new_normal(sq(3, 1), sq(3, 2), false, Piece::WKI),
                "△3二金直",
            ),
            (
                Move::new_normal(sq(7, 1), sq(7, 2), false, Piece::WGI),
                "△7二銀直",
            ),
            (
                Move::new_normal(sq(8, 1), sq(7, 2), false, Piece::WGI),
                "△7二銀右",
            ),
        ];
        for (m, expected) in test_cases {
            assert_eq!(vec![expected], pos.kifu_strings(&[m]));
        }
    }
}

#[test]
fn direction_and_side() {
    let tables = Rc::new(Tables::new());
    {
                let pos = pos_from(&tables, 
            [
                EMP, EMP, EMP, EMP, EMP, EMP, BGI, EMP, EMP,
                EMP, EMP, EMP, EMP, EMP, EMP, EMP, EMP, BGI,
                EMP, EMP, EMP, EMP, EMP, EMP, BGI, EMP, BGI,
                EMP, EMP, BKI, EMP, EMP, EMP, EMP, EMP, EMP,
                EMP, EMP, BKI, EMP, EMP, EMP, EMP, EMP, EMP,
                EMP, EMP, BKI, EMP, EMP, EMP, EMP, EMP, EMP,
                EMP, EMP, EMP, EMP, EMP, EMP, EMP, EMP, BTO,
                EMP, EMP, EMP, EMP, EMP, EMP, BTO, EMP, BTO,
                EMP, EMP, EMP, EMP, EMP, EMP, EMP, BTO, BTO,
            ],
            [[0; 8]; 2],
            Color::Black,
            1,
        );
        let test_cases = [
            (
                Move::new_normal(sq(6, 3), sq(5, 2), false, Piece::BKI),
                "▲5二金左",
            ),
            (
                Move::new_normal(sq(5, 3), sq(5, 2), false, Piece::BKI),
                "▲5二金直",
            ),
            (
                Move::new_normal(sq(4, 3), sq(5, 2), false, Piece::BKI),
                "▲5二金右",
            ),
            (
                Move::new_normal(sq(7, 9), sq(8, 8), false, Piece::BTO),
                "▲8八と右",
            ),
            (
                Move::new_normal(sq(8, 9), sq(8, 8), false, Piece::BTO),
                "▲8八と直",
            ),
            (
                Move::new_normal(sq(9, 9), sq(8, 8), false, Piece::BTO),
                "▲8八と左上",
            ),
            (
                Move::new_normal(sq(9, 8), sq(8, 8), false, Piece::BTO),
                "▲8八と寄",
            ),
            (
                Move::new_normal(sq(8, 7), sq(8, 8), false, Piece::BTO),
                "▲8八と引",
            ),
            (
                Move::new_normal(sq(2, 9), sq(2, 8), false, Piece::BGI),
                "▲2八銀直",
            ),
            (
                Move::new_normal(sq(1, 7), sq(2, 8), false, Piece::BGI),
                "▲2八銀右",
            ),
            (
                Move::new_normal(sq(3, 9), sq(2, 8), false, Piece::BGI),
                "▲2八銀左上",
            ),
            (
                Move::new_normal(sq(3, 7), sq(2, 8), false, Piece::BGI),
                "▲2八銀左引",
            ),
        ];
        for (m, expected) in test_cases {
            assert_eq!(vec![expected], pos.kifu_strings(&[m]));
        }
    }
    {
                let pos = pos_from(&tables, 
            [
                WTO, WTO, EMP, EMP, EMP, EMP, EMP, EMP, EMP,
                WTO, EMP, WTO, EMP, EMP, EMP, EMP, EMP, EMP,
                WTO, EMP, EMP, EMP, EMP, EMP, EMP, EMP, EMP,
                EMP, EMP, EMP, EMP, EMP, EMP, WKI, EMP, EMP,
                EMP, EMP, EMP, EMP, EMP, EMP, WKI, EMP, EMP,
                EMP, EMP, EMP, EMP, EMP, EMP, WKI, EMP, EMP,
                WGI, EMP, WGI, EMP, EMP, EMP, EMP, EMP, EMP,
                WGI, EMP, EMP, EMP, EMP, EMP, EMP, EMP, EMP,
                EMP, EMP, WGI, EMP, EMP, EMP, EMP, EMP, EMP,
            ],
            [[0; 8]; 2],
            Color::White,
            1,
        );
        let test_cases = [
            (
                Move::new_normal(sq(4, 7), sq(5, 8), false, Piece::WKI),
                "△5八金左",
            ),
            (
                Move::new_normal(sq(5, 7), sq(5, 8), false, Piece::WKI),
                "△5八金直",
            ),
            (
                Move::new_normal(sq(6, 7), sq(5, 8), false, Piece::WKI),
                "△5八金右",
            ),
            (
                Move::new_normal(sq(3, 1), sq(2, 2), false, Piece::WTO),
                "△2二と右",
            ),
            (
                Move::new_normal(sq(2, 1), sq(2, 2), false, Piece::WTO),
                "△2二と直",
            ),
            (
                Move::new_normal(sq(1, 1), sq(2, 2), false, Piece::WTO),
                "△2二と左上",
            ),
            (
                Move::new_normal(sq(1, 2), sq(2, 2), false, Piece::WTO),
                "△2二と寄",
            ),
            (
                Move::new_normal(sq(2, 3), sq(2, 2), false, Piece::WTO),
                "△2二と引",
            ),
            (
                Move::new_normal(sq(8, 1), sq(8, 2), false, Piece::WGI),
                "△8二銀直",
            ),
            (
                Move::new_normal(sq(9, 3), sq(8, 2), false, Piece::WGI),
                "△8二銀右",
            ),
            (
                Move::new_normal(sq(7, 1), sq(8, 2), false, Piece::WGI),
                "△8二銀左上",
            ),
            (
                Move::new_normal(sq(7, 3), sq(8, 2), false, Piece::WGI),
                "△8二銀左引",
            ),
        ];
        for (m, expected) in test_cases {
            assert_eq!(vec![expected], pos.kifu_strings(&[m]));
        }
    }
}

#[test]
fn dragon_direction_and_side() {
    let tables = Rc::new(Tables::new());
    {
                let pos = pos_from(&tables, 
            [
                EMP, EMP, EMP, EMP, EMP, EMP, EMP, EMP, EMP,
                EMP, EMP, EMP, EMP, EMP, EMP, EMP, EMP, EMP,
                EMP, EMP, EMP, EMP, EMP, EMP, EMP, EMP, EMP,
                EMP, EMP, EMP, EMP, EMP, EMP, EMP, EMP, EMP,
                EMP, EMP, EMP, EMP, EMP, EMP, EMP, EMP, EMP,
                EMP, EMP, EMP, EMP, EMP, EMP, EMP, EMP, EMP,
                EMP, EMP, EMP, EMP, EMP, EMP, EMP, EMP, EMP,
                EMP, EMP, EMP, BRY, EMP, EMP, EMP, EMP, EMP,
                BRY, EMP, EMP, EMP, EMP, EMP, EMP, EMP, EMP,
            ],
            [[0; 8]; 2],
            Color::Black,
            1,
        );
        let test_cases = [
            (
                Move::new_normal(sq(9, 1), sq(8, 2), false, Piece::BRY),
                "▲8二竜引",
            ),
            (
                Move::new_normal(sq(8, 4), sq(8, 2), false, Piece::BRY),
                "▲8二竜上",
            ),
        ];
        for (m, expected) in test_cases {
            assert_eq!(vec![expected], pos.kifu_strings(&[m]));
        }
    }
    {
                let pos = pos_from(&tables, 
            [
                EMP, EMP, EMP, EMP, EMP, EMP, EMP, EMP, EMP,
                EMP, EMP, BRY, EMP, EMP, EMP, EMP, EMP, EMP,
                EMP, EMP, EMP, EMP, EMP, EMP, EMP, EMP, EMP,
                EMP, EMP, EMP, EMP, EMP, EMP, EMP, EMP, EMP,
                EMP, BRY, EMP, EMP, EMP, EMP, EMP, EMP, EMP,
                EMP, EMP, EMP, EMP, EMP, EMP, EMP, EMP, EMP,
                EMP, EMP, EMP, EMP, EMP, EMP, EMP, EMP, EMP,
                EMP, EMP, EMP, EMP, EMP, EMP, EMP, EMP, EMP,
                EMP, EMP, EMP, EMP, EMP, EMP, EMP, EMP, EMP,
            ],
            [[0; 8]; 2],
            Color::Black,
            1,
        );
        let test_cases = [
            (
                Move::new_normal(sq(2, 3), sq(4, 3), false, Piece::BRY),
                "▲4三竜寄",
            ),
            (
                Move::new_normal(sq(5, 2), sq(4, 3), false, Piece::BRY),
                "▲4三竜引",
            ),
        ];
        for (m, expected) in test_cases {
            assert_eq!(vec![expected], pos.kifu_strings(&[m]));
        }
    }
    {
                let pos = pos_from(&tables, 
            [
                EMP, EMP, EMP, EMP, BRY, EMP, EMP, EMP, EMP,
                EMP, EMP, EMP, EMP, EMP, EMP, EMP, EMP, EMP,
                EMP, EMP, EMP, EMP, EMP, EMP, EMP, EMP, EMP,
                EMP, EMP, EMP, EMP, EMP, EMP, EMP, EMP, EMP,
                EMP, EMP, EMP, EMP, BRY, EMP, EMP, EMP, EMP,
                EMP, EMP, EMP, EMP, EMP, EMP, EMP, EMP, EMP,
                EMP, EMP, EMP, EMP, EMP, EMP, EMP, EMP, EMP,
                EMP, EMP, EMP, EMP, EMP, EMP, EMP, EMP, EMP,
                EMP, EMP, EMP, EMP, EMP, EMP, EMP, EMP, EMP,
            ],
            [[0; 8]; 2],
            Color::Black,
            1,
        );
        let test_cases = [
            (
                Move::new_normal(sq(5, 5), sq(3, 5), false, Piece::BRY),
                "▲3五竜左",
            ),
            (
                Move::new_normal(sq(1, 5), sq(3, 5), false, Piece::BRY),
                "▲3五竜右",
            ),
        ];
        for (m, expected) in test_cases {
            assert_eq!(vec![expected], pos.kifu_strings(&[m]));
        }
    }
    {
                let pos = pos_from(&tables, 
            [
                EMP, EMP, EMP, EMP, EMP, EMP, EMP, EMP, EMP,
                EMP, EMP, EMP, EMP, EMP, EMP, EMP, EMP, EMP,
                EMP, EMP, EMP, EMP, EMP, EMP, EMP, EMP, EMP,
                EMP, EMP, EMP, EMP, EMP, EMP, EMP, EMP, EMP,
                EMP, EMP, EMP, EMP, EMP, EMP, EMP, EMP, EMP,
                EMP, EMP, EMP, EMP, EMP, EMP, EMP, EMP, EMP,
                EMP, EMP, EMP, EMP, EMP, EMP, EMP, EMP, EMP,
                EMP, EMP, EMP, EMP, EMP, EMP, EMP, EMP, BRY,
                EMP, EMP, EMP, EMP, EMP, EMP, EMP, EMP, BRY,
            ],
            [[0; 8]; 2],
            Color::Black,
            1,
        );
        let test_cases = [
            (
                Move::new_normal(sq(9, 9), sq(8, 8), false, Piece::BRY),
                "▲8八竜左",
            ),
            (
                Move::new_normal(sq(8, 9), sq(8, 8), false, Piece::BRY),
                "▲8八竜右",
            ),
        ];
        for (m, expected) in test_cases {
            assert_eq!(vec![expected], pos.kifu_strings(&[m]));
        }
    }
    {
                let pos = pos_from(&tables, 
            [
                EMP, EMP, EMP, EMP, EMP, EMP, EMP, EMP, BRY,
                EMP, EMP, EMP, EMP, EMP, EMP, EMP, BRY, EMP,
                EMP, EMP, EMP, EMP, EMP, EMP, EMP, EMP, EMP,
                EMP, EMP, EMP, EMP, EMP, EMP, EMP, EMP, EMP,
                EMP, EMP, EMP, EMP, EMP, EMP, EMP, EMP, EMP,
                EMP, EMP, EMP, EMP, EMP, EMP, EMP, EMP, EMP,
                EMP, EMP, EMP, EMP, EMP, EMP, EMP, EMP, EMP,
                EMP, EMP, EMP, EMP, EMP, EMP, EMP, EMP, EMP,
                EMP, EMP, EMP, EMP, EMP, EMP, EMP, EMP, EMP,
            ],
            [[0; 8]; 2],
            Color::Black,
            1,
        );
        let test_cases = [
            (
                Move::new_normal(sq(2, 8), sq(1, 7), false, Piece::BRY),
                "▲1七竜左",
            ),
            (
                Move::new_normal(sq(1, 9), sq(1, 7), false, Piece::BRY),
                "▲1七竜右",
            ),
        ];
        for (m, expected) in test_cases {
            assert_eq!(vec![expected], pos.kifu_strings(&[m]));
        }
    }
    {
                let pos = pos_from(&tables, 
            [
                EMP, EMP, EMP, EMP, EMP, EMP, EMP, EMP, WRY,
                EMP, EMP, EMP, EMP, EMP, WRY, EMP, EMP, EMP,
                EMP, EMP, EMP, EMP, EMP, EMP, EMP, EMP, EMP,
                EMP, EMP, EMP, EMP, EMP, EMP, EMP, EMP, EMP,
                EMP, EMP, EMP, EMP, EMP, EMP, EMP, EMP, EMP,
                EMP, EMP, EMP, EMP, EMP, EMP, EMP, EMP, EMP,
                EMP, EMP, EMP, EMP, EMP, EMP, EMP, EMP, EMP,
                EMP, EMP, EMP, EMP, EMP, EMP, EMP, EMP, EMP,
                EMP, EMP, EMP, EMP, EMP, EMP, EMP, EMP, EMP,
            ],
            [[0; 8]; 2],
            Color::Black,
            1,
        );
        let test_cases = [
            (
                Move::new_normal(sq(1, 9), sq(2, 8), false, Piece::WRY),
                "△2八竜引",
            ),
            (
                Move::new_normal(sq(2, 6), sq(2, 8), false, Piece::WRY),
                "△2八竜上",
            ),
        ];
        for (m, expected) in test_cases {
            assert_eq!(vec![expected], pos.kifu_strings(&[m]));
        }
    }
    {
                let pos = pos_from(&tables, 
            [
                EMP, EMP, EMP, EMP, EMP, EMP, EMP, EMP, EMP,
                EMP, EMP, EMP, EMP, EMP, EMP, EMP, EMP, EMP,
                EMP, EMP, EMP, EMP, EMP, EMP, EMP, EMP, EMP,
                EMP, EMP, EMP, EMP, EMP, EMP, EMP, EMP, EMP,
                EMP, EMP, EMP, EMP, EMP, EMP, EMP, WRY, EMP,
                EMP, EMP, EMP, EMP, EMP, EMP, EMP, EMP, EMP,
                EMP, EMP, EMP, EMP, EMP, EMP, EMP, EMP, EMP,
                EMP, EMP, EMP, EMP, EMP, EMP, WRY, EMP, EMP,
                EMP, EMP, EMP, EMP, EMP, EMP, EMP, EMP, EMP,
            ],
            [[0; 8]; 2],
            Color::Black,
            1,
        );
        let test_cases = [
            (
                Move::new_normal(sq(8, 7), sq(6, 7), false, Piece::WRY),
                "△6七竜寄",
            ),
            (
                Move::new_normal(sq(5, 8), sq(6, 7), false, Piece::WRY),
                "△6七竜引",
            ),
        ];
        for (m, expected) in test_cases {
            assert_eq!(vec![expected], pos.kifu_strings(&[m]));
        }
    }
    {
                let pos = pos_from(&tables, 
            [
                EMP, EMP, EMP, EMP, EMP, EMP, EMP, EMP, EMP,
                EMP, EMP, EMP, EMP, EMP, EMP, EMP, EMP, EMP,
                EMP, EMP, EMP, EMP, EMP, EMP, EMP, EMP, EMP,
                EMP, EMP, EMP, EMP, EMP, EMP, EMP, EMP, EMP,
                EMP, EMP, EMP, EMP, WRY, EMP, EMP, EMP, EMP,
                EMP, EMP, EMP, EMP, EMP, EMP, EMP, EMP, EMP,
                EMP, EMP, EMP, EMP, EMP, EMP, EMP, EMP, EMP,
                EMP, EMP, EMP, EMP, EMP, EMP, EMP, EMP, EMP,
                EMP, EMP, EMP, EMP, WRY, EMP, EMP, EMP, EMP,
            ],
            [[0; 8]; 2],
            Color::Black,
            1,
        );
        let test_cases = [
            (
                Move::new_normal(sq(5, 5), sq(7, 5), false, Piece::WRY),
                "△7五竜左",
            ),
            (
                Move::new_normal(sq(9, 5), sq(7, 5), false, Piece::WRY),
                "△7五竜右",
            ),
        ];
        for (m, expected) in test_cases {
            assert_eq!(vec![expected], pos.kifu_strings(&[m]));
        }
    }
    {
                let pos = pos_from(&tables, 
            [
                WRY, EMP, EMP, EMP, EMP, EMP, EMP, EMP, EMP,
                WRY, EMP, EMP, EMP, EMP, EMP, EMP, EMP, EMP,
                EMP, EMP, EMP, EMP, EMP, EMP, EMP, EMP, EMP,
                EMP, EMP, EMP, EMP, EMP, EMP, EMP, EMP, EMP,
                EMP, EMP, EMP, EMP, EMP, EMP, EMP, EMP, EMP,
                EMP, EMP, EMP, EMP, EMP, EMP, EMP, EMP, EMP,
                EMP, EMP, EMP, EMP, EMP, EMP, EMP, EMP, EMP,
                EMP, EMP, EMP, EMP, EMP, EMP, EMP, EMP, EMP,
                EMP, EMP, EMP, EMP, EMP, EMP, EMP, EMP, EMP,
            ],
            [[0; 8]; 2],
            Color::Black,
            1,
        );
        let test_cases = [
            (
                Move::new_normal(sq(1, 1), sq(2, 2), false, Piece::WRY),
                "△2二竜左",
            ),
            (
                Move::new_normal(sq(2, 1), sq(2, 2), false, Piece::WRY),
                "△2二竜右",
            ),
        ];
        for (m, expected) in test_cases {
            assert_eq!(vec![expected], pos.kifu_strings(&[m]));
        }
    }
    {
                let pos = pos_from(&tables, 
            [
                EMP, EMP, EMP, EMP, EMP, EMP, EMP, EMP, EMP,
                EMP, EMP, EMP, EMP, EMP, EMP, EMP, EMP, EMP,
                EMP, EMP, EMP, EMP, EMP, EMP, EMP, EMP, EMP,
                EMP, EMP, EMP, EMP, EMP, EMP, EMP, EMP, EMP,
                EMP, EMP, EMP, EMP, EMP, EMP, EMP, EMP, EMP,
                EMP, EMP, EMP, EMP, EMP, EMP, EMP, EMP, EMP,
                EMP, EMP, EMP, EMP, EMP, EMP, EMP, EMP, EMP,
                EMP, WRY, EMP, EMP, EMP, EMP, EMP, EMP, EMP,
                WRY, EMP, EMP, EMP, EMP, EMP, EMP, EMP, EMP,
            ],
            [[0; 8]; 2],
            Color::Black,
            1,
        );
        let test_cases = [
            (
                Move::new_normal(sq(8, 2), sq(9, 3), false, Piece::WRY),
                "△9三竜左",
            ),
            (
                Move::new_normal(sq(9, 1), sq(9, 3), false, Piece::WRY),
                "△9三竜右",
            ),
        ];
        for (m, expected) in test_cases {
            assert_eq!(vec![expected], pos.kifu_strings(&[m]));
        }
    }
}

#[test]
fn horse_direction_and_side() {
    let tables = Rc::new(Tables::new());
    {
                let pos = pos_from(&tables, 
            [
                EMP, EMP, EMP, EMP, EMP, EMP, EMP, EMP, EMP,
                EMP, EMP, EMP, EMP, EMP, EMP, EMP, EMP, EMP,
                EMP, EMP, EMP, EMP, EMP, EMP, EMP, EMP, EMP,
                EMP, EMP, EMP, EMP, EMP, EMP, EMP, EMP, EMP,
                EMP, EMP, EMP, EMP, EMP, EMP, EMP, EMP, EMP,
                EMP, EMP, EMP, EMP, EMP, EMP, EMP, EMP, EMP,
                EMP, EMP, EMP, EMP, EMP, EMP, EMP, EMP, EMP,
                BUM, EMP, EMP, EMP, EMP, EMP, EMP, EMP, EMP,
                BUM, EMP, EMP, EMP, EMP, EMP, EMP, EMP, EMP,
            ],
            [[0; 8]; 2],
            Color::Black,
            1,
        );
        let test_cases = [
            (
                Move::new_normal(sq(9, 1), sq(8, 2), false, Piece::BUM),
                "▲8二馬左",
            ),
            (
                Move::new_normal(sq(8, 1), sq(8, 2), false, Piece::BUM),
                "▲8二馬右",
            ),
        ];
        for (m, expected) in test_cases {
            assert_eq!(vec![expected], pos.kifu_strings(&[m]));
        }
    }
    {
                let pos = pos_from(&tables, 
            [
                EMP, EMP, EMP, EMP, EMP, EMP, EMP, EMP, EMP,
                EMP, EMP, EMP, EMP, EMP, EMP, EMP, EMP, EMP,
                EMP, EMP, EMP, EMP, EMP, EMP, EMP, EMP, EMP,
                EMP, EMP, EMP, EMP, EMP, EMP, EMP, EMP, EMP,
                EMP, EMP, EMP, EMP, EMP, EMP, EMP, EMP, EMP,
                EMP, EMP, BUM, EMP, EMP, EMP, EMP, EMP, EMP,
                EMP, EMP, EMP, EMP, EMP, EMP, EMP, EMP, EMP,
                EMP, EMP, EMP, EMP, EMP, EMP, EMP, EMP, EMP,
                EMP, EMP, EMP, EMP, BUM, EMP, EMP, EMP, EMP,
            ],
            [[0; 8]; 2],
            Color::Black,
            1,
        );
        let test_cases = [
            (
                Move::new_normal(sq(9, 5), sq(8, 5), false, Piece::BUM),
                "▲8五馬寄",
            ),
            (
                Move::new_normal(sq(6, 3), sq(8, 5), false, Piece::BUM),
                "▲8五馬引",
            ),
        ];
        for (m, expected) in test_cases {
            assert_eq!(vec![expected], pos.kifu_strings(&[m]));
        }
    }
    {
                let pos = pos_from(&tables, 
            [
                BUM, EMP, EMP, EMP, EMP, EMP, EMP, EMP, EMP,
                EMP, EMP, EMP, EMP, EMP, EMP, EMP, EMP, EMP,
                EMP, EMP, EMP, BUM, EMP, EMP, EMP, EMP, EMP,
                EMP, EMP, EMP, EMP, EMP, EMP, EMP, EMP, EMP,
                EMP, EMP, EMP, EMP, EMP, EMP, EMP, EMP, EMP,
                EMP, EMP, EMP, EMP, EMP, EMP, EMP, EMP, EMP,
                EMP, EMP, EMP, EMP, EMP, EMP, EMP, EMP, EMP,
                EMP, EMP, EMP, EMP, EMP, EMP, EMP, EMP, EMP,
                EMP, EMP, EMP, EMP, EMP, EMP, EMP, EMP, EMP,
            ],
            [[0; 8]; 2],
            Color::Black,
            1,
        );
        let test_cases = [
            (
                Move::new_normal(sq(1, 1), sq(1, 2), false, Piece::BUM),
                "▲1二馬引",
            ),
            (
                Move::new_normal(sq(3, 4), sq(1, 2), false, Piece::BUM),
                "▲1二馬上",
            ),
        ];
        for (m, expected) in test_cases {
            assert_eq!(vec![expected], pos.kifu_strings(&[m]));
        }
    }
    {
                let pos = pos_from(&tables, 
            [
                EMP, EMP, EMP, EMP, EMP, EMP, EMP, EMP, EMP,
                EMP, EMP, EMP, EMP, EMP, EMP, EMP, EMP, EMP,
                EMP, EMP, EMP, EMP, EMP, EMP, EMP, EMP, EMP,
                EMP, EMP, EMP, EMP, EMP, EMP, EMP, EMP, EMP,
                EMP, EMP, EMP, EMP, EMP, EMP, EMP, EMP, BUM,
                EMP, EMP, EMP, EMP, EMP, EMP, EMP, EMP, EMP,
                EMP, EMP, EMP, EMP, EMP, EMP, EMP, EMP, EMP,
                EMP, EMP, EMP, EMP, EMP, EMP, EMP, EMP, EMP,
                EMP, EMP, EMP, EMP, EMP, EMP, EMP, EMP, BUM,
            ],
            [[0; 8]; 2],
            Color::Black,
            1,
        );
        let test_cases = [
            (
                Move::new_normal(sq(9, 9), sq(7, 7), false, Piece::BUM),
                "▲7七馬左",
            ),
            (
                Move::new_normal(sq(5, 9), sq(7, 7), false, Piece::BUM),
                "▲7七馬右",
            ),
        ];
        for (m, expected) in test_cases {
            assert_eq!(vec![expected], pos.kifu_strings(&[m]));
        }
    }
    {
                let pos = pos_from(&tables, 
            [
                EMP, EMP, EMP, EMP, EMP, EMP, EMP, BUM, EMP,
                EMP, EMP, EMP, EMP, EMP, EMP, EMP, EMP, EMP,
                EMP, EMP, EMP, EMP, EMP, EMP, EMP, EMP, EMP,
                EMP, EMP, EMP, EMP, EMP, EMP, BUM, EMP, EMP,
                EMP, EMP, EMP, EMP, EMP, EMP, EMP, EMP, EMP,
                EMP, EMP, EMP, EMP, EMP, EMP, EMP, EMP, EMP,
                EMP, EMP, EMP, EMP, EMP, EMP, EMP, EMP, EMP,
                EMP, EMP, EMP, EMP, EMP, EMP, EMP, EMP, EMP,
                EMP, EMP, EMP, EMP, EMP, EMP, EMP, EMP, EMP,
            ],
            [[0; 8]; 2],
            Color::Black,
            1,
        );
        let test_cases = [
            (
                Move::new_normal(sq(4, 7), sq(2, 9), false, Piece::BUM),
                "▲2九馬左",
            ),
            (
                Move::new_normal(sq(1, 8), sq(2, 9), false, Piece::BUM),
                "▲2九馬右",
            ),
        ];
        for (m, expected) in test_cases {
            assert_eq!(vec![expected], pos.kifu_strings(&[m]));
        }
    }
    {
                let pos = pos_from(&tables, 
            [
                EMP, EMP, EMP, EMP, EMP, EMP, EMP, EMP, WUM,
                EMP, EMP, EMP, EMP, EMP, EMP, EMP, EMP, WUM,
                EMP, EMP, EMP, EMP, EMP, EMP, EMP, EMP, EMP,
                EMP, EMP, EMP, EMP, EMP, EMP, EMP, EMP, EMP,
                EMP, EMP, EMP, EMP, EMP, EMP, EMP, EMP, EMP,
                EMP, EMP, EMP, EMP, EMP, EMP, EMP, EMP, EMP,
                EMP, EMP, EMP, EMP, EMP, EMP, EMP, EMP, EMP,
                EMP, EMP, EMP, EMP, EMP, EMP, EMP, EMP, EMP,
                EMP, EMP, EMP, EMP, EMP, EMP, EMP, EMP, EMP,
            ],
            [[0; 8]; 2],
            Color::Black,
            1,
        );
        let test_cases = [
            (
                Move::new_normal(sq(1, 9), sq(2, 8), false, Piece::WUM),
                "△2八馬左",
            ),
            (
                Move::new_normal(sq(2, 9), sq(2, 8), false, Piece::WUM),
                "△2八馬右",
            ),
        ];
        for (m, expected) in test_cases {
            assert_eq!(vec![expected], pos.kifu_strings(&[m]));
        }
    }
    {
                let pos = pos_from(&tables, 
            [
                EMP, EMP, EMP, EMP, WUM, EMP, EMP, EMP, EMP,
                EMP, EMP, EMP, EMP, EMP, EMP, EMP, EMP, EMP,
                EMP, EMP, EMP, EMP, EMP, EMP, EMP, EMP, EMP,
                EMP, EMP, EMP, EMP, EMP, EMP, WUM, EMP, EMP,
                EMP, EMP, EMP, EMP, EMP, EMP, EMP, EMP, EMP,
                EMP, EMP, EMP, EMP, EMP, EMP, EMP, EMP, EMP,
                EMP, EMP, EMP, EMP, EMP, EMP, EMP, EMP, EMP,
                EMP, EMP, EMP, EMP, EMP, EMP, EMP, EMP, EMP,
                EMP, EMP, EMP, EMP, EMP, EMP, EMP, EMP, EMP,
            ],
            [[0; 8]; 2],
            Color::Black,
            1,
        );
        let test_cases = [
            (
                Move::new_normal(sq(1, 5), sq(2, 5), false, Piece::WUM),
                "△2五馬寄",
            ),
            (
                Move::new_normal(sq(4, 7), sq(2, 5), false, Piece::WUM),
                "△2五馬引",
            ),
        ];
        for (m, expected) in test_cases {
            assert_eq!(vec![expected], pos.kifu_strings(&[m]));
        }
    }
    {
                let pos = pos_from(&tables, 
            [
                EMP, EMP, EMP, EMP, EMP, EMP, EMP, EMP, EMP,
                EMP, EMP, EMP, EMP, EMP, EMP, EMP, EMP, EMP,
                EMP, EMP, EMP, EMP, EMP, EMP, EMP, EMP, EMP,
                EMP, EMP, EMP, EMP, EMP, EMP, EMP, EMP, EMP,
                EMP, EMP, EMP, EMP, EMP, EMP, EMP, EMP, EMP,
                EMP, EMP, EMP, EMP, EMP, EMP, EMP, EMP, EMP,
                EMP, EMP, EMP, EMP, EMP, WUM, EMP, EMP, EMP,
                EMP, EMP, EMP, EMP, EMP, EMP, EMP, EMP, EMP,
                EMP, EMP, EMP, EMP, EMP, EMP, EMP, EMP, WUM,
            ],
            [[0; 8]; 2],
            Color::Black,
            1,
        );
        let test_cases = [
            (
                Move::new_normal(sq(9, 9), sq(9, 8), false, Piece::WUM),
                "△9八馬引",
            ),
            (
                Move::new_normal(sq(7, 6), sq(9, 8), false, Piece::WUM),
                "△9八馬上",
            ),
        ];
        for (m, expected) in test_cases {
            assert_eq!(vec![expected], pos.kifu_strings(&[m]));
        }
    }
    {
                let pos = pos_from(&tables, 
            [
                WUM, EMP, EMP, EMP, EMP, EMP, EMP, EMP, EMP,
                EMP, EMP, EMP, EMP, EMP, EMP, EMP, EMP, EMP,
                EMP, EMP, EMP, EMP, EMP, EMP, EMP, EMP, EMP,
                EMP, EMP, EMP, EMP, EMP, EMP, EMP, EMP, EMP,
                WUM, EMP, EMP, EMP, EMP, EMP, EMP, EMP, EMP,
                EMP, EMP, EMP, EMP, EMP, EMP, EMP, EMP, EMP,
                EMP, EMP, EMP, EMP, EMP, EMP, EMP, EMP, EMP,
                EMP, EMP, EMP, EMP, EMP, EMP, EMP, EMP, EMP,
                EMP, EMP, EMP, EMP, EMP, EMP, EMP, EMP, EMP,
            ],
            [[0; 8]; 2],
            Color::Black,
            1,
        );
        let test_cases = [
            (
                Move::new_normal(sq(1, 1), sq(3, 3), false, Piece::WUM),
                "△3三馬左",
            ),
            (
                Move::new_normal(sq(5, 1), sq(3, 3), false, Piece::WUM),
                "△3三馬右",
            ),
        ];
        for (m, expected) in test_cases {
            assert_eq!(vec![expected], pos.kifu_strings(&[m]));
        }
    }
    {
                let pos = pos_from(&tables, 
            [
                EMP, EMP, EMP, EMP, EMP, EMP, EMP, EMP, EMP,
                EMP, EMP, EMP, EMP, EMP, EMP, EMP, EMP, EMP,
                EMP, EMP, EMP, EMP, EMP, EMP, EMP, EMP, EMP,
                EMP, EMP, EMP, EMP, EMP, EMP, EMP, EMP, EMP,
                EMP, EMP, EMP, EMP, EMP, EMP, EMP, EMP, EMP,
                EMP, EMP, WUM, EMP, EMP, EMP, EMP, EMP, EMP,
                EMP, EMP, EMP, EMP, EMP, EMP, EMP, EMP, EMP,
                EMP, EMP, EMP, EMP, EMP, EMP, EMP, EMP, EMP,
                EMP, WUM, EMP, EMP, EMP, EMP, EMP, EMP, EMP,
            ],
            [[0; 8]; 2],
            Color::Black,
            1,
        );
        let test_cases = [
            (
                Move::new_normal(sq(6, 3), sq(8, 1), false, Piece::WUM),
                "△8一馬左",
            ),
            (
                Move::new_normal(sq(9, 2), sq(8, 1), false, Piece::WUM),
                "△8一馬右",
            ),
        ];
        for (m, expected) in test_cases {
            assert_eq!(vec![expected], pos.kifu_strings(&[m]));
        }
    }
}

#[test]
fn all_unique() {
    let tables = Rc::new(Tables::new());
    let piece_type_nums = [
        (PieceType::KE, 4),
        (PieceType::GI, 4),
        (PieceType::KI, 4),
        (PieceType::KA, 2),
        (PieceType::HI, 2),
        (PieceType::TO, 6),
        (PieceType::UM, 2),
        (PieceType::RY, 2),
    ];
    for c in Color::all() {
        for (pk, num) in piece_type_nums {
            let piece = Piece::from_cp(c, pk);
            for t in 0..81 {
                let to = Square(t);
                let mut attack = tables.attack.pseudo_attack(pk, to, c.flip());
                let mut froms = Vec::new();
                while let Some(s) = attack.pop() {
                    froms.push(s);
                }
                for k in 2..=num {
                    for v in (0..froms.len()).combinations(k) {
                        let mut board = [None; 81];
                        let mut moves = Vec::new();
                        for i in v {
                            let from = froms[i];
                            board[from.index()] = Some(piece);
                            moves.push(Move::new_normal(from, to, false, piece));
                        }
                        let pos = pos_from(&tables, board, [[0; 8]; 2], c, 1);
                        let legal_moves = pos.legal_moves().into_iter().collect::<HashSet<_>>();
                        if moves.iter().any(|m| !legal_moves.contains(m)) {
                            continue;
                        }
                        let mut results = HashSet::new();
                        for &m in &moves {
                            let result = pos.kifu_strings(&[m])[0].clone();
                            assert!(
                                result.strip_suffix("不成").unwrap_or(&result).chars().count() > 4,
                                "{result}"
                            );
                            results.insert(result);
                        }
                        assert_eq!(results.len(), moves.len(), "not unique {results:?}: {moves:?}");
                    }
                }
            }
        }
    }
}
