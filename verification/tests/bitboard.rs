use yasai::bitboard::Bitboard;
use yasai::Square;

/// The square on `file` (1 to 9) and `rank` (1 for A to 9 for I).
fn sq(file: i8, rank: i8) -> Square {
    Square((file - 1) * 9 + (rank - 1))
}

fn all_squares() -> Vec<Square> {
    (0..81).map(Square).collect()
}

fn to_bb(squares: Vec<Square>) -> Bitboard {
    squares.iter().fold(Bitboard::empty(), |acc, e| acc.or(Bitboard::single(*e)))
}

#[test]
fn bitboard_empty() {
    assert!(Bitboard::empty().is_empty());
}

#[test]
fn single() {
    for s in all_squares() {
        assert_eq!(1, Bitboard::single(s).count());
    }
}

#[test]
fn contains() {
    for s in all_squares() {
        assert!(Bitboard::single(s).contains(s));
    }
}

#[test]
fn bit_ops() {
    let bb0 = Bitboard::empty();
    let bb1 = Bitboard::single(sq(1, 1));
    assert_eq!(bb0, bb0.and(bb1));
    assert_eq!(bb1, bb0.or(bb1));
    assert_eq!(bb1, bb0.xor(bb1));

    let mut bb = Bitboard::empty();
    assert_eq!(bb0, bb);
    bb = bb.or(bb1);
    assert_eq!(bb1, bb);
    bb = bb.and(bb1);
    assert_eq!(bb1, bb);
    bb = bb.xor(bb1);
    assert_eq!(bb0, bb);
}

#[test]
fn shift() {
    assert_eq!(Bitboard::single(sq(1, 2)), Bitboard::single(sq(1, 1)).shl());
    assert_eq!(Bitboard::single(sq(9, 8)), Bitboard::single(sq(9, 9)).shr());
}

#[test]
fn bitboard_sliding_positives() {
    // A bishop on 6E.
    let bb = to_bb(vec![sq(8, 3), sq(8, 7)]);
    assert_eq!(
        bb.or(to_bb(vec![sq(7, 4), sq(7, 6)])),
        bb.sliding_positives(&[
            to_bb(vec![sq(7, 4), sq(8, 3), sq(9, 2)]),
            to_bb(vec![sq(7, 6), sq(8, 7), sq(9, 8)]),
        ])
    );
    // A rook on 6F.
    let bb = to_bb(vec![sq(6, 8), sq(8, 6)]);
    assert_eq!(
        bb.or(to_bb(vec![sq(6, 7), sq(7, 6)])),
        bb.sliding_positives(&[
            to_bb(vec![sq(6, 7), sq(6, 8), sq(6, 9)]),
            to_bb(vec![sq(7, 6), sq(8, 6), sq(9, 6)]),
        ])
    );
}

#[test]
fn bitboard_sliding_negatives() {
    // A bishop on 4E.
    let bb = to_bb(vec![sq(2, 3), sq(2, 7)]);
    assert_eq!(
        bb.or(to_bb(vec![sq(3, 4), sq(3, 6)])),
        bb.sliding_negatives(&[
            to_bb(vec![sq(3, 4), sq(2, 3), sq(1, 2)]),
            to_bb(vec![sq(3, 6), sq(2, 7), sq(1, 8)]),
        ])
    );
    // A rook on 4D.
    let bb = to_bb(vec![sq(2, 4), sq(4, 2)]);
    assert_eq!(
        bb.or(to_bb(vec![sq(3, 4), sq(4, 3)])),
        bb.sliding_negatives(&[
            to_bb(vec![sq(3, 4), sq(2, 4), sq(1, 4)]),
            to_bb(vec![sq(4, 3), sq(4, 2), sq(4, 1)]),
        ])
    );
}

#[test]
fn aarch64_sliding_positives() {
    let bb = to_bb(vec![sq(8, 3), sq(8, 7)]);
    assert_eq!(
        bb.or(to_bb(vec![sq(7, 4), sq(7, 6)])),
        bb.sliding_positives(&[
            to_bb(vec![sq(7, 4), sq(8, 3), sq(9, 2)]),
            to_bb(vec![sq(7, 6), sq(8, 7), sq(9, 8)]),
        ])
    );
}

#[test]
fn aarch64_sliding_negatives() {
    let bb = to_bb(vec![sq(2, 3), sq(2, 7)]);
    assert_eq!(
        bb.or(to_bb(vec![sq(3, 4), sq(3, 6)])),
        bb.sliding_negatives(&[
            to_bb(vec![sq(3, 4), sq(2, 3), sq(1, 2)]),
            to_bb(vec![sq(3, 6), sq(2, 7), sq(1, 8)]),
        ])
    );
}

#[test]
fn vacant_files() {
    assert_eq!(Bitboard::empty().not(), Bitboard::empty().vacant_files());
    let all_files = to_bb(vec![
        sq(1, 1), sq(2, 2), sq(3, 3), sq(4, 4), sq(5, 5), sq(6, 6), sq(7, 7), sq(8, 8), sq(9, 9),
    ])
    .vacant_files();
    assert_eq!(Bitboard::empty(), all_files);

    let odd_files = to_bb(vec![sq(1, 1), sq(3, 1), sq(5, 1), sq(7, 1), sq(9, 1)]).vacant_files();
    let odd_files2 = to_bb(vec![sq(1, 9), sq(3, 9), sq(5, 9), sq(7, 9), sq(9, 9)]).vacant_files();
    assert_eq!(odd_files, odd_files2);

    let even_files = to_bb(vec![sq(2, 1), sq(4, 1), sq(6, 1), sq(8, 1)]).vacant_files();
    assert_eq!(Bitboard::empty(), odd_files.and(even_files));
    assert_eq!(Bitboard::empty().not(), odd_files.or(even_files));
}

#[test]
fn pop_gives_squares_in_order() {
    let mut bb = to_bb(vec![sq(9, 9), sq(1, 1), sq(5, 5)]);
    assert_eq!(3, bb.count());
    assert_eq!(Some(sq(1, 1)), bb.pop());
    assert_eq!(Some(sq(5, 5)), bb.pop());
    assert_eq!(Some(sq(9, 9)), bb.pop());
    assert_eq!(None, bb.pop());
    assert!(bb.is_empty());
}

#[test]
fn not_and_andnot() {
    let bb = to_bb(vec![sq(1, 1), sq(9, 9)]);
    assert_eq!(79, bb.not().count());
    assert_eq!(Bitboard::single(sq(9, 9)), bb.andnot(Bitboard::single(sq(1, 1))));
    assert_eq!(81, Bitboard::empty().not().count());
}
