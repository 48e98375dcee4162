use crate::color::Color;
use crate::hand::{hand_index, hand_slot, has_hand_slot};
use crate::piece::{Piece, PieceType};
use crate::square::Square;
use rand::distributions::Standard;
use rand::rngs::StdRng;
use rand::{Rng, SeedableRng};
use vstd::prelude::*;

verus! {

/// A Zobrist hash value.
#[derive(Clone, Copy, Debug, PartialEq, Eq, Structural)]
pub struct Key(pub u64);

impl Key {
    /// The key of nothing.
    pub fn zero() -> (r: Key)
        ensures
            r.0 == 0,
    {
        Key(0)
    }

    /// The key that marks a change of the side to move: the lowest bit.
    pub fn color() -> (r: Key)
        ensures
            r.0 == 1,
    {
        Key(1)
    }

    pub fn value(&self) -> (r: u64)
        ensures
            r == self.0,
    {
        self.0
    }

    pub fn xor(self, rhs: Key) -> (r: Key)
        ensures
            r.0 == self.0 ^ rhs.0,
    {
        Key(self.0 ^ rhs.0)
    }

    pub fn and(self, rhs: Key) -> (r: Key)
        ensures
            r.0 == self.0 & rhs.0,
    {
        Key(self.0 & rhs.0)
    }

    pub fn not(self) -> (r: Key)
        ensures
            r.0 == !self.0,
    {
        Key(!self.0)
    }
}

/// The first `n` values of type `u64` drawn from a `StdRng` seeded with `seed`.
pub uninterp spec fn std_rng_u64s(seed: u64, n: nat) -> Seq<u64>;

/// `rand::SeedableRng::seed_from_u64` for `StdRng`, then `n` draws of a `u64` through
/// `rand::Rng::sample_iter` with the `Standard` distribution, the same draws as `n` calls of
/// `Rng::gen::<u64>`. rand documents the algorithm of `StdRng` as deterministic, so the draws
/// are named by the seed and their number; nothing is claimed of their values.
#[verifier::external_body]
fn std_rng_draws(seed: u64, n: usize) -> (r: Vec<u64>)
    ensures
        r@ == std_rng_u64s(seed, n as nat),
        r@.len() == n,
{
    StdRng::seed_from_u64(seed).sample_iter(Standard).take(n).collect()
}

/// The number of board keys: one per square, color and kind.
pub const BOARD_KEYS: usize = 2268;

/// The number of keys drawn: the board keys, then the hand keys of the seven hand kinds of
/// both colors, 18 counts each.
pub const DRAWN_KEYS: usize = 2520;

/// The values drawn for the keys, from a generator seeded with 2022.
pub open spec fn key_draws() -> Seq<u64> {
    std_rng_u64s(2022, DRAWN_KEYS as nat)
}

proof fn lemma_hand_index(c: int, slot: int, num: int)
    requires
        0 <= c < 2,
        0 <= slot < 8,
        0 <= num < 18,
    ensures
        0 <= 8 * 18 * c + 18 * slot + num < 288,
        (8 * 18 * c + 18 * slot + num) / 144 == c,
        (8 * 18 * c + 18 * slot + num) % 144 == 18 * slot + num,
        (18 * slot + num) / 18 == slot,
{
    assert((144 * c + (18 * slot + num)) / 144 == c && (144 * c + (18 * slot + num)) % 144 == 18 * slot + num) by (nonlinear_arith)
        requires 0 <= 18 * slot + num < 144, 0 <= c < 2;
    assert((18 * slot + num) / 18 == slot) by (nonlinear_arith)
        requires 0 <= num < 18;
}

/// A drawn value with its lowest bit, the side-to-move bit, cleared.
pub open spec fn cleared(v: u64) -> u64 {
    v & !1u64
}

/// The position of a kind among a square's keys: FU KY KE GI KI KA HI OU, then TO NY NK NG UM
/// RY.
pub open spec fn key_kind_index(pt: PieceType) -> int {
    match pt {
        PieceType::FU => 0,
        PieceType::KY => 1,
        PieceType::KE => 2,
        PieceType::GI => 3,
        PieceType::KI => 4,
        PieceType::KA => 5,
        PieceType::HI => 6,
        PieceType::OU => 7,
        PieceType::TO => 8,
        PieceType::NY => 9,
        PieceType::NK => 10,
        PieceType::NG => 11,
        PieceType::UM => 12,
        PieceType::RY => 13,
    }
}

fn key_kind(pt: PieceType) -> (r: usize)
    ensures
        r == key_kind_index(pt),
{
    match pt {
        PieceType::FU => 0,
        PieceType::KY => 1,
        PieceType::KE => 2,
        PieceType::GI => 3,
        PieceType::KI => 4,
        PieceType::KA => 5,
        PieceType::HI => 6,
        PieceType::OU => 7,
        PieceType::TO => 8,
        PieceType::NY => 9,
        PieceType::NK => 10,
        PieceType::NG => 11,
        PieceType::UM => 12,
        PieceType::RY => 13,
    }
}

/// Keys for every piece on every square, and for every count of every kind in hand.
pub struct ZobristTable {
    /// Entry `28 * square + 14 * color + key_kind_index(kind)`.
    board: Vec<Key>,
    /// Entry `8 * 18 * color + 18 * slot + count`.
    hands: Vec<Key>,
}

pub const MAX_HAND_NUM: usize = 18;

impl ZobristTable {
    pub closed spec fn wf(self) -> bool {
        &&& self.board@.len() == 81 * 28
        &&& self.hands@.len() == 2 * 8 * 18
        &&& forall|i: int| 0 <= i < self.board@.len() ==> #[trigger] self.board@[i].0 & 1 == 0
        &&& forall|i: int| 0 <= i < self.hands@.len() ==> #[trigger] self.hands@[i].0 & 1 == 0
    }

    /// The key of piece `p` on square `sq`.
    pub closed spec fn board_key(self, sq: int, p: Piece) -> u64 {
        self.board@[28 * sq + 14 * p.side().idx() + key_kind_index(p.kind())].0
    }

    /// The key of the `num`-th piece (counting from 0) of hand slot `slot` of color `c`.
    pub closed spec fn hand_key(self, c: Color, slot: int, num: int) -> u64 {
        self.hands@[8 * 18 * c.idx() + 18 * slot + num].0
    }

    /// The keys leave the side-to-move bit clear.
    pub proof fn lemma_keys_even(self, sq: int, p: Piece, c: Color, slot: int, num: int)
        requires
            self.wf(),
            0 <= sq < 81,
            0 <= slot < 7,
            0 <= num < 18,
        ensures
            self.board_key(sq, p) & 1 == 0,
            self.hand_key(c, slot, num) & 1 == 0,
    {
        crate::piece::lemma_piece_code(p);
        crate::piece::lemma_kind_code(p.kind());
        assert(0 <= 28 * sq + 14 * p.side().idx() + key_kind_index(p.kind()) < 81 * 28);
        assert(0 <= 8 * 18 * c.idx() + 18 * slot + num < 2 * 8 * 18);
        assert(self.hands@[8 * 18 * c.idx() + 18 * slot + num].0 & 1 == 0);
    }

    /// The keys are the drawn values, side-to-move bit cleared, in the order `new` draws them;
    /// the unused eighth hand slot holds zeros.
    pub open spec fn drawn(self) -> bool {
        &&& forall|sq: int, p: Piece|
            0 <= sq < 81 ==> #[trigger] self.board_key(sq, p) == cleared(
                key_draws()[28 * sq + 14 * p.side().idx() + key_kind_index(p.kind())],
            )
        &&& forall|c: Color, slot: int, num: int|
            0 <= slot < 7 && 0 <= num < 18 ==> #[trigger] self.hand_key(c, slot, num) == cleared(
                key_draws()[BOARD_KEYS + 126 * c.idx() + 18 * slot + num],
            )
        &&& forall|c: Color, num: int| 0 <= num < 18 ==> #[trigger] self.hand_key(c, 7, num) == 0
    }

    /// Draws the keys from a generator seeded with 2022: the board keys square by square, color
    /// by color, kind by kind; then the hand keys color by color, hand kind by hand kind, count
    /// by count. The unused eighth slot of each color holds zeros.
    pub fn new() -> (r: Self)
        ensures
            r.wf(),
            r.drawn(),
    {
        let draws = std_rng_draws(2022, DRAWN_KEYS);
        let mut board: Vec<Key> = Vec::new();
        let mut i: usize = 0;
        while i < BOARD_KEYS
            invariant
                i <= BOARD_KEYS,
                draws@ == key_draws(),
                draws@.len() == DRAWN_KEYS,
                board@.len() == i,
                forall|j: int| 0 <= j < board@.len() ==> #[trigger] board@[j].0 == cleared(key_draws()[j]),
                forall|j: int| 0 <= j < board@.len() ==> #[trigger] board@[j].0 & 1 == 0,
            decreases BOARD_KEYS - i,
        {
            let v = draws[i];
            assert(v & !1u64 & 1 == 0) by (bit_vector);
            board.push(Key(v).and(Key::color().not()));
            i = i + 1;
        }
        let mut hands: Vec<Key> = Vec::new();
        let mut j: usize = 0;
        while j < 2 * 8 * 18
            invariant
                j <= 2 * 8 * 18,
                draws@ == key_draws(),
                draws@.len() == DRAWN_KEYS,
                hands@.len() == j,
                forall|k: int|
                    0 <= k < hands@.len() ==> #[trigger] hands@[k].0 == if (k % 144) / 18 == 7 {
                        0u64
                    } else {
                        cleared(key_draws()[BOARD_KEYS + 126 * (k / 144) + k % 144])
                    },
                forall|k: int| 0 <= k < hands@.len() ==> #[trigger] hands@[k].0 & 1 == 0,
            decreases 2 * 8 * 18 - j,
        {
            if (j % (8 * 18)) / 18 == 7 {
                hands.push(Key(0));
                assert(0u64 & 1 == 0) by (bit_vector);
            } else {
                assert(j % 144 < 126) by {
                    assert((j % 144) / 18 < 7);
                }
                let v = draws[BOARD_KEYS + 126 * (j / 144) + j % 144];
                assert(v & !1u64 & 1 == 0) by (bit_vector);
                hands.push(Key(v).and(Key::color().not()));
            }
            j = j + 1;
        }
        let r = ZobristTable { board, hands };
        proof {
            assert forall|sq: int, p: Piece| 0 <= sq < 81 implies #[trigger] r.board_key(sq, p) == cleared(
                key_draws()[28 * sq + 14 * p.side().idx() + key_kind_index(p.kind())],
            ) by {
                crate::piece::lemma_piece_code(p);
                crate::piece::lemma_kind_code(p.kind());
                assert(0 <= 28 * sq + 14 * p.side().idx() + key_kind_index(p.kind()) < 81 * 28);
            }
            assert forall|c: Color, slot: int, num: int| 0 <= slot < 7 && 0 <= num < 18 implies #[trigger] r.hand_key(c, slot, num) == cleared(
                key_draws()[BOARD_KEYS + 126 * c.idx() + 18 * slot + num],
            ) by {
                lemma_hand_index(c.idx(), slot, num);
            }
            assert forall|c: Color, num: int| 0 <= num < 18 implies #[trigger] r.hand_key(c, 7, num) == 0 by {
                lemma_hand_index(c.idx(), 7, num);
            }
        }
        r
    }

    /// The key of piece `p` on square `sq`.
    pub fn board(&self, sq: Square, p: Piece) -> (r: Key)
        requires
            self.wf(),
            sq.wf(),
        ensures
            r.0 == self.board_key(sq.0 as int, p),
    {
        proof {
            crate::piece::lemma_piece_code(p);
            crate::piece::lemma_kind_code(p.kind());
        }
        self.board[28 * sq.index() + 14 * p.color().index() + key_kind(p.piece_type())]
    }

    /// The key of the `num`-th piece (counting from 0) of kind `pt` in the hand of `c`.
    pub fn hand(&self, c: Color, pt: PieceType, num: u8) -> (r: Key)
        requires
            self.wf(),
            has_hand_slot(pt),
            num < MAX_HAND_NUM,
        ensures
            r.0 == self.hand_key(c, hand_slot(pt), num as int),
    {
        self.hands[8 * 18 * c.index() + 18 * hand_index(pt) + num as usize]
    }
}

} // verus!
