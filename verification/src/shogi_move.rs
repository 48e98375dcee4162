use crate::piece::{valid_piece_code, Piece};
use crate::square::Square;
use vstd::prelude::*;

verus! {

/// What a move does, as plain values.
#[derive(Clone, Copy, Debug, PartialEq, Eq, Structural)]
pub enum MoveType {
    /// Moves `piece` from `from` to `to`, promoting it when `is_promotion` holds.
    Normal { from: Square, to: Square, is_promotion: bool, piece: Piece },
    /// Drops `piece` from the hand onto `to`.
    Drop { to: Square, piece: Piece },
}

/// A move packed into 32 bits:
///
/// ```text
/// ........ ........ ........ .####### : to
/// ........ ........ ........ #....... : promotion flag
/// ........ ........ .####### ........ : from (0 if drop move)
/// ........ ........ #....... ........ : drop flag
/// ........ ...##### ........ ........ : moved or dropped piece
/// ```
#[derive(Clone, Copy, Debug, PartialEq, Eq, Hash, Structural)]
pub struct Move(u32);

pub open spec fn to_field(v: u32) -> u32 {
    v & 0x7f
}

pub open spec fn from_field(v: u32) -> u32 {
    (v & 0x7f00) >> 8
}

pub open spec fn piece_field(v: u32) -> u32 {
    (v & 0x001f_0000) >> 16
}

pub open spec fn promotion_flag(v: u32) -> bool {
    v & 0x80 != 0
}

pub open spec fn drop_flag(v: u32) -> bool {
    v & 0x8000 != 0
}

impl Move {
    /// Every move holds squares on the board and a valid piece; a drop has no origin and no
    /// promotion.
    #[verifier::type_invariant]
    pub closed spec fn inv(self) -> bool {
        &&& to_field(self.0) < 81
        &&& from_field(self.0) < 81
        &&& valid_piece_code(piece_field(self.0) as int)
        &&& drop_flag(self.0) ==> from_field(self.0) == 0 && !promotion_flag(self.0)
        &&& self.0 & !0x001f_ffffu32 == 0
        &&& self.0 & 0x7f00 == 0 || !drop_flag(self.0)
    }

    pub closed spec fn bits(self) -> u32 {
        self.0
    }

    /// The destination square.
    pub open spec fn dest(self) -> Square {
        Square(to_field(self.bits()) as i8)
    }

    /// The moved or dropped piece.
    pub open spec fn moved_piece(self) -> Piece {
        crate::piece::piece_of_code(piece_field(self.bits()) as int)
    }

    pub open spec fn drop_move(self) -> bool {
        drop_flag(self.bits())
    }

    pub open spec fn promotes(self) -> bool {
        promotion_flag(self.bits())
    }

    /// The origin square; meaningful for a normal move only.
    pub open spec fn origin(self) -> Square {
        Square(from_field(self.bits()) as i8)
    }

    /// What the move does.
    pub open spec fn view(self) -> MoveType {
        if self.drop_move() {
            MoveType::Drop { to: self.dest(), piece: self.moved_piece() }
        } else {
            MoveType::Normal {
                from: self.origin(),
                to: self.dest(),
                is_promotion: self.promotes(),
                piece: self.moved_piece(),
            }
        }
    }

    /// The fields of every move are in range.
    pub proof fn lemma_wf(self)
        requires
            self.inv(),
        ensures
            self.dest().wf(),
            self.origin().wf(),
            valid_piece_code(piece_field(self.bits()) as int),
            self.drop_move() ==> !self.promotes(),
    {
    }

    pub fn new_normal(from: Square, to: Square, is_promotion: bool, piece: Piece) -> (r: Self)
        requires
            from.wf(),
            to.wf(),
        ensures
            r@ == (MoveType::Normal { from, to, is_promotion, piece }),
    {
        let t = to.index() as u32;
        let f = from.index() as u32;
        let p: u32 = if is_promotion {
            0x80
        } else {
            0
        };
        let c = piece.to_code() as u32;
        let v = t | (f << 8) | p | (c << 16);
        proof {
            assert(to_field(v) == t && from_field(v) == f && piece_field(v) == c && promotion_flag(v)
                == (p != 0) && !drop_flag(v) && v & !0x001f_ffffu32 == 0) by (bit_vector)
                requires
                    t < 128,
                    f < 128,
                    c < 32,
                    p == 0 || p == 0x80,
                    v == t | (f << 8) | p | (c << 16),
            ;
            crate::piece::lemma_piece_code(piece);
        }
        Move(v)
    }

    pub fn new_drop(to: Square, piece: Piece) -> (r: Self)
        requires
            to.wf(),
        ensures
            r@ == (MoveType::Drop { to, piece }),
    {
        let t = to.index() as u32;
        let c = piece.to_code() as u32;
        let v = t | 0x8000 | (c << 16);
        proof {
            assert(to_field(v) == t && from_field(v) == 0 && piece_field(v) == c && !promotion_flag(v)
                && drop_flag(v) && v & !0x001f_ffffu32 == 0 && v & 0x7f00 == 0) by (bit_vector)
                requires
                    t < 128,
                    c < 32,
                    v == t | 0x8000 | (c << 16),
            ;
            crate::piece::lemma_piece_code(piece);
        }
        Move(v)
    }

    /// The origin square, or `None` for a drop.
    pub fn from(&self) -> (r: Option<Square>)
        ensures
            r == (match self@ {
                MoveType::Normal { from, .. } => Some(from),
                MoveType::Drop { .. } => None::<Square>,
            }),
    {
        proof {
            use_type_invariant(self);
        }
        if self.is_drop() {
            None
        } else {
            Some(Square(((self.0 & 0x7f00) >> 8) as i8))
        }
    }

    /// The kind of move and its fields.
    pub fn move_type(&self) -> (r: MoveType)
        ensures
            r == self@,
    {
        if let Some(from) = self.from() {
            MoveType::Normal {
                from,
                to: self.to(),
                is_promotion: self.is_promotion(),
                piece: self.piece(),
            }
        } else {
            MoveType::Drop { to: self.to(), piece: self.piece() }
        }
    }

    /// The destination square.
    pub fn to(&self) -> (r: Square)
        ensures
            r == self.dest(),
            r.wf(),
    {
        proof {
            use_type_invariant(self);
        }
        Square((self.0 & 0x7f) as i8)
    }

    pub fn is_promotion(&self) -> (r: bool)
        ensures
            r == self.promotes(),
            self.drop_move() ==> !r,
    {
        proof {
            use_type_invariant(self);
        }
        (self.0 & 0x80) != 0
    }

    pub fn is_drop(&self) -> (r: bool)
        ensures
            r == self.drop_move(),
    {
        (self.0 & 0x8000) != 0
    }

    /// The moved or dropped piece.
    pub fn piece(&self) -> (r: Piece)
        ensures
            r == self.moved_piece(),
    {
        proof {
            use_type_invariant(self);
        }
        Piece::from_code(((self.0 & 0x001f_0000) >> 16) as u8)
    }
}

/// A move is determined by what it does: two moves with the same view are the same move.
pub proof fn lemma_view_injective(a: Move, b: Move)
    requires
        a.inv(),
        b.inv(),
        a@ == b@,
    ensures
        a == b,
{
    let x = a.bits();
    let y = b.bits();
    crate::piece::lemma_piece_code(a.moved_piece());
    crate::piece::lemma_piece_code(b.moved_piece());
    assert(to_field(x) == to_field(y));
    assert(piece_field(x) == piece_field(y));
    assert(drop_flag(x) == drop_flag(y));
    assert(promotion_flag(x) == promotion_flag(y));
    assert(from_field(x) == from_field(y));
    assert(x == y) by (bit_vector)
        requires
            to_field(x) == to_field(y),
            from_field(x) == from_field(y),
            piece_field(x) == piece_field(y),
            promotion_flag(x) == promotion_flag(y),
            drop_flag(x) == drop_flag(y),
            x & !0x001f_ffffu32 == 0,
            y & !0x001f_ffffu32 == 0,
    ;
}

} // verus!
