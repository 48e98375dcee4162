use crate::color::Color;
use vstd::prelude::*;

verus! {

/// The kind of a piece, without its color.
///
/// The order is that of the piece codes: FU KY KE GI KA HI KI OU, then the promoted kinds
/// TO NY NK NG UM RY, each 8 above the kind it is promoted from.
#[derive(Clone, Copy, Debug, PartialEq, Eq, Hash, Structural)]
pub enum PieceType {
    FU,
    KY,
    KE,
    GI,
    KA,
    HI,
    KI,
    OU,
    TO,
    NY,
    NK,
    NG,
    UM,
    RY,
}

/// The code of a piece kind: 0 to 7 for the unpromoted kinds, 8 to 13 for the promoted ones.
pub open spec fn kind_code(pt: PieceType) -> int {
    match pt {
        PieceType::FU => 0,
        PieceType::KY => 1,
        PieceType::KE => 2,
        PieceType::GI => 3,
        PieceType::KA => 4,
        PieceType::HI => 5,
        PieceType::KI => 6,
        PieceType::OU => 7,
        PieceType::TO => 8,
        PieceType::NY => 9,
        PieceType::NK => 10,
        PieceType::NG => 11,
        PieceType::UM => 12,
        PieceType::RY => 13,
    }
}

/// The piece kind with a given code.
pub open spec fn kind_of_code(c: int) -> PieceType {
    if c == 0 {
        PieceType::FU
    } else if c == 1 {
        PieceType::KY
    } else if c == 2 {
        PieceType::KE
    } else if c == 3 {
        PieceType::GI
    } else if c == 4 {
        PieceType::KA
    } else if c == 5 {
        PieceType::HI
    } else if c == 6 {
        PieceType::KI
    } else if c == 7 {
        PieceType::OU
    } else if c == 8 {
        PieceType::TO
    } else if c == 9 {
        PieceType::NY
    } else if c == 10 {
        PieceType::NK
    } else if c == 11 {
        PieceType::NG
    } else if c == 12 {
        PieceType::UM
    } else {
        PieceType::RY
    }
}

/// Kinds that can promote: FU, KY, KE, GI, KA, HI.
pub open spec fn kind_is_promotable(pt: PieceType) -> bool {
    kind_code(pt) <= 5
}

/// The kind after promotion; kinds that cannot promote stay as they are.
pub open spec fn kind_promoted(pt: PieceType) -> PieceType {
    match pt {
        PieceType::FU => PieceType::TO,
        PieceType::KY => PieceType::NY,
        PieceType::KE => PieceType::NK,
        PieceType::GI => PieceType::NG,
        PieceType::KA => PieceType::UM,
        PieceType::HI => PieceType::RY,
        _ => pt,
    }
}

/// The kind before promotion; unpromoted kinds stay as they are.
pub open spec fn kind_demoted(pt: PieceType) -> PieceType {
    match pt {
        PieceType::TO => PieceType::FU,
        PieceType::NY => PieceType::KY,
        PieceType::NK => PieceType::KE,
        PieceType::NG => PieceType::GI,
        PieceType::UM => PieceType::KA,
        PieceType::RY => PieceType::HI,
        _ => pt,
    }
}

pub proof fn lemma_kind_code(pt: PieceType)
    ensures
        0 <= kind_code(pt) < 14,
        kind_of_code(kind_code(pt)) == pt,
{
}

pub proof fn lemma_code_kind(c: int)
    requires
        0 <= c < 14,
    ensures
        kind_code(kind_of_code(c)) == c,
{
}

impl PieceType {
    pub const NUM: usize = 14;
    pub const NUM_HAND: usize = 7;

    pub open spec fn idx(self) -> int {
        kind_code(self)
    }

    /// Position of the kind in arrays indexed by kind.
    pub fn index(&self) -> (r: usize)
        ensures
            r == kind_code(*self),
    {
        match self {
            PieceType::FU => 0,
            PieceType::KY => 1,
            PieceType::KE => 2,
            PieceType::GI => 3,
            PieceType::KA => 4,
            PieceType::HI => 5,
            PieceType::KI => 6,
            PieceType::OU => 7,
            PieceType::TO => 8,
            PieceType::NY => 9,
            PieceType::NK => 10,
            PieceType::NG => 11,
            PieceType::UM => 12,
            PieceType::RY => 13,
        }
    }

    /// The kind with code `c`.
    pub fn from_index(c: u8) -> (r: PieceType)
        requires
            c < 14,
        ensures
            r == kind_of_code(c as int),
    {
        if c == 0 {
            PieceType::FU
        } else if c == 1 {
            PieceType::KY
        } else if c == 2 {
            PieceType::KE
        } else if c == 3 {
            PieceType::GI
        } else if c == 4 {
            PieceType::KA
        } else if c == 5 {
            PieceType::HI
        } else if c == 6 {
            PieceType::KI
        } else if c == 7 {
            PieceType::OU
        } else if c == 8 {
            PieceType::TO
        } else if c == 9 {
            PieceType::NY
        } else if c == 10 {
            PieceType::NK
        } else if c == 11 {
            PieceType::NG
        } else if c == 12 {
            PieceType::UM
        } else {
            PieceType::RY
        }
    }

    /// All kinds, in code order.
    pub fn all() -> (r: [PieceType; 14])
        ensures
            forall|i: int| 0 <= i < 14 ==> kind_code(#[trigger] r@[i]) == i,
    {
        [
            PieceType::FU,
            PieceType::KY,
            PieceType::KE,
            PieceType::GI,
            PieceType::KA,
            PieceType::HI,
            PieceType::KI,
            PieceType::OU,
            PieceType::TO,
            PieceType::NY,
            PieceType::NK,
            PieceType::NG,
            PieceType::UM,
            PieceType::RY,
        ]
    }

    /// The kinds that can be held in hand, in the order FU KY KE GI KI KA HI.
    pub fn all_hand() -> (r: [PieceType; 7])
        ensures
            r@ == seq![
                PieceType::FU,
                PieceType::KY,
                PieceType::KE,
                PieceType::GI,
                PieceType::KI,
                PieceType::KA,
                PieceType::HI,
            ],
    {
        [
            PieceType::FU,
            PieceType::KY,
            PieceType::KE,
            PieceType::GI,
            PieceType::KI,
            PieceType::KA,
            PieceType::HI,
        ]
    }
}

/// A piece on the board: a kind with a color.
///
/// Its code is the kind's code, plus 16 for White.
#[derive(Clone, Copy, Debug, PartialEq, Eq, Hash, Structural)]
pub enum Piece {
    BFU,
    BKY,
    BKE,
    BGI,
    BKA,
    BHI,
    BKI,
    BOU,
    BTO,
    BNY,
    BNK,
    BNG,
    BUM,
    BRY,
    WFU,
    WKY,
    WKE,
    WGI,
    WKA,
    WHI,
    WKI,
    WOU,
    WTO,
    WNY,
    WNK,
    WNG,
    WUM,
    WRY,
}

/// Valid piece codes: 0 to 13 (Black) and 16 to 29 (White).
pub open spec fn valid_piece_code(c: int) -> bool {
    (0 <= c < 14) || (16 <= c < 30)
}

/// The piece with the given code.
pub open spec fn piece_of_code(c: int) -> Piece {
    Piece::make(if c >= 16 { Color::White } else { Color::Black }, kind_of_code(c % 16))
}

impl Piece {
    /// The code of the piece: 16 * color + kind.
    pub open spec fn code(self) -> int {
        match self {
            Piece::BFU => 0,
            Piece::BKY => 1,
            Piece::BKE => 2,
            Piece::BGI => 3,
            Piece::BKA => 4,
            Piece::BHI => 5,
            Piece::BKI => 6,
            Piece::BOU => 7,
            Piece::BTO => 8,
            Piece::BNY => 9,
            Piece::BNK => 10,
            Piece::BNG => 11,
            Piece::BUM => 12,
            Piece::BRY => 13,
            Piece::WFU => 16,
            Piece::WKY => 17,
            Piece::WKE => 18,
            Piece::WGI => 19,
            Piece::WKA => 20,
            Piece::WHI => 21,
            Piece::WKI => 22,
            Piece::WOU => 23,
            Piece::WTO => 24,
            Piece::WNY => 25,
            Piece::WNK => 26,
            Piece::WNG => 27,
            Piece::WUM => 28,
            Piece::WRY => 29,
        }
    }

    /// The color of the piece.
    pub open spec fn side(self) -> Color {
        if self.code() >= 16 {
            Color::White
        } else {
            Color::Black
        }
    }

    /// The kind of the piece.
    pub open spec fn kind(self) -> PieceType {
        kind_of_code(self.code() % 16)
    }

    /// The piece of the given color and kind.
    pub open spec fn make(c: Color, pt: PieceType) -> Piece {
        match (c, pt) {
            (Color::Black, PieceType::FU) => Piece::BFU,
            (Color::Black, PieceType::KY) => Piece::BKY,
            (Color::Black, PieceType::KE) => Piece::BKE,
            (Color::Black, PieceType::GI) => Piece::BGI,
            (Color::Black, PieceType::KA) => Piece::BKA,
            (Color::Black, PieceType::HI) => Piece::BHI,
            (Color::Black, PieceType::KI) => Piece::BKI,
            (Color::Black, PieceType::OU) => Piece::BOU,
            (Color::Black, PieceType::TO) => Piece::BTO,
            (Color::Black, PieceType::NY) => Piece::BNY,
            (Color::Black, PieceType::NK) => Piece::BNK,
            (Color::Black, PieceType::NG) => Piece::BNG,
            (Color::Black, PieceType::UM) => Piece::BUM,
            (Color::Black, PieceType::RY) => Piece::BRY,
            (Color::White, PieceType::FU) => Piece::WFU,
            (Color::White, PieceType::KY) => Piece::WKY,
            (Color::White, PieceType::KE) => Piece::WKE,
            (Color::White, PieceType::GI) => Piece::WGI,
            (Color::White, PieceType::KA) => Piece::WKA,
            (Color::White, PieceType::HI) => Piece::WHI,
            (Color::White, PieceType::KI) => Piece::WKI,
            (Color::White, PieceType::OU) => Piece::WOU,
            (Color::White, PieceType::TO) => Piece::WTO,
            (Color::White, PieceType::NY) => Piece::WNY,
            (Color::White, PieceType::NK) => Piece::WNK,
            (Color::White, PieceType::NG) => Piece::WNG,
            (Color::White, PieceType::UM) => Piece::WUM,
            (Color::White, PieceType::RY) => Piece::WRY,
        }
    }

    /// The code of the piece, as stored in bit patterns.
    pub fn to_code(&self) -> (r: u8)
        ensures
            r == self.code(),
            valid_piece_code(r as int),
    {
        match self {
            Piece::BFU => 0,
            Piece::BKY => 1,
            Piece::BKE => 2,
            Piece::BGI => 3,
            Piece::BKA => 4,
            Piece::BHI => 5,
            Piece::BKI => 6,
            Piece::BOU => 7,
            Piece::BTO => 8,
            Piece::BNY => 9,
            Piece::BNK => 10,
            Piece::BNG => 11,
            Piece::BUM => 12,
            Piece::BRY => 13,
            Piece::WFU => 16,
            Piece::WKY => 17,
            Piece::WKE => 18,
            Piece::WGI => 19,
            Piece::WKA => 20,
            Piece::WHI => 21,
            Piece::WKI => 22,
            Piece::WOU => 23,
            Piece::WTO => 24,
            Piece::WNY => 25,
            Piece::WNK => 26,
            Piece::WNG => 27,
            Piece::WUM => 28,
            Piece::WRY => 29,
        }
    }

    /// The piece with code `c`.
    pub fn from_code(c: u8) -> (r: Piece)
        requires
            valid_piece_code(c as int),
        ensures
            r.code() == c,
            r == piece_of_code(c as int),
    {
        let color = if c >= 16 {
            Color::White
        } else {
            Color::Black
        };
        let pt = PieceType::from_index(c % 16);
        Piece::from_cp(color, pt)
    }

    /// The piece of color `color` and kind `piece_type`.
    pub fn from_cp(color: Color, piece_type: PieceType) -> (r: Self)
        ensures
            r == Piece::make(color, piece_type),
            r.side() == color,
            r.kind() == piece_type,
            r.code() == 16 * color.idx() + kind_code(piece_type),
    {
        match (color, piece_type) {
            (Color::Black, PieceType::FU) => Piece::BFU,
            (Color::Black, PieceType::KY) => Piece::BKY,
            (Color::Black, PieceType::KE) => Piece::BKE,
            (Color::Black, PieceType::GI) => Piece::BGI,
            (Color::Black, PieceType::KA) => Piece::BKA,
            (Color::Black, PieceType::HI) => Piece::BHI,
            (Color::Black, PieceType::KI) => Piece::BKI,
            (Color::Black, PieceType::OU) => Piece::BOU,
            (Color::Black, PieceType::TO) => Piece::BTO,
            (Color::Black, PieceType::NY) => Piece::BNY,
            (Color::Black, PieceType::NK) => Piece::BNK,
            (Color::Black, PieceType::NG) => Piece::BNG,
            (Color::Black, PieceType::UM) => Piece::BUM,
            (Color::Black, PieceType::RY) => Piece::BRY,
            (Color::White, PieceType::FU) => Piece::WFU,
            (Color::White, PieceType::KY) => Piece::WKY,
            (Color::White, PieceType::KE) => Piece::WKE,
            (Color::White, PieceType::GI) => Piece::WGI,
            (Color::White, PieceType::KA) => Piece::WKA,
            (Color::White, PieceType::HI) => Piece::WHI,
            (Color::White, PieceType::KI) => Piece::WKI,
            (Color::White, PieceType::OU) => Piece::WOU,
            (Color::White, PieceType::TO) => Piece::WTO,
            (Color::White, PieceType::NY) => Piece::WNY,
            (Color::White, PieceType::NK) => Piece::WNK,
            (Color::White, PieceType::NG) => Piece::WNG,
            (Color::White, PieceType::UM) => Piece::WUM,
            (Color::White, PieceType::RY) => Piece::WRY,
        }
    }

    /// Whether the piece can promote: FU, KY, KE, GI, KA and HI of either color.
    pub fn is_promotable(&self) -> (r: bool)
        ensures
            r == kind_is_promotable(self.kind()),
    {
        let c = self.to_code();
        proof {
            lemma_code_bits(c);
        }
        c & 0x07 <= 5 && c & 0x08 == 0
    }

    /// The promoted piece; a piece that cannot promote is returned as it is.
    pub fn promoted(&self) -> (r: Piece)
        ensures
            r == Piece::make(self.side(), kind_promoted(self.kind())),
    {
        let c = self.to_code();
        proof {
            lemma_code_bits(c);
        }
        if c & 0x07 <= 5 {
            Piece::from_code(c | 0x08)
        } else {
            *self
        }
    }

    /// The unpromoted piece; an unpromoted piece is returned as it is.
    pub fn demoted(&self) -> (r: Piece)
        ensures
            r == Piece::make(self.side(), kind_demoted(self.kind())),
    {
        let c = self.to_code();
        proof {
            lemma_code_bits(c);
        }
        if c & 0x07 <= 5 {
            Piece::from_code(c & !0x08)
        } else {
            *self
        }
    }

    pub fn piece_type(&self) -> (r: PieceType)
        ensures
            r == self.kind(),
    {
        let c = self.to_code();
        proof {
            lemma_code_bits(c);
        }
        PieceType::from_index(c & !0x10)
    }

    pub fn color(&self) -> (r: Color)
        ensures
            r == self.side(),
    {
        let c = self.to_code();
        proof {
            lemma_code_bits(c);
        }
        if c & 0x10 == 0 {
            Color::Black
        } else {
            Color::White
        }
    }
}

/// What the bit operations of the piece functions compute on a valid code.
proof fn lemma_code_bits(c: u8)
    requires
        valid_piece_code(c as int),
    ensures
        (c & 0x07 <= 5 && c & 0x08 == 0) == (c % 16 <= 5),
        (c & 0x07 <= 5) == (c % 16 <= 5 || 8 <= c % 16),
        c % 16 <= 5 ==> (c | 0x08) == c + 8,
        8 <= c % 16 ==> (c | 0x08) == c,
        c % 16 <= 5 ==> (c & !0x08u8) == c,
        8 <= c % 16 ==> (c & !0x08u8) == c - 8,
        (c & !0x10u8) == c % 16,
        (c & 0x10 == 0) == (c < 16),
{
    assert((c < 14 || (16 <= c && c < 30)) ==> ((c & 0x07 <= 5 && c & 0x08 == 0) == (c % 16 <= 5)
        && (c & 0x07 <= 5) == (c % 16 <= 5 || 8 <= c % 16) && (c % 16 <= 5 ==> (c | 0x08) == c
        + 8) && (8 <= c % 16 ==> (c | 0x08) == c) && (c % 16 <= 5 ==> (c & !0x08u8) == c) && (8
        <= c % 16 ==> (c & !0x08u8) == c - 8) && (c & !0x10u8) == c % 16 && (c & 0x10 == 0) == (c
        < 16))) by (bit_vector);
}

/// A piece's code determines it: it is 16 times the color plus the kind's code.
pub proof fn lemma_piece_code(p: Piece)
    ensures
        valid_piece_code(p.code()),
        p.code() == 16 * p.side().idx() + kind_code(p.kind()),
        piece_of_code(p.code()) == p,
        Piece::make(p.side(), p.kind()) == p,
{
}

/// The piece made of a color and a kind has that color and that kind.
pub proof fn lemma_make(c: Color, pt: PieceType)
    ensures
        Piece::make(c, pt).side() == c,
        Piece::make(c, pt).kind() == pt,
{
    match c {
        Color::Black => match pt {
            PieceType::FU => {},
            PieceType::KY => {},
            PieceType::KE => {},
            PieceType::GI => {},
            PieceType::KA => {},
            PieceType::HI => {},
            PieceType::KI => {},
            PieceType::OU => {},
            PieceType::TO => {},
            PieceType::NY => {},
            PieceType::NK => {},
            PieceType::NG => {},
            PieceType::UM => {},
            PieceType::RY => {},
        },
        Color::White => match pt {
            PieceType::FU => {},
            PieceType::KY => {},
            PieceType::KE => {},
            PieceType::GI => {},
            PieceType::KA => {},
            PieceType::HI => {},
            PieceType::KI => {},
            PieceType::OU => {},
            PieceType::TO => {},
            PieceType::NY => {},
            PieceType::NK => {},
            PieceType::NG => {},
            PieceType::UM => {},
            PieceType::RY => {},
        },
    }
}

/// The two-letter name of a kind.
pub open spec fn kind_name(pt: PieceType) -> Seq<char> {
    match pt {
        PieceType::FU => "FU"@,
        PieceType::KY => "KY"@,
        PieceType::KE => "KE"@,
        PieceType::GI => "GI"@,
        PieceType::KI => "KI"@,
        PieceType::KA => "KA"@,
        PieceType::HI => "HI"@,
        PieceType::OU => "OU"@,
        PieceType::TO => "TO"@,
        PieceType::NY => "NY"@,
        PieceType::NK => "NK"@,
        PieceType::NG => "NG"@,
        PieceType::UM => "UM"@,
        PieceType::RY => "RY"@,
    }
}

/// The name of a piece: "+" for Black or "-" for White, then its kind's name.
pub open spec fn piece_name(p: Piece) -> Seq<char> {
    (match p.side() {
        Color::Black => "+"@,
        Color::White => "-"@,
    }) + kind_name(p.kind())
}

impl PieceType {
    /// The two-letter name of the kind.
    pub fn to_string(&self) -> (r: String)
        ensures
            r@ == kind_name(*self),
    {
        String::from_str(
            match self {
                PieceType::FU => "FU",
                PieceType::KY => "KY",
                PieceType::KE => "KE",
                PieceType::GI => "GI",
                PieceType::KI => "KI",
                PieceType::KA => "KA",
                PieceType::HI => "HI",
                PieceType::OU => "OU",
                PieceType::TO => "TO",
                PieceType::NY => "NY",
                PieceType::NK => "NK",
                PieceType::NG => "NG",
                PieceType::UM => "UM",
                PieceType::RY => "RY",
            },
        )
    }
}

impl Piece {
    /// The name of the piece, such as "+FU" or "-RY".
    pub fn to_string(&self) -> (r: String)
        ensures
            r@ == piece_name(*self),
    {
        let mut s = String::from_str(
            match self.color() {
                Color::Black => "+",
                Color::White => "-",
            },
        );
        s.append(self.piece_type().to_string().as_str());
        s
    }
}

/// Promoting a piece that can promote and then demoting it gives back the piece; promoting a
/// piece that cannot promote leaves it as it is. Both keep the color.
pub proof fn law_promote_demote(p: Piece)
    ensures
        kind_is_promotable(p.kind()) ==> {
            let q = Piece::make(p.side(), kind_promoted(p.kind()));
            &&& q.side() == p.side()
            &&& Piece::make(q.side(), kind_demoted(q.kind())) == p
        },
        !kind_is_promotable(p.kind()) ==> Piece::make(p.side(), kind_promoted(p.kind())) == p,
{
    lemma_piece_code(p);
    lemma_make(p.side(), kind_promoted(p.kind()));
    lemma_kind_code(p.kind());
}

} // verus!
