use crate::color::Color;
use vstd::prelude::*;

verus! {

/// A file (column) of the board, numbered from 0 (file 1) to 8 (file 9).
#[derive(Clone, Copy, Debug, PartialEq, Eq, Hash, Structural)]
pub struct File(pub i8);

impl File {
    pub const NUM: usize = 9;
}

/// A rank (row) of the board, numbered from 0 (rank 1, the top row) to 8 (rank 9).
#[derive(Clone, Copy, Debug, PartialEq, Eq, Hash, Structural)]
pub struct Rank(pub i8);

impl Rank {
    pub const NUM: usize = 9;

    /// The ranks where a piece of color `c` may promote: ranks 1 to 3 for Black,
    /// ranks 7 to 9 for White.
    pub open spec fn in_promotion_zone(self, c: Color) -> bool {
        match c {
            Color::Black => 0 <= self.0 < 3,
            Color::White => 6 <= self.0 < 9,
        }
    }

    /// Whether this rank is in the promotion zone of `c`.
    pub fn is_opponent_field(&self, c: Color) -> (r: bool)
        requires
            0 <= self.0 < 32,
        ensures
            r == self.in_promotion_zone(c),
    {
        let s = self.0 as u32;
        match c {
            Color::Black => {
                assert((1u32 << s) & 0x0007u32 != 0u32 <==> s < 3) by (bit_vector)
                    requires
                        s < 32u32,
                ;
                (1u32 << s) & 0x0007 != 0
            },
            Color::White => {
                assert((1u32 << s) & 0x01c0u32 != 0u32 <==> 6 <= s < 9) by (bit_vector)
                    requires
                        s < 32u32,
                ;
                (1u32 << s) & 0x01c0 != 0
            },
        }
    }
}

/// A square of the board, stored as `file * 9 + rank` (0 for 1一, 80 for 9九).
#[derive(Clone, Copy, Debug, PartialEq, Eq, Hash, Structural)]
pub struct Square(pub i8);

/// The file of the square with index `i`.
pub open spec fn file_of(i: int) -> int {
    i / 9
}

/// The rank of the square with index `i`.
pub open spec fn rank_of(i: int) -> int {
    i % 9
}

/// The rank of the square with index `i`, numbered 1 to 9 from the side of `c`.
pub open spec fn relative_rank_of(i: int, c: Color) -> int {
    match c {
        Color::Black => rank_of(i) + 1,
        Color::White => 9 - rank_of(i),
    }
}

/// The square at (file, rank) moved by the given deltas, if it stays on the board.
pub open spec fn shifted(i: int, file_delta: int, rank_delta: int) -> Option<int> {
    let f = file_of(i) + file_delta;
    let r = rank_of(i) + rank_delta;
    if 0 <= f < 9 && 0 <= r < 9 {
        Some(f * 9 + r)
    } else {
        None
    }
}

impl Square {
    pub const NUM: usize = 81;

    /// A square on the board.
    pub open spec fn wf(self) -> bool {
        0 <= self.0 < 81
    }

    pub open spec fn idx(self) -> int {
        self.0 as int
    }

    pub fn new(file: File, rank: Rank) -> (r: Self)
        requires
            -128 <= file.0 * 9 < 128,
            -128 <= file.0 * 9 + rank.0 < 128,
        ensures
            r.0 == file.0 * 9 + rank.0,
    {
        Square(file.0 * 9 + rank.0)
    }

    pub fn file(&self) -> (r: File)
        requires
            self.wf(),
        ensures
            r.0 == file_of(self.0 as int),
    {
        File(self.0 / 9)
    }

    pub fn rank(&self) -> (r: Rank)
        requires
            self.wf(),
        ensures
            r.0 == rank_of(self.0 as int),
    {
        Rank(self.0 % 9)
    }

    /// The square moved by `file_delta` files and `rank_delta` ranks, or `None` when that
    /// leaves the board.
    pub fn checked_shift(self, file_delta: i8, rank_delta: i8) -> (r: Option<Self>)
        requires
            self.wf(),
            -128 <= file_of(self.0 as int) + file_delta < 128,
            -128 <= rank_of(self.0 as int) + rank_delta < 128,
        ensures
            r matches Some(s) ==> s.wf() && shifted(self.0 as int, file_delta as int, rank_delta as int)
                == Some(s.0 as int),
            r is None ==> shifted(self.0 as int, file_delta as int, rank_delta as int) is None,
    {
        let file = self.file().0 + file_delta;
        let rank = self.rank().0 + rank_delta;
        if 0 <= file && file < 9 && 0 <= rank && rank < 9 {
            Some(Square(file * 9 + rank))
        } else {
            None
        }
    }

    /// Position of the square in board arrays.
    pub fn index(&self) -> (r: usize)
        ensures
            r == self.0 as usize,
    {
        self.0 as usize
    }

    /// The rank counted from the side of `c`: 1 is the farthest rank for that side.
    pub fn relative_rank(&self, c: Color) -> (r: u8)
        requires
            self.wf(),
        ensures
            r == relative_rank_of(self.0 as int, c),
            1 <= r <= 9,
    {
        let rank = (self.0 % 9) as u8;
        match c {
            Color::Black => rank + 1,
            Color::White => 9 - rank,
        }
    }
}

/// The decimal digit `d` (1 to 9).
pub open spec fn digit_str(d: int) -> Seq<char> {
    if d == 1 {
        "1"@
    } else if d == 2 {
        "2"@
    } else if d == 3 {
        "3"@
    } else if d == 4 {
        "4"@
    } else if d == 5 {
        "5"@
    } else if d == 6 {
        "6"@
    } else if d == 7 {
        "7"@
    } else if d == 8 {
        "8"@
    } else {
        "9"@
    }
}

fn digit(d: i8) -> (r: String)
    requires
        1 <= d <= 9,
    ensures
        r@ == digit_str(d as int),
{
    String::from_str(
        if d == 1 {
            "1"
        } else if d == 2 {
            "2"
        } else if d == 3 {
            "3"
        } else if d == 4 {
            "4"
        } else if d == 5 {
            "5"
        } else if d == 6 {
            "6"
        } else if d == 7 {
            "7"
        } else if d == 8 {
            "8"
        } else {
            "9"
        },
    )
}

impl File {
    /// The file's number, 1 to 9.
    pub fn to_string(&self) -> (r: String)
        requires
            0 <= self.0 < 9,
        ensures
            r@ == digit_str(self.0 + 1),
    {
        digit(self.0 + 1)
    }
}

impl Rank {
    /// The rank's number, 1 to 9.
    pub fn to_string(&self) -> (r: String)
        requires
            0 <= self.0 < 9,
        ensures
            r@ == digit_str(self.0 + 1),
    {
        digit(self.0 + 1)
    }
}

impl Square {
    /// The file's number then the rank's, such as "76".
    pub fn to_string(&self) -> (r: String)
        requires
            self.wf(),
        ensures
            r@ == digit_str(file_of(self.0 as int) + 1) + digit_str(rank_of(self.0 as int) + 1),
    {
        let mut s = self.file().to_string();
        s.append(self.rank().to_string().as_str());
        s
    }
}

} // verus!
