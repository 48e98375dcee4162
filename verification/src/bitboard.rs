use crate::square::Square;
use vstd::prelude::*;
use vstd::set_lib::*;
use vstd::std_specs::bits::*;

verus! {

/// Bit `j` of `x`.
pub open spec fn bit64(x: u64, j: u64) -> bool {
    (x >> j) & 1u64 == 1u64
}

/// All the squares of the board, by index.
pub open spec fn board_set() -> Set<int> {
    Set::new(|i: int| 0 <= i < 81)
}

/// A set of squares.
///
/// Squares 0 to 62 (files 1 to 7) are bits 0 to 62 of `lo`; squares 63 to 80 (files 8 and 9)
/// are bits 0 to 17 of `hi`. Bit 63 of `lo` and bits 18 to 63 of `hi` are always clear.
#[derive(Clone, Copy, Debug, PartialEq, Eq, Hash, Structural)]
pub struct Bitboard {
    lo: u64,
    hi: u64,
}

impl Bitboard {
    #[verifier::type_invariant]
    pub closed spec fn inv(self) -> bool {
        self.lo >> 63 == 0 && self.hi >> 18 == 0
    }

    /// Whether square `i` is in the set.
    pub closed spec fn has(self, i: int) -> bool {
        if 0 <= i < 63 {
            bit64(self.lo, i as u64)
        } else if 63 <= i < 81 {
            bit64(self.hi, (i - 63) as u64)
        } else {
            false
        }
    }
}

impl View for Bitboard {
    type V = Set<int>;

    open spec fn view(&self) -> Set<int> {
        Set::new(|i: int| self.has(i))
    }
}

proof fn lemma_and_bits(a: u64, b: u64)
    by (bit_vector)
    ensures
        forall|j: u64| #[trigger] bit64(a & b, j) == (bit64(a, j) && bit64(b, j)),
        a >> 63 == 0 ==> (a & b) >> 63 == 0,
        a >> 18 == 0 ==> (a & b) >> 18 == 0,
{
}

proof fn lemma_or_bits(a: u64, b: u64)
    by (bit_vector)
    ensures
        forall|j: u64| #[trigger] bit64(a | b, j) == (bit64(a, j) || bit64(b, j)),
        a >> 63 == 0 && b >> 63 == 0 ==> (a | b) >> 63 == 0,
        a >> 18 == 0 && b >> 18 == 0 ==> (a | b) >> 18 == 0,
{
}

proof fn lemma_xor_bits(a: u64, b: u64)
    by (bit_vector)
    ensures
        forall|j: u64| #[trigger] bit64(a ^ b, j) == (bit64(a, j) != bit64(b, j)),
        a >> 63 == 0 && b >> 63 == 0 ==> (a ^ b) >> 63 == 0,
        a >> 18 == 0 && b >> 18 == 0 ==> (a ^ b) >> 18 == 0,
{
}

proof fn lemma_not_bits(a: u64)
    by (bit_vector)
    ensures
        forall|j: u64| #[trigger] bit64(!a & 0x7fff_ffff_ffff_ffffu64, j) == (j < 63 && !bit64(a, j)),
        forall|j: u64| #[trigger] bit64(!a & 0x3_ffffu64, j) == (j < 18 && !bit64(a, j)),
        (!a & 0x7fff_ffff_ffff_ffffu64) >> 63 == 0,
        (!a & 0x3_ffffu64) >> 18 == 0,
{
}

proof fn lemma_zero_bits()
    by (bit_vector)
    ensures
        forall|j: u64| !#[trigger] bit64(0u64, j),
        0u64 >> 63 == 0,
        0u64 >> 18 == 0,
{
}

proof fn lemma_single_bit(s: u64)
    by (bit_vector)
    requires
        s < 63,
    ensures
        forall|j: u64| j < 64 ==> #[trigger] bit64(1u64 << s, j) == (j == s),
        (1u64 << s) >> 63 == 0,
        s < 18 ==> (1u64 << s) >> 18 == 0,
{
}

/// Clearing the lowest set bit `t` of `x` keeps every other bit.
proof fn lemma_clear_lowest(x: u64, t: u64)
    by (bit_vector)
    requires
        t < 64,
        (x >> t) & 1u64 == 1u64,
        x << ((64 - t) as u64) == 0,
    ensures
        forall|j: u64| j < 64 ==> #[trigger] bit64(x & ((x - 1) as u64), j) == (j != t && bit64(x, j)),
        (x & ((x - 1) as u64)) <= x,
        x >> 63 == 0 ==> (x & ((x - 1) as u64)) >> 63 == 0,
        x >> 18 == 0 ==> (x & ((x - 1) as u64)) >> 18 == 0,
{
}

/// Bits above 63 of a word with bit 63 clear, or above 18 of a word with bit 18 and above
/// clear, are clear.
proof fn lemma_high_bits_clear(x: u64)
    by (bit_vector)
    ensures
        x >> 63 == 0 ==> forall|j: u64| 63 <= j ==> !#[trigger] bit64(x, j),
        x >> 18 == 0 ==> forall|j: u64| 18 <= j ==> !#[trigger] bit64(x, j),
        x == 0 ==> forall|j: u64| !#[trigger] bit64(x, j),
{
}

/// Two words with the same bits are equal.
proof fn lemma_bits_ext(x: u64, y: u64)
    requires
        forall|j: u64| j < 64 ==> #[trigger] bit64(x, j) == bit64(y, j),
    ensures
        x == y,
{
    let z = x ^ y;
    if z != 0 {
        axiom_u64_trailing_zeros(z);
        let t = u64_trailing_zeros(z) as u64;
        assert(bit64(z, t));
        lemma_xor_bits(x, y);
        assert(bit64(x, t) == bit64(y, t));
    }
    assert(x ^ y == 0 ==> x == y) by (bit_vector);
}

/// The bitboard holding exactly the squares of `s`, when there is one.
pub open spec fn bb_of(s: Set<int>) -> Bitboard {
    choose|b: Bitboard| b.inv() && b@ == s
}

impl Bitboard {
    /// A bitboard is determined by its squares.
    pub proof fn lemma_view_injective(a: Bitboard, b: Bitboard)
        requires
            a.inv(),
            b.inv(),
            a@ == b@,
        ensures
            a == b,
    {
        lemma_high_bits_clear(a.lo);
        lemma_high_bits_clear(a.hi);
        lemma_high_bits_clear(b.lo);
        lemma_high_bits_clear(b.hi);
        assert forall|j: u64| j < 64 implies #[trigger] bit64(a.lo, j) == bit64(b.lo, j) by {
            if j < 63 {
                let i = j as int;
                assert(a@.contains(i) == a.has(i));
                assert(b@.contains(i) == b.has(i));
                assert(i as u64 == j);
            } else {
                assert(!bit64(a.lo, j));
                assert(!bit64(b.lo, j));
            }
        }
        assert forall|j: u64| j < 64 implies #[trigger] bit64(a.hi, j) == bit64(b.hi, j) by {
            if j < 18 {
                let i = j + 63;
                assert(a@.contains(i) == a.has(i));
                assert(b@.contains(i) == b.has(i));
                assert((i - 63) as u64 == j);
            } else {
                assert(!bit64(a.hi, j));
                assert(!bit64(b.hi, j));
            }
        }
        lemma_bits_ext(a.lo, b.lo);
        lemma_bits_ext(a.hi, b.hi);
    }

    /// A bitboard is the one `bb_of` gives for its squares.
    pub proof fn lemma_bb_of(b: Bitboard)
        requires
            b.inv(),
        ensures
            bb_of(b@) == b,
    {
        let x = bb_of(b@);
        assert(x.inv() && x@ == b@);
        Bitboard::lemma_view_injective(x, b);
    }
}

impl Bitboard {
    /// The set lies on the board and is finite.
    pub proof fn lemma_view_on_board(self)
        ensures
            self@.subset_of(board_set()),
            self@.finite(),
    {
        assert(board_set() =~= set_int_range(0, 81));
        lemma_int_range(0, 81);
        lemma_set_subset_finite(board_set(), self@);
    }

    pub fn empty() -> (r: Self)
        ensures
            r@ == Set::<int>::empty(),
    {
        proof {
            lemma_zero_bits();
        }
        let r = Bitboard { lo: 0, hi: 0 };
        assert(r@ =~= Set::<int>::empty());
        r
    }

    pub fn single(square: Square) -> (r: Self)
        requires
            square.wf(),
        ensures
            r@ == Set::<int>::empty().insert(square.0 as int),
    {
        let i = square.0 as u64;
        proof {
            lemma_zero_bits();
        }
        if i < 63 {
            proof {
                lemma_single_bit(i);
            }
            let r = Bitboard { lo: 1u64 << i, hi: 0 };
            assert(r@ =~= Set::<int>::empty().insert(square.0 as int));
            r
        } else {
            proof {
                lemma_single_bit((i - 63) as u64);
            }
            let r = Bitboard { lo: 0, hi: 1u64 << (i - 63) };
            assert(r@ =~= Set::<int>::empty().insert(square.0 as int));
            r
        }
    }

    pub fn contains(&self, square: Square) -> (r: bool)
        requires
            square.wf(),
        ensures
            r == self@.contains(square.0 as int),
    {
        let i = square.0 as u64;
        if i < 63 {
            (self.lo >> i) & 1 == 1
        } else {
            (self.hi >> (i - 63)) & 1 == 1
        }
    }

    pub fn is_empty(&self) -> (r: bool)
        ensures
            r == (self@ == Set::<int>::empty()),
    {
        proof {
            use_type_invariant(self);
            lemma_high_bits_clear(self.lo);
            lemma_high_bits_clear(self.hi);
            if self.lo != 0 {
                axiom_u64_trailing_zeros(self.lo);
                let j = u64_trailing_zeros(self.lo);
                assert(bit64(self.lo, j as u64));
                assert(self@.contains(j as int));
            } else if self.hi != 0 {
                axiom_u64_trailing_zeros(self.hi);
                let j = u64_trailing_zeros(self.hi);
                assert(bit64(self.hi, j as u64));
                assert(self.has(j + 63));
                assert(self@.contains(j + 63));
            } else {
                assert(self@ =~= Set::<int>::empty());
            }
        }
        self.lo == 0 && self.hi == 0
    }

    /// Intersection.
    pub fn and(self, other: Self) -> (r: Self)
        ensures
            r@ == self@.intersect(other@),
    {
        proof {
            use_type_invariant(self);
            use_type_invariant(other);
            lemma_and_bits(self.lo, other.lo);
            lemma_and_bits(self.hi, other.hi);
        }
        let r = Bitboard { lo: self.lo & other.lo, hi: self.hi & other.hi };
        assert(r@ =~= self@.intersect(other@));
        r
    }

    /// Union.
    pub fn or(self, other: Self) -> (r: Self)
        ensures
            r@ == self@.union(other@),
    {
        proof {
            use_type_invariant(self);
            use_type_invariant(other);
            lemma_or_bits(self.lo, other.lo);
            lemma_or_bits(self.hi, other.hi);
        }
        let r = Bitboard { lo: self.lo | other.lo, hi: self.hi | other.hi };
        assert(r@ =~= self@.union(other@));
        r
    }

    /// Symmetric difference.
    pub fn xor(self, other: Self) -> (r: Self)
        ensures
            r@ == self@.difference(other@).union(other@.difference(self@)),
    {
        proof {
            use_type_invariant(self);
            use_type_invariant(other);
            lemma_xor_bits(self.lo, other.lo);
            lemma_xor_bits(self.hi, other.hi);
        }
        let r = Bitboard { lo: self.lo ^ other.lo, hi: self.hi ^ other.hi };
        assert(r@ =~= self@.difference(other@).union(other@.difference(self@)));
        r
    }

    /// The squares of the board that are not in the set.
    pub fn not(self) -> (r: Self)
        ensures
            r@ == board_set().difference(self@),
    {
        proof {
            lemma_not_bits(self.lo);
            lemma_not_bits(self.hi);
        }
        let r = Bitboard { lo: !self.lo & 0x7fff_ffff_ffff_ffff, hi: !self.hi & 0x3_ffff };
        assert(r@ =~= board_set().difference(self@));
        r
    }

    /// The squares of `self` that are not in `other`.
    pub fn andnot(self, other: Self) -> (r: Self)
        ensures
            r@ == self@.difference(other@),
    {
        let n = other.not();
        let r = self.and(n);
        proof {
            self.lemma_view_on_board();
        }
        assert(r@ =~= self@.difference(other@));
        r
    }

    /// If the set is not empty, removes its lowest square and returns it.
    pub fn pop(&mut self) -> (r: Option<Square>)
        ensures
            old(self)@ == Set::<int>::empty() ==> r is None && final(self)@ == old(self)@,
            old(self)@ != Set::<int>::empty() ==> (r matches Some(sq) && sq.wf() && old(self)@.contains(
                sq.0 as int,
            ) && (forall|j: int| #[trigger] old(self)@.contains(j) ==> sq.0 <= j) && final(self)@
                == old(self)@.remove(sq.0 as int)),
    {
        proof {
            use_type_invariant(&*self);
            lemma_high_bits_clear(self.lo);
            lemma_high_bits_clear(self.hi);
        }
        let ghost old_set = self@;
        if self.lo != 0 {
            let t = self.lo.trailing_zeros();
            proof {
                axiom_u64_trailing_zeros(self.lo);
                assert(self.lo << ((64 - t) as u64) == 0);
                lemma_clear_lowest(self.lo, t as u64);
                assert(bit64(self.lo, t as u64));
                assert(old_set.contains(t as int));
                assert forall|j: int| #[trigger] old_set.contains(j) implies t <= j by {
                    if j < t {
                        assert(!bit64(self.lo, j as u64));
                    }
                }
            }
            let x = self.lo;
            self.lo = x & (x - 1);
            proof {
                assert(self@ =~= old_set.remove(t as int));
            }
            Some(Square(t as i8))
        } else if self.hi != 0 {
            let t = self.hi.trailing_zeros();
            proof {
                axiom_u64_trailing_zeros(self.hi);
                assert(self.hi << ((64 - t) as u64) == 0);
                lemma_clear_lowest(self.hi, t as u64);
                assert(bit64(self.hi, t as u64));
                assert(t < 18);
                assert(self.has(t + 63));
                assert(old_set.contains(t + 63));
                assert forall|j: int| #[trigger] old_set.contains(j) implies t + 63 <= j by {
                    if 63 <= j < t + 63 {
                        assert(!bit64(self.hi, (j - 63) as u64));
                    }
                }
            }
            let x = self.hi;
            self.hi = x & (x - 1);
            proof {
                assert(self@ =~= old_set.remove(t + 63));
            }
            Some(Square((t + 63) as i8))
        } else {
            proof {
                assert(self@ =~= Set::<int>::empty());
            }
            None
        }
    }

    /// The number of squares in the set.
    pub fn count(self) -> (r: u8)
        ensures
            r == self@.len(),
    {
        let mut rest = self;
        let mut n: u8 = 0;
        proof {
            self.lemma_view_on_board();
            lemma_int_range(0, 81);
            assert(board_set() =~= set_int_range(0, 81));
            lemma_len_subset(self@, board_set());
        }
        while !rest.is_empty()
            invariant
                n + rest@.len() == self@.len(),
                self@.len() <= 81,
                rest@.finite(),
            decreases rest@.len(),
        {
            let ghost before = rest@;
            let sq = rest.pop();
            proof {
                rest.lemma_view_on_board();
            }
            n = n + 1;
        }
        n
    }
}


proof fn lemma_shl_bits(x: u64)
    by (bit_vector)
    ensures
        forall|j: u64|
            j < 64 ==> #[trigger] bit64((x << 1u64) & 0x7fbf_dfef_f7fb_fdfeu64, j) == (j % 9 != 0
                && j < 63 && bit64(x, (j - 1) as u64)),
        ((x << 1u64) & 0x7fbf_dfef_f7fb_fdfeu64) >> 63 == 0,
{
}

proof fn lemma_shl_bits_hi(x: u64)
    by (bit_vector)
    requires
        x >> 18 == 0,
    ensures
        forall|j: u64|
            j < 64 ==> #[trigger] bit64((((x as u32) << 1u32) & 0xf7fb_fdfeu32) as u64, j) == (j
                % 9 != 0 && j < 18 && bit64(x, (j - 1) as u64)),
        ((((x as u32) << 1u32) & 0xf7fb_fdfeu32) as u64) >> 18 == 0,
{
}

proof fn lemma_shr_bits(x: u64)
    by (bit_vector)
    requires
        x >> 63 == 0,
    ensures
        forall|j: u64|
            j < 64 ==> #[trigger] bit64((x >> 1u64) & 0x3fdf_eff7_fbfd_feffu64, j) == (j % 9 != 8
                && j < 62 && bit64(x, (j + 1) as u64)),
        ((x >> 1u64) & 0x3fdf_eff7_fbfd_feffu64) >> 63 == 0,
{
}

proof fn lemma_shr_bits_hi(x: u64)
    by (bit_vector)
    requires
        x >> 18 == 0,
    ensures
        forall|j: u64|
            j < 64 ==> #[trigger] bit64((((x as u32) >> 1u32) & 0xfbfd_feffu32) as u64, j) == (j
                % 9 != 8 && j < 17 && bit64(x, (j + 1) as u64)),
        ((((x as u32) >> 1u32) & 0xfbfd_feffu32) as u64) >> 18 == 0,
{
}

proof fn lemma_bit_ne0(x: u64, t: u64)
    by (bit_vector)
    ensures
        ((x >> t) & 1u64 != 0u64) == bit64(x, t),
{
}

proof fn lemma_low_mask(s: u64)
    by (bit_vector)
    requires
        s <= 62,
    ensures
        (1u64 << s) >= 1,
        forall|j: u64| j < 64 ==> #[trigger] bit64(((1u64 << s) - 1) as u64, j) == (j < s),
        (((1u64 << s) - 1) as u64) >> 63 == 0,
        s <= 18 ==> (((1u64 << s) - 1) as u64) >> 18 == 0,
        forall|j: u64|
            j < 64 ==> #[trigger] bit64(0x7fff_ffff_ffff_ffffu64 & !(((1u64 << s) - 1) as u64), j)
                == (s <= j && j < 63),
        (0x7fff_ffff_ffff_ffffu64 & !(((1u64 << s) - 1) as u64)) >> 63 == 0,
        forall|j: u64|
            j < 64 ==> #[trigger] bit64(0x3_ffffu64 & !(((1u64 << s) - 1) as u64), j) == (s <= j
                && j < 18),
        (0x3_ffffu64 & !(((1u64 << s) - 1) as u64)) >> 18 == 0,
        forall|j: u64| j < 64 ==> #[trigger] bit64(0x7fff_ffff_ffff_ffffu64, j) == (j < 63),
        forall|j: u64| j < 64 ==> #[trigger] bit64(0x3_ffffu64, j) == (j < 18),
        0x7fff_ffff_ffff_ffffu64 >> 63 == 0,
        0x3_ffffu64 >> 18 == 0,
{
}

impl Bitboard {
    /// Every square moved one rank down (towards rank 9); squares on rank 9 leave the board.
    pub fn shl(&self) -> (r: Self)
        ensures
            r@ == Set::new(|i: int| 0 <= i < 81 && i % 9 != 0 && self@.contains(i - 1)),
    {
        proof {
            use_type_invariant(self);
            lemma_shl_bits(self.lo);
            lemma_shl_bits_hi(self.hi);
        }
        let r = Bitboard {
            lo: (self.lo << 1) & 0x7fbf_dfef_f7fb_fdfe,
            hi: (((self.hi as u32) << 1) & 0xf7fb_fdfe) as u64,
        };
        proof {
            assert forall|i: int| r@.contains(i) == (0 <= i < 81 && i % 9 != 0 && self@.contains(
                i - 1,
            )) by {
                if 0 <= i < 63 {
                    assert(bit64(r.lo, i as u64) == (i % 9 != 0 && bit64(self.lo, (i - 1) as u64)));
                } else if 63 <= i < 81 {
                    let j = (i - 63) as u64;
                    assert(bit64(r.hi, j) == (j % 9 != 0 && bit64(self.hi, (j - 1) as u64)));
                    if j == 0 {
                        assert(i % 9 == 0);
                    }
                }
            }
            assert(r@ =~= Set::new(|i: int| 0 <= i < 81 && i % 9 != 0 && self@.contains(i - 1)));
        }
        r
    }

    /// Every square moved one rank up (towards rank 1); squares on rank 1 leave the board.
    pub fn shr(&self) -> (r: Self)
        ensures
            r@ == Set::new(|i: int| 0 <= i < 81 && i % 9 != 8 && self@.contains(i + 1)),
    {
        proof {
            use_type_invariant(self);
            lemma_shr_bits(self.lo);
            lemma_shr_bits_hi(self.hi);
            lemma_high_bits_clear(self.lo);
        }
        let r = Bitboard {
            lo: (self.lo >> 1) & 0x3fdf_eff7_fbfd_feff,
            hi: (((self.hi as u32) >> 1) & 0xfbfd_feff) as u64,
        };
        proof {
            assert forall|i: int| r@.contains(i) == (0 <= i < 81 && i % 9 != 8 && self@.contains(
                i + 1,
            )) by {
                if 0 <= i < 63 {
                    assert(bit64(r.lo, i as u64) == (i % 9 != 8 && i < 62 && bit64(
                        self.lo,
                        (i + 1) as u64,
                    )));
                } else if 63 <= i < 81 {
                    let j = (i - 63) as u64;
                    assert(bit64(r.hi, j) == (j % 9 != 8 && j < 17 && bit64(self.hi, (j + 1) as u64)));
                    if j == 17 {
                        assert(i % 9 == 8);
                    }
                }
            }
            assert(r@ =~= Set::new(|i: int| 0 <= i < 81 && i % 9 != 8 && self@.contains(i + 1)));
        }
        r
    }

    /// The squares with index at most `s`.
    fn upto(s: u64) -> (r: Self)
        requires
            s < 81,
        ensures
            r@ == Set::new(|i: int| 0 <= i <= s),
    {
        proof {
            lemma_zero_bits();
        }
        let r = if s < 62 {
            proof {
                lemma_low_mask((s + 1) as u64);
            }
            Bitboard { lo: (1u64 << (s + 1)) - 1, hi: 0 }
        } else if s < 63 {
            proof {
                lemma_low_mask(0);
            }
            Bitboard { lo: 0x7fff_ffff_ffff_ffff, hi: 0 }
        } else {
            proof {
                lemma_low_mask(0);
                lemma_low_mask((s - 62) as u64);
            }
            Bitboard { lo: 0x7fff_ffff_ffff_ffff, hi: (1u64 << (s - 62)) - 1 }
        };
        assert(r@ =~= Set::new(|i: int| 0 <= i <= s));
        r
    }

    /// The squares with index at least `h`.
    fn from_square(h: u64) -> (r: Self)
        requires
            h < 81,
        ensures
            r@ == Set::new(|i: int| h <= i < 81),
    {
        proof {
            lemma_zero_bits();
        }
        let r = if h < 63 {
            proof {
                lemma_low_mask(h);
            }
            Bitboard { lo: 0x7fff_ffff_ffff_ffff & !((1u64 << h) - 1), hi: 0x3_ffff }
        } else {
            proof {
                lemma_low_mask((h - 63) as u64);
            }
            Bitboard { lo: 0, hi: 0x3_ffff & !((1u64 << (h - 63)) - 1) }
        };
        assert(r@ =~= Set::new(|i: int| h <= i < 81));
        r
    }

    /// The highest square of a non-empty set.
    fn last(&self) -> (r: Square)
        requires
            self@ != Set::<int>::empty(),
        ensures
            r.wf(),
            self@.contains(r.0 as int),
            forall|j: int| #[trigger] self@.contains(j) ==> j <= r.0,
    {
        proof {
            use_type_invariant(self);
            lemma_high_bits_clear(self.lo);
            lemma_high_bits_clear(self.hi);
            if self.lo == 0 && self.hi == 0 {
                assert(self@ =~= Set::<int>::empty());
            }
        }
        if self.hi != 0 {
            let z = self.hi.leading_zeros();
            proof {
                axiom_u64_leading_zeros(self.hi);
                reveal(u64_leading_zeros);
                let t = (63 - z) as u64;
                assert((self.hi >> t) & 1u64 != 0u64);
                lemma_bit_ne0(self.hi, t);
                assert(bit64(self.hi, t));
                assert(t < 18);
                assert(self.has(t + 63));
                assert forall|j: int| #[trigger] self@.contains(j) implies j <= t + 63 by {
                    if j > t + 63 {
                        assert(bit64(self.hi, (j - 63) as u64));
                    }
                }
            }
            Square((63 - z + 63) as i8)
        } else {
            let z = self.lo.leading_zeros();
            proof {
                axiom_u64_leading_zeros(self.lo);
                reveal(u64_leading_zeros);
                assert(self.lo != 0);
                let t = (63 - z) as u64;
                assert((self.lo >> t) & 1u64 != 0u64);
                lemma_bit_ne0(self.lo, t);
                assert(bit64(self.lo, t));
                assert(t < 63);
                assert(self.has(t as int));
                assert forall|j: int| #[trigger] self@.contains(j) implies j <= t by {
                    if t < j < 63 {
                        assert(bit64(self.lo, j as u64));
                    }
                }
            }
            Square((63 - z) as i8)
        }
    }

    /// The squares of `self` from the lowest one up to its first square in `occupied`
    /// (included), scanning upwards: towards rank 9, then towards file 9.
    fn sliding_positive(occupied: &Self, mask: &Self) -> (r: Self)
        ensures
            r@ == Set::new(
                |i: int|
                    mask@.contains(i) && forall|j: int|
                        #![trigger occupied@.contains(j)]
                        occupied@.contains(j) && mask@.contains(j) ==> i <= j,
            ),
    {
        let mut m = occupied.and(*mask).or(Bitboard::single(Square(80)));
        let ghost blockers = m@;
        let first = m.pop();
        let s = match first {
            Some(sq) => sq,
            None => Square(80),
        };
        proof {
            assert(blockers.contains(80));
            mask.lemma_view_on_board();
        }
        let r = mask.and(Bitboard::upto(s.0 as u64));
        proof {
            assert forall|i: int| #[trigger] r@.contains(i) == (mask@.contains(i) && forall|j: int|
                #![trigger occupied@.contains(j)]
                occupied@.contains(j) && mask@.contains(j) ==> i <= j) by {
                if mask@.contains(i) && i > s.0 {
                    assert(occupied@.contains(s.0 as int) && mask@.contains(s.0 as int));
                }
                if r@.contains(i) {
                    assert forall|j: int| #![trigger occupied@.contains(j)] occupied@.contains(j)
                        && mask@.contains(j) implies i <= j by {
                        assert(blockers.contains(j));
                    }
                }
            }
            assert(r@ =~= Set::new(
                |i: int|
                    mask@.contains(i) && forall|j: int|
                        #![trigger occupied@.contains(j)]
                        occupied@.contains(j) && mask@.contains(j) ==> i <= j,
            ));
        }
        r
    }

    /// The squares of `self` from the highest one down to its last square in `occupied`
    /// (included), scanning downwards: towards rank 1, then towards file 1.
    fn sliding_negative(occupied: &Self, mask: &Self) -> (r: Self)
        ensures
            r@ == Set::new(
                |i: int|
                    mask@.contains(i) && forall|j: int|
                        #![trigger occupied@.contains(j)]
                        occupied@.contains(j) && mask@.contains(j) ==> j <= i,
            ),
    {
        let m = occupied.and(*mask).or(Bitboard::single(Square(0)));
        let ghost blockers = m@;
        proof {
            assert(blockers.contains(0));
            mask.lemma_view_on_board();
        }
        let h = m.last();
        let r = mask.and(Bitboard::from_square(h.0 as u64));
        proof {
            assert forall|i: int| #[trigger] r@.contains(i) == (mask@.contains(i) && forall|j: int|
                #![trigger occupied@.contains(j)]
                occupied@.contains(j) && mask@.contains(j) ==> j <= i) by {
                if mask@.contains(i) && i < h.0 {
                    assert(occupied@.contains(h.0 as int) && mask@.contains(h.0 as int));
                }
                if r@.contains(i) {
                    assert forall|j: int| #![trigger occupied@.contains(j)] occupied@.contains(j)
                        && mask@.contains(j) implies j <= i by {
                        assert(blockers.contains(j));
                    }
                }
            }
            assert(r@ =~= Set::new(
                |i: int|
                    mask@.contains(i) && forall|j: int|
                        #![trigger occupied@.contains(j)]
                        occupied@.contains(j) && mask@.contains(j) ==> j <= i,
            ));
        }
        r
    }

    /// Slides consecutively towards higher squares (South) along `mask`, stopping at the first
    /// occupied square.
    pub fn sliding_positive_consecutive(&self, mask: &Self) -> (r: Self)
        ensures
            r@ == Set::new(
                |i: int|
                    mask@.contains(i) && forall|j: int|
                        #![trigger self@.contains(j)]
                        self@.contains(j) && mask@.contains(j) ==> i <= j,
            ),
    {
        Bitboard::sliding_positive(self, mask)
    }

    /// Slides consecutively towards lower squares (North) along `mask`, stopping at the last
    /// occupied square.
    pub fn sliding_negative_consecutive(&self, mask: &Self) -> (r: Self)
        ensures
            r@ == Set::new(
                |i: int|
                    mask@.contains(i) && forall|j: int|
                        #![trigger self@.contains(j)]
                        self@.contains(j) && mask@.contains(j) ==> j <= i,
            ),
    {
        Bitboard::sliding_negative(self, mask)
    }

    /// Slides in two directions towards higher squares: further West, or further South on the
    /// same file.
    pub fn sliding_positives(&self, masks: &[Self; 2]) -> (r: Self)
        ensures
            r@ == sliding_up(self@, masks@[0]@).union(sliding_up(self@, masks@[1]@)),
    {
        let a = Bitboard::sliding_positive(self, &masks[0]);
        let b = Bitboard::sliding_positive(self, &masks[1]);
        let r = a.or(b);
        assert(a@ =~= sliding_up(self@, masks@[0]@));
        assert(b@ =~= sliding_up(self@, masks@[1]@));
        r
    }

    /// Slides in two directions towards lower squares: further East, or further North on the
    /// same file.
    pub fn sliding_negatives(&self, masks: &[Self; 2]) -> (r: Self)
        ensures
            r@ == sliding_down(self@, masks@[0]@).union(sliding_down(self@, masks@[1]@)),
    {
        let a = Bitboard::sliding_negative(self, &masks[0]);
        let b = Bitboard::sliding_negative(self, &masks[1]);
        let r = a.or(b);
        assert(a@ =~= sliding_down(self@, masks@[0]@));
        assert(b@ =~= sliding_down(self@, masks@[1]@));
        r
    }
}

/// The squares of `mask` that no square of `occupied ∩ mask` precedes.
pub open spec fn sliding_up(occupied: Set<int>, mask: Set<int>) -> Set<int> {
    Set::new(
        |i: int|
            mask.contains(i) && forall|j: int|
                #![trigger occupied.contains(j)]
                occupied.contains(j) && mask.contains(j) ==> i <= j,
    )
}

/// The squares of `mask` that no square of `occupied ∩ mask` follows.
pub open spec fn sliding_down(occupied: Set<int>, mask: Set<int>) -> Set<int> {
    Set::new(
        |i: int|
            mask.contains(i) && forall|j: int|
                #![trigger occupied.contains(j)]
                occupied.contains(j) && mask.contains(j) ==> j <= i,
    )
}

/// The flag bits of the files of one word are the rank-9 bits of `mask - x`; the result fills
/// each flagged file.
proof fn lemma_vacant_fill(s: u64, m: u64)
    by (bit_vector)
    requires
        m == 0x4020_1008_0402_0100u64 || m == 0x2_0100u64,
    ensures
        forall|j: u64|
            j < 64 ==> #[trigger] bit64(m ^ ((m - ((m & s) >> 8u64)) as u64), j) == ((if m
                == 0x4020_1008_0402_0100u64 {
                j < 63
            } else {
                j < 18
            }) && bit64(s, (9 * (j / 9) + 8) as u64)),
        (m ^ ((m - ((m & s) >> 8u64)) as u64)) >> 63 == 0,
        m == 0x2_0100u64 ==> (m ^ ((m - ((m & s) >> 8u64)) as u64)) >> 18 == 0,
        ((m & s) >> 8u64) <= m,
{
}

proof fn lemma_word_bounds(lo: u64, hi: u64)
    by (bit_vector)
    requires
        lo >> 63 == 0,
        hi >> 18 == 0,
    ensures
        lo < 0x8000_0000_0000_0000u64,
        hi < 0x4_0000u64,
{
}

/// Without borrows between files, a file's flag is set exactly when the file is empty.
proof fn lemma_vacant_lo(x: u64)
    by (bit_vector)
    requires
        x >> 63 == 0,
        ((x >> 0u64) & 511u64) <= 256u64,
        ((x >> 9u64) & 511u64) <= 256u64,
        ((x >> 18u64) & 511u64) <= 256u64,
        ((x >> 27u64) & 511u64) <= 256u64,
        ((x >> 36u64) & 511u64) <= 256u64,
        ((x >> 45u64) & 511u64) <= 256u64,
        ((x >> 54u64) & 511u64) <= 256u64,
    ensures
        bit64(((0xc020_1008_0402_0100u64 - x) as u64), 8u64) == (((x >> 0u64) & 511u64) == 0u64),
        bit64(((0xc020_1008_0402_0100u64 - x) as u64), 17u64) == (((x >> 9u64) & 511u64) == 0u64),
        bit64(((0xc020_1008_0402_0100u64 - x) as u64), 26u64) == (((x >> 18u64) & 511u64) == 0u64),
        bit64(((0xc020_1008_0402_0100u64 - x) as u64), 35u64) == (((x >> 27u64) & 511u64) == 0u64),
        bit64(((0xc020_1008_0402_0100u64 - x) as u64), 44u64) == (((x >> 36u64) & 511u64) == 0u64),
        bit64(((0xc020_1008_0402_0100u64 - x) as u64), 53u64) == (((x >> 45u64) & 511u64) == 0u64),
        bit64(((0xc020_1008_0402_0100u64 - x) as u64), 62u64) == (((x >> 54u64) & 511u64) == 0u64),
{
}

proof fn lemma_vacant_hi(x: u64)
    by (bit_vector)
    requires
        x >> 18 == 0,
        ((x >> 0u64) & 511u64) <= 256u64,
        ((x >> 9u64) & 511u64) <= 256u64,
    ensures
        bit64(((0x6_0100u64 - x) as u64), 8u64) == (((x >> 0u64) & 511u64) == 0u64),
        bit64(((0x6_0100u64 - x) as u64), 17u64) == (((x >> 9u64) & 511u64) == 0u64),
{
}

/// A file segment is zero when its nine bits are clear, and at most 256 when its rank-9 bit
/// comes alone.
proof fn lemma_segments(x: u64)
    by (bit_vector)
    ensures
        ((x >> 0u64) & 511u64 == 0u64) == (!bit64(x, 0u64) && !bit64(x, 1u64) && !bit64(x, 2u64) && !bit64(x, 3u64) && !bit64(x, 4u64) && !bit64(x, 5u64) && !bit64(x, 6u64) && !bit64(x, 7u64) && !bit64(x, 8u64)),
        (((x >> 0u64) & 511u64) <= 256u64) == (bit64(x, 8u64) ==> !bit64(x, 0u64) && !bit64(x, 1u64) && !bit64(x, 2u64) && !bit64(x, 3u64) && !bit64(x, 4u64) && !bit64(x, 5u64) && !bit64(x, 6u64) && !bit64(x, 7u64)),
        ((x >> 9u64) & 511u64 == 0u64) == (!bit64(x, 9u64) && !bit64(x, 10u64) && !bit64(x, 11u64) && !bit64(x, 12u64) && !bit64(x, 13u64) && !bit64(x, 14u64) && !bit64(x, 15u64) && !bit64(x, 16u64) && !bit64(x, 17u64)),
        (((x >> 9u64) & 511u64) <= 256u64) == (bit64(x, 17u64) ==> !bit64(x, 9u64) && !bit64(x, 10u64) && !bit64(x, 11u64) && !bit64(x, 12u64) && !bit64(x, 13u64) && !bit64(x, 14u64) && !bit64(x, 15u64) && !bit64(x, 16u64)),
        ((x >> 18u64) & 511u64 == 0u64) == (!bit64(x, 18u64) && !bit64(x, 19u64) && !bit64(x, 20u64) && !bit64(x, 21u64) && !bit64(x, 22u64) && !bit64(x, 23u64) && !bit64(x, 24u64) && !bit64(x, 25u64) && !bit64(x, 26u64)),
        (((x >> 18u64) & 511u64) <= 256u64) == (bit64(x, 26u64) ==> !bit64(x, 18u64) && !bit64(x, 19u64) && !bit64(x, 20u64) && !bit64(x, 21u64) && !bit64(x, 22u64) && !bit64(x, 23u64) && !bit64(x, 24u64) && !bit64(x, 25u64)),
        ((x >> 27u64) & 511u64 == 0u64) == (!bit64(x, 27u64) && !bit64(x, 28u64) && !bit64(x, 29u64) && !bit64(x, 30u64) && !bit64(x, 31u64) && !bit64(x, 32u64) && !bit64(x, 33u64) && !bit64(x, 34u64) && !bit64(x, 35u64)),
        (((x >> 27u64) & 511u64) <= 256u64) == (bit64(x, 35u64) ==> !bit64(x, 27u64) && !bit64(x, 28u64) && !bit64(x, 29u64) && !bit64(x, 30u64) && !bit64(x, 31u64) && !bit64(x, 32u64) && !bit64(x, 33u64) && !bit64(x, 34u64)),
        ((x >> 36u64) & 511u64 == 0u64) == (!bit64(x, 36u64) && !bit64(x, 37u64) && !bit64(x, 38u64) && !bit64(x, 39u64) && !bit64(x, 40u64) && !bit64(x, 41u64) && !bit64(x, 42u64) && !bit64(x, 43u64) && !bit64(x, 44u64)),
        (((x >> 36u64) & 511u64) <= 256u64) == (bit64(x, 44u64) ==> !bit64(x, 36u64) && !bit64(x, 37u64) && !bit64(x, 38u64) && !bit64(x, 39u64) && !bit64(x, 40u64) && !bit64(x, 41u64) && !bit64(x, 42u64) && !bit64(x, 43u64)),
        ((x >> 45u64) & 511u64 == 0u64) == (!bit64(x, 45u64) && !bit64(x, 46u64) && !bit64(x, 47u64) && !bit64(x, 48u64) && !bit64(x, 49u64) && !bit64(x, 50u64) && !bit64(x, 51u64) && !bit64(x, 52u64) && !bit64(x, 53u64)),
        (((x >> 45u64) & 511u64) <= 256u64) == (bit64(x, 53u64) ==> !bit64(x, 45u64) && !bit64(x, 46u64) && !bit64(x, 47u64) && !bit64(x, 48u64) && !bit64(x, 49u64) && !bit64(x, 50u64) && !bit64(x, 51u64) && !bit64(x, 52u64)),
        ((x >> 54u64) & 511u64 == 0u64) == (!bit64(x, 54u64) && !bit64(x, 55u64) && !bit64(x, 56u64) && !bit64(x, 57u64) && !bit64(x, 58u64) && !bit64(x, 59u64) && !bit64(x, 60u64) && !bit64(x, 61u64) && !bit64(x, 62u64)),
        (((x >> 54u64) & 511u64) <= 256u64) == (bit64(x, 62u64) ==> !bit64(x, 54u64) && !bit64(x, 55u64) && !bit64(x, 56u64) && !bit64(x, 57u64) && !bit64(x, 58u64) && !bit64(x, 59u64) && !bit64(x, 60u64) && !bit64(x, 61u64)),
{
}

/// File `f` holds no square of `s`.
pub open spec fn file_vacant(s: Set<int>, f: int) -> bool {
    forall|r: int| 0 <= r < 9 ==> !#[trigger] s.contains(9 * f + r)
}

/// When file `f` holds its rank-9 square, it holds no other.
pub open spec fn rank9_alone(s: Set<int>, f: int) -> bool {
    s.contains(9 * f + 8) ==> forall|r: int| 0 <= r < 8 ==> !#[trigger] s.contains(9 * f + r)
}

impl Bitboard {
    /// The flag that `vacant_files` computes for file `f`: the rank-9 bit of the file in
    /// `0b1_0000_0000 - (file bits)`, taken over the whole word (a file may borrow from the
    /// next one).
    pub closed spec fn file_flag(self, f: int) -> bool {
        if f < 7 {
            bit64(((0xc020_1008_0402_0100u64 - self.lo) as u64), (9 * f + 8) as u64)
        } else {
            bit64(((0x6_0100u64 - self.hi) as u64), (9 * (f - 7) + 8) as u64)
        }
    }

    /// Every square of the files whose flag is set: when no file holds its rank-9 square with
    /// another square, the files that hold no square of `self`.
    pub fn vacant_files(&self) -> (r: Self)
        ensures
            r@ == Set::new(|i: int| 0 <= i < 81 && self.file_flag(i / 9)),
            (forall|f: int| 0 <= f < 9 ==> #[trigger] rank9_alone(self@, f)) ==> r@ == Set::new(
                |i: int| 0 <= i < 81 && file_vacant(self@, i / 9),
            ),
    {
        proof {
            use_type_invariant(self);
            lemma_word_bounds(self.lo, self.hi);
        }
        let sub_lo = 0xc020_1008_0402_0100u64 - self.lo;
        let sub_hi = 0x6_0100u64 - self.hi;
        proof {
            lemma_vacant_fill(sub_lo, 0x4020_1008_0402_0100u64);
            lemma_vacant_fill(sub_hi, 0x2_0100u64);
        }
        let shr_lo = (0x4020_1008_0402_0100u64 & sub_lo) >> 8;
        let shr_hi = (0x2_0100u64 & sub_hi) >> 8;
        let r = Bitboard {
            lo: 0x4020_1008_0402_0100u64 ^ (0x4020_1008_0402_0100u64 - shr_lo),
            hi: 0x2_0100u64 ^ (0x2_0100u64 - shr_hi),
        };
        proof {
            assert forall|i: int| #[trigger] r@.contains(i) == (0 <= i < 81 && self.file_flag(i / 9)) by {
                if 0 <= i < 63 {
                    assert(bit64(r.lo, i as u64) == bit64(sub_lo, (9 * (i / 9) + 8) as u64));
                } else if 63 <= i < 81 {
                    let j = (i - 63) as u64;
                    assert(bit64(r.hi, j) == bit64(sub_hi, (9 * (j / 9) + 8) as u64));
                    assert(i / 9 == j / 9 + 7);
                }
            }
            assert(r@ =~= Set::new(|i: int| 0 <= i < 81 && self.file_flag(i / 9)));
            if forall|f: int| 0 <= f < 9 ==> #[trigger] rank9_alone(self@, f) {
                self.lemma_flags_when_rank9_alone();
                assert(r@ =~= Set::new(|i: int| 0 <= i < 81 && file_vacant(self@, i / 9)));
            }
        }
        r
    }

    /// The word holding file `f`, and the file's position in it.
    closed spec fn word(self, f: int) -> u64 {
        if f < 7 {
            self.lo
        } else {
            self.hi
        }
    }

    proof fn lemma_file_bits(self, f: int)
        requires
            0 <= f < 9,
        ensures
            forall|r: int|
                0 <= r < 9 ==> (#[trigger] self@.contains(9 * f + r) == bit64(
                    self.word(f),
                    (9 * (if f < 7 {
                        f
                    } else {
                        f - 7
                    }) + r) as u64,
                )),
    {
        assert forall|r: int| 0 <= r < 9 implies (#[trigger] self@.contains(9 * f + r) == bit64(
            self.word(f),
            (9 * (if f < 7 {
                f
            } else {
                f - 7
            }) + r) as u64,
        )) by {
            assert(self@.contains(9 * f + r) == self.has(9 * f + r));
        }
    }

    #[verifier::spinoff_prover]
    #[verifier::rlimit(60)]
    proof fn lemma_flags_when_rank9_alone(self)
        requires
            self.inv(),
            forall|f: int| 0 <= f < 9 ==> #[trigger] rank9_alone(self@, f),
        ensures
            forall|f: int| 0 <= f < 9 ==> (#[trigger] self.file_flag(f) == file_vacant(self@, f)),
    {
        lemma_segments(self.lo);
        lemma_segments(self.hi);
        assert forall|f: int| 0 <= f < 9 implies ((#[trigger] self.word(f) >> ((9 * (if f < 7 {
            f
        } else {
            f - 7
        })) as u64)) & 511u64) <= 256u64 && (((self.word(f) >> ((9 * (if f < 7 {
            f
        } else {
            f - 7
        })) as u64)) & 511u64 == 0) == file_vacant(self@, f)) by {
            self.lemma_file_bits(f);
            let w = self.word(f);
            let k = if f < 7 {
                f
            } else {
                f - 7
            };
            assert(rank9_alone(self@, f));
            assert(self@.contains(9 * f + 8) == bit64(w, (9 * k + 8) as u64));
            assert(self@.contains(9 * f + 0) == bit64(w, (9 * k + 0) as u64));
            assert(self@.contains(9 * f + 1) == bit64(w, (9 * k + 1) as u64));
            assert(self@.contains(9 * f + 2) == bit64(w, (9 * k + 2) as u64));
            assert(self@.contains(9 * f + 3) == bit64(w, (9 * k + 3) as u64));
            assert(self@.contains(9 * f + 4) == bit64(w, (9 * k + 4) as u64));
            assert(self@.contains(9 * f + 5) == bit64(w, (9 * k + 5) as u64));
            assert(self@.contains(9 * f + 6) == bit64(w, (9 * k + 6) as u64));
            assert(self@.contains(9 * f + 7) == bit64(w, (9 * k + 7) as u64));
        }
        assert(self.word(0) == self.lo && self.word(1) == self.lo && self.word(2) == self.lo
            && self.word(3) == self.lo && self.word(4) == self.lo && self.word(5) == self.lo
            && self.word(6) == self.lo && self.word(7) == self.hi && self.word(8) == self.hi);
        lemma_vacant_lo(self.lo);
        lemma_vacant_hi(self.hi);
        assert forall|f: int| 0 <= f < 9 implies (#[trigger] self.file_flag(f) == file_vacant(
            self@,
            f,
        )) by {
            assert(self.word(f) == self.word(f));
            if f == 0 {
            } else if f == 1 {
            } else if f == 2 {
            } else if f == 3 {
            } else if f == 4 {
            } else if f == 5 {
            } else if f == 6 {
            } else if f == 7 {
            } else {
            }
        }
    }
}

impl Bitboard {
    /// The two words of the set: squares 0 to 62 in the first, squares 63 to 80 in the
    /// second.
    pub fn values(&self) -> (r: (u64, u64))
        ensures
            r == (self.lo_word(), self.hi_word()),
            forall|i: int| 0 <= i < 63 ==> (#[trigger] self@.contains(i)) == bit64(r.0, i as u64),
            forall|i: int|
                63 <= i < 81 ==> (#[trigger] self@.contains(i)) == bit64(r.1, (i - 63) as u64),
            r.0 >> 63 == 0,
            r.1 >> 18 == 0,
    {
        proof {
            use_type_invariant(self);
        }
        (self.lo, self.hi)
    }
}

pub proof fn lemma_and_minus_one(x: u64)
    by (bit_vector)
    requires
        x != 0,
    ensures
        (x & ((x - 1) as u64)) < x,
{
}

/// The number of set bits of `x`, clearing the lowest set bit at each step.
pub open spec fn popcnt(x: u64) -> nat
    decreases x,
{
    if x == 0 {
        0
    } else {
        proof {
            lemma_and_minus_one(x);
        }
        1 + popcnt(x & ((x - 1) as u64))
    }
}

/// The positions `o + j` of the set bits `j` of `x`.
pub open spec fn bitset_at(x: u64, o: int) -> Set<int> {
    Set::new(|i: int| o <= i < o + 64 && bit64(x, (i - o) as u64))
}

/// A word has as many set bits as its bit set has elements.
pub proof fn lemma_popcnt_len(x: u64, o: int)
    ensures
        bitset_at(x, o).finite(),
        bitset_at(x, o).len() == popcnt(x),
    decreases x,
{
    if x == 0 {
        lemma_zero_bits();
        assert(bitset_at(x, o) =~= Set::<int>::empty());
    } else {
        axiom_u64_trailing_zeros(x);
        let t = u64_trailing_zeros(x) as u64;
        assert(x << ((64 - t) as u64) == 0);
        lemma_clear_lowest(x, t);
        lemma_and_minus_one(x);
        let y = x & ((x - 1) as u64);
        lemma_popcnt_len(y, o);
        assert(bit64(x, t));
        assert(bitset_at(y, o) =~= bitset_at(x, o).remove(o + t));
        assert(bitset_at(x, o) =~= bitset_at(y, o).insert(o + t));
    }
}

impl Bitboard {
    pub closed spec fn lo_word(self) -> u64 {
        self.lo
    }

    pub closed spec fn hi_word(self) -> u64 {
        self.hi
    }

    /// Both words or-ed together.
    pub open spec fn folded(self) -> u64 {
        self.lo_word() | self.hi_word()
    }

    /// Folding the two words together loses no count: it has at most as many bits as the
    /// set has squares.
    pub proof fn lemma_folded_popcnt(self)
        requires
            self.inv(),
        ensures
            popcnt(self.folded()) <= self@.len(),
            self@.finite(),
    {
        lemma_popcnt_len(self.lo | self.hi, 0);
        lemma_popcnt_len(self.lo, 0);
        lemma_popcnt_len(self.hi, 0);
        lemma_popcnt_len(self.hi, 63);
        lemma_or_bits(self.lo, self.hi);
        lemma_high_bits_clear(self.lo);
        lemma_high_bits_clear(self.hi);
        assert(bitset_at(self.lo | self.hi, 0) =~= bitset_at(self.lo, 0).union(bitset_at(self.hi, 0)));
        lemma_len_union(bitset_at(self.lo, 0), bitset_at(self.hi, 0));
        assert(self@ =~= bitset_at(self.lo, 0).union(bitset_at(self.hi, 63)));
        lemma_set_disjoint_lens(bitset_at(self.lo, 0), bitset_at(self.hi, 63));
        assert(bitset_at(self.lo, 0).disjoint(bitset_at(self.hi, 63)));
    }

    /// The empty set has both words zero.
    pub proof fn lemma_empty_words(self)
        requires
            self.inv(),
            self@ == Set::<int>::empty(),
        ensures
            self.lo_word() == 0,
            self.hi_word() == 0,
    {
        lemma_high_bits_clear(self.lo);
        lemma_high_bits_clear(self.hi);
        if self.lo != 0 {
            axiom_u64_trailing_zeros(self.lo);
            let t = u64_trailing_zeros(self.lo) as u64;
            assert(bit64(self.lo, t));
            assert(self.has(t as int));
            assert(self@.contains(t as int));
        }
        if self.hi != 0 {
            axiom_u64_trailing_zeros(self.hi);
            let t = u64_trailing_zeros(self.hi) as u64;
            assert(bit64(self.hi, t));
            assert(self.has(t + 63));
            assert(self@.contains(t + 63));
        }
    }

    /// A subset of `mask` whose folded words share no bit with those of `mask` is empty.
    pub proof fn lemma_folded_empty(self, mask: Bitboard)
        requires
            self.inv(),
            mask.inv(),
            self@.subset_of(mask@),
            self.folded() & mask.folded() == 0,
        ensures
            self@ == Set::<int>::empty(),
    {
        lemma_high_bits_clear(self.lo);
        lemma_high_bits_clear(self.hi);
        lemma_high_bits_clear(mask.lo);
        lemma_high_bits_clear(mask.hi);
        assert forall|j: u64| j < 64 implies !bit64(self.lo, j) && !bit64(self.hi, j) by {
            if bit64(self.lo, j) {
                assert(self@.contains(j as int));
                assert(bit64(mask.lo, j));
            }
            if bit64(self.hi, j) {
                assert(j < 18);
                assert(self@.contains(j + 63));
                assert(bit64(mask.hi, j));
            }
            let (a, b, c, e) = (self.lo, self.hi, mask.lo, mask.hi);
            assert(bit64(a, j) && bit64(c, j) ==> bit64((a | b) & (c | e), j)) by (bit_vector);
            assert(bit64(b, j) && bit64(e, j) ==> bit64((a | b) & (c | e), j)) by (bit_vector);
            assert(!bit64(0u64, j)) by (bit_vector);
        }
        assert(self@ =~= Set::<int>::empty());
    }
}

proof fn lemma_bit_pair(a: u64, b: u64, t: u64)
    by (bit_vector)
    ensures
        bit64(a & !b, t) ==> bit64(a, t) && !bit64(b, t),
        bit64(a & b, t) ==> bit64(a, t) && bit64(b, t),
{
}

impl Bitboard {
    /// The squares of `mask` whose bit is set in the word `w`, read at the square's position in
    /// its own word.
    pub fn masked_word(w: u64, mask: &Bitboard) -> (r: Bitboard)
        ensures
            r == word_masked(*mask, w),
    {
        proof {
            use_type_invariant(mask);
            lemma_and_bits(mask.lo, w);
            lemma_and_bits(mask.hi, w);
        }
        Bitboard { lo: mask.lo & w, hi: mask.hi & w }
    }

    /// The words of a subset have no bit outside those of the superset.
    pub proof fn lemma_subset_words(a: Bitboard, b: Bitboard)
        requires
            a.inv(),
            b.inv(),
            a@.subset_of(b@),
        ensures
            a.lo_word() & !b.lo_word() == 0,
            a.hi_word() & !b.hi_word() == 0,
    {
        lemma_high_bits_clear(a.lo);
        lemma_high_bits_clear(a.hi);
        let x = a.lo & !b.lo;
        if x != 0 {
            axiom_u64_trailing_zeros(x);
            let t = u64_trailing_zeros(x) as u64;
            assert(bit64(x, t));
            lemma_bit_pair(a.lo, b.lo, t);
            assert(a.has(t as int));
            assert(a@.contains(t as int));
        }
        let y = a.hi & !b.hi;
        if y != 0 {
            axiom_u64_trailing_zeros(y);
            let t = u64_trailing_zeros(y) as u64;
            assert(bit64(y, t));
            lemma_bit_pair(a.hi, b.hi, t);
            assert(t < 18);
            assert(a.has(t + 63));
            assert(a@.contains(t + 63));
        }
    }

    /// The words of `b` have no bit in common when no square `j` and square `j + 63` are both in
    /// it.
    pub proof fn lemma_words_disjoint(b: Bitboard)
        requires
            b.inv(),
            forall|j: int| 0 <= j < 18 ==> !(#[trigger] b@.contains(j) && b@.contains(j + 63)),
        ensures
            b.lo_word() & b.hi_word() == 0,
    {
        lemma_high_bits_clear(b.hi);
        let x = b.lo & b.hi;
        if x != 0 {
            axiom_u64_trailing_zeros(x);
            let t = u64_trailing_zeros(x) as u64;
            assert(bit64(x, t));
            lemma_bit_pair(b.lo, b.hi, t);
            assert(t < 18);
            assert(b.has(t as int));
            assert(b.has(t + 63));
            assert(b@.contains(t as int) && b@.contains(t + 63));
        }
    }
}

/// The bitboard of the squares of `mask` whose bit is set in the word `w`, read at the
/// square's position in its own word.
pub closed spec fn word_masked(mask: Bitboard, w: u64) -> Bitboard {
    Bitboard { lo: mask.lo & w, hi: mask.hi & w }
}

proof fn lemma_fold_bits(xl: u64, xh: u64, ml: u64, mh: u64)
    by (bit_vector)
    requires
        xl & !ml == 0,
        xh & !mh == 0,
        ml & mh == 0,
    ensures
        (xl | xh) & !(ml | mh) == 0,
        ml & (xl | xh) == xl,
        mh & (xl | xh) == xh,
{
}

impl Bitboard {
    /// Folding a subset of `mask` into one word and reading it back through `mask` gives the
    /// subset, when the two words of `mask` share no bit.
    pub proof fn lemma_fold_unfold(x: Bitboard, mask: Bitboard)
        requires
            x.inv(),
            mask.inv(),
            x@.subset_of(mask@),
            mask.lo_word() & mask.hi_word() == 0,
        ensures
            x.folded() & !mask.folded() == 0,
            word_masked(mask, x.folded()) == x,
    {
        Bitboard::lemma_subset_words(x, mask);
        lemma_fold_bits(x.lo, x.hi, mask.lo, mask.hi);
    }

    /// Reading the zero word through a mask gives no square.
    pub proof fn lemma_word_masked_zero(mask: Bitboard)
        ensures
            word_masked(mask, 0)@ == Set::<int>::empty(),
    {
        lemma_and_bits(mask.lo, 0);
        lemma_and_bits(mask.hi, 0);
        lemma_zero_bits();
        assert(word_masked(mask, 0)@ =~= Set::<int>::empty());
    }

    /// The squares common to two bitboards make a bitboard.
    pub proof fn lemma_intersect_bb(a: Bitboard, b: Bitboard)
        requires
            a.inv(),
            b.inv(),
        ensures
            bb_of(a@.intersect(b@)).inv(),
            bb_of(a@.intersect(b@))@ == a@.intersect(b@),
    {
        let c = Bitboard { lo: a.lo & b.lo, hi: a.hi & b.hi };
        lemma_and_bits(a.lo, b.lo);
        lemma_and_bits(a.hi, b.hi);
        assert(c.inv());
        assert(c@ =~= a@.intersect(b@));
    }

    /// A word read through a mask gives a bitboard.
    pub proof fn lemma_word_masked_inv(mask: Bitboard, w: u64)
        requires
            mask.inv(),
        ensures
            word_masked(mask, w).inv(),
            word_masked(mask, w)@.subset_of(mask@),
    {
        lemma_and_bits(mask.lo, w);
        lemma_and_bits(mask.hi, w);
    }
}

} // verus!
