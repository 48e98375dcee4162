use crate::bitboard::{bb_of, bit64, lemma_and_minus_one, popcnt, word_masked, Bitboard};
use crate::color::Color;
use crate::piece::PieceType;
use crate::square::{file_of, rank_of, shifted, Square};
use bitintr::Pext;
use vstd::arithmetic::power2::*;
use vstd::bits::*;
use vstd::pervasive::VecAdditionalExecFns;
use vstd::prelude::*;
use vstd::set_lib::*;

verus! {

/// A step on the board: `file` towards file 9 (West) when positive, `rank` towards rank 9
/// (South) when positive.
#[derive(Clone, Copy, Debug, PartialEq, Eq, Structural)]
pub struct Delta {
    pub file: i8,
    pub rank: i8,
}

impl Delta {
    /// A step of at most two files and two ranks, not standing still.
    pub open spec fn small(self) -> bool {
        -2 <= self.file <= 2 && -2 <= self.rank <= 2 && (self.file != 0 || self.rank != 0)
    }
}

pub open spec fn d(file: int, rank: int) -> Delta {
    Delta { file: file as i8, rank: rank as i8 }
}

/// The square `n` steps of `delta` away from square `sq`, if it is on the board.
pub open spec fn line_square(sq: int, delta: Delta, n: int) -> Option<int> {
    shifted(sq, n * delta.file, n * delta.rank)
}

/// The squares one step of `deltas` away from `sq`.
pub open spec fn step_attacks(sq: int, deltas: Seq<Delta>) -> Set<int> {
    Set::new(
        |t: int|
            exists|k: int|
                0 <= k < deltas.len() && #[trigger] shifted(sq, deltas[k].file as int, deltas[k].rank as int)
                    == Some(t),
    )
}

/// Whether `t` is reached from `sq` moving along `delta` over empty squares: it is some
/// square of the line, and no square of the line before it is occupied.
pub open spec fn in_ray(sq: int, delta: Delta, occupied: Set<int>, t: int) -> bool {
    exists|n: int|
        #![trigger line_square(sq, delta, n)]
        1 <= n && line_square(sq, delta, n) == Some(t) && forall|m: int|
            #![trigger line_square(sq, delta, m)]
            1 <= m < n ==> (line_square(sq, delta, m) matches Some(u) && !occupied.contains(u))
}

/// The squares a sliding piece on `sq` reaches along any of `deltas`, each ray stopping at
/// the first occupied square (included).
pub open spec fn ray_attacks(sq: int, deltas: Seq<Delta>, occupied: Set<int>) -> Set<int> {
    Set::new(
        |t: int| exists|k: int| 0 <= k < deltas.len() && #[trigger] in_ray(sq, deltas[k], occupied, t),
    )
}

/// The coordinates of square `f * 9 + r`.
pub proof fn lemma_coords(f: int, r: int)
    requires
        0 <= r < 9,
    ensures
        file_of(f * 9 + r) == f,
        rank_of(f * 9 + r) == r,
{
    assert((f * 9 + r) / 9 == f && (f * 9 + r) % 9 == r) by (nonlinear_arith)
        requires
            0 <= r < 9,
    ;
}

/// A square is determined by its coordinates.
pub proof fn lemma_square_coords(i: int)
    requires
        0 <= i < 81,
    ensures
        0 <= file_of(i) < 9,
        0 <= rank_of(i) < 9,
        i == file_of(i) * 9 + rank_of(i),
{
}

/// One more step along a line.
pub proof fn lemma_line_next(sq: int, delta: Delta, n: int, u: int)
    requires
        0 <= sq < 81,
        line_square(sq, delta, n) == Some(u),
    ensures
        0 <= u < 81,
        line_square(sq, delta, n + 1) == shifted(u, delta.file as int, delta.rank as int),
{
    let f = file_of(sq) + n * delta.file;
    let r = rank_of(sq) + n * delta.rank;
    lemma_coords(f, r);
    assert((n + 1) * delta.file == n * delta.file + delta.file) by (nonlinear_arith);
    assert((n + 1) * delta.rank == n * delta.rank + delta.rank) by (nonlinear_arith);
}

/// The first step along a line.
pub proof fn lemma_line_one(sq: int, delta: Delta)
    ensures
        line_square(sq, delta, 1) == shifted(sq, delta.file as int, delta.rank as int),
{
}

/// A line that has left the board does not come back.
pub proof fn lemma_line_gone(sq: int, delta: Delta, n: int, m: int)
    requires
        0 <= sq < 81,
        1 <= n <= m,
        delta.small(),
        line_square(sq, delta, n) is None,
    ensures
        line_square(sq, delta, m) is None,
{
    let f0 = file_of(sq);
    let r0 = rank_of(sq);
    let df = delta.file as int;
    let dr = delta.rank as int;
    assert(!(0 <= f0 + n * df < 9 && 0 <= r0 + n * dr < 9));
    if !(0 <= f0 + n * df < 9) {
        if f0 + n * df < 0 {
            assert(df < 0) by (nonlinear_arith)
                requires
                    f0 + n * df < 0,
                    0 <= f0 < 9,
                    1 <= n,
            {
                if df >= 0 {
                    assert(n * df >= 0) by (nonlinear_arith)
                        requires
                            n >= 1,
                            df >= 0,
                    ;
                }
            }
            assert(f0 + m * df <= f0 + n * df) by (nonlinear_arith)
                requires
                    df < 0,
                    n <= m,
            ;
        } else {
            assert(df > 0) by (nonlinear_arith)
                requires
                    f0 + n * df >= 9,
                    0 <= f0 < 9,
                    1 <= n,
            {
                if df <= 0 {
                    assert(n * df <= 0) by (nonlinear_arith)
                        requires
                            n >= 1,
                            df <= 0,
                    ;
                }
            }
            assert(f0 + m * df >= f0 + n * df) by (nonlinear_arith)
                requires
                    df > 0,
                    n <= m,
            ;
        }
    } else {
        if r0 + n * dr < 0 {
            assert(dr < 0) by (nonlinear_arith)
                requires
                    r0 + n * dr < 0,
                    0 <= r0 < 9,
                    1 <= n,
            {
                if dr >= 0 {
                    assert(n * dr >= 0) by (nonlinear_arith)
                        requires
                            n >= 1,
                            dr >= 0,
                    ;
                }
            }
            assert(r0 + m * dr <= r0 + n * dr) by (nonlinear_arith)
                requires
                    dr < 0,
                    n <= m,
            ;
        } else {
            assert(dr > 0) by (nonlinear_arith)
                requires
                    r0 + n * dr >= 9,
                    0 <= r0 < 9,
                    1 <= n,
            {
                if dr <= 0 {
                    assert(n * dr <= 0) by (nonlinear_arith)
                        requires
                            n >= 1,
                            dr <= 0,
                    ;
                }
            }
            assert(r0 + m * dr >= r0 + n * dr) by (nonlinear_arith)
                requires
                    dr > 0,
                    n <= m,
            ;
        }
    }
}

/// A line leaves the board after at most eight steps.
pub proof fn lemma_line_short(sq: int, delta: Delta)
    requires
        0 <= sq < 81,
        delta.small(),
    ensures
        line_square(sq, delta, 9) is None,
{
    let f0 = file_of(sq);
    let r0 = rank_of(sq);
    let df = delta.file as int;
    let dr = delta.rank as int;
    if df != 0 {
        assert(!(0 <= f0 + 9 * df < 9)) by (nonlinear_arith)
            requires
                0 <= f0 < 9,
                df != 0,
        ;
    } else {
        assert(!(0 <= r0 + 9 * dr < 9)) by (nonlinear_arith)
            requires
                0 <= r0 < 9,
                dr != 0,
        ;
    }
}

/// Adds to `bb` the squares that a piece on `sq` reaches along `delta` over `occupied`.
fn sliding_ray(sq: Square, occupied: &Bitboard, delta: Delta, bb: &mut Bitboard)
    requires
        sq.wf(),
        delta.small(),
    ensures
        final(bb)@ == old(bb)@.union(Set::new(|t: int| in_ray(sq.0 as int, delta, occupied@, t))),
{
    let ghost s = sq.0 as int;
    let ghost start = bb@;
    proof {
        lemma_line_one(s, delta);
    }
    let mut curr = sq.checked_shift(delta.file, delta.rank);
    let ghost mut n: int = 1;
    let mut stopped = false;
    while !stopped && curr.is_some()
        invariant
            0 <= s < 81,
            delta.small(),
            1 <= n <= 9,
            curr matches Some(c) ==> c.wf(),
            !stopped ==> line_square(s, delta, n) == (match curr { Some(c) => Some(c.0 as int), None => None::<int> }),
            forall|m: int|
                #![trigger line_square(s, delta, m)]
                1 <= m < n ==> (line_square(s, delta, m) matches Some(u) && bb@.contains(u)),
            !stopped ==> forall|m: int|
                #![trigger line_square(s, delta, m)]
                1 <= m < n ==> (line_square(s, delta, m) matches Some(u) && !occupied@.contains(u)),
            stopped ==> forall|m: int|
                #![trigger line_square(s, delta, m)]
                1 <= m < n - 1 ==> (line_square(s, delta, m) matches Some(u) && !occupied@.contains(u)),
            stopped ==> n >= 2 && (line_square(s, delta, n - 1) matches Some(u) && occupied@.contains(u)),
            bb@ == start.union(Set::new(|t: int| exists|m: int| #![trigger line_square(s, delta, m)] 1 <= m < n && line_square(s, delta, m) == Some(t))),
        decreases 9 - n,
    {
        let to = curr.unwrap();
        proof {
            if n == 9 {
                lemma_line_short(s, delta);
            }
        }
        let ghost before = bb@;
        let single = Bitboard::single(to);
        *bb = bb.or(single);
        proof {
            lemma_line_next(s, delta, n, to.0 as int);
            n = n + 1;
            assert(bb@ =~= start.union(Set::new(|t: int| exists|m: int| #![trigger line_square(s, delta, m)] 1 <= m < n && line_square(s, delta, m) == Some(t)))) by {
                assert forall|t: int| #[trigger] bb@.contains(t) == start.union(Set::new(|t: int| exists|m: int| #![trigger line_square(s, delta, m)] 1 <= m < n && line_square(s, delta, m) == Some(t))).contains(t) by {
                    if t == to.0 {
                        assert(line_square(s, delta, n - 1) == Some(t));
                    }
                }
            }
        }
        if occupied.contains(to) {
            stopped = true;
        } else {
            curr = to.checked_shift(delta.file, delta.rank);
        }
    }
    proof {
        assert(bb@ =~= start.union(Set::new(|t: int| in_ray(s, delta, occupied@, t)))) by {
            assert forall|t: int| #[trigger] bb@.contains(t) == start.union(Set::new(|t: int| in_ray(s, delta, occupied@, t))).contains(t) by {
                if in_ray(s, delta, occupied@, t) && !start.contains(t) {
                    let k = choose|k: int| #![trigger line_square(s, delta, k)] 1 <= k && line_square(s, delta, k) == Some(t) && forall|m: int|
                        #![trigger line_square(s, delta, m)]
                        1 <= m < k ==> (line_square(s, delta, m) matches Some(u) && !occupied@.contains(u));
                    if k >= n {
                        if stopped {
                            assert(line_square(s, delta, n - 1) matches Some(u) && !occupied@.contains(u));
                        } else {
                            lemma_line_gone(s, delta, n, k);
                        }
                    }
                }
                if bb@.contains(t) && !start.contains(t) {
                    let k = choose|k: int| #![trigger line_square(s, delta, k)] 1 <= k < n && line_square(s, delta, k) == Some(t);
                    assert(in_ray(s, delta, occupied@, t));
                }
            }
        }
    }
}

/// All deltas are small steps.
pub open spec fn all_small(deltas: Seq<Delta>) -> bool {
    forall|k: int| 0 <= k < deltas.len() ==> #[trigger] deltas[k].small()
}

/// The squares reached from `sq` along `deltas` over `occupied`, each ray stopping at the
/// first occupied square.
pub fn sliding_attacks(sq: Square, occupied: &Bitboard, deltas: &Vec<Delta>) -> (r: Bitboard)
    requires
        sq.wf(),
        all_small(deltas@),
    ensures
        r@ == ray_attacks(sq.0 as int, deltas@, occupied@),
{
    let mut bb = Bitboard::empty();
    let mut k: usize = 0;
    while k < deltas.len()
        invariant
            sq.wf(),
            all_small(deltas@),
            k <= deltas.len(),
            bb@ == Set::new(
                |t: int|
                    exists|j: int| 0 <= j < k && #[trigger] in_ray(sq.0 as int, deltas@[j], occupied@, t),
            ),
        decreases deltas.len() - k,
    {
        let ghost before = bb@;
        sliding_ray(sq, occupied, deltas[k], &mut bb);
        k = k + 1;
        proof {
            assert(bb@ =~= Set::new(
                |t: int|
                    exists|j: int| 0 <= j < k && #[trigger] in_ray(sq.0 as int, deltas@[j], occupied@, t),
            )) by {
                assert forall|t: int| #[trigger] bb@.contains(t) == (exists|j: int| 0 <= j < k && #[trigger] in_ray(sq.0 as int, deltas@[j], occupied@, t)) by {
                    if exists|j: int| 0 <= j < k && #[trigger] in_ray(sq.0 as int, deltas@[j], occupied@, t) {
                        let j = choose|j: int| 0 <= j < k && #[trigger] in_ray(sq.0 as int, deltas@[j], occupied@, t);
                        if j < k - 1 {
                            assert(before.contains(t));
                        }
                    }
                    if bb@.contains(t) && !before.contains(t) {
                        assert(in_ray(sq.0 as int, deltas@[k - 1], occupied@, t));
                    }
                }
            }
        }
    }
    assert(bb@ =~= ray_attacks(sq.0 as int, deltas@, occupied@));
    bb
}

/// Adds to `bb` the squares one step of `deltas` away from `sq`.
fn step_bitboard(sq: Square, deltas: &Vec<Delta>) -> (r: Bitboard)
    requires
        sq.wf(),
        all_small(deltas@),
    ensures
        r@ == step_attacks(sq.0 as int, deltas@),
{
    let mut bb = Bitboard::empty();
    let mut k: usize = 0;
    while k < deltas.len()
        invariant
            sq.wf(),
            all_small(deltas@),
            k <= deltas.len(),
            bb@ == Set::new(
                |t: int|
                    exists|j: int|
                        0 <= j < k && #[trigger] shifted(sq.0 as int, deltas@[j].file as int, deltas@[j].rank as int)
                            == Some(t),
            ),
        decreases deltas.len() - k,
    {
        let delta = deltas[k];
        let ghost before = bb@;
        assert(delta.small());
        if let Some(to) = sq.checked_shift(delta.file, delta.rank) {
            bb = bb.or(Bitboard::single(to));
        }
        k = k + 1;
        proof {
            assert(bb@ =~= Set::new(
                |t: int|
                    exists|j: int|
                        0 <= j < k && #[trigger] shifted(sq.0 as int, deltas@[j].file as int, deltas@[j].rank as int)
                            == Some(t),
            )) by {
                assert forall|t: int| #[trigger] bb@.contains(t) == (exists|j: int|
                        0 <= j < k && #[trigger] shifted(sq.0 as int, deltas@[j].file as int, deltas@[j].rank as int)
                            == Some(t)) by {
                    if exists|j: int|
                        0 <= j < k && #[trigger] shifted(sq.0 as int, deltas@[j].file as int, deltas@[j].rank as int)
                            == Some(t) {
                        let j = choose|j: int|
                        0 <= j < k && #[trigger] shifted(sq.0 as int, deltas@[j].file as int, deltas@[j].rank as int)
                            == Some(t);
                        if j < k - 1 {
                            assert(before.contains(t));
                        }
                    }
                    if bb@.contains(t) && !before.contains(t) {
                        assert(shifted(sq.0 as int, deltas@[k - 1].file as int, deltas@[k - 1].rank as int) == Some(t));
                    }
                }
            }
        }
    }
    assert(bb@ =~= step_attacks(sq.0 as int, deltas@));
    bb
}

/// The one-step attacks of a piece kind, for each square and color.
pub struct PieceAttackTable {
    /// Entry `2 * square + color`.
    table: Vec<Bitboard>,
    deltas: Ghost<(Seq<Delta>, Seq<Delta>)>,
}

impl PieceAttackTable {
    /// The deltas of the piece kind for color `c`.
    pub closed spec fn deltas_for(self, c: Color) -> Seq<Delta> {
        match c {
            Color::Black => self.deltas@.0,
            Color::White => self.deltas@.1,
        }
    }

    /// Every entry holds the step attacks of its square and color.
    pub closed spec fn wf(self) -> bool {
        &&& self.table@.len() == 162
        &&& forall|i: int|
            0 <= i < 162 ==> (#[trigger] self.table@[i])@ == step_attacks(
                i / 2,
                if i % 2 == 0 {
                    self.deltas@.0
                } else {
                    self.deltas@.1
                },
            )
    }

    fn new(black: &Vec<Delta>, white: &Vec<Delta>) -> (r: Self)
        requires
            all_small(black@),
            all_small(white@),
        ensures
            r.wf(),
            r.deltas_for(Color::Black) == black@,
            r.deltas_for(Color::White) == white@,
    {
        let mut table: Vec<Bitboard> = Vec::new();
        let mut i: i8 = 0;
        while i < 81
            invariant
                0 <= i <= 81,
                all_small(black@),
                all_small(white@),
                table@.len() == 2 * i,
                forall|j: int|
                    0 <= j < 2 * i ==> (#[trigger] table@[j])@ == step_attacks(
                        j / 2,
                        if j % 2 == 0 {
                            black@
                        } else {
                            white@
                        },
                    ),
            decreases 81 - i,
        {
            let sq = Square(i);
            table.push(step_bitboard(sq, black));
            table.push(step_bitboard(sq, white));
            i = i + 1;
        }
        PieceAttackTable { table, deltas: Ghost((black@, white@)) }
    }

    /// The squares that a piece of this kind and color `c` on `sq` attacks.
    pub fn attack(&self, sq: Square, c: Color) -> (r: Bitboard)
        requires
            self.wf(),
            sq.wf(),
        ensures
            r@ == step_attacks(sq.0 as int, self.deltas_for(c)),
    {
        let i = sq.index() * 2 + c.index();
        assert((2 * sq.0 + c.idx()) / 2 == sq.0 && (2 * sq.0 + c.idx()) % 2 == c.idx());
        self.table[i]
    }
}

/// The lance's direction for color `c`: North for Black, South for White.
pub open spec fn lance_delta(c: Color) -> Delta {
    match c {
        Color::Black => d(0, -1),
        Color::White => d(0, 1),
    }
}

/// The squares of file `f` on ranks 2 to 8 picked by the bits of `index`: bit `j` picks
/// rank `j + 2`.
pub open spec fn lance_picked(f: int, index: int) -> Set<int> {
    Set::new(|t: int| exists|j: int| 0 <= j < 7 && t == 9 * f + 1 + j && #[trigger] bit64(index as u64, j as u64))
}

/// The squares of file `f` on ranks 2 to 8.
pub open spec fn lance_mask(f: int) -> Set<int> {
    Set::new(|t: int| 9 * f + 1 <= t <= 9 * f + 7)
}

/// Rays that only pass over squares of `mask` give the same attacks over `occupied` and
/// over its part in `mask`.
pub proof fn lemma_ray_restrict(sq: int, delta: Delta, occupied: Set<int>, mask: Set<int>)
    requires
        forall|m: int, n: int|
            #![trigger line_square(sq, delta, m), line_square(sq, delta, n)]
            1 <= m < n && line_square(sq, delta, n) is Some ==> (line_square(sq, delta, m) matches Some(u) && mask.contains(u)),
    ensures
        Set::new(|t: int| in_ray(sq, delta, occupied, t)) == Set::new(|t: int| in_ray(sq, delta, occupied.intersect(mask), t)),
{
    assert forall|t: int| in_ray(sq, delta, occupied, t) == in_ray(sq, delta, occupied.intersect(mask), t) by {
        if in_ray(sq, delta, occupied.intersect(mask), t) {
            let n = choose|n: int|
                #![trigger line_square(sq, delta, n)]
                1 <= n && line_square(sq, delta, n) == Some(t) && forall|m: int|
                    #![trigger line_square(sq, delta, m)]
                    1 <= m < n ==> (line_square(sq, delta, m) matches Some(u) && !occupied.intersect(mask).contains(u));
            assert forall|m: int| #![trigger line_square(sq, delta, m)] 1 <= m < n implies (line_square(sq, delta, m) matches Some(u) && !occupied.contains(u)) by {
                assert(line_square(sq, delta, m) matches Some(u) && mask.contains(u));
            }
        }
    }
    assert(Set::new(|t: int| in_ray(sq, delta, occupied, t)) =~= Set::new(|t: int| in_ray(sq, delta, occupied.intersect(mask), t)));
}

proof fn lemma_lance_line(sq: int, c: Color)
    requires
        0 <= sq < 81,
    ensures
        forall|m: int, n: int|
            #![trigger line_square(sq, lance_delta(c), m), line_square(sq, lance_delta(c), n)]
            1 <= m < n && line_square(sq, lance_delta(c), n) is Some ==> (line_square(sq, lance_delta(c), m) matches Some(u) && lance_mask(file_of(sq)).contains(u)),
{
    assert forall|m: int, n: int|
            #![trigger line_square(sq, lance_delta(c), m), line_square(sq, lance_delta(c), n)]
            1 <= m < n && line_square(sq, lance_delta(c), n) is Some implies (line_square(sq, lance_delta(c), m) matches Some(u) && lance_mask(file_of(sq)).contains(u)) by {
        let f = file_of(sq);
        let r = rank_of(sq);
        assert(m * 0 == 0 && n * 0 == 0);
        if c == Color::Black {
            assert(m * -1 == -m && n * -1 == -n);
        } else {
            assert(m * 1 == m && n * 1 == n);
        }
        lemma_square_coords(sq);
        if 0 <= r - m < 9 {
            lemma_coords(f, r - m);
        }
        if 0 <= r + m < 9 {
            lemma_coords(f, r + m);
        }
        if 0 <= r - n < 9 {
            lemma_coords(f, r - n);
        }
        if 0 <= r + n < 9 {
            lemma_coords(f, r + n);
        }
    }
}

/// Lance attacks for every square, color and occupancy of ranks 2 to 8 of the lance's file.
pub struct LanceAttackTable {
    /// Entry `(2 * square + color) * 128 + index`.
    table: Vec<Bitboard>,
}

impl LanceAttackTable {
    pub closed spec fn wf(self) -> bool {
        &&& self.table@.len() == 162 * 128
        &&& forall|i: int, index: int|
            #![trigger self.table@[i * 128 + index]]
            0 <= i < 162 && 0 <= index < 128 ==> self.table@[i * 128 + index]@ == ray_attacks(
                i / 2,
                seq![lance_delta(if i % 2 == 0 { Color::Black } else { Color::White })],
                lance_picked(file_of(i / 2), index),
            )
    }

    /// The squares of `mask` (ranks 2 to 8 of a file) picked by the bits of `index`, the
    /// lowest square by bit 0.
    fn index_to_occupied(index: usize, mask: Bitboard, Ghost(f): Ghost<int>) -> (r: Bitboard)
        requires
            0 <= f < 9,
            mask@ == lance_mask(f),
        ensures
            r@ == lance_picked(f, index as int),
    {
        let mut bb = Bitboard::empty();
        let mut m = mask;
        let mut i: usize = 0;
        while !m.is_empty()
            invariant
                0 <= f < 9,
                i <= 7,
                m@ == Set::new(|t: int| 9 * f + 1 + i <= t <= 9 * f + 7),
                bb@ == Set::new(|t: int| exists|j: int| 0 <= j < i && t == 9 * f + 1 + j && #[trigger] bit64(index as u64, j as u64)),
            decreases 7 - i,
        {
            if i == 7 {
                assert(m@ =~= Set::<int>::empty());
            }
            let ghost before = bb@;
            assert(m@.contains(9 * f + 1 + i));
            let sq = m.pop().unwrap();
            assert(sq.0 == 9 * f + 1 + i);
            let hit = index & (1usize << i) != 0;
            assert(hit == bit64(index as u64, i as u64)) by (bit_vector)
                requires
                    hit == (index & (1usize << i) != 0),
                    i < 7,
            ;
            if hit {
                bb = bb.or(Bitboard::single(sq));
            }
            i = i + 1;
            assert(m@ =~= Set::new(|t: int| 9 * f + 1 + i <= t <= 9 * f + 7));
            assert(bb@ =~= Set::new(|t: int| exists|j: int| 0 <= j < i && t == 9 * f + 1 + j && #[trigger] bit64(index as u64, j as u64))) by {
                assert forall|t: int| #[trigger] bb@.contains(t) == (exists|j: int| 0 <= j < i && t == 9 * f + 1 + j && #[trigger] bit64(index as u64, j as u64)) by {
                    if t == 9 * f + i && hit {
                        assert(bit64(index as u64, (i - 1) as u64));
                    }
                }
            }
        }
        assert(i == 7) by {
            if i < 7 {
                assert(m@.contains(9 * f + 1 + i));
            }
        }
        assert(bb@ =~= lance_picked(f, index as int));
        bb
    }

    fn new() -> (r: Self)
        ensures
            r.wf(),
    {
        let mut table: Vec<Bitboard> = Vec::new();
        let mut i: i8 = 0;
        while i < 81
            invariant
                0 <= i <= 81,
                table@.len() == (2 * i) * 128,
                forall|k: int, index: int|
                    #![trigger table@[k * 128 + index]]
                    0 <= k < 2 * i && 0 <= index < 128 ==> table@[k * 128 + index]@ == ray_attacks(
                        k / 2,
                        seq![lance_delta(if k % 2 == 0 { Color::Black } else { Color::White })],
                        lance_picked(file_of(k / 2), index),
                    ),
            decreases 81 - i,
        {
            let sq = Square(i);
            let f = sq.file();
            let mask = lance_mask_bitboard(f.0);
            let mut c: usize = 0;
            while c < 2
                invariant
                    0 <= i < 81,
                    sq == Square(i),
                    f.0 == file_of(i as int),
                    mask@ == lance_mask(f.0 as int),
                    c <= 2,
                    table@.len() == (2 * i + c) * 128,
                    forall|k: int, index: int|
                        #![trigger table@[k * 128 + index]]
                        0 <= k < 2 * i + c && 0 <= index < 128 ==> table@[k * 128 + index]@ == ray_attacks(
                            k / 2,
                            seq![lance_delta(if k % 2 == 0 { Color::Black } else { Color::White })],
                            lance_picked(file_of(k / 2), index),
                        ),
                decreases 2 - c,
            {
                let color = if c == 0 { Color::Black } else { Color::White };
                let mut deltas: Vec<Delta> = Vec::new();
                if c == 0 {
                    deltas.push(Delta { file: 0, rank: -1 });
                } else {
                    deltas.push(Delta { file: 0, rank: 1 });
                }
                assert(deltas@ =~= seq![lance_delta(color)]);
                let mut index: usize = 0;
                while index < 128
                    invariant
                        0 <= i < 81,
                        sq == Square(i),
                        f.0 == file_of(i as int),
                        mask@ == lance_mask(f.0 as int),
                        c < 2,
                        color == (if c == 0 { Color::Black } else { Color::White }),
                        deltas@ == seq![lance_delta(color)],
                        index <= 128,
                        table@.len() == (2 * i + c) * 128 + index,
                        forall|k: int, index: int|
                            #![trigger table@[k * 128 + index]]
                            0 <= k < 2 * i + c && 0 <= index < 128 ==> table@[k * 128 + index]@ == ray_attacks(
                                k / 2,
                                seq![lance_delta(if k % 2 == 0 { Color::Black } else { Color::White })],
                                lance_picked(file_of(k / 2), index),
                            ),
                        forall|j: int|
                            #![trigger table@[(2 * i + c) * 128 + j]]
                            0 <= j < index ==> table@[(2 * i + c) * 128 + j]@ == ray_attacks(
                                i as int,
                                seq![lance_delta(color)],
                                lance_picked(f.0 as int, j),
                            ),
                    decreases 128 - index,
                {
                    let occ = LanceAttackTable::index_to_occupied(index, mask, Ghost(f.0 as int));
                    let attacks = sliding_attacks(sq, &occ, &deltas);
                    table.push(attacks);
                    index = index + 1;
                }
                proof {
                    let k0 = 2 * i + c;
                    assert(k0 / 2 == i && k0 % 2 == c);
                    assert forall|k: int, index: int|
                        #![trigger table@[k * 128 + index]]
                        0 <= k < 2 * i + c + 1 && 0 <= index < 128 implies table@[k * 128 + index]@ == ray_attacks(
                            k / 2,
                            seq![lance_delta(if k % 2 == 0 { Color::Black } else { Color::White })],
                            lance_picked(file_of(k / 2), index),
                        ) by {
                        if k == k0 {
                            assert(table@[(2 * i + c) * 128 + index] == table@[k * 128 + index]);
                        }
                    }
                }
                c = c + 1;
            }
            i = i + 1;
        }
        LanceAttackTable { table }
    }

    /// The squares that a lance of color `c` on `sq` attacks over `occupied`.
    pub fn attack(&self, sq: Square, c: Color, occupied: &Bitboard) -> (r: Bitboard)
        requires
            self.wf(),
            sq.wf(),
        ensures
            r@ == ray_attacks(sq.0 as int, seq![lance_delta(c)], occupied@),
    {
        let values = occupied.values();
        let word = if sq.index() >= 63 {
            values.1
        } else {
            values.0
        };
        let f = sq.0 / 9;
        let off: u64 = if f < 7 {
            (1 + 9 * f) as u64
        } else {
            (1 + 9 * (f - 7)) as u64
        };
        let index = ((word >> off) as usize) & 127;
        let k = sq.index() * 2 + c.index();
        assert(index <= 127) by (bit_vector)
            requires
                index == ((word >> off) as usize) & 127,
        ;
        proof {
            let s = sq.0 as int;
            lemma_square_coords(s);
            assert(f == file_of(s));
            assert(k / 2 == s && k % 2 == c.idx());
            assert(forall|j: u64| j < 7 ==> #[trigger] bit64((((word >> off) as usize) & 127) as u64, j) == bit64(word, (off + j) as u64)) by (bit_vector)
                requires
                    off <= 55,
            ;
            assert(lance_picked(f as int, index as int) =~= occupied@.intersect(lance_mask(f as int))) by {
                assert forall|t: int| #[trigger] lance_picked(f as int, index as int).contains(t) == occupied@.intersect(lance_mask(f as int)).contains(t) by {
                    if 9 * f + 1 <= t <= 9 * f + 7 {
                        let j = t - 9 * f - 1;
                        assert(bit64(index as u64, j as u64) == bit64(word, (off + j) as u64));
                        if f < 7 {
                            assert(occupied@.contains(t) == bit64(word, t as u64));
                        } else {
                            assert(occupied@.contains(t) == bit64(word, (t - 63) as u64));
                        }
                    }
                }
            }
            lemma_lance_line(s, c);
            lemma_ray_restrict(s, lance_delta(c), occupied@, lance_mask(f as int));
            assert(ray_attacks(s, seq![lance_delta(c)], occupied@) =~= ray_attacks(s, seq![lance_delta(c)], occupied@.intersect(lance_mask(f as int)))) by {
                assert forall|t: int| #[trigger] ray_attacks(s, seq![lance_delta(c)], occupied@).contains(t) == ray_attacks(s, seq![lance_delta(c)], occupied@.intersect(lance_mask(f as int))).contains(t) by {
                    assert(seq![lance_delta(c)][0] == lance_delta(c));
                    assert(Set::new(|t: int| in_ray(s, lance_delta(c), occupied@, t)).contains(t) == in_ray(s, lance_delta(c), occupied@, t));
                    assert(Set::new(|t: int| in_ray(s, lance_delta(c), occupied@.intersect(lance_mask(f as int)), t)).contains(t) == in_ray(s, lance_delta(c), occupied@.intersect(lance_mask(f as int)), t));
                }
            }
            assert(self.table@[(k as int) * 128 + index as int] == self.table@[k * 128 + index]);
        }
        self.table[k * 128 + index]
    }
}

/// The squares of file `f` on ranks 2 to 8.
fn lance_mask_bitboard(f: i8) -> (r: Bitboard)
    requires
        0 <= f < 9,
    ensures
        r@ == lance_mask(f as int),
{
    let mut bb = Bitboard::empty();
    let mut r: i8 = 1;
    while r < 8
        invariant
            0 <= f < 9,
            1 <= r <= 8,
            bb@ == Set::new(|t: int| 9 * f + 1 <= t < 9 * f + r),
        decreases 8 - r,
    {
        bb = bb.or(Bitboard::single(Square(f * 9 + r)));
        r = r + 1;
        assert(bb@ =~= Set::new(|t: int| 9 * f + 1 <= t < 9 * f + r));
    }
    assert(bb@ =~= lance_mask(f as int));
    bb
}

/// Parallel bit extraction: the bits of `v` at the set positions of `m`, packed from bit 0
/// upwards in the order of those positions.
pub open spec fn pext(v: u64, m: u64) -> nat
    decreases m,
{
    if m == 0 {
        0
    } else {
        proof {
            lemma_and_minus_one(m);
        }
        (if v & m & !((m - 1) as u64) != 0 {
            1nat
        } else {
            0nat
        }) + 2 * pext(v, m & ((m - 1) as u64))
    }
}

/// `bitintr::Pext::pext` on `u64`. Claimed: the result is `pext(value, mask)`, the bits of
/// `value` at the set positions of `mask`, packed from the lowest position of `mask` upwards
/// (as the crate's documentation and its portable fallback say). The fallback doubles its
/// output bit once more after the last bit of `mask`, which overflows when all 64 bits are set;
/// that mask is left out.
#[verifier::external_body]
fn pext_u64(value: u64, mask: u64) -> (r: u64)
    requires
        mask != 0xffff_ffff_ffff_ffffu64,
    ensures
        r == pext(value, mask),
{
    value.pext(mask)
}

proof fn lemma_low_bit_split(v: u64, m: u64)
    by (bit_vector)
    requires
        m != 0,
    ensures
        (v & m == 0) == (v & m & !((m - 1) as u64) == 0 && v & (m & ((m - 1) as u64)) == 0),
{
}

/// The extracted bits fit in as many bits as `m` has set, and they are all zero exactly when
/// `v` has no bit in common with `m`.
pub proof fn lemma_pext(v: u64, m: u64)
    ensures
        pext(v, m) < pow2(popcnt(m)),
        (pext(v, m) == 0) == (v & m == 0),
    decreases m,
{
    if m == 0 {
        assert(v & 0 == 0) by (bit_vector);
        lemma_pow2_pos(0);
    } else {
        lemma_and_minus_one(m);
        let m1 = m & ((m - 1) as u64);
        lemma_pext(v, m1);
        lemma_pow2_unfold(popcnt(m));
        lemma_low_bit_split(v, m);
    }
}

/// Parallel bit deposit: the low bits of `k` placed, from bit 0 upwards, at the set positions
/// of `m` in increasing order.
pub open spec fn pdep(k: nat, m: u64) -> u64
    decreases m,
{
    if m == 0 {
        0
    } else {
        proof {
            lemma_and_minus_one(m);
        }
        (if k % 2 == 1 {
            m & !((m - 1) as u64)
        } else {
            0u64
        }) | pdep(k / 2, m & ((m - 1) as u64))
    }
}

proof fn lemma_split_bits(v: u64, m: u64)
    by (bit_vector)
    requires
        m != 0,
    ensures
        (v & m) & m & !((m - 1) as u64) == v & m & !((m - 1) as u64),
        (v & m) & (m & ((m - 1) as u64)) == v & (m & ((m - 1) as u64)),
        v & !m == 0 ==> v == (if v & m & !((m - 1) as u64) != 0 {
            m & !((m - 1) as u64)
        } else {
            0u64
        }) | (v & (m & ((m - 1) as u64))),
        (v & (m & ((m - 1) as u64))) & !(m & ((m - 1) as u64)) == 0,
{
}

/// Extracting from `v` reads only the bits of `v` under `m`.
pub proof fn lemma_pext_masked(v: u64, m: u64)
    ensures
        pext(v, m) == pext(v & m, m),
    decreases m,
{
    if m != 0 {
        lemma_and_minus_one(m);
        let m1 = m & ((m - 1) as u64);
        lemma_pext_masked(v, m1);
        lemma_pext_masked(v & m, m1);
        lemma_split_bits(v, m);
    }
}

proof fn lemma_or_steps(a: u64, b: u64, c: u64)
    by (bit_vector)
    ensures
        a | (b | c) == (a | b) | c,
        a | 0u64 == a,
        0u64 | c == c,
{
}

/// Depositing zero gives zero.
pub proof fn lemma_pdep_zero(m: u64)
    ensures
        pdep(0, m) == 0,
    decreases m,
{
    if m != 0 {
        lemma_and_minus_one(m);
        lemma_pdep_zero(m & ((m - 1) as u64));
        lemma_or_steps(0, 0, 0);
    }
}

/// `pdep(k, m)`, one set bit of `m` at a time.
fn deposit(k: u64, m: u64) -> (r: u64)
    ensures
        r == pdep(k as nat, m),
{
    let mut r: u64 = 0;
    let mut kk: u64 = k;
    let mut mm: u64 = m;
    proof {
        lemma_or_steps(0, 0, pdep(k as nat, m));
    }
    while mm != 0
        invariant
            pdep(k as nat, m) == r | pdep(kk as nat, mm),
        decreases mm,
    {
        proof {
            lemma_and_minus_one(mm);
        }
        let low = mm & !(mm - 1);
        let rest = mm & (mm - 1);
        let bit: u64 = if kk % 2 == 1 {
            low
        } else {
            0
        };
        proof {
            lemma_or_steps(r, bit, pdep((kk / 2) as nat, rest));
        }
        r = r | bit;
        kk = kk / 2;
        mm = rest;
    }
    proof {
        lemma_or_steps(r, 0, 0);
    }
    r
}

/// Depositing the bits extracted from a subset of `m` gives back the subset.
pub proof fn lemma_pdep_pext(x: u64, m: u64)
    requires
        x & !m == 0,
    ensures
        pdep(pext(x, m), m) == x,
    decreases m,
{
    if m == 0 {
        assert(x & !0u64 == 0 ==> x == 0) by (bit_vector);
    } else {
        lemma_and_minus_one(m);
        let m1 = m & ((m - 1) as u64);
        let x1 = x & m1;
        lemma_split_bits(x, m);
        lemma_pext_masked(x, m1);
        lemma_pdep_pext(x1, m1);
        let b: nat = if x & m & !((m - 1) as u64) != 0 { 1 } else { 0 };
        let q = pext(x, m1);
        assert(pext(x, m) == b + 2 * q);
        assert((b + 2 * q) % 2 == b && (b + 2 * q) / 2 == q) by (nonlinear_arith)
            requires
                b == 0 || b == 1,
        ;
    }
}

/// The squares of file `f`.
pub open spec fn file_set(f: int) -> Set<int> {
    Set::new(|t: int| 0 <= t < 81 && file_of(t) == f)
}

/// The squares of rank `r`.
pub open spec fn rank_set(r: int) -> Set<int> {
    Set::new(|t: int| 0 <= t < 81 && rank_of(t) == r)
}

/// The squares of file `f`.
pub fn file_bitboard(f: i8) -> (r: Bitboard)
    requires
        0 <= f < 9,
    ensures
        r@ == file_set(f as int),
{
    let mut bb = Bitboard::empty();
    let mut r: i8 = 0;
    while r < 9
        invariant
            0 <= f < 9,
            0 <= r <= 9,
            bb@ == Set::new(|t: int| 9 * f <= t < 9 * f + r),
        decreases 9 - r,
    {
        bb = bb.or(Bitboard::single(Square(f * 9 + r)));
        r = r + 1;
        assert(bb@ =~= Set::new(|t: int| 9 * f <= t < 9 * f + r));
    }
    assert(bb@ =~= file_set(f as int));
    bb
}

/// The squares of rank `r`.
pub fn rank_bitboard(r: i8) -> (b: Bitboard)
    requires
        0 <= r < 9,
    ensures
        b@ == rank_set(r as int),
{
    let mut bb = Bitboard::empty();
    let mut f: i8 = 0;
    while f < 9
        invariant
            0 <= r < 9,
            0 <= f <= 9,
            bb@ == Set::new(|t: int| 0 <= t < 9 * f && rank_of(t) == r),
        decreases 9 - f,
    {
        proof {
            lemma_coords(f as int, r as int);
        }
        bb = bb.or(Bitboard::single(Square(f * 9 + r)));
        f = f + 1;
        assert(bb@ =~= Set::new(|t: int| 0 <= t < 9 * f && rank_of(t) == r)) by {
            assert forall|t: int| #[trigger] bb@.contains(t) == (0 <= t < 9 * f && rank_of(t) == r) by {
                if 9 * (f - 1) <= t < 9 * f {
                    lemma_coords(f - 1, t - 9 * (f - 1));
                }
            }
        }
    }
    assert(bb@ =~= rank_set(r as int));
    bb
}

/// Square `t` is on no edge file or rank that `sq` is not on.
pub open spec fn mask_keeps(sq: int, t: int) -> bool {
    (file_of(sq) != 0 ==> file_of(t) != 0) && (file_of(sq) != 8 ==> file_of(t) != 8) && (rank_of(sq)
        != 0 ==> rank_of(t) != 0) && (rank_of(sq) != 8 ==> rank_of(t) != 8)
}

/// The squares a sliding piece on `sq` may be blocked on: its rays over an empty board,
/// without the squares of the edge files and ranks that `sq` is not on.
pub open spec fn slider_mask(sq: int, deltas: Seq<Delta>) -> Set<int> {
    ray_attacks(sq, deltas, Set::empty()).filter(|t: int| mask_keeps(sq, t))
}

/// A ray over some occupancy is part of the ray over an empty board.
pub proof fn lemma_ray_subset(sq: int, deltas: Seq<Delta>, occupied: Set<int>)
    ensures
        ray_attacks(sq, deltas, occupied).subset_of(ray_attacks(sq, deltas, Set::empty())),
{
    assert forall|t: int| ray_attacks(sq, deltas, occupied).contains(t) implies ray_attacks(sq, deltas, Set::empty()).contains(t) by {
        let k = choose|k: int| 0 <= k < deltas.len() && #[trigger] in_ray(sq, deltas[k], occupied, t);
        let n = choose|n: int|
            #![trigger line_square(sq, deltas[k], n)]
            1 <= n && line_square(sq, deltas[k], n) == Some(t) && forall|m: int|
                #![trigger line_square(sq, deltas[k], m)]
                1 <= m < n ==> (line_square(sq, deltas[k], m) matches Some(u) && !occupied.contains(u));
        assert(in_ray(sq, deltas[k], Set::empty(), t));
    }
}

/// A ray over an empty board has at most eight squares.
proof fn lemma_ray_len(sq: int, delta: Delta)
    requires
        0 <= sq < 81,
        delta.small(),
    ensures
        Set::new(|t: int| in_ray(sq, delta, Set::empty(), t)).finite(),
        Set::new(|t: int| in_ray(sq, delta, Set::empty(), t)).len() <= 8,
{
    let f = |n: int| match line_square(sq, delta, n) {
        Some(u) => u,
        None => -1,
    };
    let dom = set_int_range(1, 9);
    lemma_int_range(1, 9);
    let img = dom.map(f);
    lemma_map_size_bound(dom, img, f);
    let ray = Set::new(|t: int| in_ray(sq, delta, Set::empty(), t));
    assert forall|t: int| ray.contains(t) implies img.contains(t) by {
        let n = choose|n: int|
            #![trigger line_square(sq, delta, n)]
            1 <= n && line_square(sq, delta, n) == Some(t) && forall|m: int|
                #![trigger line_square(sq, delta, m)]
                1 <= m < n ==> (line_square(sq, delta, m) matches Some(u) && !Set::<int>::empty().contains(u));
        if n >= 9 {
            lemma_line_short(sq, delta);
            lemma_line_gone(sq, delta, 9, n);
        }
        assert(dom.contains(n) && f(n) == t);
    }
    lemma_len_subset(ray, img);
}

/// The rays of `deltas` over an empty board have at most eight squares each.
proof fn lemma_ray_attacks_len(sq: int, deltas: Seq<Delta>)
    requires
        0 <= sq < 81,
        all_small(deltas),
    ensures
        ray_attacks(sq, deltas, Set::empty()).finite(),
        ray_attacks(sq, deltas, Set::empty()).len() <= 8 * deltas.len(),
    decreases deltas.len(),
{
    if deltas.len() == 0 {
        assert(ray_attacks(sq, deltas, Set::empty()) =~= Set::<int>::empty());
    } else {
        let init = deltas.drop_last();
        let last = deltas.last();
        assert(all_small(init));
        lemma_ray_attacks_len(sq, init);
        assert(last.small());
        lemma_ray_len(sq, last);
        let ray = Set::new(|t: int| in_ray(sq, last, Set::empty(), t));
        assert(ray_attacks(sq, deltas, Set::empty()) =~= ray_attacks(sq, init, Set::empty()).union(ray)) by {
            assert forall|t: int| #[trigger] ray_attacks(sq, deltas, Set::empty()).contains(t) == ray_attacks(sq, init, Set::empty()).union(ray).contains(t) by {
                if ray_attacks(sq, deltas, Set::empty()).contains(t) {
                    let k = choose|k: int| 0 <= k < deltas.len() && #[trigger] in_ray(sq, deltas[k], Set::empty(), t);
                    if k < init.len() {
                        assert(init[k] == deltas[k]);
                    }
                }
                if ray_attacks(sq, init, Set::empty()).contains(t) {
                    let k = choose|k: int| 0 <= k < init.len() && #[trigger] in_ray(sq, init[k], Set::empty(), t);
                    assert(init[k] == deltas[k]);
                }
                if ray.contains(t) {
                    assert(in_ray(sq, deltas[deltas.len() - 1], Set::empty(), t));
                }
            }
        }
        lemma_len_union(ray_attacks(sq, init, Set::empty()), ray);
    }
}

/// A square on a ray over an empty board lies `n >= 1` steps away.
proof fn ray_step(sq: int, delta: Delta, t: int) -> (n: int)
    requires
        0 <= sq < 81,
        in_ray(sq, delta, Set::empty(), t),
    ensures
        n >= 1,
        0 <= t < 81,
        file_of(t) == file_of(sq) + n * delta.file,
        rank_of(t) == rank_of(sq) + n * delta.rank,
        line_square(sq, delta, n) == Some(t),
{
    let n = choose|n: int|
        #![trigger line_square(sq, delta, n)]
        1 <= n && line_square(sq, delta, n) == Some(t) && forall|m: int|
            #![trigger line_square(sq, delta, m)]
            1 <= m < n ==> (line_square(sq, delta, m) matches Some(u) && !Set::<int>::empty().contains(u));
    lemma_coords(file_of(sq) + n * delta.file, rank_of(sq) + n * delta.rank);
    n
}

/// The masks of the bishop and the rook never hold both square `j` and square `j + 63`: those
/// lie on one rank seven files apart, and an edge file is in the mask only for a slider on it.
pub proof fn lemma_mask_fold_disjoint(sq: int, deltas: Seq<Delta>)
    requires
        0 <= sq < 81,
        deltas == ka_deltas() || deltas == hi_deltas(),
    ensures
        forall|j: int| 0 <= j < 18 ==> !(#[trigger] slider_mask(sq, deltas).contains(j) && slider_mask(sq, deltas).contains(j + 63)),
{
    assert forall|j: int| 0 <= j < 18 implies !(#[trigger] slider_mask(sq, deltas).contains(j) && slider_mask(sq, deltas).contains(j + 63)) by {
        let mask = slider_mask(sq, deltas);
        if mask.contains(j) && mask.contains(j + 63) {
            let k1 = choose|k: int| 0 <= k < deltas.len() && #[trigger] in_ray(sq, deltas[k], Set::empty(), j);
            let k2 = choose|k: int| 0 <= k < deltas.len() && #[trigger] in_ray(sq, deltas[k], Set::empty(), j + 63);
            let n1 = ray_step(sq, deltas[k1], j);
            let n2 = ray_step(sq, deltas[k2], j + 63);
            assert(file_of(j + 63) == file_of(j) + 7 && rank_of(j + 63) == rank_of(j));
            let d1 = deltas[k1];
            let d2 = deltas[k2];
            assert(n1 * 0 == 0 && n2 * 0 == 0 && n1 * 1 == n1 && n2 * 1 == n2 && n1 * -1 == -n1 && n2 * -1 == -n2);
            assert(d1.file as int == 0 || d1.file as int == 1 || d1.file as int == -1);
            assert(d2.file as int == 0 || d2.file as int == 1 || d2.file as int == -1);
            assert(d1.rank as int == 0 || d1.rank as int == 1 || d1.rank as int == -1);
            assert(d2.rank as int == 0 || d2.rank as int == 1 || d2.rank as int == -1);
        }
    }
}

/// Along a ray that goes on to step `n`, every earlier step is on the board and in the
/// slider's mask.
proof fn lemma_mask_before(sq: int, deltas: Seq<Delta>, k: int, m: int, n: int)
    requires
        0 <= sq < 81,
        all_small(deltas),
        0 <= k < deltas.len(),
        1 <= m < n,
        line_square(sq, deltas[k], n) is Some,
    ensures
        line_square(sq, deltas[k], m) matches Some(u) && slider_mask(sq, deltas).contains(u),
{
    let d = deltas[k];
    assert(d.small());
    if line_square(sq, d, m) is None {
        lemma_line_gone(sq, d, m, n);
    }
    let u = line_square(sq, d, m)->0;
    assert forall|i: int| #![trigger line_square(sq, d, i)] 1 <= i < m implies (line_square(sq, d, i) matches Some(w) && !Set::<int>::empty().contains(w)) by {
        if line_square(sq, d, i) is None {
            lemma_line_gone(sq, d, i, n);
        }
    }
    assert(in_ray(sq, d, Set::empty(), u));
    assert(ray_attacks(sq, deltas, Set::empty()).contains(u));
    let f0 = file_of(sq);
    let r0 = rank_of(sq);
    let df = d.file as int;
    let dr = d.rank as int;
    let fu = f0 + m * df;
    let ru = r0 + m * dr;
    let fn_ = f0 + n * df;
    let rn = r0 + n * dr;
    assert(0 <= fu < 9 && 0 <= ru < 9 && u == fu * 9 + ru);
    lemma_coords(fu, ru);
    assert(0 <= fn_ < 9 && 0 <= rn < 9);
    assert(m * df < 0 ==> df < 0) by (nonlinear_arith)
        requires
            m >= 1,
    ;
    assert(m * df > 0 ==> df > 0) by (nonlinear_arith)
        requires
            m >= 1,
    ;
    assert(m * dr < 0 ==> dr < 0) by (nonlinear_arith)
        requires
            m >= 1,
    ;
    assert(m * dr > 0 ==> dr > 0) by (nonlinear_arith)
        requires
            m >= 1,
    ;
    assert(df < 0 ==> n * df < m * df) by (nonlinear_arith)
        requires
            m < n,
    ;
    assert(df > 0 ==> n * df > m * df) by (nonlinear_arith)
        requires
            m < n,
    ;
    assert(dr < 0 ==> n * dr < m * dr) by (nonlinear_arith)
        requires
            m < n,
    ;
    assert(dr > 0 ==> n * dr > m * dr) by (nonlinear_arith)
        requires
            m < n,
    ;
    if df == 0 {
        assert(m * df == 0 && n * df == 0) by (nonlinear_arith)
            requires
                df == 0,
        ;
    }
    if dr == 0 {
        assert(m * dr == 0 && n * dr == 0) by (nonlinear_arith)
            requires
                dr == 0,
        ;
    }
    assert(mask_keeps(sq, u));
}

/// One ray of a slider depends only on the occupied squares of its mask.
proof fn lemma_slider_ray_restrict(sq: int, deltas: Seq<Delta>, k: int, occupied: Set<int>)
    requires
        0 <= sq < 81,
        all_small(deltas),
        0 <= k < deltas.len(),
    ensures
        Set::new(|t: int| in_ray(sq, deltas[k], occupied, t)) == Set::new(
            |t: int| in_ray(sq, deltas[k], occupied.intersect(slider_mask(sq, deltas)), t),
        ),
{
    let mask = slider_mask(sq, deltas);
    assert forall|m: int, n: int|
        #![trigger line_square(sq, deltas[k], m), line_square(sq, deltas[k], n)]
        1 <= m < n && line_square(sq, deltas[k], n) is Some implies (line_square(sq, deltas[k], m) matches Some(u) && mask.contains(u)) by {
        lemma_mask_before(sq, deltas, k, m, n);
    }
    lemma_ray_restrict(sq, deltas[k], occupied, mask);
}

/// The squares a slider reaches depend only on the occupied squares of its mask.
pub proof fn lemma_slider_restrict(sq: int, deltas: Seq<Delta>, occupied: Set<int>)
    requires
        0 <= sq < 81,
        all_small(deltas),
    ensures
        ray_attacks(sq, deltas, occupied) == ray_attacks(sq, deltas, occupied.intersect(slider_mask(sq, deltas))),
{
    let mask = slider_mask(sq, deltas);
    assert forall|t: int| ray_attacks(sq, deltas, occupied).contains(t) == ray_attacks(sq, deltas, occupied.intersect(mask)).contains(t) by {
        if ray_attacks(sq, deltas, occupied).contains(t) {
            let k = choose|k: int| 0 <= k < deltas.len() && #[trigger] in_ray(sq, deltas[k], occupied, t);
            lemma_slider_ray_restrict(sq, deltas, k, occupied);
            assert(Set::new(|t: int| in_ray(sq, deltas[k], occupied, t)).contains(t));
        }
        if ray_attacks(sq, deltas, occupied.intersect(mask)).contains(t) {
            let k = choose|k: int| 0 <= k < deltas.len() && #[trigger] in_ray(sq, deltas[k], occupied.intersect(mask), t);
            lemma_slider_ray_restrict(sq, deltas, k, occupied);
            assert(Set::new(|t: int| in_ray(sq, deltas[k], occupied.intersect(mask), t)).contains(t));
        }
    }
    assert(ray_attacks(sq, deltas, occupied) =~= ray_attacks(sq, deltas, occupied.intersect(mask)));
}

/// Attacks of a sliding kind (bishop or rook), indexed by the occupancy of the kind's mask.
pub struct SlidingAttackTable {
    table: Vec<Bitboard>,
    masks: Vec<Bitboard>,
    offsets: Vec<usize>,
    deltas: Ghost<Seq<Delta>>,
}

/// The directions of the bishop and of the rook take single steps.
pub proof fn lemma_slider_deltas_small()
    ensures
        all_small(ka_deltas()),
        all_small(hi_deltas()),
{
}

impl SlidingAttackTable {
    /// The deltas of the kind.
    pub closed spec fn kind_deltas(self) -> Seq<Delta> {
        self.deltas@
    }

    /// Each square has a region of `2^|mask|` entries, one for each number `k` below that: the
    /// attacks over the squares of the mask that `k` deposits into the folded mask.
    pub closed spec fn wf(self) -> bool {
        &&& self.masks@.len() == 81
        &&& self.offsets@.len() == 81
        &&& (self.deltas@ == ka_deltas() || self.deltas@ == hi_deltas())
        &&& forall|sq: int|
            #![trigger self.masks@[sq]]
            0 <= sq < 81 ==> {
                &&& self.masks@[sq]@ == slider_mask(sq, self.deltas@)
                &&& self.masks@[sq].inv()
                &&& self.masks@[sq].lo_word() & self.masks@[sq].hi_word() == 0
                &&& self.offsets@[sq] + pow2(self.masks@[sq]@.len()) <= self.table@.len()
                &&& forall|k: nat|
                    #![trigger self.table@[self.offsets@[sq] + k]]
                    k < pow2(self.masks@[sq]@.len()) ==> self.table@[self.offsets@[sq] + k]@ == ray_attacks(
                        sq,
                        self.deltas@,
                        word_masked(self.masks@[sq], pdep(k, self.masks@[sq].folded()))@,
                    )
            }
    }

    /// The squares of `mask` that `index` deposits into the folded mask.
    fn index_to_occupied(index: u64, mask: Bitboard) -> (r: Bitboard)
        ensures
            r == word_masked(mask, pdep(index as nat, mask.folded())),
            r@.subset_of(mask@),
    {
        proof {
            use_type_invariant(mask);
        }
        let mask_values = mask.values();
        let m = mask_values.0 | mask_values.1;
        let w = deposit(index, m);
        let r = Bitboard::masked_word(w, &mask);
        proof {
            Bitboard::lemma_word_masked_inv(mask, w);
        }
        r
    }

    /// The table index of the occupancy `occupied` on `mask`: the occupied bits of the folded
    /// mask, extracted.
    fn occupied_to_index(occupied: Bitboard, mask: Bitboard) -> (r: u64)
        requires
            mask.inv(),
        ensures
            (r as nat) < pow2(popcnt(mask.folded())),
            (r == 0) == (occupied@.intersect(mask@) == Set::<int>::empty()),
            r == pext(bb_of(occupied@.intersect(mask@)).folded(), mask.folded()),
    {
        let masked = occupied.and(mask);
        proof {
            use_type_invariant(masked);
            Bitboard::lemma_bb_of(masked);
        }
        let values = masked.values();
        let mask_values = mask.values();
        let v = values.0 | values.1;
        let (ml, mh) = mask_values;
        let m = ml | mh;
        assert(m != 0xffff_ffff_ffff_ffffu64) by (bit_vector)
            requires
                m == ml | mh,
                ml >> 63 == 0,
                mh >> 18 == 0,
        ;
        let r = pext_u64(v, m);
        proof {
            use_type_invariant(masked);
            lemma_pext(v, m);
            if v & m == 0 {
                masked.lemma_folded_empty(mask);
            }
            if masked@ == Set::<int>::empty() {
                masked.lemma_view_on_board();
                masked.lemma_empty_words();
                let (a, c) = values;
                assert(v & m == 0) by (bit_vector)
                    requires
                        v == a | c,
                        a == 0,
                        c == 0,
                ;
            }
        }
        r
    }

    /// The squares a slider on `sq` may be blocked on.
    fn attack_mask(sq: Square, deltas: &Vec<Delta>) -> (r: Bitboard)
        requires
            sq.wf(),
            all_small(deltas@),
        ensures
            r@ == slider_mask(sq.0 as int, deltas@),
    {
        let empty = Bitboard::empty();
        let mut bb = sliding_attacks(sq, &empty, deltas);
        proof {
            assert(empty@ =~= Set::<int>::empty());
        }
        let ghost full = bb@;
        if sq.file().0 != 0 {
            bb = bb.andnot(file_bitboard(0));
        }
        if sq.file().0 != 8 {
            bb = bb.andnot(file_bitboard(8));
        }
        if sq.rank().0 != 0 {
            bb = bb.andnot(rank_bitboard(0));
        }
        if sq.rank().0 != 8 {
            bb = bb.andnot(rank_bitboard(8));
        }
        proof {
            lemma_ray_subset(sq.0 as int, deltas@, Set::empty());
            assert forall|t: int| full.contains(t) implies 0 <= t < 81 by {
                let k = choose|k: int| 0 <= k < deltas@.len() && #[trigger] in_ray(sq.0 as int, deltas@[k], Set::empty(), t);
                let n = choose|n: int|
                    #![trigger line_square(sq.0 as int, deltas@[k], n)]
                    1 <= n && line_square(sq.0 as int, deltas@[k], n) == Some(t) && forall|m: int|
                        #![trigger line_square(sq.0 as int, deltas@[k], m)]
                        1 <= m < n ==> (line_square(sq.0 as int, deltas@[k], m) matches Some(u) && !Set::<int>::empty().contains(u));
                lemma_coords(file_of(sq.0 as int) + n * deltas@[k].file, rank_of(sq.0 as int) + n * deltas@[k].rank);
            }
        }
        assert(bb@ =~= slider_mask(sq.0 as int, deltas@));
        bb
    }

    fn new(deltas: &Vec<Delta>) -> (r: Self)
        requires
            deltas@ == ka_deltas() || deltas@ == hi_deltas(),
        ensures
            r.wf(),
            r.kind_deltas() == deltas@,
    {
        let mut table: Vec<Bitboard> = Vec::new();
        let mut masks: Vec<Bitboard> = Vec::new();
        let mut offsets: Vec<usize> = Vec::new();
        proof {
            lemma_slider_deltas_small();
        }
        let mut i: i8 = 0;
        while i < 81
            invariant
                0 <= i <= 81,
                deltas@ == ka_deltas() || deltas@ == hi_deltas(),
                all_small(deltas@),
                masks@.len() == i,
                offsets@.len() == i,
                forall|sq: int|
                    #![trigger masks@[sq]]
                    0 <= sq < i ==> {
                        &&& masks@[sq]@ == slider_mask(sq, deltas@)
                        &&& masks@[sq].inv()
                        &&& masks@[sq].lo_word() & masks@[sq].hi_word() == 0
                        &&& offsets@[sq] + pow2(masks@[sq]@.len()) <= table@.len()
                        &&& forall|k: nat|
                            #![trigger table@[offsets@[sq] + k]]
                            k < pow2(masks@[sq]@.len()) ==> table@[offsets@[sq] + k]@ == ray_attacks(
                                sq,
                                deltas@,
                                word_masked(masks@[sq], pdep(k, masks@[sq].folded()))@,
                            )
                    },
            decreases 81 - i,
        {
            let sq = Square(i);
            let mask = SlidingAttackTable::attack_mask(sq, deltas);
            proof {
                use_type_invariant(mask);
                lemma_ray_attacks_len(i as int, deltas@);
                lemma_len_subset(mask@, ray_attacks(i as int, deltas@, Set::empty()));
                lemma_mask_fold_disjoint(i as int, deltas@);
                Bitboard::lemma_words_disjoint(mask);
            }
            let ones = mask.count();
            let offset = table.len();
            proof {
                lemma_u64_pow2_no_overflow(ones as nat);
                lemma_u64_shl_is_mul(1, ones as u64);
            }
            let size = 1u64 << (ones as u64);
            assert(size == pow2(ones as nat));
            let ghost prev = table@;
            let ghost old_masks = masks@;
            let ghost old_offsets = offsets@;
            let mut index: u64 = 0;
            while index < size
                invariant
                    sq == Square(i),
                    0 <= i < 81,
                    all_small(deltas@),
                    mask@ == slider_mask(i as int, deltas@),
                    mask.inv(),
                    mask@.len() == ones,
                    size == pow2(ones as nat),
                    index <= size,
                    offset == prev.len(),
                    table@.len() == offset + index,
                    forall|j: int| #![trigger table@[j]] 0 <= j < offset ==> table@[j] == prev[j],
                    forall|k: nat|
                        #![trigger table@[offset + k]]
                        k < index ==> table@[offset + k]@ == ray_attacks(
                            i as int,
                            deltas@,
                            word_masked(mask, pdep(k, mask.folded()))@,
                        ),
                decreases size - index,
            {
                let occ = SlidingAttackTable::index_to_occupied(index, mask);
                let attacks = sliding_attacks(sq, &occ, deltas);
                table.push(attacks);
                proof {
                    assert(table@[offset + index as nat] == attacks);
                }
                index = index + 1;
            }
            masks.push(mask);
            offsets.push(offset);
            proof {
                assert forall|sq: int|
                    #![trigger masks@[sq]]
                    0 <= sq < i + 1 implies {
                        &&& masks@[sq]@ == slider_mask(sq, deltas@)
                        &&& masks@[sq].inv()
                        &&& masks@[sq].lo_word() & masks@[sq].hi_word() == 0
                        &&& offsets@[sq] + pow2(masks@[sq]@.len()) <= table@.len()
                        &&& forall|k: nat|
                            #![trigger table@[offsets@[sq] + k]]
                            k < pow2(masks@[sq]@.len()) ==> table@[offsets@[sq] + k]@ == ray_attacks(
                                sq,
                                deltas@,
                                word_masked(masks@[sq], pdep(k, masks@[sq].folded()))@,
                            )
                    } by {
                    if sq < i {
                        assert(masks@[sq] == old_masks[sq]);
                        assert(offsets@[sq] == old_offsets[sq]);
                        assert forall|k: nat|
                            #![trigger table@[offsets@[sq] + k]]
                            k < pow2(masks@[sq]@.len()) implies table@[offsets@[sq] + k]@ == ray_attacks(
                                sq,
                                deltas@,
                                word_masked(masks@[sq], pdep(k, masks@[sq].folded()))@,
                            ) by {
                            assert(old_offsets[sq] + pow2(old_masks[sq]@.len()) <= prev.len());
                            assert(prev[old_offsets[sq] + k] == table@[offsets@[sq] + k]);
                        }
                    } else {
                        assert(masks@[sq] == mask);
                        assert(offsets@[sq] == offset);
                    }
                }
            }
            i = i + 1;
        }
        SlidingAttackTable { table, masks, offsets, deltas: Ghost(deltas@) }
    }

    /// The entry for `sq` over `occupied` holds the slider's attacks over `occupied`.
    proof fn lemma_lookup(self, sq: int, occupied: Bitboard)
        requires
            self.wf(),
            0 <= sq < 81,
            occupied.inv(),
        ensures
            pext(bb_of(occupied@.intersect(self.masks@[sq]@)).folded(), self.masks@[sq].folded()) < pow2(
                self.masks@[sq]@.len(),
            ),
            self.table@[self.offsets@[sq] + pext(
                bb_of(occupied@.intersect(self.masks@[sq]@)).folded(),
                self.masks@[sq].folded(),
            )]@ == ray_attacks(sq, self.deltas@, occupied@),
    {
        lemma_slider_deltas_small();
        let mask = self.masks@[sq];
        let x = bb_of(occupied@.intersect(mask@));
        Bitboard::lemma_intersect_bb(occupied, mask);
        Bitboard::lemma_fold_unfold(x, mask);
        lemma_pdep_pext(x.folded(), mask.folded());
        lemma_pext(x.folded(), mask.folded());
        mask.lemma_folded_popcnt();
        if popcnt(mask.folded()) < mask@.len() {
            lemma_pow2_strictly_increases(popcnt(mask.folded()), mask@.len());
        }
        let k = pext(x.folded(), mask.folded());
        assert(self.table@[self.offsets@[sq] + k]@ == ray_attacks(sq, self.deltas@, word_masked(mask, pdep(k, mask.folded()))@));
        lemma_slider_restrict(sq, self.deltas@, occupied@);
    }
}

impl SlidingAttackTable {
    /// The squares a slider on `sq` attacks over `occupied`.
    pub fn attack(&self, sq: Square, occupied: &Bitboard) -> (r: Bitboard)
        requires
            self.wf(),
            sq.wf(),
        ensures
            r@ == ray_attacks(sq.0 as int, self.kind_deltas(), occupied@),
    {
        let i = sq.index();
        let ghost s = sq.0 as int;
        proof {
            use_type_invariant(occupied);
            assert(self.masks@[s]@ == slider_mask(s, self.deltas@));
            self.lemma_lookup(s, *occupied);
        }
        let key = SlidingAttackTable::occupied_to_index(*occupied, self.masks[i]);
        let len = self.table.len();
        assert(self.offsets@[s] + key < len);
        let k = key as usize;
        assert(self.table@[self.offsets@[s] + k]@ == ray_attacks(s, self.deltas@, occupied@));
        self.table[self.offsets[i] + k]
    }

    /// The squares a slider on `sq` attacks over an empty board.
    pub fn pseudo_attack(&self, sq: Square) -> (r: Bitboard)
        requires
            self.wf(),
            sq.wf(),
        ensures
            r@ == ray_attacks(sq.0 as int, self.kind_deltas(), Set::empty()),
    {
        let i = sq.index();
        let ghost s = sq.0 as int;
        proof {
            lemma_pow2_pos(self.masks@[s]@.len());
            lemma_pdep_zero(self.masks@[s].folded());
            Bitboard::lemma_word_masked_zero(self.masks@[s]);
            assert(self.table@[self.offsets@[s] + 0nat]@ == ray_attacks(
                s,
                self.deltas@,
                word_masked(self.masks@[s], pdep(0, self.masks@[s].folded()))@,
            ));
        }
        self.table[self.offsets[i]]
    }
}

/// A line meets each square at most once.
pub proof fn lemma_line_injective(sq: int, delta: Delta, m: int, n: int)
    requires
        delta.small(),
        line_square(sq, delta, m) is Some,
        line_square(sq, delta, m) == line_square(sq, delta, n),
    ensures
        m == n,
{
    let fm = file_of(sq) + m * delta.file;
    let rm = rank_of(sq) + m * delta.rank;
    let fn_ = file_of(sq) + n * delta.file;
    let rn = rank_of(sq) + n * delta.rank;
    lemma_coords(fm, rm);
    lemma_coords(fn_, rn);
    let df = delta.file as int;
    let dr = delta.rank as int;
    assert(m * df == n * df && m * dr == n * dr);
    assert((m - n) * df == 0 && (m - n) * dr == 0) by (nonlinear_arith)
        requires
            m * df == n * df,
            m * dr == n * dr,
    ;
    assert(m - n == 0) by (nonlinear_arith)
        requires
            (m - n) * df == 0,
            (m - n) * dr == 0,
            df != 0 || dr != 0,
    ;
}

/// Occupying more squares makes no ray longer.
pub proof fn lemma_ray_fewer(sq: int, deltas: Seq<Delta>, occ1: Set<int>, occ2: Set<int>)
    requires
        occ1.subset_of(occ2),
    ensures
        ray_attacks(sq, deltas, occ2).subset_of(ray_attacks(sq, deltas, occ1)),
{
    assert forall|t: int| ray_attacks(sq, deltas, occ2).contains(t) implies ray_attacks(sq, deltas, occ1).contains(t) by {
        let k = choose|k: int| 0 <= k < deltas.len() && #[trigger] in_ray(sq, deltas[k], occ2, t);
        let n = choose|n: int|
            #![trigger line_square(sq, deltas[k], n)]
            1 <= n && line_square(sq, deltas[k], n) == Some(t) && forall|m: int|
                #![trigger line_square(sq, deltas[k], m)]
                1 <= m < n ==> (line_square(sq, deltas[k], m) matches Some(u) && !occ2.contains(u));
        assert(in_ray(sq, deltas[k], occ1, t));
    }
}

/// Whether the square a ray reaches is itself occupied does not change that it is reached.
pub proof fn lemma_ray_own_square(sq: int, deltas: Seq<Delta>, occ: Set<int>, t: int)
    requires
        all_small(deltas),
    ensures
        ray_attacks(sq, deltas, occ.insert(t)).contains(t) == ray_attacks(sq, deltas, occ).contains(t),
{
    lemma_ray_fewer(sq, deltas, occ, occ.insert(t));
    if ray_attacks(sq, deltas, occ).contains(t) {
        let k = choose|k: int| 0 <= k < deltas.len() && #[trigger] in_ray(sq, deltas[k], occ, t);
        let n = choose|n: int|
            #![trigger line_square(sq, deltas[k], n)]
            1 <= n && line_square(sq, deltas[k], n) == Some(t) && forall|m: int|
                #![trigger line_square(sq, deltas[k], m)]
                1 <= m < n ==> (line_square(sq, deltas[k], m) matches Some(u) && !occ.contains(u));
        assert(deltas[k].small());
        assert forall|m: int|
            #![trigger line_square(sq, deltas[k], m)]
            1 <= m < n implies (line_square(sq, deltas[k], m) matches Some(u) && !occ.insert(t).contains(u)) by {
            if line_square(sq, deltas[k], m) == Some(t) {
                lemma_line_injective(sq, deltas[k], m, n);
            }
        }
        assert(in_ray(sq, deltas[k], occ.insert(t), t));
    }
}

/// The steps of the kinds that move one square, for color `c`.
pub open spec fn step_deltas(pt: PieceType, c: Color) -> Seq<Delta> {
    match (pt, c) {
        (PieceType::FU, Color::Black) => seq![d(0, -1)],
        (PieceType::FU, Color::White) => seq![d(0, 1)],
        (PieceType::KE, Color::Black) => seq![d(-1, -2), d(1, -2)],
        (PieceType::KE, Color::White) => seq![d(-1, 2), d(1, 2)],
        (PieceType::GI, Color::Black) => seq![d(0, -1), d(-1, -1), d(-1, 1), d(1, 1), d(1, -1)],
        (PieceType::GI, Color::White) => seq![d(0, 1), d(-1, -1), d(-1, 1), d(1, 1), d(1, -1)],
        (PieceType::OU, _) => seq![d(0, -1), d(-1, 0), d(0, 1), d(1, 0), d(-1, -1), d(-1, 1), d(1, 1), d(1, -1)],
        (_, Color::Black) => seq![d(0, -1), d(-1, 0), d(0, 1), d(1, 0), d(-1, -1), d(1, -1)],
        (_, Color::White) => seq![d(0, -1), d(-1, 0), d(0, 1), d(1, 0), d(-1, 1), d(1, 1)],
    }
}

/// The directions of the bishop.
pub open spec fn ka_deltas() -> Seq<Delta> {
    seq![d(-1, -1), d(-1, 1), d(1, 1), d(1, -1)]
}

/// The directions of the rook.
pub open spec fn hi_deltas() -> Seq<Delta> {
    seq![d(0, -1), d(-1, 0), d(0, 1), d(1, 0)]
}

/// The squares a piece of kind `pt` and color `c` on `sq` attacks over `occupied`.
pub open spec fn piece_attacks(pt: PieceType, sq: int, c: Color, occupied: Set<int>) -> Set<int> {
    match pt {
        PieceType::KY => ray_attacks(sq, seq![lance_delta(c)], occupied),
        PieceType::KA => ray_attacks(sq, ka_deltas(), occupied),
        PieceType::HI => ray_attacks(sq, hi_deltas(), occupied),
        PieceType::UM => ray_attacks(sq, ka_deltas(), occupied).union(step_attacks(sq, step_deltas(PieceType::OU, c))),
        PieceType::RY => ray_attacks(sq, hi_deltas(), occupied).union(step_attacks(sq, step_deltas(PieceType::OU, c))),
        _ => step_attacks(sq, step_deltas(pt, c)),
    }
}

/// Occupying more squares gives a piece no more attacks.
pub proof fn lemma_attacks_fewer(pt: PieceType, sq: int, c: Color, occ1: Set<int>, occ2: Set<int>)
    requires
        occ1.subset_of(occ2),
    ensures
        piece_attacks(pt, sq, c, occ2).subset_of(piece_attacks(pt, sq, c, occ1)),
{
    lemma_ray_fewer(sq, seq![lance_delta(c)], occ1, occ2);
    lemma_ray_fewer(sq, ka_deltas(), occ1, occ2);
    lemma_ray_fewer(sq, hi_deltas(), occ1, occ2);
}

/// Whether the attacked square is itself occupied does not change that it is attacked.
pub proof fn lemma_attacks_own_square(pt: PieceType, sq: int, c: Color, occ: Set<int>, t: int)
    ensures
        piece_attacks(pt, sq, c, occ.insert(t)).contains(t) == piece_attacks(pt, sq, c, occ).contains(t),
{
    lemma_slider_deltas_small();
    assert(all_small(seq![lance_delta(c)]));
    lemma_ray_own_square(sq, seq![lance_delta(c)], occ, t);
    lemma_ray_own_square(sq, ka_deltas(), occ, t);
    lemma_ray_own_square(sq, hi_deltas(), occ, t);
}

fn deltas_vec(ds: &[Delta]) -> (r: Vec<Delta>)
    ensures
        r@ == ds@,
{
    let mut v: Vec<Delta> = Vec::new();
    let mut i: usize = 0;
    while i < ds.len()
        invariant
            i <= ds@.len(),
            v@ == ds@.subrange(0, i as int),
        decreases ds@.len() - i,
    {
        v.push(ds[i]);
        i = i + 1;
        assert(v@ =~= ds@.subrange(0, i as int));
    }
    assert(v@ =~= ds@);
    v
}

/// The attack tables of every kind.
pub struct AttackTable {
    pub fu: PieceAttackTable,
    pub ky: LanceAttackTable,
    pub ke: PieceAttackTable,
    pub gi: PieceAttackTable,
    pub ka: SlidingAttackTable,
    pub hi: SlidingAttackTable,
    pub ki: PieceAttackTable,
    pub ou: PieceAttackTable,
}

impl AttackTable {
    pub open spec fn wf(self) -> bool {
        &&& self.fu.wf()
        &&& self.ky.wf()
        &&& self.ke.wf()
        &&& self.gi.wf()
        &&& self.ka.wf()
        &&& self.hi.wf()
        &&& self.ki.wf()
        &&& self.ou.wf()
        &&& forall|c: Color| #[trigger] self.fu.deltas_for(c) == step_deltas(PieceType::FU, c)
        &&& forall|c: Color| #[trigger] self.ke.deltas_for(c) == step_deltas(PieceType::KE, c)
        &&& forall|c: Color| #[trigger] self.gi.deltas_for(c) == step_deltas(PieceType::GI, c)
        &&& forall|c: Color| #[trigger] self.ki.deltas_for(c) == step_deltas(PieceType::KI, c)
        &&& forall|c: Color| #[trigger] self.ou.deltas_for(c) == step_deltas(PieceType::OU, c)
        &&& self.ka.kind_deltas() == ka_deltas()
        &&& self.hi.kind_deltas() == hi_deltas()
    }

    pub fn new() -> (r: Self)
        ensures
            r.wf(),
    {
        let n = Delta { file: 0, rank: -1 };
        let e = Delta { file: -1, rank: 0 };
        let s = Delta { file: 0, rank: 1 };
        let w = Delta { file: 1, rank: 0 };
        let ne = Delta { file: -1, rank: -1 };
        let se = Delta { file: -1, rank: 1 };
        let sw = Delta { file: 1, rank: 1 };
        let nw = Delta { file: 1, rank: -1 };
        let nne = Delta { file: -1, rank: -2 };
        let nnw = Delta { file: 1, rank: -2 };
        let sse = Delta { file: -1, rank: 2 };
        let ssw = Delta { file: 1, rank: 2 };
        let fu = PieceAttackTable::new(&deltas_vec(&[n]), &deltas_vec(&[s]));
        let ke = PieceAttackTable::new(&deltas_vec(&[nne, nnw]), &deltas_vec(&[sse, ssw]));
        let gi = PieceAttackTable::new(&deltas_vec(&[n, ne, se, sw, nw]), &deltas_vec(&[s, ne, se, sw, nw]));
        let ki = PieceAttackTable::new(&deltas_vec(&[n, e, s, w, ne, nw]), &deltas_vec(&[n, e, s, w, se, sw]));
        let ou = PieceAttackTable::new(&deltas_vec(&[n, e, s, w, ne, se, sw, nw]), &deltas_vec(&[n, e, s, w, ne, se, sw, nw]));
        let ka_dirs = deltas_vec(&[ne, se, sw, nw]);
        let hi_dirs = deltas_vec(&[n, e, s, w]);
        assert(ka_dirs@ =~= ka_deltas());
        assert(hi_dirs@ =~= hi_deltas());
        let ka = SlidingAttackTable::new(&ka_dirs);
        let hi = SlidingAttackTable::new(&hi_dirs);
        let ky = LanceAttackTable::new();
        let r = AttackTable { fu, ky, ke, gi, ka, hi, ki, ou };
        assert forall|c: Color|
            {
                &&& r.fu.deltas_for(c) == step_deltas(PieceType::FU, c)
                &&& r.ke.deltas_for(c) == step_deltas(PieceType::KE, c)
                &&& r.gi.deltas_for(c) == step_deltas(PieceType::GI, c)
                &&& r.ki.deltas_for(c) == step_deltas(PieceType::KI, c)
                &&& r.ou.deltas_for(c) == step_deltas(PieceType::OU, c)
            } by {
            match c {
                Color::Black => {
                    assert(r.fu.deltas_for(c) =~= step_deltas(PieceType::FU, c));
                    assert(r.ke.deltas_for(c) =~= step_deltas(PieceType::KE, c));
                    assert(r.gi.deltas_for(c) =~= step_deltas(PieceType::GI, c));
                    assert(r.ki.deltas_for(c) =~= step_deltas(PieceType::KI, c));
                    assert(r.ou.deltas_for(c) =~= step_deltas(PieceType::OU, c));
                },
                Color::White => {
                    assert(r.fu.deltas_for(c) =~= step_deltas(PieceType::FU, c));
                    assert(r.ke.deltas_for(c) =~= step_deltas(PieceType::KE, c));
                    assert(r.gi.deltas_for(c) =~= step_deltas(PieceType::GI, c));
                    assert(r.ki.deltas_for(c) =~= step_deltas(PieceType::KI, c));
                    assert(r.ou.deltas_for(c) =~= step_deltas(PieceType::OU, c));
                },
            }
        }
        r
    }

    /// The squares a piece of kind `pk` and color `c` on `sq` attacks over `occupied`.
    pub fn attack(&self, pk: PieceType, sq: Square, c: Color, occupied: &Bitboard) -> (r: Bitboard)
        requires
            self.wf(),
            sq.wf(),
        ensures
            r@ == piece_attacks(pk, sq.0 as int, c, occupied@),
    {
        match pk {
            PieceType::FU => self.fu.attack(sq, c),
            PieceType::KY => self.ky.attack(sq, c, occupied),
            PieceType::KE => self.ke.attack(sq, c),
            PieceType::GI => self.gi.attack(sq, c),
            PieceType::KA => self.ka.attack(sq, occupied),
            PieceType::HI => self.hi.attack(sq, occupied),
            PieceType::KI | PieceType::TO | PieceType::NY | PieceType::NK | PieceType::NG => self.ki.attack(sq, c),
            PieceType::OU => self.ou.attack(sq, c),
            PieceType::UM => {
                let a = self.ka.attack(sq, occupied);
                let b = self.ou.attack(sq, c);
                a.or(b)
            },
            PieceType::RY => {
                let a = self.hi.attack(sq, occupied);
                let b = self.ou.attack(sq, c);
                a.or(b)
            },
        }
    }

    /// The squares a piece of kind `pk` and color `c` on `sq` attacks over an empty board.
    pub fn pseudo_attack(&self, pk: PieceType, sq: Square, c: Color) -> (r: Bitboard)
        requires
            self.wf(),
            sq.wf(),
        ensures
            r@ == piece_attacks(pk, sq.0 as int, c, Set::empty()),
    {
        match pk {
            PieceType::KY => {
                let empty = Bitboard::empty();
                let r = self.ky.attack(sq, c, &empty);
                assert(empty@ =~= Set::<int>::empty());
                r
            },
            PieceType::KA => self.ka.pseudo_attack(sq),
            PieceType::HI => self.hi.pseudo_attack(sq),
            PieceType::UM => {
                let a = self.ka.pseudo_attack(sq);
                let b = self.ou.attack(sq, c);
                a.or(b)
            },
            PieceType::RY => {
                let a = self.hi.pseudo_attack(sq);
                let b = self.ou.attack(sq, c);
                a.or(b)
            },
            _ => {
                let empty = Bitboard::empty();
                assert(empty@ =~= Set::<int>::empty());
                self.attack(pk, sq, c, &empty)
            },
        }
    }
}

/// The sign of `x`: -1, 0 or 1.
pub open spec fn sign(x: int) -> int {
    if x < 0 {
        -1
    } else if x > 0 {
        1
    } else {
        0
    }
}

/// Whether squares `a` and `b` are distinct and on one file, rank or diagonal.
pub open spec fn aligned(a: int, b: int) -> bool {
    let df = file_of(b) - file_of(a);
    let dr = rank_of(b) - rank_of(a);
    !(df == 0 && dr == 0) && (df == 0 || dr == 0 || df == dr || df == -dr)
}

/// The direction from `a` towards `b`.
pub open spec fn direction(a: int, b: int) -> Delta {
    d(sign(file_of(b) - file_of(a)), sign(rank_of(b) - rank_of(a)))
}

/// The squares strictly between `a` and `b` when they are aligned: the ray from `a` towards
/// `b`, which stops at `b`, without `b`. Empty when they are not aligned.
pub open spec fn between_set(a: int, b: int) -> Set<int> {
    if aligned(a, b) {
        Set::new(|t: int| in_ray(a, direction(a, b), Set::empty().insert(b), t)).remove(b)
    } else {
        Set::empty()
    }
}

/// A step of one square in one of the eight directions.
pub open spec fn unit(delta: Delta) -> bool {
    -1 <= delta.file <= 1 && -1 <= delta.rank <= 1 && (delta.file != 0 || delta.rank != 0)
}

/// The square `n >= 1` unit steps from `a` is aligned with it, in the direction of the step.
pub proof fn lemma_line_unit(a: int, delta: Delta, n: int, s: int)
    requires
        unit(delta),
        n >= 1,
        line_square(a, delta, n) == Some(s),
    ensures
        aligned(a, s),
        direction(a, s) == delta,
{
    let df = delta.file as int;
    let dr = delta.rank as int;
    lemma_coords(file_of(a) + n * df, rank_of(a) + n * dr);
    assert(n * 0 == 0 && n * 1 == n && n * -1 == -n);
    assert(delta == d(df, dr));
}

/// The squares strictly between `a` and the square `n` unit steps from it are the squares fewer
/// steps from it.
pub proof fn lemma_between_line(a: int, delta: Delta, n: int, s: int, u: int)
    requires
        0 <= a < 81,
        unit(delta),
        n >= 1,
        line_square(a, delta, n) == Some(s),
    ensures
        between_set(a, s).contains(u) <==> exists|m: int| 1 <= m < n && #[trigger] line_square(a, delta, m) == Some(u),
{
    lemma_line_unit(a, delta, n, s);
    assert(delta.small());
    let occ = Set::<int>::empty().insert(s);
    if between_set(a, s).contains(u) {
        let m = choose|m: int|
            #![trigger line_square(a, delta, m)]
            1 <= m && line_square(a, delta, m) == Some(u) && forall|k: int|
                #![trigger line_square(a, delta, k)]
                1 <= k < m ==> (line_square(a, delta, k) matches Some(w) && !occ.contains(w));
        if m == n {
            assert(u == s);
        } else if m > n {
            assert(line_square(a, delta, n) matches Some(w) && !occ.contains(w));
        }
        assert(1 <= m < n && line_square(a, delta, m) == Some(u));
    }
    if exists|m: int| 1 <= m < n && #[trigger] line_square(a, delta, m) == Some(u) {
        let m = choose|m: int| 1 <= m < n && #[trigger] line_square(a, delta, m) == Some(u);
        if u == s {
            lemma_line_injective(a, delta, m, n);
        }
        assert forall|k: int|
            #![trigger line_square(a, delta, k)]
            1 <= k < m implies (line_square(a, delta, k) matches Some(w) && !occ.contains(w)) by {
            if line_square(a, delta, k) is None {
                lemma_line_gone(a, delta, k, m);
            }
            if line_square(a, delta, k) == Some(s) {
                lemma_line_injective(a, delta, k, n);
            }
        }
        assert(in_ray(a, delta, occ, u));
    }
}

/// Going on along a line from one of its squares.
pub proof fn lemma_line_shift(a: int, delta: Delta, j: int, n: int, f: int, s: int)
    requires
        line_square(a, delta, j) == Some(f),
        line_square(a, delta, n) == Some(s),
    ensures
        line_square(f, delta, n - j) == Some(s),
{
    let df = delta.file as int;
    let dr = delta.rank as int;
    lemma_coords(file_of(a) + j * df, rank_of(a) + j * dr);
    lemma_coords(file_of(a) + n * df, rank_of(a) + n * dr);
    assert(n * df - j * df == (n - j) * df && n * dr - j * dr == (n - j) * dr) by (nonlinear_arith);
}

/// Every step of the kinds that move one square has a component of one square.
pub proof fn lemma_step_component(pt: PieceType, c: Color)
    ensures
        forall|k: int|
            0 <= k < step_deltas(pt, c).len() ==> {
                let e = #[trigger] step_deltas(pt, c)[k];
                e.file == 1 || e.file == -1 || e.rank == 1 || e.rank == -1
            },
{
}

/// Two unit steps whose multiples by positive counts give the same displacement are equal,
/// and so are the counts.
pub proof fn lemma_unit_multiple(d1: Delta, k1: int, d2: Delta, k2: int)
    requires
        unit(d1),
        unit(d2),
        k1 >= 1,
        k2 >= 1,
        k1 * d1.file == k2 * d2.file,
        k1 * d1.rank == k2 * d2.rank,
    ensures
        d1 == d2,
        k1 == k2,
{
    let a = d1.file as int;
    let b = d1.rank as int;
    let x = d2.file as int;
    let y = d2.rank as int;
    assert(a == x && b == y && k1 == k2) by (nonlinear_arith)
        requires
            -1 <= a <= 1,
            -1 <= b <= 1,
            -1 <= x <= 1,
            -1 <= y <= 1,
            a != 0 || b != 0,
            x != 0 || y != 0,
            k1 >= 1,
            k2 >= 1,
            k1 * a == k2 * x,
            k1 * b == k2 * y,
    ;
}

/// No piece reaches a square two or more unit steps away along a line over an occupied square
/// of that line.
pub proof fn lemma_no_jump(pt: PieceType, f: int, c: Color, occ: Set<int>, delta: Delta, k: int, i: int, s: int, t: int)
    requires
        0 <= f < 81,
        unit(delta),
        1 <= i < k,
        line_square(f, delta, i) == Some(s),
        line_square(f, delta, k) == Some(t),
        occ.contains(s),
    ensures
        !piece_attacks(pt, f, c, occ).contains(t),
{
    let df = delta.file as int;
    let dr = delta.rank as int;
    lemma_coords(file_of(f) + k * df, rank_of(f) + k * dr);
    assert(k * df != 1 && k * df != -1 && k * dr != 1 && k * dr != -1) by (nonlinear_arith)
        requires
            k >= 2,
            -1 <= df <= 1,
            -1 <= dr <= 1,
    ;
    lemma_step_component(pt, c);
    lemma_step_component(PieceType::OU, c);
    assert forall|e: Delta| #![trigger shifted(f, e.file as int, e.rank as int)]
        (e.file == 1 || e.file == -1 || e.rank == 1 || e.rank == -1) implies shifted(f, e.file as int, e.rank as int) != Some(t) by {
        if shifted(f, e.file as int, e.rank as int) == Some(t) {
            lemma_coords(file_of(f) + e.file, rank_of(f) + e.rank);
        }
    }
    assert forall|ds: Seq<Delta>, k2: int|
        (forall|q: int| 0 <= q < ds.len() ==> #[trigger] unit(ds[q])) && 0 <= k2 < ds.len() implies !#[trigger] in_ray(
        f,
        ds[k2],
        occ,
        t,
    ) by {
        let d2 = ds[k2];
        assert(unit(d2));
        if in_ray(f, d2, occ, t) {
            let n2 = choose|n2: int|
                #![trigger line_square(f, d2, n2)]
                1 <= n2 && line_square(f, d2, n2) == Some(t) && forall|m: int|
                    #![trigger line_square(f, d2, m)]
                    1 <= m < n2 ==> (line_square(f, d2, m) matches Some(u) && !occ.contains(u));
            lemma_coords(file_of(f) + n2 * d2.file, rank_of(f) + n2 * d2.rank);
            lemma_unit_multiple(delta, k, d2, n2);
            assert(line_square(f, d2, i) matches Some(u) && !occ.contains(u));
        }
    }
    assert(forall|q: int| 0 <= q < ka_deltas().len() ==> #[trigger] unit(ka_deltas()[q]));
    assert(forall|q: int| 0 <= q < hi_deltas().len() ==> #[trigger] unit(hi_deltas()[q]));
    assert(forall|q: int| 0 <= q < seq![lance_delta(c)].len() ==> #[trigger] unit(seq![lance_delta(c)][q]));
}

/// How a slider reaches a square: the direction, the number of steps, with every square before
/// it unoccupied.
pub proof fn ray_witness(sq: int, deltas: Seq<Delta>, occ: Set<int>, s: int) -> (r: (int, int))
    requires
        ray_attacks(sq, deltas, occ).contains(s),
    ensures
        0 <= r.0 < deltas.len(),
        r.1 >= 1,
        line_square(sq, deltas[r.0], r.1) == Some(s),
        forall|m: int|
            #![trigger line_square(sq, deltas[r.0], m)]
            1 <= m < r.1 ==> (line_square(sq, deltas[r.0], m) matches Some(u) && !occ.contains(u)),
{
    let k = choose|k: int| 0 <= k < deltas.len() && #[trigger] in_ray(sq, deltas[k], occ, s);
    let n = choose|n: int|
        #![trigger line_square(sq, deltas[k], n)]
        1 <= n && line_square(sq, deltas[k], n) == Some(s) && forall|m: int|
            #![trigger line_square(sq, deltas[k], m)]
            1 <= m < n ==> (line_square(sq, deltas[k], m) matches Some(u) && !occ.contains(u));
    (k, n)
}

/// A slider reaches the square `n` steps along one of its directions when the squares before
/// it are unoccupied.
pub proof fn lemma_ray_reach(sq: int, deltas: Seq<Delta>, occ: Set<int>, k: int, n: int, s: int)
    requires
        0 <= k < deltas.len(),
        n >= 1,
        line_square(sq, deltas[k], n) == Some(s),
        forall|m: int|
            #![trigger line_square(sq, deltas[k], m)]
            1 <= m < n ==> (line_square(sq, deltas[k], m) matches Some(u) && !occ.contains(u)),
    ensures
        ray_attacks(sq, deltas, occ).contains(s),
{
    assert(in_ray(sq, deltas[k], occ, s));
}

/// An aligned square lies some unit steps away in the direction towards it.
pub proof fn lemma_aligned_line(a: int, b: int) -> (n: int)
    requires
        0 <= a < 81,
        0 <= b < 81,
        aligned(a, b),
    ensures
        unit(direction(a, b)),
        n >= 1,
        line_square(a, direction(a, b), n) == Some(b),
{
    let df = file_of(b) - file_of(a);
    let dr = rank_of(b) - rank_of(a);
    lemma_square_coords(a);
    lemma_square_coords(b);
    let n = if df != 0 {
        if df > 0 {
            df
        } else {
            -df
        }
    } else {
        if dr > 0 {
            dr
        } else {
            -dr
        }
    };
    let dl = direction(a, b);
    assert(dl.file as int == sign(df) && dl.rank as int == sign(dr));
    assert(n * sign(df) == df && n * sign(dr) == dr) by (nonlinear_arith)
        requires
            n == (if df != 0 {
                if df > 0 {
                    df
                } else {
                    -df
                }
            } else {
                if dr > 0 {
                    dr
                } else {
                    -dr
                }
            }),
            !(df == 0 && dr == 0) && (df == 0 || dr == 0 || df == dr || df == -dr),
            sign(df) == (if df < 0 {
                -1
            } else if df > 0 {
                1
            } else {
                0
            }),
            sign(dr) == (if dr < 0 {
                -1
            } else if dr > 0 {
                1
            } else {
                0
            }),
    ;
    n
}

/// The opposite step.
pub open spec fn neg(delta: Delta) -> Delta {
    d(-(delta.file as int), -(delta.rank as int))
}

/// Walking back along a line: the square `m` steps from `a` is `n - m` opposite steps from the
/// square `n` steps from `a`.
pub proof fn lemma_line_back(a: int, delta: Delta, n: int, b: int, m: int)
    requires
        unit(delta),
        line_square(a, delta, n) == Some(b),
        line_square(a, delta, m) is Some,
    ensures
        line_square(b, neg(delta), n - m) == line_square(a, delta, m),
        unit(neg(delta)),
{
    let df = delta.file as int;
    let dr = delta.rank as int;
    let nd = neg(delta);
    assert(nd.file as int == -df && nd.rank as int == -dr);
    lemma_coords(file_of(a) + n * df, rank_of(a) + n * dr);
    assert((n - m) * (-df) == m * df - n * df && (n - m) * (-dr) == m * dr - n * dr) by (nonlinear_arith);
}

/// The squares between two squares are the same seen from either end.
pub proof fn lemma_between_symmetric(a: int, b: int)
    requires
        0 <= a < 81,
        0 <= b < 81,
    ensures
        between_set(a, b) == between_set(b, a),
{
    if aligned(a, b) {
        let n = lemma_aligned_line(a, b);
        let dl = direction(a, b);
        assert(dl.small());
        lemma_square_coords(a);
        lemma_line_back(a, dl, n, b, 0);
        assert(line_square(a, dl, 0) == Some(a)) by {
            lemma_coords(file_of(a), rank_of(a));
        }
        assert(line_square(b, neg(dl), n) == Some(a));
        assert(neg(dl).small());
        assert forall|u: int| #[trigger] between_set(a, b).contains(u) == between_set(b, a).contains(u) by {
            lemma_between_line(a, dl, n, b, u);
            lemma_between_line(b, neg(dl), n, a, u);
            if between_set(a, b).contains(u) {
                let m = choose|m: int| 1 <= m < n && #[trigger] line_square(a, dl, m) == Some(u);
                lemma_line_back(a, dl, n, b, m);
                assert(1 <= n - m < n && line_square(b, neg(dl), n - m) == Some(u));
            }
            if between_set(b, a).contains(u) {
                let m = choose|m: int| 1 <= m < n && #[trigger] line_square(b, neg(dl), m) == Some(u);
                assert(line_square(a, dl, n - m) is Some) by {
                    if line_square(a, dl, n - m) is None {
                        lemma_line_gone(a, dl, n - m, n);
                    }
                }
                lemma_line_back(a, dl, n, b, n - m);
                assert(1 <= n - m < n && line_square(a, dl, n - m) == Some(u));
            }
        }
        assert(between_set(a, b) =~= between_set(b, a));
    } else {
        assert(!aligned(b, a));
    }
}

/// Nothing stands between a square and a square one step of a short-range kind away.
pub proof fn lemma_step_between(pt: PieceType, c: Color, sq: int, s: int)
    requires
        0 <= sq < 81,
        step_attacks(sq, step_deltas(pt, c)).contains(s),
    ensures
        between_set(sq, s) == Set::<int>::empty(),
{
    let ds = step_deltas(pt, c);
    let k = choose|k: int| 0 <= k < ds.len() && #[trigger] shifted(sq, ds[k].file as int, ds[k].rank as int) == Some(s);
    let e = ds[k];
    lemma_step_component(pt, c);
    lemma_coords(file_of(sq) + e.file, rank_of(sq) + e.rank);
    if aligned(sq, s) {
        let n = lemma_aligned_line(sq, s);
        let dl = direction(sq, s);
        lemma_coords(file_of(sq) + n * dl.file, rank_of(sq) + n * dl.rank);
        if n >= 2 {
            assert(n * dl.file != 1 && n * dl.file != -1 && n * dl.rank != 1 && n * dl.rank != -1) by (nonlinear_arith)
                requires
                    n >= 2,
                    -1 <= dl.file <= 1,
                    -1 <= dl.rank <= 1,
            ;
        }
        assert forall|u: int| !#[trigger] between_set(sq, s).contains(u) by {
            lemma_between_line(sq, dl, n, s, u);
        }
        assert(between_set(sq, s) =~= Set::<int>::empty());
    }
}

/// Along a ray from `k` that reaches `s` over `occq`, where `occq` is `occp` with `f` emptied and
/// `x` occupied: `x` is not passed; either `f` is passed, and then the ray reaches `f` over
/// `occp`, or the ray reaches `s` over `occp` too.
pub proof fn lemma_ray_moved(
    k: int,
    ds: Seq<Delta>,
    ki: int,
    n: int,
    s: int,
    occp: Set<int>,
    occq: Set<int>,
    f: int,
    x: int,
)
    requires
        occq == occp.remove(f).insert(x),
        0 <= ki < ds.len(),
        unit(ds[ki]),
        n >= 1,
        line_square(k, ds[ki], n) == Some(s),
        forall|m: int|
            #![trigger line_square(k, ds[ki], m)]
            1 <= m < n ==> (line_square(k, ds[ki], m) matches Some(u) && !occq.contains(u)),
    ensures
        forall|m: int| 1 <= m < n ==> #[trigger] line_square(k, ds[ki], m) != Some(x),
        (exists|j: int| 1 <= j < n && #[trigger] line_square(k, ds[ki], j) == Some(f)) || ray_attacks(k, ds, occp).contains(s),
        forall|j: int|
            1 <= j < n && #[trigger] line_square(k, ds[ki], j) == Some(f) ==> ray_attacks(k, ds, occp).contains(f),
{
    let d = ds[ki];
    assert forall|m: int| 1 <= m < n implies #[trigger] line_square(k, ds[ki], m) != Some(x) by {
        assert(line_square(k, d, m) matches Some(u) && !occq.contains(u));
    }
    if !exists|j: int| 1 <= j < n && #[trigger] line_square(k, ds[ki], j) == Some(f) {
        assert forall|m: int|
            #![trigger line_square(k, d, m)]
            1 <= m < n implies (line_square(k, d, m) matches Some(u) && !occp.contains(u)) by {
            assert(line_square(k, d, m) matches Some(u) && !occq.contains(u));
        }
        lemma_ray_reach(k, ds, occp, ki, n, s);
    }
    assert forall|j: int| 1 <= j < n && #[trigger] line_square(k, ds[ki], j) == Some(f) implies ray_attacks(k, ds, occp).contains(f) by {
        assert forall|m: int|
            #![trigger line_square(k, d, m)]
            1 <= m < j implies (line_square(k, d, m) matches Some(u) && !occp.contains(u)) by {
            assert(line_square(k, d, m) matches Some(u) && !occq.contains(u));
            if line_square(k, d, m) == Some(f) {
                lemma_line_injective(k, d, m, j);
            }
        }
        lemma_ray_reach(k, ds, occp, ki, j, f);
    }
}

/// A piece on `f`, the one occupied square on the line from `k` to `s`, that goes to a square
/// `x` it attacks, other than `s`, with `x` then off the squares before `s`, leaves the line: `x`
/// is neither between `k` and `f` nor beyond `f` seen from `k`.
pub proof fn lemma_leaves_line(
    pt: PieceType,
    c: Color,
    k: int,
    dl: Delta,
    j: int,
    n: int,
    f: int,
    s: int,
    x: int,
    occp: Set<int>,
)
    requires
        0 <= k < 81,
        0 <= x < 81,
        unit(dl),
        1 <= j < n,
        line_square(k, dl, j) == Some(f),
        line_square(k, dl, n) == Some(s),
        s != x,
        forall|m: int| 1 <= m < n ==> #[trigger] line_square(k, dl, m) != Some(x),
        occp.contains(s),
        piece_attacks(pt, f, c, occp).contains(x),
    ensures
        !(between_set(k, f).contains(x) || between_set(k, x).contains(f)),
{
    assert(dl.small());
    if between_set(k, f).contains(x) {
        lemma_between_line(k, dl, j, f, x);
        let mm = choose|mm: int| 1 <= mm < j && #[trigger] line_square(k, dl, mm) == Some(x);
        assert(line_square(k, dl, mm) != Some(x));
    } else if between_set(k, x).contains(f) {
        assert(aligned(k, x));
        let nx = lemma_aligned_line(k, x);
        let d2 = direction(k, x);
        lemma_between_line(k, d2, nx, x, f);
        let i = choose|i: int| 1 <= i < nx && #[trigger] line_square(k, d2, i) == Some(f);
        lemma_line_unit(k, d2, i, f);
        lemma_line_unit(k, dl, j, f);
        lemma_line_injective(k, dl, i, j);
        if nx == n {
        } else if nx < n {
            assert(line_square(k, dl, nx) != Some(x));
        } else {
            lemma_line_shift(k, dl, j, n, f, s);
            lemma_line_shift(k, dl, j, nx, f, x);
            lemma_no_jump(pt, f, c, occp, dl, nx - j, n - j, s, x);
        }
    }
}

/// A ray never passes back over its own origin: occupying the origin changes nothing.
pub proof fn lemma_ray_origin_free(sq: int, deltas: Seq<Delta>, occ1: Set<int>, occ2: Set<int>)
    requires
        0 <= sq < 81,
        all_small(deltas),
        occ2.subset_of(occ1.insert(sq)),
    ensures
        ray_attacks(sq, deltas, occ1).subset_of(ray_attacks(sq, deltas, occ2)),
{
    assert forall|s: int| ray_attacks(sq, deltas, occ1).contains(s) implies ray_attacks(sq, deltas, occ2).contains(s) by {
        let (k, n) = ray_witness(sq, deltas, occ1, s);
        let dl = deltas[k];
        assert(dl.small());
        assert(line_square(sq, dl, 0) == Some(sq)) by {
            lemma_coords(file_of(sq), rank_of(sq));
        }
        assert forall|m: int|
            #![trigger line_square(sq, dl, m)]
            1 <= m < n implies (line_square(sq, dl, m) matches Some(u) && !occ2.contains(u)) by {
            assert(line_square(sq, dl, m) matches Some(u) && !occ1.contains(u));
            if line_square(sq, dl, m) == Some(sq) {
                lemma_line_injective(sq, dl, m, 0);
            }
        }
        lemma_ray_reach(sq, deltas, occ2, k, n, s);
    }
}

/// Occupying the origin of a piece's attacks, or emptying squares, takes none of them away.
pub proof fn lemma_attacks_origin_free(pt: PieceType, sq: int, c: Color, occ1: Set<int>, occ2: Set<int>)
    requires
        0 <= sq < 81,
        occ2.subset_of(occ1.insert(sq)),
    ensures
        piece_attacks(pt, sq, c, occ1).subset_of(piece_attacks(pt, sq, c, occ2)),
{
    lemma_slider_deltas_small();
    assert(all_small(seq![lance_delta(c)]));
    lemma_ray_origin_free(sq, seq![lance_delta(c)], occ1, occ2);
    lemma_ray_origin_free(sq, ka_deltas(), occ1, occ2);
    lemma_ray_origin_free(sq, hi_deltas(), occ1, occ2);
}

/// No piece attacks its own square.
pub proof fn lemma_no_self_attack(pt: PieceType, sq: int, c: Color, occ: Set<int>)
    requires
        0 <= sq < 81,
    ensures
        !piece_attacks(pt, sq, c, occ).contains(sq),
{
    lemma_slider_deltas_small();
    lemma_step_component(pt, c);
    lemma_step_component(PieceType::OU, c);
    assert(line_square(sq, lance_delta(c), 0) == Some(sq)) by {
        lemma_coords(file_of(sq), rank_of(sq));
    }
    assert forall|ds: Seq<Delta>| all_small(ds) implies !#[trigger] ray_attacks(sq, ds, occ).contains(sq) by {
        if ray_attacks(sq, ds, occ).contains(sq) {
            let (k, n) = ray_witness(sq, ds, occ, sq);
            assert(ds[k].small());
            assert(line_square(sq, ds[k], 0) == Some(sq)) by {
                lemma_coords(file_of(sq), rank_of(sq));
            }
            lemma_line_injective(sq, ds[k], n, 0);
        }
    }
    assert(all_small(seq![lance_delta(c)]));
    assert forall|e: Delta| (e.file == 1 || e.file == -1 || e.rank == 1 || e.rank == -1) implies #[trigger] shifted(sq, e.file as int, e.rank as int) != Some(sq) by {
        if shifted(sq, e.file as int, e.rank as int) == Some(sq) {
            lemma_coords(file_of(sq) + e.file, rank_of(sq) + e.rank);
        }
    }
}

/// A ray walked backwards: the origin of a ray that reaches `b` is reached from `b` along the
/// opposite step, over the same squares.
pub proof fn lemma_reverse_line(a: int, dl: Delta, n: int, b: int, occ: Set<int>, ds: Seq<Delta>, j: int)
    requires
        0 <= a < 81,
        unit(dl),
        n >= 1,
        line_square(a, dl, n) == Some(b),
        forall|m: int|
            #![trigger line_square(a, dl, m)]
            1 <= m < n ==> (line_square(a, dl, m) matches Some(u) && !occ.contains(u)),
        0 <= j < ds.len(),
        ds[j] == neg(dl),
    ensures
        ray_attacks(b, ds, occ).contains(a),
{
    assert(dl.small());
    assert(line_square(a, dl, 0) == Some(a)) by {
        lemma_coords(file_of(a), rank_of(a));
    }
    lemma_line_back(a, dl, n, b, 0);
    let nd = neg(dl);
    assert forall|i: int|
        #![trigger line_square(b, nd, i)]
        1 <= i < n implies (line_square(b, nd, i) matches Some(u) && !occ.contains(u)) by {
        if line_square(a, dl, n - i) is None {
            lemma_line_gone(a, dl, n - i, n);
        }
        lemma_line_back(a, dl, n, b, n - i);
        assert(line_square(a, dl, n - i) matches Some(u) && !occ.contains(u));
    }
    lemma_ray_reach(b, ds, occ, j, n, a);
}

/// Two squares of one line that are neighbours lie one step apart on it.
pub proof fn lemma_line_neighbours(a: int, dl: Delta, n1: int, n2: int, k: int, x: int)
    requires
        unit(dl),
        line_square(a, dl, n1) == Some(k),
        line_square(a, dl, n2) == Some(x),
        x != k,
        -1 <= file_of(x) - file_of(k) <= 1,
        -1 <= rank_of(x) - rank_of(k) <= 1,
    ensures
        n2 == n1 + 1 || n2 == n1 - 1,
{
    let df = dl.file as int;
    let dr = dl.rank as int;
    lemma_coords(file_of(a) + n1 * df, rank_of(a) + n1 * dr);
    lemma_coords(file_of(a) + n2 * df, rank_of(a) + n2 * dr);
    assert(n2 * df - n1 * df == (n2 - n1) * df && n2 * dr - n1 * dr == (n2 - n1) * dr) by (nonlinear_arith);
    assert(n2 - n1 == 1 || n2 - n1 == -1) by (nonlinear_arith)
        requires
            -1 <= (n2 - n1) * df <= 1,
            -1 <= (n2 - n1) * dr <= 1,
            (n2 - n1) * df != 0 || (n2 - n1) * dr != 0,
            -1 <= df <= 1,
            -1 <= dr <= 1,
            df != 0 || dr != 0,
    ;
}

/// Whether a unit step is orthogonal.
pub open spec fn orthogonal(dl: Delta) -> bool {
    dl.file == 0 || dl.rank == 0
}

/// A square next to `k`, one of the squares `n1` steps along `d1` from `a`, that lies on another
/// line from `a` is one step from `a`, when both lines are orthogonal, both diagonal, or the
/// first is an orthogonal single step and the second diagonal.
pub proof fn lemma_neighbour_other_line(a: int, d1: Delta, n1: int, k: int, d2: Delta, n2: int, x: int)
    requires
        unit(d1),
        unit(d2),
        d1 != d2,
        n1 >= 1,
        n2 >= 1,
        line_square(a, d1, n1) == Some(k),
        line_square(a, d2, n2) == Some(x),
        x != k,
        -1 <= file_of(x) - file_of(k) <= 1,
        -1 <= rank_of(x) - rank_of(k) <= 1,
        (orthogonal(d1) == orthogonal(d2)) || (n1 == 1 && orthogonal(d1)),
    ensures
        n2 == 1,
{
    let a1 = d1.file as int;
    let b1 = d1.rank as int;
    let a2 = d2.file as int;
    let b2 = d2.rank as int;
    lemma_coords(file_of(a) + n1 * a1, rank_of(a) + n1 * b1);
    lemma_coords(file_of(a) + n2 * a2, rank_of(a) + n2 * b2);
    assert(n1 * a1 == (if a1 == 1 { n1 } else if a1 == -1 { -n1 } else { 0 })) by (nonlinear_arith)
        requires
            -1 <= a1 <= 1,
    ;
    assert(n1 * b1 == (if b1 == 1 { n1 } else if b1 == -1 { -n1 } else { 0 })) by (nonlinear_arith)
        requires
            -1 <= b1 <= 1,
    ;
    assert(n2 * a2 == (if a2 == 1 { n2 } else if a2 == -1 { -n2 } else { 0 })) by (nonlinear_arith)
        requires
            -1 <= a2 <= 1,
    ;
    assert(n2 * b2 == (if b2 == 1 { n2 } else if b2 == -1 { -n2 } else { 0 })) by (nonlinear_arith)
        requires
            -1 <= b2 <= 1,
    ;
    assert(d1 == d(a1, b1) && d2 == d(a2, b2));
}

/// The kind along whose steps, taken from the attacked square, a short-range piece of kind `y`
/// is found.
pub open spec fn step_finder(y: PieceType) -> PieceType {
    match y {
        PieceType::FU => PieceType::FU,
        PieceType::KE => PieceType::KE,
        PieceType::GI => PieceType::GI,
        _ => PieceType::KI,
    }
}

/// A short-range piece of kind `y` and color `c.opposite()` on `a` that steps to `b` is found
/// from `b` along the steps of `step_finder(y)` for `c`.
pub proof fn lemma_step_reverse(y: PieceType, c: Color, a: int, b: int)
    requires
        y == PieceType::FU || y == PieceType::KE || y == PieceType::GI || y == PieceType::KI || y == PieceType::TO
            || y == PieceType::NY || y == PieceType::NK || y == PieceType::NG,
        0 <= a < 81,
        step_attacks(a, step_deltas(y, c.opposite())).contains(b),
    ensures
        step_attacks(b, step_deltas(step_finder(y), c)).contains(a),
{
    let ds = step_deltas(y, c.opposite());
    let ds2 = step_deltas(step_finder(y), c);
    let i = choose|i: int| 0 <= i < ds.len() && #[trigger] shifted(a, ds[i].file as int, ds[i].rank as int) == Some(b);
    let e = ds[i];
    lemma_coords(file_of(a) + e.file, rank_of(a) + e.rank);
    lemma_square_coords(a);
    let f = step_finder(y);
    let j: int = if f == PieceType::FU {
        i
    } else if f == PieceType::KE {
        1 - i
    } else if f == PieceType::GI {
        if i == 0 {
            0
        } else if i == 1 {
            3
        } else if i == 2 {
            4
        } else if i == 3 {
            1
        } else {
            2
        }
    } else {
        if i == 0 {
            2
        } else if i == 1 {
            3
        } else if i == 2 {
            0
        } else if i == 3 {
            1
        } else if i == 4 {
            5
        } else {
            4
        }
    };
    assert(0 <= j < ds2.len() && ds2[j].file == -e.file && ds2[j].rank == -e.rank) by {
        match c {
            Color::Black => {},
            Color::White => {},
        }
    }
    assert(shifted(b, ds2[j].file as int, ds2[j].rank as int) == Some(a));
}

/// The squares between every two squares.
pub struct BetweenTable {
    /// Entry `81 * a + b`.
    table: Vec<Bitboard>,
}

impl BetweenTable {
    pub closed spec fn wf(self) -> bool {
        &&& self.table@.len() == 81 * 81
        &&& forall|a: int, b: int|
            #![trigger self.table@[81 * a + b]]
            0 <= a < 81 && 0 <= b < 81 ==> self.table@[81 * a + b]@ == between_set(a, b)
    }

    pub fn new() -> (r: Self)
        ensures
            r.wf(),
    {
        let mut table: Vec<Bitboard> = Vec::new();
        let mut a: i8 = 0;
        while a < 81
            invariant
                0 <= a <= 81,
                table@.len() == 81 * a,
                forall|x: int, y: int|
                    #![trigger table@[81 * x + y]]
                    0 <= x < a && 0 <= y < 81 ==> table@[81 * x + y]@ == between_set(x, y),
            decreases 81 - a,
        {
            let mut b: i8 = 0;
            while b < 81
                invariant
                    0 <= a < 81,
                    0 <= b <= 81,
                    table@.len() == 81 * a + b,
                    forall|x: int, y: int|
                        #![trigger table@[81 * x + y]]
                        (0 <= x < a && 0 <= y < 81) || (x == a && 0 <= y < b) ==> table@[81 * x + y]@ == between_set(x, y),
                decreases 81 - b,
            {
                let sq0 = Square(a);
                let sq1 = Square(b);
                let df = sq1.file().0 - sq0.file().0;
                let dr = sq1.rank().0 - sq0.rank().0;
                let entry = if (df == 0 && dr == 0) || (df != 0 && dr != 0 && df != dr && df != -dr) {
                    Bitboard::empty()
                } else {
                    let delta = Delta {
                        file: if df < 0 { -1 } else if df > 0 { 1 } else { 0 },
                        rank: if dr < 0 { -1 } else if dr > 0 { 1 } else { 0 },
                    };
                    let mut deltas: Vec<Delta> = Vec::new();
                    deltas.push(delta);
                    let target = Bitboard::single(sq1);
                    let ray = sliding_attacks(sq0, &target, &deltas);
                    let r = ray.andnot(target);
                    proof {
                        assert(delta == direction(a as int, b as int));
                        assert(ray_attacks(a as int, deltas@, target@) =~= Set::new(|t: int| in_ray(a as int, direction(a as int, b as int), Set::empty().insert(b as int), t))) by {
                            assert(deltas@[0] == delta);
                        }
                        assert(r@ =~= between_set(a as int, b as int));
                    }
                    r
                };
                proof {
                    if (df == 0 && dr == 0) || (df != 0 && dr != 0 && df != dr && df != -dr) {
                        assert(entry@ =~= between_set(a as int, b as int));
                    }
                }
                table.push(entry);
                b = b + 1;
                proof {
                    assert forall|x: int, y: int|
                        #![trigger table@[81 * x + y]]
                        (0 <= x < a && 0 <= y < 81) || (x == a && 0 <= y < b) implies table@[81 * x + y]@ == between_set(x, y) by {
                        if x == a && y == b - 1 {
                            assert(81 * x + y == 81 * a + b - 1);
                        }
                    }
                }
            }
            a = a + 1;
        }
        BetweenTable { table }
    }

    /// The squares strictly between `a` and `b` when they are aligned, else none.
    pub fn between(&self, a: Square, b: Square) -> (r: Bitboard)
        requires
            self.wf(),
            a.wf(),
            b.wf(),
        ensures
            r@ == between_set(a.0 as int, b.0 as int),
    {
        assert(self.table@[81 * (a.0 as int) + (b.0 as int)]@ == between_set(a.0 as int, b.0 as int));
        self.table[81 * a.index() + b.index()]
    }
}

} // verus!
