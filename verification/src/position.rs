use crate::bitboard::Bitboard;
use crate::color::Color;
use crate::hand::{has_hand_slot, hand_slot, Hand, Hands};
use crate::piece::{kind_code, kind_is_promotable, kind_promoted, Piece, PieceType};
use crate::shogi_move::{Move, MoveType};
use crate::square::Square;
use crate::tables::{
    between_set, hi_deltas, ka_deltas, lance_delta, lemma_line_injective, lemma_ray_reach, line_square, piece_attacks,
    ray_attacks, unit, AttackTable, BetweenTable, Delta,
};
use crate::zobrist::{Key, ZobristTable};
use std::rc::Rc;
use vstd::prelude::*;

verus! {

/// The tables a position reads: attacks, squares between, hash keys.
pub struct Tables {
    pub attack: AttackTable,
    pub between: BetweenTable,
    pub zobrist: ZobristTable,
}

impl Tables {
    pub open spec fn wf(self) -> bool {
        &&& self.attack.wf()
        &&& self.between.wf()
        &&& self.zobrist.wf()
    }

    pub fn new() -> (r: Self)
        ensures
            r.wf(),
            r.zobrist.drawn(),
    {
        Tables { attack: AttackTable::new(), between: BetweenTable::new(), zobrist: ZobristTable::new() }
    }
}

/// A position as plain values: side to move, ply, hands and board (by square index).
#[derive(Clone, Copy, Debug)]
pub struct PartialPosition {
    pub side: Color,
    pub ply: u16,
    pub hands: Hands,
    pub board: [Option<Piece>; 81],
}

impl PartialPosition {
    /// The count of hand slot `slot` of color `c`.
    pub open spec fn count(self, c: Color, slot: int) -> int {
        self.hands.of(c).0@[slot] as int
    }

    /// No count in hand exceeds 18, the number of pawns.
    pub open spec fn hands_in_range(self) -> bool {
        forall|c: Color, slot: int| 0 <= slot < 7 ==> #[trigger] self.count(c, slot) <= 18
    }

    /// Both describe the same position.
    pub open spec fn same(self, other: PartialPosition) -> bool {
        &&& self.side == other.side
        &&& self.ply == other.ply
        &&& self.board@ == other.board@
        &&& self.hands.of(Color::Black).0@ == other.hands.of(Color::Black).0@
        &&& self.hands.of(Color::White).0@ == other.hands.of(Color::White).0@
    }
}

/// Values that describe the same position are equal.
pub proof fn lemma_same_eq(a: PartialPosition, b: PartialPosition)
    requires
        a.same(b),
    ensures
        a == b,
{
    assert(a.board =~= b.board);
    assert(a.hands.0[0].0 =~= b.hands.0[0].0);
    assert(a.hands.0[1].0 =~= b.hands.0[1].0);
    assert(a.hands.0 =~= b.hands.0);
}

/// The occupied squares.
pub open spec fn occupied_set(p: PartialPosition) -> Set<int> {
    Set::new(|i: int| 0 <= i < 81 && p.board@[i] is Some)
}

/// The squares holding a piece of color `c`.
pub open spec fn color_set(p: PartialPosition, c: Color) -> Set<int> {
    Set::new(|i: int| 0 <= i < 81 && (p.board@[i] matches Some(q) && q.side() == c))
}

/// The squares holding a piece of kind `k`.
pub open spec fn kind_set(p: PartialPosition, k: PieceType) -> Set<int> {
    Set::new(|i: int| 0 <= i < 81 && (p.board@[i] matches Some(q) && q.kind() == k))
}

/// The lowest element of `s`, if any.
pub open spec fn lowest(s: Set<int>) -> Option<int> {
    if exists|i: int| #[trigger] s.contains(i) {
        Some(choose|i: int| s.contains(i) && forall|j: int| #[trigger] s.contains(j) ==> i <= j)
    } else {
        None
    }
}

/// The square of the king of color `c` (the lowest one, should there be several).
pub open spec fn king_square(p: PartialPosition, c: Color) -> Option<int> {
    lowest(color_set(p, c).intersect(kind_set(p, PieceType::OU)))
}

/// The hash key of what stands on square `i`.
pub open spec fn cell_key(zt: ZobristTable, i: int, cell: Option<Piece>) -> u64 {
    match cell {
        Some(p) => zt.board_key(i, p),
        None => 0,
    }
}

/// The keys of the first `n` squares, xor-ed.
pub open spec fn board_hash_upto(zt: ZobristTable, b: Seq<Option<Piece>>, n: nat) -> u64
    decreases n,
{
    if n == 0 {
        0
    } else {
        board_hash_upto(zt, b, (n - 1) as nat) ^ cell_key(zt, n - 1, b[n - 1])
    }
}

/// The keys of the first `n` pieces of hand slot `slot` of color `c`, xor-ed.
pub open spec fn count_hash(zt: ZobristTable, c: Color, slot: int, n: nat) -> u64
    decreases n,
{
    if n == 0 {
        0
    } else {
        count_hash(zt, c, slot, (n - 1) as nat) ^ zt.hand_key(c, slot, n - 1)
    }
}

/// The hash of the first `k` hand slots of color `c` holding `counts`.
pub open spec fn slots_hash(zt: ZobristTable, c: Color, counts: Seq<u8>, k: nat) -> u64
    decreases k,
{
    if k == 0 {
        0
    } else {
        slots_hash(zt, c, counts, (k - 1) as nat) ^ count_hash(zt, c, k - 1, counts[k - 1] as nat)
    }
}

/// The hash of the board.
pub open spec fn board_hash(zt: ZobristTable, p: PartialPosition) -> u64 {
    board_hash_upto(zt, p.board@, 81)
}

/// The hash of both hands.
pub open spec fn hand_hash(zt: ZobristTable, p: PartialPosition) -> u64 {
    slots_hash(zt, Color::Black, p.hands.of(Color::Black).0@, 7) ^ slots_hash(
        zt,
        Color::White,
        p.hands.of(Color::White).0@,
        7,
    )
}

proof fn lemma_xor_swap(a: u64, b: u64, c: u64, d: u64)
    by (bit_vector)
    ensures
        (a ^ b ^ c) ^ d == (a ^ d) ^ b ^ c,
        (a ^ b) ^ b ^ c == a ^ c,
        a ^ 0 == a,
        0 ^ a == a,
        (a ^ b) ^ (b ^ c) == a ^ c,
        (a ^ (b ^ c)) ^ b == a ^ c,
        (a ^ b) ^ c == (a ^ c) ^ b,
        c ^ (a ^ b) == (c ^ a) ^ b,
        0u64 & 1 == 0,
{
}

/// Changing what stands on square `i` changes the hash by the old and the new key of `i`.
pub proof fn lemma_board_hash_update(zt: ZobristTable, b: Seq<Option<Piece>>, i: int, v: Option<Piece>, n: nat)
    requires
        0 <= i < b.len(),
        n <= b.len(),
    ensures
        board_hash_upto(zt, b.update(i, v), n) == if i < n {
            board_hash_upto(zt, b, n) ^ cell_key(zt, i, b[i]) ^ cell_key(zt, i, v)
        } else {
            board_hash_upto(zt, b, n)
        },
    decreases n,
{
    if n > 0 {
        lemma_board_hash_update(zt, b, i, v, (n - 1) as nat);
        let b2 = b.update(i, v);
        if n - 1 == i {
            lemma_xor_swap(board_hash_upto(zt, b, (n - 1) as nat), cell_key(zt, i, b[i]), cell_key(zt, i, v), 0);
        } else if n - 1 > i {
            lemma_xor_swap(board_hash_upto(zt, b, (n - 1) as nat), cell_key(zt, i, b[i]), cell_key(zt, i, v), cell_key(zt, n - 1, b[n - 1]));
        }
    }
}

/// Changing the count of hand slot `s` changes the hash by the keys of both counts.
pub proof fn lemma_slots_hash_update(zt: ZobristTable, c: Color, counts: Seq<u8>, s: int, v: u8, k: nat)
    requires
        0 <= s < counts.len(),
        k <= counts.len(),
    ensures
        slots_hash(zt, c, counts.update(s, v), k) == if s < k {
            slots_hash(zt, c, counts, k) ^ count_hash(zt, c, s, counts[s] as nat) ^ count_hash(zt, c, s, v as nat)
        } else {
            slots_hash(zt, c, counts, k)
        },
    decreases k,
{
    if k > 0 {
        lemma_slots_hash_update(zt, c, counts, s, v, (k - 1) as nat);
        let x = slots_hash(zt, c, counts, (k - 1) as nat);
        if k - 1 == s {
            lemma_xor_swap(x, count_hash(zt, c, s, counts[s] as nat), count_hash(zt, c, s, v as nat), 0);
        } else if k - 1 > s {
            lemma_xor_swap(x, count_hash(zt, c, s, counts[s] as nat), count_hash(zt, c, s, v as nat), count_hash(zt, c, k - 1, counts[k - 1] as nat));
        }
    }
}

/// Adding one piece to a hand slot holding `n` changes the hand hash by the key of the
/// `n`-th piece; removing one from a slot holding `n + 1` changes it by the same key.
pub proof fn lemma_hand_hash_step(zt: ZobristTable, p: PartialPosition, q: PartialPosition, c: Color, s: int)
    requires
        0 <= s < 7,
        p.hands.of(c).0@.len() == 7,
        q.hands.of(c).0@ == p.hands.of(c).0@.update(s, q.hands.of(c).0@[s]),
        q.hands.of(c.opposite()).0@ == p.hands.of(c.opposite()).0@,
        q.count(c, s) == p.count(c, s) + 1 || p.count(c, s) == q.count(c, s) + 1,
    ensures
        hand_hash(zt, q) == hand_hash(zt, p) ^ zt.hand_key(
            c,
            s,
            if q.count(c, s) > p.count(c, s) { p.count(c, s) } else { q.count(c, s) },
        ),
{
    let a = p.hands.of(c).0@;
    let v = q.hands.of(c).0@[s];
    lemma_slots_hash_update(zt, c, a, s, v, 7);
    let n = if q.count(c, s) > p.count(c, s) { p.count(c, s) } else { q.count(c, s) };
    let key = zt.hand_key(c, s, n);
    let lo = count_hash(zt, c, s, n as nat);
    assert(count_hash(zt, c, s, (n + 1) as nat) == lo ^ key);
    let x = slots_hash(zt, c, a, 7);
    let y = slots_hash(zt, c.opposite(), p.hands.of(c.opposite()).0@, 7);
    lemma_xor_swap(x, lo, key, 0);
    lemma_xor_swap(x, key, y, 0);
    lemma_xor_swap(x, y, key, 0);
    lemma_xor_swap(x, key, y, 0);
    lemma_xor_swap(y, x, key, 0);
    lemma_xor_swap(x, key, y, 0);
}

/// The lowest element of a set of squares is its minimum.
pub proof fn lemma_lowest(s: Set<int>, x: int)
    requires
        s.contains(x),
        forall|j: int| #[trigger] s.contains(j) ==> x <= j,
    ensures
        lowest(s) == Some(x),
{
    let y = choose|i: int| s.contains(i) && forall|j: int| #[trigger] s.contains(j) ==> i <= j;
    assert(s.contains(y) && forall|j: int| #[trigger] s.contains(j) ==> y <= j);
    assert(x <= y && y <= x);
}

/// A position with the bitboards that index its board.
pub struct Inner {
    pp: PartialPosition,
    player_bb: [Bitboard; 2],
    piece_bb: [Bitboard; 14],
}

impl Inner {
    /// The bitboards hold exactly the squares of each color and of each kind.
    pub closed spec fn wf(self) -> bool {
        &&& forall|c: Color| #[trigger] self.player_bb@[c.idx()]@ == color_set(self.pp, c)
        &&& forall|k: PieceType| #[trigger] self.piece_bb@[kind_code(k)]@ == kind_set(self.pp, k)
    }

    pub closed spec fn model(self) -> PartialPosition {
        self.pp
    }

    /// Builds the bitboards of `pp`.
    fn from_partial(pp: PartialPosition) -> (r: Self)
        ensures
            r.wf(),
            r.model() == pp,
    {
        let mut player_bb = [Bitboard::empty(), Bitboard::empty()];
        let mut piece_bb = [
            Bitboard::empty(), Bitboard::empty(), Bitboard::empty(), Bitboard::empty(),
            Bitboard::empty(), Bitboard::empty(), Bitboard::empty(), Bitboard::empty(),
            Bitboard::empty(), Bitboard::empty(), Bitboard::empty(), Bitboard::empty(),
            Bitboard::empty(), Bitboard::empty(),
        ];
        let mut i: i8 = 0;
        while i < 81
            invariant
                0 <= i <= 81,
                forall|c: Color| #[trigger] player_bb@[c.idx()]@ == color_set(pp, c).intersect(Set::new(|t: int| t < i)),
                forall|k: PieceType| #[trigger] piece_bb@[kind_code(k)]@ == kind_set(pp, k).intersect(Set::new(|t: int| t < i)),
            decreases 81 - i,
        {
            let sq = Square(i);
            let ghost before_player = player_bb@;
            let ghost before_piece = piece_bb@;
            match pp.board[sq.index()] {
                Some(p) => {
                    let single = Bitboard::single(sq);
                    let c = p.color().index();
                    let k = p.piece_type().index();
                    player_bb[c] = player_bb[c].or(single);
                    piece_bb[k] = piece_bb[k].or(single);
                    proof {
                        crate::piece::lemma_kind_code(p.kind());
                    }
                },
                None => {},
            }
            i = i + 1;
            proof {
                assert forall|c: Color| #[trigger] player_bb@[c.idx()]@ == color_set(pp, c).intersect(Set::new(|t: int| t < i)) by {
                    assert(player_bb@[c.idx()]@ =~= color_set(pp, c).intersect(Set::new(|t: int| t < i)));
                }
                assert forall|k: PieceType| #[trigger] piece_bb@[kind_code(k)]@ == kind_set(pp, k).intersect(Set::new(|t: int| t < i)) by {
                    crate::piece::lemma_kind_code(k);
                    if pp.board@[i - 1] is Some {
                        crate::piece::lemma_kind_code(pp.board@[i - 1]->0.kind());
                    }
                    assert(piece_bb@[kind_code(k)]@ =~= kind_set(pp, k).intersect(Set::new(|t: int| t < i)));
                }
            }
        }
        let r = Inner { pp, player_bb, piece_bb };
        assert forall|c: Color| #[trigger] r.player_bb@[c.idx()]@ == color_set(pp, c) by {
            assert(color_set(pp, c).intersect(Set::new(|t: int| t < 81)) =~= color_set(pp, c));
        }
        assert forall|k: PieceType| #[trigger] r.piece_bb@[kind_code(k)]@ == kind_set(pp, k) by {
            assert(kind_set(pp, k).intersect(Set::new(|t: int| t < 81)) =~= kind_set(pp, k));
        }
        r
    }
}

impl Inner {
    /// Takes the piece off square `sq`.
    fn remove_piece(&mut self, sq: Square)
        requires
            old(self).wf(),
            sq.wf(),
            old(self).model().board@[sq.0 as int] is Some,
        ensures
            final(self).wf(),
            final(self).model().board@ == old(self).model().board@.update(sq.0 as int, None),
            final(self).model().side == old(self).model().side,
            final(self).model().ply == old(self).model().ply,
            final(self).model().hands == old(self).model().hands,
    {
        let p = self.pp.board[sq.index()].unwrap();
        let single = Bitboard::single(sq);
        let c = p.color().index();
        let k = p.piece_type().index();
        let ghost old_inner = *self;
        self.player_bb[c] = self.player_bb[c].xor(single);
        self.piece_bb[k] = self.piece_bb[k].xor(single);
        self.pp.board[sq.index()] = None;
        proof {
            crate::piece::lemma_kind_code(p.kind());
            assert forall|cc: Color| #[trigger] self.player_bb@[cc.idx()]@ == color_set(self.pp, cc) by {
                assert(old_inner.player_bb@[cc.idx()]@ == color_set(old_inner.pp, cc));
                assert(self.player_bb@[cc.idx()]@ =~= color_set(self.pp, cc));
            }
            assert forall|kk: PieceType| #[trigger] self.piece_bb@[kind_code(kk)]@ == kind_set(self.pp, kk) by {
                crate::piece::lemma_kind_code(kk);
                assert(old_inner.piece_bb@[kind_code(kk)]@ == kind_set(old_inner.pp, kk));
                assert(self.piece_bb@[kind_code(kk)]@ =~= kind_set(self.pp, kk));
            }
        }
    }

    /// Puts piece `p` on the empty square `sq`.
    fn put_piece(&mut self, sq: Square, p: Piece)
        requires
            old(self).wf(),
            sq.wf(),
            old(self).model().board@[sq.0 as int] is None,
        ensures
            final(self).wf(),
            final(self).model().board@ == old(self).model().board@.update(sq.0 as int, Some(p)),
            final(self).model().side == old(self).model().side,
            final(self).model().ply == old(self).model().ply,
            final(self).model().hands == old(self).model().hands,
    {
        let single = Bitboard::single(sq);
        let c = p.color().index();
        let k = p.piece_type().index();
        let ghost old_inner = *self;
        self.player_bb[c] = self.player_bb[c].xor(single);
        self.piece_bb[k] = self.piece_bb[k].xor(single);
        self.pp.board[sq.index()] = Some(p);
        proof {
            crate::piece::lemma_kind_code(p.kind());
            assert forall|cc: Color| #[trigger] self.player_bb@[cc.idx()]@ == color_set(self.pp, cc) by {
                assert(old_inner.player_bb@[cc.idx()]@ == color_set(old_inner.pp, cc));
                assert(self.player_bb@[cc.idx()]@ =~= color_set(self.pp, cc));
            }
            assert forall|kk: PieceType| #[trigger] self.piece_bb@[kind_code(kk)]@ == kind_set(self.pp, kk) by {
                crate::piece::lemma_kind_code(kk);
                assert(old_inner.piece_bb@[kind_code(kk)]@ == kind_set(old_inner.pp, kk));
                assert(self.piece_bb@[kind_code(kk)]@ =~= kind_set(self.pp, kk));
            }
        }
    }

    /// The squares of the pieces of color `c`.
    fn player_bitboard(&self, c: Color) -> (r: Bitboard)
        requires
            self.wf(),
        ensures
            r@ == color_set(self.model(), c),
    {
        self.player_bb[c.index()]
    }

    /// The squares of the pieces of kind `k`.
    fn kind_bitboard(&self, k: PieceType) -> (r: Bitboard)
        requires
            self.wf(),
        ensures
            r@ == kind_set(self.model(), k),
    {
        self.piece_bb[k.index()]
    }

    /// The occupied squares.
    fn occupied_bitboard(&self) -> (r: Bitboard)
        requires
            self.wf(),
        ensures
            r@ == occupied_set(self.model()),
    {
        let r = self.player_bb[0].or(self.player_bb[1]);
        assert(self.player_bb@[Color::Black.idx()]@ == color_set(self.pp, Color::Black));
        assert(self.player_bb@[Color::White.idx()]@ == color_set(self.pp, Color::White));
        assert(r@ =~= occupied_set(self.pp));
        r
    }

    /// The square of the king of color `c`.
    fn king_position(&self, c: Color) -> (r: Option<Square>)
        requires
            self.wf(),
        ensures
            r matches Some(s) ==> s.wf() && king_square(self.model(), c) == Some(s.0 as int),
            r is None ==> king_square(self.model(), c) is None,
    {
        let mut bb = self.player_bitboard(c).and(self.kind_bitboard(PieceType::OU));
        let ghost s = bb@;
        let r = bb.pop();
        proof {
            match r {
                Some(sq) => {
                    lemma_lowest(s, sq.0 as int);
                },
                None => {
                    assert(!exists|i: int| #[trigger] s.contains(i));
                },
            }
        }
        r
    }
}

/// The squares of the pieces that move like a gold: KI, TO, NY, NK, NG, and UM for its
/// orthogonal steps.
pub open spec fn gold_movers(p: PartialPosition) -> Set<int> {
    kind_set(p, PieceType::KI).union(kind_set(p, PieceType::TO)).union(kind_set(p, PieceType::NY)).union(
        kind_set(p, PieceType::NK),
    ).union(kind_set(p, PieceType::NG)).union(kind_set(p, PieceType::UM))
}

/// The opponent pieces that attack the king of the side to move, found from the king's square
/// (a RY reaches it diagonally as a GI does, a UM orthogonally as a KI does).
pub open spec fn checkers_spec(p: PartialPosition) -> Set<int> {
    match king_square(p, p.side) {
        Some(sq) => {
            let c = p.side;
            let occ = occupied_set(p);
            piece_attacks(PieceType::FU, sq, c, occ).intersect(kind_set(p, PieceType::FU)).union(
                piece_attacks(PieceType::KY, sq, c, occ).intersect(kind_set(p, PieceType::KY)),
            ).union(piece_attacks(PieceType::KE, sq, c, occ).intersect(kind_set(p, PieceType::KE))).union(
                piece_attacks(PieceType::GI, sq, c, occ).intersect(
                    kind_set(p, PieceType::GI).union(kind_set(p, PieceType::RY)),
                ),
            ).union(
                piece_attacks(PieceType::KA, sq, c, occ).intersect(
                    kind_set(p, PieceType::KA).union(kind_set(p, PieceType::UM)),
                ),
            ).union(
                piece_attacks(PieceType::HI, sq, c, occ).intersect(
                    kind_set(p, PieceType::HI).union(kind_set(p, PieceType::RY)),
                ),
            ).union(piece_attacks(PieceType::KI, sq, c, occ).intersect(gold_movers(p))).intersect(
                color_set(p, c.opposite()),
            )
        },
        None => Set::empty(),
    }
}

/// The opponent sliders whose lines over an empty board reach the king of `c` on `sq`.
pub open spec fn snipers_spec(p: PartialPosition, c: Color, sq: int) -> Set<int> {
    piece_attacks(PieceType::KY, sq, c, Set::empty()).intersect(kind_set(p, PieceType::KY)).union(
        piece_attacks(PieceType::KA, sq, c, Set::empty()).intersect(
            kind_set(p, PieceType::KA).union(kind_set(p, PieceType::UM)),
        ),
    ).union(
        piece_attacks(PieceType::HI, sq, c, Set::empty()).intersect(
            kind_set(p, PieceType::HI).union(kind_set(p, PieceType::RY)),
        ),
    ).intersect(color_set(p, c.opposite()))
}

/// The occupied squares between `sq` and `s`.
pub open spec fn blockers(p: PartialPosition, sq: int, s: int) -> Set<int> {
    between_set(sq, s).intersect(occupied_set(p))
}

/// `b` is the one piece between the king's square `sq` and the sniper on `s`.
pub open spec fn pins(p: PartialPosition, sq: int, s: int, b: int) -> bool {
    blockers(p, sq, s).len() == 1 && blockers(p, sq, s).contains(b)
}

/// The pieces (of either color) that alone stand between the king of `c` and an opponent
/// sniper.
pub open spec fn pinned_spec(p: PartialPosition, c: Color) -> Set<int> {
    match king_square(p, c) {
        Some(sq) => Set::new(
            |b: int| exists|s: int| snipers_spec(p, c, sq).contains(s) && #[trigger] pins(p, sq, s, b),
        ),
        None => Set::empty(),
    }
}

/// The squares from which a piece of kind `pk` of the side to move would attack the opponent
/// king.
pub open spec fn checkables_spec(p: PartialPosition, pk: PieceType) -> Set<int> {
    let opp = p.side.opposite();
    match king_square(p, opp) {
        Some(sq) => {
            let occ = occupied_set(p);
            match pk {
                PieceType::TO | PieceType::NY | PieceType::NK | PieceType::NG => piece_attacks(
                    PieceType::KI,
                    sq,
                    opp,
                    occ,
                ),
                PieceType::OU => Set::empty(),
                PieceType::UM => piece_attacks(PieceType::KA, sq, opp, occ).union(
                    piece_attacks(PieceType::KI, sq, opp, occ),
                ),
                PieceType::RY => piece_attacks(PieceType::HI, sq, opp, occ).union(
                    piece_attacks(PieceType::GI, sq, opp, occ),
                ),
                _ => piece_attacks(pk, sq, opp, occ),
            }
        },
        None => Set::empty(),
    }
}

/// What a position records of the attacks: the checkers, the squares from which each kind would
/// give check, and the pinned pieces of each color.
#[derive(Clone, Copy)]
pub struct AttackInfo {
    checkers: Bitboard,
    checkables: [Bitboard; 14],
    pinned: [Bitboard; 2],
}

impl AttackInfo {
    pub closed spec fn checkers_set(self) -> Set<int> {
        self.checkers@
    }

    pub closed spec fn pinned_set(self, c: Color) -> Set<int> {
        self.pinned@[c.idx()]@
    }

    pub closed spec fn checkable_set(self, pk: PieceType) -> Set<int> {
        self.checkables@[kind_code(pk)]@
    }

    /// The pinned pieces and the checking squares are those of `p`.
    pub open spec fn describes(self, p: PartialPosition) -> bool {
        &&& forall|c: Color| #[trigger] self.pinned_set(c) == pinned_spec(p, c)
        &&& forall|pk: PieceType| #[trigger] self.checkable_set(pk) == checkables_spec(p, pk)
    }

    /// The opponent pieces attacking the king of the side to move.
    pub fn calculate_checkers(pos: &Inner, tables: &Tables) -> (r: Bitboard)
        requires
            pos.wf(),
            tables.wf(),
        ensures
            r@ == checkers_spec(pos.model()),
    {
        let c = pos.pp.side;
        let occ = pos.occupied_bitboard();
        match pos.king_position(c) {
            Some(sq) => {
                let a = &tables.attack;
                let fu = a.attack(PieceType::FU, sq, c, &occ).and(pos.kind_bitboard(PieceType::FU));
                let ky = a.attack(PieceType::KY, sq, c, &occ).and(pos.kind_bitboard(PieceType::KY));
                let ke = a.attack(PieceType::KE, sq, c, &occ).and(pos.kind_bitboard(PieceType::KE));
                let gi = a.attack(PieceType::GI, sq, c, &occ).and(
                    pos.kind_bitboard(PieceType::GI).or(pos.kind_bitboard(PieceType::RY)),
                );
                let ka = a.attack(PieceType::KA, sq, c, &occ).and(
                    pos.kind_bitboard(PieceType::KA).or(pos.kind_bitboard(PieceType::UM)),
                );
                let hi = a.attack(PieceType::HI, sq, c, &occ).and(
                    pos.kind_bitboard(PieceType::HI).or(pos.kind_bitboard(PieceType::RY)),
                );
                let golds = pos.kind_bitboard(PieceType::KI).or(pos.kind_bitboard(PieceType::TO)).or(
                    pos.kind_bitboard(PieceType::NY),
                ).or(pos.kind_bitboard(PieceType::NK)).or(pos.kind_bitboard(PieceType::NG)).or(
                    pos.kind_bitboard(PieceType::UM),
                );
                let ki = a.attack(PieceType::KI, sq, c, &occ).and(golds);
                fu.or(ky).or(ke).or(gi).or(ka).or(hi).or(ki).and(pos.player_bitboard(c.flip()))
            },
            None => {
                let r = Bitboard::empty();
                r
            },
        }
    }

    /// The pinned pieces of the king of `c`.
    fn pinned_of(pos: &Inner, tables: &Tables, c: Color) -> (r: Bitboard)
        requires
            pos.wf(),
            tables.wf(),
        ensures
            r@ == pinned_spec(pos.model(), c),
    {
        let ghost p = pos.model();
        let mut pinned = Bitboard::empty();
        match pos.king_position(c) {
            Some(sq) => {
                let ghost k = sq.0 as int;
                let occ = pos.occupied_bitboard();
                let a = &tables.attack;
                let opp = pos.player_bitboard(c.flip());
                let ky = a.pseudo_attack(PieceType::KY, sq, c).and(pos.kind_bitboard(PieceType::KY));
                let ka = a.pseudo_attack(PieceType::KA, sq, c).and(
                    pos.kind_bitboard(PieceType::KA).or(pos.kind_bitboard(PieceType::UM)),
                );
                let hi = a.pseudo_attack(PieceType::HI, sq, c).and(
                    pos.kind_bitboard(PieceType::HI).or(pos.kind_bitboard(PieceType::RY)),
                );
                let snipers = ky.or(ka).or(hi).and(opp);
                assert(snipers@ == snipers_spec(p, c, k));
                let mut rest = snipers;
                while !rest.is_empty()
                    invariant
                        pos.wf(),
                        tables.wf(),
                        p == pos.model(),
                        sq.wf(),
                        k == sq.0,
                        occ@ == occupied_set(p),
                        rest@.subset_of(snipers@),
                        snipers@ == snipers_spec(p, c, k),
                        pinned@ == Set::new(
                            |b: int|
                                exists|s: int|
                                    snipers@.contains(s) && !rest@.contains(s) && #[trigger] pins(p, k, s, b),
                        ),
                    decreases rest@.len(),
                {
                    proof {
                        rest.lemma_view_on_board();
                    }
                    let ghost before = rest@;
                    let ghost pinned_before = pinned@;
                    let sniper = rest.pop().unwrap();
                    let ghost x = sniper.0 as int;
                    let between = tables.between.between(sq, sniper).and(occ);
                    assert(between@ == blockers(p, k, x));
                    if between.count() == 1 {
                        pinned = pinned.or(between);
                    }
                    proof {
                        let target = Set::new(
                            |b: int|
                                exists|s: int|
                                    snipers@.contains(s) && !rest@.contains(s) && #[trigger] pins(p, k, s, b),
                        );
                        assert forall|b: int| pinned@.contains(b) <==> target.contains(b) by {
                            if pinned@.contains(b) {
                                if pinned_before.contains(b) {
                                    let s = choose|s: int|
                                        snipers@.contains(s) && !before.contains(s) && #[trigger] pins(p, k, s, b);
                                    assert(snipers@.contains(s) && !rest@.contains(s) && pins(p, k, s, b));
                                } else {
                                    assert(pins(p, k, x, b));
                                }
                            }
                            if target.contains(b) {
                                let s = choose|s: int|
                                    snipers@.contains(s) && !rest@.contains(s) && #[trigger] pins(p, k, s, b);
                                if s != x {
                                    assert(pinned_before.contains(b));
                                }
                            }
                        }
                        assert(pinned@ =~= target);
                    }
                }
                proof {
                    assert(pinned@ =~= pinned_spec(p, c));
                }
                pinned
            },
            None => {
                assert(pinned@ =~= pinned_spec(p, c));
                pinned
            },
        }
    }

    /// The attack information of `pos`, with the given checkers.
    pub fn new(checkers: Bitboard, pos: &Inner, tables: &Tables) -> (r: Self)
        requires
            pos.wf(),
            tables.wf(),
        ensures
            r.checkers_set() == checkers@,
            r.describes(pos.model()),
    {
        let ghost p = pos.model();
        let pinned = [
            AttackInfo::pinned_of(pos, tables, Color::Black),
            AttackInfo::pinned_of(pos, tables, Color::White),
        ];
        let opp = pos.pp.side.flip();
        let occ = pos.occupied_bitboard();
        match pos.king_position(opp) {
            Some(sq) => {
                let a = &tables.attack;
                let ka = a.attack(PieceType::KA, sq, opp, &occ);
                let hi = a.attack(PieceType::HI, sq, opp, &occ);
                let ki = a.attack(PieceType::KI, sq, opp, &occ);
                let gi = a.attack(PieceType::GI, sq, opp, &occ);
                let checkables = [
                    a.attack(PieceType::FU, sq, opp, &occ),
                    a.attack(PieceType::KY, sq, opp, &occ),
                    a.attack(PieceType::KE, sq, opp, &occ),
                    gi,
                    ka,
                    hi,
                    ki,
                    Bitboard::empty(),
                    ki,
                    ki,
                    ki,
                    ki,
                    ka.or(ki),
                    hi.or(gi),
                ];
                let r = AttackInfo { checkers, checkables, pinned };
                assert forall|pk: PieceType| #[trigger] r.checkable_set(pk) == checkables_spec(p, pk) by {
                    match pk {
                        PieceType::OU => {
                            assert(r.checkable_set(pk) =~= checkables_spec(p, pk));
                        },
                        _ => {},
                    }
                }
                assert forall|c: Color| #[trigger] r.pinned_set(c) == pinned_spec(p, c) by {
                    match c {
                        Color::Black => {},
                        Color::White => {},
                    }
                }
                r
            },
            None => {
                let e = Bitboard::empty();
                let r = AttackInfo { checkers, checkables: [e, e, e, e, e, e, e, e, e, e, e, e, e, e], pinned };
                assert forall|pk: PieceType| #[trigger] r.checkable_set(pk) == checkables_spec(p, pk) by {
                    crate::piece::lemma_kind_code(pk);
                    assert(r.checkable_set(pk) =~= checkables_spec(p, pk));
                }
                assert forall|c: Color| #[trigger] r.pinned_set(c) == pinned_spec(p, c) by {
                    match c {
                        Color::Black => {},
                        Color::White => {},
                    }
                }
                r
            },
        }
    }

    pub fn checkers(&self) -> (r: Bitboard)
        ensures
            r@ == self.checkers_set(),
    {
        self.checkers
    }

    pub fn pinned(&self, c: Color) -> (r: Bitboard)
        ensures
            r@ == self.pinned_set(c),
    {
        self.pinned[c.index()]
    }

    /// Whether a piece of kind `pk` on `sq` would give check.
    pub fn checkable(&self, pk: PieceType, sq: Square) -> (r: bool)
        requires
            sq.wf(),
        ensures
            r == self.checkable_set(pk).contains(sq.0 as int),
    {
        self.checkables[pk.index()].contains(sq)
    }
}

/// Kinds held in hand: the unpromoted kinds but the king.
pub open spec fn hand_kind(pk: PieceType) -> bool {
    kind_code(pk) <= 6
}

/// The hands with one more piece in slot `slot` of color `c`.
pub open spec fn hands_added(h: Hands, c: Color, slot: int) -> Hands {
    Hands(
        vstd::array::spec_array_update(
            h.0,
            c.idx(),
            Hand(vstd::array::spec_array_update(h.of(c).0, slot, (h.of(c).0@[slot] + 1) as u8)),
        ),
    )
}

/// The hands with one piece less in slot `slot` of color `c`.
pub open spec fn hands_removed(h: Hands, c: Color, slot: int) -> Hands {
    Hands(
        vstd::array::spec_array_update(
            h.0,
            c.idx(),
            Hand(vstd::array::spec_array_update(h.of(c).0, slot, (h.of(c).0@[slot] - 1) as u8)),
        ),
    )
}

/// The moves that `do_move` takes on `p`: a normal move from an occupied square to another
/// square, promoting only a piece that can, capturing no king and no 19th piece of a kind; a
/// drop of a kind held in hand onto an empty square. The ply must not overflow.
pub open spec fn can_apply(p: PartialPosition, m: Move) -> bool {
    &&& p.ply < 65535
    &&& match m@ {
        MoveType::Normal { from, to, is_promotion, piece: _ } => {
            &&& from != to
            &&& p.board@[from.0 as int] is Some
            &&& (is_promotion ==> kind_is_promotable(p.board@[from.0 as int]->0.kind()))
            &&& match p.board@[to.0 as int] {
                Some(q) => q.kind() != PieceType::OU && p.count(p.side, hand_slot(q.kind())) < 18,
                None => true,
            }
        },
        MoveType::Drop { to, piece } => {
            &&& p.board@[to.0 as int] is None
            &&& hand_kind(piece.kind())
            &&& p.count(p.side, hand_slot(piece.kind())) > 0
        },
    }
}

/// The piece that move `m` takes off square `to`, if any.
pub open spec fn captured_by(p: PartialPosition, m: Move) -> Option<Piece> {
    match m@ {
        MoveType::Normal { from: _, to, is_promotion: _, piece: _ } => p.board@[to.0 as int],
        MoveType::Drop { to: _, piece: _ } => None,
    }
}

/// The piece that move `m` moves or drops, as it was before the move.
pub open spec fn moved_by(p: PartialPosition, m: Move) -> Option<Piece> {
    match m@ {
        MoveType::Normal { from, to: _, is_promotion: _, piece: _ } => p.board@[from.0 as int],
        MoveType::Drop { to: _, piece } => Some(piece),
    }
}

/// The position after move `m`: the moving piece (promoted if asked) goes to `to`, a captured
/// piece goes to the mover's hand as its unpromoted kind, a dropped piece leaves the hand, the
/// other side moves next and the ply grows by one.
pub open spec fn after_move(p: PartialPosition, m: Move) -> PartialPosition {
    match m@ {
        MoveType::Normal { from, to, is_promotion, piece: _ } => {
            let moving = p.board@[from.0 as int]->0;
            let placed = if is_promotion {
                Piece::make(moving.side(), kind_promoted(moving.kind()))
            } else {
                moving
            };
            PartialPosition {
                side: p.side.opposite(),
                ply: (p.ply + 1) as u16,
                hands: match p.board@[to.0 as int] {
                    Some(q) => hands_added(p.hands, p.side, hand_slot(q.kind())),
                    None => p.hands,
                },
                board: vstd::array::spec_array_update(
                    vstd::array::spec_array_update(p.board, from.0 as int, None),
                    to.0 as int,
                    Some(placed),
                ),
            }
        },
        MoveType::Drop { to, piece } => PartialPosition {
            side: p.side.opposite(),
            ply: (p.ply + 1) as u16,
            hands: hands_removed(p.hands, p.side, hand_slot(piece.kind())),
            board: vstd::array::spec_array_update(p.board, to.0 as int, Some(piece)),
        },
    }
}

/// The position before move `m`, rebuilt from the position after it, the piece it captured and
/// the piece it moved.
pub open spec fn before_move(q: PartialPosition, m: Move, captured: Option<Piece>, moved: Option<Piece>) -> PartialPosition {
    let c = q.side.opposite();
    match m@ {
        MoveType::Normal { from, to, is_promotion: _, piece: _ } => PartialPosition {
            side: c,
            ply: (q.ply - 1) as u16,
            hands: match captured {
                Some(x) => hands_removed(q.hands, c, hand_slot(x.kind())),
                None => q.hands,
            },
            board: vstd::array::spec_array_update(
                vstd::array::spec_array_update(q.board, from.0 as int, moved),
                to.0 as int,
                captured,
            ),
        },
        MoveType::Drop { to, piece } => PartialPosition {
            side: c,
            ply: (q.ply - 1) as u16,
            hands: hands_added(q.hands, c, hand_slot(piece.kind())),
            board: vstd::array::spec_array_update(q.board, to.0 as int, None),
        },
    }
}

/// Whether move `m` gives check: the moved (or promoted, or dropped) kind lands on a square
/// from which it attacks the opponent king, or the moved piece was pinned against that king and
/// leaves the line.
pub open spec fn gives_check(p: PartialPosition, m: Move) -> bool {
    match m@ {
        MoveType::Normal { from, to, is_promotion, piece: _ } => {
            let pk = p.board@[from.0 as int]->0.kind();
            let landed = if is_promotion {
                kind_promoted(pk)
            } else {
                pk
            };
            let opp = p.side.opposite();
            ||| checkables_spec(p, landed).contains(to.0 as int)
            ||| (pinned_spec(p, opp).contains(from.0 as int) && match king_square(p, opp) {
                Some(sq) => !(between_set(sq, from.0 as int).contains(to.0 as int) || between_set(
                    sq,
                    to.0 as int,
                ).contains(from.0 as int)),
                None => false,
            })
        },
        MoveType::Drop { to, piece } => checkables_spec(p, piece.kind()).contains(to.0 as int),
    }
}

/// The checkers recorded after move `m` from `p`: none when the move gives no check, the
/// dropped piece for a checking drop, and those found on the new position for a checking
/// normal move.
pub open spec fn checkers_after(p: PartialPosition, m: Move) -> Set<int> {
    if gives_check(p, m) {
        match m@ {
            MoveType::Normal { from: _, to: _, is_promotion: _, piece: _ } => checkers_spec(after_move(p, m)),
            MoveType::Drop { to, piece: _ } => Set::empty().insert(to.0 as int),
        }
    } else {
        Set::empty()
    }
}

/// The side-to-move bit of the board key in a game that started with `start` to move: set when
/// the other side is to move. Each move flips it.
pub open spec fn side_bit(c: Color, start: Color) -> u64 {
    if c == start {
        0u64
    } else {
        1u64
    }
}

/// The hash keys of `p` (the board with the side to move, and the hands) in a game that started
/// with `start` to move.
pub open spec fn keys_spec(t: Tables, p: PartialPosition, start: Color) -> (u64, u64) {
    (board_hash(t.zobrist, p) ^ side_bit(p.side, start), hand_hash(t.zobrist, p))
}

/// What a position records at each of its steps.
#[derive(Clone, Copy)]
pub struct State {
    keys: (Key, Key),
    captured: Option<Piece>,
    last_moved: Option<Piece>,
    attack_info: AttackInfo,
}

impl State {
    pub closed spec fn key_values(self) -> (u64, u64) {
        (self.keys.0.0, self.keys.1.0)
    }

    pub closed spec fn captured_piece(self) -> Option<Piece> {
        self.captured
    }

    pub closed spec fn moved_piece(self) -> Option<Piece> {
        self.last_moved
    }

    pub closed spec fn info(self) -> AttackInfo {
        self.attack_info
    }

    /// The keys and attack information are those of `p`.
    pub open spec fn describes(self, t: Tables, p: PartialPosition, start: Color) -> bool {
        &&& self.key_values() == keys_spec(t, p, start)
        &&& self.info().describes(p)
    }

    pub fn new(keys: (Key, Key), captured: Option<Piece>, last_moved: Option<Piece>, attack_info: AttackInfo) -> (r: Self)
        ensures
            r.key_values() == (keys.0.0, keys.1.0),
            r.captured_piece() == captured,
            r.moved_piece() == last_moved,
            r.info() == attack_info,
    {
        State { keys, captured, last_moved, attack_info }
    }

    /// Both keys xor-ed.
    pub fn key(&self) -> (r: u64)
        ensures
            r == self.key_values().0 ^ self.key_values().1,
    {
        self.keys.0.value() ^ self.keys.1.value()
    }

    pub fn keys(&self) -> (r: (u64, u64))
        ensures
            r == self.key_values(),
    {
        (self.keys.0.value(), self.keys.1.value())
    }

    pub fn captured(&self) -> (r: Option<Piece>)
        ensures
            r == self.captured_piece(),
    {
        self.captured
    }

    pub fn last_moved(&self) -> (r: Option<Piece>)
        ensures
            r == self.moved_piece(),
    {
        self.last_moved
    }

    pub fn attack_info(&self) -> (r: AttackInfo)
        ensures
            r == self.info(),
    {
        self.attack_info
    }
}

/// The hash of the board of `pp`.
fn hash_board(zt: &ZobristTable, pp: &PartialPosition) -> (r: u64)
    requires
        zt.wf(),
    ensures
        r == board_hash(*zt, *pp),
{
    let mut h = Key::zero();
    let mut i: i8 = 0;
    while i < 81
        invariant
            0 <= i <= 81,
            zt.wf(),
            h.0 == board_hash_upto(*zt, pp.board@, i as nat),
        decreases 81 - i,
    {
        match pp.board[i as usize] {
            Some(p) => {
                h = h.xor(zt.board(Square(i), p));
            },
            None => {
                proof {
                    lemma_xor_swap(h.0, 0, 0, 0);
                }
            },
        }
        i = i + 1;
    }
    h.value()
}

/// The hash of the hand `hand` of color `c`.
fn hash_hand(zt: &ZobristTable, c: Color, hand: Hand) -> (r: u64)
    requires
        zt.wf(),
        forall|slot: int| 0 <= slot < 7 ==> #[trigger] hand.0@[slot] <= 18,
    ensures
        r == slots_hash(*zt, c, hand.0@, 7),
{
    let kinds = PieceType::all_hand();
    let mut h = Key::zero();
    let mut k: usize = 0;
    while k < 7
        invariant
            0 <= k <= 7,
            zt.wf(),
            forall|slot: int| 0 <= slot < 7 ==> #[trigger] hand.0@[slot] <= 18,
            kinds@ == seq![
                PieceType::FU,
                PieceType::KY,
                PieceType::KE,
                PieceType::GI,
                PieceType::KI,
                PieceType::KA,
                PieceType::HI,
            ],
            h.0 == slots_hash(*zt, c, hand.0@, k as nat),
        decreases 7 - k,
    {
        let pk = kinds[k];
        assert(hand_slot(pk) == k);
        let num = hand.num(pk);
        let mut x = Key::zero();
        let mut n: u8 = 0;
        while n < num
            invariant
                0 <= n <= num,
                num <= 18,
                num == hand.0@[k as int],
                hand_slot(pk) == k,
                has_hand_slot(pk),
                zt.wf(),
                x.0 == count_hash(*zt, c, k as int, n as nat),
            decreases num - n,
        {
            x = x.xor(zt.hand(c, pk, n));
            n = n + 1;
        }
        h = h.xor(x);
        k = k + 1;
    }
    h.value()
}

/// `Rc::clone` on the tables: another pointer to the same allocation. Claimed: it points to a
/// value equal to the one `tables` points to.
#[verifier::external_body]
fn share_tables(tables: &Rc<Tables>) -> (r: Rc<Tables>)
    ensures
        *r == **tables,
{
    Rc::clone(tables)
}

/// A game state with its history of moves, which can be done and undone.
pub struct Position {
    inner: Inner,
    states: Vec<State>,
    tables: Rc<Tables>,
    start: Ghost<Color>,
    past: Ghost<Seq<PartialPosition>>,
    played: Ghost<Seq<Move>>,
}

impl Position {
    /// The current position.
    pub closed spec fn model(self) -> PartialPosition {
        self.inner.pp
    }

    /// The side to move when the position was created.
    pub closed spec fn start_side(self) -> Color {
        self.start@
    }

    /// The positions before each move done so far, oldest first.
    pub closed spec fn past(self) -> Seq<PartialPosition> {
        self.past@
    }

    /// The moves done so far, oldest first.
    pub closed spec fn played(self) -> Seq<Move> {
        self.played@
    }

    pub closed spec fn tables(self) -> Tables {
        *self.tables
    }

    /// The position after the first `i` moves.
    pub closed spec fn model_at(self, i: int) -> PartialPosition {
        if i < self.past@.len() {
            self.past@[i]
        } else {
            self.inner.pp
        }
    }

    /// The checkers recorded for the current position.
    pub closed spec fn recorded_checkers(self) -> Set<int> {
        self.states@.last().info().checkers_set()
    }

    /// Step `i` of the history is move `i` done on the position before it.
    pub closed spec fn step_ok(self, i: int) -> bool {
        let p = self.past@[i];
        let m = self.played@[i];
        &&& can_apply(p, m)
        &&& self.model_at(i + 1) == after_move(p, m)
        &&& self.states@[i + 1].captured_piece() == captured_by(p, m)
        &&& self.states@[i + 1].moved_piece() == moved_by(p, m)
        &&& self.states@[i + 1].info().checkers_set() == checkers_after(p, m)
    }

    pub closed spec fn wf(self) -> bool {
        let n = self.past@.len();
        let t = *self.tables;
        &&& t.wf()
        &&& self.inner.wf()
        &&& self.states@.len() == n + 1
        &&& self.played@.len() == n
        &&& forall|i: int| 0 <= i <= n ==> #[trigger] self.model_at(i).hands_in_range()
        &&& forall|i: int| 0 <= i <= n ==> #[trigger] self.states@[i].describes(t, self.model_at(i), self.start@)
        &&& self.states@[0].info().checkers_set() == checkers_spec(self.model_at(0))
        &&& self.model_at(0).side == self.start@
        &&& forall|i: int| 0 <= i < n ==> #[trigger] self.step_ok(i)
    }

    /// A position on `partial`, sharing `tables`.
    pub fn with_tables(partial: PartialPosition, tables: &Rc<Tables>) -> (r: Self)
        requires
            tables.wf(),
            partial.hands_in_range(),
        ensures
            r.wf(),
            r.model() == partial,
            r.past() == Seq::<PartialPosition>::empty(),
            r.played() == Seq::<Move>::empty(),
            r.start_side() == partial.side,
            r.tables() == **tables,
            r.recorded_checkers() == checkers_spec(partial),
    {
        let tables = share_tables(tables);
        let inner = Inner::from_partial(partial);
        let zt = &tables.zobrist;
        let k0 = hash_board(zt, &partial);
        let black = partial.hands.hand(Color::Black);
        let white = partial.hands.hand(Color::White);
        assert(forall|slot: int| 0 <= slot < 7 ==> #[trigger] black.0@[slot] <= 18) by {
            assert forall|slot: int| 0 <= slot < 7 implies #[trigger] black.0@[slot] <= 18 by {
                assert(partial.count(Color::Black, slot) <= 18);
            }
        }
        assert(forall|slot: int| 0 <= slot < 7 ==> #[trigger] white.0@[slot] <= 18) by {
            assert forall|slot: int| 0 <= slot < 7 implies #[trigger] white.0@[slot] <= 18 by {
                assert(partial.count(Color::White, slot) <= 18);
            }
        }
        let k1 = hash_hand(zt, Color::Black, black) ^ hash_hand(zt, Color::White, white);
        let checkers = AttackInfo::calculate_checkers(&inner, &tables);
        let attack_info = AttackInfo::new(checkers, &inner, &tables);
        let state = State { keys: (Key(k0), Key(k1)), captured: None, last_moved: None, attack_info };
        let mut states: Vec<State> = Vec::new();
        states.push(state);
        let r = Position {
            inner,
            states,
            tables,
            start: Ghost(partial.side),
            past: Ghost(Seq::empty()),
            played: Ghost(Seq::empty()),
        };
        proof {
            lemma_xor_swap(k0, 0, 0, 0);
            assert(r.model_at(0) == partial);
            assert(r.states@[0].describes(*r.tables, r.model_at(0), r.start@));
        }
        r
    }

    /// A position on `partial`, with tables of its own.
    pub fn new(partial: PartialPosition) -> (r: Self)
        requires
            partial.hands_in_range(),
        ensures
            r.wf(),
            r.model() == partial,
            r.past() == Seq::<PartialPosition>::empty(),
            r.played() == Seq::<Move>::empty(),
            r.start_side() == partial.side,
            r.recorded_checkers() == checkers_spec(partial),
            r.tables().zobrist.drawn(),
    {
        let tables = Rc::new(Tables::new());
        Position::with_tables(partial, &tables)
    }

    /// The tables the position reads, to share with other positions.
    pub fn shared_tables(&self) -> (r: Rc<Tables>)
        ensures
            *r == self.tables(),
    {
        share_tables(&self.tables)
    }

    pub fn side_to_move(&self) -> (r: Color)
        ensures
            r == self.model().side,
    {
        self.inner.pp.side
    }

    pub fn ply(&self) -> (r: u16)
        ensures
            r == self.model().ply,
    {
        self.inner.pp.ply
    }

    pub fn hand(&self, color: Color) -> (r: Hand)
        ensures
            r == self.model().hands.of(color),
    {
        self.inner.pp.hands.hand(color)
    }

    pub fn piece_at(&self, sq: Square) -> (r: Option<Piece>)
        requires
            sq.wf(),
        ensures
            r == self.model().board@[sq.0 as int],
    {
        self.inner.pp.board[sq.index()]
    }

    fn state(&self) -> (r: &State)
        requires
            self.wf(),
        ensures
            *r == self.states@.last(),
            r.describes(self.tables(), self.model(), self.start_side()),
    {
        let n = self.states.len();
        proof {
            assert(self.model_at(self.past@.len() as int) == self.model());
            assert(self.states@[self.past@.len() as int].describes(*self.tables, self.model_at(self.past@.len() as int), self.start@));
        }
        &self.states[n - 1]
    }

    /// The hash key of the position: both keys xor-ed.
    pub fn key(&self) -> (r: u64)
        requires
            self.wf(),
        ensures
            r == keys_spec(self.tables(), self.model(), self.start_side()).0 ^ keys_spec(
                self.tables(),
                self.model(),
                self.start_side(),
            ).1,
    {
        self.state().key()
    }

    /// The hash keys of the position: board and side to move, hands.
    pub fn keys(&self) -> (r: (u64, u64))
        requires
            self.wf(),
        ensures
            r == keys_spec(self.tables(), self.model(), self.start_side()),
    {
        self.state().keys()
    }

    /// Whether the recorded checkers are not none.
    pub fn in_check(&self) -> (r: bool)
        requires
            self.wf(),
        ensures
            r == (self.recorded_checkers() != Set::<int>::empty()),
    {
        !self.state().attack_info().checkers().is_empty()
    }
}

/// A normal move starts from an occupied square.
pub open spec fn from_occupied(p: PartialPosition, m: Move) -> bool {
    match m@ {
        MoveType::Normal { from, to: _, is_promotion: _, piece: _ } => p.board@[from.0 as int] is Some,
        MoveType::Drop { to: _, piece: _ } => true,
    }
}

/// Undoing a move, knowing the piece it captured and the piece it moved, gives back the
/// position before it.
pub proof fn lemma_before_after(p: PartialPosition, m: Move)
    requires
        can_apply(p, m),
        m.inv(),
    ensures
        before_move(after_move(p, m), m, captured_by(p, m), moved_by(p, m)) == p,
{
    m.lemma_wf();
    let q = after_move(p, m);
    let r = before_move(q, m, captured_by(p, m), moved_by(p, m));
    crate::color::lemma_flip_involutive(p.side);
    assert(q.side.opposite() == p.side);
    match m@ {
        MoveType::Normal { from, to, is_promotion, piece: _ } => {
            assert(r.board@ =~= p.board@);
            match p.board@[to.0 as int] {
                Some(x) => {
                    let slot = hand_slot(x.kind());
                    assert(r.hands.of(p.side).0@ =~= p.hands.of(p.side).0@);
                    assert(r.hands.of(p.side.opposite()).0@ =~= p.hands.of(p.side.opposite()).0@);
                },
                None => {},
            }
        },
        MoveType::Drop { to, piece } => {
            assert(r.board@ =~= p.board@);
            assert(r.hands.of(p.side).0@ =~= p.hands.of(p.side).0@);
            assert(r.hands.of(p.side.opposite()).0@ =~= p.hands.of(p.side.opposite()).0@);
        },
    }
    assert(r.same(p));
    lemma_same_eq(r, p);
}

proof fn lemma_key_normal(h: u64, s: u64, a: u64, b: u64, c: u64)
    by (bit_vector)
    ensures
        ((((h ^ s) ^ a) ^ b) ^ c) ^ 1u64 == ((((((h ^ a) ^ 0u64) ^ b) ^ 0u64) ^ 0u64) ^ c) ^ (s ^ 1u64),
        (((h ^ s) ^ b) ^ c) ^ 1u64 == ((((h ^ b) ^ 0u64) ^ 0u64) ^ c) ^ (s ^ 1u64),
        ((h ^ s) ^ c) ^ 1u64 == ((h ^ 0u64) ^ c) ^ (s ^ 1u64),
        0u64 ^ 1u64 == 1u64,
        1u64 ^ 1u64 == 0u64,
{
}

impl Position {
    /// Whether move `m` gives check, read from the recorded attack information.
    pub fn is_check_move(&self, m: Move) -> (r: bool)
        requires
            self.wf(),
            from_occupied(self.model(), m),
        ensures
            r == gives_check(self.model(), m),
    {
        proof {
            use_type_invariant(m);
            m.lemma_wf();
        }
        let info = self.state().attack_info();
        match m.move_type() {
            MoveType::Normal { from, to, is_promotion, piece: _ } => {
                let piece = self.inner.pp.board[from.index()].unwrap();
                let pk = if is_promotion {
                    piece.promoted().piece_type()
                } else {
                    piece.piece_type()
                };
                proof {
                    crate::piece::lemma_make(piece.side(), kind_promoted(piece.kind()));
                }
                if info.checkable(pk, to) {
                    return true;
                }
                let c = self.inner.pp.side.flip();
                if info.pinned(c).contains(from) {
                    let sq = self.inner.king_position(c).unwrap();
                    let a = self.tables.between.between(sq, from).contains(to);
                    let b = self.tables.between.between(sq, to).contains(from);
                    return !(a || b);
                }
                false
            },
            MoveType::Drop { to, piece } => info.checkable(piece.piece_type(), to),
        }
    }
}

/// Plays a normal move on `inner`, updating the keys.
fn play_normal(inner: &mut Inner, tables: &Tables, m: Move, keys: (Key, Key), Ghost(start): Ghost<Color>) -> (r: ((Key, Key), Option<Piece>, Option<Piece>))
    requires
        old(inner).wf(),
        tables.wf(),
        m.inv(),
        m@ is Normal,
        can_apply(old(inner).model(), m),
        old(inner).model().hands_in_range(),
        (keys.0.0, keys.1.0) == keys_spec(*tables, old(inner).model(), start),
    ensures
        final(inner).wf(),
        final(inner).model() == after_move(old(inner).model(), m),
        (r.0.0.0, r.0.1.0) == keys_spec(*tables, final(inner).model(), start),
        r.1 == captured_by(old(inner).model(), m),
        r.2 == moved_by(old(inner).model(), m),
{
    proof {
        m.lemma_wf();
    }
    let ghost p = inner.pp;
    let ghost zt = tables.zobrist;
    let ghost s_bit: u64 = side_bit(p.side, start);
    let c = inner.pp.side;
    let mut k0 = keys.0;
    let mut k1 = keys.1;
    let (from, to, is_promotion) = match m.move_type() {
        MoveType::Normal { from, to, is_promotion, piece: _ } => (from, to, is_promotion),
        MoveType::Drop { to, piece: _ } => (to, to, false),
    };
    let piece = inner.pp.board[from.index()].unwrap();
    let captured = inner.pp.board[to.index()];
    let ghost b0 = inner.pp.board@;
    match captured {
        Some(q) => {
            let pk = q.piece_type();
            assert(p.count(c, hand_slot(pk)) < 18);
            let n = inner.pp.hands.hand(c).num(pk);
            k0 = k0.xor(tables.zobrist.board(to, q));
            k1 = k1.xor(tables.zobrist.hand(c, pk, n));
            let ghost before = inner.pp;
            inner.remove_piece(to);
            inner.pp.hands.increment(c, pk);
            proof {
                lemma_hand_hash_step(zt, before, inner.pp, c, hand_slot(pk));
            }
        },
        None => {},
    }
    let ghost b1 = inner.pp.board@;
    let target = if is_promotion {
        piece.promoted()
    } else {
        piece
    };
    inner.remove_piece(from);
    let ghost b2 = inner.pp.board@;
    inner.put_piece(to, target);
    inner.pp.side = c.flip();
    inner.pp.ply = inner.pp.ply + 1;
    let a = tables.zobrist.board(from, piece);
    let b = tables.zobrist.board(to, target);
    k0 = k0.xor(a);
    k0 = k0.xor(b);
    k0 = k0.xor(Key::color());
    proof {
        lemma_board_hash_update(zt, b1, from.0 as int, None, 81);
        lemma_board_hash_update(zt, b2, to.0 as int, Some(target), 81);
        let h = board_hash_upto(zt, b0, 81);
        match captured {
            Some(q) => {
                lemma_board_hash_update(zt, b0, to.0 as int, None, 81);
                lemma_key_normal(h, s_bit, cell_key(zt, to.0 as int, Some(q)), a.0, b.0);
            },
            None => {
                assert(b1 == b0);
                lemma_key_normal(h, s_bit, 0, a.0, b.0);
            },
        }
        let q = after_move(p, m);
        assert(inner.pp.board@ =~= q.board@);
        assert(inner.pp.hands.of(Color::Black).0@ =~= q.hands.of(Color::Black).0@);
        assert(inner.pp.hands.of(Color::White).0@ =~= q.hands.of(Color::White).0@);
        assert(inner.pp.same(q));
        lemma_same_eq(inner.pp, q);
        crate::color::lemma_flip_involutive(p.side);
    }
    ((k0, k1), captured, Some(piece))
}

/// Plays a drop on `inner`, updating the keys.
fn play_drop(inner: &mut Inner, tables: &Tables, m: Move, keys: (Key, Key), Ghost(start): Ghost<Color>) -> (r: (Key, Key))
    requires
        old(inner).wf(),
        tables.wf(),
        m.inv(),
        m@ is Drop,
        can_apply(old(inner).model(), m),
        old(inner).model().hands_in_range(),
        (keys.0.0, keys.1.0) == keys_spec(*tables, old(inner).model(), start),
    ensures
        final(inner).wf(),
        final(inner).model() == after_move(old(inner).model(), m),
        (r.0.0, r.1.0) == keys_spec(*tables, final(inner).model(), start),
{
    proof {
        m.lemma_wf();
    }
    let ghost p = inner.pp;
    let ghost zt = tables.zobrist;
    let ghost s_bit: u64 = side_bit(p.side, start);
    let c = inner.pp.side;
    let mut k0 = keys.0;
    let mut k1 = keys.1;
    let (to, piece) = match m.move_type() {
        MoveType::Drop { to, piece } => (to, piece),
        MoveType::Normal { from: _, to, is_promotion: _, piece } => (to, piece),
    };
    let pk = piece.piece_type();
    let ghost b0 = inner.pp.board@;
    let ghost before = inner.pp;
    inner.put_piece(to, piece);
    inner.pp.hands.decrement(c, pk);
    inner.pp.side = c.flip();
    inner.pp.ply = inner.pp.ply + 1;
    let n = inner.pp.hands.hand(c).num(pk);
    k1 = k1.xor(tables.zobrist.hand(c, pk, n));
    let b = tables.zobrist.board(to, piece);
    k0 = k0.xor(b);
    k0 = k0.xor(Key::color());
    proof {
        lemma_hand_hash_step(zt, before, inner.pp, c, hand_slot(pk));
        lemma_board_hash_update(zt, b0, to.0 as int, Some(piece), 81);
        lemma_key_normal(board_hash_upto(zt, b0, 81), s_bit, 0, 0, b.0);
        let q = after_move(p, m);
        assert(inner.pp.board@ =~= q.board@);
        assert(inner.pp.hands.of(Color::Black).0@ =~= q.hands.of(Color::Black).0@);
        assert(inner.pp.hands.of(Color::White).0@ =~= q.hands.of(Color::White).0@);
        assert(inner.pp.same(q));
        lemma_same_eq(inner.pp, q);
        crate::color::lemma_flip_involutive(p.side);
    }
    (k0, k1)
}

/// A move keeps every count in hand within range.
proof fn lemma_after_in_range(p: PartialPosition, m: Move)
    requires
        can_apply(p, m),
        p.hands_in_range(),
    ensures
        after_move(p, m).hands_in_range(),
{
    let q = after_move(p, m);
    assert forall|cc: Color, slot: int| 0 <= slot < 7 implies #[trigger] q.count(cc, slot) <= 18 by {
        assert(p.count(cc, slot) <= 18);
        match m@ {
            MoveType::Normal { from: _, to, is_promotion: _, piece: _ } => {
                match p.board@[to.0 as int] {
                    Some(x) => {
                        assert(p.count(p.side, hand_slot(x.kind())) < 18);
                        if cc == p.side {
                            assert(q.hands.of(cc).0@ == p.hands.of(cc).0@.update(hand_slot(x.kind()), (p.hands.of(cc).0@[hand_slot(x.kind())] + 1) as u8));
                        } else {
                            assert(q.hands.of(cc) == p.hands.of(cc));
                        }
                    },
                    None => {},
                }
            },
            MoveType::Drop { to: _, piece } => {
                if cc == p.side {
                    assert(q.hands.of(cc).0@ == p.hands.of(cc).0@.update(hand_slot(piece.kind()), (p.hands.of(cc).0@[hand_slot(piece.kind())] - 1) as u8));
                } else {
                    assert(q.hands.of(cc) == p.hands.of(cc));
                }
            },
        }
    }
}

impl Position {
    /// A position whose history is that of `prev` with move `m` and the state `st` added is
    /// well formed.
    proof fn lemma_pushed(self, prev: Position, m: Move, st: State)
        requires
            prev.wf(),
            can_apply(prev.model(), m),
            self.inner.wf(),
            *self.tables == *prev.tables,
            self.start@ == prev.start@,
            self.past@ == prev.past@.push(prev.model()),
            self.played@ == prev.played@.push(m),
            self.states@ == prev.states@.push(st),
            self.model() == after_move(prev.model(), m),
            st.describes(prev.tables(), self.model(), prev.start@),
            st.captured_piece() == captured_by(prev.model(), m),
            st.moved_piece() == moved_by(prev.model(), m),
            st.info().checkers_set() == checkers_after(prev.model(), m),
        ensures
            self.wf(),
    {
        let n = prev.past@.len();
        let t = prev.tables();
        let start = prev.start@;
        let p = prev.model();
        assert(prev.model_at(n as int) == p);
        assert(prev.model_at(n as int).hands_in_range());
        lemma_after_in_range(p, m);
        assert forall|i: int| 0 <= i <= n + 1 implies #[trigger] self.model_at(i).hands_in_range() by {
            if i <= n {
                assert(prev.model_at(i).hands_in_range());
                assert(self.model_at(i) == prev.model_at(i));
            }
        }
        assert forall|i: int| 0 <= i <= n + 1 implies #[trigger] self.states@[i].describes(t, self.model_at(i), start) by {
            if i <= n {
                assert(prev.states@[i].describes(t, prev.model_at(i), start));
                assert(self.model_at(i) == prev.model_at(i));
                assert(self.states@[i] == prev.states@[i]);
            }
        }
        assert(self.model_at(0) == prev.model_at(0));
        assert(self.states@[0] == prev.states@[0]);
        assert forall|i: int| 0 <= i < n + 1 implies #[trigger] self.step_ok(i) by {
            if i < n {
                assert(prev.step_ok(i));
                assert(self.model_at(i + 1) == prev.model_at(i + 1));
                assert(self.states@[i + 1] == prev.states@[i + 1]);
            }
        }
    }

    /// Does move `m`, recording what is needed to undo it.
    pub fn do_move(&mut self, m: Move)
        requires
            old(self).wf(),
            can_apply(old(self).model(), m),
        ensures
            final(self).wf(),
            final(self).model() == after_move(old(self).model(), m),
            final(self).past() == old(self).past().push(old(self).model()),
            final(self).played() == old(self).played().push(m),
            final(self).start_side() == old(self).start_side(),
            final(self).tables() == old(self).tables(),
            final(self).recorded_checkers() == checkers_after(old(self).model(), m),
            final(self).last_captured() == captured_by(old(self).model(), m),
            final(self).last_moved_piece() == moved_by(old(self).model(), m),
    {
        proof {
            use_type_invariant(m);
            m.lemma_wf();
        }
        let ghost prev = *self;
        let ghost p = self.inner.pp;
        assert(self.model_at(self.past@.len() as int) == p);
        assert(self.model_at(self.past@.len() as int).hands_in_range());
        let is_check = self.is_check_move(m);
        let keys = self.state().keys;
        let (keys, captured, last_moved) = if m.is_drop() {
            let piece = m.piece();
            let k = play_drop(&mut self.inner, &self.tables, m, keys, Ghost(self.start@));
            (k, None, Some(piece))
        } else {
            play_normal(&mut self.inner, &self.tables, m, keys, Ghost(self.start@))
        };
        let checkers = if is_check {
            if m.is_drop() {
                Bitboard::single(m.to())
            } else {
                AttackInfo::calculate_checkers(&self.inner, &self.tables)
            }
        } else {
            Bitboard::empty()
        };
        let attack_info = AttackInfo::new(checkers, &self.inner, &self.tables);
        let st = State { keys, captured, last_moved, attack_info };
        self.states.push(st);
        proof {
            self.past@ = self.past@.push(p);
            self.played@ = self.played@.push(m);
            self.lemma_pushed(prev, m, st);
        }
    }
}

/// Takes back normal move `m` on `inner`, which it led to from `p`.
fn unplay_normal(inner: &mut Inner, m: Move, captured: Option<Piece>, moved: Option<Piece>, Ghost(p): Ghost<PartialPosition>)
    requires
        old(inner).wf(),
        m.inv(),
        m@ is Normal,
        can_apply(p, m),
        old(inner).model() == after_move(p, m),
        captured == captured_by(p, m),
        moved == moved_by(p, m),
    ensures
        final(inner).wf(),
        final(inner).model() == p,
{
    proof {
        m.lemma_wf();
        lemma_before_after(p, m);
        crate::color::lemma_flip_involutive(p.side);
    }
    let ghost q = inner.pp;
    let (from, to) = match m.move_type() {
        MoveType::Normal { from, to, is_promotion: _, piece: _ } => (from, to),
        MoveType::Drop { to, piece: _ } => (to, to),
    };
    let c = inner.pp.side.flip();
    let moved_piece = moved.unwrap();
    inner.remove_piece(to);
    inner.put_piece(from, moved_piece);
    match captured {
        Some(x) => {
            inner.put_piece(to, x);
            inner.pp.hands.decrement(c, x.piece_type());
        },
        None => {},
    }
    inner.pp.side = c;
    inner.pp.ply = inner.pp.ply - 1;
    proof {
        let r = before_move(q, m, captured, moved);
        assert(inner.pp.board@ =~= r.board@);
        assert(inner.pp.hands.of(Color::Black).0@ =~= r.hands.of(Color::Black).0@);
        assert(inner.pp.hands.of(Color::White).0@ =~= r.hands.of(Color::White).0@);
        assert(inner.pp.same(r));
        lemma_same_eq(inner.pp, r);
    }
}

/// Takes back drop `m` on `inner`, which it led to from `p`.
fn unplay_drop(inner: &mut Inner, m: Move, Ghost(p): Ghost<PartialPosition>)
    requires
        old(inner).wf(),
        m.inv(),
        m@ is Drop,
        can_apply(p, m),
        old(inner).model() == after_move(p, m),
        p.hands_in_range(),
    ensures
        final(inner).wf(),
        final(inner).model() == p,
{
    proof {
        m.lemma_wf();
        lemma_before_after(p, m);
        crate::color::lemma_flip_involutive(p.side);
    }
    let ghost q = inner.pp;
    let (to, piece) = match m.move_type() {
        MoveType::Drop { to, piece } => (to, piece),
        MoveType::Normal { from: _, to, is_promotion: _, piece } => (to, piece),
    };
    let c = inner.pp.side.flip();
    assert(p.count(c, hand_slot(piece.kind())) <= 18);
    inner.remove_piece(to);
    inner.pp.hands.increment(c, piece.piece_type());
    inner.pp.side = c;
    inner.pp.ply = inner.pp.ply - 1;
    proof {
        let r = before_move(q, m, None, Some(piece));
        assert(inner.pp.board@ =~= r.board@);
        assert(inner.pp.hands.of(Color::Black).0@ =~= r.hands.of(Color::Black).0@);
        assert(inner.pp.hands.of(Color::White).0@ =~= r.hands.of(Color::White).0@);
        assert(inner.pp.same(r));
        lemma_same_eq(inner.pp, r);
    }
}

impl Position {
    /// A position whose history is that of `prev` without its last step, standing on the
    /// position before that step, is well formed.
    proof fn lemma_popped(self, prev: Position)
        requires
            prev.wf(),
            prev.past@.len() > 0,
            self.inner.wf(),
            *self.tables == *prev.tables,
            self.start@ == prev.start@,
            self.past@ == prev.past@.drop_last(),
            self.played@ == prev.played@.drop_last(),
            self.states@ == prev.states@.drop_last(),
            self.model() == prev.past@.last(),
        ensures
            self.wf(),
    {
        let n = self.past@.len();
        let t = prev.tables();
        assert forall|i: int| 0 <= i <= n implies #[trigger] self.model_at(i) == prev.model_at(i) by {}
        assert forall|i: int| 0 <= i <= n implies #[trigger] self.model_at(i).hands_in_range() by {
            assert(self.model_at(i) == prev.model_at(i));
            assert(prev.model_at(i).hands_in_range());
        }
        assert forall|i: int| 0 <= i <= n implies #[trigger] self.states@[i].describes(t, self.model_at(i), prev.start@) by {
            assert(self.model_at(i) == prev.model_at(i));
            assert(prev.states@[i].describes(t, prev.model_at(i), prev.start@));
        }
        assert(self.model_at(0) == prev.model_at(0));
        assert forall|i: int| 0 <= i < n implies #[trigger] self.step_ok(i) by {
            assert(prev.step_ok(i));
            assert(self.model_at(i + 1) == prev.model_at(i + 1));
        }
    }

    /// The piece captured by the last move, recorded.
    pub closed spec fn last_captured(self) -> Option<Piece> {
        self.states@.last().captured_piece()
    }

    /// The piece moved or dropped by the last move, recorded.
    pub closed spec fn last_moved_piece(self) -> Option<Piece> {
        self.states@.last().moved_piece()
    }

    /// Takes back the last move, `m`.
    pub fn undo_move(&mut self, m: Move)
        requires
            old(self).wf(),
            old(self).played().len() > 0,
            m == old(self).played().last(),
        ensures
            final(self).wf(),
            final(self).model() == before_move(
                old(self).model(),
                m,
                old(self).last_captured(),
                old(self).last_moved_piece(),
            ),
            final(self).model() == old(self).past().last(),
            final(self).past() == old(self).past().drop_last(),
            final(self).played() == old(self).played().drop_last(),
            final(self).start_side() == old(self).start_side(),
            final(self).tables() == old(self).tables(),
            final(self).recorded_checkers() == final(self).checkers_of_history(),
    {
        proof {
            use_type_invariant(m);
            m.lemma_wf();
        }
        let ghost prev = *self;
        let ghost n = self.past@.len();
        let ghost p = self.past@.last();
        proof {
            assert(self.step_ok(n - 1));
            assert(self.model_at(n as int) == self.inner.pp);
            assert(self.model_at(n - 1) == p);
            assert(self.model_at(n - 1).hands_in_range());
            lemma_before_after(p, m);
        }
        let st = self.state();
        let captured = st.captured();
        let last_moved = st.last_moved();
        if m.is_drop() {
            unplay_drop(&mut self.inner, m, Ghost(p));
        } else {
            unplay_normal(&mut self.inner, m, captured, last_moved, Ghost(p));
        }
        self.states.pop();
        proof {
            self.past@ = self.past@.drop_last();
            self.played@ = self.played@.drop_last();
            self.lemma_popped(prev);
            self.lemma_recorded_checkers();
        }
    }

    /// The checkers that a position's history fixes: those of the position it was made on, or
    /// those that its last move gave.
    pub open spec fn checkers_of_history(self) -> Set<int> {
        if self.past().len() == 0 {
            checkers_spec(self.model())
        } else {
            checkers_after(self.past().last(), self.played().last())
        }
    }

    /// The side to move after the first `i` moves: the starting side after an even number of
    /// moves, the other one after an odd number.
    proof fn lemma_sides(self, i: int)
        requires
            self.wf(),
            0 <= i <= self.past@.len(),
        ensures
            self.model_at(i).side == if i % 2 == 0 {
                self.start@
            } else {
                self.start@.opposite()
            },
        decreases i,
    {
        if i > 0 {
            self.lemma_sides(i - 1);
            assert(self.step_ok(i - 1));
            assert(self.model_at(i - 1) == self.past@[i - 1]);
            match self.start@ {
                Color::Black => {},
                Color::White => {},
            }
        }
    }

    /// A well-formed position records the checkers that its history fixes.
    pub proof fn lemma_recorded_checkers(self)
        requires
            self.wf(),
        ensures
            self.recorded_checkers() == self.checkers_of_history(),
    {
        let n = self.past@.len();
        assert(self.model_at(n as int) == self.model());
        if n > 0 {
            assert(self.step_ok(n - 1));
        }
    }
}

/// Doing a move and then undoing it gives back the position before the move: `undo_move`
/// rebuilds the position from the one `do_move` left and the pieces it recorded.
pub proof fn law_undo_after_do(p: PartialPosition, m: Move)
    requires
        can_apply(p, m),
        m.inv(),
    ensures
        before_move(after_move(p, m), m, captured_by(p, m), moved_by(p, m)) == p,
{
    lemma_before_after(p, m);
}

/// The mover's hand count of slot `slot` after a normal move to `to` on `p`: one more when the
/// move captures a piece of that slot.
pub open spec fn count_after_capture(p: PartialPosition, to: int, slot: int) -> int {
    match p.board@[to] {
        Some(q) => if hand_slot(q.kind()) == slot {
            p.count(p.side, slot) + 1
        } else {
            p.count(p.side, slot)
        },
        None => p.count(p.side, slot),
    }
}

/// What a move changes: the other side moves next and the ply grows by one. A normal move
/// empties its origin, puts the moving piece (promoted when asked) on its target and adds a
/// captured piece to the mover's hand under its unpromoted kind; a drop puts the dropped piece on
/// its target and takes one of its kind from the mover's hand. No other square and no count of
/// the other side's hand changes, and no other count of the mover's hand.
pub proof fn law_move_effects(p: PartialPosition, m: Move)
    requires
        can_apply(p, m),
        m.inv(),
    ensures
        after_move(p, m).side == p.side.opposite(),
        after_move(p, m).ply == p.ply + 1,
        forall|slot: int|
            0 <= slot < 7 ==> #[trigger] after_move(p, m).count(p.side.opposite(), slot) == p.count(
                p.side.opposite(),
                slot,
            ),
        m@ matches MoveType::Normal { from, to, is_promotion, piece: _ } ==> {
            &&& after_move(p, m).board@[from.0 as int] is None
            &&& forall|i: int|
                0 <= i < 81 && i != from.0 && i != to.0 ==> #[trigger] after_move(p, m).board@[i] == p.board@[i]
            &&& after_move(p, m).board@[to.0 as int] == Some(
                if is_promotion {
                    Piece::make(
                        p.board@[from.0 as int]->0.side(),
                        kind_promoted(p.board@[from.0 as int]->0.kind()),
                    )
                } else {
                    p.board@[from.0 as int]->0
                },
            )
            &&& forall|slot: int|
                0 <= slot < 7 ==> #[trigger] after_move(p, m).count(p.side, slot) == count_after_capture(
                    p,
                    to.0 as int,
                    slot,
                )
        },
        m@ matches MoveType::Drop { to, piece } ==> {
            &&& after_move(p, m).board@[to.0 as int] == Some(piece)
            &&& forall|i: int| 0 <= i < 81 && i != to.0 ==> #[trigger] after_move(p, m).board@[i] == p.board@[i]
            &&& forall|slot: int|
                0 <= slot < 7 ==> #[trigger] after_move(p, m).count(p.side, slot) == if slot == hand_slot(piece.kind()) {
                    p.count(p.side, slot) - 1
                } else {
                    p.count(p.side, slot)
                }
        },
{
    m.lemma_wf();
    assert(p.side.opposite().idx() != p.side.idx()) by {
        match p.side {
            Color::Black => {},
            Color::White => {},
        }
    }
}

/// Positions that agree on board, hands, side and ply have the same keys, whatever moves led to
/// them.
pub proof fn law_keys_of_position(t: Tables, a: PartialPosition, b: PartialPosition, start: Color)
    requires
        a.same(b),
    ensures
        keys_spec(t, a, start) == keys_spec(t, b, start),
{
    lemma_same_eq(a, b);
}

proof fn lemma_board_hash_drawn(z1: ZobristTable, z2: ZobristTable, b1: Seq<Option<Piece>>, b2: Seq<Option<Piece>>, n: nat)
    requires
        z1.drawn(),
        z2.drawn(),
        n <= 81,
        forall|i: int| 0 <= i < n ==> b1[i] == b2[i],
    ensures
        board_hash_upto(z1, b1, n) == board_hash_upto(z2, b2, n),
    decreases n,
{
    if n > 0 {
        lemma_board_hash_drawn(z1, z2, b1, b2, (n - 1) as nat);
        assert(b1[n - 1] == b2[n - 1]);
        match b1[n - 1] {
            Some(p) => {
                assert(z1.board_key(n - 1, p) == z2.board_key(n - 1, p));
            },
            None => {},
        }
    }
}

proof fn lemma_count_hash_drawn(z1: ZobristTable, z2: ZobristTable, c: Color, slot: int, n: nat)
    requires
        z1.drawn(),
        z2.drawn(),
        0 <= slot < 7,
        n <= 18,
    ensures
        count_hash(z1, c, slot, n) == count_hash(z2, c, slot, n),
    decreases n,
{
    if n > 0 {
        lemma_count_hash_drawn(z1, z2, c, slot, (n - 1) as nat);
        assert(z1.hand_key(c, slot, n - 1) == z2.hand_key(c, slot, n - 1));
    }
}

proof fn lemma_slots_hash_drawn(z1: ZobristTable, z2: ZobristTable, c: Color, cs1: Seq<u8>, cs2: Seq<u8>, k: nat)
    requires
        z1.drawn(),
        z2.drawn(),
        k <= 7,
        forall|i: int| 0 <= i < k ==> cs1[i] == cs2[i] && cs1[i] <= 18,
    ensures
        slots_hash(z1, c, cs1, k) == slots_hash(z2, c, cs2, k),
    decreases k,
{
    if k > 0 {
        lemma_slots_hash_drawn(z1, z2, c, cs1, cs2, (k - 1) as nat);
        lemma_count_hash_drawn(z1, z2, c, k - 1, cs1[k - 1] as nat);
    }
}

/// Keys do not depend on which tables built by `Tables::new` a position holds: every such table
/// draws the same keys. For games that started with the same side to move, the board key
/// depends on the board and the side to move alone, the hand key on the hands alone.
pub proof fn law_keys_agree(t1: Tables, t2: Tables, a: PartialPosition, b: PartialPosition, start: Color)
    requires
        t1.zobrist.drawn(),
        t2.zobrist.drawn(),
        a.hands_in_range(),
        b.hands_in_range(),
    ensures
        a.board@ == b.board@ && a.side == b.side ==> keys_spec(t1, a, start).0 == keys_spec(t2, b, start).0,
        (forall|c: Color, slot: int| 0 <= slot < 7 ==> #[trigger] a.count(c, slot) == b.count(c, slot))
            ==> keys_spec(t1, a, start).1 == keys_spec(t2, b, start).1,
{
    if a.board@ == b.board@ {
        lemma_board_hash_drawn(t1.zobrist, t2.zobrist, a.board@, b.board@, 81);
    }
    if forall|c: Color, slot: int| 0 <= slot < 7 ==> #[trigger] a.count(c, slot) == b.count(c, slot) {
        assert forall|i: int| 0 <= i < 7 implies a.hands.of(Color::Black).0@[i] == b.hands.of(Color::Black).0@[i]
            && a.hands.of(Color::Black).0@[i] <= 18 by {
            assert(a.count(Color::Black, i) == b.count(Color::Black, i));
            assert(a.count(Color::Black, i) <= 18);
        }
        assert forall|i: int| 0 <= i < 7 implies a.hands.of(Color::White).0@[i] == b.hands.of(Color::White).0@[i]
            && a.hands.of(Color::White).0@[i] <= 18 by {
            assert(a.count(Color::White, i) == b.count(Color::White, i));
            assert(a.count(Color::White, i) <= 18);
        }
        lemma_slots_hash_drawn(t1.zobrist, t2.zobrist, Color::Black, a.hands.of(Color::Black).0@, b.hands.of(Color::Black).0@, 7);
        lemma_slots_hash_drawn(t1.zobrist, t2.zobrist, Color::White, a.hands.of(Color::White).0@, b.hands.of(Color::White).0@, 7);
    }
}

proof fn lemma_xor_even(a: u64, b: u64)
    by (bit_vector)
    requires
        a & 1 == 0,
        b & 1 == 0,
    ensures
        (a ^ b) & 1 == 0,
        (a ^ 1u64) & 1 == 1,
        (a ^ 0u64) & 1 == 0,
{
}

proof fn lemma_board_hash_even(zt: ZobristTable, b: Seq<Option<Piece>>, n: nat)
    requires
        zt.wf(),
        n <= 81,
    ensures
        board_hash_upto(zt, b, n) & 1 == 0,
    decreases n,
{
    if n > 0 {
        lemma_board_hash_even(zt, b, (n - 1) as nat);
        match b[n - 1] {
            Some(p) => {
                zt.lemma_keys_even(n - 1, p, Color::Black, 0, 0);
            },
            None => {
                lemma_xor_swap(0, 0, 0, 0);
            },
        }
        lemma_xor_even(board_hash_upto(zt, b, (n - 1) as nat), cell_key(zt, n - 1, b[n - 1]));
    } else {
        lemma_xor_swap(0, 0, 0, 0);
    }
}

proof fn lemma_count_hash_even(zt: ZobristTable, c: Color, slot: int, n: nat)
    requires
        zt.wf(),
        0 <= slot < 7,
        n <= 18,
    ensures
        count_hash(zt, c, slot, n) & 1 == 0,
    decreases n,
{
    if n > 0 {
        lemma_count_hash_even(zt, c, slot, (n - 1) as nat);
        zt.lemma_keys_even(0, Piece::BFU, c, slot, n - 1);
        lemma_xor_even(count_hash(zt, c, slot, (n - 1) as nat), zt.hand_key(c, slot, n - 1));
    } else {
        lemma_xor_swap(0, 0, 0, 0);
    }
}

proof fn lemma_slots_hash_even(zt: ZobristTable, c: Color, counts: Seq<u8>, k: nat)
    requires
        zt.wf(),
        k <= 7,
        counts.len() == 7,
        forall|i: int| 0 <= i < 7 ==> #[trigger] counts[i] <= 18,
    ensures
        slots_hash(zt, c, counts, k) & 1 == 0,
    decreases k,
{
    if k > 0 {
        lemma_slots_hash_even(zt, c, counts, (k - 1) as nat);
        lemma_count_hash_even(zt, c, k - 1, counts[k - 1] as nat);
        lemma_xor_even(slots_hash(zt, c, counts, (k - 1) as nat), count_hash(zt, c, k - 1, counts[k - 1] as nat));
    } else {
        lemma_xor_swap(0, 0, 0, 0);
    }
}

/// The lowest bit of the first key is set exactly when the side to move is not the one that
/// was to move when the game started, and the hand key leaves it clear: every board and hand
/// key has it clear.
pub proof fn law_side_bit(t: Tables, p: PartialPosition, start: Color)
    requires
        t.wf(),
        p.hands_in_range(),
    ensures
        (keys_spec(t, p, start).0 & 1 == 1) == (p.side != start),
        keys_spec(t, p, start).1 & 1 == 0,
{
    let zt = t.zobrist;
    lemma_board_hash_even(zt, p.board@, 81);
    let h = board_hash(zt, p);
    lemma_xor_swap(0, 0, 0, 0);
    lemma_xor_even(h, 0);
    assert forall|i: int| 0 <= i < 7 implies #[trigger] p.hands.of(Color::Black).0@[i] <= 18 by {
        assert(p.count(Color::Black, i) <= 18);
    }
    assert forall|i: int| 0 <= i < 7 implies #[trigger] p.hands.of(Color::White).0@[i] <= 18 by {
        assert(p.count(Color::White, i) <= 18);
    }
    lemma_slots_hash_even(zt, Color::Black, p.hands.of(Color::Black).0@, 7);
    lemma_slots_hash_even(zt, Color::White, p.hands.of(Color::White).0@, 7);
    lemma_xor_even(
        slots_hash(zt, Color::Black, p.hands.of(Color::Black).0@, 7),
        slots_hash(zt, Color::White, p.hands.of(Color::White).0@, 7),
    );
}

proof fn lemma_low_bit_xor(a: u64, b: u64)
    by (bit_vector)
    requires
        b & 1 == 0,
    ensures
        ((a ^ b) & 1 == 1) == (a & 1 == 1),
{
}

/// The lowest bit of the key of a position is set exactly when an odd number of moves has been
/// done on it.
pub proof fn law_key_parity(pos: Position)
    requires
        pos.wf(),
    ensures
        ((keys_spec(pos.tables(), pos.model(), pos.start_side()).0 ^ keys_spec(
            pos.tables(),
            pos.model(),
            pos.start_side(),
        ).1) & 1 == 1) == (pos.played().len() % 2 == 1),
{
    let n = pos.past@.len() as int;
    pos.lemma_sides(n);
    assert(pos.model_at(n) == pos.model());
    assert(pos.model_at(n).hands_in_range());
    let k = keys_spec(pos.tables(), pos.model(), pos.start_side());
    law_side_bit(pos.tables(), pos.model(), pos.start_side());
    lemma_low_bit_xor(k.0, k.1);
    match pos.start@ {
        Color::Black => {},
        Color::White => {},
    }
}

/// The position `p` with `c` to move.
pub open spec fn with_side(p: PartialPosition, c: Color) -> PartialPosition {
    PartialPosition { side: c, ply: p.ply, hands: p.hands, board: p.board }
}

/// No piece of the side to move attacks the opponent king.
pub open spec fn opponent_unattacked(p: PartialPosition) -> bool {
    checkers_spec(with_side(p, p.side.opposite())) == Set::<int>::empty()
}

/// A square other than `x` is in the same sets of two boards that differ at most on `x`.
pub proof fn lemma_sets_off_square(p: PartialPosition, q: PartialPosition, x: int, s: int)
    requires
        forall|i: int| 0 <= i < 81 && i != x ==> q.board@[i] == p.board@[i],
        s != x,
    ensures
        forall|k: PieceType| #[trigger] kind_set(q, k).contains(s) == kind_set(p, k).contains(s),
        forall|c: Color| #[trigger] color_set(q, c).contains(s) == color_set(p, c).contains(s),
        gold_movers(q).contains(s) == gold_movers(p).contains(s),
{
}

/// Occupying one more square `x` makes no piece other than the one on `x` a checker.
proof fn lemma_checkers_off_square(q: PartialPosition, f: PartialPosition, x: int, s: int)
    requires
        q.side == f.side,
        king_square(q, q.side) == king_square(f, f.side),
        forall|i: int| 0 <= i < 81 && i != x ==> q.board@[i] == f.board@[i],
        occupied_set(f).subset_of(occupied_set(q)),
        s != x,
        checkers_spec(q).contains(s),
    ensures
        checkers_spec(f).contains(s),
{
    lemma_sets_off_square(f, q, x, s);
    let k = king_square(q, q.side)->0;
    let c = q.side;
    let occ = occupied_set(f);
    let occq = occupied_set(q);
    crate::tables::lemma_attacks_fewer(PieceType::FU, k, c, occ, occq);
    crate::tables::lemma_attacks_fewer(PieceType::KY, k, c, occ, occq);
    crate::tables::lemma_attacks_fewer(PieceType::KE, k, c, occ, occq);
    crate::tables::lemma_attacks_fewer(PieceType::GI, k, c, occ, occq);
    crate::tables::lemma_attacks_fewer(PieceType::KA, k, c, occ, occq);
    crate::tables::lemma_attacks_fewer(PieceType::HI, k, c, occ, occq);
    crate::tables::lemma_attacks_fewer(PieceType::KI, k, c, occ, occq);
}

/// A piece of a hand kind placed on the empty square `x` attacks the opponent king exactly when
/// the kind attacks that king from `x`.
proof fn lemma_drop_square(p: PartialPosition, q: PartialPosition, x: int, piece: Piece, k: int)
    requires
        0 <= x < 81,
        p.board@[x] is None,
        q.board@ == p.board@.update(x, Some(piece)),
        q.side == p.side.opposite(),
        piece.side() == p.side,
        hand_kind(piece.kind()),
        king_square(q, q.side) == Some(k),
        king_square(p, q.side) == Some(k),
    ensures
        checkers_spec(q).contains(x) == checkables_spec(p, piece.kind()).contains(x),
{
    let pk = piece.kind();
    let occ = occupied_set(p);
    let occq = occupied_set(q);
    assert(occq =~= occ.insert(x));
    crate::tables::lemma_attacks_own_square(pk, k, q.side, occ, x);
    crate::piece::lemma_kind_code(pk);
    assert(color_set(q, p.side).contains(x));
    assert(kind_set(q, pk).contains(x));
    assert(forall|j: PieceType| j != pk ==> !#[trigger] kind_set(q, j).contains(x));
}

/// The kinds of the pieces found as checkers along the attacks of kind `x` from the king.
pub open spec fn component_kinds(x: PieceType) -> Set<PieceType> {
    match x {
        PieceType::GI => set![PieceType::GI, PieceType::RY],
        PieceType::KA => set![PieceType::KA, PieceType::UM],
        PieceType::HI => set![PieceType::HI, PieceType::RY],
        PieceType::KI => set![PieceType::KI, PieceType::TO, PieceType::NY, PieceType::NK, PieceType::NG, PieceType::UM],
        _ => set![x],
    }
}

/// The kinds along whose attacks from the king the checkers are looked for.
pub open spec fn is_component(x: PieceType) -> bool {
    x == PieceType::FU || x == PieceType::KY || x == PieceType::KE || x == PieceType::GI || x
        == PieceType::KA || x == PieceType::HI || x == PieceType::KI
}

/// The piece on `s` belongs to the opponent of the side to move and attacks the king on `k`:
/// `s` is among the attacks of kind `x` from `k`, and the piece is of a kind found along them.
pub open spec fn checks_via(p: PartialPosition, x: PieceType, k: int, s: int) -> bool {
    &&& 0 <= s < 81
    &&& piece_attacks(x, k, p.side, occupied_set(p)).contains(s)
    &&& p.board@[s] matches Some(q) && q.side() == p.side.opposite() && component_kinds(x).contains(q.kind())
}

/// The checkers are the pieces that attack the king along one of the checked kinds.
pub proof fn lemma_checkers_via(p: PartialPosition, k: int, s: int)
    requires
        king_square(p, p.side) == Some(k),
    ensures
        checkers_spec(p).contains(s) <==> exists|x: PieceType| is_component(x) && #[trigger] checks_via(p, x, k, s),
{
    if checkers_spec(p).contains(s) {
        let q = p.board@[s]->0;
        if checks_via(p, PieceType::FU, k, s) {
        } else if checks_via(p, PieceType::KY, k, s) {
        } else if checks_via(p, PieceType::KE, k, s) {
        } else if checks_via(p, PieceType::GI, k, s) {
        } else if checks_via(p, PieceType::KA, k, s) {
        } else if checks_via(p, PieceType::HI, k, s) {
        } else {
            assert(checks_via(p, PieceType::KI, k, s));
        }
    }
    if exists|x: PieceType| is_component(x) && #[trigger] checks_via(p, x, k, s) {
        let x = choose|x: PieceType| is_component(x) && #[trigger] checks_via(p, x, k, s);
        let q = p.board@[s]->0;
        assert(color_set(p, p.side.opposite()).contains(s));
        assert(kind_set(p, q.kind()).contains(s));
    }
}

/// A normal move of a piece of the side to move onto a square that piece attacks and that holds
/// no piece of that side.
pub open spec fn reaching_move(p: PartialPosition, m: Move) -> bool {
    m@ matches MoveType::Normal { from, to, is_promotion: _, piece: _ } && 0 <= from.0 < 81 && 0 <= to.0 < 81 && (
    p.board@[from.0 as int] matches Some(q) && q.side() == p.side && piece_attacks(
        q.kind(),
        from.0 as int,
        p.side,
        occupied_set(p),
    ).contains(to.0 as int)) && !(p.board@[to.0 as int] matches Some(r) && r.side() == p.side)
}

/// The directions of the sliding kinds among the checked ones.
pub open spec fn ray_dirs(x: PieceType, c: Color) -> Seq<Delta> {
    match x {
        PieceType::KY => seq![lance_delta(c)],
        PieceType::KA => ka_deltas(),
        _ => hi_deltas(),
    }
}

/// The sliding kinds among the checked ones.
pub open spec fn is_ray(x: PieceType) -> bool {
    x == PieceType::KY || x == PieceType::KA || x == PieceType::HI
}

/// The attacks of a sliding kind are its rays; those of another kind do not depend on the
/// occupancy; the directions of the sliding kinds are unit steps.
pub proof fn lemma_kind_rays(x: PieceType, c: Color, occ1: Set<int>, occ2: Set<int>, sq: int)
    requires
        is_component(x),
    ensures
        is_ray(x) ==> piece_attacks(x, sq, c, occ1) == ray_attacks(sq, ray_dirs(x, c), occ1),
        !is_ray(x) ==> piece_attacks(x, sq, c, occ1) == piece_attacks(x, sq, c, occ2),
        forall|i: int| 0 <= i < ray_dirs(x, c).len() ==> #[trigger] unit(ray_dirs(x, c)[i]),
{
}

/// A square from which a piece of kind `lk` attacks the opponent king along the attacks of a
/// checked kind that finds `lk` is one from which `lk` gives check.
proof fn lemma_checkable_via(p: PartialPosition, x: PieceType, lk: PieceType, k: int, sq: int)
    requires
        king_square(p, p.side.opposite()) == Some(k),
        is_component(x),
        component_kinds(x).contains(lk),
        piece_attacks(x, k, p.side.opposite(), occupied_set(p)).contains(sq),
    ensures
        checkables_spec(p, lk).contains(sq),
{
}

/// The frame of a normal move from `f` to `x` taking `p` to `q`, with the opponent king on `k`.
pub open spec fn move_frame(p: PartialPosition, q: PartialPosition, f: int, x: int, k: int) -> bool {
    &&& 0 <= f < 81
    &&& 0 <= x < 81
    &&& f != x
    &&& q.side == p.side.opposite()
    &&& occupied_set(q) == occupied_set(p).remove(f).insert(x)
    &&& q.board@[f] is None
    &&& forall|i: int| 0 <= i < 81 && i != f && i != x ==> q.board@[i] == p.board@[i]
    &&& king_square(p, q.side) == Some(k)
    &&& king_square(with_side(p, q.side), q.side) == Some(k)
    &&& occupied_set(with_side(p, q.side)) == occupied_set(p)
    &&& p.board@[f] matches Some(mv) && mv.side() == p.side
}

/// Along a ray from the king that reaches `s` over the board after the move, either the square
/// the piece left is one of the squares passed, or the ray reached `s` before the move too.
pub proof fn lemma_ray_before(p: PartialPosition, q: PartialPosition, f: int, x: int, k: int, ds: Seq<Delta>, ki: int, n: int, s: int)
    requires
        move_frame(p, q, f, x, k),
        0 <= ki < ds.len(),
        unit(ds[ki]),
        n >= 1,
        line_square(k, ds[ki], n) == Some(s),
        forall|m: int|
            #![trigger line_square(k, ds[ki], m)]
            1 <= m < n ==> (line_square(k, ds[ki], m) matches Some(u) && !occupied_set(q).contains(u)),
    ensures
        (exists|j: int| 1 <= j < n && #[trigger] line_square(k, ds[ki], j) == Some(f)) || ray_attacks(
            k,
            ds,
            occupied_set(p),
        ).contains(s),
        forall|j: int|
            1 <= j < n && #[trigger] line_square(k, ds[ki], j) == Some(f) ==> ray_attacks(k, ds, occupied_set(p)).contains(f),
{
    let d = ds[ki];
    let occ = occupied_set(p);
    if !exists|j: int| 1 <= j < n && #[trigger] line_square(k, ds[ki], j) == Some(f) {
        assert forall|m: int|
            #![trigger line_square(k, d, m)]
            1 <= m < n implies (line_square(k, d, m) matches Some(u) && !occ.contains(u)) by {
            assert(line_square(k, d, m) matches Some(u) && !occupied_set(q).contains(u));
        }
        lemma_ray_reach(k, ds, occ, ki, n, s);
    }
    assert forall|j: int| 1 <= j < n && #[trigger] line_square(k, ds[ki], j) == Some(f) implies ray_attacks(
        k,
        ds,
        occ,
    ).contains(f) by {
        assert forall|m: int|
            #![trigger line_square(k, d, m)]
            1 <= m < j implies (line_square(k, d, m) matches Some(u) && !occ.contains(u)) by {
            assert(line_square(k, d, m) matches Some(u) && !occupied_set(q).contains(u));
            if line_square(k, d, m) == Some(f) {
                lemma_line_injective(k, d, m, j);
            }
        }
        lemma_ray_reach(k, ds, occ, ki, j, f);
    }
}

/// After a move that gives no check by the rules of `gives_check`, the piece that moved does not
/// attack the opponent king, when no piece attacked it before.
proof fn lemma_landed_not_checker(p: PartialPosition,
    q: PartialPosition,
    f: int,
    x: int,
    k: int,
    lk: PieceType,
    xk: PieceType,
)
    requires
        move_frame(p, q, f, x, k),
        opponent_unattacked(p),
        !checkables_spec(p, lk).contains(x),
        q.board@[x] matches Some(pl) && pl.kind() == lk,
        lk == p.board@[f]->0.kind() || (lk == kind_promoted(p.board@[f]->0.kind()) && kind_is_promotable(
            p.board@[f]->0.kind(),
        )),
        is_component(xk),
    ensures
        !checks_via(q, xk, k, x),
{
    if checks_via(q, xk, k, x) {
        let c = p.side;
        let opp = c.opposite();
        let fl = with_side(p, opp);
        let occ = occupied_set(p);
        let occq = occupied_set(q);
        let pk = p.board@[f]->0.kind();
        crate::piece::lemma_kind_code(pk);
        lemma_kind_rays(xk, opp, occq, occ, k);
        lemma_kind_rays(xk, opp, occ, occq, k);
        if is_ray(xk) {
            let ds = ray_dirs(xk, opp);
            let (ki, n) = crate::tables::ray_witness(k, ds, occq, x);
            lemma_ray_before(p, q, f, x, k, ds, ki, n, x);
            if exists|j: int| 1 <= j < n && #[trigger] line_square(k, ds[ki], j) == Some(f) {
                let j = choose|j: int| 1 <= j < n && #[trigger] line_square(k, ds[ki], j) == Some(f);
                assert(ray_attacks(k, ds, occ).contains(f));
                assert(component_kinds(xk).contains(pk));
                assert(checks_via(fl, xk, k, f));
                lemma_checkers_via(fl, k, f);
            } else {
                lemma_checkable_via(p, xk, lk, k, x);
            }
        } else {
            lemma_checkable_via(p, xk, lk, k, x);
        }
    }
}

/// After a move that uncovers no check by the rules of `gives_check`, no piece but the one that
/// moved attacks the opponent king, when no piece attacked it before and the moving piece went
/// to a square it attacked.
proof fn lemma_other_not_checker(p: PartialPosition,
    q: PartialPosition,
    f: int,
    x: int,
    k: int,
    s: int,
    xk: PieceType,
)
    requires
        move_frame(p, q, f, x, k),
        opponent_unattacked(p),
        s != x,
        is_component(xk),
        piece_attacks(p.board@[f]->0.kind(), f, p.side, occupied_set(p)).contains(x),
        !(pinned_spec(p, p.side.opposite()).contains(f) && !(between_set(k, f).contains(x) || between_set(
            k,
            x,
        ).contains(f))),
    ensures
        !checks_via(q, xk, k, s),
{
    if checks_via(q, xk, k, s) {
        let c = p.side;
        let opp = c.opposite();
        let fl = with_side(p, opp);
        let occ = occupied_set(p);
        let occq = occupied_set(q);
        let pk = p.board@[f]->0.kind();
        assert(s != f);
        assert(q.board@[s] == p.board@[s]);
        lemma_kind_rays(xk, opp, occq, occ, k);
        lemma_kind_rays(xk, opp, occ, occq, k);
        if !is_ray(xk) {
            assert(checks_via(fl, xk, k, s));
            lemma_checkers_via(fl, k, s);
        } else {
            let ds = ray_dirs(xk, opp);
            let (ki, n) = crate::tables::ray_witness(k, ds, occq, s);
            let dl = ds[ki];
            lemma_ray_before(p, q, f, x, k, ds, ki, n, s);
            if exists|j: int| 1 <= j < n && #[trigger] line_square(k, ds[ki], j) == Some(f) {
                let j = choose|j: int| 1 <= j < n && #[trigger] line_square(k, ds[ki], j) == Some(f);
                // The moved piece stood alone between the king and the slider on `s`.
                crate::tables::lemma_attacks_fewer(xk, k, opp, Set::empty(), occq);
                assert(snipers_spec(p, opp, k).contains(s));
                assert forall|u: int| #[trigger] blockers(p, k, s).contains(u) == (u == f) by {
                    crate::tables::lemma_between_line(k, dl, n, s, u);
                    if blockers(p, k, s).contains(u) {
                        let mm = choose|mm: int| 1 <= mm < n && #[trigger] line_square(k, dl, mm) == Some(u);
                        assert(line_square(k, dl, mm) matches Some(w) && !occq.contains(w));
                    }
                    if u == f {
                        assert(1 <= j < n && line_square(k, dl, j) == Some(u));
                    }
                }
                assert(blockers(p, k, s) =~= Set::<int>::empty().insert(f));
                assert(pins(p, k, s, f));
                assert(pinned_spec(p, opp).contains(f));
                if between_set(k, f).contains(x) {
                    crate::tables::lemma_between_line(k, dl, j, f, x);
                    let mm = choose|mm: int| 1 <= mm < j && #[trigger] line_square(k, dl, mm) == Some(x);
                    assert(line_square(k, dl, mm) matches Some(w) && !occq.contains(w));
                } else {
                    assert(between_set(k, x).contains(f));
                    assert(crate::tables::aligned(k, x));
                    let nx = crate::tables::lemma_aligned_line(k, x);
                    let d2 = crate::tables::direction(k, x);
                    crate::tables::lemma_between_line(k, d2, nx, x, f);
                    let i = choose|i: int| 1 <= i < nx && #[trigger] line_square(k, d2, i) == Some(f);
                    crate::tables::lemma_line_unit(k, d2, i, f);
                    crate::tables::lemma_line_unit(k, dl, j, f);
                    assert(d2 == dl);
                    lemma_line_injective(k, dl, i, j);
                    if nx == n {
                        assert(x == s);
                    } else if nx < n {
                        assert(line_square(k, dl, nx) matches Some(w) && !occq.contains(w));
                    } else {
                        crate::tables::lemma_line_shift(k, dl, j, n, f, s);
                        crate::tables::lemma_line_shift(k, dl, j, nx, f, x);
                        assert(occ.contains(s));
                        crate::tables::lemma_no_jump(pk, f, c, occ, dl, nx - j, n - j, s, x);
                    }
                }
            } else {
                assert(checks_via(fl, xk, k, s));
                lemma_checkers_via(fl, k, s);
            }
        }
    }
}

/// The one occupied square between the king of `c` on `k` and an opposing slider on `s` holds a
/// pinned piece.
pub proof fn lemma_sole_blocker(p: PartialPosition, c: Color, k: int, s: int, f: int, dl: Delta, j: int, n: int)
    requires
        king_square(p, c) == Some(k),
        snipers_spec(p, c, k).contains(s),
        0 <= k < 81,
        unit(dl),
        1 <= j < n,
        line_square(k, dl, j) == Some(f),
        line_square(k, dl, n) == Some(s),
        occupied_set(p).contains(f),
        forall|m: int|
            #![trigger line_square(k, dl, m)]
            1 <= m < n && m != j ==> (line_square(k, dl, m) matches Some(u) && !occupied_set(p).contains(u)),
    ensures
        pinned_spec(p, c).contains(f),
{
    assert forall|u: int| #[trigger] blockers(p, k, s).contains(u) == (u == f) by {
        crate::tables::lemma_between_line(k, dl, n, s, u);
        if blockers(p, k, s).contains(u) {
            let mm = choose|mm: int| 1 <= mm < n && #[trigger] line_square(k, dl, mm) == Some(u);
            if mm != j {
                assert(line_square(k, dl, mm) matches Some(w) && !occupied_set(p).contains(w));
            }
        }
        if u == f {
            assert(1 <= j < n && line_square(k, dl, j) == Some(u));
        }
    }
    assert(blockers(p, k, s) =~= Set::<int>::empty().insert(f));
    assert(pins(p, k, s, f));
}

/// A piece of color `c2` on `s` that attacks `sq` along the attacks of a checked kind from `sq`
/// is among the attackers of `sq`.
pub proof fn lemma_attackers_via(p: PartialPosition, c2: Color, sq: int, occ: Set<int>, xk: PieceType, s: int)
    requires
        0 <= s < 81,
        is_component(xk),
        piece_attacks(xk, sq, c2.opposite(), occ).contains(s),
        p.board@[s] matches Some(q) && q.side() == c2 && component_kinds(xk).contains(q.kind()),
    ensures
        crate::movegen::attackers_spec(p, c2, sq, occ).contains(s),
{
    let q = p.board@[s]->0;
    assert(color_set(p, c2).contains(s));
    assert(kind_set(p, q.kind()).contains(s));
}

/// A slider found from `x` along the rays of a checked sliding kind reaches `x` back over an
/// empty board.
pub proof fn lemma_reverse_reach(xk: PieceType, c: Color, x: int, ki: int, n: int, s: int, y: PieceType)
    requires
        is_ray(xk),
        0 <= x < 81,
        0 <= ki < ray_dirs(xk, c).len(),
        n >= 1,
        line_square(x, ray_dirs(xk, c)[ki], n) == Some(s),
        component_kinds(xk).contains(y),
    ensures
        piece_attacks(y, s, c.opposite(), Set::empty()).contains(x),
{
    let ds = ray_dirs(xk, c);
    let dl = ds[ki];
    assert(unit(dl));
    assert(dl.small());
    assert(line_square(x, dl, 0) == Some(x)) by {
        crate::tables::lemma_coords(crate::square::file_of(x), crate::square::rank_of(x));
    }
    crate::tables::lemma_line_back(x, dl, n, s, 0);
    let nd = crate::tables::neg(dl);
    assert(line_square(s, nd, n) == Some(x));
    assert(nd.small());
    assert forall|m: int|
        #![trigger line_square(s, nd, m)]
        1 <= m < n implies (line_square(s, nd, m) matches Some(u) && !Set::<int>::empty().contains(u)) by {
        if line_square(s, nd, m) is None {
            crate::tables::lemma_line_gone(s, nd, m, n);
        }
    }
    let ys = ray_dirs(xk, c.opposite());
    let i = if xk == PieceType::KY {
        0
    } else {
        (ki + 2) % 4
    };
    assert(ys[i] == nd) by {
        if xk == PieceType::KY {
            assert(ki == 0);
        } else {
            assert(ki == 0 || ki == 1 || ki == 2 || ki == 3);
        }
    }
    crate::tables::lemma_ray_reach(s, ys, Set::empty(), i, n, x);
}

/// A drop records as checkers exactly the pieces that attack the opponent king after it, when
/// no piece attacked that king before: the dropped piece if it attacks the king, else none.
pub proof fn law_drop_checkers(p: PartialPosition, m: Move)
    requires
        can_apply(p, m),
        m@ matches MoveType::Drop { to, piece } && piece.side() == p.side && 0 <= to.0 < 81,
        opponent_unattacked(p),
    ensures
        checkers_after(p, m) == checkers_spec(after_move(p, m)),
{
    match m@ {
        MoveType::Drop { to, piece } => {
            let x = to.0 as int;
            let c = p.side;
            let opp = c.opposite();
            let q = after_move(p, m);
            let f = with_side(p, opp);
            let pk = piece.kind();
            assert(q.board@ == p.board@.update(x, Some(piece)));
            assert(color_set(q, opp).intersect(kind_set(q, PieceType::OU)) =~= color_set(p, opp).intersect(
                kind_set(p, PieceType::OU),
            ));
            assert(color_set(f, opp).intersect(kind_set(f, PieceType::OU)) =~= color_set(p, opp).intersect(
                kind_set(p, PieceType::OU),
            ));
            let expected = if checkables_spec(p, pk).contains(x) {
                Set::<int>::empty().insert(x)
            } else {
                Set::<int>::empty()
            };
            assert(checkers_after(p, m) == expected);
            match king_square(p, opp) {
                Some(k) => {
                    let occ = occupied_set(p);
                    let occq = occupied_set(q);
                    assert(occq =~= occ.insert(x));
                    assert(occupied_set(f) =~= occ);
                    assert(f.board@ == p.board@);
                    assert(forall|i: int| 0 <= i < 81 && i != x ==> q.board@[i] == f.board@[i]);
                    assert forall|s: int| s != x && #[trigger] checkers_spec(q).contains(s) implies false by {
                        lemma_checkers_off_square(q, f, x, s);
                    }
                    lemma_drop_square(p, q, x, piece, k);
                    assert(checkers_spec(q) =~= expected);
                },
                None => {
                    assert(checkers_spec(q) =~= expected);
                },
            }
        },
        MoveType::Normal { from: _, to: _, is_promotion: _, piece: _ } => {},
    }
}

/// What a normal move changes: the squares it leaves and enters, and nothing of the opponent
/// king.
#[verifier::spinoff_prover]
#[verifier::rlimit(30)]
proof fn lemma_normal_frame(p: PartialPosition, m: Move)
    requires
        can_apply(p, m),
        reaching_move(p, m),
    ensures
        m@ matches MoveType::Normal { from, to, is_promotion, piece: _ } && ({
            let q = after_move(p, m);
            let f = from.0 as int;
            let x = to.0 as int;
            let pk = p.board@[f]->0.kind();
            let lk = if is_promotion {
                kind_promoted(pk)
            } else {
                pk
            };
            &&& king_square(q, q.side) == king_square(p, q.side)
            &&& (king_square(p, q.side) matches Some(k) ==> move_frame(p, q, f, x, k))
            &&& q.board@[x] matches Some(pl) && pl.kind() == lk
            &&& (lk == pk || (lk == kind_promoted(pk) && kind_is_promotable(pk)))
        }),
{
    match m@ {
        MoveType::Normal { from, to, is_promotion, piece: _ } => {
            let f = from.0 as int;
            let x = to.0 as int;
            let c = p.side;
            let opp = c.opposite();
            let q = after_move(p, m);
            let fl = with_side(p, opp);
            let mover = p.board@[f]->0;
            let pk = mover.kind();
            let lk = if is_promotion {
                kind_promoted(pk)
            } else {
                pk
            };
            let placed = if is_promotion {
                Piece::make(c, kind_promoted(pk))
            } else {
                mover
            };
            crate::piece::lemma_make(c, kind_promoted(pk));
            assert(placed.side() == c && placed.kind() == lk);
            assert(q.board@ == p.board@.update(f, None).update(x, Some(placed)));
            assert(color_set(q, opp).intersect(kind_set(q, PieceType::OU)) =~= color_set(p, opp).intersect(
                kind_set(p, PieceType::OU),
            ));
            assert(color_set(fl, opp).intersect(kind_set(fl, PieceType::OU)) =~= color_set(p, opp).intersect(
                kind_set(p, PieceType::OU),
            ));
            assert(occupied_set(q) =~= occupied_set(p).remove(f).insert(x));
            assert(occupied_set(fl) =~= occupied_set(p));
        },
        MoveType::Drop { to: _, piece: _ } => {},
    }
}

/// A normal move records as checkers exactly the pieces that attack the opponent king after it,
/// when no piece attacked that king before and the moving piece goes to a square it attacks that
/// holds no piece of its side: `gives_check` misses no check, direct or uncovered.
pub proof fn law_move_checkers(p: PartialPosition, m: Move)
    requires
        can_apply(p, m),
        reaching_move(p, m),
        opponent_unattacked(p),
    ensures
        checkers_after(p, m) == checkers_spec(after_move(p, m)),
{
    lemma_normal_frame(p, m);
    match m@ {
        MoveType::Normal { from, to, is_promotion, piece: _ } => {
            if !gives_check(p, m) {
                let f = from.0 as int;
                let x = to.0 as int;
                let q = after_move(p, m);
                let pk = p.board@[f]->0.kind();
                let lk = if is_promotion {
                    kind_promoted(pk)
                } else {
                    pk
                };
                match king_square(p, q.side) {
                    Some(k) => {
                        assert forall|s: int| !#[trigger] checkers_spec(q).contains(s) by {
                            lemma_checkers_via(q, k, s);
                            if checkers_spec(q).contains(s) {
                                let xk = choose|xk: PieceType| is_component(xk) && #[trigger] checks_via(q, xk, k, s);
                                if s == x {
                                    lemma_landed_not_checker(p, q, f, x, k, lk, xk);
                                } else {
                                    lemma_other_not_checker(p, q, f, x, k, s, xk);
                                }
                            }
                        }
                        assert(checkers_spec(q) =~= Set::<int>::empty());
                    },
                    None => {
                        assert(checkers_spec(q) =~= Set::<int>::empty());
                    },
                }
            }
        },
        MoveType::Drop { to: _, piece: _ } => {},
    }
}

proof fn lemma_has_lowest(s: Set<int>, i: int)
    requires
        s.contains(i),
        forall|j: int| #[trigger] s.contains(j) ==> 0 <= j,
    ensures
        exists|x: int| s.contains(x) && forall|j: int| #[trigger] s.contains(j) ==> x <= j,
    decreases i,
{
    if exists|j: int| #[trigger] s.contains(j) && j < i {
        let j = choose|j: int| #[trigger] s.contains(j) && j < i;
        assert(0 <= j);
        lemma_has_lowest(s, j);
    } else {
        assert(forall|j: int| #[trigger] s.contains(j) ==> i <= j);
    }
}

/// A king's square is on the board.
proof fn lemma_king_in_range(p: PartialPosition, c: Color)
    ensures
        king_square(p, c) matches Some(k) ==> 0 <= k < 81,
{
    let s = color_set(p, c).intersect(kind_set(p, PieceType::OU));
    if exists|i: int| #[trigger] s.contains(i) {
        let i = choose|i: int| #[trigger] s.contains(i);
        lemma_has_lowest(s, i);
    }
}

/// A piece that attacks the square it lands on from the king's square before the move still
/// does after it: the squares before it stay as empty as they were.
proof fn lemma_landed_attack(p: PartialPosition, q: PartialPosition, f: int, x: int, k: int, xk: PieceType)
    requires
        move_frame(p, q, f, x, k),
        0 <= k < 81,
        is_component(xk),
        piece_attacks(xk, k, p.side.opposite(), occupied_set(p)).contains(x),
    ensures
        piece_attacks(xk, k, p.side.opposite(), occupied_set(q)).contains(x),
{
    let c = p.side.opposite();
    lemma_kind_rays(xk, c, occupied_set(p), occupied_set(q), k);
    lemma_kind_rays(xk, c, occupied_set(q), occupied_set(p), k);
    if is_ray(xk) {
        let ds = ray_dirs(xk, c);
        let (ki, n) = crate::tables::ray_witness(k, ds, occupied_set(p), x);
        let dl = ds[ki];
        assert(unit(dl));
        assert forall|m: int|
            #![trigger line_square(k, dl, m)]
            1 <= m < n implies (line_square(k, dl, m) matches Some(u) && !occupied_set(q).contains(u)) by {
            let u = line_square(k, dl, m)->0;
            if u == x {
                lemma_line_injective(k, dl, m, n);
            }
        }
        crate::tables::lemma_ray_reach(k, ds, occupied_set(q), ki, n, x);
    }
}

/// A normal move that lands on a square from which its piece attacks the opposing king checks
/// from there.
proof fn lemma_direct_check(p: PartialPosition, q: PartialPosition, f: int, x: int, k: int, lk: PieceType)
    requires
        move_frame(p, q, f, x, k),
        0 <= k < 81,
        king_square(q, q.side) == Some(k),
        checkables_spec(p, lk).contains(x),
        q.board@[x] matches Some(pl) && pl.kind() == lk && pl.side() == p.side,
    ensures
        checkers_spec(q).contains(x),
{
    let c = p.side.opposite();
    let occ = occupied_set(p);
    crate::piece::lemma_kind_code(lk);
    let xk = if lk == PieceType::TO || lk == PieceType::NY || lk == PieceType::NK || lk == PieceType::NG {
        PieceType::KI
    } else if lk == PieceType::UM {
        if piece_attacks(PieceType::KA, k, c, occ).contains(x) {
            PieceType::KA
        } else {
            PieceType::KI
        }
    } else if lk == PieceType::RY {
        if piece_attacks(PieceType::HI, k, c, occ).contains(x) {
            PieceType::HI
        } else {
            PieceType::GI
        }
    } else {
        lk
    };
    assert(lk != PieceType::OU);
    assert(is_component(xk));
    assert(component_kinds(xk).contains(lk));
    assert(piece_attacks(xk, k, c, occ).contains(x));
    lemma_landed_attack(p, q, f, x, k, xk);
    assert(p.side.opposite().opposite() == p.side) by {
        match p.side {
            Color::Black => {},
            Color::White => {},
        }
    }
    assert(checks_via(q, xk, k, x));
    lemma_checkers_via(q, k, x);
}

/// A normal move of the one piece between the opposing king and a slider of the mover, off the
/// line between them, opens a check by that slider.
proof fn lemma_discovered_check(p: PartialPosition, q: PartialPosition, f: int, x: int, k: int)
    requires
        move_frame(p, q, f, x, k),
        0 <= k < 81,
        king_square(q, q.side) == Some(k),
        pinned_spec(p, q.side).contains(f),
        !(between_set(k, f).contains(x) || between_set(k, x).contains(f)),
    ensures
        checkers_spec(q) != Set::<int>::empty(),
{
    let c = q.side;
    let occ = occupied_set(p);
    let occq = occupied_set(q);
    let s = choose|s: int| snipers_spec(p, c, k).contains(s) && #[trigger] pins(p, k, s, f);
    let xk = if piece_attacks(PieceType::KY, k, c, Set::empty()).intersect(kind_set(p, PieceType::KY)).contains(s) {
        PieceType::KY
    } else if piece_attacks(PieceType::KA, k, c, Set::empty()).intersect(
        kind_set(p, PieceType::KA).union(kind_set(p, PieceType::UM)),
    ).contains(s) {
        PieceType::KA
    } else {
        PieceType::HI
    };
    assert(is_component(xk) && is_ray(xk));
    lemma_kind_rays(xk, c, Set::empty(), occq, k);
    lemma_kind_rays(xk, c, occq, Set::empty(), k);
    let ds = ray_dirs(xk, c);
    let (ki, n) = crate::tables::ray_witness(k, ds, Set::empty(), s);
    let dl = ds[ki];
    assert(unit(dl));
    assert(blockers(p, k, s).contains(f));
    crate::tables::lemma_between_line(k, dl, n, s, f);
    let j = choose|j: int| 1 <= j < n && #[trigger] line_square(k, dl, j) == Some(f);
    assert(blockers(p, k, s).subset_of(crate::bitboard::board_set()));
    assert forall|m: int|
        #![trigger line_square(k, dl, m)]
        1 <= m < n implies (line_square(k, dl, m) matches Some(u) && !occq.contains(u)) by {
        let u = line_square(k, dl, m)->0;
        crate::tables::lemma_between_line(k, dl, n, s, u);
        assert(between_set(k, s).contains(u));
        if u == x {
            if m < j {
                crate::tables::lemma_between_line(k, dl, j, f, x);
            } else if m > j {
                crate::tables::lemma_between_line(k, dl, m, x, f);
            }
        } else if u != f && occ.contains(u) {
            assert(blockers(p, k, s).contains(u));
            crate::movegen::lemma_one_member(blockers(p, k, s), f, u);
        }
    }
    crate::tables::lemma_ray_reach(k, ds, occq, ki, n, s);
    assert(s != x) by {
        if s == x {
            crate::tables::lemma_between_line(k, dl, n, x, f);
        }
    }
    assert(s != f);
    assert(q.board@[s] == p.board@[s]);
    assert(checks_via(q, xk, k, s));
    lemma_checkers_via(q, k, s);
    assert(checkers_spec(q).contains(s));
}

/// The normal-move half of `law_check_moves_check`.
#[verifier::spinoff_prover]
#[verifier::rlimit(40)]
proof fn lemma_normal_checks(p: PartialPosition, m: Move)
    requires
        can_apply(p, m),
        reaching_move(p, m),
        gives_check(p, m),
    ensures
        checkers_spec(after_move(p, m)) != Set::<int>::empty(),
{
    match m@ {
        MoveType::Normal { from, to, is_promotion, piece: _ } => {
            lemma_normal_frame(p, m);
            let q = after_move(p, m);
            let f = from.0 as int;
            let x = to.0 as int;
            let pk = p.board@[f]->0.kind();
            let lk = if is_promotion {
                kind_promoted(pk)
            } else {
                pk
            };
            let k = king_square(p, q.side)->0;
            assert(0 <= k < 81) by {
                lemma_king_in_range(p, q.side);
            }
            if checkables_spec(p, lk).contains(x) {
                lemma_direct_check(p, q, f, x, k, lk);
            } else {
                lemma_discovered_check(p, q, f, x, k);
            }
        },
        MoveType::Drop { to: _, piece: _ } => {},
    }
}

/// `is_check_move` tells exactly whether the position after the move records checkers, so
/// whether `in_check` holds after `do_move`; and a normal move that it reports as checking leaves
/// the king to move attacked on the new position. (`law_move_checkers` and `law_drop_checkers`
/// give the converse from a position whose side not to move is not in check.)
pub proof fn law_check_moves_check(p: PartialPosition, m: Move)
    requires
        can_apply(p, m),
        m@ is Drop || reaching_move(p, m),
    ensures
        (checkers_after(p, m) != Set::<int>::empty()) == gives_check(p, m),
        m@ is Normal && gives_check(p, m) ==> checkers_spec(after_move(p, m)) != Set::<int>::empty(),
{
    match m@ {
        MoveType::Drop { to, piece: _ } => {
            if gives_check(p, m) {
                assert(checkers_after(p, m).contains(to.0 as int));
            }
        },
        MoveType::Normal { from: _, to: _, is_promotion: _, piece: _ } => {
            if gives_check(p, m) {
                lemma_normal_checks(p, m);
            }
        },
    }
}

impl Position {
    /// The tables of a well-formed position are well formed.
    pub proof fn lemma_tables_wf(self)
        requires
            self.wf(),
        ensures
            self.tables().wf(),
            self.model().hands_in_range(),
    {
        assert(self.model_at(self.past@.len() as int) == self.model());
    }

    pub fn attack_table(&self) -> (r: &AttackTable)
        requires
            self.wf(),
        ensures
            *r == self.tables().attack,
            r.wf(),
    {
        &self.tables.attack
    }

    pub fn between_table(&self) -> (r: &BetweenTable)
        requires
            self.wf(),
        ensures
            *r == self.tables().between,
            r.wf(),
    {
        &self.tables.between
    }

    /// The squares of the pieces of color `c`.
    pub fn player_bitboard(&self, c: Color) -> (r: Bitboard)
        requires
            self.wf(),
        ensures
            r@ == color_set(self.model(), c),
    {
        self.inner.player_bitboard(c)
    }

    /// The squares of the pieces of kind `pk`.
    pub fn piece_kind_bitboard(&self, pk: PieceType) -> (r: Bitboard)
        requires
            self.wf(),
        ensures
            r@ == kind_set(self.model(), pk),
    {
        self.inner.kind_bitboard(pk)
    }

    /// The squares of piece `p`.
    pub fn piece_bitboard(&self, p: Piece) -> (r: Bitboard)
        requires
            self.wf(),
        ensures
            r@ == kind_set(self.model(), p.kind()).intersect(color_set(self.model(), p.side())),
    {
        self.inner.kind_bitboard(p.piece_type()).and(self.inner.player_bitboard(p.color()))
    }

    /// The occupied squares.
    pub fn occupied_bitboard(&self) -> (r: Bitboard)
        requires
            self.wf(),
        ensures
            r@ == occupied_set(self.model()),
    {
        self.inner.occupied_bitboard()
    }

    /// The square of the king of color `c`.
    pub fn king_position(&self, c: Color) -> (r: Option<Square>)
        requires
            self.wf(),
        ensures
            r matches Some(s) ==> s.wf() && king_square(self.model(), c) == Some(s.0 as int),
            r is None ==> king_square(self.model(), c) is None,
    {
        self.inner.king_position(c)
    }

    /// The piece captured by the last move, as recorded.
    pub fn captured(&self) -> (r: Option<Piece>)
        requires
            self.wf(),
        ensures
            r == self.last_captured(),
    {
        self.state().captured()
    }

    /// The piece moved or dropped by the last move, as recorded.
    pub fn last_moved(&self) -> (r: Option<Piece>)
        requires
            self.wf(),
        ensures
            r == self.last_moved_piece(),
    {
        self.state().last_moved()
    }

    /// The recorded checkers.
    pub fn checkers(&self) -> (r: Bitboard)
        requires
            self.wf(),
        ensures
            r@ == self.recorded_checkers(),
    {
        self.state().attack_info().checkers()
    }

    /// The pieces pinned against the king of `c`.
    pub fn pinned(&self, c: Color) -> (r: Bitboard)
        requires
            self.wf(),
        ensures
            r@ == pinned_spec(self.model(), c),
    {
        self.state().attack_info().pinned(c)
    }

    /// Whether a piece of kind `pk` of the side to move on `sq` would attack the opponent king.
    pub fn checkable(&self, pk: PieceType, sq: Square) -> (r: bool)
        requires
            self.wf(),
            sq.wf(),
        ensures
            r == checkables_spec(self.model(), pk).contains(sq.0 as int),
    {
        self.state().attack_info().checkable(pk, sq)
    }
}

/// The kind on file `f` of a side's back rank at the start.
pub open spec fn back_rank_kind(f: int) -> PieceType {
    if f == 0 || f == 8 {
        PieceType::KY
    } else if f == 1 || f == 7 {
        PieceType::KE
    } else if f == 2 || f == 6 {
        PieceType::GI
    } else if f == 3 || f == 5 {
        PieceType::KI
    } else {
        PieceType::OU
    }
}

/// What stands on square `i` at the start of a game.
pub open spec fn startpos_cell(i: int) -> Option<Piece> {
    let f = i / 9;
    let r = i % 9;
    if r == 6 {
        Some(Piece::BFU)
    } else if r == 2 {
        Some(Piece::WFU)
    } else if r == 8 {
        Some(Piece::make(Color::Black, back_rank_kind(f)))
    } else if r == 0 {
        Some(Piece::make(Color::White, back_rank_kind(f)))
    } else if r == 7 && f == 7 {
        Some(Piece::BKA)
    } else if r == 7 && f == 1 {
        Some(Piece::BHI)
    } else if r == 1 && f == 1 {
        Some(Piece::WKA)
    } else if r == 1 && f == 7 {
        Some(Piece::WHI)
    } else {
        None
    }
}

fn back_rank(f: i8) -> (r: PieceType)
    ensures
        r == back_rank_kind(f as int),
{
    if f == 0 || f == 8 {
        PieceType::KY
    } else if f == 1 || f == 7 {
        PieceType::KE
    } else if f == 2 || f == 6 {
        PieceType::GI
    } else if f == 3 || f == 5 {
        PieceType::KI
    } else {
        PieceType::OU
    }
}

fn startpos_piece(i: i8) -> (r: Option<Piece>)
    requires
        0 <= i < 81,
    ensures
        r == startpos_cell(i as int),
{
    let f = i / 9;
    let r = i % 9;
    if r == 6 {
        Some(Piece::BFU)
    } else if r == 2 {
        Some(Piece::WFU)
    } else if r == 8 {
        Some(Piece::from_cp(Color::Black, back_rank(f)))
    } else if r == 0 {
        Some(Piece::from_cp(Color::White, back_rank(f)))
    } else if r == 7 && f == 7 {
        Some(Piece::BKA)
    } else if r == 7 && f == 1 {
        Some(Piece::BHI)
    } else if r == 1 && f == 1 {
        Some(Piece::WKA)
    } else if r == 1 && f == 7 {
        Some(Piece::WHI)
    } else {
        None
    }
}

impl PartialPosition {
    /// The starting position: Black to move at ply 1, empty hands.
    pub fn startpos() -> (r: Self)
        ensures
            r.side == Color::Black,
            r.ply == 1,
            forall|c: Color, slot: int| 0 <= slot < 7 ==> #[trigger] r.count(c, slot) == 0,
            r.board@ == Seq::new(81, |i: int| startpos_cell(i)),
            r.hands_in_range(),
    {
        let mut board: [Option<Piece>; 81] = [None; 81];
        let mut i: i8 = 0;
        while i < 81
            invariant
                0 <= i <= 81,
                forall|j: int| 0 <= j < i ==> #[trigger] board@[j] == startpos_cell(j),
            decreases 81 - i,
        {
            board[i as usize] = startpos_piece(i);
            i = i + 1;
        }
        assert(board@ =~= Seq::new(81, |i: int| startpos_cell(i)));
        let hands = Hands([Hand::new(), Hand::new()]);
        let r = PartialPosition { side: Color::Black, ply: 1, hands, board };
        assert forall|c: Color, slot: int| 0 <= slot < 7 implies #[trigger] r.count(c, slot) == 0 by {
            match c {
                Color::Black => {},
                Color::White => {},
            }
        }
        r
    }
}

impl Default for Position {
    /// The starting position, with tables of its own.
    fn default() -> (r: Self)
        ensures
            r.wf(),
            r.model().side == Color::Black,
            r.model().ply == 1,
            forall|c: Color, slot: int| 0 <= slot < 7 ==> #[trigger] r.model().count(c, slot) == 0,
            r.model().board@ == Seq::new(81, |i: int| startpos_cell(i)),
            r.past() == Seq::<PartialPosition>::empty(),
            r.played() == Seq::<Move>::empty(),
            r.start_side() == Color::Black,
            r.recorded_checkers() == checkers_spec(r.model()),
            r.tables().zobrist.drawn(),
    {
        Position::new(PartialPosition::startpos())
    }
}

impl Position {
    /// A copy of the position with its history, sharing the tables.
    pub fn duplicate(&self) -> (r: Position)
        requires
            self.wf(),
        ensures
            r.wf(),
            r.model() == self.model(),
            r.past() == self.past(),
            r.played() == self.played(),
            r.start_side() == self.start_side(),
            r.tables() == self.tables(),
            r.recorded_checkers() == self.recorded_checkers(),
    {
        let mut states: Vec<State> = Vec::new();
        let mut i: usize = 0;
        while i < self.states.len()
            invariant
                0 <= i <= self.states@.len(),
                states@ == self.states@.subrange(0, i as int),
            decreases self.states@.len() - i,
        {
            states.push(self.states[i]);
            i = i + 1;
            assert(states@ =~= self.states@.subrange(0, i as int));
        }
        assert(states@ =~= self.states@);
        let r = Position {
            inner: Inner { pp: self.inner.pp, player_bb: self.inner.player_bb, piece_bb: self.inner.piece_bb },
            states,
            tables: share_tables(&self.tables),
            start: Ghost(self.start@),
            past: Ghost(self.past@),
            played: Ghost(self.played@),
        };
        proof {
            assert(r.inner == self.inner);
            assert forall|i: int| #[trigger] r.model_at(i) == self.model_at(i) by {}
            assert forall|i: int| 0 <= i < r.past@.len() implies #[trigger] r.step_ok(i) by {
                assert(self.step_ok(i));
                assert(r.model_at(i + 1) == self.model_at(i + 1));
            }
            assert forall|i: int| 0 <= i <= r.past@.len() implies #[trigger] r.model_at(i).hands_in_range() by {
                assert(self.model_at(i).hands_in_range());
            }
            assert forall|i: int| 0 <= i <= r.past@.len() implies #[trigger] r.states@[i].describes(*r.tables, r.model_at(i), r.start@) by {
                assert(self.states@[i].describes(*self.tables, self.model_at(i), self.start@));
            }
        }
        r
    }
}

} // verus!
