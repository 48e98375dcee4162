use crate::bitboard::{bb_of, board_set, Bitboard};
use crate::color::Color;
use crate::hand::hand_slot;
use crate::piece::{Piece, PieceType};
use crate::position::{
    after_move, can_apply, checkers_after, checkers_spec, checks_via, component_kinds, color_set,
    gold_movers, hand_kind, is_component, is_ray, king_square, kind_set, lemma_checkers_via,
    lemma_kind_rays, lemma_lowest, lowest, occupied_set, opponent_unattacked, pinned_spec, ray_dirs,
    with_side, PartialPosition, Position,
};
use crate::tables::{
    between_set, file_bitboard, file_set, lance_delta, line_square, piece_attacks, step_attacks, step_deltas, unit,
    Delta,
};
use crate::square::{file_of, rank_of, shifted};
use crate::shogi_move::{Move, MoveType};
use crate::square::{relative_rank_of, Square};
use vstd::prelude::*;

verus! {

/// Whether the generator emits the move of a piece of kind `pk` and color `c` from `from` to
/// `to` promoted (`promote`) or not. FU and KY promote on reaching the last three ranks and stay
/// unpromoted there only short of the last rank; KE likewise short of the last two ranks; GI,
/// KA and HI may promote when leaving or entering those ranks; the others never promote.
pub open spec fn promotion_option(pk: PieceType, c: Color, from: int, to: int, promote: bool) -> bool {
    let zone_to = relative_rank_of(to, c) <= 3;
    let zone_from = relative_rank_of(from, c) <= 3;
    match pk {
        PieceType::FU | PieceType::KY => if zone_to {
            promote || relative_rank_of(to, c) > 1
        } else {
            !promote
        },
        PieceType::KE => if zone_to {
            promote || relative_rank_of(to, c) > 2
        } else {
            !promote
        },
        PieceType::GI | PieceType::KA | PieceType::HI => !promote || zone_from || zone_to,
        _ => !promote,
    }
}

/// The normal moves from `from` (holding `piece`) to the squares of `tos`, with the promotion
/// options of kind `pk` for color `c`.
pub open spec fn moves_from(pk: PieceType, c: Color, piece: Piece, from: int, tos: Set<int>) -> Set<MoveType> {
    Set::new(
        |v: MoveType|
            match v {
                MoveType::Normal { from: f, to, is_promotion, piece: q } => {
                    &&& f.0 == from
                    &&& q == piece
                    &&& tos.contains(to.0 as int)
                    &&& promotion_option(pk, c, from, to.0 as int, is_promotion)
                },
                MoveType::Drop { to: _, piece: _ } => false,
            },
    )
}

/// The squares a piece of the side to move on `from` reaches, moving like kind `reach`.
pub open spec fn reach_of(p: PartialPosition, reach: PieceType, from: int) -> Set<int> {
    piece_attacks(reach, from, p.side, occupied_set(p))
}

/// The normal moves of the pieces on `froms`, moving like kind `reach`, to the squares of
/// `target`.
pub open spec fn moves_of(p: PartialPosition, froms: Set<int>, reach: PieceType, target: Set<int>) -> Set<MoveType> {
    Set::new(
        |v: MoveType|
            match v {
                MoveType::Normal { from, to, is_promotion, piece } => {
                    &&& froms.contains(from.0 as int)
                    &&& p.board@[from.0 as int] == Some(piece)
                    &&& reach_of(p, reach, from.0 as int).contains(to.0 as int)
                    &&& target.contains(to.0 as int)
                    &&& promotion_option(reach, p.side, from.0 as int, to.0 as int, is_promotion)
                },
                MoveType::Drop { to: _, piece: _ } => false,
            },
    )
}

/// `after` is `before` followed by distinct moves whose views are exactly the elements of `s`.
pub open spec fn extends_with(before: Seq<Move>, after: Seq<Move>, s: Set<MoveType>) -> bool {
    &&& before.len() <= after.len()
    &&& after.subrange(0, before.len() as int) == before
    &&& forall|i: int| before.len() <= i < after.len() ==> #[trigger] s.contains(after[i]@)
    &&& forall|v: MoveType|
        #[trigger] s.contains(v) ==> exists|i: int| before.len() <= i < after.len() && #[trigger] after[i]@ == v
    &&& forall|i: int, j: int|
        #![trigger after[i], after[j]]
        before.len() <= i < j < after.len() ==> after[i]@ != after[j]@
}

pub proof fn lemma_extends_refl(a: Seq<Move>)
    ensures
        extends_with(a, a, Set::empty()),
{
    assert(a.subrange(0, a.len() as int) =~= a);
}

pub proof fn lemma_extends_trans(a: Seq<Move>, b: Seq<Move>, c: Seq<Move>, s1: Set<MoveType>, s2: Set<MoveType>)
    requires
        extends_with(a, b, s1),
        extends_with(b, c, s2),
        s1.disjoint(s2),
    ensures
        extends_with(a, c, s1.union(s2)),
{
    assert(c.subrange(0, a.len() as int) =~= b.subrange(0, a.len() as int)) by {
        assert forall|i: int| 0 <= i < a.len() implies c.subrange(0, a.len() as int)[i] == b.subrange(0, a.len() as int)[i] by {
            assert(c[i] == c.subrange(0, b.len() as int)[i]);
        }
    }
    assert forall|i: int| a.len() <= i < c.len() implies #[trigger] s1.union(s2).contains(c[i]@) by {
        if i < b.len() {
            assert(c[i] == c.subrange(0, b.len() as int)[i]);
            assert(s1.contains(b[i]@));
        } else {
            assert(s2.contains(c[i]@));
        }
    }
    assert forall|v: MoveType| #[trigger] s1.union(s2).contains(v) implies exists|i: int| a.len() <= i < c.len() && #[trigger] c[i]@ == v by {
        if s1.contains(v) {
            let i = choose|i: int| a.len() <= i < b.len() && #[trigger] b[i]@ == v;
            assert(c[i] == c.subrange(0, b.len() as int)[i]);
            assert(c[i]@ == v);
        } else {
            let i = choose|i: int| b.len() <= i < c.len() && #[trigger] c[i]@ == v;
            assert(c[i]@ == v);
        }
    }
    assert forall|i: int, j: int|
        #![trigger c[i], c[j]]
        a.len() <= i < j < c.len() implies c[i]@ != c[j]@ by {
        if j < b.len() {
            assert(c[i] == c.subrange(0, b.len() as int)[i]);
            assert(c[j] == c.subrange(0, b.len() as int)[j]);
            assert(b[i]@ != b[j]@);
        } else if i < b.len() {
            assert(c[i] == c.subrange(0, b.len() as int)[i]);
            assert(s1.contains(b[i]@));
            assert(s2.contains(c[j]@));
        }
    }
}

pub proof fn lemma_extends_push(a: Seq<Move>, b: Seq<Move>, s: Set<MoveType>, m: Move)
    requires
        extends_with(a, b, s),
        !s.contains(m@),
    ensures
        extends_with(a, b.push(m), s.insert(m@)),
{
    let c = b.push(m);
    assert(c.subrange(0, a.len() as int) =~= b.subrange(0, a.len() as int)) by {
        assert forall|i: int| 0 <= i < a.len() implies c.subrange(0, a.len() as int)[i] == b.subrange(0, a.len() as int)[i] by {
            assert(c[i] == b[i]);
        }
    }
    assert forall|i: int| a.len() <= i < c.len() implies #[trigger] s.insert(m@).contains(c[i]@) by {
        if i < b.len() {
            assert(c[i] == b[i]);
        }
    }
    assert forall|v: MoveType| #[trigger] s.insert(m@).contains(v) implies exists|i: int| a.len() <= i < c.len() && #[trigger] c[i]@ == v by {
        if v == m@ {
            assert(c[b.len() as int]@ == v);
        } else {
            let i = choose|i: int| a.len() <= i < b.len() && #[trigger] b[i]@ == v;
            assert(c[i] == b[i]);
        }
    }
    assert forall|i: int, j: int|
        #![trigger c[i], c[j]]
        a.len() <= i < j < c.len() implies c[i]@ != c[j]@ by {
        assert(c[i] == b[i]);
        if j < b.len() {
            assert(c[j] == b[j]);
        } else {
            assert(s.contains(b[i]@));
        }
    }
}

/// Every move of `s` is a normal move from a square of `froms`.
pub open spec fn all_from(s: Set<MoveType>, froms: Set<int>) -> bool {
    forall|v: MoveType|
        #[trigger] s.contains(v) ==> (v matches MoveType::Normal { from, to: _, is_promotion: _, piece: _ } && froms.contains(
            from.0 as int,
        ))
}

/// Every move of `s` is a drop.
pub open spec fn all_drops(s: Set<MoveType>) -> bool {
    forall|v: MoveType| #[trigger] s.contains(v) ==> v is Drop
}

/// Moves from disjoint sets of squares are distinct, and the moves of both come from the union.
pub proof fn lemma_from_disjoint(s1: Set<MoveType>, a1: Set<int>, s2: Set<MoveType>, a2: Set<int>)
    requires
        all_from(s1, a1),
        all_from(s2, a2),
        a1.disjoint(a2),
    ensures
        s1.disjoint(s2),
        all_from(s1.union(s2), a1.union(a2)),
{
    assert forall|v: MoveType| s1.contains(v) implies !s2.contains(v) by {
        match v {
            MoveType::Normal { from, to: _, is_promotion: _, piece: _ } => {
                assert(a1.contains(from.0 as int));
            },
            MoveType::Drop { to: _, piece: _ } => {},
        }
    }
}

/// Normal moves and drops are distinct.
pub proof fn lemma_from_drops_disjoint(s1: Set<MoveType>, a1: Set<int>, s2: Set<MoveType>)
    requires
        all_from(s1, a1),
        all_drops(s2),
    ensures
        s1.disjoint(s2),
{
    assert forall|v: MoveType| s1.contains(v) implies !s2.contains(v) by {
        assert(!(v is Drop));
    }
}

/// The moves of `moves_of` start from its squares.
pub proof fn lemma_moves_of_from(p: PartialPosition, froms: Set<int>, reach: PieceType, target: Set<int>)
    ensures
        all_from(moves_of(p, froms, reach, target), froms),
{
}

/// Two extensions by moves from disjoint sets of squares make one extension.
pub proof fn lemma_chain_step(
    a: Seq<Move>,
    b: Seq<Move>,
    c: Seq<Move>,
    s1: Set<MoveType>,
    f1: Set<int>,
    s2: Set<MoveType>,
    f2: Set<int>,
)
    requires
        extends_with(a, b, s1),
        extends_with(b, c, s2),
        all_from(s1, f1),
        all_from(s2, f2),
        f1.disjoint(f2),
    ensures
        extends_with(a, c, s1.union(s2)),
        all_from(s1.union(s2), f1.union(f2)),
{
    lemma_from_disjoint(s1, f1, s2, f2);
    lemma_extends_trans(a, b, c, s1, s2);
}

/// Whether the moves of kind `pk` and color `c` from `from` to `to` are emitted promoted and
/// unpromoted.
fn promotion_flags(pk: PieceType, c: Color, from: Square, to: Square) -> (r: (bool, bool))
    requires
        from.wf(),
        to.wf(),
    ensures
        r.0 == promotion_option(pk, c, from.0 as int, to.0 as int, true),
        r.1 == promotion_option(pk, c, from.0 as int, to.0 as int, false),
{
    let rank_to = to.relative_rank(c);
    let zone_to = rank_to <= 3;
    let zone_from = from.relative_rank(c) <= 3;
    match pk {
        PieceType::FU | PieceType::KY => if zone_to {
            (true, rank_to > 1)
        } else {
            (false, true)
        },
        PieceType::KE => if zone_to {
            (true, rank_to > 2)
        } else {
            (false, true)
        },
        PieceType::GI | PieceType::KA | PieceType::HI => (zone_from || zone_to, true),
        _ => (false, true),
    }
}

/// Pushes the moves from `from` (holding `piece`) to the squares of `tos`, with the promotion
/// options of kind `pk` for color `c`: for FU, KY and KE the promoted move first, for the others
/// the unpromoted one first.
fn push_moves_from(av: &mut Vec<Move>, pk: PieceType, c: Color, piece: Piece, from: Square, tos: Bitboard)
    requires
        from.wf(),
    ensures
        extends_with(old(av)@, final(av)@, moves_from(pk, c, piece, from.0 as int, tos@)),
{
    let ghost start = av@;
    let mut rest = tos;
    proof {
        lemma_extends_refl(av@);
        assert(moves_from(pk, c, piece, from.0 as int, tos@.difference(rest@)) =~= Set::<MoveType>::empty());
    }
    let promote_first = match pk {
        PieceType::FU | PieceType::KY | PieceType::KE => true,
        _ => false,
    };
    while !rest.is_empty()
        invariant
            from.wf(),
            rest@.subset_of(tos@),
            extends_with(start, av@, moves_from(pk, c, piece, from.0 as int, tos@.difference(rest@))),
        decreases rest@.len(),
    {
        proof {
            rest.lemma_view_on_board();
        }
        let ghost rest_before = rest@;
        let ghost av_before = av@;
        let to = rest.pop().unwrap();
        let (with_promotion, without) = promotion_flags(pk, c, from, to);
        let ghost old_set = moves_from(pk, c, piece, from.0 as int, tos@.difference(rest_before));
        let ghost vp = MoveType::Normal { from, to, is_promotion: true, piece };
        let ghost vu = MoveType::Normal { from, to, is_promotion: false, piece };
        let ghost pushed = if with_promotion && without {
            Set::empty().insert(vp).insert(vu)
        } else if with_promotion {
            Set::empty().insert(vp)
        } else if without {
            Set::empty().insert(vu)
        } else {
            Set::empty()
        };
        if promote_first {
            if with_promotion {
                let m = Move::new_normal(from, to, true, piece);
                proof {
                    lemma_extends_push(start, av@, old_set, m);
                }
                av.push(m);
            }
            if without {
                let m = Move::new_normal(from, to, false, piece);
                proof {
                    lemma_extends_push(start, av@, if with_promotion { old_set.insert(vp) } else { old_set }, m);
                }
                av.push(m);
            }
        } else {
            if without {
                let m = Move::new_normal(from, to, false, piece);
                proof {
                    lemma_extends_push(start, av@, old_set, m);
                }
                av.push(m);
            }
            if with_promotion {
                let m = Move::new_normal(from, to, true, piece);
                proof {
                    lemma_extends_push(start, av@, if without { old_set.insert(vu) } else { old_set }, m);
                }
                av.push(m);
            }
        }
        proof {
            let new_set = moves_from(pk, c, piece, from.0 as int, tos@.difference(rest@));
            assert(new_set =~= old_set.union(pushed)) by {
                assert forall|v: MoveType| new_set.contains(v) == old_set.union(pushed).contains(v) by {
                    match v {
                        MoveType::Normal { from: f, to: t2, is_promotion, piece: q } => {
                            if t2 == to && f == from && q == piece {
                                if is_promotion {
                                    assert(v == vp);
                                } else {
                                    assert(v == vu);
                                }
                            }
                        },
                        MoveType::Drop { to: _, piece: _ } => {},
                    }
                }
            }
            if promote_first {
                if with_promotion && without {
                    assert(old_set.insert(vp).insert(vu) =~= old_set.union(pushed));
                } else if with_promotion {
                    assert(old_set.insert(vp) =~= old_set.union(pushed));
                } else if without {
                    assert(old_set.insert(vu) =~= old_set.union(pushed));
                } else {
                    assert(old_set =~= old_set.union(pushed));
                }
            } else {
                if with_promotion && without {
                    assert(old_set.insert(vu).insert(vp) =~= old_set.union(pushed));
                } else if with_promotion {
                    assert(old_set.insert(vp) =~= old_set.union(pushed));
                } else if without {
                    assert(old_set.insert(vu) =~= old_set.union(pushed));
                } else {
                    assert(old_set =~= old_set.union(pushed));
                }
            }
        }
    }
    proof {
        assert(tos@.difference(rest@) =~= tos@);
    }
}

impl Position {
    /// Pushes the normal moves of the pieces on `froms`, moving like kind `reach`, to the
    /// squares of `target`.
    fn push_kind_moves(&self, av: &mut Vec<Move>, froms: Bitboard, reach: PieceType, target: &Bitboard)
        requires
            self.wf(),
            froms@.subset_of(occupied_set(self.model())),
        ensures
            extends_with(
                old(av)@,
                final(av)@,
                moves_of(self.model(), froms@, reach, target@),
            ),
    {
        let ghost p = self.model();
        let ghost start = av@;
        let c = self.side_to_move();
        let occ = self.occupied_bitboard();
        let a = self.attack_table();
        let mut rest = froms;
        proof {
            lemma_extends_refl(av@);
            assert(moves_of(p, froms@.difference(rest@), reach, target@) =~= Set::<MoveType>::empty());
        }
        while !rest.is_empty()
            invariant
                self.wf(),
                p == self.model(),
                c == p.side,
                occ@ == occupied_set(p),
                *a == self.tables().attack,
                a.wf(),
                froms@.subset_of(occupied_set(p)),
                rest@.subset_of(froms@),
                extends_with(start, av@, moves_of(p, froms@.difference(rest@), reach, target@)),
            decreases rest@.len(),
        {
            proof {
                rest.lemma_view_on_board();
            }
            let ghost rest_before = rest@;
            let ghost av_before = av@;
            let from = rest.pop().unwrap();
            let piece = self.piece_at(from).unwrap();
            let tos = a.attack(reach, from, c, &occ).and(*target);
            push_moves_from(av, reach, c, piece, from, tos);
            proof {
                let f = from.0 as int;
                let old_set = moves_of(p, froms@.difference(rest_before), reach, target@);
                let added = moves_from(reach, c, piece, f, tos@);
                lemma_extends_trans(start, av_before, av@, old_set, added);
                let new_set = moves_of(p, froms@.difference(rest@), reach, target@);
                assert(new_set =~= old_set.union(added)) by {
                    assert forall|v: MoveType| new_set.contains(v) == old_set.union(added).contains(v) by {
                        match v {
                            MoveType::Normal { from: g, to: _, is_promotion: _, piece: _ } => {
                                if g.0 as int == f {
                                    assert(g == from);
                                }
                            },
                            MoveType::Drop { to: _, piece: _ } => {},
                        }
                    }
                }
            }
        }
        proof {
            assert(froms@.difference(rest@) =~= froms@);
        }
    }
}

/// The squares of the pieces of kind `pk` of the side to move.
pub open spec fn own_kind(p: PartialPosition, pk: PieceType) -> Set<int> {
    color_set(p, p.side).intersect(kind_set(p, pk))
}

/// A pawn of the side to move steps one square forward: North (towards lower indices) for
/// Black, South for White.
proof fn lemma_pawn_reach(p: PartialPosition, from: int, to: int)
    requires
        0 <= from < 81,
    ensures
        reach_of(p, PieceType::FU, from).contains(to) == (match p.side {
            Color::Black => from % 9 >= 1 && to == from - 1,
            Color::White => from % 9 <= 7 && to == from + 1,
        }),
{
    let deltas = crate::tables::step_deltas(PieceType::FU, p.side);
    let s = reach_of(p, PieceType::FU, from);
    assert(s == crate::tables::step_attacks(from, deltas));
    match p.side {
        Color::Black => {
            assert(deltas[0].file as int == 0 && deltas[0].rank as int == -1);
            if s.contains(to) {
                let k = choose|k: int| 0 <= k < deltas.len() && #[trigger] crate::square::shifted(from, deltas[k].file as int, deltas[k].rank as int) == Some(to);
                assert(k == 0);
            }
            if from % 9 >= 1 && to == from - 1 {
                assert(crate::square::shifted(from, deltas[0].file as int, deltas[0].rank as int) == Some(to));
            }
        },
        Color::White => {
            assert(deltas[0].file as int == 0 && deltas[0].rank as int == 1);
            if s.contains(to) {
                let k = choose|k: int| 0 <= k < deltas.len() && #[trigger] crate::square::shifted(from, deltas[k].file as int, deltas[k].rank as int) == Some(to);
                assert(k == 0);
            }
            if from % 9 <= 7 && to == from + 1 {
                assert(crate::square::shifted(from, deltas[0].file as int, deltas[0].rank as int) == Some(to));
            }
        },
    }
}

impl Position {
    /// The pawn moves of the side to move to `target`: the pawns shifted one square forward.
    fn generate_for_fu(&self, av: &mut Vec<Move>, target: &Bitboard)
        requires
            self.wf(),
        ensures
            extends_with(
                old(av)@,
                final(av)@,
                moves_of(self.model(), own_kind(self.model(), PieceType::FU), PieceType::FU, target@),
            ),
    {
        let ghost p = self.model();
        let ghost start = av@;
        let c = self.side_to_move();
        let piece = Piece::from_cp(c, PieceType::FU);
        let pawns = self.piece_bitboard(piece);
        assert(pawns@ =~= own_kind(p, PieceType::FU));
        let shifted = match c {
            Color::Black => pawns.shr(),
            Color::White => pawns.shl(),
        };
        let to_bb = shifted.and(*target);
        let mut rest = to_bb;
        proof {
            lemma_extends_refl(av@);
            assert(moves_of(p, pawns@, PieceType::FU, to_bb@.difference(rest@)) =~= Set::<MoveType>::empty());
        }
        while !rest.is_empty()
            invariant
                self.wf(),
                p == self.model(),
                c == p.side,
                piece == Piece::make(c, PieceType::FU),
                pawns@ == own_kind(p, PieceType::FU),
                to_bb@ == shifted@.intersect(target@),
                shifted@ == (match c {
                    Color::Black => Set::new(|i: int| 0 <= i < 81 && i % 9 != 8 && pawns@.contains(i + 1)),
                    Color::White => Set::new(|i: int| 0 <= i < 81 && i % 9 != 0 && pawns@.contains(i - 1)),
                }),
                rest@.subset_of(to_bb@),
                extends_with(start, av@, moves_of(p, pawns@, PieceType::FU, to_bb@.difference(rest@))),
            decreases rest@.len(),
        {
            proof {
                rest.lemma_view_on_board();
            }
            let ghost rest_before = rest@;
            let ghost av_before = av@;
            let to = rest.pop().unwrap();
            let from = match c {
                Color::Black => Square(to.0 + 1),
                Color::White => Square(to.0 - 1),
            };
            let single = Bitboard::single(to);
            push_moves_from(av, PieceType::FU, c, piece, from, single);
            proof {
                let f = from.0 as int;
                let tt = to.0 as int;
                assert(pawns@.contains(f));
                assert(p.board@[f] matches Some(q) && q.side() == c && q.kind() == PieceType::FU);
                crate::piece::lemma_piece_code(p.board@[f]->0);
                assert(p.board@[f] == Some(piece));
                lemma_pawn_reach(p, f, tt);
                let old_set = moves_of(p, pawns@, PieceType::FU, to_bb@.difference(rest_before));
                let added = moves_from(PieceType::FU, c, piece, f, single@);
                lemma_extends_trans(start, av_before, av@, old_set, added);
                let new_set = moves_of(p, pawns@, PieceType::FU, to_bb@.difference(rest@));
                assert(new_set =~= old_set.union(added)) by {
                    assert forall|v: MoveType| new_set.contains(v) == old_set.union(added).contains(v) by {
                        match v {
                            MoveType::Normal { from: g, to: u, is_promotion: _, piece: _ } => {
                                if g.0 as int == f {
                                    assert(g == from);
                                }
                                if u.0 as int == tt {
                                    assert(u == to);
                                    if pawns@.contains(g.0 as int) {
                                        lemma_pawn_reach(p, g.0 as int, tt);
                                    }
                                }
                            },
                            MoveType::Drop { to: _, piece: _ } => {},
                        }
                    }
                }
            }
        }
        proof {
            assert(to_bb@.difference(rest@) =~= to_bb@);
            let a = moves_of(p, pawns@, PieceType::FU, to_bb@);
            let b = moves_of(p, pawns@, PieceType::FU, target@);
            assert(a =~= b) by {
                assert forall|v: MoveType| a.contains(v) == b.contains(v) by {
                    match v {
                        MoveType::Normal { from: g, to: u, is_promotion: _, piece: _ } => {
                            if pawns@.contains(g.0 as int) {
                                lemma_pawn_reach(p, g.0 as int, u.0 as int);
                            }
                        },
                        MoveType::Drop { to: _, piece: _ } => {},
                    }
                }
            }
        }
    }
}

impl Position {
    fn generate_for_kind(&self, av: &mut Vec<Move>, pk: PieceType, target: &Bitboard)
        requires
            self.wf(),
        ensures
            extends_with(
                old(av)@,
                final(av)@,
                moves_of(self.model(), own_kind(self.model(), pk), pk, target@),
            ),
    {
        let c = self.side_to_move();
        let froms = self.player_bitboard(c).and(self.piece_kind_bitboard(pk));
        assert(froms@.subset_of(occupied_set(self.model())));
        self.push_kind_moves(av, froms, pk, target);
    }

    fn generate_for_ky(&self, av: &mut Vec<Move>, target: &Bitboard)
        requires
            self.wf(),
        ensures
            extends_with(old(av)@, final(av)@, moves_of(self.model(), own_kind(self.model(), PieceType::KY), PieceType::KY, target@)),
    {
        self.generate_for_kind(av, PieceType::KY, target)
    }

    fn generate_for_ke(&self, av: &mut Vec<Move>, target: &Bitboard)
        requires
            self.wf(),
        ensures
            extends_with(old(av)@, final(av)@, moves_of(self.model(), own_kind(self.model(), PieceType::KE), PieceType::KE, target@)),
    {
        self.generate_for_kind(av, PieceType::KE, target)
    }

    fn generate_for_gi(&self, av: &mut Vec<Move>, target: &Bitboard)
        requires
            self.wf(),
        ensures
            extends_with(old(av)@, final(av)@, moves_of(self.model(), own_kind(self.model(), PieceType::GI), PieceType::GI, target@)),
    {
        self.generate_for_kind(av, PieceType::GI, target)
    }

    fn generate_for_ka(&self, av: &mut Vec<Move>, target: &Bitboard)
        requires
            self.wf(),
        ensures
            extends_with(old(av)@, final(av)@, moves_of(self.model(), own_kind(self.model(), PieceType::KA), PieceType::KA, target@)),
    {
        self.generate_for_kind(av, PieceType::KA, target)
    }

    fn generate_for_hi(&self, av: &mut Vec<Move>, target: &Bitboard)
        requires
            self.wf(),
        ensures
            extends_with(old(av)@, final(av)@, moves_of(self.model(), own_kind(self.model(), PieceType::HI), PieceType::HI, target@)),
    {
        self.generate_for_kind(av, PieceType::HI, target)
    }

    fn generate_for_ou(&self, av: &mut Vec<Move>, target: &Bitboard)
        requires
            self.wf(),
        ensures
            extends_with(old(av)@, final(av)@, moves_of(self.model(), own_kind(self.model(), PieceType::OU), PieceType::OU, target@)),
    {
        self.generate_for_kind(av, PieceType::OU, target)
    }

    fn generate_for_um(&self, av: &mut Vec<Move>, target: &Bitboard)
        requires
            self.wf(),
        ensures
            extends_with(old(av)@, final(av)@, moves_of(self.model(), own_kind(self.model(), PieceType::UM), PieceType::UM, target@)),
    {
        self.generate_for_kind(av, PieceType::UM, target)
    }

    fn generate_for_ry(&self, av: &mut Vec<Move>, target: &Bitboard)
        requires
            self.wf(),
        ensures
            extends_with(old(av)@, final(av)@, moves_of(self.model(), own_kind(self.model(), PieceType::RY), PieceType::RY, target@)),
    {
        self.generate_for_kind(av, PieceType::RY, target)
    }

    /// The moves of the pieces that move like a gold: KI, TO, NY, NK and NG.
    fn generate_for_ki(&self, av: &mut Vec<Move>, target: &Bitboard)
        requires
            self.wf(),
        ensures
            extends_with(old(av)@, final(av)@, moves_of(self.model(), own_golds(self.model()), PieceType::KI, target@)),
    {
        let c = self.side_to_move();
        let froms = self.piece_kind_bitboard(PieceType::KI).or(self.piece_kind_bitboard(PieceType::TO)).or(
            self.piece_kind_bitboard(PieceType::NY),
        ).or(self.piece_kind_bitboard(PieceType::NK)).or(self.piece_kind_bitboard(PieceType::NG)).and(
            self.player_bitboard(c),
        );
        assert(froms@ =~= own_golds(self.model()));
        self.push_kind_moves(av, froms, PieceType::KI, target);
    }
}

/// The squares of the side to move's pieces that move like a gold (UM aside).
pub open spec fn own_golds(p: PartialPosition) -> Set<int> {
    kind_set(p, PieceType::KI).union(kind_set(p, PieceType::TO)).union(kind_set(p, PieceType::NY)).union(
        kind_set(p, PieceType::NK),
    ).union(kind_set(p, PieceType::NG)).intersect(color_set(p, p.side))
}

/// The pieces of color `c` attacking square `to` over `occ`, found from `to` (the king reaches
/// diagonally as a GI does, orthogonally as a KI does).
pub open spec fn attackers_spec(p: PartialPosition, c: Color, to: int, occ: Set<int>) -> Set<int> {
    let opp = c.opposite();
    piece_attacks(PieceType::FU, to, opp, occ).intersect(kind_set(p, PieceType::FU)).union(
        piece_attacks(PieceType::KY, to, opp, occ).intersect(kind_set(p, PieceType::KY)),
    ).union(piece_attacks(PieceType::KE, to, opp, occ).intersect(kind_set(p, PieceType::KE))).union(
        piece_attacks(PieceType::GI, to, opp, occ).intersect(
            kind_set(p, PieceType::GI).union(kind_set(p, PieceType::RY)).union(kind_set(p, PieceType::OU)),
        ),
    ).union(
        piece_attacks(PieceType::KA, to, opp, occ).intersect(
            kind_set(p, PieceType::KA).union(kind_set(p, PieceType::UM)),
        ),
    ).union(
        piece_attacks(PieceType::HI, to, opp, occ).intersect(
            kind_set(p, PieceType::HI).union(kind_set(p, PieceType::RY)),
        ),
    ).union(
        piece_attacks(PieceType::KI, to, opp, occ).intersect(gold_movers(p).union(kind_set(p, PieceType::OU))),
    ).intersect(color_set(p, c))
}

/// The pieces of color `c` but its king, lances and pawns attacking square `to`: those that
/// could take a pawn dropped there with check.
pub open spec fn attackers_except_klp_spec(p: PartialPosition, c: Color, to: int) -> Set<int> {
    let opp = c.opposite();
    let occ = occupied_set(p);
    piece_attacks(PieceType::KE, to, opp, occ).intersect(kind_set(p, PieceType::KE)).union(
        piece_attacks(PieceType::GI, to, opp, occ).intersect(
            kind_set(p, PieceType::GI).union(kind_set(p, PieceType::RY)),
        ),
    ).union(
        piece_attacks(PieceType::KA, to, opp, occ).intersect(
            kind_set(p, PieceType::KA).union(kind_set(p, PieceType::UM)),
        ),
    ).union(
        piece_attacks(PieceType::HI, to, opp, occ).intersect(
            kind_set(p, PieceType::HI).union(kind_set(p, PieceType::RY)),
        ),
    ).union(piece_attacks(PieceType::KI, to, opp, occ).intersect(gold_movers(p))).intersect(
        color_set(p, c),
    )
}

/// Whether a pawn of the side to move dropped on `sq` (in front of the opponent king) mates: the
/// king cannot take it (the pawn is defended), no other piece can (pinned pieces only along the
/// pawn's file), and the king has no escape square that the side to move does not attack with
/// the pawn on the board.
pub open spec fn pawn_drop_mate_spec(p: PartialPosition, sq: int) -> bool {
    let c = p.side;
    let opp = c.opposite();
    let occ = occupied_set(p);
    if attackers_spec(p, c, sq, occ) == Set::<int>::empty() {
        false
    } else if attackers_except_klp_spec(p, opp, sq).intersect(
        board_set().difference(pinned_spec(p, opp)).union(file_set(file_of(sq))),
    ) != Set::<int>::empty() {
        false
    } else {
        match king_square(p, opp) {
            Some(king) => {
                let escape = piece_attacks(PieceType::OU, king, opp, occ).difference(
                    color_set(p, opp),
                ).remove(sq);
                !exists|to: int|
                    escape.contains(to) && #[trigger] attackers_spec(p, c, to, occ.insert(sq))
                        == Set::<int>::empty()
            },
            None => true,
        }
    }
}

impl Position {
    /// The pieces of color `c` attacking `to` over `occ`.
    pub fn attackers_to(&self, c: Color, to: Square, occ: &Bitboard) -> (r: Bitboard)
        requires
            self.wf(),
            to.wf(),
        ensures
            r@ == attackers_spec(self.model(), c, to.0 as int, occ@),
    {
        let opp = c.flip();
        let a = self.attack_table();
        let fu = a.attack(PieceType::FU, to, opp, occ).and(self.piece_kind_bitboard(PieceType::FU));
        let ky = a.attack(PieceType::KY, to, opp, occ).and(self.piece_kind_bitboard(PieceType::KY));
        let ke = a.attack(PieceType::KE, to, opp, occ).and(self.piece_kind_bitboard(PieceType::KE));
        let gi = a.attack(PieceType::GI, to, opp, occ).and(
            self.piece_kind_bitboard(PieceType::GI).or(self.piece_kind_bitboard(PieceType::RY)).or(
                self.piece_kind_bitboard(PieceType::OU),
            ),
        );
        let ka = a.attack(PieceType::KA, to, opp, occ).and(
            self.piece_kind_bitboard(PieceType::KA).or(self.piece_kind_bitboard(PieceType::UM)),
        );
        let hi = a.attack(PieceType::HI, to, opp, occ).and(
            self.piece_kind_bitboard(PieceType::HI).or(self.piece_kind_bitboard(PieceType::RY)),
        );
        let golds = self.piece_kind_bitboard(PieceType::KI).or(self.piece_kind_bitboard(PieceType::TO)).or(
            self.piece_kind_bitboard(PieceType::NY),
        ).or(self.piece_kind_bitboard(PieceType::NK)).or(self.piece_kind_bitboard(PieceType::NG)).or(
            self.piece_kind_bitboard(PieceType::UM),
        ).or(self.piece_kind_bitboard(PieceType::OU));
        let ki = a.attack(PieceType::KI, to, opp, occ).and(golds);
        fu.or(ky).or(ke).or(gi).or(ka).or(hi).or(ki).and(self.player_bitboard(c))
    }

    /// The pieces of color `c` but its king, lances and pawns attacking `to`.
    fn attackers_to_except_klp(&self, c: Color, to: Square) -> (r: Bitboard)
        requires
            self.wf(),
            to.wf(),
        ensures
            r@ == attackers_except_klp_spec(self.model(), c, to.0 as int),
    {
        let opp = c.flip();
        let occ = self.occupied_bitboard();
        let a = self.attack_table();
        let ke = a.attack(PieceType::KE, to, opp, &occ).and(self.piece_kind_bitboard(PieceType::KE));
        let gi = a.attack(PieceType::GI, to, opp, &occ).and(
            self.piece_kind_bitboard(PieceType::GI).or(self.piece_kind_bitboard(PieceType::RY)),
        );
        let ka = a.attack(PieceType::KA, to, opp, &occ).and(
            self.piece_kind_bitboard(PieceType::KA).or(self.piece_kind_bitboard(PieceType::UM)),
        );
        let hi = a.attack(PieceType::HI, to, opp, &occ).and(
            self.piece_kind_bitboard(PieceType::HI).or(self.piece_kind_bitboard(PieceType::RY)),
        );
        let golds = self.piece_kind_bitboard(PieceType::KI).or(self.piece_kind_bitboard(PieceType::TO)).or(
            self.piece_kind_bitboard(PieceType::NY),
        ).or(self.piece_kind_bitboard(PieceType::NK)).or(self.piece_kind_bitboard(PieceType::NG)).or(
            self.piece_kind_bitboard(PieceType::UM),
        );
        let ki = a.attack(PieceType::KI, to, opp, &occ).and(golds);
        ke.or(gi).or(ka).or(hi).or(ki).and(self.player_bitboard(c))
    }

    /// Whether a pawn of the side to move dropped on `sq` mates.
    pub fn is_pawn_drop_mate(&self, sq: Square) -> (r: bool)
        requires
            self.wf(),
            sq.wf(),
        ensures
            r == pawn_drop_mate_spec(self.model(), sq.0 as int),
    {
        let ghost p = self.model();
        let c = self.side_to_move();
        let opp = c.flip();
        let occ = self.occupied_bitboard();
        if self.attackers_to(c, sq, &occ).is_empty() {
            return false;
        }
        let capture_candidates = self.attackers_to_except_klp(opp, sq);
        let free = self.pinned(opp).not().or(file_bitboard(sq.file().0));
        if !capture_candidates.and(free).is_empty() {
            return false;
        }
        match self.king_position(opp) {
            Some(king) => {
                let single = Bitboard::single(sq);
                let escape = self.attack_table().attack(PieceType::OU, king, opp, &occ).and(
                    self.player_bitboard(opp).not(),
                ).and(single.not());
                let occupied = occ.or(single);
                proof {
                    assert(occupied@ =~= occ@.insert(sq.0 as int));
                    assert(escape@ =~= piece_attacks(PieceType::OU, king.0 as int, opp, occ@).difference(color_set(p, opp)).remove(sq.0 as int));
                }
                let mut rest = escape;
                while !rest.is_empty()
                    invariant
                        self.wf(),
                        p == self.model(),
                        c == p.side,
                        occupied@ == occupied_set(p).insert(sq.0 as int),
                        sq.wf(),
                        opp == c.opposite(),
                        king_square(p, opp) == Some(king.0 as int),
                        escape@ == piece_attacks(PieceType::OU, king.0 as int, opp, occupied_set(p)).difference(
                            color_set(p, opp),
                        ).remove(sq.0 as int),
                        attackers_spec(p, c, sq.0 as int, occupied_set(p)) != Set::<int>::empty(),
                        attackers_except_klp_spec(p, opp, sq.0 as int).intersect(
                            board_set().difference(pinned_spec(p, opp)).union(file_set(file_of(sq.0 as int))),
                        ) == Set::<int>::empty(),
                        rest@.subset_of(escape@),
                        forall|to: int|
                            escape@.contains(to) && !rest@.contains(to) ==> #[trigger] attackers_spec(p,
                                c,
                                to,
                                occupied@,
                            ) != Set::<int>::empty(),
                    decreases rest@.len(),
                {
                    proof {
                        rest.lemma_view_on_board();
                    }
                    let ghost before = rest@;
                    let to = rest.pop().unwrap();
                    if self.attackers_to(c, to, &occupied).is_empty() {
                        proof {
                            let e = piece_attacks(PieceType::OU, king.0 as int, opp, occupied_set(p)).difference(
                                color_set(p, opp),
                            ).remove(sq.0 as int);
                            assert(e.contains(to.0 as int));
                            assert(attackers_spec(p, c, to.0 as int, occupied_set(p).insert(sq.0 as int)) == Set::<int>::empty());
                        }
                        return false;
                    }
                }
                proof {
                    assert forall|to: int| escape@.contains(to) implies #[trigger] attackers_spec(p, c, to, occupied@) != Set::<int>::empty() by {
                        assert(!rest@.contains(to));
                    }
                }
                true
            },
            None => true,
        }
    }
}

/// Whether a piece of kind `pk` and color `c` may be dropped on `to`: FU and KY not on the last
/// rank, KE not on the last two.
pub open spec fn drop_rank_ok(pk: PieceType, c: Color, to: int) -> bool {
    match pk {
        PieceType::FU | PieceType::KY => relative_rank_of(to, c) > 1,
        PieceType::KE => relative_rank_of(to, c) > 2,
        _ => true,
    }
}

/// The squares of the files whose flag `vacant_files` sets on `b`.
pub open spec fn vacant_set(b: Bitboard) -> Set<int> {
    Set::new(|i: int| 0 <= i < 81 && b.file_flag(i / 9))
}

/// The squares of `target` where the side to move may drop a pawn: on files free of its pawns,
/// and not on the square in front of the opponent king when that drop would mate.
pub open spec fn pawn_drop_targets(p: PartialPosition, target: Set<int>) -> Set<int> {
    let opp = p.side.opposite();
    let base = target.intersect(vacant_set(bb_of(own_kind(p, PieceType::FU))));
    match king_square(p, opp) {
        Some(sq) => match lowest(piece_attacks(PieceType::FU, sq, opp, occupied_set(p))) {
            Some(to) => if base.contains(to) && pawn_drop_mate_spec(p, to) {
                base.remove(to)
            } else {
                base
            },
            None => base,
        },
        None => base,
    }
}

/// The drops of the side to move onto `target`, of the kinds it holds.
pub open spec fn drop_moves(p: PartialPosition, target: Set<int>) -> Set<MoveType> {
    Set::new(
        |v: MoveType|
            match v {
                MoveType::Drop { to, piece } => {
                    &&& piece.side() == p.side
                    &&& hand_kind(piece.kind())
                    &&& p.count(p.side, hand_slot(piece.kind())) > 0
                    &&& (if piece.kind() == PieceType::FU {
                        pawn_drop_targets(p, target)
                    } else {
                        target
                    }).contains(to.0 as int)
                    &&& drop_rank_ok(piece.kind(), p.side, to.0 as int)
                },
                MoveType::Normal { from: _, to: _, is_promotion: _, piece: _ } => false,
            },
    )
}

/// The drops of `piece` (of kind `pk`, color `c`) onto the squares of `tos` that the rank rule
/// allows.
pub open spec fn drops_of(piece: Piece, pk: PieceType, c: Color, tos: Set<int>) -> Set<MoveType> {
    Set::new(
        |v: MoveType|
            match v {
                MoveType::Drop { to, piece: q } => q == piece && tos.contains(to.0 as int) && drop_rank_ok(
                    pk,
                    c,
                    to.0 as int,
                ),
                MoveType::Normal { from: _, to: _, is_promotion: _, piece: _ } => false,
            },
    )
}

fn drop_allowed(pk: PieceType, c: Color, to: Square) -> (r: bool)
    requires
        to.wf(),
    ensures
        r == drop_rank_ok(pk, c, to.0 as int),
{
    let rank = to.relative_rank(c);
    match pk {
        PieceType::FU | PieceType::KY => rank > 1,
        PieceType::KE => rank > 2,
        _ => true,
    }
}

/// Pushes the drops of `piece` onto the squares of `tos` that the rank rule allows.
fn push_drops(av: &mut Vec<Move>, piece: Piece, pk: PieceType, c: Color, tos: Bitboard)
    ensures
        extends_with(old(av)@, final(av)@, drops_of(piece, pk, c, tos@)),
{
    let ghost start = av@;
    let mut rest = tos;
    proof {
        lemma_extends_refl(av@);
        assert(drops_of(piece, pk, c, tos@.difference(rest@)) =~= Set::<MoveType>::empty());
    }
    while !rest.is_empty()
        invariant
            rest@.subset_of(tos@),
            extends_with(start, av@, drops_of(piece, pk, c, tos@.difference(rest@))),
        decreases rest@.len(),
    {
        proof {
            rest.lemma_view_on_board();
        }
        let ghost rest_before = rest@;
        let to = rest.pop().unwrap();
        let ghost old_set = drops_of(piece, pk, c, tos@.difference(rest_before));
        let ghost v = MoveType::Drop { to, piece };
        if drop_allowed(pk, c, to) {
            let m = Move::new_drop(to, piece);
            proof {
                lemma_extends_push(start, av@, old_set, m);
            }
            av.push(m);
            proof {
                let new_set = drops_of(piece, pk, c, tos@.difference(rest@));
                assert(new_set =~= old_set.insert(v)) by {
                    assert forall|w: MoveType| new_set.contains(w) == old_set.insert(v).contains(w) by {
                        match w {
                            MoveType::Drop { to: u, piece: _ } => {
                                if u.0 == to.0 {
                                    assert(u == to);
                                }
                            },
                            MoveType::Normal { from: _, to: _, is_promotion: _, piece: _ } => {},
                        }
                    }
                }
            }
        } else {
            proof {
                let new_set = drops_of(piece, pk, c, tos@.difference(rest@));
                assert(new_set =~= old_set) by {
                    assert forall|w: MoveType| new_set.contains(w) == old_set.contains(w) by {
                        match w {
                            MoveType::Drop { to: u, piece: _ } => {
                                if u.0 == to.0 {
                                    assert(u == to);
                                }
                            },
                            MoveType::Normal { from: _, to: _, is_promotion: _, piece: _ } => {},
                        }
                    }
                }
            }
        }
    }
    proof {
        assert(tos@.difference(rest@) =~= tos@);
    }
}

/// The drops of kinds in the first `k` hand slots.
pub open spec fn drops_upto(p: PartialPosition, target: Set<int>, k: int) -> Set<MoveType> {
    Set::new(
        |v: MoveType|
            drop_moves(p, target).contains(v) && (v matches MoveType::Drop { to: _, piece } && hand_slot(
                piece.kind(),
            ) < k),
    )
}

impl Position {
    /// The squares of `target` where a piece of kind `pk` of the side to move may be dropped.
    fn drop_targets_for(&self, pk: PieceType, target: &Bitboard) -> (r: Bitboard)
        requires
            self.wf(),
        ensures
            r@ == (if pk == PieceType::FU {
                pawn_drop_targets(self.model(), target@)
            } else {
                target@
            }),
    {
        if pk == PieceType::FU {
            let ghost p = self.model();
            let c = self.side_to_move();
            let opp = c.flip();
            let pawns = self.piece_bitboard(Piece::from_cp(c, PieceType::FU));
            proof {
                use_type_invariant(pawns);
                Bitboard::lemma_bb_of(pawns);
                assert(pawns@ =~= own_kind(p, PieceType::FU));
            }
            let mut tgt = target.and(pawns.vacant_files());
            let ghost base = tgt@;
            assert(base =~= target@.intersect(vacant_set(bb_of(own_kind(p, PieceType::FU)))));
            match self.king_position(opp) {
                Some(sq) => {
                    let occ = self.occupied_bitboard();
                    let mut fa = self.attack_table().attack(PieceType::FU, sq, opp, &occ);
                    let ghost fa_set = fa@;
                    match fa.pop() {
                        Some(to) => {
                            proof {
                                lemma_lowest(fa_set, to.0 as int);
                            }
                            if tgt.contains(to) && self.is_pawn_drop_mate(to) {
                                tgt = tgt.and(Bitboard::single(to).not());
                                assert(tgt@ =~= base.remove(to.0 as int));
                            }
                        },
                        None => {
                            assert(!exists|i: int| #[trigger] fa_set.contains(i));
                        },
                    }
                },
                None => {},
            }
            tgt
        } else {
            *target
        }
    }

    /// The drops of the side to move onto `target`, kind by kind in hand order.
    #[verifier::spinoff_prover]
    #[verifier::rlimit(60)]
    fn generate_drop(&self, av: &mut Vec<Move>, target: &Bitboard)
        requires
            self.wf(),
        ensures
            extends_with(old(av)@, final(av)@, drop_moves(self.model(), target@)),
    {
        let ghost p = self.model();
        let ghost start = av@;
        let c = self.side_to_move();
        let hand = self.hand(c);
        let kinds = PieceType::all_hand();
        let mut k: usize = 0;
        proof {
            lemma_extends_refl(av@);
            assert(drops_upto(p, target@, 0) =~= Set::<MoveType>::empty());
        }
        while k < 7
            invariant
                self.wf(),
                p == self.model(),
                c == p.side,
                hand == p.hands.of(c),
                0 <= k <= 7,
                kinds@ == seq![
                    PieceType::FU,
                    PieceType::KY,
                    PieceType::KE,
                    PieceType::GI,
                    PieceType::KI,
                    PieceType::KA,
                    PieceType::HI,
                ],
                extends_with(start, av@, drops_upto(p, target@, k as int)),
            decreases 7 - k,
        {
            let pk = kinds[k];
            let ghost av_before = av@;
            let ghost old_set = drops_upto(p, target@, k as int);
            let ghost new_set = drops_upto(p, target@, k + 1);
            if hand.num(pk) > 0 {
                let tgt = self.drop_targets_for(pk, target);
                let piece = Piece::from_cp(c, pk);
                push_drops(av, piece, pk, c, tgt);
                proof {
                    let added = drops_of(piece, pk, c, tgt@);
                    lemma_extends_trans(start, av_before, av@, old_set, added);
                    assert(new_set =~= old_set.union(added)) by {
                        assert forall|v: MoveType| new_set.contains(v) == old_set.union(added).contains(v) by {
                            match v {
                                MoveType::Drop { to: _, piece: q } => {
                                    crate::piece::lemma_piece_code(q);
                                    crate::piece::lemma_kind_code(q.kind());
                                },
                                MoveType::Normal { from: _, to: _, is_promotion: _, piece: _ } => {},
                            }
                        }
                    }
                }
            } else {
                proof {
                    assert(new_set =~= old_set) by {
                        assert forall|v: MoveType| new_set.contains(v) == old_set.contains(v) by {
                            match v {
                                MoveType::Drop { to: _, piece: q } => {
                                    crate::piece::lemma_kind_code(q.kind());
                                },
                                MoveType::Normal { from: _, to: _, is_promotion: _, piece: _ } => {},
                            }
                        }
                    }
                }
            }
            k = k + 1;
        }
        proof {
            assert(drops_upto(p, target@, 7) =~= drop_moves(p, target@)) by {
                assert forall|v: MoveType| drops_upto(p, target@, 7).contains(v) == drop_moves(p, target@).contains(v) by {
                    match v {
                        MoveType::Drop { to: _, piece: q } => {
                            crate::piece::lemma_kind_code(q.kind());
                        },
                        MoveType::Normal { from: _, to: _, is_promotion: _, piece: _ } => {},
                    }
                }
            }
        }
    }
}

/// The normal moves of the side to move to `target`, kind by kind (the king's only when
/// `with_king`).
pub open spec fn board_moves(p: PartialPosition, target: Set<int>, with_king: bool) -> Set<MoveType> {
    let ou = if with_king {
        moves_of(p, own_kind(p, PieceType::OU), PieceType::OU, target)
    } else {
        Set::empty()
    };
    moves_of(p, own_kind(p, PieceType::FU), PieceType::FU, target).union(
        moves_of(p, own_kind(p, PieceType::KY), PieceType::KY, target),
    ).union(moves_of(p, own_kind(p, PieceType::KE), PieceType::KE, target)).union(
        moves_of(p, own_kind(p, PieceType::GI), PieceType::GI, target),
    ).union(moves_of(p, own_kind(p, PieceType::KA), PieceType::KA, target)).union(
        moves_of(p, own_kind(p, PieceType::HI), PieceType::HI, target),
    ).union(moves_of(p, own_golds(p), PieceType::KI, target)).union(ou).union(
        moves_of(p, own_kind(p, PieceType::UM), PieceType::UM, target),
    ).union(moves_of(p, own_kind(p, PieceType::RY), PieceType::RY, target))
}

/// The candidate moves out of check: every move to a square not held by the side to move, and
/// every drop on an empty square.
pub open spec fn all_moves(p: PartialPosition) -> Set<MoveType> {
    board_moves(p, board_set().difference(color_set(p, p.side)), true).union(
        drop_moves(p, board_set().difference(occupied_set(p))),
    )
}

/// The squares the checker on `ch` covers for the king on `king` to flee: a RY checking
/// diagonally covers its rook lines over the board as it stands; any other checker covers its
/// attacks over an empty board.
pub open spec fn checker_reach(p: PartialPosition, ch: int, king: int) -> Set<int> {
    let opp = p.side.opposite();
    match p.board@[ch] {
        Some(q) => if q.kind() == PieceType::RY && file_of(ch) != file_of(king) && rank_of(ch) != rank_of(
            king,
        ) {
            piece_attacks(PieceType::HI, ch, opp, occupied_set(p))
        } else {
            piece_attacks(q.kind(), ch, opp, Set::empty())
        },
        None => Set::empty(),
    }
}

/// The squares covered by the checkers.
pub open spec fn checkers_reach(p: PartialPosition, checkers: Set<int>, king: int) -> Set<int> {
    Set::new(|s: int| exists|ch: int| checkers.contains(ch) && #[trigger] checker_reach(p, ch, king).contains(s))
}

/// The candidate moves in check: the king's moves off the checkers' reach; against a single
/// checker also the moves of the other pieces onto it or between it and the king, and the drops
/// between them.
pub open spec fn evasion_moves(p: PartialPosition, checkers: Set<int>) -> Set<MoveType> {
    let c = p.side;
    match king_square(p, c) {
        Some(king) => {
            let escapes = moves_from(
                PieceType::OU,
                c,
                p.board@[king]->0,
                king,
                piece_attacks(PieceType::OU, king, c, occupied_set(p)).difference(color_set(p, c)).difference(
                    checkers_reach(p, checkers, king),
                ),
            );
            if checkers.len() > 1 {
                escapes
            } else {
                let ch = lowest(checkers)->0;
                let target_drop = between_set(ch, king);
                let target_move = target_drop.union(checkers);
                escapes.union(board_moves(p, target_move, false)).union(
                    if target_drop != Set::<int>::empty() {
                        drop_moves(p, target_drop)
                    } else {
                        Set::empty()
                    },
                )
            }
        },
        None => Set::empty(),
    }
}

impl Position {
    /// Every move out of check, before the legality filter.
    fn generate_all(&self, av: &mut Vec<Move>)
        requires
            self.wf(),
        ensures
            extends_with(old(av)@, final(av)@, all_moves(self.model())),
    {
        let ghost p = self.model();
        let ghost a0 = av@;
        let target = self.player_bitboard(self.side_to_move()).not();
        self.generate_for_fu(av, &target);
        let ghost a1 = av@;
        self.generate_for_ky(av, &target);
        let ghost a2 = av@;
        self.generate_for_ke(av, &target);
        let ghost a3 = av@;
        self.generate_for_gi(av, &target);
        let ghost a4 = av@;
        self.generate_for_ka(av, &target);
        let ghost a5 = av@;
        self.generate_for_hi(av, &target);
        let ghost a6 = av@;
        self.generate_for_ki(av, &target);
        let ghost a7 = av@;
        self.generate_for_ou(av, &target);
        let ghost a8 = av@;
        self.generate_for_um(av, &target);
        let ghost a9 = av@;
        self.generate_for_ry(av, &target);
        let ghost a10 = av@;
        let empty = self.occupied_bitboard().not();
        self.generate_drop(av, &empty);
        proof {
            let tg = target@;
            let f1 = own_kind(p, PieceType::FU);
            let f2 = own_kind(p, PieceType::KY);
            let f3 = own_kind(p, PieceType::KE);
            let f4 = own_kind(p, PieceType::GI);
            let f5 = own_kind(p, PieceType::KA);
            let f6 = own_kind(p, PieceType::HI);
            let f7 = own_golds(p);
            let f8 = own_kind(p, PieceType::OU);
            let f9 = own_kind(p, PieceType::UM);
            let f10 = own_kind(p, PieceType::RY);
            let s1 = moves_of(p, f1, PieceType::FU, tg);
            let m2 = moves_of(p, f2, PieceType::KY, tg);
            let m3 = moves_of(p, f3, PieceType::KE, tg);
            let m4 = moves_of(p, f4, PieceType::GI, tg);
            let m5 = moves_of(p, f5, PieceType::KA, tg);
            let m6 = moves_of(p, f6, PieceType::HI, tg);
            let m7 = moves_of(p, f7, PieceType::KI, tg);
            let m8 = moves_of(p, f8, PieceType::OU, tg);
            let m9 = moves_of(p, f9, PieceType::UM, tg);
            let m10 = moves_of(p, f10, PieceType::RY, tg);
            lemma_moves_of_from(p, f1, PieceType::FU, tg);
            lemma_moves_of_from(p, f2, PieceType::KY, tg);
            lemma_moves_of_from(p, f3, PieceType::KE, tg);
            lemma_moves_of_from(p, f4, PieceType::GI, tg);
            lemma_moves_of_from(p, f5, PieceType::KA, tg);
            lemma_moves_of_from(p, f6, PieceType::HI, tg);
            lemma_moves_of_from(p, f7, PieceType::KI, tg);
            lemma_moves_of_from(p, f8, PieceType::OU, tg);
            lemma_moves_of_from(p, f9, PieceType::UM, tg);
            lemma_moves_of_from(p, f10, PieceType::RY, tg);
            let g2 = f1.union(f2);
            let g3 = g2.union(f3);
            let g4 = g3.union(f4);
            let g5 = g4.union(f5);
            let g6 = g5.union(f6);
            let g7 = g6.union(f7);
            let g8 = g7.union(f8);
            let g9 = g8.union(f9);
            let g10 = g9.union(f10);
            lemma_chain_step(a0, a1, a2, s1, f1, m2, f2);
            let s2 = s1.union(m2);
            lemma_chain_step(a0, a2, a3, s2, g2, m3, f3);
            let s3 = s2.union(m3);
            lemma_chain_step(a0, a3, a4, s3, g3, m4, f4);
            let s4 = s3.union(m4);
            lemma_chain_step(a0, a4, a5, s4, g4, m5, f5);
            let s5 = s4.union(m5);
            lemma_chain_step(a0, a5, a6, s5, g5, m6, f6);
            let s6 = s5.union(m6);
            lemma_chain_step(a0, a6, a7, s6, g6, m7, f7);
            let s7 = s6.union(m7);
            lemma_chain_step(a0, a7, a8, s7, g7, m8, f8);
            let s8 = s7.union(m8);
            lemma_chain_step(a0, a8, a9, s8, g8, m9, f9);
            let s9 = s8.union(m9);
            lemma_chain_step(a0, a9, a10, s9, g9, m10, f10);
            let s10 = s9.union(m10);
            let drops = drop_moves(p, empty@);
            assert(all_drops(drops));
            lemma_from_drops_disjoint(s10, g10, drops);
            lemma_extends_trans(a0, a10, av@, s10, drops);
            assert(empty@ =~= board_set().difference(occupied_set(p)));
            assert(s10 =~= board_moves(p, board_set().difference(color_set(p, p.side)), true));
        }
    }
}

impl Position {
    /// The squares the checkers cover for the king on `king` to flee, and how many checkers
    /// there are.
    fn checkers_attacks(&self, checkers: Bitboard, king: Square) -> (r: (Bitboard, u8))
        requires
            self.wf(),
            king.wf(),
        ensures
            r.0@ == checkers_reach(self.model(), checkers@, king.0 as int),
            r.1 == checkers@.len(),
    {
        let ghost p = self.model();
        let c = self.side_to_move();
        let occ = self.occupied_bitboard();
        let a = self.attack_table();
        let mut covered = Bitboard::empty();
        let mut count: u8 = 0;
        let mut rest = checkers;
        proof {
            checkers.lemma_view_on_board();
            assert(board_set() =~= vstd::set_lib::set_int_range(0, 81));
            vstd::set_lib::lemma_int_range(0, 81);
            vstd::set_lib::lemma_len_subset(checkers@, board_set());
            assert(checkers@.difference(rest@) =~= Set::<int>::empty());
            assert(covered@ =~= checkers_reach(p, checkers@.difference(rest@), king.0 as int));
        }
        while !rest.is_empty()
            invariant
                self.wf(),
                p == self.model(),
                c == p.side,
                king.wf(),
                occ@ == occupied_set(p),
                *a == self.tables().attack,
                a.wf(),
                rest@.subset_of(checkers@),
                rest@.finite(),
                checkers@.finite(),
                checkers@.len() <= 81,
                count + rest@.len() == checkers@.len(),
                covered@ == checkers_reach(p, checkers@.difference(rest@), king.0 as int),
            decreases rest@.len(),
        {
            let ghost rest_before = rest@;
            let ghost covered_before = covered@;
            let ch = rest.pop().unwrap();
            let mut reach = Bitboard::empty();
            match self.piece_at(ch) {
                Some(q) => {
                    let pk = q.piece_type();
                    if pk == PieceType::RY && ch.file().0 != king.file().0 && ch.rank().0 != king.rank().0 {
                        reach = a.attack(PieceType::HI, ch, c.flip(), &occ);
                    } else {
                        reach = a.pseudo_attack(pk, ch, c.flip());
                    }
                },
                None => {},
            }
            assert(reach@ =~= checker_reach(p, ch.0 as int, king.0 as int));
            covered = covered.or(reach);
            count = count + 1;
            proof {
                let done = checkers@.difference(rest@);
                assert(done =~= checkers@.difference(rest_before).insert(ch.0 as int));
                assert(covered@ =~= checkers_reach(p, done, king.0 as int)) by {
                    assert forall|s2: int| covered@.contains(s2) == checkers_reach(p, done, king.0 as int).contains(s2) by {
                        if covered@.contains(s2) {
                            if covered_before.contains(s2) {
                                let w = choose|w: int| checkers@.difference(rest_before).contains(w) && #[trigger] checker_reach(p, w, king.0 as int).contains(s2);
                                assert(done.contains(w));
                            } else {
                                assert(checker_reach(p, ch.0 as int, king.0 as int).contains(s2));
                            }
                        }
                        if checkers_reach(p, done, king.0 as int).contains(s2) {
                            let w = choose|w: int| done.contains(w) && #[trigger] checker_reach(p, w, king.0 as int).contains(s2);
                            if w != ch.0 as int {
                                assert(checkers@.difference(rest_before).contains(w));
                            }
                        }
                    }
                }
            }
        }
        proof {
            assert(checkers@.difference(rest@) =~= checkers@);
        }
        (covered, count)
    }

    /// The candidate moves out of check.
    #[verifier::spinoff_prover]
    #[verifier::rlimit(80)]
    fn generate_evasions(&self, av: &mut Vec<Move>)
        requires
            self.wf(),
            self.recorded_checkers() != Set::<int>::empty(),
        ensures
            extends_with(old(av)@, final(av)@, evasion_moves(self.model(), self.recorded_checkers())),
    {
        let ghost p = self.model();
        let ghost a0 = av@;
        let c = self.side_to_move();
        let king = match self.king_position(c) {
            Some(k) => k,
            None => {
                proof {
                    lemma_extends_refl(av@);
                }
                return;
            },
        };
        let ghost k = king.0 as int;
        proof {
            let ks = color_set(p, c).intersect(kind_set(p, PieceType::OU));
            let x = choose|i: int| ks.contains(i) && forall|j: int| #[trigger] ks.contains(j) ==> i <= j;
            assert(exists|i: int| #[trigger] ks.contains(i));
            assert(ks.contains(x));
        }
        let king_piece = self.piece_at(king).unwrap();
        let checkers = self.checkers();
        let (covered, count) = self.checkers_attacks(checkers, king);
        let occ = self.occupied_bitboard();
        let escape = self.attack_table().attack(PieceType::OU, king, c, &occ).and(
            self.player_bitboard(c).not(),
        ).and(covered.not());
        push_moves_from(av, PieceType::OU, c, king_piece, king, escape);
        let ghost escapes = moves_from(
            PieceType::OU,
            c,
            p.board@[k]->0,
            k,
            piece_attacks(PieceType::OU, k, c, occupied_set(p)).difference(color_set(p, c)).difference(
                checkers_reach(p, checkers@, k),
            ),
        );
        proof {
            assert(escape@ =~= piece_attacks(PieceType::OU, k, c, occupied_set(p)).difference(color_set(p, c)).difference(
                checkers_reach(p, checkers@, k),
            ));
        }
        if count > 1 {
            return;
        }
        let ghost a1 = av@;
        let mut first = checkers;
        let ghost cs = checkers@;
        let ch = first.pop().unwrap();
        proof {
            lemma_lowest(cs, ch.0 as int);
        }
        let target_drop = self.between_table().between(ch, king);
        let target_move = target_drop.or(checkers);
        self.generate_for_fu(av, &target_move);
        let ghost a2 = av@;
        self.generate_for_ky(av, &target_move);
        let ghost a3 = av@;
        self.generate_for_ke(av, &target_move);
        let ghost a4 = av@;
        self.generate_for_gi(av, &target_move);
        let ghost a5 = av@;
        self.generate_for_ka(av, &target_move);
        let ghost a6 = av@;
        self.generate_for_hi(av, &target_move);
        let ghost a7 = av@;
        self.generate_for_ki(av, &target_move);
        let ghost a8 = av@;
        self.generate_for_um(av, &target_move);
        let ghost a9 = av@;
        self.generate_for_ry(av, &target_move);
        let ghost a10 = av@;
        let has_between = !target_drop.is_empty();
        if has_between {
            self.generate_drop(av, &target_drop);
        } else {
            proof {
                lemma_extends_refl(av@);
            }
        }
        proof {
            let tg = target_move@;
            let f1 = own_kind(p, PieceType::FU);
            let f2 = own_kind(p, PieceType::KY);
            let f3 = own_kind(p, PieceType::KE);
            let f4 = own_kind(p, PieceType::GI);
            let f5 = own_kind(p, PieceType::KA);
            let f6 = own_kind(p, PieceType::HI);
            let f7 = own_golds(p);
            let f8 = own_kind(p, PieceType::UM);
            let f9 = own_kind(p, PieceType::RY);
            let s1 = moves_of(p, f1, PieceType::FU, tg);
            let m2 = moves_of(p, f2, PieceType::KY, tg);
            let m3 = moves_of(p, f3, PieceType::KE, tg);
            let m4 = moves_of(p, f4, PieceType::GI, tg);
            let m5 = moves_of(p, f5, PieceType::KA, tg);
            let m6 = moves_of(p, f6, PieceType::HI, tg);
            let m7 = moves_of(p, f7, PieceType::KI, tg);
            let m8 = moves_of(p, f8, PieceType::UM, tg);
            let m9 = moves_of(p, f9, PieceType::RY, tg);
            lemma_moves_of_from(p, f1, PieceType::FU, tg);
            lemma_moves_of_from(p, f2, PieceType::KY, tg);
            lemma_moves_of_from(p, f3, PieceType::KE, tg);
            lemma_moves_of_from(p, f4, PieceType::GI, tg);
            lemma_moves_of_from(p, f5, PieceType::KA, tg);
            lemma_moves_of_from(p, f6, PieceType::HI, tg);
            lemma_moves_of_from(p, f7, PieceType::KI, tg);
            lemma_moves_of_from(p, f8, PieceType::UM, tg);
            lemma_moves_of_from(p, f9, PieceType::RY, tg);
            let g2 = f1.union(f2);
            let g3 = g2.union(f3);
            let g4 = g3.union(f4);
            let g5 = g4.union(f5);
            let g6 = g5.union(f6);
            let g7 = g6.union(f7);
            let g8 = g7.union(f8);
            let g9 = g8.union(f9);
            lemma_chain_step(a1, a2, a3, s1, f1, m2, f2);
            let s2 = s1.union(m2);
            lemma_chain_step(a1, a3, a4, s2, g2, m3, f3);
            let s3 = s2.union(m3);
            lemma_chain_step(a1, a4, a5, s3, g3, m4, f4);
            let s4 = s3.union(m4);
            lemma_chain_step(a1, a5, a6, s4, g4, m5, f5);
            let s5 = s4.union(m5);
            lemma_chain_step(a1, a6, a7, s5, g5, m6, f6);
            let s6 = s5.union(m6);
            lemma_chain_step(a1, a7, a8, s6, g6, m7, f7);
            let s7 = s6.union(m7);
            lemma_chain_step(a1, a8, a9, s7, g7, m8, f8);
            let s8 = s7.union(m8);
            lemma_chain_step(a1, a9, a10, s8, g8, m9, f9);
            let s9 = s8.union(m9);
            let drops = if has_between {
                drop_moves(p, target_drop@)
            } else {
                Set::<MoveType>::empty()
            };
            assert(all_drops(drops));
            lemma_from_drops_disjoint(s9, g9, drops);
            lemma_extends_trans(a1, a10, av@, s9, drops);
            let kset = Set::<int>::empty().insert(k);
            assert(all_from(escapes, kset));
            assert(kset.disjoint(g9));
            lemma_from_disjoint(escapes, kset, s9, g9);
            lemma_from_drops_disjoint(escapes, kset, drops);
            assert(escapes.disjoint(s9.union(drops)));
            lemma_extends_trans(a0, a1, av@, escapes, s9.union(drops));
            assert(s9 =~= board_moves(p, tg, false));
            assert(escapes.union(s9.union(drops)) =~= escapes.union(board_moves(p, tg, false)).union(drops));
            assert(tg =~= between_set(ch.0 as int, k).union(checkers@));
        }
    }
}

/// Whether a candidate move is kept: a king move must not land on a square the opponent
/// attacks, and a pinned piece must stay on the line between its king and the pinning piece.
pub open spec fn legal_spec(p: PartialPosition, m: MoveType) -> bool {
    match m {
        MoveType::Normal { from, to, is_promotion: _, piece: _ } => {
            let c = p.side;
            let f = from.0 as int;
            let d = to.0 as int;
            &&& !(p.board@[f] == Some(Piece::make(c, PieceType::OU)) && attackers_spec(p,
                c.opposite(),
                d,
                occupied_set(p),
            ) != Set::<int>::empty())
            &&& !(pinned_spec(p, c).contains(f) && match king_square(p, c) {
                Some(sq) => !(between_set(sq, f).contains(d) || between_set(sq, d).contains(f)),
                None => false,
            })
        },
        MoveType::Drop { to: _, piece: _ } => true,
    }
}

/// The candidates: the evasions when the side to move is in check, else every move.
pub open spec fn candidate_moves(p: PartialPosition, checkers: Set<int>) -> Set<MoveType> {
    if checkers != Set::<int>::empty() {
        evasion_moves(p, checkers)
    } else {
        all_moves(p)
    }
}

/// The legal moves: the candidates that pass the legality filter.
pub open spec fn legal_move_set(p: PartialPosition, checkers: Set<int>) -> Set<MoveType> {
    candidate_moves(p, checkers).filter(|v: MoveType| legal_spec(p, v))
}

impl Position {
    /// Whether a candidate move passes the legality filter.
    fn is_legal(&self, m: Move) -> (r: bool)
        requires
            self.wf(),
        ensures
            r == legal_spec(self.model(), m@),
    {
        proof {
            use_type_invariant(m);
            m.lemma_wf();
        }
        match m.move_type() {
            MoveType::Normal { from, to, is_promotion: _, piece: _ } => {
                let c = self.side_to_move();
                let king = Piece::from_cp(c, PieceType::OU);
                let is_king = match self.piece_at(from) {
                    Some(q) => q == king,
                    None => false,
                };
                if is_king {
                    let occ = self.occupied_bitboard();
                    if !self.attackers_to(c.flip(), to, &occ).is_empty() {
                        return false;
                    }
                }
                if self.pinned(c).contains(from) {
                    match self.king_position(c) {
                        Some(sq) => {
                            let a = self.between_table().between(sq, from).contains(to);
                            let b = self.between_table().between(sq, to).contains(from);
                            if !(a || b) {
                                return false;
                            }
                        },
                        None => {},
                    }
                }
                true
            },
            MoveType::Drop { to: _, piece: _ } => true,
        }
    }

    /// Keeps the moves of `av` that pass the legality filter, removing each other one by moving
    /// the last move into its place.
    fn retain_legal(&self, av: &mut Vec<Move>)
        requires
            self.wf(),
            forall|j1: int, j2: int| #![trigger old(av)@[j1], old(av)@[j2]] 0 <= j1 < j2 < old(av)@.len() ==> old(av)@[j1]@ != old(av)@[j2]@,
        ensures
            forall|j: int| 0 <= j < final(av)@.len() ==> legal_spec(self.model(), #[trigger] final(av)@[j]@),
            forall|j: int| 0 <= j < final(av)@.len() ==> old(av)@.contains(#[trigger] final(av)@[j]),
            forall|k: int|
                0 <= k < old(av)@.len() && legal_spec(self.model(), #[trigger] old(av)@[k]@) ==> exists|j: int|
                    0 <= j < final(av)@.len() && #[trigger] final(av)@[j] == old(av)@[k],
            forall|j1: int, j2: int| #![trigger final(av)@[j1], final(av)@[j2]] 0 <= j1 < j2 < final(av)@.len() ==> final(av)@[j1]@ != final(av)@[j2]@,
    {
        let ghost p = self.model();
        let ghost orig = av@;
        // Where each move of `av` stood in `orig`, and where each legal move of `orig` stands in
        // `av`.
        let ghost mut idx: Seq<int> = Seq::new(orig.len(), |j: int| j);
        let ghost mut pos: Seq<int> = Seq::new(orig.len(), |k: int| k);
        let mut i: usize = 0;
        while i < av.len()
            invariant
                self.wf(),
                p == self.model(),
                forall|j1: int, j2: int| #![trigger orig[j1], orig[j2]] 0 <= j1 < j2 < orig.len() ==> orig[j1]@ != orig[j2]@,
                0 <= i <= av@.len(),
                idx.len() == av@.len(),
                pos.len() == orig.len(),
                forall|j: int| 0 <= j < i ==> legal_spec(p, #[trigger] av@[j]@),
                forall|j: int| 0 <= j < av@.len() ==> 0 <= #[trigger] idx[j] < orig.len() && av@[j] == orig[idx[j]],
                forall|k: int|
                    0 <= k < orig.len() && legal_spec(p, orig[k]@) ==> 0 <= #[trigger] pos[k] < av@.len() && av@[pos[k]] == orig[k],
                forall|j1: int, j2: int| #![trigger av@[j1], av@[j2]] 0 <= j1 < j2 < av@.len() ==> av@[j1]@ != av@[j2]@,
            decreases av@.len() - i,
        {
            let m = av[i];
            if self.is_legal(m) {
                i = i + 1;
            } else {
                let ghost before = av@;
                let ghost last = before.len() - 1;
                let ghost moved = idx[last];
                av.swap_remove(i);
                proof {
                    let idx0 = idx;
                    let pos0 = pos;
                    idx = idx0.update(i as int, moved).drop_last();
                    pos = pos0.update(moved, i as int);
                    assert forall|j: int| 0 <= j < av@.len() implies 0 <= #[trigger] idx[j] < orig.len() && av@[j] == orig[idx[j]] by {
                        if j == i {
                            assert(av@[j] == before[last]);
                        } else {
                            assert(av@[j] == before[j]);
                            assert(idx[j] == idx0[j]);
                        }
                    }
                    assert forall|k: int|
                        0 <= k < orig.len() && legal_spec(p, orig[k]@) implies 0 <= #[trigger] pos[k] < av@.len() && av@[pos[k]] == orig[k] by {
                        let j = pos0[k];
                        assert(before[j] == orig[k]);
                        assert(j != i);
                        if k == moved {
                            assert(av@[i as int] == before[last]);
                        } else {
                            assert(pos[k] == j);
                            if j == last {
                                assert(before[last] == orig[idx0[last]]);
                                if k < moved {
                                    assert(orig[k]@ != orig[moved]@);
                                } else {
                                    assert(orig[moved]@ != orig[k]@);
                                }
                            }
                            assert(av@[j] == before[j]);
                        }
                    }
                    assert forall|j1: int, j2: int|
                        #![trigger av@[j1], av@[j2]]
                        0 <= j1 < j2 < av@.len() implies av@[j1]@ != av@[j2]@ by {
                        let b1 = if j1 == i { last } else { j1 };
                        let b2 = if j2 == i { last } else { j2 };
                        assert(av@[j1] == before[b1]);
                        assert(av@[j2] == before[b2]);
                        assert(b1 != b2);
                        if b1 < b2 {
                            assert(before[b1]@ != before[b2]@);
                        } else {
                            assert(before[b2]@ != before[b1]@);
                        }
                    }
                }
            }
        }
        proof {
            assert(orig == old(av)@);
            assert forall|j: int| 0 <= j < av@.len() implies old(av)@.contains(#[trigger] av@[j]) by {
                let k = idx[j];
                assert(av@[j] == old(av)@[k]);
            }
            assert forall|k: int|
                0 <= k < orig.len() && legal_spec(p, #[trigger] orig[k]@) implies exists|j: int|
                    0 <= j < av@.len() && #[trigger] av@[j] == orig[k] by {
                assert(av@[pos[k]] == orig[k]);
            }
        }
    }

    /// The legal moves of the side to move.
    pub fn legal_moves(&self) -> (r: Vec<Move>)
        requires
            self.wf(),
        ensures
            forall|i: int|
                0 <= i < r@.len() ==> #[trigger] legal_move_set(self.model(), self.recorded_checkers()).contains(r@[i]@),
            forall|v: MoveType|
                #[trigger] legal_move_set(self.model(), self.recorded_checkers()).contains(v) ==> exists|i: int|
                    0 <= i < r@.len() && #[trigger] r@[i]@ == v,
            forall|i: int, j: int| #![trigger r@[i], r@[j]] 0 <= i < j < r@.len() ==> r@[i]@ != r@[j]@,
    {
        let ghost p = self.model();
        let ghost cands = candidate_moves(p, self.recorded_checkers());
        let mut av: Vec<Move> = Vec::new();
        if self.in_check() {
            self.generate_evasions(&mut av);
        } else {
            self.generate_all(&mut av);
        }
        assert(av@.subrange(0, 0) =~= Seq::<Move>::empty());
        let ghost legal = legal_move_set(p, self.recorded_checkers());
        let ghost orig = av@;
        self.retain_legal(&mut av);
        proof {
            assert forall|j: int| 0 <= j < av@.len() implies #[trigger] legal.contains(av@[j]@) by {
                assert(orig.contains(av@[j]));
                let k = choose|k: int| 0 <= k < orig.len() && orig[k] == av@[j];
                assert(cands.contains(orig[k]@));
            }
            assert forall|v: MoveType| #[trigger] legal.contains(v) implies exists|j: int| 0 <= j < av@.len() && #[trigger] av@[j]@ == v by {
                assert(cands.contains(v));
                let k = choose|k: int| 0 <= k < orig.len() && #[trigger] orig[k]@ == v;
                assert(legal_spec(p, orig[k]@));
                let j = choose|j: int| 0 <= j < av@.len() && #[trigger] av@[j] == orig[k];
                assert(av@[j]@ == v);
            }
        }
        av
    }
}

/// Every legal move moves or drops a piece of the side to move: a normal move starts from a
/// square that holds the moved piece, of that side; a drop drops a kind that side holds.
#[verifier::spinoff_prover]
#[verifier::rlimit(40)]
pub proof fn law_legal_moves_of_side(p: PartialPosition, checkers: Set<int>, v: MoveType)
    requires
        legal_move_set(p, checkers).contains(v),
    ensures
        match v {
            MoveType::Normal { from, to: _, is_promotion: _, piece } => p.board@[from.0 as int] == Some(piece)
                && piece.side() == p.side,
            MoveType::Drop { to: _, piece } => piece.side() == p.side && hand_kind(piece.kind()) && p.count(
                p.side,
                hand_slot(piece.kind()),
            ) > 0,
        },
{
    let c = p.side;
    match v {
        MoveType::Normal { from, to: _, is_promotion: _, piece } => {
            let f = from.0 as int;
            if checkers != Set::<int>::empty() {
                match king_square(p, c) {
                    Some(king) => {
                        let ks = color_set(p, c).intersect(kind_set(p, PieceType::OU));
                        assert(exists|i: int| #[trigger] ks.contains(i));
                        let x = choose|i: int| ks.contains(i) && forall|j: int| #[trigger] ks.contains(j) ==> i <= j;
                        assert(x == king);
                        assert(color_set(p, c).contains(king));
                    },
                    None => {},
                }
            }
            assert(color_set(p, c).contains(f));
        },
        MoveType::Drop { to: _, piece: _ } => {},
    }
}

/// A move of the pieces on `froms`, moving like `reach`, is a move of a piece on `froms` to a
/// target square it attacks as `reach`.
pub proof fn lemma_moves_of_reach(p: PartialPosition, froms: Set<int>, reach: PieceType, target: Set<int>, v: MoveType)
    requires
        moves_of(p, froms, reach, target).contains(v),
    ensures
        v matches MoveType::Normal { from, to, is_promotion, piece } && froms.contains(from.0 as int) && p.board@[from.0 as int]
            == Some(piece) && piece_attacks(reach, from.0 as int, p.side, occupied_set(p)).contains(to.0 as int)
            && target.contains(to.0 as int) && promotion_option(reach, p.side, from.0 as int, to.0 as int, is_promotion),
{
}

/// A move among the normal moves of the side to move goes to a target square that the moving
/// piece attacks; it is a king move only when king moves are asked for.
pub proof fn lemma_board_moves_reach(p: PartialPosition, target: Set<int>, with_king: bool, v: MoveType)
    requires
        board_moves(p, target, with_king).contains(v),
    ensures
        v matches MoveType::Normal { from, to, is_promotion, piece } && p.board@[from.0 as int] == Some(piece)
            && piece_attacks(piece.kind(), from.0 as int, p.side, occupied_set(p)).contains(to.0 as int) && target.contains(
            to.0 as int,
        ) && (piece.kind() == PieceType::OU ==> with_king) && promotion_option(
            piece.kind(),
            p.side,
            from.0 as int,
            to.0 as int,
            is_promotion,
        ),
{
    let kinds = seq![
        PieceType::FU,
        PieceType::KY,
        PieceType::KE,
        PieceType::GI,
        PieceType::KA,
        PieceType::HI,
        PieceType::OU,
        PieceType::UM,
        PieceType::RY,
    ];
    if moves_of(p, own_golds(p), PieceType::KI, target).contains(v) {
        lemma_moves_of_reach(p, own_golds(p), PieceType::KI, target, v);
    } else {
        assert(exists|i: int|
            0 <= i < kinds.len() && #[trigger] moves_of(p, own_kind(p, kinds[i]), kinds[i], target).contains(v));
        let i = choose|i: int|
            0 <= i < kinds.len() && #[trigger] moves_of(p, own_kind(p, kinds[i]), kinds[i], target).contains(v);
        lemma_moves_of_reach(p, own_kind(p, kinds[i]), kinds[i], target, v);
    }
}

/// What a legal normal move is made of: a piece of the side to move goes from `from` to a square
/// it attacks; a king goes to a square no opposing piece attacks; a pinned piece stays on its
/// line; in check, the king goes off the checkers' reach, and another piece, against one
/// checker, takes it or goes between it and the king.
pub proof fn lemma_legal_normal(p: PartialPosition, m: Move)
    requires
        legal_move_set(p, checkers_spec(p)).contains(m@),
        m@ is Normal,
    ensures
        m@ matches MoveType::Normal { from, to, is_promotion, piece } && ({
            let f = from.0 as int;
            let x = to.0 as int;
            let c = p.side;
            let chk = checkers_spec(p);
            &&& p.board@[f] == Some(piece)
            &&& piece.side() == c
            &&& piece_attacks(piece.kind(), f, c, occupied_set(p)).contains(x)
            &&& promotion_option(piece.kind(), c, f, x, is_promotion)
            &&& (piece.kind() == PieceType::OU ==> attackers_spec(p, c.opposite(), x, occupied_set(p))
                == Set::<int>::empty())
            &&& !(pinned_spec(p, c).contains(f) && match king_square(p, c) {
                Some(sq) => !(between_set(sq, f).contains(x) || between_set(sq, x).contains(f)),
                None => false,
            })
            &&& (chk == Set::<int>::empty() ==> !color_set(p, c).contains(x))
            &&& (chk != Set::<int>::empty() ==> (king_square(p, c) matches Some(king) && (if piece.kind()
                == PieceType::OU {
                f == king && !checkers_reach(p, chk, king).contains(x) && !color_set(p, c).contains(x)
            } else {
                chk.len() <= 1 && (chk.contains(x) || between_set(lowest(chk)->0, king).contains(x))
            })))
        }),
{
    let chk = checkers_spec(p);
    let v = m@;
    law_legal_moves_of_side(p, chk, v);
    assert(legal_spec(p, v));
    match v {
        MoveType::Normal { from, to, is_promotion: _, piece } => {
            let c = p.side;
            crate::piece::lemma_piece_code(piece);
            crate::piece::lemma_make(c, PieceType::OU);
            if chk == Set::<int>::empty() {
                assert(all_moves(p).contains(v));
                lemma_board_moves_reach(p, board_set().difference(color_set(p, c)), true, v);
            } else {
                assert(king_square(p, c) is Some);
                let king = king_square(p, c)->0;
                let ks = color_set(p, c).intersect(kind_set(p, PieceType::OU));
                assert(exists|i: int| #[trigger] ks.contains(i));
                let kx = choose|i: int| ks.contains(i) && forall|j: int| #[trigger] ks.contains(j) ==> i <= j;
                assert(ks.contains(kx));
                assert(evasion_moves(p, chk).contains(v));
                let escapes = moves_from(
                    PieceType::OU,
                    c,
                    p.board@[king]->0,
                    king,
                    piece_attacks(PieceType::OU, king, c, occupied_set(p)).difference(color_set(p, c)).difference(
                        checkers_reach(p, chk, king),
                    ),
                );
                if escapes.contains(v) {
                    assert(from.0 == king);
                } else {
                    let ch = lowest(chk)->0;
                    let target_drop = between_set(ch, king);
                    lemma_board_moves_reach(p, target_drop.union(chk), false, v);
                }
            }
        },
        MoveType::Drop { to: _, piece: _ } => {},
    }
}

/// What a legal drop is made of: a piece of the side to move dropped on a square, which in
/// check lies between the one checker and the king.
pub proof fn lemma_legal_drop(p: PartialPosition, m: Move)
    requires
        legal_move_set(p, checkers_spec(p)).contains(m@),
        m@ is Drop,
    ensures
        m@ matches MoveType::Drop { to, piece } && piece.side() == p.side && ({
            let chk = checkers_spec(p);
            chk != Set::<int>::empty() ==> (king_square(p, p.side) matches Some(king) && chk.len() <= 1
                && between_set(lowest(chk)->0, king).contains(to.0 as int))
        }),
{
    let chk = checkers_spec(p);
    let v = m@;
    law_legal_moves_of_side(p, chk, v);
    if chk != Set::<int>::empty() {
        let c = p.side;
        assert(king_square(p, c) is Some);
        let king = king_square(p, c)->0;
        assert(evasion_moves(p, chk).contains(v));
    }
}

/// A set of squares with at most one element holds no two different squares.
pub proof fn lemma_one_member(s: Set<int>, a: int, b: int)
    requires
        s.len() <= 1,
        s.contains(a),
        s.contains(b),
        s.subset_of(board_set()),
    ensures
        a == b,
{
    if a != b {
        let two = Set::<int>::empty().insert(a).insert(b);
        assert(board_set() =~= vstd::set_lib::set_int_range(0, 81));
        vstd::set_lib::lemma_int_range(0, 81);
        vstd::set_lib::lemma_len_subset(s, board_set());
        vstd::set_lib::lemma_len_subset(two, s);
        assert(two.len() == 2);
    }
}

/// Against one checker, that checker is the lowest of the checkers.
pub proof fn lemma_the_checker(p: PartialPosition, s: int)
    requires
        checkers_spec(p).len() <= 1,
        checkers_spec(p).contains(s),
    ensures
        lowest(checkers_spec(p)) == Some(s),
{
    let chk = checkers_spec(p);
    assert(chk.subset_of(board_set()));
    assert forall|j: int| #[trigger] chk.contains(j) implies s <= j by {
        lemma_one_member(chk, s, j);
    }
    lemma_lowest(chk, s);
}

/// After a legal drop, no opposing piece attacks the king of the side that dropped along the
/// attacks of kind `xk`.
#[verifier::spinoff_prover]
#[verifier::rlimit(40)]
pub proof fn lemma_drop_safe(p: PartialPosition, m: Move, k: int, s: int, xk: PieceType)
    requires
        legal_move_set(p, checkers_spec(p)).contains(m@),
        can_apply(p, m),
        m@ matches MoveType::Drop { to, piece: _ } && 0 <= to.0 < 81,
        king_square(p, p.side) == Some(k),
        0 <= k < 81,
        is_component(xk),
    ensures
        !checks_via(with_side(after_move(p, m), p.side), xk, k, s),
{
    lemma_legal_drop(p, m);
    match m@ {
        MoveType::Drop { to, piece } => {
            let x = to.0 as int;
            let c = p.side;
            let q = after_move(p, m);
            let w = with_side(q, c);
            assert(w.board@ == p.board@.update(x, Some(piece)));
            if checks_via(w, xk, k, s) {
                assert(s != x);
                assert(w.board@[s] == p.board@[s]);
                let occ = occupied_set(p);
                let occw = occupied_set(w);
                assert(occw =~= occ.insert(x));
                crate::tables::lemma_attacks_fewer(xk, k, c, occ, occw);
                assert(checks_via(p, xk, k, s));
                lemma_checkers_via(p, k, s);
                lemma_the_checker(p, s);
                crate::tables::lemma_between_symmetric(s, k);
                lemma_kind_rays(xk, c, occw, occ, k);
                if is_ray(xk) {
                    let ds = ray_dirs(xk, c);
                    let (ki, n) = crate::tables::ray_witness(k, ds, occw, s);
                    crate::tables::lemma_between_line(k, ds[ki], n, s, x);
                    let mm = choose|mm: int| 1 <= mm < n && #[trigger] line_square(k, ds[ki], mm) == Some(x);
                    assert(line_square(k, ds[ki], mm) matches Some(u) && !occw.contains(u));
                } else {
                    crate::tables::lemma_step_between(xk, c, k, s);
                }
            }
        },
        MoveType::Normal { from: _, to: _, is_promotion: _, piece: _ } => {},
    }
}

/// The frame of a move of a piece of the side to move of `p` from `f` to `x` that leaves its king
/// on `k`, giving the board `w` with the same side to move: in check, against one checker only,
/// taking it or going between it and the king; a pinned piece stays on its line.
pub open spec fn piece_move_frame(p: PartialPosition, w: PartialPosition, f: int, x: int, k: int, pk: PieceType) -> bool {
    let c = p.side;
    let chk = checkers_spec(p);
    &&& 0 <= f < 81
    &&& 0 <= x < 81
    &&& 0 <= k < 81
    &&& w.side == c
    &&& w.board@[f] is None
    &&& p.board@[f] is Some
    &&& w.board@[x] matches Some(pl) && pl.side() == c
    &&& forall|i: int| 0 <= i < 81 && i != f && i != x ==> w.board@[i] == p.board@[i]
    &&& occupied_set(w) == occupied_set(p).remove(f).insert(x)
    &&& king_square(p, c) == Some(k)
    &&& piece_attacks(pk, f, c, occupied_set(p)).contains(x)
    &&& !(pinned_spec(p, c).contains(f) && !(between_set(k, f).contains(x) || between_set(k, x).contains(f)))
    &&& (chk != Set::<int>::empty() ==> chk.len() <= 1 && (chk.contains(x) || between_set(lowest(chk)->0, k).contains(x)))
}

/// In that frame, no opposing piece attacks the king by a step.
pub proof fn lemma_piece_move_step(p: PartialPosition, w: PartialPosition, f: int, x: int, k: int, pk: PieceType, s: int, xk: PieceType)
    requires
        piece_move_frame(p, w, f, x, k, pk),
        is_component(xk),
        !is_ray(xk),
    ensures
        !checks_via(w, xk, k, s),
{
    let c = p.side;
    let chk = checkers_spec(p);
    assert(chk.subset_of(board_set()));
    if checks_via(w, xk, k, s) {
        assert(w.board@[s] == p.board@[s]);
        lemma_kind_rays(xk, c, occupied_set(w), occupied_set(p), k);
        assert(checks_via(p, xk, k, s));
        lemma_checkers_via(p, k, s);
        lemma_the_checker(p, s);
        if chk.contains(x) {
            lemma_one_member(chk, x, s);
        } else {
            crate::tables::lemma_between_symmetric(s, k);
            crate::tables::lemma_step_between(xk, c, k, s);
        }
    }
}

/// In that frame, no opposing slider attacks the king.
#[verifier::spinoff_prover]
#[verifier::rlimit(40)]
pub proof fn lemma_piece_move_ray(p: PartialPosition, w: PartialPosition, f: int, x: int, k: int, pk: PieceType, s: int, xk: PieceType)
    requires
        piece_move_frame(p, w, f, x, k, pk),
        is_component(xk),
        is_ray(xk),
    ensures
        !checks_via(w, xk, k, s),
{
    let c = p.side;
    let chk = checkers_spec(p);
    assert(chk.subset_of(board_set()));
    if checks_via(w, xk, k, s) {
        assert(w.board@[s] == p.board@[s]);
        let occ = occupied_set(p);
        let occw = occupied_set(w);
        lemma_kind_rays(xk, c, occw, occ, k);
        lemma_kind_rays(xk, c, occ, occw, k);
        let ds = ray_dirs(xk, c);
        let (ki, n) = crate::tables::ray_witness(k, ds, occw, s);
        let dl = ds[ki];
        crate::tables::lemma_ray_moved(k, ds, ki, n, s, occ, occw, f, x);
        if exists|j: int| 1 <= j < n && #[trigger] line_square(k, ds[ki], j) == Some(f) {
            let j = choose|j: int| 1 <= j < n && #[trigger] line_square(k, ds[ki], j) == Some(f);
            crate::tables::lemma_attacks_fewer(xk, k, c, Set::empty(), occw);
            assert(crate::position::snipers_spec(p, c, k).contains(s));
            assert forall|mm: int|
                #![trigger line_square(k, dl, mm)]
                1 <= mm < n && mm != j implies (line_square(k, dl, mm) matches Some(u) && !occ.contains(u)) by {
                assert(line_square(k, dl, mm) matches Some(u) && !occw.contains(u));
                if line_square(k, dl, mm) == Some(f) {
                    crate::tables::lemma_line_injective(k, dl, mm, j);
                }
            }
            crate::position::lemma_sole_blocker(p, c, k, s, f, dl, j, n);
            crate::tables::lemma_leaves_line(pk, c, k, dl, j, n, f, s, x, occ);
        } else {
            assert(checks_via(p, xk, k, s));
            lemma_checkers_via(p, k, s);
            lemma_the_checker(p, s);
            if chk.contains(x) {
                lemma_one_member(chk, x, s);
            } else {
                crate::tables::lemma_between_symmetric(s, k);
                crate::tables::lemma_between_line(k, dl, n, s, x);
                let mm = choose|mm: int| 1 <= mm < n && #[trigger] line_square(k, dl, mm) == Some(x);
            }
        }
    }
}

/// After a legal move of a piece other than the king, no opposing piece attacks the king of the
/// side that moved along the attacks of kind `xk`.
#[verifier::spinoff_prover]
#[verifier::rlimit(40)]
pub proof fn lemma_piece_move_safe(p: PartialPosition, m: Move, k: int, s: int, xk: PieceType)
    requires
        legal_move_set(p, checkers_spec(p)).contains(m@),
        can_apply(p, m),
        m@ matches MoveType::Normal { from, to, is_promotion: _, piece: _ } && 0 <= from.0 < 81 && 0 <= to.0 < 81
            && p.board@[from.0 as int]->0.kind() != PieceType::OU,
        king_square(p, p.side) == Some(k),
        0 <= k < 81,
        is_component(xk),
    ensures
        !checks_via(with_side(after_move(p, m), p.side), xk, k, s),
{
    lemma_legal_normal(p, m);
    match m@ {
        MoveType::Normal { from, to, is_promotion, piece } => {
            let f = from.0 as int;
            let x = to.0 as int;
            let c = p.side;
            let q = after_move(p, m);
            let w = with_side(q, c);
            let pk = piece.kind();
            let placed = if is_promotion {
                crate::piece::Piece::make(c, crate::piece::kind_promoted(pk))
            } else {
                piece
            };
            crate::piece::lemma_make(c, crate::piece::kind_promoted(pk));
            assert(w.board@ == p.board@.update(f, None).update(x, Some(placed)));
            assert(occupied_set(w) =~= occupied_set(p).remove(f).insert(x));
            assert(w.board@[x] matches Some(pl) && pl.side() == c);
            assert(forall|i: int| 0 <= i < 81 && i != f && i != x ==> w.board@[i] == p.board@[i]);
            assert(piece_attacks(pk, f, c, occupied_set(p)).contains(x));
            assert(piece_move_frame(p, w, f, x, k, pk));
            if is_ray(xk) {
                lemma_piece_move_ray(p, w, f, x, k, pk, s, xk);
            } else {
                lemma_piece_move_step(p, w, f, x, k, pk, s, xk);
            }
        },
        MoveType::Drop { to: _, piece: _ } => {},
    }
}

/// Only one king of color `c` stands on the board.
pub open spec fn single_king(p: PartialPosition, c: Color) -> bool {
    forall|a: int, b: int|
        #![trigger color_set(p, c).intersect(kind_set(p, PieceType::OU)).contains(a), color_set(p, c).intersect(kind_set(p, PieceType::OU)).contains(b)]
        color_set(p, c).intersect(kind_set(p, PieceType::OU)).contains(a) && color_set(p, c).intersect(
            kind_set(p, PieceType::OU),
        ).contains(b) ==> a == b
}

/// After a legal king move from `f` to `x`, no opposing piece attacks the king on `x` along the
/// attacks of kind `xk`.
#[verifier::spinoff_prover]
#[verifier::rlimit(40)]
pub proof fn lemma_king_move_safe(p: PartialPosition, w: PartialPosition, f: int, x: int, s: int, xk: PieceType)
    requires
        0 <= f < 81,
        0 <= x < 81,
        w.side == p.side,
        w.board@[f] is None,
        w.board@[x] matches Some(pl) && pl.side() == p.side,
        forall|i: int| 0 <= i < 81 && i != f && i != x ==> w.board@[i] == p.board@[i],
        occupied_set(w) == occupied_set(p).remove(f).insert(x),
        king_square(p, p.side) == Some(f),
        attackers_spec(p, p.side.opposite(), x, occupied_set(p)) == Set::<int>::empty(),
        checkers_spec(p) != Set::<int>::empty() ==> !checkers_reach(p, checkers_spec(p), f).contains(x),
        is_component(xk),
    ensures
        !checks_via(w, xk, x, s),
{
    let c = p.side;
    let opp = c.opposite();
    if checks_via(w, xk, x, s) {
        assert(w.board@[s] == p.board@[s]);
        let occ = occupied_set(p);
        let occw = occupied_set(w);
        lemma_kind_rays(xk, c, occw, occ, x);
        lemma_kind_rays(xk, c, occ, occw, x);
        if !is_ray(xk) {
            crate::position::lemma_attackers_via(p, opp, x, occ, xk, s);
        } else {
            let ds = ray_dirs(xk, c);
            let (ki, n) = crate::tables::ray_witness(x, ds, occw, s);
            let dl = ds[ki];
            crate::tables::lemma_ray_moved(x, ds, ki, n, s, occ, occw, f, x);
            if exists|j: int| 1 <= j < n && #[trigger] line_square(x, ds[ki], j) == Some(f) {
                let j = choose|j: int| 1 <= j < n && #[trigger] line_square(x, ds[ki], j) == Some(f);
                crate::tables::lemma_line_shift(x, dl, j, n, f, s);
                assert forall|i: int|
                    #![trigger line_square(f, dl, i)]
                    1 <= i < n - j implies (line_square(f, dl, i) matches Some(u) && !occ.contains(u)) by {
                    assert(line_square(x, dl, j + i) matches Some(u) && !occw.contains(u));
                    crate::tables::lemma_line_shift(x, dl, j, j + i, f, line_square(x, dl, j + i)->0);
                    if line_square(x, dl, j + i) == Some(f) {
                        crate::tables::lemma_line_injective(x, dl, j + i, j);
                    }
                }
                crate::tables::lemma_ray_reach(f, ds, occ, ki, n - j, s);
                lemma_kind_rays(xk, c, occ, occw, f);
                assert(checks_via(p, xk, f, s));
                lemma_checkers_via(p, f, s);
                let y = p.board@[s]->0.kind();
                crate::position::lemma_reverse_reach(xk, c, x, ki, n, s, y);
                if y == PieceType::RY {
                    crate::tables::lemma_coords(
                        crate::square::file_of(f) + (n - j) * dl.file,
                        crate::square::rank_of(f) + (n - j) * dl.rank,
                    );
                    assert(dl.file == 0 || dl.rank == 0);
                    assert((n - j) * 0 == 0);
                }
                assert(checker_reach(p, s, f).contains(x));
                assert(checkers_reach(p, checkers_spec(p), f).contains(x));
            } else {
                crate::position::lemma_attackers_via(p, opp, x, occ, xk, s);
            }
        }
    }
}

/// After a legal drop, no opposing piece attacks the king of the side that dropped.
#[verifier::spinoff_prover]
#[verifier::rlimit(40)]
pub proof fn lemma_drop_leaves_safe(p: PartialPosition, m: Move)
    requires
        legal_move_set(p, checkers_spec(p)).contains(m@),
        can_apply(p, m),
        m@ matches MoveType::Drop { to, piece: _ } && 0 <= to.0 < 81,
    ensures
        checkers_spec(with_side(after_move(p, m), p.side)) == Set::<int>::empty(),
{
    let c = p.side;
    let w = with_side(after_move(p, m), c);
    let ks = color_set(p, c).intersect(kind_set(p, PieceType::OU));
    let kw = color_set(w, c).intersect(kind_set(w, PieceType::OU));
    lemma_legal_drop(p, m);
    match m@ {
        MoveType::Drop { to, piece } => {
            let x = to.0 as int;
            crate::piece::lemma_kind_code(piece.kind());
            assert(w.board@ == p.board@.update(x, Some(piece)));
            assert(kw =~= ks);
            match king_square(p, c) {
                Some(k) => {
                    assert(ks.contains(k)) by {
                        assert(exists|i: int| #[trigger] ks.contains(i));
                        let kx = choose|i: int| ks.contains(i) && forall|j: int| #[trigger] ks.contains(j) ==> i <= j;
                        assert(ks.contains(kx));
                    }
                    assert forall|s: int| !#[trigger] checkers_spec(w).contains(s) by {
                        lemma_checkers_via(w, k, s);
                        if checkers_spec(w).contains(s) {
                            let xk = choose|xk: PieceType| is_component(xk) && #[trigger] checks_via(w, xk, k, s);
                            lemma_drop_safe(p, m, k, s, xk);
                        }
                    }
                    assert(checkers_spec(w) =~= Set::<int>::empty());
                },
                None => {
                    assert(checkers_spec(w) =~= Set::<int>::empty());
                },
            }
        },
        MoveType::Normal { from: _, to: _, is_promotion: _, piece: _ } => {},
    }
}

/// After a legal king move, no opposing piece attacks that king, when its side has one king.
#[verifier::spinoff_prover]
#[verifier::rlimit(40)]
pub proof fn lemma_king_leaves_safe(p: PartialPosition, m: Move)
    requires
        legal_move_set(p, checkers_spec(p)).contains(m@),
        can_apply(p, m),
        m@ matches MoveType::Normal { from, to, is_promotion: _, piece: _ } && 0 <= from.0 < 81 && 0 <= to.0 < 81
            && p.board@[from.0 as int]->0.kind() == PieceType::OU,
        single_king(p, p.side),
    ensures
        checkers_spec(with_side(after_move(p, m), p.side)) == Set::<int>::empty(),
{
    let c = p.side;
    let w = with_side(after_move(p, m), c);
    let ks = color_set(p, c).intersect(kind_set(p, PieceType::OU));
    let kw = color_set(w, c).intersect(kind_set(w, PieceType::OU));
    lemma_legal_normal(p, m);
    match m@ {
        MoveType::Normal { from, to, is_promotion, piece } => {
            let f = from.0 as int;
            let x = to.0 as int;
            crate::piece::lemma_kind_code(piece.kind());
            assert(!is_promotion);
            assert(w.board@ == p.board@.update(f, None).update(x, Some(piece)));
            assert(occupied_set(w) =~= occupied_set(p).remove(f).insert(x));
            assert(ks.contains(f));
            assert(forall|j: int| #[trigger] ks.contains(j) ==> j == f);
            lemma_lowest(ks, f);
            assert forall|i: int| #[trigger] kw.contains(i) == (i == x) by {
                if 0 <= i < 81 && i != x && i != f && kw.contains(i) {
                    assert(w.board@[i] == p.board@[i]);
                    assert(ks.contains(i));
                }
            }
            assert(kw =~= Set::<int>::empty().insert(x));
            lemma_lowest(kw, x);
            assert(forall|i: int| 0 <= i < 81 && i != f && i != x ==> w.board@[i] == p.board@[i]);
            assert forall|s: int| !#[trigger] checkers_spec(w).contains(s) by {
                lemma_checkers_via(w, x, s);
                if checkers_spec(w).contains(s) {
                    let xk = choose|xk: PieceType| is_component(xk) && #[trigger] checks_via(w, xk, x, s);
                    lemma_king_move_safe(p, w, f, x, s, xk);
                }
            }
            assert(checkers_spec(w) =~= Set::<int>::empty());
        },
        MoveType::Drop { to: _, piece: _ } => {},
    }
}

/// After a legal move of a piece other than the king, no opposing piece attacks the king.
#[verifier::spinoff_prover]
#[verifier::rlimit(40)]
pub proof fn lemma_piece_leaves_safe(p: PartialPosition, m: Move)
    requires
        legal_move_set(p, checkers_spec(p)).contains(m@),
        can_apply(p, m),
        m@ matches MoveType::Normal { from, to, is_promotion: _, piece: _ } && 0 <= from.0 < 81 && 0 <= to.0 < 81
            && p.board@[from.0 as int]->0.kind() != PieceType::OU,
    ensures
        checkers_spec(with_side(after_move(p, m), p.side)) == Set::<int>::empty(),
{
    let c = p.side;
    let w = with_side(after_move(p, m), c);
    let chk = checkers_spec(p);
    let ks = color_set(p, c).intersect(kind_set(p, PieceType::OU));
    let kw = color_set(w, c).intersect(kind_set(w, PieceType::OU));
    lemma_legal_normal(p, m);
    match m@ {
        MoveType::Normal { from, to, is_promotion, piece } => {
            let f = from.0 as int;
            let x = to.0 as int;
            let pk = piece.kind();
            let placed = if is_promotion {
                crate::piece::Piece::make(c, crate::piece::kind_promoted(pk))
            } else {
                piece
            };
            crate::piece::lemma_make(c, crate::piece::kind_promoted(pk));
            crate::piece::lemma_kind_code(pk);
            assert(placed.kind() != PieceType::OU);
            assert(w.board@ == p.board@.update(f, None).update(x, Some(placed)));
            match king_square(p, c) {
                Some(k) => {
                    assert(ks.contains(k)) by {
                        assert(exists|i: int| #[trigger] ks.contains(i));
                        let kx = choose|i: int| ks.contains(i) && forall|j: int| #[trigger] ks.contains(j) ==> i <= j;
                        assert(ks.contains(kx));
                    }
                    assert(color_set(p, c).contains(k));
                    assert(x != k) by {
                        if chk == Set::<int>::empty() {
                            assert(!color_set(p, c).contains(x));
                        } else if chk.contains(x) {
                            assert(color_set(p, c.opposite()).contains(x));
                        } else {
                            let ch = lowest(chk)->0;
                            assert(between_set(ch, k).contains(x));
                            if crate::tables::aligned(ch, k) {
                            }
                        }
                    }
                    assert forall|i: int| #[trigger] kw.contains(i) == ks.contains(i) by {
                        if 0 <= i < 81 && i != x && i != f {
                            assert(w.board@[i] == p.board@[i]);
                        }
                    }
                    assert(kw =~= ks);
                    assert forall|s: int| !#[trigger] checkers_spec(w).contains(s) by {
                        lemma_checkers_via(w, k, s);
                        if checkers_spec(w).contains(s) {
                            let xk = choose|xk: PieceType| is_component(xk) && #[trigger] checks_via(w, xk, k, s);
                            lemma_piece_move_safe(p, m, k, s, xk);
                        }
                    }
                    assert(checkers_spec(w) =~= Set::<int>::empty());
                },
                None => {
                    assert(kw =~= ks);
                    assert(checkers_spec(w) =~= Set::<int>::empty());
                },
            }
        },
        MoveType::Drop { to: _, piece: _ } => {},
    }
}

/// A legal move leaves no opposing piece attacking the king of the side that moved, when the
/// checkers it was generated against are the pieces attacking that king and that side has one
/// king: the generator's legality filter is sound.
pub proof fn law_legal_move_safe(p: PartialPosition, m: Move)
    requires
        legal_move_set(p, checkers_spec(p)).contains(m@),
        can_apply(p, m),
        m.inv(),
        single_king(p, p.side),
    ensures
        opponent_unattacked(after_move(p, m)),
{
    m.lemma_wf();
    let q = after_move(p, m);
    assert(with_side(q, q.side.opposite()) == with_side(q, p.side));
    match m@ {
        MoveType::Drop { to: _, piece: _ } => {
            lemma_drop_leaves_safe(p, m);
        },
        MoveType::Normal { from, to: _, is_promotion: _, piece: _ } => {
            if p.board@[from.0 as int]->0.kind() == PieceType::OU {
                lemma_king_leaves_safe(p, m);
            } else {
                lemma_piece_leaves_safe(p, m);
            }
        },
    }
}

/// Nothing stands between a checker and the king it attacks.
pub proof fn lemma_checker_line_clear(p: PartialPosition, k: int, ch: int, u: int)
    requires
        king_square(p, p.side) == Some(k),
        0 <= k < 81,
        checkers_spec(p).contains(ch),
        between_set(ch, k).contains(u),
    ensures
        !occupied_set(p).contains(u),
{
    let c = p.side;
    let occ = occupied_set(p);
    lemma_checkers_via(p, k, ch);
    let xk = choose|xk: PieceType| is_component(xk) && #[trigger] checks_via(p, xk, k, ch);
    crate::tables::lemma_between_symmetric(ch, k);
    lemma_kind_rays(xk, c, occ, occ, k);
    if is_ray(xk) {
        let ds = ray_dirs(xk, c);
        let (ki, n) = crate::tables::ray_witness(k, ds, occ, ch);
        crate::tables::lemma_between_line(k, ds[ki], n, ch, u);
        let mm = choose|mm: int| 1 <= mm < n && #[trigger] line_square(k, ds[ki], mm) == Some(u);
        assert(line_square(k, ds[ki], mm) matches Some(w) && !occ.contains(w));
    } else {
        crate::tables::lemma_step_between(xk, c, k, ch);
    }
}

/// A legal normal move goes to a square holding no piece of the side to move.
pub proof fn lemma_legal_target(p: PartialPosition, m: Move)
    requires
        legal_move_set(p, checkers_spec(p)).contains(m@),
        m@ is Normal,
    ensures
        m@ matches MoveType::Normal { from: _, to, is_promotion: _, piece: _ } && !color_set(p, p.side).contains(to.0 as int),
{
    lemma_legal_normal(p, m);
    let chk = checkers_spec(p);
    match m@ {
        MoveType::Normal { from: _, to, is_promotion: _, piece } => {
            let x = to.0 as int;
            if chk != Set::<int>::empty() && piece.kind() != PieceType::OU && !chk.contains(x) {
                let k = king_square(p, p.side)->0;
                let ks = color_set(p, p.side).intersect(kind_set(p, PieceType::OU));
                assert(ks.contains(k)) by {
                    assert(exists|i: int| #[trigger] ks.contains(i));
                    let kx = choose|i: int| ks.contains(i) && forall|j: int| #[trigger] ks.contains(j) ==> i <= j;
                    assert(ks.contains(kx));
                }
                let ch = lowest(chk)->0;
                assert(chk.subset_of(board_set()));
                assert(chk.contains(ch)) by {
                    if !exists|i: int| #[trigger] chk.contains(i) {
                        assert(chk =~= Set::<int>::empty());
                    }
                    let i = choose|i: int| chk.contains(i);
                    lemma_the_checker(p, i);
                }
                lemma_checker_line_clear(p, k, ch, x);
            }
        },
        MoveType::Drop { to: _, piece: _ } => {},
    }
}

/// A move that can be applied keeps one king per side: it creates no king, takes none, and a
/// king that moves stays one.
pub proof fn lemma_single_king_kept(p: PartialPosition, m: Move, b: Color)
    requires
        can_apply(p, m),
        m.inv(),
        single_king(p, b),
        m@ is Drop ==> hand_kind(m@->Drop_piece.kind()),
    ensures
        single_king(after_move(p, m), b),
{
    m.lemma_wf();
    let q = after_move(p, m);
    let sq = color_set(q, b).intersect(kind_set(q, PieceType::OU));
    let sp = color_set(p, b).intersect(kind_set(p, PieceType::OU));
    match m@ {
        MoveType::Drop { to, piece } => {
            let x = to.0 as int;
            crate::piece::lemma_kind_code(piece.kind());
            assert(q.board@ == p.board@.update(x, Some(piece)));
            assert(sq =~= sp);
        },
        MoveType::Normal { from, to, is_promotion, piece: _ } => {
            let f = from.0 as int;
            let x = to.0 as int;
            let mover = p.board@[f]->0;
            let pk = mover.kind();
            let c = mover.side();
            let placed = if is_promotion {
                crate::piece::Piece::make(c, crate::piece::kind_promoted(pk))
            } else {
                mover
            };
            crate::piece::lemma_make(c, crate::piece::kind_promoted(pk));
            crate::piece::lemma_kind_code(pk);
            assert(q.board@ == p.board@.update(f, None).update(x, Some(placed)));
            assert forall|i: int, j: int| sq.contains(i) && sq.contains(j) implies i == j by {
                if i != x {
                    assert(sp.contains(i));
                }
                if j != x {
                    assert(sp.contains(j));
                }
                if i == x || j == x {
                    assert(pk == PieceType::OU && c == b);
                    assert(sp.contains(f));
                }
            }
        },
    }
}

/// Legal play keeps a position sound: after a legal move from a position where the side not to
/// move stands unattacked and each side has one king, the checkers recorded for the move are the
/// pieces attacking the king to move, the side that moved stands unattacked, and each side still
/// has one king.
pub proof fn law_legal_play(p: PartialPosition, m: Move)
    requires
        legal_move_set(p, checkers_spec(p)).contains(m@),
        can_apply(p, m),
        m.inv(),
        single_king(p, Color::Black),
        single_king(p, Color::White),
        opponent_unattacked(p),
    ensures
        checkers_after(p, m) == checkers_spec(after_move(p, m)),
        opponent_unattacked(after_move(p, m)),
        single_king(after_move(p, m), Color::Black),
        single_king(after_move(p, m), Color::White),
{
    m.lemma_wf();
    assert(single_king(p, p.side));
    law_legal_move_safe(p, m);
    match m@ {
        MoveType::Drop { to: _, piece: _ } => {
            lemma_legal_drop(p, m);
            law_legal_moves_of_side(p, checkers_spec(p), m@);
            crate::position::law_drop_checkers(p, m);
        },
        MoveType::Normal { from: _, to: _, is_promotion: _, piece: _ } => {
            lemma_legal_normal(p, m);
            lemma_legal_target(p, m);
            assert(crate::position::reaching_move(p, m));
            crate::position::law_move_checkers(p, m);
        },
    }
    lemma_single_king_kept(p, m, Color::Black);
    lemma_single_king_kept(p, m, Color::White);
}

/// A move by the rules, king safety aside: a piece of the side to move goes to a square it
/// attacks that holds no piece of its side, promoting as the rules allow; or a piece in hand is
/// dropped on an empty square where the drop rules allow it.
pub open spec fn rule_move(p: PartialPosition, v: MoveType) -> bool {
    match v {
        MoveType::Normal { from, to, is_promotion, piece } => {
            let f = from.0 as int;
            let x = to.0 as int;
            &&& 0 <= f < 81
            &&& 0 <= x < 81
            &&& p.board@[f] == Some(piece)
            &&& piece.side() == p.side
            &&& piece_attacks(piece.kind(), f, p.side, occupied_set(p)).contains(x)
            &&& !color_set(p, p.side).contains(x)
            &&& promotion_option(piece.kind(), p.side, f, x, is_promotion)
        },
        MoveType::Drop { to: _, piece: _ } => drop_moves(p, board_set().difference(occupied_set(p))).contains(v),
    }
}

/// No piece of the opponent of `c`, its king included, attacks the king of `c`.
pub open spec fn king_unattacked(p: PartialPosition, c: Color) -> bool {
    match king_square(p, c) {
        Some(k) => attackers_spec(p, c.opposite(), k, occupied_set(p)) == Set::<int>::empty(),
        None => true,
    }
}

/// A normal move by the rules is among the normal moves of the side to move to the squares its
/// pieces do not hold.
pub proof fn lemma_board_moves_complete(p: PartialPosition, v: MoveType)
    requires
        rule_move(p, v),
        v is Normal,
    ensures
        board_moves(p, board_set().difference(color_set(p, p.side)), true).contains(v),
{
    let tg = board_set().difference(color_set(p, p.side));
    match v {
        MoveType::Normal { from, to: _, is_promotion: _, piece } => {
            let f = from.0 as int;
            let k = piece.kind();
            crate::piece::lemma_kind_code(k);
            if k == PieceType::KI || k == PieceType::TO || k == PieceType::NY || k == PieceType::NK || k
                == PieceType::NG {
                assert(own_golds(p).contains(f));
                assert(moves_of(p, own_golds(p), PieceType::KI, tg).contains(v));
            } else {
                assert(own_kind(p, k).contains(f));
                assert(moves_of(p, own_kind(p, k), k, tg).contains(v));
            }
        },
        MoveType::Drop { to: _, piece: _ } => {},
    }
}

/// A king move by the rules after which the king stands unattacked goes to a square no opposing
/// piece attacks.
#[verifier::spinoff_prover]
#[verifier::rlimit(40)]
pub proof fn lemma_king_filter_complete(p: PartialPosition, m: Move)
    requires
        rule_move(p, m@),
        m@ matches MoveType::Normal { from: _, to: _, is_promotion: _, piece } && piece.kind() == PieceType::OU,
        can_apply(p, m),
        single_king(p, p.side),
        king_unattacked(with_side(after_move(p, m), p.side), p.side),
    ensures
        m@ matches MoveType::Normal { from: _, to, is_promotion: _, piece: _ } && attackers_spec(
            p,
            p.side.opposite(),
            to.0 as int,
            occupied_set(p),
        ) == Set::<int>::empty(),
{
    let c = p.side;
    let opp = c.opposite();
    let w = with_side(after_move(p, m), c);
    let ks = color_set(p, c).intersect(kind_set(p, PieceType::OU));
    let kw = color_set(w, c).intersect(kind_set(w, PieceType::OU));
    match m@ {
        MoveType::Normal { from, to, is_promotion, piece } => {
            let f = from.0 as int;
            let x = to.0 as int;
            crate::piece::lemma_kind_code(piece.kind());
            assert(!is_promotion);
            assert(w.board@ == p.board@.update(f, None).update(x, Some(piece)));
            let occ = occupied_set(p);
            let occw = occupied_set(w);
            assert(occw =~= occ.remove(f).insert(x));
            assert(ks.contains(f));
            assert forall|i: int| #[trigger] kw.contains(i) == (i == x) by {
                if 0 <= i < 81 && i != x && i != f && kw.contains(i) {
                    assert(w.board@[i] == p.board@[i]);
                    assert(ks.contains(i));
                }
            }
            assert(kw =~= Set::<int>::empty().insert(x));
            lemma_lowest(kw, x);
            assert forall|s: int| !#[trigger] attackers_spec(p, opp, x, occ).contains(s) by {
                if attackers_spec(p, opp, x, occ).contains(s) {
                    crate::tables::lemma_no_self_attack(PieceType::FU, x, c, occ);
                    crate::tables::lemma_no_self_attack(PieceType::KY, x, c, occ);
                    crate::tables::lemma_no_self_attack(PieceType::KE, x, c, occ);
                    crate::tables::lemma_no_self_attack(PieceType::GI, x, c, occ);
                    crate::tables::lemma_no_self_attack(PieceType::KA, x, c, occ);
                    crate::tables::lemma_no_self_attack(PieceType::HI, x, c, occ);
                    crate::tables::lemma_no_self_attack(PieceType::KI, x, c, occ);
                    assert(s != x);
                    assert(color_set(p, opp).contains(s));
                    assert(s != f);
                    assert(w.board@[s] == p.board@[s]);
                    crate::tables::lemma_attacks_origin_free(PieceType::FU, x, c, occ, occw);
                    crate::tables::lemma_attacks_origin_free(PieceType::KY, x, c, occ, occw);
                    crate::tables::lemma_attacks_origin_free(PieceType::KE, x, c, occ, occw);
                    crate::tables::lemma_attacks_origin_free(PieceType::GI, x, c, occ, occw);
                    crate::tables::lemma_attacks_origin_free(PieceType::KA, x, c, occ, occw);
                    crate::tables::lemma_attacks_origin_free(PieceType::HI, x, c, occ, occw);
                    crate::tables::lemma_attacks_origin_free(PieceType::KI, x, c, occ, occw);
                    assert(attackers_spec(w, opp, x, occw).contains(s));
                }
            }
            assert(attackers_spec(p, opp, x, occ) =~= Set::<int>::empty());
        },
        MoveType::Drop { to: _, piece: _ } => {},
    }
}

/// A slider pinning a piece against the king on `k` attacks the king once the pinned piece
/// leaves the line for a square `x` off it.
#[verifier::spinoff_prover]
#[verifier::rlimit(40)]
pub proof fn lemma_pin_attack(p: PartialPosition, w: PartialPosition, k: int, f: int, x: int, s: int)
    requires
        0 <= k < 81,
        0 <= f < 81,
        0 <= x < 81,
        f != x,
        crate::position::snipers_spec(p, p.side, k).contains(s),
        crate::position::pins(p, k, s, f),
        !(between_set(k, f).contains(x) || between_set(k, x).contains(f)),
        occupied_set(w) == occupied_set(p).remove(f).insert(x),
        forall|i: int| 0 <= i < 81 && i != f && i != x ==> w.board@[i] == p.board@[i],
    ensures
        attackers_spec(w, p.side.opposite(), k, occupied_set(w)).contains(s),
{
    let c = p.side;
    let opp = c.opposite();
    let occ = occupied_set(p);
    let occw = occupied_set(w);
    let xk = if piece_attacks(PieceType::KY, k, c, Set::empty()).contains(s) && kind_set(p, PieceType::KY).contains(s) {
        PieceType::KY
    } else if piece_attacks(PieceType::KA, k, c, Set::empty()).contains(s) && (kind_set(p, PieceType::KA).contains(s)
        || kind_set(p, PieceType::UM).contains(s)) {
        PieceType::KA
    } else {
        PieceType::HI
    };
    assert(is_component(xk) && is_ray(xk));
    lemma_kind_rays(xk, c, Set::empty(), Set::empty(), k);
    lemma_kind_rays(xk, c, occw, occw, k);
    let ds = ray_dirs(xk, c);
    let (ki, n) = crate::tables::ray_witness(k, ds, Set::empty(), s);
    let dl = ds[ki];
    let bl = crate::position::blockers(p, k, s);
    assert(bl.subset_of(board_set()));
    assert forall|u: int| #[trigger] bl.contains(u) implies u == f by {
        lemma_one_member(bl, u, f);
    }
    crate::tables::lemma_between_line(k, dl, n, s, f);
    let mf = choose|mm: int| 1 <= mm < n && #[trigger] line_square(k, dl, mm) == Some(f);
    assert forall|mm: int| 1 <= mm < n implies #[trigger] line_square(k, dl, mm) != Some(x) by {
        if line_square(k, dl, mm) == Some(x) {
            if mm < mf {
                crate::tables::lemma_between_line(k, dl, mf, f, x);
            } else if mm > mf {
                crate::tables::lemma_between_line(k, dl, mm, x, f);
            }
        }
    }
    assert(s != x) by {
        if s == x {
            crate::tables::lemma_between_line(k, dl, n, x, f);
        }
    }
    assert forall|mm: int|
        #![trigger line_square(k, dl, mm)]
        1 <= mm < n implies (line_square(k, dl, mm) matches Some(u) && !occw.contains(u)) by {
        assert(line_square(k, dl, mm) matches Some(u) && !Set::<int>::empty().contains(u));
        let u = line_square(k, dl, mm)->0;
        crate::tables::lemma_between_line(k, dl, n, s, u);
        if occ.contains(u) {
            assert(bl.contains(u));
        }
    }
    crate::tables::lemma_ray_reach(k, ds, occw, ki, n, s);
    assert(color_set(p, opp).contains(s));
    assert(s != f);
    assert(w.board@[s] == p.board@[s]);
    crate::position::lemma_attackers_via(w, opp, k, occw, xk, s);
}

/// A move by the rules of a piece other than the king, after which the king stands unattacked,
/// keeps a pinned piece on the line between the king and the piece pinning it.
#[verifier::spinoff_prover]
#[verifier::rlimit(60)]
pub proof fn lemma_pin_filter_complete(p: PartialPosition, m: Move)
    requires
        rule_move(p, m@),
        m@ matches MoveType::Normal { from: _, to: _, is_promotion: _, piece } && piece.kind() != PieceType::OU,
        can_apply(p, m),
        king_unattacked(with_side(after_move(p, m), p.side), p.side),
    ensures
        m@ matches MoveType::Normal { from, to, is_promotion: _, piece: _ } && !(pinned_spec(p, p.side).contains(
            from.0 as int,
        ) && match king_square(p, p.side) {
            Some(sq) => !(between_set(sq, from.0 as int).contains(to.0 as int) || between_set(sq, to.0 as int).contains(
                from.0 as int,
            )),
            None => false,
        }),
{
    let c = p.side;
    let w = with_side(after_move(p, m), c);
    match m@ {
        MoveType::Normal { from, to, is_promotion, piece } => {
            let f = from.0 as int;
            let x = to.0 as int;
            match king_square(p, c) {
                Some(k) => {
                    if pinned_spec(p, c).contains(f) && !(between_set(k, f).contains(x) || between_set(k, x).contains(f)) {
                        let ks = color_set(p, c).intersect(kind_set(p, PieceType::OU));
                        let kw = color_set(w, c).intersect(kind_set(w, PieceType::OU));
                        assert(ks.contains(k)) by {
                            assert(exists|i: int| #[trigger] ks.contains(i));
                            let kx = choose|i: int| ks.contains(i) && forall|j: int| #[trigger] ks.contains(j) ==> i <= j;
                            assert(ks.contains(kx));
                        }
                        let pk = piece.kind();
                        let placed = if is_promotion {
                            crate::piece::Piece::make(c, crate::piece::kind_promoted(pk))
                        } else {
                            piece
                        };
                        crate::piece::lemma_make(c, crate::piece::kind_promoted(pk));
                        crate::piece::lemma_kind_code(pk);
                        assert(w.board@ == p.board@.update(f, None).update(x, Some(placed)));
                        assert(occupied_set(w) =~= occupied_set(p).remove(f).insert(x));
                        assert(f != k && x != k);
                        assert forall|i: int| #[trigger] kw.contains(i) == ks.contains(i) by {
                            if 0 <= i < 81 && i != x && i != f {
                                assert(w.board@[i] == p.board@[i]);
                            }
                        }
                        assert(kw =~= ks);
                        assert(forall|i: int| 0 <= i < 81 && i != f && i != x ==> w.board@[i] == p.board@[i]);
                        let s = choose|s: int|
                            crate::position::snipers_spec(p, c, k).contains(s) && #[trigger] crate::position::pins(p, k, s, f);
                        lemma_pin_attack(p, w, k, f, x, s);
                    }
                },
                None => {},
            }
        },
        MoveType::Drop { to: _, piece: _ } => {},
    }
}

/// The king is not pinned: nothing lies between a square and itself.
pub proof fn lemma_king_not_pinned(p: PartialPosition, k: int)
    requires
        king_square(p, p.side) == Some(k),
        0 <= k < 81,
    ensures
        !pinned_spec(p, p.side).contains(k),
{
    if pinned_spec(p, p.side).contains(k) {
        let s = choose|s: int|
            crate::position::snipers_spec(p, p.side, k).contains(s) && #[trigger] crate::position::pins(p, k, s, k);
        let bl = crate::position::blockers(p, k, s);
        assert(bl.contains(k));
        if crate::tables::aligned(k, s) {
            let n = crate::tables::lemma_aligned_line(k, s);
            crate::tables::lemma_between_line(k, crate::tables::direction(k, s), n, s, k);
            let mm = choose|mm: int| 1 <= mm < n && #[trigger] line_square(k, crate::tables::direction(k, s), mm) == Some(k);
            assert(line_square(k, crate::tables::direction(k, s), 0) == Some(k)) by {
                crate::tables::lemma_coords(crate::square::file_of(k), crate::square::rank_of(k));
            }
            crate::tables::lemma_line_injective(k, crate::tables::direction(k, s), mm, 0);
        }
    }
}

/// Out of check, the generator misses no move of this kind.
pub proof fn lemma_out_of_check_complete(p: PartialPosition, m: Move)
    requires
        checkers_spec(p) == Set::<int>::empty(),
        rule_move(p, m@),
        can_apply(p, m),
        single_king(p, p.side),
        king_unattacked(with_side(after_move(p, m), p.side), p.side),
    ensures
        legal_move_set(p, checkers_spec(p)).contains(m@),
{
    let v = m@;
    match v {
        MoveType::Normal { from, to: _, is_promotion: _, piece } => {
            lemma_board_moves_complete(p, v);
            crate::piece::lemma_piece_code(piece);
            crate::piece::lemma_make(p.side, PieceType::OU);
            if piece.kind() == PieceType::OU {
                lemma_king_filter_complete(p, m);
                let ks = color_set(p, p.side).intersect(kind_set(p, PieceType::OU));
                assert(ks.contains(from.0 as int));
                assert(forall|j: int| #[trigger] ks.contains(j) ==> j == from.0 as int);
                lemma_lowest(ks, from.0 as int);
                lemma_king_not_pinned(p, from.0 as int);
            } else {
                lemma_pin_filter_complete(p, m);
            }
        },
        MoveType::Drop { to: _, piece: _ } => {},
    }
}

/// A checker stops attacking the king on `k` only when the new piece on `x` takes it or stands
/// between it and the king.
pub proof fn lemma_checker_stopped(p: PartialPosition, w: PartialPosition, k: int, ch: int, x: int)
    requires
        king_square(p, p.side) == Some(k),
        0 <= k < 81,
        checkers_spec(p).contains(ch),
        occupied_set(w).subset_of(occupied_set(p).insert(x)),
        ch != x ==> w.board@[ch] == p.board@[ch],
        attackers_spec(w, p.side.opposite(), k, occupied_set(w)) == Set::<int>::empty(),
    ensures
        x == ch || between_set(ch, k).contains(x),
{
    let c = p.side;
    let occ = occupied_set(p);
    let occw = occupied_set(w);
    if !(x == ch || between_set(ch, k).contains(x)) {
        lemma_checkers_via(p, k, ch);
        let xk = choose|xk: PieceType| is_component(xk) && #[trigger] checks_via(p, xk, k, ch);
        crate::tables::lemma_between_symmetric(ch, k);
        lemma_kind_rays(xk, c, occ, occw, k);
        lemma_kind_rays(xk, c, occw, occw, k);
        if is_ray(xk) {
            let ds = ray_dirs(xk, c);
            let (ki, n) = crate::tables::ray_witness(k, ds, occ, ch);
            let dl = ds[ki];
            assert forall|mm: int|
                #![trigger line_square(k, dl, mm)]
                1 <= mm < n implies (line_square(k, dl, mm) matches Some(u) && !occw.contains(u)) by {
                assert(line_square(k, dl, mm) matches Some(u) && !occ.contains(u));
                let u = line_square(k, dl, mm)->0;
                crate::tables::lemma_between_line(k, dl, n, ch, u);
            }
            crate::tables::lemma_ray_reach(k, ds, occw, ki, n, ch);
        }
        crate::position::lemma_attackers_via(w, c.opposite(), k, occw, xk, ch);
    }
}

/// One square cannot stop two checkers: taking one of them or standing between it and the king
/// leaves the other attacking.
pub proof fn lemma_one_stop(p: PartialPosition, k: int, ch1: int, ch2: int, x: int)
    requires
        king_square(p, p.side) == Some(k),
        0 <= k < 81,
        checkers_spec(p).contains(ch1),
        checkers_spec(p).contains(ch2),
        x == ch1 || between_set(ch1, k).contains(x),
        x == ch2 || between_set(ch2, k).contains(x),
    ensures
        ch1 == ch2,
{
    let occ = occupied_set(p);
    assert(occ.contains(ch1) && occ.contains(ch2));
    if x == ch1 && x != ch2 {
        lemma_checker_line_clear(p, k, ch2, ch1);
    } else if x == ch2 && x != ch1 {
        lemma_checker_line_clear(p, k, ch1, ch2);
    } else if x != ch1 && x != ch2 {
        crate::tables::lemma_between_symmetric(ch1, k);
        crate::tables::lemma_between_symmetric(ch2, k);
        assert(crate::tables::aligned(k, ch1));
        assert(crate::tables::aligned(k, ch2));
        let n1 = crate::tables::lemma_aligned_line(k, ch1);
        let n2 = crate::tables::lemma_aligned_line(k, ch2);
        let d1 = crate::tables::direction(k, ch1);
        let d2 = crate::tables::direction(k, ch2);
        crate::tables::lemma_between_line(k, d1, n1, ch1, x);
        crate::tables::lemma_between_line(k, d2, n2, ch2, x);
        let m1 = choose|mm: int| 1 <= mm < n1 && #[trigger] line_square(k, d1, mm) == Some(x);
        let m2 = choose|mm: int| 1 <= mm < n2 && #[trigger] line_square(k, d2, mm) == Some(x);
        crate::tables::lemma_line_unit(k, d1, m1, x);
        crate::tables::lemma_line_unit(k, d2, m2, x);
        assert(d1 == d2);
        if n1 < n2 {
            crate::tables::lemma_between_line(k, d1, n2, ch2, ch1);
            lemma_checker_line_clear(p, k, ch2, ch1);
        } else if n2 < n1 {
            crate::tables::lemma_between_line(k, d1, n1, ch1, ch2);
            lemma_checker_line_clear(p, k, ch1, ch2);
        }
    }
}

/// When one square stops every checker, there is at most one checker.
pub proof fn lemma_at_most_one_checker(p: PartialPosition, k: int, x: int)
    requires
        king_square(p, p.side) == Some(k),
        0 <= k < 81,
        forall|ch: int| #[trigger] checkers_spec(p).contains(ch) ==> x == ch || between_set(ch, k).contains(x),
    ensures
        checkers_spec(p).len() <= 1,
{
    let chk = checkers_spec(p);
    assert(chk.subset_of(board_set()));
    assert(board_set() =~= vstd::set_lib::set_int_range(0, 81));
    vstd::set_lib::lemma_int_range(0, 81);
    vstd::set_lib::lemma_len_subset(chk, board_set());
    if chk.len() >= 2 {
        if !exists|i: int| #[trigger] chk.contains(i) {
            assert(chk =~= Set::<int>::empty());
        }
        let a = choose|i: int| chk.contains(i);
        let rest = chk.remove(a);
        if !exists|i: int| #[trigger] rest.contains(i) {
            assert(rest =~= Set::<int>::empty());
        }
        let b = choose|i: int| rest.contains(i);
        lemma_one_stop(p, k, a, b, x);
    }
}

/// A normal move of the pieces to the squares of `target`, by the rules, is among the normal
/// moves of the side to move there, a king move only when king moves are asked for.
pub proof fn lemma_board_moves_in(p: PartialPosition, target: Set<int>, with_king: bool, v: MoveType)
    requires
        rule_move(p, v),
        v matches MoveType::Normal { from: _, to, is_promotion: _, piece } && target.contains(to.0 as int) && (
        piece.kind() == PieceType::OU ==> with_king),
    ensures
        board_moves(p, target, with_king).contains(v),
{
    match v {
        MoveType::Normal { from, to: _, is_promotion: _, piece } => {
            let f = from.0 as int;
            let k = piece.kind();
            crate::piece::lemma_kind_code(k);
            if k == PieceType::KI || k == PieceType::TO || k == PieceType::NY || k == PieceType::NK || k
                == PieceType::NG {
                assert(own_golds(p).contains(f));
                assert(moves_of(p, own_golds(p), PieceType::KI, target).contains(v));
            } else {
                assert(own_kind(p, k).contains(f));
                assert(moves_of(p, own_kind(p, k), k, target).contains(v));
            }
        },
        MoveType::Drop { to: _, piece: _ } => {},
    }
}

/// What a move by the rules of a piece other than the king leaves: the same king, the squares
/// left and entered, the others as they were.
#[verifier::spinoff_prover]
#[verifier::rlimit(30)]
pub proof fn lemma_piece_after(p: PartialPosition, m: Move)
    requires
        rule_move(p, m@),
        m@ matches MoveType::Normal { from: _, to: _, is_promotion: _, piece } && piece.kind() != PieceType::OU,
        can_apply(p, m),
    ensures
        m@ matches MoveType::Normal { from, to, is_promotion: _, piece: _ } && ({
            let w = with_side(after_move(p, m), p.side);
            let f = from.0 as int;
            let x = to.0 as int;
            &&& king_square(w, p.side) == king_square(p, p.side)
            &&& occupied_set(w) == occupied_set(p).remove(f).insert(x)
            &&& forall|i: int| 0 <= i < 81 && i != f && i != x ==> w.board@[i] == p.board@[i]
            &&& f != x
        }),
{
    let c = p.side;
    let w = with_side(after_move(p, m), c);
    match m@ {
        MoveType::Normal { from, to, is_promotion, piece } => {
            let f = from.0 as int;
            let x = to.0 as int;
            let ks = color_set(p, c).intersect(kind_set(p, PieceType::OU));
            let kw = color_set(w, c).intersect(kind_set(w, PieceType::OU));
            let pk = piece.kind();
            let placed = if is_promotion {
                crate::piece::Piece::make(c, crate::piece::kind_promoted(pk))
            } else {
                piece
            };
            crate::piece::lemma_make(c, crate::piece::kind_promoted(pk));
            crate::piece::lemma_kind_code(pk);
            assert(w.board@ == p.board@.update(f, None).update(x, Some(placed)));
            assert(occupied_set(w) =~= occupied_set(p).remove(f).insert(x));
            assert forall|i: int| #[trigger] kw.contains(i) == ks.contains(i) by {
                if 0 <= i < 81 && i != x && i != f {
                    assert(w.board@[i] == p.board@[i]);
                }
            }
            assert(kw =~= ks);
        },
        MoveType::Drop { to: _, piece: _ } => {},
    }
}

/// In check, a move by the rules of a piece other than the king, after which the king stands
/// unattacked, is legal: it takes the one checker or stands between it and the king.
#[verifier::spinoff_prover]
#[verifier::rlimit(60)]
pub proof fn lemma_in_check_piece_complete(p: PartialPosition, m: Move)
    requires
        checkers_spec(p) != Set::<int>::empty(),
        rule_move(p, m@),
        m@ matches MoveType::Normal { from: _, to: _, is_promotion: _, piece } && piece.kind() != PieceType::OU,
        can_apply(p, m),
        king_unattacked(with_side(after_move(p, m), p.side), p.side),
    ensures
        legal_move_set(p, checkers_spec(p)).contains(m@),
{
    let c = p.side;
    let chk = checkers_spec(p);
    let w = with_side(after_move(p, m), c);
    let v = m@;
    lemma_piece_after(p, m);
    match v {
        MoveType::Normal { from, to, is_promotion: _, piece } => {
            let f = from.0 as int;
            let x = to.0 as int;
            let k = king_square(p, c)->0;
            assert forall|ch: int| #[trigger] chk.contains(ch) implies x == ch || between_set(ch, k).contains(x) by {
                assert(color_set(p, c.opposite()).contains(ch));
                if ch != x {
                    assert(w.board@[ch] == p.board@[ch]);
                }
                lemma_checker_stopped(p, w, k, ch, x);
            }
            lemma_at_most_one_checker(p, k, x);
            if !exists|i: int| #[trigger] chk.contains(i) {
                assert(chk =~= Set::<int>::empty());
            }
            let some = choose|i: int| chk.contains(i);
            lemma_the_checker(p, some);
            let ch = lowest(chk)->0;
            let target = between_set(ch, k).union(chk);
            assert(target.contains(x));
            lemma_board_moves_in(p, target, false, v);
            assert(evasion_moves(p, chk).contains(v));
            lemma_pin_filter_complete(p, m);
            crate::piece::lemma_piece_code(piece);
            crate::piece::lemma_make(c, PieceType::OU);
            assert(legal_spec(p, v));
        },
        MoveType::Drop { to: _, piece: _ } => {},
    }
}

/// In check, a drop by the rules after which the king stands unattacked is legal: it stands
/// between the one checker and the king.
#[verifier::spinoff_prover]
#[verifier::rlimit(60)]
pub proof fn lemma_in_check_drop_complete(p: PartialPosition, m: Move)
    requires
        checkers_spec(p) != Set::<int>::empty(),
        rule_move(p, m@),
        m@ matches MoveType::Drop { to, piece: _ } && 0 <= to.0 < 81,
        can_apply(p, m),
        king_unattacked(with_side(after_move(p, m), p.side), p.side),
    ensures
        legal_move_set(p, checkers_spec(p)).contains(m@),
{
    let c = p.side;
    let chk = checkers_spec(p);
    let w = with_side(after_move(p, m), c);
    let v = m@;
    match v {
        MoveType::Drop { to, piece } => {
            let x = to.0 as int;
            let k = king_square(p, c)->0;
            let ks = color_set(p, c).intersect(kind_set(p, PieceType::OU));
            let kw = color_set(w, c).intersect(kind_set(w, PieceType::OU));
            crate::piece::lemma_kind_code(piece.kind());
            assert(w.board@ == p.board@.update(x, Some(piece)));
            assert(occupied_set(w) =~= occupied_set(p).insert(x));
            assert(kw =~= ks);
            assert forall|ch: int| #[trigger] chk.contains(ch) implies x == ch || between_set(ch, k).contains(x) by {
                if ch != x {
                    assert(w.board@[ch] == p.board@[ch]);
                }
                lemma_checker_stopped(p, w, k, ch, x);
            }
            lemma_at_most_one_checker(p, k, x);
            if !exists|i: int| #[trigger] chk.contains(i) {
                assert(chk =~= Set::<int>::empty());
            }
            let some = choose|i: int| chk.contains(i);
            lemma_the_checker(p, some);
            let ch = lowest(chk)->0;
            let between = between_set(ch, k);
            let empties = board_set().difference(occupied_set(p));
            assert(x != ch);
            assert(between.contains(x));
            assert forall|u: int| #[trigger] between.contains(u) implies empties.contains(u) by {
                lemma_checker_line_clear(p, k, ch, u);
                crate::tables::lemma_between_symmetric(ch, k);
                if crate::tables::aligned(k, ch) {
                    let n = crate::tables::lemma_aligned_line(k, ch);
                    crate::tables::lemma_between_line(k, crate::tables::direction(k, ch), n, ch, u);
                }
            }
            if piece.kind() == PieceType::FU {
                let pe = pawn_drop_targets(p, empties);
                let pb = pawn_drop_targets(p, between);
                assert(pe.contains(x));
                assert(pb.contains(x));
            }
            assert(drop_moves(p, between).contains(v));
            assert(evasion_moves(p, chk).contains(v));
        },
        MoveType::Normal { from: _, to: _, is_promotion: _, piece: _ } => {},
    }
}

/// A slider of a checked sliding kind `xk`'s family on `ch`, of the opponent of `c`, that
/// reaches `x` one or more steps along one of its directions over unoccupied squares, is among
/// the attackers of `x`.
pub proof fn lemma_slider_attacks_back(w: PartialPosition, c: Color, xk: PieceType, ch: int, ki: int, n: int, x: int, occ: Set<int>)
    requires
        is_ray(xk),
        0 <= ch < 81,
        0 <= ki < ray_dirs(xk, c.opposite()).len(),
        n >= 1,
        line_square(ch, ray_dirs(xk, c.opposite())[ki], n) == Some(x),
        forall|m: int|
            #![trigger line_square(ch, ray_dirs(xk, c.opposite())[ki], m)]
            1 <= m < n ==> (line_square(ch, ray_dirs(xk, c.opposite())[ki], m) matches Some(u) && !occ.contains(u)),
        w.board@[ch] matches Some(q) && q.side() == c.opposite() && component_kinds(xk).contains(q.kind()),
    ensures
        attackers_spec(w, c.opposite(), x, occ).contains(ch),
{
    let ds = ray_dirs(xk, c.opposite());
    let dl = ds[ki];
    let back = ray_dirs(xk, c);
    lemma_kind_rays(xk, c.opposite(), occ, occ, ch);
    lemma_kind_rays(xk, c, occ, occ, x);
    let j = if xk == PieceType::KY {
        0
    } else {
        (ki + 2) % 4
    };
    assert(back[j] == crate::tables::neg(dl)) by {
        if xk == PieceType::KY {
            assert(ki == 0);
        } else {
            assert(ki == 0 || ki == 1 || ki == 2 || ki == 3);
        }
    }
    crate::tables::lemma_reverse_line(ch, dl, n, x, occ, back, j);
    let fx = file_of(ch) + n * dl.file;
    let rx = rank_of(ch) + n * dl.rank;
    assert(0 <= fx * 9 + rx < 81) by (nonlinear_arith)
        requires
            0 <= fx < 9,
            0 <= rx < 9,
    ;
    crate::position::lemma_attackers_via(w, c.opposite(), x, occ, xk, ch);
}

/// The king of the side to move of `p` goes from `k` to the neighbouring square `x`, giving the
/// board `w` on which it stands unattacked.
pub open spec fn escape_frame(p: PartialPosition, w: PartialPosition, k: int, x: int) -> bool {
    &&& 0 <= k < 81
    &&& 0 <= x < 81
    &&& k != x
    &&& king_square(p, p.side) == Some(k)
    &&& occupied_set(w).subset_of(occupied_set(p).insert(x))
    &&& !occupied_set(w).contains(k)
    &&& forall|i: int| 0 <= i < 81 && i != k && i != x ==> w.board@[i] == p.board@[i]
    &&& -1 <= file_of(x) - file_of(k) <= 1
    &&& -1 <= rank_of(x) - rank_of(k) <= 1
    &&& attackers_spec(w, p.side.opposite(), x, occupied_set(w)) == Set::<int>::empty()
}

/// A RY checking diagonally does not cover with its rook lines the square the king escapes to.
pub proof fn lemma_escape_ry_lines(p: PartialPosition, w: PartialPosition, k: int, x: int, ch: int)
    requires
        escape_frame(p, w, k, x),
        checkers_spec(p).contains(ch),
        p.board@[ch] matches Some(q) && q.kind() == PieceType::RY,
    ensures
        !piece_attacks(PieceType::HI, ch, p.side.opposite(), occupied_set(p)).contains(x),
{
    let c = p.side;
    let opp = c.opposite();
    let occ = occupied_set(p);
    let occw = occupied_set(w);
    assert(color_set(p, opp).contains(ch));
    if piece_attacks(PieceType::HI, ch, opp, occ).contains(x) {
        crate::tables::lemma_no_self_attack(PieceType::HI, ch, opp, occ);
        assert(ch != x && ch != k);
        assert(w.board@[ch] == p.board@[ch]);
        lemma_kind_rays(PieceType::HI, opp, occ, occ, ch);
        let ds = ray_dirs(PieceType::HI, opp);
        let (ki, n) = crate::tables::ray_witness(ch, ds, occ, x);
        let dl = ds[ki];
        assert(unit(dl));
        assert forall|m: int|
            #![trigger line_square(ch, dl, m)]
            1 <= m < n implies (line_square(ch, dl, m) matches Some(u) && !occw.contains(u)) by {
            assert(line_square(ch, dl, m) matches Some(u) && !occ.contains(u));
            if line_square(ch, dl, m) == Some(x) {
                crate::tables::lemma_line_injective(ch, dl, m, n);
            }
        }
        lemma_slider_attacks_back(w, c, PieceType::HI, ch, ki, n, x, occw);
    }
}

/// A short-range checker does not cover the square the king escapes to.
pub proof fn lemma_escape_step(p: PartialPosition, w: PartialPosition, k: int, x: int, ch: int)
    requires
        escape_frame(p, w, k, x),
        checkers_spec(p).contains(ch),
        p.board@[ch] matches Some(q) && (q.kind() == PieceType::FU || q.kind() == PieceType::KE || q.kind()
            == PieceType::GI || q.kind() == PieceType::KI || q.kind() == PieceType::TO || q.kind() == PieceType::NY
            || q.kind() == PieceType::NK || q.kind() == PieceType::NG),
    ensures
        !piece_attacks(p.board@[ch]->0.kind(), ch, p.side.opposite(), Set::empty()).contains(x),
{
    let c = p.side;
    let opp = c.opposite();
    let occw = occupied_set(w);
    let y = p.board@[ch]->0.kind();
    assert(color_set(p, opp).contains(ch));
    if piece_attacks(y, ch, opp, Set::empty()).contains(x) {
        crate::tables::lemma_no_self_attack(y, ch, opp, Set::empty());
        assert(ch != x && ch != k);
        assert(w.board@[ch] == p.board@[ch]);
        crate::tables::lemma_step_reverse(y, c, ch, x);
        let f = crate::tables::step_finder(y);
        assert(piece_attacks(f, x, c, occw).contains(ch));
        crate::position::lemma_attackers_via(w, opp, x, occw, f, ch);
    }
}

/// The king steps of a UM or RY checker do not cover the square the king escapes to.
#[verifier::spinoff_prover]
#[verifier::rlimit(40)]
pub proof fn lemma_escape_promoted_steps(p: PartialPosition, w: PartialPosition, k: int, x: int, ch: int)
    requires
        escape_frame(p, w, k, x),
        checkers_spec(p).contains(ch),
        p.board@[ch] matches Some(q) && (q.kind() == PieceType::UM || q.kind() == PieceType::RY),
    ensures
        !step_attacks(ch, step_deltas(PieceType::OU, p.side.opposite())).contains(x),
{
    let c = p.side;
    let opp = c.opposite();
    let occw = occupied_set(w);
    let y = p.board@[ch]->0.kind();
    let ds = step_deltas(PieceType::OU, opp);
    assert(color_set(p, opp).contains(ch));
    if step_attacks(ch, ds).contains(x) {
        let i = choose|i: int| 0 <= i < ds.len() && #[trigger] shifted(ch, ds[i].file as int, ds[i].rank as int) == Some(x);
        let e = ds[i];
        crate::tables::lemma_no_self_attack(PieceType::OU, ch, opp, Set::empty());
        assert(ch != x && ch != k);
        assert(w.board@[ch] == p.board@[ch]);
        crate::tables::lemma_coords(file_of(ch) + e.file, rank_of(ch) + e.rank);
        crate::tables::lemma_square_coords(ch);
        assert(line_square(ch, e, 1) == Some(x));
        if i < 4 {
            if y == PieceType::UM {
                let ks = step_deltas(PieceType::KI, c);
                let j = (i + 2) % 4;
                assert(ks[j].file == -e.file && ks[j].rank == -e.rank) by {
                    assert(i == 0 || i == 1 || i == 2 || i == 3);
                    match c {
                        Color::Black => {},
                        Color::White => {},
                    }
                }
                assert(shifted(x, ks[j].file as int, ks[j].rank as int) == Some(ch));
                assert(piece_attacks(PieceType::KI, x, c, occw).contains(ch));
                crate::position::lemma_attackers_via(w, opp, x, occw, PieceType::KI, ch);
            } else {
                assert(ray_dirs(PieceType::HI, opp)[i] == e);
                lemma_slider_attacks_back(w, c, PieceType::HI, ch, i, 1, x, occw);
            }
        } else {
            if y == PieceType::UM {
                assert(ray_dirs(PieceType::KA, opp)[i - 4] == e);
                lemma_slider_attacks_back(w, c, PieceType::KA, ch, i - 4, 1, x, occw);
            } else {
                let gs = step_deltas(PieceType::GI, c);
                let j = 1 + (i - 4 + 2) % 4;
                assert(gs[j].file == -e.file && gs[j].rank == -e.rank) by {
                    assert(i == 4 || i == 5 || i == 6 || i == 7);
                    match c {
                        Color::Black => {},
                        Color::White => {},
                    }
                }
                assert(shifted(x, gs[j].file as int, gs[j].rank as int) == Some(ch));
                assert(piece_attacks(PieceType::GI, x, c, occw).contains(ch));
                crate::position::lemma_attackers_via(w, opp, x, occw, PieceType::GI, ch);
            }
        }
    }
}

/// The sliding family of a slider kind: the kind whose rays it moves along.
pub open spec fn ray_family(y: PieceType) -> PieceType {
    match y {
        PieceType::KY => PieceType::KY,
        PieceType::KA | PieceType::UM => PieceType::KA,
        _ => PieceType::HI,
    }
}

/// The line from a checker found along the rays of `xk` from the king on `k` back to the king.
#[verifier::spinoff_prover]
#[verifier::rlimit(40)]
pub proof fn check_line_ray(p: PartialPosition, k: int, ch: int, xk: PieceType) -> (r: (Delta, int))
    requires
        0 <= k < 81,
        is_component(xk),
        is_ray(xk),
        checks_via(p, xk, k, ch),
    ensures
        unit(r.0),
        r.1 >= 1,
        line_square(ch, r.0, r.1) == Some(k),
        forall|m: int|
            #![trigger line_square(ch, r.0, m)]
            1 <= m < r.1 ==> (line_square(ch, r.0, m) matches Some(u) && !occupied_set(p).contains(u)),
        xk == PieceType::KY ==> r.0 == lance_delta(p.side.opposite()),
        xk == PieceType::KA ==> !crate::tables::orthogonal(r.0),
        xk == PieceType::HI ==> crate::tables::orthogonal(r.0),
{
    let c = p.side;
    let occ = occupied_set(p);
    lemma_kind_rays(xk, c, occ, occ, k);
    let ds = ray_dirs(xk, c);
    let (ki, n) = crate::tables::ray_witness(k, ds, occ, ch);
    let d1p = ds[ki];
    let d1 = crate::tables::neg(d1p);
    assert(d1p.small());
    assert(line_square(k, d1p, 0) == Some(k)) by {
        crate::tables::lemma_coords(file_of(k), rank_of(k));
    }
    crate::tables::lemma_line_back(k, d1p, n, ch, 0);
    assert forall|m: int|
        #![trigger line_square(ch, d1, m)]
        1 <= m < n implies (line_square(ch, d1, m) matches Some(u) && !occ.contains(u)) by {
        assert(line_square(k, d1p, n - m) matches Some(u) && !occ.contains(u));
        crate::tables::lemma_line_back(k, d1p, n, ch, n - m);
    }
    assert(ki == 0 || ki == 1 || ki == 2 || ki == 3);
    (d1, n)
}

/// The step from a checker found along the steps of `xk` (a GI or KI step) from the king on `k`
/// back to the king.
#[verifier::spinoff_prover]
#[verifier::rlimit(40)]
pub proof fn check_line_step(p: PartialPosition, k: int, ch: int, xk: PieceType) -> (r: (Delta, int))
    requires
        0 <= k < 81,
        xk == PieceType::GI || xk == PieceType::KI,
        checks_via(p, xk, k, ch),
    ensures
        unit(r.0),
        r.1 == 1,
        line_square(ch, r.0, r.1) == Some(k),
        xk == PieceType::GI && !crate::tables::orthogonal(r.0) ==> file_of(ch) != file_of(k) && rank_of(ch) != rank_of(k),
{
    let c = p.side;
    let ds = step_deltas(xk, c);
    let i = choose|i: int| 0 <= i < ds.len() && #[trigger] shifted(k, ds[i].file as int, ds[i].rank as int) == Some(ch);
    let e = ds[i];
    let d1 = crate::tables::neg(e);
    crate::tables::lemma_coords(file_of(k) + e.file, rank_of(k) + e.rank);
    crate::tables::lemma_square_coords(k);
    assert(-1 <= e.file <= 1 && -1 <= e.rank <= 1 && (e.file != 0 || e.rank != 0)) by {
        match c {
            Color::Black => {},
            Color::White => {},
        }
    }
    assert(0 <= ch < 81);
    crate::tables::lemma_square_coords(ch);
    crate::tables::lemma_coords(file_of(ch) - e.file, rank_of(ch) - e.rank);
    assert(line_square(ch, d1, 1) == Some(k));
    (d1, 1)
}

/// How a sliding checker on `ch` reaches the king on `k`: some unit steps along one line over
/// unoccupied squares; the line is the lance's for a lance, diagonal or a single orthogonal step
/// for a bishop or UM, orthogonal for a rook or a RY that does not check diagonally.
pub proof fn check_line(p: PartialPosition, k: int, ch: int) -> (r: (Delta, int))
    requires
        king_square(p, p.side) == Some(k),
        0 <= k < 81,
        checkers_spec(p).contains(ch),
        p.board@[ch] matches Some(q) && (q.kind() == PieceType::KY || q.kind() == PieceType::KA || q.kind()
            == PieceType::HI || q.kind() == PieceType::UM || q.kind() == PieceType::RY) && !(q.kind() == PieceType::RY
            && file_of(ch) != file_of(k) && rank_of(ch) != rank_of(k)),
    ensures
        unit(r.0),
        r.1 >= 1,
        line_square(ch, r.0, r.1) == Some(k),
        forall|m: int|
            #![trigger line_square(ch, r.0, m)]
            1 <= m < r.1 ==> (line_square(ch, r.0, m) matches Some(u) && !occupied_set(p).contains(u)),
        ray_family(p.board@[ch]->0.kind()) == PieceType::KY ==> r.0 == lance_delta(p.side.opposite()),
        ray_family(p.board@[ch]->0.kind()) == PieceType::KA ==> (!crate::tables::orthogonal(r.0) || r.1 == 1),
        ray_family(p.board@[ch]->0.kind()) == PieceType::HI ==> crate::tables::orthogonal(r.0),
{
    lemma_checkers_via(p, k, ch);
    let xk = choose|xk: PieceType| is_component(xk) && #[trigger] checks_via(p, xk, k, ch);
    if is_ray(xk) {
        check_line_ray(p, k, ch, xk)
    } else {
        check_line_step(p, k, ch, xk)
    }
}

/// A sliding checker, other than a RY checking diagonally, does not cover with its lines over an
/// empty board the square the king escapes to.
#[verifier::spinoff_prover]
#[verifier::rlimit(60)]
pub proof fn lemma_escape_rays(p: PartialPosition, w: PartialPosition, k: int, x: int, ch: int)
    requires
        escape_frame(p, w, k, x),
        checkers_spec(p).contains(ch),
        p.board@[ch] matches Some(q) && (q.kind() == PieceType::KY || q.kind() == PieceType::KA || q.kind()
            == PieceType::HI || q.kind() == PieceType::UM || q.kind() == PieceType::RY) && !(q.kind() == PieceType::RY
            && file_of(ch) != file_of(k) && rank_of(ch) != rank_of(k)),
    ensures
        !crate::tables::ray_attacks(
            ch,
            ray_dirs(ray_family(p.board@[ch]->0.kind()), p.side.opposite()),
            Set::empty(),
        ).contains(x),
{
    let c = p.side;
    let opp = c.opposite();
    let occ = occupied_set(p);
    let occw = occupied_set(w);
    let y = p.board@[ch]->0.kind();
    let fam = ray_family(y);
    let ds2 = ray_dirs(fam, opp);
    assert(color_set(p, opp).contains(ch));
    if crate::tables::ray_attacks(ch, ds2, Set::empty()).contains(x) {
        assert(is_component(fam) && is_ray(fam));
        lemma_kind_rays(fam, opp, Set::empty(), Set::empty(), ch);
        crate::tables::lemma_no_self_attack(fam, ch, opp, Set::empty());
        assert(ch != x && ch != k);
        assert(w.board@[ch] == p.board@[ch]);
        let (ki2, n2) = crate::tables::ray_witness(ch, ds2, Set::empty(), x);
        let d2 = ds2[ki2];
        assert(ki2 == 0 || ki2 == 1 || ki2 == 2 || ki2 == 3);
        let (d1, n1) = check_line(p, k, ch);
        if d2 == d1 {
            crate::tables::lemma_line_neighbours(ch, d1, n1, n2, k, x);
            assert forall|m: int|
                #![trigger line_square(ch, d2, m)]
                1 <= m < n2 implies (line_square(ch, d2, m) matches Some(u) && !occw.contains(u)) by {
                if m < n1 {
                    assert(line_square(ch, d1, m) matches Some(u) && !occ.contains(u));
                    if line_square(ch, d2, m) == Some(x) {
                        crate::tables::lemma_line_injective(ch, d2, m, n2);
                    }
                }
            }
            lemma_slider_attacks_back(w, c, fam, ch, ki2, n2, x, occw);
        } else {
            crate::tables::lemma_neighbour_other_line(ch, d1, n1, k, d2, n2, x);
            lemma_slider_attacks_back(w, c, fam, ch, ki2, 1, x, occw);
        }
    }
}

/// The square the king escapes to lies off the reach of every checker, when the king stands
/// unattacked there.
pub proof fn lemma_escape_off_reach(p: PartialPosition, w: PartialPosition, k: int, x: int, ch: int)
    requires
        escape_frame(p, w, k, x),
        checkers_spec(p).contains(ch),
    ensures
        !checker_reach(p, ch, k).contains(x),
{
    let c = p.side;
    let opp = c.opposite();
    lemma_checkers_via(p, k, ch);
    let xk = choose|xk: PieceType| is_component(xk) && #[trigger] checks_via(p, xk, k, ch);
    let y = p.board@[ch]->0.kind();
    crate::piece::lemma_kind_code(y);
    if y == PieceType::RY && file_of(ch) != file_of(k) && rank_of(ch) != rank_of(k) {
        lemma_escape_ry_lines(p, w, k, x, ch);
    } else if y == PieceType::KY || y == PieceType::KA || y == PieceType::HI || y == PieceType::UM || y
        == PieceType::RY {
        lemma_escape_rays(p, w, k, x, ch);
        lemma_kind_rays(ray_family(y), opp, Set::empty(), Set::empty(), ch);
        if y == PieceType::UM || y == PieceType::RY {
            lemma_escape_promoted_steps(p, w, k, x, ch);
        }
    } else {
        lemma_escape_step(p, w, k, x, ch);
    }
}

/// In check, a king move by the rules after which the king stands unattacked is legal: it goes
/// off the reach of every checker.
#[verifier::spinoff_prover]
#[verifier::rlimit(60)]
pub proof fn lemma_in_check_king_complete(p: PartialPosition, m: Move)
    requires
        checkers_spec(p) != Set::<int>::empty(),
        rule_move(p, m@),
        m@ matches MoveType::Normal { from: _, to: _, is_promotion: _, piece } && piece.kind() == PieceType::OU,
        can_apply(p, m),
        single_king(p, p.side),
        king_unattacked(with_side(after_move(p, m), p.side), p.side),
    ensures
        legal_move_set(p, checkers_spec(p)).contains(m@),
{
    let c = p.side;
    let chk = checkers_spec(p);
    let w = with_side(after_move(p, m), c);
    let v = m@;
    lemma_king_filter_complete(p, m);
    match v {
        MoveType::Normal { from, to, is_promotion, piece } => {
            let k = from.0 as int;
            let x = to.0 as int;
            let ks = color_set(p, c).intersect(kind_set(p, PieceType::OU));
            let kw = color_set(w, c).intersect(kind_set(w, PieceType::OU));
            crate::piece::lemma_kind_code(piece.kind());
            crate::piece::lemma_piece_code(piece);
            crate::piece::lemma_make(c, PieceType::OU);
            assert(!is_promotion);
            assert(w.board@ == p.board@.update(k, None).update(x, Some(piece)));
            assert(ks.contains(k));
            assert(forall|j: int| #[trigger] ks.contains(j) ==> j == k);
            lemma_lowest(ks, k);
            assert forall|i: int| #[trigger] kw.contains(i) == (i == x) by {
                if 0 <= i < 81 && i != x && i != k && kw.contains(i) {
                    assert(w.board@[i] == p.board@[i]);
                    assert(ks.contains(i));
                }
            }
            assert(kw =~= Set::<int>::empty().insert(x));
            lemma_lowest(kw, x);
            let occ = occupied_set(p);
            let occw = occupied_set(w);
            assert(occw =~= occ.remove(k).insert(x));
            let ods = step_deltas(PieceType::OU, c);
            let i = choose|i: int| 0 <= i < ods.len() && #[trigger] shifted(k, ods[i].file as int, ods[i].rank as int) == Some(x);
            crate::tables::lemma_coords(file_of(k) + ods[i].file, rank_of(k) + ods[i].rank);
            assert(forall|i: int| 0 <= i < 81 && i != k && i != x ==> w.board@[i] == p.board@[i]);
            assert(escape_frame(p, w, k, x));
            assert forall|ch: int| chk.contains(ch) implies !#[trigger] checker_reach(p, ch, k).contains(x) by {
                lemma_escape_off_reach(p, w, k, x, ch);
            }
            assert(!checkers_reach(p, chk, k).contains(x));
            lemma_king_not_pinned(p, k);
            assert(evasion_moves(p, chk).contains(v));
            assert(legal_spec(p, v));
        },
        MoveType::Drop { to: _, piece: _ } => {},
    }
}

/// The generator misses no move: every move by the rules after which the king of the side that
/// moved stands unattacked by any opposing piece is among the legal moves, in check or not, when
/// that side has one king.
pub proof fn law_legal_moves_complete(p: PartialPosition, m: Move)
    requires
        rule_move(p, m@),
        can_apply(p, m),
        m.inv(),
        single_king(p, p.side),
        king_unattacked(with_side(after_move(p, m), p.side), p.side),
    ensures
        legal_move_set(p, checkers_spec(p)).contains(m@),
{
    m.lemma_wf();
    if checkers_spec(p) == Set::<int>::empty() {
        lemma_out_of_check_complete(p, m);
    } else {
        match m@ {
            MoveType::Normal { from: _, to: _, is_promotion: _, piece } => {
                if piece.kind() == PieceType::OU {
                    lemma_in_check_king_complete(p, m);
                } else {
                    lemma_in_check_piece_complete(p, m);
                }
            },
            MoveType::Drop { to: _, piece: _ } => {
                lemma_in_check_drop_complete(p, m);
            },
        }
    }
}

/// Every legal move is a move by the rules.
#[verifier::spinoff_prover]
#[verifier::rlimit(40)]
pub proof fn law_legal_moves_by_rule(p: PartialPosition, m: Move)
    requires
        legal_move_set(p, checkers_spec(p)).contains(m@),
        m.inv(),
    ensures
        rule_move(p, m@),
{
    m.lemma_wf();
    let v = m@;
    let chk = checkers_spec(p);
    match v {
        MoveType::Normal { from: _, to: _, is_promotion: _, piece: _ } => {
            lemma_legal_normal(p, m);
            lemma_legal_target(p, m);
        },
        MoveType::Drop { to, piece } => {
            let x = to.0 as int;
            let empties = board_set().difference(occupied_set(p));
            if chk != Set::<int>::empty() {
                let c = p.side;
                let k = king_square(p, c)->0;
                let ks = color_set(p, c).intersect(kind_set(p, PieceType::OU));
                assert(ks.contains(k)) by {
                    assert(exists|i: int| #[trigger] ks.contains(i));
                    let kx = choose|i: int| ks.contains(i) && forall|j: int| #[trigger] ks.contains(j) ==> i <= j;
                    assert(ks.contains(kx));
                }
                assert(evasion_moves(p, chk).contains(v));
                let ch = lowest(chk)->0;
                let between = between_set(ch, k);
                assert(chk.len() <= 1 && between != Set::<int>::empty());
                assert(drop_moves(p, between).contains(v));
                assert(chk.contains(ch)) by {
                    if !exists|i: int| #[trigger] chk.contains(i) {
                        assert(chk =~= Set::<int>::empty());
                    }
                    let i = choose|i: int| chk.contains(i);
                    assert(chk.subset_of(board_set()));
                    lemma_the_checker(p, i);
                }
                assert forall|u: int| #[trigger] between.contains(u) implies empties.contains(u) by {
                    lemma_checker_line_clear(p, k, ch, u);
                    crate::tables::lemma_between_symmetric(ch, k);
                    if crate::tables::aligned(k, ch) {
                        let n = crate::tables::lemma_aligned_line(k, ch);
                        crate::tables::lemma_between_line(k, crate::tables::direction(k, ch), n, ch, u);
                    }
                }
                if piece.kind() == PieceType::FU {
                    let pe = pawn_drop_targets(p, empties);
                    let pb = pawn_drop_targets(p, between);
                    assert(pb.contains(x));
                    assert(pe.contains(x));
                }
                assert(drop_moves(p, empties).contains(v));
            } else {
                assert(all_moves(p).contains(v));
            }
        },
    }
}

/// Squares `a` and `b` are next to each other.
pub open spec fn adjacent(a: int, b: int) -> bool {
    a != b && -1 <= file_of(a) - file_of(b) <= 1 && -1 <= rank_of(a) - rank_of(b) <= 1
}

/// The two kings do not stand next to each other.
pub open spec fn kings_apart(p: PartialPosition) -> bool {
    match (king_square(p, Color::Black), king_square(p, Color::White)) {
        (Some(a), Some(b)) => !adjacent(a, b),
        _ => true,
    }
}

/// Every square next to `x` is one silver or gold step away from it, for either color.
pub proof fn lemma_neighbour_steps(x: int, e: int, c: Color)
    requires
        0 <= x < 81,
        0 <= e < 81,
        adjacent(x, e),
    ensures
        step_attacks(x, step_deltas(PieceType::GI, c)).contains(e) || step_attacks(x, step_deltas(PieceType::KI, c)).contains(e),
{
    crate::tables::lemma_square_coords(x);
    crate::tables::lemma_square_coords(e);
    let df = file_of(e) - file_of(x);
    let dr = rank_of(e) - rank_of(x);
    let gs = step_deltas(PieceType::GI, c);
    let ks = step_deltas(PieceType::KI, c);
    crate::tables::lemma_coords(file_of(x) + df, rank_of(x) + dr);
    assert(e == (file_of(x) + df) * 9 + rank_of(x) + dr);
    assert(shifted(x, df, dr) == Some(e));
    if df != 0 && dr != 0 {
        let j = if df == -1 && dr == -1 {
            1
        } else if df == -1 && dr == 1 {
            2
        } else if df == 1 && dr == 1 {
            3
        } else {
            4
        };
        assert(gs[j].file == df && gs[j].rank == dr) by {
            match c {
                Color::Black => {},
                Color::White => {},
            }
        }
    } else {
        let j = if df == 0 && dr == -1 {
            0
        } else if df == -1 {
            1
        } else if dr == 1 {
            2
        } else {
            3
        };
        assert(ks[j].file == df && ks[j].rank == dr) by {
            match c {
                Color::Black => {},
                Color::White => {},
            }
        }
    }
}

/// An attacker of the king of `w.side` is a checker or a king next to it.
pub proof fn lemma_attacker_is_checker_or_king(w: PartialPosition, k: int, s: int)
    requires
        king_square(w, w.side) == Some(k),
        0 <= k < 81,
        attackers_spec(w, w.side.opposite(), k, occupied_set(w)).contains(s),
    ensures
        checkers_spec(w).contains(s) || (w.board@[s] matches Some(q) && q.kind() == PieceType::OU && q.side()
            == w.side.opposite() && adjacent(k, s)),
{
    let c = w.side;
    let q = w.board@[s]->0;
    if q.kind() == PieceType::OU {
        let occ = occupied_set(w);
        crate::tables::lemma_no_self_attack(PieceType::GI, k, c, occ);
        crate::tables::lemma_no_self_attack(PieceType::KI, k, c, occ);
        let ds = if step_attacks(k, step_deltas(PieceType::GI, c)).contains(s) {
            step_deltas(PieceType::GI, c)
        } else {
            step_deltas(PieceType::KI, c)
        };
        assert(step_attacks(k, ds).contains(s));
        let i = choose|i: int| 0 <= i < ds.len() && #[trigger] shifted(k, ds[i].file as int, ds[i].rank as int) == Some(s);
        assert(-1 <= ds[i].file <= 1 && -1 <= ds[i].rank <= 1) by {
            match c {
                Color::Black => {},
                Color::White => {},
            }
        }
        crate::tables::lemma_coords(file_of(k) + ds[i].file, rank_of(k) + ds[i].rank);
    }
}

/// A legal move, from a position with one king per side where the kings do not stand next to
/// each other, leaves the king of the side that moved attacked by no opposing piece, the king
/// included, and the kings still apart.
pub proof fn law_legal_move_king_safe(p: PartialPosition, m: Move)
    requires
        legal_move_set(p, checkers_spec(p)).contains(m@),
        can_apply(p, m),
        m.inv(),
        single_king(p, Color::Black),
        single_king(p, Color::White),
        kings_apart(p),
    ensures
        king_unattacked(with_side(after_move(p, m), p.side), p.side),
        kings_apart(after_move(p, m)),
{
    m.lemma_wf();
    let c = p.side;
    let opp = c.opposite();
    let q = after_move(p, m);
    let w = with_side(q, c);
    assert(single_king(p, c) && single_king(p, opp));
    law_legal_move_safe(p, m);
    assert(with_side(q, q.side.opposite()) == w);
    assert(checkers_spec(w) == Set::<int>::empty());
    let ko = color_set(p, opp).intersect(kind_set(p, PieceType::OU));
    let kq = color_set(q, opp).intersect(kind_set(q, PieceType::OU));
    let kwo = color_set(w, opp).intersect(kind_set(w, PieceType::OU));
    let kc = color_set(p, c).intersect(kind_set(p, PieceType::OU));
    let kqc = color_set(q, c).intersect(kind_set(q, PieceType::OU));
    let kwc = color_set(w, c).intersect(kind_set(w, PieceType::OU));
    assert(kwo =~= kq);
    assert(kwc =~= kqc);
    lemma_single_king_kept(p, m, c);
    lemma_single_king_kept(p, m, opp);
    match m@ {
        MoveType::Drop { to, piece } => {
            lemma_legal_drop(p, m);
            law_legal_moves_of_side(p, checkers_spec(p), m@);
            crate::piece::lemma_kind_code(piece.kind());
            assert(q.board@ == p.board@.update(to.0 as int, Some(piece)));
            assert(kq =~= ko);
            assert(kqc =~= kc);
        },
        MoveType::Normal { from, to, is_promotion, piece } => {
            lemma_legal_normal(p, m);
            lemma_legal_target(p, m);
            let f = from.0 as int;
            let x = to.0 as int;
            let pk = piece.kind();
            let placed = if is_promotion {
                crate::piece::Piece::make(c, crate::piece::kind_promoted(pk))
            } else {
                piece
            };
            crate::piece::lemma_make(c, crate::piece::kind_promoted(pk));
            crate::piece::lemma_kind_code(pk);
            assert(q.board@ == p.board@.update(f, None).update(x, Some(placed)));
            assert forall|i: int| #[trigger] kq.contains(i) == ko.contains(i) by {
                if 0 <= i < 81 && i != x && i != f {
                    assert(q.board@[i] == p.board@[i]);
                }
            }
            assert(kq =~= ko);
            if pk == PieceType::OU {
                assert(kc.contains(f));
                assert(forall|j: int| #[trigger] kc.contains(j) ==> j == f);
                lemma_lowest(kc, f);
                assert forall|i: int| #[trigger] kqc.contains(i) == (i == x) by {
                    if 0 <= i < 81 && i != x && i != f && kqc.contains(i) {
                        assert(q.board@[i] == p.board@[i]);
                        assert(kc.contains(i));
                    }
                }
                assert(kqc =~= Set::<int>::empty().insert(x));
                lemma_lowest(kqc, x);
                match king_square(p, opp) {
                    Some(e) => {
                        if adjacent(x, e) {
                            assert(ko.contains(e)) by {
                                assert(exists|i: int| #[trigger] ko.contains(i));
                                let kx = choose|i: int| ko.contains(i) && forall|j: int| #[trigger] ko.contains(j) ==> i <= j;
                                assert(ko.contains(kx));
                            }
                            lemma_neighbour_steps(x, e, c);
                            assert(attackers_spec(p, opp, x, occupied_set(p)).contains(e));
                        }
                    },
                    None => {},
                }
            } else {
                assert forall|i: int| #[trigger] kqc.contains(i) == kc.contains(i) by {
                    if 0 <= i < 81 && i != x && i != f {
                        assert(q.board@[i] == p.board@[i]);
                    }
                }
                assert(kqc =~= kc);
            }
        },
    }
    match king_square(w, c) {
        Some(k) => {
            assert forall|s: int| !#[trigger] attackers_spec(w, opp, k, occupied_set(w)).contains(s) by {
                if attackers_spec(w, opp, k, occupied_set(w)).contains(s) {
                    lemma_attacker_is_checker_or_king(w, k, s);
                    let kws = color_set(w, opp).intersect(kind_set(w, PieceType::OU));
                    assert(kws.contains(s));
                    assert(single_king(q, opp));
                    assert(forall|j: int| #[trigger] kws.contains(j) ==> j == s);
                    lemma_lowest(kws, s);
                }
            }
            assert(attackers_spec(w, opp, k, occupied_set(w)) =~= Set::<int>::empty());
        },
        None => {},
    }
}

/// The legal moves are exactly the moves by the rules after which the king of the side that
/// moved stands unattacked by any opposing piece, in check or not, on a position with one king
/// per side where the kings do not stand next to each other.
pub proof fn law_legal_moves_exact(p: PartialPosition, m: Move)
    requires
        can_apply(p, m),
        m.inv(),
        single_king(p, Color::Black),
        single_king(p, Color::White),
        kings_apart(p),
    ensures
        legal_move_set(p, checkers_spec(p)).contains(m@) <==> (rule_move(p, m@) && king_unattacked(
            with_side(after_move(p, m), p.side),
            p.side,
        )),
{
    assert(single_king(p, p.side));
    if legal_move_set(p, checkers_spec(p)).contains(m@) {
        law_legal_moves_by_rule(p, m);
        law_legal_move_king_safe(p, m);
    }
    if rule_move(p, m@) && king_unattacked(with_side(after_move(p, m), p.side), p.side) {
        law_legal_moves_complete(p, m);
    }
}


/// No piece of the side to move attacks a king of the other side.
pub open spec fn no_king_en_prise(p: PartialPosition) -> bool {
    forall|f: int, x: int|
        #![trigger p.board@[f], p.board@[x]]
        0 <= f < 81 && 0 <= x < 81 && (p.board@[f] matches Some(a) && a.side() == p.side) && (p.board@[x] matches Some(
            b,
        ) && b.kind() == PieceType::OU && b.side() == p.side.opposite()) ==> !piece_attacks(
            p.board@[f]->0.kind(),
            f,
            p.side,
            occupied_set(p),
        ).contains(x)
}

/// A legal move can be done: it meets what `do_move` asks, when no piece of the side to move
/// attacks an opposing king, the ply count has room for one more, and no count in the mover's
/// hand is full.
pub proof fn law_legal_move_applicable(p: PartialPosition, m: Move)
    requires
        legal_move_set(p, checkers_spec(p)).contains(m@),
        m.inv(),
        p.ply < 65535,
        no_king_en_prise(p),
        forall|slot: int| 0 <= slot < 7 ==> #[trigger] p.count(p.side, slot) < 18,
    ensures
        can_apply(p, m),
{
    law_legal_moves_by_rule(p, m);
    m.lemma_wf();
    match m@ {
        MoveType::Normal { from, to, is_promotion, piece } => {
            let f = from.0 as int;
            let x = to.0 as int;
            crate::tables::lemma_no_self_attack(piece.kind(), f, p.side, occupied_set(p));
            assert(from != to);
            crate::piece::lemma_kind_code(piece.kind());
            match p.board@[x] {
                Some(q) => {
                    assert(q.side() != p.side) by {
                        if q.side() == p.side {
                            assert(color_set(p, p.side).contains(x));
                        }
                    }
                    crate::piece::lemma_kind_code(q.kind());
                    if q.kind() == PieceType::OU {
                        assert(q.side() == p.side.opposite()) by {
                            match p.side {
                                Color::Black => {},
                                Color::White => {},
                            }
                            match q.side() {
                                Color::Black => {},
                                Color::White => {},
                            }
                        }
                        assert(p.board@[f] == Some(piece));
                        assert(!piece_attacks(p.board@[f]->0.kind(), f, p.side, occupied_set(p)).contains(x));
                    }
                    assert(0 <= hand_slot(q.kind()) < 7);
                },
                None => {},
            }
        },
        MoveType::Drop { to, piece } => {
            let x = to.0 as int;
            let target = board_set().difference(occupied_set(p));
            if piece.kind() == PieceType::FU {
                assert(pawn_drop_targets(p, target).contains(x));
                assert(target.contains(x));
            }
            assert(!occupied_set(p).contains(x));
        },
    }
}


/// The kinds that can promote: pawn, lance, knight, silver, bishop and rook.
pub open spec fn promotable_kind(k: PieceType) -> bool {
    k == PieceType::FU || k == PieceType::KY || k == PieceType::KE || k == PieceType::GI || k == PieceType::KA
        || k == PieceType::HI
}

/// The promotion choices that the rules give a normal move of a piece of kind `k` and color `c`
/// from `from` to `to`: promoting only a kind that can, on a move that starts or ends in the
/// last three ranks; staying unpromoted only where the piece can still move afterwards (a pawn
/// or lance off the last rank, a knight off the last two).
pub open spec fn promotion_by_rules(k: PieceType, c: Color, from: int, to: int, promote: bool) -> bool {
    if promote {
        promotable_kind(k) && (relative_rank_of(from, c) <= 3 || relative_rank_of(to, c) <= 3)
    } else {
        &&& (k == PieceType::FU || k == PieceType::KY) ==> relative_rank_of(to, c) > 1
        &&& k == PieceType::KE ==> relative_rank_of(to, c) > 2
    }
}

/// Every legal normal move makes a promotion choice that the rules allow.
pub proof fn law_promotion_rules(p: PartialPosition, m: Move)
    requires
        legal_move_set(p, checkers_spec(p)).contains(m@),
        m.inv(),
    ensures
        m@ matches MoveType::Normal { from, to, is_promotion, piece } ==> promotion_by_rules(
            piece.kind(),
            p.side,
            from.0 as int,
            to.0 as int,
            is_promotion,
        ),
{
    law_legal_moves_by_rule(p, m);
    match m@ {
        MoveType::Normal { from: _, to: _, is_promotion: _, piece } => {
            crate::piece::lemma_kind_code(piece.kind());
        },
        MoveType::Drop { to: _, piece: _ } => {},
    }
}

/// A piece may stay unpromoted wherever it can still move afterwards, and a promotable piece may
/// promote on a move that ends in the last three ranks (or starts there, for a silver, bishop
/// or rook): every such move of a piece of the side to move to a square it attacks and its side
/// does not hold, after which the mover's king stands unattacked, is legal.
pub proof fn law_promotion_choices(p: PartialPosition, m: Move)
    requires
        m.inv(),
        can_apply(p, m),
        single_king(p, p.side),
        king_unattacked(with_side(after_move(p, m), p.side), p.side),
        m@ matches MoveType::Normal { from, to, is_promotion, piece } && {
            let f = from.0 as int;
            let t = to.0 as int;
            let k = piece.kind();
            &&& p.board@[f] == Some(piece)
            &&& piece.side() == p.side
            &&& piece_attacks(k, f, p.side, occupied_set(p)).contains(t)
            &&& !color_set(p, p.side).contains(t)
            &&& promotion_by_rules(k, p.side, f, t, is_promotion)
            &&& is_promotion ==> (relative_rank_of(t, p.side) <= 3 || (k != PieceType::FU && k != PieceType::KY
                && k != PieceType::KE))
        },
    ensures
        legal_move_set(p, checkers_spec(p)).contains(m@),
{
    m.lemma_wf();
    match m@ {
        MoveType::Normal { from: _, to: _, is_promotion: _, piece } => {
            crate::piece::lemma_kind_code(piece.kind());
            assert(rule_move(p, m@));
        },
        MoveType::Drop { to: _, piece: _ } => {},
    }
    law_legal_moves_complete(p, m);
}


/// The king of the side not to move cannot take a pawn dropped on `sq`: a piece of the side to
/// move defends the square.
pub open spec fn drop_defended(p: PartialPosition, sq: int) -> bool {
    attackers_spec(p, p.side, sq, occupied_set(p)) != Set::<int>::empty()
}

/// No other piece of the side not to move can take a pawn dropped on `sq`: each of its pieces
/// attacking the square (but lances and pawns, which cannot reach the square in front of their
/// own king) is pinned to its king and stands off the pawn's file.
pub open spec fn drop_capturers_held(p: PartialPosition, sq: int) -> bool {
    forall|s: int|
        #[trigger] attackers_except_klp_spec(p, p.side.opposite(), sq).contains(s) ==> pinned_spec(
            p,
            p.side.opposite(),
        ).contains(s) && file_of(s) != file_of(sq)
}

/// The king of the side not to move has nowhere to go: every square next to it that its side
/// does not hold, but the pawn's, is attacked by the side to move with the pawn on `sq`.
pub open spec fn drop_escapes_covered(p: PartialPosition, sq: int) -> bool {
    let opp = p.side.opposite();
    let occ = occupied_set(p);
    match king_square(p, opp) {
        Some(king) => forall|to: int|
            piece_attacks(PieceType::OU, king, opp, occ).contains(to) && !color_set(p, opp).contains(to) && to
                != sq ==> #[trigger] attackers_spec(p, p.side, to, occ.insert(sq)) != Set::<int>::empty(),
        None => true,
    }
}

/// A pawn drop counts as mate exactly when the opponent has no answer to it: the king cannot
/// take the pawn, no other piece can, and the king has no square to escape to.
pub proof fn law_pawn_drop_mate(p: PartialPosition, sq: int)
    requires
        0 <= sq < 81,
    ensures
        pawn_drop_mate_spec(p, sq) == (drop_defended(p, sq) && drop_capturers_held(p, sq) && drop_escapes_covered(
            p,
            sq,
        )),
{
    let opp = p.side.opposite();
    let held = attackers_except_klp_spec(p, opp, sq).intersect(
        board_set().difference(pinned_spec(p, opp)).union(file_set(file_of(sq))),
    );
    if held != Set::<int>::empty() {
        assert(exists|s: int| held.contains(s)) by {
            if !(exists|s: int| held.contains(s)) {
                assert(held =~= Set::<int>::empty());
            }
        }
        let s = choose|s: int| held.contains(s);
        if drop_capturers_held(p, sq) {
            assert(attackers_except_klp_spec(p, opp, sq).contains(s));
            assert(0 <= s < 81);
        }
    } else {
        assert forall|s: int| #[trigger] attackers_except_klp_spec(p, opp, sq).contains(s) implies pinned_spec(
            p,
            opp,
        ).contains(s) && file_of(s) != file_of(sq) by {
            assert(0 <= s < 81);
            assert(!held.contains(s));
        }
    }
}

} // verus!
