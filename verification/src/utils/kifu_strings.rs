use crate::bitboard::Bitboard;
use crate::color::Color;
use crate::movegen::attackers_spec;
use crate::piece::{kind_is_promotable, PieceType};
use crate::position::{
    after_move, can_apply, color_set, kind_set, lemma_lowest, lowest, occupied_set, PartialPosition,
    Position,
};
use crate::shogi_move::Move;
use crate::square::{relative_rank_of, Square};
use std::cmp::Ordering;
use vstd::prelude::*;

verus! {

/// The file of a square, 0 for file 1 to 8 for file 9.
pub open spec fn file_index(s: Square) -> i8 {
    (s.0 / 9) as i8
}

/// The rank of a square, 0 for rank 一 to 8 for rank 九.
pub open spec fn rank_index(s: Square) -> i8 {
    (s.0 % 9) as i8
}

/// The square with index `i`.
pub open spec fn square_at(i: int) -> Square {
    Square(i as i8)
}

fn square_file(s: Square) -> (r: i8)
    requires
        s.wf(),
    ensures
        r == file_index(s),
{
    s.file().0
}

fn square_rank(s: Square) -> (r: i8)
    requires
        s.wf(),
    ensures
        r == rank_index(s),
{
    s.rank().0
}

/// The pieces of the moved piece's color and kind that reach the destination of `m`.
pub open spec fn reachers(p: PartialPosition, m: Move) -> Set<int> {
    let piece = m.moved_piece();
    kind_set(p, piece.kind()).intersect(color_set(p, piece.side())).intersect(
        attackers_spec(p, piece.side(), m.dest().0 as int, occupied_set(p)),
    )
}

/// The other pieces of the moved piece's color and kind that reach the destination of `m`.
pub open spec fn rivals(p: PartialPosition, m: Move) -> Set<int> {
    reachers(p, m).remove(m.origin().0 as int)
}

/// The square at a square's index is the square.
pub proof fn lemma_square_at(s: Square)
    requires
        s.wf(),
    ensures
        square_at(s.idx()) == s,
{
}

/// The name of file `f` (1 to 9).
pub open spec fn file_str(f: int) -> Seq<char> {
    if f == 1 {
        "1"@
    } else if f == 2 {
        "2"@
    } else if f == 3 {
        "3"@
    } else if f == 4 {
        "4"@
    } else if f == 5 {
        "5"@
    } else if f == 6 {
        "6"@
    } else if f == 7 {
        "7"@
    } else if f == 8 {
        "8"@
    } else {
        "9"@
    }
}

/// The name of rank `r` (1 to 9).
pub open spec fn rank_str(r: int) -> Seq<char> {
    if r == 1 {
        "一"@
    } else if r == 2 {
        "二"@
    } else if r == 3 {
        "三"@
    } else if r == 4 {
        "四"@
    } else if r == 5 {
        "五"@
    } else if r == 6 {
        "六"@
    } else if r == 7 {
        "七"@
    } else if r == 8 {
        "八"@
    } else {
        "九"@
    }
}

/// The mark of the side that moves.
pub open spec fn color_str(c: Color) -> Seq<char> {
    match c {
        Color::Black => "▲"@,
        Color::White => "△"@,
    }
}

/// The name of a kind.
pub open spec fn kind_str(pk: PieceType) -> Seq<char> {
    match pk {
        PieceType::FU => "歩"@,
        PieceType::KY => "香"@,
        PieceType::KE => "桂"@,
        PieceType::GI => "銀"@,
        PieceType::KI => "金"@,
        PieceType::KA => "角"@,
        PieceType::HI => "飛"@,
        PieceType::OU => "玉"@,
        PieceType::TO => "と"@,
        PieceType::NY => "成香"@,
        PieceType::NK => "成桂"@,
        PieceType::NG => "成銀"@,
        PieceType::UM => "馬"@,
        PieceType::RY => "竜"@,
    }
}

/// The destination: "同" when it is that of the previous move, else its file and rank.
pub open spec fn to_str(m: Move, prev: Option<Move>) -> Seq<char> {
    if prev matches Some(q) && q.dest() == m.dest() {
        "同"@
    } else {
        file_str(file_index(m.dest()) + 1) + rank_str(rank_index(m.dest()) + 1)
    }
}

/// "成" for a promotion; "不成" for a move of a promotable piece from or to the last three
/// ranks that does not promote.
pub open spec fn promotion_str(m: Move) -> Seq<char> {
    let c = m.moved_piece().side();
    if m.promotes() {
        "成"@
    } else if !m.drop_move() && kind_is_promotable(m.moved_piece().kind()) && (relative_rank_of(
        m.origin().0 as int,
        c,
    ) <= 3 || relative_rank_of(m.dest().0 as int, c) <= 3) {
        "不成"@
    } else {
        Seq::empty()
    }
}

/// "打" for a drop where a piece of the same kind on the board could also move.
pub open spec fn drop_str(p: PartialPosition, m: Move) -> Seq<char> {
    if m.drop_move() && reachers(p, m) != Set::<int>::empty() {
        "打"@
    } else {
        Seq::empty()
    }
}

/// The sign of `a - b`.
pub open spec fn order_of(a: i8, b: i8) -> Ordering {
    if a < b {
        Ordering::Less
    } else if a == b {
        Ordering::Equal
    } else {
        Ordering::Greater
    }
}

/// An ordering seen from the side of `c`: White sees the board upside down.
pub open spec fn translated(o: Ordering, c: Color) -> Ordering {
    match (o, c) {
        (Ordering::Less, Color::White) => Ordering::Greater,
        (Ordering::Greater, Color::White) => Ordering::Less,
        _ => o,
    }
}

/// How the files of the squares of `s` compare with that of `to`.
pub open spec fn file_orders(s: Set<int>, to: Square) -> Set<Ordering> {
    Set::new(|o: Ordering| exists|i: int| s.contains(i) && #[trigger] order_of(file_index(square_at(i)), file_index(to)) == o)
}

/// How the ranks of the squares of `s` compare with that of `to`.
pub open spec fn rank_orders(s: Set<int>, to: Square) -> Set<Ordering> {
    Set::new(|o: Ordering| exists|i: int| s.contains(i) && #[trigger] order_of(rank_index(square_at(i)), rank_index(to)) == o)
}

/// The word telling the moved piece from the others that reach the destination: by its side
/// ("右" right, "直" straight, "左" left) when another moves in the same vertical direction, and by
/// its direction ("引" back, "寄" sideways, "上" up) when that tells it apart. RY and UM use only
/// right and left for the side, compared with the first rival.
pub open spec fn direction_str(p: PartialPosition, m: Move) -> Seq<char> {
    let bb = rivals(p, m);
    if m.drop_move() || bb == Set::<int>::empty() {
        Seq::empty()
    } else {
        let from = m.origin();
        let to = m.dest();
        let piece = m.moved_piece();
        let c = piece.side();
        let other = square_at(lowest(bb)->0);
        let fo = order_of(file_index(from), file_index(to));
        let ro = order_of(rank_index(from), rank_index(to));
        let side_part = if rank_orders(bb, to).contains(ro) {
            if piece.kind() == PieceType::RY || piece.kind() == PieceType::UM {
                match translated(order_of(file_index(from), file_index(other)), c) {
                    Ordering::Less => "右"@,
                    Ordering::Greater => "左"@,
                    Ordering::Equal => Seq::empty(),
                }
            } else {
                match translated(fo, c) {
                    Ordering::Less => "右"@,
                    Ordering::Equal => "直"@,
                    Ordering::Greater => "左"@,
                }
            }
        } else {
            Seq::empty()
        };
        let move_part = if !rank_orders(bb, to).contains(ro) || (file_orders(bb, to).contains(fo) && fo
            != Ordering::Equal) {
            match translated(ro, c) {
                Ordering::Less => "引"@,
                Ordering::Equal => "寄"@,
                Ordering::Greater => "上"@,
            }
        } else {
            Seq::empty()
        };
        side_part + move_part
    }
}

/// The case the notation has no word for: a RY or UM with a rival on its own file moving in the
/// same vertical direction.
pub open spec fn direction_undefined(p: PartialPosition, m: Move) -> bool {
    let bb = rivals(p, m);
    &&& !m.drop_move()
    &&& bb != Set::<int>::empty()
    &&& rank_orders(bb, m.dest()).contains(order_of(rank_index(m.origin()), rank_index(m.dest())))
    &&& (m.moved_piece().kind() == PieceType::RY || m.moved_piece().kind() == PieceType::UM)
    &&& file_index(m.origin()) == file_index(square_at(lowest(bb)->0))
}

/// Which of the three orderings have been seen.
struct Orderings {
    less: bool,
    equal: bool,
    greater: bool,
}

impl Orderings {
    spec fn has_order(self, o: Ordering) -> bool {
        match o {
            Ordering::Less => self.less,
            Ordering::Equal => self.equal,
            Ordering::Greater => self.greater,
        }
    }

    /// Records ordering `o`.
    fn record(&mut self, o: Ordering)
        ensures
            forall|x: Ordering| #[trigger] final(self).has_order(x) == (old(self).has_order(x) || x == o),
    {
        match o {
            Ordering::Less => self.less = true,
            Ordering::Equal => self.equal = true,
            Ordering::Greater => self.greater = true,
        }
    }

    /// Whether ordering `o` was recorded.
    fn seen(&self, o: Ordering) -> (r: bool)
        ensures
            r == self.has_order(o),
    {
        match o {
            Ordering::Less => self.less,
            Ordering::Equal => self.equal,
            Ordering::Greater => self.greater,
        }
    }
}

fn order(a: i8, b: i8) -> (r: Ordering)
    ensures
        r == order_of(a, b),
{
    if a < b {
        Ordering::Less
    } else if a == b {
        Ordering::Equal
    } else {
        Ordering::Greater
    }
}

fn translate(o: Ordering, c: Color) -> (r: Ordering)
    ensures
        r == translated(o, c),
{
    match (o, c) {
        (Ordering::Less, Color::White) => Ordering::Greater,
        (Ordering::Greater, Color::White) => Ordering::Less,
        _ => o,
    }
}

/// The notation of move `m` on `p`, after `prev`: side, destination, kind, direction,
/// promotion, drop.
pub open spec fn move_str(p: PartialPosition, m: Move, prev: Option<Move>) -> Seq<char> {
    color_str(m.moved_piece().side()) + to_str(m, prev) + kind_str(m.moved_piece().kind()) + direction_str(p,
        m,
    ) + promotion_str(m) + drop_str(p, m)
}

fn file2str(file: u8) -> (r: String)
    requires
        1 <= file <= 9,
    ensures
        r@ == file_str(file as int),
{
    String::from_str(
        if file == 1 {
            "1"
        } else if file == 2 {
            "2"
        } else if file == 3 {
            "3"
        } else if file == 4 {
            "4"
        } else if file == 5 {
            "5"
        } else if file == 6 {
            "6"
        } else if file == 7 {
            "7"
        } else if file == 8 {
            "8"
        } else {
            "9"
        },
    )
}

fn rank2str(rank: u8) -> (r: String)
    requires
        1 <= rank <= 9,
    ensures
        r@ == rank_str(rank as int),
{
    String::from_str(
        if rank == 1 {
            "一"
        } else if rank == 2 {
            "二"
        } else if rank == 3 {
            "三"
        } else if rank == 4 {
            "四"
        } else if rank == 5 {
            "五"
        } else if rank == 6 {
            "六"
        } else if rank == 7 {
            "七"
        } else if rank == 8 {
            "八"
        } else {
            "九"
        },
    )
}

fn parts_color(m: &Move) -> (r: String)
    ensures
        r@ == color_str(m.moved_piece().side()),
{
    String::from_str(
        match m.piece().color() {
            Color::Black => "▲",
            Color::White => "△",
        },
    )
}

/// "同" when the previous move went to the same square, else the square.
fn parts_to(m: &Move, prev: Option<Move>) -> (r: String)
    ensures
        r@ == to_str(*m, prev),
{
    let to = m.to();
    let same = match prev {
        Some(q) => q.to() == to,
        None => false,
    };
    if same {
        String::from_str("同")
    } else {
        let mut s = file2str((square_file(to) + 1) as u8);
        let r = rank2str((square_rank(to) + 1) as u8);
        s.append(r.as_str());
        s
    }
}

fn parts_piece_type(m: &Move) -> (r: String)
    ensures
        r@ == kind_str(m.moved_piece().kind()),
{
    String::from_str(
        match m.piece().piece_type() {
            PieceType::FU => "歩",
            PieceType::KY => "香",
            PieceType::KE => "桂",
            PieceType::GI => "銀",
            PieceType::KI => "金",
            PieceType::KA => "角",
            PieceType::HI => "飛",
            PieceType::OU => "玉",
            PieceType::TO => "と",
            PieceType::NY => "成香",
            PieceType::NK => "成桂",
            PieceType::NG => "成銀",
            PieceType::UM => "馬",
            PieceType::RY => "竜",
        },
    )
}

/// "成" or "不成" when the move could promote.
fn parts_promotion(m: &Move) -> (r: String)
    ensures
        r@ == promotion_str(*m),
{
    proof {
        use_type_invariant(m);
        m.lemma_wf();
    }
    if m.is_promotion() {
        return String::from_str("成");
    } else if let Some(from) = m.from() {
        let piece = m.piece();
        let c = piece.color();
        if piece.is_promotable() && (from.relative_rank(c) <= 3 || m.to().relative_rank(c) <= 3) {
            return String::from_str("不成");
        }
    }
    String::new()
}

/// "打" when a piece of the same kind on the board could move to the drop's square.
fn parts_drop(m: &Move, pos: &Position) -> (r: String)
    requires
        pos.wf(),
    ensures
        r@ == drop_str(pos.model(), *m),
{
    proof {
        use_type_invariant(m);
        m.lemma_wf();
    }
    let piece = m.piece();
    if m.is_drop() {
        let occ = pos.occupied_bitboard();
        let bb = pos.piece_bitboard(piece).and(pos.attackers_to(piece.color(), m.to(), &occ));
        if !bb.is_empty() {
            return String::from_str("打");
        }
    }
    String::new()
}

/// The word telling the moved piece from the others of its kind that reach the destination.
fn parts_direction_relative(m: &Move, pos: &Position) -> (r: String)
    requires
        pos.wf(),
        !direction_undefined(pos.model(), *m),
    ensures
        r@ == direction_str(pos.model(), *m),
{
    let ghost p = pos.model();
    proof {
        use_type_invariant(m);
        m.lemma_wf();
    }
    let mut ret = String::new();
    match m.from() {
        Some(from) => {
            let piece = m.piece();
            let to = m.to();
            let c = piece.color();
            let occ = pos.occupied_bitboard();
            let bb = pos.piece_bitboard(piece).and(pos.attackers_to(c, to, &occ)).and(
                Bitboard::single(from).not(),
            );
            proof {
                occ.lemma_view_on_board();
                assert(bb@ =~= rivals(p, *m));
            }
            let mut first = bb;
            let ghost bb_set = bb@;
            match first.pop() {
                Some(other) => {
                    proof {
                        lemma_lowest(bb_set, other.idx());
                        lemma_square_at(other);
                        lemma_square_at(from);
                        lemma_square_at(to);
                    }
                    let fo = order(square_file(from), square_file(to));
                    let ro = order(square_rank(from), square_rank(to));
                    let mut files = Orderings { less: false, equal: false, greater: false };
                    let mut ranks = Orderings { less: false, equal: false, greater: false };
                    let mut rest = bb;
                    while !rest.is_empty()
                        invariant
                            to.wf(),
                            rest@.subset_of(bb@),
                            forall|o: Ordering|
                                #[trigger] files.has_order(o) == exists|i: int|
                                    bb@.difference(rest@).contains(i) && #[trigger] order_of(
                                        file_index(square_at(i)),
                                        file_index(to),
                                    ) == o,
                            forall|o: Ordering|
                                #[trigger] ranks.has_order(o) == exists|i: int|
                                    bb@.difference(rest@).contains(i) && #[trigger] order_of(
                                        rank_index(square_at(i)),
                                        rank_index(to),
                                    ) == o,
                        decreases rest@.len(),
                    {
                        proof {
                            rest.lemma_view_on_board();
                        }
                        let ghost before = rest@;
                        let sq = rest.pop().unwrap();
                        proof {
                            lemma_square_at(sq);
                        }
                        files.record(order(square_file(sq), square_file(to)));
                        ranks.record(order(square_rank(sq), square_rank(to)));
                        proof {
                            assert(bb@.difference(rest@) =~= bb@.difference(before).insert(sq.idx()));
                        }
                    }
                    proof {
                        assert(bb@.difference(rest@) =~= bb@);
                        assert forall|o: Ordering| rank_orders(bb@, to).contains(o) == ranks.has_order(o) by {}
                        assert forall|o: Ordering| file_orders(bb@, to).contains(o) == files.has_order(o) by {}
                    }
                    if ranks.seen(ro) {
                        let kind = piece.piece_type();
                        if matches!(kind, PieceType::RY | PieceType::UM) {
                            match translate(order(square_file(from), square_file(other)), c) {
                                Ordering::Less => ret.append("右"),
                                Ordering::Greater => ret.append("左"),
                                Ordering::Equal => {},
                            }
                        } else {
                            match translate(fo, c) {
                                Ordering::Less => ret.append("右"),
                                Ordering::Equal => ret.append("直"),
                                Ordering::Greater => ret.append("左"),
                            }
                        }
                    }
                    let ghost side_part = ret@;
                    if !ranks.seen(ro) || (files.seen(fo) && !matches!(fo, Ordering::Equal)) {
                        match translate(ro, c) {
                            Ordering::Less => ret.append("引"),
                            Ordering::Equal => ret.append("寄"),
                            Ordering::Greater => ret.append("上"),
                        }
                    }
                    proof {
                        assert(side_part =~= Seq::<char>::empty() + side_part);
                    }
                },
                None => {
                    proof {
                        assert(bb_set =~= Set::<int>::empty());
                    }
                },
            }
        },
        None => {},
    }
    ret
}

/// The notation of move `m` on `pos`, after `prev`.
fn move2str(pos: &Position, m: &Move, prev: Option<Move>) -> (r: String)
    requires
        pos.wf(),
        !direction_undefined(pos.model(), *m),
    ensures
        r@ == move_str(pos.model(), *m, prev),
{
    let mut s = parts_color(m);
    s.append(parts_to(m, prev).as_str());
    s.append(parts_piece_type(m).as_str());
    s.append(parts_direction_relative(m, pos).as_str());
    s.append(parts_promotion(m).as_str());
    s.append(parts_drop(m, pos).as_str());
    s
}

/// Moves `ms` can be written one after the other from `p`: each can be done, and has a word
/// for its direction.
pub open spec fn writable(p: PartialPosition, ms: Seq<Move>) -> bool
    decreases ms.len(),
{
    ms.len() == 0 || (can_apply(p, ms[0]) && !direction_undefined(p, ms[0]) && writable(after_move(p, ms[0]),
        ms.drop_first(),
    ))
}

/// The notations of moves `ms` done one after the other from `p`, after `prev`.
pub open spec fn kifu_from(p: PartialPosition, ms: Seq<Move>, prev: Option<Move>) -> Seq<Seq<char>>
    decreases ms.len(),
{
    if ms.len() == 0 {
        Seq::empty()
    } else {
        seq![move_str(p, ms[0], prev)] + kifu_from(after_move(p, ms[0]), ms.drop_first(), Some(ms[0]))
    }
}

/// Writing moves in kifu notation.
pub trait KifuStrings {
    /// The moves can be written one after the other.
    spec fn kifu_writable(&self, moves: Seq<Move>) -> bool;

    /// Their notations.
    spec fn kifu(&self, moves: Seq<Move>) -> Seq<Seq<char>>;

    fn kifu_strings(&self, moves: &[Move]) -> (r: Vec<String>)
        requires
            self.kifu_writable(moves@),
        ensures
            r@.len() == moves@.len(),
            forall|i: int| 0 <= i < r@.len() ==> #[trigger] r@[i]@ == self.kifu(moves@)[i],
    ;
}

impl KifuStrings for Position {
    open spec fn kifu_writable(&self, moves: Seq<Move>) -> bool {
        self.wf() && writable(self.model(), moves)
    }

    open spec fn kifu(&self, moves: Seq<Move>) -> Seq<Seq<char>> {
        kifu_from(self.model(), moves, None)
    }

    fn kifu_strings(&self, moves: &[Move]) -> (r: Vec<String>) {
        let ghost all = kifu_from(self.model(), moves@, None);
        let mut pos = self.duplicate();
        let mut result: Vec<String> = Vec::new();
        let mut prev: Option<Move> = None;
        let mut i: usize = 0;
        proof {
            assert(moves@.skip(0) =~= moves@);
            assert(result@.map_values(|s: String| s@) =~= Seq::<Seq<char>>::empty());
        }
        while i < moves.len()
            invariant
                0 <= i <= moves@.len(),
                pos.wf(),
                all == kifu_from(self.model(), moves@, None),
                writable(pos.model(), moves@.skip(i as int)),
                i == 0 ==> prev is None,
                i > 0 ==> prev == Some(moves@[i - 1]),
                result@.len() == i,
                result@.map_values(|s: String| s@) + kifu_from(pos.model(), moves@.skip(i as int), prev) == all,
            decreases moves@.len() - i,
        {
            let m = moves[i];
            let ghost rest = moves@.skip(i as int);
            let ghost p = pos.model();
            proof {
                assert(rest[0] == m);
                assert(rest.drop_first() =~= moves@.skip(i + 1));
            }
            let s = move2str(&pos, &m, prev);
            let ghost before = result@.map_values(|x: String| x@);
            result.push(s);
            pos.do_move(m);
            prev = Some(m);
            i = i + 1;
            proof {
                assert(result@.map_values(|x: String| x@) =~= before.push(s@));
                assert(kifu_from(p, rest, if i == 1 { None } else { Some(moves@[i - 2]) }) == seq![move_str(p, m, if i == 1 { None } else { Some(moves@[i - 2]) })] + kifu_from(pos.model(), moves@.skip(i as int), prev));
                assert(before.push(s@) + kifu_from(pos.model(), moves@.skip(i as int), prev) =~= before + (seq![s@] + kifu_from(pos.model(), moves@.skip(i as int), prev)));
            }
        }
        proof {
            assert(moves@.skip(i as int) =~= Seq::<Move>::empty());
            assert(result@.map_values(|s: String| s@) + Seq::<Seq<char>>::empty() =~= result@.map_values(|s: String| s@));
            assert forall|k: int| 0 <= k < result@.len() implies #[trigger] result@[k]@ == all[k] by {
                assert(result@.map_values(|s: String| s@)[k] == result@[k]@);
            }
        }
        result
    }
}


/// Every move's notation names the moved piece's kind by its standard word, right after the
/// destination: 歩 香 桂 銀 金 角 飛 玉 for the unpromoted kinds, と 成香 成桂 成銀 馬 竜 for the
/// promoted ones.
pub proof fn law_kind_words(p: PartialPosition, m: Move, prev: Option<Move>)
    ensures
        move_str(p, m, prev) == color_str(m.moved_piece().side()) + to_str(m, prev) + kind_str(
            m.moved_piece().kind(),
        ) + direction_str(p, m) + promotion_str(m) + drop_str(p, m),
        kind_str(PieceType::FU) == "歩"@,
        kind_str(PieceType::KY) == "香"@,
        kind_str(PieceType::KE) == "桂"@,
        kind_str(PieceType::GI) == "銀"@,
        kind_str(PieceType::KI) == "金"@,
        kind_str(PieceType::KA) == "角"@,
        kind_str(PieceType::HI) == "飛"@,
        kind_str(PieceType::OU) == "玉"@,
        kind_str(PieceType::TO) == "と"@,
        kind_str(PieceType::NY) == "成香"@,
        kind_str(PieceType::NK) == "成桂"@,
        kind_str(PieceType::NG) == "成銀"@,
        kind_str(PieceType::UM) == "馬"@,
        kind_str(PieceType::RY) == "竜"@,
{
}


/// The destination of a move's notation is written with the file as an Arabic numeral and the
/// rank as a kanji numeral, and the side that moves as ▲ for Black, △ for White.
pub proof fn law_square_words()
    ensures
        color_str(Color::Black) == "▲"@,
        color_str(Color::White) == "△"@,
        file_str(1) == "1"@ && file_str(2) == "2"@ && file_str(3) == "3"@,
        file_str(4) == "4"@ && file_str(5) == "5"@ && file_str(6) == "6"@,
        file_str(7) == "7"@ && file_str(8) == "8"@ && file_str(9) == "9"@,
        rank_str(1) == "一"@ && rank_str(2) == "二"@ && rank_str(3) == "三"@,
        rank_str(4) == "四"@ && rank_str(5) == "五"@ && rank_str(6) == "六"@,
        rank_str(7) == "七"@ && rank_str(8) == "八"@ && rank_str(9) == "九"@,
{
}

} // verus!
