use crate::color::Color;
use crate::piece::PieceType;
use vstd::prelude::*;

verus! {

/// The slot of a kind in a hand: FU 0, KY 1, KE 2, GI 3, KI 4, KA 5, HI 6.
/// A promoted kind shares the slot of its unpromoted kind; the king has none (7).
pub open spec fn hand_slot(pt: PieceType) -> int {
    match pt {
        PieceType::FU | PieceType::TO => 0,
        PieceType::KY | PieceType::NY => 1,
        PieceType::KE | PieceType::NK => 2,
        PieceType::GI | PieceType::NG => 3,
        PieceType::KI => 4,
        PieceType::KA | PieceType::UM => 5,
        PieceType::HI | PieceType::RY => 6,
        PieceType::OU => 7,
    }
}

/// Kinds that have a slot in a hand: every kind but the king.
pub open spec fn has_hand_slot(pt: PieceType) -> bool {
    pt != PieceType::OU
}

/// The slot of a kind in a hand.
pub fn hand_index(pt: PieceType) -> (r: usize)
    ensures
        r == hand_slot(pt),
{
    match pt {
        PieceType::FU | PieceType::TO => 0,
        PieceType::KY | PieceType::NY => 1,
        PieceType::KE | PieceType::NK => 2,
        PieceType::GI | PieceType::NG => 3,
        PieceType::KI => 4,
        PieceType::KA | PieceType::UM => 5,
        PieceType::HI | PieceType::RY => 6,
        PieceType::OU => 7,
    }
}

/// The pieces one player holds: a count for each of the seven hand kinds.
#[derive(Clone, Copy, Debug)]
pub struct Hand(pub [u8; 7]);

impl Hand {
    /// The counts, in slot order.
    pub open spec fn counts(self) -> Seq<u8> {
        self.0@
    }

    /// How many pieces of kind `pt` (or of its unpromoted kind) the hand holds.
    pub open spec fn count(self, pt: PieceType) -> u8 {
        self.0@[hand_slot(pt)]
    }

    /// The sum of all counts.
    pub open spec fn total(self) -> int {
        self.0@[0] + self.0@[1] + self.0@[2] + self.0@[3] + self.0@[4] + self.0@[5] + self.0@[6]
    }

    /// An empty hand.
    pub fn new() -> (r: Self)
        ensures
            forall|i: int| 0 <= i < 7 ==> r.0@[i] == 0,
    {
        Hand([0; 7])
    }

    /// Whether the hand holds nothing.
    pub fn is_empty(&self) -> (r: bool)
        requires
            self.total() < 256,
        ensures
            r == (forall|i: int| 0 <= i < 7 ==> self.0@[i] == 0),
    {
        self.0[0] + self.0[1] + self.0[2] + self.0[3] + self.0[4] + self.0[5] + self.0[6] == 0
    }

    pub fn num(&self, pt: PieceType) -> (r: u8)
        requires
            has_hand_slot(pt),
        ensures
            r == self.count(pt),
    {
        self.0[hand_index(pt)]
    }

    /// Adds one piece of kind `pt` (a promoted kind counts as its unpromoted kind).
    pub fn increment(&mut self, pt: PieceType)
        requires
            has_hand_slot(pt),
            old(self).count(pt) < 255,
        ensures
            final(self).0@ == old(self).0@.update(hand_slot(pt), (old(self).count(pt) + 1) as u8),
    {
        let i = hand_index(pt);
        self.0[i] = self.0[i] + 1;
    }

    /// Removes one piece of kind `pt`.
    pub fn decrement(&mut self, pt: PieceType)
        requires
            has_hand_slot(pt),
            old(self).count(pt) > 0,
        ensures
            final(self).0@ == old(self).0@.update(hand_slot(pt), (old(self).count(pt) - 1) as u8),
    {
        let i = hand_index(pt);
        self.0[i] = self.0[i] - 1;
    }
}

/// The hands of both players, Black's first.
#[derive(Clone, Copy, Debug)]
pub struct Hands(pub [Hand; 2]);

impl Hands {
    pub open spec fn of(self, c: Color) -> Hand {
        self.0@[c.idx()]
    }

    pub fn new(hands: [Hand; 2]) -> (r: Self)
        ensures
            r.0@ == hands@,
    {
        Hands(hands)
    }

    pub fn hand(&self, c: Color) -> (r: Hand)
        ensures
            r == self.of(c),
    {
        self.0[c.index()]
    }

    pub fn increment(&mut self, c: Color, pt: PieceType)
        requires
            has_hand_slot(pt),
            old(self).of(c).count(pt) < 255,
        ensures
            final(self).of(c).0@ == old(self).of(c).0@.update(
                hand_slot(pt),
                (old(self).of(c).count(pt) + 1) as u8,
            ),
            final(self).of(c.opposite()) == old(self).of(c.opposite()),
    {
        let i = c.index();
        let mut h = self.0[i];
        h.increment(pt);
        self.0[i] = h;
    }

    pub fn decrement(&mut self, c: Color, pt: PieceType)
        requires
            has_hand_slot(pt),
            old(self).of(c).count(pt) > 0,
        ensures
            final(self).of(c).0@ == old(self).of(c).0@.update(
                hand_slot(pt),
                (old(self).of(c).count(pt) - 1) as u8,
            ),
            final(self).of(c.opposite()) == old(self).of(c.opposite()),
    {
        let i = c.index();
        let mut h = self.0[i];
        h.decrement(pt);
        self.0[i] = h;
    }
}

/// `s` written `n` times.
pub open spec fn repeat(s: Seq<char>, n: nat) -> Seq<char>
    decreases n,
{
    if n == 0 {
        Seq::empty()
    } else {
        repeat(s, (n - 1) as nat) + s
    }
}

/// The pieces of slot `slot` of hand `h`, each as "00" and its kind's name.
pub open spec fn slot_pieces(h: Hand, slot: int, name: Seq<char>) -> Seq<char> {
    repeat("00"@ + name, h.0@[slot] as nat)
}

/// The line of a hand: nothing when it is empty, else "P", the side's mark, its pieces from HI
/// down to FU, and a line break.
pub open spec fn hand_line(h: Hand, mark: Seq<char>) -> Seq<char> {
    if forall|i: int| 0 <= i < 7 ==> h.0@[i] == 0 {
        Seq::empty()
    } else {
        "P"@ + mark + slot_pieces(h, 6, "HI"@) + slot_pieces(h, 5, "KA"@) + slot_pieces(h, 4, "KI"@)
            + slot_pieces(h, 3, "GI"@) + slot_pieces(h, 2, "KE"@) + slot_pieces(h, 1, "KY"@)
            + slot_pieces(h, 0, "FU"@) + "\n"@
    }
}

/// Appends the pieces of slot `slot` of `h`, each as "00" and the kind's name.
fn append_slot(s: &mut String, h: Hand, slot: usize, pt: PieceType)
    requires
        slot < 7,
    ensures
        final(s)@ == old(s)@ + slot_pieces(h, slot as int, crate::piece::kind_name(pt)),
{
    let n = h.0[slot];
    let name = pt.to_string();
    let mut k: u8 = 0;
    let ghost start = s@;
    while k < n
        invariant
            k <= n,
            n == h.0@[slot as int],
            name@ == crate::piece::kind_name(pt),
            s@ == start + repeat("00"@ + name@, k as nat),
        decreases n - k,
    {
        let ghost before = s@;
        s.append("00");
        s.append(name.as_str());
        k = k + 1;
        assert(s@ =~= start + repeat("00"@ + name@, k as nat)) by {
            assert(repeat("00"@ + name@, k as nat) == repeat("00"@ + name@, (k - 1) as nat) + ("00"@ + name@));
        }
    }
}

impl Hand {
    /// The line of the hand, marked with `mark`.
    fn line(&self, mark: &str) -> (r: String)
        ensures
            r@ == hand_line(*self, mark@),
    {
        let h = *self;
        if h.0[0] == 0 && h.0[1] == 0 && h.0[2] == 0 && h.0[3] == 0 && h.0[4] == 0 && h.0[5] == 0 && h.0[6] == 0 {
            assert(forall|i: int| 0 <= i < 7 ==> h.0@[i] == 0);
            return String::new();
        }
        let mut s = String::from_str("P");
        s.append(mark);
        append_slot(&mut s, h, 6, PieceType::HI);
        append_slot(&mut s, h, 5, PieceType::KA);
        append_slot(&mut s, h, 4, PieceType::KI);
        append_slot(&mut s, h, 3, PieceType::GI);
        append_slot(&mut s, h, 2, PieceType::KE);
        append_slot(&mut s, h, 1, PieceType::KY);
        append_slot(&mut s, h, 0, PieceType::FU);
        s.append("\n");
        s
    }
}

impl Hands {
    /// The hands in CSA notation: a line for each hand that holds something, such as
    /// "P+00HI00KA00FU", Black's first.
    pub fn to_string(&self) -> (r: String)
        ensures
            r@ == hand_line(self.of(Color::Black), "+"@) + hand_line(self.of(Color::White), "-"@),
    {
        let mut s = self.hand(Color::Black).line("+");
        s.append(self.hand(Color::White).line("-").as_str());
        s
    }
}


/// The number of 4-character blocks of `s` equal to `b`, reading `s` 4 characters at a time.
pub open spec fn blocks_of(s: Seq<char>, b: Seq<char>) -> nat
    decreases s.len(),
{
    if s.len() < 4 {
        0
    } else {
        (if s.subrange(0, 4) == b {
            1nat
        } else {
            0nat
        }) + blocks_of(s.subrange(4, s.len() as int), b)
    }
}

/// The number of pieces in hand `h`.
pub open spec fn hand_total(h: Hand) -> int {
    h.0@[0] + h.0@[1] + h.0@[2] + h.0@[3] + h.0@[4] + h.0@[5] + h.0@[6]
}

proof fn lemma_blocks_concat(a: Seq<char>, b: Seq<char>, blk: Seq<char>)
    requires
        a.len() % 4 == 0,
    ensures
        blocks_of(a + b, blk) == blocks_of(a, blk) + blocks_of(b, blk),
    decreases a.len(),
{
    if a.len() >= 4 {
        assert((a + b).subrange(0, 4) =~= a.subrange(0, 4));
        assert((a + b).subrange(4, (a + b).len() as int) =~= a.subrange(4, a.len() as int) + b);
        lemma_blocks_concat(a.subrange(4, a.len() as int), b, blk);
    } else {
        assert(a.len() == 0);
        assert(a + b =~= b);
    }
}

proof fn lemma_blocks_repeat(x: Seq<char>, n: nat, blk: Seq<char>)
    requires
        x.len() == 4,
    ensures
        repeat(x, n).len() == 4 * n,
        blocks_of(repeat(x, n), blk) == if x == blk {
            n
        } else {
            0
        },
    decreases n,
{
    if n > 0 {
        lemma_blocks_repeat(x, (n - 1) as nat, blk);
        lemma_blocks_concat(repeat(x, (n - 1) as nat), x, blk);
        assert(x.subrange(0, 4) =~= x);
        assert(x.subrange(4, 4) =~= Seq::<char>::empty());
        assert(blocks_of(Seq::<char>::empty(), blk) == 0);
    }
}

/// The block naming a hand kind: "00" and the kind's name.
proof fn lemma_hand_blocks()
    ensures
        forall|k: PieceType| #[trigger] crate::piece::kind_name(k).len() == 2,
        ("00"@ + "HI"@) != ("00"@ + "KA"@),
        ("00"@ + "HI"@) != ("00"@ + "KI"@),
        ("00"@ + "HI"@) != ("00"@ + "GI"@),
        ("00"@ + "HI"@) != ("00"@ + "KE"@),
        ("00"@ + "HI"@) != ("00"@ + "KY"@),
        ("00"@ + "HI"@) != ("00"@ + "FU"@),
        ("00"@ + "KA"@) != ("00"@ + "KI"@),
        ("00"@ + "KA"@) != ("00"@ + "GI"@),
        ("00"@ + "KA"@) != ("00"@ + "KE"@),
        ("00"@ + "KA"@) != ("00"@ + "KY"@),
        ("00"@ + "KA"@) != ("00"@ + "FU"@),
        ("00"@ + "KI"@) != ("00"@ + "GI"@),
        ("00"@ + "KI"@) != ("00"@ + "KE"@),
        ("00"@ + "KI"@) != ("00"@ + "KY"@),
        ("00"@ + "KI"@) != ("00"@ + "FU"@),
        ("00"@ + "GI"@) != ("00"@ + "KE"@),
        ("00"@ + "GI"@) != ("00"@ + "KY"@),
        ("00"@ + "GI"@) != ("00"@ + "FU"@),
        ("00"@ + "KE"@) != ("00"@ + "KY"@),
        ("00"@ + "KE"@) != ("00"@ + "FU"@),
        ("00"@ + "KY"@) != ("00"@ + "FU"@),
        ("00"@).len() == 2,
        ("00"@ + "HI"@).len() == 4,
        ("00"@ + "KA"@).len() == 4,
        ("00"@ + "KI"@).len() == 4,
        ("00"@ + "GI"@).len() == 4,
        ("00"@ + "KE"@).len() == 4,
        ("00"@ + "KY"@).len() == 4,
        ("00"@ + "FU"@).len() == 4,
{
    reveal_strlit("00");
    reveal_strlit("FU");
    reveal_strlit("KY");
    reveal_strlit("KE");
    reveal_strlit("GI");
    reveal_strlit("KI");
    reveal_strlit("KA");
    reveal_strlit("HI");
    reveal_strlit("OU");
    reveal_strlit("TO");
    reveal_strlit("NY");
    reveal_strlit("NK");
    reveal_strlit("NG");
    reveal_strlit("UM");
    reveal_strlit("RY");
    assert(("00"@ + "HI"@)[2] != ("00"@ + "KA"@)[2]);
    assert(("00"@ + "HI"@)[2] != ("00"@ + "KI"@)[2]);
    assert(("00"@ + "HI"@)[2] != ("00"@ + "GI"@)[2]);
    assert(("00"@ + "HI"@)[2] != ("00"@ + "KE"@)[2]);
    assert(("00"@ + "HI"@)[2] != ("00"@ + "KY"@)[2]);
    assert(("00"@ + "HI"@)[2] != ("00"@ + "FU"@)[2]);
    assert(("00"@ + "KA"@)[3] != ("00"@ + "KI"@)[3]);
    assert(("00"@ + "KA"@)[2] != ("00"@ + "GI"@)[2]);
    assert(("00"@ + "KA"@)[3] != ("00"@ + "KE"@)[3]);
    assert(("00"@ + "KA"@)[3] != ("00"@ + "KY"@)[3]);
    assert(("00"@ + "KA"@)[2] != ("00"@ + "FU"@)[2]);
    assert(("00"@ + "KI"@)[2] != ("00"@ + "GI"@)[2]);
    assert(("00"@ + "KI"@)[3] != ("00"@ + "KE"@)[3]);
    assert(("00"@ + "KI"@)[3] != ("00"@ + "KY"@)[3]);
    assert(("00"@ + "KI"@)[2] != ("00"@ + "FU"@)[2]);
    assert(("00"@ + "GI"@)[2] != ("00"@ + "KE"@)[2]);
    assert(("00"@ + "GI"@)[2] != ("00"@ + "KY"@)[2]);
    assert(("00"@ + "GI"@)[2] != ("00"@ + "FU"@)[2]);
    assert(("00"@ + "KE"@)[3] != ("00"@ + "KY"@)[3]);
    assert(("00"@ + "KE"@)[2] != ("00"@ + "FU"@)[2]);
    assert(("00"@ + "KY"@)[2] != ("00"@ + "FU"@)[2]);
}

/// The CSA line of a hand lists every piece it holds: an empty hand has no line; otherwise the
/// line is "P", the side's mark, one block of four characters per piece held, and a line break,
/// and for each kind that can be held, the blocks "00" and the kind's name are as many as the
/// pieces of that kind.
pub proof fn law_hand_line(h: Hand, mark: Seq<char>)
    ensures
        (forall|i: int| 0 <= i < 7 ==> h.0@[i] == 0) ==> hand_line(h, mark) == Seq::<char>::empty(),
        !(forall|i: int| 0 <= i < 7 ==> h.0@[i] == 0) ==> exists|body: Seq<char>|
            {
                &&& hand_line(h, mark) == "P"@ + mark + body + "\n"@
                &&& body.len() == 4 * hand_total(h)
                &&& forall|k: PieceType|
                    k != PieceType::OU && crate::piece::kind_code(k) < 7 ==> #[trigger] blocks_of(
                        body,
                        "00"@ + crate::piece::kind_name(k),
                    ) == h.0@[hand_slot(k)]
            },
{
    if !(forall|i: int| 0 <= i < 7 ==> h.0@[i] == 0) {
        lemma_hand_blocks();
        let s6 = slot_pieces(h, 6, "HI"@);
        let s5 = slot_pieces(h, 5, "KA"@);
        let s4 = slot_pieces(h, 4, "KI"@);
        let s3 = slot_pieces(h, 3, "GI"@);
        let s2 = slot_pieces(h, 2, "KE"@);
        let s1 = slot_pieces(h, 1, "KY"@);
        let s0 = slot_pieces(h, 0, "FU"@);
        let body = s6 + s5 + s4 + s3 + s2 + s1 + s0;
        assert(hand_line(h, mark) =~= "P"@ + mark + body + "\n"@);
        assert forall|k: PieceType|
            k != PieceType::OU && crate::piece::kind_code(k) < 7 implies #[trigger] blocks_of(
                body,
                "00"@ + crate::piece::kind_name(k),
            ) == h.0@[hand_slot(k)] by {
            let blk = "00"@ + crate::piece::kind_name(k);
            lemma_blocks_repeat("00"@ + "HI"@, h.0@[6] as nat, blk);
            lemma_blocks_repeat("00"@ + "KA"@, h.0@[5] as nat, blk);
            lemma_blocks_repeat("00"@ + "KI"@, h.0@[4] as nat, blk);
            lemma_blocks_repeat("00"@ + "GI"@, h.0@[3] as nat, blk);
            lemma_blocks_repeat("00"@ + "KE"@, h.0@[2] as nat, blk);
            lemma_blocks_repeat("00"@ + "KY"@, h.0@[1] as nat, blk);
            lemma_blocks_repeat("00"@ + "FU"@, h.0@[0] as nat, blk);
            lemma_blocks_concat(s6, s5, blk);
            lemma_blocks_concat(s6 + s5, s4, blk);
            lemma_blocks_concat(s6 + s5 + s4, s3, blk);
            lemma_blocks_concat(s6 + s5 + s4 + s3, s2, blk);
            lemma_blocks_concat(s6 + s5 + s4 + s3 + s2, s1, blk);
            lemma_blocks_concat(s6 + s5 + s4 + s3 + s2 + s1, s0, blk);
        }
        let blk = "00"@ + "HI"@;
        lemma_blocks_repeat("00"@ + "HI"@, h.0@[6] as nat, blk);
        lemma_blocks_repeat("00"@ + "KA"@, h.0@[5] as nat, blk);
        lemma_blocks_repeat("00"@ + "KI"@, h.0@[4] as nat, blk);
        lemma_blocks_repeat("00"@ + "GI"@, h.0@[3] as nat, blk);
        lemma_blocks_repeat("00"@ + "KE"@, h.0@[2] as nat, blk);
        lemma_blocks_repeat("00"@ + "KY"@, h.0@[1] as nat, blk);
        lemma_blocks_repeat("00"@ + "FU"@, h.0@[0] as nat, blk);
    }
}

} // verus!
