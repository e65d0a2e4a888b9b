//! Tile identities as dense indices, and the per-identity count table.
use vstd::prelude::*;

verus! {

/// Number of distinct tile identities: three suits of nine, then seven honors.
pub const NUM_TILES: usize = 34;

/// The three numbered suits.
#[derive(Clone, Copy, Debug, PartialEq, Eq, Structural, Hash)]
pub enum Suit {
    Man,
    Pin,
    Sou,
}

/// The seven honor kinds, in their conventional order.
#[derive(Clone, Copy, Debug, PartialEq, Eq, Structural, Hash)]
pub enum Honor {
    East,
    South,
    West,
    North,
    White,
    Green,
    Red,
}

/// A tile identity. `id` is `9 * suit + value - 1` for numbered tiles and
/// `27 + honor` for honors, so comparing ids is the total order on tiles.
#[derive(Clone, Copy, Debug, PartialEq, Eq, Structural, Hash, PartialOrd, Ord)]
pub struct Tile {
    pub id: u8,
}

pub open spec fn suit_index(s: Suit) -> int {
    match s {
        Suit::Man => 0,
        Suit::Pin => 1,
        Suit::Sou => 2,
    }
}

pub open spec fn honor_index(h: Honor) -> int {
    match h {
        Honor::East => 0,
        Honor::South => 1,
        Honor::West => 2,
        Honor::North => 3,
        Honor::White => 4,
        Honor::Green => 5,
        Honor::Red => 6,
    }
}

/// Terminal (a one or a nine of a suit) or honor: the thirteen orphan identities.
pub open spec fn is_orphan(i: int) -> bool {
    (0 <= i < 27 && (i % 9 == 0 || i % 9 == 8)) || (27 <= i < 34)
}

impl Tile {
    pub open spec fn wf(self) -> bool {
        self.id < 34
    }

    /// The numbered tile of `value` (1 to 9) in `suit`.
    pub fn suited(suit: Suit, value: u8) -> (t: Tile)
        requires
            1 <= value <= 9,
        ensures
            t.id == 9 * suit_index(suit) + value - 1,
            t.wf(),
    {
        let base: u8 = match suit {
            Suit::Man => 0,
            Suit::Pin => 9,
            Suit::Sou => 18,
        };
        Tile { id: base + value - 1 }
    }

    /// The honor tile of kind `h`.
    pub fn honor(h: Honor) -> (t: Tile)
        ensures
            t.id == 27 + honor_index(h),
            t.wf(),
    {
        let k: u8 = match h {
            Honor::East => 0,
            Honor::South => 1,
            Honor::West => 2,
            Honor::North => 3,
            Honor::White => 4,
            Honor::Green => 5,
            Honor::Red => 6,
        };
        Tile { id: 27 + k }
    }

    /// Whether this is a terminal or an honor tile.
    pub fn is_terminal_or_honor(&self) -> (r: bool)
        requires
            self.wf(),
        ensures
            r == is_orphan(self.id as int),
    {
        self.id >= 27 || self.id % 9 == 0 || self.id % 9 == 8
    }
}

/// A hand as a count per tile identity, indexed by `Tile::id`.
pub struct TileCounts {
    pub counts: Vec<u8>,
}

/// A count table over the whole catalogue with at most four of each tile.
pub open spec fn valid_counts(c: Seq<u8>) -> bool {
    c.len() == 34 && forall|i: int| 0 <= i < 34 ==> c[i] <= 4
}

/// Sum of the first `n` counts.
pub open spec fn sum_prefix(c: Seq<u8>, n: int) -> int
    decreases n,
{
    if n <= 0 {
        0
    } else {
        sum_prefix(c, n - 1) + c[n - 1]
    }
}

/// Number of tiles in the hand.
pub open spec fn total(c: Seq<u8>) -> int {
    sum_prefix(c, 34)
}

/// Number of identities among the first `n` with a nonzero count.
pub open spec fn present_prefix(c: Seq<u8>, n: int) -> int
    decreases n,
{
    if n <= 0 {
        0
    } else {
        present_prefix(c, n - 1) + if c[n - 1] > 0 { 1int } else { 0int }
    }
}

/// Number of distinct identities in the hand.
pub open spec fn num_present(c: Seq<u8>) -> int {
    present_prefix(c, 34)
}

impl View for TileCounts {
    type V = Seq<u8>;

    open spec fn view(&self) -> Seq<u8> {
        self.counts@
    }
}

impl TileCounts {
    pub open spec fn wf(&self) -> bool {
        valid_counts(self.counts@)
    }

    /// The empty hand.
    pub fn new() -> (r: TileCounts)
        ensures
            r.counts@ == Seq::new(34, |i: int| 0u8),
            r.wf(),
    {
        let mut v: Vec<u8> = Vec::new();
        let mut i: usize = 0;
        while i < NUM_TILES
            invariant
                i <= 34,
                v@ == Seq::new(i as nat, |j: int| 0u8),
            decreases 34 - i,
        {
            v.push(0);
            i += 1;
        }
        assert(v@ =~= Seq::new(34, |j: int| 0u8));
        TileCounts { counts: v }
    }

    /// Adds one copy of `t`.
    pub fn add(&mut self, t: Tile)
        requires
            old(self).wf(),
            t.wf(),
            old(self).counts@[t.id as int] < 4,
        ensures
            final(self).counts@ == old(self).counts@.update(
                t.id as int,
                (old(self).counts@[t.id as int] + 1) as u8,
            ),
            final(self).wf(),
    {
        let i = t.id as usize;
        let c = self.counts[i];
        self.counts.set(i, c + 1);
    }

    /// How many copies of `t` the hand holds.
    pub fn count(&self, t: Tile) -> (r: u8)
        requires
            self.wf(),
            t.wf(),
        ensures
            r == self.counts@[t.id as int],
    {
        self.counts[t.id as usize]
    }
}

/// A fresh copy of a count table.
pub fn copy_counts(c: &Vec<u8>) -> (r: Vec<u8>)
    ensures
        r@ == c@,
{
    let mut v: Vec<u8> = Vec::new();
    let mut i: usize = 0;
    while i < c.len()
        invariant
            i <= c@.len(),
            v@ == c@.subrange(0, i as int),
        decreases c@.len() - i,
    {
        v.push(c[i]);
        i += 1;
    }
    assert(v@ =~= c@);
    v
}

} // verus!
