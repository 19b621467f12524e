use vstd::prelude::*;

verus! {

/// One of the two players.
#[derive(Debug, Clone, Copy, PartialEq, Eq, Structural, PartialOrd, Ord, Hash)]
pub enum Player {
    P1,
    P2,
}

impl Player {
    pub open spec fn other(self) -> Player {
        match self {
            Player::P1 => Player::P2,
            Player::P2 => Player::P1,
        }
    }

    /// The player who moves after this one.
    pub fn opponent(self) -> (r: Player)
        ensures
            r == self.other(),
    {
        match self {
            Player::P1 => Player::P2,
            Player::P2 => Player::P1,
        }
    }
}

/// A piece, tagged with its owner. A beetle carries the stack it sits on.
#[derive(Debug, PartialEq, Eq, PartialOrd, Ord, Hash)]
pub enum Piece {
    Queen(Player),
    Beetle(Player, Option<Box<Piece>>),
    Ant(Player),
    Grasshopper(Player),
    Spider(Player),
}

impl Piece {
    pub open spec fn owner(self) -> Player {
        match self {
            Piece::Queen(p) => p,
            Piece::Beetle(p, _) => p,
            Piece::Ant(p) => p,
            Piece::Grasshopper(p) => p,
            Piece::Spider(p) => p,
        }
    }

    pub fn player(&self) -> (r: Player)
        ensures
            r == self.owner(),
    {
        match self {
            Piece::Queen(player) => *player,
            Piece::Beetle(player, _) => *player,
            Piece::Ant(player) => *player,
            Piece::Grasshopper(player) => *player,
            Piece::Spider(player) => *player,
        }
    }

    /// A copy of this piece and of the whole stack under it.
    pub fn duplicate(&self) -> (r: Piece)
        ensures
            r == *self,
        decreases self,
    {
        match self {
            Piece::Queen(p) => Piece::Queen(*p),
            Piece::Beetle(p, None) => Piece::Beetle(*p, None),
            Piece::Beetle(p, Some(b)) => {
                let inner = b.duplicate();
                Piece::Beetle(*p, Some(Box::new(inner)))
            },
            Piece::Ant(p) => Piece::Ant(*p),
            Piece::Grasshopper(p) => Piece::Grasshopper(*p),
            Piece::Spider(p) => Piece::Spider(*p),
        }
    }

    /// Whether two pieces, stacks included, are the same.
    pub fn same(&self, other: &Piece) -> (r: bool)
        ensures
            r == (*self == *other),
        decreases self,
    {
        match (self, other) {
            (Piece::Queen(a), Piece::Queen(b)) => *a == *b,
            (Piece::Beetle(a, None), Piece::Beetle(b, None)) => *a == *b,
            (Piece::Beetle(a, Some(x)), Piece::Beetle(b, Some(y))) => {
                if *a == *b {
                    let inner: &Piece = x;
                    inner.same(y)
                } else {
                    false
                }
            },
            (Piece::Ant(a), Piece::Ant(b)) => *a == *b,
            (Piece::Grasshopper(a), Piece::Grasshopper(b)) => *a == *b,
            (Piece::Spider(a), Piece::Spider(b)) => *a == *b,
            _ => false,
        }
    }
}

impl Clone for Piece {
    fn clone(&self) -> (r: Piece)
        ensures
            r == *self,
    {
        self.duplicate()
    }
}

/// The initial bag of one player: a queen, two beetles, three ants, three
/// grasshoppers and two spiders, in that order.
pub open spec fn initial_bag(p: Player) -> Seq<Piece> {
    seq![
        Piece::Queen(p),
        Piece::Beetle(p, None),
        Piece::Beetle(p, None),
        Piece::Ant(p),
        Piece::Ant(p),
        Piece::Ant(p),
        Piece::Grasshopper(p),
        Piece::Grasshopper(p),
        Piece::Grasshopper(p),
        Piece::Spider(p),
        Piece::Spider(p),
    ]
}

/// Copies a sequence of pieces element by element.
pub fn copy_pieces(v: &Vec<Piece>) -> (r: Vec<Piece>)
    ensures
        r@ == v@,
{
    let mut r: Vec<Piece> = Vec::new();
    let mut i: usize = 0;
    while i < v.len()
        invariant
            i <= v.len(),
            r@ == v@.take(i as int),
        decreases v.len() - i,
    {
        r.push(v[i].duplicate());
        i = i + 1;
        assert(r@ =~= v@.take(i as int));
    }
    assert(r@ =~= v@);
    r
}

/// Whether two sequences of pieces are equal, element by element.
pub fn same_pieces(a: &Vec<Piece>, b: &Vec<Piece>) -> (r: bool)
    ensures
        r == (a@ == b@),
{
    if a.len() != b.len() {
        return false;
    }
    let mut i: usize = 0;
    while i < a.len()
        invariant
            i <= a.len(),
            a.len() == b.len(),
            a@.take(i as int) == b@.take(i as int),
        decreases a.len() - i,
    {
        if !a[i].same(&b[i]) {
            assert(a@[i as int] != b@[i as int]);
            return false;
        }
        i = i + 1;
        assert(a@.take(i as int) =~= a@.take(i as int - 1).push(a@[i as int - 1]));
        assert(b@.take(i as int) =~= b@.take(i as int - 1).push(b@[i as int - 1]));
    }
    assert(a@ =~= a@.take(a.len() as int));
    assert(b@ =~= b@.take(b.len() as int));
    true
}

/// The unplaced pieces of both players, each in a fixed order.
#[derive(Debug, Clone, PartialEq, Eq, PartialOrd, Ord, Hash)]
pub struct Pieces {
    pub p1: Vec<Piece>,
    pub p2: Vec<Piece>,
}

impl Pieces {
    /// The unplaced pieces of `p`.
    pub open spec fn of(self, p: Player) -> Seq<Piece> {
        match p {
            Player::P1 => self.p1@,
            Player::P2 => self.p2@,
        }
    }

    /// Equal bags, as sequences.
    pub open spec fn eqv(self, o: Pieces) -> bool {
        self.p1@ == o.p1@ && self.p2@ == o.p2@
    }

    pub fn new() -> (r: Self)
        ensures
            r.p1@ == initial_bag(Player::P1),
            r.p2@ == initial_bag(Player::P2),
    {
        Pieces { p1: Self::bag(Player::P1), p2: Self::bag(Player::P2) }
    }

    fn bag(p: Player) -> (r: Vec<Piece>)
        ensures
            r@ == initial_bag(p),
    {
        let r = vec![
            Piece::Queen(p),
            Piece::Beetle(p, None),
            Piece::Beetle(p, None),
            Piece::Ant(p),
            Piece::Ant(p),
            Piece::Ant(p),
            Piece::Grasshopper(p),
            Piece::Grasshopper(p),
            Piece::Grasshopper(p),
            Piece::Spider(p),
            Piece::Spider(p),
        ];
        assert(r@ =~= initial_bag(p));
        r
    }

    /// Takes out the `idx`-th unplaced piece of `player`, keeping the order of
    /// the rest.
    pub fn remove(&mut self, player: Player, idx: usize) -> (r: Piece)
        requires
            idx < old(self).of(player).len(),
        ensures
            r == old(self).of(player)[idx as int],
            final(self).of(player) == old(self).of(player).remove(idx as int),
            final(self).of(player.other()) == old(self).of(player.other()),
    {
        match player {
            Player::P1 => self.p1.remove(idx),
            Player::P2 => self.p2.remove(idx),
        }
    }

    /// A copy of both bags.
    pub fn duplicate(&self) -> (r: Pieces)
        ensures
            r.eqv(*self),
    {
        Pieces { p1: copy_pieces(&self.p1), p2: copy_pieces(&self.p2) }
    }

    /// Whether both bags are equal to those of `other`.
    pub fn same(&self, other: &Pieces) -> (r: bool)
        ensures
            r == self.eqv(*other),
    {
        same_pieces(&self.p1, &other.p1) && same_pieces(&self.p2, &other.p2)
    }
}

impl Default for Pieces {
    fn default() -> (r: Self)
        ensures
            r.p1@ == initial_bag(Player::P1),
            r.p2@ == initial_bag(Player::P2),
    {
        Pieces::new()
    }
}

} // verus!
