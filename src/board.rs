use crate::piece::Piece;
use crate::point::{roomy, Point};
use vstd::prelude::*;

verus! {

/// Strict lexicographic order on (x, y, z): the order the board keeps.
pub open spec fn point_lt(a: Point, b: Point) -> bool {
    a.x < b.x || (a.x == b.x && (a.y < b.y || (a.y == b.y && a.z < b.z)))
}

fn less(a: &Point, b: &Point) -> (r: bool)
    ensures
        r == point_lt(*a, *b),
{
    a.x < b.x || (a.x == b.x && (a.y < b.y || (a.y == b.y && a.z < b.z)))
}

/// Entries whose keys strictly increase.
pub open spec fn sorted_keys(s: Seq<(Point, Piece)>) -> bool {
    forall|i: int, j: int| 0 <= i < j < s.len() ==> point_lt(#[trigger] s[i].0, #[trigger] s[j].0)
}

/// The occupied cells and the stack on each.
///
/// Entries are kept in increasing key order, so two boards with the same
/// cells and stacks are equal as values, whatever the order of insertion.
#[derive(Debug, Clone, PartialEq, Eq, PartialOrd, Ord, Hash)]
pub struct Board {
    entries: Vec<(Point, Piece)>,
}

impl View for Board {
    type V = Map<Point, Piece>;

    open spec fn view(&self) -> Map<Point, Piece> {
        Map::new(|p: Point| self.has(p), |p: Point| self.at(p))
    }
}

impl Board {
    /// The entries, in key order.
    pub closed spec fn entries_view(&self) -> Seq<(Point, Piece)> {
        self.entries@
    }

    pub open spec fn wf(&self) -> bool {
        sorted_keys(self.entries_view())
    }

    /// The number of occupied cells.
    pub open spec fn size(&self) -> nat {
        self.entries_view().len()
    }

    pub open spec fn has(&self, p: Point) -> bool {
        exists|i: int| 0 <= i < self.size() && #[trigger] self.entries_view()[i].0 == p
    }

    pub open spec fn at(&self, p: Point) -> Piece {
        self.entries_view()[choose|i: int|
            0 <= i < self.size() && #[trigger] self.entries_view()[i].0 == p].1
    }

    /// Each entry stands in the map view.
    pub proof fn lemma_entry(b: Board, i: int)
        requires
            b.wf(),
            0 <= i < b.size(),
        ensures
            b@.contains_key(b.entries_view()[i].0),
            b@[b.entries_view()[i].0] == b.entries_view()[i].1,
    {
        let s = b.entries_view();
        let p = s[i].0;
        assert(b.has(p));
        let j = choose|j: int| 0 <= j < b.size() && #[trigger] s[j].0 == p;
        if j < i {
            assert(point_lt(s[j].0, s[i].0));
        } else if i < j {
            assert(point_lt(s[i].0, s[j].0));
        }
    }

    /// Each occupied cell is the key of some entry.
    pub proof fn lemma_key(b: Board, p: Point) -> (i: int)
        requires
            b.wf(),
            b@.contains_key(p),
        ensures
            0 <= i < b.size(),
            b.entries_view()[i].0 == p,
            b@[p] == b.entries_view()[i].1,
    {
        let i = choose|i: int| 0 <= i < b.size() && #[trigger] b.entries_view()[i].0 == p;
        Board::lemma_entry(b, i);
        i
    }

    /// Every occupied cell is canonical and leaves `slack` steps of room
    /// before its coordinates overflow.
    pub open spec fn cells_ok(&self, slack: int) -> bool {
        forall|p: Point| #[trigger] self@.contains_key(p) ==> p.is_canonical() && roomy(p, slack)
    }

    /// The occupied cells, in key order.
    pub open spec fn keys(&self) -> Seq<Point> {
        self.entries_view().map_values(|e: (Point, Piece)| e.0)
    }

    /// The domain of the map view is finite and has one cell per entry.
    pub proof fn lemma_dom(b: Board)
        requires
            b.wf(),
        ensures
            b@.dom() == b.keys().to_set(),
            b@.dom().finite(),
            b@.dom().len() == b.size(),
    {
        let ks = b.keys();
        assert forall|p: Point| b@.dom().contains(p) <==> ks.to_set().contains(p) by {
            if b@.contains_key(p) {
                let i = Board::lemma_key(b, p);
                assert(ks[i] == p);
            }
            if ks.contains(p) {
                let i = choose|i: int| 0 <= i < ks.len() && ks[i] == p;
                Board::lemma_entry(b, i);
            }
        }
        assert(b@.dom() =~= ks.to_set());
        assert forall|i: int, j: int| 0 <= i < ks.len() && 0 <= j < ks.len() && i != j implies ks[i]
            != ks[j] by {
            if i < j {
                assert(point_lt(b.entries_view()[i].0, b.entries_view()[j].0));
            } else {
                assert(point_lt(b.entries_view()[j].0, b.entries_view()[i].0));
            }
        }
        ks.unique_seq_to_set();
    }

    /// Two well-formed boards with the same cells and stacks hold the same
    /// entries: the representation is canonical.
    pub proof fn lemma_canonical(b1: Board, b2: Board)
        requires
            b1.wf(),
            b2.wf(),
            b1@ == b2@,
        ensures
            b1.entries_view() == b2.entries_view(),
    {
        Board::lemma_dom(b1);
        Board::lemma_dom(b2);
        let s1 = b1.entries_view();
        let s2 = b2.entries_view();
        assert forall|i: int| 0 <= i < s1.len() implies s1[i] == s2[i] by {
            Board::lemma_same_prefix(b1, b2, i);
        }
        assert(s1 =~= s2);
    }

    proof fn lemma_same_prefix(b1: Board, b2: Board, i: int)
        requires
            b1.wf(),
            b2.wf(),
            b1@ == b2@,
            b1.size() == b2.size(),
            0 <= i < b1.size(),
        ensures
            forall|j: int| 0 <= j <= i ==> b1.entries_view()[j] == b2.entries_view()[j],
        decreases i,
    {
        let s1 = b1.entries_view();
        let s2 = b2.entries_view();
        if i > 0 {
            Board::lemma_same_prefix(b1, b2, i - 1);
        }
        let a = s1[i].0;
        let c = s2[i].0;
        Board::lemma_entry(b1, i);
        Board::lemma_entry(b2, i);
        let m = Board::lemma_key(b2, a);
        let n = Board::lemma_key(b1, c);
        if m < i {
            assert(s1[m] == s2[m]);
            assert(point_lt(s1[m].0, s1[i].0));
        }
        if n < i {
            assert(s1[n] == s2[n]);
            assert(point_lt(s2[n].0, s2[i].0));
        }
        if m > i {
            assert(point_lt(s2[i].0, s2[m].0));
        }
        if n > i {
            assert(point_lt(s1[i].0, s1[n].0));
        }
        assert(a == c);
    }

    /// Boards with the same entries have the same map view.
    pub proof fn lemma_same_view(b1: Board, b2: Board)
        requires
            b1.entries_view() == b2.entries_view(),
        ensures
            b1@ == b2@,
    {
        assert forall|p: Point| b1.has(p) == b2.has(p) && b1.at(p) == b2.at(p) by {}
        assert(b1@ =~= b2@);
    }

    pub fn new() -> (r: Board)
        ensures
            r.wf(),
            r@ == Map::<Point, Piece>::empty(),
            r.size() == 0,
    {
        let r = Board { entries: Vec::new() };
        assert(r@ =~= Map::<Point, Piece>::empty());
        r
    }

    pub fn len(&self) -> (r: usize)
        ensures
            r == self.size(),
    {
        self.entries.len()
    }

    pub fn is_empty(&self) -> (r: bool)
        ensures
            r == (self.size() == 0),
    {
        self.entries.len() == 0
    }

    /// The key of the `i`-th entry in key order.
    pub fn key_at(&self, i: usize) -> (r: Point)
        requires
            i < self.size(),
        ensures
            r == self.entries_view()[i as int].0,
    {
        self.entries[i].0
    }

    /// The stack of the `i`-th entry in key order.
    pub fn piece_at(&self, i: usize) -> (r: &Piece)
        requires
            i < self.size(),
        ensures
            *r == self.entries_view()[i as int].1,
    {
        &self.entries[i].1
    }

    fn find(&self, p: &Point) -> (r: Option<usize>)
        requires
            self.wf(),
        ensures
            match r {
                Some(i) => i < self.size() && self.entries_view()[i as int].0 == *p,
                None => !self@.contains_key(*p),
            },
    {
        let mut i: usize = 0;
        while i < self.entries.len()
            invariant
                i <= self.entries@.len(),
                forall|k: int| 0 <= k < i ==> #[trigger] self.entries@[k].0 != *p,
            decreases self.entries.len() - i,
        {
            if self.entries[i].0 == *p {
                return Some(i);
            }
            i = i + 1;
        }
        None
    }

    pub fn get(&self, p: &Point) -> (r: Option<&Piece>)
        requires
            self.wf(),
        ensures
            match r {
                Some(v) => self@.contains_key(*p) && *v == self@[*p],
                None => !self@.contains_key(*p),
            },
    {
        match self.find(p) {
            Some(i) => {
                proof {
                    Board::lemma_entry(*self, i as int);
                }
                Some(&self.entries[i].1)
            },
            None => None,
        }
    }

    pub fn contains_key(&self, p: &Point) -> (r: bool)
        requires
            self.wf(),
        ensures
            r == self@.contains_key(*p),
    {
        match self.find(p) {
            Some(i) => {
                proof {
                    Board::lemma_entry(*self, i as int);
                }
                true
            },
            None => false,
        }
    }

    /// Puts `piece` on `p`, replacing what stood there.
    pub fn insert(&mut self, p: Point, piece: Piece)
        requires
            old(self).wf(),
        ensures
            final(self).wf(),
            final(self)@ == old(self)@.insert(p, piece),
            final(self).size() == if old(self)@.contains_key(p) {
                old(self).size()
            } else {
                old(self).size() + 1
            },
    {
        let ghost ob: Board = *self;
        let mut i: usize = 0;
        while i < self.entries.len() && less(&self.entries[i].0, &p)
            invariant
                *self == ob,
                i <= self.entries@.len(),
                forall|k: int| 0 <= k < i ==> point_lt(#[trigger] self.entries@[k].0, p),
            decreases self.entries.len() - i,
        {
            i = i + 1;
        }
        let ghost s = ob.entries_view();
        if i < self.entries.len() && self.entries[i].0 == p {
            self.entries.set(i, (p, piece));
            proof {
                let ns = self.entries_view();
                assert(ns =~= s.update(i as int, (p, piece)));
                assert(self.wf());
                assert forall|q: Point| self@.contains_key(q) == ob@.insert(p, piece).contains_key(q)
                    by {
                    if ob@.contains_key(q) {
                        let j = Board::lemma_key(ob, q);
                        assert(ns[j].0 == q);
                    }
                    if self@.contains_key(q) {
                        let j = Board::lemma_key(*self, q);
                        assert(s[j].0 == q);
                        Board::lemma_entry(ob, j);
                    }
                }
                assert forall|q: Point| #[trigger] self@.contains_key(q) implies self@[q] == ob@.insert(
                    p,
                    piece,
                )[q] by {
                    let j = Board::lemma_key(*self, q);
                    if j != i {
                        Board::lemma_entry(ob, j);
                    }
                }
                assert(self@ =~= ob@.insert(p, piece));
            }
        } else {
            self.entries.insert(i, (p, piece));
            proof {
                let ns = self.entries_view();
                assert(ns =~= s.insert(i as int, (p, piece)));
                assert(!ob@.contains_key(p)) by {
                    if ob@.contains_key(p) {
                        let j = Board::lemma_key(ob, p);
                        if j >= i {
                            if j > i {
                                assert(point_lt(s[i as int].0, s[j].0));
                            }
                        }
                    }
                }
                assert forall|a: int, b: int| 0 <= a < b < ns.len() implies point_lt(
                    #[trigger] ns[a].0,
                    #[trigger] ns[b].0,
                ) by {
                    if b == i as int && a < i {
                    } else if a == i as int && i + 1 < ns.len() {
                        assert(!point_lt(s[i as int].0, p));
                        assert(s[i as int].0 != p);
                        if b > i as int + 1 {
                            assert(point_lt(s[i as int].0, s[b - 1].0));
                        }
                    } else if a < i && b > i {
                        assert(point_lt(s[a].0, p));
                        assert(!point_lt(s[i as int].0, p));
                        assert(s[i as int].0 != p);
                        if b > i as int + 1 {
                            assert(point_lt(s[i as int].0, s[b - 1].0));
                        }
                    }
                }
                assert(self.wf());
                assert forall|q: Point| self@.contains_key(q) == ob@.insert(p, piece).contains_key(q)
                    by {
                    if ob@.contains_key(q) {
                        let j = Board::lemma_key(ob, q);
                        if j < i {
                            assert(ns[j].0 == q);
                        } else {
                            assert(ns[j + 1].0 == q);
                        }
                    }
                    if q == p {
                        assert(ns[i as int].0 == q);
                    }
                    if self@.contains_key(q) {
                        let j = Board::lemma_key(*self, q);
                        if j < i {
                            Board::lemma_entry(ob, j);
                        } else if j > i {
                            Board::lemma_entry(ob, j - 1);
                        }
                    }
                }
                assert forall|q: Point| #[trigger] self@.contains_key(q) implies self@[q] == ob@.insert(
                    p,
                    piece,
                )[q] by {
                    let j = Board::lemma_key(*self, q);
                    if j < i {
                        Board::lemma_entry(ob, j);
                    } else if j > i {
                        Board::lemma_entry(ob, j - 1);
                    }
                }
                assert(self@ =~= ob@.insert(p, piece));
            }
        }
    }

    /// Takes the stack off `p`, if any.
    pub fn remove(&mut self, p: &Point) -> (r: Option<Piece>)
        requires
            old(self).wf(),
        ensures
            final(self).wf(),
            final(self)@ == old(self)@.remove(*p),
            r == if old(self)@.contains_key(*p) {
                Some(old(self)@[*p])
            } else {
                None::<Piece>
            },
            final(self).size() == if old(self)@.contains_key(*p) {
                old(self).size() - 1
            } else {
                old(self).size() as int
            },
    {
        let ghost ob: Board = *self;
        match self.find(p) {
            None => {
                assert(self@ =~= ob@.remove(*p));
                None
            },
            Some(i) => {
                let ghost s = ob.entries_view();
                let e = self.entries.remove(i);
                proof {
                    Board::lemma_entry(ob, i as int);
                    let ns = self.entries_view();
                    assert(ns =~= s.remove(i as int));
                    assert forall|a: int, b: int| 0 <= a < b < ns.len() implies point_lt(
                        #[trigger] ns[a].0,
                        #[trigger] ns[b].0,
                    ) by {
                        if a < i && b >= i {
                            assert(point_lt(s[a].0, s[b + 1].0));
                        } else if a >= i {
                            assert(point_lt(s[a + 1].0, s[b + 1].0));
                        }
                    }
                    assert(self.wf());
                    assert forall|q: Point| self@.contains_key(q) == ob@.remove(*p).contains_key(q)
                        by {
                        if ob@.contains_key(q) && q != *p {
                            let j = Board::lemma_key(ob, q);
                            if j < i {
                                assert(ns[j].0 == q);
                            } else {
                                assert(ns[j - 1].0 == q);
                            }
                        }
                        if self@.contains_key(q) {
                            let j = Board::lemma_key(*self, q);
                            if j < i {
                                Board::lemma_entry(ob, j);
                                assert(point_lt(s[j].0, s[i as int].0));
                            } else {
                                Board::lemma_entry(ob, j + 1);
                                assert(point_lt(s[i as int].0, s[j + 1].0));
                            }
                        }
                    }
                    assert forall|q: Point| #[trigger] self@.contains_key(q) implies self@[q]
                        == ob@.remove(*p)[q] by {
                        let j = Board::lemma_key(*self, q);
                        if j < i {
                            Board::lemma_entry(ob, j);
                        } else {
                            Board::lemma_entry(ob, j + 1);
                        }
                    }
                    assert(self@ =~= ob@.remove(*p));
                }
                Some(e.1)
            },
        }
    }

    /// A copy of the board.
    pub fn duplicate(&self) -> (r: Board)
        ensures
            r.entries_view() == self.entries_view(),
            r@ == self@,
    {
        let mut v: Vec<(Point, Piece)> = Vec::new();
        let mut i: usize = 0;
        while i < self.entries.len()
            invariant
                i <= self.entries@.len(),
                v@ == self.entries@.take(i as int),
            decreases self.entries.len() - i,
        {
            v.push((self.entries[i].0, self.entries[i].1.duplicate()));
            i = i + 1;
            assert(v@ =~= self.entries@.take(i as int));
        }
        assert(v@ =~= self.entries@);
        let r = Board { entries: v };
        assert(r.entries_view() == self.entries_view());
        assert(r.size() == self.size());
        assert forall|p: Point| r.has(p) == self.has(p) && r.at(p) == self.at(p) by {}
        assert(r@ =~= self@);
        r
    }

    /// Whether two boards hold the same entries.
    pub fn same(&self, other: &Board) -> (r: bool)
        ensures
            r == (self.entries_view() == other.entries_view()),
    {
        if self.entries.len() != other.entries.len() {
            return false;
        }
        let mut i: usize = 0;
        while i < self.entries.len()
            invariant
                i <= self.entries@.len(),
                self.entries@.len() == other.entries@.len(),
                self.entries@.take(i as int) == other.entries@.take(i as int),
            decreases self.entries.len() - i,
        {
            if self.entries[i].0 != other.entries[i].0 || !self.entries[i].1.same(
                &other.entries[i].1,
            ) {
                assert(self.entries@[i as int] != other.entries@[i as int]);
                return false;
            }
            i = i + 1;
            assert(self.entries@.take(i as int) =~= self.entries@.take(i as int - 1).push(
                self.entries@[i as int - 1],
            ));
            assert(other.entries@.take(i as int) =~= other.entries@.take(i as int - 1).push(
                other.entries@[i as int - 1],
            ));
        }
        assert(self.entries@ =~= self.entries@.take(i as int));
        assert(other.entries@ =~= other.entries@.take(i as int));
        true
    }
}

impl Default for Board {
    fn default() -> (r: Board)
        ensures
            r.wf(),
            r@ == Map::<Point, Piece>::empty(),
    {
        Board::new()
    }
}

} // verus!
