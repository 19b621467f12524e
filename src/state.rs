use crate::board::Board;
use crate::piece::{Piece, Pieces, Player};
use crate::point::{lemma_first_occurrences, roomy, Point};
use vstd::prelude::*;
use vstd::set_lib::*;

verus! {

/// `s` holds, with each of its cells, every occupied neighbour of it.
pub open spec fn closed_in(b: Map<Point, Piece>, s: Set<Point>) -> bool {
    forall|x: Point, i: int|
        #![trigger s.contains(x), x.nb(i)]
        s.contains(x) && 0 <= i < 6 && b.contains_key(x.nb(i)) ==> s.contains(x.nb(i))
}

/// `q` lies in every closed set that holds `start`: it is reached from
/// `start` through occupied cells.
pub open spec fn in_all_closed(b: Map<Point, Piece>, start: Point, q: Point) -> bool {
    forall|s: Set<Point>| #![trigger closed_in(b, s)] closed_in(b, s) && s.contains(start) ==> s.contains(q)
}

/// `start` together with the occupied cells reached from it.
pub open spec fn component(b: Map<Point, Piece>, start: Point) -> Set<Point> {
    Set::new(|q: Point| q == start || (b.contains_key(q) && in_all_closed(b, start, q)))
}

/// `q` is a neighbour of some occupied cell.
pub open spec fn touches(b: Board, q: Point) -> bool {
    exists|k: Point, j: int| b@.contains_key(k) && 0 <= j < 6 && #[trigger] k.nb(j) == q
}

pub fn contains_point(v: &Vec<Point>, p: Point) -> (r: bool)
    ensures
        r == v@.contains(p),
{
    let mut i: usize = 0;
    while i < v.len()
        invariant
            i <= v@.len(),
            forall|k: int| 0 <= k < i ==> v@[k] != p,
        decreases v.len() - i,
    {
        if v[i] == p {
            return true;
        }
        i = i + 1;
    }
    false
}

pub proof fn lemma_push_contains(s: Seq<Point>, x: Point)
    ensures
        forall|q: Point| #[trigger] s.push(x).contains(q) <==> s.contains(q) || q == x,
{
    assert forall|q: Point| #[trigger] s.push(x).contains(q) <==> s.contains(q) || q == x by {
        let t = s.push(x);
        if t.contains(q) {
            let m = choose|m: int| 0 <= m < t.len() && t[m] == q;
            if m < s.len() {
                assert(s[m] == q);
            }
        }
        if s.contains(q) {
            let m = choose|m: int| 0 <= m < s.len() && s[m] == q;
            assert(t[m] == q);
        }
        if q == x {
            assert(t[s.len() as int] == q);
        }
    }
}

/// A repeat-free sequence of cells that are occupied or `start` is no
/// longer than the board plus one.
proof fn lemma_bounded(b: Board, start: Point, v: Seq<Point>)
    requires
        b.wf(),
        v.no_duplicates(),
        forall|k: int| 0 <= k < v.len() ==> #[trigger] v[k] == start || b@.contains_key(v[k]),
    ensures
        v.len() <= b.size() + 1,
{
    Board::lemma_dom(b);
    v.unique_seq_to_set();
    let d = b@.dom().insert(start);
    assert(v.to_set().subset_of(d)) by {
        assert forall|q: Point| v.to_set().contains(q) implies d.contains(q) by {
            let k = choose|k: int| 0 <= k < v.len() && v[k] == q;
        }
    }
    lemma_len_subset(v.to_set(), d);
}

/// A game position: whose turn it is, the queens, the unplaced pieces and
/// the board.
#[derive(Debug, Clone, PartialEq, Eq, PartialOrd, Ord, Hash)]
pub struct State {
    pub turn: usize,
    pub active: Player,
    pub p1_queen: Option<Point>,
    pub p2_queen: Option<Point>,
    pub unplaced: Pieces,
    pub board: Board,
}

impl State {
    /// The same position: equal fields, bags compared as sequences.
    pub open spec fn eqv(self, o: State) -> bool {
        &&& self.turn == o.turn
        &&& self.active == o.active
        &&& self.p1_queen == o.p1_queen
        &&& self.p2_queen == o.p2_queen
        &&& self.unplaced.eqv(o.unplaced)
        &&& self.board.entries_view() == o.board.entries_view()
    }

    /// The smallest occupied cell, where the connectivity check starts.
    pub open spec fn first_cell(self) -> Point {
        self.board.entries_view()[0].0
    }

    /// Every occupied cell is reached from the first one.
    pub open spec fn connected(self) -> bool {
        self.board.size() == 0 || forall|q: Point|
            #[trigger] self.board@.contains_key(q) ==> in_all_closed(self.board@, self.first_cell(), q)
    }

    /// The queen deadline: from turn 5 on both queens stand on the board; on
    /// turn 4, with the second player to move, the first player's does.
    pub open spec fn queens_ok(self) -> bool {
        if self.turn >= 5 {
            self.p1_queen.is_some() && self.p2_queen.is_some()
        } else if self.turn == 4 {
            !(self.active == Player::P2 && self.p1_queen.is_none())
        } else {
            true
        }
    }

    pub open spec fn legal(self) -> bool {
        self.connected() && self.queens_ok()
    }

    /// A cell where the player to move may place a piece: empty, next to the
    /// hive, and next to no piece of the opponent.
    pub open spec fn placeable(self, q: Point) -> bool {
        &&& !self.board@.contains_key(q)
        &&& touches(self.board, q)
        &&& forall|i: int|
            0 <= i < 6 && #[trigger] self.board@.contains_key(q.nb(i)) ==> self.board@[q.nb(
                i,
            )].owner() == self.active
    }

    /// The position after the player to move has played: `queen` is where
    /// that player's queen was placed, if it was; `unplaced` the new bags, if
    /// they changed.
    pub open spec fn after(self, queen: Option<Point>, unplaced: Option<Pieces>, board: Board) -> State {
        State {
            turn: if self.active == Player::P2 {
                (self.turn + 1) as usize
            } else {
                self.turn
            },
            active: self.active.other(),
            p1_queen: if self.active == Player::P1 && queen.is_some() {
                queen
            } else {
                self.p1_queen
            },
            p2_queen: if self.active == Player::P2 && queen.is_some() {
                queen
            } else {
                self.p2_queen
            },
            unplaced: match unplaced {
                Some(u) => u,
                None => self.unplaced,
            },
            board,
        }
    }

    pub fn new(
        turn: Option<usize>,
        active: Player,
        p1_queen: Option<Point>,
        p2_queen: Option<Point>,
        unplaced: Pieces,
        board: Board,
    ) -> (r: Self)
        ensures
            r.turn == match turn {
                Some(t) => t,
                None => 0,
            },
            r.active == active,
            r.p1_queen == p1_queen,
            r.p2_queen == p2_queen,
            r.unplaced == unplaced,
            r.board == board,
    {
        State {
            turn: match turn {
                Some(t) => t,
                None => 0,
            },
            active,
            p1_queen,
            p2_queen,
            unplaced,
            board,
        }
    }

    pub fn next_turn(&self, queen: Option<Point>, unplaced: Option<Pieces>, board: Board) -> (r: Self)
        requires
            self.active == Player::P2 ==> self.turn < usize::MAX,
        ensures
            r.eqv(self.after(queen, unplaced, board)),
            r.board == board,
    {
        State {
            turn: if self.active == Player::P2 {
                self.turn + 1
            } else {
                self.turn
            },
            active: self.active.opponent(),
            p1_queen: if self.active == Player::P1 && queen.is_some() {
                queen
            } else {
                self.p1_queen
            },
            p2_queen: if self.active == Player::P2 && queen.is_some() {
                queen
            } else {
                self.p2_queen
            },
            unplaced: match unplaced {
                Some(u) => u,
                None => self.unplaced.duplicate(),
            },
            board,
        }
    }

    /// Whether two states are the same position.
    pub fn same(&self, o: &State) -> (r: bool)
        ensures
            r == self.eqv(*o),
    {
        self.turn == o.turn && self.active == o.active && self.p1_queen == o.p1_queen
            && self.p2_queen == o.p2_queen && self.unplaced.same(&o.unplaced) && self.board.same(
            &o.board,
        )
    }

    /// The cells where the player to move may place a piece.
    pub fn placeable_points(&self) -> (r: Vec<Point>)
        requires
            self.board.wf(),
            self.board.cells_ok(2),
        ensures
            r@.no_duplicates(),
            forall|q: Point| r@.contains(q) <==> self.placeable(q),
    {
        let mut raw: Vec<Point> = Vec::new();
        let mut i: usize = 0;
        while i < self.board.len()
            invariant
                i <= self.board.size(),
                self.board.wf(),
                self.board.cells_ok(2),
                forall|q: Point| raw@.contains(q) ==> self.placeable(q),
                forall|m: int, j: int|
                    0 <= m < i && 0 <= j < 6 && self.placeable(
                        #[trigger] self.board.entries_view()[m].0.nb(j),
                    ) ==> raw@.contains(self.board.entries_view()[m].0.nb(j)),
            decreases self.board.size() - i,
        {
            let k = self.board.key_at(i);
            proof {
                Board::lemma_entry(self.board, i as int);
            }
            let mut j: usize = 0;
            while j < 6
                invariant
                    i < self.board.size(),
                    k == self.board.entries_view()[i as int].0,
                    self.board@.contains_key(k),
                    j <= 6,
                    self.board.wf(),
                    self.board.cells_ok(2),
                    forall|q: Point| raw@.contains(q) ==> self.placeable(q),
                    forall|m: int, j2: int|
                        0 <= m < i && 0 <= j2 < 6 && self.placeable(
                            #[trigger] self.board.entries_view()[m].0.nb(j2),
                        ) ==> raw@.contains(self.board.entries_view()[m].0.nb(j2)),
                    forall|j2: int| 0 <= j2 < j && self.placeable(#[trigger] k.nb(j2)) ==> raw@.contains(k.nb(j2)),
                decreases 6 - j,
            {
                let q = k.step(j);
                let ok = self.free_for_active(&q);
                proof {
                    assert(touches(self.board, q));
                }
                if ok {
                    proof {
                        lemma_push_contains(raw@, q);
                    }
                    raw.push(q);
                }
                j = j + 1;
            }
            i = i + 1;
        }
        let r = crate::point::unique_cells(raw);
        proof {
            lemma_first_occurrences(raw@);
            assert forall|q: Point| self.placeable(q) implies raw@.contains(q) by {
                let (k, j) = choose|k: Point, j: int| self.board@.contains_key(k) && 0 <= j < 6 && #[trigger] k.nb(j) == q;
                let m = Board::lemma_key(self.board, k);
                assert(self.board.entries_view()[m].0.nb(j) == q);
            }
        }
        r
    }

    /// `q` is empty and none of its occupied neighbours is the opponent's.
    fn free_for_active(&self, q: &Point) -> (r: bool)
        requires
            self.board.wf(),
            q.is_canonical(),
            roomy(*q, 1),
        ensures
            r == (!self.board@.contains_key(*q) && forall|i: int|
                0 <= i < 6 && #[trigger] self.board@.contains_key(q.nb(i)) ==> self.board@[q.nb(
                    i,
                )].owner() == self.active),
    {
        if self.board.contains_key(q) {
            return false;
        }
        let mut i: usize = 0;
        while i < 6
            invariant
                i <= 6,
                self.board.wf(),
                q.is_canonical(),
                roomy(*q, 1),
                forall|i2: int|
                    0 <= i2 < i && #[trigger] self.board@.contains_key(q.nb(i2)) ==> self.board@[q.nb(
                        i2,
                    )].owner() == self.active,
            decreases 6 - i,
        {
            let n = q.step(i);
            match self.board.get(&n) {
                Some(piece) => {
                    if piece.player() != self.active {
                        return false;
                    }
                },
                None => {},
            }
            i = i + 1;
        }
        true
    }
}

impl State {
    /// The number of cells reached from `point` through occupied cells,
    /// `point` included; 0 without a start.
    pub fn component_size(&self, point: Option<Point>) -> (r: usize)
        requires
            self.board.wf(),
            self.board.cells_ok(1),
            point matches Some(p) ==> p.is_canonical() && roomy(p, 1),
        ensures
            match point {
                None => r == 0,
                Some(p) => r == component(self.board@, p).len() && component(self.board@, p).finite(),
            },
    {
        let start = match point {
            None => {
                return 0;
            },
            Some(p) => p,
        };
        let ghost b = self.board@;
        let mut visited: Vec<Point> = Vec::new();
        visited.push(start);
        let mut head: usize = 0;
        while head < visited.len()
            invariant
                self.board.wf(),
                self.board.cells_ok(1),
                b == self.board@,
                start.is_canonical() && roomy(start, 1),
                1 <= visited@.len() <= self.board.size() + 1,
                visited@[0] == start,
                head <= visited@.len(),
                visited@.no_duplicates(),
                forall|k: int|
                    0 <= k < visited@.len() ==> #[trigger] visited@[k] == start || (b.contains_key(
                        visited@[k],
                    ) && in_all_closed(b, start, visited@[k])),
                forall|k: int, i: int|
                    0 <= k < head && 0 <= i < 6 && b.contains_key(#[trigger] visited@[k].nb(i))
                        ==> visited@.contains(visited@[k].nb(i)),
            decreases self.board.size() + 1 - head,
        {
            let x = visited[head];
            let ghost xi = head as int;
            let mut j: usize = 0;
            while j < 6
                invariant
                    self.board.wf(),
                    self.board.cells_ok(1),
                    b == self.board@,
                    start.is_canonical() && roomy(start, 1),
                    x == visited@[xi],
                    xi == head,
                    head < visited@.len() <= self.board.size() + 1,
                    visited@[0] == start,
                    x.is_canonical() && roomy(x, 1),
                    j <= 6,
                    visited@.no_duplicates(),
                    forall|k: int|
                        0 <= k < visited@.len() ==> #[trigger] visited@[k] == start || (
                        b.contains_key(visited@[k]) && in_all_closed(b, start, visited@[k])),
                    forall|k: int, i: int|
                        0 <= k < head && 0 <= i < 6 && b.contains_key(#[trigger] visited@[k].nb(i))
                            ==> visited@.contains(visited@[k].nb(i)),
                    forall|i: int|
                        0 <= i < j && b.contains_key(#[trigger] x.nb(i)) ==> visited@.contains(x.nb(i)),
                decreases 6 - j,
            {
                let n = x.step(j);
                if self.board.contains_key(&n) && !contains_point(&visited, n) {
                    proof {
                        assert(visited@[xi] == x);
                        assert(in_all_closed(b, start, n)) by {
                            assert forall|s: Set<Point>| #[trigger] closed_in(b, s) && s.contains(start) implies s.contains(n) by {
                                assert(s.contains(x));
                                assert(s.contains(x) && 0 <= j < 6 && b.contains_key(x.nb(j as int)));
                            }
                        }
                        lemma_push_contains(visited@, n);
                        let nv = visited@.push(n);
                        assert forall|k: int| 0 <= k < nv.len() implies #[trigger] nv[k] == start || (
                        b.contains_key(nv[k]) && in_all_closed(b, start, nv[k])) by {
                            if k < visited@.len() {
                                assert(nv[k] == visited@[k]);
                            }
                        }
                        lemma_bounded(self.board, start, nv);
                    }
                    visited.push(n);
                    proof {
                        assert forall|k: int, i: int|
                            0 <= k < head && 0 <= i < 6 && b.contains_key(#[trigger] visited@[k].nb(i))
                                ==> visited@.contains(visited@[k].nb(i)) by {
                            if 0 <= k < head && 0 <= i < 6 && b.contains_key(visited@[k].nb(i)) {
                                assert(visited@[k] == visited@.drop_last()[k]);
                            }
                        }
                    }
                }
                j = j + 1;
            }
            head = head + 1;
            proof {
                assert forall|k: int, i: int|
                    0 <= k < head && 0 <= i < 6 && b.contains_key(#[trigger] visited@[k].nb(i))
                        ==> visited@.contains(visited@[k].nb(i)) by {
                    if k == xi {
                    }
                }
                if head < visited@.len() {
                    let y = visited@[head as int];
                    if y != start {
                        assert(b.contains_key(y));
                    }
                }
            }
        }
        proof {
            let v = visited@;
            let vs = v.to_set();
            assert(closed_in(b, vs)) by {
                assert forall|x: Point, i: int|
                    #![trigger vs.contains(x), x.nb(i)]
                    vs.contains(x) && 0 <= i < 6 && b.contains_key(x.nb(i)) implies vs.contains(x.nb(i)) by {
                    let k = choose|k: int| 0 <= k < v.len() && v[k] == x;
                    assert(b.contains_key(v[k].nb(i)));
                }
            }
            assert(vs.contains(start)) by {
                assert(v[0] == start);
            }
            assert forall|q: Point| component(b, start).contains(q) <==> vs.contains(q) by {
                if vs.contains(q) {
                    let k = choose|k: int| 0 <= k < v.len() && v[k] == q;
                    assert(v[k] == start || (b.contains_key(v[k]) && in_all_closed(b, start, v[k])));
                }
                if component(b, start).contains(q) && q != start {
                    assert(in_all_closed(b, start, q));
                    assert(closed_in(b, vs) && vs.contains(start));
                }
            }
            assert(component(b, start) =~= vs);
            v.unique_seq_to_set();
        }
        visited.len()
    }

    /// The position is legal: the hive is connected and the queen deadline
    /// is met.
    pub fn validate(&self) -> (r: bool)
        requires
            self.board.wf(),
            self.board.cells_ok(1),
        ensures
            r == self.legal(),
    {
        let start = if self.board.is_empty() {
            None
        } else {
            Some(self.board.key_at(0))
        };
        proof {
            if self.board.size() > 0 {
                Board::lemma_entry(self.board, 0);
            }
        }
        let size = self.component_size(start);
        let connected = size == self.board.len();
        proof {
            if self.board.size() > 0 {
                let b = self.board@;
                let st = self.first_cell();
                let c = component(b, st);
                Board::lemma_dom(self.board);
                assert(c.subset_of(b.dom()));
                if connected {
                    lemma_subset_equality(c, b.dom());
                    assert forall|q: Point| #[trigger] b.contains_key(q) implies in_all_closed(b, st, q) by {
                        assert(c.contains(q));
                    }
                }
                if self.connected() {
                    assert(b.dom().subset_of(c));
                    assert(c =~= b.dom());
                }
            }
        }
        let queens = if self.turn >= 5 {
            self.p1_queen.is_some() && self.p2_queen.is_some()
        } else if self.turn == 4 {
            !(self.active == Player::P2 && self.p1_queen.is_none())
        } else {
            true
        };
        connected && queens
    }
}

impl Default for State {
    fn default() -> (r: State)
        ensures
            r.turn == 0,
            r.active == Player::P1,
            r.p1_queen.is_none(),
            r.p2_queen.is_none(),
            r.unplaced.p1@ == crate::piece::initial_bag(Player::P1),
            r.unplaced.p2@ == crate::piece::initial_bag(Player::P2),
            r.board.wf(),
            r.board@ == Map::<Point, Piece>::empty(),
            r.board.size() == 0,
    {
        State {
            turn: 0,
            active: Player::P1,
            p1_queen: None,
            p2_queen: None,
            unplaced: Pieces::new(),
            board: Board::new(),
        }
    }
}

} // verus!
