use crate::board::Board;
use crate::piece::{Piece, Player};
use crate::point::{back_of, lemma_back_of, roomy, Point};
use vstd::arithmetic::div_mod::lemma_fundamental_div_mod_converse;
use vstd::set_lib::lemma_len_subset;
use crate::state::{contains_point, lemma_push_contains, State};
use vstd::prelude::*;

verus! {

/// The cell of a player's first placement, on a board with at most one
/// piece: the origin for the first player, its `+z` neighbour for the second.
pub open spec fn opening_cell(p: Player) -> Point {
    match p {
        Player::P1 => Point { x: 0, y: 0, z: 0 },
        Player::P2 => Point { x: 0, y: 0, z: 1 },
    }
}

/// `cs` holds a state that is the same position as `s`.
pub open spec fn offered(cs: Seq<State>, s: State) -> bool {
    exists|k: int| 0 <= k < cs.len() && #[trigger] cs[k].matches(s)
}

proof fn lemma_offered_grows(a: Seq<State>, b: Seq<State>)
    requires
        a.len() <= b.len(),
        b.take(a.len() as int) == a,
    ensures
        forall|s: State| offered(a, s) ==> #[trigger] offered(b, s),
{
    assert forall|s: State| offered(a, s) implies #[trigger] offered(b, s) by {
        let k = choose|k: int| 0 <= k < a.len() && #[trigger] a[k].matches(s);
        assert(b[k] == b.take(a.len() as int)[k]);
    }
}

/// Some neighbour of `q` is occupied.
pub open spec fn hugs(b: Board, q: Point) -> bool {
    exists|j: int| 0 <= j < 6 && #[trigger] b@.contains_key(q.nb(j))
}

/// Every cell with an occupied neighbour, with repeats: twelve entries for
/// each occupied cell.
pub open spec fn hug_list(b: Board) -> Seq<Point> {
    Seq::new(12 * b.size(), |m: int| back_of(b.keys()[m / 12], (m % 12) / 2, m % 2))
}

proof fn lemma_hug_listed(b: Board, q: Point)
    requires
        b.wf(),
        q.is_canonical(),
        roomy(q, 1),
        hugs(b, q),
    ensures
        hug_list(b).contains(q),
{
    let j = choose|j: int| 0 <= j < 6 && #[trigger] b@.contains_key(q.nb(j));
    let a = lemma_back_of(q, j);
    let i = Board::lemma_key(b, q.nb(j));
    let r = 2 * j + a;
    let m = 12 * i + r;
    lemma_fundamental_div_mod_converse(m, 12, i, r);
    lemma_fundamental_div_mod_converse(r, 2, j, a);
    assert(0 <= m < 12 * b.size()) by (nonlinear_arith)
        requires
            0 <= i < b.size(),
            0 <= r < 12,
            m == 12 * i + r,
    ;
    assert(b.keys()[i] == q.nb(j));
    assert(hug_list(b)[m] == q);
}

/// A repeat-free list of cells, each `from` or a cell with an occupied
/// neighbour, has at most twelve entries per occupied cell, plus one.
proof fn lemma_visit_bound(b: Board, from: Point, v: Seq<Point>)
    requires
        b.wf(),
        v.no_duplicates(),
        forall|k: int|
            0 <= k < v.len() ==> #[trigger] v[k] == from || (v[k].is_canonical() && roomy(v[k], 1)
                && hugs(b, v[k])),
    ensures
        v.len() <= 12 * b.size() + 1,
{
    let h = hug_list(b);
    h.lemma_cardinality_of_set();
    v.unique_seq_to_set();
    let d = h.to_set().insert(from);
    assert forall|q: Point| v.to_set().contains(q) implies d.contains(q) by {
        let k = choose|k: int| 0 <= k < v.len() && v[k] == q;
        if q != from {
            lemma_hug_listed(b, q);
        }
    }
    assert(v.to_set().subset_of(d));
    lemma_len_subset(v.to_set(), d);
}

/// The cell `n` steps from `p` along direction `i`.
pub open spec fn ray(p: Point, i: int, n: nat) -> Point
    decreases n,
{
    if n == 0 {
        p
    } else {
        ray(p, i, (n - 1) as nat).nb(i)
    }
}

impl State {
    /// The queen on `from` slides to `to`.
    pub open spec fn queen_step(self, from: Point, to: Point) -> bool {
        &&& self.own_cell(from)
        &&& self.board@[from] is Queen
        &&& from.can_slide(self.board@, to)
    }

    /// Along direction `i` from `from`, one or more occupied cells come
    /// first and `to` is the first empty cell after them.
    pub open spec fn jump_dir(self, from: Point, to: Point, i: int) -> bool {
        exists|n: nat|
            2 <= n && #[trigger] ray(from, i, n) == to && !self.board@.contains_key(to) && forall|m: nat|
                1 <= m < n ==> self.board@.contains_key(#[trigger] ray(from, i, m))
    }

    /// The grasshopper on `from` jumps over a line of pieces to `to`.
    pub open spec fn jump(self, from: Point, to: Point) -> bool {
        &&& self.own_cell(from)
        &&& self.board@[from] is Grasshopper
        &&& exists|i: int| 0 <= i < 6 && #[trigger] self.jump_dir(from, to, i)
    }

    /// The ant or spider on `from` ends its crawl on the empty cell `to`.
    pub open spec fn crawl(self, from: Point, to: Point) -> bool {
        &&& self.own_cell(from)
        &&& to != from
        &&& !self.board@.contains_key(to)
        &&& (self.board@[from] is Ant && self.ant_reach(from, to) || self.board@[from] is Spider
            && self.spider_reach(from, to))
    }

    /// The board after the beetle on `from` climbs to its neighbour `to`: it
    /// carries what stood on `to` and leaves what it carried on `from`.
    pub open spec fn climbed_board(self, from: Point, to: Point) -> Map<Point, Piece> {
        let b = self.board@;
        match b[from] {
            Piece::Beetle(pl, under) => {
                let carried = if b.contains_key(to) {
                    Some(Box::new(b[to]))
                } else {
                    None
                };
                let moved = b.remove(from).insert(to, Piece::Beetle(pl, carried));
                match under {
                    Some(u) => moved.insert(from, *u),
                    None => moved,
                }
            },
            _ => b,
        }
    }

    /// `s` is this state after the beetle on `from` went to its neighbour `to`.
    pub open spec fn climbed_as(self, s: State, from: Point, to: Point) -> bool {
        &&& self.own_cell(from)
        &&& self.board@[from] is Beetle
        &&& exists|i: int| 0 <= i < 6 && #[trigger] from.nb(i) == to
        &&& s.board@ == self.climbed_board(from, to)
        &&& s.unplaced.eqv(self.unplaced)
        &&& self.follows(s, None)
    }

    /// `s` is this state after the mover moved the piece on `from` to `to`.
    pub open spec fn moved_as(self, s: State, from: Point, to: Point) -> bool {
        ||| (self.queen_step(from, to) || self.jump(from, to) || self.crawl(from, to)) && self.shifted_as(
            s,
            from,
            to,
        )
        ||| self.climbed_as(s, from, to)
    }

    pub open spec fn is_movement(self, s: State) -> bool {
        exists|from: Point, to: Point| #[trigger] self.moved_as(s, from, to)
    }

    /// The same position, boards compared through their map views.
    pub open spec fn matches(self, o: State) -> bool {
        &&& self.turn == o.turn
        &&& self.active == o.active
        &&& self.p1_queen == o.p1_queen
        &&& self.p2_queen == o.p2_queen
        &&& self.unplaced.eqv(o.unplaced)
        &&& self.board@ == o.board@
    }

    /// The unplaced pieces of the player to move.
    pub open spec fn bag(self) -> Seq<Piece> {
        self.unplaced.of(self.active)
    }

    /// A cell where the player to move may place a piece now.
    pub open spec fn placement_cell(self, q: Point) -> bool {
        if self.board.size() <= 1 {
            q == opening_cell(self.active) && !self.board@.contains_key(q)
        } else {
            self.placeable(q)
        }
    }

    /// `s` has the turn counter, the player to move and the queens that
    /// follow this state, where `queen` is the cell that the mover's queen
    /// reached this ply, if it moved or was placed.
    pub open spec fn follows(self, s: State, queen: Option<Point>) -> bool {
        let a = self.after(queen, None, s.board);
        &&& s.turn == a.turn
        &&& s.active == a.active
        &&& s.p1_queen == a.p1_queen
        &&& s.p2_queen == a.p2_queen
    }

    /// `s` is this state after the mover placed the `idx`-th unplaced piece
    /// on `q`.
    pub open spec fn placed_as(self, s: State, idx: int, q: Point) -> bool {
        let piece = self.bag()[idx];
        &&& s.board@ == self.board@.insert(q, piece)
        &&& s.unplaced.of(self.active) == self.bag().remove(idx)
        &&& s.unplaced.of(self.active.other()) == self.unplaced.of(self.active.other())
        &&& self.follows(
            s,
            if piece is Queen {
                Some(q)
            } else {
                None
            },
        )
    }

    pub open spec fn is_placement(self, s: State) -> bool {
        exists|idx: int, q: Point|
            0 <= idx < self.bag().len() && self.placement_cell(q) && #[trigger] self.placed_as(s, idx, q)
    }

    /// `from` holds a piece of the player to move.
    pub open spec fn own_cell(self, from: Point) -> bool {
        self.board@.contains_key(from) && self.board@[from].owner() == self.active
    }

    /// `s` is this state after the piece on `from` went, alone, to `to`.
    pub open spec fn shifted_as(self, s: State, from: Point, to: Point) -> bool {
        let piece = self.board@[from];
        &&& s.board@ == self.board@.remove(from).insert(to, piece)
        &&& s.unplaced.eqv(self.unplaced)
        &&& self.follows(
            s,
            if piece is Queen {
                Some(to)
            } else {
                None
            },
        )
    }

    /// A placement candidate is the same position as any other state placed
    /// the same way.
    proof fn lemma_placed_matches(self, a: State, b: State, idx: int, q: Point)
        requires
            self.placed_as(a, idx, q),
            self.placed_as(b, idx, q),
        ensures
            a.matches(b),
    {
        if self.active == Player::P1 {
            assert(a.unplaced.p1@ == b.unplaced.p1@ && a.unplaced.p2@ == b.unplaced.p2@);
        } else {
            assert(a.unplaced.p1@ == b.unplaced.p1@ && a.unplaced.p2@ == b.unplaced.p2@);
        }
    }

    /// What a successor of this state must satisfy to be a candidate.
    pub open spec fn candidate(self, c: State) -> bool {
        &&& c.board.wf()
        &&& c.board.cells_ok(1)
        &&& (self.is_placement(c) || self.is_movement(c))
    }

    /// The cells where the player to move may place a piece now.
    fn placement_cells(&self) -> (r: Vec<Point>)
        requires
            self.board.wf(),
            self.board.cells_ok(2),
        ensures
            forall|q: Point| r@.contains(q) <==> self.placement_cell(q),
            forall|q: Point| r@.contains(q) ==> q.is_canonical() && roomy(q, 1),
    {
        if self.board.len() <= 1 {
            let q = match self.active {
                Player::P1 => Point { x: 0, y: 0, z: 0 },
                Player::P2 => Point { x: 0, y: 0, z: 1 },
            };
            let mut r: Vec<Point> = Vec::new();
            if !self.board.contains_key(&q) {
                r.push(q);
            }
            proof {
                assert forall|p: Point| r@.contains(p) <==> self.placement_cell(p) by {
                    if r@.len() == 1 {
                        assert(r@[0] == q);
                    }
                }
            }
            r
        } else {
            let r = self.placeable_points();
            proof {
                assert forall|q: Point| r@.contains(q) implies q.is_canonical() && roomy(q, 1) by {
                    assert(self.placeable(q));
                    let (k, j) = choose|k: Point, j: int|
                        self.board@.contains_key(k) && 0 <= j < 6 && #[trigger] k.nb(j) == q;
                    crate::point::lemma_nb_room(k, j, 1);
                }
            }
            r
        }
    }

    /// Adds to `cands` every placement of an unplaced piece of the mover.
    fn add_placements(&self, cands: &mut Vec<State>)
        requires
            self.board.wf(),
            self.board.cells_ok(3),
            self.turn < usize::MAX,
            forall|k: int| 0 <= k < old(cands)@.len() ==> self.candidate(#[trigger] old(cands)@[k]),
        ensures
            old(cands)@.len() <= final(cands)@.len(),
            final(cands)@.take(old(cands)@.len() as int) == old(cands)@,
            forall|k: int| 0 <= k < final(cands)@.len() ==> self.candidate(#[trigger] final(cands)@[k]),
            forall|idx: int, q: Point, s: State|
                0 <= idx < self.bag().len() && self.placement_cell(q) && #[trigger] self.placed_as(
                    s,
                    idx,
                    q,
                ) ==> offered(final(cands)@, s),
    {
        let ghost start = cands@;
        let cells = self.placement_cells();
        let n = match self.active {
            Player::P1 => self.unplaced.p1.len(),
            Player::P2 => self.unplaced.p2.len(),
        };
        let mut idx: usize = 0;
        while idx < n
            invariant
                self.board.wf(),
                self.board.cells_ok(3),
                self.turn < usize::MAX,
                n == self.bag().len(),
                idx <= n,
                forall|q: Point| cells@.contains(q) <==> self.placement_cell(q),
                forall|q: Point| #[trigger] cells@.contains(q) ==> q.is_canonical() && roomy(q, 1),
                start.len() <= cands@.len(),
                cands@.take(start.len() as int) == start,
                forall|k: int| 0 <= k < cands@.len() ==> self.candidate(#[trigger] cands@[k]),
                forall|j: int, q: Point, s: State|
                    0 <= j < idx && self.placement_cell(q) && #[trigger] self.placed_as(s, j, q)
                        ==> offered(cands@, s),
            decreases n - idx,
        {
            let mut m: usize = 0;
            while m < cells.len()
                invariant
                    self.board.wf(),
                    self.board.cells_ok(3),
                    self.turn < usize::MAX,
                    n == self.bag().len(),
                    idx < n,
                    m <= cells@.len(),
                    forall|q: Point| cells@.contains(q) <==> self.placement_cell(q),
                    forall|q: Point| #[trigger] cells@.contains(q) ==> q.is_canonical() && roomy(q, 1),
                    start.len() <= cands@.len(),
                    cands@.take(start.len() as int) == start,
                    forall|k: int| 0 <= k < cands@.len() ==> self.candidate(#[trigger] cands@[k]),
                    forall|j: int, q: Point, s: State|
                        0 <= j < idx && self.placement_cell(q) && #[trigger] self.placed_as(s, j, q)
                            ==> offered(cands@, s),
                    forall|mm: int, s: State|
                        0 <= mm < m && #[trigger] self.placed_as(s, idx as int, cells@[mm])
                            ==> offered(cands@, s),
                decreases cells.len() - m,
            {
                let q = cells[m];
                assert(cells@.contains(q));
                let mut pieces = self.unplaced.duplicate();
                let piece = pieces.remove(self.active, idx);
                let queen = if matches!(piece, Piece::Queen(_)) {
                    Some(q)
                } else {
                    None
                };
                let mut b = self.board.duplicate();
                b.insert(q, piece);
                let c = self.next_turn(queen, Some(pieces), b);
                proof {
                    assert(self.placed_as(c, idx as int, q));
                    assert(self.is_placement(c));
                    assert(c.board@ == self.board@.insert(q, piece));
                    assert forall|p: Point| #[trigger] c.board@.contains_key(p) implies p.is_canonical() && roomy(p, 1) by {
                        if p != q {
                            assert(self.board@.contains_key(p));
                        }
                    }
                }
                let ghost before = cands@;
                cands.push(c);
                proof {
                    assert(cands@.take(before.len() as int) =~= before);
                    lemma_offered_grows(before, cands@);
                    assert(cands@.take(start.len() as int) =~= before.take(start.len() as int));
                    assert forall|s: State| #[trigger] self.placed_as(s, idx as int, q) implies offered(cands@, s) by {
                        self.lemma_placed_matches(c, s, idx as int, q);
                        assert(cands@[before.len() as int].matches(s));
                    }
                }
                m = m + 1;
            }
            proof {
                assert forall|j: int, q: Point, s: State|
                    0 <= j < idx + 1 && self.placement_cell(q) && #[trigger] self.placed_as(s, j, q)
                        implies offered(cands@, s) by {
                    if j == idx {
                        assert(cells@.contains(q));
                        let mm = choose|mm: int| 0 <= mm < cells@.len() && cells@[mm] == q;
                        assert(self.placed_as(s, idx as int, cells@[mm]));
                    }
                }
            }
            idx = idx + 1;
        }
    }
}

/// `b` starts with `a`.
pub open spec fn grows(a: Seq<State>, b: Seq<State>) -> bool {
    a.len() <= b.len() && b.take(a.len() as int) == a
}

proof fn lemma_grows_trans(a: Seq<State>, b: Seq<State>, c: Seq<State>)
    requires
        grows(a, b),
        grows(b, c),
    ensures
        grows(a, c),
{
    assert(c.take(a.len() as int) =~= b.take(a.len() as int));
}

impl State {
    /// Every state of `cs` is a candidate successor of this state.
    pub open spec fn all_candidates(self, cs: Seq<State>) -> bool {
        forall|k: int| 0 <= k < cs.len() ==> self.candidate(#[trigger] cs[k])
    }

    /// The ant on `from` can crawl to `to`.
    pub open spec fn ant_move(self, from: Point, to: Point) -> bool {
        &&& self.own_cell(from)
        &&& self.board@[from] is Ant
        &&& to != from
        &&& self.ant_reach(from, to)
    }

    /// The spider on `from` can crawl to `to`.
    pub open spec fn spider_move(self, from: Point, to: Point) -> bool {
        &&& self.own_cell(from)
        &&& self.board@[from] is Spider
        &&& self.spider_reach(from, to)
    }

    /// A move of a piece of the mover: a queen step, a grasshopper jump, an
    /// ant or spider crawl, or a beetle move.
    pub open spec fn listed_move(self, s: State, from: Point, to: Point) -> bool {
        ||| (self.queen_step(from, to) || self.jump(from, to) || self.ant_move(from, to)
            || self.spider_move(from, to))
            && self.shifted_as(s, from, to)
        ||| self.climbed_as(s, from, to)
    }

    /// Pushes `c` and keeps the earlier entries.
    fn offer(&self, cands: &mut Vec<State>, c: State)
        requires
            self.all_candidates(old(cands)@),
            self.candidate(c),
        ensures
            self.all_candidates(final(cands)@),
            grows(old(cands)@, final(cands)@),
            final(cands)@.len() == old(cands)@.len() + 1,
            final(cands)@.last() == c,
            forall|s: State| offered(old(cands)@, s) ==> #[trigger] offered(final(cands)@, s),
            forall|s: State| c.matches(s) ==> #[trigger] offered(final(cands)@, s),
    {
        let ghost before = cands@;
        cands.push(c);
        proof {
            assert(cands@.take(before.len() as int) =~= before);
            lemma_offered_grows(before, cands@);
            assert forall|s: State| c.matches(s) implies #[trigger] offered(cands@, s) by {
                assert(cands@[before.len() as int] == c);
            }
        }
    }

    /// The state after the piece on `from` goes alone to the empty cell `to`.
    fn shifted(&self, from: Point, to: Point) -> (r: State)
        requires
            self.board.wf(),
            self.board.cells_ok(3),
            self.turn < usize::MAX,
            self.own_cell(from),
            !self.board@.contains_key(to),
            to.is_canonical(),
            roomy(to, 1),
        ensures
            self.shifted_as(r, from, to),
            r.board.wf(),
            r.board.cells_ok(1),
    {
        let mut b = self.board.duplicate();
        let piece = match b.remove(&from) {
            Some(p) => p,
            None => vstd::pervasive::unreached(),
        };
        let queen = if matches!(piece, Piece::Queen(_)) {
            Some(to)
        } else {
            None
        };
        b.insert(to, piece);
        let r = self.next_turn(queen, None, b);
        proof {
            assert forall|p: Point| #[trigger] r.board@.contains_key(p) implies p.is_canonical()
                && roomy(p, 1) by {
                if p != to {
                    assert(self.board@.contains_key(p));
                }
            }
        }
        r
    }

    proof fn lemma_shifted_matches(self, a: State, b: State, from: Point, to: Point)
        requires
            self.shifted_as(a, from, to),
            self.shifted_as(b, from, to),
        ensures
            a.matches(b),
    {
    }

    /// Adds every step of the queen on `from`.
    fn add_queen_moves(&self, from: Point, cands: &mut Vec<State>)
        requires
            self.board.wf(),
            self.board.cells_ok(3),
            self.turn < usize::MAX,
            self.own_cell(from),
            self.board@[from] is Queen,
            self.all_candidates(old(cands)@),
        ensures
            self.all_candidates(final(cands)@),
            grows(old(cands)@, final(cands)@),
            forall|to: Point, s: State|
                self.queen_step(from, to) && #[trigger] self.shifted_as(s, from, to) ==> offered(
                    final(cands)@,
                    s,
                ),
    {
        let ghost start = cands@;
        proof {
            assert(cands@.take(start.len() as int) =~= start);
        }
        let targets = from.movable_neighbors(&self.board);
        let mut t: usize = 0;
        while t < targets.len()
            invariant
                self.board.wf(),
                self.board.cells_ok(3),
                self.turn < usize::MAX,
                self.own_cell(from),
                self.board@[from] is Queen,
                t <= targets@.len(),
                forall|q: Point| targets@.contains(q) <==> from.can_slide(self.board@, q),
                self.all_candidates(cands@),
                grows(start, cands@),
                forall|tt: int, s: State|
                    0 <= tt < t && #[trigger] self.shifted_as(s, from, targets@[tt]) ==> offered(
                        cands@,
                        s,
                    ),
            decreases targets.len() - t,
        {
            let to = targets[t];
            proof {
                assert(targets@.contains(to));
                let i = choose|i: int| 0 <= i < 6 && #[trigger] from.nb(i) == to && from.gate_open(self.board@, i);
                crate::point::lemma_nb_room(from, i, 1);
            }
            let c = self.shifted(from, to);
            proof {
                assert(self.queen_step(from, to));
                assert(self.moved_as(c, from, to));
            }
            let ghost before = cands@;
            self.offer(cands, c);
            proof {
                lemma_grows_trans(start, before, cands@);
                assert forall|tt: int, s: State|
                    0 <= tt < t + 1 && #[trigger] self.shifted_as(s, from, targets@[tt]) implies offered(
                        cands@,
                        s,
                    ) by {
                    if tt == t {
                        self.lemma_shifted_matches(c, s, from, to);
                    }
                }
            }
            t = t + 1;
        }
        proof {
            assert forall|to: Point, s: State|
                self.queen_step(from, to) && #[trigger] self.shifted_as(s, from, to) implies offered(
                    cands@,
                    s,
                ) by {
                assert(targets@.contains(to));
                let tt = choose|tt: int| 0 <= tt < targets@.len() && targets@[tt] == to;
                assert(self.shifted_as(s, from, targets@[tt]));
            }
        }
    }
}

impl State {
    /// Adds every move of the beetle on `from`, which is `pl`'s and carries
    /// `under`.
    fn add_beetle_moves(
        &self,
        from: Point,
        pl: Player,
        under: &Option<Box<Piece>>,
        cands: &mut Vec<State>,
    )
        requires
            self.board.wf(),
            self.board.cells_ok(3),
            self.turn < usize::MAX,
            self.own_cell(from),
            self.board@[from] == Piece::Beetle(pl, *under),
            self.all_candidates(old(cands)@),
        ensures
            self.all_candidates(final(cands)@),
            grows(old(cands)@, final(cands)@),
            forall|to: Point, s: State| #[trigger] self.climbed_as(s, from, to) ==> offered(final(cands)@, s),
    {
        let ghost start = cands@;
        proof {
            assert(cands@.take(start.len() as int) =~= start);
        }
        let mut i: usize = 0;
        while i < 6
            invariant
                self.board.wf(),
                self.board.cells_ok(3),
                self.turn < usize::MAX,
                self.own_cell(from),
                self.board@[from] == Piece::Beetle(pl, *under),
                i <= 6,
                self.all_candidates(cands@),
                grows(start, cands@),
                forall|ii: int, s: State|
                    0 <= ii < i && #[trigger] self.climbed_as(s, from, from.nb(ii)) ==> offered(cands@, s),
            decreases 6 - i,
        {
            proof {
                crate::point::lemma_nb_room(from, i as int, 2);
            }
            let to = from.step(i);
            let mut b = self.board.duplicate();
            let carried: Option<Box<Piece>> = match b.remove(&to) {
                Some(p) => Some(Box::new(p)),
                None => None,
            };
            let _ = b.remove(&from);
            b.insert(to, Piece::Beetle(pl, carried));
            match under {
                Some(u) => {
                    let inner: &Piece = u;
                    b.insert(from, inner.duplicate());
                },
                None => {},
            }
            let c = self.next_turn(None, None, b);
            proof {
                let ob = self.board@;
                let moved = ob.remove(from).insert(to, Piece::Beetle(pl, carried));
                assert(ob.remove(to).remove(from).insert(to, Piece::Beetle(pl, carried)) =~= moved);
                assert(c.board@ == self.climbed_board(from, to));
                assert(self.climbed_as(c, from, to));
                assert(self.moved_as(c, from, to));
                assert forall|p: Point| #[trigger] c.board@.contains_key(p) implies p.is_canonical()
                    && roomy(p, 1) by {
                    if p != to && p != from {
                        assert(ob.contains_key(p));
                    }
                }
            }
            let ghost before = cands@;
            self.offer(cands, c);
            proof {
                lemma_grows_trans(start, before, cands@);
                assert forall|ii: int, s: State|
                    0 <= ii < i + 1 && #[trigger] self.climbed_as(s, from, from.nb(ii)) implies offered(
                        cands@,
                        s,
                    ) by {
                    if ii == i {
                        assert(c.matches(s));
                    }
                }
            }
            i = i + 1;
        }
        proof {
            assert forall|to: Point, s: State| #[trigger] self.climbed_as(s, from, to) implies offered(
                cands@,
                s,
            ) by {
                let ii = choose|ii: int| 0 <= ii < 6 && #[trigger] from.nb(ii) == to;
                assert(self.climbed_as(s, from, from.nb(ii)));
            }
        }
    }

    /// The first cell after the run of occupied cells that starts next to
    /// `from` in direction `i`, if that run is not empty.
    fn landing(&self, from: Point, i: usize) -> (r: Option<Point>)
        requires
            self.board.wf(),
            self.board.cells_ok(3),
            self.board@.contains_key(from),
            i < 6,
        ensures
            match r {
                Some(to) => self.jump_dir(from, to, i as int) && to.is_canonical() && roomy(to, 2),
                None => forall|to: Point| !self.jump_dir(from, to, i as int),
            },
    {
        proof {
            crate::point::lemma_nb_room(from, i as int, 2);
            assert(ray(from, i as int, 1) == ray(from, i as int, 0).nb(i as int));
        }
        let first = from.step(i);
        if !self.board.contains_key(&first) {
            proof {
                assert forall|to: Point| !self.jump_dir(from, to, i as int) by {
                    if self.jump_dir(from, to, i as int) {
                        let n = choose|n: nat|
                            2 <= n && #[trigger] ray(from, i as int, n) == to && !self.board@.contains_key(to)
                                && forall|m: nat| 1 <= m < n ==> self.board@.contains_key(#[trigger] ray(from, i as int, m));
                        assert(self.board@.contains_key(ray(from, i as int, 1)));
                    }
                }
            }
            return None;
        }
        let mut p = first;
        let ghost mut n: nat = 1;
        while self.board.contains_key(&p)
            invariant
                self.board.wf(),
                self.board.cells_ok(3),
                i < 6,
                n >= 1,
                p == ray(from, i as int, n),
                p.is_canonical(),
                roomy(p, 2),
                forall|m: nat| 1 <= m < n ==> self.board@.contains_key(#[trigger] ray(from, i as int, m)),
                self.board@.contains_key(ray(from, i as int, 1)),
            decreases 2 * (isize::MAX as int) + 2 - crate::point::gauge(p, i as int),
        {
            proof {
                crate::point::lemma_gauge(p, i as int);
                crate::point::lemma_nb_room(p, i as int, 2);
                assert(ray(from, i as int, n + 1) == ray(from, i as int, n).nb(i as int));
            }
            p = p.step(i);
            proof {
                n = n + 1;
            }
        }
        proof {
            assert(n >= 2);
            assert(self.jump_dir(from, p, i as int));
            assert forall|to: Point| #[trigger] self.jump_dir(from, to, i as int) implies to == p by {
                let n2 = choose|n2: nat|
                    2 <= n2 && #[trigger] ray(from, i as int, n2) == to && !self.board@.contains_key(to)
                        && forall|m: nat| 1 <= m < n2 ==> self.board@.contains_key(#[trigger] ray(from, i as int, m));
                if n2 < n {
                    assert(self.board@.contains_key(ray(from, i as int, n2)));
                } else if n < n2 {
                    assert(self.board@.contains_key(ray(from, i as int, n)));
                }
            }
        }
        Some(p)
    }

    /// Adds every jump of the grasshopper on `from`.
    fn add_jumps(&self, from: Point, cands: &mut Vec<State>)
        requires
            self.board.wf(),
            self.board.cells_ok(3),
            self.turn < usize::MAX,
            self.own_cell(from),
            self.board@[from] is Grasshopper,
            self.all_candidates(old(cands)@),
        ensures
            self.all_candidates(final(cands)@),
            grows(old(cands)@, final(cands)@),
            forall|to: Point, s: State|
                self.jump(from, to) && #[trigger] self.shifted_as(s, from, to) ==> offered(final(cands)@, s),
    {
        let ghost start = cands@;
        proof {
            assert(cands@.take(start.len() as int) =~= start);
        }
        let mut i: usize = 0;
        while i < 6
            invariant
                self.board.wf(),
                self.board.cells_ok(3),
                self.turn < usize::MAX,
                self.own_cell(from),
                self.board@[from] is Grasshopper,
                i <= 6,
                self.all_candidates(cands@),
                grows(start, cands@),
                forall|ii: int, to: Point, s: State|
                    #![trigger self.jump_dir(from, to, ii), self.shifted_as(s, from, to)]
                    0 <= ii < i && self.jump_dir(from, to, ii) && self.shifted_as(s, from, to)
                        ==> offered(cands@, s),
            decreases 6 - i,
        {
            match self.landing(from, i) {
                Some(to) => {
                    let c = self.shifted(from, to);
                    proof {
                        assert(self.jump(from, to));
                        assert(self.moved_as(c, from, to));
                    }
                    let ghost before = cands@;
                    self.offer(cands, c);
                    proof {
                        lemma_grows_trans(start, before, cands@);
                        assert forall|ii: int, to2: Point, s: State|
                            #![trigger self.jump_dir(from, to2, ii), self.shifted_as(s, from, to2)]
                            0 <= ii < i + 1 && self.jump_dir(from, to2, ii) && self.shifted_as(
                                s,
                                from,
                                to2,
                            ) implies offered(cands@, s) by {
                            if ii == i {
                                assert(to2 == to);
                                self.lemma_shifted_matches(c, s, from, to);
                            }
                        }
                    }
                },
                None => {},
            }
            i = i + 1;
        }
    }
}

impl State {
    /// `q` is where a crawl from `from` may stop.
    pub open spec fn crawl_stop(self, from: Point, q: Point) -> bool {
        &&& q != from
        &&& !self.board@.contains_key(q)
        &&& hugs(self.board, q)
        &&& q.is_canonical()
        &&& roomy(q, 2)
    }

    /// Whether some neighbour of `q` is occupied.
    fn hugs_hive(&self, q: &Point) -> (r: bool)
        requires
            self.board.wf(),
            q.is_canonical(),
            roomy(*q, 1),
        ensures
            r == hugs(self.board, *q),
    {
        let mut j: usize = 0;
        while j < 6
            invariant
                self.board.wf(),
                q.is_canonical(),
                roomy(*q, 1),
                j <= 6,
                forall|jj: int| 0 <= jj < j ==> !self.board@.contains_key(#[trigger] q.nb(jj)),
            decreases 6 - j,
        {
            let n = q.step(j);
            if self.board.contains_key(&n) {
                return true;
            }
            j = j + 1;
        }
        false
    }

    /// `q` is one slide from `from` and has an occupied neighbour.
    pub open spec fn first_crawl(self, from: Point, q: Point) -> bool {
        from.can_slide(self.board@, q) && hugs(self.board, q)
    }

    /// `q` is two slides from `from` on the board without the piece, through
    /// a cell one slide away, and has an occupied neighbour.
    pub open spec fn second_crawl(self, from: Point, q: Point) -> bool {
        exists|mid: Point|
            #[trigger] self.first_crawl(from, mid) && mid.can_slide(self.board@.remove(from), q) && hugs(
                self.board,
                q,
            )
    }

    /// `q` is three slides from `from` on the board without the piece, each
    /// to a cell with an occupied neighbour, and neither one nor two slides.
    pub open spec fn spider_reach(self, from: Point, q: Point) -> bool {
        &&& q != from
        &&& !self.first_crawl(from, q)
        &&& !self.second_crawl(from, q)
        &&& exists|m1: Point, m2: Point|
            #[trigger] self.first_crawl(from, m1) && m1.can_slide(self.board@.remove(from), m2) && hugs(
                self.board,
                m2,
            ) && #[trigger] m2.can_slide(self.board@.remove(from), q) && hugs(self.board, q)
    }

    /// Lifting the piece off `from` opens no gate next to `from`.
    proof fn lemma_lifted_slide(self, from: Point, lifted: Board)
        requires
            self.board.cells_ok(3),
            self.board@.contains_key(from),
            lifted@ == self.board@.remove(from),
        ensures
            forall|q: Point| from.can_slide(lifted@, q) <==> from.can_slide(self.board@, q),
    {
        assert forall|i: int| 0 <= i < 6 implies #[trigger] lifted@.contains_key(from.nb(i))
            == self.board@.contains_key(from.nb(i)) by {
            crate::point::lemma_nb_other(from, i);
        }
        assert forall|q: Point| from.can_slide(lifted@, q) <==> from.can_slide(self.board@, q) by {
            if from.can_slide(lifted@, q) {
                let i = choose|i: int| 0 <= i < 6 && #[trigger] from.nb(i) == q && from.gate_open(lifted@, i);
                assert(lifted@.contains_key(from.nb((i + 5) % 6)) == self.board@.contains_key(from.nb((i + 5) % 6)));
                assert(lifted@.contains_key(from.nb((i + 1) % 6)) == self.board@.contains_key(from.nb((i + 1) % 6)));
                assert(from.gate_open(self.board@, i));
            }
            if from.can_slide(self.board@, q) {
                let i = choose|i: int| 0 <= i < 6 && #[trigger] from.nb(i) == q && from.gate_open(self.board@, i);
                assert(lifted@.contains_key(from.nb((i + 5) % 6)) == self.board@.contains_key(from.nb((i + 5) % 6)));
                assert(lifted@.contains_key(from.nb((i + 1) % 6)) == self.board@.contains_key(from.nb((i + 1) % 6)));
                assert(from.gate_open(lifted@, i));
            }
        }
    }

    /// `s` holds every cell that a piece lifted off `from` can slide to
    /// from a cell of `s`, where that cell has an occupied neighbour.
    pub open spec fn crawl_closed(self, from: Point, s: Set<Point>) -> bool {
        forall|c: Point, q: Point|
            #![trigger s.contains(c), c.can_slide(self.board@.remove(from), q)]
            s.contains(c) && c.can_slide(self.board@.remove(from), q) && hugs(self.board, q)
                ==> s.contains(q)
    }

    /// An ant on `from` can crawl to `q`: `q` lies in every closed set that
    /// holds `from`.
    pub open spec fn ant_reach(self, from: Point, q: Point) -> bool {
        forall|s: Set<Point>| #![trigger self.crawl_closed(from, s)]
            self.crawl_closed(from, s) && s.contains(from) ==> s.contains(q)
    }

    /// The cells where a crawl of the piece on `from` may end. The search
    /// slides the piece, lifted off `from`, from cell to cell, stopping only
    /// on cells with an occupied neighbour and never twice on one cell. An
    /// ant may end on every cell the search reaches; a spider only on those
    /// first reached after exactly three slides.
    fn crawl_targets(&self, from: Point, spider: bool) -> (r: Vec<Point>)
        requires
            self.board.wf(),
            self.board.cells_ok(3),
            self.board@.contains_key(from),
        ensures
            forall|k: int| 0 <= k < r@.len() ==> self.crawl_stop(from, #[trigger] r@[k]),
            !spider ==> forall|q: Point| q != from && #[trigger] self.ant_reach(from, q) ==> r@.contains(q),
            spider ==> forall|q: Point| #[trigger] self.spider_reach(from, q) ==> r@.contains(q),
            !spider ==> forall|k: int| 0 <= k < r@.len() ==> self.ant_reach(from, #[trigger] r@[k]),
            spider ==> forall|k: int| 0 <= k < r@.len() ==> self.spider_reach(from, #[trigger] r@[k]),
    {
        let mut lifted = self.board.duplicate();
        let _ = lifted.remove(&from);
        proof {
            self.lemma_lifted_slide(from, lifted);
        }
        let mut visited: Vec<Point> = Vec::new();
        visited.push(from);
        assert(visited@[0] == from);
        let mut frontier: Vec<Point> = Vec::new();
        frontier.push(from);
        assert(frontier@ =~= seq![from]);
        let mut found: Vec<Point> = Vec::new();
        proof {
            assert forall|q: Point| visited@.contains(q) implies q == from || found@.contains(q) by {
                let m = choose|m: int| 0 <= m < visited@.len() && visited@[m] == q;
            }
        }
        let mut depth: usize = 0;
        while frontier.len() > 0 && (!spider || depth < 3)
            invariant
                self.board.wf(),
                self.board.cells_ok(3),
                self.board@.contains_key(from),
                lifted.wf(),
                lifted@ == self.board@.remove(from),
                forall|q: Point| from.can_slide(lifted@, q) <==> from.can_slide(self.board@, q),
                visited@.contains(from),
                visited@.no_duplicates(),
                forall|k: int| 0 <= k < visited@.len() ==> #[trigger] visited@[k] == from || self.crawl_stop(from, visited@[k]),
                visited@.len() <= 12 * self.board.size() + 1,
                frontier@.len() > 0 ==> depth < visited@.len(),
                forall|c: Point, q: Point|
                    #![trigger visited@.contains(c), c.can_slide(lifted@, q)]
                    visited@.contains(c) && !frontier@.contains(c) && c.can_slide(lifted@, q) && hugs(self.board, q)
                        ==> visited@.contains(q),
                spider ==> depth <= 3,
                depth == 0 ==> frontier@ == seq![from] && found@.len() == 0,
                forall|k: int| 0 <= k < frontier@.len() ==> #[trigger] frontier@[k] == from || self.crawl_stop(from, frontier@[k]),
                depth > 0 ==> forall|k: int| 0 <= k < frontier@.len() ==> self.crawl_stop(from, #[trigger] frontier@[k]),
                forall|k: int| 0 <= k < found@.len() ==> self.crawl_stop(from, #[trigger] found@[k]),
                !spider ==> forall|q: Point| visited@.contains(q) ==> q == from || found@.contains(q),
                depth > 0 ==> forall|q: Point| #[trigger] self.first_crawl(from, q) ==> visited@.contains(q),
                depth > 1 ==> forall|k: int| 0 <= k < frontier@.len() ==> !self.first_crawl(from, #[trigger] frontier@[k]),
                depth == 0 ==> forall|q: Point| visited@.contains(q) ==> q == from,
                depth == 1 ==> forall|q: Point| #[trigger] self.first_crawl(from, q) ==> frontier@.contains(q),
                depth > 1 ==> forall|q: Point| #[trigger] self.second_crawl(from, q) ==> visited@.contains(q),
                depth > 2 ==> forall|k: int| 0 <= k < frontier@.len() ==> !self.second_crawl(from, #[trigger] frontier@[k]),
                depth == 1 ==> forall|k: int| 0 <= k < frontier@.len() ==> self.first_crawl(from, #[trigger] frontier@[k]),
                depth == 1 ==> forall|q: Point| visited@.contains(q) ==> q == from || self.first_crawl(from, q),
                depth == 2 ==> forall|q: Point| visited@.contains(q) ==> q == from || self.first_crawl(from, q) || self.second_crawl(from, q),
                depth == 2 ==> forall|q: Point| #[trigger] self.second_crawl(from, q) && !self.first_crawl(from, q) && q != from ==> frontier@.contains(q),
                spider && depth == 3 ==> forall|q: Point| #[trigger] self.spider_reach(from, q) ==> frontier@.contains(q),
                !spider ==> forall|k: int| 0 <= k < frontier@.len() ==> self.ant_reach(from, #[trigger] frontier@[k]),
                !spider ==> forall|k: int| 0 <= k < found@.len() ==> self.ant_reach(from, #[trigger] found@[k]),
                depth == 2 ==> forall|k: int| 0 <= k < frontier@.len() ==> self.second_crawl(from, #[trigger] frontier@[k]),
                spider && depth == 3 ==> forall|k: int| 0 <= k < frontier@.len() ==> self.spider_reach(from, #[trigger] frontier@[k]),
            decreases 12 * self.board.size() + 1 - visited@.len(), frontier@.len(),
        {
            let ghost vstart = visited@;
            // Fewer rounds have run than cells were reached.
            let reached: usize = visited.len();
            assert(depth < reached);
            let mut next: Vec<Point> = Vec::new();
            let mut f: usize = 0;
            proof {
                assert(frontier@.subrange(0, frontier@.len() as int) =~= frontier@);
            }
            while f < frontier.len()
                invariant
                    self.board.wf(),
                    self.board.cells_ok(3),
                    self.board@.contains_key(from),
                    lifted.wf(),
                    lifted@ == self.board@.remove(from),
                    forall|q: Point| from.can_slide(lifted@, q) <==> from.can_slide(self.board@, q),
                    visited@.contains(from),
                    visited@.no_duplicates(),
                    forall|k: int| 0 <= k < visited@.len() ==> #[trigger] visited@[k] == from || self.crawl_stop(from, visited@[k]),
                    visited@.len() <= 12 * self.board.size() + 1,
                    visited@.len() == vstart.len() + next@.len(),
                    frontier@.len() > 0,
                    depth < vstart.len(),
                    forall|c: Point, q: Point|
                        #![trigger visited@.contains(c), c.can_slide(lifted@, q)]
                        visited@.contains(c) && !next@.contains(c) && !frontier@.subrange(f as int, frontier@.len() as int).contains(c)
                            && c.can_slide(lifted@, q) && hugs(self.board, q) ==> visited@.contains(q),
                    f <= frontier@.len(),
                    depth == 0 ==> frontier@ == seq![from] && found@.len() == 0,
                    forall|k: int| 0 <= k < frontier@.len() ==> #[trigger] frontier@[k] == from || self.crawl_stop(from, frontier@[k]),
                    forall|k: int| 0 <= k < next@.len() ==> self.crawl_stop(from, #[trigger] next@[k]),
                    !spider ==> forall|q: Point| visited@.contains(q) ==> q == from || found@.contains(q) || next@.contains(q),
                    depth == 0 && f >= 1 ==> forall|q: Point| #[trigger] self.first_crawl(from, q) ==> visited@.contains(q),
                    depth > 0 ==> forall|q: Point| #[trigger] self.first_crawl(from, q) ==> visited@.contains(q),
                    depth > 0 ==> forall|k: int| 0 <= k < next@.len() ==> !self.first_crawl(from, #[trigger] next@[k]),
                    depth == 0 ==> forall|q: Point| visited@.contains(q) ==> q == from || next@.contains(q),
                    depth == 1 ==> forall|q: Point| #[trigger] self.first_crawl(from, q) ==> frontier@.contains(q),
                    depth >= 1 ==> forall|ff: int, q: Point|
                        0 <= ff < f && #[trigger] frontier@[ff].can_slide(lifted@, q) && hugs(self.board, q)
                            ==> visited@.contains(q),
                    depth > 1 ==> forall|q: Point| #[trigger] self.second_crawl(from, q) ==> visited@.contains(q),
                    depth > 1 ==> forall|k: int| 0 <= k < next@.len() ==> !self.second_crawl(from, #[trigger] next@[k]),
                    forall|q: Point| visited@.contains(q) ==> vstart.contains(q) || next@.contains(q),
                    depth == 1 ==> forall|k: int| 0 <= k < frontier@.len() ==> self.first_crawl(from, #[trigger] frontier@[k]),
                    depth == 1 ==> forall|q: Point| vstart.contains(q) ==> q == from || self.first_crawl(from, q),
                    depth == 1 ==> forall|k: int| 0 <= k < next@.len() ==> self.second_crawl(from, #[trigger] next@[k]),
                    depth == 0 ==> forall|k: int| 0 <= k < next@.len() ==> self.first_crawl(from, #[trigger] next@[k]),
                    !spider ==> forall|k: int| 0 <= k < frontier@.len() ==> self.ant_reach(from, #[trigger] frontier@[k]),
                    !spider ==> forall|k: int| 0 <= k < found@.len() ==> self.ant_reach(from, #[trigger] found@[k]),
                    !spider ==> forall|k: int| 0 <= k < next@.len() ==> self.ant_reach(from, #[trigger] next@[k]),
                    depth == 2 ==> forall|k: int| 0 <= k < frontier@.len() ==> self.second_crawl(from, #[trigger] frontier@[k]),
                    depth == 2 ==> forall|k: int| 0 <= k < next@.len() ==> self.spider_reach(from, #[trigger] next@[k]),
                    depth > 1 ==> forall|k: int| 0 <= k < frontier@.len() ==> !self.first_crawl(from, #[trigger] frontier@[k]),
                    depth == 2 ==> forall|q: Point| vstart.contains(q) ==> q == from || self.first_crawl(from, q) || self.second_crawl(from, q),
                    depth == 2 ==> forall|q: Point| #[trigger] self.second_crawl(from, q) && !self.first_crawl(from, q) && q != from ==> frontier@.contains(q),
                decreases frontier.len() - f,
            {
                let c = frontier[f];
                proof {
                    assert(frontier@[f as int] == from || self.crawl_stop(from, frontier@[f as int]));
                    if depth == 1 {
                        assert(self.first_crawl(from, frontier@[f as int]));
                    }
                    if !spider {
                        assert(self.ant_reach(from, frontier@[f as int]));
                    }
                    if depth == 2 {
                        assert(self.second_crawl(from, frontier@[f as int]));
                        assert(!self.first_crawl(from, frontier@[f as int]));
                    }
                }
                let steps = c.movable_neighbors(&lifted);
                let mut t: usize = 0;
                while t < steps.len()
                    invariant
                        self.board.wf(),
                        self.board.cells_ok(3),
                        lifted.wf(),
                        lifted@ == self.board@.remove(from),
                        visited@.contains(from),
                        visited@.no_duplicates(),
                        forall|k: int| 0 <= k < visited@.len() ==> #[trigger] visited@[k] == from || self.crawl_stop(from, visited@[k]),
                        visited@.len() <= 12 * self.board.size() + 1,
                        visited@.len() == vstart.len() + next@.len(),
                        forall|c2: Point, q: Point|
                            #![trigger visited@.contains(c2), c2.can_slide(lifted@, q)]
                            visited@.contains(c2) && !next@.contains(c2) && !frontier@.subrange(f as int, frontier@.len() as int).contains(c2)
                                && c2.can_slide(lifted@, q) && hugs(self.board, q) ==> visited@.contains(q),
                        c.is_canonical(),
                        roomy(c, 2),
                        t <= steps@.len(),
                        forall|q: Point| steps@.contains(q) <==> c.can_slide(lifted@, q),
                        forall|k: int| 0 <= k < next@.len() ==> self.crawl_stop(from, #[trigger] next@[k]),
                        !spider ==> forall|q: Point| visited@.contains(q) ==> q == from || found@.contains(q) || next@.contains(q),
                        forall|tt: int| 0 <= tt < t && hugs(self.board, #[trigger] steps@[tt]) ==> visited@.contains(steps@[tt]),
                        depth > 0 ==> forall|q: Point| #[trigger] self.first_crawl(from, q) ==> visited@.contains(q),
                        depth > 0 ==> forall|k: int| 0 <= k < next@.len() ==> !self.first_crawl(from, #[trigger] next@[k]),
                        depth == 0 ==> forall|q: Point| visited@.contains(q) ==> q == from || next@.contains(q),
                        depth >= 1 ==> forall|ff: int, q: Point|
                            0 <= ff < f && #[trigger] frontier@[ff].can_slide(lifted@, q) && hugs(self.board, q)
                                ==> visited@.contains(q),
                        depth > 1 ==> forall|q: Point| #[trigger] self.second_crawl(from, q) ==> visited@.contains(q),
                        depth > 1 ==> forall|k: int| 0 <= k < next@.len() ==> !self.second_crawl(from, #[trigger] next@[k]),
                        f < frontier@.len(),
                        c == frontier@[f as int],
                        forall|q: Point| visited@.contains(q) ==> vstart.contains(q) || next@.contains(q),
                        depth == 1 ==> self.first_crawl(from, c),
                        depth == 0 ==> c == from,
                        !spider ==> self.ant_reach(from, c),
                        !spider ==> forall|k: int| 0 <= k < next@.len() ==> self.ant_reach(from, #[trigger] next@[k]),
                        depth == 2 ==> self.second_crawl(from, c) && !self.first_crawl(from, c),
                        depth == 2 ==> forall|k: int| 0 <= k < next@.len() ==> self.spider_reach(from, #[trigger] next@[k]),
                        forall|q: Point| from.can_slide(lifted@, q) <==> from.can_slide(self.board@, q),
                        depth == 0 ==> forall|k: int| 0 <= k < next@.len() ==> self.first_crawl(from, #[trigger] next@[k]),
                        depth == 1 ==> forall|k: int| 0 <= k < next@.len() ==> self.second_crawl(from, #[trigger] next@[k]),
                    decreases steps.len() - t,
                {
                    let q = steps[t];
                    proof {
                        assert(steps@.contains(q));
                        let i = choose|i: int| 0 <= i < 6 && #[trigger] c.nb(i) == q && c.gate_open(lifted@, i);
                        crate::point::lemma_nb_room(c, i, 1);
                    }
                    let seen = contains_point(&visited, q);
                    if !seen && self.hugs_hive(&q) {
                        let ghost before_visited = visited@;
                        let ghost before_next = next@;
                        proof {
                            let j = choose|j: int| 0 <= j < 6 && #[trigger] self.board@.contains_key(q.nb(j));
                            crate::point::lemma_back_room(q, j, 2);
                            lemma_push_contains(visited@, q);
                            lemma_push_contains(next@, q);
                            assert(self.crawl_stop(from, q));
                            if depth > 0 {
                                assert(!self.first_crawl(from, q));
                            }
                            if depth > 1 {
                                assert(!self.second_crawl(from, q));
                            }
                        }
                        visited.push(q);
                        next.push(q);
                        proof {
                            assert forall|a: int, b: int| 0 <= a < b < visited@.len() implies visited@[a] != visited@[b] by {
                                if b == before_visited.len() {
                                    assert(before_visited.contains(before_visited[a]));
                                }
                            }
                            assert(visited@.no_duplicates());
                            assert forall|k: int| 0 <= k < visited@.len() implies #[trigger] visited@[k] == from
                                || self.crawl_stop(from, visited@[k]) by {
                                if k < before_visited.len() {
                                    assert(visited@[k] == before_visited[k]);
                                }
                            }
                            lemma_visit_bound(self.board, from, visited@);
                            assert forall|k: int| depth > 0 && 0 <= k < next@.len() implies !self.first_crawl(from, #[trigger] next@[k]) by {
                                if k < before_next.len() {
                                    assert(next@[k] == before_next[k]);
                                }
                            }
                            assert forall|k: int| depth > 1 && 0 <= k < next@.len() implies !self.second_crawl(from, #[trigger] next@[k]) by {
                                if k < before_next.len() {
                                    assert(next@[k] == before_next[k]);
                                }
                            }
                            if !spider {
                                assert(self.ant_reach(from, q)) by {
                                    assert forall|st: Set<Point>| #[trigger] self.crawl_closed(from, st) && st.contains(from)
                                        implies st.contains(q) by {
                                        assert(st.contains(c));
                                        assert(c.can_slide(self.board@.remove(from), q));
                                    }
                                }
                                assert forall|k: int| 0 <= k < next@.len() implies self.ant_reach(from, #[trigger] next@[k]) by {
                                    if k < before_next.len() {
                                        assert(next@[k] == before_next[k]);
                                    }
                                }
                            }
                            if depth == 2 {
                                assert(self.second_crawl(from, c));
                                let m1 = choose|m1: Point|
                                    #[trigger] self.first_crawl(from, m1) && m1.can_slide(self.board@.remove(from), c)
                                        && hugs(self.board, c);
                                assert(c.can_slide(self.board@.remove(from), q));
                                assert(self.spider_reach(from, q));
                                assert forall|k: int| 0 <= k < next@.len() implies self.spider_reach(from, #[trigger] next@[k]) by {
                                    if k < before_next.len() {
                                        assert(next@[k] == before_next[k]);
                                    }
                                }
                            }
                            if depth == 0 {
                                assert(self.first_crawl(from, q));
                                assert forall|k: int| 0 <= k < next@.len() implies self.first_crawl(from, #[trigger] next@[k]) by {
                                    if k < before_next.len() {
                                        assert(next@[k] == before_next[k]);
                                    }
                                }
                            }
                            if depth == 1 {
                                assert(self.first_crawl(from, c));
                                assert(c.can_slide(lifted@, q));
                                assert(self.second_crawl(from, q));
                                assert forall|k: int| 0 <= k < next@.len() implies self.second_crawl(from, #[trigger] next@[k]) by {
                                    if k < before_next.len() {
                                        assert(next@[k] == before_next[k]);
                                    }
                                }
                            }
                        }
                    }
                    t = t + 1;
                }
                proof {
                    if depth == 0 {
                        assert(c == from);
                        assert forall|q: Point| #[trigger] self.first_crawl(from, q) implies visited@.contains(q) by {
                            assert(steps@.contains(q));
                            let tt = choose|tt: int| 0 <= tt < steps@.len() && steps@[tt] == q;
                            assert(hugs(self.board, steps@[tt]));
                        }
                    }
                    if depth >= 1 {
                        assert forall|ff: int, q: Point|
                            0 <= ff < f + 1 && #[trigger] frontier@[ff].can_slide(lifted@, q) && hugs(self.board, q)
                                implies visited@.contains(q) by {
                            if ff == f {
                                assert(steps@.contains(q));
                                let tt = choose|tt: int| 0 <= tt < steps@.len() && steps@[tt] == q;
                                assert(hugs(self.board, steps@[tt]));
                            }
                        }
                    }
                    let rest = frontier@.subrange(f as int, frontier@.len() as int);
                    let rest2 = frontier@.subrange(f + 1, frontier@.len() as int);
                    assert forall|c2: Point, q: Point|
                        #![trigger visited@.contains(c2), c2.can_slide(lifted@, q)]
                        visited@.contains(c2) && !next@.contains(c2) && !rest2.contains(c2)
                            && c2.can_slide(lifted@, q) && hugs(self.board, q) implies visited@.contains(q) by {
                        if c2 == c {
                            assert(steps@.contains(q));
                            let tt = choose|tt: int| 0 <= tt < steps@.len() && steps@[tt] == q;
                            assert(hugs(self.board, steps@[tt]));
                        } else if rest.contains(c2) {
                            let m = choose|m: int| 0 <= m < rest.len() && rest[m] == c2;
                            assert(m != 0);
                            assert(rest2[m - 1] == c2);
                        }
                    }
                }
                f = f + 1;
            }
            if !spider {
                let ghost old_found = found@;
                let mut k: usize = 0;
                while k < next.len()
                    invariant
                        k <= next@.len(),
                        found@ == old_found + next@.take(k as int),
                        forall|m: int| 0 <= m < next@.len() ==> self.crawl_stop(from, #[trigger] next@[m]),
                        forall|m: int| 0 <= m < found@.len() ==> self.crawl_stop(from, #[trigger] found@[m]),
                        forall|m: int| 0 <= m < next@.len() ==> self.ant_reach(from, #[trigger] next@[m]),
                        forall|m: int| 0 <= m < found@.len() ==> self.ant_reach(from, #[trigger] found@[m]),
                    decreases next.len() - k,
                {
                    found.push(next[k]);
                    k = k + 1;
                    proof {
                        assert(found@ =~= old_found + next@.take(k as int));
                    }
                }
                proof {
                    assert(next@.take(k as int) =~= next@);
                    assert forall|q: Point| old_found.contains(q) || next@.contains(q) implies found@.contains(q) by {
                        if old_found.contains(q) {
                            let m = choose|m: int| 0 <= m < old_found.len() && old_found[m] == q;
                            assert(found@[m] == q);
                        } else {
                            let m = choose|m: int| 0 <= m < next@.len() && next@[m] == q;
                            assert(found@[old_found.len() + m] == q);
                        }
                    }
                    assert forall|q: Point| visited@.contains(q) implies q == from || found@.contains(q) by {
                        if !(q == from || old_found.contains(q)) {
                            assert(next@.contains(q));
                        }
                    }
                }
            }
            proof {
                assert(frontier@.subrange(frontier@.len() as int, frontier@.len() as int).len() == 0);
                assert forall|c2: Point, q: Point|
                    #![trigger visited@.contains(c2), c2.can_slide(lifted@, q)]
                    visited@.contains(c2) && !next@.contains(c2) && c2.can_slide(lifted@, q) && hugs(self.board, q)
                        implies visited@.contains(q) by {
                    assert(!frontier@.subrange(frontier@.len() as int, frontier@.len() as int).contains(c2));
                }
                if depth == 0 {
                    assert forall|q: Point| #[trigger] self.first_crawl(from, q) implies next@.contains(q) by {
                        let i = choose|i: int| 0 <= i < 6 && #[trigger] from.nb(i) == q && from.gate_open(self.board@, i);
                        crate::point::lemma_nb_other(from, i);
                    }
                }
                if depth == 0 {
                    assert forall|q: Point| visited@.contains(q) implies q == from || self.first_crawl(from, q) by {
                        if q != from {
                            assert(next@.contains(q));
                            let k = choose|k: int| 0 <= k < next@.len() && next@[k] == q;
                        }
                    }
                }
                if depth == 1 {
                    assert forall|q: Point| visited@.contains(q) implies q == from || self.first_crawl(from, q)
                        || self.second_crawl(from, q) by {
                        if !vstart.contains(q) {
                            assert(next@.contains(q));
                            let k = choose|k: int| 0 <= k < next@.len() && next@[k] == q;
                        }
                    }
                    assert forall|q: Point| #[trigger] self.second_crawl(from, q) && !self.first_crawl(from, q) && q != from
                        implies next@.contains(q) by {
                        let mid = choose|mid: Point|
                            #[trigger] self.first_crawl(from, mid) && mid.can_slide(self.board@.remove(from), q)
                                && hugs(self.board, q);
                        assert(frontier@.contains(mid));
                        let ff = choose|ff: int| 0 <= ff < frontier@.len() && frontier@[ff] == mid;
                        assert(frontier@[ff].can_slide(lifted@, q));
                        assert(visited@.contains(q));
                    }
                }
                if depth == 2 && spider {
                    assert forall|q: Point| #[trigger] self.spider_reach(from, q) implies next@.contains(q) by {
                        let (m1, m2) = choose|m1: Point, m2: Point|
                            #[trigger] self.first_crawl(from, m1) && m1.can_slide(self.board@.remove(from), m2) && hugs(
                                self.board,
                                m2,
                            ) && #[trigger] m2.can_slide(self.board@.remove(from), q) && hugs(self.board, q);
                        assert(self.second_crawl(from, m2));
                        if self.first_crawl(from, m2) {
                            assert(self.second_crawl(from, q));
                        }
                        if m2 == from {
                            assert(self.first_crawl(from, q));
                        }
                        assert(frontier@.contains(m2));
                        let ff = choose|ff: int| 0 <= ff < frontier@.len() && frontier@[ff] == m2;
                        assert(frontier@[ff].can_slide(lifted@, q));
                        assert(visited@.contains(q));
                        assert(!vstart.contains(q));
                    }
                }
                if depth == 1 {
                    assert forall|q: Point| #[trigger] self.second_crawl(from, q) implies visited@.contains(q) by {
                        let mid = choose|mid: Point|
                            #[trigger] self.first_crawl(from, mid) && mid.can_slide(self.board@.remove(from), q)
                                && hugs(self.board, q);
                        assert(frontier@.contains(mid));
                        let ff = choose|ff: int| 0 <= ff < frontier@.len() && frontier@[ff] == mid;
                        assert(frontier@[ff].can_slide(lifted@, q));
                    }
                }
            }
            frontier = next;
            depth = depth + 1;
        }
        if spider {
            if depth == 3 {
                frontier
            } else {
                proof {
                    assert forall|q: Point| #[trigger] self.spider_reach(from, q) implies false by {
                        let (m1, m2) = choose|m1: Point, m2: Point|
                            #[trigger] self.first_crawl(from, m1) && m1.can_slide(self.board@.remove(from), m2) && hugs(
                                self.board,
                                m2,
                            ) && #[trigger] m2.can_slide(self.board@.remove(from), q) && hugs(self.board, q);
                        if depth == 1 {
                            assert(frontier@.contains(m1));
                        } else if depth == 2 {
                            assert(self.second_crawl(from, m2));
                            if self.first_crawl(from, m2) {
                                assert(self.second_crawl(from, q));
                            }
                            if m2 == from {
                                assert(self.first_crawl(from, q));
                            }
                            assert(frontier@.contains(m2));
                        }
                    }
                }
                Vec::new()
            }
        } else {
            proof {
                let vs = visited@.to_set();
                assert(self.crawl_closed(from, vs)) by {
                    assert forall|c2: Point, q: Point|
                        #![trigger vs.contains(c2), c2.can_slide(self.board@.remove(from), q)]
                        vs.contains(c2) && c2.can_slide(self.board@.remove(from), q) && hugs(self.board, q)
                            implies vs.contains(q) by {
                        assert(visited@.contains(c2));
                        assert(!frontier@.contains(c2));
                        assert(c2.can_slide(lifted@, q));
                    }
                }
                assert(vs.contains(from));
                assert forall|q: Point| q != from && #[trigger] self.ant_reach(from, q) implies found@.contains(q) by {
                    assert(vs.contains(q));
                    assert(visited@.contains(q));
                }
            }
            found
        }
    }

    /// Adds every crawl of the ant or spider on `from`.
    fn add_crawls(&self, from: Point, spider: bool, cands: &mut Vec<State>)
        requires
            self.board.wf(),
            self.board.cells_ok(3),
            self.turn < usize::MAX,
            self.own_cell(from),
            self.board@[from] is Ant || self.board@[from] is Spider,
            spider == (self.board@[from] is Spider),
            self.all_candidates(old(cands)@),
        ensures
            self.all_candidates(final(cands)@),
            grows(old(cands)@, final(cands)@),
            !spider ==> forall|to: Point, s: State|
                to != from && self.ant_reach(from, to) && #[trigger] self.shifted_as(s, from, to) ==> offered(
                    final(cands)@,
                    s,
                ),
            spider ==> forall|to: Point, s: State|
                self.spider_reach(from, to) && #[trigger] self.shifted_as(s, from, to) ==> offered(
                    final(cands)@,
                    s,
                ),
    {
        let ghost start = cands@;
        proof {
            assert(cands@.take(start.len() as int) =~= start);
        }
        let targets = self.crawl_targets(from, spider);
        let mut t: usize = 0;
        while t < targets.len()
            invariant
                self.board.wf(),
                self.board.cells_ok(3),
                self.turn < usize::MAX,
                self.own_cell(from),
                self.board@[from] is Ant || self.board@[from] is Spider,
                forall|k: int| 0 <= k < targets@.len() ==> self.crawl_stop(from, #[trigger] targets@[k]),
                !spider ==> forall|q: Point| q != from && #[trigger] self.ant_reach(from, q) ==> targets@.contains(q),
                spider ==> forall|q: Point| #[trigger] self.spider_reach(from, q) ==> targets@.contains(q),
                !spider ==> forall|k: int| 0 <= k < targets@.len() ==> self.ant_reach(from, #[trigger] targets@[k]),
                spider ==> forall|k: int| 0 <= k < targets@.len() ==> self.spider_reach(from, #[trigger] targets@[k]),
                spider == (self.board@[from] is Spider),
                t <= targets@.len(),
                self.all_candidates(cands@),
                grows(start, cands@),
                forall|tt: int, s: State|
                    0 <= tt < t && #[trigger] self.shifted_as(s, from, targets@[tt]) ==> offered(
                        cands@,
                        s,
                    ),
            decreases targets.len() - t,
        {
            let to = targets[t];
            proof {
                assert(self.crawl_stop(from, targets@[t as int]));
                if spider {
                    assert(self.spider_reach(from, targets@[t as int]));
                } else {
                    assert(self.ant_reach(from, targets@[t as int]));
                }
            }
            let c = self.shifted(from, to);
            proof {
                assert(self.crawl(from, to));
                assert(self.moved_as(c, from, to));
            }
            let ghost before = cands@;
            self.offer(cands, c);
            proof {
                lemma_grows_trans(start, before, cands@);
                assert forall|tt: int, s: State|
                    0 <= tt < t + 1 && #[trigger] self.shifted_as(s, from, targets@[tt]) implies offered(
                        cands@,
                        s,
                    ) by {
                    if tt == t {
                        self.lemma_shifted_matches(c, s, from, to);
                    }
                }
            }
            t = t + 1;
        }
        proof {
            if spider {
                assert forall|to: Point, s: State|
                    self.spider_reach(from, to) && #[trigger] self.shifted_as(s, from, to) implies offered(
                        cands@,
                        s,
                    ) by {
                    assert(targets@.contains(to));
                    let tt = choose|tt: int| 0 <= tt < targets@.len() && targets@[tt] == to;
                    assert(self.shifted_as(s, from, targets@[tt]));
                }
            }
            if !spider {
                assert forall|to: Point, s: State|
                    to != from && self.ant_reach(from, to) && #[trigger] self.shifted_as(s, from, to) implies offered(
                        cands@,
                        s,
                    ) by {
                    assert(targets@.contains(to));
                    let tt = choose|tt: int| 0 <= tt < targets@.len() && targets@[tt] == to;
                    assert(self.shifted_as(s, from, targets@[tt]));
                }
            }
        }
    }
}

/// Whether `r` holds a state that is the same position as `c`.
fn has_same(r: &Vec<State>, c: &State) -> (b: bool)
    ensures
        b == exists|k: int| 0 <= k < r@.len() && #[trigger] r@[k].eqv(*c),
{
    let mut k: usize = 0;
    while k < r.len()
        invariant
            k <= r@.len(),
            forall|m: int| 0 <= m < k ==> !(#[trigger] r@[m]).eqv(*c),
        decreases r.len() - k,
    {
        if r[k].same(c) {
            return true;
        }
        k = k + 1;
    }
    false
}

/// The legal states of `cands`, each position once.
fn keep_legal(cands: Vec<State>) -> (r: Vec<State>)
    requires
        forall|j: int| 0 <= j < cands@.len() ==> (#[trigger] cands@[j]).board.wf() && cands@[j].board.cells_ok(1),
    ensures
        forall|k: int| 0 <= k < r@.len() ==> (#[trigger] r@[k]).legal(),
        forall|k: int| 0 <= k < r@.len() ==> cands@.contains(#[trigger] r@[k]),
        forall|k1: int, k2: int| 0 <= k1 < k2 < r@.len() ==> !(#[trigger] r@[k1]).eqv(#[trigger] r@[k2]),
        forall|j: int|
            0 <= j < cands@.len() && (#[trigger] cands@[j]).legal() ==> exists|k: int|
                0 <= k < r@.len() && #[trigger] r@[k].eqv(cands@[j]),
{
    let ghost orig = cands@;
    let mut rest = cands;
    let mut r: Vec<State> = Vec::new();
    while rest.len() > 0
        invariant
            rest@.len() <= orig.len(),
            rest@ == orig.take(rest@.len() as int),
            forall|j: int| 0 <= j < orig.len() ==> (#[trigger] orig[j]).board.wf() && orig[j].board.cells_ok(1),
            forall|k: int| 0 <= k < r@.len() ==> (#[trigger] r@[k]).legal(),
            forall|k: int| 0 <= k < r@.len() ==> orig.contains(#[trigger] r@[k]),
            forall|k1: int, k2: int| 0 <= k1 < k2 < r@.len() ==> !(#[trigger] r@[k1]).eqv(#[trigger] r@[k2]),
            forall|j: int|
                rest@.len() <= j < orig.len() && (#[trigger] orig[j]).legal() ==> exists|k: int|
                    0 <= k < r@.len() && #[trigger] r@[k].eqv(orig[j]),
        decreases rest@.len(),
    {
        let ghost jj = rest@.len() - 1;
        let c = match rest.pop() {
            Some(c) => c,
            None => vstd::pervasive::unreached(),
        };
        proof {
            assert(c == orig[jj]);
            assert(rest@ =~= orig.take(rest@.len() as int));
        }
        if c.validate() && !has_same(&r, &c) {
            let ghost before = r@;
            r.push(c);
            proof {
                assert(r@[before.len() as int] == orig[jj]);
                assert forall|k: int| 0 <= k < r@.len() implies orig.contains(#[trigger] r@[k]) by {
                    if k < before.len() {
                        assert(r@[k] == before[k]);
                    }
                }
                assert forall|k1: int, k2: int| 0 <= k1 < k2 < r@.len() implies !(#[trigger] r@[k1]).eqv(#[trigger] r@[k2]) by {
                    assert(r@[k1] == before[k1] || k1 == before.len());
                    if k2 == before.len() {
                        assert(!before[k1].eqv(c));
                    } else {
                        assert(r@[k2] == before[k2]);
                    }
                }
                assert forall|j: int|
                    rest@.len() <= j < orig.len() && (#[trigger] orig[j]).legal() implies exists|k: int|
                        0 <= k < r@.len() && #[trigger] r@[k].eqv(orig[j]) by {
                    if j == jj {
                        assert(r@[before.len() as int].eqv(orig[j]));
                    } else {
                        let k = choose|k: int| 0 <= k < before.len() && #[trigger] before[k].eqv(orig[j]);
                        assert(r@[k] == before[k]);
                    }
                }
            }
        } else {
            proof {
                assert forall|j: int|
                    rest@.len() <= j < orig.len() && (#[trigger] orig[j]).legal() implies exists|k: int|
                        0 <= k < r@.len() && #[trigger] r@[k].eqv(orig[j]) by {
                    if j == jj {
                        let k = choose|k: int| 0 <= k < r@.len() && #[trigger] r@[k].eqv(c);
                        assert(r@[k].eqv(orig[j]));
                    }
                }
            }
        }
    }
    r
}

impl State {
    /// Adds every move of the piece on the `m`-th occupied cell, if it is
    /// the mover's.
    fn add_moves_from(&self, m: usize, cands: &mut Vec<State>)
        requires
            self.board.wf(),
            self.board.cells_ok(3),
            self.turn < usize::MAX,
            m < self.board.size(),
            self.all_candidates(old(cands)@),
        ensures
            self.all_candidates(final(cands)@),
            grows(old(cands)@, final(cands)@),
            forall|to: Point, s: State|
                #[trigger] self.listed_move(s, self.board.entries_view()[m as int].0, to) ==> offered(
                    final(cands)@,
                    s,
                ),
    {
        let from = self.board.key_at(m);
        let piece = self.board.piece_at(m);
        proof {
            Board::lemma_entry(self.board, m as int);
            assert(cands@.take(cands@.len() as int) =~= cands@);
        }
        if piece.player() != self.active {
            return;
        }
        match piece {
            Piece::Queen(_) => self.add_queen_moves(from, cands),
            Piece::Beetle(pl, under) => self.add_beetle_moves(from, *pl, under, cands),
            Piece::Grasshopper(_) => self.add_jumps(from, cands),
            Piece::Ant(_) => self.add_crawls(from, false, cands),
            Piece::Spider(_) => self.add_crawls(from, true, cands),
        }
    }

    /// What the filtered candidates give: legal, distinct positions, and
    /// every legal listed successor among them.
    proof fn lemma_results(self, placed: Seq<State>, all: Seq<State>, r: Seq<State>)
        requires
            self.board.wf(),
            self.all_candidates(all),
            forall|idx: int, q: Point, s: State|
                0 <= idx < self.bag().len() && self.placement_cell(q) && #[trigger] self.placed_as(
                    s,
                    idx,
                    q,
                ) ==> offered(all, s),
            forall|mm: int, to: Point, s: State|
                0 <= mm < self.board.size() && #[trigger] self.listed_move(s, self.board.entries_view()[mm].0, to)
                    ==> offered(all, s),
            forall|k: int| 0 <= k < r.len() ==> (#[trigger] r[k]).legal(),
            forall|k: int| 0 <= k < r.len() ==> all.contains(#[trigger] r[k]),
            forall|k1: int, k2: int| 0 <= k1 < k2 < r.len() ==> !(#[trigger] r[k1]).eqv(#[trigger] r[k2]),
            forall|j: int|
                0 <= j < all.len() && (#[trigger] all[j]).legal() ==> exists|k: int|
                    0 <= k < r.len() && #[trigger] r[k].eqv(all[j]),
        ensures
            forall|k: int| 0 <= k < r.len() ==> (#[trigger] r[k]).legal() && r[k].board.wf(),
            forall|k: int|
                0 <= k < r.len() ==> self.is_placement(#[trigger] r[k]) || self.is_movement(r[k]),
            forall|k1: int, k2: int| 0 <= k1 < k2 < r.len() ==> !(#[trigger] r[k1]).matches(#[trigger] r[k2]),
            forall|idx: int, q: Point, s: State|
                0 <= idx < self.bag().len() && self.placement_cell(q) && #[trigger] self.placed_as(
                    s,
                    idx,
                    q,
                ) && s.board.wf() && s.legal() ==> offered(r, s),
            forall|from: Point, to: Point, s: State|
                #[trigger] self.listed_move(s, from, to) && s.board.wf() && s.legal() ==> offered(r, s),
    {

            assert forall|k: int| 0 <= k < r.len() implies self.is_placement(#[trigger] r[k])
                || self.is_movement(r[k]) by {
                let j = choose|j: int| 0 <= j < all.len() && #[trigger] all[j] == r[k];
                assert(self.candidate(all[j]));
            }
            assert forall|k: int| 0 <= k < r.len() implies (#[trigger] r[k]).legal() && r[k].board.wf() by {
                let j = choose|j: int| 0 <= j < all.len() && #[trigger] all[j] == r[k];
                assert(self.candidate(all[j]));
            }
            assert forall|k1: int, k2: int| 0 <= k1 < k2 < r.len() implies !(#[trigger] r[k1]).matches(
                #[trigger] r[k2],
            ) by {
                let j1 = choose|j: int| 0 <= j < all.len() && #[trigger] all[j] == r[k1];
                let j2 = choose|j: int| 0 <= j < all.len() && #[trigger] all[j] == r[k2];
                assert(self.candidate(all[j1]));
                assert(self.candidate(all[j2]));
                if r[k1].matches(r[k2]) {
                    Board::lemma_canonical(r[k1].board, r[k2].board);
                    assert(r[k1].eqv(r[k2]));
                }
            }
            assert forall|s: State| offered(all, s) && s.board.wf() && s.legal() implies offered(r, s) by {
                let j = choose|j: int| 0 <= j < all.len() && #[trigger] all[j].matches(s);
                let c = all[j];
                assert(self.candidate(c));
                Board::lemma_canonical(c.board, s.board);
                assert(c.legal());
                let k = choose|k: int| 0 <= k < r.len() && #[trigger] r[k].eqv(all[j]);
                Board::lemma_same_view(r[k].board, c.board);
                assert(r[k].matches(s));
            }
            assert forall|from: Point, to: Point, s: State|
                #[trigger] self.listed_move(s, from, to) && s.board.wf() && s.legal() implies offered(r, s) by {
                let mm = Board::lemma_key(self.board, from);
                assert(self.listed_move(s, self.board.entries_view()[mm].0, to));
                assert(offered(all, s));
            }
            assert forall|idx: int, q: Point, s: State|
                0 <= idx < self.bag().len() && self.placement_cell(q) && #[trigger] self.placed_as(
                    s,
                    idx,
                    q,
                ) && s.board.wf() && s.legal() implies offered(r, s) by {
                assert(offered(all, s));
                assert(offered(all, s));
            }
            }

    /// Every legal position that the player to move can reach in one ply,
    /// each once.
    ///
    /// Each result is legal and is a placement or a movement of this state,
    /// and every legal placement and every legal move of a piece of the
    /// mover is among the results.
    pub fn get_moves(&self) -> (r: Vec<State>)
        requires
            self.board.wf(),
            self.board.cells_ok(3),
            self.turn < usize::MAX,
        ensures
            forall|k: int| 0 <= k < r@.len() ==> (#[trigger] r@[k]).legal() && r@[k].board.wf(),
            forall|k: int|
                0 <= k < r@.len() ==> self.is_placement(#[trigger] r@[k]) || self.is_movement(r@[k]),
            forall|k1: int, k2: int| 0 <= k1 < k2 < r@.len() ==> !(#[trigger] r@[k1]).matches(#[trigger] r@[k2]),
            forall|idx: int, q: Point, s: State|
                0 <= idx < self.bag().len() && self.placement_cell(q) && #[trigger] self.placed_as(
                    s,
                    idx,
                    q,
                ) && s.board.wf() && s.legal() ==> offered(r@, s),
            forall|from: Point, to: Point, s: State|
                #[trigger] self.listed_move(s, from, to) && s.board.wf() && s.legal() ==> offered(r@, s),
    {
        let mut cands: Vec<State> = Vec::new();
        self.add_placements(&mut cands);
        let ghost placed = cands@;
        assert(cands@.take(cands@.len() as int) =~= cands@);
        let mut m: usize = 0;
        while m < self.board.len()
            invariant
                self.board.wf(),
                self.board.cells_ok(3),
                self.turn < usize::MAX,
                m <= self.board.size(),
                self.all_candidates(cands@),
                grows(placed, cands@),
                forall|idx: int, q: Point, s: State|
                    0 <= idx < self.bag().len() && self.placement_cell(q) && #[trigger] self.placed_as(
                        s,
                        idx,
                        q,
                    ) ==> offered(placed, s),
                forall|mm: int, to: Point, s: State|
                    0 <= mm < m && #[trigger] self.listed_move(s, self.board.entries_view()[mm].0, to)
                        ==> offered(cands@, s),
            decreases self.board.size() - m,
        {
            let ghost before = cands@;
            self.add_moves_from(m, &mut cands);
            proof {
                lemma_grows_trans(placed, before, cands@);
                lemma_offered_grows(before, cands@);
            }
            m = m + 1;
        }
        proof {
            lemma_offered_grows(placed, cands@);
        }
        let ghost all = cands@;
        let r = keep_legal(cands);
        proof {
            self.lemma_results(placed, all, r@);
        }
        r
    }
}

} // verus!
