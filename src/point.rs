use crate::board::Board;
use crate::piece::Piece;
use itertools::Itertools;
use vstd::prelude::*;

verus! {

/// A hexagonal cell, as three signed coordinates.
///
/// The vector (1, -1, 1) denotes no displacement, so one cell has many
/// encodings; every constructor and every step brings the result into the
/// canonical form (see `is_canonical`). That form is not unique to a cell:
/// (0, 0, -1) and (1, -1, 0) are both canonical, and the board treats them
/// as two cells.
#[derive(Debug, Clone, Copy, PartialEq, Eq, Structural, PartialOrd, Ord, Hash)]
pub struct Point {
    pub x: isize,
    pub y: isize,
    pub z: isize,
}

/// How many times the canonicalizing transform applies to (x, y, z).
pub open spec fn canon_shift(x: int, y: int, z: int) -> int {
    if y > 0 && z < 0 {
        if y <= -z { y } else { -z }
    } else {
        0
    }
}

/// The canonical form of (x, y, z), over unbounded integers.
pub open spec fn canon_of(x: int, y: int, z: int) -> (int, int, int) {
    let k = canon_shift(x, y, z);
    (x + k, y - k, z + k)
}

/// A triple of integers that fits the fields of a `Point`.
pub open spec fn fits(t: (int, int, int)) -> bool {
    isize::MIN <= t.0 <= isize::MAX && isize::MIN <= t.1 <= isize::MAX && isize::MIN <= t.2
        <= isize::MAX
}

/// The point with the coordinates `t`.
pub open spec fn point_of(t: (int, int, int)) -> Point {
    Point { x: t.0 as isize, y: t.1 as isize, z: t.2 as isize }
}

/// Axis and sign of the `i`-th of the six directions, in ring order:
/// -x, -y, -z, +x, +y, +z.
pub open spec fn delta(i: int) -> (int, int, int) {
    if i == 0 {
        (-1, 0, 0)
    } else if i == 1 {
        (0, -1, 0)
    } else if i == 2 {
        (0, 0, -1)
    } else if i == 3 {
        (1, 0, 0)
    } else if i == 4 {
        (0, 1, 0)
    } else {
        (0, 0, 1)
    }
}

/// Every coordinate of `p` is at least `slack` away from the ends of the
/// `isize` range: `slack` steps to neighbours cannot overflow.
pub open spec fn roomy(p: Point, slack: int) -> bool {
    -(isize::MAX as int) + slack <= p.x <= isize::MAX - slack && -(isize::MAX as int) + slack
        <= p.y <= isize::MAX - slack && -(isize::MAX as int) + slack <= p.z <= isize::MAX
        - slack
}

/// The items of `s` with every repeat after the first dropped, in order.
pub open spec fn first_occurrences(s: Seq<Point>) -> Seq<Point>
    decreases s.len(),
{
    if s.len() == 0 {
        s
    } else {
        let r = first_occurrences(s.drop_last());
        if s.drop_last().contains(s.last()) {
            r
        } else {
            r.push(s.last())
        }
    }
}

pub proof fn lemma_first_occurrences(s: Seq<Point>)
    ensures
        first_occurrences(s).no_duplicates(),
        forall|q: Point| first_occurrences(s).contains(q) <==> s.contains(q),
    decreases s.len(),
{
    if s.len() > 0 {
        let d = s.drop_last();
        lemma_first_occurrences(d);
        assert(s =~= d.push(s.last()));
        assert forall|q: Point| #[trigger] s.contains(q) <==> d.contains(q) || q == s.last() by {
            if s.contains(q) {
                let i = choose|i: int| 0 <= i < s.len() && s[i] == q;
                if i < d.len() {
                    assert(d[i] == q);
                }
            }
            if d.contains(q) {
                let i = choose|i: int| 0 <= i < d.len() && d[i] == q;
                assert(s[i] == q);
            }
            if q == s.last() {
                assert(s[s.len() - 1] == q);
            }
        }
        let r = first_occurrences(d);
        if !d.contains(s.last()) {
            let rp = r.push(s.last());
            assert forall|q: Point| #[trigger] rp.contains(q) <==> r.contains(q) || q == s.last() by {
                if rp.contains(q) {
                    let i = choose|i: int| 0 <= i < rp.len() && rp[i] == q;
                    if i < r.len() {
                        assert(r[i] == q);
                    }
                }
                if r.contains(q) {
                    let i = choose|i: int| 0 <= i < r.len() && r[i] == q;
                    assert(rp[i] == q);
                }
                if q == s.last() {
                    assert(rp[rp.len() - 1] == q);
                }
            }
            assert forall|i: int, j: int| 0 <= i < rp.len() && 0 <= j < rp.len() && i != j implies rp[i]
                != rp[j] by {
                if i < r.len() && j < r.len() {
                } else if i < r.len() {
                    assert(r.contains(rp[i]));
                } else if j < r.len() {
                    assert(r.contains(rp[j]));
                }
            }
        }
    }
}

/// A neighbour has one step less of room than its cell.
pub proof fn lemma_nb_room(p: Point, i: int, s: int)
    requires
        0 <= i < 6,
        s >= 0,
        p.is_canonical(),
        roomy(p, s + 1),
    ensures
        p.nb(i).is_canonical(),
        roomy(p.nb(i), s),
{
    reveal(Point::nb);
}

/// No cell is its own neighbour.
pub proof fn lemma_nb_other(p: Point, i: int)
    requires
        0 <= i < 6,
        p.is_canonical(),
        roomy(p, 1),
    ensures
        p.nb(i) != p,
{
    reveal(Point::nb);
}

/// The cell whose neighbour in direction `j` is `k`, where that step
/// canonicalized `a` times.
pub open spec fn back_of(k: Point, j: int, a: int) -> Point {
    let d = delta(j);
    point_of((k.x - d.0 - a, k.y - d.1 + a, k.z - d.2 - a))
}

/// From a canonical cell a step canonicalizes at most once, so the cell
/// is found back from its neighbour.
pub proof fn lemma_back_of(q: Point, j: int) -> (a: int)
    requires
        0 <= j < 6,
        q.is_canonical(),
        roomy(q, 1),
    ensures
        0 <= a <= 1,
        q == back_of(q.nb(j), j, a),
{
    reveal(Point::nb);
    let d = delta(j);
    canon_shift(q.x + d.0, q.y + d.1, q.z + d.2)
}

/// A cell whose neighbour has room has one step less of room itself.
pub proof fn lemma_back_room(p: Point, i: int, s: int)
    requires
        0 <= i < 6,
        s >= 0,
        p.is_canonical(),
        roomy(p, 1),
        roomy(p.nb(i), s + 1),
    ensures
        roomy(p, s),
{
    reveal(Point::nb);
}

/// A quantity that grows by exactly one with each step along direction `i`.
pub open spec fn gauge(p: Point, i: int) -> int {
    if i == 0 || i == 1 {
        -(p.x + p.y)
    } else if i == 2 {
        -(p.y + p.z)
    } else if i == 3 || i == 4 {
        p.x + p.y
    } else {
        p.y + p.z
    }
}

pub proof fn lemma_gauge(p: Point, i: int)
    requires
        0 <= i < 6,
        p.is_canonical(),
        roomy(p, 1),
    ensures
        gauge(p.nb(i), i) == gauge(p, i) + 1,
{
    reveal(Point::nb);
}

/// Relies on itertools' `Itertools::unique`: it yields each item the first
/// time it is met and skips its later repeats, keeping the order.
#[verifier::external_body]
pub(crate) fn unique_cells(v: Vec<Point>) -> (r: Vec<Point>)
    ensures
        r@ == first_occurrences(v@),
{
    v.into_iter().map(|p| (p.x, p.y, p.z)).unique().map(|t| Point { x: t.0, y: t.1, z: t.2 }).collect()
}

impl Point {
    /// A point is canonical iff not (y > 0 and z < 0).
    pub open spec fn is_canonical(self) -> bool {
        !(self.y > 0 && self.z < 0)
    }

    /// The canonical form of this point.
    pub open spec fn canon(self) -> Point {
        point_of(canon_of(self.x as int, self.y as int, self.z as int))
    }

    /// The `i`-th neighbour: one step along direction `i`, then canonicalized.
    #[verifier::opaque]
    pub open spec fn nb(self, i: int) -> Point {
        let d = delta(i);
        point_of(canon_of(self.x + d.0, self.y + d.1, self.z + d.2))
    }

    /// The six neighbours in ring order.
    pub open spec fn nbs(self) -> Seq<Point> {
        seq![self.nb(0), self.nb(1), self.nb(2), self.nb(3), self.nb(4), self.nb(5)]
    }

    /// Whether `q` is one of the six neighbours of this point.
    pub open spec fn adjacent(self, q: Point) -> bool {
        exists|i: int| 0 <= i < 6 && #[trigger] self.nb(i) == q
    }

    /// Neighbours `k` and `k + 1` of the ring are both empty.
    pub open spec fn pair_open(self, b: Map<Point, Piece>, k: int) -> bool {
        !b.contains_key(self.nb(k)) && !b.contains_key(self.nb((k + 1) % 6))
    }

    /// The slide to neighbour `i` is free: the target is empty and so
    /// is at least one of the two cells that flank the slide.
    pub open spec fn gate_open(self, b: Map<Point, Piece>, i: int) -> bool {
        !b.contains_key(self.nb(i)) && (!b.contains_key(self.nb((i + 5) % 6)) || !b.contains_key(
            self.nb((i + 1) % 6),
        ))
    }

    /// A piece on this cell can slide to `q` in one step.
    pub open spec fn can_slide(self, b: Map<Point, Piece>, q: Point) -> bool {
        exists|i: int| 0 <= i < 6 && #[trigger] self.nb(i) == q && self.gate_open(b, i)
    }

    pub fn new(x: isize, y: isize, z: isize) -> (r: Self)
        requires
            fits(canon_of(x as int, y as int, z as int)),
        ensures
            r == (Point { x, y, z }).canon(),
            r.is_canonical(),
    {
        (Point { x, y, z }).canonicalize()
    }

    pub fn canonicalize(&self) -> (r: Self)
        requires
            fits(canon_of(self.x as int, self.y as int, self.z as int)),
        ensures
            r == self.canon(),
            r.is_canonical(),
    {
        let mut new = *self;
        while new.y > 0 && new.z < 0
            invariant
                canon_of(new.x as int, new.y as int, new.z as int) == canon_of(
                    self.x as int,
                    self.y as int,
                    self.z as int,
                ),
                fits(canon_of(self.x as int, self.y as int, self.z as int)),
            decreases new.y,
        {
            new.y = new.y - 1;
            new.z = new.z + 1;
            new.x = new.x + 1;
        }
        new
    }

    /// The coordinate on axis `index` (0, 1 or 2).
    pub fn axis(&self, index: usize) -> (r: isize)
        requires
            index < 3,
        ensures
            index == 0 ==> r == self.x,
            index == 1 ==> r == self.y,
            index == 2 ==> r == self.z,
    {
        if index == 0 {
            self.x
        } else if index == 1 {
            self.y
        } else {
            self.z
        }
    }

    /// The neighbour in direction `i` of the ring.
    pub fn step(&self, i: usize) -> (r: Point)
        requires
            i < 6,
            self.is_canonical(),
            roomy(*self, 1),
        ensures
            r == self.nb(i as int),
            r.is_canonical(),
            roomy(r, 0),
            forall|s: int| s >= 0 && roomy(*self, s + 1) ==> #[trigger] roomy(r, s),
    {
        let p = if i == 0 {
            Point { x: self.x - 1, y: self.y, z: self.z }
        } else if i == 1 {
            Point { x: self.x, y: self.y - 1, z: self.z }
        } else if i == 2 {
            Point { x: self.x, y: self.y, z: self.z - 1 }
        } else if i == 3 {
            Point { x: self.x + 1, y: self.y, z: self.z }
        } else if i == 4 {
            Point { x: self.x, y: self.y + 1, z: self.z }
        } else {
            Point { x: self.x, y: self.y, z: self.z + 1 }
        };
        proof {
            reveal(Point::nb);
        }
        p.canonicalize()
    }

    pub fn neighbors(&self) -> (r: Vec<Point>)
        requires
            self.is_canonical(),
            roomy(*self, 1),
        ensures
            r@ == self.nbs(),
    {
        let mut r: Vec<Point> = Vec::new();
        let mut i: usize = 0;
        while i < 6
            invariant
                i <= 6,
                self.is_canonical(),
                roomy(*self, 1),
                r@ == self.nbs().take(i as int),
            decreases 6 - i,
        {
            r.push(self.step(i));
            i = i + 1;
            assert(r@ =~= self.nbs().take(i as int));
        }
        assert(r@ =~= self.nbs());
        r
    }
}

impl Point {
    /// The slide targets found among the first `i` pairs
    /// of the ring, each pair in ring order.
    pub open spec fn slide_raw(self, b: Map<Point, Piece>, i: int) -> Seq<Point>
        decreases i,
    {
        if i <= 0 {
            Seq::empty()
        } else if self.pair_open(b, i - 1) {
            self.slide_raw(b, i - 1).push(self.nb(i - 1)).push(self.nb(i % 6))
        } else {
            self.slide_raw(b, i - 1)
        }
    }

    proof fn lemma_slide_raw(self, b: Map<Point, Piece>, i: int, q: Point)
        requires
            0 <= i <= 6,
        ensures
            self.slide_raw(b, i).contains(q) <==> exists|k: int|
                0 <= k < i && #[trigger] self.pair_open(b, k) && (q == self.nb(k) || q == self.nb(
                    (k + 1) % 6,
                )),
        decreases i,
    {
        if i > 0 {
            self.lemma_slide_raw(b, i - 1, q);
            let prev = self.slide_raw(b, i - 1);
            if self.pair_open(b, i - 1) {
                let cur = prev.push(self.nb(i - 1)).push(self.nb(i % 6));
                assert(cur[cur.len() - 2] == self.nb(i - 1));
                assert(cur[cur.len() - 1] == self.nb(i % 6));
                if cur.contains(q) {
                    let m = choose|m: int| 0 <= m < cur.len() && cur[m] == q;
                    if m < prev.len() {
                        assert(prev[m] == q);
                    }
                }
                if prev.contains(q) {
                    let m = choose|m: int| 0 <= m < prev.len() && prev[m] == q;
                    assert(cur[m] == q);
                }
            } else {
                if exists|k: int|
                    0 <= k < i && #[trigger] self.pair_open(b, k) && (q == self.nb(k) || q
                        == self.nb((k + 1) % 6)) {
                    let k = choose|k: int|
                        0 <= k < i && #[trigger] self.pair_open(b, k) && (q == self.nb(k) || q
                            == self.nb((k + 1) % 6));
                    assert(k < i - 1);
                }
            }
        }
    }

    proof fn lemma_slide_all(self, b: Map<Point, Piece>, q: Point)
        ensures
            self.slide_raw(b, 6).contains(q) <==> self.can_slide(b, q),
    {
        self.lemma_slide_raw(b, 6, q);
        if self.can_slide(b, q) {
            let i = choose|i: int| 0 <= i < 6 && #[trigger] self.nb(i) == q && self.gate_open(b, i);
            if !b.contains_key(self.nb((i + 1) % 6)) {
                assert(self.pair_open(b, i));
            } else {
                assert(self.pair_open(b, (i + 5) % 6));
                assert((((i + 5) % 6) + 1) % 6 == i);
            }
        }
        if self.slide_raw(b, 6).contains(q) {
            let k = choose|k: int|
                0 <= k < 6 && #[trigger] self.pair_open(b, k) && (q == self.nb(k) || q == self.nb(
                    (k + 1) % 6,
                ));
            if q == self.nb(k) {
                assert(self.gate_open(b, k));
            } else {
                let i = (k + 1) % 6;
                assert((i + 5) % 6 == k);
                assert(self.gate_open(b, i));
            }
        }
    }

    /// The empty neighbours that a piece on this cell can slide to.
    pub fn movable_neighbors(&self, board: &Board) -> (r: Vec<Point>)
        requires
            board.wf(),
            self.is_canonical(),
            roomy(*self, 1),
        ensures
            r@.no_duplicates(),
            forall|q: Point| r@.contains(q) <==> self.can_slide(board@, q),
    {
        let n = self.neighbors();
        let mut empty: Vec<bool> = Vec::new();
        let mut i: usize = 0;
        while i < 6
            invariant
                i <= 6,
                n@ == self.nbs(),
                board.wf(),
                empty@.len() == i,
                forall|k: int| 0 <= k < i ==> empty@[k] == !board@.contains_key(#[trigger] self.nb(k)),
            decreases 6 - i,
        {
            empty.push(!board.contains_key(&n[i]));
            i = i + 1;
        }
        let mut raw: Vec<Point> = Vec::new();
        let mut i: usize = 0;
        while i < 6
            invariant
                i <= 6,
                n@ == self.nbs(),
                empty@.len() == 6,
                forall|k: int| 0 <= k < 6 ==> empty@[k] == !board@.contains_key(#[trigger] self.nb(k)),
                raw@ == self.slide_raw(board@, i as int),
            decreases 6 - i,
        {
            let j: usize = if i == 5 {
                0
            } else {
                i + 1
            };
            if empty[i] && empty[j] {
                raw.push(n[i]);
                raw.push(n[j]);
            }
            i = i + 1;
        }
        let r = unique_cells(raw);
        proof {
            lemma_first_occurrences(raw@);
            assert forall|q: Point| r@.contains(q) <==> self.can_slide(board@, q) by {
                self.lemma_slide_all(board@, q);
            }
        }
        r
    }
}

} // verus!
