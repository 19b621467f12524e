use crate::board::Board;
use crate::piece::{Piece, Player};
use crate::point::{canon_of, delta, fits, point_of, roomy, Point};
use crate::state::State;
use vstd::prelude::*;

verus! {

/// Canonicalizing a canonical form changes nothing.
pub proof fn canonicalize_idempotent(p: Point)
    requires
        fits(canon_of(p.x as int, p.y as int, p.z as int)),
    ensures
        p.canon().is_canonical(),
        p.canon().canon() == p.canon(),
{
}

/// Adjacency is symmetric for a neighbour that is one plain step away,
/// that is, one that canonicalization left alone: stepping back from it
/// in the opposite direction gives the cell again.
pub proof fn neighbor_symmetric(p: Point, i: int)
    requires
        0 <= i < 6,
        p.is_canonical(),
        roomy(p, 2),
        p.nb(i) == point_of((p.x + delta(i).0, p.y + delta(i).1, p.z + delta(i).2)),
    ensures
        p.nb(i).nb((i + 3) % 6) == p,
        p.nb(i).adjacent(p),
{
    reveal(Point::nb);
    assert(p.nb(i).nb((i + 3) % 6) == p);
}

/// The sliding gate is symmetric: if a piece on `p` may slide to its
/// neighbour `q`, a piece on `q` may slide back to the empty `p`, where `q`
/// is one plain step from `p` and the board holds the cells that flank the
/// slide alike under the encodings reached from either end.
pub proof fn gate_symmetric(b: Board, p: Point, i: int)
    requires
        b.wf(),
        0 <= i < 6,
        p.is_canonical(),
        roomy(p, 2),
        p.nb(i) == point_of((p.x + delta(i).0, p.y + delta(i).1, p.z + delta(i).2)),
        !b@.contains_key(p),
        p.gate_open(b@, i),
        b@.contains_key(p.nb(i).nb((i + 2) % 6)) == b@.contains_key(p.nb((i + 1) % 6)),
        b@.contains_key(p.nb(i).nb((i + 4) % 6)) == b@.contains_key(p.nb((i + 5) % 6)),
    ensures
        p.can_slide(b@, p.nb(i)),
        p.nb(i).gate_open(b@, (i + 3) % 6),
        p.nb(i).can_slide(b@, p),
{
    neighbor_symmetric(p, i);
    let q = p.nb(i);
    let j = (i + 3) % 6;
    assert((j + 5) % 6 == (i + 2) % 6);
    assert((j + 1) % 6 == (i + 4) % 6);
    assert(q.gate_open(b@, j));
}

/// Every result of `get_moves` has a connected hive and meets the queen
/// deadline; in particular, with turn 4 or later and the second player to
/// move, the first player's queen is on the board.
pub proof fn legal_meets_queen_deadline(s: State)
    requires
        s.legal(),
        s.turn >= 4,
        s.active == Player::P2,
    ensures
        s.p1_queen.is_some(),
        s.connected(),
{
}

/// A ply passes the turn to the other player, and the turn counter grows
/// by one exactly when the second player has moved.
pub proof fn successor_turn(s: State, t: State)
    requires
        s.turn < usize::MAX,
        s.is_placement(t) || s.is_movement(t),
    ensures
        t.active == s.active.other(),
        s.active == Player::P2 ==> t.turn == s.turn + 1,
        s.active == Player::P1 ==> t.turn == s.turn,
{
    if s.is_placement(t) {
        let (idx, q) = choose|idx: int, q: Point|
            0 <= idx < s.bag().len() && s.placement_cell(q) && #[trigger] s.placed_as(t, idx, q);
    } else {
        let (from, to) = choose|from: Point, to: Point| #[trigger] s.moved_as(t, from, to);
    }
}

/// A placement takes one piece out of the mover's bag and fills one more
/// cell; the other bag is unchanged.
pub proof fn placement_conserves(s: State, t: State)
    requires
        s.board.wf(),
        t.board.wf(),
        s.is_placement(t),
    ensures
        t.unplaced.of(s.active).len() + 1 == s.bag().len(),
        t.unplaced.of(s.active.other()) == s.unplaced.of(s.active.other()),
        t.board.size() == s.board.size() + 1,
{
    let (idx, q) = choose|idx: int, q: Point|
        0 <= idx < s.bag().len() && s.placement_cell(q) && #[trigger] s.placed_as(t, idx, q);
    Board::lemma_dom(s.board);
    Board::lemma_dom(t.board);
    assert(!s.board@.contains_key(q));
    assert(t.board@.dom() == s.board@.dom().insert(q));
}

/// A movement leaves both bags alone; a piece that moves alone (all but a
/// beetle) leaves the number of occupied cells unchanged.
pub proof fn movement_conserves(s: State, t: State, from: Point, to: Point)
    requires
        s.board.wf(),
        t.board.wf(),
        s.moved_as(t, from, to),
    ensures
        t.unplaced.eqv(s.unplaced),
        !s.climbed_as(t, from, to) ==> t.board.size() == s.board.size(),
{
    if !s.climbed_as(t, from, to) {
        Board::lemma_dom(s.board);
        Board::lemma_dom(t.board);
        if s.queen_step(from, to) {
            let i = choose|i: int| 0 <= i < 6 && #[trigger] from.nb(i) == to && from.gate_open(s.board@, i);
        } else if s.jump(from, to) {
            let i = choose|i: int| 0 <= i < 6 && #[trigger] s.jump_dir(from, to, i);
        }
        assert(!s.board@.contains_key(to));
        assert(t.board@.dom() == s.board@.dom().remove(from).insert(to));
    }
}

/// A beetle move keeps the number of pieces on the board: the cells lose one
/// when the beetle climbs onto a piece and gain one when it leaves the piece
/// it carried.
pub proof fn beetle_move_conserves(s: State, t: State, from: Point, to: Point)
    requires
        s.board.wf(),
        s.board.cells_ok(1),
        t.board.wf(),
        s.climbed_as(t, from, to),
    ensures
        t.unplaced.eqv(s.unplaced),
        t.board.size() + (if s.board@.contains_key(to) { 1int } else { 0 }) == s.board.size() + (
        match s.board@[from] {
            Piece::Beetle(_, Some(_)) => 1int,
            _ => 0,
        }),
{
    Board::lemma_dom(s.board);
    Board::lemma_dom(t.board);
    let i = choose|i: int| 0 <= i < 6 && #[trigger] from.nb(i) == to;
    crate::point::lemma_nb_other(from, i);
    let d = s.board@.dom();
    let moved = d.remove(from).insert(to);
    assert(d.remove(from).len() == d.len() - 1);
    if d.contains(to) {
        assert(moved =~= d.remove(from));
    } else {
        assert(moved.len() == d.remove(from).len() + 1);
    }
    match s.board@[from] {
        Piece::Beetle(pl, Some(u)) => {
            assert(t.board@.dom() =~= moved.insert(from));
            assert(!moved.contains(from));
        },
        Piece::Beetle(pl, None) => {
            assert(t.board@.dom() =~= moved);
        },
        _ => {},
    }
}

/// A spider never ends its move on a cell that one slide, or two slides,
/// of the search reach from where it started.
pub proof fn spider_moves_three(s: State, t: State, from: Point, to: Point)
    requires
        s.moved_as(t, from, to),
        s.board@[from] is Spider,
    ensures
        !s.first_crawl(from, to),
        !s.second_crawl(from, to),
{
}

} // verus!
