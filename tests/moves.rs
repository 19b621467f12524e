use hive::board::Board;
use hive::piece::{Piece, Pieces, Player};
use hive::point::Point;
use hive::state::State;

fn pt(x: isize, y: isize, z: isize) -> Point {
    Point { x, y, z }
}

fn piece_on(s: &State, p: Point) -> Option<Piece> {
    s.board.get(&p).cloned()
}

#[test]
fn test_first_move() {
    let state = State::default();

    let moves = state.get_moves();

    assert_eq!(moves.len(), 5);
}

#[test]
fn test_second_move() {
    for state in State::default().get_moves().into_iter() {
        let moves = state.get_moves();

        assert_eq!(moves.len(), 5);
    }
}

#[test]
fn test_validate_no_queen() {
    let state = State {
        turn: 5,
        active: Player::P2,
        ..Default::default()
    };

    assert!(!state.validate());
}

#[test]
fn test_validate_valid() {
    let state = State::default();

    assert!(state.validate());
}

#[test]
fn canonicalize_shifts_until_canonical() {
    assert_eq!(Point::new(0, 1, -1), pt(1, 0, 0));
    assert_eq!(Point::new(0, 3, -2), pt(2, 1, 0));
    assert_eq!(Point::new(5, -1, -7), pt(5, -1, -7));
    let p = Point::new(2, 4, -9);
    assert_eq!(p, pt(6, 0, -5));
    assert_eq!(p.canonicalize(), p);
}

#[test]
fn neighbors_in_ring_order() {
    let n = pt(0, 0, 0).neighbors();
    assert_eq!(
        n,
        vec![pt(-1, 0, 0), pt(0, -1, 0), pt(0, 0, -1), pt(1, 0, 0), pt(0, 1, 0), pt(0, 0, 1)]
    );
    // A step that needs canonicalizing.
    assert_eq!(pt(0, 0, -1).neighbors()[4], pt(1, 0, 0));
}

#[test]
fn neighbor_symmetry_on_plain_steps() {
    let p = pt(2, -1, 3);
    for q in p.neighbors() {
        assert!(q.neighbors().contains(&p));
    }
}

#[test]
fn axis_reads_each_coordinate() {
    let p = pt(4, -2, 7);
    assert_eq!(p.axis(0), 4);
    assert_eq!(p.axis(1), -2);
    assert_eq!(p.axis(2), 7);
}

#[test]
fn movable_neighbors_on_empty_board_are_all_six() {
    let b = Board::new();
    let m = pt(0, 0, 0).movable_neighbors(&b);
    assert_eq!(m.len(), 6);
    for q in pt(0, 0, 0).neighbors() {
        assert!(m.contains(&q));
    }
}

#[test]
fn movable_neighbors_respect_the_gate() {
    // Occupy the two cells that flank the slide to the -x neighbour.
    let mut b = Board::new();
    b.insert(pt(0, -1, 0), Piece::Ant(Player::P1));
    b.insert(pt(0, 0, 1), Piece::Ant(Player::P1));
    let m = pt(0, 0, 0).movable_neighbors(&b);
    assert!(!m.contains(&pt(-1, 0, 0)));
    assert!(!m.contains(&pt(0, -1, 0)));
    assert!(!m.contains(&pt(0, 0, 1)));
    assert!(m.contains(&pt(0, 0, -1)));
    assert!(m.contains(&pt(1, 0, 0)));
    assert!(m.contains(&pt(0, 1, 0)));
    assert_eq!(m.len(), 3);
}

#[test]
fn gate_symmetry_on_a_plain_step() {
    let mut b = Board::new();
    b.insert(pt(0, -1, 0), Piece::Ant(Player::P1));
    let p = pt(0, 0, 0);
    let q = pt(0, 0, -1);
    assert!(p.movable_neighbors(&b).contains(&q));
    assert!(q.movable_neighbors(&b).contains(&p));
}

#[test]
fn gate_reads_flanks_by_their_encoding() {
    // From (0, 0, 0) the flanks of the slide to (-1, 0, 0) are read as
    // (0, -1, 0) and (0, 0, 1); from (-1, 0, 0) back, as (-1, 0, -1) and
    // (-1, 1, 0). The board holds only the latter two.
    let mut b = Board::new();
    b.insert(pt(-1, 0, -1), Piece::Ant(Player::P1));
    b.insert(pt(-1, 1, 0), Piece::Ant(Player::P1));
    assert!(pt(0, 0, 0).movable_neighbors(&b).contains(&pt(-1, 0, 0)));
    assert!(!pt(-1, 0, 0).movable_neighbors(&b).contains(&pt(0, 0, 0)));
}

#[test]
fn board_keeps_key_order() {
    let mut a = Board::new();
    a.insert(pt(1, 0, 0), Piece::Queen(Player::P1));
    a.insert(pt(0, 0, 0), Piece::Ant(Player::P2));
    let mut b = Board::new();
    b.insert(pt(0, 0, 0), Piece::Ant(Player::P2));
    b.insert(pt(1, 0, 0), Piece::Queen(Player::P1));
    assert_eq!(a, b);
    assert_eq!(a.len(), 2);
    assert_eq!(a.key_at(0), pt(0, 0, 0));
    assert_eq!(a.remove(&pt(0, 0, 0)), Some(Piece::Ant(Player::P2)));
    assert_eq!(a.remove(&pt(0, 0, 0)), None);
    assert_eq!(a.len(), 1);
    assert!(a.contains_key(&pt(1, 0, 0)));
}

#[test]
fn pieces_remove_keeps_order() {
    let mut p = Pieces::new();
    assert_eq!(p.p1.len(), 11);
    let taken = p.remove(Player::P1, 1);
    assert_eq!(taken, Piece::Beetle(Player::P1, None));
    assert_eq!(p.p1.len(), 10);
    assert_eq!(p.p1[0], Piece::Queen(Player::P1));
    assert_eq!(p.p1[1], Piece::Beetle(Player::P1, None));
    assert_eq!(p.p1[2], Piece::Ant(Player::P1));
    assert_eq!(p.p2.len(), 11);
    let mut q = Pieces::new();
    q.remove(Player::P1, 2);
    assert_eq!(p, q);
}

#[test]
fn piece_player_and_opponent() {
    let stacked = Piece::Beetle(Player::P2, Some(Box::new(Piece::Queen(Player::P1))));
    assert_eq!(stacked.player(), Player::P2);
    assert_eq!(Piece::Spider(Player::P1).player(), Player::P1);
    assert_eq!(Player::P1.opponent(), Player::P2);
    assert_eq!(Player::P2.opponent(), Player::P1);
}

#[test]
fn next_turn_bookkeeping() {
    let s = State::new(Some(3), Player::P2, None, None, Pieces::new(), Board::new());
    let t = s.next_turn(Some(pt(0, 0, 1)), None, Board::new());
    assert_eq!(t.turn, 4);
    assert_eq!(t.active, Player::P1);
    assert_eq!(t.p2_queen, Some(pt(0, 0, 1)));
    assert_eq!(t.p1_queen, None);
    let u = t.next_turn(None, None, Board::new());
    assert_eq!(u.turn, 4);
    assert_eq!(u.active, Player::P2);
    assert_eq!(u.p2_queen, Some(pt(0, 0, 1)));
    let d = State::new(None, Player::P1, None, None, Pieces::new(), Board::new());
    assert_eq!(d.turn, 0);
}

#[test]
fn validate_rejects_a_split_hive() {
    let mut b = Board::new();
    b.insert(pt(0, 0, 0), Piece::Queen(Player::P1));
    b.insert(pt(5, 0, 0), Piece::Queen(Player::P2));
    let s = State::new(Some(1), Player::P1, None, None, Pieces::new(), b);
    assert!(!s.validate());
    assert_eq!(s.component_size(Some(pt(0, 0, 0))), 1);
    assert_eq!(s.component_size(None), 0);
}

#[test]
fn validate_queen_deadline_on_turn_four() {
    let s = State::new(Some(4), Player::P2, None, None, Pieces::new(), Board::new());
    assert!(!s.validate());
    let s = State::new(Some(4), Player::P1, None, None, Pieces::new(), Board::new());
    assert!(s.validate());
    let s = State::new(Some(4), Player::P2, Some(pt(0, 0, 0)), None, Pieces::new(), Board::new());
    assert!(s.validate());
    let s = State::new(Some(5), Player::P1, Some(pt(0, 0, 0)), Some(pt(0, 0, 1)), Pieces::new(), Board::new());
    assert!(s.validate());
}

#[test]
fn first_moves_place_one_piece_at_the_origin() {
    for s in State::default().get_moves() {
        assert_eq!(s.turn, 0);
        assert_eq!(s.active, Player::P2);
        assert_eq!(s.board.len(), 1);
        assert_eq!(s.unplaced.p1.len(), 10);
        assert_eq!(s.unplaced.p2.len(), 11);
        assert_eq!(piece_on(&s, pt(0, 0, 0)).map(|p| p.player()), Some(Player::P1));
        let queen_placed = matches!(piece_on(&s, pt(0, 0, 0)), Some(Piece::Queen(_)));
        assert_eq!(s.p1_queen.is_some(), queen_placed);
    }
}

#[test]
fn second_moves_advance_the_turn() {
    for s in State::default().get_moves() {
        for t in s.get_moves() {
            assert_eq!(t.turn, 1);
            assert_eq!(t.active, Player::P1);
            assert_eq!(t.board.len(), 2);
            assert_eq!(t.unplaced.p2.len(), 10);
            assert_eq!(piece_on(&t, pt(0, 0, 1)).map(|p| p.player()), Some(Player::P2));
            assert!(t.validate());
        }
    }
}

#[test]
fn third_move_places_away_from_the_opponent() {
    let first = State::default().get_moves();
    let s = first[0].get_moves()[0].clone();
    let cells = s.placeable_points();
    assert!(!cells.is_empty());
    for c in &cells {
        assert!(!s.board.contains_key(c));
        for n in c.neighbors() {
            if let Some(p) = s.board.get(&n) {
                assert_eq!(p.player(), Player::P1);
            }
        }
    }
    for t in s.get_moves() {
        assert!(t.validate());
        assert_eq!(t.turn, 1);
        assert_eq!(t.active, Player::P2);
        assert_eq!(t.board.len(), 3);
    }
}

#[test]
fn grasshopper_does_not_jump_into_an_empty_neighbour() {
    let mut b = Board::new();
    b.insert(pt(0, 0, 0), Piece::Grasshopper(Player::P1));
    b.insert(pt(0, 0, 1), Piece::Ant(Player::P2));
    let s = State::new(Some(1), Player::P1, None, None, Pieces { p1: vec![], p2: vec![] }, b);
    let moves = s.get_moves();
    assert_eq!(moves.len(), 1);
    let t = &moves[0];
    assert_eq!(piece_on(t, pt(0, 0, 2)), Some(Piece::Grasshopper(Player::P1)));
    assert!(!t.board.contains_key(&pt(0, 0, 0)));
    for n in pt(0, 0, 0).neighbors() {
        assert_ne!(piece_on(t, n), Some(Piece::Grasshopper(Player::P1)));
    }
}

#[test]
fn queen_steps_around_its_neighbour() {
    let mut b = Board::new();
    b.insert(pt(0, 0, 0), Piece::Queen(Player::P1));
    b.insert(pt(1, 0, 0), Piece::Queen(Player::P2));
    let s = State::new(Some(1), Player::P1, Some(pt(0, 0, 0)), Some(pt(1, 0, 0)), Pieces { p1: vec![], p2: vec![] }, b);
    let moves = s.get_moves();
    // Of the five open slides, only these keep the hive connected.
    assert_eq!(moves.len(), 2);
    let mut reached: Vec<Point> = moves.iter().map(|t| t.p1_queen.unwrap()).collect();
    reached.sort();
    assert_eq!(reached, vec![pt(0, 0, -1), pt(0, 1, 0)]);
    for t in &moves {
        let q = t.p1_queen.unwrap();
        assert_eq!(piece_on(t, q), Some(Piece::Queen(Player::P1)));
        assert!(!t.board.contains_key(&pt(0, 0, 0)));
        assert_eq!(t.turn, 1);
        assert_eq!(t.active, Player::P2);
        assert!(t.validate());
    }
}

#[test]
fn beetle_climbs_and_carries() {
    let mut b = Board::new();
    b.insert(pt(0, 0, 0), Piece::Beetle(Player::P1, None));
    b.insert(pt(0, 0, 1), Piece::Queen(Player::P2));
    let s = State::new(Some(1), Player::P1, None, Some(pt(0, 0, 1)), Pieces { p1: vec![], p2: vec![] }, b);
    let moves = s.get_moves();
    let on_top = Piece::Beetle(Player::P1, Some(Box::new(Piece::Queen(Player::P2))));
    let climbed: Vec<&State> = moves.iter().filter(|t| piece_on(t, pt(0, 0, 1)) == Some(on_top.clone())).collect();
    assert_eq!(climbed.len(), 1);
    assert_eq!(climbed[0].board.len(), 1);
    // Climbing down leaves the queen where it was.
    let down = climbed[0].clone();
    let down = State::new(Some(1), Player::P1, None, Some(pt(0, 0, 1)), Pieces { p1: vec![], p2: vec![] }, down.board);
    let back = down.get_moves();
    assert!(back.iter().any(|t| piece_on(t, pt(0, 0, 1)) == Some(Piece::Queen(Player::P2))
        && piece_on(t, pt(0, 0, 0)) == Some(Piece::Beetle(Player::P1, None))));
}

#[test]
fn ant_walks_around_the_hive() {
    let mut b = Board::new();
    b.insert(pt(0, 0, 0), Piece::Ant(Player::P1));
    b.insert(pt(0, 0, 1), Piece::Queen(Player::P2));
    let s = State::new(Some(1), Player::P1, None, Some(pt(0, 0, 1)), Pieces { p1: vec![], p2: vec![] }, b);
    let moves = s.get_moves();
    assert!(moves.len() >= 2);
    for t in &moves {
        assert!(!t.board.contains_key(&pt(0, 0, 0)));
        assert_eq!(t.board.len(), 2);
        assert!(t.validate());
    }
}

#[test]
fn spider_ends_exactly_three_slides_away() {
    let mut b = Board::new();
    b.insert(pt(0, 0, 0), Piece::Spider(Player::P1));
    b.insert(pt(0, 0, 1), Piece::Queen(Player::P2));
    b.insert(pt(0, 0, 2), Piece::Ant(Player::P2));
    let s = State::new(Some(1), Player::P1, None, Some(pt(0, 0, 1)), Pieces { p1: vec![], p2: vec![] }, b);
    let moves = s.get_moves();
    for t in &moves {
        let spot = (0..t.board.len()).map(|i| t.board.key_at(i)).find(|k| piece_on(t, *k) == Some(Piece::Spider(Player::P1))).unwrap();
        assert_ne!(spot, pt(0, 0, 0));
        assert!(!pt(0, 0, 0).neighbors().contains(&spot));
    }
}

#[test]
fn results_are_distinct() {
    let s = State::default().get_moves()[1].clone();
    let moves = s.get_moves();
    for i in 0..moves.len() {
        for j in (i + 1)..moves.len() {
            assert_ne!(moves[i], moves[j]);
        }
    }
}
