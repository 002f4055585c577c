use reversi::board::{get_coords_to_edge, Board, BoardOps, Cell, Coord};
use reversi::manager::{Action, GameManager, MoveHistory, Outcome};

fn snapshot(g: &GameManager) -> Vec<Cell> {
    let mut cells: Vec<Cell> = Vec::new();
    for y in 0..8 {
        for x in 0..8 {
            cells.push(g.read((x, y)));
        }
    }
    cells
}

#[test]
fn flip_swaps_players_and_keeps_empty() {
    assert_eq!(Cell::Black.flip(), Cell::White);
    assert_eq!(Cell::White.flip(), Cell::Black);
    assert_eq!(Cell::Empty.flip(), Cell::Empty);
}

#[test]
fn ray_to_edge_diagonal() {
    let r = get_coords_to_edge((0, 0), (1, 1));
    let expected: Vec<Coord> = vec![(1, 1), (2, 2), (3, 3), (4, 4), (5, 5), (6, 6), (7, 7)];
    assert_eq!(r, expected);
}

#[test]
fn ray_to_edge_upward() {
    let r = get_coords_to_edge((3, 4), (0, -1));
    let expected: Vec<Coord> = vec![(3, 3), (3, 2), (3, 1), (3, 0)];
    assert_eq!(r, expected);
}

#[test]
fn ray_from_off_board_is_empty() {
    let r = get_coords_to_edge((-1, 3), (1, 0));
    assert!(r.is_empty());
}

#[test]
fn ray_from_edge_moving_out_is_empty() {
    let r = get_coords_to_edge((7, 7), (1, 1));
    assert!(r.is_empty());
}

#[test]
fn count_flippable_bracketed_run() {
    let b = Board::new_empty();
    let cells = vec![Cell::White, Cell::White, Cell::Black];
    assert_eq!(b.count_flippable(Cell::Black, cells), 2);
}

#[test]
fn count_flippable_unclosed_run_is_zero() {
    let b = Board::new_empty();
    assert_eq!(b.count_flippable(Cell::Black, vec![Cell::White, Cell::White]), 0);
    assert_eq!(
        b.count_flippable(Cell::Black, vec![Cell::White, Cell::Empty, Cell::Black]),
        0
    );
    assert_eq!(b.count_flippable(Cell::Black, vec![Cell::Black, Cell::White]), 0);
    assert_eq!(b.count_flippable(Cell::Black, Vec::new()), 0);
}

#[test]
fn flippable_coords_at_start() {
    let mid: usize = 4;
    let board = Board::new_empty()
        .put((mid - 1, mid - 1), Cell::White)
        .put((mid, mid), Cell::White)
        .put((mid - 1, mid), Cell::Black)
        .put((mid, mid - 1), Cell::Black);
    assert_eq!(board.get_flippable_coords(Cell::Black, (2, 3)), vec![(3, 3)]);
    assert_eq!(board.get_flippable_coords(Cell::Black, (0, 0)), Vec::<Coord>::new());
}

#[test]
fn putable_coords_at_start_in_scan_order() {
    let mid: usize = 4;
    let board = Board::new_empty()
        .put((mid - 1, mid - 1), Cell::White)
        .put((mid, mid), Cell::White)
        .put((mid - 1, mid), Cell::Black)
        .put((mid, mid - 1), Cell::Black);
    let moves = board.get_putable_coords(Cell::Black);
    let expected: Vec<(Coord, Vec<Coord>)> = vec![
        ((3, 2), vec![(3, 3)]),
        ((2, 3), vec![(3, 3)]),
        ((5, 4), vec![(4, 4)]),
        ((4, 5), vec![(4, 4)]),
    ];
    assert_eq!(moves, expected);
}

#[test]
fn legal_moves_only_empty_cells_flipping_opponent() {
    let g = GameManager::new();
    let mover = g.now_hand();
    let moves = g.legal_moves();
    assert!(!moves.is_empty());
    for (pos, flips) in &moves {
        assert_eq!(g.read(*pos), Cell::Empty);
        assert!(!flips.is_empty());
        for f in flips {
            assert_eq!(g.read(*f), mover.flip());
        }
    }
}

#[test]
fn history_entry_accessors() {
    let pass = MoveHistory::Pass;
    assert!(pass.is_pass());
    assert!(pass.put_value().is_none());
    let put = MoveHistory::Put((2, 3), vec![(3, 3)]);
    assert!(!put.is_pass());
    assert_eq!(put.put_value(), Some(((2, 3), vec![(3, 3)])));
}

#[test]
fn first_placement_flips_one_white() {
    let mut g = GameManager::new();
    assert_eq!(g.now_hand(), Cell::Black);
    assert_eq!(g.count_cells(), (2, 2));
    assert!(g.try_put((2, 3)));
    assert_eq!(g.read((2, 3)), Cell::Black);
    assert_eq!(g.read((3, 3)), Cell::Black);
    assert_eq!(g.count_cells(), (4, 1));
    assert_eq!(g.history_len(), 1);
    assert_eq!(g.now_hand(), Cell::White);
}

#[test]
fn illegal_placement_changes_nothing() {
    let mut g = GameManager::new();
    let before = snapshot(&g);
    assert!(!g.try_put((0, 0)));
    assert!(!g.try_put((3, 3)));
    assert!(!g.try_put((63, 63)));
    assert_eq!(snapshot(&g), before);
    assert_eq!(g.history_len(), 0);
    assert_eq!(g.now_hand(), Cell::Black);
}

#[test]
fn undo_on_empty_history_is_a_no_op() {
    let g = GameManager::new();
    let before = snapshot(&g);
    let g = g.undo();
    assert_eq!(snapshot(&g), before);
    assert_eq!(g.history_len(), 0);
    assert_eq!(g.now_hand(), Cell::Black);
}

#[test]
fn put_then_undo_restores_the_board() {
    let mut g = GameManager::new();
    let before = snapshot(&g);
    assert!(g.try_put((2, 3)));
    let g = g.undo();
    assert_eq!(snapshot(&g), before);
    assert_eq!(g.history_len(), 0);
    assert_eq!(g.now_hand(), Cell::Black);
}

#[test]
fn turns_alternate_move_by_move() {
    let mut g = GameManager::new();
    let mut expected = Cell::Black;
    for _ in 0..4 {
        assert_eq!(g.now_hand(), expected);
        let moves = g.legal_moves();
        assert!(!moves.is_empty());
        assert!(g.try_put(moves[0].0));
        expected = expected.flip();
    }
}

#[test]
fn apply_dispatches_put_and_undo() {
    let g = GameManager::new();
    let (g, accepted) = g.apply(Action::Put((2, 3)));
    assert!(accepted);
    assert_eq!(g.history_len(), 1);
    let (g, rejected) = g.apply(Action::Put((0, 0)));
    assert!(!rejected);
    assert_eq!(g.history_len(), 1);
    let (g, undone) = g.apply(Action::Undo);
    assert!(undone);
    assert_eq!(g.history_len(), 0);
    assert_eq!(g.count_cells(), (2, 2));
}

#[test]
fn fresh_game_is_a_draw_by_tally() {
    let g = GameManager::new();
    assert_eq!(g.outcome(), Outcome::Draw);
    assert!(!g.is_terminal());
}

#[test]
fn full_game_reaches_terminal_by_double_pass() {
    let mut g = GameManager::new();
    let mut terminal = false;
    for _ in 0..200 {
        let moves = g.legal_moves();
        if moves.is_empty() {
            if g.pass_turn() {
                terminal = true;
                break;
            }
        } else {
            assert!(g.try_put(moves[0].0));
        }
    }
    assert!(terminal);
    assert!(g.is_terminal());
    let (black, white) = g.count_cells();
    let mut empties: usize = 0;
    for y in 0..8 {
        for x in 0..8 {
            if g.read((x, y)) == Cell::Empty {
                empties += 1;
            }
        }
    }
    assert_eq!(black + white, 64 - empties);
    let expected = if black > white {
        Outcome::BlackWin
    } else if black < white {
        Outcome::WhiteWin
    } else {
        Outcome::Draw
    };
    assert_eq!(g.outcome(), expected);
}

#[test]
fn pass_then_move_still_alternates() {
    // P3's exception path: a forced pass still hands the turn over, one
    // entry at a time; parity follows history length throughout.
    let mut g = GameManager::new();
    let mut plies: usize = 0;
    for _ in 0..200 {
        assert_eq!(
            g.now_hand(),
            if plies % 2 == 0 { Cell::Black } else { Cell::White }
        );
        let moves = g.legal_moves();
        if moves.is_empty() {
            let ended = g.pass_turn();
            plies += 1;
            if ended {
                break;
            }
        } else {
            assert!(g.try_put(moves[0].0));
            plies += 1;
        }
    }
    assert_eq!(g.history_len(), plies);
}
