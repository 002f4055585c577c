//! The game state machine: board ownership, turn derivation from history
//! length, pass and terminal detection, and the move history with undo.

use vstd::prelude::*;

use crate::board::{
    board_set, board_wf, cell_at, cell_index, coord_view, coords_view, empty_board, flippable_all,
    lemma_flippable_sound, lemma_legal_moves_sound, lemma_set_all_at, on_board, putable_view,
    putables, set_all, Board, BoardOps, Cell, Coord, BOARD_SIZE,
};

verus! {

/// One resolved turn: a placement with the coordinates it flipped, in the
/// order they were collected, or a pass.
#[derive(Debug)]
pub enum MoveHistory {
    Put(Coord, Vec<Coord>),
    Pass,
}

/// The mathematical model of one history entry.
pub enum MoveRec {
    Put { pos: (int, int), flipped: Seq<(int, int)> },
    Pass,
}

impl View for MoveHistory {
    type V = MoveRec;

    open spec fn view(&self) -> MoveRec {
        match self {
            MoveHistory::Put(p, f) => MoveRec::Put { pos: coord_view(*p), flipped: coords_view(f@) },
            MoveHistory::Pass => MoveRec::Pass,
        }
    }
}

impl MoveHistory {
    /// Whether this entry records a pass.
    pub fn is_pass(&self) -> (r: bool)
        ensures
            r <==> (self@ is Pass),
    {
        match self {
            MoveHistory::Pass => true,
            MoveHistory::Put(_, _) => false,
        }
    }

    /// The placement and its flip list, or None for a pass.
    pub fn put_value(&self) -> (r: Option<(Coord, Vec<Coord>)>)
        ensures
            r is Some <==> (self@ is Put),
            (match self@ {
                MoveRec::Put { pos, flipped } => {
                    let v = r->Some_0;
                    coord_view(v.0) == pos && coords_view(v.1@) == flipped
                },
                MoveRec::Pass => r is None,
            }),
    {
        match self {
            MoveHistory::Put(put, flipped) => {
                let mut fl: Vec<Coord> = Vec::new();
                let mut i: usize = 0;
                while i < flipped.len()
                    invariant
                        i <= flipped@.len(),
                        fl@ == flipped@.take(i as int),
                    decreases flipped@.len() - i,
                {
                    fl.push(flipped[i]);
                    proof {
                        assert(fl@ =~= flipped@.take(i as int + 1));
                    }
                    i += 1;
                }
                proof {
                    assert(fl@ =~= flipped@);
                }
                Some((*put, fl))
            }
            MoveHistory::Pass => None,
        }
    }
}

/// A requested turn from the input provider: place at a coordinate, or
/// take back the last placement.
#[derive(Debug)]
pub enum Action {
    Put(Coord),
    Undo,
}

/// The final tally of a finished game.
#[derive(Clone, Copy, PartialEq, Eq, Structural, Debug)]
pub enum Outcome {
    BlackWin,
    WhiteWin,
    Draw,
}

// --- The model of the state machine ---------------------------------------

/// The history as a sequence of model records.
pub open spec fn hist_view(h: Seq<MoveHistory>) -> Seq<MoveRec> {
    h.map_values(|m: MoveHistory| m@)
}

/// A record is well formed when every coordinate it holds is on the board.
pub open spec fn rec_wf(r: MoveRec) -> bool {
    match r {
        MoveRec::Put { pos, flipped } => on_board(pos) && forall|j: int|
            0 <= j < flipped.len() ==> on_board(#[trigger] flipped[j]),
        MoveRec::Pass => true,
    }
}

/// Every record of the history is well formed.
pub open spec fn hist_wf(h: Seq<MoveRec>) -> bool {
    forall|i: int| 0 <= i < h.len() ==> rec_wf(#[trigger] h[i])
}

/// Whose turn it is: Black moves first, so an even number of resolved
/// turns means Black is to move.
pub open spec fn active_color(h: Seq<MoveRec>) -> Cell {
    if h.len() % 2 == 0 {
        Cell::Black
    } else {
        Cell::White
    }
}

/// A placement at `p` by `c` is legal on `b`: the cell is empty and the
/// move flips at least one opponent coordinate.
pub open spec fn is_legal(b: Seq<Cell>, c: Cell, p: (int, int)) -> bool {
    &&& on_board(p)
    &&& cell_at(b, p) == Cell::Empty
    &&& flippable_all(b, c, p).len() > 0
}

/// The board after `c` places at `p`: every flipped coordinate and the
/// placement itself are set to `c`.
pub open spec fn apply_put(b: Seq<Cell>, c: Cell, p: (int, int)) -> Seq<Cell> {
    board_set(set_all(b, flippable_all(b, c, p), c), p, c)
}

/// The board after undoing the placement `p` with flip list `flipped` made
/// by `undo_color`: the flipped coordinates return to the opponent of the
/// mover and the placement becomes empty again.
pub open spec fn undo_board(
    b: Seq<Cell>,
    p: (int, int),
    flipped: Seq<(int, int)>,
    undo_color: Cell,
) -> Seq<Cell> {
    board_set(set_all(b, flipped, undo_color.flip_spec()), p, Cell::Empty)
}

/// The state after one undo request: trailing passes are discarded, then
/// exactly one placement is reversed; an empty history is left untouched.
pub open spec fn undo_spec(b: Seq<Cell>, h: Seq<MoveRec>) -> (Seq<Cell>, Seq<MoveRec>)
    decreases h.len(),
{
    if h.len() == 0 {
        (b, h)
    } else {
        match h.last() {
            MoveRec::Pass => undo_spec(b, h.drop_last()),
            MoveRec::Put { pos, flipped } => {
                let h2 = h.drop_last();
                (undo_board(b, pos, flipped, active_color(h2)), h2)
            }
        }
    }
}

/// The game is over exactly when the last two history entries are passes.
pub open spec fn terminal_spec(h: Seq<MoveRec>) -> bool {
    &&& h.len() >= 2
    &&& h[h.len() - 1] is Pass
    &&& h[h.len() - 2] is Pass
}

/// How many cells of `b` hold color `c`.
pub open spec fn count_of(b: Seq<Cell>, c: Cell) -> nat
    decreases b.len(),
{
    if b.len() == 0 {
        0
    } else {
        count_of(b.drop_last(), c) + if b.last() == c {
            1nat
        } else {
            0nat
        }
    }
}

/// The outcome read off a finished board: the higher tally wins.
pub open spec fn outcome_spec(b: Seq<Cell>) -> Outcome {
    if count_of(b, Cell::Black) > count_of(b, Cell::White) {
        Outcome::BlackWin
    } else if count_of(b, Cell::Black) < count_of(b, Cell::White) {
        Outcome::WhiteWin
    } else {
        Outcome::Draw
    }
}

/// The standard start position: the two center diagonals, White on the
/// main diagonal and Black on the anti-diagonal.
pub open spec fn initial_board() -> Seq<Cell> {
    board_set(
        board_set(
            board_set(board_set(empty_board(), (3, 3), Cell::White), (4, 4), Cell::White),
            (3, 4),
            Cell::Black,
        ),
        (4, 3),
        Cell::Black,
    )
}

/// A run of `n` pass records.
pub open spec fn pass_run(n: nat) -> Seq<MoveRec> {
    Seq::new(n, |i: int| MoveRec::Pass)
}

// --- General properties of the engine ---------------------------------------

/// Turn parity: every recorded turn — placement or pass — hands the move to
/// the other player, and the active color is always one of the two players.
pub proof fn lemma_turn_alternates(h: Seq<MoveRec>, r: MoveRec)
    ensures
        active_color(h.push(r)) == active_color(h).flip_spec(),
        active_color(h) == Cell::Black || active_color(h) == Cell::White,
{
}

/// Exactly two consecutive passes end the game: appending a pass reaches
/// the terminal state only when a pass came immediately before it, and
/// appending a placement never does.
pub proof fn lemma_terminal_only_after_two_passes(h: Seq<MoveRec>)
    ensures
        terminal_spec(h.push(MoveRec::Pass)) <==> (h.len() > 0 && h.last() is Pass),
        forall|p: (int, int), f: Seq<(int, int)>|
            !terminal_spec(h.push((MoveRec::Put { pos: p, flipped: f }))),
{
}

/// Undo with an empty history changes neither board nor history.
pub proof fn lemma_undo_empty(b: Seq<Cell>)
    ensures
        undo_spec(b, Seq::<MoveRec>::empty()) == (b, Seq::<MoveRec>::empty()),
{
}

/// Undoing skips any run of trailing passes without touching the board.
pub proof fn lemma_undo_skips_passes(b: Seq<Cell>, h: Seq<MoveRec>, n: nat)
    ensures
        undo_spec(b, h + pass_run(n)) == undo_spec(b, h),
    decreases n,
{
    if n == 0 {
        assert(h + pass_run(0) =~= h);
    } else {
        let hn = h + pass_run(n);
        assert(hn.last() == pass_run(n)[n - 1]);
        assert(hn.last() is Pass);
        assert(hn.drop_last() =~= h + pass_run((n - 1) as nat));
        lemma_undo_skips_passes(b, h, (n - 1) as nat);
    }
}

/// The round trip: a legal placement followed by one undo — with any run of
/// passes recorded in between — restores the exact prior board and history.
pub proof fn lemma_put_then_undo(b: Seq<Cell>, h: Seq<MoveRec>, p: (int, int), n: nat)
    requires
        board_wf(b),
        is_legal(b, active_color(h), p),
    ensures
        ({
            let c = active_color(h);
            let f = flippable_all(b, c, p);
            let b1 = apply_put(b, c, p);
            let h1 = h.push((MoveRec::Put { pos: p, flipped: f })) + pass_run(n);
            undo_spec(b1, h1) == (b, h)
        }),
{
    let c = active_color(h);
    let f = flippable_all(b, c, p);
    let b1 = apply_put(b, c, p);
    let rec = MoveRec::Put { pos: p, flipped: f };
    lemma_undo_skips_passes(b1, h.push(rec), n);
    assert(h.push(rec).last() == rec);
    assert(h.push(rec).drop_last() =~= h);
    lemma_flippable_sound(b, c, p);
    lemma_set_all_at(b, f, c, p);
    let u = undo_board(b1, p, f, c);
    assert(board_wf(b1));
    lemma_set_all_at(b1, f, c.flip_spec(), p);
    assert(board_wf(u));
    assert forall|idx: int| 0 <= idx < 64 implies u[idx] == b[idx] by {
        let q = (idx % 8, idx / 8);
        assert(on_board(q) && cell_index(q) == idx);
        lemma_set_all_at(b, f, c, q);
        lemma_set_all_at(b1, f, c.flip_spec(), q);
        if q == p {
            assert(cell_at(u, q) == Cell::Empty);
            assert(cell_at(b, q) == Cell::Empty);
        } else {
            assert(cell_index(q) != cell_index(p));
            if f.contains(q) {
                let w = choose|w: int| 0 <= w < f.len() && f[w] == q;
                assert(cell_at(b, q) == c.flip_spec());
                assert(cell_at(u, q) == c.flip_spec());
            } else {
                assert(cell_at(u, q) == cell_at(b1, q));
                assert(cell_at(b1, q) == cell_at(b, q));
            }
        }
    }
    assert(u =~= b);
}

// --- The game manager ------------------------------------------------------

/// The running game: the board and the append-only move history, both owned
/// exclusively by this value.
#[derive(Debug)]
pub struct GameManager {
    board: Board,
    move_history: Vec<MoveHistory>,
}

impl GameManager {
    /// The board model.
    pub closed spec fn board_view(&self) -> Seq<Cell> {
        self.board.cells()
    }

    /// The history model.
    pub closed spec fn history(&self) -> Seq<MoveRec> {
        hist_view(self.move_history@)
    }

    /// The game state invariant: a 64-cell board and on-board history
    /// records.
    pub open spec fn wf(&self) -> bool {
        &&& board_wf(self.board_view())
        &&& hist_wf(self.history())
    }

    /// A new game: standard start position, empty history, Black to move.
    pub fn new() -> (r: Self)
        ensures
            r.wf(),
            r.board_view() == initial_board(),
            r.history() == Seq::<MoveRec>::empty(),
    {
        let mid: usize = BOARD_SIZE / 2;
        let board = Board::new_empty().put((mid - 1, mid - 1), Cell::White).put(
            (mid, mid),
            Cell::White,
        ).put((mid - 1, mid), Cell::Black).put((mid, mid - 1), Cell::Black);
        let r = GameManager { board, move_history: Vec::new() };
        proof {
            assert(r.history() =~= Seq::<MoveRec>::empty());
        }
        r
    }

    /// The color whose turn it is, derived from the history length.
    pub fn now_hand(&self) -> (r: Cell)
        ensures
            r == active_color(self.history()),
    {
        if self.move_history.len() % 2 == 0 {
            Cell::Black
        } else {
            Cell::White
        }
    }

    /// How many turns have been resolved so far.
    pub fn history_len(&self) -> (r: usize)
        ensures
            r == self.history().len(),
    {
        self.move_history.len()
    }

    /// Read access to one board cell, for rendering.
    pub fn read(&self, coord: Coord) -> (r: Cell)
        requires
            self.wf(),
            coord.0 < 8,
            coord.1 < 8,
        ensures
            r == cell_at(self.board_view(), coord_view(coord)),
    {
        self.board.read(coord)
    }

    /// Whether the game has ended: two consecutive passes were recorded.
    pub fn is_terminal(&self) -> (r: bool)
        ensures
            r == terminal_spec(self.history()),
    {
        let n = self.move_history.len();
        if n >= 2 {
            let a = self.move_history[n - 1].is_pass();
            let b = self.move_history[n - 2].is_pass();
            a && b
        } else {
            false
        }
    }

    /// Every legal placement for the active color, with its flip list.
    pub fn legal_moves(&self) -> (r: Vec<(Coord, Vec<Coord>)>)
        requires
            self.wf(),
        ensures
            putable_view(r@) == putables(self.board_view(), active_color(self.history())),
    {
        let cell = self.now_hand();
        self.board.get_putable_coords(cell)
    }

    /// The tally of (black, white) cells on the board.
    pub fn count_cells(&self) -> (r: (usize, usize))
        requires
            self.wf(),
        ensures
            r.0 == count_of(self.board_view(), Cell::Black),
            r.1 == count_of(self.board_view(), Cell::White),
    {
        let ghost b = self.board_view();
        let mut black: usize = 0;
        let mut white: usize = 0;
        let mut i: usize = 0;
        while i < 64
            invariant
                self.wf(),
                b == self.board_view(),
                i <= 64,
                black <= i,
                white <= i,
                black == count_of(b.take(i as int), Cell::Black),
                white == count_of(b.take(i as int), Cell::White),
            decreases 64 - i,
        {
            let x: usize = i % 8;
            let y: usize = i / 8;
            let here = self.board.read((x, y));
            proof {
                assert(b.take(i as int + 1).drop_last() =~= b.take(i as int));
                assert(b.take(i as int + 1).last() == b[i as int]);
                assert(here == b[i as int]);
            }
            match here {
                Cell::Empty => {},
                Cell::Black => {
                    black = black + 1;
                },
                Cell::White => {
                    white = white + 1;
                },
            }
            i += 1;
        }
        proof {
            assert(b.take(64) =~= b);
        }
        (black, white)
    }

    /// Records a forced pass for the active color, who must have no legal
    /// move; reports whether this pass ended the game (it was the second in
    /// a row).
    pub fn pass_turn(&mut self) -> (terminal: bool)
        requires
            old(self).wf(),
            putables(old(self).board_view(), active_color(old(self).history())).len() == 0,
        ensures
            final(self).wf(),
            final(self).board_view() == old(self).board_view(),
            final(self).history() == old(self).history().push(MoveRec::Pass),
            terminal == terminal_spec(final(self).history()),
    {
        let ghost h0 = self.history();
        let n = self.move_history.len();
        let was_pass = if n > 0 {
            let r = self.move_history[n - 1].is_pass();
            proof {
                assert(h0[n - 1 as int] == self.move_history@[n - 1 as int]@);
            }
            r
        } else {
            false
        };
        self.move_history.push(MoveHistory::Pass);
        proof {
            assert(self.history() =~= h0.push(MoveRec::Pass));
        }
        was_pass
    }

    /// Validates a requested placement against the current legal-move set:
    /// a legal one is applied (the placement and all its flips take the
    /// active color) and recorded; an illegal one leaves board and history
    /// untouched and is reported as rejected.
    #[verifier::rlimit(60)]
    pub fn try_put(&mut self, coord: Coord) -> (r: bool)
        requires
            old(self).wf(),
        ensures
            final(self).wf(),
            r == is_legal(
                old(self).board_view(),
                active_color(old(self).history()),
                coord_view(coord),
            ),
            r ==> final(self).board_view() == apply_put(
                old(self).board_view(),
                active_color(old(self).history()),
                coord_view(coord),
            ),
            r ==> final(self).history() == old(self).history().push(
                (MoveRec::Put {
                    pos: coord_view(coord),
                    flipped: flippable_all(
                        old(self).board_view(),
                        active_color(old(self).history()),
                        coord_view(coord),
                    ),
                }),
            ),
            !r ==> *final(self) == *old(self),
    {
        let ghost b0 = self.board_view();
        let ghost h0 = self.history();
        let ghost c0 = active_color(h0);
        let ghost pv = coord_view(coord);
        proof {
            lemma_legal_moves_sound(b0, c0);
        }
        let cell = self.now_hand();
        let moves = self.legal_moves();
        let n = moves.len();
        let mut i: usize = 0;
        let mut found: bool = false;
        while i < n && !found
            invariant
                n == moves@.len(),
                putable_view(moves@) == putables(b0, c0),
                pv == coord_view(coord),
                i <= n,
                !found ==> forall|j: int|
                    0 <= j < i ==> (#[trigger] putable_view(moves@)[j]).0 != pv,
                found ==> i < n && putable_view(moves@)[i as int].0 == pv,
            decreases n - i + (if found {
                0int
            } else {
                1int
            }),
        {
            let e = &moves[i];
            proof {
                assert(putable_view(moves@)[i as int].0 == coord_view(e.0));
            }
            if e.0.0 == coord.0 && e.0.1 == coord.1 {
                found = true;
            } else {
                i += 1;
            }
        }
        if found {
            proof {
                assert(putable_view(moves@)[i as int] == putables(b0, c0)[i as int]);
                assert(is_legal(b0, c0, pv));
                assert(putable_view(moves@)[i as int].1 == flippable_all(b0, c0, pv));
                lemma_flippable_sound(b0, c0, pv);
            }
            let ghost fv = flippable_all(b0, c0, pv);
            let e = &moves[i];
            let pos = e.0;
            let mut flips: Vec<Coord> = Vec::new();
            let mut j: usize = 0;
            while j < e.1.len()
                invariant
                    j <= e.1@.len(),
                    flips@ == e.1@.take(j as int),
                decreases e.1@.len() - j,
            {
                flips.push(e.1[j]);
                proof {
                    assert(flips@ =~= e.1@.take(j as int + 1));
                }
                j += 1;
            }
            proof {
                assert(flips@ =~= e.1@);
                assert(coords_view(flips@) == fv);
                assert(coord_view(pos) == pv);
            }
            let ghost mh0 = self.move_history@;
            let mut k: usize = 0;
            while k < flips.len()
                invariant
                    board_wf(b0),
                    coords_view(flips@) == fv,
                    k <= flips@.len() == fv.len(),
                    forall|m: int| 0 <= m < fv.len() ==> on_board(#[trigger] fv[m]),
                    self.board_view() == set_all(b0, fv.take(k as int), cell),
                    board_wf(self.board_view()),
                    self.move_history@ == mh0,
                decreases flips@.len() - k,
            {
                proof {
                    assert(coord_view(flips@[k as int]) == fv[k as int]);
                    assert(fv.take(k as int + 1).drop_last() =~= fv.take(k as int));
                    lemma_set_all_at(b0, fv.take(k as int + 1), cell, fv[k as int]);
                }
                self.board.write(flips[k], cell);
                k += 1;
            }
            proof {
                assert(fv.take(fv.len() as int) =~= fv);
            }
            self.board.write(pos, cell);
            self.move_history.push(MoveHistory::Put(pos, flips));
            proof {
                assert(self.history() =~= h0.push(
                    (MoveRec::Put { pos: pv, flipped: fv }),
                ));
                assert(hist_wf(self.history())) by {
                    assert(forall|m: int|
                        0 <= m < h0.len() ==> #[trigger] self.history()[m] == h0[m]);
                    assert(rec_wf(self.history()[h0.len() as int]));
                }
            }
            true
        } else {
            proof {
                if is_legal(b0, c0, pv) {
                    let w = choose|w: int|
                        0 <= w < putables(b0, c0).len() && #[trigger] putables(b0, c0)[w] == (
                        pv,
                        flippable_all(b0, c0, pv),
                        );
                    assert(putable_view(moves@)[w].0 == pv);
                    assert(false);
                }
            }
            false
        }
    }

    /// One undo request: trailing passes are discarded, then exactly one
    /// placement is reversed (its flips return to the opponent and its cell
    /// empties); with no placement to reverse the state is returned as it
    /// was.
    pub fn undo(self) -> (r: Self)
        requires
            self.wf(),
        ensures
            r.wf(),
            r.board_view() == undo_spec(self.board_view(), self.history()).0,
            r.history() == undo_spec(self.board_view(), self.history()).1,
    {
        let ghost b0 = self.board_view();
        let ghost hh0 = self.history();
        let mut this = self;
        loop
            invariant_except_break
                this.wf(),
                this.board_view() == b0,
                undo_spec(b0, hh0) == undo_spec(this.board_view(), this.history()),
            ensures
                this.wf(),
                this.board_view() == undo_spec(b0, hh0).0,
                this.history() == undo_spec(b0, hh0).1,
            decreases this.history().len(),
        {
            let ghost h_pre = this.history();
            if this.move_history.len() == 0 {
                proof {
                    assert(h_pre.len() == 0);
                }
                break;
            }
            proof {
                assert(h_pre[h_pre.len() - 1] == this.move_history@[h_pre.len() - 1]@);
                assert(rec_wf(h_pre.last()));
            }
            let entry = this.move_history.pop().unwrap();
            match entry {
                MoveHistory::Pass => {
                    proof {
                        assert(this.history() =~= h_pre.drop_last());
                    }
                },
                MoveHistory::Put(pos, flips) => {
                    let cell = if this.move_history.len() % 2 == 0 {
                        Cell::Black
                    } else {
                        Cell::White
                    };
                    let undo_to = cell.flip();
                    let ghost h2 = this.history();
                    let ghost fv = coords_view(flips@);
                    proof {
                        assert(h_pre.last() == (MoveRec::Put { pos: coord_view(pos), flipped: fv }));
                        assert(cell == active_color(h2));
                    }
                    let mut k: usize = 0;
                    while k < flips.len()
                        invariant
                            board_wf(b0),
                            coords_view(flips@) == fv,
                            k <= flips@.len() == fv.len(),
                            forall|m: int| 0 <= m < fv.len() ==> on_board(#[trigger] fv[m]),
                            this.board_view() == set_all(b0, fv.take(k as int), undo_to),
                            board_wf(this.board_view()),
                            this.history() == h2,
                        decreases flips@.len() - k,
                    {
                        proof {
                            assert(coord_view(flips@[k as int]) == fv[k as int]);
                            assert(fv.take(k as int + 1).drop_last() =~= fv.take(k as int));
                            lemma_set_all_at(b0, fv.take(k as int + 1), undo_to, fv[k as int]);
                        }
                        this.board.write(flips[k], undo_to);
                        k += 1;
                    }
                    proof {
                        assert(fv.take(fv.len() as int) =~= fv);
                    }
                    this.board.write(pos, Cell::Empty);
                    proof {
                        assert(h2 =~= h_pre.drop_last());
                        assert(this.board_view() == undo_board(b0, coord_view(pos), fv, cell));
                        assert(undo_spec(b0, h_pre) == (
                            undo_board(b0, coord_view(pos), fv, active_color(h2)),
                            h2,
                        ));
                        assert(forall|m: int| 0 <= m < h2.len() ==> h2[m] == h_pre[m]);
                        assert(hist_wf(h2));
                    }
                    break;
                },
            }
        }
        this
    }

    /// Dispatches one requested action: a placement request is validated
    /// and, when legal, applied and recorded; an undo request reverses the
    /// last placement. The flag reports whether the request was accepted.
    pub fn apply(self, action: Action) -> (r: (Self, bool))
        requires
            self.wf(),
        ensures
            r.0.wf(),
            (match action {
                Action::Put(coord) => {
                    let legal = is_legal(
                        self.board_view(),
                        active_color(self.history()),
                        coord_view(coord),
                    );
                    &&& r.1 == legal
                    &&& legal ==> r.0.board_view() == apply_put(
                        self.board_view(),
                        active_color(self.history()),
                        coord_view(coord),
                    ) && r.0.history() == self.history().push(
                        (MoveRec::Put {
                            pos: coord_view(coord),
                            flipped: flippable_all(
                                self.board_view(),
                                active_color(self.history()),
                                coord_view(coord),
                            ),
                        }),
                    )
                    &&& !legal ==> r.0 == self
                },
                Action::Undo => {
                    &&& r.1
                    &&& r.0.board_view() == undo_spec(self.board_view(), self.history()).0
                    &&& r.0.history() == undo_spec(self.board_view(), self.history()).1
                },
            }),
    {
        match action {
            Action::Put(coord) => {
                let mut s = self;
                let ok = s.try_put(coord);
                (s, ok)
            },
            Action::Undo => (self.undo(), true),
        }
    }

    /// The outcome of a finished game, read off the board tally.
    pub fn outcome(&self) -> (r: Outcome)
        requires
            self.wf(),
        ensures
            r == outcome_spec(self.board_view()),
    {
        let counts = self.count_cells();
        if counts.0 > counts.1 {
            Outcome::BlackWin
        } else if counts.0 < counts.1 {
            Outcome::WhiteWin
        } else {
            Outcome::Draw
        }
    }
}

} // verus!
