//! The board model and the move generator: an 8x8 grid of cells, rays of
//! coordinates toward the board edge, and the computation of which opponent
//! cells a placement flips.

use vstd::prelude::*;

verus! {

/// Width and height of the square board.
pub const BOARD_SIZE: usize = 8;

/// One square of the board: empty, or held by one of the two players.
#[derive(Clone, Copy, PartialEq, Eq, Structural, Debug)]
pub enum Cell {
    Empty,
    Black,
    White,
}

/// A board coordinate: (column, row), each in [0, BOARD_SIZE).
pub type Coord = (usize, usize);

impl Cell {
    /// The opposing color; Empty stays Empty.
    pub open spec fn flip_spec(self) -> Cell {
        match self {
            Cell::Empty => Cell::Empty,
            Cell::Black => Cell::White,
            Cell::White => Cell::Black,
        }
    }

    /// Maps Black <-> White and leaves Empty unchanged.
    #[verifier::when_used_as_spec(flip_spec)]
    pub fn flip(self) -> (r: Self)
        ensures
            r == self.flip_spec(),
    {
        match self {
            Cell::Empty => Cell::Empty,
            Cell::Black => Cell::White,
            Cell::White => Cell::Black,
        }
    }
}

// --- The mathematical model of the board ---------------------------------
//
// A board is modelled as a sequence of 64 cells in row-major order; the cell
// at column x, row y sits at index y * 8 + x.

/// Does `i` lie inside one board axis?
pub open spec fn in_range(i: int) -> bool {
    0 <= i < 8
}

/// Does the coordinate lie on the board?
pub open spec fn on_board(p: (int, int)) -> bool {
    in_range(p.0) && in_range(p.1)
}

/// The row-major index of a coordinate.
pub open spec fn cell_index(p: (int, int)) -> int {
    p.1 * 8 + p.0
}

/// A well-formed board model holds exactly 64 cells.
pub open spec fn board_wf(b: Seq<Cell>) -> bool {
    b.len() == 64
}

/// The cell at coordinate `p`.
pub open spec fn cell_at(b: Seq<Cell>, p: (int, int)) -> Cell {
    b[cell_index(p)]
}

/// The board with the cell at `p` replaced by `c`.
pub open spec fn board_set(b: Seq<Cell>, p: (int, int), c: Cell) -> Seq<Cell> {
    b.update(cell_index(p), c)
}

/// The board after writing `c` at every coordinate of `ps`, in order.
pub open spec fn set_all(b: Seq<Cell>, ps: Seq<(int, int)>, c: Cell) -> Seq<Cell>
    decreases ps.len(),
{
    if ps.len() == 0 {
        b
    } else {
        board_set(set_all(b, ps.drop_last(), c), ps.last(), c)
    }
}

/// An exec coordinate as a pair of unbounded integers.
pub open spec fn coord_view(c: Coord) -> (int, int) {
    (c.0 as int, c.1 as int)
}

/// A sequence of exec coordinates as integer pairs.
pub open spec fn coords_view(s: Seq<Coord>) -> Seq<(int, int)> {
    s.map_values(|c: Coord| coord_view(c))
}

// --- Directions and rays --------------------------------------------------

/// A unit direction vector: both components in {-1, 0, 1}, not both zero.
pub open spec fn unit_dir(d: (int, int)) -> bool {
    &&& -1 <= d.0 <= 1
    &&& -1 <= d.1 <= 1
    &&& !(d.0 == 0 && d.1 == 0)
}

/// The 8 compass directions in their canonical order: east first, then
/// counterclockwise in 45-degree steps.
pub open spec fn dir_vec(n: int) -> (int, int) {
    if n == 0 {
        (1, 0)
    } else if n == 1 {
        (1, 1)
    } else if n == 2 {
        (0, 1)
    } else if n == 3 {
        (-1, 1)
    } else if n == 4 {
        (-1, 0)
    } else if n == 5 {
        (-1, -1)
    } else if n == 6 {
        (0, -1)
    } else {
        (1, -1)
    }
}

/// The coordinate `k` steps away from `p` in direction `d`.
pub open spec fn ray_step(p: (int, int), d: (int, int), k: int) -> (int, int) {
    (p.0 + k * d.0, p.1 + k * d.1)
}

/// How many steps fit along one axis before leaving the board.
pub open spec fn axis_steps(p: int, d: int) -> int {
    if d > 0 {
        7 - p
    } else if d < 0 {
        p
    } else {
        8
    }
}

/// The number of in-bounds coordinates on the ray from `p` in direction `d`,
/// the origin itself excluded.
pub open spec fn ray_len(p: (int, int), d: (int, int)) -> int {
    if !on_board(p) {
        0
    } else if axis_steps(p.0, d.0) <= axis_steps(p.1, d.1) {
        axis_steps(p.0, d.0)
    } else {
        axis_steps(p.1, d.1)
    }
}

/// The ordered in-bounds coordinates from one step after `p` in direction
/// `d` up to the board edge.
pub open spec fn ray(p: (int, int), d: (int, int)) -> Seq<(int, int)> {
    Seq::new(ray_len(p, d) as nat, |k: int| ray_step(p, d, k + 1))
}

/// Multiplication by a factor from {-1, 0, 1}, spelled out.
pub proof fn lemma_mul_unit(k: int, d: int)
    requires
        -1 <= d <= 1,
    ensures
        d == 1 ==> k * d == k,
        d == 0 ==> k * d == 0,
        d == -1 ==> k * d == -k,
{
    assert(d == 1 ==> k * d == k) by (nonlinear_arith);
    assert(d == 0 ==> k * d == 0) by (nonlinear_arith);
    assert(d == -1 ==> k * d == -k) by (nonlinear_arith);
}

/// Stepping once more moves by exactly the direction vector.
pub proof fn lemma_ray_step_succ(p: (int, int), d: (int, int), k: int)
    ensures
        ray_step(p, d, k + 1).0 == ray_step(p, d, k).0 + d.0,
        ray_step(p, d, k + 1).1 == ray_step(p, d, k).1 + d.1,
{
    assert((k + 1) * d.0 == k * d.0 + d.0) by (nonlinear_arith);
    assert((k + 1) * d.1 == k * d.1 + d.1) by (nonlinear_arith);
}

/// Along a unit direction from an on-board origin, the k-th step is on the
/// board exactly when k does not pass the ray's length.
pub proof fn lemma_on_board_iff(p: (int, int), d: (int, int), k: int)
    requires
        unit_dir(d),
        on_board(p),
        1 <= k <= 8,
    ensures
        on_board(ray_step(p, d, k)) <==> k <= ray_len(p, d),
{
    lemma_mul_unit(k, d.0);
    lemma_mul_unit(k, d.1);
}

/// Every coordinate on a ray lies on the board.
pub proof fn lemma_ray_on_board(p: (int, int), d: (int, int))
    requires
        unit_dir(d),
    ensures
        ray(p, d).len() <= 7,
        forall|j: int| 0 <= j < ray(p, d).len() ==> on_board(#[trigger] ray(p, d)[j]),
{
    if on_board(p) {
        assert forall|j: int| 0 <= j < ray(p, d).len() implies on_board(#[trigger] ray(p, d)[j]) by {
            lemma_on_board_iff(p, d, j + 1);
        }
    }
}

// --- Flippable runs and move generation -----------------------------------

/// The length of the maximal prefix of `s` holding the opponent of `c`.
pub open spec fn flip_run(c: Cell, s: Seq<Cell>) -> nat
    decreases s.len(),
{
    if s.len() > 0 && s[0] == c.flip_spec() {
        (1 + flip_run(c, s.drop_first())) as nat
    } else {
        0
    }
}

/// How many cells a move by `c` flips along one ray of cells (nearest
/// first): the length of the opponent-run prefix, provided the run is
/// closed off by a cell of `c`'s own color; otherwise zero.
pub open spec fn flippable_count(c: Cell, s: Seq<Cell>) -> nat {
    let n = flip_run(c, s);
    if n < s.len() && s[n as int] == c {
        n
    } else {
        0
    }
}

/// The cells of board `b` found at each coordinate of `ps`.
pub open spec fn cells_along(b: Seq<Cell>, ps: Seq<(int, int)>) -> Seq<Cell> {
    ps.map_values(|q: (int, int)| cell_at(b, q))
}

/// The coordinates a move by `c` at `p` flips in direction `d`: the first
/// `flippable_count` coordinates of the ray.
pub open spec fn flippable_in_dir(b: Seq<Cell>, c: Cell, p: (int, int), d: (int, int)) -> Seq<
    (int, int),
> {
    let r = ray(p, d);
    r.take(flippable_count(c, cells_along(b, r)) as int)
}

/// The flipped coordinates collected over the first `n` canonical
/// directions, in direction order, nearest-to-origin first within each.
pub open spec fn flippable_upto(b: Seq<Cell>, c: Cell, p: (int, int), n: int) -> Seq<(int, int)>
    decreases n,
{
    if n <= 0 {
        Seq::empty()
    } else {
        flippable_upto(b, c, p, n - 1) + flippable_in_dir(b, c, p, dir_vec(n - 1))
    }
}

/// Every coordinate a move by `c` at `p` would flip, over all 8 directions.
pub open spec fn flippable_all(b: Seq<Cell>, c: Cell, p: (int, int)) -> Seq<(int, int)> {
    flippable_upto(b, c, p, 8)
}

/// The row-major position scanned at step `i` of the board scan.
pub open spec fn scan_pos(i: int) -> (int, int) {
    (i % 8, i / 8)
}

/// The legal placements found among the first `n` scanned positions, in
/// scan order: each empty cell whose move flips at least one coordinate,
/// paired with its flip list.
pub open spec fn putables_upto(b: Seq<Cell>, c: Cell, n: int) -> Seq<((int, int), Seq<(int, int)>)>
    decreases n,
{
    if n <= 0 {
        Seq::empty()
    } else {
        let p = scan_pos(n - 1);
        let rest = putables_upto(b, c, n - 1);
        if cell_at(b, p) == Cell::Empty && flippable_all(b, c, p).len() > 0 {
            rest + seq![(p, flippable_all(b, c, p))]
        } else {
            rest
        }
    }
}

/// Every legal placement for `c` on board `b`, with its flip list, in
/// row-major scan order.
pub open spec fn putables(b: Seq<Cell>, c: Cell) -> Seq<((int, int), Seq<(int, int)>)> {
    putables_upto(b, c, 64)
}

/// The view of an exec legal-move list as integer coordinates.
pub open spec fn putable_view(s: Seq<(Coord, Vec<Coord>)>) -> Seq<((int, int), Seq<(int, int)>)> {
    s.map_values(|e: (Coord, Vec<Coord>)| (coord_view(e.0), coords_view(e.1@)))
}

/// Viewing coordinates commutes with appending one.
pub proof fn lemma_coords_view_push(s: Seq<Coord>, x: Coord)
    ensures
        coords_view(s.push(x)) == coords_view(s).push(coord_view(x)),
{
    assert(coords_view(s.push(x)) =~= coords_view(s).push(coord_view(x)));
}

/// A run of `i` opponent cells at the head of `s`, and nothing more, pins
/// `flip_run` to `i`.
pub proof fn lemma_flip_run_prefix(c: Cell, s: Seq<Cell>, i: int)
    requires
        0 <= i <= s.len(),
        forall|j: int| 0 <= j < i ==> s[j] == c.flip_spec(),
        i < s.len() ==> s[i] != c.flip_spec(),
    ensures
        flip_run(c, s) == i,
    decreases i,
{
    if i == 0 {
    } else {
        assert(s[0] == c.flip_spec());
        lemma_flip_run_prefix(c, s.drop_first(), i - 1);
    }
}

/// Every cell inside the flip run holds the opponent's color.
pub proof fn lemma_flip_run_elems(c: Cell, s: Seq<Cell>)
    ensures
        flip_run(c, s) <= s.len(),
        forall|k: int| 0 <= k < flip_run(c, s) ==> s[k] == c.flip_spec(),
    decreases s.len(),
{
    if s.len() > 0 && s[0] == c.flip_spec() {
        lemma_flip_run_elems(c, s.drop_first());
        assert forall|k: int| 0 <= k < flip_run(c, s) implies s[k] == c.flip_spec() by {
            if k > 0 {
                assert(s.drop_first()[k - 1] == s[k]);
            }
        }
    }
}

/// Every coordinate flipped in one direction lies on the board and holds
/// the opponent's color.
pub proof fn lemma_flippable_in_dir_sound(b: Seq<Cell>, c: Cell, p: (int, int), d: (int, int))
    requires
        unit_dir(d),
    ensures
        forall|j: int| 0 <= j < flippable_in_dir(b, c, p, d).len() ==> {
            let q = #[trigger] flippable_in_dir(b, c, p, d)[j];
            on_board(q) && cell_at(b, q) == c.flip_spec()
        },
{
    let r = ray(p, d);
    let cells = cells_along(b, r);
    let n = flippable_count(c, cells);
    lemma_flip_run_elems(c, cells);
    lemma_ray_on_board(p, d);
    assert forall|j: int| 0 <= j < flippable_in_dir(b, c, p, d).len() implies {
        let q = #[trigger] flippable_in_dir(b, c, p, d)[j];
        on_board(q) && cell_at(b, q) == c.flip_spec()
    } by {
        assert(flippable_in_dir(b, c, p, d)[j] == r[j]);
        assert(cells[j] == cell_at(b, r[j]));
    }
}

/// Every coordinate in the full flip list lies on the board and holds the
/// opponent's color.
pub proof fn lemma_flippable_sound(b: Seq<Cell>, c: Cell, p: (int, int))
    ensures
        forall|j: int| 0 <= j < flippable_all(b, c, p).len() ==> {
            let q = #[trigger] flippable_all(b, c, p)[j];
            on_board(q) && cell_at(b, q) == c.flip_spec()
        },
{
    lemma_flippable_upto_sound(b, c, p, 8);
}

/// As `lemma_flippable_sound`, for the first `n` directions.
pub proof fn lemma_flippable_upto_sound(b: Seq<Cell>, c: Cell, p: (int, int), n: int)
    requires
        n <= 8,
    ensures
        forall|j: int| 0 <= j < flippable_upto(b, c, p, n).len() ==> {
            let q = #[trigger] flippable_upto(b, c, p, n)[j];
            on_board(q) && cell_at(b, q) == c.flip_spec()
        },
    decreases n,
{
    if n > 0 {
        lemma_flippable_upto_sound(b, c, p, n - 1);
        lemma_flippable_in_dir_sound(b, c, p, dir_vec(n - 1));
    }
}

/// Writing one set of coordinates keeps the board's size, and changes a
/// cell exactly when its coordinate was written.
pub proof fn lemma_set_all_at(b: Seq<Cell>, ps: Seq<(int, int)>, v: Cell, q: (int, int))
    requires
        board_wf(b),
        forall|j: int| 0 <= j < ps.len() ==> on_board(#[trigger] ps[j]),
        on_board(q),
    ensures
        board_wf(set_all(b, ps, v)),
        cell_at(set_all(b, ps, v), q) == if ps.contains(q) {
            v
        } else {
            cell_at(b, q)
        },
    decreases ps.len(),
{
    if ps.len() == 0 {
        assert(!ps.contains(q));
    } else {
        let l = ps.last();
        lemma_set_all_at(b, ps.drop_last(), v, q);
        if q == l {
            assert(ps.contains(q)) by {
                assert(ps[ps.len() - 1] == q);
            }
        } else {
            assert(cell_index(q) != cell_index(l));
            assert(ps.contains(q) <==> ps.drop_last().contains(q)) by {
                if ps.contains(q) {
                    let i = choose|i: int| 0 <= i < ps.len() && ps[i] == q;
                    assert(i < ps.len() - 1);
                    assert(ps.drop_last()[i] == q);
                }
                if ps.drop_last().contains(q) {
                    let i = choose|i: int| 0 <= i < ps.drop_last().len() && ps.drop_last()[i] == q;
                    assert(ps[i] == q);
                }
            }
        }
    }
}

/// Each listed placement lands on an empty cell and carries exactly the
/// non-empty flip list the move generator computes for it.
pub proof fn lemma_putables_upto_sound(b: Seq<Cell>, c: Cell, n: int)
    requires
        0 <= n <= 64,
    ensures
        forall|i: int| 0 <= i < putables_upto(b, c, n).len() ==> {
            let e = #[trigger] putables_upto(b, c, n)[i];
            &&& on_board(e.0)
            &&& cell_at(b, e.0) == Cell::Empty
            &&& e.1 == flippable_all(b, c, e.0)
            &&& e.1.len() > 0
        },
    decreases n,
{
    if n > 0 {
        lemma_putables_upto_sound(b, c, n - 1);
        assert(on_board(scan_pos(n - 1)));
    }
}

/// Every legal placement occurs in the scan: a position that is empty and
/// flips something is listed, with its flip list.
pub proof fn lemma_putables_upto_complete(b: Seq<Cell>, c: Cell, p: (int, int), n: int)
    requires
        on_board(p),
        cell_at(b, p) == Cell::Empty,
        flippable_all(b, c, p).len() > 0,
        cell_index(p) < n <= 64,
    ensures
        exists|i: int|
            0 <= i < putables_upto(b, c, n).len() && #[trigger] putables_upto(b, c, n)[i] == (
            p,
            flippable_all(b, c, p),
            ),
    decreases n,
{
    if cell_index(p) == n - 1 {
        assert(scan_pos(n - 1) == p);
        let s = putables_upto(b, c, n);
        assert(s[s.len() - 1] == (p, flippable_all(b, c, p)));
    } else {
        lemma_putables_upto_complete(b, c, p, n - 1);
        let i = choose|i: int|
            0 <= i < putables_upto(b, c, n - 1).len() && #[trigger] putables_upto(b, c, n - 1)[i]
                == (p, flippable_all(b, c, p));
        assert(putables_upto(b, c, n)[i] == (p, flippable_all(b, c, p)));
    }
}

/// The move generator lists only placements on currently empty cells, and
/// each flip list holds only coordinates with the opponent's color; every
/// such placement that flips something is listed.
pub proof fn lemma_legal_moves_sound(b: Seq<Cell>, c: Cell)
    ensures
        forall|i: int| 0 <= i < putables(b, c).len() ==> {
            let e = #[trigger] putables(b, c)[i];
            &&& on_board(e.0)
            &&& cell_at(b, e.0) == Cell::Empty
            &&& e.1 == flippable_all(b, c, e.0)
            &&& e.1.len() > 0
            &&& forall|j: int|
                0 <= j < e.1.len() ==> on_board(#[trigger] e.1[j]) && cell_at(b, e.1[j])
                    == c.flip_spec()
        },
        forall|p: (int, int)|
            on_board(p) && #[trigger] cell_at(b, p) == Cell::Empty && flippable_all(b, c, p).len()
                > 0 ==> exists|i: int|
                0 <= i < putables(b, c).len() && #[trigger] putables(b, c)[i] == (
                p,
                flippable_all(b, c, p),
                ),
{
    lemma_putables_upto_sound(b, c, 64);
    assert forall|i: int| 0 <= i < putables(b, c).len() implies {
        let e = #[trigger] putables(b, c)[i];
        &&& on_board(e.0)
        &&& cell_at(b, e.0) == Cell::Empty
        &&& e.1 == flippable_all(b, c, e.0)
        &&& e.1.len() > 0
        &&& forall|j: int|
            0 <= j < e.1.len() ==> on_board(#[trigger] e.1[j]) && cell_at(b, e.1[j])
                == c.flip_spec()
    } by {
        let e = putables(b, c)[i];
        lemma_flippable_sound(b, c, e.0);
    }
    assert forall|p: (int, int)|
        on_board(p) && #[trigger] cell_at(b, p) == Cell::Empty && flippable_all(b, c, p).len()
            > 0 implies exists|i: int|
        0 <= i < putables(b, c).len() && #[trigger] putables(b, c)[i] == (
        p,
        flippable_all(b, c, p),
        ) by {
        lemma_putables_upto_complete(b, c, p, 64);
    }
}

/// The ordered in-bounds coordinates starting one step from `coord` in
/// direction `dir`, out to the board edge; empty when `coord` itself is off
/// the board.
pub fn get_coords_to_edge(coord: (isize, isize), dir: (isize, isize)) -> (r: Vec<Coord>)
    requires
        unit_dir((dir.0 as int, dir.1 as int)),
    ensures
        coords_view(r@) == ray((coord.0 as int, coord.1 as int), (dir.0 as int, dir.1 as int)),
{
    let ghost p = (coord.0 as int, coord.1 as int);
    let ghost d = (dir.0 as int, dir.1 as int);
    let mut out: Vec<Coord> = Vec::new();
    if !(0 <= coord.0 && coord.0 < 8 && 0 <= coord.1 && coord.1 < 8) {
        assert(coords_view(out@) =~= ray(p, d));
        return out;
    }
    let mut x: isize = coord.0 + dir.0;
    let mut y: isize = coord.1 + dir.1;
    while 0 <= x && x < 8 && 0 <= y && y < 8
        invariant
            unit_dir(d),
            d == (dir.0 as int, dir.1 as int),
            on_board(p),
            out@.len() <= ray_len(p, d) <= 7,
            x as int == ray_step(p, d, out@.len() as int + 1).0,
            y as int == ray_step(p, d, out@.len() as int + 1).1,
            -8 <= x <= 8,
            -8 <= y <= 8,
            forall|j: int| 0 <= j < out@.len() ==> coord_view(#[trigger] out@[j]) == ray_step(p, d, j + 1),
        decreases 8 - out@.len(),
    {
        proof {
            lemma_on_board_iff(p, d, out@.len() as int + 1);
        }
        out.push((x as usize, y as usize));
        proof {
            lemma_ray_step_succ(p, d, out@.len() as int);
            lemma_mul_unit(out@.len() as int + 1, d.0);
            lemma_mul_unit(out@.len() as int + 1, d.1);
        }
        x = x + dir.0;
        y = y + dir.1;
    }
    proof {
        lemma_on_board_iff(p, d, out@.len() as int + 1);
        assert(out@.len() == ray_len(p, d));
        assert(coords_view(out@) =~= ray(p, d));
    }
    out
}

/// A board of 64 empty cells.
pub open spec fn empty_board() -> Seq<Cell> {
    Seq::new(64, |i: int| Cell::Empty)
}

/// The 8x8 game board, owned as a plain value and mutated only through
/// explicit coordinate writes.
#[derive(Debug)]
pub struct Board {
    grid: Vec<Cell>,
}

impl Board {
    /// A freshly allocated all-empty board.
    pub fn new_empty() -> (r: Self)
        ensures
            r.cells() == empty_board(),
    {
        let mut grid: Vec<Cell> = Vec::new();
        while grid.len() < 64
            invariant
                grid@.len() <= 64,
                forall|j: int| 0 <= j < grid@.len() ==> grid@[j] == Cell::Empty,
            decreases 64 - grid@.len(),
        {
            grid.push(Cell::Empty);
        }
        let r = Board { grid };
        proof {
            assert(r.cells() =~= empty_board());
        }
        r
    }

    /// Writes `cell` at `coord` in place.
    pub fn write(&mut self, coord: Coord, cell: Cell)
        requires
            board_wf(old(self).cells()),
            coord.0 < 8,
            coord.1 < 8,
        ensures
            final(self).cells() == board_set(old(self).cells(), coord_view(coord), cell),
    {
        let i: usize = coord.1 * 8 + coord.0;
        self.grid[i] = cell;
    }

    /// The cell currently at `coord`.
    pub fn read(&self, coord: Coord) -> (r: Cell)
        requires
            board_wf(self.cells()),
            coord.0 < 8,
            coord.1 < 8,
        ensures
            r == cell_at(self.cells(), coord_view(coord)),
    {
        let i: usize = coord.1 * 8 + coord.0;
        self.grid[i]
    }
}

/// The operations of the board model and the move generator.
pub trait BoardOps: Sized {
    /// The board's cells in row-major order.
    spec fn cells(&self) -> Seq<Cell>;

    /// Writes `cell` at `coord` and hands the board back for chaining.
    fn put(self, coord: Coord, cell: Cell) -> (r: Self)
        requires
            board_wf(self.cells()),
            coord.0 < 8,
            coord.1 < 8,
        ensures
            r.cells() == board_set(self.cells(), coord_view(coord), cell),
    ;

    /// The cells found at each of `coords`, in order.
    fn coords_to_cells(&self, coords: &[Coord]) -> (r: Vec<Cell>)
        requires
            board_wf(self.cells()),
            forall|j: int| 0 <= j < coords@.len() ==> on_board(coord_view(#[trigger] coords@[j])),
        ensures
            r@ == cells_along(self.cells(), coords_view(coords@)),
    ;

    /// How many cells a move by `cell` flips along the given ray of cells.
    fn count_flippable(&self, cell: Cell, cells: Vec<Cell>) -> (r: usize)
        ensures
            r == flippable_count(cell, cells@),
    ;

    /// Every coordinate a move by `cell` at `pos` flips, over all 8
    /// directions in canonical order, nearest-to-origin first within each.
    fn get_flippable_coords(&self, cell: Cell, pos: Coord) -> (r: Vec<Coord>)
        requires
            board_wf(self.cells()),
            pos.0 < 8,
            pos.1 < 8,
        ensures
            coords_view(r@) == flippable_all(self.cells(), cell, coord_view(pos)),
    ;

    /// Every legal placement for `cell`, paired with its flip list, in
    /// row-major scan order; legality requires a non-empty flip list.
    fn get_putable_coords(&self, cell: Cell) -> (r: Vec<(Coord, Vec<Coord>)>)
        requires
            board_wf(self.cells()),
        ensures
            putable_view(r@) == putables(self.cells(), cell),
    ;
}

impl BoardOps for Board {
    closed spec fn cells(&self) -> Seq<Cell> {
        self.grid@
    }

    fn put(self, coord: Coord, cell: Cell) -> (r: Self) {
        let mut b = self;
        b.write(coord, cell);
        b
    }

    fn coords_to_cells(&self, coords: &[Coord]) -> (r: Vec<Cell>) {
        let mut out: Vec<Cell> = Vec::new();
        let mut i: usize = 0;
        while i < coords.len()
            invariant
                board_wf(self.cells()),
                forall|j: int| 0 <= j < coords@.len() ==> on_board(
                    coord_view(#[trigger] coords@[j]),
                ),
                i <= coords@.len(),
                out@.len() == i,
                forall|j: int| 0 <= j < i ==> out@[j] == cell_at(
                    self.cells(),
                    coord_view(coords@[j]),
                ),
            decreases coords@.len() - i,
        {
            let c = coords[i];
            out.push(self.read(c));
            i += 1;
        }
        proof {
            assert(out@ =~= cells_along(self.cells(), coords_view(coords@)));
        }
        out
    }

    fn count_flippable(&self, cell: Cell, cells: Vec<Cell>) -> (r: usize) {
        let target = cell.flip();
        let mut i: usize = 0;
        while i < cells.len() && cells[i] == target
            invariant
                i <= cells@.len(),
                target == cell.flip_spec(),
                forall|j: int| 0 <= j < i ==> cells@[j] == cell.flip_spec(),
            decreases cells@.len() - i,
        {
            i += 1;
        }
        proof {
            lemma_flip_run_prefix(cell, cells@, i as int);
        }
        if i < cells.len() {
            if cells[i] == cell {
                i
            } else {
                0
            }
        } else {
            0
        }
    }

    fn get_flippable_coords(&self, cell: Cell, pos: Coord) -> (r: Vec<Coord>) {
        let ghost b = self.cells();
        let ghost pp = coord_view(pos);
        let mut out: Vec<Coord> = Vec::new();
        let mut dnum: usize = 0;
        while dnum < 8
            invariant
                board_wf(b),
                b == self.cells(),
                pos.0 < 8,
                pos.1 < 8,
                pp == coord_view(pos),
                dnum <= 8,
                coords_view(out@) == flippable_upto(b, cell, pp, dnum as int),
            decreases 8 - dnum,
        {
            let dir: (isize, isize) = if dnum == 0 {
                (1, 0)
            } else if dnum == 1 {
                (1, 1)
            } else if dnum == 2 {
                (0, 1)
            } else if dnum == 3 {
                (-1, 1)
            } else if dnum == 4 {
                (-1, 0)
            } else if dnum == 5 {
                (-1, -1)
            } else if dnum == 6 {
                (0, -1)
            } else {
                (1, -1)
            };
            let ghost dv = (dir.0 as int, dir.1 as int);
            proof {
                assert(dv == dir_vec(dnum as int));
                lemma_ray_on_board(pp, dv);
            }
            let ray_coords = get_coords_to_edge((pos.0 as isize, pos.1 as isize), dir);
            proof {
                assert(coords_view(ray_coords@) == ray(pp, dv));
                assert forall|j: int|
                    0 <= j < ray_coords@.len() implies on_board(
                    coord_view(#[trigger] ray_coords@[j]),
                ) by {
                    assert(coord_view(ray_coords@[j]) == coords_view(ray_coords@)[j]);
                }
            }
            let ray_cells = self.coords_to_cells(ray_coords.as_slice());
            let n = self.count_flippable(cell, ray_cells);
            proof {
                assert(n as int <= ray(pp, dv).len());
                assert(coords_view(out@) + ray(pp, dv).take(0) =~= coords_view(out@));
            }
            let mut k: usize = 0;
            while k < n
                invariant
                    k <= n,
                    n as int <= ray(pp, dv).len(),
                    ray_coords@.len() == ray(pp, dv).len(),
                    coords_view(ray_coords@) == ray(pp, dv),
                    coords_view(out@) == flippable_upto(b, cell, pp, dnum as int) + ray(
                        pp,
                        dv,
                    ).take(k as int),
                decreases n - k,
            {
                let ghost prev = out@;
                let step = ray_coords[k];
                out.push(step);
                proof {
                    assert(coord_view(ray_coords@[k as int]) == ray(pp, dv)[k as int]);
                    lemma_coords_view_push(prev, step);
                    assert((flippable_upto(b, cell, pp, dnum as int) + ray(pp, dv).take(
                        k as int,
                    )).push(ray(pp, dv)[k as int]) =~= flippable_upto(b, cell, pp, dnum as int)
                        + ray(pp, dv).take(k as int + 1));
                }
                k += 1;
            }
            proof {
                assert(ray(pp, dv).take(n as int) == flippable_in_dir(b, cell, pp, dv));
                assert(coords_view(out@) =~= flippable_upto(b, cell, pp, dnum as int + 1));
            }
            dnum += 1;
        }
        out
    }

    fn get_putable_coords(&self, cell: Cell) -> (r: Vec<(Coord, Vec<Coord>)>) {
        let ghost b = self.cells();
        let mut out: Vec<(Coord, Vec<Coord>)> = Vec::new();
        let mut i: usize = 0;
        while i < 64
            invariant
                board_wf(b),
                b == self.cells(),
                i <= 64,
                putable_view(out@) == putables_upto(b, cell, i as int),
            decreases 64 - i,
        {
            let x: usize = i % 8;
            let y: usize = i / 8;
            proof {
                assert(scan_pos(i as int) == (x as int, y as int));
            }
            let here = self.read((x, y));
            if here == Cell::Empty {
                let flips = self.get_flippable_coords(cell, (x, y));
                if flips.len() > 0 {
                    out.push(((x, y), flips));
                    proof {
                        assert(putable_view(out@) =~~= putables_upto(b, cell, i as int + 1));
                    }
                } else {
                    proof {
                        assert(putable_view(out@) =~~= putables_upto(b, cell, i as int + 1));
                    }
                }
            } else {
                proof {
                    assert(putable_view(out@) =~~= putables_upto(b, cell, i as int + 1));
                }
            }
            i += 1;
        }
        out
    }
}

} // verus!
