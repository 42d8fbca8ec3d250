//! The board: where the mines lie, which cells are open and which are
//! flagged, and the moves that open and flag cells.
use std::collections::HashSet;

use vstd::prelude::*;

use crate::grid::{
    cell_index, in_bounds, lemma_cell_index, lemma_neighbours, neighbour_cells, neighbours_of,
    Position,
};
use crate::random::random_range;

use vstd::arithmetic::div_mod::{
    lemma_div_is_ordered, lemma_div_pos_is_pos, lemma_fundamental_div_mod,
    lemma_fundamental_div_mod_converse, lemma_mod_pos_bound,
};

verus! {

broadcast use vstd::std_specs::hash::group_hash_axioms;

/// Why a board could not be made, or a move could not be made on it.
#[derive(Clone, Copy, Debug, PartialEq, Eq, Structural)]
pub enum BoardError {
    /// The board would have no column or no row.
    InvalidDimensions,
    /// There are not more cells than the mines asked for.
    MineCountInfeasible,
    /// The position lies off the board.
    OutOfBounds,
}

/// What opening a cell revealed.
#[derive(Clone, Copy, Debug, PartialEq, Eq, Structural)]
pub enum OpenResult {
    /// The cell holds a mine.
    Mine,
    /// The cell holds no mine; this many of its neighbours do.
    NoMine(u8),
}

/// What a player sees of a cell.
#[derive(Clone, Copy, Debug, PartialEq, Eq, Structural)]
pub enum Cell {
    /// Not opened and not flagged.
    Hidden,
    /// Not opened, and flagged.
    Flagged,
    /// Opened, and holds a mine.
    Mine,
    /// Opened, holds no mine; this many of its neighbours do.
    Safe(u8),
}

/// The state of a board as sets of positions.
pub ghost struct BoardModel {
    pub width: nat,
    pub height: nat,
    pub mines: Set<Position>,
    pub open: Set<Position>,
    pub flagged: Set<Position>,
}

/// The number of mines among the cells of `s`.
pub open spec fn mines_among(mines: Set<Position>, s: Seq<Position>) -> nat {
    s.filter(|q: Position| mines.contains(q)).len()
}

impl BoardModel {
    /// `p` is a cell of the board.
    pub open spec fn on_board(self, p: Position) -> bool {
        in_bounds(self.width, self.height, p)
    }

    /// The neighbours of `p`, in the order in which they are listed.
    pub open spec fn neighbours(self, p: Position) -> Seq<Position> {
        neighbours_of(self.width, self.height, p)
    }

    /// How many neighbours of `p` hold a mine.
    pub open spec fn neighbouring_mines(self, p: Position) -> nat {
        mines_among(self.mines, self.neighbours(p))
    }

    /// What opening `p` reveals.
    pub open spec fn open_result(self, p: Position) -> OpenResult {
        if self.mines.contains(p) {
            OpenResult::Mine
        } else {
            OpenResult::NoMine(self.neighbouring_mines(p) as u8)
        }
    }

    /// What a player sees at `p`.
    pub open spec fn cell(self, p: Position) -> Cell {
        if self.open.contains(p) {
            if self.mines.contains(p) {
                Cell::Mine
            } else {
                Cell::Safe(self.neighbouring_mines(p) as u8)
            }
        } else if self.flagged.contains(p) {
            Cell::Flagged
        } else {
            Cell::Hidden
        }
    }

    /// The board after opening `p`: a flagged cell, or one off the board,
    /// stays as it is.
    pub open spec fn after_open(self, p: Position) -> BoardModel {
        if !self.on_board(p) || self.flagged.contains(p) {
            self
        } else {
            BoardModel { open: self.open.insert(p), ..self }
        }
    }

    /// What opening `p` reports: an error off the board, a refusal on a
    /// flagged cell, and what the cell reveals otherwise.
    pub open spec fn open_outcome(self, p: Position) -> Result<Option<OpenResult>, BoardError> {
        if !self.on_board(p) {
            Err(BoardError::OutOfBounds)
        } else if self.flagged.contains(p) {
            Ok(None)
        } else {
            Ok(Some(self.open_result(p)))
        }
    }

    /// The board after toggling the flag at `p`: an open cell, or one off
    /// the board, stays as it is.
    pub open spec fn after_toggle(self, p: Position) -> BoardModel {
        if !self.on_board(p) || self.open.contains(p) {
            self
        } else if self.flagged.contains(p) {
            BoardModel { flagged: self.flagged.remove(p), ..self }
        } else {
            BoardModel { flagged: self.flagged.insert(p), ..self }
        }
    }

    /// What holds of every board: at least one column and one row, mines,
    /// open cells and flags on the board, fewer mines than cells, and no
    /// cell both open and flagged.
    pub open spec fn valid(self) -> bool {
        &&& self.width > 0
        &&& self.height > 0
        &&& self.mines.finite()
        &&& self.mines.len() < self.width * self.height
        &&& forall|p: Position| #[trigger] self.mines.contains(p) ==> self.on_board(p)
        &&& forall|p: Position| #[trigger] self.open.contains(p) ==> self.on_board(p)
        &&& forall|p: Position| #[trigger] self.flagged.contains(p) ==> self.on_board(p)
        &&& forall|p: Position| !(#[trigger] self.open.contains(p) && self.flagged.contains(p))
    }
}

/// Toggling the flag of a cell that is not open twice leaves the board as
/// it was: a cell that was not flagged is not flagged again.
pub proof fn lemma_toggle_twice(m: BoardModel, p: Position)
    requires
        !m.open.contains(p),
    ensures
        m.after_toggle(p).after_toggle(p) == m,
{
    if m.on_board(p) {
        if m.flagged.contains(p) {
            assert(m.flagged.remove(p).insert(p) =~= m.flagged);
        } else {
            assert(m.flagged.insert(p).remove(p) =~= m.flagged);
        }
    }
}

/// All cells of a `width` x `height` grid, row by row.
pub open spec fn all_cells(width: nat, height: nat) -> Seq<Position> {
    Seq::new(
        width * height,
        |k: int| ((k % width as int) as usize, (k / width as int) as usize),
    )
}

/// The cells still free after the draws `draws`.
pub open spec fn free_after(width: nat, height: nat, draws: Seq<usize>) -> Seq<Position>
    decreases draws.len(),
{
    if draws.len() == 0 {
        all_cells(width, height)
    } else {
        let prev = free_after(width, height, draws.drop_last());
        let at = draws.last() as int % prev.len() as int;
        prev.update(at, prev.last()).drop_last()
    }
}

/// The cells that the draws `draws` took.
pub open spec fn drawn_mines(width: nat, height: nat, draws: Seq<usize>) -> Set<Position>
    decreases draws.len(),
{
    if draws.len() == 0 {
        Set::empty()
    } else {
        let prev = free_after(width, height, draws.drop_last());
        let at = draws.last() as int % prev.len() as int;
        drawn_mines(width, height, draws.drop_last()).insert(prev[at])
    }
}

/// The cells of the grid are on it, each once.
proof fn lemma_all_cells(width: nat, height: nat)
    requires
        width > 0,
        width * height <= usize::MAX,
    ensures
        all_cells(width, height).no_duplicates(),
        forall|j: int|
            0 <= j < all_cells(width, height).len() ==> in_bounds(
                width,
                height,
                #[trigger] all_cells(width, height)[j],
            ),
{
    let s = all_cells(width, height);
    let w = width as int;
    assert forall|j: int| 0 <= j < s.len() implies in_bounds(width, height, #[trigger] s[j]) by {
        lemma_div_pos_is_pos(j, w);
        lemma_mod_pos_bound(j, w);
        lemma_div_is_ordered(j, w * height - 1, w);
        assert(w * height - 1 == (height - 1) * w + (w - 1)) by (nonlinear_arith);
        lemma_fundamental_div_mod_converse(w * height - 1, w, height - 1, w - 1);
    }
    assert forall|a: int, b: int|
        0 <= a < s.len() && 0 <= b < s.len() && a != b implies s[a] != s[b] by {
        lemma_div_pos_is_pos(a, w);
        lemma_mod_pos_bound(a, w);
        lemma_div_pos_is_pos(b, w);
        lemma_mod_pos_bound(b, w);
        lemma_fundamental_div_mod(a, w);
        lemma_fundamental_div_mod(b, w);
    }
}

/// Counting the mines of a sequence one cell further.
proof fn lemma_mines_among_push(mines: Set<Position>, s: Seq<Position>, x: Position)
    ensures
        mines_among(mines, s.push(x)) == mines_among(mines, s) + if mines.contains(x) {
            1int
        } else {
            0int
        },
{
    reveal(Seq::filter);
    assert(s.push(x).drop_last() =~= s);
}

/// The positions on a `width` x `height` grid whose cell numbers are in `keys`.
pub open spec fn cells_of(width: nat, height: nat, keys: Set<usize>) -> Set<Position> {
    Set::new(|p: Position| in_bounds(width, height, p) && keys.contains(cell_index(width, p) as usize))
}

/// A Minesweeper board. Cells are kept by their number, row by row.
pub struct Minesweeper {
    width: usize,
    height: usize,
    open_fields: HashSet<usize>,
    mines: HashSet<usize>,
    flagged_fields: HashSet<usize>,
    mine_set: Ghost<Set<Position>>,
}

impl View for Minesweeper {
    type V = BoardModel;

    closed spec fn view(&self) -> BoardModel {
        BoardModel {
            width: self.width as nat,
            height: self.height as nat,
            mines: self.mine_set@,
            open: cells_of(self.width as nat, self.height as nat, self.open_fields@),
            flagged: cells_of(self.width as nat, self.height as nat, self.flagged_fields@),
        }
    }
}

impl Minesweeper {
    /// The invariant of the board.
    pub closed spec fn wf(&self) -> bool {
        let w = self.width as nat;
        let h = self.height as nat;
        &&& w > 0
        &&& h > 0
        &&& w * h <= usize::MAX
        &&& self.mine_set@.finite()
        &&& self.mine_set@.len() < w * h
        &&& self.mines@.finite()
        &&& self.mines@.len() == self.mine_set@.len()
        &&& forall|p: Position| #[trigger] self.mine_set@.contains(p) ==> in_bounds(w, h, p)
        &&& forall|p: Position|
            in_bounds(w, h, p) ==> (#[trigger] self.mine_set@.contains(p)
                <==> self.mines@.contains(cell_index(w, p) as usize))
        &&& forall|k: usize|
            !(#[trigger] self.open_fields@.contains(k) && self.flagged_fields@.contains(k))
    }

    /// A well-formed board is valid.
    pub proof fn lemma_valid(&self)
        requires
            self.wf(),
        ensures
            self@.valid(),
    {
        let m = self@;
        assert forall|p: Position| !(#[trigger] m.open.contains(p) && m.flagged.contains(p)) by {
            if m.open.contains(p) {
                assert(self.open_fields@.contains(cell_index(m.width, p) as usize));
            }
        }
    }

    /// The number of the cell at `p`.
    fn index(&self, p: Position) -> (r: usize)
        requires
            self.wf(),
            self@.on_board(p),
        ensures
            r as int == cell_index(self@.width, p),
    {
        proof {
            lemma_cell_index(self.width as nat, self.height as nat, p, p);
            assert(p.1 * self.width <= cell_index(self.width as nat, p));
        }
        p.1 * self.width + p.0
    }

    /// A board of `width` columns and `height` rows with `mine_count` mines,
    /// each placed on a cell drawn at random among the cells still free. All
    /// cells are hidden and none is flagged.
    pub fn new(width: usize, height: usize, mine_count: usize) -> (r: Result<
        Minesweeper,
        BoardError,
    >)
        requires
            width * height <= usize::MAX,
        ensures
            r is Ok <==> (width > 0 && height > 0 && mine_count < width * height),
            r == Err::<Minesweeper, BoardError>(BoardError::InvalidDimensions) <==> (width == 0
                || height == 0),
            r == Err::<Minesweeper, BoardError>(BoardError::MineCountInfeasible) <==> (width > 0
                && height > 0 && mine_count >= width * height),
            r matches Ok(b) ==> {
                &&& b.wf()
                &&& b@.width == width
                &&& b@.height == height
                &&& b@.mines.len() == mine_count
                &&& forall|p: Position| #[trigger] b@.mines.contains(p) ==> b@.on_board(p)
                &&& b@.open == Set::<Position>::empty()
                &&& b@.flagged == Set::<Position>::empty()
            },
    {
        if width == 0 || height == 0 {
            return Err(BoardError::InvalidDimensions);
        }
        let cells = width * height;
        if mine_count >= cells {
            return Err(BoardError::MineCountInfeasible);
        }
        let mut draws: Vec<usize> = Vec::new();
        let mut i: usize = 0;
        while i < mine_count
            invariant
                mine_count < cells,
                i <= mine_count,
                draws.len() == i,
            decreases mine_count - i,
        {
            draws.push(random_range(0, cells - i));
            i += 1;
        }
        Minesweeper::with_draws(width, height, &draws)
    }

    /// A board of `width` columns and `height` rows with one mine for each
    /// draw. The free cells start as all cells, row by row; draw `d` takes
    /// the free cell at `d` modulo their number, and the last free cell
    /// takes its place. All cells are hidden and none is flagged.
    pub fn with_draws(width: usize, height: usize, draws: &Vec<usize>) -> (r: Result<
        Minesweeper,
        BoardError,
    >)
        requires
            width * height <= usize::MAX,
        ensures
            r is Ok <==> (width > 0 && height > 0 && draws.len() < width * height),
            r == Err::<Minesweeper, BoardError>(BoardError::InvalidDimensions) <==> (width == 0
                || height == 0),
            r == Err::<Minesweeper, BoardError>(BoardError::MineCountInfeasible) <==> (width > 0
                && height > 0 && draws.len() >= width * height),
            r matches Ok(b) ==> {
                &&& b.wf()
                &&& b@.width == width
                &&& b@.height == height
                &&& b@.mines == drawn_mines(width as nat, height as nat, draws@)
                &&& b@.mines.len() == draws.len()
                &&& forall|p: Position| #[trigger] b@.mines.contains(p) ==> b@.on_board(p)
                &&& b@.open == Set::<Position>::empty()
                &&& b@.flagged == Set::<Position>::empty()
            },
    {
        if width == 0 || height == 0 {
            return Err(BoardError::InvalidDimensions);
        }
        let cells = width * height;
        if draws.len() >= cells {
            return Err(BoardError::MineCountInfeasible);
        }
        let w = Ghost(width as nat);
        let h = Ghost(height as nat);
        // Every cell, row by row.
        let mut free: Vec<Position> = Vec::new();
        let mut y: usize = 0;
        while y < height
            invariant
                w@ == width,
                h@ == height,
                width > 0,
                y <= height,
                width * height == cells,
                free.len() == y * width,
                forall|j: int|
                    0 <= j < free.len() ==> #[trigger] free@[j] == all_cells(w@, h@)[j],
            decreases height - y,
        {
            let mut x: usize = 0;
            while x < width
                invariant
                    w@ == width,
                    h@ == height,
                    x <= width,
                    y < height,
                    width * height == cells,
                    free.len() == y * width + x,
                    forall|j: int|
                        0 <= j < free.len() ==> #[trigger] free@[j] == all_cells(w@, h@)[j],
                decreases width - x,
            {
                proof {
                    assert(y * width + x < (y + 1) * width) by (nonlinear_arith)
                        requires
                            x < width,
                    ;
                    assert((y + 1) * width <= height * width) by (nonlinear_arith)
                        requires
                            y < height,
                    ;
                    assert(height * width == width * height) by (nonlinear_arith);
                    lemma_fundamental_div_mod_converse(
                        y * width + x,
                        width as int,
                        y as int,
                        x as int,
                    );
                }
                free.push((x, y));
                x += 1;
            }
            proof {
                assert(y * width + width == (y + 1) * width) by (nonlinear_arith);
            }
            y += 1;
        }
        proof {
            assert(height * width == width * height) by (nonlinear_arith);
            assert(free@ =~= all_cells(w@, h@));
            lemma_all_cells(w@, h@);
        }
        // Take one free cell for each draw.
        let mut mines: HashSet<usize> = HashSet::new();
        let ghost mut mine_set: Set<Position> = Set::empty();
        let mut i: usize = 0;
        while i < draws.len()
            invariant
                w@ == width,
                h@ == height,
                width > 0,
                height > 0,
                width * height == cells,
                draws.len() < cells,
                i <= draws.len(),
                free.len() + i == cells,
                free@ == free_after(w@, h@, draws@.take(i as int)),
                mine_set == drawn_mines(w@, h@, draws@.take(i as int)),
                free@.no_duplicates(),
                forall|j: int|
                    0 <= j < free.len() ==> in_bounds(w@, h@, #[trigger] free@[j])
                        && !mine_set.contains(free@[j]),
                mine_set.finite(),
                mine_set.len() == i,
                mines@.finite(),
                mines@.len() == i,
                forall|p: Position| #[trigger] mine_set.contains(p) ==> in_bounds(w@, h@, p),
                forall|p: Position|
                    in_bounds(w@, h@, p) ==> (#[trigger] mine_set.contains(p) <==> mines@.contains(
                        cell_index(w@, p) as usize,
                    )),
            decreases draws.len() - i,
        {
            let pick = draws[i] % free.len();
            let ghost before = free@;
            proof {
                assert(draws@.take(i + 1).drop_last() =~= draws@.take(i as int));
            }
            let p = free.swap_remove(pick);
            proof {
                assert forall|j: int| 0 <= j < free.len() implies #[trigger] free@[j] != p
                    && in_bounds(w@, h@, free@[j]) && !mine_set.contains(free@[j]) by {
                    if j == pick {
                        assert(free@[j] == before[before.len() - 1]);
                    } else {
                        assert(free@[j] == before[j]);
                    }
                }
                assert forall|a: int, b: int|
                    0 <= a < free.len() && 0 <= b < free.len() && a != b implies free@[a]
                    != free@[b] by {
                    let ba = if a == pick { before.len() - 1 } else { a };
                    let bb = if b == pick { before.len() - 1 } else { b };
                    assert(free@[a] == before[ba]);
                    assert(free@[b] == before[bb]);
                }
                lemma_cell_index(w@, h@, p, p);
                assert(p.1 * width <= cell_index(w@, p));
            }
            let k = p.1 * width + p.0;
            mines.insert(k);
            proof {
                assert forall|q: Position|
                    in_bounds(w@, h@, q) implies (#[trigger] mine_set.insert(p).contains(q)
                    <==> mines@.contains(cell_index(w@, q) as usize)) by {
                    lemma_cell_index(w@, h@, q, p);
                }
                mine_set = mine_set.insert(p);
            }
            i += 1;
        }
        proof {
            assert(draws@.take(draws.len() as int) =~= draws@);
        }
        let board = Minesweeper {
            width,
            height,
            open_fields: HashSet::new(),
            mines,
            flagged_fields: HashSet::new(),
            mine_set: Ghost(mine_set),
        };
        proof {
            assert(board@.open =~= Set::<Position>::empty());
            assert(board@.flagged =~= Set::<Position>::empty());
        }
        Ok(board)
    }

    /// The number of columns.
    pub fn width(&self) -> (r: usize)
        ensures
            r == self@.width,
    {
        self.width
    }

    /// The number of rows.
    pub fn height(&self) -> (r: usize)
        ensures
            r == self@.height,
    {
        self.height
    }

    /// The number of mines on the board.
    pub fn mine_count(&self) -> (r: usize)
        requires
            self.wf(),
        ensures
            r == self@.mines.len(),
    {
        self.mines.len()
    }

    /// Whether `p` holds a mine; no cell off the board does.
    pub fn is_mine(&self, p: Position) -> (r: bool)
        requires
            self.wf(),
        ensures
            r == self@.mines.contains(p),
    {
        if p.0 < self.width && p.1 < self.height {
            let k = self.index(p);
            self.mines.contains(&k)
        } else {
            false
        }
    }

    /// Whether `p` has been opened; no cell off the board has.
    pub fn is_open(&self, p: Position) -> (r: bool)
        requires
            self.wf(),
        ensures
            r == self@.open.contains(p),
    {
        if p.0 < self.width && p.1 < self.height {
            let k = self.index(p);
            self.open_fields.contains(&k)
        } else {
            false
        }
    }

    /// Whether `p` is flagged; no cell off the board is.
    pub fn is_flagged(&self, p: Position) -> (r: bool)
        requires
            self.wf(),
        ensures
            r == self@.flagged.contains(p),
    {
        if p.0 < self.width && p.1 < self.height {
            let k = self.index(p);
            self.flagged_fields.contains(&k)
        } else {
            false
        }
    }

    /// The neighbours of `pos`: the cells of the 3x3 window around it that
    /// lie on the board, without `pos`, column by column and each column
    /// top to bottom.
    pub fn neighbours(&self, pos: Position) -> (r: Result<Vec<Position>, BoardError>)
        requires
            self.wf(),
        ensures
            match r {
                Ok(v) => {
                    &&& self@.on_board(pos)
                    &&& v@ == self@.neighbours(pos)
                    &&& v@.no_duplicates()
                    &&& !v@.contains(pos)
                    &&& forall|i: int| 0 <= i < v@.len() ==> self@.on_board(#[trigger] v@[i])
                    &&& v@.len() <= 8
                },
                Err(e) => !self@.on_board(pos) && e == BoardError::OutOfBounds,
            },
    {
        if !(pos.0 < self.width && pos.1 < self.height) {
            return Err(BoardError::OutOfBounds);
        }
        proof {
            lemma_neighbours(self.width as nat, self.height as nat, pos);
        }
        Ok(neighbour_cells(self.width, self.height, pos))
    }

    /// How many neighbours of `pos` hold a mine.
    pub fn neighbouring_mines(&self, pos: Position) -> (r: Result<u8, BoardError>)
        requires
            self.wf(),
        ensures
            match r {
                Ok(n) => self@.on_board(pos) && n == self@.neighbouring_mines(pos) && n <= 8,
                Err(e) => !self@.on_board(pos) && e == BoardError::OutOfBounds,
            },
    {
        if !(pos.0 < self.width && pos.1 < self.height) {
            return Err(BoardError::OutOfBounds);
        }
        Ok(self.mines_around(pos))
    }

    /// How many neighbours of `pos`, a cell of the board, hold a mine.
    fn mines_around(&self, pos: Position) -> (r: u8)
        requires
            self.wf(),
            self@.on_board(pos),
        ensures
            r == self@.neighbouring_mines(pos),
            r <= 8,
    {
        let ns = neighbour_cells(self.width, self.height, pos);
        proof {
            lemma_neighbours(self.width as nat, self.height as nat, pos);
        }
        let mut count: u8 = 0;
        let mut i: usize = 0;
        while i < ns.len()
            invariant
                self.wf(),
                ns@ == self@.neighbours(pos),
                ns@.len() <= 8,
                forall|j: int| 0 <= j < ns@.len() ==> self@.on_board(#[trigger] ns@[j]),
                i <= ns@.len(),
                count <= i,
                count == mines_among(self@.mines, ns@.take(i as int)),
            decreases ns.len() - i,
        {
            let q = ns[i];
            proof {
                assert(ns@.take(i + 1) =~= ns@.take(i as int).push(q));
                lemma_mines_among_push(self@.mines, ns@.take(i as int), q);
            }
            if self.is_mine(q) {
                count += 1;
            }
            i += 1;
        }
        proof {
            assert(ns@.take(ns@.len() as int) =~= ns@);
        }
        count
    }

    /// Opens `pos` and says what it holds. A flagged cell is not opened:
    /// the board stays as it is and the answer is `None`. Opening an open
    /// cell again changes nothing and reports the same. Off the board the
    /// answer is an error and nothing changes.
    pub fn open(&mut self, pos: Position) -> (r: Result<Option<OpenResult>, BoardError>)
        requires
            old(self).wf(),
        ensures
            final(self).wf(),
            final(self)@ == old(self)@.after_open(pos),
            r == old(self)@.open_outcome(pos),
            !old(self)@.on_board(pos) ==> r == Err::<Option<OpenResult>, BoardError>(
                BoardError::OutOfBounds,
            ) && final(self)@ == old(self)@,
            old(self)@.flagged.contains(pos) ==> r == Ok::<Option<OpenResult>, BoardError>(None)
                && final(self)@ == old(self)@,
            old(self)@.on_board(pos) && !old(self)@.flagged.contains(pos) ==> {
                &&& final(self)@.open == old(self)@.open.insert(pos)
                &&& final(self)@.flagged == old(self)@.flagged
                &&& final(self)@.mines == old(self)@.mines
                &&& r == Ok::<Option<OpenResult>, BoardError>(
                    Some(
                        if old(self)@.mines.contains(pos) {
                            OpenResult::Mine
                        } else {
                            OpenResult::NoMine(old(self)@.neighbouring_mines(pos) as u8)
                        },
                    ),
                )
            },
    {
        if !(pos.0 < self.width && pos.1 < self.height) {
            return Err(BoardError::OutOfBounds);
        }
        let k = self.index(pos);
        if self.flagged_fields.contains(&k) {
            return Ok(None);
        }
        let result = if self.mines.contains(&k) {
            OpenResult::Mine
        } else {
            OpenResult::NoMine(self.mines_around(pos))
        };
        let ghost before = self@;
        self.open_fields.insert(k);
        proof {
            let w = self.width as nat;
            let h = self.height as nat;
            assert forall|q: Position| #[trigger] self@.open.contains(q) <==> before.open.insert(
                pos,
            ).contains(q) by {
                if in_bounds(w, h, q) {
                    lemma_cell_index(w, h, q, pos);
                }
            }
            assert(self@.open =~= before.open.insert(pos));
            assert(self@ == before.after_open(pos));
        }
        Ok(Some(result))
    }

    /// Toggles the flag at `pos`. An open cell cannot be flagged: there
    /// nothing changes. Off the board the answer is an error and nothing
    /// changes.
    pub fn toggle_flag(&mut self, pos: Position) -> (r: Result<(), BoardError>)
        requires
            old(self).wf(),
        ensures
            final(self).wf(),
            final(self)@ == old(self)@.after_toggle(pos),
            r is Err <==> !old(self)@.on_board(pos),
            r is Err ==> r == Err::<(), BoardError>(BoardError::OutOfBounds),
            old(self)@.open.contains(pos) ==> final(self)@ == old(self)@,
            old(self)@.on_board(pos) && !old(self)@.open.contains(pos) ==> {
                &&& final(self)@.flagged.contains(pos) == !old(self)@.flagged.contains(pos)
                &&& forall|q: Position|
                    q != pos ==> final(self)@.flagged.contains(q) == old(self)@.flagged.contains(q)
                &&& final(self)@.open == old(self)@.open
                &&& final(self)@.mines == old(self)@.mines
            },
    {
        if !(pos.0 < self.width && pos.1 < self.height) {
            return Err(BoardError::OutOfBounds);
        }
        let k = self.index(pos);
        if self.open_fields.contains(&k) {
            return Ok(());
        }
        let ghost before = self@;
        let w = Ghost(self.width as nat);
        let h = Ghost(self.height as nat);
        if self.flagged_fields.contains(&k) {
            self.flagged_fields.remove(&k);
            proof {
                assert forall|q: Position| #[trigger] self@.flagged.contains(q)
                    <==> before.flagged.remove(pos).contains(q) by {
                    if in_bounds(w@, h@, q) {
                        lemma_cell_index(w@, h@, q, pos);
                    }
                }
                assert(self@.flagged =~= before.flagged.remove(pos));
            }
        } else {
            self.flagged_fields.insert(k);
            proof {
                assert forall|q: Position| #[trigger] self@.flagged.contains(q)
                    <==> before.flagged.insert(pos).contains(q) by {
                    if in_bounds(w@, h@, q) {
                        lemma_cell_index(w@, h@, q, pos);
                    }
                }
                assert(self@.flagged =~= before.flagged.insert(pos));
            }
        }
        Ok(())
    }

    /// What a player sees at `pos`: hidden, flagged, an open mine, or an
    /// open safe cell with the number of mines around it.
    pub fn cell(&self, pos: Position) -> (r: Result<Cell, BoardError>)
        requires
            self.wf(),
        ensures
            match r {
                Ok(c) => self@.on_board(pos) && c == self@.cell(pos),
                Err(e) => !self@.on_board(pos) && e == BoardError::OutOfBounds,
            },
    {
        if !(pos.0 < self.width && pos.1 < self.height) {
            return Err(BoardError::OutOfBounds);
        }
        if self.is_open(pos) {
            if self.is_mine(pos) {
                Ok(Cell::Mine)
            } else {
                Ok(Cell::Safe(self.mines_around(pos)))
            }
        } else if self.is_flagged(pos) {
            Ok(Cell::Flagged)
        } else {
            Ok(Cell::Hidden)
        }
    }
}

} // verus!
