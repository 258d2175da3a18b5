use vstd::prelude::*;
use rand::Rng;
use crate::count::{unrevealed, lemma_reveal_in_column, lemma_replace_column};

verus! {

/// What the player sees of one cell.
#[derive(Debug, Clone, Copy, PartialEq, Eq, Structural)]
pub enum State {
    Hidden,
    Revealed,
    Marked,
}

/// What one cell shows on screen.
#[derive(Debug, Clone, Copy, PartialEq, Eq, Structural)]
pub enum Glyph {
    /// A cell not revealed yet.
    Blank,
    /// A cell the player has marked.
    Flag,
    /// A revealed mine.
    Mine,
    /// A revealed cell without a mine, with the number of mines around it.
    Count(i32),
}

/// Where a round stands after a frame's input.
#[derive(Debug, Clone, Copy, PartialEq, Eq, Structural)]
pub enum Phase {
    /// Clicks are taken.
    Playing,
    /// The round is over; only quit or restart are taken.
    RoundOver { won: bool },
    /// The player asked to quit.
    Quit,
}

/// Chance, in percent, that a cell holds a mine at the reference difficulty.
pub const BASE_CHANCE_PERCENT: u32 = 10;

/// The difficulty at which the mine chance is exactly the base chance.
pub const REFERENCE_DIFFICULTY: u32 = 5;

/// Mine rolls are drawn from `0..ROLL_SPAN`.
pub const ROLL_SPAN: u32 = 100 * REFERENCE_DIFFICULTY;

/// A roll makes a mine when it falls below `BASE_CHANCE_PERCENT * difficulty`,
/// which happens with chance `BASE_CHANCE_PERCENT% * difficulty / REFERENCE_DIFFICULTY`.
pub open spec fn mine_roll(roll: int, difficulty: int) -> bool {
    roll < BASE_CHANCE_PERCENT * difficulty
}

/// What a right click makes of a cell's state.
pub open spec fn toggled(s: State) -> State {
    match s {
        State::Hidden => State::Marked,
        State::Marked => State::Hidden,
        State::Revealed => State::Revealed,
    }
}

/// The cell a frame's clicks point at: the left click's if there is one.
pub open spec fn clicked(left: Option<(u32, u32)>, right: Option<(u32, u32)>) -> Option<(u32, u32)> {
    if left.is_some() { left } else { right }
}

/// Relies on rand's `thread_rng().gen_range(0..n)`: a value drawn from `0..n`.
#[verifier::external_body]
fn roll_below(n: u32) -> (r: u32)
    requires
        n > 0,
    ensures
        r < n,
{
    rand::thread_rng().gen_range(0..n)
}

/// A grid of `width` columns and `height` rows; `state[x][y]` and
/// `mines[x][y]` describe the cell at column `x`, row `y`.
pub struct Board {
    pub state: Vec<Vec<State>>,
    pub mines: Vec<Vec<bool>>,
    pub width: i32,
    pub height: i32,
    pub difficulty: i32,
}

/// Two cells touch, sideways or diagonally, or are the same cell.
pub open spec fn adjacent(a: (int, int), b: (int, int)) -> bool {
    -1 <= a.0 - b.0 <= 1 && -1 <= a.1 - b.1 <= 1
}

/// The cell that a stack entry stands for.
pub open spec fn pos(c: (i32, i32)) -> (int, int) {
    (c.0 as int, c.1 as int)
}

/// `c` is among the cells on the stack `s`.
pub open spec fn listed(s: Seq<(i32, i32)>, c: (int, int)) -> bool {
    exists|k: int| 0 <= k < s.len() && #[trigger] pos(s[k]) == c
}

proof fn lemma_listed_push(s: Seq<(i32, i32)>, e: (i32, i32))
    ensures
        listed(s.push(e), pos(e)),
        forall|c: (int, int)| #[trigger] listed(s, c) ==> listed(s.push(e), c),
{
    assert(pos(s.push(e)[s.len() as int]) == pos(e));
    assert forall|c: (int, int)| #[trigger] listed(s, c) implies listed(s.push(e), c) by {
        let k = choose|k: int| 0 <= k < s.len() && #[trigger] pos(s[k]) == c;
        assert(pos(s.push(e)[k]) == c);
    }
}

proof fn lemma_listed_pop(s: Seq<(i32, i32)>)
    requires
        s.len() > 0,
    ensures
        forall|c: (int, int)| #[trigger] listed(s, c) ==> listed(s.drop_last(), c) || c == pos(s.last()),
{
    assert forall|c: (int, int)| #[trigger] listed(s, c) implies listed(s.drop_last(), c) || c == pos(s.last()) by {
        let k = choose|k: int| 0 <= k < s.len() && #[trigger] pos(s[k]) == c;
        if k < s.len() - 1 {
            assert(pos(s.drop_last()[k]) == c);
        }
    }
}

impl Board {
    /// Number of columns.
    pub open spec fn width_spec(&self) -> int {
        self.width as int
    }

    /// Number of rows.
    pub open spec fn height_spec(&self) -> int {
        self.height as int
    }

    /// The difficulty the mines are laid at.
    pub open spec fn difficulty_spec(&self) -> int {
        self.difficulty as int
    }

    /// (x, y) is a cell of the board.
    pub open spec fn in_bounds(&self, x: int, y: int) -> bool {
        0 <= x < self.width_spec() && 0 <= y < self.height_spec()
    }

    /// The dimensions are positive and the difficulty lies in `1..=10`.
    pub open spec fn params_ok(&self) -> bool {
        &&& 0 < self.width
        &&& 0 < self.height
        &&& 1 <= self.difficulty <= 10
    }

    /// Width, height and difficulty agree.
    pub open spec fn same_size(&self, other: &Board) -> bool {
        &&& self.width == other.width
        &&& self.height == other.height
        &&& self.difficulty == other.difficulty
    }

    /// Every cell is hidden.
    pub open spec fn all_hidden(&self) -> bool {
        forall|x: int, y: int| #[trigger] self.in_bounds(x, y) ==> self.cell(x, y) == State::Hidden
    }

    /// Every cell without a mine is revealed.
    pub open spec fn won(&self) -> bool {
        forall|x: int, y: int| #![trigger self.cell(x, y)] self.in_bounds(x, y) && !self.is_mine(x, y)
            ==> self.cell(x, y) == State::Revealed
    }

    /// Cells that a left click on the mine-free cell (x, y) reveals: the
    /// cell itself and, where no mine is next to it, the flood from it.
    pub open spec fn uncovers(&self, x: int, y: int, c: (int, int)) -> bool {
        c == (x, y) || (self.nearby(x, y) == 0 && self.in_flood((x, y), c))
    }

    /// Both grids have `width` columns of `height` cells, and the
    /// difficulty lies in `1..=10`.
    pub open spec fn wf(&self) -> bool {
        &&& self.params_ok()
        &&& self.state@.len() == self.width_spec()
        &&& self.mines@.len() == self.width_spec()
        &&& forall|x: int| 0 <= x < self.width_spec() ==> #[trigger] self.state@[x]@.len() == self.height_spec()
        &&& forall|x: int| 0 <= x < self.width_spec() ==> #[trigger] self.mines@[x]@.len() == self.height_spec()
    }

    /// The state of the cell at (x, y).
    pub open spec fn cell(&self, x: int, y: int) -> State {
        self.state@[x]@[y]
    }

    /// Whether the cell at (x, y) holds a mine.
    pub open spec fn is_mine(&self, x: int, y: int) -> bool {
        self.mines@[x]@[y]
    }

    /// 1 where (x, y) lies on the board and holds a mine, else 0.
    pub open spec fn mine_at(&self, x: int, y: int) -> int {
        if self.in_bounds(x, y) && self.is_mine(x, y) { 1 } else { 0 }
    }

    /// Mines among the first `k` cells of column `x` in rows `y - 1 ..= y + 1`.
    pub open spec fn column_mines(&self, x: int, y: int, k: int) -> int
        decreases k,
    {
        if k <= 0 { 0 } else { self.column_mines(x, y, k - 1) + self.mine_at(x, y - 2 + k) }
    }

    /// Mines among the first `k` columns of the 3x3 block centred on (x, y).
    pub open spec fn block_mines(&self, x: int, y: int, k: int) -> int
        decreases k,
    {
        if k <= 0 { 0 } else { self.block_mines(x, y, k - 1) + self.column_mines(x - 2 + k, y, 3) }
    }

    /// Mines in the 3x3 block centred on (x, y), clipped to the board.
    pub open spec fn nearby(&self, x: int, y: int) -> int {
        self.block_mines(x, y, 3)
    }


    /// The mine layout and the fixed parameters of the two boards agree.
    pub open spec fn same_layout(&self, other: &Board) -> bool {
        &&& self.width == other.width
        &&& self.height == other.height
        &&& self.difficulty == other.difficulty
        &&& self.mines@ == other.mines@
    }

    /// Cells of the board that are not revealed.
    pub open spec fn unrevealed_count(&self) -> nat {
        unrevealed(self.state@)
    }

    /// A cell that a flood passes through: on the board, with no mine next
    /// to it, and not revealed yet.
    pub open spec fn opens(&self, c: (int, int)) -> bool {
        &&& self.in_bounds(c.0, c.1)
        &&& self.nearby(c.0, c.1) == 0
        &&& self.cell(c.0, c.1) != State::Revealed
    }

    /// `p` leads from `start` through neighbouring cells, each of which
    /// after the first opens.
    pub open spec fn flood_path(&self, start: (int, int), p: Seq<(int, int)>) -> bool {
        &&& p.len() >= 1
        &&& p[0] == start
        &&& forall|i: int| 0 < i < p.len() ==> adjacent(#[trigger] p[i - 1], p[i]) && self.opens(p[i])
    }

    /// Cells whose neighbours a flood from `start` reveals.
    pub open spec fn flooded(&self, start: (int, int), c: (int, int)) -> bool {
        exists|p: Seq<(int, int)>| #[trigger] self.flood_path(start, p) && p.last() == c
    }

    /// Cells that a flood from `start` reveals: the flooded cells and the
    /// cells next to them.
    pub open spec fn in_flood(&self, start: (int, int), c: (int, int)) -> bool {
        &&& self.in_bounds(c.0, c.1)
        &&& exists|e: (int, int)| #[trigger] self.flooded(start, e) && adjacent(e, c)
    }

    proof fn lemma_same_counts(&self, other: &Board)
        requires
            self.same_layout(other),
        ensures
            forall|x: int, y: int| #[trigger] self.nearby(x, y) == other.nearby(x, y),
    {
        assert forall|x: int, y: int| #[trigger] self.nearby(x, y) == other.nearby(x, y) by {
            reveal_with_fuel(Board::block_mines, 4);
            reveal_with_fuel(Board::column_mines, 4);
        }
    }

    /// 1 where (x, y) lies on the board, else 0.
    pub open spec fn on_board(&self, x: int, y: int) -> int {
        if self.in_bounds(x, y) { 1 } else { 0 }
    }

    /// Board cells among the first `k` cells of column `x` in rows `y - 1 ..= y + 1`.
    pub open spec fn column_cells(&self, x: int, y: int, k: int) -> int
        decreases k,
    {
        if k <= 0 { 0 } else { self.column_cells(x, y, k - 1) + self.on_board(x, y - 2 + k) }
    }

    /// Board cells among the first `k` columns of the 3x3 block centred on (x, y).
    pub open spec fn block_cells(&self, x: int, y: int, k: int) -> int
        decreases k,
    {
        if k <= 0 { 0 } else { self.block_cells(x, y, k - 1) + self.column_cells(x - 2 + k, y, 3) }
    }

    /// Board cells in the 3x3 block centred on (x, y), the centre included.
    pub open spec fn nearby_cells(&self, x: int, y: int) -> int {
        self.block_cells(x, y, 3)
    }

    /// The mine count of a cell counts board cells of its 3x3 block and
    /// nothing else: it lies between zero and the number of those cells, it
    /// is zero exactly when none of them holds a mine, and it equals their
    /// number exactly when all of them do.
    pub proof fn lemma_nearby_in_block(&self, x: int, y: int)
        requires
            self.wf(),
        ensures
            0 <= self.nearby(x, y) <= self.nearby_cells(x, y) <= 9,
            self.nearby(x, y) == 0 <==> forall|a: int, b: int| #![trigger self.is_mine(a, b)]
                adjacent((a, b), (x, y)) && self.in_bounds(a, b) ==> !self.is_mine(a, b),
            self.nearby(x, y) == self.nearby_cells(x, y) <==> forall|a: int, b: int| #![trigger self.is_mine(a, b)]
                adjacent((a, b), (x, y)) && self.in_bounds(a, b) ==> self.is_mine(a, b),
    {
        reveal_with_fuel(Board::block_mines, 4);
        reveal_with_fuel(Board::column_mines, 4);
        reveal_with_fuel(Board::block_cells, 4);
        reveal_with_fuel(Board::column_cells, 4);
        assert forall|a: int, b: int| adjacent((a, b), (x, y)) implies #[trigger] self.mine_at(a, b) <= self.on_board(a, b)
            && (a == x - 1 || a == x || a == x + 1) && (b == y - 1 || b == y || b == y + 1) by {}
    }

    /// Sets one cell's state, leaving everything else as it was.
    fn set_cell(&mut self, x: i32, y: i32, s: State)
        requires
            old(self).wf(),
            old(self).in_bounds(x as int, y as int),
        ensures
            final(self).wf(),
            final(self).same_layout(old(self)),
            final(self).same_size(old(self)),
            forall|a: int, b: int| #![trigger final(self).cell(a, b)] old(self).in_bounds(a, b) ==>
                final(self).cell(a, b) == if a == x && b == y { s } else { old(self).cell(a, b) },
            s == State::Revealed ==> final(self).unrevealed_count() + (if old(self).cell(x as int, y as int) != State::Revealed { 1int } else { 0int })
                == old(self).unrevealed_count(),
    {
        self.state[x as usize][y as usize] = s;
        proof {
            assert(self.state@ =~= old(self).state@.update(x as int, self.state@[x as int]));
            assert(self.state@[x as int]@ =~= old(self).state@[x as int]@.update(y as int, s));
            lemma_replace_column(old(self).state@, x as int, self.state@[x as int]);
            lemma_reveal_in_column(old(self).state@[x as int]@, y as int);
        }
    }

    /// Every cell of a flood path lies in a set that holds the start and, with
    /// each of its cells, every neighbour that opens.
    proof fn lemma_path_in(&self, start: (int, int), p: Seq<(int, int)>, done: Set<(int, int)>, k: int)
        requires
            self.flood_path(start, p),
            0 <= k < p.len(),
            done.contains(start),
            forall|c: (int, int), n: (int, int)| #![trigger done.contains(c), adjacent(c, n)]
                done.contains(c) && adjacent(c, n) && self.opens(n) ==> done.contains(n),
        ensures
            done.contains(p[k]),
        decreases k,
    {
        if k > 0 {
            self.lemma_path_in(start, p, done, k - 1);
            assert(adjacent(p[k - 1], p[k]) && self.opens(p[k]));
        }
    }

    /// Every revealed cell with no mine next to it has all its neighbours
    /// revealed, as play leaves a board.
    pub open spec fn settled(&self) -> bool {
        forall|c: (int, int), n: (int, int)| #![trigger self.cell(c.0, c.1), adjacent(c, n)]
            self.in_bounds(c.0, c.1) && self.cell(c.0, c.1) == State::Revealed && self.nearby(c.0, c.1) == 0
                && adjacent(c, n) && self.in_bounds(n.0, n.1) ==> self.cell(n.0, n.1) == State::Revealed
    }

    /// As `settled`, with the cell `s` left out: a click may reveal that cell
    /// just before it floods from it.
    pub open spec fn settled_except(&self, s: (int, int)) -> bool {
        forall|c: (int, int), n: (int, int)| #![trigger self.cell(c.0, c.1), adjacent(c, n)]
            c != s && self.in_bounds(c.0, c.1) && self.cell(c.0, c.1) == State::Revealed && self.nearby(c.0, c.1) == 0
                && adjacent(c, n) && self.in_bounds(n.0, n.1) ==> self.cell(n.0, n.1) == State::Revealed
    }

    /// `p` leads from `start` through neighbouring board cells, each of which
    /// after the first has no mine next to it, whatever its state.
    pub open spec fn zero_path(&self, start: (int, int), p: Seq<(int, int)>) -> bool {
        &&& p.len() >= 1
        &&& p[0] == start
        &&& forall|i: int| 0 < i < p.len() ==> adjacent(#[trigger] p[i - 1], p[i])
            && self.in_bounds(p[i].0, p[i].1) && self.nearby(p[i].0, p[i].1) == 0
    }

    /// Board cells next to the region of cells without neighbouring mines
    /// that is connected to `start`.
    pub open spec fn in_zero_region(&self, start: (int, int), c: (int, int)) -> bool {
        &&& self.in_bounds(c.0, c.1)
        &&& exists|p: Seq<(int, int)>| #[trigger] self.zero_path(start, p) && adjacent(p.last(), c)
    }

    /// A cell that opens next to a flooded cell is flooded.
    proof fn lemma_flood_extends(&self, start: (int, int), e: (int, int), n: (int, int))
        requires
            self.flooded(start, e),
            adjacent(e, n),
            self.opens(n),
        ensures
            self.flooded(start, n),
    {
        let p = choose|p: Seq<(int, int)>| #[trigger] self.flood_path(start, p) && p.last() == e;
        let q = p.push(n);
        assert forall|k: int| 0 < k < q.len() implies adjacent(#[trigger] q[k - 1], q[k]) && self.opens(q[k]) by {
            if k < p.len() {
                assert(q[k - 1] == p[k - 1] && q[k] == p[k]);
            }
        }
        assert(self.flood_path(start, q));
    }

    /// On a settled board each cell of a zero path is flooded or revealed.
    proof fn lemma_zero_path_covered(&self, start: (int, int), p: Seq<(int, int)>, k: int)
        requires
            self.wf(),
            self.settled_except(start),
            self.in_bounds(start.0, start.1),
            self.zero_path(start, p),
            0 <= k < p.len(),
        ensures
            self.flooded(start, p[k]) || self.cell(p[k].0, p[k].1) == State::Revealed,
            self.in_bounds(p[k].0, p[k].1),
        decreases k,
    {
        assert(self.flood_path(start, seq![start]));
        assert(self.flooded(start, start));
        if k > 0 {
            self.lemma_zero_path_covered(start, p, k - 1);
            assert(adjacent(p[k - 1], p[k]));
            if self.flooded(start, p[k - 1]) {
                if self.opens(p[k]) {
                    self.lemma_flood_extends(start, p[k - 1], p[k]);
                }
            } else if k - 1 > 0 {
                assert(adjacent(p[(k - 1) - 1], p[k - 1]));
            }
        }
    }

    /// Reveals (x_pos, y_pos) and floods outward from it: each cell reached
    /// through unrevealed cells with no mine next to them is revealed, with
    /// the cells around it, whether hidden or marked. No other cell changes.
    /// On a board settled everywhere but perhaps at the start cell, the flood
    /// covers the whole connected region of cells without neighbouring mines,
    /// with its border, and leaves the board settled.
    pub fn reveal_neighbors(&mut self, x_pos: i32, y_pos: i32)
        requires
            old(self).wf(),
            old(self).in_bounds(x_pos as int, y_pos as int),
        ensures
            final(self).wf(),
            final(self).same_layout(old(self)),
            final(self).same_size(old(self)),
            forall|x: int, y: int| #![trigger final(self).cell(x, y)] old(self).in_bounds(x, y) ==>
                final(self).cell(x, y) == if old(self).in_flood((x_pos as int, y_pos as int), (x, y)) {
                    State::Revealed
                } else {
                    old(self).cell(x, y)
                },
            old(self).settled_except((x_pos as int, y_pos as int)) ==> final(self).settled(),
            old(self).settled_except((x_pos as int, y_pos as int)) ==> forall|x: int, y: int| #![trigger final(self).cell(x, y)]
                old(self).in_zero_region((x_pos as int, y_pos as int), (x, y)) ==> final(self).cell(x, y) == State::Revealed,
    {
        let ghost b0: Board = *self;
        let ghost start: (int, int) = (x_pos as int, y_pos as int);
        proof {
            assert(b0.flood_path(start, seq![start]));
            assert(b0.flooded(start, start));
            assert(adjacent(start, start));
        }
        self.set_cell(x_pos, y_pos, State::Revealed);
        let mut todo: Vec<(i32, i32)> = Vec::new();
        todo.push((x_pos, y_pos));
        let ghost mut done: Set<(int, int)> = Set::empty();
        proof {
            lemma_listed_push(Seq::empty(), (x_pos, y_pos));
            assert(todo@ =~= Seq::<(i32, i32)>::empty().push((x_pos, y_pos)));
            self.lemma_same_counts(&b0);
        }
        while todo.len() > 0
            invariant
                b0.wf(),
                b0.in_bounds(start.0, start.1),
                self.wf(),
                self.same_layout(&b0),
                self.same_size(&b0),
                forall|x: int, y: int| #[trigger] self.nearby(x, y) == b0.nearby(x, y),
                forall|x: int, y: int| #![trigger self.cell(x, y)] b0.in_bounds(x, y) ==>
                    self.cell(x, y) == b0.cell(x, y) || (self.cell(x, y) == State::Revealed && b0.in_flood(start, (x, y))),
                forall|k: int| 0 <= k < todo@.len() ==>
                    b0.in_bounds(pos(#[trigger] todo@[k]).0, pos(todo@[k]).1) && b0.flooded(start, pos(todo@[k])),
                forall|c: (int, int), n: (int, int)| #![trigger done.contains(c), adjacent(c, n)]
                    done.contains(c) && adjacent(c, n) && b0.in_bounds(n.0, n.1) ==>
                        self.cell(n.0, n.1) == State::Revealed && (b0.opens(n) ==> done.contains(n) || listed(todo@, n)),
                forall|n: (int, int)| #![trigger b0.opens(n)]
                    b0.opens(n) && self.cell(n.0, n.1) == State::Revealed ==> done.contains(n) || listed(todo@, n),
                done.contains(start) || listed(todo@, start),
            decreases 2 * self.unrevealed_count() + todo@.len(),
        {
            let ghost before: int = (2 * self.unrevealed_count() + todo@.len()) as int;
            let ghost before_todo = todo@;
            proof {
                lemma_listed_pop(todo@);
            }
            let (cx, cy) = todo.pop().unwrap();
            let ghost d: (int, int) = (cx as int, cy as int);
            proof {
                assert(pos(before_todo.last()) == d);
                assert(todo@ =~= before_todo.drop_last());
            }
            let mut i: i32 = 0;
            while i < 3
                invariant
                    b0.wf(),
                    b0.in_bounds(start.0, start.1),
                    self.wf(),
                    self.same_layout(&b0),
                    self.same_size(&b0),
                    forall|x: int, y: int| #[trigger] self.nearby(x, y) == b0.nearby(x, y),
                    b0.in_bounds(d.0, d.1),
                    b0.flooded(start, d),
                    d == (cx as int, cy as int),
                    0 <= i <= 3,
                    2 * self.unrevealed_count() + todo@.len() < before,
                    forall|x: int, y: int| #![trigger self.cell(x, y)] b0.in_bounds(x, y) ==>
                        self.cell(x, y) == b0.cell(x, y) || (self.cell(x, y) == State::Revealed && b0.in_flood(start, (x, y))),
                    forall|k: int| 0 <= k < todo@.len() ==>
                        b0.in_bounds(pos(#[trigger] todo@[k]).0, pos(todo@[k]).1) && b0.flooded(start, pos(todo@[k])),
                    forall|c: (int, int), n: (int, int)| #![trigger done.contains(c), adjacent(c, n)]
                        done.contains(c) && adjacent(c, n) && b0.in_bounds(n.0, n.1) ==>
                            self.cell(n.0, n.1) == State::Revealed && (b0.opens(n) ==> done.contains(n) || listed(todo@, n) || n == d),
                    forall|n: (int, int)| #![trigger b0.opens(n)]
                        b0.opens(n) && self.cell(n.0, n.1) == State::Revealed ==> done.contains(n) || listed(todo@, n) || n == d,
                    done.contains(start) || listed(todo@, start) || start == d,
                    forall|n: (int, int)| #![trigger adjacent(d, n)]
                        adjacent(d, n) && b0.in_bounds(n.0, n.1) && n.0 < cx - 1 + i ==>
                            self.cell(n.0, n.1) == State::Revealed && (b0.opens(n) ==> done.contains(n) || listed(todo@, n) || n == d),
                decreases 3 - i,
            {
                let nx = cx - 1 + i;
                let mut j: i32 = 0;
                while j < 3
                    invariant
                        b0.wf(),
                        b0.in_bounds(start.0, start.1),
                        self.wf(),
                        self.same_layout(&b0),
                        self.same_size(&b0),
                        forall|x: int, y: int| #[trigger] self.nearby(x, y) == b0.nearby(x, y),
                        b0.in_bounds(d.0, d.1),
                        b0.flooded(start, d),
                        d == (cx as int, cy as int),
                        0 <= i < 3,
                        nx == cx - 1 + i,
                        0 <= j <= 3,
                        2 * self.unrevealed_count() + todo@.len() < before,
                        forall|x: int, y: int| #![trigger self.cell(x, y)] b0.in_bounds(x, y) ==>
                            self.cell(x, y) == b0.cell(x, y) || (self.cell(x, y) == State::Revealed && b0.in_flood(start, (x, y))),
                        forall|k: int| 0 <= k < todo@.len() ==>
                            b0.in_bounds(pos(#[trigger] todo@[k]).0, pos(todo@[k]).1) && b0.flooded(start, pos(todo@[k])),
                        forall|c: (int, int), n: (int, int)| #![trigger done.contains(c), adjacent(c, n)]
                            done.contains(c) && adjacent(c, n) && b0.in_bounds(n.0, n.1) ==>
                                self.cell(n.0, n.1) == State::Revealed && (b0.opens(n) ==> done.contains(n) || listed(todo@, n) || n == d),
                        forall|n: (int, int)| #![trigger b0.opens(n)]
                            b0.opens(n) && self.cell(n.0, n.1) == State::Revealed ==> done.contains(n) || listed(todo@, n) || n == d,
                        done.contains(start) || listed(todo@, start) || start == d,
                        forall|n: (int, int)| #![trigger adjacent(d, n)]
                            adjacent(d, n) && b0.in_bounds(n.0, n.1) && (n.0 < nx || (n.0 == nx && n.1 < cy - 1 + j)) ==>
                                self.cell(n.0, n.1) == State::Revealed && (b0.opens(n) ==> done.contains(n) || listed(todo@, n) || n == d),
                    decreases 3 - j,
                {
                    let ny = cy - 1 + j;
                    if 0 <= nx && nx < self.width && 0 <= ny && ny < self.height {
                        let ghost n: (int, int) = (nx as int, ny as int);
                        let ghost pre = *self;
                        let ghost pre_todo = todo@;
                        proof {
                            assert(adjacent(d, n));
                            assert(b0.in_flood(start, n));
                        }
                        if self.nearby_mines(nx, ny) == 0 && self.state[nx as usize][ny as usize] != State::Revealed {
                            self.set_cell(nx, ny, State::Revealed);
                            todo.push((nx, ny));
                            proof {
                                lemma_listed_push(pre_todo, (nx, ny));
                                assert(todo@ =~= pre_todo.push((nx, ny)));
                                let p = choose|p: Seq<(int, int)>| #[trigger] b0.flood_path(start, p) && p.last() == d;
                                let q = p.push(n);
                                assert forall|k: int| 0 < k < q.len() implies adjacent(#[trigger] q[k - 1], q[k]) && b0.opens(q[k]) by {
                                    if k < p.len() {
                                        assert(q[k - 1] == p[k - 1] && q[k] == p[k]);
                                    }
                                }
                                assert(b0.flood_path(start, q));
                                assert(pos(todo@[todo@.len() - 1]) == n);
                            }
                        } else {
                            self.set_cell(nx, ny, State::Revealed);
                        }
                    }
                    proof {
                        self.lemma_same_counts(&b0);
                    }
                    j = j + 1;
                }
                i = i + 1;
            }
            proof {
                done = done.insert(d);
            }
        }
        proof {
            assert forall|x: int, y: int| #![trigger self.cell(x, y)] b0.in_bounds(x, y) && b0.in_flood(start, (x, y))
                implies self.cell(x, y) == State::Revealed by {
                let e = choose|e: (int, int)| #[trigger] b0.flooded(start, e) && adjacent(e, (x, y));
                let p = choose|p: Seq<(int, int)>| #[trigger] b0.flood_path(start, p) && p.last() == e;
                b0.lemma_path_in(start, p, done, p.len() - 1);
            }
            self.lemma_same_counts(&b0);
            if b0.settled_except(start) {
                assert forall|x: int, y: int| #![trigger self.cell(x, y)] b0.in_zero_region(start, (x, y))
                    implies self.cell(x, y) == State::Revealed by {
                    let p = choose|p: Seq<(int, int)>| #[trigger] b0.zero_path(start, p) && adjacent(p.last(), (x, y));
                    b0.lemma_zero_path_covered(start, p, p.len() - 1);
                    let e = p.last();
                    if !b0.flooded(start, e) {
                        if p.len() > 1 {
                            assert(adjacent(p[(p.len() - 1) - 1], p[p.len() - 1]));
                        } else {
                            assert(b0.flood_path(start, seq![start]));
                        }
                        assert(b0.cell(e.0, e.1) == State::Revealed && b0.nearby(e.0, e.1) == 0);
                    }
                }
                assert forall|c: (int, int), n: (int, int)| #![trigger self.cell(c.0, c.1), adjacent(c, n)]
                    self.in_bounds(c.0, c.1) && self.cell(c.0, c.1) == State::Revealed && self.nearby(c.0, c.1) == 0
                        && adjacent(c, n) && self.in_bounds(n.0, n.1) implies self.cell(n.0, n.1) == State::Revealed by {
                    if c == start {
                        assert(b0.in_flood(start, n));
                    } else if b0.cell(c.0, c.1) != State::Revealed {
                        assert(b0.in_flood(start, c));
                        let e = choose|e: (int, int)| #[trigger] b0.flooded(start, e) && adjacent(e, c);
                        b0.lemma_flood_extends(start, e, c);
                        assert(b0.in_flood(start, n));
                    } else {
                        assert(b0.cell(n.0, n.1) == State::Revealed);
                    }
                }
            }
        }
    }

    /// True when every cell without a mine is revealed; a marked cell does
    /// not count as revealed.
    pub fn win_condition(&self) -> (r: bool)
        requires
            self.wf(),
        ensures
            r == self.won(),
    {
        let mut x: i32 = 0;
        while x < self.width
            invariant
                self.wf(),
                0 <= x <= self.width,
                forall|a: int, b: int| #![trigger self.cell(a, b)] 0 <= a < x && self.in_bounds(a, b) && !self.is_mine(a, b)
                    ==> self.cell(a, b) == State::Revealed,
            decreases self.width - x,
        {
            let mut y: i32 = 0;
            while y < self.height
                invariant
                    self.wf(),
                    0 <= x < self.width,
                    0 <= y <= self.height,
                    forall|a: int, b: int| #![trigger self.cell(a, b)]
                        (0 <= a < x || (a == x && b < y)) && self.in_bounds(a, b) && !self.is_mine(a, b)
                        ==> self.cell(a, b) == State::Revealed,
                decreases self.height - y,
            {
                if !self.mines[x as usize][y as usize] && self.state[x as usize][y as usize] != State::Revealed {
                    assert(self.in_bounds(x as int, y as int) && self.cell(x as int, y as int) != State::Revealed);
                    return false;
                }
                y = y + 1;
            }
            x = x + 1;
        }
        true
    }

    /// What the cell at (x, y) shows: nothing while hidden, a flag while
    /// marked, and once revealed either a mine or the count of mines around it.
    pub fn glyph(&self, x: i32, y: i32) -> (g: Glyph)
        requires
            self.wf(),
            self.in_bounds(x as int, y as int),
        ensures
            g == match self.cell(x as int, y as int) {
                State::Hidden => Glyph::Blank,
                State::Marked => Glyph::Flag,
                State::Revealed => if self.is_mine(x as int, y as int) {
                    Glyph::Mine
                } else {
                    Glyph::Count(self.nearby(x as int, y as int) as i32)
                },
            },
    {
        match self.state[x as usize][y as usize] {
            State::Hidden => Glyph::Blank,
            State::Marked => Glyph::Flag,
            State::Revealed => {
                if self.mines[x as usize][y as usize] {
                    Glyph::Mine
                } else {
                    Glyph::Count(self.nearby_mines(x, y))
                }
            },
        }
    }

    /// Hides every cell and lays the mines anew from `rolls`: the cell at
    /// (x, y) holds a mine exactly when `rolls[x][y]` is a mine roll for the
    /// board's difficulty.
    pub fn reset_with(&mut self, rolls: &Vec<Vec<u32>>)
        requires
            old(self).params_ok(),
            rolls@.len() == old(self).width_spec(),
            forall|x: int| 0 <= x < rolls@.len() ==> #[trigger] rolls@[x]@.len() == old(self).height_spec(),
        ensures
            final(self).wf(),
            final(self).same_size(old(self)),
            final(self).all_hidden(),
            final(self).settled(),
            forall|x: int, y: int| #![trigger final(self).is_mine(x, y)] final(self).in_bounds(x, y) ==>
                final(self).is_mine(x, y) == mine_roll(rolls@[x]@[y] as int, final(self).difficulty_spec()),
    {
        let threshold: u32 = BASE_CHANCE_PERCENT * (self.difficulty as u32);
        let mut state: Vec<Vec<State>> = Vec::new();
        let mut mines: Vec<Vec<bool>> = Vec::new();
        let mut x: i32 = 0;
        while x < self.width
            invariant
                self.params_ok(),
                rolls@.len() == self.width_spec(),
                forall|a: int| 0 <= a < rolls@.len() ==> #[trigger] rolls@[a]@.len() == self.height_spec(),
                threshold == BASE_CHANCE_PERCENT * self.difficulty_spec(),
                0 <= x <= self.width,
                state@.len() == x,
                mines@.len() == x,
                forall|a: int| 0 <= a < x ==> #[trigger] state@[a]@.len() == self.height_spec(),
                forall|a: int| 0 <= a < x ==> #[trigger] mines@[a]@.len() == self.height_spec(),
                forall|a: int, b: int| 0 <= a < x && 0 <= b < self.height_spec() ==> #[trigger] state@[a]@[b] == State::Hidden,
                forall|a: int, b: int| 0 <= a < x && 0 <= b < self.height_spec() ==>
                    #[trigger] mines@[a]@[b] == mine_roll(rolls@[a]@[b] as int, self.difficulty_spec()),
            decreases self.width - x,
        {
            let mut col_state: Vec<State> = Vec::new();
            let mut col_mines: Vec<bool> = Vec::new();
            let mut y: i32 = 0;
            while y < self.height
                invariant
                    self.params_ok(),
                    rolls@.len() == self.width_spec(),
                    forall|a: int| 0 <= a < rolls@.len() ==> #[trigger] rolls@[a]@.len() == self.height_spec(),
                    threshold == BASE_CHANCE_PERCENT * self.difficulty_spec(),
                    0 <= x < self.width,
                    0 <= y <= self.height,
                    col_state@.len() == y,
                    col_mines@.len() == y,
                    forall|b: int| 0 <= b < y ==> #[trigger] col_state@[b] == State::Hidden,
                    forall|b: int| 0 <= b < y ==>
                        #[trigger] col_mines@[b] == mine_roll(rolls@[x as int]@[b] as int, self.difficulty_spec()),
                decreases self.height - y,
            {
                col_state.push(State::Hidden);
                col_mines.push(rolls[x as usize][y as usize] < threshold);
                y = y + 1;
            }
            state.push(col_state);
            mines.push(col_mines);
            x = x + 1;
        }
        self.state = state;
        self.mines = mines;
    }

    /// Hides every cell and lays the mines anew, each cell holding one with
    /// chance `BASE_CHANCE_PERCENT% * difficulty / REFERENCE_DIFFICULTY`,
    /// independently of the others and of the last layout.
    pub fn reset(&mut self)
        requires
            old(self).params_ok(),
        ensures
            final(self).wf(),
            final(self).same_size(old(self)),
            final(self).all_hidden(),
            final(self).settled(),
    {
        let mut rolls: Vec<Vec<u32>> = Vec::new();
        let mut x: i32 = 0;
        while x < self.width
            invariant
                self.params_ok(),
                0 <= x <= self.width,
                rolls@.len() == x,
                forall|a: int| 0 <= a < x ==> #[trigger] rolls@[a]@.len() == self.height_spec(),
            decreases self.width - x,
        {
            let mut col: Vec<u32> = Vec::new();
            let mut y: i32 = 0;
            while y < self.height
                invariant
                    0 <= y <= self.height,
                    col@.len() == y,
                decreases self.height - y,
            {
                col.push(roll_below(ROLL_SPAN));
                y = y + 1;
            }
            rolls.push(col);
            x = x + 1;
        }
        self.reset_with(&rolls);
    }

    /// A `w` by `h` board of hidden cells at difficulty `d`, with freshly
    /// laid mines.
    pub fn init(w: i32, h: i32, d: i32) -> (b: Board)
        requires
            0 < w,
            0 < h,
            1 <= d <= 10,
        ensures
            b.wf(),
            b.width_spec() == w,
            b.height_spec() == h,
            b.difficulty_spec() == d,
            b.all_hidden(),
            b.settled(),
    {
        let mut b = Board { state: Vec::new(), mines: Vec::new(), width: w, height: h, difficulty: d };
        b.reset();
        b
    }

    /// One frame of play. Quit comes first, then restart (which resets the
    /// board and takes no click). Otherwise the left click, or else the right
    /// one, acts on its cell if that lies on the board: a left click on a
    /// mine ends the round lost; on any other cell, marked or not, it reveals
    /// the cell, floods from it when no mine is next to it, and ends the round
    /// won when every cell without a mine is revealed. A right click toggles
    /// hidden and marked and leaves a revealed cell alone.
    pub fn input(&mut self, quit: bool, restart: bool, left: Option<(u32, u32)>, right: Option<(u32, u32)>) -> (r: Phase)
        requires
            old(self).wf(),
        ensures
            final(self).wf(),
            final(self).same_size(old(self)),
            quit ==> r == Phase::Quit && *final(self) == *old(self),
            !quit && restart ==> r == Phase::Playing && final(self).all_hidden(),
            old(self).settled() ==> final(self).settled(),
            !quit && !restart ==> final(self).same_layout(old(self)),
            !quit && !restart ==> match clicked(left, right) {
                None => r == Phase::Playing && *final(self) == *old(self),
                Some((cx, cy)) => {
                    let (x, y) = (cx as int, cy as int);
                    if !old(self).in_bounds(x, y) {
                        r == Phase::Playing && *final(self) == *old(self)
                    } else if left.is_some() {
                        if old(self).is_mine(x, y) {
                            r == Phase::RoundOver { won: false } && *final(self) == *old(self)
                        } else {
                            &&& forall|a: int, b: int| #![trigger final(self).cell(a, b)] old(self).in_bounds(a, b) ==>
                                final(self).cell(a, b) == if old(self).uncovers(x, y, (a, b)) {
                                    State::Revealed
                                } else {
                                    old(self).cell(a, b)
                                }
                            &&& r == if final(self).won() { Phase::RoundOver { won: true } } else { Phase::Playing }
                            &&& old(self).settled_except((x, y)) && old(self).nearby(x, y) == 0 ==> forall|a: int, b: int| #![trigger final(self).cell(a, b)]
                                old(self).in_zero_region((x, y), (a, b)) ==> final(self).cell(a, b) == State::Revealed
                        }
                    } else {
                        &&& r == Phase::Playing
                        &&& forall|a: int, b: int| #![trigger final(self).cell(a, b)] old(self).in_bounds(a, b) ==>
                            final(self).cell(a, b) == if a == x && b == y {
                                toggled(old(self).cell(a, b))
                            } else {
                                old(self).cell(a, b)
                            }
                    }
                },
            },
    {
        if quit {
            return Phase::Quit;
        }
        if restart {
            self.reset();
            return Phase::Playing;
        }
        let pos = if left.is_some() { left } else { right };
        let (cx, cy) = match pos {
            Some(p) => p,
            None => {
                return Phase::Playing;
            },
        };
        if cx >= self.width as u32 || cy >= self.height as u32 {
            return Phase::Playing;
        }
        let x = cx as i32;
        let y = cy as i32;
        if left.is_some() {
            if self.mines[x as usize][y as usize] {
                return Phase::RoundOver { won: false };
            }
            if self.nearby_mines(x, y) == 0 {
                proof {
                    let start = (x as int, y as int);
                    assert(self.flood_path(start, seq![start]));
                    assert(self.flooded(start, start));
                    assert(adjacent(start, start));
                    assert(self.in_flood(start, start));
                }
                self.reveal_neighbors(x, y);
            } else {
                self.set_cell(x, y, State::Revealed);
                proof {
                    self.lemma_same_counts(old(self));
                    let start = (x as int, y as int);
                    assert(old(self).flood_path(start, seq![start]));
                    assert(old(self).flooded(start, start));
                }
            }
            if self.win_condition() {
                Phase::RoundOver { won: true }
            } else {
                Phase::Playing
            }
        } else {
            match self.state[x as usize][y as usize] {
                State::Hidden => self.set_cell(x, y, State::Marked),
                State::Marked => self.set_cell(x, y, State::Hidden),
                State::Revealed => {},
            }
            proof {
                self.lemma_same_counts(old(self));
            }
            Phase::Playing
        }
    }

    /// One frame of the end-of-round overlay: quit ends the game, restart
    /// resets the board and resumes play, and nothing else is taken.
    pub fn end(&mut self, won: bool, quit: bool, restart: bool) -> (r: Phase)
        requires
            old(self).wf(),
        ensures
            final(self).wf(),
            final(self).same_size(old(self)),
            quit ==> r == Phase::Quit && *final(self) == *old(self),
            !quit && restart ==> r == Phase::Playing && final(self).all_hidden(),
            !quit && !restart ==> r == (Phase::RoundOver { won }) && *final(self) == *old(self),
            old(self).settled() ==> final(self).settled(),
    {
        if quit {
            Phase::Quit
        } else if restart {
            self.reset();
            Phase::Playing
        } else {
            Phase::RoundOver { won }
        }
    }

    pub fn width(&self) -> (r: i32)
        ensures r == self.width_spec(),
    {
        self.width
    }

    pub fn height(&self) -> (r: i32)
        ensures r == self.height_spec(),
    {
        self.height
    }

    pub fn difficulty(&self) -> (r: i32)
        ensures r == self.difficulty_spec(),
    {
        self.difficulty
    }

    /// Counts the mines in the 3x3 block centred on (x_pos, y_pos); cells off
    /// the board are left out.
    pub fn nearby_mines(&self, x_pos: i32, y_pos: i32) -> (r: i32)
        requires
            self.wf(),
            self.in_bounds(x_pos as int, y_pos as int),
        ensures
            r == self.nearby(x_pos as int, y_pos as int),
    {
        let mut mines: i32 = 0;
        let mut i: i32 = 0;
        while i < 3
            invariant
                self.wf(),
                self.in_bounds(x_pos as int, y_pos as int),
                0 <= i <= 3,
                mines == self.block_mines(x_pos as int, y_pos as int, i as int),
                0 <= mines <= 3 * i,
            decreases 3 - i,
        {
            let x = x_pos - 1 + i;
            let mut j: i32 = 0;
            while j < 3
                invariant
                    self.wf(),
                    self.in_bounds(x_pos as int, y_pos as int),
                    0 <= i < 3,
                    0 <= j <= 3,
                    x == x_pos - 1 + i,
                    mines == self.block_mines(x_pos as int, y_pos as int, i as int)
                        + self.column_mines(x as int, y_pos as int, j as int),
                    0 <= mines <= 3 * i + j,
                decreases 3 - j,
            {
                let y = y_pos - 1 + j;
                if 0 <= x && x < self.width && 0 <= y && y < self.height && self.mines[x as usize][y as usize] {
                    mines = mines + 1;
                }
                j = j + 1;
            }
            i = i + 1;
        }
        mines
    }
}

} // verus!
