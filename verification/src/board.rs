//! The board: a square grid of cells in one row-major vector.

use vstd::prelude::*;
use crate::square::Square;
use crate::grid::Grid;
use crate::rules::{is_dir, step};

verus! {

/// A position on or off the board: row, then column, counted from zero.
pub type Pos = (isize, isize);

/// The position `p` as a pair of mathematical integers.
pub open spec fn cell(p: Pos) -> (int, int) {
    (p.0 as int, p.1 as int)
}

/// The positions `ps` as pairs of mathematical integers.
pub open spec fn cells(ps: Seq<Pos>) -> Seq<(int, int)> {
    ps.map_values(|p: Pos| cell(p))
}

/// The sizes a board can have: positive, even, and small enough for the
/// cells to be held in one vector.
pub open spec fn valid_size(size: int) -> bool {
    &&& 0 < size
    &&& size % 2 == 0
    &&& size * size <= isize::MAX
}

/// The cell `(y, x)` of a board of size `n` stands at index `n * y + x`,
/// which lies within the `n * n` cells.
proof fn lemma_index_bound(n: int, y: int, x: int)
    requires
        0 <= y < n,
        0 <= x < n,
    ensures
        0 <= n * y + x < n * n,
{
    assert(0 <= n * y && n * y + n <= n * n) by (nonlinear_arith)
        requires
            0 <= y < n,
    ;
}

/// No two cells of a board of size `n` share an index.
proof fn lemma_index_unique(n: int, y: int, x: int, y2: int, x2: int)
    requires
        0 <= y < n,
        0 <= x < n,
        0 <= y2 < n,
        0 <= x2 < n,
        n * y2 + x2 == n * y + x,
    ensures
        y2 == y,
        x2 == x,
{
    assert(y2 == y) by (nonlinear_arith)
        requires
            0 <= y2 < n,
            0 <= x2 < n,
            0 <= y < n,
            0 <= x < n,
            n * y2 + x2 == n * y + x,
    ;
}

/// The disks taken in the direction that stands at place `i` when the
/// directions are counted row by row from the upper left, the centre included
/// as place 4.
spec fn nth_ray(g: Grid, p: (int, int), s: Square, i: int) -> Seq<(int, int)> {
    if i == 4 {
        Seq::empty()
    } else {
        g.ray(p, (i / 3 - 1, i % 3 - 1), s)
    }
}

/// The disks taken in the first `i` directions.
spec fn swept(g: Grid, p: (int, int), s: Square, i: int) -> Seq<(int, int)>
    decreases i,
{
    if i <= 0 {
        Seq::empty()
    } else {
        swept(g, p, s, i - 1) + nth_ray(g, p, s, i - 1)
    }
}

/// All nine places swept, every capture is found.
proof fn lemma_swept_all(g: Grid, p: (int, int), s: Square)
    ensures
        swept(g, p, s, 9) == g.captures(p, s),
{
    reveal_with_fuel(swept, 10);
    assert(swept(g, p, s, 9) =~= g.captures(p, s));
}

/// A cell is among the first `i + 1` of `c` iff it is among the first `i` or
/// is the one at place `i`.
proof fn lemma_take_contains(c: Seq<(int, int)>, i: int, q: (int, int))
    requires
        0 <= i < c.len(),
    ensures
        c.take(i + 1).contains(q) <==> c.take(i).contains(q) || c[i] == q,
{
    let more = c.take(i + 1);
    let less = c.take(i);
    if more.contains(q) {
        let j = choose|j: int| 0 <= j < more.len() && more[j] == q;
        if j < i {
            assert(less[j] == q);
        }
    }
    if less.contains(q) {
        let j = choose|j: int| 0 <= j < less.len() && less[j] == q;
        assert(more[j] == q);
    }
    if c[i] == q {
        assert(more[i] == q);
    }
}

/// A list of positions is known by the cells it stands for: the captures of
/// a move on a given grid can be returned as one vector only, so asking twice
/// gives the same answer.
pub proof fn lemma_same_captures(g: Grid, p: (int, int), s: Square, first: Seq<Pos>, second: Seq<Pos>)
    requires
        cells(first) == g.captures(p, s),
        cells(second) == g.captures(p, s),
    ensures
        first == second,
{
    assert(first.len() == cells(first).len());
    assert(second.len() == cells(second).len());
    assert forall|i: int| 0 <= i < first.len() implies first[i] == second[i] by {
        assert(cell(first[i]) == cells(first)[i]);
        assert(cell(second[i]) == cells(second)[i]);
    }
    assert(first =~= second);
}

/// A board of `size` rows and `size` columns; the cell at `(y, x)` is held at
/// index `size * y + x`.
pub struct Board {
    board: Vec<Square>,
    size: isize,
}

impl View for Board {
    type V = Grid;

    closed spec fn view(&self) -> Grid {
        let n = self.size as int;
        Grid {
            rows: Seq::new(
                if n >= 0 { n as nat } else { 0 },
                |y: int| Seq::new(if n >= 0 { n as nat } else { 0 }, |x: int| self.board@[n * y + x]),
            ),
        }
    }
}

impl Board {
    /// What every board keeps: a valid size, and one cell for each position.
    pub closed spec fn wf(&self) -> bool {
        &&& valid_size(self.size as int)
        &&& self.board@.len() == self.size * self.size
    }

    /// The grid of a board is square, and of a valid size.
    pub proof fn lemma_view_wf(self)
        requires
            self.wf(),
        ensures
            self@.wf(),
            valid_size(self@.dim()),
    {
    }

    /// A board of `size` rows and columns in the starting position.
    pub fn new(size: usize) -> (b: Board)
        requires
            valid_size(size as int),
        ensures
            b.wf(),
            b@ == Grid::start(size as int),
    {
        proof {
            assert(size <= size * size) by (nonlinear_arith)
                requires
                    0 < size,
            ;
        }
        let mut board = Board { board: vec![Square::Empty; size * size], size: size as isize };
        board.init();
        board
    }

    /// A board of `size` rows and columns in the starting position, or `None`
    /// where `size` is not a valid size.
    pub fn create(size: usize) -> (r: Option<Board>)
        ensures
            r.is_some() <==> valid_size(size as int),
            r matches Some(b) ==> b.wf() && b@ == Grid::start(size as int),
    {
        if size == 0 || size % 2 != 0 {
            return None;
        }
        match size.checked_mul(size) {
            Some(n) => {
                if n <= isize::MAX as usize {
                    Some(Board::new(size))
                } else {
                    None
                }
            },
            None => None,
        }
    }

    /// Puts the board back into the starting position.
    pub fn init(&mut self)
        requires
            old(self).wf(),
        ensures
            final(self).wf(),
            final(self)@ == Grid::start(old(self)@.dim()),
    {
        let n = self.size;
        for y in 0..n
            invariant
                self.wf(),
                self@.dim() == n,
                forall|y2: int, x2: int|
                    0 <= y2 < y && 0 <= x2 < n ==> #[trigger] self@.rows[y2][x2]
                        == Grid::start_square(n as int, (y2, x2)),
        {
            for x in 0..n
                invariant
                    self.wf(),
                    self@.dim() == n,
                    0 <= y < n,
                    forall|y2: int, x2: int|
                        0 <= y2 < y && 0 <= x2 < n ==> #[trigger] self@.rows[y2][x2]
                            == Grid::start_square(n as int, (y2, x2)),
                    forall|x2: int|
                        0 <= x2 < x ==> #[trigger] self@.rows[y as int][x2] == Grid::start_square(
                            n as int,
                            (y as int, x2),
                        ),
            {
                let dy = y - n / 2 + 1;
                let dx = x - n / 2 + 1;
                let s = if (dy == 0 && dx == 0) || (dy == 1 && dx == 1) {
                    Square::Black
                } else if (dy == 0 && dx == 1) || (dy == 1 && dx == 0) {
                    Square::White
                } else {
                    Square::Empty
                };
                self.put_at(&(y, x), s);
            }
        }
        assert(self@.rows =~~= Grid::start(n as int).rows);
    }

    /// The number of rows, which is the number of columns.
    pub fn size(&self) -> (n: usize)
        requires
            self.wf(),
        ensures
            n == self@.dim(),
            0 < n <= isize::MAX,
    {
        self.size as usize
    }

    /// True iff `pos` names a cell of the board.
    pub fn is_on_board(&self, pos: &Pos) -> (r: bool)
        requires
            self.wf(),
        ensures
            r == self@.on_board(cell(*pos)),
    {
        let (y, x) = *pos;
        0 <= y && y < self.size && 0 <= x && x < self.size
    }

    /// The occupant of the cell at `pos`.
    pub fn get_at(&self, pos: &Pos) -> (s: Square)
        requires
            self.wf(),
            self@.on_board(cell(*pos)),
        ensures
            s == self@.at(cell(*pos)),
    {
        proof {
            lemma_index_bound(self.size as int, pos.0 as int, pos.1 as int);
        }
        let (y, x) = *pos;
        self.board[(self.size * y + x) as usize]
    }

    /// The occupant of the cell at `pos`, or `None` where `pos` is off the
    /// board.
    pub fn safe_get_at(&self, pos: &Pos) -> (r: Option<Square>)
        requires
            self.wf(),
        ensures
            r == self@.look(cell(*pos)),
    {
        if self.is_on_board(pos) {
            Some(self.get_at(pos))
        } else {
            None
        }
    }

    /// Overwrites the occupant of the cell at `pos` with `s`.
    pub fn put_at(&mut self, pos: &Pos, s: Square)
        requires
            old(self).wf(),
            old(self)@.on_board(cell(*pos)),
        ensures
            final(self).wf(),
            final(self)@ == old(self)@.put(cell(*pos), s),
    {
        let (y, x) = *pos;
        proof {
            lemma_index_bound(self.size as int, y as int, x as int);
        }
        self.board.set((self.size * y + x) as usize, s);
        proof {
            let n = self.size as int;
            let after = old(self)@.put(cell(*pos), s);
            assert forall|y2: int, x2: int| 0 <= y2 < n && 0 <= x2 < n implies #[trigger] self@.rows[y2][x2]
                == after.rows[y2][x2] by {
                lemma_index_bound(n, y2, x2);
                if n * y2 + x2 == n * y + x {
                    lemma_index_unique(n, y as int, x as int, y2, x2);
                }
            }
            assert(self@.rows =~~= after.rows);
        }
    }

    /// The disks that a disk of `s` placed at `pos` takes in direction `dir`,
    /// nearest first, or `None` where it takes none there.
    pub fn flippable_poses_for(&self, pos: &Pos, dir: &Pos, s: Square) -> (r: Option<Vec<Pos>>)
        requires
            self.wf(),
            self@.on_board(cell(*pos)),
            is_dir(cell(*dir)),
        ensures
            r.is_some() <==> self@.ray(cell(*pos), cell(*dir), s).len() > 0,
            r matches Some(poses) ==> cells(poses@) == self@.ray(cell(*pos), cell(*dir), s),
    {
        let (y, x) = *pos;
        let (dy, dx) = *dir;
        let ghost g = self@;
        let ghost p = cell(*pos);
        let ghost d = cell(*dir);
        let mut y_next = y + dy;
        let mut x_next = x + dx;
        let mut poses: Vec<Pos> = Vec::new();
        proof {
            self.lemma_view_wf();
            assert(step(p, d, 1) == (y + dy, x + dx));
        }
        loop
            invariant
                self.wf(),
                g == self@,
                p == cell(*pos),
                d == cell(*dir),
                d == (dy as int, dx as int),
                is_dir(d),
                g.on_board(p),
                (y_next as int, x_next as int) == step(p, d, poses@.len() as int + 1),
                forall|k: int| 1 <= k <= poses@.len() ==> g.opposing_at(#[trigger] step(p, d, k), s),
                forall|i: int| 0 <= i < poses@.len() ==> cell(#[trigger] poses@[i]) == step(p, d, i + 1),
            decreases
                    if dy > 0 {
                        g.dim() - y_next
                    } else if dy < 0 {
                        y_next + 1
                    } else if dx > 0 {
                        g.dim() - x_next
                    } else {
                        x_next + 1
                    },
        {
            let ghost m = poses@.len() as int;
            match self.safe_get_at(&(y_next, x_next)) {
                None => {
                    proof {
                        g.lemma_not_flanked(p, d, s, m);
                    }
                    return None;
                },
                Some(s_next) => {
                    if s_next == Square::Empty {
                        proof {
                            g.lemma_not_flanked(p, d, s, m);
                        }
                        return None;
                    } else if s_next == s {
                        if poses.len() == 0 {
                            proof {
                                g.lemma_not_flanked(p, d, s, m);
                            }
                            return None;
                        } else {
                            proof {
                                g.lemma_flanked(p, d, s, m);
                                assert(cells(poses@) =~= g.ray(p, d, s));
                            }
                            return Some(poses);
                        }
                    }
                    poses.push((y_next, x_next));
                    y_next += dy;
                    x_next += dx;
                    proof {
                        assert((m + 2) * d.0 == (m + 1) * d.0 + d.0) by (nonlinear_arith);
                        assert((m + 2) * d.1 == (m + 1) * d.1 + d.1) by (nonlinear_arith);
                    }
                },
            }
        }
    }

    /// The disks that a disk of `s` placed at `pos` takes, whatever the cell
    /// at `pos` holds now.
    pub fn flippable_poses(&self, pos: &Pos, s: Square) -> (ret: Vec<Pos>)
        requires
            self.wf(),
            self@.on_board(cell(*pos)),
        ensures
            cells(ret@) == self@.captures(cell(*pos), s),
    {
        let mut ret: Vec<Pos> = Vec::new();
        let ghost g = self@;
        let ghost p = cell(*pos);
        assert(cells(ret@) =~= swept(g, p, s, 0));
        for dy in -1isize..2
            invariant
                self.wf(),
                g == self@,
                p == cell(*pos),
                g.on_board(p),
                cells(ret@) == swept(g, p, s, 3 * (dy + 1)),
        {
            for dx in -1isize..2
                invariant
                    self.wf(),
                    g == self@,
                    p == cell(*pos),
                    g.on_board(p),
                    -1 <= dy < 2,
                    cells(ret@) == swept(g, p, s, 3 * (dy + 1) + (dx + 1)),
            {
                let ghost i = 3 * (dy + 1) + (dx + 1);
                let ghost before = ret@;
                if !(dy == 0 && dx == 0) {
                    if let Some(mut poses) = self.flippable_poses_for(pos, &(dy, dx), s) {
                        let ghost found = poses@;
                        ret.append(&mut poses);
                        assert(cells(ret@) =~= cells(before) + cells(found));
                    } else {
                        assert(g.ray(p, (dy as int, dx as int), s) =~= Seq::empty());
                    }
                }
                assert(cells(ret@) =~= swept(g, p, s, i) + nth_ray(g, p, s, i));
            }
        }
        proof {
            lemma_swept_all(g, p, s);
        }
        ret
    }

    /// Gives every cell listed in `poses` to `s`.
    pub fn flip(&mut self, s: Square, poses: &[Pos])
        requires
            old(self).wf(),
            forall|i: int| 0 <= i < poses@.len() ==> old(self)@.on_board(cell(#[trigger] poses@[i])),
        ensures
            final(self).wf(),
            final(self)@ == old(self)@.put_all(cells(poses@), s),
    {
        let ghost g = self@;
        let ghost c = cells(poses@);
        proof {
            self.lemma_view_wf();
            assert(self@.rows =~~= g.put_all(c.take(0), s).rows);
        }
        for i in 0..poses.len()
            invariant
                self.wf(),
                g == old(self)@,
                g.wf(),
                c == cells(poses@),
                forall|i: int| 0 <= i < poses@.len() ==> g.on_board(cell(#[trigger] poses@[i])),
                self@ == g.put_all(c.take(i as int), s),
        {
            self.put_at(&poses[i], s);
            proof {
                let after = g.put_all(c.take(i + 1), s);
                assert forall|y: int, x: int| 0 <= y < g.dim() && 0 <= x < g.dim() implies (
                #[trigger] self@.rows[y][x]) == after.rows[y][x] by {
                    lemma_take_contains(c, i as int, (y, x));
                }
                assert(self@.rows =~~= after.rows);
            }
        }
        assert(c.take(poses@.len() as int) =~= c);
    }

    /// Places a disk of `s` at `pos` and gives it the disks at `poses`.
    pub fn apply_move(&mut self, pos: &Pos, s: Square, poses: &[Pos])
        requires
            old(self).wf(),
            old(self)@.on_board(cell(*pos)),
            forall|i: int| 0 <= i < poses@.len() ==> old(self)@.on_board(cell(#[trigger] poses@[i])),
        ensures
            final(self).wf(),
            final(self)@ == old(self)@.apply_move(cell(*pos), s, cells(poses@)),
    {
        self.put_at(pos, s);
        self.flip(s, poses);
    }

    /// True iff `s` has a move somewhere on the board.
    pub fn has_available_pos(&self, s: Square) -> (r: bool)
        requires
            self.wf(),
        ensures
            r == self@.has_move(s),
    {
        let n = self.size;
        for y in 0..n
            invariant
                self.wf(),
                n == self@.dim(),
                forall|y2: int, x2: int| 0 <= y2 < y && 0 <= x2 < n ==> !#[trigger] self@.is_move((y2, x2), s),
        {
            for x in 0..n
                invariant
                    self.wf(),
                    n == self@.dim(),
                    0 <= y < n,
                    forall|y2: int, x2: int|
                        0 <= y2 < y && 0 <= x2 < n ==> !#[trigger] self@.is_move((y2, x2), s),
                    forall|x2: int| 0 <= x2 < x ==> !#[trigger] self@.is_move((y as int, x2), s),
            {
                if self.get_at(&(y, x)) == Square::Empty && !self.flippable_poses(&(y, x), s).is_empty() {
                    assert(self@.is_move((y as int, x as int), s));
                    return true;
                }
            }
        }
        assert forall|p: (int, int)| !#[trigger] self@.is_move(p, s) by {
            if self@.on_board(p) {
                assert(!self@.is_move((p.0, p.1), s));
            }
        }
        false
    }
}

} // verus!
