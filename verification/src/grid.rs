//! The mathematical model of a board: a square grid of cells, addressed by
//! `(row, column)`.

use vstd::prelude::*;
use crate::square::Square;

verus! {

/// A board as a value: one sequence of cells for each row, top row first.
pub struct Grid {
    pub rows: Seq<Seq<Square>>,
}

impl Grid {
    /// The number of rows.
    pub open spec fn dim(self) -> int {
        self.rows.len() as int
    }

    /// Every row is as long as the grid is high.
    pub open spec fn wf(self) -> bool {
        forall|y: int| 0 <= y < self.dim() ==> (#[trigger] self.rows[y]).len() == self.dim()
    }

    /// Both coordinates of `p` lie in `[0, dim)`.
    pub open spec fn on_board(self, p: (int, int)) -> bool {
        0 <= p.0 < self.dim() && 0 <= p.1 < self.dim()
    }

    /// The occupant of the cell at `p`.
    pub open spec fn at(self, p: (int, int)) -> Square
        recommends
            self.on_board(p),
    {
        self.rows[p.0][p.1]
    }

    /// The occupant of the cell at `p`, or `None` where `p` is off the board.
    pub open spec fn look(self, p: (int, int)) -> Option<Square> {
        if self.on_board(p) {
            Some(self.at(p))
        } else {
            None
        }
    }

    /// The grid with the cell at `p` overwritten by `s`.
    pub open spec fn put(self, p: (int, int), s: Square) -> Grid
        recommends
            self.on_board(p),
    {
        Grid { rows: self.rows.update(p.0, self.rows[p.0].update(p.1, s)) }
    }

    /// The grid with every cell listed in `ps` overwritten by `s`.
    pub open spec fn put_all(self, ps: Seq<(int, int)>, s: Square) -> Grid {
        Grid {
            rows: Seq::new(
                self.rows.len(),
                |y: int|
                    Seq::new(
                        self.rows[y].len(),
                        |x: int|
                            if ps.contains((y, x)) {
                                s
                            } else {
                                self.rows[y][x]
                            },
                    ),
            ),
        }
    }

    /// What the cell at `p` holds when a game on a grid of height `n` begins:
    /// the four cells around the centre hold two disks of each colour, the
    /// black ones on the diagonal that runs from the upper left.
    pub open spec fn start_square(n: int, p: (int, int)) -> Square {
        let c = n / 2;
        if (p.0 == c - 1 && p.1 == c - 1) || (p.0 == c && p.1 == c) {
            Square::Black
        } else if (p.0 == c - 1 && p.1 == c) || (p.0 == c && p.1 == c - 1) {
            Square::White
        } else {
            Square::Empty
        }
    }

    /// The grid of height `n` in its starting position.
    pub open spec fn start(n: int) -> Grid {
        Grid {
            rows: Seq::new(
                n as nat,
                |y: int| Seq::new(n as nat, |x: int| Self::start_square(n, (y, x))),
            ),
        }
    }

    /// The cells that hold `s`.
    pub open spec fn holding(self, s: Square) -> Set<(int, int)> {
        Set::new(|p: (int, int)| self.on_board(p) && self.at(p) == s)
    }

    /// The cells that hold a disk.
    pub open spec fn occupied(self) -> Set<(int, int)> {
        Set::new(|p: (int, int)| self.on_board(p) && self.at(p) != Square::Empty)
    }

    /// A grid has finitely many cells, so finitely many of them hold a disk,
    /// or a given value.
    pub proof fn lemma_finite(self, s: Square)
        ensures
            self.occupied().finite(),
            self.holding(s).finite(),
    {
        let all = block(self.dim(), self.dim());
        lemma_block_finite(self.dim(), self.dim());
        assert(self.occupied().subset_of(all));
        assert(self.holding(s).subset_of(all));
        vstd::set_lib::lemma_set_subset_finite(all, self.occupied());
        vstd::set_lib::lemma_set_subset_finite(all, self.holding(s));
    }

    /// Overwriting a cell changes that cell and no other.
    pub proof fn lemma_put(self, p: (int, int), s: Square)
        requires
            self.wf(),
            self.on_board(p),
        ensures
            self.put(p, s).wf(),
            self.put(p, s).dim() == self.dim(),
            self.put(p, s).at(p) == s,
            forall|q: (int, int)| self.on_board(q) && q != p ==> #[trigger] self.put(p, s).at(q) == self.at(q),
    {
    }

    /// Overwriting the cells of a list changes the cells listed and no
    /// others.
    pub proof fn lemma_put_all(self, ps: Seq<(int, int)>, s: Square)
        requires
            self.wf(),
        ensures
            self.put_all(ps, s).wf(),
            self.put_all(ps, s).dim() == self.dim(),
            forall|q: (int, int)|
                self.on_board(q) ==> #[trigger] self.put_all(ps, s).at(q) == if ps.contains(q) {
                    s
                } else {
                    self.at(q)
                },
    {
    }

    /// The starting position of a grid of positive even height is square
    /// and holds four disks, two of each colour.
    pub proof fn lemma_start(n: int)
        requires
            0 < n,
            n % 2 == 0,
        ensures
            Self::start(n).wf(),
            Self::start(n).dim() == n,
            Self::start(n).occupied().len() == 4,
            Self::start(n).holding(Square::Black).len() == 2,
            Self::start(n).holding(Square::White).len() == 2,
    {
        let g = Self::start(n);
        let c = n / 2;
        assert(g.holding(Square::Black) =~= set![(c - 1, c - 1), (c, c)]);
        assert(g.holding(Square::White) =~= set![(c - 1, c), (c, c - 1)]);
        assert(g.occupied() =~= set![(c - 1, c - 1), (c, c), (c - 1, c), (c, c - 1)]);
    }
}

/// The cells of the first `r` rows and `c` columns.
spec fn block(r: int, c: int) -> Set<(int, int)> {
    Set::new(|p: (int, int)| 0 <= p.0 < r && 0 <= p.1 < c)
}

/// The cells of row `y` in the first `c` columns.
spec fn strip(y: int, c: int) -> Set<(int, int)> {
    Set::new(|p: (int, int)| p.0 == y && 0 <= p.1 < c)
}

proof fn lemma_strip_finite(y: int, c: int)
    requires
        0 <= c,
    ensures
        strip(y, c).finite(),
    decreases c,
{
    if c == 0 {
        assert(strip(y, c) =~= Set::empty());
    } else {
        lemma_strip_finite(y, c - 1);
        assert(strip(y, c) =~= strip(y, c - 1).insert((y, c - 1)));
    }
}

proof fn lemma_block_finite(r: int, c: int)
    requires
        0 <= r,
        0 <= c,
    ensures
        block(r, c).finite(),
    decreases r,
{
    if r == 0 {
        assert(block(r, c) =~= Set::empty());
    } else {
        lemma_block_finite(r - 1, c);
        lemma_strip_finite(r - 1, c);
        assert(block(r, c) =~= block(r - 1, c).union(strip(r - 1, c)));
    }
}

} // verus!
