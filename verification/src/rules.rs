//! The capture rule, stated on grids: which disks a move takes, and whether a
//! player has a move at all.

use vstd::prelude::*;
use crate::square::Square;
use crate::grid::Grid;

verus! {

/// The position `k` steps away from `p` in direction `d`.
pub open spec fn step(p: (int, int), d: (int, int), k: int) -> (int, int) {
    (p.0 + k * d.0, p.1 + k * d.1)
}

/// The eight directions: each component is -1, 0 or 1, and not both are 0.
pub open spec fn is_dir(d: (int, int)) -> bool {
    &&& -1 <= d.0 <= 1
    &&& -1 <= d.1 <= 1
    &&& d != (0int, 0int)
}

/// A position off `p` is reached from `p` in one direction and by one number
/// of steps only.
pub proof fn lemma_step_unique(p: (int, int), d: (int, int), e: (int, int), a: int, b: int)
    requires
        is_dir(d),
        is_dir(e),
        1 <= a,
        1 <= b,
        step(p, d, a) == step(p, e, b),
    ensures
        d == e,
        a == b,
{
    lemma_scale(a, d.0);
    lemma_scale(a, d.1);
    lemma_scale(b, e.0);
    lemma_scale(b, e.1);
}

/// `k` times -1, 0 or 1 is `-k`, 0 or `k`.
proof fn lemma_scale(k: int, u: int)
    requires
        -1 <= u <= 1,
    ensures
        k * u == if u == 1 {
            k
        } else if u == 0 {
            0
        } else {
            -k
        },
{
    assert(k * 1 == k && k * 0 == 0 && k * (-1) == -k) by (nonlinear_arith);
}

impl Grid {
    /// The cell at `p` is on the board and holds a disk that `s` captures.
    pub open spec fn opposing_at(self, p: (int, int), s: Square) -> bool {
        self.on_board(p) && self.at(p).opposes(s)
    }

    /// The cell at `p` is on the board and holds a disk of the player `s`.
    pub open spec fn own_at(self, p: (int, int), s: Square) -> bool {
        self.on_board(p) && s.is_player() && self.at(p) == s
    }

    /// Seen from `p` in direction `d`, the next `n` cells hold disks that `s`
    /// captures, and the cell after them holds a disk of `s`.
    pub open spec fn flanks(self, p: (int, int), d: (int, int), s: Square, n: int) -> bool {
        &&& 1 <= n
        &&& forall|k: int| 1 <= k <= n ==> self.opposing_at(#[trigger] step(p, d, k), s)
        &&& self.own_at(step(p, d, n + 1), s)
    }

    /// How many disks a disk of `s` placed at `p` takes in direction `d`.
    pub open spec fn flank_len(self, p: (int, int), d: (int, int), s: Square) -> nat {
        if exists|n: int| self.flanks(p, d, s, n) {
            (choose|n: int| self.flanks(p, d, s, n)) as nat
        } else {
            0
        }
    }

    /// The disks that a disk of `s` placed at `p` takes in direction `d`,
    /// nearest first.
    pub open spec fn ray(self, p: (int, int), d: (int, int), s: Square) -> Seq<(int, int)> {
        Seq::new(self.flank_len(p, d, s), |i: int| step(p, d, i + 1))
    }

    /// The disks that a disk of `s` placed at `p` takes: those of the eight
    /// directions, the directions taken row by row from the upper left.
    pub open spec fn captures(self, p: (int, int), s: Square) -> Seq<(int, int)> {
        self.ray(p, (-1, -1), s) + self.ray(p, (-1, 0), s) + self.ray(p, (-1, 1), s)
            + self.ray(p, (0, -1), s) + self.ray(p, (0, 1), s)
            + self.ray(p, (1, -1), s) + self.ray(p, (1, 0), s) + self.ray(p, (1, 1), s)
    }

    /// Placing a disk of `s` at `p` is a move: the cell is empty and the disk
    /// takes at least one other.
    pub open spec fn is_move(self, p: (int, int), s: Square) -> bool {
        &&& self.on_board(p)
        &&& self.at(p) == Square::Empty
        &&& self.captures(p, s).len() > 0
    }

    /// The player `s` has a move somewhere on the board.
    pub open spec fn has_move(self, s: Square) -> bool {
        exists|p: (int, int)| #[trigger] self.is_move(p, s)
    }

    /// The grid after a disk of `s` is placed at `p` and takes the disks at
    /// `taken`.
    pub open spec fn apply_move(self, p: (int, int), s: Square, taken: Seq<(int, int)>) -> Grid {
        self.put(p, s).put_all(taken, s)
    }

    /// A direction is flanked in one way at most.
    pub proof fn lemma_flanks_unique(self, p: (int, int), d: (int, int), s: Square, n: int, m: int)
        requires
            self.flanks(p, d, s, n),
            self.flanks(p, d, s, m),
        ensures
            n == m,
    {
        if n < m {
            assert(self.opposing_at(step(p, d, n + 1), s));
        }
        if m < n {
            assert(self.opposing_at(step(p, d, m + 1), s));
        }
    }

    /// Where `n` disks are flanked, `n` disks are taken.
    pub proof fn lemma_flanked(self, p: (int, int), d: (int, int), s: Square, n: int)
        requires
            self.flanks(p, d, s, n),
        ensures
            self.flank_len(p, d, s) == n,
    {
        let c = choose|n: int| self.flanks(p, d, s, n);
        self.lemma_flanks_unique(p, d, s, n, c);
    }

    /// Where a run of `m` disks that `s` captures ends at a cell that is off
    /// the board or empty, or where the very first cell holds no such disk,
    /// nothing is taken.
    pub proof fn lemma_not_flanked(self, p: (int, int), d: (int, int), s: Square, m: int)
        requires
            0 <= m,
            forall|k: int| 1 <= k <= m ==> self.opposing_at(#[trigger] step(p, d, k), s),
            !self.opposing_at(step(p, d, m + 1), s),
            m == 0 || !self.own_at(step(p, d, m + 1), s),
        ensures
            self.flank_len(p, d, s) == 0,
    {
        if exists|n: int| self.flanks(p, d, s, n) {
            let n = choose|n: int| self.flanks(p, d, s, n);
            if n > m {
                assert(self.opposing_at(step(p, d, m + 1), s));
            } else if n < m {
                assert(self.opposing_at(step(p, d, n + 1), s));
            }
        }
    }

    /// Every disk taken in one direction lies on the straight line from `p`,
    /// is another cell than `p`, and belongs to the opponent of `s`, who is a
    /// player.
    pub proof fn lemma_ray_sound(self, p: (int, int), d: (int, int), s: Square, i: int)
        requires
            is_dir(d),
            0 <= i < self.ray(p, d, s).len(),
        ensures
            self.ray(p, d, s)[i] == step(p, d, i + 1),
            self.ray(p, d, s)[i] != p,
            self.opposing_at(self.ray(p, d, s)[i], s),
            s.is_player(),
    {
        let n = choose|n: int| self.flanks(p, d, s, n);
        assert(self.flanks(p, d, s, n));
        assert(self.opposing_at(step(p, d, i + 1), s));
        assert((i + 1) * d.0 != 0 || (i + 1) * d.1 != 0) by (nonlinear_arith)
            requires
                i >= 0,
                d.0 != 0 || d.1 != 0,
        ;
    }

    /// A move never takes the placed disk itself, nor anything off the
    /// board, and every disk it takes is one of the opponent's.
    pub proof fn lemma_captures_sound(self, p: (int, int), s: Square)
        ensures
            forall|c: (int, int)| #[trigger]
                self.captures(p, s).contains(c) ==> {
                    &&& c != p
                    &&& self.on_board(c)
                    &&& s.is_player()
                    &&& self.at(c) == s.spec_opponent()
                },
    {
        broadcast use vstd::seq_lib::lemma_seq_concat_contains_all_elements;

        assert forall|c: (int, int)| #[trigger] self.captures(p, s).contains(c) implies {
            &&& c != p
            &&& self.on_board(c)
            &&& s.is_player()
            &&& self.at(c) == s.spec_opponent()
        } by {
            let d = if self.ray(p, (-1, -1), s).contains(c) {
                (-1int, -1int)
            } else if self.ray(p, (-1, 0), s).contains(c) {
                (-1int, 0int)
            } else if self.ray(p, (-1, 1), s).contains(c) {
                (-1int, 1int)
            } else if self.ray(p, (0, -1), s).contains(c) {
                (0int, -1int)
            } else if self.ray(p, (0, 1), s).contains(c) {
                (0int, 1int)
            } else if self.ray(p, (1, -1), s).contains(c) {
                (1int, -1int)
            } else if self.ray(p, (1, 0), s).contains(c) {
                (1int, 0int)
            } else {
                (1int, 1int)
            };
            assert(self.ray(p, d, s).contains(c));
            let r = self.ray(p, d, s);
            let i = choose|i: int| 0 <= i < r.len() && r[i] == c;
            self.lemma_ray_sound(p, d, s, i);
        }
    }

    /// Two disks taken are two cells, unless they are the same disk of the
    /// same direction.
    pub proof fn lemma_rays_apart(self, p: (int, int), d: (int, int), e: (int, int), s: Square)
        requires
            is_dir(d),
            is_dir(e),
        ensures
            forall|i: int, j: int|
                0 <= i < self.ray(p, d, s).len() && 0 <= j < self.ray(p, e, s).len() && (d != e || i
                    != j) ==> self.ray(p, d, s)[i] != self.ray(p, e, s)[j],
    {
        assert forall|i: int, j: int|
            0 <= i < self.ray(p, d, s).len() && 0 <= j < self.ray(p, e, s).len() && (d != e || i
                != j) implies self.ray(p, d, s)[i] != self.ray(p, e, s)[j] by {
            if step(p, d, i + 1) == step(p, e, j + 1) {
                lemma_step_unique(p, d, e, i + 1, j + 1);
            }
        }
    }

    /// No disk is taken twice by one move.
    pub proof fn lemma_captures_distinct(self, p: (int, int), s: Square)
        ensures
            self.captures(p, s).no_duplicates(),
    {
        let d0 = (-1int, -1int);
        let d1 = (-1int, 0int);
        let d2 = (-1int, 1int);
        let d3 = (0int, -1int);
        let d4 = (0int, 1int);
        let d5 = (1int, -1int);
        let d6 = (1int, 0int);
        let d7 = (1int, 1int);
        let r0 = self.ray(p, d0, s);
        let r1 = self.ray(p, d1, s);
        let r2 = self.ray(p, d2, s);
        let r3 = self.ray(p, d3, s);
        let r4 = self.ray(p, d4, s);
        let r5 = self.ray(p, d5, s);
        let r6 = self.ray(p, d6, s);
        let r7 = self.ray(p, d7, s);
        self.lemma_rays_apart(p, d0, d0, s);
        self.lemma_rays_apart(p, d1, d1, s);
        self.lemma_rays_apart(p, d2, d2, s);
        self.lemma_rays_apart(p, d3, d3, s);
        self.lemma_rays_apart(p, d4, d4, s);
        self.lemma_rays_apart(p, d5, d5, s);
        self.lemma_rays_apart(p, d6, d6, s);
        self.lemma_rays_apart(p, d7, d7, s);
        self.lemma_rays_apart(p, d0, d1, s);
        vstd::seq_lib::lemma_no_dup_in_concat(r0, r1);
        let c1 = r0 + r1;
        self.lemma_rays_apart(p, d0, d2, s);
        self.lemma_rays_apart(p, d1, d2, s);
        vstd::seq_lib::lemma_no_dup_in_concat(c1, r2);
        let c2 = c1 + r2;
        self.lemma_rays_apart(p, d0, d3, s);
        self.lemma_rays_apart(p, d1, d3, s);
        self.lemma_rays_apart(p, d2, d3, s);
        vstd::seq_lib::lemma_no_dup_in_concat(c2, r3);
        let c3 = c2 + r3;
        self.lemma_rays_apart(p, d0, d4, s);
        self.lemma_rays_apart(p, d1, d4, s);
        self.lemma_rays_apart(p, d2, d4, s);
        self.lemma_rays_apart(p, d3, d4, s);
        vstd::seq_lib::lemma_no_dup_in_concat(c3, r4);
        let c4 = c3 + r4;
        self.lemma_rays_apart(p, d0, d5, s);
        self.lemma_rays_apart(p, d1, d5, s);
        self.lemma_rays_apart(p, d2, d5, s);
        self.lemma_rays_apart(p, d3, d5, s);
        self.lemma_rays_apart(p, d4, d5, s);
        vstd::seq_lib::lemma_no_dup_in_concat(c4, r5);
        let c5 = c4 + r5;
        self.lemma_rays_apart(p, d0, d6, s);
        self.lemma_rays_apart(p, d1, d6, s);
        self.lemma_rays_apart(p, d2, d6, s);
        self.lemma_rays_apart(p, d3, d6, s);
        self.lemma_rays_apart(p, d4, d6, s);
        self.lemma_rays_apart(p, d5, d6, s);
        vstd::seq_lib::lemma_no_dup_in_concat(c5, r6);
        let c6 = c5 + r6;
        self.lemma_rays_apart(p, d0, d7, s);
        self.lemma_rays_apart(p, d1, d7, s);
        self.lemma_rays_apart(p, d2, d7, s);
        self.lemma_rays_apart(p, d3, d7, s);
        self.lemma_rays_apart(p, d4, d7, s);
        self.lemma_rays_apart(p, d5, d7, s);
        self.lemma_rays_apart(p, d6, d7, s);
        vstd::seq_lib::lemma_no_dup_in_concat(c6, r7);
    }

    /// Only a player has a move.
    pub proof fn lemma_no_move_for_empty(self)
        ensures
            !self.has_move(Square::Empty),
    {
        assert forall|p: (int, int)| !#[trigger] self.is_move(p, Square::Empty) by {
            let taken = self.captures(p, Square::Empty);
            self.lemma_captures_sound(p, Square::Empty);
            if taken.len() > 0 {
                assert(taken.contains(taken[0]));
            }
        }
    }

    /// After a move the placed disk and every disk taken belong to the
    /// mover, no other cell has changed, and the board holds one disk more
    /// than before.
    pub proof fn lemma_apply_move(self, p: (int, int), s: Square)
        requires
            self.wf(),
            self.is_move(p, s),
        ensures
            ({
                let taken = self.captures(p, s);
                let after = self.apply_move(p, s, taken);
                &&& after.wf()
                &&& after.dim() == self.dim()
                &&& after.at(p) == s
                &&& forall|c: (int, int)| #[trigger] taken.contains(c) ==> after.at(c) == s
                &&& forall|q: (int, int)|
                    self.on_board(q) && q != p && !taken.contains(q) ==> #[trigger] after.at(q)
                        == self.at(q)
                &&& after.occupied().len() == self.occupied().len() + 1
            }),
    {
        let taken = self.captures(p, s);
        let placed = self.put(p, s);
        let after = self.apply_move(p, s, taken);
        self.lemma_captures_sound(p, s);
        self.lemma_put(p, s);
        placed.lemma_put_all(taken, s);
        assert(taken.contains(taken[0]));
        assert forall|q: (int, int)| after.occupied().contains(q) <==> self.occupied().insert(
            p,
        ).contains(q) by {
            if self.on_board(q) {
                assert(after.at(q) == if taken.contains(q) {
                    s
                } else {
                    placed.at(q)
                });
            }
        }
        assert(after.occupied() =~= self.occupied().insert(p));
        self.lemma_finite(s);
    }
}

} // verus!
