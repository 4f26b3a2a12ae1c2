//! The rectangular grid of cells: per-cell domain state, coordinate and
//! neighbor geometry, construction, and reset.

use vstd::prelude::*;
use crate::category::{Category, Direction, all_categories, full_domain, lemma_all_categories};
use vstd::arithmetic::div_mod::lemma_fundamental_div_mod_converse;
use vstd::arithmetic::div_mod::lemma_fundamental_div_mod;
use vstd::arithmetic::div_mod::lemma_mod_bound;
use vstd::arithmetic::mul::lemma_mul_inequality;
use vstd::arithmetic::mul::lemma_mul_is_distributive_add_other_way;
use vstd::arithmetic::mul::lemma_mul_nonnegative;
use vstd::arithmetic::mul::lemma_mul_is_commutative;

verus! {

/// One grid position: its fixed coordinates, the domain of categories still
/// possible for it, and whether the solver has collapsed it.
#[derive(Debug)]
pub struct Cell {
    pub x: usize,
    pub y: usize,
    pub domain: Vec<Category>,
    pub resolved: bool,
}

impl Cell {
    /// A cell's domain is a non-empty duplicate-free subset of the category
    /// set, and a resolved cell holds exactly one category.
    pub open spec fn wf(self) -> bool {
        &&& self.domain@.len() >= 1
        &&& self.domain@.no_duplicates()
        &&& forall|k: int|
            0 <= k < self.domain@.len() ==> all_categories().contains(#[trigger] self.domain@[k])
        &&& self.resolved ==> self.domain@.len() == 1
    }
}

/// The construction errors of `create_grid`.
#[derive(Clone, Copy, Debug, PartialEq, Eq, Structural)]
pub enum GridError {
    /// A dimension was zero.
    ZeroDimension,
    /// The cell count `width * height` does not fit in `usize`.
    TooLarge,
}

/// A rectangular grid of cells, stored row-major: the cell at `(x, y)` sits
/// at index `y * width + x`.
#[derive(Debug)]
pub struct Grid {
    pub width: usize,
    pub height: usize,
    pub cells: Vec<Cell>,
}

impl Grid {
    /// The row-major index of coordinate `(x, y)`.
    pub open spec fn idx(self, x: int, y: int) -> int {
        y * (self.width as int) + x
    }

    /// Whether `(x, y)` lies inside the grid.
    pub open spec fn in_bounds(self, x: int, y: int) -> bool {
        0 <= x < self.width && 0 <= y < self.height
    }

    /// The grid is a full rectangle of well-formed cells whose recorded
    /// coordinates match their row-major position.
    pub open spec fn wf(self) -> bool {
        &&& self.width >= 1
        &&& self.height >= 1
        &&& self.cells@.len() == (self.width as int) * (self.height as int)
        &&& forall|i: int|
            0 <= i < self.cells@.len() ==> (#[trigger] self.cells@[i]).wf()
        &&& forall|i: int|
            0 <= i < self.cells@.len() ==> (#[trigger] self.cells@[i]).x == i % (self.width as int)
                && self.cells@[i].y == i / (self.width as int)
    }

    /// Every cell is unresolved with the full category set as its domain.
    pub open spec fn is_fresh(self) -> bool {
        forall|i: int|
            0 <= i < self.cells@.len() ==> (#[trigger] self.cells@[i]).domain@ == all_categories()
                && !self.cells@[i].resolved
    }

    /// An in-bounds coordinate indexes a cell that records that coordinate.
    pub proof fn lemma_idx(self, x: int, y: int)
        requires
            self.wf(),
            self.in_bounds(x, y),
        ensures
            0 <= self.idx(x, y) < self.cells@.len(),
            self.cells@[self.idx(x, y)].x == x,
            self.cells@[self.idx(x, y)].y == y,
    {
        let w = self.width as int;
        let h = self.height as int;
        let i = y * w + x;
        lemma_mul_nonnegative(y, w);
        lemma_mul_is_distributive_add_other_way(w, y, 1);
        lemma_mul_inequality(y + 1, h, w);
        lemma_mul_is_commutative(h, w);
        assert(0 <= i < self.cells@.len());
        lemma_fundamental_div_mod_converse(i, w, y, x);
    }

    /// A cell's recorded coordinates are in bounds and index back to it.
    pub proof fn lemma_cell_coords(self, i: int)
        requires
            self.wf(),
            0 <= i < self.cells@.len(),
        ensures
            self.cells@[i].x < self.width,
            self.cells@[i].y < self.height,
            self.idx(self.cells@[i].x as int, self.cells@[i].y as int) == i,
    {
        let w = self.width as int;
        let h = self.height as int;
        lemma_fundamental_div_mod(i, w);
        lemma_mod_bound(i, w);
        let x = i % w;
        let y = i / w;
        assert(i == w * y + x);
        lemma_mul_is_commutative(w, y);
        lemma_mul_is_commutative(w, h);
        if y >= h {
            lemma_mul_inequality(h, y, w);
            assert(false);
        }
        lemma_mul_nonnegative(y, w);
    }

    /// The row-major index of an in-bounds coordinate, as executable code.
    pub fn index_of(&self, x: usize, y: usize) -> (j: usize)
        requires
            self.wf(),
            x < self.width,
            y < self.height,
        ensures
            j == self.idx(x as int, y as int),
            j < self.cells@.len(),
            self.cells@[j as int].x == x,
            self.cells@[j as int].y == y,
    {
        let n = self.cells.len();
        proof {
            self.lemma_idx(x as int, y as int);
        }
        y * self.width + x
    }
}

/// The x coordinate one step from `x` in direction `d`.
pub open spec fn nb_x(x: int, d: Direction) -> int {
    match d {
        Direction::Left => x - 1,
        Direction::Right => x + 1,
        _ => x,
    }
}

/// The y coordinate one step from `y` in direction `d`. `Up` is toward
/// larger `y`.
pub open spec fn nb_y(y: int, d: Direction) -> int {
    match d {
        Direction::Down => y - 1,
        Direction::Up => y + 1,
        _ => y,
    }
}

/// The direction from `(x1, y1)` to `(x2, y2)` when the two are axis-aligned
/// neighbors, `None` otherwise.
pub open spec fn direction_between(x1: int, y1: int, x2: int, y2: int) -> Option<Direction> {
    if x1 == x2 && y2 == y1 + 1 {
        Some(Direction::Up)
    } else if x1 == x2 && y1 == y2 + 1 {
        Some(Direction::Down)
    } else if x2 == x1 + 1 && y1 == y2 {
        Some(Direction::Right)
    } else if x1 == x2 + 1 && y1 == y2 {
        Some(Direction::Left)
    } else {
        None
    }
}

/// Lying one step in direction `d` from `(x1, y1)` is the same as
/// `direction_between` reporting `d` from there.
pub proof fn lemma_direction_neighbor(x1: int, y1: int, x2: int, y2: int)
    ensures
        forall|d: Direction|
            direction_between(x1, y1, x2, y2) == Some(d) <==> (x2 == nb_x(x1, d) && y2 == nb_y(
                y1,
                d,
            )),
{
    assert forall|d: Direction|
        direction_between(x1, y1, x2, y2) == Some(d) <==> (x2 == nb_x(x1, d) && y2 == nb_y(
            y1,
            d,
        )) by {
        match d {
            Direction::Up => {},
            Direction::Down => {},
            Direction::Left => {},
            Direction::Right => {},
        }
    }
}

/// The direction from `(x1, y1)` to `(x2, y2)` when they are axis-aligned
/// neighbors.
pub fn neighbor_direction(x1: usize, y1: usize, x2: usize, y2: usize) -> (r: Option<Direction>)
    ensures
        r == direction_between(x1 as int, y1 as int, x2 as int, y2 as int),
{
    if x1 == x2 && y2 > y1 && y2 - y1 == 1 {
        Some(Direction::Up)
    } else if x1 == x2 && y1 > y2 && y1 - y2 == 1 {
        Some(Direction::Down)
    } else if x2 > x1 && x2 - x1 == 1 && y1 == y2 {
        Some(Direction::Right)
    } else if x1 > x2 && x1 - x2 == 1 && y1 == y2 {
        Some(Direction::Left)
    } else {
        None
    }
}

/// The number of resolved cells among the first `n` of `s`.
pub open spec fn count_resolved_upto(s: Seq<Cell>, n: int) -> int
    decreases n,
{
    if n <= 0 {
        0
    } else {
        count_resolved_upto(s, n - 1) + if s[n - 1].resolved {
            1int
        } else {
            0int
        }
    }
}

/// The resolved count of a prefix lies between 0 and the prefix length.
pub proof fn lemma_count_bounds(s: Seq<Cell>, n: int)
    requires
        0 <= n,
    ensures
        0 <= count_resolved_upto(s, n) <= n,
    decreases n,
{
    if n > 0 {
        lemma_count_bounds(s, n - 1);
    }
}

/// A prefix counts as fully resolved exactly when each of its cells is.
pub proof fn lemma_count_all(s: Seq<Cell>, n: int)
    requires
        0 <= n,
    ensures
        count_resolved_upto(s, n) == n <==> (forall|j: int| 0 <= j < n ==> s[j].resolved),
    decreases n,
{
    if n > 0 {
        lemma_count_all(s, n - 1);
        lemma_count_bounds(s, n - 1);
    }
}

/// A prefix with no resolved cell counts zero.
pub proof fn lemma_count_none(s: Seq<Cell>, n: int)
    requires
        0 <= n,
        forall|j: int| 0 <= j < n ==> !s[j].resolved,
    ensures
        count_resolved_upto(s, n) == 0,
    decreases n,
{
    if n > 0 {
        lemma_count_none(s, n - 1);
    }
}

/// Two prefixes that agree on every resolved flag count the same.
pub proof fn lemma_count_agree(s1: Seq<Cell>, s2: Seq<Cell>, n: int)
    requires
        0 <= n,
        forall|j: int| 0 <= j < n ==> s1[j].resolved == s2[j].resolved,
    ensures
        count_resolved_upto(s1, n) == count_resolved_upto(s2, n),
    decreases n,
{
    if n > 0 {
        lemma_count_agree(s1, s2, n - 1);
    }
}

/// Flipping exactly one cell from unresolved to resolved raises the count by
/// one.
pub proof fn lemma_count_flip(s1: Seq<Cell>, s2: Seq<Cell>, i: int, n: int)
    requires
        0 <= i < n,
        forall|j: int| 0 <= j < n && j != i ==> s1[j].resolved == s2[j].resolved,
        !s1[i].resolved,
        s2[i].resolved,
    ensures
        count_resolved_upto(s2, n) == count_resolved_upto(s1, n) + 1,
    decreases n,
{
    if i == n - 1 {
        lemma_count_agree(s1, s2, n - 1);
    } else {
        lemma_count_flip(s1, s2, i, n - 1);
    }
}

impl Grid {
    /// How many cells the solver has resolved so far.
    pub open spec fn count_resolved(self) -> int {
        count_resolved_upto(self.cells@, self.cells@.len() as int)
    }

    /// Whether every cell of the grid is resolved.
    pub fn fully_resolved(&self) -> (r: bool)
        ensures
            r == (self.count_resolved() == self.cells@.len()),
    {
        let n = self.cells.len();
        let mut i: usize = 0;
        while i < n
            invariant
                n == self.cells@.len(),
                i <= n,
                forall|j: int| 0 <= j < i ==> (#[trigger] self.cells@[j]).resolved,
            decreases n - i,
        {
            if !self.cells[i].resolved {
                proof {
                    lemma_count_all(self.cells@, n as int);
                }
                return false;
            }
            i = i + 1;
        }
        proof {
            lemma_count_all(self.cells@, n as int);
        }
        true
    }

    /// The index of the neighbor of cell `i` one step in direction `d`, when
    /// that neighbor lies inside the grid.
    pub fn neighbor_index(&self, i: usize, d: Direction) -> (r: Option<usize>)
        requires
            self.wf(),
            i < self.cells@.len(),
        ensures
            ({
                let x = self.cells@[i as int].x as int;
                let y = self.cells@[i as int].y as int;
                match r {
                    Some(j) => self.in_bounds(nb_x(x, d), nb_y(y, d)) && j == self.idx(
                        nb_x(x, d),
                        nb_y(y, d),
                    ),
                    None => !self.in_bounds(nb_x(x, d), nb_y(y, d)),
                }
            }),
    {
        let x = self.cells[i].x;
        let y = self.cells[i].y;
        proof {
            self.lemma_cell_coords(i as int);
        }
        match d {
            Direction::Up => if y + 1 < self.height {
                Some(self.index_of(x, y + 1))
            } else {
                None
            },
            Direction::Down => if y > 0 {
                Some(self.index_of(x, y - 1))
            } else {
                None
            },
            Direction::Right => if x + 1 < self.width {
                Some(self.index_of(x + 1, y))
            } else {
                None
            },
            Direction::Left => if x > 0 {
                Some(self.index_of(x - 1, y))
            } else {
                None
            },
        }
    }

    /// The collapsed category of the cell at `(x, y)`, or `None` while the
    /// cell is unresolved.
    pub fn resolved_category(&self, x: usize, y: usize) -> (r: Option<Category>)
        requires
            self.wf(),
            x < self.width,
            y < self.height,
        ensures
            ({
                let cell = self.cells@[self.idx(x as int, y as int)];
                match r {
                    Some(c) => cell.resolved && cell.domain@ == seq![c],
                    None => !cell.resolved,
                }
            }),
    {
        let j = self.index_of(x, y);
        if self.cells[j].resolved {
            let c = self.cells[j].domain[0];
            proof {
                assert(self.cells@[j as int].domain@ =~= seq![c]);
            }
            Some(c)
        } else {
            None
        }
    }

    /// A copy of the current domain of the cell at `(x, y)`.
    pub fn domain_snapshot(&self, x: usize, y: usize) -> (r: Vec<Category>)
        requires
            self.wf(),
            x < self.width,
            y < self.height,
        ensures
            r@ == self.cells@[self.idx(x as int, y as int)].domain@,
    {
        let j = self.index_of(x, y);
        let n = self.cells[j].domain.len();
        let mut r: Vec<Category> = Vec::new();
        let mut k: usize = 0;
        while k < n
            invariant
                j < self.cells@.len(),
                n == self.cells@[j as int].domain@.len(),
                k <= n,
                r@ =~= self.cells@[j as int].domain@.take(k as int),
            decreases n - k,
        {
            r.push(self.cells[j].domain[k]);
            k = k + 1;
        }
        proof {
            assert(self.cells@[j as int].domain@.take(n as int) =~= self.cells@[j as int].domain@);
        }
        r
    }

    /// Discards all progress: every cell returns to the full category set,
    /// unresolved. Width and height are kept.
    pub fn reset(&mut self)
        requires
            old(self).wf(),
        ensures
            final(self).wf(),
            final(self).is_fresh(),
            final(self).width == old(self).width,
            final(self).height == old(self).height,
            final(self).cells@.len() == old(self).cells@.len(),
            final(self).count_resolved() == 0,
    {
        let w = self.width;
        let h = self.height;
        let n = self.cells.len();
        match create_grid(w, h) {
            Ok(g) => {
                *self = g;
            },
            Err(_) => {
                proof {
                    assert(false);
                }
            },
        }
        proof {
            lemma_count_none(self.cells@, self.cells@.len() as int);
        }
    }
}

/// Creates a `width` by `height` grid with every cell unresolved and holding
/// the full category set. Rejects a zero dimension, and a cell count that
/// does not fit in `usize`.
pub fn create_grid(width: usize, height: usize) -> (r: Result<Grid, GridError>)
    ensures
        r is Ok <==> width >= 1 && height >= 1 && (width as int) * (height as int) <= usize::MAX,
        r matches Ok(g) ==> g.wf() && g.is_fresh() && g.width == width && g.height == height
            && g.count_resolved() == 0,
        width == 0 || height == 0 ==> r == Err::<Grid, GridError>(GridError::ZeroDimension),
        width >= 1 && height >= 1 && (width as int) * (height as int) > usize::MAX ==> r
            == Err::<Grid, GridError>(GridError::TooLarge),
{
    if width == 0 || height == 0 {
        return Err(GridError::ZeroDimension);
    }
    let total = match width.checked_mul(height) {
        Some(t) => t,
        None => {
            return Err(GridError::TooLarge);
        },
    };
    let mut cells: Vec<Cell> = Vec::new();
    let mut i: usize = 0;
    while i < total
        invariant
            i <= total,
            total == (width as int) * (height as int),
            width >= 1,
            cells@.len() == i,
            forall|j: int| 0 <= j < i ==> (#[trigger] cells@[j]).wf(),
            forall|j: int|
                0 <= j < i ==> (#[trigger] cells@[j]).x == j % (width as int)
                    && cells@[j].y == j / (width as int),
            forall|j: int|
                0 <= j < i ==> (#[trigger] cells@[j]).domain@ == all_categories()
                    && !cells@[j].resolved,
        decreases total - i,
    {
        let cell = Cell { x: i % width, y: i / width, domain: full_domain(), resolved: false };
        proof {
            lemma_all_categories();
        }
        cells.push(cell);
        i = i + 1;
    }
    proof {
        lemma_count_none(cells@, cells@.len() as int);
    }
    Ok(Grid { width, height, cells })
}

} // verus!
