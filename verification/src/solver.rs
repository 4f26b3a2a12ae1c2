//! The solver step: minimum-entropy cell selection, constraint-filtered
//! collapse with randomized choice, and propagation to the axis-aligned
//! neighbors of the collapsed cell.

use vstd::prelude::*;
use crate::category::{
    Category, Direction, all_categories, allowed, allowed_spec, full_domain, lemma_all_categories,
};
use crate::grid::{
    Cell, Grid, direction_between, lemma_count_all, lemma_count_bounds, lemma_count_flip,
    lemma_direction_neighbor, nb_x, nb_y,
};

verus! {

/// The subsequence of `dom`, in order, whose categories may stand beside `c`.
pub open spec fn filter_allowed(dom: Seq<Category>, c: Category) -> Seq<Category>
    decreases dom.len(),
{
    if dom.len() == 0 {
        Seq::empty()
    } else {
        let rest = filter_allowed(dom.drop_last(), c);
        if allowed_spec(c, dom.last()) {
            rest.push(dom.last())
        } else {
            rest
        }
    }
}

/// What propagation leaves a neighbor's domain as, after a collapse to `c`:
/// the compatible subsequence, or the full category set when that
/// subsequence is empty (the self-healing reset rule).
pub open spec fn propagated_domain(dom: Seq<Category>, c: Category) -> Seq<Category> {
    if filter_allowed(dom, c).len() == 0 {
        all_categories()
    } else {
        filter_allowed(dom, c)
    }
}

/// The compatible subsequence never grows: it keeps only members of `dom`,
/// in `dom`'s order, and stays duplicate-free when `dom` is.
pub proof fn lemma_filter_allowed_props(dom: Seq<Category>, c: Category)
    ensures
        filter_allowed(dom, c).len() <= dom.len(),
        forall|k: int|
            0 <= k < filter_allowed(dom, c).len() ==> dom.contains(
                #[trigger] filter_allowed(dom, c)[k],
            ) && allowed_spec(c, filter_allowed(dom, c)[k]),
        dom.no_duplicates() ==> filter_allowed(dom, c).no_duplicates(),
    decreases dom.len(),
{
    if dom.len() > 0 {
        let rest = dom.drop_last();
        let fr = filter_allowed(rest, c);
        lemma_filter_allowed_props(rest, c);
        assert forall|k: int| 0 <= k < fr.len() implies dom.contains(#[trigger] fr[k]) by {
            let j = choose|j: int| 0 <= j < rest.len() && rest[j] == fr[k];
            assert(dom[j] == fr[k]);
        }
        if allowed_spec(c, dom.last()) {
            assert(dom.contains(dom.last())) by {
                assert(dom[dom.len() - 1] == dom.last());
            }
            if dom.no_duplicates() {
                assert(rest.no_duplicates());
                assert forall|k: int| 0 <= k < fr.len() implies fr[k] != dom.last() by {
                    let j = choose|j: int| 0 <= j < rest.len() && rest[j] == fr[k];
                    assert(dom[j] == fr[k]);
                }
            }
        }
    }
}

/// The subsequence of `dom`, in order, whose categories may stand beside
/// `c`, as executable code.
fn filter_domain(dom: &Vec<Category>, c: Category, d: Direction) -> (r: Vec<Category>)
    ensures
        r@ == filter_allowed(dom@, c),
{
    let mut r: Vec<Category> = Vec::new();
    let n = dom.len();
    let mut k: usize = 0;
    while k < n
        invariant
            n == dom@.len(),
            k <= n,
            r@ == filter_allowed(dom@.take(k as int), c),
        decreases n - k,
    {
        proof {
            assert(dom@.take(k as int + 1).drop_last() =~= dom@.take(k as int));
            assert(dom@.take(k as int + 1).last() == dom@[k as int]);
        }
        if allowed(c, dom[k], d) {
            r.push(dom[k]);
        }
        k = k + 1;
    }
    proof {
        assert(dom@.take(n as int) =~= dom@);
    }
    r
}

impl Grid {
    /// Cell `i` can still be selected: unresolved with a non-empty domain.
    pub open spec fn eligible(self, i: int) -> bool {
        &&& 0 <= i < self.cells@.len()
        &&& !self.cells@[i].resolved
        &&& self.cells@[i].domain@.len() > 0
    }

    /// Some cell can still be selected.
    pub open spec fn has_eligible(self) -> bool {
        exists|i: int| self.eligible(i)
    }

    /// Cell `i` is the one the step collapses: the first eligible cell, in
    /// index order, whose domain is of minimal size.
    pub open spec fn is_selected(self, i: int) -> bool {
        &&& self.eligible(i)
        &&& forall|j: int|
            #[trigger] self.eligible(j) ==> self.cells@[i].domain@.len()
                <= self.cells@[j].domain@.len()
        &&& forall|j: int|
            0 <= j < i && #[trigger] self.eligible(j) ==> self.cells@[i].domain@.len()
                < self.cells@[j].domain@.len()
    }

    /// The minimum-entropy selection: the first unresolved cell with a
    /// non-empty domain of smallest size, or `None` when no cell is left to
    /// collapse.
    pub fn select_cell(&self) -> (r: Option<usize>)
        ensures
            match r {
                Some(i) => self.is_selected(i as int),
                None => !self.has_eligible(),
            },
    {
        let n = self.cells.len();
        let mut best_i: usize = 0;
        let mut best_len: usize = 0;
        let mut found = false;
        let mut j: usize = 0;
        while j < n
            invariant
                n == self.cells@.len(),
                j <= n,
                !found ==> forall|k: int| 0 <= k < j ==> !self.eligible(k),
                found ==> self.eligible(best_i as int) && best_i < j && best_len
                    == self.cells@[best_i as int].domain@.len(),
                found ==> forall|k: int|
                    0 <= k < j && #[trigger] self.eligible(k) ==> best_len
                        <= self.cells@[k].domain@.len(),
                found ==> forall|k: int|
                    0 <= k < best_i && #[trigger] self.eligible(k) ==> best_len
                        < self.cells@[k].domain@.len(),
            decreases n - j,
        {
            let len_j = self.cells[j].domain.len();
            if !self.cells[j].resolved && len_j > 0 {
                if !found || len_j < best_len {
                    best_i = j;
                    best_len = len_j;
                    found = true;
                }
            }
            j = j + 1;
        }
        if found {
            Some(best_i)
        } else {
            None
        }
    }

    /// Candidate `c` for cell `i` is compatible in direction `d`: the
    /// neighbor there, if any, still has some category in its domain that
    /// may stand beside `c`.
    pub open spec fn dir_ok(self, i: int, c: Category, d: Direction) -> bool {
        let x = self.cells@[i].x as int;
        let y = self.cells@[i].y as int;
        self.in_bounds(nb_x(x, d), nb_y(y, d)) ==> {
            let ndom = self.cells@[self.idx(nb_x(x, d), nb_y(y, d))].domain@;
            exists|k: int| 0 <= k < ndom.len() && allowed_spec(c, #[trigger] ndom[k])
        }
    }

    /// Candidate `c` is compatible with the current domains of all existing
    /// neighbors of cell `i`.
    pub open spec fn choice_ok(self, i: int, c: Category) -> bool {
        &&& self.dir_ok(i, c, Direction::Up)
        &&& self.dir_ok(i, c, Direction::Down)
        &&& self.dir_ok(i, c, Direction::Left)
        &&& self.dir_ok(i, c, Direction::Right)
    }

    fn dir_ok_exec(&self, i: usize, c: Category, d: Direction) -> (r: bool)
        requires
            self.wf(),
            i < self.cells@.len(),
        ensures
            r == self.dir_ok(i as int, c, d),
    {
        match self.neighbor_index(i, d) {
            None => true,
            Some(j) => {
                proof {
                    let x = self.cells@[i as int].x as int;
                    let y = self.cells@[i as int].y as int;
                    self.lemma_idx(nb_x(x, d), nb_y(y, d));
                }
                let m = self.cells[j].domain.len();
                let mut k: usize = 0;
                while k < m
                    invariant
                        self.wf(),
                        i < self.cells@.len(),
                        j < self.cells@.len(),
                        m == self.cells@[j as int].domain@.len(),
                        k <= m,
                        j == self.idx(
                            nb_x(self.cells@[i as int].x as int, d),
                            nb_y(self.cells@[i as int].y as int, d),
                        ),
                        self.in_bounds(
                            nb_x(self.cells@[i as int].x as int, d),
                            nb_y(self.cells@[i as int].y as int, d),
                        ),
                        forall|m2: int|
                            0 <= m2 < k ==> !allowed_spec(
                                c,
                                #[trigger] self.cells@[j as int].domain@[m2],
                            ),
                    decreases m - k,
                {
                    if allowed(c, self.cells[j].domain[k], d) {
                        proof {
                            assert(allowed_spec(c, self.cells@[j as int].domain@[k as int]));
                        }
                        return true;
                    }
                    k = k + 1;
                }
                false
            },
        }
    }

    fn choice_ok_exec(&self, i: usize, c: Category) -> (r: bool)
        requires
            self.wf(),
            i < self.cells@.len(),
        ensures
            r == self.choice_ok(i as int, c),
    {
        self.dir_ok_exec(i, c, Direction::Up) && self.dir_ok_exec(i, c, Direction::Down)
            && self.dir_ok_exec(i, c, Direction::Left) && self.dir_ok_exec(i, c, Direction::Right)
    }

    /// The subsequence of cell `i`'s domain (a prefix `dom` of it while the
    /// filter runs) whose members are compatible with all neighbors.
    pub open spec fn valid_choices_spec(self, i: int, dom: Seq<Category>) -> Seq<Category>
        decreases dom.len(),
    {
        if dom.len() == 0 {
            Seq::empty()
        } else {
            let rest = self.valid_choices_spec(i, dom.drop_last());
            if self.choice_ok(i, dom.last()) {
                rest.push(dom.last())
            } else {
                rest
            }
        }
    }

    /// Every valid choice comes from `dom` and is compatible with all
    /// neighbors of cell `i`.
    pub proof fn lemma_valid_choices_subset(self, i: int, dom: Seq<Category>)
        ensures
            self.valid_choices_spec(i, dom).len() <= dom.len(),
            forall|k: int|
                0 <= k < self.valid_choices_spec(i, dom).len() ==> dom.contains(
                    #[trigger] self.valid_choices_spec(i, dom)[k],
                ) && self.choice_ok(i, self.valid_choices_spec(i, dom)[k]),
        decreases dom.len(),
    {
        if dom.len() > 0 {
            let rest = dom.drop_last();
            let vr = self.valid_choices_spec(i, rest);
            self.lemma_valid_choices_subset(i, rest);
            assert forall|k: int| 0 <= k < vr.len() implies dom.contains(#[trigger] vr[k]) by {
                let j = choose|j: int| 0 <= j < rest.len() && rest[j] == vr[k];
                assert(dom[j] == vr[k]);
            }
            if self.choice_ok(i, dom.last()) {
                assert(dom.contains(dom.last())) by {
                    assert(dom[dom.len() - 1] == dom.last());
                }
            }
        }
    }

    /// The constraint-filtered candidates for cell `i`: the members of its
    /// current domain that every existing neighbor's domain can stand
    /// beside. The filter is advisory; the collapse falls back to the whole
    /// domain when it comes back empty.
    pub fn valid_choices(&self, i: usize) -> (r: Vec<Category>)
        requires
            self.wf(),
            i < self.cells@.len(),
        ensures
            r@ == self.valid_choices_spec(i as int, self.cells@[i as int].domain@),
    {
        let mut r: Vec<Category> = Vec::new();
        let n = self.cells[i].domain.len();
        let mut k: usize = 0;
        while k < n
            invariant
                self.wf(),
                i < self.cells@.len(),
                n == self.cells@[i as int].domain@.len(),
                k <= n,
                r@ == self.valid_choices_spec(i as int, self.cells@[i as int].domain@.take(k as int)),
            decreases n - k,
        {
            proof {
                let dom = self.cells@[i as int].domain@;
                assert(dom.take(k as int + 1).drop_last() =~= dom.take(k as int));
                assert(dom.take(k as int + 1).last() == dom[k as int]);
            }
            let c = self.cells[i].domain[k];
            if self.choice_ok_exec(i, c) {
                r.push(c);
            }
            k = k + 1;
        }
        proof {
            assert(self.cells@[i as int].domain@.take(n as int) =~= self.cells@[i as int].domain@);
        }
        r
    }

    /// The pool the collapse draws from: the compatible candidates when any
    /// exist, the cell's whole current domain otherwise.
    pub open spec fn collapse_pool(self, i: int) -> Seq<Category> {
        let vcs = self.valid_choices_spec(i, self.cells@[i].domain@);
        if vcs.len() > 0 {
            vcs
        } else {
            self.cells@[i].domain@
        }
    }
}

/// How one collapse-and-propagate call relates the grid before (`pre`) to
/// the grid after (`post`): cell `i` collapses to the single category `c`;
/// each unresolved axis-aligned neighbor has its domain filtered against `c`
/// — or reset to the full category set when filtering would empty it — and
/// every other cell is untouched.
pub open spec fn collapse_rel(pre: Grid, post: Grid, i: int, c: Category) -> bool {
    &&& post.width == pre.width
    &&& post.height == pre.height
    &&& post.cells@.len() == pre.cells@.len()
    &&& 0 <= i < pre.cells@.len()
    &&& post.cells@[i].x == pre.cells@[i].x
    &&& post.cells@[i].y == pre.cells@[i].y
    &&& post.cells@[i].resolved
    &&& post.cells@[i].domain@ == seq![c]
    &&& forall|j: int|
        0 <= j < pre.cells@.len() && j != i ==> {
            let pc = #[trigger] pre.cells@[j];
            let qc = post.cells@[j];
            &&& qc.x == pc.x
            &&& qc.y == pc.y
            &&& qc.resolved == pc.resolved
            &&& if !pc.resolved && direction_between(
                pre.cells@[i].x as int,
                pre.cells@[i].y as int,
                pc.x as int,
                pc.y as int,
            ) is Some {
                qc.domain@ == propagated_domain(pc.domain@, c)
            } else {
                qc == pc
            }
        }
}

impl Grid {
    /// Narrows the domain of the neighbor one step in direction `d` from
    /// `(x, y)`, if that neighbor exists and is unresolved: the domain keeps
    /// the categories that may stand beside `choice`, or returns to the full
    /// category set when none may. No other cell changes.
    fn propagate_one(&mut self, x: usize, y: usize, choice: Category, d: Direction)
        requires
            old(self).wf(),
            x < old(self).width,
            y < old(self).height,
            all_categories().contains(choice),
        ensures
            final(self).wf(),
            final(self).width == old(self).width,
            final(self).height == old(self).height,
            final(self).cells@.len() == old(self).cells@.len(),
            !old(self).in_bounds(nb_x(x as int, d), nb_y(y as int, d)) ==> *final(self) == *old(
                self,
            ),
            old(self).in_bounds(nb_x(x as int, d), nb_y(y as int, d)) ==> {
                let t = old(self).idx(nb_x(x as int, d), nb_y(y as int, d));
                &&& forall|j: int|
                    0 <= j < old(self).cells@.len() && j != t ==> final(self).cells@[j] == old(
                        self,
                    ).cells@[j]
                &&& (old(self).cells@[t].resolved ==> final(self).cells@[t] == old(self).cells@[t])
                &&& (!old(self).cells@[t].resolved ==> {
                    let pc = old(self).cells@[t];
                    let qc = final(self).cells@[t];
                    &&& qc.x == pc.x
                    &&& qc.y == pc.y
                    &&& qc.resolved == pc.resolved
                    &&& qc.domain@ == propagated_domain(pc.domain@, choice)
                })
            },
    {
        let (nb_exists, nx, ny): (bool, usize, usize) = match d {
            Direction::Up => if y + 1 < self.height {
                (true, x, y + 1)
            } else {
                (false, 0, 0)
            },
            Direction::Down => if y > 0 {
                (true, x, y - 1)
            } else {
                (false, 0, 0)
            },
            Direction::Right => if x + 1 < self.width {
                (true, x + 1, y)
            } else {
                (false, 0, 0)
            },
            Direction::Left => if x > 0 {
                (true, x - 1, y)
            } else {
                (false, 0, 0)
            },
        };
        if !nb_exists {
            return ;
        }
        let t = self.index_of(nx, ny);
        if self.cells[t].resolved {
            return ;
        }
        let filtered = filter_domain(&self.cells[t].domain, choice, d);
        let new_dom = if filtered.len() == 0 {
            full_domain()
        } else {
            filtered
        };
        let cx = self.cells[t].x;
        let cy = self.cells[t].y;
        proof {
            let dom = self.cells@[t as int].domain@;
            lemma_filter_allowed_props(dom, choice);
            lemma_all_categories();
            assert forall|k: int| 0 <= k < new_dom@.len() implies all_categories().contains(
                #[trigger] new_dom@[k],
            ) by {
                if filter_allowed(dom, choice).len() > 0 {
                    assert(dom.contains(new_dom@[k]));
                    let m = choose|m: int| 0 <= m < dom.len() && dom[m] == new_dom@[k];
                    assert(all_categories().contains(dom[m]));
                }
            }
        }
        let new_cell = Cell { x: cx, y: cy, domain: new_dom, resolved: false };
        self.cells.set(t, new_cell);
    }

    /// Collapses cell `i` to `choice` — its domain becomes that single
    /// category and it is marked resolved — then propagates the constraint
    /// to each of its existing unresolved axis-aligned neighbors.
    pub fn collapse_and_propagate(&mut self, i: usize, choice: Category)
        requires
            old(self).wf(),
            i < old(self).cells@.len(),
            !old(self).cells@[i as int].resolved,
            old(self).cells@[i as int].domain@.contains(choice),
        ensures
            final(self).wf(),
            collapse_rel(*old(self), *final(self), i as int, choice),
            final(self).count_resolved() == old(self).count_resolved() + 1,
    {
        proof {
            lemma_all_categories();
            let dom = old(self).cells@[i as int].domain@;
            let m = choose|m: int| 0 <= m < dom.len() && dom[m] == choice;
            assert(all_categories().contains(dom[m]));
            self.lemma_cell_coords(i as int);
        }
        let x = self.cells[i].x;
        let y = self.cells[i].y;
        let mut single: Vec<Category> = Vec::new();
        single.push(choice);
        proof {
            assert(single@ =~= seq![choice]);
        }
        let new_cell = Cell { x, y, domain: single, resolved: true };
        self.cells.set(i, new_cell);
        let ghost pre = *old(self);
        let ghost g1 = *self;
        proof {
            assert(g1.wf());
        }
        self.propagate_one(x, y, choice, Direction::Up);
        let ghost g2 = *self;
        self.propagate_one(x, y, choice, Direction::Down);
        let ghost g3 = *self;
        self.propagate_one(x, y, choice, Direction::Left);
        let ghost g4 = *self;
        self.propagate_one(x, y, choice, Direction::Right);
        proof {
            let post = *self;
            let n = pre.cells@.len() as int;
            let xi = pre.cells@[i as int].x as int;
            let yi = pre.cells@[i as int].y as int;
            // Name the four propagation targets, where they exist, and learn
            // each target cell's coordinates in each intermediate state.
            if g1.in_bounds(nb_x(xi, Direction::Up), nb_y(yi, Direction::Up)) {
                g1.lemma_idx(nb_x(xi, Direction::Up), nb_y(yi, Direction::Up));
                g2.lemma_idx(nb_x(xi, Direction::Up), nb_y(yi, Direction::Up));
                g3.lemma_idx(nb_x(xi, Direction::Up), nb_y(yi, Direction::Up));
                g4.lemma_idx(nb_x(xi, Direction::Up), nb_y(yi, Direction::Up));
            }
            if g1.in_bounds(nb_x(xi, Direction::Down), nb_y(yi, Direction::Down)) {
                g1.lemma_idx(nb_x(xi, Direction::Down), nb_y(yi, Direction::Down));
                g2.lemma_idx(nb_x(xi, Direction::Down), nb_y(yi, Direction::Down));
                g3.lemma_idx(nb_x(xi, Direction::Down), nb_y(yi, Direction::Down));
                g4.lemma_idx(nb_x(xi, Direction::Down), nb_y(yi, Direction::Down));
            }
            if g1.in_bounds(nb_x(xi, Direction::Left), nb_y(yi, Direction::Left)) {
                g1.lemma_idx(nb_x(xi, Direction::Left), nb_y(yi, Direction::Left));
                g2.lemma_idx(nb_x(xi, Direction::Left), nb_y(yi, Direction::Left));
                g3.lemma_idx(nb_x(xi, Direction::Left), nb_y(yi, Direction::Left));
                g4.lemma_idx(nb_x(xi, Direction::Left), nb_y(yi, Direction::Left));
            }
            if g1.in_bounds(nb_x(xi, Direction::Right), nb_y(yi, Direction::Right)) {
                g1.lemma_idx(nb_x(xi, Direction::Right), nb_y(yi, Direction::Right));
                g2.lemma_idx(nb_x(xi, Direction::Right), nb_y(yi, Direction::Right));
                g3.lemma_idx(nb_x(xi, Direction::Right), nb_y(yi, Direction::Right));
                g4.lemma_idx(nb_x(xi, Direction::Right), nb_y(yi, Direction::Right));
            }
            // Cell `i` itself is no propagation target: every target records
            // a neighbor coordinate, which differs from `(xi, yi)`.
            assert(post.cells@[i as int] == g1.cells@[i as int]);
            assert(post.cells@[i as int].domain@ == seq![choice]);
            assert forall|j: int| 0 <= j < n && j != i implies {
                let pc = #[trigger] pre.cells@[j];
                let qc = post.cells@[j];
                &&& qc.x == pc.x
                &&& qc.y == pc.y
                &&& qc.resolved == pc.resolved
                &&& if !pc.resolved && direction_between(xi, yi, pc.x as int, pc.y as int) is Some {
                    qc.domain@ == propagated_domain(pc.domain@, choice)
                } else {
                    qc == pc
                }
            } by {
                let pc = pre.cells@[j];
                let xj = pc.x as int;
                let yj = pc.y as int;
                pre.lemma_cell_coords(j);
                lemma_direction_neighbor(xi, yi, xj, yj);
                assert(g1.cells@[j] == pre.cells@[j]);
                match direction_between(xi, yi, xj, yj) {
                    Some(d) => {
                        assert(xj == nb_x(xi, d) && yj == nb_y(yi, d));
                        assert(g1.in_bounds(nb_x(xi, d), nb_y(yi, d)));
                        assert(g1.idx(nb_x(xi, d), nb_y(yi, d)) == j) by {
                            g1.lemma_cell_coords(j);
                        }
                    },
                    None => {},
                }
            }
            assert(collapse_rel(pre, post, i as int, choice));
            lemma_count_flip(pre.cells@, post.cells@, i as int, n);
        }
    }

    /// While the grid is not fully resolved some cell is still eligible, and
    /// conversely: a well-formed grid has no empty domain, so every
    /// unresolved cell can be selected. Together with `step`'s contract this
    /// pins the number of steps to full resolution at exactly the number of
    /// unresolved cells.
    pub proof fn lemma_eligible_iff_unresolved(self)
        requires
            self.wf(),
        ensures
            self.has_eligible() <==> self.count_resolved() < self.cells@.len(),
    {
        let n = self.cells@.len() as int;
        lemma_count_bounds(self.cells@, n);
        lemma_count_all(self.cells@, n);
        if self.has_eligible() {
            let i = choose|i: int| self.eligible(i);
            assert(!self.cells@[i].resolved);
        } else {
            if self.count_resolved() < n {
                let j = choose|j: int| 0 <= j < n && !(#[trigger] self.cells@[j]).resolved;
                assert(self.cells@[j].wf());
                assert(self.eligible(j));
                assert(false);
            }
        }
    }

    /// One solver step: select the first minimum-entropy unresolved cell,
    /// collapse it to a uniformly random category drawn from its
    /// constraint-filtered candidates — or from its whole domain when no
    /// candidate is compatible — and propagate the choice to the cell's
    /// axis-aligned neighbors. Once no cell is left to collapse the call is
    /// a no-op.
    pub fn step(&mut self)
        requires
            old(self).wf(),
        ensures
            final(self).wf(),
            final(self).width == old(self).width,
            final(self).height == old(self).height,
            final(self).cells@.len() == old(self).cells@.len(),
            !old(self).has_eligible() ==> *final(self) == *old(self),
            old(self).has_eligible() ==> exists|i: int, c: Category|
                old(self).is_selected(i) && #[trigger] old(self).collapse_pool(i).contains(c)
                    && collapse_rel(*old(self), *final(self), i, c),
            forall|j: int|
                0 <= j < old(self).cells@.len() && (#[trigger] old(self).cells@[j]).resolved ==>
                    final(self).cells@[j] == old(self).cells@[j],
            final(self).count_resolved() == old(self).count_resolved() + if old(
                self,
            ).has_eligible() {
                1int
            } else {
                0int
            },
    {
        match self.select_cell() {
            None => {},
            Some(i) => {
                proof {
                    assert(self.eligible(i as int));
                }
                let vcs = self.valid_choices(i);
                let ghost pool = self.collapse_pool(i as int);
                let choice: Category;
                if vcs.len() > 0 {
                    let r = random_index(vcs.len());
                    choice = vcs[r];
                    proof {
                        assert(pool[r as int] == choice);
                        self.lemma_valid_choices_subset(i as int, self.cells@[i as int].domain@);
                        assert(self.cells@[i as int].domain@.contains(choice));
                    }
                } else {
                    let r = random_index(self.cells[i].domain.len());
                    choice = self.cells[i].domain[r];
                    proof {
                        assert(pool[r as int] == choice);
                        assert(self.cells@[i as int].domain@.contains(choice)) by {
                            assert(self.cells@[i as int].domain@[r as int] == choice);
                        }
                    }
                }
                proof {
                    assert(pool.contains(choice));
                }
                self.collapse_and_propagate(i, choice);
                proof {
                    assert(old(self).is_selected(i as int) && old(self).collapse_pool(
                        i as int,
                    ).contains(choice) && collapse_rel(*old(self), *self, i as int, choice));
                    assert forall|j: int|
                        0 <= j < old(self).cells@.len() && (#[trigger] old(
                            self,
                        ).cells@[j]).resolved implies self.cells@[j] == old(self).cells@[j] by {
                        assert(j != i as int);
                    }
                }
            },
        }
    }

    /// Runs solver steps until every cell is resolved, and returns how many
    /// that took: always exactly the number of cells that were unresolved at
    /// the start, so a freshly created grid resolves in exactly
    /// `width * height` steps, never more.
    pub fn run_to_completion(&mut self) -> (steps: usize)
        requires
            old(self).wf(),
        ensures
            final(self).wf(),
            final(self).width == old(self).width,
            final(self).height == old(self).height,
            final(self).cells@.len() == old(self).cells@.len(),
            final(self).count_resolved() == final(self).cells@.len(),
            steps == old(self).cells@.len() - old(self).count_resolved(),
    {
        let n = self.cells.len();
        let mut steps: usize = 0;
        proof {
            lemma_count_bounds(self.cells@, n as int);
        }
        while !self.fully_resolved()
            invariant
                self.wf(),
                self.width == old(self).width,
                self.height == old(self).height,
                self.cells@.len() == old(self).cells@.len(),
                n == self.cells@.len(),
                0 <= self.count_resolved() <= n,
                0 <= old(self).count_resolved(),
                steps == self.count_resolved() - old(self).count_resolved(),
            decreases n - self.count_resolved(),
        {
            proof {
                self.lemma_eligible_iff_unresolved();
            }
            self.step();
            steps = steps + 1;
            proof {
                lemma_count_bounds(self.cells@, n as int);
            }
        }
        steps
    }
}

/// Relies on rand::random_range: a uniform sample from `0..n` lies in that
/// range; the range is non-empty since `n > 0`.
#[verifier::external_body]
fn random_index(n: usize) -> (r: usize)
    requires
        n > 0,
    ensures
        r < n,
{
    rand::random_range(0..n)
}

} // verus!
