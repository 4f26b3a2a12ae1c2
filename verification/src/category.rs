//! The fixed set of tile categories, the four grid directions, and the
//! adjacency predicate between categories.

use vstd::prelude::*;

verus! {

/// One tile category a cell may ultimately take.
#[derive(Clone, Copy, Debug, PartialEq, Eq, Structural)]
pub enum Category {
    Sand,
    Water,
    Grass,
}

/// One of the four axis-aligned grid directions. `Up` is toward larger `y`.
#[derive(Clone, Copy, Debug, PartialEq, Eq, Structural)]
pub enum Direction {
    Up,
    Down,
    Left,
    Right,
}

/// The full category set, in the order a freshly created cell's domain holds it.
pub open spec fn all_categories() -> Seq<Category> {
    seq![Category::Sand, Category::Water, Category::Grass]
}

/// Whether category `a` may stand adjacent to category `b`: water only beside
/// water or sand, grass only beside grass or sand, sand beside anything.
/// The rule set is symmetric and direction-independent.
pub open spec fn allowed_spec(a: Category, b: Category) -> bool {
    match a {
        Category::Water => b == Category::Water || b == Category::Sand,
        Category::Sand => true,
        Category::Grass => b == Category::Grass || b == Category::Sand,
    }
}

/// The adjacency predicate: may `a` be placed next to `b`, with `b` lying in
/// direction `dir` from `a`? The direction parameter is accepted so that
/// directional rule sets stay expressible, but the current rules ignore it.
pub fn allowed(a: Category, b: Category, dir: Direction) -> (r: bool)
    ensures
        r == allowed_spec(a, b),
{
    let _ = dir;
    match a {
        Category::Water => matches!(b, Category::Water | Category::Sand),
        Category::Sand => true,
        Category::Grass => matches!(b, Category::Grass | Category::Sand),
    }
}

/// The category set holds three pairwise distinct elements, one for every
/// category there is.
pub proof fn lemma_all_categories()
    ensures
        all_categories().len() == 3,
        all_categories().no_duplicates(),
        forall|c: Category| all_categories().contains(c),
{
    assert(all_categories()[0] == Category::Sand);
    assert(all_categories()[1] == Category::Water);
    assert(all_categories()[2] == Category::Grass);
    assert forall|c: Category| all_categories().contains(c) by {
        match c {
            Category::Sand => assert(all_categories()[0] == c),
            Category::Water => assert(all_categories()[1] == c),
            Category::Grass => assert(all_categories()[2] == c),
        }
    }
}

/// A vector holding every category exactly once, the fresh domain of an
/// unresolved cell.
pub fn full_domain() -> (r: Vec<Category>)
    ensures
        r@ == all_categories(),
{
    let mut v: Vec<Category> = Vec::new();
    v.push(Category::Sand);
    v.push(Category::Water);
    v.push(Category::Grass);
    proof {
        assert(v@ =~= all_categories());
    }
    v
}

} // verus!
