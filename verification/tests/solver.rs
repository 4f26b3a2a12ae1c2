use wfc_grid::category::{allowed, Category, Direction};
use wfc_grid::category::Category::{Grass, Sand, Water};
use wfc_grid::grid::{create_grid, neighbor_direction, Cell, Grid, GridError};

fn full_set() -> Vec<Category> {
    vec![Category::Sand, Category::Water, Category::Grass]
}

fn snapshot(g: &Grid) -> Vec<(usize, usize, Vec<Category>, bool)> {
    g.cells
        .iter()
        .map(|c| (c.x, c.y, c.domain.clone(), c.resolved))
        .collect()
}

fn is_neighbor(x1: usize, y1: usize, x2: usize, y2: usize) -> bool {
    neighbor_direction(x1, y1, x2, y2).is_some()
}

#[test]
fn adjacency_predicate_all_pairs() {
    let d = Direction::Up;
    assert!(allowed(Sand, Sand, d));
    assert!(allowed(Sand, Water, d));
    assert!(allowed(Sand, Grass, d));
    assert!(allowed(Water, Sand, d));
    assert!(allowed(Water, Water, d));
    assert!(!allowed(Water, Grass, d));
    assert!(allowed(Grass, Sand, d));
    assert!(!allowed(Grass, Water, d));
    assert!(allowed(Grass, Grass, d));
}

#[test]
fn direction_is_ignored_by_the_rules() {
    for d in [Direction::Up, Direction::Down, Direction::Left, Direction::Right] {
        assert!(!allowed(Category::Water, Category::Grass, d));
        assert!(allowed(Category::Sand, Category::Grass, d));
    }
}

#[test]
fn neighbor_direction_cases() {
    assert_eq!(neighbor_direction(1, 1, 1, 2), Some(Direction::Up));
    assert_eq!(neighbor_direction(1, 1, 1, 0), Some(Direction::Down));
    assert_eq!(neighbor_direction(1, 1, 2, 1), Some(Direction::Right));
    assert_eq!(neighbor_direction(1, 1, 0, 1), Some(Direction::Left));
    assert_eq!(neighbor_direction(1, 1, 1, 1), None);
    assert_eq!(neighbor_direction(1, 1, 2, 2), None);
    assert_eq!(neighbor_direction(0, 0, 3, 0), None);
}

#[test]
fn create_grid_is_fresh() {
    let g = create_grid(3, 2).unwrap();
    assert_eq!(g.width, 3);
    assert_eq!(g.height, 2);
    assert_eq!(g.cells.len(), 6);
    for (i, cell) in g.cells.iter().enumerate() {
        assert_eq!(cell.x, i % 3);
        assert_eq!(cell.y, i / 3);
        assert!(!cell.resolved);
        assert_eq!(cell.domain, full_set());
    }
    assert!(!g.fully_resolved());
}

#[test]
fn create_grid_rejects_zero_dimension() {
    assert_eq!(create_grid(0, 5).unwrap_err(), GridError::ZeroDimension);
    assert_eq!(create_grid(5, 0).unwrap_err(), GridError::ZeroDimension);
    assert_eq!(create_grid(0, 0).unwrap_err(), GridError::ZeroDimension);
}

#[test]
fn create_grid_rejects_overflowing_cell_count() {
    assert_eq!(create_grid(usize::MAX, 2).unwrap_err(), GridError::TooLarge);
    assert_eq!(create_grid(2, usize::MAX).unwrap_err(), GridError::TooLarge);
}

#[test]
fn termination_exact_steps() {
    let mut g = create_grid(4, 3).unwrap();
    let steps = g.run_to_completion();
    assert_eq!(steps, 12);
    assert!(g.fully_resolved());
    for cell in &g.cells {
        assert!(cell.resolved);
        assert_eq!(cell.domain.len(), 1);
    }
    // Once resolved, further steps are no-ops.
    let before = snapshot(&g);
    g.step();
    g.step();
    assert_eq!(snapshot(&g), before);
}

#[test]
fn single_collapse_and_monotonic_resolution() {
    let mut g = create_grid(3, 3).unwrap();
    let mut resolved: Vec<Option<Category>> = vec![None; 9];
    for round in 0..9 {
        let before = snapshot(&g);
        g.step();
        let mut flips = 0;
        for i in 0..9 {
            if !before[i].3 && g.cells[i].resolved {
                flips += 1;
                resolved[i] = Some(g.cells[i].domain[0]);
            }
        }
        assert_eq!(flips, 1, "round {round} collapsed more than one cell");
        // Every cell resolved in an earlier round keeps its flag and category.
        for i in 0..9 {
            if before[i].3 {
                assert!(g.cells[i].resolved);
                assert_eq!(g.cells[i].domain, before[i].2);
            }
        }
    }
    assert!(g.fully_resolved());
}

#[test]
fn domain_non_growth_except_reset() {
    let mut g = create_grid(4, 4).unwrap();
    for _ in 0..16 {
        let before = snapshot(&g);
        g.step();
        for i in 0..16 {
            if !before[i].3 && !g.cells[i].resolved {
                let grew = g.cells[i].domain.len() > before[i].2.len();
                if grew {
                    assert_eq!(g.cells[i].domain, full_set());
                }
            }
        }
    }
}

#[test]
fn neighbor_only_propagation() {
    let mut g = create_grid(4, 4).unwrap();
    for _ in 0..16 {
        let before = snapshot(&g);
        g.step();
        // Find the cell that collapsed this step.
        let mut collapsed: Option<usize> = None;
        for i in 0..16 {
            if !before[i].3 && g.cells[i].resolved {
                collapsed = Some(i);
            }
        }
        let ci = collapsed.expect("a step before full resolution collapses a cell");
        let (cx, cy) = (g.cells[ci].x, g.cells[ci].y);
        for i in 0..16 {
            if i != ci && !is_neighbor(cx, cy, before[i].0, before[i].1) {
                assert_eq!(g.cells[i].domain, before[i].2);
                assert_eq!(g.cells[i].resolved, before[i].3);
            }
        }
    }
}

#[test]
fn adjacency_example_water_removes_grass() {
    // Collapsing a cell to Water strips Grass from each neighbor's domain
    // while Sand and Water remain.
    let mut g = create_grid(2, 2).unwrap();
    g.collapse_and_propagate(0, Category::Water);
    assert!(g.cells[0].resolved);
    assert_eq!(g.cells[0].domain, vec![Category::Water]);
    // (1, 0) and (0, 1) are neighbors of (0, 0); (1, 1) is not.
    assert_eq!(g.domain_snapshot(1, 0), vec![Category::Sand, Category::Water]);
    assert_eq!(g.domain_snapshot(0, 1), vec![Category::Sand, Category::Water]);
    assert_eq!(g.domain_snapshot(1, 1), full_set());
}

#[test]
fn valid_choices_respects_neighbor_domains() {
    let mut g = create_grid(1, 2).unwrap();
    // The only neighbor of (0, 0) can now be Grass alone, so Water is no
    // longer a valid choice there; Sand and Grass still are.
    g.cells[1] = Cell { x: 0, y: 1, domain: vec![Category::Grass], resolved: false };
    let choices = g.valid_choices(0);
    assert_eq!(choices, vec![Category::Sand, Category::Grass]);
}

#[test]
fn select_cell_prefers_smallest_domain_first_index() {
    let mut g = create_grid(2, 2).unwrap();
    g.cells[2] = Cell {
        x: 0,
        y: 1,
        domain: vec![Category::Sand, Category::Water],
        resolved: false,
    };
    assert_eq!(g.select_cell(), Some(2));
    // A tie on domain size goes to the earlier index.
    g.cells[1] = Cell {
        x: 1,
        y: 0,
        domain: vec![Category::Sand, Category::Grass],
        resolved: false,
    };
    assert_eq!(g.select_cell(), Some(1));
    // Resolved cells and empty domains are never selected.
    let mut done = create_grid(1, 1).unwrap();
    done.run_to_completion();
    assert_eq!(done.select_cell(), None);
}

#[test]
fn reset_scenario() {
    let mut g = create_grid(2, 2).unwrap();
    let steps = g.run_to_completion();
    assert_eq!(steps, 4);
    assert!(g.fully_resolved());
    g.reset();
    assert_eq!(g.width, 2);
    assert_eq!(g.height, 2);
    assert_eq!(g.cells.len(), 4);
    for cell in &g.cells {
        assert!(!cell.resolved);
        assert_eq!(cell.domain, full_set());
    }
}

#[test]
fn fallback_scenario() {
    // A 1x3 strip whose middle cell can only be Water while both neighbors
    // are already Grass: no choice passes the filter, yet the middle cell
    // still collapses, to a category from its pre-filter domain.
    let mut g = create_grid(3, 1).unwrap();
    g.cells[0] = Cell { x: 0, y: 0, domain: vec![Category::Grass], resolved: true };
    g.cells[1] = Cell { x: 1, y: 0, domain: vec![Category::Water], resolved: false };
    g.cells[2] = Cell { x: 2, y: 0, domain: vec![Category::Grass], resolved: true };
    assert_eq!(g.valid_choices(1), Vec::<Category>::new());
    g.step();
    assert!(g.cells[1].resolved);
    assert_eq!(g.cells[1].domain, vec![Category::Water]);
    // The resolved neighbors were not touched.
    assert_eq!(g.cells[0].domain, vec![Category::Grass]);
    assert_eq!(g.cells[2].domain, vec![Category::Grass]);
}

#[test]
fn step_on_single_cell_draws_from_full_domain() {
    let mut g = create_grid(1, 1).unwrap();
    g.step();
    assert!(g.cells[0].resolved);
    assert_eq!(g.cells[0].domain.len(), 1);
    assert!(full_set().contains(&g.cells[0].domain[0]));
}

#[test]
fn resolved_category_getter() {
    let mut g = create_grid(2, 1).unwrap();
    assert_eq!(g.resolved_category(0, 0), None);
    assert_eq!(g.resolved_category(1, 0), None);
    g.collapse_and_propagate(0, Category::Grass);
    assert_eq!(g.resolved_category(0, 0), Some(Category::Grass));
    assert_eq!(g.resolved_category(1, 0), None);
    // Propagation from Grass keeps Sand and Grass in the neighbor's domain.
    assert_eq!(g.domain_snapshot(1, 0), vec![Category::Sand, Category::Grass]);
}

#[test]
fn propagation_reset_refills_empty_domain() {
    // The middle cell's unresolved neighbor can only be Grass; collapsing
    // the middle to Water would empty that neighbor's domain, so the reset
    // rule refills it with the full category set.
    let mut g = create_grid(2, 1).unwrap();
    g.cells[1] = Cell { x: 1, y: 0, domain: vec![Category::Grass], resolved: false };
    g.collapse_and_propagate(0, Category::Water);
    assert_eq!(g.cells[1].domain, full_set());
    assert!(!g.cells[1].resolved);
}
