use life_grid::grid::{apply_rule, Canvas, ALIVE, DEAD};
use life_grid::sim::{Model, GRID_HEIGHT, GRID_WIDTH, UPDATE_INTERVAL_MS};

/// A grid with the listed cells alive and all others dead.
fn pattern(width: usize, height: usize, alive: &[(usize, usize)]) -> Canvas {
    let mut bytes = vec![0u8; width * height];
    for &(x, y) in alive {
        bytes[y * width + x] = 1;
    }
    Canvas::from_bytes(width, height, &bytes)
}

fn alive_cells(c: &Canvas) -> Vec<(usize, usize)> {
    c.iter_elements()
        .into_iter()
        .filter(|(_, v)| *v == ALIVE)
        .map(|(p, _)| p)
        .collect()
}

#[test]
fn wrap_around_horizontal() {
    let c = pattern(4, 3, &[(3, 0), (0, 1), (3, 2)]);
    for y in 0..3isize {
        assert_eq!(c.get_value(-1, y), c.get_value(3, y));
        assert_eq!(c.get_value(4, y), c.get_value(0, y));
    }
    assert_eq!(c.get_value(-1, 0), ALIVE);
    assert_eq!(c.get_value(4, 1), ALIVE);
    assert_eq!(c.get_value(-5, 0), ALIVE);
    assert_eq!(c.get_value(-8, 1), ALIVE);
    assert_eq!(c.get_value(-9, 1), DEAD);
    assert_eq!(c.get_value(8, 1), ALIVE);
}

#[test]
fn wrap_around_vertical() {
    let c = pattern(3, 4, &[(0, 3), (1, 0), (2, 3)]);
    for x in 0..3isize {
        assert_eq!(c.get_value(x, -1), c.get_value(x, 3));
        assert_eq!(c.get_value(x, 4), c.get_value(x, 0));
    }
    assert_eq!(c.get_value(0, -1), ALIVE);
    assert_eq!(c.get_value(1, 4), ALIVE);
    assert_eq!(c.get_value(1, -8), ALIVE);
    assert_eq!(c.get_value(2, -1), ALIVE);
}

#[test]
fn neighbor_sum_bounds() {
    let full = Canvas::from_bytes(3, 3, &vec![1u8; 9]);
    for x in 0..3 {
        for y in 0..3 {
            assert_eq!(full.get_neighbors(x, y), 8);
        }
    }
    let none = Canvas::empty(5, 5);
    assert_eq!(none.get_neighbors(2, 2), 0);
    let c = pattern(5, 5, &[(1, 1), (2, 1), (3, 3), (2, 2)]);
    assert_eq!(c.get_neighbors(2, 2), 3);
    assert_eq!(c.get_neighbors(0, 0), 1);
    assert_eq!(c.get_neighbors(4, 4), 1);
    assert_eq!(c.get_neighbors(2, 1), 2);
}

#[test]
fn neighbor_sum_wraps_at_corner() {
    let c = pattern(5, 5, &[(4, 4), (0, 4), (4, 0)]);
    assert_eq!(c.get_neighbors(0, 0), 3);
}

#[test]
fn rule_table() {
    assert_eq!(apply_rule(ALIVE, 0), DEAD);
    assert_eq!(apply_rule(DEAD, 3), ALIVE);
    assert_eq!(apply_rule(ALIVE, 3), ALIVE);
    assert_eq!(apply_rule(ALIVE, 2), ALIVE);
    assert_eq!(apply_rule(ALIVE, 1), DEAD);
    assert_eq!(apply_rule(DEAD, 2), DEAD);
    for n in 4..=8 {
        assert_eq!(apply_rule(ALIVE, n), DEAD);
        assert_eq!(apply_rule(DEAD, n), DEAD);
    }
}

#[test]
fn rule_table_on_grid() {
    // a lone live cell dies
    let lone = pattern(5, 5, &[(2, 2)]);
    assert_eq!(lone.next_generation().get_value(2, 2), DEAD);
    // a dead cell with three live neighbours is born
    let birth = pattern(5, 5, &[(1, 1), (2, 1), (3, 1)]);
    assert_eq!(birth.get_neighbors(2, 2), 3);
    assert_eq!(birth.next_generation().get_value(2, 2), ALIVE);
    // a live cell with two live neighbours survives
    let two = pattern(5, 5, &[(1, 1), (2, 2), (3, 3)]);
    assert_eq!(two.next_generation().get_value(2, 2), ALIVE);
    // a live cell with one live neighbour dies
    let one = pattern(5, 5, &[(1, 1), (2, 2)]);
    assert_eq!(one.next_generation().get_value(2, 2), DEAD);
    // a dead cell with two live neighbours stays dead
    let dead_two = pattern(5, 5, &[(1, 1), (3, 3)]);
    assert_eq!(dead_two.next_generation().get_value(2, 2), DEAD);
}

#[test]
fn block_is_still_life() {
    let block = [(2, 2), (3, 2), (2, 3), (3, 3)];
    let c = pattern(6, 6, &block);
    for &(x, y) in &block {
        assert_eq!(c.get_neighbors(x, y), 3);
    }
    let next = c.next_generation();
    assert_eq!(next.iter_elements(), c.iter_elements());
    assert_eq!(alive_cells(&next), vec![(2, 2), (2, 3), (3, 2), (3, 3)]);
}

#[test]
fn blinker_oscillates() {
    let horizontal = pattern(5, 5, &[(1, 2), (2, 2), (3, 2)]);
    let vertical = horizontal.next_generation();
    assert_eq!(alive_cells(&vertical), vec![(2, 1), (2, 2), (2, 3)]);
    let back = vertical.next_generation();
    assert_eq!(back.iter_elements(), horizontal.iter_elements());
}

#[test]
fn step_independent_of_visit_order() {
    let c = pattern(
        7,
        6,
        &[(0, 0), (1, 0), (2, 1), (5, 5), (6, 5), (3, 3), (3, 4), (4, 3), (1, 4)],
    );
    let next = c.next_generation();
    // recompute against the same snapshot, visiting cells in reverse order
    let mut reversed = vec![0u8; 7 * 6];
    for y in (0..6).rev() {
        for x in (0..7).rev() {
            reversed[y * 7 + x] =
                apply_rule(c.get_value(x as isize, y as isize), c.get_neighbors(x, y));
        }
    }
    let expected = Canvas::from_bytes(7, 6, &reversed);
    assert_eq!(next.iter_elements(), expected.iter_elements());
}

#[test]
fn timer_gates_steps() {
    let horizontal = pattern(5, 5, &[(1, 2), (2, 2), (3, 2)]);
    let mut m = Model::from_canvas(horizontal, 100);
    assert!(!m.update(50));
    assert_eq!(alive_cells(&m.screen), vec![(1, 2), (2, 2), (3, 2)]);
    assert!(m.update(120));
    assert_eq!(m.t, 120);
    assert_eq!(alive_cells(&m.screen), vec![(2, 1), (2, 2), (2, 3)]);
    assert!(!m.update(120));
    assert!(!m.update(220));
    assert_eq!(alive_cells(&m.screen), vec![(2, 1), (2, 2), (2, 3)]);
    assert!(m.update(221));
    assert_eq!(m.t, 221);
    assert_eq!(alive_cells(&m.screen), vec![(1, 2), (2, 2), (3, 2)]);
}

#[test]
fn several_intervals_collapse_into_one_step() {
    let horizontal = pattern(5, 5, &[(1, 2), (2, 2), (3, 2)]);
    let mut m = Model::from_canvas(horizontal, 100);
    assert!(m.update(1000));
    assert_eq!(alive_cells(&m.screen), vec![(2, 1), (2, 2), (2, 3)]);
    assert!(!m.update(1050));
}

#[test]
fn from_bytes_keeps_parity() {
    let c = Canvas::from_bytes(2, 2, &vec![7, 8, 255, 0]);
    assert_eq!(c.get_value(0, 0), ALIVE);
    assert_eq!(c.get_value(1, 0), DEAD);
    assert_eq!(c.get_value(0, 1), ALIVE);
    assert_eq!(c.get_value(1, 1), DEAD);
}

#[test]
fn empty_grid_is_dead_and_stays_dead() {
    let c = Canvas::empty(4, 3);
    assert_eq!(c.width(), 4);
    assert_eq!(c.height(), 3);
    assert!(alive_cells(&c).is_empty());
    assert!(alive_cells(&c.next_generation()).is_empty());
}

#[test]
fn random_grid_has_binary_cells() {
    let c = Canvas::new(60, 40);
    assert_eq!((c.width(), c.height()), (60, 40));
    let cells = c.iter_elements();
    assert_eq!(cells.len(), 2400);
    assert!(cells.iter().all(|(_, v)| *v == DEAD || *v == ALIVE));
}

#[test]
fn default_model() {
    let m = Model::new();
    assert_eq!(m.screen.width(), GRID_WIDTH);
    assert_eq!(m.screen.height(), GRID_HEIGHT);
    assert_eq!(m.t, 0);
    assert_eq!(m.interval, UPDATE_INTERVAL_MS);
    assert_eq!((GRID_WIDTH, GRID_HEIGHT, UPDATE_INTERVAL_MS), (60, 40, 100));
}

#[test]
fn iter_elements_lists_x_outer() {
    let c = pattern(3, 2, &[(1, 0), (2, 1)]);
    assert_eq!(
        c.iter_elements(),
        vec![
            ((0, 0), 0),
            ((0, 1), 0),
            ((1, 0), 1),
            ((1, 1), 0),
            ((2, 0), 0),
            ((2, 1), 1)
        ]
    );
}
