use mbrot_tile::render::Render;

#[test]
fn fresh_grid_is_zero() {
    let g = Render::new(255, 2);
    assert_eq!(g.resolution(), 2);
    assert_eq!(g.depth(), 255);
    assert_eq!(g.len(), 9);
    for y in 0..3 {
        for x in 0..3 {
            assert_eq!(g.actual_point_value(x, y), 0);
        }
    }
}

#[test]
fn record_writes_one_slot() {
    let mut g = Render::new(100, 2);
    // slot of cell (1, 2) in a grid of side 3
    g.record(2 * 3 + 1, 42);
    assert_eq!(g.actual_point_value(1, 2), 42);
    assert_eq!(g.actual_point_value(1, 1), 0);
}

#[test]
fn sample_sum_averages_the_neighborhood() {
    let mut g = Render::new(10, 2);
    g.record(0, 1); // (0, 0)
    g.record(1, 2); // (1, 0)
    g.record(3, 3); // (0, 1)
    g.record(4, 4); // (1, 1)
    assert_eq!(g.sample_sum(0, 0), 10);
    let normalized = g.sample_sum(0, 0) as f64 / (g.depth() as f64 * 4f64);
    assert!(0.0 <= normalized && normalized <= 1.0);
}

#[test]
fn samples_stay_within_the_unit_interval() {
    let depth = 7u32;
    let mut g = Render::new(depth, 2);
    for pos in 0..9 {
        g.record(pos, depth); // every cell at the budget
    }
    for y in 0..2 {
        for x in 0..2 {
            let sum = g.sample_sum(x, y);
            assert_eq!(sum, 4 * depth as u64);
            let normalized = sum as f64 / (depth as f64 * 4f64);
            assert!(0.0 <= normalized && normalized <= 1.0);
        }
    }
}

#[test]
fn population_order_is_irrelevant() {
    // resolution 1: four cells, each unit of work carrying its own slot
    let units = vec![(0usize, 5u32), (1, 6), (2, 7), (3, 8)];
    let mut reversed = units.clone();
    reversed.reverse();

    let mut first = Render::new(10, 1);
    let mut second = Render::new(10, 1);
    first.record_all(&units);
    second.record_all(&reversed);

    for y in 0..2 {
        for x in 0..2 {
            assert_eq!(first.actual_point_value(x, y), second.actual_point_value(x, y));
        }
    }
    assert_eq!(first.actual_point_value(0, 0), 5);
    assert_eq!(first.actual_point_value(1, 1), 8);
}

#[test]
fn later_results_for_a_slot_win() {
    let mut g = Render::new(10, 1);
    g.record_all(&vec![(2usize, 3u32), (2, 9)]);
    assert_eq!(g.actual_point_value(0, 1), 9);
}
