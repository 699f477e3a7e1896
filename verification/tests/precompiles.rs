use powdr::precompiles::{block_costs, select_blocks, total_cost, unselected_cost};

fn named(v: &[(&str, u64)]) -> Vec<(String, u64)> {
    v.iter().map(|(n, x)| (n.to_string(), *x)).collect()
}

#[test]
fn blocks_are_ordered_by_cost() {
    let blocks = named(&[("a", 3), ("b", 1), ("c", 2), ("d", 5)]);
    let freqs = named(&[("a", 10), ("c", 15), ("d", 0)]);
    let costs = block_costs(&blocks, &freqs);
    let order: Vec<(&str, u64, u64, u64)> = costs
        .iter()
        .map(|c| (c.name.as_str(), c.size, c.freq, c.cost))
        .collect();
    assert_eq!(
        order,
        vec![("a", 3, 10, 30), ("c", 2, 15, 30), ("b", 1, 0, 0), ("d", 5, 0, 0)]
    );
    let selected = select_blocks(&costs);
    assert_eq!(selected, vec!["a".to_string(), "c".to_string()]);
    assert_eq!(total_cost(&costs), 60);
    assert_eq!(unselected_cost(&costs, &selected), 0);
}

#[test]
fn small_or_cheap_blocks_are_not_selected() {
    let blocks = named(&[("y", 2), ("x", 1), ("z", 4)]);
    let freqs = named(&[("x", 100), ("y", 1), ("z", 1)]);
    let costs = block_costs(&blocks, &freqs);
    let names: Vec<&str> = costs.iter().map(|c| c.name.as_str()).collect();
    assert_eq!(names, vec!["x", "z", "y"]);
    let selected = select_blocks(&costs);
    assert_eq!(selected, vec!["z".to_string()]);
    assert_eq!(total_cost(&costs), 106);
    assert_eq!(unselected_cost(&costs, &selected), 102);
}
