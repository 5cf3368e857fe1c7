use sfc_index::sfc::SpaceFillingCurve;

fn diagonal_items() -> Vec<(Vec<u64>, String)> {
    vec![
        (vec![0, 0, 0], String::from("a")),
        (vec![1, 1, 1], String::from("b")),
        (vec![2, 2, 2], String::from("c")),
    ]
}

#[test]
fn find_exact_on_diagonal() {
    let index = SpaceFillingCurve::new(diagonal_items(), 3, 2);
    let b = String::from("b");
    assert_eq!(index.find(&vec![1, 1, 1]), vec![&b]);
}

#[test]
fn range_covers_lower_diagonal() {
    let index = SpaceFillingCurve::new(diagonal_items(), 3, 2);
    let a = String::from("a");
    let b = String::from("b");
    let found = index.find_range(&vec![0, 0, 0], &vec![1, 1, 1]);
    assert_eq!(found, vec![(vec![0, 0, 0], &a), (vec![1, 1, 1], &b)]);
}

#[test]
fn range_outside_grid_is_empty() {
    let index = SpaceFillingCurve::new(diagonal_items(), 3, 2);
    let found = index.find_range(&vec![3, 3, 3], &vec![4, 4, 4]);
    assert!(found.is_empty());
}

#[test]
fn morton_codes_of_diagonal() {
    // cell identifiers equal the coordinates here, so the codes are the
    // bit-interleavings of (0,0,0), (1,1,1) and (2,2,2).
    let index = SpaceFillingCurve::new(diagonal_items(), 3, 2);
    assert_eq!(index.cell_codes(), vec![0, 7, 56]);
}

#[test]
fn codes_strictly_ascending() {
    let items = vec![
        (vec![2, 0, 1], String::from("p")),
        (vec![0, 1, 2], String::from("q")),
        (vec![1, 2, 0], String::from("r")),
        (vec![2, 2, 2], String::from("s")),
    ];
    let index = SpaceFillingCurve::new(items, 3, 2);
    let codes = index.cell_codes();
    assert_eq!(codes.len(), 4);
    for w in codes.windows(2) {
        assert!(w[0] < w[1]);
    }
}

#[test]
fn empty_input_builds_empty_index() {
    let index = SpaceFillingCurve::<String>::new(Vec::new(), 3, 2);
    assert_eq!(index.num_cells(), 0);
    assert!(index.cell_codes().is_empty());
    assert!(index.find(&vec![0, 0, 0]).is_empty());
    assert!(index.find_range(&vec![0, 0, 0], &vec![1, 1, 1]).is_empty());
    assert!(index.find_by_value(&String::from("a")).is_empty());
}

#[test]
fn duplicate_keys_keep_insertion_order() {
    let items = vec![
        (vec![5, 5, 5], String::from("x")),
        (vec![5, 5, 5], String::from("y")),
    ];
    let index = SpaceFillingCurve::new(items, 3, 2);
    let x = String::from("x");
    let y = String::from("y");
    assert_eq!(index.find(&vec![5, 5, 5]), vec![&x, &y]);
}

#[test]
fn every_indexed_item_is_found() {
    let items = vec![
        (vec![4, 9, 1], String::from("north")),
        (vec![0, 3, 7], String::from("east")),
        (vec![9, 9, 9], String::from("south")),
        (vec![4, 3, 1], String::from("west")),
    ];
    let index = SpaceFillingCurve::new(items.clone(), 3, 4);
    for (key, payload) in &items {
        let found = index.find(key);
        assert!(found.contains(&payload));
    }
}

#[test]
fn nested_range_matches_filtered_range() {
    let index = SpaceFillingCurve::new(diagonal_items(), 3, 2);
    let outer = index.find_range(&vec![0, 0, 0], &vec![2, 2, 2]);
    let filtered: Vec<_> = outer
        .into_iter()
        .filter(|(key, _)| key.iter().all(|&c| 1 <= c && c <= 2))
        .collect();
    let inner = index.find_range(&vec![1, 1, 1], &vec![2, 2, 2]);
    assert_eq!(filtered, inner);
}

#[test]
fn point_range_matches_find() {
    let index = SpaceFillingCurve::new(diagonal_items(), 3, 2);
    let pairs = index.find_range(&vec![1, 1, 1], &vec![1, 1, 1]);
    let fields = index.find(&vec![1, 1, 1]);
    assert_eq!(pairs.len(), fields.len());
    for ((key, f1), f2) in pairs.iter().zip(fields.iter()) {
        assert_eq!(key, &vec![1, 1, 1]);
        assert_eq!(f1, f2);
    }
}

#[test]
fn find_by_value_returns_all_matching_keys() {
    let items = vec![
        (vec![0, 0, 0], String::from("a")),
        (vec![2, 2, 2], String::from("x")),
        (vec![5, 5, 5], String::from("x")),
        (vec![5, 5, 5], String::from("y")),
    ];
    let index = SpaceFillingCurve::new(items, 3, 2);
    assert_eq!(
        index.find_by_value(&String::from("x")),
        vec![vec![2, 2, 2], vec![5, 5, 5]]
    );
    assert_eq!(index.find_by_value(&String::from("y")), vec![vec![5, 5, 5]]);
    assert!(index.find_by_value(&String::from("z")).is_empty());
}

#[test]
fn off_grid_query_is_empty() {
    let index = SpaceFillingCurve::new(diagonal_items(), 3, 2);
    assert!(index.find(&vec![9, 9, 9]).is_empty());
    assert!(index.find(&vec![1, 1]).is_empty());
}

#[test]
fn wrong_length_keys_are_dropped() {
    let items = vec![
        (vec![1, 1, 1], String::from("keep")),
        (vec![7, 7], String::from("drop")),
    ];
    let index = SpaceFillingCurve::new(items, 3, 2);
    assert_eq!(index.num_cells(), 1);
    assert!(index.find_by_value(&String::from("drop")).is_empty());
    let keep = String::from("keep");
    assert_eq!(index.find(&vec![1, 1, 1]), vec![&keep]);
}

#[test]
fn zero_cell_bits_collapses_to_one_cell() {
    // with no bits per dimension every point lands in cell zero and the
    // offsets alone distinguish them.
    let index = SpaceFillingCurve::new(diagonal_items(), 3, 0);
    assert_eq!(index.cell_codes(), vec![0]);
    let b = String::from("b");
    assert_eq!(index.find(&vec![1, 1, 1]), vec![&b]);
    let all = index.find_range(&vec![0, 0, 0], &vec![2, 2, 2]);
    assert_eq!(all.len(), 3);
}

#[test]
fn coarse_grid_uses_offsets() {
    // six distinct coordinates per dimension at two bits: stride is two,
    // several points share a cell.
    let items: Vec<(Vec<u64>, String)> = (0u64..6)
        .map(|v| (vec![v, v, v], format!("p{}", v)))
        .collect();
    let index = SpaceFillingCurve::new(items, 3, 2);
    for v in 0u64..6 {
        let found = index.find(&vec![v, v, v]);
        assert_eq!(found.len(), 1);
        assert_eq!(found[0], &format!("p{}", v));
    }
    let keys = index.find_by_value(&String::from("p3"));
    assert_eq!(keys, vec![vec![3, 3, 3]]);
}

#[test]
fn one_dimensional_index() {
    let items = vec![
        (vec![10], String::from("ten")),
        (vec![30], String::from("thirty")),
        (vec![20], String::from("twenty")),
    ];
    let index = SpaceFillingCurve::new(items, 1, 8);
    let twenty = String::from("twenty");
    assert_eq!(index.find(&vec![20]), vec![&twenty]);
    let found = index.find_range(&vec![10], &vec![25]);
    let ten = String::from("ten");
    assert_eq!(found, vec![(vec![10], &ten), (vec![20], &twenty)]);
}

#[test]
fn full_bit_budget_one_dimension() {
    // one dimension at sixty-four bits per cell uses the whole code width.
    let items = vec![
        (vec![5], String::from("low")),
        (vec![u64::MAX], String::from("high")),
    ];
    let index = SpaceFillingCurve::new(items, 1, 64);
    assert_eq!(index.cell_codes(), vec![0, 1]);
    let low = String::from("low");
    let high = String::from("high");
    assert_eq!(index.find(&vec![5]), vec![&low]);
    assert_eq!(index.find(&vec![u64::MAX]), vec![&high]);
    let found = index.find_range(&vec![5], &vec![u64::MAX]);
    assert_eq!(found, vec![(vec![5], &low), (vec![u64::MAX], &high)]);
    // a start below the whole grid cannot be rounded down: the range
    // resolution fails and the query reports no results.
    assert!(index.find_range(&vec![0], &vec![u64::MAX]).is_empty());
}

#[test]
fn fast_path_may_over_accept_within_a_cell() {
    // the cell-level shortcut checks only the cell's first record and the
    // grid extreme: when both lie inside the box, every record of the
    // cell is accepted, even one below the box.
    let items = vec![(vec![5], String::from("f")), (vec![3], String::from("t"))];
    let index = SpaceFillingCurve::new(items, 1, 0);
    let f = String::from("f");
    let t = String::from("t");
    assert_eq!(
        index.find_range(&vec![5], &vec![5]),
        vec![(vec![5], &f), (vec![3], &t)]
    );
}
