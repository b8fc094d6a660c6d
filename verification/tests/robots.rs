use aufgaben::bignat::{from_u128, nat_add, nat_less, nat_mul, nat_mul_small};
use aufgaben::input::parse_field;
use aufgaben::spanning::build_mst;
use aufgaben::tours::{sqrt_sum_less, two_opt};
use aufgaben::traversal::{_dfs, dfs};
use aufgaben::trees::{place_station, sq_distance, ChargingStation, Route, Tree};

fn t(id: u32, x: u32, y: u32) -> Tree {
    Tree { id, x, y }
}

fn value(limbs: &[u64]) -> u128 {
    let mut v: u128 = 0;
    for (i, l) in limbs.iter().enumerate() {
        if *l != 0 {
            assert!(i < 2, "value too large for the test");
            v += (*l as u128) << (64 * i);
        }
    }
    v
}

#[test]
fn squared_distance_is_exact() {
    assert_eq!(sq_distance(&t(1, 0, 0), &t(2, 3, 4)), 25);
    assert_eq!(sq_distance(&t(1, 3, 4), &t(2, 0, 0)), 25);
    assert_eq!(sq_distance(&t(1, 0, 0), &t(2, u32::MAX, u32::MAX)), 2 * (u32::MAX as u128) * (u32::MAX as u128));
}

#[test]
fn mst_of_three_trees() {
    let trees = vec![t(1, 0, 0), t(2, 10, 0), t(3, 1, 0)];
    let mst = build_mst(&trees);
    assert_eq!(mst, vec![vec![2], vec![2], vec![0, 1]]);
}

#[test]
fn mst_is_symmetric_and_spans() {
    let trees = vec![t(1, 0, 0), t(2, 5, 5), t(3, 9, 1), t(4, 2, 8), t(5, 7, 7), t(6, 3, 3)];
    let mst = build_mst(&trees);
    let mut entries = 0;
    for (u, list) in mst.iter().enumerate() {
        for &v in list {
            assert!(v < trees.len());
            assert!(mst[v].contains(&u));
            entries += 1;
        }
    }
    assert_eq!(entries, 2 * (trees.len() - 1));
}

#[test]
fn mst_single_tree() {
    assert_eq!(build_mst(&[t(7, 1, 1)]), vec![Vec::<usize>::new()]);
}

#[test]
fn mst_ties_go_to_lower_index() {
    let trees = vec![t(1, 0, 0), t(2, 2, 0), t(3, 0, 2)];
    assert_eq!(build_mst(&trees), vec![vec![1, 2], vec![0], vec![0]]);
}

#[test]
fn dfs_preorder() {
    let mst = vec![vec![2], vec![2], vec![0, 1]];
    assert_eq!(dfs(&mst, 0), vec![0, 2, 1]);
    assert_eq!(dfs(&mst, 1), vec![1, 2, 0]);
}

#[test]
fn dfs_lists_each_node_once() {
    let adj = vec![vec![1, 2], vec![0, 2, 3], vec![0, 1], vec![1, 3]];
    let order = dfs(&adj, 0);
    assert_eq!(order, vec![0, 1, 2, 3]);
    let mut sorted = order.clone();
    sorted.sort();
    sorted.dedup();
    assert_eq!(sorted.len(), order.len());
}

#[test]
fn dfs_lists_exactly_the_reachable_nodes() {
    let adj = vec![vec![1], vec![3], vec![0], vec![], vec![4]];
    assert_eq!(dfs(&adj, 0), vec![0, 1, 3]);
    assert_eq!(dfs(&adj, 2), vec![2, 0, 1, 3]);
    assert_eq!(dfs(&adj, 4), vec![4]);
}

#[test]
fn inner_dfs_skips_marked_nodes() {
    let adj = vec![vec![1, 2], vec![0], vec![0]];
    let mut visited = vec![false, true, false];
    let mut order = vec![9];
    _dfs(&adj, 0, &mut visited, &mut order);
    assert_eq!(order, vec![9, 0, 2]);
    assert_eq!(visited, vec![true, true, true]);
}

#[test]
fn station_goes_right_of_first_tree() {
    assert_eq!(place_station(&vec![], &t(1, 4, 6)), Some((5, 6)));
}

#[test]
fn station_moves_up_past_taken_places() {
    let occupied = vec![(5, 6), (5, 7), (9, 8)];
    assert_eq!(place_station(&occupied, &t(1, 4, 6)), Some((5, 8)));
}

#[test]
fn station_none_when_column_full() {
    let occupied = vec![(1, u32::MAX)];
    assert_eq!(place_station(&occupied, &t(1, 0, u32::MAX)), None);
}

#[test]
fn root_sums_compared_exactly() {
    assert!(sqrt_sum_less(1, 1, 4, 1));
    assert!(!sqrt_sum_less(4, 9, 25, 0));
    assert!(sqrt_sum_less(2, 3, 10, 0));
    // √2 + √8 = √18 exactly
    assert!(!sqrt_sum_less(2, 8, 18, 0));
    assert!(!sqrt_sum_less(18, 0, 2, 8));
    assert!(sqrt_sum_less(2, 8, 18, 1));
    assert!(!sqrt_sum_less(0, 0, 0, 0));
}

#[test]
fn bignat_arithmetic() {
    let a = from_u128(u64::MAX as u128);
    let b = from_u128(1);
    assert_eq!(value(&nat_add(&a, &b)), 1u128 << 64);
    assert_eq!(value(&nat_mul(&from_u128(1 << 40), &from_u128(1 << 50))), 1u128 << 90);
    assert_eq!(value(&nat_mul_small(&from_u128(12345), 64)), 12345 * 64);
    assert!(nat_less(&from_u128(5), &from_u128(1 << 70)));
    assert!(!nat_less(&from_u128(1 << 70), &from_u128(5)));
    assert!(!nat_less(&from_u128(7), &from_u128(7)));
}

#[test]
fn two_opt_uncrosses_a_tour() {
    let station = ChargingStation { _id: 0, x: 11, y: 0 };
    let mut routes = vec![Route {
        trees: vec![t(1, 0, 0), t(2, 10, 10), t(3, 10, 0), t(4, 0, 10)],
        charging_station: station,
    }];
    two_opt(&mut routes);
    assert_eq!(routes[0].trees, vec![t(1, 0, 0), t(3, 10, 0), t(2, 10, 10), t(4, 0, 10)]);
    assert_eq!(routes[0].charging_station, station);
}

#[test]
fn two_opt_keeps_trees_of_each_route() {
    let station = ChargingStation { _id: 1, x: 0, y: 0 };
    let trees = vec![t(1, 0, 0), t(2, 9, 9), t(3, 9, 0), t(4, 0, 9), t(5, 4, 12), t(6, 12, 4)];
    let mut routes = vec![
        Route { trees: trees.clone(), charging_station: station },
        Route { trees: vec![t(7, 1, 1), t(8, 2, 2)], charging_station: station },
    ];
    two_opt(&mut routes);
    let mut ids: Vec<u32> = routes[0].trees.iter().map(|t| t.id).collect();
    ids.sort();
    assert_eq!(ids, vec![1, 2, 3, 4, 5, 6]);
    assert_eq!(routes[1].trees, vec![t(7, 1, 1), t(8, 2, 2)]);
}

#[test]
fn two_opt_leaves_short_routes() {
    let station = ChargingStation { _id: 0, x: 0, y: 0 };
    let mut routes = vec![Route { trees: vec![t(1, 0, 0), t(2, 10, 10), t(3, 10, 0)], charging_station: station }];
    two_opt(&mut routes);
    assert_eq!(routes[0].trees, vec![t(1, 0, 0), t(2, 10, 10), t(3, 10, 0)]);
}

#[test]
fn field_is_read() {
    let text: Vec<char> = "500\n2\n1 0 0\n2 3 4\n".chars().collect();
    assert_eq!(parse_field(&text), Some((500, vec![t(1, 0, 0), t(2, 3, 4)])));
}

#[test]
fn field_ignores_trailing_words() {
    let text: Vec<char> = "5 1 9 8 7 extra".chars().collect();
    assert_eq!(parse_field(&text), Some((5, vec![t(9, 8, 7)])));
}

#[test]
fn field_missing_or_bad_words() {
    assert_eq!(parse_field(&"5 2 1 0 0".chars().collect()), None);
    assert_eq!(parse_field(&"5 1 1 x 0".chars().collect()), None);
    assert_eq!(parse_field(&"".chars().collect()), None);
    assert_eq!(parse_field(&"-5 0".chars().collect()), None);
    assert_eq!(parse_field(&"5 0".chars().collect()), Some((5, vec![])));
}

#[test]
fn root_sums_of_squares_compare_plainly() {
    // 3 + 4 against 5 + 1
    assert!(!sqrt_sum_less(9, 16, 25, 1));
    assert!(sqrt_sum_less(25, 1, 9, 16));
    // 1 + 2 against 3 + 0: equal sums
    assert!(!sqrt_sum_less(1, 4, 9, 0));
    assert!(!sqrt_sum_less(9, 0, 1, 4));
    // 1 + 2 against 3 + 1
    assert!(sqrt_sum_less(1, 4, 9, 1));
}

#[test]
fn root_sum_test_is_strict() {
    let cases = [(2u128, 3u128, 1u128, 5u128), (7, 7, 7, 7), (0, 10, 3, 3), (1, 1, 2, 0)];
    for (p, q, r, s) in cases {
        assert!(!(sqrt_sum_less(p, q, r, s) && sqrt_sum_less(r, s, p, q)));
        assert!(!sqrt_sum_less(p, q, p, q));
    }
}

#[test]
fn spanning_tree_joins_every_tree() {
    let trees = vec![t(0, 0, 0), t(1, 10, 0), t(2, 0, 7), t(3, 11, 9), t(4, 50, 50), t(5, 3, 3)];
    let mst = build_mst(&trees);
    let entries: usize = mst.iter().map(|l| l.len()).sum();
    assert_eq!(entries, 2 * (trees.len() - 1));
    let mut order = dfs(&mst, 0);
    order.sort();
    assert_eq!(order, vec![0, 1, 2, 3, 4, 5]);
}

#[test]
fn inner_dfs_lists_what_unmarked_nodes_reach() {
    let adj = vec![vec![1], vec![0, 2], vec![1, 3], vec![2]];
    let mut visited = vec![false, false, true, false];
    let mut order = vec![];
    _dfs(&adj, 0, &mut visited, &mut order);
    assert_eq!(order, vec![0, 1]);
    assert_eq!(visited, vec![true, true, true, false]);
    let mut visited = vec![true, false, false, false];
    let mut order = vec![];
    _dfs(&adj, 0, &mut visited, &mut order);
    assert_eq!(order, vec![0, 1, 2, 3]);
}
