use std::collections::HashMap;

use aufgaben::checks::task_valid;
use aufgaben::delivery::{map_get, LocationType, ProblemData, RouteNode};
use aufgaben::dot::{dot_lines, routes_placed};
use aufgaben::input::{parse_task, TaskError};
use aufgaben::text::NumberError;
use aufgaben::plan::solve_delivery;
use aufgaben::streets::{build_street_map, find_place, place_list};

fn task(text: &str) -> ProblemData {
    parse_task(&text.chars().collect()).expect("well-formed task")
}

const FEASIBLE: &str = "100\n1\n2\n2\n1 1\n2 1\n5\nS 1 5\nS 2 6\n1 T 7\n2 T 7\n1 2 1\n";

#[test]
fn route_node_format() {
    assert_eq!(RouteNode { loc: LocationType::Start, step: None }.format(), "S");
    assert_eq!(RouteNode { loc: LocationType::Goal, step: Some(3) }.format(), "T");
    assert_eq!(RouteNode { loc: LocationType::Num(5), step: Some(2) }.format(), "[5 2]");
    assert_eq!(RouteNode { loc: LocationType::Num(5), step: None }.format(), "5");
    assert_eq!(RouteNode { loc: LocationType::Num(0), step: Some(0) }.format(), "[0 0]");
}

#[test]
fn location_from_str() {
    assert_eq!(LocationType::from_str("S"), Ok(LocationType::Start));
    assert_eq!(LocationType::from_str("T"), Ok(LocationType::Goal));
    assert_eq!(LocationType::from_str("12"), Ok(LocationType::Num(12)));
    assert_eq!(LocationType::from_str("+12"), Ok(LocationType::Num(12)));
    assert_eq!(LocationType::from_str("x"), Err("Invalid location: x".to_string()));
    assert_eq!(LocationType::from_str("ST"), Err("Invalid location: ST".to_string()));
    assert_eq!(LocationType::from_str(""), Err("Invalid location: ".to_string()));
}

#[test]
fn location_written_reads_back() {
    for l in [LocationType::Start, LocationType::Goal, LocationType::Num(0), LocationType::Num(4294967295)] {
        let text = RouteNode { loc: l, step: None }.format();
        assert_eq!(LocationType::from_str(&text), Ok(l));
    }
}

#[test]
fn map_get_reads_values() {
    let mut m = HashMap::new();
    m.insert(3u32, 7u32);
    assert_eq!(map_get(&m, 3), Some(7));
    assert_eq!(map_get(&m, 4), None);
}

#[test]
fn task_is_read() {
    let d = task(FEASIBLE);
    assert_eq!(d.max_time, 100);
    assert_eq!(d.count_steps, 1);
    assert_eq!(d.factories, vec![(1, 1), (2, 1)]);
    assert_eq!(d.grouped_factories, vec![vec![], vec![1, 2]]);
    assert_eq!(d.streets.len(), 5);
    assert_eq!(d.streets[0], (LocationType::Start, LocationType::Num(1), 5));
    assert_eq!(d.streets[2], (LocationType::Num(1), LocationType::Goal, 7));
    assert_eq!(d.factory_to_step.get(&2), Some(&1));
    assert!(task_valid(&d));
}

#[test]
fn malformed_tasks_are_refused() {
    let bad = [
        "",
        "100\n1\n2\n",
        "x\n1\n2\n2\n1 1\n2 1\n0\n",
        "100\n1\n2\n2\n1 1\n2 5\n0\n",
        "100\n1\n2\n2\n1 1\n2 1\n1\nS Q 5\n",
        "100\n1\n2 y\n2\n1 1\n2 1\n0\n",
        "100\n1\n2\n2\n1 1\n2 1\n2\nS 1 5\n",
        "100\n4294967295\n1\n0\n0\n",
    ];
    for text in bad {
        assert!(parse_task(&text.chars().collect()).is_err(), "text {:?}", text);
    }
}

fn fault(text: &str) -> TaskError {
    parse_task(&text.chars().collect()).expect_err("refused task")
}

#[test]
fn task_faults_are_named() {
    assert_eq!(fault(""), TaskError::Malformed);
    assert_eq!(fault("100\n1\n2\n"), TaskError::Malformed);
    assert_eq!(fault("x\n1\n2\n2\n1 1\n2 1\n0\n"), TaskError::Number(NumberError::InvalidDigit));
    assert_eq!(fault("\n1\n2\n2\n1 1\n2 1\n0\n"), TaskError::Number(NumberError::Empty));
    assert_eq!(fault("4294967296\n1\n2\n0\n0\n"), TaskError::Number(NumberError::PosOverflow));
    assert_eq!(fault("100 5\n1\n2\n0\n0\n"), TaskError::Number(NumberError::InvalidDigit));
    assert_eq!(fault("100\n1\n2 y\n2\n1 1\n2 1\n0\n"), TaskError::Malformed);
    assert_eq!(fault("100\n1\n2\n2\n1 1\n2 5\n0\n"), TaskError::Malformed);
    assert_eq!(fault("100\n4294967295\n1\n0\n0\n"), TaskError::Malformed);
    assert_eq!(fault("100\n1\n2\n2\n1 1\n2 1\nz\n"), TaskError::Number(NumberError::InvalidDigit));
    assert_eq!(
        fault("100\n1\n2\n2\n1 1\n2 1\n1\nS Q 5\n"),
        TaskError::Location("Invalid location: Q".to_string())
    );
    assert_eq!(
        fault("100\n1\n2\n2\n1 1\n2 1\n1\n1 -3 5\n"),
        TaskError::Location("Invalid location: -3".to_string())
    );
    assert_eq!(fault("100\n1\n2\n2\n1 1\n2 1\n1\nS 1 x\n"), TaskError::Number(NumberError::InvalidDigit));
    assert_eq!(fault("100\n1\n2\n2\n1 1\n2 1\n1\nS 1\n"), TaskError::Malformed);
    assert_eq!(fault("100\n1\n2\n2\n1 1\n2 1\n2\nS 1 5\n"), TaskError::Malformed);
    assert_eq!(
        fault("100\n1\n2\n2\n1 1\n2 1\n2\nS Q 5\n"),
        TaskError::Location("Invalid location: Q".to_string())
    );
}

#[test]
fn task_lines_are_trimmed() {
    let d = task("  100 \n1\r\n2\n2\n1 1\n2 1 \n0\n");
    assert_eq!(d.max_time, 100);
    assert_eq!(d.streets.len(), 0);
}

#[test]
fn task_checks() {
    let mut d = task(FEASIBLE);
    assert!(task_valid(&d));
    d.grouped_factories[1].push(1);
    assert!(task_valid(&d));
    let mut d = task(FEASIBLE);
    d.factories.push((9, 1));
    d.grouped_factories[1].push(9);
    assert!(!task_valid(&d));
    let mut d = task(FEASIBLE);
    d.count_steps = 2;
    assert!(!task_valid(&d));
    let mut d = task(FEASIBLE);
    d.streets[0].2 = 3_000_000_000;
    assert!(!task_valid(&d));
}

#[test]
fn street_map_numbers_places_by_first_mention() {
    let d = task(FEASIBLE);
    let m = build_street_map(&d.streets);
    assert_eq!(m.locs, vec![LocationType::Start, LocationType::Num(1), LocationType::Num(2), LocationType::Goal]);
    assert_eq!(m.graph.node_count(), 4);
    assert_eq!(m.graph.edge_count(), 5);
    assert_eq!(find_place(&m.locs, LocationType::Num(2)), Some(2));
    assert_eq!(find_place(&m.locs, LocationType::Num(3)), None);
}

#[test]
fn start_and_goal_are_added_when_missing() {
    let m = build_street_map(&vec![(LocationType::Num(4), LocationType::Num(5), 1)]);
    assert_eq!(m.locs, vec![LocationType::Num(4), LocationType::Num(5), LocationType::Start, LocationType::Goal]);
}

#[test]
fn feasible_plan() {
    let d = task(FEASIBLE);
    let plan = solve_delivery(&d);
    let lines = plan.lines.clone().expect("every detour reaches the goal");
    assert_eq!(lines, vec!["MOEGLICH", "13", "", "12", "S [1 1] T", "13", "1 [2 1] T"]);
    assert_eq!(plan.main_route, vec![LocationType::Start, LocationType::Num(1), LocationType::Goal]);
    assert_eq!(plan.detours, vec![(1, vec![LocationType::Num(1), LocationType::Num(2), LocationType::Goal])]);
}

#[test]
fn single_factory_per_step_has_no_backup() {
    let d = task("100\n1\n1\n1\n1 1\n2\nS 1 5\n1 T 7\n");
    let plan = solve_delivery(&d);
    assert_eq!(plan.lines, Some(vec!["UNMOEGLICH".to_string()]));
}

#[test]
fn time_limit_too_short() {
    let d = task("10\n1\n2\n2\n1 1\n2 1\n5\nS 1 5\nS 2 6\n1 T 7\n2 T 7\n1 2 1\n");
    let plan = solve_delivery(&d);
    assert_eq!(plan.lines, Some(vec!["UNMOEGLICH".to_string()]));
}

#[test]
fn dot_drawing_of_plan() {
    let d = task(FEASIBLE);
    let plan = solve_delivery(&d);
    assert!(routes_placed(&plan.map.locs, &plan.main_route, &plan.detours));
    let lines = dot_lines(&plan.map, &d.factory_to_step, &plan.main_route, &plan.detours);
    let expected = vec![
        "digraph G {",
        "  splines=true; overlap=false; rankdir=LR; bgcolor=\"#2e2e2e\";",
        "  node [fontname=\"Arial\", shape=circle, style=filled];",
        "  edge [fontname=\"Arial\", fontsize=10];",
        "  n0 [label=\"S\", fillcolor=green];",
        "  n1 [label=\"[1 1]\", fillcolor=red];",
        "  n2 [label=\"[2 1]\", fillcolor=red];",
        "  n3 [label=\"T\", fillcolor=lightblue];",
        "  n0 -> n1 [dir=none, color=\"#444444\", penwidth=1, label=\"5\", fontcolor=\"#777777\", constraint=false];",
        "  n0 -> n2 [dir=none, color=\"#444444\", penwidth=1, label=\"6\", fontcolor=\"#777777\", constraint=false];",
        "  n1 -> n3 [dir=none, color=\"#444444\", penwidth=1, label=\"7\", fontcolor=\"#777777\", constraint=false];",
        "  n2 -> n3 [dir=none, color=\"#444444\", penwidth=1, label=\"7\", fontcolor=\"#777777\", constraint=false];",
        "  n1 -> n2 [dir=none, color=\"#444444\", penwidth=1, label=\"1\", fontcolor=\"#777777\", constraint=false];",
        "  n0 -> n1 [color=red, penwidth=4, label=\".1\", fontcolor=red];",
        "  n1 -> n3 [color=red, penwidth=4, label=\".2\", fontcolor=red];",
        "  n1 -> n2 [color=cyan, penwidth=2, style=dashed, label=\"1.1\", fontcolor=cyan];",
        "  n2 -> n3 [color=cyan, penwidth=2, style=dashed, label=\"1.2\", fontcolor=cyan];",
        "}",
    ];
    assert_eq!(lines, expected);
}

#[test]
fn dot_detours_in_factory_order() {
    let d = task(FEASIBLE);
    let plan = solve_delivery(&d);
    let detours = vec![
        (7, vec![LocationType::Num(2), LocationType::Goal]),
        (3, vec![LocationType::Start, LocationType::Num(1)]),
    ];
    let main = vec![];
    assert!(routes_placed(&plan.map.locs, &main, &detours));
    let lines = dot_lines(&plan.map, &HashMap::new(), &main, &detours);
    let n = lines.len();
    assert_eq!(lines[n - 3], "  n0 -> n1 [color=cyan, penwidth=2, style=dashed, label=\"3.1\", fontcolor=cyan];");
    assert_eq!(lines[n - 2], "  n2 -> n3 [color=green, penwidth=2, style=dashed, label=\"7.1\", fontcolor=green];");
    assert_eq!(lines[5], "  n1 [label=\"1\", fillcolor=red];");
}

#[test]
fn routes_outside_the_map_are_detected() {
    let d = task(FEASIBLE);
    let m = build_street_map(&d.streets);
    assert!(!routes_placed(&m.locs, &vec![LocationType::Num(77)], &vec![]));
    assert!(!routes_placed(&m.locs, &vec![], &vec![(1, vec![LocationType::Num(77)])]));
    assert!(routes_placed(&m.locs, &vec![LocationType::Start], &vec![]));
}

#[test]
fn main_route_takes_one_factory_per_step_in_order() {
    let text = "100\n2\n2 2\n4\n1 1\n2 1\n3 2\n4 2\n8\nS 1 1\nS 2 1\n1 2 1\n1 3 1\n2 4 1\n3 4 1\n3 T 1\n4 T 1\n";
    let d = task(text);
    assert!(task_valid(&d));
    let plan = solve_delivery(&d);
    let lines = plan.lines.clone().expect("every detour reaches the goal");
    assert_eq!(lines[0], "MOEGLICH");
    let r = &plan.main_route;
    assert_eq!(r.len(), 4);
    assert_eq!(r[0], LocationType::Start);
    assert_eq!(r[3], LocationType::Goal);
    assert!(matches!(r[1], LocationType::Num(1) | LocationType::Num(2)));
    assert!(matches!(r[2], LocationType::Num(3) | LocationType::Num(4)));
    assert_eq!(plan.detours.len(), 2);
    for (id, route) in &plan.detours {
        assert_eq!(route[0], LocationType::Num(*id));
        assert_eq!(*route.last().unwrap(), LocationType::Goal);
    }
}

#[test]
fn long_streets_that_are_bypassed_are_accepted() {
    let d = task("100\n1\n2\n2\n1 1\n2 1\n6\nS 1 5\nS 2 6\n1 T 7\n2 T 7\n1 2 1\nS T 2000000000\n");
    assert!(task_valid(&d));
    let plan = solve_delivery(&d);
    assert_eq!(plan.lines, Some(vec!["MOEGLICH", "13", "", "12", "S [1 1] T", "13", "1 [2 1] T"].into_iter().map(String::from).collect()));
}

#[test]
fn sums_beyond_i32_are_refused() {
    let d = task("100\n1\n1\n1\n1 1\n2\nS 1 2000000000\n1 T 2000000000\n");
    assert!(!task_valid(&d));
}

#[test]
fn factory_listed_twice_is_accepted() {
    let d = task("100\n1\n2\n2\n1 1\n1 1\n2\nS 1 5\n1 T 7\n");
    assert!(task_valid(&d));
    assert_eq!(d.grouped_factories, vec![vec![], vec![1, 1]]);
    let plan = solve_delivery(&d);
    assert_eq!(plan.lines, Some(vec!["UNMOEGLICH".to_string()]));
}

#[test]
fn factory_in_two_steps_is_solved() {
    let text = "100\n2\n2 2\n4\n1 1\n2 1\n1 2\n3 2\n7\nS 1 1\nS 2 1\n1 2 1\n1 3 1\n2 3 1\n3 T 1\n1 T 1\n";
    let d = task(text);
    assert!(task_valid(&d));
    let plan = solve_delivery(&d);
    // Factory 1 becomes its own predecessor at step 2: the chain back to the start
    // runs in a circle.
    assert_eq!(plan.lines, None);
    assert!(plan.main_route.is_empty());
}

fn answer_with_limit(limit: u32) -> Vec<String> {
    let mut d = task(FEASIBLE);
    d.max_time = limit;
    solve_delivery(&d).lines.expect("every detour reaches the goal")
}

#[test]
fn more_time_keeps_a_plan() {
    assert_eq!(answer_with_limit(12), vec!["UNMOEGLICH"]);
    assert_eq!(answer_with_limit(13)[0], "MOEGLICH");
    let limits = [0u32, 5, 12, 13, 14, 100, 1000, 1_000_000];
    for &m1 in &limits {
        for &m2 in &limits {
            if m1 > m2 {
                continue;
            }
            let a1 = answer_with_limit(m1);
            let a2 = answer_with_limit(m2);
            if a1[0] == "MOEGLICH" {
                assert_eq!(a2[0], "MOEGLICH", "limits {} and {}", m1, m2);
                let t1: u32 = a1[3].parse().unwrap();
                let t2: u32 = a2[3].parse().unwrap();
                assert!(t2 <= t1, "limits {} and {}", m1, m2);
            }
        }
    }
}

fn shortest(d: &ProblemData, from: LocationType, to: LocationType) -> u64 {
    let mut places: Vec<LocationType> = vec![LocationType::Start, LocationType::Goal];
    for (a, b, _) in &d.streets {
        for p in [*a, *b] {
            if !places.contains(&p) {
                places.push(p);
            }
        }
    }
    let n = places.len();
    let idx = |p: LocationType| places.iter().position(|q| *q == p).unwrap();
    let mut dist = vec![vec![u64::MAX / 4; n]; n];
    for i in 0..n {
        dist[i][i] = 0;
    }
    for (a, b, w) in &d.streets {
        let (i, j) = (idx(*a), idx(*b));
        dist[i][j] = dist[i][j].min(*w as u64);
        dist[j][i] = dist[j][i].min(*w as u64);
    }
    for k in 0..n {
        for i in 0..n {
            for j in 0..n {
                if dist[i][k] + dist[k][j] < dist[i][j] {
                    dist[i][j] = dist[i][k] + dist[k][j];
                }
            }
        }
    }
    dist[idx(from)][idx(to)]
}

#[test]
fn main_route_is_as_long_as_the_total() {
    let text = "100\n2\n2 2\n4\n1 1\n2 1\n3 2\n4 2\n10\nS 1 3\nS 2 4\n1 3 5\n2 4 2\n1 4 6\n2 3 9\n3 T 4\n4 T 3\n1 2 1\n3 4 1\n";
    for d in [task(text), task(FEASIBLE)] {
        let plan = solve_delivery(&d);
        let lines = plan.lines.clone().expect("every detour reaches the goal");
        assert_eq!(lines[0], "MOEGLICH");
        let route = plan.main_route.clone();
        assert_eq!(route.len(), d.count_steps as usize + 2);
        let total: u64 = route.windows(2).map(|w| shortest(&d, w[0], w[1])).sum();
        assert_eq!(lines[3], total.to_string());
    }
}

#[test]
fn total_is_the_least_of_secured_chains() {
    let text = "100\n2\n2 2\n4\n1 1\n2 1\n3 2\n4 2\n10\nS 1 3\nS 2 4\n1 3 5\n2 4 2\n1 4 6\n2 3 9\n3 T 4\n4 T 3\n1 2 1\n3 4 1\n";
    let d = task(text);
    let num = LocationType::Num;
    let dist = |a: LocationType, b: LocationType| shortest(&d, a, b);
    let steps: Vec<Vec<u32>> = vec![vec![1, 2], vec![3, 4]];
    // cost to the goal from each factory through one factory of each later step
    let mut s: HashMap<u32, u64> = HashMap::new();
    for &u in &steps[1] {
        s.insert(u, dist(num(u), LocationType::Goal));
    }
    for &u in &steps[0] {
        let best = steps[1].iter().map(|&w| dist(num(u), num(w)) + s[&w]).min().unwrap();
        s.insert(u, best);
    }
    // fallback cost: through another factory of the same step
    let mut r: HashMap<u32, u64> = HashMap::new();
    for group in &steps {
        for &v in group {
            let best = group.iter().filter(|&&u| u != v).map(|&u| dist(num(v), num(u)) + s[&u]).min().unwrap();
            r.insert(v, best);
        }
    }
    let mut least: Option<u64> = None;
    for &c1 in &steps[0] {
        for &c2 in &steps[1] {
            let a1 = dist(LocationType::Start, num(c1));
            let a2 = a1 + dist(num(c1), num(c2));
            if a1 + r[&c1] <= 100 && a2 + r[&c2] <= 100 {
                let total = a2 + dist(num(c2), LocationType::Goal);
                least = Some(least.map_or(total, |l| l.min(total)));
            }
        }
    }
    let lines = solve_delivery(&d).lines.expect("every detour reaches the goal");
    assert_eq!(lines[0], "MOEGLICH");
    assert_eq!(lines[3], least.expect("a secured chain").to_string());
}

#[test]
fn factory_in_two_steps_can_lose_time_with_a_later_limit() {
    let body = "3\n2 2 2\n6\n5 1\n1 1\n2 2\n3 2\n5 3\n4 3\n10\nS T 1\nS 2 6\nS 4 5\nT 1 11\nT 2 16\nT 3 4\n1 3 16\n1 5 17\n2 4 19\n3 5 16\n";
    let earlier = solve_delivery(&task(&format!("80\n{}", body))).lines.expect("answer");
    let later = solve_delivery(&task(&format!("100\n{}", body))).lines.expect("answer");
    assert_eq!(earlier[0], "MOEGLICH");
    assert_eq!(earlier[3], "41");
    assert_eq!(later[0], "MOEGLICH");
    assert_eq!(later[3], "43");
}

#[test]
fn places_are_listed_as_the_network_holds_them() {
    let streets = vec![(LocationType::Num(4), LocationType::Num(5), 1), (LocationType::Goal, LocationType::Num(4), 2)];
    assert_eq!(place_list(&streets), vec![LocationType::Num(4), LocationType::Num(5), LocationType::Goal, LocationType::Start]);
    assert_eq!(place_list(&streets), build_street_map(&streets).locs);
    assert_eq!(place_list(&vec![]), vec![LocationType::Start, LocationType::Goal]);
}
