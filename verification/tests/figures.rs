use aufgaben::bc_tree::build_bc_tree;
use aufgaben::blocks::BiconnectedResult;
use aufgaben::centers::find_centers;
use aufgaben::figures::{Axis, BCNode, Pin};
use aufgaben::grid::{check_grid, figure_from_grid};
use aufgaben::input::parse_drawings;
use aufgaben::matching::{check_transformable, match_recursive, trees_transformable};
use aufgaben::transform::figures_transformable;

fn grid(rows: &[&str]) -> Vec<Vec<char>> {
    rows.iter().map(|r| r.chars().collect()).collect()
}

const H: Pin = Pin { axis: Axis::Horizontal, sign: 1 };
const V: Pin = Pin { axis: Axis::Vertical, sign: 1 };

fn block_vectors(n: &BCNode) -> Option<Vec<(i32, i32)>> {
    match n {
        BCNode::Block { edges } => Some(edges.clone()),
        BCNode::ArticulationPoint(_) => None,
    }
}

#[test]
fn grid_checks() {
    assert!(check_grid(&grid(&["o-o"])));
    assert!(check_grid(&grid(&["o-o", "| |", "o-o"])));
    assert!(!check_grid(&grid(&["o-"])));
    assert!(!check_grid(&grid(&["-o"])));
    assert!(!check_grid(&grid(&["|"])));
    assert!(!check_grid(&grid(&["o", "|"])));
    assert!(check_grid(&grid(&[])));
}

#[test]
fn figure_graph_of_square() {
    let g = figure_from_grid(&grid(&["o-o", "| |", "o-o"]));
    assert_eq!(g.node_count(), 4);
    assert_eq!(g.edge_count(), 4);
    let e: Vec<(usize, usize, Pin)> = g
        .raw_edges()
        .iter()
        .map(|e| (e.source().index(), e.target().index(), e.weight))
        .collect();
    assert_eq!(e, vec![(0, 1, H), (0, 2, V), (1, 3, V), (2, 3, H)]);
}

#[test]
fn blocks_of_a_path() {
    let g = figure_from_grid(&grid(&["o-o-o"]));
    let r = BiconnectedResult::from_graph(&g);
    assert_eq!(r.articulation_points, vec![1]);
    assert_eq!(r.blocks.len(), 2);
    let t = build_bc_tree(&g, &r);
    assert_eq!(t.node_count(), 3);
    assert!(matches!(t[petgraph::graph::NodeIndex::new(0)], BCNode::ArticulationPoint(1)));
    assert_eq!(block_vectors(&t[petgraph::graph::NodeIndex::new(1)]), Some(vec![(1, 0)]));
    assert_eq!(block_vectors(&t[petgraph::graph::NodeIndex::new(2)]), Some(vec![(1, 0)]));
    assert_eq!(t.edge_count(), 2);
    assert_eq!(find_centers(&t), Some(vec![0]));
}

#[test]
fn square_is_one_block() {
    let g = figure_from_grid(&grid(&["o-o", "| |", "o-o"]));
    let r = BiconnectedResult::from_graph(&g);
    assert!(r.articulation_points.is_empty());
    assert_eq!(r.blocks.len(), 1);
    assert_eq!(r.blocks[0].len(), 4);
    let t = build_bc_tree(&g, &r);
    assert_eq!(t.node_count(), 1);
    assert_eq!(t.edge_count(), 0);
    assert_eq!(find_centers(&t), Some(vec![0]));
}

#[test]
fn every_tree_edge_joins_block_and_articulation_point() {
    let g = figure_from_grid(&grid(&["o-o-o-o", "|   |", "o-o-o"]));
    let r = BiconnectedResult::from_graph(&g);
    let t = build_bc_tree(&g, &r);
    let aps = r.articulation_points.len();
    for e in t.raw_edges() {
        assert!(e.source().index() >= aps);
        assert!(e.target().index() < aps);
    }
}

#[test]
fn path_matches_itself() {
    let g = figure_from_grid(&grid(&["o-o-o"]));
    let t = build_bc_tree(&g, &BiconnectedResult::from_graph(&g));
    assert_eq!(match_recursive(0, None, &t, 0, None, &t, 1, 1), Some(true));
    assert_eq!(match_recursive(0, None, &t, 0, None, &t, -1, 1), Some(false));
    assert_eq!(check_transformable(0, None, &t, 0, None, &t), Some(true));
    assert_eq!(match_recursive(0, None, &t, 1, None, &t, 1, 1), Some(false));
}

#[test]
fn straight_and_bent_paths_differ() {
    let a = figure_from_grid(&grid(&["o-o-o"]));
    let b = figure_from_grid(&grid(&["o-o", "|", "o"]));
    let ta = build_bc_tree(&a, &BiconnectedResult::from_graph(&a));
    let tb = build_bc_tree(&b, &BiconnectedResult::from_graph(&b));
    assert_eq!(trees_transformable(&ta, &tb), Some(false));
    assert_eq!(trees_transformable(&ta, &ta), Some(true));
}

#[test]
fn drawings_compared() {
    assert_eq!(figures_transformable(&grid(&["o-o"]), &grid(&["o-o"])), Some(true));
    assert_eq!(figures_transformable(&grid(&["o-o-o"]), &grid(&["o-o", "|", "o"])), Some(false));
    assert_eq!(figures_transformable(&grid(&["o-o", "|", "o"]), &grid(&["o-o", "  |", "  o"])), Some(true));
    assert_eq!(figures_transformable(&grid(&["o-o", "| |", "o-o"]), &grid(&["o-o-o"])), Some(false));
}

#[test]
fn drawings_are_read() {
    let text = "3 1\no-o-o\n\n2 2\no-o\n|\no\n";
    let ds = parse_drawings(&text.chars().collect()).expect("well formed");
    assert_eq!(ds, vec![grid(&["o-o-o"]), grid(&["o-o", "|", "o"])]);
}

#[test]
fn malformed_drawings() {
    assert_eq!(parse_drawings(&"3\no-o-o\n".chars().collect()), None);
    assert_eq!(parse_drawings(&"3 0\n".chars().collect()), None);
    assert_eq!(parse_drawings(&"3 2\no-o\n".chars().collect()), None);
    assert_eq!(parse_drawings(&"3 x\no\n".chars().collect()), None);
    assert_eq!(parse_drawings(&"".chars().collect()), Some(vec![]));
    assert_eq!(parse_drawings(&"\n  \n".chars().collect()), Some(vec![]));
}

fn triangle() -> petgraph::graph::Graph<BCNode, Pin, petgraph::Undirected, u32> {
    let mut g = petgraph::graph::Graph::<BCNode, Pin, petgraph::Undirected, u32>::default();
    let a = g.add_node(BCNode::ArticulationPoint(0));
    let b = g.add_node(BCNode::ArticulationPoint(1));
    let c = g.add_node(BCNode::ArticulationPoint(2));
    g.add_edge(a, b, H);
    g.add_edge(b, c, H);
    g.add_edge(c, a, H);
    g
}

#[test]
fn centers_of_a_cycle_cannot_be_found() {
    assert_eq!(find_centers(&triangle()), None);
}

#[test]
fn matching_runs_away_on_a_cycle() {
    let t = triangle();
    assert_eq!(match_recursive(0, None, &t, 0, None, &t, 1, 1), None);
    assert_eq!(check_transformable(0, None, &t, 0, None, &t), None);
    assert_eq!(trees_transformable(&t, &t), None);
}

#[test]
fn blocks_must_have_equal_vectors() {
    let mut g = petgraph::graph::Graph::<BCNode, Pin, petgraph::Undirected, u32>::default();
    g.add_node(BCNode::Block { edges: vec![(1, 0), (0, 1)] });
    let mut h = petgraph::graph::Graph::<BCNode, Pin, petgraph::Undirected, u32>::default();
    h.add_node(BCNode::Block { edges: vec![(0, 1), (1, 0)] });
    let mut k = petgraph::graph::Graph::<BCNode, Pin, petgraph::Undirected, u32>::default();
    k.add_node(BCNode::Block { edges: vec![(-1, 0), (0, 1)] });
    assert_eq!(match_recursive(0, None, &g, 0, None, &h, 1, 1), Some(true));
    assert_eq!(match_recursive(0, None, &g, 0, None, &k, 1, 1), Some(false));
    assert_eq!(match_recursive(0, None, &g, 0, None, &k, -1, 1), Some(true));
    assert_eq!(check_transformable(0, None, &g, 0, None, &k), Some(true));
}

#[test]
fn drawings_match_themselves() {
    for g in [
        grid(&["o-o-o-o", "|   |", "o-o-o"]),
        grid(&["o-o", "| |", "o-o-o", "  |", "  o"]),
    ] {
        assert_eq!(figures_transformable(&g, &g), Some(true));
    }
}

#[test]
fn only_the_first_joints_part_is_read() {
    // The first joint meets no stick, so its block-cut tree is empty.
    let g = grid(&["o o-o"]);
    assert_eq!(figures_transformable(&g, &g), Some(false));
    assert_eq!(figures_transformable(&grid(&["o"]), &grid(&["o"])), Some(false));
}

#[test]
fn mirror_image_is_recognised() {
    let mut a = petgraph::graph::Graph::<BCNode, Pin, petgraph::Undirected, u32>::default();
    let p = a.add_node(BCNode::ArticulationPoint(0));
    let b1 = a.add_node(BCNode::Block { edges: vec![(1, 0)] });
    let b2 = a.add_node(BCNode::Block { edges: vec![(0, 1)] });
    a.add_edge(p, b1, H);
    a.add_edge(p, b2, V);
    let mut m = petgraph::graph::Graph::<BCNode, Pin, petgraph::Undirected, u32>::default();
    let q = m.add_node(BCNode::ArticulationPoint(0));
    let c1 = m.add_node(BCNode::Block { edges: vec![(-1, 0)] });
    let c2 = m.add_node(BCNode::Block { edges: vec![(0, 1)] });
    m.add_edge(q, c1, Pin { axis: Axis::Horizontal, sign: -1 });
    m.add_edge(q, c2, V);
    assert_eq!(match_recursive(0, None, &a, 0, None, &m, 1, 1), Some(false));
    assert_eq!(match_recursive(0, None, &a, 0, None, &m, -1, 1), Some(true));
    assert_eq!(check_transformable(0, None, &a, 0, None, &m), Some(true));
    assert_eq!(trees_transformable(&a, &m), Some(true));
    assert_eq!(figures_transformable(&grid(&["o-o", "|", "o"]), &grid(&["o-o", "  |", "  o"])), Some(true));
}
