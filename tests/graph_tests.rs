use winnie_pooh::edge::Edge;
use winnie_pooh::graph::{
    combine_graphs, graph_edge_set_diff, graph_weight_sum, mst_kruskal, serialize_honey_edges,
    to_dot_fmt, Graph,
};
use winnie_pooh::input::parse_input;

fn graph_of(edges: &[(u32, u32, i8)]) -> Graph {
    let mut g = Graph::new();
    for &(u, v, w) in edges {
        g.add_edge(Edge::new(u, v, w));
    }
    g
}

fn triples(g: &Graph) -> Vec<(u32, u32, i8)> {
    (0..g.len()).map(|i| {
        let e = g.edge(i);
        (e.u, e.v, e.w)
    }).collect()
}

#[test]
fn edge_symmetry() {
    let a = Edge::new(1, 2, 5);
    let b = Edge::new(2, 1, 5);
    assert!(a.is_equal(&b));
    assert!(b.is_equal(&a));
    assert!(!a.is_equal(&Edge::new(2, 1, 4)));
    assert!(!a.is_equal(&Edge::new(1, 3, 5)));
}

#[test]
fn sort_descending_is_stable() {
    let mut g = graph_of(&[(1, 2, 5), (2, 3, -1), (1, 3, 10), (3, 4, 5)]);
    g.sort_by_weight_desc();
    assert_eq!(triples(&g), vec![(1, 3, 10), (1, 2, 5), (3, 4, 5), (2, 3, -1)]);
}

#[test]
fn sort_ascending_is_stable() {
    let mut g = graph_of(&[(1, 2, 5), (2, 3, -1), (1, 3, 10), (3, 4, 5), (4, 5, -128), (5, 6, 127)]);
    g.sort_by_weight_asc();
    assert_eq!(
        triples(&g),
        vec![(4, 5, -128), (2, 3, -1), (1, 2, 5), (3, 4, 5), (1, 3, 10), (5, 6, 127)]
    );
}

#[test]
fn invert_weights() {
    let mut g = graph_of(&[(1, 2, 5), (2, 3, -99), (1, 3, 0), (3, 4, 127)]);
    g.invert_edge_weights();
    assert_eq!(triples(&g), vec![(1, 2, -5), (2, 3, 99), (1, 3, 0), (3, 4, -127)]);
}

#[test]
fn randomize_keeps_edges() {
    let mut g = graph_of(&[(1, 2, 5), (2, 3, -1), (1, 3, 10), (3, 4, 5), (4, 5, 7)]);
    g.randomize();
    let mut got = triples(&g);
    got.sort();
    let mut want = vec![(1, 2, 5), (2, 3, -1), (1, 3, 10), (3, 4, 5), (4, 5, 7)];
    want.sort();
    assert_eq!(got, want);
}

#[test]
fn weight_sum_values() {
    assert_eq!(graph_of(&[]).graph_weight_sum(), 0);
    let g = graph_of(&[(1, 2, 5), (2, 3, -1), (1, 3, 10)]);
    assert_eq!(g.graph_weight_sum(), 14);
    assert_eq!(graph_weight_sum(&g), 14);
}

#[test]
fn kruskal_scenario() {
    let mut g = graph_of(&[(1, 2, 5), (2, 3, -1), (1, 3, 10)]);
    g.sort_by_weight_desc();
    let mst = g.mst_kruskal();
    assert_eq!(triples(&mst), vec![(1, 3, 10), (1, 2, 5)]);
    assert_eq!(triples(&mst_kruskal(&g)), vec![(1, 3, 10), (1, 2, 5)]);
}

#[test]
fn kruskal_spanning_tree_size_and_no_cycle() {
    // A connected graph on 5 vertices.
    let mut g = graph_of(&[
        (1, 2, 3),
        (2, 3, 4),
        (3, 4, -2),
        (4, 5, 7),
        (5, 1, 1),
        (1, 3, 9),
        (2, 4, 6),
    ]);
    g.sort_by_weight_desc();
    let mst = g.mst_kruskal();
    assert_eq!(mst.len(), 4);
    // Re-running the greedy pass over the tree keeps every edge: no cycle.
    assert_eq!(triples(&mst.mst_kruskal()), triples(&mst));
    assert_eq!(mst.graph_weight_sum(), 9 + 7 + 6 + 4);
}

#[test]
fn kruskal_maximality_brute_force() {
    let edges = [(1, 2, 3), (2, 3, 4), (3, 4, -2), (4, 1, 8), (1, 3, 9), (2, 4, 6)];
    let mut g = graph_of(&edges);
    g.sort_by_weight_desc();
    let best = g.mst_kruskal().graph_weight_sum();
    // Every choice of 3 of the 6 edges that connects the 4 vertices.
    let mut max_seen = i64::MIN;
    for mask in 0u32..64 {
        if mask.count_ones() != 3 {
            continue;
        }
        let chosen: Vec<(u32, u32, i8)> = (0..6).filter(|i| mask >> i & 1 == 1).map(|i| edges[i]).collect();
        let mut comp = [0usize, 1, 2, 3, 4];
        let mut merges = 0;
        for &(u, v, _) in &chosen {
            let (cu, cv) = (comp[u as usize], comp[v as usize]);
            if cu != cv {
                merges += 1;
                for c in comp.iter_mut() {
                    if *c == cu {
                        *c = cv;
                    }
                }
            }
        }
        if merges == 3 {
            let w: i64 = chosen.iter().map(|e| e.2 as i64).sum();
            max_seen = max_seen.max(w);
        }
    }
    assert_eq!(best, max_seen);
    assert_eq!(best, 9 + 8 + 6);
}

#[test]
fn set_diff_values() {
    let a = graph_of(&[(1, 2, 5), (2, 3, -1), (1, 3, 10), (3, 4, 2)]);
    let b = graph_of(&[(3, 1, 10), (2, 3, 7), (4, 3, 2)]);
    assert_eq!(triples(&graph_edge_set_diff(&a, &b)), vec![(1, 2, 5), (2, 3, -1)]);
    assert_eq!(graph_edge_set_diff(&a, &a).len(), 0);
    assert_eq!(graph_edge_set_diff(&a, &graph_of(&[])).len(), 4);
    // |A\B| + |A∩B| = |A|
    let common = (0..a.len()).filter(|&i| (0..b.len()).any(|j| a.edge(i).is_equal(&b.edge(j)))).count();
    assert_eq!(graph_edge_set_diff(&a, &b).len() + common, a.len());
}

#[test]
fn combine_appends() {
    let mut a = graph_of(&[(1, 2, 5)]);
    let b = graph_of(&[(2, 3, -1), (1, 3, 10)]);
    combine_graphs(&mut a, &b);
    assert_eq!(triples(&a), vec![(1, 2, 5), (2, 3, -1), (1, 3, 10)]);
}

#[test]
fn serialize_header_and_lines() {
    let g = graph_of(&[(2, 3, -1), (10, 12, -40), (4, 1, 0)]);
    let text = g.serialize_edges();
    assert_eq!(text, "3 -41\n2 3\n10 12\n4 1\n");
    assert_eq!(serialize_honey_edges(&g), text);
    let lines: Vec<&str> = text.lines().collect();
    let header: Vec<i64> = lines[0].split(' ').map(|t| t.parse().unwrap()).collect();
    assert_eq!(header[0] as usize, lines.len() - 1);
    assert_eq!(header[1], -41);
    assert_eq!(graph_of(&[]).serialize_edges(), "0 0\n");
}

#[test]
fn concrete_scenario() {
    let g = Graph::from_input("3 1 2 5 2 3 -1 1 3 10".to_string()).unwrap();
    let honey = g.honey_edges();
    assert_eq!(honey.serialize_edges(), "1 -1\n2 3\n");
}

#[test]
fn negative_weight_augmentation_scenario() {
    let g = Graph::from_input("2 1 2 -5".to_string()).unwrap();
    let honey = g.honey_edges();
    assert_eq!(triples(&honey), vec![(1, 2, -5)]);
    assert_eq!(honey.serialize_edges(), "1 -5\n1 2\n");
}

#[test]
fn honey_keeps_cycle_edges_and_negative_tree_edges() {
    let g = Graph::from_input("4\n1 2 3\n2 3 -4\n3 1 2\n3 4 -7\n".to_string()).unwrap();
    let honey = g.honey_edges();
    // The tree is (1,2,3), (3,1,2), (3,4,-7); (2,3,-4) closes a cycle.
    assert_eq!(triples(&honey), vec![(2, 3, -4), (3, 4, -7)]);
    assert_eq!(honey.serialize_edges(), "2 -11\n2 3\n3 4\n");
}

#[test]
fn dot_format() {
    let g = graph_of(&[(1, 2, -5)]);
    let dot = to_dot_fmt(&g, 2);
    assert_eq!(
        dot,
        "graph G {\nlayout=neato;\noverlap=scale;\nsplines=true;\nsep=\"+15\";\n\nnode [shape=circle, width=0.2];\nedge [fontsize=8];\n\n  node [shape=circle];\n   1;\n   2;\n   1 -- 2 [xlabel=\"-5\"];\n}\n"
    );
}

#[test]
fn parse_input_returns_count() {
    let (g, n) = parse_input("  5\t1 5 +3\n".to_string()).unwrap();
    assert_eq!(n, 5);
    assert_eq!(triples(&g), vec![(1, 5, 3)]);
}
