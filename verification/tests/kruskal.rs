use trees::kruskal::{kruskal, Edge, UnionFind};
use trees::sorting::sort_by_cost;

#[test]
fn minimum_spanning_tree() {
    let edges = vec![
        Edge::new(0, 1, 2),
        Edge::new(0, 2, 8),
        Edge::new(0, 3, 4),
        Edge::new(0, 4, 6),
        Edge::new(1, 2, 7),
        Edge::new(1, 3, 3),
        Edge::new(1, 4, 6),
        Edge::new(2, 3, 9),
        Edge::new(2, 4, 8),
        Edge::new(3, 4, 5),
    ];
    assert_eq!(
        vec![
            Edge::new(0, 1, 2),
            Edge::new(1, 3, 3),
            Edge::new(3, 4, 5),
            Edge::new(1, 2, 7),
        ],
        kruskal(edges, 5)
    );
}

#[test]
fn no_edges_no_forest() {
    assert_eq!(Vec::<Edge>::new(), kruskal(Vec::new(), 0));
    assert_eq!(Vec::<Edge>::new(), kruskal(Vec::new(), 4));
}

#[test]
fn equal_costs_go_by_given_order() {
    let edges = vec![
        Edge::new(0, 1, 1),
        Edge::new(1, 2, 1),
        Edge::new(0, 2, 1),
    ];
    assert_eq!(
        vec![Edge::new(0, 1, 1), Edge::new(1, 2, 1)],
        kruskal(edges, 3)
    );
    let edges = vec![
        Edge::new(0, 2, 1),
        Edge::new(1, 2, 1),
        Edge::new(0, 1, 1),
    ];
    assert_eq!(
        vec![Edge::new(0, 2, 1), Edge::new(1, 2, 1)],
        kruskal(edges, 3)
    );
}

#[test]
fn graph_in_two_parts_gives_a_forest() {
    let edges = vec![
        Edge::new(3, 4, 9),
        Edge::new(0, 1, 5),
        Edge::new(1, 2, 4),
        Edge::new(0, 2, 3),
        Edge::new(4, 3, 1),
    ];
    assert_eq!(
        vec![Edge::new(4, 3, 1), Edge::new(0, 2, 3), Edge::new(1, 2, 4)],
        kruskal(edges, 6)
    );
}

#[test]
fn loops_and_repeated_edges_are_left_out() {
    let edges = vec![
        Edge::new(1, 1, 0),
        Edge::new(0, 1, 2),
        Edge::new(1, 0, 2),
        Edge::new(0, 1, 1),
    ];
    assert_eq!(vec![Edge::new(0, 1, 1)], kruskal(edges, 2));
}

#[test]
fn sort_is_by_cost_and_stable() {
    let edges = vec![
        Edge::new(0, 1, 3),
        Edge::new(0, 2, 1),
        Edge::new(0, 3, 3),
        Edge::new(0, 4, 2),
        Edge::new(0, 5, 1),
        Edge::new(0, 6, 3),
    ];
    assert_eq!(
        vec![
            Edge::new(0, 2, 1),
            Edge::new(0, 5, 1),
            Edge::new(0, 4, 2),
            Edge::new(0, 1, 3),
            Edge::new(0, 3, 3),
            Edge::new(0, 6, 3),
        ],
        sort_by_cost(edges)
    );
    assert_eq!(Vec::<Edge>::new(), sort_by_cost(Vec::new()));
}

#[test]
fn sort_of_many_edges_matches_a_stable_sort() {
    let mut edges = Vec::new();
    let mut c: usize = 5;
    for i in 0..200 {
        c = (c * 37 + 11) % 23;
        edges.push(Edge::new(i, i + 1, c));
    }
    let mut expected = edges.clone();
    expected.sort_by(|a, b| a.cost.cmp(&b.cost));
    assert_eq!(expected, sort_by_cost(edges));
}

#[test]
fn edge_keeps_its_parts() {
    let e = Edge::new(3, 7, 11);
    assert_eq!(3, e.from);
    assert_eq!(7, e.to);
    assert_eq!(11, e.cost);
    assert_eq!(e, Edge { from: 3, to: 7, cost: 11 });
    assert!(Edge::new(0, 1, 2) < Edge::new(0, 2, 1));
}

#[test]
fn new_sets_are_singletons() {
    let mut uf = UnionFind::new(4);
    for i in 0..4 {
        assert_eq!(i, uf.root(i));
        assert_eq!(1, uf.size(i));
    }
    assert!(uf.same(2, 2));
    assert!(!uf.same(0, 1));
    assert!(!uf.same(3, 2));
}

#[test]
fn unite_merges_two_sets() {
    let mut uf = UnionFind::new(5);
    assert!(uf.unite(0, 1));
    assert!(uf.same(0, 1));
    assert!(uf.same(1, 0));
    assert!(!uf.same(0, 2));
    assert_eq!(0, uf.root(0));
    assert_eq!(0, uf.root(1));
    assert_eq!(2, uf.size(0));
    assert!(!uf.unite(1, 0));
    assert_eq!(2, uf.size(0));
}

#[test]
fn larger_set_keeps_its_representative() {
    let mut uf = UnionFind::new(6);
    assert!(uf.unite(0, 1));
    assert!(uf.unite(0, 2));
    assert_eq!(3, uf.size(0));
    assert!(uf.unite(3, 0));
    assert_eq!(0, uf.root(3));
    assert_eq!(4, uf.size(0));
    assert!(uf.unite(4, 5));
    assert_eq!(4, uf.root(5));
    assert!(uf.unite(5, 2));
    assert_eq!(0, uf.root(4));
    assert_eq!(0, uf.root(5));
    assert_eq!(6, uf.size(0));
    for i in 0..6 {
        for j in 0..6 {
            assert!(uf.same(i, j));
        }
    }
}

#[test]
fn equal_sets_unite_under_the_first() {
    let mut uf = UnionFind::new(4);
    assert!(uf.unite(2, 3));
    assert_eq!(2, uf.root(3));
    assert!(uf.unite(1, 0));
    assert_eq!(1, uf.root(0));
    assert!(uf.unite(3, 0));
    assert_eq!(2, uf.root(0));
    assert_eq!(2, uf.root(1));
    assert_eq!(4, uf.size(2));
}

#[test]
fn root_shortens_the_way_without_changing_sets() {
    let mut uf = UnionFind::new(8);
    uf.unite(0, 1);
    uf.unite(2, 3);
    uf.unite(0, 2);
    uf.unite(4, 5);
    uf.unite(6, 7);
    uf.unite(4, 6);
    uf.unite(0, 4);
    let copy = uf.clone();
    for i in 0..8 {
        assert_eq!(0, uf.root(i));
    }
    let mut copy = copy;
    for i in (0..8).rev() {
        assert_eq!(0, copy.root(i));
    }
    assert_eq!(8, uf.size(0));
}

fn connected(edges: &[Edge], n: usize) -> Vec<usize> {
    let mut part: Vec<usize> = (0..n).collect();
    let mut changed = true;
    while changed {
        changed = false;
        for e in edges {
            let (a, b) = (part[e.from], part[e.to]);
            if a != b {
                let (low, high) = (a.min(b), a.max(b));
                for p in part.iter_mut() {
                    if *p == high {
                        *p = low;
                    }
                }
                changed = true;
            }
        }
    }
    part
}

#[test]
fn forest_costs_no_more_than_any_spanning_choice() {
    let edges = vec![
        Edge::new(0, 1, 4),
        Edge::new(1, 2, 4),
        Edge::new(0, 2, 3),
        Edge::new(2, 3, 7),
        Edge::new(1, 3, 2),
        Edge::new(3, 4, 6),
        Edge::new(2, 4, 6),
        Edge::new(5, 6, 1),
        Edge::new(6, 5, 9),
    ];
    let n = 7;
    let whole = connected(&edges, n);
    let forest = kruskal(edges.clone(), n);
    assert_eq!(whole, connected(&forest, n));
    assert_eq!(
        vec![
            Edge::new(5, 6, 1),
            Edge::new(1, 3, 2),
            Edge::new(0, 2, 3),
            Edge::new(0, 1, 4),
            Edge::new(3, 4, 6),
        ],
        forest
    );
    let cost: usize = forest.iter().map(|e| e.cost).sum();
    assert_eq!(16, cost);
    for choice in 0u32..(1 << edges.len()) {
        let chosen: Vec<Edge> = edges
            .iter()
            .enumerate()
            .filter(|(i, _)| choice & (1 << i) != 0)
            .map(|(_, e)| *e)
            .collect();
        if connected(&chosen, n) == whole {
            let other: usize = chosen.iter().map(|e| e.cost).sum();
            assert!(cost <= other);
        }
    }
}

#[test]
fn forest_has_one_edge_less_than_vertices_per_part() {
    let edges = vec![
        Edge::new(0, 1, 5),
        Edge::new(1, 2, 5),
        Edge::new(2, 0, 5),
        Edge::new(3, 4, 5),
    ];
    let forest = kruskal(edges, 6);
    assert_eq!(3, forest.len());
}

#[test]
fn merge_takes_left_first_among_equals() {
    let left = vec![Edge::new(0, 1, 1), Edge::new(0, 2, 3), Edge::new(0, 3, 3)];
    let right = vec![Edge::new(1, 1, 0), Edge::new(1, 2, 3), Edge::new(1, 3, 4)];
    assert_eq!(
        vec![
            Edge::new(1, 1, 0),
            Edge::new(0, 1, 1),
            Edge::new(0, 2, 3),
            Edge::new(0, 3, 3),
            Edge::new(1, 2, 3),
            Edge::new(1, 3, 4),
        ],
        trees::sorting::merge_by_cost(&left, &right)
    );
    assert_eq!(left, trees::sorting::merge_by_cost(&left, &Vec::new()));
    assert_eq!(right, trees::sorting::merge_by_cost(&Vec::new(), &right));
}

#[test]
fn sort_of_one_and_two_edges() {
    assert_eq!(vec![Edge::new(0, 1, 5)], sort_by_cost(vec![Edge::new(0, 1, 5)]));
    assert_eq!(
        vec![Edge::new(2, 3, 1), Edge::new(0, 1, 5)],
        sort_by_cost(vec![Edge::new(0, 1, 5), Edge::new(2, 3, 1)])
    );
    assert_eq!(
        vec![Edge::new(0, 1, 5), Edge::new(2, 3, 5)],
        sort_by_cost(vec![Edge::new(0, 1, 5), Edge::new(2, 3, 5)])
    );
}

#[test]
fn size_of_a_representative_counts_its_set() {
    let mut uf = UnionFind::new(10);
    for (a, b) in [(0, 1), (2, 3), (4, 5), (0, 2), (6, 4), (9, 8)] {
        uf.unite(a, b);
    }
    for r in 0..10 {
        if uf.root(r) == r {
            let mut members = 0;
            for i in 0..10 {
                if uf.root(i) == r {
                    members += 1;
                }
            }
            assert_eq!(members, uf.size(r));
        }
    }
}
