use pheap::graph::{mst_prim, SimpleGraph};
use pheap::Weight;

fn wikipedia() -> SimpleGraph<u32> {
    let mut g = SimpleGraph::<u32>::with_capacity(6);
    g.add_weighted_edges(0, 1, 7);
    g.add_weighted_edges(0, 2, 9);
    g.add_weighted_edges(0, 5, 14);
    g.add_weighted_edges(1, 2, 10);
    g.add_weighted_edges(1, 3, 15);
    g.add_weighted_edges(2, 5, 2);
    g.add_weighted_edges(2, 3, 11);
    g.add_weighted_edges(3, 4, 6);
    g.add_weighted_edges(4, 5, 9);
    g
}

#[test]
fn test_dijkstra() {
    let mut g = SimpleGraph::<u32>::with_capacity(6);

    g.add_weighted_edges(0, 1, 7);
    g.add_weighted_edges(0, 2, 9);
    g.add_weighted_edges(0, 5, 14);
    g.add_weighted_edges(1, 2, 10);
    g.add_weighted_edges(1, 3, 15);
    g.add_weighted_edges(2, 5, 2);
    g.add_weighted_edges(2, 3, 11);
    g.add_weighted_edges(3, 4, 6);
    g.add_weighted_edges(4, 5, 9);

    let mut sp = g.sssp_dijkstra(0, &[4]);
    assert_eq!(1, sp.len());

    let sp = sp.pop().unwrap();
    assert_eq!(true, sp.is_feasible());
    assert_eq!(20, sp.dist());
    assert_eq!(&[0, 2, 5, 4], sp.path().as_slice());

    g.add_weighted_edges(6, 7, 2);
    g.add_weighted_edges(6, 8, 3);

    let lsp = g.sssp_dijkstra_lazy(0);
    let sp = lsp.get(7);
    assert_eq!(false, sp.is_feasible());

    let sp = lsp.get(4);
    assert_eq!(true, sp.is_feasible());
    assert_eq!(20, sp.dist());
    assert_eq!(&[0, 2, 5, 4], sp.path().as_slice());
}

#[test]
fn tests_test_dijkstra() {
    let mut g = SimpleGraph::<u32>::with_capacity(6);

    g.add_weighted_edges(0, 1, 7);
    g.add_weighted_edges(0, 2, 9);
    g.add_weighted_edges(0, 5, 14);
    g.add_weighted_edges(1, 2, 10);
    g.add_weighted_edges(1, 3, 15);
    g.add_weighted_edges(2, 5, 2);
    g.add_weighted_edges(2, 3, 11);
    g.add_weighted_edges(3, 4, 6);
    g.add_weighted_edges(4, 5, 9);

    let mut sp = g.sssp_dijkstra(0, &[4]);
    assert_eq!(1, sp.len());

    let sp = sp.pop().unwrap();
    assert_eq!(true, sp.is_feasible());
    assert_eq!(20, sp.dist());
    assert_eq!(&[0, 2, 5, 4], sp.path().as_slice());

    g.add_weighted_edges(6, 7, 2);
    g.add_weighted_edges(6, 8, 3);

    let lsp = g.sssp_dijkstra_lazy(0);
    let sp = lsp.get(7);
    assert_eq!(false, sp.is_feasible());

    let sp = lsp.get(4);
    assert_eq!(true, sp.is_feasible());
    assert_eq!(20, sp.dist());
    assert_eq!(&[0, 2, 5, 4], sp.path().as_slice());
}

#[test]
fn graph_counts_nodes_and_half_edges() {
    let d = SimpleGraph::<u32>::default();
    assert_eq!(d.n_nodes(), 0);
    assert_eq!(d.n_edges(), 0);
    let mut g = SimpleGraph::<u32>::new();
    assert_eq!(g.n_nodes(), 0);
    assert_eq!(g.n_edges(), 0);
    assert!(g.is_dense());
    g.add_weighted_edges(0, 1, 5);
    assert_eq!(g.n_nodes(), 2);
    assert_eq!(g.n_edges(), 2);
    g.add_weighted_edges(1, 2, 6);
    assert_eq!(g.n_nodes(), 3);
    assert_eq!(g.n_edges(), 4);
    assert!(g.is_dense());
}

#[test]
fn graph_rejects_loops() {
    let mut g = SimpleGraph::<u32>::new();
    g.add_weighted_edges(3, 3, 1);
    assert_eq!(g.n_nodes(), 0);
    assert_eq!(g.n_edges(), 0);
    assert!(g.neighbours(&3).is_none());
    g.add_weighted_edges(0, 1, 1);
    g.add_weighted_edges(1, 1, 9);
    assert_eq!(g.n_edges(), 2);
    assert_eq!(g.neighbours(&1), Some(&vec![(0, 1)]));
}

#[test]
fn graph_keeps_parallel_edges_in_order() {
    let mut g = SimpleGraph::<u64>::new();
    g.add_weighted_edges(0, 1, 5);
    g.add_weighted_edges(1, 0, 3);
    g.add_weighted_edges(0, 2, 8);
    assert_eq!(g.neighbours(&0), Some(&vec![(1, 5), (1, 3), (2, 8)]));
    assert_eq!(g.neighbours(&1), Some(&vec![(0, 5), (0, 3)]));
    assert_eq!(g.neighbours(&2), Some(&vec![(0, 8)]));
    assert!(g.neighbours(&7).is_none());
    assert_eq!(g.n_nodes(), 3);
    assert_eq!(g.n_edges(), 6);
}

#[test]
fn graph_with_a_gap_is_not_dense() {
    let mut g = SimpleGraph::<u32>::new();
    g.add_weighted_edges(0, 2, 5);
    assert!(!g.is_dense());
    g.add_weighted_edges(1, 2, 5);
    assert!(g.is_dense());
    g.add_weighted_edges(7, 2, 5);
    assert!(!g.is_dense());
}

#[test]
fn dijkstra_gives_every_distance_of_the_example() {
    let g = wikipedia();
    let sps = g.sssp_dijkstra(0, &[1, 2, 3, 4, 5]);
    let dists: Vec<u32> = sps.iter().map(|sp| sp.dist()).collect();
    assert_eq!(dists, vec![7, 9, 20, 20, 11]);
    let paths: Vec<Vec<usize>> = sps.iter().map(|sp| sp.path().clone()).collect();
    assert_eq!(
        paths,
        vec![
            vec![0, 1],
            vec![0, 2],
            vec![0, 2, 3],
            vec![0, 2, 5, 4],
            vec![0, 2, 5]
        ]
    );
    for (k, sp) in sps.iter().enumerate() {
        assert_eq!(sp.src(), 0);
        assert_eq!(sp.dest(), k + 1);
        assert!(sp.is_feasible());
    }
}

#[test]
fn dijkstra_from_another_source() {
    let g = wikipedia();
    let lsp = g.sssp_dijkstra_lazy(4);
    let sp = lsp.get(0);
    assert!(sp.is_feasible());
    assert_eq!(sp.dist(), 20);
    assert_eq!(sp.path(), &vec![4, 5, 2, 0]);
    assert_eq!(lsp.get(1).dist(), 21);
    assert_eq!(lsp.get(3).dist(), 6);
}

#[test]
fn the_source_is_reached_with_no_edge() {
    let g = wikipedia();
    let lsp = g.sssp_dijkstra_lazy(0);
    let sp = lsp.get(0);
    assert!(sp.is_feasible());
    assert_eq!(sp.dist(), 0);
    assert_eq!(sp.path().as_slice(), &[0]);
    assert_eq!(sp.src(), 0);
    assert_eq!(sp.dest(), 0);
    let all = lsp.get_all();
    assert!(all[0].is_feasible());
    assert_eq!(all[0].path(), &vec![0]);
    let sps = g.sssp_dijkstra(3, &[3, 4]);
    assert!(sps[0].is_feasible());
    assert_eq!(sps[0].dist(), 0);
    assert_eq!(sps[0].path(), &vec![3]);
    assert_eq!(sps[1].path(), &vec![3, 4]);
}

#[test]
fn get_all_agrees_with_get() {
    let mut g = wikipedia();
    g.add_weighted_edges(6, 7, 2);
    g.add_weighted_edges(6, 8, 3);
    for src in 0..9 {
        let lsp = g.sssp_dijkstra_lazy(src);
        let all = lsp.get_all();
        assert_eq!(all.len(), 9);
        let list = lsp.get_list(&[8, 7, 6, 5, 4, 3, 2, 1, 0]);
        assert_eq!(list.len(), 9);
        for v in 0..9 {
            let one = lsp.get(v);
            assert_eq!(all[v].is_feasible(), one.is_feasible());
            assert_eq!(all[v].dist(), one.dist());
            assert_eq!(all[v].path(), one.path());
            assert_eq!(all[v].src(), src);
            assert_eq!(all[v].dest(), v);
            assert_eq!(list[8 - v].path(), one.path());
            assert_eq!(list[8 - v].dest(), v);
        }
    }
    let lsp = g.sssp_dijkstra_lazy(0);
    let all = lsp.get_all();
    assert_eq!(all[4].path(), &vec![0, 2, 5, 4]);
    assert_eq!(all[3].path(), &vec![0, 2, 3]);
    assert!(!all[7].is_feasible());
    assert!(all[7].path().is_empty());
}

#[test]
fn dijkstra_takes_the_lighter_of_parallel_edges() {
    let mut g = SimpleGraph::<u32>::new();
    g.add_weighted_edges(0, 1, 9);
    g.add_weighted_edges(0, 1, 4);
    g.add_weighted_edges(1, 2, 1);
    g.add_weighted_edges(0, 2, 6);
    let sps = g.sssp_dijkstra(0, &[1, 2]);
    assert_eq!(sps[0].dist(), 4);
    assert_eq!(sps[1].dist(), 5);
    assert_eq!(sps[1].path(), &vec![0, 1, 2]);
}

#[test]
fn a_distance_at_the_largest_weight_is_not_feasible() {
    let mut g = SimpleGraph::<u32>::new();
    g.add_weighted_edges(0, 1, u32::MAX - 1);
    g.add_weighted_edges(1, 2, 5);
    let sps = g.sssp_dijkstra(0, &[1, 2]);
    assert!(sps[0].is_feasible());
    assert_eq!(sps[0].dist(), u32::MAX - 1);
    assert!(!sps[1].is_feasible());
    assert!(sps[1].path().is_empty());
}

#[test]
fn weights_start_at_zero_and_stop_at_the_largest() {
    assert_eq!(<u32 as Weight>::zero(), 0);
    assert_eq!(<u32 as Weight>::max_value(), u32::MAX);
    assert_eq!(3u32.plus(4), 7);
    assert_eq!((u32::MAX - 1).plus(4), u32::MAX);
    assert_eq!(<u64 as Weight>::zero(), 0);
    assert_eq!(<u64 as Weight>::max_value(), u64::MAX);
    assert_eq!(3u64.plus(4), 7);
    assert_eq!(u64::MAX.plus(1), u64::MAX);
    assert_eq!(<usize as Weight>::zero(), 0);
    assert_eq!(<usize as Weight>::max_value(), usize::MAX);
    assert_eq!(3usize.plus(4), 7);
    assert_eq!(usize::MAX.plus(usize::MAX), usize::MAX);
}

fn clrs() -> SimpleGraph<u32> {
    let mut g = SimpleGraph::<u32>::new();
    g.add_weighted_edges(0, 1, 4);
    g.add_weighted_edges(0, 7, 8);
    g.add_weighted_edges(1, 2, 8);
    g.add_weighted_edges(1, 7, 11);
    g.add_weighted_edges(2, 3, 7);
    g.add_weighted_edges(2, 5, 4);
    g.add_weighted_edges(2, 8, 2);
    g.add_weighted_edges(3, 4, 9);
    g.add_weighted_edges(3, 5, 14);
    g.add_weighted_edges(4, 5, 10);
    g.add_weighted_edges(5, 6, 2);
    g.add_weighted_edges(6, 7, 1);
    g.add_weighted_edges(6, 8, 6);
    g.add_weighted_edges(7, 8, 7);
    g
}

#[test]
fn test_mst_prim() {
    let mut g = SimpleGraph::<u32>::new();

    g.add_weighted_edges(0, 1, 4);
    g.add_weighted_edges(0, 7, 8);
    g.add_weighted_edges(1, 2, 8);
    g.add_weighted_edges(1, 7, 11);
    g.add_weighted_edges(2, 3, 7);
    g.add_weighted_edges(2, 5, 4);
    g.add_weighted_edges(2, 8, 2);
    g.add_weighted_edges(3, 4, 9);
    g.add_weighted_edges(3, 5, 14);
    g.add_weighted_edges(4, 5, 10);
    g.add_weighted_edges(5, 6, 2);
    g.add_weighted_edges(6, 7, 1);
    g.add_weighted_edges(6, 8, 6);
    g.add_weighted_edges(7, 8, 7);

    let (g0, d0) = mst_prim(&g, 0);
    let (g4, d4) = mst_prim(&g, 4);

    assert_eq!(d0, d4);
    assert_eq!(g0.n_nodes(), g4.n_nodes());
    assert_eq!(g0.n_edges(), g4.n_edges());
}

#[test]
fn tests_test_mst_prim() {
    let mut g = SimpleGraph::<u32>::with_capacity(6);

    g.add_weighted_edges(0, 1, 4);
    g.add_weighted_edges(0, 7, 8);
    g.add_weighted_edges(1, 2, 8);
    g.add_weighted_edges(1, 7, 11);
    g.add_weighted_edges(2, 3, 7);
    g.add_weighted_edges(2, 5, 4);
    g.add_weighted_edges(2, 8, 2);
    g.add_weighted_edges(3, 4, 9);
    g.add_weighted_edges(3, 5, 14);
    g.add_weighted_edges(4, 5, 10);
    g.add_weighted_edges(5, 6, 2);
    g.add_weighted_edges(6, 7, 1);
    g.add_weighted_edges(6, 8, 6);
    g.add_weighted_edges(7, 8, 7);

    let (g0, d0) = mst_prim(&g, 0);
    let (g4, d4) = mst_prim(&g, 4);

    assert_eq!(d0, d4);
    assert_eq!(g0.n_nodes(), g4.n_nodes());
    assert_eq!(g0.n_edges(), g4.n_edges());
}

#[test]
fn prim_gives_the_weight_of_the_example() {
    let g = clrs();
    for src in 0..9 {
        let (t, d) = mst_prim(&g, src);
        assert_eq!(d, 37);
        assert_eq!(t.n_nodes(), 9);
        assert_eq!(t.n_edges(), 16);
        assert!(t.is_dense());
        assert!(t.neighbours(&src).is_some());
    }
}

#[test]
fn prim_tree_of_a_small_graph() {
    let mut g = SimpleGraph::<u32>::new();
    g.add_weighted_edges(0, 1, 1);
    g.add_weighted_edges(1, 2, 2);
    g.add_weighted_edges(0, 2, 5);
    let (t, d) = mst_prim(&g, 0);
    assert_eq!(d, 3);
    assert_eq!(t.neighbours(&0), Some(&vec![(1, 1)]));
    assert_eq!(t.neighbours(&1), Some(&vec![(0, 1), (2, 2)]));
    assert_eq!(t.neighbours(&2), Some(&vec![(1, 2)]));
}

#[test]
fn prim_takes_the_lighter_of_parallel_edges() {
    let mut g = SimpleGraph::<u32>::new();
    g.add_weighted_edges(0, 1, 9);
    g.add_weighted_edges(0, 1, 4);
    let (t, d) = mst_prim(&g, 0);
    assert_eq!(d, 4);
    assert_eq!(t.n_edges(), 2);
    assert_eq!(t.neighbours(&1), Some(&vec![(0, 4)]));
}

#[test]
fn prim_on_two_components_gives_a_forest() {
    let mut g = SimpleGraph::<u64>::new();
    g.add_weighted_edges(0, 1, 4);
    g.add_weighted_edges(2, 3, 5);
    g.add_weighted_edges(3, 4, 6);
    g.add_weighted_edges(2, 4, 7);
    let (t, d) = mst_prim(&g, 0);
    assert_eq!(d, 15);
    assert_eq!(t.n_nodes(), 5);
    assert_eq!(t.n_edges(), 6);
    let (t, d) = mst_prim(&g, 99);
    assert_eq!(d, 15);
    assert_eq!(t.n_nodes(), 5);
    assert_eq!(t.n_edges(), 6);
}

#[test]
fn prim_leaves_out_an_edge_of_the_largest_weight() {
    let mut g = SimpleGraph::<u32>::new();
    g.add_weighted_edges(0, 1, u32::MAX);
    let (t, d) = mst_prim(&g, 0);
    assert_eq!(d, 0);
    assert_eq!(t.n_nodes(), 0);
    assert_eq!(t.n_edges(), 0);
}

#[test]
fn prim_total_stops_at_the_largest_weight() {
    let mut g = SimpleGraph::<u32>::new();
    g.add_weighted_edges(0, 1, u32::MAX - 1);
    g.add_weighted_edges(1, 2, u32::MAX - 1);
    let (t, d) = mst_prim(&g, 0);
    assert_eq!(d, u32::MAX);
    assert_eq!(t.n_edges(), 4);
}

#[test]
fn prim_on_an_empty_graph() {
    let g = SimpleGraph::<u32>::new();
    let (t, d) = mst_prim(&g, 0);
    assert_eq!(d, 0);
    assert_eq!(t.n_nodes(), 0);
}

#[test]
fn nodes_lists_every_node_once() {
    let mut g = SimpleGraph::<u32>::new();
    assert!(g.nodes().is_empty());
    g.add_weighted_edges(4, 9, 1);
    g.add_weighted_edges(9, 2, 1);
    let mut ns = g.nodes();
    ns.sort();
    assert_eq!(ns, vec![2, 4, 9]);
}
