use std::cell::Cell;
use graph_arena::graph::{transform_part, Graph, TraverseResult};
use graph_arena::utils::{handle_from_edge_handle, split_to_parts};

#[test]
pub fn handle_stability_test() {
    let mut graph = Graph::with_reserve(4);
    let a = graph.create_leaf("a");
    let b = graph.create_and_connect_leaf(a.edge_handle, "b");
    // unrelated creations elsewhere must not disturb what `a` and `b` address
    for i in 0..100 {
        if i % 2 == 0 {
            graph.create_leaf("filler");
        } else {
            graph.create_and_connect_leaf(b.edge_handle, "leaf");
        }
    }
    assert_eq!(*graph.vertices.at_handle(a.vertex_handle), "a");
    assert_eq!(*graph.vertices.at_handle(b.vertex_handle), "b");
    assert_eq!(graph.edges.len(a.edge_handle), 1);
    let a_edges = graph.edges.edges(a.edge_handle).unwrap();
    assert_eq!(a_edges[0].0, b.edge_handle.0);
}

#[test]
pub fn capacity_invariant_test() {
    let mut graph = Graph::new();
    let root = graph.create("root", 3);
    assert!(graph.edges.len(root.edge_handle) <= graph.edges.reserve(root.edge_handle));
    for _ in 0..3 {
        graph.create_and_connect_leaf(root.edge_handle, "c");
        assert!(graph.edges.len(root.edge_handle) <= graph.edges.reserve(root.edge_handle));
    }
    assert_eq!(graph.edges.len(root.edge_handle), 3);
    assert_eq!(graph.edges.reserve(root.edge_handle), 3);
}

#[test]
pub fn disconnect_absent_neighbor_test() {
    let mut graph = Graph::with_reserve(4);
    let a = graph.create_leaf("a");
    graph.create_and_connect_leaf(a.edge_handle, "b");
    let stranger = graph.create_leaf("stranger");
    // disconnecting a node that was never connected is a silent no-op
    graph.edges.disconnect(a.edge_handle, stranger.edge_handle);
    assert_eq!(graph.edges.len(a.edge_handle), 1);
    graph.edges.disconnect(stranger.edge_handle, a.edge_handle);
    assert_eq!(graph.edges.len(stranger.edge_handle), 0);
}

#[test]
pub fn bfs_twice_visits_all_once_test() {
    let mut graph = Graph::with_reserve(3);
    let root = graph.create_leaf(0);
    let a = graph.create_and_connect_leaf(root.edge_handle, 1);
    let b = graph.create_and_connect_leaf(root.edge_handle, 2);
    graph.create_and_connect_leaf(a.edge_handle, 3);
    graph.create_and_connect_leaf(a.edge_handle, 4);
    graph.create_and_connect_leaf(b.edge_handle, 5);

    let first = graph.bfs(root.edge_handle, |_v, _h| TraverseResult::Continue);
    assert_eq!(first.len(), 6);
    let mut offs: Vec<usize> = first.iter().map(|h| h.edge_handle.0).collect();
    offs.sort();
    offs.dedup();
    assert_eq!(offs.len(), 6);

    // generation state does not leak: a second pass visits all six again
    let second = graph.bfs(root.edge_handle, |_v, _h| TraverseResult::Continue);
    assert_eq!(second.len(), 6);
    let mut offs2: Vec<usize> = second.iter().map(|h| h.edge_handle.0).collect();
    offs2.sort();
    offs2.dedup();
    assert_eq!(offs2.len(), 6);
}

#[test]
pub fn bfs_early_exit_test() {
    let mut graph = Graph::with_reserve(3);
    let root = graph.create_leaf(0);
    let a = graph.create_and_connect_leaf(root.edge_handle, 1);
    graph.create_and_connect_leaf(root.edge_handle, 2);
    graph.create_and_connect_leaf(a.edge_handle, 3);

    let calls = Cell::new(0usize);
    let visited = graph.bfs(root.edge_handle, |_v, _h| {
        calls.set(calls.get() + 1);
        TraverseResult::End
    });
    // End on the first node: nothing still queued is ever visited
    assert_eq!(calls.get(), 1);
    assert_eq!(visited.len(), 1);
    assert_eq!(visited[0].edge_handle.0, root.edge_handle.0);
}

#[test]
pub fn tree_root_is_parent_chain_test() {
    let graph: Graph<&str> = Graph::new_large();
    let mut tree = graph.tree_view();
    let a = tree.create_node("a");
    let b = tree.create_child(a.edge_handle, "b");
    let c = tree.create_child(b.edge_handle, "c");
    let d = tree.create_child(c.edge_handle, "d");

    // follow get_parent until a node that is its own root
    let mut cursor = d;
    loop {
        let root = tree.get_root(cursor.edge_handle);
        if root.edge_handle.0 == cursor.edge_handle.0 {
            break;
        }
        cursor = tree.get_parent(cursor.edge_handle);
    }
    assert_eq!(cursor.edge_handle.0, a.edge_handle.0);
    assert_eq!(tree.get_root(d.edge_handle).edge_handle.0, a.edge_handle.0);
    assert_eq!(tree.get_parent(d.edge_handle).edge_handle.0, c.edge_handle.0);
}

#[test]
pub fn split_transform_matches_sequential_test() {
    let input: Vec<u64> = (0..10000).collect();
    let mut graph: Graph<u64> = Graph::new();
    for v in &input {
        graph.create_leaf(*v);
    }
    graph.vertices.transform(|v: u64| v * 10);

    // the same elementwise pass over contiguous parts, rejoined, agrees
    let parts = split_to_parts(&input, 7);
    let mut rejoined: Vec<u64> = Vec::new();
    for part in &parts {
        for v in part {
            rejoined.push(*v * 10);
        }
    }
    assert_eq!(rejoined.len(), 10000);
    for i in 0..10000usize {
        assert_eq!(*graph.vertices.at(i), rejoined[i]);
        assert_eq!(rejoined[i], (i as u64) * 10);
    }
}

#[test]
pub fn split_to_parts_shapes_test() {
    let even: Vec<u32> = (0..12).collect();
    let parts = split_to_parts(&even, 4);
    assert_eq!(parts.len(), 4);
    for part in &parts {
        assert_eq!(part.len(), 3);
    }

    let odd: Vec<u32> = (0..13).collect();
    let parts = split_to_parts(&odd, 4);
    assert_eq!(parts.len(), 5);
    for part in parts.iter().take(4) {
        assert_eq!(part.len(), 3);
    }
    assert_eq!(parts[4], vec![12]);

    let short: Vec<u32> = vec![7, 8];
    let parts = split_to_parts(&short, 5);
    assert_eq!(parts.len(), 6);
    assert_eq!(parts[5], vec![7, 8]);
}

#[test]
pub fn handle_resolution_test() {
    let mut graph = Graph::new_large();
    let a = graph.create_leaf("a");
    let b = graph.create_leaf("b");
    let ha = handle_from_edge_handle(&graph.edges, a.edge_handle);
    let hb = handle_from_edge_handle(&graph.edges, b.edge_handle);
    assert_eq!(ha.vertex_handle.0, a.vertex_handle.0);
    assert_eq!(hb.vertex_handle.0, b.vertex_handle.0);
    assert_eq!(*graph.vertices.at_handle(ha.vertex_handle), "a");
    assert_eq!(*graph.vertices.at_handle(hb.vertex_handle), "b");
}

#[test]
pub fn transform_part_write_range_test() {
    let input: Vec<u64> = (0..10).collect();
    let mut graph: Graph<u64> = Graph::new();
    for v in &input {
        graph.create_leaf(*v);
    }
    graph.vertices.transform(|v: u64| v + 3);

    // the same pass in parts, written back over a second copy, agrees
    let mut graph2: Graph<u64> = Graph::new();
    for v in &input {
        graph2.create_leaf(*v);
    }
    let parts = split_to_parts(&input, 3);
    let mut offset = 0;
    for part in &parts {
        let done = transform_part(part, |v: u64| v + 3);
        graph2.vertices.write_range(offset, &done);
        offset += done.len();
    }
    for i in 0..10usize {
        assert_eq!(*graph.vertices.at(i), *graph2.vertices.at(i));
        assert_eq!(*graph2.vertices.at(i), (i as u64) + 3);
    }
}
