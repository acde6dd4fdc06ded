use fixedbitset::FixedBitSet;
use plant_sim::grid::Grid;
use plant_sim::simple_graph::{all_connected, components, Node, Occupancy, SimpleGraph};
use plant_sim::square_grid::{Neighbors, SquareGrid};
use plant_sim::tiles::TileId;

fn sorted(tiles: Vec<TileId>) -> Vec<usize> {
    let mut ids: Vec<usize> = tiles.iter().map(|tile| tile.0).collect();
    ids.sort();
    ids
}

fn graph_of(grid: &Grid, tiles: &[usize]) -> SimpleGraph {
    let mut graph = SimpleGraph::default();
    for &tile in tiles {
        graph.add_node(TileId(tile), grid);
    }
    graph
}

/// Everything that `start` reaches through `nodes`, found without the graph.
fn reachable(grid: &Grid, nodes: &[usize], start: usize) -> Vec<usize> {
    let mut seen = vec![start];
    let mut waiting = vec![start];
    while let Some(tile) = waiting.pop() {
        let around = grid.neighbors(TileId(tile));
        for next in [around.up(), around.right(), around.down(), around.left()] {
            if nodes.contains(&next.0) && !seen.contains(&next.0) {
                seen.push(next.0);
                waiting.push(next.0);
            }
        }
    }
    seen.sort();
    seen
}

#[test]
fn node_count_follows_adds_and_removes() {
    let grid = Grid::new(SquareGrid::new(5, 5));
    let mut graph = SimpleGraph::default();
    let mut owned: Vec<usize> = Vec::new();
    assert_eq!(graph.node_count(), 0);
    for tile in [12, 13, 14, 7, 2, 24, 0] {
        graph.add_node(TileId(tile), &grid);
        owned.push(tile);
        owned.sort();
        assert_eq!(graph.node_count(), owned.len());
        assert_eq!(sorted(graph.nodes()), owned);
    }
    for tile in [13, 0, 12, 2] {
        graph.remove_node(TileId(tile));
        owned.retain(|&other| other != tile);
        assert_eq!(graph.node_count(), owned.len());
        assert_eq!(sorted(graph.nodes()), owned);
        assert!(!graph.contains(TileId(tile)));
    }
    for tile in [13, 12] {
        graph.add_node(TileId(tile), &grid);
        owned.push(tile);
        owned.sort();
        assert_eq!(graph.node_count(), owned.len());
        assert_eq!(sorted(graph.nodes()), owned);
        assert!(graph.contains(TileId(tile)));
    }
}

#[test]
fn links_are_kept_in_both_directions() {
    let grid = Grid::new(SquareGrid::new(5, 5));
    let graph = graph_of(&grid, &[12, 13, 17, 11, 7, 0]);
    assert_eq!(sorted(graph.neighbor_iter(TileId(12))), vec![7, 11, 13, 17]);
    assert_eq!(sorted(graph.neighbor_iter(TileId(13))), vec![12]);
    assert_eq!(sorted(graph.neighbor_iter(TileId(7))), vec![12]);
    assert!(graph.neighbor_iter(TileId(0)).is_empty());
}

#[test]
fn linked_neighbors_come_up_right_down_left() {
    let grid = Grid::new(SquareGrid::new(5, 5));
    let graph = graph_of(&grid, &[7, 11, 17, 13, 12]);
    let linked: Vec<usize> = graph.neighbor_iter(TileId(12)).iter().map(|t| t.0).collect();
    assert_eq!(linked, vec![13, 17, 11, 7]);
}

#[test]
fn remove_node_returns_the_linked_neighbors() {
    let grid = Grid::new(SquareGrid::new(5, 5));
    let mut graph = graph_of(&grid, &[12, 13, 11, 0]);
    let linked: Vec<usize> = graph.remove_node(TileId(12)).iter().map(|t| t.0).collect();
    assert_eq!(linked, vec![13, 11]);
    assert!(graph.neighbor_iter(TileId(13)).is_empty());
    assert!(graph.neighbor_iter(TileId(11)).is_empty());
    assert!(graph.remove_node(TileId(0)).is_empty());
}

#[test]
fn the_surface_is_what_borders_the_nodes() {
    let grid = Grid::new(SquareGrid::new(5, 5));
    let mut graph = SimpleGraph::default();
    assert!(graph.all_unoccupied_neighbors().is_empty());
    graph.add_node(TileId(12), &grid);
    assert_eq!(sorted(graph.all_unoccupied_neighbors()), vec![7, 11, 13, 17]);
    graph.add_node(TileId(13), &grid);
    assert_eq!(sorted(graph.all_unoccupied_neighbors()), vec![7, 8, 11, 14, 17, 18]);
    graph.add_node(TileId(7), &grid);
    assert_eq!(sorted(graph.all_unoccupied_neighbors()), vec![2, 6, 8, 11, 14, 17, 18]);
    let mut pairs: Vec<(usize, Vec<usize>)> = graph
        .unoccupied_neighbors_iter()
        .into_iter()
        .map(|(tile, nodes)| (tile.0, sorted(nodes)))
        .collect();
    pairs.sort();
    assert_eq!(
        pairs,
        vec![
            (2, vec![7]),
            (6, vec![7]),
            (8, vec![7, 13]),
            (11, vec![12]),
            (14, vec![13]),
            (17, vec![12]),
            (18, vec![13]),
        ]
    );
    graph.remove_node(TileId(13));
    assert_eq!(sorted(graph.all_unoccupied_neighbors()), vec![2, 6, 8, 11, 13, 17]);
    graph.remove_node(TileId(12));
    assert_eq!(sorted(graph.all_unoccupied_neighbors()), vec![2, 6, 8, 12]);
    graph.remove_node(TileId(7));
    assert!(graph.all_unoccupied_neighbors().is_empty());
}

#[test]
fn a_torus_two_tiles_wide_is_handled() {
    let grid = Grid::new(SquareGrid::new(2, 4));
    let mut graph = SimpleGraph::default();
    graph.add_node(TileId(0), &grid);
    assert_eq!(sorted(graph.all_unoccupied_neighbors()), vec![1, 3, 4]);
    graph.add_node(TileId(4), &grid);
    assert_eq!(sorted(graph.neighbor_iter(TileId(0))), vec![4, 4]);
    assert_eq!(sorted(graph.all_unoccupied_neighbors()), vec![1, 3, 5, 7]);
    let linked = graph.remove_node(TileId(0));
    assert_eq!(sorted(linked), vec![4, 4]);
    assert_eq!(sorted(graph.all_unoccupied_neighbors()), vec![0, 5, 7]);
    graph.remove_node(TileId(4));
    assert_eq!(graph.node_count(), 0);
    assert!(graph.all_unoccupied_neighbors().is_empty());
}

#[test]
fn a_torus_one_tile_wide_is_handled() {
    let grid = Grid::new(SquareGrid::new(1, 3));
    let mut graph = SimpleGraph::default();
    graph.add_node(TileId(1), &grid);
    assert_eq!(sorted(graph.all_unoccupied_neighbors()), vec![0, 2]);
    assert!(graph.neighbor_iter(TileId(1)).is_empty());
    graph.add_node(TileId(2), &grid);
    assert_eq!(sorted(graph.neighbor_iter(TileId(1))), vec![2]);
    graph.remove_node(TileId(1));
    assert_eq!(sorted(graph.all_unoccupied_neighbors()), vec![0, 1]);
    graph.remove_node(TileId(2));
    assert!(graph.all_unoccupied_neighbors().is_empty());
    assert_eq!(graph.node_count(), 0);
}

#[test]
fn all_connected_with_fewer_than_two_tiles() {
    let grid = Grid::new(SquareGrid::new(4, 4));
    let graph = graph_of(&grid, &[0, 5]);
    let mut visited = FixedBitSet::with_capacity(16);
    assert!(all_connected(&graph, &[], &mut visited));
    assert!(all_connected(&graph, &[TileId(0)], &mut visited));
    assert_eq!(visited.count_ones(..), 0);
}

#[test]
fn all_connected_finds_a_way_around() {
    let grid = Grid::new(SquareGrid::new(6, 6));
    // A ring around the tile 14 with the tile 13 taken out: 8 and 20 are
    // still linked the long way round.
    let graph = graph_of(&grid, &[7, 8, 9, 15, 21, 20, 19]);
    let mut visited = FixedBitSet::with_capacity(36);
    assert!(all_connected(&graph, &[TileId(7), TileId(19)], &mut visited));
    let mut visited = FixedBitSet::with_capacity(36);
    assert!(all_connected(&graph, &[TileId(19), TileId(7), TileId(15)], &mut visited));
}

#[test]
fn all_connected_marks_the_whole_part_when_it_fails() {
    let grid = Grid::new(SquareGrid::new(6, 6));
    let graph = graph_of(&grid, &[7, 8, 9, 20, 21]);
    let mut visited = FixedBitSet::with_capacity(36);
    assert!(!all_connected(&graph, &[TileId(8), TileId(20)], &mut visited));
    let marked: Vec<usize> = visited.ones().collect();
    assert_eq!(marked, vec![7, 8, 9]);
    let mut visited = FixedBitSet::with_capacity(36);
    assert!(!all_connected(&graph, &[TileId(21), TileId(20), TileId(7)], &mut visited));
    let marked: Vec<usize> = visited.ones().collect();
    assert_eq!(marked, vec![20, 21]);
}

#[test]
fn all_connected_counts_a_repeated_first_tile_as_reached() {
    let grid = Grid::new(SquareGrid::new(4, 4));
    let graph = graph_of(&grid, &[0, 1]);
    let mut visited = FixedBitSet::with_capacity(16);
    assert!(all_connected(&graph, &[TileId(0), TileId(0)], &mut visited));
    let mut visited = FixedBitSet::with_capacity(16);
    assert!(all_connected(&graph, &[TileId(0), TileId(1), TileId(0)], &mut visited));
}

#[test]
fn all_connected_agrees_with_a_search_from_scratch() {
    let grid = Grid::new(SquareGrid::new(5, 5));
    let shapes: Vec<Vec<usize>> = vec![
        vec![1, 2, 3, 6, 8, 11, 12, 13],
        vec![0, 1, 2, 3, 4, 9, 14, 19, 24],
        vec![6, 7, 8, 11, 13, 16, 17, 18, 12],
        vec![0, 6, 12, 18, 24],
        vec![5, 10, 15, 20, 0, 21, 22, 23, 24, 4],
        vec![2, 7, 12, 17, 22, 10, 11, 13, 14],
    ];
    for shape in shapes {
        for &gone in &shape {
            let mut graph = graph_of(&grid, &shape);
            let linked = graph.remove_node(TileId(gone));
            if linked.len() < 2 {
                continue;
            }
            let rest: Vec<usize> = shape.iter().copied().filter(|&t| t != gone).collect();
            let part = reachable(&grid, &rest, linked[0].0);
            let wanted = linked.iter().all(|tile| part.contains(&tile.0));
            let mut visited = FixedBitSet::with_capacity(25);
            let found = all_connected(&graph, &linked, &mut visited);
            assert_eq!(found, wanted, "shape {:?} without {}", shape, gone);
            if !found {
                let marked: Vec<usize> = visited.ones().collect();
                assert_eq!(marked, part);
            }
        }
    }
}

#[test]
fn components_cut_the_nodes_into_their_parts() {
    let grid = Grid::new(SquareGrid::new(6, 6));
    let graph = graph_of(&grid, &[7, 8, 9, 20, 21, 35]);
    let mut visited = FixedBitSet::with_capacity(36);
    let parts = components(&graph, &mut visited);
    assert!(parts[0].is_empty());
    let mut rest: Vec<Vec<usize>> = parts[1..].iter().map(|part| sorted(part.clone())).collect();
    rest.sort();
    assert_eq!(rest, vec![vec![7, 8, 9], vec![20, 21], vec![35]]);
    assert_eq!(visited.count_ones(..), 6);
}

#[test]
fn components_start_with_what_is_marked() {
    let grid = Grid::new(SquareGrid::new(6, 6));
    let graph = graph_of(&grid, &[7, 8, 9, 20, 21, 35]);
    let mut visited = FixedBitSet::with_capacity(36);
    assert!(!all_connected(&graph, &[TileId(9), TileId(35)], &mut visited));
    let parts = components(&graph, &mut visited);
    let first: Vec<usize> = parts[0].iter().map(|tile| tile.0).collect();
    assert_eq!(first, vec![7, 8, 9]);
    let mut rest: Vec<Vec<usize>> = parts[1..].iter().map(|part| sorted(part.clone())).collect();
    rest.sort();
    assert_eq!(rest, vec![vec![20, 21], vec![35]]);
    let marked: Vec<usize> = visited.ones().collect();
    assert_eq!(marked, vec![7, 8, 9, 20, 21, 35]);
}

#[test]
fn components_of_a_graph_without_nodes() {
    let graph = SimpleGraph::default();
    let mut visited = FixedBitSet::with_capacity(4);
    let parts = components(&graph, &mut visited);
    assert_eq!(parts.len(), 1);
    assert!(parts[0].is_empty());
}

#[test]
fn occupancy_tells_which_tile_it_is() {
    let linked = Occupancy::Occupied(TileId(3));
    let open = Occupancy::Unoccupied(TileId(4));
    assert_eq!(linked.occupied(), Some(TileId(3)));
    assert_eq!(linked.unoccupied(), None);
    assert_eq!(open.occupied(), None);
    assert_eq!(open.unoccupied(), Some(TileId(4)));
    assert!(linked.is_occupied());
    assert!(open.is_unoccupied());
}

#[test]
fn a_node_links_and_unlinks_every_entry_of_a_tile() {
    let entries = Neighbors::new(
        Occupancy::Unoccupied(TileId(1)),
        Occupancy::Unoccupied(TileId(2)),
        Occupancy::Unoccupied(TileId(1)),
        Occupancy::Occupied(TileId(3)),
    );
    let mut node = Node::new(TileId(0), entries);
    node.connect_to(TileId(1));
    assert_eq!(
        node.neighbors.0,
        [
            Occupancy::Occupied(TileId(1)),
            Occupancy::Unoccupied(TileId(2)),
            Occupancy::Occupied(TileId(1)),
            Occupancy::Occupied(TileId(3)),
        ]
    );
    node.disconnect_from(TileId(3));
    node.disconnect_from(TileId(2));
    assert_eq!(
        node.neighbors.0,
        [
            Occupancy::Occupied(TileId(1)),
            Occupancy::Unoccupied(TileId(2)),
            Occupancy::Occupied(TileId(1)),
            Occupancy::Unoccupied(TileId(3)),
        ]
    );
    assert_eq!(node.id, TileId(0));
}

#[test]
fn neighbors_are_mapped_in_their_order() {
    let around = Neighbors::new(1u32, 2, 3, 4);
    let doubled = around.map(|value| value * 2);
    assert_eq!(doubled.0, [2, 4, 6, 8]);
    assert_eq!(around.get(0), around.up());
    assert_eq!(around.get(3), around.left());
}
