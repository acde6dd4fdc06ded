use crate::bit_set::{
    bitset_contains, bitset_insert, bitset_len, bitset_ones, bitset_positions, bitset_put,
};
use crate::grid::Grid;
use crate::int_map::{
    int_map_get, int_map_insert, int_map_keys, int_map_len, int_map_remove, int_set_insert,
    int_set_members, int_set_remove, int_set_with_capacity,
};
use crate::neighbors::NEIGHBOR_COUNT;
use crate::square_grid::{
    direction, lemma_step_back, lemma_step_in_range, opposite, step_tile, Neighbors,
};
use crate::tiles::TileId;
use fixedbitset::FixedBitSet;
use nohash::{IntMap, IntSet};
use std::collections::VecDeque;
use vstd::prelude::*;

verus! {

/// A neighbouring tile, and whether it belongs to the same graph.
#[derive(Debug, Clone, Copy, PartialEq, Eq, Structural)]
pub enum Occupancy {
    Occupied(TileId),
    Unoccupied(TileId),
}

impl Occupancy {
    /// The neighbouring tile.
    pub open spec fn tile(self) -> TileId {
        match self {
            Occupancy::Occupied(tile_id) => tile_id,
            Occupancy::Unoccupied(tile_id) => tile_id,
        }
    }

    pub fn occupied(&self) -> (tile_id: Option<TileId>)
        ensures
            tile_id == match *self {
                Occupancy::Occupied(occupied_id) => Some(occupied_id),
                Occupancy::Unoccupied(_) => None,
            },
    {
        match self {
            Occupancy::Occupied(occupied_id) => Some(*occupied_id),
            _ => None,
        }
    }

    pub fn unoccupied(&self) -> (tile_id: Option<TileId>)
        ensures
            tile_id == match *self {
                Occupancy::Unoccupied(unoccupied_id) => Some(unoccupied_id),
                Occupancy::Occupied(_) => None,
            },
    {
        match self {
            Occupancy::Unoccupied(unoccupied_id) => Some(*unoccupied_id),
            _ => None,
        }
    }

    pub fn is_occupied(&self) -> (occupied: bool)
        ensures
            occupied == (*self is Occupied),
    {
        match self {
            Occupancy::Occupied(_) => true,
            Occupancy::Unoccupied(_) => false,
        }
    }

    pub fn is_unoccupied(&self) -> (unoccupied: bool)
        ensures
            unoccupied == (*self is Unoccupied),
    {
        match self {
            Occupancy::Occupied(_) => false,
            Occupancy::Unoccupied(_) => true,
        }
    }
}

/// A tile of the graph with its four neighbours.
#[derive(Debug, Clone, Copy)]
pub struct Node {
    pub id: TileId,
    pub neighbors: Neighbors<Occupancy>,
}

impl Node {
    /// One of the four neighbours is the tile `tile`, and it belongs to the graph.
    pub open spec fn occupies(self, tile: usize) -> bool {
        exists|d: int| 0 <= d < 4 && #[trigger] self.neighbors@[d] == Occupancy::Occupied(TileId(tile))
    }

    /// One of the four neighbours is the tile `tile`, and it is not linked.
    pub open spec fn misses(self, tile: usize) -> bool {
        exists|d: int|
            0 <= d < 4 && #[trigger] self.neighbors@[d] == Occupancy::Unoccupied(TileId(tile))
    }

    /// The four neighbouring tiles, linked or not.
    pub open spec fn tiles(self) -> Seq<TileId> {
        Seq::new(4, |d: int| self.neighbors@[d].tile())
    }

    pub fn new(id: TileId, neighbors: Neighbors<Occupancy>) -> (node: Self)
        ensures
            node.id == id,
            node.neighbors == neighbors,
    {
        Node { id, neighbors }
    }

    /// `entry` once `neighbor_id` has joined the graph.
    pub open spec fn connected(entry: Occupancy, neighbor_id: TileId) -> Occupancy {
        if entry == Occupancy::Unoccupied(neighbor_id) {
            Occupancy::Occupied(neighbor_id)
        } else {
            entry
        }
    }

    /// `entry` once `neighbor_id` has left the graph.
    pub open spec fn disconnected(entry: Occupancy, neighbor_id: TileId) -> Occupancy {
        if entry == Occupancy::Occupied(neighbor_id) {
            Occupancy::Unoccupied(neighbor_id)
        } else {
            entry
        }
    }

    fn connect_entry(entry: Occupancy, neighbor_id: TileId) -> (linked: Occupancy)
        ensures
            linked == Self::connected(entry, neighbor_id),
    {
        match entry {
            Occupancy::Unoccupied(unoccupied_neighbor_id) => {
                if unoccupied_neighbor_id == neighbor_id {
                    Occupancy::Occupied(neighbor_id)
                } else {
                    entry
                }
            },
            _ => entry,
        }
    }

    fn disconnect_entry(entry: Occupancy, neighbor_id: TileId) -> (unlinked: Occupancy)
        ensures
            unlinked == Self::disconnected(entry, neighbor_id),
    {
        match entry {
            Occupancy::Occupied(occupied_neighbor_id) => {
                if occupied_neighbor_id == neighbor_id {
                    Occupancy::Unoccupied(neighbor_id)
                } else {
                    entry
                }
            },
            _ => entry,
        }
    }

    /// Marks every neighbour that is the tile `neighbor_id` as part of the graph.
    pub fn connect_to(&mut self, neighbor_id: TileId)
        ensures
            final(self).id == old(self).id,
            forall|d: int|
                0 <= d < 4 ==> #[trigger] final(self).neighbors@[d] == Self::connected(
                    old(self).neighbors@[d],
                    neighbor_id,
                ),
    {
        self.neighbors = Neighbors::new(
            Self::connect_entry(self.neighbors.up(), neighbor_id),
            Self::connect_entry(self.neighbors.right(), neighbor_id),
            Self::connect_entry(self.neighbors.down(), neighbor_id),
            Self::connect_entry(self.neighbors.left(), neighbor_id),
        );
    }

    /// Marks every neighbour that is the tile `neighbor_id` as not linked.
    pub fn disconnect_from(&mut self, neighbor_id: TileId)
        ensures
            final(self).id == old(self).id,
            forall|d: int|
                0 <= d < 4 ==> #[trigger] final(self).neighbors@[d] == Self::disconnected(
                    old(self).neighbors@[d],
                    neighbor_id,
                ),
    {
        self.neighbors = Neighbors::new(
            Self::disconnect_entry(self.neighbors.up(), neighbor_id),
            Self::disconnect_entry(self.neighbors.right(), neighbor_id),
            Self::disconnect_entry(self.neighbors.down(), neighbor_id),
            Self::disconnect_entry(self.neighbors.left(), neighbor_id),
        );
    }
}

/// The tiles next to the graph that do not belong to it, each with the
/// nodes that it is next to.
#[derive(Debug, Clone)]
pub struct Surface {
    unoccupied_map: IntMap<usize, IntSet<usize>>,
}

/// `links` with `occupied` among the nodes next to `unoccupied`.
pub open spec fn link_inserted(
    links: Map<usize, Set<usize>>,
    unoccupied: usize,
    occupied: usize,
) -> Map<usize, Set<usize>> {
    if links.contains_key(unoccupied) {
        links.insert(unoccupied, links[unoccupied].insert(occupied))
    } else {
        links.insert(unoccupied, Set::<usize>::empty().insert(occupied))
    }
}

/// `links` without `occupied` among the nodes next to `unoccupied`; a tile
/// with no node left next to it is dropped.
pub open spec fn link_removed(
    links: Map<usize, Set<usize>>,
    unoccupied: usize,
    occupied: usize,
) -> Map<usize, Set<usize>> {
    if !links.contains_key(unoccupied) {
        links
    } else if links[unoccupied].remove(occupied) =~= Set::<usize>::empty() {
        links.remove(unoccupied)
    } else {
        links.insert(unoccupied, links[unoccupied].remove(occupied))
    }
}

impl Surface {
    /// For every tile of the surface, the nodes next to it.
    pub closed spec fn links(&self) -> Map<usize, Set<usize>> {
        Map::new(
            |tile: usize| self.unoccupied_map@.contains_key(tile),
            |tile: usize| self.unoccupied_map@[tile]@,
        )
    }

    fn new() -> (surface: Self)
        ensures
            surface.links() == Map::<usize, Set<usize>>::empty(),
    {
        let surface = Surface { unoccupied_map: IntMap::default() };
        assert(surface.links() =~= Map::<usize, Set<usize>>::empty());
        surface
    }

    fn insert_link(&mut self, unoccupied_id: TileId, occupied_id: TileId, capacity: usize)
        requires
            capacity <= NEIGHBOR_COUNT,
        ensures
            final(self).links() == link_inserted(old(self).links(), unoccupied_id.0, occupied_id.0),
    {
        let mut occupied_neighbors = match int_map_remove(&mut self.unoccupied_map, unoccupied_id.0) {
            Some(occupied_neighbors) => occupied_neighbors,
            None => int_set_with_capacity(capacity),
        };
        int_set_insert(&mut occupied_neighbors, occupied_id.0);
        int_map_insert(&mut self.unoccupied_map, unoccupied_id.0, occupied_neighbors);
        assert(self.links() =~= link_inserted(old(self).links(), unoccupied_id.0, occupied_id.0));
    }

    fn remove_link(&mut self, unoccupied_id: TileId, occupied_id: TileId)
        ensures
            final(self).links() == link_removed(old(self).links(), unoccupied_id.0, occupied_id.0),
    {
        match int_map_remove(&mut self.unoccupied_map, unoccupied_id.0) {
            Some(occupied_neighbors) => {
                let mut occupied_neighbors = occupied_neighbors;
                int_set_remove(&mut occupied_neighbors, occupied_id.0);
                if !occupied_neighbors.is_empty() {
                    int_map_insert(&mut self.unoccupied_map, unoccupied_id.0, occupied_neighbors);
                }
            },
            None => {},
        }
        assert(self.links() =~= link_removed(old(self).links(), unoccupied_id.0, occupied_id.0));
    }

    /// `links` once a node `id` with the neighbour `entry` has joined.
    pub open spec fn entry_added(links: Map<usize, Set<usize>>, entry: Occupancy, id: TileId) -> Map<
        usize,
        Set<usize>,
    > {
        match entry {
            Occupancy::Unoccupied(neighbor_id) => link_inserted(links, neighbor_id.0, id.0),
            Occupancy::Occupied(_) => links,
        }
    }

    /// `links` once a node `id` with the neighbour `entry` has left.
    pub open spec fn entry_removed(links: Map<usize, Set<usize>>, entry: Occupancy, id: TileId) -> Map<
        usize,
        Set<usize>,
    > {
        match entry {
            Occupancy::Occupied(neighbor_id) => link_inserted(links, id.0, neighbor_id.0),
            Occupancy::Unoccupied(neighbor_id) => link_removed(links, neighbor_id.0, id.0),
        }
    }

    /// `links` once `node` has joined.
    pub open spec fn node_added(links: Map<usize, Set<usize>>, node: Node) -> Map<usize, Set<usize>> {
        Self::entry_added(
            Self::entry_added(
                Self::entry_added(
                    Self::entry_added(links, node.neighbors@[0], node.id),
                    node.neighbors@[1],
                    node.id,
                ),
                node.neighbors@[2],
                node.id,
            ),
            node.neighbors@[3],
            node.id,
        ).remove(node.id.0)
    }

    /// `links` once `node` has left.
    pub open spec fn node_removed(links: Map<usize, Set<usize>>, node: Node) -> Map<
        usize,
        Set<usize>,
    > {
        Self::entry_removed(
            Self::entry_removed(
                Self::entry_removed(
                    Self::entry_removed(links, node.neighbors@[0], node.id),
                    node.neighbors@[1],
                    node.id,
                ),
                node.neighbors@[2],
                node.id,
            ),
            node.neighbors@[3],
            node.id,
        )
    }

    fn add_entry(&mut self, entry: Occupancy, id: TileId, capacity: usize)
        requires
            capacity <= NEIGHBOR_COUNT,
        ensures
            final(self).links() == Self::entry_added(old(self).links(), entry, id),
    {
        match entry.unoccupied() {
            Some(neighbor_id) => self.insert_link(neighbor_id, id, capacity),
            None => {},
        }
    }

    fn remove_entry(&mut self, entry: Occupancy, id: TileId, capacity: usize)
        requires
            capacity <= NEIGHBOR_COUNT,
        ensures
            final(self).links() == Self::entry_removed(old(self).links(), entry, id),
    {
        match entry {
            Occupancy::Occupied(neighbor_id) => self.insert_link(id, neighbor_id, capacity),
            Occupancy::Unoccupied(neighbor_id) => self.remove_link(neighbor_id, id),
        }
    }

    fn add_node(&mut self, node: &Node)
        ensures
            final(self).links() == Self::node_added(old(self).links(), *node),
    {
        let capacity: usize = NEIGHBOR_COUNT;
        self.add_entry(node.neighbors.up(), node.id, capacity);
        self.add_entry(node.neighbors.right(), node.id, capacity);
        self.add_entry(node.neighbors.down(), node.id, capacity);
        self.add_entry(node.neighbors.left(), node.id, capacity);
        let ghost linked = self.links();
        int_map_remove(&mut self.unoccupied_map, node.id.0);
        assert(self.links() =~= linked.remove(node.id.0));
    }

    fn remove_node(&mut self, node: &Node)
        ensures
            final(self).links() == Self::node_removed(old(self).links(), *node),
    {
        let capacity: usize = NEIGHBOR_COUNT;
        self.remove_entry(node.neighbors.up(), node.id, capacity);
        self.remove_entry(node.neighbors.right(), node.id, capacity);
        self.remove_entry(node.neighbors.down(), node.id, capacity);
        self.remove_entry(node.neighbors.left(), node.id, capacity);
    }

    /// Every tile of the surface with the nodes next to it, tiles and nodes
    /// in the order in which the map and the sets walk them.
    fn unoccupied_neighbors_with_nodes(&self) -> (pairs: Vec<(TileId, Vec<TileId>)>)
        ensures
            pairs@.len() == self.links().dom().len(),
            forall|i: int, j: int|
                0 <= i < j < pairs@.len() ==> (#[trigger] pairs@[i]).0 != (#[trigger] pairs@[j]).0,
            forall|i: int|
                0 <= i < pairs@.len() ==> self.links().contains_key((#[trigger] pairs@[i]).0.0)
                    && pairs@[i].1@.no_duplicates() && pairs@[i].1@.len() == self.links()[pairs@[i].0.0].len()
                    && self.links()[pairs@[i].0.0].finite(),
            forall|i: int, a: usize|
                0 <= i < pairs@.len() ==> (self.links()[(#[trigger] pairs@[i]).0.0].contains(a)
                    <==> #[trigger] pairs@[i].1@.contains(TileId(a))),
            forall|tile: usize|
                self.links().contains_key(tile) ==> exists|i: int|
                    0 <= i < pairs@.len() && (#[trigger] pairs@[i]).0 == TileId(tile),
    {
        let keys = int_map_keys(&self.unoccupied_map);
        let mut pairs: Vec<(TileId, Vec<TileId>)> = Vec::new();
        let mut index: usize = 0;
        proof {
            assert(self.links().dom() =~= self.unoccupied_map@.dom());
            keys@.unique_seq_to_set();
        }
        while index < keys.len()
            invariant
                index <= keys@.len(),
                keys@.no_duplicates(),
                keys@.to_set() == self.unoccupied_map@.dom(),
                pairs@.len() == index,
                forall|i: int| 0 <= i < index ==> (#[trigger] pairs@[i]).0 == TileId(keys@[i]),
                forall|i: int|
                    0 <= i < index ==> self.links().contains_key((#[trigger] pairs@[i]).0.0)
                        && pairs@[i].1@.no_duplicates() && pairs@[i].1@.len() == self.links()[pairs@[i].0.0].len()
                        && self.links()[pairs@[i].0.0].finite(),
                forall|i: int, a: usize|
                    0 <= i < index ==> (self.links()[(#[trigger] pairs@[i]).0.0].contains(a)
                        <==> #[trigger] pairs@[i].1@.contains(TileId(a))),
            decreases keys@.len() - index,
        {
            let key = keys[index];
            proof {
                assert(keys@.to_set().contains(key));
            }
            let found = int_map_get(&self.unoccupied_map, key);
            let members = int_set_members(found.unwrap());
            let ghost set = self.links()[key];
            let mut nodes: Vec<TileId> = Vec::new();
            let mut next: usize = 0;
            while next < members.len()
                invariant
                    next <= members@.len(),
                    nodes@.len() == next,
                    forall|i: int| 0 <= i < next ==> #[trigger] nodes@[i] == TileId(members@[i]),
                decreases members@.len() - next,
            {
                nodes.push(TileId::from(members[next]));
                next = next + 1;
            }
            proof {
                members@.unique_seq_to_set();
                assert forall|i: int, j: int|
                    0 <= i < nodes@.len() && 0 <= j < nodes@.len() && i != j implies nodes@[i]
                    != nodes@[j] by {
                    assert(members@[i] != members@[j]);
                }
                assert forall|a: usize| set.contains(a) <==> nodes@.contains(TileId(a)) by {
                    if set.contains(a) {
                        assert(members@.to_set().contains(a));
                        let i = choose|i: int| 0 <= i < members@.len() && members@[i] == a;
                        assert(nodes@[i] == TileId(a));
                    }
                    if nodes@.contains(TileId(a)) {
                        let i = choose|i: int| 0 <= i < nodes@.len() && nodes@[i] == TileId(a);
                        assert(members@.to_set().contains(members@[i]));
                    }
                }
            }
            pairs.push((TileId::from(key), nodes));
            index = index + 1;
        }
        proof {
            assert forall|i: int, j: int| 0 <= i < j < pairs@.len() implies (#[trigger] pairs@[i]).0
                != (#[trigger] pairs@[j]).0 by {
                assert(keys@[i] != keys@[j]);
            }
            assert forall|tile: usize| self.links().contains_key(tile) implies exists|i: int|
                0 <= i < pairs@.len() && (#[trigger] pairs@[i]).0 == TileId(tile) by {
                assert(keys@.to_set().contains(tile));
                let i = choose|i: int| 0 <= i < keys@.len() && keys@[i] == tile;
                assert(pairs@[i].0 == TileId(tile));
            }
        }
        pairs
    }

    /// The tiles of the surface, in the order in which the map walks them.
    fn unoccupied_neighbors(&self) -> (tile_ids: Vec<TileId>)
        ensures
            tile_ids@.no_duplicates(),
            tile_ids@.to_set() == self.links().dom().map(|tile: usize| TileId(tile)),
    {
        let keys = int_map_keys(&self.unoccupied_map);
        let mut tile_ids: Vec<TileId> = Vec::new();
        let mut index: usize = 0;
        while index < keys.len()
            invariant
                index <= keys@.len(),
                tile_ids@.len() == index,
                forall|i: int| 0 <= i < index ==> #[trigger] tile_ids@[i] == TileId(keys@[i]),
            decreases keys@.len() - index,
        {
            tile_ids.push(TileId::from(keys[index]));
            index = index + 1;
        }
        proof {
            assert forall|i: int, j: int|
                0 <= i < tile_ids@.len() && 0 <= j < tile_ids@.len() && i != j implies tile_ids@[i]
                != tile_ids@[j] by {
                assert(keys@[i] != keys@[j]);
            }
            let expected = self.links().dom().map(|tile: usize| TileId(tile));
            assert forall|tile_id: TileId| tile_ids@.to_set().contains(tile_id) == expected.contains(
                tile_id,
            ) by {
                if tile_ids@.to_set().contains(tile_id) {
                    let i = choose|i: int| 0 <= i < tile_ids@.len() && tile_ids@[i] == tile_id;
                    assert(keys@.to_set().contains(keys@[i]));
                    assert(self.links().dom().contains(keys@[i]));
                }
                if expected.contains(tile_id) {
                    let tile = choose|tile: usize|
                        self.links().dom().contains(tile) && TileId(tile) == tile_id;
                    assert(keys@.to_set().contains(tile));
                    let i = choose|i: int| 0 <= i < keys@.len() && keys@[i] == tile;
                    assert(tile_ids@[i] == tile_id);
                }
            }
            assert(tile_ids@.to_set() =~= expected);
        }
        tile_ids
    }
}

/// `a` and `b` are two tiles one step apart on the torus.
pub open spec fn borders(a: int, b: int, x_size: int, y_size: int) -> bool {
    a != b && exists|d: int| 0 <= d < 4 && #[trigger] step_tile(a, direction(d), x_size, y_size) == b
}

/// The graph that the torus induces on `nodes`: every node with the nodes
/// that border it.
pub open spec fn torus_adjacency(nodes: Set<usize>, x_size: int, y_size: int) -> Map<
    usize,
    Set<usize>,
> {
    Map::new(
        |a: usize| nodes.contains(a),
        |a: usize| Set::new(|b: usize| nodes.contains(b) && borders(a as int, b as int, x_size, y_size)),
    )
}

/// The surface of `nodes` on the torus: every tile outside of `nodes` that
/// borders one of them, with the nodes that it borders.
pub open spec fn torus_surface(nodes: Set<usize>, x_size: int, y_size: int) -> Map<
    usize,
    Set<usize>,
> {
    Map::new(
        |s: usize|
            !nodes.contains(s) && exists|a: usize|
                nodes.contains(a) && #[trigger] borders(a as int, s as int, x_size, y_size),
        |s: usize| Set::new(|a: usize| nodes.contains(a) && borders(a as int, s as int, x_size, y_size)),
    )
}

/// What the node `a` keeps about its neighbour in the direction `d`.
pub open spec fn expected_entry(nodes: Set<usize>, a: int, d: int, x_size: int, y_size: int) -> Occupancy {
    let b = step_tile(a, direction(d), x_size, y_size);
    if b != a && nodes.contains(b as usize) {
        Occupancy::Occupied(TileId(b as usize))
    } else {
        Occupancy::Unoccupied(TileId(b as usize))
    }
}

/// The nodes linked to `node` in the first `count` of the directions up,
/// right, down, left, in that order.
pub open spec fn torus_linked_in(
    nodes: Set<usize>,
    node: int,
    x_size: int,
    y_size: int,
    count: int,
) -> Seq<TileId>
    decreases count,
{
    if count <= 0 {
        Seq::<TileId>::empty()
    } else {
        let before = torus_linked_in(nodes, node, x_size, y_size, count - 1);
        let b = step_tile(node, direction(count - 1), x_size, y_size);
        if b != node && nodes.contains(b as usize) {
            before.push(TileId(b as usize))
        } else {
            before
        }
    }
}

/// The nodes linked to `node`, in the order of the directions up, right, down, left.
pub open spec fn torus_linked(nodes: Set<usize>, node: int, x_size: int, y_size: int) -> Seq<TileId> {
    torus_linked_in(nodes, node, x_size, y_size, 4)
}

/// Bordering is mutual.
pub proof fn lemma_borders_symmetric(a: int, b: int, x_size: int, y_size: int)
    requires
        0 <= a < x_size * y_size,
        0 <= x_size,
        0 <= y_size,
        borders(a, b, x_size, y_size),
    ensures
        borders(b, a, x_size, y_size),
        0 <= b < x_size * y_size,
{
    let d = choose|d: int| 0 <= d < 4 && #[trigger] step_tile(a, direction(d), x_size, y_size) == b;
    lemma_step_back(a, direction(d), x_size, y_size);
    lemma_step_in_range(a, direction(d), x_size, y_size);
    let back = if d < 2 {
        d + 2
    } else {
        d - 2
    };
    assert(direction(back) == opposite(direction(d)));
    assert(step_tile(b, direction(back), x_size, y_size) == a);
}

/// The cells of one organism as a graph: every cell with its four
/// neighbours, and the surface around them.
#[derive(Debug, Clone)]
pub struct SimpleGraph {
    node_map: IntMap<usize, Node>,
    surface: Surface,
}

impl View for SimpleGraph {
    type V = Map<usize, Set<usize>>;

    /// Every node with the nodes that it is linked to.
    closed spec fn view(&self) -> Map<usize, Set<usize>> {
        Map::new(
            |a: usize| self.node_map@.contains_key(a),
            |a: usize| Set::new(|b: usize| self.node_map@[a].occupies(b)),
        )
    }
}

impl Default for SimpleGraph {
    fn default() -> (graph: Self)
        ensures
            graph.node_set() == Set::<usize>::empty(),
            forall|x_size: usize, y_size: usize|
                x_size * y_size <= usize::MAX ==> #[trigger] graph.wf(x_size, y_size),
    {
        let graph = SimpleGraph { node_map: IntMap::default(), surface: Surface::new() };
        proof {
            assert(graph.node_set() =~= Set::<usize>::empty());
            assert forall|x_size: usize, y_size: usize|
                x_size * y_size <= usize::MAX implies #[trigger] graph.wf(x_size, y_size) by {
                assert(graph.surface.links() =~~= torus_surface(
                    graph.node_map@.dom(),
                    x_size as int,
                    y_size as int,
                ));
            }
        }
        graph
    }
}

impl SimpleGraph {
    /// The tiles that are nodes of the graph.
    pub closed spec fn node_set(&self) -> Set<usize> {
        self.node_map@.dom()
    }

    /// Every tile of the surface with the nodes next to it.
    pub closed spec fn surface(&self) -> Map<usize, Set<usize>> {
        self.surface.links()
    }

    /// The graph is what the torus of `x_size` by `y_size` tiles induces on
    /// its nodes: every node keeps its four neighbours on that torus, marks
    /// exactly the other nodes among them as linked, and the surface is that
    /// of the nodes.
    pub closed spec fn wf(&self, x_size: usize, y_size: usize) -> bool {
        &&& x_size * y_size <= usize::MAX
        &&& self.node_map@.dom().finite()
        &&& forall|a: usize| #[trigger]
            self.node_map@.dom().contains(a) ==> a < x_size * y_size && self.node_map@[a].id
                == TileId(a)
        &&& forall|a: usize, d: int|
            self.node_map@.dom().contains(a) && 0 <= d < 4 ==> #[trigger] self.node_map@[a].neighbors@[d]
                == expected_entry(self.node_map@.dom(), a as int, d, x_size as int, y_size as int)
        &&& self.surface.links() == torus_surface(
            self.node_map@.dom(),
            x_size as int,
            y_size as int,
        )
    }

    /// The graph is well formed on some torus.
    pub open spec fn inv(&self) -> bool {
        exists|x_size: usize, y_size: usize| self.wf(x_size, y_size)
    }

    /// What a well-formed graph is, said over its nodes alone.
    pub proof fn lemma_wf(&self, x_size: usize, y_size: usize)
        requires
            self.wf(x_size, y_size),
        ensures
            x_size * y_size <= usize::MAX,
            self.node_set().finite(),
            forall|a: usize| #[trigger] self.node_set().contains(a) ==> a < x_size * y_size,
            self@ == torus_adjacency(self.node_set(), x_size as int, y_size as int),
            self.surface() == torus_surface(self.node_set(), x_size as int, y_size as int),
    {
        let xs = x_size as int;
        let ys = y_size as int;
        let nodes = self.node_set();
        assert forall|a: usize| nodes.contains(a) implies #[trigger] self@[a] =~= torus_adjacency(
            nodes,
            xs,
            ys,
        )[a] by {
            assert forall|b: usize| self@[a].contains(b) == torus_adjacency(nodes, xs, ys)[a].contains(
                b,
            ) by {
                if self.node_map@[a].occupies(b) {
                    let d = choose|d: int|
                        0 <= d < 4 && #[trigger] self.node_map@[a].neighbors@[d]
                            == Occupancy::Occupied(TileId(b));
                    lemma_step_in_range(a as int, direction(d), xs, ys);
                    assert(self.node_map@[a].neighbors@[d] == expected_entry(nodes, a as int, d, xs, ys));
                }
                if nodes.contains(b) && borders(a as int, b as int, xs, ys) {
                    let d = choose|d: int|
                        0 <= d < 4 && #[trigger] step_tile(a as int, direction(d), xs, ys) == b;
                    assert(self.node_map@[a].neighbors@[d] == expected_entry(nodes, a as int, d, xs, ys));
                }
            }
        }
        assert(self@ =~~= torus_adjacency(nodes, xs, ys));
    }

    /// What holds of the links of a graph that is well formed on some torus:
    /// they lead to nodes, never to the node itself, and go both ways.
    pub proof fn lemma_inv(&self)
        requires
            self.inv(),
        ensures
            self.node_set().finite(),
            self@.dom() == self.node_set(),
            forall|a: usize, b: usize|
                self.node_set().contains(a) && #[trigger] self@[a].contains(b)
                    ==> self.node_set().contains(b) && self@[b].contains(a) && a != b,
    {
        let (x_size, y_size) = choose|x_size: usize, y_size: usize| self.wf(x_size, y_size);
        self.lemma_wf(x_size, y_size);
        assert(self@.dom() =~= self.node_set());
        assert forall|a: usize, b: usize|
            self.node_set().contains(a) && #[trigger] self@[a].contains(
                b,
            ) implies self.node_set().contains(b) && self@[b].contains(a) && a != b by {
            lemma_borders_symmetric(a as int, b as int, x_size as int, y_size as int);
        }
    }

    /// The number of nodes.
    pub fn node_count(&self) -> (count: usize)
        ensures
            count == self.node_set().len(),
    {
        int_map_len(&self.node_map)
    }

    /// The nodes, in the order in which the map walks them.
    pub fn nodes(&self) -> (nodes: Vec<TileId>)
        ensures
            nodes@.no_duplicates(),
            nodes@.len() == self.node_set().len(),
            forall|a: usize| self.node_set().contains(a) <==> nodes@.contains(TileId(a)),
    {
        let keys = int_map_keys(&self.node_map);
        let mut nodes: Vec<TileId> = Vec::new();
        let mut index: usize = 0;
        while index < keys.len()
            invariant
                index <= keys@.len(),
                nodes@.len() == index,
                forall|i: int| 0 <= i < index ==> #[trigger] nodes@[i] == TileId(keys@[i]),
            decreases keys@.len() - index,
        {
            nodes.push(TileId::from(keys[index]));
            index = index + 1;
        }
        proof {
            assert forall|i: int, j: int|
                0 <= i < nodes@.len() && 0 <= j < nodes@.len() && i != j implies nodes@[i]
                != nodes@[j] by {
                assert(keys@[i] != keys@[j]);
            }
            assert forall|a: usize| self.node_set().contains(a) <==> nodes@.contains(TileId(a)) by {
                if self.node_set().contains(a) {
                    assert(keys@.to_set().contains(a));
                    let i = choose|i: int| 0 <= i < keys@.len() && keys@[i] == a;
                    assert(nodes@[i] == TileId(a));
                }
                if nodes@.contains(TileId(a)) {
                    let i = choose|i: int| 0 <= i < nodes@.len() && nodes@[i] == TileId(a);
                    assert(keys@.to_set().contains(keys@[i]));
                }
            }
            keys@.unique_seq_to_set();
        }
        nodes
    }

    /// The tiles of the surface, in the order in which the map walks them.
    pub fn all_unoccupied_neighbors(&self) -> (tile_ids: Vec<TileId>)
        ensures
            tile_ids@.no_duplicates(),
            forall|tile: usize| self.surface().contains_key(tile) <==> tile_ids@.contains(TileId(tile)),
    {
        let tile_ids = self.surface.unoccupied_neighbors();
        proof {
            let keys = self.surface.links().dom();
            let mapped = keys.map(|tile: usize| TileId(tile));
            assert forall|tile: usize| self.surface().contains_key(tile) <==> tile_ids@.contains(
                TileId(tile),
            ) by {
                if keys.contains(tile) {
                    assert(mapped.contains(TileId(tile)));
                    assert(tile_ids@.to_set().contains(TileId(tile)));
                }
                if tile_ids@.contains(TileId(tile)) {
                    assert(tile_ids@.to_set().contains(TileId(tile)));
                    let other = choose|other: usize| keys.contains(other) && TileId(tile) == TileId(other);
                    assert(other == tile);
                }
            }
        }
        tile_ids
    }

    /// Every tile of the surface with the nodes next to it, tiles and nodes
    /// in the order in which the map and the sets walk them.
    pub fn unoccupied_neighbors_iter(&self) -> (pairs: Vec<(TileId, Vec<TileId>)>)
        ensures
            pairs@.len() == self.surface().dom().len(),
            forall|i: int, j: int|
                0 <= i < j < pairs@.len() ==> (#[trigger] pairs@[i]).0 != (#[trigger] pairs@[j]).0,
            forall|i: int|
                0 <= i < pairs@.len() ==> self.surface().contains_key((#[trigger] pairs@[i]).0.0)
                    && pairs@[i].1@.no_duplicates() && pairs@[i].1@.len() == self.surface()[pairs@[i].0.0].len()
                    && self.surface()[pairs@[i].0.0].finite(),
            forall|i: int, a: usize|
                0 <= i < pairs@.len() ==> (self.surface()[(#[trigger] pairs@[i]).0.0].contains(a)
                    <==> #[trigger] pairs@[i].1@.contains(TileId(a))),
            forall|tile: usize|
                self.surface().contains_key(tile) ==> exists|i: int|
                    0 <= i < pairs@.len() && (#[trigger] pairs@[i]).0 == TileId(tile),
    {
        self.surface.unoccupied_neighbors_with_nodes()
    }

    /// Whether `node_id` is a node.
    pub fn contains(&self, node_id: TileId) -> (found: bool)
        ensures
            found == self.node_set().contains(node_id.0),
    {
        int_map_get(&self.node_map, node_id.0).is_some()
    }

    /// The nodes linked to the node `node_id`, in the order up, right, down, left.
    pub fn neighbor_iter(&self, node_id: TileId) -> (linked: Vec<TileId>)
        requires
            self.node_set().contains(node_id.0),
        ensures
            linked@.len() <= 4,
            forall|b: usize| self@[node_id.0].contains(b) <==> linked@.contains(TileId(b)),
            forall|x_size: usize, y_size: usize| #[trigger]
                self.wf(x_size, y_size) ==> linked@ == torus_linked(
                    self.node_set(),
                    node_id.0 as int,
                    x_size as int,
                    y_size as int,
                ),
    {
        let found = int_map_get(&self.node_map, node_id.0);
        let node = found.unwrap();
        let mut linked: Vec<TileId> = Vec::new();
        Self::push_occupied(node, 0, &mut linked);
        Self::push_occupied(node, 1, &mut linked);
        Self::push_occupied(node, 2, &mut linked);
        Self::push_occupied(node, 3, &mut linked);
        proof {
            assert forall|b: usize| self@[node_id.0].contains(b) <==> linked@.contains(TileId(b)) by {
                Self::lemma_occupied_in(*node, 4, b);
            }
            Self::lemma_occupied_in(*node, 4, 0);
            assert forall|x_size: usize, y_size: usize| #[trigger]
                self.wf(x_size, y_size) implies linked@ == torus_linked(
                self.node_set(),
                node_id.0 as int,
                x_size as int,
                y_size as int,
            ) by {
                Self::lemma_occupied_on_torus(
                    self.node_map@.dom(),
                    *node,
                    x_size as int,
                    y_size as int,
                    4,
                );
            }
        }
        linked
    }

    /// Links the node `node_id`, which is about to join, with its neighbour
    /// `neighbor_id`, if that is a node.
    fn connect(&mut self, neighbor_id: TileId, node_id: TileId) -> (entry: Occupancy)
        ensures
            final(self).surface == old(self).surface,
            final(self).node_map@.dom() == old(self).node_map@.dom(),
            entry == if old(self).node_map@.contains_key(neighbor_id.0) {
                Occupancy::Occupied(neighbor_id)
            } else {
                Occupancy::Unoccupied(neighbor_id)
            },
            forall|a: usize| #[trigger]
                final(self).node_map@.contains_key(a) ==> final(self).node_map@[a].id == old(self).node_map@[a].id,
            forall|a: usize, d: int|
                final(self).node_map@.contains_key(a) && 0 <= d < 4 ==> #[trigger] final(self).node_map@[a].neighbors@[d] == if a == neighbor_id.0 {
                    Node::connected(old(self).node_map@[a].neighbors@[d], node_id)
                } else {
                    old(self).node_map@[a].neighbors@[d]
                },
    {
        match int_map_get(&self.node_map, neighbor_id.0) {
            Some(occupied_neighbor_node) => {
                let mut neighbor = *occupied_neighbor_node;
                neighbor.connect_to(node_id);
                int_map_insert(&mut self.node_map, neighbor_id.0, neighbor);
                assert(self.node_map@.dom() =~= old(self).node_map@.dom());
                Occupancy::Occupied(neighbor_id)
            },
            None => Occupancy::Unoccupied(neighbor_id),
        }
    }

    /// Unlinks the node `neighbor_id` from the node `node_id`, which has left.
    fn disconnect(&mut self, neighbor_id: TileId, node_id: TileId)
        requires
            old(self).node_map@.contains_key(neighbor_id.0),
        ensures
            final(self).surface == old(self).surface,
            final(self).node_map@.dom() == old(self).node_map@.dom(),
            forall|a: usize| #[trigger]
                final(self).node_map@.contains_key(a) ==> final(self).node_map@[a].id == old(self).node_map@[a].id,
            forall|a: usize, d: int|
                final(self).node_map@.contains_key(a) && 0 <= d < 4 ==> #[trigger] final(self).node_map@[a].neighbors@[d] == if a == neighbor_id.0 {
                    Node::disconnected(old(self).node_map@[a].neighbors@[d], node_id)
                } else {
                    old(self).node_map@[a].neighbors@[d]
                },
    {
        let found = int_map_get(&self.node_map, neighbor_id.0);
        let mut neighbor = *found.unwrap();
        neighbor.disconnect_from(node_id);
        int_map_insert(&mut self.node_map, neighbor_id.0, neighbor);
        assert(self.node_map@.dom() =~= old(self).node_map@.dom());
    }

    /// Makes the tile `node_id` of `grid` a node: links it with those of its
    /// neighbours that are nodes, and moves it from the surface into the graph.
    pub fn add_node(&mut self, node_id: TileId, grid: &Grid)
        requires
            old(self).wf(grid.spec_x_size(), grid.spec_y_size()),
            grid.wf(),
            node_id.0 < grid.spec_size(),
            !old(self).node_set().contains(node_id.0),
        ensures
            final(self).wf(grid.spec_x_size(), grid.spec_y_size()),
            final(self).node_set() == old(self).node_set().insert(node_id.0),
    {
        let ghost xs = grid.spec_x_size() as int;
        let ghost ys = grid.spec_y_size() as int;
        let ghost before = old(self).node_map@;
        let around = *grid.neighbors(node_id);
        let up = self.connect(around.up(), node_id);
        let right = self.connect(around.right(), node_id);
        let down = self.connect(around.down(), node_id);
        let left = self.connect(around.left(), node_id);
        let node = Node::new(node_id, Neighbors::new(up, right, down, left));
        let ghost linked = self.node_map@;
        self.surface.add_node(&node);
        int_map_insert(&mut self.node_map, node_id.0, node);
        proof {
            let t = node_id.0;
            let after = self.node_map@;
            assert(after.dom() =~= before.dom().insert(t));
            assert forall|d: int| 0 <= d < 4 implies #[trigger] around@[d] == TileId(
                step_tile(t as int, direction(d), xs, ys) as usize,
            ) && 0 <= step_tile(t as int, direction(d), xs, ys) < xs * ys by {
                lemma_step_in_range(t as int, direction(d), xs, ys);
            }
            assert forall|a: usize, d: int| after.dom().contains(a) && 0 <= d < 4 implies #[trigger] after[a].neighbors@[d]
                == expected_entry(after.dom(), a as int, d, xs, ys) by {
                if a == t {
                    assert(node.neighbors@[d] == if before.contains_key(around@[d].0) {
                        Occupancy::Occupied(around@[d])
                    } else {
                        Occupancy::Unoccupied(around@[d])
                    });
                } else {
                    assert(before.dom().contains(a));
                    assert(before[a].neighbors@[d] == expected_entry(
                        before.dom(),
                        a as int,
                        d,
                        xs,
                        ys,
                    ));
                    lemma_step_in_range(a as int, direction(d), xs, ys);
                    let b = step_tile(a as int, direction(d), xs, ys);
                    if b == t {
                        lemma_step_back(a as int, direction(d), xs, ys);
                        let back = if d < 2 {
                            d + 2
                        } else {
                            d - 2
                        };
                        assert(direction(back) == opposite(direction(d)));
                        assert(around@[back] == TileId(a));
                        assert(linked[a].neighbors@[d] == Occupancy::Occupied(node_id));
                    } else {
                        assert(linked[a].neighbors@[d] == before[a].neighbors@[d]);
                    }
                }
            }
            Self::lemma_surface_after_add(old(self).surface.links(), before.dom(), node, xs, ys);
        }
    }

    /// The surface of a graph that a new node joins is the surface of the
    /// nodes with the new one among them.
    proof fn lemma_surface_after_add(
        links: Map<usize, Set<usize>>,
        nodes: Set<usize>,
        node: Node,
        xs: int,
        ys: int,
    )
        requires
            0 <= xs,
            0 <= ys,
            xs * ys <= usize::MAX,
            links == torus_surface(nodes, xs, ys),
            forall|a: usize| #[trigger] nodes.contains(a) ==> a < xs * ys,
            !nodes.contains(node.id.0),
            node.id.0 < xs * ys,
            forall|d: int|
                0 <= d < 4 ==> #[trigger] node.neighbors@[d] == expected_entry(
                    nodes.insert(node.id.0),
                    node.id.0 as int,
                    d,
                    xs,
                    ys,
                ),
        ensures
            Surface::node_added(links, node) == torus_surface(nodes.insert(node.id.0), xs, ys),
    {
        let result = Surface::node_added(links, node);
        let expected = torus_surface(nodes.insert(node.id.0), xs, ys);
        assert forall|s: usize| #[trigger]
            result.contains_key(s) == expected.contains_key(s) && (result.contains_key(s)
                ==> result[s] == expected[s]) by {
            Self::lemma_surface_after_add_at(links, nodes, node, xs, ys, s);
        }
        assert(result =~= expected);
    }

    proof fn lemma_surface_after_add_at(
        links: Map<usize, Set<usize>>,
        nodes: Set<usize>,
        node: Node,
        xs: int,
        ys: int,
        s: usize,
    )
        requires
            0 <= xs,
            0 <= ys,
            xs * ys <= usize::MAX,
            links == torus_surface(nodes, xs, ys),
            forall|a: usize| #[trigger] nodes.contains(a) ==> a < xs * ys,
            !nodes.contains(node.id.0),
            node.id.0 < xs * ys,
            forall|d: int|
                0 <= d < 4 ==> #[trigger] node.neighbors@[d] == expected_entry(
                    nodes.insert(node.id.0),
                    node.id.0 as int,
                    d,
                    xs,
                    ys,
                ),
        ensures
            Surface::node_added(links, node).contains_key(s) == torus_surface(
                nodes.insert(node.id.0),
                xs,
                ys,
            ).contains_key(s),
            Surface::node_added(links, node).contains_key(s) ==> Surface::node_added(links, node)[s]
                == torus_surface(nodes.insert(node.id.0), xs, ys)[s],
    {
        let t = node.id.0;
        let grown = nodes.insert(t);
        let l1 = Surface::entry_added(links, node.neighbors@[0], node.id);
        let l2 = Surface::entry_added(l1, node.neighbors@[1], node.id);
        let l3 = Surface::entry_added(l2, node.neighbors@[2], node.id);
        let l4 = Surface::entry_added(l3, node.neighbors@[3], node.id);
        let result = l4.remove(t);
        let expected = torus_surface(grown, xs, ys);
        if s != t {
            lemma_entry_added_at(links, node.neighbors@[0], node.id, s);
            lemma_entry_added_at(l1, node.neighbors@[1], node.id, s);
            lemma_entry_added_at(l2, node.neighbors@[2], node.id, s);
            lemma_entry_added_at(l3, node.neighbors@[3], node.id, s);
            let missed = node.misses(s);
            assert(set_at(l4, s) == if missed {
                set_at(links, s).insert(t)
            } else {
                set_at(links, s)
            }) by {
                if node.neighbors@[0] == Occupancy::Unoccupied(TileId(s)) {
                } else if node.neighbors@[1] == Occupancy::Unoccupied(TileId(s)) {
                } else if node.neighbors@[2] == Occupancy::Unoccupied(TileId(s)) {
                } else if node.neighbors@[3] == Occupancy::Unoccupied(TileId(s)) {
                } else {
                    assert(!missed);
                }
                assert(set_at(links, s).insert(t).insert(t) =~= set_at(links, s).insert(t));
            }
            assert(l4.contains_key(s) == (links.contains_key(s) || missed));
            Self::lemma_new_node_misses(nodes, node, xs, ys, s);
            assert(missed == (!nodes.contains(s) && borders(t as int, s as int, xs, ys)));
            if expected.contains_key(s) {
                let a = choose|a: usize|
                    grown.contains(a) && #[trigger] borders(a as int, s as int, xs, ys);
                if a != t {
                    assert(links.contains_key(s));
                }
                assert forall|a: usize| #[trigger]
                    expected[s].contains(a) == (set_at(links, s).contains(a) || (missed && a
                        == t)) by {
                    if nodes.contains(a) && borders(a as int, s as int, xs, ys) {
                        assert(links.contains_key(s));
                    }
                }
            }
            if links.contains_key(s) {
                let a = choose|a: usize|
                    nodes.contains(a) && #[trigger] borders(a as int, s as int, xs, ys);
                assert(grown.contains(a));
            }
            if missed {
                assert(grown.contains(t));
            }
            if result.contains_key(s) {
                assert(result[s] =~= expected[s]);
            }
        }
    }

    /// A node that joins keeps a tile as not linked exactly if the tile
    /// borders it and is no node.
    proof fn lemma_new_node_misses(nodes: Set<usize>, node: Node, xs: int, ys: int, s: usize)
        requires
            0 <= xs,
            0 <= ys,
            xs * ys <= usize::MAX,
            !nodes.contains(node.id.0),
            node.id.0 < xs * ys,
            s != node.id.0,
            forall|d: int|
                0 <= d < 4 ==> #[trigger] node.neighbors@[d] == expected_entry(
                    nodes.insert(node.id.0),
                    node.id.0 as int,
                    d,
                    xs,
                    ys,
                ),
        ensures
            node.misses(s) == (!nodes.contains(s) && borders(node.id.0 as int, s as int, xs, ys)),
    {
        let t = node.id.0;
        let grown = nodes.insert(t);
        assert forall|d: int| 0 <= d < 4 implies 0 <= #[trigger] step_tile(
            t as int,
            direction(d),
            xs,
            ys,
        ) < xs * ys by {
            lemma_step_in_range(t as int, direction(d), xs, ys);
        }
        if node.misses(s) {
            let d = choose|d: int|
                0 <= d < 4 && #[trigger] node.neighbors@[d] == Occupancy::Unoccupied(TileId(s));
            assert(node.neighbors@[d] == expected_entry(grown, t as int, d, xs, ys));
            assert(step_tile(t as int, direction(d), xs, ys) == s);
        }
        if !nodes.contains(s) && borders(t as int, s as int, xs, ys) {
            let d = choose|d: int|
                0 <= d < 4 && #[trigger] step_tile(t as int, direction(d), xs, ys) == s;
            assert(node.neighbors@[d] == expected_entry(grown, t as int, d, xs, ys));
            assert(node.neighbors@[d] == Occupancy::Unoccupied(TileId(s)));
        }
    }

    /// The entries of `node` that are linked, in their order.
    pub open spec fn occupied_in(node: Node, count: int) -> Seq<TileId>
        decreases count,
    {
        if count <= 0 {
            Seq::<TileId>::empty()
        } else {
            match node.neighbors@[count - 1] {
                Occupancy::Occupied(neighbor_id) => Self::occupied_in(node, count - 1).push(
                    neighbor_id,
                ),
                Occupancy::Unoccupied(_) => Self::occupied_in(node, count - 1),
            }
        }
    }

    fn push_occupied(node: &Node, index: usize, found: &mut Vec<TileId>)
        requires
            index < 4,
            old(found)@ == Self::occupied_in(*node, index as int),
        ensures
            final(found)@ == Self::occupied_in(*node, index + 1),
    {
        match node.neighbors.get(index).occupied() {
            Some(neighbor_id) => found.push(neighbor_id),
            None => {},
        }
    }

    /// The linked entries of a node are exactly the tiles that it occupies.
    proof fn lemma_occupied_in(node: Node, count: int, b: usize)
        requires
            0 <= count <= 4,
        ensures
            Self::occupied_in(node, count).contains(TileId(b)) <==> exists|d: int|
                0 <= d < count && #[trigger] node.neighbors@[d] == Occupancy::Occupied(TileId(b)),
            Self::occupied_in(node, count).len() <= count,
        decreases count,
    {
        if count > 0 {
            Self::lemma_occupied_in(node, count - 1, b);
            let shorter = Self::occupied_in(node, count - 1);
            let all = Self::occupied_in(node, count);
            match node.neighbors@[count - 1] {
                Occupancy::Occupied(neighbor_id) => {
                    assert(all == shorter.push(neighbor_id));
                    if all.contains(TileId(b)) {
                        let i = choose|i: int| 0 <= i < all.len() && all[i] == TileId(b);
                        if i < shorter.len() {
                            assert(shorter[i] == TileId(b));
                            assert(shorter.contains(TileId(b)));
                        } else {
                            assert(node.neighbors@[count - 1] == Occupancy::Occupied(TileId(b)));
                        }
                    }
                    if exists|d: int|
                        0 <= d < count && #[trigger] node.neighbors@[d] == Occupancy::Occupied(
                            TileId(b),
                        ) {
                        let d = choose|d: int|
                            0 <= d < count && #[trigger] node.neighbors@[d] == Occupancy::Occupied(
                                TileId(b),
                            );
                        if d < count - 1 {
                            assert(shorter.contains(TileId(b)));
                            let i = choose|i: int| 0 <= i < shorter.len() && shorter[i] == TileId(b);
                            assert(all[i] == TileId(b));
                        } else {
                            assert(all[shorter.len() as int] == TileId(b));
                        }
                    }
                },
                Occupancy::Unoccupied(_) => {
                    assert(all == shorter);
                    if exists|d: int|
                        0 <= d < count && #[trigger] node.neighbors@[d] == Occupancy::Occupied(
                            TileId(b),
                        ) {
                        let d = choose|d: int|
                            0 <= d < count && #[trigger] node.neighbors@[d] == Occupancy::Occupied(
                                TileId(b),
                            );
                        assert(d < count - 1);
                    }
                },
            }
        }
    }

    /// Takes the node `node_id` out of the graph: unlinks it from the nodes
    /// linked to it, opens its tile as surface where a node is left next to
    /// it, and returns the nodes that were linked to it, in the order up,
    /// right, down, left.
    pub fn remove_node(&mut self, node_id: TileId) -> (occupied_neighbor_ids: Vec<TileId>)
        requires
            old(self).inv(),
            old(self).node_set().contains(node_id.0),
        ensures
            final(self).node_set() == old(self).node_set().remove(node_id.0),
            forall|x_size: usize, y_size: usize| #[trigger]
                old(self).wf(x_size, y_size) ==> final(self).wf(x_size, y_size)
                    && occupied_neighbor_ids@ == torus_linked(
                    old(self).node_set(),
                    node_id.0 as int,
                    x_size as int,
                    y_size as int,
                ),
    {
        let ghost before = old(self).node_map@;
        let ghost t = node_id.0;
        let ghost (xs0, ys0) = choose|x_size: usize, y_size: usize| old(self).wf(x_size, y_size);
        let removed = int_map_remove(&mut self.node_map, node_id.0);
        let node = removed.unwrap();
        let mut occupied_neighbor_ids: Vec<TileId> = Vec::new();
        Self::push_occupied(&node, 0, &mut occupied_neighbor_ids);
        Self::push_occupied(&node, 1, &mut occupied_neighbor_ids);
        Self::push_occupied(&node, 2, &mut occupied_neighbor_ids);
        Self::push_occupied(&node, 3, &mut occupied_neighbor_ids);
        let ghost shrunk = self.node_map@;
        proof {
            assert(shrunk.dom() =~= before.dom().remove(t));
            assert forall|b: usize| node.occupies(b) implies shrunk.contains_key(b) by {
                let d = choose|d: int|
                    0 <= d < 4 && #[trigger] node.neighbors@[d] == Occupancy::Occupied(TileId(b));
                lemma_step_in_range(t as int, direction(d), xs0 as int, ys0 as int);
                assert(before[t].neighbors@[d] == expected_entry(
                    before.dom(),
                    t as int,
                    d,
                    xs0 as int,
                    ys0 as int,
                ));
            }
            assert forall|i: int| 0 <= i < occupied_neighbor_ids@.len() implies node.occupies(
                (#[trigger] occupied_neighbor_ids@[i]).0,
            ) by {
                Self::lemma_occupied_in(node, 4, occupied_neighbor_ids@[i].0);
                assert(occupied_neighbor_ids@.contains(occupied_neighbor_ids@[i]));
            }
        }
        let mut index: usize = 0;
        while index < occupied_neighbor_ids.len()
            invariant
                index <= occupied_neighbor_ids@.len(),
                self.surface == old(self).surface,
                self.node_map@.dom() == shrunk.dom(),
                forall|b: usize| node.occupies(b) ==> shrunk.contains_key(b),
                forall|i: int|
                    0 <= i < occupied_neighbor_ids@.len() ==> node.occupies(
                        (#[trigger] occupied_neighbor_ids@[i]).0,
                    ),
                forall|a: usize| #[trigger]
                    shrunk.contains_key(a) ==> self.node_map@[a].id == shrunk[a].id,
                forall|a: usize, d: int|
                    shrunk.contains_key(a) && 0 <= d < 4 ==> #[trigger] self.node_map@[a].neighbors@[d]
                        == if occupied_neighbor_ids@.take(index as int).contains(TileId(a)) {
                        Node::disconnected(shrunk[a].neighbors@[d], node_id)
                    } else {
                        shrunk[a].neighbors@[d]
                    },
            decreases occupied_neighbor_ids@.len() - index,
        {
            let neighbor_id = occupied_neighbor_ids[index];
            let ghost earlier = self.node_map@;
            self.disconnect(neighbor_id, node_id);
            proof {
                let sooner = occupied_neighbor_ids@.take(index as int);
                let later = occupied_neighbor_ids@.take(index + 1);
                assert(later =~= sooner.push(neighbor_id));
                assert forall|a: usize| later.contains(TileId(a)) == (sooner.contains(TileId(a)) || a
                    == neighbor_id.0) by {
                    if sooner.contains(TileId(a)) {
                        let i = choose|i: int| 0 <= i < sooner.len() && sooner[i] == TileId(a);
                        assert(later[i] == TileId(a));
                    }
                    if a == neighbor_id.0 {
                        assert(later[index as int] == TileId(a));
                    }
                }
            }
            index = index + 1;
        }
        self.surface.remove_node(&node);
        proof {
            let after = self.node_map@;
            assert(occupied_neighbor_ids@.take(index as int) =~= occupied_neighbor_ids@);
            assert forall|a: usize, d: int| after.contains_key(a) && 0 <= d < 4 implies #[trigger] after[a].neighbors@[d]
                == if node.occupies(a) {
                Node::disconnected(before[a].neighbors@[d], node_id)
            } else {
                before[a].neighbors@[d]
            } by {
                Self::lemma_occupied_in(node, 4, a);
            }
            assert forall|x_size: usize, y_size: usize| #[trigger]
                old(self).wf(x_size, y_size) implies self.wf(x_size, y_size)
                && occupied_neighbor_ids@ == torus_linked(
                old(self).node_set(),
                node_id.0 as int,
                x_size as int,
                y_size as int,
            ) by {
                let xs = x_size as int;
                let ys = y_size as int;
                assert forall|a: usize, d: int| after.contains_key(a) && 0 <= d < 4 implies #[trigger] after[a].neighbors@[d]
                    == expected_entry(after.dom(), a as int, d, xs, ys) by {
                    Self::lemma_entry_after_remove(before, node, a, d, x_size, y_size);
                }
                Self::lemma_surface_after_remove(
                    old(self).surface.links(),
                    before.dom(),
                    node,
                    xs,
                    ys,
                );
                Self::lemma_occupied_on_torus(before.dom(), node, xs, ys, 4);
            }
        }
        occupied_neighbor_ids
    }

    /// What a node keeps about a neighbour once the node `left` has left the graph.
    proof fn lemma_entry_after_remove(
        before: Map<usize, Node>,
        left: Node,
        a: usize,
        d: int,
        x_size: usize,
        y_size: usize,
    )
        requires
            x_size * y_size <= usize::MAX,
            0 <= d < 4,
            before.contains_key(left.id.0),
            before[left.id.0] == left,
            before.contains_key(a),
            a != left.id.0,
            forall|n: usize| #[trigger] before.dom().contains(n) ==> n < x_size * y_size,
            forall|n: usize, e: int|
                before.dom().contains(n) && 0 <= e < 4 ==> #[trigger] before[n].neighbors@[e]
                    == expected_entry(before.dom(), n as int, e, x_size as int, y_size as int),
        ensures
            (if left.occupies(a) {
                Node::disconnected(before[a].neighbors@[d], left.id)
            } else {
                before[a].neighbors@[d]
            }) == expected_entry(
                before.dom().remove(left.id.0),
                a as int,
                d,
                x_size as int,
                y_size as int,
            ),
    {
        let xs = x_size as int;
        let ys = y_size as int;
        let t = left.id.0;
        lemma_step_in_range(a as int, direction(d), xs, ys);
        let b = step_tile(a as int, direction(d), xs, ys);
        assert(before[a].neighbors@[d] == expected_entry(before.dom(), a as int, d, xs, ys));
        if b == t {
            lemma_step_back(a as int, direction(d), xs, ys);
            let back = if d < 2 {
                d + 2
            } else {
                d - 2
            };
            assert(direction(back) == opposite(direction(d)));
            assert(before[t].neighbors@[back] == expected_entry(before.dom(), t as int, back, xs, ys));
            assert(left.neighbors@[back] == Occupancy::Occupied(TileId(a)));
        }
    }

    /// The linked entries of a node are the nodes linked to it on the torus.
    proof fn lemma_occupied_on_torus(nodes: Set<usize>, node: Node, xs: int, ys: int, count: int)
        requires
            0 <= count <= 4,
            0 <= xs,
            0 <= ys,
            xs * ys <= usize::MAX,
            node.id.0 < xs * ys,
            forall|d: int|
                0 <= d < 4 ==> #[trigger] node.neighbors@[d] == expected_entry(
                    nodes,
                    node.id.0 as int,
                    d,
                    xs,
                    ys,
                ),
        ensures
            Self::occupied_in(node, count) == torus_linked_in(nodes, node.id.0 as int, xs, ys, count),
        decreases count,
    {
        if count > 0 {
            Self::lemma_occupied_on_torus(nodes, node, xs, ys, count - 1);
            lemma_step_in_range(node.id.0 as int, direction(count - 1), xs, ys);
            assert(node.neighbors@[count - 1] == expected_entry(
                nodes,
                node.id.0 as int,
                count - 1,
                xs,
                ys,
            ));
        }
    }

    /// The surface of a graph that a node has left is the surface of the
    /// nodes that stay.
    proof fn lemma_surface_after_remove(
        links: Map<usize, Set<usize>>,
        nodes: Set<usize>,
        node: Node,
        xs: int,
        ys: int,
    )
        requires
            0 <= xs,
            0 <= ys,
            xs * ys <= usize::MAX,
            links == torus_surface(nodes, xs, ys),
            forall|a: usize| #[trigger] nodes.contains(a) ==> a < xs * ys,
            nodes.contains(node.id.0),
            forall|d: int|
                0 <= d < 4 ==> #[trigger] node.neighbors@[d] == expected_entry(
                    nodes,
                    node.id.0 as int,
                    d,
                    xs,
                    ys,
                ),
        ensures
            Surface::node_removed(links, node) == torus_surface(nodes.remove(node.id.0), xs, ys),
    {
        let result = Surface::node_removed(links, node);
        let expected = torus_surface(nodes.remove(node.id.0), xs, ys);
        assert forall|s: usize| #[trigger]
            result.contains_key(s) == expected.contains_key(s) && (result.contains_key(s)
                ==> result[s] == expected[s]) by {
            Self::lemma_surface_after_remove_at(links, nodes, node, xs, ys, s);
        }
        assert(result =~= expected);
    }

    proof fn lemma_surface_after_remove_at(
        links: Map<usize, Set<usize>>,
        nodes: Set<usize>,
        node: Node,
        xs: int,
        ys: int,
        s: usize,
    )
        requires
            0 <= xs,
            0 <= ys,
            xs * ys <= usize::MAX,
            links == torus_surface(nodes, xs, ys),
            forall|a: usize| #[trigger] nodes.contains(a) ==> a < xs * ys,
            nodes.contains(node.id.0),
            forall|d: int|
                0 <= d < 4 ==> #[trigger] node.neighbors@[d] == expected_entry(
                    nodes,
                    node.id.0 as int,
                    d,
                    xs,
                    ys,
                ),
        ensures
            Surface::node_removed(links, node).contains_key(s) == torus_surface(
                nodes.remove(node.id.0),
                xs,
                ys,
            ).contains_key(s),
            Surface::node_removed(links, node).contains_key(s) ==> Surface::node_removed(
                links,
                node,
            )[s] == torus_surface(nodes.remove(node.id.0), xs, ys)[s],
    {
        let t = node.id.0;
        let rest = nodes.remove(t);
        let l1 = Surface::entry_removed(links, node.neighbors@[0], node.id);
        let l2 = Surface::entry_removed(l1, node.neighbors@[1], node.id);
        let l3 = Surface::entry_removed(l2, node.neighbors@[2], node.id);
        let l4 = Surface::entry_removed(l3, node.neighbors@[3], node.id);
        let expected = torus_surface(rest, xs, ys);
        assert(proper_at(links, s)) by {
            if links.contains_key(s) {
                let a = choose|a: usize|
                    nodes.contains(a) && #[trigger] borders(a as int, s as int, xs, ys);
                assert(links[s].contains(a));
                assert(inhabited(links[s]));
            }
        }
        lemma_entry_removed_at(links, node.neighbors@[0], node.id, s);
        lemma_entry_removed_at(l1, node.neighbors@[1], node.id, s);
        lemma_entry_removed_at(l2, node.neighbors@[2], node.id, s);
        lemma_entry_removed_at(l3, node.neighbors@[3], node.id, s);
        assert forall|d: int| 0 <= d < 4 implies 0 <= #[trigger] step_tile(
            t as int,
            direction(d),
            xs,
            ys,
        ) < xs * ys by {
            lemma_step_in_range(t as int, direction(d), xs, ys);
        }
        assert(node.neighbors@[0] == expected_entry(nodes, t as int, 0, xs, ys));
        assert(node.neighbors@[1] == expected_entry(nodes, t as int, 1, xs, ys));
        assert(node.neighbors@[2] == expected_entry(nodes, t as int, 2, xs, ys));
        assert(node.neighbors@[3] == expected_entry(nodes, t as int, 3, xs, ys));
        let wanted = Set::new(|a: usize| rest.contains(a) && borders(a as int, s as int, xs, ys));
        let e0 = node.neighbors@[0];
        let e1 = node.neighbors@[1];
        let e2 = node.neighbors@[2];
        let e3 = node.neighbors@[3];
        if rest.contains(s) {
            assert(set_at(links, s) =~= Set::<usize>::empty());
            assert(set_at(l4, s) =~= Set::<usize>::empty());
            assert(!inhabited(set_at(l4, s)));
        } else if s == t {
            assert(set_at(links, s) =~= Set::<usize>::empty());
            assert forall|a: usize| set_at(l4, s).contains(a) == wanted.contains(a) by {
                let linked = e0 == Occupancy::Occupied(TileId(a)) || e1 == Occupancy::Occupied(
                    TileId(a),
                ) || e2 == Occupancy::Occupied(TileId(a)) || e3 == Occupancy::Occupied(TileId(a));
                assert(set_at(l4, s).contains(a) == linked);
                if linked {
                    let d: int = if e0 == Occupancy::Occupied(TileId(a)) {
                        0
                    } else if e1 == Occupancy::Occupied(TileId(a)) {
                        1
                    } else if e2 == Occupancy::Occupied(TileId(a)) {
                        2
                    } else {
                        3
                    };
                    assert(step_tile(t as int, direction(d), xs, ys) == a);
                    assert(borders(t as int, a as int, xs, ys));
                    lemma_borders_symmetric(t as int, a as int, xs, ys);
                }
                if wanted.contains(a) {
                    lemma_borders_symmetric(a as int, t as int, xs, ys);
                    let d = choose|d: int|
                        0 <= d < 4 && #[trigger] step_tile(t as int, direction(d), xs, ys) == a;
                    assert(node.neighbors@[d] == expected_entry(nodes, t as int, d, xs, ys));
                    assert(node.neighbors@[d] == Occupancy::Occupied(TileId(a)));
                }
            }
            assert(set_at(l4, s) =~= wanted);
            Self::lemma_keyed_like(l4, expected, wanted, rest, xs, ys, s);
        } else {
            let missed = e0 == Occupancy::Unoccupied(TileId(s)) || e1 == Occupancy::Unoccupied(
                TileId(s),
            ) || e2 == Occupancy::Unoccupied(TileId(s)) || e3 == Occupancy::Unoccupied(TileId(s));
            assert(set_at(l4, s) =~= if missed {
                set_at(links, s).remove(t)
            } else {
                set_at(links, s)
            });
            assert(missed == borders(t as int, s as int, xs, ys)) by {
                if missed {
                    let d: int = if e0 == Occupancy::Unoccupied(TileId(s)) {
                        0
                    } else if e1 == Occupancy::Unoccupied(TileId(s)) {
                        1
                    } else if e2 == Occupancy::Unoccupied(TileId(s)) {
                        2
                    } else {
                        3
                    };
                    assert(step_tile(t as int, direction(d), xs, ys) == s);
                }
                if borders(t as int, s as int, xs, ys) {
                    let d = choose|d: int|
                        0 <= d < 4 && #[trigger] step_tile(t as int, direction(d), xs, ys) == s;
                    assert(node.neighbors@[d] == expected_entry(nodes, t as int, d, xs, ys));
                    assert(node.neighbors@[d] == Occupancy::Unoccupied(TileId(s)));
                }
            }
            assert forall|a: usize| set_at(l4, s).contains(a) == wanted.contains(a) by {
                if nodes.contains(a) && borders(a as int, s as int, xs, ys) {
                    assert(links.contains_key(s));
                }
            }
            assert(set_at(l4, s) =~= wanted);
            Self::lemma_keyed_like(l4, expected, wanted, rest, xs, ys, s);
        }
    }

    proof fn lemma_keyed_like(
        links: Map<usize, Set<usize>>,
        expected: Map<usize, Set<usize>>,
        wanted: Set<usize>,
        rest: Set<usize>,
        xs: int,
        ys: int,
        s: usize,
    )
        requires
            expected == torus_surface(rest, xs, ys),
            wanted == Set::new(|a: usize| rest.contains(a) && borders(a as int, s as int, xs, ys)),
            !rest.contains(s),
            set_at(links, s) == wanted,
            links.contains_key(s) == inhabited(set_at(links, s)),
        ensures
            links.contains_key(s) == expected.contains_key(s),
            links.contains_key(s) ==> links[s] == expected[s],
    {
        if expected.contains_key(s) {
            let a = choose|a: usize| rest.contains(a) && #[trigger] borders(a as int, s as int, xs, ys);
            assert(wanted.contains(a));
        }
        if inhabited(wanted) {
            let a = choose|a: usize| wanted.contains(a);
            assert(rest.contains(a) && borders(a as int, s as int, xs, ys));
        }
    }
}

/// The nodes next to the tile `s` according to `links`; none if `s` is no
/// tile of the surface.
pub open spec fn set_at(links: Map<usize, Set<usize>>, s: usize) -> Set<usize> {
    if links.contains_key(s) {
        links[s]
    } else {
        Set::<usize>::empty()
    }
}

/// The set has a member.
pub open spec fn inhabited(set: Set<usize>) -> bool {
    exists|a: usize| set.contains(a)
}

/// A tile is kept in `links` only with a node next to it.
pub open spec fn proper_at(links: Map<usize, Set<usize>>, s: usize) -> bool {
    links.contains_key(s) ==> inhabited(links[s])
}

proof fn lemma_entry_removed_at(links: Map<usize, Set<usize>>, entry: Occupancy, id: TileId, s: usize)
    requires
        proper_at(links, s),
    ensures
        proper_at(Surface::entry_removed(links, entry, id), s),
        Surface::entry_removed(links, entry, id).contains_key(s) == inhabited(
            set_at(Surface::entry_removed(links, entry, id), s),
        ),
        set_at(Surface::entry_removed(links, entry, id), s) == match entry {
            Occupancy::Occupied(neighbor_id) => if s == id.0 {
                set_at(links, s).insert(neighbor_id.0)
            } else {
                set_at(links, s)
            },
            Occupancy::Unoccupied(neighbor_id) => if s == neighbor_id.0 {
                set_at(links, s).remove(id.0)
            } else {
                set_at(links, s)
            },
        },
{
    let result = Surface::entry_removed(links, entry, id);
    let nothing = Set::<usize>::empty();
    assert(!inhabited(nothing));
    match entry {
        Occupancy::Occupied(neighbor_id) => {
            if s == id.0 {
                assert(result[s].contains(neighbor_id.0));
                assert(inhabited(result[s]));
                if !links.contains_key(s) {
                    assert(result[s] =~= set_at(links, s).insert(neighbor_id.0));
                }
            } else {
                assert(result.contains_key(s) == links.contains_key(s));
                assert(set_at(result, s) == set_at(links, s));
            }
        },
        Occupancy::Unoccupied(neighbor_id) => {
            if s == neighbor_id.0 {
                if links.contains_key(s) {
                    let smaller = links[s].remove(id.0);
                    if smaller =~= nothing {
                        assert(!result.contains_key(s));
                        assert(set_at(result, s) == nothing);
                        assert(set_at(links, s).remove(id.0) == nothing);
                    } else {
                        if !inhabited(smaller) {
                            assert(smaller =~= nothing);
                        }
                        assert(result[s] == smaller);
                    }
                } else {
                    assert(result == links);
                    assert(set_at(links, s).remove(id.0) =~= nothing);
                }
            } else {
                assert(result.contains_key(s) == links.contains_key(s));
                assert(set_at(result, s) == set_at(links, s));
            }
        },
    }
}

proof fn lemma_entry_added_at(links: Map<usize, Set<usize>>, entry: Occupancy, id: TileId, s: usize)
    ensures
        Surface::entry_added(links, entry, id).contains_key(s) == (links.contains_key(s) || entry
            == Occupancy::Unoccupied(TileId(s))),
        set_at(Surface::entry_added(links, entry, id), s) == if entry == Occupancy::Unoccupied(
            TileId(s),
        ) {
            set_at(links, s).insert(id.0)
        } else {
            set_at(links, s)
        },
{
}

/// `path` leads through `graph` from node to linked node.
pub open spec fn is_path(graph: Map<usize, Set<usize>>, path: Seq<usize>) -> bool {
    &&& path.len() > 0
    &&& forall|i: int| 0 <= i < path.len() ==> graph.contains_key(#[trigger] path[i])
    &&& forall|i: int| 0 <= i < path.len() - 1 ==> #[trigger] path_linked(graph, path, i)
}

/// The node after the `i`-th of `path` is linked to it.
pub open spec fn path_linked(graph: Map<usize, Set<usize>>, path: Seq<usize>, i: int) -> bool {
    graph[path[i]].contains(path[i + 1])
}

/// A path leads from the node `from` to the node `to`.
pub open spec fn reaches(graph: Map<usize, Set<usize>>, from: usize, to: usize) -> bool {
    exists|path: Seq<usize>| #[trigger] is_path(graph, path) && path[0] == from && path.last() == to
}

/// The nodes that can be reached from `from`.
pub open spec fn component(graph: Map<usize, Set<usize>>, from: usize) -> Set<usize> {
    Set::new(|to: usize| reaches(graph, from, to))
}

/// Every node can be reached from every other.
pub open spec fn connected(graph: Map<usize, Set<usize>>) -> bool {
    forall|a: usize, b: usize|
        graph.contains_key(a) && graph.contains_key(b) ==> #[trigger] reaches(graph, a, b)
}

/// No link leads out of `nodes`.
pub open spec fn closed_under_links(graph: Map<usize, Set<usize>>, nodes: Set<usize>) -> bool {
    forall|a: usize, b: usize|
        nodes.contains(a) && graph.contains_key(a) && #[trigger] graph[a].contains(b)
            ==> nodes.contains(b)
}

/// Every node reaches itself.
pub proof fn lemma_reaches_itself(graph: Map<usize, Set<usize>>, a: usize)
    requires
        graph.contains_key(a),
    ensures
        reaches(graph, a, a),
{
    let path = seq![a];
    assert(is_path(graph, path));
    assert(path[0] == a && path.last() == a);
}

/// A node that reaches a node reaches the nodes linked to that.
pub proof fn lemma_reaches_next(graph: Map<usize, Set<usize>>, a: usize, b: usize, c: usize)
    requires
        reaches(graph, a, b),
        graph[b].contains(c),
        graph.contains_key(c),
    ensures
        reaches(graph, a, c),
{
    let path = choose|path: Seq<usize>| #[trigger]
        is_path(graph, path) && path[0] == a && path.last() == b;
    let longer = path.push(c);
    assert forall|i: int| 0 <= i < longer.len() - 1 implies #[trigger] path_linked(
        graph,
        longer,
        i,
    ) by {
        if i < path.len() - 1 {
            assert(path_linked(graph, path, i));
        }
    }
    assert(is_path(graph, longer));
    assert(longer[0] == a && longer.last() == c);
}

/// A path that starts in a set of nodes out of which no link leads stays in it.
pub proof fn lemma_path_stays(
    graph: Map<usize, Set<usize>>,
    nodes: Set<usize>,
    path: Seq<usize>,
    i: int,
)
    requires
        is_path(graph, path),
        closed_under_links(graph, nodes),
        nodes.contains(path[0]),
        0 <= i < path.len(),
    ensures
        nodes.contains(path[i]),
    decreases i,
{
    if i > 0 {
        lemma_path_stays(graph, nodes, path, i - 1);
        assert(path_linked(graph, path, i - 1));
    }
}

/// A set of nodes out of which no link leads holds whatever its nodes reach.
pub proof fn lemma_reaches_stays(
    graph: Map<usize, Set<usize>>,
    nodes: Set<usize>,
    from: usize,
    to: usize,
)
    requires
        closed_under_links(graph, nodes),
        nodes.contains(from),
        reaches(graph, from, to),
    ensures
        nodes.contains(to),
{
    let path = choose|path: Seq<usize>| #[trigger]
        is_path(graph, path) && path[0] == from && path.last() == to;
    lemma_path_stays(graph, nodes, path, path.len() - 1);
}

/// Every link of `graph` leads to a node and has a link back.
pub open spec fn links_mutual(graph: Map<usize, Set<usize>>) -> bool {
    forall|a: usize, b: usize|
        graph.contains_key(a) && #[trigger] graph[a].contains(b) ==> graph.contains_key(b)
            && graph[b].contains(a)
}

/// A path and a path from its end make a path.
pub proof fn lemma_reaches_transitive(graph: Map<usize, Set<usize>>, a: usize, b: usize, c: usize)
    requires
        reaches(graph, a, b),
        reaches(graph, b, c),
    ensures
        reaches(graph, a, c),
{
    let first = choose|path: Seq<usize>| #[trigger]
        is_path(graph, path) && path[0] == a && path.last() == b;
    let second = choose|path: Seq<usize>| #[trigger]
        is_path(graph, path) && path[0] == b && path.last() == c;
    let whole = first + second.drop_first();
    assert forall|i: int| 0 <= i < whole.len() implies graph.contains_key(#[trigger] whole[i]) by {
        if i >= first.len() {
            assert(whole[i] == second[i - first.len() + 1]);
        }
    }
    assert forall|i: int| 0 <= i < whole.len() - 1 implies #[trigger] path_linked(graph, whole, i) by {
        if i < first.len() - 1 {
            assert(path_linked(graph, first, i));
        } else {
            let k = i - first.len() + 1;
            assert(path_linked(graph, second, k));
            assert(whole[i + 1] == second[k + 1]);
            if k == 0 {
                assert(whole[i] == first.last());
            } else {
                assert(whole[i] == second[k]);
            }
        }
    }
    assert(is_path(graph, whole));
    assert(whole[0] == a);
    if second.len() == 1 {
        assert(whole =~= first);
    } else {
        assert(whole.last() == second.last());
    }
}

/// Where links are mutual, a path can be walked back.
pub proof fn lemma_reaches_symmetric(graph: Map<usize, Set<usize>>, a: usize, b: usize)
    requires
        links_mutual(graph),
        reaches(graph, a, b),
    ensures
        reaches(graph, b, a),
{
    let path = choose|path: Seq<usize>| #[trigger]
        is_path(graph, path) && path[0] == a && path.last() == b;
    let back = path.reverse();
    assert forall|i: int| 0 <= i < back.len() implies graph.contains_key(#[trigger] back[i]) by {
        assert(back[i] == path[path.len() - 1 - i]);
    }
    assert forall|i: int| 0 <= i < back.len() - 1 implies #[trigger] path_linked(graph, back, i) by {
        let k = path.len() - 2 - i;
        assert(path_linked(graph, path, k));
        assert(back[i] == path[k + 1]);
        assert(back[i + 1] == path[k]);
    }
    assert(is_path(graph, back));
    assert(back[0] == b && back.last() == a);
}

/// Where links are mutual, two nodes of which one reaches the other reach
/// the same nodes.
pub proof fn lemma_component_shared(graph: Map<usize, Set<usize>>, a: usize, b: usize)
    requires
        links_mutual(graph),
        reaches(graph, a, b),
    ensures
        component(graph, a) == component(graph, b),
{
    lemma_reaches_symmetric(graph, a, b);
    assert forall|x: usize| component(graph, a).contains(x) == component(graph, b).contains(x) by {
        if reaches(graph, a, x) {
            lemma_reaches_transitive(graph, b, a, x);
        }
        if reaches(graph, b, x) {
            lemma_reaches_transitive(graph, a, b, x);
        }
    }
    assert(component(graph, a) =~= component(graph, b));
}

/// What a node reaches are nodes.
pub proof fn lemma_component_of_nodes(graph: Map<usize, Set<usize>>, a: usize)
    ensures
        component(graph, a).subset_of(graph.dom()),
{
    assert forall|x: usize| component(graph, a).contains(x) implies graph.dom().contains(x) by {
        let path = choose|path: Seq<usize>| #[trigger]
            is_path(graph, path) && path[0] == a && path.last() == x;
        assert(graph.contains_key(path[path.len() - 1]));
    }
}

/// The tiles of `node_ids` after the first that are not the first.
pub open spec fn others(node_ids: Seq<TileId>) -> Set<usize> {
    Set::new(
        |x: usize|
            exists|i: int| 1 <= i < node_ids.len() && (#[trigger] node_ids[i]).0 == x && x != node_ids[0].0,
    )
}

/// Whether the first of `node_ids` reaches every other of them in `graph`;
/// a tile that is listed again counts as reached. The search marks in
/// `visited`, in which nothing is marked yet, what it reaches; if it does
/// not reach all of `node_ids`, it has marked all that the first of them
/// reaches.
pub fn all_connected(graph: &SimpleGraph, node_ids: &[TileId], visited: &mut FixedBitSet) -> (all: bool)
    requires
        graph.inv(),
        bitset_ones(*old(visited)) == Set::<usize>::empty(),
        forall|a: usize| graph.node_set().contains(a) ==> a < bitset_len(*old(visited)),
        node_ids@.len() > 1 ==> graph.node_set().contains(node_ids@[0].0),
    ensures
        bitset_len(*final(visited)) == bitset_len(*old(visited)),
        all == (forall|i: int|
            1 <= i < node_ids@.len() ==> reaches(graph@, node_ids@[0].0, (#[trigger] node_ids@[i]).0)),
        !all ==> bitset_ones(*final(visited)) == component(graph@, node_ids@[0].0),
        all ==> bitset_ones(*final(visited)).subset_of(component(graph@, node_ids@[0].0)),
{
    if node_ids.len() <= 1 {
        return true;
    }
    let first = node_ids[0];
    let ghost nodes = graph.node_set();
    let ghost limit = bitset_len(*old(visited));
    proof {
        graph.lemma_inv();
        lemma_reaches_itself(graph@, first.0);
    }
    let mut search: IntSet<usize> = IntSet::default();
    let mut index: usize = 1;
    while index < node_ids.len()
        invariant
            1 <= index <= node_ids@.len(),
            first == node_ids@[0],
            forall|x: usize|
                search@.contains(x) <==> exists|i: int|
                    1 <= i < index && (#[trigger] node_ids@[i]).0 == x && x != first.0,
        decreases node_ids@.len() - index,
    {
        let node_id = node_ids[index];
        if node_id != first {
            int_set_insert(&mut search, node_id.0);
        }
        index = index + 1;
    }
    assert(search@ =~= others(node_ids@));
    if search.is_empty() {
        proof {
            assert forall|i: int| 1 <= i < node_ids@.len() implies reaches(
                graph@,
                node_ids@[0].0,
                (#[trigger] node_ids@[i]).0,
            ) by {
                if node_ids@[i].0 != first.0 {
                    assert(others(node_ids@).contains(node_ids@[i].0));
                }
            }
        }
        return true;
    }
    let mut stack: VecDeque<TileId> = VecDeque::new();
    stack.push_front(first);
    bitset_insert(visited, first.0);
    let ghost mut unseen: nat = (nodes.len() - 1) as nat;
    proof {
        assert(nodes.len() >= 1) by {
            vstd::set_lib::lemma_len_subset(Set::<usize>::empty().insert(first.0), nodes);
        }
        assert(bitset_ones(*visited) =~= Set::<usize>::empty().insert(first.0));
        lemma_inhabited(search@);
        assert(stack@ =~= seq![first]);
        assert(stack@[0] == first);
        assert(stack@.contains(first));
    }
    while stack.len() > 0
        invariant
            graph.inv(),
            nodes == graph.node_set(),
            nodes.finite(),
            graph@.dom() == nodes,
            forall|a: usize, b: usize|
                nodes.contains(a) && #[trigger] graph@[a].contains(b) ==> nodes.contains(b),
            node_ids@.len() > 1,
            first == node_ids@[0],
            bitset_len(*visited) == limit,
            limit == bitset_len(*old(visited)),
            forall|a: usize| nodes.contains(a) ==> a < limit,
            bitset_ones(*visited).finite(),
            bitset_ones(*visited).subset_of(nodes),
            bitset_ones(*visited).contains(first.0),
            unseen + bitset_ones(*visited).len() == nodes.len(),
            forall|v: usize| bitset_ones(*visited).contains(v) ==> reaches(graph@, first.0, v),
            forall|i: int|
                0 <= i < stack@.len() ==> bitset_ones(*visited).contains((#[trigger] stack@[i]).0),
            forall|v: usize, w: usize|
                bitset_ones(*visited).contains(v) && #[trigger] graph@[v].contains(w) ==> bitset_ones(
                    *visited,
                ).contains(w) || stack@.contains(TileId(v)),
            forall|x: usize|
                search@.contains(x) <==> others(node_ids@).contains(x) && !bitset_ones(
                    *visited,
                ).contains(x),
            inhabited(search@),
        decreases 2 * unseen + stack@.len(),
    {
        let ghost waiting = stack@;
        let ghost measure = 2 * unseen + stack@.len();
        let node_id = stack.pop_front().unwrap();
        assert(bitset_ones(*visited).contains(waiting[0].0));
        let linked = graph.neighbor_iter(node_id);
        proof {
            assert forall|v: usize| v != node_id.0 && waiting.contains(TileId(v)) implies stack@.contains(
                TileId(v),
            ) by {
                let i = choose|i: int| 0 <= i < waiting.len() && waiting[i] == TileId(v);
                assert(stack@[i - 1] == TileId(v));
            }
            assert forall|w: usize| graph@[node_id.0].contains(w) implies exists|k: int|
                0 <= k < linked@.len() && #[trigger] linked@[k] == TileId(w) by {
                assert(linked@.contains(TileId(w)));
            }
        }
        let mut next: usize = 0;
        while next < linked.len()
            invariant
                graph.inv(),
                nodes == graph.node_set(),
                nodes.finite(),
                graph@.dom() == nodes,
                forall|a: usize, b: usize|
                    nodes.contains(a) && #[trigger] graph@[a].contains(b) ==> nodes.contains(b),
                node_ids@.len() > 1,
                first == node_ids@[0],
                bitset_len(*visited) == limit,
                limit == bitset_len(*old(visited)),
                forall|a: usize| nodes.contains(a) ==> a < limit,
                bitset_ones(*visited).finite(),
                bitset_ones(*visited).subset_of(nodes),
                bitset_ones(*visited).contains(first.0),
                bitset_ones(*visited).contains(node_id.0),
                unseen + bitset_ones(*visited).len() == nodes.len(),
                forall|v: usize| bitset_ones(*visited).contains(v) ==> reaches(graph@, first.0, v),
                forall|i: int|
                    0 <= i < stack@.len() ==> bitset_ones(*visited).contains(
                        (#[trigger] stack@[i]).0,
                    ),
                forall|v: usize, w: usize|
                    bitset_ones(*visited).contains(v) && v != node_id.0 && #[trigger] graph@[v].contains(
                        w,
                    ) ==> bitset_ones(*visited).contains(w) || stack@.contains(TileId(v)),
                forall|w: usize|
                    graph@[node_id.0].contains(w) ==> bitset_ones(*visited).contains(w) || exists|
                        k: int,
                    |
                        next <= k < linked@.len() && #[trigger] linked@[k] == TileId(w),
                forall|b: usize| graph@[node_id.0].contains(b) <==> linked@.contains(TileId(b)),
                forall|x: usize|
                    search@.contains(x) <==> others(node_ids@).contains(x) && !bitset_ones(
                        *visited,
                    ).contains(x),
                inhabited(search@),
                next <= linked@.len(),
                2 * unseen + stack@.len() < measure,
            decreases linked@.len() - next,
        {
            let neighbor_id = linked[next];
            let ghost seen = bitset_ones(*visited);
            let ghost queued = stack@;
            proof {
                assert(linked@.contains(neighbor_id));
                assert(graph@[node_id.0].contains(neighbor_id.0));
            }
            if !bitset_put(visited, neighbor_id.0) {
                proof {
                    lemma_reaches_next(graph@, first.0, node_id.0, neighbor_id.0);
                    vstd::set_lib::lemma_len_subset(seen.insert(neighbor_id.0), nodes);
                    unseen = (unseen - 1) as nat;
                }
                let ghost sought = search@;
                let found = int_set_remove(&mut search, neighbor_id.0);
                if found && search.is_empty() {
                    proof {
                        assert forall|i: int| 1 <= i < node_ids@.len() implies reaches(
                            graph@,
                            node_ids@[0].0,
                            (#[trigger] node_ids@[i]).0,
                        ) by {
                            let x = node_ids@[i].0;
                            if x != first.0 {
                                assert(others(node_ids@).contains(x));
                                assert(!search@.contains(x));
                            }
                        }
                    }
                    return true;
                }
                stack.push_back(neighbor_id);
                proof {
                    if found {
                        lemma_inhabited(search@);
                    } else {
                        assert(search@ =~= sought);
                    }
                    assert(stack@[queued.len() as int] == neighbor_id);
                    assert(stack@.contains(neighbor_id));
                    assert forall|v: usize| queued.contains(TileId(v)) implies stack@.contains(
                        TileId(v),
                    ) by {
                        let i = choose|i: int| 0 <= i < queued.len() && queued[i] == TileId(v);
                        assert(stack@[i] == TileId(v));
                    }
                }
            }
            next = next + 1;
        }
    }
    proof {
        let seen = bitset_ones(*visited);
        assert forall|v: usize, w: usize|
            seen.contains(v) && graph@.contains_key(v) && #[trigger] graph@[v].contains(
                w,
            ) implies seen.contains(w) by {
            assert(!stack@.contains(TileId(v)));
        }
        assert(closed_under_links(graph@, seen));
        assert forall|v: usize| seen.contains(v) == component(graph@, first.0).contains(v) by {
            if reaches(graph@, first.0, v) {
                lemma_reaches_stays(graph@, seen, first.0, v);
            }
        }
        assert(seen =~= component(graph@, first.0));
        let x = choose|x: usize| search@.contains(x);
        assert(others(node_ids@).contains(x));
        let i = choose|i: int|
            1 <= i < node_ids@.len() && (#[trigger] node_ids@[i]).0 == x && x != node_ids@[0].0;
        assert(!reaches(graph@, node_ids@[0].0, node_ids@[i].0));
    }
    false
}

/// A set that is not empty has a member.
proof fn lemma_inhabited(set: Set<usize>)
    requires
        !set.is_empty(),
    ensures
        inhabited(set),
{
    if !inhabited(set) {
        assert(set =~= Set::<usize>::empty());
    }
}

/// `tiles` holds, each once, the nodes that its first tile reaches.
pub open spec fn is_component(graph: Map<usize, Set<usize>>, tiles: Seq<TileId>) -> bool {
    &&& tiles.len() > 0
    &&& tiles.no_duplicates()
    &&& forall|x: usize| tiles.contains(TileId(x)) <==> reaches(graph, tiles[0].0, x)
}

/// The nodes that `start` reaches, `start` first, all of them marked in `visited`.
fn collect_component(
    graph: &SimpleGraph,
    start: TileId,
    visited: &mut FixedBitSet,
    node_count: usize,
) -> (component: Vec<TileId>)
    requires
        graph.inv(),
        graph.node_set().contains(start.0),
        !bitset_ones(*old(visited)).contains(start.0),
        bitset_ones(*old(visited)).subset_of(graph.node_set()),
        closed_under_links(graph@, bitset_ones(*old(visited))),
        forall|a: usize| graph.node_set().contains(a) ==> a < bitset_len(*old(visited)),
    ensures
        bitset_len(*final(visited)) == bitset_len(*old(visited)),
        is_component(graph@, component@),
        component@[0] == start,
        forall|x: usize| component@.contains(TileId(x)) ==> !bitset_ones(*old(visited)).contains(x),
        forall|x: usize|
            bitset_ones(*final(visited)).contains(x) <==> bitset_ones(*old(visited)).contains(x)
                || component@.contains(TileId(x)),
        bitset_ones(*final(visited)).subset_of(graph.node_set()),
        closed_under_links(graph@, bitset_ones(*final(visited))),
{
    let ghost nodes = graph.node_set();
    let ghost limit = bitset_len(*old(visited));
    let ghost marked = bitset_ones(*old(visited));
    let mut component: Vec<TileId> = Vec::with_capacity(node_count);
    let mut stack: Vec<TileId> = Vec::with_capacity(node_count);
    stack.push(start);
    bitset_insert(visited, start.0);
    let ghost mut unseen: nat = 0;
    proof {
        graph.lemma_inv();
        lemma_reaches_itself(graph@, start.0);
        assert(marked.finite()) by {
            vstd::set_lib::lemma_len_subset(marked, nodes);
        }
        vstd::set_lib::lemma_len_subset(marked.insert(start.0), nodes);
        unseen = (nodes.len() - marked.insert(start.0).len()) as nat;
        assert(stack@ =~= seq![start]);
        assert(stack@[0] == start);
        assert(start == TileId(start.0));
    }
    while stack.len() > 0
        invariant
            graph.inv(),
            nodes == graph.node_set(),
            nodes.finite(),
            graph@.dom() == nodes,
            forall|a: usize, b: usize|
                nodes.contains(a) && #[trigger] graph@[a].contains(b) ==> nodes.contains(b)
                    && graph@[b].contains(a),
            nodes.contains(start.0),
            marked == bitset_ones(*old(visited)),
            closed_under_links(graph@, marked),
            bitset_len(*visited) == limit,
            limit == bitset_len(*old(visited)),
            forall|a: usize| nodes.contains(a) ==> a < limit,
            bitset_ones(*visited).finite(),
            bitset_ones(*visited).subset_of(nodes),
            unseen + bitset_ones(*visited).len() == nodes.len(),
            forall|x: usize| #[trigger]
                bitset_ones(*visited).contains(x) ==> marked.contains(x) || component@.contains(
                    TileId(x),
                ) || stack@.contains(TileId(x)),
            forall|x: usize| #[trigger] marked.contains(x) ==> bitset_ones(*visited).contains(x),
            forall|t: TileId| #[trigger]
                component@.contains(t) ==> bitset_ones(*visited).contains(t.0) && !marked.contains(
                    t.0,
                ) && reaches(graph@, start.0, t.0) && !stack@.contains(t),
            forall|t: TileId| #[trigger]
                stack@.contains(t) ==> bitset_ones(*visited).contains(t.0) && !marked.contains(t.0)
                    && reaches(graph@, start.0, t.0),
            component@.no_duplicates(),
            stack@.no_duplicates(),
            forall|t: TileId, w: usize|
                component@.contains(t) && #[trigger] graph@[t.0].contains(w) ==> bitset_ones(
                    *visited,
                ).contains(w),
            component@.len() > 0 ==> component@[0] == start,
            component@.len() == 0 ==> stack@ == seq![start],
        decreases 2 * unseen + stack@.len(),
    {
        let ghost waiting = stack@;
        let ghost gathered = component@;
        let ghost measure = 2 * unseen + stack@.len();
        let node_id = stack.pop().unwrap();
        proof {
            assert(waiting.contains(node_id)) by {
                assert(waiting[waiting.len() - 1] == node_id);
            }
            assert(node_id == TileId(node_id.0));
            assert(!gathered.contains(node_id));
        }
        component.push(node_id);
        let linked = graph.neighbor_iter(node_id);
        proof {
            assert forall|t: TileId| waiting.contains(t) && t != node_id implies stack@.contains(
                t,
            ) by {
                let i = choose|i: int| 0 <= i < waiting.len() && waiting[i] == t;
                assert(stack@[i] == t);
            }
            assert forall|t: TileId| stack@.contains(t) implies waiting.contains(t) && t
                != node_id by {
                let i = choose|i: int| 0 <= i < stack@.len() && stack@[i] == t;
                assert(waiting[i] == t);
            }
            assert forall|t: TileId| component@.contains(t) <==> gathered.contains(t) || t
                == node_id by {
                if gathered.contains(t) {
                    let i = choose|i: int| 0 <= i < gathered.len() && gathered[i] == t;
                    assert(component@[i] == t);
                }
                if t == node_id {
                    assert(component@[gathered.len() as int] == t);
                }
                if component@.contains(t) {
                    let i = choose|i: int| 0 <= i < component@.len() && component@[i] == t;
                    if i < gathered.len() {
                        assert(gathered[i] == t);
                    }
                }
            }
            assert forall|w: usize| graph@[node_id.0].contains(w) implies exists|k: int|
                0 <= k < linked@.len() && #[trigger] linked@[k] == TileId(w) by {
                assert(linked@.contains(TileId(w)));
            }
            assert forall|t: TileId| #[trigger] stack@.contains(t) implies bitset_ones(
                *visited,
            ).contains(t.0) by {
                assert(waiting.contains(t));
            }
            assert forall|t: TileId| #[trigger] stack@.contains(t) implies !marked.contains(t.0) by {
                assert(waiting.contains(t));
            }
            assert forall|t: TileId| #[trigger] stack@.contains(t) implies reaches(
                graph@,
                start.0,
                t.0,
            ) by {
                assert(waiting.contains(t));
            }
            assert forall|t: TileId| #[trigger] component@.contains(t) implies bitset_ones(
                *visited,
            ).contains(t.0) && !marked.contains(t.0) && reaches(graph@, start.0, t.0) by {
                if !gathered.contains(t) {
                    assert(t == node_id);
                    assert(waiting.contains(t));
                }
            }
            assert forall|t: TileId| #[trigger] component@.contains(t) implies !stack@.contains(t) by {
                if gathered.contains(t) {
                    assert(!waiting.contains(t));
                    if stack@.contains(t) {
                        assert(waiting.contains(t));
                    }
                } else {
                    assert(t == node_id);
                    if stack@.contains(t) {
                        assert(waiting.contains(t) && t != node_id);
                    }
                }
            }
        }
        let mut next: usize = 0;
        while next < linked.len()
            invariant
                graph.inv(),
                nodes == graph.node_set(),
                nodes.finite(),
                graph@.dom() == nodes,
                forall|a: usize, b: usize|
                    nodes.contains(a) && #[trigger] graph@[a].contains(b) ==> nodes.contains(b)
                        && graph@[b].contains(a),
                nodes.contains(start.0),
                nodes.contains(node_id.0),
                marked == bitset_ones(*old(visited)),
                closed_under_links(graph@, marked),
                bitset_len(*visited) == limit,
                limit == bitset_len(*old(visited)),
                forall|a: usize| nodes.contains(a) ==> a < limit,
                bitset_ones(*visited).finite(),
                bitset_ones(*visited).subset_of(nodes),
                unseen + bitset_ones(*visited).len() == nodes.len(),
                forall|x: usize| #[trigger]
                    bitset_ones(*visited).contains(x) ==> marked.contains(x)
                        || component@.contains(TileId(x)) || stack@.contains(TileId(x)),
                forall|x: usize| #[trigger] marked.contains(x) ==> bitset_ones(*visited).contains(x),
                forall|t: TileId| #[trigger]
                    component@.contains(t) ==> bitset_ones(*visited).contains(t.0)
                        && !marked.contains(t.0) && reaches(graph@, start.0, t.0)
                        && !stack@.contains(t),
                forall|t: TileId| #[trigger]
                    stack@.contains(t) ==> bitset_ones(*visited).contains(t.0) && !marked.contains(
                        t.0,
                    ) && reaches(graph@, start.0, t.0),
                component@.no_duplicates(),
                stack@.no_duplicates(),
                component@.contains(node_id),
                forall|t: TileId, w: usize|
                    component@.contains(t) && t != node_id && #[trigger] graph@[t.0].contains(w)
                        ==> bitset_ones(*visited).contains(w),
                forall|w: usize|
                    graph@[node_id.0].contains(w) ==> bitset_ones(*visited).contains(w) || exists|
                        k: int,
                    |
                        next <= k < linked@.len() && #[trigger] linked@[k] == TileId(w),
                forall|b: usize| graph@[node_id.0].contains(b) <==> linked@.contains(TileId(b)),
                component@.len() > 0,
                component@[0] == start,
                next <= linked@.len(),
                2 * unseen + stack@.len() < measure,
            decreases linked@.len() - next,
        {
            let neighbor_id = linked[next];
            let ghost seen = bitset_ones(*visited);
            let ghost queued = stack@;
            proof {
                assert(linked@.contains(neighbor_id));
                assert(neighbor_id == TileId(neighbor_id.0));
                assert(graph@[node_id.0].contains(neighbor_id.0));
            }
            if !bitset_put(visited, neighbor_id.0) {
                proof {
                    lemma_reaches_next(graph@, start.0, node_id.0, neighbor_id.0);
                    vstd::set_lib::lemma_len_subset(seen.insert(neighbor_id.0), nodes);
                    unseen = (unseen - 1) as nat;
                    assert(!marked.contains(neighbor_id.0));
                    assert(!queued.contains(neighbor_id));
                    assert(!component@.contains(neighbor_id));
                }
                stack.push(neighbor_id);
                proof {
                    assert(stack@[queued.len() as int] == neighbor_id);
                    assert forall|t: TileId| stack@.contains(t) <==> queued.contains(t) || t
                        == neighbor_id by {
                        if queued.contains(t) {
                            let i = choose|i: int| 0 <= i < queued.len() && queued[i] == t;
                            assert(stack@[i] == t);
                        }
                        if stack@.contains(t) {
                            let i = choose|i: int| 0 <= i < stack@.len() && stack@[i] == t;
                            if i < queued.len() {
                                assert(queued[i] == t);
                            }
                        }
                    }
                    assert forall|t: TileId| #[trigger] stack@.contains(t) implies bitset_ones(
                        *visited,
                    ).contains(t.0) && !marked.contains(t.0) && reaches(graph@, start.0, t.0) by {
                        if queued.contains(t) {
                            assert(seen.contains(t.0));
                        } else {
                            assert(t == neighbor_id);
                        }
                    }
                    assert forall|t: TileId| #[trigger] component@.contains(t) implies !stack@.contains(
                        t,
                    ) by {
                        assert(!queued.contains(t));
                    }
                }
            }
            next = next + 1;
        }
    }
    proof {
        let seen = bitset_ones(*visited);
        let gathered = Set::new(|x: usize| component@.contains(TileId(x)));
        assert(component@.len() > 0);
        assert(component@.contains(start)) by {
            assert(component@[0] == start);
        }
        assert(start == TileId(start.0));
        assert(gathered.contains(start.0));
        assert forall|t: TileId| !stack@.contains(t) by {
            if stack@.contains(t) {
                let i = choose|i: int| 0 <= i < stack@.len() && stack@[i] == t;
            }
        }
        assert forall|v: usize, w: usize|
            gathered.contains(v) && graph@.contains_key(v) && #[trigger] graph@[v].contains(
                w,
            ) implies gathered.contains(w) by {
            assert(component@.contains(TileId(v)));
            assert(graph@[TileId(v).0].contains(w));
            assert(seen.contains(w));
            if marked.contains(w) {
                assert(graph@[w].contains(v));
            }
        }
        assert(closed_under_links(graph@, gathered));
        assert forall|x: usize| component@.contains(TileId(x)) <==> reaches(
            graph@,
            component@[0].0,
            x,
        ) by {
            if reaches(graph@, start.0, x) {
                lemma_reaches_stays(graph@, gathered, start.0, x);
            }
        }
        assert forall|v: usize, w: usize|
            seen.contains(v) && graph@.contains_key(v) && #[trigger] graph@[v].contains(
                w,
            ) implies seen.contains(w) by {
            if !marked.contains(v) {
                assert(gathered.contains(v));
                assert(gathered.contains(w));
                assert(component@.contains(TileId(w)));
            }
        }
        assert forall|x: usize|
            bitset_ones(*visited).contains(x) <==> bitset_ones(*old(visited)).contains(x)
                || component@.contains(TileId(x)) by {
            if component@.contains(TileId(x)) {
                assert(seen.contains(TileId(x).0));
            }
        }
        assert forall|x: usize| component@.contains(TileId(x)) implies !bitset_ones(
            *old(visited),
        ).contains(x) by {
            assert(!marked.contains(TileId(x).0));
        }
    }
    component
}

/// The nodes of `graph` in parts: first the tiles marked in `visited`, in
/// increasing order, then, for every node not yet marked, the nodes that it
/// reaches, each such part once. Every node ends up marked.
pub fn components(graph: &SimpleGraph, visited: &mut FixedBitSet) -> (components: Vec<Vec<TileId>>)
    requires
        graph.inv(),
        bitset_ones(*old(visited)).subset_of(graph.node_set()),
        closed_under_links(graph@, bitset_ones(*old(visited))),
        forall|a: usize| graph.node_set().contains(a) ==> a < bitset_len(*old(visited)),
    ensures
        bitset_len(*final(visited)) == bitset_len(*old(visited)),
        bitset_ones(*final(visited)) == graph.node_set(),
        components@.len() >= 1,
        forall|i: int, j: int|
            0 <= i < j < components@[0]@.len() ==> components@[0]@[i].0 < components@[0]@[j].0,
        forall|a: usize|
            components@[0]@.contains(TileId(a)) <==> bitset_ones(*old(visited)).contains(a),
        forall|i: int|
            1 <= i < components@.len() ==> is_component(graph@, (#[trigger] components@[i])@),
        forall|a: usize|
            graph.node_set().contains(a) ==> exists|i: int|
                0 <= i < components@.len() && (#[trigger] components@[i])@.contains(TileId(a)),
        forall|i: int, j: int, a: TileId|
            0 <= i < j < components@.len() ==> !(#[trigger] components@[i]@.contains(a) && #[trigger] components@[j]@.contains(a)),
{
    let mut components: Vec<Vec<TileId>> = Vec::new();
    let node_count = graph.node_count();
    let ghost marked = bitset_ones(*old(visited));
    let ghost nodes = graph.node_set();

    let mut component: Vec<TileId> = Vec::with_capacity(node_count);
    let positions = bitset_positions(visited);
    let mut index: usize = 0;
    while index < positions.len()
        invariant
            index <= positions@.len(),
            component@.len() == index,
            forall|i: int| 0 <= i < index ==> #[trigger] component@[i] == TileId(positions@[i]),
        decreases positions@.len() - index,
    {
        component.push(TileId::from(positions[index]));
        index = index + 1;
    }
    proof {
        assert forall|a: usize| component@.contains(TileId(a)) <==> marked.contains(a) by {
            if component@.contains(TileId(a)) {
                let i = choose|i: int| 0 <= i < component@.len() && component@[i] == TileId(a);
                assert(positions@.to_set().contains(positions@[i]));
            }
            if marked.contains(a) {
                assert(positions@.to_set().contains(a));
                let i = choose|i: int| 0 <= i < positions@.len() && positions@[i] == a;
                assert(component@[i] == TileId(a));
            }
        }
    }
    let ghost first = component@;
    components.push(component);
    let order = graph.nodes();
    let mut index: usize = 0;
    while index < order.len()
        invariant
            graph.inv(),
            nodes == graph.node_set(),
            index <= order@.len(),
            marked == bitset_ones(*old(visited)),
            bitset_len(*visited) == bitset_len(*old(visited)),
            forall|a: usize| nodes.contains(a) ==> a < bitset_len(*visited),
            forall|a: usize| nodes.contains(a) <==> order@.contains(TileId(a)),
            bitset_ones(*visited).subset_of(nodes),
            closed_under_links(graph@, bitset_ones(*visited)),
            components@.len() >= 1,
            components@[0]@ == first,
            forall|a: usize| first.contains(TileId(a)) <==> marked.contains(a),
            forall|i: int|
                1 <= i < components@.len() ==> is_component(graph@, (#[trigger] components@[i])@),
            forall|a: usize|
                bitset_ones(*visited).contains(a) <==> exists|i: int|
                    0 <= i < components@.len() && (#[trigger] components@[i])@.contains(TileId(a)),
            forall|i: int, a: TileId|
                0 <= i < components@.len() && #[trigger] components@[i]@.contains(a)
                    ==> bitset_ones(*visited).contains(a.0),
            forall|i: int, j: int, a: TileId|
                0 <= i < j < components@.len() ==> !(#[trigger] components@[i]@.contains(a) && #[trigger] components@[j]@.contains(a)),
            forall|k: int| 0 <= k < index ==> bitset_ones(*visited).contains((#[trigger] order@[k]).0),
        decreases order@.len() - index,
    {
        let node_id = order[index];
        proof {
            assert(order@.contains(node_id));
        }
        if !bitset_contains(visited, node_id.0) {
            let ghost seen = bitset_ones(*visited);
            let ghost parts = components@;
            let component = collect_component(graph, node_id, visited, node_count);
            let ghost gathered = component@;
            components.push(component);
            proof {
                assert(components@[parts.len() as int]@ == gathered);
                assert forall|i: int| 0 <= i < parts.len() implies components@[i] == parts[i] by {}
                assert(gathered.contains(node_id)) by {
                    assert(gathered[0] == node_id);
                }
                assert forall|a: usize| bitset_ones(*visited).contains(a) implies exists|i: int|
                    0 <= i < components@.len() && (#[trigger] components@[i])@.contains(
                        TileId(a),
                    ) by {
                    if seen.contains(a) {
                        let i = choose|i: int|
                            0 <= i < parts.len() && (#[trigger] parts[i])@.contains(TileId(a));
                        assert(components@[i]@.contains(TileId(a)));
                    } else {
                        assert(components@[parts.len() as int]@.contains(TileId(a)));
                    }
                }
                assert forall|i: int, a: TileId|
                    0 <= i < components@.len() && #[trigger] components@[i]@.contains(a) implies bitset_ones(*visited).contains(a.0) by {
                    if i < parts.len() {
                        assert(parts[i]@.contains(a));
                    } else {
                        assert(a == TileId(a.0));
                    }
                }
                assert forall|i: int, j: int, a: TileId| 0 <= i < j < components@.len() implies !(#[trigger] components@[i]@.contains(a) && #[trigger] components@[j]@.contains(a)) by {
                    if j == parts.len() && components@[i]@.contains(a) {
                        assert(parts[i]@.contains(a));
                        assert(seen.contains(a.0));
                        assert(a == TileId(a.0));
                    }
                }
            }
        }
        index = index + 1;
    }
    proof {
        assert forall|a: usize| nodes.contains(a) implies bitset_ones(*visited).contains(a) by {
            let k = choose|k: int| 0 <= k < order@.len() && order@[k] == TileId(a);
            assert(bitset_ones(*visited).contains(order@[k].0));
        }
        assert(bitset_ones(*visited) =~= nodes);
        assert(positions@.to_set() == marked);
    }
    components
}

} // verus!
