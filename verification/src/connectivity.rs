use crate::simple_graph::{
    borders, component, connected, is_path, lemma_borders_symmetric, lemma_reaches_itself,
    lemma_reaches_next, lemma_reaches_symmetric, lemma_reaches_transitive, links_mutual,
    path_linked, reaches, torus_adjacency, torus_linked, torus_linked_in,
};
use crate::square_grid::{direction, lemma_step_in_range, step_tile};
use crate::tiles::TileId;
use vstd::prelude::*;

verus! {

/// The first of `linked` reaches all the others in `graph`.
pub open spec fn keeps_together(linked: Seq<TileId>, graph: Map<usize, Set<usize>>) -> bool {
    forall|i: int| 1 <= i < linked.len() ==> reaches(graph, linked[0].0, (#[trigger] linked[i]).0)
}

/// `part` is what some node of `graph` reaches, and no node reaches more nodes.
pub open spec fn largest_component(graph: Map<usize, Set<usize>>, part: Set<usize>) -> bool {
    exists|s: usize| #[trigger]
        graph.contains_key(s) && part == component(graph, s) && forall|a: usize| #[trigger]
            graph.contains_key(a) ==> component(graph, a).len() <= part.len()
}

/// No tile of `part` is less than `tile`.
pub open spec fn below(tile: usize, part: Set<usize>) -> bool {
    forall|x: usize| part.contains(x) ==> tile <= x
}

/// `part` holds a tile than which no tile of `other` is less.
pub open spec fn leads(part: Set<usize>, other: Set<usize>) -> bool {
    exists|least: usize| part.contains(least) && #[trigger] below(least, other)
}

/// `part` is what some node of `graph` reaches; no node reaches more
/// nodes; and of all that nodes reach which is as large, `part` is the one
/// with the least tile.
pub open spec fn leading_component(graph: Map<usize, Set<usize>>, part: Set<usize>) -> bool {
    &&& largest_component(graph, part)
    &&& forall|a: usize| #[trigger]
        graph.contains_key(a) && component(graph, a).len() == part.len() ==> leads(
            part,
            component(graph, a),
        )
}

/// A set of tiles that holds a tile holds a least one.
pub proof fn lemma_has_least(part: Set<usize>, member: usize)
    requires
        part.contains(member),
    ensures
        leads(part, part),
    decreases member,
{
    if exists|x: usize| part.contains(x) && x < member {
        let x = choose|x: usize| part.contains(x) && x < member;
        lemma_has_least(part, x);
    } else {
        assert(below(member, part));
    }
}

/// On a torus, links go both ways.
pub proof fn lemma_torus_links_mutual(nodes: Set<usize>, x_size: int, y_size: int)
    requires
        0 <= x_size,
        0 <= y_size,
        forall|a: usize| #[trigger] nodes.contains(a) ==> a < x_size * y_size,
    ensures
        links_mutual(torus_adjacency(nodes, x_size, y_size)),
{
    let graph = torus_adjacency(nodes, x_size, y_size);
    assert forall|a: usize, b: usize|
        graph.contains_key(a) && #[trigger] graph[a].contains(b) implies graph.contains_key(b)
        && graph[b].contains(a) by {
        lemma_borders_symmetric(a as int, b as int, x_size, y_size);
    }
}

/// A path through some nodes is a path through any nodes that hold them.
pub proof fn lemma_path_grows(
    few: Set<usize>,
    many: Set<usize>,
    x_size: int,
    y_size: int,
    path: Seq<usize>,
)
    requires
        few.subset_of(many),
        is_path(torus_adjacency(few, x_size, y_size), path),
    ensures
        is_path(torus_adjacency(many, x_size, y_size), path),
{
    let small = torus_adjacency(few, x_size, y_size);
    let large = torus_adjacency(many, x_size, y_size);
    assert forall|i: int| 0 <= i < path.len() implies large.contains_key(#[trigger] path[i]) by {
        assert(small.contains_key(path[i]));
    }
    assert forall|i: int| 0 <= i < path.len() - 1 implies #[trigger] path_linked(large, path, i) by {
        assert(path_linked(small, path, i));
        assert(small.contains_key(path[i]));
        assert(small.contains_key(path[i + 1]));
    }
}

/// A path that stays within some of the nodes is a path through those alone.
pub proof fn lemma_path_shrinks(
    few: Set<usize>,
    many: Set<usize>,
    x_size: int,
    y_size: int,
    path: Seq<usize>,
)
    requires
        is_path(torus_adjacency(many, x_size, y_size), path),
        forall|i: int| 0 <= i < path.len() ==> few.contains(#[trigger] path[i]),
    ensures
        is_path(torus_adjacency(few, x_size, y_size), path),
{
    let small = torus_adjacency(few, x_size, y_size);
    let large = torus_adjacency(many, x_size, y_size);
    assert forall|i: int| 0 <= i < path.len() - 1 implies #[trigger] path_linked(small, path, i) by {
        assert(path_linked(large, path, i));
        assert(large.contains_key(path[i]));
        assert(few.contains(path[i + 1]));
    }
}

/// Every node on a path is reached from its start.
pub proof fn lemma_path_reaches(graph: Map<usize, Set<usize>>, path: Seq<usize>, i: int)
    requires
        is_path(graph, path),
        0 <= i < path.len(),
    ensures
        reaches(graph, path[0], path[i]),
{
    let part = path.take(i + 1);
    assert forall|k: int| 0 <= k < part.len() - 1 implies #[trigger] path_linked(graph, part, k) by {
        assert(path_linked(graph, path, k));
    }
    assert(is_path(graph, part));
    assert(part[0] == path[0] && part.last() == path[i]);
}

/// What a node reaches is connected by itself.
pub proof fn lemma_component_connected(nodes: Set<usize>, x_size: int, y_size: int, s: usize)
    requires
        0 <= x_size,
        0 <= y_size,
        forall|a: usize| #[trigger] nodes.contains(a) ==> a < x_size * y_size,
    ensures
        connected(
            torus_adjacency(component(torus_adjacency(nodes, x_size, y_size), s), x_size, y_size),
        ),
{
    let graph = torus_adjacency(nodes, x_size, y_size);
    let part = component(graph, s);
    let inner = torus_adjacency(part, x_size, y_size);
    crate::simple_graph::lemma_component_of_nodes(graph, s);
    lemma_torus_links_mutual(part, x_size, y_size);
    assert forall|a: usize| part.contains(a) implies reaches(inner, s, a) by {
        let path = choose|path: Seq<usize>| #[trigger]
            is_path(graph, path) && path[0] == s && path.last() == a;
        assert forall|i: int| 0 <= i < path.len() implies part.contains(#[trigger] path[i]) by {
            lemma_path_reaches(graph, path, i);
        }
        lemma_path_shrinks(part, nodes, x_size, y_size, path);
    }
    assert forall|a: usize, b: usize|
        inner.contains_key(a) && inner.contains_key(b) implies #[trigger] reaches(inner, a, b) by {
        lemma_reaches_symmetric(inner, s, a);
        lemma_reaches_transitive(inner, a, s, b);
    }
}

/// The nodes linked to `node` are the nodes that border it.
pub proof fn lemma_torus_linked(nodes: Set<usize>, node: usize, x_size: int, y_size: int, b: usize)
    requires
        0 <= x_size,
        0 <= y_size,
        x_size * y_size <= usize::MAX,
        node < x_size * y_size,
    ensures
        torus_linked(nodes, node as int, x_size, y_size).contains(TileId(b)) <==> nodes.contains(b)
            && borders(node as int, b as int, x_size, y_size),
{
    lemma_torus_linked_in(nodes, node, x_size, y_size, 4, b);
    if nodes.contains(b) && borders(node as int, b as int, x_size, y_size) {
        let d = choose|d: int|
            0 <= d < 4 && #[trigger] step_tile(node as int, direction(d), x_size, y_size) == b;
        assert(step_tile(node as int, direction(d), x_size, y_size) == b);
    }
}

proof fn lemma_torus_linked_in(
    nodes: Set<usize>,
    node: usize,
    x_size: int,
    y_size: int,
    count: int,
    b: usize,
)
    requires
        0 <= count <= 4,
        0 <= x_size,
        0 <= y_size,
        x_size * y_size <= usize::MAX,
        node < x_size * y_size,
    ensures
        torus_linked_in(nodes, node as int, x_size, y_size, count).contains(TileId(b)) <==> b
            != node && nodes.contains(b) && exists|d: int|
            0 <= d < count && #[trigger] step_tile(node as int, direction(d), x_size, y_size) == b,
    decreases count,
{
    if count > 0 {
        lemma_torus_linked_in(nodes, node, x_size, y_size, count - 1, b);
        lemma_step_in_range(node as int, direction(count - 1), x_size, y_size);
        let shorter = torus_linked_in(nodes, node as int, x_size, y_size, count - 1);
        let all = torus_linked_in(nodes, node as int, x_size, y_size, count);
        let last = step_tile(node as int, direction(count - 1), x_size, y_size);
        if last != node && nodes.contains(last as usize) {
            assert(all == shorter.push(TileId(last as usize)));
            if all.contains(TileId(b)) {
                let i = choose|i: int| 0 <= i < all.len() && all[i] == TileId(b);
                if i < shorter.len() {
                    assert(shorter[i] == TileId(b));
                }
            }
            if shorter.contains(TileId(b)) {
                let i = choose|i: int| 0 <= i < shorter.len() && shorter[i] == TileId(b);
                assert(all[i] == TileId(b));
            }
            if b == last {
                assert(all[shorter.len() as int] == TileId(b));
            }
        }
        if exists|d: int|
            0 <= d < count && #[trigger] step_tile(node as int, direction(d), x_size, y_size) == b {
            let d = choose|d: int|
                0 <= d < count && #[trigger] step_tile(node as int, direction(d), x_size, y_size)
                    == b;
            if d < count - 1 {
                assert(step_tile(node as int, direction(d), x_size, y_size) == b);
            }
        }
    }
}

/// The place at which a path first comes to the node `node`.
proof fn lemma_first_visit(path: Seq<usize>, node: usize, upto: int) -> (first: int)
    requires
        0 <= upto < path.len(),
        path[upto] == node,
    ensures
        0 <= first <= upto,
        path[first] == node,
        forall|i: int| 0 <= i < first ==> path[i] != node,
    decreases upto,
{
    if exists|i: int| 0 <= i < upto && path[i] == node {
        let i = choose|i: int| 0 <= i < upto && path[i] == node;
        lemma_first_visit(path, node, i)
    } else {
        upto
    }
}

/// A connected graph stays connected when a node leaves whose neighbours
/// reach one another without it.
pub proof fn lemma_rest_connected(nodes: Set<usize>, node: usize, x_size: int, y_size: int)
    requires
        0 <= x_size,
        0 <= y_size,
        x_size * y_size <= usize::MAX,
        forall|a: usize| #[trigger] nodes.contains(a) ==> a < x_size * y_size,
        nodes.contains(node),
        connected(torus_adjacency(nodes, x_size, y_size)),
        keeps_together(
            torus_linked(nodes, node as int, x_size, y_size),
            torus_adjacency(nodes.remove(node), x_size, y_size),
        ),
    ensures
        connected(torus_adjacency(nodes.remove(node), x_size, y_size)),
{
    let whole = torus_adjacency(nodes, x_size, y_size);
    let rest_nodes = nodes.remove(node);
    let rest = torus_adjacency(rest_nodes, x_size, y_size);
    let linked = torus_linked(nodes, node as int, x_size, y_size);
    lemma_torus_links_mutual(rest_nodes, x_size, y_size);
    assert forall|a: usize| rest.contains_key(a) implies linked.len() > 0 && reaches(
        rest,
        a,
        linked[0].0,
    ) by {
        assert(reaches(whole, a, node));
        let path = choose|path: Seq<usize>| #[trigger]
            is_path(whole, path) && path[0] == a && path.last() == node;
        let first = lemma_first_visit(path, node, path.len() - 1);
        let before = path.take(first);
        assert(first > 0);
        assert forall|i: int| 0 <= i < before.len() implies rest_nodes.contains(
            #[trigger] before[i],
        ) by {
            assert(whole.contains_key(path[i]));
        }
        assert forall|k: int| 0 <= k < before.len() - 1 implies #[trigger] path_linked(
            whole,
            before,
            k,
        ) by {
            assert(path_linked(whole, path, k));
        }
        assert(is_path(whole, before));
        lemma_path_shrinks(rest_nodes, nodes, x_size, y_size, before);
        let last = path[first - 1];
        assert(before[0] == a && before.last() == last);
        assert(reaches(rest, a, last));
        assert(path_linked(whole, path, first - 1));
        assert(whole.contains_key(last));
        lemma_borders_symmetric(last as int, node as int, x_size, y_size);
        lemma_torus_linked(nodes, node, x_size, y_size, last);
        let i = choose|i: int| 0 <= i < linked.len() && linked[i] == TileId(last);
        if i > 0 {
            assert(reaches(rest, linked[0].0, linked[i].0));
            lemma_reaches_symmetric(rest, linked[0].0, last);
            lemma_reaches_transitive(rest, a, last, linked[0].0);
        }
    }
    assert forall|a: usize, b: usize|
        rest.contains_key(a) && rest.contains_key(b) implies #[trigger] reaches(rest, a, b) by {
        lemma_reaches_symmetric(rest, b, linked[0].0);
        lemma_reaches_transitive(rest, a, linked[0].0, b);
    }
}

/// A connected graph stays connected when a tile joins that borders one of
/// its nodes; so does a graph without nodes.
pub proof fn lemma_grown_connected(nodes: Set<usize>, tile: usize, x_size: int, y_size: int)
    requires
        0 <= x_size,
        0 <= y_size,
        forall|a: usize| #[trigger] nodes.contains(a) ==> a < x_size * y_size,
        tile < x_size * y_size,
        connected(torus_adjacency(nodes, x_size, y_size)),
        nodes =~= Set::<usize>::empty() || exists|a: usize|
            nodes.contains(a) && #[trigger] borders(a as int, tile as int, x_size, y_size),
    ensures
        connected(torus_adjacency(nodes.insert(tile), x_size, y_size)),
{
    let before = torus_adjacency(nodes, x_size, y_size);
    let grown_nodes = nodes.insert(tile);
    let grown = torus_adjacency(grown_nodes, x_size, y_size);
    lemma_torus_links_mutual(grown_nodes, x_size, y_size);
    lemma_reaches_itself(grown, tile);
    assert forall|a: usize| grown.contains_key(a) implies reaches(grown, a, tile) by {
        if a != tile {
            let near = choose|near: usize|
                nodes.contains(near) && #[trigger] borders(near as int, tile as int, x_size, y_size);
            assert(reaches(before, a, near));
            let path = choose|path: Seq<usize>| #[trigger]
                is_path(before, path) && path[0] == a && path.last() == near;
            lemma_path_grows(nodes, grown_nodes, x_size, y_size, path);
            assert(reaches(grown, a, near));
            lemma_reaches_next(grown, a, near, tile);
        }
    }
    assert forall|a: usize, b: usize|
        grown.contains_key(a) && grown.contains_key(b) implies #[trigger] reaches(grown, a, b) by {
        lemma_reaches_symmetric(grown, b, tile);
        lemma_reaches_transitive(grown, a, tile, b);
    }
}

/// What a node reaches holds whatever its own nodes are linked to.
pub proof fn lemma_component_closed(graph: Map<usize, Set<usize>>, s: usize)
    requires
        links_mutual(graph),
    ensures
        crate::simple_graph::closed_under_links(graph, component(graph, s)),
{
    assert forall|a: usize, b: usize|
        component(graph, s).contains(a) && graph.contains_key(a) && #[trigger] graph[a].contains(
            b,
        ) implies component(graph, s).contains(b) by {
        lemma_reaches_next(graph, s, a, b);
    }
}

/// Where links are mutual, what two nodes reach is the same or has nothing in common.
pub proof fn lemma_components_apart(graph: Map<usize, Set<usize>>, a: usize, b: usize)
    requires
        links_mutual(graph),
        !reaches(graph, a, b),
    ensures
        component(graph, a).disjoint(component(graph, b)),
{
    assert forall|x: usize| !(component(graph, a).contains(x) && component(graph, b).contains(x)) by {
        if reaches(graph, a, x) && reaches(graph, b, x) {
            lemma_reaches_symmetric(graph, b, x);
            lemma_reaches_transitive(graph, a, x, b);
        }
    }
}

/// What a node reaches is largest if it is more than half of all nodes.
pub proof fn lemma_majority_is_largest(graph: Map<usize, Set<usize>>, s: usize)
    requires
        links_mutual(graph),
        graph.dom().finite(),
        graph.contains_key(s),
        2 * component(graph, s).len() > graph.dom().len(),
    ensures
        largest_component(graph, component(graph, s)),
{
    let part = component(graph, s);
    crate::simple_graph::lemma_component_of_nodes(graph, s);
    vstd::set_lib::lemma_len_subset(part, graph.dom());
    assert forall|a: usize| #[trigger] graph.contains_key(a) implies component(graph, a).len()
        <= part.len() by {
        let other = component(graph, a);
        crate::simple_graph::lemma_component_of_nodes(graph, a);
        vstd::set_lib::lemma_len_subset(other, graph.dom());
        if reaches(graph, s, a) {
            crate::simple_graph::lemma_component_shared(graph, s, a);
        } else {
            lemma_components_apart(graph, s, a);
            vstd::set_lib::lemma_set_disjoint_lens(part, other);
            vstd::set_lib::lemma_len_subset(part + other, graph.dom());
        }
    }
}

/// What a node reaches is the leading part if it is more than half of all nodes.
pub proof fn lemma_majority_is_leading(graph: Map<usize, Set<usize>>, s: usize)
    requires
        links_mutual(graph),
        graph.dom().finite(),
        graph.contains_key(s),
        2 * component(graph, s).len() > graph.dom().len(),
    ensures
        leading_component(graph, component(graph, s)),
{
    let part = component(graph, s);
    lemma_majority_is_largest(graph, s);
    crate::simple_graph::lemma_component_of_nodes(graph, s);
    vstd::set_lib::lemma_len_subset(part, graph.dom());
    lemma_reaches_itself(graph, s);
    lemma_has_least(part, s);
    assert forall|a: usize| #[trigger]
        graph.contains_key(a) && component(graph, a).len() == part.len() implies leads(
        part,
        component(graph, a),
    ) by {
        let other = component(graph, a);
        crate::simple_graph::lemma_component_of_nodes(graph, a);
        vstd::set_lib::lemma_len_subset(other, graph.dom());
        if reaches(graph, s, a) {
            crate::simple_graph::lemma_component_shared(graph, s, a);
        } else {
            lemma_components_apart(graph, s, a);
            vstd::set_lib::lemma_set_disjoint_lens(part, other);
            vstd::set_lib::lemma_len_subset(part + other, graph.dom());
        }
    }
}

/// The tiles of a list that holds none twice are as many as the list is long.
pub proof fn lemma_tiles_len(tiles: Seq<TileId>)
    requires
        tiles.no_duplicates(),
    ensures
        Set::new(|x: usize| tiles.contains(TileId(x))).finite(),
        Set::new(|x: usize| tiles.contains(TileId(x))).len() == tiles.len(),
    decreases tiles.len(),
{
    let all = Set::new(|x: usize| tiles.contains(TileId(x)));
    if tiles.len() == 0 {
        assert(all =~= Set::<usize>::empty());
    } else {
        let shorter = tiles.drop_last();
        let fewer = Set::new(|x: usize| shorter.contains(TileId(x)));
        lemma_tiles_len(shorter);
        let last = tiles.last();
        assert(all =~= fewer.insert(last.0)) by {
            assert forall|x: usize| all.contains(x) == fewer.insert(last.0).contains(x) by {
                if tiles.contains(TileId(x)) {
                    let i = choose|i: int| 0 <= i < tiles.len() && tiles[i] == TileId(x);
                    if i < shorter.len() {
                        assert(shorter[i] == TileId(x));
                    }
                }
                if shorter.contains(TileId(x)) {
                    let i = choose|i: int| 0 <= i < shorter.len() && shorter[i] == TileId(x);
                    assert(tiles[i] == TileId(x));
                }
                if x == last.0 {
                    assert(tiles[tiles.len() - 1] == TileId(x));
                }
            }
        }
        assert(!fewer.contains(last.0)) by {
            if shorter.contains(TileId(last.0)) {
                let i = choose|i: int| 0 <= i < shorter.len() && shorter[i] == TileId(last.0);
                assert(tiles[i] == tiles[tiles.len() - 1]);
            }
        }
    }
}

} // verus!
