use crate::position::Position;
use crate::step::Step;
use crate::tiles::{TileId, Tiles};
use vstd::prelude::*;

verus! {

/// The coordinate after `value` on a ring of `size` places.
pub open spec fn wrap_inc(value: int, size: int) -> int {
    if value == size - 1 {
        0
    } else {
        value + 1
    }
}

/// The coordinate before `value` on a ring of `size` places.
pub open spec fn wrap_dec(value: int, size: int) -> int {
    if value == 0 {
        size - 1
    } else {
        value - 1
    }
}

/// The tile one `step` away from `tile` on the torus of `x_size` columns of
/// `y_size` tiles each. Up and down move within a column, right and left
/// between columns.
pub open spec fn step_tile(tile: int, step: Step, x_size: int, y_size: int) -> int {
    let x = tile / y_size;
    let y = tile % y_size;
    match step {
        Step::Up => x * y_size + wrap_inc(y, y_size),
        Step::Right => wrap_inc(x, x_size) * y_size + y,
        Step::Down => x * y_size + wrap_dec(y, y_size),
        Step::Left => wrap_dec(x, x_size) * y_size + y,
    }
}

/// The tile at the end of the walk `steps` that starts at `tile`.
pub open spec fn walk_tile(tile: int, steps: Seq<Step>, x_size: int, y_size: int) -> int
    decreases steps.len(),
{
    if steps.len() == 0 {
        tile
    } else {
        step_tile(walk_tile(tile, steps.drop_last(), x_size, y_size), steps.last(), x_size, y_size)
    }
}

/// The four directions in the order in which a tile's neighbours are kept.
pub open spec fn direction(index: int) -> Step {
    if index == 0 {
        Step::Up
    } else if index == 1 {
        Step::Right
    } else if index == 2 {
        Step::Down
    } else {
        Step::Left
    }
}

/// A tile of column `x` and row `y` has the identity `x * y_size + y`, and
/// both coordinates can be read back from it.
pub proof fn lemma_tile_coordinates(x: int, y: int, y_size: int)
    requires
        0 <= x,
        0 <= y < y_size,
    ensures
        (x * y_size + y) / y_size == x,
        (x * y_size + y) % y_size == y,
{
    vstd::arithmetic::div_mod::lemma_fundamental_div_mod_converse(x * y_size + y, y_size, x, y);
}

/// Every tile is the tile of its column and row.
pub proof fn lemma_tile_of_coordinates(tile: int, x_size: int, y_size: int)
    requires
        0 <= tile < x_size * y_size,
        0 <= x_size,
        0 <= y_size,
    ensures
        0 <= tile / y_size < x_size,
        0 <= tile % y_size < y_size,
        tile == (tile / y_size) * y_size + tile % y_size,
{
    assert(y_size > 0) by (nonlinear_arith)
        requires
            0 <= tile < x_size * y_size,
            0 <= x_size,
            0 <= y_size,
    ;
    vstd::arithmetic::div_mod::lemma_fundamental_div_mod(tile, y_size);
    vstd::arithmetic::div_mod::lemma_mod_bound(tile, y_size);
    let x = tile / y_size;
    let y = tile % y_size;
    assert(tile == y_size * x + y);
    assert(y_size * x == x * y_size) by (nonlinear_arith);
    assert(0 <= x < x_size) by (nonlinear_arith)
        requires
            tile == x * y_size + y,
            0 <= y < y_size,
            0 <= tile < x_size * y_size,
    ;
}

/// A tile of column `x` and row `y` lies on the grid.
pub proof fn lemma_coordinates_in_range(x: int, y: int, x_size: int, y_size: int)
    requires
        0 <= x < x_size,
        0 <= y < y_size,
    ensures
        0 <= x * y_size + y < x_size * y_size,
{
    assert(0 <= x * y_size + y < x_size * y_size) by (nonlinear_arith)
        requires
            0 <= x < x_size,
            0 <= y < y_size,
    ;
}

/// A step from a tile of the grid ends on a tile of the grid.
pub proof fn lemma_step_in_range(tile: int, step: Step, x_size: int, y_size: int)
    requires
        0 <= tile < x_size * y_size,
        0 <= x_size,
        0 <= y_size,
    ensures
        0 <= step_tile(tile, step, x_size, y_size) < x_size * y_size,
{
    lemma_tile_of_coordinates(tile, x_size, y_size);
    let x = tile / y_size;
    let y = tile % y_size;
    match step {
        Step::Up => lemma_coordinates_in_range(x, wrap_inc(y, y_size), x_size, y_size),
        Step::Right => lemma_coordinates_in_range(wrap_inc(x, x_size), y, x_size, y_size),
        Step::Down => lemma_coordinates_in_range(x, wrap_dec(y, y_size), x_size, y_size),
        Step::Left => lemma_coordinates_in_range(wrap_dec(x, x_size), y, x_size, y_size),
    }
}

/// The direction that undoes `step`.
pub open spec fn opposite(step: Step) -> Step {
    match step {
        Step::Up => Step::Down,
        Step::Right => Step::Left,
        Step::Down => Step::Up,
        Step::Left => Step::Right,
    }
}

/// A step and then the opposite step lead back to where one started.
pub proof fn lemma_step_back(tile: int, step: Step, x_size: int, y_size: int)
    requires
        0 <= tile < x_size * y_size,
        0 <= x_size,
        0 <= y_size,
    ensures
        step_tile(step_tile(tile, step, x_size, y_size), opposite(step), x_size, y_size) == tile,
{
    lemma_tile_of_coordinates(tile, x_size, y_size);
    let x = tile / y_size;
    let y = tile % y_size;
    match step {
        Step::Up => lemma_tile_coordinates(x, wrap_inc(y, y_size), y_size),
        Step::Right => lemma_tile_coordinates(wrap_inc(x, x_size), y, y_size),
        Step::Down => lemma_tile_coordinates(x, wrap_dec(y, y_size), y_size),
        Step::Left => lemma_tile_coordinates(wrap_dec(x, x_size), y, y_size),
    }
}

/// A step sideways and a step up or down lead to the same tile in either order.
pub proof fn lemma_steps_commute(tile: int, first: Step, second: Step, x_size: int, y_size: int)
    requires
        0 <= tile < x_size * y_size,
        0 <= x_size,
        0 <= y_size,
    ensures
        step_tile(step_tile(tile, first, x_size, y_size), second, x_size, y_size) == step_tile(
            step_tile(tile, second, x_size, y_size),
            first,
            x_size,
            y_size,
        ),
{
    lemma_tile_of_coordinates(tile, x_size, y_size);
    let x = tile / y_size;
    let y = tile % y_size;
    lemma_tile_coordinates(x, wrap_inc(y, y_size), y_size);
    lemma_tile_coordinates(wrap_inc(x, x_size), y, y_size);
    lemma_tile_coordinates(x, wrap_dec(y, y_size), y_size);
    lemma_tile_coordinates(wrap_dec(x, x_size), y, y_size);
}

/// A walk of one step is that step.
pub proof fn lemma_walk_one(tile: int, first: Step, x_size: int, y_size: int)
    ensures
        walk_tile(tile, seq![first], x_size, y_size) == step_tile(tile, first, x_size, y_size),
{
    let steps = seq![first];
    assert(steps.drop_last() =~= Seq::<Step>::empty());
    assert(walk_tile(tile, steps.drop_last(), x_size, y_size) == tile);
}

/// A walk of two steps is the second step taken from the end of the first.
pub proof fn lemma_walk_two(tile: int, first: Step, second: Step, x_size: int, y_size: int)
    ensures
        walk_tile(tile, seq![first, second], x_size, y_size) == step_tile(
            step_tile(tile, first, x_size, y_size),
            second,
            x_size,
            y_size,
        ),
{
    let steps = seq![first, second];
    assert(steps.drop_last() =~= seq![first]);
    lemma_walk_one(tile, first, x_size, y_size);
}

/// The four neighbours of a tile: up, right, down, left.
#[derive(Debug, Clone, Copy)]
pub struct Neighbors<T>(pub [T; 4]);

impl<T> View for Neighbors<T> {
    type V = Seq<T>;

    open spec fn view(&self) -> Seq<T> {
        self.0@
    }
}

impl<T> Neighbors<T> {
    pub fn new(up: T, right: T, down: T, left: T) -> (neighbors: Self)
        ensures
            neighbors@ == seq![up, right, down, left],
    {
        let neighbors = Neighbors([up, right, down, left]);
        assert(neighbors@ =~= seq![up, right, down, left]);
        neighbors
    }

    pub fn up(&self) -> (neighbor: T) where T: Copy
        ensures
            neighbor == self@[0],
    {
        self.0[0]
    }

    pub fn right(&self) -> (neighbor: T) where T: Copy
        ensures
            neighbor == self@[1],
    {
        self.0[1]
    }

    pub fn down(&self) -> (neighbor: T) where T: Copy
        ensures
            neighbor == self@[2],
    {
        self.0[2]
    }

    pub fn left(&self) -> (neighbor: T) where T: Copy
        ensures
            neighbor == self@[3],
    {
        self.0[3]
    }

    /// The neighbour in the direction with the given index: 0 up, 1 right,
    /// 2 down, 3 left.
    pub fn get(&self, index: usize) -> (neighbor: T) where T: Copy
        requires
            index < 4,
        ensures
            neighbor == self@[index as int],
    {
        self.0[index]
    }

    /// The four values that `f` gives for the four neighbours, in their order.
    pub fn map<F, U>(self, f: F) -> (mapped: Neighbors<U>) where F: Fn(T) -> U, T: Copy
        requires
            forall|i: int| 0 <= i < 4 ==> call_requires(f, (#[trigger] self@[i],)),
        ensures
            forall|i: int| 0 <= i < 4 ==> call_ensures(f, (self@[i],), #[trigger] mapped@[i]),
    {
        assert(call_requires(f, (self@[0],)));
        let up = f(self.0[0]);
        assert(call_requires(f, (self@[1],)));
        let right = f(self.0[1]);
        assert(call_requires(f, (self@[2],)));
        let down = f(self.0[2]);
        assert(call_requires(f, (self@[3],)));
        let left = f(self.0[3]);
        Neighbors::new(up, right, down, left)
    }
}

/// A torus of `x_size` columns of `y_size` tiles each, with the neighbours of
/// every tile worked out once.
#[derive(Debug, Clone)]
pub struct SquareGrid {
    x_size: usize,
    y_size: usize,
    neighbors: Tiles<Neighbors<TileId>>,
}

impl SquareGrid {
    pub closed spec fn spec_x_size(&self) -> usize {
        self.x_size
    }

    pub closed spec fn spec_y_size(&self) -> usize {
        self.y_size
    }

    /// The number of tiles.
    pub open spec fn spec_size(&self) -> int {
        self.spec_x_size() * self.spec_y_size()
    }

    /// The tile one `step` away from `tile` on this grid.
    pub open spec fn step(&self, tile: int, step: Step) -> int {
        step_tile(tile, step, self.spec_x_size() as int, self.spec_y_size() as int)
    }

    /// The tile at the end of the walk `steps` from `tile` on this grid.
    pub open spec fn walk(&self, tile: int, steps: Seq<Step>) -> int {
        walk_tile(tile, steps, self.spec_x_size() as int, self.spec_y_size() as int)
    }

    /// The neighbours that the table must hold for `tile`.
    pub open spec fn neighbors_of(&self, tile: int) -> Seq<TileId> {
        seq![
            TileId(self.step(tile, Step::Up) as usize),
            TileId(self.step(tile, Step::Right) as usize),
            TileId(self.step(tile, Step::Down) as usize),
            TileId(self.step(tile, Step::Left) as usize),
        ]
    }

    /// The table holds, for every tile, its four neighbours on the torus.
    pub closed spec fn wf(&self) -> bool {
        &&& self.x_size * self.y_size <= usize::MAX
        &&& self.neighbors@.len() == self.x_size * self.y_size
        &&& forall|tile: int|
            0 <= tile < self.neighbors@.len() ==> (#[trigger] self.neighbors@[tile])@
                == self.neighbors_of(tile)
    }

    /// The number of tiles fits the machine.
    pub proof fn lemma_size_bounded(&self)
        requires
            self.wf(),
        ensures
            0 <= self.spec_size() <= usize::MAX,
    {
        assert(self.x_size * self.y_size >= 0) by (nonlinear_arith);
    }

    /// The torus of `x_size` by `y_size` tiles.
    pub fn new(x_size: usize, y_size: usize) -> (grid: Self)
        requires
            x_size * y_size <= usize::MAX,
        ensures
            grid.wf(),
            grid.spec_x_size() == x_size,
            grid.spec_y_size() == y_size,
    {
        let mut neighbors: Tiles<Neighbors<TileId>> = Tiles::default();
        let col_size = y_size;
        let ghost model = SquareGrid { x_size, y_size, neighbors };
        let mut x: usize = 0;
        while x < x_size
            invariant
                x <= x_size,
                col_size == y_size,
                x_size * y_size <= usize::MAX,
                model.x_size == x_size,
                model.y_size == y_size,
                neighbors@.len() == x * y_size,
                forall|tile: int|
                    0 <= tile < neighbors@.len() ==> (#[trigger] neighbors@[tile])@
                        == model.neighbors_of(tile),
            decreases x_size - x,
        {
            let mut y: usize = 0;
            while y < y_size
                invariant
                    x < x_size,
                    y <= y_size,
                    col_size == y_size,
                    x_size * y_size <= usize::MAX,
                    model.x_size == x_size,
                    model.y_size == y_size,
                    neighbors@.len() == x * y_size + y,
                    forall|tile: int|
                        0 <= tile < neighbors@.len() ==> (#[trigger] neighbors@[tile])@
                            == model.neighbors_of(tile),
                decreases y_size - y,
            {
                proof {
                    lemma_tile_coordinates(x as int, y as int, y_size as int);
                    lemma_coordinates_in_range(x as int, y as int, x_size as int, y_size as int);
                    let tile = x * y_size + y;
                    lemma_step_in_range(tile, Step::Up, x_size as int, y_size as int);
                    lemma_step_in_range(tile, Step::Right, x_size as int, y_size as int);
                    lemma_step_in_range(tile, Step::Down, x_size as int, y_size as int);
                    lemma_step_in_range(tile, Step::Left, x_size as int, y_size as int);
                }
                let up = Self::id(x, Self::increment(y, y_size), col_size);
                let down = Self::id(x, Self::decrement(y, y_size), col_size);
                let right = Self::id(Self::increment(x, x_size), y, col_size);
                let left = Self::id(Self::decrement(x, x_size), y, col_size);
                neighbors.push(Neighbors::new(up, right, down, left));
                assert(neighbors@[x * y_size + y]@ =~= model.neighbors_of(x * y_size + y));
                y = y + 1;
            }
            assert((x + 1) * y_size == x * y_size + y_size) by (nonlinear_arith);
            x = x + 1;
        }
        SquareGrid { x_size, y_size, neighbors }
    }

    #[verifier::when_used_as_spec(spec_x_size)]
    pub fn x_size(&self) -> (x_size: usize)
        ensures
            x_size == self.spec_x_size(),
    {
        self.x_size
    }

    #[verifier::when_used_as_spec(spec_y_size)]
    pub fn y_size(&self) -> (y_size: usize)
        ensures
            y_size == self.spec_y_size(),
    {
        self.y_size
    }

    /// The number of tiles.
    pub fn size(&self) -> (size: usize)
        requires
            self.x_size() * self.y_size() <= usize::MAX,
        ensures
            size == self.spec_size(),
    {
        self.x_size * self.y_size
    }

    /// The identities of all tiles, in increasing order.
    pub fn tile_id_iter(&self) -> (tile_ids: Vec<TileId>)
        requires
            self.x_size() * self.y_size() <= usize::MAX,
        ensures
            tile_ids@.len() == self.spec_size(),
            forall|i: int| 0 <= i < tile_ids@.len() ==> (#[trigger] tile_ids@[i]).0 == i,
    {
        let size = self.size();
        let mut tile_ids: Vec<TileId> = Vec::new();
        let mut index: usize = 0;
        while index < size
            invariant
                index <= size,
                tile_ids@.len() == index,
                forall|i: int| 0 <= i < tile_ids@.len() ==> (#[trigger] tile_ids@[i]).0 == i,
            decreases size - index,
        {
            tile_ids.push(TileId::from(index));
            index = index + 1;
        }
        tile_ids
    }

    /// The four neighbours of `tile_id`: up, right, down, left.
    pub fn neighbors(&self, tile_id: TileId) -> (neighbors: &Neighbors<TileId>)
        requires
            self.wf(),
            tile_id.0 < self.spec_size(),
        ensures
            neighbors@ == self.neighbors_of(tile_id.0 as int),
            forall|i: int| 0 <= i < 4 ==> (#[trigger] neighbors@[i]).0 < self.spec_size(),
    {
        proof {
            self.lemma_neighbors_in_range(tile_id.0 as int);
        }
        self.neighbors.get(tile_id)
    }

    /// The neighbours of a tile of the grid are tiles of the grid.
    pub proof fn lemma_neighbors_in_range(&self, tile: int)
        requires
            0 <= tile < self.spec_size(),
            self.spec_size() <= usize::MAX,
        ensures
            forall|i: int|
                0 <= i < 4 ==> 0 <= (#[trigger] self.neighbors_of(tile)[i]).0 < self.spec_size(),
            forall|i: int|
                0 <= i < 4 ==> (#[trigger] self.neighbors_of(tile)[i]).0 == self.step(
                    tile,
                    direction(i),
                ),
    {
        let xs = self.spec_x_size() as int;
        let ys = self.spec_y_size() as int;
        lemma_step_in_range(tile, Step::Up, xs, ys);
        lemma_step_in_range(tile, Step::Right, xs, ys);
        lemma_step_in_range(tile, Step::Down, xs, ys);
        lemma_step_in_range(tile, Step::Left, xs, ys);
    }

    /// The tile of column `position.x` and row `position.y`.
    pub fn id_at(&self, position: Position) -> (tile_id: TileId)
        requires
            position.x * self.y_size() + position.y <= usize::MAX,
        ensures
            tile_id.0 == position.x * self.y_size() + position.y,
    {
        Self::id(position.x(), position.y(), self.y_size)
    }

    /// The tile at the end of the walk `walk` from `tile_id`.
    pub fn id_from(&self, tile_id: TileId, walk: &[Step]) -> (end: TileId)
        requires
            self.wf(),
            tile_id.0 < self.spec_size(),
        ensures
            end.0 == self.walk(tile_id.0 as int, walk@),
            end.0 < self.spec_size(),
    {
        let mut tile_id = tile_id;
        let ghost start = tile_id.0 as int;
        let mut taken: usize = 0;
        assert(walk@.take(0) =~= Seq::<Step>::empty());
        while taken < walk.len()
            invariant
                self.wf(),
                taken <= walk@.len(),
                tile_id.0 < self.spec_size(),
                tile_id.0 == self.walk(start, walk@.take(taken as int)),
            decreases walk@.len() - taken,
        {
            let step = walk[taken];
            let around = self.neighbors(tile_id);
            proof {
                self.lemma_neighbors_in_range(tile_id.0 as int);
                assert(walk@.take(taken + 1).drop_last() =~= walk@.take(taken as int));
                assert(walk@.take(taken + 1).last() == step);
            }
            tile_id = match step {
                Step::Right => around.right(),
                Step::Left => around.left(),
                Step::Up => around.up(),
                Step::Down => around.down(),
            };
            taken = taken + 1;
        }
        assert(walk@.take(taken as int) =~= walk@);
        tile_id
    }

    /// The tile one `step` away from `tile_id`.
    pub fn id_after(&self, tile_id: TileId, step: Step) -> (end: TileId)
        requires
            self.wf(),
            tile_id.0 < self.spec_size(),
        ensures
            end.0 == self.step(tile_id.0 as int, step),
            end.0 < self.spec_size(),
    {
        let walk = [step];
        proof {
            assert(walk@ =~= seq![step]);
            lemma_walk_one(
                tile_id.0 as int,
                step,
                self.spec_x_size() as int,
                self.spec_y_size() as int,
            );
        }
        self.id_from(tile_id, &walk)
    }

    /// The tile two steps away from `tile_id`: first `first`, then `second`.
    pub fn id_after_two(&self, tile_id: TileId, first: Step, second: Step) -> (end: TileId)
        requires
            self.wf(),
            tile_id.0 < self.spec_size(),
        ensures
            end.0 == self.step(self.step(tile_id.0 as int, first), second),
            end.0 < self.spec_size(),
    {
        let walk = [first, second];
        proof {
            assert(walk@ =~= seq![first, second]);
            lemma_walk_two(
                tile_id.0 as int,
                first,
                second,
                self.spec_x_size() as int,
                self.spec_y_size() as int,
            );
        }
        self.id_from(tile_id, &walk)
    }

    fn id(x: usize, y: usize, column_size: usize) -> (tile_id: TileId)
        requires
            x * column_size + y <= usize::MAX,
        ensures
            tile_id.0 == x * column_size + y,
    {
        assert(x * column_size >= 0) by (nonlinear_arith);
        TileId::from(x * column_size + y)
    }

    fn increment(value: usize, size: usize) -> (next: usize)
        requires
            value < size,
        ensures
            next == wrap_inc(value as int, size as int),
            next < size,
    {
        if value == size - 1 {
            0
        } else {
            value + 1
        }
    }

    fn decrement(value: usize, size: usize) -> (previous: usize)
        requires
            value < size,
        ensures
            previous == wrap_dec(value as int, size as int),
            previous < size,
    {
        if value == 0 {
            size - 1
        } else {
            value - 1
        }
    }
}

} // verus!
