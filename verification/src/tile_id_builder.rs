use crate::position::Position;
use crate::square_grid::{
    lemma_coordinates_in_range, lemma_tile_coordinates, walk_tile, wrap_dec, wrap_inc,
};
use crate::step::Step;
use crate::tiles::TileId;
use vstd::prelude::*;

verus! {

/// A walk on a torus, written down step by step from a starting position, that
/// gives the tile it ends on.
#[derive(Debug)]
pub struct TileIdBuilder {
    position: Position,
    steps: Vec<Step>,
    x_size: usize,
    y_size: usize,
}

impl Clone for TileIdBuilder {
    fn clone(&self) -> (copy: Self)
        ensures
            copy.spec_position() == self.spec_position(),
            copy.spec_steps() == self.spec_steps(),
            copy.spec_x_size() == self.spec_x_size(),
            copy.spec_y_size() == self.spec_y_size(),
    {
        let mut steps: Vec<Step> = Vec::new();
        let mut index: usize = 0;
        while index < self.steps.len()
            invariant
                index <= self.steps@.len(),
                steps@ == self.steps@.take(index as int),
            decreases self.steps@.len() - index,
        {
            steps.push(self.steps[index]);
            assert(steps@ =~= self.steps@.take(index + 1));
            index = index + 1;
        }
        assert(steps@ =~= self.steps@);
        TileIdBuilder { position: self.position, steps, x_size: self.x_size, y_size: self.y_size }
    }
}

impl TileIdBuilder {
    pub closed spec fn spec_position(&self) -> Position {
        self.position
    }

    pub closed spec fn spec_steps(&self) -> Seq<Step> {
        self.steps@
    }

    pub closed spec fn spec_x_size(&self) -> usize {
        self.x_size
    }

    pub closed spec fn spec_y_size(&self) -> usize {
        self.y_size
    }

    /// The starting position lies on the torus.
    pub open spec fn wf(&self) -> bool {
        &&& self.spec_position().x < self.spec_x_size()
        &&& self.spec_position().y < self.spec_y_size()
    }

    /// The same walk with `count` more steps `step` at its end.
    pub open spec fn extended(self, other: Self, step: Step, count: usize) -> bool {
        &&& other.spec_position() == self.spec_position()
        &&& other.spec_x_size() == self.spec_x_size()
        &&& other.spec_y_size() == self.spec_y_size()
        &&& other.spec_steps() == self.spec_steps() + Seq::new(count as nat, |i: int| step)
    }

    /// The tile on which the walk ends.
    pub open spec fn end(&self) -> int {
        walk_tile(
            self.spec_position().x * self.spec_y_size() + self.spec_position().y,
            self.spec_steps(),
            self.spec_x_size() as int,
            self.spec_y_size() as int,
        )
    }

    /// The empty walk from `position` on the torus of `x_size` by `y_size` tiles.
    pub fn new(position: Position, x_size: usize, y_size: usize) -> (builder: Self)
        requires
            position.x < x_size,
            position.y < y_size,
        ensures
            builder.wf(),
            builder.spec_position() == position,
            builder.spec_steps() == Seq::<Step>::empty(),
            builder.spec_x_size() == x_size,
            builder.spec_y_size() == y_size,
    {
        TileIdBuilder { position, steps: Vec::new(), x_size, y_size }
    }

    pub fn right(self, steps: usize) -> (builder: Self)
        ensures
            self.extended(builder, Step::Right, steps),
    {
        self.walk(Step::Right, steps)
    }

    pub fn left(self, steps: usize) -> (builder: Self)
        ensures
            self.extended(builder, Step::Left, steps),
    {
        self.walk(Step::Left, steps)
    }

    pub fn up(self, steps: usize) -> (builder: Self)
        ensures
            self.extended(builder, Step::Up, steps),
    {
        self.walk(Step::Up, steps)
    }

    pub fn down(self, steps: usize) -> (builder: Self)
        ensures
            self.extended(builder, Step::Down, steps),
    {
        self.walk(Step::Down, steps)
    }

    fn walk(self, step: Step, count: usize) -> (builder: Self)
        ensures
            self.extended(builder, step, count),
    {
        let mut builder = self;
        let mut added: usize = 0;
        assert(self.steps@ + Seq::new(0nat, |i: int| step) =~= self.steps@);
        while added < count
            invariant
                added <= count,
                self.extended(builder, step, added),
            decreases count - added,
        {
            builder.steps.push(step);
            assert(builder.steps@ =~= self.steps@ + Seq::new((added + 1) as nat, |i: int| step));
            added = added + 1;
        }
        builder
    }

    fn increment(&self, value: usize, size: usize) -> (next: usize)
        requires
            value < size,
        ensures
            next == wrap_inc(value as int, size as int),
            next < size,
    {
        if value == size - 1 {
            0
        } else {
            value + 1
        }
    }

    fn decrement(&self, value: usize, size: usize) -> (previous: usize)
        requires
            value < size,
        ensures
            previous == wrap_dec(value as int, size as int),
            previous < size,
    {
        if value == 0 {
            size - 1
        } else {
            value - 1
        }
    }

    /// The tile on which the walk ends.
    pub fn build(self) -> (tile_id: TileId)
        requires
            self.wf(),
            self.spec_x_size() * self.spec_y_size() <= usize::MAX,
        ensures
            tile_id.0 == self.end(),
            tile_id.0 < self.spec_x_size() * self.spec_y_size(),
    {
        let mut position = self.position;
        let ghost start = self.position.x * self.y_size + self.position.y;
        let ghost xs = self.x_size as int;
        let ghost ys = self.y_size as int;
        let mut taken: usize = 0;
        assert(self.steps@.take(0) =~= Seq::<Step>::empty());
        while taken < self.steps.len()
            invariant
                taken <= self.steps@.len(),
                position.x < self.x_size,
                position.y < self.y_size,
                xs == self.x_size,
                ys == self.y_size,
                position.x * self.y_size + position.y == walk_tile(
                    start,
                    self.steps@.take(taken as int),
                    xs,
                    ys,
                ),
            decreases self.steps@.len() - taken,
        {
            let step = self.steps[taken];
            proof {
                lemma_tile_coordinates(position.x as int, position.y as int, ys);
                assert(self.steps@.take(taken + 1).drop_last() =~= self.steps@.take(taken as int));
                assert(self.steps@.take(taken + 1).last() == step);
            }
            position = match step {
                Step::Left => Position::new(
                    self.decrement(position.x(), self.x_size),
                    position.y(),
                ),
                Step::Right => Position::new(
                    self.increment(position.x(), self.x_size),
                    position.y(),
                ),
                Step::Up => Position::new(position.x(), self.increment(position.y(), self.y_size)),
                Step::Down => Position::new(
                    position.x(),
                    self.decrement(position.y(), self.y_size),
                ),
            };
            taken = taken + 1;
        }
        proof {
            assert(self.steps@.take(taken as int) =~= self.steps@);
            lemma_coordinates_in_range(position.x as int, position.y as int, xs, ys);
        }
        TileId::from(position.x() * self.y_size + position.y())
    }
}

} // verus!
