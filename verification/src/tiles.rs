use vstd::prelude::*;
use vstd::slice::slice_subrange;

verus! {

/// Identity of one tile of the grid: its index in column-major order.
#[derive(Debug, Clone, Copy, PartialEq, Eq, Structural, Hash, PartialOrd, Ord)]
pub struct TileId(pub usize);

impl From<usize> for TileId {
    fn from(index: usize) -> (id: Self) {
        TileId(index)
    }
}

impl vstd::std_specs::convert::FromSpecImpl<usize> for TileId {
    open spec fn obeys_from_spec() -> bool {
        true
    }

    open spec fn from_spec(index: usize) -> Self {
        TileId(index)
    }
}

impl From<TileId> for usize {
    fn from(id: TileId) -> (index: Self) {
        id.0
    }
}

impl vstd::std_specs::convert::FromSpecImpl<TileId> for usize {
    open spec fn obeys_from_spec() -> bool {
        true
    }

    open spec fn from_spec(id: TileId) -> Self {
        id.0
    }
}

/// One value per tile, in the order of the tile identities.
#[derive(Debug, Clone)]
pub struct Tiles<T>(Vec<T>);

impl<T> View for Tiles<T> {
    type V = Seq<T>;

    closed spec fn view(&self) -> Seq<T> {
        self.0@
    }
}

impl<T> Default for Tiles<T> {
    fn default() -> (tiles: Self)
        ensures
            tiles@ == Seq::<T>::empty(),
    {
        Tiles(Vec::new())
    }
}

/// The number of chunks of `chunk_size` values that cover `len` values.
pub open spec fn chunk_count(len: int, chunk_size: int) -> int {
    if len % chunk_size == 0 {
        len / chunk_size
    } else {
        len / chunk_size + 1
    }
}

/// The `index`-th chunk of `chunk_size` values of `values`; the last one may be shorter.
pub open spec fn chunk_at<T>(values: Seq<T>, chunk_size: int, index: int) -> Seq<T> {
    let start = index * chunk_size;
    let end = if start + chunk_size <= values.len() {
        start + chunk_size
    } else {
        values.len() as int
    };
    values.subrange(start, end)
}

impl<T> Tiles<T> {
    pub fn len(&self) -> (len: usize)
        ensures
            len == self@.len(),
    {
        self.0.len()
    }

    pub fn push(&mut self, value: T)
        ensures
            final(self)@ == old(self)@.push(value),
    {
        self.0.push(value);
    }

    /// The value of the tile `tile_id`.
    pub fn get(&self, tile_id: TileId) -> (value: &T)
        requires
            tile_id.0 < self@.len(),
        ensures
            *value == self@[tile_id.0 as int],
    {
        &self.0[tile_id.0]
    }

    /// Gives the tile `tile_id` the value `value`.
    pub fn set(&mut self, tile_id: TileId, value: T)
        requires
            tile_id.0 < old(self)@.len(),
        ensures
            final(self)@ == old(self)@.update(tile_id.0 as int, value),
    {
        self.0.set(tile_id.0, value);
    }

    /// The values cut into consecutive runs of `chunk_size`.
    pub fn chunks(&self, chunk_size: usize) -> (chunks: Vec<&[T]>)
        requires
            chunk_size > 0,
        ensures
            chunks@.len() == chunk_count(self@.len() as int, chunk_size as int),
            forall|i: int|
                0 <= i < chunks@.len() ==> (#[trigger] chunks@[i])@ == chunk_at(
                    self@,
                    chunk_size as int,
                    i,
                ),
    {
        let values = self.0.as_slice();
        let len = values.len();
        let mut chunks: Vec<&[T]> = Vec::new();
        let mut start: usize = 0;
        proof {
            lemma_no_chunks(chunk_size as int);
        }
        while start < len
            invariant
                chunk_size > 0,
                values@ == self@,
                len == self@.len(),
                start <= len,
                start < len ==> start == chunks@.len() * chunk_size,
                start == len ==> chunks@.len() == chunk_count(len as int, chunk_size as int),
                forall|i: int|
                    0 <= i < chunks@.len() ==> (#[trigger] chunks@[i])@ == chunk_at(
                        self@,
                        chunk_size as int,
                        i,
                    ),
            decreases len - start,
        {
            let end = if len - start >= chunk_size {
                start + chunk_size
            } else {
                len
            };
            let chunk = slice_subrange(values, start, end);
            proof {
                lemma_chunk_progress(chunks@.len() as int, chunk_size as int);
                if end == len {
                    lemma_chunk_count(chunks@.len() as int, chunk_size as int, len as int);
                }
            }
            chunks.push(chunk);
            start = end;
        }
        chunks
    }
}

proof fn lemma_no_chunks(chunk_size: int)
    requires
        0 < chunk_size,
    ensures
        chunk_count(0, chunk_size) == 0,
        0 * chunk_size == 0,
{
    vstd::arithmetic::div_mod::lemma_fundamental_div_mod_converse(0, chunk_size, 0, 0);
}

proof fn lemma_chunk_progress(done: int, chunk_size: int)
    requires
        0 <= done,
        0 < chunk_size,
    ensures
        (done + 1) * chunk_size == done * chunk_size + chunk_size,
{
    assert((done + 1) * chunk_size == done * chunk_size + chunk_size) by (nonlinear_arith);
}

proof fn lemma_chunk_count(full: int, chunk_size: int, len: int)
    requires
        0 <= full,
        0 < chunk_size,
        full * chunk_size < len <= full * chunk_size + chunk_size,
    ensures
        chunk_count(len, chunk_size) == full + 1,
{
    if len == full * chunk_size + chunk_size {
        assert(len == (full + 1) * chunk_size + 0) by (nonlinear_arith)
            requires
                len == full * chunk_size + chunk_size,
        ;
        vstd::arithmetic::div_mod::lemma_fundamental_div_mod_converse(
            len,
            chunk_size,
            full + 1,
            0,
        );
    } else {
        let rest = len - full * chunk_size;
        vstd::arithmetic::div_mod::lemma_fundamental_div_mod_converse(
            len,
            chunk_size,
            full,
            rest,
        );
    }
}

} // verus!
