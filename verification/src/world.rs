//! The ground under the bicycle: a row of chunks of equal width, of which
//! those near the camera exist.

use rand::RngCore;
use vstd::prelude::*;

verus! {

/// Marks the ground as a whole.
#[derive(Clone, Copy, Debug, PartialEq, Eq, Structural)]
pub struct Terrain;

/// One chunk of the ground, by its place in the row.
#[derive(Clone, Copy, Debug, PartialEq, Eq, Structural)]
pub struct TerrainChunk(pub i128);

/// The number from which the ground is grown.
#[derive(Clone, Copy, Debug, PartialEq, Eq, Structural)]
pub struct TerrainSeed(pub u32);

/// The number of chunks that exist at a time.
#[derive(Clone, Copy, Debug, PartialEq, Eq, Structural)]
pub struct MaxTerrainChunkCount(pub u8);

/// The width of a chunk, in lattice steps.
pub const CHUNK_WIDTH: i64 = 2048000;

/// The number of flat pieces that a chunk is made of.
pub const SUBSTEP_COUNT: u32 = 20;

/// A fresh number from `rand::thread_rng()`, by `RngCore::next_u32`.
/// Nothing is claimed of the number. The generator seeds itself from the
/// operating system when a thread first uses it, and seeds itself anew
/// from there after it has handed out a set amount of numbers; it panics
/// if the operating system fails it at either time.
#[verifier::external_body]
fn random_u32() -> u32 {
    rand::thread_rng().next_u32()
}

impl Default for TerrainSeed {
    /// A seed drawn at random.
    fn default() -> Self {
        TerrainSeed(random_u32())
    }
}

impl Default for MaxTerrainChunkCount {
    /// Four chunks exist at a time unless more are asked for.
    fn default() -> (count: Self)
        ensures
            count == MaxTerrainChunkCount(4),
    {
        MaxTerrainChunkCount(4)
    }
}

/// The chunk over which `pos` lies: `pos` by the width of a chunk, rounded
/// to the nearest whole number, halves away from zero. Chunk 0 is centred
/// on the origin.
pub open spec fn chunk_index_spec(pos: int) -> int {
    if pos >= 0 {
        (2 * pos + CHUNK_WIDTH) / 4096000
    } else {
        -((2 * (-pos) + CHUNK_WIDTH) / 4096000)
    }
}

/// The chunk `index` is one that should exist while the camera is over the
/// chunk `current` and `count` chunks are to exist.
pub open spec fn chunk_wanted(index: int, current: int, count: u8) -> bool {
    current - (count as int) / 2 <= index < current + (count as int) / 2
}

/// The chunk `index` is one that should go while the camera is over the
/// chunk `current` and `count` chunks are to exist.
pub open spec fn chunk_stale(index: int, current: int, count: u8) -> bool {
    index < current - (count as int) / 2 || index > current + (count as int) / 2
}

/// No chunk is wanted and stale at once.
pub proof fn lemma_wanted_is_kept(index: int, current: int, count: u8)
    requires
        chunk_wanted(index, current, count),
    ensures
        !chunk_stale(index, current, count),
{
}

/// `wanted` lists, in rising order, the chunks that should exist and are
/// not among `existing`.
pub open spec fn lists_missing(
    wanted: Seq<TerrainChunk>,
    current: int,
    count: u8,
    existing: Seq<TerrainChunk>,
) -> bool {
    &&& forall|a: int, b: int| 0 <= a < b < wanted.len() ==> wanted[a].0 < wanted[b].0
    &&& forall|chunk: TerrainChunk| #[trigger]
        wanted.contains(chunk) <==> {
            &&& chunk_wanted(chunk.0 as int, current, count)
            &&& !existing.contains(chunk)
        }
}

/// The terrain as a whole.
pub struct WorldTerrainPlugin;

impl WorldTerrainPlugin {
    /// The chunk over which the position `pos` lies.
    pub fn x_pos_to_chunk_index(pos: i64) -> (index: i128)
        ensures
            index == chunk_index_spec(pos as int),
    {
        let p: i128 = pos as i128;
        let w: i128 = CHUNK_WIDTH as i128;
        assert(2 * w == 4096000);
        if p >= 0 {
            (2 * p + w) / 4096000
        } else {
            let q: i128 = 0 - p;
            let rounded: i128 = (2 * q + w) / 4096000;
            0 - rounded
        }
    }

    /// Whether the chunk `chunk` should go while the camera is at
    /// `camera_x` and `count` chunks are to exist.
    pub fn chunk_is_stale(chunk: &TerrainChunk, camera_x: i64, count: u8) -> (stale: bool)
        ensures
            stale == chunk_stale(chunk.0 as int, chunk_index_spec(camera_x as int), count),
    {
        let current: i128 = Self::x_pos_to_chunk_index(camera_x);
        proof {
            lemma_chunk_index_range(camera_x as int);
        }
        let half: i128 = (count / 2) as i128;
        chunk.0 < current - half || chunk.0 > current + half
    }

    /// The chunks that should exist while the camera is at `camera_x` and
    /// `count` chunks are to exist, and that are not among `existing`, in
    /// rising order.
    pub fn missing_chunks(camera_x: i64, count: u8, existing: &Vec<TerrainChunk>) -> (wanted: Vec<
        TerrainChunk,
    >)
        ensures
            lists_missing(wanted@, chunk_index_spec(camera_x as int), count, existing@),
    {
        let current: i128 = Self::x_pos_to_chunk_index(camera_x);
        proof {
            lemma_chunk_index_range(camera_x as int);
        }
        let half: i128 = (count / 2) as i128;
        let low: i128 = current - half;
        let high: i128 = current + half;
        let mut wanted: Vec<TerrainChunk> = Vec::new();
        let mut index: i128 = low;
        while index < high
            invariant
                low <= index <= high || (high <= low && index == low),
                low == current - (count as int) / 2,
                high == current + (count as int) / 2,
                forall|a: int, b: int| 0 <= a < b < wanted@.len() ==> wanted@[a].0 < wanted@[b].0,
                forall|a: int| 0 <= a < wanted@.len() ==> low <= (#[trigger] wanted@[a]).0 < index,
                forall|a: int|
                    0 <= a < wanted@.len() ==> !existing@.contains(#[trigger] wanted@[a]),
                forall|c: TerrainChunk|
                    low <= c.0 < index && !existing@.contains(c) ==> #[trigger] wanted@.contains(c),
            decreases high - index,
        {
            let chunk = TerrainChunk(index);
            if !Self::holds(existing, &chunk) {
                let ghost before = wanted@;
                wanted.push(chunk);
                proof {
                    assert(wanted@[before.len() as int] == chunk);
                    assert forall|c: TerrainChunk|
                        low <= c.0 < index + 1 && !existing@.contains(
                            c,
                        ) implies #[trigger] wanted@.contains(c) by {
                        if c.0 < index {
                            assert(before.contains(c));
                            let a = choose|a: int| 0 <= a < before.len() && before[a] == c;
                            assert(wanted@[a] == c);
                        }
                    }
                }
            }
            index = index + 1;
        }
        proof {
            let current = chunk_index_spec(camera_x as int);
            assert forall|c: TerrainChunk| #[trigger]
                wanted@.contains(c) <==> {
                    &&& chunk_wanted(c.0 as int, current, count)
                    &&& !existing@.contains(c)
                } by {
                if wanted@.contains(c) {
                    let a = choose|a: int| 0 <= a < wanted@.len() && wanted@[a] == c;
                    assert(low <= wanted@[a].0 < index);
                }
            }
        }
        wanted
    }

    /// Whether `chunk` is among `chunks`.
    fn holds(chunks: &Vec<TerrainChunk>, chunk: &TerrainChunk) -> (found: bool)
        ensures
            found == chunks@.contains(*chunk),
    {
        let mut i: usize = 0;
        while i < chunks.len()
            invariant
                i <= chunks.len(),
                forall|k: int| 0 <= k < i ==> chunks@[k] != *chunk,
            decreases chunks.len() - i,
        {
            if chunks[i].0 == chunk.0 {
                return true;
            }
            i = i + 1;
        }
        false
    }
}

/// The chunk over a position of 64 bits has an index of far fewer.
pub proof fn lemma_chunk_index_range(pos: int)
    requires
        i64::MIN <= pos <= i64::MAX,
    ensures
        -0x1_0000_0000_0000 <= chunk_index_spec(pos) <= 0x1_0000_0000_0000,
{
}

} // verus!
