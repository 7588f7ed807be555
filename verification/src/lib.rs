//! A chunked engine for an unbounded cellular automaton.
//!
//! The plane is split into 8x8 chunks, each a packed bit grid. A sparse
//! world holds the chunks that are alive or adjacent to life; boundary
//! words and a corner mask carry neighbor state across chunk borders, so
//! that one synchronous generation over the whole world equals the same
//! generation on an unpartitioned grid. A flat binary codec saves and
//! restores the chunk set.

pub mod bits;
pub mod chunk;
pub mod codec;
pub mod game;

use vstd::prelude::*;

verus! {

use crate::chunk::Chunk;

/// True when the two chunks hold exactly the same grid contents.
pub fn chunks_eq(c1: &Chunk, c2: &Chunk) -> (r: bool)
    ensures
        r == (c1.chunk@ =~= c2.chunk@),
{
    let mut val = true;
    for i in 0..8usize
        invariant
            val == (forall|j: int| 0 <= j < i ==> c1.chunk@[j] == c2.chunk@[j]),
    {
        if !(c1.get_byte_at(i) == c2.get_byte_at(i)) {
            val = false;
        }
    }
    val
}

} // verus!
