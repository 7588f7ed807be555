//! Flat binary persistence of the chunk set.
//!
//! The stream has no header, version tag or record count: it is one
//! 16-byte record per chunk, in any order. A record is the chunk's x
//! coordinate, then its y coordinate, each as four little-endian bytes,
//! then the eight packed grid rows. A stream whose length is not a
//! multiple of 16 is read up to the last whole record and the remainder
//! is dropped: that truncation is this codec's documented policy.

use vstd::prelude::*;

verus! {

use crate::chunk::Chunk;
use crate::game::{Game, pos_of, seq_to_map};

/// The signed value held by four little-endian bytes.
pub open spec fn le_i32(b0: u8, b1: u8, b2: u8, b3: u8) -> i32 {
    ((b0 as u32) | ((b1 as u32) << 8) | ((b2 as u32) << 16) | ((b3 as u32) << 24)) as i32
}

/// The 16-byte record that stands for one chunk.
pub open spec fn record_of(c: Chunk) -> Seq<u8> {
    seq![
        (c.pos[0] as u32) as u8,
        ((c.pos[0] as u32) >> 8) as u8,
        ((c.pos[0] as u32) >> 16) as u8,
        ((c.pos[0] as u32) >> 24) as u8,
        (c.pos[1] as u32) as u8,
        ((c.pos[1] as u32) >> 8) as u8,
        ((c.pos[1] as u32) >> 16) as u8,
        ((c.pos[1] as u32) >> 24) as u8,
    ] + c.chunk@
}

/// The whole stream for a chunk sequence, one record per chunk in order.
pub open spec fn encoded(s: Seq<Chunk>) -> Seq<u8>
    decreases s.len(),
{
    if s.len() == 0 {
        Seq::empty()
    } else {
        encoded(s.drop_last()) + record_of(s.last())
    }
}

/// The coordinate named by record `k` of a stream.
pub open spec fn record_key(bytes: Seq<u8>, k: int) -> (int, int) {
    (
        le_i32(bytes[16 * k], bytes[16 * k + 1], bytes[16 * k + 2], bytes[16 * k + 3]) as int,
        le_i32(bytes[16 * k + 4], bytes[16 * k + 5], bytes[16 * k + 6], bytes[16 * k + 7]) as int,
    )
}

/// The grid rows held by record `k` of a stream.
pub open spec fn record_grid(bytes: Seq<u8>, k: int) -> Seq<u8> {
    bytes.subrange(16 * k + 8, 16 * k + 16)
}

/// The coordinate-to-grid mapping read from the first `k` whole records;
/// with duplicate coordinates the later record wins.
pub open spec fn decoded(bytes: Seq<u8>, k: int) -> Map<(int, int), Seq<u8>>
    decreases k,
{
    if k <= 0 {
        Map::empty()
    } else {
        decoded(bytes, k - 1).insert(record_key(bytes, k - 1), record_grid(bytes, k - 1))
    }
}

/// The coordinate-to-grid mapping a world stands for.
pub open spec fn grid_map(m: Map<(int, int), Chunk>) -> Map<(int, int), Seq<u8>> {
    Map::new(|p: (int, int)| m.contains_key(p), |p: (int, int)| m[p].chunk@)
}

/// An encoded stream holds exactly one 16-byte record per chunk.
pub proof fn lemma_encoded_len(s: Seq<Chunk>)
    ensures
        encoded(s).len() == 16 * s.len(),
    decreases s.len(),
{
    if s.len() > 0 {
        lemma_encoded_len(s.drop_last());
    }
}

/// Reading the coordinates back from their four bytes restores them.
pub proof fn lemma_le_round_trip(v: i32)
    by (bit_vector)
    ensures
        le_i32(
            (v as u32) as u8,
            ((v as u32) >> 8) as u8,
            ((v as u32) >> 16) as u8,
            ((v as u32) >> 24) as u8,
        ) == v,
{
}

/// The first `k` records of a stream read the same under any extension.
proof fn lemma_decoded_prefix(b1: Seq<u8>, b2: Seq<u8>, k: int)
    requires
        0 <= 16 * k <= b1.len(),
        b1.len() <= b2.len(),
        forall|i: int| 0 <= i < b1.len() ==> b1[i] == b2[i],
    ensures
        decoded(b1, k) == decoded(b2, k),
    decreases k,
{
    if k > 0 {
        lemma_decoded_prefix(b1, b2, k - 1);
        assert(record_key(b1, k - 1) == record_key(b2, k - 1));
        assert(record_grid(b1, k - 1) =~= record_grid(b2, k - 1));
    }
}

/// Decoding an encoded chunk sequence restores its coordinate-to-grid
/// mapping exactly, whatever order the chunks were written in.
proof fn lemma_round_trip_seq(s: Seq<Chunk>)
    ensures
        decoded(encoded(s), s.len() as int) == grid_map(seq_to_map(s)),
    decreases s.len(),
{
    lemma_encoded_len(s);
    if s.len() == 0 {
        assert(decoded(encoded(s), 0) =~= grid_map(seq_to_map(s)));
    } else {
        let sub = s.drop_last();
        let c = s.last();
        lemma_round_trip_seq(sub);
        lemma_encoded_len(sub);
        let bytes = encoded(s);
        let k = s.len() as int;
        assert(decoded(bytes, k) == decoded(bytes, k - 1).insert(
            record_key(bytes, k - 1),
            record_grid(bytes, k - 1),
        ));
        assert(forall|i: int| 0 <= i < encoded(sub).len() ==> encoded(sub)[i] == bytes[i]);
        lemma_decoded_prefix(encoded(sub), bytes, k - 1);
        lemma_le_round_trip(c.pos[0]);
        lemma_le_round_trip(c.pos[1]);
        assert(record_key(bytes, k - 1) == pos_of(c)) by {
            assert(bytes[16 * (k - 1)] == (c.pos[0] as u32) as u8);
            assert(bytes[16 * (k - 1) + 1] == ((c.pos[0] as u32) >> 8) as u8);
            assert(bytes[16 * (k - 1) + 2] == ((c.pos[0] as u32) >> 16) as u8);
            assert(bytes[16 * (k - 1) + 3] == ((c.pos[0] as u32) >> 24) as u8);
            assert(bytes[16 * (k - 1) + 4] == (c.pos[1] as u32) as u8);
            assert(bytes[16 * (k - 1) + 5] == ((c.pos[1] as u32) >> 8) as u8);
            assert(bytes[16 * (k - 1) + 6] == ((c.pos[1] as u32) >> 16) as u8);
            assert(bytes[16 * (k - 1) + 7] == ((c.pos[1] as u32) >> 24) as u8);
        }
        assert(record_grid(bytes, k - 1) =~= c.chunk@);
        assert(grid_map(seq_to_map(s)) =~= grid_map(seq_to_map(sub)).insert(
            pos_of(c),
            c.chunk@,
        )) by {
            assert(s.drop_last() == sub && s.last() == c);
            assert(seq_to_map(s) == seq_to_map(sub).insert(pos_of(c), c));
        }
        assert(decoded(bytes, k) =~= grid_map(seq_to_map(s)));
    }
}

/// Writing a world and reading the stream back gives the same
/// coordinate-to-grid mapping, for any chunk set.
pub proof fn lemma_save_load_round_trip(g: Game)
    requires
        g.wf(),
    ensures
        decoded(encoded(g.map@), encoded(g.map@).len() as int / 16) == grid_map(g@),
{
    lemma_encoded_len(g.map@);
    lemma_round_trip_seq(g.map@);
}

/// Copies eight bytes out of a stream into one packed grid.
pub fn clone_into_array(bytes: &Vec<u8>, start: usize) -> (a: [u8; 8])
    requires
        start + 8 <= bytes@.len(),
    ensures
        a@ =~= bytes@.subrange(start as int, start as int + 8),
{
    proof {
        vstd::std_specs::vec::axiom_spec_len(bytes);
    }
    let a: [u8; 8] = [
        bytes[start],
        bytes[start + 1],
        bytes[start + 2],
        bytes[start + 3],
        bytes[start + 4],
        bytes[start + 5],
        bytes[start + 6],
        bytes[start + 7],
    ];
    a
}

impl Game {
    /// Serializes the whole chunk set as a flat record stream.
    pub fn to_bytes(&self) -> (r: Vec<u8>)
        requires
            self.wf(),
        ensures
            r@ == encoded(self.map@),
    {
        let mut out: Vec<u8> = Vec::new();
        let n = self.map.len();
        let mut i: usize = 0;
        proof {
            assert(self.map@.take(0) =~= Seq::<Chunk>::empty());
        }
        while i < n
            invariant
                n == self.map@.len(),
                i <= n,
                out@ == encoded(self.map@.take(i as int)),
            decreases n - i,
        {
            let ghost before = out@;
            let x: u32 = self.map[i].pos[0] as u32;
            let y: u32 = self.map[i].pos[1] as u32;
            out.push(x as u8);
            out.push((x >> 8) as u8);
            out.push((x >> 16) as u8);
            out.push((x >> 24) as u8);
            out.push(y as u8);
            out.push((y >> 8) as u8);
            out.push((y >> 16) as u8);
            out.push((y >> 24) as u8);
            let mut k: usize = 0;
            while k < 8
                invariant
                    n == self.map@.len(),
                    i < n,
                    k <= 8,
                    out@ == before + record_of(self.map@[i as int]).take(8 + k as int),
                decreases 8 - k,
            {
                proof {
                    assert(record_of(self.map@[i as int])[8 + k as int]
                        == self.map@[i as int].chunk@[k as int]);
                }
                out.push(self.map[i].get_byte_at(k));
                proof {
                    assert(out@ =~= before + record_of(self.map@[i as int]).take(8 + (k + 1)));
                }
                k = k + 1;
            }
            proof {
                assert(record_of(self.map@[i as int]).take(16) =~= record_of(
                    self.map@[i as int],
                ));
                assert(self.map@.take(i + 1).drop_last() =~= self.map@.take(i as int));
                assert(self.map@.take(i + 1).last() == self.map@[i as int]);
                assert(out@ == encoded(self.map@.take(i + 1)));
            }
            i = i + 1;
        }
        proof {
            assert(self.map@.take(n as int) =~= self.map@);
        }
        out
    }

    /// Reads a record stream back into a world: each whole 16-byte
    /// record becomes an active chunk, later records overriding earlier
    /// ones on the same coordinate, and a trailing fragment shorter than
    /// one record is dropped.
    pub fn from_bytes(bytes: &Vec<u8>) -> (r: Game)
        ensures
            r.wf(),
            grid_map(r@) == decoded(bytes@, bytes@.len() as int / 16),
            forall|p: (int, int)| #[trigger] r@.contains_key(p) ==> r@[p].active,
    {
        let mut g = Game { map: Vec::new() };
        proof {
            crate::game::lemma_seq_to_map_empty();
            assert(grid_map(g@) =~= decoded(bytes@, 0));
        }
        let n = bytes.len() / 16;
        let mut k: usize = 0;
        while k < n
            invariant
                n == bytes@.len() as int / 16,
                k <= n,
                g.wf(),
                grid_map(g@) == decoded(bytes@, k as int),
                forall|p: (int, int)| #[trigger] g@.contains_key(p) ==> g@[p].active,
            decreases n - k,
        {
            proof {
                vstd::std_specs::vec::axiom_spec_len(bytes);
                vstd::arithmetic::div_mod::lemma_fundamental_div_mod(bytes@.len() as int, 16);
                assert(16 * (n as int) <= bytes@.len());
                assert(16 * (k as int) + 16 <= 16 * (n as int)) by (nonlinear_arith)
                    requires
                        k < n,
                ;
            }
            let base = k * 16;
            let x: i32 = ((bytes[base] as u32) | ((bytes[base + 1] as u32) << 8) | ((bytes[base
                + 2] as u32) << 16) | ((bytes[base + 3] as u32) << 24)) as i32;
            let y: i32 = ((bytes[base + 4] as u32) | ((bytes[base + 5] as u32) << 8) | ((bytes[base
                + 6] as u32) << 16) | ((bytes[base + 7] as u32) << 24)) as i32;
            let grid = clone_into_array(bytes, base + 8);
            let c = Chunk::from([x, y], grid);
            let ghost view_before = g@;
            g.insert_chunk([x, y], c);
            proof {
                assert(pos_of(c) == record_key(bytes@, k as int)) by {
                    assert(x == le_i32(
                        bytes@[16 * (k as int)],
                        bytes@[16 * (k as int) + 1],
                        bytes@[16 * (k as int) + 2],
                        bytes@[16 * (k as int) + 3],
                    ));
                    assert(y == le_i32(
                        bytes@[16 * (k as int) + 4],
                        bytes@[16 * (k as int) + 5],
                        bytes@[16 * (k as int) + 6],
                        bytes@[16 * (k as int) + 7],
                    ));
                }
                assert(c.chunk@ == record_grid(bytes@, k as int)) by {
                    assert(grid@ =~= record_grid(bytes@, k as int));
                }
                assert(grid_map(g@) =~= grid_map(view_before).insert(
                    pos_of(c),
                    c.chunk@,
                ));
                assert(grid_map(g@) == decoded(bytes@, k as int + 1));
            }
            k = k + 1;
        }
        g
    }
}

} // verus!
