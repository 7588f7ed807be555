//! The sparse world: a coordinate-keyed chunk collection and the
//! synchronous whole-grid generation.

use vstd::prelude::*;

verus! {

use crate::chunk::{Chunk, Edges, cell, grid_empty, edges_empty};
use crate::bits::bit;

/// The chunk-space coordinate a chunk carries, as a mathematical pair.
pub open spec fn pos_of(c: Chunk) -> (int, int) {
    (c.pos[0] as int, c.pos[1] as int)
}

/// Pairwise distinct coordinates: each coordinate names at most one chunk.
pub open spec fn distinct_positions(s: Seq<Chunk>) -> bool {
    forall|i: int, j: int|
        0 <= i < s.len() && 0 <= j < s.len() && i != j ==> pos_of(s[i]) != pos_of(s[j])
}

/// The coordinate-to-chunk mapping a chunk sequence stands for; with
/// duplicate coordinates the later chunk wins.
pub open spec fn seq_to_map(s: Seq<Chunk>) -> Map<(int, int), Chunk>
    decreases s.len(),
{
    if s.len() == 0 {
        Map::empty()
    } else {
        seq_to_map(s.drop_last()).insert(pos_of(s.last()), s.last())
    }
}

/// A coordinate is in the mapping exactly when some chunk carries it.
pub proof fn lemma_seq_to_map_contains(s: Seq<Chunk>, p: (int, int))
    ensures
        seq_to_map(s).contains_key(p) <==> exists|i: int| 0 <= i < s.len() && pos_of(s[i]) == p,
    decreases s.len(),
{
    if s.len() > 0 {
        lemma_seq_to_map_contains(s.drop_last(), p);
        if pos_of(s.last()) == p {
            assert(pos_of(s[s.len() - 1]) == p);
        } else {
            if exists|i: int| 0 <= i < s.drop_last().len() && pos_of(s.drop_last()[i]) == p {
                let i = choose|i: int|
                    0 <= i < s.drop_last().len() && pos_of(s.drop_last()[i]) == p;
                assert(pos_of(s[i]) == p);
            }
            if exists|i: int| 0 <= i < s.len() && pos_of(s[i]) == p {
                let i = choose|i: int| 0 <= i < s.len() && pos_of(s[i]) == p;
                assert(i < s.len() - 1);
                assert(pos_of(s.drop_last()[i]) == p);
            }
        }
    }
}

/// With distinct coordinates, each chunk is what its coordinate maps to.
pub proof fn lemma_seq_to_map_index(s: Seq<Chunk>, i: int)
    requires
        distinct_positions(s),
        0 <= i < s.len(),
    ensures
        seq_to_map(s).contains_key(pos_of(s[i])),
        seq_to_map(s)[pos_of(s[i])] == s[i],
    decreases s.len(),
{
    lemma_seq_to_map_contains(s, pos_of(s[i]));
    if i < s.len() - 1 {
        assert(distinct_positions(s.drop_last()));
        assert(s.drop_last()[i] == s[i]);
        lemma_seq_to_map_index(s.drop_last(), i);
        assert(pos_of(s.last()) != pos_of(s[i]));
    }
}

/// Both characterizations at once, for every coordinate and index.
pub proof fn lemma_seq_to_map_props(s: Seq<Chunk>)
    requires
        distinct_positions(s),
    ensures
        forall|p: (int, int)|
            #[trigger] seq_to_map(s).contains_key(p) <==> exists|i: int|
                0 <= i < s.len() && pos_of(s[i]) == p,
        forall|i: int|
            0 <= i < s.len() ==> seq_to_map(s).contains_key(#[trigger] pos_of(s[i]))
                && seq_to_map(s)[pos_of(s[i])] == s[i],
{
    assert forall|p: (int, int)| #[trigger]
        seq_to_map(s).contains_key(p) <==> exists|i: int|
            0 <= i < s.len() && pos_of(s[i]) == p by {
        lemma_seq_to_map_contains(s, p);
    }
    assert forall|i: int| 0 <= i < s.len() implies seq_to_map(s).contains_key(
        #[trigger] pos_of(s[i]),
    ) && seq_to_map(s)[pos_of(s[i])] == s[i] by {
        lemma_seq_to_map_index(s, i);
    }
}

/// Appending a chunk inserts it under its coordinate.
pub proof fn lemma_seq_to_map_push(s: Seq<Chunk>, c: Chunk)
    ensures
        seq_to_map(s.push(c)) == seq_to_map(s).insert(pos_of(c), c),
{
    assert(s.push(c).drop_last() =~= s);
    assert(s.push(c).last() == c);
}

/// The empty sequence stands for the empty mapping.
pub proof fn lemma_seq_to_map_empty()
    ensures
        seq_to_map(Seq::<Chunk>::empty()) == Map::<(int, int), Chunk>::empty(),
{
}

/// Removing one chunk from the sequence removes its coordinate from the
/// mapping.
pub proof fn lemma_seq_to_map_remove(s: Seq<Chunk>, i: int)
    requires
        distinct_positions(s),
        0 <= i < s.len(),
    ensures
        distinct_positions(s.remove(i)),
        seq_to_map(s.remove(i)) == seq_to_map(s).remove(pos_of(s[i])),
{
    let s1 = s.remove(i);
    let p = pos_of(s[i]);
    assert(forall|k: int| 0 <= k < i ==> s1[k] == s[k]);
    assert(forall|k: int| i <= k < s1.len() ==> s1[k] == s[k + 1]);
    assert forall|k: int, l: int|
        0 <= k < s1.len() && 0 <= l < s1.len() && k != l implies pos_of(s1[k]) != pos_of(
        s1[l],
    ) by {
        let ks = if k < i { k } else { k + 1 };
        let ls = if l < i { l } else { l + 1 };
        assert(s1[k] == s[ks] && s1[l] == s[ls] && ks != ls);
    }
    lemma_seq_to_map_props(s);
    lemma_seq_to_map_props(s1);
    assert forall|q: (int, int)| true implies seq_to_map(s1).contains_key(q) == seq_to_map(
        s,
    ).remove(p).contains_key(q) by {
        if seq_to_map(s1).contains_key(q) {
            let k = choose|k: int| 0 <= k < s1.len() && pos_of(s1[k]) == q;
            let ks = if k < i { k } else { k + 1 };
            assert(pos_of(s[ks]) == q && ks != i);
            assert(q != p);
            assert(seq_to_map(s).contains_key(q));
        }
        if seq_to_map(s).remove(p).contains_key(q) {
            let k = choose|k: int| 0 <= k < s.len() && pos_of(s[k]) == q;
            assert(k != i);
            let k1 = if k < i { k } else { k - 1 };
            assert(pos_of(s1[k1]) == q);
            assert(seq_to_map(s1).contains_key(q));
        }
    }
    assert forall|q: (int, int)| seq_to_map(s1).contains_key(q) implies seq_to_map(s1)[q]
        == seq_to_map(s).remove(p)[q] by {
        let k = choose|k: int| 0 <= k < s1.len() && pos_of(s1[k]) == q;
        let ks = if k < i { k } else { k + 1 };
        assert(seq_to_map(s1)[pos_of(s1[k])] == s1[k]);
        assert(seq_to_map(s)[pos_of(s[ks])] == s[ks]);
    }
    assert(seq_to_map(s1) =~= seq_to_map(s).remove(p));
}

/// The boundary words that generation state `m` assigns to the chunk at
/// `p`: each word mirrors the facing border of the adjacent chunk, or is
/// zero where that chunk is absent.
pub open spec fn edges_match(m: Map<(int, int), Chunk>, p: (int, int), e: Edges) -> bool {
    &&& if m.contains_key((p.0 - 1, p.1)) {
        forall|i: u8| i < 8 ==> bit(e.left, i) == cell(m[(p.0 - 1, p.1)].chunk@, 7, i as int)
    } else {
        e.left == 0
    }
    &&& if m.contains_key((p.0 + 1, p.1)) {
        forall|i: u8| i < 8 ==> bit(e.right, i) == cell(m[(p.0 + 1, p.1)].chunk@, 0, i as int)
    } else {
        e.right == 0
    }
    &&& if m.contains_key((p.0, p.1 + 1)) {
        e.top == m[(p.0, p.1 + 1)].chunk@[7]
    } else {
        e.top == 0
    }
    &&& if m.contains_key((p.0, p.1 - 1)) {
        e.bottom == m[(p.0, p.1 - 1)].chunk@[0]
    } else {
        e.bottom == 0
    }
}

/// The corner mask that generation state `m` assigns to the chunk at `p`:
/// one column per diagonal neighbor's nearest corner cell, absent
/// neighbors contributing zero, and the unused columns zero.
pub open spec fn corners_match(m: Map<(int, int), Chunk>, p: (int, int), w: u8) -> bool {
    &&& bit(w, 0) == (m.contains_key((p.0 - 1, p.1 - 1)) && cell(
        m[(p.0 - 1, p.1 - 1)].chunk@,
        7,
        0,
    ))
    &&& bit(w, 1) == (m.contains_key((p.0 + 1, p.1 - 1)) && cell(
        m[(p.0 + 1, p.1 - 1)].chunk@,
        0,
        0,
    ))
    &&& bit(w, 2) == (m.contains_key((p.0 - 1, p.1 + 1)) && cell(
        m[(p.0 - 1, p.1 + 1)].chunk@,
        7,
        7,
    ))
    &&& bit(w, 3) == (m.contains_key((p.0 + 1, p.1 + 1)) && cell(
        m[(p.0 + 1, p.1 + 1)].chunk@,
        0,
        7,
    ))
    &&& forall|n: u8| 4 <= n < 8 ==> !bit(w, n)
}

/// The cell that the synchronous boundary exchange shows the chunk at
/// `p` at window coordinate (x, y) of the 10x10 window around it: inside
/// the window's core it is that chunk's own cell, one step outside it is
/// the matching cell of the adjacent chunk, and an absent chunk reads as
/// all dead. Window row -1 lies in the chunk one step up (chunk-space y
/// grows upward, grid rows count downward from the top).
pub open spec fn wcell(m: Map<(int, int), Chunk>, p: (int, int), x: int, y: int) -> bool
    recommends
        -1 <= x <= 8,
        -1 <= y <= 8,
{
    let qx: int = if x < 0 {
        -1
    } else if x > 7 {
        1
    } else {
        0
    };
    let qy: int = if y < 0 {
        1
    } else if y > 7 {
        -1
    } else {
        0
    };
    let q = (p.0 + qx, p.1 + qy);
    if m.contains_key(q) {
        cell(m[q].chunk@, x - 8 * qx, y + 8 * qy)
    } else {
        false
    }
}

/// True when the whole one-cell ring around the chunk at `p` is dead.
pub open spec fn wedges_empty(m: Map<(int, int), Chunk>, p: (int, int)) -> bool {
    &&& forall|y: int| 0 <= y < 8 ==> !(#[trigger] wcell(m, p, -1, y))
    &&& forall|y: int| 0 <= y < 8 ==> !(#[trigger] wcell(m, p, 8, y))
    &&& forall|x: int| 0 <= x < 8 ==> !(#[trigger] wcell(m, p, x, -1))
    &&& forall|x: int| 0 <= x < 8 ==> !(#[trigger] wcell(m, p, x, 8))
    &&& !wcell(m, p, -1, -1) && !wcell(m, p, 8, -1) && !wcell(m, p, -1, 8) && !wcell(m, p, 8, 8)
}

/// Live cells in the 3x3 block around window coordinate (x, y) of the
/// chunk at `p`, the cell itself included, read across chunk borders.
pub open spec fn wlive_count(m: Map<(int, int), Chunk>, p: (int, int), x: int, y: int) -> int
    recommends
        0 <= x < 8,
        0 <= y < 8,
{
    crate::chunk::b2i(wcell(m, p, x - 1, y - 1)) + crate::chunk::b2i(wcell(m, p, x, y - 1))
        + crate::chunk::b2i(wcell(m, p, x + 1, y - 1)) + crate::chunk::b2i(wcell(m, p, x - 1, y))
        + crate::chunk::b2i(wcell(m, p, x, y)) + crate::chunk::b2i(wcell(m, p, x + 1, y))
        + crate::chunk::b2i(wcell(m, p, x - 1, y + 1)) + crate::chunk::b2i(wcell(m, p, x, y + 1))
        + crate::chunk::b2i(wcell(m, p, x + 1, y + 1))
}

/// The transition rule applied at a cell of the chunk at `p`, its
/// neighborhood read across chunk borders from the whole state `m`.
pub open spec fn wnext_cell(m: Map<(int, int), Chunk>, p: (int, int), x: int, y: int) -> bool
    recommends
        m.contains_key(p),
        0 <= x < 8,
        0 <= y < 8,
{
    if wcell(m, p, x, y) {
        wlive_count(m, p, x, y) == 3 || wlive_count(m, p, x, y) == 4
    } else {
        wlive_count(m, p, x, y) == 3
    }
}

/// An Edges context that matches the state shows the chunk exactly the
/// cells of its neighbors: the chunked read of the whole 10x10 window
/// equals the read on the unpartitioned plane.
pub proof fn lemma_window_cells(m: Map<(int, int), Chunk>, p: (int, int), e: Edges)
    requires
        m.contains_key(p),
        edges_match(m, p, e),
        corners_match(m, p, e.corners),
    ensures
        forall|x: int, y: int|
            -1 <= x <= 8 && -1 <= y <= 8 ==> crate::chunk::ext_cell(m[p].chunk@, e, x, y) == wcell(
                m,
                p,
                x,
                y,
            ),
{
    assert forall|x: int, y: int| -1 <= x <= 8 && -1 <= y <= 8 implies crate::chunk::ext_cell(
        m[p].chunk@,
        e,
        x,
        y,
    ) == wcell(m, p, x, y) by {
        if 0 <= x < 8 && 0 <= y < 8 {
        } else if x == -1 && 0 <= y < 8 {
            if !m.contains_key((p.0 - 1, p.1)) {
                crate::bits::lemma_bit_zero(y as u8);
            }
        } else if x == 8 && 0 <= y < 8 {
            if !m.contains_key((p.0 + 1, p.1)) {
                crate::bits::lemma_bit_zero(y as u8);
            }
        } else if 0 <= x < 8 && y == -1 {
            if !m.contains_key((p.0, p.1 + 1)) {
                crate::bits::lemma_bit_zero(x as u8);
            }
        } else if 0 <= x < 8 && y == 8 {
            if !m.contains_key((p.0, p.1 - 1)) {
                crate::bits::lemma_bit_zero(x as u8);
            }
        }
    }
}

/// Under a matching Edges context, the per-chunk transition rule equals
/// the rule evaluated on the unpartitioned plane, cell by cell.
pub proof fn lemma_window_next(m: Map<(int, int), Chunk>, p: (int, int), e: Edges)
    requires
        m.contains_key(p),
        edges_match(m, p, e),
        corners_match(m, p, e.corners),
    ensures
        forall|x: int, y: int|
            0 <= x < 8 && 0 <= y < 8 ==> crate::chunk::next_cell(m[p].chunk@, e, x, y) == wnext_cell(
                m,
                p,
                x,
                y,
            ),
{
    lemma_window_cells(m, p, e);
    assert forall|x: int, y: int| 0 <= x < 8 && 0 <= y < 8 implies crate::chunk::next_cell(
        m[p].chunk@,
        e,
        x,
        y,
    ) == wnext_cell(m, p, x, y) by {
        assert(crate::chunk::live_count(m[p].chunk@, e, x, y) == wlive_count(m, p, x, y));
        assert(crate::chunk::cell(m[p].chunk@, x, y) == wcell(m, p, x, y));
    }
}

/// A matching Edges context is all zero exactly when the one-cell ring
/// around the chunk is dead on the unpartitioned plane.
pub proof fn lemma_window_edges_empty(m: Map<(int, int), Chunk>, p: (int, int), e: Edges)
    requires
        m.contains_key(p),
        edges_match(m, p, e),
        corners_match(m, p, e.corners),
    ensures
        edges_empty(e) == wedges_empty(m, p),
{
    let g = m[p].chunk@;
    assert forall|y: int| 0 <= y < 8 implies #[trigger] wcell(m, p, -1, y) == bit(e.left, y as u8) by {
        if !m.contains_key((p.0 - 1, p.1)) {
            crate::bits::lemma_bit_zero(y as u8);
        }
    }
    assert forall|y: int| 0 <= y < 8 implies #[trigger] wcell(m, p, 8, y) == bit(e.right, y as u8) by {
        if !m.contains_key((p.0 + 1, p.1)) {
            crate::bits::lemma_bit_zero(y as u8);
        }
    }
    assert forall|x: int| 0 <= x < 8 implies #[trigger] wcell(m, p, x, -1) == bit(e.top, x as u8) by {
        if !m.contains_key((p.0, p.1 + 1)) {
            crate::bits::lemma_bit_zero(x as u8);
        }
    }
    assert forall|x: int| 0 <= x < 8 implies #[trigger] wcell(m, p, x, 8) == bit(e.bottom, x as u8) by {
        if !m.contains_key((p.0, p.1 - 1)) {
            crate::bits::lemma_bit_zero(x as u8);
        }
    }
    assert(wcell(m, p, -1, -1) == bit(e.corners, 2));
    assert(wcell(m, p, 8, -1) == bit(e.corners, 3));
    assert(wcell(m, p, -1, 8) == bit(e.corners, 0));
    assert(wcell(m, p, 8, 8) == bit(e.corners, 1));
    if edges_empty(e) {
        assert forall|y: int| 0 <= y < 8 implies !wcell(m, p, -1, y) && !wcell(m, p, 8, y) by {
            crate::bits::lemma_bit_zero(y as u8);
        }
        assert forall|x: int| 0 <= x < 8 implies !wcell(m, p, x, -1) && !wcell(m, p, x, 8) by {
            crate::bits::lemma_bit_zero(x as u8);
        }
        assert(!bit(e.corners, 0) && !bit(e.corners, 1) && !bit(e.corners, 2) && !bit(
            e.corners,
            3,
        )) by {
            crate::bits::lemma_bit_zero(0);
            crate::bits::lemma_bit_zero(1);
            crate::bits::lemma_bit_zero(2);
            crate::bits::lemma_bit_zero(3);
        }
        assert(wedges_empty(m, p));
    }
    if wedges_empty(m, p) {
        assert(!bit(e.left, 0) && !bit(e.left, 1) && !bit(e.left, 2) && !bit(e.left, 3) && !bit(
            e.left,
            4,
        ) && !bit(e.left, 5) && !bit(e.left, 6) && !bit(e.left, 7)) by {
            assert(!wcell(m, p, -1, 0) && !wcell(m, p, -1, 1) && !wcell(m, p, -1, 2) && !wcell(
                m,
                p,
                -1,
                3,
            ) && !wcell(m, p, -1, 4) && !wcell(m, p, -1, 5) && !wcell(m, p, -1, 6) && !wcell(
                m,
                p,
                -1,
                7,
            ));
        }
        crate::bits::lemma_row_zero(e.left);
        assert(!bit(e.right, 0) && !bit(e.right, 1) && !bit(e.right, 2) && !bit(e.right, 3) && !bit(
            e.right,
            4,
        ) && !bit(e.right, 5) && !bit(e.right, 6) && !bit(e.right, 7)) by {
            assert(!wcell(m, p, 8, 0) && !wcell(m, p, 8, 1) && !wcell(m, p, 8, 2) && !wcell(
                m,
                p,
                8,
                3,
            ) && !wcell(m, p, 8, 4) && !wcell(m, p, 8, 5) && !wcell(m, p, 8, 6) && !wcell(
                m,
                p,
                8,
                7,
            ));
        }
        crate::bits::lemma_row_zero(e.right);
        assert(!bit(e.top, 0) && !bit(e.top, 1) && !bit(e.top, 2) && !bit(e.top, 3) && !bit(
            e.top,
            4,
        ) && !bit(e.top, 5) && !bit(e.top, 6) && !bit(e.top, 7)) by {
            assert(!wcell(m, p, 0, -1) && !wcell(m, p, 1, -1) && !wcell(m, p, 2, -1) && !wcell(
                m,
                p,
                3,
                -1,
            ) && !wcell(m, p, 4, -1) && !wcell(m, p, 5, -1) && !wcell(m, p, 6, -1) && !wcell(
                m,
                p,
                7,
                -1,
            ));
        }
        crate::bits::lemma_row_zero(e.top);
        assert(!bit(e.bottom, 0) && !bit(e.bottom, 1) && !bit(e.bottom, 2) && !bit(e.bottom, 3)
            && !bit(e.bottom, 4) && !bit(e.bottom, 5) && !bit(e.bottom, 6) && !bit(e.bottom, 7))
            by {
            assert(!wcell(m, p, 0, 8) && !wcell(m, p, 1, 8) && !wcell(m, p, 2, 8) && !wcell(
                m,
                p,
                3,
                8,
            ) && !wcell(m, p, 4, 8) && !wcell(m, p, 5, 8) && !wcell(m, p, 6, 8) && !wcell(
                m,
                p,
                7,
                8,
            ));
        }
        crate::bits::lemma_row_zero(e.bottom);
        crate::bits::lemma_row_zero(e.corners);
        assert(edges_empty(e));
    }
}

/// A coordinate pair held in machine integers, as a mathematical pair.
pub open spec fn apos(a: [i32; 2]) -> (int, int) {
    (a[0] as int, a[1] as int)
}

/// The coordinate leaves one step of headroom on each axis, so that
/// every neighbor coordinate is representable.
pub open spec fn pos_in_range(p: (int, int)) -> bool {
    i32::MIN < p.0 < i32::MAX && i32::MIN < p.1 < i32::MAX
}

/// Whether the chunk at `p` takes part in the generation: it is active,
/// or some cell of the ring around it is live.
pub open spec fn steps_chunk(m: Map<(int, int), Chunk>, p: (int, int)) -> bool
    recommends
        m.contains_key(p),
{
    m[p].active || !wedges_empty(m, p)
}

/// The fresh generation of the chunk at `p` holds no live cell.
pub open spec fn wnext_grid_empty(m: Map<(int, int), Chunk>, p: (int, int)) -> bool
    recommends
        m.contains_key(p),
{
    forall|x: int, y: int| 0 <= x < 8 && 0 <= y < 8 ==> !wnext_cell(m, p, x, y)
}

/// Whether the chunk at `p` survives the generation: it takes part, and
/// does not end both empty and surrounded by a dead ring.
pub open spec fn keeps_chunk(m: Map<(int, int), Chunk>, p: (int, int)) -> bool
    recommends
        m.contains_key(p),
{
    steps_chunk(m, p) && !(wnext_grid_empty(m, p) && wedges_empty(m, p))
}

/// `c` is the chunk at `p` advanced one generation: same coordinate,
/// active, and each cell the rule's verdict on the prior state.
pub open spec fn stepped_chunk(m: Map<(int, int), Chunk>, p: (int, int), c: Chunk) -> bool
    recommends
        m.contains_key(p),
{
    &&& pos_of(c) == p
    &&& c.active
    &&& forall|x: int, y: int| 0 <= x < 8 && 0 <= y < 8 ==> cell(c.chunk@, x, y) == wnext_cell(
        m,
        p,
        x,
        y,
    )
}

/// `c` is a chunk created empty at `p` by an activation signal.
pub open spec fn fresh_chunk(p: (int, int), c: Chunk) -> bool {
    pos_of(c) == p && c.active && grid_empty(c.chunk@)
}

/// The neighbor coordinate an activation-mask column points at, in the
/// order up-left, up, up-right, left, right, down-left, down, down-right.
pub open spec fn dir_target(p: (int, int), n: u8) -> (int, int)
    recommends
        n < 8,
{
    if n == 0 {
        (p.0 - 1, p.1 + 1)
    } else if n == 1 {
        (p.0, p.1 + 1)
    } else if n == 2 {
        (p.0 + 1, p.1 + 1)
    } else if n == 3 {
        (p.0 - 1, p.1)
    } else if n == 4 {
        (p.0 + 1, p.1)
    } else if n == 5 {
        (p.0 - 1, p.1 - 1)
    } else if n == 6 {
        (p.0, p.1 - 1)
    } else {
        (p.0 + 1, p.1 - 1)
    }
}

/// The target coordinates of the mask's set columns below `n`, one per
/// set column, in column order (most significant first).
pub open spec fn targets_upto(v: u8, p: (int, int), n: u8) -> Seq<(int, int)>
    recommends
        n <= 8,
    decreases n,
{
    if n == 0 {
        Seq::empty()
    } else {
        let rest = targets_upto(v, p, (n - 1) as u8);
        if bit(v, (n - 1) as u8) {
            rest.push(dir_target(p, (n - 1) as u8))
        } else {
            rest
        }
    }
}

/// The target coordinates of all the mask's set columns, in column
/// order: its length is the number of set columns.
pub open spec fn targets_of(v: u8, p: (int, int)) -> Seq<(int, int)> {
    targets_upto(v, p, 8)
}

/// The list grew from `old_s` to `new_s` by appending exactly the
/// coordinates `ts`, in order, with the prior contents untouched.
pub open spec fn appended_targets(
    old_s: Seq<[i32; 2]>,
    new_s: Seq<[i32; 2]>,
    ts: Seq<(int, int)>,
) -> bool {
    &&& new_s.len() == old_s.len() + ts.len()
    &&& forall|t: int| 0 <= t < old_s.len() ==> new_s[t] == old_s[t]
    &&& forall|t: int|
        0 <= t < ts.len() ==> apos(#[trigger] new_s[old_s.len() + t]) == ts[t]
}

/// The coordinate is the target of one of the mask's set columns
/// below `k`.
pub open spec fn mask_entry(v: u8, p: (int, int), q: (int, int), k: u8) -> bool {
    exists|n: u8| n < k && #[trigger] bit(v, n) && q == dir_target(p, n)
}

/// Every entry of the column-order target list is a set column's target.
proof fn lemma_targets_upto_sound(v: u8, p: (int, int), k: u8)
    requires
        k <= 8,
    ensures
        forall|t: int|
            0 <= t < targets_upto(v, p, k).len() ==> mask_entry(
                v,
                p,
                #[trigger] targets_upto(v, p, k)[t],
                k,
            ),
    decreases k,
{
    if k > 0 {
        lemma_targets_upto_sound(v, p, (k - 1) as u8);
        let rest = targets_upto(v, p, (k - 1) as u8);
        assert forall|t: int| 0 <= t < targets_upto(v, p, k).len() implies mask_entry(
            v,
            p,
            #[trigger] targets_upto(v, p, k)[t],
            k,
        ) by {
            if t < rest.len() {
                assert(mask_entry(v, p, rest[t], (k - 1) as u8));
                let n = choose|n: u8|
                    n < (k - 1) as u8 && #[trigger] bit(v, n) && rest[t] == dir_target(p, n);
                assert(targets_upto(v, p, k)[t] == rest[t]);
                assert(n < k && bit(v, n) && targets_upto(v, p, k)[t] == dir_target(p, n));
            } else {
                assert(bit(v, (k - 1) as u8));
                assert(targets_upto(v, p, k)[t] == dir_target(p, (k - 1) as u8));
            }
        }
    }
}

/// Every set column's target stands in the column-order target list.
proof fn lemma_targets_upto_complete(v: u8, p: (int, int), n: u8, k: u8)
    requires
        n < k <= 8,
        bit(v, n),
    ensures
        exists|t: int|
            0 <= t < targets_upto(v, p, k).len() && #[trigger] targets_upto(v, p, k)[t]
                == dir_target(p, n),
    decreases k,
{
    let rest = targets_upto(v, p, (k - 1) as u8);
    if n == (k - 1) as u8 {
        assert(targets_upto(v, p, k)[rest.len() as int] == dir_target(p, n));
    } else {
        lemma_targets_upto_complete(v, p, n, (k - 1) as u8);
        let t = choose|t: int|
            0 <= t < rest.len() && #[trigger] rest[t] == dir_target(p, n);
        assert(targets_upto(v, p, k)[t] == dir_target(p, n));
    }
}

/// Column `n` of the activation mask the chunk at `p` raises this
/// generation: a live cell of its fresh grid on that side or corner.
pub open spec fn wmask_bit(m: Map<(int, int), Chunk>, p: (int, int), n: u8) -> bool
    recommends
        m.contains_key(p),
        n < 8,
{
    if n == 0 {
        wnext_cell(m, p, 0, 0)
    } else if n == 1 {
        exists|x: int| 0 <= x < 8 && wnext_cell(m, p, x, 0)
    } else if n == 2 {
        wnext_cell(m, p, 7, 0)
    } else if n == 3 {
        exists|y: int| 0 <= y < 8 && wnext_cell(m, p, 0, y)
    } else if n == 4 {
        exists|y: int| 0 <= y < 8 && wnext_cell(m, p, 7, y)
    } else if n == 5 {
        wnext_cell(m, p, 0, 7)
    } else if n == 6 {
        exists|x: int| 0 <= x < 8 && wnext_cell(m, p, x, 7)
    } else {
        wnext_cell(m, p, 7, 7)
    }
}

/// The chunk at `p` takes part this generation and raises the activation
/// signal for direction `n`.
pub open spec fn activation_from(m: Map<(int, int), Chunk>, p: (int, int), n: u8) -> bool {
    m.contains_key(p) && steps_chunk(m, p) && n < 8 && wmask_bit(m, p, n)
}

/// Some chunk of the generation raises an activation signal aimed at `q`.
pub open spec fn activated(m: Map<(int, int), Chunk>, q: (int, int)) -> bool {
    exists|p: (int, int), n: u8| activation_from(m, p, n) && dir_target(p, n) == q
}

/// Summarizes one chunk's advance at world level: the post-state of a
/// chunk stepped under a matching Edges context is the stepped chunk of
/// the prior state, its flag decides survival, and the mask columns are
/// exactly the activation signals.
proof fn lemma_step_summary(
    m: Map<(int, int), Chunk>,
    p: (int, int),
    old_c: Chunk,
    c: Chunk,
    e: Edges,
    mask: u8,
)
    requires
        m.contains_key(p),
        m[p] == old_c,
        edges_match(m, p, e),
        corners_match(m, p, e.corners),
        pos_of(old_c) == p,
        c.pos == old_c.pos,
        !(old_c.active || !edges_empty(e)) ==> c == old_c && mask == 0,
        (old_c.active || !edges_empty(e)) ==> {
            &&& forall|x: int, y: int|
                0 <= x < 8 && 0 <= y < 8 ==> cell(c.chunk@, x, y) == crate::chunk::next_cell(
                    old_c.chunk@,
                    e,
                    x,
                    y,
                )
            &&& c.active == !(grid_empty(c.chunk@) && edges_empty(e))
            &&& forall|nn: u8| nn < 8 ==> bit(mask, nn) == crate::chunk::mask_bit(c.chunk@, nn)
        },
    ensures
        pos_of(c) == p,
        c.active == keeps_chunk(m, p),
        keeps_chunk(m, p) ==> stepped_chunk(m, p, c),
        forall|nn: u8| nn < 8 ==> bit(mask, nn) == activation_from(m, p, nn),
{
    lemma_window_next(m, p, e);
    lemma_window_edges_empty(m, p, e);
    crate::chunk::lemma_grid_empty_cells(c.chunk@);
    assert(steps_chunk(m, p) == (old_c.active || !edges_empty(e)));
    if old_c.active || !edges_empty(e) {
        assert forall|x: int, y: int| 0 <= x < 8 && 0 <= y < 8 implies cell(c.chunk@, x, y)
            == wnext_cell(m, p, x, y) by {
            assert(cell(c.chunk@, x, y) == crate::chunk::next_cell(old_c.chunk@, e, x, y));
        }
        assert(grid_empty(c.chunk@) == wnext_grid_empty(m, p)) by {
            if grid_empty(c.chunk@) {
                assert forall|x: int, y: int| 0 <= x < 8 && 0 <= y < 8 implies !wnext_cell(
                    m,
                    p,
                    x,
                    y,
                ) by {
                    assert(!cell(c.chunk@, x, y));
                }
            }
            if wnext_grid_empty(m, p) {
                assert forall|x: int, y: int| 0 <= x < 8 && 0 <= y < 8 implies !cell(
                    c.chunk@,
                    x,
                    y,
                ) by {
                    assert(!wnext_cell(m, p, x, y));
                }
            }
        }
        assert(c.active == keeps_chunk(m, p));
        assert forall|nn: u8| nn < 8 implies bit(mask, nn) == wmask_bit(m, p, nn) by {
            assert(bit(mask, nn) == crate::chunk::mask_bit(c.chunk@, nn));
            if nn == 1 {
                if crate::chunk::mask_bit(c.chunk@, 1) {
                    let x = choose|x: int| 0 <= x < 8 && cell(c.chunk@, x, 0);
                    assert(wnext_cell(m, p, x, 0));
                }
                if wmask_bit(m, p, 1) {
                    let x = choose|x: int| 0 <= x < 8 && wnext_cell(m, p, x, 0);
                    assert(cell(c.chunk@, x, 0));
                }
            } else if nn == 3 {
                if crate::chunk::mask_bit(c.chunk@, 3) {
                    let y = choose|y: int| 0 <= y < 8 && cell(c.chunk@, 0, y);
                    assert(wnext_cell(m, p, 0, y));
                }
                if wmask_bit(m, p, 3) {
                    let y = choose|y: int| 0 <= y < 8 && wnext_cell(m, p, 0, y);
                    assert(cell(c.chunk@, 0, y));
                }
            } else if nn == 4 {
                if crate::chunk::mask_bit(c.chunk@, 4) {
                    let y = choose|y: int| 0 <= y < 8 && cell(c.chunk@, 7, y);
                    assert(wnext_cell(m, p, 7, y));
                }
                if wmask_bit(m, p, 4) {
                    let y = choose|y: int| 0 <= y < 8 && wnext_cell(m, p, 7, y);
                    assert(cell(c.chunk@, 7, y));
                }
            } else if nn == 6 {
                if crate::chunk::mask_bit(c.chunk@, 6) {
                    let x = choose|x: int| 0 <= x < 8 && cell(c.chunk@, x, 7);
                    assert(wnext_cell(m, p, x, 7));
                }
                if wmask_bit(m, p, 6) {
                    let x = choose|x: int| 0 <= x < 8 && wnext_cell(m, p, x, 7);
                    assert(cell(c.chunk@, x, 7));
                }
            }
        }
        assert(forall|nn: u8| nn < 8 ==> bit(mask, nn) == activation_from(m, p, nn));
    } else {
        assert(!keeps_chunk(m, p));
        assert(!c.active);
        assert(mask == 0);
        assert forall|nn: u8| nn < 8 implies !bit(mask, nn) by {
            crate::bits::lemma_bit_zero(nn);
        }
        assert(forall|nn: u8| nn < 8 ==> bit(mask, nn) == activation_from(m, p, nn));
    }
}

/// Some chunk among the first `hi` of the snapshot raises an activation
/// signal aimed at `q`.
pub open spec fn signal_source(
    m: Map<(int, int), Chunk>,
    s0: Seq<Chunk>,
    hi: int,
    q: (int, int),
) -> bool {
    exists|j: int, nn: u8|
        0 <= j < hi && #[trigger] activation_from(m, pos_of(s0[j]), nn) && dir_target(
            pos_of(s0[j]),
            nn,
        ) == q
}

/// The coordinate `q` occurs in the target list.
pub open spec fn target_listed(acts: Seq<[i32; 2]>, q: (int, int)) -> bool {
    exists|t: int| 0 <= t < acts.len() && apos(#[trigger] acts[t]) == q
}

/// Some chunk of the sequence carries the coordinate `q`.
pub open spec fn carries(st: Seq<Chunk>, hi: int, q: (int, int)) -> bool {
    exists|j: int| 0 <= j < hi && pos_of(#[trigger] st[j]) == q
}

/// The coordinate is one of the mask's signals from `pos`.
pub open spec fn new_target(v: u8, pos: [i32; 2], a: [i32; 2]) -> bool {
    exists|n: u8| n < 8 && #[trigger] bit(v, n) && apos(a) == dir_target(apos(pos), n)
}

/// Every listed target is a signal some processed chunk raised.
pub open spec fn acts_sound(
    m: Map<(int, int), Chunk>,
    s0: Seq<Chunk>,
    hi: int,
    acts: Seq<[i32; 2]>,
) -> bool {
    forall|t: int| 0 <= t < acts.len() ==> signal_source(m, s0, hi, apos(#[trigger] acts[t]))
}

/// Every signal a processed chunk raises is listed.
pub open spec fn acts_complete(
    m: Map<(int, int), Chunk>,
    s0: Seq<Chunk>,
    hi: int,
    acts: Seq<[i32; 2]>,
) -> bool {
    forall|j: int, nn: u8|
        0 <= j < hi && #[trigger] activation_from(m, pos_of(s0[j]), nn) ==> target_listed(
            acts,
            dir_target(pos_of(s0[j]), nn),
        )
}

/// Every surviving chunk stems from a processed chunk of the snapshot.
pub open spec fn stepped_covered(s0: Seq<Chunk>, hi: int, st: Seq<Chunk>) -> bool {
    forall|k: int| 0 <= k < st.len() ==> carries(s0, hi, pos_of(#[trigger] st[k]))
}

/// A processed chunk survives exactly when the rule keeps it.
pub open spec fn stepped_keeps(
    m: Map<(int, int), Chunk>,
    s0: Seq<Chunk>,
    hi: int,
    st: Seq<Chunk>,
) -> bool {
    forall|j: int|
        0 <= j < hi ==> (keeps_chunk(m, #[trigger] pos_of(s0[j])) <==> carries(
            st,
            st.len() as int,
            pos_of(s0[j]),
        ))
}

/// Every surviving chunk is its coordinate's prior chunk advanced one
/// generation.
pub open spec fn stepped_good(m: Map<(int, int), Chunk>, st: Seq<Chunk>) -> bool {
    forall|k: int| 0 <= k < st.len() ==> stepped_chunk(m, pos_of(#[trigger] st[k]), st[k])
}

/// Extends the running account of raised activation targets by one
/// chunk's signals.
proof fn lemma_acts_extend(
    m: Map<(int, int), Chunk>,
    s0: Seq<Chunk>,
    i: int,
    cpos: [i32; 2],
    mask: u8,
    before: Seq<[i32; 2]>,
    after: Seq<[i32; 2]>,
)
    requires
        0 <= i < s0.len(),
        apos(cpos) == pos_of(s0[i]),
        acts_sound(m, s0, i, before),
        acts_complete(m, s0, i, before),
        after.len() >= before.len(),
        forall|t: int| 0 <= t < before.len() ==> #[trigger] after[t] == before[t],
        forall|t: int|
            before.len() <= t < after.len() ==> new_target(mask, cpos, #[trigger] after[t]),
        forall|nn: u8|
            nn < 8 && #[trigger] bit(mask, nn) ==> target_listed(
                after,
                dir_target(apos(cpos), nn),
            ),
        forall|nn: u8| nn < 8 ==> #[trigger] bit(mask, nn) == activation_from(m, pos_of(s0[i]), nn),
    ensures
        acts_sound(m, s0, i + 1, after),
        acts_complete(m, s0, i + 1, after),
{
    let p = pos_of(s0[i]);
    assert forall|t: int| 0 <= t < after.len() implies signal_source(
        m,
        s0,
        i + 1,
        apos(#[trigger] after[t]),
    ) by {
        if t < before.len() {
            assert(after[t] == before[t]);
            assert(signal_source(m, s0, i, apos(before[t])));
            let (j, nn) = choose|j: int, nn: u8|
                0 <= j < i && #[trigger] activation_from(m, pos_of(s0[j]), nn) && dir_target(
                    pos_of(s0[j]),
                    nn,
                ) == apos(before[t]);
            assert(0 <= j < i + 1 && activation_from(m, pos_of(s0[j]), nn) && dir_target(
                pos_of(s0[j]),
                nn,
            ) == apos(after[t]));
        } else {
            assert(new_target(mask, cpos, after[t]));
            let nn = choose|nn: u8|
                nn < 8 && #[trigger] bit(mask, nn) && apos(after[t]) == dir_target(apos(cpos), nn);
            assert(activation_from(m, p, nn));
            assert(0 <= i < i + 1 && activation_from(m, pos_of(s0[i]), nn) && dir_target(
                pos_of(s0[i]),
                nn,
            ) == apos(after[t]));
        }
    }
    assert forall|j: int, nn: u8|
        0 <= j < i + 1 && #[trigger] activation_from(m, pos_of(s0[j]), nn) implies target_listed(
        after,
        dir_target(pos_of(s0[j]), nn),
    ) by {
        if j < i {
            assert(target_listed(before, dir_target(pos_of(s0[j]), nn)));
            let t = choose|t: int|
                0 <= t < before.len() && apos(#[trigger] before[t]) == dir_target(
                    pos_of(s0[j]),
                    nn,
                );
            assert(after[t] == before[t]);
            assert(0 <= t < after.len() && apos(after[t]) == dir_target(pos_of(s0[j]), nn));
        } else {
            assert(bit(mask, nn));
            assert(target_listed(after, dir_target(apos(cpos), nn)));
            let t = choose|t: int|
                0 <= t < after.len() && apos(#[trigger] after[t]) == dir_target(apos(cpos), nn);
            assert(0 <= t < after.len() && apos(after[t]) == dir_target(pos_of(s0[j]), nn));
        }
    }
}

/// Extends the account of surviving chunks by one stepped chunk, kept or
/// dropped by its flag.
proof fn lemma_stepped_extend(
    m: Map<(int, int), Chunk>,
    s0: Seq<Chunk>,
    i: int,
    c: Chunk,
    before: Seq<Chunk>,
    after: Seq<Chunk>,
)
    requires
        distinct_positions(s0),
        0 <= i < s0.len(),
        pos_of(c) == pos_of(s0[i]),
        c.active == keeps_chunk(m, pos_of(s0[i])),
        c.active ==> after == before.push(c) && stepped_chunk(m, pos_of(s0[i]), c),
        !c.active ==> after == before,
        distinct_positions(before),
        stepped_covered(s0, i, before),
        stepped_keeps(m, s0, i, before),
        stepped_good(m, before),
    ensures
        distinct_positions(after),
        stepped_covered(s0, i + 1, after),
        stepped_keeps(m, s0, i + 1, after),
        stepped_good(m, after),
{
    let p = pos_of(s0[i]);
    assert forall|k: int| 0 <= k < before.len() implies pos_of(#[trigger] before[k]) != p by {
        assert(carries(s0, i, pos_of(before[k])));
        let j = choose|j: int| 0 <= j < i && pos_of(#[trigger] s0[j]) == pos_of(before[k]);
        assert(pos_of(s0[j]) != pos_of(s0[i]));
    }
    if c.active {
        assert(after.last() == c);
        assert(distinct_positions(after)) by {
            assert(forall|k: int| 0 <= k < after.len() - 1 ==> after[k] == before[k]);
        }
        assert forall|k: int| 0 <= k < after.len() implies carries(
            s0,
            i + 1,
            pos_of(#[trigger] after[k]),
        ) by {
            if k < before.len() {
                assert(carries(s0, i, pos_of(before[k])));
                let j = choose|j: int| 0 <= j < i && pos_of(#[trigger] s0[j]) == pos_of(before[k]);
                assert(after[k] == before[k]);
                assert(0 <= j < i + 1 && pos_of(s0[j]) == pos_of(after[k]));
            } else {
                assert(after[k] == c);
                assert(0 <= i < i + 1 && pos_of(s0[i]) == pos_of(after[k]));
            }
        }
        assert forall|j: int| 0 <= j < i + 1 implies (keeps_chunk(m, #[trigger] pos_of(s0[j]))
            <==> carries(after, after.len() as int, pos_of(s0[j]))) by {
            if j == i {
                assert(pos_of(after[after.len() - 1]) == pos_of(s0[j]));
                assert(carries(after, after.len() as int, pos_of(s0[j])));
            } else {
                if keeps_chunk(m, pos_of(s0[j])) {
                    assert(carries(before, before.len() as int, pos_of(s0[j])));
                    let k = choose|k: int|
                        0 <= k < before.len() && pos_of(#[trigger] before[k]) == pos_of(s0[j]);
                    assert(after[k] == before[k]);
                    assert(0 <= k < after.len() && pos_of(after[k]) == pos_of(s0[j]));
                }
                if carries(after, after.len() as int, pos_of(s0[j])) {
                    let k = choose|k: int|
                        0 <= k < after.len() && pos_of(#[trigger] after[k]) == pos_of(s0[j]);
                    if k == after.len() - 1 {
                        assert(pos_of(s0[j]) != pos_of(s0[i]));
                        assert(false);
                    } else {
                        assert(after[k] == before[k]);
                        assert(0 <= k < before.len() && pos_of(before[k]) == pos_of(s0[j]));
                        assert(carries(before, before.len() as int, pos_of(s0[j])));
                    }
                }
            }
        }
        assert forall|k: int| 0 <= k < after.len() implies stepped_chunk(
            m,
            pos_of(#[trigger] after[k]),
            after[k],
        ) by {
            if k < before.len() {
                assert(after[k] == before[k]);
                assert(stepped_chunk(m, pos_of(before[k]), before[k]));
            } else {
                assert(after[k] == c);
            }
        }
    } else {
        assert forall|j: int| 0 <= j < i + 1 implies (keeps_chunk(m, #[trigger] pos_of(s0[j]))
            <==> carries(after, after.len() as int, pos_of(s0[j]))) by {
            if j == i {
                if carries(after, after.len() as int, pos_of(s0[j])) {
                    let k = choose|k: int|
                        0 <= k < after.len() && pos_of(#[trigger] after[k]) == pos_of(s0[j]);
                    assert(pos_of(before[k]) != p);
                    assert(false);
                }
            } else {
                assert(carries(after, after.len() as int, pos_of(s0[j])) == carries(
                    before,
                    before.len() as int,
                    pos_of(s0[j]),
                ));
            }
        }
    }
}

/// The surviving chunks stand exactly for the kept part of the prior
/// state, each advanced one generation.
proof fn lemma_kept_map(m: Map<(int, int), Chunk>, s0: Seq<Chunk>, sk: Seq<Chunk>)
    requires
        distinct_positions(s0),
        distinct_positions(sk),
        m == seq_to_map(s0),
        stepped_covered(s0, s0.len() as int, sk),
        stepped_keeps(m, s0, s0.len() as int, sk),
        stepped_good(m, sk),
    ensures
        forall|q: (int, int)|
            #[trigger] seq_to_map(sk).contains_key(q) <==> (m.contains_key(q) && keeps_chunk(m, q)),
        forall|q: (int, int)|
            #[trigger] seq_to_map(sk).contains_key(q) ==> stepped_chunk(m, q, seq_to_map(sk)[q]),
{
    lemma_seq_to_map_props(s0);
    lemma_seq_to_map_props(sk);
    assert forall|q: (int, int)| true implies (#[trigger] seq_to_map(sk).contains_key(q) <==> (
    m.contains_key(q) && keeps_chunk(m, q))) by {
        if seq_to_map(sk).contains_key(q) {
            let k = choose|k: int| 0 <= k < sk.len() && pos_of(sk[k]) == q;
            assert(carries(s0, s0.len() as int, pos_of(sk[k])));
            let j = choose|j: int| 0 <= j < s0.len() && pos_of(#[trigger] s0[j]) == pos_of(sk[k]);
            assert(m.contains_key(q));
            assert(keeps_chunk(m, pos_of(s0[j])) <==> carries(sk, sk.len() as int, pos_of(s0[j])));
            assert(0 <= k < sk.len() && pos_of(sk[k]) == pos_of(s0[j]));
            assert(carries(sk, sk.len() as int, pos_of(s0[j])));
            assert(keeps_chunk(m, q));
        }
        if m.contains_key(q) && keeps_chunk(m, q) {
            let j = choose|j: int| 0 <= j < s0.len() && pos_of(s0[j]) == q;
            assert(keeps_chunk(m, pos_of(s0[j])));
            assert(carries(sk, sk.len() as int, pos_of(s0[j])));
            let k = choose|k: int| 0 <= k < sk.len() && pos_of(#[trigger] sk[k]) == pos_of(s0[j]);
            assert(seq_to_map(sk).contains_key(q));
        }
    }
    assert forall|q: (int, int)| #[trigger] seq_to_map(sk).contains_key(q) implies stepped_chunk(
        m,
        q,
        seq_to_map(sk)[q],
    ) by {
        let k = choose|k: int| 0 <= k < sk.len() && pos_of(sk[k]) == q;
        assert(seq_to_map(sk)[pos_of(sk[k])] == sk[k]);
        assert(stepped_chunk(m, pos_of(sk[k]), sk[k]));
    }
}

/// A cell of the unpartitioned plane, addressed in world coordinates:
/// world cell (wx, wy) lies at column wx mod 8 of row 7 - (wy mod 8) in
/// the chunk at (wx / 8, wy / 8), divisions rounding toward negative
/// infinity; an absent chunk reads as all dead. This is the one
/// coordinate convention the whole crate uses: world y grows upward,
/// grid rows count downward from the top.
pub open spec fn world_cell(m: Map<(int, int), Chunk>, wx: int, wy: int) -> bool {
    let q = (wx / 8, wy / 8);
    if m.contains_key(q) {
        cell(m[q].chunk@, wx % 8, 7 - wy % 8)
    } else {
        false
    }
}

/// Live cells among the 3x3 world-coordinate neighborhood of (wx, wy),
/// the cell itself included.
pub open spec fn world_live_count(m: Map<(int, int), Chunk>, wx: int, wy: int) -> int {
    crate::chunk::b2i(world_cell(m, wx - 1, wy - 1)) + crate::chunk::b2i(world_cell(m, wx, wy - 1))
        + crate::chunk::b2i(world_cell(m, wx + 1, wy - 1)) + crate::chunk::b2i(
        world_cell(m, wx - 1, wy),
    ) + crate::chunk::b2i(world_cell(m, wx, wy)) + crate::chunk::b2i(world_cell(m, wx + 1, wy))
        + crate::chunk::b2i(world_cell(m, wx - 1, wy + 1)) + crate::chunk::b2i(
        world_cell(m, wx, wy + 1),
    ) + crate::chunk::b2i(world_cell(m, wx + 1, wy + 1))
}

/// The transition rule applied on the unpartitioned plane.
pub open spec fn world_next(m: Map<(int, int), Chunk>, wx: int, wy: int) -> bool {
    if world_cell(m, wx, wy) {
        world_live_count(m, wx, wy) == 3 || world_live_count(m, wx, wy) == 4
    } else {
        world_live_count(m, wx, wy) == 3
    }
}

/// Window coordinate (x, y) of the chunk at `p` names world cell
/// (8 p.x + x, 8 p.y + 7 - y): the chunked window read and the
/// unpartitioned plane agree cell for cell, across chunk borders.
pub proof fn lemma_world_cell(m: Map<(int, int), Chunk>, p: (int, int), x: int, y: int)
    requires
        -1 <= x <= 8,
        -1 <= y <= 8,
    ensures
        wcell(m, p, x, y) == world_cell(m, 8 * p.0 + x, 8 * p.1 + 7 - y),
{
    let wx = 8 * p.0 + x;
    let wy = 8 * p.1 + 7 - y;
    if x < 0 {
        vstd::arithmetic::div_mod::lemma_fundamental_div_mod_converse(wx, 8, p.0 - 1, x + 8);
    } else if x > 7 {
        vstd::arithmetic::div_mod::lemma_fundamental_div_mod_converse(wx, 8, p.0 + 1, x - 8);
    } else {
        vstd::arithmetic::div_mod::lemma_fundamental_div_mod_converse(wx, 8, p.0, x);
    }
    if y < 0 {
        vstd::arithmetic::div_mod::lemma_fundamental_div_mod_converse(wy, 8, p.1 + 1, (7 - y) - 8);
    } else if y > 7 {
        vstd::arithmetic::div_mod::lemma_fundamental_div_mod_converse(wy, 8, p.1 - 1, 15 - y);
    } else {
        vstd::arithmetic::div_mod::lemma_fundamental_div_mod_converse(wy, 8, p.1, 7 - y);
    }
}

/// Boundary correctness: one chunk generation, with its Edges assembled
/// from the whole state, equals the transition rule evaluated on the
/// unpartitioned plane at the cell's world coordinate.
pub proof fn lemma_step_matches_plane(m: Map<(int, int), Chunk>, p: (int, int), x: int, y: int)
    requires
        m.contains_key(p),
        0 <= x < 8,
        0 <= y < 8,
    ensures
        wnext_cell(m, p, x, y) == world_next(m, 8 * p.0 + x, 8 * p.1 + 7 - y),
{
    let wx = 8 * p.0 + x;
    let wy = 8 * p.1 + 7 - y;
    lemma_world_cell(m, p, x, y);
    lemma_world_cell(m, p, x - 1, y - 1);
    lemma_world_cell(m, p, x, y - 1);
    lemma_world_cell(m, p, x + 1, y - 1);
    lemma_world_cell(m, p, x - 1, y);
    lemma_world_cell(m, p, x + 1, y);
    lemma_world_cell(m, p, x - 1, y + 1);
    lemma_world_cell(m, p, x, y + 1);
    lemma_world_cell(m, p, x + 1, y + 1);
    assert(8 * p.0 + (x - 1) == wx - 1 && 8 * p.0 + (x + 1) == wx + 1);
    assert(8 * p.1 + 7 - (y - 1) == wy + 1 && 8 * p.1 + 7 - (y + 1) == wy - 1);
    assert(wlive_count(m, p, x, y) == world_live_count(m, wx, wy));
}

/// A chunk holding no live cell under an all-dead ring is dropped by
/// the generation: its step leaves it inactive, so it is removed, and it
/// can reappear only as a fresh empty chunk re-created by a neighbor's
/// activation signal.
pub proof fn lemma_empty_chunk_removed(m: Map<(int, int), Chunk>, p: (int, int))
    requires
        m.contains_key(p),
        grid_empty(m[p].chunk@),
        wedges_empty(m, p),
    ensures
        !keeps_chunk(m, p),
{
    crate::chunk::lemma_grid_empty_cells(m[p].chunk@);
    assert forall|x: int, y: int| -1 <= x <= 8 && -1 <= y <= 8 implies !wcell(m, p, x, y) by {
        if 0 <= x < 8 && 0 <= y < 8 {
            assert(!cell(m[p].chunk@, x, y));
        }
    }
    assert forall|x: int, y: int| 0 <= x < 8 && 0 <= y < 8 implies !wnext_cell(m, p, x, y) by {
        assert(!wcell(m, p, x - 1, y - 1) && !wcell(m, p, x, y - 1) && !wcell(m, p, x + 1, y - 1)
            && !wcell(m, p, x - 1, y) && !wcell(m, p, x, y) && !wcell(m, p, x + 1, y) && !wcell(
            m,
            p,
            x - 1,
            y + 1,
        ) && !wcell(m, p, x, y + 1) && !wcell(m, p, x + 1, y + 1));
        assert(wlive_count(m, p, x, y) == 0);
    }
    assert(wnext_grid_empty(m, p));
}

/// Finds the chunk carrying a coordinate in a chunk sequence.
fn find_chunk(map: &Vec<Chunk>, pos: [i32; 2]) -> (r: Option<&Chunk>)
    requires
        distinct_positions(map@),
    ensures
        match r {
            Some(c) => seq_to_map(map@).contains_key((pos[0] as int, pos[1] as int)) && *c
                == seq_to_map(map@)[(pos[0] as int, pos[1] as int)],
            None => !seq_to_map(map@).contains_key((pos[0] as int, pos[1] as int)),
        },
{
    let ghost p = (pos[0] as int, pos[1] as int);
    let mut i: usize = 0;
    while i < map.len()
        invariant
            distinct_positions(map@),
            p == (pos[0] as int, pos[1] as int),
            i <= map@.len(),
            forall|j: int| 0 <= j < i ==> pos_of(map@[j]) != p,
        decreases map@.len() - i,
    {
        if map[i].pos[0] == pos[0] && map[i].pos[1] == pos[1] {
            proof {
                lemma_seq_to_map_index(map@, i as int);
            }
            return Some(&map[i]);
        }
        i = i + 1;
    }
    proof {
        lemma_seq_to_map_contains(map@, p);
    }
    None
}

/// The sparse world: every tracked chunk, keyed by its coordinate.
pub struct Game {
    /// The chunk collection; an invariant of every operation is that the
    /// chunks carry pairwise distinct coordinates.
    pub map: Vec<Chunk>,
}

impl View for Game {
    type V = Map<(int, int), Chunk>;

    open spec fn view(&self) -> Map<(int, int), Chunk> {
        seq_to_map(self.map@)
    }
}

impl Game {
    /// Coordinates are pairwise distinct, and each chunk sits under its
    /// own coordinate.
    pub open spec fn wf(&self) -> bool {
        distinct_positions(self.map@)
    }

    /// A world holding one empty chunk at the origin.
    pub fn new() -> (r: Game)
        ensures
            r.wf(),
            r@ =~= Map::empty().insert((0int, 0int), r@[(0int, 0int)]),
            r@.contains_key((0int, 0int)),
            grid_empty(r@[(0int, 0int)].chunk@),
            r@[(0int, 0int)].active,
    {
        let mut map: Vec<Chunk> = Vec::new();
        let c = Chunk::new([0, 0]);
        map.push(c);
        proof {
            lemma_seq_to_map_empty();
            lemma_seq_to_map_push(Seq::<Chunk>::empty(), c);
            assert(map@ == Seq::<Chunk>::empty().push(c));
        }
        Game { map }
    }

    /// A world holding one chunk at the origin with the given grid.
    pub fn from(chunk: [u8; 8]) -> (r: Game)
        ensures
            r.wf(),
            r@ =~= Map::empty().insert((0int, 0int), r@[(0int, 0int)]),
            r@.contains_key((0int, 0int)),
            r@[(0int, 0int)].chunk@ == chunk@,
            r@[(0int, 0int)].active,
            r@[(0int, 0int)].pos == [0i32, 0i32],
    {
        Game::from_chunk(Chunk::from([0, 0], chunk))
    }

    /// A world holding the given chunk under the origin coordinate. The
    /// chunk must carry the origin as its own coordinate.
    pub fn from_chunk(chunk: Chunk) -> (r: Game)
        requires
            chunk.pos == [0i32, 0i32],
        ensures
            r.wf(),
            r@ =~= Map::empty().insert((0int, 0int), chunk),
    {
        let mut map: Vec<Chunk> = Vec::new();
        map.push(chunk);
        proof {
            lemma_seq_to_map_empty();
            lemma_seq_to_map_push(Seq::<Chunk>::empty(), chunk);
            assert(map@ == Seq::<Chunk>::empty().push(chunk));
            assert(pos_of(chunk) == (0int, 0int));
        }
        Game { map }
    }

    /// Looks a coordinate up; absence is not an error, it stands for the
    /// all-dead plane there.
    pub fn get_chunk(&self, pos: [i32; 2]) -> (r: Option<&Chunk>)
        requires
            self.wf(),
        ensures
            match r {
                Some(c) => self@.contains_key((pos[0] as int, pos[1] as int)) && *c == self@[(
                    pos[0] as int,
                    pos[1] as int,
                )],
                None => !self@.contains_key((pos[0] as int, pos[1] as int)),
            },
    {
        find_chunk(&self.map, pos)
    }

    /// Inserts a chunk under its coordinate, replacing any chunk already
    /// there. The key and the chunk's own coordinate must agree.
    pub fn insert_chunk(&mut self, pos: [i32; 2], chunk: Chunk)
        requires
            old(self).wf(),
            chunk.pos == pos,
        ensures
            final(self).wf(),
            final(self)@ =~= old(self)@.insert((pos[0] as int, pos[1] as int), chunk),
    {
        let ghost p = (pos[0] as int, pos[1] as int);
        proof {
            lemma_seq_to_map_props(self.map@);
            assert(pos_of(chunk) == p);
        }
        let ghost s0 = self.map@;
        let mut i: usize = 0;
        while i < self.map.len()
            invariant
                self.map@ == s0,
                s0 == old(self).map@,
                distinct_positions(s0),
                p == (pos[0] as int, pos[1] as int),
                pos_of(chunk) == p,
                i <= s0.len(),
                forall|j: int| 0 <= j < i ==> pos_of(s0[j]) != p,
            decreases s0.len() - i,
        {
            if self.map[i].pos[0] == pos[0] && self.map[i].pos[1] == pos[1] {
                self.map[i] = chunk;
                proof {
                    let s1 = self.map@;
                    assert(s1 == s0.update(i as int, chunk));
                    assert(pos_of(s0[i as int]) == p);
                    assert(s1[i as int] == chunk);
                    assert(pos_of(s1[i as int]) == p);
                    assert(old(self)@ == seq_to_map(s0));
                    assert(distinct_positions(s1)) by {
                        assert(forall|k: int|
                            0 <= k < s1.len() && k != i ==> s1[k] == s0[k] && pos_of(s1[k])
                                != pos_of(s0[i as int]));
                    }
                    lemma_seq_to_map_props(s1);
                    assert forall|q: (int, int)| true implies seq_to_map(s1).contains_key(q)
                        == old(self)@.insert(p, chunk).contains_key(q) by {
                        lemma_seq_to_map_contains(s1, q);
                        lemma_seq_to_map_contains(s0, q);
                        if q == p {
                            assert(0 <= i < s1.len() && pos_of(s1[i as int]) == q);
                        }
                        if exists|k: int| 0 <= k < s0.len() && pos_of(s0[k]) == q {
                            let k = choose|k: int| 0 <= k < s0.len() && pos_of(s0[k]) == q;
                            if k == i {
                                assert(pos_of(s1[k]) == p);
                            } else {
                                assert(pos_of(s1[k]) == q);
                            }
                        }
                        if exists|k: int| 0 <= k < s1.len() && pos_of(s1[k]) == q {
                            let k = choose|k: int| 0 <= k < s1.len() && pos_of(s1[k]) == q;
                            if k == i {
                                assert(q == p);
                            } else {
                                assert(pos_of(s0[k]) == q);
                            }
                        }
                    }
                    assert forall|q: (int, int)| seq_to_map(s1).contains_key(q) implies seq_to_map(
                        s1,
                    )[q] == old(self)@.insert(p, chunk)[q] by {
                        lemma_seq_to_map_contains(s1, q);
                        let k = choose|k: int| 0 <= k < s1.len() && pos_of(s1[k]) == q;
                        lemma_seq_to_map_index(s1, k);
                        if q == p {
                            assert(k == i) by {
                                if k != i {
                                    assert(pos_of(s0[k]) == p);
                                }
                            }
                        } else {
                            assert(k != i);
                            lemma_seq_to_map_index(s0, k);
                        }
                    }
                    assert(seq_to_map(s1) =~= old(self)@.insert(p, chunk));
                }
                return ;
            }
            i = i + 1;
        }
        self.map.push(chunk);
        proof {
            let s1 = self.map@;
            assert(s1 == s0.push(chunk));
            lemma_seq_to_map_push(s0, chunk);
            assert(distinct_positions(s1)) by {
                assert(forall|k: int| 0 <= k < s0.len() ==> pos_of(s0[k]) != p);
                assert(forall|k: int| 0 <= k < s1.len() - 1 ==> s1[k] == s0[k]);
            }
        }
    }

    /// Removes the chunk at a coordinate, if one is there; an absent
    /// coordinate is not an error.
    pub fn remove_chunk(&mut self, pos: [i32; 2])
        requires
            old(self).wf(),
        ensures
            final(self).wf(),
            final(self)@ =~= old(self)@.remove((pos[0] as int, pos[1] as int)),
    {
        let ghost p = (pos[0] as int, pos[1] as int);
        let ghost s0 = self.map@;
        let mut i: usize = 0;
        while i < self.map.len()
            invariant
                self.map@ == s0,
                s0 == old(self).map@,
                distinct_positions(s0),
                p == (pos[0] as int, pos[1] as int),
                i <= s0.len(),
                forall|j: int| 0 <= j < i ==> pos_of(s0[j]) != p,
            decreases s0.len() - i,
        {
            if self.map[i].pos[0] == pos[0] && self.map[i].pos[1] == pos[1] {
                proof {
                    assert(pos_of(s0[i as int]) == p);
                }
                self.map.remove(i);
                proof {
                    lemma_seq_to_map_remove(s0, i as int);
                }
                return ;
            }
            i = i + 1;
        }
        proof {
            lemma_seq_to_map_contains(s0, p);
            assert(!old(self)@.contains_key(p));
            assert(self@ =~= old(self)@.remove(p));
        }
    }

    /// Read access to every tracked chunk. Each returned chunk is the one
    /// its coordinate maps to, and every tracked coordinate occurs once.
    pub fn chunks(&self) -> (r: &Vec<Chunk>)
        requires
            self.wf(),
        ensures
            r@ == self.map@,
            distinct_positions(r@),
            forall|i: int|
                0 <= i < r@.len() ==> self@.contains_key(#[trigger] pos_of(r@[i])) && self@[pos_of(
                    r@[i],
                )] == r@[i],
            forall|p: (int, int)|
                #[trigger] self@.contains_key(p) ==> exists|i: int|
                    0 <= i < r@.len() && pos_of(r@[i]) == p,
    {
        proof {
            lemma_seq_to_map_props(self.map@);
        }
        &self.map
    }

    /// Assembles the boundary words for the chunk at `pos` from the
    /// current state, with the given corner mask passed through.
    pub fn edges(&self, pos: [i32; 2], corners: u8) -> (r: Edges)
        requires
            self.wf(),
            i32::MIN < pos[0] < i32::MAX,
            i32::MIN < pos[1] < i32::MAX,
        ensures
            edges_match(self@, (pos[0] as int, pos[1] as int), r),
            r.corners == corners,
    {
        Game::edges_from_map(&self.map, pos, corners)
    }

    /// Assembles the boundary words for the chunk at `pos` from a
    /// snapshot of the chunk collection.
    pub fn edges_from_map(map: &Vec<Chunk>, pos: [i32; 2], corners: u8) -> (r: Edges)
        requires
            distinct_positions(map@),
            i32::MIN < pos[0] < i32::MAX,
            i32::MIN < pos[1] < i32::MAX,
        ensures
            edges_match(seq_to_map(map@), (pos[0] as int, pos[1] as int), r),
            r.corners == corners,
    {
        let left = match find_chunk(map, [pos[0] - 1, pos[1]]) {
            Some(j) => j.right(),
            None => 0,
        };
        let right = match find_chunk(map, [pos[0] + 1, pos[1]]) {
            Some(j) => j.left(),
            None => 0,
        };
        let top = match find_chunk(map, [pos[0], pos[1] + 1]) {
            Some(j) => j.bottom(),
            None => 0,
        };
        let bottom = match find_chunk(map, [pos[0], pos[1] - 1]) {
            Some(j) => j.top(),
            None => 0,
        };
        Edges { left, right, top, bottom, corners }
    }

    /// Packs the four diagonal neighbors' nearest corner cells of the
    /// chunk at `pos` into a 4-bit mask, from the current state.
    pub fn corners(&self, pos: [i32; 2]) -> (r: u8)
        requires
            self.wf(),
            i32::MIN < pos[0] < i32::MAX,
            i32::MIN < pos[1] < i32::MAX,
        ensures
            corners_match(self@, (pos[0] as int, pos[1] as int), r),
    {
        let c0 = match self.get_chunk([pos[0] - 1, pos[1] - 1]) {
            Some(i) => i.get_bit_at_point((7, 0)),
            None => false,
        };
        let c1 = match self.get_chunk([pos[0] + 1, pos[1] - 1]) {
            Some(i) => i.get_bit_at_point((0, 0)),
            None => false,
        };
        let c2 = match self.get_chunk([pos[0] - 1, pos[1] + 1]) {
            Some(i) => i.get_bit_at_point((7, 7)),
            None => false,
        };
        let c3 = match self.get_chunk([pos[0] + 1, pos[1] + 1]) {
            Some(i) => i.get_bit_at_point((0, 7)),
            None => false,
        };
        let mut out: u8 = 0;
        proof {
            assert forall|m: u8| m < 8 implies !bit(out, m) by {
                crate::bits::lemma_bit_zero(m);
            }
        }
        if c0 {
            out = crate::bits::or_bit(out, 0);
        }
        assert(forall|m: u8| m < 8 ==> bit(out, m) == (m == 0 && c0));
        if c1 {
            out = crate::bits::or_bit(out, 1);
        }
        assert(forall|m: u8| m < 8 ==> bit(out, m) == (m == 0 && c0 || m == 1 && c1));
        if c2 {
            out = crate::bits::or_bit(out, 2);
        }
        assert(forall|m: u8| m < 8 ==> bit(out, m) == (m == 0 && c0 || m == 1 && c1 || m == 2
            && c2));
        if c3 {
            out = crate::bits::or_bit(out, 3);
        }
        assert(forall|m: u8| m < 8 ==> bit(out, m) == (m == 0 && c0 || m == 1 && c1 || m == 2 && c2
            || m == 3 && c3));
        out
    }

    /// Replaces the grid of the chunk at a coordinate that must be
    /// present; a missing coordinate is a caller error.
    pub fn set_chunk(&mut self, pos: [i32; 2], chunk: [u8; 8])
        requires
            old(self).wf(),
            old(self)@.contains_key((pos[0] as int, pos[1] as int)),
        ensures
            final(self).wf(),
            final(self)@ =~= old(self)@.insert(
                (pos[0] as int, pos[1] as int),
                final(self)@[(pos[0] as int, pos[1] as int)],
            ),
            final(self)@[(pos[0] as int, pos[1] as int)].chunk@ == chunk@,
            final(self)@[(pos[0] as int, pos[1] as int)].pos == old(self)@[(
                pos[0] as int,
                pos[1] as int,
            )].pos,
            final(self)@[(pos[0] as int, pos[1] as int)].active == old(self)@[(
                pos[0] as int,
                pos[1] as int,
            )].active,
    {
        let ghost p = (pos[0] as int, pos[1] as int);
        let found = self.get_chunk(pos);
        let mut c: Chunk = *found.unwrap();
        c.set(chunk);
        proof {
            lemma_seq_to_map_props(self.map@);
            let i = choose|i: int| 0 <= i < self.map@.len() && pos_of(self.map@[i]) == p;
            lemma_seq_to_map_index(self.map@, i);
            assert(c.pos == self.map@[i].pos);
            assert(c.pos@[0] == pos@[0] && c.pos@[1] == pos@[1]);
            assert(c.pos =~= pos);
        }
        self.insert_chunk(pos, c);
    }

    /// Advances every chunk of the snapshot one generation against its
    /// precomputed boundary context, returning the surviving chunks and
    /// every raised activation target.
    fn advance_chunks(map: &Vec<Chunk>, edge_list: &Vec<Edges>) -> (r: (Vec<Chunk>, Vec<[i32; 2]>))
        requires
            distinct_positions(map@),
            forall|j: int| 0 <= j < map@.len() ==> pos_in_range(#[trigger] pos_of(map@[j])),
            edge_list@.len() == map@.len(),
            forall|j: int|
                0 <= j < map@.len() ==> edges_match(
                    seq_to_map(map@),
                    pos_of(map@[j]),
                    #[trigger] edge_list@[j],
                ) && corners_match(seq_to_map(map@), pos_of(map@[j]), edge_list@[j].corners),
        ensures
            distinct_positions(r.0@),
            stepped_covered(map@, map@.len() as int, r.0@),
            stepped_keeps(seq_to_map(map@), map@, map@.len() as int, r.0@),
            stepped_good(seq_to_map(map@), r.0@),
            acts_sound(seq_to_map(map@), map@, map@.len() as int, r.1@),
            acts_complete(seq_to_map(map@), map@, map@.len() as int, r.1@),
    {
        let ghost m = seq_to_map(map@);
        let ghost s0 = map@;
        let n = map.len();
        let mut stepped: Vec<Chunk> = Vec::new();
        let mut acts: Vec<[i32; 2]> = Vec::new();
        let mut i: usize = 0;
        while i < n
            invariant
                map@ == s0,
                distinct_positions(s0),
                m == seq_to_map(s0),
                n == s0.len(),
                i <= n,
                forall|j: int| 0 <= j < s0.len() ==> pos_in_range(#[trigger] pos_of(s0[j])),
                edge_list@.len() == n,
                forall|j: int|
                    0 <= j < n ==> edges_match(m, pos_of(s0[j]), #[trigger] edge_list@[j])
                        && corners_match(m, pos_of(s0[j]), edge_list@[j].corners),
                distinct_positions(stepped@),
                stepped_covered(s0, i as int, stepped@),
                stepped_keeps(m, s0, i as int, stepped@),
                stepped_good(m, stepped@),
                acts_sound(m, s0, i as int, acts@),
                acts_complete(m, s0, i as int, acts@),
            decreases n - i,
        {
            let mut c = map[i];
            let e = edge_list[i];
            let ghost p = pos_of(s0[i as int]);
            proof {
                lemma_seq_to_map_index(s0, i as int);
                assert(m[p] == s0[i as int]);
            }
            let mask = c.iterate(&e);
            proof {
                lemma_step_summary(m, p, s0[i as int], c, e, mask);
                assert(apos(c.pos) == p);
            }
            let ghost acts_before = acts@;
            Game::interpret_activations(mask, &mut acts, c.pos);
            proof {
                lemma_acts_extend(m, s0, i as int, c.pos, mask, acts_before, acts@);
            }
            let ghost stepped_before = stepped@;
            if c.active {
                stepped.push(c);
            }
            proof {
                lemma_stepped_extend(m, s0, i as int, c, stepped_before, stepped@);
            }
            i = i + 1;
        }
        (stepped, acts)
    }

    /// Creates an empty chunk at every listed coordinate that is not
    /// already present; present coordinates are left untouched.
    fn apply_activations(&mut self, acts: &Vec<[i32; 2]>)
        requires
            old(self).wf(),
        ensures
            final(self).wf(),
            forall|q: (int, int)|
                #[trigger] old(self)@.contains_key(q) ==> final(self)@.contains_key(q)
                    && final(self)@[q] == old(self)@[q],
            forall|q: (int, int)|
                #[trigger] final(self)@.contains_key(q) <==> (old(self)@.contains_key(q) || exists|
                    u: int,
                |
                    0 <= u < acts@.len() && apos(acts@[u]) == q),
            forall|q: (int, int)|
                #[trigger] final(self)@.contains_key(q) && !old(self)@.contains_key(q)
                    ==> fresh_chunk(q, final(self)@[q]),
    {
        let ghost k_map = self@;
        let ghost ga = acts@;
        let mut t: usize = 0;
        while t < acts.len()
            invariant
                acts@ == ga,
                self.wf(),
                k_map == old(self)@,
                t <= ga.len(),
                forall|q: (int, int)|
                    #[trigger] k_map.contains_key(q) ==> self@.contains_key(q) && self@[q]
                        == k_map[q],
                forall|q: (int, int)|
                    #[trigger] self@.contains_key(q) <==> (k_map.contains_key(q) || exists|u: int|
                        0 <= u < t && apos(ga[u]) == q),
                forall|q: (int, int)|
                    #[trigger] self@.contains_key(q) && !k_map.contains_key(q) ==> fresh_chunk(
                        q,
                        self@[q],
                    ),
            decreases ga.len() - t,
        {
            let a = acts[t];
            let ghost view_before = self@;
            let absent = self.get_chunk(a).is_none();
            if absent {
                let c = Chunk::new(a);
                self.insert_chunk(a, c);
                proof {
                    assert(pos_of(c) == apos(a));
                    assert(fresh_chunk(apos(a), c));
                    assert(self@ =~= view_before.insert(apos(a), c));
                }
            }
            proof {
                assert(apos(ga[t as int]) == apos(a));
                assert forall|q: (int, int)| true implies (#[trigger] self@.contains_key(q) <==> (
                k_map.contains_key(q) || exists|u: int| 0 <= u < t + 1 && apos(ga[u]) == q)) by {
                    if self@.contains_key(q) {
                        if view_before.contains_key(q) {
                            if !k_map.contains_key(q) {
                                let u = choose|u: int| 0 <= u < t && apos(ga[u]) == q;
                                assert(0 <= u < t + 1 && apos(ga[u]) == q);
                            }
                        } else {
                            assert(q == apos(a));
                            assert(0 <= t < t + 1 && apos(ga[t as int]) == q);
                        }
                    }
                    if k_map.contains_key(q) || exists|u: int| 0 <= u < t + 1 && apos(ga[u]) == q {
                        if !self@.contains_key(q) {
                            assert(!k_map.contains_key(q));
                            let u = choose|u: int| 0 <= u < t + 1 && apos(ga[u]) == q;
                            assert(u == t);
                            assert(!view_before.contains_key(q));
                            assert(absent ==> self@.contains_key(apos(a)));
                            assert(!absent ==> view_before.contains_key(apos(a)));
                            assert(false);
                        }
                    }
                }
            }
            t = t + 1;
        }
    }

    /// One synchronous generation over the whole world. Every present
    /// chunk advances against a snapshot of the prior state; chunks left
    /// inactive are removed; each raised activation signal whose target
    /// is absent afterwards creates an empty chunk there, which first
    /// takes part in the following generation.
    pub fn iterate(&mut self)
        requires
            old(self).wf(),
            forall|p: (int, int)| #[trigger] old(self)@.contains_key(p) ==> pos_in_range(p),
        ensures
            final(self).wf(),
            forall|p: (int, int)|
                #[trigger] final(self)@.contains_key(p) <==> ((old(self)@.contains_key(p)
                    && keeps_chunk(old(self)@, p)) || activated(old(self)@, p)),
            forall|p: (int, int)|
                old(self)@.contains_key(p) && #[trigger] keeps_chunk(old(self)@, p)
                    ==> stepped_chunk(old(self)@, p, final(self)@[p]),
            forall|p: (int, int)|
                #[trigger] final(self)@.contains_key(p) && !(old(self)@.contains_key(p)
                    && keeps_chunk(old(self)@, p)) ==> fresh_chunk(p, final(self)@[p]),
    {
        let ghost m = self@;
        let ghost s0 = self.map@;
        proof {
            lemma_seq_to_map_props(s0);
            assert forall|j: int| 0 <= j < s0.len() implies pos_in_range(
                #[trigger] pos_of(s0[j]),
            ) by {
                assert(m.contains_key(pos_of(s0[j])));
            }
        }
        let n = self.map.len();
        let mut edge_list: Vec<Edges> = Vec::new();
        let mut i: usize = 0;
        while i < n
            invariant
                self.map@ == s0,
                distinct_positions(s0),
                m == seq_to_map(s0),
                n == s0.len(),
                i <= n,
                forall|j: int| 0 <= j < s0.len() ==> pos_in_range(#[trigger] pos_of(s0[j])),
                edge_list@.len() == i,
                forall|j: int|
                    0 <= j < i ==> edges_match(m, pos_of(s0[j]), #[trigger] edge_list@[j])
                        && corners_match(m, pos_of(s0[j]), edge_list@[j].corners),
            decreases n - i,
        {
            let pos = self.map[i].pos;
            proof {
                assert(apos(pos) == pos_of(s0[i as int]));
            }
            let cw = self.corners(pos);
            let e = self.edges(pos, cw);
            edge_list.push(e);
            i = i + 1;
        }
        let pair = Game::advance_chunks(&self.map, &edge_list);
        let stepped = pair.0;
        let acts = pair.1;
        let ghost sk = stepped@;
        self.map = stepped;
        proof {
            lemma_kept_map(m, s0, sk);
        }
        let ghost k_map = self@;
        self.apply_activations(&acts);
        proof {
            assert forall|p: (int, int)|
                m.contains_key(p) && #[trigger] keeps_chunk(m, p) implies stepped_chunk(
                m,
                p,
                final(self)@[p],
            ) by {
                assert(k_map.contains_key(p));
                assert(stepped_chunk(m, p, k_map[p]));
                assert(final(self)@[p] == k_map[p]);
            }
            assert forall|q: (int, int)| true implies (#[trigger] final(self)@.contains_key(q)
                <==> ((m.contains_key(q) && keeps_chunk(m, q)) || activated(m, q))) by {
                if self@.contains_key(q) && !k_map.contains_key(q) {
                    let u = choose|u: int| 0 <= u < acts@.len() && apos(acts@[u]) == q;
                    let (j, nn) = choose|j: int, nn: u8|
                        0 <= j < s0.len() && activation_from(m, pos_of(s0[j]), nn) && dir_target(
                            pos_of(s0[j]),
                            nn,
                        ) == apos(acts@[u]);
                    assert(activation_from(m, pos_of(s0[j]), nn) && dir_target(pos_of(s0[j]), nn)
                        == q);
                    assert(activated(m, q));
                }
                if activated(m, q) && !k_map.contains_key(q) {
                    let (pp, nn) = choose|pp: (int, int), nn: u8|
                        activation_from(m, pp, nn) && dir_target(pp, nn) == q;
                    let j = choose|j: int| 0 <= j < s0.len() && pos_of(s0[j]) == pp;
                    assert(activation_from(m, pos_of(s0[j]), nn));
                    let t0 = choose|t0: int|
                        0 <= t0 < acts@.len() && apos(acts@[t0]) == dir_target(pos_of(s0[j]), nn);
                    assert(0 <= t0 < acts@.len() && apos(acts@[t0]) == q);
                    assert(self@.contains_key(q));
                }
            }
        }
    }

    /// Splits one world-space axis value into its chunk coordinate and
    /// its offset inside that chunk: the division rounds toward negative
    /// infinity, so every eight consecutive world cells share a chunk.
    fn world_split(w: i64) -> (r: (i32, u8))
        requires
            8 * (i32::MIN as int) <= w < 8 * (i32::MAX as int + 1),
        ensures
            r.0 as int == (w as int) / 8,
            r.1 as int == (w as int) % 8,
            r.1 < 8,
    {
        let off: i64 = 8 * (i32::MIN as i64);
        let u: u64 = (w - off) as u64;
        let q: u64 = u / 8;
        let rr: u64 = u % 8;
        let cq: i64 = (q as i64) + (i32::MIN as i64);
        proof {
            assert(u == w - off);
            assert(u == 8 * q + rr && rr < 8);
            assert(w == 8 * cq + rr);
            vstd::arithmetic::div_mod::lemma_fundamental_div_mod_converse(
                w as int,
                8,
                cq as int,
                rr as int,
            );
            assert(i32::MIN <= cq <= i32::MAX);
        }
        (cq as i32, rr as u8)
    }

    /// Resolves a world-space cell address to its chunk coordinate and
    /// local cell, creates the chunk if it is absent, and flips that
    /// cell. World-space y grows upward: world cell (wx, wy) is column
    /// wx mod 8 of row 7 - (wy mod 8) in the chunk at (wx/8, wy/8), both
    /// divisions rounding toward negative infinity.
    pub fn toggle(&mut self, wx: i64, wy: i64)
        requires
            old(self).wf(),
            8 * (i32::MIN as int) <= wx < 8 * (i32::MAX as int + 1),
            8 * (i32::MIN as int) <= wy < 8 * (i32::MAX as int + 1),
        ensures
            final(self).wf(),
            ({
                let cp = ((wx as int) / 8, (wy as int) / 8);
                let lx = (wx as int) % 8;
                let ly = 7 - (wy as int) % 8;
                &&& final(self)@.contains_key(cp)
                &&& forall|q: (int, int)|
                    q != cp ==> (#[trigger] final(self)@.contains_key(q) == old(
                        self,
                    )@.contains_key(q) && (old(self)@.contains_key(q) ==> final(self)@[q] == old(
                        self,
                    )@[q]))
                &&& pos_of(final(self)@[cp]) == cp
                &&& final(self)@[cp].active == (if old(self)@.contains_key(cp) {
                    old(self)@[cp].active
                } else {
                    true
                })
                &&& forall|x: int, y: int|
                    0 <= x < 8 && 0 <= y < 8 ==> cell(final(self)@[cp].chunk@, x, y) == (if x == lx
                        && y == ly {
                        !(old(self)@.contains_key(cp) && cell(old(self)@[cp].chunk@, x, y))
                    } else {
                        old(self)@.contains_key(cp) && cell(old(self)@[cp].chunk@, x, y)
                    })
            }),
            world_cell(final(self)@, wx as int, wy as int) == !world_cell(
                old(self)@,
                wx as int,
                wy as int,
            ),
            forall|ax: int, ay: int|
                !(ax == wx as int && ay == wy as int) ==> #[trigger] world_cell(final(self)@, ax, ay)
                    == world_cell(old(self)@, ax, ay),
    {
        let xs = Game::world_split(wx);
        let ys = Game::world_split(wy);
        let lx: u8 = xs.1;
        let ly: u8 = 7 - ys.1;
        let posarr: [i32; 2] = [xs.0, ys.0];
        let ghost cp = ((wx as int) / 8, (wy as int) / 8);
        proof {
            assert(apos(posarr) == cp);
        }
        let found = self.get_chunk(posarr);
        let mut c: Chunk;
        match found {
            Some(cc) => {
                c = *cc;
                proof {
                    lemma_seq_to_map_props(self.map@);
                    let i = choose|i: int|
                        0 <= i < self.map@.len() && pos_of(self.map@[i]) == cp;
                    assert(old(self)@[cp] == self.map@[i]);
                    assert(pos_of(c) == cp);
                    assert(c.pos@[0] == posarr@[0] && c.pos@[1] == posarr@[1]);
                    assert(c.pos =~= posarr);
                }
            },
            None => {
                c = Chunk::new(posarr);
                proof {
                    assert forall|x: int, y: int| 0 <= x < 8 && 0 <= y < 8 implies !cell(
                        c.chunk@,
                        x,
                        y,
                    ) by {
                        crate::bits::lemma_bit_zero(x as u8);
                    }
                }
            },
        }
        c.toggle_bit((lx, ly));
        self.insert_chunk(posarr, c);
        proof {
            let m0 = old(self)@;
            let m1 = self@;
            let lxi = (wx as int) % 8;
            let lyi = 7 - (wy as int) % 8;
            vstd::arithmetic::div_mod::lemma_fundamental_div_mod(wx as int, 8);
            vstd::arithmetic::div_mod::lemma_fundamental_div_mod(wy as int, 8);
            assert(world_cell(m1, wx as int, wy as int) == cell(m1[cp].chunk@, lxi, lyi));
            assert forall|ax: int, ay: int|
                !(ax == wx as int && ay == wy as int) implies #[trigger] world_cell(m1, ax, ay)
                == world_cell(m0, ax, ay) by {
                let q = (ax / 8, ay / 8);
                if q == cp {
                    vstd::arithmetic::div_mod::lemma_fundamental_div_mod(ax, 8);
                    vstd::arithmetic::div_mod::lemma_fundamental_div_mod(ay, 8);
                    if ax % 8 == lxi && 7 - ay % 8 == lyi {
                        assert(ax == 8 * (ax / 8) + ax % 8);
                        assert(wx as int == 8 * cp.0 + lxi);
                        assert(ay == 8 * (ay / 8) + ay % 8);
                        assert(wy as int == 8 * cp.1 + (wy as int) % 8);
                        assert(ax == wx as int && ay == wy as int);
                        assert(false);
                    } else {
                        assert(0 <= ax % 8 < 8 && 0 <= 7 - ay % 8 < 8);
                        assert(cell(m1[cp].chunk@, ax % 8, 7 - ay % 8) == (m0.contains_key(cp)
                            && cell(m0[cp].chunk@, ax % 8, 7 - ay % 8)));
                    }
                }
            }
        }
    }

    /// Turns one chunk's activation mask into the neighbor coordinates
    /// it aims at, appending them to the running list: exactly one
    /// coordinate per set mask column, in column order, the prior list
    /// contents untouched.
    #[verifier::rlimit(100)]
    fn interpret_activations(v: u8, activations: &mut Vec<[i32; 2]>, pos: [i32; 2])
        requires
            pos_in_range(apos(pos)),
        ensures
            appended_targets(old(activations)@, final(activations)@, targets_of(v, apos(pos))),
            forall|t: int|
                old(activations)@.len() <= t < final(activations)@.len() ==> new_target(
                    v,
                    pos,
                    #[trigger] final(activations)@[t],
                ),
            forall|n: u8|
                n < 8 && #[trigger] bit(v, n) ==> target_listed(
                    final(activations)@,
                    dir_target(apos(pos), n),
                ),
    {
        let ghost p = apos(pos);
        let ghost a0 = activations@;
        proof {
            assert(appended_targets(a0, activations@, targets_upto(v, p, 0)));
        }
        if crate::bits::get_bit_at(v, 0) {
            activations.push([pos[0] - 1, pos[1] + 1]);
            proof {
                assert(apos(activations@.last()) == dir_target(p, 0));
            }
        }
        proof {
            assert(appended_targets(a0, activations@, targets_upto(v, p, 1)));
        }
        if crate::bits::get_bit_at(v, 1) {
            activations.push([pos[0], pos[1] + 1]);
            proof {
                assert(apos(activations@.last()) == dir_target(p, 1));
            }
        }
        proof {
            assert(appended_targets(a0, activations@, targets_upto(v, p, 2)));
        }
        if crate::bits::get_bit_at(v, 2) {
            activations.push([pos[0] + 1, pos[1] + 1]);
            proof {
                assert(apos(activations@.last()) == dir_target(p, 2));
            }
        }
        proof {
            assert(appended_targets(a0, activations@, targets_upto(v, p, 3)));
        }
        if crate::bits::get_bit_at(v, 3) {
            activations.push([pos[0] - 1, pos[1]]);
            proof {
                assert(apos(activations@.last()) == dir_target(p, 3));
            }
        }
        proof {
            assert(appended_targets(a0, activations@, targets_upto(v, p, 4)));
        }
        if crate::bits::get_bit_at(v, 4) {
            activations.push([pos[0] + 1, pos[1]]);
            proof {
                assert(apos(activations@.last()) == dir_target(p, 4));
            }
        }
        proof {
            assert(appended_targets(a0, activations@, targets_upto(v, p, 5)));
        }
        if crate::bits::get_bit_at(v, 5) {
            activations.push([pos[0] - 1, pos[1] - 1]);
            proof {
                assert(apos(activations@.last()) == dir_target(p, 5));
            }
        }
        proof {
            assert(appended_targets(a0, activations@, targets_upto(v, p, 6)));
        }
        if crate::bits::get_bit_at(v, 6) {
            activations.push([pos[0], pos[1] - 1]);
            proof {
                assert(apos(activations@.last()) == dir_target(p, 6));
            }
        }
        proof {
            assert(appended_targets(a0, activations@, targets_upto(v, p, 7)));
        }
        if crate::bits::get_bit_at(v, 7) {
            activations.push([pos[0] + 1, pos[1] - 1]);
            proof {
                assert(apos(activations@.last()) == dir_target(p, 7));
            }
        }
        proof {
            assert(appended_targets(a0, activations@, targets_upto(v, p, 8)));
            let ts = targets_of(v, p);
            lemma_targets_upto_sound(v, p, 8);
            assert forall|t: int|
                a0.len() <= t < activations@.len() implies new_target(
                v,
                pos,
                #[trigger] activations@[t],
            ) by {
                let i = t - a0.len();
                assert(apos(activations@[a0.len() + i]) == ts[i]);
                assert(mask_entry(v, p, ts[i], 8));
                let n = choose|n: u8| n < 8 && #[trigger] bit(v, n) && ts[i] == dir_target(p, n);
                assert(n < 8 && bit(v, n) && apos(activations@[t]) == dir_target(apos(pos), n));
            }
            assert forall|n: u8| n < 8 && #[trigger] bit(v, n) implies target_listed(
                activations@,
                dir_target(apos(pos), n),
            ) by {
                lemma_targets_upto_complete(v, p, n, 8);
                let t = choose|t: int|
                    0 <= t < ts.len() && #[trigger] ts[t] == dir_target(p, n);
                assert(apos(activations@[a0.len() + t]) == dir_target(p, n));
                assert(0 <= a0.len() + t < activations@.len());
            }
        }
    }
}

} // verus!
