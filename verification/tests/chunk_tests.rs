use chunked_life::chunk::{Chunk, Edges};
use chunked_life::chunks_eq;

#[test]
fn get_bit() {
    let byte = 0b1000_0010;
    assert_eq!(Chunk::get_bit_at(byte, 0), true);
    assert_eq!(Chunk::get_bit_at(byte, 1), false);
    assert_eq!(Chunk::get_bit_at(byte, 6), true);
    assert_eq!(Chunk::get_bit_at(byte, 7), false);
}

#[test]
fn get_bit_point() {
    let chunk = Chunk::from(
        [0, 0],
        [
            0b0100_0000,
            0b0000_0000,
            0b0000_0000,
            0b0000_0000,
            0b0000_0000,
            0b0000_0000,
            0b0000_0000,
            0b0010_0000,
        ],
    );
    assert_eq!(chunk.get_bit_at_point((0, 0)), false);
    assert_eq!(chunk.get_bit_at_point((1, 0)), true);
    assert_eq!(chunk.get_bit_at_point((0, 1)), false);
    assert_eq!(chunk.get_bit_at_point((2, 7)), true);
}

#[test]
fn get_byte() {
    let chunk = Chunk::from(
        [0, 0],
        [
            0b0000_0001,
            0b0000_0010,
            0b0000_0100,
            0b0001_0111,
            0b1110_0000,
            0b0101_0101,
            0b0111_1111,
            0b1111_1111,
        ],
    );
    assert_eq!(chunk.get_byte_at(0), 0b0000_0001);
    assert_eq!(chunk.get_byte_at(7), 0b1111_1111);
    assert_eq!(chunk.get_byte_at(3), 0b0001_0111);
}

#[test]
fn set_bit() {
    let mut chunk = Chunk::new([0, 0])
        .set_bit((0, 0), true)
        .set_bit((1, 0), true)
        .set_bit((0, 1), true)
        .set_bit((2, 2), true);
    assert_eq!(chunk.get_byte_at(0), 0b1100_0000);
    assert_eq!(chunk.get_byte_at(1), 0b1000_0000);
    assert_eq!(chunk.get_byte_at(2), 0b0010_0000);
    chunk = chunk
        .set_bit((0, 0), false)
        .set_bit((2, 0), false)
        .set_bit((2, 1), true);
    assert_eq!(chunk.get_byte_at(0), 0b0100_0000);
    assert_eq!(chunk.get_byte_at(1), 0b1010_0000);
    chunk = chunk.set_bit((0, 0), false).set_bit((1, 0), true);
    assert_eq!(chunk.get_byte_at(0), 0b0100_0000);
    chunk.toggle_bit((0, 0));
    chunk.toggle_bit((1, 0));
    assert_eq!(chunk.get_byte_at(0), 0b1000_0000);
}

#[test]
fn survive_simple() {
    let chunk = Chunk::from(
        [0, 0],
        [
            0b0000_0000,
            0b0001_0111,
            0b0000_0000,
            0b0010_0000,
            0b0111_0000,
            0b0010_0000,
            0b0000_0000,
            0b0000_0000,
        ],
    );
    let edges = Edges {
        left: 0,
        right: 0,
        top: 0,
        bottom: 0,
        corners: 0,
    };
    assert_eq!(chunk.survive((1, 1), &edges), false);
    assert_eq!(chunk.survive((3, 1), &edges), false);
    assert_eq!(chunk.survive((4, 1), &edges), false);
    assert_eq!(chunk.survive((5, 1), &edges), false);
    assert_eq!(chunk.survive((6, 1), &edges), true);
    assert_eq!(chunk.survive((6, 2), &edges), true);
    assert_eq!(chunk.survive((2, 4), &edges), false);
    assert_eq!(chunk.survive((3, 4), &edges), true);
    assert_eq!(chunk.survive((2, 5), &edges), true);
    assert_eq!(chunk.survive((3, 5), &edges), true);
}

#[test]
fn survive_neighbor() {}

#[test]
fn chunk_iteration() {
    let mut c = Chunk::from(
        [0, 0],
        [
            0b0000_0000,
            0b0010_0000,
            0b0111_0000,
            0b0010_0000,
            0b0000_0000,
            0b0000_0000,
            0b0000_0110,
            0b0000_0110,
        ],
    );
    let c2 = Chunk::from(
        [0, 0],
        [
            0b0000_0000,
            0b0111_0000,
            0b0101_0000,
            0b0111_0000,
            0b0000_0000,
            0b0000_0000,
            0b0000_0110,
            0b0000_0110,
        ],
    );
    let edges = Edges {
        left: 0,
        right: 0,
        top: 0,
        bottom: 0,
        corners: 0,
    };
    c.iterate(&edges);
    assert_eq!(chunks_eq(&c, &c2), true);
    c.iterate(&edges);
    assert_eq!(chunks_eq(&c, &c2), false);
}

#[test]
fn toggle_restores_grid() {
    let original = [
        0b1010_0101,
        0b0000_0000,
        0b1111_0000,
        0b0000_1111,
        0b0110_0110,
        0b1001_1001,
        0b0000_0001,
        0b1000_0000,
    ];
    let mut chunk = Chunk::from([3, -4], original);
    chunk.toggle_bit((5, 2));
    assert_eq!(chunk.get_byte_at(2), 0b1111_0100);
    chunk.toggle_bit((5, 2));
    for y in 0..8 {
        assert_eq!(chunk.get_byte_at(y), original[y]);
    }
}

#[test]
fn transition_rule_cases() {
    let edges = Edges {
        left: 0,
        right: 0,
        top: 0,
        bottom: 0,
        corners: 0,
    };
    // A live cell with one live neighbor dies.
    let lonely = Chunk::new([0, 0])
        .set_bit((3, 3), true)
        .set_bit((3, 2), true);
    assert_eq!(lonely.survive((3, 3), &edges), false);
    // A live cell with two live neighbors stays alive.
    let pair = lonely.set_bit((3, 4), true);
    assert_eq!(pair.survive((3, 3), &edges), true);
    // A live cell with three live neighbors stays alive.
    let triple = pair.set_bit((2, 3), true);
    assert_eq!(triple.survive((3, 3), &edges), true);
    // A live cell with four live neighbors dies.
    let quad = triple.set_bit((4, 3), true);
    assert_eq!(quad.survive((3, 3), &edges), false);
    // A dead cell with three live neighbors is born.
    let dead3 = Chunk::new([0, 0])
        .set_bit((2, 3), true)
        .set_bit((4, 3), true)
        .set_bit((3, 2), true);
    assert_eq!(dead3.survive((3, 3), &edges), true);
    // A dead cell with two live neighbors stays dead.
    let dead2 = Chunk::new([0, 0])
        .set_bit((2, 3), true)
        .set_bit((4, 3), true);
    assert_eq!(dead2.survive((3, 3), &edges), false);
    // A dead cell with four live neighbors stays dead.
    let dead4 = dead3.set_bit((3, 4), true);
    assert_eq!(dead4.survive((3, 3), &edges), false);
}

#[test]
fn boundary_words() {
    let chunk = Chunk::from(
        [0, 0],
        [
            0b1100_0001,
            0b1000_0000,
            0b0000_0001,
            0b0000_0000,
            0b1000_0001,
            0b0000_0000,
            0b0000_0000,
            0b0100_0010,
        ],
    );
    assert_eq!(chunk.top(), 0b1100_0001);
    assert_eq!(chunk.bottom(), 0b0100_0010);
    assert_eq!(chunk.left(), 0b1100_1000);
    assert_eq!(chunk.right(), 0b1010_1000);
}

#[test]
fn inactive_chunk_sleeps() {
    let edges = Edges {
        left: 0,
        right: 0,
        top: 0,
        bottom: 0,
        corners: 0,
    };
    let live_edges = Edges {
        left: 0b0010_0000,
        right: 0,
        top: 0,
        bottom: 0,
        corners: 0,
    };
    let rows = [0, 0, 0b0110_0000, 0b0110_0000, 0, 0, 0, 0];
    let mut c = Chunk::from([0, 0], rows);
    c.set_active(false);
    // An inactive chunk under an empty context does not advance.
    let mask = c.iterate(&edges);
    assert_eq!(mask, 0);
    for y in 0..8 {
        assert_eq!(c.get_byte_at(y), rows[y]);
    }
    // Any live boundary wakes it up again: the cell beside the block in
    // the left neighbor gives the two border-adjacent dead cells a third
    // neighbor each, so the block grows a column.
    let mask2 = c.iterate(&live_edges);
    assert_eq!(c.get_byte_at(2), 0b1110_0000);
    assert_eq!(c.get_byte_at(3), 0b1110_0000);
    for y in [0usize, 1, 4, 5, 6, 7] {
        assert_eq!(c.get_byte_at(y), 0);
    }
    // The fresh grid touches the left border, so the mask reports it.
    assert!(chunked_life::bits::get_bit_at(mask2, 3));
}
