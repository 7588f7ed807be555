use chunked_life::chunk::Chunk;
use chunked_life::game::Game;

#[test]
fn game() {
    let mut game = Game::from([0b0111_1111; 8]);
    assert_eq!(game.get_chunk([0, 0]).unwrap().get_byte_at(0), 0b0111_1111);
    game.insert_chunk([1, 0], Chunk::from([1, 0], [0b1011_1111; 8]));
    assert_eq!(game.get_chunk([1, 0]).unwrap().get_byte_at(0), 0b1011_1111);
    game.insert_chunk([0, 0], Chunk::new([0, 0]));
    assert_eq!(game.get_chunk([0, 0]).unwrap().get_byte_at(0), 0b0000_0000);
    assert_eq!(
        game.chunks()[1].get_byte_at(0) == game.get_chunk([0, 0]).unwrap().get_byte_at(0)
            || game.chunks()[0].get_byte_at(0) == game.get_chunk([0, 0]).unwrap().get_byte_at(0),
        true
    );
}

#[test]
fn edges() {
    let mut game = Game::from([
        0b0000_0000,
        0b0000_0000,
        0b0000_0001,
        0b0000_0000,
        0b0000_0000,
        0b0000_0000,
        0b0000_0000,
        0b0000_0000,
    ]);
    game.insert_chunk(
        [1, 0],
        Chunk::from(
            [1, 0],
            [
                0b0000_0000,
                0b0000_0000,
                0b1100_0000,
                0b0000_0000,
                0b0000_0000,
                0b0000_0000,
                0b0000_0000,
                0b0000_0000,
            ],
        ),
    );
    game.iterate();
    let c = game.get_chunk([1, 0]).unwrap();
    let c2 = game.get_chunk([0, 0]).unwrap();
    assert_eq!(c.get_bit_at_point((0, 1)), true);
    assert_eq!(c.get_bit_at_point((0, 2)), true);
    assert_eq!(c.get_bit_at_point((0, 3)), true);
    assert_eq!(c2.get_bit_at_point((7, 2)), false);
    game.iterate();
    let c = game.get_chunk([1, 0]).unwrap();
    let c2 = game.get_chunk([0, 0]).unwrap();
    assert_eq!(c.get_bit_at_point((0, 1)), false);
    assert_eq!(c.get_bit_at_point((0, 2)), true);
    assert_eq!(c.get_bit_at_point((0, 3)), false);
    assert_eq!(c.get_bit_at_point((1, 2)), true);
    assert_eq!(c2.get_bit_at_point((7, 2)), true);
}

#[test]
fn corners() {
    let mut game = Game::from([
        0b1000_0001,
        0b0000_0000,
        0b0000_0000,
        0b0000_0000,
        0b0000_0000,
        0b0000_0000,
        0b0000_0000,
        0b1000_0001,
    ]);
    game.insert_chunk([-1, -1], Chunk::new([-1, -1]).set_bit((7, 0), true));
    game.insert_chunk([1, -1], Chunk::new([1, -1]).set_bit((0, 0), true));
    game.insert_chunk([-1, 1], Chunk::new([-1, 1]).set_bit((7, 7), true));
    game.insert_chunk([1, 1], Chunk::new([1, 1]).set_bit((0, 7), true));
    let corners = game.corners([0, 0]);
    assert_eq!(corners, 0b1111_0000);
    game.insert_chunk([-1, -1], Chunk::new([-1, -1]).set_bit((7, 0), false));
    game.insert_chunk([1, -1], Chunk::new([1, -1]).set_bit((0, 0), true));
    game.insert_chunk([-1, 1], Chunk::new([-1, 1]).set_bit((7, 7), true));
    game.insert_chunk([1, 1], Chunk::new([1, 1]).set_bit((0, 7), false));
    let corners = game.corners([0, 0]);
    assert_eq!(corners, 0b0110_0000);
    game.insert_chunk([-1, -1], Chunk::new([-1, -1]).set_bit((7, 0), true));
    game.insert_chunk([1, -1], Chunk::new([1, -1]).set_bit((0, 0), false));
    game.insert_chunk([-1, 1], Chunk::new([-1, 1]).set_bit((7, 7), true));
    game.insert_chunk([1, 1], Chunk::new([1, 1]).set_bit((0, 7), false));
    let corners = game.corners([0, 0]);
    assert_eq!(corners, 0b1010_0000);
    game.insert_chunk([-1, -1], Chunk::new([-1, -1]).set_bit((7, 0), false));
    game.insert_chunk([1, -1], Chunk::new([1, -1]).set_bit((0, 0), false));
    game.insert_chunk([-1, 1], Chunk::new([-1, 1]).set_bit((7, 7), false));
    game.insert_chunk([1, 1], Chunk::new([1, 1]).set_bit((0, 7), false));
    let corners = game.corners([0, 0]);
    assert_eq!(corners, 0b0000_0000);
}

#[test]
fn boundary_matches_unpartitioned_grid() {
    // A 2x2 block beside an empty neighbor: on one large grid the block
    // is a still life and every other cell stays dead, so the chunked
    // step must leave the block chunk unchanged and the empty neighbor,
    // whose whole context is dead, is removed.
    let rows = [0, 0, 0, 0, 0b0110_0000, 0b0110_0000, 0, 0];
    let mut game = Game::from(rows);
    game.insert_chunk([1, 0], Chunk::new([1, 0]));
    assert_eq!(game.chunks().len(), 2);
    game.iterate();
    let c = game.get_chunk([0, 0]).unwrap();
    for y in 0..8 {
        assert_eq!(c.get_byte_at(y), rows[y]);
    }
    assert!(game.get_chunk([1, 0]).is_none());
    assert_eq!(game.chunks().len(), 1);
}

#[test]
fn empty_chunk_is_removed() {
    let mut game = Game::new();
    assert!(game.get_chunk([0, 0]).is_some());
    game.iterate();
    assert!(game.get_chunk([0, 0]).is_none());
    assert_eq!(game.chunks().len(), 0);
}

#[test]
fn activation_creates_one_neighbor() {
    // A still-life block against the left border: after one generation
    // exactly one chunk is created, at the coordinate to the left, and
    // nowhere else.
    let rows = [0, 0, 0, 0b1100_0000, 0b1100_0000, 0, 0, 0];
    let mut game = Game::from(rows);
    game.iterate();
    assert_eq!(game.chunks().len(), 2);
    let created = game.get_chunk([-1, 0]).unwrap();
    for y in 0..8 {
        assert_eq!(created.get_byte_at(y), 0);
    }
    assert!(game.get_chunk([1, 0]).is_none());
    assert!(game.get_chunk([0, 1]).is_none());
    assert!(game.get_chunk([0, -1]).is_none());
    assert!(game.get_chunk([-1, -1]).is_none());
    assert!(game.get_chunk([-1, 1]).is_none());
    // The block itself is untouched.
    let c = game.get_chunk([0, 0]).unwrap();
    for y in 0..8 {
        assert_eq!(c.get_byte_at(y), rows[y]);
    }
    // The created chunk is evaluated from the next generation on and
    // stays empty; the world settles at these two chunks.
    game.iterate();
    assert_eq!(game.chunks().len(), 2);
    assert!(game.get_chunk([-1, 0]).is_some());
}

#[test]
fn corner_propagation() {
    // One live cell in the top-left corner of the middle chunk, plus the
    // mirrored corner cells of the three chunks around that corner, give
    // the corner cell three live neighbors: it survives the generation.
    let mut game = Game::from_chunk(Chunk::new([0, 0]).set_bit((0, 0), true));
    game.insert_chunk([-1, 0], Chunk::new([-1, 0]).set_bit((7, 0), true));
    game.insert_chunk([0, 1], Chunk::new([0, 1]).set_bit((0, 7), true));
    game.insert_chunk([-1, 1], Chunk::new([-1, 1]).set_bit((7, 7), true));
    // Only the up-left diagonal neighbor holds a corner-mask cell.
    assert_eq!(game.corners([0, 0]), 0b0010_0000);
    game.iterate();
    let c = game.get_chunk([0, 0]).unwrap();
    assert_eq!(c.get_bit_at_point((0, 0)), true);
}

#[test]
fn toggle_world_cells() {
    let mut game = Game::new();
    game.toggle(3, 5);
    let c = game.get_chunk([0, 0]).unwrap();
    assert_eq!(c.get_byte_at(2), 0b0001_0000);
    game.toggle(3, 5);
    let c = game.get_chunk([0, 0]).unwrap();
    assert_eq!(c.get_byte_at(2), 0);
    // Toggling twice leaves the grid exactly as it started.
    for y in 0..8 {
        assert_eq!(game.get_chunk([0, 0]).unwrap().get_byte_at(y), 0);
    }
}

#[test]
fn toggle_negative_world_cells() {
    let mut game = Game::new();
    game.toggle(-1, -1);
    let c = game.get_chunk([-1, -1]).unwrap();
    assert_eq!(c.get_bit_at_point((7, 0)), true);
    game.toggle(8, 0);
    let c = game.get_chunk([1, 0]).unwrap();
    assert_eq!(c.get_bit_at_point((0, 7)), true);
    // The origin chunk from the fresh world is still there and empty.
    let c0 = game.get_chunk([0, 0]).unwrap();
    for y in 0..8 {
        assert_eq!(c0.get_byte_at(y), 0);
    }
}

#[test]
fn set_chunk_replaces_grid() {
    let mut game = Game::from([0b1111_1111; 8]);
    game.set_chunk([0, 0], [0b0000_1111; 8]);
    let c = game.get_chunk([0, 0]).unwrap();
    for y in 0..8 {
        assert_eq!(c.get_byte_at(y), 0b0000_1111);
    }
}

#[test]
fn edges_from_neighbors() {
    let mut game = Game::from([0b0000_0000; 8]);
    game.insert_chunk([-1, 0], Chunk::new([-1, 0]).set_bit((7, 3), true));
    game.insert_chunk([1, 0], Chunk::new([1, 0]).set_bit((0, 5), true));
    game.insert_chunk([0, 1], Chunk::new([0, 1]).set_bit((2, 7), true));
    game.insert_chunk([0, -1], Chunk::new([0, -1]).set_bit((6, 0), true));
    let e = game.edges([0, 0], 0b1000_0000);
    assert_eq!(e.left, 0b0001_0000);
    assert_eq!(e.right, 0b0000_0100);
    assert_eq!(e.top, 0b0010_0000);
    assert_eq!(e.bottom, 0b0000_0010);
    assert_eq!(e.corners, 0b1000_0000);
}

#[test]
fn remove_chunk_by_coordinate() {
    let mut game = Game::from([0b1000_0000; 8]);
    game.insert_chunk([2, -1], Chunk::from([2, -1], [0b0000_0001; 8]));
    assert_eq!(game.chunks().len(), 2);
    game.remove_chunk([0, 0]);
    assert!(game.get_chunk([0, 0]).is_none());
    assert_eq!(game.chunks().len(), 1);
    assert_eq!(game.get_chunk([2, -1]).unwrap().get_byte_at(0), 0b0000_0001);
    // Removing an absent coordinate is not an error and changes nothing.
    game.remove_chunk([5, 5]);
    assert_eq!(game.chunks().len(), 1);
}
