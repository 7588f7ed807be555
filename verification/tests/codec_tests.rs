use chunked_life::chunk::Chunk;
use chunked_life::game::Game;

fn grids_equal(a: &Game, b: &Game, pos: [i32; 2]) -> bool {
    let ca = a.get_chunk(pos);
    let cb = b.get_chunk(pos);
    match (ca, cb) {
        (Some(x), Some(y)) => (0..8).all(|k| x.get_byte_at(k) == y.get_byte_at(k)),
        (None, None) => true,
        _ => false,
    }
}

#[test]
fn exact_record_bytes() {
    let game = Game::from_chunk(Chunk::from([0, 0], [1, 2, 3, 4, 5, 6, 7, 8]));
    let mut expected: Vec<u8> = vec![0, 0, 0, 0, 0, 0, 0, 0];
    expected.extend_from_slice(&[1, 2, 3, 4, 5, 6, 7, 8]);
    assert_eq!(game.to_bytes(), expected);

    let mut game2 = Game::from_chunk(Chunk::new([0, 0]));
    game2.insert_chunk([1, -2], Chunk::from([1, -2], [9, 10, 11, 12, 13, 14, 15, 16]));
    let bytes = game2.to_bytes();
    assert_eq!(bytes.len(), 32);
    // The second record: x = 1 and y = -2 in little-endian order, then
    // the eight grid rows.
    assert_eq!(
        &bytes[16..32],
        &[1, 0, 0, 0, 0xFE, 0xFF, 0xFF, 0xFF, 9, 10, 11, 12, 13, 14, 15, 16]
    );
}

#[test]
fn round_trip_empty() {
    let empty_bytes: Vec<u8> = Vec::new();
    let game = Game::from_bytes(&empty_bytes);
    assert_eq!(game.chunks().len(), 0);
    assert_eq!(game.to_bytes().len(), 0);
}

#[test]
fn round_trip_singleton() {
    let rows = [0b1010_1010, 0, 0b0101_0101, 0, 0xFF, 0, 1, 128];
    let mut game = Game::from_bytes(&Vec::new());
    game.insert_chunk([-7, 3], Chunk::from([-7, 3], rows));
    let restored = Game::from_bytes(&game.to_bytes());
    assert_eq!(restored.chunks().len(), 1);
    assert!(grids_equal(&game, &restored, [-7, 3]));
}

#[test]
fn round_trip_many() {
    let mut game = Game::new();
    game.insert_chunk([0, 0], Chunk::from([0, 0], [1; 8]));
    game.insert_chunk([1, 0], Chunk::from([1, 0], [2; 8]));
    game.insert_chunk([-3, 5], Chunk::from([-3, 5], [0b1100_0011; 8]));
    game.insert_chunk([7, -2], Chunk::from([7, -2], [0, 1, 2, 3, 4, 5, 6, 7]));
    game.insert_chunk([-1, -1], Chunk::from([-1, -1], [0xFF; 8]));
    let restored = Game::from_bytes(&game.to_bytes());
    assert_eq!(restored.chunks().len(), 5);
    for pos in [[0, 0], [1, 0], [-3, 5], [7, -2], [-1, -1], [9, 9]] {
        assert!(grids_equal(&game, &restored, pos));
    }
}

#[test]
fn load_is_order_independent() {
    let mut game = Game::from_bytes(&Vec::new());
    game.insert_chunk([2, 2], Chunk::from([2, 2], [3; 8]));
    game.insert_chunk([-4, 0], Chunk::from([-4, 0], [4; 8]));
    let bytes = game.to_bytes();
    // Swap the two records and load again: the mapping is the same.
    let mut swapped: Vec<u8> = Vec::new();
    swapped.extend_from_slice(&bytes[16..32]);
    swapped.extend_from_slice(&bytes[0..16]);
    let a = Game::from_bytes(&bytes);
    let b = Game::from_bytes(&swapped);
    for pos in [[2, 2], [-4, 0]] {
        assert!(grids_equal(&a, &b, pos));
    }
    assert_eq!(a.chunks().len(), 2);
    assert_eq!(b.chunks().len(), 2);
}

#[test]
fn trailing_fragment_is_dropped() {
    let mut game = Game::from_bytes(&Vec::new());
    game.insert_chunk([5, 6], Chunk::from([5, 6], [0b0001_1000; 8]));
    let mut bytes = game.to_bytes();
    bytes.push(0xAB);
    bytes.push(0xCD);
    bytes.push(0xEF);
    bytes.push(0x01);
    bytes.push(0x23);
    let restored = Game::from_bytes(&bytes);
    assert_eq!(restored.chunks().len(), 1);
    assert!(grids_equal(&game, &restored, [5, 6]));
}

#[test]
fn later_record_wins() {
    let mut game1 = Game::from_bytes(&Vec::new());
    game1.insert_chunk([4, 4], Chunk::from([4, 4], [1; 8]));
    let mut game2 = Game::from_bytes(&Vec::new());
    game2.insert_chunk([4, 4], Chunk::from([4, 4], [2; 8]));
    let mut bytes = game1.to_bytes();
    bytes.extend_from_slice(&game2.to_bytes());
    let restored = Game::from_bytes(&bytes);
    assert_eq!(restored.chunks().len(), 1);
    assert_eq!(restored.get_chunk([4, 4]).unwrap().get_byte_at(0), 2);
}

#[test]
fn loaded_chunks_are_active() {
    let mut game = Game::from_bytes(&Vec::new());
    game.insert_chunk([0, 0], Chunk::from([0, 0], [0b0110_0000; 8]));
    let restored = Game::from_bytes(&game.to_bytes());
    assert!(restored.get_chunk([0, 0]).unwrap().active);
}
