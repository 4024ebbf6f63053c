use voxel_world::block::Block;

const ALL_BLOCKS: [Block; 7] = [
    Block::Air,
    Block::Grass,
    Block::Stone,
    Block::Log,
    Block::Leaves,
    Block::Water,
    Block::Wood,
];

#[test]
fn block_codes_are_stable() {
    assert_eq!(Block::Air.code(), 0);
    assert_eq!(Block::Grass.code(), 1);
    assert_eq!(Block::Stone.code(), 2);
    assert_eq!(Block::Log.code(), 3);
    assert_eq!(Block::Leaves.code(), 4);
    assert_eq!(Block::Water.code(), 5);
    assert_eq!(Block::Wood.code(), 6);
}

#[test]
fn block_code_round_trip() {
    for b in ALL_BLOCKS {
        let code = b.code();
        assert_eq!(Block::from_code(code), b);
        assert_eq!(Block::from_code(code).code(), code);
    }
}

#[test]
fn unknown_codes_decode_to_air() {
    for code in 7..=255u8 {
        assert_eq!(Block::from_code(code), Block::Air);
    }
}
