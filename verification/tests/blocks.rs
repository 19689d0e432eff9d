use sand_engine::Block;

#[test]
fn solidity_follows_block_kind() {
    assert!(!Block::Air.is_solid());
    assert!(!Block::Water.is_solid());
    assert!(!Block::WaterEdge.is_solid());
    assert!(Block::GrassBlock.is_solid());
    assert!(Block::Dirt.is_solid());
    assert!(Block::Stone.is_solid());
    assert!(Block::Sand.is_solid());
    assert!(Block::SandStone.is_solid());
    assert!(Block::OakWood.is_solid());
    assert!(Block::OakLeave.is_solid());
    assert!(Block::Fire.is_solid());
}

#[test]
fn colors_match_palette() {
    assert_eq!(Block::Air.color(), (0, 0, 0, 0));
    assert_eq!(Block::GrassBlock.color(), (0x30, 0x7a, 0x2a, 0xff));
    assert_eq!(Block::Dirt.color(), (0xba, 0x79, 0x38, 0xff));
    assert_eq!(Block::Stone.color(), (0x51, 0x53, 0x57, 0xff));
    assert_eq!(Block::Water.color(), (0x4b, 0x53, 0xeb, 0xff));
    assert_eq!(Block::WaterEdge.color(), Block::Water.color());
    assert_eq!(Block::Sand.color(), (0xbb, 0xc2, 0x6d, 0xff));
    assert_eq!(Block::SandStone.color(), (0xe1, 0xe8, 0x97, 0xff));
}

#[test]
fn water_is_transparent_only_as_air() {
    assert_eq!(Block::Air.color().3, 0);
    assert_eq!(Block::Water.color().3, 0xff);
}
