use ext2_rust::FsError;
use ext2_rust::blocks::{BlockManager, BLOCKSIZE};
use ext2_rust::superblock::Superblock;

#[test]
fn regions_for_a_small_device() {
    let sb = Superblock::compute(64, 8).unwrap();
    assert_eq!(sb.bitmap_first_block_position, 1);
    assert_eq!(sb.bitmap_last_block_position, 1);
    assert_eq!(sb.inode_array_first_block_position, 2);
    assert_eq!(sb.inode_array_last_block_position, 2);
    assert_eq!(sb.data_first_block_position, 3);
    assert_eq!(sb.data_last_block_position, 63);
    assert_eq!(sb.root_inode_position, 0);
    assert_eq!(sb.total_blocks, 64);
    assert_eq!(sb.total_inodes, 8);
    assert_eq!(sb.total_free_inodes, 8);
    assert_eq!(sb.total_free_blocks, 61);
}

#[test]
fn regions_cover_every_block_without_overlap() {
    let sb = Superblock::compute(1000, 100).unwrap();
    // inode table: ceil(100 * 256 / 2048) = 13 blocks
    assert_eq!(sb.bitmap_first_block_position, 1);
    assert_eq!(sb.bitmap_last_block_position, 1);
    assert_eq!(sb.inode_array_first_block_position, 2);
    assert_eq!(sb.inode_array_last_block_position, 14);
    assert_eq!(sb.data_first_block_position, 15);
    assert_eq!(sb.data_last_block_position, 999);
}

#[test]
fn too_small_devices_are_rejected() {
    assert_eq!(Superblock::compute(3, 8), Err(FsError::DeviceTooSmall));
    assert_eq!(Superblock::compute(0, 8), Err(FsError::DeviceTooSmall));
    assert_eq!(Superblock::compute(64, 0), Err(FsError::DeviceTooSmall));
    // the smallest device that still fits every non-empty region
    assert!(Superblock::compute(4, 8).is_ok());
}

#[test]
fn encode_decode_round_trip() {
    let sb = Superblock::compute(64, 8).unwrap();
    let bytes = sb.encode();
    assert_eq!(bytes.len(), BLOCKSIZE);
    let decoded = Superblock::decode(&bytes);
    assert_eq!(decoded, sb);
}

#[test]
fn new_persists_the_record_into_block_zero() {
    let mut manager = BlockManager::new();
    let sb = Superblock::new(&mut manager, 64, 8).unwrap();
    let mut block0: Vec<u8> = Vec::new();
    manager.read_block(0, &mut block0).unwrap();
    assert_eq!(block0, sb.encode());
    assert_eq!(Superblock::decode(&block0), sb);
}
