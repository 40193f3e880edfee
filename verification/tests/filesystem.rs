use ext2_rust::FsError;
use ext2_rust::bitmap::Bitmap;
use ext2_rust::blocks::{BlockManager, BLOCKSIZE};
use ext2_rust::filesystem::{allocate_block, format_device, free_block};
use ext2_rust::inode::{Inode, InodeType, InodePermissions};
use ext2_rust::inode_table::{allocate_inode, free_inode, read_inode};
use ext2_rust::resolver::{resolve_read, resolve_write, MAX_LOGICAL_INDEX};
use ext2_rust::superblock::Superblock;

fn fresh_filesystem(blocks: u32, inodes: u32) -> (BlockManager, Superblock, Bitmap) {
    let mut manager = BlockManager::new();
    let (sb, bitmap) = format_device(&mut manager, blocks, inodes).unwrap();
    (manager, sb, bitmap)
}

#[test]
fn format_then_write_and_read_back_a_data_block() {
    let (mut manager, sb, bitmap) = fresh_filesystem(64, 8);
    // bitmap region: 1 block; inode table: ceil(8*256/2048) = 1 block
    assert_eq!(sb.bitmap_last_block_position - sb.bitmap_first_block_position + 1, 1);
    assert_eq!(sb.inode_array_last_block_position - sb.inode_array_first_block_position + 1, 1);
    assert_eq!(sb.data_first_block_position, 3);
    assert_eq!(sb.data_last_block_position, 63);
    assert_eq!(manager.device_len(), 64 * BLOCKSIZE);
    // the reserved metadata blocks are pre-marked used
    assert!(!bitmap.is_free(0));
    assert!(!bitmap.is_free(2));
    assert!(bitmap.is_free(3));

    let data: Vec<u8> = vec![0xFF; BLOCKSIZE];
    manager.write_block(10, &data).unwrap();
    let mut back: Vec<u8> = Vec::new();
    manager.read_block(10, &mut back).unwrap();
    assert_eq!(back, data);
}

#[test]
fn allocating_all_inodes_exhausts_the_table() {
    let (mut manager, mut sb, _bitmap) = fresh_filesystem(64, 8);
    for expected in 0..8 {
        let pos = allocate_inode(
            &mut manager,
            &mut sb,
            InodeType::File,
            InodePermissions::ReadWrite,
            7,
        )
        .unwrap();
        assert_eq!(pos, expected);
    }
    assert_eq!(sb.total_free_inodes, 0);
    let next = allocate_inode(
        &mut manager,
        &mut sb,
        InodeType::File,
        InodePermissions::ReadWrite,
        7,
    );
    assert_eq!(next, Err(FsError::CapacityExhausted));

    // a freed inode is found again, never index 0 reused while occupied
    free_inode(&mut manager, &mut sb, 5).unwrap();
    let again = allocate_inode(
        &mut manager,
        &mut sb,
        InodeType::Directory,
        InodePermissions::All,
        9,
    )
    .unwrap();
    assert_eq!(again, 5);
    let node = read_inode(&manager, &sb, 5).unwrap();
    assert_eq!(node.inode_type, InodeType::Directory);
    assert_eq!(node.a_time, 9);
}

#[test]
fn freeing_a_free_inode_is_a_double_free() {
    let (mut manager, mut sb, _bitmap) = fresh_filesystem(64, 8);
    assert_eq!(free_inode(&mut manager, &mut sb, 3), Err(FsError::DoubleFree));
}

#[test]
fn block_allocation_keeps_the_counters_in_step() {
    let (mut manager, mut sb, mut bitmap) = fresh_filesystem(64, 8);
    let free_before = sb.total_free_blocks;
    let b = allocate_block(&mut manager, &mut sb, &mut bitmap).unwrap();
    assert_eq!(b, 3); // lowest free block: right after the metadata
    assert_eq!(sb.total_free_blocks, free_before - 1);
    assert_eq!(bitmap.read_free_count(), free_before - 1);

    free_block(&mut manager, &mut sb, &mut bitmap, b).unwrap();
    assert_eq!(sb.total_free_blocks, free_before);
    assert_eq!(bitmap.read_free_count(), free_before);
    assert!(bitmap.is_free(b));
    assert_eq!(
        free_block(&mut manager, &mut sb, &mut bitmap, b),
        Err(FsError::DoubleFree)
    );
}

#[test]
fn direct_indexes_resolve_without_touching_the_device() {
    let (manager, _sb, _bitmap) = fresh_filesystem(64, 8);
    let mut node = Inode::fresh(InodeType::File, InodePermissions::ReadWrite, 0);
    node.direct_pointers[5] = 17;
    for l in 0..12u64 {
        let expected = if l == 5 { 17 } else { 0 };
        assert_eq!(resolve_read(&node, &manager, l).unwrap(), expected);
    }
}

#[test]
fn first_indirect_write_allocates_exactly_one_pointer_block() {
    let (mut manager, _sb, mut bitmap) = fresh_filesystem(4096, 8);
    let mut node = Inode::fresh(InodeType::File, InodePermissions::ReadWrite, 0);
    let free_before = bitmap.read_free_count();

    let data_block = resolve_write(&mut node, &mut manager, &mut bitmap, 12).unwrap();
    assert_ne!(data_block, 0);
    // one pointer block and one data block left the free pool
    assert_eq!(bitmap.read_free_count(), free_before - 2);
    assert_ne!(node.indirect_pointers[0], 0);
    assert_ne!(node.indirect_pointers[0], data_block);

    // the next singly-indirect index reuses the pointer block
    resolve_write(&mut node, &mut manager, &mut bitmap, 13).unwrap();
    assert_eq!(bitmap.read_free_count(), free_before - 3);
}

#[test]
fn boundary_of_the_representable_range() {
    let (mut manager, _sb, mut bitmap) = fresh_filesystem(4096, 8);
    let node = Inode::fresh(InodeType::File, InodePermissions::ReadWrite, 0);

    // the largest representable index succeeds: a hole when reading
    assert_eq!(resolve_read(&node, &manager, MAX_LOGICAL_INDEX).unwrap(), 0);
    // one past it is out of range
    assert_eq!(
        resolve_read(&node, &manager, MAX_LOGICAL_INDEX + 1),
        Err(FsError::OutOfRange)
    );
    let mut writable = node.clone();
    assert_eq!(
        resolve_write(&mut writable, &mut manager, &mut bitmap, MAX_LOGICAL_INDEX + 1),
        Err(FsError::OutOfRange)
    );
    // writing at the boundary allocates the full triply-indirect chain
    let free_before = bitmap.read_free_count();
    let b = resolve_write(&mut writable, &mut manager, &mut bitmap, MAX_LOGICAL_INDEX).unwrap();
    assert_ne!(b, 0);
    assert_eq!(bitmap.read_free_count(), free_before - 4);
    assert_eq!(resolve_read(&writable, &manager, MAX_LOGICAL_INDEX).unwrap(), b);
}

#[test]
fn writes_spanning_the_direct_indirect_boundary_read_back() {
    let (mut manager, _sb, mut bitmap) = fresh_filesystem(4096, 8);
    let mut node = Inode::fresh(InodeType::File, InodePermissions::ReadWrite, 0);

    let mut physical: Vec<u32> = Vec::new();
    for l in 10..=14u64 {
        let b = resolve_write(&mut node, &mut manager, &mut bitmap, l).unwrap();
        assert_ne!(b, 0);
        let data: Vec<u8> = vec![l as u8; BLOCKSIZE];
        manager.write_block(b as usize, &data).unwrap();
        physical.push(b);
    }
    // read back sequentially: only the data content is observable; the
    // pointer block allocated at the boundary stays invisible
    for l in 10..=14u64 {
        let b = resolve_read(&node, &manager, l).unwrap();
        assert_eq!(b, physical[(l - 10) as usize]);
        let mut back: Vec<u8> = Vec::new();
        manager.read_block(b as usize, &mut back).unwrap();
        assert_eq!(back, vec![l as u8; BLOCKSIZE]);
    }
    // the hole left before the written range is still a hole
    assert_eq!(resolve_read(&node, &manager, 9).unwrap(), 0);
}

#[test]
fn deleting_a_file_returns_every_block_to_the_pool() {
    let (mut manager, _sb, mut bitmap) = fresh_filesystem(4096, 8);
    let mut node = Inode::fresh(InodeType::File, InodePermissions::ReadWrite, 0);
    let free_before = bitmap.read_free_count();

    for l in 10..=14u64 {
        resolve_write(&mut node, &mut manager, &mut bitmap, l).unwrap();
    }
    // five data blocks and one pointer block are in use
    assert_eq!(bitmap.read_free_count(), free_before - 6);

    ext2_rust::resolver::release_inode_blocks(&mut node, &manager, &mut bitmap).unwrap();
    assert_eq!(bitmap.read_free_count(), free_before);
    for k in 0..12 {
        assert_eq!(node.direct_pointers[k], 0);
    }
    for k in 0..3 {
        assert_eq!(node.indirect_pointers[k], 0);
    }
}
