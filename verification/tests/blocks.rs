use ext2_rust::blocks::{BlockManager, BLOCKSIZE};

#[test]
fn correct_bytes_are_written() {
    let buffer = Vec::new();
    let mut block_manager = BlockManager::from_in_memory(buffer);
    let data: Vec<u8> = vec![0xFF; BLOCKSIZE];
    let expected = BLOCKSIZE;
    let block_number = 0;

    let actual = block_manager.write_block(block_number, &data).unwrap();

    assert_eq!(actual, expected);
}

#[test]
fn correct_bytes_are_read() {
    let buffer = Vec::new();
    let mut block_manager = BlockManager::from_in_memory(buffer);

    // Write different data in each consecutive block
    for i in 0..4 as usize {
        let data: Vec<u8>;
        if i % 2 == 0 {
            data = vec![0xFF; BLOCKSIZE];
        } else {
            data = vec![0x00; BLOCKSIZE];
        }
        block_manager.write_block(i, &data).unwrap();
    }

    // Each consecutive block should have the same data written before
    for i in 0..4 as usize {
        let mut actual: Vec<u8> = vec![0x66; BLOCKSIZE];
        block_manager.read_block(i, &mut actual).unwrap();

        if i % 2 == 0 {
            assert_eq!(actual, vec![0xFF; BLOCKSIZE]);
        } else {
            assert_eq!(actual, vec![0x00; BLOCKSIZE]);
        }
    }
}

#[test]
fn reading_past_the_end_is_a_short_read() {
    let mut block_manager = BlockManager::new();
    let data: Vec<u8> = vec![0xAB; BLOCKSIZE];
    block_manager.write_block(0, &data).unwrap();

    let mut buf: Vec<u8> = Vec::new();
    assert_eq!(block_manager.read_block(1, &mut buf), Err(ext2_rust::FsError::ShortRead));
}

#[test]
fn writing_past_the_end_extends_the_store() {
    let mut block_manager = BlockManager::new();
    let data: Vec<u8> = vec![0x55; BLOCKSIZE];
    block_manager.write_block(3, &data).unwrap();
    assert_eq!(block_manager.device_len(), 4 * BLOCKSIZE);

    let mut buf: Vec<u8> = Vec::new();
    block_manager.read_block(2, &mut buf).unwrap();
    assert_eq!(buf, vec![0x00; BLOCKSIZE]);
    block_manager.read_block(3, &mut buf).unwrap();
    assert_eq!(buf, vec![0x55; BLOCKSIZE]);
}
