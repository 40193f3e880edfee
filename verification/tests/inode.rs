use ext2_rust::FsError;
use ext2_rust::inode::{Inode, InodeType, InodePermissions, INODE_SIZE};

#[test]
fn type_characters() {
    assert_eq!(InodeType::Free.as_char(), '\0');
    assert_eq!(InodeType::Directory.as_char(), 'd');
    assert_eq!(InodeType::File.as_char(), '-');
}

#[test]
fn inode_record_round_trip() {
    let mut node = Inode::fresh(InodeType::File, InodePermissions::ReadWrite, 42);
    node.n_links = 3;
    node.size_in_logical_bytes = 4096;
    node.num_of_occupied_blocks = 2;
    node.direct_pointers[0] = 7;
    node.direct_pointers[11] = 0x01020304;
    node.indirect_pointers[2] = 99;

    let mut buf: Vec<u8> = vec![0xEE; 2 * INODE_SIZE];
    node.encode_into(&mut buf, 256);
    let decoded = Inode::decode_from(&buf, 256).unwrap();

    assert_eq!(decoded.inode_type, InodeType::File);
    assert_eq!(decoded.permissions, InodePermissions::ReadWrite);
    assert_eq!(decoded.a_time, 42);
    assert_eq!(decoded.m_time, 42);
    assert_eq!(decoded.c_time, 42);
    assert_eq!(decoded.n_links, 3);
    assert_eq!(decoded.size_in_logical_bytes, 4096);
    assert_eq!(decoded.num_of_occupied_blocks, 2);
    assert_eq!(decoded.direct_pointers, node.direct_pointers);
    assert_eq!(decoded.indirect_pointers, node.indirect_pointers);
    // the record before the encoded one is untouched
    assert_eq!(buf[0], 0xEE);
    assert_eq!(buf[255], 0xEE);
}

#[test]
fn an_empty_record_encodes_to_zero_bytes() {
    let node = Inode::empty();
    let mut buf: Vec<u8> = vec![0xEE; INODE_SIZE];
    node.encode_into(&mut buf, 0);
    assert_eq!(buf, vec![0x00; INODE_SIZE]);
}

#[test]
fn corrupt_tag_bytes_are_rejected() {
    let mut buf: Vec<u8> = vec![0x00; INODE_SIZE];
    buf[0] = 9;
    assert!(matches!(Inode::decode_from(&buf, 0), Err(FsError::CorruptRecord)));
    buf[0] = 1;
    buf[1] = 3; // write+execute has no permission name
    assert!(matches!(Inode::decode_from(&buf, 0), Err(FsError::CorruptRecord)));
    buf[1] = 7;
    assert!(Inode::decode_from(&buf, 0).is_ok());
}
