use ext2_rust::FsError;
use ext2_rust::bitmap::Bitmap;

#[test]
fn allocation_is_lowest_index_first() {
    let mut bm = Bitmap::new(16);
    assert_eq!(bm.allocate().unwrap(), 0);
    assert_eq!(bm.allocate().unwrap(), 1);
    bm.free(0).unwrap();
    assert_eq!(bm.allocate().unwrap(), 0);
    assert_eq!(bm.allocate().unwrap(), 2);
}

#[test]
fn allocate_then_free_restores_the_prior_state() {
    let mut bm = Bitmap::new(16);
    bm.set_used(0).unwrap();
    let count_before = bm.read_free_count();
    assert!(bm.is_free(1));

    let picked = bm.allocate().unwrap();
    assert_eq!(picked, 1);
    assert!(!bm.is_free(1));
    assert_eq!(bm.read_free_count(), count_before - 1);

    bm.free(picked).unwrap();
    assert!(bm.is_free(1));
    assert_eq!(bm.read_free_count(), count_before);
}

#[test]
fn double_free_fails_loudly() {
    let mut bm = Bitmap::new(8);
    let b = bm.allocate().unwrap();
    bm.free(b).unwrap();
    assert_eq!(bm.free(b), Err(FsError::DoubleFree));
    assert_eq!(bm.free(99), Err(FsError::OutOfRange));
}

#[test]
fn exhaustion_is_reported() {
    let mut bm = Bitmap::new(3);
    for expected in 0..3 {
        assert_eq!(bm.allocate().unwrap(), expected);
    }
    assert_eq!(bm.allocate(), Err(FsError::CapacityExhausted));
    assert_eq!(bm.read_free_count(), 0);
}

#[test]
fn marking_a_used_bit_again_fails() {
    let mut bm = Bitmap::new(8);
    bm.set_used(5).unwrap();
    assert_eq!(bm.set_used(5), Err(FsError::AlreadyUsed));
}
