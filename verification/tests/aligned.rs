use blkspeed::aligned::{placed, AlignedBuf, ALIGN};

#[test]
fn allocation_is_aligned_and_rounded_up() {
    let b = AlignedBuf::new(100);
    assert_eq!(b.as_slice().len(), ALIGN);
    assert_eq!(b.as_slice().as_ptr() as usize % ALIGN, 0);

    let b = AlignedBuf::new(4 << 20);
    assert_eq!(b.as_slice().len(), 4 << 20);
    assert_eq!(b.as_slice().as_ptr() as usize % ALIGN, 0);
}

#[test]
fn pattern_is_not_a_run_of_zeroes() {
    let mut b = AlignedBuf::new(ALIGN);
    b.fill_incompressible(42);
    assert!(b.as_slice().iter().any(|&x| x != 0));
    let mut c = AlignedBuf::new(ALIGN);
    c.fill_incompressible(43);
    assert_ne!(b.as_slice(), c.as_slice());
}

#[test]
fn buffers_stay_aligned_however_many_there_are() {
    let mut kept = Vec::new();
    for i in 0..64usize {
        let b = AlignedBuf::new(1 + i * 777);
        assert_eq!(b.as_slice().as_ptr() as usize % ALIGN, 0);
        assert_eq!(b.as_slice().len() % ALIGN, 0);
        assert!(b.as_slice().iter().all(|&x| x == 0));
        kept.push(b);
    }
    assert_eq!(AlignedBuf::new(0).as_slice().len(), ALIGN);
}

#[test]
fn pattern_is_a_xorshift_sequence_in_little_endian() {
    let mut b = AlignedBuf::new(ALIGN);
    b.fill_incompressible(7);
    let mut x: u64 = 7;
    for chunk in b.as_slice().chunks(8) {
        x ^= x << 13;
        x ^= x >> 7;
        x ^= x << 17;
        assert_eq!(chunk, &x.to_le_bytes());
    }
}

#[test]
fn what_is_written_to_a_buffer_is_read_from_it() {
    let mut b = AlignedBuf::new(ALIGN);
    b.as_mut_slice()[17] = 99;
    assert_eq!(b.as_slice()[17], 99);
    assert_eq!(b.as_slice()[16], 0);
}

#[test]
fn a_buffer_begins_behind_what_is_skipped() {
    let bytes: Vec<u8> = (0..2 * ALIGN - 1).map(|i| (i % 251) as u8).collect();
    for skip in [0, 1, 100, ALIGN - 1] {
        let b = placed(bytes.clone(), skip, ALIGN);
        assert_eq!(b.as_slice(), &bytes[skip..skip + ALIGN]);
    }
    for skip in [ALIGN, 5 * ALIGN, usize::MAX] {
        let b = placed(bytes.clone(), skip, ALIGN);
        assert_eq!(b.as_slice(), &bytes[..ALIGN]);
    }
}

#[test]
fn a_buffer_stays_where_it_is_when_written_to() {
    let mut b = AlignedBuf::new(3 * ALIGN);
    let at = b.as_slice().as_ptr();
    b.fill_incompressible(5);
    b.as_mut_slice()[0] = 1;
    assert_eq!(b.as_slice().as_ptr(), at);
}
