use std::sync::atomic::AtomicU8;

use fuchsia_support::shared_buffer::{overlap, SharedBuffer};

// memory holding `bytes`, to be viewed by a SharedBuffer
fn memory(bytes: &[u8]) -> Vec<AtomicU8> {
    bytes.iter().map(|b| AtomicU8::new(*b)).collect()
}

#[test]
fn test_buf() {
    // initialize some memory and turn it into a SharedBuffer
    const ONE: [u8; 8] = [0, 1, 2, 3, 4, 5, 6, 7];
    let buf_memory = memory(&ONE);
    let buf = SharedBuffer::new(&buf_memory);

    // we read the same initial contents back
    let mut bytes = [0u8; 8];
    assert_eq!(buf.read(&mut bytes[..]), 8);
    assert_eq!(bytes, ONE);

    // when we write new contents, we read those back
    const TWO: [u8; 8] = [7, 6, 5, 4, 3, 2, 1, 0];
    assert_eq!(buf.write(&TWO[..]), 8);
    assert_eq!(buf.read(&mut bytes[..]), 8);
    assert_eq!(bytes, TWO);

    // even with a bigger buffer, we still only read 8 bytes
    let mut bytes = [0u8; 16];
    assert_eq!(buf.read(&mut bytes[..]), 8);
    // starting at offset 4, there are only 4 bytes left, so we only read 4
    // bytes
    assert_eq!(buf.read_at(4, &mut bytes[..]), 4);
}

#[test]
fn test_slice() {
    // various slices give us the lengths we expect
    let zeroes = memory(&[0u8; 10]);
    let buf = SharedBuffer::new(&zeroes);
    let tmp = buf.slice(0, 10);
    assert_eq!(tmp.len(), 10);
    let tmp = buf.slice(5, 10);
    assert_eq!(tmp.len(), 5);
    let tmp = buf.slice(0, 0);
    assert_eq!(tmp.len(), 0);
    let tmp = buf.slice(10, 10);
    assert_eq!(tmp.len(), 0);

    // initialize some memory and turn it into a SharedBuffer
    const INIT: [u8; 8] = [0, 1, 2, 3, 4, 5, 6, 7];
    let buf_memory = memory(&INIT);
    let buf = SharedBuffer::new(&buf_memory);

    // we read the same initial contents back
    let mut bytes = [0u8; 8];
    assert_eq!(buf.read_at(0, &mut bytes[..]), 8);
    assert_eq!(bytes, INIT);

    // create a slice to the second half of the SharedBuffer
    let buf2 = buf.slice(4, 8);

    // now we read back only the second half of the whole SharedBuffer
    bytes = [0; 8];
    assert_eq!(buf2.read(&mut bytes[..]), 4);
    assert_eq!(bytes, [4, 5, 6, 7, 0, 0, 0, 0]);
}

#[test]
fn test_overlap() {
    // overlap(offset, copy_len, range_len)

    // first branch: offset > range_len
    assert_eq!(overlap(10, 4, 8), None);

    // middle branch: offset + copy_len <= range_len
    assert_eq!(overlap(0, 4, 8), Some(4));
    assert_eq!(overlap(4, 4, 8), Some(4));

    // middle branch: 'offset + copy_len' overflows usize
    assert_eq!(overlap(4, usize::MAX, 8), Some(4));

    // last branch: else
    assert_eq!(overlap(6, 4, 8), Some(2));
    assert_eq!(overlap(8, 4, 8), Some(0));
}

#[test]
fn overlap_edges() {
    assert_eq!(overlap(0, 0, 0), Some(0));
    assert_eq!(overlap(1, 0, 0), None);
    assert_eq!(overlap(usize::MAX, usize::MAX, usize::MAX), Some(0));
    assert_eq!(overlap(0, usize::MAX, usize::MAX), Some(usize::MAX));
    assert_eq!(overlap(3, 0, 8), Some(0));
}

#[test]
fn read_leaves_rest_of_destination() {
    let mem = memory(&[9, 8, 7]);
    let buf = SharedBuffer::new(&mem);
    let mut bytes = [1u8; 6];
    assert_eq!(buf.read_at(1, &mut bytes[..]), 2);
    assert_eq!(bytes, [8, 7, 1, 1, 1, 1]);
    // at the very end nothing is read and nothing changes
    assert_eq!(buf.read_at(3, &mut bytes[..]), 0);
    assert_eq!(bytes, [8, 7, 1, 1, 1, 1]);
}

#[test]
fn write_at_offset_lands_in_memory() {
    let mem = memory(&[0u8; 6]);
    let buf = SharedBuffer::new(&mem);
    assert_eq!(buf.write_at(4, &[1, 2, 3]), 2);
    buf.release_writes();
    let mut bytes = [0u8; 6];
    assert_eq!(buf.read(&mut bytes[..]), 6);
    assert_eq!(bytes, [0, 0, 0, 0, 1, 2]);
    // an empty write at the end writes nothing
    assert_eq!(buf.write_at(6, &[5]), 0);
}

#[test]
fn slices_share_memory() {
    let mem = memory(&[0, 1, 2, 3, 4, 5, 6, 7, 8, 9]);
    let buf = SharedBuffer::new(&mem);
    // slicing twice views the same bytes as slicing once
    let twice = buf.slice(2, 9).slice(3, 6);
    let once = buf.slice(5, 8);
    assert_eq!(twice.len(), 3);
    let mut a = [0u8; 3];
    let mut b = [0u8; 3];
    assert_eq!(twice.read(&mut a[..]), 3);
    assert_eq!(once.read(&mut b[..]), 3);
    assert_eq!(a, [5, 6, 7]);
    assert_eq!(a, b);
    // a write through a slice is seen through the parent buffer and its clones
    let copy = buf.clone();
    assert_eq!(twice.write(&[42]), 1);
    let mut c = [0u8; 1];
    assert_eq!(copy.read_at(5, &mut c[..]), 1);
    assert_eq!(c, [42]);
    assert_eq!(copy.len(), 10);
}
