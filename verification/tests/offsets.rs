//! Tests of the volume layout arithmetic: where the aspect table and the
//! data region sit, and how far consecutive slots lie apart.

use pinoq::filefmt::{EncryptedAspect, BLOCK_SIZE, SUPER_BLOCK_SIZE};
use pinoq::{get_aspect_offset, get_block_offset};

#[test]
fn test_offsets() {
    let aspects = 2;
    let blocks = 256;

    let sblock_len = SUPER_BLOCK_SIZE;
    let block_len = BLOCK_SIZE;
    let aspect_len = EncryptedAspect::size_of(blocks);

    let offset = get_aspect_offset(blocks, 0);
    assert_eq!(offset, sblock_len);
    let offset = get_aspect_offset(blocks, 1);
    assert_eq!(offset, sblock_len + aspect_len);

    let offset = get_block_offset(aspects, blocks, 0);
    assert_eq!(offset, sblock_len + aspect_len * (aspects as usize));
    let offset = get_block_offset(aspects, blocks, 1);
    assert_eq!(
        offset,
        sblock_len + aspect_len * (aspects as usize) + block_len
    );
}

#[test]
fn aspect_slot_size() {
    // 32-byte wrap key + 8-byte length + ciphertext of the 36 + ceil(n/8)
    // byte plaintext, rounded up past the next 16-byte boundary
    assert_eq!(EncryptedAspect::size_of(256), 120);
    assert_eq!(EncryptedAspect::size_of(512), 152);
    assert_eq!(EncryptedAspect::size_of(8), 88);
    assert_eq!(EncryptedAspect::size_of(0), 88);
}

#[test]
fn consecutive_block_slots() {
    let a = 3;
    let b = 128;
    let mut n = 0;
    while n < 10 {
        assert_eq!(
            get_block_offset(a, b, n + 1) - get_block_offset(a, b, n),
            BLOCK_SIZE
        );
        assert_eq!(
            get_aspect_offset(b, n + 1) - get_aspect_offset(b, n),
            EncryptedAspect::size_of(b)
        );
        n += 1;
    }
}
