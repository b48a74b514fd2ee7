//! Tests of the block codec: every record decodes back to what was encoded,
//! the encrypted block framing binds the block index, and the aspect
//! envelope opens to the aspect it sealed.

use pinoq::encryption::{Key, KEY_LEN};
use pinoq::filefmt::{
    from_encrypted_block, to_encrypted_block, Aspect, Block, Dir, EncryptedAspect, INode,
    PinoqSerialize, SuperBlock, MAGIC, NO_BLOCK,
};

#[test]
fn test_encrypted_block() {
    let mut dir = Dir::empty();
    dir.insert_entry(b"name".to_vec(), 123);

    let key = Key(vec![1u8; KEY_LEN]);
    let enc_block = to_encrypted_block(&dir, &key, 69).unwrap();

    let dir = from_encrypted_block::<Dir>(&enc_block, &key, 69).unwrap();
    assert_eq!(dir.get_entry(b"name"), Some(123));

    // invalid block number
    let result = from_encrypted_block::<Dir>(&enc_block, &key, 88);
    assert!(result.is_err());
}

#[test]
fn super_block_round_trip() {
    let sb = SuperBlock::new(2, 512, 1000, 1001);
    let mut bytes: Vec<u8> = Vec::new();
    sb.serialize_into(&mut bytes);
    assert_eq!(bytes.len(), 20);
    assert_eq!(&bytes[0..4], &[0x51, 0x4F, 0x4E, 0x50]);
    let back = SuperBlock::deserialize_from(&bytes).unwrap();
    assert_eq!(back.magic, MAGIC);
    assert_eq!(back.aspects, 2);
    assert_eq!(back.blocks, 512);
    assert_eq!(back.uid, 1000);
    assert_eq!(back.gid, 1001);
    assert!(SuperBlock::deserialize_from(&bytes[0..10]).is_err());
}

#[test]
fn inode_round_trip() {
    let mut node = INode::new(0o100000, 7, 8);
    node.size = 4096;
    node.block_size = 1024;
    node.data_block = 5;
    let mut bytes: Vec<u8> = Vec::new();
    node.serialize_into(&mut bytes);
    assert_eq!(bytes.len(), 28);
    let back = INode::deserialize_from(&bytes).unwrap();
    assert_eq!(back.mode, 0o100000);
    assert_eq!(back.size, 4096);
    assert_eq!(back.block_size, 1024);
    assert_eq!(back.uid, 7);
    assert_eq!(back.gid, 8);
    assert_eq!(back.data_block, 5);
}

#[test]
fn block_round_trip() {
    let blk = Block { next_block: NO_BLOCK, data: vec![9u8, 8, 7] };
    let mut bytes: Vec<u8> = Vec::new();
    blk.serialize_into(&mut bytes);
    assert_eq!(bytes.len(), 4 + 8 + 3);
    let back = Block::deserialize_from(&bytes).unwrap();
    assert_eq!(back.next_block, NO_BLOCK);
    assert_eq!(back.data, vec![9u8, 8, 7]);
}

#[test]
fn dir_round_trip_sorted() {
    let mut dir = Dir::empty();
    dir.insert_entry(b"zeta".to_vec(), 3);
    dir.insert_entry(b"alpha".to_vec(), 1);
    dir.insert_entry(b"mid".to_vec(), 2);
    // replacing a binding keeps one entry per name
    dir.insert_entry(b"mid".to_vec(), 9);
    assert_eq!(dir.entries.len(), 3);
    assert_eq!(dir.entries[0].name, b"alpha".to_vec());
    assert_eq!(dir.entries[1].name, b"mid".to_vec());
    assert_eq!(dir.entries[2].name, b"zeta".to_vec());

    let mut bytes: Vec<u8> = Vec::new();
    dir.serialize_into(&mut bytes);
    let back = Dir::deserialize_from(&bytes).unwrap();
    assert_eq!(back.get_entry(b"alpha"), Some(1));
    assert_eq!(back.get_entry(b"mid"), Some(9));
    assert_eq!(back.get_entry(b"zeta"), Some(3));
    assert_eq!(back.get_entry(b"missing"), None);

    // entries out of name order are not a valid directory
    let mut unsorted = Vec::new();
    unsorted.extend_from_slice(&2u64.to_le_bytes());
    unsorted.extend_from_slice(&1u64.to_le_bytes());
    unsorted.push(98); // "b"
    unsorted.extend_from_slice(&1u32.to_le_bytes());
    unsorted.extend_from_slice(&1u64.to_le_bytes());
    unsorted.push(97); // "a"
    unsorted.extend_from_slice(&2u32.to_le_bytes());
    assert!(Dir::deserialize_from(&unsorted).is_err());
}

#[test]
fn encrypted_aspect_round_trip() {
    let a = Aspect::new(40);
    let ea = a.to_encrypted_aspect(b"pw");
    let mut bytes: Vec<u8> = Vec::new();
    ea.serialize_into(&mut bytes);
    assert_eq!(bytes.len(), EncryptedAspect::size_of(40));
    let back = EncryptedAspect::deserialize_from(&bytes).unwrap();
    assert_eq!(back.key.0, ea.key.0);
    assert_eq!(back.encrypted_data, ea.encrypted_data);
}

#[test]
fn seal_then_open() {
    let mut a = Aspect::new(40);
    a.root_block = 17;
    let mut i = 0;
    while i < 40 {
        if i % 3 == 0 {
            a.block_map[i] = true;
        }
        i += 1;
    }
    let ea = a.to_encrypted_aspect(b"pw");
    let got = Aspect::from_encrypted_aspect(&ea, b"pw", 40).unwrap();
    assert_eq!(got.key.0, a.key.0);
    assert_eq!(got.root_block, 17);
    assert_eq!(got.block_map, a.block_map);
}

#[test]
fn open_rejects_wrong_length() {
    let a = Aspect::new(40);
    let ea = a.to_encrypted_aspect(b"pw");
    // opening with the wrong block count must fail: the plaintext length
    // does not match
    assert!(Aspect::from_encrypted_aspect(&ea, b"pw", 4000).is_err());
}

#[test]
fn fresh_aspect_is_empty() {
    let a = Aspect::new(16);
    assert_eq!(a.root_block, NO_BLOCK);
    assert!(!a.has_root_block());
    assert_eq!(a.block_map.len(), 16);
    assert!(a.block_map.iter().all(|b| !*b));
    assert_eq!(a.key.0.len(), 32);
}
