//! End-to-end tests over an anonymous mapping: create a volume, mount an
//! aspect, create and write files, and check what lands on disk.

use memmap::MmapMut;

use pinoq::config::{Config, Current};
use pinoq::error::PinoqError;
use pinoq::filefmt::{Block, FileKind, PinoqSerialize, SuperBlock, BLOCK_SIZE, MAGIC, S_IFREG};
use pinoq::fs::{mkfs, PinoqFs};
use pinoq::{get_aspect_offset, get_block_offset};

fn fresh_volume(aspects: u32, blocks: u32, password: &[u8]) -> MmapMut {
    let len = get_block_offset(aspects, blocks, blocks);
    let mut m = MmapMut::map_anon(len).unwrap();
    mkfs(&mut m, aspects, blocks, 1000, 1000, password).unwrap();
    m
}

fn config_for(aspect: u32, password: &[u8]) -> Config {
    Config {
        disk: String::new(),
        mount: String::new(),
        current: Current { aspect, password: password.to_vec() },
    }
}

#[test]
fn test_create_volume() {
    let m = fresh_volume(2, 512, b"password");
    let sblock = SuperBlock::deserialize_from(&m[0..20]).unwrap();
    assert_eq!(sblock.magic, 0x504E4F51u32);
    assert_eq!(sblock.aspects, 2);
    assert_eq!(sblock.blocks, 512);
}

#[test]
fn test_write_data_blocks() {
    let mut m = MmapMut::map_anon(get_block_offset(2, 1024, 1024)).unwrap();
    mkfs(&mut m, 2, 1024, 1000, 1000, b"password").unwrap();

    let config = config_for(1, b"testpass");

    let data = vec![69u8; BLOCK_SIZE];
    let mut fs = PinoqFs::new(m, config).unwrap();
    fs.init_root().unwrap();

    fs.create_entry(0, b"file.txt").unwrap();

    fs.write(2, 0, &data).unwrap();

    let b1 = fs.get_from_block::<Block>(3).unwrap();
    let b2 = fs.get_from_block::<Block>(4).unwrap();
    assert!(b1.data.iter().all(|&x| x == 69));
    assert!(b2.data.iter().all(|&x| x == 69));
    assert_eq!(b1.data.len() + b2.data.len(), data.len());
    assert_eq!(b1.next_block, 4);
}

#[test]
fn mount_lists_empty_root() {
    let m = fresh_volume(2, 512, b"pw");
    let fs = PinoqFs::new(m, config_for(0, b"pw")).unwrap();
    let root = fs.convert_inode_index(1);
    let listing = fs.list_entries(root).unwrap();
    assert_eq!(listing.len(), 2);
    assert_eq!(listing[0].2, b".".to_vec());
    assert_eq!(listing[1].2, b"..".to_vec());
    let cookies = fs.readdir(root, 0).unwrap();
    assert_eq!(cookies.len(), 2);
    assert_eq!(cookies[0].1, 1);
    assert_eq!(cookies[1].1, 2);
}

#[test]
fn readdir_resumes_at_offset() {
    let m = fresh_volume(1, 64, b"pw");
    let mut fs = PinoqFs::new(m, config_for(0, b"pw")).unwrap();
    let root = fs.convert_inode_index(1);
    fs.create_entry(root, b"a").unwrap();
    fs.create_entry(root, b"b").unwrap();
    let all = fs.readdir(root, 0).unwrap();
    assert_eq!(all.len(), 4);
    assert_eq!(all[2].3, b"a".to_vec());
    assert_eq!(all[3].3, b"b".to_vec());
    // the bridge may resume at any cookie
    let rest = fs.readdir(root, 3).unwrap();
    assert_eq!(rest.len(), 1);
    assert_eq!(rest[0].1, 4);
    assert_eq!(rest[0].3, b"b".to_vec());
}

#[test]
fn create_survives_remount() {
    let m = fresh_volume(2, 512, b"pw");
    let mut fs = PinoqFs::new(m, config_for(0, b"pw")).unwrap();
    let root = fs.convert_inode_index(1);
    fs.create_entry(root, b"hello").unwrap();
    let m = fs.unmount();

    let fs = PinoqFs::new(m, config_for(0, b"pw")).unwrap();
    let root = fs.convert_inode_index(1);
    let listing = fs.list_entries(root).unwrap();
    assert_eq!(listing.len(), 3);
    assert_eq!(listing[0].2, b".".to_vec());
    assert_eq!(listing[1].2, b"..".to_vec());
    assert_eq!(listing[2].2, b"hello".to_vec());
    assert_eq!(listing[2].1, FileKind::RegularFile);

    let attr = fs.lookup_name(root, b"hello").unwrap();
    assert_eq!(attr.size, 0);
    assert_eq!(attr.kind, FileKind::RegularFile);
}

#[test]
fn write_then_read_back_chain() {
    let m = fresh_volume(1, 64, b"pw");
    let mut fs = PinoqFs::new(m, config_for(0, b"pw")).unwrap();
    let root = fs.convert_inode_index(1);
    let attr = fs.create_entry(root, b"data.bin").unwrap();
    let ino = attr.ino;

    let mut payload: Vec<u8> = Vec::new();
    let mut i = 0u32;
    while i < 1500 {
        payload.push((i % 251) as u8);
        i += 1;
    }
    let fh = fs.open(ino);
    let written = fs.write(ino, fh, &payload).unwrap();
    assert_eq!(written, 1500);

    // a fresh handle walks the chain from the inode's first block
    let fh2 = fs.open(ino);
    let mut got: Vec<u8> = Vec::new();
    loop {
        let part = fs.read(ino, fh2, 0).unwrap();
        if part.is_empty() {
            break;
        }
        got.extend_from_slice(&part);
    }
    assert_eq!(got, payload);
}

#[test]
fn other_aspect_bits_untouched_on_disk() {
    let m = fresh_volume(2, 512, b"pw");
    let lo = get_aspect_offset(512, 1);
    let hi = lo + pinoq::filefmt::EncryptedAspect::size_of(512);
    let before = m[lo..hi].to_vec();

    let mut fs = PinoqFs::new(m, config_for(0, b"pw")).unwrap();
    let root = fs.convert_inode_index(1);
    fs.create_entry(root, b"mine").unwrap();
    let m = fs.unmount();
    let after = m[lo..hi].to_vec();
    assert_eq!(before, after);
}

#[test]
fn aspects_are_isolated() {
    let m = fresh_volume(2, 512, b"pw");
    let mut fs = PinoqFs::new(m, config_for(0, b"pw")).unwrap();
    let root = fs.convert_inode_index(1);
    fs.create_entry(root, b"hello").unwrap();
    let m = fs.unmount();

    // the other aspect does not see the entry
    let fs = PinoqFs::new(m, config_for(1, b"pw")).unwrap();
    let root = fs.convert_inode_index(1);
    let listing = fs.list_entries(root).unwrap();
    assert_eq!(listing.len(), 2);
    assert!(fs.lookup_name(root, b"hello").is_err());
}

#[test]
fn wrong_password_cannot_read() {
    let m = fresh_volume(2, 512, b"pw");
    let fs = PinoqFs::new(m, config_for(0, b"pw")).unwrap();
    let m = fs.unmount();

    // the envelope has no integrity check, so opening structurally succeeds;
    // but nothing stored under the real data key can be read back
    match PinoqFs::new(m, config_for(0, b"wrong")) {
        Ok(fs) => {
            let root = fs.convert_inode_index(1);
            let a = fs.getattr(root);
            let b = fs.lookup_name(root, b"anything");
            assert!(a.is_err() || b.is_err());
        },
        Err(_) => (),
    }
}

#[test]
fn lookup_errors() {
    let m = fresh_volume(1, 64, b"pw");
    let mut fs = PinoqFs::new(m, config_for(0, b"pw")).unwrap();
    let root = fs.convert_inode_index(1);
    assert_eq!(fs.lookup_name(root, b"absent"), Err(PinoqError::NoEntry));

    let attr = fs.create_entry(root, b"plain").unwrap();
    assert_eq!(attr.kind, FileKind::RegularFile);
    assert!(attr.blksize == BLOCK_SIZE as u32);
    // a regular file is no directory to look names up in
    assert_eq!(fs.lookup_name(attr.ino, b"x"), Err(PinoqError::NoDirectory));

    let hit = fs.lookup_name(root, b"plain").unwrap();
    assert_eq!(hit.ino, attr.ino);
}

#[test]
fn volume_exhaustion() {
    // 2 aspects over 1 block: bootstrapping the root cannot find two free
    // blocks
    let m = fresh_volume(2, 1, b"pw");
    match PinoqFs::new(m, config_for(0, b"pw")) {
        Ok(_) => panic!("mount of a full volume must fail"),
        Err(e) => assert_eq!(e, PinoqError::NoEnoughSpace),
    }
}

#[test]
fn bad_geometry_is_rejected() {
    // a mapping shorter than the layout demands
    let mut m = MmapMut::map_anon(64).unwrap();
    assert_eq!(mkfs(&mut m, 2, 512, 0, 0, b"pw"), Err(PinoqError::IO));

    // an aspect index outside the table
    let m = fresh_volume(2, 64, b"pw");
    match PinoqFs::new(m, config_for(9, b"pw")) {
        Ok(_) => panic!("aspect index out of range must fail"),
        Err(e) => assert_eq!(e, PinoqError::InvalidConfig),
    }

    // a volume without the magic
    let mut m2 = MmapMut::map_anon(get_block_offset(1, 16, 16)).unwrap();
    mkfs(&mut m2, 1, 16, 0, 0, b"pw").unwrap();
    m2[0] = 0;
    match PinoqFs::new(m2, config_for(0, b"pw")) {
        Ok(_) => panic!("bad magic must fail"),
        Err(e) => assert_eq!(e, PinoqError::Serialization),
    }
}

#[test]
fn attributes_report_the_inode() {
    let m = fresh_volume(1, 64, b"pw");
    let mut fs = PinoqFs::new(m, config_for(0, b"pw")).unwrap();
    let root = fs.convert_inode_index(1);
    let attr = fs.create_entry(root, b"f").unwrap();
    let again = fs.getattr(attr.ino).unwrap();
    assert_eq!(again.ino, attr.ino);
    assert_eq!(again.size, 0);
    assert_eq!(again.uid, 1000);
    assert_eq!(again.gid, 1000);
    let replay = fs.setattr(attr.ino).unwrap();
    assert_eq!(replay, again);
    assert_eq!(MAGIC, 0x504E4F51);
    assert_eq!(S_IFREG, 0o100000);
}
