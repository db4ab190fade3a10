use std::cell::RefCell;
use std::collections::{HashMap, HashSet};

use chunkdrive::block::{BlockType, DirectBlock, IndirectBlock, StoredBlock};
use chunkdrive::bucket::Bucket;
use chunkdrive::encryption::{Aes, AesType, EncryptionType};
use chunkdrive::global::Global;
use chunkdrive::inode::{Directory, File, InodeType};
use chunkdrive::metadata::Size;
use chunkdrive::source::{LocalSource, Source, SourceType};
use chunkdrive::stored::{Codec, Stored};

/// Blobs kept in memory; buckets named in `failing` refuse every call.
struct Memory {
    blobs: HashMap<(String, Vec<u8>), Vec<u8>>,
    next: u64,
    failing: HashSet<String>,
    blocks: RefCell<Vec<BlockType>>,
    inodes: RefCell<Vec<InodeType>>,
}

impl Memory {
    fn new() -> Memory {
        Memory {
            blobs: HashMap::new(),
            next: 0,
            failing: HashSet::new(),
            blocks: RefCell::new(Vec::new()),
            inodes: RefCell::new(Vec::new()),
        }
    }
}

impl Source for Memory {
    fn create(&mut self, bucket: &String) -> Result<Vec<u8>, String> {
        if self.failing.contains(bucket) {
            return Err("unreachable".to_string());
        }
        self.next += 1;
        let d = format!("d{}", self.next).into_bytes();
        self.blobs.insert((bucket.clone(), d.clone()), Vec::new());
        Ok(d)
    }

    fn get(&mut self, bucket: &String, descriptor: &Vec<u8>) -> Result<Vec<u8>, String> {
        if self.failing.contains(bucket) {
            return Err("unreachable".to_string());
        }
        self.blobs.get(&(bucket.clone(), descriptor.clone())).cloned().ok_or("File not found".to_string())
    }

    fn put(&mut self, bucket: &String, descriptor: &Vec<u8>, data: Vec<u8>) -> Result<(), String> {
        if self.failing.contains(bucket) {
            return Err("unreachable".to_string());
        }
        match self.blobs.get_mut(&(bucket.clone(), descriptor.clone())) {
            Some(blob) => {
                *blob = data;
                Ok(())
            }
            None => Err("Error opening file".to_string()),
        }
    }

    fn delete(&mut self, bucket: &String, descriptor: &Vec<u8>) -> Result<(), String> {
        if self.failing.contains(bucket) {
            return Err("unreachable".to_string());
        }
        self.blobs.remove(&(bucket.clone(), descriptor.clone())).map(|_| ()).ok_or("Error deleting file".to_string())
    }
}

fn copy_direct(d: &DirectBlock) -> DirectBlock {
    DirectBlock { start: d.start, end: d.end, sources: d.sources.clone(), hash: d.hash.clone() }
}

fn copy_block(b: &BlockType) -> BlockType {
    match b {
        BlockType::Direct(d) => BlockType::Direct(copy_direct(d)),
        BlockType::Indirect(i) => BlockType::Indirect(IndirectBlock { blocks: i.blocks.iter().map(copy_block).collect() }),
        BlockType::Stored(s) => BlockType::Stored(StoredBlock { stored: s.stored.clone(), start: s.start, end: s.end }),
    }
}

fn copy_inode(i: &InodeType) -> InodeType {
    match i {
        InodeType::File(f) => InodeType::File(File {
            data: IndirectBlock { blocks: f.data.blocks.iter().map(copy_block).collect() },
            metadata: f.metadata,
        }),
        InodeType::Directory(d) => InodeType::Directory(Directory { children: d.children.clone(), metadata: d.metadata }),
    }
}

fn index_of(bytes: &Vec<u8>) -> Result<usize, String> {
    if bytes.len() != 8 {
        return Err("malformed".to_string());
    }
    let mut a = [0u8; 8];
    a.copy_from_slice(bytes);
    Ok(u64::from_le_bytes(a) as usize)
}

/// Keeps each encoded value in a table; the bytes are its index.
impl Codec for Memory {
    fn encode_block(&self, block: &BlockType) -> Result<Vec<u8>, String> {
        let mut t = self.blocks.borrow_mut();
        t.push(copy_block(block));
        Ok(((t.len() - 1) as u64).to_le_bytes().to_vec())
    }

    fn decode_block(&self, bytes: &Vec<u8>) -> Result<BlockType, String> {
        let t = self.blocks.borrow();
        t.get(index_of(bytes)?).map(copy_block).ok_or("malformed".to_string())
    }

    fn encode_inode(&self, inode: &InodeType) -> Result<Vec<u8>, String> {
        let mut t = self.inodes.borrow_mut();
        t.push(copy_inode(inode));
        Ok(((t.len() - 1) as u64).to_le_bytes().to_vec())
    }

    fn decode_inode(&self, bytes: &Vec<u8>) -> Result<InodeType, String> {
        let t = self.inodes.borrow();
        t.get(index_of(bytes)?).map(copy_inode).ok_or("malformed".to_string())
    }
}

fn local(max_size: usize) -> SourceType {
    SourceType::LocalSource(LocalSource { folder: "/tmp".to_string(), max_size, descriptor_length: 3 })
}

fn config(encryption: bool, size: usize) -> Global {
    let (name, encryption) = if encryption {
        (
            "local1",
            EncryptionType::Aes(Aes { key: "12345678901234567890123456789012".to_string(), size: AesType::Aes128 }),
        )
    } else {
        ("local2", EncryptionType::Plain)
    };
    Global {
        buckets: vec![(name.to_string(), Bucket { source: local(size), encryption })],
        direct_block_count: 10,
        root_path: "./root.dat".to_string(),
        services: Vec::new(),
    }
}

fn shared1(encryption: bool, local_size: usize, data: Vec<u8>) -> (Global, Memory, BlockType) {
    let global = config(encryption, local_size);
    let mut io = Memory::new();
    let mut block = BlockType::create(&global, &mut io, &data, 0).unwrap();
    assert_eq!(block.range(), (0, data.len()));
    let got1 = block.get(&global, &mut io, 0, data.len()).unwrap();
    assert_eq!(got1, data);
    let data1 = data.iter().map(|x| ((*x as u16 + 5) % 256) as u8).collect::<Vec<u8>>();
    block.put(&global, &mut io, &data1, 0, data1.len()).unwrap();
    let got2 = block.get(&global, &mut io, 0, data1.len()).unwrap();
    assert_eq!(got2, data1);
    let again = (global, io, block);
    again
}

fn children(block: &BlockType) -> &Vec<BlockType> {
    match block {
        BlockType::Indirect(i) => &i.blocks,
        _ => panic!("not an indirect block"),
    }
}

#[test]
fn unencrypted_fits_in_one_block() {
    let data = vec![1u8, 2, 3, 4, 5].repeat(5);
    let (global, mut io, block) = shared1(false, 26, data);
    assert_eq!(children(&block).len(), 1);
    assert!(matches!(children(&block)[0], BlockType::Direct(_)));
    block.delete(&global, &mut io).unwrap();
    assert!(io.blobs.is_empty());
}

#[test]
fn encrypted_fits_in_one_block() {
    let data = vec![1u8, 2, 3, 4, 5].repeat(5);
    let (global, mut io, block) = shared1(true, 26, data);
    block.delete(&global, &mut io).unwrap();
    assert!(io.blobs.is_empty());
}

#[test]
fn unencrypted_fits_direct_blocks() {
    let data = vec![1u8, 2, 3, 4, 5].repeat(95);
    let (global, mut io, block) = shared1(false, 26, data);
    let kids = children(&block);
    assert_eq!(kids.len(), 11);
    assert!(kids[..10].iter().all(|b| matches!(b, BlockType::Direct(_))));
    assert!(matches!(kids[10], BlockType::Stored(_)));
    block.delete(&global, &mut io).unwrap();
    assert!(io.blobs.is_empty());
}

#[test]
fn encrypted_fits_direct_blocks() {
    let data = vec![1u8, 2, 3, 4, 5].repeat(90);
    let (global, mut io, block) = shared1(true, 26, data.clone());
    // every stored blob is ciphertext, never a plaintext chunk
    for blob in io.blobs.values() {
        assert!(data.windows(blob.len().max(1)).all(|w| w != &blob[..]));
    }
    block.delete(&global, &mut io).unwrap();
}

#[test]
fn unencrypted_needs_indirect_blocks() {
    let data = vec![1u8, 2, 3, 4, 5].repeat(100);
    let (global, mut io, block) = shared1(false, 16, data);
    assert!(children(&block).iter().any(|b| matches!(b, BlockType::Stored(_))));
    block.delete(&global, &mut io).unwrap();
    assert!(io.blobs.is_empty());
}

#[test]
fn empty_data() {
    let global = config(false, 30);
    let mut io = Memory::new();
    let data = Vec::new();
    let block = DirectBlock::create(&global, &mut io, &data, 0, 1);
    assert!(block.is_err());
}

#[test]
fn simple_unencrypted() {
    shared_default(false);
}

#[test]
fn simple_encrypted() {
    shared_default(true);
}

fn shared_default(encryption: bool) {
    let global = config(encryption, 25);
    let mut io = Memory::new();
    let data = vec![1u8, 2, 3, 4, 5].repeat(5);
    let name = global.random_bucket().unwrap();
    let bucket = global.get_bucket(&name).unwrap();
    let descriptor = bucket.create(&mut io, &name).unwrap();
    bucket.put(&mut io, &name, &descriptor, data.clone()).unwrap();
    let data2 = bucket.get(&mut io, &name, &descriptor).unwrap();
    assert_eq!(data, data2);
    bucket.delete(&mut io, &name, &descriptor).unwrap();
    if bucket.get(&mut io, &name, &descriptor).is_ok() {
        panic!("Descriptor should not exist");
    }
}

#[test]
fn stored_with_url() {
    let global = config(false, 30);
    let mut io = Memory::new();
    let object = "Hello".to_string();
    let bytes = rmp_serde::to_vec(&object).unwrap();
    let stored = Stored::create(&global, &mut io, bytes).unwrap();
    let url = stored.as_url();
    let split = url.split('$').collect::<Vec<&str>>();
    assert!(split.len() == 2);
    let (bucket, descriptor) = (split[0], split[1]);
    assert!(!bucket.is_empty() && !descriptor.is_empty());
    let stored1 = Stored::from_url(bucket, descriptor).unwrap();
    assert_eq!(stored, stored1);
    let object1: String = rmp_serde::from_slice(&stored1.get(&global, &mut io).unwrap()).unwrap();
    assert_eq!(object, object1);
}

#[test]
fn url_escapes_dollar_and_binary() {
    let s = Stored { bucket: "a$b c".to_string(), descriptor: vec![0, 36, 255, b'x'] };
    let url = s.as_url();
    assert_eq!(url, "a%24b%20c$%00%24%FFx");
    let parts: Vec<&str> = url.split('$').collect();
    assert_eq!(parts.len(), 2);
    assert_eq!(Stored::from_url(parts[0], parts[1]).unwrap(), s);
    assert!(Stored::from_url("%FF", "x").is_err());
}

#[test]
fn empty_indirect_block() {
    let global = config(false, 26);
    let mut io = Memory::new();
    let block = IndirectBlock::create(&global, &mut io, &Vec::new(), 0).unwrap();
    assert_eq!(block.range(), (0, 0));
    assert!(block.blocks.is_empty());
    assert_eq!(block.get(&global, &mut io, 0, 100).unwrap(), Vec::<u8>::new());
}

#[test]
fn chunks_are_contiguous_and_bounded() {
    let global = config(false, 16);
    let mut io = Memory::new();
    let data: Vec<u8> = (0..500u32).map(|i| i as u8).collect();
    let block = IndirectBlock::create(&global, &mut io, &data, 7).unwrap();
    assert_eq!(block.range(), (7, 507));
    let mut at = 7;
    for (k, child) in block.blocks.iter().enumerate() {
        let (s, e) = child.range();
        assert_eq!(s, at);
        assert!(e > s);
        if k < 10 {
            assert_eq!(e - s, 16);
        }
        at = e;
    }
    assert_eq!(at, 507);
    assert_eq!(block.get(&global, &mut io, 7, 507).unwrap(), data);
    assert_eq!(block.get(&global, &mut io, 20, 40).unwrap(), data[13..33].to_vec());
}

#[test]
fn put_twice_is_idempotent() {
    let global = config(true, 40);
    let mut io = Memory::new();
    let data = vec![9u8; 300];
    let mut block = BlockType::create(&global, &mut io, &data, 0).unwrap();
    let new = (0..300u32).map(|i| (i * 3) as u8).collect::<Vec<u8>>();
    for _ in 0..3 {
        block.put(&global, &mut io, &new, 0, 300).unwrap();
        assert_eq!(block.get(&global, &mut io, 0, 300).unwrap(), new);
    }
}

#[test]
fn put_inside_and_past_the_end() {
    let global = config(false, 16);
    let mut io = Memory::new();
    let mut data: Vec<u8> = (0..40u32).map(|i| i as u8).collect();
    let mut block = BlockType::create(&global, &mut io, &data, 0).unwrap();
    block.put(&global, &mut io, &vec![200, 201, 202], 10, 13).unwrap();
    data[10..13].copy_from_slice(&[200, 201, 202]);
    assert_eq!(block.get(&global, &mut io, 0, 40).unwrap(), data);
    let tail: Vec<u8> = (0..300u32).map(|i| (i + 1) as u8).collect();
    block.put(&global, &mut io, &tail, 40, 340).unwrap();
    data.extend(&tail);
    assert_eq!(block.range(), (0, 340));
    assert_eq!(block.get(&global, &mut io, 0, 340).unwrap(), data);
    assert!(block.put(&global, &mut io, &vec![1, 2], 0, 5).is_err());
}

fn two_buckets(failing: &str) -> (Global, Memory) {
    let global = Global {
        buckets: vec![
            ("good".to_string(), Bucket { source: local(64), encryption: EncryptionType::Plain }),
            ("bad".to_string(), Bucket { source: local(64), encryption: EncryptionType::Plain }),
        ],
        direct_block_count: 10,
        root_path: "./root.dat".to_string(),
        services: Vec::new(),
    };
    let mut io = Memory::new();
    io.failing.insert(failing.to_string());
    (global, io)
}

#[test]
fn single_replica_succeeds_when_one_bucket_accepts() {
    for _ in 0..20 {
        let (global, mut io) = two_buckets("bad");
        let block = DirectBlock::create(&global, &mut io, &vec![7u8; 10], 0, 1).unwrap();
        assert_eq!(block.sources.len(), 1);
        assert_eq!(block.sources[0].0, "good");
        assert_eq!((block.start, block.end), (0, 10));
    }
}

#[test]
fn replicas_fan_out_to_distinct_buckets() {
    let (global, mut io) = two_buckets("none");
    let block = DirectBlock::create(&global, &mut io, &vec![7u8; 100], 5, 2).unwrap();
    assert_eq!((block.start, block.end), (5, 69));
    assert_eq!(block.sources.len(), 2);
    assert_ne!(block.sources[0].0, block.sources[1].0);
    assert_eq!(io.blobs.len(), 2);
}

#[test]
fn direct_put_fails_only_when_every_replica_fails() {
    let (global, mut io) = two_buckets("none");
    let mut block = DirectBlock::create(&global, &mut io, &vec![1u8; 8], 0, 2).unwrap();
    io.failing.insert("bad".to_string());
    assert!(block.put(&global, &mut io, &vec![2u8; 8]).is_ok());
    io.failing.insert("good".to_string());
    let before = block.hash.clone();
    assert!(block.put(&global, &mut io, &vec![3u8; 8]).is_err());
    assert_eq!(block.hash, before);
    io.failing.clear();
    assert!(block.put(&global, &mut io, &vec![3u8; 7]).is_err());
}

#[test]
fn damaged_replica_is_skipped() {
    let (global, mut io) = two_buckets("none");
    let block = DirectBlock::create(&global, &mut io, &vec![4u8; 8], 0, 2).unwrap();
    let first = block.sources[0].clone();
    io.blobs.insert(first, vec![0u8; 8]);
    assert_eq!(block.get(&global, &mut io, 0, 8).unwrap(), vec![4u8; 8]);
    let second = block.sources[1].clone();
    io.blobs.insert(second, vec![0u8; 8]);
    assert!(block.get(&global, &mut io, 0, 8).is_err());
    assert_eq!(block.get(&global, &mut io, 8, 20).unwrap(), Vec::<u8>::new());
}

#[test]
fn no_bucket_takes_the_payload() {
    let global = config(true, 10);
    let mut io = Memory::new();
    assert!(Stored::create(&global, &mut io, vec![1u8; 11]).is_err());
    assert!(DirectBlock::create(&global, &mut io, &vec![1u8; 3], 0, 1).is_err());
}

#[test]
fn file_round_trip() {
    let global = config(true, 26);
    let mut io = Memory::new();
    let data: Vec<u8> = (0..777u32).map(|i| (i % 251) as u8).collect();
    let file = File::create(&global, &mut io, &data).unwrap();
    assert_eq!(file.metadata.size, Size::Bytes(777));
    assert_eq!(file.get(&global, &mut io).unwrap(), data);
    let empty = File::create(&global, &mut io, &Vec::new()).unwrap();
    assert_eq!(empty.get(&global, &mut io).unwrap(), Vec::<u8>::new());
    file.delete(&global, &mut io).unwrap();
    assert!(io.blobs.is_empty());
}

#[test]
fn directory_add_unlink_put() {
    let global = config(false, 4096);
    let mut io = Memory::new();
    let mut root = Directory::new();
    let x = File::create(&global, &mut io, &vec![1, 2, 3]).unwrap().to_enum();
    let a = "a".to_string();
    let b = "b".to_string();
    root.add(&global, &mut io, &a, &x).unwrap();
    assert_eq!(root.metadata.size, Size::Entries(1));
    assert!(root.add(&global, &mut io, &a, &x).is_err());
    let handle = root.get(&a).unwrap().clone();
    let before = handle.get(&global, &mut io).unwrap();
    let unlinked = root.unlink(&a).unwrap();
    assert_eq!(unlinked, handle);
    assert!(root.get(&a).is_err());
    assert!(root.unlink(&a).is_err());
    root.put(&b, unlinked).unwrap();
    assert_eq!(root.list(), vec!["b".to_string()]);
    assert_eq!(root.get(&b).unwrap().get(&global, &mut io).unwrap(), before);
    assert!(root.put(&b, handle).is_err());
}

#[test]
fn directory_remove_reclaims_storage() {
    let global = config(false, 4096);
    let mut io = Memory::new();
    let mut root = Directory::new();
    let mut sub = Directory::new();
    let f = File::create(&global, &mut io, &vec![5u8; 100]).unwrap().to_enum();
    sub.add(&global, &mut io, &"f".to_string(), &f).unwrap();
    root.add(&global, &mut io, &"sub".to_string(), &sub.to_enum()).unwrap();
    assert!(root.remove(&global, &mut io, &"nope".to_string()).is_err());
    root.remove(&global, &mut io, &"sub".to_string()).unwrap();
    assert!(root.list().is_empty());
    assert!(io.blobs.is_empty());
}

#[test]
fn next_bucket_respects_size_and_exclusion() {
    let global = Global {
        buckets: vec![
            ("small".to_string(), Bucket { source: local(10), encryption: EncryptionType::Plain }),
            ("big".to_string(), Bucket { source: local(100), encryption: EncryptionType::Plain }),
        ],
        direct_block_count: 10,
        root_path: "./root.dat".to_string(),
        services: Vec::new(),
    };
    for _ in 0..20 {
        assert_eq!(global.next_bucket(50, &Vec::new()), Some("big".to_string()));
        assert_eq!(global.next_bucket(5, &vec!["big".to_string()]), Some("small".to_string()));
    }
    assert_eq!(global.next_bucket(101, &Vec::new()), None);
    assert_eq!(global.next_bucket(1, &vec!["big".to_string(), "small".to_string()]), None);
    assert_eq!(global.list_buckets(), vec!["small".to_string(), "big".to_string()]);
    assert!(global.get_bucket(&"missing".to_string()).is_none());
    assert_eq!(global.get_bucket(&"big".to_string()).unwrap().max_size(), 100);
}

fn hex(b: &[u8]) -> String {
    b.iter().map(|x| format!("{:02x}", x)).collect()
}

#[test]
fn direct_block_records_md5_of_its_chunk() {
    let (global, mut io) = two_buckets("none");
    let block = DirectBlock::create(&global, &mut io, &vec![7u8; 10], 0, 1).unwrap();
    assert_eq!(hex(&block.hash), "5368307063ebb9564494abf51984ed49");
}

#[test]
fn url_of_non_ascii_bucket() {
    let s = Stored { bucket: "bücket".to_string(), descriptor: b"abc".to_vec() };
    assert_eq!(s.as_url(), "b%C3%BCcket$abc");
    assert_eq!(Stored::from_url("b%C3%BCcket", "abc").unwrap(), s);
    assert_eq!(Stored::from_url("b%c3%bccket", "%61bc").unwrap(), s);
}

#[test]
fn splice_replaces_in_place() {
    use_splice();
}

fn use_splice() {
    assert_eq!(chunkdrive::block::splice(&vec![1, 2, 3, 4, 5], 1, &vec![9, 9]), vec![1, 9, 9, 4, 5]);
    assert_eq!(chunkdrive::block::splice(&vec![1, 2], 2, &Vec::new()), vec![1, 2]);
}

#[test]
fn write_inside_keeps_range_and_outside_read_is_empty() {
    let global = config(false, 16);
    let mut io = Memory::new();
    let data: Vec<u8> = (0..200u32).map(|i| i as u8).collect();
    let mut block = BlockType::create(&global, &mut io, &data, 0).unwrap();
    for _ in 0..3 {
        block.put(&global, &mut io, &vec![7u8; 50], 100, 150).unwrap();
        assert_eq!(block.range(), (0, 200));
    }
    assert_eq!(block.get(&global, &mut io, 300, 400).unwrap(), Vec::<u8>::new());
    let mut expected = data.clone();
    expected[100..150].copy_from_slice(&[7u8; 50]);
    assert_eq!(block.get(&global, &mut io, 0, 200).unwrap(), expected);
    let before = block.range();
    assert!(block.put(&global, &mut io, &vec![1, 2, 3], 0, 2).is_err());
    assert_eq!(block.range(), before);
}
