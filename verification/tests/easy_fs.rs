use rcore::easy_fs::bitmap::Bitmap;
use rcore::easy_fs::block_cache::{block_cache_sync_all, BlockCache, BlockCacheManager};
use rcore::easy_fs::block_dev::RamDisk;
use rcore::easy_fs::layout::{DirEntry, DiskInode, DiskInodeType, SuperBlock, EFS_MAGIC};
use rcore::easy_fs::{BlockDevice, EasyFileSystem, BLOCK_SZ};

fn fresh_fs(total_blocks: u32) -> EasyFileSystem<RamDisk> {
    EasyFileSystem::create(RamDisk::new(total_blocks as usize), total_blocks, 1)
}

#[test]
fn efs_test() {
    let efs = fresh_fs(4096);
    let disk = efs.cache.device().clone();
    let mut efs = EasyFileSystem::open(disk);
    let root_inode = efs.root_inode();
    root_inode.create("filea", &mut efs);
    root_inode.create("fileb", &mut efs);
    for name in root_inode.ls(&mut efs) {
        println!("{}", name);
    }
    let filea = root_inode.find("filea", &mut efs).unwrap();
    let greet_str = "Hello, world!";
    filea.write_at(0, greet_str.as_bytes(), &mut efs);
    let mut buffer = [0u8; 233];
    let len = filea.read_at(0, &mut buffer, &mut efs);
    assert_eq!(greet_str, core::str::from_utf8(&buffer[..len]).unwrap(),);
    println!("{}:{}", buffer.len(), core::str::from_utf8(&buffer[..len]).unwrap());

    let mut random_str_test = |len: usize| {
        filea.clear(&mut efs);
        assert_eq!(filea.read_at(0, &mut buffer, &mut efs), 0,);
        let mut str = String::new();
        for _ in 0..len {
            str.push(char::from('0' as u8 + rand::random::<u8>() % 10));
        }
        filea.write_at(0, str.as_bytes(), &mut efs);
        let mut read_buffer = [0u8; 127];
        let mut offset = 0usize;
        let mut read_str = String::new();
        loop {
            let len = filea.read_at(offset, &mut read_buffer, &mut efs);
            if len == 0 {
                break;
            }
            offset += len;
            read_str.push_str(core::str::from_utf8(&read_buffer[..len]).unwrap());
        }
        assert_eq!(str, read_str);
    };

    random_str_test(4 * BLOCK_SZ);
    random_str_test(100 * BLOCK_SZ);
}

#[test]
fn create_lays_out_the_disk() {
    let efs = fresh_fs(8192);
    // 1 inode bitmap block, 1024 inode area blocks, then the data bitmap.
    assert_eq!(efs.inode_area_start_block, 2);
    assert_eq!(efs.get_data_block_id(0), efs.data_area_start_block);
    // data_total = 8192 - 1 - 1025 = 7166; bitmap blocks = (7166 + 4096) / 4097 = 2.
    assert_eq!(efs.data_area_start_block, 1 + 1 + 1024 + 2);
    let mut sb = vec![0u8; BLOCK_SZ];
    efs.cache.device().read_block(0, &mut sb);
    let sb = SuperBlock::decode(&sb);
    assert!(sb.is_valid());
    assert_eq!(sb.total_blocks, 8192);
    assert_eq!(sb.inode_bitmap_blocks, 1);
    assert_eq!(sb.inode_area_blocks, 1024);
    assert_eq!(sb.data_bitmap_blocks, 2);
    assert_eq!(sb.data_area_blocks, 8192 - 1 - 1025 - 2);
}

#[test]
fn root_is_an_empty_directory_at_inode_zero() {
    let mut efs = fresh_fs(2048);
    let (block, offset) = efs.get_disk_inode_pos(0);
    assert_eq!((block, offset), (2, 0));
    let root = efs.root_inode();
    assert_eq!(root.ls(&mut efs).len(), 0);
    assert!(root.find("nothing", &mut efs).is_none());
}

#[test]
fn disk_inode_positions() {
    let efs = fresh_fs(2048);
    assert_eq!(efs.get_disk_inode_pos(1), (2, 128));
    assert_eq!(efs.get_disk_inode_pos(3), (2, 384));
    assert_eq!(efs.get_disk_inode_pos(4), (3, 0));
    assert_eq!(efs.get_disk_inode_pos(9), (4, 128));
}

#[test]
fn create_then_find_and_ls() {
    let mut efs = fresh_fs(2048);
    let root = efs.root_inode();
    let a = root.create("a", &mut efs).unwrap();
    let b = root.create("bb", &mut efs).unwrap();
    assert_eq!(root.ls(&mut efs), vec![String::from("a"), String::from("bb")]);
    let found = root.find("bb", &mut efs).unwrap();
    let mut x = [0u8; 4];
    b.write_at(0, b"wxyz", &mut efs);
    assert_eq!(found.read_at(0, &mut x, &mut efs), 4);
    assert_eq!(&x, b"wxyz");
    assert_eq!(a.read_at(0, &mut x, &mut efs), 0);
}

#[test]
fn create_of_an_existing_name_fails() {
    let mut efs = fresh_fs(2048);
    let root = efs.root_inode();
    assert!(root.create("same", &mut efs).is_some());
    assert!(root.create("same", &mut efs).is_none());
    assert_eq!(root.ls(&mut efs).len(), 1);
}

#[test]
fn inodes_are_given_out_lowest_first() {
    let mut efs = fresh_fs(2048);
    assert_eq!(efs.alloc_inode(), 1);
    assert_eq!(efs.alloc_inode(), 2);
    let d0 = efs.alloc_data();
    let d1 = efs.alloc_data();
    assert_eq!(d0, efs.data_area_start_block);
    assert_eq!(d1, d0 + 1);
    efs.dealloc_data(d0);
    assert_eq!(efs.alloc_data(), d0);
}

#[test]
fn write_grows_and_read_stops_at_end() {
    let mut efs = fresh_fs(2048);
    let root = efs.root_inode();
    let f = root.create("f", &mut efs).unwrap();
    assert_eq!(f.write_at(0, b"hello", &mut efs), 5);
    assert_eq!(f.write_at(3, b"LOWORLD", &mut efs), 7);
    let mut buf = [0u8; 16];
    let n = f.read_at(0, &mut buf, &mut efs);
    assert_eq!(n, 10);
    assert_eq!(&buf[..n], b"helLOWORLD");
    let n = f.read_at(8, &mut buf, &mut efs);
    assert_eq!(n, 2);
    assert_eq!(f.read_at(10, &mut buf, &mut efs), 0);
    assert_eq!(f.read_at(50, &mut buf, &mut efs), 0);
}

#[test]
fn write_across_indirect_blocks_reads_back() {
    let mut efs = fresh_fs(4096);
    let root = efs.root_inode();
    let f = root.create("big", &mut efs).unwrap();
    let data: Vec<u8> = (0..(200 * BLOCK_SZ)).map(|i| (i % 251) as u8).collect();
    assert_eq!(f.write_at(0, &data, &mut efs), data.len());
    let mut back = vec![0u8; data.len()];
    assert_eq!(f.read_at(0, &mut back, &mut efs), data.len());
    assert_eq!(back, data);
}

#[test]
fn clear_frees_every_block() {
    let mut efs = fresh_fs(4096);
    let root = efs.root_inode();
    let f = root.create("big", &mut efs).unwrap();
    let data = vec![7u8; 30 * BLOCK_SZ];
    f.write_at(0, &data, &mut efs);
    f.clear(&mut efs);
    let mut buf = [0u8; 8];
    assert_eq!(f.read_at(0, &mut buf, &mut efs), 0);
    // The 31 blocks (30 data blocks and the indirect block) are free again:
    // the next data block handed out is the first of the data area... after
    // the directory's own block.
    let next = efs.alloc_data();
    assert_eq!(next, efs.data_area_start_block + 1);
}

#[test]
fn writing_one_file_keeps_another() {
    let mut efs = fresh_fs(2048);
    let root = efs.root_inode();
    let a = root.create("a", &mut efs).unwrap();
    let b = root.create("b", &mut efs).unwrap();
    a.write_at(0, b"first file", &mut efs);
    b.write_at(0, &vec![9u8; 3 * BLOCK_SZ], &mut efs);
    let mut buf = [0u8; 10];
    assert_eq!(a.read_at(0, &mut buf, &mut efs), 10);
    assert_eq!(&buf, b"first file");
}

#[test]
fn total_blocks_counts_index_blocks() {
    assert_eq!(DiskInode::total_blocks(0), 0);
    assert_eq!(DiskInode::total_blocks(1), 1);
    assert_eq!(DiskInode::total_blocks(28 * 512), 28);
    assert_eq!(DiskInode::total_blocks(28 * 512 + 1), 30);
    assert_eq!(DiskInode::total_blocks(156 * 512), 157);
    assert_eq!(DiskInode::total_blocks(156 * 512 + 1), 160);
    assert_eq!(DiskInode::total_blocks(284 * 512), 287);
    assert_eq!(DiskInode::total_blocks(284 * 512 + 1), 289);
}

#[test]
fn disk_inode_initialize_and_type() {
    let raw = vec![0xffu8; 128];
    let mut d = DiskInode::decode(&raw);
    d.initialize(DiskInodeType::Directory);
    assert!(d.is_dir());
    assert!(!d.is_file());
    assert_eq!(d.size, 0);
    assert_eq!(d.data_blocks(), 0);
    assert_eq!(d.blocks_num_needed(513), 2);
    let back = DiskInode::decode(&d.encode());
    assert!(back.is_dir());
    assert_eq!(back.size, 0);
    assert_eq!(back.indirect1, 0);
}

#[test]
fn super_block_round_trip() {
    let mut sb = SuperBlock::decode(&[0u8; 24]);
    assert!(!sb.is_valid());
    sb.initialize(100, 1, 1024, 1, 50);
    assert!(sb.is_valid());
    assert_eq!(sb.magic, EFS_MAGIC);
    let back = SuperBlock::decode(&sb.encode());
    assert_eq!(back.total_blocks, 100);
    assert_eq!(back.data_area_blocks, 50);
}

#[test]
fn dir_entry_round_trip() {
    let e = DirEntry::new("hello.txt", 42);
    assert_eq!(e.name(), "hello.txt");
    assert_eq!(e.inode_number(), 42);
    assert_eq!(e.as_bytes().len(), 32);
    assert_eq!(&e.as_bytes()[..9], b"hello.txt");
    assert_eq!(&e.as_bytes()[28..32], &42u32.to_le_bytes());
    let empty = DirEntry::empty();
    assert_eq!(empty.name(), "");
    assert_eq!(empty.inode_number(), 0);
    let mut copy = DirEntry::empty();
    copy.as_bytes_mut().copy_from_slice(e.as_bytes());
    assert_eq!(copy.name(), "hello.txt");
    assert_eq!(copy.inode_number(), 42);
}

#[test]
fn dir_entry_longest_name() {
    let name = "abcdefghijklmnopqrstuvwxyz0";
    assert_eq!(name.len(), 27);
    let e = DirEntry::new(name, 7);
    assert_eq!(e.name(), name);
}

#[test]
fn bitmap_alloc_and_dealloc() {
    let mut cache = BlockCacheManager::new(RamDisk::new(4));
    let bm = Bitmap::new(1, 2);
    assert_eq!(bm.maximum(), 8192);
    for i in 0..70 {
        assert_eq!(bm.alloc_bit(&mut cache), Some(i));
    }
    bm.dealloc(&mut cache, 64);
    bm.dealloc(&mut cache, 3);
    assert_eq!(bm.alloc_bit(&mut cache), Some(3));
    assert_eq!(bm.alloc_bit(&mut cache), Some(64));
    assert_eq!(bm.alloc_bit(&mut cache), Some(70));
}

#[test]
fn bitmap_full_gives_none() {
    let mut cache = BlockCacheManager::new(RamDisk::new(2));
    let bm = Bitmap::new(1, 1);
    for i in 0..4096 {
        assert_eq!(bm.alloc_bit(&mut cache), Some(i));
    }
    assert_eq!(bm.alloc_bit(&mut cache), None);
    // the bits went to block 1: all ones once written back
    block_cache_sync_all(&mut cache);
    let mut b = vec![0u8; BLOCK_SZ];
    cache.device().read_block(1, &mut b);
    assert!(b.iter().all(|x| *x == 0xff));
}

#[test]
fn block_cache_read_after_modify() {
    let mut cache = BlockCacheManager::new(RamDisk::new(40));
    cache.modify(5, 10, &[1, 2, 3]);
    assert_eq!(cache.read(5, 9, 5), vec![0, 1, 2, 3, 0]);
    cache.write_u32(6, 0, 0xdeadbeef);
    assert_eq!(cache.read_u32(6, 0), 0xdeadbeef);
    cache.write_u64(7, 8, 0x0102030405060708);
    assert_eq!(cache.read_u64(7, 8), 0x0102030405060708);
    // touch more blocks than the cache holds, so that block 5 is evicted
    for b in 10..40 {
        cache.modify(b, 0, &[b as u8]);
    }
    assert_eq!(cache.read(5, 10, 3), vec![1, 2, 3]);
    let mut raw = vec![0u8; BLOCK_SZ];
    cache.device().read_block(5, &mut raw);
    assert_eq!(&raw[10..13], &[1, 2, 3]);
}

#[test]
fn block_cache_sync_writes_back() {
    let mut disk = RamDisk::new(2);
    let mut c = BlockCache::new(1, &disk);
    c.modify(0, &[9, 8]);
    assert_eq!(c.read(0, 2), vec![9, 8]);
    let mut raw = vec![0u8; BLOCK_SZ];
    disk.read_block(1, &mut raw);
    assert_eq!(raw[0], 0);
    c.sync(&mut disk);
    disk.read_block(1, &mut raw);
    assert_eq!(&raw[..2], &[9, 8]);
}

#[test]
fn ram_disk_blocks() {
    let mut d = RamDisk::new(3);
    assert_eq!(d.num_blocks(), 3);
    let block = vec![5u8; BLOCK_SZ];
    d.write_block(2, &block);
    let mut out = vec![0u8; BLOCK_SZ];
    d.read_block(2, &mut out);
    assert_eq!(out, block);
    d.read_block(1, &mut out);
    assert!(out.iter().all(|x| *x == 0));
}
