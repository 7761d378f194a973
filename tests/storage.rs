use jackcatos::disk::{disk_read_block, Disk, DiskType, MemoryDisk, SECTOR_SIZE};
use jackcatos::fat16::{
    fat16_init, fat16_open, fat16_read, fat16_resolve, fat16_seek, FatDirectory, FatDirectoryItem,
    FatFileDescriptor, FatItem, FatItemType, ResolveError,
};
use jackcatos::fat_blob::{fat16_decode_descriptor, fat16_encode_descriptor};
use jackcatos::file::{
    fopen, fread, fs_init, fs_insert_fs, fs_new, fs_resolve, fseek, get_disk, FOpenError,
    FileMode, FileSeekMode, FileSystemKind, FileDescriptor,
};
use jackcatos::path_parser::{init_path, PathPart};
use jackcatos::streamer::DiskStreamer;

const ROOT_SECTOR: usize = 19;
const DATA_SECTOR: usize = 33;

fn boot_sector(img: &mut Vec<u8>, signature: u8) {
    img[0] = 0xEB;
    img[1] = 0x3C;
    img[2] = 0x90;
    img[3..11].copy_from_slice(b"MSWIN4.1");
    img[11..13].copy_from_slice(&512u16.to_le_bytes());
    img[13] = 1; // sectors per cluster
    img[14..16].copy_from_slice(&1u16.to_le_bytes()); // reserved sectors
    img[16] = 2; // FAT copies
    img[17..19].copy_from_slice(&224u16.to_le_bytes()); // root entries
    img[19..21].copy_from_slice(&2880u16.to_le_bytes());
    img[21] = 0xF0;
    img[22..24].copy_from_slice(&9u16.to_le_bytes()); // sectors per FAT
    img[24..26].copy_from_slice(&18u16.to_le_bytes());
    img[26..28].copy_from_slice(&2u16.to_le_bytes());
    img[36] = 0x80;
    img[38] = signature;
    img[39..43].copy_from_slice(&0x1234_5678u32.to_le_bytes());
    img[43..54].copy_from_slice(b"NO NAME    ");
    img[54..62].copy_from_slice(b"FAT16   ");
}

fn set_fat(img: &mut Vec<u8>, cluster: usize, next: u16) {
    let at = 512 + cluster * 2;
    img[at..at + 2].copy_from_slice(&next.to_le_bytes());
}

fn entry(name: &[u8; 8], ext: &[u8; 3], attributes: u8, cluster: u16, size: u32) -> [u8; 32] {
    let mut e = [0u8; 32];
    e[0..8].copy_from_slice(name);
    e[8..11].copy_from_slice(ext);
    e[11] = attributes;
    e[26..28].copy_from_slice(&cluster.to_le_bytes());
    e[28..32].copy_from_slice(&size.to_le_bytes());
    e
}

fn put(img: &mut Vec<u8>, at: usize, bytes: &[u8]) {
    img[at..at + bytes.len()].copy_from_slice(bytes);
}

fn cluster_at(cluster: usize) -> usize {
    (DATA_SECTOR + cluster - 2) * 512
}

fn big_contents() -> Vec<u8> {
    (0..700u32).map(|i| (i % 251) as u8).collect()
}

/// A small FAT16 volume: `TEST.TXT` (cluster 2), a deleted record, the
/// directory `DOCS` (cluster 3) holding `NOTE.TXT` (cluster 4), and
/// `BIG.BIN` over clusters 5 and 6.
fn volume() -> Vec<u8> {
    let mut img = vec![0u8; 64 * 512];
    boot_sector(&mut img, 0x29);
    set_fat(&mut img, 2, 0xFFF);
    set_fat(&mut img, 3, 0xFFF);
    set_fat(&mut img, 4, 0xFFF);
    set_fat(&mut img, 5, 6);
    set_fat(&mut img, 6, 0xFFF);
    let root = ROOT_SECTOR * 512;
    put(&mut img, root, &entry(b"TEST    ", b"TXT", 0x20, 2, 11));
    put(&mut img, root + 32, &entry(&[0xE5, b'L', b'D', b' ', b' ', b' ', b' ', b' '], b"TXT", 0x20, 9, 3));
    put(&mut img, root + 64, &entry(b"DOCS    ", b"   ", 0x10, 3, 0));
    put(&mut img, root + 96, &entry(b"BIG     ", b"BIN", 0x20, 5, 700));
    put(&mut img, cluster_at(2), b"hello world");
    put(&mut img, cluster_at(3), &entry(b"NOTE    ", b"TXT", 0x20, 4, 4));
    put(&mut img, cluster_at(4), b"memo");
    let big = big_contents();
    put(&mut img, cluster_at(5), &big[0..512]);
    put(&mut img, cluster_at(6), &big[512..700]);
    img
}

fn device() -> MemoryDisk {
    MemoryDisk::from_bytes(&volume(), &vec![0u8; 4 * 512])
}

fn plain_disk(number: u8) -> Disk {
    Disk { type_: DiskType::OsDisk, sector_size: SECTOR_SIZE, disk_number: number, filesystem: None, fat_private: None }
}

fn resolved_disk(dev: &MemoryDisk) -> Disk {
    let mut d = plain_disk(0);
    let p = fat16_resolve(&d, dev).unwrap();
    d.fat_private = Some(p);
    d.filesystem = Some(fat16_init());
    d
}

fn path_parts(first: &PathPart) -> Vec<String> {
    let mut out = vec![first.part.clone()];
    let mut next = &first.next;
    while let Some(n) = next {
        out.push(n.part.clone());
        next = &n.next;
    }
    out
}

#[test]
fn root_directory_follows_reserved_and_fats() {
    let dev = device();
    let p = fat16_resolve(&plain_disk(0), &dev).unwrap();
    assert_eq!(p.header.primary_header.fat_copies, 2);
    assert_eq!(p.header.primary_header.sectors_per_fat, 9);
    assert_eq!(p.header.primary_header.reserved_sectors, 1);
    assert_eq!(p.header.primary_header.bytes_per_sector, 512);
    let root = p.root_directory.as_ref().unwrap();
    assert_eq!(root.sector_pos, 19);
    assert_eq!(root.end_sector_pos, 33);
    assert_eq!(&p.header.extended_header.system_id_string, b"FAT16   ");
    assert_eq!(p.header.extended_header.volume_id, 0x1234_5678);
}

#[test]
fn counting_skips_deleted_and_stops_at_end() {
    let dev = device();
    let p = fat16_resolve(&plain_disk(0), &dev).unwrap();
    let root = p.root_directory.as_ref().unwrap();
    assert_eq!(root.total, 3);
    let names: Vec<[u8; 8]> = root.items.iter().map(|e| e.filename).collect();
    assert_eq!(names, vec![*b"TEST    ", *b"DOCS    ", *b"BIG     "]);
}

#[test]
fn counting_stops_at_first_end_record() {
    let mut img = volume();
    let root = ROOT_SECTOR * 512;
    // Terminate the list right after the first record.
    put(&mut img, root + 32, &[0u8; 32]);
    let dev = MemoryDisk::from_bytes(&img, &vec![]);
    let p = fat16_resolve(&plain_disk(0), &dev).unwrap();
    assert_eq!(p.root_directory.as_ref().unwrap().total, 1);
    assert_eq!(p.root_directory.as_ref().unwrap().items.len(), 1);
}

#[test]
fn resolve_rejects_bad_signature_and_missing_disk() {
    let mut img = volume();
    img[38] = 0x28;
    let dev = MemoryDisk::from_bytes(&img, &vec![]);
    assert_eq!(fat16_resolve(&plain_disk(0), &dev).unwrap_err(), ResolveError::InvalidSignature);
    let dev = device();
    assert_eq!(fat16_resolve(&plain_disk(2), &dev).unwrap_err(), ResolveError::FailedToReadHeader);
}

#[test]
fn open_unresolved_disk_is_no_filesystem() {
    let dev = device();
    let mut vfs = fs_init();
    let r = fopen(&mut vfs, &dev, "1:/test.txt".to_string(), "r".to_string());
    assert_eq!(r.unwrap_err(), FOpenError::NoFilesystemError);
    assert_eq!(vfs.descriptors.len(), 0);
}

#[test]
fn open_errors_by_kind() {
    let dev = device();
    let mut vfs = fs_init();
    let e = |r: Result<FileDescriptor, FOpenError>| r.unwrap_err();
    assert_eq!(e(fopen(&mut vfs, &dev, "x:/test.txt".to_string(), "r".to_string())), FOpenError::ParsePathError);
    assert_eq!(e(fopen(&mut vfs, &dev, "3:/test.txt".to_string(), "r".to_string())), FOpenError::NoDiskError);
    assert_eq!(e(fopen(&mut vfs, &dev, "0:/test.txt".to_string(), "w".to_string())), FOpenError::InvalidFileModeError);
    assert_eq!(e(fopen(&mut vfs, &dev, "0:/test.txt".to_string(), "rw".to_string())), FOpenError::InvalidFileModeError);
    assert_eq!(e(fopen(&mut vfs, &dev, "0:/nothere.txt".to_string(), "r".to_string())), FOpenError::OpenFileError);
    assert_eq!(e(fopen(&mut vfs, &dev, "0:/test.txt/x".to_string(), "r".to_string())), FOpenError::OpenFileError);
    let mut empty = fs_new();
    assert_eq!(e(fopen(&mut empty, &dev, "0:/test.txt".to_string(), "r".to_string())), FOpenError::NoFilesystemError);
}

#[test]
fn open_read_and_seek_a_file() {
    let dev = device();
    let mut vfs = fs_init();
    let mut fd = fopen(&mut vfs, &dev, "0:/test.txt".to_string(), "r".to_string()).unwrap();
    assert_eq!(fd.index, 0);
    assert_eq!(vfs.descriptors.len(), 1);
    let read = fread(&vfs, &dev, fd.private.clone(), 5, 1, fd.index).unwrap();
    assert_eq!(read, b"hello".to_vec());
    fseek(&mut fd, 2, FileSeekMode::SEEK_SET).unwrap();
    let read = fread(&vfs, &dev, fd.private.clone(), 5, 1, fd.index).unwrap();
    assert_eq!(read, b"llo w".to_vec());
    let read = fread(&vfs, &dev, fd.private.clone(), 3, 3, fd.index).unwrap();
    assert_eq!(read, b"llo world".to_vec());
    assert!(fseek(&mut fd, 12, FileSeekMode::SEEK_SET).is_err());
    fseek(&mut fd, 0, FileSeekMode::SEEK_END).unwrap();
    fseek(&mut fd, 0, FileSeekMode::SEEK_SET).unwrap();
    fseek(&mut fd, 6, FileSeekMode::SEEK_CUR).unwrap();
    let read = fread(&vfs, &dev, fd.private.clone(), 5, 1, fd.index).unwrap();
    assert_eq!(read, b"world".to_vec());
}

#[test]
fn read_rejects_empty_requests_and_unknown_descriptors() {
    let dev = device();
    let mut vfs = fs_init();
    let fd = fopen(&mut vfs, &dev, "0:/test.txt".to_string(), "r".to_string()).unwrap();
    assert!(fread(&vfs, &dev, fd.private.clone(), 0, 1, fd.index).is_err());
    assert!(fread(&vfs, &dev, fd.private.clone(), 1, 0, fd.index).is_err());
    assert!(fread(&vfs, &dev, fd.private.clone(), 1, 1, 7).is_err());
    assert!(fread(&vfs, &dev, vec![9, 9, 9], 1, 1, fd.index).is_err());
}

#[test]
fn names_match_case_insensitively_on_disk_side() {
    let dev = device();
    let mut vfs = fs_init();
    let fd = fopen(&mut vfs, &dev, "0:/docs/note.txt".to_string(), "r".to_string()).unwrap();
    let read = fread(&vfs, &dev, fd.private.clone(), 4, 1, fd.index).unwrap();
    assert_eq!(read, b"memo".to_vec());
    let dir = fopen(&mut vfs, &dev, "0:/docs".to_string(), "r".to_string()).unwrap();
    assert_eq!(dir.index, 1);
    let d = fat16_decode_descriptor(&dir.private).unwrap();
    assert_eq!(d.item.item_type, FatItemType::Directory);
    let listing = d.item.directory.unwrap();
    assert_eq!(listing.total, 1);
    assert_eq!(&listing.items[0].filename, b"NOTE    ");
    assert_eq!(listing.sector_pos, 34);
}

#[test]
fn missing_component_below_root_is_not_found() {
    let dev = device();
    let d = resolved_disk(&dev);
    let root = init_path("0:/docs/none.txt".to_string()).unwrap();
    assert!(fat16_open(&d, &dev, &root.first, &FileMode::READ).is_err());
    let root = init_path("0:/docs/note.txt".to_string()).unwrap();
    assert!(fat16_open(&d, &dev, &root.first, &FileMode::WRITE).is_err());
    assert!(fat16_open(&d, &dev, &root.first, &FileMode::READ).is_ok());
}

#[test]
fn reads_follow_the_cluster_chain() {
    let dev = device();
    let mut vfs = fs_init();
    let fd = fopen(&mut vfs, &dev, "0:/big.bin".to_string(), "r".to_string()).unwrap();
    let read = fread(&vfs, &dev, fd.private.clone(), 700, 1, fd.index).unwrap();
    assert_eq!(read, big_contents());
    let read = fread(&vfs, &dev, fd.private.clone(), 100, 7, fd.index).unwrap();
    assert_eq!(read, big_contents());
}

#[test]
fn end_of_chain_stops_reads_past_the_cluster() {
    let dev = device();
    let d = resolved_disk(&dev);
    let root = init_path("0:/test.txt".to_string()).unwrap();
    let blob = fat16_open(&d, &dev, &root.first, &FileMode::READ).unwrap();
    assert_eq!(fat16_read(&d, &dev, &blob, 11, 1).unwrap(), b"hello world".to_vec());
    // Cluster 2 ends its chain with 0xFFF: nothing past its 512 bytes.
    assert!(fat16_read(&d, &dev, &blob, 600, 1).is_err());
    assert!(fat16_read(&d, &dev, &blob, 256, 3).is_err());
    assert!(fat16_read(&d, &dev, &blob, 512, 1).is_ok());
}

#[test]
fn bad_cluster_and_free_links_fail() {
    let mut img = volume();
    set_fat(&mut img, 5, 0xFF7);
    let dev = MemoryDisk::from_bytes(&img, &vec![]);
    let mut vfs = fs_init();
    let fd = fopen(&mut vfs, &dev, "0:/big.bin".to_string(), "r".to_string()).unwrap();
    assert!(fread(&vfs, &dev, fd.private.clone(), 600, 1, fd.index).is_err());
    let mut img = volume();
    set_fat(&mut img, 5, 0);
    let dev = MemoryDisk::from_bytes(&img, &vec![]);
    assert!(fread(&vfs, &dev, fd.private.clone(), 600, 1, fd.index).is_err());
    assert_eq!(fread(&vfs, &dev, fd.private.clone(), 500, 1, fd.index).unwrap(), big_contents()[0..500].to_vec());
}

#[test]
fn path_chain_keeps_components_in_order() {
    let root = init_path("1:/a/bb/ccc".to_string()).unwrap();
    assert_eq!(root.drive_number, 1);
    assert_eq!(path_parts(&root.first), vec!["a", "bb", "ccc"]);
    let root = init_path("7:/single".to_string()).unwrap();
    assert_eq!(root.drive_number, 7);
    assert_eq!(path_parts(&root.first), vec!["single"]);
    let root = init_path("0:/dir/".to_string()).unwrap();
    assert_eq!(path_parts(&root.first), vec!["dir"]);
    let root = init_path("0:/dir/  ".to_string()).unwrap();
    assert_eq!(path_parts(&root.first), vec!["dir", "  "]);
    let root = init_path("1:/a//b".to_string()).unwrap();
    assert_eq!(path_parts(&root.first), vec!["a", "b"]);
    let root = init_path("1:/a///b//".to_string()).unwrap();
    assert_eq!(path_parts(&root.first), vec!["a", "b"]);
}

#[test]
fn malformed_paths_are_rejected() {
    let long = format!("0:/{}", "a".repeat(106));
    assert_eq!(init_path(long).err().unwrap(), "Path > 108 character, too long.");
    let max = format!("0:/{}", "a".repeat(105));
    assert!(init_path(max).is_ok());
    assert_eq!(init_path("0:/".to_string()).err().unwrap(), "Path <= 3 character, too short.");
    assert_eq!(init_path("a:/b".to_string()).err().unwrap(), "Path does not start with a digit.");
    assert_eq!(
        init_path("0:\\b".to_string()).err().unwrap(),
        "Path does not contain the drive suffix :/ after first digit."
    );
}

#[test]
fn stream_read_spans_sectors() {
    let img: Vec<u8> = (0..2048u32).map(|i| (i * 7 % 256) as u8).collect();
    let dev = MemoryDisk::from_bytes(&img, &vec![]);
    let mut s = DiskStreamer::new(&plain_disk(0));
    s.seek(100);
    let r = s.read(&dev, 1000).unwrap();
    assert_eq!(r.len(), 1000);
    assert_eq!(r, img[100..1100].to_vec());
    assert_eq!(s.pos, 1100);
    let mut t = DiskStreamer::new(&plain_disk(0));
    t.seek(100);
    let mut pieces = t.read(&dev, 412).unwrap();
    pieces.extend(t.read(&dev, 512).unwrap());
    pieces.extend(t.read(&dev, 76).unwrap());
    assert_eq!(pieces, r);
}

#[test]
fn seek_then_read_twice_gives_the_same_bytes() {
    let img: Vec<u8> = (0..1024u32).map(|i| (i % 253) as u8).collect();
    let dev = MemoryDisk::from_bytes(&img, &vec![]);
    let mut s = DiskStreamer::new(&plain_disk(0));
    s.seek(300);
    let a = s.read(&dev, 400).unwrap();
    s.seek(300);
    let b = s.read(&dev, 400).unwrap();
    assert_eq!(a, b);
    assert_eq!(a, img[300..700].to_vec());
}

#[test]
fn stream_on_unaddressable_disk_fails() {
    let dev = device();
    let mut s = DiskStreamer::new(&plain_disk(2));
    assert!(s.read(&dev, 10).is_none());
    assert_eq!(s.pos, 0);
    assert!(disk_read_block(&plain_disk(2), &dev, 0, 1).is_none());
    let words = disk_read_block(&plain_disk(0), &dev, 0, 1).unwrap();
    assert_eq!(words.len(), 256);
    assert_eq!(words[0], 0x3CEB);
}

#[test]
fn descriptor_blob_round_trip() {
    let e = FatDirectoryItem {
        filename: *b"NOTE    ",
        extension: *b"TXT",
        attributes: 0x21,
        reserved: 1,
        creation_time_tenths_of_a_sec: 2,
        creation_time: 0x1234,
        creation_date: 0x5678,
        last_access: 0x9ABC,
        high_16_bits_first_cluster: 0,
        last_modification_time: 0xDEF0,
        last_modification_date: 0x1111,
        low_16_bits_first_cluster: 0x2222,
        file_size: 0xDEAD_BEEF,
    };
    let d = FatFileDescriptor {
        item: FatItem {
            item: Some(e),
            directory: Some(FatDirectory { items: vec![e, e], total: 2, sector_pos: 34, end_sector_pos: 0 }),
            item_type: FatItemType::Directory,
        },
        position: 0x0102_0304,
    };
    let blob = fat16_encode_descriptor(&d);
    assert_eq!(blob.len(), 51 + 64);
    let back = fat16_decode_descriptor(&blob).unwrap();
    assert_eq!(back.position, 0x0102_0304);
    assert_eq!(back.item.item_type, FatItemType::Directory);
    let b = back.item.item.unwrap();
    assert_eq!(b.filename, e.filename);
    assert_eq!(b.file_size, e.file_size);
    assert_eq!(b.low_16_bits_first_cluster, 0x2222);
    assert_eq!(b.creation_date, 0x5678);
    let dir = back.item.directory.unwrap();
    assert_eq!((dir.total, dir.sector_pos, dir.end_sector_pos, dir.items.len()), (2, 34, 0, 2));
    assert_eq!(dir.items[1].last_modification_time, 0xDEF0);
    let plain = FatFileDescriptor {
        item: FatItem { item: None, directory: None, item_type: FatItemType::File },
        position: 7,
    };
    let blob = fat16_encode_descriptor(&plain);
    assert_eq!(blob.len(), 39);
    let back = fat16_decode_descriptor(&blob).unwrap();
    assert!(back.item.item.is_none() && back.item.directory.is_none());
    assert_eq!(back.position, 7);
    assert!(fat16_decode_descriptor(&vec![0u8; 40]).is_none());
}

#[test]
fn seek_checks_the_file_size() {
    let dev = device();
    let d = resolved_disk(&dev);
    let root = init_path("0:/test.txt".to_string()).unwrap();
    let blob = fat16_open(&d, &dev, &root.first, &FileMode::READ).unwrap();
    let moved = fat16_seek(&blob, 11, FileSeekMode::SEEK_SET).unwrap();
    assert_eq!(fat16_decode_descriptor(&moved).unwrap().position, 11);
    assert!(fat16_seek(&moved, 1, FileSeekMode::SEEK_CUR).is_err());
    assert!(fat16_seek(&blob, 1, FileSeekMode::SEEK_END).is_err());
    let end = fat16_seek(&blob, 0, FileSeekMode::SEEK_END).unwrap();
    assert_eq!(fat16_decode_descriptor(&end).unwrap().position, 11);
}

#[test]
fn registry_fills_slots_in_order_and_resolves_first() {
    let mut vfs = fs_init();
    assert_eq!(vfs.filesystems.len(), 12);
    assert_eq!(vfs.filesystems[0].unwrap().kind, FileSystemKind::Fat16);
    let name: String = vfs.filesystems[0].unwrap().name.iter().collect();
    assert_eq!(name, "fat16               ");
    fs_insert_fs(&mut vfs, fat16_init());
    assert!(vfs.filesystems[1].is_some() && vfs.filesystems[2].is_none());
    let dev = device();
    let mut d = plain_disk(0);
    assert_eq!(fs_resolve(&vfs, &dev, &mut d), Some(0));
    assert!(d.filesystem.is_some() && d.fat_private.is_some());
    let mut blank = plain_disk(1);
    assert_eq!(fs_resolve(&vfs, &dev, &mut blank), None);
    assert!(blank.filesystem.is_none() && blank.fat_private.is_none());
    assert!(get_disk(&mut vfs, &dev, 3).is_none());
    let d2 = get_disk(&mut vfs, &dev, 2).unwrap();
    assert!(d2.filesystem.is_none());
    assert_eq!(d2.disk_number, 2);
}

#[test]
fn latin1_names_are_lowercased_before_matching() {
    let mut img = volume();
    let root = ROOT_SECTOR * 512;
    put(&mut img, root + 128, &entry(&[0xC9, b'T', 0xC9, b' ', b' ', b' ', b' ', b' '], b"   ", 0x20, 2, 11));
    let dev = MemoryDisk::from_bytes(&img, &vec![]);
    let mut vfs = fs_init();
    let fd = fopen(&mut vfs, &dev, "0:/\u{e9}t\u{e9}".to_string(), "r".to_string()).unwrap();
    assert_eq!(fread(&vfs, &dev, fd.private.clone(), 5, 1, fd.index).unwrap(), b"hello".to_vec());
    let fd = fopen(&mut vfs, &dev, "0:/\u{c9}T\u{c9}".to_string(), "r".to_string()).unwrap();
    assert_eq!(fread(&vfs, &dev, fd.private.clone(), 5, 1, fd.index).unwrap(), b"hello".to_vec());
}

#[test]
fn resolve_fails_when_root_directory_is_out_of_reach() {
    let mut img = volume();
    img[16] = 255; // FAT copies
    img[22..24].copy_from_slice(&65535u16.to_le_bytes()); // sectors per FAT
    let dev = MemoryDisk::from_bytes(&img, &vec![]);
    assert_eq!(fat16_resolve(&plain_disk(0), &dev).unwrap_err(), ResolveError::FailedToGetRootDirectory);
}

#[test]
fn path_components_match_without_regard_to_case() {
    let dev = device();
    let mut vfs = fs_init();
    let fd = fopen(&mut vfs, &dev, "0:/TEST.TXT".to_string(), "r".to_string()).unwrap();
    assert_eq!(fread(&vfs, &dev, fd.private.clone(), 5, 1, fd.index).unwrap(), b"hello".to_vec());
    let fd = fopen(&mut vfs, &dev, "0:/Docs/Note.Txt".to_string(), "r".to_string()).unwrap();
    assert_eq!(fread(&vfs, &dev, fd.private.clone(), 4, 1, fd.index).unwrap(), b"memo".to_vec());
}

#[test]
fn subdirectory_records_are_read_on_from_its_first_sector() {
    let mut img = volume();
    let root = ROOT_SECTOR * 512;
    put(&mut img, root + 128, &entry(b"MANY    ", b"   ", 0x10, 7, 0));
    // The list goes on in the next sector although the FAT ends the chain.
    set_fat(&mut img, 7, 0xFFF);
    for i in 0..20usize {
        let name = format!("F{:02}     ", i);
        let mut n = [0u8; 8];
        n.copy_from_slice(name.as_bytes());
        let at = if i < 16 { cluster_at(7) + 32 * i } else { cluster_at(8) + 32 * (i - 16) };
        put(&mut img, at, &entry(&n, b"TXT", 0x20, 4, 4));
    }
    let dev = MemoryDisk::from_bytes(&img, &vec![]);
    let mut vfs = fs_init();
    let dir = fopen(&mut vfs, &dev, "0:/many".to_string(), "r".to_string()).unwrap();
    let listing = fat16_decode_descriptor(&dir.private).unwrap().item.directory.unwrap();
    assert_eq!(listing.total, 20);
    assert_eq!(listing.items.len(), 20);
    assert_eq!(&listing.items[19].filename, b"F19     ");
    let fd = fopen(&mut vfs, &dev, "0:/many/f19.txt".to_string(), "r".to_string()).unwrap();
    assert_eq!(fread(&vfs, &dev, fd.private.clone(), 4, 1, fd.index).unwrap(), b"memo".to_vec());
}

#[test]
fn descriptor_table_grows_past_five_hundred_twelve() {
    let dev = device();
    let mut vfs = fs_init();
    for i in 0..520u16 {
        let fd = fopen(&mut vfs, &dev, "0:/test.txt".to_string(), "r".to_string()).unwrap();
        assert_eq!(fd.index, i);
    }
    assert_eq!(vfs.descriptors.len(), 520);
}

#[test]
fn device_handle_is_resolved_once_and_kept() {
    let dev = device();
    let mut vfs = fs_init();
    assert!(vfs.disks.iter().all(|d| d.is_none()));
    let first = get_disk(&mut vfs, &dev, 0).unwrap();
    assert!(first.filesystem.is_some());
    assert!(vfs.disks[0].is_some() && vfs.disks[1].is_none());
    // A later lookup hands out the kept handle, without resolving again.
    let blank = MemoryDisk::from_bytes(&vec![], &vec![]);
    let again = get_disk(&mut vfs, &blank, 0).unwrap();
    assert!(again.filesystem.is_some());
    assert_eq!(again.fat_private.unwrap().root_directory.unwrap().total, 3);
    let fd = fopen(&mut vfs, &blank, "0:/test.txt".to_string(), "r".to_string()).unwrap();
    assert_eq!(vfs.descriptors[fd.index as usize].index, fd.index);
}
