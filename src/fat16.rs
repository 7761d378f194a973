use vstd::prelude::*;

use crate::disk::{disk_bytes, Disk, SectorDevice, MAX_DISKS, SECTOR_BYTES};
use crate::file::{FileMode, FileSeekMode, FileSystem, FileSystemKind};
use crate::fat_blob::{
    descriptor_of, descriptor_view, fat16_decode_descriptor, fat16_encode_descriptor,
    lemma_blob_round_trip, DescriptorView,
};
use crate::fat_chain::{
    cluster_bytes, cluster_chain, cluster_for_offset, fat16_read_internal, fat_entry, file_read,
    first_cluster, lemma_chain_broken, fat16_get_first_cluster,
};
use crate::fat_lookup::{
    directory_entry, fat16_get_directory_entry, is_subdirectory, load_directory, lookup, walk,
};
use crate::path_parser::{parts_of, PathPart};
use crate::streamer::DiskStreamer;

verus! {

pub const FAT_16_SIGNATURE: u8 = 0x29;
pub const FAT_16_FAT_ENTRY_SIZE: u8 = 0x02;
pub const FAT_16_BAD_SECTOR: u16 = 0xFF7;
pub const FAT_16_UNUSED: u8 = 0x00;

pub const FAT_FILE_READ_ONLY: u8 = 0x01;
pub const FAT_FILE_HIDDEN: u8 = 0x02;
pub const FAT_FILE_SYSTEM: u8 = 0x04;
pub const FAT_FILE_VOLUME_LABEL: u8 = 0x08;
pub const FAT_FILE_SUBDIRECTORY: u8 = 0x10;
pub const FAT_FILE_ARCHIVE: u8 = 0x20;
pub const FAT_FILE_DEVICE: u8 = 0x40;
pub const FAT_FILE_RESERVED: u8 = 0x80;

/// First filename byte that ends a directory's list of entries.
pub const FAT_END_OF_DIRECTORY: u8 = 0x00;
/// First filename byte of a deleted entry.
pub const FAT_DELETED_ENTRY: u8 = 0xE5;

/// Bytes of the BIOS parameter block and the extended boot record together.
pub const FAT_H_SIZE: u32 = 62;
/// Bytes of one directory record.
pub const FAT_DIRECTORY_ITEM_SIZE: u32 = 32;

#[derive(Debug, Clone, Copy, PartialEq, Eq, Structural)]
pub enum FatItemType {
    Directory,
    File,
}

/// Extended boot record, as stored after the BIOS parameter block.
#[derive(Debug, Clone, Copy)]
pub struct FatHeaderExtended {
    pub drive_number: u8,
    pub win_nt_bit: u8,
    pub signature: u8,
    pub volume_id: u32,
    pub volume_id_string: [u8; 11],
    pub system_id_string: [u8; 8],
}

/// BIOS parameter block at the start of the boot sector.
#[derive(Debug, Clone, Copy)]
pub struct FatHeader {
    pub short_jmp_instruction: [u8; 3],
    pub oem_identifier: [u8; 8],
    pub bytes_per_sector: u16,
    pub sectors_per_cluster: u8,
    pub reserved_sectors: u16,
    pub fat_copies: u8,
    pub root_dir_entries: u16,
    pub number_of_sectors: u16,
    pub media_type: u8,
    pub sectors_per_fat: u16,
    pub sectors_per_track: u16,
    pub number_of_heads: u16,
    pub hidden_sectors: u32,
    pub sectors_big: u32,
}

/// The whole boot sector header.
#[derive(Debug, Clone, Copy)]
pub struct FatH {
    pub primary_header: FatHeader,
    pub extended_header: FatHeaderExtended,
}

/// One 32-byte 8.3 directory record.
#[derive(Debug, Clone, Copy)]
pub struct FatDirectoryItem {
    pub filename: [u8; 8],
    pub extension: [u8; 3],
    pub attributes: u8,
    pub reserved: u8,
    pub creation_time_tenths_of_a_sec: u8,
    pub creation_time: u16,
    pub creation_date: u16,
    pub last_access: u16,
    pub high_16_bits_first_cluster: u16,
    pub last_modification_time: u16,
    pub last_modification_date: u16,
    pub low_16_bits_first_cluster: u16,
    pub file_size: u32,
}

/// The live entries of a directory, in on-disk order.
#[derive(Debug, Clone)]
pub struct FatDirectory {
    pub items: Vec<FatDirectoryItem>,
    pub total: u32,
    pub sector_pos: u32,
    pub end_sector_pos: u32,
}

/// A resolved entry: a file, or a directory with its entries loaded.
#[derive(Debug, Clone)]
pub struct FatItem {
    pub item: Option<FatDirectoryItem>,
    pub directory: Option<FatDirectory>,
    pub item_type: FatItemType,
}

/// What an open FAT16 file keeps: its entry and a byte position.
#[derive(Debug, Clone)]
pub struct FatFileDescriptor {
    pub item: FatItem,
    pub position: u32,
}

/// The state that resolution attaches to a disk.
#[derive(Debug, Clone)]
pub struct FatPrivate {
    pub header: FatH,
    pub root_directory: Option<FatDirectory>,
    /// Used to stream data clusters.
    pub cluster_read_stream: Box<DiskStreamer>,
    /// Used to stream the file allocation table.
    pub fat_read_stream: Box<DiskStreamer>,
    /// Used to stream directories.
    pub directory_stream: Box<DiskStreamer>,
}

#[derive(Debug, Clone, Copy, PartialEq, Eq, Structural)]
pub enum ResolveError {
    InvalidSignature,
    NoExtendedHeader,
    FailedToReadHeader,
    FailedToGetRootDirectory,
}

/// The registry entry of this driver: its kind and its name, `fat16`
/// padded with spaces.
pub open spec fn fat16_filesystem() -> FileSystem {
    FileSystem {
        kind: FileSystemKind::Fat16,
        name: [
            'f', 'a', 't', '1', '6', ' ', ' ', ' ', ' ', ' ', ' ', ' ', ' ', ' ', ' ', ' ', ' ', ' ',
            ' ', ' ',
        ],
    }
}

/// The registry entry of this driver.
pub fn fat16_init() -> (r: FileSystem)
    ensures
        r == fat16_filesystem(),
        r.kind == FileSystemKind::Fat16,
        r.name@ == seq!['f', 'a', 't', '1', '6'] + Seq::new(15, |i: int| ' '),
{
    let r = FileSystem {
        kind: FileSystemKind::Fat16,
        name: [
            'f', 'a', 't', '1', '6', ' ', ' ', ' ', ' ', ' ', ' ', ' ', ' ', ' ', ' ', ' ', ' ', ' ',
            ' ', ' ',
        ],
    };
    assert(r.name@ =~= seq!['f', 'a', 't', '1', '6'] + Seq::new(15, |i: int| ' '));
    assert(r.name =~= fat16_filesystem().name);
    r
}

// ---------------------------------------------------------------------------
// Decoding of on-disk records

/// Little-endian 16-bit value at offset `o` of `b`.
pub open spec fn le16(b: Seq<u8>, o: int) -> u16 {
    (b[o] + b[o + 1] * 256) as u16
}

/// Little-endian 32-bit value at offset `o` of `b`.
pub open spec fn le32(b: Seq<u8>, o: int) -> u32 {
    (b[o] + b[o + 1] * 256 + b[o + 2] * 65536 + b[o + 3] * 16777216) as u32
}

/// The boot sector header that the first 62 bytes `b` of a volume describe.
pub open spec fn fat_h_of(b: Seq<u8>) -> FatH {
    FatH {
        primary_header: FatHeader {
            short_jmp_instruction: [b[0], b[1], b[2]],
            oem_identifier: [b[3], b[4], b[5], b[6], b[7], b[8], b[9], b[10]],
            bytes_per_sector: le16(b, 11),
            sectors_per_cluster: b[13],
            reserved_sectors: le16(b, 14),
            fat_copies: b[16],
            root_dir_entries: le16(b, 17),
            number_of_sectors: le16(b, 19),
            media_type: b[21],
            sectors_per_fat: le16(b, 22),
            sectors_per_track: le16(b, 24),
            number_of_heads: le16(b, 26),
            hidden_sectors: le32(b, 28),
            sectors_big: le32(b, 32),
        },
        extended_header: FatHeaderExtended {
            drive_number: b[36],
            win_nt_bit: b[37],
            signature: b[38],
            volume_id: le32(b, 39),
            volume_id_string: [b[43], b[44], b[45], b[46], b[47], b[48], b[49], b[50], b[51], b[52], b[53]],
            system_id_string: [b[54], b[55], b[56], b[57], b[58], b[59], b[60], b[61]],
        },
    }
}

/// The directory record that the 32 bytes `b` hold.
pub open spec fn item_of(b: Seq<u8>) -> FatDirectoryItem {
    FatDirectoryItem {
        filename: [b[0], b[1], b[2], b[3], b[4], b[5], b[6], b[7]],
        extension: [b[8], b[9], b[10]],
        attributes: b[11],
        reserved: b[12],
        creation_time_tenths_of_a_sec: b[13],
        creation_time: le16(b, 14),
        creation_date: le16(b, 16),
        last_access: le16(b, 18),
        high_16_bits_first_cluster: le16(b, 20),
        last_modification_time: le16(b, 22),
        last_modification_date: le16(b, 24),
        low_16_bits_first_cluster: le16(b, 26),
        file_size: le32(b, 28),
    }
}

pub(crate) fn read_le16(b: &Vec<u8>, o: usize) -> (r: u16)
    requires
        o + 2 <= b@.len(),
    ensures
        r == le16(b@, o as int),
{
    let _len: usize = b.len();
    b[o] as u16 + b[o + 1] as u16 * 256
}

pub(crate) fn read_le32(b: &Vec<u8>, o: usize) -> (r: u32)
    requires
        o + 4 <= b@.len(),
    ensures
        r == le32(b@, o as int),
{
    let _len: usize = b.len();
    b[o] as u32 + b[o + 1] as u32 * 256 + b[o + 2] as u32 * 65536 + b[o + 3] as u32 * 16777216
}

/// Decodes the boot sector header from its first 62 bytes.
fn to_fat_h(b: &Vec<u8>) -> (r: FatH)
    requires
        b@.len() >= FAT_H_SIZE,
    ensures
        r == fat_h_of(b@),
{
    let r = FatH {
        primary_header: FatHeader {
            short_jmp_instruction: [b[0], b[1], b[2]],
            oem_identifier: [b[3], b[4], b[5], b[6], b[7], b[8], b[9], b[10]],
            bytes_per_sector: read_le16(b, 11),
            sectors_per_cluster: b[13],
            reserved_sectors: read_le16(b, 14),
            fat_copies: b[16],
            root_dir_entries: read_le16(b, 17),
            number_of_sectors: read_le16(b, 19),
            media_type: b[21],
            sectors_per_fat: read_le16(b, 22),
            sectors_per_track: read_le16(b, 24),
            number_of_heads: read_le16(b, 26),
            hidden_sectors: read_le32(b, 28),
            sectors_big: read_le32(b, 32),
        },
        extended_header: FatHeaderExtended {
            drive_number: b[36],
            win_nt_bit: b[37],
            signature: b[38],
            volume_id: read_le32(b, 39),
            volume_id_string: [b[43], b[44], b[45], b[46], b[47], b[48], b[49], b[50], b[51], b[52], b[53]],
            system_id_string: [b[54], b[55], b[56], b[57], b[58], b[59], b[60], b[61]],
        },
    };
    assert(r.primary_header.short_jmp_instruction@ =~= fat_h_of(b@).primary_header.short_jmp_instruction@);
    assert(r.primary_header.oem_identifier@ =~= fat_h_of(b@).primary_header.oem_identifier@);
    assert(r.extended_header.volume_id_string@ =~= fat_h_of(b@).extended_header.volume_id_string@);
    assert(r.extended_header.system_id_string@ =~= fat_h_of(b@).extended_header.system_id_string@);
    r
}

/// Decodes the directory record that starts at byte `o` of `b`.
pub(crate) fn to_fat_directory_item(b: &Vec<u8>, o: usize) -> (r: FatDirectoryItem)
    requires
        o + FAT_DIRECTORY_ITEM_SIZE <= b@.len(),
    ensures
        r == item_of(b@.subrange(o as int, o + 32)),
{
    let ghost s = b@.subrange(o as int, o + 32);
    let _len: usize = b.len();
    let r = FatDirectoryItem {
        filename: [b[o], b[o + 1], b[o + 2], b[o + 3], b[o + 4], b[o + 5], b[o + 6], b[o + 7]],
        extension: [b[o + 8], b[o + 9], b[o + 10]],
        attributes: b[o + 11],
        reserved: b[o + 12],
        creation_time_tenths_of_a_sec: b[o + 13],
        creation_time: read_le16(b, o + 14),
        creation_date: read_le16(b, o + 16),
        last_access: read_le16(b, o + 18),
        high_16_bits_first_cluster: read_le16(b, o + 20),
        last_modification_time: read_le16(b, o + 22),
        last_modification_date: read_le16(b, o + 24),
        low_16_bits_first_cluster: read_le16(b, o + 26),
        file_size: read_le32(b, o + 28),
    };
    assert(r.filename@ =~= item_of(s).filename@);
    assert(r.extension@ =~= item_of(s).extension@);
    r
}

// ---------------------------------------------------------------------------
// Directory scanning

/// A record whose first filename byte ends the directory's list.
pub open spec fn ends_list(e: FatDirectoryItem) -> bool {
    e.filename@[0] == FAT_END_OF_DIRECTORY
}

/// A record that was deleted and is to be skipped.
pub open spec fn is_deleted(e: FatDirectoryItem) -> bool {
    e.filename@[0] == FAT_DELETED_ENTRY
}

/// Number of live records before the end of the list: a deleted record is
/// skipped, the first end-of-list record stops the count.
#[verifier::opaque]
pub open spec fn live_count(recs: Seq<FatDirectoryItem>) -> nat
    decreases recs.len(),
{
    if recs.len() == 0 || ends_list(recs[0]) {
        0
    } else {
        live_count(recs.drop_first()) + if is_deleted(recs[0]) {
            0nat
        } else {
            1nat
        }
    }
}

/// The live records before the end of the list, in order.
#[verifier::opaque]
pub open spec fn live_entries(recs: Seq<FatDirectoryItem>) -> Seq<FatDirectoryItem>
    decreases recs.len(),
{
    if recs.len() == 0 || ends_list(recs[0]) {
        Seq::empty()
    } else if is_deleted(recs[0]) {
        live_entries(recs.drop_first())
    } else {
        seq![recs[0]] + live_entries(recs.drop_first())
    }
}

/// The `cap` consecutive records on device `number` from byte `start`.
pub open spec fn disk_records<D: SectorDevice>(dev: &D, number: u8, start: int, cap: nat) -> Seq<
    FatDirectoryItem,
> {
    Seq::new(cap, |k: int| item_of(disk_bytes(dev, number, start + 32 * k, 32)))
}

/// The whole records that the bytes `b` hold.
pub open spec fn records_in(b: Seq<u8>) -> Seq<FatDirectoryItem> {
    Seq::new(b.len() / 32, |k: int| item_of(b.subrange(32 * k, 32 * k + 32)))
}

/// Records before the end of the list count, and are kept, on their own.
pub proof fn lemma_live_concat(a: Seq<FatDirectoryItem>, b: Seq<FatDirectoryItem>)
    requires
        forall|i: int| 0 <= i < a.len() ==> !ends_list(#[trigger] a[i]),
    ensures
        live_count(a + b) == live_count(a) + live_count(b),
        live_entries(a + b) == live_entries(a) + live_entries(b),
    decreases a.len(),
{
    reveal(live_count);
    reveal(live_entries);
    if a.len() == 0 {
        assert(a + b =~= b);
        assert(live_entries(a) + live_entries(b) =~= live_entries(b));
    } else {
        let t = a.drop_first();
        assert forall|i: int| 0 <= i < t.len() implies !ends_list(#[trigger] t[i]) by {
            assert(t[i] == a[i + 1]);
        }
        lemma_live_concat(t, b);
        assert((a + b).drop_first() =~= t + b);
        assert((a + b)[0] == a[0]);
        assert(!ends_list(a[0]));
        if !is_deleted(a[0]) {
            assert(seq![a[0]] + live_entries(t + b) =~= (seq![a[0]] + live_entries(t)) + live_entries(
                b,
            ));
        }
    }
}

pub(crate) proof fn lemma_live_one(e: FatDirectoryItem)
    ensures
        live_count(seq![e]) == if ends_list(e) || is_deleted(e) {
            0nat
        } else {
            1nat
        },
        live_entries(seq![e]) == if ends_list(e) || is_deleted(e) {
            Seq::<FatDirectoryItem>::empty()
        } else {
            seq![e]
        },
{
    reveal(live_count);
    reveal(live_entries);
    let s = seq![e];
    assert(s.len() == 1 && s[0] == e);
    assert(s.drop_first() =~= Seq::<FatDirectoryItem>::empty());
    assert(live_count(Seq::<FatDirectoryItem>::empty()) == 0);
    assert(live_entries(Seq::<FatDirectoryItem>::empty()) == Seq::<FatDirectoryItem>::empty());
    assert(seq![e] + Seq::<FatDirectoryItem>::empty() =~= seq![e]);
}

proof fn lemma_live_step(recs: Seq<FatDirectoryItem>, i: int)
    requires
        0 <= i < recs.len(),
    ensures
        live_count(recs.subrange(i, recs.len() as int)) == if ends_list(recs[i]) {
            0
        } else {
            live_count(recs.subrange(i + 1, recs.len() as int)) + if is_deleted(recs[i]) {
                0nat
            } else {
                1nat
            }
        },
        live_entries(recs.subrange(i, recs.len() as int)) == if ends_list(recs[i]) {
            Seq::empty()
        } else if is_deleted(recs[i]) {
            live_entries(recs.subrange(i + 1, recs.len() as int))
        } else {
            seq![recs[i]] + live_entries(recs.subrange(i + 1, recs.len() as int))
        },
{
    reveal(live_count);
    reveal(live_entries);
    let s = recs.subrange(i, recs.len() as int);
    assert(s.drop_first() =~= recs.subrange(i + 1, recs.len() as int));
    assert(s[0] == recs[i]);
}

/// A scan of `cap` records from sector `start_sector` stays within what a
/// 32-bit stream position addresses.
pub open spec fn scan_fits(start_sector: int, cap: int) -> bool {
    start_sector * 512 + cap * 32 <= u32::MAX
}

/// Reads the record at the stream's position and moves past it.
fn read_record<D: SectorDevice>(stream: &mut DiskStreamer, dev: &D) -> (r: Option<FatDirectoryItem>)
    requires
        old(stream).pos + 32 <= u32::MAX,
        old(stream).disk_number < MAX_DISKS,
    ensures
        r == Some(item_of(disk_bytes(dev, old(stream).disk_number, old(stream).pos as int, 32))),
        final(stream).pos == old(stream).pos + 32,
        final(stream).disk_number == old(stream).disk_number,
{
    let bytes = match stream.read(dev, FAT_DIRECTORY_ITEM_SIZE) {
        None => { return None; },
        Some(b) => b,
    };
    assert(bytes@.subrange(0, 32) =~= bytes@);
    Some(to_fat_directory_item(&bytes, 0))
}

/// `a` in front of the records that `o` holds, if it holds any.
pub open spec fn prepend_records(a: Seq<FatDirectoryItem>, o: Option<Seq<FatDirectoryItem>>) -> Option<
    Seq<FatDirectoryItem>,
> {
    match o {
        None => None,
        Some(r) => Some(a + r),
    }
}

/// The records of the directory that starts at byte `start` of device
/// `number`, from record `i` on, read one after another up to and
/// including the end-of-list record; `None` when the device cannot be read
/// or the list runs past what a 32-bit stream position addresses.
#[verifier::opaque]
pub open spec fn dir_records<D: SectorDevice>(dev: &D, number: u8, start: int, i: nat) -> Option<
    Seq<FatDirectoryItem>,
>
    decreases u32::MAX - start - 32 * i,
{
    if number >= MAX_DISKS || start < 0 || start + 32 * i + 32 > u32::MAX {
        None
    } else {
        let e = item_of(disk_bytes(dev, number, start + 32 * i, 32));
        if ends_list(e) {
            Some(seq![e])
        } else {
            prepend_records(seq![e], dir_records(dev, number, start, i + 1))
        }
    }
}

/// `recs` are the records at `start`, `start + 32`, ... of device `number`,
/// and only the last one ends the list.
#[verifier::opaque]
pub open spec fn dir_holds<D: SectorDevice>(
    dev: &D,
    number: u8,
    start: int,
    recs: Seq<FatDirectoryItem>,
) -> bool {
    &&& recs.len() >= 1
    &&& ends_list(recs.last())
    &&& forall|k: int|
        0 <= k < recs.len() ==> #[trigger] recs[k] == item_of(
            disk_bytes(dev, number, start + 32 * k, 32),
        ) && (k < recs.len() - 1 ==> !ends_list(recs[k]))
}

/// `seen` are the records at `start`, `start + 32`, ... of device
/// `number`, none of which ends the list.
#[verifier::opaque]
pub open spec fn dir_prefix<D: SectorDevice>(
    dev: &D,
    number: u8,
    start: int,
    seen: Seq<FatDirectoryItem>,
) -> bool {
    forall|k: int|
        0 <= k < seen.len() ==> #[trigger] seen[k] == item_of(
            disk_bytes(dev, number, start + 32 * k, 32),
        ) && !ends_list(seen[k])
}

proof fn lemma_dir_prefix_push<D: SectorDevice>(
    dev: &D,
    number: u8,
    start: int,
    seen: Seq<FatDirectoryItem>,
    e: FatDirectoryItem,
)
    requires
        dir_prefix(dev, number, start, seen),
        e == item_of(disk_bytes(dev, number, start + 32 * seen.len(), 32)),
    ensures
        !ends_list(e) ==> dir_prefix(dev, number, start, seen.push(e)),
        ends_list(e) ==> dir_holds(dev, number, start, seen.push(e)),
{
    reveal(dir_prefix);
    reveal(dir_holds);
    let r = seen.push(e);
    assert forall|k: int| 0 <= k < seen.len() implies #[trigger] r[k] == seen[k] by {}
    assert(r.last() == e);
}

proof fn lemma_dir_none<D: SectorDevice>(dev: &D, number: u8, start: int, i: nat)
    requires
        number >= MAX_DISKS || start < 0 || start + 32 * i + 32 > u32::MAX,
    ensures
        dir_records(dev, number, start, i) is None,
{
    reveal(dir_records);
}

proof fn lemma_dir_step<D: SectorDevice>(dev: &D, number: u8, start: int, i: nat)
    requires
        number < MAX_DISKS,
        start >= 0,
        start + 32 * i + 32 <= u32::MAX,
    ensures
        ({
            let e = item_of(disk_bytes(dev, number, start + 32 * i, 32));
            dir_records(dev, number, start, i) == if ends_list(e) {
                Some(seq![e])
            } else {
                prepend_records(seq![e], dir_records(dev, number, start, i + 1))
            }
        }),
{
    reveal(dir_records);
}

/// Counts the live records of the directory that starts at
/// `directory_start_sector`: records are read one after another until the
/// end-of-list record. Also gives the index of that record.
pub(crate) fn fat16_get_total_items_for_directory<D: SectorDevice>(
    stream: DiskStreamer,
    dev: &D,
    directory_start_sector: u32,
) -> (r: Option<(u32, u32)>)
    ensures
        r is None <==> dir_records(dev, stream.disk_number, directory_start_sector * 512, 0) is None,
        r matches Some((n, t)) ==> (dir_records(
            dev,
            stream.disk_number,
            directory_start_sector * 512,
            0,
        ) matches Some(recs) && recs.len() == t + 1 && n == live_count(recs) && dir_holds(
            dev,
            stream.disk_number,
            directory_start_sector * 512,
            recs,
        ) && directory_start_sector * 512 + 32 * t + 32 <= u32::MAX && stream.disk_number
            < MAX_DISKS),
{
    let ghost n = stream.disk_number;
    let ghost start = directory_start_sector * 512;
    if stream.disk_number >= MAX_DISKS {
        proof {
            lemma_dir_none(dev, n, start, 0);
        }
        return None;
    }
    if directory_start_sector as u64 * 512 > u32::MAX as u64 {
        proof {
            lemma_dir_none(dev, n, start, 0);
        }
        return None;
    }
    let directory_start_position: u32 = directory_start_sector * SECTOR_BYTES;
    let mut cursor = stream;
    cursor.seek(directory_start_position);
    let ghost mut seen: Seq<FatDirectoryItem> = Seq::empty();
    let mut count: u32 = 0;
    let mut i: u32 = 0;
    proof {
        if let Some(r) = dir_records(dev, n, start, 0) {
            assert(seen + r =~= r);
        }
        reveal(live_count);
    }
    proof {
        reveal(dir_prefix);
    }
    loop
        invariant
            n == stream.disk_number,
            n < MAX_DISKS,
            cursor.disk_number == n,
            start == directory_start_sector * 512,
            start == directory_start_position,
            cursor.pos == start + 32 * i,
            seen.len() == i,
            count <= i,
            dir_prefix(dev, n, start, seen),
            count == live_count(seen),
            dir_records(dev, n, start, 0) == prepend_records(
                seen,
                dir_records(dev, n, start, i as nat),
            ),
        decreases u32::MAX - start - 32 * i,
    {
        if cursor.pos as u64 + 32 > u32::MAX as u64 {
            proof {
                lemma_dir_none(dev, n, start, i as nat);
            }
            return None;
        }
        let e = match read_record(&mut cursor, dev) {
            None => { return None; },
            Some(e) => e,
        };
        proof {
            lemma_dir_step(dev, n, start, i as nat);
            lemma_dir_prefix_push(dev, n, start, seen, e);
            assert forall|k: int| 0 <= k < seen.len() implies !ends_list(#[trigger] seen[k]) by {
                reveal(dir_prefix);
            }
            lemma_live_concat(seen, seq![e]);
            lemma_live_one(e);
        }
        if e.filename[0] == FAT_END_OF_DIRECTORY {
            assert(seen + seq![e] =~= seen.push(e));
            return Some((count, i));
        }
        if e.filename[0] != FAT_DELETED_ENTRY {
            count = count + 1;
        }
        proof {
            if let Some(r) = dir_records(dev, n, start, (i + 1) as nat) {
                assert(seen + (seq![e] + r) =~= seen.push(e) + r);
            }
            assert(seen + seq![e] =~= seen.push(e));
            seen = seen.push(e);
        }
        i = i + 1;
    }
}

/// The live records among the whole records of `dir`, in order.
pub(crate) fn to_fat_directory_items(dir: &Vec<u8>) -> (r: Vec<FatDirectoryItem>)
    ensures
        r@ == live_entries(records_in(dir@)),
{
    let ghost recs = records_in(dir@);
    let len: usize = dir.len();
    let total: usize = len / 32;
    let mut res: Vec<FatDirectoryItem> = Vec::new();
    let mut k: usize = 0;
    assert(recs.subrange(0, total as int) =~= recs);
    assert(res@ + live_entries(recs) =~= live_entries(recs));
    while k < total
        invariant
            recs == records_in(dir@),
            len == dir@.len(),
            total == recs.len(),
            k <= total,
            res@ + live_entries(recs.subrange(k as int, total as int)) == live_entries(recs),
        decreases total - k,
    {
        assert(k * 32 + 32 <= dir@.len()) by (nonlinear_arith)
            requires
                k < total,
                total == dir@.len() / 32,
        ;
        let item = to_fat_directory_item(dir, k * 32);
        proof {
            assert(item == recs[k as int]);
            lemma_live_step(recs, k as int);
        }
        if item.filename[0] == FAT_END_OF_DIRECTORY {
            assert(res@ =~= res@ + live_entries(recs.subrange(k as int, total as int)));
            return res;
        }
        if item.filename[0] != FAT_DELETED_ENTRY {
            let ghost rest = live_entries(recs.subrange(k + 1, total as int));
            let ghost before = res@;
            res.push(item);
            assert(res@ + rest =~= before + (seq![item] + rest));
        }
        k = k + 1;
    }
    proof {
        reveal(live_entries);
        assert(recs.subrange(k as int, total as int).len() == 0);
    }
    assert(res@ =~= res@ + live_entries(recs.subrange(k as int, total as int)));
    res
}

/// Records of `b`, seen as the records of the disk region they were read from.
proof fn lemma_records_of_read<D: SectorDevice>(dev: &D, number: u8, start: int, cap: nat)
    ensures
        records_in(disk_bytes(dev, number, start, cap * 32)) =~= disk_records(dev, number, start, cap),
{
    let b = disk_bytes(dev, number, start, cap * 32);
    assert(b.len() / 32 == cap) by (nonlinear_arith)
        requires
            b.len() == cap * 32,
    ;
    assert forall|k: int| 0 <= k < cap implies #[trigger] records_in(b)[k] == disk_records(
        dev,
        number,
        start,
        cap,
    )[k] by {
        assert(32 * k + 32 <= cap * 32) by (nonlinear_arith)
            requires
                0 <= k < cap,
        ;
        assert(b.subrange(32 * k, 32 * k + 32) =~= disk_bytes(dev, number, start + 32 * k, 32));
    }
}

/// The records before the end-of-list record, read in one piece, keep the
/// same live entries as the scan that found them.
pub(crate) proof fn lemma_dir_read<D: SectorDevice>(
    dev: &D,
    number: u8,
    start: int,
    recs: Seq<FatDirectoryItem>,
)
    requires
        dir_holds(dev, number, start, recs),
    ensures
        live_entries(records_in(disk_bytes(dev, number, start, ((recs.len() - 1) * 32) as nat)))
            == live_entries(recs),
{
    reveal(dir_holds);
    let t = (recs.len() - 1) as nat;
    lemma_records_of_read(dev, number, start, t);
    let pre = recs.take(t as int);
    let last = recs.last();
    assert(disk_records(dev, number, start, t) =~= pre) by {
        assert forall|k: int| 0 <= k < t implies #[trigger] disk_records(dev, number, start, t)[k]
            == pre[k] by {
            assert(recs[k] == item_of(disk_bytes(dev, number, start + 32 * k, 32)));
        }
    }
    assert forall|k: int| 0 <= k < pre.len() implies !ends_list(#[trigger] pre[k]) by {
        assert(pre[k] == recs[k]);
    }
    lemma_live_concat(pre, seq![last]);
    lemma_live_one(last);
    assert(recs =~= pre + seq![last]);
    assert(live_entries(pre) + Seq::<FatDirectoryItem>::empty() =~= live_entries(pre));
}

// ---------------------------------------------------------------------------
// Resolution

/// Sector of the root directory: past the reserved area and every FAT copy.
pub open spec fn root_dir_sector(h: FatHeader) -> int {
    h.fat_copies * h.sectors_per_fat + h.reserved_sectors
}

/// Bytes of the root directory.
pub open spec fn root_dir_size(h: FatHeader) -> int {
    h.root_dir_entries * 32
}

/// `d` is the root directory that header `h` describes on device `number`:
/// the count comes from the scan up to the end-of-list record, the entries
/// from the root directory's area.
pub open spec fn is_root_directory<D: SectorDevice>(
    d: FatDirectory,
    dev: &D,
    number: u8,
    h: FatHeader,
) -> bool {
    let recs = disk_records(dev, number, root_dir_sector(h) * 512, h.root_dir_entries as nat);
    &&& d.items@ == live_entries(recs)
    &&& dir_records(dev, number, root_dir_sector(h) * 512, 0) matches Some(scan) && d.total
        == live_count(scan)
    &&& d.sector_pos == root_dir_sector(h)
    &&& d.end_sector_pos == root_dir_sector(h) + root_dir_size(h) / 512
}

fn fat16_sector_to_absolute(sector: u32) -> (r: u32)
    requires
        sector * 512 <= u32::MAX,
    ensures
        r == sector * 512,
{
    sector * SECTOR_BYTES
}

/// Loads the root directory: counts its live records, then reads its whole
/// area in one pass and keeps those records.
fn fat16_get_root_directory<D: SectorDevice>(
    dev: &D,
    primary_header: &FatHeader,
    fat_private: &FatPrivate,
) -> (r: Option<FatDirectory>)
    ensures
        r is None <==> (dir_records(
            dev,
            fat_private.directory_stream.disk_number,
            root_dir_sector(*primary_header) * 512,
            0,
        ) is None || !scan_fits(
            root_dir_sector(*primary_header),
            primary_header.root_dir_entries as int,
        )),
        r matches Some(d) ==> is_root_directory(
            d,
            dev,
            fat_private.directory_stream.disk_number,
            *primary_header,
        ),
{
    assert(primary_header.fat_copies * primary_header.sectors_per_fat <= 255 * 65535) by (
    nonlinear_arith)
        requires
            primary_header.fat_copies <= 255,
            primary_header.sectors_per_fat <= 65535,
    ;
    let root_dir_sector_position: u32 = primary_header.fat_copies as u32
        * primary_header.sectors_per_fat as u32 + primary_header.reserved_sectors as u32;
    let root_dir_size: u32 = primary_header.root_dir_entries as u32 * FAT_DIRECTORY_ITEM_SIZE;
    let stream = *fat_private.directory_stream;
    let total_items = match fat16_get_total_items_for_directory(stream, dev, root_dir_sector_position) {
        None => { return None; },
        Some((n, _end)) => n,
    };
    if root_dir_sector_position as u64 * 512 + root_dir_size as u64 > u32::MAX as u64 {
        return None;
    }
    let position = fat16_sector_to_absolute(root_dir_sector_position);
    let mut stream = stream;
    stream.seek(position);
    let dir = match stream.read(dev, root_dir_size) {
        None => { return None; },
        Some(d) => d,
    };
    let items = to_fat_directory_items(&dir);
    let ghost recs = disk_records(
        dev,
        stream.disk_number,
        root_dir_sector_position * 512,
        primary_header.root_dir_entries as nat,
    );
    proof {
        lemma_records_of_read(
            dev,
            stream.disk_number,
            position as int,
            primary_header.root_dir_entries as nat,
        );
    }
    Some(
        FatDirectory {
            items,
            total: total_items,
            sector_pos: root_dir_sector_position,
            end_sector_pos: root_dir_sector_position + root_dir_size / SECTOR_BYTES,
        },
    )
}

/// The header that the first bytes of device `number` hold.
pub open spec fn header_on<D: SectorDevice>(dev: &D, number: u8) -> FatH {
    fat_h_of(disk_bytes(dev, number, 0, FAT_H_SIZE as nat))
}

/// Outcome of resolving device `number` as FAT16, short of the state built.
pub open spec fn resolve_outcome<D: SectorDevice>(dev: &D, number: u8) -> Result<(), ResolveError> {
    let h = header_on(dev, number);
    if number >= MAX_DISKS {
        Err(ResolveError::FailedToReadHeader)
    } else if h.extended_header.signature != FAT_16_SIGNATURE {
        Err(ResolveError::InvalidSignature)
    } else if dir_records(dev, number, root_dir_sector(h.primary_header) * 512, 0) is None
        || !scan_fits(root_dir_sector(h.primary_header), h.primary_header.root_dir_entries as int) {
        Err(ResolveError::FailedToGetRootDirectory)
    } else {
        Ok(())
    }
}

/// `p` is the state that resolving device `number` as FAT16 yields.
pub open spec fn is_resolved_state<D: SectorDevice>(p: FatPrivate, dev: &D, number: u8) -> bool {
    &&& p.header == header_on(dev, number)
    &&& p.root_directory matches Some(d) && is_root_directory(
        d,
        dev,
        number,
        p.header.primary_header,
    )
    &&& p.cluster_read_stream.disk_number == number
    &&& p.fat_read_stream.disk_number == number
    &&& p.directory_stream.disk_number == number
    &&& p.cluster_read_stream.pos == 0
    &&& p.fat_read_stream.pos == 0
    &&& p.directory_stream.pos == 0
}

/// Recognises a FAT16 volume on `disk`: reads and checks the boot sector,
/// then loads the root directory.
pub fn fat16_resolve<D: SectorDevice>(disk: &Disk, dev: &D) -> (r: Result<Box<FatPrivate>, ResolveError>)
    ensures
        r matches Err(e) ==> resolve_outcome(dev, disk.disk_number) == Err::<(), ResolveError>(e),
        r is Ok <==> resolve_outcome(dev, disk.disk_number) is Ok,
        r matches Ok(p) ==> is_resolved_state(*p, dev, disk.disk_number),
{
    let mut disk_stream = DiskStreamer::new(disk);
    let fat_h = match disk_stream.read(dev, FAT_H_SIZE) {
        None => { return Err(ResolveError::FailedToReadHeader); },
        Some(b) => b,
    };
    let header = to_fat_h(&fat_h);
    if header.extended_header.signature != FAT_16_SIGNATURE {
        return Err(ResolveError::InvalidSignature);
    }
    let mut fat_private = FatPrivate {
        header,
        root_directory: None,
        cluster_read_stream: DiskStreamer::new(disk),
        fat_read_stream: DiskStreamer::new(disk),
        directory_stream: DiskStreamer::new(disk),
    };
    let root_directory = match fat16_get_root_directory(dev, &header.primary_header, &fat_private) {
        None => { return Err(ResolveError::FailedToGetRootDirectory); },
        Some(d) => d,
    };
    fat_private.root_directory = Some(root_directory);
    Ok(Box::new(fat_private))
}

/// The descriptor that opening entry `e` yields: position zero, and for a
/// directory its loaded entries.
pub open spec fn opened_view<D: SectorDevice>(dev: &D, p: FatPrivate, e: FatDirectoryItem) -> DescriptorView {
    (
        if is_subdirectory(e) {
            FatItemType::Directory
        } else {
            FatItemType::File
        },
        Some(e),
        if is_subdirectory(e) {
            let l = load_directory(dev, p, e)->0;
            Some((l.0, l.1 as u32, l.2 as u32, 0u32))
        } else {
            None
        },
        0u32,
    )
}

/// Opens the file that `path` names, for reading only, and returns its
/// descriptor as opaque bytes.
pub fn fat16_open<D: SectorDevice>(disk: &Disk, dev: &D, path: &PathPart, mode: &FileMode) -> (r:
    Result<Vec<u8>, ()>)
    ensures
        r is Ok <==> (*mode == FileMode::READ && directory_entry(dev, *disk, parts_of(*path)) matches Ok(
            Some(_),
        )),
        r matches Ok(b) ==> disk.fat_private is Some && descriptor_of(b@) == Some(
            opened_view(
                dev,
                *disk.fat_private->0,
                directory_entry(dev, *disk, parts_of(*path))->Ok_0->0,
            ),
        ),
{
    if *mode != FileMode::READ {
        return Err(());
    }
    let item = match fat16_get_directory_entry(disk, dev, path) {
        Err(_) => { return Err(()); },
        Ok(None) => { return Err(()); },
        Ok(Some(i)) => i,
    };
    let fat_file_descriptor = FatFileDescriptor { position: 0, item };
    let blob = fat16_encode_descriptor(&fat_file_descriptor);
    proof {
        lemma_blob_round_trip(descriptor_view(fat_file_descriptor));
        let v = descriptor_view(fat_file_descriptor);
        let w = opened_view(dev, *disk.fat_private->0, fat_file_descriptor.item.item->0);
        assert(v.2 == w.2);
        assert(v == w);
    }
    Ok(blob)
}

/// The `k` chunks of `size` bytes read at `pos`, `pos + size`, ... of the
/// chain from `start`, joined in order.
pub open spec fn repeated_read<D: SectorDevice>(
    dev: &D,
    p: FatPrivate,
    start: u16,
    pos: nat,
    size: nat,
    k: nat,
) -> Option<Seq<u8>>
    decreases k,
{
    if k == 0 {
        Some(Seq::empty())
    } else {
        match repeated_read(dev, p, start, pos, size, (k - 1) as nat) {
            None => None,
            Some(a) => match file_read(dev, p, start, (pos + (k - 1) * size) as nat, size) {
                None => None,
                Some(b) => Some(a + b),
            },
        }
    }
}

/// What reading `nmemb` chunks of `size` bytes through descriptor `blob`
/// gives: the chunks from the descriptor's position on, joined.
pub open spec fn fat_read_result<D: SectorDevice>(
    dev: &D,
    disk: Disk,
    blob: Seq<u8>,
    size: nat,
    nmemb: nat,
) -> Option<Seq<u8>> {
    match descriptor_of(blob) {
        None => None,
        Some(v) => match v.1 {
            None => None,
            Some(e) => match disk.fat_private {
                None => None,
                Some(p) => if v.3 + size * nmemb > u32::MAX {
                    None
                } else {
                    repeated_read(dev, *p, first_cluster(e), v.3 as nat, size, nmemb)
                },
            },
        },
    }
}

/// Reads `nmemb` chunks of `size` bytes from the descriptor's position; the
/// position itself is left to the caller.
pub fn fat16_read<D: SectorDevice>(disk: &Disk, dev: &D, private: &Vec<u8>, size: u16, nmemb: u16) -> (r:
    Result<Vec<u8>, ()>)
    ensures
        r is Err <==> fat_read_result(dev, *disk, private@, size as nat, nmemb as nat) is None,
        r matches Ok(v) ==> fat_read_result(dev, *disk, private@, size as nat, nmemb as nat) == Some(
            v@,
        ),
{
    let d = match fat16_decode_descriptor(private) {
        None => { return Err(()); },
        Some(d) => d,
    };
    let entry = match d.item.item {
        None => { return Err(()); },
        Some(e) => e,
    };
    let fat_private = match &disk.fat_private {
        None => { return Err(()); },
        Some(p) => p,
    };
    assert(size * nmemb <= 65535 * 65535) by (nonlinear_arith)
        requires
            size <= 65535,
            nmemb <= 65535,
    ;
    if d.position as u64 + size as u64 * nmemb as u64 > u32::MAX as u64 {
        return Err(());
    }
    let start = fat16_get_first_cluster(&entry);
    let ghost p = **fat_private;
    let mut res: Vec<u8> = Vec::new();
    let mut k: u16 = 0;
    assert(fat_read_result(dev, *disk, private@, size as nat, nmemb as nat) == repeated_read(
        dev,
        p,
        start,
        d.position as nat,
        size as nat,
        nmemb as nat,
    ));
    while k < nmemb
        invariant
            fat_read_result(dev, *disk, private@, size as nat, nmemb as nat) == repeated_read(
                dev,
                p,
                start,
                d.position as nat,
                size as nat,
                nmemb as nat,
            ),
            k <= nmemb,
            disk.fat_private is Some,
            *disk.fat_private->0 == p,
            d.position + size * nmemb <= u32::MAX,
            repeated_read(dev, p, start, d.position as nat, size as nat, k as nat) == Some(res@),
        decreases nmemb - k,
    {
        assert(d.position + k * size + size <= d.position + size * nmemb) by (nonlinear_arith)
            requires
                k < nmemb,
        ;
        let offset: u32 = d.position + k as u32 * size as u32;
        let mut chunk = match fat16_read_internal(disk, dev, start, offset, size as u32) {
            Err(_) => {
                proof {
                    assert(((k + 1) - 1) * size == k * size);
                    assert(repeated_read(dev, p, start, d.position as nat, size as nat, (k + 1) as nat)
                        is None);
                    lemma_repeated_read_fails(
                        dev,
                        p,
                        start,
                        d.position as nat,
                        size as nat,
                        (k + 1) as nat,
                        nmemb as nat,
                    );
                }
                return Err(());
            },
            Ok(c) => c,
        };
        let ghost before = res@;
        let ghost got = chunk@;
        res.append(&mut chunk);
        proof {
            assert(((k + 1) - 1) * size == k * size);
            assert(res@ == before + got);
        }
        k = k + 1;
    }
    Ok(res)
}

proof fn lemma_repeated_read_fails<D: SectorDevice>(
    dev: &D,
    p: FatPrivate,
    start: u16,
    pos: nat,
    size: nat,
    k: nat,
    m: nat,
)
    requires
        k <= m,
        repeated_read(dev, p, start, pos, size, k) is None,
    ensures
        repeated_read(dev, p, start, pos, size, m) is None,
    decreases m - k,
{
    if k < m {
        lemma_repeated_read_fails(dev, p, start, pos, size, k + 1, m);
    }
}

/// The position a seek leads to from descriptor `v`: counted from the
/// start, the current position or the end; it may not pass the file size.
pub open spec fn seek_target(v: DescriptorView, offset: u16, whence: FileSeekMode) -> Option<u32> {
    match v.1 {
        None => None,
        Some(e) => {
            let target: int = match whence {
                FileSeekMode::SEEK_SET => offset as int,
                FileSeekMode::SEEK_CUR => v.3 + offset,
                FileSeekMode::SEEK_END => e.file_size + offset,
            };
            if target > e.file_size {
                None
            } else {
                Some(target as u32)
            }
        },
    }
}

/// Moves the descriptor's position and returns the updated descriptor.
pub fn fat16_seek(private: &Vec<u8>, offset: u16, whence: FileSeekMode) -> (r: Result<Vec<u8>, ()>)
    ensures
        r is Err <==> (descriptor_of(private@) matches Some(v) ==> seek_target(v, offset, whence) is None),
        r matches Ok(b) ==> descriptor_of(private@) matches Some(v) && seek_target(v, offset, whence) matches Some(t)
            && descriptor_of(b@) == Some((v.0, v.1, v.2, t)),
{
    let mut d = match fat16_decode_descriptor(private) {
        None => { return Err(()); },
        Some(d) => d,
    };
    let file_size = match &d.item.item {
        None => { return Err(()); },
        Some(e) => e.file_size,
    };
    let target: u64 = match whence {
        FileSeekMode::SEEK_SET => offset as u64,
        FileSeekMode::SEEK_CUR => d.position as u64 + offset as u64,
        FileSeekMode::SEEK_END => file_size as u64 + offset as u64,
    };
    if target > file_size as u64 {
        return Err(());
    }
    d.position = target as u32;
    let blob = fat16_encode_descriptor(&d);
    proof {
        lemma_blob_round_trip(descriptor_view(d));
    }
    Ok(blob)
}

// ---------------------------------------------------------------------------
// Laws of directory scanning and chain walking

/// Counting stops at the end-of-list record: when record `n` ends the list
/// and every record before it is live, the count is `n`.
pub proof fn lemma_count_stops_at_end(recs: Seq<FatDirectoryItem>, n: int)
    requires
        0 <= n < recs.len(),
        ends_list(recs[n]),
        forall|i: int| 0 <= i < n ==> !ends_list(#[trigger] recs[i]) && !is_deleted(recs[i]),
    ensures
        live_count(recs) == n,
    decreases n,
{
    reveal(live_count);
    if n > 0 {
        let t = recs.drop_first();
        assert forall|i: int| 0 <= i < n - 1 implies !ends_list(#[trigger] t[i]) && !is_deleted(
            t[i],
        ) by {
            assert(t[i] == recs[i + 1]);
        }
        lemma_count_stops_at_end(t, n - 1);
        assert(!ends_list(recs[0]) && !is_deleted(recs[0]));
    }
}

/// The records before `n` that are not deleted.
pub open spec fn kept_before(recs: Seq<FatDirectoryItem>, n: int) -> nat
    decreases n,
{
    if n <= 0 {
        0
    } else {
        kept_before(recs, n - 1) + if is_deleted(recs[n - 1]) {
            0nat
        } else {
            1nat
        }
    }
}

/// When record `n` is the first to end the list, the count is the number
/// of records before it that are not deleted: deleted records neither count
/// nor stop the scan.
pub proof fn lemma_count_is_kept_records(recs: Seq<FatDirectoryItem>, n: int)
    requires
        0 <= n < recs.len(),
        ends_list(recs[n]),
        forall|i: int| 0 <= i < n ==> !ends_list(#[trigger] recs[i]),
    ensures
        live_count(recs) == kept_before(recs, n),
{
    lemma_take_count(recs, n);
    let pre = recs.take(n);
    let post = recs.skip(n);
    assert forall|i: int| 0 <= i < pre.len() implies !ends_list(#[trigger] pre[i]) by {
        assert(pre[i] == recs[i]);
    }
    lemma_live_concat(pre, post);
    assert(recs =~= pre + post);
    reveal(live_count);
    assert(post[0] == recs[n]);
}

proof fn lemma_take_count(recs: Seq<FatDirectoryItem>, n: int)
    requires
        0 <= n < recs.len(),
        forall|i: int| 0 <= i < n ==> !ends_list(#[trigger] recs[i]),
    ensures
        live_count(recs.take(n)) == kept_before(recs, n),
    decreases n,
{
    if n == 0 {
        reveal(live_count);
        assert(recs.take(0).len() == 0);
    } else {
        lemma_take_count(recs, n - 1);
        let pre = recs.take(n - 1);
        assert forall|i: int| 0 <= i < pre.len() implies !ends_list(#[trigger] pre[i]) by {
            assert(pre[i] == recs[i]);
        }
        lemma_live_concat(pre, seq![recs[n - 1]]);
        lemma_live_one(recs[n - 1]);
        assert(recs.take(n) =~= pre + seq![recs[n - 1]]);
    }
}

/// A deleted record is skipped: taking it out changes neither the count
/// nor the entries kept, wherever it stands.
pub proof fn lemma_deleted_record_ignored(recs: Seq<FatDirectoryItem>, k: int)
    requires
        0 <= k < recs.len(),
        is_deleted(recs[k]),
    ensures
        live_count(recs.remove(k)) == live_count(recs),
        live_entries(recs.remove(k)) == live_entries(recs),
    decreases k,
{
    reveal(live_count);
    reveal(live_entries);
    let r = recs.remove(k);
    if k == 0 {
        assert(r =~= recs.drop_first());
        assert(!ends_list(recs[0]));
    } else {
        assert(r[0] == recs[0]);
        if !ends_list(recs[0]) {
            assert(r.drop_first() =~= recs.drop_first().remove(k - 1));
            lemma_deleted_record_ignored(recs.drop_first(), k - 1);
        }
    }
}

/// An end-of-chain link (`0xFFF`) ends the file: every offset past the
/// cluster that carries it fails to resolve, and no read there returns
/// data.
pub proof fn lemma_end_of_chain<D: SectorDevice>(
    dev: &D,
    p: FatPrivate,
    start: u16,
    k: nat,
    offset: nat,
    total: nat,
)
    requires
        cluster_bytes(p) > 0,
        cluster_chain(dev, p, start, k) is Some,
        fat_entry(dev, p, cluster_chain(dev, p, start, k)->0) == Some(0xFFFu16),
        offset as int / cluster_bytes(p) > k,
        total > 0,
    ensures
        cluster_for_offset(dev, p, start, offset as int) is None,
        file_read(dev, p, start, offset, total) is None,
{
    assert(cluster_chain(dev, p, start, k + 1) is None);
    lemma_chain_broken(dev, p, start, k + 1, (offset as int / cluster_bytes(p)) as nat);
}

// ---------------------------------------------------------------------------
// Lookups depend only on what resolution determines

/// Two FAT16 states that agree on everything the lookups read: the header,
/// where the root directory ends, and the disks of the three streams.
pub open spec fn same_layout(p1: FatPrivate, p2: FatPrivate) -> bool {
    &&& p1.header == p2.header
    &&& p1.root_directory is Some == p2.root_directory is Some
    &&& p1.root_directory is Some ==> p1.root_directory->0.end_sector_pos
        == p2.root_directory->0.end_sector_pos
    &&& p1.cluster_read_stream.disk_number == p2.cluster_read_stream.disk_number
    &&& p1.fat_read_stream.disk_number == p2.fat_read_stream.disk_number
    &&& p1.directory_stream.disk_number == p2.directory_stream.disk_number
}

proof fn lemma_same_chain<D: SectorDevice>(dev: &D, p1: FatPrivate, p2: FatPrivate, start: u16, k: nat)
    requires
        same_layout(p1, p2),
    ensures
        cluster_chain(dev, p1, start, k) == cluster_chain(dev, p2, start, k),
    decreases k,
{
    if k > 0 {
        lemma_same_chain(dev, p1, p2, start, (k - 1) as nat);
    }
}

proof fn lemma_same_file_read<D: SectorDevice>(
    dev: &D,
    p1: FatPrivate,
    p2: FatPrivate,
    start: u16,
    offset: nat,
    total: nat,
)
    requires
        same_layout(p1, p2),
    ensures
        file_read(dev, p1, start, offset, total) == file_read(dev, p2, start, offset, total),
    decreases total,
{
    let cb = cluster_bytes(p1);
    if total > 0 && cb > 0 {
        let within = (offset as int) % cb;
        let chunk: nat = if total < cb - within {
            total
        } else {
            (cb - within) as nat
        };
        lemma_same_chain(dev, p1, p2, start, (offset as int / cb) as nat);
        if chunk > 0 {
            lemma_same_file_read(dev, p1, p2, start, offset + chunk, (total - chunk) as nat);
        }
    }
}

proof fn lemma_same_lookup<D: SectorDevice>(
    dev: &D,
    p1: FatPrivate,
    p2: FatPrivate,
    items: Seq<FatDirectoryItem>,
    name: Seq<char>,
)
    requires
        same_layout(p1, p2),
    ensures
        lookup(dev, p1, items, name) == lookup(dev, p2, items, name),
{

}

proof fn lemma_same_walk<D: SectorDevice>(
    dev: &D,
    p1: FatPrivate,
    p2: FatPrivate,
    cur: (FatDirectoryItem, Option<Seq<FatDirectoryItem>>),
    rest: Seq<Seq<char>>,
)
    requires
        same_layout(p1, p2),
    ensures
        walk(dev, p1, cur, rest) == walk(dev, p2, cur, rest),
    decreases rest.len(),
{
    if rest.len() > 0 {
        if let Some(items) = cur.1 {
            lemma_same_lookup(dev, p1, p2, items, rest[0]);
            if let Some(nx) = lookup(dev, p1, items, rest[0]) {
                lemma_same_walk(dev, p1, p2, nx, rest.drop_first());
            }
        }
    }
}

/// Path lookup gives the same entry on two disks that carry states resolved
/// from the same device.
pub proof fn lemma_same_directory_entry<D: SectorDevice>(
    dev: &D,
    d1: Disk,
    d2: Disk,
    number: u8,
    parts: Seq<Seq<char>>,
)
    requires
        d1.fat_private matches Some(p1) && is_resolved_state(*p1, dev, number),
        d2.fat_private matches Some(p2) && is_resolved_state(*p2, dev, number),
    ensures
        directory_entry(dev, d1, parts) == directory_entry(dev, d2, parts),
        directory_entry(dev, d1, parts) matches Ok(Some(e)) ==> opened_view(
            dev,
            *d1.fat_private->0,
            e,
        ) == opened_view(dev, *d2.fat_private->0, e),
{
    let p1 = *d1.fat_private->0;
    let p2 = *d2.fat_private->0;
    assert(same_layout(p1, p2));
    let r1 = p1.root_directory->0;
    let r2 = p2.root_directory->0;
    assert(r1.items@ == r2.items@);
    lemma_same_lookup(dev, p1, p2, r1.items@, parts[0]);
    if let Some(first) = lookup(dev, p1, r1.items@, parts[0]) {
        lemma_same_walk(dev, p1, p2, first, parts.drop_first());
    }

}

/// Path lookup gives the same entry on two handles that agree field by
/// field.
pub proof fn lemma_same_disk_directory_entry<D: SectorDevice>(
    dev: &D,
    d1: Disk,
    d2: Disk,
    parts: Seq<Seq<char>>,
)
    requires
        same_disk(d1, d2),
    ensures
        directory_entry(dev, d1, parts) == directory_entry(dev, d2, parts),
{
    if let Some(b1) = d1.fat_private {
        let p1 = *b1;
        let p2 = *d2.fat_private->0;
        assert(same_layout(p1, p2));
        if let Some(r1) = p1.root_directory {
            lemma_same_lookup(dev, p1, p2, r1.items@, parts[0]);
            if let Some(first) = lookup(dev, p1, r1.items@, parts[0]) {
                lemma_same_walk(dev, p1, p2, first, parts.drop_first());
            }
        }
    }
}

/// Two directories with the same entries and counters.
pub open spec fn same_directory(a: FatDirectory, b: FatDirectory) -> bool {
    &&& a.items@ == b.items@
    &&& a.total == b.total
    &&& a.sector_pos == b.sector_pos
    &&& a.end_sector_pos == b.end_sector_pos
}

/// Two FAT16 states that agree field by field.
pub open spec fn same_private(p1: FatPrivate, p2: FatPrivate) -> bool {
    &&& p1.header == p2.header
    &&& p1.root_directory is Some == p2.root_directory is Some
    &&& p1.root_directory is Some ==> same_directory(
        p1.root_directory->0,
        p2.root_directory->0,
    )
    &&& *p1.cluster_read_stream == *p2.cluster_read_stream
    &&& *p1.fat_read_stream == *p2.fat_read_stream
    &&& *p1.directory_stream == *p2.directory_stream
}

/// Two disk handles that agree field by field.
pub open spec fn same_disk(d1: Disk, d2: Disk) -> bool {
    &&& d1.type_ == d2.type_
    &&& d1.sector_size == d2.sector_size
    &&& d1.disk_number == d2.disk_number
    &&& d1.filesystem == d2.filesystem
    &&& d1.fat_private is Some == d2.fat_private is Some
    &&& d1.fat_private is Some ==> same_private(*d1.fat_private->0, *d2.fat_private->0)
}

impl FatDirectory {
    /// A copy of the directory.
    pub fn duplicate(&self) -> (r: FatDirectory)
        ensures
            same_directory(r, *self),
    {
        let items = self.items.clone();
        assert(items@ =~= self.items@);
        FatDirectory {
            items,
            total: self.total,
            sector_pos: self.sector_pos,
            end_sector_pos: self.end_sector_pos,
        }
    }
}

impl FatPrivate {
    /// A copy of the state.
    pub fn duplicate(&self) -> (r: FatPrivate)
        ensures
            same_private(r, *self),
    {
        let root_directory = match &self.root_directory {
            None => None,
            Some(d) => Some(d.duplicate()),
        };
        FatPrivate {
            header: self.header,
            root_directory,
            cluster_read_stream: Box::new(*self.cluster_read_stream),
            fat_read_stream: Box::new(*self.fat_read_stream),
            directory_stream: Box::new(*self.directory_stream),
        }
    }
}

impl Disk {
    /// A copy of the handle and of the state resolved for it.
    pub fn duplicate(&self) -> (r: Disk)
        ensures
            same_disk(r, *self),
            same_disk(*self, r),
    {
        let fat_private = match &self.fat_private {
            None => None,
            Some(p) => Some(Box::new(p.duplicate())),
        };
        Disk {
            type_: self.type_,
            sector_size: self.sector_size,
            disk_number: self.disk_number,
            filesystem: self.filesystem,
            fat_private,
        }
    }
}

proof fn lemma_same_repeated_read<D: SectorDevice>(
    dev: &D,
    p1: FatPrivate,
    p2: FatPrivate,
    start: u16,
    pos: nat,
    size: nat,
    k: nat,
)
    requires
        same_layout(p1, p2),
    ensures
        repeated_read(dev, p1, start, pos, size, k) == repeated_read(dev, p2, start, pos, size, k),
    decreases k,
{
    if k > 0 {
        lemma_same_repeated_read(dev, p1, p2, start, pos, size, (k - 1) as nat);
        lemma_same_file_read(dev, p1, p2, start, (pos + (k - 1) * size) as nat, size);
    }
}

/// Reads through a descriptor give the same bytes on two disks that carry
/// the same FAT16 state.
pub proof fn lemma_same_read_result<D: SectorDevice>(
    dev: &D,
    d1: Disk,
    d2: Disk,
    blob: Seq<u8>,
    size: nat,
    nmemb: nat,
)
    requires
        same_disk(d1, d2),
    ensures
        fat_read_result(dev, d1, blob, size, nmemb) == fat_read_result(dev, d2, blob, size, nmemb),
{
    if let Some(v) = descriptor_of(blob) {
        if let Some(e) = v.1 {
            if let Some(p1) = d1.fat_private {
                lemma_same_repeated_read(dev, *p1, *d2.fat_private->0, first_cluster(e), v.3 as nat, size, nmemb);
            }
        }
    }
}

/// The record at byte `start + 32 * k` of device `number`.
pub open spec fn record_at<D: SectorDevice>(dev: &D, number: u8, start: int, k: int) -> FatDirectoryItem {
    item_of(disk_bytes(dev, number, start + 32 * k, 32))
}

proof fn lemma_scan_from<D: SectorDevice>(dev: &D, number: u8, start: int, n: nat, i: nat)
    requires
        number < MAX_DISKS,
        start >= 0,
        start + 32 * n + 32 <= u32::MAX,
        i <= n,
        ends_list(record_at(dev, number, start, n as int)),
        forall|k: int| 0 <= k < n ==> !ends_list(#[trigger] record_at(dev, number, start, k)),
    ensures
        dir_records(dev, number, start, i) == Some(
            Seq::new((n + 1 - i) as nat, |k: int| record_at(dev, number, start, i + k)),
        ),
    decreases n - i,
{
    lemma_dir_step(dev, number, start, i);
    let e = record_at(dev, number, start, i as int);
    if i == n {
        assert(Seq::new(1, |k: int| record_at(dev, number, start, i + k)) =~= seq![e]);
    } else {
        lemma_scan_from(dev, number, start, n, i + 1);
        assert(seq![e] + Seq::new((n + 1 - (i + 1)) as nat, |k: int| record_at(dev, number, start, i + 1 + k))
            =~= Seq::new((n + 1 - i) as nat, |k: int| record_at(dev, number, start, i + k)));
    }
}

/// Scanning a directory from byte `start` reads on up to the first
/// end-of-list record, record `n`, and counts the records before it that
/// are not deleted; when none of them is deleted, the count is `n`.
pub proof fn lemma_scan_count<D: SectorDevice>(dev: &D, number: u8, start: int, n: nat)
    requires
        number < MAX_DISKS,
        start >= 0,
        start + 32 * n + 32 <= u32::MAX,
        ends_list(record_at(dev, number, start, n as int)),
        forall|k: int| 0 <= k < n ==> !ends_list(#[trigger] record_at(dev, number, start, k)),
    ensures
        dir_records(dev, number, start, 0) matches Some(recs) && recs.len() == n + 1 && live_count(
            recs,
        ) == kept_before(recs, n as int) && (forall|k: int|
            0 <= k <= n ==> #[trigger] recs[k] == record_at(dev, number, start, k)),
        (forall|k: int| 0 <= k < n ==> !is_deleted(#[trigger] record_at(dev, number, start, k)))
            ==> (dir_records(dev, number, start, 0) matches Some(recs) && live_count(recs) == n),
{
    lemma_scan_from(dev, number, start, n, 0);
    let recs = Seq::new((n + 1) as nat, |k: int| record_at(dev, number, start, 0 + k));
    assert forall|k: int| 0 <= k < n implies !ends_list(#[trigger] recs[k]) by {
        assert(recs[k] == record_at(dev, number, start, k));
    }
    lemma_count_is_kept_records(recs, n as int);
    if forall|k: int| 0 <= k < n ==> !is_deleted(#[trigger] record_at(dev, number, start, k)) {
        assert forall|k: int| 0 <= k < n implies !ends_list(#[trigger] recs[k]) && !is_deleted(
            recs[k],
        ) by {
            assert(recs[k] == record_at(dev, number, start, k));
        }
        lemma_count_stops_at_end(recs, n as int);
    }
}

} // verus!
