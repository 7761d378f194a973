use vstd::prelude::*;

use crate::disk::{disk_bytes, Disk, SectorDevice, MAX_DISKS, SECTOR_BYTES};
use crate::fat16::{le16, read_le16, FatDirectoryItem, FatPrivate, FAT_16_BAD_SECTOR, FAT_16_FAT_ENTRY_SIZE, FAT_16_UNUSED};
use crate::streamer::DiskStreamer;

verus! {

// ---------------------------------------------------------------------------
// Cluster chains and data

/// Bytes in one cluster.
pub open spec fn cluster_bytes(p: FatPrivate) -> int {
    p.header.primary_header.sectors_per_cluster * 512
}

/// A FAT link value that ends a walk: bad sector, unallocated, or one of
/// the end-of-chain markers.
pub open spec fn ends_chain(e: u16) -> bool {
    e == 0xFF8 || e == 0xFFF || e == FAT_16_BAD_SECTOR || e == 0xFF0 || e == 0xFF6 || e
        == FAT_16_UNUSED
}

/// Byte position of the FAT slot of `cluster`.
pub open spec fn fat_slot(p: FatPrivate, cluster: u16) -> int {
    p.header.primary_header.reserved_sectors * 512 + cluster * 2
}

/// The FAT entry of `cluster`, as the FAT stream reads it.
pub open spec fn fat_entry<D: SectorDevice>(dev: &D, p: FatPrivate, cluster: u16) -> Option<u16> {
    let n = p.fat_read_stream.disk_number;
    if n >= MAX_DISKS {
        None
    } else {
        Some(le16(disk_bytes(dev, n, fat_slot(p, cluster), 2), 0))
    }
}

/// The cluster `k` links after `start`, if every link on the way is usable.
pub open spec fn cluster_chain<D: SectorDevice>(dev: &D, p: FatPrivate, start: u16, k: nat) -> Option<
    u16,
>
    decreases k,
{
    if k == 0 {
        Some(start)
    } else {
        match cluster_chain(dev, p, start, (k - 1) as nat) {
            None => None,
            Some(c) => match fat_entry(dev, p, c) {
                None => None,
                Some(e) => if ends_chain(e) {
                    None
                } else {
                    Some(e)
                },
            },
        }
    }
}

/// The cluster that holds byte `offset` of the chain that starts at `start`.
pub open spec fn cluster_for_offset<D: SectorDevice>(
    dev: &D,
    p: FatPrivate,
    start: u16,
    offset: int,
) -> Option<u16> {
    if cluster_bytes(p) == 0 {
        None
    } else {
        cluster_chain(dev, p, start, (offset / cluster_bytes(p)) as nat)
    }
}

/// First sector of `cluster`: data clusters are numbered from 2 and start
/// where the root directory ends.
pub open spec fn sector_of_cluster(p: FatPrivate, cluster: u16) -> Option<int> {
    match p.root_directory {
        None => None,
        Some(root) => {
            let s = root.end_sector_pos + (cluster - 2) * p.header.primary_header.sectors_per_cluster;
            if cluster < 2 || s > u32::MAX {
                None
            } else {
                Some(s)
            }
        },
    }
}

fn fat16_get_first_fat_sector(fat_private: &FatPrivate) -> (r: u16)
    ensures
        r == fat_private.header.primary_header.reserved_sectors,
{
    fat_private.header.primary_header.reserved_sectors
}

/// Reads the FAT entry of `cluster_to_use`.
fn fat16_get_fat_entry<D: SectorDevice>(dev: &D, fat_private: &FatPrivate, cluster_to_use: u16) -> (r:
    Result<u16, ()>)
    ensures
        r matches Ok(e) ==> fat_entry(dev, *fat_private, cluster_to_use) == Some(e),
        r is Err <==> fat_entry(dev, *fat_private, cluster_to_use) is None,
{
    let mut stream = *fat_private.fat_read_stream;
    let fat_table_position: u32 = fat16_get_first_fat_sector(fat_private) as u32 * SECTOR_BYTES;
    stream.seek(fat_table_position + cluster_to_use as u32 * 2);
    let res = match stream.read(dev, FAT_16_FAT_ENTRY_SIZE as u32) {
        None => { return Err(()); },
        Some(b) => b,
    };
    Ok(read_le16(&res, 0))
}

/// Walks the FAT from `cluster` to the cluster that holds byte `offset`.
fn fat16_get_cluster_for_offset<D: SectorDevice>(
    dev: &D,
    fat_private: &FatPrivate,
    cluster: u16,
    offset: u32,
) -> (r: Result<u16, ()>)
    ensures
        r matches Ok(c) ==> cluster_for_offset(dev, *fat_private, cluster, offset as int) == Some(c),
        r is Err <==> cluster_for_offset(dev, *fat_private, cluster, offset as int) is None,
{
    let size_of_cluster_bytes: u32 = fat_private.header.primary_header.sectors_per_cluster as u32
        * SECTOR_BYTES;
    if size_of_cluster_bytes == 0 {
        return Err(());
    }
    let mut cluster_to_use = cluster;
    let cluster_ahead: u32 = offset / size_of_cluster_bytes;
    let mut k: u32 = 0;
    while k < cluster_ahead
        invariant
            k <= cluster_ahead,
            cluster_ahead == offset as int / cluster_bytes(*fat_private),
            cluster_bytes(*fat_private) > 0,
            cluster_chain(dev, *fat_private, cluster, k as nat) == Some(cluster_to_use),
        decreases cluster_ahead - k,
    {
        let entry = fat16_get_fat_entry(dev, fat_private, cluster_to_use);
        let entry = match entry {
            Err(_) => {
                proof {
                    lemma_chain_broken(dev, *fat_private, cluster, (k + 1) as nat, cluster_ahead as nat);
                }
                return Err(());
            },
            Ok(e) => e,
        };
        if entry == 0xFF8 || entry == 0xFFF || entry == FAT_16_BAD_SECTOR || entry == 0xFF0 || entry
            == 0xFF6 || entry == FAT_16_UNUSED as u16 {
            proof {
                lemma_chain_broken(dev, *fat_private, cluster, (k + 1) as nat, cluster_ahead as nat);
            }
            return Err(());
        }
        cluster_to_use = entry;
        k = k + 1;
    }
    Ok(cluster_to_use)
}

/// Once the chain is broken it stays broken.
pub(crate) proof fn lemma_chain_broken<D: SectorDevice>(dev: &D, p: FatPrivate, start: u16, k: nat, m: nat)
    requires
        k <= m,
        cluster_chain(dev, p, start, k) is None,
    ensures
        cluster_chain(dev, p, start, m) is None,
    decreases m - k,
{
    if k < m {
        lemma_chain_broken(dev, p, start, k + 1, m);
    }
}

/// First sector of `cluster`.
pub(crate) fn fat16_cluster_to_sector(fat_private: &FatPrivate, cluster: u16) -> (r: Result<u32, ()>)
    ensures
        r matches Ok(s) ==> sector_of_cluster(*fat_private, cluster) == Some(s as int),
        r is Err <==> sector_of_cluster(*fat_private, cluster) is None,
{
    let root_directory = match &fat_private.root_directory {
        None => { return Err(()); },
        Some(d) => d,
    };
    if cluster < 2 {
        return Err(());
    }
    assert((cluster - 2) * fat_private.header.primary_header.sectors_per_cluster <= 65535 * 255)
        by (nonlinear_arith)
        requires
            2 <= cluster <= 65535,
            fat_private.header.primary_header.sectors_per_cluster <= 255,
    ;
    let s: u64 = root_directory.end_sector_pos as u64 + (cluster as u64 - 2)
        * fat_private.header.primary_header.sectors_per_cluster as u64;
    if s > u32::MAX as u64 {
        return Err(());
    }
    Ok(s as u32)
}

/// The first cluster of an entry: FAT16 keeps it in the low word.
pub open spec fn first_cluster(item: FatDirectoryItem) -> u16 {
    item.low_16_bits_first_cluster
}

pub(crate) fn fat16_get_first_cluster(item: &FatDirectoryItem) -> (r: u16)
    ensures
        r == first_cluster(*item),
{
    item.low_16_bits_first_cluster
}

/// `a` in front of what `o` holds, if it holds anything.
pub open spec fn prepend(a: Seq<u8>, o: Option<Seq<u8>>) -> Option<Seq<u8>> {
    match o {
        None => None,
        Some(rest) => Some(a + rest),
    }
}

/// The `total` bytes of the cluster chain from `start`, beginning at byte
/// `offset` of the chain: read cluster by cluster through the cluster stream.
pub open spec fn file_read<D: SectorDevice>(
    dev: &D,
    p: FatPrivate,
    start: u16,
    offset: nat,
    total: nat,
) -> Option<Seq<u8>>
    decreases total,
{
    let cb = cluster_bytes(p);
    if total == 0 {
        Some(Seq::empty())
    } else if cb <= 0 {
        None
    } else {
        let within = (offset as int) % cb;
        let chunk: nat = if total < cb - within {
            total
        } else {
            (cb - within) as nat
        };
        let n = p.cluster_read_stream.disk_number;
        if chunk == 0 {
            None
        } else {
            match cluster_for_offset(dev, p, start, offset as int) {
                None => None,
                Some(c) => match sector_of_cluster(p, c) {
                    None => None,
                    Some(s) => if n >= MAX_DISKS || s * 512 + within + chunk > u32::MAX {
                        None
                    } else {
                        prepend(
                            disk_bytes(dev, n, s * 512 + within, chunk),
                            file_read(dev, p, start, offset + chunk, (total - chunk) as nat),
                        )
                    },
                },
            }
        }
    }
}

/// Reads `total` bytes of the chain from `cluster`, starting at byte
/// `offset` of it, one cluster at a time.
fn fat16_read_internal_from_stream<D: SectorDevice>(
    dev: &D,
    fat_private: &FatPrivate,
    stream: &DiskStreamer,
    cluster: u16,
    offset: u32,
    total: u32,
) -> (r: Result<Vec<u8>, ()>)
    requires
        offset + total <= u32::MAX,
        stream.disk_number == fat_private.cluster_read_stream.disk_number,
    ensures
        r matches Ok(v) ==> file_read(dev, *fat_private, cluster, offset as nat, total as nat)
            == Some(v@),
        r is Err <==> file_read(dev, *fat_private, cluster, offset as nat, total as nat) is None,
{
    let size_of_cluster_bytes: u32 = fat_private.header.primary_header.sectors_per_cluster as u32
        * SECTOR_BYTES;
    let ghost whole = file_read(dev, *fat_private, cluster, offset as nat, total as nat);
    let mut res: Vec<u8> = Vec::new();
    let mut off: u32 = offset;
    let mut remaining: u32 = total;
    let mut cursor = *stream;
    assert(prepend(res@, whole) == whole) by {
        if whole is Some {
            assert(res@ + whole->0 =~= whole->0);
        }
    }
    while remaining > 0
        invariant
            off + remaining == offset + total,
            offset + total <= u32::MAX,
            cursor.disk_number == fat_private.cluster_read_stream.disk_number,
            size_of_cluster_bytes == cluster_bytes(*fat_private),
            whole == file_read(dev, *fat_private, cluster, offset as nat, total as nat),
            whole == prepend(res@, file_read(dev, *fat_private, cluster, off as nat, remaining as nat)),
        decreases remaining,
    {
        if size_of_cluster_bytes == 0 {
            return Err(());
        }
        let cluster_to_use = match fat16_get_cluster_for_offset(dev, fat_private, cluster, off) {
            Err(_) => { return Err(()); },
            Ok(c) => c,
        };
        let offset_from_cluster: u32 = off % size_of_cluster_bytes;
        let room: u32 = size_of_cluster_bytes - offset_from_cluster;
        let total_to_read: u32 = if remaining < room { remaining } else { room };
        let starting_sector = match fat16_cluster_to_sector(fat_private, cluster_to_use) {
            Err(_) => { return Err(()); },
            Ok(s) => s,
        };
        if cursor.disk_number >= MAX_DISKS {
            return Err(());
        }
        if starting_sector as u64 * 512 + offset_from_cluster as u64 + total_to_read as u64
            > u32::MAX as u64 {
            return Err(());
        }
        let starting_pos: u32 = starting_sector * SECTOR_BYTES + offset_from_cluster;
        cursor.seek(starting_pos);
        let mut chunk = match cursor.read(dev, total_to_read) {
            None => { return Err(()); },
            Some(b) => b,
        };
        let ghost before = res@;
        let ghost got = chunk@;
        let ghost rest = file_read(dev, *fat_private, cluster, (off + total_to_read) as nat, (remaining - total_to_read) as nat);
        res.append(&mut chunk);
        proof {
            if rest is Some {
                assert(before + (got + rest->0) =~= res@ + rest->0);
            }
        }
        off = off + total_to_read;
        remaining = remaining - total_to_read;
    }
    proof {
        assert(res@ + Seq::<u8>::empty() =~= res@);
    }
    Ok(res)
}

/// Reads through the cluster stream of the disk's FAT16 state.
pub(crate) fn fat16_read_internal<D: SectorDevice>(
    disk: &Disk,
    dev: &D,
    starting_cluster: u16,
    offset: u32,
    total: u32,
) -> (r: Result<Vec<u8>, ()>)
    requires
        offset + total <= u32::MAX,
    ensures
        r matches Ok(v) ==> (disk.fat_private matches Some(p) && file_read(
            dev,
            *p,
            starting_cluster,
            offset as nat,
            total as nat,
        ) == Some(v@)),
        r is Err <==> (disk.fat_private matches Some(p) ==> file_read(
            dev,
            *p,
            starting_cluster,
            offset as nat,
            total as nat,
        ) is None),
{
    let fat_private = match &disk.fat_private {
        None => { return Err(()); },
        Some(p) => p,
    };
    let stream = *fat_private.cluster_read_stream;
    fat16_read_internal_from_stream(dev, fat_private, &stream, starting_cluster, offset, total)
}

} // verus!
