use vstd::prelude::*;

use crate::fat16::FatPrivate;
use crate::file::FileSystem;

verus! {

/// Bytes in one sector of the disks this stack addresses.
pub const SECTOR_SIZE: u16 = 512;

/// Bytes in one sector, as a stream position counts them.
pub const SECTOR_BYTES: u32 = 512;

/// Number of devices on the primary ATA cable (master and slave).
pub const MAX_DISKS: u8 = 2;

/// First logical block address that 28-bit addressing cannot reach.
pub const LBA_LIMIT: u32 = 0x1000_0000;

/// Kind of a disk known to the kernel.
#[derive(Debug, Clone, Copy, PartialEq, Eq, Structural)]
pub enum DiskType {
    OsDisk,
}

/// A physical device slot and the filesystem state resolved for it.
#[derive(Debug, Clone)]
pub struct Disk {
    pub type_: DiskType,
    pub sector_size: u16,
    pub disk_number: u8,
    pub filesystem: Option<FileSystem>,
    pub fat_private: Option<Box<FatPrivate>>,
}

/// A source of raw sectors: the ATA PIO "read sectors" command of the primary
/// controller, or anything that answers it in the same way.
///
/// Each of the two devices (master `0`, slave `1`) is modelled as a linear
/// image of 16-bit words; sector `lba` is words `lba * 256 .. lba * 256 + 256`.
pub trait SectorDevice {
    /// Word `index` of the image of device `slave`. An implementation whose
    /// contents are not modelled gives it a body that returns the word that
    /// `read_sectors` returns at that place.
    spec fn word_at(&self, slave: u8, index: u64) -> u16;

    /// Reads `count` consecutive sectors starting at `lba` from device `slave`,
    /// as `count * 256` words in order.
    fn read_sectors(&self, slave: u8, lba: u32, count: u8) -> (r: Vec<u16>)
        requires
            slave < 2,
            1 <= count,
            lba + count <= LBA_LIMIT,
        ensures
            r@.len() == count * 256,
            forall|i: int|
                0 <= i < r@.len() ==> #[trigger] r@[i] == self.word_at(slave, (lba * 256 + i) as u64),
    ;
}

/// Two in-memory disk images, master and slave; words past the end of an
/// image read as zero.
pub struct MemoryDisk {
    pub master: Vec<u16>,
    pub slave: Vec<u16>,
}

impl SectorDevice for MemoryDisk {
    open spec fn word_at(&self, slave: u8, index: u64) -> u16 {
        let image = if slave == 0 { self.master@ } else { self.slave@ };
        if index < image.len() { image[index as int] } else { 0 }
    }

    fn read_sectors(&self, slave: u8, lba: u32, count: u8) -> (r: Vec<u16>) {
        let image = if slave == 0 { &self.master } else { &self.slave };
        let start: u64 = lba as u64 * 256;
        let n: u64 = count as u64 * 256;
        let mut r: Vec<u16> = Vec::new();
        let mut i: u64 = 0;
        while i < n
            invariant
                image@ == (if slave == 0 { self.master@ } else { self.slave@ }),
                start == lba * 256,
                n == count * 256,
                start + n <= LBA_LIMIT * 256,
                i <= n,
                r@.len() == i,
                forall|j: int| 0 <= j < i ==> #[trigger] r@[j] == self.word_at(slave, (lba * 256 + j) as u64),
            decreases n - i,
        {
            let idx: u64 = start + i;
            let w: u16 = if idx < image.len() as u64 { image[idx as usize] } else { 0 };
            r.push(w);
            i = i + 1;
        }
        r
    }
}

impl MemoryDisk {
    /// Builds a device pair from a master and a slave image given as bytes;
    /// each pair of bytes becomes one little-endian word, and an odd last byte
    /// is padded with zero.
    pub fn from_bytes(master: &Vec<u8>, slave: &Vec<u8>) -> (r: MemoryDisk)
        ensures
            forall|p: int| 0 <= p < master@.len() ==> #[trigger] byte_at(&r, 0, p) == master@[p],
            forall|p: int| 0 <= p < slave@.len() ==> #[trigger] byte_at(&r, 1, p) == slave@[p],
    {
        let _master_len: usize = master.len();
        let _slave_len: usize = slave.len();
        let r = MemoryDisk { master: words_of(master), slave: words_of(slave) };
        assert forall|p: int| 0 <= p < master@.len() implies #[trigger] byte_at(&r, 0, p)
            == master@[p] by {
            assert(((p / 2) as u64) as int == p / 2);
        }
        assert forall|p: int| 0 <= p < slave@.len() implies #[trigger] byte_at(&r, 1, p)
            == slave@[p] by {
            assert(((p / 2) as u64) as int == p / 2);
        }
        r
    }
}

/// Packs bytes into little-endian words.
fn words_of(b: &Vec<u8>) -> (r: Vec<u16>)
    ensures
        r@.len() == (b@.len() + 1) / 2,
        forall|p: int|
            0 <= p < b@.len() ==> (if p % 2 == 0 {
                #[trigger] r@[p / 2] % 256 == b@[p]
            } else {
                r@[p / 2] / 256 == b@[p]
            }),
{
    let mut r: Vec<u16> = Vec::new();
    let n: usize = b.len();
    let pairs: usize = n / 2 + n % 2;
    let mut k: usize = 0;
    while k < pairs
        invariant
            n == b@.len(),
            pairs == (b@.len() + 1) / 2,
            k <= pairs,
            r@.len() == k,
            forall|p: int|
                0 <= p < 2 * k && p < b@.len() ==> (if p % 2 == 0 {
                    #[trigger] r@[p / 2] % 256 == b@[p]
                } else {
                    r@[p / 2] / 256 == b@[p]
                }),
        decreases pairs - k,
    {
        assert(2 * k < b@.len() + 1) by (nonlinear_arith)
            requires
                k < pairs,
                pairs == (b@.len() + 1) / 2,
        ;
        let i: usize = 2 * k;
        let lo: u16 = b[i] as u16;
        let hi: u16 = if i + 1 < b.len() { b[i + 1] as u16 } else { 0 };
        let w: u16 = lo + hi * 256;
        r.push(w);
        assert(w % 256 == lo && w / 256 == hi) by (nonlinear_arith)
            requires
                w == lo + hi * 256,
                lo < 256,
                hi < 256,
        ;
        k = k + 1;
    }
    r
}

/// Byte `p` of the image of device `slave`: words are stored little-endian.
pub open spec fn byte_at<D: SectorDevice>(dev: &D, slave: u8, p: int) -> u8 {
    let w = dev.word_at(slave, (p / 2) as u64);
    if p % 2 == 0 { (w % 256) as u8 } else { (w / 256) as u8 }
}

/// The `len` bytes of device `slave` starting at byte `start`.
pub open spec fn disk_bytes<D: SectorDevice>(dev: &D, slave: u8, start: int, len: nat) -> Seq<u8> {
    Seq::new(len, |i: int| byte_at(dev, slave, start + i))
}

/// Issues the sector read for device `number`, if that device is addressable.
pub(crate) fn read_block_of<D: SectorDevice>(number: u8, dev: &D, lba: u32, total: u8) -> (r:
    Option<Vec<u16>>)
    requires
        1 <= total,
        lba + total <= LBA_LIMIT,
    ensures
        number >= MAX_DISKS <==> r is None,
        r matches Some(w) ==> w@.len() == total * 256 && forall|i: int|
            0 <= i < w@.len() ==> #[trigger] w@[i] == dev.word_at(number, (lba * 256 + i) as u64),
{
    if number >= MAX_DISKS {
        return None;
    }
    Some(dev.read_sectors(number, lba, total))
}

/// Reads `total` sectors from `lba` on the disk: `None` for a device index
/// the primary cable cannot address, otherwise the sectors' words in order.
pub fn disk_read_block<D: SectorDevice>(disk: &Disk, dev: &D, lba: u32, total: u8) -> (r: Option<
    Vec<u16>,
>)
    requires
        1 <= total,
        lba + total <= LBA_LIMIT,
    ensures
        disk.disk_number >= MAX_DISKS <==> r is None,
        r matches Some(w) ==> w@.len() == total * 256 && forall|i: int|
            0 <= i < w@.len() ==> #[trigger] w@[i] == dev.word_at(
                disk.disk_number,
                (lba * 256 + i) as u64,
            ),
{
    read_block_of(disk.disk_number, dev, lba, total)
}

} // verus!
