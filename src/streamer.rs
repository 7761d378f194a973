use vstd::prelude::*;

use crate::disk::{byte_at, disk_bytes, read_block_of, Disk, SectorDevice, MAX_DISKS, SECTOR_SIZE};

verus! {

/// A byte cursor over one disk: reads turn into whole-sector transfers
/// trimmed to the requested range.
#[derive(Debug, Clone, Copy)]
pub struct DiskStreamer {
    pub pos: u32,
    pub disk_number: u8,
}

/// What `read(total)` returns for a stream on disk `number` at `pos`.
pub open spec fn stream_read(number: u8, pos: int, total: nat, dev: &impl SectorDevice) -> Option<
    Seq<u8>,
> {
    if number >= MAX_DISKS {
        None
    } else {
        Some(disk_bytes(dev, number, pos, total))
    }
}

proof fn lemma_sector_byte(pos: int, k: int)
    requires
        0 <= pos,
        pos % 512 <= k < 512,
    ensures
        (pos / 512 * 512 + k) / 2 == pos / 512 * 256 + k / 2,
        (pos / 512 * 512 + k) % 2 == k % 2,
        pos / 512 * 512 + k == pos + (k - pos % 512),
{
    assert((pos / 512 * 512 + k) / 2 == pos / 512 * 256 + k / 2) by (nonlinear_arith)
        requires
            0 <= k,
    ;
    assert((pos / 512 * 512 + k) % 2 == k % 2) by (nonlinear_arith)
        requires
            0 <= k,
    ;
    assert(pos == pos / 512 * 512 + pos % 512) by (nonlinear_arith);
}

impl DiskStreamer {
    /// A stream on `disk`, positioned at its first byte.
    pub fn new(disk: &Disk) -> (r: Box<DiskStreamer>)
        ensures
            r.pos == 0,
            r.disk_number == disk.disk_number,
    {
        Box::new(DiskStreamer { pos: 0, disk_number: disk.disk_number })
    }

    /// Reads `total` bytes from the current position and advances past them.
    /// Fails, leaving the stream as it was, when the disk cannot be addressed.
    pub fn read<D: SectorDevice>(&mut self, dev: &D, total: u32) -> (r: Option<Vec<u8>>)
        requires
            old(self).pos + total <= u32::MAX,
        ensures
            r matches Some(v) ==> Some(v@) == stream_read(old(self).disk_number, old(self).pos as int, total as nat, dev),
            r is None <==> stream_read(old(self).disk_number, old(self).pos as int, total as nat, dev) is None,
            final(self).disk_number == old(self).disk_number,
            r is Some ==> final(self).pos == old(self).pos + total,
            r is None ==> *final(self) == *old(self),
    {
        if self.disk_number >= MAX_DISKS {
            return None;
        }
        let ghost start = self.pos as int;
        let mut res: Vec<u8> = Vec::new();
        let mut remaining: u32 = total;
        while remaining > 0
            invariant
                self.disk_number == old(self).disk_number,
                self.disk_number < MAX_DISKS,
                start == old(self).pos,
                self.pos + remaining == start + total,
                start <= self.pos,
                start + total <= u32::MAX,
                res@ == disk_bytes(dev, self.disk_number, start, (total - remaining) as nat),
            decreases remaining,
        {
            let sector: u32 = self.pos / (SECTOR_SIZE as u32);
            let rel: u32 = self.pos % (SECTOR_SIZE as u32);
            let room: u32 = SECTOR_SIZE as u32 - rel;
            let chunk: u32 = if remaining < room { remaining } else { room };
            let data = read_block_of(self.disk_number, dev, sector, 1);
            let words = match data {
                None => { return None; },
                Some(w) => w,
            };
            let ghost before = res@;
            let mut k: u32 = rel;
            while k < rel + chunk
                invariant
                    rel == self.pos % 512,
                    sector == self.pos / 512,
                    rel + chunk <= 512,
                    rel <= k <= rel + chunk,
                    words@.len() == 256,
                    forall|i: int|
                        0 <= i < words@.len() ==> #[trigger] words@[i] == dev.word_at(
                            self.disk_number,
                            (sector * 256 + i) as u64,
                        ),
                    res@.len() == before.len() + (k - rel),
                    forall|i: int| 0 <= i < before.len() ==> #[trigger] res@[i] == before[i],
                    forall|i: int|
                        before.len() <= i < res@.len() ==> #[trigger] res@[i] == byte_at(
                            dev,
                            self.disk_number,
                            self.pos + (i - before.len()),
                        ),
                decreases rel + chunk - k,
            {
                let w: u16 = words[(k / 2) as usize];
                let b: u8 = if k % 2 == 0 { (w % 256) as u8 } else { (w / 256) as u8 };
                proof {
                    lemma_sector_byte(self.pos as int, k as int);
                }
                res.push(b);
                k = k + 1;
            }
            assert(res@ =~= disk_bytes(dev, self.disk_number, start, (total - remaining + chunk) as nat));
            self.pos = self.pos + chunk;
            remaining = remaining - chunk;
        }
        assert(res@ =~= disk_bytes(dev, self.disk_number, start, total as nat));
        Some(res)
    }

    /// Moves the cursor to `pos`; no bound is checked here.
    pub fn seek(&mut self, pos: u32)
        ensures
            final(self).pos == pos,
            final(self).disk_number == old(self).disk_number,
    {
        self.pos = pos;
    }
}

/// A read of `total` bytes is the read of its first `a` bytes followed by
/// the read of the rest from where the first stopped; for a read longer than
/// a sector, splitting at each sector boundary gives the successive
/// single-sector reads. The result has exactly `total` bytes.
pub proof fn lemma_read_splits(number: u8, pos: int, total: nat, a: nat, dev: &impl SectorDevice)
    requires
        number < MAX_DISKS,
        a <= total,
    ensures
        stream_read(number, pos, total, dev) matches Some(s) && s.len() == total,
        stream_read(number, pos, total, dev)->0 == stream_read(number, pos, a, dev)->0
            + stream_read(number, pos + a, (total - a) as nat, dev)->0,
{
    assert(disk_bytes(dev, number, pos, total) =~= disk_bytes(dev, number, pos, a) + disk_bytes(
        dev,
        number,
        pos + a,
        (total - a) as nat,
    ));
}

/// Seeking to `pos` and reading `total` bytes gives the same bytes whatever
/// the stream did before: a stream holds no state but its disk and position.
pub proof fn lemma_seek_read_repeatable(
    first: DiskStreamer,
    second: DiskStreamer,
    pos: u32,
    total: nat,
    dev: &impl SectorDevice,
)
    requires
        first.disk_number == second.disk_number,
    ensures
        stream_read(first.disk_number, pos as int, total, dev) == stream_read(
            second.disk_number,
            pos as int,
            total,
            dev,
        ),
{
}

} // verus!
