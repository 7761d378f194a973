use vstd::prelude::*;

use crate::fat16::{
    item_of, le16, le32, read_le32, records_in, to_fat_directory_item, FatDirectory, FatDirectoryItem,
    FatFileDescriptor, FatItem, FatItemType,
};

verus! {

// ---------------------------------------------------------------------------
// Descriptor blobs

/// Little-endian bytes of a 16-bit value.
pub open spec fn u16_bytes(x: u16) -> Seq<u8> {
    seq![(x % 256) as u8, (x / 256) as u8]
}

/// Little-endian bytes of a 32-bit value.
pub open spec fn u32_bytes(x: u32) -> Seq<u8> {
    seq![(x % 256) as u8, ((x / 256) % 256) as u8, ((x / 65536) % 256) as u8, (x / 16777216) as u8]
}

/// The 32 on-disk bytes of entry `e`.
pub open spec fn item_bytes(e: FatDirectoryItem) -> Seq<u8> {
    let f = e.filename@;
    let x = e.extension@;
    seq![f[0], f[1], f[2], f[3], f[4], f[5], f[6], f[7], x[0], x[1], x[2], e.attributes, e.reserved,
        e.creation_time_tenths_of_a_sec] + u16_bytes(e.creation_time) + u16_bytes(e.creation_date)
        + u16_bytes(e.last_access) + u16_bytes(e.high_16_bits_first_cluster) + u16_bytes(
        e.last_modification_time,
    ) + u16_bytes(e.last_modification_date) + u16_bytes(e.low_16_bits_first_cluster) + u32_bytes(
        e.file_size,
    )
}

/// The records of `items`, one after the other.
pub open spec fn items_bytes(items: Seq<FatDirectoryItem>) -> Seq<u8>
    decreases items.len(),
{
    if items.len() == 0 {
        Seq::empty()
    } else {
        items_bytes(items.drop_last()) + item_bytes(items.last())
    }
}

/// What a descriptor says: the item's kind, entry, loaded directory
/// (entries, total, sector, end sector), and the position.
pub type DescriptorView = (
    FatItemType,
    Option<FatDirectoryItem>,
    Option<(Seq<FatDirectoryItem>, u32, u32, u32)>,
    u32,
);

pub open spec fn descriptor_view(d: FatFileDescriptor) -> DescriptorView {
    (
        d.item.item_type,
        d.item.item,
        match d.item.directory {
            None => None,
            Some(dir) => Some((dir.items@, dir.total, dir.sector_pos, dir.end_sector_pos)),
        },
        d.position,
    )
}

/// The entry part of a blob: a presence flag and the record (zeros when
/// there is none).
pub open spec fn entry_bytes(e: Option<FatDirectoryItem>) -> Seq<u8> {
    match e {
        None => seq![0u8] + Seq::new(32, |i: int| 0u8),
        Some(e) => seq![1u8] + item_bytes(e),
    }
}

/// The directory part of a blob: a presence flag, then total, sector, end
/// sector and the records.
pub open spec fn directory_bytes(d: Option<(Seq<FatDirectoryItem>, u32, u32, u32)>) -> Seq<u8> {
    match d {
        None => seq![0u8],
        Some(dir) => seq![1u8] + u32_bytes(dir.1) + u32_bytes(dir.2) + u32_bytes(dir.3) + items_bytes(
            dir.0,
        ),
    }
}

/// The fixed-size front of a blob: kind, position and entry part.
pub open spec fn front_bytes(v: DescriptorView) -> Seq<u8> {
    seq![if v.0 == FatItemType::Directory { 0u8 } else { 1u8 }] + u32_bytes(v.3) + entry_bytes(v.1)
}

/// The opaque bytes that stand for descriptor `v`.
pub open spec fn blob_of(v: DescriptorView) -> Seq<u8> {
    front_bytes(v) + directory_bytes(v.2)
}

/// The descriptor that bytes `b` stand for, if they are well formed.
pub open spec fn descriptor_of(b: Seq<u8>) -> Option<DescriptorView> {
    if b.len() < 39 || b[0] > 1 || b[5] > 1 || b[38] > 1 {
        None
    } else {
        let ty = if b[0] == 0 {
            FatItemType::Directory
        } else {
            FatItemType::File
        };
        let item = if b[5] == 1 {
            Some(item_of(b.subrange(6, 38)))
        } else {
            None
        };
        if b[38] == 0 {
            if b.len() != 39 {
                None
            } else {
                Some((ty, item, None, le32(b, 1)))
            }
        } else if b.len() < 51 || (b.len() - 51) % 32 != 0 {
            None
        } else {
            Some(
                (
                    ty,
                    item,
                    Some(
                        (
                            records_in(b.subrange(51, b.len() as int)),
                            le32(b, 39),
                            le32(b, 43),
                            le32(b, 47),
                        ),
                    ),
                    le32(b, 1),
                ),
            )
        }
    }
}

proof fn lemma_u16_bytes(x: u16)
    ensures
        le16(u16_bytes(x), 0) == x,
{
}

proof fn lemma_u32_bytes(x: u32)
    ensures
        le32(u32_bytes(x), 0) == x,
{
}

proof fn lemma_item_bytes(e: FatDirectoryItem)
    ensures
        item_bytes(e).len() == 32,
        item_of(item_bytes(e)) == e,
{
    let b = item_bytes(e);
    lemma_u16_bytes(e.creation_time);
    lemma_u16_bytes(e.creation_date);
    lemma_u16_bytes(e.last_access);
    lemma_u16_bytes(e.high_16_bits_first_cluster);
    lemma_u16_bytes(e.last_modification_time);
    lemma_u16_bytes(e.last_modification_date);
    lemma_u16_bytes(e.low_16_bits_first_cluster);
    lemma_u32_bytes(e.file_size);
    let r = item_of(b);
    assert(r.filename =~= e.filename);
    assert(r.extension =~= e.extension);
    assert(r.attributes == e.attributes);
    assert(r.reserved == e.reserved);
    assert(r.creation_time_tenths_of_a_sec == e.creation_time_tenths_of_a_sec);
    assert(r.creation_time == e.creation_time);
    assert(r.creation_date == e.creation_date);
    assert(r.last_access == e.last_access);
    assert(r.high_16_bits_first_cluster == e.high_16_bits_first_cluster);
    assert(r.last_modification_time == e.last_modification_time);
    assert(r.last_modification_date == e.last_modification_date);
    assert(r.low_16_bits_first_cluster == e.low_16_bits_first_cluster);
    assert(r.file_size == e.file_size);
}

proof fn lemma_items_bytes(items: Seq<FatDirectoryItem>)
    ensures
        items_bytes(items).len() == 32 * items.len(),
        records_in(items_bytes(items)) =~= items,
    decreases items.len(),
{
    if items.len() > 0 {
        let init = items.drop_last();
        lemma_items_bytes(init);
        lemma_item_bytes(items.last());
        let b = items_bytes(items);
        assert(b.len() / 32 == items.len());
        assert forall|k: int| 0 <= k < items.len() implies #[trigger] records_in(b)[k] == items[k] by {
            if k < init.len() {
                assert(b.subrange(32 * k, 32 * k + 32) =~= items_bytes(init).subrange(
                    32 * k,
                    32 * k + 32,
                ));
                assert(records_in(items_bytes(init))[k] == init[k]);
            } else {
                assert(b.subrange(32 * k, 32 * k + 32) =~= item_bytes(items.last()));
            }
        }
    }
}

proof fn lemma_front_bytes(v: DescriptorView)
    ensures
        front_bytes(v).len() == 38,
        front_bytes(v)[0] == (if v.0 == FatItemType::Directory { 0u8 } else { 1u8 }),
        le32(front_bytes(v), 1) == v.3,
        front_bytes(v)[5] == (if v.1 is Some { 1u8 } else { 0u8 }),
        v.1 matches Some(e) ==> item_of(front_bytes(v).subrange(6, 38)) == e,
{
    let f = front_bytes(v);
    lemma_u32_bytes(v.3);
    assert(le32(f, 1) == le32(u32_bytes(v.3), 0));
    if let Some(e) = v.1 {
        lemma_item_bytes(e);
        assert(f.subrange(6, 38) =~= item_bytes(e));
    }
}

proof fn lemma_directory_bytes(d: Option<(Seq<FatDirectoryItem>, u32, u32, u32)>)
    ensures
        directory_bytes(d)[0] == (if d is Some { 1u8 } else { 0u8 }),
        d is None ==> directory_bytes(d).len() == 1,
        d matches Some(dir) ==> {
            let b = directory_bytes(d);
            &&& b.len() == 13 + 32 * dir.0.len()
            &&& le32(b, 1) == dir.1
            &&& le32(b, 5) == dir.2
            &&& le32(b, 9) == dir.3
            &&& records_in(b.subrange(13, b.len() as int)) == dir.0
        },
{
    if let Some(dir) = d {
        let b = directory_bytes(d);
        lemma_items_bytes(dir.0);
        lemma_u32_bytes(dir.1);
        lemma_u32_bytes(dir.2);
        lemma_u32_bytes(dir.3);
        assert(le32(b, 1) == le32(u32_bytes(dir.1), 0));
        assert(le32(b, 5) == le32(u32_bytes(dir.2), 0));
        assert(le32(b, 9) == le32(u32_bytes(dir.3), 0));
        assert(b.subrange(13, b.len() as int) =~= items_bytes(dir.0));
    }
}

/// Reading back the bytes written for a descriptor gives the same
/// descriptor: kind, entry, loaded directory and position.
pub proof fn lemma_blob_round_trip(v: DescriptorView)
    ensures
        descriptor_of(blob_of(v)) == Some(v),
{
    let f = front_bytes(v);
    let t = directory_bytes(v.2);
    let b = blob_of(v);
    lemma_front_bytes(v);
    lemma_directory_bytes(v.2);
    assert(b[0] == f[0] && b[5] == f[5] && b[38] == t[0]);
    assert(le32(b, 1) == le32(f, 1));
    assert(b.subrange(6, 38) =~= f.subrange(6, 38));
    if let Some(dir) = v.2 {
        assert(le32(b, 39) == le32(t, 1));
        assert(le32(b, 43) == le32(t, 5));
        assert(le32(b, 47) == le32(t, 9));
        assert(b.subrange(51, b.len() as int) =~= t.subrange(13, t.len() as int));
        assert((b.len() - 51) % 32 == 0) by (nonlinear_arith)
            requires
                b.len() - 51 == 32 * dir.0.len(),
        ;
    }
}

fn push_u16(v: &mut Vec<u8>, x: u16)
    ensures
        final(v)@ == old(v)@ + u16_bytes(x),
{
    v.push((x % 256) as u8);
    v.push((x / 256) as u8);
    assert(final(v)@ =~= old(v)@ + u16_bytes(x));
}

fn push_u32(v: &mut Vec<u8>, x: u32)
    ensures
        final(v)@ == old(v)@ + u32_bytes(x),
{
    v.push((x % 256) as u8);
    v.push(((x / 256) % 256) as u8);
    v.push(((x / 65536) % 256) as u8);
    v.push((x / 16777216) as u8);
    assert(final(v)@ =~= old(v)@ + u32_bytes(x));
}

fn push_item(v: &mut Vec<u8>, e: &FatDirectoryItem)
    ensures
        final(v)@ == old(v)@ + item_bytes(*e),
{
    let mut i: usize = 0;
    while i < 8
        invariant
            i <= 8,
            v@ == old(v)@ + e.filename@.take(i as int),
        decreases 8 - i,
    {
        v.push(e.filename[i]);
        assert(e.filename@.take(i + 1) =~= e.filename@.take(i as int).push(e.filename@[i as int]));
        i = i + 1;
    }
    let mut j: usize = 0;
    while j < 3
        invariant
            j <= 3,
            v@ == old(v)@ + e.filename@ + e.extension@.take(j as int),
        decreases 3 - j,
    {
        v.push(e.extension[j]);
        assert(e.extension@.take(j + 1) =~= e.extension@.take(j as int).push(
            e.extension@[j as int],
        ));
        j = j + 1;
    }
    v.push(e.attributes);
    v.push(e.reserved);
    v.push(e.creation_time_tenths_of_a_sec);
    push_u16(v, e.creation_time);
    push_u16(v, e.creation_date);
    push_u16(v, e.last_access);
    push_u16(v, e.high_16_bits_first_cluster);
    push_u16(v, e.last_modification_time);
    push_u16(v, e.last_modification_date);
    push_u16(v, e.low_16_bits_first_cluster);
    push_u32(v, e.file_size);
    assert(e.filename@.take(8) =~= e.filename@);
    assert(e.extension@.take(3) =~= e.extension@);
    assert(final(v)@ =~= old(v)@ + item_bytes(*e));
}

fn push_front(r: &mut Vec<u8>, d: &FatFileDescriptor)
    ensures
        final(r)@ == old(r)@ + front_bytes(descriptor_view(*d)),
{
    let ghost start = r@;
    r.push(if d.item.item_type == FatItemType::Directory { 0u8 } else { 1u8 });
    push_u32(r, d.position);
    let ghost mid = r@;
    match &d.item.item {
        None => {
            r.push(0u8);
            let mut i: usize = 0;
            while i < 32
                invariant
                    i <= 32,
                    r@ == mid + seq![0u8] + Seq::new(i as nat, |k: int| 0u8),
                decreases 32 - i,
            {
                r.push(0u8);
                assert(Seq::new((i + 1) as nat, |k: int| 0u8) =~= Seq::new(i as nat, |k: int| 0u8).push(0u8));
                i = i + 1;
            }
        },
        Some(e) => {
            r.push(1u8);
            push_item(r, e);
        },
    }
    assert(r@ =~= start + front_bytes(descriptor_view(*d)));
}

fn push_directory(r: &mut Vec<u8>, d: &FatFileDescriptor)
    ensures
        final(r)@ == old(r)@ + directory_bytes(descriptor_view(*d).2),
{
    let ghost start = r@;
    match &d.item.directory {
        None => {
            r.push(0u8);
        },
        Some(dir) => {
            r.push(1u8);
            push_u32(r, dir.total);
            push_u32(r, dir.sector_pos);
            push_u32(r, dir.end_sector_pos);
            let ghost before = r@;
            let mut k: usize = 0;
            while k < dir.items.len()
                invariant
                    k <= dir.items@.len(),
                    r@ == before + items_bytes(dir.items@.take(k as int)),
                decreases dir.items@.len() - k,
            {
                push_item(r, &dir.items[k]);
                assert(dir.items@.take(k + 1).drop_last() =~= dir.items@.take(k as int));
                k = k + 1;
            }
            assert(dir.items@.take(k as int) =~= dir.items@);
        },
    }
    assert(r@ =~= start + directory_bytes(descriptor_view(*d).2));
}

/// Writes a descriptor as the opaque bytes that cross the driver boundary.
pub fn fat16_encode_descriptor(d: &FatFileDescriptor) -> (r: Vec<u8>)
    ensures
        r@ == blob_of(descriptor_view(*d)),
{
    let mut r: Vec<u8> = Vec::new();
    push_front(&mut r, d);
    push_directory(&mut r, d);
    assert(r@ =~= blob_of(descriptor_view(*d)));
    r
}

/// Reads a descriptor back from its opaque bytes; `None` when they are not
/// well formed.
pub fn fat16_decode_descriptor(b: &Vec<u8>) -> (r: Option<FatFileDescriptor>)
    ensures
        r is None <==> descriptor_of(b@) is None,
        r matches Some(d) ==> descriptor_view(d) == descriptor_of(b@)->0,
{
    let len: usize = b.len();
    if len < 39 || b[0] > 1 || b[5] > 1 || b[38] > 1 {
        return None;
    }
    let item_type = if b[0] == 0 { FatItemType::Directory } else { FatItemType::File };
    let item = if b[5] == 1 { Some(to_fat_directory_item(b, 6)) } else { None };
    let position = read_le32(b, 1);
    let directory = if b[38] == 0 {
        if len != 39 {
            return None;
        }
        None
    } else {
        if len < 51 || (len - 51) % 32 != 0 {
            return None;
        }
        let ghost sub = b@.subrange(51, len as int);
        let n: usize = (len - 51) / 32;
        let mut items: Vec<FatDirectoryItem> = Vec::new();
        let mut k: usize = 0;
        while k < n
            invariant
                len == b@.len(),
                len >= 51,
                n == (len - 51) / 32,
                sub == b@.subrange(51, len as int),
                k <= n,
                items@ == records_in(sub).take(k as int),
            decreases n - k,
        {
            assert(51 + 32 * k + 32 <= len) by (nonlinear_arith)
                requires
                    k < n,
                    n == (len - 51) / 32,
                    len >= 51,
            ;
            let e = to_fat_directory_item(b, 51 + 32 * k);
            assert(b@.subrange(51 + 32 * k, 51 + 32 * k + 32) =~= sub.subrange(
                32 * k,
                32 * k + 32,
            ));
            items.push(e);
            assert(records_in(sub).take(k + 1) =~= records_in(sub).take(k as int).push(e));
            k = k + 1;
        }
        assert(records_in(sub).take(n as int) =~= records_in(sub));
        Some(
            FatDirectory {
                items,
                total: read_le32(b, 39),
                sector_pos: read_le32(b, 43),
                end_sector_pos: read_le32(b, 47),
            },
        )
    };
    Some(FatFileDescriptor { item: FatItem { item, directory, item_type }, position })
}

} // verus!
