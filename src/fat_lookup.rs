use vstd::prelude::*;

use crate::disk::{Disk, SectorDevice};
use crate::disk::SECTOR_BYTES;
use crate::fat16::{
    dir_records, fat16_get_total_items_for_directory, lemma_dir_read, live_count, live_entries,
    to_fat_directory_items, FatDirectory, FatDirectoryItem, FatItem, FatItemType, FatPrivate,
    FAT_DIRECTORY_ITEM_SIZE, FAT_FILE_SUBDIRECTORY,
};
use crate::fat_chain::{fat16_cluster_to_sector, fat16_get_first_cluster, first_cluster, sector_of_cluster};
use crate::path_parser::{parts_from, parts_of, PathPart};
use crate::text::{chars_of, trim, trim_chars};

verus! {

// ---------------------------------------------------------------------------
// Names

/// `c` lowercased as Unicode lowercases the Latin-1 range (`A`-`Z` and
/// `À`-`Þ` but `×`); any other character is left as it is. Names on disk
/// are bytes, so only this range can match them.
pub open spec fn lower_char(c: char) -> char {
    if ('A' <= c && c <= 'Z') || ('\u{C0}' <= c && c <= '\u{DE}' && c != '\u{D7}') {
        (((c as u32) + 32) as u8) as char
    } else {
        c
    }
}

/// Every character of `s` lowercased.
pub open spec fn lower_chars(s: Seq<char>) -> Seq<char> {
    s.map_values(|c: char| lower_char(c))
}

/// A name byte read as the character of that code point, lowercased.
pub open spec fn lower_latin1(b: u8) -> char {
    lower_char(b as char)
}

fn lower_one(c: char) -> (r: char)
    ensures
        r == lower_char(c),
{
    if ('A' <= c && c <= 'Z') || ('\u{C0}' <= c && c <= '\u{DE}' && c != '\u{D7}') {
        let v: u32 = c as u32;
        ((v + 32) as u8) as char
    } else {
        c
    }
}

/// Every character of `name` lowercased.
fn lower_name(name: &Vec<char>) -> (r: Vec<char>)
    ensures
        r@ == lower_chars(name@),
{
    let mut r: Vec<char> = Vec::new();
    let mut i: usize = 0;
    while i < name.len()
        invariant
            i <= name@.len(),
            r@ == lower_chars(name@.take(i as int)),
        decreases name@.len() - i,
    {
        r.push(lower_one(name[i]));
        assert(lower_chars(name@.take(i + 1)) =~= lower_chars(name@.take(i as int)).push(
            lower_char(name@[i as int]),
        ));
        i = i + 1;
    }
    assert(name@.take(i as int) =~= name@);
    r
}

/// An 8.3 name part, lowercased and without its padding.
pub open spec fn proper_name(bytes: Seq<u8>) -> Seq<char> {
    trim(bytes.map_values(|b: u8| lower_latin1(b)))
}

/// The entry has an extension: its first byte is neither NUL nor a space.
pub open spec fn has_extension(e: FatDirectoryItem) -> bool {
    e.extension@[0] != 0x00 && e.extension@[0] != 0x20
}

/// The name a path component is matched against: `name` or `name.ext`.
pub open spec fn full_name(e: FatDirectoryItem) -> Seq<char> {
    proper_name(e.filename@) + if has_extension(e) {
        seq!['.'] + proper_name(e.extension@)
    } else {
        Seq::empty()
    }
}

fn lower_byte(b: u8) -> (r: char)
    ensures
        r == lower_latin1(b),
{
    lower_one(b as char)
}

/// Lowercases the bytes of a name part and trims its padding.
fn fat16_to_proper_string(path: &[u8]) -> (r: Vec<char>)
    ensures
        r@ == proper_name(path@),
{
    let mut res: Vec<char> = Vec::new();
    let mut i: usize = 0;
    while i < path.len()
        invariant
            i <= path@.len(),
            res@ == path@.take(i as int).map_values(|b: u8| lower_latin1(b)),
        decreases path@.len() - i,
    {
        res.push(lower_byte(path[i]));
        assert(path@.take(i + 1).map_values(|b: u8| lower_latin1(b)) =~= path@.take(
            i as int,
        ).map_values(|b: u8| lower_latin1(b)).push(lower_latin1(path@[i as int])));
        i = i + 1;
    }
    assert(path@.take(i as int) =~= path@);
    trim_chars(&res)
}

/// The name of an entry as path components spell it.
fn fat16_get_full_relative_filename(item: &FatDirectoryItem) -> (r: Vec<char>)
    ensures
        r@ == full_name(*item),
{
    let mut res = fat16_to_proper_string(&item.filename);
    if item.extension[0] != 0x00 && item.extension[0] != 0x20 {
        let mut ext = fat16_to_proper_string(&item.extension);
        let ghost a = res@;
        let ghost b = ext@;
        res.push('.');
        res.append(&mut ext);
        assert(res@ =~= a + (seq!['.'] + b));
    } else {
        assert(res@ =~= res@ + Seq::<char>::empty());
    }
    res
}

fn same_chars(a: &Vec<char>, b: &Vec<char>) -> (r: bool)
    ensures
        r == (a@ == b@),
{
    if a.len() != b.len() {
        return false;
    }
    let mut i: usize = 0;
    while i < a.len()
        invariant
            a@.len() == b@.len(),
            i <= a@.len(),
            forall|j: int| 0 <= j < i ==> a@[j] == b@[j],
        decreases a@.len() - i,
    {
        if a[i] != b[i] {
            return false;
        }
        i = i + 1;
    }
    assert(a@ =~= b@);
    true
}

// ---------------------------------------------------------------------------
// Path resolution

/// Index of the last entry of `items` whose name is `name`, compared
/// without regard to case.
pub open spec fn last_match(items: Seq<FatDirectoryItem>, name: Seq<char>) -> Option<int>
    decreases items.len(),
{
    if items.len() == 0 {
        None
    } else if full_name(items.last()) == lower_chars(name) {
        Some(items.len() - 1)
    } else {
        last_match(items.drop_last(), name)
    }
}

/// The entry carries the subdirectory attribute.
pub open spec fn is_subdirectory(e: FatDirectoryItem) -> bool {
    e.attributes & FAT_FILE_SUBDIRECTORY != 0
}

/// The directory that entry `e` names, scanned from the first sector of its
/// first cluster up to the end-of-list record, as the root directory is: its
/// live entries, their count, and that sector.
pub open spec fn load_directory<D: SectorDevice>(dev: &D, p: FatPrivate, e: FatDirectoryItem) -> Option<
    (Seq<FatDirectoryItem>, nat, int),
> {
    if !is_subdirectory(e) {
        None
    } else {
        match sector_of_cluster(p, first_cluster(e)) {
            None => None,
            Some(s) => match dir_records(dev, p.directory_stream.disk_number, s * 512, 0) {
                None => None,
                Some(recs) => Some((live_entries(recs), live_count(recs), s)),
            },
        }
    }
}

/// `fi` is the resolved form of entry `e`: a file, or a directory with the
/// entries that `load_directory` gives.
pub open spec fn is_item_for<D: SectorDevice>(
    fi: FatItem,
    dev: &D,
    p: FatPrivate,
    e: FatDirectoryItem,
) -> bool {
    &&& fi.item == Some(e)
    &&& if is_subdirectory(e) {
        &&& fi.item_type == FatItemType::Directory
        &&& fi.directory matches Some(d) && load_directory(dev, p, e) == Some(
            (d.items@, d.total as nat, d.sector_pos as int),
        ) && d.end_sector_pos == 0
    } else {
        fi.item_type == FatItemType::File && fi.directory is None
    }
}

/// The entry `e` can be resolved: it is a file, or its directory loads.
pub open spec fn item_loads<D: SectorDevice>(dev: &D, p: FatPrivate, e: FatDirectoryItem) -> bool {
    !is_subdirectory(e) || load_directory(dev, p, e) is Some
}

/// Loads the directory that entry `item` names: its records are counted from
/// the first sector of its first cluster up to the end-of-list record, then
/// read from the same start in one piece.
fn fat16_load_fat_directory<D: SectorDevice>(
    disk: &Disk,
    dev: &D,
    item: &FatDirectoryItem,
) -> (r: Result<FatDirectory, ()>)
    ensures
        r is Ok <==> (disk.fat_private matches Some(p) && load_directory(dev, *p, *item) is Some),
        r matches Ok(d) ==> (disk.fat_private matches Some(p) && load_directory(dev, *p, *item)
            == Some((d.items@, d.total as nat, d.sector_pos as int)) && d.end_sector_pos == 0),
{
    let fat_private = match &disk.fat_private {
        None => { return Err(()); },
        Some(p) => p,
    };
    if item.attributes & FAT_FILE_SUBDIRECTORY == 0 {
        return Err(());
    }
    let cluster = fat16_get_first_cluster(item);
    let cluster_sector = match fat16_cluster_to_sector(fat_private, cluster) {
        Err(_) => { return Err(()); },
        Ok(s) => s,
    };
    let stream = *fat_private.directory_stream;
    let (total_items, end) = match fat16_get_total_items_for_directory(stream, dev, cluster_sector) {
        None => { return Err(()); },
        Some(c) => c,
    };
    let ghost recs = dir_records(dev, stream.disk_number, cluster_sector * 512, 0)->0;
    let mut cursor = stream;
    cursor.seek(cluster_sector * SECTOR_BYTES);
    let bytes = match cursor.read(dev, end * FAT_DIRECTORY_ITEM_SIZE) {
        None => { return Err(()); },
        Some(b) => b,
    };
    let items = to_fat_directory_items(&bytes);
    proof {
        lemma_dir_read(dev, stream.disk_number, cluster_sector * 512, recs);
    }
    Ok(FatDirectory { items, total: total_items, sector_pos: cluster_sector, end_sector_pos: 0 })
}

/// Resolves entry `item`, loading its directory when it is one.
fn fat16_new_fat_item_for_directory_item<D: SectorDevice>(
    disk: &Disk,
    dev: &D,
    item: &FatDirectoryItem,
) -> (r: Result<FatItem, ()>)
    ensures
        r is Ok <==> (disk.fat_private matches Some(p) && item_loads(dev, *p, *item)) || (
        !is_subdirectory(*item)),
        r matches Ok(fi) ==> (!is_subdirectory(*item) ==> fi.item == Some(*item) && fi.item_type
            == FatItemType::File && fi.directory is None),
        r matches Ok(fi) ==> (disk.fat_private matches Some(p) ==> is_item_for(fi, dev, *p, *item)),
{
    let mut f_item = FatItem { item: None, directory: None, item_type: FatItemType::File };
    if item.attributes & FAT_FILE_SUBDIRECTORY != 0 {
        let directory = match fat16_load_fat_directory(disk, dev, item) {
            Err(_) => { return Err(()); },
            Ok(d) => d,
        };
        f_item.directory = Some(directory);
        f_item.item_type = FatItemType::Directory;
    }
    f_item.item = Some(*item);
    Ok(f_item)
}

/// What looking `name` up among `items` yields: the last entry of that name
/// and, for a directory, its loaded entries.
pub open spec fn lookup<D: SectorDevice>(
    dev: &D,
    p: FatPrivate,
    items: Seq<FatDirectoryItem>,
    name: Seq<char>,
) -> Option<(FatDirectoryItem, Option<Seq<FatDirectoryItem>>)> {
    match last_match(items, name) {
        None => None,
        Some(k) => {
            let e = items[k];
            if is_subdirectory(e) {
                match load_directory(dev, p, e) {
                    None => None,
                    Some(l) => Some((e, Some(l.0))),
                }
            } else {
                Some((e, None))
            }
        },
    }
}

/// Follows the components `rest` down from `cur`: each must name an entry
/// of the directory reached so far.
pub open spec fn walk<D: SectorDevice>(
    dev: &D,
    p: FatPrivate,
    cur: (FatDirectoryItem, Option<Seq<FatDirectoryItem>>),
    rest: Seq<Seq<char>>,
) -> Option<FatDirectoryItem>
    decreases rest.len(),
{
    if rest.len() == 0 {
        Some(cur.0)
    } else {
        match cur.1 {
            None => None,
            Some(items) => match lookup(dev, p, items, rest[0]) {
                None => None,
                Some(nx) => walk(dev, p, nx, rest.drop_first()),
            },
        }
    }
}

/// The entry that the components `parts` name on the disk: an error when
/// the disk has no FAT16 state or the first component is not in the root
/// directory, no entry when a later component is not found.
pub open spec fn directory_entry<D: SectorDevice>(
    dev: &D,
    disk: Disk,
    parts: Seq<Seq<char>>,
) -> Result<Option<FatDirectoryItem>, ()> {
    match disk.fat_private {
        None => Err(()),
        Some(p) => match p.root_directory {
            None => Err(()),
            Some(root) => match lookup(dev, *p, root.items@, parts[0]) {
                None => Err(()),
                Some(first) => Ok(walk(dev, *p, first, parts.drop_first())),
            },
        },
    }
}

/// `fi` stands for the lookup result `cur`.
pub open spec fn item_matches(fi: FatItem, cur: (FatDirectoryItem, Option<Seq<FatDirectoryItem>>)) -> bool {
    &&& fi.item == Some(cur.0)
    &&& match cur.1 {
        None => fi.directory is None && fi.item_type == FatItemType::File,
        Some(items) => fi.directory matches Some(d) && d.items@ == items && fi.item_type
            == FatItemType::Directory,
    }
}

/// Looks `name` up among the entries of `directory`; the last entry of that
/// name wins.
fn fat16_find_item_in_directory<D: SectorDevice>(
    disk: &Disk,
    dev: &D,
    directory: &FatDirectory,
    name: &Vec<char>,
) -> (r: Option<FatItem>)
    requires
        disk.fat_private is Some,
    ensures
        r is Some <==> lookup(dev, *disk.fat_private->0, directory.items@, name@) is Some,
        r matches Some(fi) ==> item_matches(fi, lookup(dev, *disk.fat_private->0, directory.items@, name@)->0)
            && is_item_for(fi, dev, *disk.fat_private->0, fi.item->0),
{
    let ghost items = directory.items@;
    let lowered = lower_name(name);
    let mut found: Option<usize> = None;
    let mut i: usize = 0;
    while i < directory.items.len()
        invariant
            items == directory.items@,
            lowered@ == lower_chars(name@),
            i <= items.len(),
            found matches Some(k) ==> last_match(items.take(i as int), name@) == Some(k as int)
                && k < i,
            found is None ==> last_match(items.take(i as int), name@) is None,
        decreases items.len() - i,
    {
        let tmp_filename = fat16_get_full_relative_filename(&directory.items[i]);
        assert(items.take(i + 1).drop_last() =~= items.take(i as int));
        if same_chars(&tmp_filename, &lowered) {
            found = Some(i);
        }
        i = i + 1;
    }
    assert(items.take(i as int) =~= items);
    match found {
        None => None,
        Some(k) => {
            let e = directory.items[k];
            match fat16_new_fat_item_for_directory_item(disk, dev, &e) {
                Err(_) => None,
                Ok(fi) => Some(fi),
            }
        },
    }
}

/// Resolves the chain of components that starts at `path` to an entry.
pub(crate) fn fat16_get_directory_entry<D: SectorDevice>(disk: &Disk, dev: &D, path: &PathPart) -> (r: Result<
    Option<FatItem>,
    (),
>)
    ensures
        r is Err <==> directory_entry(dev, *disk, parts_of(*path)) is Err,
        r matches Ok(None) ==> directory_entry(dev, *disk, parts_of(*path)) == Ok::<
            Option<FatDirectoryItem>,
            (),
        >(None),
        r matches Ok(Some(fi)) ==> directory_entry(dev, *disk, parts_of(*path)) == Ok::<
            Option<FatDirectoryItem>,
            (),
        >(fi.item) && fi.item is Some && disk.fat_private is Some && is_item_for(
            fi,
            dev,
            *disk.fat_private->0,
            fi.item->0,
        ),
{
    let fat_private = match &disk.fat_private {
        None => { return Err(()); },
        Some(p) => p,
    };
    let root_directory = match &fat_private.root_directory {
        None => { return Err(()); },
        Some(d) => d,
    };
    let ghost p = **fat_private;
    let part = chars_of(&path.part);
    assert(parts_of(*path)[0] == path.part@);
    let root_item = fat16_find_item_in_directory(disk, dev, root_directory, &part);
    let mut current_item = match root_item {
        None => { return Err(()); },
        Some(fi) => fi,
    };
    let ghost first = lookup(dev, p, root_directory.items@, part@)->0;
    let mut next_part: &Option<Box<PathPart>> = &path.next;
    let ghost mut cur = first;
    assert(parts_of(*path).drop_first() =~= parts_from(*next_part));
    assert(directory_entry(dev, *disk, parts_of(*path)) == Ok::<Option<FatDirectoryItem>, ()>(
        walk(dev, p, first, parts_of(*path).drop_first()),
    ));
    while next_part.is_some()
        invariant
            disk.fat_private is Some,
            *disk.fat_private->0 == p,
            directory_entry(dev, *disk, parts_of(*path)) == Ok::<Option<FatDirectoryItem>, ()>(
                walk(dev, p, first, parts_of(*path).drop_first()),
            ),
            item_matches(current_item, cur),
            is_item_for(current_item, dev, p, current_item.item->0),
            walk(dev, p, first, parts_of(*path).drop_first()) == walk(dev, p, cur, parts_from(*next_part)),
        decreases parts_from(*next_part).len(),
    {
        let np = match next_part {
            None => { return Err(()); },
            Some(b) => b,
        };
        assert(parts_from(*next_part) =~= seq![np.part@] + parts_from(np.next));
        if current_item.item_type != FatItemType::Directory {
            return Ok(None);
        }
        let directory = match &current_item.directory {
            None => { return Err(()); },
            Some(d) => d,
        };
        let name = chars_of(&np.part);
        let tmp_item = fat16_find_item_in_directory(disk, dev, directory, &name);
        match tmp_item {
            None => { return Ok(None); },
            Some(fi) => {
                proof {
                    cur = lookup(dev, p, directory.items@, name@)->0;
                    assert(parts_from(*next_part).drop_first() =~= parts_from(np.next));
                }
                current_item = fi;
            },
        }
        next_part = &np.next;
    }
    Ok(Some(current_item))
}

} // verus!
