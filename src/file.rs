use vstd::prelude::*;

use crate::disk::{Disk, DiskType, SectorDevice, SECTOR_SIZE};
use crate::fat16::{
    fat16_filesystem, lemma_same_disk_directory_entry, fat16_init, fat16_open, fat16_read, fat16_resolve, fat16_seek,
    fat_read_result, is_resolved_state, lemma_same_directory_entry, opened_view, resolve_outcome,
    same_disk, seek_target, FatPrivate, ResolveError,
};
use crate::fat_blob::descriptor_of;
use crate::fat_lookup::directory_entry;
use crate::path_parser::{init_path, parse_path, parts_of};
use crate::text::chars_of;

verus! {

pub const MAX_OS_FILESYSTEMS: usize = 12;
/// Number of descriptors that a 16-bit index can tell apart.
pub const DESCRIPTOR_INDEX_LIMIT: usize = 0x1_0000;

/// Highest device index that `get_disk` hands out.
pub const MAX_DISK_INDEX: u8 = 2;

/// Where a seek offset is counted from.
#[allow(non_camel_case_types)]
#[derive(Debug, Clone, Copy, PartialEq, Eq, Structural)]
pub enum FileSeekMode {
    SEEK_SET,
    SEEK_CUR,
    SEEK_END,
}

/// The mode a file is opened in.
#[derive(Debug, Clone, Copy, PartialEq, Eq, Structural)]
pub enum FileMode {
    READ,
    WRITE,
    APPEND,
    INVALID,
}

/// An open file, as user code sees it.
pub struct File {}

/// The filesystem drivers this kernel knows.
#[derive(Debug, Clone, Copy, PartialEq, Eq, Structural)]
pub enum FileSystemKind {
    Fat16,
}

/// A registered filesystem driver: which one, and its padded name.
#[derive(Debug, Clone, Copy)]
pub struct FileSystem {
    pub kind: FileSystemKind,
    pub name: [char; 20],
}

/// An open file: its driver, the driver's opaque state, the disk it lives
/// on and its index in the descriptor table.
#[derive(Debug, Clone)]
pub struct FileDescriptor {
    pub filesystem: FileSystem,
    pub private: Vec<u8>,
    pub disk: Disk,
    pub index: u16,
}

/// The kernel's filesystem state: the table of registered drivers, the
/// handle of each device slot once it has been looked up, and the table of
/// open descriptors. All three only grow.
pub struct Vfs {
    pub filesystems: Vec<Option<FileSystem>>,
    pub disks: Vec<Option<Disk>>,
    pub descriptors: Vec<FileDescriptor>,
}

#[derive(Debug, Clone, Copy, PartialEq, Eq, Structural)]
pub enum FOpenError {
    ParsePathError,
    NoDiskError,
    NoFilesystemError,
    InvalidFileModeError,
    OpenFileError,
}

impl Vfs {
    /// The driver table and the handle table have their fixed number of
    /// slots.
    pub open spec fn wf(&self) -> bool {
        &&& self.filesystems@.len() == MAX_OS_FILESYSTEMS
        &&& self.disks@.len() == MAX_DISK_INDEX + 1
    }
}

// ---------------------------------------------------------------------------
// Driver dispatch

/// Whether driver `fs` recognises device `number`.
pub open spec fn resolves<D: SectorDevice>(fs: FileSystem, dev: &D, number: u8) -> bool {
    match fs.kind {
        FileSystemKind::Fat16 => resolve_outcome(dev, number) is Ok,
    }
}

/// `p` is the state that driver `fs` attaches to device `number`.
pub open spec fn is_state_of<D: SectorDevice>(fs: FileSystem, p: FatPrivate, dev: &D, number: u8) -> bool {
    match fs.kind {
        FileSystemKind::Fat16 => is_resolved_state(p, dev, number),
    }
}

fn filesystem_resolve<D: SectorDevice>(fs: &FileSystem, disk: &Disk, dev: &D) -> (r: Result<
    Box<FatPrivate>,
    ResolveError,
>)
    ensures
        r is Ok <==> resolves(*fs, dev, disk.disk_number),
        r matches Ok(p) ==> is_state_of(*fs, *p, dev, disk.disk_number),
{
    match fs.kind {
        FileSystemKind::Fat16 => fat16_resolve(disk, dev),
    }
}

// ---------------------------------------------------------------------------
// Registry

/// Index of the first free slot at or after `i`.
pub open spec fn first_free(slots: Seq<Option<FileSystem>>, i: int) -> Option<int>
    decreases slots.len() - i,
{
    if i < 0 || i >= slots.len() {
        None
    } else if slots[i] is None {
        Some(i)
    } else {
        first_free(slots, i + 1)
    }
}

/// An empty state: no driver registered, no file open.
pub fn fs_new() -> (r: Vfs)
    ensures
        r.wf(),
        forall|i: int| 0 <= i < MAX_OS_FILESYSTEMS ==> r.filesystems@[i] is None,
        forall|i: int| 0 <= i <= MAX_DISK_INDEX ==> r.disks@[i] is None,
        r.descriptors@.len() == 0,
{
    let mut disks: Vec<Option<Disk>> = Vec::new();
    disks.push(None);
    disks.push(None);
    disks.push(None);
    let mut filesystems: Vec<Option<FileSystem>> = Vec::new();
    let mut i: usize = 0;
    while i < MAX_OS_FILESYSTEMS
        invariant
            i <= MAX_OS_FILESYSTEMS,
            filesystems@.len() == i,
            forall|j: int| 0 <= j < i ==> filesystems@[j] is None,
        decreases MAX_OS_FILESYSTEMS - i,
    {
        filesystems.push(None);
        i = i + 1;
    }
    Vfs { filesystems, disks, descriptors: Vec::new() }
}

/// Brings up the filesystem layer with its built-in drivers registered.
pub fn fs_init() -> (r: Vfs)
    ensures
        r.wf(),
        r.filesystems@[0] == Some(fat16_filesystem()),
        forall|i: int| 1 <= i < MAX_OS_FILESYSTEMS ==> r.filesystems@[i] is None,
        forall|i: int| 0 <= i <= MAX_DISK_INDEX ==> r.disks@[i] is None,
        r.descriptors@.len() == 0,
{
    let mut vfs = fs_new();
    assert(first_free(vfs.filesystems@, 0) == Some(0int));
    fs_static_load(&mut vfs);
    vfs
}

/// Registers `fs` in the first free slot. The table must have one: running
/// out of slots is a configuration error.
pub fn fs_insert_fs(vfs: &mut Vfs, fs: FileSystem)
    requires
        old(vfs).wf(),
        first_free(old(vfs).filesystems@, 0) is Some,
    ensures
        final(vfs).wf(),
        final(vfs).filesystems@ == old(vfs).filesystems@.update(
            first_free(old(vfs).filesystems@, 0)->0,
            Some(fs),
        ),
        final(vfs).descriptors@ == old(vfs).descriptors@,
        final(vfs).disks@ == old(vfs).disks@,
{
    let mut i: usize = 0;
    while i < MAX_OS_FILESYSTEMS
        invariant
            vfs.wf(),
            vfs.filesystems@ == old(vfs).filesystems@,
            vfs.disks@ == old(vfs).disks@,
            vfs.descriptors@ == old(vfs).descriptors@,
            i <= MAX_OS_FILESYSTEMS,
            first_free(old(vfs).filesystems@, 0) == first_free(old(vfs).filesystems@, i as int),
        decreases MAX_OS_FILESYSTEMS - i,
    {
        if vfs.filesystems[i].is_none() {
            vfs.filesystems.set(i, Some(fs));
            return;
        }
        i = i + 1;
    }
}

/// Registers the drivers built into the kernel.
pub fn fs_static_load(vfs: &mut Vfs)
    requires
        old(vfs).wf(),
        first_free(old(vfs).filesystems@, 0) is Some,
    ensures
        final(vfs).wf(),
        final(vfs).filesystems@ == old(vfs).filesystems@.update(
            first_free(old(vfs).filesystems@, 0)->0,
            Some(fat16_filesystem()),
        ),
        final(vfs).descriptors@ == old(vfs).descriptors@,
        final(vfs).disks@ == old(vfs).disks@,
{
    fs_insert_fs(vfs, fat16_init());
}

/// Index of the first registered driver at or after `i` that recognises
/// device `number`.
pub open spec fn first_resolving<D: SectorDevice>(
    slots: Seq<Option<FileSystem>>,
    dev: &D,
    number: u8,
    i: int,
) -> Option<int>
    decreases slots.len() - i,
{
    if i < 0 || i >= slots.len() {
        None
    } else if slots[i] matches Some(fs) && resolves(fs, dev, number) {
        Some(i)
    } else {
        first_resolving(slots, dev, number, i + 1)
    }
}

proof fn lemma_first_resolving_slot<D: SectorDevice>(
    slots: Seq<Option<FileSystem>>,
    dev: &D,
    number: u8,
    i: int,
)
    requires
        first_resolving(slots, dev, number, i) is Some,
    ensures
        ({
            let k = first_resolving(slots, dev, number, i)->0;
            0 <= k < slots.len() && slots[k] is Some
        }),
    decreases slots.len() - i,
{
    if 0 <= i < slots.len() && !(slots[i] matches Some(fs) && resolves(fs, dev, number)) {
        lemma_first_resolving_slot(slots, dev, number, i + 1);
    }
}

/// Tries each registered driver on `disk`, in registration order, and
/// attaches the first that recognises it.
pub fn fs_resolve<D: SectorDevice>(vfs: &Vfs, dev: &D, disk: &mut Disk) -> (r: Option<u8>)
    ensures
        r is Some <==> first_resolving(vfs.filesystems@, dev, old(disk).disk_number, 0) is Some,
        r is None ==> *final(disk) == *old(disk),
        r is Some ==> ({
            let i = first_resolving(vfs.filesystems@, dev, old(disk).disk_number, 0)->0;
            &&& r == Some(0u8)
            &&& final(disk).filesystem == vfs.filesystems@[i]
            &&& final(disk).fat_private matches Some(p) && is_state_of(
                vfs.filesystems@[i]->0,
                *p,
                dev,
                old(disk).disk_number,
            )
            &&& final(disk).type_ == old(disk).type_
            &&& final(disk).sector_size == old(disk).sector_size
            &&& final(disk).disk_number == old(disk).disk_number
        }),
{
    let mut i: usize = 0;
    while i < vfs.filesystems.len()
        invariant
            i <= vfs.filesystems@.len(),
            *disk == *old(disk),
            first_resolving(vfs.filesystems@, dev, disk.disk_number, 0) == first_resolving(
                vfs.filesystems@,
                dev,
                disk.disk_number,
                i as int,
            ),
        decreases vfs.filesystems@.len() - i,
    {
        if let Some(fs) = vfs.filesystems[i] {
            let fat_private = filesystem_resolve(&fs, disk, dev);
            if let Ok(p) = fat_private {
                disk.fat_private = Some(p);
                disk.filesystem = Some(fs);
                return Some(0);
            }
        }
        i = i + 1;
    }
    None
}

/// `d` is what `get_disk` hands out for device `index`: a fresh handle,
/// with the first driver that recognises the device attached, if any.
pub open spec fn is_disk_for<D: SectorDevice>(
    d: Disk,
    slots: Seq<Option<FileSystem>>,
    dev: &D,
    index: u8,
) -> bool {
    &&& d.type_ == DiskType::OsDisk
    &&& d.sector_size == SECTOR_SIZE
    &&& d.disk_number == index
    &&& match first_resolving(slots, dev, index, 0) {
        None => d.filesystem is None && d.fat_private is None,
        Some(i) => d.filesystem == slots[i] && (d.fat_private matches Some(p) && is_state_of(
            slots[i]->0,
            *p,
            dev,
            index,
        )),
    }
}

/// A fresh handle for device `index`, resolved against the registered
/// drivers.
fn disk_search_and_init<D: SectorDevice>(vfs: &Vfs, dev: &D, index: u8) -> (r: Disk)
    ensures
        is_disk_for(r, vfs.filesystems@, dev, index),
{
    let mut disk = Disk {
        type_: DiskType::OsDisk,
        sector_size: SECTOR_SIZE,
        disk_number: index,
        filesystem: None,
        fat_private: None,
    };
    fs_resolve(vfs, dev, &mut disk);
    disk
}

/// `d` is what `get_disk` hands out for device `index` when the handle
/// table is `disks`: a copy of the kept handle, or else a fresh one.
pub open spec fn is_handle_for<D: SectorDevice>(
    d: Disk,
    disks: Seq<Option<Disk>>,
    slots: Seq<Option<FileSystem>>,
    dev: &D,
    index: u8,
) -> bool {
    match disks[index as int] {
        Some(h) => same_disk(d, h),
        None => is_disk_for(d, slots, dev, index),
    }
}

/// The driver that the handle of device `index` carries.
pub open spec fn handle_filesystem<D: SectorDevice>(
    disks: Seq<Option<Disk>>,
    slots: Seq<Option<FileSystem>>,
    dev: &D,
    index: u8,
) -> Option<FileSystem> {
    match disks[index as int] {
        Some(h) => h.filesystem,
        None => match first_resolving(slots, dev, index, 0) {
            None => None,
            Some(i) => slots[i],
        },
    }
}

/// The handle of device `index`: created and resolved against the
/// registered drivers at its first lookup and kept, then handed out again;
/// `None` past the devices the cable can carry.
pub fn get_disk<D: SectorDevice>(vfs: &mut Vfs, dev: &D, index: u8) -> (r: Option<Disk>)
    requires
        old(vfs).wf(),
    ensures
        final(vfs).wf(),
        final(vfs).filesystems@ == old(vfs).filesystems@,
        final(vfs).descriptors@ == old(vfs).descriptors@,
        r is None <==> index > MAX_DISK_INDEX,
        r is None ==> final(vfs).disks@ == old(vfs).disks@,
        r matches Some(d) ==> {
            &&& is_handle_for(d, old(vfs).disks@, old(vfs).filesystems@, dev, index)
            &&& final(vfs).disks@[index as int] matches Some(h) && same_disk(h, d)
            &&& old(vfs).disks@[index as int] is Some ==> final(vfs).disks@ == old(vfs).disks@
            &&& forall|j: int| 0 <= j <= MAX_DISK_INDEX && j != index ==> final(vfs).disks@[j]
                == old(vfs).disks@[j]
        },
{
    if index > MAX_DISK_INDEX {
        return None;
    }
    if let Some(h) = &vfs.disks[index as usize] {
        let d = h.duplicate();
        return Some(d);
    }
    let d = disk_search_and_init(vfs, dev, index);
    let kept = d.duplicate();
    vfs.disks.set(index as usize, Some(kept));
    Some(d)
}

// ---------------------------------------------------------------------------
// Descriptors and the file API

impl FileDescriptor {
    /// Records an open file in the descriptor table under the next index;
    /// fails only once the next index no longer fits in 16 bits.
    pub fn new(vfs: &mut Vfs, filesystem: FileSystem, disk: Disk, private: Vec<u8>) -> (r: Result<
        FileDescriptor,
        (),
    >)
        ensures
            r is Err <==> old(vfs).descriptors@.len() >= DESCRIPTOR_INDEX_LIMIT,
            r is Err ==> final(vfs).descriptors@ == old(vfs).descriptors@,
            final(vfs).filesystems@ == old(vfs).filesystems@,
            final(vfs).disks@ == old(vfs).disks@,
            r matches Ok(fd) ==> {
                &&& fd.index == old(vfs).descriptors@.len()
                &&& fd.filesystem == filesystem
                &&& fd.private@ == private@
                &&& fd.disk == disk
                &&& final(vfs).descriptors@.len() == old(vfs).descriptors@.len() + 1
                &&& final(vfs).descriptors@.take(fd.index as int) == old(vfs).descriptors@
                &&& final(vfs).descriptors@[fd.index as int].index == fd.index
                &&& final(vfs).descriptors@[fd.index as int].filesystem == filesystem
                &&& final(vfs).descriptors@[fd.index as int].private@ == private@
                &&& same_disk(final(vfs).descriptors@[fd.index as int].disk, disk)
            },
    {
        if vfs.descriptors.len() >= DESCRIPTOR_INDEX_LIMIT {
            return Err(());
        }
        let index = vfs.descriptors.len() as u16;
        let stored = FileDescriptor {
            filesystem,
            private: private.clone(),
            disk: disk.duplicate(),
            index,
        };
        assert(stored.private@ =~= private@);
        vfs.descriptors.push(stored);
        assert(vfs.descriptors@.take(index as int) =~= old(vfs).descriptors@);
        Ok(FileDescriptor { filesystem, private, disk, index })
    }
}

/// The mode that a mode string names.
pub open spec fn mode_of(s: Seq<char>) -> FileMode {
    if s == seq!['r'] {
        FileMode::READ
    } else if s == seq!['w'] {
        FileMode::WRITE
    } else if s == seq!['a'] {
        FileMode::APPEND
    } else {
        FileMode::INVALID
    }
}

fn get_file_mode_from_string(mode: String) -> (r: FileMode)
    ensures
        r == mode_of(mode@),
{
    let m = chars_of(&mode);
    if m.len() != 1 {
        assert(m@ != seq!['r'] && m@ != seq!['w'] && m@ != seq!['a']);
        return FileMode::INVALID;
    }
    let c = m[0];
    assert(m@ == seq![c]);
    if c == 'r' {
        FileMode::READ
    } else if c == 'w' {
        FileMode::WRITE
    } else if c == 'a' {
        FileMode::APPEND
    } else {
        FileMode::INVALID
    }
}

fn filesystem_open<D: SectorDevice>(
    fs: &FileSystem,
    disk: &Disk,
    dev: &D,
    path: &crate::path_parser::PathPart,
    mode: &FileMode,
) -> (r: Result<Vec<u8>, ()>)
    ensures
        r is Ok <==> (*mode == FileMode::READ && directory_entry(dev, *disk, parts_of(*path)) matches Ok(
            Some(_),
        )),
        r matches Ok(b) ==> disk.fat_private is Some && descriptor_of(b@) == Some(
            opened_view(
                dev,
                *disk.fat_private->0,
                directory_entry(dev, *disk, parts_of(*path))->Ok_0->0,
            ),
        ),
{
    match fs.kind {
        FileSystemKind::Fat16 => fat16_open(disk, dev, path, mode),
    }
}

/// Whether opening the components `parts` for reading on disk `d` finds an
/// entry.
pub open spec fn opens<D: SectorDevice>(d: Disk, dev: &D, parts: Seq<Seq<char>>) -> bool {
    directory_entry(dev, d, parts) matches Ok(Some(_))
}

/// Every disk that `get_disk` may hand out for device `index` answers a
/// lookup as `d` does.
proof fn lemma_resolved_disks_agree<D: SectorDevice>(
    d: Disk,
    slots: Seq<Option<FileSystem>>,
    dev: &D,
    index: u8,
    parts: Seq<Seq<char>>,
)
    requires
        is_disk_for(d, slots, dev, index),
        d.filesystem is Some,
    ensures
        forall|d2: Disk| #[trigger]
            is_disk_for(d2, slots, dev, index) ==> opens(d2, dev, parts) == opens(d, dev, parts),
{
    assert forall|d2: Disk| #[trigger] is_disk_for(d2, slots, dev, index) implies opens(d2, dev, parts)
        == opens(d, dev, parts) by {
        let i = first_resolving(slots, dev, index, 0)->0;
        assert(slots[i]->0.kind == FileSystemKind::Fat16);
        lemma_same_directory_entry(dev, d, d2, index, parts);
    }
}

/// Every handle that `get_disk` may hand out for device `index` answers a
/// lookup as `d` does.
proof fn lemma_handles_agree<D: SectorDevice>(
    d: Disk,
    disks: Seq<Option<Disk>>,
    slots: Seq<Option<FileSystem>>,
    dev: &D,
    index: u8,
    parts: Seq<Seq<char>>,
)
    requires
        is_handle_for(d, disks, slots, dev, index),
        d.filesystem is Some,
    ensures
        forall|d2: Disk| #[trigger]
            is_handle_for(d2, disks, slots, dev, index) ==> opens(d2, dev, parts) == opens(
                d,
                dev,
                parts,
            ),
{
    match disks[index as int] {
        Some(h) => {
            assert forall|d2: Disk| #[trigger] is_handle_for(d2, disks, slots, dev, index) implies opens(
                d2,
                dev,
                parts,
            ) == opens(d, dev, parts) by {
                lemma_same_disk_directory_entry(dev, d2, h, parts);
                lemma_same_disk_directory_entry(dev, d, h, parts);
            }
        },
        None => {
            lemma_resolved_disks_agree(d, slots, dev, index, parts);
            assert forall|d2: Disk| #[trigger] is_handle_for(d2, disks, slots, dev, index) implies opens(
                d2,
                dev,
                parts,
            ) == opens(d, dev, parts) by {
                assert(is_disk_for(d2, slots, dev, index));
            }
        },
    }
}

/// Opens `filename` (`"<drive>:/<path>"`) in `mode`; only reading is
/// supported.
pub fn fopen<D: SectorDevice>(vfs: &mut Vfs, dev: &D, filename: String, mode: String) -> (r: Result<
    FileDescriptor,
    FOpenError,
>)
    requires
        old(vfs).wf(),
    ensures
        final(vfs).wf(),
        final(vfs).filesystems@ == old(vfs).filesystems@,
        r is Err ==> final(vfs).descriptors@ == old(vfs).descriptors@,
        (r == Err::<FileDescriptor, FOpenError>(FOpenError::ParsePathError)) <==> parse_path(
            filename@,
        ) is Err,
        (r == Err::<FileDescriptor, FOpenError>(FOpenError::NoDiskError)) <==> (parse_path(
            filename@,
        ) matches Ok(p) && p.0 > MAX_DISK_INDEX),
        (r == Err::<FileDescriptor, FOpenError>(FOpenError::NoFilesystemError)) <==> (parse_path(
            filename@,
        ) matches Ok(p) && p.0 <= MAX_DISK_INDEX && handle_filesystem(
            old(vfs).disks@,
            old(vfs).filesystems@,
            dev,
            p.0,
        ) is None),
        (r == Err::<FileDescriptor, FOpenError>(FOpenError::InvalidFileModeError)) <==> (parse_path(
            filename@,
        ) matches Ok(p) && p.0 <= MAX_DISK_INDEX && handle_filesystem(
            old(vfs).disks@,
            old(vfs).filesystems@,
            dev,
            p.0,
        ) is Some && mode_of(mode@) != FileMode::READ),
        (r == Err::<FileDescriptor, FOpenError>(FOpenError::OpenFileError)) <==> (parse_path(
            filename@,
        ) matches Ok(p) && p.0 <= MAX_DISK_INDEX && handle_filesystem(
            old(vfs).disks@,
            old(vfs).filesystems@,
            dev,
            p.0,
        ) is Some && mode_of(mode@) == FileMode::READ && forall|d: Disk|
            #[trigger] is_handle_for(d, old(vfs).disks@, old(vfs).filesystems@, dev, p.0) ==> (!opens(
                d,
                dev,
                p.1,
            )
                || old(vfs).descriptors@.len() >= DESCRIPTOR_INDEX_LIMIT)),
        r matches Ok(fd) ==> parse_path(filename@) matches Ok(p) && {
            &&& is_handle_for(fd.disk, old(vfs).disks@, old(vfs).filesystems@, dev, p.0)
            &&& fd.disk.filesystem == Some(fd.filesystem)
            &&& mode_of(mode@) == FileMode::READ
            &&& opens(fd.disk, dev, p.1)
            &&& descriptor_of(fd.private@) == Some(
                opened_view(
                    dev,
                    *fd.disk.fat_private->0,
                    directory_entry(dev, fd.disk, p.1)->Ok_0->0,
                ),
            )
            &&& fd.index == old(vfs).descriptors@.len()
            &&& final(vfs).descriptors@.len() == old(vfs).descriptors@.len() + 1
            &&& final(vfs).descriptors@.take(fd.index as int) == old(vfs).descriptors@
            &&& final(vfs).descriptors@[fd.index as int].index == fd.index
            &&& final(vfs).descriptors@[fd.index as int].private@ == fd.private@
            &&& final(vfs).descriptors@[fd.index as int].filesystem == fd.filesystem
            &&& same_disk(final(vfs).descriptors@[fd.index as int].disk, fd.disk)
        },
{
    let ghost name = filename@;
    let ghost mode_chars = mode@;
    let root_path = match init_path(filename) {
        Err(_) => { return Err(FOpenError::ParsePathError); },
        Ok(p) => p,
    };
    let ghost parts = parts_of(*root_path.first);
    let disk = match get_disk(vfs, dev, root_path.drive_number) {
        None => { return Err(FOpenError::NoDiskError); },
        Some(d) => d,
    };
    proof {
        if first_resolving(old(vfs).filesystems@, dev, root_path.drive_number, 0) is Some {
            lemma_first_resolving_slot(old(vfs).filesystems@, dev, root_path.drive_number, 0);
        }
    }
    let filesystem = match disk.filesystem {
        None => { return Err(FOpenError::NoFilesystemError); },
        Some(fs) => fs,
    };
    let mode = get_file_mode_from_string(mode);
    if mode != FileMode::READ {
        return Err(FOpenError::InvalidFileModeError);
    }
    let first = &root_path.first;
    let descriptor_private_data = match filesystem_open(&filesystem, &disk, dev, first, &mode) {
        Err(_) => {
            proof {
                lemma_handles_agree(
                    disk,
                    old(vfs).disks@,
                    old(vfs).filesystems@,
                    dev,
                    root_path.drive_number,
                    parts,
                );
            }
            return Err(FOpenError::OpenFileError);
        },
        Ok(b) => b,
    };
    let ghost opened = disk;
    match FileDescriptor::new(vfs, filesystem, disk, descriptor_private_data) {
        Err(_) => Err(FOpenError::OpenFileError),
        Ok(fd) => {
            proof {
                lemma_handles_agree(
                    opened,
                    old(vfs).disks@,
                    old(vfs).filesystems@,
                    dev,
                    root_path.drive_number,
                    parts,
                );
            }
            Ok(fd)
        },
    }
}

fn filesystem_read<D: SectorDevice>(
    fs: &FileSystem,
    disk: &Disk,
    dev: &D,
    private: &Vec<u8>,
    size: u16,
    nmemb: u16,
) -> (r: Result<Vec<u8>, ()>)
    ensures
        r is Err <==> fat_read_result(dev, *disk, private@, size as nat, nmemb as nat) is None,
        r matches Ok(v) ==> fat_read_result(dev, *disk, private@, size as nat, nmemb as nat) == Some(
            v@,
        ),
{
    match fs.kind {
        FileSystemKind::Fat16 => fat16_read(disk, dev, private, size, nmemb),
    }
}

/// Reads `nmemb` chunks of `size` bytes through the descriptor `fd` of the
/// table, with the driver state `private`.
pub fn fread<D: SectorDevice>(vfs: &Vfs, dev: &D, private: Vec<u8>, size: u16, nmemb: u16, fd: u16) -> (r:
    Result<Vec<u8>, ()>)
    ensures
        (size == 0 || nmemb == 0 || fd >= vfs.descriptors@.len()) ==> r is Err,
        (size > 0 && nmemb > 0 && fd < vfs.descriptors@.len()) ==> {
            let res = fat_read_result(
                dev,
                vfs.descriptors@[fd as int].disk,
                private@,
                size as nat,
                nmemb as nat,
            );
            &&& r is Err <==> res is None
            &&& r matches Ok(v) ==> res == Some(v@)
        },
{
    if size == 0 || nmemb == 0 {
        return Err(());
    }
    if fd as usize >= vfs.descriptors.len() {
        return Err(());
    }
    let desc = &vfs.descriptors[fd as usize];
    filesystem_read(&desc.filesystem, &desc.disk, dev, &private, size, nmemb)
}

fn filesystem_seek(fs: &FileSystem, private: &Vec<u8>, offset: u16, whence: FileSeekMode) -> (r:
    Result<Vec<u8>, ()>)
    ensures
        r is Err <==> (descriptor_of(private@) matches Some(v) ==> seek_target(v, offset, whence) is None),
        r matches Ok(b) ==> descriptor_of(private@) matches Some(v) && seek_target(v, offset, whence) matches Some(t)
            && descriptor_of(b@) == Some((v.0, v.1, v.2, t)),
{
    match fs.kind {
        FileSystemKind::Fat16 => fat16_seek(private, offset, whence),
    }
}

/// Moves the position of an open file; the driver's updated state replaces
/// the descriptor's.
pub fn fseek(file_descriptor: &mut FileDescriptor, offset: u16, whence: FileSeekMode) -> (r: Result<(), ()>)
    ensures
        r is Err <==> (descriptor_of(old(file_descriptor).private@) matches Some(v) ==> seek_target(
            v,
            offset,
            whence,
        ) is None),
        r is Err ==> *final(file_descriptor) == *old(file_descriptor),
        r is Ok ==> (descriptor_of(old(file_descriptor).private@) matches Some(v) && (seek_target(
            v,
            offset,
            whence,
        ) matches Some(t) && descriptor_of(final(file_descriptor).private@) == Some((v.0, v.1, v.2, t)))),
        final(file_descriptor).filesystem == old(file_descriptor).filesystem,
        final(file_descriptor).disk == old(file_descriptor).disk,
        final(file_descriptor).index == old(file_descriptor).index,
{
    let res = match filesystem_seek(&file_descriptor.filesystem, &file_descriptor.private, offset, whence) {
        Err(_) => { return Err(()); },
        Ok(b) => b,
    };
    file_descriptor.private = res;
    Ok(())
}

} // verus!
