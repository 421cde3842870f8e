//! Files opened by processes: open flags, the file offset, and `open` itself
//! on the root directory of the file system.
use crate::easy_fs::block_dev::BlockDevice;
use crate::easy_fs::efs::{inode_pos, EasyFileSystem};
use crate::easy_fs::layout::{file_bytes, inode_wf, io_len};
use crate::easy_fs::vfs::{created, inode_ok, lemma_inode_placed, Inode};
use vstd::prelude::*;
use vstd::string::StringSliceAdditionalSpecFns;

verus! {

/// Open for reading only: no flag set.
pub const RDONLY: u32 = 0;

/// Open for writing only.
pub const WRONLY: u32 = 0x1;

/// Open for reading and writing.
pub const RDWR: u32 = 0x2;

/// Create the file if it does not exist (empty it if it does).
pub const CREATE: u32 = 0x200;

/// Empty the file when opening it.
pub const TRUNC: u32 = 0x400;

/// A set of open flags.
#[derive(PartialEq, Eq, Structural, Clone, Copy)]
pub struct OpenFlags {
    pub bits: u32,
}

/// The bits that name open flags.
pub open spec fn known_open_flags(bits: u32) -> bool {
    bits & !(WRONLY | RDWR | CREATE | TRUNC) == 0
}

impl OpenFlags {
    /// The flags with bits `bits`, or `None` when a bit names no flag.
    pub fn from_bits(bits: u32) -> (r: Option<Self>)
        ensures
            r == if known_open_flags(bits) {
                Some(OpenFlags { bits })
            } else {
                None
            },
    {
        if bits & !(WRONLY | RDWR | CREATE | TRUNC) == 0 {
            Some(OpenFlags { bits })
        } else {
            None
        }
    }

    /// Whether no flag is set.
    pub fn is_empty(&self) -> (r: bool)
        ensures
            r == (self.bits == 0),
    {
        self.bits == 0
    }

    /// Whether every flag of `bits` is set.
    pub fn contains(&self, bits: u32) -> (r: bool)
        ensures
            r == (self.bits & bits == bits),
    {
        self.bits & bits == bits
    }

    /// Whether the file is opened for reading and for writing: no flag means
    /// reading only, `WRONLY` writing only, anything else both.
    pub fn read_write(&self) -> (r: (bool, bool))
        ensures
            r == if self.bits == 0 {
                (true, false)
            } else if self.bits & WRONLY == WRONLY {
                (false, true)
            } else {
                (true, true)
            },
    {
        if self.is_empty() {
            (true, false)
        } else if self.contains(WRONLY) {
            (false, true)
        } else {
            (true, true)
        }
    }
}


/// A file opened by a process: whether it may be read and written, and the
/// offset the next read or write starts at.
pub struct OSInode {
    readable: bool,
    writable: bool,
    offset: usize,
    inode: Inode,
}

impl OSInode {
    /// Whether the file may be read.
    pub closed spec fn spec_readable(&self) -> bool {
        self.readable
    }

    /// Whether the file may be written.
    pub closed spec fn spec_writable(&self) -> bool {
        self.writable
    }

    /// Where the next read or write starts.
    pub closed spec fn spec_offset(&self) -> usize {
        self.offset
    }

    /// The file's inode.
    pub closed spec fn spec_inode(&self) -> Inode {
        self.inode
    }

    /// `inode` opened with the given permissions, at offset 0.
    pub fn new(readable: bool, writable: bool, inode: Inode) -> (r: Self)
        ensures
            r.spec_readable() == readable,
            r.spec_writable() == writable,
            r.spec_offset() == 0,
            r.spec_inode() == inode,
    {
        Self { readable, writable, offset: 0, inode }
    }

    /// Whether the file may be read.
    pub fn readable(&self) -> (r: bool)
        ensures
            r == self.spec_readable(),
    {
        self.readable
    }

    /// Whether the file may be written.
    pub fn writable(&self) -> (r: bool)
        ensures
            r == self.spec_writable(),
    {
        self.writable
    }

    /// Reads the rest of the file, from the offset to its end, and moves the
    /// offset to the end.
    pub fn read_all<D: BlockDevice>(&mut self, fs: &mut EasyFileSystem<D>) -> (r: Vec<u8>)
        requires
            old(fs).wf(),
            old(self).spec_inode().placed(old(fs)),
            inode_wf(old(self).spec_inode().disk_inode(old(fs)), old(fs)@),
            old(self).spec_offset() + 512 <= usize::MAX,
        ensures
            final(fs).wf(),
            final(fs)@ == old(fs)@,
            final(fs).same_layout(old(fs)),
            ({
                let m = old(self).spec_inode().disk_inode(old(fs));
                let off = old(self).spec_offset();
                if off < m.size {
                    &&& r@ == file_bytes(m, old(fs)@).subrange(off as int, m.size as int)
                    &&& final(self).spec_offset() == m.size
                } else {
                    &&& r@ == Seq::<u8>::empty()
                    &&& final(self).spec_offset() == off
                }
            }),
            final(self).spec_inode() == old(self).spec_inode(),
            final(self).spec_readable() == old(self).spec_readable(),
            final(self).spec_writable() == old(self).spec_writable(),
    {
        let ghost m = self.inode.disk_inode(fs);
        let ghost bytes = file_bytes(m, fs@);
        let ghost off0 = self.offset;
        let mut buffer = [0u8; 512];
        let mut v: Vec<u8> = Vec::new();
        loop
            invariant
                fs.wf(),
                fs@ == old(fs)@,
                fs.same_layout(old(fs)),
                self.inode == old(self).spec_inode(),
                self.readable == old(self).spec_readable(),
                self.writable == old(self).spec_writable(),
                m == self.inode.disk_inode(fs),
                bytes == file_bytes(m, fs@),
                self.inode.placed(fs),
                inode_wf(m, fs@),
                buffer@.len() == 512,
                off0 <= self.offset,
                self.offset + 512 <= usize::MAX || self.offset >= m.size,
                off0 < m.size ==> self.offset <= m.size && v@ == bytes.subrange(off0 as int, self.offset as int),
                off0 >= m.size ==> self.offset == off0 && v@ == Seq::<u8>::empty(),
            ensures
                off0 < m.size ==> self.offset == m.size && v@ == bytes.subrange(off0 as int, m.size as int),
                off0 >= m.size ==> self.offset == off0 && v@ == Seq::<u8>::empty(),
                self.inode == old(self).spec_inode(),
                self.readable == old(self).spec_readable(),
                self.writable == old(self).spec_writable(),
                fs.wf(),
                fs@ == old(fs)@,
                fs.same_layout(old(fs)),
            decreases m.size - self.offset,
        {
            if self.offset >= usize::MAX - 512 {
                break;
            }
            let len = self.inode.read_at(self.offset, &mut buffer, fs);
            if len == 0 {
                break;
            }
            let ghost prev = v@;
            let all = buffer.as_slice();
            v.extend_from_slice(&all[0..len]);
            proof {
                assert(v@ =~= bytes.subrange(off0 as int, self.offset + len));
            }
            self.offset += len;
        }
        v
    }

    /// Reads from the offset into `buf`, as much as fits and the file holds,
    /// and moves the offset past what was read.
    pub fn read<D: BlockDevice>(&mut self, buf: &mut [u8], fs: &mut EasyFileSystem<D>) -> (r: usize)
        requires
            old(fs).wf(),
            old(self).spec_inode().placed(old(fs)),
            inode_wf(old(self).spec_inode().disk_inode(old(fs)), old(fs)@),
            old(self).spec_offset() + old(buf)@.len() <= usize::MAX,
        ensures
            final(fs).wf(),
            final(fs)@ == old(fs)@,
            final(fs).same_layout(old(fs)),
            ({
                let m = old(self).spec_inode().disk_inode(old(fs));
                let off = old(self).spec_offset();
                &&& r == io_len(off as int, old(buf)@.len() as int, m.size as int)
                &&& final(buf)@.len() == old(buf)@.len()
                &&& forall|k: int|
                    0 <= k < final(buf)@.len() ==> #[trigger] final(buf)@[k] == if k < r {
                        file_bytes(m, old(fs)@)[off + k]
                    } else {
                        old(buf)@[k]
                    }
                &&& final(self).spec_offset() == off + r
            }),
            final(self).spec_inode() == old(self).spec_inode(),
            final(self).spec_readable() == old(self).spec_readable(),
            final(self).spec_writable() == old(self).spec_writable(),
    {
        let ghost m = self.inode.disk_inode(fs);
        let ghost bytes = file_bytes(m, fs@);
        let read_size = self.inode.read_at(self.offset, buf, fs);
        self.offset += read_size;
        read_size
    }
}

impl OSInode {
    /// Writes `buf` at the offset, growing the file as needed, and moves the
    /// offset past it; returns `buf.len()`.
    pub fn write<D: BlockDevice>(&mut self, buf: &[u8], fs: &mut EasyFileSystem<D>) -> (r: usize)
        requires
            old(fs).wf(),
            old(self).spec_inode().placed(old(fs)),
            inode_ok(old(fs), old(self).spec_inode().disk_inode(old(fs))),
            old(self).spec_offset() + buf@.len() + crate::easy_fs::block_dev::BLOCK_SZ <= u32::MAX,
            crate::easy_fs::layout::data_blocks_of((old(self).spec_offset() + buf@.len()) as u32)
                <= crate::easy_fs::layout::INDIRECT2_BOUND,
            old(self).spec_inode().disk_inode(old(fs)).size <= old(self).spec_offset() + buf@.len()
                ==> crate::easy_fs::vfs::blocks_to_grow(
                old(self).spec_inode().disk_inode(old(fs)).size,
                (old(self).spec_offset() + buf@.len()) as u32,
            ) <= old(fs).free_data_blocks(),
        ensures
            final(fs).wf(),
            r == buf@.len(),
            crate::easy_fs::vfs::written(&old(self).spec_inode(), old(fs), final(fs), old(self).spec_offset() as int, buf@),
            final(self).spec_offset() == old(self).spec_offset() + buf@.len(),
            final(self).spec_inode() == old(self).spec_inode(),
            final(self).spec_readable() == old(self).spec_readable(),
            final(self).spec_writable() == old(self).spec_writable(),
    {
        let write_size = self.inode.write_at(self.offset, buf, fs);
        self.offset += write_size;
        write_size
    }
}

/// What opening `name` in directory `root` with `flags` leaves: the file
/// system `fs1` becomes `fs2` and `r` is the opened file, if any.
pub open spec fn file_opened<D: BlockDevice>(
    root: &Inode,
    fs1: &EasyFileSystem<D>,
    fs2: &EasyFileSystem<D>,
    name: Seq<u8>,
    flags: OpenFlags,
    r: Option<OSInode>,
) -> bool {
    let (readable, writable) = if flags.bits == 0 {
        (true, false)
    } else if flags.bits & WRONLY == WRONLY {
        (false, true)
    } else {
        (true, true)
    };
    match root.lookup(fs1, name) {
        Some(id) => r matches Some(f) && f.spec_readable() == readable && f.spec_writable() == writable
            && f.spec_offset() == 0 && f.spec_inode().block() == inode_pos(fs1.inode_area_start(), id as int).0
            && f.spec_inode().offset() == inode_pos(fs1.inode_area_start(), id as int).1
            && (flags.bits & CREATE == CREATE || flags.bits & TRUNC == TRUNC ==> f.spec_inode().disk_inode(
            fs2,
        ).size == 0) && (flags.bits & CREATE != CREATE && flags.bits & TRUNC != TRUNC ==> fs2@ == fs1@),
        None => if flags.bits & CREATE == CREATE {
            r matches Some(f) && f.spec_readable() == readable && f.spec_writable() == writable
                && f.spec_offset() == 0 && exists|id: int| #[trigger] created(root, fs1, fs2, name, f.spec_inode(), id)
        } else {
            r is None && fs2@ == fs1@
        },
    }
}

/// `name` can be opened in directory `root` of `fs` with `flags`: the
/// directory is fine, and a file to create has a name that fits and room.
pub open spec fn open_ready<D: BlockDevice>(root: &Inode, fs: &EasyFileSystem<D>, name: Seq<u8>, flags: OpenFlags) -> bool {
    &&& fs.wf()
    &&& exists|id: int| root.is_inode(fs, id)
    &&& root.disk_inode(fs).is_dir
    &&& inode_ok(fs, root.disk_inode(fs))
    &&& ({
        let m = root.disk_inode(fs);
        let bytes = file_bytes(m, fs@);
        let n = crate::easy_fs::vfs::dir_count(m.size);
        let new_size = (crate::easy_fs::layout::DIRENT_SZ * (n + 1)) as u32;
        &&& crate::easy_fs::vfs::names_readable(bytes, 0, crate::easy_fs::vfs::lookup_reads(bytes, n, name))
        &&& match root.lookup(fs, name) {
            Some(id) => {
                &&& id < fs.inode_bits().len()
                &&& inode_ok(fs, crate::easy_fs::vfs::disk_inode_at(fs@, inode_pos(fs.inode_area_start(), id as int).0, inode_pos(fs.inode_area_start(), id as int).1))
            },
            None => flags.bits & CREATE == CREATE ==> {
                &&& name.len() <= crate::easy_fs::layout::NAME_LENGTH_LIMIT
                &&& fs.inode_bits().contains(false)
                &&& crate::easy_fs::layout::DIRENT_SZ * (n + 1) + crate::easy_fs::block_dev::BLOCK_SZ <= u32::MAX
                &&& crate::easy_fs::layout::data_blocks_of(new_size) <= crate::easy_fs::layout::INDIRECT2_BOUND
                &&& crate::easy_fs::vfs::blocks_to_grow(m.size, new_size) <= fs.free_data_blocks()
            },
        }
    })
}

/// Opens the file named `name` of directory `root`, with the permissions
/// `flags` give (see [`OpenFlags::read_write`]), at offset 0.
///
/// With `CREATE`, an existing file is emptied and a missing one created;
/// without it, a missing file gives `None` and an existing one is emptied if
/// `TRUNC` is set.
pub fn open_file<D: BlockDevice>(root: &Inode, name: &str, flags: OpenFlags, fs: &mut EasyFileSystem<D>) -> (r: Option<OSInode>)
    requires
        open_ready(root, old(fs), name.spec_bytes(), flags),
    ensures
        final(fs).wf(),
        file_opened(root, old(fs), final(fs), name.spec_bytes(), flags, r),
{
    let (readable, writable) = flags.read_write();
    let ghost id0 = choose|id: int| root.is_inode(old(fs), id);
    proof {
        if let Some(id) = root.lookup(fs, name.spec_bytes()) {
            lemma_inode_placed(fs, id as int);
        }
        lemma_inode_placed(fs, id0);
    }
    if flags.contains(CREATE) {
        let found = root.find(name, fs);
        proof {
            assert(root.is_inode(fs, id0));
        }
        match found {
            Some(inode) => {
                inode.clear(fs);
                Some(OSInode::new(readable, writable, inode))
            },
            None => {
                let ghost mid = *fs;
                match root.create(name, fs) {
                    Some(inode) => {
                        proof {
                            let id = choose|id: int| created(root, &mid, fs, name.spec_bytes(), inode, id);
                            assert(mid.inode_bits() == old(fs).inode_bits());
                            assert(created(root, old(fs), fs, name.spec_bytes(), inode, id));
                        }
                        Some(OSInode::new(readable, writable, inode))
                    },
                    None => None,
                }
            },
        }
    } else {
        match root.find(name, fs) {
            Some(inode) => {
                if flags.contains(TRUNC) {
                    inode.clear(fs);
                }
                Some(OSInode::new(readable, writable, inode))
            },
            None => None,
        }
    }
}
/// An opened file may be written exactly when some flag was given, and read
/// exactly when `WRONLY` was not given: `CREATE` and `TRUNC` do not change
/// how it may be used.
pub proof fn law_open_access<D: BlockDevice>(
    root: &Inode,
    fs1: &EasyFileSystem<D>,
    fs2: &EasyFileSystem<D>,
    name: Seq<u8>,
    flags: OpenFlags,
    f: OSInode,
)
    requires
        file_opened(root, fs1, fs2, name, flags, Some(f)),
    ensures
        f.spec_readable() == (flags.bits & WRONLY == 0),
        f.spec_writable() == (flags.bits != 0),
{
    let b = flags.bits;
    assert(b & 1u32 == 1u32 || b & 1u32 == 0u32) by (bit_vector);
    assert(b == 0u32 ==> b & 1u32 == 0u32) by (bit_vector);
    assert(WRONLY == 1u32);
}

/// Open flags are made of `WRONLY`, `RDWR`, `CREATE` and `TRUNC`: every
/// combination of them is accepted, and a set of bits is accepted only when it
/// is such a combination.
pub proof fn law_known_open_flags(bits: u32, w: bool, r: bool, c: bool, t: bool)
    ensures
        known_open_flags(
            (if w { 0x1u32 } else { 0u32 }) | (if r { 0x2u32 } else { 0u32 }) | (if c { 0x200u32 } else { 0u32 }) | (
            if t { 0x400u32 } else { 0u32 }),
        ),
        known_open_flags(bits) <==> bits == (bits & 0x1u32) | (bits & 0x2u32) | (bits & 0x200u32) | (bits
            & 0x400u32),
{
    let x: u32 = (if w { 0x1u32 } else { 0u32 }) | (if r { 0x2u32 } else { 0u32 }) | (if c { 0x200u32 } else { 0u32 }) | (
    if t { 0x400u32 } else { 0u32 });
    let a: u32 = if w { 0x1u32 } else { 0u32 };
    let b2: u32 = if r { 0x2u32 } else { 0u32 };
    let c2: u32 = if c { 0x200u32 } else { 0u32 };
    let d: u32 = if t { 0x400u32 } else { 0u32 };
    assert((a | b2 | c2 | d) & !(0x1u32 | 0x2u32 | 0x200u32 | 0x400u32) == 0) by (bit_vector)
        requires
            a == 0 || a == 1,
            b2 == 0 || b2 == 2,
            c2 == 0 || c2 == 0x200,
            d == 0 || d == 0x400,
    ;
    assert((bits & !(0x1u32 | 0x2u32 | 0x200u32 | 0x400u32) == 0) <==> bits == (bits & 0x1u32) | (bits & 0x2u32) | (
    bits & 0x200u32) | (bits & 0x400u32)) by (bit_vector);
}

} // verus!
