//! File system calls, over the open-file table of the calling process.
//!
//! Slot `fd` of a table holds the file open at descriptor `fd`, if any.
use crate::kernel::page_table::{root_of, user_word_written, word_writable, write_user_word};
use crate::easy_fs::block_dev::BlockDevice;
use crate::easy_fs::efs::EasyFileSystem;
use crate::easy_fs::vfs::Inode;
use crate::kernel::fs::inode::{file_opened, open_file, open_ready, OSInode, OpenFlags};
use vstd::string::StringSliceAdditionalSpecFns;
use vstd::prelude::*;

verus! {

/// `fd` is an open descriptor of `fd_table`.
pub open spec fn fd_open<F>(fd_table: Seq<Option<F>>, fd: int) -> bool {
    0 <= fd < fd_table.len() && fd_table[fd] is Some
}

/// The lowest free slot of `fd_table`, or its length when every slot is taken.
pub open spec fn lowest_free_fd<F>(fd_table: Seq<Option<F>>) -> int
    decreases fd_table.len(),
{
    if fd_table.len() == 0 {
        0
    } else if lowest_free_fd(fd_table.drop_last()) < fd_table.len() - 1 {
        lowest_free_fd(fd_table.drop_last())
    } else if fd_table.last() is None {
        fd_table.len() - 1
    } else {
        fd_table.len() as int
    }
}

/// `lowest_free_fd` is the first free slot, or the length when there is none.
pub proof fn lemma_lowest_free_fd<F>(fd_table: Seq<Option<F>>)
    ensures
        0 <= lowest_free_fd(fd_table) <= fd_table.len(),
        lowest_free_fd(fd_table) < fd_table.len() ==> fd_table[lowest_free_fd(fd_table)] is None,
        forall|i: int| 0 <= i < lowest_free_fd(fd_table) ==> #[trigger] fd_table[i] is Some,
    decreases fd_table.len(),
{
    if fd_table.len() > 0 {
        lemma_lowest_free_fd(fd_table.drop_last());
        assert forall|i: int| 0 <= i < lowest_free_fd(fd_table) implies #[trigger] fd_table[i] is Some by {
            if i < fd_table.len() - 1 {
                assert(fd_table.drop_last()[i] == fd_table[i]);
            }
        }
    }
}

/// Finds a descriptor for a new file: the lowest free slot, or a new slot at
/// the end of the table.
pub fn alloc_fd<F>(fd_table: &mut Vec<Option<F>>) -> (r: usize)
    ensures
        r == lowest_free_fd(old(fd_table)@),
        r < final(fd_table)@.len(),
        final(fd_table)@[r as int] is None,
        final(fd_table)@ == if r < old(fd_table)@.len() {
            old(fd_table)@
        } else {
            old(fd_table)@.push(None)
        },
{
    proof {
        lemma_lowest_free_fd(fd_table@);
    }
    let mut fd: usize = 0;
    while fd < fd_table.len()
        invariant
            fd <= fd_table@.len(),
            fd_table@ == old(fd_table)@,
            forall|i: int| 0 <= i < fd ==> #[trigger] fd_table@[i] is Some,
        decreases fd_table@.len() - fd,
    {
        if fd_table[fd].is_none() {
            proof {
                lemma_free_is_lowest(fd_table@, fd as int);
            }
            return fd;
        }
        fd += 1;
    }
    proof {
        lemma_free_is_lowest(fd_table@, fd as int);
    }
    fd_table.push(None);
    fd
}

/// A free slot with every slot before it taken is the lowest free slot.
proof fn lemma_free_is_lowest<F>(fd_table: Seq<Option<F>>, fd: int)
    requires
        0 <= fd <= fd_table.len(),
        fd < fd_table.len() ==> fd_table[fd] is None,
        forall|i: int| 0 <= i < fd ==> #[trigger] fd_table[i] is Some,
    ensures
        lowest_free_fd(fd_table) == fd,
{
    lemma_lowest_free_fd(fd_table);
    let l = lowest_free_fd(fd_table);
    if l < fd {
        assert(fd_table[l] is Some);
    }
    if fd < l {
        assert(fd_table[fd] is Some);
    }
}

/// Reads from descriptor `fd` through `read`, which does the transfer on the
/// open file and returns how many bytes it moved; -1 when `fd` is not open.
pub fn sys_read<F, R: FnOnce(&F) -> usize>(fd_table: &Vec<Option<F>>, fd: usize, read: R) -> (r: isize)
    requires
        fd_open(fd_table@, fd as int) ==> read.requires((&fd_table@[fd as int].unwrap(),)),
    ensures
        !fd_open(fd_table@, fd as int) ==> r == -1,
        fd_open(fd_table@, fd as int) ==> exists|n: usize| #[trigger] read.ensures((&fd_table@[fd as int].unwrap(),), n) && r == n as isize,
{
    if fd >= fd_table.len() {
        return -1;
    }
    match &fd_table[fd] {
        Some(file) => {
            let n = read(file);
            n as isize
        },
        None => -1,
    }
}

/// Writes to descriptor `fd` through `write`, which does the transfer on the
/// open file and returns how many bytes it moved; -1 when `fd` is not open.
pub fn sys_write<F, W: FnOnce(&F) -> usize>(fd_table: &Vec<Option<F>>, fd: usize, write: W) -> (r: isize)
    requires
        fd_open(fd_table@, fd as int) ==> write.requires((&fd_table@[fd as int].unwrap(),)),
    ensures
        !fd_open(fd_table@, fd as int) ==> r == -1,
        fd_open(fd_table@, fd as int) ==> exists|n: usize| #[trigger] write.ensures((&fd_table@[fd as int].unwrap(),), n) && r == n as isize,
{
    if fd >= fd_table.len() {
        return -1;
    }
    match &fd_table[fd] {
        Some(file) => {
            let n = write(file);
            n as isize
        },
        None => -1,
    }
}

/// Installs `file`, the file the path named if it could be opened, at the
/// lowest free descriptor and returns that descriptor; -1 when there is no file.
pub fn install_file<F>(fd_table: &mut Vec<Option<F>>, file: Option<F>) -> (r: isize)
    requires
        old(fd_table)@.len() < isize::MAX,
    ensures
        file is None ==> r == -1 && final(fd_table)@ == old(fd_table)@,
        file is Some ==> {
            let fd = lowest_free_fd(old(fd_table)@);
            &&& r == fd
            &&& final(fd_table)@ == if fd < old(fd_table)@.len() {
                old(fd_table)@.update(fd, file)
            } else {
                old(fd_table)@.push(file)
            }
        },
{
    match file {
        Some(inode) => {
            let fd = alloc_fd(fd_table);
            fd_table.set(fd, Some(inode));
            proof {
                if fd < old(fd_table)@.len() {
                    assert(fd_table@ =~= old(fd_table)@.update(fd as int, file));
                } else {
                    assert(fd_table@ =~= old(fd_table)@.push(file));
                }
            }
            fd as isize
        },
        None => -1,
    }
}

/// Closes descriptor `fd`: 0, or -1 when it is not open.
pub fn sys_close<F>(fd_table: &mut Vec<Option<F>>, fd: usize) -> (r: isize)
    ensures
        fd_open(old(fd_table)@, fd as int) ==> r == 0 && final(fd_table)@ == old(fd_table)@.update(fd as int, None),
        !fd_open(old(fd_table)@, fd as int) ==> r == -1 && final(fd_table)@ == old(fd_table)@,
{
    if fd >= fd_table.len() {
        return -1;
    }
    if fd_table[fd].is_none() {
        return -1;
    }
    fd_table.set(fd, None);
    0
}

/// Opens a second descriptor for the file open at `fd`, at the lowest free
/// descriptor, and returns it; -1 when `fd` is not open.
pub fn sys_dup<F: Clone>(fd_table: &mut Vec<Option<F>>, fd: usize) -> (r: isize)
    requires
        old(fd_table)@.len() < isize::MAX,
    ensures
        !fd_open(old(fd_table)@, fd as int) ==> r == -1 && final(fd_table)@ == old(fd_table)@,
        fd_open(old(fd_table)@, fd as int) ==> {
            let new_fd = lowest_free_fd(old(fd_table)@);
            &&& r == new_fd
            &&& final(fd_table)@.len() == if new_fd < old(fd_table)@.len() {
                old(fd_table)@.len()
            } else {
                old(fd_table)@.len() + 1
            }
            &&& forall|i: int| 0 <= i < old(fd_table)@.len() && i != new_fd ==> #[trigger] final(fd_table)@[i] == old(fd_table)@[i]
            &&& final(fd_table)@[new_fd] is Some
            &&& cloned(old(fd_table)@[fd as int].unwrap(), final(fd_table)@[new_fd].unwrap())
        },
{
    if fd >= fd_table.len() {
        return -1;
    }
    if fd_table[fd].is_none() {
        return -1;
    }
    let new_fd = alloc_fd(fd_table);
    let copy = match &fd_table[fd] {
        Some(file) => file.clone(),
        None => {
            return -1;
        },
    };
    fd_table.set(new_fd, Some(copy));
    new_fd as isize
}

/// Opens a pipe: installs its read end and then its write end at the lowest
/// free descriptors, and stores the two descriptors in the words at user
/// address `pipe` and the next, under the page table of `token`.
pub fn sys_pipe<F>(
    fd_table: &mut Vec<Option<F>>,
    pipe_read: F,
    pipe_write: F,
    token: usize,
    pipe: usize,
    mem: &mut [u8],
) -> (r: isize)
    requires
        word_writable(old(mem)@, root_of(token), pipe as int),
        pipe + 8 <= usize::MAX,
        word_writable(
            user_word_written(old(mem)@, root_of(token), pipe as int, lowest_free_fd(old(fd_table)@) as u64),
            root_of(token),
            pipe + 8,
        ),
    ensures
        r == 0,
        ({
            let rfd = lowest_free_fd(old(fd_table)@);
            let t1 = if rfd < old(fd_table)@.len() {
                old(fd_table)@.update(rfd, Some(pipe_read))
            } else {
                old(fd_table)@.push(Some(pipe_read))
            };
            let wfd = lowest_free_fd(t1);
            let t2 = if wfd < t1.len() {
                t1.update(wfd, Some(pipe_write))
            } else {
                t1.push(Some(pipe_write))
            };
            &&& final(fd_table)@ == t2
            &&& final(mem)@ == user_word_written(
                user_word_written(old(mem)@, root_of(token), pipe as int, rfd as u64),
                root_of(token),
                pipe + 8,
                wfd as u64,
            )
        }),
{
    let read_fd = alloc_fd(fd_table);
    fd_table.set(read_fd, Some(pipe_read));
    proof {
        assert(fd_table@ =~= if read_fd < old(fd_table)@.len() {
            old(fd_table)@.update(read_fd as int, Some(pipe_read))
        } else {
            old(fd_table)@.push(Some(pipe_read))
        });
    }
    let ghost t1 = fd_table@;
    let write_fd = alloc_fd(fd_table);
    fd_table.set(write_fd, Some(pipe_write));
    proof {
        assert(fd_table@ =~= if write_fd < t1.len() {
            t1.update(write_fd as int, Some(pipe_write))
        } else {
            t1.push(Some(pipe_write))
        });
    }
    write_user_word(token, pipe, read_fd as u64, mem);
    write_user_word(token, pipe + 8, write_fd as u64, mem);
    0
}

/// Opens `name` in the root directory `root` with `flags` and installs the
/// file at the lowest free descriptor, which it returns; -1, with the table
/// unchanged, when there is no such file and `flags` do not ask to create it.
pub fn sys_open<D: BlockDevice>(
    fd_table: &mut Vec<Option<OSInode>>,
    root: &Inode,
    name: &str,
    flags: OpenFlags,
    fs: &mut EasyFileSystem<D>,
) -> (r: isize)
    requires
        open_ready(root, old(fs), name.spec_bytes(), flags),
        old(fd_table)@.len() < isize::MAX,
    ensures
        final(fs).wf(),
        exists|f: Option<OSInode>|
            #[trigger] file_opened(root, old(fs), final(fs), name.spec_bytes(), flags, f) && match f {
                None => r == -1 && final(fd_table)@ == old(fd_table)@,
                Some(_) => {
                    let fd = lowest_free_fd(old(fd_table)@);
                    &&& r == fd
                    &&& final(fd_table)@ == if fd < old(fd_table)@.len() {
                        old(fd_table)@.update(fd, f)
                    } else {
                        old(fd_table)@.push(f)
                    }
                },
            },
{
    let file = open_file(root, name, flags, fs);
    let r = install_file(fd_table, file);
    assert(file_opened(root, old(fs), fs, name.spec_bytes(), flags, file));
    r
}

} // verus!
