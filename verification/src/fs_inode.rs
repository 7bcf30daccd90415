//! Files as the kernel opens them: a handle on an inode of the root
//! directory with its access rights and offset.

use vstd::prelude::*;
use crate::vfs::{
    EasyFileSystem, Inode, InodeView, DiskInodeType, is_reserved, valid_name, first_free, placed, fresh_inode,
    with_entries, cleared, read_spec, written, with_data,
};
use crate::syscall_fs::{read_write, valid_open_flags, O_CREATE, O_TRUNC, O_WRONLY};
use crate::frame_allocator::PAGE_SIZE;
use crate::phys_mem::PhysMem;
use crate::user_buffer::{
    BufChunk, UserBuffer, chunk_addrs, buf_addrs, stored, gathered, lemma_buf_addrs_step, lemma_buf_addrs_prefix,
    lemma_stored_prefix,
};

verus! {

/// Stores `data`, which is as long as the user buffer `buf`, in the bytes
/// of `buf`, one after the other.
pub fn store_to_user(buf: &UserBuffer, mem: &mut PhysMem, data: &[u8])
    requires
        old(mem).wf(),
        buf_in_mem(buf.buffers@, *old(mem)),
        data@.len() == buf_addrs(buf.buffers@).len(),
    ensures
        final(mem).base == old(mem).base,
        final(mem).bytes@.len() == old(mem).bytes@.len(),
        final(mem).bytes@ == stored(old(mem).bytes@, old(mem).base as int, buf_addrs(buf.buffers@), data@),
{
    let ghost b0 = mem.bytes@;
    let ghost base = mem.base as int;
    let ghost cs = buf.buffers@;
    let ghost m0 = *mem;
    let mut total: usize = 0;
    let mut i: usize = 0;
    assert(cs.take(0) =~= Seq::<BufChunk>::empty());
    assert(data@.take(0) =~= Seq::<u8>::empty());
    assert(b0.len() == mem.bytes.len() && data@.len() == data.len());
    while i < buf.buffers.len()
        invariant
            b0.len() <= usize::MAX,
            data@.len() <= usize::MAX,
            cs == buf.buffers@,
            mem.wf(),
            mem.base == base,
            base == m0.base,
            mem.bytes@.len() == b0.len(),
            b0 == m0.bytes@,
            buf_in_mem(cs, m0),
            data@.len() == buf_addrs(cs).len(),
            i <= cs.len(),
            total == buf_addrs(cs.take(i as int)).len(),
            total <= data@.len(),
            mem.bytes@ == stored(b0, base, buf_addrs(cs.take(i as int)), data@.take(total as int)),
        decreases cs.len() - i,
    {
        let c = buf.buffers[i];
        let ghost p0 = buf_addrs(cs.take(i as int));
        proof {
            lemma_buf_addrs_step(cs, i as int);
            lemma_buf_addrs_prefix(cs, i + 1);
            assert(c.start < c.end <= PAGE_SIZE && m0.holds_frame(c.ppn as int));
        }
        let ghost p1 = buf_addrs(cs.take(i + 1));
        proof {
            lemma_stored_prefix(b0, base, p0, p1, data@.take(total as int));
        }
        let want = c.end - c.start;
        assert(total + want <= data@.len());
        let fstart = c.ppn * PAGE_SIZE - mem.base;
        let mut j: usize = 0;
        while j < want
            invariant
                b0.len() <= usize::MAX,
                data@.len() <= usize::MAX,
                fstart == c.ppn * PAGE_SIZE - base,
                0 <= fstart,
                fstart + PAGE_SIZE <= b0.len(),
                c.start < c.end <= PAGE_SIZE,
                want == c.end - c.start,
                j <= want,
                total == p0.len(),
                p1 == p0 + chunk_addrs(c),
                total + want <= data@.len(),
                mem.base == base,
                mem.bytes@.len() == b0.len(),
                mem.bytes@ == stored(b0, base, p1, data@.take(total + j)),
            decreases want - j,
        {
            proof {
                assert(data@.take(total + j + 1).drop_last() =~= data@.take(total + j));
                assert(data@.take(total + j + 1).last() == data@[total + j]);
                assert(p1[total + j] == c.ppn * PAGE_SIZE + c.start + j);
            }
            mem.bytes.set(fstart + c.start + j, data[total + j]);
            j = j + 1;
        }
        total = total + want;
        i = i + 1;
    }
    proof {
        assert(cs.take(i as int) =~= cs);
        assert(data@.take(total as int) =~= data@);
    }
}

/// An open file: its rights, where the next read or write goes, and its inode.
pub struct OSInode {
    pub readable: bool,
    pub writable: bool,
    pub offset: usize,
    pub inode: Inode,
}

/// The file system after `create(name)` in directory `dir` made inode `id`.
pub open spec fn created(v: Seq<Option<InodeView>>, dir: u32, name: Seq<u8>, id: u32) -> Seq<Option<InodeView>> {
    placed(v, id as int, fresh_inode(DiskInodeType::File, dir)).update(
        dir as int,
        Some(with_entries(v[dir as int].unwrap(), v[dir as int].unwrap().entries.push((name, id)))),
    )
}

/// Opening `name` in directory `dir` with `flags` creates a file.
pub open spec fn open_creates_in(fs: EasyFileSystem, dir: u32, name: Seq<u8>, flags: u32) -> bool {
    flags & O_CREATE != 0 && fs.find_spec(dir, name).is_none() && !is_reserved(name)
}

/// Opening `name` in the root directory with `flags` creates a file.
pub open spec fn open_creates(fs: EasyFileSystem, name: Seq<u8>, flags: u32) -> bool {
    open_creates_in(fs, 0, name, flags)
}

/// The inode that opening `name` in directory `dir` with `flags` gives:
/// the entry of that name, else a new file when `O_CREATE` asks for one.
pub open spec fn open_target(fs: EasyFileSystem, dir: u32, name: Seq<u8>, flags: u32) -> Option<u32> {
    match fs.find_spec(dir, name) {
        Some(t) => Some(t),
        None => if open_creates_in(fs, dir, name, flags) { Some(first_free(fs@) as u32) } else { None },
    }
}

/// The inodes after opening `name` in directory `dir` with `flags`: an
/// existing file emptied by `O_CREATE` or `O_TRUNC`, or the new file.
pub open spec fn opened_inodes(fs: EasyFileSystem, dir: u32, name: Seq<u8>, flags: u32) -> Seq<Option<InodeView>> {
    match fs.find_spec(dir, name) {
        Some(t) => if flags & (O_CREATE | O_TRUNC) != 0 { cleared(fs@, t) } else { fs@ },
        None => if open_creates_in(fs, dir, name, flags) {
            created(fs@, dir, name, first_free(fs@) as u32)
        } else {
            fs@
        },
    }
}

/// The pieces of `cs` are non-empty pieces of frames that `mem` holds.
pub open spec fn buf_in_mem(cs: Seq<BufChunk>, mem: PhysMem) -> bool {
    forall|k: int|
        0 <= k < cs.len() ==> (#[trigger] cs[k]).start < cs[k].end <= PAGE_SIZE && mem.holds_frame(cs[k].ppn as int)
}

/// The `n` bytes of `d` from `offset` on.
pub open spec fn file_bytes(d: Seq<u8>, offset: int, n: int) -> Seq<u8> {
    Seq::new(n as nat, |k: int| d[offset + k])
}

/// Bytes of `d` from `offset` on.
pub open spec fn left_from(d: Seq<u8>, offset: int) -> int {
    if offset < d.len() { d.len() - offset } else { 0 }
}

impl OSInode {
    /// An open file at offset 0.
    pub fn new(readable: bool, writable: bool, inode: Inode) -> (f: Self)
        ensures
            f == (OSInode { readable, writable, offset: 0, inode }),
    {
        OSInode { readable, writable, offset: 0, inode }
    }

    pub fn readable(&self) -> (b: bool)
        ensures
            b == self.readable,
    {
        self.readable
    }

    pub fn writable(&self) -> (b: bool)
        ensures
            b == self.writable,
    {
        self.writable
    }

    /// Reads up to `len` bytes at the offset and moves past them.
    pub fn read(&mut self, fs: &EasyFileSystem, len: usize) -> (r: Vec<u8>)
        ensures
            r@ == read_spec(fs.data_of(old(self).inode.inode_id), old(self).offset as int, len as int),
            final(self).offset == old(self).offset + r@.len(),
            final(self).readable == old(self).readable,
            final(self).writable == old(self).writable,
            final(self).inode == old(self).inode,
    {
        let size = self.inode.size(fs);
        let r = self.inode.read_at(fs, self.offset, len);
        proof {
            let d = fs.data_of(self.inode.inode_id);
            assert(d.len() == size);
            if (self.offset as int) < d.len() {
                assert(self.offset + r@.len() <= d.len());
            }
        }
        self.offset = self.offset + r.len();
        r
    }

    /// Reads from the offset into the user buffer `buf`, piece after piece,
    /// as far as the file goes, and moves past what it read, which it
    /// returns, as the kernel's `File::read` does for a disk file.
    pub fn read_to_user(&mut self, fs: &EasyFileSystem, buf: &UserBuffer, mem: &mut PhysMem) -> (n: usize)
        requires
            old(mem).wf(),
            buf_in_mem(buf.buffers@, *old(mem)),
        ensures
            ({
                let d = fs.data_of(old(self).inode.inode_id);
                let o = old(self).offset as int;
                let a = left_from(d, o);
                let t = buf_addrs(buf.buffers@).len() as int;
                &&& n == (if a < t { a } else { t })
                &&& final(self).offset == o + n
                &&& final(mem).bytes@ == stored(old(mem).bytes@, old(mem).base as int, buf_addrs(buf.buffers@), file_bytes(d, o, n as int))
            }),
            final(self).readable == old(self).readable,
            final(self).writable == old(self).writable,
            final(self).inode == old(self).inode,
            final(mem).base == old(mem).base,
            final(mem).bytes@.len() == old(mem).bytes@.len(),
    {
        let ghost d = fs.data_of(self.inode.inode_id);
        let ghost o = self.offset as int;
        let ghost a = left_from(d, o);
        let ghost b0 = mem.bytes@;
        let ghost base = mem.base as int;
        let ghost cs = buf.buffers@;
        let ghost m0 = *mem;
        let mut total: usize = 0;
        let mut i: usize = 0;
        let mut done = false;
        assert(cs.take(0) =~= Seq::<BufChunk>::empty());
        assert(file_bytes(d, o, 0) =~= Seq::<u8>::empty());
        while i < buf.buffers.len() && !done
            invariant
                cs == buf.buffers@,
                d == fs.data_of(self.inode.inode_id),
                self.inode == old(self).inode,
                self.readable == old(self).readable,
                self.writable == old(self).writable,
                mem.wf(),
                mem.base == base,
                base == m0.base,
                mem.bytes@.len() == b0.len(),
                b0 == m0.bytes@,
                buf_in_mem(cs, m0),
                i <= cs.len(),
                a == left_from(d, o),
                0 <= o,
                total <= a,
                done ==> total == a,
                !done ==> total == (if a < buf_addrs(cs.take(i as int)).len() { a } else { buf_addrs(cs.take(i as int)).len() as int }),
                done ==> total <= buf_addrs(cs.take(i as int)).len(),
                self.offset == o + total,
                mem.bytes@ == stored(b0, base, buf_addrs(cs.take(i as int)), file_bytes(d, o, total as int)),
            decreases cs.len() - i,
        {
            let c = buf.buffers[i];
            let want = c.end - c.start;
            let ghost p0 = buf_addrs(cs.take(i as int));
            proof {
                lemma_buf_addrs_step(cs, i as int);
                assert(c.start < c.end <= PAGE_SIZE && m0.holds_frame(c.ppn as int));
            }
            let ghost p1 = buf_addrs(cs.take(i + 1));
            let data = self.read(fs, want);
            proof {
                assert(self.offset == o + total + data@.len());
                assert forall|k: int| 0 <= k < data@.len() implies #[trigger] data@[k] == d[o + total + k] by {}
            }
            if data.len() == 0 {
                done = true;
                proof {
                    assert(o + total >= d.len());
                    lemma_stored_prefix(b0, base, p0, p1, file_bytes(d, o, total as int));
                }
            } else {
                proof {
                    assert(total < a);
                    assert(total == p0.len());
                    lemma_stored_prefix(b0, base, p0, p1, file_bytes(d, o, total as int));
                }
                let blen = mem.bytes.len();
                assert(total + data@.len() <= usize::MAX);
                let fstart = c.ppn * PAGE_SIZE - mem.base;
                let mut j: usize = 0;
                while j < data.len()
                    invariant
                        fstart == c.ppn * PAGE_SIZE - base,
                        0 <= fstart,
                        fstart + PAGE_SIZE <= b0.len(),
                        b0.len() == blen,
                        c.start < c.end <= PAGE_SIZE,
                        data@.len() <= want,
                        want == c.end - c.start,
                        j <= data@.len(),
                        total == p0.len(),
                        p1 == p0 + chunk_addrs(c),
                        forall|k: int| 0 <= k < data@.len() ==> #[trigger] data@[k] == d[o + total + k],
                        o + total + data@.len() <= d.len(),
                        mem.base == base,
                        mem.bytes@.len() == b0.len(),
                        mem.bytes@ == stored(b0, base, p1, file_bytes(d, o, total + j)),
                    decreases data@.len() - j,
                {
                    let ghost before = file_bytes(d, o, total + j);
                    let ghost after = file_bytes(d, o, total + j + 1);
                    proof {
                        assert(after.drop_last() =~= before);
                        assert(after.last() == d[o + total + j]);
                        assert(data@[j as int] == d[o + total + j]);
                        assert(p1[total + j] == c.ppn * PAGE_SIZE + c.start + j);
                    }
                    mem.bytes.set(fstart + c.start + j, data[j]);
                    j = j + 1;
                }
                total = total + data.len();
            }
            i = i + 1;
        }
        proof {
            lemma_buf_addrs_prefix(cs, i as int);
            if !done {
                assert(cs.take(i as int) =~= cs);
            } else {
                lemma_stored_prefix(b0, base, buf_addrs(cs.take(i as int)), buf_addrs(cs), file_bytes(d, o, total as int));
            }
        }
        total
    }

    /// Reads everything from the offset to the end and moves there.
    pub fn read_all(&mut self, fs: &EasyFileSystem) -> (r: Vec<u8>)
        ensures
            r@ == read_spec(
                fs.data_of(old(self).inode.inode_id),
                old(self).offset as int,
                fs.data_of(old(self).inode.inode_id).len() as int,
            ),
            final(self).offset == old(self).offset + r@.len(),
            final(self).readable == old(self).readable,
            final(self).writable == old(self).writable,
            final(self).inode == old(self).inode,
    {
        let size = self.inode.size(fs);
        let r = self.inode.read_at(fs, self.offset, size);
        self.offset = self.offset + r.len();
        r
    }

    /// Writes `buf` at the offset and moves past it.
    pub fn write(&mut self, fs: &mut EasyFileSystem, buf: &[u8]) -> (n: usize)
        requires
            old(fs).node(old(self).inode.inode_id).is_some(),
            old(self).offset + buf@.len() <= u32::MAX,
        ensures
            n == buf@.len(),
            final(fs).inodes@.len() == old(fs).inodes@.len(),
            final(fs)@ == old(fs)@.update(
                old(self).inode.inode_id as int,
                Some(with_data(
                    old(fs).node(old(self).inode.inode_id).unwrap(),
                    written(old(fs).data_of(old(self).inode.inode_id), old(self).offset as int, buf@),
                )),
            ),
            final(self).offset == old(self).offset + n,
            final(self).readable == old(self).readable,
            final(self).writable == old(self).writable,
            final(self).inode == old(self).inode,
    {
        let n = self.inode.write_at(fs, self.offset, buf);
        self.offset = self.offset + n;
        n
    }

    /// Writes the bytes of the user buffer `buf`, piece after piece, at the
    /// offset and moves past them; returns how many, as the kernel's
    /// `File::write` does for a disk file.
    pub fn write_from_user(&mut self, fs: &mut EasyFileSystem, buf: &UserBuffer, mem: &PhysMem) -> (n: usize)
        requires
            mem.wf(),
            buf_in_mem(buf.buffers@, *mem),
            old(fs).node(old(self).inode.inode_id).is_some(),
            old(self).offset + buf_addrs(buf.buffers@).len() <= u32::MAX,
        ensures
            n == buf_addrs(buf.buffers@).len(),
            final(fs).inodes@.len() == old(fs).inodes@.len(),
            final(fs)@ == old(fs)@.update(
                old(self).inode.inode_id as int,
                Some(with_data(
                    old(fs).node(old(self).inode.inode_id).unwrap(),
                    written(
                        old(fs).data_of(old(self).inode.inode_id),
                        old(self).offset as int,
                        gathered(mem.bytes@, mem.base as int, buf_addrs(buf.buffers@)),
                    ),
                )),
            ),
            final(self).offset == old(self).offset + n,
            final(self).readable == old(self).readable,
            final(self).writable == old(self).writable,
            final(self).inode == old(self).inode,
    {
        let ghost cs = buf.buffers@;
        let ghost base = mem.base as int;
        let mut data: Vec<u8> = Vec::new();
        let mut i: usize = 0;
        let blen = mem.bytes.len();
        assert(cs.take(0) =~= Seq::<BufChunk>::empty());
        while i < buf.buffers.len()
            invariant
                cs == buf.buffers@,
                mem.wf(),
                base == mem.base,
                blen == mem.bytes@.len(),
                buf_in_mem(cs, *mem),
                i <= cs.len(),
                data@ == gathered(mem.bytes@, base, buf_addrs(cs.take(i as int))),
            decreases cs.len() - i,
        {
            let c = buf.buffers[i];
            proof {
                lemma_buf_addrs_step(cs, i as int);
                assert(c.start < c.end <= PAGE_SIZE && mem.holds_frame(c.ppn as int));
            }
            let ghost p0 = buf_addrs(cs.take(i as int));
            let ghost p1 = buf_addrs(cs.take(i + 1));
            let fstart = c.ppn * PAGE_SIZE - mem.base;
            let mut j: usize = c.start;
            while j < c.end
                invariant
                    fstart == c.ppn * PAGE_SIZE - base,
                    0 <= fstart,
                    fstart + PAGE_SIZE <= blen,
                    blen == mem.bytes@.len(),
                    c.start <= j <= c.end <= PAGE_SIZE,
                    p1 == p0 + chunk_addrs(c),
                    data@ == gathered(mem.bytes@, base, p1.take(p0.len() + (j - c.start))),
                decreases c.end - j,
            {
                proof {
                    assert(p1[p0.len() + (j - c.start)] == c.ppn * PAGE_SIZE + j);
                }
                data.push(mem.bytes[fstart + j]);
                proof {
                    assert(data@ =~= gathered(mem.bytes@, base, p1.take(p0.len() + (j + 1 - c.start))));
                }
                j = j + 1;
            }
            assert(p1.take(p0.len() + (c.end - c.start)) =~= p1);
            i = i + 1;
        }
        assert(cs.take(i as int) =~= cs);
        self.write(fs, data.as_slice())
    }
}

/// Opens `name` in directory `dir`. With `O_CREATE` an existing file
/// is emptied and a missing one created; without it a missing file is
/// `None` and `O_TRUNC` empties an existing one. The rights come from
/// `read_write(flags)`.
pub fn open_file_in(fs: &mut EasyFileSystem, dir: Inode, name: &[u8], flags: u32) -> (r: Option<OSInode>)
    requires
        valid_open_flags(flags),
        open_creates_in(*old(fs), dir.inode_id, name@, flags) ==> old(fs).is_dir_spec(dir.inode_id) && valid_name(name@) && old(fs).inodes@.len()
            < u32::MAX,
    ensures
        final(fs).inodes@.len() <= old(fs).inodes@.len() + 1,
        ({
            let rw = if flags == 0 { (true, false) } else if flags & O_WRONLY != 0 { (false, true) } else { (true, true) };
            match old(fs).find_spec(dir.inode_id, name@) {
                Some(t) => {
                    &&& r == Some(OSInode { readable: rw.0, writable: rw.1, offset: 0, inode: Inode { inode_id: t } })
                    &&& final(fs)@ == (if flags & (O_CREATE | O_TRUNC) != 0 { cleared(old(fs)@, t) } else { old(fs)@ })
                },
                None => if open_creates_in(*old(fs), dir.inode_id, name@, flags) {
                    let id = first_free(old(fs)@) as u32;
                    &&& r == Some(OSInode { readable: rw.0, writable: rw.1, offset: 0, inode: Inode { inode_id: id } })
                    &&& final(fs)@ == created(old(fs)@, dir.inode_id, name@, id)
                } else {
                    r.is_none() && final(fs)@ == old(fs)@
                },
            }
        }),
{
    let (readable, writable) = read_write(flags);
    let root = dir;
    if flags & O_CREATE != 0 {
        match root.find(fs, name) {
            Some(inode) => {
                inode.clear(fs);
                proof {
                    assert(flags & (O_CREATE | O_TRUNC) != 0) by (bit_vector)
                        requires
                            flags & 0x200u32 != 0,
                    ;
                }
                Some(OSInode::new(readable, writable, inode))
            },
            None => {
                let created = root.create(fs, name);
                match created {
                    Some(inode) => Some(OSInode::new(readable, writable, inode)),
                    None => None,
                }
            },
        }
    } else {
        match root.find(fs, name) {
            Some(inode) => {
                proof {
                    assert(flags & (O_CREATE | O_TRUNC) != 0 <==> flags & O_TRUNC != 0) by (bit_vector)
                        requires
                            flags & 0x200u32 == 0,
                    ;
                }
                if flags & O_TRUNC != 0 {
                    inode.clear(fs);
                }
                Some(OSInode::new(readable, writable, inode))
            },
            None => None,
        }
    }
}

/// Opens `name` in the root directory, as `open_file_in` does.
pub fn open_file(fs: &mut EasyFileSystem, name: &[u8], flags: u32) -> (r: Option<OSInode>)
    requires
        valid_open_flags(flags),
        open_creates(*old(fs), name@, flags) ==> old(fs).is_dir_spec(0) && valid_name(name@) && old(fs).inodes@.len()
            < u32::MAX,
    ensures
        final(fs).inodes@.len() <= old(fs).inodes@.len() + 1,
        ({
            let rw = if flags == 0 { (true, false) } else if flags & O_WRONLY != 0 { (false, true) } else { (true, true) };
            &&& r == (match open_target(*old(fs), 0, name@, flags) {
                Some(id) => Some(OSInode { readable: rw.0, writable: rw.1, offset: 0, inode: Inode { inode_id: id } }),
                None => None::<OSInode>,
            })
            &&& final(fs)@ == opened_inodes(*old(fs), 0, name@, flags)
        }),
{
    let root = fs.root_inode();
    open_file_in(fs, root, name, flags)
}

} // verus!
