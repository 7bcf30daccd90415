//! The inode layer of the easy-fs file system: directories as lists of
//! named entries, path lookup, and file contents.
//!
//! The file system is held as a table of inodes indexed by inode number;
//! an `Inode` is a handle, the number of the inode it stands for. A free
//! slot holds no inode. A directory's entries are kept as records, apart
//! from the byte contents that files hold.

use vstd::prelude::*;
use crate::syscall_fs::{bytes_eq, DOT, SLASH, split_slash, strip_leading_slashes};
use crate::apps::{nonempty, names_view};

verus! {

/// Longest name a directory entry holds.
pub const NAME_LENGTH_LIMIT: usize = 27;
/// Bytes of one directory entry on disk.
pub const DIRENT_SZ: usize = 32;

#[derive(Clone, Copy, Debug, PartialEq, Eq, Structural)]
pub enum DiskInodeType {
    File,
    Directory,
}

/// A named reference from a directory to an inode.
pub struct DirEntry {
    pub name: Vec<u8>,
    pub inode_number: u32,
}

/// One inode: its type, its parent directory, its entries (directories)
/// and its bytes (files).
pub struct DiskInode {
    pub type_: DiskInodeType,
    pub parent_inode: u32,
    pub entries: Vec<DirEntry>,
    pub data: Vec<u8>,
}

/// The inode table; slot `n` holds inode `n`, `None` when it is free.
/// Inode 0 is the root directory.
pub struct EasyFileSystem {
    pub inodes: Vec<Option<DiskInode>>,
}

/// A handle to inode `inode_id` of a file system.
#[derive(Clone, Copy, Debug, PartialEq, Eq, Structural)]
pub struct Inode {
    pub inode_id: u32,
}

/// Entries as (name, inode number) pairs.
pub open spec fn entries_view(es: Seq<DirEntry>) -> Seq<(Seq<u8>, u32)> {
    es.map_values(|e: DirEntry| (e.name@, e.inode_number))
}

/// Index of the first entry of `es` named `name`, or -1.
pub open spec fn entry_index(es: Seq<(Seq<u8>, u32)>, name: Seq<u8>) -> int
    decreases es.len(),
{
    if es.len() == 0 {
        -1
    } else {
        let r = entry_index(es.drop_last(), name);
        if r >= 0 {
            r
        } else if es.last().0 == name {
            es.len() - 1
        } else {
            -1
        }
    }
}

proof fn lemma_entry_index(es: Seq<(Seq<u8>, u32)>, name: Seq<u8>)
    ensures
        -1 <= entry_index(es, name) < es.len(),
        entry_index(es, name) >= 0 ==> es[entry_index(es, name)].0 == name,
        forall|j: int| 0 <= j < es.len() && (j < entry_index(es, name) || entry_index(es, name) < 0) ==> es[j].0 != name,
    decreases es.len(),
{
    if es.len() > 0 {
        let p = es.drop_last();
        lemma_entry_index(p, name);
        assert forall|j: int| 0 <= j < es.len() && (j < entry_index(es, name) || entry_index(es, name) < 0) implies es[j].0
            != name by {
            if j < p.len() {
                assert(es[j] == p[j]);
            }
        }
    }
}

/// `name` is one of the names every directory has implicitly.
pub open spec fn is_reserved(name: Seq<u8>) -> bool {
    name == seq![DOT] || name == seq![DOT, DOT]
}

/// A name that a new directory entry can hold.
pub open spec fn valid_name(name: Seq<u8>) -> bool {
    name.len() <= NAME_LENGTH_LIMIT && forall|i: int| 0 <= i < name.len() ==> name[i] != 0
}

/// Whether `name` is `.` or `..`.
pub fn is_reserved_name(name: &[u8]) -> (b: bool)
    ensures
        b == is_reserved(name@),
{
    let r = (name.len() == 1 && name[0] == DOT) || (name.len() == 2 && name[0] == DOT && name[1] == DOT);
    proof {
        if name@.len() == 1 && name@[0] == DOT {
            assert(name@ =~= seq![DOT]);
        }
        if name@.len() == 2 && name@[0] == DOT && name@[1] == DOT {
            assert(name@ =~= seq![DOT, DOT]);
        }
    }
    r
}

/// What an inode holds, as plain values.
pub struct InodeView {
    pub type_: DiskInodeType,
    pub parent_inode: u32,
    pub entries: Seq<(Seq<u8>, u32)>,
    pub data: Seq<u8>,
}

impl View for DiskInode {
    type V = InodeView;

    open spec fn view(&self) -> InodeView {
        InodeView {
            type_: self.type_,
            parent_inode: self.parent_inode,
            entries: entries_view(self.entries@),
            data: self.data@,
        }
    }
}

/// The view of an inode slot.
pub open spec fn slot_view(o: Option<DiskInode>) -> Option<InodeView> {
    match o {
        Some(d) => Some(d@),
        None => None,
    }
}

impl View for EasyFileSystem {
    type V = Seq<Option<InodeView>>;

    open spec fn view(&self) -> Seq<Option<InodeView>> {
        self.inodes@.map_values(|o: Option<DiskInode>| slot_view(o))
    }
}

impl EasyFileSystem {
    /// Inode `id`, if it is allocated.
    pub open spec fn node(&self, id: u32) -> Option<InodeView> {
        if id < self@.len() { self@[id as int] } else { None }
    }

    pub open spec fn is_dir_spec(&self, id: u32) -> bool {
        self.node(id) matches Some(d) && d.type_ == DiskInodeType::Directory
    }

    /// The entries of inode `id`; none for a free slot.
    pub open spec fn entries_of(&self, id: u32) -> Seq<(Seq<u8>, u32)> {
        match self.node(id) {
            Some(d) => d.entries,
            None => Seq::empty(),
        }
    }

    /// The bytes of inode `id`; none for a free slot.
    pub open spec fn data_of(&self, id: u32) -> Seq<u8> {
        match self.node(id) {
            Some(d) => d.data,
            None => Seq::empty(),
        }
    }

    /// The parent recorded in inode `id`; 0 for a free slot.
    pub open spec fn parent_of(&self, id: u32) -> u32 {
        match self.node(id) {
            Some(d) => d.parent_inode,
            None => 0,
        }
    }

    /// What the entry `name` of directory `dir` refers to.
    pub open spec fn find_spec(&self, dir: u32, name: Seq<u8>) -> Option<u32> {
        let es = self.entries_of(dir);
        if !self.is_dir_spec(dir) || entry_index(es, name) < 0 {
            None
        } else {
            Some(es[entry_index(es, name)].1)
        }
    }

    /// Inode numbers fit in `u32`.
    pub open spec fn wf(&self) -> bool {
        self.inodes@.len() <= u32::MAX
    }

    /// A file system whose only inode is an empty root directory.
    pub fn new() -> (fs: Self)
        ensures
            fs.wf(),
            fs.inodes@.len() == 1,
            fs.is_dir_spec(0),
            fs.entries_of(0).len() == 0,
            fs.data_of(0).len() == 0,
            fs.parent_of(0) == 0,
    {
        let mut inodes: Vec<Option<DiskInode>> = Vec::new();
        inodes.push(
            Some(DiskInode { type_: DiskInodeType::Directory, parent_inode: 0, entries: Vec::new(), data: Vec::new() }),
        );
        let fs = EasyFileSystem { inodes };
        assert(fs.entries_of(0) =~= Seq::<(Seq<u8>, u32)>::empty());
        fs
    }

    /// The handle of the root directory.
    pub fn root_inode(&self) -> (r: Inode)
        ensures
            r.inode_id == 0,
    {
        Inode { inode_id: 0 }
    }
}

impl Inode {
    /// The handle of inode `inode_id`.
    pub fn new(inode_id: u32) -> (r: Self)
        ensures
            r.inode_id == inode_id,
    {
        Inode { inode_id }
    }

    /// The number of this inode.
    pub fn inode_number(&self) -> (n: u32)
        ensures
            n == self.inode_id,
    {
        self.inode_id
    }

    /// Whether this inode is an allocated directory.
    pub fn is_dir(&self, fs: &EasyFileSystem) -> (b: bool)
        ensures
            b == fs.is_dir_spec(self.inode_id),
    {
        let id = self.inode_id as usize;
        if id < fs.inodes.len() {
            match &fs.inodes[id] {
                Some(d) => d.type_ == DiskInodeType::Directory,
                None => false,
            }
        } else {
            false
        }
    }

    /// Whether this inode is a directory without entries.
    pub fn is_empty_directory(&self, fs: &EasyFileSystem) -> (b: bool)
        ensures
            b == (fs.is_dir_spec(self.inode_id) && fs.entries_of(self.inode_id).len() == 0),
    {
        let id = self.inode_id as usize;
        if id < fs.inodes.len() {
            match &fs.inodes[id] {
                Some(d) => d.type_ == DiskInodeType::Directory && d.entries.len() == 0,
                None => false,
            }
        } else {
            false
        }
    }

    /// The inode number that entry `name` of this directory refers to;
    /// `None` when this is not a directory or has no such entry.
    fn find_inode_id(&self, fs: &EasyFileSystem, name: &[u8]) -> (r: Option<u32>)
        ensures
            r == fs.find_spec(self.inode_id, name@),
    {
        if !self.is_dir(fs) {
            return None;
        }
        let d = fs.inodes[self.inode_id as usize].as_ref().unwrap();
        let ghost es = entries_view(d.entries@);
        let mut i: usize = 0;
        while i < d.entries.len()
            invariant
                es == entries_view(d.entries@),
                es == fs.entries_of(self.inode_id),
                fs.is_dir_spec(self.inode_id),
                i <= es.len(),
                forall|j: int| 0 <= j < i ==> es[j].0 != name@,
            decreases es.len() - i,
        {
            if bytes_eq(d.entries[i].name.as_slice(), name) {
                proof {
                    lemma_entry_index(es, name@);
                    let k = entry_index(es, name@);
                    assert(es[i as int].0 == name@);
                    assert(es[i as int] == (d.entries@[i as int].name@, d.entries@[i as int].inode_number));
                    if k >= 0 && k < i {
                        assert(es[k].0 != name@);
                    }
                    assert(k == i);
                }
                return Some(d.entries[i].inode_number);
            }
            i = i + 1;
        }
        proof {
            lemma_entry_index(es, name@);
            let k = entry_index(es, name@);
            if k >= 0 {
                assert(es[k].0 != name@);
            }
        }
        None
    }

    /// The inode that entry `name` of this directory refers to.
    pub fn find(&self, fs: &EasyFileSystem, name: &[u8]) -> (r: Option<Inode>)
        ensures
            r == (match fs.find_spec(self.inode_id, name@) {
                Some(n) => Some(Inode { inode_id: n }),
                None => None::<Inode>,
            }),
    {
        match self.find_inode_id(fs, name) {
            Some(n) => Some(Inode { inode_id: n }),
            None => None,
        }
    }
}

/// `v` with its entries replaced by `es`.
pub open spec fn with_entries(v: InodeView, es: Seq<(Seq<u8>, u32)>) -> InodeView {
    InodeView { type_: v.type_, parent_inode: v.parent_inode, entries: es, data: v.data }
}

/// `v` with its bytes replaced by `data`.
pub open spec fn with_data(v: InodeView, data: Seq<u8>) -> InodeView {
    InodeView { type_: v.type_, parent_inode: v.parent_inode, entries: v.entries, data }
}

/// A fresh inode of type `t` whose parent is `parent`.
pub open spec fn fresh_inode(t: DiskInodeType, parent: u32) -> InodeView {
    InodeView { type_: t, parent_inode: parent, entries: Seq::empty(), data: Seq::empty() }
}

/// The lowest free inode number of `v`, or `v.len()` when none is free.
pub open spec fn first_free(v: Seq<Option<InodeView>>) -> int
    decreases v.len(),
{
    if v.len() == 0 {
        0
    } else {
        let r = first_free(v.drop_last());
        if r < v.len() - 1 {
            r
        } else if v.last() is None {
            v.len() - 1
        } else {
            v.len() as int
        }
    }
}

proof fn lemma_first_free(v: Seq<Option<InodeView>>)
    ensures
        0 <= first_free(v) <= v.len(),
        first_free(v) < v.len() ==> v[first_free(v)] is None,
        forall|j: int| 0 <= j < first_free(v) ==> v[j] is Some,
    decreases v.len(),
{
    if v.len() > 0 {
        let p = v.drop_last();
        lemma_first_free(p);
        assert forall|j: int| 0 <= j < first_free(v) implies v[j] is Some by {
            if j < p.len() {
                assert(v[j] == p[j]);
            }
        }
    }
}

/// `v` with inode `id` placed: in its slot, or appended when `id` is
/// just past the end.
pub open spec fn placed(v: Seq<Option<InodeView>>, id: int, n: InodeView) -> Seq<Option<InodeView>> {
    if id < v.len() { v.update(id, Some(n)) } else { v.push(Some(n)) }
}

/// `v` with inode `id` emptied of bytes and entries (nothing changes for
/// a free slot).
pub open spec fn cleared(v: Seq<Option<InodeView>>, id: u32) -> Seq<Option<InodeView>> {
    if id < v.len() && v[id as int] is Some {
        let n = v[id as int].unwrap();
        v.update(
            id as int,
            Some(InodeView { type_: n.type_, parent_inode: n.parent_inode, entries: Seq::empty(), data: Seq::empty() }),
        )
    } else {
        v
    }
}

/// `v` with inode `id` freed (nothing changes when `id` is out of range).
pub open spec fn freed(v: Seq<Option<InodeView>>, id: u32) -> Seq<Option<InodeView>> {
    if id < v.len() { v.update(id as int, None) } else { v }
}

/// The bytes `d` after writing `buf` at `offset`, the gap before it
/// filled with zeros.
pub open spec fn written(d: Seq<u8>, offset: int, buf: Seq<u8>) -> Seq<u8> {
    let n = if d.len() >= offset + buf.len() { d.len() as int } else { offset + buf.len() };
    Seq::new(
        n as nat,
        |i: int|
            if offset <= i < offset + buf.len() {
                buf[i - offset]
            } else if i < d.len() {
                d[i]
            } else {
                0
            },
    )
}

/// What a read of `len` bytes at `offset` gives from `d`.
pub open spec fn read_spec(d: Seq<u8>, offset: int, len: int) -> Seq<u8> {
    if offset >= d.len() {
        Seq::empty()
    } else if offset + len <= d.len() {
        d.subrange(offset, offset + len)
    } else {
        d.subrange(offset, d.len() as int)
    }
}

impl EasyFileSystem {
    /// Takes inode `id` out of its slot.
    fn take_node(&mut self, id: u32) -> (d: DiskInode)
        requires
            old(self).node(id).is_some(),
        ensures
            final(self).inodes@ == old(self).inodes@.update(id as int, None),
            old(self).node(id) == Some(d@),
    {
        let ghost v0 = self@;
        let d = self.inodes[id as usize].take().unwrap();
        proof {
            assert(v0[id as int] == slot_view(old(self).inodes@[id as int]));
        }
        d
    }

    /// Puts `d` into slot `id`.
    fn put_node(&mut self, id: u32, d: DiskInode)
        requires
            id < old(self).inodes@.len(),
        ensures
            final(self).inodes@ == old(self).inodes@.update(id as int, Some(d)),
            final(self)@ == old(self)@.update(id as int, Some(d@)),
    {
        self.inodes.set(id as usize, Some(d));
        assert(self@ =~= old(self)@.update(id as int, Some(d@)));
    }

    /// Frees inode `id`; nothing happens when `id` is out of range.
    fn dealloc_inode(&mut self, id: u32)
        ensures
            final(self)@ == freed(old(self)@, id),
            final(self).inodes@.len() == old(self).inodes@.len(),
    {
        if (id as usize) < self.inodes.len() {
            self.inodes.set(id as usize, None);
            assert(self@ =~= freed(old(self)@, id));
        }
    }

    /// Allocates the lowest free inode number for `n`.
    fn alloc_inode(&mut self, n: DiskInode) -> (id: u32)
        requires
            old(self).inodes@.len() < u32::MAX,
        ensures
            id == first_free(old(self)@),
            final(self)@ == placed(old(self)@, id as int, n@),
            final(self).inodes@.len() <= old(self).inodes@.len() + 1,
    {
        let ghost v0 = self@;
        proof {
            lemma_first_free(v0);
        }
        let mut i: usize = 0;
        while i < self.inodes.len()
            invariant
                self@ == v0,
                v0 == old(self)@,
                self.inodes@.len() == v0.len(),
                v0.len() < u32::MAX,
                i <= v0.len(),
                0 <= first_free(v0) <= v0.len(),
                first_free(v0) < v0.len() ==> v0[first_free(v0)] is None,
                forall|j: int| 0 <= j < first_free(v0) ==> v0[j] is Some,
                forall|j: int| 0 <= j < i ==> v0[j] is Some,
            decreases v0.len() - i,
        {
            if self.inodes[i].is_none() {
                proof {
                    assert(v0[i as int] == slot_view(self.inodes@[i as int]));
                    assert(v0[i as int] is None);
                    let f = first_free(v0);
                    if f < i {
                        assert(v0[f] is Some);
                    }
                    if f > i {
                        assert(v0[i as int] is Some);
                    }
                }
                self.inodes.set(i, Some(n));
                assert(self@ =~= placed(v0, i as int, n@));
                return i as u32;
            }
            proof {
                assert(v0[i as int] == slot_view(self.inodes@[i as int]));
            }
            i = i + 1;
        }
        proof {
            let f = first_free(v0);
            if f < v0.len() {
                assert(v0[f] is Some);
            }
        }
        self.inodes.push(Some(n));
        assert(self@ =~= placed(v0, v0.len() as int, n@));
        i as u32
    }
}

impl Inode {
    /// The names of this directory's entries, in order.
    pub fn ls(&self, fs: &EasyFileSystem) -> (names: Vec<Vec<u8>>)
        ensures
            names@.len() == fs.entries_of(self.inode_id).len(),
            forall|k: int| 0 <= k < names@.len() ==> (#[trigger] names@[k])@ == fs.entries_of(self.inode_id)[k].0,
    {
        let mut names: Vec<Vec<u8>> = Vec::new();
        let id = self.inode_id as usize;
        if id >= fs.inodes.len() || fs.inodes[id].is_none() {
            return names;
        }
        let d = fs.inodes[id].as_ref().unwrap();
        let ghost es = fs.entries_of(self.inode_id);
        assert(es == entries_view(d.entries@));
        let mut i: usize = 0;
        while i < d.entries.len()
            invariant
                es == entries_view(d.entries@),
                i <= es.len(),
                names@.len() == i,
                forall|k: int| 0 <= k < i ==> (#[trigger] names@[k])@ == es[k].0,
            decreases es.len() - i,
        {
            names.push(crate::editor::clone_bytes(d.entries[i].name.as_slice()));
            i = i + 1;
        }
        names
    }

    /// Records `parent_id` as the parent of this inode (nothing happens to
    /// a free slot).
    pub fn set_parent_inode(&self, fs: &mut EasyFileSystem, parent_id: u32)
        ensures
            final(fs).inodes@.len() == old(fs).inodes@.len(),
            final(fs)@ == (match old(fs).node(self.inode_id) {
                Some(v) => old(fs)@.update(
                    self.inode_id as int,
                    Some(InodeView { type_: v.type_, parent_inode: parent_id, entries: v.entries, data: v.data }),
                ),
                None => old(fs)@,
            }),
    {
        let id = self.inode_id;
        if (id as usize) < fs.inodes.len() && fs.inodes[id as usize].is_some() {
            proof {
                assert(old(fs)@[id as int] == slot_view(old(fs).inodes@[id as int]));
            }
            let mut d = fs.take_node(id);
            d.parent_inode = parent_id;
            fs.put_node(id, d);
        } else {
            proof {
                if (id as int) < old(fs).inodes@.len() {
                    assert(old(fs)@[id as int] == slot_view(old(fs).inodes@[id as int]));
                }
            }
        }
    }
}

/// Index of the first entry of `es` named `name`.
fn entry_position(es: &Vec<DirEntry>, name: &[u8]) -> (r: Option<usize>)
    ensures
        r is None <==> entry_index(entries_view(es@), name@) < 0,
        r matches Some(k) ==> k == entry_index(entries_view(es@), name@) && k < es@.len(),
{
    let ghost ev = entries_view(es@);
    proof {
        lemma_entry_index(ev, name@);
    }
    let mut i: usize = 0;
    while i < es.len()
        invariant
            ev == entries_view(es@),
            i <= ev.len(),
            -1 <= entry_index(ev, name@) < ev.len(),
            entry_index(ev, name@) >= 0 ==> ev[entry_index(ev, name@)].0 == name@,
            forall|j: int| 0 <= j < ev.len() && (j < entry_index(ev, name@) || entry_index(ev, name@) < 0) ==> ev[j].0 != name@,
            forall|j: int| 0 <= j < i ==> ev[j].0 != name@,
        decreases ev.len() - i,
    {
        if bytes_eq(es[i].name.as_slice(), name) {
            proof {
                let k = entry_index(ev, name@);
                assert(ev[i as int] == (es@[i as int].name@, es@[i as int].inode_number));
                if k >= 0 && k < i {
                    assert(ev[k].0 != name@);
                }
            }
            return Some(i);
        }
        i = i + 1;
    }
    proof {
        let k = entry_index(ev, name@);
        if k >= 0 {
            assert(ev[k].0 != name@);
        }
    }
    None
}

proof fn lemma_entry_index_push(es: Seq<(Seq<u8>, u32)>, x: (Seq<u8>, u32), name: Seq<u8>)
    ensures
        entry_index(es.push(x), name) == (if entry_index(es, name) >= 0 {
            entry_index(es, name)
        } else if x.0 == name {
            es.len() as int
        } else {
            -1
        }),
{
    assert(es.push(x).drop_last() =~= es);
}

/// A same-directory rename of `old_name` to `new_name` goes ahead: neither
/// name is reserved, `old_name` exists and `new_name` does not.
pub open spec fn rename_ok(fs: EasyFileSystem, dir: u32, old_name: Seq<u8>, new_name: Seq<u8>) -> bool {
    &&& !is_reserved(old_name)
    &&& !is_reserved(new_name)
    &&& fs.find_spec(dir, old_name).is_some()
    &&& fs.find_spec(dir, new_name).is_none()
}

/// What `unlink(name)` removes from directory `dir`: the inode that the
/// entry refers to, unless the name is reserved, missing, or names a
/// directory that still has entries.
pub open spec fn unlink_target(fs: EasyFileSystem, dir: u32, name: Seq<u8>) -> Option<u32> {
    match fs.find_spec(dir, name) {
        Some(t) => if is_reserved(name) || (fs.is_dir_spec(t) && fs.entries_of(t).len() > 0) {
            None
        } else {
            Some(t)
        },
        None => None,
    }
}

impl Inode {
    /// Appends the entry `(name, target)` to this directory.
    fn append_entry(&self, fs: &mut EasyFileSystem, name: &[u8], target: u32)
        requires
            old(fs).is_dir_spec(self.inode_id),
        ensures
            final(fs).inodes@.len() == old(fs).inodes@.len(),
            final(fs)@ == old(fs)@.update(
                self.inode_id as int,
                Some(with_entries(old(fs).node(self.inode_id).unwrap(), old(fs).entries_of(self.inode_id).push((name@, target)))),
            ),
    {
        let id = self.inode_id;
        let mut d = fs.take_node(id);
        let ghost e0 = d.entries@;
        d.entries.push(DirEntry { name: crate::editor::clone_bytes(name), inode_number: target });
        assert(entries_view(d.entries@) =~= entries_view(e0).push((name@, target)));
        fs.put_node(id, d);
    }

    /// Removes the first entry named `name` from this directory; `false`
    /// when there is none.
    fn remove_directory_entry(&self, fs: &mut EasyFileSystem, name: &[u8]) -> (ok: bool)
        requires
            old(fs).is_dir_spec(self.inode_id),
        ensures
            final(fs).inodes@.len() == old(fs).inodes@.len(),
            ok == (entry_index(old(fs).entries_of(self.inode_id), name@) >= 0),
            ok ==> final(fs)@ == old(fs)@.update(
                self.inode_id as int,
                Some(with_entries(
                    old(fs).node(self.inode_id).unwrap(),
                    old(fs).entries_of(self.inode_id).remove(entry_index(old(fs).entries_of(self.inode_id), name@)),
                )),
            ),
            !ok ==> final(fs)@ == old(fs)@,
    {
        let id = self.inode_id;
        proof {
            assert(old(fs)@[id as int] == slot_view(old(fs).inodes@[id as int]));
        }
        let pos = entry_position(&fs.inodes[id as usize].as_ref().unwrap().entries, name);
        match pos {
            None => false,
            Some(k) => {
                let mut d = fs.take_node(id);
                let ghost e0 = d.entries@;
                d.entries.remove(k);
                assert(entries_view(d.entries@) =~= entries_view(e0).remove(k as int));
                fs.put_node(id, d);
                true
            },
        }
    }

    /// Creates an inode of type `inode_type` under the name `name` in this
    /// directory, with this directory as its parent, at the lowest free
    /// inode number. `None` for a reserved name or one that exists.
    pub fn create_as(&self, fs: &mut EasyFileSystem, name: &[u8], inode_type: DiskInodeType) -> (r: Option<Inode>)
        requires
            is_reserved(name@) || (old(fs).is_dir_spec(self.inode_id) && valid_name(name@) && old(fs).inodes@.len()
                < u32::MAX),
        ensures
            r.is_some() == (!is_reserved(name@) && old(fs).find_spec(self.inode_id, name@).is_none()),
            final(fs).inodes@.len() <= old(fs).inodes@.len() + 1,
            match r {
                Some(n) => {
                    &&& n.inode_id == first_free(old(fs)@)
                    &&& final(fs)@ == placed(old(fs)@, n.inode_id as int, fresh_inode(inode_type, self.inode_id)).update(
                        self.inode_id as int,
                        Some(with_entries(
                            old(fs).node(self.inode_id).unwrap(),
                            old(fs).entries_of(self.inode_id).push((name@, n.inode_id)),
                        )),
                    )
                },
                None => final(fs)@ == old(fs)@,
            },
    {
        if is_reserved_name(name) {
            return None;
        }
        let parent_inode_number = self.inode_number();
        if self.find_inode_id(fs, name).is_some() {
            return None;
        }
        let ghost v0 = fs@;
        let new_id = fs.alloc_inode(
            DiskInode { type_: inode_type, parent_inode: parent_inode_number, entries: Vec::new(), data: Vec::new() },
        );
        proof {
            lemma_first_free(v0);
            assert(entries_view(Seq::<DirEntry>::empty()) =~= Seq::empty());
            assert(v0[self.inode_id as int] is Some);
            assert(new_id != self.inode_id);
            assert(fs.node(self.inode_id) == old(fs).node(self.inode_id));
        }
        self.append_entry(fs, name, new_id);
        Some(Inode { inode_id: new_id })
    }

    /// Creates a file named `name` in this directory.
    pub fn create(&self, fs: &mut EasyFileSystem, name: &[u8]) -> (r: Option<Inode>)
        requires
            is_reserved(name@) || (old(fs).is_dir_spec(self.inode_id) && valid_name(name@) && old(fs).inodes@.len()
                < u32::MAX),
        ensures
            r.is_some() == (!is_reserved(name@) && old(fs).find_spec(self.inode_id, name@).is_none()),
            final(fs).inodes@.len() <= old(fs).inodes@.len() + 1,
            match r {
                Some(n) => {
                    &&& n.inode_id == first_free(old(fs)@)
                    &&& final(fs)@ == placed(old(fs)@, n.inode_id as int, fresh_inode(DiskInodeType::File, self.inode_id)).update(
                        self.inode_id as int,
                        Some(with_entries(
                            old(fs).node(self.inode_id).unwrap(),
                            old(fs).entries_of(self.inode_id).push((name@, n.inode_id)),
                        )),
                    )
                },
                None => final(fs)@ == old(fs)@,
            },
    {
        self.create_as(fs, name, DiskInodeType::File)
    }

    /// Adds the entry `name` for inode `target_inode_id` to this directory;
    /// `false` for a reserved name or one that exists.
    pub fn link(&self, fs: &mut EasyFileSystem, name: &[u8], target_inode_id: u32) -> (ok: bool)
        requires
            old(fs).is_dir_spec(self.inode_id),
            valid_name(name@),
        ensures
            final(fs).inodes@.len() == old(fs).inodes@.len(),
            ok == (!is_reserved(name@) && old(fs).find_spec(self.inode_id, name@).is_none()),
            ok ==> final(fs)@ == old(fs)@.update(
                self.inode_id as int,
                Some(with_entries(
                    old(fs).node(self.inode_id).unwrap(),
                    old(fs).entries_of(self.inode_id).push((name@, target_inode_id)),
                )),
            ),
            !ok ==> final(fs)@ == old(fs)@,
    {
        if is_reserved_name(name) {
            return false;
        }
        if self.find_inode_id(fs, name).is_some() {
            return false;
        }
        self.append_entry(fs, name, target_inode_id);
        true
    }

    /// Renames the entry `old_name` of this directory to `new_name`: the
    /// new entry goes last and the old one is removed. `false`, and no
    /// change, unless `rename_ok` holds.
    pub fn rename(&self, fs: &mut EasyFileSystem, old_name: &[u8], new_name: &[u8]) -> (ok: bool)
        requires
            rename_ok(*old(fs), self.inode_id, old_name@, new_name@) ==> valid_name(new_name@),
        ensures
            final(fs).inodes@.len() == old(fs).inodes@.len(),
            ok == rename_ok(*old(fs), self.inode_id, old_name@, new_name@),
            ok ==> final(fs)@ == old(fs)@.update(
                self.inode_id as int,
                Some(with_entries(
                    old(fs).node(self.inode_id).unwrap(),
                    old(fs).entries_of(self.inode_id).push(
                        (new_name@, old(fs).find_spec(self.inode_id, old_name@).unwrap()),
                    ).remove(entry_index(old(fs).entries_of(self.inode_id), old_name@)),
                )),
            ),
            !ok ==> final(fs)@ == old(fs)@,
    {
        if is_reserved_name(old_name) || is_reserved_name(new_name) {
            return false;
        }
        let old_inode_id = match self.find_inode_id(fs, old_name) {
            Some(id) => id,
            None => return false,
        };
        if self.find_inode_id(fs, new_name).is_some() {
            return false;
        }
        let ghost es = old(fs).entries_of(self.inode_id);
        self.append_entry(fs, new_name, old_inode_id);
        proof {
            lemma_entry_index_push(es, (new_name@, old_inode_id), old_name@);
            assert(fs.entries_of(self.inode_id) == es.push((new_name@, old_inode_id)));
        }
        self.remove_directory_entry(fs, old_name);
        true
    }

    /// Removes the entry `name` from this directory without touching the
    /// inode it refers to; `false` for a reserved or missing name.
    pub fn detach(&self, fs: &mut EasyFileSystem, name: &[u8]) -> (ok: bool)
        requires
            !is_reserved(name@) ==> old(fs).is_dir_spec(self.inode_id),
        ensures
            final(fs).inodes@.len() == old(fs).inodes@.len(),
            ok == (!is_reserved(name@) && entry_index(old(fs).entries_of(self.inode_id), name@) >= 0),
            ok ==> final(fs)@ == old(fs)@.update(
                self.inode_id as int,
                Some(with_entries(
                    old(fs).node(self.inode_id).unwrap(),
                    old(fs).entries_of(self.inode_id).remove(entry_index(old(fs).entries_of(self.inode_id), name@)),
                )),
            ),
            !ok ==> final(fs)@ == old(fs)@,
    {
        if is_reserved_name(name) {
            return false;
        }
        self.remove_directory_entry(fs, name)
    }

    /// Empties this inode: no bytes and no entries remain (nothing happens
    /// to a free slot).
    pub fn clear(&self, fs: &mut EasyFileSystem)
        ensures
            final(fs).inodes@.len() == old(fs).inodes@.len(),
            final(fs)@ == cleared(old(fs)@, self.inode_id),
    {
        let id = self.inode_id;
        if (id as usize) < fs.inodes.len() && fs.inodes[id as usize].is_some() {
            proof {
                assert(old(fs)@[id as int] == slot_view(old(fs).inodes@[id as int]));
            }
            let mut d = fs.take_node(id);
            d.entries = Vec::new();
            d.data = Vec::new();
            assert(entries_view(d.entries@) =~= Seq::empty());
            fs.put_node(id, d);
        } else {
            proof {
                if (id as int) < old(fs).inodes@.len() {
                    assert(old(fs)@[id as int] == slot_view(old(fs).inodes@[id as int]));
                }
            }
        }
    }

    /// Removes the entry `name` from this directory and frees the inode it
    /// refers to, which must be a file or an empty directory. Returns the
    /// freed inode number (see `unlink_target`).
    pub fn unlink(&self, fs: &mut EasyFileSystem, name: &[u8]) -> (r: Option<u32>)
        ensures
            final(fs).inodes@.len() == old(fs).inodes@.len(),
            r == unlink_target(*old(fs), self.inode_id, name@),
            match r {
                Some(t) => final(fs)@ == freed(old(fs)@, t).update(
                    self.inode_id as int,
                    Some(with_entries(
                        old(fs).node(self.inode_id).unwrap(),
                        old(fs).entries_of(self.inode_id).remove(entry_index(old(fs).entries_of(self.inode_id), name@)),
                    )),
                ),
                None => final(fs)@ == old(fs)@,
            },
    {
        if is_reserved_name(name) {
            return None;
        }
        let target = match self.find(fs, name) {
            Some(t) => t,
            None => return None,
        };
        let target_is_dir = target.is_dir(fs);
        let target_is_empty = target.is_empty_directory(fs);
        let target_inode_id = target.inode_number();
        if target_is_dir && !target_is_empty {
            return None;
        }
        proof {
            let es = old(fs).entries_of(self.inode_id);
            lemma_entry_index(es, name@);
            assert(target_inode_id != self.inode_id);
        }
        target.clear(fs);
        fs.dealloc_inode(target_inode_id);
        proof {
            assert(fs.node(self.inode_id) == old(fs).node(self.inode_id));
        }
        self.remove_directory_entry(fs, name);
        proof {
            assert(fs@ =~= freed(old(fs)@, target_inode_id).update(
                self.inode_id as int,
                Some(with_entries(
                    old(fs).node(self.inode_id).unwrap(),
                    old(fs).entries_of(self.inode_id).remove(entry_index(old(fs).entries_of(self.inode_id), name@)),
                )),
            ));
        }
        Some(target_inode_id)
    }
}

/// Grows the bytes of `d` with zeros to `new_size`; nothing happens when
/// it holds that many already.
fn increase_size(d: &mut DiskInode, new_size: usize)
    ensures
        final(d).type_ == old(d).type_,
        final(d).parent_inode == old(d).parent_inode,
        entries_view(final(d).entries@) == entries_view(old(d).entries@),
        final(d).data@.len() == (if old(d).data@.len() >= new_size { old(d).data@.len() as int } else { new_size as int }),
        forall|i: int| 0 <= i < old(d).data@.len() ==> final(d).data@[i] == old(d).data@[i],
        forall|i: int| old(d).data@.len() <= i < final(d).data@.len() ==> final(d).data@[i] == 0,
{
    let ghost d0 = d.data@;
    while d.data.len() < new_size
        invariant
            d.type_ == old(d).type_,
            d.parent_inode == old(d).parent_inode,
            entries_view(d.entries@) == entries_view(old(d).entries@),
            d0 == old(d).data@,
            d0.len() <= d.data@.len() <= (if d0.len() >= new_size { d0.len() as int } else { new_size as int }),
            forall|i: int| 0 <= i < d0.len() ==> d.data@[i] == d0[i],
            forall|i: int| d0.len() <= i < d.data@.len() ==> d.data@[i] == 0,
        decreases new_size - d.data@.len(),
    {
        d.data.push(0);
    }
}

impl Inode {
    /// Reads up to `len` bytes at `offset`: none past the end.
    pub fn read_at(&self, fs: &EasyFileSystem, offset: usize, len: usize) -> (r: Vec<u8>)
        ensures
            r@ == read_spec(fs.data_of(self.inode_id), offset as int, len as int),
    {
        let mut r: Vec<u8> = Vec::new();
        let id = self.inode_id as usize;
        if id >= fs.inodes.len() || fs.inodes[id].is_none() {
            return r;
        }
        let d = fs.inodes[id].as_ref().unwrap();
        let ghost data = fs.data_of(self.inode_id);
        assert(data == d.data@);
        let size = d.data.len();
        if offset >= size {
            return r;
        }
        let end = if len <= size - offset { offset + len } else { size };
        let mut i: usize = offset;
        while i < end
            invariant
                data == d.data@,
                size == data.len(),
                offset <= i <= end <= size,
                r@ == data.subrange(offset as int, i as int),
            decreases end - i,
        {
            r.push(d.data[i]);
            assert(r@ =~= data.subrange(offset as int, i + 1));
            i = i + 1;
        }
        r
    }

    /// Writes `buf` at `offset`, growing the inode (with zeros before
    /// `offset` when it lies past the end); returns the bytes written.
    pub fn write_at(&self, fs: &mut EasyFileSystem, offset: usize, buf: &[u8]) -> (n: usize)
        requires
            old(fs).node(self.inode_id).is_some(),
            offset + buf@.len() <= u32::MAX,
        ensures
            n == buf@.len(),
            final(fs).inodes@.len() == old(fs).inodes@.len(),
            final(fs)@ == old(fs)@.update(
                self.inode_id as int,
                Some(with_data(
                    old(fs).node(self.inode_id).unwrap(),
                    written(old(fs).data_of(self.inode_id), offset as int, buf@),
                )),
            ),
    {
        let id = self.inode_id;
        let mut d = fs.take_node(id);
        let ghost d0 = d.data@;
        let ghost v0 = d@;
        let end = offset + buf.len();
        increase_size(&mut d, end);
        let mut k: usize = 0;
        while k < buf.len()
            invariant
                d.type_ == v0.type_,
                d.parent_inode == v0.parent_inode,
                entries_view(d.entries@) == v0.entries,
                end == offset + buf@.len(),
                d.data@.len() == (if d0.len() >= end { d0.len() as int } else { end as int }),
                k <= buf@.len(),
                forall|i: int|
                    0 <= i < d.data@.len() ==> d.data@[i] == (if offset <= i < offset + k {
                        buf@[i - offset]
                    } else if i < d0.len() {
                        d0[i]
                    } else {
                        0
                    }),
            decreases buf@.len() - k,
        {
            d.data.set(offset + k, buf[k]);
            k = k + 1;
        }
        assert(d.data@ =~= written(d0, offset as int, buf@));
        fs.put_node(id, d);
        buf.len()
    }
}

/// Where component `c` leads from inode `cur`: `.` stays, `..` goes to
/// the recorded parent, any other name is looked up in the directory.
pub open spec fn resolve_spec(fs: EasyFileSystem, cur: u32, c: Seq<u8>) -> Option<u32> {
    if c == seq![DOT] {
        Some(cur)
    } else if c == seq![DOT, DOT] {
        Some(fs.parent_of(cur))
    } else {
        fs.find_spec(cur, c)
    }
}

/// Follows the components `cs` from `cur`, each from a directory.
pub open spec fn walk_from(fs: EasyFileSystem, cur: u32, cs: Seq<Seq<u8>>) -> Option<u32>
    decreases cs.len(),
{
    if cs.len() == 0 {
        Some(cur)
    } else if !fs.is_dir_spec(cur) {
        None
    } else {
        match resolve_spec(fs, cur, cs[0]) {
            Some(m) => walk_from(fs, m, cs.drop_first()),
            None => None,
        }
    }
}

/// The non-empty components of `path` (split at slashes).
pub open spec fn components(path: Seq<u8>) -> Seq<Seq<u8>> {
    nonempty(split_slash(path))
}

/// The inode that `path` names from `start`: the empty path, `/` and `.`
/// name `start`; leading slashes are skipped (the path is taken from
/// `start` all the same); every component but the first must be reached
/// from a directory, and a trailing slash asks for a directory.
pub open spec fn lookup_spec(fs: EasyFileSystem, start: u32, path: Seq<u8>) -> Option<u32> {
    let p = strip_leading_slashes(path);
    if path.len() == 0 || path == seq![SLASH] || path == seq![DOT] || p.len() == 0 {
        Some(start)
    } else {
        let cs = components(p);
        match resolve_spec(fs, start, cs[0]) {
            None => None,
            Some(m) => match walk_from(fs, m, cs.drop_first()) {
                None => None,
                Some(e) => if p.last() == SLASH && !fs.is_dir_spec(e) {
                    None
                } else {
                    Some(e)
                },
            },
        }
    }
}

proof fn lemma_split_first(s: Seq<u8>)
    requires
        s.len() > 0,
        s[0] != SLASH,
    ensures
        split_slash(s).len() >= 1,
        split_slash(s)[0].len() > 0,
    decreases s.len(),
{
    let p = s.drop_last();
    if p.len() == 0 {
        assert(split_slash(p) =~= seq![Seq::<u8>::empty()]);
    } else {
        lemma_split_first(p);
    }
}

proof fn lemma_nonempty_has(ps: Seq<Seq<u8>>, k: int)
    requires
        0 <= k < ps.len(),
        ps[k].len() > 0,
    ensures
        nonempty(ps).len() >= 1,
    decreases ps.len(),
{
    if k < ps.len() - 1 {
        lemma_nonempty_has(ps.drop_last(), k);
        lemma_nonempty_len_mono(ps);
    }
}

proof fn lemma_nonempty_len_mono(ps: Seq<Seq<u8>>)
    requires
        ps.len() > 0,
    ensures
        nonempty(ps).len() >= nonempty(ps.drop_last()).len(),
{
}

proof fn lemma_strip_leading(s: Seq<u8>, k: int)
    requires
        0 <= k <= s.len(),
        forall|j: int| 0 <= j < k ==> s[j] == SLASH,
        k == s.len() || s[k] != SLASH,
    ensures
        strip_leading_slashes(s) == s.subrange(k, s.len() as int),
    decreases k,
{
    if k == 0 {
        assert(s.subrange(0, s.len() as int) =~= s);
    } else {
        let t = s.drop_first();
        lemma_strip_leading(t, k - 1);
        assert(t.subrange(k - 1, t.len() as int) =~= s.subrange(k, s.len() as int));
    }
}

/// The non-empty components of `path[from..]`.
fn split_components(path: &[u8], from: usize) -> (r: Vec<Vec<u8>>)
    requires
        from <= path@.len(),
    ensures
        names_view(r@) == components(path@.subrange(from as int, path@.len() as int)),
{
    let ghost p = path@.subrange(from as int, path@.len() as int);
    let mut out: Vec<Vec<u8>> = Vec::new();
    let mut comp: Vec<u8> = Vec::new();
    let ghost mut done: Seq<Seq<u8>> = Seq::empty();
    let mut i: usize = from;
    assert(p.take(0) =~= Seq::<u8>::empty());
    assert(split_slash(Seq::<u8>::empty()) =~= done.push(comp@));
    assert(names_view(out@) =~= nonempty(done));
    while i < path.len()
        invariant
            from <= i <= path@.len(),
            p == path@.subrange(from as int, path@.len() as int),
            split_slash(p.take(i - from)) == done.push(comp@),
            names_view(out@) == nonempty(done),
        decreases path@.len() - i,
    {
        let b = path[i];
        let ghost prev = p.take(i - from);
        assert(p.take(i - from + 1).drop_last() =~= prev);
        assert(p.take(i - from + 1).last() == b);
        if b == SLASH {
            let ghost d0 = done;
            let ghost c0 = comp@;
            proof {
                done = done.push(c0);
                assert(done.drop_last() =~= d0);
            }
            let mut c: Vec<u8> = Vec::new();
            std::mem::swap(&mut c, &mut comp);
            assert(c@ == c0);
            assert(comp@ =~= Seq::<u8>::empty());
            assert(split_slash(p.take(i - from + 1)) =~= done.push(comp@));
            if c.len() > 0 {
                let ghost o0 = names_view(out@);
                out.push(c);
                assert(names_view(out@) =~= o0.push(c0));
            }
        } else {
            comp.push(b);
            proof {
                crate::syscall_fs::lemma_split_slash_nonempty(prev);
                assert(split_slash(p.take(i - from + 1)) =~= done.push(comp@));
            }
        }
        i = i + 1;
    }
    proof {
        assert(p.take(i - from) =~= p);
        assert(done.push(comp@).drop_last() =~= done);
    }
    if comp.len() > 0 {
        let ghost o0 = names_view(out@);
        let ghost c0 = comp@;
        out.push(comp);
        assert(names_view(out@) =~= o0.push(c0));
    }
    out
}

impl Inode {
    /// The inode that component `component` leads to from this one.
    fn resolve_component(&self, fs: &EasyFileSystem, component: &[u8]) -> (r: Option<Inode>)
        ensures
            r == (match resolve_spec(*fs, self.inode_id, component@) {
                Some(n) => Some(Inode { inode_id: n }),
                None => None::<Inode>,
            }),
    {
        if component.len() == 1 && component[0] == DOT {
            assert(component@ =~= seq![DOT]);
            return Some(Inode { inode_id: self.inode_id });
        }
        if component.len() == 2 && component[0] == DOT && component[1] == DOT {
            assert(component@ =~= seq![DOT, DOT]);
            let id = self.inode_id as usize;
            let parent_id = if id < fs.inodes.len() {
                match &fs.inodes[id] {
                    Some(d) => d.parent_inode,
                    None => 0,
                }
            } else {
                0
            };
            proof {
                if id < fs.inodes@.len() {
                    assert(fs@[id as int] == slot_view(fs.inodes@[id as int]));
                }
            }
            return Some(Inode { inode_id: parent_id });
        }
        proof {
            if component@ == seq![DOT] {
                assert(component@.len() == 1 && component@[0] == DOT);
            }
            if component@ == seq![DOT, DOT] {
                assert(component@.len() == 2 && component@[0] == DOT && component@[1] == DOT);
            }
        }
        self.find(fs, component)
    }

    /// The inode that `path` names from this one (see `lookup_spec`).
    pub fn lookup_path(&self, fs: &EasyFileSystem, path: &[u8]) -> (r: Option<Inode>)
        ensures
            r == (match lookup_spec(*fs, self.inode_id, path@) {
                Some(n) => Some(Inode { inode_id: n }),
                None => None::<Inode>,
            }),
    {
        let n = path.len();
        let is_slash = n == 1 && path[0] == SLASH;
        let is_dot = n == 1 && path[0] == DOT;
        proof {
            if n == 1 {
                if path@[0] == SLASH {
                    assert(path@ =~= seq![SLASH]);
                }
                if path@[0] == DOT {
                    assert(path@ =~= seq![DOT]);
                }
            }
            if path@ == seq![SLASH] || path@ == seq![DOT] {
                assert(n == 1);
            }
        }
        if n == 0 || is_slash || is_dot {
            return Some(Inode { inode_id: self.inode_id });
        }
        let mut k: usize = 0;
        while k < n && path[k] == SLASH
            invariant
                n == path@.len(),
                k <= n,
                forall|j: int| 0 <= j < k ==> path@[j] == SLASH,
            decreases n - k,
        {
            k = k + 1;
        }
        let ghost p = path@.subrange(k as int, n as int);
        proof {
            lemma_strip_leading(path@, k as int);
        }
        if k == n {
            return Some(Inode { inode_id: self.inode_id });
        }
        let comps = split_components(path, k);
        proof {
            lemma_split_first(p);
            lemma_nonempty_has(split_slash(p), 0);
        }
        let ghost cs = names_view(comps@);
        let first = match self.resolve_component(fs, comps[0].as_slice()) {
            Some(c) => c,
            None => return None,
        };
        let ghost goal = lookup_spec(*fs, self.inode_id, path@);
        assert(goal == (match walk_from(*fs, first.inode_id, cs.drop_first()) {
            None => None,
            Some(e) => if path@.last() == SLASH && !fs.is_dir_spec(e) { None } else { Some(e) },
        }));
        let mut cur = first;
        let mut i: usize = 1;
        assert(cs.subrange(1, cs.len() as int) =~= cs.drop_first());
        while i < comps.len()
            invariant
                cs == names_view(comps@),
                1 <= i <= cs.len(),
                walk_from(*fs, first.inode_id, cs.drop_first()) == walk_from(*fs, cur.inode_id, cs.subrange(i as int, cs.len() as int)),
                goal == lookup_spec(*fs, self.inode_id, path@),
                goal == (match walk_from(*fs, first.inode_id, cs.drop_first()) {
                    None => None,
                    Some(e) => if path@.last() == SLASH && !fs.is_dir_spec(e) { None } else { Some(e) },
                }),
            decreases cs.len() - i,
        {
            let ghost rest = cs.subrange(i as int, cs.len() as int);
            assert(rest.drop_first() =~= cs.subrange(i + 1, cs.len() as int));
            if !cur.is_dir(fs) {
                return None;
            }
            cur = match cur.resolve_component(fs, comps[i].as_slice()) {
                Some(c) => c,
                None => return None,
            };
            i = i + 1;
        }
        assert(cs.subrange(i as int, cs.len() as int) =~= Seq::<Seq<u8>>::empty());
        if path[n - 1] == SLASH && !cur.is_dir(fs) {
            return None;
        }
        Some(cur)
    }
}

impl Inode {
    /// Bytes held by this inode.
    pub fn size(&self, fs: &EasyFileSystem) -> (n: usize)
        ensures
            n == fs.data_of(self.inode_id).len(),
    {
        let id = self.inode_id as usize;
        if id < fs.inodes.len() {
            proof {
                assert(fs@[id as int] == slot_view(fs.inodes@[id as int]));
            }
            match &fs.inodes[id] {
                Some(d) => d.data.len(),
                None => 0,
            }
        } else {
            0
        }
    }
}

/// No two entries of `es` share a name.
pub open spec fn unique_names(es: Seq<(Seq<u8>, u32)>) -> bool {
    forall|i: int, j: int| 0 <= i < j < es.len() ==> (#[trigger] es[i]).0 != (#[trigger] es[j]).0
}

proof fn lemma_unique_push(es: Seq<(Seq<u8>, u32)>, x: (Seq<u8>, u32))
    requires
        unique_names(es),
        entry_index(es, x.0) < 0,
    ensures
        unique_names(es.push(x)),
{
    lemma_entry_index(es, x.0);
    let e = es.push(x);
    assert forall|i: int, j: int| 0 <= i < j < e.len() implies (#[trigger] e[i]).0 != (#[trigger] e[j]).0 by {
        if j == es.len() {
            assert(es[i].0 != x.0);
        } else {
            assert(e[i] == es[i] && e[j] == es[j]);
        }
    }
}

proof fn lemma_unique_remove(es: Seq<(Seq<u8>, u32)>, k: int)
    requires
        unique_names(es),
        0 <= k < es.len(),
    ensures
        unique_names(es.remove(k)),
        entry_index(es.remove(k), es[k].0) < 0,
{
    let e = es.remove(k);
    assert forall|i: int, j: int| 0 <= i < j < e.len() implies (#[trigger] e[i]).0 != (#[trigger] e[j]).0 by {
        let i0 = if i < k { i } else { i + 1 };
        let j0 = if j < k { j } else { j + 1 };
        assert(e[i] == es[i0] && e[j] == es[j0]);
        assert(es[i0].0 != es[j0].0);
    }
    lemma_entry_index(e, es[k].0);
    let f = entry_index(e, es[k].0);
    if f >= 0 {
        let f0 = if f < k { f } else { f + 1 };
        assert(e[f] == es[f0]);
        if f0 < k {
            assert(es[f0].0 != es[k].0);
        } else {
            assert(es[k].0 != es[f0].0);
        }
    }
}

proof fn lemma_unique_index(es: Seq<(Seq<u8>, u32)>, k: int)
    requires
        unique_names(es),
        0 <= k < es.len(),
    ensures
        entry_index(es, es[k].0) == k,
{
    lemma_entry_index(es, es[k].0);
    let f = entry_index(es, es[k].0);
    if f >= 0 && f < k {
        assert(es[f].0 != es[k].0);
    }
}

proof fn lemma_split_no_slash(s: Seq<u8>)
    requires
        forall|i: int| 0 <= i < s.len() ==> s[i] != SLASH,
    ensures
        split_slash(s) == seq![s],
    decreases s.len(),
{
    if s.len() > 0 {
        lemma_split_no_slash(s.drop_last());
        assert(s.drop_last().push(s.last()) =~= s);
    } else {
        assert(s =~= Seq::<u8>::empty());
    }
}

/// After `create_as(name, t)` in directory `dir` made inode `id`, the name
/// leads to `id`, which is a fresh inode of type `t` under `dir`.
pub proof fn lemma_find_after_create(
    fs0: EasyFileSystem,
    fs1: EasyFileSystem,
    dir: u32,
    name: Seq<u8>,
    t: DiskInodeType,
    id: u32,
)
    requires
        fs0.is_dir_spec(dir),
        fs0.find_spec(dir, name).is_none(),
        id == first_free(fs0@),
        fs1@ == placed(fs0@, id as int, fresh_inode(t, dir)).update(
            dir as int,
            Some(with_entries(fs0.node(dir).unwrap(), fs0.entries_of(dir).push((name, id)))),
        ),
    ensures
        fs1.find_spec(dir, name) == Some(id),
        fs1.node(id) == Some(fresh_inode(t, dir)),
        forall|n: u32| n != id && n != dir ==> #[trigger] fs1.node(n) == fs0.node(n),
        unique_names(fs0.entries_of(dir)) ==> unique_names(fs1.entries_of(dir)),
{
    lemma_first_free(fs0@);
    let es = fs0.entries_of(dir);
    lemma_entry_index_push(es, (name, id), name);
    if unique_names(es) {
        lemma_unique_push(es, (name, id));
    }
    assert(fs1.entries_of(dir) == es.push((name, id)));
    assert(id != dir);
}

/// Reading back the bytes just written at an offset gives them.
pub proof fn lemma_read_after_write(fs0: EasyFileSystem, fs1: EasyFileSystem, id: u32, offset: usize, buf: Seq<u8>)
    requires
        fs0.node(id).is_some(),
        fs1@ == fs0@.update(id as int, Some(with_data(fs0.node(id).unwrap(), written(fs0.data_of(id), offset as int, buf)))),
    ensures
        read_spec(fs1.data_of(id), offset as int, buf.len() as int) == buf,
        fs1.data_of(id).len() >= offset + buf.len(),
{
    let d = fs1.data_of(id);
    assert(d == written(fs0.data_of(id), offset as int, buf));
    if buf.len() > 0 {
        assert(d.subrange(offset as int, offset + buf.len()) =~= buf);
    } else {
        assert(read_spec(d, offset as int, 0) =~= buf);
    }
}

/// In a directory whose names are unique, once `unlink(name)` succeeds
/// the name is gone and the names stay unique.
pub proof fn lemma_unlink_removes_name(fs0: EasyFileSystem, fs1: EasyFileSystem, dir: u32, name: Seq<u8>, t: u32)
    requires
        unique_names(fs0.entries_of(dir)),
        unlink_target(fs0, dir, name) == Some(t),
        fs1@ == freed(fs0@, t).update(
            dir as int,
            Some(with_entries(fs0.node(dir).unwrap(), fs0.entries_of(dir).remove(entry_index(fs0.entries_of(dir), name)))),
        ),
    ensures
        fs1.find_spec(dir, name).is_none(),
        unique_names(fs1.entries_of(dir)),
        fs1.node(t).is_none() || t == dir,
{
    let es = fs0.entries_of(dir);
    lemma_entry_index(es, name);
    let k = entry_index(es, name);
    lemma_unique_remove(es, k);
    assert(fs1.entries_of(dir) == es.remove(k));
}

/// In a directory whose names are unique, after `rename(old, new)`
/// succeeds `new` leads where `old` led, `old` leads nowhere, and the
/// names stay unique.
pub proof fn lemma_rename_moves_name(fs0: EasyFileSystem, fs1: EasyFileSystem, dir: u32, old_name: Seq<u8>, new_name: Seq<u8>)
    requires
        unique_names(fs0.entries_of(dir)),
        rename_ok(fs0, dir, old_name, new_name),
        fs1@ == fs0@.update(
            dir as int,
            Some(with_entries(
                fs0.node(dir).unwrap(),
                fs0.entries_of(dir).push((new_name, fs0.find_spec(dir, old_name).unwrap())).remove(
                    entry_index(fs0.entries_of(dir), old_name),
                ),
            )),
        ),
    ensures
        fs1.find_spec(dir, new_name) == fs0.find_spec(dir, old_name),
        fs1.find_spec(dir, old_name).is_none(),
        unique_names(fs1.entries_of(dir)),
{
    let es = fs0.entries_of(dir);
    let target = fs0.find_spec(dir, old_name).unwrap();
    lemma_entry_index(es, old_name);
    lemma_entry_index(es, new_name);
    let k = entry_index(es, old_name);
    let e1 = es.push((new_name, target));
    lemma_unique_push(es, (new_name, target));
    assert(e1[k] == es[k]);
    lemma_unique_remove(e1, k);
    let e2 = e1.remove(k);
    assert(fs1.entries_of(dir) == e2);
    assert(e2[e2.len() - 1] == (new_name, target));
    lemma_unique_index(e2, e2.len() - 1);
}

/// Looking up a plain name (neither reserved nor holding a slash) is
/// finding it in the directory.
pub proof fn lemma_lookup_plain_name(fs: EasyFileSystem, dir: u32, name: Seq<u8>)
    requires
        name.len() > 0,
        !is_reserved(name),
        forall|i: int| 0 <= i < name.len() ==> name[i] != SLASH,
    ensures
        lookup_spec(fs, dir, name) == fs.find_spec(dir, name),
{
    assert(name != seq![SLASH]) by {
        if name == seq![SLASH] {
            assert(name[0] == SLASH);
        }
    }
    assert(strip_leading_slashes(name) == name);
    lemma_split_no_slash(name);
    assert(components(name) =~= seq![name]) by {
        assert(seq![name].drop_last() =~= Seq::<Seq<u8>>::empty());
        assert(nonempty(Seq::<Seq<u8>>::empty()) == Seq::<Seq<u8>>::empty());
        assert(seq![name].last() == name);
        assert(Seq::<Seq<u8>>::empty().push(name) =~= seq![name]);
    }
    assert(components(name).drop_first() =~= Seq::<Seq<u8>>::empty());
    if let Some(e) = fs.find_spec(dir, name) {
        assert(walk_from(fs, e, Seq::<Seq<u8>>::empty()) == Some(e));
    }
}

} // verus!
