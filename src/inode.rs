//! Files and directories on top of the block tree.

use vstd::prelude::*;
use crate::block::{md5_of, overlap_len, BlockType, IndirectBlock, MAX_DEPTH};
use crate::global::Global;
use crate::metadata::{Metadata, Size};
use crate::source::Source;
use crate::stored::{Codec, Stored, push_str};

verus! {

/// A file: a block tree with its content, and metadata.
#[derive(Debug)]
pub struct File {
    pub data: IndirectBlock,
    pub metadata: Metadata,
}

/// A directory: named entries, each a handle to a stored inode, and
/// metadata.
#[derive(Debug)]
pub struct Directory {
    pub children: Vec<(String, Stored)>,
    pub metadata: Metadata,
}

/// A file or a directory.
#[derive(Debug)]
pub enum InodeType {
    File(File),
    Directory(Directory),
}

impl File {
    pub fn to_enum(self) -> (r: InodeType)
        ensures
            r == InodeType::File(self),
    {
        InodeType::File(self)
    }

    /// A file holding `data`; its size is recorded in bytes.
    pub fn create<E: Source + Codec>(global: &Global, io: &mut E, data: &Vec<u8>) -> (r: Result<
        File,
        String,
    >)
        requires
            global.wf(),
        ensures
            r matches Ok(f) ==> f.data.built(global, data@, 0) && f.metadata.size == Size::Bytes(
                data@.len() as usize,
            ),
            global.buckets@.len() == 0 && data@.len() > 0 ==> r is Err,
            data@.len() == 0 ==> (r matches Ok(f) && f.data.blocks@.len() == 0
                && f.metadata.size == Size::Bytes(0)),
    {
        let size = data.len();
        let block = IndirectBlock::create(global, io, data, 0)?;
        let mut metadata = Metadata::new();
        metadata.size = Size::Bytes(size);
        Ok(File { data: block, metadata })
    }

    /// The whole content of the file: every byte of the range of its tree.
    pub fn get<E: Source + Codec>(&self, global: &Global, io: &mut E) -> (r: Result<Vec<u8>, String>)
        ensures
            self.data.blocks@.len() == 0 ==> (r matches Ok(v) && v@.len() == 0),
            r matches Ok(v) ==> v@.len() == overlap_len(
                self.data.spec_start(),
                self.data.spec_end(),
                self.data.spec_start(),
                self.data.spec_end(),
            ),
            r matches Ok(v) ==> self.data.read_digests(
                v@,
                self.data.spec_start(),
                self.data.spec_end(),
            ),
    {
        let range = self.data.range();
        self.data.get(global, io, range.0, range.1)
    }

    /// Reclaims the storage of the content.
    pub fn delete<E: Source + Codec>(&self, global: &Global, io: &mut E) -> (r: Result<(), String>) {
        self.data.delete(global, io)
    }
}

/// Round trip of a file, chunk by chunk: for a file made by `create` from
/// `data` and the bytes `v` that a successful `get` returned, `v` is as long
/// as `data`, and at the place of each Direct chunk of the file's tree `v`
/// holds bytes with the same MD5 digest as the bytes of `data` there.
pub proof fn lemma_file_round_trip(f: File, global: Global, data: Seq<u8>, v: Seq<u8>)
    requires
        f.data.built(&global, data, 0),
        v.len() == overlap_len(
            f.data.spec_start(),
            f.data.spec_end(),
            f.data.spec_start(),
            f.data.spec_end(),
        ),
        f.data.read_digests(v, f.data.spec_start(), f.data.spec_end()),
    ensures
        v.len() == data.len(),
        forall|k: int|
            0 <= k < f.data.blocks@.len() ==> (#[trigger] f.data.blocks@[k] matches BlockType::Direct(
                d,
            ) ==> md5_of(v.subrange(d.start as int, d.end as int)) == md5_of(
                data.subrange(d.start as int, d.end as int),
            )),
{
    assert forall|k: int|
        0 <= k < f.data.blocks@.len() implies (#[trigger] f.data.blocks@[k] matches BlockType::Direct(
            d,
        ) ==> md5_of(v.subrange(d.start as int, d.end as int)) == md5_of(
            data.subrange(d.start as int, d.end as int),
        )) by {
        assert(f.data.read_digest_at(k, v, f.data.spec_start(), f.data.spec_end()));
    }
}

impl Directory {
    /// Entry names are unique.
    pub open spec fn wf(&self) -> bool {
        forall|i: int, j: int|
            0 <= i < self.children@.len() && 0 <= j < self.children@.len() && i != j
                ==> #[trigger] self.children@[i].0@ != #[trigger] self.children@[j].0@
    }

    /// Whether an entry is called `name`.
    pub open spec fn has(&self, name: Seq<char>) -> bool {
        exists|i: int| 0 <= i < self.children@.len() && #[trigger] self.children@[i].0@ == name
    }

    /// Whether the entry called `name` holds `s`.
    pub open spec fn entry(&self, name: Seq<char>, s: Stored) -> bool {
        exists|i: int|
            0 <= i < self.children@.len() && #[trigger] self.children@[i].0@ == name
                && self.children@[i].1.same(s)
    }

    /// An empty directory.
    pub fn new() -> (r: Directory)
        ensures
            r.children@.len() == 0,
            r.wf(),
            r.metadata.size == Size::Empty,
            r.metadata.created == r.metadata.modified,
    {
        Directory { children: Vec::new(), metadata: Metadata::new() }
    }

    pub fn to_enum(self) -> (r: InodeType)
        ensures
            r == InodeType::Directory(self),
    {
        InodeType::Directory(self)
    }

    fn find(&self, name: &String) -> (r: Option<usize>)
        ensures
            r is None <==> !self.has(name@),
            r matches Some(i) ==> i < self.children@.len() && self.children@[i as int].0@
                == name@,
    {
        let mut i: usize = 0;
        while i < self.children.len()
            invariant
                i <= self.children@.len(),
                forall|k: int| 0 <= k < i ==> #[trigger] self.children@[k].0@ != name@,
            decreases self.children@.len() - i,
        {
            if self.children[i].0 == *name {
                return Some(i);
            }
            i = i + 1;
        }
        None
    }

    fn missing(name: &String) -> (r: String) {
        let mut msg = "File ".to_string();
        push_str(&mut msg, name.as_str());
        push_str(&mut msg, " does not exist");
        msg
    }

    fn taken(name: &String) -> (r: String) {
        let mut msg = "File ".to_string();
        push_str(&mut msg, name.as_str());
        push_str(&mut msg, " already exists");
        msg
    }

    /// The handle of the entry called `name`; an error when there is none.
    pub fn get(&self, name: &String) -> (r: Result<&Stored, String>)
        ensures
            r is Err <==> !self.has(name@),
            r matches Ok(s) ==> self.entry(name@, *s),
    {
        match self.find(name) {
            Some(i) => Ok(&self.children[i].1),
            None => Err(Directory::missing(name)),
        }
    }

    /// Entry names, in order.
    pub fn list(&self) -> (r: Vec<String>)
        ensures
            r@.len() == self.children@.len(),
            forall|i: int| 0 <= i < r@.len() ==> #[trigger] r@[i]@ == self.children@[i].0@,
    {
        let mut names: Vec<String> = Vec::new();
        let mut i: usize = 0;
        while i < self.children.len()
            invariant
                i <= self.children@.len(),
                names@.len() == i,
                forall|k: int| 0 <= k < i ==> #[trigger] names@[k]@ == self.children@[k].0@,
            decreases self.children@.len() - i,
        {
            names.push(self.children[i].0.clone());
            i = i + 1;
        }
        names
    }

    /// Removes the entry called `name` and hands back its handle; what it
    /// points to is left in storage. An error, changing nothing, when there
    /// is no such entry.
    pub fn unlink(&mut self, name: &String) -> (r: Result<Stored, String>)
        requires
            old(self).wf(),
        ensures
            final(self).wf(),
            r is Err <==> !old(self).has(name@),
            r is Err ==> final(self).children@ == old(self).children@,
            r matches Ok(s) ==> old(self).entry(name@, s),
            r is Ok ==> !final(self).has(name@),
            forall|k: Seq<char>, t: Stored|
                k != name@ ==> (#[trigger] final(self).entry(k, t) <==> old(self).entry(k, t)),
            final(self).metadata == old(self).metadata,
    {
        let ghost before = self.children@;
        match self.find(name) {
            None => Err(Directory::missing(name)),
            Some(i) => {
                let (_, stored) = self.children.remove(i);
                let ghost after = self.children@;
                assert forall|a: int, b: int|
                    0 <= a < after.len() && 0 <= b < after.len() && a != b
                        implies #[trigger] after[a].0@ != #[trigger] after[b].0@ by {
                    let a0 = if a < i { a } else { a + 1 };
                    let b0 = if b < i { b } else { b + 1 };
                    assert(after[a] == before[a0] && after[b] == before[b0]);
                }
                assert forall|k: int| 0 <= k < after.len() implies #[trigger] after[k].0@ != name@ by {
                    let k0 = if k < i { k } else { k + 1 };
                    assert(after[k] == before[k0]);
                }
                assert forall|k: Seq<char>, t: Stored| k != name@ implies (#[trigger] self.entry(k, t)
                    <==> old(self).entry(k, t)) by {
                    if self.entry(k, t) {
                        let a = choose|a: int|
                            0 <= a < after.len() && #[trigger] after[a].0@ == k && after[a].1.same(t);
                        let a0 = if a < i { a } else { a + 1 };
                        assert(after[a] == before[a0]);
                    }
                    if old(self).entry(k, t) {
                        let a0 = choose|a0: int|
                            0 <= a0 < before.len() && #[trigger] before[a0].0@ == k && before[a0].1.same(t);
                        assert(a0 != i);
                        let a = if a0 < i { a0 } else { a0 - 1 };
                        assert(after[a] == before[a0]);
                    }
                }
                assert(before[i as int].1 == stored);
                Ok(stored)
            },
        }
    }

    /// Attaches an existing handle under `name`; an error, changing nothing,
    /// when the name is taken. The size becomes the new number of entries.
    pub fn put(&mut self, name: &String, stored: Stored) -> (r: Result<(), String>)
        requires
            old(self).wf(),
        ensures
            final(self).wf(),
            r is Err <==> old(self).has(name@),
            r is Err ==> final(self).children@ == old(self).children@ && final(self).metadata
                == old(self).metadata,
            r is Ok ==> final(self).entry(name@, stored),
            forall|k: Seq<char>, t: Stored|
                k != name@ ==> (#[trigger] final(self).entry(k, t) <==> old(self).entry(k, t)),
            r is Ok ==> final(self).metadata.size == Size::Entries(final(self).children@.len() as usize),
    {
        if self.find(name).is_some() {
            return Err(Directory::taken(name));
        }
        let ghost before = self.children@;
        let ghost s = stored;
        self.children.push((name.clone(), stored));
        let n = self.children.len();
        self.metadata.modified(Size::Entries(n));
        let ghost after = self.children@;
        assert(after[before.len() as int].0@ == name@);
        assert(after[before.len() as int].1 == s);
        assert forall|a: int, b: int|
            0 <= a < after.len() && 0 <= b < after.len() && a != b
                implies #[trigger] after[a].0@ != #[trigger] after[b].0@ by {
            if a < before.len() {
                assert(after[a] == before[a]);
            }
            if b < before.len() {
                assert(after[b] == before[b]);
            }
        }
        assert forall|k: Seq<char>, t: Stored| k != name@ implies (#[trigger] self.entry(k, t)
            <==> old(self).entry(k, t)) by {
            if self.entry(k, t) {
                let a = choose|a: int| 0 <= a < after.len() && #[trigger] after[a].0@ == k && after[a].1.same(t);
                assert(a < before.len());
                assert(after[a] == before[a]);
            }
            if old(self).entry(k, t) {
                let a = choose|a: int| 0 <= a < before.len() && #[trigger] before[a].0@ == k && before[a].1.same(t);
                assert(after[a] == before[a]);
            }
        }
        assert(self.entry(name@, s));
        Ok(())
    }

    /// Stores `inode` and adds it under `name`; an error when the name is
    /// taken or the inode could not be stored.
    pub fn add<E: Source + Codec>(
        &mut self,
        global: &Global,
        io: &mut E,
        name: &String,
        inode: &InodeType,
    ) -> (r: Result<(), String>)
        requires
            old(self).wf(),
            global.wf(),
        ensures
            final(self).wf(),
            old(self).has(name@) ==> r is Err && final(self).children@ == old(self).children@
                && final(self).metadata == old(self).metadata,
            r is Ok ==> final(self).has(name@),
            r is Err ==> final(self).children@ == old(self).children@ && final(self).metadata
                == old(self).metadata,
            forall|k: Seq<char>, t: Stored|
                k != name@ ==> (#[trigger] final(self).entry(k, t) <==> old(self).entry(k, t)),
            r is Ok ==> final(self).metadata.size == Size::Entries(final(self).children@.len() as usize),
    {
        if self.find(name).is_some() {
            return Err(Directory::taken(name));
        }
        let bytes = io.encode_inode(inode)?;
        let stored = Stored::create(global, io, bytes)?;
        self.put(name, stored)
    }

    /// Removes the entry called `name` and reclaims what it points to; an
    /// error when there is no such entry. Storage errors are collected into
    /// one error; the entry is gone either way.
    pub fn remove<E: Source + Codec>(&mut self, global: &Global, io: &mut E, name: &String) -> (r:
        Result<(), String>)
        requires
            old(self).wf(),
        ensures
            final(self).wf(),
            !old(self).has(name@) ==> r is Err && final(self).children@ == old(self).children@,
            !final(self).has(name@),
            forall|k: Seq<char>, t: Stored|
                k != name@ ==> (#[trigger] final(self).entry(k, t) <==> old(self).entry(k, t)),
    {
        let stored = self.unlink(name)?;
        reclaim(global, io, &stored, MAX_DEPTH)
    }

    /// Reclaims every entry and what it points to; failures are collected
    /// into one error.
    pub fn delete_nested<E: Source + Codec>(&self, global: &Global, io: &mut E, fuel: usize) -> (r:
        Result<(), String>)
        decreases fuel, 0nat,
    {
        if self.children.len() == 0 {
            return Ok(());
        }
        if fuel == 0 {
            return Err("Directory tree nests too deeply".to_string());
        }
        let mut errors = String::new();
        let mut i: usize = 0;
        while i < self.children.len()
            invariant
                i <= self.children@.len(),
                fuel > 0,
            decreases self.children@.len() - i,
        {
            match reclaim(global, io, &self.children[i].1, fuel - 1) {
                Ok(()) => {},
                Err(e) => {
                    if errors.as_str().len() > 0 {
                        push_str(&mut errors, ", ");
                    }
                    push_str(&mut errors, e.as_str());
                },
            }
            i = i + 1;
        }
        if errors.as_str().len() == 0 {
            Ok(())
        } else {
            Err(errors)
        }
    }
}

/// Deletes the inode behind `stored`, then its blob.
fn reclaim<E: Source + Codec>(global: &Global, io: &mut E, stored: &Stored, fuel: usize) -> (r: Result<
    (),
    String,
>)
    decreases fuel, 2nat,
{
    let mut errors = String::new();
    match stored.get(global, io) {
        Ok(bytes) => match io.decode_inode(&bytes) {
            Ok(inode) => match inode.delete_nested(global, io, fuel) {
                Ok(()) => {},
                Err(e) => push_str(&mut errors, e.as_str()),
            },
            Err(e) => push_str(&mut errors, e.as_str()),
        },
        Err(e) => push_str(&mut errors, e.as_str()),
    }
    match stored.delete(global, io) {
        Ok(()) => {},
        Err(e) => {
            if errors.as_str().len() > 0 {
                push_str(&mut errors, ", ");
            }
            push_str(&mut errors, e.as_str());
        },
    }
    if errors.as_str().len() == 0 {
        Ok(())
    } else {
        Err(errors)
    }
}

impl InodeType {
    pub open spec fn spec_metadata(&self) -> Metadata {
        match self {
            InodeType::File(f) => f.metadata,
            InodeType::Directory(d) => d.metadata,
        }
    }

    /// The metadata of the file or directory.
    pub fn metadata(&self) -> (r: &Metadata)
        ensures
            *r == self.spec_metadata(),
    {
        match self {
            InodeType::File(f) => &f.metadata,
            InodeType::Directory(d) => &d.metadata,
        }
    }

    pub fn delete_nested<E: Source + Codec>(&self, global: &Global, io: &mut E, fuel: usize) -> (r:
        Result<(), String>)
        decreases fuel, 1nat,
    {
        match self {
            InodeType::File(f) => f.delete(global, io),
            InodeType::Directory(d) => d.delete_nested(global, io, fuel),
        }
    }

    /// Reclaims the storage of the file, or of everything in the directory.
    pub fn delete<E: Source + Codec>(&self, global: &Global, io: &mut E) -> (r: Result<(), String>) {
        self.delete_nested(global, io, MAX_DEPTH)
    }
}

} // verus!
