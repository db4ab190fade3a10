//! The block tree: Direct blocks hold one chunk in one or more buckets,
//! Indirect blocks list their children in order, and Stored blocks keep a
//! whole sub-tree in a blob of its own.

use vstd::prelude::*;
use crypto::digest::Digest;
use crate::global::{listed, Global};
use crate::source::Source;
use crate::stored::{bytes_eq, push_str, Codec, Stored};

verus! {

/// The MD5 digest of `b`.
pub uninterp spec fn md5_of(b: Seq<u8>) -> Seq<u8>;

/// Relies on crypto::md5::Md5 through crypto::digest::Digest: a 16-byte
/// digest that depends on the data alone.
#[verifier::external_body]
fn md5_digest(data: &[u8]) -> (r: Vec<u8>)
    ensures
        r@ == md5_of(data@),
        r@.len() == 16,
{
    let mut hasher = crypto::md5::Md5::new();
    hasher.input(data);
    let mut out = vec![0u8; 16];
    hasher.result(&mut out);
    out
}

/// How many bytes `[s, e)` and `[a, b)` share.
pub open spec fn overlap_len(s: nat, e: nat, a: nat, b: nat) -> nat {
    let lo = if a > s {
        a
    } else {
        s
    };
    let hi = if b < e {
        b
    } else {
        e
    };
    if lo < hi {
        (hi - lo) as nat
    } else {
        0
    }
}

/// Splitting a range in two splits what it shares with another range.
pub proof fn lemma_overlap_split(s: nat, m: nat, e: nat, a: nat, b: nat)
    requires
        s <= m <= e,
    ensures
        overlap_len(s, m, a, b) + overlap_len(m, e, a, b) == overlap_len(s, e, a, b),
{
}

/// How many levels of nesting an operation follows before it gives up; a
/// tree read back from storage could otherwise point into itself.
pub const MAX_DEPTH: usize = 1000000;

/// Replicas that a new Direct block asks for.
pub const DEFAULT_REDUNDANCY: usize = 1;

/// The bytes of `v` from `a` to `b`.
pub fn slice_of(v: &Vec<u8>, a: usize, b: usize) -> (r: Vec<u8>)
    requires
        a <= b <= v@.len(),
    ensures
        r@ == v@.subrange(a as int, b as int),
{
    let mut out: Vec<u8> = Vec::new();
    let mut i: usize = a;
    while i < b
        invariant
            a <= i <= b <= v@.len(),
            out@ == v@.subrange(a as int, i as int),
        decreases b - i,
    {
        out.push(v[i]);
        i = i + 1;
        assert(out@ =~= v@.subrange(a as int, i as int));
    }
    out
}

fn append_bytes(dst: &mut Vec<u8>, src: &Vec<u8>)
    ensures
        final(dst)@ == old(dst)@ + src@,
{
    let mut i: usize = 0;
    let ghost start = dst@;
    while i < src.len()
        invariant
            i <= src@.len(),
            dst@ == start + src@.subrange(0, i as int),
        decreases src@.len() - i,
    {
        dst.push(src[i]);
        i = i + 1;
        assert(dst@ =~= start + src@.subrange(0, i as int));
    }
    assert(src@.subrange(0, src@.len() as int) =~= src@);
}

fn join_error(errors: &mut String, e: &String)
    ensures
        old(errors)@.len() > 0 ==> final(errors)@.len() > 0,
        e@.len() > 0 ==> final(errors)@.len() > 0,
{
    if errors.as_str().len() > 0 {
        push_str(errors, ", ");
    }
    push_str(errors, e.as_str());
}

/// A leaf: one chunk of the stream, stored in each listed bucket.
#[derive(Debug)]
pub struct DirectBlock {
    /// First byte of the chunk in the stream.
    pub start: usize,
    /// One past its last byte.
    pub end: usize,
    /// Bucket name and descriptor of each replica, in read order.
    pub sources: Vec<(String, Vec<u8>)>,
    /// MD5 of the chunk.
    pub hash: Vec<u8>,
}

/// An ordered list of blocks covering consecutive ranges.
#[derive(Debug)]
pub struct IndirectBlock {
    pub blocks: Vec<BlockType>,
}

/// A sub-tree kept in a blob of its own; its range is kept alongside.
#[derive(Debug)]
pub struct StoredBlock {
    pub stored: Stored,
    pub start: usize,
    pub end: usize,
}

/// Any block of the tree.
#[derive(Debug)]
pub enum BlockType {
    Direct(DirectBlock),
    Indirect(IndirectBlock),
    Stored(StoredBlock),
}

impl BlockType {
    /// First byte covered.
    pub open spec fn spec_start(&self) -> nat
        decreases self,
    {
        match self {
            BlockType::Direct(d) => d.start as nat,
            BlockType::Stored(s) => s.start as nat,
            BlockType::Indirect(i) => if i.blocks@.len() == 0 {
                0
            } else {
                i.blocks@[0].spec_start()
            },
        }
    }

    /// One past the last byte covered.
    pub open spec fn spec_end(&self) -> nat
        decreases self,
    {
        match self {
            BlockType::Direct(d) => d.end as nat,
            BlockType::Stored(s) => s.end as nat,
            BlockType::Indirect(i) => if i.blocks@.len() == 0 {
                0
            } else {
                i.blocks@[i.blocks@.len() - 1].spec_end()
            },
        }
    }

    /// The extent `[start, end)` of the stream that this block covers.
    pub fn range(&self) -> (r: (usize, usize))
        ensures
            r.0 == self.spec_start(),
            r.1 == self.spec_end(),
        decreases self,
    {
        match self {
            BlockType::Direct(d) => (d.start, d.end),
            BlockType::Stored(s) => (s.start, s.end),
            BlockType::Indirect(i) => {
                let n = i.blocks.len();
                if n == 0 {
                    (0, 0)
                } else {
                    let first = i.blocks[0].range();
                    let last = i.blocks[n - 1].range();
                    (first.0, last.1)
                }
            },
        }
    }
}

impl IndirectBlock {
    pub open spec fn spec_start(&self) -> nat {
        BlockType::Indirect(*self).spec_start()
    }

    pub open spec fn spec_end(&self) -> nat {
        BlockType::Indirect(*self).spec_end()
    }

    /// The children cover consecutive, non-empty ranges, each starting where
    /// the one before it ends.
    pub open spec fn chained(&self) -> bool {
        &&& forall|i: int|
            0 <= i < self.blocks@.len() ==> #[trigger] self.blocks@[i].spec_start()
                < self.blocks@[i].spec_end()
        &&& forall|i: int|
            0 <= i < self.blocks@.len() - 1 ==> #[trigger] self.blocks@[i].spec_end()
                == self.blocks@[i + 1].spec_start()
    }

    /// Every child is Direct but the last, which may be Stored, at most `k`
    /// children are Direct, and a Stored child comes only after `k` Direct
    /// ones.
    pub open spec fn shaped(&self, k: nat) -> bool {
        let n = self.blocks@.len();
        &&& forall|i: int| 0 <= i < n - 1 ==> #[trigger] self.blocks@[i] is Direct
        &&& n > 0 ==> (self.blocks@[n - 1] is Direct || self.blocks@[n - 1] is Stored)
        &&& n <= k + 1
        &&& n == k + 1 ==> self.blocks@[n - 1] is Stored
        &&& n > 0 && self.blocks@[n - 1] is Stored ==> n == k + 1
    }

    /// Each Direct child's digest is that of the bytes of `data` it covers,
    /// `data` starting at `start` in the stream.
    pub open spec fn digests(&self, data: Seq<u8>, start: nat) -> bool {
        forall|i: int|
            0 <= i < self.blocks@.len() ==> (#[trigger] self.blocks@[i] matches BlockType::Direct(
                d,
            ) ==> start <= d.start && d.end <= start + data.len() && d.hash@ == md5_of(
                data.subrange(d.start - start, d.end - start),
            ))
    }

    /// The extent `[start, end)` of the stream that this block covers; empty
    /// at 0 without children.
    pub fn range(&self) -> (r: (usize, usize))
        ensures
            r.0 == self.spec_start(),
            r.1 == self.spec_end(),
            self.blocks@.len() == 0 ==> r == (0usize, 0usize),
    {
        let n = self.blocks.len();
        if n == 0 {
            (0, 0)
        } else {
            let first = self.blocks[0].range();
            let last = self.blocks[n - 1].range();
            (first.0, last.1)
        }
    }
}

impl DirectBlock {
    pub fn to_enum(self) -> (r: BlockType)
        ensures
            r == BlockType::Direct(self),
    {
        BlockType::Direct(self)
    }

    /// Whether `[a, b)` shares a byte with this block.
    pub open spec fn intersects(&self, a: nat, b: nat) -> bool {
        a < b && a < self.end && self.start < b
    }

    /// Offset in the chunk of the first byte of `[a, b)` that it holds.
    pub open spec fn lo(&self, a: nat) -> nat {
        if a > self.start {
            (a - self.start) as nat
        } else {
            0
        }
    }

    /// Offset in the chunk one past the last byte of `[a, b)` that it holds.
    pub open spec fn hi(&self, b: nat) -> nat {
        if b < self.end {
            (b - self.start) as nat
        } else {
            (self.end - self.start) as nat
        }
    }

    /// Whether `blob` is an intact copy of the chunk.
    pub open spec fn intact(&self, blob: Seq<u8>) -> bool {
        blob.len() == self.end - self.start && md5_of(blob) == self.hash@
    }

    /// The part of `[a, b)` held by this block, taken from a replica's
    /// bytes; none when the replica is damaged.
    pub fn extract(&self, blob: &Vec<u8>, a: usize, b: usize) -> (r: Option<Vec<u8>>)
        requires
            self.start <= self.end,
            self.intersects(a as nat, b as nat),
        ensures
            r is Some <==> self.intact(blob@),
            r matches Some(v) ==> v@ == blob@.subrange(
                self.lo(a as nat) as int,
                self.hi(b as nat) as int,
            ),
            r matches Some(v) ==> (a <= self.start && self.end <= b ==> md5_of(v@) == self.hash@),
    {
        if blob.len() != self.end - self.start {
            return None;
        }
        let digest = md5_digest(blob.as_slice());
        if !bytes_eq(&digest, &self.hash) {
            return None;
        }
        let lo = if a > self.start {
            a - self.start
        } else {
            0
        };
        let hi = if b < self.end {
            b - self.start
        } else {
            self.end - self.start
        };
        proof {
            if a <= self.start && self.end <= b {
                assert(blob@.subrange(lo as int, hi as int) =~= blob@);
            }
        }
        Some(slice_of(blob, lo, hi))
    }

    /// The bytes of `[a, b)` that this block holds, from the first replica
    /// that reads back intact; empty when the block holds none of them.
    pub fn get<S: Source>(&self, global: &Global, io: &mut S, a: usize, b: usize) -> (r: Result<
        Vec<u8>,
        String,
    >)
        requires
            self.start <= self.end,
        ensures
            !self.intersects(a as nat, b as nat) ==> (r matches Ok(v) && v@.len() == 0),
            self.intersects(a as nat, b as nat) ==> (r matches Ok(v) ==> exists|blob: Seq<u8>|
                self.intact(blob) && v@ == blob.subrange(
                    self.lo(a as nat) as int,
                    self.hi(b as nat) as int,
                )),
            self.intersects(a as nat, b as nat) && self.sources@.len() == 0 ==> r is Err,
            r matches Ok(v) ==> (a <= self.start && self.end <= b && self.start < self.end
                ==> md5_of(v@) == self.hash@),
            self.intersects(a as nat, b as nat) ==> (r matches Ok(v) ==> exists|reads: Seq<
                Option<Seq<u8>>,
            >|
                reads.len() <= self.sources@.len() && #[trigger] self.first_intact(
                    reads,
                    a as nat,
                    b as nat,
                ) == Some(v@)),
            self.intersects(a as nat, b as nat) ==> (r is Err ==> exists|reads: Seq<
                Option<Seq<u8>>,
            >|
                reads.len() == self.sources@.len() && #[trigger] self.first_intact(
                    reads,
                    a as nat,
                    b as nat,
                ) is None),
    {
        if !(a < b && a < self.end && self.start < b) {
            return Ok(Vec::new());
        }
        let ghost mut reads: Seq<Option<Seq<u8>>> = Seq::empty();
        let mut i: usize = 0;
        while i < self.sources.len()
            invariant
                self.start <= self.end,
                self.intersects(a as nat, b as nat),
                i <= self.sources@.len(),
                reads.len() == i,
                self.first_intact(reads, a as nat, b as nat) is None,
            decreases self.sources@.len() - i,
        {
            let name = &self.sources[i].0;
            let descriptor = &self.sources[i].1;
            i = i + 1;
            let bucket = match global.get_bucket(name) {
                Some(bucket) => bucket,
                None => {
                    proof {
                        self.lemma_first_intact_push(reads, None, a as nat, b as nat);
                        reads = reads.push(None);
                    }
                    continue;
                },
            };
            let blob = match bucket.get(io, name, descriptor) {
                Ok(blob) => blob,
                Err(_) => {
                    proof {
                        self.lemma_first_intact_push(reads, None, a as nat, b as nat);
                        reads = reads.push(None);
                    }
                    continue;
                },
            };
            proof {
                self.lemma_first_intact_push(reads, Some(blob@), a as nat, b as nat);
                reads = reads.push(Some(blob@));
            }
            match self.extract(&blob, a, b) {
                Some(v) => return Ok(v),
                None => continue,
            }
        }
        Err("Data unrecoverable: no replica is intact".to_string())
    }

    /// What reading the replicas in order gives, from their outcomes (none
    /// for a replica that could not be read): the requested part of the
    /// first intact one; none if no replica is intact.
    pub open spec fn first_intact(&self, reads: Seq<Option<Seq<u8>>>, a: nat, b: nat) -> Option<
        Seq<u8>,
    >
        decreases reads.len(),
    {
        if reads.len() == 0 {
            None
        } else if reads[0] is Some && self.intact(reads[0]->Some_0) {
            Some(reads[0]->Some_0.subrange(self.lo(a) as int, self.hi(b) as int))
        } else {
            self.first_intact(reads.drop_first(), a, b)
        }
    }

    proof fn lemma_first_intact_push(&self, reads: Seq<Option<Seq<u8>>>, x: Option<Seq<u8>>, a: nat, b: nat)
        requires
            self.first_intact(reads, a, b) is None,
        ensures
            self.first_intact(reads.push(x), a, b) == (if x is Some && self.intact(x->Some_0) {
                Some(x->Some_0.subrange(self.lo(a) as int, self.hi(b) as int))
            } else {
                None
            }),
        decreases reads.len(),
    {
        if reads.len() > 0 {
            assert(reads.push(x).drop_first() =~= reads.drop_first().push(x));
            assert(reads.push(x)[0] == reads[0]);
            self.lemma_first_intact_push(reads.drop_first(), x, a, b);
        } else {
            assert(reads.push(x).drop_first() =~= Seq::<Option<Seq<u8>>>::empty());
            assert(reads.push(x)[0] == x);
            assert(self.first_intact(Seq::<Option<Seq<u8>>>::empty(), a, b) is None);
        }
    }
}


impl DirectBlock {
    /// Every replica names a configured bucket that takes the whole chunk.
    pub open spec fn placed(&self, global: &Global) -> bool {
        forall|j: int|
            0 <= j < self.sources@.len() ==> exists|i: int|
                0 <= i < global.buckets@.len() && #[trigger] global.buckets@[i].0@
                    == (#[trigger] self.sources@[j]).0@ && global.buckets@[i].1.spec_max_size()
                    >= self.end - self.start
    }

    /// The chunk is as long as the bucket of the first replica takes, or
    /// reaches `limit`, whichever comes first.
    #[verifier::opaque]
    pub open spec fn fills(&self, global: &Global, limit: nat) -> bool {
        exists|i: int|
            0 <= i < global.buckets@.len() && #[trigger] global.buckets@[i].0@
                == self.sources@[0].0@ && self.end - self.start == if limit - self.start
                < global.buckets@[i].1.spec_max_size() {
                limit - self.start
            } else {
                global.buckets@[i].1.spec_max_size() as int
            }
    }

    /// A chunk of at least one byte, at least one replica in a bucket that
    /// takes it, and a 16-byte digest.
    pub open spec fn wf(&self, global: &Global) -> bool {
        &&& self.start < self.end
        &&& self.sources@.len() >= 1
        &&& self.placed(global)
        &&& self.hash@.len() == 16
    }

    /// Writes the head of `data` to a first bucket: one chosen at random,
    /// then, while writing fails, others not tried yet. The head is as long
    /// as the bucket takes. Hands back the bucket name, the descriptor and
    /// the head's length.
    fn place_first<S: Source>(global: &Global, io: &mut S, data: &Vec<u8>) -> (r: Result<
        (String, Vec<u8>, usize),
        String,
    >)
        requires
            global.wf(),
        ensures
            data@.len() == 0 ==> r is Err,
            global.buckets@.len() == 0 ==> r is Err,
            r matches Ok(p) ==> p.2 > 0 && exists|i: int|
                0 <= i < global.buckets@.len() && #[trigger] global.buckets@[i].0@ == p.0@
                    && p.2 == (if data@.len() < global.buckets@[i].1.spec_max_size() {
                    data@.len() as int
                } else {
                    global.buckets@[i].1.spec_max_size() as int
                }),
    {
        let mut tried: Vec<String> = Vec::new();
        let mut last = "No buckets found".to_string();
        let mut attempts: usize = 0;
        while attempts < global.buckets.len()
            invariant
                global.wf(),
            decreases global.buckets@.len() - attempts,
        {
            attempts = attempts + 1;
            let pick = if tried.len() == 0 {
                global.random_bucket()
            } else {
                global.next_bucket(1, &tried)
            };
            let name = match pick {
                Some(name) => name,
                None => break,
            };
            tried.push(name.clone());
            let bucket = match global.get_bucket(&name) {
                Some(bucket) => bucket,
                None => continue,
            };
            let max = bucket.max_size();
            let len = if data.len() < max {
                data.len()
            } else {
                max
            };
            if len == 0 {
                last = "Data is empty".to_string();
                continue;
            }
            let descriptor = match bucket.create(io, &name) {
                Ok(d) => d,
                Err(e) => {
                    last = e;
                    continue;
                },
            };
            match bucket.put(io, &name, &descriptor, slice_of(data, 0, len)) {
                Ok(()) => {
                    return Ok((name, descriptor, len));
                },
                Err(e) => {
                    let _ = bucket.delete(io, &name, &descriptor);
                    last = e;
                },
            }
        }
        Err(last)
    }

    /// Stores the head of `data` as a new block starting at `start` in the
    /// stream: the head is as long as the first bucket that accepts the
    /// write takes, and is written to up to `redundancy` buckets that take
    /// it, none twice. A replica whose write fails is deleted again and left
    /// out; the call fails only when no bucket accepts the first replica. The
    /// caller advances by the length of the new block's range.
    pub fn create<S: Source>(
        global: &Global,
        io: &mut S,
        data: &Vec<u8>,
        start: usize,
        redundancy: usize,
    ) -> (r: Result<DirectBlock, String>)
        requires
            global.wf(),
            start + data@.len() <= usize::MAX,
        ensures
            data@.len() == 0 ==> r is Err,
            global.buckets@.len() == 0 ==> r is Err,
            r matches Ok(b) ==> {
                &&& b.wf(global)
                &&& b.start == start
                &&& b.end <= start + data@.len()
                &&& b.hash@ == md5_of(data@.subrange(0, b.end - start))
                &&& b.sources@.len() <= if redundancy > 1 {
                    redundancy as int
                } else {
                    1
                }
                &&& forall|j: int, k: int|
                    0 <= j < k < b.sources@.len() ==> #[trigger] b.sources@[j].0@
                        != #[trigger] b.sources@[k].0@
                &&& b.fills(global, (start + data@.len()) as nat)
                &&& exists|i: int|
                    0 <= i < global.buckets@.len() && #[trigger] global.buckets@[i].0@
                        == b.sources@[0].0@ && b.end - start == if data@.len()
                        < global.buckets@[i].1.spec_max_size() {
                        data@.len() as int
                    } else {
                        global.buckets@[i].1.spec_max_size() as int
                    }
            },
    {
        let (first, descriptor, len) = DirectBlock::place_first(global, io, data)?;
        let bucket = match global.get_bucket(&first) {
            Some(bucket) => bucket,
            None => return Err("Bucket not found".to_string()),
        };
        let max = bucket.max_size();
        let ghost first_index = choose|i: int|
            0 <= i < global.buckets@.len() && #[trigger] global.buckets@[i].0@ == first@
                && global.buckets@[i].1 == *bucket;
        proof {
            let j = choose|j: int|
                0 <= j < global.buckets@.len() && #[trigger] global.buckets@[j].0@ == first@
                    && len == (if data@.len() < global.buckets@[j].1.spec_max_size() {
                    data@.len() as int
                } else {
                    global.buckets@[j].1.spec_max_size() as int
                });
            if j != first_index {
                assert(global.buckets@[j].0@ != global.buckets@[first_index].0@);
            }
        }
        let chunk = slice_of(data, 0, len);
        let mut chosen: Vec<String> = Vec::new();
        chosen.push(first.clone());
        let mut sources: Vec<(String, Vec<u8>)> = Vec::new();
        sources.push((first, descriptor));
        assert(chosen@[0]@ == sources@[0].0@);
        let mut attempts: usize = 0;
        while sources.len() < redundancy && attempts < global.buckets.len()
            invariant
                global.wf(),
                1 <= sources@.len(),
                redundancy > 1 ==> sources@.len() <= redundancy,
                redundancy <= 1 ==> sources@.len() == 1,
                chunk@.len() == len,
                len == (if data@.len() < max { data@.len() } else { max as nat }),
                0 <= first_index < global.buckets@.len(),
                global.buckets@[first_index].0@ == sources@[0].0@,
                global.buckets@[first_index].1.spec_max_size() == max,
                len <= max,
                forall|j: int|
                    0 <= j < sources@.len() ==> exists|i: int|
                        0 <= i < global.buckets@.len() && #[trigger] global.buckets@[i].0@
                            == (#[trigger] sources@[j]).0@
                            && global.buckets@[i].1.spec_max_size() >= len,
                forall|j: int|
                    0 <= j < sources@.len() ==> listed(chosen@, (#[trigger] sources@[j]).0@),
                forall|j: int, k: int|
                    0 <= j < k < sources@.len() ==> #[trigger] sources@[j].0@
                        != #[trigger] sources@[k].0@,
            decreases global.buckets@.len() - attempts,
        {
            attempts = attempts + 1;
            let name = match global.next_bucket(max, &chosen) {
                Some(name) => name,
                None => break,
            };
            assert(!listed(chosen@, name@));
            let ghost chosen_before = chosen@;
            chosen.push(name.clone());
            assert(chosen@[chosen@.len() - 1]@ == name@);
            assert forall|j: int| 0 <= j < sources@.len() implies listed(
                chosen@,
                (#[trigger] sources@[j]).0@,
            ) by {
                let k = choose|k: int|
                    0 <= k < chosen_before.len() && #[trigger] chosen_before[k]@ == sources@[j].0@;
                assert(chosen@[k] == chosen_before[k]);
            }
            let other = match global.get_bucket(&name) {
                Some(b) => b,
                None => continue,
            };
            let d = match other.create(io, &name) {
                Ok(d) => d,
                Err(_) => continue,
            };
            match other.put(io, &name, &d, slice_of(&chunk, 0, len)) {
                Ok(()) => {
                    let ghost before = sources@;
                    assert forall|j: int| 0 <= j < before.len() implies before[j].0@ != name@ by {
                        assert(listed(chosen_before, before[j].0@));
                    }
                    sources.push((name, d));
                    assert forall|j: int| 0 <= j < sources@.len() implies listed(
                        chosen@,
                        (#[trigger] sources@[j]).0@,
                    ) by {
                        if j < before.len() {
                            assert(sources@[j] == before[j]);
                        } else {
                            assert(chosen@[chosen@.len() - 1]@ == sources@[j].0@);
                        }
                    }
                    assert forall|j: int, k: int|
                        0 <= j < k < sources@.len() implies #[trigger] sources@[j].0@
                            != #[trigger] sources@[k].0@ by {
                        assert(sources@[j] == before[j]);
                        if k < before.len() {
                            assert(sources@[k] == before[k]);
                        }
                    }
                    assert forall|j: int| 0 <= j < sources@.len() implies exists|i: int|
                        0 <= i < global.buckets@.len() && #[trigger] global.buckets@[i].0@
                            == (#[trigger] sources@[j]).0@
                            && global.buckets@[i].1.spec_max_size() >= len by {
                        if j < before.len() {
                            assert(sources@[j] == before[j]);
                        }
                    }
                },
                Err(_) => {
                    let _ = other.delete(io, &name, &d);
                },
            }
        }
        let hash = md5_digest(chunk.as_slice());
        let block = DirectBlock { start, end: start + len, sources, hash };
        assert(block.placed(global));
        proof {
            reveal(DirectBlock::fills);
            assert(global.buckets@[first_index].0@ == block.sources@[0].0@);
        }
        assert(global.buckets@[first_index].0@ == block.sources@[0].0@);
        Ok(block)
    }

    /// Replaces the chunk with `data`, of the same length, in every replica;
    /// fails, changing nothing, when the length differs or no replica could
    /// be written. The digest then describes `data`.
    pub fn put<S: Source>(&mut self, global: &Global, io: &mut S, data: &Vec<u8>) -> (r: Result<
        (),
        String,
    >)
        requires
            old(self).start <= old(self).end,
        ensures
            final(self).start == old(self).start,
            final(self).end == old(self).end,
            final(self).sources == old(self).sources,
            data@.len() != old(self).end - old(self).start ==> r is Err,
            old(self).sources@.len() == 0 ==> r is Err,
            r is Ok ==> final(self).hash@ == md5_of(data@),
            r is Err ==> final(self).hash == old(self).hash,
    {
        if data.len() != self.end - self.start {
            return Err("Data does not match the block's range".to_string());
        }
        let mut written: usize = 0;
        let mut i: usize = 0;
        while i < self.sources.len()
            invariant
                i <= self.sources@.len(),
                written <= i,
            decreases self.sources@.len() - i,
        {
            let name = &self.sources[i].0;
            let descriptor = &self.sources[i].1;
            i = i + 1;
            let bucket = match global.get_bucket(name) {
                Some(bucket) => bucket,
                None => continue,
            };
            match bucket.put(io, name, descriptor, slice_of(data, 0, data.len())) {
                Ok(()) => written = written + 1,
                Err(_) => {},
            }
        }
        if written == 0 {
            return Err("Could not write any replica".to_string());
        }
        proof {
            assert(data@.subrange(0, data@.len() as int) =~= data@);
        }
        self.hash = md5_digest(data.as_slice());
        Ok(())
    }

    /// Deletes every replica; failures are ignored.
    pub fn delete<S: Source>(&self, global: &Global, io: &mut S) {
        let mut i: usize = 0;
        while i < self.sources.len()
            invariant
                i <= self.sources@.len(),
            decreases self.sources@.len() - i,
        {
            let name = &self.sources[i].0;
            let descriptor = &self.sources[i].1;
            i = i + 1;
            match global.get_bucket(name) {
                Some(bucket) => {
                    let _ = bucket.delete(io, name, descriptor);
                },
                None => {},
            }
        }
    }
}


/// What a write of `data` at `a` leaves in `b`: if it is a Direct block
/// lying whole inside `[a, a + data.len())`, its digest is that of the bytes
/// of `data` it covers.
pub open spec fn holds_written(b: BlockType, data: Seq<u8>, a: nat) -> bool {
    b matches BlockType::Direct(d) ==> (a <= d.start && d.end <= a + data.len() && d.start < d.end
        ==> d.hash@ == md5_of(data.subrange(d.start - a, d.end - a)))
}

pub open spec fn max_nat(x: nat, y: nat) -> nat {
    if x < y {
        y
    } else {
        x
    }
}

/// The range of `new`, the block `old` after a write of `[a, t)`: a Direct
/// block keeps its range; an Indirect block with children, or a Stored
/// block, written from no later than its end keeps its start and ends at the
/// later of its old end and `t`; an Indirect block without children covers
/// `[a, t)` after a non-empty write.
pub open spec fn kept_range(old: BlockType, new: BlockType, a: nat, t: nat) -> bool {
    match old {
        BlockType::Direct(_) => new.spec_start() == old.spec_start() && new.spec_end()
            == old.spec_end(),
        BlockType::Indirect(i) => range_after(
            i.blocks@.len() > 0,
            old.spec_start(),
            old.spec_end(),
            new.spec_start(),
            new.spec_end(),
            a,
            t,
        ),
        BlockType::Stored(_) => a <= old.spec_end() ==> new.spec_start() == old.spec_start()
            && new.spec_end() == max_nat(old.spec_end(), t),
    }
}

/// The range `[ns, ne)` of an Indirect block after a write of `[a, t)`,
/// given its range `[os, oe)` before: written from no later than its end, a
/// block with children keeps its start and ends at the later of its old end
/// and `t`; a block without children covers `[a, t)` after a non-empty write.
pub open spec fn range_after(had: bool, os: nat, oe: nat, ns: nat, ne: nat, a: nat, t: nat) -> bool {
    if had {
        a <= oe ==> ns == os && ne == max_nat(oe, t)
    } else {
        a < t ==> ns == a && ne == t
    }
}

/// `cur` with the bytes from `at` on replaced by `part`.
pub open spec fn spliced(cur: Seq<u8>, at: int, part: Seq<u8>) -> Seq<u8> {
    cur.subrange(0, at) + part + cur.subrange(at + part.len(), cur.len() as int)
}

/// `cur` with the bytes from `at` on replaced by `part`.
pub fn splice(cur: &Vec<u8>, at: usize, part: &Vec<u8>) -> (r: Vec<u8>)
    requires
        at + part@.len() <= cur@.len(),
    ensures
        r@ == spliced(cur@, at as int, part@),
{
    let n = cur.len();
    let after = at + part.len();
    let mut out = slice_of(cur, 0, at);
    append_bytes(&mut out, part);
    append_bytes(&mut out, &slice_of(cur, after, cur.len()));
    out
}

impl BlockType {
    /// Whether `[a, b)` shares a byte with the range of this block.
    pub open spec fn overlaps(&self, a: nat, b: nat) -> bool {
        a < b && a < self.spec_end() && self.spec_start() < b
    }

    pub fn get_nested<E: Source + Codec>(
        &self,
        global: &Global,
        io: &mut E,
        a: usize,
        b: usize,
        fuel: usize,
    ) -> (r: Result<Vec<u8>, String>)
        ensures
            self matches BlockType::Direct(d) ==> (d.start <= d.end && !d.intersects(
                a as nat,
                b as nat,
            ) ==> (r matches Ok(v) && v@.len() == 0)),
            self matches BlockType::Direct(d) ==> (d.start <= d.end && d.intersects(
                a as nat,
                b as nat,
            ) ==> (r matches Ok(v) ==> exists|blob: Seq<u8>|
                d.intact(blob) && v@ == blob.subrange(
                    d.lo(a as nat) as int,
                    d.hi(b as nat) as int,
                ))),
            self matches BlockType::Indirect(i) ==> (i.blocks@.len() == 0 ==> (r matches Ok(v)
                && v@.len() == 0)),
            !self.overlaps(a as nat, b as nat) ==> (r matches Ok(v) && v@.len() == 0),
            self is Stored && fuel == 0 && self.overlaps(a as nat, b as nat) ==> r is Err,
            r matches Ok(v) ==> v@.len() == overlap_len(
                self.spec_start(),
                self.spec_end(),
                a as nat,
                b as nat,
            ),
            self matches BlockType::Direct(d) ==> (r matches Ok(v) ==> (a <= d.start && d.end <= b
                && d.start < d.end ==> md5_of(v@) == d.hash@)),
        decreases fuel, 1nat,
    {
        let (start, end) = self.range();
        if !(a < b && a < end && start < b) {
            return Ok(Vec::new());
        }
        match self {
            BlockType::Direct(d) => {
                if d.start > d.end {
                    return Err("Malformed block: range ends before it starts".to_string());
                }
                d.get(global, io, a, b)
            },
            BlockType::Indirect(i) => i.get_nested(global, io, a, b, fuel),
            BlockType::Stored(s) => s.get_nested(global, io, a, b, fuel),
        }
    }

    pub fn delete_nested<E: Source + Codec>(&self, global: &Global, io: &mut E, fuel: usize) -> (r:
        Result<(), String>)
        ensures
            self is Direct ==> r is Ok,
        decreases fuel, 1nat,
    {
        match self {
            BlockType::Direct(d) => {
                d.delete(global, io);
                Ok(())
            },
            BlockType::Indirect(i) => i.delete_nested(global, io, fuel),
            BlockType::Stored(s) => s.delete_nested(global, io, fuel),
        }
    }

    pub fn put_owned<E: Source + Codec>(
        self,
        global: &Global,
        io: &mut E,
        data: &Vec<u8>,
        a: usize,
        fuel: usize,
    ) -> (r: (BlockType, Result<(), String>))
        requires
            global.wf(),
            a + data@.len() <= usize::MAX,
        ensures
            self is Direct ==> r.0 is Direct,
            self is Indirect ==> r.0 is Indirect,
            self is Stored ==> r.0 is Stored,
            self matches BlockType::Direct(d) ==> (r.0 matches BlockType::Direct(n) && n.start
                == d.start && n.end == d.end && n.sources == d.sources),
            r.1 is Ok ==> holds_written(r.0, data@, a as nat),
            r.1 is Ok ==> (r.0 matches BlockType::Indirect(i) ==> i.written(data@, a as nat)),
            self matches BlockType::Direct(d) ==> (d.start <= d.end && !d.intersects(
                a as nat,
                (a + data@.len()) as nat,
            ) ==> r.1 is Ok && r.0 == self),
            r.1 is Ok ==> kept_range(self, r.0, a as nat, (a + data@.len()) as nat),
            self matches BlockType::Direct(d) ==> (r.1 is Ok && d.start <= d.end && d.intersects(
                a as nat,
                (a + data@.len()) as nat,
            ) && !(a <= d.start && d.end <= a + data@.len()) ==> (r.0 matches BlockType::Direct(n)
                && exists|blob: Seq<u8>|
                d.intact(blob) && n.hash@ == md5_of(
                    spliced(
                        blob,
                        d.lo(a as nat) as int,
                        data@.subrange(d.start + d.lo(a as nat) - a, d.start + d.hi((a + data@.len()) as nat) - a),
                    ),
                ))),
        decreases fuel, 1nat,
    {
        match self {
            BlockType::Direct(d) => {
                let ghost old_d = d;
                let (d, r) = d.put_owned(global, io, data, a);
                assert(BlockType::Direct(d).spec_start() == d.start);
                assert(BlockType::Direct(d).spec_end() == d.end);
                assert(BlockType::Direct(old_d).spec_start() == old_d.start);
                assert(BlockType::Direct(old_d).spec_end() == old_d.end);
                (BlockType::Direct(d), r)
            },
            BlockType::Indirect(i) => {
                let (i, r) = i.put_owned(global, io, data, a, fuel);
                (BlockType::Indirect(i), r)
            },
            BlockType::Stored(s) => {
                let (s, r) = s.put_owned(global, io, data, a, fuel);
                (BlockType::Stored(s), r)
            },
        }
    }

    /// The bytes of `[a, b)` held by this block, in order: as many as the
    /// block's range shares with `[a, b)`; nothing, without any I/O, when
    /// the two do not meet. A sub-tree read back from storage whose ranges
    /// do not fit together is an error.
    pub fn get<E: Source + Codec>(&self, global: &Global, io: &mut E, a: usize, b: usize) -> (r:
        Result<Vec<u8>, String>)
        ensures
            !self.overlaps(a as nat, b as nat) ==> (r matches Ok(v) && v@.len() == 0),
            r matches Ok(v) ==> v@.len() == overlap_len(
                self.spec_start(),
                self.spec_end(),
                a as nat,
                b as nat,
            ),
            self matches BlockType::Indirect(i) ==> (i.blocks@.len() == 0 ==> (r matches Ok(v)
                && v@.len() == 0)),
    {
        self.get_nested(global, io, a, b, MAX_DEPTH)
    }

    /// Overwrites `[a, b)` with `data`, growing the tree at its end where the
    /// range reaches past it; fails when `data` is not as long as the range.
    /// On success every Direct block at the top of the tree that lies whole
    /// inside `[a, b)` carries the digest of the bytes of `data` it covers, a
    /// Direct block written in part carries the digest of its old chunk with
    /// the written part spliced in, and the range is as `kept_range` says: a
    /// write inside the range keeps it.
    pub fn put<E: Source + Codec>(
        &mut self,
        global: &Global,
        io: &mut E,
        data: &Vec<u8>,
        a: usize,
        b: usize,
    ) -> (r: Result<(), String>)
        requires
            global.wf(),
        ensures
            (a > b || b - a != data@.len()) ==> r is Err && *final(self) == *old(self),
            *old(self) matches BlockType::Direct(d) ==> (a <= b && b - a == data@.len() && d.start
                <= d.end && !d.intersects(
                a as nat,
                b as nat,
            ) ==> r is Ok && *final(self) == *old(self)),
            *old(self) is Direct ==> *final(self) is Direct,
            *old(self) is Indirect ==> *final(self) is Indirect,
            *old(self) is Stored ==> *final(self) is Stored,
            r is Ok ==> holds_written(*final(self), data@, a as nat),
            r is Ok ==> (*final(self) matches BlockType::Indirect(i) ==> i.written(data@, a as nat)),
            r is Ok ==> kept_range(*old(self), *final(self), a as nat, b as nat),
            *old(self) matches BlockType::Direct(d) ==> (r is Ok && d.start <= d.end && d.intersects(
                a as nat,
                b as nat,
            ) && !(a <= d.start && d.end <= b) ==> (*final(self) matches BlockType::Direct(n)
                && exists|blob: Seq<u8>|
                d.intact(blob) && n.hash@ == md5_of(
                    spliced(
                        blob,
                        d.lo(a as nat) as int,
                        data@.subrange(d.start + d.lo(a as nat) - a, d.start + d.hi(b as nat) - a),
                    ),
                ))),
    {
        if a > b || b - a != data.len() {
            return Err("Data does not match the range".to_string());
        }
        let mut taken = BlockType::Indirect(IndirectBlock { blocks: Vec::new() });
        core::mem::swap(self, &mut taken);
        let (block, r) = taken.put_owned(global, io, data, a, MAX_DEPTH);
        *self = block;
        r
    }

    /// Reclaims all storage of this block and of the blocks below it;
    /// failures are collected into one error.
    pub fn delete<E: Source + Codec>(&self, global: &Global, io: &mut E) -> (r: Result<
        (),
        String,
    >)
        ensures
            self is Direct ==> r is Ok,
    {
        self.delete_nested(global, io, MAX_DEPTH)
    }

    /// A new tree holding `data` from `start` on in the stream.
    pub fn create<E: Source + Codec>(global: &Global, io: &mut E, data: &Vec<u8>, start: usize) -> (r:
        Result<BlockType, String>)
        requires
            global.wf(),
            start + data@.len() <= usize::MAX,
        ensures
            r matches Ok(b) ==> (b matches BlockType::Indirect(i) && i.built(global, data@, start as nat)),
            data@.len() == 0 ==> (r matches Ok(b) && b matches BlockType::Indirect(i) && i.blocks@.len() == 0),
    {
        match IndirectBlock::create(global, io, data, start) {
            Ok(i) => Ok(BlockType::Indirect(i)),
            Err(e) => Err(e),
        }
    }
}

impl DirectBlock {
    fn put_owned<E: Source + Codec>(self, global: &Global, io: &mut E, data: &Vec<u8>, a: usize) -> (r: (
        DirectBlock,
        Result<(), String>,
    ))
        requires
            a + data@.len() <= usize::MAX,
        ensures
            r.0.start == self.start,
            r.0.end == self.end,
            r.0.sources == self.sources,
            r.1 is Ok ==> holds_written(BlockType::Direct(r.0), data@, a as nat),
            self.start <= self.end && !self.intersects(a as nat, (a + data@.len()) as nat) ==> r.1 is Ok
                && r.0 == self,
            r.1 is Ok && self.start <= self.end && self.intersects(a as nat, (a + data@.len()) as nat)
                && !(a <= self.start && self.end <= a + data@.len()) ==> exists|blob: Seq<u8>|
                self.intact(blob) && r.0.hash@ == md5_of(
                    spliced(
                        blob,
                        self.lo(a as nat) as int,
                        data@.subrange(
                            self.start + self.lo(a as nat) - a,
                            self.start + self.hi((a + data@.len()) as nat) - a,
                        ),
                    ),
                ),
    {
        let mut this = self;
        if this.start > this.end {
            return (this, Err("Malformed block: range ends before it starts".to_string()));
        }
        let end = a + data.len();
        let lo = if a > this.start { a } else { this.start };
        let hi = if end < this.end { end } else { this.end };
        if lo >= hi {
            return (this, Ok(()));
        }
        if lo == this.start && hi == this.end {
            let chunk = slice_of(data, lo - a, hi - a);
            let r = this.put(global, io, &chunk);
            return (this, r);
        }
        let current = match this.get(global, io, this.start, this.end) {
            Ok(v) => v,
            Err(e) => return (this, Err(e)),
        };
        if current.len() != this.end - this.start {
            return (this, Err("Data unrecoverable: no replica is intact".to_string()));
        }
        let ghost blob = choose|blob: Seq<u8>|
            this.intact(blob) && current@ == blob.subrange(
                this.lo(this.start as nat) as int,
                this.hi(this.end as nat) as int,
            );
        proof {
            assert(current@ =~= blob);
        }
        let chunk = splice(&current, lo - this.start, &slice_of(data, lo - a, hi - a));
        let r = this.put(global, io, &chunk);
        (this, r)
    }
}

impl IndirectBlock {
    pub fn to_enum(self) -> (r: BlockType)
        ensures
            r == BlockType::Indirect(self),
    {
        BlockType::Indirect(self)
    }

    /// What `create` promises of a tree for `data` placed at `start`:
    /// consecutive children that cover exactly `[start, start + len)` (no
    /// children for no data), at most `direct_block_count` Direct children
    /// followed by at most one Stored child, and Direct children that are
    /// well formed and carry the digests of the bytes they cover.
    pub open spec fn built(&self, global: &Global, data: Seq<u8>, start: nat) -> bool {
        &&& self.chained()
        &&& self.shaped(global.direct_block_count as nat)
        &&& self.digests(data, start)
        &&& data.len() == 0 ==> self.blocks@.len() == 0
        &&& data.len() > 0 ==> self.blocks@.len() > 0 && self.spec_start() == start
            && self.spec_end() == start + data.len()
        &&& forall|i: int|
            0 <= i < self.blocks@.len() ==> (#[trigger] self.blocks@[i] matches BlockType::Direct(
                d,
            ) ==> d.wf(global) && d.fills(global, start + data.len()))
    }

    /// Builds a tree for `data` placed at `start`: Direct children, each as
    /// large as its bucket takes, up to `direct_block_count` of them, then
    /// one Stored child holding a tree for the rest. On failure every child
    /// made so far is deleted again.
    #[verifier::rlimit(100)]
    pub fn create<E: Source + Codec>(global: &Global, io: &mut E, data: &Vec<u8>, start: usize) -> (r:
        Result<IndirectBlock, String>)
        requires
            global.wf(),
            start + data@.len() <= usize::MAX,
        ensures
            r matches Ok(i) ==> i.built(global, data@, start as nat),
            data@.len() == 0 ==> (r matches Ok(i) && i.blocks@.len() == 0),
            global.direct_block_count == 0 && data@.len() > 0 ==> r is Err,
            global.buckets@.len() == 0 && data@.len() > 0 ==> r is Err,
        decreases data@.len(), 0nat,
    {
        let len = data.len();
        if len > 0 && global.direct_block_count == 0 {
            return Err("direct_block_count must be positive".to_string());
        }
        let mut blocks: Vec<BlockType> = Vec::new();
        let mut cursor: usize = 0;
        while cursor < len && blocks.len() < global.direct_block_count
            invariant
                global.wf(),
                len == data@.len(),
                start + len <= usize::MAX,
                cursor <= len,
                blocks@.len() <= global.direct_block_count,
                len > 0 ==> global.direct_block_count > 0,
                blocks@.len() == 0 <==> cursor == 0,
                global.buckets@.len() == 0 ==> blocks@.len() == 0,
                forall|k: int| 0 <= k < blocks@.len() ==> #[trigger] blocks@[k] is Direct,
                forall|k: int|
                    0 <= k < blocks@.len() ==> (#[trigger] blocks@[k] matches BlockType::Direct(d)
                        ==> d.wf(global) && d.fills(global, (start + len) as nat) && start <= d.start && d.end <= start + cursor
                        && d.hash@ == md5_of(data@.subrange(d.start - start, d.end - start))),
                forall|k: int|
                    0 <= k < blocks@.len() ==> #[trigger] blocks@[k].spec_start()
                        < blocks@[k].spec_end(),
                forall|k: int|
                    0 <= k < blocks@.len() - 1 ==> #[trigger] blocks@[k].spec_end()
                        == blocks@[k + 1].spec_start(),
                blocks@.len() > 0 ==> blocks@[0].spec_start() == start,
                blocks@.len() > 0 ==> blocks@[blocks@.len() - 1].spec_end() == start + cursor,
            decreases len - cursor,
        {
            let rest = slice_of(data, cursor, len);
            match DirectBlock::create(global, io, &rest, start + cursor, DEFAULT_REDUNDANCY) {
                Ok(d) => {
                    let ghost before = blocks@;
                    let taken = d.end - d.start;
                    proof {
                        assert(rest@.subrange(0, taken as int) =~= data@.subrange(
                            cursor as int,
                            cursor + taken,
                        ));
                    }
                    blocks.push(BlockType::Direct(d));
                    cursor = cursor + taken;
                    assert forall|k: int| 0 <= k < blocks@.len() - 1 implies #[trigger] blocks@[k].spec_end()
                        == blocks@[k + 1].spec_start() by {
                        if k < before.len() - 1 {
                            assert(blocks@[k] == before[k] && blocks@[k + 1] == before[k + 1]);
                        }
                    }
                    assert forall|k: int|
                        0 <= k < blocks@.len() implies (#[trigger] blocks@[k] matches BlockType::Direct(
                            d,
                        ) ==> d.wf(global) && d.fills(global, (start + len) as nat) && start <= d.start && d.end <= start + cursor
                        && d.hash@ == md5_of(data@.subrange(d.start - start, d.end - start))) by {
                        if k < before.len() {
                            assert(blocks@[k] == before[k]);
                        }
                    }
                },
                Err(e) => {
                    IndirectBlock::discard(global, io, &blocks);
                    return Err(e);
                },
            }
        }
        if cursor < len {
            let rest = slice_of(data, cursor, len);
            match StoredBlock::create(global, io, &rest, start + cursor) {
                Ok(sb) => {
                    let ghost before = blocks@;
                    blocks.push(BlockType::Stored(sb));
                    assert forall|k: int| 0 <= k < blocks@.len() - 1 implies #[trigger] blocks@[k].spec_end()
                        == blocks@[k + 1].spec_start() by {
                        if k < before.len() - 1 {
                            assert(blocks@[k] == before[k] && blocks@[k + 1] == before[k + 1]);
                        }
                    }
                    assert forall|k: int| 0 <= k < blocks@.len() implies #[trigger] blocks@[k].spec_start()
                        < blocks@[k].spec_end() by {
                        if k < before.len() {
                            assert(blocks@[k] == before[k]);
                        }
                    }
                    assert forall|k: int| 0 <= k < blocks@.len() - 1 implies #[trigger] blocks@[k] is Direct by {
                        assert(blocks@[k] == before[k]);
                    }
                    assert forall|k: int|
                        0 <= k < blocks@.len() implies (#[trigger] blocks@[k] matches BlockType::Direct(
                            d,
                        ) ==> d.wf(global) && d.fills(global, (start + len) as nat) && start <= d.start
                        && d.end <= start + len && d.hash@ == md5_of(
                            data@.subrange(d.start - start, d.end - start),
                        )) by {
                        if k < before.len() {
                            assert(blocks@[k] == before[k]);
                        }
                    }
                    proof {
                        if before.len() > 0 {
                            assert(blocks@[0] == before[0]);
                        }
                    }
                },
                Err(e) => {
                    IndirectBlock::discard(global, io, &blocks);
                    return Err(e);
                },
            }
        }
        let block = IndirectBlock { blocks };
        assert(block.chained());
        assert(block.shaped(global.direct_block_count as nat));
        assert(block.digests(data@, start as nat));
        assert(data@.len() == 0 ==> block.blocks@.len() == 0);
        proof {
            if data@.len() > 0 {
                assert(block.blocks@.len() > 0);
                assert(block.spec_start() == block.blocks@[0].spec_start());
                assert(block.spec_end() == block.blocks@[block.blocks@.len() - 1].spec_end());
            }
        }
        assert(data@.len() > 0 ==> block.blocks@.len() > 0 && block.spec_start() == start
            && block.spec_end() == start + data@.len());
        assert(forall|i: int|
            0 <= i < block.blocks@.len() ==> (#[trigger] block.blocks@[i] matches BlockType::Direct(
                d,
            ) ==> d.wf(global) && d.fills(global, (start + data@.len()) as nat)));
        Ok(block)
    }

    fn discard<E: Source + Codec>(global: &Global, io: &mut E, blocks: &Vec<BlockType>) {
        let mut i: usize = 0;
        while i < blocks.len()
            invariant
                i <= blocks@.len(),
            decreases blocks@.len() - i,
        {
            let _ = blocks[i].delete_nested(global, io, MAX_DEPTH);
            i = i + 1;
        }
    }

    /// Whether the children cover consecutive, non-empty ranges.
    pub fn is_chained(&self) -> (r: bool)
        ensures
            r == self.chained(),
    {
        let n = self.blocks.len();
        let mut i: usize = 0;
        while i < n
            invariant
                n == self.blocks@.len(),
                i <= n,
                forall|k: int| 0 <= k < i ==> #[trigger] self.blocks@[k].spec_start()
                    < self.blocks@[k].spec_end(),
                forall|k: int| 0 <= k < i && k < n - 1 ==> #[trigger] self.blocks@[k].spec_end()
                    == self.blocks@[k + 1].spec_start(),
            decreases n - i,
        {
            let (s, e) = self.blocks[i].range();
            if s >= e {
                return false;
            }
            if i + 1 < n {
                let next = self.blocks[i + 1].range();
                if e != next.0 {
                    return false;
                }
            }
            i = i + 1;
        }
        true
    }

    #[verifier::rlimit(100)]
    pub fn get_nested<E: Source + Codec>(
        &self,
        global: &Global,
        io: &mut E,
        a: usize,
        b: usize,
        fuel: usize,
    ) -> (r: Result<Vec<u8>, String>)
        ensures
            self.blocks@.len() == 0 ==> (r matches Ok(v) && v@.len() == 0),
            r matches Ok(v) ==> v@.len() == overlap_len(
                self.spec_start(),
                self.spec_end(),
                a as nat,
                b as nat,
            ),
            r matches Ok(v) ==> self.read_digests(v@, a as nat, b as nat),
            self.chained() && !BlockType::Indirect(*self).overlaps(a as nat, b as nat) ==> (r matches Ok(
                v,
            ) && v@.len() == 0),
        decreases fuel, 0nat,
    {
        let mut out: Vec<u8> = Vec::new();
        if self.blocks.len() == 0 {
            return Ok(out);
        }
        if !self.is_chained() {
            return Err("Malformed block: children do not cover consecutive ranges".to_string());
        }
        let (start, end) = self.range();
        if !(a < b && a < end && start < b) {
            proof {
                assert forall|k: int| 0 <= k < self.blocks@.len() implies #[trigger] self.read_digest_at(
                    k,
                    out@,
                    a as nat,
                    b as nat,
                ) by {
                    lemma_chain_start(self.blocks@, k);
                    lemma_chain_end(self.blocks@, k);
                }
            }
            return Ok(out);
        }
        if fuel == 0 {
            return Err("Block tree nests too deeply".to_string());
        }
        let n = self.blocks.len();
        let mut i: usize = 0;
        while i < n
            invariant
                n == self.blocks@.len(),
                n > 0,
                i <= n,
                fuel > 0,
                self.chained(),
                BlockType::Indirect(*self).overlaps(a as nat, b as nat),
                i == 0 ==> out@.len() == 0,
                i > 0 ==> out@.len() == overlap_len(
                    self.blocks@[0].spec_start(),
                    self.blocks@[i - 1].spec_end(),
                    a as nat,
                    b as nat,
                ),
                forall|k: int| 0 <= k < i ==> #[trigger] self.read_digest_at(k, out@, a as nat, b as nat),
            decreases n - i,
        {
            let part = self.blocks[i].get_nested(global, io, a, b, fuel - 1)?;
            let ghost prev = out@;
            proof {
                if i > 0 {
                    assert(self.blocks@[i - 1].spec_end() == self.blocks@[i as int].spec_start());
                    lemma_chain_start(self.blocks@, i as int);
                    lemma_overlap_split(
                        self.blocks@[0].spec_start(),
                        self.blocks@[i as int].spec_start(),
                        self.blocks@[i as int].spec_end(),
                        a as nat,
                        b as nat,
                    );
                }
            }
            append_bytes(&mut out, &part);
            proof {
                let s0 = self.blocks@[0].spec_start();
                lemma_chain_start(self.blocks@, i as int);
                assert(prev.len() == overlap_len(s0, self.blocks@[i as int].spec_start(), a as nat, b as nat)) by {
                    if i == 0 {
                    } else {
                        assert(self.blocks@[i - 1].spec_end() == self.blocks@[i as int].spec_start());
                    }
                }
                assert forall|k: int| 0 <= k < i + 1 implies #[trigger] self.read_digest_at(
                    k,
                    out@,
                    a as nat,
                    b as nat,
                ) by {
                    if k < i {
                        assert(self.read_digest_at(k, prev, a as nat, b as nat));
                        lemma_chain_order(self.blocks@, k, i as int);
                        lemma_chain_start(self.blocks@, k);
                        lemma_overlap_split(
                            s0,
                            self.blocks@[k].spec_end(),
                            self.blocks@[i as int].spec_start(),
                            a as nat,
                            b as nat,
                        );
                        lemma_chain_start(self.blocks@, k);
                        lemma_overlap_split(
                            s0,
                            self.blocks@[k].spec_start(),
                            self.blocks@[k].spec_end(),
                            a as nat,
                            b as nat,
                        );
                        let lo = overlap_len(s0, self.blocks@[k].spec_start(), a as nat, b as nat);
                        let hi = overlap_len(s0, self.blocks@[k].spec_end(), a as nat, b as nat);
                        assert(out@.subrange(lo as int, hi as int) =~= prev.subrange(lo as int, hi as int));
                    } else {
                        lemma_overlap_split(
                            s0,
                            self.blocks@[k].spec_start(),
                            self.blocks@[k].spec_end(),
                            a as nat,
                            b as nat,
                        );
                        let lo = overlap_len(s0, self.blocks@[k].spec_start(), a as nat, b as nat);
                        let hi = overlap_len(s0, self.blocks@[k].spec_end(), a as nat, b as nat);
                        assert(out@.subrange(lo as int, hi as int) =~= part@);
                    }
                }
            }
            i = i + 1;
        }
        Ok(out)
    }

    /// What a read of `[a, b)` returned as `v` shows of child `k`: if it is
    /// a Direct block that `[a, b)` covers whole, its bytes in `v` hash to its
    /// digest.
    pub open spec fn read_digest_at(&self, k: int, v: Seq<u8>, a: nat, b: nat) -> bool {
        self.blocks@[k] matches BlockType::Direct(d) ==> (a <= d.start && d.end <= b ==> md5_of(
            v.subrange(
                overlap_len(self.spec_start(), d.start as nat, a, b) as int,
                overlap_len(self.spec_start(), d.end as nat, a, b) as int,
            ),
        ) == d.hash@)
    }

    /// What a write of `data` at `a` leaves in every child.
    pub open spec fn written(&self, data: Seq<u8>, a: nat) -> bool {
        forall|k: int| 0 <= k < self.blocks@.len() ==> #[trigger] holds_written(self.blocks@[k], data, a)
    }

    /// `read_digest_at` for every child.
    pub open spec fn read_digests(&self, v: Seq<u8>, a: nat, b: nat) -> bool {
        forall|k: int| 0 <= k < self.blocks@.len() ==> #[trigger] self.read_digest_at(k, v, a, b)
    }

    /// The bytes of `[a, b)` held by this block, in order: as many as its
    /// range shares with `[a, b)`; empty without children. Every Direct
    /// child that `[a, b)` covers whole reads back with its digest.
    pub fn get<E: Source + Codec>(&self, global: &Global, io: &mut E, a: usize, b: usize) -> (r:
        Result<Vec<u8>, String>)
        ensures
            self.blocks@.len() == 0 ==> (r matches Ok(v) && v@.len() == 0),
            r matches Ok(v) ==> v@.len() == overlap_len(
                self.spec_start(),
                self.spec_end(),
                a as nat,
                b as nat,
            ),
            r matches Ok(v) ==> self.read_digests(v@, a as nat, b as nat),
            self.chained() && !BlockType::Indirect(*self).overlaps(a as nat, b as nat) ==> (r matches Ok(
                v,
            ) && v@.len() == 0),
    {
        self.get_nested(global, io, a, b, MAX_DEPTH)
    }

    pub fn delete_nested<E: Source + Codec>(&self, global: &Global, io: &mut E, fuel: usize) -> (r:
        Result<(), String>)
        ensures
            self.blocks@.len() == 0 ==> r is Ok,
            fuel > 0 && (forall|k: int| 0 <= k < self.blocks@.len() ==> #[trigger] self.blocks@[k] is Direct)
                ==> r is Ok,
        decreases fuel, 0nat,
    {
        if self.blocks.len() == 0 {
            return Ok(());
        }
        if fuel == 0 {
            return Err("Block tree nests too deeply".to_string());
        }
        let mut errors = String::new();
        let mut i: usize = 0;
        while i < self.blocks.len()
            invariant
                i <= self.blocks@.len(),
                fuel > 0,
                (forall|k: int| 0 <= k < self.blocks@.len() ==> #[trigger] self.blocks@[k] is Direct)
                    ==> errors@.len() == 0,
            decreases self.blocks@.len() - i,
        {
            match self.blocks[i].delete_nested(global, io, fuel - 1) {
                Ok(()) => {},
                Err(e) => join_error(&mut errors, &e),
            }
            i = i + 1;
        }
        if errors.as_str().is_empty() {
            Ok(())
        } else {
            Err(errors)
        }
    }

    /// Reclaims the storage of every child; failures are collected into one
    /// error.
    pub fn delete<E: Source + Codec>(&self, global: &Global, io: &mut E) -> (r: Result<(), String>)
        ensures
            self.blocks@.len() == 0 ==> r is Ok,
            (forall|k: int| 0 <= k < self.blocks@.len() ==> #[trigger] self.blocks@[k] is Direct)
                ==> r is Ok,
    {
        self.delete_nested(global, io, MAX_DEPTH)
    }

    /// Writes `data` at `a` into the children, then grows the tree where the
    /// write reaches past its end. A child before the last one is handed only
    /// the part of the write inside its own range, so it never grows.
    pub fn put_owned<E: Source + Codec>(
        self,
        global: &Global,
        io: &mut E,
        data: &Vec<u8>,
        a: usize,
        fuel: usize,
    ) -> (r: (IndirectBlock, Result<(), String>))
        requires
            global.wf(),
            a + data@.len() <= usize::MAX,
        ensures
            r.1 is Ok ==> r.0.written(data@, a as nat),
            r.1 is Ok ==> kept_range(
                BlockType::Indirect(self),
                BlockType::Indirect(r.0),
                a as nat,
                (a + data@.len()) as nat,
            ),
        decreases fuel, 0nat,
    {
        if fuel == 0 {
            return (self, Err("Block tree nests too deeply".to_string()));
        }
        let ghost orig = self.blocks@;
        let old_range = self.range();
        let n0 = self.blocks.len();
        let target = a + data.len();
        let mut rest = self.blocks;
        let mut done: Vec<BlockType> = Vec::new();
        let mut failure: Option<String> = None;
        while rest.len() > 1
            invariant
                global.wf(),
                a + data@.len() <= usize::MAX,
                target == a + data@.len(),
                fuel > 0,
                n0 == orig.len(),
                done@.len() + rest@.len() == n0,
                rest@ == orig.subrange(done@.len() as int, n0 as int),
                failure is None ==> forall|k: int|
                    0 <= k < done@.len() ==> #[trigger] holds_written(done@[k], data@, a as nat),
            decreases rest@.len(),
        {
            let ghost k0 = done@.len() as int;
            let ghost before = done@;
            let child = rest.remove(0);
            assert(child == orig[k0]);
            if failure.is_some() {
                done.push(child);
            } else {
                let (cs, ce) = child.range();
                let lo = if a > cs { a } else { cs };
                let hi = if target < ce { target } else { ce };
                if lo >= hi {
                    proof {
                        match &child {
                            BlockType::Direct(d) => {
                                if a <= d.start && d.end <= target && d.start < d.end {
                                    assert(false);
                                }
                            },
                            _ => {},
                        }
                    }
                    done.push(child);
                } else {
                    let sub = slice_of(data, lo - a, hi - a);
                    let ghost old_child = child;
                    let (child, r) = child.put_owned(global, io, &sub, lo, fuel - 1);
                    proof {
                        if r is Ok {
                            match &child {
                                BlockType::Direct(d) => {
                                    if a <= d.start && d.end <= target && d.start < d.end {
                                        assert(lo == d.start && hi == d.end);
                                        assert(sub@.subrange(d.start - lo, d.end - lo) =~= data@.subrange(
                                            d.start - a,
                                            d.end - a,
                                        ));
                                    }
                                },
                                _ => {},
                            }
                        }
                    }
                    done.push(child);
                    match r {
                        Ok(()) => {},
                        Err(e) => failure = Some(e),
                    }
                }
            }
            proof {
                if failure is None {
                    assert forall|k: int| 0 <= k < done@.len() implies #[trigger] holds_written(
                        done@[k],
                        data@,
                        a as nat,
                    ) by {
                        if k < before.len() {
                            assert(done@[k] == before[k]);
                        }
                    }
                }
                assert(rest@ =~= orig.subrange(done@.len() as int, n0 as int));
            }
        }
        let ghost front = done@;
        if rest.len() == 1 {
            let child = rest.remove(0);
            assert(child == orig[n0 - 1]);
            if failure.is_some() {
                done.push(child);
            } else {
                let (child, r) = child.put_owned(global, io, data, a, fuel - 1);
                done.push(child);
                match r {
                    Ok(()) => {},
                    Err(e) => failure = Some(e),
                }
            }
            proof {
                if failure is None {
                    assert forall|k: int| 0 <= k < done@.len() implies #[trigger] holds_written(
                        done@[k],
                        data@,
                        a as nat,
                    ) by {
                        if k < front.len() {
                            assert(done@[k] == front[k]);
                        }
                    }
                }
            }
        }
        match failure {
            Some(e) => return (IndirectBlock { blocks: done }, Err(e)),
            None => {},
        }
        // `done` now holds the written children; what follows grows the tree.
        let n = done.len();
        let mut cursor: usize = if n == 0 {
            a
        } else {
            done[n - 1].range().1
        };
        if cursor >= target || (n > 0 && matches!(done[n - 1], BlockType::Stored(_))) {
            return IndirectBlock::settle(done, old_range, n0 > 0, a, target, Ghost(data@));
        }
        if cursor < a {
            return (
                IndirectBlock { blocks: done },
                Err("The range would leave a gap after the end of the data".to_string()),
            );
        }
        while cursor < target && done.len() < global.direct_block_count
            invariant
                global.wf(),
                a <= cursor,
                target == a + data@.len(),
                target <= usize::MAX,
                forall|k: int|
                    0 <= k < done@.len() ==> #[trigger] holds_written(done@[k], data@, a as nat),
            decreases target - cursor,
        {
            let rest = slice_of(data, cursor - a, data.len());
            match DirectBlock::create(global, io, &rest, cursor, DEFAULT_REDUNDANCY) {
                Ok(d) => {
                    let ghost before = done@;
                    proof {
                        assert(rest@.subrange(0, d.end - cursor) =~= data@.subrange(
                            cursor - a,
                            d.end - a,
                        ));
                    }
                    cursor = d.end;
                    done.push(BlockType::Direct(d));
                    assert forall|k: int| 0 <= k < done@.len() implies #[trigger] holds_written(
                        done@[k],
                        data@,
                        a as nat,
                    ) by {
                        if k < before.len() {
                            assert(done@[k] == before[k]);
                        }
                    }

                },
                Err(e) => return (IndirectBlock { blocks: done }, Err(e)),
            }
        }
        if cursor < target {
            let rest = slice_of(data, cursor - a, data.len());
            match StoredBlock::create(global, io, &rest, cursor) {
                Ok(sb) => {
                    let ghost before = done@;
                    done.push(BlockType::Stored(sb));
                    assert forall|k: int| 0 <= k < done@.len() implies #[trigger] holds_written(
                        done@[k],
                        data@,
                        a as nat,
                    ) by {
                        if k < before.len() {
                            assert(done@[k] == before[k]);
                        }
                    }

                },
                Err(e) => return (IndirectBlock { blocks: done }, Err(e)),
            }
        }
        IndirectBlock::settle(done, old_range, n0 > 0, a, target, Ghost(data@))
    }

    /// Finishes a write: the written children, unless the range they cover is
    /// not the one a write of `[a, t)` leaves (see `range_after`).
    fn settle(
        blocks: Vec<BlockType>,
        old_range: (usize, usize),
        had_children: bool,
        a: usize,
        t: usize,
        data: Ghost<Seq<u8>>,
    ) -> (r: (IndirectBlock, Result<(), String>))
        requires
            forall|k: int|
                0 <= k < blocks@.len() ==> #[trigger] holds_written(blocks@[k], data@, a as nat),
        ensures
            r.0.blocks == blocks,
            r.1 is Ok ==> r.0.written(data@, a as nat),
            r.1 is Ok ==> range_after(
                had_children,
                old_range.0 as nat,
                old_range.1 as nat,
                r.0.spec_start(),
                r.0.spec_end(),
                a as nat,
                t as nat,
            ),
    {
        let block = IndirectBlock { blocks };
        let (s, e) = block.range();
        let ok = if had_children {
            a > old_range.1 || (s == old_range.0 && e == if old_range.1 < t {
                t
            } else {
                old_range.1
            })
        } else {
            a >= t || (s == a && e == t)
        };
        if ok {
            (block, Ok(()))
        } else {
            (block, Err("The write left the block's range other than expected".to_string()))
        }
    }
}

impl StoredBlock {
    pub fn to_enum(self) -> (r: BlockType)
        ensures
            r == BlockType::Stored(self),
    {
        BlockType::Stored(self)
    }

    /// Builds a tree for `data` placed at `start` and keeps it in a blob of
    /// its own.
    pub fn create<E: Source + Codec>(global: &Global, io: &mut E, data: &Vec<u8>, start: usize) -> (r:
        Result<StoredBlock, String>)
        requires
            global.wf(),
            start + data@.len() <= usize::MAX,
        ensures
            r matches Ok(s) ==> data@.len() > 0 ==> s.start == start && s.end == start
                + data@.len(),
        decreases data@.len(), 1nat,
    {
        let inner = IndirectBlock::create(global, io, data, start)?;
        let range = inner.range();
        let block = BlockType::Indirect(inner);
        let bytes = match io.encode_block(&block) {
            Ok(bytes) => bytes,
            Err(e) => {
                let _ = block.delete_nested(global, io, MAX_DEPTH);
                return Err(e);
            },
        };
        match Stored::create(global, io, bytes) {
            Ok(stored) => Ok(StoredBlock { stored, start: range.0, end: range.1 }),
            Err(e) => {
                let _ = block.delete_nested(global, io, MAX_DEPTH);
                Err(e)
            },
        }
    }

    fn load<E: Source + Codec>(&self, global: &Global, io: &mut E) -> (r: Result<BlockType, String>) {
        let bytes = self.stored.get(global, io)?;
        io.decode_block(&bytes)
    }

    /// The sub-tree, which must cover the range kept alongside it.
    fn load_checked<E: Source + Codec>(&self, global: &Global, io: &mut E) -> (r: Result<
        BlockType,
        String,
    >)
        ensures
            r matches Ok(b) ==> b.spec_start() == self.start && b.spec_end() == self.end,
    {
        let block = self.load(global, io)?;
        let (s, e) = block.range();
        if s != self.start || e != self.end {
            return Err("Malformed block: stored sub-tree does not cover its range".to_string());
        }
        Ok(block)
    }

    pub fn get_nested<E: Source + Codec>(
        &self,
        global: &Global,
        io: &mut E,
        a: usize,
        b: usize,
        fuel: usize,
    ) -> (r: Result<Vec<u8>, String>)
        ensures
            fuel == 0 ==> r is Err,
            r matches Ok(v) ==> v@.len() == overlap_len(
                self.start as nat,
                self.end as nat,
                a as nat,
                b as nat,
            ),
        decreases fuel, 0nat,
    {
        if fuel == 0 {
            return Err("Block tree nests too deeply".to_string());
        }
        let block = self.load_checked(global, io)?;
        block.get_nested(global, io, a, b, fuel - 1)
    }

    /// Deletes the sub-tree, then its blob.
    pub fn delete_nested<E: Source + Codec>(&self, global: &Global, io: &mut E, fuel: usize) -> (r:
        Result<(), String>)
        decreases fuel, 0nat,
    {
        if fuel == 0 {
            return Err("Block tree nests too deeply".to_string());
        }
        let mut errors = String::new();
        match self.load(global, io) {
            Ok(block) => match block.delete_nested(global, io, fuel - 1) {
                Ok(()) => {},
                Err(e) => join_error(&mut errors, &e),
            },
            Err(e) => join_error(&mut errors, &e),
        }
        match self.stored.delete(global, io) {
            Ok(()) => {},
            Err(e) => join_error(&mut errors, &e),
        }
        if errors.as_str().len() == 0 {
            Ok(())
        } else {
            Err(errors)
        }
    }

    /// Loads the sub-tree, writes into it, and stores it back; the kept range
    /// follows the sub-tree's.
    pub fn put_owned<E: Source + Codec>(
        self,
        global: &Global,
        io: &mut E,
        data: &Vec<u8>,
        a: usize,
        fuel: usize,
    ) -> (r: (StoredBlock, Result<(), String>))
        requires
            global.wf(),
            a + data@.len() <= usize::MAX,
        ensures
            r.0.stored == self.stored,
            r.1 is Ok ==> kept_range(
                BlockType::Stored(self),
                BlockType::Stored(r.0),
                a as nat,
                (a + data@.len()) as nat,
            ),
        decreases fuel, 0nat,
    {
        let mut this = self;
        if fuel == 0 {
            return (this, Err("Block tree nests too deeply".to_string()));
        }
        let block = match this.load(global, io) {
            Ok(block) => block,
            Err(e) => return (this, Err(e)),
        };
        let (block, r) = block.put_owned(global, io, data, a, fuel - 1);
        match r {
            Ok(()) => {},
            Err(e) => return (this, Err(e)),
        }
        let range = block.range();
        let t = a + data.len();
        if a <= this.end && !(range.0 == this.start && range.1 == if this.end < t {
            t
        } else {
            this.end
        }) {
            return (this, Err("The write left the sub-tree's range other than expected".to_string()));
        }
        let bytes = match io.encode_block(&block) {
            Ok(bytes) => bytes,
            Err(e) => return (this, Err(e)),
        };
        match this.stored.put(global, io, bytes) {
            Ok(()) => {},
            Err(e) => return (this, Err(e)),
        }
        this.start = range.0;
        this.end = range.1;
        (this, Ok(()))
    }
}


/// Total length of the ranges of `blocks`.
pub open spec fn covered_len(blocks: Seq<BlockType>) -> int
    decreases blocks.len(),
{
    if blocks.len() == 0 {
        0
    } else {
        covered_len(blocks.drop_last()) + blocks.last().spec_end() - blocks.last().spec_start()
    }
}

proof fn lemma_chain_covers(blocks: Seq<BlockType>)
    requires
        blocks.len() > 0,
        forall|i: int|
            0 <= i < blocks.len() - 1 ==> #[trigger] blocks[i].spec_end() == blocks[i
                + 1].spec_start(),
    ensures
        covered_len(blocks) == blocks.last().spec_end() - blocks[0].spec_start(),
    decreases blocks.len(),
{
    if blocks.len() > 1 {
        let front = blocks.drop_last();
        assert forall|i: int| 0 <= i < front.len() - 1 implies #[trigger] front[i].spec_end()
            == front[i + 1].spec_start() by {
            assert(front[i] == blocks[i] && front[i + 1] == blocks[i + 1]);
        }
        lemma_chain_covers(front);
        assert(front.last() == blocks[blocks.len() - 2]);
        assert(front[0] == blocks[0]);
        assert(blocks[blocks.len() - 2].spec_end() == blocks[blocks.len() - 1].spec_start());
        assert(covered_len(blocks) == covered_len(front) + blocks.last().spec_end()
            - blocks.last().spec_start());
    } else {
        assert(blocks.drop_last().len() == 0);
        assert(covered_len(blocks.drop_last()) == 0);
        assert(blocks.last() == blocks[0]);
    }
}

proof fn lemma_chain_start(blocks: Seq<BlockType>, i: int)
    requires
        0 <= i < blocks.len(),
        forall|k: int|
            0 <= k < blocks.len() ==> #[trigger] blocks[k].spec_start() < blocks[k].spec_end(),
        forall|k: int|
            0 <= k < blocks.len() - 1 ==> #[trigger] blocks[k].spec_end() == blocks[k
                + 1].spec_start(),
    ensures
        blocks[0].spec_start() <= blocks[i].spec_start(),
    decreases i,
{
    if i > 0 {
        lemma_chain_start(blocks, i - 1);
        assert(blocks[i - 1].spec_end() == blocks[i].spec_start());
        assert(blocks[i - 1].spec_start() < blocks[i - 1].spec_end());
    }
}

proof fn lemma_chain_end(blocks: Seq<BlockType>, i: int)
    requires
        0 <= i < blocks.len(),
        forall|k: int|
            0 <= k < blocks.len() ==> #[trigger] blocks[k].spec_start() < blocks[k].spec_end(),
        forall|k: int|
            0 <= k < blocks.len() - 1 ==> #[trigger] blocks[k].spec_end() == blocks[k
                + 1].spec_start(),
    ensures
        blocks[i].spec_end() <= blocks[blocks.len() - 1].spec_end(),
{
    if i < blocks.len() - 1 {
        lemma_chain_order(blocks, i, blocks.len() - 1);
    }
}

proof fn lemma_chain_order(blocks: Seq<BlockType>, k: int, i: int)
    requires
        0 <= k < i < blocks.len(),
        forall|j: int|
            0 <= j < blocks.len() ==> #[trigger] blocks[j].spec_start() < blocks[j].spec_end(),
        forall|j: int|
            0 <= j < blocks.len() - 1 ==> #[trigger] blocks[j].spec_end() == blocks[j
                + 1].spec_start(),
    ensures
        blocks[k].spec_end() <= blocks[i].spec_start(),
    decreases i - k,
{
    if k + 1 < i {
        lemma_chain_order(blocks, k + 1, i);
    }
    assert(blocks[k].spec_end() == blocks[k + 1].spec_start());
    assert(blocks[k + 1].spec_start() < blocks[k + 1].spec_end());
}

/// Put, then get: after a successful write of `data` at `a`, a successful
/// read `v` of `[a, a + data.len())` holds, at the place of every Direct
/// child lying whole inside that range, bytes with the digest of the bytes
/// of `data` there; however often the same write was repeated, the last one
/// leaves this so.
pub proof fn lemma_put_then_get(i: IndirectBlock, data: Seq<u8>, a: nat, v: Seq<u8>)
    requires
        i.written(data, a),
        i.read_digests(v, a, a + data.len()),
    ensures
        forall|k: int|
            0 <= k < i.blocks@.len() ==> (#[trigger] i.blocks@[k] matches BlockType::Direct(d) ==> (
            a <= d.start && d.end <= a + data.len() && d.start < d.end ==> md5_of(
                v.subrange(
                    overlap_len(i.spec_start(), d.start as nat, a, a + data.len()) as int,
                    overlap_len(i.spec_start(), d.end as nat, a, a + data.len()) as int,
                ),
            ) == md5_of(data.subrange(d.start - a, d.end - a)))),
{
    assert forall|k: int| 0 <= k < i.blocks@.len() implies (#[trigger] i.blocks@[k] matches BlockType::Direct(
        d,
    ) ==> (a <= d.start && d.end <= a + data.len() && d.start < d.end ==> md5_of(
        v.subrange(
            overlap_len(i.spec_start(), d.start as nat, a, a + data.len()) as int,
            overlap_len(i.spec_start(), d.end as nat, a, a + data.len()) as int,
        ),
    ) == md5_of(data.subrange(d.start - a, d.end - a)))) by {
        assert(holds_written(i.blocks@[k], data, a));
        assert(i.read_digest_at(k, v, a, a + data.len()));
    }
}

/// A write that lies inside a block's range leaves the range as it was, so
/// reading that range again after any number of such writes reads as many
/// bytes as before.
pub proof fn lemma_write_inside_keeps_range(old: BlockType, new: BlockType, a: nat, t: nat)
    requires
        kept_range(old, new, a, t),
        old.spec_start() <= a < t <= old.spec_end(),
    ensures
        new.spec_start() == old.spec_start(),
        new.spec_end() == old.spec_end(),
{
    match old {
        BlockType::Indirect(i) => {
            if i.blocks@.len() == 0 {
                assert(old.spec_end() == 0);
            }
        },
        _ => {},
    }
}

/// Range coherence: the children of a tree built by `create` cover its
/// range without gaps or overlaps. Consecutive children meet, each is
/// non-empty, and their lengths add up to the length of the whole range,
/// which is that of the data.
pub proof fn lemma_range_coherence(i: IndirectBlock, global: Global, data: Seq<u8>, start: nat)
    requires
        i.built(&global, data, start),
    ensures
        forall|k: int|
            0 <= k < i.blocks@.len() - 1 ==> #[trigger] i.blocks@[k].spec_end()
                == i.blocks@[k + 1].spec_start(),
        forall|k: int|
            0 <= k < i.blocks@.len() ==> #[trigger] i.blocks@[k].spec_start()
                < i.blocks@[k].spec_end(),
        covered_len(i.blocks@) == i.spec_end() - i.spec_start(),
        covered_len(i.blocks@) == data.len(),
{
    if i.blocks@.len() > 0 {
        lemma_chain_covers(i.blocks@);
    }
}

} // verus!
