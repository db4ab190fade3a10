//! A handle to one blob: the bucket it lives in and its descriptor there.

use vstd::prelude::*;
use vstd::utf8::{decode_utf8, encode_utf8, valid_utf8};
use crate::global::Global;
use crate::source::Source;
use crate::block::BlockType;
use crate::inode::InodeType;

verus! {

broadcast use {vstd::utf8::encode_utf8_valid_utf8, vstd::utf8::encode_utf8_decode_utf8};

/// The percent-encoding of `b`: every byte but ASCII letters, digits and
/// `-`, `.`, `_`, `~` becomes `%` and two hex digits.
pub uninterp spec fn percent_encoded(b: Seq<u8>) -> Seq<char>;

/// The percent-decoding of `b`: each `%` with two hex digits becomes one
/// byte; all else is kept.
pub uninterp spec fn percent_decoded(b: Seq<u8>) -> Seq<u8>;

/// Relies on urlencoding::encode_binary: the result depends on the bytes
/// alone, and `$` is not among the characters it leaves unescaped.
#[verifier::external_body]
fn percent_encode(data: &[u8]) -> (r: String)
    ensures
        r@ == percent_encoded(data@),
        !r@.contains('$'),
{
    urlencoding::encode_binary(data).into_owned()
}

/// Relies on urlencoding::decode_binary: the result depends on the bytes
/// alone, and it undoes urlencoding::encode_binary.
#[verifier::external_body]
fn percent_decode(data: &[u8]) -> (r: Vec<u8>)
    ensures
        r@ == percent_decoded(data@),
        forall|d: Seq<u8>| data@ == encode_utf8(percent_encoded(d)) ==> r@ == d,
{
    urlencoding::decode_binary(data).into_owned()
}

/// Relies on String::from_utf8: it succeeds exactly on valid UTF-8 and then
/// holds the decoded characters.
#[verifier::external_body]
fn string_from_utf8(data: Vec<u8>) -> (r: Result<String, ()>)
    ensures
        r is Ok <==> valid_utf8(data@),
        r matches Ok(s) ==> s@ == decode_utf8(data@),
{
    String::from_utf8(data).map_err(|_| ())
}

/// Relies on String::push_str: it appends `t`.
#[verifier::external_body]
pub(crate) fn push_str(s: &mut String, t: &str)
    ensures
        final(s)@ == old(s)@ + t@,
{
    s.push_str(t)
}

/// Relies on String::push: it appends `c`.
#[verifier::external_body]
pub(crate) fn push_char(s: &mut String, c: char)
    ensures
        final(s)@ == old(s)@.push(c),
{
    s.push(c)
}

/// Whether two byte strings are equal.
pub fn bytes_eq(a: &Vec<u8>, b: &Vec<u8>) -> (r: bool)
    ensures
        r == (a@ == b@),
{
    if a.len() != b.len() {
        return false;
    }
    let mut i: usize = 0;
    while i < a.len()
        invariant
            a@.len() == b@.len(),
            i <= a@.len(),
            forall|k: int| 0 <= k < i ==> a@[k] == b@[k],
        decreases a@.len() - i,
    {
        if a[i] != b[i] {
            return false;
        }
        i = i + 1;
    }
    assert(a@ =~= b@);
    true
}

/// Where a serialized value lives: a bucket name and a descriptor in it.
#[derive(Clone, Debug)]
pub struct Stored {
    pub bucket: String,
    pub descriptor: Vec<u8>,
}

impl PartialEq for Stored {
    fn eq(&self, other: &Stored) -> (r: bool) {
        self.bucket == other.bucket && bytes_eq(&self.descriptor, &other.descriptor)
    }
}

impl vstd::std_specs::cmp::PartialEqSpecImpl for Stored {
    open spec fn obeys_eq_spec() -> bool {
        true
    }

    open spec fn eq_spec(&self, other: &Stored) -> bool {
        self.same(*other)
    }
}

impl Stored {
    /// Same bucket name and same descriptor.
    pub open spec fn same(&self, other: Stored) -> bool {
        self.bucket@ == other.bucket@ && self.descriptor@ == other.descriptor@
    }

    /// The URL form: the percent-encoded bucket name, `$`, and the
    /// percent-encoded descriptor.
    pub open spec fn spec_url(&self) -> Seq<char> {
        percent_encoded(encode_utf8(self.bucket@)).push('$') + percent_encoded(self.descriptor@)
    }

    /// The URL form of this handle: `{bucket}${descriptor}`, each part
    /// percent-encoded, so that `$` occurs once, between the parts.
    pub fn as_url(&self) -> (r: String)
        ensures
            r@ == self.spec_url(),
            !percent_encoded(encode_utf8(self.bucket@)).contains('$'),
            !percent_encoded(self.descriptor@).contains('$'),
    {
        let mut url = percent_encode(self.bucket.as_str().as_bytes());
        push_char(&mut url, '$');
        let d = percent_encode(self.descriptor.as_slice());
        push_str(&mut url, d.as_str());
        url
    }

    /// The handle whose URL parts are `bucket` and `descriptor`; an error
    /// when the bucket part does not decode to UTF-8 text.
    pub fn from_url(bucket: &str, descriptor: &str) -> (r: Result<Stored, String>)
        ensures
            r is Ok <==> valid_utf8(percent_decoded(encode_utf8(bucket@))),
            r matches Ok(s) ==> s.bucket@ == decode_utf8(percent_decoded(encode_utf8(bucket@)))
                && s.descriptor@ == percent_decoded(encode_utf8(descriptor@)),
            r matches Ok(s) ==> forall|t: Stored|
                bucket@ == percent_encoded(encode_utf8(t.bucket@)) && descriptor@
                    == percent_encoded(t.descriptor@) ==> s.same(t),
            r is Err ==> forall|t: Stored| bucket@ != percent_encoded(encode_utf8(t.bucket@)),
    {
        let raw = percent_decode(bucket.as_bytes());
        let descriptor = percent_decode(descriptor.as_bytes());
        match string_from_utf8(raw) {
            Ok(bucket) => Ok(Stored { bucket, descriptor }),
            Err(_) => Err("Invalid bucket".to_string()),
        }
    }
}


impl Stored {
    /// Stores `data` in a bucket chosen at random among those that take a
    /// blob of its size.
    pub fn create<S: Source>(global: &Global, io: &mut S, data: Vec<u8>) -> (r: Result<Stored, String>)
        ensures
            !(exists|i: int| global.eligible(i, data@.len(), Seq::empty())) ==> r is Err,
            r matches Ok(s) ==> exists|i: int|
                #[trigger] global.eligible(i, data@.len(), Seq::empty())
                    && global.buckets@[i].0@ == s.bucket@,
    {
        let none: Vec<String> = Vec::new();
        let name = match global.next_bucket(data.len(), &none) {
            Some(name) => name,
            None => return Err("No bucket found for data of this size".to_string()),
        };
        let bucket = match global.get_bucket(&name) {
            Some(b) => b,
            None => return Err("Bucket not found".to_string()),
        };
        let descriptor = bucket.create(io, &name)?;
        bucket.put(io, &name, &descriptor, data)?;
        Ok(Stored { bucket: name, descriptor })
    }

    /// The bytes this handle points to, decrypted.
    pub fn get<S: Source>(&self, global: &Global, io: &mut S) -> (r: Result<Vec<u8>, String>)
        ensures
            !global.has_bucket(self.bucket@) ==> r is Err,
            r matches Ok(v) ==> exists|i: int, blob: Seq<u8>|
                0 <= i < global.buckets@.len() && global.buckets@[i].0@ == self.bucket@
                    && #[trigger] global.buckets@[i].1.encryption.spec_decrypt(blob, self.descriptor@) == Some(
                    v@,
                ),
    {
        let bucket = match global.get_bucket(&self.bucket) {
            Some(b) => b,
            None => return Err("Bucket not found".to_string()),
        };
        bucket.get(io, &self.bucket, &self.descriptor)
    }

    /// Overwrites the bytes this handle points to.
    pub fn put<S: Source>(&self, global: &Global, io: &mut S, data: Vec<u8>) -> (r: Result<
        (),
        String,
    >)
        ensures
            !global.has_bucket(self.bucket@) ==> r is Err,
    {
        let bucket = match global.get_bucket(&self.bucket) {
            Some(b) => b,
            None => return Err("Bucket not found".to_string()),
        };
        bucket.put(io, &self.bucket, &self.descriptor, data)
    }

    /// Deletes the blob this handle points to.
    pub fn delete<S: Source>(&self, global: &Global, io: &mut S) -> (r: Result<(), String>)
        ensures
            !global.has_bucket(self.bucket@) ==> r is Err,
    {
        let bucket = match global.get_bucket(&self.bucket) {
            Some(b) => b,
            None => return Err("Bucket not found".to_string()),
        };
        bucket.delete(io, &self.bucket, &self.descriptor)
    }
}

/// The self-describing binary form in which blocks and inodes are stored
/// (MessagePack, structs as maps).
pub trait Codec {
    fn encode_block(&self, block: &BlockType) -> Result<Vec<u8>, String>;

    fn decode_block(&self, bytes: &Vec<u8>) -> Result<BlockType, String>;

    fn encode_inode(&self, inode: &InodeType) -> Result<Vec<u8>, String>;

    fn decode_inode(&self, bytes: &Vec<u8>) -> Result<InodeType, String>;
}

} // verus!
