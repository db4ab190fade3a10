//! A bucket: a back-end together with the encryption of its blobs.

use vstd::prelude::*;
use crate::encryption::EncryptionType;
use crate::source::{Source, SourceType};

verus! {

/// A back-end and how its blobs are encrypted.
#[derive(Clone, Debug)]
pub struct Bucket {
    pub source: SourceType,
    pub encryption: EncryptionType,
}

impl Bucket {
    pub open spec fn spec_max_size(&self) -> nat {
        self.encryption.spec_max_size(self.source.spec_max_size())
    }

    /// Largest plaintext chunk that fits in one blob after encryption.
    pub fn max_size(&self) -> (r: usize)
        ensures
            r == self.spec_max_size(),
    {
        self.encryption.max_size(self.source.max_size())
    }

    /// The blob that stores `data` under `descriptor`.
    pub fn seal(&self, descriptor: &Vec<u8>, data: Vec<u8>) -> (r: Result<Vec<u8>, String>)
        ensures
            r is Ok <==> self.encryption.usable(descriptor@),
            r matches Ok(v) ==> v@ == self.encryption.spec_encrypt(data@, descriptor@),
            self.encryption is Plain ==> r == Ok::<Vec<u8>, String>(data),
    {
        self.encryption.encrypt(data, descriptor)
    }

    /// The plaintext of a blob stored under `descriptor`.
    pub fn open(&self, descriptor: &Vec<u8>, blob: Vec<u8>) -> (r: Result<Vec<u8>, String>)
        ensures
            self.encryption is Plain ==> r == Ok::<Vec<u8>, String>(blob),
            r is Ok <==> self.encryption.spec_decrypt(blob@, descriptor@) is Some,
            r matches Ok(v) ==> v@ == self.encryption.spec_decrypt(blob@, descriptor@)->Some_0,
            self.encryption.usable(descriptor@) ==> forall|p: Seq<u8>|
                (p.len() > 0 || self.encryption is Plain) && blob@ == self.encryption.spec_encrypt(
                    p,
                    descriptor@,
                ) ==> (r matches Ok(v) && v@ == p),
    {
        self.encryption.decrypt(blob, descriptor)
    }

    /// Reads and decrypts the blob under `descriptor`: whatever the back-end
    /// returned, a result is the decryption of some blob.
    pub fn get<S: Source>(&self, io: &mut S, name: &String, descriptor: &Vec<u8>) -> (r: Result<
        Vec<u8>,
        String,
    >)
        ensures
            r matches Ok(v) ==> exists|blob: Seq<u8>|
                self.encryption.spec_decrypt(blob, descriptor@) == Some(v@),
    {
        let blob = io.get(name, descriptor)?;
        self.open(descriptor, blob)
    }

    /// Encrypts `data` and writes it under `descriptor`.
    pub fn put<S: Source>(&self, io: &mut S, name: &String, descriptor: &Vec<u8>, data: Vec<u8>) -> (r:
        Result<(), String>)
        ensures
            r is Err <== !self.encryption.usable(descriptor@),
    {
        let blob = self.seal(descriptor, data)?;
        io.put(name, descriptor, blob)
    }

    /// Deletes the blob under `descriptor`.
    pub fn delete<S: Source>(&self, io: &mut S, name: &String, descriptor: &Vec<u8>) -> (r: Result<
        (),
        String,
    >) {
        io.delete(name, descriptor)
    }

    /// Mints a fresh descriptor.
    pub fn create<S: Source>(&self, io: &mut S, name: &String) -> (r: Result<Vec<u8>, String>) {
        io.create(name)
    }
}

} // verus!
