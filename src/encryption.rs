//! Symmetric encryption of bucket blobs, with keys and IVs stretched from
//! configured strings and descriptors.

use vstd::prelude::*;
use vstd::slice::slice_to_vec;
use vstd::utf8::encode_utf8;
use crypto::buffer::{ReadBuffer, WriteBuffer};

verus! {

/// The AES block length in bytes, which is also the largest padding that
/// PKCS#7 adds to a message.
pub const AES_BLOCK: usize = 16;

/// The AES key length to use.
#[derive(Clone, Copy, Debug, PartialEq, Eq, Structural)]
pub enum AesType {
    Aes128,
    Aes192,
    Aes256,
}

impl AesType {
    pub open spec fn spec_key_size(&self) -> nat {
        match self {
            AesType::Aes128 => 16,
            AesType::Aes192 => 24,
            AesType::Aes256 => 32,
        }
    }

    /// Key length in bytes.
    pub fn key_size(&self) -> (r: usize)
        ensures
            r == self.spec_key_size(),
    {
        match self {
            AesType::Aes128 => 16,
            AesType::Aes192 => 24,
            AesType::Aes256 => 32,
        }
    }

    /// IV length in bytes: one cipher block for every key length, as CBC
    /// chains block by block.
    pub fn iv_size(&self) -> (r: usize)
        ensures
            r == AES_BLOCK,
    {
        AES_BLOCK
    }

    pub fn default() -> (r: AesType)
        ensures
            r == AesType::Aes128,
    {
        AesType::Aes128
    }
}

/// 8-bit left rotation of `b` by `s` places, for `s` in `0..3`.
pub open spec fn rotate_left(b: u8, s: nat) -> int {
    if s == 0 {
        b as int
    } else if s == 1 {
        (b as int * 2) % 256 + b as int / 128
    } else {
        (b as int * 4) % 256 + b as int / 64
    }
}

/// Byte `i` of the stretched form of `init`: the first `init.len()` bytes are
/// `init`; each later byte is its cyclic source byte rotated left by `i % 3`,
/// plus the stretched byte one period earlier, modulo 256.
pub open spec fn stretched_byte(init: Seq<u8>, i: nat) -> int
    decreases i,
{
    if init.len() == 0 {
        0
    } else if i < init.len() {
        init[i as int] as int
    } else {
        (rotate_left(init[(i % init.len()) as int], i % 3) + stretched_byte(
            init,
            (i - init.len()) as nat,
        )) % 256
    }
}

/// `init` stretched (or cut) to `size` bytes; empty when `init` is.
pub open spec fn stretch(init: Seq<u8>, size: nat) -> Seq<u8> {
    if init.len() == 0 {
        Seq::empty()
    } else {
        Seq::new(size, |i: int| stretched_byte(init, i as nat) as u8)
    }
}

proof fn lemma_stretched_byte_range(init: Seq<u8>, i: nat)
    ensures
        0 <= stretched_byte(init, i) < 256,
    decreases i,
{
    if init.len() > 0 && i >= init.len() {
        lemma_stretched_byte_range(init, (i - init.len()) as nat);
    }
}

fn rotate_byte(b: u8, s: usize) -> (r: u16)
    requires
        s < 3,
    ensures
        r == rotate_left(b, s as nat),
        r < 256,
{
    let w: u16 = b as u16;
    if s == 0 {
        w
    } else if s == 1 {
        (w * 2) % 256 + w / 128
    } else {
        (w * 4) % 256 + w / 64
    }
}

/// Stretches `init_key` to `size` bytes: the key is repeated cyclically and
/// every repetition after the first is mixed with a position-dependent
/// rotation and the byte one period earlier.
pub fn to_size(init_key: &Vec<u8>, size: usize) -> (r: Vec<u8>)
    ensures
        r@ == stretch(init_key@, size as nat),
{
    let n = init_key.len();
    let mut key: Vec<u8> = Vec::new();
    if n == 0 {
        assert(key@ =~= stretch(init_key@, size as nat));
        return key;
    }
    let mut i: usize = 0;
    while i < size
        invariant
            n == init_key@.len(),
            n > 0,
            i <= size,
            key@.len() == i,
            forall|j: int| 0 <= j < i ==> key@[j] == init_key@[j % (n as int)],
        decreases size - i,
    {
        key.push(init_key[i % n]);
        i = i + 1;
    }
    proof {
        assert forall|j: int| 0 <= j < size && j < n implies key@[j] as int == stretched_byte(
            init_key@,
            j as nat,
        ) by {
            assert(j % (n as int) == j) by (nonlinear_arith)
                requires
                    0 <= j < n,
            ;
        }
    }
    let mut i: usize = n;
    while i < size
        invariant
            n == init_key@.len(),
            n > 0,
            n <= i || size <= i,
            key@.len() == size,
            forall|j: int|
                0 <= j < size && j < i ==> key@[j] as int == stretched_byte(init_key@, j as nat),
            forall|j: int| i <= j < size ==> key@[j] == init_key@[j % (n as int)],
        decreases size - i,
    {
        proof {
            lemma_stretched_byte_range(init_key@, (i - n) as nat);
        }
        let rot = rotate_byte(key[i], i % 3);
        let prev = key[i - n] as u16;
        let v: u8 = ((rot + prev) % 256) as u8;
        key.set(i, v);
        i = i + 1;
    }
    proof {
        assert forall|j: int| 0 <= j < size implies key@[j] == stretch(init_key@, size as nat)[j] by {
            lemma_stretched_byte_range(init_key@, j as nat);
            if j < n {
                assert(j % (n as int) == j) by (nonlinear_arith)
                    requires
                        0 <= j < n,
                ;
            }
        }
        assert(key@ =~= stretch(init_key@, size as nat));
    }
    key
}


/// The ciphertext that AES in CBC mode with PKCS#7 padding makes of `data`
/// under `key` and `iv`.
pub uninterp spec fn aes_cbc_encrypt(key: Seq<u8>, iv: Seq<u8>, data: Seq<u8>) -> Seq<u8>;

/// The blocks of `data` deciphered by AES in CBC mode under `key` and `iv`,
/// with any padding left in place.
pub uninterp spec fn aes_cbc_decipher(key: Seq<u8>, iv: Seq<u8>, data: Seq<u8>) -> Seq<u8>;

/// Length of the PKCS#7-padded form of an `n`-byte message: the next whole
/// block, and one more block when `n` is already whole.
pub open spec fn padded_len(n: nat) -> nat {
    (n / 16 + 1) * 16
}

/// `p` with PKCS#7 padding: `k` bytes of value `k`, where `k` (1 to 16)
/// brings the length to a whole number of blocks.
pub open spec fn pkcs7_pad(p: Seq<u8>) -> Seq<u8> {
    let k = (16 - p.len() % 16) as nat;
    p + Seq::new(k, |i: int| k as u8)
}

/// `v` without its PKCS#7 padding; none when the padding is malformed. An
/// empty input stays empty.
pub open spec fn pkcs7_unpad(v: Seq<u8>) -> Option<Seq<u8>> {
    if v.len() == 0 {
        Some(v)
    } else {
        let k = v.last() as int;
        if 1 <= k <= 16 && k <= v.len() && forall|i: int| v.len() - k <= i < v.len() ==> v[i] == k {
            Some(v.subrange(0, v.len() - k))
        } else {
            None
        }
    }
}

/// Removing the padding of a padded message gives the message back.
pub proof fn lemma_unpad_pad(p: Seq<u8>)
    requires
        p.len() > 0,
    ensures
        pkcs7_unpad(pkcs7_pad(p)) == Some(p),
{
    let k = (16 - p.len() % 16) as nat;
    let v = pkcs7_pad(p);
    assert(v.last() == k as u8);
    assert(v.subrange(0, v.len() - k) =~= p);
}

/// `v` without its PKCS#7 padding, checked byte by byte.
pub fn unpad(v: &Vec<u8>) -> (r: Option<Vec<u8>>)
    ensures
        r is Some <==> pkcs7_unpad(v@) is Some,
        r matches Some(u) ==> u@ == pkcs7_unpad(v@)->Some_0,
{
    let n = v.len();
    if n == 0 {
        return Some(Vec::new());
    }
    let k = v[n - 1] as usize;
    if k < 1 || k > 16 || k > n {
        return None;
    }
    let mut i: usize = n - k;
    while i < n
        invariant
            n == v@.len(),
            k == v@.last() as int,
            1 <= k <= 16,
            k <= n,
            n - k <= i <= n,
            forall|j: int| n - k <= j < i ==> v@[j] == k,
        decreases n - i,
    {
        if v[i] as usize != k {
            return None;
        }
        i = i + 1;
    }
    let mut out: Vec<u8> = Vec::new();
    let mut j: usize = 0;
    while j < n - k
        invariant
            n == v@.len(),
            k <= n,
            j <= n - k,
            out@ == v@.subrange(0, j as int),
        decreases n - k - j,
    {
        out.push(v[j]);
        j = j + 1;
        assert(out@ =~= v@.subrange(0, j as int));
    }
    Some(out)
}

/// Relies on crypto::aes::cbc_encryptor with crypto::blockmodes::PkcsPadding
/// and one call of its `encrypt` with room for the whole output. Encryption
/// with PKCS#7 padding cannot fail; the ciphertext depends on key, IV and
/// data alone; padding makes it the padded length of non-empty data, and
/// empty data gives empty output (the engine stops before padding).
#[verifier::external_body]
fn cbc_encrypt(size: AesType, key: &[u8], iv: &[u8], data: &[u8]) -> (r: Result<Vec<u8>, ()>)
    requires
        key@.len() == size.spec_key_size(),
        iv@.len() == AES_BLOCK,
    ensures
        r is Ok,
        r matches Ok(v) ==> v@ == aes_cbc_encrypt(key@, iv@, data@),
        r matches Ok(v) ==> data@.len() > 0 ==> v@.len() == padded_len(data@.len()),
        r matches Ok(v) ==> data@.len() == 0 ==> v@.len() == 0,
{
    let ks = match size {
        AesType::Aes128 => crypto::aes::KeySize::KeySize128,
        AesType::Aes192 => crypto::aes::KeySize::KeySize192,
        AesType::Aes256 => crypto::aes::KeySize::KeySize256,
    };
    let mut enc = crypto::aes::cbc_encryptor(ks, key, iv, crypto::blockmodes::PkcsPadding);
    let mut out = vec![0u8; data.len() + AES_BLOCK];
    let mut reader = crypto::buffer::RefReadBuffer::new(data);
    let mut writer = crypto::buffer::RefWriteBuffer::new(&mut out);
    match enc.encrypt(&mut reader, &mut writer, true) {
        Ok(_) => Ok(writer.take_read_buffer().take_remaining().to_vec()),
        Err(_) => Err(()),
    }
}

/// Relies on crypto::aes::cbc_decryptor with crypto::blockmodes::NoPadding
/// and one call of its `decrypt` with room for the whole output. Without
/// padding, input of whole blocks always deciphers, to as many bytes, and any
/// other input is refused (encryptions are whole blocks); the result
/// depends on key, IV and data alone; and deciphering the encryption of a
/// non-empty message gives the message with its PKCS#7 padding.
#[verifier::external_body]
fn cbc_decrypt_raw(size: AesType, key: &[u8], iv: &[u8], data: &[u8]) -> (r: Result<Vec<u8>, ()>)
    requires
        key@.len() == size.spec_key_size(),
        iv@.len() == AES_BLOCK,
    ensures
        r is Ok <==> data@.len() % 16 == 0,
        r is Err ==> forall|p: Seq<u8>| p.len() > 0 ==> data@ != aes_cbc_encrypt(key@, iv@, p),
        r matches Ok(v) ==> v@ == aes_cbc_decipher(key@, iv@, data@) && v@.len() == data@.len(),
        r matches Ok(v) ==> forall|p: Seq<u8>|
            p.len() > 0 && data@ == aes_cbc_encrypt(key@, iv@, p) ==> v@ == pkcs7_pad(p),
{
    let ks = match size {
        AesType::Aes128 => crypto::aes::KeySize::KeySize128,
        AesType::Aes192 => crypto::aes::KeySize::KeySize192,
        AesType::Aes256 => crypto::aes::KeySize::KeySize256,
    };
    let mut dec = crypto::aes::cbc_decryptor(ks, key, iv, crypto::blockmodes::NoPadding);
    let mut out = vec![0u8; data.len() + AES_BLOCK];
    let mut reader = crypto::buffer::RefReadBuffer::new(data);
    let mut writer = crypto::buffer::RefWriteBuffer::new(&mut out);
    match dec.decrypt(&mut reader, &mut writer, true) {
        Ok(_) => Ok(writer.take_read_buffer().take_remaining().to_vec()),
        Err(_) => Err(()),
    }
}

/// A non-empty plaintext no longer than the max size that AES leaves of a
/// source size fits in that size once padded, and padding lengthens it.
pub proof fn lemma_max_size_fits(e: EncryptionType, source_size: nat, n: nat)
    requires
        e is Aes,
        n > 0,
        n <= e.spec_max_size(source_size),
    ensures
        padded_len(n) <= source_size,
        padded_len(n) > n,
{
    assert((n / 16) * 16 <= n) by (nonlinear_arith);
}

/// AES settings of a bucket: the configured key string and the key length.
#[derive(Clone, Debug)]
pub struct Aes {
    pub key: String,
    pub size: AesType,
}

impl Aes {
    /// The cipher key: the UTF-8 bytes of the configured key, stretched to
    /// the key length.
    pub open spec fn spec_key(&self) -> Seq<u8> {
        stretch(encode_utf8(self.key@), self.size.spec_key_size())
    }

    /// The IV for a descriptor: its bytes stretched to one block.
    pub open spec fn spec_iv(descriptor: Seq<u8>) -> Seq<u8> {
        stretch(descriptor, AES_BLOCK as nat)
    }

    /// Key and IV are usable: neither the key string nor the descriptor is
    /// empty, so both stretch to their full length.
    pub open spec fn usable(&self, descriptor: Seq<u8>) -> bool {
        encode_utf8(self.key@).len() > 0 && descriptor.len() > 0
    }

    fn key_and_iv(&self, iv: &Vec<u8>) -> (r: Option<(Vec<u8>, Vec<u8>)>)
        ensures
            r is Some <==> self.usable(iv@),
            r matches Some(p) ==> p.0@ == self.spec_key() && p.1@ == Aes::spec_iv(iv@)
                && p.0@.len() == self.size.spec_key_size() && p.1@.len() == AES_BLOCK,
    {
        let raw = slice_to_vec(self.key.as_str().as_bytes());
        if raw.len() == 0 || iv.len() == 0 {
            return None;
        }
        let key = to_size(&raw, self.size.key_size());
        let stretched_iv = to_size(iv, self.size.iv_size());
        Some((key, stretched_iv))
    }

    /// The plaintext that decryption recovers from `data` under descriptor
    /// `iv`: whole blocks, deciphered, with valid padding removed.
    pub open spec fn spec_decrypt(&self, data: Seq<u8>, iv: Seq<u8>) -> Option<Seq<u8>> {
        if self.usable(iv) && data.len() % 16 == 0 {
            pkcs7_unpad(aes_cbc_decipher(self.spec_key(), Aes::spec_iv(iv), data))
        } else {
            None
        }
    }

    /// Encrypts `data` with the IV derived from `iv`; fails only for an
    /// empty key or descriptor.
    pub fn encrypt(&self, data: &Vec<u8>, iv: &Vec<u8>) -> (r: Result<Vec<u8>, String>)
        ensures
            r is Ok <==> self.usable(iv@),
            r matches Ok(v) ==> v@ == aes_cbc_encrypt(self.spec_key(), Aes::spec_iv(iv@), data@),
            r matches Ok(v) ==> data@.len() > 0 ==> v@.len() == padded_len(data@.len()),
            r matches Ok(v) ==> data@.len() == 0 ==> v@.len() == 0,
    {
        match self.key_and_iv(iv) {
            None => Err("Symmetric encryption failed: empty key or IV".to_string()),
            Some((key, stretched_iv)) => match cbc_encrypt(
                self.size,
                key.as_slice(),
                stretched_iv.as_slice(),
                data.as_slice(),
            ) {
                Ok(v) => Ok(v),
                Err(_) => Err("Symmetric encryption failed".to_string()),
            },
        }
    }

    /// Decrypts `data` with the IV derived from `iv`: the blocks are
    /// deciphered and the PKCS#7 padding checked and removed.
    pub fn decrypt(&self, data: &Vec<u8>, iv: &Vec<u8>) -> (r: Result<Vec<u8>, String>)
        ensures
            r is Ok <==> self.spec_decrypt(data@, iv@) is Some,
            r matches Ok(v) ==> v@ == self.spec_decrypt(data@, iv@)->Some_0,
            self.usable(iv@) ==> forall|p: Seq<u8>|
                p.len() > 0 && data@ == aes_cbc_encrypt(self.spec_key(), Aes::spec_iv(iv@), p)
                    ==> (r matches Ok(v) && v@ == p),
            self.usable(iv@) && data@.len() == 0 ==> (r matches Ok(v) && v@.len() == 0),
    {
        match self.key_and_iv(iv) {
            None => Err("Symmetric decryption failed: empty key or IV".to_string()),
            Some((key, stretched_iv)) => {
                match cbc_decrypt_raw(
                    self.size,
                    key.as_slice(),
                    stretched_iv.as_slice(),
                    data.as_slice(),
                ) {
                    Ok(raw) => {
                        proof {
                            assert forall|p: Seq<u8>|
                                p.len() > 0 && data@ == aes_cbc_encrypt(
                                    self.spec_key(),
                                    Aes::spec_iv(iv@),
                                    p,
                                ) implies pkcs7_unpad(raw@) == Some(p) by {
                                lemma_unpad_pad(p);
                            }
                        }
                        match unpad(&raw) {
                            Some(v) => Ok(v),
                            None => Err("Symmetric decryption failed: invalid padding".to_string()),
                        }
                    },
                    Err(_) => Err("Symmetric decryption failed".to_string()),
                }
            },
        }
    }
}

/// How a bucket encrypts its blobs.
#[derive(Clone, Debug)]
pub enum EncryptionType {
    /// Blobs are stored as they are.
    Plain,
    /// Blobs are encrypted with AES in CBC mode.
    Aes(Aes),
}

impl EncryptionType {
    pub fn default() -> (r: EncryptionType)
        ensures
            r is Plain,
    {
        EncryptionType::Plain
    }

    /// Largest plaintext whose encrypted form fits in `source_size` bytes.
    pub open spec fn spec_max_size(&self, source_size: nat) -> nat {
        match self {
            EncryptionType::Plain => source_size,
            EncryptionType::Aes(_) => if source_size >= AES_BLOCK {
                (source_size - AES_BLOCK) as nat
            } else {
                0
            },
        }
    }

    /// Largest plaintext whose encrypted form fits in `source_size` bytes:
    /// the source size less the padding room (a whole block for AES).
    pub fn max_size(&self, source_size: usize) -> (r: usize)
        ensures
            r == self.spec_max_size(source_size as nat),
            r <= source_size,
    {
        match self {
            EncryptionType::Plain => source_size,
            EncryptionType::Aes(_) => if source_size >= AES_BLOCK {
                source_size - AES_BLOCK
            } else {
                0
            },
        }
    }

    /// Short name of the scheme.
    pub fn human_readable(&self) -> (r: &'static str)
        ensures
            self is Plain ==> r@ == "none"@,
            self is Aes ==> r@ == "aes"@,
    {
        proof {
            reveal_strlit("none");
            reveal_strlit("aes");
        }
        match self {
            EncryptionType::Plain => "none",
            EncryptionType::Aes(_) => "aes",
        }
    }

    /// The bytes stored for `data` under descriptor `iv`.
    pub open spec fn spec_encrypt(&self, data: Seq<u8>, iv: Seq<u8>) -> Seq<u8> {
        match self {
            EncryptionType::Plain => data,
            EncryptionType::Aes(a) => aes_cbc_encrypt(a.spec_key(), Aes::spec_iv(iv), data),
        }
    }

    /// Whether blobs under descriptor `iv` can be encrypted at all.
    pub open spec fn usable(&self, iv: Seq<u8>) -> bool {
        match self {
            EncryptionType::Plain => true,
            EncryptionType::Aes(a) => a.usable(iv),
        }
    }

    /// The plaintext that decrypting `data` stored under descriptor `iv`
    /// gives; none where decryption fails.
    pub open spec fn spec_decrypt(&self, data: Seq<u8>, iv: Seq<u8>) -> Option<Seq<u8>> {
        match self {
            EncryptionType::Plain => Some(data),
            EncryptionType::Aes(a) => a.spec_decrypt(data, iv),
        }
    }

    /// Encrypts `data` for descriptor `iv`; without encryption the data is
    /// returned as it is. Fails only where the key or descriptor is unusable.
    pub fn encrypt(&self, data: Vec<u8>, iv: &Vec<u8>) -> (r: Result<Vec<u8>, String>)
        ensures
            self is Plain ==> r == Ok::<Vec<u8>, String>(data),
            r is Ok <==> self.usable(iv@),
            r matches Ok(v) ==> v@ == self.spec_encrypt(data@, iv@),
            self is Aes ==> (r matches Ok(v) ==> data@.len() > 0 ==> v@.len() == padded_len(
                data@.len(),
            )),
            self is Aes ==> (r matches Ok(v) ==> data@.len() == 0 ==> v@.len() == 0),
    {
        match self {
            EncryptionType::Plain => Ok(data),
            EncryptionType::Aes(a) => a.encrypt(&data, iv),
        }
    }

    /// Decrypts `data` stored under descriptor `iv`; without encryption the
    /// data is returned as it is.
    pub fn decrypt(&self, data: Vec<u8>, iv: &Vec<u8>) -> (r: Result<Vec<u8>, String>)
        ensures
            self is Plain ==> r == Ok::<Vec<u8>, String>(data),
            r is Ok <==> self.spec_decrypt(data@, iv@) is Some,
            r matches Ok(v) ==> v@ == self.spec_decrypt(data@, iv@)->Some_0,
            self.usable(iv@) ==> forall|p: Seq<u8>|
                (p.len() > 0 || self is Plain) && data@ == self.spec_encrypt(p, iv@) ==> (r matches Ok(
                    v,
                ) && v@ == p),
            self.usable(iv@) && data@.len() == 0 ==> (r matches Ok(v) && v@.len() == 0),
    {
        match self {
            EncryptionType::Plain => Ok(data),
            EncryptionType::Aes(a) => a.decrypt(&data, iv),
        }
    }
}

} // verus!
