use chunkdrive::encryption::{to_size, unpad, Aes, AesType, EncryptionType, AES_BLOCK};

#[test]
fn simple() {
    let aes = Aes { key: "c3VwZXJzZWNyZXQ=".to_string(), size: AesType::Aes128 };
    let data = "Perferendis nihil quidem neque sed blanditiis.".as_bytes().to_vec();
    let iv = "0123f9abcdef".as_bytes().to_vec();
    let encrypted = aes.encrypt(&data, &iv).unwrap();
    let encrypted_copy = encrypted.clone();
    assert_ne!(encrypted, data);
    let decrypted = aes.decrypt(&encrypted, &iv).unwrap();
    assert_eq!(decrypted, data);

    let iv2 = "0123f9abcde".as_bytes().to_vec();
    let encrypted2 = aes.encrypt(&data, &iv2).unwrap();

    assert_ne!(encrypted2, encrypted_copy);
}

#[test]
fn key_extender() {
    let input_key = '0';
    let key = vec![input_key as u8];

    let extended = to_size(&key, 126);
    println!("{:?}", extended);

    // how often the single byte of the initial key is repeated
    let input_count = extended.iter().filter(|&x| *x == input_key as u8).count();
    // less than half of the stretched key
    assert!(input_count < 125 / 2);

    let extended2 = to_size(&key, 126);
    assert_eq!(extended, extended2);
}

#[test]
fn key_extender_exact_bytes() {
    // byte i >= 1 is rotl(48, i % 3) + byte i - 1, modulo 256
    let extended = to_size(&vec![48u8], 4);
    assert_eq!(extended, vec![48, 144, 80, 128]);
    assert_eq!(to_size(&vec![1, 2, 3], 2), vec![1, 2]);
    assert_eq!(to_size(&Vec::new(), 5), Vec::<u8>::new());
}

#[test]
fn key_sizes() {
    assert_eq!(AesType::Aes128.key_size(), 16);
    assert_eq!(AesType::Aes192.key_size(), 24);
    assert_eq!(AesType::Aes256.key_size(), 32);
    assert_eq!(AesType::Aes256.iv_size(), AES_BLOCK);
}

#[test]
fn encryption_round_trip_every_key_size() {
    for size in [AesType::Aes128, AesType::Aes192, AesType::Aes256] {
        let e = EncryptionType::Aes(Aes { key: "secret".to_string(), size });
        for n in [0usize, 1, 15, 16, 17, 100] {
            let data: Vec<u8> = (0..n).map(|i| (i * 7) as u8).collect();
            let iv = b"descriptor".to_vec();
            let enc = e.encrypt(data.clone(), &iv).unwrap();
            if n > 0 {
                assert_eq!(enc.len(), (n / 16 + 1) * 16);
                assert_ne!(enc, data);
            }
            assert_eq!(e.decrypt(enc, &iv).unwrap(), data);
        }
    }
}

#[test]
fn plain_encryption_is_identity() {
    let e = EncryptionType::Plain;
    let data = vec![1u8, 2, 3];
    assert_eq!(e.encrypt(data.clone(), &b"d".to_vec()).unwrap(), data);
    assert_eq!(e.decrypt(data.clone(), &b"d".to_vec()).unwrap(), data);
    assert_eq!(e.max_size(26), 26);
    assert_eq!(e.human_readable(), "none");
}

#[test]
fn aes_max_size_leaves_padding_room() {
    let e = EncryptionType::Aes(Aes { key: "k".to_string(), size: AesType::Aes128 });
    assert_eq!(e.max_size(26), 10);
    assert_eq!(e.max_size(16), 0);
    assert_eq!(e.max_size(5), 0);
    assert_eq!(e.human_readable(), "aes");
}

#[test]
fn aes_rejects_empty_iv_and_bad_ciphertext() {
    let aes = Aes { key: "k".to_string(), size: AesType::Aes128 };
    assert!(aes.encrypt(&vec![1, 2, 3], &Vec::new()).is_err());
    let empty_key = Aes { key: String::new(), size: AesType::Aes128 };
    assert!(empty_key.encrypt(&vec![1, 2, 3], &b"d".to_vec()).is_err());
    assert!(aes.decrypt(&vec![1, 2, 3], &b"d".to_vec()).is_err());
}

#[test]
fn decrypt_rejects_oversized_padding_without_panicking() {
    let aes = Aes { key: "k".to_string(), size: AesType::Aes128 };
    let iv = b"descriptor".to_vec();
    // the first block of this ciphertext deciphers to sixteen bytes of 32
    let enc = aes.encrypt(&vec![32u8; 16], &iv).unwrap();
    assert_eq!(enc.len(), 32);
    assert!(aes.decrypt(&enc[..16].to_vec(), &iv).is_err());
    let enc = aes.encrypt(&vec![0u8; 16], &iv).unwrap();
    assert!(aes.decrypt(&enc[..16].to_vec(), &iv).is_err());
    assert_eq!(aes.decrypt(&Vec::new(), &iv).unwrap(), Vec::<u8>::new());
    assert_eq!(aes.encrypt(&Vec::new(), &iv).unwrap(), Vec::<u8>::new());
}

#[test]
fn unpad_checks_every_padding_byte() {
    assert_eq!(unpad(&vec![1, 2, 3, 2, 2]), Some(vec![1, 2, 3]));
    assert_eq!(unpad(&vec![1, 2, 3, 1, 2]), None);
    assert_eq!(unpad(&vec![17; 17]), None);
    assert_eq!(unpad(&vec![0]), None);
    assert_eq!(unpad(&vec![16; 16]), Some(Vec::new()));
}
