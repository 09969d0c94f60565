use aes::cipher::{BlockEncrypt, KeyInit};
use aes::Aes256;
use renrs::archive::{decrypt_to_memory, try_decrypt_to_memory, DecryptError};

const KEY: [u8; 32] = [7u8; 32];

type Opened = Option<Result<(renrs::files::FileTable, Option<String>), DecryptError>>;

/// The outcome without the files: the last name, or the error.
fn outcome(r: Opened) -> Option<Result<Option<String>, DecryptError>> {
    r.map(|x| x.map(|(_, last)| last))
}
const IV1: [u8; 16] = [1u8; 16];
const IV2: [u8; 16] = [2u8; 16];

fn pkcs7(mut data: Vec<u8>) -> Vec<u8> {
    let pad = 16 - data.len() % 16;
    for _ in 0..pad {
        data.push(pad as u8);
    }
    data
}

fn cbc_encrypt(key: &[u8; 32], iv: &[u8; 16], plain: &[u8]) -> Vec<u8> {
    assert_eq!(plain.len() % 16, 0);
    let cipher = Aes256::new(key.into());
    let mut prev = *iv;
    let mut out = Vec::new();
    for chunk in plain.chunks(16) {
        let mut block = [0u8; 16];
        for i in 0..16 {
            block[i] = chunk[i] ^ prev[i];
        }
        cipher.encrypt_block((&mut block).into());
        out.extend_from_slice(&block);
        prev = block;
    }
    out
}

fn directory(entries: &[(&[u8], u64)], count: u32) -> Vec<u8> {
    let mut raw = Vec::new();
    raw.extend_from_slice(&count.to_le_bytes());
    for (path, size) in entries {
        raw.extend_from_slice(&(path.len() as u32).to_le_bytes());
        raw.extend_from_slice(path);
        raw.extend_from_slice(&size.to_le_bytes());
    }
    raw
}

fn assemble(key: &[u8; 32], raw_dir: Vec<u8>, body: Vec<u8>) -> Vec<u8> {
    let mut dir_ct = IV1.to_vec();
    dir_ct.extend(cbc_encrypt(key, &IV1, &pkcs7(raw_dir)));
    let mut data = Vec::new();
    data.extend_from_slice(&(dir_ct.len() as u32).to_le_bytes());
    data.extend(dir_ct);
    data.extend_from_slice(&IV2);
    data.extend(cbc_encrypt(key, &IV2, &pkcs7(body)));
    data
}

fn package(files: &[(&str, &[u8])]) -> Vec<u8> {
    let entries: Vec<(&[u8], u64)> =
        files.iter().map(|(p, c)| (p.as_bytes(), c.len() as u64)).collect();
    let mut body = Vec::new();
    for (_, c) in files {
        body.extend_from_slice(c);
    }
    assemble(&KEY, directory(&entries, files.len() as u32), body)
}

#[test]
fn round_trip_gives_every_file_and_the_last_name() {
    let big: Vec<u8> = (0..40000u32).map(|i| (i % 251) as u8).collect();
    let data = package(&[("lib.lua", b"return 1"), ("big.bin", &big), ("main.lua", b"print(1)")]);
    let (files, last) = try_decrypt_to_memory(&data, &KEY).unwrap().unwrap();
    assert_eq!(files.len(), 3);
    assert_eq!(files.get("lib.lua").unwrap(), &b"return 1".to_vec());
    assert_eq!(files.get("big.bin").unwrap(), &big);
    assert_eq!(files.get("main.lua").unwrap(), &b"print(1)".to_vec());
    assert_eq!(files.get("missing"), None);
    assert_eq!(last, Some("main.lua".to_string()));
}

#[test]
fn decrypt_to_memory_opens_a_package() {
    let data = package(&[("a.lua", b"x"), ("main.lua", b"")]);
    let (files, last) = decrypt_to_memory(&data, &KEY).unwrap();
    assert_eq!(files.get("a.lua").unwrap(), &b"x".to_vec());
    assert_eq!(files.get("main.lua").unwrap(), &Vec::<u8>::new());
    assert_eq!(last, Some("main.lua".to_string()));
}

#[test]
fn non_ascii_paths_are_kept() {
    let data = package(&[("图片/猫.png", &[1, 2, 3]), ("主.lua", b"--")]);
    let (files, last) = try_decrypt_to_memory(&data, &KEY).unwrap().unwrap();
    assert_eq!(files.get("图片/猫.png").unwrap(), &vec![1, 2, 3]);
    assert_eq!(last, Some("主.lua".to_string()));
}

#[test]
fn no_entries_gives_no_name() {
    let data = package(&[]);
    let (files, last) = try_decrypt_to_memory(&data, &KEY).unwrap().unwrap();
    assert_eq!(files.len(), 0);
    assert_eq!(last, None);
}

#[test]
fn wrong_key_is_refused() {
    let data = package(&[("main.lua", b"print(1)")]);
    let other = [9u8; 32];
    assert_eq!(outcome(try_decrypt_to_memory(&data, &other)), Some(Err(DecryptError::WrongKeyOrCorrupt)));
}

#[test]
fn fewer_than_four_bytes_are_truncated() {
    assert_eq!(outcome(try_decrypt_to_memory(&[], &KEY)), Some(Err(DecryptError::Truncated)));
    assert_eq!(outcome(try_decrypt_to_memory(&[1, 2, 3], &KEY)), Some(Err(DecryptError::Truncated)));
}

#[test]
fn directory_longer_than_the_data_is_truncated() {
    let data = package(&[("main.lua", b"print(1)")]);
    let dir_len = u32::from_le_bytes([data[0], data[1], data[2], data[3]]) as usize;
    let cut = &data[..4 + dir_len - 1];
    assert_eq!(outcome(try_decrypt_to_memory(cut, &KEY)), Some(Err(DecryptError::Truncated)));
}

#[test]
fn missing_body_iv_is_truncated() {
    let data = package(&[("main.lua", b"print(1)")]);
    let dir_len = u32::from_le_bytes([data[0], data[1], data[2], data[3]]) as usize;
    let cut = &data[..4 + dir_len + 15];
    assert_eq!(outcome(try_decrypt_to_memory(cut, &KEY)), Some(Err(DecryptError::Truncated)));
}

#[test]
fn directory_shorter_than_an_iv_is_malformed() {
    let mut data = 8u32.to_le_bytes().to_vec();
    data.extend_from_slice(&[0u8; 8]);
    assert_eq!(outcome(try_decrypt_to_memory(&data, &KEY)), None);
}

#[test]
fn directory_of_only_an_iv_is_empty() {
    let mut data = 16u32.to_le_bytes().to_vec();
    data.extend_from_slice(&[0u8; 16]);
    assert_eq!(outcome(try_decrypt_to_memory(&data, &KEY)), Some(Err(DecryptError::EmptyDirectory)));
}

#[test]
fn partial_directory_block_breaks_the_padding() {
    let raw = directory(&[(b"main.lua", 1)], 1);
    let mut dir_ct = IV1.to_vec();
    dir_ct.extend(cbc_encrypt(&KEY, &IV1, &pkcs7(raw)));
    dir_ct.push(0xaa);
    let mut data = (dir_ct.len() as u32).to_le_bytes().to_vec();
    data.extend(dir_ct);
    data.extend_from_slice(&IV2);
    data.extend(cbc_encrypt(&KEY, &IV2, &pkcs7(b"x".to_vec())));
    assert_eq!(outcome(try_decrypt_to_memory(&data, &KEY)), Some(Err(DecryptError::WrongKeyOrCorrupt)));
}

#[test]
fn bad_padding_value_is_refused() {
    let mut raw = directory(&[(b"main.lua", 1)], 1);
    while raw.len() % 16 != 15 {
        raw.push(0);
    }
    raw.push(17);
    let mut dir_ct = IV1.to_vec();
    dir_ct.extend(cbc_encrypt(&KEY, &IV1, &raw));
    let mut data = (dir_ct.len() as u32).to_le_bytes().to_vec();
    data.extend(dir_ct);
    data.extend_from_slice(&IV2);
    assert_eq!(outcome(try_decrypt_to_memory(&data, &KEY)), Some(Err(DecryptError::WrongKeyOrCorrupt)));
}

#[test]
fn path_that_is_not_utf8_is_refused() {
    let raw = directory(&[(&[0xff, 0xfe], 1)], 1);
    let data = assemble(&KEY, raw, b"x".to_vec());
    assert_eq!(
        outcome(try_decrypt_to_memory(&data, &KEY)),
        Some(Err(DecryptError::InvalidPath(
            "invalid utf-8 sequence of 1 bytes from index 0".to_string()
        )))
    );
}

#[test]
fn count_beyond_the_entries_is_malformed() {
    let raw = directory(&[(b"main.lua", 1)], 2);
    let data = assemble(&KEY, raw, b"x".to_vec());
    assert_eq!(outcome(try_decrypt_to_memory(&data, &KEY)), None);
}

#[test]
fn directory_without_a_count_is_malformed() {
    let data = assemble(&KEY, vec![1, 0], Vec::new());
    assert_eq!(outcome(try_decrypt_to_memory(&data, &KEY)), None);
}

#[test]
fn size_too_large_for_a_buffer_is_malformed() {
    let raw = directory(&[(b"main.lua", 0x8000_0000_0000_0000)], 1);
    let data = assemble(&KEY, raw, b"x".to_vec());
    assert_eq!(outcome(try_decrypt_to_memory(&data, &KEY)), None);
}

#[test]
fn path_listed_twice_gets_both_parts() {
    let raw = directory(&[(b"a.txt", 2), (b"b.txt", 1), (b"a.txt", 3)], 3);
    let data = assemble(&KEY, raw, b"xyzpqr".to_vec());
    let (files, last) = try_decrypt_to_memory(&data, &KEY).unwrap().unwrap();
    assert_eq!(files.len(), 2);
    assert_eq!(files.get("a.txt").unwrap(), &b"xypqr".to_vec());
    assert_eq!(files.get("b.txt").unwrap(), &b"z".to_vec());
    assert_eq!(last, Some("a.txt".to_string()));
}

#[test]
fn short_body_gives_what_is_there() {
    let raw = directory(&[(b"a.txt", 3), (b"b.txt", 100)], 2);
    let data = assemble(&KEY, raw, b"abcdef".to_vec());
    let (files, _) = try_decrypt_to_memory(&data, &KEY).unwrap().unwrap();
    assert_eq!(files.get("a.txt").unwrap(), &b"abc".to_vec());
    // the rest of the body plaintext, padding included
    let mut rest = b"def".to_vec();
    rest.extend_from_slice(&[10u8; 10]);
    assert_eq!(files.get("b.txt").unwrap(), &rest);
}

#[test]
fn messages_of_the_errors() {
    assert_eq!(DecryptError::Truncated.message(), "failed to fill whole buffer");
    assert_eq!(DecryptError::EmptyDirectory.message(), "目录数据为空");
    assert_eq!(DecryptError::WrongKeyOrCorrupt.message(), "密钥错误或文件损坏");
    assert_eq!(DecryptError::InvalidPath("bad".to_string()).message(), "bad");
}

#[test]
fn each_entry_gets_exactly_its_bytes() {
    let data = package(&[("one", b"1111"), ("two", b"22"), ("three", b"333333")]);
    let (files, _) = try_decrypt_to_memory(&data, &KEY).unwrap().unwrap();
    assert_eq!(files.get("one").unwrap(), &b"1111".to_vec());
    assert_eq!(files.get("two").unwrap(), &b"22".to_vec());
    assert_eq!(files.get("three").unwrap(), &b"333333".to_vec());
}
