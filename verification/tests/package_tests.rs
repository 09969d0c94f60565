use aes::cipher::{BlockEncrypt, KeyInit};
use aes::Aes256;
use renrs::codec::decode_aes_key;
use renrs::error::{joined, ErrorCode};
use renrs::package::open_package;

const KEY: [u8; 32] = [3u8; 32];

fn cbc_encrypt(key: &[u8; 32], iv: &[u8; 16], data: &[u8]) -> Vec<u8> {
    let mut plain = data.to_vec();
    let pad = 16 - plain.len() % 16;
    for _ in 0..pad {
        plain.push(pad as u8);
    }
    let cipher = Aes256::new(key.into());
    let mut prev = *iv;
    let mut out = iv.to_vec();
    for chunk in plain.chunks(16) {
        let mut block = [0u8; 16];
        for i in 0..16 {
            block[i] = chunk[i] ^ prev[i];
        }
        cipher.encrypt_block((&mut block).into());
        out.extend_from_slice(&block);
        prev = block;
    }
    out
}

fn package(files: &[(&str, &[u8])]) -> Vec<u8> {
    let mut raw = (files.len() as u32).to_le_bytes().to_vec();
    let mut body = Vec::new();
    for (path, contents) in files {
        raw.extend_from_slice(&(path.len() as u32).to_le_bytes());
        raw.extend_from_slice(path.as_bytes());
        raw.extend_from_slice(&(contents.len() as u64).to_le_bytes());
        body.extend_from_slice(contents);
    }
    let dir = cbc_encrypt(&KEY, &[5u8; 16], &raw);
    let mut data = (dir.len() as u32).to_le_bytes().to_vec();
    data.extend(dir);
    data.extend(cbc_encrypt(&KEY, &[6u8; 16], &body));
    data
}

#[test]
fn opens_and_inlines_the_main_script() {
    let data = package(&[
        ("lib.lua", b"local x = 1\nreturn x"),
        ("main.lua", b"print('a')\nlocal lib = embedLuaFile(\"lib.lua\")\nprint(lib)"),
    ]);
    let p = open_package(&data, &KEY).unwrap().unwrap();
    assert_eq!(p.main_name, "main.lua");
    assert_eq!(p.script, "print('a')\nlocal x = 1\nreturn x\nprint(lib)");
    assert_eq!(p.files.len(), 2);
    assert_eq!(p.files.get("lib.lua").unwrap(), &b"local x = 1\nreturn x".to_vec());
}

#[test]
fn main_script_that_is_not_utf8_is_refused() {
    let data = package(&[("main.lua", &[0x61, 0xff, 0x62])]);
    let e = open_package(&data, &KEY).unwrap().err().unwrap();
    assert_eq!(e.code, ErrorCode::CannotParseLuaFile);
    assert_eq!(e.code.code(), -5);
    assert_eq!(
        e.msg,
        "Your lua file have a wrong encoding! please try again!\nmessage: invalid utf-8 sequence of 1 bytes from index 1"
    );
}

#[test]
fn package_without_entries_has_no_main_script() {
    let data = package(&[]);
    let e = open_package(&data, &KEY).unwrap().err().unwrap();
    assert_eq!(e.code, ErrorCode::CannotDecryptData);
    assert_eq!(e.msg, "Cannot decrypt your data, might be the aes key not equal the decrypt data!");
}

#[test]
fn wrong_key_is_reported_with_the_reason() {
    let data = package(&[("main.lua", b"print(1)")]);
    let e = open_package(&data, &[4u8; 32]).unwrap().err().unwrap();
    assert_eq!(e.code, ErrorCode::CannotDecryptData);
    assert_eq!(e.code.code(), -4);
    assert_eq!(
        e.msg,
        "Cannot decrypt your data, might be the aes key not equal the decrypt data!\nmessage: 密钥错误或文件损坏"
    );
}

#[test]
fn truncated_data_is_reported() {
    let e = open_package(&[1, 0], &KEY).unwrap().err().unwrap();
    assert_eq!(
        e.msg,
        "Cannot decrypt your data, might be the aes key not equal the decrypt data!\nmessage: failed to fill whole buffer"
    );
}

#[test]
fn path_that_is_not_utf8_is_reported_with_the_reason() {
    let mut raw = 1u32.to_le_bytes().to_vec();
    raw.extend_from_slice(&3u32.to_le_bytes());
    raw.extend_from_slice(&[b'a', 0xe4, 0xbd]);
    raw.extend_from_slice(&1u64.to_le_bytes());
    let dir = cbc_encrypt(&KEY, &[5u8; 16], &raw);
    let mut data = (dir.len() as u32).to_le_bytes().to_vec();
    data.extend(dir);
    data.extend(cbc_encrypt(&KEY, &[6u8; 16], b"x"));
    let e = open_package(&data, &KEY).unwrap().err().unwrap();
    assert_eq!(e.code, ErrorCode::CannotDecryptData);
    assert_eq!(
        e.msg,
        "Cannot decrypt your data, might be the aes key not equal the decrypt data!\nmessage: incomplete utf-8 byte sequence from index 1"
    );
}

#[test]
fn malformed_package_gives_none() {
    let mut data = 4u32.to_le_bytes().to_vec();
    data.extend_from_slice(&[0, 0, 0, 0]);
    assert!(open_package(&data, &KEY).is_none());
}

#[test]
fn key_of_32_bytes_decodes() {
    let k = decode_aes_key("AAECAwQFBgcICQoLDA0ODxAREhMUFRYXGBkaGxwdHh8=").unwrap();
    let expected: Vec<u8> = (0u8..32).collect();
    assert_eq!(k.to_vec(), expected);
}

#[test]
fn key_of_wrong_length_is_refused() {
    let e = decode_aes_key("AAECAwQFBgcICQoLDA0ODw==").unwrap_err();
    assert_eq!(e.code, ErrorCode::AesKeyHasWrong);
    assert_eq!(e.code.code(), -2147483647);
    assert_eq!(e.msg, "AES Key is fault! please enter a real AES Key!\nmessage: wrong key length");
}

#[test]
fn key_that_is_not_base64_is_refused() {
    let e = decode_aes_key("!!!!").unwrap_err();
    assert_eq!(e.code, ErrorCode::AesKeyHasWrong);
    assert_eq!(
        e.msg,
        "AES Key is fault! please enter a real AES Key!\nmessage: Invalid symbol 33, offset 0."
    );
}

#[test]
fn error_codes_are_the_front_end_numbers() {
    assert_eq!(ErrorCode::CannotGetExecuteDir.code(), -1);
    assert_eq!(ErrorCode::CannotReadGamesPath.code(), -2);
    assert_eq!(ErrorCode::CannotCreateGameDir.code(), -3);
    assert_eq!(ErrorCode::CannotDecryptData.code(), -4);
    assert_eq!(ErrorCode::CannotParseLuaFile.code(), -5);
    assert_eq!(ErrorCode::CannotCreateLuaGlobal.code(), -6);
    assert_eq!(ErrorCode::CannotFindSaveDirectoryDefine.code(), -7);
    assert_eq!(ErrorCode::CannotInitHomeDir.code(), -10000);
    assert_eq!(ErrorCode::AesKeyHasWrong.code(), -2147483647);
    assert_eq!(ErrorCode::NotImplements.code(), i32::MIN);
}

#[test]
fn joined_puts_one_after_the_other() {
    assert_eq!(joined("ab", "cd"), "abcd");
    assert_eq!(joined("", "猫"), "猫");
}

#[test]
fn key_in_non_canonical_base64_is_refused() {
    let e = decode_aes_key("AAECAwQFBgcICQoLDA0ODxAREhMUFRYXGBkaGxwdHh8").unwrap_err();
    assert_eq!(e.msg, "AES Key is fault! please enter a real AES Key!\nmessage: Invalid padding");
    let e = decode_aes_key("AAECAwQFBgcICQoLDA0ODxAREhMUFRYXGBkaGxwdHh9=").unwrap_err();
    assert_eq!(e.code, ErrorCode::AesKeyHasWrong);
    assert!(e.msg.starts_with("AES Key is fault! please enter a real AES Key!\nmessage: Invalid last symbol"));
}
