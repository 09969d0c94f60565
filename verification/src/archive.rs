//! The encrypted game package (`.rrs`): a directory and a body, both AES-256-CBC.
//!
//! Layout: a little-endian `u32` directory length `n`; `n` bytes of directory (a 16-byte IV, then
//! ciphertext whose plaintext is PKCS#7-padded); a 16-byte IV for the body; then the body
//! ciphertext. The directory lists, after a `u32` count, for each file a `u32` path length, the
//! UTF-8 path, and a `u64` size. The body plaintext holds the files back to back in that order.
use aes::cipher::{BlockDecrypt, KeyInit};
use aes::Aes256;
use vstd::prelude::*;
use vstd::utf8::{decode_utf8, valid_utf8};

use crate::files::FileTable;

verus! {

/// AES-256 decryption of one 16-byte block under a 32-byte key.
pub uninterp spec fn aes256_decrypt(key: Seq<u8>, block: Seq<u8>) -> Seq<u8>;

/// The message of the UTF-8 error in `bytes`, as `std::str::from_utf8` (and `String::from_utf8`)
/// reports it, or nothing where the bytes are valid.
pub uninterp spec fn utf8_error_message(bytes: Seq<u8>) -> Seq<char>;

/// The `Display` of the error of `std::str::from_utf8` on `bytes` (empty where they are valid).
/// Claimed: the text is `utf8_error_message(bytes)`; what it says is not stated.
#[verifier::external_body]
pub(crate) fn utf8_error_text(bytes: &[u8]) -> (r: String)
    ensures
        r@ == utf8_error_message(bytes@),
{
    match std::str::from_utf8(bytes) {
        Ok(_) => String::new(),
        Err(e) => e.to_string(),
    }
}

/// Decrypts one block with the `aes` crate's `Aes256` (`KeyInit::new`, then
/// `BlockDecrypt::decrypt_block`). Claimed: the result is `aes256_decrypt` of key and block;
/// nothing of AES itself is stated.
#[verifier::external_body]
fn aes256_decrypt_block(key: &[u8; 32], block: &[u8; 16]) -> (out: [u8; 16])
    ensures
        out@ == aes256_decrypt(key@, block@),
{
    let cipher = Aes256::new(key.into());
    let mut out = *block;
    cipher.decrypt_block((&mut out).into());
    out
}

/// Checks `bytes` as UTF-8 with `std::str::from_utf8`. Claimed, as its documentation says: it
/// succeeds exactly on valid UTF-8, and then holds the decoded characters.
#[verifier::external_body]
pub(crate) fn utf8_str(bytes: &[u8]) -> (r: Option<&str>)
    ensures
        r is Some <==> valid_utf8(bytes@),
        r matches Some(s) ==> s@ == decode_utf8(bytes@),
{
    std::str::from_utf8(bytes).ok()
}

/// Why a package is refused.
pub enum Refusal {
    /// The data ends before a part that must be there (a short read).
    Truncated,
    /// The directory ciphertext holds nothing after its IV.
    EmptyDirectory,
    /// The directory's padding is wrong: the key is wrong or the package is damaged.
    WrongKeyOrCorrupt,
    /// A path in the directory is not UTF-8: its bytes.
    InvalidPath(Seq<u8>),
}

/// The text of a refusal.
pub open spec fn refusal_text(k: Refusal) -> Seq<char> {
    match k {
        Refusal::Truncated => "failed to fill whole buffer"@,
        Refusal::EmptyDirectory => "目录数据为空"@,
        Refusal::WrongKeyOrCorrupt => "密钥错误或文件损坏"@,
        Refusal::InvalidPath(path) => utf8_error_message(path),
    }
}

/// Why a package cannot be opened, as the front end is told.
#[derive(Debug, Clone, PartialEq, Eq)]
pub enum DecryptError {
    /// The data ends before a part that must be there (a short read).
    Truncated,
    /// The directory ciphertext holds nothing after its IV.
    EmptyDirectory,
    /// The directory's padding is wrong: the key is wrong or the package is damaged.
    WrongKeyOrCorrupt,
    /// A path in the directory is not UTF-8: the UTF-8 error's message.
    InvalidPath(String),
}

impl DecryptError {
    /// Whether this error reports the refusal `k`, with its text.
    pub open spec fn reports(self, k: Refusal) -> bool {
        match k {
            Refusal::Truncated => self is Truncated,
            Refusal::EmptyDirectory => self is EmptyDirectory,
            Refusal::WrongKeyOrCorrupt => self is WrongKeyOrCorrupt,
            Refusal::InvalidPath(path) => self matches DecryptError::InvalidPath(t) && t@
                == utf8_error_message(path),
        }
    }

    /// The text of this error, as the front end shows it.
    pub open spec fn spec_message(self) -> Seq<char> {
        match self {
            DecryptError::Truncated => "failed to fill whole buffer"@,
            DecryptError::EmptyDirectory => "目录数据为空"@,
            DecryptError::WrongKeyOrCorrupt => "密钥错误或文件损坏"@,
            DecryptError::InvalidPath(t) => t@,
        }
    }

    /// The text of this error, as the front end shows it.
    pub fn message(&self) -> (m: String)
        ensures
            m@ == self.spec_message(),
    {
        match self {
            DecryptError::Truncated => String::from_str("failed to fill whole buffer"),
            DecryptError::EmptyDirectory => String::from_str("目录数据为空"),
            DecryptError::WrongKeyOrCorrupt => String::from_str("密钥错误或文件损坏"),
            DecryptError::InvalidPath(t) => t.clone(),
        }
    }
}

/// The `u32` stored little-endian at `at`.
pub open spec fn le_u32(s: Seq<u8>, at: int) -> u32 {
    (s[at] as u32) | ((s[at + 1] as u32) << 8u32) | ((s[at + 2] as u32) << 16u32) | ((s[at
        + 3] as u32) << 24u32)
}

/// The `u64` stored little-endian at `at`.
pub open spec fn le_u64(s: Seq<u8>, at: int) -> u64 {
    (s[at] as u64) | ((s[at + 1] as u64) << 8u64) | ((s[at + 2] as u64) << 16u64) | ((s[at
        + 3] as u64) << 24u64) | ((s[at + 4] as u64) << 32u64) | ((s[at + 5] as u64) << 40u64)
        | ((s[at + 6] as u64) << 48u64) | ((s[at + 7] as u64) << 56u64)
}

/// The `k`-th 16-byte block of `s`.
pub open spec fn block_at(s: Seq<u8>, k: int) -> Seq<u8> {
    s.subrange(16 * k, 16 * k + 16)
}

/// Bytewise exclusive or of two 16-byte blocks.
pub open spec fn xor16(a: Seq<u8>, b: Seq<u8>) -> Seq<u8> {
    Seq::new(16, |i: int| a[i] ^ b[i])
}

/// What block `k` is chained with in CBC mode: the IV for the first, else the ciphertext before.
pub open spec fn chain_input(iv: Seq<u8>, ct: Seq<u8>, k: int) -> Seq<u8> {
    if k == 0 {
        iv
    } else {
        block_at(ct, k - 1)
    }
}

/// The plaintext of block `k` in CBC mode.
pub open spec fn cbc_plain_block(key: Seq<u8>, iv: Seq<u8>, ct: Seq<u8>, k: int) -> Seq<u8> {
    xor16(aes256_decrypt(key, block_at(ct, k)), chain_input(iv, ct, k))
}

/// AES-256-CBC decryption of every whole block of `ct`; a trailing partial block is ignored.
pub open spec fn cbc_decrypt(key: Seq<u8>, iv: Seq<u8>, ct: Seq<u8>) -> Seq<u8> {
    Seq::new(ct.len() / 16, |k: int| cbc_plain_block(key, iv, ct, k)).flatten()
}

/// Whether the last `p.last()` bytes of `p` all equal `p.last()`, a value from 1 to 16.
pub open spec fn pkcs7_padded(p: Seq<u8>) -> bool {
    let pad = p.last();
    &&& 1 <= pad <= 16
    &&& forall|i: int| p.len() - pad <= i < p.len() ==> p[i] == pad
}

/// A directory as read: its entries, or why reading it stopped.
pub enum Listing {
    /// Path and size of each file, in order.
    Entries(Seq<(Seq<char>, u64)>),
    /// A path is not UTF-8: its bytes.
    BadPath(Seq<u8>),
    /// The directory is cut short or declares sizes no buffer can hold.
    Malformed,
}

/// `es` in front of what `rest` lists.
pub open spec fn prepend(es: Seq<(Seq<char>, u64)>, rest: Listing) -> Listing {
    match rest {
        Listing::Entries(more) => Listing::Entries(es + more),
        other => other,
    }
}

/// The largest size a single file may declare: a buffer of more bytes cannot be reserved.
pub open spec fn max_file_size() -> int {
    0x7fff_ffff_ffff_ffff
}

/// Reads `count` entries of `raw` from `at`, the sizes before them adding up to `total`.
pub open spec fn read_entries(raw: Seq<u8>, count: nat, at: int, total: int) -> Listing
    decreases count,
{
    if count == 0 {
        Listing::Entries(seq![])
    } else if at + 4 > raw.len() {
        Listing::Malformed
    } else {
        let path_at = at + 4;
        let path_end = path_at + le_u32(raw, at);
        if path_end > raw.len() {
            Listing::Malformed
        } else if !valid_utf8(raw.subrange(path_at, path_end)) {
            Listing::BadPath(raw.subrange(path_at, path_end))
        } else if path_end + 8 > raw.len() {
            Listing::Malformed
        } else {
            let size = le_u64(raw, path_end);
            if total + size > u64::MAX || size > max_file_size() {
                Listing::Malformed
            } else {
                prepend(
                    seq![(decode_utf8(raw.subrange(path_at, path_end)), size)],
                    read_entries(raw, (count - 1) as nat, path_end + 8, total + size),
                )
            }
        }
    }
}

/// The directory that the plaintext `raw` holds: a `u32` count, then the entries.
pub open spec fn read_directory(raw: Seq<u8>) -> Listing {
    if raw.len() < 4 {
        Listing::Malformed
    } else {
        read_entries(raw, le_u32(raw, 0) as nat, 4, 0)
    }
}

/// The sum of the sizes of `es`.
pub open spec fn sizes_total(es: Seq<(Seq<char>, u64)>) -> int
    decreases es.len(),
{
    if es.len() == 0 {
        0
    } else {
        sizes_total(es.drop_last()) + es.last().1
    }
}

/// The bytes of `pt` from `start` for `size` bytes, as far as `pt` reaches.
pub open spec fn segment(pt: Seq<u8>, start: int, size: int) -> Seq<u8> {
    let lo = if start < pt.len() {
        start
    } else {
        pt.len() as int
    };
    let hi = if start + size < pt.len() {
        start + size
    } else {
        pt.len() as int
    };
    pt.subrange(lo, hi)
}

/// The files that the body plaintext `pt` holds for the entries `es`: each takes the next
/// `size` bytes, as far as they reach; a path listed twice gets both parts, one after the other.
pub open spec fn distribute(es: Seq<(Seq<char>, u64)>, pt: Seq<u8>) -> Map<Seq<char>, Seq<u8>>
    decreases es.len(),
{
    if es.len() == 0 {
        Map::empty()
    } else {
        let before = distribute(es.drop_last(), pt);
        let e = es.last();
        let part = segment(pt, sizes_total(es.drop_last()), e.1 as int);
        before.insert(
            e.0,
            if before.contains_key(e.0) {
                before[e.0] + part
            } else {
                part
            },
        )
    }
}

/// What opening a package gives.
pub enum Unpacked {
    /// The files, and the path of the last directory entry (the main script), if any.
    Files(Map<Seq<char>, Seq<u8>>, Option<Seq<char>>),
    /// The package is refused.
    Failed(Refusal),
    /// The directory is cut short, or the directory ciphertext is shorter than its IV.
    Malformed,
}

/// The directory ciphertext's length, from the first four bytes.
pub open spec fn directory_len(data: Seq<u8>) -> int {
    le_u32(data, 0) as int
}

/// The directory plaintext: its whole blocks decrypted, then zeros for a partial block.
pub open spec fn directory_plaintext(data: Seq<u8>, key: Seq<u8>) -> Seq<u8> {
    let n = directory_len(data);
    let ct = data.subrange(20, 4 + n);
    cbc_decrypt(key, data.subrange(4, 20), ct) + Seq::new((ct.len() % 16) as nat, |i: int| 0u8)
}

/// Opening the package `data` with `key`.
pub open spec fn unpack(data: Seq<u8>, key: Seq<u8>) -> Unpacked {
    if data.len() < 4 {
        Unpacked::Failed(Refusal::Truncated)
    } else if data.len() < 4 + directory_len(data) {
        Unpacked::Failed(Refusal::Truncated)
    } else if directory_len(data) < 16 {
        Unpacked::Malformed
    } else {
        let n = directory_len(data);
        let dpt = directory_plaintext(data, key);
        if dpt.len() == 0 {
            Unpacked::Failed(Refusal::EmptyDirectory)
        } else if !pkcs7_padded(dpt) {
            Unpacked::Failed(Refusal::WrongKeyOrCorrupt)
        } else {
            match read_directory(dpt.take(dpt.len() - dpt.last())) {
                Listing::Malformed => Unpacked::Malformed,
                Listing::BadPath(path) => Unpacked::Failed(Refusal::InvalidPath(path)),
                Listing::Entries(es) => if data.len() < 20 + n {
                    Unpacked::Failed(Refusal::Truncated)
                } else {
                    let pt = cbc_decrypt(key, data.subrange(4 + n, 20 + n), data.subrange(20 + n, data.len() as int));
                    Unpacked::Files(
                        distribute(es, pt),
                        if es.len() == 0 {
                            None
                        } else {
                            Some(es.last().0)
                        },
                    )
                },
            }
        }
    }
}

/// Where a package opens, its files hold the path of its last entry.
pub proof fn lemma_last_entry_stored(data: Seq<u8>, key: Seq<u8>)
    ensures
        unpack(data, key) matches Unpacked::Files(files, Some(last)) ==> files.contains_key(last),
{
    if data.len() >= 4 && data.len() >= 4 + directory_len(data) && directory_len(data) >= 16 {
        let n = directory_len(data);
        let dpt = directory_plaintext(data, key);
        if dpt.len() != 0 && pkcs7_padded(dpt) {
            match read_directory(dpt.take(dpt.len() - dpt.last())) {
                Listing::Entries(es) => {
                    if data.len() >= 20 + n && es.len() > 0 {
                        let pt = cbc_decrypt(key, data.subrange(4 + n, 20 + n), data.subrange(20 + n, data.len() as int));
                        assert(distribute(es, pt).contains_key(es.last().0));
                    }
                },
                _ => {},
            }
        }
    }
}

/// The path of `o`, seen as characters.
pub open spec fn name_view(o: Option<String>) -> Option<Seq<char>> {
    match o {
        Some(s) => Some(s@),
        None => None,
    }
}

/// Whether `res` is what opening `data` with `key` gives, `None` standing for a malformed package.
pub open spec fn opened_as(
    res: Option<Result<(FileTable, Option<String>), DecryptError>>,
    data: Seq<u8>,
    key: Seq<u8>,
) -> bool {
    match unpack(data, key) {
        Unpacked::Malformed => res is None,
        Unpacked::Failed(k) => res matches Some(Err(e)) && e.reports(k),
        Unpacked::Files(files, last) => match res {
            Some(Ok((t, l))) => t@ == files && name_view(l) == last,
            _ => false,
        },
    }
}

fn read_u32_le(s: &[u8], at: usize) -> (v: u32)
    requires
        at + 4 <= s@.len(),
    ensures
        v == le_u32(s@, at as int),
{
    (s[at] as u32) | ((s[at + 1] as u32) << 8u32) | ((s[at + 2] as u32) << 16u32) | ((s[at
        + 3] as u32) << 24u32)
}

fn read_u64_le(s: &[u8], at: usize) -> (v: u64)
    requires
        at + 8 <= s@.len(),
    ensures
        v == le_u64(s@, at as int),
{
    (s[at] as u64) | ((s[at + 1] as u64) << 8u64) | ((s[at + 2] as u64) << 16u64) | ((s[at
        + 3] as u64) << 24u64) | ((s[at + 4] as u64) << 32u64) | ((s[at + 5] as u64) << 40u64)
        | ((s[at + 6] as u64) << 48u64) | ((s[at + 7] as u64) << 56u64)
}

fn block16(s: &[u8], at: usize) -> (b: [u8; 16])
    requires
        at + 16 <= s@.len(),
    ensures
        b@ == s@.subrange(at as int, at + 16),
{
    let b = [
        s[at],
        s[at + 1],
        s[at + 2],
        s[at + 3],
        s[at + 4],
        s[at + 5],
        s[at + 6],
        s[at + 7],
        s[at + 8],
        s[at + 9],
        s[at + 10],
        s[at + 11],
        s[at + 12],
        s[at + 13],
        s[at + 14],
        s[at + 15],
    ];
    assert(b@ =~= s@.subrange(at as int, at + 16));
    b
}

/// AES-256-CBC decryption of the whole blocks of `ct`.
fn cbc_decrypt_blocks(key: &[u8; 32], iv: &[u8; 16], ct: &[u8]) -> (out: Vec<u8>)
    ensures
        out@ == cbc_decrypt(key@, iv@, ct@),
        out@.len() == (ct@.len() / 16) * 16,
{
    let len = ct.len();
    let nblocks = len / 16;
    let mut out: Vec<u8> = Vec::new();
    let mut prev: [u8; 16] = *iv;
    let mut k: usize = 0;
    while k < nblocks
        invariant
            nblocks == ct@.len() / 16,
            len == ct@.len(),
            k <= nblocks,
            prev@ == chain_input(iv@, ct@, k as int),
            out@ == Seq::new(k as nat, |j: int| cbc_plain_block(key@, iv@, ct@, j)).flatten(),
            out@.len() == 16 * k,
        decreases nblocks - k,
    {
        assert(16 * k + 16 <= ct@.len()) by (nonlinear_arith)
            requires
                k < nblocks,
                nblocks == ct@.len() / 16,
        ;
        let cur = block16(ct, 16 * k);
        let plain = aes256_decrypt_block(key, &cur);
        let ghost before = out@;
        let mut i: usize = 0;
        while i < 16
            invariant
                0 <= i <= 16,
                out@ == before + xor16(plain@, prev@).take(i as int),
            decreases 16 - i,
        {
            out.push(plain[i] ^ prev[i]);
            i = i + 1;
            assert(out@ =~= before + xor16(plain@, prev@).take(i as int));
        }
        proof {
            let f = |j: int| cbc_plain_block(key@, iv@, ct@, j);
            assert(xor16(plain@, prev@) == f(k as int));
            assert(Seq::new((k + 1) as nat, f) =~= Seq::new(k as nat, f).push(f(k as int)));
            Seq::new(k as nat, f).lemma_flatten_push(f(k as int));
            assert(xor16(plain@, prev@).take(16) =~= xor16(plain@, prev@));
        }
        prev = cur;
        k = k + 1;
    }
    out
}

/// The entries of a directory, paths seen as characters.
pub open spec fn entries_view(v: Seq<(String, u64)>) -> Seq<(Seq<char>, u64)> {
    v.map_values(|e: (String, u64)| (e.0@, e.1))
}

proof fn lemma_prepend_assoc(a: Seq<(Seq<char>, u64)>, b: Seq<(Seq<char>, u64)>, r: Listing)
    ensures
        prepend(a, prepend(b, r)) == prepend(a + b, r),
{
    match r {
        Listing::Entries(more) => {
            assert(a + (b + more) =~= (a + b) + more);
        },
        _ => {},
    }
}

proof fn lemma_total_prefix(es: Seq<(Seq<char>, u64)>, j: int)
    requires
        0 <= j <= es.len(),
    ensures
        sizes_total(es.take(j)) <= sizes_total(es),
        sizes_total(es) >= 0,
    decreases es.len(),
{
    if es.len() > 0 {
        lemma_total_prefix(es.drop_last(), if j == es.len() { j - 1 } else { j });
        if j < es.len() {
            assert(es.take(j) =~= es.drop_last().take(j));
        } else {
            assert(es.take(j) =~= es);
        }
    }
}

/// Why reading a directory stopped: a path that is not UTF-8 (with the error's message), or a
/// malformed directory.
enum Fault {
    BadPath(String),
    Malformed,
}

/// Reads the directory plaintext `raw`.
fn read_directory_entries(raw: &[u8]) -> (r: Result<Vec<(String, u64)>, Fault>)
    ensures
        match read_directory(raw@) {
            Listing::Entries(es) => r matches Ok(v) && entries_view(v@) == es && sizes_total(es)
                <= u64::MAX,
            Listing::BadPath(path) => r matches Err(Fault::BadPath(t)) && t@ == utf8_error_message(
                path,
            ),
            Listing::Malformed => r matches Err(Fault::Malformed),
        },
{
    let len = raw.len();
    if len < 4 {
        return Err(Fault::Malformed);
    }
    let count = read_u32_le(raw, 0);
    let mut out: Vec<(String, u64)> = Vec::new();
    let mut at: usize = 4;
    let mut total: u64 = 0;
    let mut i: u32 = 0;
    assert(entries_view(out@) =~= seq![]);
    proof {
        let r = read_entries(raw@, count as nat, 4, 0);
        assert(prepend(seq![], r) == r) by {
            match r {
                Listing::Entries(more) => {
                    assert(Seq::<(Seq<char>, u64)>::empty() + more =~= more);
                },
                _ => {},
            }
        }
    }
    while i < count
        invariant
            len == raw@.len(),
            4 <= at <= len,
            i <= count,
            total == sizes_total(entries_view(out@)),
            read_directory(raw@) == prepend(
                entries_view(out@),
                read_entries(raw@, (count - i) as nat, at as int, total as int),
            ),
        decreases count - i,
    {
        if len - at < 4 {
            return Err(Fault::Malformed);
        }
        let path_len = read_u32_le(raw, at) as usize;
        let path_at = at + 4;
        if len - path_at < path_len {
            return Err(Fault::Malformed);
        }
        let path_end = path_at + path_len;
        let path_bytes = &raw[path_at..path_end];
        assert(path_bytes@ =~= raw@.subrange(path_at as int, path_end as int));
        let name = match utf8_str(path_bytes) {
            Some(s) => String::from_str(s),
            None => {
                return Err(Fault::BadPath(utf8_error_text(path_bytes)));
            },
        };
        if len - path_end < 8 {
            return Err(Fault::Malformed);
        }
        let size = read_u64_le(raw, path_end);
        if size > u64::MAX - total || size > 0x7fff_ffff_ffff_ffff {
            return Err(Fault::Malformed);
        }
        let ghost before = entries_view(out@);
        let ghost entry = (name@, size);
        out.push((name, size));
        proof {
            assert(entries_view(out@) =~= before + seq![entry]);
            assert(entries_view(out@).drop_last() =~= before);
            lemma_prepend_assoc(
                before,
                seq![entry],
                read_entries(raw@, (count - i - 1) as nat, path_end + 8, total + size),
            );
        }
        total = total + size;
        at = path_end + 8;
        i = i + 1;
    }
    proof {
        assert(entries_view(out@) + seq![] =~= entries_view(out@));
    }
    Ok(out)
}

/// Cuts the body plaintext `pt` into the files that `entries` list.
fn distribute_files(entries: &Vec<(String, u64)>, pt: &[u8]) -> (t: FileTable)
    requires
        sizes_total(entries_view(entries@)) <= u64::MAX,
    ensures
        t@ == distribute(entries_view(entries@), pt@),
{
    let ghost es = entries_view(entries@);
    let mut t = FileTable::new();
    let mut start: u64 = 0;
    let mut i: usize = 0;
    let plen = pt.len();
    assert(es.take(0) =~= seq![]);
    while i < entries.len()
        invariant
            es == entries_view(entries@),
            sizes_total(es) <= u64::MAX,
            plen == pt@.len(),
            i <= entries@.len(),
            start == sizes_total(es.take(i as int)),
            t@ == distribute(es.take(i as int), pt@),
        decreases entries@.len() - i,
    {
        let size = entries[i].1;
        proof {
            assert(es.take(i + 1).drop_last() =~= es.take(i as int));
            assert(es.take(i + 1).last() == es[i as int]);
            lemma_total_prefix(es, i + 1);
        }
        let lo: usize = if start < plen as u64 {
            start as usize
        } else {
            plen
        };
        let hi: usize = if start + size < plen as u64 {
            (start + size) as usize
        } else {
            plen
        };
        let part = &pt[lo..hi];
        assert(part@ =~= segment(pt@, start as int, size as int));
        t.append(entries[i].0.clone(), part);
        start = start + size;
        i = i + 1;
    }
    assert(es.take(i as int) =~= es);
    t
}

/// Opens the package `data` with `key`: `None` where the package is malformed (its directory is
/// cut short, declares more bytes than can be reserved, or its ciphertext is shorter than an IV),
/// else the files and the path of the last entry, or why the package is refused.
pub fn try_decrypt_to_memory(data: &[u8], key: &[u8; 32]) -> (res: Option<
    Result<(FileTable, Option<String>), DecryptError>,
>)
    ensures
        opened_as(res, data@, key@),
{
    let len = data.len();
    if len < 4 {
        return Some(Err(DecryptError::Truncated));
    }
    let n = read_u32_le(data, 0) as usize;
    if len - 4 < n {
        return Some(Err(DecryptError::Truncated));
    }
    if n < 16 {
        return None;
    }
    let iv1 = block16(data, 4);
    let dct = &data[20..4 + n];
    assert(dct@ =~= data@.subrange(20, 4 + n as int));
    let mut dpt = cbc_decrypt_blocks(key, &iv1, dct);
    let ghost cbc_part = dpt@;
    let rem = dct.len() % 16;
    let mut z: usize = 0;
    assert(dpt@ =~= cbc_part + Seq::new(0, |i: int| 0u8));
    while z < rem
        invariant
            z <= rem,
            dpt@ == cbc_part + Seq::new(z as nat, |i: int| 0u8),
        decreases rem - z,
    {
        dpt.push(0u8);
        z = z + 1;
        assert(dpt@ =~= cbc_part + Seq::new(z as nat, |i: int| 0u8));
    }
    assert(dpt@ == directory_plaintext(data@, key@));
    let dlen = dpt.len();
    if dlen == 0 {
        return Some(Err(DecryptError::EmptyDirectory));
    }
    let pad = dpt[dlen - 1];
    if pad == 0 || pad > 16 {
        return Some(Err(DecryptError::WrongKeyOrCorrupt));
    }
    let p = pad as usize;
    assert(p <= dlen) by {
        if rem > 0 {
            assert(dpt@[dlen - 1] == 0u8);
        }
    }
    let mut j: usize = dlen - p;
    while j < dlen
        invariant
            dlen == dpt@.len(),
            p == pad,
            pad == dpt@.last(),
            dlen - p <= j <= dlen,
            forall|m: int| dlen - p <= m < j ==> dpt@[m] == pad,
            len == data@.len(),
            len >= 4 + n,
            n == directory_len(data@),
            n >= 16,
            dpt@ == directory_plaintext(data@, key@),
        decreases dlen - j,
    {
        if dpt[j] != pad {
            assert(!pkcs7_padded(dpt@));
            return Some(Err(DecryptError::WrongKeyOrCorrupt));
        }
        j = j + 1;
    }
    let raw = &dpt.as_slice()[0..dlen - p];
    assert(raw@ =~= dpt@.take(dlen - p));
    let entries = match read_directory_entries(raw) {
        Ok(v) => v,
        Err(Fault::BadPath(text)) => {
            return Some(Err(DecryptError::InvalidPath(text)));
        },
        Err(Fault::Malformed) => {
            return None;
        },
    };
    if len - (4 + n) < 16 {
        return Some(Err(DecryptError::Truncated));
    }
    let iv2 = block16(data, 4 + n);
    let body = &data[20 + n..len];
    assert(body@ =~= data@.subrange(20 + n as int, len as int));
    let pt = cbc_decrypt_blocks(key, &iv2, body);
    let table = distribute_files(&entries, pt.as_slice());
    let count = entries.len();
    let last = if count == 0 {
        None
    } else {
        Some(entries[count - 1].0.clone())
    };
    proof {
        if count > 0 {
            assert(entries_view(entries@).last() == (entries@[count - 1].0@, entries@[count - 1].1));
        }
    }
    Some(Ok((table, last)))
}

/// Opens the package `data` with `key`: the files and the path of the last directory entry, or
/// why the package is refused. The package must not be malformed (see `try_decrypt_to_memory`).
pub fn decrypt_to_memory(data: &[u8], key: &[u8; 32]) -> (res: Result<
    (FileTable, Option<String>),
    DecryptError,
>)
    requires
        !(unpack(data@, key@) is Malformed),
    ensures
        opened_as(Some(res), data@, key@),
{
    match try_decrypt_to_memory(data, key) {
        Some(r) => r,
        None => {
            proof {
                assert(false);
            }
            Err(DecryptError::Truncated)
        },
    }
}

proof fn lemma_distribute_keys(es: Seq<(Seq<char>, u64)>, pt: Seq<u8>, k: Seq<char>)
    ensures
        distribute(es, pt).contains_key(k) <==> exists|j: int| 0 <= j < es.len() && (#[trigger] es[j]).0 == k,
    decreases es.len(),
{
    if es.len() > 0 {
        let rest = es.drop_last();
        lemma_distribute_keys(rest, pt, k);
        if exists|j: int| 0 <= j < rest.len() && (#[trigger] rest[j]).0 == k {
            let j = choose|j: int| 0 <= j < rest.len() && (#[trigger] rest[j]).0 == k;
            assert(es[j] == rest[j]);
        }
        if exists|j: int| 0 <= j < es.len() && (#[trigger] es[j]).0 == k {
            let j = choose|j: int| 0 <= j < es.len() && (#[trigger] es[j]).0 == k;
            if j < rest.len() {
                assert(rest[j] == es[j]);
            }
        }
    }
}

/// A package's files are its directory's entries, each given exactly its own bytes: where no
/// path is listed twice and the body holds all the declared bytes, entry `i` gets the `size`
/// bytes of the body that follow the sizes before it.
pub proof fn lemma_files_exact(es: Seq<(Seq<char>, u64)>, pt: Seq<u8>, i: int)
    requires
        0 <= i < es.len(),
        forall|a: int, b: int| 0 <= a < b < es.len() ==> (#[trigger] es[a]).0 != (#[trigger] es[b]).0,
        sizes_total(es) <= pt.len(),
    ensures
        distribute(es, pt).contains_key(es[i].0),
        distribute(es, pt)[es[i].0] == pt.subrange(
            sizes_total(es.take(i)),
            sizes_total(es.take(i)) + es[i].1,
        ),
    decreases es.len(),
{
    let rest = es.drop_last();
    let n = es.len() - 1;
    lemma_total_prefix(es, n);
    assert(es.take(n) =~= rest);
    if i == n {
        lemma_distribute_keys(rest, pt, es[n].0);
        if exists|j: int| 0 <= j < rest.len() && (#[trigger] rest[j]).0 == es[n].0 {
            let j = choose|j: int| 0 <= j < rest.len() && (#[trigger] rest[j]).0 == es[n].0;
            assert(es[j].0 != es[n].0);
        }
        lemma_total_prefix(rest, rest.len() as int);
    } else {
        assert(forall|a: int, b: int|
            0 <= a < b < rest.len() ==> (#[trigger] rest[a]).0 != (#[trigger] rest[b]).0) by {
            assert forall|a: int, b: int| 0 <= a < b < rest.len() implies (#[trigger] rest[a]).0
                != (#[trigger] rest[b]).0 by {
                assert(rest[a] == es[a] && rest[b] == es[b]);
            }
        }
        lemma_total_prefix(rest, rest.len() as int);
        lemma_files_exact(rest, pt, i);
        assert(rest.take(i) =~= es.take(i));
        assert(rest[i] == es[i]);
        assert(es[i].0 != es[n].0);
    }
}

} // verus!
