//! Opening a game package: its files and its main script, with embedded sources inlined.
use vstd::prelude::*;
use vstd::utf8::{decode_utf8, valid_utf8};

use crate::archive::{
    lemma_last_entry_stored, refusal_text, try_decrypt_to_memory, unpack, utf8_error_message,
    utf8_error_text, utf8_str, Unpacked,
};
use crate::error::{joined, ErrorCode, RTError};
use crate::files::FileTable;
use crate::parser::{embedded, parse_embed};

verus! {

/// An opened package.
pub struct Package {
    /// Its files, by path.
    pub files: FileTable,
    /// The path of its main script (the last directory entry).
    pub main_name: String,
    /// The main script, embedded sources inlined.
    pub script: String,
}

/// The message of a package that cannot be decrypted.
pub open spec fn undecryptable() -> Seq<char> {
    "Cannot decrypt your data, might be the aes key not equal the decrypt data!"@
}

/// The message of a refused package, before the reason.
pub open spec fn refused_prefix() -> Seq<char> {
    undecryptable() + "\nmessage: "@
}

/// The message of a main script that is not UTF-8, before the reason.
pub open spec fn bad_encoding() -> Seq<char> {
    "Your lua file have a wrong encoding! please try again!\nmessage: "@
}

/// Whether `r` is what opening `data` with `key` gives (see `open_package`).
pub open spec fn package_opened_as(r: Option<Result<Package, RTError>>, data: Seq<u8>, key: Seq<u8>) -> bool {
    match unpack(data, key) {
        Unpacked::Malformed => r is None,
        Unpacked::Failed(k) => r matches Some(Err(x)) && x.code == ErrorCode::CannotDecryptData
            && x.msg@ == refused_prefix() + refusal_text(k),
        Unpacked::Files(files, None) => r matches Some(Err(x)) && x.code
            == ErrorCode::CannotDecryptData && x.msg@ == undecryptable(),
        Unpacked::Files(files, Some(main)) => if !valid_utf8(files[main]) {
            r matches Some(Err(x)) && x.code == ErrorCode::CannotParseLuaFile && x.msg@
                == bad_encoding() + utf8_error_message(files[main])
        } else {
            r matches Some(Ok(p)) && p.files@ == files && p.main_name@ == main && p.script@
                == embedded(main, decode_utf8(files[main]), files)
        },
    }
}

/// Opens the package `data` with `key`: its files, its main script (the last entry, which must
/// be UTF-8) with embedded sources inlined; or why it cannot be opened (codes
/// `CannotDecryptData`, `CannotParseLuaFile`); `None` where the package is malformed.
pub fn open_package(data: &[u8], key: &[u8; 32]) -> (r: Option<Result<Package, RTError>>)
    ensures
        package_opened_as(r, data@, key@),
{
    proof {
        lemma_last_entry_stored(data@, key@);
    }
    let opened = match try_decrypt_to_memory(data, key) {
        None => {
            return None;
        },
        Some(o) => o,
    };
    let (files, last) = match opened {
        Err(e) => {
            let head = joined(
                "Cannot decrypt your data, might be the aes key not equal the decrypt data!",
                "\nmessage: ",
            );
            let msg = joined(head.as_str(), e.message().as_str());
            return Some(Err(RTError { msg, code: ErrorCode::CannotDecryptData }));
        },
        Ok(v) => v,
    };
    let main_name = match last {
        None => {
            let msg = String::from_str(
                "Cannot decrypt your data, might be the aes key not equal the decrypt data!",
            );
            return Some(Err(RTError { msg, code: ErrorCode::CannotDecryptData }));
        },
        Some(m) => m,
    };
    let bytes = match files.get(main_name.as_str()) {
        Some(b) => b,
        None => {
            proof {
                assert(false);
            }
            return None;
        },
    };
    let script = match utf8_str(bytes.as_slice()) {
        None => {
            let prefix = "Your lua file have a wrong encoding! please try again!\nmessage: ";
            let msg = joined(prefix, utf8_error_text(bytes.as_slice()).as_str());
            return Some(Err(RTError { msg, code: ErrorCode::CannotParseLuaFile }));
        },
        Some(content) => parse_embed(main_name.as_str(), content, &files),
    };
    Some(Ok(Package { files, main_name, script }))
}

} // verus!
