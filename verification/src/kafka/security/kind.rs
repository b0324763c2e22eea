use vstd::prelude::*;
use super::pkcs12::{is_pkcs12_der, pkcs12_from_der};
use crate::kafka::decoder::opt_bytes;
use crate::text::{ascii_lower, chars_end_with, chars_of, has_suffix, lower_chars};

verus! {

/// The kinds of trust store that a path may lead to.
#[derive(Debug, Clone, Copy, PartialEq, Eq)]
pub enum KeyStoreKind {
    /// A PEM file, or a directory of certificates.
    PemOrDir,
    /// A Java key store.
    JksOrJceks,
    Pkcs12,
    Unknown,
}

/// The path names a PEM file by its ending, in any case of letters: `.pem`, `.crt`, `.cer`
/// or `.bundle`.
pub open spec fn has_pem_ending(path: Seq<char>) -> bool {
    let lower = ascii_lower(path);
    has_suffix(lower, ".pem"@) || has_suffix(lower, ".crt"@) || has_suffix(lower, ".cer"@)
        || has_suffix(lower, ".bundle"@)
}

/// The bytes begin with the magic number of a Java key store.
pub open spec fn has_jks_magic(content: Seq<u8>) -> bool {
    content.len() >= 4 && content[0] == 0xFE && content[1] == 0xED && content[2] == 0xFE
        && content[3] == 0xED
}

/// The kind of trust store at `path`, which is a directory or not as `is_dir` says and
/// holds `content` where it could be read.
///
/// A directory and a file with a PEM ending hold PEM. The endings `.p12` and `.pfx` name
/// PKCS#12, `.jceks` a Java key store. A file that ends in `.jks` is a Java key store when
/// it begins with the magic number, PKCS#12 when it parses as such, and unknown otherwise.
pub open spec fn keystore_kind(path: Seq<char>, is_dir: bool, content: Option<Seq<u8>>) -> KeyStoreKind {
    let lower = ascii_lower(path);
    if is_dir || has_pem_ending(path) {
        KeyStoreKind::PemOrDir
    } else if has_suffix(lower, ".p12"@) || has_suffix(lower, ".pfx"@) {
        KeyStoreKind::Pkcs12
    } else if has_suffix(lower, ".jceks"@) {
        KeyStoreKind::JksOrJceks
    } else if has_suffix(lower, ".jks"@) {
        match content {
            Some(c) => if has_jks_magic(c) {
                KeyStoreKind::JksOrJceks
            } else if is_pkcs12_der(c) {
                KeyStoreKind::Pkcs12
            } else {
                KeyStoreKind::Unknown
            },
            None => KeyStoreKind::Unknown,
        }
    } else {
        KeyStoreKind::Unknown
    }
}

/// Whether the characters end with `suffix`.
fn lower_ends_with(lower: &Vec<char>, suffix: &str) -> (r: bool)
    ensures
        r == has_suffix(lower@, suffix@),
{
    let tail = chars_of(suffix);
    chars_end_with(lower, &tail)
}

/// Whether the path names a PEM file by its ending.
pub fn pem_ending(path: &str) -> (r: bool)
    ensures
        r == has_pem_ending(path@),
{
    let lower = lower_chars(path);
    lower_ends_with(&lower, ".pem") || lower_ends_with(&lower, ".crt") || lower_ends_with(
        &lower,
        ".cer",
    ) || lower_ends_with(&lower, ".bundle")
}

/// Tells the kind of a trust store, by the ending of its path first and by its content
/// where the ending is `.jks`.
pub fn detect_keystore_kind(path: &str, is_dir: bool, content: Option<&[u8]>) -> (kind:
    KeyStoreKind)
    ensures
        kind == keystore_kind(path@, is_dir, opt_bytes(content)),
{
    if is_dir || pem_ending(path) {
        return KeyStoreKind::PemOrDir;
    }
    let lower = lower_chars(path);
    if lower_ends_with(&lower, ".p12") || lower_ends_with(&lower, ".pfx") {
        return KeyStoreKind::Pkcs12;
    }
    if lower_ends_with(&lower, ".jceks") {
        return KeyStoreKind::JksOrJceks;
    }
    if lower_ends_with(&lower, ".jks") {
        return match content {
            Some(c) => {
                if c.len() >= 4 && c[0] == 0xFE && c[1] == 0xED && c[2] == 0xFE && c[3] == 0xED {
                    KeyStoreKind::JksOrJceks
                } else if pkcs12_from_der(c).is_ok() {
                    KeyStoreKind::Pkcs12
                } else {
                    KeyStoreKind::Unknown
                }
            },
            None => KeyStoreKind::Unknown,
        };
    }
    KeyStoreKind::Unknown
}

/// The kind of the trust store at `path` depends on what the file holds: it is no
/// directory, and its ending is `.jks` and none of those that settle the kind by themselves.
pub open spec fn kind_asks_content(path: Seq<char>, is_dir: bool) -> bool {
    let lower = ascii_lower(path);
    !is_dir && !has_pem_ending(path) && !has_suffix(lower, ".p12"@) && !has_suffix(lower, ".pfx"@)
        && !has_suffix(lower, ".jceks"@) && has_suffix(lower, ".jks"@)
}

/// Whether the file at `path` has to be read before its kind can be told.
pub fn needs_content(path: &str, is_dir: bool) -> (r: bool)
    ensures
        r == kind_asks_content(path@, is_dir),
{
    if is_dir || pem_ending(path) {
        return false;
    }
    let lower = lower_chars(path);
    if lower_ends_with(&lower, ".p12") || lower_ends_with(&lower, ".pfx") || lower_ends_with(
        &lower,
        ".jceks",
    ) {
        return false;
    }
    lower_ends_with(&lower, ".jks")
}

/// Where the kind of a trust store does not depend on what the file holds, it is the same
/// whatever is read from the file, and whether it can be read or not.
pub proof fn law_kind_without_content(
    path: Seq<char>,
    is_dir: bool,
    a: Option<Seq<u8>>,
    b: Option<Seq<u8>>,
)
    requires
        !kind_asks_content(path, is_dir),
    ensures
        keystore_kind(path, is_dir, a) == keystore_kind(path, is_dir, b),
{
}

} // verus!
